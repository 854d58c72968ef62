//! What a negative cycle reaches.
//!
//! Relaxation finds the nodes at which a distance still falls after the
//! last round; every node that can be reached from one of these lies behind
//! a negative cycle and has no shortest distance.

use vstd::prelude::*;
use crate::id_set::{ascending, IdSet};
use crate::protocols::route_compute::spf::lemma_ascending_len;
use crate::protocols::route_compute::types::Graph;

verus! {

/// The graph as a map from each node to the set of its neighbours' rows.
pub open spec fn has_edge(graph: Graph, u: u32, v: u32) -> bool {
    graph.spec_map().contains_key(u) && graph.spec_map()[u].spec_map().contains_key(v)
}

/// Whether `to` can be reached from `from` over at most `n` edges.
pub open spec fn reaches(graph: Graph, from: u32, to: u32, n: nat) -> bool
    decreases n,
{
    from == to || (n > 0 && exists|mid: u32|
        #[trigger] has_edge(graph, mid, to) && reaches(graph, from, mid, (n - 1) as nat))
}

/// Whether `x` can be reached from a node of `seeds`.
pub open spec fn reached_from(graph: Graph, seeds: Set<u32>, x: u32) -> bool {
    exists|s: u32, n: nat| seeds.contains(s) && #[trigger] reaches(graph, s, x, n)
}

/// What is reached from a neighbour of `root` is reached from `root`.
pub proof fn lemma_reaches_through(graph: Graph, root: u32, c: u32, x: u32, n: nat)
    requires
        has_edge(graph, root, c),
        reaches(graph, c, x, n),
    ensures
        reaches(graph, root, x, n + 1),
    decreases n,
{
    if x == c {
        assert(reaches(graph, root, root, n));
        assert(has_edge(graph, root, x) && reaches(graph, root, root, n));
    } else {
        let mid = choose|mid: u32|
            #[trigger] has_edge(graph, mid, x) && reaches(graph, c, mid, (n - 1) as nat);
        lemma_reaches_through(graph, root, c, mid, (n - 1) as nat);
        assert(has_edge(graph, mid, x) && reaches(graph, root, mid, n));
    }
}

/// Whether `after` is `before` grown by a walk from `root`: nothing is lost,
/// the root is in, every node that came in is reached from the root, and
/// with every node that came in its neighbours are in.
pub open spec fn is_walked_from(graph: Graph, root: u32, before: Set<u32>, after: Set<u32>) -> bool {
    &&& before.subset_of(after)
    &&& after.contains(root)
    &&& forall|x: u32|
        #[trigger] after.contains(x) && !before.contains(x) ==> exists|n: nat|
            reaches(graph, root, x, n)
    &&& forall|u: u32, v: u32|
        after.contains(u) && !before.contains(u) && #[trigger] has_edge(graph, u, v)
            ==> after.contains(v)
}

/// Adds `root` and what is reached from it to `out`. A root that is in
/// `out` already is taken as visited: nothing is added.
fn walk_from(root: u32, graph: &Graph, out: &mut IdSet)
    ensures
        old(out).spec_set().contains(root) ==> final(out)@ == old(out)@,
        !old(out).spec_set().contains(root) ==> is_walked_from(
            *graph,
            root,
            old(out).spec_set(),
            final(out).spec_set(),
        ),
        old(out)@.len() <= final(out)@.len(),
        ascending(final(out)@),
    decreases 0x1_0000_0000 - old(out)@.len(),
{
    let ghost before = out.spec_set();
    if !out.insert(root) {
        return ;
    }
    proof {
        lemma_ascending_len(out@);
    }
    assert(reaches(*graph, root, root, 0));
    if let Some(row) = graph.get(root) {
        let k = row.len();
        let mut i: usize = 0;
        while i < k
            invariant
                i <= k,
                k == row@.len(),
                crate::id_map::ids_sorted(row@),
                ascending(out@),
                graph.spec_map().contains_key(root),
                graph.spec_map()[root] == *row,
                before == old(out).spec_set(),
                !before.contains(root),
                old(out)@.len() < out@.len(),
                out@.len() <= 0x1_0000_0000,
                before.subset_of(out.spec_set()),
                out.spec_set().contains(root),
                forall|j: int| 0 <= j < i ==> out.spec_set().contains((#[trigger] row@[j]).0),
                forall|x: u32|
                    #[trigger] out.spec_set().contains(x) && !before.contains(x) ==> exists|
                        n: nat,
                    |
                        reaches(*graph, root, x, n),
                forall|u: u32, v: u32|
                    out.spec_set().contains(u) && !before.contains(u) && u != root
                        && #[trigger] has_edge(*graph, u, v) ==> out.spec_set().contains(v),
            decreases k - i,
        {
            let next = row.key_at(i);
            let ghost mid = out.spec_set();
            walk_from(next, graph, out);
            proof {
                lemma_ascending_len(out@);
                assert(has_edge(*graph, root, next));
                if !mid.contains(next) {
                    assert forall|x: u32|
                        #[trigger] out.spec_set().contains(x) && !before.contains(x) implies exists|
                        n: nat,
                    |
                        reaches(*graph, root, x, n) by {
                        if !mid.contains(x) {
                            let n = choose|n: nat| reaches(*graph, next, x, n);
                            lemma_reaches_through(*graph, root, next, x, n);
                        }
                    }
                }
            }
            i += 1;
        }
        proof {
            assert forall|u: u32, v: u32|
                out.spec_set().contains(u) && !before.contains(u) && #[trigger] has_edge(
                    *graph,
                    u,
                    v,
                ) implies out.spec_set().contains(v) by {
                if u == root {
                    let j = choose|j: int| 0 <= j < row@.len() && (#[trigger] row@[j]).0 == v;
                    assert(out.spec_set().contains(row@[j].0));
                }
            }
        }
    }
}

/// A set that holds the seeds and, with each of its nodes, the neighbours
/// of that node, holds everything that is reached from a seed.
pub proof fn lemma_closed_holds_reached(graph: Graph, seeds: Set<u32>, out: Set<u32>, s: u32, x: u32, n: nat)
    requires
        seeds.subset_of(out),
        forall|u: u32, v: u32| out.contains(u) && #[trigger] has_edge(graph, u, v) ==> out.contains(v),
        seeds.contains(s),
        reaches(graph, s, x, n),
    ensures
        out.contains(x),
    decreases n,
{
    if x != s {
        let mid = choose|mid: u32|
            #[trigger] has_edge(graph, mid, x) && reaches(graph, s, mid, (n - 1) as nat);
        lemma_closed_holds_reached(graph, seeds, out, s, mid, (n - 1) as nat);
    }
}

/// The nodes that are reached from a node of `seeds` over the edges of
/// `graph`, whatever their weights.
pub fn expand_reachable(graph: &Graph, seeds: &IdSet) -> (out: IdSet)
    ensures
        forall|x: u32|
            #[trigger] out.spec_set().contains(x) <==> reached_from(*graph, seeds.spec_set(), x),
{
    let mut out = IdSet::new();
    let k = seeds.len();
    let mut i: usize = 0;
    while i < k
        invariant
            i <= k,
            k == seeds@.len(),
            ascending(seeds@),
            forall|j: int| 0 <= j < i ==> out.spec_set().contains(#[trigger] seeds@[j]),
            forall|x: u32|
                #[trigger] out.spec_set().contains(x) ==> reached_from(*graph, seeds.spec_set(), x),
            forall|u: u32, v: u32|
                out.spec_set().contains(u) && #[trigger] has_edge(*graph, u, v)
                    ==> out.spec_set().contains(v),
        decreases k - i,
    {
        let seed = seeds.get_at(i);
        let ghost before = out.spec_set();
        walk_from(seed, graph, &mut out);
        proof {
            assert forall|x: u32| #[trigger] out.spec_set().contains(x) implies reached_from(
                *graph,
                seeds.spec_set(),
                x,
            ) by {
                if !before.contains(x) {
                    let n = choose|n: nat| reaches(*graph, seed, x, n);
                    assert(seeds.spec_set().contains(seed) && reaches(*graph, seed, x, n));
                }
            }
        }
        i += 1;
    }
    proof {
        assert forall|x: u32| reached_from(*graph, seeds.spec_set(), x) implies out.spec_set().contains(
            x,
        ) by {
            let (s, n) = choose|s: u32, n: nat|
                seeds.spec_set().contains(s) && #[trigger] reaches(*graph, s, x, n);
            assert(seeds.spec_set().subset_of(out.spec_set())) by {
                assert forall|y: u32| seeds.spec_set().contains(y) implies out.spec_set().contains(
                    y,
                ) by {
                    let j = choose|j: int| 0 <= j < seeds@.len() && seeds@[j] == y;
                    assert(out.spec_set().contains(seeds@[j]));
                }
            }
            lemma_closed_holds_reached(*graph, seeds.spec_set(), out.spec_set(), s, x, n);
        }
    }
    out
}

} // verus!
