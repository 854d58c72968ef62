//! The routing strategy: which algorithm computes the routes, and how one
//! next hop is selected among several.

use vstd::prelude::*;
use crate::id_map::{ids_sorted, map_of, IdMap};
use crate::id_set::IdSet;
use crate::model::metric::{bits_is_finite, bits_lt, is_finite, num_lt, total_key, total_order};
use crate::protocols::route_compute::types::{Graph, MultiMetricGraph, PathCandidate};

verus! {

/// How one next hop is selected among the candidates.
#[derive(Debug, Clone, Copy)]
pub enum NextHopSelectionPolicy {
    /// The candidate with the least metric, then the least id.
    Lowest,
    /// The candidate that a hash of source, destination and seed points at.
    Hash { seed: u64 },
}

/// The algorithm that computes scalar routes.
#[derive(Debug, Clone, Copy)]
pub enum ScalarRouteAlgorithm {
    Dijkstra,
    Ecmp,
    BellmanFord,
    YenKShortest { k_paths: usize },
}

/// The strategy for scalar routes.
#[derive(Debug, Clone, Copy)]
pub struct ScalarRouteStrategyConfig {
    pub algorithm: ScalarRouteAlgorithm,
    pub selection: NextHopSelectionPolicy,
}

impl Default for ScalarRouteStrategyConfig {
    /// Dijkstra with the lowest next hop.
    fn default() -> (c: ScalarRouteStrategyConfig)
        ensures
            c.algorithm is Dijkstra,
            c.selection is Lowest,
    {
        ScalarRouteStrategyConfig {
            algorithm: ScalarRouteAlgorithm::Dijkstra,
            selection: NextHopSelectionPolicy::Lowest,
        }
    }
}

/// A route as a strategy gives it: the metric, every usable next hop and
/// the one selected.
#[derive(Debug, Clone)]
pub struct StrategyRouteEntry {
    pub destination: u32,
    pub metric: u64,
    pub next_hops: IdSet,
    pub selected_next_hop: u32,
}

/// `x` rotated left by thirteen bits.
pub open spec fn rotate_left_13(x: u64) -> u64 {
    (x << 13) | (x >> 51)
}

/// The hash of a source, a destination and a seed that selects among equal
/// next hops. A seed of zero counts as one.
pub open spec fn spec_hash_mix(src: u32, destination: u32, seed: u64) -> u64 {
    let x0: u64 = if seed >= 1 {
        seed
    } else {
        1
    };
    let x1: u64 = x0 ^ vstd::wrapping::u64_specs::wrapping_mul(src as u64, 0x9E37_79B1_85EB_CA87);
    let x2: u64 = rotate_left_13(x1);
    let x3: u64 = x2 ^ vstd::wrapping::u64_specs::wrapping_mul(
        destination as u64,
        0xC2B2_AE3D_27D4_EB4F,
    );
    let x4: u64 = x3 ^ (x3 >> 33);
    let x5: u64 = vstd::wrapping::u64_specs::wrapping_mul(x4, 0xFF51_AFD7_ED55_8CCD);
    x5 ^ (x5 >> 33)
}

/// The hash of a source, a destination and a seed.
pub fn hash_mix(src: u32, destination: u32, seed: u64) -> (r: u64)
    ensures
        r == spec_hash_mix(src, destination, seed),
{
    let mut x: u64 = if seed >= 1 {
        seed
    } else {
        1
    };
    x = x ^ (src as u64).wrapping_mul(0x9E37_79B1_85EB_CA87);
    x = (x << 13) | (x >> 51);
    x = x ^ (destination as u64).wrapping_mul(0xC2B2_AE3D_27D4_EB4F);
    x = x ^ (x >> 33);
    x = x.wrapping_mul(0xFF51_AFD7_ED55_8CCD);
    x = x ^ (x >> 33);
    x
}

/// Whether the candidate `a` comes before `b` for the lowest selection: by
/// metric in the total order, then by id.
pub open spec fn lower_candidate(a: (u32, u64), b: (u32, u64)) -> bool {
    if a.1 != b.1 {
        total_key(a.1) < total_key(b.1)
    } else {
        a.0 < b.0
    }
}

/// How many leading candidates of `s` have a hop of at most `hop`.
pub open spec fn leading_upto(s: Seq<(u32, u64)>, hop: u32) -> int
    decreases s.len(),
{
    if s.len() > 0 && s[0].0 <= hop {
        1 + leading_upto(s.drop_first(), hop)
    } else {
        0
    }
}

/// The first `n` candidates of `s` sorted by hop, candidates with the same
/// hop in the order in which they came.
pub open spec fn sorted_by_hop(s: Seq<(u32, u64)>, n: int) -> Seq<(u32, u64)>
    decreases n,
{
    if n <= 0 {
        Seq::empty()
    } else {
        let t = sorted_by_hop(s, n - 1);
        t.insert(leading_upto(t, s[n - 1].0), s[n - 1])
    }
}

/// Whether the hops of `s` never descend.
pub open spec fn hops_ascend(s: Seq<(u32, u64)>) -> bool {
    forall|i: int, j: int| 0 <= i < j < s.len() ==> (#[trigger] s[i]).0 <= (#[trigger] s[j]).0
}

pub proof fn lemma_leading_upto(s: Seq<(u32, u64)>, hop: u32)
    requires
        hops_ascend(s),
    ensures
        0 <= leading_upto(s, hop) <= s.len(),
        forall|i: int| 0 <= i < leading_upto(s, hop) ==> (#[trigger] s[i]).0 <= hop,
        forall|i: int| leading_upto(s, hop) <= i < s.len() ==> (#[trigger] s[i]).0 > hop,
    decreases s.len(),
{
    if s.len() > 0 && s[0].0 <= hop {
        let t = s.drop_first();
        assert(hops_ascend(t)) by {
            assert forall|i: int, j: int| 0 <= i < j < t.len() implies (#[trigger] t[i]).0 <= (
            #[trigger] t[j]).0 by {
                assert(t[i] == s[i + 1] && t[j] == s[j + 1]);
            }
        }
        lemma_leading_upto(t, hop);
        assert forall|i: int| 0 <= i < leading_upto(s, hop) implies (#[trigger] s[i]).0 <= hop by {
            if i > 0 {
                assert(s[i] == t[i - 1]);
            }
        }
        assert forall|i: int| leading_upto(s, hop) <= i < s.len() implies (#[trigger] s[i]).0
            > hop by {
            assert(s[i] == t[i - 1]);
        }
    } else if s.len() > 0 {
        assert forall|i: int| 0 <= i < s.len() implies (#[trigger] s[i]).0 > hop by {
            if i > 0 {
                assert(s[0].0 <= s[i].0);
            }
        }
    }
}

/// Sorting by hop gives candidates whose hops never descend, as many as
/// were given.
pub proof fn lemma_sorted_by_hop(s: Seq<(u32, u64)>, n: int)
    requires
        0 <= n <= s.len(),
    ensures
        sorted_by_hop(s, n).len() == n,
        hops_ascend(sorted_by_hop(s, n)),
    decreases n,
{
    if n > 0 {
        lemma_sorted_by_hop(s, n - 1);
        let t = sorted_by_hop(s, n - 1);
        let x = s[n - 1];
        let p = leading_upto(t, x.0);
        lemma_leading_upto(t, x.0);
        let u = t.insert(p, x);
        assert forall|i: int, j: int| 0 <= i < j < u.len() implies (#[trigger] u[i]).0 <= (
        #[trigger] u[j]).0 by {
            let i2 = if i < p {
                i
            } else {
                i - 1
            };
            let j2 = if j < p {
                j
            } else {
                j - 1
            };
            if i != p {
                assert(u[i] == t[i2]);
            }
            if j != p {
                assert(u[j] == t[j2]);
            }
        }
    }
}

/// The candidates sorted by hop, candidates with the same hop in the order
/// in which they came.
pub fn sort_by_hop(candidates: &[(u32, u64)]) -> (r: Vec<(u32, u64)>)
    ensures
        r@ == sorted_by_hop(candidates@, candidates@.len() as int),
        r@.len() == candidates@.len(),
        hops_ascend(r@),
{
    let mut out: Vec<(u32, u64)> = Vec::new();
    let mut n: usize = 0;
    while n < candidates.len()
        invariant
            n <= candidates@.len(),
            out@ == sorted_by_hop(candidates@, n as int),
            out@.len() == n,
            hops_ascend(out@),
        decreases candidates.len() - n,
    {
        let x = candidates[n];
        let mut p: usize = 0;
        while p < out.len() && out[p].0 <= x.0
            invariant
                p <= out@.len(),
                hops_ascend(out@),
                forall|i: int| 0 <= i < p ==> (#[trigger] out@[i]).0 <= x.0,
            decreases out.len() - p,
        {
            p += 1;
        }
        proof {
            lemma_leading_upto(out@, x.0);
            let q = leading_upto(out@, x.0);
            if q < p {
                assert(out@[q].0 > x.0);
            } else if p < q {
                assert(out@[p as int].0 <= x.0);
            }
            lemma_sorted_by_hop(candidates@, n + 1);
        }
        out.insert(p, x);
        n += 1;
    }
    out
}

/// Whether `best` is the lowest of `candidates`: one of them, with none
/// before it.
pub open spec fn is_lowest(best: (u32, u64), candidates: Seq<(u32, u64)>) -> bool {
    candidates.contains(best) && forall|i: int|
        0 <= i < candidates.len() ==> !lower_candidate(#[trigger] candidates[i], best)
}

/// The candidate selected among `candidates` for a packet from `src` to
/// `destination`: under `Lowest` the one with the least metric in the total
/// order and then the least id; under `Hash` the one that the hash points at
/// among the candidates sorted by id.
pub fn pick_selected_hop(
    src: u32,
    destination: u32,
    candidates: &[(u32, u64)],
    selection: NextHopSelectionPolicy,
) -> (r: Option<(u32, u64)>)
    ensures
        r is Some <==> candidates@.len() > 0,
        r matches Some(best) ==> match selection {
            NextHopSelectionPolicy::Lowest => is_lowest(best, candidates@),
            NextHopSelectionPolicy::Hash { seed } => best == sorted_by_hop(
                candidates@,
                candidates@.len() as int,
            )[(spec_hash_mix(src, destination, seed) % (candidates@.len() as u64)) as int],
        },
{
    if candidates.len() == 0 {
        return None;
    }
    match selection {
        NextHopSelectionPolicy::Lowest => {
            let mut best = candidates[0];
            let mut i: usize = 1;
            while i < candidates.len()
                invariant
                    1 <= i <= candidates@.len(),
                    candidates@.contains(best),
                    forall|j: int|
                        0 <= j < i ==> !lower_candidate(#[trigger] candidates@[j], best),
                decreases candidates.len() - i,
            {
                let c = candidates[i];
                let lower = if c.1 != best.1 {
                    total_order(c.1, best.1) == -1
                } else {
                    c.0 < best.0
                };
                if lower {
                    proof {
                        assert forall|j: int| 0 <= j < i + 1 implies !lower_candidate(
                            #[trigger] candidates@[j],
                            c,
                        ) by {
                            crate::model::metric::lemma_total_key_injective(candidates@[j].1, c.1);
                            crate::model::metric::lemma_total_key_injective(
                                candidates@[j].1,
                                best.1,
                            );
                            crate::model::metric::lemma_total_key_injective(c.1, best.1);
                        }
                    }
                    best = c;
                }
                i += 1;
            }
            Some(best)
        },
        NextHopSelectionPolicy::Hash { seed } => {
            let sorted = sort_by_hop(candidates);
            let idx = hash_mix(src, destination, seed) % (sorted.len() as u64);
            Some(sorted[idx as usize])
        },
    }
}

/// The nodes of a graph with scalar costs.
pub fn collect_scalar_nodes(graph: &Graph) -> (nodes: IdSet)
    ensures
        forall|x: u32|
            #[trigger] nodes.spec_set().contains(x) <==> (graph.spec_map().contains_key(x)
                || exists|u: u32|
                #[trigger] graph.spec_map().contains_key(u) && graph.spec_map()[u].spec_map().contains_key(
                    x,
                )),
{
    collect_nodes(graph)
}

/// The nodes of a graph with several metrics on each link.
pub fn collect_multimetric_nodes(graph: &MultiMetricGraph) -> (nodes: IdSet)
    ensures
        forall|x: u32|
            #[trigger] nodes.spec_set().contains(x) <==> (graph.spec_map().contains_key(x)
                || exists|u: u32|
                #[trigger] graph.spec_map().contains_key(u) && graph.spec_map()[u].spec_map().contains_key(
                    x,
                )),
{
    collect_nodes(graph)
}

/// The nodes of `graph`: every node that has a row and every neighbour
/// that a row names.
pub fn collect_nodes<V>(graph: &IdMap<IdMap<V>>) -> (nodes: IdSet)
    ensures
        forall|x: u32|
            #[trigger] nodes.spec_set().contains(x) <==> (graph.spec_map().contains_key(x)
                || exists|u: u32|
                #[trigger] graph.spec_map().contains_key(u) && graph.spec_map()[u].spec_map().contains_key(
                    x,
                )),
{
    let mut nodes = IdSet::new();
    let n = graph.len();
    let mut i: usize = 0;
    while i < n
        invariant
            i <= n,
            n == graph@.len(),
            ids_sorted(graph@),
            forall|x: u32|
                #[trigger] nodes.spec_set().contains(x) <==> exists|a: int|
                    0 <= a < i && ((#[trigger] graph@[a]).0 == x
                        || graph@[a].1.spec_map().contains_key(x)),
        decreases n - i,
    {
        let u = graph.key_at(i);
        let row = graph.value_at(i);
        nodes.insert(u);
        let m = row.len();
        let mut k: usize = 0;
        while k < m
            invariant
                k <= m,
                m == row@.len(),
                i < n,
                n == graph@.len(),
                *row == graph@[i as int].1,
                u == graph@[i as int].0,
                ids_sorted(row@),
                forall|x: u32|
                    #[trigger] nodes.spec_set().contains(x) <==> ((exists|a: int|
                        0 <= a < i && ((#[trigger] graph@[a]).0 == x
                            || graph@[a].1.spec_map().contains_key(x))) || x == u || exists|b: int|
                        0 <= b < k && (#[trigger] row@[b]).0 == x),
            decreases m - k,
        {
            let v = row.key_at(k);
            nodes.insert(v);
            k += 1;
        }
        proof {
            assert forall|x: u32|
                #[trigger] nodes.spec_set().contains(x) <==> exists|a: int|
                    0 <= a < i + 1 && ((#[trigger] graph@[a]).0 == x
                        || graph@[a].1.spec_map().contains_key(x)) by {
                if row.spec_map().contains_key(x) {
                    let b = choose|b: int| 0 <= b < row@.len() && (#[trigger] row@[b]).0 == x;
                    assert(0 <= b < m);
                }
                if exists|b: int| 0 <= b < m && (#[trigger] row@[b]).0 == x {
                    let b = choose|b: int| 0 <= b < m && (#[trigger] row@[b]).0 == x;
                    crate::id_map::lemma_find_at(row@, b);
                }
                if x == u {
                    assert(graph@[i as int].0 == x);
                }
            }
        }
        i += 1;
    }
    proof {
        assert forall|x: u32|
            #[trigger] nodes.spec_set().contains(x) <==> (graph.spec_map().contains_key(x)
                || exists|u: u32|
                #[trigger] graph.spec_map().contains_key(u) && graph.spec_map()[u].spec_map().contains_key(
                    x,
                )) by {
            if nodes.spec_set().contains(x) {
                let a = choose|a: int|
                    0 <= a < n && ((#[trigger] graph@[a]).0 == x
                        || graph@[a].1.spec_map().contains_key(x));
                crate::id_map::lemma_find_at(graph@, a);
                if graph@[a].0 != x {
                    assert(graph.spec_map().contains_key(graph@[a].0));
                }
            }
            if graph.spec_map().contains_key(x) {
                let a = choose|a: int| 0 <= a < graph@.len() && (#[trigger] graph@[a]).0 == x;
                assert(0 <= a < n);
            }
            if exists|u: u32|
                #[trigger] graph.spec_map().contains_key(u) && graph.spec_map()[u].spec_map().contains_key(
                    x,
                ) {
                let u = choose|u: u32|
                    #[trigger] graph.spec_map().contains_key(u)
                        && graph.spec_map()[u].spec_map().contains_key(x);
                let a = choose|a: int| 0 <= a < graph@.len() && (#[trigger] graph@[a]).0 == u;
                crate::id_map::lemma_find_at(graph@, a);
            }
        }
    }
    nodes
}

/// The node on the predecessor chain of `current` whose predecessor is
/// `src`, found within `steps` steps.
pub open spec fn chain_first_hop(
    predecessor: Map<u32, u32>,
    src: u32,
    current: u32,
    steps: nat,
) -> Option<u32>
    decreases steps,
{
    if steps == 0 || !predecessor.contains_key(current) {
        None
    } else if predecessor[current] == src {
        Some(current)
    } else {
        chain_first_hop(predecessor, src, predecessor[current], (steps - 1) as nat)
    }
}

/// The first hop from `src` towards `destination` in a predecessor map: the
/// node whose predecessor is `src` on the chain that leads from the
/// destination back. There is none for the source itself, where the chain
/// breaks, or where it does not reach the source within one step more than
/// the map has entries.
pub fn first_hop_from_predecessor(predecessor: &IdMap<u32>, src: u32, destination: u32) -> (r: Option<
    u32,
>)
    ensures
        r == (if destination == src {
            None
        } else {
            chain_first_hop(
                predecessor.spec_map(),
                src,
                destination,
                (predecessor@.len() + 1) as nat,
            )
        }),
{
    if destination == src {
        return None;
    }
    let mut current = destination;
    let n = predecessor.len();
    let mut left: usize = n;
    // One step more than the map has entries: `left` steps and a last one.
    loop
        invariant
            destination != src,
            left <= n,
            n == predecessor@.len(),
            chain_first_hop(predecessor.spec_map(), src, destination, (n + 1) as nat)
                == chain_first_hop(predecessor.spec_map(), src, current, (left + 1) as nat),
        decreases left,
    {
        match predecessor.get(current) {
            None => {
                return None;
            },
            Some(parent) => {
                if *parent == src {
                    return Some(current);
                }
                if left == 0 {
                    assert(chain_first_hop(predecessor.spec_map(), src, *parent, 0) is None);
                    return None;
                }
                current = *parent;
                left -= 1;
            },
        }
    }
}

/// Whether a destination with the distance `metric` gets a route: it is not
/// the source and the distance is finite.
pub open spec fn is_routable(src: u32, destination: u32, metric: u64) -> bool {
    destination != src && is_finite(metric)
}

/// The routes of a single-path result: one for each destination other than
/// the source that has a finite distance and a first hop, in ascending order
/// of the destinations; the first hop is the only and the selected next hop.
pub fn entries_from_single(src: u32, dist: &IdMap<u64>, first_hop: &IdMap<u32>) -> (out: Vec<
    StrategyRouteEntry,
>)
    ensures
        forall|a: int, b: int|
            0 <= a < b < out@.len() ==> (#[trigger] out@[a]).destination < (
            #[trigger] out@[b]).destination,
        forall|a: int|
            0 <= a < out@.len() ==> {
                let e = #[trigger] out@[a];
                &&& dist.spec_map().contains_key(e.destination)
                &&& is_routable(src, e.destination, dist.spec_map()[e.destination])
                &&& first_hop.spec_map().contains_key(e.destination)
                &&& e.metric == dist.spec_map()[e.destination]
                &&& e.selected_next_hop == first_hop.spec_map()[e.destination]
                &&& e.next_hops@ == seq![e.selected_next_hop]
            },
        forall|d: u32|
            #![trigger dist.spec_map().contains_key(d)]
            dist.spec_map().contains_key(d) && is_routable(src, d, dist.spec_map()[d])
                && first_hop.spec_map().contains_key(d) ==> exists|a: int|
                0 <= a < out@.len() && (#[trigger] out@[a]).destination == d,
{
    let mut out: Vec<StrategyRouteEntry> = Vec::new();
    let n = dist.len();
    let mut i: usize = 0;
    while i < n
        invariant
            i <= n,
            n == dist@.len(),
            ids_sorted(dist@),
            forall|a: int|
                0 <= a < out@.len() ==> exists|j: int|
                    0 <= j < i && (#[trigger] out@[a]).destination == (#[trigger] dist@[j]).0,
            forall|a: int, b: int|
                0 <= a < b < out@.len() ==> (#[trigger] out@[a]).destination < (
                #[trigger] out@[b]).destination,
            forall|a: int|
                0 <= a < out@.len() ==> {
                    let e = #[trigger] out@[a];
                    &&& dist.spec_map().contains_key(e.destination)
                    &&& is_routable(src, e.destination, dist.spec_map()[e.destination])
                    &&& first_hop.spec_map().contains_key(e.destination)
                    &&& e.metric == dist.spec_map()[e.destination]
                    &&& e.selected_next_hop == first_hop.spec_map()[e.destination]
                    &&& e.next_hops@ == seq![e.selected_next_hop]
                },
            forall|j: int|
                0 <= j < i && is_routable(src, (#[trigger] dist@[j]).0, dist@[j].1)
                    && first_hop.spec_map().contains_key(dist@[j].0) ==> exists|a: int|
                    0 <= a < out@.len() && (#[trigger] out@[a]).destination == dist@[j].0,
        decreases n - i,
    {
        let destination = dist.key_at(i);
        let metric = *dist.value_at(i);
        let ghost before = out@;
        if destination != src && bits_is_finite(metric) {
            if let Some(hop) = first_hop.get(destination) {
                let mut next_hops = IdSet::new();
                next_hops.insert(*hop);
                proof {
                    assert(next_hops@.len() == 1);
                    assert(next_hops.spec_set().contains(*hop));
                    assert(next_hops@.contains(*hop));
                    assert(next_hops@ =~= seq![*hop]);
                    assert forall|a: int| 0 <= a < before.len() implies (
                    #[trigger] before[a]).destination < destination by {
                        let j = choose|j: int|
                            0 <= j < i && before[a].destination == (#[trigger] dist@[j]).0;
                        assert(dist@[j].0 < dist@[i as int].0);
                    }
                }
                out.push(
                    StrategyRouteEntry {
                        destination,
                        metric,
                        next_hops,
                        selected_next_hop: *hop,
                    },
                );
                proof {
                    assert forall|j: int|
                        0 <= j < i + 1 && is_routable(src, (#[trigger] dist@[j]).0, dist@[j].1)
                            && first_hop.spec_map().contains_key(dist@[j].0) implies exists|
                        a: int,
                    |
                        0 <= a < out@.len() && (#[trigger] out@[a]).destination == dist@[j].0 by {
                        if j < i {
                            let a = choose|a: int|
                                0 <= a < before.len() && (#[trigger] before[a]).destination
                                    == dist@[j].0;
                            assert(out@[a] == before[a]);
                        } else {
                            assert(out@[out@.len() - 1].destination == dist@[j].0);
                        }
                    }
                    assert forall|a: int| 0 <= a < out@.len() implies exists|j: int|
                        0 <= j < i + 1 && (#[trigger] out@[a]).destination == (
                        #[trigger] dist@[j]).0 by {
                        if a < before.len() {
                            let j = choose|j: int|
                                0 <= j < i && before[a].destination == (#[trigger] dist@[j]).0;
                            assert(out@[a] == before[a]);
                            assert(out@[a].destination == dist@[j].0);
                        } else {
                            assert(out@[a].destination == dist@[i as int].0);
                        }
                    }
                }
            }
        }
        i += 1;
    }
    proof {
        assert forall|d: u32|
            #![trigger dist.spec_map().contains_key(d)]
            dist.spec_map().contains_key(d) && is_routable(src, d, dist.spec_map()[d])
                && first_hop.spec_map().contains_key(d) implies exists|a: int|
            0 <= a < out@.len() && (#[trigger] out@[a]).destination == d by {
            let j = choose|j: int| 0 <= j < dist@.len() && (#[trigger] dist@[j]).0 == d;
            crate::id_map::lemma_find_at(dist@, j);
        }
    }
    out
}

} // verus!

verus! {

/// The entries that the first `n` of `options` hold, in order.
pub open spec fn picks(options: Seq<Option<StrategyRouteEntry>>, n: int) -> Seq<StrategyRouteEntry>
    decreases n,
{
    if n <= 0 {
        Seq::empty()
    } else {
        match options[n - 1] {
            Some(e) => picks(options, n - 1).push(e),
            None => picks(options, n - 1),
        }
    }
}

/// The entries that `options` hold, in order.
pub fn gather(options: Vec<Option<StrategyRouteEntry>>) -> (out: Vec<StrategyRouteEntry>)
    ensures
        out@ == picks(options@, options@.len() as int),
{
    let mut out: Vec<StrategyRouteEntry> = Vec::new();
    let mut options = options;
    let ghost all = options@;
    let mut rest: Vec<Option<StrategyRouteEntry>> = Vec::new();
    // Entries are taken from the end and put back in order afterwards.
    while options.len() > 0
        invariant
            options@ == all.take(options@.len() as int),
            options@.len() <= all.len(),
            rest@.len() == all.len() - options@.len(),
            forall|j: int|
                0 <= j < rest@.len() ==> #[trigger] rest@[j] == all[all.len() - 1 - j],
        decreases options.len(),
    {
        let ghost k = options@.len() as int;
        let last = options.pop();
        match last {
            Some(o) => {
                rest.push(o);
            },
            None => {},
        }
        assert(options@ =~= all.take(k - 1));
    }
    let n = rest.len();
    let mut i: usize = 0;
    while rest.len() > 0
        invariant
            rest@.len() + i == n,
            n == all.len(),
            forall|j: int|
                0 <= j < rest@.len() ==> #[trigger] rest@[j] == all[all.len() - 1 - j],
            out@ == picks(all, i as int),
        decreases rest.len(),
    {
        let o = rest.pop();
        match o {
            Some(Some(e)) => {
                out.push(e);
            },
            _ => {},
        }
        i += 1;
    }
    out
}

/// The candidates that the hops `hops` give at the metric `metric`.
pub open spec fn candidates_at(hops: Seq<u32>, metric: u64) -> Seq<(u32, u64)> {
    Seq::new(hops.len(), |i: int| (hops[i], metric))
}

/// Whether `r` is the route that an equal-cost result gives for
/// `destination`: one exists if the destination is not the source, has a
/// finite distance and a first hop; it then holds every first hop and
/// selects among them as [`pick_selected_hop`] does.
pub open spec fn is_equal_cost_entry(
    r: Option<StrategyRouteEntry>,
    src: u32,
    destination: u32,
    metric: u64,
    first_hops: Map<u32, IdSet>,
    selection: NextHopSelectionPolicy,
) -> bool {
    let usable = is_routable(src, destination, metric) && first_hops.contains_key(destination)
        && first_hops[destination]@.len() > 0;
    match r {
        None => !usable,
        Some(e) => {
            let hops = first_hops[destination]@;
            &&& usable
            &&& e.destination == destination
            &&& e.metric == metric
            &&& e.next_hops@ == hops
            &&& match selection {
                NextHopSelectionPolicy::Lowest => e.selected_next_hop == hops[0],
                NextHopSelectionPolicy::Hash { seed } => e.selected_next_hop == hops[(spec_hash_mix(
                    src,
                    destination,
                    seed,
                ) % (hops.len() as u64)) as int],
            }
        },
    }
}

/// Sorting candidates whose hops ascend strictly leaves them as they are.
pub proof fn lemma_sorted_is_identity(s: Seq<(u32, u64)>, n: int)
    requires
        0 <= n <= s.len(),
        forall|i: int, j: int| 0 <= i < j < s.len() ==> (#[trigger] s[i]).0 < (#[trigger] s[j]).0,
    ensures
        sorted_by_hop(s, n) == s.take(n),
    decreases n,
{
    if n > 0 {
        lemma_sorted_is_identity(s, n - 1);
        let t = s.take(n - 1);
        let x = s[n - 1];
        assert(hops_ascend(t)) by {
            assert forall|i: int, j: int| 0 <= i < j < t.len() implies (#[trigger] t[i]).0 <= (
            #[trigger] t[j]).0 by {
                assert(t[i] == s[i] && t[j] == s[j]);
            }
        }
        lemma_leading_upto(t, x.0);
        let p = leading_upto(t, x.0);
        if p < t.len() {
            assert(t[p] == s[p]);
            assert(s[p].0 < s[n - 1].0);
        }
        assert(t.insert(n - 1, x) =~= s.take(n));
    } else {
        assert(s.take(0) =~= Seq::<(u32, u64)>::empty());
    }
}

/// The route that an equal-cost result gives for `destination`.
pub fn equal_cost_entry(
    src: u32,
    destination: u32,
    metric: u64,
    first_hops: &IdMap<IdSet>,
    selection: NextHopSelectionPolicy,
) -> (r: Option<StrategyRouteEntry>)
    ensures
        is_equal_cost_entry(r, src, destination, metric, first_hops.spec_map(), selection),
{
    if destination == src || !bits_is_finite(metric) {
        return None;
    }
    let hops = match first_hops.get(destination) {
        Some(h) => h,
        None => {
            return None;
        },
    };
    let n = hops.len();
    if n == 0 {
        return None;
    }
    let mut candidates: Vec<(u32, u64)> = Vec::new();
    let mut i: usize = 0;
    while i < n
        invariant
            i <= n,
            n == hops@.len(),
            candidates@ == candidates_at(hops@, metric).take(i as int),
        decreases n - i,
    {
        candidates.push((hops.get_at(i), metric));
        assert(candidates_at(hops@, metric).take(i + 1) =~= candidates_at(hops@, metric).take(
            i as int,
        ).push((hops@[i as int], metric)));
        i += 1;
    }
    let ghost c = candidates_at(hops@, metric);
    assert(c.take(n as int) =~= c);
    let picked = pick_selected_hop(src, destination, candidates.as_slice(), selection);
    match picked {
        None => None,
        Some((selected_next_hop, selected_metric)) => {
            proof {
                lemma_sorted_is_identity(c, n as int);
                match selection {
                    NextHopSelectionPolicy::Lowest => {
                        let w = choose|w: int|
                            0 <= w < c.len() && c[w] == (selected_next_hop, selected_metric);
                        if w > 0 {
                            assert(hops@[0] < hops@[w]);
                            assert(lower_candidate(c[0], c[w]));
                        }
                    },
                    NextHopSelectionPolicy::Hash { seed } => {},
                }
            }
            Some(
                StrategyRouteEntry {
                    destination,
                    metric: selected_metric,
                    next_hops: hops.duplicate(),
                    selected_next_hop,
                },
            )
        },
    }
}

/// The routes of an equal-cost result: for each destination of `dist`, in
/// ascending order, the route that [`is_equal_cost_entry`] describes, where there
/// is one.
pub fn entries_from_equal_cost(
    src: u32,
    dist: &IdMap<u64>,
    first_hops: &IdMap<IdSet>,
    selection: NextHopSelectionPolicy,
) -> (out: Vec<StrategyRouteEntry>)
    ensures
        exists|options: Seq<Option<StrategyRouteEntry>>|
            #![trigger picks(options, dist@.len() as int)]
            options.len() == dist@.len() && out@ == picks(options, dist@.len() as int) && forall|
                j: int,
            |
                0 <= j < dist@.len() ==> is_equal_cost_entry(
                    #[trigger] options[j],
                    src,
                    dist@[j].0,
                    dist@[j].1,
                    first_hops.spec_map(),
                    selection,
                ),
{
    let mut options: Vec<Option<StrategyRouteEntry>> = Vec::new();
    let n = dist.len();
    let mut i: usize = 0;
    while i < n
        invariant
            i <= n,
            n == dist@.len(),
            options@.len() == i,
            forall|j: int|
                0 <= j < i ==> is_equal_cost_entry(
                    #[trigger] options@[j],
                    src,
                    dist@[j].0,
                    dist@[j].1,
                    first_hops.spec_map(),
                    selection,
                ),
        decreases n - i,
    {
        options.push(equal_cost_entry(src, dist.key_at(i), *dist.value_at(i), first_hops, selection));
        i += 1;
    }
    let ghost held = options@;
    let out = gather(options);
    assert(out@ == picks(held, dist@.len() as int));
    out
}

/// Whether `r` is the route that a Bellman-Ford result gives for
/// `destination`: one exists if the destination is not the source, has a
/// finite distance, is reached by no negative cycle and has a first hop on
/// its predecessor chain.
pub open spec fn is_bellman_ford_entry(
    r: Option<StrategyRouteEntry>,
    src: u32,
    destination: u32,
    metric: u64,
    predecessor: IdMap<u32>,
    negative_cycle_nodes: Set<u32>,
) -> bool {
    let hop = if destination == src {
        None
    } else {
        chain_first_hop(
            predecessor.spec_map(),
            src,
            destination,
            (predecessor@.len() + 1) as nat,
        )
    };
    let usable = is_routable(src, destination, metric) && !negative_cycle_nodes.contains(
        destination,
    ) && hop is Some;
    match r {
        None => !usable,
        Some(e) => {
            &&& usable
            &&& e.destination == destination
            &&& e.metric == metric
            &&& e.selected_next_hop == hop.unwrap()
            &&& e.next_hops@ == seq![hop.unwrap()]
        },
    }
}

/// The route that a Bellman-Ford result gives for `destination`.
pub fn bellman_ford_entry(
    src: u32,
    destination: u32,
    metric: u64,
    predecessor: &IdMap<u32>,
    negative_cycle_nodes: &IdSet,
) -> (r: Option<StrategyRouteEntry>)
    ensures
        is_bellman_ford_entry(
            r,
            src,
            destination,
            metric,
            *predecessor,
            negative_cycle_nodes.spec_set(),
        ),
{
    if destination == src || !bits_is_finite(metric) {
        return None;
    }
    if negative_cycle_nodes.contains(destination) {
        return None;
    }
    match first_hop_from_predecessor(predecessor, src, destination) {
        None => None,
        Some(hop) => {
            let mut next_hops = IdSet::new();
            next_hops.insert(hop);
            proof {
                assert(next_hops@.len() == 1);
                assert(next_hops.spec_set().contains(hop));
                assert(next_hops@.contains(hop));
                assert(next_hops@ =~= seq![hop]);
            }
            Some(StrategyRouteEntry { destination, metric, next_hops, selected_next_hop: hop })
        },
    }
}

/// The routes of a Bellman-Ford result: for each destination of `dist`, in
/// ascending order, the route that [`is_bellman_ford_entry`] describes,
/// where there is one.
pub fn entries_from_bellman_ford(
    src: u32,
    dist: &IdMap<u64>,
    predecessor: &IdMap<u32>,
    negative_cycle_nodes: &IdSet,
) -> (out: Vec<StrategyRouteEntry>)
    ensures
        exists|options: Seq<Option<StrategyRouteEntry>>|
            #![trigger picks(options, dist@.len() as int)]
            options.len() == dist@.len() && out@ == picks(options, dist@.len() as int) && forall|
                j: int,
            |
                0 <= j < dist@.len() ==> is_bellman_ford_entry(
                    #[trigger] options[j],
                    src,
                    dist@[j].0,
                    dist@[j].1,
                    *predecessor,
                    negative_cycle_nodes.spec_set(),
                ),
{
    let mut options: Vec<Option<StrategyRouteEntry>> = Vec::new();
    let n = dist.len();
    let mut i: usize = 0;
    while i < n
        invariant
            i <= n,
            n == dist@.len(),
            options@.len() == i,
            forall|j: int|
                0 <= j < i ==> is_bellman_ford_entry(
                    #[trigger] options@[j],
                    src,
                    dist@[j].0,
                    dist@[j].1,
                    *predecessor,
                    negative_cycle_nodes.spec_set(),
                ),
        decreases n - i,
    {
        options.push(
            bellman_ford_entry(
                src,
                dist.key_at(i),
                *dist.value_at(i),
                predecessor,
                negative_cycle_nodes,
            ),
        );
        i += 1;
    }
    let ghost held = options@;
    let out = gather(options);
    assert(out@ == picks(held, dist@.len() as int));
    out
}

} // verus!

verus! {

/// Whether the path `p` counts towards a route: it has a first hop, and,
/// where `need_finite` asks for it, a finite cost.
pub open spec fn path_counts(p: PathCandidate, need_finite: bool) -> bool {
    p.nodes@.len() >= 2 && (need_finite ==> is_finite(p.cost))
}

/// The best cost by first hop among the first `n` of `paths`: a later path
/// replaces the cost held for its first hop only if its cost is less as a
/// number.
pub open spec fn best_by_hop(paths: Seq<PathCandidate>, n: int, need_finite: bool) -> Map<u32, u64>
    decreases n,
{
    if n <= 0 {
        Map::empty()
    } else {
        let held = best_by_hop(paths, n - 1, need_finite);
        let p = paths[n - 1];
        if !path_counts(p, need_finite) {
            held
        } else {
            let hop = p.nodes@[1];
            if held.contains_key(hop) && !num_lt(p.cost, held[hop]) {
                held
            } else {
                held.insert(hop, p.cost)
            }
        }
    }
}

/// Whether `r` is the route that the paths `paths` to `destination` give:
/// one exists if some path counts; it holds the first hop of every path
/// that counts and selects, as [`pick_selected_hop`] does, among the first
/// hops with their best costs.
pub open spec fn is_paths_entry(
    r: Option<StrategyRouteEntry>,
    src: u32,
    destination: u32,
    best: Seq<(u32, u64)>,
    selection: NextHopSelectionPolicy,
) -> bool {
    match r {
        None => best.len() == 0,
        Some(e) => {
            &&& best.len() > 0
            &&& e.destination == destination
            &&& e.next_hops@ == Seq::new(best.len(), |i: int| best[i].0)
            &&& match selection {
                NextHopSelectionPolicy::Lowest => is_lowest(
                    (e.selected_next_hop, e.metric),
                    best,
                ),
                NextHopSelectionPolicy::Hash { seed } => (e.selected_next_hop, e.metric) == best[(
                spec_hash_mix(src, destination, seed) % (best.len() as u64)) as int],
            }
        },
    }
}

/// The best cost by first hop among `paths`, in ascending order of the hops.
pub fn per_hop_best(paths: &[PathCandidate], need_finite: bool) -> (best: IdMap<u64>)
    ensures
        best.spec_map() == best_by_hop(paths@, paths@.len() as int, need_finite),
        ids_sorted(best@),
{
    let mut best: IdMap<u64> = IdMap::new();
    let mut i: usize = 0;
    while i < paths.len()
        invariant
            i <= paths@.len(),
            best.spec_map() == best_by_hop(paths@, i as int, need_finite),
        decreases paths.len() - i,
    {
        let path = &paths[i];
        if path.nodes.len() >= 2 && (!need_finite || bits_is_finite(path.cost)) {
            let hop = path.nodes[1];
            let replace = match best.get(hop) {
                Some(held) => bits_lt(path.cost, *held),
                None => true,
            };
            if replace {
                best.insert(hop, path.cost);
            }
        }
        i += 1;
    }
    let n = best.len();
    best
}

/// The route that the paths `paths` from `src` to `destination` give.
pub fn paths_entry(
    src: u32,
    destination: u32,
    paths: &[PathCandidate],
    need_finite: bool,
    selection: NextHopSelectionPolicy,
) -> (r: Option<StrategyRouteEntry>)
    ensures
        exists|best: Seq<(u32, u64)>|
            #![trigger map_of(best)]
            ids_sorted(best) && map_of(best) == best_by_hop(
                paths@,
                paths@.len() as int,
                need_finite,
            ) && is_paths_entry(r, src, destination, best, selection),
{
    let best = per_hop_best(paths, need_finite);
    let n = best.len();
    if n == 0 {
        assert(is_paths_entry(None, src, destination, best@, selection));
        return None;
    }
    let mut candidates: Vec<(u32, u64)> = Vec::new();
    let mut next_hops = IdSet::new();
    let mut i: usize = 0;
    while i < n
        invariant
            i <= n,
            n == best@.len(),
            ids_sorted(best@),
            candidates@ == best@.take(i as int),
            next_hops@ == Seq::new(i as nat, |j: int| best@[j].0),
        decreases n - i,
    {
        let hop = best.key_at(i);
        let ghost before = next_hops@;
        candidates.push((hop, *best.value_at(i)));
        assert(best@.take(i + 1) =~= best@.take(i as int).push(best@[i as int]));
        next_hops.insert(hop);
        proof {
            let want = Seq::new((i + 1) as nat, |j: int| best@[j].0);
            assert(crate::id_set::ascending(want)) by {
                assert forall|a: int, b: int| 0 <= a < b < want.len() implies #[trigger] want[a]
                    < #[trigger] want[b] by {
                    assert(best@[a].0 < best@[b].0);
                }
            }
            assert(!before.contains(hop)) by {
                if before.contains(hop) {
                    let a = choose|a: int| 0 <= a < before.len() && before[a] == hop;
                    assert(best@[a].0 < best@[i as int].0);
                }
            }
            assert(next_hops@.to_set() =~= want.to_set()) by {
                assert forall|x: u32| next_hops@.to_set().contains(x) == want.to_set().contains(
                    x,
                ) by {
                    if before.contains(x) {
                        let a = choose|a: int| 0 <= a < before.len() && before[a] == x;
                        assert(want[a] == x);
                    }
                    if want.contains(x) {
                        let a = choose|a: int| 0 <= a < want.len() && want[a] == x;
                        if a < i {
                            assert(before[a] == x);
                        }
                    }
                    assert(want[i as int] == hop);
                }
            }
            lemma_ascending_unique(next_hops@, want);
        }
        i += 1;
    }
    assert(best@.take(n as int) =~= best@);
    match pick_selected_hop(src, destination, candidates.as_slice(), selection) {
        None => None,
        Some((selected_next_hop, selected_metric)) => {
            proof {
                assert forall|a: int, b: int| 0 <= a < b < best@.len() implies (
                #[trigger] best@[a]).0 < (#[trigger] best@[b]).0 by {}
                lemma_sorted_is_identity(best@, n as int);
            }
            let e = StrategyRouteEntry {
                destination,
                metric: selected_metric,
                next_hops,
                selected_next_hop,
            };
            assert(is_paths_entry(Some(e), src, destination, best@, selection));
            Some(e)
        },
    }
}

/// Two ascending sequences with the same elements are the same sequence.
pub proof fn lemma_ascending_unique(a: Seq<u32>, b: Seq<u32>)
    requires
        crate::id_set::ascending(a),
        crate::id_set::ascending(b),
        a.to_set() == b.to_set(),
    ensures
        a == b,
    decreases a.len(),
{
    if a.len() == 0 {
        if b.len() > 0 {
            assert(b.to_set().contains(b[0]));
            assert(a.contains(b[0]));
        }
        assert(a =~= b);
    } else if b.len() == 0 {
        assert(a.to_set().contains(a[0]));
        assert(b.contains(a[0]));
    } else {
        let x = a.last();
        let y = b.last();
        assert(a.to_set().contains(x));
        assert(b.contains(x));
        assert(b.to_set().contains(y));
        assert(a.contains(y));
        let i = choose|i: int| 0 <= i < b.len() && b[i] == x;
        let j = choose|j: int| 0 <= j < a.len() && a[j] == y;
        if i < b.len() - 1 {
            assert(b[i] < b[b.len() - 1]);
        }
        if j < a.len() - 1 {
            assert(a[j] < a[a.len() - 1]);
        }
        assert(x == y);
        let a2 = a.drop_last();
        let b2 = b.drop_last();
        assert(crate::id_set::ascending(a2)) by {
            assert forall|p: int, q: int| 0 <= p < q < a2.len() implies #[trigger] a2[p]
                < #[trigger] a2[q] by {
                assert(a2[p] == a[p] && a2[q] == a[q]);
            }
        }
        assert(crate::id_set::ascending(b2)) by {
            assert forall|p: int, q: int| 0 <= p < q < b2.len() implies #[trigger] b2[p]
                < #[trigger] b2[q] by {
                assert(b2[p] == b[p] && b2[q] == b[q]);
            }
        }
        assert(a2.to_set() =~= b2.to_set()) by {
            assert forall|z: u32| a2.to_set().contains(z) == b2.to_set().contains(z) by {
                if a2.contains(z) {
                    let p = choose|p: int| 0 <= p < a2.len() && a2[p] == z;
                    assert(a[p] == z);
                    assert(a[p] < a[a.len() - 1]);
                    assert(a.to_set().contains(z));
                    assert(b.contains(z));
                    let q = choose|q: int| 0 <= q < b.len() && b[q] == z;
                    assert(b2[q] == z);
                }
                if b2.contains(z) {
                    let p = choose|p: int| 0 <= p < b2.len() && b2[p] == z;
                    assert(b[p] == z);
                    assert(b[p] < b[b.len() - 1]);
                    assert(b.to_set().contains(z));
                    assert(a.contains(z));
                    let q = choose|q: int| 0 <= q < a.len() && a[q] == z;
                    assert(a2[q] == z);
                }
            }
        }
        lemma_ascending_unique(a2, b2);
        assert(a =~= a2.push(x));
        assert(b =~= b2.push(y));
    }
}

} // verus!
