//! Bookkeeping of the incremental shortest-path computation: which nodes an
//! edge update affects, and when a full recomputation is due.

use vstd::prelude::*;
use crate::id_map::{ids_sorted, IdMap};
use crate::id_set::{ascending, IdSet};

verus! {

/// Whether `c` is a child of `p` in the child map `children`.
pub open spec fn is_child(children: Map<u32, IdSet>, p: u32, c: u32) -> bool {
    children.contains_key(p) && children[p].spec_set().contains(c)
}

/// Whether `children` is the child map of the tree with the parent map
/// `parent`: `c` is a child of `p` exactly where `p` is the parent of `c`.
pub open spec fn is_child_map_of(children: Map<u32, IdSet>, parent: Map<u32, u32>) -> bool {
    forall|p: u32, c: u32|
        #[trigger] is_child(children, p, c) <==> parent.contains_key(c) && parent[c] == p
}

/// Whether `x` descends from `root` within `n` steps: it is the root, or
/// its parent descends from the root within one step less.
pub open spec fn descends(parent: Map<u32, u32>, root: u32, x: u32, n: nat) -> bool
    decreases n,
{
    x == root || (n > 0 && parent.contains_key(x) && descends(
        parent,
        root,
        parent[x],
        (n - 1) as nat,
    ))
}

/// What descends from a child of `root` descends from `root`.
pub proof fn lemma_descends_through_child(parent: Map<u32, u32>, root: u32, c: u32, x: u32, n: nat)
    requires
        parent.contains_key(c),
        parent[c] == root,
        descends(parent, c, x, n),
    ensures
        descends(parent, root, x, n + 1),
    decreases n,
{
    if x == c {
        assert(descends(parent, root, root, n));
    } else {
        lemma_descends_through_child(parent, root, c, parent[x], (n - 1) as nat);
    }
}

/// An ascending sequence of ids is no longer than there are ids.
pub proof fn lemma_ascending_len(s: Seq<u32>)
    requires
        ascending(s),
    ensures
        s.len() <= 0x1_0000_0000,
{
    if s.len() > 0 {
        lemma_ascending_at_least(s, s.len() - 1);
    }
}

pub proof fn lemma_ascending_at_least(s: Seq<u32>, i: int)
    requires
        ascending(s),
        0 <= i < s.len(),
    ensures
        s[i] >= i,
    decreases i,
{
    if i > 0 {
        lemma_ascending_at_least(s, i - 1);
        assert(s[i - 1] < s[i]);
    }
}

/// The children of each node under the parent map `parent`.
pub fn build_children(parent: &IdMap<u32>) -> (children: IdMap<IdSet>)
    ensures
        is_child_map_of(children.spec_map(), parent.spec_map()),
{
    let mut children: IdMap<IdSet> = IdMap::new();
    let n = parent.len();
    let mut i: usize = 0;
    while i < n
        invariant
            i <= n,
            n == parent@.len(),
            ids_sorted(parent@),
            forall|p: u32, c: u32|
                #[trigger] is_child(children.spec_map(), p, c) <==> exists|j: int|
                    0 <= j < i && (#[trigger] parent@[j]).0 == c && parent@[j].1 == p,
        decreases n - i,
    {
        let child = parent.key_at(i);
        let p = *parent.value_at(i);
        let ghost before = children.spec_map();
        let mut kids = match children.get(p) {
            Some(k) => k.duplicate(),
            None => IdSet::new(),
        };
        kids.insert(child);
        children.insert(p, kids);
        proof {
            assert forall|q: u32, c: u32|
                #[trigger] is_child(children.spec_map(), q, c) <==> exists|j: int|
                    0 <= j < i + 1 && (#[trigger] parent@[j]).0 == c && parent@[j].1 == q by {
                if q == p {
                    assert(children.spec_map()[p].spec_set() == kids.spec_set());
                    if before.contains_key(p) {
                        assert(is_child(before, p, c) == before[p].spec_set().contains(c));
                    } else {
                        assert(!is_child(before, p, c));
                    }
                    if c == child {
                        assert(parent@[i as int].0 == c && parent@[i as int].1 == q);
                    }
                } else {
                    assert(is_child(children.spec_map(), q, c) == is_child(before, q, c));
                }
                if is_child(before, q, c) {
                    let j = choose|j: int|
                        0 <= j < i && (#[trigger] parent@[j]).0 == c && parent@[j].1 == q;
                    assert(0 <= j < i + 1);
                }
                if exists|j: int|
                    0 <= j < i + 1 && (#[trigger] parent@[j]).0 == c && parent@[j].1 == q {
                    let j = choose|j: int|
                        0 <= j < i + 1 && (#[trigger] parent@[j]).0 == c && parent@[j].1 == q;
                    if j < i {
                        assert(is_child(before, q, c));
                    }
                }
            }
        }
        i += 1;
    }
    proof {
        assert forall|p: u32, c: u32|
            #[trigger] is_child(children.spec_map(), p, c) <==> parent.spec_map().contains_key(c)
                && parent.spec_map()[c] == p by {
            if parent.spec_map().contains_key(c) {
                let j = choose|j: int| 0 <= j < parent@.len() && (#[trigger] parent@[j]).0 == c;
                crate::id_map::lemma_find_at(parent@, j);
            }
            if is_child(children.spec_map(), p, c) {
                let j = choose|j: int|
                    0 <= j < n && (#[trigger] parent@[j]).0 == c && parent@[j].1 == p;
                crate::id_map::lemma_find_at(parent@, j);
            }
        }
    }
    children
}

/// Whether `after` is `before` grown by a walk from `root` down the tree:
/// nothing is lost, the root is in, every node that came in descends from
/// the root, and with every node that came in its children are in.
pub open spec fn is_grown_from(parent: Map<u32, u32>, root: u32, before: Set<u32>, after: Set<u32>) -> bool {
    &&& before.subset_of(after)
    &&& after.contains(root)
    &&& forall|x: u32|
        #[trigger] after.contains(x) && !before.contains(x) ==> exists|n: nat|
            descends(parent, root, x, n)
    &&& forall|c: u32|
        #![trigger parent.contains_key(c)]
        parent.contains_key(c) && after.contains(parent[c]) && !before.contains(parent[c])
            ==> after.contains(c)
}

/// Adds `root` and what descends from it to `out`. A root that is in `out`
/// already is taken as visited: nothing is added.
fn collect_subtree(root: u32, children: &IdMap<IdSet>, out: &mut IdSet, Ghost(parent): Ghost<Map<u32, u32>>)
    requires
        is_child_map_of(children.spec_map(), parent),
    ensures
        old(out).spec_set().contains(root) ==> final(out)@ == old(out)@,
        !old(out).spec_set().contains(root) ==> is_grown_from(
            parent,
            root,
            old(out).spec_set(),
            final(out).spec_set(),
        ),
        old(out)@.len() <= final(out)@.len(),
        ascending(final(out)@),
    decreases 0x1_0000_0000 - old(out)@.len(),
{
    let ghost m = children.spec_map();
    let ghost before = out.spec_set();
    if !out.insert(root) {
        return ;
    }
    proof {
        lemma_ascending_len(out@);
    }
    assert(descends(parent, root, root, 0));
    if let Some(kids) = children.get(root) {
        let k = kids.len();
        let mut i: usize = 0;
        while i < k
            invariant
                i <= k,
                k == kids@.len(),
                ascending(kids@),
                ascending(out@),
                m == children.spec_map(),
                is_child_map_of(m, parent),
                m.contains_key(root),
                m[root] == *kids,
                before == old(out).spec_set(),
                !before.contains(root),
                old(out)@.len() < out@.len(),
                out@.len() <= 0x1_0000_0000,
                before.subset_of(out.spec_set()),
                out.spec_set().contains(root),
                forall|j: int| 0 <= j < i ==> out.spec_set().contains(#[trigger] kids@[j]),
                forall|x: u32|
                    #[trigger] out.spec_set().contains(x) && !before.contains(x) ==> exists|
                        n: nat,
                    |
                        descends(parent, root, x, n),
                forall|c: u32|
                    #![trigger parent.contains_key(c)]
                    parent.contains_key(c) && parent[c] != root && out.spec_set().contains(
                        parent[c],
                    ) && !before.contains(parent[c]) ==> out.spec_set().contains(c),
            decreases k - i,
        {
            let child = kids.get_at(i);
            let ghost mid = out.spec_set();
            collect_subtree(child, children, out, Ghost(parent));
            proof {
                lemma_ascending_len(out@);
                assert(is_child(m, root, child));
                assert(parent.contains_key(child) && parent[child] == root);
                if !mid.contains(child) {
                    assert forall|x: u32|
                        #[trigger] out.spec_set().contains(x) && !before.contains(x) implies exists|
                        n: nat,
                    |
                        descends(parent, root, x, n) by {
                        if !mid.contains(x) {
                            let n = choose|n: nat| descends(parent, child, x, n);
                            lemma_descends_through_child(parent, root, child, x, n);
                        }
                    }
                }
            }
            i += 1;
        }
        proof {
            assert forall|c: u32|
                #![trigger parent.contains_key(c)]
                parent.contains_key(c) && out.spec_set().contains(parent[c]) && !before.contains(
                    parent[c],
                ) implies out.spec_set().contains(c) by {
                if parent[c] == root {
                    assert(is_child(m, root, c));
                    let j = choose|j: int| 0 <= j < kids@.len() && kids@[j] == c;
                    assert(out.spec_set().contains(kids@[j]));
                }
            }
        }
    } else {
        proof {
            assert forall|c: u32|
                #![trigger parent.contains_key(c)]
                parent.contains_key(c) && out.spec_set().contains(parent[c]) && !before.contains(
                    parent[c],
                ) implies out.spec_set().contains(c) by {
                if parent[c] == root {
                    assert(is_child(m, root, c));
                }
            }
        }
    }
}

/// A walk from `root` into an empty set gives exactly what descends from
/// the root.
pub proof fn lemma_grown_from_nothing(parent: Map<u32, u32>, root: u32, sub: Set<u32>)
    requires
        is_grown_from(parent, root, Set::empty(), sub),
    ensures
        forall|x: u32| #[trigger] sub.contains(x) <==> exists|n: nat| descends(parent, root, x, n),
{
    assert forall|x: u32| (exists|n: nat| descends(parent, root, x, n)) implies sub.contains(x) by {
        let n = choose|n: nat| descends(parent, root, x, n);
        lemma_descendant_is_in(parent, root, sub, x, n);
    }
}

pub proof fn lemma_descendant_is_in(parent: Map<u32, u32>, root: u32, sub: Set<u32>, x: u32, n: nat)
    requires
        is_grown_from(parent, root, Set::empty(), sub),
        descends(parent, root, x, n),
    ensures
        sub.contains(x),
    decreases n,
{
    if x != root {
        lemma_descendant_is_in(parent, root, sub, parent[x], (n - 1) as nat);
        assert(parent.contains_key(x));
    }
}

/// One edge update as the affected-node marking sees it: its endpoints, and
/// whether the cost rose or the edge went away.
#[derive(Debug, Clone, Copy)]
pub struct EdgeChange {
    pub from: u32,
    pub to: u32,
    pub increase_or_removal: bool,
}

/// Whether the change `u` cuts the tree edge into `r`: the cost rose or the
/// edge went away, and `r` is the endpoint whose parent is the other one.
pub open spec fn cuts_tree_edge_into(parent: Map<u32, u32>, u: EdgeChange, r: u32) -> bool {
    u.increase_or_removal && ((r == u.to && parent.contains_key(u.to) && parent[u.to] == u.from)
        || (r == u.from && parent.contains_key(u.from) && parent[u.from] == u.to))
}

/// Whether the change `u` affects `x` in the tree with the parent map
/// `parent`: `x` is an endpoint of the change, or the change cuts the tree
/// edge into a node from which `x` descends.
pub open spec fn affects(parent: Map<u32, u32>, u: EdgeChange, x: u32) -> bool {
    x == u.from || x == u.to || exists|r: u32, n: nat|
        cuts_tree_edge_into(parent, u, r) && #[trigger] descends(parent, r, x, n)
}

/// The subtree below `root` in the tree with the parent map `parent`: the
/// root and everything that descends from it.
pub fn subtree_of(root: u32, parent: &IdMap<u32>) -> (sub: IdSet)
    ensures
        forall|x: u32|
            #[trigger] sub.spec_set().contains(x) <==> exists|n: nat|
                descends(parent.spec_map(), root, x, n),
{
    let children = build_children(parent);
    subtree_in(root, &children, Ghost(parent.spec_map()))
}

/// The subtree below `root`, walked down the child map `children`.
fn subtree_in(root: u32, children: &IdMap<IdSet>, Ghost(parent): Ghost<Map<u32, u32>>) -> (sub: IdSet)
    requires
        is_child_map_of(children.spec_map(), parent),
    ensures
        forall|x: u32|
            #[trigger] sub.spec_set().contains(x) <==> exists|n: nat| descends(parent, root, x, n),
{
    let mut sub = IdSet::new();
    collect_subtree(root, children, &mut sub, Ghost(parent));
    proof {
        lemma_grown_from_nothing(parent, root, sub.spec_set());
    }
    sub
}

/// The nodes that the updates `updates` affect in the tree with the parent
/// map `parent`: the endpoints of every update, and, where an update cuts a
/// tree edge, the subtree below it.
pub fn mark_affected(parent: &IdMap<u32>, updates: &[EdgeChange]) -> (affected: IdSet)
    ensures
        forall|x: u32|
            #[trigger] affected.spec_set().contains(x) <==> exists|i: int|
                0 <= i < updates@.len() && affects(parent.spec_map(), #[trigger] updates@[i], x),
{
    let children = build_children(parent);
    let mut affected = IdSet::new();
    let ghost pm = parent.spec_map();
    let ghost cm = children.spec_map();
    let mut i: usize = 0;
    while i < updates.len()
        invariant
            i <= updates@.len(),
            pm == parent.spec_map(),
            cm == children.spec_map(),
            is_child_map_of(cm, pm),
            forall|x: u32|
                #[trigger] affected.spec_set().contains(x) <==> exists|j: int|
                    0 <= j < i && affects(pm, #[trigger] updates@[j], x),
        decreases updates.len() - i,
    {
        let update = updates[i];
        let ghost before = affected.spec_set();
        affected.insert(update.from);
        affected.insert(update.to);
        let mut cut_to = false;
        let mut cut_from = false;
        if update.increase_or_removal {
            if let Some(p) = parent.get(update.to) {
                if *p == update.from {
                    cut_to = true;
                }
            }
            if let Some(p) = parent.get(update.from) {
                if *p == update.to {
                    cut_from = true;
                }
            }
        }
        let ghost sub_to = Set::<u32>::empty();
        let ghost sub_from = Set::<u32>::empty();
        if cut_to {
            let sub = subtree_in(update.to, &children, Ghost(pm));
            affected.extend(&sub);
            proof {
                sub_to = sub.spec_set();
            }
        }
        if cut_from {
            let sub = subtree_in(update.from, &children, Ghost(pm));
            affected.extend(&sub);
            proof {
                sub_from = sub.spec_set();
            }
        }
        proof {
            assert(cut_to == cuts_tree_edge_into(pm, update, update.to) || update.to
                == update.from);
            assert forall|x: u32|
                #[trigger] affected.spec_set().contains(x) <==> exists|j: int|
                    0 <= j < i + 1 && affects(pm, #[trigger] updates@[j], x) by {
                let hit = affects(pm, update, x);
                assert(affected.spec_set().contains(x) == (before.contains(x) || x == update.from
                    || x == update.to || sub_to.contains(x) || sub_from.contains(x)));
                if sub_to.contains(x) {
                    let n = choose|n: nat| descends(pm, update.to, x, n);
                    assert(cuts_tree_edge_into(pm, update, update.to) && descends(
                        pm,
                        update.to,
                        x,
                        n,
                    ));
                }
                if sub_from.contains(x) {
                    let n = choose|n: nat| descends(pm, update.from, x, n);
                    assert(cuts_tree_edge_into(pm, update, update.from) && descends(
                        pm,
                        update.from,
                        x,
                        n,
                    ));
                }
                if hit && x != update.from && x != update.to {
                    let (r, n) = choose|r: u32, n: nat|
                        cuts_tree_edge_into(pm, update, r) && #[trigger] descends(pm, r, x, n);
                    if r == update.to {
                        assert(cut_to);
                        assert(sub_to.contains(x));
                    } else {
                        assert(cut_from);
                        assert(sub_from.contains(x));
                    }
                }
                if before.contains(x) {
                    let j = choose|j: int| 0 <= j < i && affects(pm, #[trigger] updates@[j], x);
                    assert(0 <= j < i + 1);
                }
                if exists|j: int| 0 <= j < i + 1 && affects(pm, #[trigger] updates@[j], x) {
                    let j = choose|j: int|
                        0 <= j < i + 1 && affects(pm, #[trigger] updates@[j], x);
                    if j < i {
                        assert(before.contains(x));
                    } else {
                        assert(hit);
                    }
                }
                if hit {
                    assert(affects(pm, updates@[i as int], x));
                }
            }
        }
        i += 1;
    }
    affected
}

/// Whether so many nodes are affected that the tree is recomputed in full:
/// at least half of the nodes of the graph, an empty graph counting as one
/// node.
pub fn needs_full_recompute(affected: usize, node_count: usize) -> (r: bool)
    ensures
        r == (affected * 2 >= (if node_count >= 1 {
            node_count
        } else {
            1
        })),
{
    let nodes: usize = if node_count >= 1 {
        node_count
    } else {
        1
    };
    let doubled: usize = if affected > usize::MAX / 2 {
        usize::MAX
    } else {
        affected * 2
    };
    doubled >= nodes
}

/// How the cost of a candidate path stands to the cost held for its end
/// node; the caller compares the two within its tolerance.
#[derive(Debug, Clone, Copy, PartialEq, Eq, Structural)]
pub enum MetricVerdict {
    /// The candidate costs less.
    Better,
    /// The two cost the same.
    Equal,
    /// The candidate costs more.
    Worse,
}

/// Whether a candidate path takes the place of the path held for a node:
/// it costs less; or the same, with the smaller first hop; or the same
/// through the same first hop, with the smaller parent.
pub open spec fn spec_takes_place(
    verdict: MetricVerdict,
    candidate_hop: u32,
    candidate_parent: u32,
    held_hop: u32,
    held_parent: u32,
) -> bool {
    match verdict {
        MetricVerdict::Better => true,
        MetricVerdict::Equal => candidate_hop < held_hop || (candidate_hop == held_hop
            && candidate_parent < held_parent),
        MetricVerdict::Worse => false,
    }
}

/// Whether a candidate path takes the place of the path held for a node. A
/// node for which nothing is held counts as held through the greatest hop
/// and parent.
pub fn takes_place(
    verdict: MetricVerdict,
    candidate_hop: u32,
    candidate_parent: u32,
    held_hop: Option<u32>,
    held_parent: Option<u32>,
) -> (r: bool)
    ensures
        r == spec_takes_place(
            verdict,
            candidate_hop,
            candidate_parent,
            match held_hop {
                Some(h) => h,
                None => u32::MAX,
            },
            match held_parent {
                Some(p) => p,
                None => u32::MAX,
            },
        ),
{
    let hop = match held_hop {
        Some(h) => h,
        None => u32::MAX,
    };
    let parent = match held_parent {
        Some(p) => p,
        None => u32::MAX,
    };
    match verdict {
        MetricVerdict::Better => true,
        MetricVerdict::Equal => candidate_hop < hop || (candidate_hop == hop && candidate_parent
            < parent),
        MetricVerdict::Worse => false,
    }
}

/// Of two candidates for one node that cost the same, exactly one takes
/// the place of the other unless they agree in first hop and parent: the
/// tie is broken by first hop and then by parent.
pub proof fn lemma_tie_break_is_total(hop_a: u32, parent_a: u32, hop_b: u32, parent_b: u32)
    ensures
        (hop_a, parent_a) != (hop_b, parent_b) ==> (spec_takes_place(
            MetricVerdict::Equal,
            hop_a,
            parent_a,
            hop_b,
            parent_b,
        ) != spec_takes_place(MetricVerdict::Equal, hop_b, parent_b, hop_a, parent_a)),
        !spec_takes_place(MetricVerdict::Equal, hop_a, parent_a, hop_a, parent_a),
{
}

/// The first hop of a path that reaches `v` over the edge from `u`: `v`
/// itself where `u` is the source, else the first hop of `u`, which must
/// be known.
pub fn inherited_first_hop(src: u32, u: u32, v: u32, first_hop_of_u: Option<u32>) -> (r: Option<u32>)
    ensures
        r == (if u == src {
            Some(v)
        } else {
            first_hop_of_u
        }),
{
    if u == src {
        Some(v)
    } else {
        first_hop_of_u
    }
}

} // verus!
