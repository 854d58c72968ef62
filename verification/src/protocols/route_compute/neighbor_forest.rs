//! Paths in trees that are rooted at a neighbour.

use vstd::prelude::*;
use crate::id_map::IdMap;
use crate::protocols::route_compute::types::NeighborRootTree;

verus! {

/// The chain of predecessors from `current` back to `root`, both included,
/// found within `steps` steps.
pub open spec fn chain_to_root(prev: Map<u32, u32>, root: u32, current: u32, steps: nat) -> Option<
    Seq<u32>,
>
    decreases steps,
{
    if steps == 0 || !prev.contains_key(current) {
        None
    } else if prev[current] == root {
        Some(seq![current, root])
    } else {
        match chain_to_root(prev, root, prev[current], (steps - 1) as nat) {
            Some(s) => Some(seq![current] + s),
            None => None,
        }
    }
}

/// The path from `root` to `destination` in a predecessor map: the root
/// alone for the root itself, else the chain of predecessors of the
/// destination read from the root. There is none where the chain breaks or
/// does not reach the root within one step more than the map has entries.
pub open spec fn root_path(prev: Map<u32, u32>, entries: nat, root: u32, destination: u32) -> Option<
    Seq<u32>,
> {
    if destination == root {
        Some(seq![root])
    } else {
        match chain_to_root(prev, root, destination, entries + 1) {
            Some(s) => Some(s.reverse()),
            None => None,
        }
    }
}

/// A chain starts at its node, ends at the root, and each of its nodes is
/// followed by its predecessor.
pub proof fn lemma_chain_to_root(prev: Map<u32, u32>, root: u32, current: u32, steps: nat)
    requires
        chain_to_root(prev, root, current, steps) is Some,
    ensures
        ({
            let s = chain_to_root(prev, root, current, steps).unwrap();
            &&& 2 <= s.len() <= steps + 1
            &&& s[0] == current
            &&& s.last() == root
            &&& forall|i: int|
                0 <= i < s.len() - 1 ==> prev.contains_key(#[trigger] s[i]) && prev[s[i]] == s[i
                    + 1]
        }),
    decreases steps,
{
    if prev[current] != root {
        lemma_chain_to_root(prev, root, prev[current], (steps - 1) as nat);
        let t = chain_to_root(prev, root, prev[current], (steps - 1) as nat).unwrap();
        let s = seq![current] + t;
        assert forall|i: int| 0 <= i < s.len() - 1 implies prev.contains_key(#[trigger] s[i])
            && prev[s[i]] == s[i + 1] by {
            if i > 0 {
                assert(s[i] == t[i - 1]);
                assert(s[i + 1] == t[i]);
            }
        }
    }
}

/// A path from the root starts at the root, ends at the destination, and
/// each of its nodes is the predecessor of the next.
pub proof fn lemma_root_path(prev: Map<u32, u32>, entries: nat, root: u32, destination: u32)
    requires
        root_path(prev, entries, root, destination) is Some,
    ensures
        ({
            let p = root_path(prev, entries, root, destination).unwrap();
            &&& 1 <= p.len() <= entries + 2
            &&& p[0] == root
            &&& p.last() == destination
            &&& forall|i: int|
                0 <= i < p.len() - 1 ==> prev.contains_key(#[trigger] p[i + 1]) && prev[p[i + 1]]
                    == p[i]
        }),
{
    if destination != root {
        lemma_chain_to_root(prev, root, destination, entries + 1);
        let s = chain_to_root(prev, root, destination, entries + 1).unwrap();
        let p = s.reverse();
        assert forall|i: int| 0 <= i < p.len() - 1 implies prev.contains_key(#[trigger] p[i + 1])
            && prev[p[i + 1]] == p[i] by {
            let k = s.len() - 2 - i;
            assert(p[i + 1] == s[k]);
            assert(p[i] == s[k + 1]);
        }
    }
}

/// The path from `root` to `destination` in the predecessor map `prev`.
pub fn reconstruct_root_path(root: u32, destination: u32, prev: &IdMap<u32>) -> (r: Option<Vec<u32>>)
    ensures
        match r {
            Some(p) => root_path(prev.spec_map(), prev@.len(), root, destination) == Some(p@),
            None => root_path(prev.spec_map(), prev@.len(), root, destination) is None,
        },
{
    if destination == root {
        let mut only: Vec<u32> = Vec::new();
        only.push(root);
        assert(only@ =~= seq![root]);
        return Some(only);
    }
    let n = prev.len();
    let mut reversed: Vec<u32> = Vec::new();
    reversed.push(destination);
    let mut current = destination;
    let mut left: usize = n;
    let ghost m = prev.spec_map();
    loop
        invariant
            destination != root,
            left <= n,
            n == prev@.len(),
            m == prev.spec_map(),
            reversed@.len() >= 1,
            reversed@.last() == current,
            chain_to_root(m, root, destination, (n + 1) as nat) == (match chain_to_root(
                m,
                root,
                current,
                (left + 1) as nat,
            ) {
                Some(s) => Some(reversed@.drop_last() + s),
                None => None,
            }),
        decreases left,
    {
        match prev.get(current) {
            None => {
                return None;
            },
            Some(parent) => {
                let ghost before = reversed@;
                reversed.push(*parent);
                if *parent == root {
                    proof {
                        assert(before.drop_last() + seq![current, root] =~= reversed@);
                    }
                    let out = reverse_of(&reversed);
                    return Some(out);
                }
                if left == 0 {
                    assert(chain_to_root(m, root, *parent, 0) is None);
                    return None;
                }
                proof {
                    let tail = chain_to_root(m, root, *parent, left as nat);
                    if tail is Some {
                        assert(before.drop_last() + (seq![current] + tail.unwrap())
                            =~= reversed@.drop_last() + tail.unwrap());
                    }
                }
                current = *parent;
                left -= 1;
            },
        }
    }
}

/// The elements of `v` in reverse order.
pub fn reverse_of(v: &Vec<u32>) -> (r: Vec<u32>)
    ensures
        r@ == v@.reverse(),
{
    let mut out: Vec<u32> = Vec::new();
    let n = v.len();
    let mut i: usize = 0;
    while i < n
        invariant
            i <= n,
            n == v@.len(),
            out@.len() == i,
            forall|j: int| 0 <= j < i ==> #[trigger] out@[j] == v@[n - 1 - j],
        decreases n - i,
    {
        out.push(v[n - 1 - i]);
        i += 1;
    }
    assert(out@ =~= v@.reverse());
    out
}

/// The nodes of the path from `source_router_id` through the root of
/// `tree` to `destination`: the source followed by the path from the root.
/// There is none where the tree has no distance for the destination, where
/// the tree holds no path to it, or where the source lies on that path.
pub open spec fn path_via_root(source_router_id: u32, destination: u32, tree: NeighborRootTree) -> Option<
    Seq<u32>,
> {
    if destination == tree.root {
        Some(seq![source_router_id, tree.root])
    } else if !tree.dist.spec_map().contains_key(destination) {
        None
    } else {
        match root_path(tree.prev.spec_map(), tree.prev@.len(), tree.root, destination) {
            Some(p) => if p.contains(source_router_id) {
                None
            } else {
                Some(seq![source_router_id] + p)
            },
            None => None,
        }
    }
}

/// The nodes of the path from `source_router_id` through the root of `tree`
/// to `destination`.
pub fn build_path_nodes_via_neighbor_root(
    source_router_id: u32,
    destination: u32,
    tree: &NeighborRootTree,
) -> (r: Option<Vec<u32>>)
    ensures
        match r {
            Some(p) => path_via_root(source_router_id, destination, *tree) == Some(p@),
            None => path_via_root(source_router_id, destination, *tree) is None,
        },
{
    if destination == tree.root {
        let mut nodes: Vec<u32> = Vec::new();
        nodes.push(source_router_id);
        nodes.push(tree.root);
        assert(nodes@ =~= seq![source_router_id, tree.root]);
        return Some(nodes);
    }
    if !tree.dist.contains_key(destination) {
        return None;
    }
    let from_root = match reconstruct_root_path(tree.root, destination, &tree.prev) {
        Some(p) => p,
        None => {
            return None;
        },
    };
    proof {
        lemma_root_path(tree.prev.spec_map(), tree.prev@.len(), tree.root, destination);
    }
    let mut nodes: Vec<u32> = Vec::new();
    nodes.push(source_router_id);
    let mut i: usize = 0;
    while i < from_root.len()
        invariant
            i <= from_root@.len(),
            destination != tree.root,
            tree.dist.spec_map().contains_key(destination),
            root_path(tree.prev.spec_map(), tree.prev@.len(), tree.root, destination) == Some(
                from_root@,
            ),
            nodes@ == seq![source_router_id] + from_root@.take(i as int),
            forall|j: int| 0 <= j < i ==> from_root@[j] != source_router_id,
        decreases from_root.len() - i,
    {
        if from_root[i] == source_router_id {
            assert(from_root@.contains(source_router_id));
            return None;
        }
        nodes.push(from_root[i]);
        assert(from_root@.take(i + 1) =~= from_root@.take(i as int).push(from_root@[i as int]));
        assert(nodes@ =~= seq![source_router_id] + from_root@.take(i + 1));
        i += 1;
    }
    assert(from_root@.take(from_root@.len() as int) =~= from_root@);
    assert(!from_root@.contains(source_router_id));
    Some(nodes)
}

} // verus!
