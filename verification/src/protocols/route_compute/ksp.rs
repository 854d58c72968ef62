//! Bookkeeping of the k-shortest-paths search: the order of candidates, the
//! pool of candidates, and what a spur search must avoid.

use vstd::prelude::*;
use crate::model::metric::{lemma_total_key_injective, total_key, total_order};
use crate::protocols::route_compute::path_order::{
    lemma_path_less_total, lemma_path_less_transitive, path_less, path_order,
};
use crate::protocols::route_compute::types::PathCandidate;

verus! {

/// Whether the candidate `a` sorts before `b`: by cost in the total order
/// of its pattern, then by node sequence.
pub open spec fn candidate_before(a: PathCandidate, b: PathCandidate) -> bool {
    if a.cost != b.cost {
        total_key(a.cost) < total_key(b.cost)
    } else {
        path_less(a.nodes@, b.nodes@)
    }
}

pub proof fn lemma_candidate_before(a: PathCandidate, b: PathCandidate, c: PathCandidate)
    ensures
        candidate_before(a, b) && candidate_before(b, c) ==> candidate_before(a, c),
        (a.cost == b.cost && a.nodes@ == b.nodes@) || candidate_before(a, b) || candidate_before(
            b,
            a,
        ),
        !(candidate_before(a, b) && candidate_before(b, a)),
{
    lemma_total_key_injective(a.cost, b.cost);
    lemma_total_key_injective(b.cost, c.cost);
    lemma_total_key_injective(a.cost, c.cost);
    lemma_path_less_total(a.nodes@, b.nodes@);
    if a.cost == b.cost && b.cost == c.cost && path_less(a.nodes@, b.nodes@) && path_less(
        b.nodes@,
        c.nodes@,
    ) {
        lemma_path_less_transitive(a.nodes@, b.nodes@, c.nodes@);
    }
}

/// Three-way comparison of two candidates: -1 when `a` sorts first, 0 when
/// cost and nodes are the same, 1 when `b` sorts first.
pub fn compare_path_candidate(a: &PathCandidate, b: &PathCandidate) -> (r: i8)
    ensures
        r == -1 || r == 0 || r == 1,
        (r == -1) == candidate_before(*a, *b),
        (r == 0) == (a.cost == b.cost && a.nodes@ == b.nodes@),
        (r == 1) == candidate_before(*b, *a),
{
    proof {
        lemma_candidate_before(*a, *b, *a);
        lemma_path_less_total(a.nodes@, b.nodes@);
    }
    if a.cost != b.cost {
        total_order(a.cost, b.cost)
    } else {
        path_order(&a.nodes, &b.nodes)
    }
}

/// Whether the node sequences of `s` differ pairwise.
pub open spec fn paths_distinct(s: Seq<PathCandidate>) -> bool {
    forall|i: int, j: int|
        0 <= i < s.len() && 0 <= j < s.len() && i != j ==> (#[trigger] s[i]).nodes@ != (
        #[trigger] s[j]).nodes@
}

/// Whether the candidate at `b` of `pool` was moved to the paths found: it
/// is appended to them and gone from the pool, and no candidate sorts
/// before it.
pub open spec fn is_promotion(
    shortest: Seq<PathCandidate>,
    pool: Seq<PathCandidate>,
    new_shortest: Seq<PathCandidate>,
    new_pool: Seq<PathCandidate>,
    b: int,
) -> bool {
    &&& 0 <= b < pool.len()
    &&& new_shortest == shortest.push(pool[b])
    &&& new_pool == pool.remove(b)
    &&& forall|c: int| 0 <= c < pool.len() ==> !candidate_before(#[trigger] pool[c], pool[b])
}

/// The paths found so far and the candidates for the next one. No node
/// sequence occurs twice among them.
#[derive(Debug)]
pub struct YenPool {
    shortest: Vec<PathCandidate>,
    pool: Vec<PathCandidate>,
}

impl YenPool {
    #[verifier::type_invariant]
    spec fn inv(self) -> bool {
        paths_distinct(self.shortest@ + self.pool@)
    }

    /// The paths found so far, in the order in which they were found.
    pub closed spec fn spec_shortest(&self) -> Seq<PathCandidate> {
        self.shortest@
    }

    /// The candidates for the next path.
    pub closed spec fn spec_pool(&self) -> Seq<PathCandidate> {
        self.pool@
    }

    /// Whether a path or a candidate has the nodes `nodes`.
    pub open spec fn spec_seen(&self, nodes: Seq<u32>) -> bool {
        exists|i: int|
            0 <= i < (self.spec_shortest() + self.spec_pool()).len() && (#[trigger] (
            self.spec_shortest() + self.spec_pool())[i]).nodes@ == nodes
    }

    /// A search that has found `first` and has no candidate yet.
    pub fn new(first: PathCandidate) -> (p: Self)
        ensures
            p.spec_shortest() == seq![first],
            p.spec_pool() == Seq::<PathCandidate>::empty(),
    {
        let mut shortest: Vec<PathCandidate> = Vec::new();
        shortest.push(first);
        assert(shortest@ =~= seq![first]);
        YenPool { shortest, pool: Vec::new() }
    }

    /// The number of paths found so far.
    pub fn found(&self) -> (n: usize)
        ensures
            n == self.spec_shortest().len(),
            paths_distinct(self.spec_shortest()),
    {
        proof {
            use_type_invariant(self);
            let all = self.shortest@ + self.pool@;
            assert forall|i: int, j: int|
                0 <= i < self.shortest@.len() && 0 <= j < self.shortest@.len() && i
                    != j implies (#[trigger] self.shortest@[i]).nodes@ != (
            #[trigger] self.shortest@[j]).nodes@ by {
                assert(all[i] == self.shortest@[i] && all[j] == self.shortest@[j]);
            }
        }
        self.shortest.len()
    }

    /// The nodes of the `i`-th path found.
    pub fn path_nodes(&self, i: usize) -> (nodes: &Vec<u32>)
        requires
            i < self.spec_shortest().len(),
        ensures
            nodes@ == self.spec_shortest()[i as int].nodes@,
    {
        &self.shortest[i].nodes
    }

    /// Whether a path or a candidate has the nodes `nodes`.
    pub fn seen(&self, nodes: &Vec<u32>) -> (r: bool)
        ensures
            r == self.spec_seen(nodes@),
    {
        let ghost all = self.shortest@ + self.pool@;
        let mut i: usize = 0;
        while i < self.shortest.len()
            invariant
                i <= self.shortest@.len(),
                all == self.shortest@ + self.pool@,
                forall|j: int| 0 <= j < i ==> (#[trigger] all[j]).nodes@ != nodes@,
            decreases self.shortest.len() - i,
        {
            if path_order(&self.shortest[i].nodes, nodes) == 0 {
                assert(all[i as int] == self.shortest@[i as int]);
                assert((self.spec_shortest() + self.spec_pool())[i as int].nodes@ == nodes@);
                return true;
            }
            assert(all[i as int] == self.shortest@[i as int]);
            i += 1;
        }
        let mut k: usize = 0;
        while k < self.pool.len()
            invariant
                k <= self.pool@.len(),
                all == self.shortest@ + self.pool@,
                forall|j: int|
                    0 <= j < self.shortest@.len() + k ==> (#[trigger] all[j]).nodes@ != nodes@,
            decreases self.pool.len() - k,
        {
            assert(all[self.shortest@.len() + k] == self.pool@[k as int]);
            if path_order(&self.pool[k].nodes, nodes) == 0 {
                assert((self.spec_shortest() + self.spec_pool())[self.shortest@.len() + k].nodes@
                    == nodes@);
                return true;
            }
            k += 1;
        }
        false
    }

    /// Offers a candidate; one whose nodes were seen before is refused.
    pub fn offer(&mut self, candidate: PathCandidate) -> (taken: bool)
        ensures
            taken == !old(self).spec_seen(candidate.nodes@),
            final(self).spec_shortest() == old(self).spec_shortest(),
            final(self).spec_pool() == (if taken {
                old(self).spec_pool().push(candidate)
            } else {
                old(self).spec_pool()
            }),
    {
        proof {
            use_type_invariant(&*self);
        }
        if self.seen(&candidate.nodes) {
            return false;
        }
        let ghost before = self.shortest@ + self.pool@;
        proof {
            assert forall|i: int| 0 <= i < before.len() implies (#[trigger] before[i]).nodes@
                != candidate.nodes@ by {
                if before[i].nodes@ == candidate.nodes@ {
                    assert((self.spec_shortest() + self.spec_pool())[i].nodes@ == candidate.nodes@);
                }
            }
        }
        let mut taken = YenPool { shortest: Vec::new(), pool: Vec::new() };
        core::mem::swap(self, &mut taken);
        let YenPool { shortest, pool: mut pool } = taken;
        pool.push(candidate);
        proof {
            let after = shortest@ + pool@;
            assert(after =~= before.push(candidate));
            assert forall|i: int, j: int|
                0 <= i < after.len() && 0 <= j < after.len() && i != j implies (
            #[trigger] after[i]).nodes@ != (#[trigger] after[j]).nodes@ by {
                if i < before.len() {
                    assert(after[i] == before[i]);
                }
                if j < before.len() {
                    assert(after[j] == before[j]);
                }
            }
        }
        *self = YenPool { shortest, pool };
        true
    }

    /// Moves the candidate that sorts first to the paths found; tells
    /// whether there was a candidate.
    pub fn promote_best(&mut self) -> (moved: bool)
        ensures
            moved == (old(self).spec_pool().len() > 0),
            !moved ==> final(self).spec_shortest() == old(self).spec_shortest() && final(self).spec_pool() == old(self).spec_pool(),
            moved ==> exists|b: int|
                #![trigger old(self).spec_pool()[b]]
                is_promotion(
                    old(self).spec_shortest(),
                    old(self).spec_pool(),
                    final(self).spec_shortest(),
                    final(self).spec_pool(),
                    b,
                ),
    {
        proof {
            use_type_invariant(&*self);
        }
        if self.pool.len() == 0 {
            return false;
        }
        let mut best: usize = 0;
        let mut i: usize = 1;
        while i < self.pool.len()
            invariant
                1 <= i <= self.pool@.len(),
                best < i,
                forall|c: int|
                    0 <= c < i ==> !candidate_before(#[trigger] self.pool@[c], self.pool@[best as int]),
            decreases self.pool.len() - i,
        {
            if compare_path_candidate(&self.pool[i], &self.pool[best]) == -1 {
                proof {
                    assert forall|c: int| 0 <= c < i + 1 implies !candidate_before(
                        #[trigger] self.pool@[c],
                        self.pool@[i as int],
                    ) by {
                        lemma_candidate_before(
                            self.pool@[c],
                            self.pool@[i as int],
                            self.pool@[best as int],
                        );
                        lemma_candidate_before(
                            self.pool@[i as int],
                            self.pool@[i as int],
                            self.pool@[i as int],
                        );
                    }
                }
                best = i;
            }
            i += 1;
        }
        let ghost s0 = self.shortest@;
        let ghost pool0 = self.pool@;
        let mut taken = YenPool { shortest: Vec::new(), pool: Vec::new() };
        core::mem::swap(self, &mut taken);
        let YenPool { shortest: mut shortest, pool: mut pool } = taken;
        let chosen = pool.remove(best);
        shortest.push(chosen);
        proof {
            let before = s0 + pool0;
            let after = shortest@ + pool@;
            assert(pool@ =~= pool0.remove(best as int));
            assert forall|i: int, j: int|
                0 <= i < after.len() && 0 <= j < after.len() && i != j implies (
            #[trigger] after[i]).nodes@ != (#[trigger] after[j]).nodes@ by {
                let n = s0.len() as int;
                let fi = if i < n {
                    i
                } else if i == n {
                    n + best
                } else if i - n - 1 < best {
                    i - 1
                } else {
                    i
                };
                let fj = if j < n {
                    j
                } else if j == n {
                    n + best
                } else if j - n - 1 < best {
                    j - 1
                } else {
                    j
                };
                assert(after[i] == before[fi]);
                assert(after[j] == before[fj]);
            }
        }
        *self = YenPool { shortest, pool };
        proof {
            let b = best as int;
            assert(self.spec_shortest() =~= s0.push(pool0[b]));
            assert(self.spec_pool() == pool0.remove(b));
            assert(forall|c: int| 0 <= c < pool0.len() ==> !candidate_before(#[trigger] pool0[c], pool0[b]));
            assert(is_promotion(s0, pool0, self.spec_shortest(), self.spec_pool(), b));
            assert(old(self).spec_pool()[b] == pool0[b]);
        }
        true
    }

    /// The paths found, in the order in which they were found. No node
    /// sequence occurs twice.
    pub fn into_paths(self) -> (paths: Vec<PathCandidate>)
        ensures
            paths@ == self.spec_shortest(),
            paths_distinct(paths@),
    {
        proof {
            use_type_invariant(&self);
            let all = self.shortest@ + self.pool@;
            assert forall|i: int, j: int|
                0 <= i < self.shortest@.len() && 0 <= j < self.shortest@.len() && i
                    != j implies (#[trigger] self.shortest@[i]).nodes@ != (
            #[trigger] self.shortest@[j]).nodes@ by {
                assert(all[i] == self.shortest@[i] && all[j] == self.shortest@[j]);
            }
        }
        let YenPool { shortest, pool } = self;
        shortest
    }
}

/// Whether `path` starts with the first `spur_idx + 1` nodes of `root_of`
/// and goes on after them.
pub open spec fn shares_root(path: Seq<u32>, root_of: Seq<u32>, spur_idx: int) -> bool {
    path.len() > spur_idx + 1 && path.take(spur_idx + 1) == root_of.take(spur_idx + 1)
}

/// Whether `path` shares the root of `root_of` up to the spur node at
/// `spur_idx`: the spur search must then not use the edge that `path` takes
/// out of the spur node.
pub fn path_shares_root(path: &Vec<u32>, root_of: &Vec<u32>, spur_idx: usize) -> (r: bool)
    requires
        spur_idx < root_of@.len(),
    ensures
        r == shares_root(path@, root_of@, spur_idx as int),
{
    if path.len() <= spur_idx || path.len() - 1 <= spur_idx {
        return false;
    }
    let mut i: usize = 0;
    while i <= spur_idx
        invariant
            i <= spur_idx + 1,
            spur_idx < usize::MAX,
            spur_idx < root_of@.len(),
            spur_idx + 1 < path@.len(),
            forall|j: int| 0 <= j < i ==> path@[j] == root_of@[j],
        decreases spur_idx + 1 - i,
    {
        if path[i] != root_of[i] {
            assert(path@.take(spur_idx + 1)[i as int] != root_of@.take(spur_idx + 1)[i as int]);
            return false;
        }
        i += 1;
    }
    assert(path@.take(spur_idx + 1) =~= root_of@.take(spur_idx + 1));
    true
}

/// The nodes of a path that follows the root of `previous` up to the spur
/// node at `spur_idx` and then the spur path `spur`, which starts at the
/// spur node.
pub fn join_root_and_spur(previous: &Vec<u32>, spur_idx: usize, spur: &Vec<u32>) -> (total: Vec<u32>)
    requires
        spur_idx < previous@.len(),
    ensures
        total@ == previous@.take(spur_idx as int) + spur@,
{
    let mut total: Vec<u32> = Vec::new();
    let mut i: usize = 0;
    while i < spur_idx
        invariant
            i <= spur_idx < previous@.len(),
            total@ == previous@.take(i as int),
        decreases spur_idx - i,
    {
        total.push(previous[i]);
        assert(previous@.take(i + 1) =~= previous@.take(i as int).push(previous@[i as int]));
        i += 1;
    }
    let mut k: usize = 0;
    while k < spur.len()
        invariant
            k <= spur@.len(),
            total@ == previous@.take(spur_idx as int) + spur@.take(k as int),
        decreases spur.len() - k,
    {
        total.push(spur[k]);
        assert(spur@.take(k + 1) =~= spur@.take(k as int).push(spur@[k as int]));
        assert(total@ =~= previous@.take(spur_idx as int) + spur@.take(k + 1));
        k += 1;
    }
    assert(spur@.take(spur@.len() as int) =~= spur@);
    total
}

} // verus!
