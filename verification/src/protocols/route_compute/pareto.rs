//! The non-dominated front of paths that are costed in three objectives.

use vstd::prelude::*;
use crate::model::metric::{bits_eq, lemma_total_key_injective, num_eq, total_key, total_order};
use crate::protocols::route_compute::path_order::{
    lemma_path_less_total, lemma_path_less_transitive, path_less, path_order,
};
use crate::protocols::route_compute::types::{MultiObjectiveCost, ParetoPath};

verus! {

/// Whether the cost `a` sorts before `b`: by delay, then loss, then
/// utilization, each in the total order of its pattern.
pub open spec fn objective_before(a: MultiObjectiveCost, b: MultiObjectiveCost) -> bool {
    if a.delay != b.delay {
        total_key(a.delay) < total_key(b.delay)
    } else if a.loss != b.loss {
        total_key(a.loss) < total_key(b.loss)
    } else {
        a.utilization != b.utilization && total_key(a.utilization) < total_key(b.utilization)
    }
}

/// Whether the path `a` sorts before `b`: by cost, then by node sequence.
pub open spec fn pareto_before(a: ParetoPath, b: ParetoPath) -> bool {
    if a.objective != b.objective {
        objective_before(a.objective, b.objective)
    } else {
        path_less(a.nodes@, b.nodes@)
    }
}

/// Whether two costs are equal as numbers, objective by objective.
pub open spec fn cost_eq(a: MultiObjectiveCost, b: MultiObjectiveCost) -> bool {
    num_eq(a.delay, b.delay) && num_eq(a.loss, b.loss) && num_eq(a.utilization, b.utilization)
}

/// Whether some cost of `set` dominates `cost` or equals it.
pub open spec fn is_dominated_by_set(cost: MultiObjectiveCost, set: Seq<MultiObjectiveCost>) -> bool {
    exists|i: int|
        0 <= i < set.len() && ((#[trigger] set[i]).spec_dominates(cost) || cost_eq(set[i], cost))
}

/// Whether no path of `r` is dominated by another path of `r`.
pub open spec fn is_front(r: Seq<ParetoPath>) -> bool {
    forall|i: int, j: int|
        0 <= i < r.len() && 0 <= j < r.len() && i != j ==> !(#[trigger] r[i]).objective.spec_dominates(
            (#[trigger] r[j]).objective,
        )
}

/// Whether the paths of `r` ascend strictly by cost and then node sequence.
pub open spec fn front_sorted(r: Seq<ParetoPath>) -> bool {
    forall|i: int, j: int| 0 <= i < j < r.len() ==> pareto_before(#[trigger] r[i], #[trigger] r[j])
}

/// Whether the node sequences of `r` differ pairwise.
pub open spec fn nodes_distinct(r: Seq<ParetoPath>) -> bool {
    forall|i: int, j: int|
        0 <= i < r.len() && 0 <= j < r.len() && i != j ==> (#[trigger] r[i]).nodes@ != (
        #[trigger] r[j]).nodes@
}

pub proof fn lemma_objective_before(a: MultiObjectiveCost, b: MultiObjectiveCost, c: MultiObjectiveCost)
    ensures
        objective_before(a, b) && objective_before(b, c) ==> objective_before(a, c),
        a == b || objective_before(a, b) || objective_before(b, a),
        !(objective_before(a, b) && objective_before(b, a)),
        !objective_before(a, a),
{
    lemma_total_key_injective(a.delay, b.delay);
    lemma_total_key_injective(b.delay, c.delay);
    lemma_total_key_injective(a.delay, c.delay);
    lemma_total_key_injective(a.loss, b.loss);
    lemma_total_key_injective(b.loss, c.loss);
    lemma_total_key_injective(a.loss, c.loss);
    lemma_total_key_injective(a.utilization, b.utilization);
    lemma_total_key_injective(b.utilization, c.utilization);
    lemma_total_key_injective(a.utilization, c.utilization);
}

pub proof fn lemma_pareto_before(a: ParetoPath, b: ParetoPath, c: ParetoPath)
    ensures
        pareto_before(a, b) && pareto_before(b, c) ==> pareto_before(a, c),
        (a.objective == b.objective && a.nodes@ == b.nodes@) || pareto_before(a, b)
            || pareto_before(b, a),
        !(pareto_before(a, b) && pareto_before(b, a)),
{
    lemma_objective_before(a.objective, b.objective, c.objective);
    lemma_objective_before(b.objective, a.objective, c.objective);
    lemma_objective_before(a.objective, c.objective, b.objective);
    lemma_path_less_total(a.nodes@, b.nodes@);
    if a.objective == b.objective && b.objective == c.objective && path_less(a.nodes@, b.nodes@)
        && path_less(b.nodes@, c.nodes@) {
        lemma_path_less_transitive(a.nodes@, b.nodes@, c.nodes@);
    }
}

/// Whether the cost `a` sorts before `b`.
pub fn objective_lex_before(a: MultiObjectiveCost, b: MultiObjectiveCost) -> (r: bool)
    ensures
        r == objective_before(a, b),
{
    if a.delay != b.delay {
        total_order(a.delay, b.delay) == -1
    } else if a.loss != b.loss {
        total_order(a.loss, b.loss) == -1
    } else {
        a.utilization != b.utilization && total_order(a.utilization, b.utilization) == -1
    }
}

/// Whether the path `a` sorts before `b`.
pub fn pareto_path_before(a: &ParetoPath, b: &ParetoPath) -> (r: bool)
    ensures
        r == pareto_before(*a, *b),
{
    if a.objective.delay != b.objective.delay || a.objective.loss != b.objective.loss
        || a.objective.utilization != b.objective.utilization {
        objective_lex_before(a.objective, b.objective)
    } else {
        path_order(&a.nodes, &b.nodes) == -1
    }
}

/// Whether some cost of `set` dominates `cost` or equals it.
pub fn dominated_by_set(cost: MultiObjectiveCost, set: &[MultiObjectiveCost]) -> (r: bool)
    ensures
        r == is_dominated_by_set(cost, set@),
{
    let mut i: usize = 0;
    while i < set.len()
        invariant
            i <= set@.len(),
            forall|j: int|
                0 <= j < i ==> !((#[trigger] set@[j]).spec_dominates(cost) || cost_eq(
                    set@[j],
                    cost,
                )),
        decreases set.len() - i,
    {
        let known = set[i];
        if known.dominates(cost) || (bits_eq(known.delay, cost.delay) && bits_eq(
            known.loss,
            cost.loss,
        ) && bits_eq(known.utilization, cost.utilization)) {
            return true;
        }
        i += 1;
    }
    false
}

/// A copy of the nodes `v`.
pub fn copy_nodes(v: &Vec<u32>) -> (r: Vec<u32>)
    ensures
        r@ == v@,
{
    let mut out: Vec<u32> = Vec::new();
    let mut i: usize = 0;
    while i < v.len()
        invariant
            i <= v@.len(),
            out@ == v@.take(i as int),
        decreases v.len() - i,
    {
        out.push(v[i]);
        assert(v@.take(i + 1) =~= v@.take(i as int).push(v@[i as int]));
        i += 1;
    }
    assert(v@.take(v@.len() as int) =~= v@);
    out
}

/// Whether `u` is the path `s`: the same nodes at the same cost.
pub open spec fn stands_for(u: ParetoPath, s: ParetoPath) -> bool {
    u.nodes@ == s.nodes@ && u.objective == s.objective
}

/// Whether `u` is one of the paths `sols`.
pub open spec fn comes_from(u: ParetoPath, sols: Seq<ParetoPath>) -> bool {
    exists|k: int| 0 <= k < sols.len() && stands_for(u, #[trigger] sols[k])
}

/// Whether `uniq` holds the nodes of `s` at a cost that `s` does not sort
/// before.
pub open spec fn covered_by(s: ParetoPath, uniq: Seq<ParetoPath>) -> bool {
    exists|i: int|
        0 <= i < uniq.len() && (#[trigger] uniq[i]).nodes@ == s.nodes@ && !objective_before(
            s.objective,
            uniq[i].objective,
        )
}

/// Whether `u` speaks for its node sequence among `sols`: it is one of
/// them, and none of them with the same nodes has a cost that sorts before
/// its cost.
pub open spec fn is_representative(u: ParetoPath, sols: Seq<ParetoPath>) -> bool {
    comes_from(u, sols) && forall|k: int|
        0 <= k < sols.len() && (#[trigger] sols[k]).nodes@ == u.nodes@ ==> !objective_before(
            sols[k].objective,
            u.objective,
        )
}

/// Whether `u` is on the front of `sols`: it speaks for its node sequence,
/// and no path that speaks for another node sequence dominates it.
pub open spec fn is_on_front(u: ParetoPath, sols: Seq<ParetoPath>) -> bool {
    is_representative(u, sols) && forall|v: ParetoPath|
        #[trigger] is_representative(v, sols) && v.nodes@ != u.nodes@ ==> !v.objective.spec_dominates(
            u.objective,
        )
}

/// Whether `whole` is the front of `sols`: the paths on the front, each
/// once, in ascending order of cost and then node sequence.
pub open spec fn is_whole_front(whole: Seq<ParetoPath>, sols: Seq<ParetoPath>) -> bool {
    &&& front_sorted(whole)
    &&& forall|a: int| 0 <= a < whole.len() ==> is_on_front(#[trigger] whole[a], sols)
    &&& forall|u: ParetoPath| #[trigger] is_on_front(u, sols) ==> comes_from(u, whole)
}

/// Whether no other path of `uniq` dominates the path at `t`.
pub open spec fn undominated_at(uniq: Seq<ParetoPath>, t: int) -> bool {
    forall|j: int|
        0 <= j < uniq.len() && j != t ==> !(#[trigger] uniq[j]).objective.spec_dominates(
            uniq[t].objective,
        )
}

/// Whether `k` is a path of `uniq` that no other path of `uniq` dominates.
pub open spec fn comes_undominated(k: ParetoPath, uniq: Seq<ParetoPath>) -> bool {
    exists|t: int| 0 <= t < uniq.len() && stands_for(k, #[trigger] uniq[t]) && undominated_at(uniq, t)
}

/// Whether `t` is one of the places that `src` lists.
pub open spec fn held_at(src: Seq<int>, t: int) -> bool {
    exists|a: int| 0 <= a < src.len() && #[trigger] src[a] == t
}

/// The place of the path with the nodes `nodes` in `paths`.
fn find_same_nodes(paths: &Vec<ParetoPath>, nodes: &Vec<u32>) -> (r: Option<usize>)
    ensures
        match r {
            Some(at) => at < paths@.len() && paths@[at as int].nodes@ == nodes@,
            None => forall|j: int| 0 <= j < paths@.len() ==> (#[trigger] paths@[j]).nodes@ != nodes@,
        },
{
    let mut i: usize = 0;
    while i < paths.len()
        invariant
            i <= paths@.len(),
            forall|j: int| 0 <= j < i ==> (#[trigger] paths@[j]).nodes@ != nodes@,
        decreases paths.len() - i,
    {
        if path_order(&paths[i].nodes, nodes) == 0 {
            return Some(i);
        }
        i += 1;
    }
    None
}

/// One path per node sequence: of the solutions with the same nodes the one
/// whose cost sorts first is kept.
pub fn one_per_path(solutions: &[ParetoPath]) -> (uniq: Vec<ParetoPath>)
    ensures
        nodes_distinct(uniq@),
        forall|i: int| 0 <= i < uniq@.len() ==> comes_from(#[trigger] uniq@[i], solutions@),
        forall|k: int| 0 <= k < solutions@.len() ==> covered_by(#[trigger] solutions@[k], uniq@),
{
    let mut uniq: Vec<ParetoPath> = Vec::new();
    let mut k: usize = 0;
    while k < solutions.len()
        invariant
            k <= solutions@.len(),
            nodes_distinct(uniq@),
            forall|i: int|
                0 <= i < uniq@.len() ==> comes_from(#[trigger] uniq@[i], solutions@.take(k as int)),
            forall|j: int| 0 <= j < k ==> covered_by(#[trigger] solutions@[j], uniq@),
        decreases solutions.len() - k,
    {
        let sol = &solutions[k];
        let ghost before = uniq@;
        let ghost seen = solutions@.take(k as int);
        let ghost seen2 = solutions@.take(k + 1);
        proof {
            assert(seen2[k as int] == solutions@[k as int]);
            assert forall|i: int| 0 <= i < before.len() implies comes_from(
                #[trigger] before[i],
                seen2,
            ) by {
                let j = choose|j: int| 0 <= j < seen.len() && stands_for(before[i], #[trigger] seen[j]);
                assert(seen2[j] == seen[j]);
            }
        }
        let found = find_same_nodes(&uniq, &sol.nodes);
        match found {
            Some(at) => {
                if objective_lex_before(sol.objective, uniq[at].objective) {
                    let replaced = ParetoPath {
                        nodes: copy_nodes(&sol.nodes),
                        objective: sol.objective,
                    };
                    uniq.set(at, replaced);
                    proof {
                        assert forall|a: int, b: int|
                            0 <= a < uniq@.len() && 0 <= b < uniq@.len() && a != b implies (
                        #[trigger] uniq@[a]).nodes@ != (#[trigger] uniq@[b]).nodes@ by {
                            assert(uniq@[a].nodes@ == before[a].nodes@);
                            assert(uniq@[b].nodes@ == before[b].nodes@);
                        }
                        assert forall|i2: int| 0 <= i2 < uniq@.len() implies comes_from(
                            #[trigger] uniq@[i2],
                            seen2,
                        ) by {
                            if i2 == at {
                                assert(stands_for(uniq@[i2], seen2[k as int]));
                            } else {
                                assert(uniq@[i2] == before[i2]);
                            }
                        }
                        assert forall|j: int| 0 <= j < k + 1 implies covered_by(
                            #[trigger] solutions@[j],
                            uniq@,
                        ) by {
                            if j < k {
                                let i2 = choose|i2: int|
                                    0 <= i2 < before.len() && (#[trigger] before[i2]).nodes@
                                        == solutions@[j].nodes@ && !objective_before(
                                        solutions@[j].objective,
                                        before[i2].objective,
                                    );
                                if i2 == at {
                                    lemma_objective_before(
                                        solutions@[j].objective,
                                        sol.objective,
                                        before[at as int].objective,
                                    );
                                    assert(uniq@[i2].nodes@ == solutions@[j].nodes@);
                                } else {
                                    assert(uniq@[i2] == before[i2]);
                                }
                            } else {
                                lemma_objective_before(sol.objective, sol.objective, sol.objective);
                                assert(uniq@[at as int].nodes@ == solutions@[j].nodes@);
                            }
                        }
                    }
                } else {
                    proof {
                        assert forall|j: int| 0 <= j < k + 1 implies covered_by(
                            #[trigger] solutions@[j],
                            uniq@,
                        ) by {
                            if j == k {
                                assert(uniq@[at as int].nodes@ == solutions@[j].nodes@);
                            }
                        }
                    }
                }
            },
            None => {
                uniq.push(ParetoPath { nodes: copy_nodes(&sol.nodes), objective: sol.objective });
                proof {
                    let n = before.len() as int;
                    assert forall|a: int, b: int|
                        0 <= a < uniq@.len() && 0 <= b < uniq@.len() && a != b implies (
                    #[trigger] uniq@[a]).nodes@ != (#[trigger] uniq@[b]).nodes@ by {
                        if a < n {
                            assert(uniq@[a] == before[a]);
                        }
                        if b < n {
                            assert(uniq@[b] == before[b]);
                        }
                    }
                    assert forall|i2: int| 0 <= i2 < uniq@.len() implies comes_from(
                        #[trigger] uniq@[i2],
                        seen2,
                    ) by {
                        if i2 < n {
                            assert(uniq@[i2] == before[i2]);
                        } else {
                            assert(stands_for(uniq@[i2], seen2[k as int]));
                        }
                    }
                    assert forall|j: int| 0 <= j < k + 1 implies covered_by(
                        #[trigger] solutions@[j],
                        uniq@,
                    ) by {
                        if j < k {
                            let i2 = choose|i2: int|
                                0 <= i2 < before.len() && (#[trigger] before[i2]).nodes@
                                    == solutions@[j].nodes@ && !objective_before(
                                    solutions@[j].objective,
                                    before[i2].objective,
                                );
                            assert(uniq@[i2] == before[i2]);
                        } else {
                            lemma_objective_before(sol.objective, sol.objective, sol.objective);
                            assert(uniq@[n].nodes@ == solutions@[j].nodes@);
                        }
                    }
                }
            },
        }
        k += 1;
    }
    assert(solutions@.take(solutions@.len() as int) =~= solutions@);
    uniq
}

} // verus!

verus! {

/// A copy of the path `p`.
pub fn copy_path(p: &ParetoPath) -> (r: ParetoPath)
    ensures
        stands_for(r, *p),
{
    ParetoPath { nodes: copy_nodes(&p.nodes), objective: p.objective }
}

/// Whether another path of `paths` dominates the path at `i`.
fn dominated_by_other(paths: &Vec<ParetoPath>, i: usize) -> (r: bool)
    requires
        i < paths@.len(),
    ensures
        r == exists|j: int|
            0 <= j < paths@.len() && j != i && (#[trigger] paths@[j]).objective.spec_dominates(
                paths@[i as int].objective,
            ),
{
    let mut j: usize = 0;
    while j < paths.len()
        invariant
            j <= paths@.len(),
            i < paths@.len(),
            forall|k: int|
                0 <= k < j && k != i ==> !(#[trigger] paths@[k]).objective.spec_dominates(
                    paths@[i as int].objective,
                ),
        decreases paths.len() - j,
    {
        if j != i && paths[j].objective.dominates(paths[i].objective) {
            return true;
        }
        j += 1;
    }
    false
}

/// The paths of `uniq` that no other path of `uniq` dominates, in order.
fn keep_non_dominated(uniq: &Vec<ParetoPath>) -> (kept: Vec<ParetoPath>)
    requires
        nodes_distinct(uniq@),
    ensures
        is_front(kept@),
        nodes_distinct(kept@),
        forall|a: int| 0 <= a < kept@.len() ==> comes_from(#[trigger] kept@[a], uniq@),
        forall|a: int| 0 <= a < kept@.len() ==> comes_undominated(#[trigger] kept@[a], uniq@),
        forall|t: int|
            0 <= t < uniq@.len() && undominated_at(uniq@, t) ==> comes_from(
                #[trigger] uniq@[t],
                kept@,
            ),
{
    let mut kept: Vec<ParetoPath> = Vec::new();
    let ghost mut src: Seq<int> = Seq::empty();
    let mut i: usize = 0;
    while i < uniq.len()
        invariant
            i <= uniq@.len(),
            nodes_distinct(uniq@),
            src.len() == kept@.len(),
            forall|a: int| 0 <= a < src.len() ==> 0 <= #[trigger] src[a] < i,
            forall|a: int, b: int| 0 <= a < b < src.len() ==> #[trigger] src[a] < #[trigger] src[b],
            forall|a: int| 0 <= a < kept@.len() ==> stands_for(#[trigger] kept@[a], uniq@[src[a]]),
            forall|a: int, j: int|
                0 <= a < kept@.len() && 0 <= j < uniq@.len() && j != src[a] ==> !(
                #[trigger] uniq@[j]).objective.spec_dominates((#[trigger] kept@[a]).objective),
            forall|t: int| 0 <= t < i && undominated_at(uniq@, t) ==> #[trigger] held_at(src, t),
        decreases uniq.len() - i,
    {
        if !dominated_by_other(uniq, i) {
            let ghost before = kept@;
            kept.push(copy_path(&uniq[i]));
            proof {
                let old_src = src;
                src = src.push(i as int);
                assert forall|t: int| 0 <= t < i + 1 && undominated_at(uniq@, t) implies #[trigger] held_at(
                    src,
                    t,
                ) by {
                    if t < i {
                        assert(held_at(old_src, t));
                        let a = choose|a: int| 0 <= a < old_src.len() && #[trigger] old_src[a] == t;
                        assert(src[a] == t);
                    } else {
                        assert(src[old_src.len() as int] == t);
                    }
                }
                assert forall|a: int| 0 <= a < kept@.len() implies stands_for(
                    #[trigger] kept@[a],
                    uniq@[src[a]],
                ) by {
                    if a < before.len() {
                        assert(kept@[a] == before[a]);
                        assert(src[a] == old_src[a]);
                    }
                }
                assert forall|a: int, j: int|
                    0 <= a < kept@.len() && 0 <= j < uniq@.len() && j != src[a] implies !(
                #[trigger] uniq@[j]).objective.spec_dominates((#[trigger] kept@[a]).objective) by {
                    if a < before.len() {
                        assert(kept@[a] == before[a]);
                        assert(src[a] == old_src[a]);
                    }
                }
                assert forall|a: int, b: int| 0 <= a < b < src.len() implies #[trigger] src[a]
                    < #[trigger] src[b] by {
                    if b < old_src.len() {
                        assert(src[a] == old_src[a] && src[b] == old_src[b]);
                    } else {
                        assert(src[a] == old_src[a]);
                    }
                }
            }
        }
        i += 1;
    }
    proof {
        assert forall|a: int, b: int|
            0 <= a < kept@.len() && 0 <= b < kept@.len() && a != b implies !(
        #[trigger] kept@[a]).objective.spec_dominates((#[trigger] kept@[b]).objective) by {
            if a < b {
                assert(src[a] < src[b]);
            } else {
                assert(src[b] < src[a]);
            }
            assert(stands_for(kept@[a], uniq@[src[a]]));
        }
        assert forall|a: int, b: int|
            0 <= a < kept@.len() && 0 <= b < kept@.len() && a != b implies (
        #[trigger] kept@[a]).nodes@ != (#[trigger] kept@[b]).nodes@ by {
            if a < b {
                assert(src[a] < src[b]);
            } else {
                assert(src[b] < src[a]);
            }
            assert(stands_for(kept@[a], uniq@[src[a]]));
            assert(stands_for(kept@[b], uniq@[src[b]]));
        }
        assert forall|a: int| 0 <= a < kept@.len() implies comes_from(#[trigger] kept@[a], uniq@) by {
            assert(stands_for(kept@[a], uniq@[src[a]]));
        }
        assert forall|a: int| 0 <= a < kept@.len() implies comes_undominated(
            #[trigger] kept@[a],
            uniq@,
        ) by {
            let t = src[a];
            assert(stands_for(kept@[a], uniq@[t]));
            assert(undominated_at(uniq@, t));
        }
        assert forall|t: int| 0 <= t < uniq@.len() && undominated_at(uniq@, t) implies comes_from(
            #[trigger] uniq@[t],
            kept@,
        ) by {
            assert(held_at(src, t));
            let a = choose|a: int| 0 <= a < src.len() && #[trigger] src[a] == t;
            assert(stands_for(kept@[a], uniq@[src[a]]));
            assert(stands_for(uniq@[t], kept@[a]));
        }
    }
    kept
}

/// The paths of `kept` in ascending order of cost and then node sequence.
fn sort_front(kept: &Vec<ParetoPath>) -> (sorted: Vec<ParetoPath>)
    requires
        is_front(kept@),
        nodes_distinct(kept@),
    ensures
        sorted@.len() == kept@.len(),
        is_front(sorted@),
        nodes_distinct(sorted@),
        front_sorted(sorted@),
        forall|a: int| 0 <= a < sorted@.len() ==> comes_from(#[trigger] sorted@[a], kept@),
        forall|b: int| 0 <= b < kept@.len() ==> comes_from(#[trigger] kept@[b], sorted@),
{
    let mut sorted: Vec<ParetoPath> = Vec::new();
    let ghost mut perm: Seq<int> = Seq::empty();
    let mut i: usize = 0;
    while i < kept.len()
        invariant
            i <= kept@.len(),
            is_front(kept@),
            nodes_distinct(kept@),
            sorted@.len() == i,
            perm.len() == i,
            front_sorted(sorted@),
            forall|a: int| 0 <= a < perm.len() ==> 0 <= #[trigger] perm[a] < i,
            forall|a: int, b: int|
                0 <= a < perm.len() && 0 <= b < perm.len() && a != b ==> #[trigger] perm[a]
                    != #[trigger] perm[b],
            forall|a: int| 0 <= a < sorted@.len() ==> stands_for(#[trigger] sorted@[a], kept@[perm[a]]),
            forall|b: int| 0 <= b < i ==> #[trigger] held_at(perm, b),
        decreases kept.len() - i,
    {
        let x = copy_path(&kept[i]);
        let ghost before = sorted@;
        let ghost old_perm = perm;
        let mut p: usize = 0;
        while p < sorted.len() && pareto_path_before(&sorted[p], &x)
            invariant
                p <= sorted@.len(),
                sorted@ == before,
                forall|a: int| 0 <= a < p ==> pareto_before(#[trigger] sorted@[a], x),
            decreases sorted.len() - p,
        {
            p += 1;
        }
        proof {
            assert forall|b: int| p <= b < before.len() implies pareto_before(
                x,
                #[trigger] before[b],
            ) by {
                assert(stands_for(before[p as int], kept@[old_perm[p as int]]));
                assert(old_perm[p as int] != i);
                assert(kept@[old_perm[p as int]].nodes@ != kept@[i as int].nodes@);
                lemma_pareto_before(x, before[p as int], before[b]);
                if b > p {
                    assert(pareto_before(before[p as int], before[b]));
                }
            }
        }
        sorted.insert(p, x);
        proof {
            perm = old_perm.insert(p as int, i as int);
            let after = sorted@;
            assert(after =~= before.insert(p as int, x));
            assert forall|a: int, b: int| 0 <= a < b < after.len() implies pareto_before(
                #[trigger] after[a],
                #[trigger] after[b],
            ) by {
                let a2 = if a < p {
                    a
                } else {
                    a - 1
                };
                let b2 = if b < p {
                    b
                } else {
                    b - 1
                };
                if a == p {
                    assert(after[b] == before[b2]);
                } else if b == p {
                    assert(after[a] == before[a2]);
                } else {
                    assert(after[a] == before[a2] && after[b] == before[b2]);
                    assert(pareto_before(before[a2], before[b2]));
                }
            }
            assert forall|a: int| 0 <= a < after.len() implies stands_for(
                #[trigger] after[a],
                kept@[perm[a]],
            ) by {
                if a != p {
                    let a2 = if a < p {
                        a
                    } else {
                        a - 1
                    };
                    assert(after[a] == before[a2]);
                    assert(perm[a] == old_perm[a2]);
                }
            }
            assert forall|a: int, b: int|
                0 <= a < perm.len() && 0 <= b < perm.len() && a != b implies #[trigger] perm[a]
                != #[trigger] perm[b] by {
                let a2 = if a < p {
                    a
                } else {
                    a - 1
                };
                let b2 = if b < p {
                    b
                } else {
                    b - 1
                };
                if a != p {
                    assert(perm[a] == old_perm[a2]);
                }
                if b != p {
                    assert(perm[b] == old_perm[b2]);
                }
            }
            assert forall|a: int| 0 <= a < perm.len() implies 0 <= #[trigger] perm[a] < i + 1 by {
                if a != p {
                    let a2 = if a < p {
                        a
                    } else {
                        a - 1
                    };
                    assert(perm[a] == old_perm[a2]);
                }
            }
            assert forall|b: int| 0 <= b < i + 1 implies #[trigger] held_at(perm, b) by {
                if b < i {
                    assert(held_at(old_perm, b));
                    let a2 = choose|a2: int| 0 <= a2 < old_perm.len() && #[trigger] old_perm[a2] == b;
                    let a = if a2 < p {
                        a2
                    } else {
                        a2 + 1
                    };
                    assert(perm[a] == b);
                } else {
                    assert(perm[p as int] == b);
                }
            }
        }
        i += 1;
    }
    proof {
        assert forall|a: int, b: int|
            0 <= a < sorted@.len() && 0 <= b < sorted@.len() && a != b implies !(
        #[trigger] sorted@[a]).objective.spec_dominates((#[trigger] sorted@[b]).objective) by {
            assert(stands_for(sorted@[a], kept@[perm[a]]));
            assert(stands_for(sorted@[b], kept@[perm[b]]));
            assert(perm[a] != perm[b]);
        }
        assert forall|a: int, b: int|
            0 <= a < sorted@.len() && 0 <= b < sorted@.len() && a != b implies (
        #[trigger] sorted@[a]).nodes@ != (#[trigger] sorted@[b]).nodes@ by {
            assert(stands_for(sorted@[a], kept@[perm[a]]));
            assert(stands_for(sorted@[b], kept@[perm[b]]));
            assert(perm[a] != perm[b]);
        }
        assert forall|a: int| 0 <= a < sorted@.len() implies comes_from(
            #[trigger] sorted@[a],
            kept@,
        ) by {
            assert(stands_for(sorted@[a], kept@[perm[a]]));
        }
        assert forall|b: int| 0 <= b < kept@.len() implies comes_from(
            #[trigger] kept@[b],
            sorted@,
        ) by {
            assert(held_at(perm, b));
            let a = choose|a: int| 0 <= a < perm.len() && #[trigger] perm[a] == b;
            assert(stands_for(sorted@[a], kept@[perm[a]]));
            assert(stands_for(kept@[b], sorted@[a]));
        }
    }
    sorted
}

/// The paths kept one per node sequence are those that speak for their
/// node sequences, and every such path is among them.
proof fn lemma_representatives(sols: Seq<ParetoPath>, uniq: Seq<ParetoPath>)
    requires
        nodes_distinct(uniq),
        forall|i: int| 0 <= i < uniq.len() ==> comes_from(#[trigger] uniq[i], sols),
        forall|k: int| 0 <= k < sols.len() ==> covered_by(#[trigger] sols[k], uniq),
    ensures
        forall|i: int| 0 <= i < uniq.len() ==> is_representative(#[trigger] uniq[i], sols),
        forall|v: ParetoPath| #[trigger] is_representative(v, sols) ==> comes_from(v, uniq),
{
    assert forall|i: int| 0 <= i < uniq.len() implies is_representative(#[trigger] uniq[i], sols) by {
        assert forall|k: int|
            0 <= k < sols.len() && (#[trigger] sols[k]).nodes@ == uniq[i].nodes@ implies !objective_before(
            sols[k].objective,
            uniq[i].objective,
        ) by {
            assert(covered_by(sols[k], uniq));
            let c = choose|c: int|
                0 <= c < uniq.len() && (#[trigger] uniq[c]).nodes@ == sols[k].nodes@
                    && !objective_before(sols[k].objective, uniq[c].objective);
            assert(c == i);
        }
    }
    assert forall|v: ParetoPath| #[trigger] is_representative(v, sols) implies comes_from(v, uniq) by {
        let k = choose|k: int| 0 <= k < sols.len() && stands_for(v, #[trigger] sols[k]);
        assert(covered_by(sols[k], uniq));
        let c = choose|c: int|
            0 <= c < uniq.len() && (#[trigger] uniq[c]).nodes@ == sols[k].nodes@ && !objective_before(
                sols[k].objective,
                uniq[c].objective,
            );
        assert(comes_from(uniq[c], sols));
        let k2 = choose|k2: int| 0 <= k2 < sols.len() && stands_for(uniq[c], #[trigger] sols[k2]);
        assert(sols[k2].nodes@ == v.nodes@);
        assert(!objective_before(sols[k2].objective, v.objective));
        lemma_objective_before(v.objective, uniq[c].objective, v.objective);
        assert(stands_for(v, uniq[c]));
    }
}

/// The paths that are kept and sorted are the whole front.
proof fn lemma_whole_front(
    sols: Seq<ParetoPath>,
    uniq: Seq<ParetoPath>,
    kept: Seq<ParetoPath>,
    whole: Seq<ParetoPath>,
)
    requires
        nodes_distinct(uniq),
        forall|i: int| 0 <= i < uniq.len() ==> comes_from(#[trigger] uniq[i], sols),
        forall|k: int| 0 <= k < sols.len() ==> covered_by(#[trigger] sols[k], uniq),
        forall|a: int| 0 <= a < kept.len() ==> comes_undominated(#[trigger] kept[a], uniq),
        forall|t: int|
            0 <= t < uniq.len() && undominated_at(uniq, t) ==> comes_from(#[trigger] uniq[t], kept),
        front_sorted(whole),
        forall|a: int| 0 <= a < whole.len() ==> comes_from(#[trigger] whole[a], kept),
        forall|b: int| 0 <= b < kept.len() ==> comes_from(#[trigger] kept[b], whole),
    ensures
        is_whole_front(whole, sols),
{
    lemma_representatives(sols, uniq);
    assert forall|a: int| 0 <= a < whole.len() implies is_on_front(#[trigger] whole[a], sols) by {
        let w = whole[a];
        let b = choose|b: int| 0 <= b < kept.len() && stands_for(w, #[trigger] kept[b]);
        assert(comes_undominated(kept[b], uniq));
        let t = choose|t: int|
            0 <= t < uniq.len() && stands_for(kept[b], #[trigger] uniq[t]) && undominated_at(uniq, t);
        assert(is_representative(uniq[t], sols));
        let k = choose|k: int| 0 <= k < sols.len() && stands_for(uniq[t], #[trigger] sols[k]);
        assert(stands_for(w, sols[k]));
        assert(is_representative(w, sols));
        assert forall|v: ParetoPath|
            #[trigger] is_representative(v, sols) && v.nodes@ != w.nodes@ implies !v.objective.spec_dominates(
            w.objective,
        ) by {
            assert(comes_from(v, uniq));
            let j = choose|j: int| 0 <= j < uniq.len() && stands_for(v, #[trigger] uniq[j]);
            assert(j != t);
        }
    }
    assert forall|u: ParetoPath| #[trigger] is_on_front(u, sols) implies comes_from(u, whole) by {
        assert(comes_from(u, uniq));
        let t = choose|t: int| 0 <= t < uniq.len() && stands_for(u, #[trigger] uniq[t]);
        assert forall|j: int| 0 <= j < uniq.len() && j != t implies !(#[trigger] uniq[j]).objective.spec_dominates(
            uniq[t].objective,
        ) by {
            assert(is_representative(uniq[j], sols));
        }
        assert(undominated_at(uniq, t));
        assert(comes_from(uniq[t], kept));
        let b = choose|b: int| 0 <= b < kept.len() && stands_for(uniq[t], #[trigger] kept[b]);
        assert(comes_from(kept[b], whole));
        let a = choose|a: int| 0 <= a < whole.len() && stands_for(kept[b], #[trigger] whole[a]);
        assert(stands_for(u, whole[a]));
    }
}

/// The front of the solutions `solutions`: one path per node sequence, at
/// the cost that sorts first; of these the paths that no other dominates,
/// in ascending order of cost and then node sequence; and of these at most
/// the first `max_paths`.
pub fn pareto_front(solutions: &[ParetoPath], max_paths: usize) -> (front: Vec<ParetoPath>)
    ensures
        exists|whole: Seq<ParetoPath>|
            #![trigger is_whole_front(whole, solutions@)]
            is_whole_front(whole, solutions@) && front@ == whole.take(
                if max_paths < whole.len() {
                    max_paths as int
                } else {
                    whole.len() as int
                },
            ),
        front@.len() <= max_paths,
        is_front(front@),
        front_sorted(front@),
        nodes_distinct(front@),
        forall|a: int| 0 <= a < front@.len() ==> comes_from(#[trigger] front@[a], solutions@),
{
    let uniq = one_per_path(solutions);
    let kept = keep_non_dominated(&uniq);
    let mut sorted = sort_front(&kept);
    let ghost whole = sorted@;
    proof {
        lemma_whole_front(solutions@, uniq@, kept@, whole);
        assert forall|a: int| 0 <= a < whole.len() implies comes_from(#[trigger] whole[a], solutions@) by {
            let k = choose|k: int| 0 <= k < kept@.len() && stands_for(whole[a], #[trigger] kept@[k]);
            let u = choose|u: int| 0 <= u < uniq@.len() && stands_for(kept@[k], #[trigger] uniq@[u]);
            let s0 = choose|s0: int|
                0 <= s0 < solutions@.len() && stands_for(uniq@[u], #[trigger] solutions@[s0]);
            assert(stands_for(whole[a], solutions@[s0]));
        }
    }
    if sorted.len() > max_paths {
        sorted.truncate(max_paths);
        proof {
            assert forall|a: int| 0 <= a < sorted@.len() implies #[trigger] sorted@[a] == whole[a] by {}
            assert(sorted@ =~= whole.take(max_paths as int));
        }
    } else {
        proof {
            assert(sorted@ =~= whole.take(whole.len() as int));
        }
    }
    sorted
}

/// Whether no cost of `s` sorts before one in front of it.
pub open spec fn objectives_sorted(s: Seq<MultiObjectiveCost>) -> bool {
    forall|i: int, j: int| 0 <= i < j < s.len() ==> !objective_before(#[trigger] s[j], #[trigger] s[i])
}

/// The first `n` costs of `s` without those that `c` dominates.
pub open spec fn undominated(s: Seq<MultiObjectiveCost>, n: int, c: MultiObjectiveCost) -> Seq<
    MultiObjectiveCost,
>
    decreases n,
{
    if n <= 0 {
        Seq::empty()
    } else if c.spec_dominates(s[n - 1]) {
        undominated(s, n - 1, c)
    } else {
        undominated(s, n - 1, c).push(s[n - 1])
    }
}

/// Putting `x` into `s` at the place `p` adds `x` to what `s` holds.
proof fn lemma_insert_holds(s: Seq<MultiObjectiveCost>, p: int, x: MultiObjectiveCost)
    requires
        0 <= p <= s.len(),
    ensures
        s.insert(p, x).to_multiset() == s.to_multiset().insert(x),
{
    let t = s.insert(p, x);
    assert(t.remove(p) =~= s);
    vstd::seq_lib::to_multiset_remove(t, p);
    t.to_multiset_ensures();
    assert(t[p] == x);
    assert(t.contains(x));
    assert(t.to_multiset() =~= s.to_multiset().insert(x)) by {
        assert forall|y: MultiObjectiveCost| t.to_multiset().count(y) == s.to_multiset().insert(
            x,
        ).count(y) by {
            assert(s.to_multiset().count(y) == t.to_multiset().remove(x).count(y));
        }
    }
}

/// The costs `costs` in ascending order: by delay, then loss, then
/// utilization. Nothing is added or left out.
pub fn sort_objectives(costs: &[MultiObjectiveCost]) -> (out: Vec<MultiObjectiveCost>)
    ensures
        out@.len() == costs@.len(),
        objectives_sorted(out@),
        out@.to_multiset() == costs@.to_multiset(),
{
    let mut out: Vec<MultiObjectiveCost> = Vec::new();
    let mut k: usize = 0;
    assert(costs@.take(0) =~= Seq::<MultiObjectiveCost>::empty());
    while k < costs.len()
        invariant
            k <= costs@.len(),
            out@.len() == k,
            objectives_sorted(out@),
            out@.to_multiset() == costs@.take(k as int).to_multiset(),
        decreases costs.len() - k,
    {
        let x = costs[k];
        let mut p: usize = 0;
        while p < out.len() && !objective_lex_before(x, out[p])
            invariant
                p <= out@.len(),
                forall|i: int| 0 <= i < p ==> !objective_before(x, #[trigger] out@[i]),
            decreases out.len() - p,
        {
            p += 1;
        }
        let ghost before = out@;
        out.insert(p, x);
        proof {
            let after = out@;
            lemma_insert_holds(before, p as int, x);
            assert(costs@.take(k + 1) =~= costs@.take(k as int).push(x));
            vstd::seq_lib::to_multiset_build(costs@.take(k as int), x);
            assert forall|i: int, j: int| 0 <= i < j < after.len() implies !objective_before(
                #[trigger] after[j],
                #[trigger] after[i],
            ) by {
                let a = if i < p {
                    before[i]
                } else if i == p {
                    x
                } else {
                    before[i - 1]
                };
                let c = if j < p {
                    before[j]
                } else if j == p {
                    x
                } else {
                    before[j - 1]
                };
                assert(after[i] == a && after[j] == c);
                if i == p {
                    assert(objective_before(x, before[p as int]));
                    lemma_objective_before(c, x, before[p as int]);
                    if j - 1 > p {
                        assert(!objective_before(before[j - 1], before[p as int]));
                    }
                }
            }
        }
        k += 1;
    }
    assert(costs@.take(costs@.len() as int) =~= costs@);
    out
}

/// Takes the cost `candidate` into the costs known for a node, unless one
/// of them dominates or equals it: the costs that it dominates leave, it
/// joins the others, and the costs are put in ascending order.
pub fn insert_non_dominated(costs: &mut Vec<MultiObjectiveCost>, candidate: MultiObjectiveCost)
    ensures
        is_dominated_by_set(candidate, old(costs)@) ==> final(costs)@ == old(costs)@,
        !is_dominated_by_set(candidate, old(costs)@) ==> objectives_sorted(final(costs)@)
            && final(costs)@.to_multiset() == undominated(
            old(costs)@,
            old(costs)@.len() as int,
            candidate,
        ).push(candidate).to_multiset(),
{
    if dominated_by_set(candidate, costs.as_slice()) {
        return ;
    }
    let mut kept: Vec<MultiObjectiveCost> = Vec::new();
    let mut i: usize = 0;
    while i < costs.len()
        invariant
            i <= costs@.len(),
            *costs == *old(costs),
            kept@ == undominated(costs@, i as int, candidate),
        decreases costs.len() - i,
    {
        if !candidate.dominates(costs[i]) {
            kept.push(costs[i]);
        }
        i += 1;
    }
    kept.push(candidate);
    *costs = sort_objectives(kept.as_slice());
}

/// The place of the label that is expanded next: the first of the labels
/// before which no other sorts, by cost and then by node sequence.
pub fn next_label(labels: &[ParetoPath]) -> (best: usize)
    requires
        labels@.len() > 0,
    ensures
        best < labels@.len(),
        forall|j: int| 0 <= j < labels@.len() ==> !pareto_before(#[trigger] labels@[j], labels@[best as int]),
        forall|j: int| 0 <= j < best ==> pareto_before(labels@[best as int], #[trigger] labels@[j]),
{
    let mut best: usize = 0;
    let mut i: usize = 1;
    proof {
        lemma_pareto_before(labels@[0], labels@[0], labels@[0]);
    }
    while i < labels.len()
        invariant
            1 <= i <= labels@.len(),
            best < i,
            forall|j: int| 0 <= j < i ==> !pareto_before(#[trigger] labels@[j], labels@[best as int]),
            forall|j: int| 0 <= j < best ==> pareto_before(labels@[best as int], #[trigger] labels@[j]),
        decreases labels.len() - i,
    {
        if pareto_path_before(&labels[i], &labels[best]) {
            proof {
                let x = labels@[i as int];
                let y = labels@[best as int];
                assert forall|j: int| 0 <= j < i + 1 implies !pareto_before(
                    #[trigger] labels@[j],
                    x,
                ) by {
                    lemma_pareto_before(labels@[j], x, y);
                    lemma_pareto_before(x, x, x);
                }
                assert forall|j: int| 0 <= j < i implies pareto_before(x, #[trigger] labels@[j]) by {
                    lemma_pareto_before(x, y, labels@[j]);
                    lemma_pareto_before(x, labels@[j], y);
                    lemma_pareto_before(labels@[j], y, x);
                }
            }
            best = i;
        }
        i += 1;
    }
    best
}

} // verus!
