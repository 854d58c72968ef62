//! The order in which loop-free alternates are offered.

use vstd::prelude::*;
use crate::model::metric::{lemma_total_key_injective, total_key, total_order};
use crate::protocols::route_compute::types::LfaCandidate;

verus! {

/// Whether the alternate `a` is offered before `b`: its path costs less in
/// the total order of the costs, or the same through a smaller next hop.
pub open spec fn backup_before(a: LfaCandidate, b: LfaCandidate) -> bool {
    total_key(a.total_cost) < total_key(b.total_cost) || (a.total_cost == b.total_cost
        && a.next_hop < b.next_hop)
}

/// Whether no alternate of `s` is offered before one in front of it.
pub open spec fn backups_sorted(s: Seq<LfaCandidate>) -> bool {
    forall|i: int, j: int| 0 <= i < j < s.len() ==> !backup_before(#[trigger] s[j], #[trigger] s[i])
}

/// Whether the alternate `a` is offered before `b`.
pub fn backup_comes_before(a: &LfaCandidate, b: &LfaCandidate) -> (r: bool)
    ensures
        r == backup_before(*a, *b),
{
    proof {
        lemma_total_key_injective(a.total_cost, b.total_cost);
    }
    let order = total_order(a.total_cost, b.total_cost);
    order < 0 || (order == 0 && a.next_hop < b.next_hop)
}

/// Putting `x` into `s` at the place `p` adds `x` to what `s` holds.
proof fn lemma_insert_holds(s: Seq<LfaCandidate>, p: int, x: LfaCandidate)
    requires
        0 <= p <= s.len(),
    ensures
        s.insert(p, x).to_multiset() == s.to_multiset().insert(x),
{
    let t = s.insert(p, x);
    assert(t.remove(p) =~= s);
    vstd::seq_lib::to_multiset_remove(t, p);
    t.to_multiset_ensures();
    assert(t[p] == x);
    assert(t.contains(x));
    assert(t.to_multiset() =~= s.to_multiset().insert(x)) by {
        assert forall|y: LfaCandidate| t.to_multiset().count(y) == s.to_multiset().insert(
            x,
        ).count(y) by {
            assert(s.to_multiset().count(y) == t.to_multiset().remove(x).count(y));
        }
    }
}

/// The alternates `backups` in the order in which they are offered: by the
/// cost of the path and then by next hop. Nothing is added or left out.
pub fn order_backups(backups: &[LfaCandidate]) -> (out: Vec<LfaCandidate>)
    ensures
        out@.len() == backups@.len(),
        backups_sorted(out@),
        out@.to_multiset() == backups@.to_multiset(),
{
    let mut out: Vec<LfaCandidate> = Vec::new();
    let mut k: usize = 0;
    assert(backups@.take(0) =~= Seq::<LfaCandidate>::empty());
    while k < backups.len()
        invariant
            k <= backups@.len(),
            out@.len() == k,
            backups_sorted(out@),
            out@.to_multiset() == backups@.take(k as int).to_multiset(),
        decreases backups.len() - k,
    {
        let x = backups[k];
        let mut p: usize = 0;
        while p < out.len() && !backup_comes_before(&x, &out[p])
            invariant
                p <= out@.len(),
                forall|i: int| 0 <= i < p ==> !backup_before(x, #[trigger] out@[i]),
            decreases out.len() - p,
        {
            p += 1;
        }
        let ghost before = out@;
        out.insert(p, x);
        proof {
            let after = out@;
            lemma_insert_holds(before, p as int, x);
            assert(backups@.take(k + 1) =~= backups@.take(k as int).push(x));
            vstd::seq_lib::to_multiset_build(backups@.take(k as int), x);
            assert forall|i: int, j: int| 0 <= i < j < after.len() implies !backup_before(
                #[trigger] after[j],
                #[trigger] after[i],
            ) by {
                let a = if i < p {
                    before[i]
                } else if i == p {
                    x
                } else {
                    before[i - 1]
                };
                let c = if j < p {
                    before[j]
                } else if j == p {
                    x
                } else {
                    before[j - 1]
                };
                assert(after[i] == a && after[j] == c);
                lemma_total_key_injective(a.total_cost, c.total_cost);
                if i == p {
                    assert(backup_before(x, before[p as int]));
                    lemma_total_key_injective(x.total_cost, before[p as int].total_cost);
                    lemma_total_key_injective(before[p as int].total_cost, c.total_cost);
                    if j - 1 > p {
                        assert(!backup_before(before[j - 1], before[p as int]));
                    }
                }
            }
        }
        k += 1;
    }
    assert(backups@.take(backups@.len() as int) =~= backups@);
    out
}

} // verus!
