//! The frontier of a shortest-path search: pending nodes with their tentative
//! costs, handed out in ascending order of cost and then of node id.
//!
//! A node may be pending several times; entries that a later, better entry
//! has made stale are told apart by the caller when they are handed out.

use vstd::prelude::*;
use crate::model::metric::{lemma_total_key_injective, total_order};
use crate::protocols::route_compute::strategy::lower_candidate;

verus! {

/// Whether the entries of `s` never descend in the order of the frontier.
pub open spec fn in_pop_order(s: Seq<(u32, u64)>) -> bool {
    forall|i: int, j: int|
        0 <= i < j < s.len() ==> !lower_candidate(#[trigger] s[j], #[trigger] s[i])
}

/// How many leading entries of `s` the entry `x` does not come before.
pub open spec fn leading_not_after(s: Seq<(u32, u64)>, x: (u32, u64)) -> int
    decreases s.len(),
{
    if s.len() > 0 && !lower_candidate(x, s[0]) {
        1 + leading_not_after(s.drop_first(), x)
    } else {
        0
    }
}

/// The order of the frontier is transitive and total.
pub proof fn lemma_lower_candidate(a: (u32, u64), b: (u32, u64), c: (u32, u64))
    ensures
        lower_candidate(a, b) && lower_candidate(b, c) ==> lower_candidate(a, c),
        !lower_candidate(a, b) && !lower_candidate(b, c) ==> !lower_candidate(a, c),
        a == b || lower_candidate(a, b) || lower_candidate(b, a),
        !(lower_candidate(a, b) && lower_candidate(b, a)),
{
    lemma_total_key_injective(a.1, b.1);
    lemma_total_key_injective(b.1, c.1);
    lemma_total_key_injective(a.1, c.1);
}

pub proof fn lemma_leading_not_after(s: Seq<(u32, u64)>, x: (u32, u64))
    requires
        in_pop_order(s),
    ensures
        0 <= leading_not_after(s, x) <= s.len(),
        forall|i: int| 0 <= i < leading_not_after(s, x) ==> !lower_candidate(x, #[trigger] s[i]),
        forall|i: int| leading_not_after(s, x) <= i < s.len() ==> lower_candidate(x, #[trigger] s[i]),
        in_pop_order(s.insert(leading_not_after(s, x), x)),
    decreases s.len(),
{
    let k = leading_not_after(s, x);
    if s.len() > 0 && !lower_candidate(x, s[0]) {
        let t = s.drop_first();
        assert(in_pop_order(t)) by {
            assert forall|i: int, j: int| 0 <= i < j < t.len() implies !lower_candidate(
                #[trigger] t[j],
                #[trigger] t[i],
            ) by {
                assert(t[i] == s[i + 1] && t[j] == s[j + 1]);
            }
        }
        lemma_leading_not_after(t, x);
        assert forall|i: int| 0 <= i < k implies !lower_candidate(x, #[trigger] s[i]) by {
            if i > 0 {
                assert(s[i] == t[i - 1]);
            }
        }
        assert forall|i: int| k <= i < s.len() implies lower_candidate(x, #[trigger] s[i]) by {
            assert(s[i] == t[i - 1]);
        }
    } else if s.len() > 0 {
        assert forall|i: int| 0 <= i < s.len() implies lower_candidate(x, #[trigger] s[i]) by {
            if i > 0 {
                assert(!lower_candidate(s[i], s[0]));
                lemma_lower_candidate(x, s[0], s[i]);
                lemma_lower_candidate(s[i], x, s[0]);
                lemma_lower_candidate(s[0], s[i], x);
            }
        }
    }
    let u = s.insert(k, x);
    assert forall|i: int, j: int| 0 <= i < j < u.len() implies !lower_candidate(
        #[trigger] u[j],
        #[trigger] u[i],
    ) by {
        let i2 = if i < k {
            i
        } else {
            i - 1
        };
        let j2 = if j < k {
            j
        } else {
            j - 1
        };
        if i == k {
            assert(u[j] == s[j2]);
            lemma_lower_candidate(x, s[j2], x);
        } else if j == k {
            assert(u[i] == s[i2]);
        } else {
            assert(u[i] == s[i2] && u[j] == s[j2]);
        }
    }
}

/// Pending nodes with their tentative costs.
#[derive(Debug)]
pub struct DistanceFrontier {
    heap: Vec<(u32, u64)>,
}

impl View for DistanceFrontier {
    type V = Seq<(u32, u64)>;

    /// The pending entries in the order in which they are handed out.
    closed spec fn view(&self) -> Seq<(u32, u64)> {
        self.heap@
    }
}

impl Default for DistanceFrontier {
    fn default() -> (f: DistanceFrontier)
        ensures
            f@ == Seq::<(u32, u64)>::empty(),
    {
        DistanceFrontier { heap: Vec::new() }
    }
}

impl DistanceFrontier {
    #[verifier::type_invariant]
    spec fn inv(self) -> bool {
        in_pop_order(self.heap@)
    }

    /// The empty frontier.
    pub fn new() -> (f: Self)
        ensures
            f@ == Seq::<(u32, u64)>::empty(),
    {
        DistanceFrontier { heap: Vec::new() }
    }

    /// The number of pending entries.
    pub fn len(&self) -> (n: usize)
        ensures
            n == self@.len(),
            in_pop_order(self@),
    {
        proof {
            use_type_invariant(self);
        }
        self.heap.len()
    }

    /// Adds `node` with the cost `cost`: the entry takes its place after the
    /// entries that it does not come before.
    pub fn push(&mut self, node: u32, cost: u64)
        ensures
            final(self)@ == old(self)@.insert(
                leading_not_after(old(self)@, (node, cost)),
                (node, cost),
            ),
            in_pop_order(final(self)@),
    {
        proof {
            use_type_invariant(&*self);
        }
        let ghost before = self@;
        let mut taken = DistanceFrontier::new();
        core::mem::swap(self, &mut taken);
        let DistanceFrontier { heap: mut held } = taken;
        let x = (node, cost);
        let mut p: usize = 0;
        while p < held.len() && !Self::comes_before(x, held[p])
            invariant
                p <= held@.len(),
                held@ == before,
                in_pop_order(before),
                forall|i: int| 0 <= i < p ==> !lower_candidate(x, #[trigger] held@[i]),
            decreases held.len() - p,
        {
            p += 1;
        }
        proof {
            lemma_leading_not_after(before, x);
            let q = leading_not_after(before, x);
            if q < p {
                assert(lower_candidate(x, before[q]));
            } else if p < q {
                assert(!lower_candidate(x, before[p as int]));
            }
        }
        held.insert(p, x);
        *self = DistanceFrontier { heap: held };
    }

    /// Whether the entry `a` is handed out before the entry `b`.
    fn comes_before(a: (u32, u64), b: (u32, u64)) -> (r: bool)
        ensures
            r == lower_candidate(a, b),
    {
        if a.1 != b.1 {
            total_order(a.1, b.1) == -1
        } else {
            a.0 < b.0
        }
    }

    /// Takes the entry with the least cost, and among those the least node.
    pub fn pop(&mut self) -> (r: Option<(u32, u64)>)
        ensures
            in_pop_order(final(self)@),
            match r {
                Some(e) => old(self)@.len() > 0 && e == old(self)@[0] && final(self)@ == old(self)@.drop_first() && forall|i: int|
                    0 <= i < old(self)@.len() ==> !lower_candidate(#[trigger] old(self)@[i], e),
                None => old(self)@.len() == 0 && final(self)@ == old(self)@,
            },
    {
        proof {
            use_type_invariant(&*self);
        }
        if self.heap.len() == 0 {
            return None;
        }
        let ghost before = self@;
        let mut taken = DistanceFrontier::new();
        core::mem::swap(self, &mut taken);
        let DistanceFrontier { heap: mut held } = taken;
        let e = held.remove(0);
        proof {
            assert(held@ =~= before.drop_first());
            assert forall|i: int, j: int| 0 <= i < j < held@.len() implies !lower_candidate(
                #[trigger] held@[j],
                #[trigger] held@[i],
            ) by {
                assert(held@[i] == before[i + 1] && held@[j] == before[j + 1]);
            }
            assert forall|i: int| 0 <= i < before.len() implies !lower_candidate(
                #[trigger] before[i],
                e,
            ) by {
                if i > 0 {
                    assert(!lower_candidate(before[i], before[0]));
                }
            }
        }
        *self = DistanceFrontier { heap: held };
        Some(e)
    }

    /// Takes entries in order until one is not stale, and hands that one
    /// out; the stale entries before it are dropped.
    pub fn pop_min<F: Fn(u32, u64) -> bool>(&mut self, is_stale: F) -> (r: Option<(u32, u64)>)
        requires
            forall|n: u32, c: u64| call_requires(is_stale, (n, c)),
        ensures
            in_pop_order(final(self)@),
            match r {
                Some(e) => exists|k: int|
                    0 <= k < old(self)@.len() && #[trigger] old(self)@[k] == e && final(self)@
                        == old(self)@.skip(k + 1) && call_ensures(is_stale, (e.0, e.1), false)
                        && forall|j: int|
                        0 <= j < k ==> call_ensures(
                            is_stale,
                            ((#[trigger] old(self)@[j]).0, old(self)@[j].1),
                            true,
                        ),
                None => final(self)@.len() == 0 && forall|j: int|
                    0 <= j < old(self)@.len() ==> call_ensures(
                        is_stale,
                        ((#[trigger] old(self)@[j]).0, old(self)@[j].1),
                        true,
                    ),
            },
    {
        let ghost before = self@;
        let ghost mut k: int = 0;
        assert(before.skip(0) =~= before);
        loop
            invariant
                0 <= k <= before.len(),
                before == old(self)@,
                self@ == before.skip(k),
                forall|n: u32, c: u64| call_requires(is_stale, (n, c)),
                forall|j: int|
                    0 <= j < k ==> call_ensures(
                        is_stale,
                        ((#[trigger] before[j]).0, before[j].1),
                        true,
                    ),
            decreases before.len() - k,
        {
            match self.pop() {
                None => {
                    return None;
                },
                Some(entry) => {
                    proof {
                        assert(before.skip(k)[0] == before[k]);
                        assert(before.skip(k).drop_first() =~= before.skip(k + 1));
                    }
                    if is_stale(entry.0, entry.1) {
                        proof {
                            k = k + 1;
                        }
                    } else {
                        return Some(entry);
                    }
                },
            }
        }
    }
}

} // verus!
