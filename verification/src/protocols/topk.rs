//! The candidates among which the k-best engine selects: one for each first
//! hop of the paths found, the best first.

use vstd::prelude::*;
use crate::id_map::{ids_sorted, lemma_find_at, map_of, IdMap};
use crate::model::metric::{bits_eq, bits_lt, is_nan, num_eq, num_lt, value_key};
use crate::protocols::route_compute::types::PathCandidate;
use crate::protocols::selection::{choose_candidate, is_choice};
use crate::rng::LcgRng;

verus! {

/// A next hop with the best path through it: the cost of that path, as the
/// bit pattern of a double-precision number, and the number of its hops.
#[derive(Debug, Clone, Copy, PartialEq, Eq, Structural)]
pub struct NextHopCandidate {
    pub next_hop: u32,
    pub metric: u64,
    pub hop_count: usize,
}

/// Whether a path of the cost `metric` over `hop_count` hops takes the
/// place of the candidate `held` for the same first hop: it costs less, or
/// the same with fewer hops.
pub open spec fn improves_on(metric: u64, hop_count: usize, held: NextHopCandidate) -> bool {
    num_lt(metric, held.metric) || (num_eq(metric, held.metric) && hop_count < held.hop_count)
}

/// The candidate that the path `p`, of two nodes at least, stands for.
pub open spec fn candidate_of(p: PathCandidate) -> NextHopCandidate {
    NextHopCandidate {
        next_hop: p.nodes@[1],
        metric: p.cost,
        hop_count: (p.nodes@.len() - 1) as usize,
    }
}

/// The candidates by first hop that the first `n` of `paths` give: a path
/// takes the place of the candidate held for its first hop if it improves
/// on it; a path without a first hop gives none.
pub open spec fn best_candidates(paths: Seq<PathCandidate>, n: int) -> Map<u32, NextHopCandidate>
    decreases n,
{
    if n <= 0 {
        Map::empty()
    } else {
        let held = best_candidates(paths, n - 1);
        let p = paths[n - 1];
        if p.nodes@.len() < 2 {
            held
        } else {
            let c = candidate_of(p);
            if held.contains_key(c.next_hop) && !improves_on(
                c.metric,
                c.hop_count,
                held[c.next_hop],
            ) {
                held
            } else {
                held.insert(c.next_hop, c)
            }
        }
    }
}

/// The candidates by first hop that `paths` give, in ascending order of
/// the hops.
pub fn per_hop_candidates(paths: &[PathCandidate]) -> (best: IdMap<NextHopCandidate>)
    ensures
        best.spec_map() == best_candidates(paths@, paths@.len() as int),
        ids_sorted(best@),
        forall|i: int| 0 <= i < best@.len() ==> (#[trigger] best@[i]).1.next_hop == best@[i].0,
{
    let mut best: IdMap<NextHopCandidate> = IdMap::new();
    let mut i: usize = 0;
    while i < paths.len()
        invariant
            i <= paths@.len(),
            ids_sorted(best@),
            best.spec_map() == best_candidates(paths@, i as int),
            forall|k: u32|
                #[trigger] best.spec_map().contains_key(k) ==> best.spec_map()[k].next_hop == k,
        decreases paths.len() - i,
    {
        let path = &paths[i];
        if path.nodes.len() >= 2 {
            let hop = path.nodes[1];
            let hop_count = path.nodes.len() - 1;
            let replace = match best.get(hop) {
                Some(held) => bits_lt(path.cost, held.metric) || (bits_eq(path.cost, held.metric)
                    && hop_count < held.hop_count),
                None => true,
            };
            if replace {
                best.insert(hop, NextHopCandidate { next_hop: hop, metric: path.cost, hop_count });
            }
        }
        i += 1;
    }
    proof {
        assert forall|j: int| 0 <= j < best@.len() implies (#[trigger] best@[j]).1.next_hop
            == best@[j].0 by {
            lemma_find_at(best@, j);
            assert(best.spec_map().contains_key(best@[j].0));
        }
    }
    best
}

/// Whether the candidate `a` is offered before `b`: it costs less; or
/// neither costs less and its next hop is the smaller one; or, for one next
/// hop, it has fewer hops.
pub open spec fn offered_before(a: NextHopCandidate, b: NextHopCandidate) -> bool {
    if num_lt(a.metric, b.metric) {
        true
    } else if num_lt(b.metric, a.metric) {
        false
    } else if a.next_hop != b.next_hop {
        a.next_hop < b.next_hop
    } else {
        a.hop_count < b.hop_count
    }
}

/// How many leading candidates of `t` a candidate of the cost `metric`
/// goes behind: those that it does not cost less than.
pub open spec fn leading_kept(t: Seq<NextHopCandidate>, metric: u64) -> int
    decreases t.len(),
{
    if t.len() > 0 && !num_lt(metric, t[0].metric) {
        1 + leading_kept(t.drop_first(), metric)
    } else {
        0
    }
}

/// The first `n` candidates of `s` ranked: each goes before the first
/// candidate ranked so far that costs more.
pub open spec fn ranked(s: Seq<(u32, NextHopCandidate)>, n: int) -> Seq<NextHopCandidate>
    decreases n,
{
    if n <= 0 {
        Seq::empty()
    } else {
        let t = ranked(s, n - 1);
        t.insert(leading_kept(t, s[n - 1].1.metric), s[n - 1].1)
    }
}

/// The place that [`leading_kept`] counts up to is the first at which a
/// candidate costs more than `metric`.
pub proof fn lemma_leading_kept(t: Seq<NextHopCandidate>, metric: u64)
    ensures
        0 <= leading_kept(t, metric) <= t.len(),
        forall|i: int| 0 <= i < leading_kept(t, metric) ==> !num_lt(metric, (#[trigger] t[i]).metric),
        leading_kept(t, metric) < t.len() ==> num_lt(metric, t[leading_kept(t, metric)].metric),
    decreases t.len(),
{
    if t.len() > 0 && !num_lt(metric, t[0].metric) {
        let u = t.drop_first();
        lemma_leading_kept(u, metric);
        let k = leading_kept(u, metric);
        assert forall|i: int| 0 <= i < k + 1 implies !num_lt(metric, (#[trigger] t[i]).metric) by {
            if i > 0 {
                assert(t[i] == u[i - 1]);
            }
        }
        if k < u.len() {
            assert(t[k + 1] == u[k]);
        }
    }
}

/// Whether the candidates `s` are in the order in which they are offered:
/// none is offered before one that stands in front of it.
pub open spec fn in_offer_order(s: Seq<NextHopCandidate>) -> bool {
    forall|i: int, j: int| 0 <= i < j < s.len() ==> !offered_before(#[trigger] s[j], #[trigger] s[i])
}

/// Whether the candidates `s` ascend by cost and, within one cost, by next
/// hop, and all have next hops below `bound`.
spec fn ascends_below(s: Seq<NextHopCandidate>, bound: int) -> bool {
    &&& forall|i: int| 0 <= i < s.len() ==> !is_nan((#[trigger] s[i]).metric) && s[i].next_hop < bound
    &&& forall|i: int, j: int|
        0 <= i < j < s.len() ==> value_key((#[trigger] s[i]).metric) < value_key(
            (#[trigger] s[j]).metric,
        ) || (value_key(s[i].metric) == value_key(s[j].metric) && s[i].next_hop < s[j].next_hop)
}

/// The candidates `best`, one for each next hop, in the order in which they
/// are offered. Where every cost is a number, that is the ascending order
/// of the costs, candidates of one cost in ascending order of their next
/// hops.
pub fn rank_candidates(best: &IdMap<NextHopCandidate>) -> (out: Vec<NextHopCandidate>)
    requires
        forall|i: int| 0 <= i < best@.len() ==> (#[trigger] best@[i]).1.next_hop == best@[i].0,
    ensures
        out@ == ranked(best@, best@.len() as int),
        out@.len() == best@.len(),
        (forall|i: int| 0 <= i < best@.len() ==> !is_nan((#[trigger] best@[i]).1.metric))
            ==> in_offer_order(out@),
{
    let n = best.len();
    let ghost numbers = forall|i: int| 0 <= i < best@.len() ==> !is_nan((#[trigger] best@[i]).1.metric);
    let mut out: Vec<NextHopCandidate> = Vec::new();
    let mut k: usize = 0;
    while k < n
        invariant
            k <= n,
            n == best@.len(),
            ids_sorted(best@),
            forall|i: int| 0 <= i < best@.len() ==> (#[trigger] best@[i]).1.next_hop == best@[i].0,
            numbers == (forall|i: int|
                0 <= i < best@.len() ==> !is_nan((#[trigger] best@[i]).1.metric)),
            out@ == ranked(best@, k as int),
            out@.len() == k,
            numbers ==> ascends_below(
                out@,
                if k < n {
                    best@[k as int].0 as int
                } else {
                    0x1_0000_0000
                },
            ),
        decreases n - k,
    {
        let x = *best.value_at(k);
        let mut p: usize = 0;
        while p < out.len() && !bits_lt(x.metric, out[p].metric)
            invariant
                p <= out@.len(),
                forall|i: int| 0 <= i < p ==> !num_lt(x.metric, (#[trigger] out@[i]).metric),
            decreases out.len() - p,
        {
            p += 1;
        }
        let ghost before = out@;
        proof {
            lemma_leading_kept(before, x.metric);
            let q = leading_kept(before, x.metric);
            if q < p {
                assert(!num_lt(x.metric, before[q].metric));
            }
            if p < q {
                assert(!num_lt(x.metric, before[p as int].metric));
            }
            assert(p == q);
        }
        out.insert(p, x);
        proof {
            let after = out@;
            let bound: int = if k + 1 < n {
                best@[k + 1].0 as int
            } else {
                0x1_0000_0000
            };
            if numbers {
                assert(x.next_hop == best@[k as int].0);
                assert(!is_nan(x.metric));
                if k + 1 < n {
                    assert(best@[k as int].0 < best@[k + 1].0);
                }
                assert forall|i: int| 0 <= i < after.len() implies !is_nan(
                    (#[trigger] after[i]).metric,
                ) && after[i].next_hop < bound by {
                    if i < p {
                        assert(after[i] == before[i]);
                    } else if i > p {
                        assert(after[i] == before[i - 1]);
                    }
                }
                assert forall|i: int, j: int| 0 <= i < j < after.len() implies value_key(
                    (#[trigger] after[i]).metric,
                ) < value_key((#[trigger] after[j]).metric) || (value_key(after[i].metric)
                    == value_key(after[j].metric) && after[i].next_hop < after[j].next_hop) by {
                    let a = if i < p {
                        before[i]
                    } else if i == p {
                        x
                    } else {
                        before[i - 1]
                    };
                    let c = if j < p {
                        before[j]
                    } else if j == p {
                        x
                    } else {
                        before[j - 1]
                    };
                    assert(after[i] == a && after[j] == c);
                    if j == p {
                        assert(!num_lt(x.metric, before[i].metric));
                    } else if i == p {
                        assert(num_lt(x.metric, before[p as int].metric));
                        if j - 1 > p {
                            assert(value_key(before[p as int].metric) <= value_key(
                                before[j - 1].metric,
                            ));
                        }
                    }
                }
            }
        }
        k += 1;
    }
    proof {
        if numbers {
            assert forall|i: int, j: int| 0 <= i < j < out@.len() implies !offered_before(
                #[trigger] out@[j],
                #[trigger] out@[i],
            ) by {}
        }
    }
    out
}

/// The candidate that the k-best engine selects for a destination with the
/// paths `paths`, together with the candidates it was selected from, the
/// best first: the candidates are one for each first hop, ranked; the
/// choice among them is that of [`is_choice`]. Without a candidate nothing
/// is selected and nothing drawn.
pub fn select_candidate(
    paths: &[PathCandidate],
    held: Option<u32>,
    explore_threshold: u64,
    rng: &mut LcgRng,
) -> (r: (Option<NextHopCandidate>, Vec<NextHopCandidate>))
    ensures
        exists|best: Seq<(u32, NextHopCandidate)>|
            #![trigger map_of(best)]
            ids_sorted(best) && map_of(best) == best_candidates(paths@, paths@.len() as int)
                && r.1@ == ranked(best, best.len() as int),
        match r.0 {
            None => r.1@.len() == 0 && final(rng).spec_state() == old(rng).spec_state(),
            Some(chosen) => exists|idx: int|
                0 <= idx < r.1@.len() && chosen == #[trigger] r.1@[idx] && is_choice(
                    Seq::new(r.1@.len(), |i: int| r.1@[i].next_hop),
                    held,
                    explore_threshold,
                    old(rng).spec_state(),
                    idx,
                    final(rng).spec_state(),
                ),
        },
{
    let best = per_hop_candidates(paths);
    let candidates = rank_candidates(&best);
    if candidates.len() == 0 {
        return (None, candidates);
    }
    let mut hops: Vec<u32> = Vec::new();
    let mut i: usize = 0;
    while i < candidates.len()
        invariant
            i <= candidates@.len(),
            hops@ == Seq::new(i as nat, |j: int| candidates@[j].next_hop),
        decreases candidates.len() - i,
    {
        hops.push(candidates[i].next_hop);
        assert(hops@ =~= Seq::new((i + 1) as nat, |j: int| candidates@[j].next_hop));
        i += 1;
    }
    let idx = choose_candidate(&hops, held, explore_threshold, rng);
    let chosen = candidates[idx];
    proof {
        assert(hops@ =~= Seq::new(candidates@.len(), |j: int| candidates@[j].next_hop));
        assert(chosen == candidates@[idx as int]);
    }
    (Some(chosen), candidates)
}

} // verus!
