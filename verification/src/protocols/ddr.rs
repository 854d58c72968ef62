//! The queue-aware protocols: which of the candidate routes to a
//! destination comes first.
//!
//! The completion time and the pressure level of each candidate are
//! estimated by the caller; this module filters the candidates by deadline
//! and by pressure and puts them in order.

use vstd::prelude::*;
use crate::id_set::IdSet;
use crate::model::metric::{bits_le, lemma_total_key_injective, num_le, total_key, total_order};
use crate::model::routing::{Ipv4RoutingTableEntry, Route, RoutingTableEntry};
use crate::rng::{lcg_next, LcgRng};

verus! {

/// A candidate route through one neighbour; distance and completion time
/// are bit patterns of double-precision numbers.
#[derive(Debug, Clone, Copy)]
pub struct RouteChoice {
    pub next_hop: u32,
    pub distance: u64,
    pub completion_ms: u64,
    pub pressure_level: usize,
}

/// Whether the candidate completes within the deadline.
pub open spec fn meets_deadline(c: RouteChoice, deadline_ms: u64) -> bool {
    num_le(c.completion_ms, deadline_ms)
}

/// Whether some candidate of `choices` completes within the deadline.
pub open spec fn some_meets_deadline(choices: Seq<RouteChoice>, deadline_ms: u64) -> bool {
    exists|i: int| 0 <= i < choices.len() && meets_deadline(#[trigger] choices[i], deadline_ms)
}

/// Whether the candidate is in the base set: the candidates that meet the
/// deadline, or all candidates where none does.
pub open spec fn in_base(choices: Seq<RouteChoice>, c: RouteChoice, deadline_ms: u64) -> bool {
    !some_meets_deadline(choices, deadline_ms) || meets_deadline(c, deadline_ms)
}

/// Whether some candidate of the base set is under no high pressure.
pub open spec fn some_low_pressure(
    choices: Seq<RouteChoice>,
    deadline_ms: u64,
    pressure_threshold: usize,
) -> bool {
    exists|i: int|
        0 <= i < choices.len() && in_base(choices, #[trigger] choices[i], deadline_ms)
            && choices[i].pressure_level <= pressure_threshold
}

/// Whether the candidate is in the selection pool: the candidates of the
/// base set that are under no high pressure, or the whole base set where
/// there is none.
pub open spec fn in_pool(
    choices: Seq<RouteChoice>,
    c: RouteChoice,
    deadline_ms: u64,
    pressure_threshold: usize,
) -> bool {
    in_base(choices, c, deadline_ms) && (!some_low_pressure(
        choices,
        deadline_ms,
        pressure_threshold,
    ) || c.pressure_level <= pressure_threshold)
}

/// Whether `hop` is a preferred next hop: that of a candidate of the pool.
pub open spec fn is_preferred_hop(
    choices: Seq<RouteChoice>,
    hop: u32,
    deadline_ms: u64,
    pressure_threshold: usize,
) -> bool {
    exists|i: int|
        0 <= i < choices.len() && (#[trigger] choices[i]).next_hop == hop && in_pool(
            choices,
            choices[i],
            deadline_ms,
            pressure_threshold,
        )
}

/// The rank of a next hop: 0 for the hop that was drawn, 1 for a preferred
/// hop, 2 for any other.
pub open spec fn hop_rank(hop: u32, drawn: Option<u32>, preferred: Set<u32>) -> int {
    if drawn == Some(hop) {
        0
    } else if preferred.contains(hop) {
        1
    } else {
        2
    }
}

/// Whether the candidate `a` comes before `b`: by rank of the next hop, then
/// by completion time in the total order of its pattern, then by next hop.
pub open spec fn choice_before(a: RouteChoice, b: RouteChoice, drawn: Option<u32>, preferred: Set<u32>) -> bool {
    let ra = hop_rank(a.next_hop, drawn, preferred);
    let rb = hop_rank(b.next_hop, drawn, preferred);
    if ra != rb {
        ra < rb
    } else if a.completion_ms != b.completion_ms {
        total_key(a.completion_ms) < total_key(b.completion_ms)
    } else {
        a.next_hop < b.next_hop
    }
}

/// How many leading candidates of `s` the candidate `x` does not come before.
pub open spec fn leading_choices(s: Seq<RouteChoice>, x: RouteChoice, drawn: Option<u32>, preferred: Set<u32>) -> int
    decreases s.len(),
{
    if s.len() > 0 && !choice_before(x, s[0], drawn, preferred) {
        1 + leading_choices(s.drop_first(), x, drawn, preferred)
    } else {
        0
    }
}

/// The first `n` of `choices` in order, candidates that are as good as each
/// other in the order in which they came.
pub open spec fn ordered_choices(choices: Seq<RouteChoice>, n: int, drawn: Option<u32>, preferred: Set<u32>) -> Seq<
    RouteChoice,
>
    decreases n,
{
    if n <= 0 {
        Seq::empty()
    } else {
        let t = ordered_choices(choices, n - 1, drawn, preferred);
        t.insert(leading_choices(t, choices[n - 1], drawn, preferred), choices[n - 1])
    }
}

/// Whether the candidates of `s` never descend.
pub open spec fn choices_ascend(s: Seq<RouteChoice>, drawn: Option<u32>, preferred: Set<u32>) -> bool {
    forall|i: int, j: int|
        0 <= i < j < s.len() ==> !choice_before(#[trigger] s[j], #[trigger] s[i], drawn, preferred)
}

pub proof fn lemma_choice_before(a: RouteChoice, b: RouteChoice, c: RouteChoice, drawn: Option<u32>, preferred: Set<u32>)
    ensures
        choice_before(a, b, drawn, preferred) && choice_before(b, c, drawn, preferred)
            ==> choice_before(a, c, drawn, preferred),
        !choice_before(a, b, drawn, preferred) && !choice_before(b, c, drawn, preferred)
            ==> !choice_before(a, c, drawn, preferred),
        !(choice_before(a, b, drawn, preferred) && choice_before(b, a, drawn, preferred)),
{
    lemma_total_key_injective(a.completion_ms, b.completion_ms);
    lemma_total_key_injective(b.completion_ms, c.completion_ms);
    lemma_total_key_injective(a.completion_ms, c.completion_ms);
}

pub proof fn lemma_leading_choices(s: Seq<RouteChoice>, x: RouteChoice, drawn: Option<u32>, preferred: Set<u32>)
    requires
        choices_ascend(s, drawn, preferred),
    ensures
        0 <= leading_choices(s, x, drawn, preferred) <= s.len(),
        forall|i: int|
            0 <= i < leading_choices(s, x, drawn, preferred) ==> !choice_before(
                x,
                #[trigger] s[i],
                drawn,
                preferred,
            ),
        forall|i: int|
            leading_choices(s, x, drawn, preferred) <= i < s.len() ==> choice_before(
                x,
                #[trigger] s[i],
                drawn,
                preferred,
            ),
        choices_ascend(s.insert(leading_choices(s, x, drawn, preferred), x), drawn, preferred),
    decreases s.len(),
{
    let k = leading_choices(s, x, drawn, preferred);
    if s.len() > 0 && !choice_before(x, s[0], drawn, preferred) {
        let t = s.drop_first();
        assert(choices_ascend(t, drawn, preferred)) by {
            assert forall|i: int, j: int| 0 <= i < j < t.len() implies !choice_before(
                #[trigger] t[j],
                #[trigger] t[i],
                drawn,
                preferred,
            ) by {
                assert(t[i] == s[i + 1] && t[j] == s[j + 1]);
            }
        }
        lemma_leading_choices(t, x, drawn, preferred);
        assert forall|i: int| 0 <= i < k implies !choice_before(
            x,
            #[trigger] s[i],
            drawn,
            preferred,
        ) by {
            if i > 0 {
                assert(s[i] == t[i - 1]);
            }
        }
        assert forall|i: int| k <= i < s.len() implies choice_before(
            x,
            #[trigger] s[i],
            drawn,
            preferred,
        ) by {
            assert(s[i] == t[i - 1]);
        }
    } else if s.len() > 0 {
        assert forall|i: int| 0 <= i < s.len() implies choice_before(
            x,
            #[trigger] s[i],
            drawn,
            preferred,
        ) by {
            if i > 0 {
                assert(!choice_before(s[i], s[0], drawn, preferred));
                lemma_choice_before(s[i], x, s[0], drawn, preferred);
                lemma_choice_before(x, s[0], s[i], drawn, preferred);
                let ra = hop_rank(x.next_hop, drawn, preferred);
                let r0 = hop_rank(s[0].next_hop, drawn, preferred);
                let ri = hop_rank(s[i].next_hop, drawn, preferred);
                lemma_total_key_injective(x.completion_ms, s[0].completion_ms);
                lemma_total_key_injective(x.completion_ms, s[i].completion_ms);
                lemma_total_key_injective(s[0].completion_ms, s[i].completion_ms);
            }
        }
    }
    let u = s.insert(k, x);
    assert forall|i: int, j: int| 0 <= i < j < u.len() implies !choice_before(
        #[trigger] u[j],
        #[trigger] u[i],
        drawn,
        preferred,
    ) by {
        let i2 = if i < k {
            i
        } else {
            i - 1
        };
        let j2 = if j < k {
            j
        } else {
            j - 1
        };
        if i == k {
            assert(u[j] == s[j2]);
            lemma_choice_before(x, s[j2], x, drawn, preferred);
        } else if j == k {
            assert(u[i] == s[i2]);
        } else {
            assert(u[i] == s[i2] && u[j] == s[j2]);
        }
    }
}

/// The candidates in order, candidates that are as good as each other in
/// the order in which they came.
fn sort_choices(choices: &[RouteChoice], drawn: Option<u32>, preferred: &IdSet) -> (out: Vec<RouteChoice>)
    ensures
        out@ == ordered_choices(choices@, choices@.len() as int, drawn, preferred.spec_set()),
        out@.len() == choices@.len(),
        choices_ascend(out@, drawn, preferred.spec_set()),
{
    let mut out: Vec<RouteChoice> = Vec::new();
    let ghost p = preferred.spec_set();
    let mut n: usize = 0;
    while n < choices.len()
        invariant
            n <= choices@.len(),
            p == preferred.spec_set(),
            out@ == ordered_choices(choices@, n as int, drawn, p),
            out@.len() == n,
            choices_ascend(out@, drawn, p),
        decreases choices.len() - n,
    {
        let x = choices[n];
        let mut k: usize = 0;
        while k < out.len() && !comes_before(&x, &out[k], drawn, preferred)
            invariant
                k <= out@.len(),
                p == preferred.spec_set(),
                forall|i: int| 0 <= i < k ==> !choice_before(x, #[trigger] out@[i], drawn, p),
            decreases out.len() - k,
        {
            k += 1;
        }
        proof {
            lemma_leading_choices(out@, x, drawn, p);
            let q = leading_choices(out@, x, drawn, p);
            if q < k {
                assert(choice_before(x, out@[q], drawn, p));
            } else if k < q {
                assert(!choice_before(x, out@[k as int], drawn, p));
            }
        }
        out.insert(k, x);
        n += 1;
    }
    out
}

/// The rank of a next hop.
fn rank_of(hop: u32, drawn: Option<u32>, preferred: &IdSet) -> (r: u8)
    ensures
        r == hop_rank(hop, drawn, preferred.spec_set()),
{
    let is_drawn = match drawn {
        Some(d) => d == hop,
        None => false,
    };
    if is_drawn {
        0
    } else if preferred.contains(hop) {
        1
    } else {
        2
    }
}

/// Whether the candidate `a` comes before `b`.
fn comes_before(a: &RouteChoice, b: &RouteChoice, drawn: Option<u32>, preferred: &IdSet) -> (r: bool)
    ensures
        r == choice_before(*a, *b, drawn, preferred.spec_set()),
{
    let ra = rank_of(a.next_hop, drawn, preferred);
    let rb = rank_of(b.next_hop, drawn, preferred);
    if ra != rb {
        ra < rb
    } else if a.completion_ms != b.completion_ms {
        total_order(a.completion_ms, b.completion_ms) == -1
    } else {
        a.next_hop < b.next_hop
    }
}

/// The preferred next hops among `choices`: the next hops of the selection
/// pool.
pub fn preferred_hops(choices: &[RouteChoice], deadline_ms: u64, pressure_threshold: usize) -> (hops: IdSet)
    ensures
        forall|h: u32|
            #[trigger] hops.spec_set().contains(h) <==> is_preferred_hop(
                choices@,
                h,
                deadline_ms,
                pressure_threshold,
            ),
        choices@.len() > 0 ==> hops@.len() > 0,
{
    let mut any_deadline = false;
    let mut i: usize = 0;
    while i < choices.len()
        invariant
            i <= choices@.len(),
            any_deadline == exists|j: int|
                0 <= j < i && meets_deadline(#[trigger] choices@[j], deadline_ms),
        decreases choices.len() - i,
    {
        if bits_le(choices[i].completion_ms, deadline_ms) {
            any_deadline = true;
        }
        i += 1;
    }
    assert(any_deadline == some_meets_deadline(choices@, deadline_ms));
    let mut any_low = false;
    let mut k: usize = 0;
    while k < choices.len()
        invariant
            k <= choices@.len(),
            any_deadline == some_meets_deadline(choices@, deadline_ms),
            any_low == exists|j: int|
                0 <= j < k && in_base(choices@, #[trigger] choices@[j], deadline_ms)
                    && choices@[j].pressure_level <= pressure_threshold,
        decreases choices.len() - k,
    {
        let c = choices[k];
        if (!any_deadline || bits_le(c.completion_ms, deadline_ms)) && c.pressure_level
            <= pressure_threshold {
            any_low = true;
        }
        k += 1;
    }
    assert(any_low == some_low_pressure(choices@, deadline_ms, pressure_threshold));
    let mut hops = IdSet::new();
    let mut m: usize = 0;
    while m < choices.len()
        invariant
            m <= choices@.len(),
            any_deadline == some_meets_deadline(choices@, deadline_ms),
            any_low == some_low_pressure(choices@, deadline_ms, pressure_threshold),
            forall|h: u32|
                #[trigger] hops.spec_set().contains(h) <==> exists|j: int|
                    0 <= j < m && (#[trigger] choices@[j]).next_hop == h && in_pool(
                        choices@,
                        choices@[j],
                        deadline_ms,
                        pressure_threshold,
                    ),
        decreases choices.len() - m,
    {
        let c = choices[m];
        let ghost before = hops.spec_set();
        if (!any_deadline || bits_le(c.completion_ms, deadline_ms)) && (!any_low
            || c.pressure_level <= pressure_threshold) {
            hops.insert(c.next_hop);
        }
        proof {
            assert forall|h: u32|
                #[trigger] hops.spec_set().contains(h) <==> exists|j: int|
                    0 <= j < m + 1 && (#[trigger] choices@[j]).next_hop == h && in_pool(
                        choices@,
                        choices@[j],
                        deadline_ms,
                        pressure_threshold,
                    ) by {
                if before.contains(h) {
                    let j = choose|j: int|
                        0 <= j < m && (#[trigger] choices@[j]).next_hop == h && in_pool(
                            choices@,
                            choices@[j],
                            deadline_ms,
                            pressure_threshold,
                        );
                    assert(0 <= j < m + 1);
                }
                if exists|j: int|
                    0 <= j < m + 1 && (#[trigger] choices@[j]).next_hop == h && in_pool(
                        choices@,
                        choices@[j],
                        deadline_ms,
                        pressure_threshold,
                    ) {
                    let j = choose|j: int|
                        0 <= j < m + 1 && (#[trigger] choices@[j]).next_hop == h && in_pool(
                            choices@,
                            choices@[j],
                            deadline_ms,
                            pressure_threshold,
                        );
                    if j < m {
                        assert(before.contains(h));
                    }
                }
                if h == c.next_hop && in_pool(choices@, c, deadline_ms, pressure_threshold) {
                    assert(choices@[m as int].next_hop == h);
                }
            }
        }
        m += 1;
    }
    proof {
        if choices@.len() > 0 {
            // The pool is never empty: each filter falls back to its input.
            let w: int = if any_low {
                choose|j: int|
                    0 <= j < choices@.len() && in_base(choices@, #[trigger] choices@[j], deadline_ms)
                        && choices@[j].pressure_level <= pressure_threshold
            } else if any_deadline {
                choose|j: int|
                    0 <= j < choices@.len() && meets_deadline(#[trigger] choices@[j], deadline_ms)
            } else {
                0
            };
            assert(in_pool(choices@, choices@[w], deadline_ms, pressure_threshold));
            assert(is_preferred_hop(
                choices@,
                choices@[w].next_hop,
                deadline_ms,
                pressure_threshold,
            ));
            assert(hops.spec_set().contains(choices@[w].next_hop));
            assert(hops@.contains(choices@[w].next_hop));
        }
    }
    hops
}

/// The candidate routes to one destination in the order in which they are
/// offered. The preferred next hops are those of the selection pool. Where
/// `randomize` asks for it and there are several preferred next hops, one of
/// them is drawn with `rng` and its candidates come first; the candidates of
/// preferred next hops come before the others; within these, the shorter
/// completion time and then the smaller next hop comes first.
pub fn order_route_choices(
    choices: &[RouteChoice],
    deadline_ms: u64,
    pressure_threshold: usize,
    randomize: bool,
    rng: &mut LcgRng,
) -> (out: Vec<RouteChoice>)
    ensures
        exists|preferred: Seq<u32>|
            #![trigger preferred.to_set()]
            {
                let draws = randomize && preferred.len() > 1;
                let drawn = if draws {
                    Some(
                        preferred[(lcg_next(old(rng).spec_state()) % (preferred.len() as u64)) as int],
                    )
                } else {
                    None
                };
                &&& crate::id_set::ascending(preferred)
                &&& forall|h: u32|
                    #[trigger] preferred.to_set().contains(h) <==> is_preferred_hop(
                        choices@,
                        h,
                        deadline_ms,
                        pressure_threshold,
                    )
                &&& final(rng).spec_state() == (if draws {
                    lcg_next(old(rng).spec_state())
                } else {
                    old(rng).spec_state()
                })
                &&& out@ == ordered_choices(
                    choices@,
                    choices@.len() as int,
                    drawn,
                    preferred.to_set(),
                )
                &&& choices_ascend(out@, drawn, preferred.to_set())
            },
        out@.len() == choices@.len(),
{
    let preferred = preferred_hops(choices, deadline_ms, pressure_threshold);
    let n = preferred.len();
    let drawn: Option<u32> = if randomize && n > 1 {
        let idx = rng.next_u64() % (n as u64);
        Some(preferred.get_at(idx as usize))
    } else {
        None
    };
    let out = sort_choices(choices, drawn, &preferred);
    assert(preferred.spec_set() == preferred@.to_set());
    out
}

/// A route of the queue-aware engines; metric and distance are bit patterns
/// of double-precision numbers.
#[derive(Debug, Clone, Copy, PartialEq)]
pub struct DdrRoutingTableEntry {
    base: Ipv4RoutingTableEntry,
    route_metric: u64,
    next_interface: Option<u32>,
    distance: u64,
    pressure_level: usize,
    changed: bool,
}

impl RoutingTableEntry for DdrRoutingTableEntry {
    open spec fn spec_entry(&self) -> Ipv4RoutingTableEntry {
        self.spec_base()
    }

    fn base(&self) -> (r: &Ipv4RoutingTableEntry) {
        &self.base
    }
}

impl DdrRoutingTableEntry {
    /// The routing entry that this entry embeds.
    pub closed spec fn spec_base(&self) -> Ipv4RoutingTableEntry {
        self.base
    }

    /// Whether an attribute changed since the flag was last set.
    pub closed spec fn spec_changed(&self) -> bool {
        self.changed
    }

    pub closed spec fn spec_route_metric(&self) -> u64 {
        self.route_metric
    }

    pub closed spec fn spec_next_interface(&self) -> Option<u32> {
        self.next_interface
    }

    pub closed spec fn spec_distance(&self) -> u64 {
        self.distance
    }

    pub closed spec fn spec_pressure_level(&self) -> usize {
        self.pressure_level
    }

    /// A host route to `destination` through `next_hop` over the distance
    /// `distance`, which the caller has clamped at zero.
    pub fn new_host_route_to(
        destination: u32,
        next_hop: u32,
        interface: Option<u32>,
        next_interface: Option<u32>,
        distance: u64,
    ) -> (e: Self)
        ensures
            e.spec_base().spec_dest() == destination,
            e.spec_base().spec_dest_network() == destination,
            e.spec_base().spec_gateway() == Some(next_hop),
            e.spec_base().spec_interface() == interface,
            e.spec_base().spec_prefix_len() == 32,
            e.spec_route_metric() == 0,
            e.spec_next_interface() == next_interface,
            e.spec_distance() == distance,
            e.spec_pressure_level() == 0,
            !e.spec_changed(),
    {
        Self {
            base: Ipv4RoutingTableEntry::create_host_route_to(destination, next_hop, interface),
            route_metric: 0,
            next_interface,
            distance,
            pressure_level: 0,
            changed: false,
        }
    }

    /// Sets the metric, compared by its pattern; the change flag is raised if the value differs.
    pub fn set_route_metric(&mut self, route_metric: u64)
        ensures
            final(self).spec_route_metric() == route_metric,
            final(self).spec_changed() == (old(self).spec_changed() || old(self).spec_route_metric() != route_metric),
            final(self).spec_base() == old(self).spec_base(),
            final(self).spec_next_interface() == old(self).spec_next_interface(),
            final(self).spec_distance() == old(self).spec_distance(),
            final(self).spec_pressure_level() == old(self).spec_pressure_level(),
    {
        if self.route_metric != route_metric {
            self.route_metric = route_metric;
            self.changed = true;
        }
    }

    pub fn get_route_metric(&self) -> (r: u64)
        ensures
            r == self.spec_route_metric(),
    {
        self.route_metric
    }

    /// Sets the next interface; the change flag is raised if the value differs.
    pub fn set_next_interface(&mut self, next_interface: Option<u32>)
        ensures
            final(self).spec_next_interface() == next_interface,
            final(self).spec_changed() == (old(self).spec_changed() || old(self).spec_next_interface() != next_interface),
            final(self).spec_base() == old(self).spec_base(),
            final(self).spec_route_metric() == old(self).spec_route_metric(),
            final(self).spec_distance() == old(self).spec_distance(),
            final(self).spec_pressure_level() == old(self).spec_pressure_level(),
    {
        if self.next_interface != next_interface {
            self.next_interface = next_interface;
            self.changed = true;
        }
    }

    pub fn get_next_interface(&self) -> (r: Option<u32>)
        ensures
            r == self.spec_next_interface(),
    {
        self.next_interface
    }

    /// Sets the distance, which the caller has clamped at zero and
    /// which is compared by its pattern; the change flag is raised if the value differs.
    pub fn set_distance(&mut self, distance: u64)
        ensures
            final(self).spec_distance() == distance,
            final(self).spec_changed() == (old(self).spec_changed() || old(self).spec_distance() != distance),
            final(self).spec_base() == old(self).spec_base(),
            final(self).spec_route_metric() == old(self).spec_route_metric(),
            final(self).spec_next_interface() == old(self).spec_next_interface(),
            final(self).spec_pressure_level() == old(self).spec_pressure_level(),
    {
        if self.distance != distance {
            self.distance = distance;
            self.changed = true;
        }
    }

    pub fn get_distance(&self) -> (r: u64)
        ensures
            r == self.spec_distance(),
    {
        self.distance
    }

    /// Sets the pressure level; the change flag is raised if the value differs.
    pub fn set_pressure_level(&mut self, pressure_level: usize)
        ensures
            final(self).spec_pressure_level() == pressure_level,
            final(self).spec_changed() == (old(self).spec_changed() || old(self).spec_pressure_level() != pressure_level),
            final(self).spec_base() == old(self).spec_base(),
            final(self).spec_route_metric() == old(self).spec_route_metric(),
            final(self).spec_next_interface() == old(self).spec_next_interface(),
            final(self).spec_distance() == old(self).spec_distance(),
    {
        if self.pressure_level != pressure_level {
            self.pressure_level = pressure_level;
            self.changed = true;
        }
    }

    pub fn get_pressure_level(&self) -> (r: usize)
        ensures
            r == self.spec_pressure_level(),
    {
        self.pressure_level
    }

    /// Sets the change flag.
    pub fn set_route_changed(&mut self, changed: bool)
        ensures
            final(self).spec_changed() == changed,
            final(self).spec_base() == old(self).spec_base(),
            final(self).spec_route_metric() == old(self).spec_route_metric(),
            final(self).spec_next_interface() == old(self).spec_next_interface(),
            final(self).spec_distance() == old(self).spec_distance(),
            final(self).spec_pressure_level() == old(self).spec_pressure_level(),
    {
        self.changed = changed;
    }

    /// Whether an attribute changed since the flag was last set.
    pub fn is_route_changed(&self) -> (r: bool)
        ensures
            r == self.spec_changed(),
    {
        self.changed
    }

    /// The destination of the route.
    pub fn destination(&self) -> (r: u32)
        ensures
            r == self.spec_base().spec_dest(),
    {
        self.base.get_dest()
    }

    /// The next hop of the route.
    pub fn next_hop(&self) -> (r: Option<u32>)
        ensures
            r == self.spec_base().spec_gateway(),
    {
        self.base.get_gateway()
    }

    /// The route that the entry stands for under the protocol `protocol`,
    /// where it has a next hop.
    pub fn to_route(&self, protocol: &str) -> (r: Option<Route>)
        ensures
            r is Some == (self.spec_base().spec_gateway() is Some),
            r matches Some(route) ==> route.destination == self.spec_base().spec_dest()
                && Some(route.next_hop) == self.spec_base().spec_gateway() && route.metric
                == self.spec_route_metric() && route.protocol@ == protocol@
                && route.entry.spec_dest() == route.destination && route.entry.spec_dest_network()
                == route.destination && route.entry.spec_prefix_len() == 32
                && route.entry.spec_gateway() == Some(route.next_hop)
                && route.entry.spec_interface() == None::<u32>,
    {
        match self.base.get_gateway() {
            Some(next_hop) => Some(
                Route::new_host(self.base.get_dest(), next_hop, self.route_metric, protocol),
            ),
            None => None,
        }
    }
}

/// The queue level that a neighbour reports, brought into the levels that
/// there are: at most the top level, which is `queue_levels - 1`, or 0
/// where there is no level at all.
pub fn clamped_queue_level(reported: u64, queue_levels: usize) -> (level: usize)
    ensures
        level == (if queue_levels == 0 {
            0
        } else if reported <= queue_levels - 1 {
            reported as int
        } else {
            queue_levels - 1
        }),
{
    if queue_levels == 0 {
        return 0;
    }
    let top = queue_levels - 1;
    if reported <= top as u64 {
        reported as usize
    } else {
        top
    }
}

/// Whether `route` is the host route to `destination` that the choice
/// `choice` stands for under the protocol `protocol`: through the next hop
/// of the choice, with its completion time as the metric.
pub open spec fn is_choice_route(route: Route, destination: u32, choice: RouteChoice, protocol: Seq<char>) -> bool {
    &&& route.destination == destination
    &&& route.next_hop == choice.next_hop
    &&& route.metric == choice.completion_ms
    &&& route.protocol@ == protocol
    &&& route.entry.spec_dest() == destination
    &&& route.entry.spec_dest_network() == destination
    &&& route.entry.spec_prefix_len() == 32
    &&& route.entry.spec_gateway() == Some(choice.next_hop)
    &&& route.entry.spec_interface() == None::<u32>
}

/// The routes to `destination` that the choices `choices` stand for, in
/// the order of the choices.
pub fn routes_of_choices(destination: u32, choices: &[RouteChoice], protocol: &str) -> (out: Vec<Route>)
    ensures
        out@.len() == choices@.len(),
        forall|i: int|
            0 <= i < out@.len() ==> is_choice_route(
                #[trigger] out@[i],
                destination,
                choices@[i],
                protocol@,
            ),
{
    let mut out: Vec<Route> = Vec::new();
    let mut i: usize = 0;
    while i < choices.len()
        invariant
            i <= choices@.len(),
            out@.len() == i,
            forall|j: int|
                0 <= j < i ==> is_choice_route(
                    #[trigger] out@[j],
                    destination,
                    choices@[j],
                    protocol@,
                ),
        decreases choices.len() - i,
    {
        let choice = &choices[i];
        let mut entry = DdrRoutingTableEntry::new_host_route_to(
            destination,
            choice.next_hop,
            None,
            None,
            choice.distance,
        );
        entry.set_route_metric(choice.completion_ms);
        entry.set_pressure_level(choice.pressure_level);
        entry.set_route_changed(false);
        match entry.to_route(protocol) {
            Some(route) => {
                out.push(route);
            },
            None => {},
        }
        i += 1;
    }
    out
}

/// The queue-aware engines share one layout of routing entries.
pub type DgrRoutingTableEntry = DdrRoutingTableEntry;

} // verus!
