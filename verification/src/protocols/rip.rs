//! The routing entry of the RIP engine and what the engine advertises.

use vstd::prelude::*;
use crate::id_map::{ids_sorted, IdMap};
use crate::model::metric::{bits_eq, bits_lt, is_nan, num_eq, num_lt};
use crate::model::routing::{Ipv4RoutingTableEntry, Route, RoutingTableEntry};
use crate::protocols::base::RouterLink;

verus! {

/// Whether a RIP route is usable.
#[derive(Debug, Clone, Copy, PartialEq, Eq, Structural)]
pub enum RipRouteStatus {
    Valid,
    Invalid,
}

/// A route of the RIP engine; the metric is the bit pattern of a
/// double-precision number.
#[derive(Debug, Clone, Copy, PartialEq)]
pub struct RipRoutingTableEntry {
    base: Ipv4RoutingTableEntry,
    route_tag: u16,
    route_metric: u64,
    status: RipRouteStatus,
    changed: bool,
}

impl RoutingTableEntry for RipRoutingTableEntry {
    open spec fn spec_entry(&self) -> Ipv4RoutingTableEntry {
        self.spec_base()
    }

    fn base(&self) -> (r: &Ipv4RoutingTableEntry) {
        &self.base
    }
}

impl RipRoutingTableEntry {
    /// The routing entry that this entry embeds.
    pub closed spec fn spec_base(&self) -> Ipv4RoutingTableEntry {
        self.base
    }

    /// Whether an attribute changed since the flag was last set.
    pub closed spec fn spec_changed(&self) -> bool {
        self.changed
    }

    pub closed spec fn spec_route_tag(&self) -> u16 {
        self.route_tag
    }

    pub closed spec fn spec_route_metric(&self) -> u64 {
        self.route_metric
    }

    pub closed spec fn spec_status(&self) -> RipRouteStatus {
        self.status
    }

    /// A host route to `destination` through `next_hop` that is not valid
    /// yet.
    pub fn new_host_route_to(destination: u32, next_hop: u32, interface: Option<u32>) -> (e: Self)
        ensures
            e.spec_base().spec_dest() == destination,
            e.spec_base().spec_dest_network() == destination,
            e.spec_base().spec_gateway() == Some(next_hop),
            e.spec_base().spec_interface() == interface,
            e.spec_base().spec_prefix_len() == 32,
            e.spec_route_tag() == 0,
            e.spec_route_metric() == 0,
            e.spec_status() == RipRouteStatus::Invalid,
            !e.spec_changed(),
    {
        Self {
            base: Ipv4RoutingTableEntry::create_host_route_to(destination, next_hop, interface),
            route_tag: 0,
            route_metric: 0,
            status: RipRouteStatus::Invalid,
            changed: false,
        }
    }

    /// Sets the tag; the change flag is raised if the value differs.
    pub fn set_route_tag(&mut self, route_tag: u16)
        ensures
            final(self).spec_route_tag() == route_tag,
            final(self).spec_changed() == (old(self).spec_changed() || old(self).spec_route_tag() != route_tag),
            final(self).spec_base() == old(self).spec_base(),
            final(self).spec_route_metric() == old(self).spec_route_metric(),
            final(self).spec_status() == old(self).spec_status(),
    {
        if self.route_tag != route_tag {
            self.route_tag = route_tag;
            self.changed = true;
        }
    }

    pub fn get_route_tag(&self) -> (r: u16)
        ensures
            r == self.spec_route_tag(),
    {
        self.route_tag
    }

    /// Sets the metric, compared by its pattern; the change flag is raised if the value differs.
    pub fn set_route_metric(&mut self, route_metric: u64)
        ensures
            final(self).spec_route_metric() == route_metric,
            final(self).spec_changed() == (old(self).spec_changed() || old(self).spec_route_metric() != route_metric),
            final(self).spec_base() == old(self).spec_base(),
            final(self).spec_route_tag() == old(self).spec_route_tag(),
            final(self).spec_status() == old(self).spec_status(),
    {
        if self.route_metric != route_metric {
            self.route_metric = route_metric;
            self.changed = true;
        }
    }

    pub fn get_route_metric(&self) -> (r: u64)
        ensures
            r == self.spec_route_metric(),
    {
        self.route_metric
    }

    /// Sets the status; the change flag is raised if the value differs.
    pub fn set_route_status(&mut self, status: RipRouteStatus)
        ensures
            final(self).spec_status() == status,
            final(self).spec_changed() == (old(self).spec_changed() || old(self).spec_status() != status),
            final(self).spec_base() == old(self).spec_base(),
            final(self).spec_route_tag() == old(self).spec_route_tag(),
            final(self).spec_route_metric() == old(self).spec_route_metric(),
    {
        if self.status != status {
            self.status = status;
            self.changed = true;
        }
    }

    pub fn get_route_status(&self) -> (r: RipRouteStatus)
        ensures
            r == self.spec_status(),
    {
        self.status
    }

    /// Sets the change flag.
    pub fn set_route_changed(&mut self, changed: bool)
        ensures
            final(self).spec_changed() == changed,
            final(self).spec_base() == old(self).spec_base(),
            final(self).spec_route_tag() == old(self).spec_route_tag(),
            final(self).spec_route_metric() == old(self).spec_route_metric(),
            final(self).spec_status() == old(self).spec_status(),
    {
        self.changed = changed;
    }

    /// Whether an attribute changed since the flag was last set.
    pub fn is_route_changed(&self) -> (r: bool)
        ensures
            r == self.spec_changed(),
    {
        self.changed
    }

    /// The destination of the route.
    pub fn destination(&self) -> (r: u32)
        ensures
            r == self.spec_base().spec_dest(),
    {
        self.base.get_dest()
    }

    /// The next hop of the route.
    pub fn next_hop(&self) -> (r: Option<u32>)
        ensures
            r == self.spec_base().spec_gateway(),
    {
        self.base.get_gateway()
    }

    /// Whether the two entries say the same, the change flag aside; metrics
    /// are compared by their patterns.
    pub open spec fn spec_same(&self, other: &Self) -> bool {
        self.spec_base() == other.spec_base() && self.spec_route_tag() == other.spec_route_tag()
            && self.spec_route_metric() == other.spec_route_metric() && self.spec_status()
            == other.spec_status()
    }

    /// Whether the two entries say the same, the change flag aside.
    pub fn semantically_equal(&self, other: &Self) -> (r: bool)
        ensures
            r == self.spec_same(other),
    {
        self.base == other.base && self.route_tag == other.route_tag && self.route_metric
            == other.route_metric && self.status == other.status
    }

    /// The route that the entry stands for under the protocol `protocol`,
    /// where it has a next hop and is valid.
    pub fn to_route(&self, protocol: &str) -> (r: Option<Route>)
        ensures
            r is Some == (self.spec_status() == RipRouteStatus::Valid && self.spec_base().spec_gateway() is Some),
            r matches Some(route) ==> route.destination == self.spec_base().spec_dest()
                && Some(route.next_hop) == self.spec_base().spec_gateway() && route.metric
                == self.spec_route_metric() && route.protocol@ == protocol@
                && route.entry.spec_dest() == route.destination && route.entry.spec_dest_network()
                == route.destination && route.entry.spec_prefix_len() == 32
                && route.entry.spec_gateway() == Some(route.next_hop)
                && route.entry.spec_interface() == None::<u32>,
    {
        if self.status != RipRouteStatus::Valid {
            return None;
        }
        match self.base.get_gateway() {
            Some(next_hop) => Some(
                Route::new_host(self.base.get_dest(), next_hop, self.route_metric, protocol),
            ),
            None => None,
        }
    }
}

/// A route as the update builder sees it: its destination, its next hop,
/// and its metric capped at the infinity metric by the caller.
#[derive(Debug, Clone, Copy)]
pub struct AdvertisedRoute {
    pub destination: u32,
    pub next_hop: Option<u32>,
    pub capped_metric: u64,
}

/// Whether the route was learned from `neighbor_id`: the neighbour is its
/// next hop and not its destination.
pub open spec fn learned_from(route: AdvertisedRoute, neighbor_id: u32) -> bool {
    route.next_hop == Some(neighbor_id) && route.destination != neighbor_id
}

/// What is advertised to `neighbor_id` for `route`: nothing for a route
/// without a next hop; for a route learned from that neighbour the infinity
/// metric under poison reverse and nothing under split horizon; else the
/// capped metric.
pub open spec fn advertised(
    route: AdvertisedRoute,
    neighbor_id: u32,
    poison_reverse: bool,
    infinity_metric: u64,
) -> Option<(u32, u64)> {
    if route.next_hop is None {
        None
    } else if learned_from(route, neighbor_id) {
        if poison_reverse {
            Some((route.destination, infinity_metric))
        } else {
            None
        }
    } else {
        Some((route.destination, route.capped_metric))
    }
}

/// The entries of the update that `router_id` sends to `neighbor_id` for
/// the first `n` of `routes`: the router itself at metric zero, then what is
/// advertised for each route.
pub open spec fn update_entries_of(
    router_id: u32,
    neighbor_id: u32,
    routes: Seq<AdvertisedRoute>,
    n: int,
    poison_reverse: bool,
    infinity_metric: u64,
) -> Seq<(u32, u64)>
    decreases n,
{
    if n <= 0 {
        seq![(router_id, 0u64)]
    } else {
        let head = update_entries_of(
            router_id,
            neighbor_id,
            routes,
            n - 1,
            poison_reverse,
            infinity_metric,
        );
        match advertised(routes[n - 1], neighbor_id, poison_reverse, infinity_metric) {
            Some(e) => head.push(e),
            None => head,
        }
    }
}

/// Poison reverse: every route learned from a neighbour is advertised to
/// that neighbour, and at the infinity metric.
pub proof fn lemma_poison_reverse(
    router_id: u32,
    neighbor_id: u32,
    routes: Seq<AdvertisedRoute>,
    n: int,
    infinity_metric: u64,
    i: int,
)
    requires
        0 <= i < n <= routes.len(),
        learned_from(routes[i], neighbor_id),
    ensures
        advertised(routes[i], neighbor_id, true, infinity_metric) == Some(
            (routes[i].destination, infinity_metric),
        ),
        update_entries_of(router_id, neighbor_id, routes, n, true, infinity_metric).contains(
            (routes[i].destination, infinity_metric),
        ),
    decreases n,
{
    let whole = update_entries_of(router_id, neighbor_id, routes, n, true, infinity_metric);
    let head = update_entries_of(router_id, neighbor_id, routes, n - 1, true, infinity_metric);
    if i == n - 1 {
        assert(whole == head.push((routes[i].destination, infinity_metric)));
        assert(whole[whole.len() - 1] == (routes[i].destination, infinity_metric));
    } else {
        lemma_poison_reverse(router_id, neighbor_id, routes, n - 1, infinity_metric, i);
        let k = choose|k: int|
            0 <= k < head.len() && head[k] == (routes[i].destination, infinity_metric);
        match advertised(routes[n - 1], neighbor_id, true, infinity_metric) {
            Some(e) => {
                assert(whole[k] == head[k]);
            },
            None => {},
        }
    }
}

/// Split horizon: no entry of an update made without poison reverse stands
/// for a route learned from the neighbour it goes to. An update made with
/// poison reverse carries the infinity metric for each such route.
pub proof fn lemma_update_entries(
    router_id: u32,
    neighbor_id: u32,
    routes: Seq<AdvertisedRoute>,
    n: int,
    poison_reverse: bool,
    infinity_metric: u64,
)
    requires
        0 <= n <= routes.len(),
    ensures
        ({
            let whole = update_entries_of(
                router_id,
                neighbor_id,
                routes,
                n,
                poison_reverse,
                infinity_metric,
            );
            &&& whole.len() >= 1
            &&& whole[0] == (router_id, 0u64)
            &&& forall|k: int|
                1 <= k < whole.len() ==> exists|i: int|
                    0 <= i < n && advertised(
                        #[trigger] routes[i],
                        neighbor_id,
                        poison_reverse,
                        infinity_metric,
                    ) == Some(#[trigger] whole[k])
        }),
    decreases n,
{
    if n > 0 {
        lemma_update_entries(router_id, neighbor_id, routes, n - 1, poison_reverse, infinity_metric);
        let whole = update_entries_of(
            router_id,
            neighbor_id,
            routes,
            n,
            poison_reverse,
            infinity_metric,
        );
        let head = update_entries_of(
            router_id,
            neighbor_id,
            routes,
            n - 1,
            poison_reverse,
            infinity_metric,
        );
        assert forall|k: int| 1 <= k < whole.len() implies exists|i: int|
            0 <= i < n && advertised(
                #[trigger] routes[i],
                neighbor_id,
                poison_reverse,
                infinity_metric,
            ) == Some(#[trigger] whole[k]) by {
            if k < head.len() {
                assert(whole[k] == head[k]);
                let i = choose|i: int|
                    0 <= i < n - 1 && advertised(
                        #[trigger] routes[i],
                        neighbor_id,
                        poison_reverse,
                        infinity_metric,
                    ) == Some(head[k]);
                assert(0 <= i < n);
            } else {
                assert(advertised(routes[n - 1], neighbor_id, poison_reverse, infinity_metric)
                    == Some(whole[k]));
            }
        }
    }
}

/// The entries of the update that `router_id` sends to `neighbor_id`.
pub fn update_entries(
    router_id: u32,
    neighbor_id: u32,
    routes: &[AdvertisedRoute],
    poison_reverse: bool,
    infinity_metric: u64,
) -> (entries: Vec<(u32, u64)>)
    ensures
        entries@ == update_entries_of(
            router_id,
            neighbor_id,
            routes@,
            routes@.len() as int,
            poison_reverse,
            infinity_metric,
        ),
{
    let mut entries: Vec<(u32, u64)> = Vec::new();
    entries.push((router_id, 0));
    assert(entries@ =~= seq![(router_id, 0u64)]);
    let mut i: usize = 0;
    while i < routes.len()
        invariant
            i <= routes@.len(),
            entries@ == update_entries_of(
                router_id,
                neighbor_id,
                routes@,
                i as int,
                poison_reverse,
                infinity_metric,
            ),
        decreases routes.len() - i,
    {
        let route = routes[i];
        if let Some(next_hop) = route.next_hop {
            if next_hop == neighbor_id && route.destination != neighbor_id {
                if poison_reverse {
                    entries.push((route.destination, infinity_metric));
                }
            } else {
                entries.push((route.destination, route.capped_metric));
            }
        }
        i += 1;
    }
    entries
}

/// The entry installed for the destination `destination` from the
/// candidate `(metric, next_hop)`: a valid host route with tag zero, flagged
/// as changed unless `previous` says the same.
pub open spec fn is_installed(
    e: RipRoutingTableEntry,
    destination: u32,
    candidate: (u64, u32),
    previous: Option<RipRoutingTableEntry>,
) -> bool {
    &&& e.spec_base().spec_dest() == destination
    &&& e.spec_base().spec_dest_network() == destination
    &&& e.spec_base().spec_prefix_len() == 32
    &&& e.spec_base().spec_gateway() == Some(candidate.1)
    &&& e.spec_base().spec_interface() == None::<u32>
    &&& e.spec_route_tag() == 0
    &&& e.spec_route_metric() == candidate.0
    &&& e.spec_status() == RipRouteStatus::Valid
    &&& e.spec_changed() == match previous {
        Some(p) => !e.spec_same(&p),
        None => true,
    }
}

/// The entry installed for `destination` from `candidate`.
pub fn installed_entry(
    destination: u32,
    candidate: (u64, u32),
    previous: Option<&RipRoutingTableEntry>,
) -> (e: RipRoutingTableEntry)
    ensures
        is_installed(
            e,
            destination,
            candidate,
            match previous {
                Some(p) => Some(*p),
                None => None,
            },
        ),
{
    let mut route = RipRoutingTableEntry::new_host_route_to(destination, candidate.1, None);
    route.set_route_tag(0);
    route.set_route_metric(candidate.0);
    route.set_route_status(RipRouteStatus::Valid);
    let changed = match previous {
        Some(p) => !route.semantically_equal(p),
        None => true,
    };
    route.set_route_changed(changed);
    route
}

/// Whether `next` is the table installed from `candidates` over the table
/// `routes`: one entry for each candidate, under its destination.
pub open spec fn is_installed_table(
    next: Seq<(u32, RipRoutingTableEntry)>,
    candidates: Seq<(u32, (u64, u32))>,
    routes: Map<u32, RipRoutingTableEntry>,
) -> bool {
    next.len() == candidates.len() && forall|i: int|
        0 <= i < next.len() ==> (#[trigger] next[i]).0 == candidates[i].0 && is_installed(
            next[i].1,
            candidates[i].0,
            candidates[i].1,
            if routes.contains_key(candidates[i].0) {
                Some(routes[candidates[i].0])
            } else {
                None
            },
        )
}

/// Installs the candidates: the table becomes the table of the candidates
/// unless that table says the same as the table held, entry by entry. Tells
/// whether the table was replaced.
pub fn install_candidates(routes: &mut IdMap<RipRoutingTableEntry>, candidates: &IdMap<(u64, u32)>) -> (changed:
    bool)
    ensures
        exists|next: Seq<(u32, RipRoutingTableEntry)>|
            #![trigger is_installed_table(next, candidates@, old(routes).spec_map())]
            is_installed_table(next, candidates@, old(routes).spec_map()) && changed == (
            next.len() != old(routes)@.len() || exists|i: int|
                0 <= i < next.len() && (#[trigger] next[i]).1.spec_changed()) && final(routes)@
                == (if changed {
                next
            } else {
                old(routes)@
            }),
{
    let mut next: IdMap<RipRoutingTableEntry> = IdMap::new();
    let n = candidates.len();
    let mut any_changed = false;
    let mut i: usize = 0;
    while i < n
        invariant
            i <= n,
            n == candidates@.len(),
            ids_sorted(candidates@),
            *routes == *old(routes),
            next@.len() == i,
            forall|j: int|
                0 <= j < i ==> (#[trigger] next@[j]).0 == candidates@[j].0 && is_installed(
                    next@[j].1,
                    candidates@[j].0,
                    candidates@[j].1,
                    if routes.spec_map().contains_key(candidates@[j].0) {
                        Some(routes.spec_map()[candidates@[j].0])
                    } else {
                        None
                    },
                ),
            any_changed == exists|j: int| 0 <= j < i && (#[trigger] next@[j]).1.spec_changed(),
        decreases n - i,
    {
        let destination = candidates.key_at(i);
        let candidate = *candidates.value_at(i);
        let entry = installed_entry(destination, candidate, routes.get(destination));
        let ghost before = next@;
        proof {
            assert forall|j: int| 0 <= j < before.len() implies (#[trigger] before[j]).0
                < destination by {
                assert(candidates@[j].0 < candidates@[i as int].0);
            }
        }
        next.append_greatest(destination, entry);
        if entry.is_route_changed() {
            any_changed = true;
        }
        proof {
            assert forall|j: int| 0 <= j < i + 1 implies (#[trigger] next@[j]).0
                == candidates@[j].0 && is_installed(
                next@[j].1,
                candidates@[j].0,
                candidates@[j].1,
                if routes.spec_map().contains_key(candidates@[j].0) {
                    Some(routes.spec_map()[candidates@[j].0])
                } else {
                    None
                },
            ) by {
                if j < i {
                    assert(next@[j] == before[j]);
                }
            }
            assert(next@[i as int].1 == entry);
            if exists|j: int| 0 <= j < i && (#[trigger] before[j]).1.spec_changed() {
                let j = choose|j: int| 0 <= j < i && (#[trigger] before[j]).1.spec_changed();
                assert(next@[j] == before[j]);
                assert(0 <= j < i + 1 && next@[j].1.spec_changed());
            }
            if entry.spec_changed() {
                assert(0 <= i < i + 1 && next@[i as int].1.spec_changed());
            }
            if exists|j: int| 0 <= j < i + 1 && (#[trigger] next@[j]).1.spec_changed() {
                let j = choose|j: int| 0 <= j < i + 1 && (#[trigger] next@[j]).1.spec_changed();
                if j < i {
                    assert(next@[j] == before[j]);
                    assert(before[j].1.spec_changed());
                }
            }
        }
        i += 1;
    }
    // A table of the same size in which no entry is flagged says the same as
    // the table held: every destination of it was held before, so none of
    // the destinations held before is missing.
    let unchanged = !any_changed && next.len() == routes.len();
    if unchanged {
        assert(is_installed_table(next@, candidates@, old(routes).spec_map()));
        return false;
    }
    assert(is_installed_table(next@, candidates@, old(routes).spec_map()));
    *routes = next;
    true
}

/// The offer of a neighbour: `destination` is reached through the
/// neighbour `via` at the cost `metric`, the bit pattern of a
/// double-precision number that the caller has summed and capped.
#[derive(Debug, Clone, Copy)]
pub struct Proposal {
    pub destination: u32,
    pub metric: u64,
    pub via: u32,
}

/// Whether an offer at `metric` through `via` takes the place of the
/// candidate `held`: it costs less, or the same through a smaller next hop.
pub open spec fn proposal_wins(metric: u64, via: u32, held: (u64, u32)) -> bool {
    num_lt(metric, held.0) || (num_eq(metric, held.0) && via < held.1)
}

/// The candidates that the first `n` links give: each link that is up is
/// the candidate for its neighbour, at the cost of the link.
pub open spec fn direct_candidates(links: Seq<(u32, RouterLink)>, n: int) -> Map<u32, (u64, u32)>
    decreases n,
{
    if n <= 0 {
        Map::empty()
    } else {
        let held = direct_candidates(links, n - 1);
        if links[n - 1].1.is_up {
            held.insert(links[n - 1].0, (links[n - 1].1.cost, links[n - 1].0))
        } else {
            held
        }
    }
}

/// The candidates after the first `n` of `proposals` were held against
/// the direct candidates: an offer for a destination without a candidate
/// is its candidate, and one that wins takes the place of the candidate.
pub open spec fn selected_candidates(
    links: Seq<(u32, RouterLink)>,
    proposals: Seq<Proposal>,
    n: int,
) -> Map<u32, (u64, u32)>
    decreases n,
{
    if n <= 0 {
        direct_candidates(links, links.len() as int)
    } else {
        let held = selected_candidates(links, proposals, n - 1);
        let p = proposals[n - 1];
        if held.contains_key(p.destination) && !proposal_wins(p.metric, p.via, held[p.destination]) {
            held
        } else {
            held.insert(p.destination, (p.metric, p.via))
        }
    }
}

/// The candidate routes: for each destination the direct link or the offer
/// that wins, the offers taken in their order.
pub fn select_candidates(links: &IdMap<RouterLink>, proposals: &[Proposal]) -> (candidates: IdMap<(u64, u32)>)
    ensures
        candidates.spec_map() == selected_candidates(links@, proposals@, proposals@.len() as int),
{
    let mut candidates: IdMap<(u64, u32)> = IdMap::new();
    let n = links.len();
    let mut i: usize = 0;
    while i < n
        invariant
            i <= n,
            n == links@.len(),
            candidates.spec_map() == direct_candidates(links@, i as int),
        decreases n - i,
    {
        let link = links.value_at(i);
        if link.is_up {
            candidates.insert(links.key_at(i), (link.cost, links.key_at(i)));
        }
        i += 1;
    }
    let mut k: usize = 0;
    while k < proposals.len()
        invariant
            k <= proposals@.len(),
            candidates.spec_map() == selected_candidates(links@, proposals@, k as int),
        decreases proposals.len() - k,
    {
        let p = proposals[k];
        let wins = match candidates.get(p.destination) {
            Some(held) => bits_lt(p.metric, held.0) || (bits_eq(p.metric, held.0) && p.via < held.1),
            None => true,
        };
        if wins {
            candidates.insert(p.destination, (p.metric, p.via));
        }
        k += 1;
    }
    candidates
}

/// Where every cost is a number, no offer wins against the candidate that
/// was selected for its destination: the candidate is the least by cost
/// and then by next hop.
pub proof fn lemma_selected_is_least(links: Seq<(u32, RouterLink)>, proposals: Seq<Proposal>, n: int, j: int)
    requires
        0 <= j < n <= proposals.len(),
        forall|i: int| 0 <= i < links.len() ==> !is_nan((#[trigger] links[i]).1.cost),
        forall|i: int| 0 <= i < proposals.len() ==> !is_nan((#[trigger] proposals[i]).metric),
    ensures
        selected_candidates(links, proposals, n).contains_key(proposals[j].destination),
        !proposal_wins(
            proposals[j].metric,
            proposals[j].via,
            selected_candidates(links, proposals, n)[proposals[j].destination],
        ),
        !is_nan(selected_candidates(links, proposals, n)[proposals[j].destination].0),
    decreases n,
{
    let d = proposals[j].destination;
    let held = selected_candidates(links, proposals, n - 1);
    let p = proposals[n - 1];
    if j < n - 1 {
        lemma_selected_is_least(links, proposals, n - 1, j);
    } else {
        if held.contains_key(d) {
            lemma_candidates_are_numbers(links, proposals, n - 1, d);
        }
    }
}

/// Where every cost is a number, so is the cost of every candidate.
pub proof fn lemma_candidates_are_numbers(
    links: Seq<(u32, RouterLink)>,
    proposals: Seq<Proposal>,
    n: int,
    d: u32,
)
    requires
        0 <= n <= proposals.len(),
        forall|i: int| 0 <= i < links.len() ==> !is_nan((#[trigger] links[i]).1.cost),
        forall|i: int| 0 <= i < proposals.len() ==> !is_nan((#[trigger] proposals[i]).metric),
        selected_candidates(links, proposals, n).contains_key(d),
    ensures
        !is_nan(selected_candidates(links, proposals, n)[d].0),
    decreases n,
{
    if n <= 0 {
        lemma_directs_are_numbers(links, links.len() as int, d);
    } else {
        let held = selected_candidates(links, proposals, n - 1);
        if held.contains_key(d) {
            lemma_candidates_are_numbers(links, proposals, n - 1, d);
        }
    }
}

/// Where every link cost is a number, so is the cost of every direct
/// candidate.
pub proof fn lemma_directs_are_numbers(links: Seq<(u32, RouterLink)>, n: int, d: u32)
    requires
        0 <= n <= links.len(),
        forall|i: int| 0 <= i < links.len() ==> !is_nan((#[trigger] links[i]).1.cost),
        direct_candidates(links, n).contains_key(d),
    ensures
        !is_nan(direct_candidates(links, n)[d].0),
    decreases n,
{
    if n > 0 {
        if direct_candidates(links, n - 1).contains_key(d) {
            lemma_directs_are_numbers(links, n - 1, d);
        }
    }
}

} // verus!
