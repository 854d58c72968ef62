//! The routing entry of the OSPF-like engine.

use vstd::prelude::*;
use crate::id_map::IdMap;
use crate::model::routing::{Ipv4RoutingTableEntry, Route, RoutingTableEntry};

verus! {

/// The kind of an OSPF route.
#[derive(Debug, Clone, Copy, PartialEq, Eq, Structural)]
pub enum OspfRouteType {
    IntraArea,
}

/// A route of the OSPF-like engine; the metric is the bit pattern of a
/// double-precision number.
#[derive(Debug, Clone, Copy, PartialEq)]
pub struct OspfRoutingTableEntry {
    base: Ipv4RoutingTableEntry,
    route_metric: u64,
    area_id: u32,
    route_type: OspfRouteType,
    changed: bool,
}

impl RoutingTableEntry for OspfRoutingTableEntry {
    open spec fn spec_entry(&self) -> Ipv4RoutingTableEntry {
        self.spec_base()
    }

    fn base(&self) -> (r: &Ipv4RoutingTableEntry) {
        &self.base
    }
}

impl OspfRoutingTableEntry {
    /// The routing entry that this entry embeds.
    pub closed spec fn spec_base(&self) -> Ipv4RoutingTableEntry {
        self.base
    }

    /// Whether an attribute changed since the flag was last set.
    pub closed spec fn spec_changed(&self) -> bool {
        self.changed
    }

    pub closed spec fn spec_route_metric(&self) -> u64 {
        self.route_metric
    }

    pub closed spec fn spec_area_id(&self) -> u32 {
        self.area_id
    }

    pub closed spec fn spec_route_type(&self) -> OspfRouteType {
        self.route_type
    }

    /// A host route to `destination` through `next_hop` with metric zero in
    /// area zero.
    pub fn new_host_route_to(destination: u32, next_hop: u32, interface: Option<u32>) -> (e: Self)
        ensures
            e.spec_base().spec_dest() == destination,
            e.spec_base().spec_dest_network() == destination,
            e.spec_base().spec_gateway() == Some(next_hop),
            e.spec_base().spec_interface() == interface,
            e.spec_base().spec_prefix_len() == 32,
            e.spec_route_metric() == 0,
            e.spec_area_id() == 0,
            e.spec_route_type() == OspfRouteType::IntraArea,
            !e.spec_changed(),
    {
        Self {
            base: Ipv4RoutingTableEntry::create_host_route_to(destination, next_hop, interface),
            route_metric: 0,
            area_id: 0,
            route_type: OspfRouteType::IntraArea,
            changed: false,
        }
    }

    /// Sets the metric, compared by its pattern; the change flag is raised if the value differs.
    pub fn set_route_metric(&mut self, route_metric: u64)
        ensures
            final(self).spec_route_metric() == route_metric,
            final(self).spec_changed() == (old(self).spec_changed() || old(self).spec_route_metric() != route_metric),
            final(self).spec_base() == old(self).spec_base(),
            final(self).spec_area_id() == old(self).spec_area_id(),
            final(self).spec_route_type() == old(self).spec_route_type(),
    {
        if self.route_metric != route_metric {
            self.route_metric = route_metric;
            self.changed = true;
        }
    }

    pub fn get_route_metric(&self) -> (r: u64)
        ensures
            r == self.spec_route_metric(),
    {
        self.route_metric
    }

    /// Sets the area; the change flag is raised if the value differs.
    pub fn set_area_id(&mut self, area_id: u32)
        ensures
            final(self).spec_area_id() == area_id,
            final(self).spec_changed() == (old(self).spec_changed() || old(self).spec_area_id() != area_id),
            final(self).spec_base() == old(self).spec_base(),
            final(self).spec_route_metric() == old(self).spec_route_metric(),
            final(self).spec_route_type() == old(self).spec_route_type(),
    {
        if self.area_id != area_id {
            self.area_id = area_id;
            self.changed = true;
        }
    }

    pub fn get_area_id(&self) -> (r: u32)
        ensures
            r == self.spec_area_id(),
    {
        self.area_id
    }

    /// Sets the kind of the route; the change flag is raised if the value differs.
    pub fn set_route_type(&mut self, route_type: OspfRouteType)
        ensures
            final(self).spec_route_type() == route_type,
            final(self).spec_changed() == (old(self).spec_changed() || old(self).spec_route_type() != route_type),
            final(self).spec_base() == old(self).spec_base(),
            final(self).spec_route_metric() == old(self).spec_route_metric(),
            final(self).spec_area_id() == old(self).spec_area_id(),
    {
        if self.route_type != route_type {
            self.route_type = route_type;
            self.changed = true;
        }
    }

    pub fn get_route_type(&self) -> (r: OspfRouteType)
        ensures
            r == self.spec_route_type(),
    {
        self.route_type
    }

    /// Sets the change flag.
    pub fn set_route_changed(&mut self, changed: bool)
        ensures
            final(self).spec_changed() == changed,
            final(self).spec_base() == old(self).spec_base(),
            final(self).spec_route_metric() == old(self).spec_route_metric(),
            final(self).spec_area_id() == old(self).spec_area_id(),
            final(self).spec_route_type() == old(self).spec_route_type(),
    {
        self.changed = changed;
    }

    /// Whether an attribute changed since the flag was last set.
    pub fn is_route_changed(&self) -> (r: bool)
        ensures
            r == self.spec_changed(),
    {
        self.changed
    }

    /// The destination of the route.
    pub fn destination(&self) -> (r: u32)
        ensures
            r == self.spec_base().spec_dest(),
    {
        self.base.get_dest()
    }

    /// The next hop of the route.
    pub fn next_hop(&self) -> (r: Option<u32>)
        ensures
            r == self.spec_base().spec_gateway(),
    {
        self.base.get_gateway()
    }

    /// The route that the entry stands for under the protocol `protocol`,
    /// where it has a next hop.
    pub fn to_route(&self, protocol: &str) -> (r: Option<Route>)
        ensures
            r is Some == (self.spec_base().spec_gateway() is Some),
            r matches Some(route) ==> route.destination == self.spec_base().spec_dest()
                && Some(route.next_hop) == self.spec_base().spec_gateway() && route.metric
                == self.spec_route_metric() && route.protocol@ == protocol@
                && route.entry.spec_dest() == route.destination && route.entry.spec_dest_network()
                == route.destination && route.entry.spec_prefix_len() == 32
                && route.entry.spec_gateway() == Some(route.next_hop)
                && route.entry.spec_interface() == None::<u32>,
    {
        match self.base.get_gateway() {
            Some(next_hop) => Some(
                Route::new_host(self.base.get_dest(), next_hop, self.route_metric, protocol),
            ),
            None => None,
        }
    }
}

/// The routes that the first `n` of `options` hold, in order.
pub open spec fn route_picks(options: Seq<Option<Route>>, n: int) -> Seq<Route>
    decreases n,
{
    if n <= 0 {
        Seq::empty()
    } else {
        match options[n - 1] {
            Some(r) => route_picks(options, n - 1).push(r),
            None => route_picks(options, n - 1),
        }
    }
}

/// Whether `r` is the route that a shortest-path result gives for
/// `destination`: one exists if the destination is not the source and has a
/// first hop; it is a host route through that hop at the distance found.
pub open spec fn is_spf_route(
    r: Option<Route>,
    src: u32,
    destination: u32,
    metric: u64,
    first_hop: Map<u32, u32>,
    protocol: Seq<char>,
) -> bool {
    match r {
        None => destination == src || !first_hop.contains_key(destination),
        Some(route) => {
            &&& destination != src
            &&& first_hop.contains_key(destination)
            &&& route.destination == destination
            &&& route.next_hop == first_hop[destination]
            &&& route.metric == metric
            &&& route.protocol@ == protocol
            &&& route.entry.spec_dest() == destination
            &&& route.entry.spec_gateway() == Some(route.next_hop)
            &&& route.entry.spec_prefix_len() == 32
        },
    }
}

/// The route that a shortest-path result gives for `destination`.
pub fn spf_route(src: u32, destination: u32, metric: u64, first_hop: &IdMap<u32>, protocol: &str) -> (r: Option<
    Route,
>)
    ensures
        is_spf_route(r, src, destination, metric, first_hop.spec_map(), protocol@),
{
    if destination == src {
        return None;
    }
    match first_hop.get(destination) {
        None => None,
        Some(next_hop) => {
            let mut entry = OspfRoutingTableEntry::new_host_route_to(destination, *next_hop, None);
            entry.set_area_id(0);
            entry.set_route_type(OspfRouteType::IntraArea);
            entry.set_route_metric(metric);
            entry.set_route_changed(false);
            entry.to_route(protocol)
        },
    }
}

/// The routes of a shortest-path result: for each destination of `dist`, in
/// ascending order, the route that [`is_spf_route`] describes, where there
/// is one.
pub fn routes_from_spf(src: u32, dist: &IdMap<u64>, first_hop: &IdMap<u32>, protocol: &str) -> (out: Vec<
    Route,
>)
    ensures
        exists|options: Seq<Option<Route>>|
            #![trigger route_picks(options, dist@.len() as int)]
            options.len() == dist@.len() && out@ == route_picks(options, dist@.len() as int)
                && forall|j: int|
                0 <= j < dist@.len() ==> is_spf_route(
                    #[trigger] options[j],
                    src,
                    dist@[j].0,
                    dist@[j].1,
                    first_hop.spec_map(),
                    protocol@,
                ),
{
    let mut out: Vec<Route> = Vec::new();
    let ghost mut options: Seq<Option<Route>> = Seq::empty();
    let n = dist.len();
    let mut i: usize = 0;
    while i < n
        invariant
            i <= n,
            n == dist@.len(),
            options.len() == i,
            out@ == route_picks(options, i as int),
            forall|j: int|
                0 <= j < i ==> is_spf_route(
                    #[trigger] options[j],
                    src,
                    dist@[j].0,
                    dist@[j].1,
                    first_hop.spec_map(),
                    protocol@,
                ),
        decreases n - i,
    {
        let r = spf_route(src, dist.key_at(i), *dist.value_at(i), first_hop, protocol);
        let ghost before = options;
        proof {
            options = options.push(r);
            lemma_route_picks_prefix(before, options, i as int);
        }
        match r {
            Some(route) => {
                out.push(route);
            },
            None => {},
        }
        i += 1;
    }
    proof {
        assert(out@ == route_picks(options, dist@.len() as int));
    }
    out
}

/// What the first `n` options hold does not depend on the options after them.
pub proof fn lemma_route_picks_prefix(a: Seq<Option<Route>>, b: Seq<Option<Route>>, n: int)
    requires
        0 <= n <= a.len(),
        n <= b.len(),
        forall|j: int| 0 <= j < n ==> a[j] == b[j],
    ensures
        route_picks(a, n) == route_picks(b, n),
    decreases n,
{
    if n > 0 {
        lemma_route_picks_prefix(a, b, n - 1);
    }
}

} // verus!
