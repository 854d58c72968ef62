//! Routing entries in router-id space.

use vstd::prelude::*;
use crate::model::metric::{bits_eq, lemma_total_key_injective, num_eq, total_key, total_order};
use crate::id_map::{ids_sorted, map_of, IdMap};
use crate::text::{
    lemma_text_less_irreflexive, lemma_text_less_total, lemma_text_less_transitive, str_eq,
    str_order, text_less,
};

verus! {

/// Canonical L3 routing entry. Destinations and gateways are router ids;
/// forwarding-plane prefixes are resolved elsewhere.
#[derive(Debug, Clone, Copy, PartialEq, Eq, Structural)]
pub struct Ipv4RoutingTableEntry {
    destination: u32,
    destination_network: u32,
    destination_prefix_len: u8,
    gateway: Option<u32>,
    interface: Option<u32>,
}

/// What every protocol-specific routing entry exposes through the entry that
/// it embeds.
pub trait RoutingTableEntry {
    /// The entry that is embedded.
    spec fn spec_entry(&self) -> Ipv4RoutingTableEntry;

    /// The entry that is embedded.
    fn base(&self) -> (r: &Ipv4RoutingTableEntry)
        ensures
            *r == self.spec_entry(),
    ;

    /// The destination of the embedded entry.
    fn destination(&self) -> (r: u32)
        ensures
            r == self.spec_entry().spec_dest(),
    {
        self.base().get_dest()
    }

    /// The gateway of the embedded entry.
    fn next_hop(&self) -> (r: Option<u32>)
        ensures
            r == self.spec_entry().spec_gateway(),
    {
        self.base().get_gateway()
    }

    /// The interface of the embedded entry.
    fn interface(&self) -> (r: Option<u32>)
        ensures
            r == self.spec_entry().spec_interface(),
    {
        self.base().get_interface()
    }
}

impl RoutingTableEntry for Ipv4RoutingTableEntry {
    open spec fn spec_entry(&self) -> Ipv4RoutingTableEntry {
        *self
    }

    fn base(&self) -> (r: &Ipv4RoutingTableEntry) {
        self
    }
}

impl Ipv4RoutingTableEntry {
    pub closed spec fn spec_dest(&self) -> u32 {
        self.destination
    }

    pub closed spec fn spec_dest_network(&self) -> u32 {
        self.destination_network
    }

    pub closed spec fn spec_prefix_len(&self) -> u8 {
        self.destination_prefix_len
    }

    pub closed spec fn spec_gateway(&self) -> Option<u32> {
        self.gateway
    }

    pub closed spec fn spec_interface(&self) -> Option<u32> {
        self.interface
    }

    /// Two entries with the same five attributes are the same entry.
    pub proof fn lemma_extensional(a: Ipv4RoutingTableEntry, b: Ipv4RoutingTableEntry)
        requires
            a.spec_dest() == b.spec_dest(),
            a.spec_dest_network() == b.spec_dest_network(),
            a.spec_prefix_len() == b.spec_prefix_len(),
            a.spec_gateway() == b.spec_gateway(),
            a.spec_interface() == b.spec_interface(),
        ensures
            a == b,
    {
    }

    pub fn is_host(&self) -> (r: bool)
        ensures
            r == (self.spec_prefix_len() == 32),
    {
        self.destination_prefix_len == 32
    }

    pub fn is_network(&self) -> (r: bool)
        ensures
            r == (self.spec_prefix_len() != 32),
    {
        !self.is_host()
    }

    pub fn is_default(&self) -> (r: bool)
        ensures
            r == (self.spec_dest_network() == 0 && self.spec_prefix_len() == 0),
    {
        self.destination_network == 0 && self.destination_prefix_len == 0
    }

    pub fn is_gateway(&self) -> (r: bool)
        ensures
            r == self.spec_gateway().is_some(),
    {
        self.gateway.is_some()
    }

    pub fn get_gateway(&self) -> (r: Option<u32>)
        ensures
            r == self.spec_gateway(),
    {
        self.gateway
    }

    pub fn get_dest(&self) -> (r: u32)
        ensures
            r == self.spec_dest(),
    {
        self.destination
    }

    pub fn get_dest_network(&self) -> (r: u32)
        ensures
            r == self.spec_dest_network(),
    {
        self.destination_network
    }

    pub fn get_dest_network_prefix_len(&self) -> (r: u8)
        ensures
            r == self.spec_prefix_len(),
    {
        self.destination_prefix_len
    }

    pub fn get_interface(&self) -> (r: Option<u32>)
        ensures
            r == self.spec_interface(),
    {
        self.interface
    }

    /// A /32 route to `dest` through `next_hop`.
    pub fn create_host_route_to(dest: u32, next_hop: u32, interface: Option<u32>) -> (r: Self)
        ensures
            r.spec_dest() == dest,
            r.spec_dest_network() == dest,
            r.spec_prefix_len() == 32,
            r.spec_gateway() == Some(next_hop),
            r.spec_interface() == interface,
    {
        Self {
            destination: dest,
            destination_network: dest,
            destination_prefix_len: 32,
            gateway: Some(next_hop),
            interface,
        }
    }

    /// A /32 route to a directly connected `dest`.
    pub fn create_host_route_to_direct(dest: u32, interface: Option<u32>) -> (r: Self)
        ensures
            r.spec_dest() == dest,
            r.spec_dest_network() == dest,
            r.spec_prefix_len() == 32,
            r.spec_gateway() == None::<u32>,
            r.spec_interface() == interface,
    {
        Self {
            destination: dest,
            destination_network: dest,
            destination_prefix_len: 32,
            gateway: None,
            interface,
        }
    }

    /// A route to `network`/`prefix_len` through `next_hop`.
    pub fn create_network_route_to(
        network: u32,
        prefix_len: u8,
        next_hop: u32,
        interface: Option<u32>,
    ) -> (r: Self)
        ensures
            r.spec_dest() == network,
            r.spec_dest_network() == network,
            r.spec_prefix_len() == prefix_len,
            r.spec_gateway() == Some(next_hop),
            r.spec_interface() == interface,
    {
        Self {
            destination: network,
            destination_network: network,
            destination_prefix_len: prefix_len,
            gateway: Some(next_hop),
            interface,
        }
    }

    /// A route to a directly connected `network`/`prefix_len`.
    pub fn create_network_route_to_direct(network: u32, prefix_len: u8, interface: Option<u32>) -> (r:
        Self)
        ensures
            r.spec_dest() == network,
            r.spec_dest_network() == network,
            r.spec_prefix_len() == prefix_len,
            r.spec_gateway() == None::<u32>,
            r.spec_interface() == interface,
    {
        Self {
            destination: network,
            destination_network: network,
            destination_prefix_len: prefix_len,
            gateway: None,
            interface,
        }
    }

    /// The default route 0/0 through `next_hop`.
    pub fn create_default_route(next_hop: u32, interface: Option<u32>) -> (r: Self)
        ensures
            r.spec_dest() == 0,
            r.spec_dest_network() == 0,
            r.spec_prefix_len() == 0,
            r.spec_gateway() == Some(next_hop),
            r.spec_interface() == interface,
    {
        Self {
            destination: 0,
            destination_network: 0,
            destination_prefix_len: 0,
            gateway: Some(next_hop),
            interface,
        }
    }
}

} // verus!

verus! {

/// A route offered by a protocol. The metric is carried as the bit pattern
/// of a double-precision number.
#[derive(Debug, Clone, PartialEq)]
pub struct Route {
    pub entry: Ipv4RoutingTableEntry,
    pub destination: u32,
    pub next_hop: u32,
    pub metric: u64,
    pub protocol: String,
}

/// The entry selected for a destination; the metric is a bit pattern as in
/// [`Route`].
#[derive(Debug, Clone, PartialEq)]
pub struct ForwardingEntry {
    pub destination: u32,
    pub next_hop: u32,
    pub metric: u64,
    pub protocol: String,
}

/// Whether `a` and `b` have the same key: destination, next hop, metric
/// pattern and protocol.
pub open spec fn same_route_key(a: Route, b: Route) -> bool {
    &&& a.destination == b.destination
    &&& a.next_hop == b.next_hop
    &&& a.metric == b.metric
    &&& a.protocol@ == b.protocol@
}

/// The order of the routing table: by destination, then next hop, then the
/// metric in the total order of its pattern, then the protocol name.
#[verifier::opaque]
pub open spec fn route_before(a: Route, b: Route) -> bool {
    if a.destination != b.destination {
        a.destination < b.destination
    } else if a.next_hop != b.next_hop {
        a.next_hop < b.next_hop
    } else if a.metric != b.metric {
        total_key(a.metric) < total_key(b.metric)
    } else {
        text_less(a.protocol@, b.protocol@)
    }
}

/// Whether `a` and `b` are equal as routes: the metrics are compared as
/// numbers, so a route whose metric is no number equals no route.
pub open spec fn route_eq(a: Route, b: Route) -> bool {
    &&& a.entry == b.entry
    &&& a.destination == b.destination
    &&& a.next_hop == b.next_hop
    &&& num_eq(a.metric, b.metric)
    &&& a.protocol@ == b.protocol@
}

/// Whether the sequences `a` and `b` are equal route by route.
pub open spec fn routes_eq(a: Seq<Route>, b: Seq<Route>) -> bool {
    a.len() == b.len() && forall|i: int| 0 <= i < a.len() ==> route_eq(#[trigger] a[i], b[i])
}

/// Whether the routes of `s` ascend strictly in the order of the table.
pub open spec fn routes_sorted(s: Seq<Route>) -> bool {
    forall|i: int, j: int| 0 <= i < j < s.len() ==> route_before(#[trigger] s[i], #[trigger] s[j])
}

/// Whether the route at `j` is the first of `input` with its key.
pub open spec fn is_first_of_key(input: Seq<Route>, j: int) -> bool {
    0 <= j < input.len() && forall|k: int|
        0 <= k < j ==> !same_route_key(#[trigger] input[k], input[j])
}

/// Whether `r` is, for its key, the first route of `input`.
pub open spec fn comes_first_in(r: Route, input: Seq<Route>) -> bool {
    exists|j: int| #[trigger] is_first_of_key(input, j) && input[j] == r
}

/// Whether `out` holds a route with the key of `r`.
pub open spec fn has_route_key(out: Seq<Route>, r: Route) -> bool {
    exists|i: int| 0 <= i < out.len() && same_route_key(#[trigger] out[i], r)
}

/// Whether `out` is the table made of `input`: strictly ascending, holding
/// for each key that occurs in `input` the first route with that key, and
/// nothing else.
pub open spec fn is_table_of(out: Seq<Route>, input: Seq<Route>) -> bool {
    &&& routes_sorted(out)
    &&& forall|i: int| 0 <= i < out.len() ==> comes_first_in(#[trigger] out[i], input)
    &&& forall|j: int| 0 <= j < input.len() ==> has_route_key(out, #[trigger] input[j])
}

pub proof fn lemma_route_order(a: Route, b: Route)
    ensures
        same_route_key(a, b) || route_before(a, b) || route_before(b, a),
        !(route_before(a, b) && route_before(b, a)),
        same_route_key(a, b) ==> !route_before(a, b),
{
    reveal(route_before);
    lemma_text_less_total(a.protocol@, b.protocol@);
    lemma_total_key_injective(a.metric, b.metric);
}

pub proof fn lemma_route_before_transitive(a: Route, b: Route, c: Route)
    requires
        route_before(a, b),
        route_before(b, c),
    ensures
        route_before(a, c),
{
    reveal(route_before);
    lemma_total_key_injective(a.metric, b.metric);
    lemma_total_key_injective(b.metric, c.metric);
    lemma_total_key_injective(a.metric, c.metric);
    if a.destination == b.destination && b.destination == c.destination && a.next_hop
        == b.next_hop && b.next_hop == c.next_hop && a.metric == b.metric && b.metric == c.metric {
        lemma_text_less_transitive(a.protocol@, b.protocol@, c.protocol@);
    }
}

/// Three-way comparison of two routes in the order of the table.
pub fn route_order(a: &Route, b: &Route) -> (r: i8)
    ensures
        r == -1 || r == 0 || r == 1,
        (r == -1) == route_before(*a, *b),
        (r == 0) == same_route_key(*a, *b),
        (r == 1) == route_before(*b, *a),
{
    proof {
        reveal(route_before);
        lemma_route_order(*a, *b);
    }
    if a.destination != b.destination {
        if a.destination < b.destination {
            -1
        } else {
            1
        }
    } else if a.next_hop != b.next_hop {
        if a.next_hop < b.next_hop {
            -1
        } else {
            1
        }
    } else if a.metric != b.metric {
        total_order(a.metric, b.metric)
    } else {
        str_order(a.protocol.as_str(), b.protocol.as_str())
    }
}

/// Whether two routes are equal, the metrics compared as numbers.
pub fn routes_equal(a: &Route, b: &Route) -> (r: bool)
    ensures
        r == route_eq(*a, *b),
{
    a.entry == b.entry && a.destination == b.destination && a.next_hop == b.next_hop && bits_eq(
        a.metric,
        b.metric,
    ) && str_eq(a.protocol.as_str(), b.protocol.as_str())
}

/// The place of the key of `r` in the sorted table `v`: where it is, or
/// where it belongs.
fn route_slot(v: &Vec<Route>, r: &Route) -> (slot: (usize, bool))
    requires
        routes_sorted(v@),
    ensures
        slot.0 <= v@.len(),
        forall|j: int| 0 <= j < slot.0 ==> route_before(#[trigger] v@[j], *r),
        slot.1 ==> slot.0 < v@.len() && same_route_key(v@[slot.0 as int], *r),
        !slot.1 ==> forall|j: int| slot.0 <= j < v@.len() ==> route_before(*r, #[trigger] v@[j]),
{
    let mut i: usize = 0;
    while i < v.len()
        invariant
            i <= v@.len(),
            routes_sorted(v@),
            forall|j: int| 0 <= j < i ==> route_before(#[trigger] v@[j], *r),
        decreases v.len() - i,
    {
        let o = route_order(&v[i], r);
        if o == 0 {
            return (i, true);
        }
        if o == 1 {
            proof {
                assert forall|j: int| i <= j < v@.len() implies route_before(*r, #[trigger] v@[j]) by {
                    if j > i {
                        assert(route_before(v@[i as int], v@[j]));
                        lemma_route_before_transitive(*r, v@[i as int], v@[j]);
                    }
                }
            }
            return (i, false);
        }
        i += 1;
    }
    (i, false)
}

/// The first route of its key stays the first when a route is appended.
pub proof fn lemma_first_stays(input: Seq<Route>, r: Route, x: Route)
    requires
        comes_first_in(x, input),
    ensures
        comes_first_in(x, input.push(r)),
{
    let next = input.push(r);
    let j = choose|j: int| #[trigger] is_first_of_key(input, j) && input[j] == x;
    assert(next[j] == input[j]);
    assert forall|k: int| 0 <= k < j implies !same_route_key(#[trigger] next[k], next[j]) by {
        assert(next[k] == input[k]);
    }
    assert(is_first_of_key(next, j));
}

/// A table stays the table of its input when the input grows by a route
/// whose key the table holds.
pub proof fn lemma_table_keeps(before: Seq<Route>, input: Seq<Route>, r: Route, i: int)
    requires
        is_table_of(before, input),
        0 <= i < before.len(),
        same_route_key(before[i], r),
    ensures
        is_table_of(before, input.push(r)),
{
    let next = input.push(r);
    assert forall|a: int| 0 <= a < before.len() implies comes_first_in(
        #[trigger] before[a],
        next,
    ) by {
        lemma_first_stays(input, r, before[a]);
    }
    assert forall|j: int| 0 <= j < next.len() implies has_route_key(before, #[trigger] next[j]) by {
        if j < input.len() {
            assert(next[j] == input[j]);
            assert(has_route_key(before, input[j]));
        } else {
            assert(same_route_key(before[i], next[j]));
        }
    }
}

/// A sorted sequence stays sorted when a route is put between those before
/// it and those after it.
pub proof fn lemma_insert_sorted(before: Seq<Route>, r: Route, i: int)
    requires
        routes_sorted(before),
        0 <= i <= before.len(),
        forall|j: int| 0 <= j < i ==> route_before(#[trigger] before[j], r),
        forall|j: int| i <= j < before.len() ==> route_before(r, #[trigger] before[j]),
    ensures
        routes_sorted(before.insert(i, r)),
{
    let after = before.insert(i, r);
    assert forall|a: int, b: int| 0 <= a < b < after.len() implies route_before(
        #[trigger] after[a],
        #[trigger] after[b],
    ) by {
        if a == i {
            assert(after[b] == before[b - 1]);
        } else if b == i {
            assert(after[a] == before[a]);
        } else {
            let a2 = if a < i {
                a
            } else {
                a - 1
            };
            let b2 = if b < i {
                b
            } else {
                b - 1
            };
            assert(after[a] == before[a2] && after[b] == before[b2]);
            assert(route_before(before[a2], before[b2]));
        }
    }
}

/// A table with a new key put in its place is the table of the input grown
/// by that route.
pub proof fn lemma_table_grows(before: Seq<Route>, input: Seq<Route>, r: Route, i: int)
    requires
        is_table_of(before, input),
        0 <= i <= before.len(),
        forall|j: int| 0 <= j < i ==> route_before(#[trigger] before[j], r),
        forall|j: int| i <= j < before.len() ==> route_before(r, #[trigger] before[j]),
    ensures
        is_table_of(before.insert(i, r), input.push(r)),
{
    let next = input.push(r);
    let after = before.insert(i, r);
    assert(!has_route_key(before, r)) by {
        if has_route_key(before, r) {
            let a = choose|a: int| 0 <= a < before.len() && same_route_key(#[trigger] before[a], r);
            lemma_route_order(before[a], r);
            lemma_route_order(r, before[a]);
            assert(same_route_key(r, before[a]));
            if a < i {
                assert(route_before(before[a], r));
            } else {
                assert(route_before(r, before[a]));
            }
            assert(false);
        }
    }
    lemma_insert_sorted(before, r, i);
    assert forall|a: int| 0 <= a < after.len() implies comes_first_in(#[trigger] after[a], next) by {
        if a == i {
            let j = input.len() as int;
            assert(next[j] == r);
            assert forall|k: int| 0 <= k < j implies !same_route_key(#[trigger] next[k], next[j]) by {
                assert(next[k] == input[k]);
                assert(has_route_key(before, input[k]));
                let b = choose|b: int|
                    0 <= b < before.len() && same_route_key(#[trigger] before[b], input[k]);
                if same_route_key(input[k], r) {
                    assert(same_route_key(before[b], r));
                }
            }
            assert(is_first_of_key(next, j));
        } else {
            let a2 = if a < i {
                a
            } else {
                a - 1
            };
            assert(after[a] == before[a2]);
            lemma_first_stays(input, r, before[a2]);
        }
    }
    assert forall|j: int| 0 <= j < next.len() implies has_route_key(after, #[trigger] next[j]) by {
        if j < input.len() {
            assert(next[j] == input[j]);
            assert(has_route_key(before, input[j]));
            let b = choose|b: int|
                0 <= b < before.len() && same_route_key(#[trigger] before[b], input[j]);
            let a = if b < i {
                b
            } else {
                b + 1
            };
            assert(after[a] == before[b]);
            assert(same_route_key(after[a], next[j]));
        } else {
            assert(same_route_key(after[i], next[j]));
        }
    }
}

/// Puts `r` into the sorted table `v` unless a route with its key is there.
fn insert_first_wins(v: &mut Vec<Route>, r: Route, Ghost(input): Ghost<Seq<Route>>)
    requires
        is_table_of(old(v)@, input),
    ensures
        is_table_of(final(v)@, input.push(r)),
{
    let (i, found) = route_slot(v, &r);
    if found {
        proof {
            lemma_table_keeps(v@, input, r, i as int);
        }
        return ;
    }
    proof {
        lemma_table_grows(v@, input, r, i as int);
    }
    v.insert(i, r);
}

impl Route {
    /// A host route to `destination` through `next_hop`.
    pub fn new_host(destination: u32, next_hop: u32, metric: u64, protocol: &str) -> (r: Self)
        ensures
            r.entry.spec_dest() == destination,
            r.entry.spec_dest_network() == destination,
            r.entry.spec_prefix_len() == 32,
            r.entry.spec_gateway() == Some(next_hop),
            r.entry.spec_interface() == None::<u32>,
            r.destination == destination,
            r.next_hop == next_hop,
            r.metric == metric,
            r.protocol@ == protocol@,
    {
        Self {
            entry: Ipv4RoutingTableEntry::create_host_route_to(destination, next_hop, None),
            destination,
            next_hop,
            metric,
            protocol: protocol.to_owned(),
        }
    }

    /// A copy of the route.
    pub fn duplicate(&self) -> (r: Self)
        ensures
            r == *self,
    {
        Self {
            entry: self.entry,
            destination: self.destination,
            next_hop: self.next_hop,
            metric: self.metric,
            protocol: self.protocol.clone(),
        }
    }
}

/// The routing table: every route that the protocols offer, multi-path
/// allowed, sorted and without duplicates.
#[derive(Debug)]
pub struct RouteTable {
    routes: Vec<Route>,
}

/// The routes of `s` whose protocol is not `protocol`, in order.
pub open spec fn routes_not_of(s: Seq<Route>, protocol: Seq<char>) -> Seq<Route> {
    s.filter(|r: Route| r.protocol@ != protocol)
}

impl View for RouteTable {
    type V = Seq<Route>;

    /// The routes in the order of the table.
    closed spec fn view(&self) -> Seq<Route> {
        self.routes@
    }
}

impl Default for RouteTable {
    fn default() -> (t: RouteTable)
        ensures
            t@ == Seq::<Route>::empty(),
    {
        RouteTable { routes: Vec::new() }
    }
}

impl RouteTable {
    #[verifier::type_invariant]
    spec fn inv(self) -> bool {
        routes_sorted(self.routes@)
    }

    /// Replaces the routes of `protocol` by `routes`: the table made of the
    /// other routes followed by `routes` takes the place of the table, unless
    /// it equals the table route by route, the metrics compared as numbers.
    /// Tells whether the table was replaced.
    pub fn replace_protocol_routes(&mut self, protocol: &str, routes: &[Route]) -> (changed: bool)
        ensures
            exists|next: Seq<Route>|
                #![trigger is_table_of(next, routes_not_of(old(self)@, protocol@) + routes@)]
                is_table_of(next, routes_not_of(old(self)@, protocol@) + routes@) && changed
                    == !routes_eq(next, old(self)@) && final(self)@ == (if changed {
                    next
                } else {
                    old(self)@
                }),
            routes_sorted(final(self)@),
    {
        proof {
            use_type_invariant(&*self);
        }
        let ghost kept = routes_not_of(self@, protocol@);
        let mut next: Vec<Route> = Vec::new();
        let ghost mut input: Seq<Route> = Seq::empty();
        let mut i: usize = 0;
        while i < self.routes.len()
            invariant
                i <= self.routes@.len(),
                *self == *old(self),
                input == routes_not_of(self.routes@.take(i as int), protocol@),
                is_table_of(next@, input),
            decreases self.routes.len() - i,
        {
            proof {
                let p = self.routes@.take(i as int);
                assert(self.routes@.take(i + 1) =~= p.push(self.routes@[i as int]));
                lemma_filter_push(p, self.routes@[i as int], protocol@);
            }
            if !str_eq(self.routes[i].protocol.as_str(), protocol) {
                let r = self.routes[i].duplicate();
                insert_first_wins(&mut next, r, Ghost(input));
                proof {
                    input = input.push(r);
                }
            }
            i += 1;
        }
        assert(self.routes@.take(self.routes@.len() as int) =~= self.routes@);
        assert(input == kept);
        let mut k: usize = 0;
        while k < routes.len()
            invariant
                k <= routes@.len(),
                *self == *old(self),
                input == kept + routes@.take(k as int),
                is_table_of(next@, input),
            decreases routes.len() - k,
        {
            let r = routes[k].duplicate();
            insert_first_wins(&mut next, r, Ghost(input));
            proof {
                input = input.push(r);
                assert(routes@.take(k + 1) =~= routes@.take(k as int).push(routes@[k as int]));
                assert(input =~= kept + routes@.take(k + 1));
            }
            k += 1;
        }
        assert(routes@.take(routes@.len() as int) =~= routes@);
        let same = route_lists_equal(&next, &self.routes);
        if same {
            return false;
        }
        let mut other = RouteTable { routes: next };
        core::mem::swap(self, &mut other);
        true
    }

    /// The routes of the table, in its order.
    pub fn snapshot(&self) -> (r: Vec<Route>)
        ensures
            r@ == self@,
            routes_sorted(r@),
    {
        proof {
            use_type_invariant(self);
        }
        let mut out: Vec<Route> = Vec::new();
        let mut i: usize = 0;
        while i < self.routes.len()
            invariant
                i <= self.routes@.len(),
                out@ == self.routes@.take(i as int),
            decreases self.routes.len() - i,
        {
            out.push(self.routes[i].duplicate());
            assert(self.routes@.take(i + 1) =~= self.routes@.take(i as int).push(
                self.routes@[i as int],
            ));
            i += 1;
        }
        assert(self.routes@.take(self.routes@.len() as int) =~= self.routes@);
        out
    }
}

/// Filtering a sequence with one more route at its end.
pub proof fn lemma_filter_push(p: Seq<Route>, r: Route, protocol: Seq<char>)
    ensures
        routes_not_of(p.push(r), protocol) == (if r.protocol@ != protocol {
            routes_not_of(p, protocol).push(r)
        } else {
            routes_not_of(p, protocol)
        }),
{
    reveal(Seq::filter);
    assert(p.push(r).drop_last() =~= p);
}

/// Whether two lists of routes are equal route by route.
pub fn route_lists_equal(a: &Vec<Route>, b: &Vec<Route>) -> (r: bool)
    ensures
        r == routes_eq(a@, b@),
{
    if a.len() != b.len() {
        return false;
    }
    let mut i: usize = 0;
    while i < a.len()
        invariant
            a@.len() == b@.len(),
            i <= a@.len(),
            forall|j: int| 0 <= j < i ==> route_eq(#[trigger] a@[j], b@[j]),
        decreases a.len() - i,
    {
        if !routes_equal(&a[i], &b[i]) {
            return false;
        }
        i += 1;
    }
    true
}

} // verus!

verus! {

/// Whether routes of `protocol` are kept in the order in which they are
/// offered: for these protocols the first route to a destination stays.
pub open spec fn prefers_first_route(protocol: Seq<char>) -> bool {
    protocol == "ddr"@ || protocol == "dgr"@ || protocol == "octopus"@
}

/// The forwarding entry that the route `r` gives.
pub open spec fn entry_of(r: Route) -> ForwardingEntry {
    ForwardingEntry {
        destination: r.destination,
        next_hop: r.next_hop,
        metric: r.metric,
        protocol: r.protocol,
    }
}

/// The order in which forwarding candidates are preferred: the smaller
/// metric in the total order of its pattern, then the smaller next hop, then
/// the protocol name that sorts first.
pub open spec fn preferred(
    metric: u64,
    next_hop: u32,
    protocol: Seq<char>,
    other_metric: u64,
    other_next_hop: u32,
    other_protocol: Seq<char>,
) -> bool {
    if metric != other_metric {
        total_key(metric) < total_key(other_metric)
    } else if next_hop != other_next_hop {
        next_hop < other_next_hop
    } else {
        text_less(protocol, other_protocol)
    }
}

/// Whether the route `c` is preferred to the entry `cur`.
pub open spec fn candidate_better(c: Route, cur: ForwardingEntry) -> bool {
    preferred(c.metric, c.next_hop, c.protocol@, cur.metric, cur.next_hop, cur.protocol@)
}

/// The entry selected for `d` once the first `n` of `routes` were seen: the
/// first route to `d` is taken; a later one replaces it if the entry held is
/// not of a first-wins protocol and the later one is preferred.
pub open spec fn selected(routes: Seq<Route>, n: int, d: u32) -> Option<ForwardingEntry>
    decreases n,
{
    if n <= 0 {
        None
    } else {
        let cur = selected(routes, n - 1, d);
        let r = routes[n - 1];
        if r.destination != d {
            cur
        } else {
            match cur {
                None => Some(entry_of(r)),
                Some(c) => if !prefers_first_route(c.protocol@) && candidate_better(r, c) {
                    Some(entry_of(r))
                } else {
                    cur
                },
            }
        }
    }
}

/// The forwarding table that the first `n` of `routes` give.
pub open spec fn fib_of(routes: Seq<Route>, n: int) -> Map<u32, ForwardingEntry> {
    Map::new(
        |d: u32| selected(routes, n, d) is Some,
        |d: u32| selected(routes, n, d).unwrap(),
    )
}

/// Whether two entries are equal, the metrics compared as numbers.
pub open spec fn entry_eq(a: ForwardingEntry, b: ForwardingEntry) -> bool {
    &&& a.destination == b.destination
    &&& a.next_hop == b.next_hop
    &&& num_eq(a.metric, b.metric)
    &&& a.protocol@ == b.protocol@
}

/// Whether two tables are equal entry by entry.
pub open spec fn entries_eq(a: Seq<(u32, ForwardingEntry)>, b: Seq<(u32, ForwardingEntry)>) -> bool {
    a.len() == b.len() && forall|i: int|
        0 <= i < a.len() ==> (#[trigger] a[i]).0 == b[i].0 && entry_eq(a[i].1, b[i].1)
}

/// Preference is transitive.
pub proof fn lemma_preferred_transitive(
    m1: u64,
    h1: u32,
    n1: Seq<char>,
    m2: u64,
    h2: u32,
    n2: Seq<char>,
    m3: u64,
    h3: u32,
    n3: Seq<char>,
)
    requires
        preferred(m1, h1, n1, m2, h2, n2),
        preferred(m2, h2, n2, m3, h3, n3),
    ensures
        preferred(m1, h1, n1, m3, h3, n3),
{
    lemma_total_key_injective(m1, m2);
    lemma_total_key_injective(m2, m3);
    lemma_total_key_injective(m1, m3);
    if m1 == m2 && m2 == m3 && h1 == h2 && h2 == h3 {
        lemma_text_less_transitive(n1, n2, n3);
    }
}

/// Selection among protocols that do not keep their first route: where no
/// route to `d` among the first `n` is of a first-wins protocol, the entry
/// selected for `d` is one of these routes, and none of them is preferred to
/// it. In particular its metric is the least in the total order.
pub proof fn lemma_selected_is_best(routes: Seq<Route>, n: int, d: u32)
    requires
        0 <= n <= routes.len(),
        forall|j: int|
            0 <= j < n && (#[trigger] routes[j]).destination == d ==> !prefers_first_route(
                routes[j].protocol@,
            ),
    ensures
        selected(routes, n, d) is Some <==> exists|j: int|
            0 <= j < n && (#[trigger] routes[j]).destination == d,
        selected(routes, n, d) matches Some(e) ==> {
            &&& exists|j: int| 0 <= j < n && e == entry_of(#[trigger] routes[j])
            &&& e.destination == d
            &&& forall|j: int|
                0 <= j < n && (#[trigger] routes[j]).destination == d ==> !candidate_better(
                    routes[j],
                    e,
                ) && total_key(e.metric) <= total_key(routes[j].metric)
        },
    decreases n,
{
    if n > 0 {
        lemma_selected_is_best(routes, n - 1, d);
        let cur = selected(routes, n - 1, d);
        let r = routes[n - 1];
        if r.destination == d {
            match cur {
                None => {
                    lemma_text_less_irreflexive(r.protocol@);
                    assert(entry_of(routes[n - 1]) == entry_of(r));
                },
                Some(c) => {
                    let w = choose|j: int| 0 <= j < n - 1 && c == entry_of(#[trigger] routes[j]);
                    assert(!prefers_first_route(routes[w].protocol@));
                    if candidate_better(r, c) {
                        lemma_text_less_irreflexive(r.protocol@);
                        assert(entry_of(routes[n - 1]) == entry_of(r));
                        assert forall|j: int|
                            0 <= j < n && (#[trigger] routes[j]).destination
                                == d implies !candidate_better(routes[j], entry_of(r))
                            && total_key(r.metric) <= total_key(routes[j].metric) by {
                            if j < n - 1 {
                                if candidate_better(routes[j], entry_of(r)) {
                                    lemma_preferred_transitive(
                                        routes[j].metric,
                                        routes[j].next_hop,
                                        routes[j].protocol@,
                                        r.metric,
                                        r.next_hop,
                                        r.protocol@,
                                        c.metric,
                                        c.next_hop,
                                        c.protocol@,
                                    );
                                }
                                lemma_total_key_injective(r.metric, c.metric);
                            }
                        }
                    } else {
                        lemma_total_key_injective(r.metric, c.metric);
                        assert(routes[w].destination == d);
                    }
                },
            }
        } else {
            match cur {
                None => {},
                Some(c) => {
                    let w = choose|j: int| 0 <= j < n - 1 && c == entry_of(#[trigger] routes[j]);
                    assert(0 <= w < n && c == entry_of(routes[w]));
                },
            }
        }
    }
}

impl ForwardingEntry {
    /// A copy of the entry.
    pub fn duplicate(&self) -> (e: Self)
        ensures
            e == *self,
    {
        Self {
            destination: self.destination,
            next_hop: self.next_hop,
            metric: self.metric,
            protocol: self.protocol.clone(),
        }
    }
}

/// Whether routes of `protocol` are kept in the order in which they are offered.
pub fn protocol_prefers_first_route(protocol: &str) -> (r: bool)
    ensures
        r == prefers_first_route(protocol@),
{
    str_eq(protocol, "ddr") || str_eq(protocol, "dgr") || str_eq(protocol, "octopus")
}

/// Whether the route `candidate` is preferred to the entry `current`.
pub fn forwarding_candidate_better(candidate: &Route, current: &ForwardingEntry) -> (r: bool)
    ensures
        r == candidate_better(*candidate, *current),
{
    if candidate.metric != current.metric {
        total_order(candidate.metric, current.metric) == -1
    } else if candidate.next_hop != current.next_hop {
        candidate.next_hop < current.next_hop
    } else {
        str_order(candidate.protocol.as_str(), current.protocol.as_str()) == -1
    }
}

/// Whether two entries are equal, the metrics compared as numbers.
pub fn entries_equal(a: &ForwardingEntry, b: &ForwardingEntry) -> (r: bool)
    ensures
        r == entry_eq(*a, *b),
{
    a.destination == b.destination && a.next_hop == b.next_hop && bits_eq(a.metric, b.metric)
        && str_eq(a.protocol.as_str(), b.protocol.as_str())
}

/// The forwarding table: one entry per destination.
#[derive(Debug)]
pub struct ForwardingTable {
    entries: IdMap<ForwardingEntry>,
}

impl View for ForwardingTable {
    type V = Seq<(u32, ForwardingEntry)>;

    /// The entries by destination, in ascending order.
    closed spec fn view(&self) -> Seq<(u32, ForwardingEntry)> {
        self.entries@
    }
}

impl Default for ForwardingTable {
    fn default() -> (t: ForwardingTable)
        ensures
            t@ == Seq::<(u32, ForwardingEntry)>::empty(),
    {
        ForwardingTable { entries: IdMap::new() }
    }
}

impl ForwardingTable {
    /// The entry held for each destination.
    pub open spec fn spec_map(&self) -> Map<u32, ForwardingEntry> {
        map_of(self@)
    }

    /// Recomputes the table from `routes`: each destination gets the entry
    /// that [`selected`] picks among its routes. The old table is kept where
    /// the new one equals it entry by entry, the metrics compared as numbers.
    /// Tells whether the table was replaced.
    pub fn sync_from_routes(&mut self, routes: &[Route]) -> (changed: bool)
        ensures
            exists|next: Seq<(u32, ForwardingEntry)>|
                #![trigger map_of(next)]
                ids_sorted(next) && map_of(next) == fib_of(routes@, routes@.len() as int)
                    && changed == !entries_eq(next, old(self)@) && final(self)@ == (if changed {
                    next
                } else {
                    old(self)@
                }),
    {
        let mut next: IdMap<ForwardingEntry> = IdMap::new();
        assert(next.spec_map() =~= fib_of(routes@, 0));
        let mut k: usize = 0;
        while k < routes.len()
            invariant
                k <= routes@.len(),
                *self == *old(self),
                next.spec_map() == fib_of(routes@, k as int),
            decreases routes.len() - k,
        {
            let route = &routes[k];
            let ghost before = next.spec_map();
            let (i, found) = next.find(route.destination);
            if !found {
                next.insert(
                    route.destination,
                    ForwardingEntry {
                        destination: route.destination,
                        next_hop: route.next_hop,
                        metric: route.metric,
                        protocol: route.protocol.clone(),
                    },
                );
            } else {
                let current = next.value_at(i);
                if !protocol_prefers_first_route(current.protocol.as_str())
                    && forwarding_candidate_better(route, current) {
                    next.set_value_at(
                        i,
                        ForwardingEntry {
                            destination: route.destination,
                            next_hop: route.next_hop,
                            metric: route.metric,
                            protocol: route.protocol.clone(),
                        },
                    );
                }
            }
            proof {
                let want = fib_of(routes@, k + 1);
                assert forall|d: u32| next.spec_map().contains_key(d) == want.contains_key(d) by {
                    assert(before.contains_key(d) == (selected(routes@, k as int, d) is Some));
                }
                assert forall|d: u32| next.spec_map().contains_key(d) implies next.spec_map()[d]
                    == want[d] by {
                    assert(before.contains_key(d) == (selected(routes@, k as int, d) is Some));
                    if before.contains_key(d) {
                        assert(before[d] == selected(routes@, k as int, d).unwrap());
                    }
                }
                assert(next.spec_map() =~= want);
            }
            k += 1;
        }
        let n = next.len();
        let same = if n != self.entries.len() {
            false
        } else {
            let mut all = true;
            let mut i: usize = 0;
            while i < n
                invariant
                    i <= n,
                    n == next@.len(),
                    n == self.entries@.len(),
                    all == (forall|j: int|
                        0 <= j < i ==> (#[trigger] next@[j]).0 == self.entries@[j].0 && entry_eq(
                            next@[j].1,
                            self.entries@[j].1,
                        )),
                decreases n - i,
            {
                if next.key_at(i) != self.entries.key_at(i) || !entries_equal(
                    next.value_at(i),
                    self.entries.value_at(i),
                ) {
                    all = false;
                }
                i += 1;
            }
            all
        };
        if same {
            return false;
        }
        let mut other = ForwardingTable { entries: next };
        core::mem::swap(self, &mut other);
        true
    }

    /// The entries of the table, in ascending order of their destinations.
    pub fn snapshot(&self) -> (r: Vec<ForwardingEntry>)
        ensures
            r@.len() == self@.len(),
            forall|i: int| 0 <= i < r@.len() ==> #[trigger] r@[i] == self@[i].1,
    {
        let mut out: Vec<ForwardingEntry> = Vec::new();
        let n = self.entries.len();
        let mut i: usize = 0;
        while i < n
            invariant
                i <= n,
                n == self.entries@.len(),
                out@.len() == i,
                forall|j: int| 0 <= j < i ==> #[trigger] out@[j] == self.entries@[j].1,
            decreases n - i,
        {
            out.push(self.entries.value_at(i).duplicate());
            i += 1;
        }
        out
    }
}

} // verus!
