//! What every protocol engine is given and what it gives back.

use vstd::prelude::*;
use crate::id_map::IdMap;
use crate::model::messages::ControlMessage;
use crate::model::metric::{lemma_total_key_injective, total_key, total_order};
use crate::model::routing::Route;
use crate::text_map::TextMap;

verus! {

/// A link to a neighbour as the engines see it; the cost is the bit pattern
/// of a double-precision number.
#[derive(Debug, Clone)]
pub struct RouterLink {
    pub neighbor_id: u32,
    pub cost: u64,
    pub address: String,
    pub port: u16,
    pub interface_name: Option<String>,
    pub is_up: bool,
}

/// What is known of the queueing discipline on the link to a neighbour.
#[derive(Debug, Clone)]
pub struct QdiscLinkSnapshot {
    pub interface_name: Option<String>,
    pub kind: Option<String>,
    pub backlog_bytes: Option<u64>,
    pub backlog_packets: Option<u64>,
    pub drops: Option<u64>,
    pub overlimits: Option<u64>,
    pub requeues: Option<u64>,
    pub error: Option<String>,
}

/// What an engine may ask of the queueing disciplines of the host.
#[derive(Debug, Clone)]
pub enum QdiscAction {
    /// Install the configured profile of the interface.
    ApplyDefault { interface_name: String },
    /// Install a profile that the engine spells out.
    ApplyProfile {
        interface_name: String,
        kind: String,
        handle: Option<String>,
        params: TextMap<String>,
    },
    /// Remove the root discipline of the interface.
    Clear { interface_name: String },
}

/// The context of one call into an engine; `now` is the bit pattern of a
/// double-precision number of seconds.
#[derive(Debug, Clone)]
pub struct ProtocolContext {
    pub router_id: u32,
    pub now: u64,
    pub links: IdMap<RouterLink>,
    pub qdisc_by_neighbor: IdMap<QdiscLinkSnapshot>,
}

/// What an engine asks for: messages to send, its routes where they changed,
/// and changes to the queueing disciplines.
#[derive(Debug, Clone)]
pub struct ProtocolOutputs {
    pub outbound: Vec<(u32, ControlMessage)>,
    pub routes: Option<Vec<Route>>,
    pub qdisc_actions: Vec<QdiscAction>,
}

impl Default for ProtocolOutputs {
    fn default() -> (o: ProtocolOutputs)
        ensures
            o.outbound@.len() == 0,
            o.routes is None,
            o.qdisc_actions@.len() == 0,
    {
        ProtocolOutputs { outbound: Vec::new(), routes: None, qdisc_actions: Vec::new() }
    }
}

/// Why no route was found.
#[derive(Debug, Clone, Copy, PartialEq, Eq, Structural)]
pub enum SocketErrno {
    NoRouteToHost,
    InvalidArgument,
}

/// An address of an interface.
#[derive(Debug, Clone, Copy, PartialEq, Eq, Structural)]
pub struct InterfaceAddress {
    pub address: u32,
    pub prefix_len: u8,
}

/// What is done with a packet that came in.
#[derive(Debug, Clone, PartialEq)]
pub enum RouteInputResult {
    ForwardUnicast(Route),
    LocalDeliver,
    Error(SocketErrno),
    NotHandled,
}

/// Whether the route `r` leads to `destination` over the interface `oif`,
/// where one is asked for.
pub open spec fn route_matches(r: Route, destination: u32, oif: Option<u32>) -> bool {
    r.destination == destination && (oif is None || r.entry.spec_interface() == oif)
}

/// Whether the route `a` is better than `b`: the lesser metric in the total
/// order of its pattern, then the lesser next hop.
pub open spec fn better_output(a: Route, b: Route) -> bool {
    if a.metric != b.metric {
        total_key(a.metric) < total_key(b.metric)
    } else {
        a.next_hop < b.next_hop
    }
}

/// The route that the first `n` of `rib` give for `destination`: the first
/// of the matching routes than which no matching route is better.
pub open spec fn output_of(rib: Seq<Route>, n: int, destination: u32, oif: Option<u32>) -> Option<
    Route,
>
    decreases n,
{
    if n <= 0 {
        None
    } else {
        let held = output_of(rib, n - 1, destination, oif);
        let r = rib[n - 1];
        if !route_matches(r, destination, oif) {
            held
        } else {
            match held {
                None => Some(r),
                Some(h) => if better_output(r, h) {
                    Some(r)
                } else {
                    held
                },
            }
        }
    }
}

/// The route selected for a destination is one of the matching routes, and
/// no matching route is better than it.
pub proof fn lemma_output_is_best(rib: Seq<Route>, n: int, destination: u32, oif: Option<u32>)
    requires
        0 <= n <= rib.len(),
    ensures
        output_of(rib, n, destination, oif) is Some <==> exists|j: int|
            0 <= j < n && route_matches(#[trigger] rib[j], destination, oif),
        output_of(rib, n, destination, oif) matches Some(best) ==> {
            &&& exists|j: int| 0 <= j < n && #[trigger] rib[j] == best
            &&& route_matches(best, destination, oif)
            &&& forall|j: int|
                0 <= j < n && route_matches(#[trigger] rib[j], destination, oif) ==> !better_output(
                    rib[j],
                    best,
                )
        },
    decreases n,
{
    if n > 0 {
        lemma_output_is_best(rib, n - 1, destination, oif);
        let held = output_of(rib, n - 1, destination, oif);
        let r = rib[n - 1];
        if route_matches(r, destination, oif) {
            match held {
                None => {
                    assert(rib[n - 1] == r);
                },
                Some(h) => {
                    let w = choose|j: int| 0 <= j < n - 1 && #[trigger] rib[j] == h;
                    assert(0 <= w < n);
                    if better_output(r, h) {
                        assert(rib[n - 1] == r);
                        assert forall|j: int|
                            0 <= j < n && route_matches(
                                #[trigger] rib[j],
                                destination,
                                oif,
                            ) implies !better_output(rib[j], r) by {
                            lemma_total_key_injective(rib[j].metric, r.metric);
                            lemma_total_key_injective(rib[j].metric, h.metric);
                            lemma_total_key_injective(r.metric, h.metric);
                        }
                    } else {
                        lemma_total_key_injective(r.metric, h.metric);
                    }
                },
            }
        } else {
            match held {
                None => {},
                Some(h) => {
                    let w = choose|j: int| 0 <= j < n - 1 && #[trigger] rib[j] == h;
                    assert(0 <= w < n);
                },
            }
        }
    }
}

/// The route to `destination` among `rib`, over the interface `oif` where
/// one is given: the best of the matching routes, the first of them where
/// several are as good. Destination 0 is no destination.
pub fn select_route_output(destination: u32, oif: Option<u32>, rib: &[Route]) -> (r: Result<
    Route,
    SocketErrno,
>)
    ensures
        destination == 0 ==> r == Err::<Route, SocketErrno>(SocketErrno::InvalidArgument),
        destination != 0 ==> match output_of(rib@, rib@.len() as int, destination, oif) {
            Some(best) => r == Ok::<Route, SocketErrno>(best),
            None => r == Err::<Route, SocketErrno>(SocketErrno::NoRouteToHost),
        },
{
    if destination == 0 {
        return Err(SocketErrno::InvalidArgument);
    }
    let mut best: Option<usize> = None;
    let mut i: usize = 0;
    while i < rib.len()
        invariant
            i <= rib@.len(),
            match best {
                Some(b) => b < i && output_of(rib@, i as int, destination, oif) == Some(
                    rib@[b as int],
                ),
                None => output_of(rib@, i as int, destination, oif) is None,
            },
        decreases rib.len() - i,
    {
        let r = &rib[i];
        let matches = r.destination == destination && (match oif {
            None => true,
            Some(want) => match r.entry.get_interface() {
                Some(have) => have == want,
                None => false,
            },
        });
        if matches {
            match best {
                None => {
                    best = Some(i);
                },
                Some(b) => {
                    let held = &rib[b];
                    let better = if r.metric != held.metric {
                        total_order(r.metric, held.metric) == -1
                    } else {
                        r.next_hop < held.next_hop
                    };
                    if better {
                        best = Some(i);
                    }
                },
            }
        }
        i += 1;
    }
    match best {
        Some(b) => Ok(rib[b].duplicate()),
        None => Err(SocketErrno::NoRouteToHost),
    }
}

/// What is done with a packet for `destination` at the router `router_id`:
/// it is delivered locally, forwarded over the best route, or refused.
pub fn select_route_input(router_id: u32, destination: u32, rib: &[Route]) -> (r: RouteInputResult)
    ensures
        destination == router_id ==> r == RouteInputResult::LocalDeliver,
        destination != router_id && destination == 0 ==> r == RouteInputResult::Error(
            SocketErrno::InvalidArgument,
        ),
        destination != router_id && destination != 0 ==> match output_of(
            rib@,
            rib@.len() as int,
            destination,
            None,
        ) {
            Some(best) => r == RouteInputResult::ForwardUnicast(best),
            None => r == RouteInputResult::Error(SocketErrno::NoRouteToHost),
        },
{
    if destination == router_id {
        return RouteInputResult::LocalDeliver;
    }
    match select_route_output(destination, None, rib) {
        Ok(route) => RouteInputResult::ForwardUnicast(route),
        Err(err) => RouteInputResult::Error(err),
    }
}

/// A routing protocol engine.
pub trait Ipv4RoutingProtocol: Send {
    /// The name of the protocol.
    fn name(&self) -> &'static str;

    /// Called once before any other call.
    fn start(&mut self, ctx: &ProtocolContext) -> ProtocolOutputs;

    /// Called on every tick.
    fn on_timer(&mut self, ctx: &ProtocolContext) -> ProtocolOutputs;

    /// Called for every message of a known neighbour.
    fn on_message(&mut self, ctx: &ProtocolContext, message: &ControlMessage) -> ProtocolOutputs;

    /// The route for a packet that this router sends.
    fn route_output(&self, ctx: &ProtocolContext, destination: u32, oif: Option<u32>, rib: &[Route]) -> (r:
        Result<Route, SocketErrno>)
        ensures
            destination == 0 ==> r == Err::<Route, SocketErrno>(SocketErrno::InvalidArgument),
            destination != 0 ==> match output_of(rib@, rib@.len() as int, destination, oif) {
                Some(best) => r == Ok::<Route, SocketErrno>(best),
                None => r == Err::<Route, SocketErrno>(SocketErrno::NoRouteToHost),
            },
    {
        select_route_output(destination, oif, rib)
    }

    /// What is done with a packet that came in.
    fn route_input(
        &self,
        ctx: &ProtocolContext,
        destination: u32,
        ingress_interface: Option<u32>,
        rib: &[Route],
    ) -> (r: RouteInputResult)
        ensures
            destination == ctx.router_id ==> r == RouteInputResult::LocalDeliver,
            destination != ctx.router_id && destination == 0 ==> r == RouteInputResult::Error(
                SocketErrno::InvalidArgument,
            ),
            destination != ctx.router_id && destination != 0 ==> match output_of(
                rib@,
                rib@.len() as int,
                destination,
                None,
            ) {
                Some(best) => r == RouteInputResult::ForwardUnicast(best),
                None => r == RouteInputResult::Error(SocketErrno::NoRouteToHost),
            },
    {
        select_route_input(ctx.router_id, destination, rib)
    }

    /// Called when an interface came up.
    fn notify_interface_up(&mut self, ctx: &ProtocolContext, interface: u32) -> ProtocolOutputs {
        ProtocolOutputs::default()
    }

    /// Called when an interface went down.
    fn notify_interface_down(&mut self, ctx: &ProtocolContext, interface: u32) -> ProtocolOutputs {
        ProtocolOutputs::default()
    }

    /// Called when an address was added to an interface.
    fn notify_add_address(&mut self, ctx: &ProtocolContext, interface: u32, address: InterfaceAddress) -> ProtocolOutputs {
        ProtocolOutputs::default()
    }

    /// Called when an address was removed from an interface.
    fn notify_remove_address(
        &mut self,
        ctx: &ProtocolContext,
        interface: u32,
        address: InterfaceAddress,
    ) -> ProtocolOutputs {
        ProtocolOutputs::default()
    }

    /// Tells the engine the id of its router.
    fn set_ipv4_context(&mut self, router_id: u32) {
    }
}

/// The name under which engines were known before.
pub trait ProtocolEngine: Ipv4RoutingProtocol {

}

impl<T: Ipv4RoutingProtocol + ?Sized> ProtocolEngine for T {

}

} // verus!
