use irp::id_map::IdMap;
use irp::model::control_plane::{
    ExchangeMode, ExchangeScope, MessageDescriptor, StateClass,
};
use irp::model::messages::{ControlMessage, LsaPayload, MessageKind, Payload};
use irp::model::routing::{Route, RoutingTableEntry};
use irp::protocols::base::{
    select_route_input, select_route_output, Ipv4RoutingProtocol, ProtocolContext,
    ProtocolOutputs, RouteInputResult, RouterLink, SocketErrno,
};
use irp::protocols::ddr::{
    order_route_choices, preferred_hops, DdrRoutingTableEntry, DgrRoutingTableEntry, RouteChoice,
};
use irp::protocols::link_state::{local_links, LinkStateControlPlane};
use irp::protocols::ospf::{OspfRouteType, OspfRoutingTableEntry};
use irp::protocols::rip::{
    install_candidates, update_entries, AdvertisedRoute, RipRouteStatus, RipRoutingTableEntry,
};
use irp::protocols::route_compute::strategy::ScalarRouteAlgorithm;
use irp::protocols::selection::{choose_candidate, pick_next_hop, seeded_hash};
use irp::protocols::spath::SPathAlgorithm;
use irp::id_set::IdSet;
use irp::rng::LcgRng;

fn b(x: f64) -> u64 {
    x.to_bits()
}

struct DummyProtocol;

impl Ipv4RoutingProtocol for DummyProtocol {
    fn name(&self) -> &'static str {
        "dummy"
    }

    fn start(&mut self, _ctx: &ProtocolContext) -> ProtocolOutputs {
        ProtocolOutputs::default()
    }

    fn on_timer(&mut self, _ctx: &ProtocolContext) -> ProtocolOutputs {
        ProtocolOutputs::default()
    }

    fn on_message(&mut self, _ctx: &ProtocolContext, _message: &ControlMessage) -> ProtocolOutputs {
        ProtocolOutputs::default()
    }
}

fn test_context() -> ProtocolContext {
    ProtocolContext {
        router_id: 1,
        now: b(0.0),
        links: IdMap::new(),
        qdisc_by_neighbor: IdMap::new(),
    }
}

fn context_with_links(up: &[(u32, f64, bool)]) -> ProtocolContext {
    let mut links = IdMap::new();
    for (id, cost, is_up) in up {
        links.insert(
            *id,
            RouterLink {
                neighbor_id: *id,
                cost: b(*cost),
                address: format!("10.0.0.{id}"),
                port: 5500,
                interface_name: None,
                is_up: *is_up,
            },
        );
    }
    ProtocolContext { router_id: 1, now: b(7.0), links, qdisc_by_neighbor: IdMap::new() }
}

#[test]
fn route_output_uses_best_metric() {
    let protocol = DummyProtocol;
    let ctx = test_context();
    let rib = vec![
        Route::new_host(7, 3, b(5.0), "ospf"),
        Route::new_host(7, 2, b(3.0), "ospf"),
    ];
    let selected = protocol
        .route_output(&ctx, 7, None, &rib)
        .expect("route should exist");
    assert_eq!(selected.next_hop, 2);
    assert_eq!(f64::from_bits(selected.metric), 3.0);
}

#[test]
fn route_input_marks_local_delivery() {
    let protocol = DummyProtocol;
    let ctx = test_context();
    let result = protocol.route_input(&ctx, 1, None, &[]);
    assert_eq!(result, RouteInputResult::LocalDeliver);
}

#[test]
fn route_output_errors_and_ties() {
    let rib = vec![
        Route::new_host(7, 3, b(3.0), "ospf"),
        Route::new_host(7, 2, b(3.0), "rip"),
        Route::new_host(7, 2, b(3.0), "ospf"),
        Route::new_host(8, 2, b(1.0), "ospf"),
    ];
    assert_eq!(select_route_output(0, None, &rib), Err(SocketErrno::InvalidArgument));
    assert_eq!(select_route_output(9, None, &rib), Err(SocketErrno::NoRouteToHost));
    // Host routes carry no interface: asking for one finds none.
    assert_eq!(select_route_output(7, Some(1), &rib), Err(SocketErrno::NoRouteToHost));
    let best = select_route_output(7, None, &rib).expect("route");
    assert_eq!((best.next_hop, best.protocol.as_str()), (2, "rip"));
    assert_eq!(
        select_route_input(1, 9, &rib),
        RouteInputResult::Error(SocketErrno::NoRouteToHost)
    );
    assert!(matches!(select_route_input(1, 8, &rib), RouteInputResult::ForwardUnicast(r) if r.next_hop == 2));
    let mut protocol = DummyProtocol;
    let ctx = test_context();
    assert!(protocol.notify_interface_up(&ctx, 1).outbound.is_empty());
    assert!(protocol.notify_interface_down(&ctx, 1).routes.is_none());
    protocol.set_ipv4_context(3);
}

#[test]
fn ospf_entry_tracks_metric_and_type() {
    let mut entry = OspfRoutingTableEntry::new_host_route_to(4, 2, None);
    entry.set_route_metric(b(3.0));
    entry.set_route_type(OspfRouteType::IntraArea);
    entry.set_area_id(0);
    assert_eq!(entry.destination(), 4);
    assert_eq!(entry.next_hop(), Some(2));
    assert_eq!(f64::from_bits(entry.get_route_metric()), 3.0);
    assert_eq!(entry.get_route_type(), OspfRouteType::IntraArea);
    assert_eq!(entry.get_area_id(), 0);
    assert!(entry.is_route_changed());
    let route = entry.to_route("ospf").expect("route");
    assert_eq!((route.destination, route.next_hop, route.metric), (4, 2, b(3.0)));
}

#[test]
fn rip_routing_table_entry_tracks_change_and_accessors() {
    let mut entry = RipRoutingTableEntry::new_host_route_to(7, 2, Some(1));
    assert_eq!(entry.destination(), 7);
    assert_eq!(entry.next_hop(), Some(2));
    assert_eq!(entry.get_route_tag(), 0);
    assert_eq!(entry.get_route_status(), RipRouteStatus::Invalid);
    assert!(!entry.is_route_changed());

    entry.set_route_metric(b(3.0));
    assert!(entry.is_route_changed());
    assert_eq!(f64::from_bits(entry.get_route_metric()), 3.0);
    entry.set_route_changed(false);

    entry.set_route_tag(9);
    assert_eq!(entry.get_route_tag(), 9);
    assert!(entry.is_route_changed());
    // Only a valid entry stands for a route.
    assert!(entry.to_route("rip").is_none());
    entry.set_route_status(RipRouteStatus::Valid);
    assert_eq!(entry.to_route("rip").map(|r| r.protocol), Some("rip".to_string()));
}

#[test]
fn ddr_routing_table_entry_exposes_dgr_fields() {
    let mut entry = DdrRoutingTableEntry::new_host_route_to(7, 2, Some(1), Some(9), b(3.5));
    entry.set_route_metric(b(12.0));
    entry.set_pressure_level(2);
    assert_eq!(entry.destination(), 7);
    assert_eq!(entry.next_hop(), Some(2));
    assert_eq!(entry.interface(), Some(1));
    assert_eq!(entry.get_next_interface(), Some(9));
    assert_eq!(f64::from_bits(entry.get_distance()), 3.5);
    assert_eq!(f64::from_bits(entry.get_route_metric()), 12.0);
    assert_eq!(entry.get_pressure_level(), 2);

    // DGR entry reuses DDR layout.
    let dgr_entry: DgrRoutingTableEntry = entry.clone();
    assert_eq!(f64::from_bits(dgr_entry.get_distance()), 3.5);
    entry.set_route_changed(false);
    entry.set_distance(b(3.5));
    entry.set_next_interface(Some(9));
    assert!(!entry.is_route_changed());
    entry.set_distance(b(0.0));
    assert!(entry.is_route_changed());
}

// Two equal-cost neighbours 2 and 3 towards 4; the queue towards 2 costs
// 100 ms, the queue towards 3 costs 1 ms; a flow of 1200 bytes over
// 9.6 Mbit/s takes 1 ms to transfer.
fn deadline_choices() -> Vec<RouteChoice> {
    let transfer_ms = 8000.0 * 1200.0 / 9_600_000.0;
    [(2u32, 100.0), (3u32, 1.0)]
        .iter()
        .map(|(hop, queue_ms)| RouteChoice {
            next_hop: *hop,
            distance: b(2.0),
            completion_ms: b(2.0 + queue_ms + transfer_ms),
            pressure_level: 0,
        })
        .collect()
}

#[test]
fn ddr_prefers_meeting_deadline() {
    let choices = deadline_choices();
    let mut rng = LcgRng::new(1);
    let ordered = order_route_choices(&choices, b(80.0), 2, false, &mut rng);
    assert_eq!(ordered.len(), 2);
    assert_eq!(ordered[0].next_hop, 3);
    assert_eq!(ordered[1].next_hop, 2);
    assert_eq!(preferred_hops(&choices, b(80.0), 2).to_vec(), vec![3]);
}

#[test]
fn ddr_filters_fall_back_and_draws_are_reproducible() {
    let c = |next_hop, completion_ms: f64, pressure_level| RouteChoice {
        next_hop,
        distance: b(1.0),
        completion_ms: b(completion_ms),
        pressure_level,
    };
    let choices = [c(5, 9.0, 0), c(2, 5.0, 3), c(3, 7.0, 1), c(4, 50.0, 0), c(2, 4.0, 9)];
    // Within the deadline: 5, 2, 3; under the threshold of these: 5 and 3.
    assert_eq!(preferred_hops(&choices, b(10.0), 1).to_vec(), vec![3, 5]);
    // None within the deadline: all count; none under the threshold: all stay.
    assert_eq!(preferred_hops(&choices, b(1.0), 0).to_vec(), vec![4, 5]);
    assert_eq!(preferred_hops(&choices[1..3], b(1.0), 0).to_vec(), vec![2, 3]);
    let mut rng = LcgRng::new(1);
    let plain = order_route_choices(&choices, b(10.0), 1, false, &mut rng);
    let hops: Vec<u32> = plain.iter().map(|x| x.next_hop).collect();
    assert_eq!(hops, vec![3, 5, 2, 2, 4]);
    assert_eq!(rng.next_u64(), 6364136223846793006);
    let mut rng = LcgRng::new(1);
    let drawn = order_route_choices(&choices, b(10.0), 1, true, &mut rng);
    let first = [3, 5][(6364136223846793006u64 % 2) as usize];
    assert_eq!(drawn[0].next_hop, first);
    let mut again = LcgRng::new(1);
    assert_eq!(order_route_choices(&choices, b(10.0), 1, true, &mut again)[0].next_hop, first);
    // With one preferred hop nothing is drawn.
    let mut rng = LcgRng::new(0);
    let _ = order_route_choices(&deadline_choices(), b(80.0), 2, true, &mut rng);
    assert_eq!(rng.next_u64(), 6364136223846793006);
    let mut rng = LcgRng::new(3);
    assert!(order_route_choices(&[], b(1.0), 0, true, &mut rng).is_empty());
}

#[test]
fn rip_poisons_routes_towards_the_neighbour_they_came_from() {
    let inf = b(16.0);
    let routes = [
        AdvertisedRoute { destination: 2, next_hop: Some(2), capped_metric: b(1.0) },
        AdvertisedRoute { destination: 4, next_hop: Some(2), capped_metric: b(3.0) },
        AdvertisedRoute { destination: 5, next_hop: Some(3), capped_metric: b(2.0) },
        AdvertisedRoute { destination: 6, next_hop: None, capped_metric: b(2.0) },
        AdvertisedRoute { destination: 7, next_hop: Some(2), capped_metric: inf },
    ];
    let to_2 = update_entries(1, 2, &routes, true, inf);
    assert_eq!(to_2, vec![(1, b(0.0)), (2, b(1.0)), (4, inf), (5, b(2.0)), (7, inf)]);
    for (destination, metric) in &to_2 {
        if [4, 7].contains(destination) {
            assert!(f64::from_bits(*metric) >= 16.0);
        }
    }
    // Split horizon leaves them out.
    let to_2 = update_entries(1, 2, &routes, false, inf);
    assert_eq!(to_2, vec![(1, b(0.0)), (2, b(1.0)), (5, b(2.0))]);
    let to_3 = update_entries(1, 3, &routes, true, inf);
    assert_eq!(to_3, vec![(1, b(0.0)), (2, b(1.0)), (4, b(3.0)), (5, inf), (7, inf)]);
    assert_eq!(update_entries(9, 3, &[], true, inf), vec![(9, 0)]);
}

#[test]
fn rip_installs_candidates_and_flags_changes() {
    let mut routes: IdMap<RipRoutingTableEntry> = IdMap::new();
    let mut candidates: IdMap<(u64, u32)> = IdMap::new();
    candidates.insert(2, (b(1.0), 2));
    candidates.insert(4, (b(3.0), 2));
    assert!(install_candidates(&mut routes, &candidates));
    assert_eq!(routes.len(), 2);
    let e = routes.get(4).expect("entry");
    assert_eq!((e.destination(), e.next_hop(), e.get_route_metric()), (4, Some(2), b(3.0)));
    assert_eq!(e.get_route_status(), RipRouteStatus::Valid);
    assert!(e.is_route_changed());
    // The same candidates again: the table is kept, flags and all.
    assert!(!install_candidates(&mut routes, &candidates));
    assert!(routes.get(4).expect("entry").is_route_changed());
    candidates.insert(4, (b(2.0), 3));
    assert!(install_candidates(&mut routes, &candidates));
    assert!(!routes.get(2).expect("entry").is_route_changed());
    assert!(routes.get(4).expect("entry").is_route_changed());
    candidates.remove(2);
    assert!(install_candidates(&mut routes, &candidates));
    assert_eq!(routes.len(), 1);
    assert!(!routes.get(4).expect("entry").is_route_changed());
    assert!(install_candidates(&mut routes, &IdMap::new()));
    assert!(!install_candidates(&mut routes, &IdMap::new()));
}

#[test]
fn link_state_tick_originates_and_ages() {
    let ctx = context_with_links(&[(3, 2.0, true), (2, 1.0, true), (5, 9.0, false)]);
    let links = local_links(&ctx);
    assert_eq!(links.len(), 2);
    assert_eq!((links.get(2), links.get(3), links.get(5)), (Some(&b(1.0)), Some(&b(2.0)), None));
    let mut cp = LinkStateControlPlane::new();
    assert!(cp.local_links_changed(&links));
    let tick = cp.tick(1, ctx.now, local_links(&ctx), true, true, &[]);
    assert!(tick.hello_due && tick.topology_changed);
    let payload = tick.lsa_payload.expect("payload");
    assert_eq!(
        payload,
        LsaPayload { origin_router_id: 1, lsa_seq: 1, links: vec![(2, b(1.0)), (3, b(2.0))] }
    );
    assert!(!cp.local_links_changed(&links));
    assert_eq!(cp.lsdb().get(1).map(|r| (r.seq, r.learned_at)), Some((1, b(7.0))));
    // Nothing due, nothing aged: nothing changes.
    let tick = cp.tick(1, ctx.now, local_links(&ctx), false, false, &[9]);
    assert!(!tick.hello_due && !tick.topology_changed && tick.lsa_payload.is_none());
    assert!(cp.upsert_lsa(4, 3, IdMap::new(), b(8.0)));
    assert!(!cp.upsert_lsa(4, 3, IdMap::new(), b(9.0)));
    let tick = cp.tick(1, ctx.now, local_links(&ctx), false, false, &[4]);
    assert!(tick.topology_changed);
    assert!(cp.lsdb().get(4).is_none());
    let tick = cp.tick(1, ctx.now, IdMap::new(), false, true, &[]);
    assert_eq!(tick.lsa_payload.map(|p| (p.lsa_seq, p.links.len())), Some((2, 0)));
}

#[test]
fn link_state_messages_are_numbered_and_stamped() {
    let ctx = context_with_links(&[(3, 2.0, true), (2, 1.0, true), (5, 9.0, false)]);
    let mut cp = LinkStateControlPlane::new();
    let hello = cp.new_message("ospf", 1, MessageKind::Hello, Payload::Opaque, b(1.0));
    assert_eq!((hello.seq, hello.protocol.as_str(), hello.ts), (1, "ospf", b(1.0)));
    assert_eq!(hello.descriptor, MessageDescriptor::hello());
    cp.set_descriptor_scopes(ExchangeScope::RouterDomain, ExchangeScope::OneHop);
    let hello = cp.new_message("ospf", 1, MessageKind::Hello, Payload::Opaque, b(1.0));
    assert_eq!(hello.descriptor.scope, Some(ExchangeScope::RouterDomain));
    assert_eq!(hello.descriptor.state_class, Some(StateClass::Liveness));
    let rip = cp.new_message("rip", 1, MessageKind::RipUpdate, Payload::Opaque, b(1.0));
    assert_eq!(rip.descriptor, MessageDescriptor::rip_update(None));
    assert_eq!(rip.descriptor, MessageKind::RipUpdate.descriptor(None));
    let payload = LsaPayload { origin_router_id: 9, lsa_seq: 4, links: vec![(1, b(1.0))] };
    // Flooding leaves out the neighbour that the advertisement came from.
    let out = cp.flood_lsa("ospf", MessageKind::OspfLsa, &ctx, &payload, Some(3));
    let got: Vec<(u32, u64)> = out.iter().map(|(to, m)| (*to, m.seq)).collect();
    assert_eq!(got, vec![(2, 4), (5, 5)]);
    assert_eq!(out[0].1.payload, Payload::Lsa(payload.clone()));
    assert_eq!(out[0].1.descriptor.scope, Some(ExchangeScope::OneHop));
    assert_eq!(out[0].1.descriptor.mode, Some(ExchangeMode::Hybrid));
    assert_eq!(out[0].1.kind.as_str(), "ospf_lsa");
    let out = cp.flood_lsa("ddr", MessageKind::DdrLsa, &ctx, &payload, None);
    assert_eq!(out.iter().map(|(to, _)| *to).collect::<Vec<u32>>(), vec![2, 3, 5]);
    assert_eq!(out[2].1.seq, 8);
}

#[test]
fn link_state_graph_holds_every_named_node() {
    let mut cp = LinkStateControlPlane::new();
    let row = |items: &[(u32, f64)]| {
        let mut m = IdMap::new();
        for (k, v) in items {
            m.insert(*k, b(*v));
        }
        m
    };
    assert!(cp.upsert_lsa(2, 1, row(&[(4, 1.0), (3, -2.0), (8, f64::NAN)]), b(0.0)));
    assert!(cp.upsert_lsa(4, 1, row(&[(2, 1.0)]), b(0.0)));
    let g = cp.build_graph(1, true);
    let nodes: Vec<u32> = (0..g.len()).map(|i| g.key_at(i)).collect();
    assert_eq!(nodes, vec![1, 2, 4]);
    assert_eq!(g.get(2).map(|r| r.len()), Some(1));
    assert_eq!(g.get(2).and_then(|r| r.get(4)), Some(&b(1.0)));
    assert_eq!(g.get(1).map(|r| r.len()), Some(0));
    let g = cp.build_graph(1, false);
    let nodes: Vec<u32> = (0..g.len()).map(|i| g.key_at(i)).collect();
    assert_eq!(nodes, vec![1, 2, 3, 4, 8]);
    assert_eq!(g.get(2).map(|r| r.len()), Some(3));
    assert_eq!(g.get(3).map(|r| r.len()), Some(0));
}

#[test]
fn spath_algorithm_names() {
    assert_eq!(SPathAlgorithm::from_str(" ECMP "), SPathAlgorithm::Ecmp);
    assert_eq!(SPathAlgorithm::from_str("bf"), SPathAlgorithm::BellmanFord);
    assert_eq!(SPathAlgorithm::from_str("Yen-KSP"), SPathAlgorithm::YenKShortest);
    assert_eq!(SPathAlgorithm::from_str("anything"), SPathAlgorithm::Dijkstra);
    assert_eq!(SPathAlgorithm::YenKShortest.as_str(), "yen_ksp");
    assert_eq!(SPathAlgorithm::from_str(SPathAlgorithm::BellmanFord.as_str()), SPathAlgorithm::BellmanFord);
    assert!(SPathAlgorithm::Dijkstra.requires_nonnegative_links());
    assert!(!SPathAlgorithm::BellmanFord.requires_nonnegative_links());
    assert!(matches!(
        SPathAlgorithm::YenKShortest.scalar_strategy(0),
        ScalarRouteAlgorithm::YenKShortest { k_paths: 1 }
    ));
    assert!(matches!(SPathAlgorithm::Ecmp.scalar_strategy(3), ScalarRouteAlgorithm::Ecmp));
}

#[test]
fn selection_by_hash_and_by_exploration() {
    let hops = IdSet::from_slice(&[3, 2, 7]);
    let idx = (seeded_hash(1, 4, 99) % 3) as usize;
    assert_eq!(pick_next_hop(1, 4, &hops, 99), Some([2, 3, 7][idx]));
    assert_eq!(pick_next_hop(1, 4, &IdSet::new(), 99), None);
    // The seed is taken as it is: zero is not one.
    assert_ne!(seeded_hash(1, 4, 0), seeded_hash(1, 4, 1));
    let mut rng = LcgRng::new(1);
    // A hop that is held is chosen again, and nothing is drawn.
    assert_eq!(choose_candidate(&[5, 6, 7], Some(6), u64::MAX, &mut rng), 1);
    assert_eq!(choose_candidate(&[5], None, u64::MAX, &mut rng), 0);
    assert_eq!(choose_candidate(&[5], Some(9), u64::MAX, &mut rng), 0);
    // Never exploring: the best, after one draw.
    assert_eq!(choose_candidate(&[5, 6, 7], Some(9), 0, &mut rng), 0);
    let mut expect = LcgRng::new(1);
    let _ = expect.next_u64();
    // Always exploring: a draw decides.
    let s2 = {
        let mut e = expect;
        let _ = e.next_u64();
        e.next_u64()
    };
    assert_eq!(choose_candidate(&[5, 6, 7], None, u64::MAX, &mut rng), ((s2 >> 32) % 3) as usize);
    let mut r = LcgRng::new(5);
    assert_eq!(r.next_index(1), 0);
    assert_eq!(r.next_u64(), 5u64.wrapping_mul(6364136223846793005).wrapping_add(1));
}
