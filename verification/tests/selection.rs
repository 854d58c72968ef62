//! What the engines build from the results of the searches: candidates and
//! their ranking, routes by hash and by choice, and the messages of the
//! link-state control plane.

use irp::id_map::IdMap;
use irp::id_set::IdSet;
use irp::model::control_plane::{ExchangeScope, MessageDescriptor};
use irp::model::messages::{HelloPayload, LsaPayload, MessageKind, Payload};
use irp::protocols::base::{ProtocolContext, RouterLink};
use irp::protocols::ddr::{clamped_queue_level, routes_of_choices, RouteChoice};
use irp::protocols::link_state::LinkStateControlPlane;
use irp::protocols::route_compute::strategy::{collect_multimetric_nodes, collect_scalar_nodes};
use irp::protocols::rip::{select_candidates, Proposal};
use irp::protocols::route_compute::lfa::order_backups;
use irp::protocols::route_compute::pareto::{insert_non_dominated, next_label, sort_objectives};
use irp::protocols::route_compute::spf::{inherited_first_hop, takes_place, MetricVerdict};
use irp::protocols::route_compute::types::{
    LfaCandidate, LinkMetrics, MultiObjectiveCost, ParetoPath, PathCandidate,
};
use irp::protocols::selection::{routes_by_hash, seeded_hash};
use irp::protocols::topk::{
    per_hop_candidates, rank_candidates, select_candidate, NextHopCandidate,
};
use irp::rng::LcgRng;

fn bits(x: f64) -> u64 {
    x.to_bits()
}

fn path(nodes: &[u32], cost: f64) -> PathCandidate {
    PathCandidate { nodes: nodes.to_vec(), cost: bits(cost) }
}

fn seen(candidates: &[NextHopCandidate]) -> Vec<(u32, f64, usize)> {
    candidates.iter().map(|c| (c.next_hop, f64::from_bits(c.metric), c.hop_count)).collect()
}

#[test]
fn candidates_are_the_best_path_of_each_first_hop() {
    let paths = [
        path(&[1, 3, 9], 4.0),
        path(&[1, 2, 5, 9], 3.0),
        path(&[1, 2, 9], 3.0),
        path(&[1, 2, 6, 7, 9], 3.0),
        path(&[1, 3, 8, 9], 2.5),
        path(&[1], 0.0),
        path(&[1, 4, 9], f64::NAN),
        path(&[1, 4, 7, 9], 9.0),
    ];
    let best = per_hop_candidates(&paths);
    let listed: Vec<NextHopCandidate> = (0..best.len()).map(|i| *best.value_at(i)).collect();
    // Through 2 the same cost with fewer hops wins; through 3 the lesser
    // cost; through 4 nothing improves on a cost that is no number.
    assert_eq!(seen(&listed)[..2], [(2, 3.0, 2), (3, 2.5, 3)]);
    assert_eq!(listed[2].next_hop, 4);
    assert!(f64::from_bits(listed[2].metric).is_nan());
    assert!(per_hop_candidates(&[]).is_empty());
}

#[test]
fn candidates_are_ranked_by_cost_then_next_hop() {
    let paths = [
        path(&[1, 5, 9], 2.0),
        path(&[1, 2, 9], 3.0),
        path(&[1, 4, 9], 2.0),
        path(&[1, 3, 9], 1.0),
        path(&[1, 7, 9], 0.0),
        path(&[1, 6, 9], -0.0),
    ];
    let ranked = rank_candidates(&per_hop_candidates(&paths));
    let hops: Vec<u32> = ranked.iter().map(|c| c.next_hop).collect();
    assert_eq!(hops, vec![6, 7, 3, 4, 5, 2]);
    // The order is that of a stable sort by the comparison of the numbers.
    let mut expected: Vec<(u32, f64)> = vec![(2, 3.0), (3, 1.0), (4, 2.0), (5, 2.0), (6, -0.0), (7, 0.0)];
    expected.sort_by(|a, z| a.1.partial_cmp(&z.1).expect("numbers").then(a.0.cmp(&z.0)));
    assert_eq!(hops, expected.iter().map(|e| e.0).collect::<Vec<u32>>());
}

#[test]
fn selection_holds_explores_or_takes_the_best() {
    let paths = [path(&[1, 2, 9], 3.0), path(&[1, 3, 9], 1.0), path(&[1, 4, 9], 2.0)];
    // Held: the held next hop stays, and nothing is drawn.
    let mut rng = LcgRng::new(7);
    let (chosen, candidates) = select_candidate(&paths, Some(4), 0, &mut rng);
    assert_eq!(seen(&candidates), vec![(3, 1.0, 2), (4, 2.0, 2), (2, 3.0, 2)]);
    assert_eq!(chosen.map(|c| c.next_hop), Some(4));
    assert_eq!(rng.next_u64(), LcgRng::new(7).next_u64());
    // A held next hop that is no candidate any more does not count.
    let mut rng = LcgRng::new(7);
    let (chosen, _) = select_candidate(&paths, Some(8), 0, &mut rng);
    assert_eq!(chosen.map(|c| c.next_hop), Some(3));
    // Never exploring: the best, after one draw.
    let mut rng = LcgRng::new(7);
    let (chosen, _) = select_candidate(&paths, None, 0, &mut rng);
    assert_eq!(chosen.map(|c| (c.next_hop, f64::from_bits(c.metric))), Some((3, 1.0)));
    let mut once = LcgRng::new(7);
    once.next_u64();
    assert_eq!(rng.next_u64(), once.next_u64());
    // Always exploring: the candidate at the upper half of the second draw.
    let mut rng = LcgRng::new(7);
    let (chosen, candidates) = select_candidate(&paths, None, 1 << 53, &mut rng);
    let mut twice = LcgRng::new(7);
    twice.next_u64();
    let index = ((twice.next_u64() >> 32) % 3) as usize;
    assert_eq!(chosen, Some(candidates[index]));
    // One candidate: no draw. No candidate: nothing.
    let mut rng = LcgRng::new(7);
    let (chosen, _) = select_candidate(&paths[..1], None, 1 << 53, &mut rng);
    assert_eq!(chosen.map(|c| c.next_hop), Some(2));
    let (nothing, none) = select_candidate(&[path(&[1], 0.0)], None, 1 << 53, &mut rng);
    assert!(nothing.is_none() && none.is_empty());
    assert_eq!(rng.next_u64(), LcgRng::new(7).next_u64());
}

fn set_of(ids: &[u32]) -> IdSet {
    IdSet::from_slice(ids)
}

#[test]
fn equal_cost_routes_go_through_the_hop_that_the_hash_points_at() {
    let mut dist = IdMap::new();
    let mut first_hops = IdMap::new();
    for (destination, metric, hops) in [
        (1u32, 0.0, &[][..]),
        (2, 1.0, &[2][..]),
        (4, 2.0, &[3, 2][..]),
        (5, 3.0, &[][..]),
        (6, 4.0, &[2, 3, 7][..]),
    ] {
        dist.insert(destination, bits(metric));
        first_hops.insert(destination, set_of(hops));
    }
    dist.insert(8, bits(5.0));
    let routes = routes_by_hash(1, &dist, &first_hops, 2026, "ecmp");
    let pick = |destination: u32, hops: &[u32]| {
        hops[(seeded_hash(1, destination, 2026) % hops.len() as u64) as usize]
    };
    let got: Vec<(u32, u32, f64)> =
        routes.iter().map(|r| (r.destination, r.next_hop, f64::from_bits(r.metric))).collect();
    // 1 is the source, 5 has no first hop, 8 has no entry for its hops.
    assert_eq!(got, vec![(2, 2, 1.0), (4, pick(4, &[2, 3]), 2.0), (6, pick(6, &[2, 3, 7]), 4.0)]);
    assert!(routes.iter().all(|r| r.protocol == "ecmp" && r.entry.is_host()));
}

#[test]
fn choices_become_host_routes_at_their_completion_time() {
    let choices = [
        RouteChoice { next_hop: 3, distance: bits(3.0), completion_ms: bits(5.0), pressure_level: 1 },
        RouteChoice { next_hop: 2, distance: bits(2.0), completion_ms: bits(103.0), pressure_level: 0 },
    ];
    let routes = routes_of_choices(4, &choices, "dgr");
    let got: Vec<(u32, u32, f64, &str)> = routes
        .iter()
        .map(|r| (r.destination, r.next_hop, f64::from_bits(r.metric), r.protocol.as_str()))
        .collect();
    assert_eq!(got, vec![(4, 3, 5.0, "dgr"), (4, 2, 103.0, "dgr")]);
    assert_eq!(routes[0].entry.get_gateway(), Some(3));
    assert!(routes_of_choices(4, &[], "dgr").is_empty());
}

#[test]
fn listed_links_are_taken_in_with_or_without_validation() {
    let pairs =
        [(2, bits(1.0)), (3, bits(-1.0)), (4, bits(f64::INFINITY)), (5, bits(f64::NAN)), (2, bits(0.0)), (6, bits(-0.0))];
    let strict = LinkStateControlPlane::parse_links(&pairs, true);
    let kept: Vec<(u32, f64)> =
        (0..strict.len()).map(|i| (strict.key_at(i), f64::from_bits(*strict.value_at(i)))).collect();
    assert_eq!(kept, vec![(2, 0.0), (6, -0.0)]);
    let lax = LinkStateControlPlane::parse_links(&pairs, false);
    let ids: Vec<u32> = (0..lax.len()).map(|i| lax.key_at(i)).collect();
    assert_eq!(ids, vec![2, 3, 4, 5, 6]);
    assert_eq!(lax.get(3).copied(), Some(bits(-1.0)));

    let mut plane = LinkStateControlPlane::new();
    let lsa = LsaPayload { origin_router_id: 9, lsa_seq: 4, links: pairs.to_vec() };
    assert!(plane.learn_lsa(&lsa, true, bits(1.5)));
    assert!(!plane.learn_lsa(&lsa, true, bits(2.5)));
    let older = LsaPayload { origin_router_id: 9, lsa_seq: 3, links: Vec::new() };
    assert!(!plane.learn_lsa(&older, true, bits(2.5)));
    let record = plane.lsdb().get(9).expect("the record of 9");
    assert_eq!((record.seq, f64::from_bits(record.learned_at), record.links.len()), (4, 1.5, 2));
    let newer = LsaPayload { origin_router_id: 9, lsa_seq: 5, links: vec![(3, bits(-1.0))] };
    assert!(plane.learn_lsa(&newer, false, bits(3.0)));
    assert_eq!(plane.lsdb().get(9).and_then(|r| r.links.get(3)).copied(), Some(bits(-1.0)));
}

#[test]
fn hellos_go_to_every_neighbour_with_its_own_payload() {
    let mut links = IdMap::new();
    for (id, is_up) in [(7u32, true), (3, false), (5, true)] {
        links.insert(
            id,
            RouterLink {
                neighbor_id: id,
                cost: bits(1.0),
                address: format!("10.0.0.{id}"),
                port: 5500,
                interface_name: None,
                is_up,
            },
        );
    }
    let ctx = ProtocolContext { router_id: 1, now: bits(2.0), links, qdisc_by_neighbor: IdMap::new() };
    let mut plane = LinkStateControlPlane::new();
    plane.set_descriptor_scopes(ExchangeScope::RouterDomain, ExchangeScope::FloodDomain);
    let hello = |neighbor_id: u32| HelloPayload {
        router_id: 1,
        queue_level: Some(u64::from(neighbor_id) * 2),
        interface_utilization: None,
        delay_ms: None,
        loss_rate: None,
    };
    let out = plane.send_hello("ddr", &ctx, hello);
    assert_eq!(plane.msg_seq(), 3);
    let got: Vec<(u32, u64, Option<u64>)> = out
        .iter()
        .map(|(to, m)| match &m.payload {
            Payload::Hello(p) => (*to, m.seq, p.queue_level),
            _ => (*to, m.seq, None),
        })
        .collect();
    // Down or up, every configured neighbour is greeted.
    assert_eq!(got, vec![(3, 1, Some(6)), (5, 2, Some(10)), (7, 3, Some(14))]);
    let mut expected = MessageDescriptor::hello();
    expected.scope = Some(ExchangeScope::RouterDomain);
    for (_, m) in &out {
        assert_eq!(m.kind, MessageKind::Hello);
        assert_eq!((m.protocol.as_str(), m.src_router_id, m.ts), ("ddr", 1, bits(2.0)));
        assert_eq!(m.descriptor, expected);
    }
}

#[test]
fn nodes_are_collected_from_rows_and_neighbours() {
    let metrics = LinkMetrics {
        weight: bits(1.0),
        bandwidth: bits(10.0),
        delay: bits(1.0),
        loss: bits(0.0),
        utilization: bits(0.1),
    };
    let mut multi = IdMap::new();
    let mut scalar = IdMap::new();
    for (u, vs) in [(4u32, &[9u32, 1][..]), (2, &[][..]), (7, &[4][..])] {
        let mut row = IdMap::new();
        let mut plain = IdMap::new();
        for v in vs {
            row.insert(*v, metrics);
            plain.insert(*v, bits(1.0));
        }
        multi.insert(u, row);
        scalar.insert(u, plain);
    }
    assert_eq!(collect_multimetric_nodes(&multi).to_vec(), vec![1, 2, 4, 7, 9]);
    assert_eq!(collect_scalar_nodes(&scalar).to_vec(), vec![1, 2, 4, 7, 9]);
    assert!(collect_multimetric_nodes(&IdMap::new()).is_empty());
}

#[test]
fn reported_queue_levels_stop_at_the_top_level() {
    assert_eq!(clamped_queue_level(0, 4), 0);
    assert_eq!(clamped_queue_level(3, 4), 3);
    assert_eq!(clamped_queue_level(4, 4), 3);
    assert_eq!(clamped_queue_level(u64::MAX, 4), 3);
    assert_eq!(clamped_queue_level(7, 1), 0);
    assert_eq!(clamped_queue_level(7, 0), 0);
}

#[test]
fn alternates_are_offered_by_cost_then_next_hop() {
    let c = |next_hop: u32, total_cost: f64| LfaCandidate { next_hop, total_cost: bits(total_cost) };
    let found = [c(9, 2.0), c(3, 5.0), c(4, 2.0), c(8, 0.0), c(7, -0.0), c(2, f64::INFINITY), c(4, 2.0)];
    let offered: Vec<(u32, f64)> =
        order_backups(&found).iter().map(|x| (x.next_hop, f64::from_bits(x.total_cost))).collect();
    let mut expected: Vec<(u32, f64)> =
        found.iter().map(|x| (x.next_hop, f64::from_bits(x.total_cost))).collect();
    expected.sort_by(|a, z| a.1.total_cmp(&z.1).then(a.0.cmp(&z.0)));
    assert_eq!(offered.len(), 7);
    assert_eq!(format!("{offered:?}"), format!("{expected:?}"));
    assert_eq!(offered[0], (7, -0.0));
    assert!(offered[0].1.is_sign_negative() && !offered[1].1.is_sign_negative());
    assert!(order_backups(&[]).is_empty());
}

#[test]
fn ties_are_broken_by_first_hop_and_then_parent() {
    let (better, equal, worse) = (MetricVerdict::Better, MetricVerdict::Equal, MetricVerdict::Worse);
    assert!(takes_place(better, 9, 9, Some(1), Some(1)));
    assert!(!takes_place(worse, 1, 1, Some(9), Some(9)));
    assert!(takes_place(equal, 2, 9, Some(3), Some(1)));
    assert!(!takes_place(equal, 3, 1, Some(2), Some(9)));
    assert!(takes_place(equal, 2, 4, Some(2), Some(5)));
    assert!(!takes_place(equal, 2, 5, Some(2), Some(5)));
    assert!(!takes_place(equal, 2, 6, Some(2), Some(5)));
    // Nothing held: any hop but the greatest wins the tie.
    assert!(takes_place(equal, 7, 7, None, None));
    assert!(takes_place(equal, u32::MAX, 7, None, None));
    assert!(!takes_place(equal, u32::MAX, u32::MAX, None, None));

    assert_eq!(inherited_first_hop(1, 1, 4, None), Some(4));
    assert_eq!(inherited_first_hop(1, 1, 4, Some(2)), Some(4));
    assert_eq!(inherited_first_hop(1, 3, 4, Some(2)), Some(2));
    assert_eq!(inherited_first_hop(1, 3, 4, None), None);
}

#[test]
fn distance_vector_candidates_are_the_least_by_metric_then_next_hop() {
    let mut links = IdMap::new();
    for (id, cost, is_up) in [(2u32, 1.0, true), (3, 1.0, true), (4, 1.0, false), (5, -0.0, true)] {
        links.insert(
            id,
            RouterLink {
                neighbor_id: id,
                cost: bits(cost),
                address: String::new(),
                port: 5500,
                interface_name: None,
                is_up,
            },
        );
    }
    let offer = |destination: u32, metric: f64, via: u32| Proposal { destination, metric: bits(metric), via };
    let proposals = [
        offer(7, 3.0, 3),
        offer(7, 3.0, 2),
        offer(7, 4.0, 2),
        offer(3, 0.5, 2),
        offer(2, 1.0, 3),
        offer(4, 9.0, 3),
        offer(5, 0.0, 2),
        offer(8, f64::NAN, 2),
        offer(8, 5.0, 3),
    ];
    let candidates = select_candidates(&links, &proposals);
    let got: Vec<(u32, f64, u32)> = (0..candidates.len())
        .map(|i| (candidates.key_at(i), f64::from_bits(candidates.value_at(i).0), candidates.value_at(i).1))
        .collect();
    // 7: the same metric through the smaller next hop; 3: an offer beats
    // the direct link; 2: the direct link stays; 4: its link is down, so
    // the offer stands; 5: zero is zero, and 2 is the smaller next hop.
    assert_eq!(got[..5], [(2, 1.0, 2), (3, 0.5, 2), (4, 9.0, 3), (5, 0.0, 2), (7, 3.0, 2)]);
    // Against a metric that is no number nothing wins.
    assert_eq!((got[5].0, got[5].2), (8, 2));
    assert!(got[5].1.is_nan());
    assert!(select_candidates(&IdMap::new(), &[]).is_empty());
}

fn cost(delay: f64, loss: f64, utilization: f64) -> MultiObjectiveCost {
    MultiObjectiveCost { delay: bits(delay), loss: bits(loss), utilization: bits(utilization) }
}

fn numbers(costs: &[MultiObjectiveCost]) -> Vec<(f64, f64, f64)> {
    costs
        .iter()
        .map(|c| (f64::from_bits(c.delay), f64::from_bits(c.loss), f64::from_bits(c.utilization)))
        .collect()
}

#[test]
fn known_costs_of_a_node_stay_undominated_and_in_order() {
    let mut known = Vec::new();
    insert_non_dominated(&mut known, cost(3.0, 0.1, 0.3));
    insert_non_dominated(&mut known, cost(2.0, 0.3, 0.4));
    insert_non_dominated(&mut known, cost(2.0, 0.2, 0.9));
    assert_eq!(numbers(&known), vec![(2.0, 0.2, 0.9), (2.0, 0.3, 0.4), (3.0, 0.1, 0.3)]);
    // Dominated by the first, and equal to the last: nothing changes.
    insert_non_dominated(&mut known, cost(2.5, 0.2, 0.9));
    insert_non_dominated(&mut known, cost(3.0, 0.1, 0.3));
    assert_eq!(known.len(), 3);
    // Dominates the two of delay 2: they leave.
    insert_non_dominated(&mut known, cost(1.0, 0.2, 0.4));
    assert_eq!(numbers(&known), vec![(1.0, 0.2, 0.4), (3.0, 0.1, 0.3)]);

    let sorted = sort_objectives(&[cost(1.0, 2.0, 0.0), cost(1.0, -0.0, 9.0), cost(0.5, 9.0, 9.0), cost(1.0, 0.0, 1.0)]);
    assert_eq!(
        format!("{:?}", numbers(&sorted)),
        format!("{:?}", vec![(0.5, 9.0, 9.0), (1.0, -0.0, 9.0), (1.0, 0.0, 1.0), (1.0, 2.0, 0.0)])
    );
}

#[test]
fn the_label_expanded_next_is_the_first_least_one() {
    let label = |nodes: &[u32], c: MultiObjectiveCost| ParetoPath { nodes: nodes.to_vec(), objective: c };
    let labels = [
        label(&[1, 3], cost(2.0, 0.0, 0.0)),
        label(&[1, 2, 4], cost(1.0, 0.5, 0.0)),
        label(&[1, 2, 3], cost(1.0, 0.5, 0.0)),
        label(&[1, 5], cost(1.0, 0.6, 0.0)),
        label(&[1, 2, 3], cost(1.0, 0.5, 0.0)),
    ];
    assert_eq!(next_label(&labels), 2);
    assert_eq!(next_label(&labels[..2]), 1);
    assert_eq!(next_label(&labels[..1]), 0);
    assert_eq!(next_label(&labels[3..]), 1);
}
