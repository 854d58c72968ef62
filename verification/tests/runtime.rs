//! The decisions of the daemon, the names of the engines, and the queue
//! with early detection under each of its signals.

use std::sync::{Arc, Mutex};

use irp::id_map::IdMap;
use irp::model::control_plane::MessageDescriptor;
use irp::model::messages::{ControlMessage, MessageKind, Payload};
use irp::model::routing::{ForwardingTable, Route, RouteTable};
use irp::model::state::{NeighborInfo, NeighborTable};
use irp::protocols::base::{ProtocolOutputs, QdiscAction};
use irp::protocols::engine::{parse_flag, EngineKind};
use irp::runtime::config::QdiscConfig;
use irp::runtime::daemon::{
    accepts_message, action_interface, apply_action, commit_routes, interface_of, link_snapshot,
    links_of, prune_snapshots, qdisc_by_neighbor, snapshot_of_error, snapshot_of_stats,
    snapshots_equal, store_snapshot, QdiscSnapshot,
};
use irp::runtime::qdisc::controller::{interface_targets, QdiscController};
use irp::runtime::qdisc::driver::{QdiscDriver, QdiscRuntimeStats};
use irp::runtime::qdisc::queue_disc::{
    counters_have_room, QueueDisc, QueueDiscBase, QueueDiscItem, QueueDiscSizePolicy, QueueSize,
};
use irp::runtime::qdisc::red::{RedQueueDisc, RedSignal};
use irp::runtime::qdisc::strategy::{QdiscKind, QdiscProfile};
use irp::text_map::TextMap;

fn neighbor(router_id: u32, iface: Option<&str>, is_up: bool) -> NeighborInfo {
    NeighborInfo {
        router_id,
        address: format!("10.0.0.{router_id}"),
        port: 5500,
        cost: (router_id as f64).to_bits(),
        interface_name: iface.map(str::to_string),
        last_seen: None,
        is_up,
    }
}

fn table() -> NeighborTable {
    NeighborTable::new(vec![
        neighbor(3, Some("eth3"), true),
        neighbor(2, Some("  eth2 "), false),
        neighbor(5, Some("   "), true),
        neighbor(4, None, true),
    ])
}

fn stats(kind: &str, backlog_bytes: u64) -> QdiscRuntimeStats {
    QdiscRuntimeStats {
        kind: Some(kind.to_string()),
        backlog_bytes: Some(backlog_bytes),
        drops: Some(1),
        ..QdiscRuntimeStats::default()
    }
}

#[test]
fn engine_names_are_matched_exactly() {
    let names = ["ospf", "rip", "ecmp", "topk", "spath", "ddr", "dgr", "octopus"];
    for name in names {
        let kind = EngineKind::parse(name).expect("a known engine");
        assert_eq!(kind.as_str(), name);
    }
    assert_eq!(EngineKind::parse("ospf"), Ok(EngineKind::Ospf));
    assert_eq!(EngineKind::parse("octopus"), Ok(EngineKind::Octopus));
    assert_eq!(EngineKind::parse("OSPF"), Err("unsupported protocol: OSPF".to_string()));
    assert_eq!(EngineKind::parse(" rip"), Err("unsupported protocol:  rip".to_string()));
    assert_eq!(EngineKind::parse(""), Err("unsupported protocol: ".to_string()));
    let abstract_error = EngineKind::parse("irp").expect_err("the architecture is no engine");
    assert!(abstract_error.starts_with("protocol 'irp' is an abstract architecture"));
    assert!(abstract_error.ends_with("(ospf, rip, ecmp, topk, spath, ddr, dgr, octopus)"));
}

#[test]
fn engine_defaults_differ_for_the_queue_aware_engines() {
    assert!(!EngineKind::Ospf.is_queue_aware());
    assert!(EngineKind::Ddr.is_queue_aware() && EngineKind::Octopus.is_queue_aware());
    assert!(!EngineKind::Ddr.draws_by_default());
    assert!(EngineKind::Dgr.draws_by_default() && EngineKind::Octopus.draws_by_default());
    assert_eq!(EngineKind::Ddr.default_pressure_threshold(4), 2);
    assert_eq!(EngineKind::Dgr.default_pressure_threshold(9), 2);
    assert_eq!(EngineKind::Octopus.default_pressure_threshold(4), 3);
    assert_eq!(EngineKind::Octopus.default_pressure_threshold(1), 0);
    assert_eq!(EngineKind::Octopus.default_pressure_threshold(0), 0);
}

#[test]
fn flags_are_spelled_in_three_ways() {
    for text in ["1", "true", "yes", " TRUE ", "Yes\n"] {
        assert_eq!(parse_flag(text), Some(true));
    }
    for text in ["0", "false", "no", "\tNo", "FALSE"] {
        assert_eq!(parse_flag(text), Some(false));
    }
    for text in ["", "2", "on", "off", "tru e", "yes."] {
        assert_eq!(parse_flag(text), None);
    }
}

#[test]
fn context_links_mirror_the_neighbours() {
    let links = links_of(&table());
    assert_eq!(links.len(), 4);
    let ids: Vec<u32> = (0..links.len()).map(|i| links.key_at(i)).collect();
    assert_eq!(ids, vec![2, 3, 4, 5]);
    let to_2 = links.get(2).expect("a link to 2");
    assert_eq!(to_2.neighbor_id, 2);
    assert_eq!(f64::from_bits(to_2.cost), 2.0);
    assert_eq!((to_2.address.as_str(), to_2.port), ("10.0.0.2", 5500));
    assert_eq!(to_2.interface_name.as_deref(), Some("  eth2 "));
    assert!(!to_2.is_up);
    assert!(links.get(3).expect("a link to 3").is_up);
    assert!(links_of(&NeighborTable::new(Vec::new())).is_empty());
}

#[test]
fn interfaces_are_named_without_surrounding_space() {
    assert_eq!(interface_of(&neighbor(1, Some("eth0"), true)).as_deref(), Some("eth0"));
    assert_eq!(interface_of(&neighbor(1, Some(" eth 0\t"), true)).as_deref(), Some("eth 0"));
    assert_eq!(interface_of(&neighbor(1, Some(" \n"), true)), None);
    assert_eq!(interface_of(&neighbor(1, Some(""), true)), None);
    assert_eq!(interface_of(&neighbor(1, None, true)), None);
}

#[test]
fn engines_are_told_of_the_disciplines_behind_named_interfaces() {
    let mut snapshots = TextMap::new();
    assert!(store_snapshot(&mut snapshots, snapshot_of_stats("eth2", stats("fq_codel", 8192))));
    assert!(store_snapshot(&mut snapshots, snapshot_of_error("eth9", "no such device".to_string())));
    let told = qdisc_by_neighbor(&table(), &snapshots);
    let ids: Vec<u32> = (0..told.len()).map(|i| told.key_at(i)).collect();
    assert_eq!(ids, vec![2, 3]);
    let of_2 = told.get(2).expect("neighbour 2 is behind eth2");
    assert_eq!(of_2.interface_name.as_deref(), Some("eth2"));
    assert_eq!(of_2.kind.as_deref(), Some("fq_codel"));
    assert_eq!((of_2.backlog_bytes, of_2.backlog_packets, of_2.drops), (Some(8192), None, Some(1)));
    assert_eq!(of_2.error, None);
    // No snapshot of eth3 yet: the interface is named, nothing else is known.
    let of_3 = told.get(3).expect("neighbour 3 is behind eth3");
    assert_eq!(of_3.interface_name.as_deref(), Some("eth3"));
    assert_eq!((of_3.kind.clone(), of_3.backlog_bytes, of_3.error.clone()), (None, None, None));
    let failed = link_snapshot("eth9".to_string(), snapshots.get("eth9"));
    assert_eq!(failed.error.as_deref(), Some("no such device"));
    assert_eq!(failed.kind, None);
}

#[test]
fn snapshots_are_stored_compared_and_pruned() {
    let mut snapshots: TextMap<QdiscSnapshot> = TextMap::new();
    assert!(store_snapshot(&mut snapshots, snapshot_of_stats("eth1", stats("pfifo", 0))));
    // The same again says nothing new; another backlog does.
    assert!(!store_snapshot(&mut snapshots, snapshot_of_stats("eth1", stats("pfifo", 0))));
    assert!(store_snapshot(&mut snapshots, snapshot_of_stats("eth1", stats("pfifo", 7))));
    assert!(store_snapshot(&mut snapshots, snapshot_of_error("eth1", "gone".to_string())));
    assert!(!store_snapshot(&mut snapshots, snapshot_of_error("eth1", "gone".to_string())));
    assert!(store_snapshot(&mut snapshots, snapshot_of_stats("eth0", stats("red", 1))));
    assert!(store_snapshot(&mut snapshots, snapshot_of_stats("eth2", stats("red", 1))));
    assert_eq!(snapshots.len(), 3);
    assert!(!snapshots_equal(
        &snapshot_of_stats("eth0", stats("red", 1)),
        &snapshot_of_stats("eth2", stats("red", 1)),
    ));

    let watched = interface_targets(&["eth2".to_string(), " ".to_string(), "eth1".to_string()]);
    let kept = prune_snapshots(&snapshots, &watched);
    let names: Vec<&str> = (0..kept.len()).map(|i| kept.key_at(i)).collect();
    assert_eq!(names, vec!["eth1", "eth2"]);
    assert_eq!(kept.get("eth1").and_then(|s| s.error.as_deref()), Some("gone"));
    assert_eq!(kept.get("eth2").and_then(|s| s.backlog_bytes), Some(1));
    assert!(prune_snapshots(&snapshots, &TextMap::new()).is_empty());
}

fn message(protocol: &str, src_router_id: u32) -> ControlMessage {
    ControlMessage::new(
        protocol,
        MessageKind::Hello,
        src_router_id,
        1,
        MessageDescriptor::hello(),
        Payload::Opaque,
        0,
    )
}

#[test]
fn messages_of_other_protocols_and_of_strangers_are_not_taken() {
    let neighbors = table();
    assert!(accepts_message("ospf", &message("ospf", 2), &neighbors));
    assert!(accepts_message("ospf", &message("ospf", 5), &neighbors));
    assert!(!accepts_message("ospf", &message("rip", 2), &neighbors));
    assert!(!accepts_message("ospf", &message("OSPF", 2), &neighbors));
    assert!(!accepts_message("ospf", &message("ospf", 1), &neighbors));
    assert!(!accepts_message("ospf", &message("ospf", 6), &neighbors));
}

#[test]
fn routes_are_committed_and_applied_only_on_change() {
    let mut rib = RouteTable::default();
    let mut fib = ForwardingTable::default();
    let route = |destination, next_hop, metric: f64| {
        Route::new_host(destination, next_hop, metric.to_bits(), "ospf")
    };
    let first = vec![route(4, 2, 2.0), route(4, 3, 3.0), route(5, 2, 1.0)];
    let commit = commit_routes(&mut rib, &mut fib, "ospf", &first, &first);
    assert!(commit.rib_updated && commit.fib_updated);
    assert!(commit.must_apply() && commit.must_publish(false));
    assert_eq!(rib.snapshot().len(), 3);
    let installed: Vec<(u32, u32)> =
        fib.snapshot().iter().map(|e| (e.destination, e.next_hop)).collect();
    assert_eq!(installed, vec![(4, 2), (5, 2)]);

    // The same routes again change nothing.
    let commit = commit_routes(&mut rib, &mut fib, "ospf", &first, &first);
    assert!(!commit.rib_updated && !commit.fib_updated);
    assert!(!commit.must_apply() && !commit.must_publish(false));
    assert!(commit.must_publish(true));

    // A worse second route changes the routing table, not what is installed.
    let second = vec![route(4, 2, 2.0), route(4, 3, 9.0), route(5, 2, 1.0)];
    let commit = commit_routes(&mut rib, &mut fib, "ospf", &second, &second);
    assert!(commit.rib_updated && !commit.fib_updated);
    assert!(!commit.must_apply() && commit.must_publish(false));

    // Routes of another protocol leave those of this one alone.
    let other = vec![Route::new_host(6, 3, 1.0f64.to_bits(), "rip")];
    let all: Vec<Route> = second.iter().cloned().chain(other.iter().cloned()).collect();
    let commit = commit_routes(&mut rib, &mut fib, "rip", &other, &all);
    assert!(commit.rib_updated && commit.fib_updated);
    assert_eq!(rib.snapshot().len(), 4);
    assert_eq!(fib.snapshot().len(), 3);
}

#[derive(Default)]
struct Calls {
    replaced: Vec<(String, QdiscKind, Option<String>)>,
    deleted: Vec<String>,
}

struct RecordingDriver {
    calls: Arc<Mutex<Calls>>,
}

impl QdiscDriver for RecordingDriver {
    fn replace_root(&self, iface: &str, profile: &QdiscProfile) -> Result<(), String> {
        self.calls.lock().expect("lock").replaced.push((
            iface.to_string(),
            profile.kind,
            profile.handle.clone(),
        ));
        Ok(())
    }

    fn delete_root(&self, iface: &str) -> Result<(), String> {
        self.calls.lock().expect("lock").deleted.push(iface.to_string());
        Ok(())
    }

    fn show_stats(&self, _iface: &str) -> Result<QdiscRuntimeStats, String> {
        Err("no statistics".to_string())
    }
}

#[test]
fn actions_reach_the_driver_through_the_controller() {
    let calls = Arc::new(Mutex::new(Calls::default()));
    let driver = Box::new(RecordingDriver { calls: Arc::clone(&calls) });
    let controller = QdiscController::new(driver, &QdiscConfig::default()).expect("a controller");

    let default = QdiscAction::ApplyDefault { interface_name: "eth0".to_string() };
    let custom = QdiscAction::ApplyProfile {
        interface_name: "eth1".to_string(),
        kind: " RED ".to_string(),
        handle: Some("1:".to_string()),
        params: TextMap::new(),
    };
    let unknown = QdiscAction::ApplyProfile {
        interface_name: "eth1".to_string(),
        kind: "cake".to_string(),
        handle: None,
        params: TextMap::new(),
    };
    let clear = QdiscAction::Clear { interface_name: "eth2".to_string() };
    assert_eq!(action_interface(&default), "eth0");
    assert_eq!(action_interface(&custom), "eth1");
    assert_eq!(action_interface(&clear), "eth2");

    // No profile is configured: the default action installs nothing.
    assert_eq!(apply_action(&controller, &default), Ok(()));
    assert_eq!(apply_action(&controller, &custom), Ok(()));
    assert!(apply_action(&controller, &unknown).is_err());
    assert_eq!(apply_action(&controller, &clear), Ok(()));
    let seen = calls.lock().expect("lock");
    assert_eq!(seen.replaced, vec![("eth1".to_string(), QdiscKind::Red, Some("1:".to_string()))]);
    assert_eq!(seen.deleted, vec!["eth2".to_string()]);
    assert!(ProtocolOutputs::default().qdisc_actions.is_empty());
}

fn packet(flow_id: u32, capable: bool) -> QueueDiscItem {
    let mut metadata = TextMap::new();
    if capable {
        metadata.insert("ecn".to_string(), "ECT0".to_string());
    }
    QueueDiscItem { packet_len_bytes: 100, flow_id: Some(flow_id), class_id: None, metadata }
}

#[test]
fn early_detection_judges_each_packet_under_its_signal() {
    let mut q = RedQueueDisc::new(
        QueueSize::packets(3),
        QueueSize::packets(1),
        QueueSize::packets(2),
        true,
    );
    assert_eq!(q.name(), "red");
    assert_eq!((q.min_threshold().value, q.max_threshold().value), (1, 2));
    assert!(q.check_config().is_ok());
    assert!(q.enqueue(packet(1, false)));
    assert_eq!(q.measured_size(), 1);

    q.set_signal(RedSignal::Early);
    assert!(!q.enqueue(packet(2, false)));
    assert_eq!(q.stats().dropped_packets_before_enqueue.count(RedQueueDisc::RED_RANDOM_DROP), 1);
    // The signal is used up: the next packet passes.
    assert!(q.enqueue(packet(3, false)));

    q.set_signal(RedSignal::Forced);
    assert!(!q.enqueue(packet(4, false)));
    assert_eq!(q.stats().dropped_packets_before_enqueue.count(RedQueueDisc::RED_FORCED_DROP), 1);

    q.set_signal(RedSignal::Forced);
    assert!(q.enqueue(packet(5, true)));
    assert_eq!(q.stats().marked_packets.count(RedQueueDisc::RED_ECN_MARK), 1);

    // Full: the limit comes before any signal, and uses it up.
    q.set_signal(RedSignal::Early);
    assert!(q.would_exceed_limit(&packet(6, true)));
    assert!(!q.enqueue(packet(6, true)));
    assert_eq!(
        q.stats().dropped_packets_before_enqueue.count(RedQueueDisc::LIMIT_EXCEEDED_DROP),
        1
    );
    assert_eq!(q.stats().n_total_received_packets, 6);
    assert_eq!(q.stats().n_total_enqueued_packets, 3);

    let order: Vec<Option<u32>> =
        std::iter::from_fn(|| q.dequeue()).map(|item| item.flow_id).collect();
    assert_eq!(order, vec![Some(1), Some(3), Some(5)]);
}

#[test]
fn early_detection_without_marking_drops_capable_packets_too() {
    let mut q = RedQueueDisc::new_default();
    q.set_signal(RedSignal::Early);
    assert!(!q.enqueue(packet(1, true)));
    q.set_signal(RedSignal::Pass);
    assert!(q.enqueue(packet(2, true)));
    let head = q.peek().expect("a packet");
    assert_eq!(head.metadata.get("ecn_marked"), None);

    let same_unit = RedQueueDisc::new(
        QueueSize::packets(10),
        QueueSize::packets(5),
        QueueSize::packets(5),
        false,
    );
    assert_eq!(same_unit.check_config(), Err("RED requires min_th < max_th".to_string()));
    let mixed = RedQueueDisc::new(
        QueueSize::packets(10),
        QueueSize::bytes(5),
        QueueSize::packets(9),
        false,
    );
    assert_eq!(
        mixed.check_config(),
        Err("RED requires min_th and max_th using the same unit".to_string())
    );
    assert_eq!(mixed.measured_size(), 0);
}

#[test]
fn counters_tell_when_they_are_used_up() {
    let mut base = QueueDiscBase::new(QueueDiscSizePolicy::SingleInternalQueue, None);
    assert!(base.has_room(1500));
    assert!(base.has_room(u64::MAX));
    base.on_packet_enqueued(10);
    assert!(base.has_room(u64::MAX - 10));
    assert!(!base.has_room(u64::MAX - 9));

    let mut by_reason: TextMap<u64> = TextMap::new();
    assert!(counters_have_room(&by_reason, u64::MAX));
    by_reason.add("late", u64::MAX - 5);
    by_reason.add("full", 3);
    assert!(counters_have_room(&by_reason, 5));
    assert!(!counters_have_room(&by_reason, 6));
    by_reason.add("late", 5);
    assert!(!counters_have_room(&by_reason, 0));
}
