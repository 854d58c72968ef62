use std::str::FromStr;
use std::sync::{Arc, Mutex};

use irp::runtime::config::{QdiscConfig, QdiscProfileConfig};
use irp::runtime::qdisc::controller::QdiscController;
use irp::runtime::qdisc::driver::{LinuxTcQdiscDriver, QdiscDriver, QdiscRuntimeStats};
use irp::runtime::qdisc::ecn::EcnQueueDisc;
use irp::runtime::qdisc::fifo::FifoQueueDisc;
use irp::runtime::qdisc::pfifo_fast::PfifoFastQueueDisc;
use irp::runtime::qdisc::prio::PrioQueueDisc;
use irp::runtime::qdisc::queue_disc::{
    QueueDisc, QueueDiscItem, QueueDiscStats, QueueDropPhase, QueueSize, QueueSizeUnit,
};
use irp::runtime::qdisc::strategy::{QdiscKind, QdiscProfile};
use irp::text_map::TextMap;

fn plain_item(flow_id: u32) -> QueueDiscItem {
    QueueDiscItem {
        packet_len_bytes: 100,
        flow_id: Some(flow_id),
        class_id: None,
        metadata: Default::default(),
    }
}

fn ecn_item(flow_id: u32) -> QueueDiscItem {
    let mut metadata = TextMap::new();
    metadata.insert("ecn_capable".to_string(), "true".to_string());
    QueueDiscItem {
        packet_len_bytes: 100,
        flow_id: Some(flow_id),
        class_id: None,
        metadata,
    }
}

fn item_with_priority(priority: u8, flow_id: u32) -> QueueDiscItem {
    let mut metadata = TextMap::new();
    metadata.insert("priority".to_string(), priority.to_string());
    QueueDiscItem {
        packet_len_bytes: 100,
        flow_id: Some(flow_id),
        class_id: None,
        metadata,
    }
}

#[test]
fn fifo_keeps_order() {
    let mut q = FifoQueueDisc::new_with_limit(QueueSize::packets(8));
    assert!(q.enqueue(QueueDiscItem {
        packet_len_bytes: 100,
        flow_id: Some(1),
        class_id: None,
        metadata: Default::default(),
    }));
    assert!(q.enqueue(QueueDiscItem {
        packet_len_bytes: 120,
        flow_id: Some(2),
        class_id: None,
        metadata: Default::default(),
    }));
    let first = q.dequeue().expect("first packet");
    let second = q.dequeue().expect("second packet");
    assert_eq!(first.flow_id, Some(1));
    assert_eq!(second.flow_id, Some(2));
}

#[test]
fn fifo_drops_when_limit_exceeded() {
    let mut q = FifoQueueDisc::new_with_limit(QueueSize::packets(1));
    assert!(q.enqueue(QueueDiscItem {
        packet_len_bytes: 100,
        flow_id: Some(1),
        class_id: None,
        metadata: Default::default(),
    }));
    assert!(!q.enqueue(QueueDiscItem {
        packet_len_bytes: 120,
        flow_id: Some(2),
        class_id: None,
        metadata: Default::default(),
    }));
    assert_eq!(q.stats().n_total_dropped_packets_before_enqueue, 1);
    assert_eq!(
        q.stats()
            .dropped_packets_before_enqueue
            .get(FifoQueueDisc::LIMIT_EXCEEDED_DROP)
            .copied()
            .unwrap_or(0),
        1
    );
}

#[test]
fn fifo_counts_bytes_and_packets() {
    let mut q = FifoQueueDisc::new_with_limit(QueueSize::bytes(250));
    assert!(q.enqueue(plain_item(1)));
    assert!(q.enqueue(plain_item(2)));
    assert!(!q.enqueue(plain_item(3)));
    assert_eq!(q.current_size(), QueueSize::bytes(200));
    assert_eq!(q.base().packet_count(), 2);
    assert_eq!(q.stats().n_total_received_packets, 3);
    assert_eq!(q.stats().n_total_received_bytes, 300);
    assert_eq!(q.stats().n_total_enqueued_bytes, 200);
    assert_eq!(q.stats().n_total_dropped_bytes_before_enqueue, 100);
    assert_eq!(q.peek().map(|i| i.flow_id), Some(Some(1)));
    let _ = q.dequeue();
    assert_eq!(q.base().byte_count(), 100);
    assert_eq!(q.stats().n_total_dequeued_packets, 1);
    assert!(q.check_config().is_ok());
    assert_eq!(q.name(), "fifo");
}

#[test]
fn pfifo_fast_prefers_higher_band_priority() {
    let mut q = PfifoFastQueueDisc::new_with_limit(QueueSize::packets(10));
    assert!(q.enqueue(item_with_priority(0, 10))); // band 1
    assert!(q.enqueue(item_with_priority(1, 11))); // band 2
    assert!(q.enqueue(item_with_priority(6, 12))); // band 0

    let first = q.dequeue().expect("first dequeue");
    let second = q.dequeue().expect("second dequeue");
    let third = q.dequeue().expect("third dequeue");
    assert_eq!(first.flow_id, Some(12));
    assert_eq!(second.flow_id, Some(10));
    assert_eq!(third.flow_id, Some(11));
}

#[test]
fn pfifo_fast_drops_when_limit_exceeded() {
    let mut q = PfifoFastQueueDisc::new_with_limit(QueueSize::packets(1));
    assert!(q.enqueue(item_with_priority(0, 1)));
    assert!(!q.enqueue(item_with_priority(6, 2)));
    assert_eq!(q.stats().n_total_dropped_packets_before_enqueue, 1);
    assert_eq!(
        q.stats()
            .dropped_packets_before_enqueue
            .get(PfifoFastQueueDisc::LIMIT_EXCEEDED_DROP)
            .copied()
            .unwrap_or(0),
        1
    );
}

#[test]
fn pfifo_fast_requires_packet_mode_limit() {
    let q = PfifoFastQueueDisc::new_with_limit(QueueSize {
        unit: QueueSizeUnit::Bytes,
        value: 2048,
    });
    assert!(q.check_config().is_err());
}

#[test]
fn pfifo_fast_reads_priority_keys_in_order() {
    let mut metadata = TextMap::new();
    metadata.insert("prio".to_string(), "6".to_string());
    metadata.insert("socket_priority".to_string(), " 1 ".to_string());
    metadata.insert("priority".to_string(), "not a number".to_string());
    let item = QueueDiscItem { packet_len_bytes: 1, flow_id: None, class_id: None, metadata };
    // "priority" does not parse, so "socket_priority" (1) decides.
    assert_eq!(item.priority(), 1);
    let mut metadata = TextMap::new();
    metadata.insert("prio".to_string(), "+262".to_string());
    let item = QueueDiscItem { packet_len_bytes: 1, flow_id: None, class_id: None, metadata };
    assert_eq!(item.priority(), 6);
    let mut metadata = TextMap::new();
    metadata.insert("prio".to_string(), "65536".to_string());
    let item = QueueDiscItem { packet_len_bytes: 1, flow_id: None, class_id: None, metadata };
    assert_eq!(item.priority(), 0);
}

#[test]
fn prio_dequeue_prefers_lower_band_index() {
    let mut q = PrioQueueDisc::new_default();
    assert!(q.enqueue(item_with_priority(1, 1))); // band 2
    assert!(q.enqueue(item_with_priority(0, 2))); // band 1
    assert!(q.enqueue(item_with_priority(6, 3))); // band 0

    let a = q.dequeue().expect("dequeue a");
    let b = q.dequeue().expect("dequeue b");
    let c = q.dequeue().expect("dequeue c");
    assert_eq!(a.flow_id, Some(3));
    assert_eq!(b.flow_id, Some(2));
    assert_eq!(c.flow_id, Some(1));
}

#[test]
fn class_id_overrides_priomap() {
    let mut q = PrioQueueDisc::new_default();
    let mut item = item_with_priority(6, 9); // would map to band 0
    item.class_id = Some(2);
    assert!(q.enqueue(item));
    let out = q.dequeue().expect("dequeue with class id");
    assert_eq!(out.flow_id, Some(9));
}

#[test]
fn set_and_get_band_for_priority() {
    let mut q = PrioQueueDisc::new_default();
    q.set_band_for_priority(0, 2).expect("set mapping");
    assert_eq!(q.band_for_priority(0).expect("get mapping"), 2);
}

#[test]
fn prio_rejects_bad_mappings_and_caps_bands() {
    let mut q = PrioQueueDisc::new_with_classes(0);
    assert_eq!(q.class_count(), 2);
    assert_eq!(q.band_for_priority(1).expect("band"), 1);
    assert_eq!(q.band_for_priority(6).expect("band"), 0);
    assert_eq!(
        q.set_band_for_priority(16, 0),
        Err("priority must be in [0, 15]".to_string())
    );
    assert_eq!(q.set_band_for_priority(0, 2), Err("band out of range".to_string()));
    assert_eq!(q.band_for_priority(16), Err("priority must be in [0, 15]".to_string()));
    assert!(q.check_config().is_ok());
    assert!(q.peek().is_none());
    assert!(q.dequeue().is_none());
}

#[test]
fn ecn_queue_marks_when_above_threshold() {
    let mut q = EcnQueueDisc::new(QueueSize::packets(10), QueueSize::packets(1));
    assert!(q.enqueue(plain_item(1)));
    assert!(q.enqueue(ecn_item(2)));
    let _ = q.dequeue();
    let marked = q.dequeue().expect("ecn-marked packet");
    assert_eq!(marked.metadata.get("ecn_marked").map(String::as_str), Some("1"));
    assert!(q.stats().n_total_marked_packets >= 1);
}

#[test]
fn ecn_queue_drops_non_ecn_when_above_threshold() {
    let mut q = EcnQueueDisc::new(QueueSize::packets(10), QueueSize::packets(1));
    assert!(q.enqueue(plain_item(1)));
    assert!(!q.enqueue(plain_item(2)));
    assert_eq!(q.stats().n_total_dropped_packets_before_enqueue, 1);
    assert_eq!(
        q.stats()
            .dropped_packets_before_enqueue
            .get(EcnQueueDisc::NON_ECN_DROP)
            .copied()
            .unwrap_or(0),
        1
    );
}

#[test]
fn ecn_config_is_checked() {
    let q = EcnQueueDisc::new(QueueSize::packets(10), QueueSize::bytes(1));
    assert_eq!(
        q.check_config(),
        Err("ECN queue requires threshold unit matching max_size unit".to_string())
    );
    let q = EcnQueueDisc::new(QueueSize::packets(10), QueueSize::packets(11));
    assert_eq!(
        q.check_config(),
        Err("ECN queue requires mark_threshold <= max_size".to_string())
    );
    assert!(EcnQueueDisc::new_default().check_config().is_ok());
}

#[test]
fn stats_record_by_reason_and_phase() {
    let mut stats = QueueDiscStats::default();
    stats.record_drop(10, "a", QueueDropPhase::BeforeEnqueue);
    stats.record_drop(20, "a", QueueDropPhase::BeforeEnqueue);
    stats.record_drop(5, "b", QueueDropPhase::AfterDequeue);
    stats.record_marked(7, "m");
    stats.record_requeued(3);
    assert_eq!(stats.n_total_dropped_packets(), 3);
    assert_eq!(stats.n_total_dropped_bytes(), 35);
    assert_eq!(stats.dropped_bytes_before_enqueue.get("a").copied(), Some(30));
    assert_eq!(stats.dropped_packets_before_enqueue.count("a"), 2);
    assert_eq!(stats.dropped_packets_after_dequeue.count("b"), 1);
    assert_eq!(stats.dropped_packets_after_dequeue.count("a"), 0);
    assert_eq!(stats.marked_bytes.count("m"), 7);
    assert_eq!(stats.n_total_requeued_bytes, 3);
}

#[test]
fn parse_tc_stats_backlog() {
    let text = "qdisc fq_codel 0: dev eth1 root refcnt 2 limit 10240p\n\
 Sent 1234 bytes 12 pkt (dropped 3, overlimits 5 requeues 7)\n\
 backlog 8192b 6p requeues 7\n";
    let stats = QdiscRuntimeStats::parse(text);
    assert_eq!(stats.kind.as_deref(), Some("fq_codel"));
    assert_eq!(stats.backlog_bytes, Some(8192));
    assert_eq!(stats.backlog_packets, Some(6));
    assert_eq!(stats.drops, Some(3));
    assert_eq!(stats.overlimits, Some(5));
    assert_eq!(stats.requeues, Some(7));
}

#[test]
fn parse_tc_stats_edge_cases() {
    let stats = QdiscRuntimeStats::parse("");
    assert_eq!(stats.kind, None);
    assert_eq!(stats.backlog_bytes, None);
    // A count that is no number clears the field; the closing bracket stays.
    let stats = QdiscRuntimeStats::parse("requeues 4\nrequeues 7)\r\nqdisc\nqdisc red x");
    assert_eq!(stats.requeues, None);
    assert_eq!(stats.kind.as_deref(), Some("red"));
    // Only six tokens after `backlog` are read, and the last figure wins.
    let stats = QdiscRuntimeStats::parse("backlog 1b 2b 3p x y z 9b");
    assert_eq!(stats.backlog_bytes, Some(2));
    assert_eq!(stats.backlog_packets, Some(3));
    let stats = QdiscRuntimeStats::parse("(dropped 12,,, overlimits +3 backlog 18446744073709551616b");
    assert_eq!(stats.drops, Some(12));
    assert_eq!(stats.overlimits, Some(3));
    assert_eq!(stats.backlog_bytes, None);
    assert_eq!(stats.raw, "(dropped 12,,, overlimits +3 backlog 18446744073709551616b");
}

#[test]
fn qdisc_kind_names() {
    assert_eq!(QdiscKind::from_str(" PFIFO_fast "), Ok(QdiscKind::PfifoFast));
    assert_eq!(QdiscKind::from_str("fqcodel"), Ok(QdiscKind::FqCodel));
    assert_eq!(QdiscKind::Ecn.as_tc_name(), "red");
    assert_eq!(QdiscKind::Fifo.as_tc_name(), "pfifo");
    assert_eq!(
        QdiscKind::from_str(" Cake\t"),
        Err("unsupported qdisc kind: cake".to_string())
    );
}

#[test]
fn replace_root_args_follow_key_order() {
    let driver = LinuxTcQdiscDriver::new(true);
    let mut profile = QdiscProfile::new(QdiscKind::Prio);
    profile.handle = Some("1:".to_string());
    profile.params.insert("priomap".to_string(), "1 2".to_string());
    profile.params.insert("bands".to_string(), "3".to_string());
    profile.params.insert("ecn".to_string(), String::new());
    let args = driver.build_replace_root_args("eth0", &profile);
    assert_eq!(
        args,
        vec![
            "qdisc", "replace", "dev", "eth0", "root", "handle", "1:", "prio", "bands", "3",
            "ecn", "priomap", "1 2"
        ]
    );
    assert_eq!(
        driver.build_delete_root_args("eth0"),
        vec!["qdisc", "del", "dev", "eth0", "root"]
    );
    assert_eq!(
        driver.build_show_stats_args("eth0"),
        vec!["-s", "qdisc", "show", "dev", "eth0"]
    );
}

#[derive(Default)]
struct DriverCalls {
    replaced: Vec<(String, QdiscProfile)>,
    deleted: Vec<String>,
}

struct FakeDriver {
    calls: Arc<Mutex<DriverCalls>>,
}

impl QdiscDriver for FakeDriver {
    fn replace_root(&self, iface: &str, profile: &QdiscProfile) -> Result<(), String> {
        self.calls
            .lock()
            .expect("driver lock poisoned")
            .replaced
            .push((iface.to_string(), profile.clone()));
        Ok(())
    }

    fn delete_root(&self, iface: &str) -> Result<(), String> {
        self.calls
            .lock()
            .expect("driver lock poisoned")
            .deleted
            .push(iface.to_string());
        Ok(())
    }

    fn show_stats(&self, _iface: &str) -> Result<QdiscRuntimeStats, String> {
        Ok(QdiscRuntimeStats::default())
    }
}

#[test]
fn apply_custom_for_interface_uses_requested_kind() {
    let calls = Arc::new(Mutex::new(DriverCalls::default()));
    let driver = Box::new(FakeDriver {
        calls: Arc::clone(&calls),
    });
    let controller = QdiscController::new(driver, &QdiscConfig::default())
        .expect("controller should initialize");

    let mut params = TextMap::new();
    params.insert("bands".to_string(), "3".to_string());
    controller
        .apply_custom_for_interface("eth1", "prio", Some("1:"), &params)
        .expect("custom profile should apply");

    let guard = calls.lock().expect("driver lock poisoned");
    assert_eq!(guard.replaced.len(), 1);
    assert_eq!(guard.replaced[0].0, "eth1");
    assert_eq!(guard.replaced[0].1.kind, QdiscKind::Prio);
    assert_eq!(guard.replaced[0].1.handle.as_deref(), Some("1:"));
    assert_eq!(guard.replaced[0].1.params.get("bands"), Some(&"3".to_string()));
}

#[test]
fn apply_for_interface_prefers_interface_specific_profile() {
    let calls = Arc::new(Mutex::new(DriverCalls::default()));
    let driver = Box::new(FakeDriver {
        calls: Arc::clone(&calls),
    });
    let mut cfg = QdiscConfig::default();
    cfg.default = Some(QdiscProfileConfig {
        kind: "fifo".to_string(),
        handle: None,
        parent: None,
        params: TextMap::new(),
    });
    cfg.interfaces.insert(
        "eth1".to_string(),
        QdiscProfileConfig {
            kind: "prio".to_string(),
            handle: None,
            parent: None,
            params: TextMap::new(),
        },
    );

    let controller = QdiscController::new(driver, &cfg).expect("controller should initialize");
    controller
        .apply_for_interface("eth1")
        .expect("interface profile should apply");

    let guard = calls.lock().expect("driver lock poisoned");
    assert_eq!(guard.replaced.len(), 1);
    assert_eq!(guard.replaced[0].0, "eth1");
    assert_eq!(guard.replaced[0].1.kind, QdiscKind::Prio);
}

#[test]
fn apply_to_interfaces_visits_each_name_once_in_order() {
    let calls = Arc::new(Mutex::new(DriverCalls::default()));
    let driver = Box::new(FakeDriver {
        calls: Arc::clone(&calls),
    });
    let mut cfg = QdiscConfig::default();
    cfg.default = Some(QdiscProfileConfig {
        kind: "fifo".to_string(),
        handle: None,
        parent: None,
        params: TextMap::new(),
    });
    let controller = QdiscController::new(driver, &cfg).expect("controller should initialize");
    let names = vec![
        "eth2".to_string(),
        "  ".to_string(),
        "eth10".to_string(),
        "eth2".to_string(),
        String::new(),
    ];
    controller.apply_to_interfaces(&names).expect("apply");
    controller.clear_for_interface("eth2").expect("clear");
    let guard = calls.lock().expect("driver lock poisoned");
    let seen: Vec<&str> = guard.replaced.iter().map(|c| c.0.as_str()).collect();
    assert_eq!(seen, vec!["eth10", "eth2"]);
    assert_eq!(guard.deleted, vec!["eth2".to_string()]);
}

#[test]
fn controller_reports_first_unknown_kind() {
    let mut cfg = QdiscConfig::default();
    for (name, kind) in [("b", "nope"), ("a", "bad"), ("c", "fifo")] {
        cfg.interfaces.insert(
            name.to_string(),
            QdiscProfileConfig {
                kind: kind.to_string(),
                handle: None,
                parent: None,
                params: TextMap::new(),
            },
        );
    }
    let driver = Box::new(FakeDriver { calls: Arc::new(Mutex::new(DriverCalls::default())) });
    match QdiscController::new(driver, &cfg) {
        Ok(_) => panic!("an unknown kind must be refused"),
        Err(e) => assert_eq!(e, "unsupported qdisc kind: bad"),
    }
}

struct RefusingDriver {
    refused: &'static str,
    asked: Arc<Mutex<Vec<String>>>,
}

impl QdiscDriver for RefusingDriver {
    fn replace_root(&self, iface: &str, _profile: &QdiscProfile) -> Result<(), String> {
        self.asked.lock().expect("driver lock poisoned").push(iface.to_string());
        if iface == self.refused {
            Err(format!("no such device: {iface}"))
        } else {
            Ok(())
        }
    }

    fn delete_root(&self, iface: &str) -> Result<(), String> {
        Err(format!("cannot clear {iface}"))
    }

    fn show_stats(&self, iface: &str) -> Result<QdiscRuntimeStats, String> {
        if iface == self.refused {
            Err(format!("no statistics of {iface}"))
        } else {
            Ok(QdiscRuntimeStats::parse("qdisc prio 1: root\n backlog 5b 1p requeues 0\n"))
        }
    }
}

#[test]
fn controller_hands_on_what_the_driver_answers() {
    let asked = Arc::new(Mutex::new(Vec::new()));
    let driver = Box::new(RefusingDriver { refused: "eth2", asked: Arc::clone(&asked) });
    let mut cfg = QdiscConfig::default();
    for name in ["eth1", "eth2", "eth3"] {
        cfg.interfaces.insert(
            name.to_string(),
            QdiscProfileConfig {
                kind: "fifo".to_string(),
                handle: None,
                parent: None,
                params: TextMap::new(),
            },
        );
    }
    let controller = QdiscController::new(driver, &cfg).expect("controller should initialize");
    // eth0 has no profile and is not asked about; eth2 is refused, and
    // eth3 is not reached.
    let names: Vec<String> = ["eth3", "eth2", "eth0", "eth1"].iter().map(|n| n.to_string()).collect();
    assert_eq!(controller.apply_to_interfaces(&names), Err("no such device: eth2".to_string()));
    assert_eq!(*asked.lock().expect("driver lock poisoned"), vec!["eth1", "eth2"]);
    assert_eq!(controller.apply_to_interfaces(&names[2..]), Ok(()));
    assert_eq!(controller.apply_for_interface("eth0"), Ok(()));
    assert_eq!(controller.apply_for_interface("eth1"), Ok(()));
    assert_eq!(controller.apply_for_interface("eth2"), Err("no such device: eth2".to_string()));
    let profile = QdiscProfile::new(QdiscKind::Red);
    assert_eq!(controller.apply_profile_for_interface("eth9", &profile), Ok(()));
    assert_eq!(
        controller.apply_profile_for_interface("eth2", &profile),
        Err("no such device: eth2".to_string())
    );
    assert_eq!(controller.clear_for_interface("eth1"), Err("cannot clear eth1".to_string()));
    assert_eq!(
        controller.stats_for_interface("eth2").map(|s| s.backlog_bytes),
        Err("no statistics of eth2".to_string())
    );
    assert_eq!(controller.stats_for_interface("eth1").map(|s| s.backlog_bytes), Ok(Some(5)));
    assert_eq!(QdiscKind::from_str(" Pfifo "), Ok(QdiscKind::Fifo));
    assert_eq!(QdiscKind::from_str("cake"), Err("unsupported qdisc kind: cake".to_string()));
}
