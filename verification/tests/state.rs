use irp::id_map::IdMap;
use irp::model::state::{
    LinkStateDb, NeighborFastStatePatch, NeighborInfo, NeighborStateDb, NeighborTable,
};

fn b(x: f64) -> u64 {
    x.to_bits()
}

fn is_fresh(learned_at: u64, now: f64, max_age: f64) -> bool {
    (now - f64::from_bits(learned_at)).max(0.0) <= max_age.max(0.0)
}

fn fresh_at(nsdb: &NeighborStateDb, router_id: u32, now: f64, max_age: f64) -> bool {
    nsdb.get(router_id)
        .map(|rec| is_fresh(rec.learned_at, now, max_age))
        .unwrap_or(false)
}

fn expired_at(nsdb: &NeighborStateDb, now: f64, max_age: f64) -> Vec<u32> {
    nsdb.records()
        .iter()
        .filter(|rec| !is_fresh(rec.learned_at, now, max_age))
        .map(|rec| rec.router_id)
        .collect()
}

fn links(items: &[(u32, f64)]) -> IdMap<u64> {
    let mut m = IdMap::new();
    for (k, v) in items {
        m.insert(*k, b(*v));
    }
    m
}

fn neighbor(router_id: u32, is_up: bool, last_seen: Option<f64>) -> NeighborInfo {
    NeighborInfo {
        router_id,
        address: format!("10.0.0.{router_id}"),
        port: 5500,
        cost: b(1.0),
        interface_name: None,
        last_seen: last_seen.map(b),
        is_up,
    }
}

#[test]
fn nsdb_respects_freshness_window() {
    let mut nsdb = NeighborStateDb::default();
    assert!(nsdb.upsert_queue_level(2, 3, b(0.0)));
    assert_eq!(nsdb.get_queue_level_fresh(2, fresh_at(&nsdb, 2, 0.5, 1.0)), Some(3));
    assert_eq!(nsdb.get_queue_level_fresh(2, fresh_at(&nsdb, 2, 1.5, 1.0)), None);
    let expired = expired_at(&nsdb, 1.5, 1.0);
    assert!(nsdb.age_out(&expired));
    assert_eq!(nsdb.get_queue_level_fresh(2, fresh_at(&nsdb, 2, 1.5, 1.0)), None);
}

#[test]
fn nsdb_merges_fast_state_patch() {
    let mut nsdb = NeighborStateDb::default();
    assert!(nsdb.upsert_fast_state(
        2,
        NeighborFastStatePatch {
            queue_level: Some(1),
            ..NeighborFastStatePatch::default()
        },
        b(0.0),
    ));
    assert!(nsdb.upsert_fast_state(
        2,
        NeighborFastStatePatch {
            interface_utilization: Some(b(0.5)),
            delay_ms: Some(b(2.0)),
            loss_rate: Some(b(0.01)),
            ..NeighborFastStatePatch::default()
        },
        b(0.1),
    ));
    let fresh = fresh_at(&nsdb, 2, 0.2, 1.0);
    let state = nsdb
        .get_state_fresh(2, fresh)
        .expect("state should remain fresh");
    assert_eq!(state.queue_level, Some(1));
    assert_eq!(state.interface_utilization, Some(b(0.5)));
    assert_eq!(state.delay_ms, Some(b(2.0)));
    assert_eq!(state.loss_rate, Some(b(0.01)));
}

#[test]
fn nsdb_patch_reports_change_by_number() {
    let mut nsdb = NeighborStateDb::default();
    assert!(!nsdb.upsert_fast_state(2, NeighborFastStatePatch::default(), b(0.0)));
    assert!(nsdb.get(2).is_none());
    let zero = NeighborFastStatePatch { delay_ms: Some(b(0.0)), ..Default::default() };
    assert!(nsdb.upsert_fast_state(2, zero, b(1.0)));
    // The same number again, even as a negative zero, is no change, but the
    // record is stamped anew and keeps the figure it held.
    let minus_zero = NeighborFastStatePatch { delay_ms: Some(b(-0.0)), ..Default::default() };
    assert!(!nsdb.upsert_fast_state(2, minus_zero, b(2.0)));
    assert_eq!(nsdb.get(2).map(|r| (r.learned_at, r.state.delay_ms)), Some((b(2.0), Some(b(0.0)))));
    // What is no number never equals what is held.
    let nan = NeighborFastStatePatch { delay_ms: Some(b(f64::NAN)), ..Default::default() };
    assert!(nsdb.upsert_fast_state(2, nan, b(3.0)));
    assert!(nsdb.upsert_fast_state(2, nan, b(3.0)));
    assert!(nsdb.upsert_queue_level(3, 4, b(3.0)));
    assert!(!nsdb.upsert_queue_level(3, 4, b(4.0)));
    let levels = nsdb.queue_levels_snapshot();
    assert_eq!(levels.len(), 1);
    assert_eq!(levels.get(3), Some(&4));
    assert_eq!(nsdb.fast_state_snapshot().len(), 2);
    assert!(nsdb.remove(2));
    assert!(!nsdb.remove(2));
}

#[test]
fn lsdb_replaces_only_on_a_greater_sequence_number() {
    let mut lsdb = LinkStateDb::default();
    assert!(lsdb.upsert(7, 5, links(&[(1, 1.0)]), b(0.0)));
    // Not greater: never replaced.
    assert!(!lsdb.upsert(7, 5, links(&[(2, 2.0)]), b(1.0)));
    assert!(!lsdb.upsert(7, 4, links(&[(2, 2.0)]), b(1.0)));
    assert!(!lsdb.upsert(7, i64::MIN, links(&[]), b(1.0)));
    let held = lsdb.get(7).expect("record");
    assert_eq!((held.seq, held.learned_at), (5, b(0.0)));
    assert_eq!(held.links.get(1), Some(&b(1.0)));
    // Greater: always replaced.
    assert!(lsdb.upsert(7, 6, links(&[(2, 2.0)]), b(2.0)));
    let held = lsdb.get(7).expect("record");
    assert_eq!((held.seq, held.learned_at), (6, b(2.0)));
    assert_eq!(held.links.get(1), None);
    assert!(lsdb.upsert(3, -9, links(&[]), b(2.0)));
    let ids: Vec<u32> = lsdb.records().iter().map(|r| r.router_id).collect();
    assert_eq!(ids, vec![3, 7]);
    assert!(!lsdb.age_out(&[]));
    assert!(!lsdb.age_out(&[9]));
    assert!(lsdb.age_out(&[3, 9, 3]));
    assert_eq!(lsdb.len(), 1);
}

#[test]
fn neighbor_table_tracks_liveness() {
    let mut table = NeighborTable::new(vec![
        neighbor(3, false, None),
        neighbor(2, true, Some(1.0)),
        neighbor(3, false, Some(0.5)),
        neighbor(5, true, None),
    ]);
    assert_eq!(table.len(), 3);
    assert_eq!(table.get(3).and_then(|n| n.last_seen), Some(b(0.5)));
    assert!(table.mark_seen(3, b(2.0)));
    assert!(!table.mark_seen(3, b(3.0)));
    assert!(!table.mark_seen(9, b(3.0)));
    assert_eq!(table.get(3).map(|n| (n.is_up, n.last_seen)), Some((true, Some(b(3.0)))));
    let mut alive = IdMap::new();
    alive.insert(2, false);
    alive.insert(3, true);
    // Never heard: keeps its liveness whatever the flag says.
    alive.insert(5, false);
    alive.insert(8, true);
    assert_eq!(table.refresh_liveness(&alive), vec![2]);
    assert_eq!(table.get(2).map(|n| n.is_up), Some(false));
    assert_eq!(table.get(5).map(|n| n.is_up), Some(true));
    assert!(table.refresh_liveness(&alive).is_empty());
    let ids: Vec<u32> = table.iter().iter().map(|(id, _)| *id).collect();
    assert_eq!(ids, vec![2, 3, 5]);
}
