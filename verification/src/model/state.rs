//! Control-plane state: the neighbour table, the link-state database and
//! the database of fast neighbour state.
//!
//! Times and costs are carried as bit patterns of double-precision numbers
//! (see [`crate::model::metric`]); this module stores them and never
//! computes with them. Whether a record has aged is decided by the caller
//! and handed in.

use vstd::prelude::*;
use crate::id_map::{ids_sorted, map_of, IdMap};
use crate::model::metric::{bits_eq, num_eq};

verus! {

/// A configured neighbour and what is known of its liveness.
#[derive(Debug, Clone)]
pub struct NeighborInfo {
    pub router_id: u32,
    pub address: String,
    pub port: u16,
    pub cost: u64,
    pub interface_name: Option<String>,
    pub last_seen: Option<u64>,
    pub is_up: bool,
}

impl NeighborInfo {
    /// A copy of the record.
    pub fn duplicate(&self) -> (r: Self)
        ensures
            r == *self,
    {
        Self {
            router_id: self.router_id,
            address: self.address.clone(),
            port: self.port,
            cost: self.cost,
            interface_name: self.interface_name.clone(),
            last_seen: self.last_seen,
            is_up: self.is_up,
        }
    }

    /// The record after the neighbour was heard at `now`.
    pub open spec fn seen_at(self, now: u64) -> NeighborInfo {
        NeighborInfo { last_seen: Some(now), is_up: true, ..self }
    }

    /// The record with its liveness set to `alive`.
    pub open spec fn with_liveness(self, alive: bool) -> NeighborInfo {
        NeighborInfo { is_up: alive, ..self }
    }
}

/// The neighbours of this router by router id.
#[derive(Debug)]
pub struct NeighborTable {
    neighbors: IdMap<NeighborInfo>,
}

/// The map that the first `n` of `neighbors` give by router id, a later
/// record replacing an earlier one with the same id.
pub open spec fn neighbors_by_id(neighbors: Seq<NeighborInfo>, n: int) -> Map<u32, NeighborInfo>
    decreases n,
{
    if n <= 0 {
        Map::empty()
    } else {
        neighbors_by_id(neighbors, n - 1).insert(neighbors[n - 1].router_id, neighbors[n - 1])
    }
}

/// The liveness that `flags` asks for the neighbour `info`: a neighbour that
/// was never heard, or for which there is no flag, keeps its liveness.
pub open spec fn liveness_after(info: NeighborInfo, flags: Map<u32, bool>, id: u32) -> bool {
    if info.last_seen is Some && flags.contains_key(id) {
        flags[id]
    } else {
        info.is_up
    }
}

impl View for NeighborTable {
    type V = Seq<(u32, NeighborInfo)>;

    /// The neighbours in ascending order of their ids.
    closed spec fn view(&self) -> Seq<(u32, NeighborInfo)> {
        self.neighbors@
    }
}

impl Default for NeighborTable {
    fn default() -> (t: NeighborTable)
        ensures
            t@ == Seq::<(u32, NeighborInfo)>::empty(),
    {
        NeighborTable { neighbors: IdMap::new() }
    }
}

impl NeighborTable {
    /// The neighbours as a map from router id to record.
    pub open spec fn spec_map(&self) -> Map<u32, NeighborInfo> {
        map_of(self@)
    }

    /// The table of `neighbors`, each under its router id.
    pub fn new(neighbors: Vec<NeighborInfo>) -> (t: Self)
        ensures
            t.spec_map() == neighbors_by_id(neighbors@, neighbors@.len() as int),
    {
        let mut map: IdMap<NeighborInfo> = IdMap::new();
        let mut i: usize = 0;
        while i < neighbors.len()
            invariant
                i <= neighbors@.len(),
                map.spec_map() == neighbors_by_id(neighbors@, i as int),
            decreases neighbors.len() - i,
        {
            map.insert(neighbors[i].router_id, neighbors[i].duplicate());
            i += 1;
        }
        NeighborTable { neighbors: map }
    }

    /// Records that `router_id` was heard at `now`: it is up from now on.
    /// Tells whether it was down before; an unknown router changes nothing.
    pub fn mark_seen(&mut self, router_id: u32, now: u64) -> (came_up: bool)
        ensures
            ids_sorted(final(self)@),
            old(self).spec_map().contains_key(router_id) ==> final(self).spec_map() == old(self).spec_map().insert(router_id, old(self).spec_map()[router_id].seen_at(now))
                && came_up == !old(self).spec_map()[router_id].is_up,
            !old(self).spec_map().contains_key(router_id) ==> final(self)@ == old(self)@
                && !came_up,
    {
        let (i, found) = self.neighbors.find(router_id);
        if !found {
            return false;
        }
        let current = self.neighbors.value_at(i);
        let was_up = current.is_up;
        let updated = NeighborInfo {
            router_id: current.router_id,
            address: current.address.clone(),
            port: current.port,
            cost: current.cost,
            interface_name: current.interface_name.clone(),
            last_seen: Some(now),
            is_up: true,
        };
        self.neighbors.set_value_at(i, updated);
        !was_up
    }

    /// Sets the liveness of each neighbour that was ever heard to the flag
    /// that `alive` holds for it, and lists, in ascending order, the
    /// neighbours whose liveness changed.
    pub fn refresh_liveness(&mut self, alive: &IdMap<bool>) -> (changed: Vec<u32>)
        ensures
            final(self)@.len() == old(self)@.len(),
            forall|i: int|
                0 <= i < old(self)@.len() ==> (#[trigger] final(self)@[i]).0 == old(self)@[i].0
                    && final(self)@[i].1 == old(self)@[i].1.with_liveness(
                    liveness_after(old(self)@[i].1, alive.spec_map(), old(self)@[i].0),
                ),
            forall|id: u32|
                changed@.contains(id) <==> exists|i: int|
                    0 <= i < old(self)@.len() && (#[trigger] old(self)@[i]).0 == id
                        && liveness_after(old(self)@[i].1, alive.spec_map(), id) != old(self)@[i].1.is_up,
            forall|a: int, b: int|
                0 <= a < b < changed@.len() ==> #[trigger] changed@[a] < #[trigger] changed@[b],
    {
        let mut changed: Vec<u32> = Vec::new();
        let n = self.neighbors.len();
        let mut i: usize = 0;
        while i < n
            invariant
                i <= n,
                n == old(self)@.len(),
                self@.len() == n,
                ids_sorted(old(self)@),
                forall|j: int| 0 <= j < n ==> (#[trigger] self@[j]).0 == old(self)@[j].0,
                forall|j: int|
                    0 <= j < i ==> (#[trigger] self@[j]).1 == old(self)@[j].1.with_liveness(
                        liveness_after(old(self)@[j].1, alive.spec_map(), old(self)@[j].0),
                    ),
                forall|j: int| i <= j < n ==> (#[trigger] self@[j]).1 == old(self)@[j].1,
                forall|id: u32|
                    changed@.contains(id) <==> exists|j: int|
                        0 <= j < i && (#[trigger] old(self)@[j]).0 == id && liveness_after(
                            old(self)@[j].1,
                            alive.spec_map(),
                            id,
                        ) != old(self)@[j].1.is_up,
                forall|a: int| 0 <= a < changed@.len() ==> exists|j: int|
                    0 <= j < i && #[trigger] changed@[a] == (#[trigger] old(self)@[j]).0,
                forall|a: int, b: int|
                    0 <= a < b < changed@.len() ==> #[trigger] changed@[a] < #[trigger] changed@[b],
            decreases n - i,
        {
            let id = self.neighbors.key_at(i);
            let current = self.neighbors.value_at(i);
            let ghost before_changed = changed@;
            let mut flipped = false;
            if current.last_seen.is_some() {
                if let Some(flag) = alive.get(id) {
                    if *flag != current.is_up {
                        let updated = NeighborInfo {
                            router_id: current.router_id,
                            address: current.address.clone(),
                            port: current.port,
                            cost: current.cost,
                            interface_name: current.interface_name.clone(),
                            last_seen: current.last_seen,
                            is_up: *flag,
                        };
                        self.neighbors.set_value_at(i, updated);
                        proof {
                            assert forall|a: int| 0 <= a < changed@.len() implies #[trigger] changed@[a]
                                < id by {
                                let j = choose|j: int|
                                    0 <= j < i && changed@[a] == (#[trigger] old(self)@[j]).0;
                                assert(old(self)@[j].0 < old(self)@[i as int].0);
                            }
                        }
                        changed.push(id);
                        flipped = true;
                    }
                }
            }
            proof {
                assert(flipped == (liveness_after(old(self)@[i as int].1, alive.spec_map(), id)
                    != old(self)@[i as int].1.is_up));
                assert forall|x: u32|
                    changed@.contains(x) <==> exists|j: int|
                        0 <= j < i + 1 && (#[trigger] old(self)@[j]).0 == x && liveness_after(
                            old(self)@[j].1,
                            alive.spec_map(),
                            x,
                        ) != old(self)@[j].1.is_up by {
                    if flipped {
                        assert(changed@ =~= before_changed.push(id));
                        assert(changed@[changed@.len() - 1] == id);
                        if before_changed.contains(x) {
                            let a = choose|a: int| 0 <= a < before_changed.len() && before_changed[a] == x;
                            assert(changed@[a] == x);
                        }
                        if changed@.contains(x) && x != id {
                            let a = choose|a: int| 0 <= a < changed@.len() && changed@[a] == x;
                            assert(before_changed[a] == x);
                        }
                    }
                    if exists|j: int|
                        0 <= j < i + 1 && (#[trigger] old(self)@[j]).0 == x && liveness_after(
                            old(self)@[j].1,
                            alive.spec_map(),
                            x,
                        ) != old(self)@[j].1.is_up {
                        let j = choose|j: int|
                            0 <= j < i + 1 && (#[trigger] old(self)@[j]).0 == x && liveness_after(
                                old(self)@[j].1,
                                alive.spec_map(),
                                x,
                            ) != old(self)@[j].1.is_up;
                        if j < i {
                            assert(before_changed.contains(x));
                        }
                    }
                }
                assert forall|a: int| 0 <= a < changed@.len() implies exists|j: int|
                    0 <= j < i + 1 && #[trigger] changed@[a] == (#[trigger] old(self)@[j]).0 by {
                    if a < before_changed.len() {
                        let j = choose|j: int|
                            0 <= j < i && before_changed[a] == (#[trigger] old(self)@[j]).0;
                        assert(changed@[a] == old(self)@[j].0);
                    } else {
                        assert(changed@[a] == old(self)@[i as int].0);
                    }
                }
            }
            i += 1;
        }
        changed
    }

    /// The record of `router_id`.
    pub fn get(&self, router_id: u32) -> (r: Option<&NeighborInfo>)
        ensures
            match r {
                Some(info) => self.spec_map().contains_key(router_id) && self.spec_map()[router_id]
                    == *info,
                None => !self.spec_map().contains_key(router_id),
            },
    {
        self.neighbors.get(router_id)
    }

    /// The number of neighbours.
    pub fn len(&self) -> (n: usize)
        ensures
            n == self@.len(),
            ids_sorted(self@),
    {
        self.neighbors.len()
    }

    /// The neighbours in ascending order of their ids.
    pub fn iter(&self) -> (r: Vec<(u32, NeighborInfo)>)
        ensures
            r@ == self@,
    {
        let mut out: Vec<(u32, NeighborInfo)> = Vec::new();
        let n = self.neighbors.len();
        let mut i: usize = 0;
        while i < n
            invariant
                i <= n,
                n == self.neighbors@.len(),
                out@ == self.neighbors@.take(i as int),
            decreases n - i,
        {
            out.push((self.neighbors.key_at(i), self.neighbors.value_at(i).duplicate()));
            assert(self.neighbors@.take(i + 1) =~= self.neighbors@.take(i as int).push(
                self.neighbors@[i as int],
            ));
            i += 1;
        }
        assert(self.neighbors@.take(n as int) =~= self.neighbors@);
        out
    }
}

/// The link state that a router originated, as last learned.
#[derive(Debug, Clone)]
pub struct LinkStateRecord {
    pub router_id: u32,
    pub seq: i64,
    pub links: IdMap<u64>,
    pub learned_at: u64,
}

impl LinkStateRecord {
    /// A copy of the record.
    pub fn duplicate(&self) -> (r: Self)
        ensures
            r.router_id == self.router_id,
            r.seq == self.seq,
            r.links@ == self.links@,
            r.learned_at == self.learned_at,
    {
        Self {
            router_id: self.router_id,
            seq: self.seq,
            links: self.links.duplicate(),
            learned_at: self.learned_at,
        }
    }
}

/// The link-state database: the latest record of each originator.
#[derive(Debug)]
pub struct LinkStateDb {
    records: IdMap<LinkStateRecord>,
}

impl View for LinkStateDb {
    type V = Seq<(u32, LinkStateRecord)>;

    /// The records in ascending order of their originators.
    closed spec fn view(&self) -> Seq<(u32, LinkStateRecord)> {
        self.records@
    }
}

impl Default for LinkStateDb {
    fn default() -> (db: LinkStateDb)
        ensures
            db@ == Seq::<(u32, LinkStateRecord)>::empty(),
    {
        LinkStateDb { records: IdMap::new() }
    }
}

impl LinkStateDb {
    /// The records by originator.
    pub open spec fn spec_map(&self) -> Map<u32, LinkStateRecord> {
        map_of(self@)
    }

    /// Whether an advertisement of `router_id` with the sequence number
    /// `seq` replaces what the database holds: there is no record of that
    /// originator, or `seq` is greater than the sequence number held.
    pub open spec fn spec_accepts(&self, router_id: u32, seq: i64) -> bool {
        !self.spec_map().contains_key(router_id) || seq > self.spec_map()[router_id].seq
    }

    /// Stores the advertisement if it is newer than what is held, and tells
    /// whether it did. An advertisement whose sequence number is not greater
    /// than the one held changes nothing.
    pub fn upsert(&mut self, router_id: u32, seq: i64, links: IdMap<u64>, now: u64) -> (stored: bool)
        ensures
            stored == old(self).spec_accepts(router_id, seq),
            stored ==> final(self).spec_map() == old(self).spec_map().insert(
                router_id,
                LinkStateRecord { router_id, seq, links, learned_at: now },
            ),
            !stored ==> final(self)@ == old(self)@,
            ids_sorted(final(self)@),
    {
        if let Some(current) = self.records.get(router_id) {
            if seq <= current.seq {
                return false;
            }
        }
        self.records.insert(router_id, LinkStateRecord { router_id, seq, links, learned_at: now });
        true
    }

    /// The number of records.
    pub fn len(&self) -> (n: usize)
        ensures
            n == self@.len(),
            ids_sorted(self@),
    {
        self.records.len()
    }

    /// Each originator with the links of its record, in ascending order of
    /// the originators.
    pub fn entries(&self) -> (r: Vec<(u32, IdMap<u64>)>)
        ensures
            r@.len() == self@.len(),
            ids_sorted(self@),
            forall|i: int|
                0 <= i < r@.len() ==> (#[trigger] r@[i]).0 == self@[i].0 && r@[i].1@
                    == self@[i].1.links@,
    {
        let mut out: Vec<(u32, IdMap<u64>)> = Vec::new();
        let n = self.records.len();
        let mut i: usize = 0;
        while i < n
            invariant
                i <= n,
                n == self.records@.len(),
                out@.len() == i,
                forall|j: int|
                    0 <= j < i ==> (#[trigger] out@[j]).0 == self.records@[j].0 && out@[j].1@
                        == self.records@[j].1.links@,
            decreases n - i,
        {
            out.push((self.records.key_at(i), self.records.value_at(i).links.duplicate()));
            i += 1;
        }
        out
    }

    /// The records in ascending order of their originators.
    pub fn records(&self) -> (r: Vec<LinkStateRecord>)
        ensures
            r@.len() == self@.len(),
            forall|i: int|
                0 <= i < r@.len() ==> (#[trigger] r@[i]).router_id == self@[i].1.router_id
                    && r@[i].seq == self@[i].1.seq && r@[i].links@ == self@[i].1.links@
                    && r@[i].learned_at == self@[i].1.learned_at,
    {
        let mut out: Vec<LinkStateRecord> = Vec::new();
        let n = self.records.len();
        let mut i: usize = 0;
        while i < n
            invariant
                i <= n,
                n == self.records@.len(),
                out@.len() == i,
                forall|j: int|
                    0 <= j < i ==> (#[trigger] out@[j]).router_id == self.records@[j].1.router_id
                        && out@[j].seq == self.records@[j].1.seq && out@[j].links@
                        == self.records@[j].1.links@ && out@[j].learned_at
                        == self.records@[j].1.learned_at,
            decreases n - i,
        {
            out.push(self.records.value_at(i).duplicate());
            i += 1;
        }
        out
    }

    /// The record of `router_id`.
    pub fn get(&self, router_id: u32) -> (r: Option<&LinkStateRecord>)
        ensures
            match r {
                Some(rec) => self.spec_map().contains_key(router_id) && self.spec_map()[router_id]
                    == *rec,
                None => !self.spec_map().contains_key(router_id),
            },
    {
        self.records.get(router_id)
    }

    /// Removes the records of the originators `expired`, which the caller
    /// found to be older than the maximum age, and tells whether a record
    /// was removed.
    pub fn age_out(&mut self, expired: &[u32]) -> (changed: bool)
        ensures
            final(self).spec_map() == old(self).spec_map().remove_keys(expired@.to_set()),
            changed == (final(self)@.len() != old(self)@.len()),
            ids_sorted(old(self)@),
            ids_sorted(final(self)@),
    {
        self.records.remove_all(expired)
    }
}

/// Fast state that a neighbour reported about itself; each figure is a bit
/// pattern of a double-precision number.
#[derive(Debug, Clone, Copy, PartialEq)]
pub struct NeighborFastState {
    pub queue_level: Option<usize>,
    pub interface_utilization: Option<u64>,
    pub delay_ms: Option<u64>,
    pub loss_rate: Option<u64>,
}

/// A partial report: only the figures that are present are applied.
#[derive(Debug, Clone, Copy, PartialEq)]
pub struct NeighborFastStatePatch {
    pub queue_level: Option<usize>,
    pub interface_utilization: Option<u64>,
    pub delay_ms: Option<u64>,
    pub loss_rate: Option<u64>,
}

/// The fast state of a neighbour and when it was learned.
#[derive(Debug, Clone, Copy)]
pub struct NeighborStateRecord {
    pub router_id: u32,
    pub state: NeighborFastState,
    pub learned_at: u64,
}

impl Default for NeighborFastState {
    fn default() -> (s: NeighborFastState)
        ensures
            s == (NeighborFastState {
                queue_level: None,
                interface_utilization: None,
                delay_ms: None,
                loss_rate: None,
            }),
    {
        NeighborFastState {
            queue_level: None,
            interface_utilization: None,
            delay_ms: None,
            loss_rate: None,
        }
    }
}

impl Default for NeighborFastStatePatch {
    fn default() -> (s: NeighborFastStatePatch)
        ensures
            s == (NeighborFastStatePatch {
                queue_level: None,
                interface_utilization: None,
                delay_ms: None,
                loss_rate: None,
            }),
    {
        NeighborFastStatePatch {
            queue_level: None,
            interface_utilization: None,
            delay_ms: None,
            loss_rate: None,
        }
    }
}

/// Whether the figure `incoming` changes the level held in `slot`.
pub open spec fn level_changes(slot: Option<usize>, incoming: Option<usize>) -> bool {
    incoming is Some && slot != incoming
}

/// Whether the figure `incoming` changes the number held in `slot`; numbers
/// are compared as numbers.
pub open spec fn number_changes(slot: Option<u64>, incoming: Option<u64>) -> bool {
    match incoming {
        None => false,
        Some(v) => match slot {
            Some(w) => !num_eq(w, v),
            None => true,
        },
    }
}

impl NeighborFastStatePatch {
    /// Whether the patch carries no figure.
    pub open spec fn spec_is_empty(&self) -> bool {
        self.queue_level is None && self.interface_utilization is None && self.delay_ms is None
            && self.loss_rate is None
    }

    /// Whether the patch carries no figure.
    pub fn is_empty(&self) -> (r: bool)
        ensures
            r == self.spec_is_empty(),
    {
        self.queue_level.is_none() && self.interface_utilization.is_none()
            && self.delay_ms.is_none() && self.loss_rate.is_none()
    }

    /// Whether the patch changes some figure of `state`.
    pub open spec fn changes(&self, state: NeighborFastState) -> bool {
        level_changes(state.queue_level, self.queue_level) || number_changes(
            state.interface_utilization,
            self.interface_utilization,
        ) || number_changes(state.delay_ms, self.delay_ms) || number_changes(
            state.loss_rate,
            self.loss_rate,
        )
    }

    /// `state` with every figure replaced that the patch changes.
    pub open spec fn applied_to(&self, state: NeighborFastState) -> NeighborFastState {
        NeighborFastState {
            queue_level: if level_changes(state.queue_level, self.queue_level) {
                self.queue_level
            } else {
                state.queue_level
            },
            interface_utilization: if number_changes(
                state.interface_utilization,
                self.interface_utilization,
            ) {
                self.interface_utilization
            } else {
                state.interface_utilization
            },
            delay_ms: if number_changes(state.delay_ms, self.delay_ms) {
                self.delay_ms
            } else {
                state.delay_ms
            },
            loss_rate: if number_changes(state.loss_rate, self.loss_rate) {
                self.loss_rate
            } else {
                state.loss_rate
            },
        }
    }

    /// The state that the patch spells on its own.
    pub open spec fn as_state(&self) -> NeighborFastState {
        NeighborFastState {
            queue_level: self.queue_level,
            interface_utilization: self.interface_utilization,
            delay_ms: self.delay_ms,
            loss_rate: self.loss_rate,
        }
    }
}

/// Puts the level `incoming` into `slot` if it is present and differs;
/// tells whether it did.
pub fn apply_optional(slot: &mut Option<usize>, incoming: Option<usize>) -> (changed: bool)
    ensures
        changed == level_changes(*old(slot), incoming),
        *final(slot) == (if changed {
            incoming
        } else {
            *old(slot)
        }),
{
    match incoming {
        None => false,
        Some(value) => {
            if let Some(held) = *slot {
                if held == value {
                    return false;
                }
            }
            *slot = Some(value);
            true
        },
    }
}

/// Puts the number `incoming` into `slot` if it is present and differs as a
/// number; tells whether it did.
pub fn apply_optional_number(slot: &mut Option<u64>, incoming: Option<u64>) -> (changed: bool)
    ensures
        changed == number_changes(*old(slot), incoming),
        *final(slot) == (if changed {
            incoming
        } else {
            *old(slot)
        }),
{
    match incoming {
        None => false,
        Some(value) => {
            if let Some(held) = *slot {
                if bits_eq(held, value) {
                    return false;
                }
            }
            *slot = Some(value);
            true
        },
    }
}

/// The database of fast neighbour state.
#[derive(Debug)]
pub struct NeighborStateDb {
    records: IdMap<NeighborStateRecord>,
}

impl View for NeighborStateDb {
    type V = Seq<(u32, NeighborStateRecord)>;

    /// The records in ascending order of their routers.
    closed spec fn view(&self) -> Seq<(u32, NeighborStateRecord)> {
        self.records@
    }
}

impl Default for NeighborStateDb {
    fn default() -> (db: NeighborStateDb)
        ensures
            db@ == Seq::<(u32, NeighborStateRecord)>::empty(),
    {
        NeighborStateDb { records: IdMap::new() }
    }
}

impl NeighborStateDb {
    /// The records by router.
    pub open spec fn spec_map(&self) -> Map<u32, NeighborStateRecord> {
        map_of(self@)
    }

    /// Merges `patch` into the state of `router_id` at `now`. An empty patch
    /// changes nothing. Otherwise the record is stamped with `now`; each
    /// figure that the patch carries replaces the one held if it differs,
    /// and a router without a record gets one. Tells whether a figure
    /// changed or a record was made.
    pub fn upsert_fast_state(&mut self, router_id: u32, patch: NeighborFastStatePatch, now: u64) -> (changed: bool)
        ensures
            ids_sorted(final(self)@),
            patch.spec_is_empty() ==> !changed && final(self)@ == old(self)@,
            !patch.spec_is_empty() && old(self).spec_map().contains_key(router_id) ==> changed
                == patch.changes(old(self).spec_map()[router_id].state) && final(self).spec_map()
                == old(self).spec_map().insert(
                router_id,
                NeighborStateRecord {
                    router_id: old(self).spec_map()[router_id].router_id,
                    state: patch.applied_to(old(self).spec_map()[router_id].state),
                    learned_at: now,
                },
            ),
            !patch.spec_is_empty() && !old(self).spec_map().contains_key(router_id) ==> changed
                && final(self).spec_map() == old(self).spec_map().insert(
                router_id,
                NeighborStateRecord { router_id, state: patch.as_state(), learned_at: now },
            ),
    {
        if patch.is_empty() {
            let n = self.records.len();
            return false;
        }
        let (i, found) = self.records.find(router_id);
        if found {
            let held = self.records.value_at(i);
            let mut state = held.state;
            let mut changed = false;
            let c1 = apply_optional(&mut state.queue_level, patch.queue_level);
            let c2 = apply_optional_number(
                &mut state.interface_utilization,
                patch.interface_utilization,
            );
            let c3 = apply_optional_number(&mut state.delay_ms, patch.delay_ms);
            let c4 = apply_optional_number(&mut state.loss_rate, patch.loss_rate);
            changed = c1 || c2 || c3 || c4;
            let record = NeighborStateRecord { router_id: held.router_id, state, learned_at: now };
            self.records.set_value_at(i, record);
            return changed;
        }
        let state = NeighborFastState {
            queue_level: patch.queue_level,
            interface_utilization: patch.interface_utilization,
            delay_ms: patch.delay_ms,
            loss_rate: patch.loss_rate,
        };
        self.records.insert(router_id, NeighborStateRecord { router_id, state, learned_at: now });
        true
    }

    /// Merges a queue level into the state of `router_id` at `now`.
    pub fn upsert_queue_level(&mut self, router_id: u32, queue_level: usize, now: u64) -> (changed: bool)
        ensures
            ids_sorted(final(self)@),
            old(self).spec_map().contains_key(router_id) ==> changed == (old(self).spec_map()[router_id].state.queue_level != Some(queue_level)) && final(self).spec_map() == old(self).spec_map().insert(
                router_id,
                NeighborStateRecord {
                    router_id: old(self).spec_map()[router_id].router_id,
                    state: NeighborFastState {
                        queue_level: Some(queue_level),
                        ..old(self).spec_map()[router_id].state
                    },
                    learned_at: now,
                },
            ),
            !old(self).spec_map().contains_key(router_id) ==> changed && final(self).spec_map()
                == old(self).spec_map().insert(
                router_id,
                NeighborStateRecord {
                    router_id,
                    state: NeighborFastState {
                        queue_level: Some(queue_level),
                        interface_utilization: None,
                        delay_ms: None,
                        loss_rate: None,
                    },
                    learned_at: now,
                },
            ),
    {
        self.upsert_fast_state(
            router_id,
            NeighborFastStatePatch {
                queue_level: Some(queue_level),
                interface_utilization: None,
                delay_ms: None,
                loss_rate: None,
            },
            now,
        )
    }

    /// The record of `router_id`, whatever its age.
    pub fn get(&self, router_id: u32) -> (r: Option<&NeighborStateRecord>)
        ensures
            match r {
                Some(rec) => self.spec_map().contains_key(router_id) && self.spec_map()[router_id]
                    == *rec,
                None => !self.spec_map().contains_key(router_id),
            },
    {
        self.records.get(router_id)
    }

    /// The state of `router_id` if it has a record and the caller found it
    /// fresh.
    pub fn get_state_fresh(&self, router_id: u32, fresh: bool) -> (r: Option<&NeighborFastState>)
        ensures
            match r {
                Some(s) => fresh && self.spec_map().contains_key(router_id)
                    && self.spec_map()[router_id].state == *s,
                None => !fresh || !self.spec_map().contains_key(router_id),
            },
    {
        match self.records.get(router_id) {
            Some(record) => if fresh {
                Some(&record.state)
            } else {
                None
            },
            None => None,
        }
    }

    /// The queue level of `router_id` if it has reported one and the caller
    /// found its record fresh.
    pub fn get_queue_level_fresh(&self, router_id: u32, fresh: bool) -> (r: Option<usize>)
        ensures
            r == (if fresh && self.spec_map().contains_key(router_id) {
                self.spec_map()[router_id].state.queue_level
            } else {
                None
            }),
    {
        match self.get_state_fresh(router_id, fresh) {
            Some(state) => state.queue_level,
            None => None,
        }
    }

    /// Removes the records of the routers `expired`, which the caller found
    /// to be older than the maximum age, and tells whether a record was
    /// removed.
    pub fn age_out(&mut self, expired: &[u32]) -> (changed: bool)
        ensures
            final(self).spec_map() == old(self).spec_map().remove_keys(expired@.to_set()),
            changed == (final(self)@.len() != old(self)@.len()),
            ids_sorted(final(self)@),
    {
        self.records.remove_all(expired)
    }

    /// Removes the record of `router_id`; tells whether there was one.
    pub fn remove(&mut self, router_id: u32) -> (removed: bool)
        ensures
            removed == old(self).spec_map().contains_key(router_id),
            final(self).spec_map() == old(self).spec_map().remove(router_id),
            ids_sorted(final(self)@),
    {
        self.records.remove(router_id).is_some()
    }

    /// The records in ascending order of their routers.
    pub fn records(&self) -> (r: Vec<NeighborStateRecord>)
        ensures
            r@.len() == self@.len(),
            forall|i: int| 0 <= i < r@.len() ==> #[trigger] r@[i] == self@[i].1,
    {
        let mut out: Vec<NeighborStateRecord> = Vec::new();
        let n = self.records.len();
        let mut i: usize = 0;
        while i < n
            invariant
                i <= n,
                n == self.records@.len(),
                out@.len() == i,
                forall|j: int| 0 <= j < i ==> #[trigger] out@[j] == self.records@[j].1,
            decreases n - i,
        {
            out.push(*self.records.value_at(i));
            i += 1;
        }
        out
    }

    /// The queue level of every router that has reported one.
    pub fn queue_levels_snapshot(&self) -> (r: IdMap<usize>)
        ensures
            forall|id: u32|
                #[trigger] r.spec_map().contains_key(id) <==> self.spec_map().contains_key(id)
                    && self.spec_map()[id].state.queue_level is Some,
            forall|id: u32|
                r.spec_map().contains_key(id) ==> Some(#[trigger] r.spec_map()[id])
                    == self.spec_map()[id].state.queue_level,
    {
        let mut out: IdMap<usize> = IdMap::new();
        let n = self.records.len();
        let mut i: usize = 0;
        while i < n
            invariant
                i <= n,
                n == self.records@.len(),
                ids_sorted(self.records@),
                forall|id: u32|
                    #[trigger] out.spec_map().contains_key(id) <==> exists|j: int|
                        0 <= j < i && (#[trigger] self.records@[j]).0 == id
                            && self.records@[j].1.state.queue_level is Some,
                forall|id: u32|
                    out.spec_map().contains_key(id) ==> self.spec_map().contains_key(id) && Some(
                        #[trigger] out.spec_map()[id],
                    ) == self.spec_map()[id].state.queue_level,
            decreases n - i,
        {
            let id = self.records.key_at(i);
            let record = self.records.value_at(i);
            if let Some(level) = record.state.queue_level {
                out.insert(id, level);
            }
            i += 1;
        }
        proof {
            assert forall|id: u32|
                #[trigger] out.spec_map().contains_key(id) <==> self.spec_map().contains_key(id)
                    && self.spec_map()[id].state.queue_level is Some by {
                if self.spec_map().contains_key(id) {
                    let j = choose|j: int|
                        0 <= j < self.records@.len() && (#[trigger] self.records@[j]).0 == id;
                    crate::id_map::lemma_find_at(self.records@, j);
                }
                if out.spec_map().contains_key(id) {
                    let j = choose|j: int|
                        0 <= j < n && (#[trigger] self.records@[j]).0 == id
                            && self.records@[j].1.state.queue_level is Some;
                    crate::id_map::lemma_find_at(self.records@, j);
                }
            }
        }
        out
    }

    /// The fast state of every router that has a record.
    pub fn fast_state_snapshot(&self) -> (r: IdMap<NeighborFastState>)
        ensures
            r@.len() == self@.len(),
            forall|i: int|
                0 <= i < r@.len() ==> (#[trigger] r@[i]).0 == self@[i].0 && r@[i].1
                    == self@[i].1.state,
    {
        let mut out: IdMap<NeighborFastState> = IdMap::new();
        let n = self.records.len();
        let mut i: usize = 0;
        while i < n
            invariant
                i <= n,
                n == self.records@.len(),
                ids_sorted(self.records@),
                out@.len() == i,
                forall|j: int|
                    0 <= j < i ==> (#[trigger] out@[j]).0 == self.records@[j].0 && out@[j].1
                        == self.records@[j].1.state,
            decreases n - i,
        {
            let id = self.records.key_at(i);
            let state = self.records.value_at(i).state;
            let ghost before = out@;
            proof {
                assert forall|j: int| 0 <= j < before.len() implies (#[trigger] before[j]).0 < id by {
                    assert(self.records@[j].0 < self.records@[i as int].0);
                }
                crate::id_map::lemma_absent_id(before, i as int, id);
            }
            out.append_greatest(id, state);
            i += 1;
        }
        out
    }
}

} // verus!
