//! Sizes, statistics and the bookkeeping base shared by all queueing disciplines.

use vstd::prelude::*;
use crate::text::{parse_trimmed_unsigned, parsed_unsigned, trimmed};
use crate::text_map::{bumped, count_in, has_key, keys_sorted, lemma_lookup_at, TextMap};

verus! {

/// The unit in which a queue size is counted.
#[derive(Debug, Clone, Copy, PartialEq, Eq, Structural)]
pub enum QueueSizeUnit {
    Packets,
    Bytes,
}

/// A queue size: a number of packets or of bytes.
#[derive(Debug, Clone, Copy, PartialEq, Eq, Structural)]
pub struct QueueSize {
    pub unit: QueueSizeUnit,
    pub value: u64,
}

impl QueueSize {
    /// `value` packets.
    pub fn packets(value: u64) -> (r: Self)
        ensures
            r == (QueueSize { unit: QueueSizeUnit::Packets, value }),
    {
        Self { unit: QueueSizeUnit::Packets, value }
    }

    /// `value` bytes.
    pub fn bytes(value: u64) -> (r: Self)
        ensures
            r == (QueueSize { unit: QueueSizeUnit::Bytes, value }),
    {
        Self { unit: QueueSizeUnit::Bytes, value }
    }
}

/// Where a discipline keeps its packets, and hence what its size limit bounds.
#[derive(Debug, Clone, Copy, PartialEq, Eq, Structural)]
pub enum QueueDiscSizePolicy {
    SingleInternalQueue,
    SingleChildQueueDisc,
    MultipleQueues,
    NoLimits,
}

/// Whether a packet was dropped before it was queued or after it was taken out.
#[derive(Debug, Clone, Copy, PartialEq, Eq, Structural)]
pub enum QueueDropPhase {
    BeforeEnqueue,
    AfterDequeue,
}

/// Counters of a queueing discipline: totals, and drops and marks by reason.
#[derive(Debug, Clone, PartialEq, Eq)]
pub struct QueueDiscStats {
    pub n_total_received_packets: u64,
    pub n_total_received_bytes: u64,
    pub n_total_enqueued_packets: u64,
    pub n_total_enqueued_bytes: u64,
    pub n_total_dequeued_packets: u64,
    pub n_total_dequeued_bytes: u64,
    pub n_total_requeued_packets: u64,
    pub n_total_requeued_bytes: u64,
    pub n_total_dropped_packets_before_enqueue: u64,
    pub n_total_dropped_packets_after_dequeue: u64,
    pub n_total_dropped_bytes_before_enqueue: u64,
    pub n_total_dropped_bytes_after_dequeue: u64,
    pub n_total_marked_packets: u64,
    pub n_total_marked_bytes: u64,
    pub dropped_packets_before_enqueue: TextMap<u64>,
    pub dropped_packets_after_dequeue: TextMap<u64>,
    pub dropped_bytes_before_enqueue: TextMap<u64>,
    pub dropped_bytes_after_dequeue: TextMap<u64>,
    pub marked_packets: TextMap<u64>,
    pub marked_bytes: TextMap<u64>,
}

/// The mathematical content of [`QueueDiscStats`]: the totals, and the
/// per-reason counters as maps from the reason to its count.
pub struct QueueDiscStatsView {
    pub n_total_received_packets: u64,
    pub n_total_received_bytes: u64,
    pub n_total_enqueued_packets: u64,
    pub n_total_enqueued_bytes: u64,
    pub n_total_dequeued_packets: u64,
    pub n_total_dequeued_bytes: u64,
    pub n_total_requeued_packets: u64,
    pub n_total_requeued_bytes: u64,
    pub n_total_dropped_packets_before_enqueue: u64,
    pub n_total_dropped_packets_after_dequeue: u64,
    pub n_total_dropped_bytes_before_enqueue: u64,
    pub n_total_dropped_bytes_after_dequeue: u64,
    pub n_total_marked_packets: u64,
    pub n_total_marked_bytes: u64,
    pub dropped_packets_before_enqueue: Map<Seq<char>, u64>,
    pub dropped_packets_after_dequeue: Map<Seq<char>, u64>,
    pub dropped_bytes_before_enqueue: Map<Seq<char>, u64>,
    pub dropped_bytes_after_dequeue: Map<Seq<char>, u64>,
    pub marked_packets: Map<Seq<char>, u64>,
    pub marked_bytes: Map<Seq<char>, u64>,
}

impl View for QueueDiscStats {
    type V = QueueDiscStatsView;

    open spec fn view(&self) -> QueueDiscStatsView {
        QueueDiscStatsView {
            n_total_received_packets: self.n_total_received_packets,
            n_total_received_bytes: self.n_total_received_bytes,
            n_total_enqueued_packets: self.n_total_enqueued_packets,
            n_total_enqueued_bytes: self.n_total_enqueued_bytes,
            n_total_dequeued_packets: self.n_total_dequeued_packets,
            n_total_dequeued_bytes: self.n_total_dequeued_bytes,
            n_total_requeued_packets: self.n_total_requeued_packets,
            n_total_requeued_bytes: self.n_total_requeued_bytes,
            n_total_dropped_packets_before_enqueue: self.n_total_dropped_packets_before_enqueue,
            n_total_dropped_packets_after_dequeue: self.n_total_dropped_packets_after_dequeue,
            n_total_dropped_bytes_before_enqueue: self.n_total_dropped_bytes_before_enqueue,
            n_total_dropped_bytes_after_dequeue: self.n_total_dropped_bytes_after_dequeue,
            n_total_marked_packets: self.n_total_marked_packets,
            n_total_marked_bytes: self.n_total_marked_bytes,
            dropped_packets_before_enqueue: self.dropped_packets_before_enqueue.spec_map(),
            dropped_packets_after_dequeue: self.dropped_packets_after_dequeue.spec_map(),
            dropped_bytes_before_enqueue: self.dropped_bytes_before_enqueue.spec_map(),
            dropped_bytes_after_dequeue: self.dropped_bytes_after_dequeue.spec_map(),
            marked_packets: self.marked_packets.spec_map(),
            marked_bytes: self.marked_bytes.spec_map(),
        }
    }
}

/// The sum of `a` and `b`, stopping at the largest 64-bit value.
pub open spec fn saturating_sum(a: u64, b: u64) -> u64 {
    if a + b > u64::MAX {
        u64::MAX
    } else {
        (a + b) as u64
    }
}

/// Whether the counter `x` can be raised by one and by `bytes`.
pub open spec fn counter_room(x: u64, bytes: u64) -> bool {
    x < u64::MAX && x + bytes <= u64::MAX
}

/// Whether every counter of `m` can be raised by one and by `bytes`.
pub open spec fn counters_room(m: Map<Seq<char>, u64>, bytes: u64) -> bool {
    forall|k: Seq<char>| counter_room(#[trigger] count_in(m, k), bytes)
}

impl QueueDiscStatsView {
    /// Whether every counter has room for one more packet of `bytes` bytes.
    pub open spec fn room(self, bytes: u64) -> bool {
        &&& counter_room(self.n_total_received_packets, bytes)
        &&& counter_room(self.n_total_received_bytes, bytes)
        &&& counter_room(self.n_total_enqueued_packets, bytes)
        &&& counter_room(self.n_total_enqueued_bytes, bytes)
        &&& counter_room(self.n_total_dequeued_packets, bytes)
        &&& counter_room(self.n_total_dequeued_bytes, bytes)
        &&& counter_room(self.n_total_requeued_packets, bytes)
        &&& counter_room(self.n_total_requeued_bytes, bytes)
        &&& self.event_room(bytes)
    }

    /// Whether every drop and mark counter has room for one more packet of
    /// `bytes` bytes.
    pub open spec fn event_room(self, bytes: u64) -> bool {
        &&& counter_room(self.n_total_dropped_packets_before_enqueue, bytes)
        &&& counter_room(self.n_total_dropped_packets_after_dequeue, bytes)
        &&& counter_room(self.n_total_dropped_bytes_before_enqueue, bytes)
        &&& counter_room(self.n_total_dropped_bytes_after_dequeue, bytes)
        &&& counter_room(self.n_total_marked_packets, bytes)
        &&& counter_room(self.n_total_marked_bytes, bytes)
        &&& counters_room(self.dropped_packets_before_enqueue, bytes)
        &&& counters_room(self.dropped_packets_after_dequeue, bytes)
        &&& counters_room(self.dropped_bytes_before_enqueue, bytes)
        &&& counters_room(self.dropped_bytes_after_dequeue, bytes)
        &&& counters_room(self.marked_packets, bytes)
        &&& counters_room(self.marked_bytes, bytes)
    }

    /// All counters at zero, no reason recorded.
    pub open spec fn zero() -> QueueDiscStatsView {
        QueueDiscStatsView {
            n_total_received_packets: 0,
            n_total_received_bytes: 0,
            n_total_enqueued_packets: 0,
            n_total_enqueued_bytes: 0,
            n_total_dequeued_packets: 0,
            n_total_dequeued_bytes: 0,
            n_total_requeued_packets: 0,
            n_total_requeued_bytes: 0,
            n_total_dropped_packets_before_enqueue: 0,
            n_total_dropped_packets_after_dequeue: 0,
            n_total_dropped_bytes_before_enqueue: 0,
            n_total_dropped_bytes_after_dequeue: 0,
            n_total_marked_packets: 0,
            n_total_marked_bytes: 0,
            dropped_packets_before_enqueue: Map::empty(),
            dropped_packets_after_dequeue: Map::empty(),
            dropped_bytes_before_enqueue: Map::empty(),
            dropped_bytes_after_dequeue: Map::empty(),
            marked_packets: Map::empty(),
            marked_bytes: Map::empty(),
        }
    }

    /// Whether the received counters can take one more packet of `bytes` bytes.
    pub open spec fn can_record_received(self, bytes: u64) -> bool {
        self.n_total_received_packets < u64::MAX && self.n_total_received_bytes + bytes <= u64::MAX
    }

    /// The counters after one more packet of `bytes` bytes was received.
    pub open spec fn record_received(self, bytes: u64) -> QueueDiscStatsView {
        QueueDiscStatsView {
            n_total_received_packets: (self.n_total_received_packets + 1) as u64,
            n_total_received_bytes: (self.n_total_received_bytes + bytes) as u64,
            ..self
        }
    }

    /// Whether the enqueued counters can take one more packet of `bytes` bytes.
    pub open spec fn can_record_enqueued(self, bytes: u64) -> bool {
        self.n_total_enqueued_packets < u64::MAX && self.n_total_enqueued_bytes + bytes <= u64::MAX
    }

    /// The counters after one more packet of `bytes` bytes was enqueued.
    pub open spec fn record_enqueued(self, bytes: u64) -> QueueDiscStatsView {
        QueueDiscStatsView {
            n_total_enqueued_packets: (self.n_total_enqueued_packets + 1) as u64,
            n_total_enqueued_bytes: (self.n_total_enqueued_bytes + bytes) as u64,
            ..self
        }
    }

    /// Whether the dequeued counters can take one more packet of `bytes` bytes.
    pub open spec fn can_record_dequeued(self, bytes: u64) -> bool {
        self.n_total_dequeued_packets < u64::MAX && self.n_total_dequeued_bytes + bytes <= u64::MAX
    }

    /// The counters after one more packet of `bytes` bytes was dequeued.
    pub open spec fn record_dequeued(self, bytes: u64) -> QueueDiscStatsView {
        QueueDiscStatsView {
            n_total_dequeued_packets: (self.n_total_dequeued_packets + 1) as u64,
            n_total_dequeued_bytes: (self.n_total_dequeued_bytes + bytes) as u64,
            ..self
        }
    }

    /// Whether the requeued counters can take one more packet of `bytes` bytes.
    pub open spec fn can_record_requeued(self, bytes: u64) -> bool {
        self.n_total_requeued_packets < u64::MAX && self.n_total_requeued_bytes + bytes <= u64::MAX
    }

    /// The counters after one more packet of `bytes` bytes was requeued.
    pub open spec fn record_requeued(self, bytes: u64) -> QueueDiscStatsView {
        QueueDiscStatsView {
            n_total_requeued_packets: (self.n_total_requeued_packets + 1) as u64,
            n_total_requeued_bytes: (self.n_total_requeued_bytes + bytes) as u64,
            ..self
        }
    }

    /// Whether the mark counters can take one more packet of `bytes` bytes
    /// marked for `reason`.
    pub open spec fn can_record_marked(self, bytes: u64, reason: Seq<char>) -> bool {
        &&& self.n_total_marked_packets < u64::MAX
        &&& self.n_total_marked_bytes + bytes <= u64::MAX
        &&& count_in(self.marked_packets, reason) < u64::MAX
        &&& count_in(self.marked_bytes, reason) + bytes <= u64::MAX
    }

    /// The counters after one more packet of `bytes` bytes was marked for `reason`.
    pub open spec fn record_marked(self, bytes: u64, reason: Seq<char>) -> QueueDiscStatsView {
        QueueDiscStatsView {
            n_total_marked_packets: (self.n_total_marked_packets + 1) as u64,
            n_total_marked_bytes: (self.n_total_marked_bytes + bytes) as u64,
            marked_packets: bumped(self.marked_packets, reason, 1),
            marked_bytes: bumped(self.marked_bytes, reason, bytes),
            ..self
        }
    }

    /// Whether the drop counters of `phase` can take one more packet of
    /// `bytes` bytes dropped for `reason`.
    pub open spec fn can_record_drop(self, bytes: u64, reason: Seq<char>, phase: QueueDropPhase) -> bool {
        match phase {
            QueueDropPhase::BeforeEnqueue => {
                &&& self.n_total_dropped_packets_before_enqueue < u64::MAX
                &&& self.n_total_dropped_bytes_before_enqueue + bytes <= u64::MAX
                &&& count_in(self.dropped_packets_before_enqueue, reason) < u64::MAX
                &&& count_in(self.dropped_bytes_before_enqueue, reason) + bytes <= u64::MAX
            },
            QueueDropPhase::AfterDequeue => {
                &&& self.n_total_dropped_packets_after_dequeue < u64::MAX
                &&& self.n_total_dropped_bytes_after_dequeue + bytes <= u64::MAX
                &&& count_in(self.dropped_packets_after_dequeue, reason) < u64::MAX
                &&& count_in(self.dropped_bytes_after_dequeue, reason) + bytes <= u64::MAX
            },
        }
    }

    /// The counters after one more packet of `bytes` bytes was dropped for
    /// `reason` in `phase`.
    pub open spec fn record_drop(self, bytes: u64, reason: Seq<char>, phase: QueueDropPhase) -> QueueDiscStatsView {
        match phase {
            QueueDropPhase::BeforeEnqueue => QueueDiscStatsView {
                n_total_dropped_packets_before_enqueue: (self.n_total_dropped_packets_before_enqueue
                    + 1) as u64,
                n_total_dropped_bytes_before_enqueue: (self.n_total_dropped_bytes_before_enqueue
                    + bytes) as u64,
                dropped_packets_before_enqueue: bumped(
                    self.dropped_packets_before_enqueue,
                    reason,
                    1,
                ),
                dropped_bytes_before_enqueue: bumped(
                    self.dropped_bytes_before_enqueue,
                    reason,
                    bytes,
                ),
                ..self
            },
            QueueDropPhase::AfterDequeue => QueueDiscStatsView {
                n_total_dropped_packets_after_dequeue: (self.n_total_dropped_packets_after_dequeue
                    + 1) as u64,
                n_total_dropped_bytes_after_dequeue: (self.n_total_dropped_bytes_after_dequeue
                    + bytes) as u64,
                dropped_packets_after_dequeue: bumped(self.dropped_packets_after_dequeue, reason, 1),
                dropped_bytes_after_dequeue: bumped(self.dropped_bytes_after_dequeue, reason, bytes),
                ..self
            },
        }
    }
}

impl Default for QueueDiscStats {
    fn default() -> (s: QueueDiscStats)
        ensures
            s@ == QueueDiscStatsView::zero(),
    {
        QueueDiscStats {
            n_total_received_packets: 0,
            n_total_received_bytes: 0,
            n_total_enqueued_packets: 0,
            n_total_enqueued_bytes: 0,
            n_total_dequeued_packets: 0,
            n_total_dequeued_bytes: 0,
            n_total_requeued_packets: 0,
            n_total_requeued_bytes: 0,
            n_total_dropped_packets_before_enqueue: 0,
            n_total_dropped_packets_after_dequeue: 0,
            n_total_dropped_bytes_before_enqueue: 0,
            n_total_dropped_bytes_after_dequeue: 0,
            n_total_marked_packets: 0,
            n_total_marked_bytes: 0,
            dropped_packets_before_enqueue: TextMap::new(),
            dropped_packets_after_dequeue: TextMap::new(),
            dropped_bytes_before_enqueue: TextMap::new(),
            dropped_bytes_after_dequeue: TextMap::new(),
            marked_packets: TextMap::new(),
            marked_bytes: TextMap::new(),
        }
    }
}

impl QueueDiscStats {
    /// Packets dropped in either phase.
    pub fn n_total_dropped_packets(&self) -> (n: u64)
        requires
            self.n_total_dropped_packets_before_enqueue + self.n_total_dropped_packets_after_dequeue
                <= u64::MAX,
        ensures
            n == self.n_total_dropped_packets_before_enqueue
                + self.n_total_dropped_packets_after_dequeue,
    {
        self.n_total_dropped_packets_before_enqueue + self.n_total_dropped_packets_after_dequeue
    }

    /// Bytes dropped in either phase.
    pub fn n_total_dropped_bytes(&self) -> (n: u64)
        requires
            self.n_total_dropped_bytes_before_enqueue + self.n_total_dropped_bytes_after_dequeue
                <= u64::MAX,
        ensures
            n == self.n_total_dropped_bytes_before_enqueue
                + self.n_total_dropped_bytes_after_dequeue,
    {
        self.n_total_dropped_bytes_before_enqueue + self.n_total_dropped_bytes_after_dequeue
    }

    /// Counts one more packet of `bytes` bytes as received.
    pub fn record_received(&mut self, bytes: u64)
        requires
            old(self)@.can_record_received(bytes),
        ensures
            final(self)@ == old(self)@.record_received(bytes),
    {
        self.n_total_received_packets += 1;
        self.n_total_received_bytes += bytes;
    }

    /// Counts one more packet of `bytes` bytes as enqueued.
    pub fn record_enqueued(&mut self, bytes: u64)
        requires
            old(self)@.can_record_enqueued(bytes),
        ensures
            final(self)@ == old(self)@.record_enqueued(bytes),
    {
        self.n_total_enqueued_packets += 1;
        self.n_total_enqueued_bytes += bytes;
    }

    /// Counts one more packet of `bytes` bytes as dequeued.
    pub fn record_dequeued(&mut self, bytes: u64)
        requires
            old(self)@.can_record_dequeued(bytes),
        ensures
            final(self)@ == old(self)@.record_dequeued(bytes),
    {
        self.n_total_dequeued_packets += 1;
        self.n_total_dequeued_bytes += bytes;
    }

    /// Counts one more packet of `bytes` bytes as requeued.
    pub fn record_requeued(&mut self, bytes: u64)
        requires
            old(self)@.can_record_requeued(bytes),
        ensures
            final(self)@ == old(self)@.record_requeued(bytes),
    {
        self.n_total_requeued_packets += 1;
        self.n_total_requeued_bytes += bytes;
    }

    /// Counts one more packet of `bytes` bytes as marked for `reason`.
    pub fn record_marked(&mut self, bytes: u64, reason: &str)
        requires
            old(self)@.can_record_marked(bytes, reason@),
        ensures
            final(self)@ == old(self)@.record_marked(bytes, reason@),
    {
        self.n_total_marked_packets += 1;
        self.n_total_marked_bytes += bytes;
        self.marked_packets.add(reason, 1);
        self.marked_bytes.add(reason, bytes);
    }

    /// Counts one more packet of `bytes` bytes as dropped for `reason` in `phase`.
    pub fn record_drop(&mut self, bytes: u64, reason: &str, phase: QueueDropPhase)
        requires
            old(self)@.can_record_drop(bytes, reason@, phase),
        ensures
            final(self)@ == old(self)@.record_drop(bytes, reason@, phase),
    {
        match phase {
            QueueDropPhase::BeforeEnqueue => {
                self.n_total_dropped_packets_before_enqueue += 1;
                self.n_total_dropped_bytes_before_enqueue += bytes;
                self.dropped_packets_before_enqueue.add(reason, 1);
                self.dropped_bytes_before_enqueue.add(reason, bytes);
            },
            QueueDropPhase::AfterDequeue => {
                self.n_total_dropped_packets_after_dequeue += 1;
                self.n_total_dropped_bytes_after_dequeue += bytes;
                self.dropped_packets_after_dequeue.add(reason, 1);
                self.dropped_bytes_after_dequeue.add(reason, bytes);
            },
        }
    }
}

/// A packet as the disciplines see it: its length, optional flow and class,
/// and free-form metadata.
#[derive(Debug, Clone, PartialEq, Eq)]
pub struct QueueDiscItem {
    pub packet_len_bytes: u32,
    pub flow_id: Option<u32>,
    pub class_id: Option<u32>,
    pub metadata: TextMap<String>,
}

impl Default for QueueDiscItem {
    fn default() -> (item: QueueDiscItem)
        ensures
            item.packet_len_bytes == 0,
            item.flow_id is None,
            item.class_id is None,
            item.metadata@.len() == 0,
    {
        QueueDiscItem { packet_len_bytes: 0, flow_id: None, class_id: None, metadata: TextMap::new() }
    }
}

/// The priority that the metadata `meta` gives under `key`: the low eight
/// bits of the 16-bit number stored there, if one is stored there.
pub open spec fn priority_under(meta: Map<Seq<char>, String>, key: Seq<char>) -> Option<u8> {
    if meta.contains_key(key) {
        match parsed_unsigned(trimmed(meta[key]@), 65535) {
            Some(v) => Some((v % 256) as u8),
            None => None,
        }
    } else {
        None
    }
}

/// The Linux priority-to-band map of `pfifo_fast`.
pub open spec fn linux_priomap() -> Seq<usize> {
    seq![1usize, 2, 2, 2, 1, 2, 0, 0, 1, 1, 1, 1, 1, 1, 1, 1]
}

/// The queues `b` laid end to end.
pub open spec fn flat<A>(b: Seq<Seq<A>>) -> Seq<A>
    decreases b.len(),
{
    if b.len() == 0 {
        Seq::empty()
    } else {
        b[0] + flat(b.drop_first())
    }
}

/// Queues that are all empty lay out to nothing.
pub proof fn lemma_flat_empty<A>(b: Seq<Seq<A>>)
    requires
        forall|j: int| 0 <= j < b.len() ==> (#[trigger] b[j]).len() == 0,
    ensures
        flat(b).len() == 0,
    decreases b.len(),
{
    if b.len() > 0 {
        let t = b.drop_first();
        assert forall|j: int| 0 <= j < t.len() implies (#[trigger] t[j]).len() == 0 by {
            assert(t[j] == b[j + 1]);
        }
        lemma_flat_empty(t);
    }
}

/// Appending to the queue `k` lengthens the layout by one.
pub proof fn lemma_flat_push<A>(b: Seq<Seq<A>>, k: int, x: A)
    requires
        0 <= k < b.len(),
    ensures
        flat(b.update(k, b[k].push(x))).len() == flat(b).len() + 1,
    decreases b.len(),
{
    let c = b.update(k, b[k].push(x));
    if k == 0 {
        assert(c.drop_first() =~= b.drop_first());
    } else {
        lemma_flat_push(b.drop_first(), k - 1, x);
        assert(c.drop_first() =~= b.drop_first().update(k - 1, b.drop_first()[k - 1].push(x)));
    }
}

/// The head of the layout is the head of the first queue that is not empty,
/// and taking it there takes it from the layout.
pub proof fn lemma_flat_head<A>(b: Seq<Seq<A>>, k: int)
    requires
        0 <= k < b.len(),
        forall|j: int| 0 <= j < k ==> (#[trigger] b[j]).len() == 0,
        b[k].len() > 0,
    ensures
        flat(b).len() > 0,
        flat(b)[0] == b[k][0],
        flat(b.update(k, b[k].drop_first())) == flat(b).drop_first(),
    decreases b.len(),
{
    let c = b.update(k, b[k].drop_first());
    if k == 0 {
        assert(c.drop_first() =~= b.drop_first());
        assert(flat(c) =~= flat(b).drop_first());
    } else {
        let t = b.drop_first();
        assert forall|j: int| 0 <= j < k - 1 implies (#[trigger] t[j]).len() == 0 by {
            assert(t[j] == b[j + 1]);
        }
        lemma_flat_head(t, k - 1);
        assert(c.drop_first() =~= t.update(k - 1, t[k - 1].drop_first()));
        assert(b[0].len() == 0);
        assert(flat(b) =~= flat(t));
        assert(flat(c) =~= flat(c.drop_first()));
    }
}

impl QueueDiscItem {
    /// The length of the packet in bytes.
    pub open spec fn spec_len_bytes(&self) -> u64 {
        self.packet_len_bytes as u64
    }

    /// The priority of the packet: the first of the metadata keys
    /// `priority`, `socket_priority` and `prio` that holds a 16-bit number
    /// gives its low eight bits; without any, the priority is 0.
    pub open spec fn spec_priority(&self) -> u8 {
        let m = self.metadata.spec_map();
        match priority_under(m, "priority"@) {
            Some(p) => p,
            None => match priority_under(m, "socket_priority"@) {
                Some(p) => p,
                None => match priority_under(m, "prio"@) {
                    Some(p) => p,
                    None => 0,
                },
            },
        }
    }

    /// The priority that the metadata gives under `key`.
    fn priority_at(&self, key: &str) -> (r: Option<u8>)
        ensures
            r == priority_under(self.metadata.spec_map(), key@),
    {
        match self.metadata.get(key) {
            Some(raw) => match parse_trimmed_unsigned(raw.as_str(), 65535) {
                Some(v) => Some((v % 256) as u8),
                None => None,
            },
            None => None,
        }
    }

    /// The priority of the packet.
    pub fn priority(&self) -> (r: u8)
        ensures
            r == self.spec_priority(),
    {
        if let Some(p) = self.priority_at("priority") {
            return p;
        }
        if let Some(p) = self.priority_at("socket_priority") {
            return p;
        }
        if let Some(p) = self.priority_at("prio") {
            return p;
        }
        0
    }

    /// The length of the packet in bytes.
    pub fn len_bytes(&self) -> (n: u64)
        ensures
            n == self.spec_len_bytes(),
    {
        self.packet_len_bytes as u64
    }
}

/// The bookkeeping that every discipline carries: its size policy and limit,
/// how much it currently holds, and its statistics.
#[derive(Debug, Clone)]
pub struct QueueDiscBase {
    size_policy: QueueDiscSizePolicy,
    max_size: Option<QueueSize>,
    n_packets: u64,
    n_bytes: u64,
    stats: QueueDiscStats,
}

/// The mathematical content of [`QueueDiscBase`].
pub struct QueueDiscBaseView {
    pub size_policy: QueueDiscSizePolicy,
    pub max_size: Option<QueueSize>,
    pub n_packets: u64,
    pub n_bytes: u64,
    pub stats: QueueDiscStatsView,
}

impl QueueDiscBaseView {
    /// The size in the unit of the limit: bytes under a byte limit, packets otherwise.
    pub open spec fn current_size(self) -> QueueSize {
        match self.max_size {
            Some(limit) if limit.unit == QueueSizeUnit::Bytes => QueueSize {
                unit: QueueSizeUnit::Bytes,
                value: self.n_bytes,
            },
            _ => QueueSize { unit: QueueSizeUnit::Packets, value: self.n_packets },
        }
    }

    /// Whether one more queued packet of `bytes` bytes can be counted.
    pub open spec fn can_count_enqueued(self, bytes: u64) -> bool {
        &&& self.n_packets < u64::MAX
        &&& self.n_bytes + bytes <= u64::MAX
        &&& self.stats.can_record_enqueued(bytes)
    }

    /// The bookkeeping after one more packet of `bytes` bytes was queued.
    pub open spec fn count_enqueued(self, bytes: u64) -> QueueDiscBaseView {
        QueueDiscBaseView {
            n_packets: (self.n_packets + 1) as u64,
            n_bytes: (self.n_bytes + bytes) as u64,
            stats: self.stats.record_enqueued(bytes),
            ..self
        }
    }

    /// The bookkeeping after a packet of `bytes` bytes left the queue; the
    /// sizes stop at zero.
    pub open spec fn count_dequeued(self, bytes: u64) -> QueueDiscBaseView {
        QueueDiscBaseView {
            n_packets: if self.n_packets >= 1 {
                (self.n_packets - 1) as u64
            } else {
                0
            },
            n_bytes: if self.n_bytes >= bytes {
                (self.n_bytes - bytes) as u64
            } else {
                0
            },
            stats: self.stats.record_dequeued(bytes),
            ..self
        }
    }

    /// Whether one more packet of `bytes` bytes would take the size over the
    /// limit; the sum saturates at the largest 64-bit value.
    pub open spec fn over_limit(self, bytes: u64) -> bool {
        match self.max_size {
            None => false,
            Some(limit) => match limit.unit {
                QueueSizeUnit::Packets => saturating_sum(self.n_packets, 1) > limit.value,
                QueueSizeUnit::Bytes => saturating_sum(self.n_bytes, bytes) > limit.value,
            },
        }
    }

    /// The bookkeeping after one more packet of `bytes` bytes was received.
    pub open spec fn received(self, bytes: u64) -> QueueDiscBaseView {
        QueueDiscBaseView { stats: self.stats.record_received(bytes), ..self }
    }

    /// The bookkeeping after a packet of `bytes` bytes was dropped for
    /// `reason` in `phase`.
    pub open spec fn dropped(self, bytes: u64, reason: Seq<char>, phase: QueueDropPhase) -> QueueDiscBaseView {
        QueueDiscBaseView { stats: self.stats.record_drop(bytes, reason, phase), ..self }
    }

    /// The bookkeeping after a packet of `bytes` bytes was marked for `reason`.
    pub open spec fn marked(self, bytes: u64, reason: Seq<char>) -> QueueDiscBaseView {
        QueueDiscBaseView { stats: self.stats.record_marked(bytes, reason), ..self }
    }

    /// Whether every counter has room for one more packet of `bytes` bytes,
    /// whatever happens to it.
    pub open spec fn room(self, bytes: u64) -> bool {
        &&& self.n_packets < u64::MAX
        &&& self.n_bytes + bytes <= u64::MAX
        &&& self.stats.room(bytes)
    }
}

impl View for QueueDiscBase {
    type V = QueueDiscBaseView;

    closed spec fn view(&self) -> QueueDiscBaseView {
        QueueDiscBaseView {
            size_policy: self.size_policy,
            max_size: self.max_size,
            n_packets: self.n_packets,
            n_bytes: self.n_bytes,
            stats: self.stats@,
        }
    }
}

impl QueueDiscBase {
    /// The statistics held by the base.
    pub closed spec fn spec_stats(&self) -> QueueDiscStats {
        self.stats
    }

    /// The view of the base carries the view of its statistics.
    pub proof fn lemma_stats_view(&self)
        ensures
            self@.stats == self.spec_stats()@,
    {
    }

    /// A base that holds nothing and has counted nothing.
    pub fn new(size_policy: QueueDiscSizePolicy, max_size: Option<QueueSize>) -> (b: Self)
        ensures
            b@ == (QueueDiscBaseView {
                size_policy,
                max_size,
                n_packets: 0,
                n_bytes: 0,
                stats: QueueDiscStatsView::zero(),
            }),
    {
        Self { size_policy, max_size, n_packets: 0, n_bytes: 0, stats: QueueDiscStats::default() }
    }

    pub fn size_policy(&self) -> (r: QueueDiscSizePolicy)
        ensures
            r == self@.size_policy,
    {
        self.size_policy
    }

    pub fn max_size(&self) -> (r: Option<QueueSize>)
        ensures
            r == self@.max_size,
    {
        self.max_size
    }

    /// Sets the limit; always succeeds.
    pub fn set_max_size(&mut self, size: QueueSize) -> (ok: bool)
        ensures
            ok,
            final(self)@ == (QueueDiscBaseView { max_size: Some(size), ..old(self)@ }),
    {
        self.max_size = Some(size);
        true
    }

    /// The current size in the unit of the limit.
    pub fn current_size(&self) -> (r: QueueSize)
        ensures
            r == self@.current_size(),
    {
        match self.max_size {
            Some(limit) => {
                if limit.unit == QueueSizeUnit::Bytes {
                    QueueSize::bytes(self.n_bytes)
                } else {
                    QueueSize::packets(self.n_packets)
                }
            },
            None => QueueSize::packets(self.n_packets),
        }
    }

    pub fn packet_count(&self) -> (n: u64)
        ensures
            n == self@.n_packets,
    {
        self.n_packets
    }

    pub fn byte_count(&self) -> (n: u64)
        ensures
            n == self@.n_bytes,
    {
        self.n_bytes
    }

    pub fn stats(&self) -> (s: &QueueDiscStats)
        ensures
            *s == self.spec_stats(),
            s@ == self@.stats,
    {
        &self.stats
    }

    /// Mutable access to the statistics; nothing else of the base changes.
    pub fn stats_mut(&mut self) -> (s: &mut QueueDiscStats)
        ensures
            *s == old(self).spec_stats(),
            s@ == old(self)@.stats,
            final(self).spec_stats() == *final(s),
            final(self)@ == (QueueDiscBaseView { stats: (*final(s))@, ..old(self)@ }),
    {
        &mut self.stats
    }

    /// Counts a packet of `bytes` bytes as queued.
    pub fn on_packet_enqueued(&mut self, bytes: u64)
        requires
            old(self)@.can_count_enqueued(bytes),
        ensures
            final(self)@ == old(self)@.count_enqueued(bytes),
    {
        self.n_packets += 1;
        self.n_bytes += bytes;
        self.stats.record_enqueued(bytes);
    }

    /// Counts a packet of `bytes` bytes as taken out; the sizes stop at zero.
    pub fn on_packet_dequeued(&mut self, bytes: u64)
        requires
            old(self)@.stats.can_record_dequeued(bytes),
        ensures
            final(self)@ == old(self)@.count_dequeued(bytes),
    {
        self.n_packets = self.n_packets.saturating_sub(1);
        self.n_bytes = self.n_bytes.saturating_sub(bytes);
        self.stats.record_dequeued(bytes);
    }
}

/// Whether the counter `x` can be raised by one and by `bytes`.
pub fn counter_has_room(x: u64, bytes: u64) -> (r: bool)
    ensures
        r == counter_room(x, bytes),
{
    x < u64::MAX && bytes <= u64::MAX - x
}

/// Whether every counter of `m` can be raised by one and by `bytes`.
pub fn counters_have_room(m: &TextMap<u64>, bytes: u64) -> (r: bool)
    ensures
        r == counters_room(m.spec_map(), bytes),
{
    let n = m.len();
    let mut i: usize = 0;
    while i < n
        invariant
            i <= n,
            n == m@.len(),
            keys_sorted(m@),
            forall|j: int| 0 <= j < i ==> counter_room((#[trigger] m@[j]).1, bytes),
        decreases n - i,
    {
        if !counter_has_room(*m.value_at(i), bytes) {
            proof {
                lemma_lookup_at(m@, i as int);
                assert(count_in(m.spec_map(), m@[i as int].0) == m@[i as int].1);
            }
            return false;
        }
        i += 1;
    }
    assert forall|k: Seq<char>| counter_room(#[trigger] count_in(m.spec_map(), k), bytes) by {
        if has_key(m@, k) {
            let j = choose|j: int| 0 <= j < m@.len() && (#[trigger] m@[j]).0 == k;
            lemma_lookup_at(m@, j);
        }
    }
    true
}

impl QueueDiscStats {
    /// Whether every counter has room for one more packet of `bytes` bytes,
    /// whatever happens to it.
    pub fn has_room(&self, bytes: u64) -> (r: bool)
        ensures
            r == self@.room(bytes),
    {
        counter_has_room(self.n_total_received_packets, bytes) && counter_has_room(
            self.n_total_received_bytes,
            bytes,
        ) && counter_has_room(self.n_total_enqueued_packets, bytes) && counter_has_room(
            self.n_total_enqueued_bytes,
            bytes,
        ) && counter_has_room(self.n_total_dequeued_packets, bytes) && counter_has_room(
            self.n_total_dequeued_bytes,
            bytes,
        ) && counter_has_room(self.n_total_requeued_packets, bytes) && counter_has_room(
            self.n_total_requeued_bytes,
            bytes,
        ) && counter_has_room(self.n_total_dropped_packets_before_enqueue, bytes)
            && counter_has_room(self.n_total_dropped_packets_after_dequeue, bytes)
            && counter_has_room(self.n_total_dropped_bytes_before_enqueue, bytes)
            && counter_has_room(self.n_total_dropped_bytes_after_dequeue, bytes)
            && counter_has_room(self.n_total_marked_packets, bytes) && counter_has_room(
            self.n_total_marked_bytes,
            bytes,
        ) && counters_have_room(&self.dropped_packets_before_enqueue, bytes) && counters_have_room(
            &self.dropped_packets_after_dequeue,
            bytes,
        ) && counters_have_room(&self.dropped_bytes_before_enqueue, bytes) && counters_have_room(
            &self.dropped_bytes_after_dequeue,
            bytes,
        ) && counters_have_room(&self.marked_packets, bytes) && counters_have_room(
            &self.marked_bytes,
            bytes,
        )
    }
}

impl QueueDiscBase {
    /// Whether the sizes and every counter have room for one more packet of
    /// `bytes` bytes, whatever happens to it.
    pub fn has_room(&self, bytes: u64) -> (r: bool)
        ensures
            r == self@.room(bytes),
    {
        self.n_packets < u64::MAX && bytes <= u64::MAX - self.n_bytes && self.stats.has_room(bytes)
    }
}

/// The uniform interface of a queueing discipline.
///
/// An implementation supplies the queue itself (`do_enqueue`, `do_dequeue`,
/// `do_peek`) and access to its bookkeeping base; the provided methods wrap
/// them with the accounting that all disciplines share.
pub trait QueueDisc: Send {
    /// The bookkeeping base of the discipline.
    spec fn spec_base(&self) -> QueueDiscBase;

    /// The queued packets, in the order in which `dequeue` hands them out.
    spec fn spec_items(&self) -> Seq<QueueDiscItem>;

    /// Whether the counters that the discipline keeps below its base have
    /// room for one more packet of `bytes` bytes.
    spec fn spec_inner_room(&self, bytes: u64) -> bool;

    /// Whether the counters that the discipline keeps below its base have
    /// room for handing out the packet at the head of the queue.
    spec fn spec_dequeue_room(&self) -> bool;

    fn name(&self) -> (r: &'static str);

    fn base(&self) -> (r: &QueueDiscBase)
        ensures
            *r == self.spec_base(),
    ;

    /// Mutable access to the base; the queue itself is not touched.
    fn base_mut(&mut self) -> (r: &mut QueueDiscBase)
        ensures
            *r == old(self).spec_base(),
            final(self).spec_base() == *final(r),
            final(self).spec_items() == old(self).spec_items(),
            forall|b: u64| #[trigger] final(self).spec_inner_room(b) == old(self).spec_inner_room(b),
            final(self).spec_dequeue_room() == old(self).spec_dequeue_room(),
    ;

    /// Queues `item` if the discipline admits it. A refused item leaves the
    /// queue as it was; sizes and the received, enqueued and dequeued
    /// counters of the base are never touched here.
    fn do_enqueue(&mut self, item: QueueDiscItem) -> (ok: bool)
        requires
            old(self).spec_base()@.stats.event_room(item.spec_len_bytes()),
            old(self).spec_inner_room(item.spec_len_bytes()),
        ensures
            ok ==> final(self).spec_items().len() == old(self).spec_items().len() + 1,
            !ok ==> final(self).spec_items() == old(self).spec_items(),
            final(self).spec_base()@.size_policy == old(self).spec_base()@.size_policy,
            final(self).spec_base()@.max_size == old(self).spec_base()@.max_size,
            final(self).spec_base()@.n_packets == old(self).spec_base()@.n_packets,
            final(self).spec_base()@.n_bytes == old(self).spec_base()@.n_bytes,
            final(self).spec_base()@.stats.n_total_received_packets == old(self).spec_base()@.stats.n_total_received_packets,
            final(self).spec_base()@.stats.n_total_received_bytes == old(self).spec_base()@.stats.n_total_received_bytes,
            final(self).spec_base()@.stats.n_total_enqueued_packets == old(self).spec_base()@.stats.n_total_enqueued_packets,
            final(self).spec_base()@.stats.n_total_enqueued_bytes == old(self).spec_base()@.stats.n_total_enqueued_bytes,
    ;

    /// Takes the packet at the head of the queue, if there is one. The base
    /// is not touched.
    fn do_dequeue(&mut self) -> (r: Option<QueueDiscItem>)
        requires
            old(self).spec_dequeue_room(),
        ensures
            old(self).spec_items().len() == 0 ==> r is None && final(self).spec_items() == old(self).spec_items(),
            old(self).spec_items().len() > 0 ==> r == Some(old(self).spec_items()[0]) && final(self).spec_items() == old(self).spec_items().drop_first(),
            final(self).spec_base() == old(self).spec_base(),
    ;

    /// The packet at the head of the queue, if there is one.
    fn do_peek(&self) -> (r: Option<&QueueDiscItem>)
        ensures
            match r {
                Some(item) => self.spec_items().len() > 0 && *item == self.spec_items()[0],
                None => self.spec_items().len() == 0,
            },
    ;

    /// Whether the configuration of the discipline is usable.
    fn check_config(&self) -> (r: Result<(), String>);

    /// Resets what the discipline derives from its parameters; the queue and
    /// the base are kept.
    fn initialize_params(&mut self) -> (r: Result<(), String>)
        ensures
            final(self).spec_items() == old(self).spec_items(),
            final(self).spec_base() == old(self).spec_base(),
    ;

    fn size_policy(&self) -> (r: QueueDiscSizePolicy)
        ensures
            r == self.spec_base()@.size_policy,
    {
        self.base().size_policy()
    }

    fn max_size(&self) -> (r: Option<QueueSize>)
        ensures
            r == self.spec_base()@.max_size,
    {
        self.base().max_size()
    }

    fn set_max_size(&mut self, size: QueueSize) -> (ok: bool)
        ensures
            ok,
            final(self).spec_base()@ == (QueueDiscBaseView {
                max_size: Some(size),
                ..old(self).spec_base()@
            }),
            final(self).spec_items() == old(self).spec_items(),
    {
        self.base_mut().set_max_size(size)
    }

    fn current_size(&self) -> (r: QueueSize)
        ensures
            r == self.spec_base()@.current_size(),
    {
        self.base().current_size()
    }

    fn stats(&self) -> (r: &QueueDiscStats)
        ensures
            *r == self.spec_base().spec_stats(),
            r@ == self.spec_base()@.stats,
    {
        self.base().stats()
    }

    /// Counts `item` as received and queues it if the discipline admits it;
    /// an admitted item is counted as queued as well.
    fn enqueue(&mut self, item: QueueDiscItem) -> (ok: bool)
        requires
            old(self).spec_base()@.room(item.spec_len_bytes()),
            old(self).spec_inner_room(item.spec_len_bytes()),
        ensures
            ok ==> final(self).spec_items().len() == old(self).spec_items().len() + 1,
            !ok ==> final(self).spec_items() == old(self).spec_items(),
            final(self).spec_base()@.stats.n_total_received_packets == old(self).spec_base()@.stats.n_total_received_packets + 1,
            final(self).spec_base()@.stats.n_total_received_bytes == old(self).spec_base()@.stats.n_total_received_bytes + item.spec_len_bytes(),
            final(self).spec_base()@.n_packets == old(self).spec_base()@.n_packets + (if ok {
                1int
            } else {
                0int
            }),
            final(self).spec_base()@.n_bytes == old(self).spec_base()@.n_bytes + (if ok {
                item.spec_len_bytes() as int
            } else {
                0int
            }),
            final(self).spec_base()@.stats.n_total_enqueued_packets == old(self).spec_base()@.stats.n_total_enqueued_packets + (if ok {
                1int
            } else {
                0int
            }),
    {
        let bytes = item.len_bytes();
        let base = self.base_mut();
        let stats = base.stats_mut();
        stats.record_received(bytes);
        if self.do_enqueue(item) {
            self.base_mut().on_packet_enqueued(bytes);
            return true;
        }
        false
    }

    /// Takes the packet at the head of the queue and counts it as handed out.
    fn dequeue(&mut self) -> (r: Option<QueueDiscItem>)
        requires
            old(self).spec_dequeue_room(),
            old(self).spec_items().len() > 0 ==> old(self).spec_base()@.stats.can_record_dequeued(
                old(self).spec_items()[0].spec_len_bytes(),
            ),
        ensures
            old(self).spec_items().len() == 0 ==> r is None && final(self).spec_items() == old(self).spec_items() && final(self).spec_base() == old(self).spec_base(),
            old(self).spec_items().len() > 0 ==> r == Some(old(self).spec_items()[0]) && final(self).spec_items() == old(self).spec_items().drop_first() && final(self).spec_base()@
                == old(self).spec_base()@.count_dequeued(old(self).spec_items()[0].spec_len_bytes()),
    {
        match self.do_dequeue() {
            Some(item) => {
                let bytes = item.len_bytes();
                self.base_mut().on_packet_dequeued(bytes);
                Some(item)
            },
            None => None,
        }
    }

    /// The packet at the head of the queue, if there is one.
    fn peek(&self) -> (r: Option<&QueueDiscItem>)
        ensures
            match r {
                Some(item) => self.spec_items().len() > 0 && *item == self.spec_items()[0],
                None => self.spec_items().len() == 0,
            },
    {
        self.do_peek()
    }

    /// Counts `item` as dropped for `reason` before it was queued.
    fn drop_before_enqueue(&mut self, item: &QueueDiscItem, reason: &str)
        requires
            old(self).spec_base()@.stats.can_record_drop(
                item.spec_len_bytes(),
                reason@,
                QueueDropPhase::BeforeEnqueue,
            ),
        ensures
            final(self).spec_base()@ == (QueueDiscBaseView {
                stats: old(self).spec_base()@.stats.record_drop(
                    item.spec_len_bytes(),
                    reason@,
                    QueueDropPhase::BeforeEnqueue,
                ),
                ..old(self).spec_base()@
            }),
            final(self).spec_items() == old(self).spec_items(),
    {
        let bytes = item.len_bytes();
        let base = self.base_mut();
        let stats = base.stats_mut();
        stats.record_drop(bytes, reason, QueueDropPhase::BeforeEnqueue);
    }

    /// Counts `item` as dropped for `reason` after it was taken out.
    fn drop_after_dequeue(&mut self, item: &QueueDiscItem, reason: &str)
        requires
            old(self).spec_base()@.stats.can_record_drop(
                item.spec_len_bytes(),
                reason@,
                QueueDropPhase::AfterDequeue,
            ),
        ensures
            final(self).spec_base()@ == (QueueDiscBaseView {
                stats: old(self).spec_base()@.stats.record_drop(
                    item.spec_len_bytes(),
                    reason@,
                    QueueDropPhase::AfterDequeue,
                ),
                ..old(self).spec_base()@
            }),
            final(self).spec_items() == old(self).spec_items(),
    {
        let bytes = item.len_bytes();
        let base = self.base_mut();
        let stats = base.stats_mut();
        stats.record_drop(bytes, reason, QueueDropPhase::AfterDequeue);
    }

    /// Counts `item` as marked for `reason`.
    fn mark_packet(&mut self, item: &QueueDiscItem, reason: &str)
        requires
            old(self).spec_base()@.stats.can_record_marked(item.spec_len_bytes(), reason@),
        ensures
            final(self).spec_base()@ == (QueueDiscBaseView {
                stats: old(self).spec_base()@.stats.record_marked(item.spec_len_bytes(), reason@),
                ..old(self).spec_base()@
            }),
            final(self).spec_items() == old(self).spec_items(),
    {
        let bytes = item.len_bytes();
        let base = self.base_mut();
        let stats = base.stats_mut();
        stats.record_marked(bytes, reason);
    }
}

} // verus!
