//! Random early detection: a first-in, first-out queue that drops or marks
//! packets before it is full. What the averaged queue length asks for is
//! worked out by the caller on numbers and handed in as a signal; the queue
//! decides what becomes of a packet under that signal.

use vstd::prelude::*;
use std::collections::VecDeque;
use crate::runtime::qdisc::ecn::{ecn_capable, is_marked_copy, item_is_ecn_capable, mark_item_ecn};
use crate::runtime::qdisc::queue_disc::{
    QueueDisc, QueueDiscBase, QueueDiscBaseView, QueueDiscItem, QueueDiscSizePolicy,
    QueueDiscStatsView, QueueDropPhase, QueueSize, QueueSizeUnit,
};

verus! {

/// What the averaged queue length asks for the next packet.
#[derive(Debug, Clone, Copy, PartialEq, Eq, Structural)]
pub enum RedSignal {
    /// The queue is short: let the packet in.
    Pass,
    /// The queue is between its thresholds and the draw fell on this packet.
    Early,
    /// The queue has reached its upper threshold.
    Forced,
}

/// What the queue does with a packet.
pub enum RedVerdict {
    /// Refused for the size limit.
    LimitDrop,
    /// Refused at the upper threshold.
    ForcedDrop,
    /// Refused between the thresholds.
    RandomDrop,
    /// Queued with the congestion mark set.
    Mark,
    /// Queued as it is.
    Admit,
}

/// A FIFO with early detection between two thresholds.
pub struct RedQueueDisc {
    base: QueueDiscBase,
    queue: VecDeque<QueueDiscItem>,
    min_th: QueueSize,
    max_th: QueueSize,
    ecn_enabled: bool,
    signal: RedSignal,
}

impl RedQueueDisc {
    /// The reason recorded for a packet that found the queue full.
    pub const LIMIT_EXCEEDED_DROP: &'static str = "Queue disc limit exceeded";

    /// The reason recorded for a packet dropped between the thresholds.
    pub const RED_RANDOM_DROP: &'static str = "RED random early drop";

    /// The reason recorded for a packet dropped at the upper threshold.
    pub const RED_FORCED_DROP: &'static str = "RED forced drop";

    /// The reason recorded for a marked packet.
    pub const RED_ECN_MARK: &'static str = "RED ECN mark";

    pub open spec fn spec_limit_reason() -> Seq<char> {
        "Queue disc limit exceeded"@
    }

    pub open spec fn spec_random_reason() -> Seq<char> {
        "RED random early drop"@
    }

    pub open spec fn spec_forced_reason() -> Seq<char> {
        "RED forced drop"@
    }

    pub open spec fn spec_mark_reason() -> Seq<char> {
        "RED ECN mark"@
    }

    /// The lower threshold.
    pub closed spec fn spec_min_th(&self) -> QueueSize {
        self.min_th
    }

    /// The upper threshold.
    pub closed spec fn spec_max_th(&self) -> QueueSize {
        self.max_th
    }

    /// Whether capable packets are marked instead of dropped.
    pub closed spec fn spec_ecn_enabled(&self) -> bool {
        self.ecn_enabled
    }

    /// The signal under which the next packet is judged.
    pub closed spec fn spec_signal(&self) -> RedSignal {
        self.signal
    }

    /// What the queue does with `item`: the size limit comes first; under a
    /// signal other than `Pass` a capable packet is marked where marking is
    /// enabled, and any other packet is dropped.
    pub open spec fn spec_verdict(&self, item: QueueDiscItem) -> RedVerdict {
        if self.spec_base()@.over_limit(item.spec_len_bytes()) {
            RedVerdict::LimitDrop
        } else {
            match self.spec_signal() {
                RedSignal::Pass => RedVerdict::Admit,
                RedSignal::Early => if self.spec_ecn_enabled() && ecn_capable(item) {
                    RedVerdict::Mark
                } else {
                    RedVerdict::RandomDrop
                },
                RedSignal::Forced => if self.spec_ecn_enabled() && ecn_capable(item) {
                    RedVerdict::Mark
                } else {
                    RedVerdict::ForcedDrop
                },
            }
        }
    }

    /// Whether the settings other than the queue are those of `other`.
    pub open spec fn same_settings(&self, other: &Self) -> bool {
        &&& self.spec_min_th() == other.spec_min_th()
        &&& self.spec_max_th() == other.spec_max_th()
        &&& self.spec_ecn_enabled() == other.spec_ecn_enabled()
    }

    /// An empty queue limited to `limit` with the thresholds `min_th` and
    /// `max_th`; the first packet is judged under `Pass`.
    pub fn new(limit: QueueSize, min_th: QueueSize, max_th: QueueSize, ecn_enabled: bool) -> (q: Self)
        ensures
            q.spec_items() == Seq::<QueueDiscItem>::empty(),
            q.spec_min_th() == min_th,
            q.spec_max_th() == max_th,
            q.spec_ecn_enabled() == ecn_enabled,
            q.spec_signal() == RedSignal::Pass,
            q.spec_base()@ == (QueueDiscBaseView {
                size_policy: QueueDiscSizePolicy::SingleInternalQueue,
                max_size: Some(limit),
                n_packets: 0,
                n_bytes: 0,
                stats: QueueDiscStatsView::zero(),
            }),
    {
        Self {
            base: QueueDiscBase::new(QueueDiscSizePolicy::SingleInternalQueue, Some(limit)),
            queue: VecDeque::new(),
            min_th,
            max_th,
            ecn_enabled,
            signal: RedSignal::Pass,
        }
    }

    /// An empty queue limited to 1000 packets with the thresholds 64 and 256
    /// packets, which drops and does not mark.
    pub fn new_default() -> (q: Self)
        ensures
            q.spec_items() == Seq::<QueueDiscItem>::empty(),
            q.spec_min_th() == (QueueSize { unit: QueueSizeUnit::Packets, value: 64 }),
            q.spec_max_th() == (QueueSize { unit: QueueSizeUnit::Packets, value: 256 }),
            !q.spec_ecn_enabled(),
            q.spec_signal() == RedSignal::Pass,
            q.spec_base()@ == (QueueDiscBaseView {
                size_policy: QueueDiscSizePolicy::SingleInternalQueue,
                max_size: Some(QueueSize { unit: QueueSizeUnit::Packets, value: 1000 }),
                n_packets: 0,
                n_bytes: 0,
                stats: QueueDiscStatsView::zero(),
            }),
    {
        Self::new(QueueSize::packets(1000), QueueSize::packets(64), QueueSize::packets(256), false)
    }

    /// The lower threshold.
    pub fn min_threshold(&self) -> (r: QueueSize)
        ensures
            r == self.spec_min_th(),
    {
        self.min_th
    }

    /// The upper threshold.
    pub fn max_threshold(&self) -> (r: QueueSize)
        ensures
            r == self.spec_max_th(),
    {
        self.max_th
    }

    /// The length of the queue in the unit of the lower threshold: what the
    /// caller averages.
    pub fn measured_size(&self) -> (n: u64)
        ensures
            n == match self.spec_min_th().unit {
                QueueSizeUnit::Packets => self.spec_base()@.n_packets,
                QueueSizeUnit::Bytes => self.spec_base()@.n_bytes,
            },
    {
        match self.min_th.unit {
            QueueSizeUnit::Packets => self.base.packet_count(),
            QueueSizeUnit::Bytes => self.base.byte_count(),
        }
    }

    /// Whether `item` would find the queue full, in which case no signal is
    /// needed to judge it.
    pub fn would_exceed_limit(&self, item: &QueueDiscItem) -> (r: bool)
        ensures
            r == self.spec_base()@.over_limit(item.spec_len_bytes()),
    {
        match self.base.max_size() {
            None => false,
            Some(limit) => match limit.unit {
                QueueSizeUnit::Packets => self.base.packet_count().saturating_add(1) > limit.value,
                QueueSizeUnit::Bytes => self.base.byte_count().saturating_add(item.len_bytes())
                    > limit.value,
            },
        }
    }

    /// Sets the signal under which the next packet is judged.
    pub fn set_signal(&mut self, signal: RedSignal)
        ensures
            final(self).spec_signal() == signal,
            final(self).spec_base() == old(self).spec_base(),
            final(self).spec_items() == old(self).spec_items(),
            final(self).same_settings(old(self)),
    {
        self.signal = signal;
    }
}

impl QueueDisc for RedQueueDisc {
    closed spec fn spec_base(&self) -> QueueDiscBase {
        self.base
    }

    closed spec fn spec_items(&self) -> Seq<QueueDiscItem> {
        self.queue@
    }

    open spec fn spec_inner_room(&self, bytes: u64) -> bool {
        true
    }

    open spec fn spec_dequeue_room(&self) -> bool {
        true
    }

    fn name(&self) -> (r: &'static str)
        ensures
            r@ == "red"@,
    {
        "red"
    }

    fn base(&self) -> (r: &QueueDiscBase) {
        &self.base
    }

    fn base_mut(&mut self) -> (r: &mut QueueDiscBase)
        ensures
            final(self).spec_dequeue_room(),
            final(self).spec_inner_room(0),
            final(self).same_settings(old(self)),
            final(self).spec_signal() == old(self).spec_signal(),
    {
        &mut self.base
    }

    /// Queues, marks or drops `item` as [`Self::spec_verdict`] says; a drop
    /// and a mark are counted under their reasons. The signal is used up:
    /// the next packet is judged under `Pass` unless a new signal is set.
    fn do_enqueue(&mut self, item: QueueDiscItem) -> (ok: bool)
        ensures
            final(self).same_settings(old(self)),
            final(self).spec_signal() == RedSignal::Pass,
            match old(self).spec_verdict(item) {
                RedVerdict::LimitDrop => !ok && final(self).spec_base()@ == old(self).spec_base()@.dropped(
                    item.spec_len_bytes(),
                    Self::spec_limit_reason(),
                    QueueDropPhase::BeforeEnqueue,
                ),
                RedVerdict::ForcedDrop => !ok && final(self).spec_base()@ == old(self).spec_base()@.dropped(
                    item.spec_len_bytes(),
                    Self::spec_forced_reason(),
                    QueueDropPhase::BeforeEnqueue,
                ),
                RedVerdict::RandomDrop => !ok && final(self).spec_base()@ == old(self).spec_base()@.dropped(
                    item.spec_len_bytes(),
                    Self::spec_random_reason(),
                    QueueDropPhase::BeforeEnqueue,
                ),
                RedVerdict::Mark => ok && final(self).spec_base()@ == old(self).spec_base()@.marked(
                    item.spec_len_bytes(),
                    Self::spec_mark_reason(),
                ) && final(self).spec_items().drop_last() == old(self).spec_items()
                    && is_marked_copy(final(self).spec_items().last(), item),
                RedVerdict::Admit => ok && final(self).spec_base() == old(self).spec_base()
                    && final(self).spec_items() == old(self).spec_items().push(item),
            },
    {
        let mut item = item;
        let bytes = item.len_bytes();
        let signal = self.signal;
        self.signal = RedSignal::Pass;
        if self.would_exceed_limit(&item) {
            self.base.stats_mut().record_drop(
                bytes,
                Self::LIMIT_EXCEEDED_DROP,
                QueueDropPhase::BeforeEnqueue,
            );
            return false;
        }
        match signal {
            RedSignal::Pass => {
                self.queue.push_back(item);
                true
            },
            RedSignal::Early | RedSignal::Forced => {
                if self.ecn_enabled && item_is_ecn_capable(&item) {
                    mark_item_ecn(&mut item);
                    self.base.stats_mut().record_marked(bytes, Self::RED_ECN_MARK);
                    let ghost before = self.queue@;
                    self.queue.push_back(item);
                    assert(self.queue@.drop_last() =~= before);
                    return true;
                }
                let reason = match signal {
                    RedSignal::Forced => Self::RED_FORCED_DROP,
                    _ => Self::RED_RANDOM_DROP,
                };
                self.base.stats_mut().record_drop(bytes, reason, QueueDropPhase::BeforeEnqueue);
                false
            },
        }
    }

    fn do_dequeue(&mut self) -> (r: Option<QueueDiscItem>)
        ensures
            final(self).same_settings(old(self)),
            final(self).spec_signal() == old(self).spec_signal(),
    {
        self.queue.pop_front()
    }

    fn do_peek(&self) -> (r: Option<&QueueDiscItem>) {
        if self.queue.len() > 0 {
            Some(&self.queue[0])
        } else {
            None
        }
    }

    /// The thresholds must be in one unit, the lower below the upper.
    fn check_config(&self) -> (r: Result<(), String>)
        ensures
            if self.spec_min_th().unit != self.spec_max_th().unit {
                r matches Err(e) && e@ == "RED requires min_th and max_th using the same unit"@
            } else if self.spec_min_th().value >= self.spec_max_th().value {
                r matches Err(e) && e@ == "RED requires min_th < max_th"@
            } else {
                r is Ok
            },
    {
        if self.min_th.unit != self.max_th.unit {
            return Err("RED requires min_th and max_th using the same unit".to_owned());
        }
        if self.min_th.value >= self.max_th.value {
            return Err("RED requires min_th < max_th".to_owned());
        }
        Ok(())
    }

    /// Forgets the signal: the next packet is judged under `Pass`.
    fn initialize_params(&mut self) -> (r: Result<(), String>)
        ensures
            r is Ok,
            final(self).same_settings(old(self)),
            final(self).spec_signal() == RedSignal::Pass,
    {
        self.signal = RedSignal::Pass;
        Ok(())
    }
}

} // verus!
