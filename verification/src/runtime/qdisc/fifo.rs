//! First-in, first-out queue with a tail drop at the size limit.

use vstd::prelude::*;
use std::collections::VecDeque;
use crate::runtime::qdisc::queue_disc::{
    QueueDisc, QueueDiscBase, QueueDiscBaseView, QueueDiscItem, QueueDiscSizePolicy,
    QueueDiscStatsView, QueueDropPhase, QueueSize, QueueSizeUnit,
};

verus! {

/// A single queue that hands packets out in the order in which they came.
pub struct FifoQueueDisc {
    base: QueueDiscBase,
    queue: VecDeque<QueueDiscItem>,
}

impl FifoQueueDisc {
    /// The reason recorded for a packet that found the queue full.
    pub const LIMIT_EXCEEDED_DROP: &'static str = "Queue disc limit exceeded";

    /// The reason recorded for a packet that found the queue full.
    pub open spec fn spec_limit_reason() -> Seq<char> {
        "Queue disc limit exceeded"@
    }

    /// An empty queue limited to 1000 packets.
    pub fn new_default() -> (q: Self)
        ensures
            q.spec_items() == Seq::<QueueDiscItem>::empty(),
            q.spec_base()@ == (QueueDiscBaseView {
                size_policy: QueueDiscSizePolicy::SingleInternalQueue,
                max_size: Some(QueueSize { unit: QueueSizeUnit::Packets, value: 1000 }),
                n_packets: 0,
                n_bytes: 0,
                stats: QueueDiscStatsView::zero(),
            }),
    {
        Self::new_with_limit(QueueSize::packets(1000))
    }

    /// An empty queue limited to `limit`.
    pub fn new_with_limit(limit: QueueSize) -> (q: Self)
        ensures
            q.spec_items() == Seq::<QueueDiscItem>::empty(),
            q.spec_base()@ == (QueueDiscBaseView {
                size_policy: QueueDiscSizePolicy::SingleInternalQueue,
                max_size: Some(limit),
                n_packets: 0,
                n_bytes: 0,
                stats: QueueDiscStatsView::zero(),
            }),
    {
        Self {
            base: QueueDiscBase::new(QueueDiscSizePolicy::SingleInternalQueue, Some(limit)),
            queue: VecDeque::new(),
        }
    }

    /// Whether `item` would take the queue over its limit.
    fn would_exceed_limit(&self, item: &QueueDiscItem) -> (r: bool)
        ensures
            r == self.spec_base()@.over_limit(item.spec_len_bytes()),
    {
        match self.base.max_size() {
            None => false,
            Some(limit) => match limit.unit {
                QueueSizeUnit::Packets => self.base.packet_count().saturating_add(1) > limit.value,
                QueueSizeUnit::Bytes => self.base.byte_count().saturating_add(item.len_bytes())
                    > limit.value,
            },
        }
    }
}

impl QueueDisc for FifoQueueDisc {
    closed spec fn spec_base(&self) -> QueueDiscBase {
        self.base
    }

    closed spec fn spec_items(&self) -> Seq<QueueDiscItem> {
        self.queue@
    }

    open spec fn spec_inner_room(&self, bytes: u64) -> bool {
        true
    }

    open spec fn spec_dequeue_room(&self) -> bool {
        true
    }

    fn name(&self) -> (r: &'static str)
        ensures
            r@ == "fifo"@,
    {
        "fifo"
    }

    fn base(&self) -> (r: &QueueDiscBase) {
        &self.base
    }

    fn base_mut(&mut self) -> (r: &mut QueueDiscBase)
        ensures
            final(self).spec_dequeue_room(),
            final(self).spec_inner_room(0),
    {
        &mut self.base
    }

    /// Appends `item` unless it would take the queue over its limit; a
    /// refused item is counted as dropped for [`Self::LIMIT_EXCEEDED_DROP`].
    fn do_enqueue(&mut self, item: QueueDiscItem) -> (ok: bool)
        ensures
            ok == !old(self).spec_base()@.over_limit(item.spec_len_bytes()),
            ok ==> final(self).spec_items() == old(self).spec_items().push(item) && final(self).spec_base() == old(self).spec_base(),
            !ok ==> final(self).spec_base()@ == old(self).spec_base()@.dropped(
                item.spec_len_bytes(),
                Self::spec_limit_reason(),
                QueueDropPhase::BeforeEnqueue,
            ),
    {
        if self.would_exceed_limit(&item) {
            self.drop_before_enqueue(&item, Self::LIMIT_EXCEEDED_DROP);
            return false;
        }
        self.queue.push_back(item);
        true
    }

    fn do_dequeue(&mut self) -> (r: Option<QueueDiscItem>) {
        self.queue.pop_front()
    }

    fn do_peek(&self) -> (r: Option<&QueueDiscItem>) {
        if self.queue.len() > 0 {
            Some(&self.queue[0])
        } else {
            None
        }
    }

    /// A FIFO needs a size limit.
    fn check_config(&self) -> (r: Result<(), String>)
        ensures
            r is Ok == self.spec_base()@.max_size.is_some(),
            r matches Err(e) ==> e@ == "fifo queue disc requires max_size"@,
    {
        if self.max_size().is_none() {
            return Err("fifo queue disc requires max_size".to_owned());
        }
        Ok(())
    }

    fn initialize_params(&mut self) -> (r: Result<(), String>)
        ensures
            r is Ok,
    {
        Ok(())
    }

    /// Counts `item` as received; appends it and counts it as queued unless
    /// it would take the queue over its limit, in which case it is counted as
    /// dropped and the queue stays as it was.
    fn enqueue(&mut self, item: QueueDiscItem) -> (ok: bool)
        ensures
            ok == !old(self).spec_base()@.over_limit(item.spec_len_bytes()),
            ok ==> final(self).spec_items() == old(self).spec_items().push(item) && final(self).spec_base()@ == old(self).spec_base()@.received(
                item.spec_len_bytes(),
            ).count_enqueued(item.spec_len_bytes()),
            !ok ==> final(self).spec_base()@ == old(self).spec_base()@.received(
                item.spec_len_bytes(),
            ).dropped(
                item.spec_len_bytes(),
                Self::spec_limit_reason(),
                QueueDropPhase::BeforeEnqueue,
            ),
    {
        let bytes = item.len_bytes();
        self.base.stats_mut().record_received(bytes);
        if self.do_enqueue(item) {
            self.base.on_packet_enqueued(bytes);
            return true;
        }
        false
    }
}

} // verus!
