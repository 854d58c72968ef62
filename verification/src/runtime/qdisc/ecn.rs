//! First-in, first-out queue that marks ECN-capable packets, and drops the
//! others, once the queue has grown to its mark threshold.

use vstd::prelude::*;
use std::collections::VecDeque;
use crate::text::{chars_are, keyword, keyword_of};
use crate::runtime::qdisc::queue_disc::{
    QueueDisc, QueueDiscBase, QueueDiscBaseView, QueueDiscItem, QueueDiscSizePolicy,
    QueueDiscStatsView, QueueDropPhase, QueueSize, QueueSizeUnit,
};

verus! {

/// Whether the keyword `k` declares a packet ECN-capable.
pub open spec fn is_ecn_word(k: Seq<char>) -> bool {
    k == "1"@ || k == "true"@ || k == "yes"@ || k == "ect0"@ || k == "ect1"@ || k == "ce"@
}

/// Whether the metadata `meta` declares ECN capability under `key`.
pub open spec fn ecn_flag(meta: Map<Seq<char>, String>, key: Seq<char>) -> bool {
    meta.contains_key(key) && is_ecn_word(keyword(meta[key]@))
}

/// The metadata of `item` as text: each key with the characters of its value.
pub open spec fn metadata_text(item: QueueDiscItem) -> Map<Seq<char>, Seq<char>> {
    item.metadata.spec_map().map_values(|s: String| s@)
}

/// Whether `item` is ECN-capable: its metadata says so under `ecn_capable`
/// or under `ecn`.
pub open spec fn ecn_capable(item: QueueDiscItem) -> bool {
    ecn_flag(item.metadata.spec_map(), "ecn_capable"@) || ecn_flag(
        item.metadata.spec_map(),
        "ecn"@,
    )
}

/// Whether `marked` is `item` with the congestion mark set: `ecn_marked` is
/// `1`, `ecn` is `ce`, and nothing else differs.
pub open spec fn is_marked_copy(marked: QueueDiscItem, item: QueueDiscItem) -> bool {
    &&& marked.packet_len_bytes == item.packet_len_bytes
    &&& marked.flow_id == item.flow_id
    &&& marked.class_id == item.class_id
    &&& metadata_text(marked) == metadata_text(item).insert("ecn_marked"@, "1"@).insert(
        "ecn"@,
        "ce"@,
    )
}

/// Whether the metadata of `item` declares ECN capability under `key`.
fn has_ecn_flag(item: &QueueDiscItem, key: &str) -> (r: bool)
    ensures
        r == ecn_flag(item.metadata.spec_map(), key@),
{
    match item.metadata.get(key) {
        Some(raw) => {
            let k = keyword_of(raw.as_str());
            chars_are(&k, "1") || chars_are(&k, "true") || chars_are(&k, "yes") || chars_are(
                &k,
                "ect0",
            ) || chars_are(&k, "ect1") || chars_are(&k, "ce")
        },
        None => false,
    }
}

/// Whether `item` is ECN-capable.
pub fn item_is_ecn_capable(item: &QueueDiscItem) -> (r: bool)
    ensures
        r == ecn_capable(*item),
{
    has_ecn_flag(item, "ecn_capable") || has_ecn_flag(item, "ecn")
}

/// Sets the congestion mark in the metadata of `item`.
pub fn mark_item_ecn(item: &mut QueueDiscItem)
    ensures
        is_marked_copy(*final(item), *old(item)),
{
    let ghost m0 = item.metadata.spec_map();
    item.metadata.insert("ecn_marked".to_owned(), "1".to_owned());
    item.metadata.insert("ecn".to_owned(), "ce".to_owned());
    assert(metadata_text(*item) =~= metadata_text(*old(item)).insert("ecn_marked"@, "1"@).insert(
        "ecn"@,
        "ce"@,
    ));
}

/// A FIFO with a mark threshold below its size limit.
pub struct EcnQueueDisc {
    base: QueueDiscBase,
    queue: VecDeque<QueueDiscItem>,
    mark_threshold: QueueSize,
}

/// What an ECN queue does with a packet.
pub enum EcnVerdict {
    /// Refused for the size limit.
    LimitDrop,
    /// Refused above the threshold for want of ECN capability.
    NonEcnDrop,
    /// Queued with the congestion mark set.
    Mark,
    /// Queued as it is.
    Admit,
}

impl EcnQueueDisc {
    /// The reason recorded for a packet that found the queue full.
    pub const LIMIT_EXCEEDED_DROP: &'static str = "Queue disc limit exceeded";

    /// The reason recorded for a packet without ECN above the threshold.
    pub const NON_ECN_DROP: &'static str = "ECN required above mark threshold";

    /// The reason recorded for a marked packet.
    pub const ECN_MARK: &'static str = "ECN mark";

    pub open spec fn spec_limit_reason() -> Seq<char> {
        "Queue disc limit exceeded"@
    }

    pub open spec fn spec_non_ecn_reason() -> Seq<char> {
        "ECN required above mark threshold"@
    }

    pub open spec fn spec_mark_reason() -> Seq<char> {
        "ECN mark"@
    }

    /// The size from which on packets are marked or dropped.
    pub closed spec fn spec_mark_threshold(&self) -> QueueSize {
        self.mark_threshold
    }

    /// Whether a queue with the bookkeeping `base` has reached `threshold`.
    pub open spec fn spec_above(base: QueueDiscBaseView, threshold: QueueSize) -> bool {
        match threshold.unit {
            QueueSizeUnit::Packets => base.n_packets >= threshold.value,
            QueueSizeUnit::Bytes => base.n_bytes >= threshold.value,
        }
    }

    /// What the queue does with `item`: the size limit comes first, then the
    /// mark threshold.
    pub open spec fn spec_verdict(&self, item: QueueDiscItem) -> EcnVerdict {
        if self.spec_base()@.over_limit(item.spec_len_bytes()) {
            EcnVerdict::LimitDrop
        } else if Self::spec_above(self.spec_base()@, self.spec_mark_threshold()) {
            if ecn_capable(item) {
                EcnVerdict::Mark
            } else {
                EcnVerdict::NonEcnDrop
            }
        } else {
            EcnVerdict::Admit
        }
    }

    /// An empty queue limited to 1000 packets that marks from 200 packets on.
    pub fn new_default() -> (q: Self)
        ensures
            q.spec_items() == Seq::<QueueDiscItem>::empty(),
            q.spec_mark_threshold() == (QueueSize { unit: QueueSizeUnit::Packets, value: 200 }),
            q.spec_base()@ == (QueueDiscBaseView {
                size_policy: QueueDiscSizePolicy::SingleInternalQueue,
                max_size: Some(QueueSize { unit: QueueSizeUnit::Packets, value: 1000 }),
                n_packets: 0,
                n_bytes: 0,
                stats: QueueDiscStatsView::zero(),
            }),
    {
        Self::new(QueueSize::packets(1000), QueueSize::packets(200))
    }

    /// An empty queue limited to `limit` that marks from `mark_threshold` on.
    pub fn new(limit: QueueSize, mark_threshold: QueueSize) -> (q: Self)
        ensures
            q.spec_items() == Seq::<QueueDiscItem>::empty(),
            q.spec_mark_threshold() == mark_threshold,
            q.spec_base()@ == (QueueDiscBaseView {
                size_policy: QueueDiscSizePolicy::SingleInternalQueue,
                max_size: Some(limit),
                n_packets: 0,
                n_bytes: 0,
                stats: QueueDiscStatsView::zero(),
            }),
    {
        Self {
            base: QueueDiscBase::new(QueueDiscSizePolicy::SingleInternalQueue, Some(limit)),
            queue: VecDeque::new(),
            mark_threshold,
        }
    }

    fn would_exceed_limit(&self, item: &QueueDiscItem) -> (r: bool)
        ensures
            r == self.spec_base()@.over_limit(item.spec_len_bytes()),
    {
        match self.base.max_size() {
            None => false,
            Some(limit) => match limit.unit {
                QueueSizeUnit::Packets => self.base.packet_count().saturating_add(1) > limit.value,
                QueueSizeUnit::Bytes => self.base.byte_count().saturating_add(item.len_bytes())
                    > limit.value,
            },
        }
    }

    fn above_mark_threshold(&self) -> (r: bool)
        ensures
            r == Self::spec_above(self.spec_base()@, self.spec_mark_threshold()),
    {
        match self.mark_threshold.unit {
            QueueSizeUnit::Packets => self.base.packet_count() >= self.mark_threshold.value,
            QueueSizeUnit::Bytes => self.base.byte_count() >= self.mark_threshold.value,
        }
    }

    fn is_ecn_capable(item: &QueueDiscItem) -> (r: bool)
        ensures
            r == ecn_capable(*item),
    {
        item_is_ecn_capable(item)
    }

    fn mark_ecn(item: &mut QueueDiscItem)
        ensures
            is_marked_copy(*final(item), *old(item)),
    {
        mark_item_ecn(item)
    }
}

impl QueueDisc for EcnQueueDisc {
    closed spec fn spec_base(&self) -> QueueDiscBase {
        self.base
    }

    closed spec fn spec_items(&self) -> Seq<QueueDiscItem> {
        self.queue@
    }

    open spec fn spec_inner_room(&self, bytes: u64) -> bool {
        true
    }

    open spec fn spec_dequeue_room(&self) -> bool {
        true
    }

    fn name(&self) -> (r: &'static str)
        ensures
            r@ == "ecn"@,
    {
        "ecn"
    }

    fn base(&self) -> (r: &QueueDiscBase) {
        &self.base
    }

    fn base_mut(&mut self) -> (r: &mut QueueDiscBase)
        ensures
            final(self).spec_dequeue_room(),
            final(self).spec_inner_room(0),
            final(self).spec_mark_threshold() == old(self).spec_mark_threshold(),
    {
        &mut self.base
    }

    /// Queues, marks or drops `item` as [`Self::spec_verdict`] says; a drop
    /// and a mark are counted under their reasons.
    fn do_enqueue(&mut self, item: QueueDiscItem) -> (ok: bool)
        ensures
            final(self).spec_mark_threshold() == old(self).spec_mark_threshold(),
            match old(self).spec_verdict(item) {
                EcnVerdict::LimitDrop => !ok && final(self).spec_base()@ == old(self).spec_base()@.dropped(
                    item.spec_len_bytes(),
                    Self::spec_limit_reason(),
                    QueueDropPhase::BeforeEnqueue,
                ),
                EcnVerdict::NonEcnDrop => !ok && final(self).spec_base()@ == old(self).spec_base()@.dropped(
                    item.spec_len_bytes(),
                    Self::spec_non_ecn_reason(),
                    QueueDropPhase::BeforeEnqueue,
                ),
                EcnVerdict::Mark => ok && final(self).spec_base()@ == old(self).spec_base()@.marked(
                    item.spec_len_bytes(),
                    Self::spec_mark_reason(),
                ) && final(self).spec_items().drop_last() == old(self).spec_items()
                    && is_marked_copy(final(self).spec_items().last(), item),
                EcnVerdict::Admit => ok && final(self).spec_base() == old(self).spec_base()
                    && final(self).spec_items() == old(self).spec_items().push(item),
            },
    {
        let mut item = item;
        let bytes = item.len_bytes();
        if self.would_exceed_limit(&item) {
            self.base.stats_mut().record_drop(
                bytes,
                Self::LIMIT_EXCEEDED_DROP,
                QueueDropPhase::BeforeEnqueue,
            );
            return false;
        }
        if self.above_mark_threshold() {
            if Self::is_ecn_capable(&item) {
                Self::mark_ecn(&mut item);
                self.base.stats_mut().record_marked(bytes, Self::ECN_MARK);
                let ghost before = self.queue@;
                self.queue.push_back(item);
                assert(self.queue@.drop_last() =~= before);
                return true;
            }
            self.base.stats_mut().record_drop(
                bytes,
                Self::NON_ECN_DROP,
                QueueDropPhase::BeforeEnqueue,
            );
            return false;
        }
        self.queue.push_back(item);
        true
    }

    fn do_dequeue(&mut self) -> (r: Option<QueueDiscItem>)
        ensures
            final(self).spec_mark_threshold() == old(self).spec_mark_threshold(),
    {
        self.queue.pop_front()
    }

    fn do_peek(&self) -> (r: Option<&QueueDiscItem>) {
        if self.queue.len() > 0 {
            Some(&self.queue[0])
        } else {
            None
        }
    }

    /// The queue needs a size limit, a threshold in the unit of the limit,
    /// and a threshold that is not above the limit.
    fn check_config(&self) -> (r: Result<(), String>)
        ensures
            match self.spec_base()@.max_size {
                None => r matches Err(e) && e@ == "ECN queue requires max_size"@,
                Some(limit) => if limit.unit != self.spec_mark_threshold().unit {
                    r matches Err(e) && e@
                        == "ECN queue requires threshold unit matching max_size unit"@
                } else if self.spec_mark_threshold().value > limit.value {
                    r matches Err(e) && e@ == "ECN queue requires mark_threshold <= max_size"@
                } else {
                    r is Ok
                },
            },
    {
        match self.max_size() {
            None => Err("ECN queue requires max_size".to_owned()),
            Some(limit) => {
                if limit.unit != self.mark_threshold.unit {
                    return Err(
                        "ECN queue requires threshold unit matching max_size unit".to_owned(),
                    );
                }
                if self.mark_threshold.value > limit.value {
                    return Err("ECN queue requires mark_threshold <= max_size".to_owned());
                }
                Ok(())
            },
        }
    }

    fn initialize_params(&mut self) -> (r: Result<(), String>)
        ensures
            r is Ok,
            final(self).spec_mark_threshold() == old(self).spec_mark_threshold(),
    {
        Ok(())
    }

    /// Counts `item` as received, then queues, marks or drops it as
    /// [`Self::spec_verdict`] says; a queued packet is counted as queued.
    fn enqueue(&mut self, item: QueueDiscItem) -> (ok: bool)
        ensures
            final(self).spec_mark_threshold() == old(self).spec_mark_threshold(),
            match old(self).spec_verdict(item) {
                EcnVerdict::LimitDrop => !ok && final(self).spec_base()@ == old(self).spec_base()@.received(item.spec_len_bytes()).dropped(
                    item.spec_len_bytes(),
                    Self::spec_limit_reason(),
                    QueueDropPhase::BeforeEnqueue,
                ),
                EcnVerdict::NonEcnDrop => !ok && final(self).spec_base()@ == old(self).spec_base()@.received(item.spec_len_bytes()).dropped(
                    item.spec_len_bytes(),
                    Self::spec_non_ecn_reason(),
                    QueueDropPhase::BeforeEnqueue,
                ),
                EcnVerdict::Mark => ok && final(self).spec_base()@ == old(self).spec_base()@.received(
                    item.spec_len_bytes(),
                ).marked(item.spec_len_bytes(), Self::spec_mark_reason()).count_enqueued(
                    item.spec_len_bytes(),
                ) && final(self).spec_items().drop_last() == old(self).spec_items()
                    && is_marked_copy(final(self).spec_items().last(), item),
                EcnVerdict::Admit => ok && final(self).spec_base()@ == old(self).spec_base()@.received(item.spec_len_bytes()).count_enqueued(
                    item.spec_len_bytes(),
                ) && final(self).spec_items() == old(self).spec_items().push(item),
            },
    {
        let bytes = item.len_bytes();
        self.base.stats_mut().record_received(bytes);
        if self.do_enqueue(item) {
            self.base.on_packet_enqueued(bytes);
            return true;
        }
        false
    }
}

} // verus!
