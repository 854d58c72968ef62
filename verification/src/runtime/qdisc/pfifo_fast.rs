//! Three priority bands served strictly in order, with the Linux priority map.

use vstd::prelude::*;
use std::collections::VecDeque;
use crate::runtime::qdisc::queue_disc::{
    flat, lemma_flat_empty, lemma_flat_head, lemma_flat_push, linux_priomap, saturating_sum,
    QueueDisc, QueueDiscBase, QueueDiscBaseView, QueueDiscItem, QueueDiscSizePolicy,
    QueueDiscStatsView, QueueDropPhase, QueueSize, QueueSizeUnit,
};

verus! {

/// Packets are sorted into bands by their priority; band 0 is served first,
/// and within a band packets leave in the order in which they came.
pub struct PfifoFastQueueDisc {
    base: QueueDiscBase,
    bands: Vec<VecDeque<QueueDiscItem>>,
}

impl PfifoFastQueueDisc {
    /// The reason recorded for a packet that found the queue full.
    pub const LIMIT_EXCEEDED_DROP: &'static str = "Queue disc limit exceeded";

    /// The number of bands.
    pub const N_BANDS: usize = 3;

    /// The reason recorded for a packet that found the queue full.
    pub open spec fn spec_limit_reason() -> Seq<char> {
        "Queue disc limit exceeded"@
    }

    /// The reason recorded for a packet whose band does not exist.
    pub open spec fn spec_band_reason() -> Seq<char> {
        "Invalid pfifo_fast band"@
    }

    /// The bands, each in the order in which its packets came.
    pub closed spec fn spec_bands(&self) -> Seq<Seq<QueueDiscItem>> {
        Seq::new(self.bands@.len(), |i: int| self.bands@[i]@)
    }

    /// The band of `item`: the Linux priority map applied to the low four
    /// bits of its priority.
    pub open spec fn spec_select_band(item: QueueDiscItem) -> usize {
        linux_priomap()[(item.spec_priority() % 16) as int]
    }

    /// Whether `item` is refused for the size limit: a packet limit is
    /// reached when as many packets are held, a byte limit when the bytes
    /// held and those of the item exceed it.
    pub open spec fn spec_over_limit(base: QueueDiscBaseView, item: QueueDiscItem) -> bool {
        match base.max_size {
            None => false,
            Some(limit) => match limit.unit {
                QueueSizeUnit::Packets => base.n_packets >= limit.value,
                QueueSizeUnit::Bytes => saturating_sum(base.n_bytes, item.spec_len_bytes())
                    > limit.value,
            },
        }
    }

    /// The packets are handed out band by band.
    pub proof fn lemma_items_are_bands(&self)
        ensures
            self.spec_items() == flat(self.spec_bands()),
    {
    }

    /// Three empty bands limited to 1000 packets.
    pub fn new_default() -> (q: Self)
        ensures
            q.spec_bands() == seq![
                Seq::<QueueDiscItem>::empty(),
                Seq::<QueueDiscItem>::empty(),
                Seq::<QueueDiscItem>::empty(),
            ],
            q.spec_base()@ == (QueueDiscBaseView {
                size_policy: QueueDiscSizePolicy::MultipleQueues,
                max_size: Some(QueueSize { unit: QueueSizeUnit::Packets, value: 1000 }),
                n_packets: 0,
                n_bytes: 0,
                stats: QueueDiscStatsView::zero(),
            }),
    {
        Self::new_with_limit(QueueSize::packets(1000))
    }

    /// Three empty bands limited to `limit`.
    pub fn new_with_limit(limit: QueueSize) -> (q: Self)
        ensures
            q.spec_bands() == seq![
                Seq::<QueueDiscItem>::empty(),
                Seq::<QueueDiscItem>::empty(),
                Seq::<QueueDiscItem>::empty(),
            ],
            q.spec_base()@ == (QueueDiscBaseView {
                size_policy: QueueDiscSizePolicy::MultipleQueues,
                max_size: Some(limit),
                n_packets: 0,
                n_bytes: 0,
                stats: QueueDiscStatsView::zero(),
            }),
    {
        let mut bands: Vec<VecDeque<QueueDiscItem>> = Vec::with_capacity(Self::N_BANDS);
        let mut i: usize = 0;
        while i < Self::N_BANDS
            invariant
                i <= 3,
                bands@.len() == i,
                forall|j: int| 0 <= j < i ==> (#[trigger] bands@[j])@ == Seq::<QueueDiscItem>::empty(),
            decreases 3 - i,
        {
            bands.push(VecDeque::new());
            i += 1;
        }
        let q = Self {
            base: QueueDiscBase::new(QueueDiscSizePolicy::MultipleQueues, Some(limit)),
            bands,
        };
        assert(q.spec_bands() =~= seq![
            Seq::<QueueDiscItem>::empty(),
            Seq::<QueueDiscItem>::empty(),
            Seq::<QueueDiscItem>::empty(),
        ]);
        q
    }

    fn would_exceed_limit(&self, item: &QueueDiscItem) -> (r: bool)
        ensures
            r == Self::spec_over_limit(self.spec_base()@, *item),
    {
        match self.base.max_size() {
            None => false,
            Some(limit) => match limit.unit {
                QueueSizeUnit::Packets => self.base.packet_count() >= limit.value,
                QueueSizeUnit::Bytes => self.base.byte_count().saturating_add(item.len_bytes())
                    > limit.value,
            },
        }
    }

    fn item_priority(item: &QueueDiscItem) -> (r: u8)
        ensures
            r == item.spec_priority(),
    {
        item.priority()
    }

    fn select_band(item: &QueueDiscItem) -> (r: usize)
        ensures
            r == Self::spec_select_band(*item),
            r <= 2,
    {
        let prio2band: [usize; 16] = [1, 2, 2, 2, 1, 2, 0, 0, 1, 1, 1, 1, 1, 1, 1, 1];
        let prio = Self::item_priority(item);
        assert(prio2band@ =~= linux_priomap());
        prio2band[(prio % 16) as usize]
    }
}

impl QueueDisc for PfifoFastQueueDisc {
    closed spec fn spec_base(&self) -> QueueDiscBase {
        self.base
    }

    closed spec fn spec_items(&self) -> Seq<QueueDiscItem> {
        flat(self.spec_bands())
    }

    open spec fn spec_inner_room(&self, bytes: u64) -> bool {
        true
    }

    open spec fn spec_dequeue_room(&self) -> bool {
        true
    }

    fn name(&self) -> (r: &'static str)
        ensures
            r@ == "pfifo_fast"@,
    {
        "pfifo_fast"
    }

    fn base(&self) -> (r: &QueueDiscBase) {
        &self.base
    }

    fn base_mut(&mut self) -> (r: &mut QueueDiscBase)
        ensures
            final(self).spec_dequeue_room(),
            final(self).spec_inner_room(0),
            final(self).spec_bands() == old(self).spec_bands(),
    {
        &mut self.base
    }

    /// Appends `item` to its band unless the size limit refuses it or the
    /// band does not exist; a refused item is counted as dropped.
    fn do_enqueue(&mut self, item: QueueDiscItem) -> (ok: bool)
        ensures
            ok == (!Self::spec_over_limit(old(self).spec_base()@, item) && Self::spec_select_band(
                item,
            ) < old(self).spec_bands().len()),
            ok ==> final(self).spec_bands() == old(self).spec_bands().update(
                Self::spec_select_band(item) as int,
                old(self).spec_bands()[Self::spec_select_band(item) as int].push(item),
            ) && final(self).spec_base() == old(self).spec_base(),
            !ok ==> final(self).spec_bands() == old(self).spec_bands() && final(self).spec_base()@ == old(self).spec_base()@.dropped(
                item.spec_len_bytes(),
                if Self::spec_over_limit(old(self).spec_base()@, item) {
                    Self::spec_limit_reason()
                } else {
                    Self::spec_band_reason()
                },
                QueueDropPhase::BeforeEnqueue,
            ),
    {
        if self.would_exceed_limit(&item) {
            self.base.stats_mut().record_drop(
                item.len_bytes(),
                Self::LIMIT_EXCEEDED_DROP,
                QueueDropPhase::BeforeEnqueue,
            );
            return false;
        }
        let band = Self::select_band(&item);
        if band >= self.bands.len() {
            self.base.stats_mut().record_drop(
                item.len_bytes(),
                "Invalid pfifo_fast band",
                QueueDropPhase::BeforeEnqueue,
            );
            return false;
        }
        let ghost before = self.spec_bands();
        self.bands[band].push_back(item);
        proof {
            assert(self.spec_bands() =~= before.update(band as int, before[band as int].push(item)));
            lemma_flat_push(before, band as int, item);
        }
        true
    }

    fn do_dequeue(&mut self) -> (r: Option<QueueDiscItem>)
        ensures
            final(self).spec_bands().len() == old(self).spec_bands().len(),
    {
        let ghost before = self.spec_bands();
        let mut k: usize = 0;
        while k < self.bands.len()
            invariant
                k <= self.bands@.len(),
                self.spec_bands() == before,
                self.spec_base() == old(self).spec_base(),
                before == old(self).spec_bands(),
                forall|j: int| 0 <= j < k ==> (#[trigger] before[j]).len() == 0,
            decreases self.bands.len() - k,
        {
            if self.bands[k].len() > 0 {
                proof {
                    lemma_flat_head(before, k as int);
                }
                let item = self.bands[k].pop_front();
                assert(self.spec_bands() =~= before.update(k as int, before[k as int].drop_first()));
                return item;
            }
            k += 1;
        }
        proof {
            lemma_flat_empty(before);
        }
        None
    }

    fn do_peek(&self) -> (r: Option<&QueueDiscItem>) {
        let ghost b = self.spec_bands();
        let mut k: usize = 0;
        while k < self.bands.len()
            invariant
                k <= self.bands@.len(),
                b == self.spec_bands(),
                forall|j: int| 0 <= j < k ==> (#[trigger] b[j]).len() == 0,
            decreases self.bands.len() - k,
        {
            if self.bands[k].len() > 0 {
                proof {
                    lemma_flat_head(b, k as int);
                }
                return Some(&self.bands[k][0]);
            }
            k += 1;
        }
        proof {
            lemma_flat_empty(b);
        }
        None
    }

    /// The discipline needs a packet limit and exactly three bands.
    fn check_config(&self) -> (r: Result<(), String>)
        ensures
            match self.spec_base()@.max_size {
                None => r matches Err(e) && e@ == "pfifo_fast queue disc requires max_size"@,
                Some(limit) => if limit.unit != QueueSizeUnit::Packets {
                    r matches Err(e) && e@
                        == "pfifo_fast queue disc requires packet-mode max_size"@
                } else if self.spec_bands().len() != 3 {
                    r matches Err(e) && e@ == "pfifo_fast queue disc requires exactly 3 bands"@
                } else {
                    r is Ok
                },
            },
    {
        match self.max_size() {
            None => Err("pfifo_fast queue disc requires max_size".to_owned()),
            Some(limit) => {
                if limit.unit != QueueSizeUnit::Packets {
                    return Err("pfifo_fast queue disc requires packet-mode max_size".to_owned());
                }
                if self.bands.len() != Self::N_BANDS {
                    return Err("pfifo_fast queue disc requires exactly 3 bands".to_owned());
                }
                Ok(())
            },
        }
    }

    fn initialize_params(&mut self) -> (r: Result<(), String>)
        ensures
            r is Ok,
    {
        Ok(())
    }

    /// Counts `item` as received; appends it to its band and counts it as
    /// queued unless it is refused, in which case it is counted as dropped.
    fn enqueue(&mut self, item: QueueDiscItem) -> (ok: bool)
        ensures
            ok == (!Self::spec_over_limit(old(self).spec_base()@, item) && Self::spec_select_band(
                item,
            ) < old(self).spec_bands().len()),
            ok ==> final(self).spec_bands() == old(self).spec_bands().update(
                Self::spec_select_band(item) as int,
                old(self).spec_bands()[Self::spec_select_band(item) as int].push(item),
            ) && final(self).spec_base()@ == old(self).spec_base()@.received(
                item.spec_len_bytes(),
            ).count_enqueued(item.spec_len_bytes()),
            !ok ==> final(self).spec_bands() == old(self).spec_bands() && final(self).spec_base()@ == old(self).spec_base()@.received(item.spec_len_bytes()).dropped(
                item.spec_len_bytes(),
                if Self::spec_over_limit(old(self).spec_base()@, item) {
                    Self::spec_limit_reason()
                } else {
                    Self::spec_band_reason()
                },
                QueueDropPhase::BeforeEnqueue,
            ),
    {
        let bytes = item.len_bytes();
        self.base.stats_mut().record_received(bytes);
        if self.do_enqueue(item) {
            self.base.on_packet_enqueued(bytes);
            return true;
        }
        false
    }
}

} // verus!
