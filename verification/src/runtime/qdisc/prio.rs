//! Strict-priority scheduling over a set of FIFO classes.

use vstd::prelude::*;
use crate::runtime::qdisc::fifo::FifoQueueDisc;
use crate::runtime::qdisc::queue_disc::{
    flat, lemma_flat_empty, lemma_flat_head, lemma_flat_push, linux_priomap, QueueDisc,
    QueueDiscBase, QueueDiscBaseView, QueueDiscItem, QueueDiscSizePolicy, QueueDiscStatsView,
    QueueDropPhase, QueueSize, QueueSizeUnit,
};

verus! {

/// Packets are sorted into FIFO classes by class id or by priority; class 0
/// is served first.
pub struct PrioQueueDisc {
    base: QueueDiscBase,
    classes: Vec<FifoQueueDisc>,
    prio2band: [usize; 16],
}

/// The bookkeeping of a freshly made class: empty, limited to 1000 packets.
pub open spec fn fresh_class_base() -> QueueDiscBaseView {
    QueueDiscBaseView {
        size_policy: QueueDiscSizePolicy::SingleInternalQueue,
        max_size: Some(QueueSize { unit: QueueSizeUnit::Packets, value: 1000 }),
        n_packets: 0,
        n_bytes: 0,
        stats: QueueDiscStatsView::zero(),
    }
}

/// The smaller of two numbers.
pub open spec fn least(a: usize, b: usize) -> usize {
    if a <= b {
        a
    } else {
        b
    }
}

/// Whether each of the classes with the bookkeeping `bases` can count one
/// more packet of `bytes` bytes.
pub open spec fn classes_have_room(bases: Seq<QueueDiscBase>, bytes: u64) -> bool {
    forall|k: int| 0 <= k < bases.len() ==> (#[trigger] bases[k])@.room(bytes)
}

/// Whether each class that holds a packet can count its head as handed out.
pub open spec fn classes_can_dequeue(
    items: Seq<Seq<QueueDiscItem>>,
    bases: Seq<QueueDiscBase>,
) -> bool {
    forall|k: int|
        0 <= k < items.len() && k < bases.len() && (#[trigger] items[k]).len() > 0
            ==> bases[k]@.stats.can_record_dequeued(items[k][0].spec_len_bytes())
}

impl PrioQueueDisc {
    /// The smallest number of classes.
    pub const MIN_CLASSES: usize = 2;

    /// The number of classes made when none is asked for.
    pub const DEFAULT_CLASSES: usize = 3;

    /// The reason recorded for a packet whose band does not exist.
    pub open spec fn spec_band_reason() -> Seq<char> {
        "Selected band out of range"@
    }

    /// The queued packets of each class.
    pub closed spec fn spec_class_items(&self) -> Seq<Seq<QueueDiscItem>> {
        Seq::new(self.classes@.len(), |i: int| self.classes@[i].spec_items())
    }

    /// The bookkeeping of each class.
    pub closed spec fn spec_class_bases(&self) -> Seq<QueueDiscBase> {
        Seq::new(self.classes@.len(), |i: int| self.classes@[i].spec_base())
    }

    /// The band of each of the sixteen priorities.
    pub closed spec fn spec_priomap(&self) -> Seq<usize> {
        self.prio2band@
    }

    /// The Linux priority map with every band capped at the last of
    /// `n_classes` classes.
    pub open spec fn spec_default_priomap(n_classes: usize) -> Seq<usize> {
        Seq::new(
            16,
            |i: int|
                least(
                    linux_priomap()[i],
                    if n_classes >= 1 {
                        (n_classes - 1) as usize
                    } else {
                        0
                    },
                ),
        )
    }

    /// The band of `item`: its class id where that names a class, else the
    /// band of the low four bits of its priority.
    pub open spec fn spec_classify(&self, item: QueueDiscItem) -> usize {
        match item.class_id {
            Some(c) if (c as usize) < self.spec_class_items().len() => c as usize,
            _ => self.spec_priomap()[(item.spec_priority() % 16) as int],
        }
    }

    /// The packets are handed out class by class.
    pub proof fn lemma_items_are_classes(&self)
        ensures
            self.spec_items() == flat(self.spec_class_items()),
            self.spec_class_bases().len() == self.spec_class_items().len(),
            self.spec_priomap().len() == 16,
    {
    }

    /// Three classes with the Linux priority map.
    pub fn new_default() -> (q: Self)
        ensures
            q.spec_class_items().len() == 3,
            q.spec_class_bases().len() == 3,
            forall|i: int| 0 <= i < 3 ==> (#[trigger] q.spec_class_items()[i]).len() == 0,
            forall|i: int| 0 <= i < 3 ==> (#[trigger] q.spec_class_bases()[i])@ == fresh_class_base(),
            q.spec_priomap() == Self::spec_default_priomap(3),
            q.spec_base()@ == (QueueDiscBaseView {
                size_policy: QueueDiscSizePolicy::NoLimits,
                max_size: None,
                n_packets: 0,
                n_bytes: 0,
                stats: QueueDiscStatsView::zero(),
            }),
    {
        Self::new_with_classes(Self::DEFAULT_CLASSES)
    }

    /// `n_classes` classes, but at least two, each an empty FIFO of 1000
    /// packets, with the Linux priority map capped at the last class.
    pub fn new_with_classes(n_classes: usize) -> (q: Self)
        ensures
            q.spec_class_items().len() == (if n_classes >= 2 {
                n_classes
            } else {
                2
            }),
            q.spec_class_bases().len() == q.spec_class_items().len(),
            forall|i: int|
                0 <= i < q.spec_class_items().len() ==> (#[trigger] q.spec_class_items()[i]).len()
                    == 0,
            forall|i: int|
                0 <= i < q.spec_class_bases().len() ==> (#[trigger] q.spec_class_bases()[i])@
                    == fresh_class_base(),
            q.spec_priomap() == Self::spec_default_priomap(q.spec_class_items().len() as usize),
            q.spec_base()@ == (QueueDiscBaseView {
                size_policy: QueueDiscSizePolicy::NoLimits,
                max_size: None,
                n_packets: 0,
                n_bytes: 0,
                stats: QueueDiscStatsView::zero(),
            }),
    {
        let class_count: usize = if n_classes >= Self::MIN_CLASSES {
            n_classes
        } else {
            Self::MIN_CLASSES
        };
        let mut classes: Vec<FifoQueueDisc> = Vec::new();
        let mut i: usize = 0;
        while i < class_count
            invariant
                i <= class_count,
                classes@.len() == i,
                forall|j: int| 0 <= j < i ==> (#[trigger] classes@[j]).spec_items().len() == 0,
                forall|j: int| 0 <= j < i ==> (#[trigger] classes@[j]).spec_base()@ == fresh_class_base(),
            decreases class_count - i,
        {
            classes.push(FifoQueueDisc::new_default());
            i += 1;
        }
        Self {
            base: QueueDiscBase::new(QueueDiscSizePolicy::NoLimits, None),
            classes,
            prio2band: Self::default_prio2band(class_count),
        }
    }

    fn default_prio2band(n_classes: usize) -> (r: [usize; 16])
        ensures
            r@ == Self::spec_default_priomap(n_classes),
    {
        let default: [usize; 16] = [1, 2, 2, 2, 1, 2, 0, 0, 1, 1, 1, 1, 1, 1, 1, 1];
        assert(default@ =~= linux_priomap());
        let max_band: usize = n_classes.saturating_sub(1);
        let mut out: [usize; 16] = [0; 16];
        let mut i: usize = 0;
        while i < 16
            invariant
                i <= 16,
                default@ == linux_priomap(),
                max_band == (if n_classes >= 1 {
                    (n_classes - 1) as usize
                } else {
                    0
                }),
                forall|j: int| 0 <= j < i ==> out@[j] == least(linux_priomap()[j], max_band),
            decreases 16 - i,
        {
            let band = default[i];
            out[i] = if band <= max_band {
                band
            } else {
                max_band
            };
            i += 1;
        }
        assert(out@ =~= Self::spec_default_priomap(n_classes));
        out
    }

    fn item_priority(item: &QueueDiscItem) -> (r: u8)
        ensures
            r == item.spec_priority(),
    {
        item.priority()
    }

    fn classify_band(&self, item: &QueueDiscItem) -> (r: usize)
        ensures
            r == self.spec_classify(*item),
    {
        if let Some(class_id) = item.class_id {
            let band = class_id as usize;
            if band < self.classes.len() {
                return band;
            }
        }
        self.prio2band[(Self::item_priority(item) % 16) as usize]
    }

    /// Maps the priority `prio` to the class `band`.
    pub fn set_band_for_priority(&mut self, prio: u8, band: usize) -> (r: Result<(), String>)
        ensures
            final(self).spec_class_items() == old(self).spec_class_items(),
            final(self).spec_class_bases() == old(self).spec_class_bases(),
            final(self).spec_base() == old(self).spec_base(),
            final(self).spec_items() == old(self).spec_items(),
            if prio >= 16 {
                r matches Err(e) && e@ == "priority must be in [0, 15]"@ && final(self).spec_priomap() == old(self).spec_priomap()
            } else if band >= old(self).spec_class_items().len() {
                r matches Err(e) && e@ == "band out of range"@ && final(self).spec_priomap() == old(self).spec_priomap()
            } else {
                r is Ok && final(self).spec_priomap() == old(self).spec_priomap().update(
                    prio as int,
                    band,
                )
            },
    {
        if prio >= 16 {
            return Err("priority must be in [0, 15]".to_owned());
        }
        if band >= self.classes.len() {
            return Err("band out of range".to_owned());
        }
        self.prio2band[prio as usize] = band;
        Ok(())
    }

    /// The class that the priority `prio` is mapped to.
    pub fn band_for_priority(&self, prio: u8) -> (r: Result<usize, String>)
        ensures
            if prio >= 16 {
                r matches Err(e) && e@ == "priority must be in [0, 15]"@
            } else {
                r == Ok::<usize, String>(self.spec_priomap()[prio as int])
            },
    {
        if prio >= 16 {
            return Err("priority must be in [0, 15]".to_owned());
        }
        Ok(self.prio2band[prio as usize])
    }

    /// The number of classes.
    pub fn class_count(&self) -> (n: usize)
        ensures
            n == self.spec_class_items().len(),
    {
        self.classes.len()
    }
}

impl QueueDisc for PrioQueueDisc {
    closed spec fn spec_base(&self) -> QueueDiscBase {
        self.base
    }

    closed spec fn spec_items(&self) -> Seq<QueueDiscItem> {
        flat(self.spec_class_items())
    }

    /// Every class can count one more packet of `bytes` bytes.
    open spec fn spec_inner_room(&self, bytes: u64) -> bool {
        classes_have_room(self.spec_class_bases(), bytes)
    }

    /// Every class that holds a packet can count its head as handed out.
    open spec fn spec_dequeue_room(&self) -> bool {
        classes_can_dequeue(self.spec_class_items(), self.spec_class_bases())
    }

    fn name(&self) -> (r: &'static str)
        ensures
            r@ == "prio"@,
    {
        "prio"
    }

    fn base(&self) -> (r: &QueueDiscBase) {
        &self.base
    }

    fn base_mut(&mut self) -> (r: &mut QueueDiscBase)
        ensures
            final(self).spec_dequeue_room() == old(self).spec_dequeue_room(),
            final(self).spec_inner_room(0) == old(self).spec_inner_room(0),
            final(self).spec_class_items() == old(self).spec_class_items(),
            final(self).spec_class_bases() == old(self).spec_class_bases(),
            final(self).spec_priomap() == old(self).spec_priomap(),
    {
        &mut self.base
    }

    /// Hands `item` to the class of its band, which queues it unless its own
    /// limit refuses it; an item whose band does not exist is counted as
    /// dropped by this discipline.
    fn do_enqueue(&mut self, item: QueueDiscItem) -> (ok: bool)
        ensures
            final(self).spec_priomap() == old(self).spec_priomap(),
            final(self).spec_class_items().len() == old(self).spec_class_items().len(),
            final(self).spec_class_bases().len() == old(self).spec_class_bases().len(),
            old(self).spec_classify(item) >= old(self).spec_class_items().len() ==> !ok && final(self).spec_class_items() == old(self).spec_class_items() && final(self).spec_class_bases()
                == old(self).spec_class_bases() && final(self).spec_base()@ == old(self).spec_base()@.dropped(
                item.spec_len_bytes(),
                Self::spec_band_reason(),
                QueueDropPhase::BeforeEnqueue,
            ),
            old(self).spec_classify(item) < old(self).spec_class_items().len() ==> {
                let band = old(self).spec_classify(item) as int;
                let before = old(self).spec_class_bases()[band]@;
                &&& final(self).spec_base() == old(self).spec_base()
                &&& ok == !before.over_limit(item.spec_len_bytes())
                &&& final(self).spec_class_items() == old(self).spec_class_items().update(
                    band,
                    if ok {
                        old(self).spec_class_items()[band].push(item)
                    } else {
                        old(self).spec_class_items()[band]
                    },
                )
                &&& forall|j: int|
                    0 <= j < final(self).spec_class_bases().len() && j != band ==> (
                    #[trigger] final(self).spec_class_bases()[j]) == old(self).spec_class_bases()[j]
                &&& final(self).spec_class_bases()[band]@ == (if ok {
                    before.received(item.spec_len_bytes()).count_enqueued(item.spec_len_bytes())
                } else {
                    before.received(item.spec_len_bytes()).dropped(
                        item.spec_len_bytes(),
                        FifoQueueDisc::spec_limit_reason(),
                        QueueDropPhase::BeforeEnqueue,
                    )
                })
            },
    {
        let band = self.classify_band(&item);
        if band >= self.classes.len() {
            self.base.stats_mut().record_drop(
                item.len_bytes(),
                "Selected band out of range",
                QueueDropPhase::BeforeEnqueue,
            );
            return false;
        }
        let ghost items0 = self.spec_class_items();
        let ghost bases0 = self.spec_class_bases();
        assert(bases0[band as int]@.room(item.spec_len_bytes()));
        let ok = self.classes[band].enqueue(item);
        proof {
            assert(self.spec_class_items() =~= items0.update(
                band as int,
                if ok {
                    items0[band as int].push(item)
                } else {
                    items0[band as int]
                },
            ));
            if ok {
                lemma_flat_push(items0, band as int, item);
            } else {
                assert(self.spec_class_items() =~= items0);
            }
        }
        ok
    }

    /// Takes the head of the first class that holds a packet; that class
    /// counts it as handed out.
    fn do_dequeue(&mut self) -> (r: Option<QueueDiscItem>)
        ensures
            final(self).spec_priomap() == old(self).spec_priomap(),
            final(self).spec_class_items().len() == old(self).spec_class_items().len(),
            final(self).spec_class_bases().len() == old(self).spec_class_bases().len(),
            forall|k: int|
                #![trigger final(self).spec_class_items()[k]]
                #![trigger final(self).spec_class_bases()[k]]
                0 <= k < old(self).spec_class_items().len() ==> {
                    let first = old(self).spec_class_items()[k].len() > 0 && forall|j: int|
                        0 <= j < k ==> (#[trigger] old(self).spec_class_items()[j]).len() == 0;
                    &&& final(self).spec_class_items()[k] == (if first {
                        old(self).spec_class_items()[k].drop_first()
                    } else {
                        old(self).spec_class_items()[k]
                    })
                    &&& first ==> final(self).spec_class_bases()[k]@ == old(self).spec_class_bases()[k]@.count_dequeued(
                        old(self).spec_class_items()[k][0].spec_len_bytes(),
                    )
                    &&& !first ==> final(self).spec_class_bases()[k] == old(self).spec_class_bases()[k]
                },
    {
        let ghost items0 = self.spec_class_items();
        let ghost bases0 = self.spec_class_bases();
        let mut k: usize = 0;
        while k < self.classes.len()
            invariant
                k <= self.classes@.len(),
                self.spec_class_items() == items0,
                self.spec_class_bases() == bases0,
                items0 == old(self).spec_class_items(),
                bases0 == old(self).spec_class_bases(),
                self.spec_base() == old(self).spec_base(),
                self.spec_priomap() == old(self).spec_priomap(),
                old(self).spec_dequeue_room(),
                forall|j: int| 0 <= j < k ==> (#[trigger] items0[j]).len() == 0,
            decreases self.classes.len() - k,
        {
            assert(items0[k as int] == self.classes@[k as int].spec_items());
            assert(bases0[k as int] == self.classes@[k as int].spec_base());
            let got = self.classes[k].dequeue();
            if let Some(item) = got {
                proof {
                    lemma_flat_head(items0, k as int);
                    assert(self.spec_class_items() =~= items0.update(
                        k as int,
                        items0[k as int].drop_first(),
                    ));
                    assert forall|j: int| 0 <= j < items0.len() && j != k implies (
                    #[trigger] self.spec_class_bases()[j]) == bases0[j] by {}
                }
                return Some(item);
            }
            proof {
                assert(self.spec_class_items() =~= items0);
                assert(self.spec_class_bases() =~= bases0);
            }
            k += 1;
        }
        proof {
            lemma_flat_empty(items0);
        }
        None
    }

    fn do_peek(&self) -> (r: Option<&QueueDiscItem>) {
        let ghost b = self.spec_class_items();
        let mut k: usize = 0;
        while k < self.classes.len()
            invariant
                k <= self.classes@.len(),
                b == self.spec_class_items(),
                forall|j: int| 0 <= j < k ==> (#[trigger] b[j]).len() == 0,
            decreases self.classes.len() - k,
        {
            assert(b[k as int] == self.classes@[k as int].spec_items());
            if let Some(item) = self.classes[k].peek() {
                proof {
                    lemma_flat_head(b, k as int);
                }
                return Some(item);
            }
            k += 1;
        }
        proof {
            lemma_flat_empty(b);
        }
        None
    }

    /// The discipline needs at least two classes.
    fn check_config(&self) -> (r: Result<(), String>)
        ensures
            if self.spec_class_items().len() < 2 {
                r matches Err(e) && e@ == "prio queue disc requires at least 2 classes"@
            } else {
                r is Ok
            },
    {
        if self.classes.len() < Self::MIN_CLASSES {
            return Err("prio queue disc requires at least 2 classes".to_owned());
        }
        Ok(())
    }

    fn initialize_params(&mut self) -> (r: Result<(), String>)
        ensures
            r is Ok,
            final(self).spec_priomap() == old(self).spec_priomap(),
            final(self).spec_class_items() == old(self).spec_class_items(),
            final(self).spec_class_bases() == old(self).spec_class_bases(),
    {
        Ok(())
    }
}

} // verus!
