//! An ordered map keyed by text: entries are kept strictly sorted by key in
//! the order of `str`, so no key occurs twice and a walk over the entries
//! visits the keys in ascending order.

use vstd::prelude::*;
use crate::text::{lemma_text_less_irreflexive, lemma_text_less_transitive, str_order, text_less};

verus! {

/// Whether the keys of `s` ascend strictly.
pub open spec fn keys_sorted<V>(s: Seq<(Seq<char>, V)>) -> bool {
    forall|i: int, j: int|
        0 <= i < j < s.len() ==> text_less((#[trigger] s[i]).0, (#[trigger] s[j]).0)
}

/// Whether some entry of `s` has the key `k`.
pub open spec fn has_key<V>(s: Seq<(Seq<char>, V)>, k: Seq<char>) -> bool {
    exists|i: int| 0 <= i < s.len() && (#[trigger] s[i]).0 == k
}

/// The value that `s` holds under `k`, if any.
pub open spec fn lookup<V>(s: Seq<(Seq<char>, V)>, k: Seq<char>) -> Option<V> {
    if has_key(s, k) {
        Some(s[choose|i: int| 0 <= i < s.len() && (#[trigger] s[i]).0 == k].1)
    } else {
        None
    }
}

/// In a sorted sequence the entry at `i` is the one found under its key.
pub proof fn lemma_lookup_at<V>(s: Seq<(Seq<char>, V)>, i: int)
    requires
        keys_sorted(s),
        0 <= i < s.len(),
    ensures
        lookup(s, s[i].0) == Some(s[i].1),
{
    let k = s[i].0;
    let j = choose|j: int| 0 <= j < s.len() && (#[trigger] s[j]).0 == k;
    lemma_text_less_irreflexive(k);
    if j < i {
        assert(text_less(s[j].0, s[i].0));
    } else if i < j {
        assert(text_less(s[i].0, s[j].0));
    }
}

/// Two sorted sequences under which every key finds the same value are equal.
pub proof fn lemma_sorted_canonical<V>(a: Seq<(Seq<char>, V)>, b: Seq<(Seq<char>, V)>)
    requires
        keys_sorted(a),
        keys_sorted(b),
        forall|k: Seq<char>| lookup(a, k) == lookup(b, k),
    ensures
        a == b,
    decreases a.len(),
{
    if a.len() == 0 {
        if b.len() > 0 {
            lemma_lookup_at(b, 0);
            assert(lookup(a, b[0].0) is None);
        }
        assert(a =~= b);
    } else if b.len() == 0 {
        lemma_lookup_at(a, 0);
        assert(lookup(b, a[0].0) is None);
    } else {
        lemma_lookup_at(a, 0);
        lemma_lookup_at(b, 0);
        let ia = choose|i: int| 0 <= i < b.len() && (#[trigger] b[i]).0 == a[0].0;
        let ib = choose|i: int| 0 <= i < a.len() && (#[trigger] a[i]).0 == b[0].0;
        assert(has_key(b, a[0].0));
        assert(has_key(a, b[0].0));
        lemma_text_less_irreflexive(a[0].0);
        if ia > 0 {
            assert(text_less(b[0].0, b[ia].0));
            if ib > 0 {
                assert(text_less(a[0].0, a[ib].0));
                lemma_text_less_transitive(a[0].0, b[0].0, a[0].0);
            }
        }
        assert(a[0].0 == b[0].0);
        assert(a[0] == b[0]);
        let x = a.drop_first();
        let y = b.drop_first();
        assert(keys_sorted(x)) by {
            assert forall|i: int, j: int| 0 <= i < j < x.len() implies text_less(
                (#[trigger] x[i]).0,
                (#[trigger] x[j]).0,
            ) by {
                assert(x[i] == a[i + 1] && x[j] == a[j + 1]);
            }
        }
        assert(keys_sorted(y)) by {
            assert forall|i: int, j: int| 0 <= i < j < y.len() implies text_less(
                (#[trigger] y[i]).0,
                (#[trigger] y[j]).0,
            ) by {
                assert(y[i] == b[i + 1] && y[j] == b[j + 1]);
            }
        }
        assert forall|k: Seq<char>| lookup(x, k) == lookup(y, k) by {
            lemma_tail_lookup(a, k);
            lemma_tail_lookup(b, k);
        }
        lemma_sorted_canonical(x, y);
        assert(a =~= seq![a[0]] + x);
        assert(b =~= seq![b[0]] + y);
    }
}

/// Lookup in the tail of a sorted sequence: the first key is gone, every
/// other key finds what it found before.
pub proof fn lemma_tail_lookup<V>(s: Seq<(Seq<char>, V)>, k: Seq<char>)
    requires
        keys_sorted(s),
        s.len() > 0,
    ensures
        lookup(s.drop_first(), k) == (if k == s[0].0 {
            None
        } else {
            lookup(s, k)
        }),
{
    let t = s.drop_first();
    assert(keys_sorted(t)) by {
        assert forall|i: int, j: int| 0 <= i < j < t.len() implies text_less(
            (#[trigger] t[i]).0,
            (#[trigger] t[j]).0,
        ) by {
            assert(t[i] == s[i + 1] && t[j] == s[j + 1]);
        }
    }
    if has_key(t, k) {
        let i = choose|i: int| 0 <= i < t.len() && (#[trigger] t[i]).0 == k;
        assert(t[i] == s[i + 1]);
        lemma_lookup_at(t, i);
        lemma_lookup_at(s, i + 1);
        assert(text_less(s[0].0, s[i + 1].0));
        lemma_text_less_irreflexive(k);
    } else if has_key(s, k) {
        let i = choose|i: int| 0 <= i < s.len() && (#[trigger] s[i]).0 == k;
        if i > 0 {
            assert(t[i - 1] == s[i]);
            assert(false);
        }
    }
}

/// A map from text keys to values of type `V`, ordered by key.
#[derive(Debug, PartialEq, Eq)]
pub struct TextMap<V> {
    entries: Vec<(String, V)>,
}

impl<V> View for TextMap<V> {
    type V = Seq<(Seq<char>, V)>;

    /// The entries in ascending order of their keys.
    closed spec fn view(&self) -> Seq<(Seq<char>, V)> {
        Seq::new(self.entries@.len(), |i: int| (self.entries@[i].0@, self.entries@[i].1))
    }
}

impl<V> TextMap<V> {
    #[verifier::type_invariant]
    spec fn inv(self) -> bool {
        keys_sorted(self@)
    }

    /// The value stored under `k`, if any.
    pub open spec fn spec_get(&self, k: Seq<char>) -> Option<V> {
        lookup(self@, k)
    }

    /// The map as a mathematical map from keys to values.
    pub open spec fn spec_map(&self) -> Map<Seq<char>, V> {
        Map::new(|k: Seq<char>| has_key(self@, k), |k: Seq<char>| lookup(self@, k).unwrap())
    }

    /// The empty map.
    pub fn new() -> (m: Self)
        ensures
            m@ == Seq::<(Seq<char>, V)>::empty(),
            m.spec_map() == Map::<Seq<char>, V>::empty(),
    {
        let m = TextMap { entries: Vec::new() };
        assert(m@ =~= Seq::<(Seq<char>, V)>::empty());
        assert(m.spec_map() =~= Map::<Seq<char>, V>::empty());
        m
    }

    /// The number of entries.
    pub fn len(&self) -> (n: usize)
        ensures
            n == self@.len(),
            keys_sorted(self@),
    {
        proof {
            use_type_invariant(self);
        }
        self.entries.len()
    }

    /// Whether the map holds no entry.
    pub fn is_empty(&self) -> (r: bool)
        ensures
            r == (self@.len() == 0),
    {
        self.entries.len() == 0
    }

    /// The key of the `i`-th entry in ascending key order.
    pub fn key_at(&self, i: usize) -> (k: &str)
        requires
            i < self@.len(),
        ensures
            k@ == self@[i as int].0,
    {
        self.entries[i].0.as_str()
    }

    /// The value of the `i`-th entry in ascending key order.
    pub fn value_at(&self, i: usize) -> (v: &V)
        requires
            i < self@.len(),
        ensures
            *v == self@[i as int].1,
    {
        &self.entries[i].1
    }

    /// The position of `key` among the entries, or, where it is absent, the
    /// position at which it would be inserted.
    fn find(&self, key: &str) -> (r: (usize, bool))
        ensures
            r.0 <= self@.len(),
            keys_sorted(self@),
            forall|j: int| 0 <= j < r.0 ==> text_less((#[trigger] self@[j]).0, key@),
            r.1 ==> r.0 < self@.len() && self@[r.0 as int].0 == key@,
            !r.1 ==> forall|j: int| r.0 <= j < self@.len() ==> text_less(key@, (#[trigger] self@[j]).0),
            r.1 == has_key(self@, key@),
    {
        proof {
            use_type_invariant(self);
        }
        let mut i: usize = 0;
        while i < self.entries.len()
            invariant
                i <= self@.len(),
                self@.len() == self.entries@.len(),
                keys_sorted(self@),
                forall|j: int| 0 <= j < i ==> text_less((#[trigger] self@[j]).0, key@),
            decreases self.entries.len() - i,
        {
            let o = str_order(self.entries[i].0.as_str(), key);
            assert(self@[i as int].0 == self.entries@[i as int].0@);
            if o == 0 {
                return (i, true);
            }
            if o == 1 {
                proof {
                    assert forall|j: int| i <= j < self@.len() implies text_less(
                        key@,
                        (#[trigger] self@[j]).0,
                    ) by {
                        if j > i {
                            assert(text_less(self@[i as int].0, self@[j].0));
                            lemma_text_less_transitive(key@, self@[i as int].0, self@[j].0);
                        }
                    }
                    Self::lemma_absent(self@, key@, i as int);
                }
                return (i, false);
            }
            i += 1;
        }
        proof {
            Self::lemma_absent(self@, key@, i as int);
        }
        (i, false)
    }

    proof fn lemma_absent(s: Seq<(Seq<char>, V)>, k: Seq<char>, i: int)
        requires
            0 <= i <= s.len(),
            forall|j: int| 0 <= j < i ==> text_less((#[trigger] s[j]).0, k),
            forall|j: int| i <= j < s.len() ==> text_less(k, (#[trigger] s[j]).0),
        ensures
            !has_key(s, k),
    {
        lemma_text_less_irreflexive(k);
        if has_key(s, k) {
            let j = choose|j: int| 0 <= j < s.len() && (#[trigger] s[j]).0 == k;
            if j < i {
                assert(text_less(s[j].0, k));
            } else {
                assert(text_less(k, s[j].0));
            }
        }
    }

    /// Whether an entry with the key `key` exists.
    pub fn contains_key(&self, key: &str) -> (r: bool)
        ensures
            r == self.spec_get(key@).is_some(),
    {
        let (_, found) = self.find(key);
        found
    }

    /// The value stored under `key`.
    pub fn get(&self, key: &str) -> (r: Option<&V>)
        ensures
            match r {
                Some(v) => self.spec_get(key@) == Some(*v) && self.spec_map().contains_key(key@)
                    && self.spec_map()[key@] == *v,
                None => self.spec_get(key@) is None && !self.spec_map().contains_key(key@),
            },
    {
        let (i, found) = self.find(key);
        if found {
            proof {
                lemma_lookup_at(self@, i as int);
            }
            Some(&self.entries[i].1)
        } else {
            None
        }
    }

    /// Stores `value` under `key` and hands back what was stored there before.
    /// Every other key keeps its value, and the keys stay in ascending order.
    pub fn insert(&mut self, key: String, value: V) -> (r: Option<V>)
        ensures
            keys_sorted(final(self)@),
            r == old(self).spec_get(key@),
            forall|k: Seq<char>|
                #[trigger] final(self).spec_get(k) == (if k == key@ {
                    Some(value)
                } else {
                    old(self).spec_get(k)
                }),
            final(self)@.len() == old(self)@.len() + (if r is Some {
                0int
            } else {
                1int
            }),
            final(self).spec_map() == old(self).spec_map().insert(key@, value),
    {
        let (i, found) = self.find(key.as_str());
        let ghost before = self@;
        let ghost kk = key@;
        let mut previous: Option<V> = None;
        let mut taken: TextMap<V> = TextMap::new();
        core::mem::swap(self, &mut taken);
        let TextMap { entries: mut held } = taken;
        assert(before =~= Seq::new(held@.len(), |j: int| (held@[j].0@, held@[j].1)));
        if found {
            proof {
                lemma_lookup_at(before, i as int);
            }
            let gone = held.remove(i);
            previous = Some(gone.1);
        }
        let ghost mid = Seq::new(held@.len(), |j: int| (held@[j].0@, held@[j].1));
        proof {
            assert(mid =~= (if found { before.remove(i as int) } else { before }));
            assert(forall|j: int| 0 <= j < i ==> (#[trigger] mid[j]) == before[j]);
            assert forall|j: int| i <= j < mid.len() implies text_less(kk, (#[trigger] mid[j]).0) by {
                if found {
                    assert(mid[j] == before[j + 1]);
                    assert(text_less(before[i as int].0, before[j + 1].0));
                } else {
                    assert(mid[j] == before[j]);
                }
            }
        }
        held.insert(i, (key, value));
        let ghost after = Seq::new(held@.len(), |j: int| (held@[j].0@, held@[j].1));
        proof {
            assert(after =~= mid.insert(i as int, (kk, value)));
            assert(keys_sorted(after)) by {
                assert forall|a: int, b: int| 0 <= a < b < after.len() implies text_less(
                    (#[trigger] after[a]).0,
                    (#[trigger] after[b]).0,
                ) by {
                    if a == i {
                        assert(after[b] == mid[b - 1]);
                    } else if b == i {
                        assert(after[a] == mid[a]);
                    } else {
                        let a2 = if a < i { a } else { a - 1 };
                        let b2 = if b < i { b } else { b - 1 };
                        assert(after[a] == mid[a2] && after[b] == mid[b2]);
                        assert(text_less(mid[a2].0, mid[b2].0));
                    }
                }
            }
            assert forall|k: Seq<char>| #[trigger] lookup(after, k) == (if k == kk {
                Some(value)
            } else {
                lookup(before, k)
            }) by {
                if k == kk {
                    lemma_lookup_at(after, i as int);
                } else if has_key(before, k) {
                    let j = choose|j: int| 0 <= j < before.len() && (#[trigger] before[j]).0 == k;
                    lemma_lookup_at(before, j);
                    let j2 = if found {
                        if j < i { j } else { j }
                    } else {
                        if j < i { j } else { j + 1 }
                    };
                    assert(after[j2] == before[j]);
                    lemma_lookup_at(after, j2);
                } else if has_key(after, k) {
                    let j = choose|j: int| 0 <= j < after.len() && (#[trigger] after[j]).0 == k;
                    let j2 = if found {
                        if j < i { j } else { j }
                    } else {
                        if j < i { j } else { j - 1 }
                    };
                    assert(before[j2] == after[j]);
                    assert(false);
                }
            }
        }
        *self = TextMap { entries: held };
        assert(self@ =~= after);
        proof {
            let m0 = Map::new(
                |k: Seq<char>| has_key(before, k),
                |k: Seq<char>| lookup(before, k).unwrap(),
            );
            assert forall|k: Seq<char>| has_key(after, k) == (k == kk || has_key(before, k)) by {
                assert(lookup(after, k) == (if k == kk {
                    Some(value)
                } else {
                    lookup(before, k)
                }));
            }
            assert forall|k: Seq<char>| has_key(after, k) implies lookup(after, k).unwrap()
                == m0.insert(kk, value)[k] by {
                assert(lookup(after, k) == (if k == kk {
                    Some(value)
                } else {
                    lookup(before, k)
                }));
            }
            assert(self.spec_map() =~= m0.insert(kk, value));
        }
        previous
    }
}

/// The counter that `m` holds under `k`; a key that was never counted stands at 0.
pub open spec fn count_in(m: Map<Seq<char>, u64>, k: Seq<char>) -> u64 {
    if m.contains_key(k) {
        m[k]
    } else {
        0
    }
}

/// `m` with the counter under `k` raised by `n`.
pub open spec fn bumped(m: Map<Seq<char>, u64>, k: Seq<char>, n: u64) -> Map<Seq<char>, u64> {
    m.insert(k, (count_in(m, k) + n) as u64)
}

impl TextMap<u64> {
    /// The counter stored under `k`; a key that was never counted stands at 0.
    pub open spec fn spec_count(&self, k: Seq<char>) -> u64 {
        count_in(self.spec_map(), k)
    }

    /// The counter stored under `key`; 0 where there is none.
    pub fn count(&self, key: &str) -> (r: u64)
        ensures
            r == self.spec_count(key@),
    {
        match self.get(key) {
            Some(v) => *v,
            None => 0,
        }
    }

    /// Adds `n` to the counter under `key`, creating it at 0 first where it
    /// is missing. Every other counter keeps its value.
    pub fn add(&mut self, key: &str, n: u64)
        requires
            old(self).spec_count(key@) + n <= u64::MAX,
        ensures
            keys_sorted(final(self)@),
            final(self).spec_map() == bumped(old(self).spec_map(), key@, n),
    {
        let current = self.count(key);
        self.insert(key.to_owned(), current + n);
    }
}

impl<V> Default for TextMap<V> {
    fn default() -> (m: Self)
        ensures
            m@ == Seq::<(Seq<char>, V)>::empty(),
    {
        TextMap::new()
    }
}

impl<V: Clone> Clone for TextMap<V> {
    /// A map with the same keys in the same order, each value cloned.
    fn clone(&self) -> (m: Self)
        ensures
            m@.len() == self@.len(),
            forall|i: int| 0 <= i < self@.len() ==> (#[trigger] m@[i]).0 == self@[i].0,
    {
        proof {
            use_type_invariant(self);
        }
        let mut entries: Vec<(String, V)> = Vec::new();
        let mut i: usize = 0;
        while i < self.entries.len()
            invariant
                i <= self.entries@.len(),
                entries@.len() == i,
                forall|j: int| 0 <= j < i ==> (#[trigger] entries@[j]).0 == self.entries@[j].0,
            decreases self.entries.len() - i,
        {
            let k = self.entries[i].0.clone();
            let v = self.entries[i].1.clone();
            entries.push((k, v));
            i += 1;
        }
        let ghost s = Seq::new(entries@.len(), |j: int| (entries@[j].0@, entries@[j].1));
        assert(keys_sorted(s)) by {
            assert forall|a: int, b: int| 0 <= a < b < s.len() implies text_less(
                (#[trigger] s[a]).0,
                (#[trigger] s[b]).0,
            ) by {
                assert(s[a].0 == self@[a].0 && s[b].0 == self@[b].0);
            }
        }
        TextMap { entries }
    }
}

impl TextMap<String> {
    /// A copy of the map with the same entries.
    pub fn duplicate(&self) -> (m: Self)
        ensures
            m@ == self@,
    {
        proof {
            use_type_invariant(self);
        }
        let mut entries: Vec<(String, String)> = Vec::new();
        let mut i: usize = 0;
        while i < self.entries.len()
            invariant
                i <= self.entries@.len(),
                entries@.len() == i,
                forall|j: int| 0 <= j < i ==> (#[trigger] entries@[j]) == self.entries@[j],
            decreases self.entries.len() - i,
        {
            let k = self.entries[i].0.clone();
            let v = self.entries[i].1.clone();
            entries.push((k, v));
            i += 1;
        }
        assert(entries@ =~= self.entries@);
        TextMap { entries }
    }
}

} // verus!
