//! An ordered map keyed by router id: entries are kept strictly sorted by
//! key, so no key occurs twice and a walk over the entries visits the keys in
//! ascending order.

use vstd::prelude::*;

verus! {

/// Whether the keys of `s` ascend strictly.
pub open spec fn ids_sorted<V>(s: Seq<(u32, V)>) -> bool {
    forall|i: int, j: int| 0 <= i < j < s.len() ==> (#[trigger] s[i]).0 < (#[trigger] s[j]).0
}

/// Whether some entry of `s` has the key `k`.
pub open spec fn has_id<V>(s: Seq<(u32, V)>, k: u32) -> bool {
    exists|i: int| 0 <= i < s.len() && (#[trigger] s[i]).0 == k
}

/// The value that `s` holds under `k`, if any.
pub open spec fn find_id<V>(s: Seq<(u32, V)>, k: u32) -> Option<V> {
    if has_id(s, k) {
        Some(s[choose|i: int| 0 <= i < s.len() && (#[trigger] s[i]).0 == k].1)
    } else {
        None
    }
}

/// The map that the entries `s` spell.
pub open spec fn map_of<V>(s: Seq<(u32, V)>) -> Map<u32, V> {
    Map::new(|k: u32| has_id(s, k), |k: u32| find_id(s, k).unwrap())
}

/// In a sorted sequence the entry at `i` is the one found under its key.
pub proof fn lemma_find_at<V>(s: Seq<(u32, V)>, i: int)
    requires
        ids_sorted(s),
        0 <= i < s.len(),
    ensures
        find_id(s, s[i].0) == Some(s[i].1),
        map_of(s).contains_key(s[i].0),
        map_of(s)[s[i].0] == s[i].1,
{
    let k = s[i].0;
    let j = choose|j: int| 0 <= j < s.len() && (#[trigger] s[j]).0 == k;
    if j < i {
        assert(s[j].0 < s[i].0);
    } else if i < j {
        assert(s[i].0 < s[j].0);
    }
}

/// Putting an entry with a new key in its place extends the map by it.
pub proof fn lemma_insert_entry<V>(s: Seq<(u32, V)>, i: int, k: u32, v: V)
    requires
        ids_sorted(s),
        0 <= i <= s.len(),
        forall|j: int| 0 <= j < i ==> (#[trigger] s[j]).0 < k,
        forall|j: int| i <= j < s.len() ==> k < (#[trigger] s[j]).0,
    ensures
        ids_sorted(s.insert(i, (k, v))),
        map_of(s.insert(i, (k, v))) == map_of(s).insert(k, v),
{
    let t = s.insert(i, (k, v));
    assert(ids_sorted(t)) by {
        assert forall|a: int, b: int| 0 <= a < b < t.len() implies (#[trigger] t[a]).0 < (
        #[trigger] t[b]).0 by {
            let a2 = if a < i {
                a
            } else {
                a - 1
            };
            let b2 = if b < i {
                b
            } else {
                b - 1
            };
            if a != i {
                assert(t[a] == s[a2]);
            }
            if b != i {
                assert(t[b] == s[b2]);
            }
        }
    }
    assert forall|x: u32| has_id(t, x) == (x == k || has_id(s, x)) by {
        if has_id(s, x) {
            let j = choose|j: int| 0 <= j < s.len() && (#[trigger] s[j]).0 == x;
            let j2 = if j < i {
                j
            } else {
                j + 1
            };
            assert(t[j2] == s[j]);
        }
        if x == k {
            assert(t[i].0 == k);
        }
        if has_id(t, x) && x != k {
            let j = choose|j: int| 0 <= j < t.len() && (#[trigger] t[j]).0 == x;
            let j2 = if j < i {
                j
            } else {
                j - 1
            };
            assert(s[j2] == t[j]);
        }
    }
    assert forall|x: u32| has_id(t, x) implies find_id(t, x).unwrap() == map_of(s).insert(k, v)[x] by {
        let j = choose|j: int| 0 <= j < t.len() && (#[trigger] t[j]).0 == x;
        lemma_find_at(t, j);
        if x != k {
            let j2 = if j < i {
                j
            } else {
                j - 1
            };
            assert(s[j2] == t[j]);
            lemma_find_at(s, j2);
        } else {
            lemma_find_at(t, i);
        }
    }
    assert(map_of(t) =~= map_of(s).insert(k, v));
}

/// Taking the entry at `i` out removes its key from the map.
pub proof fn lemma_remove_entry<V>(s: Seq<(u32, V)>, i: int)
    requires
        ids_sorted(s),
        0 <= i < s.len(),
    ensures
        ids_sorted(s.remove(i)),
        map_of(s.remove(i)) == map_of(s).remove(s[i].0),
{
    let t = s.remove(i);
    let k = s[i].0;
    assert(ids_sorted(t)) by {
        assert forall|a: int, b: int| 0 <= a < b < t.len() implies (#[trigger] t[a]).0 < (
        #[trigger] t[b]).0 by {
            let a2 = if a < i {
                a
            } else {
                a + 1
            };
            let b2 = if b < i {
                b
            } else {
                b + 1
            };
            assert(t[a] == s[a2] && t[b] == s[b2]);
        }
    }
    assert forall|x: u32| has_id(t, x) == (x != k && has_id(s, x)) by {
        if has_id(s, x) && x != k {
            let j = choose|j: int| 0 <= j < s.len() && (#[trigger] s[j]).0 == x;
            let j2 = if j < i {
                j
            } else {
                j - 1
            };
            assert(t[j2] == s[j]);
        }
        if has_id(t, x) {
            let j = choose|j: int| 0 <= j < t.len() && (#[trigger] t[j]).0 == x;
            let j2 = if j < i {
                j
            } else {
                j + 1
            };
            assert(s[j2] == t[j]);
            if j2 < i {
                assert(s[j2].0 < s[i].0);
            } else {
                assert(s[i].0 < s[j2].0);
            }
        }
    }
    assert forall|x: u32| has_id(t, x) implies find_id(t, x).unwrap() == map_of(s).remove(k)[x] by {
        let j = choose|j: int| 0 <= j < t.len() && (#[trigger] t[j]).0 == x;
        lemma_find_at(t, j);
        let j2 = if j < i {
            j
        } else {
            j + 1
        };
        assert(s[j2] == t[j]);
        lemma_find_at(s, j2);
    }
    assert(map_of(t) =~= map_of(s).remove(k));
}

/// Replacing the value of the entry at `i` replaces it in the map.
pub proof fn lemma_update_entry<V>(s: Seq<(u32, V)>, i: int, v: V)
    requires
        ids_sorted(s),
        0 <= i < s.len(),
    ensures
        ids_sorted(s.update(i, (s[i].0, v))),
        map_of(s.update(i, (s[i].0, v))) == map_of(s).insert(s[i].0, v),
{
    let k = s[i].0;
    let t = s.update(i, (k, v));
    assert(ids_sorted(t)) by {
        assert forall|a: int, b: int| 0 <= a < b < t.len() implies (#[trigger] t[a]).0 < (
        #[trigger] t[b]).0 by {
            assert(t[a].0 == s[a].0 && t[b].0 == s[b].0);
        }
    }
    assert forall|x: u32| has_id(t, x) == (x == k || has_id(s, x)) by {
        if has_id(s, x) {
            let j = choose|j: int| 0 <= j < s.len() && (#[trigger] s[j]).0 == x;
            assert(t[j].0 == x);
        }
        if x == k {
            assert(t[i].0 == k);
        }
        if has_id(t, x) {
            let j = choose|j: int| 0 <= j < t.len() && (#[trigger] t[j]).0 == x;
            assert(s[j].0 == x);
        }
    }
    assert forall|x: u32| has_id(t, x) implies find_id(t, x).unwrap() == map_of(s).insert(k, v)[x] by {
        let j = choose|j: int| 0 <= j < t.len() && (#[trigger] t[j]).0 == x;
        lemma_find_at(t, j);
        if j != i {
            assert(s[j] == t[j]);
            lemma_find_at(s, j);
            if j < i {
                assert(s[j].0 < s[i].0);
            } else {
                assert(s[i].0 < s[j].0);
            }
        }
    }
    assert(map_of(t) =~= map_of(s).insert(k, v));
}

/// A key that lies strictly between the entries before `i` and those from
/// `i` on is no key of the sequence.
pub proof fn lemma_absent_id<V>(s: Seq<(u32, V)>, i: int, k: u32)
    requires
        0 <= i <= s.len(),
        forall|j: int| 0 <= j < i ==> (#[trigger] s[j]).0 < k,
        forall|j: int| i <= j < s.len() ==> k < (#[trigger] s[j]).0,
    ensures
        !has_id(s, k),
        !map_of(s).contains_key(k),
{
    if has_id(s, k) {
        let j = choose|j: int| 0 <= j < s.len() && (#[trigger] s[j]).0 == k;
        if j < i {
            assert(s[j].0 < k);
        } else {
            assert(k < s[j].0);
        }
    }
}

/// A map from router ids to values of type `V`, ordered by id.
#[derive(Debug, PartialEq, Eq)]
pub struct IdMap<V> {
    entries: Vec<(u32, V)>,
}

impl<V> View for IdMap<V> {
    type V = Seq<(u32, V)>;

    /// The entries in ascending order of their keys.
    closed spec fn view(&self) -> Seq<(u32, V)> {
        self.entries@
    }
}

impl<V> IdMap<V> {
    #[verifier::type_invariant]
    spec fn inv(self) -> bool {
        ids_sorted(self.entries@)
    }

    /// The map as a mathematical map from keys to values.
    pub open spec fn spec_map(&self) -> Map<u32, V> {
        map_of(self@)
    }

    /// The empty map.
    pub fn new() -> (m: Self)
        ensures
            m@ == Seq::<(u32, V)>::empty(),
            m.spec_map() == Map::<u32, V>::empty(),
    {
        let m = IdMap { entries: Vec::new() };
        assert(m.spec_map() =~= Map::<u32, V>::empty());
        m
    }

    /// The number of entries.
    pub fn len(&self) -> (n: usize)
        ensures
            n == self@.len(),
            ids_sorted(self@),
    {
        proof {
            use_type_invariant(self);
        }
        self.entries.len()
    }

    /// Whether the map holds no entry.
    pub fn is_empty(&self) -> (r: bool)
        ensures
            r == (self@.len() == 0),
    {
        self.entries.len() == 0
    }

    /// The key of the `i`-th entry in ascending key order.
    pub fn key_at(&self, i: usize) -> (k: u32)
        requires
            i < self@.len(),
        ensures
            k == self@[i as int].0,
            self.spec_map().contains_key(k),
    {
        proof {
            use_type_invariant(self);
            lemma_find_at(self@, i as int);
        }
        self.entries[i].0
    }

    /// The value of the `i`-th entry in ascending key order.
    pub fn value_at(&self, i: usize) -> (v: &V)
        requires
            i < self@.len(),
        ensures
            *v == self@[i as int].1,
            self.spec_map().contains_key(self@[i as int].0),
            self.spec_map()[self@[i as int].0] == *v,
    {
        proof {
            use_type_invariant(self);
            lemma_find_at(self@, i as int);
        }
        &self.entries[i].1
    }

    /// The position of `key` among the entries, or, where it is absent, the
    /// position at which it would be inserted.
    pub fn find(&self, key: u32) -> (r: (usize, bool))
        ensures
            r.0 <= self@.len(),
            ids_sorted(self@),
            forall|j: int| 0 <= j < r.0 ==> (#[trigger] self@[j]).0 < key,
            r.1 ==> r.0 < self@.len() && self@[r.0 as int].0 == key,
            !r.1 ==> forall|j: int| r.0 <= j < self@.len() ==> key < (#[trigger] self@[j]).0,
            r.1 == self.spec_map().contains_key(key),
            r.1 ==> self.spec_map()[key] == self@[r.0 as int].1,
    {
        proof {
            use_type_invariant(self);
        }
        let mut i: usize = 0;
        while i < self.entries.len()
            invariant
                i <= self@.len(),
                self@.len() == self.entries@.len(),
                ids_sorted(self@),
                forall|j: int| 0 <= j < i ==> (#[trigger] self@[j]).0 < key,
            decreases self.entries.len() - i,
        {
            let k = self.entries[i].0;
            if k == key {
                proof {
                    lemma_find_at(self@, i as int);
                }
                return (i, true);
            }
            if k > key {
                proof {
                    assert forall|j: int| i <= j < self@.len() implies key < (#[trigger] self@[j]).0 by {
                        if j > i {
                            assert(self@[i as int].0 < self@[j].0);
                        }
                    }
                    lemma_absent_id(self@, i as int, key);
                }
                return (i, false);
            }
            i += 1;
        }
        proof {
            lemma_absent_id(self@, i as int, key);
        }
        (i, false)
    }

    /// Whether an entry with the key `key` exists.
    pub fn contains_key(&self, key: u32) -> (r: bool)
        ensures
            r == self.spec_map().contains_key(key),
    {
        let (_, found) = self.find(key);
        found
    }

    /// The value stored under `key`.
    pub fn get(&self, key: u32) -> (r: Option<&V>)
        ensures
            ids_sorted(self@),
            match r {
                Some(v) => self.spec_map().contains_key(key) && self.spec_map()[key] == *v,
                None => !self.spec_map().contains_key(key),
            },
    {
        let (i, found) = self.find(key);
        if found {
            Some(&self.entries[i].1)
        } else {
            None
        }
    }

    /// Stores `value` under `key` and hands back what was stored there before.
    pub fn insert(&mut self, key: u32, value: V) -> (r: Option<V>)
        ensures
            ids_sorted(final(self)@),
            final(self).spec_map() == old(self).spec_map().insert(key, value),
            match r {
                Some(v) => old(self).spec_map().contains_key(key) && old(self).spec_map()[key] == v
                    && final(self)@.len() == old(self)@.len(),
                None => !old(self).spec_map().contains_key(key) && final(self)@.len() == old(
                    self,
                )@.len() + 1,
            },
    {
        let (i, found) = self.find(key);
        let ghost before = self@;
        let mut taken: IdMap<V> = IdMap::new();
        core::mem::swap(self, &mut taken);
        let IdMap { entries: mut held } = taken;
        let mut previous: Option<V> = None;
        if found {
            proof {
                lemma_remove_entry(before, i as int);
            }
            let gone = held.remove(i);
            previous = Some(gone.1);
            proof {
                let mid = held@;
                assert forall|j: int| i <= j < mid.len() implies key < (#[trigger] mid[j]).0 by {
                    assert(mid[j] == before[j + 1]);
                    assert(before[i as int].0 < before[j + 1].0);
                }
                assert forall|j: int| 0 <= j < i implies (#[trigger] mid[j]).0 < key by {
                    assert(mid[j] == before[j]);
                }
                lemma_insert_entry(mid, i as int, key, value);
                assert(map_of(before).remove(key).insert(key, value) =~= map_of(before).insert(
                    key,
                    value,
                ));
            }
        } else {
            proof {
                lemma_insert_entry(before, i as int, key, value);
            }
        }
        held.insert(i, (key, value));
        *self = IdMap { entries: held };
        previous
    }

    /// Removes the entry under `key` and hands its value back.
    pub fn remove(&mut self, key: u32) -> (r: Option<V>)
        ensures
            ids_sorted(final(self)@),
            final(self).spec_map() == old(self).spec_map().remove(key),
            match r {
                Some(v) => old(self).spec_map().contains_key(key) && old(self).spec_map()[key] == v
                    && final(self)@.len() == old(self)@.len() - 1,
                None => !old(self).spec_map().contains_key(key) && final(self)@ == old(self)@,
            },
    {
        let (i, found) = self.find(key);
        if !found {
            assert(self.spec_map().remove(key) =~= self.spec_map());
            return None;
        }
        let ghost before = self@;
        let mut taken: IdMap<V> = IdMap::new();
        core::mem::swap(self, &mut taken);
        let IdMap { entries: mut held } = taken;
        proof {
            lemma_remove_entry(before, i as int);
        }
        let gone = held.remove(i);
        *self = IdMap { entries: held };
        Some(gone.1)
    }

    /// Replaces the value of the `i`-th entry.
    pub fn set_value_at(&mut self, i: usize, value: V)
        requires
            i < old(self)@.len(),
        ensures
            final(self)@ == old(self)@.update(i as int, (old(self)@[i as int].0, value)),
            ids_sorted(final(self)@),
            final(self).spec_map() == old(self).spec_map().insert(old(self)@[i as int].0, value),
    {
        proof {
            use_type_invariant(&*self);
        }
        let ghost before = self@;
        let mut taken: IdMap<V> = IdMap::new();
        core::mem::swap(self, &mut taken);
        let IdMap { entries: mut held } = taken;
        let key = held[i].0;
        proof {
            lemma_update_entry(before, i as int, value);
        }
        held.set(i, (key, value));
        *self = IdMap { entries: held };
    }
}

impl<V> IdMap<V> {
    /// Appends an entry whose key is greater than every key held.
    pub fn append_greatest(&mut self, key: u32, value: V)
        requires
            forall|j: int| 0 <= j < old(self)@.len() ==> (#[trigger] old(self)@[j]).0 < key,
        ensures
            final(self)@ == old(self)@.push((key, value)),
            ids_sorted(final(self)@),
            final(self).spec_map() == old(self).spec_map().insert(key, value),
    {
        proof {
            use_type_invariant(&*self);
        }
        let ghost before = self@;
        let mut taken: IdMap<V> = IdMap::new();
        core::mem::swap(self, &mut taken);
        let IdMap { entries: mut held } = taken;
        proof {
            lemma_insert_entry(before, before.len() as int, key, value);
            assert(before.insert(before.len() as int, (key, value)) =~= before.push((key, value)));
        }
        held.push((key, value));
        *self = IdMap { entries: held };
    }

    /// Removes every key of `keys`; tells whether an entry was removed.
    pub fn remove_all(&mut self, keys: &[u32]) -> (changed: bool)
        ensures
            ids_sorted(old(self)@),
            ids_sorted(final(self)@),
            final(self).spec_map() == old(self).spec_map().remove_keys(keys@.to_set()),
            changed == (final(self)@.len() != old(self)@.len()),
            final(self)@.len() <= old(self)@.len(),
    {
        let before = self.len();
        let mut i: usize = 0;
        assert(keys@.take(0).to_set() =~= Set::<u32>::empty());
        assert(self.spec_map().remove_keys(Set::<u32>::empty()) =~= self.spec_map());
        while i < keys.len()
            invariant
                i <= keys@.len(),
                ids_sorted(self@),
                self@.len() <= old(self)@.len(),
                self.spec_map() == old(self).spec_map().remove_keys(keys@.take(i as int).to_set()),
            decreases keys.len() - i,
        {
            let ghost m = self.spec_map();
            let ghost done = keys@.take(i as int).to_set();
            self.remove(keys[i]);
            proof {
                assert(keys@.take(i + 1) =~= keys@.take(i as int).push(keys@[i as int]));
                assert(keys@.take(i + 1).to_set() =~= done.insert(keys@[i as int])) by {
                    assert forall|x: u32| keys@.take(i + 1).to_set().contains(x) == done.insert(
                        keys@[i as int],
                    ).contains(x) by {
                        let t = keys@.take(i as int);
                        let u = t.push(keys@[i as int]);
                        if u.contains(x) {
                            let a = choose|a: int| 0 <= a < u.len() && u[a] == x;
                            if a < t.len() {
                                assert(t[a] == x);
                            }
                        }
                        if t.contains(x) {
                            let a = choose|a: int| 0 <= a < t.len() && t[a] == x;
                            assert(u[a] == x);
                        }
                        assert(u[u.len() - 1] == keys@[i as int]);
                    }
                }
                assert(self.spec_map() =~= old(self).spec_map().remove_keys(
                    done.insert(keys@[i as int]),
                ));
            }
            i += 1;
        }
        assert(keys@.take(keys@.len() as int) =~= keys@);
        before != self.len()
    }
}

impl IdMap<u64> {
    /// A copy of the map.
    pub fn duplicate(&self) -> (m: Self)
        ensures
            m@ == self@,
    {
        proof {
            use_type_invariant(self);
        }
        let mut entries: Vec<(u32, u64)> = Vec::new();
        let mut i: usize = 0;
        while i < self.entries.len()
            invariant
                i <= self.entries@.len(),
                entries@ == self.entries@.take(i as int),
            decreases self.entries.len() - i,
        {
            entries.push((self.entries[i].0, self.entries[i].1));
            assert(self.entries@.take(i + 1) =~= self.entries@.take(i as int).push(
                self.entries@[i as int],
            ));
            i += 1;
        }
        assert(self.entries@.take(self.entries@.len() as int) =~= self.entries@);
        IdMap { entries }
    }
}

impl<V> Default for IdMap<V> {
    fn default() -> (m: Self)
        ensures
            m@ == Seq::<(u32, V)>::empty(),
    {
        IdMap::new()
    }
}

impl<V: Clone> Clone for IdMap<V> {
    /// A map with the same keys in the same order, each value cloned.
    fn clone(&self) -> (m: Self)
        ensures
            m@.len() == self@.len(),
            forall|i: int| 0 <= i < self@.len() ==> (#[trigger] m@[i]).0 == self@[i].0,
    {
        proof {
            use_type_invariant(self);
        }
        let mut entries: Vec<(u32, V)> = Vec::new();
        let mut i: usize = 0;
        while i < self.entries.len()
            invariant
                i <= self.entries@.len(),
                entries@.len() == i,
                forall|j: int| 0 <= j < i ==> (#[trigger] entries@[j]).0 == self.entries@[j].0,
            decreases self.entries.len() - i,
        {
            let k = self.entries[i].0;
            let v = self.entries[i].1.clone();
            entries.push((k, v));
            i += 1;
        }
        assert(ids_sorted(entries@)) by {
            assert forall|a: int, b: int| 0 <= a < b < entries@.len() implies (
            #[trigger] entries@[a]).0 < (#[trigger] entries@[b]).0 by {
                assert(entries@[a].0 == self@[a].0 && entries@[b].0 == self@[b].0);
            }
        }
        IdMap { entries }
    }
}

} // verus!
