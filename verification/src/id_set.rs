//! An ordered set of router ids: strictly ascending, so nothing occurs twice
//! and a walk visits the ids in ascending order.

use vstd::prelude::*;

verus! {

/// Whether the ids of `s` ascend strictly.
pub open spec fn ascending(s: Seq<u32>) -> bool {
    forall|i: int, j: int| 0 <= i < j < s.len() ==> #[trigger] s[i] < #[trigger] s[j]
}

/// Putting an id in its place in an ascending sequence adds it to the set.
pub proof fn lemma_ascending_insert(s: Seq<u32>, i: int, k: u32)
    requires
        ascending(s),
        0 <= i <= s.len(),
        forall|j: int| 0 <= j < i ==> #[trigger] s[j] < k,
        forall|j: int| i <= j < s.len() ==> k < #[trigger] s[j],
    ensures
        ascending(s.insert(i, k)),
        s.insert(i, k).to_set() == s.to_set().insert(k),
{
    let t = s.insert(i, k);
    assert forall|a: int, b: int| 0 <= a < b < t.len() implies #[trigger] t[a] < #[trigger] t[b] by {
        let a2 = if a < i {
            a
        } else {
            a - 1
        };
        let b2 = if b < i {
            b
        } else {
            b - 1
        };
        if a != i {
            assert(t[a] == s[a2]);
        }
        if b != i {
            assert(t[b] == s[b2]);
        }
    }
    assert forall|x: u32| t.to_set().contains(x) == s.to_set().insert(k).contains(x) by {
        if s.contains(x) {
            let j = choose|j: int| 0 <= j < s.len() && s[j] == x;
            let j2 = if j < i {
                j
            } else {
                j + 1
            };
            assert(t[j2] == x);
        }
        assert(t[i] == k);
        if t.contains(x) && x != k {
            let j = choose|j: int| 0 <= j < t.len() && t[j] == x;
            let j2 = if j < i {
                j
            } else {
                j - 1
            };
            assert(s[j2] == x);
        }
    }
    assert(t.to_set() =~= s.to_set().insert(k));
}

/// A set of router ids, ordered.
#[derive(Debug, PartialEq, Eq)]
pub struct IdSet {
    items: Vec<u32>,
}

impl View for IdSet {
    type V = Seq<u32>;

    /// The ids in ascending order.
    closed spec fn view(&self) -> Seq<u32> {
        self.items@
    }
}

impl IdSet {
    #[verifier::type_invariant]
    spec fn inv(self) -> bool {
        ascending(self.items@)
    }

    /// The ids as a set.
    pub open spec fn spec_set(&self) -> Set<u32> {
        self@.to_set()
    }

    /// The empty set.
    pub fn new() -> (s: Self)
        ensures
            s@ == Seq::<u32>::empty(),
            s.spec_set() == Set::<u32>::empty(),
    {
        let s = IdSet { items: Vec::new() };
        assert(s.spec_set() =~= Set::<u32>::empty());
        s
    }

    /// The number of ids.
    pub fn len(&self) -> (n: usize)
        ensures
            n == self@.len(),
            ascending(self@),
    {
        proof {
            use_type_invariant(self);
        }
        self.items.len()
    }

    /// Whether the set is empty.
    pub fn is_empty(&self) -> (r: bool)
        ensures
            r == (self@.len() == 0),
    {
        self.items.len() == 0
    }

    /// The `i`-th id in ascending order.
    pub fn get_at(&self, i: usize) -> (k: u32)
        requires
            i < self@.len(),
        ensures
            k == self@[i as int],
            self.spec_set().contains(k),
    {
        self.items[i]
    }

    /// The place of `key`: where it is, or where it belongs.
    fn find(&self, key: u32) -> (r: (usize, bool))
        ensures
            r.0 <= self@.len(),
            ascending(self@),
            forall|j: int| 0 <= j < r.0 ==> #[trigger] self@[j] < key,
            r.1 ==> r.0 < self@.len() && self@[r.0 as int] == key,
            !r.1 ==> forall|j: int| r.0 <= j < self@.len() ==> key < #[trigger] self@[j],
            r.1 == self.spec_set().contains(key),
    {
        proof {
            use_type_invariant(self);
        }
        let mut i: usize = 0;
        while i < self.items.len()
            invariant
                i <= self@.len(),
                self@.len() == self.items@.len(),
                ascending(self@),
                forall|j: int| 0 <= j < i ==> #[trigger] self@[j] < key,
            decreases self.items.len() - i,
        {
            let k = self.items[i];
            if k == key {
                return (i, true);
            }
            if k > key {
                proof {
                    assert forall|j: int| i <= j < self@.len() implies key < #[trigger] self@[j] by {
                        if j > i {
                            assert(self@[i as int] < self@[j]);
                        }
                    }
                    if self@.contains(key) {
                        let j = choose|j: int| 0 <= j < self@.len() && self@[j] == key;
                        assert(false);
                    }
                }
                return (i, false);
            }
            i += 1;
        }
        proof {
            if self@.contains(key) {
                let j = choose|j: int| 0 <= j < self@.len() && self@[j] == key;
                assert(false);
            }
        }
        (i, false)
    }

    /// Whether `key` is in the set.
    pub fn contains(&self, key: u32) -> (r: bool)
        ensures
            r == self.spec_set().contains(key),
    {
        let (_, found) = self.find(key);
        found
    }

    /// Adds `key`; tells whether it was new.
    pub fn insert(&mut self, key: u32) -> (added: bool)
        ensures
            added == !old(self).spec_set().contains(key),
            !added ==> final(self)@ == old(self)@,
            final(self).spec_set() == old(self).spec_set().insert(key),
            ascending(final(self)@),
            final(self)@.len() == old(self)@.len() + (if added {
                1int
            } else {
                0int
            }),
    {
        let (i, found) = self.find(key);
        if found {
            assert(self.spec_set().insert(key) =~= self.spec_set());
            return false;
        }
        let ghost before = self@;
        let mut taken: IdSet = IdSet::new();
        core::mem::swap(self, &mut taken);
        let IdSet { items: mut held } = taken;
        proof {
            lemma_ascending_insert(before, i as int, key);
        }
        held.insert(i, key);
        *self = IdSet { items: held };
        true
    }

    /// Adds every id of `other`.
    pub fn extend(&mut self, other: &IdSet)
        ensures
            final(self).spec_set() == old(self).spec_set().union(other.spec_set()),
            ascending(final(self)@),
    {
        let n = other.len();
        let mut i: usize = 0;
        proof {
            use_type_invariant(&*self);
        }
        assert(other@.take(0).to_set() =~= Set::<u32>::empty());
        assert(self.spec_set().union(Set::<u32>::empty()) =~= self.spec_set());
        while i < n
            invariant
                i <= n,
                n == other@.len(),
                ascending(self@),
                self.spec_set() == old(self).spec_set().union(other@.take(i as int).to_set()),
            decreases n - i,
        {
            self.insert(other.get_at(i));
            proof {
                let t = other@.take(i as int);
                let u = other@.take(i + 1);
                assert(u =~= t.push(other@[i as int]));
                assert forall|x: u32| u.to_set().contains(x) == t.to_set().insert(
                    other@[i as int],
                ).contains(x) by {
                    if u.contains(x) {
                        let a = choose|a: int| 0 <= a < u.len() && u[a] == x;
                        if a < t.len() {
                            assert(t[a] == x);
                        }
                    }
                    if t.contains(x) {
                        let a = choose|a: int| 0 <= a < t.len() && t[a] == x;
                        assert(u[a] == x);
                    }
                    assert(u[u.len() - 1] == other@[i as int]);
                }
                assert(self.spec_set() =~= old(self).spec_set().union(u.to_set()));
            }
            i += 1;
        }
        assert(other@.take(n as int) =~= other@);
    }

    /// The ids in ascending order.
    pub fn to_vec(&self) -> (v: Vec<u32>)
        ensures
            v@ == self@,
            ascending(v@),
    {
        proof {
            use_type_invariant(self);
        }
        let mut out: Vec<u32> = Vec::new();
        let mut i: usize = 0;
        while i < self.items.len()
            invariant
                i <= self.items@.len(),
                out@ == self.items@.take(i as int),
            decreases self.items.len() - i,
        {
            out.push(self.items[i]);
            assert(self.items@.take(i + 1) =~= self.items@.take(i as int).push(self.items@[i as int]));
            i += 1;
        }
        assert(self.items@.take(self.items@.len() as int) =~= self.items@);
        out
    }

    /// A copy of the set.
    pub fn duplicate(&self) -> (s: Self)
        ensures
            s@ == self@,
    {
        let items = self.to_vec();
        IdSet { items }
    }

    /// The set of the ids of `ids`.
    pub fn from_slice(ids: &[u32]) -> (s: Self)
        ensures
            s.spec_set() == ids@.to_set(),
    {
        let mut s = IdSet::new();
        let mut i: usize = 0;
        assert(ids@.take(0).to_set() =~= Set::<u32>::empty());
        while i < ids.len()
            invariant
                i <= ids@.len(),
                s.spec_set() == ids@.take(i as int).to_set(),
            decreases ids.len() - i,
        {
            s.insert(ids[i]);
            proof {
                let t = ids@.take(i as int);
                let u = ids@.take(i + 1);
                assert(u =~= t.push(ids@[i as int]));
                assert forall|x: u32| u.to_set().contains(x) == t.to_set().insert(
                    ids@[i as int],
                ).contains(x) by {
                    if u.contains(x) {
                        let a = choose|a: int| 0 <= a < u.len() && u[a] == x;
                        if a < t.len() {
                            assert(t[a] == x);
                        }
                    }
                    if t.contains(x) {
                        let a = choose|a: int| 0 <= a < t.len() && t[a] == x;
                        assert(u[a] == x);
                    }
                    assert(u[u.len() - 1] == ids@[i as int]);
                }
                assert(u.to_set() =~= t.to_set().insert(ids@[i as int]));
            }
            i += 1;
        }
        assert(ids@.take(ids@.len() as int) =~= ids@);
        s
    }
}

impl Default for IdSet {
    fn default() -> (s: Self)
        ensures
            s@ == Seq::<u32>::empty(),
    {
        IdSet::new()
    }
}

impl Clone for IdSet {
    fn clone(&self) -> (s: Self)
        ensures
            s@ == self@,
    {
        self.duplicate()
    }
}

} // verus!
