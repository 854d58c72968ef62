//! The lexicographic order of node sequences.

use vstd::prelude::*;

verus! {

/// Length of the longest common prefix of `a` and `b`.
pub open spec fn shared_prefix_len(a: Seq<u32>, b: Seq<u32>) -> nat
    decreases a.len(),
{
    if a.len() > 0 && b.len() > 0 && a[0] == b[0] {
        1 + shared_prefix_len(a.drop_first(), b.drop_first())
    } else {
        0
    }
}

/// Lexicographic order of node sequences: `a` sorts strictly before `b`.
pub open spec fn path_less(a: Seq<u32>, b: Seq<u32>) -> bool {
    let k = shared_prefix_len(a, b) as int;
    if k < a.len() && k < b.len() {
        a[k] < b[k]
    } else {
        a.len() < b.len()
    }
}

pub proof fn lemma_shared_prefix_len(a: Seq<u32>, b: Seq<u32>)
    ensures
        shared_prefix_len(a, b) <= a.len(),
        shared_prefix_len(a, b) <= b.len(),
        forall|i: int| 0 <= i < shared_prefix_len(a, b) ==> a[i] == b[i],
        shared_prefix_len(a, b) < a.len() && shared_prefix_len(a, b) < b.len() ==> a[shared_prefix_len(
            a,
            b,
        ) as int] != b[shared_prefix_len(a, b) as int],
    decreases a.len(),
{
    if a.len() > 0 && b.len() > 0 && a[0] == b[0] {
        let x = a.drop_first();
        let y = b.drop_first();
        lemma_shared_prefix_len(x, y);
        let k = shared_prefix_len(x, y) as int;
        assert forall|i: int| 0 <= i < k + 1 implies a[i] == b[i] by {
            if i > 0 {
                assert(a[i] == x[i - 1]);
                assert(b[i] == y[i - 1]);
            }
        }
        if k + 1 < a.len() && k + 1 < b.len() {
            assert(a[k + 1] == x[k]);
            assert(b[k + 1] == y[k]);
        }
    }
}

pub proof fn lemma_shared_prefix_len_is(a: Seq<u32>, b: Seq<u32>, k: int)
    requires
        0 <= k <= a.len(),
        k <= b.len(),
        forall|i: int| 0 <= i < k ==> a[i] == b[i],
        k < a.len() && k < b.len() ==> a[k] != b[k],
    ensures
        shared_prefix_len(a, b) == k,
{
    lemma_shared_prefix_len(a, b);
    let c = shared_prefix_len(a, b) as int;
    if c < k {
        assert(a[c] == b[c]);
    } else if k < c {
        assert(a[k] == b[k]);
    }
}

/// No path sorts before itself.
pub proof fn lemma_path_less_irreflexive(a: Seq<u32>)
    ensures
        !path_less(a, a),
{
    lemma_shared_prefix_len_is(a, a, a.len() as int);
}

/// Of two different paths exactly one sorts before the other.
pub proof fn lemma_path_less_total(a: Seq<u32>, b: Seq<u32>)
    ensures
        a == b || path_less(a, b) || path_less(b, a),
        !(path_less(a, b) && path_less(b, a)),
        a == b ==> !path_less(a, b),
{
    lemma_shared_prefix_len(a, b);
    let k = shared_prefix_len(a, b) as int;
    lemma_shared_prefix_len_is(b, a, k);
    if k < a.len() && k < b.len() {
        assert(a[k] != b[k]);
    } else if a.len() == b.len() {
        assert(a =~= b);
    }
    lemma_path_less_irreflexive(a);
}

/// The order is transitive.
pub proof fn lemma_path_less_transitive(a: Seq<u32>, b: Seq<u32>, c: Seq<u32>)
    requires
        path_less(a, b),
        path_less(b, c),
    ensures
        path_less(a, c),
{
    lemma_shared_prefix_len(a, b);
    lemma_shared_prefix_len(b, c);
    let k1 = shared_prefix_len(a, b) as int;
    let k2 = shared_prefix_len(b, c) as int;
    let k = if k1 < k2 {
        k1
    } else {
        k2
    };
    assert forall|i: int| 0 <= i < k implies a[i] == c[i] by {
        assert(a[i] == b[i]);
        assert(b[i] == c[i]);
    }
    if k1 < k2 {
        assert(b[k1] == c[k1]);
    } else if k2 < k1 {
        assert(a[k2] == b[k2]);
    }
    lemma_shared_prefix_len_is(a, c, k);
}

/// Three-way comparison of two paths: -1 when `a` sorts first, 0 when they
/// are equal and 1 when `b` sorts first.
pub fn path_order(a: &Vec<u32>, b: &Vec<u32>) -> (r: i8)
    ensures
        r == -1 || r == 0 || r == 1,
        (r == -1) == path_less(a@, b@),
        (r == 0) == (a@ == b@),
        (r == 1) == path_less(b@, a@),
{
    let mut k: usize = 0;
    while k < a.len() && k < b.len() && a[k] == b[k]
        invariant
            k <= a.len(),
            k <= b.len(),
            forall|i: int| 0 <= i < k ==> a@[i] == b@[i],
        decreases a.len() - k,
    {
        k += 1;
    }
    proof {
        lemma_shared_prefix_len_is(a@, b@, k as int);
        lemma_path_less_total(a@, b@);
    }
    if k < a.len() && k < b.len() {
        let x: u32 = a[k];
        let y: u32 = b[k];
        if x < y {
            -1
        } else {
            1
        }
    } else if a.len() < b.len() {
        -1
    } else if a.len() == b.len() {
        0
    } else {
        1
    }
}

} // verus!
