//! Keys are byte strings, ordered as `Vec<u8>` orders them:
//! `[] < [0] < [255] < [255, 0] < [255, 255] ...`

use vstd::prelude::*;

verus! {

/// `a` and `b` agree before position `n`, and position `n` decides that `a` comes first.
pub open spec fn parts_at(a: Seq<u8>, b: Seq<u8>, n: int) -> bool {
    &&& 0 <= n <= a.len()
    &&& n < b.len()
    &&& forall|i: int| 0 <= i < n ==> a[i] == b[i]
    &&& n < a.len() ==> a[n] < b[n]
}

/// The strict lexicographic order on keys.
#[verifier::opaque]
pub open spec fn key_lt(a: Seq<u8>, b: Seq<u8>) -> bool {
    exists|n: int| parts_at(a, b, n)
}

/// The order on keys that also holds of equal keys.
pub open spec fn key_le(a: Seq<u8>, b: Seq<u8>) -> bool {
    !key_lt(b, a)
}

/// No key comes before itself.
pub broadcast proof fn lemma_key_lt_irreflexive(a: Seq<u8>)
    ensures
        !#[trigger] key_lt(a, a),
{
    reveal(key_lt);
}

/// The order on keys is transitive.
pub broadcast proof fn lemma_key_lt_transitive(a: Seq<u8>, b: Seq<u8>, c: Seq<u8>)
    requires
        #[trigger] key_lt(a, b),
        #[trigger] key_lt(b, c),
    ensures
        key_lt(a, c),
{
    reveal(key_lt);
    let m = choose|n: int| parts_at(a, b, n);
    let n = choose|n: int| parts_at(b, c, n);
    let least = if m < n {
        m
    } else {
        n
    };
    assert(parts_at(a, c, least));
}

/// The first position, from `i` on, at which two keys do not agree.
pub open spec fn first_difference(a: Seq<u8>, b: Seq<u8>, i: int) -> int
    decreases a.len() - i,
{
    if 0 <= i < a.len() && i < b.len() && a[i] == b[i] {
        first_difference(a, b, i + 1)
    } else {
        i
    }
}

proof fn lemma_first_difference(a: Seq<u8>, b: Seq<u8>, i: int)
    requires
        0 <= i <= a.len(),
        i <= b.len(),
    ensures
        i <= first_difference(a, b, i) <= a.len(),
        first_difference(a, b, i) <= b.len(),
        forall|j: int| i <= j < first_difference(a, b, i) ==> a[j] == b[j],
        first_difference(a, b, i) < a.len() && first_difference(a, b, i) < b.len()
            ==> a[first_difference(a, b, i)] != b[first_difference(a, b, i)],
    decreases a.len() - i,
{
    if i < a.len() && i < b.len() && a[i] == b[i] {
        lemma_first_difference(a, b, i + 1);
    }
}

/// Of two keys that differ, one comes before the other.
pub broadcast proof fn lemma_key_lt_total(a: Seq<u8>, b: Seq<u8>)
    ensures
        #[trigger] key_lt(a, b) || a == b || key_lt(b, a),
{
    reveal(key_lt);
    lemma_first_difference(a, b, 0);
    let n = first_difference(a, b, 0);
    if n == a.len() && n == b.len() {
        assert(a =~= b);
    } else if n == a.len() || (n < b.len() && a[n] < b[n]) {
        assert(parts_at(a, b, n));
    } else {
        assert(parts_at(b, a, n));
    }
}

/// Of two keys, at most one comes before the other.
pub broadcast proof fn lemma_key_lt_asymmetric(a: Seq<u8>, b: Seq<u8>)
    requires
        #[trigger] key_lt(a, b),
    ensures
        !key_lt(b, a),
{
    if key_lt(b, a) {
        lemma_key_lt_transitive(a, b, a);
        lemma_key_lt_irreflexive(a);
    }
}

/// The empty key comes before every other key.
pub proof fn lemma_empty_key_is_least(a: Seq<u8>)
    ensures
        key_le(Seq::empty(), a),
        a.len() > 0 ==> key_lt(Seq::empty(), a),
        !key_lt(a, Seq::empty()),
{
    reveal(key_lt);
    if a.len() > 0 {
        assert(parts_at(Seq::empty(), a, 0));
    }
}

pub broadcast group group_key_order {
    lemma_key_lt_irreflexive,
    lemma_key_lt_transitive,
    lemma_key_lt_asymmetric,
    lemma_key_lt_total,
}

/// How one key stands to another.
#[derive(Clone, Copy, PartialEq, Eq, Structural, Debug)]
pub enum Standing {
    /// It comes before the other.
    Before,
    /// It is the other.
    Same,
    /// It comes after the other.
    After,
}

/// What it means that `a` stands so to `b`.
pub open spec fn stands(a: Seq<u8>, b: Seq<u8>, standing: Standing) -> bool {
    match standing {
        Standing::Before => key_lt(a, b),
        Standing::Same => a == b,
        Standing::After => key_lt(b, a),
    }
}

/// Tells how `a` stands to `b`.
pub fn compare(a: &[u8], b: &[u8]) -> (standing: Standing)
    ensures
        stands(a@, b@, standing),
        standing is Before <==> key_lt(a@, b@),
        standing is Same <==> a@ == b@,
        standing is After <==> key_lt(b@, a@),
{
    broadcast use group_key_order;

    let mut i: usize = 0;
    while i < a.len() && i < b.len()
        invariant
            i <= a@.len(),
            i <= b@.len(),
            forall|j: int| 0 <= j < i ==> a@[j] == b@[j],
        decreases a@.len() - i,
    {
        if a[i] != b[i] {
            proof {
                reveal(key_lt);
                if a@[i as int] < b@[i as int] {
                    assert(parts_at(a@, b@, i as int));
                } else {
                    assert(parts_at(b@, a@, i as int));
                }
            }
            return if a[i] < b[i] {
                Standing::Before
            } else {
                Standing::After
            };
        }
        i = i + 1;
    }
    proof {
        reveal(key_lt);
        if i < b@.len() {
            assert(parts_at(a@, b@, i as int));
        } else if i < a@.len() {
            assert(parts_at(b@, a@, i as int));
        } else {
            assert(a@ =~= b@);
        }
    }
    if i < b.len() {
        Standing::Before
    } else if i < a.len() {
        Standing::After
    } else {
        Standing::Same
    }
}

/// Tells whether `a` comes before `b`.
pub fn is_before(a: &[u8], b: &[u8]) -> (r: bool)
    ensures
        r == key_lt(a@, b@),
{
    broadcast use group_key_order;
    match compare(a, b) {
        Standing::Before => true,
        _ => false,
    }
}

/// Tells whether two byte strings are the same.
pub fn is_same(a: &[u8], b: &[u8]) -> (r: bool)
    ensures
        r == (a@ == b@),
{
    broadcast use group_key_order;
    match compare(a, b) {
        Standing::Same => true,
        _ => false,
    }
}

/// Copies a byte string.
pub fn copy_bytes(bytes: &[u8]) -> (copy: Vec<u8>)
    ensures
        copy@ == bytes@,
{
    vstd::slice::slice_to_vec(bytes)
}

} // verus!
