//! Keys and their order.
//!
//! A key is a sequence of bytes; keys are ordered lexicographically, byte by
//! byte, a proper prefix coming before every key that extends it.

use vstd::prelude::*;

verus! {

/// Whether `a` comes before `b`, given that the two agree below index `i`.
pub open spec fn lt_from(a: Seq<u8>, b: Seq<u8>, i: int) -> bool
    decreases b.len() - i,
{
    if i < 0 || i >= b.len() {
        false
    } else if i >= a.len() {
        true
    } else if a[i] != b[i] {
        a[i] < b[i]
    } else {
        lt_from(a, b, i + 1)
    }
}

/// The strict lexicographic order on keys.
pub open spec fn key_lt(a: Seq<u8>, b: Seq<u8>) -> bool {
    lt_from(a, b, 0)
}

/// The lexicographic order on keys.
pub open spec fn key_le(a: Seq<u8>, b: Seq<u8>) -> bool {
    a == b || key_lt(a, b)
}

/// `a` and `b` hold the same bytes below index `i`.
pub open spec fn agree_below(a: Seq<u8>, b: Seq<u8>, i: int) -> bool {
    &&& 0 <= i <= a.len()
    &&& i <= b.len()
    &&& forall|j: int| 0 <= j < i ==> a[j] == b[j]
}

proof fn lemma_from_asymmetric(a: Seq<u8>, b: Seq<u8>, i: int)
    requires
        0 <= i,
        lt_from(a, b, i),
    ensures
        !lt_from(b, a, i),
    decreases b.len() - i,
{
    if i < b.len() && i < a.len() && a[i] == b[i] {
        lemma_from_asymmetric(a, b, i + 1);
    }
}

proof fn lemma_from_transitive(a: Seq<u8>, b: Seq<u8>, c: Seq<u8>, i: int)
    requires
        0 <= i,
        lt_from(a, b, i),
        lt_from(b, c, i),
    ensures
        lt_from(a, c, i),
    decreases c.len() - i,
{
    if i < a.len() && a[i] == b[i] && b[i] == c[i] {
        lemma_from_transitive(a, b, c, i + 1);
    }
}

proof fn lemma_from_total(a: Seq<u8>, b: Seq<u8>, i: int)
    requires
        agree_below(a, b, i),
        !lt_from(a, b, i),
        !lt_from(b, a, i),
    ensures
        a == b,
    decreases b.len() - i,
{
    if i < b.len() && i < a.len() {
        lemma_from_total(a, b, i + 1);
    } else {
        assert(a =~= b);
    }
}

/// No key comes before itself.
pub proof fn lemma_key_lt_irreflexive(a: Seq<u8>)
    ensures
        !key_lt(a, a),
{
    if key_lt(a, a) {
        lemma_from_asymmetric(a, a, 0);
    }
}

/// Of two keys at most one comes before the other.
pub proof fn lemma_key_lt_asymmetric(a: Seq<u8>, b: Seq<u8>)
    requires
        key_lt(a, b),
    ensures
        !key_lt(b, a),
        a != b,
{
    lemma_from_asymmetric(a, b, 0);
}

/// The order is transitive.
pub proof fn lemma_key_lt_transitive(a: Seq<u8>, b: Seq<u8>, c: Seq<u8>)
    requires
        key_lt(a, b),
        key_lt(b, c),
    ensures
        key_lt(a, c),
{
    lemma_from_transitive(a, b, c, 0);
}

/// Two keys are equal, or one comes before the other.
pub proof fn lemma_key_lt_total(a: Seq<u8>, b: Seq<u8>)
    ensures
        key_lt(a, b) || a == b || key_lt(b, a),
{
    if !key_lt(a, b) && !key_lt(b, a) {
        lemma_from_total(a, b, 0);
    }
}

/// `key_le` is transitive, and mixes with `key_lt` as an order should.
pub proof fn lemma_key_le_lt(a: Seq<u8>, b: Seq<u8>, c: Seq<u8>)
    ensures
        key_le(a, b) && key_lt(b, c) ==> key_lt(a, c),
        key_lt(a, b) && key_le(b, c) ==> key_lt(a, c),
        key_le(a, b) && key_le(b, c) ==> key_le(a, c),
        key_le(a, b) <==> !key_lt(b, a),
{
    if key_lt(a, b) && key_lt(b, c) {
        lemma_key_lt_transitive(a, b, c);
    }
    lemma_key_lt_total(a, b);
    if key_lt(a, b) {
        lemma_key_lt_asymmetric(a, b);
    }
    lemma_key_lt_irreflexive(a);
}

/// How two keys stand to each other.
#[derive(Clone, Copy, Debug, PartialEq, Eq, Structural)]
pub enum KeyOrder {
    /// The first key comes before the second.
    Before,
    /// The two keys hold the same bytes.
    Same,
    /// The first key comes after the second.
    After,
}

/// Compares two keys lexicographically.
pub fn compare_keys(a: &[u8], b: &[u8]) -> (r: KeyOrder)
    ensures
        r == KeyOrder::Before <==> key_lt(a@, b@),
        r == KeyOrder::Same <==> a@ == b@,
        r == KeyOrder::After <==> key_lt(b@, a@),
{
    let mut i: usize = 0;
    while i < a.len() && i < b.len()
        invariant
            agree_below(a@, b@, i as int),
            key_lt(a@, b@) == lt_from(a@, b@, i as int),
            key_lt(b@, a@) == lt_from(b@, a@, i as int),
        decreases a.len() - i,
    {
        if a[i] < b[i] {
            proof {
                lemma_key_lt_asymmetric(a@, b@);
            }
            return KeyOrder::Before;
        }
        if a[i] > b[i] {
            proof {
                lemma_key_lt_asymmetric(b@, a@);
            }
            return KeyOrder::After;
        }
        i += 1;
    }
    proof {
        lemma_key_lt_total(a@, b@);
        lemma_key_lt_irreflexive(a@);
    }
    if i < b.len() {
        proof {
            lemma_key_lt_asymmetric(a@, b@);
        }
        KeyOrder::Before
    } else if i < a.len() {
        proof {
            lemma_key_lt_asymmetric(b@, a@);
        }
        KeyOrder::After
    } else {
        proof {
            lemma_from_total(a@, b@, i as int);
        }
        KeyOrder::Same
    }
}

/// Whether `a` comes strictly before `b`.
pub fn key_less(a: &[u8], b: &[u8]) -> (r: bool)
    ensures
        r == key_lt(a@, b@),
{
    compare_keys(a, b) == KeyOrder::Before
}

/// Whether `a` comes before `b` or equals it.
pub fn key_less_eq(a: &[u8], b: &[u8]) -> (r: bool)
    ensures
        r == key_le(a@, b@),
{
    proof {
        lemma_key_le_lt(a@, b@, a@);
    }
    compare_keys(a, b) != KeyOrder::After
}

/// Whether `a` and `b` hold the same bytes.
pub fn key_equal(a: &[u8], b: &[u8]) -> (r: bool)
    ensures
        r == (a@ == b@),
{
    compare_keys(a, b) == KeyOrder::Same
}

} // verus!
