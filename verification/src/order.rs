//! The alphabetical order of names: strings are ordered as their UTF-8 bytes
//! are, byte by byte.

use vstd::prelude::*;
use vstd::utf8::{encode_utf8, encode_utf8_decode_utf8};

verus! {

/// `a` and `b` agree before position `k`, where `a` ends or holds the
/// smaller byte, while `b` goes on.
pub open spec fn parts_at(a: Seq<u8>, b: Seq<u8>, k: int) -> bool {
    &&& 0 <= k <= a.len()
    &&& k < b.len()
    &&& forall|j: int| 0 <= j < k ==> a[j] == b[j]
    &&& (k == a.len() || a[k] < b[k])
}

/// `a` comes before `b` in the lexicographic order of bytes: at the first
/// position where they differ `a` holds the smaller byte, or `a` is `b` cut
/// short.
pub open spec fn bytes_before(a: Seq<u8>, b: Seq<u8>) -> bool {
    exists|k: int| parts_at(a, b, k)
}

/// `a` comes before `b` in alphabetical order.
pub open spec fn name_before(a: Seq<char>, b: Seq<char>) -> bool {
    bytes_before(encode_utf8(a), encode_utf8(b))
}

/// The names stand in strictly ascending alphabetical order.
pub open spec fn alphabetical(names: Seq<Seq<char>>) -> bool {
    forall|i: int, j: int| 0 <= i < j < names.len() ==> name_before(names[i], names[j])
}

/// How one name stands to another.
#[derive(Clone, Copy, Debug, PartialEq, Eq)]
pub enum Rank {
    Before,
    Same,
    After,
}

/// No byte sequence comes before itself, and none comes both before and
/// after another.
pub proof fn lemma_bytes_before_asymmetric(a: Seq<u8>, b: Seq<u8>)
    requires
        bytes_before(a, b),
    ensures
        a != b,
        !bytes_before(b, a),
{
    let k = choose|k: int| parts_at(a, b, k);
    if a == b {
        assert(false);
    }
    if bytes_before(b, a) {
        let m = choose|m: int| parts_at(b, a, m);
        if m < k {
            assert(a[m] == b[m]);
        } else if k < m {
            assert(b[k] == a[k]);
        }
        assert(false);
    }
}

/// The order is transitive.
pub proof fn lemma_bytes_before_transitive(a: Seq<u8>, b: Seq<u8>, c: Seq<u8>)
    requires
        bytes_before(a, b),
        bytes_before(b, c),
    ensures
        bytes_before(a, c),
{
    let k = choose|k: int| parts_at(a, b, k);
    let m = choose|m: int| parts_at(b, c, m);
    let n = if k <= m {
        k
    } else {
        m
    };
    assert forall|j: int| 0 <= j < n implies a[j] == c[j] by {
        assert(a[j] == b[j]);
        assert(b[j] == c[j]);
    }
    if k < m {
        assert(b[k] == c[k]);
    }
    assert(parts_at(a, c, n));
}

/// Of two different byte sequences one comes before the other.
pub proof fn lemma_bytes_before_total(a: Seq<u8>, b: Seq<u8>)
    ensures
        a == b || bytes_before(a, b) || bytes_before(b, a),
{
    lemma_agreement(a, b, 0);
}

/// Two sequences that agree before position `k` are equal or ordered.
proof fn lemma_agreement(a: Seq<u8>, b: Seq<u8>, k: int)
    requires
        0 <= k <= a.len(),
        k <= b.len(),
        forall|j: int| 0 <= j < k ==> a[j] == b[j],
    ensures
        a == b || bytes_before(a, b) || bytes_before(b, a),
    decreases a.len() - k,
{
    if k == a.len() {
        if k == b.len() {
            assert(a =~= b);
        } else {
            assert(parts_at(a, b, k));
        }
    } else if k == b.len() {
        assert(parts_at(b, a, k));
    } else if a[k] < b[k] {
        assert(parts_at(a, b, k));
    } else if b[k] < a[k] {
        assert(parts_at(b, a, k));
    } else {
        lemma_agreement(a, b, k + 1);
    }
}

/// The alphabetical order of names is a strict total order: no name comes
/// before itself, the order is transitive, and of two different names one
/// comes before the other.
pub proof fn lemma_name_order(a: Seq<char>, b: Seq<char>, c: Seq<char>)
    ensures
        !name_before(a, a),
        name_before(a, b) ==> !name_before(b, a),
        name_before(a, b) && name_before(b, c) ==> name_before(a, c),
        a == b || name_before(a, b) || name_before(b, a),
{
    if name_before(a, a) {
        lemma_bytes_before_asymmetric(encode_utf8(a), encode_utf8(a));
    }
    if name_before(a, b) {
        lemma_bytes_before_asymmetric(encode_utf8(a), encode_utf8(b));
        if name_before(b, c) {
            lemma_bytes_before_transitive(encode_utf8(a), encode_utf8(b), encode_utf8(c));
        }
    }
    lemma_bytes_before_total(encode_utf8(a), encode_utf8(b));
    if encode_utf8(a) == encode_utf8(b) {
        encode_utf8_decode_utf8(a);
        encode_utf8_decode_utf8(b);
    }
}

/// Ranks `a` against `b` in the lexicographic order of bytes.
pub fn rank_bytes(a: &[u8], b: &[u8]) -> (r: Rank)
    ensures
        (r == Rank::Before) == bytes_before(a@, b@),
        (r == Rank::Same) == (a@ == b@),
        (r == Rank::After) == bytes_before(b@, a@),
{
    let m: usize = a.len();
    let n: usize = b.len();
    let mut k: usize = 0;
    while k < m && k < n
        invariant
            m == a@.len(),
            n == b@.len(),
            k <= m,
            k <= n,
            forall|j: int| 0 <= j < k ==> a@[j] == b@[j],
        decreases m - k,
    {
        if a[k] < b[k] {
            proof {
                assert(parts_at(a@, b@, k as int));
                lemma_bytes_before_asymmetric(a@, b@);
            }
            return Rank::Before;
        }
        if b[k] < a[k] {
            proof {
                assert(parts_at(b@, a@, k as int));
                lemma_bytes_before_asymmetric(b@, a@);
            }
            return Rank::After;
        }
        k += 1;
    }
    if k < n {
        proof {
            assert(parts_at(a@, b@, k as int));
            lemma_bytes_before_asymmetric(a@, b@);
        }
        Rank::Before
    } else if k < m {
        proof {
            assert(parts_at(b@, a@, k as int));
            lemma_bytes_before_asymmetric(b@, a@);
        }
        Rank::After
    } else {
        proof {
            assert(a@ =~= b@);
            if bytes_before(a@, b@) {
                lemma_bytes_before_asymmetric(a@, b@);
            }
        }
        Rank::Same
    }
}

/// Ranks the name `a` against the name `b` in alphabetical order.
pub fn rank_names(a: &str, b: &str) -> (r: Rank)
    ensures
        (r == Rank::Before) == name_before(a@, b@),
        (r == Rank::Same) == (a@ == b@),
        (r == Rank::After) == name_before(b@, a@),
{
    proof {
        lemma_name_order(a@, b@, a@);
        lemma_name_order(b@, a@, b@);
        encode_utf8_decode_utf8(a@);
        encode_utf8_decode_utf8(b@);
    }
    rank_bytes(a.as_bytes(), b.as_bytes())
}

/// Tells whether two names are the same.
pub fn same_name(a: &str, b: &str) -> (same: bool)
    ensures
        same == (a@ == b@),
{
    match rank_names(a, b) {
        Rank::Same => true,
        _ => false,
    }
}

/// Two sequences that ascend strictly in one order and have the same
/// members agree up to position `k`.
proof fn lemma_ascending_agree<A>(a: Seq<A>, b: Seq<A>, before: spec_fn(A, A) -> bool, k: int)
    requires
        forall|x: A, y: A| #[trigger] before(x, y) ==> !before(y, x),
        forall|i: int, j: int| 0 <= i < j < a.len() ==> before(a[i], a[j]),
        forall|i: int, j: int| 0 <= i < j < b.len() ==> before(b[i], b[j]),
        forall|x: A| a.contains(x) <==> b.contains(x),
        0 <= k <= a.len(),
    ensures
        k <= b.len(),
        forall|j: int| 0 <= j < k ==> a[j] == b[j],
    decreases k,
{
    if k > 0 {
        lemma_ascending_agree(a, b, before, k - 1);
        let x = a[k - 1];
        assert(a.contains(x));
        let p = choose|p: int| 0 <= p < b.len() && b[p] == x;
        if p < k - 1 {
            assert(a[p] == b[p]);
            assert(before(a[p], a[k - 1]));
            assert(false);
        }
        let y = b[k - 1];
        assert(b.contains(y));
        let q = choose|q: int| 0 <= q < a.len() && a[q] == y;
        if q < k - 1 {
            assert(a[q] == b[q]);
            assert(before(b[q], b[k - 1]));
            assert(false);
        }
        if p > k - 1 && q > k - 1 {
            assert(before(b[k - 1], b[p]));
            assert(before(a[k - 1], a[q]));
            assert(false);
        }
    }
}

/// A set has one strictly ascending arrangement: two sequences that ascend
/// strictly in one order and have the same members are equal.
pub proof fn lemma_ascending_unique<A>(a: Seq<A>, b: Seq<A>, before: spec_fn(A, A) -> bool)
    requires
        forall|x: A, y: A| #[trigger] before(x, y) ==> !before(y, x),
        forall|i: int, j: int| 0 <= i < j < a.len() ==> before(a[i], a[j]),
        forall|i: int, j: int| 0 <= i < j < b.len() ==> before(b[i], b[j]),
        forall|x: A| a.contains(x) <==> b.contains(x),
    ensures
        a == b,
{
    lemma_ascending_agree(a, b, before, a.len() as int);
    lemma_ascending_agree(b, a, before, b.len() as int);
    assert(a =~= b);
}

/// Names have one alphabetical arrangement: two alphabetical sequences
/// with the same members are equal.
pub proof fn lemma_alphabetical_unique(a: Seq<Seq<char>>, b: Seq<Seq<char>>)
    requires
        alphabetical(a),
        alphabetical(b),
        forall|name: Seq<char>| a.contains(name) <==> b.contains(name),
    ensures
        a == b,
{
    let before = |x: Seq<char>, y: Seq<char>| name_before(x, y);
    assert forall|x: Seq<char>, y: Seq<char>| #[trigger] before(x, y) implies !before(y, x) by {
        lemma_name_order(x, y, x);
    }
    lemma_ascending_unique(a, b, before);
}

} // verus!
