//! The order of feature identifiers: lexicographic by the bytes of their
//! UTF-8 encoding.

use std::cmp::Ordering;
use vstd::prelude::*;
use vstd::utf8::*;

verus! {

/// `a` and `b` agree on their first `k` bytes.
pub open spec fn agree_upto(a: Seq<u8>, b: Seq<u8>, k: int) -> bool {
    &&& 0 <= k <= a.len()
    &&& k <= b.len()
    &&& forall|i: int| 0 <= i < k ==> a[i] == b[i]
}

/// `a` comes before `b`: at the first place where they differ `a` has the
/// smaller byte, or `a` ends there and `b` goes on.
pub open spec fn bytes_lt(a: Seq<u8>, b: Seq<u8>) -> bool {
    exists|k: int| #[trigger]
        agree_upto(a, b, k) && k < b.len() && (k == a.len() || a[k] < b[k])
}

/// The identifier `a` comes before the identifier `b`.
pub open spec fn id_lt(a: Seq<char>, b: Seq<char>) -> bool {
    bytes_lt(encode_utf8(a), encode_utf8(b))
}

/// Two byte strings that agree up to `k` and differ or end there are ordered
/// by what stands at `k`, whatever other place is looked at.
proof fn lemma_first_difference_decides(a: Seq<u8>, b: Seq<u8>, k: int, l: int)
    requires
        agree_upto(a, b, k),
        agree_upto(a, b, l),
        k < b.len(),
        k == a.len() || a[k] < b[k],
        l == a.len() || l == b.len() || a[l] != b[l],
    ensures
        l == k,
{
    if l < k {
        assert(a[l] == b[l]);
    }
    if k < l {
        assert(a[k] == b[k]);
    }
}

/// Of two byte strings at most one comes before the other, and none before
/// itself.
pub proof fn lemma_bytes_lt_asymmetric(a: Seq<u8>, b: Seq<u8>)
    requires
        bytes_lt(a, b),
    ensures
        !bytes_lt(b, a),
        a != b,
{
    let k = choose|k: int| #[trigger]
        agree_upto(a, b, k) && k < b.len() && (k == a.len() || a[k] < b[k]);
    if bytes_lt(b, a) {
        let l = choose|l: int| #[trigger]
            agree_upto(b, a, l) && l < a.len() && (l == b.len() || b[l] < a[l]);
        assert(agree_upto(a, b, l));
        lemma_first_difference_decides(a, b, k, l);
    }
    if a == b {
        assert(a[k] == b[k]);
    }
}

/// Of two different byte strings one comes before the other.
pub proof fn lemma_bytes_lt_total(a: Seq<u8>, b: Seq<u8>)
    requires
        a != b,
    ensures
        bytes_lt(a, b) || bytes_lt(b, a),
{
    lemma_agreeing_prefix(a, b, 0);
}

/// Two byte strings that agree up to `k` are equal or ordered.
proof fn lemma_agreeing_prefix(a: Seq<u8>, b: Seq<u8>, k: int)
    requires
        agree_upto(a, b, k),
    ensures
        a == b || bytes_lt(a, b) || bytes_lt(b, a),
    decreases a.len() - k,
{
    if k == a.len() {
        if k == b.len() {
            assert(a =~= b);
        } else {
            assert(agree_upto(a, b, k));
        }
    } else if k == b.len() {
        assert(agree_upto(b, a, k));
    } else if a[k] < b[k] {
        assert(agree_upto(a, b, k));
    } else if b[k] < a[k] {
        assert(agree_upto(b, a, k));
    } else {
        assert(agree_upto(a, b, k + 1));
        lemma_agreeing_prefix(a, b, k + 1);
    }
}

/// The order is transitive.
pub proof fn lemma_bytes_lt_transitive(a: Seq<u8>, b: Seq<u8>, c: Seq<u8>)
    requires
        bytes_lt(a, b),
        bytes_lt(b, c),
    ensures
        bytes_lt(a, c),
{
    let k = choose|k: int| #[trigger]
        agree_upto(a, b, k) && k < b.len() && (k == a.len() || a[k] < b[k]);
    let l = choose|l: int| #[trigger]
        agree_upto(b, c, l) && l < c.len() && (l == b.len() || b[l] < c[l]);
    let m = if k <= l {
        k
    } else {
        l
    };
    assert(agree_upto(a, c, m)) by {
        assert forall|i: int| 0 <= i < m implies a[i] == c[i] by {
            assert(a[i] == b[i]);
            assert(b[i] == c[i]);
        }
    }
    if k < l {
        assert(b[k] == c[k]);
    }
    if l < k {
        assert(a[l] == b[l]);
    }
}

/// Different identifiers have different encodings.
pub proof fn lemma_encoding_is_injective(a: Seq<char>, b: Seq<char>)
    requires
        encode_utf8(a) == encode_utf8(b),
    ensures
        a == b,
{
    encode_utf8_decode_utf8(a);
    encode_utf8_decode_utf8(b);
}

/// Of two different identifiers one comes before the other, and never both.
pub proof fn lemma_id_order_is_strict_total(a: Seq<char>, b: Seq<char>)
    ensures
        a != b ==> id_lt(a, b) || id_lt(b, a),
        id_lt(a, b) ==> !id_lt(b, a) && a != b,
{
    if a != b {
        if encode_utf8(a) == encode_utf8(b) {
            lemma_encoding_is_injective(a, b);
        }
        lemma_bytes_lt_total(encode_utf8(a), encode_utf8(b));
    }
    if id_lt(a, b) {
        lemma_bytes_lt_asymmetric(encode_utf8(a), encode_utf8(b));
    }
}

/// The number of leading bytes on which `a` and `b` agree.
pub fn common_prefix_len(a: &[u8], b: &[u8]) -> (k: usize)
    ensures
        agree_upto(a@, b@, k as int),
        k == a@.len() || k == b@.len() || a@[k as int] != b@[k as int],
{
    let mut k: usize = 0;
    while k < a.len() && k < b.len() && a[k] == b[k]
        invariant
            agree_upto(a@, b@, k as int),
        decreases a@.len() - k,
    {
        k += 1;
    }
    k
}

/// How two identifiers are ordered, read off the place `k` up to which
/// their encodings agree.
proof fn lemma_order_at_first_difference(a: Seq<char>, b: Seq<char>, k: usize)
    requires
        agree_upto(encode_utf8(a), encode_utf8(b), k as int),
        k == encode_utf8(a).len() || k == encode_utf8(b).len() || encode_utf8(a)[k as int]
            != encode_utf8(b)[k as int],
    ensures
        id_lt(a, b) <==> k < encode_utf8(b).len() && (k == encode_utf8(a).len() || encode_utf8(
            a,
        )[k as int] < encode_utf8(b)[k as int]),
        id_lt(b, a) <==> k < encode_utf8(a).len() && (k == encode_utf8(b).len() || encode_utf8(
            b,
        )[k as int] < encode_utf8(a)[k as int]),
        a == b <==> k == encode_utf8(a).len() && k == encode_utf8(b).len(),
{
    let x = encode_utf8(a);
    let y = encode_utf8(b);
    assert(agree_upto(y, x, k as int));
    if k == x.len() && k == y.len() {
        assert(x =~= y);
        lemma_encoding_is_injective(a, b);
    }
    if bytes_lt(x, y) {
        let l = choose|l: int| #[trigger]
            agree_upto(x, y, l) && l < y.len() && (l == x.len() || x[l] < y[l]);
        lemma_first_difference_decides(x, y, l, k as int);
    }
    if bytes_lt(y, x) {
        let l = choose|l: int| #[trigger]
            agree_upto(y, x, l) && l < x.len() && (l == y.len() || y[l] < x[l]);
        lemma_first_difference_decides(y, x, l, k as int);
    }
}

/// Compares two identifiers by the bytes of their encodings.
pub fn compare_ids(a: &str, b: &str) -> (order: Ordering)
    ensures
        order == Ordering::Less <==> id_lt(a@, b@),
        order == Ordering::Greater <==> id_lt(b@, a@),
        order == Ordering::Equal <==> a@ == b@,
{
    let x = a.as_bytes();
    let y = b.as_bytes();
    let k = common_prefix_len(x, y);
    proof {
        lemma_order_at_first_difference(a@, b@, k);
    }
    if k == x.len() {
        if k == y.len() {
            Ordering::Equal
        } else {
            Ordering::Less
        }
    } else if k == y.len() {
        Ordering::Greater
    } else if x[k] < y[k] {
        Ordering::Less
    } else {
        Ordering::Greater
    }
}

} // verus!
