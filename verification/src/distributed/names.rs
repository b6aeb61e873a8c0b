//! The order in which node ids are enumerated: byte by byte, a prefix before
//! any string that continues it.

use vstd::prelude::*;
use vstd::string::StringSliceAdditionalSpecFns;
use vstd::utf8::encode_utf8;

verus! {

/// The first index at or after `k` where `a` and `b` differ or one of them
/// ends.
pub open spec fn first_difference(a: Seq<u8>, b: Seq<u8>, k: int) -> int
    decreases a.len() - k,
{
    if k < 0 || k >= a.len() || k >= b.len() || a[k] != b[k] {
        k
    } else {
        first_difference(a, b, k + 1)
    }
}

/// `a` comes before `b` in byte-wise dictionary order.
pub open spec fn bytes_less(a: Seq<u8>, b: Seq<u8>) -> bool {
    let k = first_difference(a, b, 0);
    k < b.len() && (k >= a.len() || a[k] < b[k])
}

/// The id `a` comes before the id `b`: the order of their UTF-8 bytes.
pub open spec fn name_less(a: Seq<char>, b: Seq<char>) -> bool {
    bytes_less(encode_utf8(a), encode_utf8(b))
}

/// `first_difference` is the one index up to which the two agree and at
/// which they part.
pub proof fn lemma_first_difference(a: Seq<u8>, b: Seq<u8>, k: int)
    requires
        0 <= k <= a.len(),
        k <= b.len(),
    ensures
        k <= first_difference(a, b, k) <= a.len(),
        first_difference(a, b, k) <= b.len(),
        forall|i: int| k <= i < first_difference(a, b, k) ==> a[i] == b[i],
        first_difference(a, b, k) < a.len() && first_difference(a, b, k) < b.len() ==> a[first_difference(
            a,
            b,
            k,
        )] != b[first_difference(a, b, k)],
    decreases a.len() - k,
{
    if !(k >= a.len() || k >= b.len() || a[k] != b[k]) {
        lemma_first_difference(a, b, k + 1);
    }
}

proof fn lemma_first_difference_is(a: Seq<u8>, b: Seq<u8>, d: int)
    requires
        0 <= d <= a.len(),
        d <= b.len(),
        forall|i: int| 0 <= i < d ==> a[i] == b[i],
        d < a.len() && d < b.len() ==> a[d] != b[d],
    ensures
        first_difference(a, b, 0) == d,
{
    lemma_first_difference(a, b, 0);
    let f = first_difference(a, b, 0);
    if f < d {
        assert(a[f] == b[f]);
    }
    if d < f {
        assert(a[d] == b[d]);
    }
}

/// Of two byte strings one comes before the other, or they are the same.
pub proof fn lemma_bytes_less_total(a: Seq<u8>, b: Seq<u8>)
    ensures
        bytes_less(a, b) || bytes_less(b, a) || a == b,
        !(bytes_less(a, b) && bytes_less(b, a)),
        !bytes_less(a, a),
{
    lemma_first_difference(a, b, 0);
    lemma_first_difference(b, a, 0);
    lemma_first_difference(a, a, 0);
    let d = first_difference(a, b, 0);
    lemma_first_difference_is(b, a, d);
    if !bytes_less(a, b) && !bytes_less(b, a) {
        assert(a =~= b);
    }
}

/// The order is transitive.
pub proof fn lemma_bytes_less_transitive(a: Seq<u8>, b: Seq<u8>, c: Seq<u8>)
    requires
        bytes_less(a, b),
        bytes_less(b, c),
    ensures
        bytes_less(a, c),
{
    lemma_first_difference(a, b, 0);
    lemma_first_difference(b, c, 0);
    let d1 = first_difference(a, b, 0);
    let d2 = first_difference(b, c, 0);
    let d = if d1 <= d2 {
        d1
    } else {
        d2
    };
    assert forall|i: int| 0 <= i < d implies a[i] == c[i] by {
        assert(a[i] == b[i]);
        assert(b[i] == c[i]);
    }
    if d1 < d2 {
        assert(b[d1] == c[d1]);
    }
    if d2 < d1 {
        assert(a[d2] == b[d2]);
    }
    lemma_first_difference_is(a, c, d);
}

/// Two ids with the same bytes are the same id.
pub proof fn lemma_name_from_bytes(a: Seq<char>, b: Seq<char>)
    requires
        encode_utf8(a) == encode_utf8(b),
    ensures
        a == b,
{
    vstd::utf8::encode_utf8_decode_utf8(a);
    vstd::utf8::encode_utf8_decode_utf8(b);
}

/// Tells whether the id `a` comes before the id `b`.
pub fn is_name_less(a: &str, b: &str) -> (r: bool)
    ensures
        r == name_less(a@, b@),
{
    let x = a.as_bytes();
    let y = b.as_bytes();
    let mut k: usize = 0;
    while k < x.len() && k < y.len() && x[k] == y[k]
        invariant
            k <= x@.len(),
            k <= y@.len(),
            forall|i: int| 0 <= i < k ==> x@[i] == y@[i],
        decreases x@.len() - k,
    {
        k = k + 1;
    }
    proof {
        lemma_first_difference_is(x@, y@, k as int);
    }
    k < y.len() && (k >= x.len() || x[k] < y[k])
}

} // verus!
