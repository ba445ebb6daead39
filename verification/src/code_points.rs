//! The listing order read by code point. Names are compared byte by byte over
//! their UTF-8 encoding; this module proves that the same order results from
//! comparing them character by character, by code point.

use crate::order::{decides_before, lemma_name_before_asymmetric, name_before};
use vstd::prelude::*;
use vstd::utf8::*;

verus! {

/// `k` is the place that puts `a` before `b` by code point: both agree on
/// their first `k` characters, `b` goes on, and there `a` either ends or holds
/// a character with a smaller code point.
pub open spec fn decides_before_by_code_point(a: Seq<char>, b: Seq<char>, k: int) -> bool {
    &&& 0 <= k <= a.len()
    &&& k < b.len()
    &&& forall|j: int| 0 <= j < k ==> a[j] == b[j]
    &&& (k < a.len() ==> (a[k] as u32) < (b[k] as u32))
}

/// Strict lexicographic order on names, character by character, by code point.
pub open spec fn code_points_before(a: Seq<char>, b: Seq<char>) -> bool {
    exists|k: int| decides_before_by_code_point(a, b, k)
}

/// Byte strings `x` and `y` agree on their first `m` bytes and `x` holds the
/// smaller byte at place `m`.
spec fn differs_before(x: Seq<u8>, y: Seq<u8>, m: int) -> bool {
    &&& 0 <= m < x.len()
    &&& m < y.len()
    &&& forall|j: int| 0 <= j < m ==> x[j] == y[j]
    &&& x[m] < y[m]
}

/// The first byte of an encoding tells its length: the longer the encoding,
/// the larger its first byte.
proof fn lemma_lead_byte_ranges(c: u32)
    by (bit_vector)
    ensures
        c <= 0x7F ==> ((c & 0x7F) as u8) <= 0x7F,
        0xC0 <= (0xC0 | ((c >> 6) & 0x1F) as u8) <= 0xDF,
        0xE0 <= (0xE0 | ((c >> 12) & 0x0F) as u8) <= 0xEF,
        0xF0 <= (0xF0 | ((c >> 18) & 0x7) as u8) <= 0xF7,
{
}

/// Of two scalars encoded in one byte, the smaller has the smaller byte.
proof fn lemma_one_byte_ascends(c: u32, d: u32)
    by (bit_vector)
    requires
        c < d,
        d <= 0x7F,
    ensures
        ((c & 0x7F) as u8) < ((d & 0x7F) as u8),
{
}

/// Of two scalars encoded in two bytes, the smaller has the smaller byte at
/// the first place where the encodings differ.
proof fn lemma_two_bytes_ascend(c: u32, d: u32)
    by (bit_vector)
    requires
        c < d,
        d <= 0x7FF,
    ensures
        ({
            let c1 = 0xC0 | ((c >> 6) & 0x1F) as u8;
            let d1 = 0xC0 | ((d >> 6) & 0x1F) as u8;
            let c2 = 0x80 | (c & 0x3F) as u8;
            let d2 = 0x80 | (d & 0x3F) as u8;
            c1 < d1 || (c1 == d1 && c2 < d2)
        }),
{
}

/// Of two scalars encoded in three bytes, the smaller has the smaller byte at
/// the first place where the encodings differ.
proof fn lemma_three_bytes_ascend(c: u32, d: u32)
    by (bit_vector)
    requires
        c < d,
        d <= 0xFFFF,
    ensures
        ({
            let c1 = 0xE0 | ((c >> 12) & 0x0F) as u8;
            let d1 = 0xE0 | ((d >> 12) & 0x0F) as u8;
            let c2 = 0x80 | ((c >> 6) & 0x3F) as u8;
            let d2 = 0x80 | ((d >> 6) & 0x3F) as u8;
            let c3 = 0x80 | (c & 0x3F) as u8;
            let d3 = 0x80 | (d & 0x3F) as u8;
            c1 < d1 || (c1 == d1 && (c2 < d2 || (c2 == d2 && c3 < d3)))
        }),
{
}

/// Of two scalars encoded in four bytes, the smaller has the smaller byte at
/// the first place where the encodings differ.
proof fn lemma_four_bytes_ascend(c: u32, d: u32)
    by (bit_vector)
    requires
        c < d,
        d <= 0x10FFFF,
    ensures
        ({
            let c1 = 0xF0 | ((c >> 18) & 0x7) as u8;
            let d1 = 0xF0 | ((d >> 18) & 0x7) as u8;
            let c2 = 0x80 | ((c >> 12) & 0x3F) as u8;
            let d2 = 0x80 | ((d >> 12) & 0x3F) as u8;
            let c3 = 0x80 | ((c >> 6) & 0x3F) as u8;
            let d3 = 0x80 | ((d >> 6) & 0x3F) as u8;
            let c4 = 0x80 | (c & 0x3F) as u8;
            let d4 = 0x80 | (d & 0x3F) as u8;
            c1 < d1 || (c1 == d1 && (c2 < d2 || (c2 == d2 && (c3 < d3 || (c3 == d3 && c4 < d4)))))
        }),
{
}

/// The encoding of the smaller of two scalars holds the smaller byte at the
/// first place where the two encodings differ, and they differ before either
/// ends.
proof fn lemma_scalar_encoding_ascends(c: u32, d: u32)
    requires
        is_scalar(c),
        is_scalar(d),
        c < d,
    ensures
        exists|m: int| differs_before(encode_scalar(c), encode_scalar(d), m),
{
    let x = encode_scalar(c);
    let y = encode_scalar(d);
    lemma_lead_byte_ranges(c);
    lemma_lead_byte_ranges(d);
    if has_width_1_encoding(d) {
        lemma_one_byte_ascends(c, d);
        assert(differs_before(x, y, 0));
    } else if has_width_2_encoding(d) {
        if has_width_2_encoding(c) {
            lemma_two_bytes_ascend(c, d);
            if x[0] < y[0] {
                assert(differs_before(x, y, 0));
            } else {
                assert(differs_before(x, y, 1));
            }
        } else {
            assert(differs_before(x, y, 0));
        }
    } else if has_width_3_encoding(d) {
        if has_width_3_encoding(c) {
            lemma_three_bytes_ascend(c, d);
            if x[0] < y[0] {
                assert(differs_before(x, y, 0));
            } else if x[1] < y[1] {
                assert(differs_before(x, y, 1));
            } else {
                assert(differs_before(x, y, 2));
            }
        } else {
            assert(differs_before(x, y, 0));
        }
    } else {
        if has_width_4_encoding(c) {
            lemma_four_bytes_ascend(c, d);
            if x[0] < y[0] {
                assert(differs_before(x, y, 0));
            } else if x[1] < y[1] {
                assert(differs_before(x, y, 1));
            } else if x[2] < y[2] {
                assert(differs_before(x, y, 2));
            } else {
                assert(differs_before(x, y, 3));
            }
        } else {
            assert(differs_before(x, y, 0));
        }
    }
}

/// The encoding of a name in two parts is the encoding of the first part
/// followed by the encoding of the second.
proof fn lemma_encoding_of_parts(s: Seq<char>, t: Seq<char>)
    ensures
        encode_utf8(s + t) == encode_utf8(s) + encode_utf8(t),
    decreases s.len(),
{
    if s.len() == 0 {
        assert(s + t =~= t);
        assert(encode_utf8(s) + encode_utf8(t) =~= encode_utf8(t));
    } else {
        assert((s + t).drop_first() =~= s.drop_first() + t);
        lemma_encoding_of_parts(s.drop_first(), t);
        assert(encode_utf8(s + t) =~= encode_utf8(s) + encode_utf8(t));
    }
}

/// A name that comes before another by code point comes before it byte by
/// byte.
proof fn lemma_code_point_order_gives_byte_order(a: Seq<char>, b: Seq<char>)
    requires
        code_points_before(a, b),
    ensures
        name_before(a, b),
{
    let k = choose|k: int| decides_before_by_code_point(a, b, k);
    let head = a.take(k);
    let a_rest = a.skip(k);
    let b_rest = b.skip(k);
    assert(a =~= head + a_rest);
    assert(b =~= head + b_rest);
    lemma_encoding_of_parts(head, a_rest);
    lemma_encoding_of_parts(head, b_rest);
    let p = encode_utf8(head);
    let x = encode_utf8(a_rest);
    let y = encode_utf8(b_rest);
    let d = b_rest[0] as u32;
    char_is_scalar(b_rest[0]);
    assert(y == encode_scalar(d) + encode_utf8(b_rest.drop_first()));
    assert(encode_scalar(d).len() >= 1);
    if k == a.len() {
        assert(x.len() == 0);
        assert(decides_before(p + x, p + y, p.len() as int));
    } else {
        let c = a_rest[0] as u32;
        char_is_scalar(a_rest[0]);
        assert(x == encode_scalar(c) + encode_utf8(a_rest.drop_first()));
        lemma_scalar_encoding_ascends(c, d);
        let m = choose|m: int| differs_before(encode_scalar(c), encode_scalar(d), m);
        assert forall|j: int| 0 <= j < p.len() + m implies (p + x)[j] == (p + y)[j] by {
            if j >= p.len() {
                assert(encode_scalar(c)[j - p.len()] == encode_scalar(d)[j - p.len()]);
            }
        }
        assert((p + x)[p.len() + m] == encode_scalar(c)[m]);
        assert((p + y)[p.len() + m] == encode_scalar(d)[m]);
        assert(decides_before(p + x, p + y, p.len() + m));
    }
}

/// Names that agree on their first `i` characters, both at least that long,
/// are equal or one comes before the other by code point.
proof fn lemma_code_points_comparable_from(a: Seq<char>, b: Seq<char>, i: int)
    requires
        0 <= i <= a.len(),
        i <= b.len(),
        forall|j: int| 0 <= j < i ==> a[j] == b[j],
    ensures
        a == b || code_points_before(a, b) || code_points_before(b, a),
    decreases a.len() - i,
{
    if i == a.len() {
        if i == b.len() {
            assert(a =~= b);
        } else {
            assert(decides_before_by_code_point(a, b, i));
        }
    } else if i == b.len() {
        assert(decides_before_by_code_point(b, a, i));
    } else if (a[i] as u32) < (b[i] as u32) {
        assert(decides_before_by_code_point(a, b, i));
    } else if (b[i] as u32) < (a[i] as u32) {
        assert(decides_before_by_code_point(b, a, i));
    } else {
        char_u32_cast(a[i], a[i] as u32);
        char_u32_cast(b[i], b[i] as u32);
        lemma_code_points_comparable_from(a, b, i + 1);
    }
}

/// The listing order is the order by code point: one name comes before
/// another byte by byte over their UTF-8 encodings exactly when it comes
/// before it character by character, by code point.
pub proof fn lemma_listing_order_is_code_point_order(a: Seq<char>, b: Seq<char>)
    ensures
        name_before(a, b) <==> code_points_before(a, b),
{
    if code_points_before(a, b) {
        lemma_code_point_order_gives_byte_order(a, b);
    }
    if name_before(a, b) && !code_points_before(a, b) {
        lemma_name_before_asymmetric(a, b);
        lemma_code_points_comparable_from(a, b, 0);
        lemma_code_point_order_gives_byte_order(b, a);
    }
}

} // verus!
