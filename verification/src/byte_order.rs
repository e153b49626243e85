//! Why the order by code point is the order of the UTF-8 bytes.
//!
//! UTF-8 was laid out so that a greater code point has a greater encoding.
//! This file proves it, first for two code points, then for two texts.

use crate::text::{lemma_code_points_differ, lex_le};
use vstd::prelude::*;
use vstd::utf8::{
    char_is_scalar, encode_scalar, encode_utf8, has_width_1_encoding, has_width_2_encoding,
    has_width_3_encoding, has_width_4_encoding, is_scalar, last_continuation_byte,
    leading_byte_width_1, leading_byte_width_2, leading_byte_width_3, leading_byte_width_4,
    second_last_continuation_byte, third_last_continuation_byte,
};

verus! {

/// Lexicographic order of byte strings: `a` stands at or before `b`.
pub open spec fn bytes_le(a: Seq<u8>, b: Seq<u8>) -> bool
    decreases a.len(),
{
    if a.len() == 0 {
        true
    } else if b.len() == 0 {
        false
    } else if a[0] != b[0] {
        a[0] < b[0]
    } else {
        bytes_le(a.drop_first(), b.drop_first())
    }
}

/// `a` and `b` agree before `i`, and at `i` the byte of `a` is the lesser.
spec fn parts_at(a: Seq<u8>, b: Seq<u8>, i: int) -> bool {
    &&& 0 <= i < a.len()
    &&& i < b.len()
    &&& a[i] < b[i]
    &&& forall|j: int| 0 <= j < i ==> a[j] == b[j]
}

proof fn lemma_lead_bytes_ascend(x: u32, y: u32)
    by (bit_vector)
    requires
        is_scalar(x),
        is_scalar(y),
        x < y,
    ensures
        has_width_1_encoding(y) ==> leading_byte_width_1(x) < leading_byte_width_1(y),
        has_width_1_encoding(x) && has_width_2_encoding(y) ==> leading_byte_width_1(x)
            < leading_byte_width_2(y),
        has_width_1_encoding(x) && has_width_3_encoding(y) ==> leading_byte_width_1(x)
            < leading_byte_width_3(y),
        has_width_1_encoding(x) && has_width_4_encoding(y) ==> leading_byte_width_1(x)
            < leading_byte_width_4(y),
        has_width_2_encoding(x) && has_width_3_encoding(y) ==> leading_byte_width_2(x)
            < leading_byte_width_3(y),
        has_width_2_encoding(x) && has_width_4_encoding(y) ==> leading_byte_width_2(x)
            < leading_byte_width_4(y),
        has_width_3_encoding(x) && has_width_4_encoding(y) ==> leading_byte_width_3(x)
            < leading_byte_width_4(y),
{
}

proof fn lemma_width_2_ascends(x: u32, y: u32)
    by (bit_vector)
    requires
        has_width_2_encoding(x),
        has_width_2_encoding(y),
        x < y,
    ensures
        leading_byte_width_2(x) <= leading_byte_width_2(y),
        leading_byte_width_2(x) == leading_byte_width_2(y) ==> last_continuation_byte(x)
            < last_continuation_byte(y),
{
}

proof fn lemma_width_3_ascends(x: u32, y: u32)
    by (bit_vector)
    requires
        has_width_3_encoding(x),
        has_width_3_encoding(y),
        x < y,
    ensures
        leading_byte_width_3(x) <= leading_byte_width_3(y),
        leading_byte_width_3(x) == leading_byte_width_3(y) ==> second_last_continuation_byte(x)
            <= second_last_continuation_byte(y),
        leading_byte_width_3(x) == leading_byte_width_3(y) && second_last_continuation_byte(x)
            == second_last_continuation_byte(y) ==> last_continuation_byte(x)
            < last_continuation_byte(y),
{
}

proof fn lemma_width_4_ascends(x: u32, y: u32)
    by (bit_vector)
    requires
        has_width_4_encoding(x),
        has_width_4_encoding(y),
        x < y,
    ensures
        leading_byte_width_4(x) <= leading_byte_width_4(y),
        leading_byte_width_4(x) == leading_byte_width_4(y) ==> third_last_continuation_byte(x)
            <= third_last_continuation_byte(y),
        leading_byte_width_4(x) == leading_byte_width_4(y) && third_last_continuation_byte(x)
            == third_last_continuation_byte(y) ==> second_last_continuation_byte(x)
            <= second_last_continuation_byte(y),
        leading_byte_width_4(x) == leading_byte_width_4(y) && third_last_continuation_byte(x)
            == third_last_continuation_byte(y) && second_last_continuation_byte(x)
            == second_last_continuation_byte(y) ==> last_continuation_byte(x)
            < last_continuation_byte(y),
{
}

/// The encoding of the lesser of two code points parts from the encoding of
/// the greater at some byte, and is the lesser there.
proof fn lemma_scalar_encodings_part(x: u32, y: u32)
    requires
        is_scalar(x),
        is_scalar(y),
        x < y,
    ensures
        exists|i: int| parts_at(encode_scalar(x), encode_scalar(y), i),
{
    let ex = encode_scalar(x);
    let ey = encode_scalar(y);
    lemma_lead_bytes_ascend(x, y);
    if has_width_2_encoding(x) && has_width_2_encoding(y) {
        lemma_width_2_ascends(x, y);
        if ex[0] == ey[0] {
            assert(parts_at(ex, ey, 1));
        } else {
            assert(parts_at(ex, ey, 0));
        }
    } else if has_width_3_encoding(x) && has_width_3_encoding(y) {
        lemma_width_3_ascends(x, y);
        if ex[0] != ey[0] {
            assert(parts_at(ex, ey, 0));
        } else if ex[1] != ey[1] {
            assert(parts_at(ex, ey, 1));
        } else {
            assert(parts_at(ex, ey, 2));
        }
    } else if has_width_4_encoding(x) && has_width_4_encoding(y) {
        lemma_width_4_ascends(x, y);
        if ex[0] != ey[0] {
            assert(parts_at(ex, ey, 0));
        } else if ex[1] != ey[1] {
            assert(parts_at(ex, ey, 1));
        } else if ex[2] != ey[2] {
            assert(parts_at(ex, ey, 2));
        } else {
            assert(parts_at(ex, ey, 3));
        }
    } else {
        assert(parts_at(ex, ey, 0));
    }
}

proof fn lemma_parted_bytes(a: Seq<u8>, b: Seq<u8>, i: int)
    requires
        parts_at(a, b, i),
    ensures
        bytes_le(a, b),
        !bytes_le(b, a),
    decreases i,
{
    if i > 0 {
        assert(a[0] == b[0]);
        let ra = a.drop_first();
        let rb = b.drop_first();
        assert forall|j: int| 0 <= j < i - 1 implies ra[j] == rb[j] by {
            assert(ra[j] == a[j + 1] && rb[j] == b[j + 1]);
        }
        assert(ra[i - 1] == a[i] && rb[i - 1] == b[i]);
        lemma_parted_bytes(ra, rb, i - 1);
    }
}

proof fn lemma_common_prefix(p: Seq<u8>, a: Seq<u8>, b: Seq<u8>)
    ensures
        bytes_le(p + a, p + b) == bytes_le(a, b),
    decreases p.len(),
{
    if p.len() == 0 {
        assert(p + a =~= a);
        assert(p + b =~= b);
    } else {
        assert((p + a)[0] == (p + b)[0]);
        assert((p + a).drop_first() =~= p.drop_first() + a);
        assert((p + b).drop_first() =~= p.drop_first() + b);
        lemma_common_prefix(p.drop_first(), a, b);
    }
}

proof fn lemma_parted_heads(x: u32, y: u32, a: Seq<u8>, b: Seq<u8>)
    requires
        is_scalar(x),
        is_scalar(y),
        x < y,
    ensures
        bytes_le(encode_scalar(x) + a, encode_scalar(y) + b),
        !bytes_le(encode_scalar(y) + b, encode_scalar(x) + a),
{
    let ex = encode_scalar(x);
    let ey = encode_scalar(y);
    lemma_scalar_encodings_part(x, y);
    let i = choose|i: int| parts_at(ex, ey, i);
    assert(parts_at(ex + a, ey + b, i)) by {
        assert forall|j: int| 0 <= j <= i implies (ex + a)[j] == ex[j] && (ey + b)[j] == ey[j] by {}
    }
    lemma_parted_bytes(ex + a, ey + b, i);
}

/// One text stands at or before another by code point exactly if its UTF-8
/// encoding stands at or before the other's byte by byte.
pub proof fn lemma_lex_le_is_byte_order(a: Seq<char>, b: Seq<char>)
    ensures
        lex_le(a, b) == bytes_le(encode_utf8(a), encode_utf8(b)),
    decreases a.len(),
{
    if a.len() == 0 {
    } else {
        let x = a[0] as u32;
        let ra = encode_utf8(a.drop_first());
        char_is_scalar(a[0]);
        assert(encode_scalar(x).len() > 0);
        assert(encode_utf8(a) == encode_scalar(x) + ra);
        if b.len() == 0 {
            assert(encode_utf8(b).len() == 0);
        } else {
            let y = b[0] as u32;
            let rb = encode_utf8(b.drop_first());
            char_is_scalar(b[0]);
            assert(encode_utf8(b) == encode_scalar(y) + rb);
            if a[0] == b[0] {
                lemma_common_prefix(encode_scalar(x), ra, rb);
                lemma_lex_le_is_byte_order(a.drop_first(), b.drop_first());
            } else {
                lemma_code_points_differ(a[0], b[0]);
                if x < y {
                    lemma_parted_heads(x, y, ra, rb);
                } else {
                    lemma_parted_heads(y, x, rb, ra);
                }
            }
        }
    }
}

} // verus!
