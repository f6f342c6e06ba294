//! Texts and their bytes.
use vstd::prelude::*;
use vstd::utf8::{
    encode_scalar, encode_utf8, is_ascii_chars, is_ascii_chars_encode_utf8,
    last_continuation_byte, leading_byte_width_1, leading_byte_width_2, leading_byte_width_3,
    leading_byte_width_4, second_last_continuation_byte, third_last_continuation_byte,
};

use crate::wording::ascii;

verus! {

/// The bytes of a text are those of its parts.
pub proof fn lemma_encode_concat(a: Seq<char>, b: Seq<char>)
    ensures
        encode_utf8(a + b) == encode_utf8(a) + encode_utf8(b),
    decreases a.len(),
{
    if a.len() == 0 {
        assert(a + b =~= b);
        assert(Seq::<u8>::empty() + encode_utf8(b) =~= encode_utf8(b));
    } else {
        let rest = a.drop_first();
        lemma_encode_concat(rest, b);
        assert((a + b).drop_first() =~= rest + b);
        let first = encode_scalar(a[0] as u32);
        assert(first + (encode_utf8(rest) + encode_utf8(b)) =~= (first + encode_utf8(rest))
            + encode_utf8(b));
    }
}

/// The bytes of ASCII text are its characters.
pub proof fn lemma_encode_ascii(text: Seq<char>)
    requires
        is_ascii_chars(text),
    ensures
        encode_utf8(text) == ascii(text),
{
    is_ascii_chars_encode_utf8(text);
    assert(encode_utf8(text) =~= ascii(text));
}

/// The bytes of a character that is not ASCII are none of ASCII.
proof fn lemma_high_bytes(v: u32, k: int)
    requires
        v >= 128,
        0 <= k < encode_scalar(v).len(),
    ensures
        encode_scalar(v)[k] >= 128,
{
    assert(leading_byte_width_2(v) >= 128) by (bit_vector);
    assert(leading_byte_width_3(v) >= 128) by (bit_vector);
    assert(leading_byte_width_4(v) >= 128) by (bit_vector);
    assert(last_continuation_byte(v) >= 128) by (bit_vector);
    assert(second_last_continuation_byte(v) >= 128) by (bit_vector);
    assert(third_last_continuation_byte(v) >= 128) by (bit_vector);
}

/// The bytes of one character hold those of another ASCII character nowhere.
proof fn lemma_other_char(d: char, c: char, k: int)
    requires
        (c as u32) < 128,
        d != c,
        0 <= k < encode_scalar(d as u32).len(),
    ensures
        encode_scalar(d as u32)[k] != c as u8,
{
    let v = d as u32;
    if v < 128 {
        assert(leading_byte_width_1(v) == v as u8) by (bit_vector)
            requires
                v < 128,
        ;
    } else {
        lemma_high_bytes(v, k);
    }
}

/// A text without an ASCII character has bytes without it.
pub proof fn lemma_bytes_without(chars: Seq<char>, c: char)
    requires
        (c as u32) < 128,
        forall|i: int| 0 <= i < chars.len() ==> #[trigger] chars[i] != c,
    ensures
        forall|j: int|
            0 <= j < encode_utf8(chars).len() ==> #[trigger] encode_utf8(chars)[j] != c as u8,
    decreases chars.len(),
{
    if chars.len() > 0 {
        let first = encode_scalar(chars[0] as u32);
        let rest = chars.drop_first();
        let bytes = encode_utf8(chars);
        assert(forall|i: int| 0 <= i < rest.len() ==> rest[i] == chars[i + 1]);
        lemma_bytes_without(rest, c);
        assert forall|j: int| 0 <= j < bytes.len() implies #[trigger] bytes[j] != c as u8 by {
            if j < first.len() {
                lemma_other_char(chars[0], c, j);
                assert(bytes[j] == first[j]);
            } else {
                assert(bytes[j] == encode_utf8(rest)[j - first.len()]);
            }
        }
    }
}

} // verus!
