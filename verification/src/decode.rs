//! Decoding of UTF-8, one scalar value at a time, against the definitions of
//! `vstd::utf8`.

use vstd::prelude::*;
use vstd::utf8::*;

verus! {

/// The bytes of `bytes` from position `pos` to the end.
pub open spec fn rest(bytes: Seq<u8>, pos: int) -> Seq<u8> {
    bytes.subrange(pos, bytes.len() as int)
}

/// The characters encoded by the first `pos` bytes of `bytes`.
pub open spec fn decoded_prefix(bytes: Seq<u8>, pos: int) -> Seq<char> {
    decode_utf8(bytes.subrange(0, pos))
}

/// The text that `bytes` encodes, where they encode one.
pub open spec fn text_of(bytes: Seq<u8>) -> Option<Seq<char>> {
    if valid_utf8(bytes) {
        Some(decode_utf8(bytes))
    } else {
        None
    }
}

/// Why a statistic of a file's text could not be computed.
#[derive(Clone, Copy, Debug, PartialEq, Eq, Structural)]
pub enum DecodeError {
    /// The contents are not the UTF-8 encoding of any text.
    InvalidUtf8,
}

impl DecodeError {
    /// The words that describe this failure in a report.
    pub open spec fn message(self) -> Seq<char> {
        "stream did not contain valid UTF-8"@
    }

    /// The words that describe this failure in a report.
    pub fn description(&self) -> (words: String)
        ensures
            words@ == self.message(),
    {
        String::from_str("stream did not contain valid UTF-8")
    }
}

/// The data bits of a one-byte encoding stay below 0x80.
proof fn lemma_width_1_scalar(b0: u8)
    by (bit_vector)
    requires
        b0 <= 0x7f,
    ensures
        (b0 & 0x7f) as u32 <= 0x7f,
{
}

/// The data bits of a two-byte encoding stay below 0x800.
proof fn lemma_width_2_scalar(b0: u8, b1: u8)
    by (bit_vector)
    ensures
        (((b0 & 0x1f) as u32) << 6) | ((b1 & 0x3f) as u32) <= 0x7ff,
{
}

/// The data bits of a three-byte encoding stay below 0x10000.
proof fn lemma_width_3_scalar(b0: u8, b1: u8, b2: u8)
    by (bit_vector)
    ensures
        (((b0 & 0x0f) as u32) << 12) | (((b1 & 0x3f) as u32) << 6) | ((b2 & 0x3f) as u32)
            <= 0xffff,
{
}

/// A well-formed first scalar is a Unicode scalar value, and its encoding
/// lies within the bytes.
pub proof fn lemma_first_scalar_is_scalar(bytes: Seq<u8>)
    requires
        valid_first_scalar(bytes),
    ensures
        is_scalar(decode_first_scalar(bytes)),
        1 <= length_of_first_scalar(bytes) <= 4,
        length_of_first_scalar(bytes) <= bytes.len(),
{
    let b0 = bytes[0];
    if is_leading_byte_width_1(b0) {
        lemma_width_1_scalar(b0);
    } else if is_leading_byte_width_2(b0) {
        lemma_width_2_scalar(b0, bytes[1]);
    } else if is_leading_byte_width_3(b0) {
        lemma_width_3_scalar(b0, bytes[1], bytes[2]);
    }
}

/// Decoding goes through concatenation of two encodings.
pub proof fn lemma_decode_concat(a: Seq<u8>, b: Seq<u8>)
    requires
        valid_utf8(a),
        valid_utf8(b),
    ensures
        valid_utf8(a + b),
        decode_utf8(a + b) == decode_utf8(a) + decode_utf8(b),
    decreases a.len(),
{
    valid_utf8_concat(a, b);
    if a.len() == 0 {
        assert(a + b =~= b);
        assert(decode_utf8(a) + decode_utf8(b) =~= decode_utf8(b));
    } else {
        lemma_first_scalar_is_scalar(a);
        let tail = pop_first_scalar(a);
        lemma_decode_concat(tail, b);
        assert(pop_first_scalar(a + b) =~= tail + b);
        assert(decode_first_scalar(a + b) == decode_first_scalar(a));
        assert(decode_utf8(a + b) =~= decode_utf8(a) + decode_utf8(b));
    }
}

/// One decoding step: where the first `pos` bytes are an encoding and a
/// well-formed scalar follows, the prefix that includes it is an encoding
/// too, of the same characters and that scalar after them.
pub proof fn lemma_decode_step(bytes: Seq<u8>, pos: int)
    requires
        partial_valid_utf8(bytes, pos),
        valid_first_scalar(rest(bytes, pos)),
    ensures
        ({
            let width = length_of_first_scalar(rest(bytes, pos));
            let scalar = decode_first_scalar(rest(bytes, pos));
            &&& 1 <= width <= 4
            &&& pos + width <= bytes.len()
            &&& is_scalar(scalar)
            &&& partial_valid_utf8(bytes, pos + width)
            &&& decoded_prefix(bytes, pos + width) == decoded_prefix(bytes, pos).push(
                scalar as char,
            )
        }),
{
    let tail = rest(bytes, pos);
    let width = length_of_first_scalar(tail);
    lemma_first_scalar_is_scalar(tail);
    let one = tail.subrange(0, width);
    assert(valid_first_scalar(one));
    assert(pop_first_scalar(one) =~= Seq::<u8>::empty());
    assert(valid_utf8(one)) by {
        reveal_with_fuel(valid_utf8, 2);
    }
    assert(decode_utf8(one) =~= seq![decode_first_scalar(tail) as char]) by {
        reveal_with_fuel(decode_utf8, 2);
        assert(decode_first_scalar(one) == decode_first_scalar(tail));
    }
    lemma_decode_concat(bytes.subrange(0, pos), one);
    assert(bytes.subrange(0, pos) + one =~= bytes.subrange(0, pos + width));
}

/// Bytes whose first `pos` bytes are an encoding, but with no well-formed
/// scalar after them, encode no text.
pub proof fn lemma_decode_stuck(bytes: Seq<u8>, pos: int)
    requires
        partial_valid_utf8(bytes, pos),
        pos < bytes.len(),
        !valid_first_scalar(rest(bytes, pos)),
    ensures
        !valid_utf8(bytes),
{
    partial_valid_partial_invalid_utf8(bytes, pos);
}

/// An encoding is never shorter than the text it encodes.
pub proof fn lemma_decoded_len(bytes: Seq<u8>)
    requires
        valid_utf8(bytes),
    ensures
        decode_utf8(bytes).len() <= bytes.len(),
    decreases bytes.len(),
{
    if bytes.len() > 0 {
        lemma_first_scalar_is_scalar(bytes);
        lemma_decoded_len(pop_first_scalar(bytes));
    }
}

/// Whether `b` has the form of a continuation byte.
pub fn is_continuation(b: u8) -> (r: bool)
    ensures
        r == is_continuation_byte(b),
{
    0x80 <= b && b <= 0xbf
}

/// Decodes the scalar value whose encoding starts at `pos`, and tells how
/// many bytes it takes. `None` where no well-formed encoding of a scalar
/// value starts there, as at the end of the bytes.
pub fn next_scalar(bytes: &[u8], pos: usize) -> (r: Option<(u32, usize)>)
    requires
        pos <= bytes@.len(),
    ensures
        r is Some <==> valid_first_scalar(rest(bytes@, pos as int)),
        r matches Some((scalar, width)) ==> {
            &&& scalar == decode_first_scalar(rest(bytes@, pos as int))
            &&& width == length_of_first_scalar(rest(bytes@, pos as int))
            &&& is_scalar(scalar)
            &&& 1 <= width <= 4
            &&& pos + width <= bytes@.len()
        },
{
    let n = bytes.len();
    let ghost tail = rest(bytes@, pos as int);
    if pos >= n {
        return None;
    }
    let left: usize = n - pos;
    let b0 = bytes[pos];
    assert(tail[0] == b0);
    if b0 <= 0x7f {
        let scalar: u32 = (b0 & 0x7f) as u32;
        proof {
            lemma_first_scalar_is_scalar(tail);
        }
        Some((scalar, 1))
    } else if b0 < 0xc0 {
        None
    } else if b0 <= 0xdf {
        if left < 2 {
            return None;
        }
        let b1 = bytes[pos + 1];
        assert(tail[1] == b1);
        if !is_continuation(b1) {
            return None;
        }
        let scalar: u32 = (((b0 & 0x1f) as u32) << 6) | ((b1 & 0x3f) as u32);
        if scalar < 0x80 {
            return None;
        }
        proof {
            lemma_width_2_scalar(b0, b1);
            lemma_first_scalar_is_scalar(tail);
        }
        Some((scalar, 2))
    } else if b0 <= 0xef {
        if left < 3 {
            return None;
        }
        let b1 = bytes[pos + 1];
        let b2 = bytes[pos + 2];
        assert(tail[1] == b1 && tail[2] == b2);
        if !is_continuation(b1) || !is_continuation(b2) {
            return None;
        }
        let scalar: u32 = (((b0 & 0x0f) as u32) << 12) | (((b1 & 0x3f) as u32) << 6) | ((b2
            & 0x3f) as u32);
        if scalar < 0x800 || (0xd800 <= scalar && scalar <= 0xdfff) {
            return None;
        }
        proof {
            lemma_first_scalar_is_scalar(tail);
        }
        Some((scalar, 3))
    } else if b0 <= 0xf7 {
        if left < 4 {
            return None;
        }
        let b1 = bytes[pos + 1];
        let b2 = bytes[pos + 2];
        let b3 = bytes[pos + 3];
        assert(tail[1] == b1 && tail[2] == b2 && tail[3] == b3);
        if !is_continuation(b1) || !is_continuation(b2) || !is_continuation(b3) {
            return None;
        }
        let scalar: u32 = (((b0 & 0x07) as u32) << 18) | (((b1 & 0x3f) as u32) << 12) | (((b2
            & 0x3f) as u32) << 6) | ((b3 & 0x3f) as u32);
        if scalar < 0x10000 || scalar > 0x10ffff {
            return None;
        }
        proof {
            lemma_first_scalar_is_scalar(tail);
        }
        Some((scalar, 4))
    } else {
        None
    }
}

} // verus!
