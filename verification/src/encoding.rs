//! Facts about the UTF-8 encoding of text: it is taken piece by piece, an
//! ASCII character is its own single byte, and every byte of any other
//! character is 0x80 or more, so ASCII bytes in an encoding stand for ASCII
//! characters.
use vstd::prelude::*;
use vstd::utf8::{
    encode_scalar, encode_utf8, has_width_1_encoding, has_width_2_encoding, has_width_3_encoding,
    is_scalar, last_continuation_byte, leading_byte_width_1, leading_byte_width_2,
    leading_byte_width_3, leading_byte_width_4, second_last_continuation_byte,
    third_last_continuation_byte,
};

verus! {

/// The encoding of joined text is the joined encodings.
pub proof fn lemma_encode_concat(a: Seq<char>, b: Seq<char>)
    ensures
        encode_utf8(a + b) == encode_utf8(a) + encode_utf8(b),
    decreases a.len(),
{
    if a.len() == 0 {
        assert(a + b =~= b);
    } else {
        lemma_encode_concat(a.drop_first(), b);
        assert((a + b).drop_first() =~= a.drop_first() + b);
        assert((a + b)[0] == a[0]);
    }
}

/// An ASCII character is encoded as the one byte of its code.
pub proof fn lemma_encode_ascii_scalar(v: u32)
    requires
        v < 0x80,
    ensures
        encode_scalar(v) == seq![v as u8],
{
    assert(leading_byte_width_1(v) == v as u8) by {
        assert((v & 0x7F) as u8 == v as u8) by (bit_vector)
            requires
                v < 0x80,
        ;
    }
}

/// Every byte of the encoding of a character outside ASCII is 0x80 or more,
/// and there are at least two of them.
pub proof fn lemma_encode_wide_scalar(v: u32)
    requires
        is_scalar(v),
        !has_width_1_encoding(v),
    ensures
        encode_scalar(v).len() >= 2,
        forall|j: int| 0 <= j < encode_scalar(v).len() ==> encode_scalar(v)[j] >= 0x80,
{
    assert(last_continuation_byte(v) >= 0x80) by {
        assert((0x80u8 | ((v & 0x3Fu32) as u8)) >= 0x80u8) by (bit_vector);
    }
    assert(second_last_continuation_byte(v) >= 0x80) by {
        assert((0x80u8 | (((v >> 6u32) & 0x3Fu32) as u8)) >= 0x80u8) by (bit_vector);
    }
    assert(third_last_continuation_byte(v) >= 0x80) by {
        assert((0x80u8 | (((v >> 12u32) & 0x3Fu32) as u8)) >= 0x80u8) by (bit_vector);
    }
    assert(leading_byte_width_2(v) >= 0x80) by {
        assert((0xC0u8 | (((v >> 6u32) & 0x1Fu32) as u8)) >= 0x80u8) by (bit_vector);
    }
    assert(leading_byte_width_3(v) >= 0x80) by {
        assert((0xE0u8 | (((v >> 12u32) & 0x0Fu32) as u8)) >= 0x80u8) by (bit_vector);
    }
    assert(leading_byte_width_4(v) >= 0x80) by {
        assert((0xF0u8 | (((v >> 18u32) & 0x7u32) as u8)) >= 0x80u8) by (bit_vector);
    }
}

/// The first byte of an encoding that is an ASCII byte is the code of the
/// first character, which is encoded in that one byte.
pub proof fn lemma_encode_first_ascii(s: Seq<char>)
    requires
        encode_utf8(s).len() > 0,
        encode_utf8(s)[0] < 0x80,
    ensures
        s.len() > 0,
        s[0] as u32 == encode_utf8(s)[0],
        (s[0] as u32) < 0x80,
        encode_utf8(s).drop_first() == encode_utf8(s.drop_first()),
{
    let v = s[0] as u32;
    vstd::utf8::char_is_scalar(s[0]);
    if has_width_1_encoding(v) {
        lemma_encode_ascii_scalar(v);
    } else {
        lemma_encode_wide_scalar(v);
        assert(encode_utf8(s)[0] == encode_scalar(v)[0]);
    }
}

/// The length of the encoding of a prefix grows with the prefix.
pub proof fn lemma_encode_prefix_len(t: Seq<char>, k: int, m: int)
    requires
        0 <= k <= m <= t.len(),
    ensures
        encode_utf8(t.take(k)).len() <= encode_utf8(t.take(m)).len(),
{
    lemma_encode_concat(t.take(k), t.subrange(k, m));
    assert(t.take(k) + t.subrange(k, m) =~= t.take(m));
}

} // verus!
