//! Facts about UTF-8 that the checkpoint format rests on: text is encoded piece by
//! piece, and a byte below 0x80 in encoded text is always a character of its own.

use vstd::prelude::*;
use vstd::utf8::{
    encode_scalar, encode_utf8, has_width_1_encoding, has_width_2_encoding,
    has_width_3_encoding,
};

verus! {

/// The byte that ends a line.
pub const NEWLINE: u8 = 0x0A;

/// The byte between the two fields of a line.
pub const TAB: u8 = 0x09;

/// Encoding distributes over concatenation.
pub proof fn lemma_encode_concat(a: Seq<char>, b: Seq<char>)
    ensures
        encode_utf8(a + b) == encode_utf8(a) + encode_utf8(b),
    decreases a.len(),
{
    if a.len() == 0 {
        assert(a + b =~= b);
        assert(encode_utf8(a) + encode_utf8(b) =~= encode_utf8(b));
    } else {
        lemma_encode_concat(a.drop_first(), b);
        assert((a + b).drop_first() =~= a.drop_first() + b);
        assert(encode_utf8(a + b) =~= encode_utf8(a) + encode_utf8(b));
    }
}

proof fn lemma_width_1_byte(scalar: u32)
    by (bit_vector)
    requires
        scalar <= 0x7F,
    ensures
        (scalar & 0x7F) as u8 == scalar,
{
}

proof fn lemma_high_bytes(x: u8)
    by (bit_vector)
    ensures
        0xC0u8 | x >= 0x80,
        0xE0u8 | x >= 0x80,
        0xF0u8 | x >= 0x80,
        0x80u8 | x >= 0x80,
{
}

/// An ASCII character is encoded as the one byte of its code.
pub proof fn lemma_encode_ascii(c: char)
    requires
        c as u32 <= 0x7F,
    ensures
        encode_utf8(seq![c]) == seq![c as u8],
{
    let s = seq![c];
    lemma_width_1_byte(c as u32);
    assert(s.drop_first() =~= Seq::<char>::empty());
    assert(encode_utf8(s.drop_first()) =~= Seq::<u8>::empty());
    assert(encode_scalar(c as u32) =~= seq![c as u8]);
    assert(encode_utf8(s) =~= seq![c as u8]);
}

/// Every byte of an encoded character is either the character's own ASCII code or
/// at least 0x80.
pub proof fn lemma_scalar_bytes(c: char, i: int)
    requires
        0 <= i < encode_scalar(c as u32).len(),
    ensures
        encode_scalar(c as u32)[i] >= 0x80 || encode_scalar(c as u32)[i] as u32 == c as u32,
{
    let scalar = c as u32;
    if has_width_1_encoding(scalar) {
        lemma_width_1_byte(scalar);
    } else if has_width_2_encoding(scalar) {
        lemma_high_bytes(((scalar >> 6) & 0x1F) as u8);
        lemma_high_bytes((scalar & 0x3F) as u8);
    } else if has_width_3_encoding(scalar) {
        lemma_high_bytes(((scalar >> 12) & 0x0F) as u8);
        lemma_high_bytes(((scalar >> 6) & 0x3F) as u8);
        lemma_high_bytes((scalar & 0x3F) as u8);
    } else {
        lemma_high_bytes(((scalar >> 18) & 0x7) as u8);
        lemma_high_bytes(((scalar >> 12) & 0x3F) as u8);
        lemma_high_bytes(((scalar >> 6) & 0x3F) as u8);
        lemma_high_bytes((scalar & 0x3F) as u8);
    }
}

/// A byte below 0x80 in encoded text is one of the text's characters.
pub proof fn lemma_ascii_byte_is_char(text: Seq<char>, i: int)
    requires
        0 <= i < encode_utf8(text).len(),
        encode_utf8(text)[i] < 0x80,
    ensures
        exists|j: int| 0 <= j < text.len() && #[trigger] text[j] == encode_utf8(text)[i] as char,
    decreases text.len(),
{
    assert(text.len() > 0);
    let head = encode_scalar(text[0] as u32);
    let tail = encode_utf8(text.drop_first());
    assert(encode_utf8(text) == head + tail);
    if i < head.len() {
        lemma_scalar_bytes(text[0], i);
        vstd::utf8::char_u32_cast(text[0], encode_utf8(text)[i] as u32);
        assert(text[0] == encode_utf8(text)[i] as char);
    } else {
        lemma_ascii_byte_is_char(text.drop_first(), i - head.len());
        let j = choose|j: int|
            0 <= j < text.drop_first().len() && #[trigger] text.drop_first()[j] == tail[i
                - head.len()] as char;
        assert(text[j + 1] == encode_utf8(text)[i] as char);
    }
}

/// Text without a line feed is encoded without the byte of a line feed.
pub proof fn lemma_no_newline_byte(text: Seq<char>)
    requires
        forall|j: int| 0 <= j < text.len() ==> text[j] != '\n',
    ensures
        forall|i: int| 0 <= i < encode_utf8(text).len() ==> encode_utf8(text)[i] != NEWLINE,
{
    assert forall|i: int| 0 <= i < encode_utf8(text).len() implies encode_utf8(text)[i]
        != NEWLINE by {
        if encode_utf8(text)[i] == NEWLINE {
            lemma_ascii_byte_is_char(text, i);
            let j = choose|j: int|
                0 <= j < text.len() && #[trigger] text[j] == encode_utf8(text)[i] as char;
            assert(NEWLINE as char == '\n');
            assert(text[j] == '\n');
        }
    }
}

} // verus!
