//! Byte offsets of characters in UTF-8 text.
//!
//! A string is viewed as its sequence of characters, while slicing by
//! `slicestring` addresses characters by the byte at which they start. This
//! module relates the two: it says where each character starts and proves
//! how those offsets grow along the text.

use vstd::prelude::*;
use vstd::utf8::*;

verus! {

/// Number of bytes that `c` occupies in UTF-8.
pub open spec fn utf8_width(c: char) -> nat {
    encode_scalar(c as u32).len()
}

/// Number of bytes that `text` occupies in UTF-8.
pub open spec fn byte_len(text: Seq<char>) -> nat {
    encode_utf8(text).len()
}

/// Byte offset at which the character with index `k` starts; for
/// `k == text.len()` this is the byte length of the whole text.
pub open spec fn byte_offset(text: Seq<char>, k: int) -> nat {
    byte_len(text.take(k))
}

/// A character occupies between one and four bytes, by the range of its
/// code point.
pub proof fn lemma_utf8_width(c: char)
    ensures
        (c as u32) < 0x80 ==> utf8_width(c) == 1,
        0x80 <= (c as u32) < 0x800 ==> utf8_width(c) == 2,
        0x800 <= (c as u32) < 0x1_0000 ==> utf8_width(c) == 3,
        0x1_0000 <= (c as u32) ==> utf8_width(c) == 4,
        1 <= utf8_width(c) <= 4,
{
    char_is_scalar(c);
}

/// Appending a character appends its encoding.
pub proof fn lemma_byte_len_push(text: Seq<char>, c: char)
    ensures
        encode_utf8(text.push(c)) == encode_utf8(text) + encode_scalar(c as u32),
        byte_len(text.push(c)) == byte_len(text) + utf8_width(c),
    decreases text.len(),
{
    let whole = text.push(c);
    if text.len() == 0 {
        assert(whole.drop_first() =~= Seq::<char>::empty());
        assert(encode_utf8(whole.drop_first()) =~= Seq::<u8>::empty());
        assert(encode_utf8(whole) =~= encode_scalar(c as u32));
        assert(encode_utf8(text) =~= Seq::<u8>::empty());
        assert(encode_utf8(text) + encode_scalar(c as u32) =~= encode_scalar(c as u32));
    } else {
        lemma_byte_len_push(text.drop_first(), c);
        assert(whole.drop_first() =~= text.drop_first().push(c));
        assert(whole[0] == text[0]);
        assert(encode_utf8(whole) =~= encode_utf8(text) + encode_scalar(c as u32));
    }
}

/// The offset of the next character is the offset of this one plus its width.
pub proof fn lemma_byte_offset_step(text: Seq<char>, k: int)
    requires
        0 <= k < text.len(),
    ensures
        byte_offset(text, k + 1) == byte_offset(text, k) + utf8_width(text[k]),
        byte_offset(text, k) < byte_offset(text, k + 1),
{
    assert(text.take(k + 1) =~= text.take(k).push(text[k]));
    lemma_byte_len_push(text.take(k), text[k]);
    lemma_utf8_width(text[k]);
}

/// Offsets grow strictly with the index, from zero up to the byte length.
pub proof fn lemma_byte_offset_increases(text: Seq<char>, i: int, j: int)
    requires
        0 <= i <= j <= text.len(),
    ensures
        byte_offset(text, i) <= byte_offset(text, j),
        i < j ==> byte_offset(text, i) < byte_offset(text, j),
        j - i <= byte_offset(text, j) - byte_offset(text, i),
    decreases j - i,
{
    if i < j {
        lemma_byte_offset_increases(text, i, j - 1);
        lemma_byte_offset_step(text, j - 1);
    }
}

/// The first character starts at byte zero and the text ends at its byte
/// length.
pub proof fn lemma_byte_offset_ends(text: Seq<char>)
    ensures
        byte_offset(text, 0) == 0,
        byte_offset(text, text.len() as int) == byte_len(text),
{
    assert(text.take(0) =~= Seq::<char>::empty());
    assert(text.take(text.len() as int) =~= text);
}

/// Texts with the same bytes are the same text.
pub proof fn lemma_same_bytes_same_text(a: Seq<char>, b: Seq<char>)
    requires
        encode_utf8(a) == encode_utf8(b),
    ensures
        a == b,
{
    encode_utf8_decode_utf8(a);
    encode_utf8_decode_utf8(b);
}

/// Computes the UTF-8 width of a character.
pub fn char_width(c: char) -> (w: usize)
    ensures
        w == utf8_width(c),
        1 <= w <= 4,
{
    proof {
        lemma_utf8_width(c);
    }
    let code: u32 = c as u32;
    if code < 0x80 {
        1
    } else if code < 0x800 {
        2
    } else if code < 0x1_0000 {
        3
    } else {
        4
    }
}

} // verus!
