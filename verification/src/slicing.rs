//! Cutting a piece out of a string with `slicestring`.

use crate::offsets::{byte_len, byte_offset, lemma_byte_offset_increases, lemma_byte_offset_step};
use slicestring::Slice;
use vstd::prelude::*;

verus! {

/// The characters of `text` that start at a byte offset of at least `from`
/// and below `to`, in their order.
pub open spec fn kept(text: Seq<char>, from: int, to: int) -> Seq<char>
    decreases text.len(),
{
    if text.len() == 0 {
        text
    } else if from <= byte_len(text.drop_last()) < to {
        kept(text.drop_last(), from, to).push(text.last())
    } else {
        kept(text.drop_last(), from, to)
    }
}

/// `slicestring::Slice::slice` for `String`. It walks over the characters
/// together with the byte offsets at which they start and copies those whose
/// offset is at least `from` and below `to`; it accepts every pair of bounds.
#[verifier::external_body]
pub(crate) fn slice(text: &String, from: usize, to: usize) -> (piece: String)
    ensures
        piece@ == kept(text@, from as int, to as int),
{
    text.slice(from, to)
}

/// When `from` lies after the start of the character before `a` but not
/// after the start of `a`, and `to` lies so about `b`, what is kept is the
/// run of characters from `a` up to `b`.
pub proof fn lemma_kept_is_subrange(text: Seq<char>, from: int, to: int, a: int, b: int)
    requires
        0 <= a <= b <= text.len(),
        a > 0 ==> byte_offset(text, a - 1) < from,
        a < text.len() ==> from <= byte_offset(text, a),
        b > 0 ==> byte_offset(text, b - 1) < to,
        b < text.len() ==> to <= byte_offset(text, b),
    ensures
        kept(text, from, to) == text.subrange(a, b),
    decreases text.len(),
{
    let n = text.len() as int;
    if n > 0 {
        let init = text.drop_last();
        let a1 = if a < n { a } else { n - 1 };
        let b1 = if b < n { b } else { n - 1 };
        assert(init =~= text.take(n - 1));
        assert forall|k: int| 0 <= k <= n - 1 implies byte_offset(init, k) == byte_offset(
            text,
            k,
        ) by {
            assert(init.take(k) =~= text.take(k));
        }
        if a == n && n >= 2 {
            lemma_byte_offset_step(text, n - 2);
        }
        if b == n && n >= 2 {
            lemma_byte_offset_step(text, n - 2);
        }
        lemma_kept_is_subrange(init, from, to, a1, b1);
        if a < n {
            lemma_byte_offset_increases(text, a, n - 1);
        }
        if b < n {
            lemma_byte_offset_increases(text, b, n - 1);
        }
        assert(kept(text, from, to) =~= text.subrange(a, b));
    } else {
        assert(kept(text, from, to) =~= text.subrange(a, b));
    }
}

/// Between the starts of two characters, slicing keeps exactly the
/// characters from the first up to the second.
pub proof fn lemma_kept_between_starts(text: Seq<char>, a: int, b: int)
    requires
        0 <= a <= b <= text.len(),
    ensures
        kept(text, byte_offset(text, a) as int, byte_offset(text, b) as int) == text.subrange(
            a,
            b,
        ),
{
    if a > 0 {
        lemma_byte_offset_step(text, a - 1);
    }
    if b > 0 {
        lemma_byte_offset_step(text, b - 1);
    }
    lemma_kept_is_subrange(
        text,
        byte_offset(text, a) as int,
        byte_offset(text, b) as int,
        a,
        b,
    );
}

} // verus!
