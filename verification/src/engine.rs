//! Separating a number: the split at the radix mark, the grouping of the
//! integer part, and the assembly of the result.

use crate::lemmas::{lemma_first_index_of, lemma_marked_step};
use crate::model::{
    first_index_of, fractional_part, grouped, has_radix_mark, integer_part, marked,
    radix_position, separated, without_leading, without_trailing,
};
use crate::offsets::{
    byte_len, byte_offset, char_width, lemma_byte_offset_ends, lemma_byte_offset_increases,
    lemma_byte_offset_step, lemma_same_bytes_same_text,
};
use crate::scheme::{get_separator, Locale, Scheme};
use crate::slicing::{lemma_kept_between_starts, slice};
use std::fmt::Display;
use vstd::prelude::*;
use vstd::string::*;

verus! {

/// Where a decimal text splits, in bytes.
struct Split {
    /// Byte offset of the radix mark; the byte length of the text when it
    /// has none.
    cut: usize,
    /// Whether the text has a radix mark.
    has_mark: bool,
    /// Byte length of the text.
    end: usize,
}

/// Finds where the decimal text splits: at its first `.`, or else at its
/// first `,`.
fn locate_radix(text: &str) -> (split: Split)
    ensures
        0 <= radix_position(text@) <= text@.len(),
        split.cut == byte_offset(text@, radix_position(text@)),
        split.has_mark == has_radix_mark(text@),
        split.end == byte_len(text@),
{
    let end: usize = text.as_bytes().len();
    let mut offset: usize = 0;
    let mut dot: Option<usize> = None;
    let mut comma: Option<usize> = None;
    proof {
        lemma_first_index_of(text@, '.');
        lemma_first_index_of(text@, ',');
        lemma_byte_offset_ends(text@);
    }
    for c in it: text.chars()
        invariant
            it.seq() == text@,
            end == byte_len(text@),
            offset == byte_offset(text@, it.index() as int),
            0 <= first_index_of(text@, '.') <= text@.len(),
            0 <= first_index_of(text@, ',') <= text@.len(),
            dot is None ==> it.index() <= first_index_of(text@, '.'),
            dot is Some ==> first_index_of(text@, '.') < it.index() && dot->0 == byte_offset(
                text@,
                first_index_of(text@, '.'),
            ),
            comma is None ==> it.index() <= first_index_of(text@, ','),
            comma is Some ==> first_index_of(text@, ',') < it.index() && comma->0
                == byte_offset(text@, first_index_of(text@, ',')),
    {
        proof {
            let k = it.index() as int;
            lemma_first_index_of(text@, '.');
            lemma_first_index_of(text@, ',');
            lemma_byte_offset_step(text@, k);
            lemma_byte_offset_increases(text@, k + 1, text@.len() as int);
            lemma_byte_offset_ends(text@);
        }
        if c == '.' && dot.is_none() {
            dot = Some(offset);
        }
        if c == ',' && comma.is_none() {
            comma = Some(offset);
        }
        offset = offset + char_width(c);
    }
    proof {
        lemma_first_index_of(text@, '.');
        lemma_first_index_of(text@, ',');
        lemma_byte_offset_ends(text@);
    }
    match dot {
        Some(cut) => Split { cut, has_mark: true, end },
        None => match comma {
            Some(cut) => Split { cut, has_mark: true, end },
            None => Split { cut: end, has_mark: false, end },
        },
    }
}

/// Whether two texts hold the same characters.
fn same_text(a: &str, b: &str) -> (same: bool)
    ensures
        same == (a@ == b@),
{
    let left = a.as_bytes();
    let right = b.as_bytes();
    if left.len() != right.len() {
        return false;
    }
    let mut i: usize = 0;
    while i < left.len()
        invariant
            left.len() == right.len(),
            i <= left.len(),
            left@ == a.spec_bytes(),
            right@ == b.spec_bytes(),
            forall|j: int| 0 <= j < i ==> left@[j] == right@[j],
        decreases left.len() - i,
    {
        if left[i] != right[i] {
            return false;
        }
        i = i + 1;
    }
    proof {
        assert(left@ =~= right@);
        lemma_same_bytes_same_text(a@, b@);
    }
    true
}

/// Takes `token` off the start of `text`, if `text` starts with it.
fn strip_leading(text: String, token: &str) -> (rest: String)
    ensures
        rest@ == without_leading(text@, token@),
{
    let width: usize = token.unicode_len();
    let length: usize = text.as_str().unicode_len();
    if width <= length && same_text(text.as_str().substring_char(0, width), token) {
        String::from_str(text.as_str().substring_char(width, length))
    } else {
        text
    }
}

/// Takes `token` off the end of `text`, if `text` ends with it.
fn strip_trailing(text: String, token: &str) -> (rest: String)
    ensures
        rest@ == without_trailing(text@, token@),
{
    let width: usize = token.unicode_len();
    let length: usize = text.as_str().unicode_len();
    if width <= length && same_text(text.as_str().substring_char(length - width, length), token) {
        String::from_str(text.as_str().substring_char(0, length - width))
    } else {
        text
    }
}

/// Puts the separator into the integer part of a number: after every run
/// of three characters counted from the right, and then not at the very
/// start nor at the very end.
fn group_thousands(digits: &String, separator: &str) -> (out: String)
    ensures
        out@ == grouped(digits@, separator@),
{
    let count: usize = digits.as_str().unicode_len();
    let end: usize = digits.as_str().as_bytes().len();
    let mut out = String::new();
    let mut start: usize = 0;
    let mut offset: usize = 0;
    let mut k: usize = 0;
    let ghost mut begun: bool = false;
    let ghost mut done: int = 0;
    proof {
        lemma_byte_offset_ends(digits@);
    }
    for c in it: digits.as_str().chars()
        invariant
            it.seq() == digits@,
            count == digits@.len(),
            end == byte_len(digits@),
            k == it.index(),
            offset == byte_offset(digits@, k as int),
            start == byte_offset(digits@, done),
            0 <= done <= k,
            !begun ==> done == 0 && k <= count % 3 && out@ == Seq::<char>::empty(),
            begun ==> done < k && k - done <= 3 && (count - done) % 3 == 0 && out@ == marked(
                digits@.take(done),
                separator@,
            ),
    {
        proof {
            lemma_byte_offset_step(digits@, k as int);
            lemma_byte_offset_increases(digits@, k + 1, count as int);
            lemma_byte_offset_ends(digits@);
        }
        if (count - k) % 3 == 0 {
            let piece = slice(digits, start, offset);
            proof {
                lemma_kept_between_starts(digits@, done, k as int);
                if begun {
                    lemma_marked_step(digits@, separator@, k as int);
                } else {
                    assert(digits@.take(k as int) + separator@ =~= Seq::<char>::empty()
                        + digits@.subrange(0, k as int) + separator@);
                }
            }
            out.append(piece.as_str());
            out.append(separator);
            start = offset;
            proof {
                begun = true;
                done = k as int;
            }
        }
        offset = offset + char_width(c);
        k = k + 1;
    }
    let piece = slice(digits, start, offset);
    proof {
        lemma_kept_between_starts(digits@, done, count as int);
        assert(digits@.take(count as int) =~= digits@);
        if begun {
            lemma_marked_step(digits@, separator@, count as int);
        } else {
            assert(digits@ + separator@ =~= Seq::<char>::empty() + digits@.subrange(
                0,
                count as int,
            ) + separator@);
        }
    }
    out.append(piece.as_str());
    out.append(separator);
    assert(out@ == marked(digits@, separator@));
    strip_trailing(strip_leading(out, separator), separator)
}

/// Splits the decimal text, groups its integer part and puts the result
/// together.
fn separate_text(text: &String, separator: &str, radix: &str) -> (out: String)
    ensures
        out@ == separated(text@, separator@, radix@),
{
    let split = locate_radix(text.as_str());
    proof {
        let at = radix_position(text@);
        lemma_byte_offset_ends(text@);
        lemma_kept_between_starts(text@, 0, at);
        if split.has_mark {
            lemma_first_index_of(text@, '.');
            lemma_first_index_of(text@, ',');
            lemma_byte_offset_step(text@, at);
            lemma_byte_offset_increases(text@, at + 1, text@.len() as int);
            lemma_kept_between_starts(text@, at + 1, text@.len() as int);
        }
    }
    let whole = slice(text, 0, split.cut);
    let fraction = if split.has_mark {
        slice(text, split.cut + 1, split.end)
    } else {
        String::new()
    };
    assert(whole@ == integer_part(text@));
    assert(fraction@ == fractional_part(text@));
    let mut out = group_thousands(&whole, separator);
    if !fraction.as_str().is_empty() {
        out.append(radix);
    }
    out.append(fraction.as_str());
    assert(out@ == separated(text@, separator@, radix@));
    out
}

/// Separates a number given as its decimal text: the text is split at its
/// first `.`, or else at its first `,`; the part before the split is
/// grouped in threes with `separator`; and `radix` stands before the part
/// after it, unless that part is empty.
pub fn group_decimal(number: &str, separator: &str, radix: &str) -> (out: String)
    ensures
        out@ == separated(number@, separator@, radix@),
{
    let text = number.to_owned();
    separate_text(&text, separator, radix)
}

/// Separates `n` in the style `lang`: the number is rendered as text by its
/// `Display`, and that text is separated with the tokens of the style as
/// [`group_decimal`] does.
pub fn separate<T: Display>(n: T, lang: Locale<Scheme>) -> (out: String)
    ensures
        exists|text: String| #[trigger]
            to_string_from_display_ensures::<T>(&n, text) && out@ == separated(
                text@,
                lang@.separator,
                lang@.radix,
            ),
{
    let text = n.to_string();
    let (separator, radix) = get_separator(&lang);
    separate_text(&text, separator, radix)
}

} // verus!
