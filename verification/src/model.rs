//! What a separated number is, stated over sequences of characters.
//!
//! A number arrives as its decimal text. The text is split at its radix
//! mark into an integer part and a fractional part; the integer part gets a
//! separator token after every run of three characters counted from its
//! right end; one token is then taken off each end; and the radix token
//! joins the result to the fractional part.

use vstd::prelude::*;

verus! {

/// Index of the first occurrence of `mark` in `text`, or `text.len()` when
/// there is none.
pub open spec fn first_index_of(text: Seq<char>, mark: char) -> int
    decreases text.len(),
{
    if text.len() == 0 || text[0] == mark {
        0
    } else {
        1 + first_index_of(text.drop_first(), mark)
    }
}

/// Index at which the decimal text splits: that of its first `.`; without
/// any `.`, that of its first `,`; without either, its length.
pub open spec fn radix_position(text: Seq<char>) -> int {
    if text.contains('.') {
        first_index_of(text, '.')
    } else {
        first_index_of(text, ',')
    }
}

/// Whether the decimal text holds a radix mark.
pub open spec fn has_radix_mark(text: Seq<char>) -> bool {
    text.contains('.') || text.contains(',')
}

/// The characters before the radix mark; the whole text when it has none.
pub open spec fn integer_part(text: Seq<char>) -> Seq<char> {
    text.take(radix_position(text))
}

/// The characters after the radix mark; empty when the text has none.
pub open spec fn fractional_part(text: Seq<char>) -> Seq<char> {
    if has_radix_mark(text) {
        text.skip(radix_position(text) + 1)
    } else {
        Seq::empty()
    }
}

/// `digits` with `separator` put in at every third position counted from
/// the right end: at the right end itself, three characters before it, six
/// before it, and so on for as long as the position is not left of the
/// text. A text whose length is a multiple of three therefore starts with a
/// separator as well.
pub open spec fn marked(digits: Seq<char>, separator: Seq<char>) -> Seq<char>
    decreases digits.len(),
{
    if digits.len() < 3 {
        digits + separator
    } else {
        marked(digits.take(digits.len() - 3), separator) + digits.skip(digits.len() - 3)
            + separator
    }
}

/// The marking done one separator at a time, for a separator of one
/// character: the separator goes in at `distance` characters before the end
/// of the text, and then again four characters further from the end of the
/// text as it has grown by then, for as long as the distance does not
/// exceed the length. Started at distance zero, this is [`marked`].
pub open spec fn marked_stepwise(text: Seq<char>, separator: char, distance: nat) -> Seq<char>
    decreases text.len() + 3 - distance,
{
    if distance <= text.len() {
        marked_stepwise(
            text.take(text.len() - distance).push(separator) + text.skip(text.len() - distance),
            separator,
            distance + 4,
        )
    } else {
        text
    }
}

/// `text` without `token` at its start, if it starts with it.
pub open spec fn without_leading(text: Seq<char>, token: Seq<char>) -> Seq<char> {
    if token.is_prefix_of(text) {
        text.skip(token.len() as int)
    } else {
        text
    }
}

/// `text` without `token` at its end, if it ends with it.
pub open spec fn without_trailing(text: Seq<char>, token: Seq<char>) -> Seq<char> {
    if token.is_suffix_of(text) {
        text.take(text.len() - token.len())
    } else {
        text
    }
}

/// The integer part with its separators: marked at every third position,
/// then relieved of one separator at its start and one at its end.
pub open spec fn grouped(digits: Seq<char>, separator: Seq<char>) -> Seq<char> {
    without_trailing(without_leading(marked(digits, separator), separator), separator)
}

/// What stands before the fractional part: the radix, or nothing where the
/// fractional part is empty.
pub open spec fn radix_before(fraction: Seq<char>, radix: Seq<char>) -> Seq<char> {
    if fraction.len() > 0 {
        radix
    } else {
        Seq::empty()
    }
}

/// The separated form of the decimal text `number`: its grouped integer
/// part, then, only if there is a fractional part, the radix token and the
/// fractional part as it stands.
pub open spec fn separated(number: Seq<char>, separator: Seq<char>, radix: Seq<char>) -> Seq<
    char,
> {
    grouped(integer_part(number), separator) + radix_before(fractional_part(number), radix)
        + fractional_part(number)
}

/// The decimal text with the radix token in place of its radix mark and no
/// separator: what [`separated`] puts the separators into.
pub open spec fn unseparated(number: Seq<char>, radix: Seq<char>) -> Seq<char> {
    integer_part(number) + radix_before(fractional_part(number), radix) + fractional_part(number)
}

/// The runs into which grouping cuts `digits`: threes counted from the
/// right, with a shorter first run when the length is no multiple of three.
pub open spec fn groups(digits: Seq<char>) -> Seq<Seq<char>>
    decreases digits.len(),
{
    if digits.len() == 0 {
        Seq::empty()
    } else if digits.len() <= 3 {
        seq![digits]
    } else {
        groups(digits.take(digits.len() - 3)).push(digits.skip(digits.len() - 3))
    }
}

/// The `parts` in their order with `token` between neighbours.
pub open spec fn joined(parts: Seq<Seq<char>>, token: Seq<char>) -> Seq<char>
    decreases parts.len(),
{
    if parts.len() == 0 {
        Seq::empty()
    } else if parts.len() == 1 {
        parts[0]
    } else {
        joined(parts.drop_last(), token) + token + parts.last()
    }
}

/// Whether `c` is one of the ten decimal digits.
pub open spec fn is_digit(c: char) -> bool {
    '0' <= c <= '9'
}

/// The test [`is_digit`] as a value.
pub open spec fn digit_test() -> spec_fn(char) -> bool {
    |c: char| is_digit(c)
}

/// The decimal digits of `text`, in their order.
pub open spec fn digits_of(text: Seq<char>) -> Seq<char> {
    text.filter(digit_test())
}

/// Whether no character of `text` is a decimal digit.
pub open spec fn has_no_digit(text: Seq<char>) -> bool {
    forall|i: int| 0 <= i < text.len() ==> !is_digit(#[trigger] text[i])
}

/// Whether every character of `text` is a decimal digit.
pub open spec fn all_digits(text: Seq<char>) -> bool {
    forall|i: int| 0 <= i < text.len() ==> is_digit(#[trigger] text[i])
}

/// Whether `token` occurs in `text` as a run of neighbouring characters.
pub open spec fn occurs_in(token: Seq<char>, text: Seq<char>) -> bool {
    exists|i: int|
        0 <= i && i + token.len() <= text.len() && #[trigger] text.subrange(
            i,
            i + token.len(),
        ) == token
}

} // verus!
