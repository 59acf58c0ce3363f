//! What holds of every separated number.

use crate::lemmas::{
    lemma_digits_of_number, lemma_digits_survive, lemma_first_index_of, lemma_grouped_characters,
    lemma_grouped_ends, lemma_grouped_is_joined, lemma_groups_shape,
    lemma_token_at_neither_end,
};
use crate::model::{
    all_digits, digits_of, fractional_part, grouped, groups, has_no_digit, integer_part,
    is_digit, joined, occurs_in, radix_before, separated, unseparated,
};
use crate::scheme::{Locale, Scheme};
use vstd::prelude::*;

verus! {

/// The tokens of every preset are one character each, neither of them a
/// digit, and the two differ.
pub proof fn lemma_preset_tokens(lang: Locale<Scheme>)
    requires
        !(lang is Custom),
    ensures
        lang@.separator.len() == 1,
        lang@.radix.len() == 1,
        has_no_digit(lang@.separator),
        has_no_digit(lang@.radix),
        lang@.separator[0] != lang@.radix[0],
{
}

/// A number without sign or fraction keeps its digits: separated with a
/// separator that holds no digit, it reads as its own groups of three with
/// the separator between them and nothing else, and its digits are those of
/// the number, as many and in the same order.
pub proof fn law_integer_keeps_its_digits(
    number: Seq<char>,
    separator: Seq<char>,
    radix: Seq<char>,
)
    requires
        all_digits(number),
        has_no_digit(separator),
    ensures
        separated(number, separator, radix) == joined(groups(number), separator),
        groups(number).flatten() == number,
        digits_of(separated(number, separator, radix)) == number,
{
    lemma_first_index_of(number, '.');
    lemma_first_index_of(number, ',');
    assert(!number.contains('.')) by {
        if number.contains('.') {
            let i = choose|i: int| 0 <= i < number.len() && number[i] == '.';
            assert(is_digit(number[i]));
        }
    }
    assert(!number.contains(',')) by {
        if number.contains(',') {
            let i = choose|i: int| 0 <= i < number.len() && number[i] == ',';
            assert(is_digit(number[i]));
        }
    }
    assert(integer_part(number) =~= number);
    if separator.len() > 0 && number.len() > 0 {
        assert(is_digit(number[0]));
        assert(!is_digit(separator[0]));
    }
    lemma_grouped_is_joined(number, separator);
    lemma_groups_shape(number);
    assert(separated(number, separator, radix) =~= grouped(number, separator));
    assert(has_no_digit(Seq::<char>::empty()));
    lemma_digits_survive(number, separator, Seq::empty());
    assert(separated(number, separator, Seq::empty()) =~= grouped(number, separator));
    lemma_digits_of_number(number);
}

/// Grouping is in threes from the right: the integer part is cut into runs
/// of exactly three characters, but for the first run, which holds one, two
/// or three; the separator stands between the runs and nowhere else; and
/// the fractional part follows as it stands. This holds unless an integer
/// part whose length is no multiple of three begins with the first
/// character of the separator.
pub proof fn law_grouping_in_threes(number: Seq<char>, separator: Seq<char>, radix: Seq<char>)
    requires
        separator.len() > 0 && integer_part(number).len() % 3 != 0 ==> integer_part(number)[0]
            != separator[0],
    ensures
        separated(number, separator, radix) == joined(groups(integer_part(number)), separator)
            + radix_before(fractional_part(number), radix) + fractional_part(number),
        groups(integer_part(number)).flatten() == integer_part(number),
        forall|i: int|
            0 < i < groups(integer_part(number)).len() ==> (#[trigger] groups(
                integer_part(number),
            )[i]).len() == 3,
        integer_part(number).len() > 0 ==> 1 <= groups(integer_part(number))[0].len() <= 3,
{
    lemma_grouped_is_joined(integer_part(number), separator);
    lemma_groups_shape(integer_part(number));
}

/// The result neither begins nor ends with the separator, provided that the
/// separator is not empty and that, of the number as it reads without
/// separators, the first character is not the first of the separator and
/// the last character is not its last.
pub proof fn law_no_separator_at_either_end(
    number: Seq<char>,
    separator: Seq<char>,
    radix: Seq<char>,
)
    requires
        separator.len() > 0,
        unseparated(number, radix).len() > 0 ==> unseparated(number, radix)[0] != separator[0],
        unseparated(number, radix).len() > 0 ==> unseparated(number, radix).last()
            != separator.last(),
    ensures
        !separator.is_prefix_of(separated(number, separator, radix)),
        !separator.is_suffix_of(separated(number, separator, radix)),
{
    let whole = integer_part(number);
    let middle = radix_before(fractional_part(number), radix);
    let fraction = fractional_part(number);
    if whole.len() > 0 {
        assert((whole + middle + fraction)[0] == whole[0]);
    }
    lemma_grouped_ends(whole, separator);
    lemma_token_at_neither_end(grouped(whole, separator), whole, middle, fraction, separator);
}

/// A fractional part brings the radix with it: where the number has one,
/// the radix stands in the result just before it.
pub proof fn law_fraction_brings_radix(number: Seq<char>, separator: Seq<char>, radix: Seq<char>)
    requires
        fractional_part(number).len() > 0,
    ensures
        separated(number, separator, radix) == grouped(integer_part(number), separator) + radix
            + fractional_part(number),
        occurs_in(radix, separated(number, separator, radix)),
{
    let body = grouped(integer_part(number), separator);
    let out = separated(number, separator, radix);
    assert(out.subrange(body.len() as int, (body.len() + radix.len()) as int) =~= radix);
}

/// The radix occurs in the result if and only if the number has a
/// fractional part, provided that the radix is not empty and that its first
/// character occurs neither in the integer part nor in the separator.
pub proof fn law_radix_shows_fraction(number: Seq<char>, separator: Seq<char>, radix: Seq<char>)
    requires
        radix.len() > 0,
        !integer_part(number).contains(radix[0]),
        !separator.contains(radix[0]),
    ensures
        occurs_in(radix, separated(number, separator, radix)) <==> fractional_part(number).len()
            > 0,
{
    let body = grouped(integer_part(number), separator);
    let out = separated(number, separator, radix);
    if fractional_part(number).len() > 0 {
        law_fraction_brings_radix(number, separator, radix);
    } else {
        assert(out =~= body);
        if occurs_in(radix, out) {
            let i = choose|i: int|
                0 <= i && i + radix.len() <= out.len() && #[trigger] out.subrange(
                    i,
                    i + radix.len(),
                ) == radix;
            assert(out.subrange(i, i + radix.len())[0] == radix[0]);
            assert(body[i] == radix[0]);
            lemma_grouped_characters(integer_part(number), separator, radix[0]);
        }
    }
}

/// The tokens do not touch the digits: with whichever tokens a number is
/// separated, as long as none of them holds a digit, the digits of the
/// result are those of the number, as many and in the same order.
pub proof fn law_tokens_leave_digits_alone(
    number: Seq<char>,
    separator: Seq<char>,
    radix: Seq<char>,
    other_separator: Seq<char>,
    other_radix: Seq<char>,
)
    requires
        has_no_digit(separator),
        has_no_digit(radix),
        has_no_digit(other_separator),
        has_no_digit(other_radix),
    ensures
        digits_of(separated(number, separator, radix)) == digits_of(
            separated(number, other_separator, other_radix),
        ),
        digits_of(separated(number, separator, radix)) == digits_of(number),
{
    lemma_digits_survive(number, separator, radix);
    lemma_digits_survive(number, other_separator, other_radix);
}

} // verus!
