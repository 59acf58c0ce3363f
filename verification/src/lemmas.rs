//! Steps on the way to the laws: how the pieces of the model behave.

use crate::model::{
    all_digits, digit_test, digits_of, first_index_of, fractional_part, grouped, groups,
    has_no_digit, has_radix_mark, integer_part, is_digit, joined, marked, marked_stepwise,
    radix_before, radix_position, separated, without_leading, without_trailing,
};
use vstd::prelude::*;

verus! {

/// `first_index_of` finds the first occurrence: no character before the
/// index is the mark, and the character at the index is, unless the index
/// is the length of the text.
pub proof fn lemma_first_index_of(text: Seq<char>, mark: char)
    ensures
        0 <= first_index_of(text, mark) <= text.len(),
        forall|j: int| 0 <= j < first_index_of(text, mark) ==> text[j] != mark,
        first_index_of(text, mark) < text.len() ==> text[first_index_of(text, mark)] == mark,
        first_index_of(text, mark) < text.len() <==> text.contains(mark),
    decreases text.len(),
{
    if text.len() == 0 || text[0] == mark {
    } else {
        let rest = text.drop_first();
        lemma_first_index_of(rest, mark);
        let f = first_index_of(rest, mark);
        assert forall|j: int| 0 <= j < f + 1 implies text[j] != mark by {
            if j > 0 {
                assert(text[j] == rest[j - 1]);
            }
        }
        if f < rest.len() {
            assert(text[f + 1] == rest[f]);
        }
    }
}

/// A decimal text is its integer part, followed, if it has a radix mark, by
/// that mark and its fractional part.
pub proof fn lemma_parts_of_number(number: Seq<char>)
    ensures
        0 <= radix_position(number) <= number.len(),
        has_radix_mark(number) <==> radix_position(number) < number.len(),
        has_radix_mark(number) ==> number[radix_position(number)] == '.'
            || number[radix_position(number)] == ',',
        has_radix_mark(number) ==> number == integer_part(number).push(
            number[radix_position(number)],
        ) + fractional_part(number),
        !has_radix_mark(number) ==> number == integer_part(number),
        !has_radix_mark(number) ==> fractional_part(number).len() == 0,
        !integer_part(number).contains('.'),
        !number.contains('.') ==> !integer_part(number).contains(','),
{
    lemma_first_index_of(number, '.');
    lemma_first_index_of(number, ',');
    let at = radix_position(number);
    if has_radix_mark(number) {
        assert(number =~= integer_part(number).push(number[at]) + fractional_part(number));
    } else {
        assert(number =~= integer_part(number));
    }
}

/// A text of at least three characters is marked by marking all but its
/// last three characters and appending those three and a separator.
pub proof fn lemma_marked_step(digits: Seq<char>, separator: Seq<char>, k: int)
    requires
        3 <= k <= digits.len(),
    ensures
        marked(digits.take(k), separator) == marked(digits.take(k - 3), separator)
            + digits.subrange(k - 3, k) + separator,
{
    let head = digits.take(k);
    assert(head.take(head.len() - 3) =~= digits.take(k - 3));
    assert(head.skip(head.len() - 3) =~= digits.subrange(k - 3, k));
}

/// The runs of [`groups`], by position: there are as many as a third of the
/// length, rounded up; each is the stretch of three characters that ends a
/// multiple of three before the right end, but for the first, which starts
/// with the text and so may hold one, two or three characters. Together
/// they are the text.
pub proof fn lemma_groups_shape(digits: Seq<char>)
    ensures
        groups(digits).len() == (digits.len() + 2) / 3,
        digits.len() > 0 ==> groups(digits)[0] == digits.take(
            digits.len() - 3 * (groups(digits).len() - 1),
        ),
        forall|i: int|
            0 < i < groups(digits).len() ==> #[trigger] groups(digits)[i] == digits.subrange(
                digits.len() - 3 * (groups(digits).len() - i),
                digits.len() - 3 * (groups(digits).len() - 1 - i),
            ),
        forall|i: int| 0 < i < groups(digits).len() ==> (#[trigger] groups(digits)[i]).len() == 3,
        digits.len() > 0 ==> 1 <= groups(digits)[0].len() <= 3,
        groups(digits).flatten() == digits,
    decreases digits.len(),
{
    let n = digits.len() as int;
    if n == 0 {
        assert(groups(digits).flatten() =~= digits);
    } else if n <= 3 {
        assert(groups(digits)[0] =~= digits.take(n));
        groups(digits).lemma_flatten_singleton();
    } else {
        let head = digits.take(n - 3);
        let tail = digits.skip(n - 3);
        lemma_groups_shape(head);
        let g = groups(head).len() as int;
        assert(groups(digits).len() == g + 1);
        assert(groups(digits)[0] == groups(head)[0]);
        assert(head.take(n - 3 - 3 * (g - 1)) =~= digits.take(n - 3 * g));
        assert forall|i: int| 0 < i < g + 1 implies #[trigger] groups(digits)[i]
            == digits.subrange(n - 3 * (g + 1 - i), n - 3 * (g - i)) by {
            if i < g {
                assert(groups(digits)[i] == groups(head)[i]);
                assert(head.subrange(n - 3 - 3 * (g - i), n - 3 - 3 * (g - 1 - i))
                    =~= digits.subrange(n - 3 * (g + 1 - i), n - 3 * (g - i)));
            } else {
                assert(groups(digits)[i] == tail);
            }
        }
        groups(head).lemma_flatten_push(tail);
        assert(head + tail =~= digits);
    }
}

/// How marking relates to joining the groups: marking joins the groups with
/// the separator, appends one separator, and, where the length is a
/// positive multiple of three, also starts with one. A text of no
/// characters is marked by the separator alone.
pub proof fn lemma_marked_as_joined(digits: Seq<char>, separator: Seq<char>)
    ensures
        digits.len() == 0 ==> marked(digits, separator) == separator && joined(
            groups(digits),
            separator,
        ).len() == 0,
        digits.len() > 0 && digits.len() % 3 == 0 ==> marked(digits, separator) == separator
            + joined(groups(digits), separator) + separator,
        digits.len() % 3 != 0 ==> marked(digits, separator) == joined(groups(digits), separator)
            + separator,
        digits.len() > 0 ==> joined(groups(digits), separator).len() > 0,
        digits.len() > 0 ==> joined(groups(digits), separator)[0] == digits[0],
        digits.len() > 0 ==> joined(groups(digits), separator).last() == digits.last(),
    decreases digits.len(),
{
    let n = digits.len() as int;
    let whole = joined(groups(digits), separator);
    if n == 0 {
        assert(marked(digits, separator) =~= separator);
    } else if n < 3 {
        assert(whole == digits);
    } else if n == 3 {
        let head = digits.take(0);
        assert(marked(head, separator) =~= separator);
        assert(digits.skip(0) =~= digits);
        assert(whole == digits);
    } else {
        let head = digits.take(n - 3);
        let tail = digits.skip(n - 3);
        lemma_marked_as_joined(head, separator);
        lemma_groups_shape(head);
        let before = joined(groups(head), separator);
        let parts = groups(digits);
        assert(parts.drop_last() =~= groups(head));
        assert(parts.last() == tail);
        assert(whole == before + separator + tail);
        if n % 3 == 0 {
            assert(marked(digits, separator) =~= separator + whole + separator);
        } else {
            assert(marked(digits, separator) =~= whole + separator);
        }
    }
}

/// Grouping joins the groups of three with the separator, provided that a
/// text whose length is no multiple of three does not begin with the first
/// character of the separator.
pub proof fn lemma_grouped_is_joined(digits: Seq<char>, separator: Seq<char>)
    requires
        separator.len() > 0 && digits.len() % 3 != 0 ==> digits[0] != separator[0],
    ensures
        grouped(digits, separator) == joined(groups(digits), separator),
{
    let whole = joined(groups(digits), separator);
    let raw = marked(digits, separator);
    lemma_marked_as_joined(digits, separator);
    if digits.len() == 0 {
        assert(without_leading(raw, separator) =~= Seq::<char>::empty());
    } else if digits.len() % 3 == 0 {
        assert(separator =~= raw.subrange(0, separator.len() as int));
        assert(without_leading(raw, separator) =~= whole + separator);
        assert(separator =~= (whole + separator).subrange(
            whole.len() as int,
            (whole + separator).len() as int,
        ));
        assert(grouped(digits, separator) =~= whole);
    } else {
        if separator.len() > 0 {
            assert(raw.subrange(0, separator.len() as int)[0] == digits[0]);
            assert(without_leading(raw, separator) == raw);
        } else {
            assert(without_leading(raw, separator) =~= raw);
        }
        assert(separator =~= raw.subrange(whole.len() as int, raw.len() as int));
        assert(grouped(digits, separator) =~= whole);
    }
}

/// A grouped text begins and ends as the text itself does, provided that
/// the text does not begin with the first character of the separator. An
/// empty text stays empty.
pub proof fn lemma_grouped_ends(digits: Seq<char>, separator: Seq<char>)
    requires
        separator.len() > 0 && digits.len() > 0 ==> digits[0] != separator[0],
    ensures
        digits.len() == 0 ==> grouped(digits, separator).len() == 0,
        digits.len() > 0 ==> grouped(digits, separator).len() > 0,
        digits.len() > 0 ==> grouped(digits, separator)[0] == digits[0],
        digits.len() > 0 ==> grouped(digits, separator).last() == digits.last(),
{
    lemma_grouped_is_joined(digits, separator);
    lemma_marked_as_joined(digits, separator);
}

/// Where two texts begin alike and end alike and are followed by the same
/// texts, a token that fits neither end of the one fits neither end of the
/// other.
pub proof fn lemma_token_at_neither_end(
    body: Seq<char>,
    plain: Seq<char>,
    middle: Seq<char>,
    tail: Seq<char>,
    token: Seq<char>,
)
    requires
        token.len() > 0,
        plain.len() == 0 ==> body.len() == 0,
        plain.len() > 0 ==> body.len() > 0 && body[0] == plain[0] && body.last() == plain.last(),
        (plain + middle + tail).len() > 0 ==> (plain + middle + tail)[0] != token[0],
        (plain + middle + tail).len() > 0 ==> (plain + middle + tail).last() != token.last(),
    ensures
        !token.is_prefix_of(body + middle + tail),
        !token.is_suffix_of(body + middle + tail),
{
    let out = body + middle + tail;
    let before = plain + middle + tail;
    if out.len() > 0 {
        assert(before.len() > 0);
        assert(out[0] == before[0]) by {
            if plain.len() == 0 {
                assert(out =~= before);
            }
        }
        assert(out.last() == before.last()) by {
            if plain.len() == 0 {
                assert(out =~= before);
            }
        }
    }
    if token.is_prefix_of(out) {
        assert(out.subrange(0, token.len() as int)[0] == token[0]);
    }
    if token.is_suffix_of(out) {
        assert(out.subrange(out.len() - token.len(), out.len() as int)[token.len() - 1]
            == token.last());
    }
}

/// The digits of two texts in a row are the digits of the first followed by
/// those of the second.
pub proof fn lemma_digits_of_concat(a: Seq<char>, b: Seq<char>)
    ensures
        digits_of(a + b) == digits_of(a) + digits_of(b),
{
    Seq::filter_distributes_over_add(a, b, digit_test());
}

/// A text without digits has no digits to give.
pub proof fn lemma_digits_of_digitless(text: Seq<char>)
    requires
        has_no_digit(text),
    ensures
        digits_of(text) == Seq::<char>::empty(),
    decreases text.len(),
{
    reveal(Seq::filter);
    if text.len() > 0 {
        let init = text.drop_last();
        assert forall|i: int| 0 <= i < init.len() implies !is_digit(#[trigger] init[i]) by {
            assert(init[i] == text[i]);
        }
        lemma_digits_of_digitless(init);
        assert(!is_digit(text[text.len() - 1]));
    }
}

/// A text of digits is its own digits.
pub proof fn lemma_digits_of_number(text: Seq<char>)
    requires
        all_digits(text),
    ensures
        digits_of(text) == text,
    decreases text.len(),
{
    reveal(Seq::filter);
    if text.len() > 0 {
        let init = text.drop_last();
        assert forall|i: int| 0 <= i < init.len() implies is_digit(#[trigger] init[i]) by {
            assert(init[i] == text[i]);
        }
        lemma_digits_of_number(init);
        assert(is_digit(text[text.len() - 1]));
        assert(init.push(text.last()) =~= text);
    } else {
        assert(digits_of(text) =~= text);
    }
}

/// Marking with a separator that holds no digit adds no digit and moves
/// none.
pub proof fn lemma_digits_of_marked(digits: Seq<char>, separator: Seq<char>)
    requires
        has_no_digit(separator),
    ensures
        digits_of(marked(digits, separator)) == digits_of(digits),
    decreases digits.len(),
{
    lemma_digits_of_digitless(separator);
    if digits.len() < 3 {
        lemma_digits_of_concat(digits, separator);
    } else {
        let head = digits.take(digits.len() - 3);
        let tail = digits.skip(digits.len() - 3);
        lemma_digits_of_marked(head, separator);
        lemma_digits_of_concat(marked(head, separator), tail);
        lemma_digits_of_concat(marked(head, separator) + tail, separator);
        lemma_digits_of_concat(head, tail);
        assert(head + tail =~= digits);
    }
}

/// Taking a token without digits off either end of a text leaves the digits
/// of the text as they are.
pub proof fn lemma_digits_of_stripped(text: Seq<char>, token: Seq<char>)
    requires
        has_no_digit(token),
    ensures
        digits_of(without_leading(text, token)) == digits_of(text),
        digits_of(without_trailing(text, token)) == digits_of(text),
{
    lemma_digits_of_digitless(token);
    if token.is_prefix_of(text) {
        let rest = text.skip(token.len() as int);
        assert(token + rest =~= text);
        lemma_digits_of_concat(token, rest);
    }
    if token.is_suffix_of(text) {
        let rest = text.take(text.len() - token.len());
        assert(rest + token =~= text);
        lemma_digits_of_concat(rest, token);
    }
}

/// Separating with tokens that hold no digit keeps the digits of the
/// number: the same ones, as many, in the same order.
pub proof fn lemma_digits_survive(number: Seq<char>, separator: Seq<char>, radix: Seq<char>)
    requires
        has_no_digit(separator),
        has_no_digit(radix),
    ensures
        digits_of(separated(number, separator, radix)) == digits_of(number),
{
    let whole = integer_part(number);
    let fraction = fractional_part(number);
    let between = radix_before(fraction, radix);
    lemma_parts_of_number(number);
    lemma_digits_of_marked(whole, separator);
    lemma_digits_of_stripped(marked(whole, separator), separator);
    lemma_digits_of_stripped(without_leading(marked(whole, separator), separator), separator);
    lemma_digits_of_digitless(between);
    lemma_digits_of_concat(grouped(whole, separator), between);
    lemma_digits_of_concat(grouped(whole, separator) + between, fraction);
    if has_radix_mark(number) {
        let mark = number[radix_position(number)];
        lemma_digits_of_digitless(seq![mark]);
        assert(whole.push(mark) =~= whole + seq![mark]);
        lemma_digits_of_concat(whole, seq![mark]);
        lemma_digits_of_concat(whole.push(mark), fraction);
    } else {
        assert(fraction =~= Seq::<char>::empty());
        assert(whole + fraction =~= number);
        lemma_digits_of_concat(whole, fraction);
    }
}

/// A character of two texts in a row is a character of one of them.
proof fn lemma_concat_contains(a: Seq<char>, b: Seq<char>, c: char)
    ensures
        (a + b).contains(c) <==> a.contains(c) || b.contains(c),
{
    if (a + b).contains(c) {
        let i = choose|i: int| 0 <= i < (a + b).len() && (a + b)[i] == c;
        if i < a.len() {
            assert(a[i] == c);
        } else {
            assert(b[i - a.len()] == c);
        }
    }
    if a.contains(c) {
        let i = choose|i: int| 0 <= i < a.len() && a[i] == c;
        assert((a + b)[i] == c);
    }
    if b.contains(c) {
        let i = choose|i: int| 0 <= i < b.len() && b[i] == c;
        assert((a + b)[a.len() + i] == c);
    }
}

/// Every character of a grouped text comes from the text or from the
/// separator.
pub proof fn lemma_grouped_characters(digits: Seq<char>, separator: Seq<char>, c: char)
    requires
        grouped(digits, separator).contains(c),
    ensures
        digits.contains(c) || separator.contains(c),
{
    let raw = marked(digits, separator);
    let inner = without_leading(raw, separator);
    let outer = grouped(digits, separator);
    let i = choose|i: int| 0 <= i < outer.len() && outer[i] == c;
    if separator.is_suffix_of(inner) {
        assert(inner[i] == c);
    }
    assert(inner.contains(c));
    let j = choose|j: int| 0 <= j < inner.len() && inner[j] == c;
    if separator.is_prefix_of(raw) {
        assert(raw[j + separator.len()] == c);
    }
    assert(raw.contains(c));
    lemma_marked_characters(digits, separator, c);
}

/// Every character of a marked text comes from the text or from the
/// separator.
proof fn lemma_marked_characters(digits: Seq<char>, separator: Seq<char>, c: char)
    requires
        marked(digits, separator).contains(c),
    ensures
        digits.contains(c) || separator.contains(c),
    decreases digits.len(),
{
    if digits.len() < 3 {
        lemma_concat_contains(digits, separator, c);
    } else {
        let head = digits.take(digits.len() - 3);
        let tail = digits.skip(digits.len() - 3);
        lemma_concat_contains(marked(head, separator) + tail, separator, c);
        lemma_concat_contains(marked(head, separator), tail, c);
        assert(head + tail =~= digits);
        lemma_concat_contains(head, tail, c);
        if marked(head, separator).contains(c) {
            lemma_marked_characters(head, separator, c);
        }
    }
}

/// Once the separators behind `head` are in place, marking step by step
/// goes on to mark `head` itself, but for the separator at its end.
proof fn lemma_marked_stepwise_from(head: Seq<char>, tail: Seq<char>, separator: char)
    ensures
        marked_stepwise(head + tail, separator, tail.len() + 3) == marked(
            head,
            seq![separator],
        ).drop_last() + tail,
    decreases head.len(),
{
    let text = head + tail;
    let token = seq![separator];
    let p = head.len() as int;
    if p < 3 {
        assert(marked(head, token).drop_last() =~= head);
    } else {
        let before = head.take(p - 3);
        let run = head.skip(p - 3);
        let grown = token + run + tail;
        assert(text.take(text.len() - (tail.len() + 3)) =~= before);
        assert(text.skip(text.len() - (tail.len() + 3)) =~= run + tail);
        assert(before.push(separator) + (run + tail) =~= before + grown);
        lemma_marked_stepwise_from(before, grown, separator);
        assert(marked(before, token).len() > 0 && marked(before, token).last() == separator) by {
            if before.len() < 3 {
                assert(marked(before, token) == before + token);
            }
        }
        assert(marked(before, token).drop_last() + grown =~= marked(head, token).drop_last()
            + tail);
    }
}

/// Putting a separator of one character in step by step, first at the end
/// of the text and each further time four characters further from the end
/// of the text as it has grown, marks the text as [`marked`] says.
pub proof fn lemma_marked_stepwise(digits: Seq<char>, separator: char)
    ensures
        marked_stepwise(digits, separator, 0) == marked(digits, seq![separator]),
{
    let token = seq![separator];
    assert(digits.take(digits.len() - 0).push(separator) + digits.skip(digits.len() - 0)
        =~= digits + token);
    lemma_marked_stepwise_from(digits, token, separator);
    assert(marked(digits, token).len() > 0 && marked(digits, token).last() == separator) by {
        if digits.len() < 3 {
            assert(marked(digits, token) == digits + token);
        }
    }
    assert(marked(digits, token).drop_last() + token =~= marked(digits, token));
}

} // verus!
