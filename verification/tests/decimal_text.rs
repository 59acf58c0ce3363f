use numsep::group_decimal;

#[test]
fn empty_text() {
    assert_eq!("", group_decimal("", ",", "."));
}

#[test]
fn empty_integer_part() {
    assert_eq!(".5", group_decimal(".5", ",", "."));
    assert_eq!(",5", group_decimal(".5", ".", ","));
}

#[test]
fn empty_fraction_drops_the_mark() {
    assert_eq!("12", group_decimal("12.", ",", "."));
    assert_eq!("1,234", group_decimal("1234.", ",", "."));
    assert_eq!("", group_decimal(".", ",", "."));
}

#[test]
fn comma_marks_the_fraction_too() {
    assert_eq!("2.000,5", group_decimal("2000,5", ".", ","));
    assert_eq!("2,000.5", group_decimal("2000,5", ",", "."));
}

#[test]
fn the_first_point_splits_even_after_a_comma() {
    assert_eq!("1,5.25", group_decimal("1,5.25", "'", "."));
    assert_eq!("1'1,5.25", group_decimal("11,5.25", "'", "."));
}

#[test]
fn only_the_first_mark_splits() {
    assert_eq!("1'234.5.678901", group_decimal("1234.5.678901", "'", "."));
    assert_eq!("1'234;5,678901", group_decimal("1234,5,678901", "'", ";"));
}

#[test]
fn lengths_around_multiples_of_three() {
    assert_eq!("1", group_decimal("1", ",", "."));
    assert_eq!("12", group_decimal("12", ",", "."));
    assert_eq!("123", group_decimal("123", ",", "."));
    assert_eq!("1,234", group_decimal("1234", ",", "."));
    assert_eq!("12,345", group_decimal("12345", ",", "."));
    assert_eq!("123,456", group_decimal("123456", ",", "."));
    assert_eq!("1,234,567", group_decimal("1234567", ",", "."));
    assert_eq!("12,345,678", group_decimal("12345678", ",", "."));
    assert_eq!("123,456,789", group_decimal("123456789", ",", "."));
}

#[test]
fn empty_separator_groups_nothing() {
    assert_eq!("1234567", group_decimal("1234567", "", "."));
    assert_eq!("1234567.5", group_decimal("1234567.5", "", "."));
    assert_eq!("123", group_decimal("123", "", "."));
}

#[test]
fn empty_radix_joins_the_parts() {
    assert_eq!("1,2345", group_decimal("1234.5", ",", ""));
}

#[test]
fn separator_of_several_characters() {
    assert_eq!("1ab234ab567", group_decimal("1234567", "ab", "."));
    assert_eq!("123ab456", group_decimal("123456", "ab", "."));
    assert_eq!("12 -- 345 -- 678", group_decimal("12345678", " -- ", "."));
    assert_eq!("999", group_decimal("999", " -- ", "."));
}

#[test]
fn radix_of_several_characters() {
    assert_eq!("1,234 and 5", group_decimal("1234.5", ",", " and "));
}

#[test]
fn tokens_beyond_ascii() {
    assert_eq!("1\u{2009}234\u{2009}567\u{b7}5", group_decimal("1234567.5", "\u{2009}", "\u{b7}"));
    assert_eq!(
        "1\u{1f600}234\u{1f600}567",
        group_decimal("1234567", "\u{1f600}", ".")
    );
}

#[test]
fn characters_of_every_width_count_once() {
    assert_eq!(
        "\u{ff11}\u{ff12},\u{ff13}\u{ff14}\u{ff15}",
        group_decimal("\u{ff11}\u{ff12}\u{ff13}\u{ff14}\u{ff15}", ",", ".")
    );
    assert_eq!(
        "a,\u{1f600}\u{e9}1,234",
        group_decimal("a\u{1f600}\u{e9}1234", ",", ".")
    );
    assert_eq!(
        "\u{ff11},\u{ff12}\u{ff13}\u{ff14}:\u{ff15}\u{e9}",
        group_decimal("\u{ff11}\u{ff12}\u{ff13}\u{ff14}.\u{ff15}\u{e9}", ",", ":")
    );
    assert_eq!(
        "\u{e9}\u{e9}\u{e9}",
        group_decimal("\u{e9}\u{e9}\u{e9}.", ",", ".")
    );
}

#[test]
fn a_separator_found_at_an_end_is_taken_off() {
    assert_eq!("1", group_decimal("11", "1", "."));
    assert_eq!("1000", group_decimal("1000", "1", "."));
    assert_eq!("1-000", group_decimal("-1000", "-", "."));
    assert_eq!("-10", group_decimal("-10", "-", "."));
    assert_eq!("1", group_decimal("1", "11", "."));
    assert_eq!("1aa", group_decimal("1aa", "aa", "."));
    assert_eq!("1x234", group_decimal("x1234", "x", "."));
}

#[test]
fn only_one_separator_is_taken_off_each_end() {
    assert_eq!("xx1x234", group_decimal("xx1234", "x", "."));
    assert_eq!("12x34x", group_decimal("1234x", "x", "."));
    assert_eq!("xx1x234xx56x7xx", group_decimal("xx1234x567xx", "x", "."));
}

#[test]
fn long_runs_of_digits() {
    let digits = "1234567890".repeat(30);
    let out = group_decimal(&digits, ",", ".");
    assert_eq!(300 + 99, out.len());
    let groups: Vec<&str> = out.split(',').collect();
    assert_eq!(100, groups.len());
    assert_eq!(digits, groups.concat());
    for group in groups {
        assert_eq!(3, group.len());
    }
}
