use numsep::{custom, get_separator, group_decimal, separate, Locale, Scheme};

fn presets() -> Vec<Locale<Scheme<'static>>> {
    vec![
        Locale::English,
        Locale::German,
        Locale::Canadian,
        Locale::Swiss,
        Locale::Swiss2,
        Locale::Singapore,
    ]
}

fn samples() -> Vec<u64> {
    let mut all: Vec<u64> = (0..=11_000).collect();
    all.extend([
        99_999,
        100_000,
        999_999,
        1_000_000,
        1_000_001,
        123_456_789,
        999_999_999,
        1_000_000_000,
        u32::MAX as u64,
        u64::MAX,
    ]);
    all
}

fn digits_of(text: &str) -> String {
    text.chars().filter(|c| c.is_ascii_digit()).collect()
}

#[test]
fn integers_keep_their_digits_in_every_preset() {
    for lang in presets() {
        let (separator, _) = get_separator(&lang);
        for n in samples() {
            let out = group_decimal(&n.to_string(), separator, ".");
            assert_eq!(n.to_string(), digits_of(&out));
            assert_eq!(n.to_string(), out.replace(separator, ""));
        }
    }
    assert_eq!("1234567", digits_of(&separate(1234567, Locale::Swiss)));
}

#[test]
fn groups_hold_three_digits_but_the_first() {
    for n in samples() {
        let out = separate(n, Locale::English);
        let groups: Vec<&str> = out.split(',').collect();
        assert_eq!((n.to_string().len() + 2) / 3, groups.len());
        assert!(1 <= groups[0].len() && groups[0].len() <= 3);
        for group in &groups[1..] {
            assert_eq!(3, group.len());
        }
        assert_eq!(n.to_string(), groups.concat());
    }
}

#[test]
fn grouped_length_follows_from_the_number_of_groups() {
    assert_eq!(1, separate(7, Locale::English).len());
    assert_eq!(3, separate(789, Locale::English).len());
    assert_eq!(5, separate(6789, Locale::English).len());
    assert_eq!(7, separate(456789, Locale::English).len());
    assert_eq!(9, separate(3456789, Locale::English).len());
    assert_eq!(26, separate(u64::MAX, Locale::English).len());
}

#[test]
fn no_result_starts_or_ends_with_the_separator() {
    for lang in presets() {
        let (separator, radix) = get_separator(&lang);
        for n in samples() {
            let out = group_decimal(&n.to_string(), separator, radix);
            assert!(!out.starts_with(separator));
            assert!(!out.ends_with(separator));
        }
        for text in ["0.5", "123.456", "123456.789", "1000.001", ".5", "12."] {
            let out = group_decimal(text, separator, radix);
            assert!(!out.starts_with(separator));
            assert!(!out.ends_with(separator));
        }
    }
}

#[test]
fn a_digit_as_separator_can_end_the_result() {
    assert_eq!("15", group_decimal("15", "5", "."));
}

#[test]
fn radix_appears_only_with_a_fraction() {
    for lang in presets() {
        let (separator, radix) = get_separator(&lang);
        for n in samples() {
            let whole = group_decimal(&n.to_string(), separator, radix);
            assert!(!whole.contains(radix));
            let with_fraction = group_decimal(&format!("{}.25", n), separator, radix);
            assert_eq!(1, with_fraction.matches(radix).count());
            assert_eq!(format!("{}{}25", whole, radix), with_fraction);
        }
    }
    assert!(!separate(1234, Locale::English).contains('.'));
    assert!(separate(1234.5, Locale::English).contains('.'));
    assert!(!separate(1234.0, Locale::English).contains('.'));
}

#[test]
fn the_same_token_for_both_shows_a_radix_without_a_fraction() {
    assert_eq!("1,000", group_decimal("1000", ",", ","));
}

#[test]
fn tokens_do_not_change_the_digits() {
    let texts = ["0", "12", "1234", "1234567.891", "-98765.4321", "1000000", ".5"];
    for text in texts {
        let plain = digits_of(text);
        for lang in presets() {
            let (separator, radix) = get_separator(&lang);
            assert_eq!(plain, digits_of(&group_decimal(text, separator, radix)));
        }
        assert_eq!(plain, digits_of(&group_decimal(text, " -- ", "::")));
        assert_eq!(plain, digits_of(&group_decimal(text, "", "")));
    }
    let one = separate(1234567.891, Locale::Custom(custom().set_separator("_").set_radix("|")));
    let other = separate(1234567.891, Locale::German);
    assert_eq!(digits_of(&one), digits_of(&other));
    assert_eq!(10, digits_of(&one).len());
}

#[test]
fn a_digit_as_separator_changes_the_digits() {
    assert_eq!("10234", group_decimal("1234", "0", "."));
    assert_eq!("1", group_decimal("11", "1", "."));
}
