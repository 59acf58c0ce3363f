use numsep::{custom, get_separator, separate, Locale, Scheme};

#[test]
fn english_tokens() {
    let lang: Locale<Scheme> = Locale::English;
    assert_eq!((",", "."), get_separator(&lang));
    assert_eq!("1,234,567.25", separate(1234567.25, Locale::English));
}

#[test]
fn german_tokens() {
    let lang: Locale<Scheme> = Locale::German;
    assert_eq!((".", ","), get_separator(&lang));
    assert_eq!("1.234.567,25", separate(1234567.25, Locale::German));
}

#[test]
fn canadian_tokens() {
    let lang: Locale<Scheme> = Locale::Canadian;
    assert_eq!((" ", "."), get_separator(&lang));
    assert_eq!("1 234 567.25", separate(1234567.25, Locale::Canadian));
}

#[test]
fn swiss_tokens() {
    let lang: Locale<Scheme> = Locale::Swiss;
    assert_eq!(("'", "."), get_separator(&lang));
    assert_eq!("1'234'567.25", separate(1234567.25, Locale::Swiss));
}

#[test]
fn second_swiss_tokens() {
    let lang: Locale<Scheme> = Locale::Swiss2;
    assert_eq!(("'", ","), get_separator(&lang));
    assert_eq!("1'234'567,25", separate(1234567.25, Locale::Swiss2));
}

#[test]
fn singapore_tokens() {
    let lang: Locale<Scheme> = Locale::Singapore;
    assert_eq!((",", "\u{b7}"), get_separator(&lang));
    assert_eq!("1,234,567\u{b7}25", separate(1234567.25, Locale::Singapore));
}

#[test]
fn custom_tokens() {
    let lang = Locale::Custom(custom().set_separator("_").set_radix(";"));
    assert_eq!(("_", ";"), get_separator(&lang));
    assert_eq!("1_234_567;25", separate(1234567.25, lang));
}

#[test]
fn custom_starts_empty() {
    let lang = Locale::Custom(custom());
    assert_eq!(("", ""), get_separator(&lang));
    assert_eq!("123456725", separate(1234567.25, lang));
}

#[test]
fn setters_are_independent() {
    let only_separator = Locale::Custom(custom().set_separator("'"));
    assert_eq!(("'", ""), get_separator(&only_separator));
    assert_eq!("2'0005", separate(2000.5, only_separator));

    let only_radix = Locale::Custom(custom().set_radix(","));
    assert_eq!(("", ","), get_separator(&only_radix));
    assert_eq!("2000,5", separate(2000.5, only_radix));
}

#[test]
fn setters_in_either_order() {
    let one = Locale::Custom(custom().set_separator("'").set_radix(","));
    let other = Locale::Custom(custom().set_radix(",").set_separator("'"));
    assert_eq!(get_separator(&one), get_separator(&other));
    assert_eq!(separate(2000.5, one), separate(2000.5, other));
}

#[test]
fn a_later_setting_replaces_an_earlier_one() {
    let lang = Locale::Custom(custom().set_separator("x").set_radix("y").set_separator(" "));
    assert_eq!((" ", "y"), get_separator(&lang));
}
