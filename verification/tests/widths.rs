use numsep::offsets::char_width;

#[test]
fn widths_at_the_borders() {
    assert_eq!(1, char_width('\0'));
    assert_eq!(1, char_width('7'));
    assert_eq!(1, char_width('\u{7f}'));
    assert_eq!(2, char_width('\u{80}'));
    assert_eq!(2, char_width('\u{b7}'));
    assert_eq!(2, char_width('\u{7ff}'));
    assert_eq!(3, char_width('\u{800}'));
    assert_eq!(3, char_width('\u{ff11}'));
    assert_eq!(3, char_width('\u{ffff}'));
    assert_eq!(4, char_width('\u{10000}'));
    assert_eq!(4, char_width('\u{1f600}'));
    assert_eq!(4, char_width('\u{10ffff}'));
}

#[test]
fn widths_are_those_of_the_encoding() {
    for code in 0..=0x10ffffu32 {
        if let Some(c) = char::from_u32(code) {
            assert_eq!(c.len_utf8(), char_width(c));
        }
    }
}
