use trimimages::grammar::{dotted_number, has_marker_at, plain_number, split_suffix};
use trimimages::numeral::{digit, short_number};
use trimimages::text::{chars_of, precedes};

#[test]
fn characters_are_taken_in_order() {
    assert_eq!(chars_of("a\u{e9}\u{1f600}z"), vec!['a', '\u{e9}', '\u{1f600}', 'z']);
    assert_eq!(chars_of("").len(), 0);
}

#[test]
fn strings_sort_by_their_first_difference() {
    assert_eq!(precedes("", ""), false);
    assert_eq!(precedes("", "a"), true);
    assert_eq!(precedes("a", ""), false);
    assert_eq!(precedes("abc", "abd"), true);
    assert_eq!(precedes("abd", "abc"), false);
    assert_eq!(precedes("ab", "abc"), true);
    assert_eq!(precedes("abc", "abc"), false);
    assert_eq!(precedes("Z", "a"), true);
    assert_eq!(precedes("z", "\u{e9}"), true);
    assert_eq!(precedes("\u{ffff}", "\u{10000}"), true);
}

#[test]
fn digits_are_told_apart() {
    for c in '0'..='9' {
        assert_eq!(digit(c), true);
    }
    for c in ['/', ':', 'a', ' ', '\u{661}', '\u{ff11}'] {
        assert_eq!(digit(c), false);
    }
}

#[test]
fn short_numbers_are_worth_their_digits() {
    assert_eq!(short_number(&chars_of("0"), 0), Some(0));
    assert_eq!(short_number(&chars_of("42"), 0), Some(42));
    assert_eq!(short_number(&chars_of("99999"), 0), Some(99999));
    assert_eq!(short_number(&chars_of("00042"), 0), Some(42));
    assert_eq!(short_number(&chars_of(".42"), 1), Some(42));
    assert_eq!(short_number(&chars_of("xy7"), 2), Some(7));
    assert_eq!(short_number(&chars_of(""), 0), None);
    assert_eq!(short_number(&chars_of("a"), 1), None);
    assert_eq!(short_number(&chars_of("123456"), 0), None);
    assert_eq!(short_number(&chars_of("12a"), 0), None);
    assert_eq!(short_number(&chars_of("-1"), 0), None);
    assert_eq!(short_number(&chars_of("12"), 2), None);
    assert_eq!(short_number(&chars_of("12"), 7), None);
    assert_eq!(plain_number("123"), Some(123));
    assert_eq!(plain_number(".123"), None);
    assert_eq!(dotted_number(".123"), Some(123));
    assert_eq!(dotted_number("123"), None);
    assert_eq!(dotted_number("."), None);
    assert_eq!(dotted_number(""), None);
}

#[test]
fn the_marker_is_found_where_it_stands() {
    let t = chars_of("-a-SNAPSHOT-SNAPSHO");
    assert_eq!(has_marker_at(&t, 0), false);
    assert_eq!(has_marker_at(&t, 2), true);
    assert_eq!(has_marker_at(&t, 3), false);
    assert_eq!(has_marker_at(&t, 11), false);
    assert_eq!(has_marker_at(&t, 18), false);
    assert_eq!(has_marker_at(&t, 19), false);
    assert_eq!(has_marker_at(&t, 100), false);
    assert_eq!(has_marker_at(&chars_of("-SNAPSHOT"), 0), true);
    assert_eq!(has_marker_at(&chars_of("-SNAPSHO"), 0), false);
}

#[test]
fn suffixes_come_apart() {
    assert_eq!(split_suffix("-BR"), Some((Some("BR".to_string()), false)));
    assert_eq!(split_suffix("-BR-SNAPSHOT"), Some((Some("BR".to_string()), true)));
    assert_eq!(split_suffix("-SNAPSHOT"), Some((None, true)));
    assert_eq!(split_suffix("-"), Some((None, false)));
    assert_eq!(split_suffix("--SNAPSHOT"), Some((None, true)));
    assert_eq!(split_suffix("-a-SNAPSHOT-b"), Some((Some("a".to_string()), true)));
    assert_eq!(split_suffix("-a-SNAPSHOT-b-SNAPSHOT"), Some((Some("a".to_string()), true)));
    assert_eq!(split_suffix("-SNAPSHOT-SNAPSHOT"), Some((None, true)));
    assert_eq!(split_suffix("-a-SNAPSHOT-SNAPSHOT-b"), Some((Some("a".to_string()), false)));
    assert_eq!(split_suffix("-\u{e9}\u{e9}-SNAPSHOT"), Some((Some("\u{e9}\u{e9}".to_string()), true)));
    assert_eq!(split_suffix(""), None);
    assert_eq!(split_suffix("BR"), None);
    assert_eq!(split_suffix("-a\nb"), None);
}
