//! Text, time and maps.

use lfsync_core::hexadecimal::push_digits;
use lfsync_core::name_map::NameMap;
use lfsync_core::text::{
    chars_of, ends_with, eq_ignore_ascii_case, owned, replace_char, same_text, split_lines,
    starts_with, text_of, trim_end, trim_end_matches,
};
use lfsync_core::timestamp::{Timestamp, MAX_SECONDS, MIN_SECONDS};

#[test]
fn text_is_a_sequence_of_characters() {
    let chars = chars_of("aü😀");
    assert_eq!(chars, vec!['a', 'ü', '😀']);
    assert_eq!(text_of(&chars, 1, 3), "ü😀");
    assert_eq!(text_of(&chars, 2, 2), "");
    assert_eq!(owned("aü"), "aü");
    assert!(same_text("aü", "aü"));
    assert!(!same_text("a", "ü"));
}

#[test]
fn text_is_compared_as_the_standard_library_does() {
    let samples = ["", "a", "A", "ab", "aB", "b", "ä", "Ä", "@", "`", "[", "{", "ba"];
    for a in samples {
        for b in samples {
            assert_eq!(eq_ignore_ascii_case(a, b), a.eq_ignore_ascii_case(b), "{a} {b}");
            assert_eq!(starts_with(a, b), a.starts_with(b), "{a} {b}");
            assert_eq!(ends_with(a, b), a.ends_with(b), "{a} {b}");
        }
    }
}

#[test]
fn text_is_split_as_the_standard_library_does() {
    for text in ["", "a", "a\n", "a\nb", "\n", "\n\n", "a\r\nb\r", "\r\n", "\r", "a\r\r\nb", "ü\n\nb\n"] {
        let lines: Vec<&str> = text.lines().collect();
        assert_eq!(split_lines(text), lines, "{text:?}");
        assert_eq!(trim_end(text), text.trim_end());
    }
}

#[test]
fn all_white_space_is_trimmed() {
    for code in 0..=0x10ffff {
        if let Some(c) = char::from_u32(code) {
            if c.is_whitespace() || code < 0x3100 {
                let text = format!("x{c}");
                assert_eq!(trim_end(&text), text.trim_end(), "{code:x}");
            }
        }
    }
}

#[test]
fn suffixes_are_taken_off_one_after_another() {
    for text in ["", "ab", "abab", "cabab", "aba", "b"] {
        assert_eq!(trim_end_matches(text, "ab"), text.trim_end_matches("ab"));
    }
    assert_eq!(trim_end_matches("ab", ""), "ab");
}

#[test]
fn characters_are_replaced() {
    assert_eq!(replace_char("a\\b\\\\c/", '\\', '/'), "a/b//c/");
    assert_eq!(replace_char("", '\\', '/'), "");
}

#[test]
fn digits_are_padded_and_cut() {
    let mut out = "x".to_string();
    push_digits(&mut out, 0x1af, 2);
    assert_eq!(out, "xaf");
    push_digits(&mut out, 0x1af, 5);
    assert_eq!(out, "xaf001af");
    push_digits(&mut out, 0x1af, 0);
    assert_eq!(out, "xaf001af");
}

#[test]
fn moments_are_written_with_the_digits_they_need() {
    let text = |seconds, nanoseconds| Timestamp::new(seconds, nanoseconds).unwrap().to_rfc3339();
    assert_eq!(text(0, 0), "1970-01-01T00:00:00Z");
    assert_eq!(text(1_709_210_096, 789_000_000), "2024-02-29T12:34:56.789Z");
    assert_eq!(text(1_709_210_096, 789_001_000), "2024-02-29T12:34:56.789001Z");
    assert_eq!(text(1_709_210_096, 1), "2024-02-29T12:34:56.000000001Z");
    assert_eq!(text(-1, 500_000_000), "1969-12-31T23:59:59.500Z");
    assert_eq!(text(1_483_228_799, 1_500_000_000), "2016-12-31T23:59:60.500Z");
}

#[test]
fn moments_end_where_the_calendar_ends() {
    for (seconds, nanoseconds) in [
        (MIN_SECONDS, 0),
        (MIN_SECONDS - 1, 0),
        (MAX_SECONDS, 999_999_999),
        (MAX_SECONDS, 1_999_999_999),
        (MAX_SECONDS + 1, 0),
        (0, 1_000_000_000),
        (59, 1_000_000_000),
        (59, 2_000_000_000),
        (-1, 1_000_000_000),
        (-2, 1_000_000_000),
        (i64::MIN, 0),
        (i64::MAX, u32::MAX),
    ] {
        let expected = chrono::DateTime::from_timestamp(seconds, nanoseconds);
        let moment = Timestamp::new(seconds, nanoseconds);
        assert_eq!(moment.is_some(), expected.is_some(), "{seconds} {nanoseconds}");
        if let (Some(moment), Some(expected)) = (moment, expected) {
            assert_eq!(moment.seconds(), seconds);
            assert_eq!(moment.nanoseconds(), nanoseconds);
            assert_eq!(
                moment.to_rfc3339(),
                expected.to_rfc3339_opts(chrono::SecondsFormat::AutoSi, true)
            );
        }
    }
}

#[test]
fn days_are_counted_back() {
    for (seconds, nanoseconds) in [
        (1_709_210_096, 5),
        (0, 0),
        (1_483_228_799, 1_500_000_000),
        (MIN_SECONDS + 7 * 86_400, 0),
        (MAX_SECONDS, 1_999_999_999),
    ] {
        let expected = chrono::DateTime::from_timestamp(seconds, nanoseconds).unwrap()
            - chrono::TimeDelta::days(7);
        let earlier = Timestamp::new(seconds, nanoseconds).unwrap().days_before(7);
        assert_eq!(earlier.seconds(), expected.timestamp());
        assert_eq!(earlier.nanoseconds(), expected.timestamp_subsec_nanos());
    }
    let leap = Timestamp::new(1_483_228_799, 1_500_000_000).unwrap();
    assert_eq!(leap.days_before(1).seconds(), 1_483_228_800 - 86_400);
    assert_eq!(leap.days_before(1).nanoseconds(), 500_000_000);
}

#[test]
fn moments_are_ordered_by_second_and_fraction() {
    let moment = |seconds, nanoseconds| Timestamp::new(seconds, nanoseconds).unwrap();
    assert!(moment(5, 0).is_not_before(&moment(4, 9)));
    assert!(moment(5, 1).is_not_before(&moment(5, 1)));
    assert!(!moment(5, 0).is_not_before(&moment(5, 1)));
    assert!(!moment(-5, 0).is_not_before(&moment(5, 0)));
}

#[test]
fn a_map_remembers_the_order_of_its_names() {
    let mut map: NameMap<u8> = NameMap::new();
    map.insert("b".to_string(), 1);
    map.insert("a".to_string(), 2);
    map.insert("b".to_string(), 3);
    assert_eq!(map.keys(), vec!["b", "a"]);
    assert_eq!(map.get("b"), Some(&3));
    assert_eq!(map.get("c"), None);
    assert_eq!(map.len(), 2);
    map.remove("b");
    map.remove("c");
    assert!(!map.contains_key("b"));
    assert!(map.contains_key("a"));
    assert_eq!(map.keys(), vec!["a"]);
    assert!(!map.is_empty());
}
