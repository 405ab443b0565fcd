use reddit_place_2022::decimal::{format_decimal, pad_decimal, parse_decimal, push_decimal};
use reddit_place_2022::timestamp::{Timestamp, TIMESTAMP_PATTERN};
use reddit_place_2022::error::FormatError;
use reddit_place_2022::{create_file_name, create_frame_name, HEADER};

#[test]
fn decimal_numerals_are_read() {
    assert_eq!(parse_decimal("0"), Some(0));
    assert_eq!(parse_decimal("12"), Some(12));
    assert_eq!(parse_decimal("1999"), Some(1999));
    assert_eq!(parse_decimal("4294967295"), Some(u32::MAX));
    assert_eq!(parse_decimal("+7"), Some(7));
    assert_eq!(parse_decimal("007"), Some(7));
    assert_eq!(parse_decimal("0000000000000000000001"), Some(1));
}

#[test]
fn what_is_no_numeral_is_not_read() {
    for text in ["", "+", "-1", "++1", "1+", " 1", "1 ", "1_000", "0x10", "12a", "٣", "4294967296", "42949672950", "99999999999999999999"] {
        assert_eq!(parse_decimal(text), None, "{text}");
    }
}

#[test]
fn reading_agrees_with_the_standard_library() {
    for text in ["0", "10", "+10", "010", "4294967295", "4294967296", "", "+", "-0", "1e3", "429496729", "4294967290", "4294967289"] {
        assert_eq!(parse_decimal(text), text.parse::<u32>().ok(), "{text}");
    }
}

#[test]
fn numbers_are_written_in_the_shortest_form() {
    assert_eq!(format_decimal(0), "0");
    assert_eq!(format_decimal(7), "7");
    assert_eq!(format_decimal(10), "10");
    assert_eq!(format_decimal(4294967295), "4294967295");
    assert_eq!(format_decimal(u64::MAX), "18446744073709551615");
    let mut text = String::from("n=");
    push_decimal(&mut text, 305);
    assert_eq!(text, "n=305");
}

#[test]
fn written_numbers_read_back() {
    for n in [0u32, 1, 9, 10, 99, 100, 12345, 4294967294, u32::MAX] {
        assert_eq!(parse_decimal(&format_decimal(n as u64)), Some(n));
    }
}

#[test]
fn shortest_numerals_are_written_back_as_read() {
    for text in ["0", "5", "42", "1000", "4294967295"] {
        assert_eq!(format_decimal(parse_decimal(text).unwrap() as u64), text);
    }
    assert_eq!(format_decimal(parse_decimal("007").unwrap() as u64), "7");
    assert_eq!(format_decimal(parse_decimal("+7").unwrap() as u64), "7");
}

#[test]
fn padding_fills_with_zeros_on_the_left() {
    assert_eq!(pad_decimal(5, 2), "05");
    assert_eq!(pad_decimal(0, 2), "00");
    assert_eq!(pad_decimal(42, 2), "42");
    assert_eq!(pad_decimal(123, 2), "123");
    assert_eq!(pad_decimal(7, 0), "7");
    assert_eq!(pad_decimal(7, 8), "00000007");
    assert_eq!(pad_decimal(7, 8), format!("{:0>8}", 7));
}

#[test]
fn shard_files_are_named_by_index() {
    assert_eq!(create_file_name(0), "2022_place_canvas_history-000000000000.csv.gzip");
    assert_eq!(create_file_name(5), "2022_place_canvas_history-000000000005.csv.gzip");
    assert_eq!(create_file_name(78), "2022_place_canvas_history-000000000078.csv.gzip");
    assert_eq!(create_file_name(100), "2022_place_canvas_history-0000000000100.csv.gzip");
}

#[test]
fn snapshot_files_are_named_by_number() {
    assert_eq!(create_frame_name(0), "image00000000.png");
    assert_eq!(create_frame_name(12), "image00000012.png");
    assert_eq!(create_frame_name(123456789), "image123456789.png");
}

#[test]
fn header_is_the_shard_header() {
    assert_eq!(HEADER, "timestamp,user_id,pixel_color,coordinate\n");
    assert_eq!(HEADER.len(), 41);
}

#[test]
fn timestamps_are_parsed_by_chrono() {
    assert_eq!(TIMESTAMP_PATTERN, "%Y-%m-%d %H:%M:%S%.3f UTC");
    assert_eq!(
        Timestamp::parse("1970-01-01 00:00:01.500 UTC"),
        Ok(Timestamp { seconds: 1, nanos: 500_000_000 })
    );
    assert_eq!(
        Timestamp::parse("1969-12-31 23:59:59.250 UTC"),
        Ok(Timestamp { seconds: -1, nanos: 250_000_000 })
    );
    assert_eq!(
        Timestamp::parse("2022-04-04 01:47:41.048 UTC"),
        Ok(Timestamp { seconds: 1649036861, nanos: 48_000_000 })
    );
    assert_eq!(Timestamp::parse("yesterday"), Err(FormatError::Timestamp));
    assert_eq!(Timestamp::parse(""), Err(FormatError::Timestamp));
}

#[test]
fn parse_outcomes_become_instants_or_errors() {
    assert_eq!(
        Timestamp::from_parsed(Some((12, 34))),
        Ok(Timestamp { seconds: 12, nanos: 34 })
    );
    assert_eq!(Timestamp::from_parsed(None), Err(FormatError::Timestamp));
}

#[test]
fn timestamps_are_rendered_by_chrono() {
    assert_eq!(
        Timestamp { seconds: 1649036861, nanos: 48_000_000 }.render(),
        Some(String::from("2022-04-04 01:47:41.048 UTC"))
    );
    assert_eq!(
        Timestamp { seconds: 0, nanos: 0 }.render(),
        Some(String::from("1970-01-01 00:00:00 UTC"))
    );
    assert_eq!(Timestamp { seconds: i64::MAX, nanos: 0 }.render(), None);
    assert_eq!(Timestamp { seconds: 0, nanos: 2_000_000_000 }.render(), None);
}

#[test]
fn rendered_timestamps_parse_back() {
    let instant = Timestamp { seconds: 1649036861, nanos: 48_000_000 };
    assert_eq!(Timestamp::parse(&instant.render().unwrap()), Ok(instant));
}

#[test]
fn instants_compare_by_seconds_then_nanoseconds() {
    let a = Timestamp { seconds: 1, nanos: 999_999_999 };
    let b = Timestamp { seconds: 2, nanos: 0 };
    let c = Timestamp { seconds: 2, nanos: 1 };
    assert!(a.is_before(&b));
    assert!(b.is_before(&c));
    assert!(!b.is_before(&a));
    assert!(!b.is_before(&b));
    assert!(b.is_at_or_before(&b));
    assert!(a.is_at_or_before(&c));
    assert!(!c.is_at_or_before(&a));
    let below = Timestamp { seconds: -5, nanos: 7 };
    assert!(below.is_before(&a));
}
