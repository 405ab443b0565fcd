use reddit_place_2022::access::{describe_fields, Access, Location};
use reddit_place_2022::error::FormatError;
use reddit_place_2022::timestamp::Timestamp;

fn record(line: &str) -> Access {
    Access::new(line.as_bytes().to_vec()).unwrap()
}

const POINT: &str = "2022-04-04 01:47:41.048 UTC,agentA==,#FF4500,\"42,17\"";
const RECT: &str = "2022-04-04 01:47:41.048 UTC,agentB==,#000000,\"1,2,30,40\"";

#[test]
fn point_line_gives_its_coordinates() {
    assert_eq!(record(POINT).coords(), Ok(Location::Coords(42, 17)));
}

#[test]
fn rectangle_line_gives_its_four_coordinates_in_order() {
    assert_eq!(record(RECT).coords(), Ok(Location::Range(1, 2, 30, 40)));
}

#[test]
fn fields_are_slices_of_the_line() {
    let access = record(POINT);
    assert_eq!(access.time_raw(), "2022-04-04 01:47:41.048 UTC");
    assert_eq!(access.user_id(), "agentA==");
    assert_eq!(access.colour(), "#FF4500");
    assert_eq!(access.coords_raw(), Ok("42,17"));
    assert_eq!(access.tail(), ",agentA==,#FF4500,\"42,17\"");
    assert_eq!(access.line(), POINT);
    assert_eq!(access.len(), POINT.len());
    assert_eq!(access.arity(), 4);
}

#[test]
fn rectangle_fields_are_slices_of_the_line() {
    let access = record(RECT);
    assert_eq!(access.coords_raw(), Ok("1,2,30,40"));
    assert_eq!(access.arity(), 6);
}

#[test]
fn brackets_need_not_be_quotes() {
    assert_eq!(record("t,a,c,<3,4>").coords(), Ok(Location::Coords(3, 4)));
    assert_eq!(record("t,a,c,[3,4,5,6]").coords(), Ok(Location::Range(3, 4, 5, 6)));
}

#[test]
fn get_hands_out_any_part_of_the_line() {
    let access = record("t,a,c,\"3,4\"");
    assert_eq!(access.get(0, 1), Some("t"));
    assert_eq!(access.get(2, 5), Some("a,c"));
    assert_eq!(access.get(11, 11), Some(""));
    assert_eq!(access.get(0, 11), Some("t,a,c,\"3,4\""));
    assert_eq!(access.get(5, 4), None);
    assert_eq!(access.get(0, 12), None);
}

#[test]
fn other_comma_counts_are_rejected() {
    for line in ["", "a", "a,b", "a,b,c", "a,b,c,d", "a,b,c,d,e,f", "a,b,c,d,e,f,g,h", ",,,,,,,"] {
        assert_eq!(
            Access::new(line.as_bytes().to_vec()).err(),
            Some(FormatError::DelimiterCount),
            "{line}"
        );
    }
    assert!(Access::new(b"a,b,c,d,e".to_vec()).is_ok());
    assert!(Access::new(b"a,b,c,d,e,f,g".to_vec()).is_ok());
}

#[test]
fn bytes_outside_ascii_are_rejected() {
    assert_eq!(
        Access::new("t,a\u{e9},c,\"3,4\"".as_bytes().to_vec()).err(),
        Some(FormatError::Encoding)
    );
    assert_eq!(Access::new(vec![0xff]).err(), Some(FormatError::Encoding));
    assert_eq!(Access::read(&[b',', 0x80]).err(), Some(FormatError::Encoding));
}

#[test]
fn read_copies_a_borrowed_line() {
    let access = Access::read(POINT.as_bytes()).unwrap();
    assert_eq!(access.line(), POINT);
    assert_eq!(access.coords(), Ok(Location::Coords(42, 17)));
}

#[test]
fn payload_without_room_for_brackets_is_rejected() {
    assert_eq!(record("t,a,c,,").coords_raw(), Err(FormatError::Payload));
    assert_eq!(record("t,a,c,,").coords(), Err(FormatError::Payload));
    assert_eq!(record("t,a,c,,5\"").coords(), Err(FormatError::Payload));
    assert_eq!(record("t,a,c,\"5,").coords(), Err(FormatError::Payload));
    assert_eq!(record("t,a,c,\"5,").coords_raw(), Ok("5"));
    assert_eq!(record("t,a,c,\",\"").coords_raw(), Ok(","));
}

#[test]
fn coordinates_that_are_no_numbers_are_rejected() {
    assert_eq!(record("t,a,c,\",\"").coords(), Err(FormatError::Number));
    assert_eq!(record("t,a,c,\"x,4\"").coords(), Err(FormatError::Number));
    assert_eq!(record("t,a,c,\"3,-4\"").coords(), Err(FormatError::Number));
    assert_eq!(record("t,a,c,\"3, 4\"").coords(), Err(FormatError::Number));
    assert_eq!(record("t,a,c,\"3,4294967296\"").coords(), Err(FormatError::Number));
    assert_eq!(record("t,a,c,\"1,2,x,4\"").coords(), Err(FormatError::Number));
    assert_eq!(record("t,a,c,\"1,,3,4\"").coords(), Err(FormatError::Number));
}

#[test]
fn coordinates_keep_their_value_at_the_edges() {
    assert_eq!(
        record("t,a,c,\"0,4294967295\"").coords(),
        Ok(Location::Coords(0, 4294967295))
    );
    assert_eq!(record("t,a,c,\"+7,007\"").coords(), Ok(Location::Coords(7, 7)));
}

#[test]
fn time_is_read_by_the_pattern() {
    assert_eq!(
        record(POINT).time(),
        Ok(Timestamp { seconds: 1649036861, nanos: 48_000_000 })
    );
    assert_eq!(
        record("2022-04-01 12:44:10 UTC,a,c,\"3,4\"").time(),
        Ok(Timestamp { seconds: 1648817050, nanos: 0 })
    );
}

#[test]
fn time_that_does_not_match_is_rejected() {
    assert_eq!(record("t,a,c,\"3,4\"").time(), Err(FormatError::Timestamp));
    assert_eq!(
        record("2022-04-04 01:47:41.048,a,c,\"3,4\"").time(),
        Err(FormatError::Timestamp)
    );
    assert_eq!(
        record("2022-04-04T01:47:41.048 UTC,a,c,\"3,4\"").time(),
        Err(FormatError::Timestamp)
    );
    assert_eq!(
        record("2022-13-04 01:47:41.048 UTC,a,c,\"3,4\"").time(),
        Err(FormatError::Timestamp)
    );
}

#[test]
fn every_error_has_its_description() {
    let all = [
        FormatError::Encoding,
        FormatError::DelimiterCount,
        FormatError::Timestamp,
        FormatError::Payload,
        FormatError::Number,
    ];
    for (i, a) in all.iter().enumerate() {
        assert!(!a.describe().is_empty());
        for b in &all[i + 1..] {
            assert_ne!(a.describe(), b.describe());
        }
    }
}

#[test]
fn a_record_is_spelled_out_field_by_field() {
    assert_eq!(
        record(POINT).describe(),
        Ok(String::from(
            "Access { time: \"2022-04-04 01:47:41.048 UTC\", user_id: \"agentA==\", colour: \"#FF4500\", coords: Coords(42, 17) }"
        ))
    );
    assert_eq!(
        record(RECT).describe(),
        Ok(String::from(
            "Access { time: \"2022-04-04 01:47:41.048 UTC\", user_id: \"agentB==\", colour: \"#000000\", coords: Range(1, 2, 30, 40) }"
        ))
    );
}

#[test]
fn spelled_out_fields_are_quoted_with_their_escapes() {
    assert_eq!(
        record("t,a\"b\\,c\t,<1,2>").describe(),
        Ok(String::from(
            "Access { time: \"t\", user_id: \"a\\\"b\\\\\", colour: \"c\\t\", coords: Coords(1, 2) }"
        ))
    );
}

#[test]
fn a_record_without_location_is_not_spelled_out() {
    assert_eq!(record("t,a,c,\"x,2\"").describe(), Err(FormatError::Number));
    assert_eq!(record("t,a,c,,").describe(), Err(FormatError::Payload));
}

#[test]
fn locations_and_fields_are_spelled_out_as_given() {
    assert_eq!(Location::Coords(0, 4294967295).describe(), "Coords(0, 4294967295)");
    assert_eq!(Location::Range(1, 22, 333, 4444).describe(), "Range(1, 22, 333, 4444)");
    assert_eq!(
        describe_fields("T", "U", "C", Location::Coords(3, 4)),
        "Access { time: T, user_id: U, colour: C, coords: Coords(3, 4) }"
    );
}
