use reddit_place_2022::access::Access;
use reddit_place_2022::error::FormatError;
use reddit_place_2022::normalize::{append_record, normalize, record_times};
use reddit_place_2022::timestamp::Timestamp;

fn records(lines: &[&str]) -> Vec<Access> {
    lines.iter().map(|line| Access::new(line.as_bytes().to_vec()).unwrap()).collect()
}

#[test]
fn a_shard_is_written_out_in_order_of_time() {
    let shard = records(&[
        "2022-04-04 01:47:43.500 UTC,c,#000000,\"5,6\"",
        "2022-04-04 01:47:41.048 UTC,a,#FF4500,\"1,2\"",
        "2022-04-04 01:47:42.000 UTC,b,#FFFFFF,\"3,4,5,6\"",
    ]);
    assert_eq!(
        normalize(&shard),
        Ok(String::from(
            "timestamp,user_id,pixel_color,coordinate\n\
             2022-04-04 01:47:41.048 UTC,a,#FF4500,\"1,2\"\n\
             2022-04-04 01:47:42 UTC,b,#FFFFFF,\"3,4,5,6\"\n\
             2022-04-04 01:47:43.500 UTC,c,#000000,\"5,6\"\n"
        ))
    );
}

#[test]
fn records_of_one_instant_keep_their_order() {
    let shard = records(&[
        "2022-04-04 01:47:41.048 UTC,first,#000000,\"0,0\"",
        "2022-04-04 01:47:40.000 UTC,early,#000000,\"0,0\"",
        "2022-04-04 01:47:41.048 UTC,second,#000000,\"0,0\"",
        "2022-04-04 01:47:41.048 UTC,third,#000000,\"0,0\"",
    ]);
    let text = normalize(&shard).unwrap();
    let agents: Vec<&str> = text.lines().skip(1).map(|line| line.split(',').nth(1).unwrap()).collect();
    assert_eq!(agents, vec!["early", "first", "second", "third"]);
}

#[test]
fn an_empty_shard_is_its_header() {
    assert_eq!(normalize(&vec![]), Ok(String::from("timestamp,user_id,pixel_color,coordinate\n")));
}

#[test]
fn one_bad_timestamp_fails_the_shard() {
    let shard = records(&[
        "2022-04-04 01:47:41.048 UTC,a,#000000,\"0,0\"",
        "not a time,b,#000000,\"0,0\"",
    ]);
    assert_eq!(normalize(&shard), Err(FormatError::Timestamp));
    assert_eq!(record_times(&shard), Err(FormatError::Timestamp));
}

#[test]
fn the_location_is_not_read_when_a_shard_is_normalized() {
    let shard = records(&["2022-04-04 01:47:41.048 UTC,a,#000000,\"x,y\""]);
    assert_eq!(
        normalize(&shard),
        Ok(String::from(
            "timestamp,user_id,pixel_color,coordinate\n2022-04-04 01:47:41.048 UTC,a,#000000,\"x,y\"\n"
        ))
    );
}

#[test]
fn times_are_read_record_by_record() {
    let shard = records(&[
        "1970-01-01 00:00:02.000 UTC,a,#000000,\"0,0\"",
        "1970-01-01 00:00:01.250 UTC,b,#000000,\"0,0\"",
    ]);
    assert_eq!(
        record_times(&shard),
        Ok(vec![
            Timestamp { seconds: 2, nanos: 0 },
            Timestamp { seconds: 1, nanos: 250_000_000 }
        ])
    );
}

#[test]
fn a_record_is_appended_under_a_new_stamp() {
    let record = Access::new(b"old,a,#000000,\"7,8\"".to_vec()).unwrap();
    let mut out = String::from("head\n");
    append_record(&mut out, "new", &record);
    assert_eq!(out, "head\nnew,a,#000000,\"7,8\"\n");
}
