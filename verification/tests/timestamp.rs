use pcap_analyzer::timestamp::{packet_timestamp, packet_timestamp_at, Timestamp};
use pcap_analyzer::timestamp::{MAX_SECS, MIN_SECS};

fn text(secs: i64, nanos: u32) -> String {
    Timestamp::from_timestamp(secs, nanos).unwrap().text()
}

#[test]
fn timestamp_texts() {
    assert_eq!(text(0, 0), "1970-01-01 00:00:00.000");
    assert_eq!(text(1_700_000_000, 123_999_999), "2023-11-14 22:13:20.123");
    assert_eq!(text(-1, 5_000_000), "1969-12-31 23:59:59.005");
    assert_eq!(text(951_782_400, 0), "2000-02-29 00:00:00.000");
    // Years with more than four digits, and before the year 0.
    assert_eq!(text(253_402_300_800, 0), "+10000-01-01 00:00:00.000");
    assert_eq!(text(-62_167_219_201, 0), "-0001-12-31 23:59:59.000");
    assert_eq!(text(MAX_SECS, 999_999_999), "+262142-12-31 23:59:59.999");
    assert_eq!(text(MIN_SECS, 0), "-262143-01-01 00:00:00.000");
}

#[test]
fn timestamp_of_a_leap_second() {
    assert_eq!(text(1_483_228_799, 1_500_000_000), "2016-12-31 23:59:60.500");
    assert_eq!(text(59, 1_999_999_999), "1970-01-01 00:00:60.999");
    assert_eq!(text(-1, 1_000_000_000), "1969-12-31 23:59:60.000");
    assert_eq!(Timestamp::from_timestamp(58, 1_000_000_000), None);
    assert_eq!(Timestamp::from_timestamp(60, 1_000_000_000), None);
    assert_eq!(Timestamp::from_timestamp(-2, 1_000_000_000), None);
    assert_eq!(Timestamp::from_timestamp(59, 2_000_000_000), None);
}

#[test]
fn timestamp_range() {
    assert!(Timestamp::from_timestamp(MAX_SECS, 0).is_some());
    assert!(Timestamp::from_timestamp(MAX_SECS + 1, 0).is_none());
    assert!(Timestamp::from_timestamp(MIN_SECS, 0).is_some());
    assert!(Timestamp::from_timestamp(MIN_SECS - 1, 999_999_999).is_none());
    assert!(Timestamp::from_timestamp(i64::MAX, 0).is_none());
    assert!(Timestamp::from_timestamp(i64::MIN, 0).is_none());
    assert!(Timestamp::from_timestamp(MAX_SECS, 1_999_999_999).is_some());
}

#[test]
fn timestamp_keeps_its_parts() {
    for (secs, nanos) in [(0, 0), (-1, 999_999_999), (1_700_000_000, 1), (119, 1_000_000_001)] {
        let t = Timestamp::from_timestamp(secs, nanos).unwrap();
        assert_eq!(t.secs(), secs);
        assert_eq!(t.nanos(), nanos);
    }
}

#[test]
fn packet_timestamp_with_a_date() {
    assert_eq!(packet_timestamp(7, 8), Timestamp::from_timestamp(7, 8).unwrap());
    // Seconds are read as a signed number.
    assert_eq!(packet_timestamp(u64::MAX, 8), Timestamp::from_timestamp(-1, 8).unwrap());
}

#[test]
fn packet_timestamp_by_a_given_clock() {
    let now = Timestamp::from_timestamp(1_234_567, 89).unwrap();
    assert_eq!(packet_timestamp_at(7, 8, now), Timestamp::from_timestamp(7, 8).unwrap());
    assert_eq!(packet_timestamp_at(u64::MAX, 8, now), Timestamp::from_timestamp(-1, 8).unwrap());
    assert_eq!(packet_timestamp_at(i64::MAX as u64, 0, now), now);
    assert_eq!(packet_timestamp_at(7, 1_000_000_000, now), now);
}

#[test]
fn packet_timestamp_without_a_date_is_now() {
    let before = Timestamp::now();
    let t = packet_timestamp(i64::MAX as u64, 0);
    let after = Timestamp::now();
    assert!(t.nanos() < 1_000_000_000);
    assert!((before.secs(), before.nanos()) <= (t.secs(), t.nanos()));
    assert!((t.secs(), t.nanos()) <= (after.secs(), after.nanos()));
}

#[test]
fn timestamp_is_its_parts() {
    assert_eq!(Timestamp::from_timestamp(5, 6), Timestamp::from_timestamp(5, 6));
    assert_ne!(Timestamp::from_timestamp(5, 6), Timestamp::from_timestamp(5, 7));
    assert_ne!(Timestamp::from_timestamp(5, 6), Timestamp::from_timestamp(4, 6));
}
