use chrono::Timelike;
use alarm_clock::error::Error;
use alarm_clock::time::{check_set_time, from_millis, hour_minute, now_from_elapsed, parse_epoch, MAX_MILLIS, MIN_MILLIS};

#[test]
fn representable_range_matches_chrono() {
    assert_eq!(from_millis(MIN_MILLIS).unwrap().millis(), MIN_MILLIS);
    assert_eq!(from_millis(MAX_MILLIS).unwrap().millis(), MAX_MILLIS);
    assert!(matches!(from_millis(MIN_MILLIS - 1), Err(Error::EpochOutOfRange(ms)) if ms == MIN_MILLIS - 1));
    assert!(matches!(from_millis(MAX_MILLIS + 1), Err(Error::EpochOutOfRange(ms)) if ms == MAX_MILLIS + 1));
    assert!(matches!(from_millis(i64::MAX), Err(Error::EpochOutOfRange(_))));
    assert!(matches!(from_millis(i64::MIN), Err(Error::EpochOutOfRange(_))));
}

#[test]
fn time_of_day() {
    // Sun, 11 Sep 2022 18:34:48 UTC
    let date = from_millis(1_662_921_288_000).unwrap();
    assert_eq!(hour_minute(&date), (18, 34));
    assert_eq!(date.second(), 48);
    let before_epoch = from_millis(-1).unwrap();
    assert_eq!(hour_minute(&before_epoch), (23, 59));
    assert_eq!(before_epoch.second(), 59);
    let epoch = from_millis(0).unwrap();
    assert_eq!(hour_minute(&epoch), (0, 0));
}

#[test]
fn time_of_day_matches_chrono() {
    for ms in [0i64, 1, 999, 1000, 86_399_999, 86_400_000, -1, -1000, -1001, -86_400_001, 1_662_921_288_123,
        MAX_MILLIS, MIN_MILLIS, -62_135_596_800_000, 253_402_300_799_999] {
        let ours = from_millis(ms).unwrap();
        let theirs = chrono::DateTime::from_timestamp_millis(ms).unwrap();
        assert_eq!(u32::from(ours.hour()), theirs.hour());
        assert_eq!(u32::from(ours.minute()), theirs.minute());
        assert_eq!(u32::from(ours.second()), theirs.second());
    }
}

#[test]
fn timeval_floors_before_epoch() {
    assert_eq!(from_millis(1_500).unwrap().timeval(), (1, 500_000));
    assert_eq!(from_millis(-1).unwrap().timeval(), (-1, 999_000));
    assert_eq!(from_millis(-2_000).unwrap().timeval(), (-2, 0));
}

#[test]
fn until_next_second() {
    assert_eq!(from_millis(1_250).unwrap().until_next_second(), 750);
    assert_eq!(from_millis(2_000).unwrap().until_next_second(), 1000);
    assert_eq!(from_millis(-1).unwrap().until_next_second(), 1);
}

#[test]
fn now_from_clock() {
    assert_eq!(now_from_elapsed(Some(5_000)).unwrap().millis(), 5_000);
    assert!(matches!(now_from_elapsed(None), Err(Error::EpochOutOfRange(0))));
    assert!(matches!(now_from_elapsed(Some(u128::MAX)), Err(Error::EpochOutOfRange(0))));
    assert!(matches!(now_from_elapsed(Some(MAX_MILLIS as u128 + 1)), Err(Error::EpochOutOfRange(ms)) if ms == MAX_MILLIS + 1));
    assert!(matches!(now_from_elapsed(Some(i64::MAX as u128)), Err(Error::EpochOutOfRange(i64::MAX))));
    assert!(matches!(now_from_elapsed(Some(i64::MAX as u128 + 1)), Err(Error::EpochOutOfRange(0))));
}

#[test]
fn epoch_body_parses_like_i64_from_str() {
    let cases: [&[u8]; 14] = [
        b"1700000000000", b"+42", b"-42", b"0", b"", b"-", b"+", b"12a", b"1700000000000\n", b" 1",
        b"9223372036854775807", b"9223372036854775808", b"-9223372036854775808", b"-9223372036854775809",
    ];
    for body in cases {
        let expected = std::str::from_utf8(body).unwrap().parse::<i64>().ok();
        assert_eq!(parse_epoch(body).ok(), expected, "{body:?}");
    }
    assert_eq!(parse_epoch(b"1700000000000").unwrap(), 1_700_000_000_000);
    assert_eq!(parse_epoch(b"-9223372036854775808").unwrap(), i64::MIN);
    assert!(matches!(parse_epoch(b"12a"), Err(Error::InvalidEpoch)));
    assert!(matches!(parse_epoch(&[0x31, 0xb2]), Err(Error::InvalidEpoch)));
    assert!(matches!(parse_epoch(b"99999999999999999999999999"), Err(Error::InvalidEpoch)));
}

#[test]
fn set_time_result() {
    assert!(check_set_time(0).is_ok());
    assert!(matches!(check_set_time(-1), Err(Error::SetTimeFailed(-1))));
}
