use alarm_clock::error::Error;
use alarm_clock::alarm::{alarms_from_blob, alarms_to_blob, alarms_to_seed, Alarm, MAX_ALARMS};

#[test]
fn test_alarm_from_bytes_enabled() {
    let bytes = [&0b1000_0000, &u8::MIN];
    let alarm = Alarm::from_bytes(bytes);
    assert!(alarm.enabled);
}

#[test]
fn test_alarm_from_bytes_disabled() {
    let bytes = [&u8::MIN, &u8::MIN];
    let alarm = Alarm::from_bytes(bytes);
    assert!(!alarm.enabled);
}

#[test]
fn test_alarm_from_bytes_hour_zero() {
    let bytes = [&u8::MIN, &u8::MIN];
    let alarm = Alarm::from_bytes(bytes);
    assert_eq!(alarm.hour, 0);
}

#[test]
fn test_alarm_from_bytes_hour_23() {
    let bytes = [&(23 << 2), &u8::MIN];
    let alarm = Alarm::from_bytes(bytes);
    assert_eq!(alarm.hour, 23);
}

#[test]
fn test_alarm_from_bytes_hour_25() {
    let bytes = [&(25 << 2), &u8::MIN];
    let alarm = Alarm::from_bytes(bytes);
    assert_eq!(alarm.hour, 23);
}

#[test]
fn test_alarm_from_bytes_hour_12() {
    let bytes = [&(12 << 2), &u8::MIN];
    let alarm = Alarm::from_bytes(bytes);
    assert_eq!(alarm.hour, 12);
}

#[test]
fn test_alarm_from_bytes_hour_1() {
    let bytes = [&(1 << 2), &u8::MIN];
    let alarm = Alarm::from_bytes(bytes);
    assert_eq!(alarm.hour, 1);
}

#[test]
fn test_alarm_from_bytes_minute_0() {
    let bytes = [&u8::MIN, &u8::MIN];
    let alarm = Alarm::from_bytes(bytes);
    assert_eq!(alarm.minute, 0);
}

#[test]
fn test_alarm_from_bytes_minute_1() {
    let bytes = [&u8::MIN, &(1 << 4)];
    let alarm = Alarm::from_bytes(bytes);
    assert_eq!(alarm.minute, 1);
}

#[test]
fn test_alarm_from_bytes_minute_10() {
    let bytes = [&u8::MIN, &(10 << 4)];
    let alarm = Alarm::from_bytes(bytes);
    assert_eq!(alarm.minute, 10);
}

#[test]
fn test_alarm_from_bytes_minute_15() {
    // The largest minute that fits entirely in the high nibble of byte 1
    let bytes = [&u8::MIN, &(15 << 4)];
    let alarm = Alarm::from_bytes(bytes);
    assert_eq!(alarm.minute, 15);
}

#[test]
fn test_alarm_from_bytes_minute_16() {
    // The smallest minute that needs the low 2 bits of byte 0
    let bytes = [&0b0000_0001, &u8::MIN];
    let alarm = Alarm::from_bytes(bytes);
    assert_eq!(alarm.minute, 16);
}

#[test]
fn test_alarm_from_bytes_minute_30() {
    let bytes = [&0b0000_0001, &0b1110_0000];
    let alarm = Alarm::from_bytes(bytes);
    assert_eq!(alarm.minute, 30);
}

#[test]
fn test_alarm_from_bytes_minute_45() {
    let bytes = [&0b0000_0010, &0b1101_0000];
    let alarm = Alarm::from_bytes(bytes);
    assert_eq!(alarm.minute, 45);
}

#[test]
fn test_alarm_from_bytes_minute_59() {
    let bytes = [&0b0000_0011, &0b1011_0000];
    let alarm = Alarm::from_bytes(bytes);
    assert_eq!(alarm.minute, 59);
}

#[test]
fn test_alarm_from_bytes_minute_63() {
    // The largest value the 6 minute bits can hold
    // Should be capped at 59
    let bytes = [&0b0000_0011, &0b1111_0000];
    let alarm = Alarm::from_bytes(bytes);
    assert_eq!(alarm.minute, 59);
}

#[test]
fn alarm_from_bytes_all_fields() {
    // enabled, hour 21, minute 37 = 0b10_0101
    let alarm = Alarm::from_bytes([&0b1101_0110, &0b0101_1111]);
    assert_eq!(alarm, Alarm::new(21, 37, true));
}

#[test]
fn alarm_to_bytes_exact() {
    assert_eq!(Alarm::new(21, 37, true).to_bytes(), [0b1101_0110, 0b0101_0000]);
    assert_eq!(Alarm::new(0, 0, false).to_bytes(), [0, 0]);
    assert_eq!(Alarm::new(23, 59, false).to_bytes(), [0b0101_1111, 0b1011_0000]);
}

#[test]
fn alarm_roundtrip_every_valid_alarm() {
    for hour in 0..24u8 {
        for minute in 0..60u8 {
            for enabled in [false, true] {
                let alarm = Alarm::new(hour, minute, enabled);
                let bytes = alarm.to_bytes();
                assert_eq!(Alarm::from_bytes([&bytes[0], &bytes[1]]), alarm);
            }
        }
    }
}

#[test]
fn alarm_reencode_is_stable() {
    for b0 in 0..=255u8 {
        for b1 in [0u8, 0x0f, 0x10, 0xf0, 0xff] {
            let decoded = Alarm::from_bytes([&b0, &b1]);
            let bytes = decoded.to_bytes();
            assert_eq!(Alarm::from_bytes([&bytes[0], &bytes[1]]), decoded);
        }
    }
}

#[test]
fn blob_decodes_pairs_and_ignores_trailing_byte() {
    let blob = [0b1000_0000u8, 0x10, 23 << 2, 0, 0xff];
    let alarms = alarms_from_blob(&blob);
    assert_eq!(alarms, vec![Alarm::new(0, 1, true), Alarm::new(23, 0, false)]);
    assert!(alarms_from_blob(&[]).is_empty());
}

#[test]
fn blob_roundtrip() {
    let alarms = vec![Alarm::new(11, 10, true), Alarm::new(15, 15, false), Alarm::new(23, 59, true)];
    let blob = alarms_to_blob(&alarms).unwrap();
    assert_eq!(blob, vec![0b1010_1100, 0b1010_0000, 0b0011_1100, 0b1111_0000, 0b1101_1111, 0b1011_0000]);
    assert_eq!(alarms_from_blob(&blob), alarms);
}

#[test]
fn blob_refuses_too_many_alarms() {
    let alarms = vec![Alarm::new(7, 0, true); MAX_ALARMS + 1];
    assert!(matches!(alarms_to_blob(&alarms), Err(Error::TooManyAlarms)));
    let alarms = vec![Alarm::new(7, 0, true); MAX_ALARMS];
    assert_eq!(alarms_to_blob(&alarms).unwrap().len(), 2 * MAX_ALARMS);
}

#[test]
fn seed_only_when_empty() {
    let seed = alarms_to_seed(&[]).unwrap();
    assert_eq!(seed, vec![
        Alarm::new(11, 10, true),
        Alarm::new(15, 15, false),
        Alarm::new(11, 15, false),
        Alarm::new(16, 15, false),
    ]);
    assert!(alarms_to_seed(&seed).is_none());
}
