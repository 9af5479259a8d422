use alarm_clock::error::{decimal_string, Error};

#[test]
fn decimal_numbers() {
    assert_eq!(decimal_string(0), "0");
    assert_eq!(decimal_string(7), "7");
    assert_eq!(decimal_string(404), "404");
    assert_eq!(decimal_string(-1), "-1");
    assert_eq!(decimal_string(i64::MAX), i64::MAX.to_string());
    assert_eq!(decimal_string(i64::MIN), i64::MIN.to_string());
}

#[test]
fn messages() {
    assert_eq!(Error::NotAcknowledged.message(), "TM1637 did not acknowledge byte");
    assert_eq!(Error::InvalidSsid.message(), "SSID must be 1 to 32 bytes long");
    assert_eq!(Error::InvalidPassword.message(), "password must be 8 to 64 bytes long");
    assert_eq!(
        Error::HttpStatus(String::from("https://bobman.dev/api/epoch"), 503).message(),
        "https://bobman.dev/api/epoch returned 503"
    );
    assert_eq!(Error::WorkerPanicked.message(), "worker thread panicked");
    assert_eq!(Error::InvalidEpoch.message(), "epoch endpoint did not return a millisecond timestamp");
    assert_eq!(Error::EpochOutOfRange(-42).message(), "epoch -42 is out of range");
    assert_eq!(Error::SetTimeFailed(-1).message(), "settimeofday failed with -1");
    assert_eq!(Error::TooManyAlarms.message(), "too many alarms to store");
    assert_eq!(Error::MemoryCorruption.message(), "memory corruption");
}
