use alarm_clock::error::Error;
use alarm_clock::net::{check_status, credentials, MAX_PASSWORD_LEN, MAX_SSID_LEN, MIN_PASSWORD_LEN};

#[test]
fn valid_credentials_are_copied() {
    let (ssid, password) = credentials("home", "correct horse").unwrap();
    assert_eq!(ssid.as_str(), "home");
    assert_eq!(password.as_str(), "correct horse");
}

#[test]
fn credential_lengths() {
    let long_ssid = "s".repeat(MAX_SSID_LEN + 1);
    let max_ssid = "s".repeat(MAX_SSID_LEN);
    let short_password = "p".repeat(MIN_PASSWORD_LEN - 1);
    let long_password = "p".repeat(MAX_PASSWORD_LEN + 1);
    let max_password = "p".repeat(MAX_PASSWORD_LEN);
    assert!(matches!(credentials("", "password"), Err(Error::InvalidSsid)));
    assert!(matches!(credentials("", "short"), Err(Error::InvalidSsid)));
    assert!(matches!(credentials("home", &short_password), Err(Error::InvalidPassword)));
    assert!(matches!(credentials(&long_ssid, &short_password), Err(Error::InvalidPassword)));
    assert!(matches!(credentials(&long_ssid, "password"), Err(Error::InvalidSsid)));
    assert!(matches!(credentials(&long_ssid, &long_password), Err(Error::InvalidSsid)));
    assert!(matches!(credentials("home", &long_password), Err(Error::InvalidPassword)));
    assert!(credentials(&max_ssid, &max_password).is_ok());
    // Lengths count bytes: 11 four byte characters are 44 bytes.
    assert!(matches!(credentials(&"😀".repeat(9), "password"), Err(Error::InvalidSsid)));
    assert!(credentials(&"😀".repeat(8), "password").is_ok());
}

#[test]
fn http_status() {
    assert!(check_status("https://example.com", 200).is_ok());
    assert!(check_status("https://example.com", 299).is_ok());
    match check_status("https://example.com", 404) {
        Err(Error::HttpStatus(url, status)) => {
            assert_eq!(url, "https://example.com");
            assert_eq!(status, 404);
        }
        other => panic!("unexpected {other:?}"),
    }
    assert!(check_status("u", 199).is_err());
    assert!(check_status("u", 300).is_err());
}
