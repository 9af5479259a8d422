//! Checks made before and after talking to the network: the station
//! credentials and the status of an HTTP response.
use vstd::prelude::*;
use crate::error::Error;
use vstd::string::StringExecFns;
use vstd::string::StringSliceAdditionalSpecFns;

verus! {

/// Maximum length, in bytes, of an SSID.
pub const MAX_SSID_LEN: usize = 32;

/// Maximum length, in bytes, of a WPA3 pre shared key.
pub const MAX_PASSWORD_LEN: usize = 64;

/// Shortest WPA3 pre shared key the standard allows.
pub const MIN_PASSWORD_LEN: usize = 8;

#[verifier::external_type_specification]
#[verifier::external_body]
pub struct ExHeaplessString<const N: usize>(heapless::String<N>);

/// The bytes an SSID field of the radio's configuration holds.
pub uninterp spec fn ssid_field_bytes(field: heapless::String<MAX_SSID_LEN>) -> Seq<u8>;

/// The bytes a pre shared key field of the radio's configuration holds.
pub uninterp spec fn password_field_bytes(field: heapless::String<MAX_PASSWORD_LEN>) -> Seq<u8>;

/// `heapless::String::<32>::try_from(&str)`: a copy of `s` in an SSID field,
/// which fails exactly when `s` is longer than 32 bytes; the copy holds the
/// bytes of `s`.
#[verifier::external_body]
fn ssid_field(s: &str) -> (copy: Result<heapless::String<MAX_SSID_LEN>, ()>)
    ensures
        copy is Ok <==> s.len() <= MAX_SSID_LEN,
        copy matches Ok(c) ==> ssid_field_bytes(c) == s.spec_bytes(),
{
    heapless::String::<MAX_SSID_LEN>::try_from(s)
}

/// `heapless::String::<64>::try_from(&str)`: a copy of `s` in a pre shared
/// key field, which fails exactly when `s` is longer than 64 bytes; the copy
/// holds the bytes of `s`.
#[verifier::external_body]
fn password_field(s: &str) -> (copy: Result<heapless::String<MAX_PASSWORD_LEN>, ()>)
    ensures
        copy is Ok <==> s.len() <= MAX_PASSWORD_LEN,
        copy matches Ok(c) ==> password_field_bytes(c) == s.spec_bytes(),
{
    heapless::String::<MAX_PASSWORD_LEN>::try_from(s)
}

/// The station credentials as the radio's configuration holds them, once
/// they have been checked: the SSID must be 1 to [`MAX_SSID_LEN`] bytes, the
/// pre shared key [`MIN_PASSWORD_LEN`] to [`MAX_PASSWORD_LEN`] bytes.
pub fn credentials(ssid: &str, password: &str) -> (config: Result<
    (heapless::String<MAX_SSID_LEN>, heapless::String<MAX_PASSWORD_LEN>),
    Error,
>)
    ensures
        ({
            let ssid_len = ssid.len();
            let password_len = password.len();
            if ssid_len == 0 {
                config == Err::<(heapless::String<MAX_SSID_LEN>, heapless::String<MAX_PASSWORD_LEN>), Error>(Error::InvalidSsid)
            } else if password_len < MIN_PASSWORD_LEN {
                config == Err::<(heapless::String<MAX_SSID_LEN>, heapless::String<MAX_PASSWORD_LEN>), Error>(Error::InvalidPassword)
            } else if ssid_len > MAX_SSID_LEN {
                config == Err::<(heapless::String<MAX_SSID_LEN>, heapless::String<MAX_PASSWORD_LEN>), Error>(Error::InvalidSsid)
            } else if password_len > MAX_PASSWORD_LEN {
                config == Err::<(heapless::String<MAX_SSID_LEN>, heapless::String<MAX_PASSWORD_LEN>), Error>(Error::InvalidPassword)
            } else {
                config matches Ok((s, p)) && ssid_field_bytes(s) == ssid.spec_bytes()
                    && password_field_bytes(p) == password.spec_bytes()
            }
        }),
{
    if ssid.len() == 0 {
        return Err(Error::InvalidSsid);
    }
    if password.len() < MIN_PASSWORD_LEN {
        return Err(Error::InvalidPassword);
    }
    let ssid_config = match ssid_field(ssid) {
        Ok(s) => s,
        Err(_) => {
            return Err(Error::InvalidSsid);
        },
    };
    let password_config = match password_field(password) {
        Ok(p) => p,
        Err(_) => {
            return Err(Error::InvalidPassword);
        },
    };
    Ok((ssid_config, password_config))
}

/// Accepts a 2xx response status; any other fails with the URL and status.
pub fn check_status(url: &str, status: u16) -> (checked: Result<(), Error>)
    ensures
        200 <= status < 300 ==> checked is Ok,
        !(200 <= status < 300) ==> (checked matches Err(Error::HttpStatus(u, s)) && u@ == url@ && s
            == status),
{
    if !(200 <= status && status < 300) {
        return Err(Error::HttpStatus(String::from_str(url), status));
    }
    Ok(())
}

} // verus!
