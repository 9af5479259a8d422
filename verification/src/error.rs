//! What the library's decisions can fail with, and how each failure reads.
use vstd::prelude::*;
use vstd::string::StringExecFns;

verus! {

/// Everything that the verified logic can reject.
#[derive(Debug)]
pub enum Error {
    /// The TM1637 did not pull the data line low on the ninth clock.
    NotAcknowledged,
    /// The SSID was empty or longer than `MAX_SSID_LEN` bytes.
    InvalidSsid,
    /// The pre shared key was outside the length the standard allows.
    InvalidPassword,
    /// A non 2xx HTTP response status was returned.
    HttpStatus(String, u16),
    /// A worker thread panicked instead of returning a result.
    WorkerPanicked,
    /// The epoch endpoint answered with something other than a timestamp.
    InvalidEpoch,
    /// A millisecond timestamp is not a representable date.
    EpochOutOfRange(i64),
    /// `settimeofday` returned a non zero code.
    SetTimeFailed(i32),
    /// More alarms were given than fit in storage.
    TooManyAlarms,
    /// Memory has been corrupted.
    MemoryCorruption,
}

/// The characters of the decimal digits, `'0'` to `'9'`.
pub const DIGIT_CHARS: [char; 10] = ['0', '1', '2', '3', '4', '5', '6', '7', '8', '9'];

/// The decimal digits of a natural number, most significant first, without
/// leading zeros.
pub open spec fn decimal_digits(n: nat) -> Seq<char>
    decreases n,
{
    if n < 10 {
        seq![DIGIT_CHARS@[n as int]]
    } else {
        decimal_digits(n / 10).push(DIGIT_CHARS@[(n % 10) as int])
    }
}

/// An integer in decimal, with a leading `-` when negative.
pub open spec fn decimal(n: int) -> Seq<char> {
    if n < 0 {
        seq!['-'] + decimal_digits((-n) as nat)
    } else {
        decimal_digits(n as nat)
    }
}

/// `String` built by collecting characters: it holds exactly those
/// characters, in order.
#[verifier::external_body]
pub(crate) fn string_from_chars(chars: &Vec<char>) -> (text: String)
    ensures
        text@ == chars@,
{
    chars.iter().collect()
}

fn push_digits(buf: &mut Vec<char>, n: u64)
    ensures
        final(buf)@ == old(buf)@ + decimal_digits(n as nat),
    decreases n,
{
    if n >= 10 {
        push_digits(buf, n / 10);
    }
    buf.push(DIGIT_CHARS[(n % 10) as usize]);
    proof {
        if n < 10 {
            assert(final(buf)@ =~= old(buf)@ + decimal_digits(n as nat)) by {
                assert(n % 10 == n);
            }
        }
    }
}

/// An integer written in decimal.
pub fn decimal_string(n: i64) -> (text: String)
    ensures
        text@ == decimal(n as int),
{
    let mut buf: Vec<char> = Vec::new();
    if n < 0 {
        buf.push('-');
        // `-(n + 1)` cannot overflow; the magnitude is one more.
        let magnitude: u64 = (-(n + 1)) as u64 + 1;
        push_digits(&mut buf, magnitude);
    } else {
        push_digits(&mut buf, n as u64);
    }
    assert(buf@ =~= decimal(n as int));
    string_from_chars(&buf)
}

impl Error {
    /// How the failure reads.
    pub open spec fn spec_message(&self) -> Seq<char> {
        match self {
            Error::NotAcknowledged => "TM1637 did not acknowledge byte"@,
            Error::InvalidSsid => "SSID must be 1 to 32 bytes long"@,
            Error::InvalidPassword => "password must be 8 to 64 bytes long"@,
            Error::HttpStatus(url, status) => url@ + " returned "@ + decimal(*status as int),
            Error::WorkerPanicked => "worker thread panicked"@,
            Error::InvalidEpoch => "epoch endpoint did not return a millisecond timestamp"@,
            Error::EpochOutOfRange(ms) => "epoch "@ + decimal(*ms as int) + " is out of range"@,
            Error::SetTimeFailed(ret) => "settimeofday failed with "@ + decimal(*ret as int),
            Error::TooManyAlarms => "too many alarms to store"@,
            Error::MemoryCorruption => "memory corruption"@,
        }
    }

    /// How the failure reads, for logs.
    pub fn message(&self) -> (text: String)
        ensures
            text@ == self.spec_message(),
    {
        match self {
            Error::NotAcknowledged => String::from_str("TM1637 did not acknowledge byte"),
            Error::InvalidSsid => String::from_str("SSID must be 1 to 32 bytes long"),
            Error::InvalidPassword => String::from_str("password must be 8 to 64 bytes long"),
            Error::HttpStatus(url, status) => {
                let mut text = String::from_str(url.as_str());
                text.append(" returned ");
                text.append(decimal_string(*status as i64).as_str());
                text
            },
            Error::WorkerPanicked => String::from_str("worker thread panicked"),
            Error::InvalidEpoch => String::from_str(
                "epoch endpoint did not return a millisecond timestamp",
            ),
            Error::EpochOutOfRange(ms) => {
                let mut text = String::from_str("epoch ");
                text.append(decimal_string(*ms).as_str());
                text.append(" is out of range");
                text
            },
            Error::SetTimeFailed(ret) => {
                let mut text = String::from_str("settimeofday failed with ");
                text.append(decimal_string(*ret as i64).as_str());
                text
            },
            Error::TooManyAlarms => String::from_str("too many alarms to store"),
            Error::MemoryCorruption => String::from_str("memory corruption"),
        }
    }
}

} // verus!
