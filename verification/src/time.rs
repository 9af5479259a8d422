//! Time keeping: millisecond timestamps, the time of day they name, and the
//! parsing of the epoch endpoint's answer.
use vstd::prelude::*;
use chrono::{DateTime, Utc};
use crate::error::Error;

verus! {

/// The earliest millisecond timestamp that is a representable date
/// (January 1 of the year -262143, which is 262144 BCE).
pub const MIN_MILLIS: i64 = -8_334_601_228_800_000;

/// The latest millisecond timestamp that is a representable date
/// (the last millisecond of December 31, 262142 CE).
pub const MAX_MILLIS: i64 = 8_210_266_876_799_999;

/// `chrono::DateTime::<Utc>::from_timestamp_millis`, reduced to whether it
/// found a date: it does exactly when the timestamp lies within the dates
/// chrono represents. The date itself is not kept.
#[verifier::external_body]
fn utc_date_exists(millis: i64) -> (exists: bool)
    ensures
        exists <==> MIN_MILLIS <= millis <= MAX_MILLIS,
{
    match DateTime::<Utc>::from_timestamp_millis(millis) {
        Some(_) => true,
        None => false,
    }
}

/// Seconds since midnight UTC at a millisecond timestamp.
pub open spec fn second_of_day(millis: int) -> int {
    (millis / 1000) % 86400
}

pub open spec fn spec_hour(millis: int) -> int {
    second_of_day(millis) / 3600
}

pub open spec fn spec_minute(millis: int) -> int {
    (second_of_day(millis) % 3600) / 60
}

pub open spec fn spec_second(millis: int) -> int {
    second_of_day(millis) % 60
}

/// A representable instant in UTC, to the millisecond.
#[derive(Debug, Clone, Copy)]
pub struct UtcTime {
    millis: i64,
}

impl View for UtcTime {
    type V = int;

    /// Milliseconds since the Unix epoch.
    closed spec fn view(&self) -> int {
        self.millis as int
    }
}

/// Splits a timestamp into whole seconds, rounded towards negative infinity,
/// and the milliseconds past them.
fn split_millis(millis: i64) -> (parts: (i64, u64))
    ensures
        parts.0 == millis as int / 1000,
        parts.1 == millis as int % 1000,
{
    if millis >= 0 {
        let u: u64 = millis as u64;
        ((u / 1000) as i64, u % 1000)
    } else {
        // `millis + 1` cannot overflow and its negation fits.
        let a: u64 = (-(millis + 1)) as u64;
        let q: i64 = -((a / 1000) as i64) - 1;
        let r: u64 = 999 - a % 1000;
        assert(millis == q * 1000 + r);
        (q, r)
    }
}

impl UtcTime {
    #[verifier::type_invariant]
    spec fn in_range(self) -> bool {
        MIN_MILLIS <= self.millis <= MAX_MILLIS
    }

    /// The timestamp, in milliseconds since the Unix epoch.
    pub fn millis(&self) -> (ms: i64)
        ensures
            ms == self@,
            MIN_MILLIS <= ms <= MAX_MILLIS,
    {
        proof {
            use_type_invariant(self);
        }
        self.millis
    }

    /// The hour of the day, 0 to 23.
    pub fn hour(&self) -> (h: u8)
        ensures
            h == spec_hour(self@),
            h < 24,
            h * 3600 <= (self@ / 1000) % 86400 < (h + 1) * 3600,
    {
        proof {
            use_type_invariant(self);
        }
        let (secs, _) = split_millis(self.millis);
        let day_secs: i64 = secs % 86400;
        let day_secs: i64 = if day_secs < 0 { day_secs + 86400 } else { day_secs };
        (day_secs / 3600) as u8
    }

    /// The minute of the hour, 0 to 59.
    pub fn minute(&self) -> (m: u8)
        ensures
            m == spec_minute(self@),
            m < 60,
            m * 60 <= (self@ / 1000) % 3600 < (m + 1) * 60,
    {
        proof {
            use_type_invariant(self);
        }
        let (secs, _) = split_millis(self.millis);
        let day_secs: i64 = secs % 86400;
        let day_secs: i64 = if day_secs < 0 { day_secs + 86400 } else { day_secs };
        ((day_secs % 3600) / 60) as u8
    }

    /// The second of the minute, 0 to 59.
    pub fn second(&self) -> (s: u8)
        ensures
            s == spec_second(self@),
            s < 60,
            s == (self@ / 1000) % 60,
    {
        proof {
            use_type_invariant(self);
        }
        let (secs, _) = split_millis(self.millis);
        let day_secs: i64 = secs % 86400;
        let day_secs: i64 = if day_secs < 0 { day_secs + 86400 } else { day_secs };
        (day_secs % 60) as u8
    }

    /// Milliseconds until the next whole second, 1 to 1000.
    pub fn until_next_second(&self) -> (wait: u64)
        ensures
            wait == 1000 - self@ % 1000,
            1 <= wait <= 1000,
    {
        let (_, ms) = split_millis(self.millis);
        1000 - ms
    }

    /// The `timeval` of this instant: whole seconds since the epoch, rounded
    /// down, and the microseconds past them.
    pub fn timeval(&self) -> (tv: (i64, i32))
        ensures
            tv.0 == self@ / 1000,
            tv.1 == (self@ % 1000) * 1000,
    {
        let (secs, ms) = split_millis(self.millis);
        (secs, (ms * 1000) as i32)
    }
}

/// Turns a millisecond timestamp into a UTC date.
pub fn from_millis(ms_since_epoch: i64) -> (date: Result<UtcTime, Error>)
    ensures
        date is Ok <==> MIN_MILLIS <= ms_since_epoch <= MAX_MILLIS,
        date matches Ok(t) ==> t@ == ms_since_epoch,
        date matches Err(e) ==> e == Error::EpochOutOfRange(ms_since_epoch),
{
    if utc_date_exists(ms_since_epoch) {
        Ok(UtcTime { millis: ms_since_epoch })
    } else {
        Err(Error::EpochOutOfRange(ms_since_epoch))
    }
}

/// Reads the system clock's elapsed time since the Unix epoch, in
/// milliseconds, `None` if the clock is before it: the clock's time, or
/// `EpochOutOfRange(0)` when there is none or it does not fit an `i64`,
/// `EpochOutOfRange` of the timestamp when it is no representable date.
pub fn now_from_elapsed(elapsed_ms: Option<u128>) -> (date: Result<UtcTime, Error>)
    ensures
        date is Ok <==> (elapsed_ms matches Some(ms) && ms <= MAX_MILLIS),
        date matches Ok(t) ==> (elapsed_ms matches Some(ms) && t@ == ms),
        date matches Err(e) ==> match elapsed_ms {
            Some(ms) => if ms <= i64::MAX {
                e == Error::EpochOutOfRange(ms as i64)
            } else {
                e == Error::EpochOutOfRange(0)
            },
            None => e == Error::EpochOutOfRange(0),
        },
{
    match elapsed_ms {
        Some(ms) => {
            if ms <= (i64::MAX as u128) {
                from_millis(ms as i64)
            } else {
                Err(Error::EpochOutOfRange(0))
            }
        },
        None => Err(Error::EpochOutOfRange(0)),
    }
}

/// The outcome of setting the system clock: `settimeofday` returns zero on
/// success.
pub fn check_set_time(ret: i32) -> (result: Result<(), Error>)
    ensures
        ret == 0 ==> result is Ok,
        ret != 0 ==> result == Err::<(), Error>(Error::SetTimeFailed(ret)),
{
    if ret != 0 {
        return Err(Error::SetTimeFailed(ret));
    }
    Ok(())
}

/// Splits a time into the hour and minute a 4 digit display shows.
pub fn hour_minute(date: &UtcTime) -> (hm: (u8, u8))
    ensures
        hm.0 == spec_hour(date@),
        hm.1 == spec_minute(date@),
        hm.0 < 24 && hm.1 < 60,
        hm.0 * 3600 <= (date@ / 1000) % 86400 < (hm.0 + 1) * 3600,
        hm.1 * 60 <= (date@ / 1000) % 3600 < (hm.1 + 1) * 60,
{
    (date.hour(), date.minute())
}


/// The hour, minute and second of a timestamp are the whole hours, minutes
/// and seconds into its UTC day: together they make up the seconds since
/// midnight, each within its range.
pub proof fn lemma_time_of_day(millis: int)
    ensures
        0 <= spec_hour(millis) < 24,
        0 <= spec_minute(millis) < 60,
        0 <= spec_second(millis) < 60,
        spec_hour(millis) * 3600 + spec_minute(millis) * 60 + spec_second(millis)
            == (millis / 1000) % 86400,
        spec_hour(millis) * 3600 <= (millis / 1000) % 86400 < (spec_hour(millis) + 1) * 3600,
{
    let secs = (millis / 1000) % 86400;
    assert(secs % 3600 == secs - (secs / 3600) * 3600);
    assert((secs % 3600) % 60 == secs % 60) by {
        assert(secs == (secs / 3600) * 3600 + secs % 3600);
        assert(3600 == 60 * 60);
    }
}

/// Waiting [`UtcTime::until_next_second`] from an instant lands exactly on the
/// next second boundary, so a clock driven by it stays in step rather than
/// drifting.
pub proof fn lemma_wait_lands_on_second(millis: int)
    ensures
        (millis + (1000 - millis % 1000)) % 1000 == 0,
        millis < millis + (1000 - millis % 1000) <= millis + 1000,
{
}

/// An ASCII decimal digit.
pub open spec fn is_digit(b: u8) -> bool {
    48 <= b <= 57
}

pub open spec fn all_digits(s: Seq<u8>) -> bool {
    forall|i: int| 0 <= i < s.len() ==> is_digit(#[trigger] s[i])
}

/// The number that a run of decimal digits spells.
pub open spec fn digits_value(s: Seq<u8>) -> int
    decreases s.len(),
{
    if s.len() == 0 {
        0
    } else {
        digits_value(s.drop_last()) * 10 + (s.last() - 48)
    }
}

/// The `i64` a text spells in decimal: an optional `+` or `-`, then one or
/// more digits, and nothing else; `None` for any other text or a number out
/// of the `i64` range.
pub open spec fn parse_i64(text: Seq<u8>) -> Option<int> {
    let signed = text.len() > 0 && (text[0] == 45 || text[0] == 43);
    let negative = text.len() > 0 && text[0] == 45;
    let digits = if signed { text.drop_first() } else { text };
    let magnitude = digits_value(digits);
    let value = if negative { -magnitude } else { magnitude };
    if digits.len() == 0 || !all_digits(digits) {
        None
    } else if value < i64::MIN || value > i64::MAX {
        None
    } else {
        Some(value)
    }
}

proof fn lemma_digits_value_nonneg(s: Seq<u8>)
    requires
        all_digits(s),
    ensures
        digits_value(s) >= 0,
    decreases s.len(),
{
    if s.len() > 0 {
        lemma_digits_value_nonneg(s.drop_last());
    }
}

/// More digits never make a smaller number.
proof fn lemma_digits_value_prefix(s: Seq<u8>, k: int)
    requires
        all_digits(s),
        0 <= k <= s.len(),
    ensures
        digits_value(s.take(k)) <= digits_value(s),
    decreases s.len(),
{
    if k < s.len() {
        assert(s.take(k) =~= s.drop_last().take(k));
        lemma_digits_value_prefix(s.drop_last(), k);
        lemma_digits_value_nonneg(s.drop_last());
    } else {
        assert(s.take(k) =~= s);
    }
}

/// A natural number written in ASCII decimal, without leading zeros.
pub open spec fn decimal_bytes(n: nat) -> Seq<u8>
    decreases n,
{
    if n < 10 {
        seq![(48 + n) as u8]
    } else {
        decimal_bytes(n / 10).push((48 + n % 10) as u8)
    }
}

proof fn lemma_decimal_bytes_value(n: nat)
    ensures
        decimal_bytes(n).len() > 0,
        all_digits(decimal_bytes(n)),
        digits_value(decimal_bytes(n)) == n,
        decimal_bytes(n)[0] != 45 && decimal_bytes(n)[0] != 43,
    decreases n,
{
    let s = decimal_bytes(n);
    if n >= 10 {
        lemma_decimal_bytes_value(n / 10);
        assert(s.drop_last() =~= decimal_bytes(n / 10));
        assert(s[0] == decimal_bytes(n / 10)[0]);
        assert(s.last() == (48 + n % 10) as u8);
        assert(((48 + n % 10) as u8) as int == 48 + n % 10);
        assert(digits_value(s) == digits_value(decimal_bytes(n / 10)) * 10 + (s.last() - 48));
        assert((n / 10) * 10 + n % 10 == n);
    } else {
        assert(s.drop_last() =~= Seq::<u8>::empty());
        assert(s.last() == (48 + n) as u8);
        assert(digits_value(s) == digits_value(s.drop_last()) * 10 + (s.last() - 48));
    }
}

/// Every `i64` written in decimal reads back as itself, with a `-` before a
/// negative one, and a `+` before a number changes nothing: no text that
/// spells a number in range is refused.
pub proof fn lemma_parse_reads_decimal(v: i64, plus: bool)
    ensures
        v >= 0 ==> parse_i64(decimal_bytes(v as nat)) == Some(v as int),
        v >= 0 && plus ==> parse_i64(seq![43u8] + decimal_bytes(v as nat)) == Some(v as int),
        v < 0 ==> parse_i64(seq![45u8] + decimal_bytes((-v) as nat)) == Some(v as int),
{
    if v >= 0 {
        lemma_decimal_bytes_value(v as nat);
        let d = decimal_bytes(v as nat);
        assert((seq![43u8] + d).drop_first() =~= d);
    } else {
        lemma_decimal_bytes_value((-v) as nat);
        let d = decimal_bytes((-v) as nat);
        assert((seq![45u8] + d).drop_first() =~= d);
    }
}

/// A text of one or more digits, with an optional sign, spelling a number in
/// the `i64` range reads as that number; anything else reads as nothing.
pub proof fn lemma_parse_accepts_exactly_numbers(text: Seq<u8>)
    ensures
        ({
            let signed = text.len() > 0 && (text[0] == 45 || text[0] == 43);
            let digits = if signed { text.drop_first() } else { text };
            let value = if text.len() > 0 && text[0] == 45 { -digits_value(digits) } else { digits_value(digits) };
            &&& (digits.len() > 0 && all_digits(digits) && i64::MIN <= value <= i64::MAX)
                ==> parse_i64(text) == Some(value)
            &&& !(digits.len() > 0 && all_digits(digits) && i64::MIN <= value <= i64::MAX)
                ==> parse_i64(text) is None
        }),
{
}

/// Parses the epoch endpoint's answer, the bytes of a decimal number of
/// milliseconds since the Unix epoch.
pub fn parse_epoch(body: &[u8]) -> (ms: Result<i64, Error>)
    ensures
        match parse_i64(body@) {
            Some(v) => ms == Ok::<i64, Error>(v as i64),
            None => ms == Err::<i64, Error>(Error::InvalidEpoch),
        },
{
    let n: usize = body.len();
    if n == 0 {
        return Err(Error::InvalidEpoch);
    }
    let negative: bool = body[0] == 45u8;
    let start: usize = if body[0] == 45u8 || body[0] == 43u8 { 1 } else { 0 };
    let ghost digits = body@.subrange(start as int, n as int);
    assert(digits =~= if start == 1 { body@.drop_first() } else { body@ });
    if start == n {
        return Err(Error::InvalidEpoch);
    }
    let limit: u128 = 9_223_372_036_854_775_808;
    let mut magnitude: u64 = 0;
    let mut i: usize = start;
    while i < n
        invariant
            n == body@.len(),
            start <= i <= n,
            digits == body@.subrange(start as int, n as int),
            n > 0,
            (start == 1) == (body@[0] == 45 || body@[0] == 43),
            negative == (body@[0] == 45),
            digits == (if start == 1 { body@.drop_first() } else { body@ }),
            all_digits(digits.take(i - start)),
            magnitude == digits_value(digits.take(i - start)),
            magnitude <= limit,
            limit == 9_223_372_036_854_775_808,
        decreases n - i,
    {
        let b: u8 = body[i];
        assert(digits[i - start] == b);
        if b < 48 || b > 57 {
            assert(!is_digit(digits[i - start]));
            assert(!all_digits(digits));
            assert(parse_i64(body@) is None);
            return Err(Error::InvalidEpoch);
        }
        let next: u128 = magnitude as u128 * 10 + (b - 48) as u128;
        assert(digits.take(i - start + 1).drop_last() =~= digits.take(i - start));
        assert(all_digits(digits.take(i - start + 1)));
        assert(next == digits_value(digits.take(i - start + 1)));
        if next > limit {
            proof {
                if all_digits(digits) {
                    lemma_digits_value_prefix(digits, i - start + 1);
                    assert(digits_value(digits) > limit);
                }
                assert(parse_i64(body@) is None);
            }
            return Err(Error::InvalidEpoch);
        }
        magnitude = next as u64;
        i = i + 1;
    }
    assert(digits.take(n - start) =~= digits);
    if negative {
        if magnitude as u128 == limit {
            Ok(i64::MIN)
        } else {
            Ok(-(magnitude as i64))
        }
    } else {
        if magnitude as u128 >= limit {
            Err(Error::InvalidEpoch)
        } else {
            Ok(magnitude as i64)
        }
    }
}

} // verus!
