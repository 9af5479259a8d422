//! Alarms and their two byte storage format.
//!
//! An alarm is packed into two bytes:
//!
//! ```text
//! byte 0:  E H H H H H M M     E: enabled, H: hour (5 bits), M: minute bits 5..4
//! byte 1:  M M M M - - - -     M: minute bits 3..0, low nibble unused
//! ```
//!
//! Decoding clamps the hour to 23 and the minute to 59.
use vstd::prelude::*;
use crate::error::Error;

verus! {

/// The latest hour an alarm can ring at.
pub const MAX_HOUR: u8 = 23;

/// The latest minute in an hour.
pub const MAX_MINUTE: u8 = 59;

/// A daily alarm.
#[derive(Debug, Clone, Copy, PartialEq, Eq, Structural)]
pub struct Alarm {
    pub hour: u8,
    pub minute: u8,
    pub enabled: bool,
}

/// The five hour bits of the first byte.
pub open spec fn hour_bits(b0: u8) -> int {
    (b0 as int / 4) % 32
}

/// The six minute bits spread over both bytes.
pub open spec fn minute_bits(b0: u8, b1: u8) -> int {
    (b0 as int % 4) * 16 + b1 as int / 16
}

pub open spec fn clamp(v: int, max: int) -> int {
    if v < max { v } else { max }
}

/// The alarm that two stored bytes decode to.
pub open spec fn decode(b0: u8, b1: u8) -> Alarm {
    Alarm {
        hour: clamp(hour_bits(b0), 23) as u8,
        minute: clamp(minute_bits(b0, b1), 59) as u8,
        enabled: b0 >= 128,
    }
}

/// The first stored byte of an alarm.
pub open spec fn encode_first(a: Alarm) -> u8 {
    ((if a.enabled { 128int } else { 0int }) + (a.hour % 32) * 4 + (a.minute % 64) / 16) as u8
}

/// The second stored byte of an alarm.
pub open spec fn encode_second(a: Alarm) -> u8 {
    ((a.minute % 16) * 16) as u8
}

impl Alarm {
    /// An alarm whose hour and minute name a time of day.
    pub open spec fn is_valid(self) -> bool {
        self.hour <= 23 && self.minute <= 59
    }

    /// An alarm at `hour:minute`, enabled or not.
    pub fn new(hour: u8, minute: u8, enabled: bool) -> (alarm: Self)
        ensures
            alarm == (Alarm { hour, minute, enabled }),
    {
        Alarm { hour, minute, enabled }
    }

    /// Create an [`Alarm`] from 2 bytes.
    pub fn from_bytes(bytes: [&u8; 2]) -> (alarm: Self)
        ensures
            alarm == decode(*bytes[0], *bytes[1]),
            alarm.is_valid(),
    {
        let b0: u8 = *bytes[0];
        let b1: u8 = *bytes[1];
        // Moves the first bit down to the least significant bit
        let enabled = b0 >> 7u8 == 1;
        let hour: u8 = (b0 >> 2u8) & 0b1_1111;
        let word: u16 = ((b0 as u16) << 8u16) | (b1 as u16);
        let minute: u8 = ((word >> 4u16) & 0b0011_1111) as u8;
        assert((b0 >> 7u8 == 1) == (b0 >= 128)) by (bit_vector);
        assert((b0 >> 2u8) & 0b1_1111 == (b0 / 4) % 32) by (bit_vector);
        assert(((((b0 as u16) << 8u16) | (b1 as u16)) >> 4u16) & 0b0011_1111
            == (b0 % 4) * 16 + b1 / 16) by (bit_vector);
        Self {
            hour: if hour < MAX_HOUR { hour } else { MAX_HOUR },
            minute: if minute < MAX_MINUTE { minute } else { MAX_MINUTE },
            enabled,
        }
    }

    /// The 2 bytes that [`Alarm::from_bytes`] decodes back to this alarm.
    ///
    /// Only the low 5 bits of the hour and the low 6 bits of the minute are
    /// stored.
    pub fn to_bytes(&self) -> (bytes: [u8; 2])
        ensures
            bytes[0] == encode_first(*self),
            bytes[1] == encode_second(*self),
    {
        encode_pair(self)
    }
}

/// The 2 bytes an alarm is stored as.
fn encode_pair(alarm: &Alarm) -> (bytes: [u8; 2])
    ensures
        bytes[0] == encode_first(*alarm),
        bytes[1] == encode_second(*alarm),
{
    let flag: u8 = if alarm.enabled { 0b1000_0000 } else { 0 };
    let hour: u8 = alarm.hour;
    let minute: u8 = alarm.minute;
    let b0: u8 = flag | ((hour & 0b1_1111) << 2u8) | ((minute >> 4u8) & 0b11);
    let b1: u8 = (minute & 0b1111) << 4u8;
    assert(flag == 0 || flag == 128);
    assert((flag == 0 || flag == 128) ==> (flag | ((hour & 0b1_1111) << 2u8) | ((minute >> 4u8) & 0b11))
        == flag + (hour % 32) * 4 + (minute % 64) / 16) by (bit_vector);
    assert((minute & 0b1111) << 4u8 == (minute % 16) * 16) by (bit_vector);
    [b0, b1]
}

/// Decoding the bytes an alarm was encoded to gives the alarm back.
pub proof fn lemma_decode_encode(a: Alarm)
    requires
        a.is_valid(),
    ensures
        decode(encode_first(a), encode_second(a)) == a,
{
    let b0 = encode_first(a);
    let b1 = encode_second(a);
    let h = a.hour;
    let m = a.minute;
    assert(b0 / 4 % 32 == h % 32 && b0 >= 128 <==> a.enabled) by {
        if a.enabled {
            assert(b0 == 128 + (h % 32) * 4 + (m % 64) / 16);
        } else {
            assert(b0 == (h % 32) * 4 + (m % 64) / 16);
        }
    }
    assert((b0 % 4) * 16 + b1 / 16 == m % 64) by {
        if a.enabled {
            assert(b0 == 128 + (h % 32) * 4 + (m % 64) / 16);
        } else {
            assert(b0 == (h % 32) * 4 + (m % 64) / 16);
        }
    }
}

/// Re-encoding a decoded alarm loses nothing that decoding reads: the bytes
/// decode to the same alarm again.
pub proof fn lemma_encode_decode_stable(b0: u8, b1: u8)
    ensures
        decode(encode_first(decode(b0, b1)), encode_second(decode(b0, b1))) == decode(b0, b1),
{
    lemma_decode_encode(decode(b0, b1));
}


/// Number of bytes a single [`Alarm`] takes up.
pub const ALARM_SIZE: usize = 2;

/// Maximum number of [`Alarm`]s that can be stored.
pub const MAX_ALARMS: usize = 16;

/// Size of the buffer a stored list of alarms is read into.
pub const BLOB_CAPACITY: usize = 32;

/// The alarms a stored blob holds: one per whole pair of bytes, a trailing
/// odd byte ignored.
pub open spec fn decode_blob(blob: Seq<u8>) -> Seq<Alarm> {
    Seq::new(blob.len() / 2, |i: int| decode(blob[2 * i], blob[2 * i + 1]))
}

/// The blob a list of alarms is stored as.
pub open spec fn encode_list(alarms: Seq<Alarm>) -> Seq<u8> {
    Seq::new(
        alarms.len() * 2,
        |j: int| if j % 2 == 0 { encode_first(alarms[j / 2]) } else { encode_second(alarms[j / 2]) },
    )
}

/// Decodes the alarms stored in a blob, two bytes each.
pub fn alarms_from_blob(blob: &[u8]) -> (alarms: Vec<Alarm>)
    ensures
        alarms@ == decode_blob(blob@),
        forall|i: int| 0 <= i < alarms@.len() ==> (#[trigger] alarms@[i]).is_valid(),
{
    let mut alarms: Vec<Alarm> = Vec::new();
    let len: usize = blob.len();
    let count: usize = len / ALARM_SIZE;
    let mut i: usize = 0;
    while i < count
        invariant
            len == blob@.len(),
            count == blob@.len() / 2,
            i <= count,
            alarms@ == decode_blob(blob@).take(i as int),
        decreases count - i,
    {
        assert(2 * i + 1 < blob@.len());
        let first: usize = i + i;
        let alarm = Alarm::from_bytes([&blob[first], &blob[first + 1]]);
        alarms.push(alarm);
        i = i + 1;
        assert(alarms@ =~= decode_blob(blob@).take(i as int));
    }
    assert(alarms@ =~= decode_blob(blob@));
    alarms
}

/// Encodes a list of alarms for storage; more than [`MAX_ALARMS`] of them do
/// not fit.
pub fn alarms_to_blob(alarms: &[Alarm]) -> (blob: Result<Vec<u8>, Error>)
    ensures
        blob is Err <==> alarms@.len() > MAX_ALARMS,
        blob matches Ok(b) ==> b@ == encode_list(alarms@),
        blob matches Err(e) ==> e == Error::TooManyAlarms,
{
    if alarms.len() > MAX_ALARMS {
        return Err(Error::TooManyAlarms);
    }
    let mut blob: Vec<u8> = Vec::new();
    let mut i: usize = 0;
    while i < alarms.len()
        invariant
            alarms@.len() <= MAX_ALARMS,
            i <= alarms@.len(),
            blob@ == encode_list(alarms@).take(2 * i as int),
        decreases alarms@.len() - i,
    {
        let bytes = alarms[i].to_bytes();
        blob.push(bytes[0]);
        blob.push(bytes[1]);
        i = i + 1;
        assert(blob@ =~= encode_list(alarms@).take(2 * i as int));
    }
    assert(blob@ =~= encode_list(alarms@));
    Ok(blob)
}

/// Storing a list of valid alarms and reading the blob back gives the same
/// list.
pub proof fn lemma_blob_roundtrip(alarms: Seq<Alarm>)
    requires
        forall|i: int| 0 <= i < alarms.len() ==> (#[trigger] alarms[i]).is_valid(),
    ensures
        decode_blob(encode_list(alarms)) == alarms,
{
    let blob = encode_list(alarms);
    assert forall|i: int| 0 <= i < alarms.len() implies decode_blob(blob)[i] == alarms[i] by {
        assert((2 * i) / 2 == i);
        assert((2 * i + 1) / 2 == i);
        assert((2 * i) % 2 == 0);
        assert((2 * i + 1) % 2 == 1);
        lemma_decode_encode(alarms[i]);
    }
    assert(decode_blob(blob) =~= alarms);
}

/// The alarms stored on first boot, when none are stored yet.
pub open spec fn spec_default_alarms() -> Seq<Alarm> {
    seq![
        Alarm { hour: 11, minute: 10, enabled: true },
        Alarm { hour: 15, minute: 15, enabled: false },
        Alarm { hour: 11, minute: 15, enabled: false },
        Alarm { hour: 16, minute: 15, enabled: false },
    ]
}

/// The alarms to store at start up: the defaults when none are stored,
/// nothing when some already are.
pub fn alarms_to_seed(stored: &[Alarm]) -> (seed: Option<Vec<Alarm>>)
    ensures
        stored@.len() == 0 ==> (seed matches Some(v) && v@ == spec_default_alarms()),
        stored@.len() > 0 ==> seed is None,
{
    if stored.len() > 0 {
        return None;
    }
    let alarms = vec![
        Alarm::new(11, 10, true),
        Alarm::new(15, 15, false),
        Alarm::new(11, 15, false),
        Alarm::new(16, 15, false),
    ];
    assert(alarms@ =~= spec_default_alarms());
    Some(alarms)
}

} // verus!
