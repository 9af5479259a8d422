//! Decisions of the TM1637 driven 4 digit seven segment display: what the
//! digits look like, which bytes go on the bus, and what the display memory
//! is known to hold.
//!
//! The bus itself is bit-banged elsewhere; this module says what to send.
use vstd::prelude::*;
use crate::error::Error;
use crate::time::{spec_hour, spec_minute, spec_second, UtcTime};

verus! {

/// Segment patterns of the digits 0 to 9.
pub const DIGITS: [u8; 10] = [
    0b0011_1111,  // 0
    0b0000_0110,  // 1
    0b0101_1011,  // 2
    0b0100_1111,  // 3
    0b0110_0110,  // 4
    0b0110_1101,  // 5
    0b0111_1101,  // 6
    0b0000_0111,  // 7
    0b0111_1111,  // 8
    0b0110_1111,  // 9
];

/// The colon; only wired up on the second digit.
pub const COLON: u8 = 0b1000_0000;

/// A digit with no segment lit.
pub const BLANK: u8 = 0b0000_0000;

/// The outer segments, clockwise from the top, making up one turn of the
/// loading spinner.
pub const SPINNER_FRAMES: [u8; 6] = [
    0b0000_0001,  // top
    0b0000_0010,  // top right
    0b0000_0100,  // bottom right
    0b0000_1000,  // bottom
    0b0001_0000,  // bottom left
    0b0010_0000,  // top left
];

/// How long, in milliseconds, each frame of the loading spinner is shown for.
pub const SPINNER_FRAME_MS: u64 = 100;

/// How long, in milliseconds, the clock waits after a tick it could not time
/// against the clock.
pub const FALLBACK_TICK_MS: u64 = 1000;

/// Number of digits on the display.
pub const DIGIT_COUNT: usize = 4;

/// The brightest the display can be set to.
pub const MAX_BRIGHTNESS: u8 = 7;

/// Write to the display memory, auto incrementing the address after each byte.
pub const CMD_WRITE_AUTO: u8 = 0b0100_0000;

/// Set the address the following data is written to; OR with the address.
pub const CMD_ADDRESS: u8 = 0b1100_0000;

/// Turn the display on; OR with the brightness (0-7).
pub const CMD_DISPLAY_ON: u8 = 0b1000_1000;

/// Turn the display off, leaving the display memory untouched.
pub const CMD_DISPLAY_OFF: u8 = 0b1000_0000;

/// The segments of a digit value; nothing lit for a value above 9.
pub open spec fn spec_digit(num: u8) -> u8 {
    if num < 10 { DIGITS@[num as int] } else { 0 }
}

/// Given a `u8` digit value, returns the corresponding digit segment pattern.
pub fn digit_from_u8(num: u8) -> (segments: u8)
    ensures
        segments == spec_digit(num),
{
    if num < 10 {
        DIGITS[num as usize]
    } else {
        0
    }
}

/// The four digits that show a time, the colon lit when asked.
pub open spec fn spec_time_segments(hour: u8, minute: u8, colon: bool) -> Seq<u8> {
    seq![
        spec_digit(hour / 10),
        spec_digit(hour % 10) | (if colon { COLON } else { BLANK }),
        spec_digit(minute / 10),
        spec_digit(minute % 10),
    ]
}

/// The digit a segment pattern shows, ignoring the colon; `None` for a
/// pattern that is no digit.
pub open spec fn shown_digit(pattern: u8) -> Option<int> {
    let p = pattern & 0b0111_1111;
    if p == 0b0011_1111 {
        Some(0)
    } else if p == 0b0000_0110 {
        Some(1)
    } else if p == 0b0101_1011 {
        Some(2)
    } else if p == 0b0100_1111 {
        Some(3)
    } else if p == 0b0110_0110 {
        Some(4)
    } else if p == 0b0110_1101 {
        Some(5)
    } else if p == 0b0111_1101 {
        Some(6)
    } else if p == 0b0000_0111 {
        Some(7)
    } else if p == 0b0111_1111 {
        Some(8)
    } else if p == 0b0110_1111 {
        Some(9)
    } else {
        None
    }
}

/// Every digit value 0 to 9 shows as itself.
proof fn lemma_digit_shows_itself(n: u8)
    requires
        n < 10,
    ensures
        shown_digit(spec_digit(n)) == Some(n as int),
        shown_digit(spec_digit(n) | COLON) == Some(n as int),
        spec_digit(n) & COLON == 0,
{
    let d = spec_digit(n);
    assert(d == DIGITS@[n as int]);
    assert(d & 0b0111_1111 == d && (d | COLON) & 0b0111_1111 == d && d & COLON == 0 && (d | COLON) & COLON == COLON)
        by (bit_vector)
        requires
            d < 128,
    ;
}

/// A time of day shows as itself: the first two digits read the hour, the
/// last two the minute, and the colon is lit exactly when asked.
pub proof fn lemma_time_reads_back(hour: u8, minute: u8, colon: bool)
    requires
        hour < 100,
        minute < 100,
    ensures
        ({
            let segments = spec_time_segments(hour, minute, colon);
            &&& shown_digit(segments[0]) matches Some(h1)
            &&& shown_digit(segments[1]) matches Some(h0)
            &&& shown_digit(segments[2]) matches Some(m1)
            &&& shown_digit(segments[3]) matches Some(m0)
            &&& h1 * 10 + h0 == hour
            &&& m1 * 10 + m0 == minute
            &&& (segments[1] & COLON != 0) == colon
            &&& segments[0] & COLON == 0
            &&& segments[2] & COLON == 0
            &&& segments[3] & COLON == 0
        }),
{
    lemma_digit_shows_itself(hour / 10);
    lemma_digit_shows_itself(hour % 10);
    lemma_digit_shows_itself(minute / 10);
    lemma_digit_shows_itself(minute % 10);
    let d = spec_digit(hour % 10);
    assert(d & COLON == 0 ==> (d | COLON) & COLON != 0 && (d | BLANK) == d) by (bit_vector);
}

/// The segments that display a time.
pub fn time_segments(hour: u8, minute: u8, colon: bool) -> (segments: [u8; DIGIT_COUNT])
    ensures
        segments@ == spec_time_segments(hour, minute, colon),
{
    let d1 = digit_from_u8(hour / 10);
    let mut d2 = digit_from_u8(hour % 10);
    if colon {
        d2 = d2 | COLON;
    } else {
        assert(d2 | BLANK == d2) by (bit_vector);
    }
    let d3 = digit_from_u8(minute / 10);
    let d4 = digit_from_u8(minute % 10);
    let segments = [d1, d2, d3, d4];
    assert(segments@ =~= spec_time_segments(hour, minute, colon));
    segments
}

/// The clock face for an instant: its hour and minute, the colon lit on even
/// seconds so that it blinks in step with the clock.
pub fn clock_segments(now: &UtcTime) -> (segments: [u8; DIGIT_COUNT])
    ensures
        segments@ == spec_time_segments(
            spec_hour(now@) as u8,
            spec_minute(now@) as u8,
            spec_second(now@) % 2 == 0,
        ),
{
    let hour = now.hour();
    let minute = now.minute();
    // Taken from the clock rather than toggled, so a missed tick cannot
    // leave the colon blinking out of phase with the seconds.
    let colon = now.second() % 2 == 0;
    time_segments(hour, minute, colon)
}

/// One tick of the running clock: the face to show, `None` when the clock
/// could not be read, and how long to wait for the next tick (until the next
/// second boundary, or [`FALLBACK_TICK_MS`] after a failed read).
pub fn clock_tick(now: Option<&UtcTime>) -> (tick: (Option<[u8; DIGIT_COUNT]>, u64))
    ensures
        match now {
            Some(t) => {
                &&& tick.0 matches Some(s) && s@ == spec_time_segments(
                    spec_hour(t@) as u8,
                    spec_minute(t@) as u8,
                    spec_second(t@) % 2 == 0,
                )
                &&& tick.1 == 1000 - t@ % 1000
            },
            None => tick.0 is None && tick.1 == FALLBACK_TICK_MS,
        },
{
    match now {
        Some(t) => (Some(clock_segments(t)), t.until_next_second()),
        // Keep the clock running, the next tick may well read fine.
        None => (None, FALLBACK_TICK_MS),
    }
}

/// Frame `frame` of the loading spinner: a single bar on the last digit,
/// going round clockwise.
pub fn spinner_segments(frame: usize) -> (segments: [u8; DIGIT_COUNT])
    ensures
        segments@ == seq![BLANK, BLANK, BLANK, SPINNER_FRAMES@[(frame % 6) as int]],
{
    let segments = [BLANK, BLANK, BLANK, SPINNER_FRAMES[frame % 6]];
    assert(segments@ =~= seq![BLANK, BLANK, BLANK, SPINNER_FRAMES@[(frame % 6) as int]]);
    segments
}

/// The levels the data line takes to clock out a byte, least significant bit
/// first: `true` for high.
pub fn byte_bits(byte: u8) -> (bits: [bool; 8])
    ensures
        forall|i: int| 0 <= i < 8 ==> #[trigger] bits@[i] == ((byte >> (i as u8)) & 1 == 1),
{
    let mut bits = [false; 8];
    let mut rest: u8 = byte;
    let mut i: usize = 0;
    assert(byte >> 0u8 == byte) by (bit_vector);
    while i < 8
        invariant
            i <= 8,
            rest == byte >> (i as u8),
            forall|j: int| 0 <= j < i ==> #[trigger] bits@[j] == ((byte >> (j as u8)) & 1 == 1),
        decreases 8 - i,
    {
        bits[i] = rest & 1 == 1;
        let ghost k = i as u8;
        assert(k < 8 ==> (byte >> k) >> 1u8 == byte >> ((k + 1) as u8)) by (bit_vector);
        rest = rest >> 1u8;
        i = i + 1;
    }
    bits
}

/// The outcome of a byte's transfer: the TM1637 acknowledges it by pulling
/// the data line low on the ninth clock.
pub fn check_ack(acked: bool) -> (result: Result<(), Error>)
    ensures
        acked ==> result is Ok,
        !acked ==> result == Err::<(), Error>(Error::NotAcknowledged),
{
    if !acked {
        return Err(Error::NotAcknowledged);
    }
    Ok(())
}

/// `first` and `count` name the run of digits from the first to the last at
/// which `old` and `new` differ.
pub open spec fn is_changed_run(old: Seq<u8>, new: Seq<u8>, first: int, count: int) -> bool {
    &&& 0 <= first
    &&& 1 <= count
    &&& first + count <= DIGIT_COUNT
    &&& old[first] != new[first]
    &&& old[first + count - 1] != new[first + count - 1]
    &&& forall|i: int| 0 <= i < first ==> old[i] == new[i]
    &&& forall|i: int| first + count <= i < DIGIT_COUNT ==> old[i] == new[i]
}

/// What `pending` answers: the run of digits, as its address and length, that
/// has to be written for the display to show `segments`.
pub open spec fn pending_ok(shown: Option<[u8; DIGIT_COUNT]>, segments: [u8; DIGIT_COUNT], run: Option<(usize, usize)>) -> bool {
    match shown {
        None => run == Some((0usize, DIGIT_COUNT)),
        Some(old) => {
            &&& (run is None <==> old@ == segments@)
            &&& (run matches Some((first, count)) ==> is_changed_run(old@, segments@, first as int, count as int))
        },
    }
}

/// The first digit at which two displays differ (the last one if none does).
pub open spec fn first_change(old: Seq<u8>, new: Seq<u8>) -> int {
    if old[0] != new[0] { 0 } else if old[1] != new[1] { 1 } else if old[2] != new[2] { 2 } else { 3 }
}

/// The last digit at which two displays differ (the first one if none does).
pub open spec fn last_change(old: Seq<u8>, new: Seq<u8>) -> int {
    if old[3] != new[3] { 3 } else if old[2] != new[2] { 2 } else if old[1] != new[1] { 1 } else { 0 }
}

/// The run of digits, as its address and length, that has to be written for
/// the display to show `segments`: all four while its memory is unknown,
/// none when it already shows them, else from the first to the last digit
/// that differ.
pub open spec fn spec_pending(shown: Option<[u8; DIGIT_COUNT]>, segments: [u8; DIGIT_COUNT]) -> Option<(usize, usize)> {
    match shown {
        None => Some((0usize, DIGIT_COUNT)),
        Some(old) => if old@ == segments@ {
            None
        } else {
            Some((first_change(old@, segments@) as usize,
                (last_change(old@, segments@) - first_change(old@, segments@) + 1) as usize))
        },
    }
}

/// A run of changed digits is the one from the first to the last change.
proof fn lemma_changed_run_unique(old: Seq<u8>, new: Seq<u8>, first: int, count: int)
    requires
        old.len() == DIGIT_COUNT,
        new.len() == DIGIT_COUNT,
        is_changed_run(old, new, first, count),
    ensures
        first == first_change(old, new),
        first + count - 1 == last_change(old, new),
{
}

/// The bytes of the data transfer that writes a run of digits: the address
/// command, then the digits.
pub open spec fn frame_bytes(segments: Seq<u8>, first: int, count: int) -> Seq<u8> {
    seq![CMD_ADDRESS | (first as u8)] + segments.subrange(first, first + count)
}

/// What the driver knows of the display: the brightness it turns on at, and
/// what the display memory holds, `None` when it is unknown because a write
/// failed part way through.
#[derive(Debug, Clone, Copy)]
pub struct DisplayState {
    pub brightness: u8,
    pub shown: Option<[u8; DIGIT_COUNT]>,
}

impl DisplayState {
    /// A display at full brightness whose memory is not known.
    pub fn new() -> (state: Self)
        ensures
            state.brightness == MAX_BRIGHTNESS,
            state.shown is None,
    {
        DisplayState { brightness: MAX_BRIGHTNESS, shown: None }
    }

    /// The command that turns the display on at the current brightness.
    pub fn on_command(&self) -> (command: u8)
        ensures
            command == CMD_DISPLAY_ON | self.brightness,
    {
        CMD_DISPLAY_ON | self.brightness
    }

    /// Sets the brightness, `0` (dimmest) to [`MAX_BRIGHTNESS`], clamped, and
    /// returns the command that turns the display on at it.
    pub fn brightness(&mut self, brightness: u8) -> (command: u8)
        ensures
            final(self).brightness == (if brightness < MAX_BRIGHTNESS { brightness } else { MAX_BRIGHTNESS }),
            final(self).shown == old(self).shown,
            command == CMD_DISPLAY_ON | final(self).brightness,
    {
        self.brightness = if brightness < MAX_BRIGHTNESS { brightness } else { MAX_BRIGHTNESS };
        self.on_command()
    }

    /// The address and length of the run of digits that differ from what the
    /// display is showing, or `None` if it is already showing `segments`.
    pub fn pending(&self, segments: [u8; DIGIT_COUNT]) -> (run: Option<(usize, usize)>)
        ensures
            run == spec_pending(self.shown, segments),
            pending_ok(self.shown, segments, run),
    {
        let shown = match self.shown {
            Some(shown) => shown,
            None => {
                return Some((0, DIGIT_COUNT));
            },
        };
        let mut range: Option<(usize, usize)> = None;
        let mut index: usize = 0;
        while index < DIGIT_COUNT
            invariant
                index <= DIGIT_COUNT,
                self.shown == Some(shown),
                range is None ==> forall|i: int| 0 <= i < index ==> shown@[i] == segments@[i],
                range matches Some((first, last)) ==> {
                    &&& first <= last < index
                    &&& shown@[first as int] != segments@[first as int]
                    &&& shown@[last as int] != segments@[last as int]
                    &&& forall|i: int| 0 <= i < first ==> shown@[i] == segments@[i]
                    &&& forall|i: int| last < i < index ==> shown@[i] == segments@[i]
                },
            decreases DIGIT_COUNT - index,
        {
            if shown[index] != segments[index] {
                range = match range {
                    Some((first, _)) => Some((first, index)),
                    None => Some((index, index)),
                };
            }
            index = index + 1;
        }
        match range {
            Some((first, last)) => {
                proof {
                    lemma_changed_run_unique(shown@, segments@, first as int, (last - first + 1) as int);
                }
                Some((first, last - first + 1))
            },
            None => {
                assert(shown@ =~= segments@);
                None
            },
        }
    }

    /// Starts showing `segments`: returns the bytes of the data transfer that
    /// writes the digits that change, or `None` when nothing has to be sent.
    ///
    /// Anything from here on can fail mid transfer, leaving the display memory
    /// as neither the old nor the new value, so until
    /// [`DisplayState::finish_segments`] the memory counts as unknown.
    pub fn begin_segments(&mut self, segments: [u8; DIGIT_COUNT]) -> (frame: Option<Vec<u8>>)
        ensures
            spec_pending(old(self).shown, segments) is None ==> frame is None && *final(self) == *old(self),
            spec_pending(old(self).shown, segments) matches Some((first, count)) ==> {
                &&& frame matches Some(bytes) && bytes@ == frame_bytes(segments@, first as int, count as int)
                &&& final(self).shown is None
                &&& final(self).brightness == old(self).brightness
            },
    {
        let (first, count) = match self.pending(segments) {
            Some(run) => run,
            None => {
                return None;
            },
        };
        self.shown = None;
        let mut bytes: Vec<u8> = Vec::new();
        bytes.push(CMD_ADDRESS | (first as u8));
        let mut i: usize = first;
        while i < first + count
            invariant
                first + count <= DIGIT_COUNT,
                first <= i <= first + count,
                bytes@ == seq![CMD_ADDRESS | (first as u8)] + segments@.subrange(first as int, i as int),
            decreases first + count - i,
        {
            bytes.push(segments[i]);
            i = i + 1;
            assert(bytes@ =~= seq![CMD_ADDRESS | (first as u8)] + segments@.subrange(first as int, i as int));
        }
        Some(bytes)
    }

    /// Records that the display memory now holds `segments`, after their
    /// transfer went through.
    pub fn finish_segments(&mut self, segments: [u8; DIGIT_COUNT])
        ensures
            final(self).shown == Some(segments),
            final(self).brightness == old(self).brightness,
    {
        self.shown = Some(segments);
    }
}


/// Showing what the display already shows sends nothing on the bus.
pub proof fn lemma_repeat_costs_nothing(segments: [u8; DIGIT_COUNT])
    ensures
        spec_pending(Some(segments), segments) is None,
{
}

/// A change to a single digit, such as a blinking colon, sends that digit
/// alone: one data byte after the address.
pub proof fn lemma_single_digit_change(old: [u8; DIGIT_COUNT], new: [u8; DIGIT_COUNT], digit: int)
    requires
        0 <= digit < DIGIT_COUNT,
        old[digit] != new[digit],
        forall|i: int| 0 <= i < DIGIT_COUNT && i != digit ==> old[i] == new[i],
    ensures
        spec_pending(Some(old), new) == Some((digit as usize, 1usize)),
        frame_bytes(new@, digit, 1).len() == 2,
{
    assert(old@ != new@) by {
        assert(old@[digit] != new@[digit]);
    }
}

/// A blinking colon costs a single byte on the bus: between the same time
/// with and without the colon, only the second digit is rewritten.
pub proof fn lemma_colon_blink(hour: u8, minute: u8, shown_colon: bool)
    ensures
        ({
            let shown = spec_time_segments(hour, minute, shown_colon);
            let next = spec_time_segments(hour, minute, !shown_colon);
            spec_pending(Some([shown[0], shown[1], shown[2], shown[3]]), [next[0], next[1], next[2], next[3]])
                == Some((1usize, 1usize))
        }),
{
    let d = spec_digit(hour % 10);
    assert(d < 128) by {
        if hour % 10 < 10 {
            assert(DIGITS@[(hour % 10) as int] < 128);
        }
    }
    assert(d < 128 ==> d | COLON != d | BLANK) by (bit_vector);
    let shown = spec_time_segments(hour, minute, shown_colon);
    let next = spec_time_segments(hour, minute, !shown_colon);
    let a = [shown[0], shown[1], shown[2], shown[3]];
    let b = [next[0], next[1], next[2], next[3]];
    lemma_single_digit_change(a, b, 1);
}

} // verus!
