use alarm_clock::display::{
    byte_bits, check_ack, clock_tick, digit_from_u8, spinner_segments, time_segments, DisplayState, BLANK,
    CMD_ADDRESS, CMD_DISPLAY_ON, COLON, DIGITS, FALLBACK_TICK_MS, MAX_BRIGHTNESS, SPINNER_FRAMES,
};
use alarm_clock::error::Error;
use alarm_clock::time::from_millis;

#[test]
fn digits() {
    assert_eq!(digit_from_u8(0), 0b0011_1111);
    assert_eq!(digit_from_u8(7), 0b0000_0111);
    assert_eq!(digit_from_u8(10), 0);
    assert_eq!(digit_from_u8(255), 0);
}

#[test]
fn time_with_and_without_colon() {
    assert_eq!(time_segments(12, 34, true), [DIGITS[1], DIGITS[2] | COLON, DIGITS[3], DIGITS[4]]);
    assert_eq!(time_segments(9, 5, false), [DIGITS[0], DIGITS[9], DIGITS[0], DIGITS[5]]);
}

#[test]
fn spinner_goes_round() {
    assert_eq!(spinner_segments(0), [BLANK, BLANK, BLANK, SPINNER_FRAMES[0]]);
    assert_eq!(spinner_segments(5), [BLANK, BLANK, BLANK, 0b0010_0000]);
    assert_eq!(spinner_segments(6), [BLANK, BLANK, BLANK, 0b0000_0001]);
}

#[test]
fn bits_least_significant_first() {
    assert_eq!(byte_bits(0b1010_0001), [true, false, false, false, false, true, false, true]);
    assert_eq!(byte_bits(0), [false; 8]);
}

#[test]
fn ack_or_error() {
    assert!(check_ack(true).is_ok());
    assert!(matches!(check_ack(false), Err(Error::NotAcknowledged)));
}

#[test]
fn brightness_is_clamped() {
    let mut state = DisplayState::new();
    assert_eq!(state.brightness, MAX_BRIGHTNESS);
    assert_eq!(state.on_command(), CMD_DISPLAY_ON | 7);
    assert_eq!(state.brightness(3), CMD_DISPLAY_ON | 3);
    assert_eq!(state.brightness(200), 0b1000_1111);
    assert_eq!(state.brightness, MAX_BRIGHTNESS);
}

#[test]
fn unknown_memory_rewrites_everything() {
    let state = DisplayState::new();
    assert_eq!(state.pending([1, 2, 3, 4]), Some((0, 4)));
}

#[test]
fn pending_covers_the_changed_run() {
    let state = DisplayState { brightness: 7, shown: Some([1, 2, 3, 4]) };
    assert_eq!(state.pending([1, 2, 3, 4]), None);
    assert_eq!(state.pending([1, 9, 3, 4]), Some((1, 1)));
    assert_eq!(state.pending([1, 9, 3, 9]), Some((1, 3)));
    assert_eq!(state.pending([9, 2, 3, 4]), Some((0, 1)));
    assert_eq!(state.pending([1, 2, 3, 9]), Some((3, 1)));
}

#[test]
fn writes_only_what_changed() {
    let mut state = DisplayState::new();
    let first = state.begin_segments([1, 2, 3, 4]).unwrap();
    assert_eq!(first, vec![CMD_ADDRESS, 1, 2, 3, 4]);
    state.finish_segments([1, 2, 3, 4]);
    assert_eq!(state.begin_segments([1, 2, 3, 4]), None);
    assert_eq!(state.shown, Some([1, 2, 3, 4]));
    // A blinking colon costs a single byte.
    let blink = state.begin_segments([1, 2 | COLON, 3, 4]).unwrap();
    assert_eq!(blink, vec![CMD_ADDRESS | 1, 2 | COLON]);
    assert_eq!(state.shown, None);
    // The write did not finish: everything is sent again.
    let again = state.begin_segments([1, 2 | COLON, 3, 4]).unwrap();
    assert_eq!(again.len(), 5);
}

#[test]
fn clock_tick_shows_time_and_waits_for_next_second() {
    // Sun, 11 Sep 2022 18:34:48.250 UTC
    let now = from_millis(1_662_921_288_250).unwrap();
    let (face, wait) = clock_tick(Some(&now));
    assert_eq!(face, Some([DIGITS[1], DIGITS[8] | COLON, DIGITS[3], DIGITS[4]]));
    assert_eq!(wait, 750);
    let odd = from_millis(1_662_921_289_000).unwrap();
    let (face, wait) = clock_tick(Some(&odd));
    assert_eq!(face, Some([DIGITS[1], DIGITS[8], DIGITS[3], DIGITS[4]]));
    assert_eq!(wait, 1000);
    assert_eq!(clock_tick(None), (None, FALLBACK_TICK_MS));
}
