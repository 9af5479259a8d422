use alarm_clock::dial::{rotary_level, rotary_step, Dial, Event, DEBOUNCE_MS, REST};

fn turn_through(dial: &mut Dial, levels: &[u8]) -> Vec<Event> {
    levels.iter().filter_map(|level| dial.turn(*level)).collect()
}

#[test]
fn rotary_level_packs_contacts() {
    assert_eq!(rotary_level(false, false), 0);
    assert_eq!(rotary_level(false, true), 1);
    assert_eq!(rotary_level(true, false), 2);
    assert_eq!(rotary_level(true, true), REST);
}

#[test]
fn rotary_step_table() {
    assert_eq!(rotary_step(3, 1), 1);
    assert_eq!(rotary_step(1, 3), -1);
    assert_eq!(rotary_step(0, 3), 0);
    assert_eq!(rotary_step(2, 2), 0);
    assert_eq!(rotary_step(4, 1), 0);
    assert_eq!(rotary_step(1, 9), 0);
}

#[test]
fn full_clockwise_detent() {
    let mut dial = Dial::new(REST, false, 0);
    assert_eq!(turn_through(&mut dial, &[1, 0, 2, 3]), vec![Event::Clockwise]);
    assert_eq!(dial.steps, 0);
}

#[test]
fn full_anticlockwise_detent() {
    let mut dial = Dial::new(REST, false, 0);
    assert_eq!(turn_through(&mut dial, &[2, 0, 1, 3]), vec![Event::Anticlockwise]);
}

#[test]
fn half_detent_counts() {
    let mut dial = Dial::new(REST, false, 0);
    // Two quarter steps clockwise, then a jump back to rest that skips a state.
    assert_eq!(turn_through(&mut dial, &[1, 0, 3]), vec![Event::Clockwise]);
}

#[test]
fn bounce_cancels_out() {
    let mut dial = Dial::new(REST, false, 0);
    assert!(turn_through(&mut dial, &[1, 3, 1, 0, 1, 3]).is_empty());
    assert_eq!(dial.steps, 0);
    assert_eq!(dial.rotary, REST);
}

#[test]
fn steps_kept_between_detents() {
    let mut dial = Dial::new(REST, false, 0);
    assert_eq!(dial.turn(1), None);
    assert_eq!(dial.steps, 1);
    assert_eq!(dial.turn(0), None);
    assert_eq!(dial.steps, 2);
}

#[test]
fn key_press_needs_debounce() {
    let mut dial = Dial::new(REST, false, 100);
    assert_eq!(dial.wait_ms(100), None);
    assert_eq!(dial.press(true, 1000), None);
    assert_eq!(dial.key_changed_at, 1000);
    assert_eq!(dial.wait_ms(1005), Some(15));
    assert_eq!(dial.press(true, 1000 + DEBOUNCE_MS - 1), None);
    assert_eq!(dial.press(true, 1000 + DEBOUNCE_MS), Some(Event::Pressed));
    assert_eq!(dial.wait_ms(2000), None);
    assert_eq!(dial.press(true, 3000), None);
    assert_eq!(dial.press(false, 3000), None);
    assert_eq!(dial.wait_ms(3100), Some(0));
    assert_eq!(dial.press(false, 3100), Some(Event::Released));
}

#[test]
fn key_bounce_is_ignored() {
    let mut dial = Dial::new(REST, false, 0);
    assert_eq!(dial.press(true, 10), None);
    assert_eq!(dial.press(false, 15), None);
    assert_eq!(dial.press(false, 100), None);
    assert_eq!(dial.reported_key, false);
}

#[test]
fn bounce_between_quarter_steps_restores_count() {
    let mut dial = Dial::new(REST, false, 0);
    assert_eq!(dial.turn(1), None);
    assert_eq!(dial.turn(0), None);
    assert_eq!(dial.steps, 2);
    assert_eq!(dial.turn(1), None);
    assert_eq!(dial.turn(0), None);
    assert_eq!(dial.steps, 2);
}

#[test]
fn turns_over_a_run_of_readings() {
    // Two detents clockwise, a bounce, then one anticlockwise.
    let mut dial = Dial::new(REST, false, 0);
    let levels = [1, 0, 2, 3, 1, 0, 2, 3, 1, 3, 2, 0, 1, 3];
    assert_eq!(turn_through(&mut dial, &levels), vec![Event::Clockwise, Event::Clockwise, Event::Anticlockwise]);
}

#[test]
fn key_events_alternate_over_readings() {
    let mut dial = Dial::new(REST, false, 0);
    let readings = [(true, 0), (true, 30), (true, 60), (false, 70), (true, 75), (false, 80), (false, 200), (false, 300)];
    let events: Vec<Event> = readings.iter().filter_map(|(level, t)| dial.press(*level, *t)).collect();
    assert_eq!(events, vec![Event::Pressed, Event::Released]);
}
