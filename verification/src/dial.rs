//! Decisions of the EC11 rotary encoder with push key: turning the contact
//! levels into detent turns, and debouncing the key.
//!
//! The pins are read elsewhere; each reading is handed to a [`Dial`], which
//! answers with the [`Event`] it completes, if any.
use vstd::prelude::*;

verus! {

/// Level of both rotary contacts while the dial rests in a detent, as pulled up.
pub const REST: u8 = 0b11;

/// How long, in milliseconds, the key has to hold a level before it counts
/// as pressed or released.
pub const DEBOUNCE_MS: u64 = 20;

/// Steps between two readings of the rotary contacts, indexed by the previous
/// then the current `s1 << 1 | s2` level. Transitions that skip a state are
/// contact bounce and count as nothing.
pub const STEPS: [[i8; 4]; 4] = [[0, -1, 1, 0], [1, 0, 0, -1], [-1, 0, 0, 1], [0, 1, -1, 0]];

/// Something the user did to the dial.
#[derive(Debug, Clone, Copy, PartialEq, Eq, Structural)]
pub enum Event {
    Anticlockwise,
    Clockwise,
    Pressed,
    Released,
}

/// The step from one contact level to the next: `1` a quarter step
/// clockwise, `-1` anticlockwise, `0` no change or a skipped state.
pub open spec fn spec_step(prev: u8, cur: u8) -> int {
    if prev == 0 {
        if cur == 1 { -1 } else if cur == 2 { 1 } else { 0 }
    } else if prev == 1 {
        if cur == 0 { 1 } else if cur == 3 { -1 } else { 0 }
    } else if prev == 2 {
        if cur == 0 { -1 } else if cur == 3 { 1 } else { 0 }
    } else if prev == 3 {
        if cur == 1 { 1 } else if cur == 2 { -1 } else { 0 }
    } else {
        0
    }
}

/// Saturates a sum of steps to the range of an `i8`.
pub open spec fn saturate_i8(v: int) -> int {
    if v < -128 { -128 } else if v > 127 { 127 } else { v }
}

/// Level of the rotary contacts as `s1 << 1 | s2`.
pub fn rotary_level(s1_high: bool, s2_high: bool) -> (level: u8)
    ensures
        level == (if s1_high { 2int } else { 0int }) + (if s2_high { 1int } else { 0int }),
        level < 4,
{
    let s1: u8 = if s1_high { 1 } else { 0 };
    let s2: u8 = if s2_high { 1 } else { 0 };
    assert((s1 == 0 || s1 == 1) && (s2 == 0 || s2 == 1) ==> (s1 << 1u8) | s2 == s1 * 2 + s2)
        by (bit_vector);
    (s1 << 1u8) | s2
}

/// The step between two readings of the rotary contacts, looked up in
/// [`STEPS`]; levels outside the table count as no step.
pub fn rotary_step(prev: u8, current: u8) -> (step: i8)
    ensures
        step == spec_step(prev, current),
        step == rotary_step_value(prev, current),
{
    if prev < 4 && current < 4 {
        let row: [i8; 4] = STEPS[prev as usize];
        row[current as usize]
    } else {
        0
    }
}

/// What the dial has seen so far.
#[derive(Debug, Clone, Copy, PartialEq, Eq, Structural)]
pub struct Dial {
    /// The last level of the rotary contacts.
    pub rotary: u8,
    /// Quarter steps counted since the dial last rested in a detent.
    pub steps: i8,
    /// The last level of the key, `true` while pressed.
    pub key: bool,
    /// The key level last reported by an event.
    pub reported_key: bool,
    /// When, in milliseconds, the key last changed level.
    pub key_changed_at: u64,
}

/// The dial after a reading of the rotary contacts.
pub open spec fn turned(d: Dial, current: u8) -> Dial {
    Dial {
        rotary: current,
        steps: if current == REST { 0 } else { saturate_i8(d.steps + spec_step(d.rotary, current)) as i8 },
        key: d.key,
        reported_key: d.reported_key,
        key_changed_at: d.key_changed_at,
    }
}

/// The turn a reading of the rotary contacts completes: only once the dial is
/// back in a detent, and only for at least half a detent of net steps.
pub open spec fn turn_event(d: Dial, current: u8) -> Option<Event> {
    let sum = saturate_i8(d.steps + spec_step(d.rotary, current));
    if current != REST {
        None
    } else if sum <= -2 {
        Some(Event::Anticlockwise)
    } else if sum >= 2 {
        Some(Event::Clockwise)
    } else {
        None
    }
}

/// Milliseconds from `from` to `now`, zero if `now` is earlier.
pub open spec fn elapsed(from: u64, now: u64) -> int {
    if now >= from { now - from } else { 0 }
}

/// The dial after a reading of the key at `now` milliseconds.
pub open spec fn pressed_state(d: Dial, pressed: bool, now: u64) -> Dial {
    let changed = pressed != d.key;
    let changed_at = if changed { now } else { d.key_changed_at };
    let settled = pressed != d.reported_key && elapsed(changed_at, now) >= DEBOUNCE_MS;
    Dial {
        rotary: d.rotary,
        steps: d.steps,
        key: pressed,
        reported_key: if settled { pressed } else { d.reported_key },
        key_changed_at: changed_at,
    }
}

/// The key event a reading of the key reports: the new level, once it has
/// held for [`DEBOUNCE_MS`] and differs from the level last reported.
pub open spec fn press_event(d: Dial, pressed: bool, now: u64) -> Option<Event> {
    let changed_at = if pressed != d.key { now } else { d.key_changed_at };
    if pressed != d.reported_key && elapsed(changed_at, now) >= DEBOUNCE_MS {
        Some(if pressed { Event::Pressed } else { Event::Released })
    } else {
        None
    }
}

impl Dial {
    /// A dial resting at the given levels, the key's level taken as reported.
    pub fn new(rotary: u8, pressed: bool, now_ms: u64) -> (dial: Dial)
        ensures
            dial == (Dial {
                rotary,
                steps: 0,
                key: pressed,
                reported_key: pressed,
                key_changed_at: now_ms,
            }),
    {
        Dial { rotary, steps: 0, key: pressed, reported_key: pressed, key_changed_at: now_ms }
    }

    /// How long to sleep before the next reading: `None` to wait for an edge,
    /// else the time left until a changed key has settled.
    pub fn wait_ms(&self, now_ms: u64) -> (wait: Option<u64>)
        ensures
            wait is None <==> self.key == self.reported_key,
            wait matches Some(w) ==> w == (if elapsed(self.key_changed_at, now_ms) >= DEBOUNCE_MS {
                0
            } else {
                DEBOUNCE_MS - elapsed(self.key_changed_at, now_ms)
            }),
    {
        if self.key == self.reported_key {
            None
        } else {
            Some(DEBOUNCE_MS.saturating_sub(now_ms.saturating_sub(self.key_changed_at)))
        }
    }

    /// Takes a reading of the rotary contacts and returns the turn it
    /// completes, if any.
    pub fn turn(&mut self, current: u8) -> (event: Option<Event>)
        ensures
            *final(self) == turned(*old(self), current),
            event == turn_event(*old(self), current),
    {
        let step: i8 = rotary_step(self.rotary, current);
        let sum: i16 = self.steps as i16 + step as i16;
        let steps: i8 = if sum < -128 {
            -128
        } else if sum > 127 {
            127
        } else {
            sum as i8
        };
        self.rotary = current;
        // Only count a turn once the dial is back in a detent, so bouncing
        // between two states cancels itself out.
        if current == REST {
            self.steps = 0;
            if steps <= -2 {
                Some(Event::Anticlockwise)
            } else if steps >= 2 {
                Some(Event::Clockwise)
            } else {
                None
            }
        } else {
            self.steps = steps;
            None
        }
    }

    /// Takes a reading of the key at `now_ms` and returns the press or release
    /// it settles, if any.
    pub fn press(&mut self, pressed: bool, now_ms: u64) -> (event: Option<Event>)
        ensures
            *final(self) == pressed_state(*old(self), pressed, now_ms),
            event == press_event(*old(self), pressed, now_ms),
    {
        if pressed != self.key {
            self.key = pressed;
            self.key_changed_at = now_ms;
        }
        if self.key != self.reported_key && now_ms.saturating_sub(self.key_changed_at) >= DEBOUNCE_MS {
            self.reported_key = self.key;
            Some(if self.key { Event::Pressed } else { Event::Released })
        } else {
            None
        }
    }
}

/// Going from one level to another and back again counts as no step.
pub proof fn lemma_step_reverse(a: u8, b: u8)
    ensures
        spec_step(a, b) == -spec_step(b, a),
{
}

/// Where a contact level stands in the quadrature cycle that turning the
/// dial clockwise runs through: `0b11` (the detent), `0b01`, `0b00`, `0b10`,
/// and back to the detent.
pub open spec fn cycle_position(level: u8) -> int {
    if level == 3 { 0 } else if level == 1 { 1 } else if level == 0 { 2 } else { 3 }
}

/// Every move to the next level of the quadrature cycle is a quarter step
/// clockwise, every move to the previous level a quarter step anticlockwise,
/// and staying put or skipping a level (contact bounce) counts as nothing.
pub proof fn lemma_quadrature_steps(a: u8, b: u8)
    requires
        a < 4,
        b < 4,
    ensures
        spec_step(a, b) == (if (cycle_position(a) + 1) % 4 == cycle_position(b) {
            1int
        } else if (cycle_position(b) + 1) % 4 == cycle_position(a) {
            -1int
        } else {
            0int
        }),
        rotary_step_value(a, b) == spec_step(a, b),
{
}

/// The step [`rotary_step`] answers for two levels, read from [`STEPS`].
pub open spec fn rotary_step_value(prev: u8, current: u8) -> int {
    if prev < 4 && current < 4 {
        STEPS@[prev as int]@[current as int] as int
    } else {
        0
    }
}

/// From a detent, two quarter steps in one direction and a return to the
/// detent report a turn that way, whichever two levels they pass through.
pub proof fn lemma_two_quarter_steps_turn(d: Dial, a: u8, b: u8)
    requires
        d.rotary == REST,
        d.steps == 0,
        a < 4,
        b < 4,
    ensures
        (cycle_position(a) == 1 && cycle_position(b) == 2) ==>
            turn_event(turned(turned(d, a), b), REST) == Some(Event::Clockwise),
        (cycle_position(a) == 3 && cycle_position(b) == 2) ==>
            turn_event(turned(turned(d, a), b), REST) == Some(Event::Anticlockwise),
        turn_event(d, a) is None || a == REST,
{
    lemma_quadrature_steps(REST, a);
    lemma_quadrature_steps(a, b);
    lemma_quadrature_steps(b, REST);
}

/// After any reading the dial keeps no steps while it rests in a detent.
pub proof fn lemma_rest_clears_steps(d: Dial, current: u8)
    ensures
        turned(d, current).rotary == REST ==> turned(d, current).steps == 0,
{
}

/// Bouncing out of a detent and straight back into it reports no turn.
pub proof fn lemma_bounce_reports_nothing(d: Dial, other: u8)
    requires
        d.rotary == REST,
        d.steps == 0,
    ensures
        turn_event(turned(d, other), REST) is None,
{
    lemma_step_reverse(REST, other);
}

/// Bouncing between two levels away from a detent leaves the count of steps
/// where it was.
pub proof fn lemma_bounce_cancels(d: Dial, other: u8)
    requires
        d.rotary != REST,
        other != REST,
        -100 <= d.steps <= 100,
    ensures
        turned(turned(d, other), d.rotary).steps == d.steps,
{
    lemma_step_reverse(d.rotary, other);
}

/// A key event is reported only for a level that has held for the debounce
/// time, and reports the level that was not reported before: presses and
/// releases alternate.
pub proof fn lemma_key_events_alternate(d: Dial, pressed: bool, now: u64)
    ensures
        press_event(d, pressed, now) matches Some(e) ==> {
            &&& pressed_state(d, pressed, now).reported_key != d.reported_key
            &&& (e == Event::Pressed) == pressed_state(d, pressed, now).reported_key
            &&& elapsed(pressed_state(d, pressed, now).key_changed_at, now) >= DEBOUNCE_MS
        },
        press_event(d, pressed, now) is None ==> pressed_state(d, pressed, now).reported_key
            == d.reported_key,
{
}


/// The dial after a run of readings of the rotary contacts.
pub open spec fn turned_all(d: Dial, levels: Seq<u8>) -> Dial
    decreases levels.len(),
{
    if levels.len() == 0 {
        d
    } else {
        turned(turned_all(d, levels.drop_last()), levels.last())
    }
}

/// The turn events a run of readings reports, one per reading.
pub open spec fn turn_events(d: Dial, levels: Seq<u8>) -> Seq<Option<Event>>
    decreases levels.len(),
{
    if levels.len() == 0 {
        seq![]
    } else {
        turn_events(d, levels.drop_last()).push(turn_event(turned_all(d, levels.drop_last()), levels.last()))
    }
}

/// The saturating sum of the steps over a run of levels, starting from
/// `steps` after the level `prev`.
pub open spec fn step_sum(steps: int, prev: u8, levels: Seq<u8>) -> int
    decreases levels.len(),
{
    if levels.len() == 0 {
        steps
    } else {
        let before = levels.drop_last();
        let from = if before.len() == 0 { prev } else { before.last() };
        saturate_i8(step_sum(steps, prev, before) + spec_step(from, levels.last()))
    }
}

/// The turn a sum of steps makes once the dial is back in a detent.
pub open spec fn detent_event(sum: int) -> Option<Event> {
    if sum <= -2 {
        Some(Event::Anticlockwise)
    } else if sum >= 2 {
        Some(Event::Clockwise)
    } else {
        None
    }
}

/// The index of the last reading before `k` at which the dial rested in a
/// detent, or -1 if none did.
pub open spec fn last_rest_before(levels: Seq<u8>, k: int) -> int
    decreases k,
{
    if k <= 0 {
        -1
    } else if levels[k - 1] == REST {
        k - 1
    } else {
        last_rest_before(levels, k - 1)
    }
}

/// The steps counted since the last detent before reading `k`, with the
/// reading itself: from the dial's own count and level if it has not rested
/// since, else from zero at the detent.
pub open spec fn steps_since_rest(d: Dial, levels: Seq<u8>, k: int) -> int {
    let j = last_rest_before(levels, k);
    let start = if j < 0 { d.steps as int } else { 0 };
    let prev = if j < 0 { d.rotary } else { REST };
    step_sum(start, prev, levels.subrange(j + 1, k + 1))
}

proof fn lemma_last_rest_bounds(levels: Seq<u8>, k: int)
    requires
        0 <= k <= levels.len(),
    ensures
        -1 <= last_rest_before(levels, k) < k,
        last_rest_before(levels, k) >= 0 ==> levels[last_rest_before(levels, k)] == REST,
        forall|m: int| last_rest_before(levels, k) < m < k ==> levels[m] != REST,
    decreases k,
{
    if k > 0 && levels[k - 1] != REST {
        lemma_last_rest_bounds(levels, k - 1);
    }
}

proof fn lemma_step_sum_range(steps: int, prev: u8, levels: Seq<u8>)
    requires
        -128 <= steps <= 127,
    ensures
        -128 <= step_sum(steps, prev, levels) <= 127,
    decreases levels.len(),
{
    if levels.len() > 0 {
        lemma_step_sum_range(steps, prev, levels.drop_last());
    }
}

/// The dial after the first `n` readings: at the last level read, with the
/// steps counted since its last detent.
proof fn lemma_turned_prefix(d: Dial, levels: Seq<u8>, n: int)
    requires
        0 <= n <= levels.len(),
    ensures
        turned_all(d, levels.take(n)).rotary == (if n == 0 { d.rotary } else { levels[n - 1] }),
        ({
            let j = last_rest_before(levels, n);
            let start = if j < 0 { d.steps as int } else { 0 };
            let prev = if j < 0 { d.rotary } else { REST };
            turned_all(d, levels.take(n)).steps == step_sum(start, prev, levels.subrange(j + 1, n))
        }),
    decreases n,
{
    lemma_last_rest_bounds(levels, n);
    if n == 0 {
        assert(levels.take(0) =~= Seq::<u8>::empty());
        assert(levels.subrange(0, 0) =~= Seq::<u8>::empty());
    } else {
        lemma_turned_prefix(d, levels, n - 1);
        lemma_last_rest_bounds(levels, n - 1);
        assert(levels.take(n).drop_last() =~= levels.take(n - 1));
        let j = last_rest_before(levels, n);
        let start = if j < 0 { d.steps as int } else { 0 };
        let prev = if j < 0 { d.rotary } else { REST };
        if levels[n - 1] == REST {
            assert(levels.subrange(j + 1, n) =~= Seq::<u8>::empty());
        } else {
            let run = levels.subrange(j + 1, n);
            assert(run.drop_last() =~= levels.subrange(j + 1, n - 1));
            assert(run.last() == levels[n - 1]);
            lemma_step_sum_range(start, prev, run.drop_last());
            if run.drop_last().len() > 0 {
                assert(run.drop_last().last() == levels[n - 2]);
            }
        }
    }
}

proof fn lemma_turn_events_index(d: Dial, levels: Seq<u8>, k: int)
    requires
        0 <= k < levels.len(),
    ensures
        turn_events(d, levels).len() == levels.len(),
        turn_events(d, levels)[k] == turn_event(turned_all(d, levels.take(k)), levels[k]),
    decreases levels.len(),
{
    let before = levels.drop_last();
    if k < levels.len() - 1 {
        lemma_turn_events_index(d, before, k);
        assert(before.take(k) =~= levels.take(k));
    } else {
        assert(before =~= levels.take(k));
        if before.len() > 0 {
            lemma_turn_events_index(d, before, 0);
        } else {
            assert(turn_events(d, before).len() == 0);
        }
    }
}

/// Over any run of readings, a turn is reported only at a reading back in a
/// detent, and then it is decided by the saturating sum of the steps since
/// the dial last rested: clockwise from two quarter steps on, anticlockwise
/// from two back; fewer, as a bounce back into the same detent, report
/// nothing.
pub proof fn lemma_turns_over_readings(d: Dial, levels: Seq<u8>, k: int)
    requires
        0 <= k < levels.len(),
    ensures
        turn_events(d, levels).len() == levels.len(),
        levels[k] != REST ==> turn_events(d, levels)[k] is None,
        levels[k] == REST ==> turn_events(d, levels)[k] == detent_event(steps_since_rest(d, levels, k)),
{
    lemma_turn_events_index(d, levels, k);
    lemma_turned_prefix(d, levels, k);
    lemma_last_rest_bounds(levels, k);
    let j = last_rest_before(levels, k);
    let start = if j < 0 { d.steps as int } else { 0 };
    let prev = if j < 0 { d.rotary } else { REST };
    let run = levels.subrange(j + 1, k + 1);
    assert(run.drop_last() =~= levels.subrange(j + 1, k));
    assert(run.last() == levels[k]);
    if run.drop_last().len() > 0 {
        assert(run.drop_last().last() == levels[k - 1]);
    }
}

/// The dial after a run of readings of the key, each a level and a time.
pub open spec fn pressed_all(d: Dial, readings: Seq<(bool, u64)>) -> Dial
    decreases readings.len(),
{
    if readings.len() == 0 {
        d
    } else {
        pressed_state(pressed_all(d, readings.drop_last()), readings.last().0, readings.last().1)
    }
}

/// The key events a run of readings reports, one per reading.
pub open spec fn press_events(d: Dial, readings: Seq<(bool, u64)>) -> Seq<Option<Event>>
    decreases readings.len(),
{
    if readings.len() == 0 {
        seq![]
    } else {
        press_events(d, readings.drop_last()).push(
            press_event(pressed_all(d, readings.drop_last()), readings.last().0, readings.last().1),
        )
    }
}

proof fn lemma_press_events_index(d: Dial, readings: Seq<(bool, u64)>, k: int)
    requires
        0 <= k < readings.len(),
    ensures
        press_events(d, readings).len() == readings.len(),
        press_events(d, readings)[k] == press_event(pressed_all(d, readings.take(k)), readings[k].0, readings[k].1),
        pressed_all(d, readings.take(k + 1)) == pressed_state(pressed_all(d, readings.take(k)), readings[k].0, readings[k].1),
    decreases readings.len(),
{
    let before = readings.drop_last();
    assert(readings.take(k + 1).drop_last() =~= readings.take(k));
    if k < readings.len() - 1 {
        lemma_press_events_index(d, before, k);
        assert(before.take(k) =~= readings.take(k));
    } else {
        assert(before =~= readings.take(k));
        if before.len() > 0 {
            lemma_press_events_index(d, before, 0);
        }
    }
}

/// Without an event among readings `i` to `j - 1`, the reported key level
/// does not change.
proof fn lemma_reported_unchanged(d: Dial, readings: Seq<(bool, u64)>, i: int, j: int)
    requires
        0 <= i <= j <= readings.len(),
        forall|m: int| i <= m < j ==> press_events(d, readings)[m] is None,
    ensures
        pressed_all(d, readings.take(j)).reported_key == pressed_all(d, readings.take(i)).reported_key,
    decreases j - i,
{
    if j > i {
        lemma_reported_unchanged(d, readings, i, j - 1);
        lemma_press_events_index(d, readings, j - 1);
        lemma_key_events_alternate(pressed_all(d, readings.take(j - 1)), readings[j - 1].0, readings[j - 1].1);
    }
}

/// Over any run of readings, key events alternate: the first reports the
/// level the dial had not reported, and two events with none between them
/// are never the same.
pub proof fn lemma_key_events_alternate_over_readings(d: Dial, readings: Seq<(bool, u64)>, i: int, j: int)
    requires
        0 <= i < j < readings.len(),
        press_events(d, readings)[i] is Some,
        press_events(d, readings)[j] is Some,
        forall|m: int| i < m < j ==> press_events(d, readings)[m] is None,
    ensures
        press_events(d, readings)[i] != press_events(d, readings)[j],
{
    lemma_press_events_index(d, readings, i);
    lemma_press_events_index(d, readings, j);
    lemma_key_events_alternate(pressed_all(d, readings.take(i)), readings[i].0, readings[i].1);
    lemma_key_events_alternate(pressed_all(d, readings.take(j)), readings[j].0, readings[j].1);
    lemma_reported_unchanged(d, readings, i + 1, j);
}

/// The first key event of a run reports the level the dial had not reported.
pub proof fn lemma_first_key_event(d: Dial, readings: Seq<(bool, u64)>, j: int)
    requires
        0 <= j < readings.len(),
        press_events(d, readings)[j] is Some,
        forall|m: int| 0 <= m < j ==> press_events(d, readings)[m] is None,
    ensures
        (press_events(d, readings)[j] == Some(Event::Pressed)) == !d.reported_key,
{
    lemma_press_events_index(d, readings, j);
    lemma_key_events_alternate(pressed_all(d, readings.take(j)), readings[j].0, readings[j].1);
    lemma_reported_unchanged(d, readings, 0, j);
    assert(readings.take(0) =~= Seq::<(bool, u64)>::empty());
}

/// Since when the key has read its current level after the first `n`
/// readings: either it never changed and every reading matched the dial's
/// level, or it changed at some reading `c` and every reading since has the
/// level read at `c`.
pub open spec fn stable_since(d: Dial, readings: Seq<(bool, u64)>, n: int) -> bool {
    let s = pressed_all(d, readings.take(n));
    ||| (s.key_changed_at == d.key_changed_at && s.key == d.key
        && forall|m: int| 0 <= m < n ==> readings[m].0 == d.key)
    ||| exists|c: int| 0 <= c < n && s.key_changed_at == readings[c].1 && s.key == readings[c].0
        && forall|m: int| c <= m < n ==> #[trigger] readings[m].0 == readings[c].0
}

proof fn lemma_stable_since(d: Dial, readings: Seq<(bool, u64)>, n: int)
    requires
        0 <= n <= readings.len(),
    ensures
        stable_since(d, readings, n),
    decreases n,
{
    if n == 0 {
        assert(readings.take(0) =~= Seq::<(bool, u64)>::empty());
    } else {
        lemma_stable_since(d, readings, n - 1);
        lemma_press_events_index(d, readings, n - 1);
        let prev = pressed_all(d, readings.take(n - 1));
        let s = pressed_all(d, readings.take(n));
        if readings[n - 1].0 != prev.key {
            assert(forall|m: int| n - 1 <= m < n ==> #[trigger] readings[m].0 == readings[n - 1].0);
        } else if prev.key_changed_at == d.key_changed_at && prev.key == d.key
            && forall|m: int| 0 <= m < n - 1 ==> readings[m].0 == d.key {
            assert(forall|m: int| 0 <= m < n ==> readings[m].0 == d.key);
        } else {
            let c = choose|c: int| 0 <= c < n - 1 && prev.key_changed_at == readings[c].1
                && prev.key == readings[c].0
                && forall|m: int| c <= m < n - 1 ==> #[trigger] readings[m].0 == readings[c].0;
            assert(forall|m: int| c <= m < n ==> #[trigger] readings[m].0 == readings[c].0);
        }
    }
}

/// Over any run of readings, a key event reports the level of its reading,
/// and is sent only once the key has read that level at every reading since
/// it last changed, for at least [`DEBOUNCE_MS`].
pub proof fn lemma_key_events_debounced(d: Dial, readings: Seq<(bool, u64)>, k: int)
    requires
        0 <= k < readings.len(),
        press_events(d, readings)[k] is Some,
    ensures
        (press_events(d, readings)[k] == Some(Event::Pressed)) == readings[k].0,
        stable_since(d, readings, k + 1),
        pressed_all(d, readings.take(k + 1)).key == readings[k].0,
        elapsed(pressed_all(d, readings.take(k + 1)).key_changed_at, readings[k].1) >= DEBOUNCE_MS,
{
    lemma_press_events_index(d, readings, k);
    lemma_stable_since(d, readings, k + 1);
}

} // verus!
