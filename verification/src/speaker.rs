//! The speaker's duty cycles: a square wave at 50% duty is full volume.
use vstd::prelude::*;

verus! {

/// How long, in milliseconds, an alarm sounds when no duration is given.
pub const DEFAULT_ALARM_MS: u64 = 5 * 60 * 1000;

/// How long, in milliseconds, each beep of an alarm lasts.
pub const BEEP_MS: u32 = 250;

/// How long, in milliseconds, the silence between two beeps lasts.
pub const GAP_MS: u32 = 250;

/// The duty cycle of 100% volume: half the channel's maximum duty.
pub fn full_duty(max_duty: u32) -> (duty: u32)
    ensures
        duty == max_duty / 2,
{
    max_duty / 2
}

/// The duty cycle for a volume in percent, clamped to 100.
pub fn volume_duty(full_duty: u32, percent: u8) -> (duty: u32)
    ensures
        ({
            let p = if percent < 100 { percent as int } else { 100int };
            let product = full_duty * p;
            duty == (if product > u32::MAX { u32::MAX as int } else { product }) / 100
        }),
        duty <= full_duty,
        percent == 0 ==> duty == 0,
        percent >= 100 && full_duty <= 42_949_672 ==> duty == full_duty,
{
    let percent: u32 = if percent < 100 { percent as u32 } else { 100 };
    assert(full_duty as u64 * percent as u64 <= 0xffff_ffff * 100) by (nonlinear_arith)
        requires
            percent <= 100,
    ;
    let product: u64 = full_duty as u64 * percent as u64;
    let saturated: u32 = if product > u32::MAX as u64 { u32::MAX } else { product as u32 };
    assert(saturated as int / 100 <= full_duty) by (nonlinear_arith)
        requires
            saturated as int <= full_duty as int * percent as int,
            percent <= 100,
    ;
    assert(percent == 0 ==> product == 0) by (nonlinear_arith)
        requires
            product == full_duty as int * percent as int,
    ;
    assert(percent == 100 && full_duty <= 42_949_672 ==> product == full_duty as int * 100 && product <= u32::MAX)
        by (nonlinear_arith)
        requires
            product == full_duty as int * percent as int,
    ;
    saturated / 100
}

/// How long an alarm sounds: the given duration, or [`DEFAULT_ALARM_MS`].
pub fn alarm_duration_ms(duration_ms: Option<u64>) -> (ms: u64)
    ensures
        ms == match duration_ms {
            Some(d) => d,
            None => DEFAULT_ALARM_MS,
        },
{
    match duration_ms {
        Some(d) => d,
        None => DEFAULT_ALARM_MS,
    }
}

/// One beep of an alarm: full volume for [`BEEP_MS`], then silence for
/// [`GAP_MS`], as (volume in percent, milliseconds) steps.
pub open spec fn spec_beep() -> Seq<(u8, u32)> {
    seq![(100u8, BEEP_MS), (0u8, GAP_MS)]
}

/// The next beep of an alarm that has sounded for `elapsed_ms` of its
/// `duration_ms`: its volume and delay steps, or `None` once the duration has
/// passed.
pub fn alarm_step(elapsed_ms: u64, duration_ms: u64) -> (beep: Option<[(u8, u32); 2]>)
    ensures
        elapsed_ms < duration_ms ==> (beep matches Some(steps) && steps@ == spec_beep()),
        elapsed_ms >= duration_ms ==> beep is None,
{
    if elapsed_ms < duration_ms {
        let steps = [(100u8, BEEP_MS), (0u8, GAP_MS)];
        assert(steps@ =~= spec_beep());
        Some(steps)
    } else {
        None
    }
}

} // verus!
