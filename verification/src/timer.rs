use vstd::prelude::*;
use crate::sbi::{set_timer, set_timer_call, SbiCall};

verus! {

pub const MICRO_PER_SEC: usize = 1_000_000;

/// Timer interrupts per second.
pub const TICKS_PER_SEC: usize = 1000;

/// Microseconds for a reading `time` of the `time` register, on a clock of
/// `clock_freq` Hz.
pub fn get_time_us(time: usize, clock_freq: usize) -> (r: usize)
    requires
        clock_freq >= MICRO_PER_SEC,
    ensures
        r == time / (clock_freq / 1_000_000),
{
    time / (clock_freq / MICRO_PER_SEC)
}

/// The call that programs the next timer interrupt one tick after `now`,
/// on a clock of `clock_freq` Hz.
pub fn timer_next_triger(now: usize, clock_freq: usize) -> (r: SbiCall)
    requires
        now + clock_freq / 1000 <= usize::MAX,
    ensures
        r == set_timer_call((now + clock_freq / 1000) as usize),
{
    set_timer(now + clock_freq / TICKS_PER_SEC)
}

} // verus!
