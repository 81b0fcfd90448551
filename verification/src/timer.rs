use vstd::prelude::*;
use crate::config::CLOCK_FREQ;

verus! {

/// Number of timer interrupts per second.
pub const TICKS_PER_SEC: u64 = 100;

/// The time in milliseconds at which the clock shows `time` ticks.
pub fn get_time_ms(time: u64) -> (r: u64)
    ensures
        r == time / 12500,
{
    time / (CLOCK_FREQ / 1000)
}

/// The tick at which the next timer interrupt is due, when the clock
/// shows `time` ticks: a hundredth of a second later.
pub fn set_next_trigger(time: u64) -> (r: u64)
    ensures
        r == (time + 125000) % 0x1_0000_0000_0000_0000,
{
    time.wrapping_add(CLOCK_FREQ / TICKS_PER_SEC)
}

} // verus!
