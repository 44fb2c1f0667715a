use vstd::prelude::*;

verus! {

/// Ticks of the operating-system timer in one second.
pub const OS_TIMER_FREQUENCY: u64 = 1000000;

/// The frequency of the operating-system timer: one tick is a microsecond.
pub fn get_os_timer_frequency() -> (frequency: u64)
    ensures
        frequency == OS_TIMER_FREQUENCY,
{
    OS_TIMER_FREQUENCY
}

/// The reading of the operating-system timer for a time of day given in
/// whole seconds and microseconds: `seconds` times the timer frequency plus
/// `microseconds`, or `None` where that does not fit in 64 bits.
pub fn os_timer_ticks(seconds: u64, microseconds: u64) -> (ticks: Option<u64>)
    ensures
        match ticks {
            Some(t) => t == seconds * OS_TIMER_FREQUENCY + microseconds,
            None => seconds * OS_TIMER_FREQUENCY + microseconds > u64::MAX,
        },
{
    match seconds.checked_mul(get_os_timer_frequency()) {
        Some(whole) => whole.checked_add(microseconds),
        None => None,
    }
}

/// The ticks between two readings of a timer, or `None` where the second
/// reading lies before the first.
pub fn elapsed(start: u64, end: u64) -> (ticks: Option<u64>)
    ensures
        match ticks {
            Some(t) => t == end - start,
            None => end < start,
        },
{
    end.checked_sub(start)
}

/// The ticks of a timer of `frequency` ticks a second in `milliseconds`,
/// rounded down, or `None` where the product does not fit in 64 bits.
pub fn wait_ticks(frequency: u64, milliseconds: u64) -> (ticks: Option<u64>)
    ensures
        match ticks {
            Some(t) => t == (frequency * milliseconds) / 1000,
            None => frequency * milliseconds > u64::MAX,
        },
{
    match frequency.checked_mul(milliseconds) {
        Some(product) => Some(product / 1000),
        None => None,
    }
}

/// The frequency of the processor's counter, estimated from what both timers
/// counted over the same interval: `os_frequency * cpu_elapsed / os_elapsed`,
/// rounded down. It is 0 where the operating-system timer did not advance,
/// and `None` where the product does not fit in 64 bits.
pub fn cpu_timer_frequency(os_frequency: u64, cpu_elapsed: u64, os_elapsed: u64) -> (frequency:
    Option<u64>)
    ensures
        os_elapsed == 0 ==> frequency == Some(0u64),
        os_elapsed > 0 ==> match frequency {
            Some(f) => f == (os_frequency * cpu_elapsed) / (os_elapsed as int),
            None => os_frequency * cpu_elapsed > u64::MAX,
        },
{
    if os_elapsed > 0 {
        match os_frequency.checked_mul(cpu_elapsed) {
            Some(product) => Some(product / os_elapsed),
            None => None,
        }
    } else {
        Some(0)
    }
}

} // verus!
