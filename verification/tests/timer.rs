use haversine_core::timer::{
    cpu_timer_frequency, elapsed, get_os_timer_frequency, os_timer_ticks, wait_ticks,
};

#[test]
fn os_timer_counts_microseconds() {
    assert_eq!(get_os_timer_frequency(), 1_000_000);
}

#[test]
fn os_timer_ticks_of_a_time_of_day() {
    assert_eq!(os_timer_ticks(0, 0), Some(0));
    assert_eq!(os_timer_ticks(3, 250_000), Some(3_250_000));
    assert_eq!(os_timer_ticks(1_700_000_000, 999_999), Some(1_700_000_000_999_999));
    assert_eq!(os_timer_ticks(u64::MAX / 1_000_000, 551_615), Some(u64::MAX));
}

#[test]
fn os_timer_ticks_that_do_not_fit() {
    assert_eq!(os_timer_ticks(u64::MAX / 1_000_000, 551_616), None);
    assert_eq!(os_timer_ticks(u64::MAX / 1_000_000 + 1, 0), None);
    assert_eq!(os_timer_ticks(u64::MAX, u64::MAX), None);
}

#[test]
fn elapsed_ticks() {
    assert_eq!(elapsed(10, 25), Some(15));
    assert_eq!(elapsed(25, 25), Some(0));
    assert_eq!(elapsed(26, 25), None);
}

#[test]
fn wait_ticks_round_down() {
    assert_eq!(wait_ticks(1_000_000, 100), Some(100_000));
    assert_eq!(wait_ticks(1_000_000, 0), Some(0));
    assert_eq!(wait_ticks(1_999, 1), Some(1));
    assert_eq!(wait_ticks(999, 1), Some(0));
    assert_eq!(wait_ticks(u64::MAX, 2), None);
}

#[test]
fn cpu_frequency_from_both_timers() {
    assert_eq!(cpu_timer_frequency(1_000_000, 300_000_000, 100_000), Some(3_000_000_000));
    assert_eq!(cpu_timer_frequency(1_000_000, 7, 3), Some(2_333_333));
    assert_eq!(cpu_timer_frequency(1_000_000, 0, 100_000), Some(0));
}

#[test]
fn cpu_frequency_without_elapsed_time_is_zero() {
    assert_eq!(cpu_timer_frequency(1_000_000, 300_000_000, 0), Some(0));
    assert_eq!(cpu_timer_frequency(u64::MAX, u64::MAX, 0), Some(0));
}

#[test]
fn cpu_frequency_that_does_not_fit() {
    assert_eq!(cpu_timer_frequency(1_000_000, u64::MAX, 1), None);
}
