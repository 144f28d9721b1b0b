use peach_profiler::metrics::{Calibration, CALIBRATION_MS};
use peach_profiler::{estimate_cpu_freq, get_os_time_freq, read_os_timer};

#[test]
fn wall_clock_counts_microseconds() {
    assert_eq!(get_os_time_freq(), 1_000_000);
}

#[test]
fn time_of_day_becomes_microseconds() {
    assert_eq!(read_os_timer(0, 0), 0);
    assert_eq!(read_os_timer(1, 5), 1_000_005);
    assert_eq!(read_os_timer(1_700_000_000, 999_999), 1_700_000_000_999_999);
}

#[test]
fn rate_is_cycles_over_wall_time() {
    assert_eq!(estimate_cpu_freq(1_000_000, 300_000_000, 100_000), 3_000_000_000);
}

#[test]
fn rate_is_rounded_down() {
    assert_eq!(estimate_cpu_freq(1_000_000, 10, 3_000_000), 3);
    assert_eq!(estimate_cpu_freq(7, 10, 3), 23);
}

#[test]
fn rate_is_zero_when_the_wall_clock_stood_still() {
    assert_eq!(estimate_cpu_freq(1_000_000, 12345, 0), 0);
}

#[test]
fn rate_survives_a_product_beyond_a_word() {
    assert_eq!(estimate_cpu_freq(u64::MAX, u64::MAX, u64::MAX), u64::MAX);
    assert_eq!(estimate_cpu_freq(1 << 40, 1 << 40, 1 << 30), 1 << 50);
}

#[test]
fn calibration_polls_until_the_window_has_passed() {
    assert_eq!(CALIBRATION_MS, 100);
    let mut calibration = Calibration::begin(1_000_000, 5_000, 2_000_000);
    assert_eq!(calibration.os_wait, 100_000);
    assert_eq!(calibration.os_elapsed, 0);
    assert!(calibration.should_poll());
    assert!(calibration.observe(2_000_000));
    assert!(calibration.observe(2_050_000));
    assert_eq!(calibration.os_elapsed, 50_000);
    assert!(calibration.observe(2_099_999));
    assert!(!calibration.observe(2_100_000));
    assert!(!calibration.should_poll());
    assert_eq!(calibration.os_elapsed, 100_000);
    assert_eq!(calibration.finish(300_005_000), 3_000_000_000);
}

#[test]
fn calibration_with_a_slow_clock_needs_no_poll() {
    let calibration = Calibration::begin(9, 100, 200);
    assert_eq!(calibration.os_wait, 0);
    assert!(!calibration.should_poll());
    assert_eq!(calibration.finish(1_000), 0);
}

#[test]
fn calibration_overshoot_is_used_as_read() {
    let mut calibration = Calibration::begin(1_000, 0, 0);
    assert_eq!(calibration.os_wait, 100);
    assert!(!calibration.observe(250));
    assert_eq!(calibration.finish(1_000), 4_000);
}
