use instrument::cpu_timer::{
    calibration_window, elapsed_ticks, estimate_cpu_frequency, Calibration, CALIBRATION_MILLIS,
    CALIBRATION_READ_LIMIT,
};
use instrument::stats::{RunTime, Throughput};

#[test]
fn frozen_os_clock_gives_zero_frequency() {
    assert_eq!(estimate_cpu_frequency(24_000_000, 0, 5_000, 77, 77), 0);
    assert_eq!(estimate_cpu_frequency(24_000_000, 0, 5_000, 80, 77), 0);
}

#[test]
fn frequency_scales_os_frequency_by_delta_ratio() {
    assert_eq!(estimate_cpu_frequency(1_000_000, 0, 3_000_000, 0, 1_000), 3_000_000_000);
    assert_eq!(estimate_cpu_frequency(24_000_000, 1_000, 301_000, 500, 2_900_500), 2_482_758);
    assert_eq!(estimate_cpu_frequency(u64::MAX, 0, u64::MAX, 0, 1), u64::MAX);
}

#[test]
fn calibration_window_in_os_ticks() {
    assert_eq!(calibration_window(24_000_000, CALIBRATION_MILLIS), 2_400_000);
    assert_eq!(calibration_window(9, 100), 0);
    assert_eq!(calibration_window(u64::MAX, u64::MAX), u64::MAX);
}

#[test]
fn elapsed_ticks_of_stalled_counter() {
    assert_eq!(elapsed_ticks(10, 25), 15);
    assert_eq!(elapsed_ticks(25, 10), 0);
}

#[test]
fn run_time_in_nanoseconds() {
    let t = RunTime::with_timer_frequency(3_000_000, 3_000_000_000);
    assert_eq!(t.elapsed(), 1_000_000);
    assert_eq!(RunTime::new(7, 0).elapsed(), 0);
    assert_eq!(RunTime::new(u64::MAX, 1).elapsed(), u64::MAX);
}

#[test]
fn throughput_in_bytes_per_second() {
    let second = RunTime::with_timer_frequency(2_000, 2_000);
    let t = Throughput::new(1 << 30, second);
    assert_eq!(t.duration_nanos, 1_000_000_000);
    assert_eq!(t.bytes_per_second(), 1 << 30);
    let half = Throughput::new(1024, RunTime::with_timer_frequency(1, 2));
    assert_eq!(half.bytes_per_second(), 2048);
    assert_eq!(Throughput::new(5, RunTime::with_timer_frequency(0, 2)).bytes_per_second(), 0);
}

#[test]
fn calibration_ends_when_window_passes() {
    let mut c = Calibration::new(1_000_000, 100, 500, 0);
    assert_eq!(c.window, 100_000);
    assert_eq!(c.step(1_000, 50_000), None);
    assert_eq!(c.step(3_000_500, 100_000), Some(30_000_000));
    assert_eq!(c.reads, 2);
}

#[test]
fn calibration_on_frozen_os_clock_ends_with_zero() {
    let mut c = Calibration::new(24_000_000, CALIBRATION_MILLIS, 0, 7);
    assert_eq!(c.step(1_000, 7), None);
    assert_eq!(c.step(u64::MAX, 7), None);
    let mut frozen = Calibration::new(24_000_000, CALIBRATION_MILLIS, 5, 7);
    frozen.reads = CALIBRATION_READ_LIMIT - 1;
    assert_eq!(frozen.step(500, 7), Some(0));
}

#[test]
fn calibration_waits_for_the_whole_window_once_the_os_counter_moves() {
    let mut c = Calibration::new(1_000, 100, 0, 0);
    assert_eq!(c.window, 100);
    c.reads = CALIBRATION_READ_LIMIT + 5;
    assert_eq!(c.step(10_000_000_000, 99), None);
    assert_eq!(c.step(20_000, 100), Some(200_000));
    c.reads = u64::MAX;
    assert_eq!(c.step(20_000, 1), None);
    assert_eq!(c.reads, u64::MAX);
}
