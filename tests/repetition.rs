use instrument::repetition::{RepetitionTester, TestError, TestResult, TestState};

fn run(tester: &mut RepetitionTester, at: u64, delta: u64, bytes: u64) -> bool {
    tester.begin(at, Some(0));
    tester.count_bytes(bytes);
    tester.end(at + delta, Some(0));
    tester.loop_test(at + delta)
}

#[test]
fn statistics_of_five_iterations() {
    let mut tester = RepetitionTester::new(1024, 1_000_000, Some(10), 0);
    assert!(tester.loop_test(0));
    let mut at = 0;
    for delta in [50, 40, 45, 60, 42] {
        assert!(run(&mut tester, at, delta, 1024));
        at += 100;
    }
    let r = tester.results();
    assert_eq!(r.min_time, 40);
    assert_eq!(r.max_time, 60);
    assert_eq!(r.total_time, 237);
    assert_eq!(r.test_count, 5);
    assert_eq!(r.average_time(), 47);
    assert_eq!(r.average_time_tenths(), 474);
    let average = r.total_time as f64 / r.test_count as f64;
    assert_eq!(format!("{average:.1}"), "47.4");
}

#[test]
fn byte_count_short_of_target_is_an_error() {
    let mut tester = RepetitionTester::new(100, 1000, None, 0);
    assert!(tester.loop_test(0));
    assert!(!run(&mut tester, 10, 5, 99));
    assert_eq!(tester.state(), TestState::Error);
    assert_eq!(tester.error(), Some(TestError::ByteCountMismatch));
    assert!(!tester.loop_test(20));
    assert_eq!(tester.results().test_count, 0);
    assert_eq!(tester.bytes_this_test(), Some(99));
}

#[test]
fn begin_twice_without_end_is_an_error() {
    let mut tester = RepetitionTester::new(8, 1000, None, 0);
    tester.begin(1, Some(0));
    tester.begin(2, Some(0));
    tester.count_bytes(8);
    assert!(!tester.loop_test(3));
    assert_eq!(tester.state(), TestState::Error);
    assert_eq!(tester.error(), Some(TestError::UnbalancedBlocks));
}

#[test]
fn several_blocks_in_one_iteration_add_up() {
    let mut tester = RepetitionTester::new(10, 1000, None, 0);
    tester.begin(100, Some(3));
    tester.count_bytes(4);
    tester.end(130, Some(5));
    tester.begin(200, Some(5));
    tester.count_bytes(6);
    tester.end(212, Some(9));
    assert!(tester.loop_test(215));
    assert!(tester.found_new_minimum());
    let r = tester.results();
    assert_eq!(r.min_time, 42);
    assert_eq!(r.page_faults, Some(6));
    assert_eq!(r.test_count, 1);
}

#[test]
fn end_before_begin_is_an_error() {
    let mut tester = RepetitionTester::new(1, 1000, None, 0);
    tester.begin(500, Some(0));
    tester.count_bytes(1);
    tester.end(400, Some(0));
    assert!(!tester.loop_test(600));
    assert_eq!(tester.error(), Some(TestError::InvalidElapsedTime));
}

#[test]
fn completes_when_budget_passes_without_new_minimum() {
    let mut tester = RepetitionTester::new(1, 10, Some(2), 0);
    assert!(run(&mut tester, 0, 5, 1));
    assert!(tester.found_new_minimum());
    assert!(run(&mut tester, 10, 7, 1));
    assert!(!tester.found_new_minimum());
    assert!(tester.loop_test(25));
    assert!(!tester.loop_test(26));
    assert_eq!(tester.state(), TestState::Completed);
    assert_eq!(tester.error(), None);
    assert!(!tester.loop_test(1000));
}

#[test]
fn new_minimum_restarts_the_budget() {
    let mut tester = RepetitionTester::new(1, 10, Some(1), 0);
    assert!(run(&mut tester, 0, 9, 1));
    assert!(run(&mut tester, 8, 3, 1));
    assert!(tester.loop_test(21));
    assert!(!tester.loop_test(22));
}

#[test]
fn new_wave_keeps_statistics() {
    let mut tester = RepetitionTester::new(4, 10, Some(1), 0);
    assert!(run(&mut tester, 0, 6, 4));
    assert!(!tester.loop_test(100));
    assert_eq!(tester.state(), TestState::Completed);
    tester.new_wave(4, 10, Some(1), 200);
    assert_eq!(tester.state(), TestState::Testing);
    assert!(run(&mut tester, 200, 8, 4));
    let r = tester.results();
    assert_eq!(r.test_count, 2);
    assert_eq!(r.min_time, 6);
    assert_eq!(r.max_time, 8);
}

#[test]
fn new_wave_with_other_target_is_an_error() {
    let mut tester = RepetitionTester::new(4, 10, None, 0);
    tester.new_wave(5, 10, None, 1);
    assert_eq!(tester.state(), TestState::Error);
    assert_eq!(tester.error(), Some(TestError::TargetByteCountChanged));
    assert!(!tester.loop_test(2));
    tester.new_wave(4, 11, None, 3);
    assert_eq!(tester.error(), Some(TestError::TimerFrequencyChanged));
    tester.new_wave(4, 10, None, 4);
    assert_eq!(tester.state(), TestState::Testing);
    assert_eq!(tester.target_byte_count(), 4);
    assert_eq!(tester.cpu_timer_frequency(), 10);
}

#[test]
fn byte_count_overflow_never_matches() {
    let mut tester = RepetitionTester::new(u64::MAX, 10, None, 0);
    tester.begin(0, Some(0));
    tester.count_bytes(u64::MAX);
    tester.count_bytes(1);
    tester.end(1, Some(0));
    assert!(!tester.loop_test(2));
    assert_eq!(tester.error(), Some(TestError::ByteCountMismatch));
}

#[test]
fn fresh_statistics() {
    let r = TestResult::default();
    assert_eq!(r.test_count, 0);
    assert_eq!(r.min_time, u64::MAX);
    assert_eq!(r.max_time, 0);
    assert_eq!(r.average_time(), 0);
    assert_eq!(r.average_time_tenths(), 0);
    assert_eq!(r.page_faults, Some(0));
}

#[test]
fn idle_loop_test_changes_nothing() {
    let mut tester = RepetitionTester::new(3, 1_000, None, 50);
    assert!(tester.loop_test(60));
    assert_eq!(tester.results().test_count, 0);
    assert!(tester.loop_test(10_050));
    assert!(!tester.loop_test(10_051));
    assert_eq!(tester.state(), TestState::Completed);
}

#[test]
fn missing_fault_reading_turns_fault_figure_off() {
    let mut tester = RepetitionTester::new(2, 1000, None, 0);
    tester.begin(10, Some(4));
    tester.count_bytes(2);
    tester.end(20, Some(9));
    assert!(tester.loop_test(21));
    assert_eq!(tester.results().page_faults, Some(5));
    tester.begin(30, None);
    tester.count_bytes(2);
    tester.end(33, Some(12));
    assert!(tester.loop_test(34));
    let r = tester.results();
    assert_eq!(r.min_time, 3);
    assert_eq!(r.page_faults, None);
    tester.begin(40, Some(12));
    tester.count_bytes(2);
    tester.end(41, Some(13));
    assert!(tester.loop_test(42));
    assert_eq!(tester.results().min_time, 1);
    assert_eq!(tester.results().page_faults, None);
}

#[test]
fn fault_count_that_went_down_reads_as_zero() {
    let mut tester = RepetitionTester::new(1, 1000, None, 0);
    tester.begin(10, Some(9));
    tester.count_bytes(1);
    tester.end(20, Some(4));
    assert!(tester.loop_test(21));
    assert_eq!(tester.results().page_faults, Some(0));
}

#[test]
fn average_in_tenths_rounds_down() {
    let mut tester = RepetitionTester::new(1, 1000, None, 0);
    let mut at = 0;
    for delta in [10, 10, 11] {
        assert!(run(&mut tester, at, delta, 1));
        at += 20;
    }
    assert_eq!(tester.results().average_time(), 10);
    assert_eq!(tester.results().average_time_tenths(), 103);
}
