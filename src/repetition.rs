//! The repetition tester: runs a measured region again and again, keeps the
//! fastest, slowest and total run time, and stops once no new fastest run has
//! appeared within a time budget. Misuse of the begin/end protocol is reported
//! as a terminal error state rather than a panic.

use vstd::prelude::*;
use crate::cpu_timer::{clamp_u64, mul_wide};

verus! {

/// Seconds without a new fastest run after which a wave is complete, when the
/// caller does not choose.
pub const DEFAULT_SECONDS_TO_TRY: u64 = 10;

/// Where a wave of tests stands. `Error` and `Completed` are final.
#[derive(Copy, Clone, Debug, PartialEq, Eq, Structural)]
pub enum TestState {
    Testing,
    Error,
    Completed,
}

/// Protocol violations that end a wave in the `Error` state.
#[derive(Copy, Clone, Debug, PartialEq, Eq, Structural)]
pub enum TestError {
    /// The iteration opened a different number of blocks than it closed.
    UnbalancedBlocks,
    /// The bytes counted in the iteration differ from the target.
    ByteCountMismatch,
    /// The ticks measured over the iteration's blocks are negative or do not
    /// fit a `u64`.
    InvalidElapsedTime,
    /// A new wave named another target byte count.
    TargetByteCountChanged,
    /// A new wave named another timer frequency.
    TimerFrequencyChanged,
}

/// Statistics over the runs accepted so far.
#[derive(Copy, Clone, Debug, PartialEq, Eq, Structural)]
pub struct TestResult {
    pub test_count: u64,
    pub total_time: u128,
    pub max_time: u64,
    pub min_time: u64,
    /// Page faults of the fastest run; `None` once a fault reading was
    /// missing, which turns the figure off.
    pub page_faults: Option<u64>,
}

/// Statistics before any run: the minimum starts at `u64::MAX`.
pub open spec fn initial_result() -> TestResult {
    TestResult {
        test_count: 0,
        total_time: 0,
        max_time: 0,
        min_time: u64::MAX,
        page_faults: Some(0),
    }
}

/// Statistics after one more run of `elapsed` ticks with `faults` page faults
/// (`None` when they could not be read).
pub open spec fn fold_iteration(r: TestResult, elapsed: u64, faults: Option<u64>) -> TestResult {
    TestResult {
        test_count: (r.test_count + 1) as u64,
        total_time: (r.total_time + elapsed) as u128,
        max_time: if elapsed > r.max_time { elapsed } else { r.max_time },
        min_time: if elapsed < r.min_time { elapsed } else { r.min_time },
        page_faults: match (r.page_faults, faults) {
            (Some(p), Some(f)) => Some(if elapsed < r.min_time { f } else { p }),
            _ => None,
        },
    }
}

impl Default for TestResult {
    fn default() -> (r: TestResult)
        ensures
            r == initial_result(),
    {
        TestResult {
            test_count: 0,
            total_time: 0,
            max_time: 0,
            min_time: u64::MAX,
            page_faults: Some(0),
        }
    }
}

impl TestResult {
    /// Mean run time in ticks, rounded down; zero before any run.
    pub fn average_time(&self) -> (r: u64)
        requires
            self.total_time <= self.test_count * u64::MAX,
        ensures
            self.test_count == 0 ==> r == 0,
            self.test_count > 0 ==> r == (self.total_time as int) / (self.test_count as int),
    {
        if self.test_count == 0 {
            0
        } else {
            let average: u128 = self.total_time / (self.test_count as u128);
            proof {
                let c = self.test_count as int;
                let t = self.total_time as int;
                assert(t / c <= u64::MAX) by (nonlinear_arith)
                    requires
                        c > 0,
                        0 <= t <= c * u64::MAX,
                ;
            }
            average as u64
        }
    }
}

impl TestResult {
    /// Mean run time in tenths of a tick, rounded down; zero before any run.
    pub fn average_time_tenths(&self) -> (r: u128)
        requires
            self.total_time <= self.test_count * u64::MAX,
        ensures
            self.test_count == 0 ==> r == 0,
            self.test_count > 0 ==> r == (self.total_time as int) * 10 / (self.test_count as int),
    {
        if self.test_count == 0 {
            0
        } else {
            let count = self.test_count as u128;
            let whole = self.total_time / count;
            let rest = self.total_time % count;
            proof {
                let c = count as int;
                let t = self.total_time as int;
                let q = whole as int;
                let m = rest as int;
                vstd::arithmetic::div_mod::lemma_fundamental_div_mod(t, c);
                assert(q <= u64::MAX) by (nonlinear_arith)
                    requires
                        c > 0,
                        0 <= t <= c * u64::MAX,
                        q == t / c,
                ;
                assert(t * 10 / c == 10 * q + m * 10 / c) by (nonlinear_arith)
                    requires
                        c > 0,
                        t == c * q + m,
                        0 <= m < c,
                ;
            }
            whole * 10 + rest * 10 / count
        }
    }
}

/// A fault count clamped into `0..=u64::MAX`: the probe is best-effort, so a
/// count that went down reads as zero.
pub open spec fn fault_delta(begun: int, ended: int) -> u64 {
    if ended < begun {
        0
    } else if ended - begun > u64::MAX {
        u64::MAX
    } else {
        (ended - begun) as u64
    }
}

/// Ticks in a budget of `seconds_to_try` seconds (ten when not given), held at
/// `u64::MAX`.
pub open spec fn budget_ticks(cpu_timer_frequency: u64, seconds_to_try: Option<u64>) -> int {
    clamp_u64(cpu_timer_frequency * seconds_to_try.unwrap_or(DEFAULT_SECONDS_TO_TRY))
}

/// Running total of bytes counted in an iteration; `None` once it passed
/// `u64::MAX`, which no target can equal.
pub open spec fn add_bytes(total: Option<u64>, bytes: u64) -> Option<u64> {
    match total {
        Some(t) => if t + bytes <= u64::MAX {
            Some((t + bytes) as u64)
        } else {
            None
        },
        None => None,
    }
}

/// The abstract state of a repetition tester.
pub ghost struct TesterModel {
    pub target_byte_count: u64,
    pub cpu_timer_frequency: u64,
    /// Ticks without a new fastest run after which the wave is complete.
    pub try_for_time: u64,
    /// Tick of the wave's start or of its latest fastest run.
    pub tests_started_at: u64,
    pub open_block_count: u64,
    pub closed_block_count: u64,
    /// Sums of the tick and page-fault readings taken by `begin` and by `end`
    /// in the current iteration.
    pub ticks_begun: int,
    pub ticks_ended: int,
    pub faults_begun: int,
    pub faults_ended: int,
    /// Whether a fault reading of the iteration was missing.
    pub faults_missing: bool,
    pub bytes_this_test: Option<u64>,
    pub state: TestState,
    pub error: Option<TestError>,
    /// Whether the latest `loop_test` accepted a new fastest run.
    pub new_minimum: bool,
    pub results: TestResult,
}

impl TesterModel {
    pub open spec fn wf(self) -> bool {
        &&& 0 <= self.ticks_begun <= self.open_block_count * u64::MAX
        &&& 0 <= self.ticks_ended <= self.closed_block_count * u64::MAX
        &&& 0 <= self.faults_begun <= self.open_block_count * u64::MAX
        &&& 0 <= self.faults_ended <= self.closed_block_count * u64::MAX
        &&& self.results.total_time <= self.results.test_count * u64::MAX
        &&& (self.state == TestState::Error <==> self.error is Some)
    }

    /// Ticks spent inside the iteration's blocks.
    pub open spec fn time_this_test(self) -> int {
        self.ticks_ended - self.ticks_begun
    }

    /// Page faults inside the iteration's blocks, `None` when a reading was
    /// missing.
    pub open spec fn faults_this_test(self) -> Option<u64> {
        if self.faults_missing {
            None
        } else {
            Some(fault_delta(self.faults_begun, self.faults_ended))
        }
    }

    /// No block opened, closed or counted since the latest iteration ended.
    pub open spec fn between_iterations(self) -> bool {
        &&& self.open_block_count == 0
        &&& self.closed_block_count == 0
        &&& self.ticks_begun == 0
        &&& self.ticks_ended == 0
        &&& self.faults_begun == 0
        &&& self.faults_ended == 0
        &&& !self.faults_missing
        &&& self.bytes_this_test == Some(0u64)
    }

    /// The state after `begin` at tick `ticks` with fault reading `faults`.
    pub open spec fn after_begin(self, ticks: u64, faults: Option<u64>) -> TesterModel {
        TesterModel {
            open_block_count: (self.open_block_count + 1) as u64,
            ticks_begun: self.ticks_begun + ticks,
            faults_begun: self.faults_begun + match faults {
                Some(f) => f as int,
                None => 0,
            },
            faults_missing: self.faults_missing || faults is None,
            ..self
        }
    }

    /// The state after `end` at tick `ticks` with fault reading `faults`.
    pub open spec fn after_end(self, ticks: u64, faults: Option<u64>) -> TesterModel {
        TesterModel {
            closed_block_count: (self.closed_block_count + 1) as u64,
            ticks_ended: self.ticks_ended + ticks,
            faults_ended: self.faults_ended + match faults {
                Some(f) => f as int,
                None => 0,
            },
            faults_missing: self.faults_missing || faults is None,
            ..self
        }
    }

    /// The state after `count_bytes(bytes)`.
    pub open spec fn after_count_bytes(self, bytes: u64) -> TesterModel {
        TesterModel { bytes_this_test: add_bytes(self.bytes_this_test, bytes), ..self }
    }

    /// The protocol violation, if any, of the iteration that just ended.
    pub open spec fn iteration_error(self) -> Option<TestError> {
        if self.open_block_count != self.closed_block_count {
            Some(TestError::UnbalancedBlocks)
        } else if self.bytes_this_test != Some(self.target_byte_count) {
            Some(TestError::ByteCountMismatch)
        } else if !(0 <= self.time_this_test() <= u64::MAX) {
            Some(TestError::InvalidElapsedTime)
        } else {
            None
        }
    }

    /// Whether more than the budget has passed since the latest fastest run.
    pub open spec fn budget_exhausted(self, now: u64) -> bool {
        now > self.tests_started_at && now - self.tests_started_at > self.try_for_time
    }

    /// The state after the checks and the accounting of one iteration, before
    /// the budget is looked at.
    pub open spec fn after_check(self, now: u64) -> TesterModel {
        if self.open_block_count == 0 {
            TesterModel { new_minimum: false, ..self }
        } else {
            match self.iteration_error() {
                Some(e) => TesterModel {
                    state: TestState::Error,
                    error: Some(e),
                    new_minimum: false,
                    ..self
                },
                None => {
                    let elapsed = self.time_this_test() as u64;
                    let faster = elapsed < self.results.min_time;
                    TesterModel {
                        results: fold_iteration(
                            self.results,
                            elapsed,
                            self.faults_this_test(),
                        ),
                        tests_started_at: if faster {
                            now
                        } else {
                            self.tests_started_at
                        },
                        new_minimum: faster,
                        open_block_count: 0,
                        closed_block_count: 0,
                        ticks_begun: 0,
                        ticks_ended: 0,
                        faults_begun: 0,
                        faults_ended: 0,
                        faults_missing: false,
                        bytes_this_test: Some(0),
                        ..self
                    }
                },
            }
        }
    }

    /// The state after `loop_test` at tick `now`.
    pub open spec fn after_loop_test(self, now: u64) -> TesterModel {
        if self.state != TestState::Testing {
            TesterModel { new_minimum: false, ..self }
        } else {
            let next = self.after_check(now);
            if next.state == TestState::Testing && next.budget_exhausted(now) {
                TesterModel { state: TestState::Completed, ..next }
            } else {
                next
            }
        }
    }
}

/// Statistics after the runs `runs`, each a run time in ticks and its page
/// faults, are folded in one after another from `r`.
pub open spec fn fold_runs(r: TestResult, runs: Seq<(u64, Option<u64>)>) -> TestResult
    decreases runs.len(),
{
    if runs.len() == 0 {
        r
    } else {
        fold_iteration(fold_runs(r, runs.drop_last()), runs.last().0, runs.last().1)
    }
}

/// Sum of the run times of `runs`.
pub open spec fn sum_of_times(runs: Seq<(u64, Option<u64>)>) -> int
    decreases runs.len(),
{
    if runs.len() == 0 {
        0
    } else {
        sum_of_times(runs.drop_last()) + runs.last().0
    }
}

/// Folding runs into fresh statistics gives their count, the sum of their
/// times, and their smallest and largest time (`u64::MAX` and zero while
/// there is no run).
pub proof fn lemma_statistics_of_runs(runs: Seq<(u64, Option<u64>)>)
    requires
        runs.len() < u64::MAX,
    ensures
        fold_runs(initial_result(), runs).test_count == runs.len(),
        fold_runs(initial_result(), runs).total_time == sum_of_times(runs),
        forall|i: int|
            0 <= i < runs.len() ==> fold_runs(initial_result(), runs).min_time <= (
            #[trigger] runs[i]).0 <= fold_runs(initial_result(), runs).max_time,
        runs.len() == 0 ==> fold_runs(initial_result(), runs).min_time == u64::MAX
            && fold_runs(initial_result(), runs).max_time == 0,
        runs.len() > 0 ==> exists|i: int|
            0 <= i < runs.len() && fold_runs(initial_result(), runs).min_time == (
            #[trigger] runs[i]).0,
        runs.len() > 0 ==> exists|i: int|
            0 <= i < runs.len() && fold_runs(initial_result(), runs).max_time == (
            #[trigger] runs[i]).0,
        fold_runs(initial_result(), runs).total_time <= runs.len() * u64::MAX,
    decreases runs.len(),
{
    if runs.len() > 0 {
        let prev = runs.drop_last();
        lemma_statistics_of_runs(prev);
        let p = fold_runs(initial_result(), prev);
        let last = runs.last();
        let c = prev.len() as int;
        assert(c * u64::MAX + u64::MAX == (c + 1) * u64::MAX) by (nonlinear_arith);
        assert((c + 1) * u64::MAX <= u64::MAX * u64::MAX) by (nonlinear_arith)
            requires
                c + 1 <= u64::MAX,
        ;
        let r = fold_runs(initial_result(), runs);
        assert forall|i: int| 0 <= i < runs.len() implies r.min_time <= (#[trigger] runs[i]).0
            <= r.max_time by {
            if i < prev.len() {
                assert(runs[i] == prev[i]);
            }
        }
        if prev.len() == 0 {
            assert(runs[0] == last);
        } else {
            let i = choose|i: int| 0 <= i < prev.len() && p.min_time == (#[trigger] prev[i]).0;
            let j = choose|j: int| 0 <= j < prev.len() && p.max_time == (#[trigger] prev[j]).0;
            assert(runs[i] == prev[i]);
            assert(runs[j] == prev[j]);
            assert(runs[runs.len() - 1] == last);
        }
    }
}

/// The readings of one measured block: `begin` at `begin_ticks`, `end` at
/// `end_ticks`, each with the fault count read then (`None` when missing).
pub ghost struct Block {
    pub begin_ticks: u64,
    pub begin_faults: Option<u64>,
    pub end_ticks: u64,
    pub end_faults: Option<u64>,
}

/// One iteration: its blocks, each opened and closed in turn, the byte counts
/// declared in it, and the tick of the `loop_test` that ends it.
pub ghost struct Iteration {
    pub blocks: Seq<Block>,
    pub byte_counts: Seq<u64>,
    pub checked_at: u64,
}

/// Ticks measured by `blocks`: the sum of their run times.
pub open spec fn block_ticks(blocks: Seq<Block>) -> int
    decreases blocks.len(),
{
    if blocks.len() == 0 {
        0
    } else {
        block_ticks(blocks.drop_last()) + (blocks.last().end_ticks - blocks.last().begin_ticks)
    }
}

/// Sums of the fault readings taken when `blocks` opened and when they closed,
/// a missing reading counting as zero.
pub open spec fn faults_read(blocks: Seq<Block>) -> (int, int)
    decreases blocks.len(),
{
    if blocks.len() == 0 {
        (0, 0)
    } else {
        let (b, e) = faults_read(blocks.drop_last());
        let last = blocks.last();
        (
            b + match last.begin_faults {
                Some(f) => f as int,
                None => 0,
            },
            e + match last.end_faults {
                Some(f) => f as int,
                None => 0,
            },
        )
    }
}

/// Whether a fault reading of `blocks` is missing.
pub open spec fn faults_missing_in(blocks: Seq<Block>) -> bool {
    exists|i: int|
        0 <= i < blocks.len() && ((#[trigger] blocks[i]).begin_faults is None
            || blocks[i].end_faults is None)
}

/// Run time and page faults that an iteration measures.
pub open spec fn measured(it: Iteration) -> (u64, Option<u64>) {
    (
        block_ticks(it.blocks) as u64,
        if faults_missing_in(it.blocks) {
            None
        } else {
            Some(fault_delta(faults_read(it.blocks).0, faults_read(it.blocks).1))
        },
    )
}

impl TesterModel {
    /// The state after `blocks` are opened and closed in turn.
    pub open spec fn after_blocks(self, blocks: Seq<Block>) -> TesterModel
        decreases blocks.len(),
    {
        if blocks.len() == 0 {
            self
        } else {
            let b = blocks.last();
            self.after_blocks(blocks.drop_last()).after_begin(b.begin_ticks, b.begin_faults).after_end(
                b.end_ticks,
                b.end_faults,
            )
        }
    }

    /// The state after `count_bytes` with each of `counts` in turn.
    pub open spec fn after_byte_counts(self, counts: Seq<u64>) -> TesterModel
        decreases counts.len(),
    {
        if counts.len() == 0 {
            self
        } else {
            self.after_byte_counts(counts.drop_last()).after_count_bytes(counts.last())
        }
    }

    /// The state after the calls of iteration `it`.
    pub open spec fn after_run(self, it: Iteration) -> TesterModel {
        self.after_blocks(it.blocks).after_byte_counts(it.byte_counts).after_loop_test(it.checked_at)
    }

    /// The state after the iterations `its`, one after another.
    pub open spec fn after_runs(self, its: Seq<Iteration>) -> TesterModel
        decreases its.len(),
    {
        if its.len() == 0 {
            self
        } else {
            self.after_runs(its.drop_last()).after_run(its.last())
        }
    }
}

proof fn lemma_after_blocks(m: TesterModel, blocks: Seq<Block>)
    requires
        m.between_iterations(),
        blocks.len() < u64::MAX,
    ensures
        ({
            let r = m.after_blocks(blocks);
            &&& r.open_block_count == blocks.len()
            &&& r.closed_block_count == blocks.len()
            &&& r.ticks_ended - r.ticks_begun == block_ticks(blocks)
            &&& r.faults_begun == faults_read(blocks).0
            &&& r.faults_ended == faults_read(blocks).1
            &&& r.faults_missing == faults_missing_in(blocks)
            &&& r == (TesterModel {
                open_block_count: r.open_block_count,
                closed_block_count: r.closed_block_count,
                ticks_begun: r.ticks_begun,
                ticks_ended: r.ticks_ended,
                faults_begun: r.faults_begun,
                faults_ended: r.faults_ended,
                faults_missing: r.faults_missing,
                ..m
            })
        }),
    decreases blocks.len(),
{
    if blocks.len() > 0 {
        let prev = blocks.drop_last();
        lemma_after_blocks(m, prev);
        let last = blocks.last();
        if faults_missing_in(prev) {
            let i = choose|i: int|
                0 <= i < prev.len() && ((#[trigger] prev[i]).begin_faults is None
                    || prev[i].end_faults is None);
            assert(blocks[i] == prev[i]);
        }
        if faults_missing_in(blocks) && !faults_missing_in(prev) {
            let i = choose|i: int|
                0 <= i < blocks.len() && ((#[trigger] blocks[i]).begin_faults is None
                    || blocks[i].end_faults is None);
            if i < prev.len() {
                assert(blocks[i] == prev[i]);
            }
        }
        if last.begin_faults is None || last.end_faults is None {
            assert(blocks[blocks.len() - 1] == last);
        }
    } else {
        assert(!faults_missing_in(blocks));
    }
}

proof fn lemma_after_byte_counts(m: TesterModel, counts: Seq<u64>)
    ensures
        m.after_byte_counts(counts) == (TesterModel {
            bytes_this_test: m.after_byte_counts(counts).bytes_this_test,
            ..m
        }),
    decreases counts.len(),
{
    if counts.len() > 0 {
        lemma_after_byte_counts(m, counts.drop_last());
    }
}

proof fn lemma_stopped_run(m: TesterModel, it: Iteration)
    requires
        m.state != TestState::Testing,
    ensures
        m.after_run(it).state != TestState::Testing,
{
    lemma_blocks_keep_state(m, it.blocks);
    lemma_after_byte_counts(m.after_blocks(it.blocks), it.byte_counts);
}

proof fn lemma_blocks_keep_state(m: TesterModel, blocks: Seq<Block>)
    ensures
        m.after_blocks(blocks).state == m.state,
    decreases blocks.len(),
{
    if blocks.len() > 0 {
        lemma_blocks_keep_state(m, blocks.drop_last());
    }
}

/// Iterations that each open and close at least one block.
pub open spec fn each_measures_a_block(its: Seq<Iteration>) -> bool {
    forall|i: int|
        0 <= i < its.len() ==> 1 <= (#[trigger] its[i]).blocks.len() < u64::MAX
}

proof fn lemma_runs_fold_into_results(m: TesterModel, its: Seq<Iteration>)
    requires
        m.state == TestState::Testing,
        m.between_iterations(),
        each_measures_a_block(its),
        m.after_runs(its).state == TestState::Testing,
    ensures
        m.after_runs(its).results == fold_runs(m.results, its.map_values(|it: Iteration| measured(it))),
        m.after_runs(its).between_iterations(),
    decreases its.len(),
{
    let runs = its.map_values(|it: Iteration| measured(it));
    if its.len() == 0 {
        assert(runs.len() == 0);
    } else {
        let prev = its.drop_last();
        let mp = m.after_runs(prev);
        let it = its.last();
        assert(its[its.len() - 1] == it);
        assert forall|i: int| 0 <= i < prev.len() implies 1 <= (#[trigger] prev[i]).blocks.len()
            < u64::MAX by {
            assert(prev[i] == its[i]);
        }
        if mp.state != TestState::Testing {
            lemma_stopped_run(mp, it);
        }
        lemma_runs_fold_into_results(m, prev);
        lemma_after_blocks(mp, it.blocks);
        lemma_after_byte_counts(mp.after_blocks(it.blocks), it.byte_counts);
        assert(runs.drop_last() =~= prev.map_values(|it: Iteration| measured(it)));
        assert(runs.last() == measured(it));
    }
}

/// After `n` iterations from fresh statistics, each with one or more
/// balanced blocks, that leave the tester testing, its statistics count `n`
/// runs, total their run times, and hold their smallest and largest run time.
pub proof fn lemma_tester_statistics(m: TesterModel, its: Seq<Iteration>)
    requires
        m.state == TestState::Testing,
        m.between_iterations(),
        m.results == initial_result(),
        each_measures_a_block(its),
        its.len() < u64::MAX,
        m.after_runs(its).state == TestState::Testing,
    ensures
        m.after_runs(its).results.test_count == its.len(),
        m.after_runs(its).results.total_time == sum_of_times(
            its.map_values(|it: Iteration| measured(it)),
        ),
        forall|i: int|
            0 <= i < its.len() ==> m.after_runs(its).results.min_time <= (
            #[trigger] measured(its[i])).0 <= m.after_runs(its).results.max_time,
        its.len() > 0 ==> exists|i: int|
            0 <= i < its.len() && m.after_runs(its).results.min_time == (
            #[trigger] measured(its[i])).0,
        its.len() > 0 ==> exists|i: int|
            0 <= i < its.len() && m.after_runs(its).results.max_time == (
            #[trigger] measured(its[i])).0,
{
    let runs = its.map_values(|it: Iteration| measured(it));
    lemma_runs_fold_into_results(m, its);
    lemma_statistics_of_runs(runs);
    assert forall|i: int| 0 <= i < its.len() implies #[trigger] measured(its[i]) == runs[i] by {}
    if its.len() > 0 {
        let i = choose|i: int| 0 <= i < runs.len() && m.after_runs(its).results.min_time == (
        #[trigger] runs[i]).0;
        assert(measured(its[i]) == runs[i]);
        let j = choose|j: int| 0 <= j < runs.len() && m.after_runs(its).results.max_time == (
        #[trigger] runs[j]).0;
        assert(measured(its[j]) == runs[j]);
    }
}

/// Drives the iterations of one benchmark target.
pub struct RepetitionTester {
    target_byte_count: u64,
    cpu_timer_frequency: u64,
    try_for_time: u64,
    tests_started_at: u64,
    open_block_count: u64,
    closed_block_count: u64,
    ticks_begun: u128,
    ticks_ended: u128,
    faults_begun: u128,
    faults_ended: u128,
    faults_missing: bool,
    bytes_this_test: Option<u64>,
    state: TestState,
    error: Option<TestError>,
    new_minimum: bool,
    results: TestResult,
}

impl View for RepetitionTester {
    type V = TesterModel;

    closed spec fn view(&self) -> TesterModel {
        TesterModel {
            target_byte_count: self.target_byte_count,
            cpu_timer_frequency: self.cpu_timer_frequency,
            try_for_time: self.try_for_time,
            tests_started_at: self.tests_started_at,
            open_block_count: self.open_block_count,
            closed_block_count: self.closed_block_count,
            ticks_begun: self.ticks_begun as int,
            ticks_ended: self.ticks_ended as int,
            faults_begun: self.faults_begun as int,
            faults_ended: self.faults_ended as int,
            faults_missing: self.faults_missing,
            bytes_this_test: self.bytes_this_test,
            state: self.state,
            error: self.error,
            new_minimum: self.new_minimum,
            results: self.results,
        }
    }
}

/// Ticks in the time budget, held at `u64::MAX`.
fn budget(cpu_timer_frequency: u64, seconds_to_try: Option<u64>) -> (r: u64)
    ensures
        r == budget_ticks(cpu_timer_frequency, seconds_to_try),
{
    let seconds: u64 = match seconds_to_try {
        Some(s) => s,
        None => DEFAULT_SECONDS_TO_TRY,
    };
    let ticks: u128 = mul_wide(cpu_timer_frequency, seconds);
    if ticks > u64::MAX as u128 {
        u64::MAX
    } else {
        ticks as u64
    }
}

/// `a + b` for a sum bounded by `count * u64::MAX` that gains one more term.
fn add_reading(a: u128, b: u64, count: u64) -> (r: u128)
    requires
        a <= count * u64::MAX,
        count < u64::MAX,
    ensures
        r == a + b,
        r <= (count + 1) * u64::MAX,
{
    proof {
        let c = count as int;
        assert(c * u64::MAX + u64::MAX == (c + 1) * u64::MAX) by (nonlinear_arith);
        assert((c + 1) * u64::MAX <= u64::MAX * u64::MAX) by (nonlinear_arith)
            requires
                c < u64::MAX,
        ;
    }
    a + b as u128
}

impl RepetitionTester {
    pub open spec fn wf(&self) -> bool {
        self@.wf()
    }

    /// A tester in the `Testing` state for a target of `target_byte_count`
    /// bytes, with a budget of `seconds_to_try` seconds (ten when not given)
    /// counted from tick `now`.
    pub fn new(
        target_byte_count: u64,
        cpu_timer_frequency: u64,
        seconds_to_try: Option<u64>,
        now: u64,
    ) -> (r: RepetitionTester)
        ensures
            r.wf(),
            r@ == (TesterModel {
                target_byte_count,
                cpu_timer_frequency,
                try_for_time: budget_ticks(cpu_timer_frequency, seconds_to_try) as u64,
                tests_started_at: now,
                open_block_count: 0,
                closed_block_count: 0,
                ticks_begun: 0,
                ticks_ended: 0,
                faults_begun: 0,
                faults_ended: 0,
                faults_missing: false,
                bytes_this_test: Some(0),
                state: TestState::Testing,
                error: None,
                new_minimum: false,
                results: initial_result(),
            }),
    {
        RepetitionTester {
            target_byte_count,
            cpu_timer_frequency,
            try_for_time: budget(cpu_timer_frequency, seconds_to_try),
            tests_started_at: now,
            open_block_count: 0,
            closed_block_count: 0,
            ticks_begun: 0,
            ticks_ended: 0,
            faults_begun: 0,
            faults_ended: 0,
            faults_missing: false,
            bytes_this_test: Some(0),
            state: TestState::Testing,
            error: None,
            new_minimum: false,
            results: TestResult::default(),
        }
    }

    /// Re-arms the tester for another wave from tick `now`, keeping the
    /// statistics gathered so far. A wave for another target byte count or
    /// timer frequency is an error.
    pub fn new_wave(
        &mut self,
        target_byte_count: u64,
        cpu_timer_frequency: u64,
        seconds_to_try: Option<u64>,
        now: u64,
    )
        requires
            old(self).wf(),
        ensures
            final(self).wf(),
            final(self)@ == (TesterModel {
                try_for_time: budget_ticks(cpu_timer_frequency, seconds_to_try) as u64,
                tests_started_at: now,
                state: if target_byte_count != old(self)@.target_byte_count
                    || cpu_timer_frequency != old(self)@.cpu_timer_frequency {
                    TestState::Error
                } else {
                    TestState::Testing
                },
                error: if target_byte_count != old(self)@.target_byte_count {
                    Some(TestError::TargetByteCountChanged)
                } else if cpu_timer_frequency != old(self)@.cpu_timer_frequency {
                    Some(TestError::TimerFrequencyChanged)
                } else {
                    None
                },
                new_minimum: false,
                ..old(self)@
            }),
    {
        self.state = TestState::Testing;
        self.error = None;
        if self.target_byte_count != target_byte_count {
            self.fail(TestError::TargetByteCountChanged);
        } else if self.cpu_timer_frequency != cpu_timer_frequency {
            self.fail(TestError::TimerFrequencyChanged);
        }
        self.try_for_time = budget(cpu_timer_frequency, seconds_to_try);
        self.tests_started_at = now;
        self.new_minimum = false;
    }

    /// Opens a measured block at tick `ticks`, with the process's page-fault
    /// count so far, or `None` when the probe could not read it.
    pub fn begin(&mut self, ticks: u64, faults: Option<u64>)
        requires
            old(self).wf(),
            old(self)@.open_block_count < u64::MAX,
        ensures
            final(self).wf(),
            final(self)@ == old(self)@.after_begin(ticks, faults),
    {
        self.ticks_begun = add_reading(self.ticks_begun, ticks, self.open_block_count);
        match faults {
            Some(f) => {
                self.faults_begun = add_reading(self.faults_begun, f, self.open_block_count);
            },
            None => {
                self.faults_missing = true;
                self.faults_begun = add_reading(self.faults_begun, 0, self.open_block_count);
            },
        }
        self.open_block_count = self.open_block_count + 1;
    }

    /// Closes a measured block at tick `ticks`, with the process's page-fault
    /// count so far, or `None` when the probe could not read it.
    pub fn end(&mut self, ticks: u64, faults: Option<u64>)
        requires
            old(self).wf(),
            old(self)@.closed_block_count < u64::MAX,
        ensures
            final(self).wf(),
            final(self)@ == old(self)@.after_end(ticks, faults),
    {
        self.ticks_ended = add_reading(self.ticks_ended, ticks, self.closed_block_count);
        match faults {
            Some(f) => {
                self.faults_ended = add_reading(self.faults_ended, f, self.closed_block_count);
            },
            None => {
                self.faults_missing = true;
                self.faults_ended = add_reading(self.faults_ended, 0, self.closed_block_count);
            },
        }
        self.closed_block_count = self.closed_block_count + 1;
    }

    /// Declares `bytes` processed in the current iteration.
    pub fn count_bytes(&mut self, bytes: u64)
        requires
            old(self).wf(),
        ensures
            final(self).wf(),
            final(self)@ == old(self)@.after_count_bytes(bytes),
    {
        self.bytes_this_test = match self.bytes_this_test {
            Some(total) => total.checked_add(bytes),
            None => None,
        };
    }

    fn fail(&mut self, error: TestError)
        ensures
            final(self)@ == (TesterModel {
                state: TestState::Error,
                error: Some(error),
                ..old(self)@
            }),
    {
        self.state = TestState::Error;
        self.error = Some(error);
    }

    /// Ends the iteration that is under way, if any, at tick `now`: checks
    /// it, folds its run time into the statistics and notes a new fastest
    /// run; then completes the wave once the budget has passed without one.
    /// Returns whether testing goes on.
    pub fn loop_test(&mut self, now: u64) -> (r: bool)
        requires
            old(self).wf(),
            old(self)@.state == TestState::Testing ==> old(self)@.results.test_count < u64::MAX,
        ensures
            final(self).wf(),
            final(self)@ == old(self)@.after_loop_test(now),
            r == (final(self)@.state == TestState::Testing),
    {
        if self.state != TestState::Testing {
            self.new_minimum = false;
            return false;
        }
        self.new_minimum = false;
        if self.open_block_count > 0 {
            if self.open_block_count != self.closed_block_count {
                self.fail(TestError::UnbalancedBlocks);
            } else if self.bytes_this_test != Some(self.target_byte_count) {
                self.fail(TestError::ByteCountMismatch);
            } else if self.ticks_ended < self.ticks_begun || self.ticks_ended - self.ticks_begun
                > u64::MAX as u128 {
                self.fail(TestError::InvalidElapsedTime);
            } else {
                let elapsed = (self.ticks_ended - self.ticks_begun) as u64;
                let faults: Option<u64> = if self.faults_missing {
                    None
                } else if self.faults_ended < self.faults_begun {
                    Some(0)
                } else if self.faults_ended - self.faults_begun > u64::MAX as u128 {
                    Some(u64::MAX)
                } else {
                    Some((self.faults_ended - self.faults_begun) as u64)
                };
                self.record_run(elapsed, faults, now);
                self.reset_after_iteration();
            }
        }
        if self.state == TestState::Testing && now > self.tests_started_at && now
            - self.tests_started_at > self.try_for_time {
            self.state = TestState::Completed;
        }
        self.state == TestState::Testing
    }

    fn record_run(&mut self, elapsed: u64, faults: Option<u64>, now: u64)
        requires
            old(self).wf(),
            old(self)@.results.test_count < u64::MAX,
        ensures
            final(self)@ == (TesterModel {
                results: fold_iteration(old(self)@.results, elapsed, faults),
                tests_started_at: if elapsed < old(self)@.results.min_time {
                    now
                } else {
                    old(self)@.tests_started_at
                },
                new_minimum: elapsed < old(self)@.results.min_time,
                ..old(self)@
            }),
            final(self)@.results.total_time <= final(self)@.results.test_count * u64::MAX,
    {
        let faster = elapsed < self.results.min_time;
        self.results.total_time = add_reading(
            self.results.total_time,
            elapsed,
            self.results.test_count,
        );
        self.results.test_count = self.results.test_count + 1;
        if elapsed > self.results.max_time {
            self.results.max_time = elapsed;
        }
        self.results.page_faults = match (self.results.page_faults, faults) {
            (Some(p), Some(f)) => Some(if faster { f } else { p }),
            _ => None,
        };
        if faster {
            self.results.min_time = elapsed;
            self.tests_started_at = now;
        }
        self.new_minimum = faster;
    }

    fn reset_after_iteration(&mut self)
        ensures
            final(self)@ == (TesterModel {
                open_block_count: 0,
                closed_block_count: 0,
                ticks_begun: 0,
                ticks_ended: 0,
                faults_begun: 0,
                faults_ended: 0,
                faults_missing: false,
                bytes_this_test: Some(0),
                ..old(self)@
            }),
    {
        self.open_block_count = 0;
        self.closed_block_count = 0;
        self.ticks_begun = 0;
        self.ticks_ended = 0;
        self.faults_begun = 0;
        self.faults_ended = 0;
        self.faults_missing = false;
        self.bytes_this_test = Some(0);
    }

    /// Statistics over the runs accepted so far.
    pub fn results(&self) -> (r: &TestResult)
        requires
            self.wf(),
        ensures
            *r == self@.results,
            r.total_time <= r.test_count * u64::MAX,
    {
        &self.results
    }

    pub fn state(&self) -> (r: TestState)
        ensures
            r == self@.state,
    {
        self.state
    }

    /// The protocol violation that ended the wave, if any.
    pub fn error(&self) -> (r: Option<TestError>)
        ensures
            r == self@.error,
    {
        self.error
    }

    /// Whether the latest `loop_test` accepted a new fastest run.
    pub fn found_new_minimum(&self) -> (r: bool)
        ensures
            r == self@.new_minimum,
    {
        self.new_minimum
    }

    /// Bytes counted in the current iteration; `None` once the count passed
    /// `u64::MAX`.
    pub fn bytes_this_test(&self) -> (r: Option<u64>)
        ensures
            r == self@.bytes_this_test,
    {
        self.bytes_this_test
    }

    /// Blocks opened in the current iteration.
    pub fn open_block_count(&self) -> (r: u64)
        ensures
            r == self@.open_block_count,
    {
        self.open_block_count
    }

    /// Blocks closed in the current iteration.
    pub fn closed_block_count(&self) -> (r: u64)
        ensures
            r == self@.closed_block_count,
    {
        self.closed_block_count
    }

    pub fn target_byte_count(&self) -> (r: u64)
        ensures
            r == self@.target_byte_count,
    {
        self.target_byte_count
    }

    pub fn cpu_timer_frequency(&self) -> (r: u64)
        ensures
            r == self@.cpu_timer_frequency,
    {
        self.cpu_timer_frequency
    }
}

} // verus!
