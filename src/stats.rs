//! Display values derived from tick counts: run time and throughput.

use vstd::prelude::*;
use crate::cpu_timer::{clamp_u64, mul_wide};

verus! {

/// Nanoseconds in one second.
pub const NANOS_PER_SECOND: u64 = 1_000_000_000;

/// Nanoseconds taken by `clocks` ticks of a counter running at `frequency`
/// ticks per second; zero when the frequency is unknown (zero).
pub open spec fn nanos_of(clocks: u64, frequency: u64) -> int {
    if frequency == 0 {
        0
    } else {
        clamp_u64(clocks * NANOS_PER_SECOND / (frequency as int))
    }
}

/// Bytes per second for `bytes` processed in `nanos` nanoseconds; zero for an
/// empty duration.
pub open spec fn rate_of(bytes: u64, nanos: u64) -> int {
    if nanos == 0 {
        0
    } else {
        clamp_u64(bytes * NANOS_PER_SECOND / (nanos as int))
    }
}

/// A tick count together with the frequency that turns it into wall time.
#[derive(Copy, Clone)]
pub struct RunTime {
    pub clocks: u64,
    pub cpu_timer_frequency: u64,
}

impl RunTime {
    /// A run time of `clocks` ticks, measured against the frequency estimated
    /// for this run.
    pub fn new(clocks: u64, estimated_frequency: u64) -> (r: RunTime)
        ensures
            r.clocks == clocks,
            r.cpu_timer_frequency == estimated_frequency,
    {
        RunTime { clocks, cpu_timer_frequency: estimated_frequency }
    }

    /// A run time of `clocks` ticks of a counter running at `timer_frequency`.
    pub fn with_timer_frequency(clocks: u64, timer_frequency: u64) -> (r: RunTime)
        ensures
            r.clocks == clocks,
            r.cpu_timer_frequency == timer_frequency,
    {
        RunTime { clocks, cpu_timer_frequency: timer_frequency }
    }

    /// Wall time in nanoseconds (held at `u64::MAX`), zero when the frequency
    /// is unknown.
    pub fn elapsed(&self) -> (r: u64)
        ensures
            r == nanos_of(self.clocks, self.cpu_timer_frequency),
    {
        scale_per_second(self.clocks, self.cpu_timer_frequency)
    }
}

/// An amount of data processed over a run time.
#[derive(Copy, Clone)]
pub struct Throughput {
    pub bytes: u64,
    pub duration_nanos: u64,
}

impl Throughput {
    /// `bytes` processed in the wall time of `duration`.
    pub fn new(bytes: u64, duration: RunTime) -> (r: Throughput)
        ensures
            r.bytes == bytes,
            r.duration_nanos == nanos_of(duration.clocks, duration.cpu_timer_frequency),
    {
        Throughput { bytes, duration_nanos: duration.elapsed() }
    }

    /// Bytes processed per second (held at `u64::MAX`), zero for an empty
    /// duration.
    pub fn bytes_per_second(&self) -> (r: u64)
        ensures
            r == rate_of(self.bytes, self.duration_nanos),
    {
        scale_per_second(self.bytes, self.duration_nanos)
    }
}

/// `amount * 10^9 / per`, held at `u64::MAX`; zero when `per` is zero.
fn scale_per_second(amount: u64, per: u64) -> (r: u64)
    ensures
        r == (if per == 0 { 0 } else { clamp_u64(amount * NANOS_PER_SECOND / (per as int)) }),
{
    if per == 0 {
        return 0;
    }
    let scaled: u128 = mul_wide(amount, NANOS_PER_SECOND) / (per as u128);
    if scaled > u64::MAX as u128 {
        u64::MAX
    } else {
        scaled as u64
    }
}

} // verus!
