//! Arithmetic on timer readings: elapsed ticks and the estimate of the CPU
//! counter's frequency against the OS counter.

use vstd::prelude::*;

verus! {

/// Length of the calibration window, in milliseconds, used when estimating the
/// CPU counter's frequency.
pub const CALIBRATION_MILLIS: u64 = 100;

/// Ticks between two readings of a counter; a counter that did not advance
/// (or went backwards) gives zero.
pub open spec fn ticks_between(start: u64, end: u64) -> nat {
    if end > start {
        (end - start) as nat
    } else {
        0
    }
}

/// `value` held at `u64::MAX` when it does not fit.
pub open spec fn clamp_u64(value: int) -> int {
    if value > u64::MAX {
        u64::MAX as int
    } else {
        value
    }
}

/// CPU ticks per second: `os_frequency * cpu_elapsed / os_elapsed`, or zero
/// when the OS counter did not advance.
pub open spec fn frequency_estimate(os_frequency: u64, cpu_elapsed: nat, os_elapsed: nat) -> int {
    if os_elapsed == 0 {
        0
    } else {
        clamp_u64(os_frequency * cpu_elapsed / (os_elapsed as int))
    }
}

/// OS ticks in a window of `millis` milliseconds.
pub open spec fn window_ticks(os_frequency: u64, millis: u64) -> int {
    clamp_u64(os_frequency * millis / 1000int)
}

/// Ticks elapsed from `start` to `end`, zero when the counter did not advance.
pub fn elapsed_ticks(start: u64, end: u64) -> (r: u64)
    ensures
        r == ticks_between(start, end),
{
    if end > start {
        end - start
    } else {
        0
    }
}

/// Number of OS ticks the calibration has to wait for a window of `millis`
/// milliseconds, given the OS counter's fixed frequency.
pub fn calibration_window(os_frequency: u64, millis: u64) -> (r: u64)
    ensures
        r == window_ticks(os_frequency, millis),
{
    let product: u128 = mul_wide(os_frequency, millis);
    let ticks: u128 = product / 1000;
    if ticks > u64::MAX as u128 {
        u64::MAX
    } else {
        ticks as u64
    }
}

/// Estimates the CPU counter's frequency from readings of the CPU and OS
/// counters taken at both ends of a calibration window: the OS frequency
/// scaled by the ratio of the two deltas. An OS counter that did not advance
/// gives zero; nothing is ever divided by zero.
pub fn estimate_cpu_frequency(
    os_frequency: u64,
    cpu_start: u64,
    cpu_end: u64,
    os_start: u64,
    os_end: u64,
) -> (r: u64)
    ensures
        r == frequency_estimate(
            os_frequency,
            ticks_between(cpu_start, cpu_end),
            ticks_between(os_start, os_end),
        ),
        os_end <= os_start ==> r == 0,
{
    let cpu_elapsed = elapsed_ticks(cpu_start, cpu_end);
    let os_elapsed = elapsed_ticks(os_start, os_end);
    if os_elapsed == 0 {
        return 0;
    }
    let scaled: u128 = mul_wide(os_frequency, cpu_elapsed);
    let frequency: u128 = scaled / (os_elapsed as u128);
    if frequency > u64::MAX as u128 {
        u64::MAX
    } else {
        frequency as u64
    }
}

/// Counter reads after which a calibration whose OS counter has not moved
/// gives up.
pub const CALIBRATION_READ_LIMIT: u64 = 1_000_000_000;

/// An estimate of the CPU counter's frequency under way: the readings taken
/// when it began, and how many pairs of readings it has seen since.
pub struct Calibration {
    pub os_frequency: u64,
    /// OS ticks to wait for.
    pub window: u64,
    pub cpu_start: u64,
    pub os_start: u64,
    pub reads: u64,
}

/// Whether a calibration that has seen `c.reads` readings stops at the OS
/// reading `os_now`: the OS window has passed, or the OS counter has not
/// moved within the limit on readings.
pub open spec fn calibration_over(c: Calibration, os_now: u64) -> bool {
    ||| ticks_between(c.os_start, os_now) >= c.window
    ||| ticks_between(c.os_start, os_now) == 0 && c.reads + 1 >= CALIBRATION_READ_LIMIT
}

impl Calibration {
    /// Starts a calibration over a window of `millis` milliseconds of an OS
    /// counter running at `os_frequency`, from the readings `cpu_start` and
    /// `os_start`.
    pub fn new(os_frequency: u64, millis: u64, cpu_start: u64, os_start: u64) -> (r: Calibration)
        ensures
            r == (Calibration {
                os_frequency,
                window: window_ticks(os_frequency, millis) as u64,
                cpu_start,
                os_start,
                reads: 0,
            }),
    {
        Calibration {
            os_frequency,
            window: calibration_window(os_frequency, millis),
            cpu_start,
            os_start,
            reads: 0,
        }
    }

    /// Takes one pair of readings. Returns the estimated frequency once the
    /// OS window has passed, and `None` while it goes on. An OS counter that
    /// has not moved by the `CALIBRATION_READ_LIMIT`-th reading ends the
    /// calibration with a frequency of zero.
    pub fn step(&mut self, cpu_now: u64, os_now: u64) -> (r: Option<u64>)
        ensures
            *final(self) == (Calibration {
                reads: if old(self).reads < u64::MAX {
                    (old(self).reads + 1) as u64
                } else {
                    old(self).reads
                },
                ..*old(self)
            }),
            r is Some <==> calibration_over(*old(self), os_now),
            r matches Some(f) ==> f == frequency_estimate(
                old(self).os_frequency,
                ticks_between(old(self).cpu_start, cpu_now),
                ticks_between(old(self).os_start, os_now),
            ),
            r is Some && ticks_between(old(self).os_start, os_now) > 0 ==> ticks_between(
                old(self).os_start,
                os_now,
            ) >= old(self).window,
            old(self).reads + 1 >= CALIBRATION_READ_LIMIT && os_now <= old(self).os_start ==> r
                == Some(0u64),
    {
        let reads_before = self.reads;
        if self.reads < u64::MAX {
            self.reads = self.reads + 1;
        }
        let os_elapsed = elapsed_ticks(self.os_start, os_now);
        if os_elapsed >= self.window || (os_elapsed == 0 && reads_before >= CALIBRATION_READ_LIMIT
            - 1) {
            Some(estimate_cpu_frequency(self.os_frequency, self.cpu_start, cpu_now, self.os_start, os_now))
        } else {
            None
        }
    }
}

/// Product of two `u64` values, which always fits a `u128`.
pub fn mul_wide(a: u64, b: u64) -> (r: u128)
    ensures
        r == a * b,
{
    proof {
        assert(a * b <= u64::MAX * u64::MAX) by (nonlinear_arith)
            requires
                a <= u64::MAX,
                b <= u64::MAX,
        ;
    }
    (a as u128) * (b as u128)
}

} // verus!
