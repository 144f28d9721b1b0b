//! Arithmetic on counter readings: the wall-clock reading of a time of day,
//! and the estimate of the cycle counter's rate from two counters read over
//! one window.
//!
//! Reading a counter is the caller's business. Each function here takes the
//! readings as arguments.

use vstd::prelude::*;

verus! {

/// Length of the calibration window in milliseconds.
pub const CALIBRATION_MS: u64 = 100;

/// Ticks per second of the wall-clock counter where it counts microseconds.
pub const MICROSECONDS_PER_SECOND: u64 = 1_000_000;

/// Frequency of the wall-clock counter on systems whose counter is the time of
/// day in microseconds.
#[must_use]
pub fn get_os_time_freq() -> (freq: u64)
    ensures
        freq == MICROSECONDS_PER_SECOND,
{
    MICROSECONDS_PER_SECOND
}

/// The wall-clock reading for a time of day given in whole seconds and
/// microseconds since the epoch.
#[must_use]
pub fn read_os_timer(seconds: u64, microseconds: u64) -> (ticks: u64)
    requires
        MICROSECONDS_PER_SECOND * seconds + microseconds <= u64::MAX,
    ensures
        ticks == MICROSECONDS_PER_SECOND * seconds + microseconds,
{
    get_os_time_freq() * seconds + microseconds
}

/// Wall-clock ticks in a window of `ms` milliseconds.
pub open spec fn window_ticks(os_freq: int, ms: int) -> int {
    os_freq * ms / 1000
}

/// Cycles per second, from the cycles and the wall-clock ticks that elapsed
/// over one window: `os_freq × cpu_elapsed / os_elapsed`, rounded down, and
/// zero where the wall clock did not advance.
pub open spec fn cycles_per_second(os_freq: int, cpu_elapsed: int, os_elapsed: int) -> int {
    if os_elapsed == 0 {
        0
    } else {
        os_freq * cpu_elapsed / os_elapsed
    }
}

/// Estimates the cycle counter's rate from what the two counters advanced
/// over the same window.
#[must_use]
pub fn estimate_cpu_freq(os_freq: u64, cpu_elapsed: u64, os_elapsed: u64) -> (freq: u64)
    requires
        cycles_per_second(os_freq as int, cpu_elapsed as int, os_elapsed as int) <= u64::MAX,
    ensures
        freq == cycles_per_second(os_freq as int, cpu_elapsed as int, os_elapsed as int),
{
    if os_elapsed == 0 {
        return 0;
    }
    assert(os_freq * cpu_elapsed <= 0xFFFF_FFFF_FFFF_FFFF * 0xFFFF_FFFF_FFFF_FFFF)
        by (nonlinear_arith)
        requires
            os_freq <= 0xFFFF_FFFF_FFFF_FFFF,
            cpu_elapsed <= 0xFFFF_FFFF_FFFF_FFFF,
    ;
    let product: u128 = (os_freq as u128) * (cpu_elapsed as u128);
    let quotient: u128 = product / (os_elapsed as u128);
    quotient as u64
}

/// A calibration in progress: what was read when the window opened, and how
/// far the wall clock has been seen to advance since.
pub struct Calibration {
    pub os_freq: u64,
    pub cpu_start: u64,
    pub os_start: u64,
    pub os_elapsed: u64,
    pub os_wait: u64,
}

impl Calibration {
    /// The window is still open: the wall clock has to be read again.
    pub open spec fn open(self) -> bool {
        self.os_elapsed < self.os_wait
    }

    /// Opens a window of `CALIBRATION_MS` milliseconds with both counters
    /// just read.
    pub fn begin(os_freq: u64, cpu_start: u64, os_start: u64) -> (calibration: Self)
        requires
            os_freq * CALIBRATION_MS <= u64::MAX,
        ensures
            calibration.os_freq == os_freq,
            calibration.cpu_start == cpu_start,
            calibration.os_start == os_start,
            calibration.os_elapsed == 0,
            calibration.os_wait == window_ticks(os_freq as int, CALIBRATION_MS as int),
    {
        Calibration {
            os_freq,
            cpu_start,
            os_start,
            os_elapsed: 0,
            os_wait: os_freq * CALIBRATION_MS / 1_000,
        }
    }

    /// Says whether the wall clock has to be read again.
    pub fn should_poll(&self) -> (again: bool)
        ensures
            again == self.open(),
    {
        self.os_elapsed < self.os_wait
    }

    /// Takes a new reading of the wall clock and says whether another one is
    /// needed.
    pub fn observe(&mut self, os_now: u64) -> (again: bool)
        requires
            old(self).os_start <= os_now,
        ensures
            final(self).os_elapsed == os_now - old(self).os_start,
            final(self).os_freq == old(self).os_freq,
            final(self).cpu_start == old(self).cpu_start,
            final(self).os_start == old(self).os_start,
            final(self).os_wait == old(self).os_wait,
            again == final(self).open(),
    {
        self.os_elapsed = os_now - self.os_start;
        self.os_elapsed < self.os_wait
    }

    /// Closes the window with the cycle counter just read and gives the
    /// estimate.
    pub fn finish(&self, cpu_end: u64) -> (freq: u64)
        requires
            self.cpu_start <= cpu_end,
            cycles_per_second(
                self.os_freq as int,
                cpu_end - self.cpu_start,
                self.os_elapsed as int,
            ) <= u64::MAX,
        ensures
            freq == cycles_per_second(
                self.os_freq as int,
                cpu_end - self.cpu_start,
                self.os_elapsed as int,
            ),
    {
        estimate_cpu_freq(self.os_freq, cpu_end - self.cpu_start, self.os_elapsed)
    }
}

} // verus!
