//! Counters of errors and of scanning activity.
//!
//! Counts wrap around at `u64::MAX`, as an atomic `fetch_add` does.
use vstd::prelude::*;

verus! {

/// `a + n`, wrapped around at `2^64`.
pub open spec fn wrapping_add_u64(a: u64, n: nat) -> u64 {
    ((a + n) % 0x1_0000_0000_0000_0000) as u64
}

/// Counts errors.
pub struct ThreadSafeErrorCounter {
    counter: u64,
}

impl ThreadSafeErrorCounter {
    /// The number of errors counted.
    pub closed spec fn count(&self) -> u64 {
        self.counter
    }

    /// A counter at zero.
    pub fn new() -> (r: Self)
        ensures
            r.count() == 0,
    {
        ThreadSafeErrorCounter { counter: 0 }
    }

    /// Counts one error.
    pub fn record_error(&mut self)
        ensures
            final(self).count() == wrapping_add_u64(old(self).count(), 1),
    {
        self.counter = self.counter.wrapping_add(1);
    }

    /// The number of errors counted.
    pub fn get_count(&self) -> (r: u64)
        ensures
            r == self.count(),
    {
        self.counter
    }

    /// Sets the count back to zero.
    pub fn reset(&mut self)
        ensures
            final(self).count() == 0,
    {
        self.counter = 0;
    }
}

impl Default for ThreadSafeErrorCounter {
    fn default() -> (r: Self)
        ensures
            r.count() == 0,
    {
        Self::new()
    }
}

/// The values of the scanning counters at one moment.
#[derive(Debug, Clone, Copy, PartialEq, Eq, Structural)]
pub struct StatsSnapshot {
    pub validations: u64,
    pub scans: u64,
    pub extracts: u64,
    pub phones_found: u64,
    pub errors: u64,
}

/// The snapshot with every counter at zero.
pub open spec fn zero_snapshot() -> StatsSnapshot {
    StatsSnapshot { validations: 0, scans: 0, extracts: 0, phones_found: 0, errors: 0 }
}

impl StatsSnapshot {
    /// The scans that did not end in an error: `scans - errors`, or zero when
    /// there were more errors than scans.
    pub fn get_success_count(&self) -> (r: u64)
        ensures
            r == (if self.errors <= self.scans {
                (self.scans - self.errors) as u64
            } else {
                0u64
            }),
    {
        self.scans.saturating_sub(self.errors)
    }

    /// Whether any error was counted.
    pub fn has_errors(&self) -> (r: bool)
        ensures
            r == (self.errors > 0),
    {
        self.errors > 0
    }
}

impl Default for StatsSnapshot {
    fn default() -> (r: Self)
        ensures
            r == zero_snapshot(),
    {
        StatsSnapshot { validations: 0, scans: 0, extracts: 0, phones_found: 0, errors: 0 }
    }
}

/// Counts validations, scans, extractions, phone numbers found and errors.
pub struct ValidationStats {
    validation_count: u64,
    scan_count: u64,
    extract_count: u64,
    phones_found: u64,
    error_count: u64,
}

impl ValidationStats {
    /// The current values of the counters.
    pub closed spec fn counts(&self) -> StatsSnapshot {
        StatsSnapshot {
            validations: self.validation_count,
            scans: self.scan_count,
            extracts: self.extract_count,
            phones_found: self.phones_found,
            errors: self.error_count,
        }
    }

    /// Counters at zero.
    pub fn new() -> (r: Self)
        ensures
            r.counts() == zero_snapshot(),
    {
        ValidationStats {
            validation_count: 0,
            scan_count: 0,
            extract_count: 0,
            phones_found: 0,
            error_count: 0,
        }
    }

    /// Counts one validation.
    pub fn record_validation(&mut self)
        ensures
            final(self).counts() == (StatsSnapshot {
                validations: wrapping_add_u64(old(self).counts().validations, 1),
                ..old(self).counts()
            }),
    {
        self.validation_count = self.validation_count.wrapping_add(1);
    }

    /// Counts one scan.
    pub fn record_scan(&mut self)
        ensures
            final(self).counts() == (StatsSnapshot {
                scans: wrapping_add_u64(old(self).counts().scans, 1),
                ..old(self).counts()
            }),
    {
        self.scan_count = self.scan_count.wrapping_add(1);
    }

    /// Counts one extraction.
    pub fn record_extract(&mut self)
        ensures
            final(self).counts() == (StatsSnapshot {
                extracts: wrapping_add_u64(old(self).counts().extracts, 1),
                ..old(self).counts()
            }),
    {
        self.extract_count = self.extract_count.wrapping_add(1);
    }

    /// Counts one phone number found.
    pub fn record_phone_found(&mut self)
        ensures
            final(self).counts() == (StatsSnapshot {
                phones_found: wrapping_add_u64(old(self).counts().phones_found, 1),
                ..old(self).counts()
            }),
    {
        self.phones_found = self.phones_found.wrapping_add(1);
    }

    /// Counts one error.
    pub fn record_error(&mut self)
        ensures
            final(self).counts() == (StatsSnapshot {
                errors: wrapping_add_u64(old(self).counts().errors, 1),
                ..old(self).counts()
            }),
    {
        self.error_count = self.error_count.wrapping_add(1);
    }

    /// The current values of the counters.
    pub fn get_snapshot(&self) -> (r: StatsSnapshot)
        ensures
            r == self.counts(),
    {
        StatsSnapshot {
            validations: self.validation_count,
            scans: self.scan_count,
            extracts: self.extract_count,
            phones_found: self.phones_found,
            errors: self.error_count,
        }
    }

    /// The current values of the counters, read without ordering guarantees
    /// (with exclusive access they are the same as `get_snapshot`'s).
    pub fn get_relaxed_snapshot(&self) -> (r: StatsSnapshot)
        ensures
            r == self.counts(),
    {
        StatsSnapshot {
            validations: self.validation_count,
            scans: self.scan_count,
            extracts: self.extract_count,
            phones_found: self.phones_found,
            errors: self.error_count,
        }
    }

    /// Sets every counter back to zero.
    pub fn reset(&mut self)
        ensures
            final(self).counts() == zero_snapshot(),
    {
        self.validation_count = 0;
        self.scan_count = 0;
        self.extract_count = 0;
        self.phones_found = 0;
        self.error_count = 0;
    }
}

impl Default for ValidationStats {
    fn default() -> (r: Self)
        ensures
            r.counts() == zero_snapshot(),
    {
        Self::new()
    }
}

} // verus!
