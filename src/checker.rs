//! Configuration of the checking loop and the decisions it takes each iteration.
use vstd::prelude::*;

use crate::tracker::{RegionTracker, TrackedView};
use crate::region::RegionView;

verus! {

/// Nanoseconds in a second.
pub const NANOS_PER_SEC: u64 = 1_000_000_000;

/// The options of a checker.
#[derive(Debug, Clone, Copy, PartialEq, Eq, Structural, Hash)]
pub struct CheckerConfig {
    /// discover the regions only once and check the same ones afterwards
    pub search_once: bool,
    /// only check regions of the executable itself, not of shared libraries
    pub skip_libs: bool,
    /// target time between the starts of two iterations, in nanoseconds
    pub check_period_nanos: u64,
    /// also check regions that are writable as well as executable
    pub include_writable_code: bool,
}

/// Type of a call that does not return normally: it has no values.
pub type Never = std::convert::Infallible;

/// Builder for the configuration of the consistency checker.
#[derive(Debug, Clone, Copy, PartialEq, Eq, Structural, Hash)]
pub struct ProcessConsistencyChecker {
    pub config: CheckerConfig,
}

impl ProcessConsistencyChecker {
    /// The default configuration: every iteration searches all regions, of the
    /// executable and of its libraries, without writable code, once a second.
    pub fn new() -> (r: Self)
        ensures
            r.config == (CheckerConfig {
                search_once: false,
                skip_libs: false,
                check_period_nanos: NANOS_PER_SEC,
                include_writable_code: false,
            }),
    {
        ProcessConsistencyChecker {
            config: CheckerConfig {
                search_once: false,
                skip_libs: false,
                check_period_nanos: NANOS_PER_SEC,
                include_writable_code: false,
            },
        }
    }

    /// If set, regions are discovered only once (default: false).
    ///
    /// This is a reasonable choice when no libraries are loaded after the
    /// loop has started.
    pub fn search_once(&mut self, search_once: bool) -> (r: &mut Self)
        ensures
            *r == (ProcessConsistencyChecker {
                config: CheckerConfig { search_once, ..old(self).config },
            }),
            *final(self) == *final(r),
    {
        self.config.search_once = search_once;
        self
    }

    /// If set, only regions of the executable itself are checked, skipping
    /// shared libraries (default: false).
    pub fn skip_libs(&mut self, skip_libs: bool) -> (r: &mut Self)
        ensures
            *r == (ProcessConsistencyChecker { config: CheckerConfig { skip_libs, ..old(self).config } }),
            *final(self) == *final(r),
    {
        self.config.skip_libs = skip_libs;
        self
    }

    /// How often checks run, in nanoseconds (default: every second).
    pub fn check_period(&mut self, check_period_nanos: u64) -> (r: &mut Self)
        ensures
            *r == (ProcessConsistencyChecker {
                config: CheckerConfig { check_period_nanos, ..old(self).config },
            }),
            *final(self) == *final(r),
    {
        self.config.check_period_nanos = check_period_nanos;
        self
    }

    /// If set, code mapped with write permission (from a JIT or self-modifying
    /// code) is checked too (default: false).
    pub fn include_writable_code(&mut self, include_writable_code: bool) -> (r: &mut Self)
        ensures
            *r == (ProcessConsistencyChecker {
                config: CheckerConfig { include_writable_code, ..old(self).config },
            }),
            *final(self) == *final(r),
    {
        self.config.include_writable_code = include_writable_code;
        self
    }

    /// The options chosen.
    pub fn config(&self) -> (r: CheckerConfig)
        ensures
            r == self.config,
    {
        self.config
    }

    /// Whether an iteration must discover the regions afresh rather than check
    /// the ones already tracked: always, unless regions are searched only once
    /// and some are tracked.
    pub fn needs_search(&self, tracker: &RegionTracker) -> (r: bool)
        requires
            tracker.wf(),
        ensures
            r == (!self.config.search_once || tracker@ == Map::<RegionView, TrackedView>::empty()),
    {
        !self.config.search_once || tracker.is_empty()
    }

    /// How long to sleep after an iteration that took `elapsed_nanos`: the rest
    /// of the period, or nothing when the iteration took the whole period.
    pub fn sleep_nanos(&self, elapsed_nanos: u64) -> (r: u64)
        ensures
            elapsed_nanos >= self.config.check_period_nanos ==> r == 0,
            elapsed_nanos < self.config.check_period_nanos ==> r == self.config.check_period_nanos
                - elapsed_nanos,
    {
        self.config.check_period_nanos.saturating_sub(elapsed_nanos)
    }
}

impl Default for ProcessConsistencyChecker {
    fn default() -> (r: Self)
        ensures
            r.config == (CheckerConfig {
                search_once: false,
                skip_libs: false,
                check_period_nanos: NANOS_PER_SEC,
                include_writable_code: false,
            }),
    {
        ProcessConsistencyChecker::new()
    }
}

} // verus!
