//! The failures that the scheduling core reports.

use vstd::prelude::*;

verus! {

/// An executor could not be constructed from the configuration it was given.
#[derive(Clone, Copy, Debug, PartialEq, Eq, Structural)]
pub enum ConfigurationError {
    /// A thread count of zero was asked for.
    ZeroThreads,
    /// A stack size of zero was asked for.
    ZeroStackSize,
    /// The backend could not start its worker pool.
    PoolUnavailable,
}

/// Why a system's run did not count.
#[derive(Clone, Copy, Debug, PartialEq, Eq, Structural)]
pub enum FailureCause {
    /// The system gave up and handed back this code.
    Signalled(u32),
    /// The system handed back a number of values other than the number of
    /// slots it holds exclusively.
    Malformed,
}

/// A system failed during a tick.
#[derive(Clone, Copy, Debug, PartialEq, Eq, Structural)]
pub struct SystemFailure {
    /// The failing system, by its place in the schedule.
    pub system: usize,
    pub cause: FailureCause,
}

/// What `update` and `run` of an application can fail with.
#[derive(Clone, Copy, Debug, PartialEq, Eq, Structural)]
pub enum AppError {
    Configuration(ConfigurationError),
    Tick(SystemFailure),
}

} // verus!
