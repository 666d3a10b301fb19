//! Verbosity levels of the log.

use vstd::prelude::*;

verus! {

/// The verbosity levels of the logger, from silent to most verbose.
#[must_use]
#[derive(Clone, Copy, Debug, PartialEq, Eq, Structural)]
pub enum Level {
    /// The logger is silent.
    Off,
    /// Very serious errors.
    Error,
    /// Hazardous situations.
    Warn,
    /// Useful information.
    Info,
    /// Lower priority information.
    Debug,
    /// Very low priority, often extremely verbose, information.
    Trace,
}

} // verus!
