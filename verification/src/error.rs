//! What can go wrong when a debouncer is set up or while it runs.
use vstd::prelude::*;
use vstd::std_specs::convert::FromSpecImpl;

verus! {

/// The errors of the debouncer. Spans are in nanoseconds.
#[derive(Debug)]
pub enum DebounceError {
    /// The tick rate, given first, is longer than the timeout, given second.
    InvalidTickRate(u128, u128),
    /// No tick could be derived from the timeout, given first, and the
    /// divisor, given second.
    FailedToCalculateTick(u128, u32),
    /// The watcher failed.
    Notify(notify::Error),
}

impl From<notify::Error> for DebounceError {
    fn from(error: notify::Error) -> (e: DebounceError) {
        DebounceError::Notify(error)
    }
}

impl FromSpecImpl<notify::Error> for DebounceError {
    open spec fn obeys_from_spec() -> bool {
        true
    }

    open spec fn from_spec(error: notify::Error) -> DebounceError {
        DebounceError::Notify(error)
    }
}

} // verus!
