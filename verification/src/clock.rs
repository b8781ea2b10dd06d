//! A monotonic clock that counts nanoseconds from the moment it was started.
use vstd::prelude::*;
use std::time::{Duration, Instant};

verus! {

/// `std::time::Instant`, a point on the machine's monotonic clock. Nothing is
/// known of what a value holds.
#[verifier::external_type_specification]
#[verifier::external_body]
pub struct ExInstant(Instant);

/// `Instant::now` reads the monotonic clock. Nothing is claimed of the reading.
pub assume_specification[ Instant::now ]() -> (now: Instant);

/// `Instant::elapsed` gives the time that has passed since the instant was
/// taken. Nothing is claimed of the span.
pub assume_specification[ Instant::elapsed ](at: &Instant) -> (span: Duration);

/// `Duration::as_nanos` gives a span as a whole number of nanoseconds. Nothing
/// is claimed of the number.
pub assume_specification[ Duration::as_nanos ](span: &Duration) -> (nanos: u128);

/// A stopwatch on the monotonic clock. It remembers its latest reading, and
/// no reading is less than the one before.
#[derive(Clone, Copy)]
pub struct Clock {
    origin: Instant,
    latest: u128,
}

impl View for Clock {
    type V = nat;

    /// The clock's latest reading in nanoseconds, zero before the first.
    closed spec fn view(&self) -> nat {
        self.latest as nat
    }
}

impl Clock {
    /// A clock that reads zero now.
    pub fn start() -> (clock: Clock)
        ensures
            clock@ == 0,
    {
        Clock { origin: Instant::now(), latest: 0 }
    }

    /// The nanoseconds since the clock was started. How many they are depends
    /// on when the reading is taken; whenever that is, the reading is not
    /// less than the one before, and it is the latest from now on.
    pub fn now(&mut self) -> (reading: u128)
        ensures
            old(self)@ <= reading,
            final(self)@ == reading,
    {
        let passed: u128 = self.origin.elapsed().as_nanos();
        if passed > self.latest {
            self.latest = passed;
        }
        self.latest
    }
}

} // verus!
