//! How often the sweeper wakes.
use vstd::prelude::*;
use crate::error::DebounceError;

verus! {

/// The part of the timeout that the tick takes where no tick rate is given.
pub const TICK_DIVISOR: u32 = 4;

/// The tick for a timeout and an optional tick rate, both in nanoseconds.
///
/// A given tick rate is the tick, unless it is longer than the timeout.
/// Without one the tick is a quarter of the timeout, which must then not be
/// zero.
pub open spec fn tick_for(timeout: u128, tick_rate: Option<u128>) -> Result<u128, DebounceError> {
    match tick_rate {
        Some(rate) => if rate > timeout {
            Err(DebounceError::InvalidTickRate(rate, timeout))
        } else {
            Ok(rate)
        },
        None => if timeout == 0 {
            Err(DebounceError::FailedToCalculateTick(timeout, TICK_DIVISOR))
        } else {
            Ok(timeout / 4)
        },
    }
}

/// Chooses the sweeper's tick, or says why none can be had.
pub fn select_tick(timeout: u128, tick_rate: Option<u128>) -> (tick: Result<u128, DebounceError>)
    ensures
        tick == tick_for(timeout, tick_rate),
{
    match tick_rate {
        Some(rate) => {
            if rate > timeout {
                Err(DebounceError::InvalidTickRate(rate, timeout))
            } else {
                Ok(rate)
            }
        },
        None => {
            if timeout == 0 {
                Err(DebounceError::FailedToCalculateTick(timeout, TICK_DIVISOR))
            } else {
                Ok(timeout / 4)
            }
        },
    }
}

/// A tick is never longer than its timeout, and every tick rate up to the
/// timeout, the timeout itself too, is accepted as it is.
pub proof fn lemma_tick_within_timeout(timeout: u128, tick_rate: Option<u128>)
    ensures
        tick_for(timeout, tick_rate) matches Ok(tick) ==> tick <= timeout,
        tick_rate matches Some(rate) ==> (tick_for(timeout, tick_rate) is Ok <==> rate <= timeout),
        tick_rate matches Some(rate) ==> rate <= timeout ==> tick_for(timeout, tick_rate) == Ok::<u128, DebounceError>(rate),
        tick_for(timeout, Some(timeout)) == Ok::<u128, DebounceError>(timeout),
        tick_rate is None ==> (tick_for(timeout, tick_rate) is Ok <==> timeout > 0),
{
}

} // verus!
