//! The sweeper's decisions.
//!
//! The sweeper is a loop around a timer. Before each round it looks at the
//! stop flag. While the flag is down it sleeps for one tick, sweeps, and
//! delivers what the sweep found. Once it has seen the flag up it leaves the
//! loop and never sweeps again. This module decides; whoever runs the loop
//! sleeps, locks and delivers.
use vstd::prelude::*;
use crate::data::DebounceDataInner;
use crate::error::DebounceError;
use crate::model::DebounceState;
use crate::tick::{select_tick, tick_for};

verus! {

/// Where the sweeper stands.
#[derive(Clone, Copy, Debug, PartialEq, Eq, Structural)]
pub enum SweeperState {
    /// No stop request has been seen.
    Running,
    /// A stop request has been seen: the loop is over.
    Stopping,
}

/// What the sweeper does next.
#[derive(Clone, Copy, Debug, PartialEq, Eq, Structural)]
pub enum SweeperAction {
    /// Sleep for this many nanoseconds, then sweep and deliver.
    Sweep(u128),
    /// Leave the loop.
    Exit,
}

/// The sweeper: its state and its tick in nanoseconds.
#[derive(Clone, Copy, Debug, PartialEq, Eq, Structural)]
pub struct Sweeper {
    pub state: SweeperState,
    pub tick: u128,
}

/// The state after the stop flag has been read. A stop request is never
/// forgotten.
pub open spec fn observe(state: SweeperState, stop_requested: bool) -> SweeperState {
    if stop_requested {
        SweeperState::Stopping
    } else {
        state
    }
}

/// What a sweeper in `state` does.
pub open spec fn action_in(state: SweeperState, tick: u128) -> SweeperAction {
    match state {
        SweeperState::Running => SweeperAction::Sweep(tick),
        SweeperState::Stopping => SweeperAction::Exit,
    }
}

/// The state after a run of rounds in which the stop flag read as
/// `observations` say.
pub open spec fn state_after(state: SweeperState, observations: Seq<bool>) -> SweeperState
    decreases observations.len(),
{
    if observations.len() == 0 {
        state
    } else {
        observe(state_after(state, observations.drop_last()), observations.last())
    }
}

/// What a sweeper that starts in `state` does in round `round` of a run in
/// which the stop flag read as `observations` say.
pub open spec fn action_at(state: SweeperState, tick: u128, observations: Seq<bool>, round: int) -> SweeperAction {
    action_in(state_after(state, observations.take(round + 1)), tick)
}

impl Sweeper {
    /// A running sweeper with the given tick.
    pub fn new(tick: u128) -> (sweeper: Self)
        ensures
            sweeper == (Sweeper { state: SweeperState::Running, tick }),
    {
        Sweeper { state: SweeperState::Running, tick }
    }

    /// Opens a round: takes the reading of the stop flag and says what to do.
    pub fn step(&mut self, stop_requested: bool) -> (action: SweeperAction)
        ensures
            final(self).tick == old(self).tick,
            final(self).state == observe(old(self).state, stop_requested),
            action == action_in(final(self).state, old(self).tick),
    {
        if stop_requested {
            self.state = SweeperState::Stopping;
        }
        match self.state {
            SweeperState::Running => SweeperAction::Sweep(self.tick),
            SweeperState::Stopping => SweeperAction::Exit,
        }
    }
}

/// What is set up before the sweeper is started: the tick is chosen, and
/// with it come an empty state and a running sweeper. Where no tick can be
/// had nothing is set up.
pub fn prepare(timeout: u128, tick_rate: Option<u128>) -> (made: Result<
    (DebounceDataInner, Sweeper),
    DebounceError,
>)
    ensures
        match tick_for(timeout, tick_rate) {
            Ok(tick) => made matches Ok((data, sweeper)) && data@ == DebounceState::empty(
                timeout as nat,
            ) && sweeper == (Sweeper { state: SweeperState::Running, tick }),
            Err(e) => made == Err::<(DebounceDataInner, Sweeper), DebounceError>(e),
        },
{
    match select_tick(timeout, tick_rate) {
        Ok(tick) => Ok((DebounceDataInner::new(timeout), Sweeper::new(tick))),
        Err(e) => Err(e),
    }
}

/// Once a stop request has been seen the sweeper stays stopped, whatever the
/// flag reads afterwards.
pub proof fn lemma_stopping_is_final(observations: Seq<bool>)
    ensures
        state_after(SweeperState::Stopping, observations) == SweeperState::Stopping,
    decreases observations.len(),
{
    if observations.len() > 0 {
        lemma_stopping_is_final(observations.drop_last());
    }
}

/// A run splits at any round: the state after the whole run is the state
/// after its later part, started from the state after its earlier part.
pub proof fn lemma_state_after_split(state: SweeperState, observations: Seq<bool>, k: int)
    requires
        0 <= k <= observations.len(),
    ensures
        state_after(state, observations) == state_after(
            state_after(state, observations.take(k)),
            observations.skip(k),
        ),
    decreases observations.len() - k,
{
    if k == observations.len() {
        assert(observations.take(k) =~= observations);
        assert(observations.skip(k) =~= Seq::<bool>::empty());
    } else {
        lemma_state_after_split(state, observations.drop_last(), k);
        assert(observations.drop_last().take(k) =~= observations.take(k));
        assert(observations.skip(k).drop_last() =~= observations.drop_last().skip(k));
    }
}

/// From the round in which the sweeper sees a stop request on, it only ever
/// leaves the loop: no later round sweeps or delivers anything.
pub proof fn lemma_no_sweep_after_stop(
    state: SweeperState,
    tick: u128,
    observations: Seq<bool>,
    seen: int,
    round: int,
)
    requires
        0 <= seen <= round < observations.len(),
        observations[seen],
    ensures
        action_at(state, tick, observations, round) == SweeperAction::Exit,
{
    let upto = observations.take(round + 1);
    lemma_state_after_split(state, upto, seen + 1);
    assert(upto.take(seen + 1).drop_last() =~= upto.take(seen));
    assert(upto.take(seen + 1).last() == observations[seen]);
    lemma_stopping_is_final(upto.skip(seen + 1));
}

/// While no stop request has been seen a running sweeper sweeps in every
/// round, after one tick of sleep.
pub proof fn lemma_sweeps_until_stop(tick: u128, observations: Seq<bool>, round: int)
    requires
        0 <= round < observations.len(),
        forall|k: int| 0 <= k <= round ==> !observations[k],
    ensures
        action_at(SweeperState::Running, tick, observations, round) == SweeperAction::Sweep(tick),
    decreases round,
{
    let upto = observations.take(round + 1);
    assert(upto.last() == observations[round]);
    if round > 0 {
        lemma_sweeps_until_stop(tick, observations, round - 1);
        assert(upto.drop_last() =~= observations.take(round - 1 + 1));
        assert(state_after(SweeperState::Running, upto.drop_last()) == SweeperState::Running);
    } else {
        assert(upto.drop_last() =~= Seq::<bool>::empty());
        assert(state_after(SweeperState::Running, Seq::<bool>::empty()) == SweeperState::Running);
    }
}

} // verus!
