//! Histories: what a debounce state goes through, step by step, and what
//! holds of every history.
//!
//! A step is a raw event, a watcher error or a sweep. Raw events and sweeps
//! carry the instant at which they happen. The laws below speak of one path
//! at a time: what the sweeps of a history report of it.
use vstd::prelude::*;
use crate::batch::{deliveries, Delivery};
use crate::event::{DebouncedEventKind, Emission};
use crate::model::{age, well_formed, DebounceState, PathRecord};
use crate::projection::{
    about, lemma_emitted_about, lemma_lookup_fold_event, lemma_lookup_retained, lookup, said, seen,
    swept,
};

verus! {

/// One step of a history.
pub enum Step {
    /// The watcher reports a raw event that names `paths`, seen at `at`.
    Event { paths: Seq<Seq<char>>, at: nat },
    /// The watcher raises an error.
    Failure { error: notify::Error },
    /// The sweeper sweeps at `at`.
    Sweep { at: nat },
}

impl Step {
    /// Whether the step is a raw event that names `path`.
    pub open spec fn names(self, path: Seq<char>) -> bool {
        match self {
            Step::Event { paths, at } => paths.contains(path),
            _ => false,
        }
    }

    /// The instant of a raw event or a sweep.
    pub open spec fn when(self) -> Option<nat> {
        match self {
            Step::Event { paths, at } => Some(at),
            Step::Failure { error } => None,
            Step::Sweep { at } => Some(at),
        }
    }
}

/// The state after one step.
pub open spec fn advance(state: DebounceState, step: Step) -> DebounceState {
    match step {
        Step::Event { paths, at } => state.after_event(paths, at),
        Step::Failure { error } => state.after_error(error),
        Step::Sweep { at } => state.after_sweep(at).drained(),
    }
}

/// The state after a history.
pub open spec fn run(state: DebounceState, steps: Seq<Step>) -> DebounceState
    decreases steps.len(),
{
    if steps.len() == 0 {
        state
    } else {
        advance(run(state, steps.drop_last()), steps.last())
    }
}

/// What a step delivers to the consumer when it is taken in `state`: a sweep
/// delivers its batches, the other steps nothing.
pub open spec fn delivered(state: DebounceState, step: Step) -> Seq<Delivery> {
    match step {
        Step::Sweep { at } => deliveries(state.sweep_events(at), state.errors),
        _ => Seq::empty(),
    }
}

/// What step `k` of a history delivers.
pub open spec fn delivered_at(state: DebounceState, steps: Seq<Step>, k: int) -> Seq<Delivery> {
    delivered(run(state, steps.take(k)), steps[k])
}

/// The events about `path` that a step reports when it is taken in `state`.
pub open spec fn reported(state: DebounceState, step: Step, path: Seq<char>) -> Seq<Emission> {
    match step {
        Step::Sweep { at } => state.sweep_events(at).filter(about(path)),
        _ => Seq::empty(),
    }
}

/// The events about `path` that step `k` of a history reports.
pub open spec fn reported_at(state: DebounceState, steps: Seq<Step>, k: int, path: Seq<char>) -> Seq<
    Emission,
> {
    reported(run(state, steps.take(k)), steps[k], path)
}

/// The record kept for `path` after a history.
pub open spec fn held_after(state: DebounceState, steps: Seq<Step>, path: Seq<char>) -> Option<
    PathRecord,
> {
    lookup(run(state, steps).records, path)
}

/// What one step does to the record of `path`.
pub open spec fn carry(held: Option<PathRecord>, step: Step, path: Seq<char>, timeout: nat) -> Option<
    PathRecord,
> {
    match step {
        Step::Event { paths, at } => if paths.contains(path) {
            seen(held, path, at)
        } else {
            held
        },
        Step::Failure { error } => held,
        Step::Sweep { at } => swept(held, at, timeout),
    }
}

/// What one step reports of a path with this record.
pub open spec fn tells(held: Option<PathRecord>, step: Step, timeout: nat) -> Seq<Emission> {
    match step {
        Step::Sweep { at } => said(held, at, timeout),
        _ => Seq::empty(),
    }
}

/// The settled event for `path`.
pub open spec fn any_of(path: Seq<char>) -> Emission {
    Emission { path, kind: DebouncedEventKind::Any }
}

/// The continuous event for `path`.
pub open spec fn continuous_of(path: Seq<char>) -> Emission {
    Emission { path, kind: DebouncedEventKind::AnyContinuous }
}

/// Every history keeps the records well formed and the timeout as it was.
pub proof fn lemma_run_well_formed(state: DebounceState, steps: Seq<Step>)
    requires
        well_formed(state.records),
    ensures
        well_formed(run(state, steps).records),
        run(state, steps).timeout == state.timeout,
    decreases steps.len(),
{
    if steps.len() > 0 {
        lemma_run_well_formed(state, steps.drop_last());
        let before = run(state, steps.drop_last());
        match steps.last() {
            Step::Event { paths, at } => {
                lemma_lookup_fold_event(before.records, paths, at, Seq::empty());
            },
            Step::Failure { error } => {},
            Step::Sweep { at } => {
                lemma_lookup_retained(before.records, at, before.timeout, Seq::empty());
            },
        }
    }
}

/// What step `k` of a history reports of a path, and what it does to the
/// path's record, follow from the record that the path has before the step.
pub proof fn lemma_step_on_path(state: DebounceState, steps: Seq<Step>, k: int, path: Seq<char>)
    requires
        well_formed(state.records),
        0 <= k < steps.len(),
    ensures
        reported_at(state, steps, k, path) == tells(
            held_after(state, steps.take(k), path),
            steps[k],
            state.timeout,
        ),
        held_after(state, steps.take(k + 1), path) == carry(
            held_after(state, steps.take(k), path),
            steps[k],
            path,
            state.timeout,
        ),
        reported_at(state, steps, k, path).len() <= 1,
{
    let before = run(state, steps.take(k));
    lemma_run_well_formed(state, steps.take(k));
    assert(steps.take(k + 1).drop_last() =~= steps.take(k));
    assert(steps.take(k + 1).last() == steps[k]);
    match steps[k] {
        Step::Event { paths, at } => {
            lemma_lookup_fold_event(before.records, paths, at, path);
        },
        Step::Failure { error } => {},
        Step::Sweep { at } => {
            lemma_lookup_retained(before.records, at, before.timeout, path);
            lemma_emitted_about(before.records, at, before.timeout, path);
        },
    }
}

/// A path that is not tracked stays untracked until a raw event names it.
pub proof fn lemma_untracked_stays(
    state: DebounceState,
    steps: Seq<Step>,
    from: int,
    to: int,
    path: Seq<char>,
)
    requires
        well_formed(state.records),
        0 <= from <= to <= steps.len(),
        held_after(state, steps.take(from), path) is None,
        forall|j: int| from <= j < to ==> !(#[trigger] steps[j]).names(path),
    ensures
        held_after(state, steps.take(to), path) is None,
    decreases to - from,
{
    if from < to {
        lemma_untracked_stays(state, steps, from, to - 1, path);
        lemma_step_on_path(state, steps, to - 1, path);
        assert(!steps[to - 1].names(path));
    }
}

/// A sweep reports at most one event for a path, so never the settled and
/// the continuous event together.
pub proof fn lemma_reported_at_most_once(state: DebounceState, steps: Seq<Step>, k: int, path: Seq<char>)
    requires
        well_formed(state.records),
        0 <= k < steps.len(),
    ensures
        reported_at(state, steps, k, path).len() <= 1,
        forall|i: int|
            0 <= i < reported_at(state, steps, k, path).len() ==> (#[trigger] reported_at(
                state,
                steps,
                k,
                path,
            )[i]).path == path,
{
    lemma_step_on_path(state, steps, k, path);
    lemma_run_well_formed(state, steps.take(k));
    crate::projection::lemma_lookup_is_member(run(state, steps.take(k)).records, path);
}

/// Once a sweep has reported a path as settled, no later step reports
/// anything of that path until a raw event names it again: the path is
/// forgotten.
pub proof fn lemma_silent_after_settling(
    state: DebounceState,
    steps: Seq<Step>,
    k: int,
    m: int,
    path: Seq<char>,
)
    requires
        well_formed(state.records),
        0 <= k < m < steps.len(),
        reported_at(state, steps, k, path).contains(any_of(path)),
        forall|j: int| k < j < m ==> !(#[trigger] steps[j]).names(path),
    ensures
        held_after(state, steps.take(k + 1), path) is None,
        reported_at(state, steps, m, path) == Seq::<Emission>::empty(),
{
    lemma_step_on_path(state, steps, k, path);
    let told = reported_at(state, steps, k, path);
    let i = choose|i: int| 0 <= i < told.len() && told[i] == any_of(path);
    assert(told[i] == any_of(path));
    lemma_untracked_stays(state, steps, k + 1, m, path);
    lemma_step_on_path(state, steps, m, path);
}

/// Whether the second step does not come before the first, by their instants.
pub open spec fn not_before(first: Step, second: Step) -> bool {
    first.when() is Some && second.when() is Some ==> first.when()->0 <= second.when()->0
}

/// The steps of a history come in the order of their instants, as they do
/// where the instants are read from a monotonic clock.
pub open spec fn in_time_order(steps: Seq<Step>) -> bool {
    forall|i: int, j: int| 0 <= i < j < steps.len() ==> not_before(#[trigger] steps[i], #[trigger] steps[j])
}

/// The instant of the latest raw event of a history that names `path`.
pub open spec fn last_seen(steps: Seq<Step>, path: Seq<char>) -> Option<nat>
    decreases steps.len(),
{
    if steps.len() == 0 {
        None
    } else if steps.last().names(path) {
        steps.last().when()
    } else {
        last_seen(steps.drop_last(), path)
    }
}

/// The latest raw event that names a path is one of the steps, and no later
/// step names the path.
pub proof fn lemma_last_seen_step(steps: Seq<Step>, path: Seq<char>) -> (i: int)
    requires
        last_seen(steps, path) is Some,
    ensures
        0 <= i < steps.len(),
        steps[i].names(path),
        steps[i].when() == last_seen(steps, path),
        forall|j: int| i < j < steps.len() ==> !(#[trigger] steps[j]).names(path),
    decreases steps.len(),
{
    if steps.last().names(path) {
        steps.len() - 1
    } else {
        let i = lemma_last_seen_step(steps.drop_last(), path);
        assert(steps.drop_last()[i] == steps[i]);
        assert forall|j: int| i < j < steps.len() implies !(#[trigger] steps[j]).names(path) by {
            if j < steps.len() - 1 {
                assert(steps.drop_last()[j] == steps[j]);
            }
        }
        i
    }
}

/// Where no step after step `i` names a path, the path was last seen at
/// step `i` or before.
pub proof fn lemma_last_seen_unchanged(steps: Seq<Step>, from: int, to: int, path: Seq<char>)
    requires
        0 <= from <= to <= steps.len(),
        forall|j: int| from <= j < to ==> !(#[trigger] steps[j]).names(path),
    ensures
        last_seen(steps.take(to), path) == last_seen(steps.take(from), path),
    decreases to - from,
{
    if from < to {
        lemma_last_seen_unchanged(steps, from, to - 1, path);
        assert(steps.take(to).drop_last() =~= steps.take(to - 1));
        assert(steps.take(to).last() == steps[to - 1]);
    }
}

/// A part of a history in time order is in time order.
pub proof fn lemma_prefix_in_time_order(steps: Seq<Step>, k: int)
    requires
        in_time_order(steps),
        0 <= k <= steps.len(),
    ensures
        in_time_order(steps.take(k)),
{
    assert forall|i: int, j: int| 0 <= i < j < steps.take(k).len() implies not_before(
        #[trigger] steps.take(k)[i],
        #[trigger] steps.take(k)[j],
    ) by {
        assert(not_before(steps[i], steps[j]));
    }
}

/// In a history that starts with nothing tracked and runs in time order, a
/// tracked path was last updated when it was last seen.
pub proof fn lemma_held_follows_last_seen(timeout: nat, steps: Seq<Step>, path: Seq<char>)
    requires
        in_time_order(steps),
    ensures
        held_after(DebounceState::empty(timeout), steps, path) matches Some(r) ==> r.path == path
            && last_seen(steps, path) == Some(r.updated_at) && r.inserted_at <= r.updated_at,
    decreases steps.len(),
{
    let start = DebounceState::empty(timeout);
    if steps.len() == 0 {
        assert(lookup(start.records, path) is None);
    } else {
        let k = steps.len() - 1;
        let front = steps.drop_last();
        assert(front =~= steps.take(k));
        assert(steps.take(k + 1) =~= steps);
        lemma_prefix_in_time_order(steps, k);
        lemma_held_follows_last_seen(timeout, front, path);
        lemma_step_on_path(start, steps, k, path);
        if steps[k].names(path) {
            match held_after(start, front, path) {
                Some(r0) => {
                    let i = lemma_last_seen_step(front, path);
                    assert(front[i] == steps[i]);
                    assert(not_before(steps[i], steps[k]));
                },
                None => {},
            }
        }
    }
}

/// A path that keeps being stimulated is reported as continuous, never as
/// settled. Let the path be untracked before step `first`, which names it at
/// `since`, and let each later sweep up to step `k` find the path's latest
/// raw event less than the timeout old. Then sweep `k` reports nothing of
/// the path while less than the timeout has passed since `since`, and exactly
/// one continuous event from then on.
pub proof fn lemma_continuous_while_stimulated(
    timeout: nat,
    steps: Seq<Step>,
    first: int,
    k: int,
    path: Seq<char>,
)
    requires
        in_time_order(steps),
        0 <= first < k < steps.len(),
        held_after(DebounceState::empty(timeout), steps.take(first), path) is None,
        steps[first].names(path),
        steps[k] is Sweep,
        forall|j: int|
            first < j <= k && (#[trigger] steps[j]) is Sweep ==> age(
                steps[j].when()->0,
                last_seen(steps.take(j), path)->0,
            ) < timeout,
    ensures
        reported_at(DebounceState::empty(timeout), steps, k, path) == if age(
            steps[k].when()->0,
            steps[first].when()->0,
        ) >= timeout {
            seq![continuous_of(path)]
        } else {
            Seq::<Emission>::empty()
        },
        held_after(DebounceState::empty(timeout), steps.take(k + 1), path) is Some,
{
    let start = DebounceState::empty(timeout);
    lemma_stimulated_record(timeout, steps, first, k, path);
    lemma_step_on_path(start, steps, k, path);
    assert(steps[k] is Sweep);
}

/// The record of a path that keeps being stimulated: it stays, with the
/// instant of its first raw event.
pub proof fn lemma_stimulated_record(timeout: nat, steps: Seq<Step>, first: int, j: int, path: Seq<char>)
    requires
        in_time_order(steps),
        0 <= first < j <= steps.len(),
        held_after(DebounceState::empty(timeout), steps.take(first), path) is None,
        steps[first].names(path),
        forall|i: int|
            first < i < j && (#[trigger] steps[i]) is Sweep ==> age(
                steps[i].when()->0,
                last_seen(steps.take(i), path)->0,
            ) < timeout,
    ensures
        held_after(DebounceState::empty(timeout), steps.take(j), path) matches Some(r) && r.path == path
            && r.inserted_at == steps[first].when()->0 && last_seen(steps.take(j), path) == Some(
            r.updated_at,
        ),
    decreases j - first,
{
    let start = DebounceState::empty(timeout);
    lemma_prefix_in_time_order(steps, j);
    lemma_held_follows_last_seen(timeout, steps.take(j), path);
    lemma_step_on_path(start, steps, j - 1, path);
    if j > first + 1 {
        lemma_stimulated_record(timeout, steps, first, j - 1, path);
        assert(steps[j - 1] is Sweep ==> age(
            steps[j - 1].when()->0,
            last_seen(steps.take(j - 1), path)->0,
        ) < timeout);
    }
}

/// The record of a path after its latest raw event, while no sweep has found
/// it quiet for the timeout: it stays, last updated at that raw event.
pub proof fn lemma_quiet_record(timeout: nat, steps: Seq<Step>, last: int, j: int, path: Seq<char>)
    requires
        in_time_order(steps),
        0 <= last < j <= steps.len(),
        steps[last].names(path),
        forall|i: int| last < i < j ==> !(#[trigger] steps[i]).names(path),
        forall|i: int|
            last < i < j && (#[trigger] steps[i]) is Sweep ==> age(
                steps[i].when()->0,
                steps[last].when()->0,
            ) < timeout,
    ensures
        held_after(DebounceState::empty(timeout), steps.take(j), path) matches Some(r) && r.path == path
            && r.updated_at == steps[last].when()->0,
    decreases j - last,
{
    let start = DebounceState::empty(timeout);
    lemma_prefix_in_time_order(steps, j);
    lemma_held_follows_last_seen(timeout, steps.take(j), path);
    lemma_last_seen_unchanged(steps, last + 1, j, path);
    assert(steps.take(last + 1).last() == steps[last]);
    lemma_step_on_path(start, steps, j - 1, path);
    if j > last + 1 {
        lemma_quiet_record(timeout, steps, last, j - 1, path);
        assert(!steps[j - 1].names(path));
    }
}

/// A path settles once. Let step `last` be the latest raw event that names
/// the path, at instant `t`, and let no sweep between it and sweep `k` have
/// come `timeout` or more after `t`. If sweep `k` comes before `t + timeout`
/// too, it does not report the path as settled, and the path stays tracked.
/// If it comes at `t + timeout` or later, it reports exactly one event for the
/// path, the settled one, and forgets the path.
pub proof fn lemma_settles_once(timeout: nat, steps: Seq<Step>, last: int, k: int, path: Seq<char>)
    requires
        in_time_order(steps),
        0 <= last < k < steps.len(),
        steps[last].names(path),
        forall|j: int| last < j <= k ==> !(#[trigger] steps[j]).names(path),
        steps[k] is Sweep,
        forall|j: int|
            last < j < k && (#[trigger] steps[j]) is Sweep ==> age(
                steps[j].when()->0,
                steps[last].when()->0,
            ) < timeout,
    ensures
        age(steps[k].when()->0, steps[last].when()->0) >= timeout ==> {
            &&& reported_at(DebounceState::empty(timeout), steps, k, path) == seq![any_of(path)]
            &&& held_after(DebounceState::empty(timeout), steps.take(k + 1), path) is None
        },
        age(steps[k].when()->0, steps[last].when()->0) < timeout ==> {
            &&& !reported_at(DebounceState::empty(timeout), steps, k, path).contains(any_of(path))
            &&& held_after(DebounceState::empty(timeout), steps.take(k + 1), path) is Some
        },
{
    let start = DebounceState::empty(timeout);
    lemma_quiet_record(timeout, steps, last, k, path);
    lemma_step_on_path(start, steps, k, path);
    let told = reported_at(start, steps, k, path);
    if age(steps[k].when()->0, steps[last].when()->0) < timeout {
        if told.contains(any_of(path)) {
            let i = choose|i: int| 0 <= i < told.len() && told[i] == any_of(path);
            assert(told[i] == any_of(path));
        }
    }
}

/// However often a path is named before it falls quiet, it is reported as
/// settled exactly once. Let step `last` be the latest raw event that names
/// the path, and sweep `k` the first that comes `timeout` or more after it.
/// Then of all the steps after `last` up to step `m`, sweep `k` is the one that
/// reports the path as settled, and after it nothing is reported of the path.
pub proof fn lemma_settled_exactly_once(
    timeout: nat,
    steps: Seq<Step>,
    last: int,
    k: int,
    m: int,
    path: Seq<char>,
)
    requires
        in_time_order(steps),
        0 <= last < k <= m < steps.len(),
        steps[last].names(path),
        forall|j: int| last < j <= m ==> !(#[trigger] steps[j]).names(path),
        steps[k] is Sweep,
        age(steps[k].when()->0, steps[last].when()->0) >= timeout,
        forall|j: int|
            last < j < k && (#[trigger] steps[j]) is Sweep ==> age(
                steps[j].when()->0,
                steps[last].when()->0,
            ) < timeout,
    ensures
        reported_at(DebounceState::empty(timeout), steps, k, path) == seq![any_of(path)],
        forall|j: int|
            last <= j < k ==> !(#[trigger] reported_at(
                DebounceState::empty(timeout),
                steps,
                j,
                path,
            )).contains(any_of(path)),
        forall|j: int|
            k < j <= m ==> #[trigger] reported_at(DebounceState::empty(timeout), steps, j, path)
                == Seq::<Emission>::empty(),
{
    let start = DebounceState::empty(timeout);
    lemma_settles_once(timeout, steps, last, k, path);
    assert(seq![any_of(path)][0] == any_of(path));
    assert forall|j: int| last <= j < k implies !(#[trigger] reported_at(start, steps, j, path)).contains(
        any_of(path),
    ) by {
        if steps[j] is Sweep {
            assert(j > last);
            lemma_settles_once(timeout, steps, last, j, path);
        } else {
            assert(reported_at(start, steps, j, path) =~= Seq::<Emission>::empty());
        }
    }
    assert forall|j: int| k < j <= m implies #[trigger] reported_at(start, steps, j, path) == Seq::<
        Emission,
    >::empty() by {
        lemma_silent_after_settling(start, steps, k, j, path);
    }
}

/// A burst settles once. Let the steps from `first` to `last` hold no sweep,
/// as where they all fall within one tick, and let step `last` be the latest
/// raw event that names the path. However many of the steps of the burst name
/// the path, of all the steps from `first` to `m` exactly one reports the path
/// as settled: sweep `k`, the first that comes `timeout` or more after step
/// `last`.
pub proof fn lemma_burst_settles_once(
    timeout: nat,
    steps: Seq<Step>,
    first: int,
    last: int,
    k: int,
    m: int,
    path: Seq<char>,
)
    requires
        in_time_order(steps),
        0 <= first <= last < k <= m < steps.len(),
        forall|j: int| first <= j <= last ==> !((#[trigger] steps[j]) is Sweep),
        steps[last].names(path),
        forall|j: int| last < j <= m ==> !(#[trigger] steps[j]).names(path),
        steps[k] is Sweep,
        age(steps[k].when()->0, steps[last].when()->0) >= timeout,
        forall|j: int|
            last < j < k && (#[trigger] steps[j]) is Sweep ==> age(
                steps[j].when()->0,
                steps[last].when()->0,
            ) < timeout,
    ensures
        reported_at(DebounceState::empty(timeout), steps, k, path) == seq![any_of(path)],
        forall|j: int|
            first <= j <= m && j != k ==> !(#[trigger] reported_at(
                DebounceState::empty(timeout),
                steps,
                j,
                path,
            )).contains(any_of(path)),
{
    let start = DebounceState::empty(timeout);
    lemma_settled_exactly_once(timeout, steps, last, k, m, path);
    assert forall|j: int| first <= j <= m && j != k implies !(#[trigger] reported_at(
        start,
        steps,
        j,
        path,
    )).contains(any_of(path)) by {
        if j < last {
            assert(!(steps[j] is Sweep));
            assert(reported_at(start, steps, j, path) =~= Seq::<Emission>::empty());
        } else if j > k {
            assert(reported_at(start, steps, j, path) == Seq::<Emission>::empty());
        }
    }
}

/// How soon a path settles. Where the sweep that finds a path settled comes no
/// more than one tick after a step at which the path's latest raw event was
/// still less than the timeout old, it comes less than the timeout and a tick
/// after that raw event.
pub proof fn lemma_settles_within_a_tick(seen_at: nat, before: nat, swept_at: nat, timeout: nat, tick: nat)
    requires
        seen_at <= before <= swept_at,
        age(before, seen_at) < timeout,
        swept_at - before <= tick,
    ensures
        age(swept_at, seen_at) < timeout + tick,
{
}

/// The instants of the sweeps of a history, in their order.
pub open spec fn sweep_times(steps: Seq<Step>) -> Seq<nat>
    decreases steps.len(),
{
    if steps.len() == 0 {
        Seq::empty()
    } else {
        match steps.last() {
            Step::Sweep { at } => sweep_times(steps.drop_last()).push(at),
            _ => sweep_times(steps.drop_last()),
        }
    }
}

/// How many events about `path` a history reports in all.
pub open spec fn times_reported(state: DebounceState, steps: Seq<Step>, path: Seq<char>) -> nat
    decreases steps.len(),
{
    if steps.len() == 0 {
        0
    } else {
        times_reported(state, steps.drop_last(), path) + reported_at(
            state,
            steps,
            steps.len() - 1,
            path,
        ).len()
    }
}

/// Any two of the instants are at least `tick` apart.
pub open spec fn spaced(times: Seq<nat>, tick: nat) -> bool {
    forall|i: int, j: int| 0 <= i < j < times.len() ==> #[trigger] times[i] + tick <= #[trigger] times[j]
}

/// A history reports a path no more often than it sweeps.
pub proof fn lemma_reports_at_most_sweeps(state: DebounceState, steps: Seq<Step>, path: Seq<char>)
    requires
        well_formed(state.records),
    ensures
        times_reported(state, steps, path) <= sweep_times(steps).len(),
    decreases steps.len(),
{
    if steps.len() > 0 {
        let front = steps.drop_last();
        lemma_reports_at_most_sweeps(state, front, path);
        lemma_step_on_path(state, steps, steps.len() - 1, path);
    }
}

/// Instants that are a tick apart fill their window: between the first and
/// the last of `n` of them lie at least `n - 1` ticks.
pub proof fn lemma_spaced_times_fill_window(times: Seq<nat>, tick: nat)
    requires
        tick > 0,
        times.len() > 0,
        spaced(times, tick),
    ensures
        (times.len() - 1) * tick <= times.last() - times[0],
        times.len() <= (times.last() - times[0]) / (tick as int) + 1,
    decreases times.len(),
{
    let n = times.len() as int;
    if n > 1 {
        let front = times.drop_last();
        assert(spaced(front, tick)) by {
            assert forall|i: int, j: int| 0 <= i < j < front.len() implies #[trigger] front[i] + tick
                <= #[trigger] front[j] by {
                assert(times[i] + tick <= times[j]);
            }
        }
        lemma_spaced_times_fill_window(front, tick);
        assert(times[n - 2] + tick <= times[n - 1]);
        assert(front.last() == times[n - 2]);
        assert((n - 1) * tick == (n - 2) * tick + tick) by (nonlinear_arith);
    } else {
        assert((n - 1) * tick == 0) by (nonlinear_arith)
            requires
                n == 1,
        ;
    }
    let window = times.last() - times[0];
    assert(n - 1 <= window / (tick as int)) by (nonlinear_arith)
        requires
            (n - 1) * tick <= window,
            tick > 0,
    ;
}

/// A path is reported at most once for each tick of the window in which the
/// sweeps fall, and once more. Where the sweeps are at least `tick` apart, the
/// events that a history reports of a path are no more than the window from
/// its first sweep to its last, divided by the tick, plus one.
pub proof fn lemma_reports_bounded_by_window(
    state: DebounceState,
    steps: Seq<Step>,
    path: Seq<char>,
    tick: nat,
)
    requires
        well_formed(state.records),
        tick > 0,
        spaced(sweep_times(steps), tick),
    ensures
        sweep_times(steps).len() == 0 ==> times_reported(state, steps, path) == 0,
        sweep_times(steps).len() > 0 ==> times_reported(state, steps, path) <= (sweep_times(
            steps,
        ).last() - sweep_times(steps)[0]) / (tick as int) + 1,
{
    lemma_reports_at_most_sweeps(state, steps, path);
    if sweep_times(steps).len() > 0 {
        lemma_spaced_times_fill_window(sweep_times(steps), tick);
    }
}

/// The errors that the watcher raises in a history, in their order.
pub open spec fn failures(steps: Seq<Step>) -> Seq<notify::Error>
    decreases steps.len(),
{
    if steps.len() == 0 {
        Seq::empty()
    } else {
        match steps.last() {
            Step::Failure { error } => failures(steps.drop_last()).push(error),
            _ => failures(steps.drop_last()),
        }
    }
}

/// A history splits at any step: the state after the whole is the state
/// after its later part, started from the state after its earlier part.
pub proof fn lemma_run_split(state: DebounceState, steps: Seq<Step>, k: int)
    requires
        0 <= k <= steps.len(),
    ensures
        run(state, steps) == run(run(state, steps.take(k)), steps.skip(k)),
    decreases steps.len() - k,
{
    if k == steps.len() {
        assert(steps.take(k) =~= steps);
        assert(steps.skip(k) =~= Seq::<Step>::empty());
    } else {
        lemma_run_split(state, steps.drop_last(), k);
        assert(steps.drop_last().take(k) =~= steps.take(k));
        assert(steps.skip(k).drop_last() =~= steps.drop_last().skip(k));
    }
}

/// While no sweep comes, the errors wait in the order in which they were
/// raised, behind those that waited already.
pub proof fn lemma_errors_wait_in_order(state: DebounceState, steps: Seq<Step>)
    requires
        forall|i: int| 0 <= i < steps.len() ==> !((#[trigger] steps[i]) is Sweep),
    ensures
        run(state, steps).errors == state.errors + failures(steps),
    decreases steps.len(),
{
    if steps.len() == 0 {
        assert(state.errors + failures(steps) =~= state.errors);
    } else {
        let front = steps.drop_last();
        assert forall|i: int| 0 <= i < front.len() implies !((#[trigger] front[i]) is Sweep) by {
            assert(front[i] == steps[i]);
        }
        lemma_errors_wait_in_order(state, front);
        assert(!(steps[steps.len() - 1] is Sweep));
        match steps.last() {
            Step::Failure { error } => {
                assert((state.errors + failures(front)).push(error) =~= state.errors + failures(
                    front,
                ).push(error));
            },
            _ => {},
        }
    }
}

/// Every sweep delivers the errors raised since the sweep before it, all of
/// them, in the order in which they were raised, and leaves none behind. Let
/// sweep `k` be the first sweep from step `from` on, where `from` is the
/// start of the history or the step after an earlier sweep.
pub proof fn lemma_errors_delivered_in_order(state: DebounceState, steps: Seq<Step>, from: int, k: int)
    requires
        0 <= from <= k < steps.len(),
        steps[k] is Sweep,
        forall|j: int| from <= j < k ==> !((#[trigger] steps[j]) is Sweep),
        from > 0 ==> steps[from - 1] is Sweep,
    ensures
        run(state, steps.take(k)).errors == if from == 0 {
            state.errors + failures(steps.subrange(from, k))
        } else {
            failures(steps.subrange(from, k))
        },
        delivered_at(state, steps, k) == deliveries(
            run(state, steps.take(k)).sweep_events(steps[k].when()->0),
            run(state, steps.take(k)).errors,
        ),
        run(state, steps.take(k + 1)).errors == Seq::<notify::Error>::empty(),
{
    let upto = steps.take(k);
    let since = steps.subrange(from, k);
    lemma_run_split(state, upto, from);
    assert(upto.skip(from) =~= since);
    assert(upto.take(from) =~= steps.take(from));
    let middle = run(state, steps.take(from));
    assert forall|i: int| 0 <= i < since.len() implies !((#[trigger] since[i]) is Sweep) by {
        assert(since[i] == steps[from + i]);
    }
    lemma_errors_wait_in_order(middle, since);
    if from > 0 {
        assert(steps.take(from).drop_last() =~= steps.take(from - 1));
        assert(steps.take(from).last() == steps[from - 1]);
        assert(middle.errors =~= Seq::<notify::Error>::empty());
        assert(middle.errors + failures(since) =~= failures(since));
    } else {
        assert(steps.take(0) =~= Seq::<Step>::empty());
    }
    assert(steps.take(k + 1).drop_last() =~= upto);
    assert(steps.take(k + 1).last() == steps[k]);
}

} // verus!
