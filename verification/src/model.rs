//! The debounce rules as mathematics.
//!
//! A path's record holds the instant of the first raw event of its current
//! window and the instant of the latest one. The records of a state form a
//! sequence in which no path occurs twice. Instants and spans are natural
//! numbers of nanoseconds.
use vstd::prelude::*;
use crate::event::{DebouncedEventKind, Emission};

verus! {

/// What is remembered of one path.
pub struct PathRecord {
    /// The path's characters.
    pub path: Seq<char>,
    /// When the first raw event of the current window was seen.
    pub inserted_at: nat,
    /// When the latest raw event was seen.
    pub updated_at: nat,
}

/// The time from `since` to `now`; zero where `now` lies before `since`.
pub open spec fn age(now: nat, since: nat) -> nat {
    if now >= since {
        (now - since) as nat
    } else {
        0
    }
}

/// A path has settled when its latest raw event is at least `timeout` old.
pub open spec fn settled(r: PathRecord, now: nat, timeout: nat) -> bool {
    age(now, r.updated_at) >= timeout
}

/// A path is continuous when it has not settled although its first raw event
/// is at least `timeout` old.
pub open spec fn continuous(r: PathRecord, now: nat, timeout: nat) -> bool {
    !settled(r, now, timeout) && age(now, r.inserted_at) >= timeout
}

/// What a sweep at `now` reports for one record, if anything. Where both ages
/// have reached the timeout the path counts as settled.
pub open spec fn verdict(r: PathRecord, now: nat, timeout: nat) -> Option<Emission> {
    if settled(r, now, timeout) {
        Some(Emission { path: r.path, kind: DebouncedEventKind::Any })
    } else if continuous(r, now, timeout) {
        Some(Emission { path: r.path, kind: DebouncedEventKind::AnyContinuous })
    } else {
        None
    }
}

/// The events of a sweep at `now`, in the order of the records.
pub open spec fn emitted(records: Seq<PathRecord>, now: nat, timeout: nat) -> Seq<Emission> {
    records.filter_map(|r: PathRecord| verdict(r, now, timeout))
}

/// The records that a sweep at `now` leaves behind: those that have not
/// settled, unchanged and in their order.
pub open spec fn retained(records: Seq<PathRecord>, now: nat, timeout: nat) -> Seq<PathRecord> {
    records.filter(|r: PathRecord| !settled(r, now, timeout))
}

/// Whether some record is about `path`.
pub open spec fn tracks(records: Seq<PathRecord>, path: Seq<char>) -> bool {
    exists|i: int| 0 <= i < records.len() && #[trigger] records[i].path == path
}

/// The record of a path seen for the first time at `now`.
pub open spec fn fresh(path: Seq<char>, now: nat) -> PathRecord {
    PathRecord { path, inserted_at: now, updated_at: now }
}

/// A record after another raw event at `now`: the latest instant moves to
/// `now`, and never backwards.
pub open spec fn refreshed(r: PathRecord, now: nat) -> PathRecord {
    PathRecord { updated_at: if now >= r.updated_at { now } else { r.updated_at }, ..r }
}

/// The records after one raw event for `path` at `now`: a tracked path is
/// refreshed in place, an untracked one gets a fresh record at the end.
pub open spec fn touch(records: Seq<PathRecord>, path: Seq<char>, now: nat) -> Seq<PathRecord> {
    if tracks(records, path) {
        Seq::new(
            records.len(),
            |i: int| if records[i].path == path { refreshed(records[i], now) } else { records[i] },
        )
    } else {
        records.push(fresh(path, now))
    }
}

/// The records after a raw event that names `paths`, all seen at `now`.
pub open spec fn fold_event(records: Seq<PathRecord>, paths: Seq<Seq<char>>, now: nat) -> Seq<PathRecord>
    decreases paths.len(),
{
    if paths.len() == 0 {
        records
    } else {
        touch(fold_event(records, paths.drop_last(), now), paths.last(), now)
    }
}

/// No path has two records, and no record was updated before it was inserted.
pub open spec fn well_formed(records: Seq<PathRecord>) -> bool {
    &&& forall|i: int, j: int|
        0 <= i < j < records.len() ==> #[trigger] records[i].path != #[trigger] records[j].path
    &&& forall|i: int| 0 <= i < records.len() ==> (#[trigger] records[i]).inserted_at <= records[i].updated_at
}

/// The mathematical value of the debounce state.
pub struct DebounceState {
    /// One record for each path that is being debounced, oldest first.
    pub records: Seq<PathRecord>,
    /// How long a path must be quiet before it is reported as settled.
    pub timeout: nat,
    /// The watcher errors that wait for the next sweep, oldest first.
    pub errors: Seq<notify::Error>,
}

impl DebounceState {
    /// The state that debounces nothing yet.
    pub open spec fn empty(timeout: nat) -> DebounceState {
        DebounceState { records: Seq::empty(), timeout, errors: Seq::empty() }
    }

    /// The state after a raw event that names `paths`, seen at `now`.
    pub open spec fn after_event(self, paths: Seq<Seq<char>>, now: nat) -> DebounceState {
        DebounceState { records: fold_event(self.records, paths, now), ..self }
    }

    /// The state after the watcher has raised `error`.
    pub open spec fn after_error(self, error: notify::Error) -> DebounceState {
        DebounceState { errors: self.errors.push(error), ..self }
    }

    /// The events that a sweep at `now` reports.
    pub open spec fn sweep_events(self, now: nat) -> Seq<Emission> {
        emitted(self.records, now, self.timeout)
    }

    /// The state after a sweep at `now` has taken its events.
    pub open spec fn after_sweep(self, now: nat) -> DebounceState {
        DebounceState { records: retained(self.records, now, self.timeout), ..self }
    }

    /// The state after the pending errors have been taken.
    pub open spec fn drained(self) -> DebounceState {
        DebounceState { errors: Seq::empty(), ..self }
    }
}

/// Folding the first `i + 1` paths of an event is folding the first `i` and
/// then touching the next.
pub proof fn lemma_fold_event_step(records: Seq<PathRecord>, paths: Seq<Seq<char>>, i: int, now: nat)
    requires
        0 <= i < paths.len(),
    ensures
        fold_event(records, paths.take(i + 1), now) == touch(
            fold_event(records, paths.take(i), now),
            paths[i],
            now,
        ),
{
    assert(paths.take(i + 1).drop_last() =~= paths.take(i));
}

/// What a sweep does with the first `i + 1` records follows from what it does
/// with the first `i` and from the next record alone.
pub proof fn lemma_sweep_step(records: Seq<PathRecord>, i: int, now: nat, timeout: nat)
    requires
        0 <= i < records.len(),
    ensures
        retained(records.take(i + 1), now, timeout) == if settled(records[i], now, timeout) {
            retained(records.take(i), now, timeout)
        } else {
            retained(records.take(i), now, timeout).push(records[i])
        },
        emitted(records.take(i + 1), now, timeout) == match verdict(records[i], now, timeout) {
            Some(e) => emitted(records.take(i), now, timeout).push(e),
            None => emitted(records.take(i), now, timeout),
        },
{
    reveal(Seq::filter);
    assert(records.take(i + 1).drop_last() =~= records.take(i));
    let rest = emitted(records.take(i), now, timeout);
    match verdict(records[i], now, timeout) {
        Some(e) => {
            assert(rest + seq![e] =~= rest.push(e));
        },
        None => {},
    }
}

/// Touching a path keeps the records well formed.
pub proof fn lemma_touch_well_formed(records: Seq<PathRecord>, path: Seq<char>, now: nat)
    requires
        well_formed(records),
    ensures
        well_formed(touch(records, path, now)),
{
}

/// A second raw event for the same path at the same instant changes nothing.
pub proof fn lemma_touch_again(records: Seq<PathRecord>, path: Seq<char>, now: nat)
    ensures
        touch(touch(records, path, now), path, now) == touch(records, path, now),
{
    let once = touch(records, path, now);
    if tracks(records, path) {
        let i = choose|i: int| 0 <= i < records.len() && #[trigger] records[i].path == path;
        assert(once[i].path == path);
    } else {
        assert(once[records.len() as int].path == path);
    }
    assert(tracks(once, path));
    assert(touch(once, path, now) =~= once);
}

/// A raw event that names one path any number of times does what a raw event
/// that names it once does.
pub proof fn lemma_repeated_path_counts_once(
    records: Seq<PathRecord>,
    paths: Seq<Seq<char>>,
    path: Seq<char>,
    now: nat,
)
    requires
        paths.len() >= 1,
        forall|i: int| 0 <= i < paths.len() ==> paths[i] == path,
    ensures
        fold_event(records, paths, now) == touch(records, path, now),
    decreases paths.len(),
{
    let front = paths.drop_last();
    assert(paths.last() == path);
    if front.len() == 0 {
        assert(fold_event(records, front, now) == records);
    } else {
        lemma_repeated_path_counts_once(records, front, path, now);
        lemma_touch_again(records, path, now);
    }
}

/// A raw event keeps the records well formed.
pub proof fn lemma_fold_event_well_formed(records: Seq<PathRecord>, paths: Seq<Seq<char>>, now: nat)
    requires
        well_formed(records),
    ensures
        well_formed(fold_event(records, paths, now)),
    decreases paths.len(),
{
    if paths.len() > 0 {
        lemma_fold_event_well_formed(records, paths.drop_last(), now);
        lemma_touch_well_formed(fold_event(records, paths.drop_last(), now), paths.last(), now);
    }
}

/// A sweep keeps the records well formed, and each record that it retains
/// was there before and has not settled.
pub proof fn lemma_retained_well_formed(records: Seq<PathRecord>, now: nat, timeout: nat)
    requires
        well_formed(records),
    ensures
        well_formed(retained(records, now, timeout)),
        forall|k: int|
            0 <= k < retained(records, now, timeout).len() ==> {
                &&& records.contains(#[trigger] retained(records, now, timeout)[k])
                &&& !settled(retained(records, now, timeout)[k], now, timeout)
            },
    decreases records.len(),
{
    reveal(Seq::filter);
    if records.len() > 0 {
        let front = records.drop_last();
        let last = records.last();
        lemma_retained_well_formed(front, now, timeout);
        let kept = retained(front, now, timeout);
        let all = retained(records, now, timeout);
        assert forall|k: int| 0 <= k < kept.len() implies records.contains(#[trigger] kept[k])
            && kept[k].path != last.path by {
            let at = choose|at: int| 0 <= at < front.len() && front[at] == kept[k];
            assert(records[at] == kept[k]);
        }
        if !settled(last, now, timeout) {
            assert(all == kept.push(last));
            assert(records[records.len() - 1] == last);
        }
    }
}

} // verus!
