//! What the records say of one path.
//!
//! The records are a sequence, but each path lives in them on its own: what
//! an event or a sweep does to a path's record depends on that record alone.
//! The lemmas here reduce the rules on sequences to rules on one optional
//! record.
use vstd::prelude::*;
use crate::event::Emission;
use crate::model::{
    emitted, fold_event, fresh, lemma_fold_event_well_formed, lemma_retained_well_formed,
    lemma_touch_well_formed, refreshed, retained, settled, touch, tracks, verdict, well_formed,
    PathRecord,
};

verus! {

/// The record kept for `path`, if there is one.
pub open spec fn lookup(records: Seq<PathRecord>, path: Seq<char>) -> Option<PathRecord> {
    if tracks(records, path) {
        Some(records[choose|i: int| 0 <= i < records.len() && #[trigger] records[i].path == path])
    } else {
        None
    }
}

/// A path's record after a raw event for the path at `now`.
pub open spec fn seen(held: Option<PathRecord>, path: Seq<char>, now: nat) -> Option<PathRecord> {
    match held {
        Some(r) => Some(refreshed(r, now)),
        None => Some(fresh(path, now)),
    }
}

/// A path's record after a sweep at `now`.
pub open spec fn swept(held: Option<PathRecord>, now: nat, timeout: nat) -> Option<PathRecord> {
    match held {
        Some(r) => if settled(r, now, timeout) {
            None
        } else {
            Some(r)
        },
        None => None,
    }
}

/// What a sweep at `now` reports of a path with this record.
pub open spec fn said(held: Option<PathRecord>, now: nat, timeout: nat) -> Seq<Emission> {
    match held {
        Some(r) => match verdict(r, now, timeout) {
            Some(e) => seq![e],
            None => Seq::empty(),
        },
        None => Seq::empty(),
    }
}

/// The events that are about `path`.
pub open spec fn about(path: Seq<char>) -> spec_fn(Emission) -> bool {
    |e: Emission| e.path == path
}

/// In well-formed records each record is the one kept for its path.
pub proof fn lemma_lookup_found(records: Seq<PathRecord>, i: int)
    requires
        well_formed(records),
        0 <= i < records.len(),
    ensures
        lookup(records, records[i].path) == Some(records[i]),
{
    let path = records[i].path;
    assert(tracks(records, path));
    let c = choose|c: int| 0 <= c < records.len() && #[trigger] records[c].path == path;
    if c < i {
        assert(records[c].path != records[i].path);
    } else if i < c {
        assert(records[i].path != records[c].path);
    }
}

/// The record kept for a path is about that path and is one of the records.
pub proof fn lemma_lookup_is_member(records: Seq<PathRecord>, path: Seq<char>)
    ensures
        lookup(records, path) matches Some(r) ==> r.path == path && records.contains(r),
        lookup(records, path) is Some <==> tracks(records, path),
{
}

/// A record added at the end is kept for its path and hides no other.
pub proof fn lemma_lookup_push(records: Seq<PathRecord>, r: PathRecord, path: Seq<char>)
    requires
        well_formed(records.push(r)),
    ensures
        well_formed(records),
        lookup(records.push(r), path) == if r.path == path {
            Some(r)
        } else {
            lookup(records, path)
        },
{
    let longer = records.push(r);
    assert forall|i: int, j: int| 0 <= i < j < records.len() implies #[trigger] records[i].path
        != #[trigger] records[j].path by {
        assert(longer[i].path != longer[j].path);
    }
    assert forall|i: int| 0 <= i < records.len() implies (#[trigger] records[i]).inserted_at
        <= records[i].updated_at by {
        assert(longer[i].inserted_at <= longer[i].updated_at);
    }
    if r.path == path {
        lemma_lookup_found(longer, records.len() as int);
    } else if tracks(records, path) {
        let i = choose|i: int| 0 <= i < records.len() && #[trigger] records[i].path == path;
        lemma_lookup_found(records, i);
        assert(longer[i] == records[i]);
        lemma_lookup_found(longer, i);
    } else {
        if tracks(longer, path) {
            let k = choose|k: int| 0 <= k < longer.len() && #[trigger] longer[k].path == path;
            assert(k < records.len());
            assert(records[k].path == path);
        }
    }
}

/// One raw event for `path` changes the record of that path and of no other.
pub proof fn lemma_lookup_touch(records: Seq<PathRecord>, path: Seq<char>, now: nat, other: Seq<char>)
    requires
        well_formed(records),
    ensures
        well_formed(touch(records, path, now)),
        lookup(touch(records, path, now), other) == if other == path {
            seen(lookup(records, path), path, now)
        } else {
            lookup(records, other)
        },
{
    let after = touch(records, path, now);
    lemma_touch_well_formed(records, path, now);
    if tracks(records, path) {
        let i = choose|i: int| 0 <= i < records.len() && #[trigger] records[i].path == path;
        lemma_lookup_found(records, i);
        assert(after[i] == refreshed(records[i], now));
        lemma_lookup_found(after, i);
        if other != path {
            if tracks(records, other) {
                let j = choose|j: int| 0 <= j < records.len() && #[trigger] records[j].path == other;
                lemma_lookup_found(records, j);
                assert(after[j] == records[j]);
                lemma_lookup_found(after, j);
            } else {
                if tracks(after, other) {
                    let k = choose|k: int| 0 <= k < after.len() && #[trigger] after[k].path == other;
                    assert(records[k].path == other);
                }
            }
        }
    } else {
        lemma_lookup_push(records, fresh(path, now), other);
    }
}

/// A raw event changes the records of the paths that it names, each as one
/// raw event for that path would, and of no others.
pub proof fn lemma_lookup_fold_event(
    records: Seq<PathRecord>,
    paths: Seq<Seq<char>>,
    now: nat,
    other: Seq<char>,
)
    requires
        well_formed(records),
    ensures
        well_formed(fold_event(records, paths, now)),
        lookup(fold_event(records, paths, now), other) == if paths.contains(other) {
            seen(lookup(records, other), other, now)
        } else {
            lookup(records, other)
        },
    decreases paths.len(),
{
    lemma_fold_event_well_formed(records, paths, now);
    if paths.len() > 0 {
        let front = paths.drop_last();
        let last = paths.last();
        lemma_lookup_fold_event(records, front, now, other);
        lemma_lookup_touch(fold_event(records, front, now), last, now, other);
        assert(paths[paths.len() - 1] == last);
        if front.contains(other) {
            let i = choose|i: int| 0 <= i < front.len() && front[i] == other;
            assert(paths[i] == other);
        }
        if paths.contains(other) && other != last {
            let i = choose|i: int| 0 <= i < paths.len() && paths[i] == other;
            assert(front[i] == other);
        }
    }
}

/// A sweep drops the record of a path that has settled and leaves every
/// other record as it is.
pub proof fn lemma_lookup_retained(records: Seq<PathRecord>, now: nat, timeout: nat, path: Seq<char>)
    requires
        well_formed(records),
    ensures
        well_formed(retained(records, now, timeout)),
        lookup(retained(records, now, timeout), path) == swept(lookup(records, path), now, timeout),
    decreases records.len(),
{
    reveal(Seq::filter);
    lemma_retained_well_formed(records, now, timeout);
    if records.len() > 0 {
        let front = records.drop_last();
        let last = records.last();
        assert(records =~= front.push(last));
        lemma_lookup_push(front, last, path);
        lemma_lookup_retained(front, now, timeout, path);
        let kept = retained(front, now, timeout);
        if !settled(last, now, timeout) {
            assert(retained(records, now, timeout) == kept.push(last));
            lemma_lookup_push(kept, last, path);
        }
    }
}

/// Filtering a sequence of one element keeps the element or nothing.
pub proof fn lemma_filter_one(e: Emission, pred: spec_fn(Emission) -> bool)
    ensures
        seq![e].filter(pred) == if pred(e) {
            seq![e]
        } else {
            Seq::<Emission>::empty()
        },
{
    reveal(Seq::filter);
    let one = seq![e];
    assert(one.drop_last() =~= Seq::<Emission>::empty());
    assert(one.drop_last().filter(pred) =~= Seq::<Emission>::empty());
    assert(one.last() == e);
    assert(Seq::<Emission>::empty().push(e) =~= one);
}

/// What a sweep reports of a path follows from the path's record alone: at
/// most one event, and one only where the record says so.
pub proof fn lemma_emitted_about(records: Seq<PathRecord>, now: nat, timeout: nat, path: Seq<char>)
    requires
        well_formed(records),
    ensures
        emitted(records, now, timeout).filter(about(path)) == said(lookup(records, path), now, timeout),
    decreases records.len(),
{
    reveal(Seq::filter);
    if records.len() > 0 {
        let front = records.drop_last();
        let last = records.last();
        assert(records =~= front.push(last));
        lemma_lookup_push(front, last, path);
        lemma_emitted_about(front, now, timeout, path);
        let rest = emitted(front, now, timeout);
        match verdict(last, now, timeout) {
            Some(e) => {
                assert(emitted(records, now, timeout) == rest + seq![e]);
                Seq::filter_distributes_over_add(rest, seq![e], about(path));
                lemma_filter_one(e, about(path));
                assert(e.path == last.path);
                if last.path == path {
                    assert(rest.filter(about(path)) + seq![e] =~= seq![e]);
                } else {
                    assert(rest.filter(about(path)) + Seq::<Emission>::empty() =~= rest.filter(
                        about(path),
                    ));
                }
            },
            None => {
                assert(emitted(records, now, timeout) == rest);
            },
        }
    } else {
        assert(!tracks(records, path));
    }
}

} // verus!
