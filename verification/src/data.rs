//! The debounce state: what the producer writes and the sweeper drains.
use vstd::prelude::*;
use crate::batch::{batches, deliveries, deliveries_of};
use crate::clock::Clock;
use crate::event::{DebouncedEvent, DebouncedEventKind};
use crate::projection::{lemma_lookup_found, lookup};
use crate::model::{
    age, emitted, fold_event, lemma_fold_event_step, lemma_retained_well_formed, lemma_sweep_step,
    retained, touch, tracks, well_formed, DebounceState, PathRecord,
};

verus! {

/// `notify::Error`, an error raised by the watcher. It is carried from the
/// producer to the consumer and never looked into.
#[verifier::external_type_specification]
#[verifier::external_body]
pub struct ExNotifyError(notify::Error);

/// The two instants kept for a path, in nanoseconds on the monotonic clock.
#[derive(Clone, Copy, Debug, PartialEq, Eq, Structural)]
pub struct EventData {
    /// Insertion time
    pub insert: u128,
    /// Last update
    pub update: u128,
}

impl EventData {
    /// The data of a path first seen at `now`.
    pub fn new_any(now: u128) -> (data: Self)
        ensures
            data.insert == now,
            data.update == now,
    {
        EventData { insert: now, update: now }
    }

    /// The record that this data makes for `path`.
    pub open spec fn record(self, path: Seq<char>) -> PathRecord {
        PathRecord { path, inserted_at: self.insert as nat, updated_at: self.update as nat }
    }
}

/// A path and its data.
struct Entry {
    path: String,
    data: EventData,
}

impl View for Entry {
    type V = PathRecord;

    closed spec fn view(&self) -> PathRecord {
        self.data.record(self.path@)
    }
}

/// The records that a sequence of entries stands for.
spec fn records_of(entries: Seq<Entry>) -> Seq<PathRecord> {
    entries.map_values(|e: Entry| e@)
}

/// The time from `since` to `now`, zero where `now` lies before `since`.
pub fn elapsed(now: u128, since: u128) -> (span: u128)
    ensures
        span == age(now as nat, since as nat),
{
    if now >= since {
        now - since
    } else {
        0
    }
}

/// Folds one raw event for `path` at `now` into `entries`.
fn touch_entries(entries: &mut Vec<Entry>, path: String, now: u128)
    requires
        well_formed(records_of(old(entries)@)),
    ensures
        records_of(final(entries)@) == touch(records_of(old(entries)@), path@, now as nat),
        well_formed(records_of(final(entries)@)),
{
    let ghost before = records_of(entries@);
    let mut i: usize = 0;
    while i < entries.len()
        invariant
            i <= entries.len(),
            entries@ == old(entries)@,
            before == records_of(entries@),
            well_formed(before),
            forall|j: int| 0 <= j < i ==> (#[trigger] entries@[j]).path@ != path@,
        decreases entries.len() - i,
    {
        if entries[i].path == path {
            let data: EventData = entries[i].data;
            let update: u128 = if now >= data.update { now } else { data.update };
            entries.set(i, Entry { path, data: EventData { insert: data.insert, update } });
            proof {
                assert(before[i as int].path == path@);
                assert(tracks(before, path@));
                assert(records_of(entries@) =~= touch(before, path@, now as nat));
            }
            return ;
        }
        i += 1;
    }
    proof {
        assert(!tracks(before, path@)) by {
            if tracks(before, path@) {
                let k = choose|k: int| 0 <= k < before.len() && #[trigger] before[k].path == path@;
                assert(entries@[k].path@ == path@);
            }
        }
    }
    entries.push(Entry { path, data: EventData::new_any(now) });
    proof {
        assert(records_of(entries@) =~= touch(before, path@, now as nat));
    }
}

/// The state shared by the producer and the sweeper.
pub struct DebounceDataInner {
    d: Vec<Entry>,
    timeout: u128,
    e: Vec<notify::Error>,
    clock: Clock,
}

impl View for DebounceDataInner {
    type V = DebounceState;

    closed spec fn view(&self) -> DebounceState {
        DebounceState { records: records_of(self.d@), timeout: self.timeout as nat, errors: self.e@ }
    }
}

impl DebounceDataInner {
    #[verifier::type_invariant]
    spec fn inv(self) -> bool {
        well_formed(records_of(self.d@))
    }

    /// The latest reading that the state has taken from its own clock, in
    /// nanoseconds; zero before the first.
    pub closed spec fn clock_reading(&self) -> nat {
        self.clock@
    }

    /// An empty state with the given timeout in nanoseconds.
    pub fn new(timeout: u128) -> (data: Self)
        ensures
            data@ == DebounceState::empty(timeout as nat),
            data.clock_reading() == 0,
    {
        let data = DebounceDataInner { d: Vec::new(), timeout, e: Vec::new(), clock: Clock::start() };
        proof {
            assert(records_of(data.d@) =~= Seq::empty());
        }
        data
    }

    /// The timeout in nanoseconds.
    pub fn timeout(&self) -> (timeout: u128)
        ensures
            timeout == self@.timeout,
    {
        self.timeout
    }

    /// How many paths are being debounced.
    pub fn len(&self) -> (n: usize)
        ensures
            n == self@.records.len(),
            well_formed(self@.records),
    {
        proof {
            use_type_invariant(self);
        }
        self.d.len()
    }

    /// How many watcher errors wait for the next sweep.
    pub fn pending_errors(&self) -> (n: usize)
        ensures
            n == self@.errors.len(),
    {
        self.e.len()
    }

    /// The instants kept for `path`, where the path is being debounced.
    pub fn get(&self, path: &String) -> (found: Option<EventData>)
        ensures
            match found {
                Some(data) => lookup(self@.records, path@) == Some(data.record(path@)),
                None => lookup(self@.records, path@) is None,
            },
    {
        proof {
            use_type_invariant(self);
        }
        let mut i: usize = 0;
        while i < self.d.len()
            invariant
                i <= self.d.len(),
                well_formed(records_of(self.d@)),
                forall|j: int| 0 <= j < i ==> (#[trigger] self.d@[j]).path@ != path@,
            decreases self.d.len() - i,
        {
            if self.d[i].path == *path {
                proof {
                    lemma_lookup_found(records_of(self.d@), i as int);
                }
                return Some(self.d[i].data);
            }
            i += 1;
        }
        proof {
            let records = records_of(self.d@);
            if tracks(records, path@) {
                let k = choose|k: int| 0 <= k < records.len() && #[trigger] records[k].path == path@;
                assert(self.d@[k].path@ == path@);
            }
        }
        None
    }

    /// Add an error entry to re-send later on
    pub fn add_error(&mut self, e: notify::Error)
        ensures
            final(self)@ == old(self)@.after_error(e),
            final(self).clock_reading() == old(self).clock_reading(),
            well_formed(final(self)@.records),
    {
        proof {
            use_type_invariant(&*self);
        }
        let mut pending: Vec<notify::Error> = Vec::new();
        std::mem::swap(&mut pending, &mut self.e);
        pending.push(e);
        self.e = pending;
    }

    /// Takes all currently stored errors
    pub fn errors(&mut self) -> (taken: Vec<notify::Error>)
        ensures
            taken@ == old(self)@.errors,
            final(self)@ == old(self)@.drained(),
            final(self).clock_reading() == old(self).clock_reading(),
            well_formed(final(self)@.records),
    {
        proof {
            use_type_invariant(&*self);
        }
        let mut taken: Vec<notify::Error> = Vec::new();
        std::mem::swap(&mut taken, &mut self.e);
        taken
    }

    /// Add new event to debouncer cache. The event is taken as seen at the
    /// moment of the call, whatever the clock reads then.
    pub fn add_event(&mut self, paths: Vec<String>)
        ensures
            exists|now: nat|
                {
                    &&& old(self).clock_reading() <= now
                    &&& final(self).clock_reading() == now
                    &&& final(self)@ == #[trigger] old(self)@.after_event(paths.deep_view(), now)
                },
            well_formed(final(self)@.records),
    {
        let now: u128 = self.read_clock();
        self.add_event_at(paths, now);
    }

    /// Reads the state's clock: the reading is not less than the one before.
    fn read_clock(&mut self) -> (now: u128)
        ensures
            old(self).clock_reading() <= now,
            final(self).clock_reading() == now,
            final(self)@ == old(self)@,
    {
        proof {
            use_type_invariant(&*self);
        }
        let mut clock: Clock = self.clock;
        let now: u128 = clock.now();
        self.clock = clock;
        now
    }

    /// Retrieve a vec of debounced events, removing them if they are not
    /// continuous. The sweep is made at the moment of the call, whatever the
    /// clock reads then.
    pub fn debounced_events(&mut self) -> (events: Vec<DebouncedEvent>)
        ensures
            exists|now: nat|
                {
                    &&& old(self).clock_reading() <= now
                    &&& final(self).clock_reading() == now
                    &&& events.deep_view() == old(self)@.sweep_events(now)
                    &&& final(self)@ == #[trigger] old(self)@.after_sweep(now)
                },
            well_formed(final(self)@.records),
    {
        let now: u128 = self.read_clock();
        self.debounced_events_at(now)
    }

    /// One sweep at `now`: takes the debounced events and all pending errors,
    /// and packs them into the batches to deliver, events first.
    pub fn sweep_at(&mut self, now: u128) -> (out: Vec<Result<Vec<DebouncedEvent>, Vec<notify::Error>>>)
        ensures
            deliveries_of(out@) == deliveries(old(self)@.sweep_events(now as nat), old(self)@.errors),
            final(self)@ == old(self)@.after_sweep(now as nat).drained(),
            final(self).clock_reading() == old(self).clock_reading(),
            well_formed(final(self)@.records),
    {
        let events = self.debounced_events_at(now);
        let errors = self.errors();
        batches(events, errors)
    }

    /// One sweep at the moment of the call, whatever the clock reads then.
    pub fn sweep(&mut self) -> (out: Vec<Result<Vec<DebouncedEvent>, Vec<notify::Error>>>)
        ensures
            exists|now: nat|
                {
                    &&& old(self).clock_reading() <= now
                    &&& final(self).clock_reading() == now
                    &&& deliveries_of(out@) == deliveries(old(self)@.sweep_events(now), old(self)@.errors)
                    &&& final(self)@ == #[trigger] old(self)@.after_sweep(now).drained()
                },
            well_formed(final(self)@.records),
    {
        let now: u128 = self.read_clock();
        self.sweep_at(now)
    }

    /// What the producer does with what the watcher hands it at `now`: a raw
    /// event is folded into the records, an error is kept for the next sweep.
    pub fn fold_at(&mut self, raw: Result<Vec<String>, notify::Error>, now: u128)
        ensures
            final(self)@ == match raw {
                Ok(paths) => old(self)@.after_event(paths.deep_view(), now as nat),
                Err(error) => old(self)@.after_error(error),
            },
            final(self).clock_reading() == old(self).clock_reading(),
            well_formed(final(self)@.records),
    {
        match raw {
            Ok(paths) => self.add_event_at(paths, now),
            Err(error) => self.add_error(error),
        }
    }

    /// What the producer does with what the watcher hands it, at the moment
    /// of the call.
    pub fn fold(&mut self, raw: Result<Vec<String>, notify::Error>)
        ensures
            match raw {
                Ok(paths) => exists|now: nat|
                    {
                        &&& old(self).clock_reading() <= now
                        &&& final(self).clock_reading() == now
                        &&& final(self)@ == #[trigger] old(self)@.after_event(paths.deep_view(), now)
                    },
                Err(error) => final(self)@ == old(self)@.after_error(error) && final(self).clock_reading()
                    == old(self).clock_reading(),
            },
            well_formed(final(self)@.records),
    {
        match raw {
            Ok(paths) => self.add_event(paths),
            Err(error) => self.add_error(error),
        }
    }

    /// Folds a raw event that names `paths`, seen at `now`, into the state.
    pub fn add_event_at(&mut self, paths: Vec<String>, now: u128)
        ensures
            final(self)@ == old(self)@.after_event(paths.deep_view(), now as nat),
            final(self).clock_reading() == old(self).clock_reading(),
            well_formed(final(self)@.records),
    {
        proof {
            use_type_invariant(&*self);
        }
        let mut entries: Vec<Entry> = Vec::new();
        std::mem::swap(&mut entries, &mut self.d);
        let ghost before = records_of(entries@);
        let ghost given = paths@;
        let ghost names = paths.deep_view();
        for path in it: paths
            invariant
                it.seq() == given,
                names.len() == given.len(),
                forall|k: int| 0 <= k < given.len() ==> names[k] == (#[trigger] given[k])@,
                well_formed(records_of(entries@)),
                records_of(entries@) == fold_event(before, names.take(it.index()), now as nat),
        {
            proof {
                lemma_fold_event_step(before, names, it.index(), now as nat);
            }
            touch_entries(&mut entries, path, now);
        }
        proof {
            assert(names.take(names.len() as int) =~= names);
        }
        self.d = entries;
    }

    /// Retrieve a vec of debounced events for a sweep at `now`, removing the
    /// paths that have settled.
    pub fn debounced_events_at(&mut self, now: u128) -> (events: Vec<DebouncedEvent>)
        ensures
            events.deep_view() == old(self)@.sweep_events(now as nat),
            final(self)@ == old(self)@.after_sweep(now as nat),
            final(self).clock_reading() == old(self).clock_reading(),
            well_formed(final(self)@.records),
    {
        proof {
            use_type_invariant(&*self);
        }
        let timeout: u128 = self.timeout;
        let mut entries: Vec<Entry> = Vec::new();
        std::mem::swap(&mut entries, &mut self.d);
        let ghost given = entries@;
        let ghost before = records_of(entries@);
        let mut kept: Vec<Entry> = Vec::with_capacity(entries.len());
        let mut events: Vec<DebouncedEvent> = Vec::with_capacity(entries.len());
        for entry in it: entries
            invariant
                it.seq() == given,
                before == records_of(given),
                records_of(kept@) == retained(before.take(it.index()), now as nat, timeout as nat),
                events.deep_view() == emitted(before.take(it.index()), now as nat, timeout as nat),
        {
            proof {
                lemma_sweep_step(before, it.index(), now as nat, timeout as nat);
            }
            let ghost kept_before = records_of(kept@);
            let ghost events_before = events.deep_view();
            if elapsed(now, entry.data.update) >= timeout {
                events.push(DebouncedEvent::new(entry.path, DebouncedEventKind::Any));
                proof {
                    assert(events.deep_view() =~= events_before.push(events@.last()@));
                }
            } else if elapsed(now, entry.data.insert) >= timeout {
                events.push(DebouncedEvent::new(entry.path.clone(), DebouncedEventKind::AnyContinuous));
                kept.push(entry);
                proof {
                    assert(events.deep_view() =~= events_before.push(events@.last()@));
                    assert(records_of(kept@) =~= kept_before.push(entry@));
                }
            } else {
                kept.push(entry);
                proof {
                    assert(records_of(kept@) =~= kept_before.push(entry@));
                }
            }
        }
        proof {
            assert(before.take(before.len() as int) =~= before);
            lemma_retained_well_formed(before, now as nat, timeout as nat);
        }
        self.d = kept;
        events
    }
}

} // verus!
