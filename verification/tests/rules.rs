use async_watcher::{batches, Clock, DebounceDataInner, DebouncedEvent, DebouncedEventKind, EventData};

const MS: u128 = 1_000_000;

fn paths(names: &[&str]) -> Vec<String> {
    names.iter().map(|n| n.to_string()).collect()
}

fn any(path: &str) -> DebouncedEvent {
    DebouncedEvent::new(path.to_string(), DebouncedEventKind::Any)
}

fn continuous(path: &str) -> DebouncedEvent {
    DebouncedEvent::new(path.to_string(), DebouncedEventKind::AnyContinuous)
}

fn kind_of(error: &notify::Error) -> String {
    format!("{:?}", error.kind)
}

#[test]
fn new_any_starts_both_instants_at_now() {
    let data = EventData::new_any(42);
    assert_eq!(data.insert, 42);
    assert_eq!(data.update, 42);
    assert_eq!(data, EventData { insert: 42, update: 42 });
}

#[test]
fn debounced_event_new_keeps_path_and_kind() {
    let event = DebouncedEvent::new("/tmp/x".to_string(), DebouncedEventKind::AnyContinuous);
    assert_eq!(event.path, "/tmp/x");
    assert_eq!(event.kind, DebouncedEventKind::AnyContinuous);
    assert_ne!(event, any("/tmp/x"));
}

#[test]
fn new_state_is_empty() {
    let mut data = DebounceDataInner::new(1000 * MS);
    assert_eq!(data.timeout(), 1000 * MS);
    assert_eq!(data.len(), 0);
    assert_eq!(data.pending_errors(), 0);
    assert!(data.debounced_events_at(5000 * MS).is_empty());
    assert!(data.errors().is_empty());
    assert!(data.sweep_at(9000 * MS).is_empty());
}

#[test]
fn first_event_inserts_a_record() {
    let mut data = DebounceDataInner::new(1000 * MS);
    data.add_event_at(paths(&["/a"]), 100 * MS);
    assert_eq!(data.len(), 1);
    assert_eq!(data.get(&"/a".to_string()), Some(EventData { insert: 100 * MS, update: 100 * MS }));
    assert_eq!(data.get(&"/b".to_string()), None);
}

#[test]
fn later_event_moves_only_the_update() {
    let mut data = DebounceDataInner::new(1000 * MS);
    data.add_event_at(paths(&["/a"]), 100 * MS);
    data.add_event_at(paths(&["/a"]), 300 * MS);
    data.add_event_at(paths(&["/a"]), 700 * MS);
    assert_eq!(data.len(), 1);
    assert_eq!(data.get(&"/a".to_string()), Some(EventData { insert: 100 * MS, update: 700 * MS }));
}

#[test]
fn event_with_several_paths_touches_each() {
    let mut data = DebounceDataInner::new(1000 * MS);
    data.add_event_at(paths(&["/a"]), 10);
    data.add_event_at(paths(&["/b", "/a", "/c"]), 20);
    assert_eq!(data.len(), 3);
    assert_eq!(data.get(&"/a".to_string()), Some(EventData { insert: 10, update: 20 }));
    assert_eq!(data.get(&"/b".to_string()), Some(EventData { insert: 20, update: 20 }));
    assert_eq!(data.get(&"/c".to_string()), Some(EventData { insert: 20, update: 20 }));
}

#[test]
fn event_without_paths_changes_nothing() {
    let mut data = DebounceDataInner::new(1000);
    data.add_event_at(paths(&["/a"]), 10);
    data.add_event_at(Vec::new(), 500);
    assert_eq!(data.len(), 1);
    assert_eq!(data.get(&"/a".to_string()), Some(EventData { insert: 10, update: 10 }));
}

#[test]
fn path_named_twice_in_one_event_has_one_record() {
    let mut data = DebounceDataInner::new(1000);
    data.add_event_at(paths(&["/a", "/a", "/a"]), 10);
    assert_eq!(data.len(), 1);
    assert_eq!(data.get(&"/a".to_string()), Some(EventData { insert: 10, update: 10 }));
    assert_eq!(data.debounced_events_at(1010), vec![any("/a")]);
}

#[test]
fn reading_before_the_last_update_moves_nothing_back() {
    let mut data = DebounceDataInner::new(1000);
    data.add_event_at(paths(&["/a"]), 500);
    data.add_event_at(paths(&["/a"]), 200);
    assert_eq!(data.get(&"/a".to_string()), Some(EventData { insert: 500, update: 500 }));
    // a sweep that reads an instant before the record counts its age as zero
    assert!(data.debounced_events_at(100).is_empty());
    assert_eq!(data.len(), 1);
}

#[test]
fn sweep_holds_a_young_path_silently() {
    let mut data = DebounceDataInner::new(1000);
    data.add_event_at(paths(&["/a"]), 100);
    assert!(data.debounced_events_at(1099).is_empty());
    assert_eq!(data.len(), 1);
    assert_eq!(data.get(&"/a".to_string()), Some(EventData { insert: 100, update: 100 }));
}

#[test]
fn sweep_settles_exactly_at_the_timeout() {
    let mut data = DebounceDataInner::new(1000);
    data.add_event_at(paths(&["/a"]), 100);
    assert_eq!(data.debounced_events_at(1100), vec![any("/a")]);
    assert_eq!(data.len(), 0);
    assert_eq!(data.get(&"/a".to_string()), None);
}

#[test]
fn sweep_reports_continuous_and_keeps_the_record() {
    let mut data = DebounceDataInner::new(1000);
    data.add_event_at(paths(&["/a"]), 0);
    data.add_event_at(paths(&["/a"]), 900);
    assert_eq!(data.debounced_events_at(1000), vec![continuous("/a")]);
    assert_eq!(data.get(&"/a".to_string()), Some(EventData { insert: 0, update: 900 }));
    assert_eq!(data.debounced_events_at(1899), vec![continuous("/a")]);
    assert_eq!(data.debounced_events_at(1900), vec![any("/a")]);
    assert_eq!(data.len(), 0);
}

#[test]
fn both_ages_past_the_timeout_counts_as_settled() {
    let mut data = DebounceDataInner::new(1000);
    data.add_event_at(paths(&["/a"]), 0);
    data.add_event_at(paths(&["/a"]), 10);
    let events = data.debounced_events_at(5000);
    assert_eq!(events, vec![any("/a")]);
}

#[test]
fn sweep_sorts_paths_into_three_groups_in_record_order() {
    let mut data = DebounceDataInner::new(1000);
    data.add_event_at(paths(&["/settled"]), 0);
    data.add_event_at(paths(&["/busy"]), 100);
    data.add_event_at(paths(&["/young"]), 900);
    data.add_event_at(paths(&["/busy"]), 950);
    let events = data.debounced_events_at(1200);
    assert_eq!(events, vec![any("/settled"), continuous("/busy")]);
    assert_eq!(data.len(), 2);
    assert_eq!(data.get(&"/settled".to_string()), None);
    assert_eq!(data.get(&"/busy".to_string()), Some(EventData { insert: 100, update: 950 }));
    assert_eq!(data.get(&"/young".to_string()), Some(EventData { insert: 900, update: 900 }));
}

#[test]
fn zero_timeout_settles_at_once() {
    let mut data = DebounceDataInner::new(0);
    data.add_event_at(paths(&["/a", "/b"]), 7);
    assert_eq!(data.debounced_events_at(7), vec![any("/a"), any("/b")]);
    assert_eq!(data.len(), 0);
}

#[test]
fn settled_path_stays_silent_until_named_again() {
    let mut data = DebounceDataInner::new(1000);
    data.add_event_at(paths(&["/a"]), 0);
    data.add_event_at(paths(&["/other"]), 900);
    assert_eq!(data.debounced_events_at(1000), vec![any("/a")]);
    data.add_event_at(paths(&["/other"]), 1500);
    for now in [1250u128, 1500, 1750, 2000, 2250] {
        let events = data.debounced_events_at(now);
        assert!(events.iter().all(|e| e.path != "/a"), "at {now}: {events:?}");
    }
    data.add_event_at(paths(&["/a"]), 3000);
    assert_eq!(data.get(&"/a".to_string()), Some(EventData { insert: 3000, update: 3000 }));
    assert!(data.debounced_events_at(3999).iter().all(|e| e.path != "/a"));
    assert_eq!(data.debounced_events_at(4000), vec![any("/a")]);
}

#[test]
fn one_event_per_path_per_sweep() {
    let mut data = DebounceDataInner::new(100);
    for round in 0u128..5 {
        data.add_event_at(paths(&["/a", "/b", "/a", "/c", "/b"]), round * 10);
    }
    let events = data.debounced_events_at(130);
    assert_eq!(events, vec![continuous("/a"), continuous("/b"), continuous("/c")]);
    let events = data.debounced_events_at(140);
    assert_eq!(events, vec![any("/a"), any("/b"), any("/c")]);
}

#[test]
fn same_path_many_times_settles_once() {
    let mut data = DebounceDataInner::new(1000 * MS);
    for i in 0u128..50 {
        data.add_event_at(paths(&["/p"]), 10 * MS + i * MS);
    }
    assert_eq!(data.len(), 1);
    let mut settled = 0;
    let mut other = 0;
    let mut now = 250 * MS;
    while now <= 5000 * MS {
        for event in data.debounced_events_at(now) {
            assert_eq!(event.path, "/p");
            if event.kind == DebouncedEventKind::Any {
                settled += 1;
                // the last raw event came at 59 ms
                assert!(now >= 1059 * MS && now < 1059 * MS + 250 * MS);
            } else {
                other += 1;
            }
        }
        now += 250 * MS;
    }
    assert_eq!(settled, 1);
    assert_eq!(other, 0);
}

#[test]
fn quiet_path_settles_within_timeout_and_a_tick() {
    let timeout = 700 * MS;
    let tick = 175 * MS;
    let mut data = DebounceDataInner::new(timeout);
    data.add_event_at(paths(&["/p"]), 40 * MS);
    data.add_event_at(paths(&["/p"]), 333 * MS);
    let last = 333 * MS;
    let mut seen_at = Vec::new();
    let mut now = tick;
    while now <= 20 * tick {
        for event in data.debounced_events_at(now) {
            assert_eq!(event.path, "/p");
            if event.kind == DebouncedEventKind::Any {
                seen_at.push(now);
            } else {
                // not settled yet: the first raw event is a timeout old
                assert!(now >= 40 * MS + timeout && now < last + timeout);
            }
        }
        now += tick;
    }
    assert_eq!(seen_at.len(), 1);
    assert!(seen_at[0] >= last + timeout);
    assert!(seen_at[0] < last + timeout + tick);
    assert_eq!(seen_at[0], 1050 * MS);
}

#[test]
fn stimulated_path_is_continuous_and_never_settled() {
    let timeout = 400u128;
    let tick = 100u128;
    let mut data = DebounceDataInner::new(timeout);
    let mut reports = 0u128;
    let mut now = 0u128;
    while now <= 2000 {
        if now % 30 == 0 {
            data.add_event_at(paths(&["/w"]), now);
        }
        if now > 0 && now % tick == 0 {
            let events = data.debounced_events_at(now);
            if now < timeout {
                assert!(events.is_empty(), "at {now}");
            } else {
                assert_eq!(events, vec![continuous("/w")], "at {now}");
            }
            reports += events.len() as u128;
        }
        now += 10;
    }
    // sweeps fall in the window from 100 to 2000
    assert!(reports <= (2000 - 100) / tick + 1);
    assert_eq!(reports, 17);
}

#[test]
fn errors_come_back_in_the_order_raised() {
    let mut data = DebounceDataInner::new(1000);
    data.add_error(notify::Error::generic("first"));
    data.add_error(notify::Error::path_not_found());
    data.add_event_at(paths(&["/a"]), 5);
    data.add_error(notify::Error::generic("third"));
    assert_eq!(data.pending_errors(), 3);
    let taken = data.errors();
    assert_eq!(taken.len(), 3);
    assert_eq!(kind_of(&taken[0]), "Generic(\"first\")");
    assert_eq!(kind_of(&taken[1]), "PathNotFound");
    assert_eq!(kind_of(&taken[2]), "Generic(\"third\")");
    assert_eq!(data.pending_errors(), 0);
    assert!(data.errors().is_empty());
    // taking the errors leaves the records alone
    assert_eq!(data.len(), 1);
    data.add_error(notify::Error::generic("fourth"));
    let taken = data.errors();
    assert_eq!(taken.len(), 1);
    assert_eq!(kind_of(&taken[0]), "Generic(\"fourth\")");
}

#[test]
fn errors_are_grouped_per_sweep() {
    let mut data = DebounceDataInner::new(1000);
    data.add_error(notify::Error::generic("a"));
    data.add_error(notify::Error::generic("b"));
    let first = data.sweep_at(250);
    assert_eq!(first.len(), 1);
    match &first[0] {
        Err(errors) => {
            assert_eq!(errors.len(), 2);
            assert_eq!(kind_of(&errors[0]), "Generic(\"a\")");
            assert_eq!(kind_of(&errors[1]), "Generic(\"b\")");
        }
        Ok(events) => panic!("expected errors, got {events:?}"),
    }
    assert!(data.sweep_at(500).is_empty());
    data.add_error(notify::Error::generic("c"));
    let third = data.sweep_at(750);
    assert_eq!(third.len(), 1);
    match &third[0] {
        Err(errors) => {
            assert_eq!(errors.len(), 1);
            assert_eq!(kind_of(&errors[0]), "Generic(\"c\")");
        }
        Ok(events) => panic!("expected errors, got {events:?}"),
    }
}

#[test]
fn sweep_delivers_events_before_errors() {
    let mut data = DebounceDataInner::new(100);
    data.add_error(notify::Error::generic("boom"));
    data.add_event_at(paths(&["/a"]), 0);
    let out = data.sweep_at(100);
    assert_eq!(out.len(), 2);
    match &out[0] {
        Ok(events) => assert_eq!(events, &vec![any("/a")]),
        Err(errors) => panic!("expected events first, got {errors:?}"),
    }
    match &out[1] {
        Err(errors) => assert_eq!(errors.len(), 1),
        Ok(events) => panic!("expected errors second, got {events:?}"),
    }
    assert_eq!(data.len(), 0);
    assert_eq!(data.pending_errors(), 0);
}

#[test]
fn batches_skip_what_is_empty() {
    assert!(batches(Vec::new(), Vec::new()).is_empty());

    let only_events = batches(vec![any("/a"), continuous("/b")], Vec::new());
    assert_eq!(only_events.len(), 1);
    assert_eq!(only_events[0].as_ref().ok(), Some(&vec![any("/a"), continuous("/b")]));

    let only_errors = batches(Vec::new(), vec![notify::Error::generic("x")]);
    assert_eq!(only_errors.len(), 1);
    assert_eq!(only_errors[0].as_ref().err().map(|e| e.len()), Some(1));

    let both = batches(vec![any("/a")], vec![notify::Error::generic("x"), notify::Error::generic("y")]);
    assert_eq!(both.len(), 2);
    assert_eq!(both[0].as_ref().ok(), Some(&vec![any("/a")]));
    assert_eq!(both[1].as_ref().err().map(|e| e.len()), Some(2));
}

#[test]
fn fold_at_takes_events_and_errors() {
    let mut data = DebounceDataInner::new(1000);
    data.fold_at(Ok(paths(&["/a", "/b"])), 10);
    data.fold_at(Err(notify::Error::generic("lost")), 20);
    data.fold_at(Ok(paths(&["/a"])), 30);
    assert_eq!(data.len(), 2);
    assert_eq!(data.pending_errors(), 1);
    assert_eq!(data.get(&"/a".to_string()), Some(EventData { insert: 10, update: 30 }));
    assert_eq!(data.get(&"/b".to_string()), Some(EventData { insert: 10, update: 10 }));
    let taken = data.errors();
    assert_eq!(kind_of(&taken[0]), "Generic(\"lost\")");
}

#[test]
fn clock_does_not_run_backwards() {
    let mut clock = Clock::start();
    let mut before = clock.now();
    for _ in 0..1000 {
        let now = clock.now();
        assert!(now >= before);
        before = now;
    }
}

#[test]
fn with_the_clock_a_zero_timeout_settles_at_once() {
    let mut data = DebounceDataInner::new(0);
    data.add_event(paths(&["/a"]));
    data.fold(Ok(paths(&["/b"])));
    data.fold(Err(notify::Error::generic("e")));
    assert_eq!(data.len(), 2);
    let out = data.sweep();
    assert_eq!(out.len(), 2);
    assert_eq!(out[0].as_ref().ok(), Some(&vec![any("/a"), any("/b")]));
    assert_eq!(out[1].as_ref().err().map(|e| e.len()), Some(1));
    assert_eq!(data.len(), 0);
    assert!(data.debounced_events().is_empty());
}

#[test]
fn with_the_clock_a_long_timeout_holds_the_path() {
    let mut data = DebounceDataInner::new(3_600_000 * MS);
    data.add_event(paths(&["/a"]));
    data.add_event(paths(&["/a"]));
    assert!(data.debounced_events().is_empty());
    assert!(data.sweep().is_empty());
    assert_eq!(data.len(), 1);
    let kept = data.get(&"/a".to_string()).unwrap();
    assert!(kept.insert <= kept.update);
}

#[test]
fn with_the_clock_later_events_carry_later_instants() {
    let mut data = DebounceDataInner::new(3_600_000 * MS);
    data.add_event(paths(&["/first"]));
    data.fold(Ok(paths(&["/second"])));
    data.add_event(paths(&["/first", "/third"]));
    let first = data.get(&"/first".to_string()).unwrap();
    let second = data.get(&"/second".to_string()).unwrap();
    let third = data.get(&"/third".to_string()).unwrap();
    assert!(first.insert <= second.insert);
    assert!(second.insert <= third.insert);
    assert_eq!(second.insert, second.update);
    assert_eq!(first.update, third.insert);
}
