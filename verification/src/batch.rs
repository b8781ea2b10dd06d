//! What one sweep hands to the consumer.
use vstd::prelude::*;
use crate::event::{DebouncedEvent, Emission};

verus! {

/// The mathematical value of a batch: the events of a sweep, or the watcher
/// errors that had gathered before it.
pub enum Delivery {
    Events(Seq<Emission>),
    Errors(Seq<notify::Error>),
}

/// The value of a batch as the consumer receives it.
pub open spec fn delivery_of(batch: Result<Vec<DebouncedEvent>, Vec<notify::Error>>) -> Delivery {
    match batch {
        Ok(events) => Delivery::Events(events.deep_view()),
        Err(errors) => Delivery::Errors(errors@),
    }
}

/// The values of a sequence of batches.
pub open spec fn deliveries_of(batches: Seq<Result<Vec<DebouncedEvent>, Vec<notify::Error>>>) -> Seq<
    Delivery,
> {
    batches.map_values(|b: Result<Vec<DebouncedEvent>, Vec<notify::Error>>| delivery_of(b))
}

/// What is delivered after a sweep that found `events` and `errors`: the
/// events in one batch, where there are any, and after them the errors in
/// another, where there are any.
pub open spec fn deliveries(events: Seq<Emission>, errors: Seq<notify::Error>) -> Seq<Delivery> {
    let first = if events.len() > 0 {
        seq![Delivery::Events(events)]
    } else {
        Seq::<Delivery>::empty()
    };
    let second = if errors.len() > 0 {
        seq![Delivery::Errors(errors)]
    } else {
        Seq::<Delivery>::empty()
    };
    first + second
}

/// Packs what a sweep found into the batches to deliver, in the order in
/// which they are delivered. Each batch holds the very vector it was given.
pub fn batches(events: Vec<DebouncedEvent>, errors: Vec<notify::Error>) -> (out: Vec<
    Result<Vec<DebouncedEvent>, Vec<notify::Error>>,
>)
    ensures
        deliveries_of(out@) == deliveries(events.deep_view(), errors@),
        out@.len() == (if events@.len() > 0 { 1int } else { 0 }) + (if errors@.len() > 0 { 1int } else { 0 }),
        events@.len() > 0 ==> out@[0] == Ok::<Vec<DebouncedEvent>, Vec<notify::Error>>(events),
        errors@.len() > 0 ==> out@[out@.len() - 1] == Err::<Vec<DebouncedEvent>, Vec<notify::Error>>(errors),
{
    let mut out: Vec<Result<Vec<DebouncedEvent>, Vec<notify::Error>>> = Vec::new();
    let ghost found = events.deep_view();
    let ghost raised = errors@;
    if events.len() > 0 {
        out.push(Ok(events));
    }
    if errors.len() > 0 {
        out.push(Err(errors));
    }
    proof {
        assert(deliveries_of(out@) =~= deliveries(found, raised));
    }
    out
}

} // verus!
