//! The core of a filesystem-event debouncer.
//!
//! Raw path notifications are folded into a per-path record of when the path
//! was first and last seen. A periodic sweep reads those records and reports
//! each path either as settled ([`DebouncedEventKind::Any`]) once it has been
//! quiet for the timeout, or as still active
//! ([`DebouncedEventKind::AnyContinuous`]) while it keeps changing past the
//! timeout. Everything here is synchronous and takes time as a plain number
//! of nanoseconds on a monotonic clock; the task that sleeps between sweeps
//! and the watcher that produces raw events live outside this crate.
pub mod batch;
pub mod clock;
pub mod data;
pub mod error;
pub mod event;
pub mod history;
pub mod model;
pub mod projection;
pub mod sweeper;
pub mod tick;

pub use notify;

pub use batch::batches;
pub use clock::Clock;
pub use data::{DebounceDataInner, EventData};
pub use error::DebounceError;
pub use event::{DebouncedEvent, DebouncedEventKind};
pub use sweeper::{prepare, Sweeper, SweeperAction, SweeperState};
pub use tick::{select_tick, TICK_DIVISOR};
