//! What a sweep reports.
use vstd::prelude::*;

verus! {

/// The kinds of debounced event.
#[derive(Clone, Copy, Debug, PartialEq, Eq, Hash, Structural)]
#[non_exhaustive]
pub enum DebouncedEventKind {
    /// The path has been quiet for the timeout: it is reported once and forgotten.
    Any,
    /// The path has been active for at least the timeout and is still changing.
    AnyContinuous,
}

/// A debounced event.
///
/// It says on purpose nothing of what happened to the path, only whether the
/// path has settled or is still changing.
#[derive(Clone, Debug, PartialEq, Eq, Hash)]
pub struct DebouncedEvent {
    /// Event path
    pub path: String,
    /// Event kind
    pub kind: DebouncedEventKind,
}

/// The mathematical value of a [`DebouncedEvent`]: the characters of its path
/// and its kind.
pub struct Emission {
    pub path: Seq<char>,
    pub kind: DebouncedEventKind,
}

impl View for DebouncedEvent {
    type V = Emission;

    open spec fn view(&self) -> Emission {
        Emission { path: self.path@, kind: self.kind }
    }
}

impl DeepView for DebouncedEvent {
    type V = Emission;

    open spec fn deep_view(&self) -> Emission {
        self@
    }
}

impl DebouncedEvent {
    /// An event of the given kind for the given path.
    pub fn new(path: String, kind: DebouncedEventKind) -> (event: Self)
        ensures
            event.path == path,
            event.kind == kind,
    {
        DebouncedEvent { path, kind }
    }
}

} // verus!
