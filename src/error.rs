use vstd::prelude::*;

verus! {

/// What can go wrong while loading a module or running the engine.
#[derive(Clone, Debug, PartialEq, Eq)]
pub enum EngineError {
    /// An expression could not be parsed; `rest` is the text left unconsumed.
    Parse { rest: String },
    /// An id was declared twice; `first` and `second` name the two sources.
    DuplicateId { id: String, first: String, second: String },
    /// The dependency graph between nodes has a cycle.
    CycleDetected,
    /// An operation or an expression named an id that has no state.
    NotFound { id: String },
    /// A `Default` or `Manual` expression reached evaluation.
    Unresolved,
}

/// The mathematical value of an [`EngineError`].
pub enum ErrorView {
    Parse { rest: Seq<char> },
    DuplicateId { id: Seq<char>, first: Seq<char>, second: Seq<char> },
    CycleDetected,
    NotFound { id: Seq<char> },
    Unresolved,
}

impl View for EngineError {
    type V = ErrorView;

    open spec fn view(&self) -> ErrorView {
        match self {
            EngineError::Parse { rest } => ErrorView::Parse { rest: rest@ },
            EngineError::DuplicateId { id, first, second } => ErrorView::DuplicateId {
                id: id@,
                first: first@,
                second: second@,
            },
            EngineError::CycleDetected => ErrorView::CycleDetected,
            EngineError::NotFound { id } => ErrorView::NotFound { id: id@ },
            EngineError::Unresolved => ErrorView::Unresolved,
        }
    }
}

/// An executable result agrees with its specified outcome.
pub open spec fn agrees<T>(r: Result<T, EngineError>, s: Result<T, ErrorView>) -> bool {
    match (r, s) {
        (Ok(a), Ok(b)) => a == b,
        (Err(e), Err(f)) => e@ == f,
        _ => false,
    }
}

} // verus!
