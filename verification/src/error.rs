//! The ways in which resolving, rendering and running can fail.

use vstd::prelude::*;

verus! {

/// A failure of the library.
#[derive(Debug)]
pub enum Error {
    /// The catalog declares a version that this library does not read.
    VersionIncompatible(String),
    /// A requested chain, or a prerequisite of a reachable chain, is not in
    /// the catalog.
    ChainNotFound(String),
    /// A reachable chain depends on itself.
    CycleDetected,
    /// A command template could not be rendered; the text says why.
    TemplateRenderFailed(String),
    /// A task's process ended with a status other than zero.
    ChildProcessFailed { command: String, code: i32 },
    /// A task's process could not be started; the text says why.
    SpawnFailed(String),
    /// The failures of the units of one stage, in the order they were
    /// reported.
    AggregateFailure(Vec<Error>),
}

/// What an `Error` says, without regard to how it is stored.
pub enum ErrorView {
    VersionIncompatible(Seq<char>),
    ChainNotFound(Seq<char>),
    CycleDetected,
    TemplateRenderFailed(Seq<char>),
    ChildProcessFailed { command: Seq<char>, code: i32 },
    SpawnFailed(Seq<char>),
    AggregateFailure(Seq<ErrorView>),
}

/// The views of a list of errors.
pub open spec fn error_views(errors: Seq<Error>) -> Seq<ErrorView>
    decreases errors, 0nat,
{
    Seq::new(
        errors.len(),
        |i: int|
            if 0 <= i < errors.len() {
                error_view(errors[i])
            } else {
                ErrorView::CycleDetected
            },
    )
}

/// The view of one error.
pub open spec fn error_view(e: Error) -> ErrorView
    decreases e, 1nat,
{
    match e {
        Error::VersionIncompatible(v) => ErrorView::VersionIncompatible(v@),
        Error::ChainNotFound(n) => ErrorView::ChainNotFound(n@),
        Error::CycleDetected => ErrorView::CycleDetected,
        Error::TemplateRenderFailed(c) => ErrorView::TemplateRenderFailed(c@),
        Error::ChildProcessFailed { command, code } => ErrorView::ChildProcessFailed {
            command: command@,
            code,
        },
        Error::SpawnFailed(c) => ErrorView::SpawnFailed(c@),
        Error::AggregateFailure(errors) => ErrorView::AggregateFailure(error_views(errors@)),
    }
}

impl View for Error {
    type V = ErrorView;

    open spec fn view(&self) -> ErrorView {
        error_view(*self)
    }
}

} // verus!
