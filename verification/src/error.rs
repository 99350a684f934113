//! Why a comparison can fail.

use vstd::prelude::*;

use crate::text::push_decimal;

#[allow(unused_imports)]
use crate::text::decimal;

verus! {

/// Why a comparison failed.
#[derive(Debug, Clone, PartialEq, Eq)]
pub enum Error {
    /// Comparing at `path` would nest deeper than `max_depth`: the walk to it
    /// and the value that would be recorded there count together.
    MaxDepthExceeded { path: String, max_depth: usize },
    /// The datetimes at `path` have no UTC form within the years that there are.
    DateTimeOutOfRange { path: String },
}

/// The model of an [`Error`].
pub enum Failure {
    MaxDepthExceeded { path: Seq<char>, max_depth: int },
    DateTimeOutOfRange { path: Seq<char> },
}

impl View for Error {
    type V = Failure;

    open spec fn view(&self) -> Failure {
        match self {
            Error::MaxDepthExceeded { path, max_depth } => Failure::MaxDepthExceeded {
                path: path@,
                max_depth: *max_depth as int,
            },
            Error::DateTimeOutOfRange { path } => Failure::DateTimeOutOfRange { path: path@ },
        }
    }
}

/// What is said of a failure.
pub open spec fn failure_text(failure: Failure) -> Seq<char> {
    match failure {
        Failure::MaxDepthExceeded { path, max_depth } => "diffing at "@ + path
            + " would exceed the configured maximum recursion depth ("@ + decimal(max_depth as nat)
            + "), counting both the traversal needed to reach it and the nesting of any value recorded there"@,
        Failure::DateTimeOutOfRange { path } => "the datetimes at "@ + path
            + " cannot be normalized to UTC"@,
    }
}

impl Error {
    /// What is said of the failure.
    pub fn message(&self) -> (text: String)
        ensures
            text@ == failure_text(self@),
    {
        let mut out: String = String::new();
        match self {
            Error::MaxDepthExceeded { path, max_depth } => {
                out.append("diffing at ");
                out.append(path.as_str());
                out.append(" would exceed the configured maximum recursion depth (");
                push_decimal(&mut out, *max_depth as u64);
                out.append(
                    "), counting both the traversal needed to reach it and the nesting of any value recorded there",
                );
            },
            Error::DateTimeOutOfRange { path } => {
                out.append("the datetimes at ");
                out.append(path.as_str());
                out.append(" cannot be normalized to UTC");
            },
        }
        proof {
            assert(out@ =~= failure_text(self@));
        }
        out
    }
}

} // verus!
