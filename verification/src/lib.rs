//! Deep structural comparison of Python-shaped values, with reports in the
//! layout that `DeepDiff` prints.

pub mod big;
pub mod canonical;
pub mod count;
pub mod datetime;
pub mod diff;
pub mod error;
pub mod float;
pub mod float_math;
pub mod ignore_order;
pub mod intern;
pub mod layout;
pub mod lcs;
pub mod mutual;
pub mod numeric_text;
pub mod order;
pub mod patched;
pub mod path;
pub mod python_eq;
pub mod readable;
pub mod report;
pub mod repr;
pub mod scalar_key;
pub mod shortest;
pub mod text;
pub mod unified_diff;
pub mod value;
pub mod walk;

pub use datetime::{Date, DateTime, Time, TimeDelta};
pub use diff::{diff, diff_with_max_depth, diff_with_options, DiffOptions, DEFAULT_MAX_DEPTH};
pub use error::Error;
pub use report::Report;
pub use value::{Builder, Number, Value};

use vstd::prelude::*;

verus! {

/// Whether a value nests deeper than `limit`.
pub fn exceeds_depth(value: &Value, limit: usize) -> (result: bool)
    ensures
        result == (diff::depth::height(value@) > limit),
{
    diff::depth::deeper_than(value, limit)
}

/// The version of the library.
pub fn version() -> (text: &'static str)
    ensures
        text@ == "0.1.0"@,
{
    "0.1.0"
}

} // verus!
