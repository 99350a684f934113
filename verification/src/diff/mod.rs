//! Comparing two values.

pub mod aligned;
pub mod array;
pub mod changes;
pub mod depth;
pub mod dispatch;
pub mod entries;
pub mod equality;
pub mod fitting;
pub mod items;
pub mod laws;
pub mod limit;
pub mod lists;
pub mod matched;
pub mod membership;
pub mod model;
pub mod neutral;
pub mod object;
pub mod options;
pub mod places;
pub mod reach;
pub mod scalar;
pub mod scalars;
pub mod set;
pub mod silent;
pub mod spots;
pub mod tally;
pub mod tokens;

pub use crate::ignore_order::resolver::{Resolution, Resolver};
pub use options::{
    diff, diff_with_max_depth, diff_with_options, diff_with_options_memo, diff_with_resolver,
    DiffOptions, DEFAULT_MAX_DEPTH,
};
