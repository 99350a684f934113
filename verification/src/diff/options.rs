//! Comparing two values, and the options of a comparison.

use vstd::prelude::*;

use super::dispatch::diff_at;
use super::equality::values_equal;
use crate::error::Error;
use crate::ignore_order::memo::IgnoreOrderMemo;
use crate::ignore_order::resolver::Resolver;
use crate::path::PathSegment;
use crate::report::Report;
use crate::value::Value;

#[allow(unused_imports)]
use super::equality::same_value;
#[allow(unused_imports)]
use super::model::diff_of;
#[allow(unused_imports)]
use super::scalar::{outcome, Outcome};
#[allow(unused_imports)]
use crate::ignore_order::memo::{fresh, MemoVal};
#[allow(unused_imports)]
use crate::ignore_order::resolver::settled;
#[allow(unused_imports)]
use crate::path::segs;
#[allow(unused_imports)]
use crate::report::{mutual_merged, nothing};
#[allow(unused_imports)]
use crate::value::Val;

verus! {

/// The nesting that a comparison allows unless told otherwise.
pub const DEFAULT_MAX_DEPTH: usize = 512;

/// The options of a comparison.
#[derive(Debug, Clone, Copy, PartialEq, Eq, Structural)]
pub struct DiffOptions {
    /// How deep a comparison may go: the walk to a value and the nesting of
    /// what is recorded there count together.
    pub max_depth: usize,
    /// Whether lists and tuples are compared without regard to order, at every
    /// depth.
    pub ignore_order: bool,
}

impl Default for DiffOptions {
    fn default() -> (options: Self)
        ensures
            options == (DiffOptions { max_depth: DEFAULT_MAX_DEPTH, ignore_order: false }),
    {
        DiffOptions { max_depth: DEFAULT_MAX_DEPTH, ignore_order: false }
    }
}

/// What a comparison goes by: its options, and the values that stand for tokens, by
/// identity.
pub struct Rules {
    pub max_depth: usize,
    pub ignore_order: bool,
    pub resolutions: Seq<(Seq<char>, Val)>,
}

/// The rules of options and of values that stand for tokens.
pub open spec fn rules(opts: DiffOptions, resolutions: Seq<(Seq<char>, Val)>) -> Rules {
    Rules { max_depth: opts.max_depth, ignore_order: opts.ignore_order, resolutions }
}

/// What the comparison of two values finds: nothing where they are equal,
/// however deep they nest; else what the walk over both finds, an item that was
/// removed and one that was added at the same path made one change.
pub open spec fn comparison(m: MemoVal, a: Val, b: Val, opts: Rules) -> (MemoVal, Outcome) {
    if same_value(a, b) {
        (m, Ok(nothing()))
    } else {
        let (n, found) = diff_of(m, seq![], a, b, 0, opts);
        (
            n,
            match found {
                Err(e) => Err(e),
                Ok(f) => Ok(mutual_merged(f)),
            },
        )
    }
}

/// Whether a comparison of two values comes to an end: the tokens that stand for one
/// another do, of all that it may come upon on either side, and on one of the sides
/// the chains through lists do, too, whose items are compared at the depth of the list
/// without order.
pub open spec fn resolvable(
    resolutions: Seq<(Seq<char>, Val)>,
    unordered: bool,
    a: Val,
    b: Val,
) -> bool {
    &&& settled(resolutions, true, false, a)
    &&& settled(resolutions, false, false, b)
    &&& settled(resolutions, true, unordered, a) || settled(resolutions, false, unordered, b)
}

/// Compares two values, with the default limit on how deep they nest.
pub fn diff(a: &Value, b: &Value) -> (result: Result<Report, Error>)
    ensures
        outcome(result) == comparison(
            fresh(true),
            a@,
            b@,
            Rules { max_depth: DEFAULT_MAX_DEPTH, ignore_order: false, resolutions: seq![] },
        ).1,
{
    diff_with_max_depth(a, b, DEFAULT_MAX_DEPTH)
}

/// Compares two values.
pub fn diff_with_options(a: &Value, b: &Value, opts: &DiffOptions) -> (result: Result<
    Report,
    Error,
>)
    ensures
        outcome(result) == comparison(fresh(true), a@, b@, rules(*opts, seq![])).1,
{
    let mut memo: IgnoreOrderMemo<'_> = IgnoreOrderMemo::new();
    diff_with_options_memo(a, b, opts, &mut memo)
}

/// Compares two values, with other values in place of the tokens in them.
///
/// A cycle token is compared as another value only against a value of the class
/// that it points back at; otherwise it stays a token. Without order, items are
/// compared at the depth of the list that holds them, so no limit would end the
/// comparison of two lists that lead back to their own tokens: the comparison has to
/// come to an end, as [`Resolver::is_resolvable`] finds out.
pub fn diff_with_resolver<'r>(
    a: &Value,
    b: &Value,
    opts: &DiffOptions,
    resolver: &'r Resolver<'r>,
) -> (result: Result<Report, Error>)
    requires
        resolvable(resolver@, opts.ignore_order, a@, b@),
    ensures
        outcome(result) == comparison(fresh(true), a@, b@, rules(*opts, resolver@)).1,
{
    let mut memo: IgnoreOrderMemo<'r> = IgnoreOrderMemo::with_resolver(resolver);
    diff_with_options_memo(a, b, opts, &mut memo)
}

/// Compares two values, going on from what a memo remembers.
pub fn diff_with_options_memo<'r>(
    a: &Value,
    b: &Value,
    opts: &DiffOptions,
    memo: &mut IgnoreOrderMemo<'r>,
) -> (result: Result<Report, Error>)
    requires
        old(memo).well_formed(),
        resolvable(old(memo).table(), opts.ignore_order, a@, b@),
    ensures
        final(memo).well_formed(),
        final(memo).table() == old(memo).table(),
        (final(memo)@, outcome(result)) == comparison(
            old(memo)@,
            a@,
            b@,
            rules(*opts, old(memo).table()),
        ),
{
    if values_equal(a, b) {
        return Ok(Report::new());
    }
    let mut path: Vec<PathSegment> = Vec::new();
    proof {
        assert(segs(path@) =~= seq![]);
    }
    match diff_at(&mut path, a, b, 0, opts, memo) {
        Err(error) => Err(error),
        Ok(report) => {
            let mut report: Report = report;
            report.merge_mutual_add_removes();
            Ok(report)
        },
    }
}

/// Compares two values, with a limit on how deep they nest.
pub fn diff_with_max_depth(a: &Value, b: &Value, max_depth: usize) -> (result: Result<
    Report,
    Error,
>)
    ensures
        outcome(result) == comparison(
            fresh(true),
            a@,
            b@,
            Rules { max_depth, ignore_order: false, resolutions: seq![] },
        ).1,
{
    diff_with_options(a, b, &DiffOptions { max_depth, ignore_order: false })
}

} // verus!
