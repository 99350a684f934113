//! Comparing two lists.

use vstd::prelude::*;

use super::dispatch::diff_at;
use super::lists::{insert_added_tail, insert_removed_tail, lcs_array_diff};
use super::options::DiffOptions;
use crate::error::Error;
use crate::ignore_order::memo::IgnoreOrderMemo;
use crate::ignore_order::unordered::ignore_order_array_diff;
use crate::path::PathSegment;
use crate::report::Report;
use crate::scalar_key::all_basic_scalars;
use crate::value::Value;

#[allow(unused_imports)]
use super::lists::lemma_segs_push;
#[allow(unused_imports)]
use super::model::{
    all_basic, array_of, budget, crest, lemma_links, list_links, pivot_items, positional_of,
    reserve, smaller_of,
};
#[allow(unused_imports)]
use super::options::rules;
#[allow(unused_imports)]
use super::scalar::{outcome, Outcome};
#[allow(unused_imports)]
use crate::ignore_order::memo::MemoVal;
#[allow(unused_imports)]
use crate::path::segs;
#[allow(unused_imports)]
use crate::report::nothing;
#[allow(unused_imports)]
use crate::value::views;
#[allow(unused_imports)]
use crate::walk::total;

verus! {

/// Compares two lists at a path and a depth.
pub fn array_diff<'r>(
    path: &mut Vec<PathSegment>,
    a: &Vec<Value>,
    b: &Vec<Value>,
    depth: u128,
    opts: &DiffOptions,
    memo: &mut IgnoreOrderMemo<'r>,
) -> (result: Result<Report, Error>)
    requires
        old(memo).well_formed(),
        depth < u128::MAX,
    ensures
        final(memo).well_formed(),
        final(memo).table() == old(memo).table(),
        final(path)@ == old(path)@,
        (final(memo)@, outcome(result)) == array_of(
            old(memo)@,
            segs(old(path)@),
            views(a@),
            views(b@),
            depth as int,
            rules(*opts, old(memo).table()),
        ),
    decreases
            reserve(depth as int, opts.max_depth as int),
            list_links(rules(*opts, old(memo).table()), views(a@), views(b@)),
            1 + total(pivot_items(rules(*opts, old(memo).table()), views(a@), views(b@))),
            7int,
            0int,
            0int,
{
    if opts.ignore_order {
        return ignore_order_array_diff(path, a, b, depth, opts, memo);
    }
    if all_basic_scalars(a.as_slice()) && all_basic_scalars(b.as_slice()) {
        lcs_or_positional_array_diff(path, a, b, depth, opts, memo)
    } else {
        positional_array_diff(path, a, b, depth, opts, memo)
    }
}

/// Compares two lists of scalars by their longest common parts, or position by
/// position where that finds no more.
pub fn lcs_or_positional_array_diff<'r>(
    path: &mut Vec<PathSegment>,
    a: &Vec<Value>,
    b: &Vec<Value>,
    depth: u128,
    opts: &DiffOptions,
    memo: &mut IgnoreOrderMemo<'r>,
) -> (result: Result<Report, Error>)
    requires
        old(memo).well_formed(),
        depth < u128::MAX,
        all_basic(views(a@)),
        all_basic(views(b@)),
    ensures
        final(memo).well_formed(),
        final(memo).table() == old(memo).table(),
        final(path)@ == old(path)@,
        (final(memo)@, outcome(result)) == smaller_of(
            old(memo)@,
            segs(old(path)@),
            views(a@),
            views(b@),
            depth as int,
            rules(*opts, old(memo).table()),
        ),
    decreases
            reserve(depth as int, opts.max_depth as int),
            list_links(rules(*opts, old(memo).table()), views(a@), views(b@)),
            1 + total(pivot_items(rules(*opts, old(memo).table()), views(a@), views(b@))),
            6int,
            0int,
            0int,
{
    let lcs_report: Report = match lcs_array_diff(path, a, b, depth, opts.max_depth) {
        Ok(report) => report,
        Err(error) => {
            return Err(error);
        },
    };
    if lcs_report.finding_count() > 1 {
        let positional_report: Report = match positional_array_diff(
            path,
            a,
            b,
            depth,
            opts,
            memo,
        ) {
            Ok(report) => report,
            Err(error) => {
                return Err(error);
            },
        };
        if lcs_report.finding_count() >= positional_report.finding_count() {
            return Ok(positional_report);
        }
    }
    Ok(lcs_report)
}

/// Compares two lists position by position.
#[verifier::loop_isolation(false)]
pub fn positional_array_diff<'r>(
    path: &mut Vec<PathSegment>,
    a: &Vec<Value>,
    b: &Vec<Value>,
    depth: u128,
    opts: &DiffOptions,
    memo: &mut IgnoreOrderMemo<'r>,
) -> (result: Result<Report, Error>)
    requires
        old(memo).well_formed(),
        depth < u128::MAX,
    ensures
        final(memo).well_formed(),
        final(memo).table() == old(memo).table(),
        final(path)@ == old(path)@,
        (final(memo)@, outcome(result)) == positional_of(
            old(memo)@,
            segs(old(path)@),
            views(a@),
            views(b@),
            depth as int,
            rules(*opts, old(memo).table()),
            0,
            nothing(),
        ),
    decreases
            budget(depth + 1, opts.max_depth as int),
            crest(rules(*opts, old(memo).table())),
            1 + total(views(a@)),
            0int,
            0int,
            0int,
{
    let ghost before: Seq<PathSegment> = path@;
    let ghost goal: (MemoVal, Outcome) = positional_of(
        memo@,
        segs(before),
        views(a@),
        views(b@),
        depth as int,
        rules(*opts, old(memo).table()),
        0,
        nothing(),
    );
    let mut report: Report = Report::new();
    let mut i: usize = 0;
    while i < a.len() && i < b.len()
        invariant
            i <= a.len(),
            i <= b.len(),
            memo.well_formed(),
            memo.table() == old(memo).table(),
            path@ == before,
            goal == positional_of(
                memo@,
                segs(before),
                views(a@),
                views(b@),
                depth as int,
                rules(*opts, old(memo).table()),
                i as int,
                report@,
            ),
        decreases a.len() - i,
    {
        proof {
            lemma_segs_push(before, PathSegment::Index(i));
            lemma_links(rules(*opts, memo.table()), a@[i as int]@, b@[i as int]@);
        }
        path.push(PathSegment::Index(i));
        let found: Result<Report, Error> = diff_at(path, &a[i], &b[i], depth + 1, opts, memo);
        let _ = path.pop();
        proof {
            assert(path@ =~= before);
        }
        match found {
            Err(error) => {
                return Err(error);
            },
            Ok(more) => {
                report.merge(more);
            },
        }
        i = i + 1;
    }
    match insert_removed_tail(report, path, a, i, depth, opts.max_depth) {
        Err(error) => Err(error),
        Ok(report) => insert_added_tail(report, path, b, i, depth, opts.max_depth),
    }
}

} // verus!
