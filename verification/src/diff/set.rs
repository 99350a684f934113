//! Sets, compared by their members.

use vstd::prelude::*;

use super::lists::child_path;
use super::options::DiffOptions;
use super::scalar::check_value_depth;
use crate::error::Error;
use crate::ignore_order::members::set_difference;
use crate::ignore_order::memo::IgnoreOrderMemo;
use crate::path::{set_item_repr, PathSegment};
use crate::report::Report;
use crate::value::SetItems;

#[allow(unused_imports)]
use super::scalar::{outcome, oversized, too_deep, Outcome};
#[allow(unused_imports)]
use crate::ignore_order::members::set_changes;
#[allow(unused_imports)]
use crate::ignore_order::memo::MemoVal;
#[allow(unused_imports)]
use crate::path::{item_text, segs, Seg};
#[allow(unused_imports)]
use crate::report::{nothing, with_set_added, with_set_removed, Findings};
#[allow(unused_imports)]
use crate::value::Val;

verus! {

/// The path of a member.
pub open spec fn member_path(path: Seq<Seg>, item: Val) -> Seq<Seg> {
    path.push(Seg::SetItem(item_text(item)))
}

/// The members at the positions from the `k`th on as removed, or as added.
pub open spec fn members_outcome(
    f: Findings,
    path: Seq<Seg>,
    items: Seq<Val>,
    positions: Seq<usize>,
    k: int,
    added: bool,
    depth: int,
    max_depth: int,
) -> Outcome
    decreases positions.len() - k,
{
    if k < 0 || k >= positions.len() {
        Ok(f)
    } else {
        let item = items[positions[k] as int];
        let at = member_path(path, item);
        if oversized(item, depth + 1, max_depth) {
            Err(too_deep(at, max_depth))
        } else {
            let g = if added {
                with_set_added(f, at, item)
            } else {
                with_set_removed(f, at, item)
            };
            members_outcome(g, path, items, positions, k + 1, added, depth, max_depth)
        }
    }
}

/// Two sets: the members that only one of them has.
pub open spec fn set_outcome(
    m: MemoVal,
    path: Seq<Seg>,
    a: Seq<Val>,
    b: Seq<Val>,
    depth: int,
    max_depth: int,
) -> (MemoVal, Outcome) {
    let (n, removed, added) = set_changes(m, a, b);
    (
        n,
        match members_outcome(nothing(), path, a, removed, 0, false, depth, max_depth) {
            Err(e) => Err(e),
            Ok(f) => members_outcome(f, path, b, added, 0, true, depth, max_depth),
        },
    )
}

/// Records members as removed, or as added.
#[verifier::loop_isolation(false)]
fn insert_set_findings(
    report: Report,
    path: &Vec<PathSegment>,
    items: &SetItems,
    positions: &Vec<usize>,
    added: bool,
    depth: u128,
    max_depth: usize,
) -> (result: Result<Report, Error>)
    requires
        depth < u128::MAX,
        forall|k: int| 0 <= k < positions@.len() ==> (#[trigger] positions@[k]) < items@.len(),
    ensures
        outcome(result) == members_outcome(
            report@,
            segs(path@),
            items@,
            positions@,
            0,
            added,
            depth as int,
            max_depth as int,
        ),
{
    let mut report: Report = report;
    let ghost goal: Outcome = members_outcome(
        report@,
        segs(path@),
        items@,
        positions@,
        0,
        added,
        depth as int,
        max_depth as int,
    );
    let mut k: usize = 0;
    while k < positions.len()
        invariant
            k <= positions.len(),
            depth < u128::MAX,
            forall|k: int| 0 <= k < positions@.len() ==> (#[trigger] positions@[k]) < items@.len(),
            goal == members_outcome(
                report@,
                segs(path@),
                items@,
                positions@,
                k as int,
                added,
                depth as int,
                max_depth as int,
            ),
        decreases positions.len() - k,
    {
        let item = items.get(positions[k]);
        let at: Vec<PathSegment> = child_path(path, PathSegment::SetItem(set_item_repr(item)));
        if let Err(error) = check_value_depth(&at, item, depth + 1, max_depth) {
            return Err(error);
        }
        if added {
            report.insert_set_item_added(at, item.duplicate());
        } else {
            report.insert_set_item_removed(at, item.duplicate());
        }
        k = k + 1;
    }
    Ok(report)
}

/// Compares two sets.
pub fn set_diff(
    path: &Vec<PathSegment>,
    a: &SetItems,
    b: &SetItems,
    depth: u128,
    opts: &DiffOptions,
    memo: &mut IgnoreOrderMemo<'_>,
) -> (result: Result<Report, Error>)
    requires
        old(memo).well_formed(),
        depth < u128::MAX,
    ensures
        final(memo).well_formed(),
        final(memo).table() == old(memo).table(),
        (final(memo)@, outcome(result)) == set_outcome(
            old(memo)@,
            segs(path@),
            a@,
            b@,
            depth as int,
            opts.max_depth as int,
        ),
{
    let (removed, added) = set_difference(a, b, memo);
    match insert_set_findings(
        Report::new(),
        path,
        a,
        &removed,
        false,
        depth,
        opts.max_depth,
    ) {
        Err(error) => Err(error),
        Ok(report) => insert_set_findings(report, path, b, &added, true, depth, opts.max_depth),
    }
}

} // verus!
