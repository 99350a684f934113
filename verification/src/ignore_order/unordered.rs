//! Comparing two lists without regard to order.

use vstd::prelude::*;

use super::candidates::CUTOFF_INTERSECTION_FOR_PAIRS;
use super::hash::{places_lacking, HashedList};
use super::memo::IgnoreOrderMemo;
use super::pairing::compute_pairs;
use crate::diff::dispatch::diff_at;
use crate::diff::lists::{check_items_depth, child_path};
use crate::diff::options::DiffOptions;
use crate::error::Error;
use crate::path::PathSegment;
use crate::report::Report;
use crate::value::Value;

#[allow(unused_imports)]
use super::candidates::unpaired;
#[allow(unused_imports)]
use super::memo::MemoVal;
#[allow(unused_imports)]
use crate::diff::lists::lemma_segs_push;
#[allow(unused_imports)]
use crate::diff::model::{
    added_at, consumed, leftover, lemma_pair_slope, lemma_paired_links, lists_of, paired_links,
    pairs_found, pivot_items, removed_at, reserve, unordered_of, Lists,
};
#[allow(unused_imports)]
use crate::diff::options::rules;
#[allow(unused_imports)]
use crate::diff::scalar::{outcome, Outcome};
#[allow(unused_imports)]
use crate::path::segs;
#[allow(unused_imports)]
use crate::report::{nothing, Findings};
#[allow(unused_imports)]
use crate::value::views;
#[allow(unused_imports)]
use crate::walk::total;

verus! {

/// Two lists with the keys of their items, and the keys that one of them lacks.
#[derive(Debug)]
pub struct ListPair<'a> {
    pub old: &'a Vec<Value>,
    pub new: &'a Vec<Value>,
    pub first: HashedList,
    pub second: HashedList,
    pub added: Vec<usize>,
    pub removed: Vec<usize>,
}

impl<'a> View for ListPair<'a> {
    type V = Lists;

    open spec fn view(&self) -> Lists {
        Lists {
            old: views(self.old@),
            new: views(self.new@),
            first: self.first@,
            second: self.second@,
            added: self.added@,
            removed: self.removed@,
        }
    }
}

/// Whether the places are places of keys, and the keys have positions of items.
pub open spec fn fitting(lists: Lists) -> bool {
    &&& lists.first.keys.len() == lists.first.firsts.len()
    &&& lists.second.keys.len() == lists.second.firsts.len()
    &&& forall|r: int|
        0 <= r < lists.removed.len() ==> (#[trigger] lists.removed[r]) < lists.first.firsts.len()
            && lists.first.firsts[lists.removed[r] as int] < lists.old.len()
    &&& forall|k: int|
        0 <= k < lists.added.len() ==> (#[trigger] lists.added[k]) < lists.second.firsts.len()
            && lists.second.firsts[lists.added[k] as int] < lists.new.len()
}

/// Whether the keys are those of items that a memo knows.
pub open spec fn known_items(m: MemoVal, lists: Lists) -> bool {
    &&& forall|k: int|
        0 <= k < lists.first.keys.len() ==> (#[trigger] lists.first.keys[k]) < m.items.len()
    &&& forall|k: int|
        0 <= k < lists.second.keys.len() ==> (#[trigger] lists.second.keys[k]) < m.items.len()
}

impl<'a> ListPair<'a> {
    /// Two lists with the keys of their items.
    pub fn build(a: &'a Vec<Value>, b: &'a Vec<Value>, memo: &mut IgnoreOrderMemo<'_>) -> (pair:
        Self)
        requires
            old(memo).well_formed(),
        ensures
            final(memo).well_formed(),
            final(memo).table() == old(memo).table(),
            (final(memo)@, pair@) == lists_of(old(memo)@, views(a@), views(b@)),
            fitting(pair@),
            known_items(final(memo)@, pair@),
            pair.old == a,
            pair.new == b,
    {
        let first: HashedList = HashedList::build(a, memo);
        let second: HashedList = HashedList::build(b, memo);
        let added: Vec<usize> = places_lacking(&second, &first);
        let removed: Vec<usize> = places_lacking(&first, &second);
        ListPair { old: a, new: b, first, second, added, removed }
    }

    /// The position of a removed item.
    pub fn old_position(&self, r: usize) -> (i: usize)
        requires
            fitting(self@),
            r < self@.removed.len(),
        ensures
            i == removed_at(self@, r as int),
            i < self.old@.len(),
    {
        proof {
            assert(self@.removed[r as int] < self@.first.firsts.len());
        }
        self.first.first(self.removed[r])
    }

    /// The position of an added item.
    pub fn new_position(&self, k: usize) -> (j: usize)
        requires
            fitting(self@),
            k < self@.added.len(),
        ensures
            j == added_at(self@, k as int),
            j < self.new@.len(),
    {
        proof {
            assert(self@.added[k as int] < self@.second.firsts.len());
        }
        self.second.first(self.added[k])
    }
}

/// Which removed items are some added item's partner.
fn consumed_marks(partners: &Vec<Option<(usize, u64)>>, removed: usize) -> (marks: Vec<bool>)
    requires
        forall|k: int|
            0 <= k < partners@.len() ==> ((#[trigger] partners@[k]) matches Some(p) ==> p.0
                < removed),
    ensures
        marks@.len() == removed,
        forall|r: usize|
            r < removed ==> (#[trigger] marks@[r as int]) == consumed(partners@, r),
{
    let mut marks: Vec<bool> = Vec::new();
    let mut r: usize = 0;
    while r < removed
        invariant
            r <= removed,
            marks@.len() == r,
            forall|s: int| 0 <= s < r ==> !(#[trigger] marks@[s]),
        decreases removed - r,
    {
        marks.push(false);
        r = r + 1;
    }
    let mut k: usize = 0;
    while k < partners.len()
        invariant
            k <= partners.len(),
            marks@.len() == removed,
            forall|k: int|
                0 <= k < partners@.len() ==> ((#[trigger] partners@[k]) matches Some(p) ==> p.0
                    < removed),
            forall|r: usize|
                r < removed ==> (#[trigger] marks@[r as int]) == (exists|s: int|
                    0 <= s < k && ((#[trigger] partners@[s]) matches Some(p) && p.0 == r)),
        decreases partners.len() - k,
    {
        let ghost before: Seq<bool> = marks@;
        if let Some(p) = partners[k] {
            marks.set(p.0, true);
        }
        proof {
            assert forall|r: usize| r < removed implies (#[trigger] marks@[r as int]) == (exists|
                s: int,
            |
                0 <= s < k + 1 && ((#[trigger] partners@[s]) matches Some(p) && p.0 == r)) by {
                assert(before[r as int] == (exists|s: int|
                    0 <= s < k && ((#[trigger] partners@[s]) matches Some(p) && p.0 == r)));
                if before[r as int] {
                    let s: int = choose|s: int|
                        0 <= s < k && ((#[trigger] partners@[s]) matches Some(p) && p.0 == r);
                    assert(partners@[s] matches Some(p) && p.0 == r);
                }
                if let Some(p) = partners@[k as int] {
                    if p.0 == r {
                        assert(marks@[r as int]);
                    }
                }
            }
        }
        k = k + 1;
    }
    marks
}

/// Records the removed items that are no item's partner.
fn insert_leftover(
    report: &mut Report,
    path: &Vec<PathSegment>,
    lists: &ListPair<'_>,
    partners: &Vec<Option<(usize, u64)>>,
)
    requires
        fitting(lists@),
        forall|k: int|
            0 <= k < partners@.len() ==> ((#[trigger] partners@[k]) matches Some(p) ==> p.0
                < lists@.removed.len()),
    ensures
        final(report)@ == leftover(
            old(report)@,
            segs(path@),
            lists@.old,
            lists@.first,
            lists@.removed,
            partners@,
            0,
        ),
{
    let ghost goal: Findings = leftover(
        report@,
        segs(path@),
        lists@.old,
        lists@.first,
        lists@.removed,
        partners@,
        0,
    );
    let marks: Vec<bool> = consumed_marks(partners, lists.removed.len());
    let mut r: usize = 0;
    while r < lists.removed.len()
        invariant
            r <= lists@.removed.len(),
            fitting(lists@),
            marks@.len() == lists@.removed.len(),
            forall|r: usize|
                r < lists@.removed.len() ==> (#[trigger] marks@[r as int]) == consumed(
                    partners@,
                    r,
                ),
            goal == leftover(
                report@,
                segs(path@),
                lists@.old,
                lists@.first,
                lists@.removed,
                partners@,
                r as int,
            ),
        decreases lists@.removed.len() - r,
    {
        let i: usize = lists.old_position(r);
        proof {
            assert(marks@[r as int] == consumed(partners@, r));
        }
        if !marks[r] {
            report.insert_iterable_item_removed(
                child_path(path, PathSegment::Index(i)),
                lists.old[i].duplicate(),
            );
        }
        r = r + 1;
    }
}

/// No partner for any item.
fn no_partners(count: usize) -> (partners: Vec<Option<(usize, u64)>>)
    ensures
        partners@ == unpaired(count as nat),
{
    let mut partners: Vec<Option<(usize, u64)>> = Vec::new();
    let mut k: usize = 0;
    while k < count
        invariant
            k <= count,
            partners@ =~= unpaired(k as nat),
        decreases count - k,
    {
        partners.push(None);
        k = k + 1;
    }
    partners
}

/// Compares two lists without regard to order.
pub fn ignore_order_array_diff<'r>(
    path: &mut Vec<PathSegment>,
    a: &Vec<Value>,
    b: &Vec<Value>,
    depth: u128,
    opts: &DiffOptions,
    memo: &mut IgnoreOrderMemo<'r>,
) -> (result: Result<Report, Error>)
    requires
        old(memo).well_formed(),
        depth < u128::MAX,
    ensures
        final(memo).well_formed(),
        final(memo).table() == old(memo).table(),
        final(path)@ == old(path)@,
        (final(memo)@, outcome(result)) == unordered_of(
            old(memo)@,
            segs(old(path)@),
            views(a@),
            views(b@),
            depth as int,
            rules(*opts, old(memo).table()),
        ),
    decreases
            reserve(depth as int, opts.max_depth as int),
            paired_links(rules(*opts, old(memo).table()), views(a@), views(b@)),
            1 + total(pivot_items(rules(*opts, old(memo).table()), views(a@), views(b@))),
            6int,
            0int,
            0int,
{
    if let Err(error) = check_items_depth(path, a, depth, opts.max_depth) {
        return Err(error);
    }
    if let Err(error) = check_items_depth(path, b, depth, opts.max_depth) {
        return Err(error);
    }
    let lists: ListPair<'_> = ListPair::build(a, b, memo);
    proof {
        lemma_pair_slope(
            segs(path@),
            rules(*opts, memo.table()),
            views(a@),
            views(b@),
            depth as int,
        );
    }
    let changed: u128 = lists.added.len() as u128 + lists.removed.len() as u128;
    let whole: u128 = lists.first.len() as u128 + lists.second.len() as u128 + 1;
    let partners: Vec<Option<(usize, u64)>> = if 10 * changed <= (
    CUTOFF_INTERSECTION_FOR_PAIRS as u128) * whole {
        compute_pairs(&lists, depth, opts, memo)
    } else {
        no_partners(lists.added.len())
    };
    diff_pairs(path, &lists, &partners, depth, opts, memo)
}

/// Compares the items that go together, and records the others.
#[verifier::loop_isolation(false)]
fn diff_pairs<'r>(
    path: &mut Vec<PathSegment>,
    lists: &ListPair<'_>,
    partners: &Vec<Option<(usize, u64)>>,
    depth: u128,
    opts: &DiffOptions,
    memo: &mut IgnoreOrderMemo<'r>,
) -> (result: Result<Report, Error>)
    requires
        old(memo).well_formed(),
        depth < u128::MAX,
        fitting(lists@),
        partners@.len() == lists@.added.len(),
        forall|k: int|
            0 <= k < partners@.len() ==> ((#[trigger] partners@[k]) matches Some(p) ==> p.0
                < lists@.removed.len()),
    ensures
        final(memo).well_formed(),
        final(memo).table() == old(memo).table(),
        final(path)@ == old(path)@,
        (final(memo)@, outcome(result)) == pairs_found(
            old(memo)@,
            segs(old(path)@),
            lists@,
            partners@,
            depth as int,
            rules(*opts, old(memo).table()),
            0,
            nothing(),
        ),
    decreases
            reserve(depth as int, opts.max_depth as int),
            paired_links(rules(*opts, old(memo).table()), lists@.old, lists@.new),
            1 + total(pivot_items(rules(*opts, old(memo).table()), lists@.old, lists@.new)),
            1int,
            0int,
            0int,
{
    let ghost before: Seq<PathSegment> = path@;
    let ghost goal: (MemoVal, Outcome) = pairs_found(
        memo@,
        segs(before),
        lists@,
        partners@,
        depth as int,
        rules(*opts, old(memo).table()),
        0,
        nothing(),
    );
    let prefix_depth: usize = path.len();
    let mut report: Report = Report::new();
    let mut k: usize = 0;
    while k < lists.added.len()
        invariant
            k <= lists@.added.len(),
            memo.well_formed(),
            memo.table() == old(memo).table(),
            path@ == before,
            goal == pairs_found(
                memo@,
                segs(before),
                lists@,
                partners@,
                depth as int,
                rules(*opts, old(memo).table()),
                k as int,
                report@,
            ),
        decreases lists@.added.len() - k,
    {
        let j: usize = lists.new_position(k);
        match partners[k] {
            Some(p) => {
                proof {
                    assert(partners@[k as int] matches Some(p) ==> p.0 < lists@.removed.len());
                }
                let i: usize = lists.old_position(p.0);
                proof {
                    lemma_segs_push(before, PathSegment::Index(i));
                    lemma_paired_links(
                        rules(*opts, memo.table()),
                        lists@.old,
                        lists@.new,
                        i as int,
                        j as int,
                    );
                    assert(segs(before).len() == before.len());
                }
                path.push(PathSegment::Index(i));
                let found: Result<Report, Error> = diff_at(
                    path,
                    &lists.old[i],
                    &lists.new[j],
                    depth,
                    opts,
                    memo,
                );
                let _ = path.pop();
                proof {
                    assert(path@ =~= before);
                }
                match found {
                    Err(error) => {
                        return Err(error);
                    },
                    Ok(more) => {
                        let mut more: Report = more;
                        more.merge_mutual_add_removes();
                        if i != j {
                            more.retag_new_path(prefix_depth, j);
                        }
                        report.merge(more);
                    },
                }
            },
            None => {
                report.insert_iterable_item_added(
                    child_path(path, PathSegment::Index(j)),
                    lists.new[j].duplicate(),
                );
            },
        }
        k = k + 1;
    }
    insert_leftover(&mut report, path, lists, partners);
    Ok(report)
}

} // verus!
