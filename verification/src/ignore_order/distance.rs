//! How far apart two values are.

use vstd::prelude::*;

use super::coerce::type_change_leaf_length;
use super::dict_keys::{find_partner, has_non_str_keys, is_below_threshold_to_diff_deeper};
use super::length::{item_length, item_length_of_map, rough_length};
use super::members::set_difference;
use super::memo::IgnoreOrderMemo;
use super::numeric::{distance_family, numeric_distance};
use crate::count::capped_sum;
use crate::datetime::times_equal;
use crate::diff::array::array_diff;
use crate::diff::dispatch::{failed_or_whole, is_failed, pair_skips};
use crate::diff::equality::numbers_equal;
use crate::diff::options::DiffOptions;
use crate::diff::scalar::of_same_class;
use crate::float_math::{divide_floats, from_integer};
use crate::path::PathSegment;
use crate::report::Report;
use crate::value::{Object, SetItems, Value};

#[allow(unused_imports)]
use super::dict_keys::has_other_keys;
#[allow(unused_imports)]
use super::length::leaves;
#[allow(unused_imports)]
use super::memo::MemoVal;
#[allow(unused_imports)]
use crate::count::capped;
#[allow(unused_imports)]
use crate::diff::depth::{height, heights};
#[allow(unused_imports)]
use crate::diff::model::{
    below, leaves_at, leaves_between, leaves_between_entries, leaves_between_lists,
    leaves_between_objects, leaves_between_sets, lemma_list_slope, list_links, lone_leaves,
    one_unless, reserve, resolved, rough_of, rough_slope, slope,
};
#[allow(unused_imports)]
use crate::diff::options::{rules, Rules};
#[allow(unused_imports)]
use crate::diff::scalar::room;
#[allow(unused_imports)]
use crate::path::segs;
#[allow(unused_imports)]
use crate::value::{views, Val};
#[allow(unused_imports)]
use crate::walk::{lemma_entry_member, total, total_entries, weight};

verus! {

/// The depth below a depth.
fn depth_below(depth: u128, max_depth: usize) -> (result: u128)
    ensures
        result == below(depth as int, max_depth as int),
{
    if depth > max_depth as u128 {
        depth
    } else {
        depth + 1
    }
}

/// The distance of two values.
pub fn rough_distance<'r>(
    removed: &Value,
    added: &Value,
    cutoff: u64,
    depth: u128,
    opts: &DiffOptions,
    memo: &mut IgnoreOrderMemo<'r>,
) -> (distance: u64)
    requires
        old(memo).well_formed(),
    ensures
        final(memo).well_formed(),
        final(memo).table() == old(memo).table(),
        (final(memo)@, distance) == rough_of(
            old(memo)@,
            removed@,
            added@,
            cutoff,
            depth as int,
            rules(*opts, old(memo).table()),
        ),
    decreases
            reserve(depth as int, opts.max_depth as int),
            rough_slope(rules(*opts, old(memo).table()), removed@, depth as int),
            weight(removed@),
            12int,
            0int,
            0int,
{
    if let Some((x, y)) = distance_family(removed, added) {
        return numeric_distance(x, y, cutoff);
    }
    let count: usize = count_diff_leaves(
        removed,
        added,
        depth_below(depth, opts.max_depth),
        opts,
        memo,
    );
    if count == 0 {
        return 0;
    }
    let whole: usize = capped_sum(rough_length(removed), rough_length(added));
    divide_floats(from_integer(count as i128), from_integer(whole as i128))
}

fn one_if_not(same: bool) -> (count: usize)
    ensures
        count == one_unless(same),
{
    if same {
        0
    } else {
        1
    }
}

/// How many leaves differ between two values.
pub fn count_diff_leaves<'r>(
    a: &Value,
    b: &Value,
    depth: u128,
    opts: &DiffOptions,
    memo: &mut IgnoreOrderMemo<'r>,
) -> (count: usize)
    requires
        old(memo).well_formed(),
    ensures
        final(memo).well_formed(),
        final(memo).table() == old(memo).table(),
        final(memo)@ == leaves_between(
            old(memo)@,
            a@,
            b@,
            depth as int,
            rules(*opts, old(memo).table()),
        ).0,
        count == capped(
            leaves_between(
                old(memo)@,
                a@,
                b@,
                depth as int,
                rules(*opts, old(memo).table()),
            ).1,
        ),
    decreases
            reserve(depth as int, opts.max_depth as int),
            slope(rules(*opts, old(memo).table()), height(a@)),
            weight(a@),
            11int,
            0int,
            0int,
{
    match (a, b) {
        (Value::Null, Value::Null) => 0,
        (Value::Bool(x), Value::Bool(y)) => one_if_not(*x == *y),
        (Value::Str(x), Value::Str(y)) => one_if_not(x.eq(y)),
        (Value::Number(x), Value::Number(y)) => if x.is_f64() == y.is_f64() {
            one_if_not(numbers_equal(x, y))
        } else {
            type_change_leaf_length(a, b)
        },
        (Value::DateTime(x), Value::DateTime(y)) => one_if_not(x.instant() == y.instant()),
        (Value::Date(x), Value::Date(y)) => one_if_not(*x == *y),
        (Value::Time(x), Value::Time(y)) => one_if_not(times_equal(*x, *y)),
        (Value::TimeDelta(x), Value::TimeDelta(y)) => one_if_not(*x == *y),
        (Value::Array(x), Value::Array(y)) => count_array_diff_leaves(x, y, depth, opts, memo),
        (Value::Tuple(x), Value::Tuple(y)) => count_array_diff_leaves(x, y, depth, opts, memo),
        (Value::MutableSet(x), Value::MutableSet(y)) => count_set_diff_leaves(x, y, memo),
        (Value::FrozenSet(x), Value::FrozenSet(y)) => count_set_diff_leaves(x, y, memo),
        (Value::Object(x), Value::Object(y)) => {
            proof {
                lemma_no_resolution(a@, b@);
            }
            if pair_skips(a, b) {
                0
            } else if !of_same_class(a, b) {
                type_change_leaf_length(a, b)
            } else if is_failed(x) || is_failed(y) {
                item_length(&failed_or_whole(y))
            } else {
                count_object_diff_leaves(x, y, depth, opts, memo)
            }
        },
        _ => type_change_leaf_length(a, b),
    }
}

/// Without values that stand for tokens, nothing does.
proof fn lemma_no_resolution(a: Val, b: Val)
    ensures
        resolved(seq![], true, a, b, false) is None,
        resolved(seq![], false, b, a, false) is None,
{
    assert(forall|identity: Seq<char>|
        #[trigger] super::memo::resolution(seq![], identity) is None);
}

/// The leaves of the members at some positions.
fn length_at(items: &SetItems, positions: &Vec<usize>) -> (count: usize)
    requires
        forall|k: int| 0 <= k < positions@.len() ==> (#[trigger] positions@[k]) < items@.len(),
    ensures
        count == capped(leaves_at(items@, positions@, 0)),
{
    let ghost goal: nat = leaves_at(items@, positions@, 0);
    let ghost mut exact: nat = 0;
    let mut count: usize = 0;
    let mut k: usize = 0;
    while k < positions.len()
        invariant
            k <= positions.len(),
            forall|k: int| 0 <= k < positions@.len() ==> (#[trigger] positions@[k]) < items@.len(),
            count == capped(exact),
            exact + leaves_at(items@, positions@, k as int) == goal,
        decreases positions.len() - k,
    {
        count = capped_sum(count, item_length(items.get(positions[k])));
        proof {
            exact = exact + leaves(items@[positions@[k as int] as int]);
        }
        k = k + 1;
    }
    count
}

/// How many leaves differ between two sets.
fn count_set_diff_leaves(a: &SetItems, b: &SetItems, memo: &mut IgnoreOrderMemo<'_>) -> (count:
    usize)
    requires
        old(memo).well_formed(),
    ensures
        final(memo).well_formed(),
        final(memo).table() == old(memo).table(),
        final(memo)@ == leaves_between_sets(old(memo)@, a@, b@).0,
        count == capped(leaves_between_sets(old(memo)@, a@, b@).1),
{
    let (removed, added) = set_difference(a, b, memo);
    capped_sum(length_at(a, &removed), length_at(b, &added))
}

/// How many leaves differ between two lists.
#[verifier::spinoff_prover]
pub fn count_array_diff_leaves<'r>(
    a: &Vec<Value>,
    b: &Vec<Value>,
    depth: u128,
    opts: &DiffOptions,
    memo: &mut IgnoreOrderMemo<'r>,
) -> (count: usize)
    requires
        old(memo).well_formed(),
    ensures
        final(memo).well_formed(),
        final(memo).table() == old(memo).table(),
        final(memo)@ == leaves_between_lists(
            old(memo)@,
            views(a@),
            views(b@),
            depth as int,
            rules(*opts, old(memo).table()),
        ).0,
        count == capped(
            leaves_between_lists(
                old(memo)@,
                views(a@),
                views(b@),
                depth as int,
                rules(*opts, old(memo).table()),
            ).1,
        ),
    decreases
            reserve(depth as int, opts.max_depth as int),
            slope(rules(*opts, old(memo).table()), heights(views(a@))),
            1 + total(views(a@)),
            10int,
            0int,
            0int,
{
    let max_depth: usize = if depth > opts.max_depth as u128 {
        0
    } else {
        opts.max_depth - depth as usize
    };
    let trial: DiffOptions = DiffOptions { max_depth, ignore_order: opts.ignore_order };
    let mut path: Vec<PathSegment> = Vec::new();
    proof {
        assert(segs(path@) =~= seq![]);
        lemma_list_slope(rules(*opts, memo.table()), views(a@), views(b@));
        assert(rules(trial, memo.table()) == (Rules {
            max_depth: room(depth as int, opts.max_depth as int) as usize,
            ..rules(*opts, memo.table())
        }));
        assert(list_links(rules(trial, memo.table()), views(a@), views(b@)) == list_links(
            rules(*opts, memo.table()),
            views(a@),
            views(b@),
        ));
        assert(reserve(0, trial.max_depth as int) == reserve(
            depth as int,
            opts.max_depth as int,
        ));
    }
    match array_diff(&mut path, a, b, 0, &trial, memo) {
        Err(_) => 0,
        Ok(report) => {
            let mut report: Report = report;
            report.merge_mutual_add_removes();
            report.distance_leaf_length()
        },
    }
}

/// How many leaves differ between two objects.
pub fn count_object_diff_leaves<'r>(
    a: &Object,
    b: &Object,
    depth: u128,
    opts: &DiffOptions,
    memo: &mut IgnoreOrderMemo<'r>,
) -> (count: usize)
    requires
        old(memo).well_formed(),
    ensures
        final(memo).well_formed(),
        final(memo).table() == old(memo).table(),
        final(memo)@ == leaves_between_objects(
            old(memo)@,
            a@,
            b@,
            depth as int,
            rules(*opts, old(memo).table()),
        ).0,
        count == capped(
            leaves_between_objects(
                old(memo)@,
                a@,
                b@,
                depth as int,
                rules(*opts, old(memo).table()),
            ).1,
        ),
    decreases
            reserve(depth as int, opts.max_depth as int),
            slope(rules(*opts, old(memo).table()), height(Val::Object(a@))),
            1 + total_entries(a@.entries),
            7int,
            0int,
            0int,
{
    if is_below_threshold_to_diff_deeper(a, b) {
        return item_length_of_map(b);
    }
    let ghost goal: (MemoVal, nat) = leaves_between_entries(
        memo@,
        a@.entries,
        b@.entries,
        depth as int,
        rules(*opts, old(memo).table()),
        0,
        0,
    );
    let plain: bool = !has_non_str_keys(b);
    let ghost mut exact: nat = 0;
    let mut count: usize = 0;
    let mut i: usize = 0;
    while i < a.len()
        invariant
            i <= a@.entries.len(),
            memo.well_formed(),
            memo.table() == old(memo).table(),
            plain == !has_other_keys(b@.entries),
            count == capped(exact),
            goal == leaves_between_entries(
                memo@,
                a@.entries,
                b@.entries,
                depth as int,
                rules(*opts, old(memo).table()),
                i as int,
                exact,
            ),
        decreases a@.entries.len() - i,
    {
        proof {
            lemma_entry_member(a@.entries, i as int);
        }
        match find_partner(b, a.key_at(i), plain) {
            None => {
                count = capped_sum(count, item_length(a.value_at(i)));
                proof {
                    exact = exact + leaves(a@.entries[i as int].1);
                }
            },
            Some(j) => {
                let ghost m: MemoVal = memo@;
                let more: usize = count_diff_leaves(
                    a.value_at(i),
                    b.value_at(j),
                    depth_below(depth, opts.max_depth),
                    opts,
                    memo,
                );
                count = capped_sum(count, more);
                proof {
                    exact = exact + leaves_between(
                        m,
                        a@.entries[i as int].1,
                        b@.entries[j as int].1,
                        below(depth as int, opts.max_depth as int),
                        rules(*opts, old(memo).table()),
                    ).1;
                }
            },
        }
        i = i + 1;
    }
    capped_sum(count, lone_length(b, a))
}

/// The leaves of the entries whose key has no partner.
fn lone_length(object: &Object, other: &Object) -> (count: usize)
    ensures
        count == capped(lone_leaves(object@.entries, other@.entries, 0)),
{
    let ghost goal: nat = lone_leaves(object@.entries, other@.entries, 0);
    let plain: bool = !has_non_str_keys(other);
    let ghost mut exact: nat = 0;
    let mut count: usize = 0;
    let mut i: usize = 0;
    while i < object.len()
        invariant
            i <= object@.entries.len(),
            plain == !has_other_keys(other@.entries),
            count == capped(exact),
            exact + lone_leaves(object@.entries, other@.entries, i as int) == goal,
        decreases object@.entries.len() - i,
    {
        if find_partner(other, object.key_at(i), plain).is_none() {
            count = capped_sum(count, item_length(object.value_at(i)));
            proof {
                exact = exact + leaves(object@.entries[i as int].1);
            }
        }
        i = i + 1;
    }
    count
}

} // verus!
