//! Which items of two unordered lists go together.

use vstd::prelude::*;

use super::candidates::{assign, Candidate, CUTOFF_DISTANCE_FOR_PAIRS};
use super::distance::rough_distance;
use super::hash::HashedList;
use super::memo::IgnoreOrderMemo;
use super::unordered::ListPair;
use crate::diff::options::DiffOptions;
use crate::value::Value;

#[allow(unused_imports)]
use super::candidates::{
    from_candidates, in_bounds, lemma_nearest_paired, lemma_one_to_one, Partners, Ranking,
};
#[allow(unused_imports)]
use super::memo::MemoVal;
#[allow(unused_imports)]
use super::unordered::{fitting, known_items};
#[allow(unused_imports)]
use crate::diff::options::{rules, Rules};
#[allow(unused_imports)]
use crate::diff::model::{
    candidates_of, distance_of, held_items, lemma_item_slope, pair_slope, pairs_of, reserve,
    Lists,
};
#[allow(unused_imports)]
use crate::order::{lemma_lookup, lookup};
#[allow(unused_imports)]
use crate::value::views;
#[allow(unused_imports)]
use crate::walk::{lemma_member, total};

verus! {

/// Numbers the items at some places where their distances are remembered.
fn hold_items(
    items: &Vec<Value>,
    list: &HashedList,
    places: &Vec<usize>,
    memo: &mut IgnoreOrderMemo<'_>,
) -> (numbers: Vec<Option<usize>>)
    requires
        old(memo).well_formed(),
        forall|k: int|
            0 <= k < places@.len() ==> (#[trigger] places@[k]) < list@.keys.len() && places@[k]
                < list@.firsts.len() && list@.firsts[places@[k] as int] < items@.len(),
        forall|k: int|
            0 <= k < list@.keys.len() ==> (#[trigger] list@.keys[k]) < old(memo)@.items.len(),
    ensures
        final(memo).well_formed(),
        final(memo).table() == old(memo).table(),
        (final(memo)@, numbers@) == held_items(
            old(memo)@,
            views(items@),
            list@,
            places@,
            places@.len() as int,
        ),
        numbers@.len() == places@.len(),
        final(memo)@.items == old(memo)@.items,
{
    let ghost m: MemoVal = memo@;
    let mut numbers: Vec<Option<usize>> = Vec::new();
    let mut k: usize = 0;
    while k < places.len()
        invariant
            k <= places.len(),
            memo.well_formed(),
            memo.table() == old(memo).table(),
            memo@.items == m.items,
            numbers@.len() == k,
            forall|k: int|
                0 <= k < places@.len() ==> (#[trigger] places@[k]) < list@.keys.len() && places@[k]
                    < list@.firsts.len() && list@.firsts[places@[k] as int] < items@.len(),
            forall|k: int|
                0 <= k < list@.keys.len() ==> (#[trigger] list@.keys[k]) < m.items.len(),
            (memo@, numbers@) == held_items(m, views(items@), list@, places@, k as int),
        decreases places.len() - k,
    {
        let place: usize = places[k];
        let key: usize = list.key(place);
        if memo.is_container(key) {
            let number: usize = memo.hold(key, &items[list.first(place)]);
            numbers.push(Some(number));
        } else {
            numbers.push(None);
        }
        k = k + 1;
    }
    numbers
}

/// The distance of the `k`th added item and the `r`th removed one.
fn item_distance<'r>(
    lists: &ListPair<'_>,
    olds: &Vec<Option<usize>>,
    news: &Vec<Option<usize>>,
    depth: u128,
    opts: &DiffOptions,
    k: usize,
    r: usize,
    memo: &mut IgnoreOrderMemo<'r>,
) -> (distance: u64)
    requires
        old(memo).well_formed(),
        fitting(lists@),
        k < lists@.added.len() == news@.len(),
        r < lists@.removed.len() == olds@.len(),
    ensures
        final(memo).well_formed(),
        final(memo).table() == old(memo).table(),
        (final(memo)@, distance) == distance_of(
            old(memo)@,
            lists@,
            olds@,
            news@,
            depth as int,
            rules(*opts, old(memo).table()),
            k as int,
            r as int,
        ),
    decreases
            reserve(depth as int, opts.max_depth as int),
            pair_slope(rules(*opts, old(memo).table()), lists@.old, depth as int),
            1 + total(lists@.old),
            3int,
            0int,
            0int,
{
    let i: usize = lists.old_position(r);
    let j: usize = lists.new_position(k);
    proof {
        lemma_member(lists@.old, i as int);
        lemma_item_slope(rules(*opts, memo.table()), lists@.old, depth as int, i as int);
    }
    if memo.caching_enabled() {
        if let (Some(s), Some(t)) = (olds[r], news[k]) {
            return match memo.get(s, t) {
                Some(distance) => distance,
                None => {
                    let distance: u64 = rough_distance(
                        &lists.old[i],
                        &lists.new[j],
                        CUTOFF_DISTANCE_FOR_PAIRS,
                        depth,
                        opts,
                        memo,
                    );
                    memo.put(s, t, distance);
                    distance
                },
            };
        }
    }
    rough_distance(&lists.old[i], &lists.new[j], CUTOFF_DISTANCE_FOR_PAIRS, depth, opts, memo)
}

/// Which removed item each added item goes with, and at what distance.
pub fn compute_pairs<'r>(
    lists: &ListPair<'_>,
    depth: u128,
    opts: &DiffOptions,
    memo: &mut IgnoreOrderMemo<'r>,
) -> (partners: Vec<Option<(usize, u64)>>)
    requires
        old(memo).well_formed(),
        fitting(lists@),
        known_items(old(memo)@, lists@),
    ensures
        final(memo).well_formed(),
        final(memo).table() == old(memo).table(),
        (final(memo)@, partners@) == pairs_of(
            old(memo)@,
            lists@,
            depth as int,
            rules(*opts, old(memo).table()),
        ),
        partners@.len() == lists@.added.len(),
        forall|k: int|
            0 <= k < partners@.len() ==> ((#[trigger] partners@[k]) matches Some(p) ==> p.0
                < lists@.removed.len()),
    decreases
            reserve(depth as int, opts.max_depth as int),
            pair_slope(rules(*opts, old(memo).table()), lists@.old, depth as int),
            1 + total(lists@.old),
            5int,
            0int,
            0int,
{
    proof {
        assert forall|k: int| 0 <= k < lists.added@.len() implies (#[trigger] lists.added@[k])
            < lists.second@.keys.len() && lists.second@.firsts[lists.added@[k] as int]
            < lists.new@.len() by {
            assert(lists@.added[k] < lists@.second.firsts.len());
        }
        assert forall|k: int| 0 <= k < lists.removed@.len() implies (#[trigger] lists.removed@[k])
            < lists.first@.keys.len() && lists.first@.firsts[lists.removed@[k] as int]
            < lists.old@.len() by {
            assert(lists@.removed[k] < lists@.first.firsts.len());
        }
        assert forall|k: int| 0 <= k < lists.second@.keys.len() implies (
        #[trigger] lists.second@.keys[k]) < memo@.items.len() by {
            assert(lists@.second.keys[k] < memo@.items.len());
        }
        assert forall|k: int| 0 <= k < lists.first@.keys.len() implies (
        #[trigger] lists.first@.keys[k]) < memo@.items.len() by {
            assert(lists@.first.keys[k] < memo@.items.len());
        }
    }
    let news: Vec<Option<usize>> = hold_items(lists.new, &lists.second, &lists.added, memo);
    let olds: Vec<Option<usize>> = hold_items(lists.old, &lists.first, &lists.removed, memo);
    let candidates: Vec<(Candidate, ())> = near_pairs(lists, &olds, &news, depth, opts, memo);
    assign(&candidates, lists.added.len(), lists.removed.len())
}

/// The pairs near enough to go together.
#[verifier::loop_isolation(false)]
fn near_pairs<'r>(
    lists: &ListPair<'_>,
    olds: &Vec<Option<usize>>,
    news: &Vec<Option<usize>>,
    depth: u128,
    opts: &DiffOptions,
    memo: &mut IgnoreOrderMemo<'r>,
) -> (found: Vec<(Candidate, ())>)
    requires
        old(memo).well_formed(),
        fitting(lists@),
        lists@.added.len() == news@.len(),
        lists@.removed.len() == olds@.len(),
    ensures
        final(memo).well_formed(),
        final(memo).table() == old(memo).table(),
        (final(memo)@, found@) == candidates_of(
            old(memo)@,
            lists@,
            olds@,
            news@,
            depth as int,
            rules(*opts, old(memo).table()),
            0,
            0,
            seq![],
        ),
        in_bounds(found@, lists@.added.len(), lists@.removed.len()),
    decreases
            reserve(depth as int, opts.max_depth as int),
            pair_slope(rules(*opts, old(memo).table()), lists@.old, depth as int),
            1 + total(lists@.old),
            4int,
            0int,
            0int,
{
    let ghost goal: (MemoVal, Ranking) = candidates_of(
        memo@,
        lists@,
        olds@,
        news@,
        depth as int,
        rules(*opts, old(memo).table()),
        0,
        0,
        seq![],
    );
    let mut found: Vec<(Candidate, ())> = Vec::new();
    let mut k: usize = 0;
    while k < lists.added.len()
        invariant
            k <= lists@.added.len(),
            memo.well_formed(),
            memo.table() == old(memo).table(),
            in_bounds(found@, lists@.added.len(), lists@.removed.len()),
            goal == candidates_of(
                memo@,
                lists@,
                olds@,
                news@,
                depth as int,
                rules(*opts, old(memo).table()),
                k as int,
                0,
                found@,
            ),
        decreases lists@.added.len() - k,
    {
        let mut r: usize = 0;
        while r < lists.removed.len()
            invariant
                k < lists@.added.len(),
                r <= lists@.removed.len(),
                memo.well_formed(),
                memo.table() == old(memo).table(),
                in_bounds(found@, lists@.added.len(), lists@.removed.len()),
                goal == candidates_of(
                    memo@,
                    lists@,
                    olds@,
                    news@,
                    depth as int,
                    rules(*opts, old(memo).table()),
                    k as int,
                    r as int,
                    found@,
                ),
            decreases lists@.removed.len() - r,
        {
            let distance: u64 = item_distance(lists, olds, news, depth, opts, k, r, memo);
            if distance < CUTOFF_DISTANCE_FOR_PAIRS {
                found.push((Candidate { distance, added: k, removed: r }, ()));
            }
            r = r + 1;
        }
        k = k + 1;
    }
    found
}

// ---------------------------------------------------------------------
// What is paired
// ---------------------------------------------------------------------

/// Whether every candidate speaks of items that there are, and is near enough.
pub open spec fn near(candidates: Ranking, added: nat, removed: nat) -> bool {
    &&& in_bounds(candidates, added, removed)
    &&& forall|i: int|
        0 <= i < candidates.len() ==> (#[trigger] candidates[i]).0.distance
            < CUTOFF_DISTANCE_FOR_PAIRS
}

proof fn lemma_candidates_near(
    m: MemoVal,
    lists: Lists,
    olds: Seq<Option<usize>>,
    news: Seq<Option<usize>>,
    depth: int,
    opts: Rules,
    k: int,
    r: int,
    found: Ranking,
)
    requires
        near(found, lists.added.len(), lists.removed.len()),
    ensures
        near(
            candidates_of(m, lists, olds, news, depth, opts, k, r, found).1,
            lists.added.len(),
            lists.removed.len(),
        ),
    decreases lists.added.len() - k, lists.removed.len() - r,
{
    if 0 <= k < lists.added.len() {
        if r < 0 || r >= lists.removed.len() {
            lemma_candidates_near(m, lists, olds, news, depth, opts, k + 1, 0, found);
        } else {
            let (n, distance) = distance_of(m, lists, olds, news, depth, opts, k, r);
            let more: Ranking = if distance >= CUTOFF_DISTANCE_FOR_PAIRS {
                found
            } else {
                found.push((Candidate { distance, added: k as usize, removed: r as usize }, ()))
            };
            lemma_candidates_near(n, lists, olds, news, depth, opts, k, r + 1, more);
        }
    }
}

/// The candidates for the pairs of two lists.
pub open spec fn candidates_for(m: MemoVal, lists: Lists, depth: int, opts: Rules) -> Ranking {
    let (n, news) = held_items(
        m,
        lists.new,
        lists.second,
        lists.added,
        lists.added.len() as int,
    );
    let (n, olds) = held_items(
        n,
        lists.old,
        lists.first,
        lists.removed,
        lists.removed.len() as int,
    );
    candidates_of(n, lists, olds, news, depth, opts, 0, 0, seq![]).1
}

/// Items go together only where they are near enough, one to one, and the nearest
/// do: nothing is paired if and only if there is no candidate, and else some pair is
/// as near as the nearest candidate.
pub proof fn lemma_nearest_go_together(m: MemoVal, lists: Lists, depth: int, opts: Rules)
    ensures
        ({
            let candidates: Ranking = candidates_for(m, lists, depth, opts);
            let partners: Partners = pairs_of(m, lists, depth, opts).1;
            &&& partners.len() == lists.added.len()
            &&& from_candidates(candidates, partners)
            &&& forall|k: int|
                0 <= k < partners.len() ==> ((#[trigger] partners[k]) matches Some(p) ==> p.0
                    < lists.removed.len() && p.1 < CUTOFF_DISTANCE_FOR_PAIRS)
            &&& forall|i: int, j: int|
                0 <= i < j < partners.len() ==> ((#[trigger] partners[i]) matches Some(p) ==> ((
                #[trigger] partners[j]) matches Some(q) ==> p.0 != q.0))
            &&& (exists|k: int| 0 <= k < partners.len() && (#[trigger] partners[k]) is Some)
                <==> candidates.len() > 0
            &&& candidates.len() > 0 ==> exists|k: int|
                0 <= k < partners.len() && ((#[trigger] partners[k]) matches Some(p) && forall|i: int|
                    0 <= i < candidates.len() ==> p.1 <= (#[trigger] candidates[i]).0.distance)
        }),
{
    let candidates: Ranking = candidates_for(m, lists, depth, opts);
    let partners: Partners = pairs_of(m, lists, depth, opts).1;
    let (n, news) = held_items(
        m,
        lists.new,
        lists.second,
        lists.added,
        lists.added.len() as int,
    );
    let (n, olds) = held_items(
        n,
        lists.old,
        lists.first,
        lists.removed,
        lists.removed.len() as int,
    );
    lemma_candidates_near(n, lists, olds, news, depth, opts, 0, 0, seq![]);
    lemma_one_to_one(candidates, lists.added.len(), lists.removed.len());
    lemma_nearest_paired(candidates, lists.added.len(), lists.removed.len());
    assert forall|k: int| 0 <= k < partners.len() implies ((#[trigger] partners[k]) matches Some(
        p,
    ) ==> p.1 < CUTOFF_DISTANCE_FOR_PAIRS && candidates.len() > 0) by {
        if let Some(p) = partners[k] {
            let c: Candidate = Candidate { distance: p.1, added: k as usize, removed: p.0 };
            lemma_lookup(candidates, c);
            assert(lookup(candidates, c) is Some);
            let i: int = choose|i: int|
                0 <= i < candidates.len() && #[trigger] candidates[i] == (c, ());
            assert(candidates[i].0.distance < CUTOFF_DISTANCE_FOR_PAIRS);
        }
    }
}

} // verus!
