//! Values that nest no deeper than the limit are never too deep to compare.

use vstd::prelude::*;

#[allow(unused_imports)]
use super::depth::{height, lemma_child_height};
#[allow(unused_imports)]
use super::lists::{
    added_tail, code_outcome, code_pairs, codes_outcome, item_path, items_failure, lcs_outcome,
    pair_outcome, pairs_outcome, removed_tail,
};
#[allow(unused_imports)]
use super::model::{
    added_at, array_of, diff_of, entries_of, lists_of, lone_entries, mixed_of, new_entries,
    object_of, object_step, pairs_found, pairs_of, positional_of, removed_at, token, unordered_of,
    with_added, with_removed, Lists, Step,
};
#[allow(unused_imports)]
use super::options::{comparison, Rules};
#[allow(unused_imports)]
use super::scalar::Outcome;
#[allow(unused_imports)]
use super::set::{member_path, members_outcome, set_outcome};
#[allow(unused_imports)]
use crate::ignore_order::candidates::{unpaired, Partners};
#[allow(unused_imports)]
use crate::ignore_order::dict_keys::{has_other_keys, lemma_partner, low_overlap, partner};
#[allow(unused_imports)]
use crate::ignore_order::hash::{hashed, lacking, HashedVal};
#[allow(unused_imports)]
use crate::ignore_order::members::{members_of, reps, set_changes, unmatched};
#[allow(unused_imports)]
use crate::ignore_order::memo::MemoVal;
#[allow(unused_imports)]
use crate::lcs::{lemma_opcodes_cover, lemma_tiles_bounds, opcodes_of, Code, Span};
#[allow(unused_imports)]
use crate::order::{lemma_lookup, lookup};
#[allow(unused_imports)]
use crate::path::{entry_seg, key_seg, Seg};
#[allow(unused_imports)]
use crate::report::{
    merged, mutual_merged, nothing, retagged, with_dict_added, with_dict_removed, with_item_added,
    with_item_removed, with_set_added, with_set_removed, Findings,
};
#[allow(unused_imports)]
use crate::value::{KeyVal, ObjectVal, Val};
#[allow(unused_imports)]
use crate::walk::children;

verus! {

/// Whether a value holds no token, nor is one.
pub open spec fn tokenless(value: Val) -> bool
    decreases value,
{
    match value {
        Val::Array(items) => forall|i: int|
            0 <= i < items.len() ==> tokenless(#[trigger] items[i]),
        Val::Tuple(items) => forall|i: int|
            0 <= i < items.len() ==> tokenless(#[trigger] items[i]),
        Val::Object(object) => !token(value) && forall|i: int|
            #![trigger object.entries[i]]
            0 <= i < object.entries.len() ==> tokenless(object.entries[i].1),
        _ => true,
    }
}

/// Whether a value at a depth nests no deeper than the limit.
pub open spec fn reaches(value: Val, depth: int, limit: int) -> bool {
    depth <= limit && height(value) <= limit - depth
}

/// Whether each of several values at a depth nests no deeper than the limit.
pub open spec fn all_reach(values: Seq<Val>, depth: int, limit: int) -> bool {
    forall|i: int| 0 <= i < values.len() ==> reaches(#[trigger] values[i], depth, limit)
}

/// Whether each of several values holds no token.
pub open spec fn all_tokenless(values: Seq<Val>) -> bool {
    forall|i: int| 0 <= i < values.len() ==> tokenless(#[trigger] values[i])
}

/// Whether nothing failed for its depth: what fails is a datetime whose UTC form
/// is out of range.
pub open spec fn deep_enough(found: Outcome) -> bool {
    found matches Err(e) ==> e is DateTimeOutOfRange
}

/// What a value holds nests one level less.
proof fn lemma_children_reach(value: Val, depth: int, limit: int)
    requires
        reaches(value, depth, limit),
    ensures
        all_reach(children(value), depth + 1, limit),
{
    assert forall|i: int| 0 <= i < children(value).len() implies reaches(
        #[trigger] children(value)[i],
        depth + 1,
        limit,
    ) by {
        lemma_child_height(value, i);
    }
}

/// The values of entries nest one level less than the object.
proof fn lemma_entries_reach(p: ObjectVal, depth: int, limit: int)
    requires
        reaches(Val::Object(p), depth, limit),
        tokenless(Val::Object(p)),
    ensures
        forall|i: int|
            #![trigger p.entries[i]]
            0 <= i < p.entries.len() ==> reaches(p.entries[i].1, depth + 1, limit) && tokenless(
                p.entries[i].1,
            ),
{
    let held: Seq<Val> = children(Val::Object(p));
    lemma_children_reach(Val::Object(p), depth, limit);
    assert forall|i: int| #![trigger p.entries[i]] 0 <= i < p.entries.len() implies reaches(
        p.entries[i].1,
        depth + 1,
        limit,
    ) && tokenless(p.entries[i].1) by {
        assert(held[i] == p.entries[i].1);
    }
}

// ---------------------------------------------------------------------
// Lists of findings
// ---------------------------------------------------------------------

proof fn lemma_pairs_reach(
    f: Findings,
    path: Seq<Seg>,
    a: Seq<Val>,
    b: Seq<Val>,
    i: int,
    j: int,
    k: int,
    count: int,
    depth: int,
    limit: int,
)
    requires
        k >= count || depth + 1 <= limit,
    ensures
        deep_enough(pairs_outcome(f, path, a, b, i, j, k, count, depth, limit)),
    decreases count - k,
{
    if k < count {
        let g: Outcome = pair_outcome(f, path, a, b, i + k, j + k, depth, limit);
        if g is Ok {
            lemma_pairs_reach(g->Ok_0, path, a, b, i, j, k + 1, count, depth, limit);
        }
    }
}

proof fn lemma_codes_reach(
    f: Findings,
    path: Seq<Seg>,
    a: Seq<Val>,
    b: Seq<Val>,
    codes: Seq<Code>,
    k: int,
    depth: int,
    limit: int,
)
    requires
        depth + 1 <= limit || (forall|i: int|
            0 <= i < codes.len() ==> code_pairs(#[trigger] codes[i]) <= 0),
    ensures
        deep_enough(codes_outcome(f, path, a, b, codes, k, depth, limit)),
    decreases codes.len() - k,
{
    if 0 <= k < codes.len() {
        let c: Code = codes[k];
        let g: Outcome = code_outcome(f, path, a, b, c, depth, limit);
        lemma_pairs_reach(f, path, a, b, c.a1, c.b1, 0, code_pairs(c), depth, limit);
        if g is Ok {
            lemma_codes_reach(g->Ok_0, path, a, b, codes, k + 1, depth, limit);
        }
    }
}

/// Lists of scalars are compared by their common parts.
proof fn lemma_lcs_reach(path: Seq<Seg>, x: Seq<Val>, y: Seq<Val>, depth: int, limit: int)
    requires
        all_reach(x, depth + 1, limit),
        all_reach(y, depth + 1, limit),
    ensures
        deep_enough(lcs_outcome(path, x, y, depth, limit)),
{
    let codes: Seq<Code> = opcodes_of(x, y, false);
    if depth + 1 > limit {
        if x.len() > 0 {
            assert(reaches(x[0], depth + 1, limit));
        }
        if y.len() > 0 {
            assert(reaches(y[0], depth + 1, limit));
        }
        lemma_opcodes_cover(x, y, false);
        let w: Span = Span { alo: 0, ahi: x.len() as int, blo: 0, bhi: y.len() as int };
        assert forall|i: int| 0 <= i < codes.len() implies code_pairs(#[trigger] codes[i]) <= 0 by {
            lemma_tiles_bounds(codes, w, i);
        }
    }
    lemma_codes_reach(nothing(), path, x, y, codes, 0, depth, limit);
}

proof fn lemma_removed_tail_reach(
    f: Findings,
    path: Seq<Seg>,
    a: Seq<Val>,
    i: int,
    depth: int,
    limit: int,
)
    requires
        0 <= i,
        all_reach(a, depth + 1, limit),
    ensures
        removed_tail(f, path, a, i, depth, limit) is Ok,
    decreases a.len() - i,
{
    if i < a.len() {
        assert(reaches(a[i], depth + 1, limit));
        let g: Findings = with_item_removed(f, item_path(path, i), a[i]);
        lemma_removed_tail_reach(g, path, a, i + 1, depth, limit);
    }
}

proof fn lemma_added_tail_reach(
    f: Findings,
    path: Seq<Seg>,
    b: Seq<Val>,
    i: int,
    depth: int,
    limit: int,
)
    requires
        0 <= i,
        all_reach(b, depth + 1, limit),
    ensures
        added_tail(f, path, b, i, depth, limit) is Ok,
    decreases b.len() - i,
{
    if i < b.len() {
        assert(reaches(b[i], depth + 1, limit));
        let g: Findings = with_item_added(f, item_path(path, i), b[i]);
        lemma_added_tail_reach(g, path, b, i + 1, depth, limit);
    }
}

proof fn lemma_items_reach(path: Seq<Seg>, items: Seq<Val>, i: int, depth: int, limit: int)
    requires
        0 <= i,
        all_reach(items, depth + 1, limit),
    ensures
        items_failure(path, items, i, depth, limit) is None,
    decreases items.len() - i,
{
    if i < items.len() {
        assert(reaches(items[i], depth + 1, limit));
        lemma_items_reach(path, items, i + 1, depth, limit);
    }
}

/// The positions of members that are not matched are positions of members.
proof fn lemma_unmatched_places(numbers: Seq<usize>, others: Seq<usize>, count: int)
    ensures
        forall|k: int|
            0 <= k < unmatched(numbers, others, count).len() ==> (#[trigger] unmatched(
                numbers,
                others,
                count,
            )[k]) < count,
    decreases count,
{
    if count > 0 {
        lemma_unmatched_places(numbers, others, count - 1);
        let before: Seq<usize> = unmatched(numbers, others, count - 1);
        let after: Seq<usize> = unmatched(numbers, others, count);
        assert forall|k: int| 0 <= k < after.len() implies (#[trigger] after[k]) < count by {
            if k < before.len() {
                assert(after[k] == before[k]);
            }
        }
    }
}

proof fn lemma_members_reach(
    f: Findings,
    path: Seq<Seg>,
    items: Seq<Val>,
    positions: Seq<usize>,
    k: int,
    added: bool,
    depth: int,
    limit: int,
)
    requires
        all_reach(items, depth + 1, limit),
        forall|i: int| 0 <= i < positions.len() ==> (#[trigger] positions[i]) < items.len(),
    ensures
        members_outcome(f, path, items, positions, k, added, depth, limit) is Ok,
    decreases positions.len() - k,
{
    if 0 <= k < positions.len() {
        let item: Val = items[positions[k] as int];
        assert(reaches(item, depth + 1, limit));
        let at: Seq<Seg> = member_path(path, item);
        let g: Findings = if added {
            with_set_added(f, at, item)
        } else {
            with_set_removed(f, at, item)
        };
        lemma_members_reach(g, path, items, positions, k + 1, added, depth, limit);
    }
}

proof fn lemma_set_reach(
    m: MemoVal,
    path: Seq<Seg>,
    a: Seq<Val>,
    b: Seq<Val>,
    depth: int,
    limit: int,
)
    requires
        all_reach(a, depth + 1, limit),
        all_reach(b, depth + 1, limit),
    ensures
        set_outcome(m, path, a, b, depth, limit).1 is Ok,
{
    let (n, x) = members_of(m, a, a.len() as int);
    let (l, y) = members_of(n, b, b.len() as int);
    let p: Seq<usize> = reps(x);
    let q: Seq<usize> = reps(y);
    let (_, removed, added) = set_changes(m, a, b);
    lemma_unmatched_places(p, q, a.len() as int);
    lemma_unmatched_places(q, p, b.len() as int);
    assert(removed == unmatched(p, q, a.len() as int));
    assert(added == unmatched(q, p, b.len() as int));
    let f: Outcome = members_outcome(nothing(), path, a, removed, 0, false, depth, limit);
    lemma_members_reach(nothing(), path, a, removed, 0, false, depth, limit);
    lemma_members_reach(f->Ok_0, path, b, added, 0, true, depth, limit);
}

proof fn lemma_new_entries_reach(
    f: Findings,
    path: Seq<Seg>,
    p: ObjectVal,
    q: ObjectVal,
    i: int,
    depth: int,
    limit: int,
)
    requires
        forall|k: int|
            #![trigger q.entries[k]]
            0 <= k < q.entries.len() ==> reaches(q.entries[k].1, depth + 1, limit),
    ensures
        new_entries(f, path, p, q, i, depth, limit) is Ok,
    decreases q.entries.len() - i,
{
    if 0 <= i < q.entries.len() {
        let (key, value) = q.entries[i];
        let at: Seq<Seg> = path.push(entry_seg(p.kind, key));
        let g: Findings = if lookup(p.entries, key) is Some {
            f
        } else {
            with_added(f, p.kind, at, value)
        };
        lemma_new_entries_reach(g, path, p, q, i + 1, depth, limit);
    }
}

proof fn lemma_lone_reach(
    f: Findings,
    path: Seq<Seg>,
    entries: Seq<(KeyVal, Val)>,
    others: Seq<(KeyVal, Val)>,
    i: int,
    added: bool,
    depth: int,
    limit: int,
)
    requires
        forall|k: int|
            #![trigger entries[k]]
            0 <= k < entries.len() ==> reaches(entries[k].1, depth + 1, limit),
    ensures
        lone_entries(f, path, entries, others, i, added, depth, limit) is Ok,
    decreases entries.len() - i,
{
    if 0 <= i < entries.len() {
        let (key, value) = entries[i];
        let at: Seq<Seg> = path.push(key_seg(key));
        let g: Findings = if partner(others, key) is Some {
            f
        } else if added {
            with_dict_added(f, at, value)
        } else {
            with_dict_removed(f, at, value)
        };
        lemma_lone_reach(g, path, entries, others, i + 1, added, depth, limit);
    }
}

// ---------------------------------------------------------------------
// Places of items
// ---------------------------------------------------------------------

proof fn lemma_lacking_places(list: HashedVal, other: HashedVal, count: int)
    ensures
        forall|k: int|
            0 <= k < lacking(list, other, count).len() ==> (#[trigger] lacking(
                list,
                other,
                count,
            )[k]) < count,
    decreases count,
{
    if count > 0 {
        lemma_lacking_places(list, other, count - 1);
        let before: Seq<usize> = lacking(list, other, count - 1);
        let after: Seq<usize> = lacking(list, other, count);
        assert forall|k: int| 0 <= k < after.len() implies (#[trigger] after[k]) < count by {
            if k < before.len() {
                assert(after[k] == before[k]);
            }
        }
    }
}

proof fn lemma_first_places(m: MemoVal, x: Seq<Val>, count: int)
    ensures
        hashed(m, x, count).1.keys.len() == hashed(m, x, count).1.firsts.len(),
        forall|k: int|
            0 <= k < hashed(m, x, count).1.firsts.len() ==> (#[trigger] hashed(
                m,
                x,
                count,
            ).1.firsts[k]) < count,
    decreases count,
{
    if count > 0 {
        lemma_first_places(m, x, count - 1);
        let before: Seq<usize> = hashed(m, x, count - 1).1.firsts;
        let after: Seq<usize> = hashed(m, x, count).1.firsts;
        assert forall|k: int| 0 <= k < after.len() implies (#[trigger] after[k]) < count by {
            if k < before.len() {
                assert(after[k] == before[k]);
            }
        }
    }
}

/// The position of an added item is one of the second list.
pub proof fn lemma_added_place(m: MemoVal, x: Seq<Val>, y: Seq<Val>, k: int)
    requires
        0 <= k < lists_of(m, x, y).1.added.len(),
    ensures
        0 <= added_at(lists_of(m, x, y).1, k) < y.len(),
{
    let n: MemoVal = hashed(m, x, x.len() as int).0;
    let lists: Lists = lists_of(m, x, y).1;
    lemma_first_places(n, y, y.len() as int);
    lemma_lacking_places(lists.second, lists.first, lists.second.keys.len() as int);
    assert(lists.added[k] < lists.second.keys.len());
}

// ---------------------------------------------------------------------
// The recursion
// ---------------------------------------------------------------------

proof fn lemma_diff_reach(
    m: MemoVal,
    path: Seq<Seg>,
    a: Val,
    b: Val,
    depth: int,
    opts: Rules,
)
    requires
        0 <= depth,
        tokenless(a),
        tokenless(b),
        reaches(a, depth, opts.max_depth as int),
        reaches(b, depth, opts.max_depth as int),
    ensures
        deep_enough(diff_of(m, path, a, b, depth, opts).1),
    decreases a, 9int, 0int, 0int,
{
    let limit: int = opts.max_depth as int;
    lemma_children_reach(a, depth, limit);
    lemma_children_reach(b, depth, limit);
    match (a, b) {
        (Val::Array(x), Val::Array(y)) => lemma_array_reach(m, path, x, y, depth, opts),
        (Val::Tuple(x), Val::Tuple(y)) => lemma_array_reach(m, path, x, y, depth, opts),
        (Val::MutableSet(x), Val::MutableSet(y)) => lemma_set_reach(m, path, x, y, depth, limit),
        (Val::FrozenSet(x), Val::FrozenSet(y)) => lemma_set_reach(m, path, x, y, depth, limit),
        _ => {
            if a is Object || b is Object {
                match object_step(opts, a, b) {
                    Step::Walk(p, q) => {
                        assert(a == Val::Object(p) && b == Val::Object(q));
                        lemma_object_reach(m, path, p, q, depth, opts);
                    },
                    _ => {},
                }
            }
        },
    }
}

proof fn lemma_array_reach(
    m: MemoVal,
    path: Seq<Seg>,
    x: Seq<Val>,
    y: Seq<Val>,
    depth: int,
    opts: Rules,
)
    requires
        0 <= depth <= opts.max_depth,
        all_tokenless(x),
        all_tokenless(y),
        all_reach(x, depth + 1, opts.max_depth as int),
        all_reach(y, depth + 1, opts.max_depth as int),
    ensures
        deep_enough(array_of(m, path, x, y, depth, opts).1),
    decreases x, 7int, 0int, 0int,
{
    if opts.ignore_order {
        lemma_unordered_reach(m, path, x, y, depth, opts);
    } else {
        lemma_lcs_reach(path, x, y, depth, opts.max_depth as int);
        lemma_positional_reach(m, path, x, y, depth, opts, 0, nothing());
    }
}

proof fn lemma_positional_reach(
    m: MemoVal,
    path: Seq<Seg>,
    x: Seq<Val>,
    y: Seq<Val>,
    depth: int,
    opts: Rules,
    i: int,
    f: Findings,
)
    requires
        0 <= depth,
        0 <= i,
        all_tokenless(x),
        all_tokenless(y),
        all_reach(x, depth + 1, opts.max_depth as int),
        all_reach(y, depth + 1, opts.max_depth as int),
    ensures
        deep_enough(positional_of(m, path, x, y, depth, opts, i, f).1),
    decreases x, 0int, x.len() - i, 0int,
{
    let limit: int = opts.max_depth as int;
    if i < x.len() && i < y.len() {
        let at: Seq<Seg> = item_path(path, i);
        let (n, found) = diff_of(m, at, x[i], y[i], depth + 1, opts);
        lemma_diff_reach(m, at, x[i], y[i], depth + 1, opts);
        if found is Ok {
            lemma_positional_reach(
                n,
                path,
                x,
                y,
                depth,
                opts,
                i + 1,
                merged(f, found->Ok_0),
            );
        }
    } else {
        let g: Outcome = removed_tail(f, path, x, i, depth, limit);
        lemma_removed_tail_reach(f, path, x, i, depth, limit);
        lemma_added_tail_reach(g->Ok_0, path, y, i, depth, limit);
    }
}

proof fn lemma_object_reach(
    m: MemoVal,
    path: Seq<Seg>,
    p: ObjectVal,
    q: ObjectVal,
    depth: int,
    opts: Rules,
)
    requires
        0 <= depth,
        tokenless(Val::Object(p)),
        tokenless(Val::Object(q)),
        reaches(Val::Object(p), depth, opts.max_depth as int),
        reaches(Val::Object(q), depth, opts.max_depth as int),
    ensures
        deep_enough(object_of(m, path, p, q, depth, opts).1),
    decreases p, 1int, 0int, 0int,
{
    if !low_overlap(p.entries, q.entries) {
        if has_other_keys(p.entries) || has_other_keys(q.entries) {
            lemma_mixed_reach(m, path, p, q, depth, opts, 0, nothing());
        } else {
            lemma_each_reach(m, path, p, q, depth, opts, 0, nothing());
        }
    }
}

proof fn lemma_each_reach(
    m: MemoVal,
    path: Seq<Seg>,
    p: ObjectVal,
    q: ObjectVal,
    depth: int,
    opts: Rules,
    i: int,
    f: Findings,
)
    requires
        0 <= depth,
        tokenless(Val::Object(p)),
        tokenless(Val::Object(q)),
        reaches(Val::Object(p), depth, opts.max_depth as int),
        reaches(Val::Object(q), depth, opts.max_depth as int),
    ensures
        deep_enough(entries_of(m, path, p, q, depth, opts, i, f).1),
    decreases p, 0int, p.entries.len() - i, 0int,
{
    let limit: int = opts.max_depth as int;
    lemma_entries_reach(p, depth, limit);
    lemma_entries_reach(q, depth, limit);
    if 0 <= i < p.entries.len() {
        let (key, value) = p.entries[i];
        let at: Seq<Seg> = path.push(entry_seg(p.kind, key));
        match lookup(q.entries, key) {
            None => lemma_each_reach(
                m,
                path,
                p,
                q,
                depth,
                opts,
                i + 1,
                with_removed(f, p.kind, at, value),
            ),
            Some(other) => {
                lemma_lookup(q.entries, key);
                let (n, found) = diff_of(m, at, value, other, depth + 1, opts);
                lemma_diff_reach(m, at, value, other, depth + 1, opts);
                if found is Ok {
                    let g: Findings = merged(f, found->Ok_0);
                    lemma_each_reach(n, path, p, q, depth, opts, i + 1, g);
                }
            },
        }
    } else {
        lemma_new_entries_reach(f, path, p, q, 0, depth, limit);
    }
}

proof fn lemma_mixed_reach(
    m: MemoVal,
    path: Seq<Seg>,
    p: ObjectVal,
    q: ObjectVal,
    depth: int,
    opts: Rules,
    i: int,
    f: Findings,
)
    requires
        0 <= depth,
        tokenless(Val::Object(p)),
        tokenless(Val::Object(q)),
        reaches(Val::Object(p), depth, opts.max_depth as int),
        reaches(Val::Object(q), depth, opts.max_depth as int),
    ensures
        deep_enough(mixed_of(m, path, p, q, depth, opts, i, f).1),
    decreases p, 0int, p.entries.len() - i, 0int,
{
    let limit: int = opts.max_depth as int;
    lemma_entries_reach(p, depth, limit);
    lemma_entries_reach(q, depth, limit);
    if 0 <= i < p.entries.len() {
        match partner(q.entries, p.entries[i].0) {
            None => lemma_mixed_reach(m, path, p, q, depth, opts, i + 1, f),
            Some(j) => {
                lemma_partner(q.entries, p.entries[i].0, 0);
                let at: Seq<Seg> = path.push(key_seg(q.entries[j].0));
                let value: Val = p.entries[i].1;
                let other: Val = q.entries[j].1;
                let (n, found) = diff_of(m, at, value, other, depth + 1, opts);
                lemma_diff_reach(m, at, value, other, depth + 1, opts);
                if found is Ok {
                    let g: Findings = merged(f, found->Ok_0);
                    lemma_mixed_reach(n, path, p, q, depth, opts, i + 1, g);
                }
            },
        }
    } else {
        let g: Outcome = lone_entries(f, path, p.entries, q.entries, 0, false, depth, limit);
        lemma_lone_reach(f, path, p.entries, q.entries, 0, false, depth, limit);
        lemma_lone_reach(g->Ok_0, path, q.entries, p.entries, 0, true, depth, limit);
    }
}

proof fn lemma_unordered_reach(
    m: MemoVal,
    path: Seq<Seg>,
    x: Seq<Val>,
    y: Seq<Val>,
    depth: int,
    opts: Rules,
)
    requires
        0 <= depth <= opts.max_depth,
        all_tokenless(x),
        all_tokenless(y),
        all_reach(x, depth + 1, opts.max_depth as int),
        all_reach(y, depth + 1, opts.max_depth as int),
    ensures
        deep_enough(unordered_of(m, path, x, y, depth, opts).1),
    decreases x, 6int, 0int, 0int,
{
    let limit: int = opts.max_depth as int;
    lemma_items_reach(path, x, 0, depth, limit);
    lemma_items_reach(path, y, 0, depth, limit);
    let (n, lists) = lists_of(m, x, y);
    let (l, partners) = pairs_of(n, lists, depth, opts);
    assert forall|k: int| 0 <= k < lists.added.len() implies 0 <= #[trigger] added_at(lists, k)
        < lists.new.len() by {
        lemma_added_place(m, x, y, k);
    }
    lemma_found_reach(l, path, lists, partners, depth, opts, 0, nothing());
    lemma_found_reach(n, path, lists, unpaired(lists.added.len()), depth, opts, 0, nothing());
}

proof fn lemma_found_reach(
    m: MemoVal,
    path: Seq<Seg>,
    lists: Lists,
    partners: Partners,
    depth: int,
    opts: Rules,
    k: int,
    f: Findings,
)
    requires
        0 <= depth <= opts.max_depth,
        all_tokenless(lists.old),
        all_tokenless(lists.new),
        all_reach(lists.old, depth + 1, opts.max_depth as int),
        all_reach(lists.new, depth + 1, opts.max_depth as int),
        forall|r: int|
            0 <= r < lists.added.len() ==> 0 <= #[trigger] added_at(lists, r) < lists.new.len(),
    ensures
        deep_enough(pairs_found(m, path, lists, partners, depth, opts, k, f).1),
    decreases lists.old, 1int, lists.added.len() - k, 0int,
{
    if 0 <= k < lists.added.len() {
        let j: int = added_at(lists, k);
        let b: Val = lists.new[j];
        match partners[k] {
            Some(p) => {
                let i: int = removed_at(lists, p.0 as int);
                if 0 <= i < lists.old.len() {
                    let a: Val = lists.old[i];
                    assert(reaches(a, depth + 1, opts.max_depth as int));
                    assert(reaches(b, depth + 1, opts.max_depth as int));
                    let at: Seq<Seg> = item_path(path, i);
                    let (n, found) = diff_of(m, at, a, b, depth, opts);
                    lemma_diff_reach(m, at, a, b, depth, opts);
                    if found is Ok {
                        let g: Findings = mutual_merged(found->Ok_0);
                        let g: Findings = if i != j {
                            retagged(g, path.len() as int, j)
                        } else {
                            g
                        };
                        let h: Findings = merged(f, g);
                        lemma_found_reach(n, path, lists, partners, depth, opts, k + 1, h);
                    }
                }
            },
            None => {
                let g: Findings = with_item_added(f, item_path(path, j), b);
                lemma_found_reach(m, path, lists, partners, depth, opts, k + 1, g);
            },
        }
    }
}

/// The limit on depth never stops a comparison of values that nest no deeper, in
/// order or without: if they hold no tokens, which stand for other values, all
/// that can fail is a datetime whose UTC form is out of range.
pub proof fn lemma_limit_suffices(m: MemoVal, a: Val, b: Val, opts: Rules)
    requires
        tokenless(a),
        tokenless(b),
        height(a) <= opts.max_depth,
        height(b) <= opts.max_depth,
    ensures
        comparison(m, a, b, opts).1 matches Err(e) ==> e is DateTimeOutOfRange,
{
    lemma_diff_reach(m, seq![], a, b, 0, opts);
}

} // verus!
