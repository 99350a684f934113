//! What a comparison finds: the recursion over two values, stated as a function
//! of them, of the options, and of what is remembered so far.

use vstd::prelude::*;

#[allow(unused_imports)]
use super::depth::{entry_heights, height, heights, lemma_child_height, lemma_heights};
#[allow(unused_imports)]
use super::equality::same_number;
#[allow(unused_imports)]
use super::lists::{
    added_tail, item_path, items_failure, lcs_outcome, removed_tail,
};
#[allow(unused_imports)]
use super::options::Rules;
#[allow(unused_imports)]
use super::scalar::{
    datetime_outcome, numeric_outcome, oversized, room, same_class, scalar_outcome, too_deep,
    type_change_outcome, Outcome,
};
#[allow(unused_imports)]
use super::set::set_outcome;
#[allow(unused_imports)]
use crate::count::capped;
#[allow(unused_imports)]
use crate::datetime::same_time;
#[allow(unused_imports)]
use crate::float_math::{float_of_int, float_quotient};
#[allow(unused_imports)]
use crate::ignore_order::candidates::{
    partners_of, unpaired, Candidate, Partners, Ranking, CUTOFF_DISTANCE_FOR_PAIRS,
    CUTOFF_INTERSECTION_FOR_PAIRS,
};
#[allow(unused_imports)]
use crate::ignore_order::coerce::type_change_leaves;
#[allow(unused_imports)]
use crate::ignore_order::dict_keys::{has_other_keys, low_overlap, partner};
#[allow(unused_imports)]
use crate::ignore_order::hash::{hashed, lacking, HashedVal};
#[allow(unused_imports)]
use crate::ignore_order::length::{entry_leaves, leaves, nodes};
#[allow(unused_imports)]
use crate::ignore_order::members::set_changes;
#[allow(unused_imports)]
use crate::ignore_order::memo::{
    container, known, with_distance, with_held, MemoVal,
};
#[allow(unused_imports)]
use crate::ignore_order::numeric::{measures, number_distance};
#[allow(unused_imports)]
use crate::ignore_order::resolver::{
    chains_end, lemma_nearer, lemma_opens_bound, lemma_opens_item, opens, opens_all, standing,
};
#[allow(unused_imports)]
use crate::order::lookup;
#[allow(unused_imports)]
use crate::path::{entry_seg, key_seg, Seg};
#[allow(unused_imports)]
use crate::report::{
    finding_leaves, findings_count, merged, mutual_merged, nothing, retagged, with_attribute_added,
    with_attribute_removed, with_dict_added, with_dict_removed, with_item_added, with_item_removed,
    with_value_change, Findings, ValueChange,
};
#[allow(unused_imports)]
use crate::scalar_key::basic;
#[allow(unused_imports)]
use crate::value::{KeyVal, ObjectKind, ObjectVal, Val};
#[allow(unused_imports)]
use crate::walk::{children, lemma_member, total, weight};

verus! {

// ---------------------------------------------------------------------
// What bounds the recursion
// ---------------------------------------------------------------------

/// The depths that are left for a comparison at a depth, its own counted.
pub open spec fn budget(depth: int, max_depth: int) -> int {
    if depth > max_depth {
        0
    } else {
        max_depth + 1 - depth
    }
}

/// The depths that are left for a trial at a depth: one at least.
pub open spec fn reserve(depth: int, max_depth: int) -> int {
    room(depth, max_depth) + 1
}

/// The depth below a depth; depths beyond the limit are all one.
pub open spec fn below(depth: int, max_depth: int) -> int {
    if depth > max_depth {
        depth
    } else {
        depth + 1
    }
}

/// Whether a value is a token.
pub open spec fn token(value: Val) -> bool {
    value matches Val::Object(object) && (object.kind == ObjectKind::Opaque || object.kind
        == ObjectKind::Cycle)
}

/// Whether the chains of tokens from a value on the first side end.
pub open spec fn first_ends(opts: Rules, a: Val) -> bool {
    chains_end(opts.resolutions, true, opts.ignore_order, a)
}

/// Whether the chains of tokens from a value on the second side end.
pub open spec fn second_ends(opts: Rules, b: Val) -> bool {
    chains_end(opts.resolutions, false, opts.ignore_order, b)
}

/// How many tokens a value on one side opens, of as many as there are values for them.
pub open spec fn opened(opts: Rules, first: bool, unordered: bool, value: Val) -> int {
    opens(opts.resolutions, first, unordered, opts.resolutions.len(), value) as int
}

/// More than any value opens.
pub open spec fn ridge(opts: Rules) -> int {
    opts.resolutions.len() as int + 1
}

/// How many tokens may still be opened one behind the other: on the first side where its
/// chains end, or else on the second.
pub open spec fn links(opts: Rules, a: Val, b: Val) -> int {
    if first_ends(opts, a) {
        opened(opts, true, opts.ignore_order, a)
    } else if second_ends(opts, b) {
        ridge(opts) + opened(opts, false, opts.ignore_order, b)
    } else {
        2 * ridge(opts)
    }
}

/// The side of a pair by which its comparison is bounded.
pub open spec fn pivot(opts: Rules, a: Val, b: Val) -> Val {
    if !first_ends(opts, a) && second_ends(opts, b) {
        b
    } else {
        a
    }
}

/// How many tokens the items of two lists may still open one behind the other at the
/// lists' depth.
pub open spec fn list_links(opts: Rules, x: Seq<Val>, y: Seq<Val>) -> int {
    links(opts, Val::Array(x), Val::Array(y))
}

/// The list of two by which their comparison is bounded.
pub open spec fn pivot_items(opts: Rules, x: Seq<Val>, y: Seq<Val>) -> Seq<Val> {
    if !first_ends(opts, Val::Array(x)) && second_ends(opts, Val::Array(y)) {
        y
    } else {
        x
    }
}

/// How many tokens the other side leads through one behind the other where each stands
/// for the next.
pub open spec fn ends(opts: Rules, a: Val, b: Val) -> int {
    if first_ends(opts, a) {
        opened(opts, false, false, b)
    } else {
        opened(opts, true, false, a)
    }
}

/// More than any pair has links.
pub open spec fn crest(opts: Rules) -> int {
    2 * ridge(opts) + 1
}

/// What bounds the measuring of a value of a height: a value that holds nothing
/// opens nothing.
pub open spec fn slope(opts: Rules, height: nat) -> int {
    if height == 0 {
        0
    } else {
        crest(opts)
    }
}

/// What bounds the measuring of a distance at a depth.
pub open spec fn rough_slope(opts: Rules, a: Val, depth: int) -> int {
    if room(depth, opts.max_depth as int) >= 1 {
        0
    } else {
        slope(opts, height(a))
    }
}

/// What bounds the pairing of a list's items at a depth.
pub open spec fn pair_slope(opts: Rules, old: Seq<Val>, depth: int) -> int {
    if room(depth, opts.max_depth as int) >= 1 || heights(old) <= 1 {
        0
    } else {
        crest(opts)
    }
}

/// No pair has more links than the crest.
pub proof fn lemma_links(opts: Rules, a: Val, b: Val)
    ensures
        0 <= links(opts, a, b) < crest(opts),
{
    let len: nat = opts.resolutions.len();
    lemma_opens_bound(opts.resolutions, true, opts.ignore_order, len, a);
    lemma_opens_bound(opts.resolutions, false, opts.ignore_order, len, b);
}

/// What bounds the comparison of two lists without order.
pub open spec fn paired_links(opts: Rules, x: Seq<Val>, y: Seq<Val>) -> int {
    if opts.ignore_order {
        list_links(opts, x, y)
    } else {
        crest(opts)
    }
}

/// What bounds the comparison of two lists without order bounds that of their items.
pub proof fn lemma_paired_links(opts: Rules, x: Seq<Val>, y: Seq<Val>, i: int, j: int)
    requires
        0 <= i < x.len(),
        0 <= j < y.len(),
    ensures
        links(opts, x[i], y[j]) < paired_links(opts, x, y) || {
            &&& links(opts, x[i], y[j]) == paired_links(opts, x, y)
            &&& decreases_to!(pivot_items(opts, x, y) => pivot(opts, x[i], y[j]))
            &&& weight(pivot(opts, x[i], y[j])) <= total(pivot_items(opts, x, y))
        },
{
    let len: nat = opts.resolutions.len();
    let res: Seq<(Seq<char>, Val)> = opts.resolutions;
    lemma_links(opts, x[i], y[j]);
    lemma_opens_bound(res, true, opts.ignore_order, len, x[i]);
    lemma_opens_bound(res, false, opts.ignore_order, len, y[j]);
    lemma_opens_item(res, true, opts.ignore_order, len, x, i);
    lemma_opens_item(res, true, opts.ignore_order, len + 1, x, i);
    lemma_opens_item(res, false, opts.ignore_order, len, y, j);
    lemma_opens_item(res, false, opts.ignore_order, len + 1, y, j);
    lemma_member(x, i);
    lemma_member(y, j);
}

/// Two lists or tuples are bounded as their items are.
pub proof fn lemma_list_pivot(opts: Rules, a: Val, b: Val)
    requires
        (a is Array && b is Array) || (a is Tuple && b is Tuple),
    ensures
        links(opts, a, b) == list_links(opts, children(a), children(b)),
        decreases_to!(pivot(opts, a, b) => pivot_items(opts, children(a), children(b))),
        weight(pivot(opts, a, b)) == 1 + total(pivot_items(opts, children(a), children(b))),
{
}

/// The options of a comparison in which tokens stay tokens.
pub open spec fn tokens_kept(opts: Rules) -> Rules {
    Rules { resolutions: seq![], ..opts }
}

/// What bounds the measuring of a list bounds its comparison.
pub proof fn lemma_list_slope(opts: Rules, x: Seq<Val>, y: Seq<Val>)
    ensures
        0 <= list_links(opts, x, y) < slope(opts, heights(x)) || (list_links(opts, x, y) == slope(
            opts,
            heights(x),
        ) && pivot_items(opts, x, y) == x),
{
    lemma_links(opts, Val::Array(x), Val::Array(y));
    if x.len() > 0 {
        assert(heights(x) > 0);
    } else {
        let len: nat = opts.resolutions.len();
        assert(opens_all(opts.resolutions, true, opts.ignore_order, len, x) == 0);
        assert(opens_all(opts.resolutions, true, opts.ignore_order, len + 1, x) == 0);
    }
}

/// What bounds the pairing of items bounds the measuring of each.
pub proof fn lemma_item_slope(opts: Rules, old: Seq<Val>, depth: int, i: int)
    requires
        0 <= i < old.len(),
    ensures
        rough_slope(opts, old[i], depth) <= pair_slope(opts, old, depth),
{
    lemma_child_height(Val::Array(old), i);
}

/// Items that nest no deeper than the limit are paired within the bounds of the
/// list.
pub proof fn lemma_pair_slope(path: Seq<Seg>, opts: Rules, x: Seq<Val>, y: Seq<Val>, depth: int)
    requires
        items_failure(path, x, 0, depth, opts.max_depth as int) is None,
    ensures
        0 <= pair_slope(opts, x, depth) < paired_links(opts, x, y) || (pair_slope(opts, x, depth)
            == paired_links(opts, x, y) && pivot_items(opts, x, y) == x),
{
    lemma_links(opts, Val::Array(x), Val::Array(y));
    if room(depth, opts.max_depth as int) < 1 {
        lemma_flat(path, x, depth, opts.max_depth as int);
    }
}

/// Without room below a list its items hold nothing.
proof fn lemma_flat(path: Seq<Seg>, x: Seq<Val>, depth: int, limit: int)
    requires
        room(depth, limit) < 1,
        items_failure(path, x, 0, depth, limit) is None,
    ensures
        heights(x) <= 1,
{
    assert forall|i: int| 0 <= i < x.len() implies height(#[trigger] x[i]) == 0 by {
        lemma_no_failure(path, x, 0, i, depth, limit);
    }
    lemma_heights(x, 1);
}

proof fn lemma_no_failure(path: Seq<Seg>, x: Seq<Val>, from: int, i: int, depth: int, limit: int)
    requires
        0 <= from <= i < x.len(),
        items_failure(path, x, from, depth, limit) is None,
    ensures
        !oversized(x[i], depth + 1, limit),
    decreases i - from,
{
    if from < i {
        lemma_no_failure(path, x, from + 1, i, depth, limit);
    }
}

/// What a step over tokens leads to is nearer to the end of their chains.
pub proof fn lemma_resolve_nearer(opts: Rules, a: Val, b: Val)
    ensures
        object_step(opts, a, b) matches Step::Resolve(x, y) ==> 0 <= links(opts, x, y) < links(
            opts,
            a,
            b,
        ) || (links(opts, x, y) == links(opts, a, b) && pivot(opts, x, y) == pivot(opts, a, b) && 0
            <= ends(opts, x, y) < ends(opts, a, b)),
{
    if let Step::Resolve(x, y) = object_step(opts, a, b) {
        lemma_links(opts, x, y);
        lemma_opens_bound(opts.resolutions, true, opts.ignore_order, opts.resolutions.len(), x);
    }
    if let Val::Object(p) = a {
        if token(a) && p.kind == ObjectKind::Opaque {
            lemma_nearer(opts.resolutions, true, opts.ignore_order, p);
            lemma_nearer(opts.resolutions, true, false, p);
        }
    }
    if let Val::Object(q) = b {
        if token(b) {
            lemma_nearer(opts.resolutions, false, opts.ignore_order, q);
            lemma_nearer(opts.resolutions, false, false, q);
        }
    }
}

// ---------------------------------------------------------------------
// Objects
// ---------------------------------------------------------------------

/// What is to be done with a pair of which one at least is an object.
pub enum Step {
    /// Nothing: the two are one object, or the first points back at what
    /// encloses it.
    Skip,
    /// Compare these two in their place.
    Resolve(Val, Val),
    /// Compare them entry by entry.
    Walk(ObjectVal, ObjectVal),
    /// Report these two as different.
    Change(Val, Val),
    /// Report them as of different types.
    TypeChange,
}

/// Whether two objects, not both of them dicts, are one and the same.
pub open spec fn same_instance(x: ObjectVal, y: ObjectVal) -> bool {
    &&& x.kind != ObjectKind::Dict || y.kind != ObjectKind::Dict
    &&& x.identity.len() > 0
    &&& x.identity == y.identity
}

/// Whether a pair reports nothing without a walk.
pub open spec fn skips(a: Val, b: Val) -> bool {
    match (a, b) {
        (Val::Object(x), Val::Object(y)) => same_instance(x, y) || x.kind == ObjectKind::Cycle,
        (Val::Object(x), _) => x.kind == ObjectKind::Cycle,
        _ => false,
    }
}

/// The value that is compared with `other` in place of a token on one side, if the
/// tokens that stand for one another come to an end: a cycle token stands for what it
/// points back at only against a value of its class, unless it may stand for it against
/// any.
pub open spec fn resolved(
    resolutions: Seq<(Seq<char>, Val)>,
    first: bool,
    value: Val,
    other: Val,
    any_other: bool,
) -> Option<Val> {
    match value {
        Val::Object(object) => if !token(value) {
            None
        } else {
            match standing(resolutions, first, object.identity) {
                Some(r) => if object.kind == ObjectKind::Cycle && !any_other && !same_class(
                    r,
                    other,
                ) {
                    None
                } else {
                    Some(r)
                },
                None => None,
            }
        },
        _ => None,
    }
}

/// The value, or what takes its place.
pub open spec fn in_place(replacement: Option<Val>, value: Val) -> Val {
    match replacement {
        Some(v) => v,
        None => value,
    }
}

/// What is reported of an object whose conversion failed.
pub open spec fn failure_token(object: ObjectVal) -> Val {
    if object.kind == ObjectKind::Failed {
        Val::Object(ObjectVal { kind: ObjectKind::Opaque, entries: seq![], ..object })
    } else {
        Val::Object(object)
    }
}

/// What is to be done with a pair of which one at least is an object; tokens are left
/// as they are where the comparison would not come to an end.
pub open spec fn object_step(opts: Rules, a: Val, b: Val) -> Step {
    let x = resolved(opts.resolutions, true, a, b, false);
    let y = resolved(opts.resolutions, false, b, in_place(x, a), false);
    if skips(a, b) {
        Step::Skip
    } else if (first_ends(opts, a) || second_ends(opts, b)) && (x is Some || y is Some) {
        Step::Resolve(in_place(x, a), in_place(y, b))
    } else {
        match (a, b) {
            (Val::Object(p), Val::Object(q)) => if !same_class(a, b) {
                Step::TypeChange
            } else if p.kind == ObjectKind::Failed || q.kind == ObjectKind::Failed {
                Step::Change(failure_token(p), failure_token(q))
            } else {
                Step::Walk(p, q)
            },
            _ => Step::TypeChange,
        }
    }
}

/// What is done with values that are no tokens does not depend on what stands for
/// tokens.
pub proof fn lemma_step(opts: Rules, other: Rules, a: Val, b: Val)
    requires
        !token(a),
        !token(b),
    ensures
        object_step(opts, a, b) == object_step(other, a, b),
        !(object_step(opts, a, b) is Resolve),
        object_step(opts, a, b) matches Step::Walk(p, q) ==> a == Val::Object(p) && b
            == Val::Object(q),
{
}

/// An entry that is gone.
pub open spec fn with_removed(f: Findings, kind: ObjectKind, path: Seq<Seg>, value: Val) -> Findings {
    if kind == ObjectKind::Dict {
        with_dict_removed(f, path, value)
    } else {
        with_attribute_removed(f, path, value)
    }
}

/// An entry that is new.
pub open spec fn with_added(f: Findings, kind: ObjectKind, path: Seq<Seg>, value: Val) -> Findings {
    if kind == ObjectKind::Dict {
        with_dict_added(f, path, value)
    } else {
        with_attribute_added(f, path, value)
    }
}

/// Two objects with few keys in common, reported as a whole.
pub open spec fn collapsed(path: Seq<Seg>, p: ObjectVal, q: ObjectVal, depth: int, max_depth: int) -> Outcome {
    if oversized(Val::Object(p), depth, max_depth) || oversized(Val::Object(q), depth, max_depth) {
        Err(too_deep(path, max_depth))
    } else {
        Ok(
            with_value_change(
                nothing(),
                path,
                ValueChange {
                    old_value: Val::Object(p),
                    new_value: Val::Object(q),
                    new_path: None,
                    diff: None,
                },
            ),
        )
    }
}

/// The entries of `q` from the `i`th on that `p` has no entry for, as new.
pub open spec fn new_entries(
    f: Findings,
    path: Seq<Seg>,
    p: ObjectVal,
    q: ObjectVal,
    i: int,
    depth: int,
    max_depth: int,
) -> Outcome
    decreases q.entries.len() - i,
{
    if i < 0 || i >= q.entries.len() {
        Ok(f)
    } else {
        let (key, value) = q.entries[i];
        let at = path.push(entry_seg(p.kind, key));
        if lookup(p.entries, key) is Some {
            new_entries(f, path, p, q, i + 1, depth, max_depth)
        } else if oversized(value, depth + 1, max_depth) {
            Err(too_deep(at, max_depth))
        } else {
            new_entries(with_added(f, p.kind, at, value), path, p, q, i + 1, depth, max_depth)
        }
    }
}

/// The entries from the `i`th on whose key has no partner, as removed or as
/// added.
pub open spec fn lone_entries(
    f: Findings,
    path: Seq<Seg>,
    entries: Seq<(KeyVal, Val)>,
    others: Seq<(KeyVal, Val)>,
    i: int,
    added: bool,
    depth: int,
    max_depth: int,
) -> Outcome
    decreases entries.len() - i,
{
    if i < 0 || i >= entries.len() {
        Ok(f)
    } else {
        let (key, value) = entries[i];
        let at = path.push(key_seg(key));
        if partner(others, key) is Some {
            lone_entries(f, path, entries, others, i + 1, added, depth, max_depth)
        } else if oversized(value, depth + 1, max_depth) {
            Err(too_deep(at, max_depth))
        } else {
            let g = if added {
                with_dict_added(f, at, value)
            } else {
                with_dict_removed(f, at, value)
            };
            lone_entries(g, path, entries, others, i + 1, added, depth, max_depth)
        }
    }
}

/// Both sides' entries without a partner.
pub open spec fn lone_outcome(
    f: Findings,
    path: Seq<Seg>,
    p: ObjectVal,
    q: ObjectVal,
    depth: int,
    max_depth: int,
) -> Outcome {
    match lone_entries(f, path, p.entries, q.entries, 0, false, depth, max_depth) {
        Err(e) => Err(e),
        Ok(g) => lone_entries(g, path, q.entries, p.entries, 0, true, depth, max_depth),
    }
}

// ---------------------------------------------------------------------
// Lists without order
// ---------------------------------------------------------------------

/// Whether few enough of the keys of two lists differ for their items to be
/// paired.
pub open spec fn pairable(added: nat, removed: nat, first: nat, second: nat) -> bool {
    10 * (added + removed) <= CUTOFF_INTERSECTION_FOR_PAIRS * (first + second + 1)
}

/// The items at the first `count` places, numbered where their distances are
/// remembered.
pub open spec fn held_items(
    m: MemoVal,
    items: Seq<Val>,
    list: HashedVal,
    places: Seq<usize>,
    count: int,
) -> (MemoVal, Seq<Option<usize>>)
    decreases count,
{
    if count <= 0 {
        (m, seq![])
    } else {
        let (n, numbers) = held_items(m, items, list, places, count - 1);
        let place = places[count - 1] as int;
        if container(n, list.keys[place]) {
            let (n, number) = with_held(n, list.keys[place], items[list.firsts[place] as int]);
            (n, numbers.push(Some(number)))
        } else {
            (n, numbers.push(None))
        }
    }
}

/// Whether a removed item is some added item's partner.
pub open spec fn consumed(partners: Partners, r: usize) -> bool {
    exists|k: int|
        0 <= k < partners.len() && ((#[trigger] partners[k]) matches Some(p) && p.0 == r)
}

/// The removed items from the `r`th on that are no item's partner, as removed.
pub open spec fn leftover(
    f: Findings,
    path: Seq<Seg>,
    items: Seq<Val>,
    list: HashedVal,
    removed: Seq<usize>,
    partners: Partners,
    r: int,
) -> Findings
    decreases removed.len() - r,
{
    if r < 0 || r >= removed.len() {
        f
    } else {
        let i = list.firsts[removed[r] as int] as int;
        let g = if consumed(partners, r as usize) {
            f
        } else {
            with_item_removed(f, item_path(path, i), items[i])
        };
        leftover(g, path, items, list, removed, partners, r + 1)
    }
}

/// Two unordered lists and what each lacks of the other.
pub struct Lists {
    pub old: Seq<Val>,
    pub new: Seq<Val>,
    pub first: HashedVal,
    pub second: HashedVal,
    /// The places of the keys that only the second list has.
    pub added: Seq<usize>,
    /// The places of the keys that only the first list has.
    pub removed: Seq<usize>,
}

/// Two lists with the keys of their items.
pub open spec fn lists_of(m: MemoVal, x: Seq<Val>, y: Seq<Val>) -> (MemoVal, Lists) {
    let (n, first) = hashed(m, x, x.len() as int);
    let (n, second) = hashed(n, y, y.len() as int);
    (
        n,
        Lists {
            old: x,
            new: y,
            first,
            second,
            added: lacking(second, first, second.keys.len() as int),
            removed: lacking(first, second, first.keys.len() as int),
        },
    )
}

/// The position of the `r`th removed item.
pub open spec fn removed_at(lists: Lists, r: int) -> int {
    lists.first.firsts[lists.removed[r] as int] as int
}

/// The position of the `k`th added item.
pub open spec fn added_at(lists: Lists, k: int) -> int {
    lists.second.firsts[lists.added[k] as int] as int
}

// ---------------------------------------------------------------------
// The recursion
// ---------------------------------------------------------------------

/// What the comparison of two values at a path and a depth finds.
pub open spec fn diff_of(
    m: MemoVal,
    path: Seq<Seg>,
    a: Val,
    b: Val,
    depth: int,
    opts: Rules,
) -> (MemoVal, Outcome)
    decreases
            budget(depth, opts.max_depth as int),
            links(opts, a, b),
            pivot(opts, a, b),
            9int,
            ends(opts, a, b),
            0int,
{
    let max_depth = opts.max_depth as int;
    if depth > max_depth {
        (m, Err(too_deep(path, max_depth)))
    } else {
        match (a, b) {
            (Val::Null, Val::Null) => (m, Ok(nothing())),
            (Val::Bool(x), Val::Bool(y)) => (
                m,
                scalar_outcome(path, x == y, a, b, depth, max_depth),
            ),
            (Val::Number(x), Val::Number(y)) => (
                m,
                numeric_outcome(path, x, y, depth, max_depth),
            ),
            (Val::Str(x), Val::Str(y)) => (
                m,
                scalar_outcome(path, x == y, a, b, depth, max_depth),
            ),
            (Val::DateTime(x), Val::DateTime(y)) => (
                m,
                datetime_outcome(path, x, y, depth, max_depth),
            ),
            (Val::Date(x), Val::Date(y)) => (
                m,
                scalar_outcome(path, x == y, a, b, depth, max_depth),
            ),
            (Val::Time(x), Val::Time(y)) => (
                m,
                scalar_outcome(path, same_time(x, y), a, b, depth, max_depth),
            ),
            (Val::TimeDelta(x), Val::TimeDelta(y)) => (
                m,
                scalar_outcome(path, x == y, a, b, depth, max_depth),
            ),
            (Val::Array(x), Val::Array(y)) => {
                proof {
                    lemma_list_pivot(opts, a, b);
                }
                array_of(m, path, x, y, depth, opts)
            },
            (Val::Tuple(x), Val::Tuple(y)) => {
                proof {
                    lemma_list_pivot(opts, a, b);
                }
                array_of(m, path, x, y, depth, opts)
            },
            (Val::MutableSet(x), Val::MutableSet(y)) => set_outcome(
                m,
                path,
                x,
                y,
                depth,
                max_depth,
            ),
            (Val::FrozenSet(x), Val::FrozenSet(y)) => set_outcome(
                m,
                path,
                x,
                y,
                depth,
                max_depth,
            ),
            _ => if !(a is Object || b is Object) {
                (m, type_change_outcome(path, a, b, depth, max_depth))
            } else {
                proof {
                    lemma_resolve_nearer(opts, a, b);
                }
                match object_step(opts, a, b) {
                    Step::Skip => (m, Ok(nothing())),
                    Step::Resolve(x, y) => diff_of(m, path, x, y, depth, opts),
                    Step::Walk(p, q) => object_of(m, path, p, q, depth, opts),
                    Step::Change(x, y) => (
                        m,
                        scalar_outcome(path, false, x, y, depth, max_depth),
                    ),
                    Step::TypeChange => (m, type_change_outcome(path, a, b, depth, max_depth)),
                }
            },
        }
    }
}

/// What the comparison of two lists finds: without order where the options say
/// so; else lists of scalars by their longest common parts, unless comparing
/// position by position finds no more; other lists position by position.
pub open spec fn array_of(
    m: MemoVal,
    path: Seq<Seg>,
    x: Seq<Val>,
    y: Seq<Val>,
    depth: int,
    opts: Rules,
) -> (MemoVal, Outcome)
    decreases
            reserve(depth, opts.max_depth as int),
            list_links(opts, x, y),
            pivot_items(opts, x, y),
            7int,
            0int,
            0int,
{
    if opts.ignore_order {
        unordered_of(m, path, x, y, depth, opts)
    } else if all_basic(x) && all_basic(y) {
        smaller_of(m, path, x, y, depth, opts)
    } else {
        positional_of(m, path, x, y, depth, opts, 0, nothing())
    }
}

/// What the comparison of two lists by their longest common parts finds, or
/// position by position where that finds no more.
pub open spec fn smaller_of(
    m: MemoVal,
    path: Seq<Seg>,
    x: Seq<Val>,
    y: Seq<Val>,
    depth: int,
    opts: Rules,
) -> (MemoVal, Outcome)
    decreases
            reserve(depth, opts.max_depth as int),
            list_links(opts, x, y),
            pivot_items(opts, x, y),
            6int,
            0int,
            0int,
{
    match lcs_outcome(path, x, y, depth, opts.max_depth as int) {
        Err(e) => (m, Err(e)),
        Ok(f) => if findings_count(f) <= 1 {
            (m, Ok(f))
        } else {
            let (n, positional) = positional_of(m, path, x, y, depth, opts, 0, nothing());
            match positional {
                Err(e) => (n, Err(e)),
                Ok(g) => if capped(findings_count(f)) >= capped(findings_count(g)) {
                    (n, Ok(g))
                } else {
                    (n, Ok(f))
                },
            }
        },
    }
}

/// Whether every value is a scalar.
pub open spec fn all_basic(items: Seq<Val>) -> bool {
    forall|i: int| 0 <= i < items.len() ==> basic(#[trigger] items[i])
}

/// What the comparison of two lists from position `i` on finds.
pub open spec fn positional_of(
    m: MemoVal,
    path: Seq<Seg>,
    x: Seq<Val>,
    y: Seq<Val>,
    depth: int,
    opts: Rules,
    i: int,
    f: Findings,
) -> (MemoVal, Outcome)
    decreases
            budget(depth + 1, opts.max_depth as int),
            crest(opts),
            x,
            0int,
            x.len() - i,
            0int,
{
    if 0 <= i < x.len() && i < y.len() {
        proof {
            lemma_links(opts, x[i], y[i]);
        }
        let (n, found) = diff_of(m, item_path(path, i), x[i], y[i], depth + 1, opts);
        match found {
            Err(e) => (n, Err(e)),
            Ok(g) => positional_of(n, path, x, y, depth, opts, i + 1, merged(f, g)),
        }
    } else {
        (
            m,
            match removed_tail(f, path, x, i, depth, opts.max_depth as int) {
                Err(e) => Err(e),
                Ok(g) => added_tail(g, path, y, i, depth, opts.max_depth as int),
            },
        )
    }
}

/// What the comparison of two objects finds.
pub open spec fn object_of(
    m: MemoVal,
    path: Seq<Seg>,
    p: ObjectVal,
    q: ObjectVal,
    depth: int,
    opts: Rules,
) -> (MemoVal, Outcome)
    decreases budget(depth + 1, opts.max_depth as int), crest(opts), p, 1int, 0int, 0int,
{
    if low_overlap(p.entries, q.entries) {
        (m, collapsed(path, p, q, depth, opts.max_depth as int))
    } else if has_other_keys(p.entries) || has_other_keys(q.entries) {
        mixed_of(m, path, p, q, depth, opts, 0, nothing())
    } else {
        entries_of(m, path, p, q, depth, opts, 0, nothing())
    }
}

/// What the comparison of two objects from the `i`th entry of the first on
/// finds.
pub open spec fn entries_of(
    m: MemoVal,
    path: Seq<Seg>,
    p: ObjectVal,
    q: ObjectVal,
    depth: int,
    opts: Rules,
    i: int,
    f: Findings,
) -> (MemoVal, Outcome)
    decreases
            budget(depth + 1, opts.max_depth as int),
            crest(opts),
            p,
            0int,
            p.entries.len() - i,
            0int,
{
    if 0 <= i < p.entries.len() {
        let (key, value) = p.entries[i];
        let at = path.push(entry_seg(p.kind, key));
        match lookup(q.entries, key) {
            None => if oversized(value, depth + 1, opts.max_depth as int) {
                (m, Err(too_deep(at, opts.max_depth as int)))
            } else {
                entries_of(
                    m,
                    path,
                    p,
                    q,
                    depth,
                    opts,
                    i + 1,
                    with_removed(f, p.kind, at, value),
                )
            },
            Some(other) => {
                proof {
                    lemma_links(opts, value, other);
                }
                let (n, found) = diff_of(m, at, value, other, depth + 1, opts);
                match found {
                    Err(e) => (n, Err(e)),
                    Ok(g) => entries_of(n, path, p, q, depth, opts, i + 1, merged(f, g)),
                }
            },
        }
    } else {
        (m, new_entries(f, path, p, q, 0, depth, opts.max_depth as int))
    }
}

/// What the comparison of two dicts with keys that are no texts finds, from the
/// `i`th entry of the first on: entries go together where Python calls their
/// keys equal.
pub open spec fn mixed_of(
    m: MemoVal,
    path: Seq<Seg>,
    p: ObjectVal,
    q: ObjectVal,
    depth: int,
    opts: Rules,
    i: int,
    f: Findings,
) -> (MemoVal, Outcome)
    decreases
            budget(depth + 1, opts.max_depth as int),
            crest(opts),
            p,
            0int,
            p.entries.len() - i,
            0int,
{
    if 0 <= i < p.entries.len() {
        match partner(q.entries, p.entries[i].0) {
            None => mixed_of(m, path, p, q, depth, opts, i + 1, f),
            Some(j) => {
                proof {
                    lemma_links(opts, p.entries[i].1, q.entries[j].1);
                }
                let at = path.push(key_seg(q.entries[j].0));
                let (n, found) = diff_of(
                    m,
                    at,
                    p.entries[i].1,
                    q.entries[j].1,
                    depth + 1,
                    opts,
                );
                match found {
                    Err(e) => (n, Err(e)),
                    Ok(g) => mixed_of(n, path, p, q, depth, opts, i + 1, merged(f, g)),
                }
            },
        }
    } else {
        (m, lone_outcome(f, path, p, q, depth, opts.max_depth as int))
    }
}

/// What the comparison of two lists without order finds: the items whose keys
/// one list lacks, the nearest of them paired and compared.
pub open spec fn unordered_of(
    m: MemoVal,
    path: Seq<Seg>,
    x: Seq<Val>,
    y: Seq<Val>,
    depth: int,
    opts: Rules,
) -> (MemoVal, Outcome)
    decreases
            reserve(depth, opts.max_depth as int),
            paired_links(opts, x, y),
            pivot_items(opts, x, y),
            6int,
            0int,
            0int,
{
    let max_depth = opts.max_depth as int;
    match items_failure(path, x, 0, depth, max_depth) {
        Some(e) => (m, Err(e)),
        None => match items_failure(path, y, 0, depth, max_depth) {
            Some(e) => (m, Err(e)),
            None => {
                proof {
                    lemma_pair_slope(path, opts, x, y, depth);
                }
                let (n, lists) = lists_of(m, x, y);
                let (n, partners) = if pairable(
                    lists.added.len(),
                    lists.removed.len(),
                    lists.first.keys.len(),
                    lists.second.keys.len(),
                ) {
                    pairs_of(n, lists, depth, opts)
                } else {
                    (n, unpaired(lists.added.len()))
                };
                pairs_found(n, path, lists, partners, depth, opts, 0, nothing())
            },
        },
    }
}

/// Which removed item each added item goes with.
pub open spec fn pairs_of(m: MemoVal, lists: Lists, depth: int, opts: Rules) -> (
    MemoVal,
    Partners,
)
    decreases
            reserve(depth, opts.max_depth as int),
            pair_slope(opts, lists.old, depth),
            lists.old,
            5int,
            0int,
            0int,
{
    let (n, news) = held_items(
        m,
        lists.new,
        lists.second,
        lists.added,
        lists.added.len() as int,
    );
    let (n, olds) = held_items(
        n,
        lists.old,
        lists.first,
        lists.removed,
        lists.removed.len() as int,
    );
    let (n, candidates) = candidates_of(n, lists, olds, news, depth, opts, 0, 0, seq![]);
    (n, partners_of(candidates, lists.added.len(), lists.removed.len()))
}

/// The pairs near enough to go together, from the `k`th added item and the
/// `r`th removed one on.
pub open spec fn candidates_of(
    m: MemoVal,
    lists: Lists,
    olds: Seq<Option<usize>>,
    news: Seq<Option<usize>>,
    depth: int,
    opts: Rules,
    k: int,
    r: int,
    found: Ranking,
) -> (MemoVal, Ranking)
    decreases
            reserve(depth, opts.max_depth as int),
            pair_slope(opts, lists.old, depth),
            lists.old,
            4int,
            lists.added.len() - k,
            lists.removed.len() - r,
{
    if k < 0 || k >= lists.added.len() {
        (m, found)
    } else if r < 0 || r >= lists.removed.len() {
        candidates_of(m, lists, olds, news, depth, opts, k + 1, 0, found)
    } else {
        let (n, distance) = distance_of(m, lists, olds, news, depth, opts, k, r);
        let more = if distance >= CUTOFF_DISTANCE_FOR_PAIRS {
            found
        } else {
            found.push(
                (Candidate { distance, added: k as usize, removed: r as usize }, ()),
            )
        };
        candidates_of(n, lists, olds, news, depth, opts, k, r + 1, more)
    }
}

/// The distance of the `k`th added item and the `r`th removed one: the one that
/// is remembered, or else the one that is measured, which is then remembered.
pub open spec fn distance_of(
    m: MemoVal,
    lists: Lists,
    olds: Seq<Option<usize>>,
    news: Seq<Option<usize>>,
    depth: int,
    opts: Rules,
    k: int,
    r: int,
) -> (MemoVal, u64)
    decreases
            reserve(depth, opts.max_depth as int),
            pair_slope(opts, lists.old, depth),
            lists.old,
            3int,
            0int,
            0int,
{
    let i = removed_at(lists, r);
    let j = added_at(lists, k);
    if !(0 <= i < lists.old.len()) {
        (m, CUTOFF_DISTANCE_FOR_PAIRS)
    } else {
        proof {
            lemma_item_slope(opts, lists.old, depth, i);
        }
        let numbers = if m.enabled {
            match (olds[r], news[k]) {
                (Some(s), Some(t)) => Some((s, t)),
                _ => None,
            }
        } else {
            None
        };
        match numbers {
            Some((s, t)) => match known(m, s, t) {
                Some(distance) => (m, distance),
                None => {
                    let (n, distance) = rough_of(
                        m,
                        lists.old[i],
                        lists.new[j],
                        CUTOFF_DISTANCE_FOR_PAIRS,
                        depth,
                        opts,
                    );
                    (with_distance(n, s, t, distance), distance)
                },
            },
            None => rough_of(
                m,
                lists.old[i],
                lists.new[j],
                CUTOFF_DISTANCE_FOR_PAIRS,
                depth,
                opts,
            ),
        }
    }
}

/// The distance of two values: that of the numbers by which they are measured,
/// or else the share of their nodes that differ.
pub open spec fn rough_of(
    m: MemoVal,
    a: Val,
    b: Val,
    cutoff: u64,
    depth: int,
    opts: Rules,
) -> (MemoVal, u64)
    decreases
            reserve(depth, opts.max_depth as int),
            rough_slope(opts, a, depth),
            a,
            9int,
            0int,
            0int,
{
    match measures(a, b) {
        Some((x, y)) => (m, number_distance(x, y, cutoff)),
        None => {
            let (n, count) = leaves_between(m, a, b, below(depth, opts.max_depth as int), opts);
            (
                n,
                if count == 0 {
                    0
                } else {
                    float_quotient(
                        float_of_int(capped(count) as int),
                        float_of_int(capped(nodes(a) + nodes(b)) as int),
                    )
                },
            )
        },
    }
}

/// How many leaves differ between two values.
pub open spec fn leaves_between(m: MemoVal, a: Val, b: Val, depth: int, opts: Rules) -> (
    MemoVal,
    nat,
)
    decreases reserve(depth, opts.max_depth as int), slope(opts, height(a)), a, 8int, 0int, 0int,
{
    match (a, b) {
        (Val::Null, Val::Null) => (m, 0),
        (Val::Bool(x), Val::Bool(y)) => (m, one_unless(x == y)),
        (Val::Str(x), Val::Str(y)) => (m, one_unless(x == y)),
        (Val::Number(x), Val::Number(y)) => (
            m,
            if x.is_float() == y.is_float() {
                one_unless(same_number(x, y))
            } else {
                type_change_leaves(a, b)
            },
        ),
        (Val::DateTime(x), Val::DateTime(y)) => (
            m,
            one_unless(x.spec_instant() == y.spec_instant()),
        ),
        (Val::Date(x), Val::Date(y)) => (m, one_unless(x == y)),
        (Val::Time(x), Val::Time(y)) => (m, one_unless(same_time(x, y))),
        (Val::TimeDelta(x), Val::TimeDelta(y)) => (m, one_unless(x == y)),
        (Val::Array(x), Val::Array(y)) => leaves_between_lists(m, x, y, depth, opts),
        (Val::Tuple(x), Val::Tuple(y)) => leaves_between_lists(m, x, y, depth, opts),
        (Val::MutableSet(x), Val::MutableSet(y)) => leaves_between_sets(m, x, y),
        (Val::FrozenSet(x), Val::FrozenSet(y)) => leaves_between_sets(m, x, y),
        (Val::Object(p), Val::Object(q)) => match object_step(tokens_kept(opts), a, b) {
            Step::Skip => (m, 0),
            Step::Change(_, y) => (m, leaves(y)),
            Step::TypeChange => (m, type_change_leaves(a, b)),
            _ => leaves_between_objects(m, p, q, depth, opts),
        },
        _ => (m, type_change_leaves(a, b)),
    }
}

/// Nothing where two leaves are the same.
pub open spec fn one_unless(same: bool) -> nat {
    if same {
        0
    } else {
        1
    }
}

/// The leaves of the values at the positions from the `k`th on.
pub open spec fn leaves_at(items: Seq<Val>, positions: Seq<usize>, k: int) -> nat
    decreases positions.len() - k,
{
    if k < 0 || k >= positions.len() {
        0
    } else {
        leaves(items[positions[k] as int]) + leaves_at(items, positions, k + 1)
    }
}

/// How many leaves differ between two sets.
pub open spec fn leaves_between_sets(m: MemoVal, x: Seq<Val>, y: Seq<Val>) -> (MemoVal, nat) {
    let (n, removed, added) = set_changes(m, x, y);
    (n, leaves_at(x, removed, 0) + leaves_at(y, added, 0))
}

/// How many leaves differ between two lists: those of what comparing them
/// finds, none where that goes too deep.
pub open spec fn leaves_between_lists(
    m: MemoVal,
    x: Seq<Val>,
    y: Seq<Val>,
    depth: int,
    opts: Rules,
) -> (MemoVal, nat)
    decreases reserve(depth, opts.max_depth as int), slope(opts, heights(x)), x, 8int, 0int, 0int,
{
    let trial = Rules { max_depth: room(depth, opts.max_depth as int) as usize, ..opts };
    proof {
        lemma_list_slope(opts, x, y);
    }
    let (n, found) = array_of(m, seq![], x, y, 0, trial);
    (
        n,
        match found {
            Err(_) => 0,
            Ok(f) => finding_leaves(mutual_merged(f)),
        },
    )
}

/// How many leaves differ between two objects.
pub open spec fn leaves_between_objects(
    m: MemoVal,
    p: ObjectVal,
    q: ObjectVal,
    depth: int,
    opts: Rules,
) -> (MemoVal, nat)
    decreases
            reserve(depth, opts.max_depth as int),
            slope(opts, height(Val::Object(p))),
            p,
            7int,
            0int,
            0int,
{
    if low_overlap(p.entries, q.entries) {
        (m, entry_leaves(q.entries))
    } else {
        leaves_between_entries(m, p.entries, q.entries, depth, opts, 0, 0)
    }
}

/// How many leaves differ between two objects, the entries of the first from
/// the `i`th on and `count` leaves before them.
pub open spec fn leaves_between_entries(
    m: MemoVal,
    x: Seq<(KeyVal, Val)>,
    y: Seq<(KeyVal, Val)>,
    depth: int,
    opts: Rules,
    i: int,
    count: nat,
) -> (MemoVal, nat)
    decreases
            reserve(depth, opts.max_depth as int),
            slope(opts, entry_heights(x)),
            x,
            6int,
            x.len() - i,
            0int,
{
    if 0 <= i < x.len() {
        match partner(y, x[i].0) {
            None => leaves_between_entries(
                m,
                x,
                y,
                depth,
                opts,
                i + 1,
                count + leaves(x[i].1),
            ),
            Some(j) => {
                let (n, more) = leaves_between(
                    m,
                    x[i].1,
                    y[j].1,
                    below(depth, opts.max_depth as int),
                    opts,
                );
                leaves_between_entries(n, x, y, depth, opts, i + 1, count + more)
            },
        }
    } else {
        (m, count + lone_leaves(y, x, 0))
    }
}

/// The leaves of the entries from the `i`th on whose key has no partner.
pub open spec fn lone_leaves(entries: Seq<(KeyVal, Val)>, others: Seq<(KeyVal, Val)>, i: int) -> nat
    decreases entries.len() - i,
{
    if i < 0 || i >= entries.len() {
        0
    } else {
        lone_leaves(entries, others, i + 1) + if partner(others, entries[i].0) is Some {
            0
        } else {
            leaves(entries[i].1)
        }
    }
}

/// What comparing the pairs from the `k`th added item on finds, and the items
/// left over.
pub open spec fn pairs_found(
    m: MemoVal,
    path: Seq<Seg>,
    lists: Lists,
    partners: Partners,
    depth: int,
    opts: Rules,
    k: int,
    f: Findings,
) -> (MemoVal, Outcome)
    decreases
            reserve(depth, opts.max_depth as int),
            paired_links(opts, lists.old, lists.new),
            pivot_items(opts, lists.old, lists.new),
            1int,
            lists.added.len() - k,
            0int,
{
    if 0 <= k < lists.added.len() {
        let j = added_at(lists, k);
        let new_value = lists.new[j];
        let old_at = match partners[k] {
            Some(p) => Some(removed_at(lists, p.0 as int)),
            None => None,
        };
        match old_at {
            Some(i) => if !(0 <= i < lists.old.len() && 0 <= j < lists.new.len()) {
                (m, Ok(f))
            } else {
                proof {
                    lemma_paired_links(opts, lists.old, lists.new, i, j);
                }
                let (n, found) = diff_of(
                    m,
                    item_path(path, i),
                    lists.old[i],
                    new_value,
                    depth,
                    opts,
                );
                match found {
                    Err(e) => (n, Err(e)),
                    Ok(g) => {
                        let g = mutual_merged(g);
                        let g = if i != j {
                            retagged(g, path.len() as int, j)
                        } else {
                            g
                        };
                        pairs_found(n, path, lists, partners, depth, opts, k + 1, merged(f, g))
                    },
                }
            },
            None => pairs_found(
                m,
                path,
                lists,
                partners,
                depth,
                opts,
                k + 1,
                with_item_added(f, item_path(path, j), new_value),
            ),
        }
    } else {
        (m, Ok(leftover(f, path, lists.old, lists.first, lists.removed, partners, 0)))
    }
}

} // verus!
