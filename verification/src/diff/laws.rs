//! What holds of every comparison.

use vstd::prelude::*;

#[allow(unused_imports)]
use super::depth::{height, heights, lemma_child_height};
#[allow(unused_imports)]
use super::equality::{same_entries, same_key, same_number, same_value, same_values};
#[allow(unused_imports)]
use super::lists::{items_failure, lcs_outcome};
#[allow(unused_imports)]
use super::model::{
    all_basic, array_of, diff_of, entries_of, lone_entries, mixed_of, new_entries, object_of,
    object_step, positional_of, skips, smaller_of, unordered_of, Step,
};
#[allow(unused_imports)]
use super::options::{comparison, Rules};
#[allow(unused_imports)]
use super::scalar::{same_class, Outcome};
#[allow(unused_imports)]
use super::set::set_outcome;
#[allow(unused_imports)]
use crate::count::capped;
#[allow(unused_imports)]
use crate::datetime::same_time;
#[allow(unused_imports)]
use crate::ignore_order::dict_keys::{has_other_keys, low_overlap, partner_from, shared_keys};
#[allow(unused_imports)]
use crate::ignore_order::memo::{fresh, MemoVal};
#[allow(unused_imports)]
use crate::ignore_order::rearranged::{
    alike, lemma_like_items, lemma_same_keys, lemma_same_members, like_one, one_like, tables,
};
#[allow(unused_imports)]
use crate::lcs::{
    class_lists, lemma_opcodes_cover, lemma_replacements_apart, lemma_tiles_bounds, opcodes_of, Code,
    Span, Tag,
};
#[allow(unused_imports)]
use crate::order::{ascending, lemma_lookup_at};
#[allow(unused_imports)]
use crate::path::{entry_seg, key_seg, Seg};
#[allow(unused_imports)]
use crate::python_eq::keys_equal;
#[allow(unused_imports)]
use crate::report::{findings_count, mutual_merged, nothing};
#[allow(unused_imports)]
use crate::scalar_key::{
    basic, lemma_classes, python_scalar, python_scalars, share_key, ScalarVal,
};
#[allow(unused_imports)]
use crate::value::{KeyVal, ObjectKey, ObjectKind, ObjectVal, Val};
#[allow(unused_imports)]
use crate::walk::children;

verus! {

/// The outcome of a comparison that finds nothing.
pub open spec fn silence() -> Outcome {
    Ok(nothing())
}

// ---------------------------------------------------------------------
// Order
// ---------------------------------------------------------------------

/// Whether Python tells the keys of entries apart, and calls each equal to
/// itself.
pub open spec fn told_apart(entries: Seq<(KeyVal, Val)>) -> bool {
    forall|i: int, j: int|
        0 <= i < entries.len() && 0 <= j < entries.len() ==> (#[trigger] keys_equal(
            entries[i].0,
            entries[j].0,
        ) <==> i == j)
}

/// Whether an object is compared by its entries.
pub open spec fn walked(object: ObjectVal) -> bool {
    object.kind == ObjectKind::Dict || object.kind == ObjectKind::CustomObject
}

/// Whether two values differ at most in the order and the repetition of the
/// items of their lists and tuples.
///
/// Left out is what is reported of a value even against itself: a number that is
/// not equal to itself, an object that failed, and a datetime without a UTC form.
pub open spec fn reordered(a: Val, b: Val) -> bool
    decreases a,
{
    match (a, b) {
        (Val::Null, Val::Null) => true,
        (Val::Bool(x), Val::Bool(y)) => x == y,
        (Val::Number(x), Val::Number(y)) => x.is_float() == y.is_float() && same_number(x, y),
        (Val::Str(x), Val::Str(y)) => x == y,
        (Val::DateTime(x), Val::DateTime(y)) => x.spec_to_utc() is Some && x.spec_to_utc()
            == y.spec_to_utc(),
        (Val::Date(x), Val::Date(y)) => x == y,
        (Val::Time(x), Val::Time(y)) => same_time(x, y),
        (Val::TimeDelta(x), Val::TimeDelta(y)) => x == y,
        (Val::Array(x), Val::Array(y)) => alike(Val::Array(x), Val::Array(y)),
        (Val::Tuple(x), Val::Tuple(y)) => alike(Val::Array(x), Val::Array(y)),
        (Val::MutableSet(x), Val::MutableSet(y)) => x == y,
        (Val::FrozenSet(x), Val::FrozenSet(y)) => x == y,
        (Val::Object(p), Val::Object(q)) => skips(a, b) || {
            &&& walked(p)
            &&& same_class(a, b)
            &&& p.kind == q.kind
            &&& ascending::<ObjectKey, Val>(p.entries)
            &&& ascending::<ObjectKey, Val>(q.entries)
            &&& told_apart(p.entries)
            &&& p.entries.len() == q.entries.len()
            &&& forall|i: int|
                #![trigger p.entries[i]]
                0 <= i < p.entries.len() ==> p.entries[i].0 == q.entries[i].0 && reordered(
                    p.entries[i].1,
                    q.entries[i].1,
                )
        },
        _ => false,
    }
}

proof fn lemma_items_fit(path: Seq<Seg>, items: Seq<Val>, i: int, depth: int, max_depth: int)
    requires
        0 <= i <= items.len(),
        0 <= depth <= max_depth,
        heights(items) <= max_depth - depth,
    ensures
        items_failure(path, items, i, depth, max_depth) is None,
    decreases items.len() - i,
{
    if i < items.len() {
        lemma_child_height(Val::Array(items), i);
        lemma_items_fit(path, items, i + 1, depth, max_depth);
    }
}

/// Without order, two lists of like items have nothing between them.
proof fn lemma_unordered(
    m: MemoVal,
    path: Seq<Seg>,
    x: Seq<Val>,
    y: Seq<Val>,
    depth: int,
    opts: Rules,
)
    requires
        tables(m),
        alike(Val::Array(x), Val::Array(y)),
        0 <= depth <= opts.max_depth,
        heights(x) <= opts.max_depth - depth,
        heights(y) <= opts.max_depth - depth,
    ensures
        tables(unordered_of(m, path, x, y, depth, opts).0),
        unordered_of(m, path, x, y, depth, opts).1 == silence(),
{
    lemma_items_fit(path, x, 0, depth, opts.max_depth as int);
    lemma_items_fit(path, y, 0, depth, opts.max_depth as int);
    lemma_same_keys(m, x, y);
    let (n, lists) = super::model::lists_of(m, x, y);
    assert(lists.added.len() == 0);
    assert(lists.removed.len() == 0);
    let (l, partners) = super::model::pairs_of(n, lists, depth, opts);
    assert(l == n);
}

/// Whether two objects have the same keys.
spec fn same_keys(p: Seq<(KeyVal, Val)>, q: Seq<(KeyVal, Val)>) -> bool {
    &&& p.len() == q.len()
    &&& forall|i: int| #![trigger p[i]] 0 <= i < p.len() ==> p[i].0 == q[i].0
}

/// A key that Python tells apart from the others is its own partner.
proof fn lemma_own_partner(p: Seq<(KeyVal, Val)>, q: Seq<(KeyVal, Val)>, i: int, k: int)
    requires
        told_apart(p),
        same_keys(p, q),
        0 <= k <= i < p.len(),
    ensures
        partner_from(q, p[i].0, k) == Some(i),
        partner_from(p, q[i].0, k) == Some(i),
    decreases i - k,
{
    assert(p[i].0 == q[i].0);
    assert(p[k].0 == q[k].0);
    assert(keys_equal(p[i].0, p[k].0) <==> i == k);
    if k < i {
        lemma_own_partner(p, q, i, k + 1);
    }
}

proof fn lemma_all_shared(p: Seq<(KeyVal, Val)>, q: Seq<(KeyVal, Val)>, count: int)
    requires
        0 <= count <= p.len(),
        told_apart(p),
        same_keys(p, q),
    ensures
        shared_keys(p, q, count) == count,
    decreases count,
{
    if count > 0 {
        lemma_all_shared(p, q, count - 1);
        lemma_own_partner(p, q, count - 1, 0);
    }
}

proof fn lemma_no_lone_entries(
    path: Seq<Seg>,
    p: Seq<(KeyVal, Val)>,
    q: Seq<(KeyVal, Val)>,
    i: int,
    added: bool,
    depth: int,
    max_depth: int,
)
    requires
        told_apart(p),
        same_keys(p, q),
        0 <= i <= p.len(),
    ensures
        lone_entries(nothing(), path, p, q, i, added, depth, max_depth) == silence(),
        lone_entries(nothing(), path, q, p, i, added, depth, max_depth) == silence(),
    decreases p.len() - i,
{
    if i < p.len() {
        lemma_own_partner(p, q, i, 0);
        lemma_no_lone_entries(path, p, q, i + 1, added, depth, max_depth);
    }
}

proof fn lemma_no_new_entries(
    path: Seq<Seg>,
    p: ObjectVal,
    q: ObjectVal,
    i: int,
    depth: int,
    max_depth: int,
)
    requires
        0 <= i <= q.entries.len(),
        ascending::<ObjectKey, Val>(p.entries),
        same_keys(p.entries, q.entries),
    ensures
        new_entries(nothing(), path, p, q, i, depth, max_depth) == silence(),
    decreases q.entries.len() - i,
{
    if i < q.entries.len() {
        lemma_lookup_at::<ObjectKey, Val>(p.entries, i);
        assert(p.entries[i].0 == q.entries[i].0);
        lemma_no_new_entries(path, p, q, i + 1, depth, max_depth);
    }
}

proof fn lemma_set_silent(
    m: MemoVal,
    path: Seq<Seg>,
    items: Seq<Val>,
    depth: int,
    max_depth: int,
)
    requires
        tables(m),
    ensures
        tables(set_outcome(m, path, items, items, depth, max_depth).0),
        set_outcome(m, path, items, items, depth, max_depth).1 == silence(),
{
    lemma_same_members(m, items);
}

/// Where order is ignored, nothing is found between values that differ in it
/// alone.
proof fn lemma_reordered(
    m: MemoVal,
    path: Seq<Seg>,
    a: Val,
    b: Val,
    depth: int,
    opts: Rules,
)
    requires
        tables(m),
        opts.ignore_order,
        reordered(a, b),
        0 <= depth <= opts.max_depth,
        height(a) <= opts.max_depth - depth,
        height(b) <= opts.max_depth - depth,
    ensures
        tables(diff_of(m, path, a, b, depth, opts).0),
        diff_of(m, path, a, b, depth, opts).1 == silence(),
    decreases a, 0int,
{
    match (a, b) {
        (Val::Array(x), Val::Array(y)) => {
            lemma_unordered(m, path, x, y, depth, opts);
            assert(array_of(m, path, x, y, depth, opts) == unordered_of(
                m,
                path,
                x,
                y,
                depth,
                opts,
            ));
        },
        (Val::Tuple(x), Val::Tuple(y)) => {
            lemma_unordered(m, path, x, y, depth, opts);
            assert(array_of(m, path, x, y, depth, opts) == unordered_of(
                m,
                path,
                x,
                y,
                depth,
                opts,
            ));
        },
        (Val::MutableSet(x), Val::MutableSet(y)) => lemma_set_silent(
            m,
            path,
            x,
            depth,
            opts.max_depth as int,
        ),
        (Val::FrozenSet(x), Val::FrozenSet(y)) => lemma_set_silent(
            m,
            path,
            x,
            depth,
            opts.max_depth as int,
        ),
        (Val::Object(p), Val::Object(q)) => {
            if !skips(a, b) {
                lemma_reordered_walk(m, path, p, q, depth, opts);
                if has_other_keys(p.entries) || has_other_keys(q.entries) {
                    lemma_reordered_mixed(m, path, p, q, depth, opts, 0);
                } else {
                    lemma_reordered_entries(m, path, p, q, depth, opts, 0);
                }
            }
        },
        _ => {},
    }
}

/// Whether two objects are walked entry by entry to no effect.
spec fn reordered_objects(p: ObjectVal, q: ObjectVal) -> bool {
    reordered(Val::Object(p), Val::Object(q)) && !skips(Val::Object(p), Val::Object(q))
}

proof fn lemma_reordered_objects(p: ObjectVal, q: ObjectVal)
    requires
        reordered_objects(p, q),
    ensures
        walked(p),
        p.kind == q.kind,
        same_class(Val::Object(p), Val::Object(q)),
        ascending::<ObjectKey, Val>(p.entries),
        ascending::<ObjectKey, Val>(q.entries),
        told_apart(p.entries),
        same_keys(p.entries, q.entries),
        forall|i: int|
            #![trigger p.entries[i]]
            0 <= i < p.entries.len() ==> reordered(p.entries[i].1, q.entries[i].1),
{
    let a: Val = Val::Object(p);
    let b: Val = Val::Object(q);
    assert(reordered(a, b));
    match (a, b) {
        (Val::Object(x), Val::Object(y)) => {
            assert forall|i: int| #![trigger x.entries[i]] 0 <= i < x.entries.len() implies reordered(
                x.entries[i].1,
                y.entries[i].1,
            ) && x.entries[i].0 == y.entries[i].0 by {
                assert(reordered(a, b));
            }
        },
        _ => {},
    }
}

/// Two objects with the same keys are walked entry by entry.
proof fn lemma_reordered_walk(
    m: MemoVal,
    path: Seq<Seg>,
    p: ObjectVal,
    q: ObjectVal,
    depth: int,
    opts: Rules,
)
    requires
        reordered_objects(p, q),
        depth <= opts.max_depth,
    ensures
        diff_of(m, path, Val::Object(p), Val::Object(q), depth, opts) == if has_other_keys(
            p.entries,
        ) || has_other_keys(q.entries) {
            mixed_of(m, path, p, q, depth, opts, 0, nothing())
        } else {
            entries_of(m, path, p, q, depth, opts, 0, nothing())
        },
{
    let a: Val = Val::Object(p);
    let b: Val = Val::Object(q);
    lemma_reordered_objects(p, q);
    lemma_all_shared(p.entries, q.entries, p.entries.len() as int);
    assert(!low_overlap(p.entries, q.entries));
    let step: Step = object_step(opts, a, b);
    assert(step == Step::Walk(p, q));
    assert(diff_of(m, path, a, b, depth, opts) == object_of(m, path, p, q, depth, opts));
}

proof fn lemma_reordered_entries(
    m: MemoVal,
    path: Seq<Seg>,
    p: ObjectVal,
    q: ObjectVal,
    depth: int,
    opts: Rules,
    i: int,
)
    requires
        tables(m),
        opts.ignore_order,
        reordered_objects(p, q),
        0 <= depth <= opts.max_depth,
        height(Val::Object(p)) <= opts.max_depth - depth,
        height(Val::Object(q)) <= opts.max_depth - depth,
        0 <= i <= p.entries.len(),
    ensures
        tables(entries_of(m, path, p, q, depth, opts, i, nothing()).0),
        entries_of(m, path, p, q, depth, opts, i, nothing()).1 == silence(),
    decreases p, p.entries.len() - i,
{
    lemma_reordered_objects(p, q);
    if i < p.entries.len() {
        let (key, value) = p.entries[i];
        assert(p.entries[i].0 == q.entries[i].0);
        lemma_lookup_at::<ObjectKey, Val>(q.entries, i);
        lemma_child_height(Val::Object(p), i);
        lemma_child_height(Val::Object(q), i);
        assert(children(Val::Object(p))[i] == value);
        assert(children(Val::Object(q))[i] == q.entries[i].1);
        let at: Seq<Seg> = path.push(entry_seg(p.kind, key));
        lemma_reordered(m, at, value, q.entries[i].1, depth + 1, opts);
        let n: MemoVal = diff_of(m, at, value, q.entries[i].1, depth + 1, opts).0;
        crate::report::lemma_merge_nothing(nothing());
        lemma_reordered_entries(n, path, p, q, depth, opts, i + 1);
    } else {
        lemma_no_new_entries(path, p, q, 0, depth, opts.max_depth as int);
    }
}

proof fn lemma_reordered_mixed(
    m: MemoVal,
    path: Seq<Seg>,
    p: ObjectVal,
    q: ObjectVal,
    depth: int,
    opts: Rules,
    i: int,
)
    requires
        tables(m),
        opts.ignore_order,
        reordered_objects(p, q),
        0 <= depth <= opts.max_depth,
        height(Val::Object(p)) <= opts.max_depth - depth,
        height(Val::Object(q)) <= opts.max_depth - depth,
        0 <= i <= p.entries.len(),
    ensures
        tables(mixed_of(m, path, p, q, depth, opts, i, nothing()).0),
        mixed_of(m, path, p, q, depth, opts, i, nothing()).1 == silence(),
    decreases p, p.entries.len() - i,
{
    lemma_reordered_objects(p, q);
    if i < p.entries.len() {
        let (key, value) = p.entries[i];
        assert(p.entries[i].0 == q.entries[i].0);
        lemma_own_partner(p.entries, q.entries, i, 0);
        lemma_child_height(Val::Object(p), i);
        lemma_child_height(Val::Object(q), i);
        assert(children(Val::Object(p))[i] == value);
        assert(children(Val::Object(q))[i] == q.entries[i].1);
        let at: Seq<Seg> = path.push(key_seg(q.entries[i].0));
        lemma_reordered(m, at, value, q.entries[i].1, depth + 1, opts);
        let n: MemoVal = diff_of(m, at, value, q.entries[i].1, depth + 1, opts).0;
        crate::report::lemma_merge_nothing(nothing());
        lemma_reordered_mixed(n, path, p, q, depth, opts, i + 1);
    } else {
        let max_depth: int = opts.max_depth as int;
        lemma_no_lone_entries(path, p.entries, q.entries, 0, false, depth, max_depth);
        lemma_no_lone_entries(path, p.entries, q.entries, 0, true, depth, max_depth);
    }
}

/// A comparison that starts with nothing remembered has its tables in order.
pub proof fn lemma_fresh_tables(enabled: bool)
    ensures
        tables(fresh(enabled)),
{
}

/// Order is ignored where the options say so: values that differ only in the
/// order and the repetition of the items of their lists, at any level, have
/// nothing between them, if they nest no deeper than the limit.
pub proof fn lemma_order_ignored(m: MemoVal, a: Val, b: Val, opts: Rules)
    requires
        tables(m),
        opts.ignore_order,
        reordered(a, b),
        height(a) <= opts.max_depth,
        height(b) <= opts.max_depth,
    ensures
        comparison(m, a, b, opts).1 == silence(),
{
    lemma_reordered(m, seq![], a, b, 0, opts);
    assert(mutual_merged(nothing()) == nothing());
}

/// Whether a value is one as JSON has them: scalars, lists and dicts with texts as
/// keys.
pub open spec fn json(value: Val) -> bool
    decreases value,
{
    match value {
        Val::Null => true,
        Val::Bool(_) => true,
        Val::Str(_) => true,
        Val::Number(_) => true,
        Val::Array(items) => forall|i: int| 0 <= i < items.len() ==> json(#[trigger] items[i]),
        Val::Object(object) => object.kind == ObjectKind::Dict && forall|i: int|
            #![trigger object.entries[i]]
            0 <= i < object.entries.len() ==> object.entries[i].0 is Str && json(
                object.entries[i].1,
            ),
        _ => false,
    }
}

/// Equal entries, by position.
proof fn lemma_entries_at(p: Seq<(KeyVal, Val)>, q: Seq<(KeyVal, Val)>, i: int)
    requires
        same_entries(p, q),
        0 <= i < p.len(),
    ensures
        same_key(p[i].0, q[i].0),
        same_value(p[i].1, q[i].1),
    decreases p.len(),
{
    if i < p.len() - 1 {
        lemma_entries_at(p.drop_last(), q.drop_last(), i);
    }
}

/// Equal JSON values are not told apart as items.
pub proof fn lemma_equal_alike(a: Val, b: Val)
    requires
        json(a),
        same_value(a, b),
    ensures
        alike(a, b),
    decreases a,
{
    match (a, b) {
        (Val::Array(x), Val::Array(y)) => {
            super::equality::lemma_same_values(x, y);
            assert forall|i: int| 0 <= i < x.len() implies like_one(#[trigger] x[i], y) by {
                lemma_equal_alike(x[i], y[i]);
                assert(alike(x[i], y[i]));
            }
            assert forall|j: int| 0 <= j < y.len() implies one_like(x, #[trigger] y[j]) by {
                assert(same_value(x[j], y[j]));
                lemma_equal_alike(x[j], y[j]);
                assert(alike(x[j], y[j]));
            }
            lemma_like_items(x, y);
        },
        (Val::Object(p), Val::Object(q)) => {
            assert(super::equality::same_object(p, q));
            assert(same_entries(p.entries, q.entries));
            assert forall|i: int| #![trigger p.entries[i]] 0 <= i < p.entries.len() implies p.entries[i].0
                == q.entries[i].0 && alike(p.entries[i].1, q.entries[i].1) by {
                lemma_entries_at(p.entries, q.entries, i);
                lemma_equal_alike(p.entries[i].1, q.entries[i].1);
            }
        },
        _ => {},
    }
}

/// Whether a value equals one of several.
pub open spec fn equals_one(a: Val, y: Seq<Val>) -> bool {
    exists|j: int| 0 <= j < y.len() && same_value(a, #[trigger] y[j])
}

/// Whether one of several values equals a value.
pub open spec fn one_equals(x: Seq<Val>, b: Val) -> bool {
    exists|i: int| 0 <= i < x.len() && same_value(#[trigger] x[i], b)
}

proof fn lemma_equal_items(x: Seq<Val>, y: Seq<Val>)
    requires
        forall|i: int| 0 <= i < x.len() ==> json(#[trigger] x[i]),
        forall|i: int| 0 <= i < x.len() ==> #[trigger] equals_one(x[i], y),
        forall|j: int| 0 <= j < y.len() ==> #[trigger] one_equals(x, y[j]),
    ensures
        alike(Val::Array(x), Val::Array(y)),
{
    assert forall|i: int| 0 <= i < x.len() implies like_one(#[trigger] x[i], y) by {
        assert(equals_one(x[i], y));
        let j: int = choose|j: int| 0 <= j < y.len() && same_value(x[i], #[trigger] y[j]);
        lemma_equal_alike(x[i], y[j]);
    }
    assert forall|j: int| 0 <= j < y.len() implies one_like(x, #[trigger] y[j]) by {
        assert(one_equals(x, y[j]));
        let i: int = choose|i: int| 0 <= i < x.len() && same_value(#[trigger] x[i], y[j]);
        lemma_equal_alike(x[i], y[j]);
    }
    lemma_like_items(x, y);
}

/// Neither a reordering nor a change in how often an item repeats is reported where
/// order is ignored: two lists of JSON values of which every item equals one of the
/// other have nothing between them, if the items nest no deeper than the limit.
pub proof fn lemma_repetition_ignored(m: MemoVal, x: Seq<Val>, y: Seq<Val>, opts: Rules)
    requires
        tables(m),
        opts.ignore_order,
        opts.max_depth >= 1,
        forall|i: int| 0 <= i < x.len() ==> json(#[trigger] x[i]),
        forall|i: int| 0 <= i < x.len() ==> #[trigger] equals_one(x[i], y),
        forall|j: int| 0 <= j < y.len() ==> #[trigger] one_equals(x, y[j]),
        forall|i: int| 0 <= i < x.len() ==> height(#[trigger] x[i]) <= opts.max_depth - 1,
        forall|j: int| 0 <= j < y.len() ==> height(#[trigger] y[j]) <= opts.max_depth - 1,
    ensures
        comparison(m, Val::Array(x), Val::Array(y), opts).1 == silence(),
{
    lemma_equal_items(x, y);
    super::depth::lemma_heights(x, opts.max_depth as nat);
    super::depth::lemma_heights(y, opts.max_depth as nat);
    assert(!super::depth::any_deeper(x, opts.max_depth - 1));
    assert(!super::depth::any_deeper(y, opts.max_depth - 1));
    let path: Seq<Seg> = seq![];
    lemma_unordered(m, path, x, y, 0, opts);
    assert(array_of(m, path, x, y, 0, opts) == unordered_of(m, path, x, y, 0, opts));
    let a: Val = Val::Array(x);
    let b: Val = Val::Array(y);
    assert(diff_of(m, path, a, b, 0, opts) == array_of(m, path, x, y, 0, opts));
    assert(mutual_merged(nothing()) == nothing());
}

// ---------------------------------------------------------------------
// Equality
// ---------------------------------------------------------------------

/// Whether no number in a value, nor in a key of it, is one that is not equal to
/// itself.
pub open spec fn regular(value: Val) -> bool
    decreases value,
{
    match value {
        Val::Number(n) => same_number(n, n),
        Val::Array(items) => forall|i: int| 0 <= i < items.len() ==> regular(#[trigger] items[i]),
        Val::Tuple(items) => forall|i: int| 0 <= i < items.len() ==> regular(#[trigger] items[i]),
        Val::MutableSet(items) => forall|i: int|
            0 <= i < items.len() ==> regular(#[trigger] items[i]),
        Val::FrozenSet(items) => forall|i: int|
            0 <= i < items.len() ==> regular(#[trigger] items[i]),
        Val::Object(object) => forall|i: int|
            #![trigger object.entries[i]]
            0 <= i < object.entries.len() ==> regular_key(object.entries[i].0) && regular(
                object.entries[i].1,
            ),
        _ => true,
    }
}

/// Whether no number in a key is one that is not equal to itself.
pub open spec fn regular_key(key: KeyVal) -> bool
    decreases key,
{
    match key {
        KeyVal::Str(_) => true,
        KeyVal::Other(value) => regular(*value),
    }
}

proof fn lemma_lists_itself(items: Seq<Val>)
    requires
        forall|i: int| 0 <= i < items.len() ==> same_value(#[trigger] items[i], items[i]),
    ensures
        same_values(items, items),
{
    super::equality::lemma_same_values(items, items);
}

proof fn lemma_entries_itself(entries: Seq<(KeyVal, Val)>, count: int)
    requires
        0 <= count <= entries.len(),
        forall|i: int|
            #![trigger entries[i]]
            0 <= i < entries.len() ==> same_key(entries[i].0, entries[i].0) && same_value(
                entries[i].1,
                entries[i].1,
            ),
    ensures
        same_entries(entries.take(count), entries.take(count)),
    decreases count,
{
    if count > 0 {
        lemma_entries_itself(entries, count - 1);
        assert(entries.take(count).drop_last() =~= entries.take(count - 1));
        assert(entries.take(count).last() == entries[count - 1]);
    }
}

/// A value without such a number is equal to itself.
pub proof fn lemma_equal_to_itself(value: Val)
    requires
        regular(value),
    ensures
        same_value(value, value),
    decreases value,
{
    match value {
        Val::Time(t) => crate::datetime::lemma_same_time_equivalence(t, t, t),
        Val::Array(items) | Val::Tuple(items) | Val::MutableSet(items) | Val::FrozenSet(items) => {
            assert forall|i: int| 0 <= i < items.len() implies same_value(
                #[trigger] items[i],
                items[i],
            ) by {
                lemma_equal_to_itself(items[i]);
            }
            lemma_lists_itself(items);
        },
        Val::Object(object) => {
            let entries: Seq<(KeyVal, Val)> = object.entries;
            assert forall|i: int| #![trigger entries[i]] 0 <= i < entries.len() implies same_key(
                entries[i].0,
                entries[i].0,
            ) && same_value(entries[i].1, entries[i].1) by {
                assert(regular_key(object.entries[i].0));
                lemma_equal_to_itself(entries[i].1);
                match entries[i].0 {
                    KeyVal::Str(_) => {},
                    KeyVal::Other(inner) => lemma_equal_to_itself(*inner),
                }
            }
            lemma_entries_itself(entries, entries.len() as int);
            assert(entries.take(entries.len() as int) =~= entries);
        },
        _ => {},
    }
}

/// A value compared with itself, or with one equal to it, has nothing between
/// them, however deep both nest and whatever the options; and nothing is
/// remembered of it.
pub proof fn lemma_equal_is_silent(m: MemoVal, a: Val, b: Val, opts: Rules)
    requires
        same_value(a, b) || (a == b && regular(a)),
    ensures
        comparison(m, a, b, opts) == (m, silence()),
{
    if a == b && regular(a) {
        lemma_equal_to_itself(a);
    }
}

// ---------------------------------------------------------------------
// Lists of scalars
// ---------------------------------------------------------------------

/// Whether two datetimes differ in whether they know their offset from UTC.
pub open spec fn unlike_offsets(a: Val, b: Val) -> bool {
    match (a, b) {
        (Val::DateTime(x), Val::DateTime(y)) => x.spec_utc_offset_seconds().is_some()
            != y.spec_utc_offset_seconds().is_some(),
        _ => false,
    }
}

/// Equality of scalars is at least as strict as Python's: equal ones are equal in
/// Python too, but for a datetime that knows its offset and one that does not.
pub proof fn lemma_stricter_than_python(a: Val, b: Val)
    requires
        basic(a),
        same_value(a, b),
        !unlike_offsets(a, b),
    ensures
        share_key(python_scalar(a), python_scalar(b)),
{
}

/// What a replacement pairs differs: in two lists of scalars, no item of a range
/// that is replaced equals one of the range that replaces it, but for datetimes of
/// which one alone knows its offset.
pub proof fn lemma_replaced_differ(a: Seq<Val>, b: Seq<Val>, k: int, i: int, j: int)
    requires
        all_basic(a),
        all_basic(b),
        0 <= k < opcodes_of(a, b, false).len(),
        opcodes_of(a, b, false)[k].tag == Tag::Replace,
        opcodes_of(a, b, false)[k].a1 <= i < opcodes_of(a, b, false)[k].a2,
        opcodes_of(a, b, false)[k].b1 <= j < opcodes_of(a, b, false)[k].b2,
        !unlike_offsets(a[i], b[j]),
    ensures
        !same_value(a[i], b[j]),
{
    let c: Code = opcodes_of(a, b, false)[k];
    let both: Seq<Val> = a + b;
    let keys: Seq<Option<ScalarVal>> = python_scalars(both);
    lemma_opcodes_cover(a, b, false);
    lemma_tiles_bounds(
        opcodes_of(a, b, false),
        Span { alo: 0, ahi: a.len() as int, blo: 0, bhi: b.len() as int },
        k,
    );
    lemma_replacements_apart(a, b);
    lemma_classes(keys, i, a.len() + j);
    let (x, y) = class_lists(a, b);
    assert(x[i] != y[j]);
    if same_value(a[i], b[j]) {
        lemma_stricter_than_python(a[i], b[j]);
        assert(share_key(keys[i], keys[a.len() + j]));
    }
}

/// Of two lists of scalars the smaller report wins: that by their longest common parts
/// if it has one finding at most or fewer than the one position by position, else
/// the latter.
pub proof fn lemma_smaller_report(
    m: MemoVal,
    path: Seq<Seg>,
    x: Seq<Val>,
    y: Seq<Val>,
    depth: int,
    opts: Rules,
)
    requires
        all_basic(x),
        all_basic(y),
        lcs_outcome(path, x, y, depth, opts.max_depth as int) is Ok,
        positional_of(m, path, x, y, depth, opts, 0, nothing()).1 is Ok,
    ensures
        ({
            let common: Outcome = lcs_outcome(path, x, y, depth, opts.max_depth as int);
            let positional: Outcome = positional_of(m, path, x, y, depth, opts, 0, nothing()).1;
            let few: nat = capped(findings_count(common->Ok_0));
            let many: nat = capped(findings_count(positional->Ok_0));
            smaller_of(m, path, x, y, depth, opts).1 == if few <= 1 || few < many {
                common
            } else {
                positional
            }
        }),
{
}

} // verus!
