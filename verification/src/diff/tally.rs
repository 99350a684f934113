//! Counting what differs, without a report.

use vstd::prelude::*;

#[allow(unused_imports)]
use super::entries::lemma_foreign;
#[allow(unused_imports)]
use super::model::{
    below, diff_of, entries_of, leaves_between, leaves_between_entries, leaves_between_objects,
    lemma_step, lone_leaves, new_entries, object_of, object_step, tokens_kept, Step,
};
#[allow(unused_imports)]
use super::options::Rules;
#[allow(unused_imports)]
use super::places::{disjoint, lemma_found_below, unshared, within};
#[allow(unused_imports)]
use super::scalar::Outcome;
#[allow(unused_imports)]
use super::spots::{
    bare, lemma_spot_merged, lemma_spot_nothing, lemma_spot_with, lemma_spot_within, over, spot,
};
#[allow(unused_imports)]
use crate::ignore_order::coerce::type_change_leaves;
#[allow(unused_imports)]
use crate::ignore_order::dict_keys::{has_other_keys, lemma_partner, low_overlap, partner};
#[allow(unused_imports)]
use crate::ignore_order::identified::plain;
#[allow(unused_imports)]
use crate::ignore_order::length::leaves;
#[allow(unused_imports)]
use crate::ignore_order::memo::MemoVal;
#[allow(unused_imports)]
use crate::order::{
    ascending, lemma_front_ascending, lemma_lookup, lemma_lookup_at, lemma_put_all, lookup, put,
    put_all, Ordered, Place,
};
#[allow(unused_imports)]
use crate::path::{entry_seg, Path, Seg};
#[allow(unused_imports)]
use crate::python_eq::keys_equal;
#[allow(unused_imports)]
use crate::report::{
    change_leaves, finding_leaves, found_leaves, merged, nothing, orderly, retyped_leaves,
    with_dict_added, with_dict_removed, with_type_change, with_value_change, Findings, Found,
    TypeChange, ValueChange,
};
#[allow(unused_imports)]
use crate::value::{KeyVal, ObjectKey, ObjectKind, ObjectVal, Val};

verus! {

/// Whether a JSON value holds no lists.
pub open spec fn listless(value: Val) -> bool
    decreases value,
{
    match value {
        Val::Array(_) => false,
        Val::Object(object) => forall|i: int|
            #![trigger object.entries[i]]
            0 <= i < object.entries.len() ==> listless(object.entries[i].1),
        _ => true,
    }
}

// ---------------------------------------------------------------------
// Sums over categories
// ---------------------------------------------------------------------

/// The weight of all that a category holds.
spec fn total<W>(found: Seq<(Seq<Seg>, W)>, weigh: spec_fn(W) -> nat) -> nat
    decreases found.len(),
{
    if found.len() == 0 {
        0
    } else {
        total(found.drop_last(), weigh) + weigh(found.last().1)
    }
}

/// One more finding adds its weight.
proof fn lemma_total_put<W>(
    found: Seq<(Seq<Seg>, W)>,
    path: Seq<Seg>,
    value: W,
    weigh: spec_fn(W) -> nat,
)
    requires
        lookup(found, path) is None,
    ensures
        total(put::<Path, W>(found, path, value), weigh) == total(found, weigh) + weigh(value),
    decreases found.len(),
{
    let more: Seq<(Seq<Seg>, W)> = put::<Path, W>(found, path, value);
    if found.len() == 0 {
        reveal_with_fuel(total, 2);
        assert(more.drop_last() =~= seq![]);
    } else {
        Path::lemma_total(found.last().0, path);
        match Path::place(found.last().0, path) {
            Place::Before => {
                assert(more.drop_last() =~= found);
            },
            Place::Same => {},
            Place::After => {
                lemma_total_put(found.drop_last(), path, value, weigh);
                assert(more.drop_last() =~= put::<Path, W>(found.drop_last(), path, value));
            },
        }
    }
}

/// Categories that share no path add up.
proof fn lemma_total_put_all<W>(
    found: Seq<(Seq<Seg>, W)>,
    more: Seq<(Seq<Seg>, W)>,
    weigh: spec_fn(W) -> nat,
)
    requires
        ascending::<Path, W>(found),
        ascending::<Path, W>(more),
        unshared(found, more),
    ensures
        total(put_all::<Path, W>(found, more), weigh) == total(found, weigh) + total(more, weigh),
    decreases more.len(),
{
    if more.len() > 0 {
        let front: Seq<(Seq<Seg>, W)> = more.drop_last();
        let path: Seq<Seg> = more.last().0;
        lemma_front_ascending::<Path, W>(more);
        assert forall|i: int, j: int| 0 <= i < found.len() && 0 <= j < front.len() implies (
        #[trigger] found[i]).0 != (#[trigger] front[j]).0 by {
            assert(front[j] == more[j]);
        }
        lemma_total_put_all(found, front, weigh);
        lemma_put_all::<Path, W>(found, front);
        lemma_lookup(found, path);
        lemma_lookup(front, path);
        assert(lookup(found, path) is None) by {
            assert forall|i: int| 0 <= i < found.len() implies (#[trigger] found[i]).0 != path by {
                assert(more[more.len() - 1].0 == path);
            }
        }
        assert(lookup(front, path) is None) by {
            assert forall|i: int| 0 <= i < front.len() implies (#[trigger] front[i]).0 != path by {
                assert(Path::place(more[i].0, more[more.len() - 1].0) == Place::Before);
                Path::lemma_total(more[i].0, path);
            }
        }
        lemma_total_put(put_all::<Path, W>(found, front), path, more.last().1, weigh);
    }
}

spec fn changed_weight() -> spec_fn(ValueChange) -> nat {
    |c: ValueChange| leaves(c.new_value)
}

spec fn retyped_weight() -> spec_fn(TypeChange) -> nat {
    |c: TypeChange| type_change_leaves(c.old_value, c.new_value)
}

spec fn plain_weight() -> spec_fn(Val) -> nat {
    |v: Val| leaves(v)
}

proof fn lemma_change_total(found: Seq<(Seq<Seg>, ValueChange)>)
    ensures
        change_leaves(found) == total(found, changed_weight()),
    decreases found.len(),
{
    if found.len() > 0 {
        lemma_change_total(found.drop_last());
    }
}

proof fn lemma_retyped_total(found: Seq<(Seq<Seg>, TypeChange)>)
    ensures
        retyped_leaves(found) == total(found, retyped_weight()),
    decreases found.len(),
{
    if found.len() > 0 {
        lemma_retyped_total(found.drop_last());
    }
}

proof fn lemma_found_total(found: Found)
    ensures
        found_leaves(found) == total(found, plain_weight()),
    decreases found.len(),
{
    if found.len() > 0 {
        lemma_found_total(found.drop_last());
    }
}

proof fn lemma_found_added(found: Found, more: Found)
    requires
        ascending::<Path, Val>(found),
        ascending::<Path, Val>(more),
        unshared(found, more),
    ensures
        found_leaves(put_all::<Path, Val>(found, more)) == found_leaves(found) + found_leaves(more),
{
    lemma_found_total(found);
    lemma_found_total(more);
    lemma_found_total(put_all::<Path, Val>(found, more));
    lemma_total_put_all(found, more, plain_weight());
}

/// Reports that share no path add up.
pub proof fn lemma_leaves_add(f: Findings, g: Findings)
    requires
        orderly(f),
        orderly(g),
        disjoint(f, g),
    ensures
        finding_leaves(merged(f, g)) == finding_leaves(f) + finding_leaves(g),
{
    lemma_change_total(f.values_changed);
    lemma_change_total(g.values_changed);
    lemma_change_total(merged(f, g).values_changed);
    lemma_total_put_all(f.values_changed, g.values_changed, changed_weight());
    lemma_retyped_total(f.type_changes);
    lemma_retyped_total(g.type_changes);
    lemma_retyped_total(merged(f, g).type_changes);
    lemma_total_put_all(f.type_changes, g.type_changes, retyped_weight());
    lemma_found_added(f.dictionary_item_added, g.dictionary_item_added);
    lemma_found_added(f.dictionary_item_removed, g.dictionary_item_removed);
    lemma_found_added(f.iterable_item_added, g.iterable_item_added);
    lemma_found_added(f.iterable_item_removed, g.iterable_item_removed);
    lemma_found_added(f.attribute_added, g.attribute_added);
    lemma_found_added(f.attribute_removed, g.attribute_removed);
    lemma_found_added(f.set_item_added, g.set_item_added);
    lemma_found_added(f.set_item_removed, g.set_item_removed);
}

/// A category has nothing at a path where the report has nothing.
proof fn lemma_unshared_below<W>(
    a: Seq<(Seq<Seg>, W)>,
    b: Seq<(Seq<Seg>, W)>,
    at: Seq<Seg>,
)
    requires
        forall|q: Seq<Seg>| at.is_prefix_of(q) ==> #[trigger] lookup(a, q) is None,
        forall|j: int| 0 <= j < b.len() ==> at.is_prefix_of((#[trigger] b[j]).0),
    ensures
        unshared(a, b),
{
    assert forall|i: int, j: int| 0 <= i < a.len() && 0 <= j < b.len() implies (#[trigger] a[i]).0
        != (#[trigger] b[j]).0 by {
        lemma_lookup(a, a[i].0);
        if a[i].0 == b[j].0 {
            assert(lookup(a, a[i].0) is None);
        }
    }
}

/// What is found below a path where a report has nothing shares no path with it.
proof fn lemma_disjoint_below(f: Findings, g: Findings, at: Seq<Seg>)
    requires
        within(g, at),
        forall|q: Seq<Seg>| at.is_prefix_of(q) ==> #[trigger] spot(f, q) == bare(),
    ensures
        disjoint(f, g),
{
    reveal(spot);
    assert forall|q: Seq<Seg>| at.is_prefix_of(q) implies #[trigger] lookup(
        f.type_changes,
        q,
    ) is None by {
        assert(spot(f, q) == bare());
    }
    lemma_unshared_below(f.type_changes, g.type_changes, at);
    assert forall|q: Seq<Seg>| at.is_prefix_of(q) implies #[trigger] lookup(
        f.values_changed,
        q,
    ) is None by {
        assert(spot(f, q) == bare());
    }
    lemma_unshared_below(f.values_changed, g.values_changed, at);
    assert forall|q: Seq<Seg>| at.is_prefix_of(q) implies #[trigger] lookup(
        f.dictionary_item_added,
        q,
    ) is None by {
        assert(spot(f, q) == bare());
    }
    lemma_unshared_below(f.dictionary_item_added, g.dictionary_item_added, at);
    assert forall|q: Seq<Seg>| at.is_prefix_of(q) implies #[trigger] lookup(
        f.dictionary_item_removed,
        q,
    ) is None by {
        assert(spot(f, q) == bare());
    }
    lemma_unshared_below(f.dictionary_item_removed, g.dictionary_item_removed, at);
    assert forall|q: Seq<Seg>| at.is_prefix_of(q) implies #[trigger] lookup(
        f.iterable_item_added,
        q,
    ) is None by {
        assert(spot(f, q) == bare());
    }
    lemma_unshared_below(f.iterable_item_added, g.iterable_item_added, at);
    assert forall|q: Seq<Seg>| at.is_prefix_of(q) implies #[trigger] lookup(
        f.iterable_item_removed,
        q,
    ) is None by {
        assert(spot(f, q) == bare());
    }
    lemma_unshared_below(f.iterable_item_removed, g.iterable_item_removed, at);
    assert forall|q: Seq<Seg>| at.is_prefix_of(q) implies #[trigger] lookup(
        f.attribute_added,
        q,
    ) is None by {
        assert(spot(f, q) == bare());
    }
    lemma_unshared_below(f.attribute_added, g.attribute_added, at);
    assert forall|q: Seq<Seg>| at.is_prefix_of(q) implies #[trigger] lookup(
        f.attribute_removed,
        q,
    ) is None by {
        assert(spot(f, q) == bare());
    }
    lemma_unshared_below(f.attribute_removed, g.attribute_removed, at);
    assert forall|q: Seq<Seg>| at.is_prefix_of(q) implies #[trigger] lookup(
        f.set_item_added,
        q,
    ) is None by {
        assert(spot(f, q) == bare());
    }
    lemma_unshared_below(f.set_item_added, g.set_item_added, at);
    assert forall|q: Seq<Seg>| at.is_prefix_of(q) implies #[trigger] lookup(
        f.set_item_removed,
        q,
    ) is None by {
        assert(spot(f, q) == bare());
    }
    lemma_unshared_below(f.set_item_removed, g.set_item_removed, at);
}

/// One entry more, where the report has nothing, adds its leaves.
proof fn lemma_entry_leaves_add(f: Findings, at: Seq<Seg>, value: Val)
    requires
        spot(f, at) == bare(),
    ensures
        finding_leaves(with_dict_added(f, at, value)) == finding_leaves(f) + leaves(value),
        finding_leaves(with_dict_removed(f, at, value)) == finding_leaves(f) + leaves(value),
{
    reveal(spot);
    lemma_total_put(f.dictionary_item_added, at, value, plain_weight());
    lemma_total_put(f.dictionary_item_removed, at, value, plain_weight());
    lemma_found_total(f.dictionary_item_added);
    lemma_found_total(f.dictionary_item_removed);
    lemma_found_total(put::<Path, Val>(f.dictionary_item_added, at, value));
    lemma_found_total(put::<Path, Val>(f.dictionary_item_removed, at, value));
}

// ---------------------------------------------------------------------
// Dicts
// ---------------------------------------------------------------------

/// Whether a key is one of the first `count` entries.
spec fn among(entries: Seq<(KeyVal, Val)>, key: KeyVal, count: int) -> bool {
    exists|k: int| 0 <= k < count && (#[trigger] entries[k]).0 == key
}

/// Whether nothing is found below a key.
spec fn clear_below(f: Findings, path: Seq<Seg>, key: KeyVal) -> bool {
    forall|q: Seq<Seg>|
        path.push(entry_seg(ObjectKind::Dict, key)).is_prefix_of(q) ==> #[trigger] spot(f, q)
            == bare()
}

/// Among texts, the partner of a key is the entry under it.
pub proof fn lemma_partner_found(entries: Seq<(KeyVal, Val)>, key: KeyVal)
    requires
        ascending::<ObjectKey, Val>(entries),
        forall|i: int| #![trigger entries[i]] 0 <= i < entries.len() ==> entries[i].0 is Str,
        key is Str,
    ensures
        partner(entries, key) is Some <==> lookup(entries, key) is Some,
        partner(entries, key) matches Some(j) ==> 0 <= j < entries.len() && entries[j].0 == key
            && lookup(entries, key) == Some(entries[j].1),
{
    lemma_foreign(entries, key, 0);
    lemma_partner(entries, key, 0);
    lemma_lookup(entries, key);
    match partner(entries, key) {
        Some(j) => {
            assert(entries[j].0 is Str);
            lemma_lookup_at::<ObjectKey, Val>(entries, j);
        },
        None => {
            if lookup(entries, key) is Some {
                let w: Val = lookup(entries, key)->Some_0;
                let i: int = choose|i: int|
                    0 <= i < entries.len() && #[trigger] entries[i] == (key, w);
                assert(entries[i].0 is Str);
                assert(!keys_equal(key, entries[i].0));
            }
        },
    }
}

/// Steps to different texts part.
proof fn lemma_clear_beside(path: Seq<Seg>, key: KeyVal, other: KeyVal, q: Seq<Seg>)
    requires
        key is Str,
        other is Str,
        key != other,
        path.push(entry_seg(ObjectKind::Dict, key)).is_prefix_of(q),
    ensures
        !path.push(entry_seg(ObjectKind::Dict, other)).is_prefix_of(q),
        q != path.push(entry_seg(ObjectKind::Dict, other)),
{
    let a: Seq<Seg> = path.push(entry_seg(ObjectKind::Dict, key));
    let b: Seq<Seg> = path.push(entry_seg(ObjectKind::Dict, other));
    let n: int = path.len() as int;
    assert(a[n] == q[n]) by {
        assert(a == q.subrange(0, a.len() as int));
    }
    if b.is_prefix_of(q) {
        assert(b == q.subrange(0, b.len() as int));
        assert(b[n] == q[n]);
    }
    if q == b {
        assert(b[n] == q[n]);
    }
}

/// The new entries from the `i`th on add their leaves.
proof fn lemma_news_counted(
    f: Findings,
    path: Seq<Seg>,
    p: ObjectVal,
    q: ObjectVal,
    i: int,
    depth: int,
    max_depth: int,
    h: Findings,
)
    requires
        plain(Val::Object(p)),
        plain(Val::Object(q)),
        orderly(f),
        0 <= i <= q.entries.len(),
        new_entries(f, path, p, q, i, depth, max_depth) == Outcome::Ok(h),
        forall|k: int|
            #![trigger q.entries[k]]
            i <= k < q.entries.len() && lookup(p.entries, q.entries[k].0) is None ==> clear_below(
                f,
                path,
                q.entries[k].0,
            ),
    ensures
        finding_leaves(h) == finding_leaves(f) + lone_leaves(q.entries, p.entries, i),
    decreases q.entries.len() - i,
{
    if i < q.entries.len() {
        let (key, value) = q.entries[i];
        let at: Seq<Seg> = path.push(entry_seg(p.kind, key));
        assert(key is Str);
        lemma_plain_dict(p);
        lemma_partner_found(p.entries, key);
        if lookup(p.entries, key) is Some {
            lemma_news_counted(f, path, p, q, i + 1, depth, max_depth, h);
        } else {
            let g: Findings = with_dict_added(f, at, value);
            assert(clear_below(f, path, q.entries[i].0));
            assert(at.is_prefix_of(at));
            assert(spot(f, at) == bare());
            lemma_entry_leaves_add(f, at, value);
            lemma_spot_with(f, at);
            assert forall|k: int|
                #![trigger q.entries[k]]
                i + 1 <= k < q.entries.len() && lookup(p.entries, q.entries[k].0)
                    is None implies clear_below(g, path, q.entries[k].0) by {
                assert(clear_below(f, path, q.entries[k].0));
                lemma_plain_dict(q);
                lemma_apart(q.entries, i, k);
                assert forall|r: Seq<Seg>|
                    path.push(entry_seg(ObjectKind::Dict, q.entries[k].0)).is_prefix_of(
                        r,
                    ) implies #[trigger] spot(g, r) == bare() by {
                    lemma_clear_beside(path, q.entries[k].0, key, r);
                    assert(spot(f, r) == bare());
                }
            }
            lemma_news_counted(g, path, p, q, i + 1, depth, max_depth, h);
        }
    }
}

/// The entries of a JSON dict ascend, and their keys are texts.
proof fn lemma_plain_dict(p: ObjectVal)
    requires
        plain(Val::Object(p)),
    ensures
        p.kind == ObjectKind::Dict,
        ascending::<ObjectKey, Val>(p.entries),
        forall|i: int| #![trigger p.entries[i]] 0 <= i < p.entries.len() ==> p.entries[i].0 is Str,
        forall|i: int|
            #![trigger p.entries[i]]
            0 <= i < p.entries.len() ==> plain(p.entries[i].1),
        !has_other_keys(p.entries),
{
}

/// Two entries have different keys.
proof fn lemma_apart(entries: Seq<(KeyVal, Val)>, i: int, k: int)
    requires
        ascending::<ObjectKey, Val>(entries),
        0 <= i < entries.len(),
        0 <= k < entries.len(),
        i != k,
    ensures
        entries[i].0 != entries[k].0,
{
    ObjectKey::lemma_total(entries[i].0, entries[k].0);
    if i < k {
        assert(ObjectKey::place(entries[i].0, entries[k].0) == Place::Before);
    } else {
        assert(ObjectKey::place(entries[k].0, entries[i].0) == Place::Before);
        ObjectKey::lemma_total(entries[k].0, entries[i].0);
    }
}

/// The entries from the `i`th on add what differs between them.
#[verifier::rlimit(50)]
#[verifier::spinoff_prover]
proof fn lemma_entries_counted(
    m: MemoVal,
    path: Seq<Seg>,
    p: ObjectVal,
    q: ObjectVal,
    depth: int,
    other: int,
    opts: Rules,
    i: int,
    f: Findings,
    h: Findings,
    count: nat,
)
    requires
        plain(Val::Object(p)),
        plain(Val::Object(q)),
        listless(Val::Object(p)),
        listless(Val::Object(q)),
        orderly(f),
        0 <= i <= p.entries.len(),
        entries_of(m, path, p, q, depth, opts, i, f).1 == Outcome::Ok(h),
        forall|key: KeyVal|
            key is Str && !among(p.entries, key, i) ==> #[trigger] clear_below(f, path, key),
    ensures
        entries_of(m, path, p, q, depth, opts, i, f).0 == m,
        leaves_between_entries(m, p.entries, q.entries, other, opts, i, count).0 == m,
        leaves_between_entries(m, p.entries, q.entries, other, opts, i, count).1 + finding_leaves(f)
            == count + finding_leaves(h),
    decreases p, 0int, p.entries.len() - i,
{
    lemma_plain_dict(p);
    lemma_plain_dict(q);
    if i < p.entries.len() {
        let (key, value) = p.entries[i];
        let at: Seq<Seg> = path.push(entry_seg(p.kind, key));
        assert(!among(p.entries, key, i)) by {
            if among(p.entries, key, i) {
                let k: int = choose|k: int| 0 <= k < i && (#[trigger] p.entries[k]).0 == key;
                lemma_apart(p.entries, k, i);
            }
        }
        assert(clear_below(f, path, key));
        lemma_partner_found(q.entries, key);
        match lookup(q.entries, key) {
            None => {
                let g: Findings = with_dict_removed(f, at, value);
                assert(at.is_prefix_of(at));
                assert(spot(f, at) == bare());
                lemma_entry_leaves_add(f, at, value);
                lemma_spot_with(f, at);
                lemma_clear_next(f, g, path, p.entries, i);
                lemma_entries_counted(
                    m,
                    path,
                    p,
                    q,
                    depth,
                    other,
                    opts,
                    i + 1,
                    g,
                    h,
                    count + leaves(value),
                );
            },
            Some(new_value) => {
                let j: int = partner(q.entries, key)->Some_0;
                let (n, found) = diff_of(m, at, value, new_value, depth + 1, opts);
                let g: Findings = found->Ok_0;
                let next: int = below(other, opts.max_depth as int);
                assert(listless(p.entries[i].1) && listless(q.entries[j].1));
                assert(plain(p.entries[i].1) && plain(q.entries[j].1));
                lemma_counted(m, at, value, new_value, depth + 1, next, opts, g);
                lemma_found_below(m, at, value, new_value, depth + 1, opts);
                lemma_disjoint_below(f, g, at);
                lemma_leaves_add(f, g);
                lemma_spot_merged(f, g);
                assert forall|r: Seq<Seg>| !at.is_prefix_of(r) implies #[trigger] spot(
                    merged(f, g),
                    r,
                ) == spot(f, r) by {
                    lemma_spot_within(g, at, r);
                    assert(spot(merged(f, g), r) == over(spot(f, r), spot(g, r)));
                }
                lemma_clear_next(f, merged(f, g), path, p.entries, i);
                lemma_entries_counted(
                    m,
                    path,
                    p,
                    q,
                    depth,
                    other,
                    opts,
                    i + 1,
                    merged(f, g),
                    h,
                    count + finding_leaves(g),
                );
            },
        }
    } else {
        assert forall|k: int|
            #![trigger q.entries[k]]
            0 <= k < q.entries.len() && lookup(p.entries, q.entries[k].0) is None implies clear_below(
            f,
            path,
            q.entries[k].0,
        ) by {
            lemma_lookup(p.entries, q.entries[k].0);
            assert(!among(p.entries, q.entries[k].0, i));
        }
        lemma_news_counted(f, path, p, q, 0, depth, opts.max_depth as int, h);
    }
}

/// What one entry adds leaves the others clear.
proof fn lemma_clear_next(
    f: Findings,
    g: Findings,
    path: Seq<Seg>,
    entries: Seq<(KeyVal, Val)>,
    i: int,
)
    requires
        0 <= i < entries.len(),
        entries[i].0 is Str,
        forall|key: KeyVal|
            key is Str && !among(entries, key, i) ==> #[trigger] clear_below(f, path, key),
        forall|r: Seq<Seg>|
            !path.push(entry_seg(ObjectKind::Dict, entries[i].0)).is_prefix_of(r) ==> #[trigger] spot(
                g,
                r,
            ) == spot(f, r),
    ensures
        forall|key: KeyVal|
            key is Str && !among(entries, key, i + 1) ==> #[trigger] clear_below(g, path, key),
{
    assert forall|key: KeyVal| key is Str && !among(entries, key, i + 1) implies #[trigger]
        clear_below(g, path, key) by {
        assert(entries[i].0 != key);
        assert(!among(entries, key, i)) by {
            if among(entries, key, i) {
                let k: int = choose|k: int| 0 <= k < i && (#[trigger] entries[k]).0 == key;
                assert(among(entries, key, i + 1));
            }
        }
        assert(clear_below(f, path, key));
        assert forall|r: Seq<Seg>|
            path.push(entry_seg(ObjectKind::Dict, key)).is_prefix_of(r) implies #[trigger] spot(g, r)
            == bare() by {
            lemma_clear_beside(path, key, entries[i].0, r);
            assert(spot(f, r) == bare());
        }
    }
}

/// One change weighs what its values do.
proof fn lemma_one_change(path: Seq<Seg>)
    ensures
        forall|c: ValueChange| #[trigger]
            finding_leaves(with_value_change(nothing(), path, c)) == leaves(c.new_value),
        forall|c: TypeChange| #[trigger]
            finding_leaves(with_type_change(nothing(), path, c)) == type_change_leaves(
                c.old_value,
                c.new_value,
            ),
        finding_leaves(nothing()) == 0,
{
    reveal_with_fuel(change_leaves, 2);
    reveal_with_fuel(retyped_leaves, 2);
    assert forall|c: ValueChange| #[trigger]
        finding_leaves(with_value_change(nothing(), path, c)) == leaves(c.new_value) by {
        let one: Seq<(Seq<Seg>, ValueChange)> = with_value_change(
            nothing(),
            path,
            c,
        ).values_changed;
        assert(one.len() == 1 && one.last() == (path, c));
        assert(one.drop_last() =~= seq![]);
    }
    assert forall|c: TypeChange| #[trigger]
        finding_leaves(with_type_change(nothing(), path, c)) == type_change_leaves(
        c.old_value,
        c.new_value,
    ) by {
        let one: Seq<(Seq<Seg>, TypeChange)> = with_type_change(nothing(), path, c).type_changes;
        assert(one.len() == 1 && one.last() == (path, c));
        assert(one.drop_last() =~= seq![]);
    }
}

/// What is counted between two JSON values without lists, with no report made, is what
/// the report of their comparison weighs.
pub proof fn lemma_counted(
    m: MemoVal,
    path: Seq<Seg>,
    a: Val,
    b: Val,
    depth: int,
    other: int,
    opts: Rules,
    f: Findings,
)
    requires
        plain(a),
        plain(b),
        listless(a),
        listless(b),
        diff_of(m, path, a, b, depth, opts).1 == Outcome::Ok(f),
    ensures
        diff_of(m, path, a, b, depth, opts).0 == m,
        leaves_between(m, a, b, other, opts) == (m, finding_leaves(f)),
    decreases a, 9int, 0int,
{
    lemma_one_change(path);
    match (a, b) {
        (Val::Object(p), Val::Object(q)) => {
            lemma_step(opts, tokens_kept(opts), a, b);
            assert(object_step(opts, a, b) == Step::Walk(p, q));
            assert(diff_of(m, path, a, b, depth, opts) == object_of(m, path, p, q, depth, opts));
            assert(leaves_between(m, a, b, other, opts) == leaves_between_objects(
                m,
                p,
                q,
                other,
                opts,
            ));
            lemma_objects_counted(m, path, p, q, depth, other, opts, f);
        },
        _ => {
            if a is Object || b is Object {
                lemma_step(opts, tokens_kept(opts), a, b);
                assert(object_step(opts, a, b) is TypeChange);
            }
        },
    }
}

proof fn lemma_objects_counted(
    m: MemoVal,
    path: Seq<Seg>,
    p: ObjectVal,
    q: ObjectVal,
    depth: int,
    other: int,
    opts: Rules,
    f: Findings,
)
    requires
        plain(Val::Object(p)),
        plain(Val::Object(q)),
        listless(Val::Object(p)),
        listless(Val::Object(q)),
        object_of(m, path, p, q, depth, opts).1 == Outcome::Ok(f),
    ensures
        object_of(m, path, p, q, depth, opts).0 == m,
        leaves_between_objects(m, p, q, other, opts) == (m, finding_leaves(f)),
    decreases p, 1int, 0int,
{
    lemma_one_change(path);
    lemma_plain_dict(p);
    lemma_plain_dict(q);
    if !low_overlap(p.entries, q.entries) {
        lemma_spot_nothing();
        assert forall|key: KeyVal|
            key is Str && !among(p.entries, key, 0) implies #[trigger] clear_below(
            nothing(),
            path,
            key,
        ) by {
            assert forall|r: Seq<Seg>|
                path.push(entry_seg(ObjectKind::Dict, key)).is_prefix_of(r) implies #[trigger] spot(
                nothing(),
                r,
            ) == bare() by {}
        }
        lemma_entries_counted(m, path, p, q, depth, other, opts, 0, nothing(), f, 0);
    }
}

} // verus!
