//! What it means that a comparison finds nothing.

use vstd::prelude::*;

#[allow(unused_imports)]
use super::aligned::{lemma_silent_scalars, not_told_apart};
#[allow(unused_imports)]
use super::changes::{lemma_scalar_change, lemma_type_change};
#[allow(unused_imports)]
use super::equality::same_value;
#[allow(unused_imports)]
use super::items::{by_position, lemma_by_position, lemma_scalar_lists};
#[allow(unused_imports)]
use super::laws::{lemma_stricter_than_python, silence};
#[allow(unused_imports)]
use super::lists::{item_path, lcs_outcome};
#[allow(unused_imports)]
use super::matched::{has_match, lemma_lone, met_first, numbered, unmatched_at};
#[allow(unused_imports)]
use super::model::{
    added_at, all_basic, array_of, consumed, diff_of, entries_of, leftover, lemma_step, lists_of,
    new_entries, object_of, object_step, pairable, pairs_found, pairs_of, removed_at, unordered_of,
    with_added, with_removed, Lists, Step,
};
#[allow(unused_imports)]
use super::neutral::{
    all_in, lemma_all_in, lemma_diff_grows, lemma_entries_grow, lemma_entry_in, lemma_found_grows,
    lemma_found_in, lemma_grows, lemma_grows_same, lemma_lists_grow, lemma_pairs_grow, lemma_parts,
    lemma_plain_told_apart, parts_of, ranged, telling,
};
#[allow(unused_imports)]
use super::options::{comparison, Rules};
#[allow(unused_imports)]
use super::places::{lemma_found_below, lemma_mutual_within, lemma_retagged_within};
#[allow(unused_imports)]
use super::scalar::{same_class, Outcome};
#[allow(unused_imports)]
use super::spots::{
    bare, come, gone, lemma_spot_merged, lemma_spot_nothing, lemma_spot_with, lemma_spot_within,
    lemma_spots_identify, over, same_below, shows, sole, spot,
};
#[allow(unused_imports)]
use crate::ignore_order::candidates::{unpaired, Partners};
#[allow(unused_imports)]
use crate::ignore_order::dict_keys::has_other_keys;
#[allow(unused_imports)]
use crate::ignore_order::identified::{
    key_of, lemma_key_tells, lemma_keys_agree, lemma_plain_equal, plain,
};
#[allow(unused_imports)]
use crate::ignore_order::memo::MemoVal;
#[allow(unused_imports)]
use crate::ignore_order::pairing::lemma_nearest_go_together;
#[allow(unused_imports)]
use crate::ignore_order::rearranged::{
    alike, lemma_alike, lemma_like_items, like_one, one_like, tables,
};
#[allow(unused_imports)]
use crate::order::{ascending, lemma_lookup, lemma_lookup_at, lemma_put, lookup, put, without};
#[allow(unused_imports)]
use crate::path::{entry_seg, path_text, Path, Seg};
#[allow(unused_imports)]
use crate::report::{
    merged, mutual_merged, nothing, orderly, paired_from, rendered_index, retagged, with_item_added,
    with_item_removed, with_type_change, with_value_change, Findings, Found, TypeChange,
    ValueChange,
};
#[allow(unused_imports)]
use crate::scalar_key::basic;
#[allow(unused_imports)]
use crate::value::{KeyVal, ObjectKey, ObjectKind, ObjectVal, Val};

verus! {

/// Whether two values are the same but for scalars in lists of scalars, which may be
/// any that Python calls equal.
pub open spec fn indistinct(a: Val, b: Val) -> bool
    decreases a,
{
    match (a, b) {
        (Val::Array(x), Val::Array(y)) => {
            &&& x.len() == y.len()
            &&& forall|i: int|
                0 <= i < x.len() ==> indistinct(#[trigger] x[i], y[i]) || (all_basic(x)
                    && all_basic(y) && not_told_apart(x[i], y[i]))
        },
        (Val::Object(p), Val::Object(q)) => {
            &&& p.entries.len() == q.entries.len()
            &&& forall|i: int|
                #![trigger p.entries[i]]
                0 <= i < p.entries.len() ==> p.entries[i].0 == q.entries[i].0 && indistinct(
                    p.entries[i].1,
                    q.entries[i].1,
                )
        },
        _ => a == b,
    }
}

/// Whether a comparison, in order or without, has nothing to tell of two values.
pub open spec fn unchanged(a: Val, b: Val, ignore_order: bool) -> bool {
    if ignore_order {
        alike(a, b)
    } else {
        indistinct(a, b)
    }
}

// ---------------------------------------------------------------------
// Nothing comes only of nothing
// ---------------------------------------------------------------------

/// What is merged into nothing was nothing.
proof fn lemma_merged_silent(f: Findings, g: Findings)
    requires
        orderly(f),
        orderly(g),
        merged(f, g) == nothing(),
    ensures
        f == nothing(),
        g == nothing(),
{
    lemma_spot_merged(f, g);
    lemma_spot_nothing();
    assert forall|q: Seq<Seg>| #[trigger] spot(f, q) == spot(nothing(), q) by {
        assert(spot(merged(f, g), q) == over(spot(f, q), spot(g, q)));
        assert(spot(nothing(), q) == bare());
    }
    assert forall|q: Seq<Seg>| #[trigger] spot(g, q) == spot(nothing(), q) by {
        assert(spot(merged(f, g), q) == over(spot(f, q), spot(g, q)));
        assert(spot(nothing(), q) == bare());
    }
    lemma_spots_identify(f, nothing());
    lemma_spots_identify(g, nothing());
}

proof fn lemma_pairing_silent(
    index: Seq<(Seq<char>, Seq<Seg>)>,
    rest: Found,
    kept: Found,
    removed: Found,
    changed: Seq<(Seq<Seg>, ValueChange)>,
)
    requires
        ascending::<Path, ValueChange>(changed),
        paired_from(index, rest, kept, removed, changed).added.len() == 0,
        paired_from(index, rest, kept, removed, changed).changed.len() == 0,
    ensures
        rest.len() == 0,
        kept.len() == 0,
        changed.len() == 0,
    decreases rest.len(),
{
    if rest.len() > 0 {
        let (path, value) = rest[0];
        match lookup(index, path_text(path)) {
            Some(old_path) if lookup(removed, old_path) is Some => {
                let change: ValueChange = ValueChange {
                    old_value: lookup(removed, old_path)->Some_0,
                    new_value: value,
                    new_path: None,
                    diff: None,
                };
                lemma_put::<Path, ValueChange>(changed, old_path, change);
                let more: Seq<(Seq<Seg>, ValueChange)> = put::<Path, ValueChange>(
                    changed,
                    old_path,
                    change,
                );
                assert(lookup(more, old_path) is Some);
                lemma_pairing_silent(
                    index,
                    rest.drop_first(),
                    kept,
                    without(removed, old_path),
                    more,
                );
                assert(more.len() == 0);
            },
            _ => {
                lemma_pairing_silent(
                    index,
                    rest.drop_first(),
                    kept.push(rest[0]),
                    removed,
                    changed,
                );
            },
        }
    }
}

/// Merging mutual items leaves nothing only of nothing.
proof fn lemma_mutual_silent(g: Findings)
    requires
        orderly(g),
        mutual_merged(g) == nothing(),
    ensures
        g == nothing(),
{
    lemma_pairing_silent(
        rendered_index(g.iterable_item_removed),
        g.iterable_item_added,
        seq![],
        g.iterable_item_removed,
        g.values_changed,
    );
    lemma_spot_nothing();
    assert(g.iterable_item_added =~= nothing().iterable_item_added);
    assert(g.values_changed =~= nothing().values_changed);
    assert(g == nothing());
}

/// Retagging leaves nothing only of nothing.
proof fn lemma_retag_silent(g: Findings, depth: int, j: int)
    requires
        retagged(g, depth, j) == nothing(),
    ensures
        g == nothing(),
{
    let h: Findings = retagged(g, depth, j);
    assert(h.values_changed.len() == g.values_changed.len());
    assert(h.type_changes.len() == g.type_changes.len());
    assert(g.values_changed =~= nothing().values_changed);
    assert(g.type_changes =~= nothing().type_changes);
    assert(g == nothing());
}

/// A report with one more finding is not empty.
proof fn lemma_with_silent(f: Findings, at: Seq<Seg>)
    requires
        orderly(f),
    ensures
        forall|value: Val| #[trigger] with_item_added(f, at, value) != nothing(),
        forall|value: Val| #[trigger] with_item_removed(f, at, value) != nothing(),
        forall|kind: ObjectKind, value: Val| #[trigger]
            with_removed(f, kind, at, value) != nothing(),
        forall|kind: ObjectKind, value: Val| #[trigger]
            with_added(f, kind, at, value) != nothing(),
        forall|value: Val| orderly(#[trigger] with_item_added(f, at, value)),
        forall|value: Val| orderly(#[trigger] with_item_removed(f, at, value)),
        forall|kind: ObjectKind, value: Val|
            orderly(#[trigger] with_removed(f, kind, at, value)),
        forall|kind: ObjectKind, value: Val|
            orderly(#[trigger] with_added(f, kind, at, value)),
{
    lemma_spot_with(f, at);
    lemma_spot_nothing();
    assert(spot(nothing(), at) == bare());
    assert forall|value: Val| #[trigger] with_item_added(f, at, value) != nothing() by {
        assert(spot(with_item_added(f, at, value), at).item_added is Some);
    }
    assert forall|value: Val| #[trigger] with_item_removed(f, at, value) != nothing() by {
        assert(spot(with_item_removed(f, at, value), at).item_removed is Some);
    }
    assert forall|kind: ObjectKind, value: Val| #[trigger]
        with_removed(f, kind, at, value) != nothing() by {
        let g: Findings = with_removed(f, kind, at, value);
        assert(spot(g, at).dict_removed is Some || spot(g, at).attribute_removed is Some);
    }
    assert forall|kind: ObjectKind, value: Val| #[trigger]
        with_added(f, kind, at, value) != nothing() by {
        let g: Findings = with_added(f, kind, at, value);
        assert(spot(g, at).dict_added is Some || spot(g, at).attribute_added is Some);
    }
}

// ---------------------------------------------------------------------
// Dicts
// ---------------------------------------------------------------------

proof fn lemma_no_news(
    f: Findings,
    path: Seq<Seg>,
    p: ObjectVal,
    q: ObjectVal,
    i: int,
    depth: int,
    max_depth: int,
)
    requires
        orderly(f),
        0 <= i <= q.entries.len(),
        new_entries(f, path, p, q, i, depth, max_depth) == silence(),
    ensures
        f == nothing(),
        forall|j: int|
            #![trigger q.entries[j]]
            i <= j < q.entries.len() ==> lookup(p.entries, q.entries[j].0) is Some,
    decreases q.entries.len() - i,
{
    if i < q.entries.len() {
        let (key, value) = q.entries[i];
        let at: Seq<Seg> = path.push(entry_seg(p.kind, key));
        lemma_with_silent(f, at);
        if lookup(p.entries, key) is Some {
            lemma_no_news(f, path, p, q, i + 1, depth, max_depth);
        } else {
            lemma_no_news(
                with_added(f, p.kind, at, value),
                path,
                p,
                q,
                i + 1,
                depth,
                max_depth,
            );
        }
    }
}

/// One pair of entries is compared, and the others are left to be.
proof fn lemma_entry_step(
    pool: Set<Val>,
    m: MemoVal,
    path: Seq<Seg>,
    p: ObjectVal,
    q: ObjectVal,
    depth: int,
    opts: Rules,
    i: int,
    f: Findings,
    other: Val,
) -> (step: (MemoVal, Findings))
    requires
        plain(Val::Object(p)),
        plain(Val::Object(q)),
        telling(pool),
        pool.contains(Val::Object(p)),
        pool.contains(Val::Object(q)),
        orderly(f),
        0 <= i < p.entries.len(),
        lookup(q.entries, p.entries[i].0) == Some(other),
        entries_of(m, path, p, q, depth, opts, i, f).1 is Ok,
        opts.ignore_order ==> tables(m),
    ensures
        diff_of(
            m,
            path.push(entry_seg(p.kind, p.entries[i].0)),
            p.entries[i].1,
            other,
            depth + 1,
            opts,
        ) == (step.0, Outcome::Ok(step.1)),
        entries_of(m, path, p, q, depth, opts, i, f) == entries_of(
            step.0,
            path,
            p,
            q,
            depth,
            opts,
            i + 1,
            merged(f, step.1),
        ),
        orderly(step.1),
        orderly(merged(f, step.1)),
        plain(p.entries[i].1),
        plain(other),
        pool.contains(p.entries[i].1),
        pool.contains(other),
        opts.ignore_order ==> tables(step.0) && step.0.items.len() <= entries_of(
            m,
            path,
            p,
            q,
            depth,
            opts,
            i,
            f,
        ).0.items.len(),
{
    let (key, value) = p.entries[i];
    let at: Seq<Seg> = path.push(entry_seg(p.kind, key));
    let (n, found) = diff_of(m, at, value, other, depth + 1, opts);
    let g: Findings = found->Ok_0;
    lemma_entry_in(pool, p, i);
    lemma_found_in(pool, q, key, other);
    lemma_plain_found(q, key);
    lemma_found_below(m, at, value, other, depth + 1, opts);
    lemma_spot_merged(f, g);
    if opts.ignore_order {
        lemma_diff_grows(pool, m, at, value, other, depth + 1, opts);
        lemma_entries_grow(pool, n, path, p, q, depth, opts, i + 1, merged(f, g));
    }
    (n, g)
}

/// An entry without its like is recorded, and the others are left to be compared.
proof fn lemma_gone_entry(
    m: MemoVal,
    path: Seq<Seg>,
    p: ObjectVal,
    q: ObjectVal,
    depth: int,
    opts: Rules,
    i: int,
    f: Findings,
)
    requires
        orderly(f),
        0 <= i < p.entries.len(),
        lookup(q.entries, p.entries[i].0) is None,
        entries_of(m, path, p, q, depth, opts, i, f).1 is Ok,
    ensures
        ({
            let at = path.push(entry_seg(p.kind, p.entries[i].0));
            let g = with_removed(f, p.kind, at, p.entries[i].1);
            &&& orderly(g)
            &&& g != nothing()
            &&& entries_of(m, path, p, q, depth, opts, i, f) == entries_of(
                m,
                path,
                p,
                q,
                depth,
                opts,
                i + 1,
                g,
            )
        }),
{
    lemma_with_silent(f, path.push(entry_seg(p.kind, p.entries[i].0)));
}

/// Entries that have nothing between them go together, key by key.
#[verifier::rlimit(50)]
#[verifier::spinoff_prover]
proof fn lemma_entries_silent(
    pool: Set<Val>,
    m: MemoVal,
    path: Seq<Seg>,
    p: ObjectVal,
    q: ObjectVal,
    depth: int,
    opts: Rules,
    i: int,
    f: Findings,
)
    requires
        plain(Val::Object(p)),
        plain(Val::Object(q)),
        telling(pool),
        pool.contains(Val::Object(p)),
        pool.contains(Val::Object(q)),
        orderly(f),
        0 <= i <= p.entries.len(),
        entries_of(m, path, p, q, depth, opts, i, f).1 == silence(),
        opts.ignore_order ==> tables(m) && entries_of(
            m,
            path,
            p,
            q,
            depth,
            opts,
            i,
            f,
        ).0.items.len() <= usize::MAX,
    ensures
        f == nothing(),
        forall|k: int|
            #![trigger p.entries[k]]
            i <= k < p.entries.len() ==> (lookup(q.entries, p.entries[k].0) matches Some(other)
                && unchanged(p.entries[k].1, other, opts.ignore_order)),
        forall|j: int|
            #![trigger q.entries[j]]
            0 <= j < q.entries.len() ==> lookup(p.entries, q.entries[j].0) is Some,
    decreases p, 0int, p.entries.len() - i,
{
    if i < p.entries.len() {
        let (key, value) = p.entries[i];
        let at: Seq<Seg> = path.push(entry_seg(p.kind, key));
        match lookup(q.entries, key) {
            None => {
                let g: Findings = with_removed(f, p.kind, at, value);
                lemma_gone_entry(m, path, p, q, depth, opts, i, f);
                lemma_entries_silent(pool, m, path, p, q, depth, opts, i + 1, g);
            },
            Some(other) => {
                let (n, g) = lemma_entry_step(pool, m, path, p, q, depth, opts, i, f, other);
                lemma_entries_silent(pool, n, path, p, q, depth, opts, i + 1, merged(f, g));
                lemma_merged_silent(f, g);
                lemma_silent(pool, m, at, value, other, depth + 1, opts);
            },
        }
    } else {
        lemma_no_news(f, path, p, q, 0, depth, opts.max_depth as int);
    }
}

/// What stands under a key of a JSON dict is a JSON value.
proof fn lemma_plain_found(q: ObjectVal, key: KeyVal)
    requires
        plain(Val::Object(q)),
        lookup(q.entries, key) is Some,
    ensures
        plain(lookup(q.entries, key)->Some_0),
{
    lemma_lookup(q.entries, key);
    let other: Val = lookup(q.entries, key)->Some_0;
    let j: int = choose|j: int| 0 <= j < q.entries.len() && #[trigger] q.entries[j] == (key, other);
    assert(plain(q.entries[j].1));
}

proof fn lemma_dict_silent(
    pool: Set<Val>,
    m: MemoVal,
    path: Seq<Seg>,
    p: ObjectVal,
    q: ObjectVal,
    depth: int,
    opts: Rules,
)
    requires
        plain(Val::Object(p)),
        plain(Val::Object(q)),
        telling(pool),
        pool.contains(Val::Object(p)),
        pool.contains(Val::Object(q)),
        object_of(m, path, p, q, depth, opts).1 == silence(),
        opts.ignore_order ==> tables(m) && object_of(m, path, p, q, depth, opts).0.items.len()
            <= usize::MAX,
    ensures
        unchanged(Val::Object(p), Val::Object(q), opts.ignore_order),
    decreases p, 1int, 0int,
{
    lemma_with_silent(nothing(), path);
    assert(!has_other_keys(p.entries)) by {
        assert(forall|i: int|
            #![trigger p.entries[i]]
            0 <= i < p.entries.len() ==> p.entries[i].0 is Str);
    }
    assert(!has_other_keys(q.entries)) by {
        assert(forall|i: int|
            #![trigger q.entries[i]]
            0 <= i < q.entries.len() ==> q.entries[i].0 is Str);
    }
    lemma_spot_nothing();
    lemma_entries_silent(pool, m, path, p, q, depth, opts, 0, nothing());
    lemma_keys_agree(p.entries, q.entries);
    assert forall|i: int| #![trigger p.entries[i]] 0 <= i < p.entries.len() implies unchanged(
        p.entries[i].1,
        q.entries[i].1,
        opts.ignore_order,
    ) by {
        assert(ascending::<ObjectKey, Val>(q.entries));
        lemma_lookup_at::<ObjectKey, Val>(q.entries, i);
    }
}

// ---------------------------------------------------------------------
// Lists
// ---------------------------------------------------------------------

/// The first item with the key of one at a position.
proof fn lemma_first_met(n: MemoVal, items: Seq<Val>, i: int) -> (first: int)
    requires
        0 <= i < items.len(),
    ensures
        0 <= first <= i,
        key_of(n, items[first]) == key_of(n, items[i]),
        met_first(n, items, first),
    decreases i,
{
    if met_first(n, items, i) {
        i
    } else {
        let k: int = choose|k: int|
            0 <= k < i && key_of(n, #[trigger] items[k]) == key_of(n, items[i]);
        lemma_first_met(n, items, k)
    }
}

/// Whether a removed item is the partner of an added one.
spec fn taken(partners: Partners, s: int) -> bool {
    consumed(partners, s as usize)
}

proof fn lemma_leftover_silent(
    f: Findings,
    path: Seq<Seg>,
    lists: Lists,
    partners: Partners,
    r: int,
)
    requires
        orderly(f),
        0 <= r,
        lists.removed.len() <= usize::MAX,
        leftover(f, path, lists.old, lists.first, lists.removed, partners, r) == nothing(),
    ensures
        f == nothing(),
        forall|s: int| r <= s < lists.removed.len() ==> #[trigger] taken(partners, s),
    decreases lists.removed.len() - r,
{
    if r < lists.removed.len() {
        let i: int = removed_at(lists, r);
        let at: Seq<Seg> = item_path(path, i);
        lemma_with_silent(f, at);
        if taken(partners, r) {
            lemma_leftover_silent(f, path, lists, partners, r + 1);
        } else {
            lemma_leftover_silent(
                with_item_removed(f, at, lists.old[i]),
                path,
                lists,
                partners,
                r + 1,
            );
        }
    }
}

/// One pair is compared, and the others are left to be.
proof fn lemma_pair_step(
    pool: Set<Val>,
    m: MemoVal,
    path: Seq<Seg>,
    lists: Lists,
    partners: Partners,
    depth: int,
    opts: Rules,
    k: int,
    f: Findings,
) -> (step: (MemoVal, Findings, Findings))
    requires
        tables(m),
        telling(pool),
        ranged(lists, pool),
        opts.ignore_order,
        orderly(f),
        0 <= k < lists.added.len(),
        partners[k] is Some,
        partners[k]->Some_0.0 < lists.removed.len(),
        pairs_found(m, path, lists, partners, depth, opts, k, f).1 is Ok,
    ensures
        diff_of(
            m,
            item_path(path, removed_at(lists, partners[k]->Some_0.0 as int)),
            lists.old[removed_at(lists, partners[k]->Some_0.0 as int)],
            lists.new[added_at(lists, k)],
            depth,
            opts,
        ) == (step.0, Outcome::Ok(step.1)),
        pairs_found(m, path, lists, partners, depth, opts, k, f) == pairs_found(
            step.0,
            path,
            lists,
            partners,
            depth,
            opts,
            k + 1,
            merged(f, step.2),
        ),
        orderly(step.2),
        orderly(merged(f, step.2)),
        step.2 == nothing() ==> step.1 == nothing(),
        tables(step.0),
        step.0.items.len() <= pairs_found(
            m,
            path,
            lists,
            partners,
            depth,
            opts,
            k,
            f,
        ).0.items.len(),
{
    let i: int = removed_at(lists, partners[k]->Some_0.0 as int);
    let j: int = added_at(lists, k);
    assert(0 <= removed_at(lists, partners[k]->Some_0.0 as int) < lists.old.len());
    assert(0 <= added_at(lists, k) < lists.new.len());
    let at: Seq<Seg> = item_path(path, i);
    let (n, found) = diff_of(m, at, lists.old[i], lists.new[j], depth, opts);
    let g: Findings = found->Ok_0;
    let own: Findings = mutual_merged(g);
    let more: Findings = if i != j {
        retagged(own, path.len() as int, j)
    } else {
        own
    };
    lemma_found_below(m, at, lists.old[i], lists.new[j], depth, opts);
    lemma_mutual_within(g, at);
    lemma_retagged_within(own, path.len() as int, j, at);
    lemma_spot_merged(f, more);
    lemma_diff_grows(pool, m, at, lists.old[i], lists.new[j], depth, opts);
    lemma_found_grows(pool, n, path, lists, partners, depth, opts, k + 1, merged(f, more));
    if more == nothing() {
        if i != j {
            lemma_retag_silent(own, path.len() as int, j);
        }
        lemma_mutual_silent(g);
    }
    (n, g, more)
}

/// An added item is recorded, and the pairs behind it are left to be compared.
proof fn lemma_come_item(
    m: MemoVal,
    path: Seq<Seg>,
    lists: Lists,
    partners: Partners,
    depth: int,
    opts: Rules,
    k: int,
    f: Findings,
)
    requires
        orderly(f),
        0 <= k < lists.added.len(),
        partners[k] is None,
    ensures
        ({
            let j = added_at(lists, k);
            let g = with_item_added(f, item_path(path, j), lists.new[j]);
            &&& orderly(g)
            &&& g != nothing()
            &&& pairs_found(m, path, lists, partners, depth, opts, k, f) == pairs_found(
                m,
                path,
                lists,
                partners,
                depth,
                opts,
                k + 1,
                g,
            )
        }),
{
    lemma_with_silent(f, item_path(path, added_at(lists, k)));
}

/// Pairs that have nothing between them are pairs of like items, and no item is left.
#[verifier::rlimit(50)]
#[verifier::spinoff_prover]
proof fn lemma_pairs_silent(
    pool: Set<Val>,
    m: MemoVal,
    path: Seq<Seg>,
    lists: Lists,
    partners: Partners,
    depth: int,
    opts: Rules,
    k: int,
    f: Findings,
)
    requires
        tables(m),
        telling(pool),
        ranged(lists, pool),
        opts.ignore_order,
        forall|i: int| 0 <= i < lists.old.len() ==> plain(#[trigger] lists.old[i]),
        forall|j: int| 0 <= j < lists.new.len() ==> plain(#[trigger] lists.new[j]),
        lists.removed.len() <= usize::MAX,
        partners.len() == lists.added.len(),
        forall|k: int|
            0 <= k < partners.len() ==> ((#[trigger] partners[k]) matches Some(p) ==> p.0
                < lists.removed.len()),
        orderly(f),
        0 <= k <= lists.added.len(),
        pairs_found(m, path, lists, partners, depth, opts, k, f).1 == silence(),
        pairs_found(m, path, lists, partners, depth, opts, k, f).0.items.len() <= usize::MAX,
    ensures
        f == nothing(),
        forall|l: int|
            k <= l < partners.len() ==> ((#[trigger] partners[l]) matches Some(p) && alike(
                lists.old[removed_at(lists, p.0 as int)],
                lists.new[added_at(lists, l)],
            )),
        forall|s: int| 0 <= s < lists.removed.len() ==> #[trigger] taken(partners, s),
    decreases lists.old, 1int, lists.added.len() - k,
{
    if k < lists.added.len() {
        let j: int = added_at(lists, k);
        assert(0 <= added_at(lists, k) < lists.new.len());
        match partners[k] {
            None => {
                let g: Findings = with_item_added(f, item_path(path, j), lists.new[j]);
                lemma_come_item(m, path, lists, partners, depth, opts, k, f);
                lemma_pairs_silent(pool, m, path, lists, partners, depth, opts, k + 1, g);
            },
            Some(p) => {
                let i: int = removed_at(lists, p.0 as int);
                let at: Seq<Seg> = item_path(path, i);
                let (n, g, more) = lemma_pair_step(
                    pool,
                    m,
                    path,
                    lists,
                    partners,
                    depth,
                    opts,
                    k,
                    f,
                );
                lemma_pairs_silent(
                    pool,
                    n,
                    path,
                    lists,
                    partners,
                    depth,
                    opts,
                    k + 1,
                    merged(f, more),
                );
                lemma_merged_silent(f, more);
                lemma_silent(pool, m, at, lists.old[i], lists.new[j], depth, opts);
            },
        }
    } else {
        lemma_leftover_silent(f, path, lists, partners, 0);
    }
}

/// Where all items of a list that are first of their key are matched, every item has one
/// with its key in the other.
proof fn lemma_all_matched(n: MemoVal, x: Seq<Val>, y: Seq<Val>, i: int) -> (j: int)
    requires
        0 <= i < x.len(),
        forall|k: int| !#[trigger] unmatched_at(n, x, y, k),
    ensures
        0 <= j < y.len(),
        key_of(n, y[j]) == key_of(n, x[i]),
{
    let first: int = lemma_first_met(n, x, i);
    assert(!unmatched_at(n, x, y, first));
    choose|j: int| 0 <= j < y.len() && key_of(n, #[trigger] y[j]) == key_of(n, x[first])
}

proof fn lemma_list_silent(
    pool: Set<Val>,
    m: MemoVal,
    path: Seq<Seg>,
    x: Seq<Val>,
    y: Seq<Val>,
    depth: int,
    opts: Rules,
)
    requires
        tables(m),
        telling(pool),
        all_in(x, pool),
        all_in(y, pool),
        forall|i: int| 0 <= i < x.len() ==> plain(#[trigger] x[i]),
        forall|j: int| 0 <= j < y.len() ==> plain(#[trigger] y[j]),
        opts.ignore_order,
        unordered_of(m, path, x, y, depth, opts).1 == silence(),
        unordered_of(m, path, x, y, depth, opts).0.items.len() <= usize::MAX,
    ensures
        alike(Val::Array(x), Val::Array(y)),
    decreases x, 6int, 0int,
{
    let n: MemoVal = numbered(m, x, y);
    let lists: Lists = lists_of(m, x, y).1;
    lemma_lone(m, x, y);
    lemma_lists_grow(pool, m, x, y);
    lemma_pairs_grow(pool, n, lists, depth, opts);
    lemma_nearest_go_together(n, lists, depth, opts);
    lemma_grows_same(n);
    let (after, partners): (MemoVal, Partners) = if pairable(
        lists.added.len(),
        lists.removed.len(),
        lists.first.keys.len(),
        lists.second.keys.len(),
    ) {
        pairs_of(n, lists, depth, opts)
    } else {
        (n, unpaired(lists.added.len()))
    };
    assert(unordered_of(m, path, x, y, depth, opts) == pairs_found(
        after,
        path,
        lists,
        partners,
        depth,
        opts,
        0,
        nothing(),
    ));
    let end: MemoVal = unordered_of(m, path, x, y, depth, opts).0;
    lemma_spot_nothing();
    lemma_found_grows(pool, after, path, lists, partners, depth, opts, 0, nothing());
    lemma_grows(n, after, end);
    assert(n.items.len() <= end.items.len());
    lemma_pairs_silent(pool, after, path, lists, partners, depth, opts, 0, nothing());
    if lists.added.len() > 0 {
        let i: int = removed_at(lists, partners[0]->Some_0.0 as int);
        let j: int = added_at(lists, 0);
        assert(unmatched_at(n, y, x, added_at(lists, 0)));
        assert(partners[0] is Some);
        assert(0 <= removed_at(lists, partners[0]->Some_0.0 as int) < lists.old.len());
        lemma_key_tells(n, x[i], y[j]);
        assert(key_of(n, x[i]) == key_of(n, y[j]));
        assert(has_match(n, x, y[j]));
    }
    if lists.removed.len() > 0 {
        assert(taken(partners, 0));
    }
    assert forall|k: int| !#[trigger] unmatched_at(n, x, y, k) by {}
    assert forall|k: int| !#[trigger] unmatched_at(n, y, x, k) by {}
    assert forall|i: int| 0 <= i < x.len() implies like_one(#[trigger] x[i], y) by {
        let j: int = lemma_all_matched(n, x, y, i);
        lemma_key_tells(n, x[i], y[j]);
    }
    assert forall|j: int| 0 <= j < y.len() implies one_like(x, #[trigger] y[j]) by {
        let i: int = lemma_all_matched(n, y, x, j);
        lemma_key_tells(n, x[i], y[j]);
    }
    lemma_like_items(x, y);
}

/// What is shown of two values by a report that is empty is nothing.
proof fn lemma_shown_silent(at: Seq<Seg>, a: Val, b: Val, depth: int, opts: Rules) -> (n: MemoVal)
    requires
        shows(nothing(), at, a, b, depth, opts),
    ensures
        diff_of(n, at, a, b, depth, opts).1 == silence(),
{
    let n: MemoVal = choose|n: MemoVal|
        (#[trigger] diff_of(n, at, a, b, depth, opts)).1 matches Ok(g) && same_below(
            nothing(),
            g,
            at,
        );
    let g: Findings = diff_of(n, at, a, b, depth, opts).1->Ok_0;
    lemma_found_below(n, at, a, b, depth, opts);
    lemma_spot_nothing();
    assert forall|q: Seq<Seg>| #[trigger] spot(g, q) == spot(nothing(), q) by {
        lemma_spot_within(g, at, q);
        if at.is_prefix_of(q) {
            assert(spot(nothing(), q) == spot(g, q));
        }
    }
    lemma_spots_identify(g, nothing());
    n
}

/// How lists are compared.
proof fn lemma_list_diff(
    m: MemoVal,
    path: Seq<Seg>,
    x: Seq<Val>,
    y: Seq<Val>,
    depth: int,
    opts: Rules,
)
    requires
        opts.ignore_order,
        diff_of(m, path, Val::Array(x), Val::Array(y), depth, opts).1 is Ok,
    ensures
        diff_of(m, path, Val::Array(x), Val::Array(y), depth, opts) == unordered_of(
            m,
            path,
            x,
            y,
            depth,
            opts,
        ),
{
    assert(diff_of(m, path, Val::Array(x), Val::Array(y), depth, opts) == array_of(
        m,
        path,
        x,
        y,
        depth,
        opts,
    ));
}

/// How JSON dicts are compared.
proof fn lemma_dict_diff(
    m: MemoVal,
    path: Seq<Seg>,
    p: ObjectVal,
    q: ObjectVal,
    depth: int,
    opts: Rules,
)
    requires
        plain(Val::Object(p)),
        plain(Val::Object(q)),
        diff_of(m, path, Val::Object(p), Val::Object(q), depth, opts).1 is Ok,
    ensures
        diff_of(m, path, Val::Object(p), Val::Object(q), depth, opts) == object_of(
            m,
            path,
            p,
            q,
            depth,
            opts,
        ),
{
    lemma_step(opts, opts, Val::Object(p), Val::Object(q));
    assert(object_step(opts, Val::Object(p), Val::Object(q)) == Step::Walk(p, q));
}

/// Two values and what they hold that have nothing between them are unchanged.
proof fn lemma_silent(
    pool: Set<Val>,
    m: MemoVal,
    path: Seq<Seg>,
    a: Val,
    b: Val,
    depth: int,
    opts: Rules,
)
    requires
        plain(a),
        plain(b),
        telling(pool),
        pool.contains(a),
        pool.contains(b),
        diff_of(m, path, a, b, depth, opts).1 == silence(),
        opts.ignore_order ==> tables(m) && diff_of(m, path, a, b, depth, opts).0.items.len()
            <= usize::MAX,
    ensures
        unchanged(a, b, opts.ignore_order),
    decreases a, 9int, 0int,
{
    match (a, b) {
        (Val::Array(x), Val::Array(y)) => {
            lemma_all_in(pool, a);
            lemma_all_in(pool, b);
            if opts.ignore_order {
                lemma_list_diff(m, path, x, y, depth, opts);
                lemma_list_silent(pool, m, path, x, y, depth, opts);
            } else {
                lemma_ordered_silent(pool, m, path, x, y, depth, opts);
            }
        },
        (Val::Object(p), Val::Object(q)) => {
            lemma_dict_diff(m, path, p, q, depth, opts);
            lemma_dict_silent(pool, m, path, p, q, depth, opts);
        },
        _ => lemma_scalar_silent(m, path, a, b, depth, opts),
    }
}

/// Scalars that have nothing between them are one, and values of two kinds have a
/// change between them.
proof fn lemma_scalar_silent(
    m: MemoVal,
    path: Seq<Seg>,
    a: Val,
    b: Val,
    depth: int,
    opts: Rules,
)
    requires
        plain(a),
        plain(b),
        !(a is Array && b is Array),
        !(a is Object && b is Object),
        diff_of(m, path, a, b, depth, opts).1 == silence(),
    ensures
        a == b,
        alike(a, b),
        indistinct(a, b),
{
    lemma_spot_nothing();
    lemma_spot_with(nothing(), path);
    assert forall|change: ValueChange| #[trigger]
        with_value_change(nothing(), path, change) != nothing() by {
        assert(spot(
            with_value_change(nothing(), path, change),
            path,
        ).value_change is Some);
        assert(spot(nothing(), path) == bare());
    }
    assert forall|change: TypeChange| #[trigger]
        with_type_change(nothing(), path, change) != nothing() by {
        assert(spot(
            with_type_change(nothing(), path, change),
            path,
        ).type_change is Some);
        assert(spot(nothing(), path) == bare());
    }
    match (a, b) {
        (Val::Number(x), Val::Number(y)) => {
            lemma_plain_equal(a, b);
        },
        _ => {
            if a is Object || b is Object {
                lemma_step(opts, opts, a, b);
                assert(object_step(opts, a, b) is TypeChange);
            }
        },
    }
    lemma_alike(a);
}

/// Two lists of which nothing is told position by position are of one length, and their
/// items have nothing between them.
proof fn lemma_positions_silent(
    path: Seq<Seg>,
    x: Seq<Val>,
    y: Seq<Val>,
    depth: int,
    opts: Rules,
)
    requires
        by_position(nothing(), path, x, y, depth, opts),
    ensures
        x.len() == y.len(),
        forall|i: int|
            0 <= i < x.len() ==> shows(
                nothing(),
                path.push(Seg::Index(i)),
                #[trigger] x[i],
                y[i],
                depth + 1,
                opts,
            ),
{
    lemma_spot_nothing();
    if x.len() != y.len() {
        let k: int = if x.len() < y.len() {
            x.len() as int
        } else {
            y.len() as int
        };
        let at: Seq<Seg> = path.push(Seg::Index(k));
        assert(at.is_prefix_of(at));
        assert(spot(nothing(), at) == bare());
        if x.len() < y.len() {
            assert(sole(nothing(), at, come(y[k])));
        } else {
            assert(sole(nothing(), at, gone(x[k])));
        }
    }
}

/// Lists of scalars that have nothing between them are of one length, and their items
/// are not told apart.
proof fn lemma_basic_silent(
    m: MemoVal,
    path: Seq<Seg>,
    x: Seq<Val>,
    y: Seq<Val>,
    depth: int,
    opts: Rules,
)
    requires
        plain(Val::Array(x)),
        plain(Val::Array(y)),
        all_basic(x),
        all_basic(y),
        !opts.ignore_order,
        diff_of(m, path, Val::Array(x), Val::Array(y), depth, opts).1 == silence(),
    ensures
        indistinct(Val::Array(x), Val::Array(y)),
{
    let common: Findings = lemma_scalar_lists(
        m,
        path,
        Val::Array(x),
        Val::Array(y),
        x,
        y,
        depth,
        opts,
        nothing(),
    );
    if common == nothing() {
        lemma_common_silent(path, x, y, depth, opts.max_depth as int);
    } else {
        lemma_basic_positions(path, x, y, depth, opts);
    }
}

proof fn lemma_common_silent(path: Seq<Seg>, x: Seq<Val>, y: Seq<Val>, depth: int, limit: int)
    requires
        all_basic(x),
        all_basic(y),
        lcs_outcome(path, x, y, depth, limit) == silence(),
    ensures
        indistinct(Val::Array(x), Val::Array(y)),
{
    lemma_silent_scalars(path, x, y, depth, limit);
}

proof fn lemma_basic_positions(path: Seq<Seg>, x: Seq<Val>, y: Seq<Val>, depth: int, opts: Rules)
    requires
        plain(Val::Array(x)),
        plain(Val::Array(y)),
        all_basic(x),
        all_basic(y),
        by_position(nothing(), path, x, y, depth, opts),
    ensures
        indistinct(Val::Array(x), Val::Array(y)),
{
    lemma_positions_silent(path, x, y, depth, opts);
    assert forall|i: int| 0 <= i < x.len() implies indistinct(#[trigger] x[i], y[i]) by {
        let at: Seq<Seg> = path.push(Seg::Index(i));
        lemma_plain_items(x, i);
        lemma_plain_items(y, i);
        assert(basic(x[i]) && basic(y[i]));
        let n: MemoVal = lemma_shown_silent(at, x[i], y[i], depth + 1, opts);
        lemma_scalar_silent(n, at, x[i], y[i], depth + 1, opts);
    }
}

/// An item of a JSON list is a JSON value.
proof fn lemma_plain_items(x: Seq<Val>, i: int)
    requires
        plain(Val::Array(x)),
        0 <= i < x.len(),
    ensures
        plain(x[i]),
{
}

proof fn lemma_ordered_silent(
    pool: Set<Val>,
    m: MemoVal,
    path: Seq<Seg>,
    x: Seq<Val>,
    y: Seq<Val>,
    depth: int,
    opts: Rules,
)
    requires
        plain(Val::Array(x)),
        plain(Val::Array(y)),
        telling(pool),
        all_in(x, pool),
        all_in(y, pool),
        !opts.ignore_order,
        diff_of(m, path, Val::Array(x), Val::Array(y), depth, opts).1 == silence(),
    ensures
        indistinct(Val::Array(x), Val::Array(y)),
    decreases x, 6int, 0int,
{
    let a: Val = Val::Array(x);
    let b: Val = Val::Array(y);
    if all_basic(x) && all_basic(y) {
        lemma_basic_silent(m, path, x, y, depth, opts);
    } else {
        lemma_by_position(m, path, a, b, x, y, depth, opts, nothing());
        lemma_positions_silent(path, x, y, depth, opts);
        assert forall|i: int| 0 <= i < x.len() implies indistinct(#[trigger] x[i], y[i]) by {
            let at: Seq<Seg> = path.push(Seg::Index(i));
            let n: MemoVal = lemma_shown_silent(at, x[i], y[i], depth + 1, opts);
            lemma_plain_items(x, i);
            lemma_plain_items(y, i);
            lemma_silent(pool, n, at, x[i], y[i], depth + 1, opts);
        }
    }
}

// ---------------------------------------------------------------------
// The law
// ---------------------------------------------------------------------

/// A comparison of JSON values that finds nothing is one of values that are unchanged.
/// In order, they are the same, but for scalars in lists of scalars that Python calls
/// equal; without order, they are alike: at every level, each item of either list is
/// alike to one of the other. The tables hold no more items than numbers reach.
pub proof fn lemma_silence_tells(m: MemoVal, path: Seq<Seg>, a: Val, b: Val, depth: int, opts: Rules)
    requires
        plain(a),
        plain(b),
        diff_of(m, path, a, b, depth, opts).1 == silence(),
        opts.ignore_order ==> tables(m) && diff_of(m, path, a, b, depth, opts).0.items.len()
            <= usize::MAX,
    ensures
        unchanged(a, b, opts.ignore_order),
{
    lemma_parts(a, b);
    lemma_plain_told_apart(a, b);
    lemma_silent(parts_of(a, b), m, path, a, b, depth, opts);
}

/// A report of JSON values is empty only if they are unchanged.
pub proof fn lemma_empty_comparison(m: MemoVal, a: Val, b: Val, opts: Rules)
    requires
        plain(a),
        plain(b),
        comparison(m, a, b, opts).1 == silence(),
        opts.ignore_order ==> tables(m) && comparison(m, a, b, opts).0.items.len() <= usize::MAX,
    ensures
        unchanged(a, b, opts.ignore_order),
{
    if same_value(a, b) {
        lemma_plain_equal(a, b);
        lemma_alike(a);
        lemma_indistinct(a);
    } else {
        let f: Findings = diff_of(m, seq![], a, b, 0, opts).1->Ok_0;
        lemma_found_below(m, seq![], a, b, 0, opts);
        lemma_mutual_silent(f);
        lemma_silence_tells(m, seq![], a, b, 0, opts);
    }
}

/// A value is the same as itself.
proof fn lemma_indistinct(a: Val)
    ensures
        indistinct(a, a),
    decreases a,
{
    match a {
        Val::Array(x) => {
            assert forall|i: int| 0 <= i < x.len() implies indistinct(#[trigger] x[i], x[i]) by {
                lemma_indistinct(x[i]);
            }
        },
        Val::Object(p) => {
            assert forall|i: int|
                #![trigger p.entries[i]]
                0 <= i < p.entries.len() implies indistinct(p.entries[i].1, p.entries[i].1) by {
                lemma_indistinct(p.entries[i].1);
            }
        },
        _ => {},
    }
}

/// Scalars that have nothing between them are not told apart.
proof fn lemma_silent_pair(m: MemoVal, path: Seq<Seg>, a: Val, b: Val, depth: int, opts: Rules)
    requires
        basic(a),
        basic(b),
        diff_of(m, path, a, b, depth, opts).1 == silence(),
    ensures
        not_told_apart(a, b),
{
    lemma_spot_nothing();
    assert(spot(nothing(), path) == bare());
    if same_class(a, b) {
        lemma_scalar_change(m, path, a, b, depth, opts, nothing());
        match (a, b) {
            (Val::DateTime(x), Val::DateTime(y)) => {
                assert(x.spec_to_utc() is Some);
            },
            _ => lemma_stricter_than_python(a, b),
        }
    } else {
        lemma_type_change(m, path, a, b, depth, opts, nothing());
    }
}

/// Two lists or tuples of scalars have nothing between them in order only if they are of
/// one length and Python calls the items at each position equal, or they are datetimes
/// of one instant.
pub proof fn lemma_silent_lists(
    m: MemoVal,
    path: Seq<Seg>,
    a: Val,
    b: Val,
    x: Seq<Val>,
    y: Seq<Val>,
    depth: int,
    opts: Rules,
)
    requires
        (a == Val::Array(x) && b == Val::Array(y)) || (a == Val::Tuple(x) && b == Val::Tuple(y)),
        !opts.ignore_order,
        all_basic(x),
        all_basic(y),
        diff_of(m, path, a, b, depth, opts).1 == silence(),
    ensures
        x.len() == y.len(),
        forall|i: int| 0 <= i < x.len() ==> not_told_apart(#[trigger] x[i], y[i]),
{
    let common: Findings = lemma_scalar_lists(m, path, a, b, x, y, depth, opts, nothing());
    if common == nothing() {
        lemma_silent_scalars(path, x, y, depth, opts.max_depth as int);
    } else {
        lemma_positions_silent(path, x, y, depth, opts);
        assert forall|i: int| 0 <= i < x.len() implies not_told_apart(#[trigger] x[i], y[i]) by {
            let at: Seq<Seg> = path.push(Seg::Index(i));
            assert(basic(x[i]) && basic(y[i]));
            let n: MemoVal = lemma_shown_silent(at, x[i], y[i], depth + 1, opts);
            lemma_silent_pair(n, at, x[i], y[i], depth + 1, opts);
        }
    }
}

} // verus!
