//! Without order, neither what a memo remembers nor a limit that is wide enough
//! changes a report.

use vstd::prelude::*;

#[allow(unused_imports)]
use super::depth::{height, heights, lemma_child_height};
#[allow(unused_imports)]
use super::equality::same_value;
#[allow(unused_imports)]
use super::lists::{item_path, items_failure};
#[allow(unused_imports)]
use super::model::{
    added_at, array_of, below, candidates_of, diff_of, distance_of, entries_of, failure_token,
    held_items, leaves_between, leaves_between_entries, leaves_between_lists,
    leaves_between_objects, leaves_between_sets, lemma_step, lists_of, lone_entries, mixed_of,
    new_entries, object_of, object_step, pairable, pairs_found, pairs_of, removed_at, rough_of,
    token, tokens_kept, unordered_of, with_added, with_removed, Lists, Step,
};
#[allow(unused_imports)]
use super::options::{comparison, Rules};
#[allow(unused_imports)]
use super::scalar::{room, Outcome};
#[allow(unused_imports)]
use super::set::{member_path, members_outcome, set_outcome};
#[allow(unused_imports)]
use crate::ignore_order::candidates::{
    unpaired, Candidate, Partners, Ranking, CUTOFF_DISTANCE_FOR_PAIRS,
};
#[allow(unused_imports)]
use crate::ignore_order::dict_keys::{has_other_keys, lemma_partner, low_overlap, partner};
#[allow(unused_imports)]
use crate::ignore_order::hash::{hashed, lacking, HashedVal};
#[allow(unused_imports)]
use crate::ignore_order::identified::{lemma_plain_equal, plain};
#[allow(unused_imports)]
use crate::ignore_order::keys::PairKey;
#[allow(unused_imports)]
use crate::ignore_order::length::leaves;
#[allow(unused_imports)]
use crate::ignore_order::members::{members_of, reps, set_changes, unmatched};
#[allow(unused_imports)]
use crate::ignore_order::memo::{
    container, fresh, held_from, known, with_distance, with_held, MemoVal,
};
#[allow(unused_imports)]
use crate::ignore_order::numeric::measures;
#[allow(unused_imports)]
use crate::ignore_order::rearranged::{beside, extends, lemma_extends, lemma_same, tables};
#[allow(unused_imports)]
use crate::ignore_order::replayed::{
    followed, lemma_first_step, lemma_hashed_grows, lemma_hashed_linked, lemma_linked,
    lemma_sets_grow, lemma_sets_linked, linked, same_tables,
};
#[allow(unused_imports)]
use crate::intern::slot;
#[allow(unused_imports)]
use crate::order::{lemma_lookup, lookup};
#[allow(unused_imports)]
use crate::path::{entry_seg, key_seg, Seg};
#[allow(unused_imports)]
use crate::report::{
    finding_leaves, merged, mutual_merged, nothing, retagged, with_dict_added, with_dict_removed,
    with_item_added, with_set_added, with_set_removed, Findings,
};
#[allow(unused_imports)]
use crate::value::{KeyVal, ObjectVal, Val};
#[allow(unused_imports)]
use crate::walk::children;

verus! {

// ---------------------------------------------------------------------
// The values of a comparison
// ---------------------------------------------------------------------

/// Whether a value is another or is held by it, at any depth.
pub open spec fn part_of(part: Val, whole: Val) -> bool
    decreases whole,
{
    part == whole || match whole {
        Val::Array(items) => exists|i: int|
            0 <= i < items.len() && part_of(part, #[trigger] items[i]),
        Val::Tuple(items) => exists|i: int|
            0 <= i < items.len() && part_of(part, #[trigger] items[i]),
        Val::MutableSet(items) => exists|i: int|
            0 <= i < items.len() && part_of(part, #[trigger] items[i]),
        Val::FrozenSet(items) => exists|i: int|
            0 <= i < items.len() && part_of(part, #[trigger] items[i]),
        Val::Object(object) => exists|i: int|
            #![trigger object.entries[i]]
            0 <= i < object.entries.len() && part_of(part, object.entries[i].1),
        _ => false,
    }
}

/// Two values and all that they hold.
pub open spec fn parts_of(a: Val, b: Val) -> Set<Val> {
    Set::new(|part: Val| part_of(part, a) || part_of(part, b))
}

/// Whether a list or a set has no more items than numbers reach.
pub open spec fn sized(value: Val) -> bool {
    value is Object || children(value).len() <= usize::MAX
}

/// Whether values hold no tokens, and no two of them are equal without being one and
/// the same: as the two zeros are, or datetimes of one instant with two offsets.
pub open spec fn told_apart(pool: Set<Val>) -> bool {
    &&& forall|v: Val| #[trigger] pool.contains(v) ==> !token(v) && sized(v)
    &&& forall|v: Val, w: Val|
        pool.contains(v) && pool.contains(w) && #[trigger] same_value(v, w) ==> v == w
}

/// Whether values hold only one another.
pub open spec fn closed_under(pool: Set<Val>) -> bool {
    forall|v: Val, i: int|
        pool.contains(v) && 0 <= i < children(v).len() ==> pool.contains(
            #[trigger] children(v)[i],
        )
}

/// Whether values hold only one another and are told apart.
pub open spec fn telling(pool: Set<Val>) -> bool {
    closed_under(pool) && told_apart(pool)
}

/// What a part of a value holds is a part of it.
proof fn lemma_part(part: Val, whole: Val, i: int)
    requires
        part_of(part, whole),
        0 <= i < children(part).len(),
    ensures
        part_of(children(part)[i], whole),
    decreases whole,
{
    let inner: Val = children(part)[i];
    if part == whole {
        match whole {
            Val::Object(object) => {
                assert(object.entries[i].1 == inner);
                assert(part_of(inner, object.entries[i].1));
            },
            Val::Array(items) | Val::Tuple(items) | Val::MutableSet(items) | Val::FrozenSet(
                items,
            ) => {
                assert(part_of(inner, items[i]));
            },
            _ => {},
        }
    } else {
        match whole {
            Val::Object(object) => {
                let k: int = choose|k: int|
                    #![trigger object.entries[k]]
                    0 <= k < object.entries.len() && part_of(part, object.entries[k].1);
                lemma_part(part, object.entries[k].1, i);
            },
            Val::Array(items) | Val::Tuple(items) | Val::MutableSet(items) | Val::FrozenSet(
                items,
            ) => {
                let k: int = choose|k: int|
                    0 <= k < items.len() && part_of(part, #[trigger] items[k]);
                lemma_part(part, items[k], i);
            },
            _ => {},
        }
    }
}

/// Two values and all that they hold hold only one another.
pub proof fn lemma_parts(a: Val, b: Val)
    ensures
        closed_under(parts_of(a, b)),
        parts_of(a, b).contains(a),
        parts_of(a, b).contains(b),
{
    let pool: Set<Val> = parts_of(a, b);
    assert forall|v: Val, i: int|
        pool.contains(v) && 0 <= i < children(v).len() implies pool.contains(
        #[trigger] children(v)[i],
    ) by {
        if part_of(v, a) {
            lemma_part(v, a, i);
        } else {
            lemma_part(v, b, i);
        }
    }
}

/// The parts of a value as JSON has them are such values.
proof fn lemma_plain_part(part: Val, whole: Val)
    requires
        part_of(part, whole),
        plain(whole),
    ensures
        plain(part),
    decreases whole,
{
    if part != whole {
        match whole {
            Val::Object(object) => {
                let k: int = choose|k: int|
                    #![trigger object.entries[k]]
                    0 <= k < object.entries.len() && part_of(part, object.entries[k].1);
                lemma_plain_part(part, object.entries[k].1);
            },
            Val::Array(items) => {
                let k: int = choose|k: int|
                    0 <= k < items.len() && part_of(part, #[trigger] items[k]);
                lemma_plain_part(part, items[k]);
            },
            _ => {},
        }
    }
}

/// Values as JSON has them, without a negative zero, are told apart.
pub proof fn lemma_plain_told_apart(a: Val, b: Val)
    requires
        plain(a),
        plain(b),
    ensures
        told_apart(parts_of(a, b)),
{
    let pool: Set<Val> = parts_of(a, b);
    assert forall|v: Val| #[trigger] pool.contains(v) implies plain(v) by {
        if part_of(v, a) {
            lemma_plain_part(v, a);
        } else {
            lemma_plain_part(v, b);
        }
    }
    assert forall|v: Val, w: Val|
        pool.contains(v) && pool.contains(w) && #[trigger] same_value(v, w) implies v == w by {
        lemma_plain_equal(v, w);
    }
}

/// Whether several values are among those of a comparison.
pub open spec fn all_in(items: Seq<Val>, pool: Set<Val>) -> bool {
    items.len() <= usize::MAX && forall|i: int|
        0 <= i < items.len() ==> pool.contains(#[trigger] items[i])
}

/// What a value holds is among the values of a comparison.
pub proof fn lemma_all_in(pool: Set<Val>, value: Val)
    requires
        telling(pool),
        pool.contains(value),
        !(value is Object),
    ensures
        all_in(children(value), pool),
{
    assert forall|i: int| 0 <= i < children(value).len() implies pool.contains(
        #[trigger] children(value)[i],
    ) by {}
}

/// The value of an entry is among the values of a comparison.
pub proof fn lemma_entry_in(pool: Set<Val>, p: ObjectVal, i: int)
    requires
        telling(pool),
        pool.contains(Val::Object(p)),
        0 <= i < p.entries.len(),
    ensures
        pool.contains(p.entries[i].1),
        height(p.entries[i].1) < height(Val::Object(p)),
{
    let value: Val = Val::Object(p);
    assert(children(value)[i] == p.entries[i].1);
    lemma_child_height(value, i);
}

/// The value under a key is among those of the comparison.
pub proof fn lemma_found_in(pool: Set<Val>, q: ObjectVal, key: KeyVal, other: Val)
    requires
        telling(pool),
        pool.contains(Val::Object(q)),
        lookup(q.entries, key) == Some(other),
    ensures
        pool.contains(other),
        height(other) < height(Val::Object(q)),
{
    lemma_lookup(q.entries, key);
    let j: int = choose|j: int| 0 <= j < q.entries.len() && #[trigger] q.entries[j] == (key, other);
    lemma_entry_in(pool, q, j);
}

// ---------------------------------------------------------------------
// What is remembered grows
// ---------------------------------------------------------------------

/// Whether a memo remembers all that an earlier one did; one that is not to
/// remember distances remembers no more of them.
pub open spec fn grows(m: MemoVal, n: MemoVal) -> bool {
    &&& extends(m, n)
    &&& m.held.is_prefix_of(n.held)
    &&& m.enabled == n.enabled
    &&& !m.enabled ==> m.pairs == n.pairs && m.distances == n.distances
}

/// Nothing is forgotten where nothing happens.
pub proof fn lemma_grows_same(m: MemoVal)
    ensures
        grows(m, m),
{
    lemma_same(m);
    assert(m.held =~= m.held.subrange(0, m.held.len() as int));
}

proof fn lemma_grows_beside(m: MemoVal, n: MemoVal)
    requires
        extends(m, n),
        beside(m, n),
    ensures
        grows(m, n),
{
    assert(m.held =~= m.held.subrange(0, m.held.len() as int));
}

/// What was remembered stays.
pub proof fn lemma_grows(l: MemoVal, m: MemoVal, n: MemoVal)
    requires
        grows(l, m),
        grows(m, n),
    ensures
        grows(l, n),
{
    lemma_extends(l, m, n);
    assert(l.held =~= n.held.subrange(0, l.held.len() as int)) by {
        assert forall|i: int| 0 <= i < l.held.len() implies l.held[i] == n.held[i] by {
            assert(l.held[i] == m.held.subrange(0, l.held.len() as int)[i]);
            assert(m.held[i] == n.held.subrange(0, m.held.len() as int)[i]);
        }
    }
}

/// Whether the items that are lacking stand in the lists, and all of them are among
/// the values of the comparison.
pub open spec fn ranged(lists: Lists, pool: Set<Val>) -> bool {
    &&& all_in(lists.old, pool)
    &&& all_in(lists.new, pool)
    &&& forall|k: int|
        0 <= k < lists.added.len() ==> 0 <= #[trigger] added_at(lists, k) < lists.new.len()
    &&& forall|r: int|
        0 <= r < lists.removed.len() ==> 0 <= #[trigger] removed_at(lists, r) < lists.old.len()
}

proof fn lemma_lacking_places(list: HashedVal, other: HashedVal, count: int)
    requires
        0 <= count <= usize::MAX,
    ensures
        forall|k: int|
            0 <= k < lacking(list, other, count).len() ==> (#[trigger] lacking(
                list,
                other,
                count,
            )[k]) < count,
    decreases count,
{
    if count > 0 {
        lemma_lacking_places(list, other, count - 1);
        let before: Seq<usize> = lacking(list, other, count - 1);
        let after: Seq<usize> = lacking(list, other, count);
        assert forall|k: int| 0 <= k < after.len() implies (#[trigger] after[k]) < count by {
            if k < before.len() {
                assert(after[k] == before[k]);
            }
        }
    }
}

/// Finding what lists lack of one another only adds to the tables.
pub proof fn lemma_lists_grow(pool: Set<Val>, m: MemoVal, x: Seq<Val>, y: Seq<Val>)
    requires
        tables(m),
        all_in(x, pool),
        all_in(y, pool),
    ensures
        tables(lists_of(m, x, y).0),
        grows(m, lists_of(m, x, y).0),
        beside(m, lists_of(m, x, y).0),
        ranged(lists_of(m, x, y).1, pool),
{
    let xlen: int = x.len() as int;
    let ylen: int = y.len() as int;
    let o: MemoVal = hashed(m, x, xlen).0;
    let (l, lists) = lists_of(m, x, y);
    lemma_hashed_grows(m, x, xlen);
    lemma_hashed_grows(o, y, ylen);
    lemma_extends(m, o, l);
    lemma_grows_beside(m, l);
    lemma_lacking_places(lists.first, lists.second, lists.first.keys.len() as int);
    lemma_lacking_places(lists.second, lists.first, lists.second.keys.len() as int);
    assert forall|k: int| 0 <= k < lists.added.len() implies 0 <= #[trigger] added_at(lists, k)
        < lists.new.len() by {
        assert(lists.added[k] < lists.second.keys.len());
        assert(lists.second.firsts[lists.added[k] as int] < ylen);
    }
    assert forall|r: int| 0 <= r < lists.removed.len() implies 0 <= #[trigger] removed_at(lists, r)
        < lists.old.len() by {
        assert(lists.removed[r] < lists.first.keys.len());
        assert(lists.first.firsts[lists.removed[r] as int] < xlen);
    }
}

proof fn lemma_held_grow(
    m: MemoVal,
    items: Seq<Val>,
    list: HashedVal,
    places: Seq<usize>,
    count: int,
)
    requires
        tables(m),
    ensures
        tables(held_items(m, items, list, places, count).0),
        grows(m, held_items(m, items, list, places, count).0),
        same_tables(m, held_items(m, items, list, places, count).0),
    decreases count,
{
    lemma_grows_same(m);
    if count > 0 {
        lemma_held_grow(m, items, list, places, count - 1);
        let l: MemoVal = held_items(m, items, list, places, count - 1).0;
        let n: MemoVal = held_items(m, items, list, places, count).0;
        lemma_same(l);
        assert(l.held =~= n.held.subrange(0, l.held.len() as int));
        lemma_grows(m, l, n);
    }
}

/// Two lists are compared without order.
proof fn lemma_list_diff(
    m: MemoVal,
    path: Seq<Seg>,
    a: Val,
    b: Val,
    depth: int,
    opts: Rules,
)
    requires
        opts.ignore_order,
        depth <= opts.max_depth,
        (a is Array && b is Array) || (a is Tuple && b is Tuple),
    ensures
        diff_of(m, path, a, b, depth, opts) == unordered_of(
            m,
            path,
            children(a),
            children(b),
            depth,
            opts,
        ),
{
    assert(diff_of(m, path, a, b, depth, opts) == array_of(
        m,
        path,
        children(a),
        children(b),
        depth,
        opts,
    ));
    assert(array_of(m, path, children(a), children(b), depth, opts) == unordered_of(
        m,
        path,
        children(a),
        children(b),
        depth,
        opts,
    ));
}

/// Whether two values are both lists or both tuples.
spec fn both_lists(a: Val, b: Val) -> bool {
    (a is Array && b is Array) || (a is Tuple && b is Tuple)
}

/// Whether two values are both sets of one kind.
spec fn both_sets(a: Val, b: Val) -> bool {
    (a is MutableSet && b is MutableSet) || (a is FrozenSet && b is FrozenSet)
}

/// A comparison only adds to what is remembered.
pub proof fn lemma_diff_grows(
    pool: Set<Val>,
    m: MemoVal,
    path: Seq<Seg>,
    a: Val,
    b: Val,
    depth: int,
    opts: Rules,
)
    requires
        tables(m),
        telling(pool),
        pool.contains(a),
        pool.contains(b),
        opts.ignore_order,
    ensures
        tables(diff_of(m, path, a, b, depth, opts).0),
        grows(m, diff_of(m, path, a, b, depth, opts).0),
    decreases a, 9int, 0int, 0int,
{
    lemma_grows_same(m);
    if depth <= opts.max_depth {
        if both_lists(a, b) {
            lemma_list_diff(m, path, a, b, depth, opts);
            lemma_all_in(pool, a);
            lemma_all_in(pool, b);
            lemma_unordered_grows(pool, m, path, children(a), children(b), depth, opts);
        } else if both_sets(a, b) {
            let (n, removed, added) = set_changes(m, children(a), children(b));
            lemma_sets_grow(m, children(a), children(b));
            lemma_grows_beside(m, n);
            assert(diff_of(m, path, a, b, depth, opts).0 == n);
        } else if a is Object || b is Object {
            lemma_step(opts, opts, a, b);
            match object_step(opts, a, b) {
                Step::Walk(p, q) => {
                    lemma_object_grows(pool, m, path, p, q, depth, opts);
                    assert(diff_of(m, path, a, b, depth, opts) == object_of(
                        m,
                        path,
                        p,
                        q,
                        depth,
                        opts,
                    ));
                },
                _ => {
                    assert(diff_of(m, path, a, b, depth, opts).0 == m);
                },
            }
        } else {
            assert(diff_of(m, path, a, b, depth, opts).0 == m);
        }
    }
}

proof fn lemma_object_grows(
    pool: Set<Val>,
    m: MemoVal,
    path: Seq<Seg>,
    p: ObjectVal,
    q: ObjectVal,
    depth: int,
    opts: Rules,
)
    requires
        tables(m),
        telling(pool),
        pool.contains(Val::Object(p)),
        pool.contains(Val::Object(q)),
        opts.ignore_order,
    ensures
        tables(object_of(m, path, p, q, depth, opts).0),
        grows(m, object_of(m, path, p, q, depth, opts).0),
    decreases p, 1int, 0int, 0int,
{
    lemma_grows_same(m);
    if !low_overlap(p.entries, q.entries) {
        if has_other_keys(p.entries) || has_other_keys(q.entries) {
            lemma_mixed_grow(pool, m, path, p, q, depth, opts, 0, nothing());
        } else {
            lemma_entries_grow(pool, m, path, p, q, depth, opts, 0, nothing());
        }
    }
}

/// Comparing entries only adds to what is remembered.
pub proof fn lemma_entries_grow(
    pool: Set<Val>,
    m: MemoVal,
    path: Seq<Seg>,
    p: ObjectVal,
    q: ObjectVal,
    depth: int,
    opts: Rules,
    i: int,
    f: Findings,
)
    requires
        tables(m),
        telling(pool),
        pool.contains(Val::Object(p)),
        pool.contains(Val::Object(q)),
        opts.ignore_order,
        0 <= i <= p.entries.len(),
    ensures
        tables(entries_of(m, path, p, q, depth, opts, i, f).0),
        grows(m, entries_of(m, path, p, q, depth, opts, i, f).0),
    decreases p, 0int, p.entries.len() - i, 0int,
{
    lemma_grows_same(m);
    if i < p.entries.len() {
        let (key, value) = p.entries[i];
        let at: Seq<Seg> = path.push(entry_seg(p.kind, key));
        lemma_entry_in(pool, p, i);
        match lookup(q.entries, key) {
            None => lemma_entries_grow(
                pool,
                m,
                path,
                p,
                q,
                depth,
                opts,
                i + 1,
                with_removed(f, p.kind, at, value),
            ),
            Some(other) => {
                lemma_found_in(pool, q, key, other);
                lemma_diff_grows(pool, m, at, value, other, depth + 1, opts);
                let (n, found) = diff_of(m, at, value, other, depth + 1, opts);
                match found {
                    Err(e) => {},
                    Ok(g) => {
                        lemma_entries_grow(pool, n, path, p, q, depth, opts, i + 1, merged(f, g));
                        lemma_grows(
                            m,
                            n,
                            entries_of(n, path, p, q, depth, opts, i + 1, merged(f, g)).0,
                        );
                    },
                }
            },
        }
    }
}

proof fn lemma_mixed_grow(
    pool: Set<Val>,
    m: MemoVal,
    path: Seq<Seg>,
    p: ObjectVal,
    q: ObjectVal,
    depth: int,
    opts: Rules,
    i: int,
    f: Findings,
)
    requires
        tables(m),
        telling(pool),
        pool.contains(Val::Object(p)),
        pool.contains(Val::Object(q)),
        opts.ignore_order,
        0 <= i <= p.entries.len(),
    ensures
        tables(mixed_of(m, path, p, q, depth, opts, i, f).0),
        grows(m, mixed_of(m, path, p, q, depth, opts, i, f).0),
    decreases p, 0int, p.entries.len() - i, 0int,
{
    lemma_grows_same(m);
    if i < p.entries.len() {
        lemma_entry_in(pool, p, i);
        match partner(q.entries, p.entries[i].0) {
            None => lemma_mixed_grow(pool, m, path, p, q, depth, opts, i + 1, f),
            Some(j) => {
                lemma_partner(q.entries, p.entries[i].0, 0);
                lemma_entry_in(pool, q, j);
                let at: Seq<Seg> = path.push(key_seg(q.entries[j].0));
                let value: Val = p.entries[i].1;
                let other: Val = q.entries[j].1;
                lemma_diff_grows(pool, m, at, value, other, depth + 1, opts);
                let (n, found) = diff_of(m, at, value, other, depth + 1, opts);
                match found {
                    Err(e) => {},
                    Ok(g) => {
                        lemma_mixed_grow(pool, n, path, p, q, depth, opts, i + 1, merged(f, g));
                        lemma_grows(
                            m,
                            n,
                            mixed_of(n, path, p, q, depth, opts, i + 1, merged(f, g)).0,
                        );
                    },
                }
            },
        }
    }
}

proof fn lemma_unordered_grows(
    pool: Set<Val>,
    m: MemoVal,
    path: Seq<Seg>,
    x: Seq<Val>,
    y: Seq<Val>,
    depth: int,
    opts: Rules,
)
    requires
        tables(m),
        telling(pool),
        all_in(x, pool),
        all_in(y, pool),
        opts.ignore_order,
    ensures
        tables(unordered_of(m, path, x, y, depth, opts).0),
        grows(m, unordered_of(m, path, x, y, depth, opts).0),
    decreases x, 6int, 0int, 0int,
{
    lemma_grows_same(m);
    let max_depth: int = opts.max_depth as int;
    if items_failure(path, x, 0, depth, max_depth) is None && items_failure(
        path,
        y,
        0,
        depth,
        max_depth,
    ) is None {
        let (l, lists) = lists_of(m, x, y);
        lemma_lists_grow(pool, m, x, y);
        lemma_pairs_grow(pool, l, lists, depth, opts);
        lemma_grows_same(l);
        let (k, partners) = paired(l, lists, depth, opts);
        lemma_found_grows(pool, k, path, lists, partners, depth, opts, 0, nothing());
        lemma_grows(m, l, k);
        lemma_grows(
            m,
            k,
            pairs_found(k, path, lists, partners, depth, opts, 0, nothing()).0,
        );
    }
}

/// The partners of items, if few enough of the keys differ.
spec fn paired(m: MemoVal, lists: Lists, depth: int, opts: Rules) -> (MemoVal, Partners) {
    if pairable(
        lists.added.len(),
        lists.removed.len(),
        lists.first.keys.len(),
        lists.second.keys.len(),
    ) {
        pairs_of(m, lists, depth, opts)
    } else {
        (m, unpaired(lists.added.len()))
    }
}

/// Pairing only adds to what is remembered.
pub proof fn lemma_pairs_grow(pool: Set<Val>, m: MemoVal, lists: Lists, depth: int, opts: Rules)
    requires
        tables(m),
        telling(pool),
        ranged(lists, pool),
        opts.ignore_order,
    ensures
        tables(pairs_of(m, lists, depth, opts).0),
        grows(m, pairs_of(m, lists, depth, opts).0),
    decreases lists.old, 5int, 0int, 0int,
{
    lemma_grows_same(m);
    let added: int = lists.added.len() as int;
    let removed: int = lists.removed.len() as int;
    let (k, news) = held_items(m, lists.new, lists.second, lists.added, added);
    lemma_held_grow(m, lists.new, lists.second, lists.added, added);
    let (l, olds) = held_items(k, lists.old, lists.first, lists.removed, removed);
    lemma_held_grow(k, lists.old, lists.first, lists.removed, removed);
    lemma_candidates_grow(pool, l, lists, olds, news, depth, opts, 0, 0, seq![]);
    lemma_grows(m, k, l);
    lemma_grows(
        m,
        l,
        candidates_of(l, lists, olds, news, depth, opts, 0, 0, seq![]).0,
    );
}

proof fn lemma_candidates_grow(
    pool: Set<Val>,
    m: MemoVal,
    lists: Lists,
    olds: Seq<Option<usize>>,
    news: Seq<Option<usize>>,
    depth: int,
    opts: Rules,
    k: int,
    r: int,
    found: Ranking,
)
    requires
        tables(m),
        telling(pool),
        ranged(lists, pool),
        opts.ignore_order,
        0 <= k,
        0 <= r <= lists.removed.len(),
    ensures
        tables(candidates_of(m, lists, olds, news, depth, opts, k, r, found).0),
        grows(m, candidates_of(m, lists, olds, news, depth, opts, k, r, found).0),
    decreases lists.old, 4int, lists.added.len() - k, lists.removed.len() - r,
{
    lemma_grows_same(m);
    if k < lists.added.len() {
        if r >= lists.removed.len() {
            lemma_candidates_grow(pool, m, lists, olds, news, depth, opts, k + 1, 0, found);
        } else {
            lemma_distance_grows(pool, m, lists, olds, news, depth, opts, k, r);
            let (n, distance) = distance_of(m, lists, olds, news, depth, opts, k, r);
            let more: Ranking = if distance >= CUTOFF_DISTANCE_FOR_PAIRS {
                found
            } else {
                found.push((Candidate { distance, added: k as usize, removed: r as usize }, ()))
            };
            lemma_candidates_grow(pool, n, lists, olds, news, depth, opts, k, r + 1, more);
            lemma_grows(
                m,
                n,
                candidates_of(n, lists, olds, news, depth, opts, k, r + 1, more).0,
            );
        }
    }
}

proof fn lemma_distance_grows(
    pool: Set<Val>,
    m: MemoVal,
    lists: Lists,
    olds: Seq<Option<usize>>,
    news: Seq<Option<usize>>,
    depth: int,
    opts: Rules,
    k: int,
    r: int,
)
    requires
        tables(m),
        telling(pool),
        ranged(lists, pool),
        opts.ignore_order,
        0 <= k < lists.added.len(),
        0 <= r < lists.removed.len(),
    ensures
        tables(distance_of(m, lists, olds, news, depth, opts, k, r).0),
        grows(m, distance_of(m, lists, olds, news, depth, opts, k, r).0),
    decreases lists.old, 3int, 0int, 0int,
{
    lemma_grows_same(m);
    let i: int = removed_at(lists, r);
    let j: int = added_at(lists, k);
    let a: Val = lists.old[i];
    let b: Val = lists.new[j];
    assert(pool.contains(a) && pool.contains(b));
    lemma_rough_grows(pool, m, a, b, CUTOFF_DISTANCE_FOR_PAIRS, depth, opts);
    let n: MemoVal = rough_of(m, a, b, CUTOFF_DISTANCE_FOR_PAIRS, depth, opts).0;
    lemma_same(n);
    assert(n.held =~= n.held.subrange(0, n.held.len() as int));
    let last: MemoVal = distance_of(m, lists, olds, news, depth, opts, k, r).0;
    if last != m && last != n {
        assert(n.enabled);
        assert(grows(n, last));
        lemma_grows(m, n, last);
    }
}

proof fn lemma_rough_grows(
    pool: Set<Val>,
    m: MemoVal,
    a: Val,
    b: Val,
    cutoff: u64,
    depth: int,
    opts: Rules,
)
    requires
        tables(m),
        telling(pool),
        pool.contains(a),
        pool.contains(b),
        opts.ignore_order,
    ensures
        tables(rough_of(m, a, b, cutoff, depth, opts).0),
        grows(m, rough_of(m, a, b, cutoff, depth, opts).0),
    decreases a, 9int, 0int, 0int,
{
    lemma_grows_same(m);
    if measures(a, b) is None {
        lemma_leaves_grow(pool, m, a, b, below(depth, opts.max_depth as int), opts);
    }
}

proof fn lemma_leaves_grow(pool: Set<Val>, m: MemoVal, a: Val, b: Val, depth: int, opts: Rules)
    requires
        tables(m),
        telling(pool),
        pool.contains(a),
        pool.contains(b),
        opts.ignore_order,
    ensures
        tables(leaves_between(m, a, b, depth, opts).0),
        grows(m, leaves_between(m, a, b, depth, opts).0),
    decreases a, 8int, 0int, 0int,
{
    lemma_grows_same(m);
    if both_lists(a, b) {
        let s: At = trial_at(At { depth, opts });
        lemma_all_in(pool, a);
        lemma_all_in(pool, b);
        lemma_unordered_grows(pool, m, seq![], children(a), children(b), 0, s.opts);
        lemma_trial(m, a, b, At { depth, opts });
    } else if both_sets(a, b) {
        lemma_sets_grow(m, children(a), children(b));
        lemma_grows_beside(m, set_changes(m, children(a), children(b)).0);
        assert(leaves_between(m, a, b, depth, opts) == leaves_between_sets(
            m,
            children(a),
            children(b),
        ));
    } else {
        match (a, b) {
            (Val::Object(p), Val::Object(q)) => {
                lemma_step(tokens_kept(opts), opts, a, b);
                match object_step(tokens_kept(opts), a, b) {
                    Step::Walk(_, _) => {
                        lemma_entry_leaves_grow(pool, m, p, q, depth, opts, 0, 0);
                        assert(leaves_between(m, a, b, depth, opts) == leaves_between_objects(
                            m,
                            p,
                            q,
                            depth,
                            opts,
                        ));
                    },
                    _ => {
                        assert(leaves_between(m, a, b, depth, opts).0 == m);
                    },
                }
            },
            _ => {
                assert(leaves_between(m, a, b, depth, opts).0 == m);
            },
        }
    }
}

proof fn lemma_entry_leaves_grow(
    pool: Set<Val>,
    m: MemoVal,
    p: ObjectVal,
    q: ObjectVal,
    depth: int,
    opts: Rules,
    i: int,
    count: nat,
)
    requires
        tables(m),
        telling(pool),
        pool.contains(Val::Object(p)),
        pool.contains(Val::Object(q)),
        opts.ignore_order,
        0 <= i <= p.entries.len(),
    ensures
        tables(leaves_between_entries(m, p.entries, q.entries, depth, opts, i, count).0),
        grows(m, leaves_between_entries(m, p.entries, q.entries, depth, opts, i, count).0),
    decreases p, 6int, p.entries.len() - i, 0int,
{
    lemma_grows_same(m);
    let x: Seq<(KeyVal, Val)> = p.entries;
    let y: Seq<(KeyVal, Val)> = q.entries;
    if i < x.len() {
        lemma_entry_in(pool, p, i);
        match partner(y, x[i].0) {
            None => lemma_entry_leaves_grow(
                pool,
                m,
                p,
                q,
                depth,
                opts,
                i + 1,
                count + leaves(x[i].1),
            ),
            Some(j) => {
                lemma_partner(y, x[i].0, 0);
                lemma_entry_in(pool, q, j);
                let under: int = below(depth, opts.max_depth as int);
                lemma_leaves_grow(pool, m, x[i].1, y[j].1, under, opts);
                let (n, more) = leaves_between(m, x[i].1, y[j].1, under, opts);
                lemma_entry_leaves_grow(pool, n, p, q, depth, opts, i + 1, count + more);
                lemma_grows(
                    m,
                    n,
                    leaves_between_entries(n, x, y, depth, opts, i + 1, count + more).0,
                );
            },
        }
    }
}

/// Comparing pairs only adds to what is remembered.
pub proof fn lemma_found_grows(
    pool: Set<Val>,
    m: MemoVal,
    path: Seq<Seg>,
    lists: Lists,
    partners: Partners,
    depth: int,
    opts: Rules,
    k: int,
    f: Findings,
)
    requires
        tables(m),
        telling(pool),
        ranged(lists, pool),
        opts.ignore_order,
        0 <= k,
    ensures
        tables(pairs_found(m, path, lists, partners, depth, opts, k, f).0),
        grows(m, pairs_found(m, path, lists, partners, depth, opts, k, f).0),
    decreases lists.old, 1int, lists.added.len() - k, 0int,
{
    lemma_grows_same(m);
    if k < lists.added.len() {
        let j: int = added_at(lists, k);
        let new_value: Val = lists.new[j];
        match partners[k] {
            Some(p) => {
                let i: int = removed_at(lists, p.0 as int);
                if 0 <= i < lists.old.len() {
                    assert(pool.contains(lists.old[i]) && pool.contains(new_value));
                    lemma_diff_grows(
                        pool,
                        m,
                        item_path(path, i),
                        lists.old[i],
                        new_value,
                        depth,
                        opts,
                    );
                    let (n, found) = diff_of(
                        m,
                        item_path(path, i),
                        lists.old[i],
                        new_value,
                        depth,
                        opts,
                    );
                    match found {
                        Err(e) => {},
                        Ok(g) => {
                            let g: Findings = mutual_merged(g);
                            let g: Findings = if i != j {
                                retagged(g, path.len() as int, j)
                            } else {
                                g
                            };
                            lemma_found_grows(
                                pool,
                                n,
                                path,
                                lists,
                                partners,
                                depth,
                                opts,
                                k + 1,
                                merged(f, g),
                            );
                            lemma_grows(
                                m,
                                n,
                                pairs_found(
                                    n,
                                    path,
                                    lists,
                                    partners,
                                    depth,
                                    opts,
                                    k + 1,
                                    merged(f, g),
                                ).0,
                            );
                        },
                    }
                }
            },
            None => lemma_found_grows(
                pool,
                m,
                path,
                lists,
                partners,
                depth,
                opts,
                k + 1,
                with_item_added(f, item_path(path, j), new_value),
            ),
        }
    }
}

// ---------------------------------------------------------------------
// What is remembered is what would be measured
// ---------------------------------------------------------------------

/// A depth and the options of a comparison.
pub struct At {
    pub depth: int,
    pub opts: Rules,
}

/// The depth and the options of a trial.
spec fn trial_at(u: At) -> At {
    At {
        depth: 0,
        opts: Rules {
            max_depth: room(u.depth, u.opts.max_depth as int) as usize,
            ..u.opts
        },
    }
}

proof fn lemma_trial(m: MemoVal, a: Val, b: Val, u: At)
    requires
        u.opts.ignore_order,
        both_lists(a, b),
    ensures
        ({
            let s = trial_at(u);
            let (n, found) = unordered_of(
                m,
                seq![],
                children(a),
                children(b),
                s.depth,
                s.opts,
            );
            leaves_between(m, a, b, u.depth, u.opts) == (
                n,
                match found {
                    Err(_) => 0,
                    Ok(f) => finding_leaves(mutual_merged(f)),
                },
            )
        }),
{
    let s: At = trial_at(u);
    let x: Seq<Val> = children(a);
    let y: Seq<Val> = children(b);
    assert(array_of(m, seq![], x, y, s.depth, s.opts) == unordered_of(
        m,
        seq![],
        x,
        y,
        s.depth,
        s.opts,
    ));
    assert(leaves_between(m, a, b, u.depth, u.opts) == leaves_between_lists(
        m,
        x,
        y,
        u.depth,
        u.opts,
    ));
}

/// Whether the values whose distances are remembered are no more than numbers reach.
pub open spec fn bounded(m: MemoVal) -> bool {
    m.held.len() <= usize::MAX
}

/// Whether the values whose distances are remembered are among those of the
/// comparison.
pub open spec fn holds_known(m: MemoVal, pool: Set<Val>) -> bool {
    forall|h: int| 0 <= h < m.held.len() ==> pool.contains((#[trigger] m.held[h]).1)
}

/// Whether a memo never remembers a distance.
pub open spec fn blank(m: MemoVal) -> bool {
    tables(m) && !m.enabled
}

/// Whether a value may be compared at a depth.
pub open spec fn fits(value: Val, depth: int, opts: Rules) -> bool {
    0 <= depth <= opts.max_depth && height(value) <= opts.max_depth - depth
}

/// Whether the distance of a value may be measured at a depth.
pub open spec fn measurable(value: Val, depth: int, opts: Rules) -> bool {
    0 <= depth <= opts.max_depth && height(value) <= room(depth + 1, opts.max_depth as int)
}

/// Whether a distance is what is measured by every memo that never remembers one but
/// numbers what was numbered before, and whether measuring it numbers nothing more.
pub open spec fn recalled(m: MemoVal, a: Val, b: Val, distance: u64) -> bool {
    forall|n: MemoVal, depth: int, opts: Rules|
        blank(n) && extends(m, n) && opts.ignore_order && measurable(a, depth, opts) && measurable(
            b,
            depth,
            opts,
        ) ==> {
            let (end, d) = #[trigger] rough_of(n, a, b, CUTOFF_DISTANCE_FOR_PAIRS, depth, opts);
            same_tables(n, end) && d == distance
        }
}

/// Whether what is remembered of the `i`th pair is what would be measured.
pub open spec fn sound_pair(m: MemoVal, i: int) -> bool {
    &&& m.pairs[i].removed < m.held.len()
    &&& m.pairs[i].added < m.held.len()
    &&& recalled(
        m,
        m.held[m.pairs[i].removed as int].1,
        m.held[m.pairs[i].added as int].1,
        m.distances[i],
    )
}

/// Whether every distance that is remembered is what would be measured.
pub open spec fn sound(m: MemoVal, pool: Set<Val>) -> bool {
    &&& tables(m)
    &&& holds_known(m, pool)
    &&& m.pairs.no_duplicates()
    &&& m.distances.len() == m.pairs.len()
    &&& forall|i: int| 0 <= i < m.pairs.len() ==> #[trigger] sound_pair(m, i)
}

proof fn lemma_bounded(l: MemoVal, n: MemoVal)
    requires
        grows(l, n),
        bounded(n),
    ensures
        bounded(l),
{
}

/// What is recalled is so as the tables grow.
proof fn lemma_recalled(m: MemoVal, n: MemoVal, a: Val, b: Val, distance: u64)
    requires
        recalled(m, a, b, distance),
        extends(m, n),
    ensures
        recalled(n, a, b, distance),
{
    assert forall|o: MemoVal, depth: int, opts: Rules|
        blank(o) && extends(n, o) && opts.ignore_order && measurable(a, depth, opts) && measurable(
            b,
            depth,
            opts,
        ) implies {
        let (end, d) = #[trigger] rough_of(o, a, b, CUTOFF_DISTANCE_FOR_PAIRS, depth, opts);
        same_tables(o, end) && d == distance
    } by {
        lemma_extends(m, n, o);
    }
}

/// Tables alone do not touch what is remembered.
proof fn lemma_beside_sound(pool: Set<Val>, m: MemoVal, n: MemoVal)
    requires
        sound(m, pool),
        beside(m, n),
        extends(m, n),
        tables(n),
    ensures
        sound(n, pool),
{
    assert forall|i: int| 0 <= i < n.pairs.len() implies #[trigger] sound_pair(n, i) by {
        assert(sound_pair(m, i));
        lemma_recalled(
            m,
            n,
            m.held[m.pairs[i].removed as int].1,
            m.held[m.pairs[i].added as int].1,
            m.distances[i],
        );
    }
}

/// One more value does not touch what is remembered of the others.
proof fn lemma_held_sound(pool: Set<Val>, m: MemoVal, item: usize, value: Val)
    requires
        telling(pool),
        pool.contains(value),
        sound(m, pool),
        bounded(with_held(m, item, value).0),
    ensures
        sound(with_held(m, item, value).0, pool),
        with_held(m, item, value).1 < with_held(m, item, value).0.held.len(),
        with_held(m, item, value).0.held[with_held(m, item, value).1 as int].1 == value,
{
    let (n, number) = with_held(m, item, value);
    let k: int = held_from(m.held, item, value, 0);
    lemma_held_from(m.held, item, value, 0);
    lemma_same(m);
    assert forall|h: int| 0 <= h < n.held.len() implies pool.contains((#[trigger] n.held[h]).1) by {
        if h < m.held.len() {
            assert(n.held[h] == m.held[h]);
        }
    }
    assert forall|i: int| 0 <= i < n.pairs.len() implies #[trigger] sound_pair(n, i) by {
        assert(sound_pair(m, i));
        let a: Val = m.held[m.pairs[i].removed as int].1;
        let b: Val = m.held[m.pairs[i].added as int].1;
        lemma_recalled(m, n, a, b, m.distances[i]);
    }
    if k < m.held.len() {
        assert(pool.contains(m.held[k].1));
        assert(same_value(m.held[k].1, value));
    }
}

proof fn lemma_held_from(held: Seq<(usize, Val)>, item: usize, value: Val, k: int)
    requires
        0 <= k <= held.len(),
    ensures
        k <= held_from(held, item, value, k) <= held.len(),
        held_from(held, item, value, k) < held.len() ==> held[held_from(held, item, value, k)].0
            == item && same_value(held[held_from(held, item, value, k)].1, value),
    decreases held.len() - k,
{
    if k < held.len() {
        lemma_held_from(held, item, value, k + 1);
    }
}

/// Whether numbers stand for the items at places.
pub open spec fn numbered(
    m: MemoVal,
    items: Seq<Val>,
    list: HashedVal,
    places: Seq<usize>,
    numbers: Seq<Option<usize>>,
) -> bool {
    forall|c: int|
        0 <= c < numbers.len() ==> ((#[trigger] numbers[c]) matches Some(s) ==> s < m.held.len()
            && m.held[s as int].1 == items[list.firsts[places[c] as int] as int])
}

proof fn lemma_numbered_grows(
    m: MemoVal,
    n: MemoVal,
    items: Seq<Val>,
    list: HashedVal,
    places: Seq<usize>,
    numbers: Seq<Option<usize>>,
)
    requires
        grows(m, n),
        numbered(m, items, list, places, numbers),
    ensures
        numbered(n, items, list, places, numbers),
{
    assert forall|c: int| 0 <= c < numbers.len() implies ((#[trigger] numbers[c]) matches Some(s) ==> s
        < n.held.len() && n.held[s as int].1 == items[list.firsts[places[c] as int] as int]) by {
        if numbers[c] is Some {
            let s: int = numbers[c]->Some_0 as int;
            assert(m.held[s] == n.held.subrange(0, m.held.len() as int)[s]);
        }
    }
}

/// Numbering items for the distances to come.
proof fn lemma_numbered(
    pool: Set<Val>,
    m: MemoVal,
    items: Seq<Val>,
    list: HashedVal,
    places: Seq<usize>,
    count: int,
)
    requires
        telling(pool),
        sound(m, pool),
        0 <= count <= places.len(),
        bounded(held_items(m, items, list, places, count).0),
        forall|c: int|
            0 <= c < places.len() ==> pool.contains(
                items[list.firsts[(#[trigger] places[c]) as int] as int],
            ),
    ensures
        sound(held_items(m, items, list, places, count).0, pool),
        held_items(m, items, list, places, count).1.len() == count,
        numbered(
            held_items(m, items, list, places, count).0,
            items,
            list,
            places,
            held_items(m, items, list, places, count).1,
        ),
    decreases count,
{
    if count > 0 {
        let (l, numbers) = held_items(m, items, list, places, count - 1);
        let (n, all) = held_items(m, items, list, places, count);
        lemma_held_grow(m, items, list, places, count - 1);
        let place: int = places[count - 1] as int;
        let value: Val = items[list.firsts[place] as int];
        assert(pool.contains(value));
        if container(l, list.keys[place]) {
            let (k, number) = with_held(l, list.keys[place], value);
            assert(n == k);
            lemma_same(l);
            assert(l.held =~= n.held.subrange(0, l.held.len() as int));
            assert(grows(l, n));
            lemma_bounded(l, n);
            lemma_numbered(pool, m, items, list, places, count - 1);
            lemma_held_sound(pool, l, list.keys[place], value);
            lemma_numbered_grows(l, n, items, list, places, numbers);
            assert(all == numbers.push(Some(number)));
        } else {
            lemma_numbered(pool, m, items, list, places, count - 1);
            assert(all == numbers.push(None::<usize>));
        }
        assert forall|c: int| 0 <= c < all.len() implies ((#[trigger] all[c]) matches Some(s) ==> s
            < n.held.len() && n.held[s as int].1
            == items[list.firsts[places[c] as int] as int]) by {
            if c < numbers.len() {
                assert(all[c] == numbers[c]);
            }
        }
    }
}

/// A distance that is remembered is what would be measured.
proof fn lemma_remembered(pool: Set<Val>, m: MemoVal, s: usize, t: usize)
    requires
        sound(m, pool),
        s < m.held.len(),
        t < m.held.len(),
        known(m, s, t) is Some,
    ensures
        recalled(m, m.held[s as int].1, m.held[t as int].1, known(m, s, t)->Some_0),
{
    let key: PairKey = PairKey { removed: s, added: t };
    let i: int = slot(m.pairs, key) as int;
    assert(m.pairs[i] == key);
    assert(sound_pair(m, i));
}

/// A distance that would be measured again may be remembered.
proof fn lemma_remembering(pool: Set<Val>, m: MemoVal, s: usize, t: usize, distance: u64)
    requires
        sound(m, pool),
        s < m.held.len(),
        t < m.held.len(),
        recalled(m, m.held[s as int].1, m.held[t as int].1, distance),
    ensures
        sound(with_distance(m, s, t, distance), pool),
        same_tables(m, with_distance(m, s, t, distance)),
{
    let key: PairKey = PairKey { removed: s, added: t };
    let n: MemoVal = with_distance(m, s, t, distance);
    let at: int = slot(m.pairs, key) as int;
    lemma_same(m);
    lemma_recalled(m, n, m.held[s as int].1, m.held[t as int].1, distance);
    assert forall|i: int| 0 <= i < n.pairs.len() implies #[trigger] sound_pair(n, i) by {
        if i < m.pairs.len() {
            assert(sound_pair(m, i));
            let a: Val = m.held[m.pairs[i].removed as int].1;
            let b: Val = m.held[m.pairs[i].added as int].1;
            lemma_recalled(m, n, a, b, m.distances[i]);
        }
        if m.pairs.contains(key) {
            assert(m.pairs[at] == key);
        }
    }
    if !m.pairs.contains(key) {
        assert(n.pairs =~= m.pairs.push(key));
    }
}

// ---------------------------------------------------------------------
// Two comparisons, one of which remembers nothing
// ---------------------------------------------------------------------

/// Whether a memo that never remembers a distance is ready to follow another, beside
/// it or again, on its way to `last`.
spec fn ready(again: bool, pool: Set<Val>, m: MemoVal, last: MemoVal, n: MemoVal) -> bool {
    &&& sound(m, pool)
    &&& blank(n)
    &&& bounded(last)
    &&& linked(again, m, last, n)
}

/// Whether such a memo followed another to `last`.
spec fn arrived(again: bool, pool: Set<Val>, last: MemoVal, n: MemoVal, end: MemoVal) -> bool {
    &&& sound(last, pool)
    &&& blank(end)
    &&& followed(again, last, n, end)
}

/// The first of two steps.
proof fn lemma_ready(
    again: bool,
    pool: Set<Val>,
    m: MemoVal,
    mid: MemoVal,
    last: MemoVal,
    n: MemoVal,
)
    requires
        ready(again, pool, m, last, n),
        grows(mid, last),
    ensures
        ready(again, pool, m, mid, n),
{
    lemma_first_step(again, m, mid, last, n);
}

proof fn lemma_items_fit(path: Seq<Seg>, items: Seq<Val>, i: int, depth: int, max_depth: int)
    requires
        0 <= i <= items.len(),
        0 <= depth <= max_depth,
        heights(items) <= max_depth - depth,
    ensures
        items_failure(path, items, i, depth, max_depth) is None,
    decreases items.len() - i,
{
    if i < items.len() {
        lemma_child_height(Val::Array(items), i);
        lemma_items_fit(path, items, i + 1, depth, max_depth);
    }
}

/// Values that hold nothing to compare are compared alike at all depths.
proof fn lemma_leaf_diff(m: MemoVal, n: MemoVal, path: Seq<Seg>, a: Val, b: Val, u: At, v: At)
    requires
        !token(a),
        !token(b),
        fits(a, u.depth, u.opts),
        fits(b, u.depth, u.opts),
        fits(a, v.depth, v.opts),
        fits(b, v.depth, v.opts),
        !both_lists(a, b),
        !both_sets(a, b),
        a is Object || b is Object ==> !(object_step(u.opts, a, b) is Walk),
    ensures
        diff_of(m, path, a, b, u.depth, u.opts).0 == m,
        diff_of(n, path, a, b, v.depth, v.opts).0 == n,
        diff_of(m, path, a, b, u.depth, u.opts).1 == diff_of(n, path, a, b, v.depth, v.opts).1,
{
    if a is Object || b is Object {
        lemma_step(u.opts, v.opts, a, b);
        if let Step::Change(x, y) = object_step(u.opts, a, b) {
            if let (Val::Object(p), Val::Object(q)) = (a, b) {
                lemma_failure_height(p);
                lemma_failure_height(q);
            }
        }
    }
}

/// What is reported of an object that failed nests no deeper than it.
proof fn lemma_failure_height(p: ObjectVal)
    ensures
        height(failure_token(p)) <= height(Val::Object(p)),
{
    let empty = ObjectVal { kind: crate::value::ObjectKind::Opaque, entries: seq![], ..p };
    assert(height(Val::Object(empty)) == 0);
}

/// The entries that are new are so at all depths.
proof fn lemma_new_entries_same(
    f: Findings,
    path: Seq<Seg>,
    p: ObjectVal,
    q: ObjectVal,
    i: int,
    u: At,
    v: At,
)
    requires
        0 <= i <= q.entries.len(),
        fits(Val::Object(q), u.depth, u.opts),
        fits(Val::Object(q), v.depth, v.opts),
    ensures
        new_entries(f, path, p, q, i, u.depth, u.opts.max_depth as int) == new_entries(
            f,
            path,
            p,
            q,
            i,
            v.depth,
            v.opts.max_depth as int,
        ),
    decreases q.entries.len() - i,
{
    if i < q.entries.len() {
        let (key, value) = q.entries[i];
        lemma_child_height(Val::Object(q), i);
        assert(children(Val::Object(q))[i] == value);
        let at: Seq<Seg> = path.push(entry_seg(p.kind, key));
        if lookup(p.entries, key) is Some {
            lemma_new_entries_same(f, path, p, q, i + 1, u, v);
        } else {
            lemma_new_entries_same(with_added(f, p.kind, at, value), path, p, q, i + 1, u, v);
        }
    }
}

/// Entries without a partner are reported alike at all depths.
proof fn lemma_lone_same(
    f: Findings,
    path: Seq<Seg>,
    p: ObjectVal,
    q: ObjectVal,
    i: int,
    added: bool,
    u: At,
    v: At,
)
    requires
        0 <= i <= p.entries.len(),
        fits(Val::Object(p), u.depth, u.opts),
        fits(Val::Object(p), v.depth, v.opts),
    ensures
        lone_entries(
            f,
            path,
            p.entries,
            q.entries,
            i,
            added,
            u.depth,
            u.opts.max_depth as int,
        ) == lone_entries(
            f,
            path,
            p.entries,
            q.entries,
            i,
            added,
            v.depth,
            v.opts.max_depth as int,
        ),
    decreases p.entries.len() - i,
{
    if i < p.entries.len() {
        let (key, value) = p.entries[i];
        lemma_child_height(Val::Object(p), i);
        assert(children(Val::Object(p))[i] == value);
        let at: Seq<Seg> = path.push(key_seg(key));
        if partner(q.entries, key) is Some {
            lemma_lone_same(f, path, p, q, i + 1, added, u, v);
        } else {
            let g: Findings = if added {
                with_dict_added(f, at, value)
            } else {
                with_dict_removed(f, at, value)
            };
            lemma_lone_same(g, path, p, q, i + 1, added, u, v);
        }
    }
}

/// Members are reported alike at all depths.
proof fn lemma_members_same(
    f: Findings,
    path: Seq<Seg>,
    items: Seq<Val>,
    positions: Seq<usize>,
    k: int,
    added: bool,
    u: At,
    v: At,
)
    requires
        0 <= k,
        forall|c: int| 0 <= c < positions.len() ==> (#[trigger] positions[c]) < items.len(),
        fits(Val::MutableSet(items), u.depth, u.opts),
        fits(Val::MutableSet(items), v.depth, v.opts),
    ensures
        members_outcome(
            f,
            path,
            items,
            positions,
            k,
            added,
            u.depth,
            u.opts.max_depth as int,
        ) == members_outcome(
            f,
            path,
            items,
            positions,
            k,
            added,
            v.depth,
            v.opts.max_depth as int,
        ),
    decreases positions.len() - k,
{
    if k < positions.len() {
        let item: Val = items[positions[k] as int];
        lemma_child_height(Val::MutableSet(items), positions[k] as int);
        let at: Seq<Seg> = member_path(path, item);
        let g: Findings = if added {
            with_set_added(f, at, item)
        } else {
            with_set_removed(f, at, item)
        };
        lemma_members_same(g, path, items, positions, k + 1, added, u, v);
    }
}

proof fn lemma_unmatched_places(numbers: Seq<usize>, others: Seq<usize>, count: int)
    requires
        0 <= count <= usize::MAX,
    ensures
        forall|k: int|
            0 <= k < unmatched(numbers, others, count).len() ==> (#[trigger] unmatched(
                numbers,
                others,
                count,
            )[k]) < count,
    decreases count,
{
    if count > 0 {
        lemma_unmatched_places(numbers, others, count - 1);
        let before: Seq<usize> = unmatched(numbers, others, count - 1);
        let after: Seq<usize> = unmatched(numbers, others, count);
        assert forall|k: int| 0 <= k < after.len() implies (#[trigger] after[k]) < count by {
            if k < before.len() {
                assert(after[k] == before[k]);
            }
        }
    }
}

proof fn lemma_sets_same(
    again: bool,
    pool: Set<Val>,
    m: MemoVal,
    n: MemoVal,
    path: Seq<Seg>,
    x: Seq<Val>,
    y: Seq<Val>,
    u: At,
    v: At,
)
    requires
        x.len() <= usize::MAX,
        y.len() <= usize::MAX,
        fits(Val::MutableSet(x), u.depth, u.opts),
        fits(Val::MutableSet(y), u.depth, u.opts),
        fits(Val::MutableSet(x), v.depth, v.opts),
        fits(Val::MutableSet(y), v.depth, v.opts),
        ready(again, pool, m, set_changes(m, x, y).0, n),
    ensures
        arrived(again, pool, set_changes(m, x, y).0, n, set_changes(n, x, y).0),
        set_outcome(m, path, x, y, u.depth, u.opts.max_depth as int).1 == set_outcome(
            n,
            path,
            x,
            y,
            v.depth,
            v.opts.max_depth as int,
        ).1,
{
    let (k, removed, added) = set_changes(m, x, y);
    lemma_sets_grow(m, x, y);
    lemma_sets_grow(n, x, y);
    lemma_sets_linked(again, m, n, x, y);
    lemma_beside_sound(pool, m, k);
    lemma_unmatched_all(m, x, y);
    lemma_members_same(nothing(), path, x, removed, 0, false, u, v);
    let found: Outcome = members_outcome(
        nothing(),
        path,
        x,
        removed,
        0,
        false,
        u.depth,
        u.opts.max_depth as int,
    );
    if let Ok(f) = found {
        lemma_members_same(f, path, y, added, 0, true, u, v);
    }
}

proof fn lemma_unmatched_all(m: MemoVal, x: Seq<Val>, y: Seq<Val>)
    requires
        x.len() <= usize::MAX,
        y.len() <= usize::MAX,
    ensures
        forall|k: int|
            0 <= k < set_changes(m, x, y).1.len() ==> (#[trigger] set_changes(m, x, y).1[k])
                < x.len(),
        forall|k: int|
            0 <= k < set_changes(m, x, y).2.len() ==> (#[trigger] set_changes(m, x, y).2[k])
                < y.len(),
{
    let (n, p) = members_of(m, x, x.len() as int);
    let (_, q) = members_of(n, y, y.len() as int);
    lemma_unmatched_places(
        reps(p),
        reps(q),
        x.len() as int,
    );
    lemma_unmatched_places(
        reps(q),
        reps(p),
        y.len() as int,
    );
}

/// Whether two values may be compared at two depths.
spec fn both_fit(a: Val, b: Val, u: At, v: At) -> bool {
    &&& u.opts.ignore_order
    &&& v.opts.ignore_order
    &&& fits(a, u.depth, u.opts)
    &&& fits(b, u.depth, u.opts)
    &&& fits(a, v.depth, v.opts)
    &&& fits(b, v.depth, v.opts)
}

proof fn lemma_diff_same(
    again: bool,
    pool: Set<Val>,
    m: MemoVal,
    n: MemoVal,
    path: Seq<Seg>,
    a: Val,
    b: Val,
    u: At,
    v: At,
)
    requires
        telling(pool),
        pool.contains(a),
        pool.contains(b),
        both_fit(a, b, u, v),
        ready(again, pool, m, diff_of(m, path, a, b, u.depth, u.opts).0, n),
    ensures
        arrived(
            again,
            pool,
            diff_of(m, path, a, b, u.depth, u.opts).0,
            n,
            diff_of(n, path, a, b, v.depth, v.opts).0,
        ),
        diff_of(m, path, a, b, u.depth, u.opts).1 == diff_of(n, path, a, b, v.depth, v.opts).1,
    decreases a, 9int, 0int, 0int,
{
    if both_lists(a, b) {
        lemma_list_diff(m, path, a, b, u.depth, u.opts);
        lemma_list_diff(n, path, a, b, v.depth, v.opts);
        lemma_all_in(pool, a);
        lemma_all_in(pool, b);
        lemma_unordered_same(again, pool, m, n, path, children(a), children(b), u, v);
    } else if both_sets(a, b) {
        assert(diff_of(m, path, a, b, u.depth, u.opts) == set_outcome(
            m,
            path,
            children(a),
            children(b),
            u.depth,
            u.opts.max_depth as int,
        ));
        assert(diff_of(n, path, a, b, v.depth, v.opts) == set_outcome(
            n,
            path,
            children(a),
            children(b),
            v.depth,
            v.opts.max_depth as int,
        ));
        lemma_sets_same(again, pool, m, n, path, children(a), children(b), u, v);
    } else if (a is Object || b is Object) && object_step(u.opts, a, b) is Walk {
        lemma_step(u.opts, v.opts, a, b);
        if let Step::Walk(p, q) = object_step(u.opts, a, b) {
            assert(diff_of(m, path, a, b, u.depth, u.opts) == object_of(
                m,
                path,
                p,
                q,
                u.depth,
                u.opts,
            ));
            assert(diff_of(n, path, a, b, v.depth, v.opts) == object_of(
                n,
                path,
                p,
                q,
                v.depth,
                v.opts,
            ));
            lemma_object_same(again, pool, m, n, path, p, q, u, v);
        }
    } else {
        lemma_leaf_diff(m, n, path, a, b, u, v);
    }
}

proof fn lemma_object_same(
    again: bool,
    pool: Set<Val>,
    m: MemoVal,
    n: MemoVal,
    path: Seq<Seg>,
    p: ObjectVal,
    q: ObjectVal,
    u: At,
    v: At,
)
    requires
        telling(pool),
        pool.contains(Val::Object(p)),
        pool.contains(Val::Object(q)),
        both_fit(Val::Object(p), Val::Object(q), u, v),
        ready(again, pool, m, object_of(m, path, p, q, u.depth, u.opts).0, n),
    ensures
        arrived(
            again,
            pool,
            object_of(m, path, p, q, u.depth, u.opts).0,
            n,
            object_of(n, path, p, q, v.depth, v.opts).0,
        ),
        object_of(m, path, p, q, u.depth, u.opts).1 == object_of(
            n,
            path,
            p,
            q,
            v.depth,
            v.opts,
        ).1,
    decreases p, 1int, 0int, 0int,
{
    if !low_overlap(p.entries, q.entries) {
        if has_other_keys(p.entries) || has_other_keys(q.entries) {
            lemma_mixed_same(again, pool, m, n, path, p, q, u, v, 0, nothing());
        } else {
            lemma_entries_same(again, pool, m, n, path, p, q, u, v, 0, nothing());
        }
    }
}

proof fn lemma_entries_same(
    again: bool,
    pool: Set<Val>,
    m: MemoVal,
    n: MemoVal,
    path: Seq<Seg>,
    p: ObjectVal,
    q: ObjectVal,
    u: At,
    v: At,
    i: int,
    f: Findings,
)
    requires
        telling(pool),
        pool.contains(Val::Object(p)),
        pool.contains(Val::Object(q)),
        both_fit(Val::Object(p), Val::Object(q), u, v),
        0 <= i <= p.entries.len(),
        ready(again, pool, m, entries_of(m, path, p, q, u.depth, u.opts, i, f).0, n),
    ensures
        arrived(
            again,
            pool,
            entries_of(m, path, p, q, u.depth, u.opts, i, f).0,
            n,
            entries_of(n, path, p, q, v.depth, v.opts, i, f).0,
        ),
        entries_of(m, path, p, q, u.depth, u.opts, i, f).1 == entries_of(
            n,
            path,
            p,
            q,
            v.depth,
            v.opts,
            i,
            f,
        ).1,
    decreases p, 0int, p.entries.len() - i, 0int,
{
    if i < p.entries.len() {
        let last: MemoVal = entries_of(m, path, p, q, u.depth, u.opts, i, f).0;
        let (key, value) = p.entries[i];
        let at: Seq<Seg> = path.push(entry_seg(p.kind, key));
        lemma_entry_in(pool, p, i);
        match lookup(q.entries, key) {
            None => lemma_entries_same(
                again,
                pool,
                m,
                n,
                path,
                p,
                q,
                u,
                v,
                i + 1,
                with_removed(f, p.kind, at, value),
            ),
            Some(other) => {
                lemma_found_in(pool, q, key, other);
                let s: At = At { depth: u.depth + 1, opts: u.opts };
                let t: At = At { depth: v.depth + 1, opts: v.opts };
                let (k, found) = diff_of(m, at, value, other, s.depth, s.opts);
                let (l, also) = diff_of(n, at, value, other, t.depth, t.opts);
                lemma_diff_grows(pool, m, at, value, other, s.depth, s.opts);
                lemma_grows_same(k);
                if let Ok(g) = found {
                    lemma_entries_grow(
                        pool,
                        k,
                        path,
                        p,
                        q,
                        u.depth,
                        u.opts,
                        i + 1,
                        merged(f, g),
                    );
                }
                lemma_ready(again, pool, m, k, last, n);
                lemma_diff_same(again, pool, m, n, at, value, other, s, t);
                if let Ok(g) = found {
                    lemma_entries_same(
                        again,
                        pool,
                        k,
                        l,
                        path,
                        p,
                        q,
                        u,
                        v,
                        i + 1,
                        merged(f, g),
                    );
                }
            },
        }
    } else {
        lemma_new_entries_same(f, path, p, q, 0, u, v);
    }
}

proof fn lemma_mixed_same(
    again: bool,
    pool: Set<Val>,
    m: MemoVal,
    n: MemoVal,
    path: Seq<Seg>,
    p: ObjectVal,
    q: ObjectVal,
    u: At,
    v: At,
    i: int,
    f: Findings,
)
    requires
        telling(pool),
        pool.contains(Val::Object(p)),
        pool.contains(Val::Object(q)),
        both_fit(Val::Object(p), Val::Object(q), u, v),
        0 <= i <= p.entries.len(),
        ready(again, pool, m, mixed_of(m, path, p, q, u.depth, u.opts, i, f).0, n),
    ensures
        arrived(
            again,
            pool,
            mixed_of(m, path, p, q, u.depth, u.opts, i, f).0,
            n,
            mixed_of(n, path, p, q, v.depth, v.opts, i, f).0,
        ),
        mixed_of(m, path, p, q, u.depth, u.opts, i, f).1 == mixed_of(
            n,
            path,
            p,
            q,
            v.depth,
            v.opts,
            i,
            f,
        ).1,
    decreases p, 0int, p.entries.len() - i, 0int,
{
    if i < p.entries.len() {
        let last: MemoVal = mixed_of(m, path, p, q, u.depth, u.opts, i, f).0;
        lemma_entry_in(pool, p, i);
        match partner(q.entries, p.entries[i].0) {
            None => lemma_mixed_same(again, pool, m, n, path, p, q, u, v, i + 1, f),
            Some(j) => {
                lemma_partner(q.entries, p.entries[i].0, 0);
                lemma_entry_in(pool, q, j);
                let at: Seq<Seg> = path.push(key_seg(q.entries[j].0));
                let value: Val = p.entries[i].1;
                let other: Val = q.entries[j].1;
                let s: At = At { depth: u.depth + 1, opts: u.opts };
                let t: At = At { depth: v.depth + 1, opts: v.opts };
                let (k, found) = diff_of(m, at, value, other, s.depth, s.opts);
                let (l, also) = diff_of(n, at, value, other, t.depth, t.opts);
                lemma_diff_grows(pool, m, at, value, other, s.depth, s.opts);
                lemma_grows_same(k);
                if let Ok(g) = found {
                    lemma_mixed_grow(pool, k, path, p, q, u.depth, u.opts, i + 1, merged(f, g));
                }
                lemma_ready(again, pool, m, k, last, n);
                lemma_diff_same(again, pool, m, n, at, value, other, s, t);
                if let Ok(g) = found {
                    lemma_mixed_same(again, pool, k, l, path, p, q, u, v, i + 1, merged(f, g));
                }
            },
        }
    } else {
        lemma_lone_same(f, path, p, q, 0, false, u, v);
        let found: Outcome = lone_entries(
            f,
            path,
            p.entries,
            q.entries,
            0,
            false,
            u.depth,
            u.opts.max_depth as int,
        );
        if let Ok(g) = found {
            lemma_lone_same(g, path, q, p, 0, true, u, v);
        }
    }
}

proof fn lemma_lists_same(
    again: bool,
    pool: Set<Val>,
    m: MemoVal,
    n: MemoVal,
    x: Seq<Val>,
    y: Seq<Val>,
)
    requires
        all_in(x, pool),
        all_in(y, pool),
        ready(again, pool, m, lists_of(m, x, y).0, n),
    ensures
        arrived(again, pool, lists_of(m, x, y).0, n, lists_of(n, x, y).0),
        lists_of(m, x, y).1 == lists_of(n, x, y).1,
{
    let xlen: int = x.len() as int;
    let ylen: int = y.len() as int;
    let k: MemoVal = hashed(m, x, xlen).0;
    let l: MemoVal = hashed(n, x, xlen).0;
    lemma_lists_grow(pool, m, x, y);
    lemma_lists_grow(pool, n, x, y);
    lemma_hashed_grows(m, x, xlen);
    lemma_hashed_grows(n, x, xlen);
    lemma_hashed_grows(k, y, ylen);
    lemma_first_step(again, m, k, lists_of(m, x, y).0, n);
    lemma_hashed_linked(again, m, n, x, xlen);
    lemma_hashed_linked(again, k, l, y, ylen);
    lemma_beside_sound(pool, m, lists_of(m, x, y).0);
}

proof fn lemma_unordered_same(
    again: bool,
    pool: Set<Val>,
    m: MemoVal,
    n: MemoVal,
    path: Seq<Seg>,
    x: Seq<Val>,
    y: Seq<Val>,
    u: At,
    v: At,
)
    requires
        telling(pool),
        all_in(x, pool),
        all_in(y, pool),
        both_fit(Val::Array(x), Val::Array(y), u, v),
        ready(again, pool, m, unordered_of(m, path, x, y, u.depth, u.opts).0, n),
    ensures
        arrived(
            again,
            pool,
            unordered_of(m, path, x, y, u.depth, u.opts).0,
            n,
            unordered_of(n, path, x, y, v.depth, v.opts).0,
        ),
        unordered_of(m, path, x, y, u.depth, u.opts).1 == unordered_of(
            n,
            path,
            x,
            y,
            v.depth,
            v.opts,
        ).1,
    decreases x, 6int, 0int, 0int,
{
    let last: MemoVal = unordered_of(m, path, x, y, u.depth, u.opts).0;
    lemma_items_fit(path, x, 0, u.depth, u.opts.max_depth as int);
    lemma_items_fit(path, y, 0, u.depth, u.opts.max_depth as int);
    lemma_items_fit(path, x, 0, v.depth, v.opts.max_depth as int);
    lemma_items_fit(path, y, 0, v.depth, v.opts.max_depth as int);
    let (k, lists) = lists_of(m, x, y);
    let (l, others) = lists_of(n, x, y);
    lemma_lists_grow(pool, m, x, y);
    let (k2, partners) = paired(k, lists, u.depth, u.opts);
    let (l2, also) = paired(l, lists, v.depth, v.opts);
    lemma_pairs_grow(pool, k, lists, u.depth, u.opts);
    lemma_grows_same(k);
    lemma_found_grows(pool, k2, path, lists, partners, u.depth, u.opts, 0, nothing());
    assert(last == pairs_found(k2, path, lists, partners, u.depth, u.opts, 0, nothing()).0);
    lemma_grows(k, k2, last);
    lemma_ready(again, pool, m, k, last, n);
    lemma_lists_same(again, pool, m, n, x, y);
    assert(lists == others);
    lemma_members_measurable(x, u);
    lemma_members_measurable(y, u);
    lemma_members_measurable(x, v);
    lemma_members_measurable(y, v);
    assert(ready(again, pool, k, last, l));
    if pairable(
        lists.added.len(),
        lists.removed.len(),
        lists.first.keys.len(),
        lists.second.keys.len(),
    ) {
        lemma_ready(again, pool, k, k2, last, l);
        lemma_pairs_same(again, pool, k, l, lists, u, v);
    }
    assert(ready(again, pool, k2, last, l2));
    lemma_found_same(again, pool, k2, l2, path, lists, partners, u, v, 0, nothing());
}

/// Whether the distances of items may be measured.
pub open spec fn all_measurable(items: Seq<Val>, u: At) -> bool {
    forall|i: int| 0 <= i < items.len() ==> measurable(#[trigger] items[i], u.depth, u.opts)
}

proof fn lemma_members_measurable(items: Seq<Val>, u: At)
    requires
        fits(Val::Array(items), u.depth, u.opts),
    ensures
        all_measurable(items, u),
{
    assert forall|i: int| 0 <= i < items.len() implies measurable(
        #[trigger] items[i],
        u.depth,
        u.opts,
    ) by {
        lemma_child_height(Val::Array(items), i);
    }
}

/// Whether two lists can be paired at a depth.
pub open spec fn pairing(lists: Lists, pool: Set<Val>, u: At) -> bool {
    &&& telling(pool)
    &&& ranged(lists, pool)
    &&& u.opts.ignore_order
    &&& all_measurable(lists.old, u)
    &&& all_measurable(lists.new, u)
}

proof fn lemma_places_in(pool: Set<Val>, lists: Lists)
    requires
        ranged(lists, pool),
    ensures
        forall|c: int|
            0 <= c < lists.added.len() ==> pool.contains(
                lists.new[lists.second.firsts[(#[trigger] lists.added[c]) as int] as int],
            ),
        forall|c: int|
            0 <= c < lists.removed.len() ==> pool.contains(
                lists.old[lists.first.firsts[(#[trigger] lists.removed[c]) as int] as int],
            ),
{
    assert forall|c: int| 0 <= c < lists.added.len() implies pool.contains(
        lists.new[lists.second.firsts[(#[trigger] lists.added[c]) as int] as int],
    ) by {
        assert(0 <= added_at(lists, c) < lists.new.len());
    }
    assert forall|c: int| 0 <= c < lists.removed.len() implies pool.contains(
        lists.old[lists.first.firsts[(#[trigger] lists.removed[c]) as int] as int],
    ) by {
        assert(0 <= removed_at(lists, c) < lists.old.len());
    }
}

proof fn lemma_pairs_same(
    again: bool,
    pool: Set<Val>,
    m: MemoVal,
    n: MemoVal,
    lists: Lists,
    u: At,
    v: At,
)
    requires
        pairing(lists, pool, u),
        pairing(lists, pool, v),
        ready(again, pool, m, pairs_of(m, lists, u.depth, u.opts).0, n),
    ensures
        arrived(
            again,
            pool,
            pairs_of(m, lists, u.depth, u.opts).0,
            n,
            pairs_of(n, lists, v.depth, v.opts).0,
        ),
        pairs_of(m, lists, u.depth, u.opts).1 == pairs_of(n, lists, v.depth, v.opts).1,
    decreases lists.old, 5int, 0int, 0int,
{
    let last: MemoVal = pairs_of(m, lists, u.depth, u.opts).0;
    let added: int = lists.added.len() as int;
    let removed: int = lists.removed.len() as int;
    let (k, news) = held_items(m, lists.new, lists.second, lists.added, added);
    let (k2, olds) = held_items(k, lists.old, lists.first, lists.removed, removed);
    let (l, news2) = held_items(n, lists.new, lists.second, lists.added, added);
    let (l2, olds2) = held_items(l, lists.old, lists.first, lists.removed, removed);
    lemma_held_grow(m, lists.new, lists.second, lists.added, added);
    lemma_held_grow(k, lists.old, lists.first, lists.removed, removed);
    lemma_held_grow(n, lists.new, lists.second, lists.added, added);
    lemma_held_grow(l, lists.old, lists.first, lists.removed, removed);
    lemma_candidates_grow(pool, k2, lists, olds, news, u.depth, u.opts, 0, 0, seq![]);
    lemma_bounded(k2, last);
    lemma_bounded(k, k2);
    lemma_places_in(pool, lists);
    lemma_numbered(pool, m, lists.new, lists.second, lists.added, added);
    lemma_numbered(pool, k, lists.old, lists.first, lists.removed, removed);
    lemma_numbered_grows(k, k2, lists.new, lists.second, lists.added, news);
    assert(ready(again, pool, k2, last, l2));
    lemma_candidates_same(
        again,
        pool,
        k2,
        l2,
        lists,
        olds,
        news,
        olds2,
        news2,
        u,
        v,
        0,
        0,
        seq![],
    );
}

proof fn lemma_candidates_same(
    again: bool,
    pool: Set<Val>,
    m: MemoVal,
    n: MemoVal,
    lists: Lists,
    olds: Seq<Option<usize>>,
    news: Seq<Option<usize>>,
    olds2: Seq<Option<usize>>,
    news2: Seq<Option<usize>>,
    u: At,
    v: At,
    k: int,
    r: int,
    found: Ranking,
)
    requires
        pairing(lists, pool, u),
        pairing(lists, pool, v),
        olds.len() == lists.removed.len(),
        news.len() == lists.added.len(),
        numbered(m, lists.old, lists.first, lists.removed, olds),
        numbered(m, lists.new, lists.second, lists.added, news),
        0 <= k,
        0 <= r <= lists.removed.len(),
        ready(
            again,
            pool,
            m,
            candidates_of(m, lists, olds, news, u.depth, u.opts, k, r, found).0,
            n,
        ),
    ensures
        arrived(
            again,
            pool,
            candidates_of(m, lists, olds, news, u.depth, u.opts, k, r, found).0,
            n,
            candidates_of(n, lists, olds2, news2, v.depth, v.opts, k, r, found).0,
        ),
        candidates_of(m, lists, olds, news, u.depth, u.opts, k, r, found).1 == candidates_of(
            n,
            lists,
            olds2,
            news2,
            v.depth,
            v.opts,
            k,
            r,
            found,
        ).1,
    decreases lists.old, 4int, lists.added.len() - k, lists.removed.len() - r,
{
    if k < lists.added.len() {
        if r >= lists.removed.len() {
            lemma_candidates_same(
                again,
                pool,
                m,
                n,
                lists,
                olds,
                news,
                olds2,
                news2,
                u,
                v,
                k + 1,
                0,
                found,
            );
        } else {
            let last: MemoVal = candidates_of(
                m,
                lists,
                olds,
                news,
                u.depth,
                u.opts,
                k,
                r,
                found,
            ).0;
            let (s, distance) = distance_of(m, lists, olds, news, u.depth, u.opts, k, r);
            let (t, also) = distance_of(n, lists, olds2, news2, v.depth, v.opts, k, r);
            lemma_distance_grows(pool, m, lists, olds, news, u.depth, u.opts, k, r);
            let more: Ranking = if distance >= CUTOFF_DISTANCE_FOR_PAIRS {
                found
            } else {
                found.push((Candidate { distance, added: k as usize, removed: r as usize }, ()))
            };
            lemma_candidates_grow(pool, s, lists, olds, news, u.depth, u.opts, k, r + 1, more);
            lemma_ready(again, pool, m, s, last, n);
            lemma_distance_same(
                again,
                pool,
                m,
                n,
                lists,
                olds,
                news,
                olds2,
                news2,
                u,
                v,
                k,
                r,
            );
            lemma_numbered_grows(m, s, lists.old, lists.first, lists.removed, olds);
            lemma_numbered_grows(m, s, lists.new, lists.second, lists.added, news);
            lemma_candidates_same(
                again,
                pool,
                s,
                t,
                lists,
                olds,
                news,
                olds2,
                news2,
                u,
                v,
                k,
                r + 1,
                more,
            );
        }
    }
}

proof fn lemma_distance_same(
    again: bool,
    pool: Set<Val>,
    m: MemoVal,
    n: MemoVal,
    lists: Lists,
    olds: Seq<Option<usize>>,
    news: Seq<Option<usize>>,
    olds2: Seq<Option<usize>>,
    news2: Seq<Option<usize>>,
    u: At,
    v: At,
    k: int,
    r: int,
)
    requires
        pairing(lists, pool, u),
        pairing(lists, pool, v),
        olds.len() == lists.removed.len(),
        news.len() == lists.added.len(),
        numbered(m, lists.old, lists.first, lists.removed, olds),
        numbered(m, lists.new, lists.second, lists.added, news),
        0 <= k < lists.added.len(),
        0 <= r < lists.removed.len(),
        ready(
            again,
            pool,
            m,
            distance_of(m, lists, olds, news, u.depth, u.opts, k, r).0,
            n,
        ),
    ensures
        arrived(
            again,
            pool,
            distance_of(m, lists, olds, news, u.depth, u.opts, k, r).0,
            n,
            distance_of(n, lists, olds2, news2, v.depth, v.opts, k, r).0,
        ),
        distance_of(m, lists, olds, news, u.depth, u.opts, k, r).1 == distance_of(
            n,
            lists,
            olds2,
            news2,
            v.depth,
            v.opts,
            k,
            r,
        ).1,
    decreases lists.old, 3int, 0int, 0int,
{
    let last: MemoVal = distance_of(m, lists, olds, news, u.depth, u.opts, k, r).0;
    let i: int = removed_at(lists, r);
    let j: int = added_at(lists, k);
    let cutoff: u64 = CUTOFF_DISTANCE_FOR_PAIRS;
    let a: Val = lists.old[i];
    let b: Val = lists.new[j];
    assert(pool.contains(a) && pool.contains(b));
    assert(measurable(a, u.depth, u.opts) && measurable(b, u.depth, u.opts));
    assert(measurable(a, v.depth, v.opts) && measurable(b, v.depth, v.opts));
    let (t, also) = rough_of(n, a, b, cutoff, v.depth, v.opts);
    assert(distance_of(n, lists, olds2, news2, v.depth, v.opts, k, r) == (t, also));
    lemma_rough_grows(pool, m, a, b, cutoff, u.depth, u.opts);
    lemma_rough_grows(pool, n, a, b, cutoff, v.depth, v.opts);
    let (s, distance) = rough_of(m, a, b, cutoff, u.depth, u.opts);
    if m.enabled && olds[r] is Some && news[k] is Some {
        let c: usize = olds[r]->Some_0;
        let d: usize = news[k]->Some_0;
        assert(c < m.held.len() && m.held[c as int].1 == a);
        assert(d < m.held.len() && m.held[d as int].1 == b);
        if known(m, c, d) is Some {
            lemma_remembered(pool, m, c, d);
            lemma_same(m);
            lemma_linked(again, m, last, n);
            assert(blank(n) && extends(m, n));
        } else {
            assert(last == with_distance(s, c, d, distance));
            assert(same_tables(s, last));
            assert(bounded(s));
            assert(ready(again, pool, m, s, n));
            lemma_rough_same(again, pool, m, n, a, b, u, v);
            assert forall|o: MemoVal, depth: int, opts: Rules|
                blank(o) && extends(s, o) && opts.ignore_order && measurable(a, depth, opts)
                    && measurable(b, depth, opts) implies {
                let (end, e) = #[trigger] rough_of(o, a, b, cutoff, depth, opts);
                same_tables(o, end) && e == distance
            } by {
                lemma_rough_same(true, pool, m, o, a, b, u, At { depth, opts });
            }
            assert(recalled(s, a, b, distance));
            assert(m.held[c as int] == s.held.subrange(0, m.held.len() as int)[c as int]);
            assert(m.held[d as int] == s.held.subrange(0, m.held.len() as int)[d as int]);
            lemma_remembering(pool, s, c, d, distance);
        }
    } else {
        lemma_rough_same(again, pool, m, n, a, b, u, v);
    }
}

proof fn lemma_rough_same(
    again: bool,
    pool: Set<Val>,
    m: MemoVal,
    n: MemoVal,
    a: Val,
    b: Val,
    u: At,
    v: At,
)
    requires
        telling(pool),
        pool.contains(a),
        pool.contains(b),
        u.opts.ignore_order,
        v.opts.ignore_order,
        measurable(a, u.depth, u.opts),
        measurable(b, u.depth, u.opts),
        measurable(a, v.depth, v.opts),
        measurable(b, v.depth, v.opts),
        ready(
            again,
            pool,
            m,
            rough_of(m, a, b, CUTOFF_DISTANCE_FOR_PAIRS, u.depth, u.opts).0,
            n,
        ),
    ensures
        arrived(
            again,
            pool,
            rough_of(m, a, b, CUTOFF_DISTANCE_FOR_PAIRS, u.depth, u.opts).0,
            n,
            rough_of(n, a, b, CUTOFF_DISTANCE_FOR_PAIRS, v.depth, v.opts).0,
        ),
        rough_of(m, a, b, CUTOFF_DISTANCE_FOR_PAIRS, u.depth, u.opts).1 == rough_of(
            n,
            a,
            b,
            CUTOFF_DISTANCE_FOR_PAIRS,
            v.depth,
            v.opts,
        ).1,
    decreases a, 9int, 0int, 0int,
{
    if measures(a, b) is None {
        lemma_leaves_same(
            again,
            pool,
            m,
            n,
            a,
            b,
            At { depth: below(u.depth, u.opts.max_depth as int), opts: u.opts },
            At { depth: below(v.depth, v.opts.max_depth as int), opts: v.opts },
        );
    }
}

/// Whether the leaves of a value may be counted at a depth.
pub open spec fn countable(value: Val, u: At) -> bool {
    0 <= u.depth && height(value) <= room(u.depth, u.opts.max_depth as int)
}

/// Whether the leaves of two values may be counted at two depths.
spec fn both_countable(a: Val, b: Val, u: At, v: At) -> bool {
    &&& u.opts.ignore_order
    &&& v.opts.ignore_order
    &&& countable(a, u)
    &&& countable(b, u)
    &&& countable(a, v)
    &&& countable(b, v)
}

proof fn lemma_leaves_same(
    again: bool,
    pool: Set<Val>,
    m: MemoVal,
    n: MemoVal,
    a: Val,
    b: Val,
    u: At,
    v: At,
)
    requires
        telling(pool),
        pool.contains(a),
        pool.contains(b),
        both_countable(a, b, u, v),
        ready(again, pool, m, leaves_between(m, a, b, u.depth, u.opts).0, n),
    ensures
        arrived(
            again,
            pool,
            leaves_between(m, a, b, u.depth, u.opts).0,
            n,
            leaves_between(n, a, b, v.depth, v.opts).0,
        ),
        leaves_between(m, a, b, u.depth, u.opts).1 == leaves_between(
            n,
            a,
            b,
            v.depth,
            v.opts,
        ).1,
    decreases a, 8int, 0int, 0int,
{
    if both_lists(a, b) {
        lemma_all_in(pool, a);
        lemma_all_in(pool, b);
        lemma_trial(m, a, b, u);
        lemma_trial(n, a, b, v);
        lemma_unordered_same(
            again,
            pool,
            m,
            n,
            seq![],
            children(a),
            children(b),
            trial_at(u),
            trial_at(v),
        );
    } else if both_sets(a, b) {
        lemma_sets_grow(m, children(a), children(b));
        lemma_sets_grow(n, children(a), children(b));
        assert(leaves_between(m, a, b, u.depth, u.opts) == leaves_between_sets(
            m,
            children(a),
            children(b),
        ));
        assert(leaves_between(n, a, b, v.depth, v.opts) == leaves_between_sets(
            n,
            children(a),
            children(b),
        ));
        lemma_sets_linked(again, m, n, children(a), children(b));
        lemma_beside_sound(pool, m, set_changes(m, children(a), children(b)).0);
    } else {
        match (a, b) {
            (Val::Object(p), Val::Object(q)) => {
                lemma_step(tokens_kept(u.opts), tokens_kept(v.opts), a, b);
                match object_step(tokens_kept(u.opts), a, b) {
                    Step::Walk(_, _) => {
                        assert(leaves_between(m, a, b, u.depth, u.opts) == leaves_between_objects(
                            m,
                            p,
                            q,
                            u.depth,
                            u.opts,
                        ));
                        assert(leaves_between(n, a, b, v.depth, v.opts) == leaves_between_objects(
                            n,
                            p,
                            q,
                            v.depth,
                            v.opts,
                        ));
                        if !low_overlap(p.entries, q.entries) {
                            lemma_entry_leaves_same(again, pool, m, n, p, q, u, v, 0, 0);
                        }
                    },
                    _ => {
                        assert(leaves_between(m, a, b, u.depth, u.opts).0 == m);
                        assert(leaves_between(n, a, b, v.depth, v.opts).0 == n);
                    },
                }
            },
            _ => {
                assert(leaves_between(m, a, b, u.depth, u.opts).0 == m);
                assert(leaves_between(n, a, b, v.depth, v.opts).0 == n);
            },
        }
    }
}

proof fn lemma_entry_leaves_same(
    again: bool,
    pool: Set<Val>,
    m: MemoVal,
    n: MemoVal,
    p: ObjectVal,
    q: ObjectVal,
    u: At,
    v: At,
    i: int,
    count: nat,
)
    requires
        telling(pool),
        pool.contains(Val::Object(p)),
        pool.contains(Val::Object(q)),
        both_countable(Val::Object(p), Val::Object(q), u, v),
        0 <= i <= p.entries.len(),
        ready(
            again,
            pool,
            m,
            leaves_between_entries(m, p.entries, q.entries, u.depth, u.opts, i, count).0,
            n,
        ),
    ensures
        arrived(
            again,
            pool,
            leaves_between_entries(m, p.entries, q.entries, u.depth, u.opts, i, count).0,
            n,
            leaves_between_entries(n, p.entries, q.entries, v.depth, v.opts, i, count).0,
        ),
        leaves_between_entries(m, p.entries, q.entries, u.depth, u.opts, i, count).1
            == leaves_between_entries(n, p.entries, q.entries, v.depth, v.opts, i, count).1,
    decreases p, 6int, p.entries.len() - i, 0int,
{
    let x: Seq<(KeyVal, Val)> = p.entries;
    let y: Seq<(KeyVal, Val)> = q.entries;
    if i < x.len() {
        let last: MemoVal = leaves_between_entries(m, x, y, u.depth, u.opts, i, count).0;
        lemma_entry_in(pool, p, i);
        match partner(y, x[i].0) {
            None => lemma_entry_leaves_same(
                again,
                pool,
                m,
                n,
                p,
                q,
                u,
                v,
                i + 1,
                count + leaves(x[i].1),
            ),
            Some(j) => {
                lemma_partner(y, x[i].0, 0);
                lemma_entry_in(pool, q, j);
                let s: At = At { depth: below(u.depth, u.opts.max_depth as int), opts: u.opts };
                let t: At = At { depth: below(v.depth, v.opts.max_depth as int), opts: v.opts };
                let (k, more) = leaves_between(m, x[i].1, y[j].1, s.depth, s.opts);
                let (l, also) = leaves_between(n, x[i].1, y[j].1, t.depth, t.opts);
                lemma_leaves_grow(pool, m, x[i].1, y[j].1, s.depth, s.opts);
                lemma_entry_leaves_grow(pool, k, p, q, u.depth, u.opts, i + 1, count + more);
                lemma_ready(again, pool, m, k, last, n);
                lemma_leaves_same(again, pool, m, n, x[i].1, y[j].1, s, t);
                lemma_entry_leaves_same(again, pool, k, l, p, q, u, v, i + 1, count + more);
            },
        }
    }
}

proof fn lemma_found_same(
    again: bool,
    pool: Set<Val>,
    m: MemoVal,
    n: MemoVal,
    path: Seq<Seg>,
    lists: Lists,
    partners: Partners,
    u: At,
    v: At,
    k: int,
    f: Findings,
)
    requires
        pairing(lists, pool, u),
        pairing(lists, pool, v),
        0 <= k,
        ready(
            again,
            pool,
            m,
            pairs_found(m, path, lists, partners, u.depth, u.opts, k, f).0,
            n,
        ),
    ensures
        arrived(
            again,
            pool,
            pairs_found(m, path, lists, partners, u.depth, u.opts, k, f).0,
            n,
            pairs_found(n, path, lists, partners, v.depth, v.opts, k, f).0,
        ),
        pairs_found(m, path, lists, partners, u.depth, u.opts, k, f).1 == pairs_found(
            n,
            path,
            lists,
            partners,
            v.depth,
            v.opts,
            k,
            f,
        ).1,
    decreases lists.old, 1int, lists.added.len() - k, 0int,
{
    if k < lists.added.len() {
        let last: MemoVal = pairs_found(m, path, lists, partners, u.depth, u.opts, k, f).0;
        let j: int = added_at(lists, k);
        let b: Val = lists.new[j];
        match partners[k] {
            Some(p) => {
                let i: int = removed_at(lists, p.0 as int);
                if 0 <= i < lists.old.len() {
                    let a: Val = lists.old[i];
                    assert(pool.contains(a) && pool.contains(b));
                    assert(measurable(a, u.depth, u.opts) && measurable(b, u.depth, u.opts));
                    assert(measurable(a, v.depth, v.opts) && measurable(b, v.depth, v.opts));
                    let at: Seq<Seg> = item_path(path, i);
                    let (s, found) = diff_of(m, at, a, b, u.depth, u.opts);
                    let (t, also) = diff_of(n, at, a, b, v.depth, v.opts);
                    lemma_diff_grows(pool, m, at, a, b, u.depth, u.opts);
                    lemma_grows_same(s);
                    if let Ok(g) = found {
                        let h: Findings = merged(f, placed(g, path, i, j));
                        lemma_found_grows(
                            pool,
                            s,
                            path,
                            lists,
                            partners,
                            u.depth,
                            u.opts,
                            k + 1,
                            h,
                        );
                    }
                    lemma_ready(again, pool, m, s, last, n);
                    lemma_diff_same(again, pool, m, n, at, a, b, u, v);
                    if let Ok(g) = found {
                        let h: Findings = merged(f, placed(g, path, i, j));
                        lemma_found_same(
                            again,
                            pool,
                            s,
                            t,
                            path,
                            lists,
                            partners,
                            u,
                            v,
                            k + 1,
                            h,
                        );
                    }
                }
            },
            None => lemma_found_same(
                again,
                pool,
                m,
                n,
                path,
                lists,
                partners,
                u,
                v,
                k + 1,
                with_item_added(f, item_path(path, j), b),
            ),
        }
    }
}

/// What is found between two paired items, in its place.
spec fn placed(f: Findings, path: Seq<Seg>, i: int, j: int) -> Findings {
    if i != j {
        retagged(mutual_merged(f), path.len() as int, j)
    } else {
        mutual_merged(f)
    }
}

// ---------------------------------------------------------------------
// The laws
// ---------------------------------------------------------------------

/// A memo that remembers nothing yet is ready to be followed.
proof fn lemma_fresh(pool: Set<Val>, last: MemoVal)
    requires
        bounded(last),
    ensures
        ready(false, pool, fresh(true), last, fresh(false)),
{
}

/// Remembering distances changes no report: values without tokens that nest no deeper
/// than the limit are reported the same by a comparison that remembers distances and by
/// one that does not, whatever they are, if no two of their parts are equal without
/// being the same and as many values are remembered as numbers reach.
pub proof fn lemma_memo_neutral(a: Val, b: Val, opts: Rules)
    requires
        opts.ignore_order,
        told_apart(parts_of(a, b)),
        height(a) <= opts.max_depth,
        height(b) <= opts.max_depth,
        bounded(comparison(fresh(true), a, b, opts).0),
    ensures
        comparison(fresh(true), a, b, opts).1 == comparison(fresh(false), a, b, opts).1,
{
    if !same_value(a, b) {
        let u: At = At { depth: 0, opts };
        let pool: Set<Val> = parts_of(a, b);
        lemma_parts(a, b);
        lemma_fresh(pool, diff_of(fresh(true), seq![], a, b, 0, opts).0);
        lemma_diff_same(false, pool, fresh(true), fresh(false), seq![], a, b, u, u);
    }
}

/// The limit on depth changes no report either: values without tokens that nest no
/// deeper than two limits are reported the same without order under both, if no two of
/// their parts are equal without being the same and as many values are remembered as
/// numbers reach.
pub proof fn lemma_limit_neutral(a: Val, b: Val, opts: Rules, other: Rules)
    requires
        opts.ignore_order,
        other.ignore_order,
        told_apart(parts_of(a, b)),
        height(a) <= opts.max_depth,
        height(b) <= opts.max_depth,
        height(a) <= other.max_depth,
        height(b) <= other.max_depth,
        bounded(comparison(fresh(true), a, b, opts).0),
        bounded(comparison(fresh(true), a, b, other).0),
    ensures
        comparison(fresh(true), a, b, opts).1 == comparison(fresh(true), a, b, other).1,
{
    if !same_value(a, b) {
        let u: At = At { depth: 0, opts };
        let v: At = At { depth: 0, opts: other };
        let pool: Set<Val> = parts_of(a, b);
        lemma_parts(a, b);
        lemma_fresh(pool, diff_of(fresh(true), seq![], a, b, 0, opts).0);
        lemma_fresh(pool, diff_of(fresh(true), seq![], a, b, 0, other).0);
        lemma_diff_same(false, pool, fresh(true), fresh(false), seq![], a, b, u, v);
        lemma_diff_same(false, pool, fresh(true), fresh(false), seq![], a, b, v, v);
    }
}

/// Remembering distances changes no pairs: the items of two lists go together the same
/// way where distances are remembered and where they are not, if the lists hold no token
/// and nest no deeper than the limit, no two of their parts are equal without being the
/// same, and as many values are remembered as numbers reach.
pub proof fn lemma_pairs_neutral(x: Seq<Val>, y: Seq<Val>, depth: int, opts: Rules)
    requires
        opts.ignore_order,
        told_apart(parts_of(Val::Array(x), Val::Array(y))),
        fits(Val::Array(x), depth, opts),
        fits(Val::Array(y), depth, opts),
        ({
            let (m, lists) = lists_of(fresh(true), x, y);
            bounded(pairs_of(m, lists, depth, opts).0)
        }),
    ensures
        ({
            let (m, lists) = lists_of(fresh(true), x, y);
            let (n, others) = lists_of(fresh(false), x, y);
            lists == others && pairs_of(m, lists, depth, opts).1 == pairs_of(
                n,
                others,
                depth,
                opts,
            ).1
        }),
{
    let a: Val = Val::Array(x);
    let b: Val = Val::Array(y);
    let u: At = At { depth, opts };
    let pool: Set<Val> = parts_of(a, b);
    lemma_parts(a, b);
    lemma_all_in(pool, a);
    lemma_all_in(pool, b);
    let (m, lists) = lists_of(fresh(true), x, y);
    let (n, others) = lists_of(fresh(false), x, y);
    let last: MemoVal = pairs_of(m, lists, depth, opts).0;
    lemma_fresh(pool, last);
    lemma_lists_grow(pool, fresh(true), x, y);
    lemma_pairs_grow(pool, m, lists, depth, opts);
    lemma_ready(false, pool, fresh(true), m, last, fresh(false));
    lemma_lists_same(false, pool, fresh(true), fresh(false), x, y);
    lemma_members_measurable(x, u);
    lemma_members_measurable(y, u);
    assert(ready(false, pool, m, last, n));
    lemma_pairs_same(false, pool, m, n, lists, u, u);
}

} // verus!
