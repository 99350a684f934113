//! Lists that differ in the order and the repetition of their items alone have
//! the same keys, and so nothing is found between them.

use vstd::prelude::*;

#[allow(unused_imports)]
use super::hash::{
    entry_keys, hashed, key_item, keyed_of, keys_of, lacking, scalar_item, tuple_keys, HashedVal,
};
#[allow(unused_imports)]
use super::keys::{ContentVal, HashVal, Keys};
#[allow(unused_imports)]
use super::members::{
    container_member, entry_reps, hashable, member_of, member_parts, member_with, members_of,
    number_set, reps, set_changes, unmatched, Member,
};
#[allow(unused_imports)]
use super::memo::{with_content, with_item, with_node, with_part, with_tuple, MemoVal};
#[allow(unused_imports)]
use crate::canonical::scalar;
#[allow(unused_imports)]
use crate::intern::{slot, with_key};
#[allow(unused_imports)]
use crate::order::{ascending, lemma_ascending_identified, lemma_put, lookup};
#[allow(unused_imports)]
use crate::scalar_key::lasting_scalar;
#[allow(unused_imports)]
use crate::value::{KeyVal, Val};
#[allow(unused_imports)]
use crate::walk::{children, lemma_children, lemma_member, total, weight};

verus! {

/// Whether two values are the same but for the order and the repetition of the
/// items of the lists in them, and for scalars that are not told apart as items,
/// such as the two zeros.
pub open spec fn alike(a: Val, b: Val) -> bool
    decreases a, 0int,
{
    match (a, b) {
        (Val::Array(x), Val::Array(y)) => {
            &&& forall|i: int| 0 <= i < x.len() ==> like_one(#[trigger] x[i], y)
            &&& forall|j: int| 0 <= j < y.len() ==> one_like(x, #[trigger] y[j])
        },
        (Val::Tuple(x), Val::Tuple(y)) => {
            &&& x.len() == y.len()
            &&& forall|i: int| 0 <= i < x.len() ==> alike_part(#[trigger] x[i], y[i])
        },
        (Val::MutableSet(x), Val::MutableSet(y)) => {
            &&& x.len() == y.len()
            &&& forall|i: int| 0 <= i < x.len() ==> alike(#[trigger] x[i], y[i])
        },
        (Val::FrozenSet(x), Val::FrozenSet(y)) => {
            &&& x.len() == y.len()
            &&& forall|i: int| 0 <= i < x.len() ==> alike(#[trigger] x[i], y[i])
        },
        (Val::Object(p), Val::Object(q)) => {
            &&& p.kind == q.kind
            &&& p.class_name == q.class_name
            &&& p.identity == q.identity
            &&& p.entries.len() == q.entries.len()
            &&& forall|i: int|
                #![trigger p.entries[i]]
                0 <= i < p.entries.len() ==> p.entries[i].0 == q.entries[i].0 && alike(
                    p.entries[i].1,
                    q.entries[i].1,
                )
        },
        _ => scalar(a) && scalar(b) && scalar_item(a) == scalar_item(b),
    }
}

/// Whether two items of tuples are alike, and are not told apart by Python either
/// if they are scalars.
pub open spec fn alike_part(a: Val, b: Val) -> bool
    decreases a, 1int,
{
    alike(a, b) && (scalar(a) ==> lasting_scalar(a) == lasting_scalar(b))
}

/// Whether a value is like one of several.
pub open spec fn like_one(a: Val, y: Seq<Val>) -> bool
    decreases a, 1int,
{
    exists|j: int| 0 <= j < y.len() && alike(a, #[trigger] y[j])
}

/// Whether one of several values is like a value.
pub open spec fn one_like(x: Seq<Val>, b: Val) -> bool
    decreases x, 1int,
{
    exists|i: int| 0 <= i < x.len() && alike(#[trigger] x[i], b)
}

/// Lists are alike where each item of one is like an item of the other.
pub proof fn lemma_like_items(x: Seq<Val>, y: Seq<Val>)
    ensures
        alike(Val::Array(x), Val::Array(y)) <==> (forall|i: int|
            0 <= i < x.len() ==> like_one(#[trigger] x[i], y)) && (forall|j: int|
            0 <= j < y.len() ==> one_like(x, #[trigger] y[j])),
{
    let a: Val = Val::Array(x);
    let b: Val = Val::Array(y);
    if alike(a, b) {
        match (a, b) {
            (Val::Array(u), Val::Array(v)) => {
                assert forall|i: int| 0 <= i < u.len() implies like_one(#[trigger] u[i], v) by {
                    assert(alike(a, b));
                }
                assert forall|j: int| 0 <= j < v.len() implies one_like(u, #[trigger] v[j]) by {
                    assert(alike(a, b));
                }
            }
            _ => {},
        }
    }
    if (forall|i: int| 0 <= i < x.len() ==> like_one(#[trigger] x[i], y)) && (forall|j: int|
        0 <= j < y.len() ==> one_like(x, #[trigger] y[j])) {
        assert(alike(a, b));
    }
}

/// A value is like itself.
pub proof fn lemma_alike(a: Val)
    ensures
        alike(a, a),
        alike_part(a, a),
    decreases a,
{
    match a {
        Val::Tuple(x) | Val::MutableSet(x) | Val::FrozenSet(x) => {
            assert forall|i: int| 0 <= i < x.len() implies alike(#[trigger] x[i], x[i])
                && alike_part(x[i], x[i]) by {
                lemma_alike(x[i]);
            }
        },
        Val::Array(x) => {
            assert forall|i: int| 0 <= i < x.len() implies like_one(#[trigger] x[i], x) && one_like(
                x,
                x[i],
            ) by {
                lemma_alike(x[i]);
            }
        },
        Val::Object(p) => {
            assert forall|i: int| #![trigger p.entries[i]] 0 <= i < p.entries.len() implies alike(
                p.entries[i].1,
                p.entries[i].1,
            ) by {
                lemma_alike(p.entries[i].1);
            }
        },
        _ => {},
    }
}

// ---------------------------------------------------------------------
// Numbers that stay
// ---------------------------------------------------------------------

/// Whether the tables that number items hold nothing twice.
pub open spec fn tables(m: MemoVal) -> bool {
    &&& m.items.no_duplicates()
    &&& m.parts.no_duplicates()
    &&& m.tuples.no_duplicates()
    &&& m.tuple_items.len() == m.tuples.len()
    &&& m.nodes.no_duplicates()
    &&& m.node_reps.len() == m.nodes.len()
    &&& m.contents.no_duplicates()
}

/// Whether a memo numbers all that an earlier one did, as that one did.
pub open spec fn extends(m: MemoVal, n: MemoVal) -> bool {
    &&& m.items.is_prefix_of(n.items)
    &&& m.parts.is_prefix_of(n.parts)
    &&& m.tuples.is_prefix_of(n.tuples)
    &&& m.tuple_items.is_prefix_of(n.tuple_items)
    &&& m.nodes.is_prefix_of(n.nodes)
    &&& m.node_reps.is_prefix_of(n.node_reps)
    &&& m.contents.is_prefix_of(n.contents)
}

/// Whether two memos hold the same but for the tables that number items.
pub open spec fn beside(m: MemoVal, n: MemoVal) -> bool {
    &&& m.held == n.held
    &&& m.pairs == n.pairs
    &&& m.distances == n.distances
    &&& m.enabled == n.enabled
}

proof fn lemma_prefix<V>(a: Seq<V>, b: Seq<V>, c: Seq<V>)
    requires
        a.is_prefix_of(b),
        b.is_prefix_of(c),
    ensures
        a.is_prefix_of(c),
{
    assert(a =~= c.subrange(0, a.len() as int)) by {
        assert forall|i: int| 0 <= i < a.len() implies a[i] == c[i] by {
            assert(a[i] == b.subrange(0, a.len() as int)[i]);
            assert(b[i] == c.subrange(0, b.len() as int)[i]);
        }
    }
}

pub proof fn lemma_extends(l: MemoVal, m: MemoVal, n: MemoVal)
    requires
        extends(l, m),
        extends(m, n),
    ensures
        extends(l, n),
{
    lemma_prefix(l.items, m.items, n.items);
    lemma_prefix(l.parts, m.parts, n.parts);
    lemma_prefix(l.tuples, m.tuples, n.tuples);
    lemma_prefix(l.tuple_items, m.tuple_items, n.tuple_items);
    lemma_prefix(l.nodes, m.nodes, n.nodes);
    lemma_prefix(l.node_reps, m.node_reps, n.node_reps);
    lemma_prefix(l.contents, m.contents, n.contents);
}

pub proof fn lemma_same(m: MemoVal)
    ensures
        extends(m, m),
{
    assert(m.items =~= m.items.subrange(0, m.items.len() as int));
    assert(m.parts =~= m.parts.subrange(0, m.parts.len() as int));
    assert(m.tuples =~= m.tuples.subrange(0, m.tuples.len() as int));
    assert(m.tuple_items =~= m.tuple_items.subrange(0, m.tuple_items.len() as int));
    assert(m.nodes =~= m.nodes.subrange(0, m.nodes.len() as int));
    assert(m.node_reps =~= m.node_reps.subrange(0, m.node_reps.len() as int));
    assert(m.contents =~= m.contents.subrange(0, m.contents.len() as int));
}

/// A table with a key in it.
proof fn lemma_with_key<V>(table: Seq<V>, key: V)
    requires
        table.no_duplicates(),
    ensures
        with_key(table, key).no_duplicates(),
        table.is_prefix_of(with_key(table, key)),
        with_key(table, key).contains(key),
        slot(with_key(table, key), key) == slot(table, key),
        slot(table, key) < with_key(table, key).len(),
        with_key(table, key)[slot(table, key) as int] == key,
{
    let after: Seq<V> = with_key(table, key);
    assert(table =~= after.subrange(0, table.len() as int));
    if !table.contains(key) {
        assert(after[table.len() as int] == key);
    }
}

/// A key keeps its number as the table grows.
pub proof fn lemma_slot_stays<V>(table: Seq<V>, longer: Seq<V>, key: V)
    requires
        table.no_duplicates(),
        longer.no_duplicates(),
        with_key(table, key).is_prefix_of(longer),
    ensures
        longer.contains(key),
        slot(longer, key) == slot(table, key),
        with_key(longer, key) == longer,
{
    lemma_with_key(table, key);
    let first: Seq<V> = with_key(table, key);
    let i: int = slot(table, key) as int;
    assert(first[i] == longer.subrange(0, first.len() as int)[i]);
    assert(longer[i] == key);
}

proof fn lemma_part(m: MemoVal, part: super::keys::PartVal)
    requires
        tables(m),
    ensures
        tables(with_part(m, part).0),
        extends(m, with_part(m, part).0),
        beside(m, with_part(m, part).0),
{
    lemma_same(m);
    lemma_with_key(m.parts, part);
}

pub proof fn lemma_item(m: MemoVal, item: super::keys::ItemVal)
    requires
        tables(m),
    ensures
        tables(with_item(m, item).0),
        extends(m, with_item(m, item).0),
        beside(m, with_item(m, item).0),
{
    lemma_same(m);
    lemma_with_key(m.items, item);
}

proof fn lemma_tuple(m: MemoVal, parts: Seq<usize>, children: Keys)
    requires
        tables(m),
    ensures
        tables(with_tuple(m, parts, children).0),
        extends(m, with_tuple(m, parts, children).0),
        beside(m, with_tuple(m, parts, children).0),
{
    lemma_same(m);
    let key = super::keys::HashVal::Tuple(parts);
    if !m.tuples.contains(key) {
        lemma_item(m, super::keys::ItemVal::Tuple(children));
        lemma_with_key(m.tuples, key);
        let n = with_tuple(m, parts, children).0;
        assert(m.tuple_items =~= n.tuple_items.subrange(0, m.tuple_items.len() as int));
    }
}

/// A tuple keeps its number and its item as the tables grow.
proof fn lemma_tuple_stays(m: MemoVal, parts: Seq<usize>, children: Keys, n: MemoVal)
    requires
        tables(m),
        tables(n),
        extends(with_tuple(m, parts, children).0, n),
    ensures
        with_tuple(n, parts, children) == (
            n,
            with_tuple(m, parts, children).1,
            with_tuple(m, parts, children).2,
        ),
{
    let key = super::keys::HashVal::Tuple(parts);
    let first = with_tuple(m, parts, children).0;
    lemma_tuple(m, parts, children);
    lemma_slot_stays(m.tuples, n.tuples, key);
    let i: int = slot(m.tuples, key) as int;
    assert(first.tuple_items[i] == n.tuple_items.subrange(0, first.tuple_items.len() as int)[i]);
}

/// Finding a key only adds to the tables.
pub proof fn lemma_keyed(m: MemoVal, value: Val, wanted: bool)
    requires
        tables(m),
    ensures
        tables(keyed_of(m, value, wanted).0),
        extends(m, keyed_of(m, value, wanted).0),
        beside(m, keyed_of(m, value, wanted).0),
    decreases value, 0int,
{
    let n = keyed_of(m, value, wanted).0;
    match value {
        Val::Array(items) => {
            let (l, keys) = keys_of(m, items, items.len() as int);
            lemma_keys(m, items, items.len() as int);
            lemma_item(l, super::keys::ItemVal::List(keys));
            lemma_extends(m, l, n);
        },
        Val::MutableSet(items) => {
            let (l, keys) = keys_of(m, items, items.len() as int);
            lemma_keys(m, items, items.len() as int);
            lemma_item(l, super::keys::ItemVal::MutableSet(keys));
            lemma_extends(m, l, n);
        },
        Val::FrozenSet(items) => {
            let (l, keys) = keys_of(m, items, items.len() as int);
            lemma_keys(m, items, items.len() as int);
            lemma_item(l, super::keys::ItemVal::FrozenSet(keys));
            lemma_extends(m, l, n);
        },
        Val::Tuple(items) => {
            let (l, keys, parts) = tuple_keys(m, items, items.len() as int);
            lemma_tuple_keys(m, items, items.len() as int);
            match parts {
                None => {
                    lemma_item(l, super::keys::ItemVal::Tuple(keys));
                    lemma_extends(m, l, n);
                },
                Some(parts) => {
                    let (k, tuple, item) = with_tuple(l, parts, keys);
                    lemma_tuple(l, parts, keys);
                    lemma_part(k, super::keys::PartVal::Tuple(tuple));
                    lemma_extends(m, l, k);
                    lemma_extends(m, k, n);
                },
            }
        },
        Val::Object(object) => {
            let (l, pairs) = entry_keys(m, object.entries, object.entries.len() as int);
            lemma_entry_keys(m, object.entries, object.entries.len() as int);
            lemma_item(l, super::hash::object_item(object, pairs));
            lemma_extends(m, l, n);
        },
        _ => {
            let (l, item) = with_item(m, super::hash::scalar_item(value));
            lemma_item(m, super::hash::scalar_item(value));
            lemma_same(l);
            match crate::scalar_key::lasting_scalar(value) {
                Some(key) if wanted => {
                    lemma_part(l, super::keys::PartVal::Scalar(key));
                    lemma_extends(m, l, n);
                },
                _ => {},
            }
        },
    }
}

pub proof fn lemma_keys(m: MemoVal, items: Seq<Val>, count: int)
    requires
        tables(m),
    ensures
        tables(keys_of(m, items, count).0),
        extends(m, keys_of(m, items, count).0),
        beside(m, keys_of(m, items, count).0),
    decreases items, count,
{
    lemma_same(m);
    if 0 < count <= items.len() {
        let (l, keys) = keys_of(m, items, count - 1);
        lemma_keys(m, items, count - 1);
        lemma_keyed(l, items[count - 1], false);
        lemma_extends(m, l, keys_of(m, items, count).0);
    }
}

proof fn lemma_tuple_keys(m: MemoVal, items: Seq<Val>, count: int)
    requires
        tables(m),
    ensures
        tables(tuple_keys(m, items, count).0),
        extends(m, tuple_keys(m, items, count).0),
        beside(m, tuple_keys(m, items, count).0),
    decreases items, count,
{
    lemma_same(m);
    if 0 < count <= items.len() {
        let (l, keys, parts) = tuple_keys(m, items, count - 1);
        lemma_tuple_keys(m, items, count - 1);
        lemma_keyed(l, items[count - 1], parts is Some);
        lemma_extends(m, l, tuple_keys(m, items, count).0);
    }
}

pub proof fn lemma_entry_keys(m: MemoVal, entries: Seq<(KeyVal, Val)>, count: int)
    requires
        tables(m),
    ensures
        tables(entry_keys(m, entries, count).0),
        extends(m, entry_keys(m, entries, count).0),
        beside(m, entry_keys(m, entries, count).0),
    decreases entries, count,
{
    lemma_same(m);
    if 0 < count <= entries.len() {
        let (l, pairs) = entry_keys(m, entries, count - 1);
        lemma_entry_keys(m, entries, count - 1);
        let k = key_item(l, entries[count - 1].0).0;
        lemma_key_item(l, entries[count - 1].0);
        lemma_keyed(k, entries[count - 1].1, false);
        lemma_extends(m, l, k);
        lemma_extends(m, k, entry_keys(m, entries, count).0);
    }
}

pub proof fn lemma_key_item(m: MemoVal, key: KeyVal)
    requires
        tables(m),
    ensures
        tables(key_item(m, key).0),
        extends(m, key_item(m, key).0),
        beside(m, key_item(m, key).0),
    decreases key, 0int,
{
    match key {
        KeyVal::Str(s) => lemma_item(m, super::keys::ItemVal::Str(s)),
        KeyVal::Other(value) => lemma_keyed(m, *value, false),
    }
}

// ---------------------------------------------------------------------
// The keys of what is alike
// ---------------------------------------------------------------------

/// The key of the `i`th item of a list whose keys are found one by one.
pub open spec fn key_at(m: MemoVal, items: Seq<Val>, i: int) -> usize {
    keyed_of(keys_of(m, items, i).0, items[i], false).1
}

/// The keys of a list are those of its items.
pub proof fn lemma_keys_held(m: MemoVal, items: Seq<Val>, count: int)
    requires
        0 <= count <= items.len(),
    ensures
        ascending::<usize, ()>(keys_of(m, items, count).1),
        forall|key: usize|
            (#[trigger] lookup(keys_of(m, items, count).1, key)) is Some <==> exists|i: int|
                0 <= i < count && #[trigger] key_at(m, items, i) == key,
    decreases count,
{
    if count > 0 {
        let before: Keys = keys_of(m, items, count - 1).1;
        let last: usize = key_at(m, items, count - 1);
        let after: Keys = keys_of(m, items, count).1;
        lemma_keys_held(m, items, count - 1);
        lemma_put::<usize, ()>(before, last, ());
        assert forall|key: usize| (#[trigger] lookup(after, key)) is Some <==> exists|i: int|
            0 <= i < count && #[trigger] key_at(m, items, i) == key by {
            assert(lookup(after, key) is Some <==> key == last || lookup(before, key) is Some);
            if key == last {
                assert(key_at(m, items, count - 1) == key);
            }
        }
    }
}

/// The key of an item found again.
proof fn lemma_key_again(m: MemoVal, x: Seq<Val>, i: int, b: Val, n: MemoVal)
    requires
        tables(m),
        tables(n),
        extends(keys_of(m, x, x.len() as int).0, n),
        0 <= i < x.len(),
        alike(x[i], b),
    ensures
        keyed_of(n, b, false).0 == n,
        keyed_of(n, b, false).1 == key_at(m, x, i),
    decreases x, 0int, 0int,
{
    let l: MemoVal = keys_of(m, x, i).0;
    lemma_keys(m, x, i);
    lemma_keyed(l, x[i], false);
    lemma_keys_grow(m, x, i + 1, x.len() as int);
    lemma_extends(keyed_of(l, x[i], false).0, keys_of(m, x, x.len() as int).0, n);
    lemma_keyed_again(l, x[i], b, false, n);
}

/// The keys of a list found again: a list of which each item is like one of the
/// first list adds nothing to the tables.
pub proof fn lemma_keys_again(m: MemoVal, x: Seq<Val>, y: Seq<Val>, n: MemoVal, count: int)
    requires
        tables(m),
        tables(n),
        extends(keys_of(m, x, x.len() as int).0, n),
        0 <= count <= y.len(),
        forall|j: int| 0 <= j < y.len() ==> one_like(x, #[trigger] y[j]),
    ensures
        keys_of(n, y, count).0 == n,
    decreases x, count, 1int,
{
    if count > 0 {
        lemma_keys_again(m, x, y, n, count - 1);
        let b: Val = y[count - 1];
        assert(one_like(x, b));
        let i: int = choose|i: int| 0 <= i < x.len() && alike(#[trigger] x[i], b);
        lemma_key_again(m, x, i, b, n);
    }
}

/// The tables only grow along a list.
pub proof fn lemma_keys_grow(m: MemoVal, items: Seq<Val>, i: int, count: int)
    requires
        tables(m),
        0 <= i <= count <= items.len(),
    ensures
        extends(keys_of(m, items, i).0, keys_of(m, items, count).0),
    decreases count - i,
{
    lemma_same(keys_of(m, items, i).0);
    if i < count {
        lemma_keys_grow(m, items, i, count - 1);
        let l: MemoVal = keys_of(m, items, count - 1).0;
        lemma_keys(m, items, count - 1);
        lemma_keyed(l, items[count - 1], false);
        lemma_extends(keys_of(m, items, i).0, l, keys_of(m, items, count).0);
    }
}

/// A value like one whose key was found has that key, and adds nothing to the
/// tables.
pub proof fn lemma_keyed_again(m: MemoVal, a: Val, b: Val, wanted: bool, n: MemoVal)
    requires
        tables(m),
        tables(n),
        extends(keyed_of(m, a, wanted).0, n),
        alike(a, b),
        wanted ==> alike_part(a, b),
    ensures
        keyed_of(n, b, wanted) == (n, keyed_of(m, a, wanted).1, keyed_of(m, a, wanted).2),
    decreases a, 0int, 2int,
{
    match (a, b) {
        (Val::Array(x), Val::Array(y)) => {
            let (l, keys) = keys_of(m, x, x.len() as int);
            lemma_keys(m, x, x.len() as int);
            lemma_item(l, super::keys::ItemVal::List(keys));
            lemma_extends(l, keyed_of(m, a, wanted).0, n);
            lemma_keys_again(m, x, y, n, y.len() as int);
            let again: Keys = keys_of(n, y, y.len() as int).1;
            lemma_keys_held(m, x, x.len() as int);
            lemma_keys_held(n, y, y.len() as int);
            assert forall|key: usize| #[trigger] lookup(keys, key) == lookup(again, key) by {
                if lookup(keys, key) is Some {
                    let i: int = choose|i: int|
                        0 <= i < x.len() && #[trigger] key_at(m, x, i) == key;
                    assert(like_one(x[i], y));
                    let j: int = choose|j: int| 0 <= j < y.len() && alike(x[i], #[trigger] y[j]);
                    lemma_key_again(m, x, i, y[j], n);
                    lemma_keys_again(m, x, y, n, j);
                    assert(key_at(n, y, j) == key);
                }
                if lookup(again, key) is Some {
                    let j: int = choose|j: int|
                        0 <= j < y.len() && #[trigger] key_at(n, y, j) == key;
                    assert(one_like(x, y[j]));
                    let i: int = choose|i: int| 0 <= i < x.len() && alike(#[trigger] x[i], y[j]);
                    lemma_key_again(m, x, i, y[j], n);
                    lemma_keys_again(m, x, y, n, j);
                    assert(key_at(m, x, i) == key);
                }
            }
            lemma_ascending_identified::<usize, ()>(keys, again);
            lemma_slot_stays(l.items, n.items, super::keys::ItemVal::List(keys));
        },
        (Val::Object(p), Val::Object(q)) => {
            let len: int = p.entries.len() as int;
            let (l, pairs) = entry_keys(m, p.entries, len);
            lemma_entry_keys(m, p.entries, len);
            lemma_item(l, super::hash::object_item(p, pairs));
            lemma_extends(l, keyed_of(m, a, wanted).0, n);
            lemma_entries_again(m, p.entries, q.entries, n, len);
            lemma_slot_stays(l.items, n.items, super::hash::object_item(p, pairs));
        },
        (Val::Tuple(items), Val::Tuple(others)) => {
            let (l, keys, parts) = tuple_keys(m, items, items.len() as int);
            lemma_tuple_keys(m, items, items.len() as int);
            match parts {
                None => {
                    lemma_item(l, super::keys::ItemVal::Tuple(keys));
                    lemma_extends(l, keyed_of(m, a, wanted).0, n);
                    lemma_tuple_again(m, items, others, n, items.len() as int);
                    lemma_slot_stays(l.items, n.items, super::keys::ItemVal::Tuple(keys));
                },
                Some(parts) => {
                    let (k, tuple, item) = with_tuple(l, parts, keys);
                    lemma_tuple(l, parts, keys);
                    lemma_part(k, super::keys::PartVal::Tuple(tuple));
                    lemma_extends(k, keyed_of(m, a, wanted).0, n);
                    lemma_extends(l, k, n);
                    lemma_tuple_again(m, items, others, n, items.len() as int);
                    lemma_tuple_stays(l, parts, keys, n);
                    lemma_slot_stays(k.parts, n.parts, super::keys::PartVal::Tuple(tuple));
                },
            }
        },
        (Val::MutableSet(items), Val::MutableSet(others)) => {
            let (l, keys) = keys_of(m, items, items.len() as int);
            lemma_keys(m, items, items.len() as int);
            lemma_item(l, super::keys::ItemVal::MutableSet(keys));
            lemma_extends(l, keyed_of(m, a, wanted).0, n);
            lemma_set_again(m, items, others, n, items.len() as int);
            lemma_slot_stays(l.items, n.items, super::keys::ItemVal::MutableSet(keys));
        },
        (Val::FrozenSet(items), Val::FrozenSet(others)) => {
            let (l, keys) = keys_of(m, items, items.len() as int);
            lemma_keys(m, items, items.len() as int);
            lemma_item(l, super::keys::ItemVal::FrozenSet(keys));
            lemma_extends(l, keyed_of(m, a, wanted).0, n);
            lemma_set_again(m, items, others, n, items.len() as int);
            lemma_slot_stays(l.items, n.items, super::keys::ItemVal::FrozenSet(keys));
        },
        _ => {
            let held = super::hash::scalar_item(a);
            let (l, item) = with_item(m, held);
            lemma_item(m, held);
            match crate::scalar_key::lasting_scalar(a) {
                Some(key) if wanted => {
                    lemma_part(l, super::keys::PartVal::Scalar(key));
                    lemma_extends(l, keyed_of(m, a, wanted).0, n);
                    lemma_slot_stays(l.parts, n.parts, super::keys::PartVal::Scalar(key));
                },
                _ => {},
            }
            lemma_slot_stays(m.items, n.items, held);
        },
    }
}

proof fn lemma_set_again(m: MemoVal, items: Seq<Val>, others: Seq<Val>, n: MemoVal, count: int)
    requires
        tables(m),
        tables(n),
        0 <= count <= items.len(),
        extends(keys_of(m, items, count).0, n),
        items.len() == others.len(),
        forall|i: int| 0 <= i < items.len() ==> alike(#[trigger] items[i], others[i]),
    ensures
        keys_of(n, others, count) == (n, keys_of(m, items, count).1),
    decreases items, count, 0int,
{
    if count > 0 {
        let l: MemoVal = keys_of(m, items, count - 1).0;
        lemma_keys(m, items, count - 1);
        lemma_keyed(l, items[count - 1], false);
        lemma_extends(l, keys_of(m, items, count).0, n);
        lemma_set_again(m, items, others, n, count - 1);
        lemma_keyed_again(l, items[count - 1], others[count - 1], false, n);
    }
}

proof fn lemma_tuple_again(
    m: MemoVal,
    items: Seq<Val>,
    others: Seq<Val>,
    n: MemoVal,
    count: int,
)
    requires
        tables(m),
        tables(n),
        0 <= count <= items.len(),
        extends(tuple_keys(m, items, count).0, n),
        items.len() == others.len(),
        forall|i: int| 0 <= i < items.len() ==> alike_part(#[trigger] items[i], others[i]),
    ensures
        tuple_keys(n, others, count) == (
            n,
            tuple_keys(m, items, count).1,
            tuple_keys(m, items, count).2,
        ),
    decreases items, count, 0int,
{
    if count > 0 {
        let (l, keys, parts) = tuple_keys(m, items, count - 1);
        lemma_tuple_keys(m, items, count - 1);
        lemma_keyed(l, items[count - 1], parts is Some);
        lemma_extends(l, tuple_keys(m, items, count).0, n);
        lemma_tuple_again(m, items, others, n, count - 1);
        assert(alike_part(items[count - 1], others[count - 1]));
        lemma_keyed_again(l, items[count - 1], others[count - 1], parts is Some, n);
    }
}

proof fn lemma_entries_again(
    m: MemoVal,
    p: Seq<(KeyVal, Val)>,
    q: Seq<(KeyVal, Val)>,
    n: MemoVal,
    count: int,
)
    requires
        tables(m),
        tables(n),
        0 <= count <= p.len(),
        p.len() == q.len(),
        extends(entry_keys(m, p, count).0, n),
        forall|i: int|
            #![trigger p[i]]
            0 <= i < p.len() ==> p[i].0 == q[i].0 && alike(p[i].1, q[i].1),
    ensures
        entry_keys(n, q, count) == (n, entry_keys(m, p, count).1),
    decreases p, count, 0int,
{
    if count > 0 {
        let (key, value) = p[count - 1];
        let l: MemoVal = entry_keys(m, p, count - 1).0;
        lemma_entry_keys(m, p, count - 1);
        let k: MemoVal = key_item(l, key).0;
        lemma_key_item(l, key);
        lemma_keyed(k, value, false);
        lemma_extends(k, entry_keys(m, p, count).0, n);
        lemma_extends(l, k, n);
        lemma_entries_again(m, p, q, n, count - 1);
        assert(p[count - 1].0 == q[count - 1].0);
        match key {
            KeyVal::Str(s) => lemma_slot_stays(l.items, n.items, super::keys::ItemVal::Str(s)),
            KeyVal::Other(v) => {
                lemma_alike(*v);
                lemma_keyed_again(l, *v, *v, false, n);
            },
        }
        assert(key_item(n, key) == (n, key_item(l, key).1));
        lemma_keyed_again(k, value, q[count - 1].1, false, n);
        assert(entry_keys(n, q, count - 1) == (n, entry_keys(m, p, count - 1).1));
    }
}

// ---------------------------------------------------------------------
// Lists
// ---------------------------------------------------------------------

/// The keys of a list, in the order in which they are met, are those of its
/// items.
pub proof fn lemma_hashed(m: MemoVal, items: Seq<Val>, count: int)
    requires
        0 <= count <= items.len(),
    ensures
        hashed(m, items, count).0 == keys_of(m, items, count).0,
        forall|key: usize|
            (#[trigger] hashed(m, items, count).1.keys.contains(key)) <==> exists|i: int|
                0 <= i < count && #[trigger] key_at(m, items, i) == key,
    decreases count,
{
    let after: Seq<usize> = hashed(m, items, count).1.keys;
    if count > 0 {
        let before: Seq<usize> = hashed(m, items, count - 1).1.keys;
        let last: usize = key_at(m, items, count - 1);
        lemma_hashed(m, items, count - 1);
        assert forall|key: usize| (#[trigger] after.contains(key)) <==> exists|i: int|
            0 <= i < count && #[trigger] key_at(m, items, i) == key by {
            if !before.contains(last) {
                assert(after == before.push(last));
                if key == last {
                    assert(after[before.len() as int] == key);
                } else if before.contains(key) {
                    let k: int = choose|k: int| 0 <= k < before.len() && before[k] == key;
                    assert(after[k] == key);
                }
            }
        }
    }
}

/// Nothing is lacking of a list whose keys another has all.
proof fn lemma_nothing_lacking(list: HashedVal, other: HashedVal, count: int)
    requires
        0 <= count <= list.keys.len(),
        forall|key: usize| #[trigger] list.keys.contains(key) ==> other.keys.contains(key),
    ensures
        lacking(list, other, count).len() == 0,
    decreases count,
{
    if count > 0 {
        lemma_nothing_lacking(list, other, count - 1);
        assert(list.keys.contains(list.keys[count - 1]));
    }
}

/// Two lists of like items, the second keyed after the first, have the same keys.
proof fn lemma_keys_shared(m: MemoVal, x: Seq<Val>, y: Seq<Val>, n: MemoVal, key: usize)
    requires
        tables(m),
        tables(n),
        n == keys_of(m, x, x.len() as int).0,
        alike(Val::Array(x), Val::Array(y)),
    ensures
        keys_of(n, y, y.len() as int).0 == n,
        hashed(m, x, x.len() as int).1.keys.contains(key) <==> hashed(
            n,
            y,
            y.len() as int,
        ).1.keys.contains(key),
{
    lemma_like_items(x, y);
    lemma_hashed(m, x, x.len() as int);
    lemma_hashed(n, y, y.len() as int);
    lemma_same(n);
    lemma_keys_again(m, x, y, n, y.len() as int);
    if hashed(m, x, x.len() as int).1.keys.contains(key) {
        let i: int = choose|i: int| 0 <= i < x.len() && #[trigger] key_at(m, x, i) == key;
        assert(like_one(x[i], y));
        let j: int = choose|j: int| 0 <= j < y.len() && alike(x[i], #[trigger] y[j]);
        lemma_key_again(m, x, i, y[j], n);
        lemma_keys_again(m, x, y, n, j);
        assert(key_at(n, y, j) == key);
    }
    if hashed(n, y, y.len() as int).1.keys.contains(key) {
        let j: int = choose|j: int| 0 <= j < y.len() && #[trigger] key_at(n, y, j) == key;
        assert(one_like(x, y[j]));
        let i: int = choose|i: int| 0 <= i < x.len() && alike(#[trigger] x[i], y[j]);
        lemma_key_again(m, x, i, y[j], n);
        lemma_keys_again(m, x, y, n, j);
        assert(key_at(m, x, i) == key);
    }
}

/// Two lists of like items lack nothing of one another.
pub proof fn lemma_same_keys(m: MemoVal, x: Seq<Val>, y: Seq<Val>)
    requires
        tables(m),
        alike(Val::Array(x), Val::Array(y)),
    ensures
        ({
            let (n, first) = hashed(m, x, x.len() as int);
            let (l, second) = hashed(n, y, y.len() as int);
            &&& tables(l)
            &&& lacking(first, second, first.keys.len() as int).len() == 0
            &&& lacking(second, first, second.keys.len() as int).len() == 0
        }),
{
    let (n, first) = hashed(m, x, x.len() as int);
    let (l, second) = hashed(n, y, y.len() as int);
    lemma_hashed(m, x, x.len() as int);
    lemma_hashed(n, y, y.len() as int);
    lemma_keys(m, x, x.len() as int);
    assert forall|key: usize| first.keys.contains(key) == #[trigger] second.keys.contains(key) by {
        lemma_keys_shared(m, x, y, n, key);
    }
    lemma_keys_shared(m, x, y, n, 0);
    lemma_nothing_lacking(first, second, first.keys.len() as int);
    lemma_nothing_lacking(second, first, second.keys.len() as int);
}

// ---------------------------------------------------------------------
// Sets
// ---------------------------------------------------------------------

proof fn lemma_content(m: MemoVal, content: ContentVal)
    requires
        tables(m),
    ensures
        tables(with_content(m, content).0),
        extends(m, with_content(m, content).0),
        beside(m, with_content(m, content).0),
{
    lemma_same(m);
    lemma_with_key(m.contents, content);
}

proof fn lemma_node(m: MemoVal, key: HashVal, content: ContentVal)
    requires
        tables(m),
    ensures
        tables(with_node(m, key, content).0),
        extends(m, with_node(m, key, content).0),
        beside(m, with_node(m, key, content).0),
{
    lemma_same(m);
    if !m.nodes.contains(key) {
        lemma_content(m, content);
        lemma_with_key(m.nodes, key);
        let n = with_node(m, key, content).0;
        assert(m.node_reps =~= n.node_reps.subrange(0, m.node_reps.len() as int));
    }
}

proof fn lemma_node_stays(m: MemoVal, key: HashVal, content: ContentVal, n: MemoVal)
    requires
        tables(m),
        tables(n),
        extends(with_node(m, key, content).0, n),
    ensures
        with_node(n, key, content) == (
            n,
            with_node(m, key, content).1,
            with_node(m, key, content).2,
        ),
{
    let first = with_node(m, key, content).0;
    lemma_node(m, key, content);
    lemma_slot_stays(m.nodes, n.nodes, key);
    let i: int = slot(m.nodes, key) as int;
    assert(first.node_reps[i] == n.node_reps.subrange(0, first.node_reps.len() as int)[i]);
}

proof fn lemma_entry_reps(
    m: MemoVal,
    entries: Seq<(KeyVal, Val)>,
    members: Seq<Member>,
    count: int,
)
    requires
        tables(m),
    ensures
        tables(entry_reps(m, entries, members, count).0),
        extends(m, entry_reps(m, entries, members, count).0),
        beside(m, entry_reps(m, entries, members, count).0),
    decreases count,
{
    lemma_same(m);
    if count > 0 {
        let l = entry_reps(m, entries, members, count - 1).0;
        lemma_entry_reps(m, entries, members, count - 1);
        lemma_key_item(l, entries[count - 1].0);
        lemma_extends(m, l, entry_reps(m, entries, members, count).0);
    }
}

proof fn lemma_entry_reps_again(
    m: MemoVal,
    entries: Seq<(KeyVal, Val)>,
    members: Seq<Member>,
    n: MemoVal,
    count: int,
)
    requires
        tables(m),
        tables(n),
        extends(entry_reps(m, entries, members, count).0, n),
    ensures
        entry_reps(n, entries, members, count) == (n, entry_reps(m, entries, members, count).1),
    decreases count,
{
    if count > 0 {
        let key: KeyVal = entries[count - 1].0;
        let l = entry_reps(m, entries, members, count - 1).0;
        lemma_entry_reps(m, entries, members, count - 1);
        lemma_key_item(l, key);
        lemma_extends(l, key_item(l, key).0, n);
        lemma_entry_reps_again(m, entries, members, n, count - 1);
        match key {
            KeyVal::Str(s) => lemma_slot_stays(l.items, n.items, super::keys::ItemVal::Str(s)),
            KeyVal::Other(v) => {
                lemma_alike(*v);
                lemma_keyed_again(l, *v, *v, false, n);
            },
        }
        assert(key_item(n, key) == (n, key_item(l, key).1));
    }
}

/// What a tuple or a `frozenset` holds, and the parts by which it is found.
spec fn container_content(members: Seq<Member>, tuple: bool) -> ContentVal {
    if tuple {
        ContentVal::Tuple(reps(members))
    } else {
        ContentVal::FrozenSet(number_set(reps(members)))
    }
}

spec fn container_key(members: Seq<Member>, tuple: bool) -> HashVal {
    if tuple {
        HashVal::Tuple(member_parts(members))
    } else {
        HashVal::FrozenSet(number_set(member_parts(members)))
    }
}

proof fn lemma_container(m: MemoVal, members: Seq<Member>, tuple: bool)
    requires
        tables(m),
    ensures
        tables(container_member(m, members, tuple).0),
        extends(m, container_member(m, members, tuple).0),
        beside(m, container_member(m, members, tuple).0),
{
    let content = container_content(members, tuple);
    if hashable(members) {
        let key = container_key(members, tuple);
        let (l, node, rep) = with_node(m, key, content);
        lemma_node(m, key, content);
        lemma_part(l, super::keys::PartVal::Node(node));
        lemma_extends(m, l, container_member(m, members, tuple).0);
    } else {
        lemma_content(m, content);
    }
}

proof fn lemma_container_again(m: MemoVal, members: Seq<Member>, tuple: bool, n: MemoVal)
    requires
        tables(m),
        tables(n),
        extends(container_member(m, members, tuple).0, n),
    ensures
        container_member(n, members, tuple) == (n, container_member(m, members, tuple).1),
{
    let content = container_content(members, tuple);
    if hashable(members) {
        let key = container_key(members, tuple);
        let (l, node, rep) = with_node(m, key, content);
        lemma_node(m, key, content);
        lemma_part(l, super::keys::PartVal::Node(node));
        lemma_extends(l, container_member(m, members, tuple).0, n);
        lemma_node_stays(m, key, content, n);
        lemma_slot_stays(l.parts, n.parts, super::keys::PartVal::Node(node));
    } else {
        lemma_slot_stays(m.contents, n.contents, content);
    }
}

proof fn lemma_member_with(m: MemoVal, value: Val, members: Seq<Member>)
    requires
        tables(m),
    ensures
        tables(member_with(m, value, members).0),
        extends(m, member_with(m, value, members).0),
        beside(m, member_with(m, value, members).0),
{
    let n = member_with(m, value, members).0;
    match value {
        Val::Tuple(_) => lemma_container(m, members, true),
        Val::FrozenSet(_) => lemma_container(m, members, false),
        Val::Array(_) => lemma_content(m, ContentVal::UnhashableList(reps(members))),
        Val::MutableSet(_) => lemma_content(m, ContentVal::UnhashableSet(reps(members))),
        Val::Object(object) => {
            let (l, pairs) = entry_reps(m, object.entries, members, object.entries.len() as int);
            lemma_entry_reps(m, object.entries, members, object.entries.len() as int);
            lemma_content(l, ContentVal::UnhashableDict(pairs));
            lemma_extends(m, l, n);
        },
        _ => {
            let (k, item) = with_item(m, super::hash::scalar_item(value));
            lemma_item(m, super::hash::scalar_item(value));
            let (l, rep) = with_content(k, ContentVal::Scalar(item));
            lemma_content(k, ContentVal::Scalar(item));
            lemma_extends(m, k, l);
            match crate::scalar_key::lasting_scalar(value) {
                Some(key) => {
                    lemma_part(l, super::keys::PartVal::Scalar(key));
                    lemma_extends(m, l, n);
                },
                None => {},
            }
        },
    }
}

proof fn lemma_member_with_again(m: MemoVal, value: Val, members: Seq<Member>, n: MemoVal)
    requires
        tables(m),
        tables(n),
        extends(member_with(m, value, members).0, n),
    ensures
        member_with(n, value, members) == (n, member_with(m, value, members).1),
{
    let last = member_with(m, value, members).0;
    match value {
        Val::Tuple(_) => lemma_container_again(m, members, true, n),
        Val::FrozenSet(_) => lemma_container_again(m, members, false, n),
        Val::Array(_) => lemma_slot_stays(
            m.contents,
            n.contents,
            ContentVal::UnhashableList(reps(members)),
        ),
        Val::MutableSet(_) => lemma_slot_stays(
            m.contents,
            n.contents,
            ContentVal::UnhashableSet(reps(members)),
        ),
        Val::Object(object) => {
            let len: int = object.entries.len() as int;
            let (l, pairs) = entry_reps(m, object.entries, members, len);
            lemma_entry_reps(m, object.entries, members, len);
            lemma_content(l, ContentVal::UnhashableDict(pairs));
            lemma_extends(l, last, n);
            lemma_entry_reps_again(m, object.entries, members, n, len);
            lemma_slot_stays(l.contents, n.contents, ContentVal::UnhashableDict(pairs));
        },
        _ => {
            let held = super::hash::scalar_item(value);
            let (k, item) = with_item(m, held);
            lemma_item(m, held);
            let (l, rep) = with_content(k, ContentVal::Scalar(item));
            lemma_content(k, ContentVal::Scalar(item));
            match crate::scalar_key::lasting_scalar(value) {
                Some(key) => {
                    lemma_part(l, super::keys::PartVal::Scalar(key));
                    lemma_extends(l, last, n);
                    lemma_slot_stays(l.parts, n.parts, super::keys::PartVal::Scalar(key));
                },
                None => {},
            }
            lemma_extends(k, l, n);
            lemma_slot_stays(m.items, n.items, held);
            lemma_slot_stays(k.contents, n.contents, ContentVal::Scalar(item));
        },
    }
}

/// Finding what stands for members only adds to the tables.
pub proof fn lemma_members(m: MemoVal, items: Seq<Val>, count: int)
    requires
        tables(m),
    ensures
        tables(members_of(m, items, count).0),
        extends(m, members_of(m, items, count).0),
        beside(m, members_of(m, items, count).0),
    decreases total(items), count,
{
    lemma_same(m);
    if 0 < count <= items.len() {
        lemma_member(items, count - 1);
        let value: Val = items[count - 1];
        let l = members_of(m, items, count - 1).0;
        lemma_members(m, items, count - 1);
        lemma_member_of(l, value);
        lemma_extends(m, l, members_of(m, items, count).0);
    }
}

/// Finding what stands for a member only adds to the tables.
pub proof fn lemma_member_of(m: MemoVal, value: Val)
    requires
        tables(m),
    ensures
        tables(member_of(m, value).0),
        extends(m, member_of(m, value).0),
        beside(m, member_of(m, value).0),
    decreases weight(value), 0int,
{
    lemma_children(value);
    let held: Seq<Val> = children(value);
    let (l, members) = members_of(m, held, held.len() as int);
    lemma_members(m, held, held.len() as int);
    lemma_member_with(l, value, members);
    lemma_extends(m, l, member_of(m, value).0);
}

/// What stands for members found again is the same, and adds nothing to the tables.
pub proof fn lemma_members_again(m: MemoVal, items: Seq<Val>, n: MemoVal, count: int)
    requires
        tables(m),
        tables(n),
        extends(members_of(m, items, count).0, n),
    ensures
        members_of(n, items, count) == (n, members_of(m, items, count).1),
    decreases total(items), count,
{
    if 0 < count <= items.len() {
        lemma_member(items, count - 1);
        let value: Val = items[count - 1];
        let l = members_of(m, items, count - 1).0;
        lemma_members(m, items, count - 1);
        lemma_member_of(l, value);
        lemma_extends(l, member_of(l, value).0, n);
        lemma_members_again(m, items, n, count - 1);
        lemma_member_again(l, value, n);
    }
}

/// What stands for a member found again is the same, and adds nothing to the tables.
pub proof fn lemma_member_again(m: MemoVal, value: Val, n: MemoVal)
    requires
        tables(m),
        tables(n),
        extends(member_of(m, value).0, n),
    ensures
        member_of(n, value) == (n, member_of(m, value).1),
    decreases weight(value), 0int,
{
    lemma_children(value);
    let held: Seq<Val> = children(value);
    let (l, members) = members_of(m, held, held.len() as int);
    lemma_members(m, held, held.len() as int);
    lemma_member_with(l, value, members);
    lemma_extends(l, member_of(m, value).0, n);
    lemma_members_again(m, held, n, held.len() as int);
    lemma_member_with_again(l, value, members, n);
}

proof fn lemma_all_matched(numbers: Seq<usize>, count: int)
    requires
        0 <= count <= numbers.len(),
    ensures
        unmatched(numbers, numbers, count).len() == 0,
    decreases count,
{
    if count > 0 {
        lemma_all_matched(numbers, count - 1);
        assert(numbers.contains(numbers[count - 1]));
    }
}

/// A set lacks nothing of itself.
pub proof fn lemma_same_members(m: MemoVal, items: Seq<Val>)
    requires
        tables(m),
    ensures
        tables(set_changes(m, items, items).0),
        set_changes(m, items, items).1.len() == 0,
        set_changes(m, items, items).2.len() == 0,
{
    let len: int = items.len() as int;
    let (n, members) = members_of(m, items, len);
    lemma_members(m, items, len);
    lemma_same(n);
    lemma_members_again(m, items, n, len);
    lemma_members_len(m, items, len);
    lemma_all_matched(reps(members), len);
}

/// There is one thing that stands for each member.
proof fn lemma_members_len(m: MemoVal, items: Seq<Val>, count: int)
    requires
        0 <= count <= items.len(),
    ensures
        members_of(m, items, count).1.len() == count,
    decreases count,
{
    if count > 0 {
        lemma_members_len(m, items, count - 1);
    }
}

} // verus!
