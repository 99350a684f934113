//! Keys tell apart what differs: among values as JSON has them, two have one key
//! only if they differ in the order and the repetition of items alone.

use vstd::prelude::*;

#[allow(unused_imports)]
use super::hash::{entry_keys, key_item, keyed_of, keys_of, number_item, scalar_item};
#[allow(unused_imports)]
use super::keys::{ItemVal, Keys};
#[allow(unused_imports)]
use super::memo::{with_item, MemoVal};
#[allow(unused_imports)]
use super::rearranged::{
    alike, beside, extends, key_at, lemma_entry_keys, lemma_extends, lemma_item, lemma_key_item,
    lemma_keyed, lemma_keyed_again, lemma_keys, lemma_keys_grow, lemma_keys_held, lemma_like_items,
    lemma_same, like_one, one_like, tables,
};
#[allow(unused_imports)]
use crate::diff::equality::{lemma_same_values, same_entries, same_key, same_number, same_value};
#[allow(unused_imports)]
use crate::float::{nan, negative, zero};
#[allow(unused_imports)]
use crate::intern::{slot, with_key};
#[allow(unused_imports)]
use crate::order::{
    ascending, lemma_ascending_identified, lemma_lookup, lemma_put, lookup, put, Ordered, Place,
};
#[allow(unused_imports)]
use crate::value::{KeyVal, Number, ObjectKey, ObjectKind, ObjectVal, Val};

verus! {

// ---------------------------------------------------------------------
// Values as JSON has them
// ---------------------------------------------------------------------

/// Whether a number is held in the one way that there is for it.
pub open spec fn plain_number(n: Number) -> bool {
    match n {
        Number::Int(_) => true,
        Number::Uint(u) => u > i64::MAX,
        Number::Float(f) => !nan(f.bits) && !(zero(f.bits) && negative(f.bits)),
    }
}

/// Whether a value is one as JSON has them: scalars, lists and dicts with texts
/// as keys.
pub open spec fn plain(value: Val) -> bool
    decreases value,
{
    match value {
        Val::Null => true,
        Val::Bool(_) => true,
        Val::Str(_) => true,
        Val::Number(n) => plain_number(n),
        Val::Array(items) => items.len() <= usize::MAX && (forall|i: int|
            0 <= i < items.len() ==> plain(#[trigger] items[i])),
        Val::Object(object) => {
            &&& object.kind == ObjectKind::Dict
            &&& object.class_name == Seq::<char>::empty()
            &&& object.identity == Seq::<char>::empty()
            &&& ascending::<ObjectKey, Val>(object.entries)
            &&& forall|i: int|
                #![trigger object.entries[i]]
                0 <= i < object.entries.len() ==> object.entries[i].0 is Str && plain(
                    object.entries[i].1,
                )
        },
        _ => false,
    }
}

/// Equal numbers are one number.
proof fn lemma_plain_numbers(a: Number, b: Number)
    requires
        plain_number(a),
        plain_number(b),
    ensures
        same_number(a, b) <==> a == b,
        number_item(a) == number_item(b) <==> a == b,
{
    match (a, b) {
        (Number::Float(x), Number::Float(y)) => {
            assert(zero(x.bits) && !negative(x.bits) ==> x.bits == 0);
            assert(zero(y.bits) && !negative(y.bits) ==> y.bits == 0);
        },
        _ => {},
    }
}

proof fn lemma_plain_entries_equal(p: Seq<(KeyVal, Val)>, q: Seq<(KeyVal, Val)>)
    requires
        same_entries(p, q),
    ensures
        p.len() == q.len(),
        forall|i: int|
            #![trigger p[i]]
            0 <= i < p.len() ==> same_key(p[i].0, q[i].0) && same_value(p[i].1, q[i].1),
    decreases p.len(),
{
    if p.len() > 0 {
        lemma_plain_entries_equal(p.drop_last(), q.drop_last());
        assert forall|i: int| #![trigger p[i]] 0 <= i < p.len() implies same_key(p[i].0, q[i].0)
            && same_value(p[i].1, q[i].1) by {
            if i < p.len() - 1 {
                assert(p.drop_last()[i] == p[i]);
                assert(q.drop_last()[i] == q[i]);
            }
        }
    }
}

/// Equal values are one value.
pub proof fn lemma_plain_equal(a: Val, b: Val)
    requires
        plain(a),
        plain(b),
        same_value(a, b),
    ensures
        a == b,
    decreases a,
{
    match (a, b) {
        (Val::Number(x), Val::Number(y)) => lemma_plain_numbers(x, y),
        (Val::Array(x), Val::Array(y)) => {
            lemma_same_values(x, y);
            assert forall|i: int| 0 <= i < x.len() implies x[i] == y[i] by {
                assert(plain(x[i]) && plain(y[i]) && same_value(x[i], y[i]));
                lemma_plain_equal(x[i], y[i]);
            }
            assert(x =~= y);
        },
        (Val::Object(p), Val::Object(q)) => {
            lemma_plain_entries_equal(p.entries, q.entries);
            assert forall|i: int| 0 <= i < p.entries.len() implies p.entries[i] == q.entries[i] by {
                assert(p.entries[i].0 is Str && q.entries[i].0 is Str);
                lemma_plain_equal(p.entries[i].1, q.entries[i].1);
            }
            assert(p.entries =~= q.entries);
        },
        _ => {},
    }
}

// ---------------------------------------------------------------------
// What a key stands for
// ---------------------------------------------------------------------

/// Whether the tables hold a value already.
pub open spec fn settled(n: MemoVal, value: Val) -> bool {
    keyed_of(n, value, false).0 == n
}

/// The key of a value's item.
pub open spec fn key_of(n: MemoVal, value: Val) -> usize {
    keyed_of(n, value, false).1
}

proof fn lemma_prefixes<V>(a: Seq<V>, b: Seq<V>)
    requires
        a.is_prefix_of(b),
        b.is_prefix_of(a),
    ensures
        a == b,
{
    assert(a =~= b.subrange(0, a.len() as int));
    assert(b.subrange(0, b.len() as int) =~= b);
}

/// Tables that extend each other are the same.
pub proof fn lemma_back(n: MemoVal, l: MemoVal)
    requires
        extends(n, l),
        extends(l, n),
        beside(n, l),
    ensures
        l == n,
{
    lemma_prefixes(n.items, l.items);
    lemma_prefixes(n.parts, l.parts);
    lemma_prefixes(n.tuples, l.tuples);
    lemma_prefixes(n.tuple_items, l.tuple_items);
    lemma_prefixes(n.nodes, l.nodes);
    lemma_prefixes(n.node_reps, l.node_reps);
    lemma_prefixes(n.contents, l.contents);
}

/// What an item holds, if the tables hold it already.
proof fn lemma_held_item(n: MemoVal, l: MemoVal, item: ItemVal)
    requires
        tables(n),
        tables(l),
        n.items.len() <= usize::MAX,
        extends(n, l),
        beside(n, l),
        with_item(l, item).0 == n,
    ensures
        l == n,
        with_item(l, item).1 < n.items.len(),
        n.items[with_item(l, item).1 as int] == item,
{
    lemma_item(l, item);
    lemma_back(n, l);
    assert(n.items.contains(item)) by {
        if !n.items.contains(item) {
            assert(with_key(n.items, item).len() == n.items.len() + 1);
        }
    }
    assert(slot(n.items, item) < n.items.len());
}

/// A list whose item the tables hold, and its items.
proof fn lemma_settled_list(n: MemoVal, x: Seq<Val>, i: int)
    requires
        tables(n),
        n.items.len() <= usize::MAX,
        settled(n, Val::Array(x)),
        0 <= i <= x.len(),
    ensures
        keys_of(n, x, i).0 == n,
        i < x.len() ==> settled(n, x[i]) && key_at(n, x, i) == key_of(n, x[i]),
        key_of(n, Val::Array(x)) < n.items.len(),
        n.items[key_of(n, Val::Array(x)) as int] == ItemVal::List(
            keys_of(n, x, x.len() as int).1,
        ),
{
    let len: int = x.len() as int;
    let (l, keys) = keys_of(n, x, len);
    lemma_keys(n, x, len);
    lemma_held_item(n, l, ItemVal::List(keys));
    lemma_keys(n, x, i);
    lemma_keys_grow(n, x, i, len);
    lemma_back(n, keys_of(n, x, i).0);
    if i < len {
        lemma_keyed(n, x[i], false);
        lemma_keys_grow(n, x, i + 1, len);
        lemma_back(n, keys_of(n, x, i + 1).0);
    }
}

proof fn lemma_entry_keys_grow(m: MemoVal, entries: Seq<(KeyVal, Val)>, i: int, count: int)
    requires
        tables(m),
        0 <= i <= count <= entries.len(),
    ensures
        extends(entry_keys(m, entries, i).0, entry_keys(m, entries, count).0),
    decreases count - i,
{
    lemma_same(entry_keys(m, entries, i).0);
    if i < count {
        lemma_entry_keys_grow(m, entries, i, count - 1);
        let l: MemoVal = entry_keys(m, entries, count - 1).0;
        lemma_entry_keys(m, entries, count - 1);
        let k: MemoVal = key_item(l, entries[count - 1].0).0;
        lemma_key_item(l, entries[count - 1].0);
        lemma_keyed(k, entries[count - 1].1, false);
        lemma_extends(l, k, entry_keys(m, entries, count).0);
        lemma_extends(entry_keys(m, entries, i).0, l, entry_keys(m, entries, count).0);
    }
}

/// A dict whose item the tables hold, and its entries.
proof fn lemma_settled_dict(n: MemoVal, p: ObjectVal, i: int)
    requires
        tables(n),
        n.items.len() <= usize::MAX,
        settled(n, Val::Object(p)),
        p.kind == ObjectKind::Dict,
        0 <= i <= p.entries.len(),
    ensures
        entry_keys(n, p.entries, i).0 == n,
        i < p.entries.len() ==> key_item(n, p.entries[i].0).0 == n && settled(
            n,
            p.entries[i].1,
        ),
        key_of(n, Val::Object(p)) < n.items.len(),
        n.items[key_of(n, Val::Object(p)) as int] == ItemVal::Dict(
            entry_keys(n, p.entries, p.entries.len() as int).1,
        ),
{
    let len: int = p.entries.len() as int;
    let (l, pairs) = entry_keys(n, p.entries, len);
    lemma_entry_keys(n, p.entries, len);
    lemma_held_item(n, l, ItemVal::Dict(pairs));
    lemma_entry_keys(n, p.entries, i);
    lemma_entry_keys_grow(n, p.entries, i, len);
    lemma_back(n, entry_keys(n, p.entries, i).0);
    if i < len {
        let (key, value) = p.entries[i];
        let k: MemoVal = key_item(n, key).0;
        lemma_key_item(n, key);
        lemma_keyed(k, value, false);
        lemma_entry_keys_grow(n, p.entries, i + 1, len);
        let after: MemoVal = entry_keys(n, p.entries, i + 1).0;
        assert(after == keyed_of(k, value, false).0);
        lemma_extends(k, after, n);
        lemma_back(n, k);
        lemma_back(n, after);
    }
}

/// A scalar whose item the tables hold.
proof fn lemma_settled_scalar(n: MemoVal, value: Val)
    requires
        tables(n),
        n.items.len() <= usize::MAX,
        settled(n, value),
        plain(value),
        !(value is Array),
        !(value is Object),
    ensures
        key_of(n, value) < n.items.len(),
        n.items[key_of(n, value) as int] == scalar_item(value),
{
    lemma_same(n);
    lemma_held_item(n, n, scalar_item(value));
}

/// The number of a text that the tables hold.
proof fn lemma_settled_text(n: MemoVal, key: KeyVal)
    requires
        tables(n),
        n.items.len() <= usize::MAX,
        key is Str,
        key_item(n, key).0 == n,
    ensures
        key_item(n, key).1 < n.items.len(),
        n.items[key_item(n, key).1 as int] == ItemVal::Str(key->Str_0),
{
    lemma_same(n);
    lemma_held_item(n, n, ItemVal::Str(key->Str_0));
}

/// The number of the key of an entry.
spec fn number_at(n: MemoVal, p: ObjectVal, i: int) -> usize {
    key_item(n, p.entries[i].0).1
}

/// The numbers of the keys of two entries are different.
proof fn lemma_numbers_differ(n: MemoVal, p: ObjectVal, i: int, j: int)
    requires
        tables(n),
        n.items.len() <= usize::MAX,
        plain(Val::Object(p)),
        settled(n, Val::Object(p)),
        0 <= i < j < p.entries.len(),
    ensures
        number_at(n, p, i) != number_at(n, p, j),
{
    assert(p.entries[i].0 is Str);
    assert(p.entries[j].0 is Str);
    lemma_settled_dict(n, p, i);
    lemma_settled_dict(n, p, j);
    lemma_settled_text(n, p.entries[i].0);
    lemma_settled_text(n, p.entries[j].0);
    assert(ObjectKey::place(p.entries[i].0, p.entries[j].0) == Place::Before);
    ObjectKey::lemma_total(p.entries[i].0, p.entries[j].0);
}

/// The entries of a dict are found under the numbers of their keys.
proof fn lemma_entry_found(n: MemoVal, p: ObjectVal, count: int)
    requires
        tables(n),
        n.items.len() <= usize::MAX,
        plain(Val::Object(p)),
        settled(n, Val::Object(p)),
        0 <= count <= p.entries.len(),
    ensures
        ascending::<usize, usize>(entry_keys(n, p.entries, count).1),
        forall|i: int|
            0 <= i < count ==> lookup(
                entry_keys(n, p.entries, count).1,
                #[trigger] number_at(n, p, i),
            ) == Some(key_of(n, p.entries[i].1)),
        forall|k: usize|
            (#[trigger] lookup(entry_keys(n, p.entries, count).1, k)) is Some ==> exists|i: int|
                0 <= i < count && #[trigger] number_at(n, p, i) == k,
    decreases count,
{
    if count > 0 {
        lemma_entry_found(n, p, count - 1);
        assert(p.kind == ObjectKind::Dict);
        lemma_settled_dict(n, p, count - 1);
        let before: Seq<(usize, usize)> = entry_keys(n, p.entries, count - 1).1;
        let after: Seq<(usize, usize)> = entry_keys(n, p.entries, count).1;
        let last: usize = number_at(n, p, count - 1);
        let held: usize = key_of(n, p.entries[count - 1].1);
        assert(after == put::<usize, usize>(before, last, held));
        lemma_put::<usize, usize>(before, last, held);
        assert forall|i: int| 0 <= i < count implies lookup(after, #[trigger] number_at(n, p, i))
            == Some(key_of(n, p.entries[i].1)) by {
            if i < count - 1 {
                lemma_numbers_differ(n, p, i, count - 1);
            }
        }
        assert forall|k: usize| (#[trigger] lookup(after, k)) is Some implies exists|i: int|
            0 <= i < count && #[trigger] number_at(n, p, i) == k by {
            if k == last {
                assert(number_at(n, p, count - 1) == k);
            } else {
                assert(lookup(before, k) is Some);
            }
        }
    }
}

/// The keys of entries alone.
spec fn bare(entries: Seq<(KeyVal, Val)>) -> Seq<(KeyVal, ())> {
    Seq::new(entries.len(), |i: int| (entries[i].0, ()))
}

proof fn lemma_bare(entries: Seq<(KeyVal, Val)>, key: KeyVal)
    requires
        ascending::<ObjectKey, Val>(entries),
    ensures
        ascending::<ObjectKey, ()>(bare(entries)),
        lookup(bare(entries), key) is Some <==> exists|i: int|
            #![trigger entries[i]]
            0 <= i < entries.len() && entries[i].0 == key,
{
    assert forall|i: int, j: int| 0 <= i < j < bare(entries).len() implies #[trigger] ObjectKey::place(
        bare(entries)[i].0,
        bare(entries)[j].0,
    ) == Place::Before by {
        assert(ObjectKey::place(entries[i].0, entries[j].0) == Place::Before);
    }
    lemma_lookup(bare(entries), key);
    if exists|i: int| #![trigger entries[i]] 0 <= i < entries.len() && entries[i].0 == key {
        let i: int = choose|i: int|
            #![trigger entries[i]]
            0 <= i < entries.len() && entries[i].0 == key;
        assert(bare(entries)[i].0 == key);
    }
    if lookup(bare(entries), key) is Some {
        let i: int = choose|i: int|
            0 <= i < bare(entries).len() && #[trigger] bare(entries)[i] == (key, ());
        assert(entries[i].0 == key);
    }
}

/// Entries of which each key is one of the others' have the same keys, in one order.
pub proof fn lemma_keys_agree(p: Seq<(KeyVal, Val)>, q: Seq<(KeyVal, Val)>)
    requires
        ascending::<ObjectKey, Val>(p),
        ascending::<ObjectKey, Val>(q),
        forall|i: int| #![trigger p[i]] 0 <= i < p.len() ==> lookup(q, p[i].0) is Some,
        forall|j: int| #![trigger q[j]] 0 <= j < q.len() ==> lookup(p, q[j].0) is Some,
    ensures
        p.len() == q.len(),
        forall|i: int| #![trigger p[i]] 0 <= i < p.len() ==> p[i].0 == q[i].0,
{
    let x: Seq<(KeyVal, ())> = bare(p);
    let y: Seq<(KeyVal, ())> = bare(q);
    assert forall|key: KeyVal| #[trigger] lookup(x, key) == lookup(y, key) by {
        lemma_bare(p, key);
        lemma_bare(q, key);
        lemma_lookup(p, key);
        lemma_lookup(q, key);
        if lookup(x, key) is Some {
            let i: int = choose|i: int| #![trigger p[i]] 0 <= i < p.len() && p[i].0 == key;
            assert(lookup(q, p[i].0) is Some);
        }
        if lookup(y, key) is Some {
            let j: int = choose|j: int| #![trigger q[j]] 0 <= j < q.len() && q[j].0 == key;
            assert(lookup(p, q[j].0) is Some);
        }
    }
    lemma_bare(p, KeyVal::Str(seq![]));
    lemma_bare(q, KeyVal::Str(seq![]));
    lemma_ascending_identified::<ObjectKey, ()>(x, y);
    assert forall|i: int| #![trigger p[i]] 0 <= i < p.len() implies p[i].0 == q[i].0 by {
        assert(x[i] == y[i]);
    }
}

/// The same key for two dicts: an entry of the first has its like in the second.
proof fn lemma_entry_shared(n: MemoVal, p: ObjectVal, q: ObjectVal, i: int) -> (j: int)
    requires
        tables(n),
        n.items.len() <= usize::MAX,
        plain(Val::Object(p)),
        plain(Val::Object(q)),
        settled(n, Val::Object(p)),
        settled(n, Val::Object(q)),
        key_of(n, Val::Object(p)) == key_of(n, Val::Object(q)),
        0 <= i < p.entries.len(),
    ensures
        0 <= j < q.entries.len(),
        p.entries[i].0 == q.entries[j].0,
        key_of(n, p.entries[i].1) == key_of(n, q.entries[j].1),
{
    lemma_settled_dict(n, p, i);
    lemma_settled_dict(n, q, 0);
    lemma_entry_found(n, p, p.entries.len() as int);
    lemma_entry_found(n, q, q.entries.len() as int);
    assert(p.entries[i].0 is Str);
    let k: usize = number_at(n, p, i);
    let pairs: Seq<(usize, usize)> = entry_keys(n, q.entries, q.entries.len() as int).1;
    assert(lookup(pairs, k) == Some(key_of(n, p.entries[i].1)));
    let j: int = choose|j: int| 0 <= j < q.entries.len() && #[trigger] number_at(n, q, j) == k;
    assert(q.entries[j].0 is Str);
    lemma_settled_dict(n, q, j);
    lemma_settled_text(n, p.entries[i].0);
    lemma_settled_text(n, q.entries[j].0);
    j
}

/// Keys tell apart what differs: values with one key are alike.
pub proof fn lemma_key_tells(n: MemoVal, a: Val, b: Val)
    requires
        tables(n),
        n.items.len() <= usize::MAX,
        plain(a),
        plain(b),
        settled(n, a),
        settled(n, b),
    ensures
        key_of(n, a) == key_of(n, b) <==> alike(a, b),
    decreases a,
{
    if alike(a, b) {
        lemma_same(n);
        lemma_keyed_again(n, a, b, false, n);
    }
    if key_of(n, a) == key_of(n, b) {
        match a {
            Val::Array(x) => {
                lemma_settled_list(n, x, 0);
                match b {
                    Val::Array(y) => {
                        lemma_settled_list(n, y, 0);
                        lemma_items_tell(n, x, y);
                    },
                    Val::Object(q) => lemma_settled_dict(n, q, 0),
                    _ => lemma_settled_scalar(n, b),
                }
            },
            Val::Object(p) => {
                lemma_settled_dict(n, p, 0);
                match b {
                    Val::Array(y) => lemma_settled_list(n, y, 0),
                    Val::Object(q) => lemma_dicts_tell(n, p, q),
                    _ => lemma_settled_scalar(n, b),
                }
            },
            _ => {
                lemma_settled_scalar(n, a);
                match b {
                    Val::Array(y) => lemma_settled_list(n, y, 0),
                    Val::Object(q) => lemma_settled_dict(n, q, 0),
                    _ => {
                        lemma_settled_scalar(n, b);
                        match (a, b) {
                            (Val::Number(u), Val::Number(v)) => lemma_plain_numbers(u, v),
                            _ => {},
                        }
                    },
                }
            },
        }
    }
}

proof fn lemma_items_tell(n: MemoVal, x: Seq<Val>, y: Seq<Val>)
    requires
        tables(n),
        n.items.len() <= usize::MAX,
        plain(Val::Array(x)),
        plain(Val::Array(y)),
        settled(n, Val::Array(x)),
        settled(n, Val::Array(y)),
        key_of(n, Val::Array(x)) == key_of(n, Val::Array(y)),
    ensures
        alike(Val::Array(x), Val::Array(y)),
    decreases x,
{
    lemma_settled_list(n, x, 0);
    lemma_settled_list(n, y, 0);
    lemma_keys_held(n, x, x.len() as int);
    lemma_keys_held(n, y, y.len() as int);
    let keys: Keys = keys_of(n, x, x.len() as int).1;
    assert(keys == keys_of(n, y, y.len() as int).1);
    assert forall|i: int| 0 <= i < x.len() implies like_one(#[trigger] x[i], y) by {
        assert(lookup(keys, key_at(n, x, i)) is Some);
        let j: int = choose|j: int|
            0 <= j < y.len() && #[trigger] key_at(n, y, j) == key_at(n, x, i);
        lemma_settled_list(n, x, i);
        lemma_settled_list(n, y, j);
        assert(plain(x[i]) && plain(y[j]));
        lemma_key_tells(n, x[i], y[j]);
    }
    assert forall|j: int| 0 <= j < y.len() implies one_like(x, #[trigger] y[j]) by {
        assert(lookup(keys, key_at(n, y, j)) is Some);
        let i: int = choose|i: int|
            0 <= i < x.len() && #[trigger] key_at(n, x, i) == key_at(n, y, j);
        lemma_settled_list(n, x, i);
        lemma_settled_list(n, y, j);
        assert(plain(x[i]) && plain(y[j]));
        lemma_key_tells(n, x[i], y[j]);
    }
    lemma_like_items(x, y);
}

/// Dicts with one key have the same keys.
proof fn lemma_dict_keys_tell(n: MemoVal, p: ObjectVal, q: ObjectVal)
    requires
        tables(n),
        n.items.len() <= usize::MAX,
        plain(Val::Object(p)),
        plain(Val::Object(q)),
        settled(n, Val::Object(p)),
        settled(n, Val::Object(q)),
        key_of(n, Val::Object(p)) == key_of(n, Val::Object(q)),
    ensures
        bare(p.entries) == bare(q.entries),
{
    let x: Seq<(KeyVal, ())> = bare(p.entries);
    let y: Seq<(KeyVal, ())> = bare(q.entries);
    assert(ascending::<ObjectKey, Val>(p.entries));
    assert(ascending::<ObjectKey, Val>(q.entries));
    assert forall|key: KeyVal| #[trigger] lookup(x, key) == lookup(y, key) by {
        lemma_bare(p.entries, key);
        lemma_bare(q.entries, key);
        if lookup(x, key) is Some {
            let i: int = choose|i: int|
                #![trigger p.entries[i]]
                0 <= i < p.entries.len() && p.entries[i].0 == key;
            let j: int = lemma_entry_shared(n, p, q, i);
            assert(q.entries[j].0 == key);
        }
        if lookup(y, key) is Some {
            let j: int = choose|j: int|
                #![trigger q.entries[j]]
                0 <= j < q.entries.len() && q.entries[j].0 == key;
            let i: int = lemma_entry_shared(n, q, p, j);
            assert(p.entries[i].0 == key);
        }
    }
    lemma_bare(p.entries, KeyVal::Str(seq![]));
    lemma_bare(q.entries, KeyVal::Str(seq![]));
    lemma_ascending_identified::<ObjectKey, ()>(x, y);
}

/// Dicts with one key have values of one key under each key.
proof fn lemma_dict_values_tell(n: MemoVal, p: ObjectVal, q: ObjectVal, i: int)
    requires
        tables(n),
        n.items.len() <= usize::MAX,
        plain(Val::Object(p)),
        plain(Val::Object(q)),
        settled(n, Val::Object(p)),
        settled(n, Val::Object(q)),
        key_of(n, Val::Object(p)) == key_of(n, Val::Object(q)),
        bare(p.entries) == bare(q.entries),
        0 <= i < p.entries.len(),
    ensures
        p.entries.len() == q.entries.len(),
        p.entries[i].0 == q.entries[i].0,
        plain(p.entries[i].1),
        plain(q.entries[i].1),
        settled(n, p.entries[i].1),
        settled(n, q.entries[i].1),
        key_of(n, p.entries[i].1) == key_of(n, q.entries[i].1),
{
    assert(p.entries.len() == bare(p.entries).len());
    assert(q.entries.len() == bare(q.entries).len());
    assert(bare(p.entries)[i] == bare(q.entries)[i]);
    assert(ascending::<ObjectKey, Val>(q.entries));
    let j: int = lemma_entry_shared(n, p, q, i);
    if j < i {
        assert(ObjectKey::place(q.entries[j].0, q.entries[i].0) == Place::Before);
        ObjectKey::lemma_total(q.entries[j].0, q.entries[i].0);
    } else if i < j {
        assert(ObjectKey::place(q.entries[i].0, q.entries[j].0) == Place::Before);
        ObjectKey::lemma_total(q.entries[i].0, q.entries[j].0);
    }
    lemma_settled_dict(n, p, i);
    lemma_settled_dict(n, q, i);
}

proof fn lemma_dicts_tell(n: MemoVal, p: ObjectVal, q: ObjectVal)
    requires
        tables(n),
        n.items.len() <= usize::MAX,
        plain(Val::Object(p)),
        plain(Val::Object(q)),
        settled(n, Val::Object(p)),
        settled(n, Val::Object(q)),
        key_of(n, Val::Object(p)) == key_of(n, Val::Object(q)),
    ensures
        alike(Val::Object(p), Val::Object(q)),
    decreases p,
{
    lemma_dict_keys_tell(n, p, q);
    assert(p.entries.len() == bare(p.entries).len());
    assert(q.entries.len() == bare(q.entries).len());
    assert forall|i: int| #![trigger p.entries[i]] 0 <= i < p.entries.len() implies p.entries[i].0
        == q.entries[i].0 && alike(p.entries[i].1, q.entries[i].1) by {
        lemma_dict_values_tell(n, p, q, i);
        lemma_key_tells(n, p.entries[i].1, q.entries[i].1);
    }
}

} // verus!
