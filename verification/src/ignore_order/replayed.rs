//! Keys found beside one another and keys found again: tables that are the same give
//! the same keys and stay the same, and tables in which keys were found before give
//! them again and grow no more.

use vstd::prelude::*;

#[allow(unused_imports)]
use super::hash::{entry_keys, hashed, key_item, keyed_of, keys_of, tuple_keys, HashedVal};
#[allow(unused_imports)]
use super::members::{entry_reps, member_of, members_of, set_changes, Member};
#[allow(unused_imports)]
use super::memo::MemoVal;
#[allow(unused_imports)]
use super::rearranged::{
    beside, extends, lemma_alike, lemma_extends, lemma_keyed, lemma_keyed_again, lemma_members,
    lemma_members_again, lemma_same, tables,
};
#[allow(unused_imports)]
use crate::value::{KeyVal, Val};
#[allow(unused_imports)]
use crate::walk::{children, lemma_children, lemma_member, total, weight};

verus! {

// ---------------------------------------------------------------------
// Tables that are the same
// ---------------------------------------------------------------------

/// Whether two memos number the same items in the same way.
pub open spec fn same_tables(m: MemoVal, n: MemoVal) -> bool {
    &&& m.items == n.items
    &&& m.parts == n.parts
    &&& m.tuples == n.tuples
    &&& m.tuple_items == n.tuple_items
    &&& m.nodes == n.nodes
    &&& m.node_reps == n.node_reps
    &&& m.contents == n.contents
}

proof fn lemma_keyed_same(m: MemoVal, n: MemoVal, value: Val, wanted: bool)
    requires
        same_tables(m, n),
    ensures
        same_tables(keyed_of(m, value, wanted).0, keyed_of(n, value, wanted).0),
        keyed_of(m, value, wanted).1 == keyed_of(n, value, wanted).1,
        keyed_of(m, value, wanted).2 == keyed_of(n, value, wanted).2,
    decreases value, 0int,
{
    match value {
        Val::Array(items) => lemma_keys_same(m, n, items, items.len() as int),
        Val::MutableSet(items) => lemma_keys_same(m, n, items, items.len() as int),
        Val::FrozenSet(items) => lemma_keys_same(m, n, items, items.len() as int),
        Val::Tuple(items) => lemma_tuple_keys_same(m, n, items, items.len() as int),
        Val::Object(object) => lemma_entry_keys_same(
            m,
            n,
            object.entries,
            object.entries.len() as int,
        ),
        _ => {},
    }
}

proof fn lemma_keys_same(m: MemoVal, n: MemoVal, items: Seq<Val>, count: int)
    requires
        same_tables(m, n),
    ensures
        same_tables(keys_of(m, items, count).0, keys_of(n, items, count).0),
        keys_of(m, items, count).1 == keys_of(n, items, count).1,
    decreases items, count,
{
    if 0 < count <= items.len() {
        lemma_keys_same(m, n, items, count - 1);
        lemma_keyed_same(
            keys_of(m, items, count - 1).0,
            keys_of(n, items, count - 1).0,
            items[count - 1],
            false,
        );
    }
}

proof fn lemma_tuple_keys_same(m: MemoVal, n: MemoVal, items: Seq<Val>, count: int)
    requires
        same_tables(m, n),
    ensures
        same_tables(tuple_keys(m, items, count).0, tuple_keys(n, items, count).0),
        tuple_keys(m, items, count).1 == tuple_keys(n, items, count).1,
        tuple_keys(m, items, count).2 == tuple_keys(n, items, count).2,
    decreases items, count,
{
    if 0 < count <= items.len() {
        lemma_tuple_keys_same(m, n, items, count - 1);
        let (k, keys, parts) = tuple_keys(m, items, count - 1);
        lemma_keyed_same(
            k,
            tuple_keys(n, items, count - 1).0,
            items[count - 1],
            parts is Some,
        );
    }
}

proof fn lemma_entry_keys_same(m: MemoVal, n: MemoVal, entries: Seq<(KeyVal, Val)>, count: int)
    requires
        same_tables(m, n),
    ensures
        same_tables(entry_keys(m, entries, count).0, entry_keys(n, entries, count).0),
        entry_keys(m, entries, count).1 == entry_keys(n, entries, count).1,
    decreases entries, count,
{
    if 0 < count <= entries.len() {
        lemma_entry_keys_same(m, n, entries, count - 1);
        let k: MemoVal = entry_keys(m, entries, count - 1).0;
        let l: MemoVal = entry_keys(n, entries, count - 1).0;
        let (key, value) = entries[count - 1];
        lemma_key_item_same(k, l, key);
        lemma_keyed_same(key_item(k, key).0, key_item(l, key).0, value, false);
    }
}

proof fn lemma_key_item_same(m: MemoVal, n: MemoVal, key: KeyVal)
    requires
        same_tables(m, n),
    ensures
        same_tables(key_item(m, key).0, key_item(n, key).0),
        key_item(m, key).1 == key_item(n, key).1,
    decreases key, 0int,
{
    match key {
        KeyVal::Str(_) => {},
        KeyVal::Other(value) => lemma_keyed_same(m, n, *value, false),
    }
}

proof fn lemma_entry_reps_same(
    m: MemoVal,
    n: MemoVal,
    entries: Seq<(KeyVal, Val)>,
    members: Seq<Member>,
    count: int,
)
    requires
        same_tables(m, n),
    ensures
        same_tables(
            entry_reps(m, entries, members, count).0,
            entry_reps(n, entries, members, count).0,
        ),
        entry_reps(m, entries, members, count).1 == entry_reps(n, entries, members, count).1,
    decreases count,
{
    if count > 0 {
        lemma_entry_reps_same(m, n, entries, members, count - 1);
        lemma_key_item_same(
            entry_reps(m, entries, members, count - 1).0,
            entry_reps(n, entries, members, count - 1).0,
            entries[count - 1].0,
        );
    }
}

proof fn lemma_member_of_same(m: MemoVal, n: MemoVal, value: Val)
    requires
        same_tables(m, n),
    ensures
        same_tables(member_of(m, value).0, member_of(n, value).0),
        member_of(m, value).1 == member_of(n, value).1,
    decreases weight(value), 0int,
{
    lemma_children(value);
    let held: Seq<Val> = children(value);
    let (k, members) = members_of(m, held, held.len() as int);
    let l: MemoVal = members_of(n, held, held.len() as int).0;
    lemma_members_same(m, n, held, held.len() as int);
    match value {
        Val::Object(object) => lemma_entry_reps_same(
            k,
            l,
            object.entries,
            members,
            object.entries.len() as int,
        ),
        _ => {},
    }
}

proof fn lemma_members_same(m: MemoVal, n: MemoVal, items: Seq<Val>, count: int)
    requires
        same_tables(m, n),
    ensures
        same_tables(members_of(m, items, count).0, members_of(n, items, count).0),
        members_of(m, items, count).1 == members_of(n, items, count).1,
    decreases total(items), count,
{
    if 0 < count <= items.len() {
        lemma_member(items, count - 1);
        lemma_members_same(m, n, items, count - 1);
        lemma_member_of_same(
            members_of(m, items, count - 1).0,
            members_of(n, items, count - 1).0,
            items[count - 1],
        );
    }
}

// ---------------------------------------------------------------------
// Beside, or again
// ---------------------------------------------------------------------

/// Whether a memo is ready for what another did on its way from `m` to `last`: to do
/// it beside, its tables are those of `m`; to do it again, they hold all that `last`
/// does.
pub open spec fn linked(again: bool, m: MemoVal, last: MemoVal, n: MemoVal) -> bool {
    if again {
        extends(last, n)
    } else {
        same_tables(m, n)
    }
}

/// Whether a memo did from `n` to `end` what another did on its way to `last`: beside
/// it, its tables are those of `last` now; again, they did not change.
pub open spec fn followed(again: bool, last: MemoVal, n: MemoVal, end: MemoVal) -> bool {
    if again {
        same_tables(n, end)
    } else {
        same_tables(last, end)
    }
}

/// A way may be followed in two steps.
pub proof fn lemma_first_step(again: bool, m: MemoVal, mid: MemoVal, last: MemoVal, n: MemoVal)
    requires
        linked(again, m, last, n),
        extends(mid, last),
    ensures
        linked(again, m, mid, n),
{
    if again {
        lemma_extends(mid, last, n);
    }
}

/// A memo that is ready to follow holds all from which the way starts.
pub proof fn lemma_linked(again: bool, m: MemoVal, last: MemoVal, n: MemoVal)
    requires
        linked(again, m, last, n),
        extends(m, last),
    ensures
        extends(m, n),
{
    if again {
        lemma_extends(m, last, n);
    } else {
        lemma_same(m);
    }
}

proof fn lemma_keyed_linked(again: bool, m: MemoVal, n: MemoVal, value: Val)
    requires
        tables(m),
        tables(n),
        linked(again, m, keyed_of(m, value, false).0, n),
    ensures
        tables(keyed_of(n, value, false).0),
        beside(n, keyed_of(n, value, false).0),
        followed(again, keyed_of(m, value, false).0, n, keyed_of(n, value, false).0),
        keyed_of(m, value, false).1 == keyed_of(n, value, false).1,
{
    lemma_keyed(n, value, false);
    if again {
        lemma_alike(value);
        lemma_keyed_again(m, value, value, false, n);
    } else {
        lemma_keyed_same(m, n, value, false);
    }
}

/// Finding the keys of a list only adds to the tables; each is that of an item.
pub proof fn lemma_hashed_grows(m: MemoVal, x: Seq<Val>, count: int)
    requires
        tables(m),
        0 <= count <= x.len() <= usize::MAX,
    ensures
        tables(hashed(m, x, count).0),
        extends(m, hashed(m, x, count).0),
        beside(m, hashed(m, x, count).0),
        hashed(m, x, count).1.keys.len() == hashed(m, x, count).1.firsts.len(),
        hashed(m, x, count).1.keys.len() <= count,
        forall|k: int|
            0 <= k < hashed(m, x, count).1.firsts.len() ==> (#[trigger] hashed(
                m,
                x,
                count,
            ).1.firsts[k]) < count,
    decreases count,
{
    lemma_same(m);
    if count > 0 {
        lemma_hashed_grows(m, x, count - 1);
        let (k, list) = hashed(m, x, count - 1);
        lemma_keyed(k, x[count - 1], false);
        lemma_extends(m, k, hashed(m, x, count).0);
        let after: HashedVal = hashed(m, x, count).1;
        assert forall|i: int| 0 <= i < after.firsts.len() implies (#[trigger] after.firsts[i])
            < count by {
            if i < list.firsts.len() {
                assert(after.firsts[i] == list.firsts[i]);
            }
        }
    }
}

/// The keys of a list, found beside or again.
pub proof fn lemma_hashed_linked(again: bool, m: MemoVal, n: MemoVal, x: Seq<Val>, count: int)
    requires
        tables(m),
        tables(n),
        0 <= count <= x.len() <= usize::MAX,
        linked(again, m, hashed(m, x, count).0, n),
    ensures
        followed(again, hashed(m, x, count).0, n, hashed(n, x, count).0),
        hashed(m, x, count).1 == hashed(n, x, count).1,
    decreases count,
{
    if count > 0 {
        let k: MemoVal = hashed(m, x, count - 1).0;
        let l: MemoVal = hashed(n, x, count - 1).0;
        lemma_hashed_grows(m, x, count - 1);
        lemma_hashed_grows(n, x, count - 1);
        lemma_keyed(k, x[count - 1], false);
        lemma_first_step(again, m, k, hashed(m, x, count).0, n);
        lemma_hashed_linked(again, m, n, x, count - 1);
        lemma_keyed_linked(again, k, l, x[count - 1]);
    }
}

proof fn lemma_members_linked(again: bool, m: MemoVal, n: MemoVal, items: Seq<Val>)
    requires
        tables(m),
        tables(n),
        linked(again, m, members_of(m, items, items.len() as int).0, n),
    ensures
        followed(
            again,
            members_of(m, items, items.len() as int).0,
            n,
            members_of(n, items, items.len() as int).0,
        ),
        members_of(m, items, items.len() as int).1 == members_of(n, items, items.len() as int).1,
{
    if again {
        lemma_members_again(m, items, n, items.len() as int);
    } else {
        lemma_members_same(m, n, items, items.len() as int);
    }
}

/// Comparing sets only adds to the tables.
pub proof fn lemma_sets_grow(m: MemoVal, x: Seq<Val>, y: Seq<Val>)
    requires
        tables(m),
    ensures
        tables(set_changes(m, x, y).0),
        extends(m, set_changes(m, x, y).0),
        beside(m, set_changes(m, x, y).0),
{
    let k: MemoVal = members_of(m, x, x.len() as int).0;
    lemma_members(m, x, x.len() as int);
    lemma_members(k, y, y.len() as int);
    lemma_extends(m, k, set_changes(m, x, y).0);
}

/// Sets compared beside or again.
pub proof fn lemma_sets_linked(again: bool, m: MemoVal, n: MemoVal, x: Seq<Val>, y: Seq<Val>)
    requires
        tables(m),
        tables(n),
        linked(again, m, set_changes(m, x, y).0, n),
    ensures
        followed(again, set_changes(m, x, y).0, n, set_changes(n, x, y).0),
        set_changes(m, x, y).1 == set_changes(n, x, y).1,
        set_changes(m, x, y).2 == set_changes(n, x, y).2,
{
    let k: MemoVal = members_of(m, x, x.len() as int).0;
    let l: MemoVal = members_of(n, x, x.len() as int).0;
    lemma_members(m, x, x.len() as int);
    lemma_members(n, x, x.len() as int);
    lemma_members(k, y, y.len() as int);
    lemma_first_step(again, m, k, set_changes(m, x, y).0, n);
    lemma_members_linked(again, m, n, x);
    lemma_members_linked(again, k, l, y);
}

} // verus!
