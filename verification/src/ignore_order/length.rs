//! How many leaves values have, by the two counts that distances use.

use vstd::prelude::*;

use crate::count::capped_sum;
use crate::text::chars_of;
use crate::value::{Object, ObjectKey, SetItems, Value};

#[allow(unused_imports)]
use crate::count::capped;
#[allow(unused_imports)]
use crate::value::{views, KeyVal, Val};
#[allow(unused_imports)]
use crate::walk::{lemma_entry_member, lemma_member, total, total_entries, weight};

verus! {

/// Whether an entry under a name is left out of the count of leaves.
pub open spec fn excluded(name: Seq<char>) -> bool {
    (name.len() > 0 && name[0] == '_') || name == "deep_distance"@ || name == "new_path"@ || name
        == "old_type"@ || name == "old_value"@
}

/// Whether an entry under a key is left out of the count of leaves.
pub open spec fn excluded_key(key: KeyVal) -> bool {
    match key {
        KeyVal::Str(name) => excluded(name),
        KeyVal::Other(_) => false,
    }
}

/// The number of leaves of a value; `None` has none.
pub open spec fn leaves(value: Val) -> nat
    decreases value,
{
    match value {
        Val::Null => 0,
        Val::Array(items) => leaves_of(items),
        Val::Tuple(items) => leaves_of(items),
        Val::MutableSet(items) => leaves_of(items),
        Val::FrozenSet(items) => leaves_of(items),
        Val::Object(object) => entry_leaves(object.entries),
        _ => 1,
    }
}

/// The number of leaves of several values.
pub open spec fn leaves_of(items: Seq<Val>) -> nat
    decreases items,
{
    if items.len() == 0 {
        0
    } else {
        leaves_of(items.drop_last()) + leaves(items.last())
    }
}

/// The number of leaves of entries.
pub open spec fn entry_leaves(entries: Seq<(KeyVal, Val)>) -> nat
    decreases entries,
{
    if entries.len() == 0 {
        0
    } else {
        entry_leaves(entries.drop_last()) + if excluded_key(entries.last().0) {
            0
        } else {
            leaves(entries.last().1)
        }
    }
}

/// The number of nodes of a value: itself, what it holds, and one for each key.
pub open spec fn nodes(value: Val) -> nat
    decreases value,
{
    match value {
        Val::Array(items) => 1 + nodes_of(items),
        Val::Tuple(items) => 1 + nodes_of(items),
        Val::MutableSet(items) => 1 + nodes_of(items),
        Val::FrozenSet(items) => 1 + nodes_of(items),
        Val::Object(object) => 1 + entry_nodes(object.entries),
        _ => 1,
    }
}

/// The number of nodes of several values.
pub open spec fn nodes_of(items: Seq<Val>) -> nat
    decreases items,
{
    if items.len() == 0 {
        0
    } else {
        nodes_of(items.drop_last()) + nodes(items.last())
    }
}

/// The number of nodes of entries.
pub open spec fn entry_nodes(entries: Seq<(KeyVal, Val)>) -> nat
    decreases entries,
{
    if entries.len() == 0 {
        0
    } else {
        entry_nodes(entries.drop_last()) + 1 + nodes(entries.last().1)
    }
}

/// Whether two texts are the same.
fn same_text(a: &str, b: &str) -> (result: bool)
    ensures
        result == (a@ == b@),
{
    let place: crate::order::Place = crate::order::order_texts(a, b);
    proof {
        crate::order::lemma_ints_place(
            crate::order::code_points(a@),
            crate::order::code_points(b@),
        );
        crate::order::lemma_code_points(a@, b@);
    }
    place == crate::order::Place::Same
}

/// Whether an entry under a name is left out of the count of leaves.
pub fn is_length_excluded_key(name: &str) -> (result: bool)
    ensures
        result == excluded(name@),
{
    let chars: Vec<char> = chars_of(name);
    (chars.len() > 0 && chars[0] == '_') || same_text(name, "deep_distance") || same_text(
        name,
        "new_path",
    ) || same_text(name, "old_type") || same_text(name, "old_value")
}

/// The number of leaves of a value.
pub fn item_length(value: &Value) -> (count: usize)
    ensures
        count == capped(leaves(value@)),
    decreases weight(value@), 0int,
{
    match value {
        Value::Null => 0,
        Value::Array(items) => item_lengths(items),
        Value::Tuple(items) => item_lengths(items),
        Value::MutableSet(items) => item_length_of_set(items),
        Value::FrozenSet(items) => item_length_of_set(items),
        Value::Object(object) => item_length_of_map(object),
        _ => 1,
    }
}

fn item_lengths(items: &Vec<Value>) -> (count: usize)
    ensures
        count == capped(leaves_of(views(items@))),
    decreases total(views(items@)), 1int,
{
    let ghost all: Seq<Val> = views(items@);
    let mut count: usize = 0;
    let mut i: usize = 0;
    proof {
        assert(all.take(0) =~= Seq::<Val>::empty());
    }
    while i < items.len()
        invariant
            i <= items.len(),
            all == views(items@),
            count == capped(leaves_of(all.take(i as int))),
        decreases items.len() - i,
    {
        proof {
            lemma_member(all, i as int);
        }
        count = capped_sum(count, item_length(&items[i]));
        proof {
            let upto: Seq<Val> = all.take(i as int + 1);
            assert(upto.drop_last() =~= all.take(i as int));
            assert(upto.last() == items@[i as int]@);
        }
        i = i + 1;
    }
    proof {
        assert(all.take(i as int) =~= all);
    }
    count
}

fn item_length_of_set(items: &SetItems) -> (count: usize)
    ensures
        count == capped(leaves_of(items@)),
    decreases total(items@), 1int,
{
    let ghost all: Seq<Val> = items@;
    let mut count: usize = 0;
    let mut i: usize = 0;
    proof {
        assert(all.take(0) =~= Seq::<Val>::empty());
    }
    while i < items.len()
        invariant
            i <= all.len(),
            all == items@,
            count == capped(leaves_of(all.take(i as int))),
        decreases all.len() - i,
    {
        proof {
            lemma_member(all, i as int);
        }
        count = capped_sum(count, item_length(items.get(i)));
        proof {
            let upto: Seq<Val> = all.take(i as int + 1);
            assert(upto.drop_last() =~= all.take(i as int));
            assert(upto.last() == all[i as int]);
        }
        i = i + 1;
    }
    proof {
        assert(all.take(i as int) =~= all);
    }
    count
}

/// The number of leaves of an object.
pub fn item_length_of_map(object: &Object) -> (count: usize)
    ensures
        count == capped(entry_leaves(object@.entries)),
    decreases total_entries(object@.entries), 1int,
{
    let ghost all: Seq<(KeyVal, Val)> = object@.entries;
    let mut count: usize = 0;
    let mut i: usize = 0;
    proof {
        assert(all.take(0) =~= Seq::<(KeyVal, Val)>::empty());
    }
    while i < object.len()
        invariant
            i <= all.len(),
            all == object@.entries,
            count == capped(entry_leaves(all.take(i as int))),
        decreases all.len() - i,
    {
        let skipped: bool = match object.key_at(i) {
            ObjectKey::Str(name) => is_length_excluded_key(name.as_str()),
            ObjectKey::Other(_) => false,
        };
        proof {
            lemma_entry_member(all, i as int);
            let upto: Seq<(KeyVal, Val)> = all.take(i as int + 1);
            assert(upto.drop_last() =~= all.take(i as int));
            assert(upto.last() == all[i as int]);
        }
        if !skipped {
            count = capped_sum(count, item_length(object.value_at(i)));
        }
        i = i + 1;
    }
    proof {
        assert(all.take(i as int) =~= all);
    }
    count
}

/// The number of nodes of a value.
pub fn rough_length(value: &Value) -> (count: usize)
    ensures
        count == capped(nodes(value@)),
    decreases weight(value@), 0int,
{
    match value {
        Value::Array(items) => capped_sum(1, rough_lengths(items)),
        Value::Tuple(items) => capped_sum(1, rough_lengths(items)),
        Value::MutableSet(items) => capped_sum(1, rough_length_of_set(items)),
        Value::FrozenSet(items) => capped_sum(1, rough_length_of_set(items)),
        Value::Object(object) => capped_sum(1, rough_length_of_map(object)),
        _ => 1,
    }
}

fn rough_lengths(items: &Vec<Value>) -> (count: usize)
    ensures
        count == capped(nodes_of(views(items@))),
    decreases total(views(items@)), 1int,
{
    let ghost all: Seq<Val> = views(items@);
    let mut count: usize = 0;
    let mut i: usize = 0;
    proof {
        assert(all.take(0) =~= Seq::<Val>::empty());
    }
    while i < items.len()
        invariant
            i <= items.len(),
            all == views(items@),
            count == capped(nodes_of(all.take(i as int))),
        decreases items.len() - i,
    {
        proof {
            lemma_member(all, i as int);
        }
        count = capped_sum(count, rough_length(&items[i]));
        proof {
            let upto: Seq<Val> = all.take(i as int + 1);
            assert(upto.drop_last() =~= all.take(i as int));
            assert(upto.last() == items@[i as int]@);
        }
        i = i + 1;
    }
    proof {
        assert(all.take(i as int) =~= all);
    }
    count
}

fn rough_length_of_set(items: &SetItems) -> (count: usize)
    ensures
        count == capped(nodes_of(items@)),
    decreases total(items@), 1int,
{
    let ghost all: Seq<Val> = items@;
    let mut count: usize = 0;
    let mut i: usize = 0;
    proof {
        assert(all.take(0) =~= Seq::<Val>::empty());
    }
    while i < items.len()
        invariant
            i <= all.len(),
            all == items@,
            count == capped(nodes_of(all.take(i as int))),
        decreases all.len() - i,
    {
        proof {
            lemma_member(all, i as int);
        }
        count = capped_sum(count, rough_length(items.get(i)));
        proof {
            let upto: Seq<Val> = all.take(i as int + 1);
            assert(upto.drop_last() =~= all.take(i as int));
            assert(upto.last() == all[i as int]);
        }
        i = i + 1;
    }
    proof {
        assert(all.take(i as int) =~= all);
    }
    count
}

fn rough_length_of_map(object: &Object) -> (count: usize)
    ensures
        count == capped(entry_nodes(object@.entries)),
    decreases total_entries(object@.entries), 1int,
{
    let ghost all: Seq<(KeyVal, Val)> = object@.entries;
    let mut count: usize = 0;
    let mut i: usize = 0;
    proof {
        assert(all.take(0) =~= Seq::<(KeyVal, Val)>::empty());
    }
    while i < object.len()
        invariant
            i <= all.len(),
            all == object@.entries,
            count == capped(entry_nodes(all.take(i as int))),
        decreases all.len() - i,
    {
        proof {
            lemma_entry_member(all, i as int);
            let upto: Seq<(KeyVal, Val)> = all.take(i as int + 1);
            assert(upto.drop_last() =~= all.take(i as int));
            assert(upto.last() == all[i as int]);
        }
        let inner: usize = capped_sum(1, rough_length(object.value_at(i)));
        count = capped_sum(count, inner);
        i = i + 1;
    }
    proof {
        assert(all.take(i as int) =~= all);
    }
    count
}

/// A value has at least one node.
pub proof fn lemma_nodes_positive(value: Val)
    ensures
        nodes(value) >= 1,
{
}

} // verus!
