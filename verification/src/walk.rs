//! How large values are: what bounds the walks over them.

use vstd::prelude::*;

#[allow(unused_imports)]
use crate::value::{KeyVal, Val};

verus! {

/// The number of nodes of a value.
pub open spec fn weight(value: Val) -> nat
    decreases value,
{
    match value {
        Val::Array(items) => 1 + total(items),
        Val::Tuple(items) => 1 + total(items),
        Val::MutableSet(items) => 1 + total(items),
        Val::FrozenSet(items) => 1 + total(items),
        Val::Object(object) => 1 + total_entries(object.entries),
        _ => 1,
    }
}

/// The number of nodes of several values.
pub open spec fn total(values: Seq<Val>) -> nat
    decreases values,
{
    if values.len() == 0 {
        0
    } else {
        total(values.drop_last()) + weight(values.last())
    }
}

/// The number of nodes of the keys and values of several entries, and one for
/// each entry.
pub open spec fn total_entries(entries: Seq<(KeyVal, Val)>) -> nat
    decreases entries,
{
    if entries.len() == 0 {
        0
    } else {
        total_entries(entries.drop_last()) + key_weight(entries.last().0) + weight(
            entries.last().1,
        ) + 1
    }
}

/// The number of nodes of a key.
pub open spec fn key_weight(key: KeyVal) -> nat
    decreases key,
{
    match key {
        KeyVal::Str(_) => 0,
        KeyVal::Other(value) => weight(*value),
    }
}

/// The values of several entries.
pub open spec fn entry_values(entries: Seq<(KeyVal, Val)>) -> Seq<Val> {
    Seq::new(entries.len(), |i: int| entries[i].1)
}

/// The values that a value holds directly.
pub open spec fn children(value: Val) -> Seq<Val> {
    match value {
        Val::Array(items) => items,
        Val::Tuple(items) => items,
        Val::MutableSet(items) => items,
        Val::FrozenSet(items) => items,
        Val::Object(object) => entry_values(object.entries),
        _ => seq![],
    }
}

/// One more value adds its nodes.
pub proof fn lemma_total_push(values: Seq<Val>, value: Val)
    ensures
        total(values.push(value)) == total(values) + weight(value),
{
    assert(values.push(value).drop_last() =~= values);
}

/// The nodes of two lists add up.
pub proof fn lemma_total_add(a: Seq<Val>, b: Seq<Val>)
    ensures
        total(a + b) == total(a) + total(b),
    decreases b.len(),
{
    if b.len() == 0 {
        assert(a + b =~= a);
    } else {
        lemma_total_add(a, b.drop_last());
        assert((a + b).drop_last() =~= a + b.drop_last());
    }
}

/// The values of entries have no more nodes than the entries.
pub proof fn lemma_total_entry_values(entries: Seq<(KeyVal, Val)>)
    ensures
        total(entry_values(entries)) <= total_entries(entries),
    decreases entries.len(),
{
    if entries.len() > 0 {
        lemma_total_entry_values(entries.drop_last());
        assert(entry_values(entries).drop_last() =~= entry_values(entries.drop_last()));
    }
}

/// What a value holds has fewer nodes than it.
pub proof fn lemma_children(value: Val)
    ensures
        total(children(value)) < weight(value),
{
    match value {
        Val::Object(object) => lemma_total_entry_values(object.entries),
        _ => {},
    }
}

/// No value has more nodes than the list that holds it.
pub proof fn lemma_member(values: Seq<Val>, i: int)
    requires
        0 <= i < values.len(),
    ensures
        weight(values[i]) <= total(values),
    decreases values.len(),
{
    if i < values.len() - 1 {
        lemma_member(values.drop_last(), i);
    }
}

/// An entry's key and value have fewer nodes than the entries.
pub proof fn lemma_entry_member(entries: Seq<(KeyVal, Val)>, i: int)
    requires
        0 <= i < entries.len(),
    ensures
        key_weight(entries[i].0) + weight(entries[i].1) < total_entries(entries),
    decreases entries.len(),
{
    if i < entries.len() - 1 {
        lemma_entry_member(entries.drop_last(), i);
    }
}

} // verus!
