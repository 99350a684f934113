//! Python's `==`: numbers of all types are one kind, sets of both kinds are one
//! kind, and containers are equal part by part.

use vstd::prelude::*;

use crate::intern::Keyed;
use crate::scalar_key::{python_scalar_key, ScalarKey};
use crate::value::{Object, ObjectKey, SetItems, Value};

#[allow(unused_imports)]
use crate::scalar_key::{python_scalar, share_key, ScalarVal};
#[allow(unused_imports)]
use crate::value::{views, KeyVal, ObjectVal, Val};
#[allow(unused_imports)]
use crate::walk::{
    key_weight, lemma_entry_member, lemma_member, total, total_entries, weight,
};

verus! {

/// Whether Python calls two values equal.
pub open spec fn python_equal(a: Val, b: Val) -> bool
    decreases a, 0int, 0int,
{
    match (a, b) {
        (Val::Array(x), Val::Array(y)) => equal_lists(x, y, 0),
        (Val::Tuple(x), Val::Tuple(y)) => equal_lists(x, y, 0),
        (Val::MutableSet(x), Val::MutableSet(y)) => all_have(x, y, 0) && all_covered(x, y, 0),
        (Val::MutableSet(x), Val::FrozenSet(y)) => all_have(x, y, 0) && all_covered(x, y, 0),
        (Val::FrozenSet(x), Val::MutableSet(y)) => all_have(x, y, 0) && all_covered(x, y, 0),
        (Val::FrozenSet(x), Val::FrozenSet(y)) => all_have(x, y, 0) && all_covered(x, y, 0),
        (Val::Object(x), Val::Object(y)) => x.kind == y.kind && x.class_name == y.class_name
            && x.entries.len() == y.entries.len() && entries_match(x.entries, y.entries, 0),
        _ => share_key(python_scalar(a), python_scalar(b)),
    }
}

/// Whether two lists are equal from position `i` on, and of one length.
pub open spec fn equal_lists(x: Seq<Val>, y: Seq<Val>, i: int) -> bool
    decreases x, 1int, x.len() - i,
{
    x.len() == y.len() && (0 <= i < x.len() ==> python_equal(x[i], y[i]) && equal_lists(x, y, i + 1))
}

/// Whether one of the values from position `k` on is equal to `v`.
pub open spec fn has_equal(v: Val, items: Seq<Val>, k: int) -> bool
    decreases v, 1int, items.len() - k,
{
    0 <= k < items.len() && (python_equal(v, items[k]) || has_equal(v, items, k + 1))
}

/// Whether each value of `x` from position `i` on has an equal in `y`.
pub open spec fn all_have(x: Seq<Val>, y: Seq<Val>, i: int) -> bool
    decreases x, 1int, x.len() - i,
{
    0 <= i < x.len() ==> has_equal(x[i], y, 0) && all_have(x, y, i + 1)
}

/// Whether `w` has an equal among the values of `x` from position `i` on.
pub open spec fn covered(x: Seq<Val>, w: Val, i: int) -> bool
    decreases x, 1int, x.len() - i,
{
    0 <= i < x.len() && (python_equal(x[i], w) || covered(x, w, i + 1))
}

/// Whether each value of `y` from position `j` on has an equal in `x`.
pub open spec fn all_covered(x: Seq<Val>, y: Seq<Val>, j: int) -> bool
    decreases x, 2int, y.len() - j,
{
    0 <= j < y.len() ==> covered(x, y[j], 0) && all_covered(x, y, j + 1)
}

/// Whether Python calls two keys equal.
pub open spec fn keys_equal(a: KeyVal, b: KeyVal) -> bool
    decreases a, 0int, 0int,
{
    match (a, b) {
        (KeyVal::Str(s), KeyVal::Str(t)) => s == t,
        (KeyVal::Str(s), KeyVal::Other(w)) => python_scalar(*w) == Some(ScalarVal::Str(s)),
        (KeyVal::Other(v), KeyVal::Str(t)) => python_scalar(*v) == Some(ScalarVal::Str(t)),
        (KeyVal::Other(v), KeyVal::Other(w)) => python_equal(*v, *w),
    }
}

/// Whether one of the entries from position `k` on is equal to `entry`.
pub open spec fn has_entry(entry: (KeyVal, Val), entries: Seq<(KeyVal, Val)>, k: int) -> bool
    decreases entry, 1int, entries.len() - k,
{
    0 <= k < entries.len() && ((keys_equal(entry.0, entries[k].0) && python_equal(
        entry.1,
        entries[k].1,
    )) || has_entry(entry, entries, k + 1))
}

/// Whether each entry of `x` from position `i` on has an equal in `y`.
pub open spec fn entries_match(x: Seq<(KeyVal, Val)>, y: Seq<(KeyVal, Val)>, i: int) -> bool
    decreases x, 1int, x.len() - i,
{
    0 <= i < x.len() ==> has_entry(x[i], y, 0) && entries_match(x, y, i + 1)
}

/// Whether two scalars have one key.
fn scalars_equal(a: &Value, b: &Value) -> (result: bool)
    ensures
        result == share_key(python_scalar(a@), python_scalar(b@)),
{
    match (python_scalar_key(a), python_scalar_key(b)) {
        (Some(x), Some(y)) => x == y,
        _ => false,
    }
}

/// Whether Python calls two values equal.
pub fn python_eq(a: &Value, b: &Value) -> (result: bool)
    ensures
        result == python_equal(a@, b@),
    decreases weight(a@), 0int,
{
    match (a, b) {
        (Value::Array(x), Value::Array(y)) => lists_eq(x, y),
        (Value::Tuple(x), Value::Tuple(y)) => lists_eq(x, y),
        (Value::MutableSet(x), Value::MutableSet(y)) => sets_eq(x, y),
        (Value::MutableSet(x), Value::FrozenSet(y)) => sets_eq(x, y),
        (Value::FrozenSet(x), Value::MutableSet(y)) => sets_eq(x, y),
        (Value::FrozenSet(x), Value::FrozenSet(y)) => sets_eq(x, y),
        (Value::Object(x), Value::Object(y)) => objects_eq(x, y),
        _ => scalars_equal(a, b),
    }
}

/// Whether two lists are equal, part by part.
pub fn lists_eq(x: &Vec<Value>, y: &Vec<Value>) -> (result: bool)
    ensures
        result == equal_lists(views(x@), views(y@), 0),
    decreases total(views(x@)), 1int,
{
    let ghost p: Seq<Val> = views(x@);
    let ghost q: Seq<Val> = views(y@);
    if x.len() != y.len() {
        return false;
    }
    let mut i: usize = 0;
    while i < x.len()
        invariant
            i <= x.len(),
            p == views(x@),
            q == views(y@),
            x@.len() == y@.len(),
            equal_lists(p, q, i as int) == equal_lists(p, q, 0),
        decreases x.len() - i,
    {
        proof {
            lemma_member(p, i as int);
        }
        if !python_eq(&x[i], &y[i]) {
            return false;
        }
        i = i + 1;
    }
    true
}

/// Whether one of the values is equal to `v`.
fn any_eq(v: &Value, items: &Vec<Value>) -> (result: bool)
    ensures
        result == has_equal(v@, views(items@), 0),
    decreases weight(v@), 1int,
{
    let ghost q: Seq<Val> = views(items@);
    let mut k: usize = 0;
    while k < items.len()
        invariant
            k <= items.len(),
            q == views(items@),
            has_equal(v@, q, k as int) == has_equal(v@, q, 0),
        decreases items.len() - k,
    {
        if python_eq(v, &items[k]) {
            return true;
        }
        k = k + 1;
    }
    false
}

/// Whether one of the values is equal to `w`.
fn any_covers(x: &Vec<Value>, w: &Value) -> (result: bool)
    ensures
        result == covered(views(x@), w@, 0),
    decreases total(views(x@)), 1int,
{
    let ghost p: Seq<Val> = views(x@);
    let mut i: usize = 0;
    while i < x.len()
        invariant
            i <= x.len(),
            p == views(x@),
            covered(p, w@, i as int) == covered(p, w@, 0),
        decreases x.len() - i,
    {
        proof {
            lemma_member(p, i as int);
        }
        if python_eq(&x[i], w) {
            return true;
        }
        i = i + 1;
    }
    false
}

/// Whether each value of either list has an equal in the other.
pub fn mutually_equal(x: &Vec<Value>, y: &Vec<Value>) -> (result: bool)
    ensures
        result == (all_have(views(x@), views(y@), 0) && all_covered(views(x@), views(y@), 0)),
    decreases total(views(x@)), 2int,
{
    let ghost p: Seq<Val> = views(x@);
    let ghost q: Seq<Val> = views(y@);
    let mut i: usize = 0;
    while i < x.len()
        invariant
            i <= x.len(),
            p == views(x@),
            q == views(y@),
            all_have(p, q, i as int) == all_have(p, q, 0),
        decreases x.len() - i,
    {
        proof {
            lemma_member(p, i as int);
        }
        if !any_eq(&x[i], y) {
            return false;
        }
        i = i + 1;
    }
    let mut j: usize = 0;
    while j < y.len()
        invariant
            j <= y.len(),
            p == views(x@),
            q == views(y@),
            all_covered(p, q, j as int) == all_covered(p, q, 0),
        decreases y.len() - j,
    {
        if !any_covers(x, &y[j]) {
            return false;
        }
        j = j + 1;
    }
    true
}

/// Whether two sets have equal members.
fn sets_eq(x: &SetItems, y: &SetItems) -> (result: bool)
    ensures
        result == (all_have(x@, y@, 0) && all_covered(x@, y@, 0)),
    decreases total(x@), 3int,
{
    mutually_equal(&x.to_vec(), &y.to_vec())
}

/// Whether Python calls two keys equal.
pub fn python_eq_keys(a: &ObjectKey, b: &ObjectKey) -> (result: bool)
    ensures
        result == keys_equal(a@, b@),
    decreases key_weight(a@), 1int,
{
    match (a, b) {
        (ObjectKey::Str(s), ObjectKey::Str(t)) => s.eq(t),
        (ObjectKey::Str(s), ObjectKey::Other(w)) => is_text(&**w, s),
        (ObjectKey::Other(v), ObjectKey::Str(t)) => is_text(&**v, t),
        (ObjectKey::Other(v), ObjectKey::Other(w)) => python_eq(&**v, &**w),
    }
}

/// Whether a value is a text.
fn is_text(value: &Value, text: &String) -> (result: bool)
    ensures
        result == (python_scalar(value@) == Some(ScalarVal::Str(text@))),
{
    match python_scalar_key(value) {
        Some(key) => key.same_as(&ScalarKey::Str(text.clone())),
        None => false,
    }
}

fn any_entry(x: &Object, i: usize, y: &Object) -> (result: bool)
    requires
        i < x@.entries.len(),
    ensures
        result == has_entry(x@.entries[i as int], y@.entries, 0),
    decreases total_entries(x@.entries), 1int,
{
    let ghost entry: (KeyVal, Val) = x@.entries[i as int];
    let ghost q: Seq<(KeyVal, Val)> = y@.entries;
    let mut k: usize = 0;
    while k < y.len()
        invariant
            i < x@.entries.len(),
            entry == x@.entries[i as int],
            q == y@.entries,
            k <= q.len(),
            has_entry(entry, q, k as int) == has_entry(entry, q, 0),
        decreases q.len() - k,
    {
        proof {
            lemma_entry_member(x@.entries, i as int);
        }
        if python_eq_keys(x.key_at(i), y.key_at(k)) && python_eq(x.value_at(i), y.value_at(k)) {
            return true;
        }
        k = k + 1;
    }
    false
}

fn objects_eq(x: &Object, y: &Object) -> (result: bool)
    ensures
        result == (x@.kind == y@.kind && x@.class_name == y@.class_name && x@.entries.len()
            == y@.entries.len() && entries_match(x@.entries, y@.entries, 0)),
    decreases total_entries(x@.entries), 2int,
{
    if x.kind() != y.kind() || !x.class_name().eq(y.class_name()) || x.len() != y.len() {
        return false;
    }
    let ghost p: Seq<(KeyVal, Val)> = x@.entries;
    let ghost q: Seq<(KeyVal, Val)> = y@.entries;
    let mut i: usize = 0;
    while i < x.len()
        invariant
            p == x@.entries,
            q == y@.entries,
            i <= p.len(),
            entries_match(p, q, i as int) == entries_match(p, q, 0),
        decreases p.len() - i,
    {
        if !any_entry(x, i, y) {
            return false;
        }
        i = i + 1;
    }
    true
}

// ---------------------------------------------------------------------
// What equality means
// ---------------------------------------------------------------------

/// Whether a value has an equal among several.
pub open spec fn equal_to_one(v: Val, items: Seq<Val>) -> bool {
    exists|k: int| 0 <= k < items.len() && python_equal(v, #[trigger] items[k])
}

/// Whether one of several values is equal to a value.
pub open spec fn one_equal_to(items: Seq<Val>, w: Val) -> bool {
    exists|k: int| 0 <= k < items.len() && python_equal(#[trigger] items[k], w)
}

/// Whether an entry has an equal among several.
pub open spec fn entry_equal_to_one(
    entry: (KeyVal, Val),
    entries: Seq<(KeyVal, Val)>,
) -> bool {
    exists|k: int|
        0 <= k < entries.len() && keys_equal(entry.0, (#[trigger] entries[k]).0) && python_equal(
            entry.1,
            entries[k].1,
        )
}

proof fn lemma_equal_from(x: Seq<Val>, y: Seq<Val>, i: int)
    requires
        0 <= i <= x.len(),
    ensures
        equal_lists(x, y, i) <==> x.len() == y.len() && (forall|k: int|
            i <= k < x.len() ==> python_equal(#[trigger] x[k], y[k])),
    decreases x.len() - i,
{
    if i < x.len() {
        lemma_equal_from(x, y, i + 1);
    }
}

proof fn lemma_has_equal(v: Val, items: Seq<Val>, k: int)
    requires
        0 <= k <= items.len(),
    ensures
        has_equal(v, items, k) <==> exists|l: int|
            k <= l < items.len() && python_equal(v, #[trigger] items[l]),
    decreases items.len() - k,
{
    if k < items.len() {
        lemma_has_equal(v, items, k + 1);
        if has_equal(v, items, k + 1) {
            let l: int = choose|l: int|
                k + 1 <= l < items.len() && python_equal(v, #[trigger] items[l]);
            assert(python_equal(v, items[l]));
        }
    }
}

proof fn lemma_covered(x: Seq<Val>, w: Val, i: int)
    requires
        0 <= i <= x.len(),
    ensures
        covered(x, w, i) <==> exists|l: int|
            i <= l < x.len() && python_equal(#[trigger] x[l], w),
    decreases x.len() - i,
{
    if i < x.len() {
        lemma_covered(x, w, i + 1);
        if covered(x, w, i + 1) {
            let l: int = choose|l: int| i + 1 <= l < x.len() && python_equal(#[trigger] x[l], w);
            assert(python_equal(x[l], w));
        }
    }
}

proof fn lemma_all_have(x: Seq<Val>, y: Seq<Val>, i: int)
    requires
        0 <= i <= x.len(),
    ensures
        all_have(x, y, i) <==> forall|k: int| i <= k < x.len() ==> equal_to_one(#[trigger] x[k], y),
    decreases x.len() - i,
{
    if i < x.len() {
        lemma_all_have(x, y, i + 1);
        lemma_has_equal(x[i], y, 0);
    }
}

proof fn lemma_all_covered(x: Seq<Val>, y: Seq<Val>, j: int)
    requires
        0 <= j <= y.len(),
    ensures
        all_covered(x, y, j) <==> forall|k: int|
            j <= k < y.len() ==> one_equal_to(x, #[trigger] y[k]),
    decreases y.len() - j,
{
    if j < y.len() {
        lemma_all_covered(x, y, j + 1);
        lemma_covered(x, y[j], 0);
    }
}

proof fn lemma_has_entry(entry: (KeyVal, Val), entries: Seq<(KeyVal, Val)>, k: int)
    requires
        0 <= k <= entries.len(),
    ensures
        has_entry(entry, entries, k) <==> exists|l: int|
            k <= l < entries.len() && keys_equal(entry.0, (#[trigger] entries[l]).0) && python_equal(
                entry.1,
                entries[l].1,
            ),
    decreases entries.len() - k,
{
    if k < entries.len() {
        lemma_has_entry(entry, entries, k + 1);
        if has_entry(entry, entries, k + 1) {
            let l: int = choose|l: int|
                k + 1 <= l < entries.len() && keys_equal(entry.0, (#[trigger] entries[l]).0)
                    && python_equal(entry.1, entries[l].1);
            assert(keys_equal(entry.0, entries[l].0));
        }
    }
}

proof fn lemma_entries_match(x: Seq<(KeyVal, Val)>, y: Seq<(KeyVal, Val)>, i: int)
    requires
        0 <= i <= x.len(),
    ensures
        entries_match(x, y, i) <==> forall|k: int|
            i <= k < x.len() ==> entry_equal_to_one(#[trigger] x[k], y),
    decreases x.len() - i,
{
    if i < x.len() {
        lemma_entries_match(x, y, i + 1);
        lemma_has_entry(x[i], y, 0);
    }
}

/// Lists are equal to lists, and tuples to tuples, position by position.
pub proof fn lemma_equal_by_position(x: Seq<Val>, y: Seq<Val>)
    ensures
        python_equal(Val::Array(x), Val::Array(y)) <==> x.len() == y.len() && (forall|k: int|
            0 <= k < x.len() ==> python_equal(#[trigger] x[k], y[k])),
        python_equal(Val::Tuple(x), Val::Tuple(y)) <==> x.len() == y.len() && (forall|k: int|
            0 <= k < x.len() ==> python_equal(#[trigger] x[k], y[k])),
        !python_equal(Val::Array(x), Val::Tuple(y)),
        !python_equal(Val::Tuple(x), Val::Array(y)),
{
    lemma_equal_from(x, y, 0);
}

/// Sets, frozen or not, are equal where each member of either has an equal in the other.
pub proof fn lemma_equal_by_members(a: Val, b: Val, x: Seq<Val>, y: Seq<Val>)
    requires
        a == Val::MutableSet(x) || a == Val::FrozenSet(x),
        b == Val::MutableSet(y) || b == Val::FrozenSet(y),
    ensures
        python_equal(a, b) <==> (forall|k: int|
            0 <= k < x.len() ==> equal_to_one(#[trigger] x[k], y)) && (forall|k: int|
            0 <= k < y.len() ==> one_equal_to(x, #[trigger] y[k])),
{
    lemma_all_have(x, y, 0);
    lemma_all_covered(x, y, 0);
}

/// Objects are equal where they are of one kind and class and have as many entries, each
/// of the first with an equal in the second.
pub proof fn lemma_equal_by_entries(p: ObjectVal, q: ObjectVal)
    ensures
        python_equal(Val::Object(p), Val::Object(q)) <==> p.kind == q.kind && p.class_name
            == q.class_name && p.entries.len() == q.entries.len() && (forall|k: int|
            0 <= k < p.entries.len() ==> entry_equal_to_one(#[trigger] p.entries[k], q.entries)),
{
    lemma_entries_match(p.entries, q.entries, 0);
}

} // verus!
