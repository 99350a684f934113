//! The keys that two dicts share, by Python's equality.

use vstd::prelude::*;

use crate::python_eq::python_eq_keys;
use crate::value::{Object, ObjectKey};

#[allow(unused_imports)]
use crate::order::lemma_lookup;
#[allow(unused_imports)]
use crate::python_eq::keys_equal;
#[allow(unused_imports)]
use crate::value::{KeyVal, Val};

verus! {

/// The share of their keys, in hundredths, that two dicts have in common for
/// them to be compared entry by entry.
pub const THRESHOLD_TO_DIFF_DEEPER: u128 = 33;

/// Whether a key is not a text.
pub open spec fn has_other_keys(entries: Seq<(KeyVal, Val)>) -> bool {
    exists|i: int| 0 <= i < entries.len() && (#[trigger] entries[i]).0 is Other
}

/// The first position from `k` on whose key is equal to a key.
pub open spec fn partner_from(entries: Seq<(KeyVal, Val)>, key: KeyVal, k: int) -> Option<int>
    decreases entries.len() - k,
{
    if k < 0 || k >= entries.len() {
        None
    } else if keys_equal(key, entries[k].0) {
        Some(k)
    } else {
        partner_from(entries, key, k + 1)
    }
}

/// The position whose key is equal to a key.
pub open spec fn partner(entries: Seq<(KeyVal, Val)>, key: KeyVal) -> Option<int> {
    partner_from(entries, key, 0)
}

/// How many of the first `count` entries have a partner.
pub open spec fn shared_keys(
    entries: Seq<(KeyVal, Val)>,
    others: Seq<(KeyVal, Val)>,
    count: int,
) -> nat
    decreases count,
{
    if count <= 0 || count > entries.len() {
        0
    } else {
        shared_keys(entries, others, count - 1) + if partner(others, entries[count - 1].0) is Some {
            1nat
        } else {
            0nat
        }
    }
}

/// Whether two dicts have so small a share of their keys in common that they are
/// reported as a whole.
pub open spec fn low_overlap(a: Seq<(KeyVal, Val)>, b: Seq<(KeyVal, Val)>) -> bool {
    let shared = shared_keys(a, b, a.len() as int);
    let either = a.len() + b.len() - shared;
    either > 1 && 100 * shared < THRESHOLD_TO_DIFF_DEEPER * either
}

/// A partner is a position with an equal key.
pub proof fn lemma_partner(entries: Seq<(KeyVal, Val)>, key: KeyVal, k: int)
    requires
        0 <= k,
    ensures
        partner_from(entries, key, k) matches Some(i) ==> k <= i < entries.len() && keys_equal(
            key,
            entries[i].0,
        ),
    decreases entries.len() - k,
{
    if k < entries.len() {
        lemma_partner(entries, key, k + 1);
    }
}

/// Among texts alone, the partner of a text is the entry under it.
proof fn lemma_text_partner(entries: Seq<(KeyVal, Val)>, key: KeyVal, k: int, at: Option<int>)
    requires
        0 <= k <= entries.len(),
        key is Str,
        !has_other_keys(entries),
        match at {
            Some(i) => k <= i < entries.len() && entries[i].0 == key && (forall|j: int|
                k <= j < i ==> (#[trigger] entries[j]).0 != key),
            None => forall|j: int| k <= j < entries.len() ==> (#[trigger] entries[j]).0 != key,
        },
    ensures
        partner_from(entries, key, k) == at,
    decreases entries.len() - k,
{
    if k < entries.len() {
        assert(!(entries[k].0 is Other));
        assert(keys_equal(key, entries[k].0) == (key == entries[k].0));
        if entries[k].0 != key {
            lemma_text_partner(entries, key, k + 1, at);
        }
    }
}

/// Whether a key of an object is not a text.
pub fn has_non_str_keys(object: &Object) -> (result: bool)
    ensures
        result == has_other_keys(object@.entries),
{
    let mut i: usize = 0;
    while i < object.len()
        invariant
            i <= object@.entries.len(),
            forall|k: int| 0 <= k < i ==> !((#[trigger] object@.entries[k]).0 is Other),
        decreases object@.entries.len() - i,
    {
        match object.key_at(i) {
            ObjectKey::Other(_) => {
                assert(object@.entries[i as int].0 is Other);
                return true;
            },
            ObjectKey::Str(_) => {},
        }
        i = i + 1;
    }
    false
}

/// The position of an object's key that is equal to a key; `plain` says that
/// the object has texts alone for keys.
pub fn find_partner(object: &Object, key: &ObjectKey, plain: bool) -> (found: Option<usize>)
    requires
        plain == !has_other_keys(object@.entries),
    ensures
        match found {
            Some(i) => i < object@.entries.len() && partner(object@.entries, key@) == Some(
                i as int,
            ),
            None => partner(object@.entries, key@) is None,
        },
{
    let ghost entries: Seq<(KeyVal, Val)> = object@.entries;
    if plain {
        if let ObjectKey::Str(_) = key {
            let found: Option<usize> = object.position(key);
            proof {
                lemma_lookup(entries, key@);
                match found {
                    Some(i) => {
                        lemma_text_partner(entries, key@, 0, Some(i as int));
                    },
                    None => {
                        lemma_text_partner(entries, key@, 0, None);
                    },
                }
            }
            return found;
        }
    }
    let mut i: usize = 0;
    while i < object.len()
        invariant
            i <= object@.entries.len(),
            entries == object@.entries,
            partner_from(entries, key@, i as int) == partner(entries, key@),
        decreases object@.entries.len() - i,
    {
        if python_eq_keys(key, object.key_at(i)) {
            return Some(i);
        }
        i = i + 1;
    }
    None
}

/// The number of keys that two objects share.
fn shared_key_count(a: &Object, b: &Object, plain: bool) -> (count: usize)
    requires
        plain == !has_other_keys(b@.entries),
    ensures
        count == shared_keys(a@.entries, b@.entries, a@.entries.len() as int),
        count <= a@.entries.len(),
{
    let mut count: usize = 0;
    let mut i: usize = 0;
    while i < a.len()
        invariant
            i <= a@.entries.len(),
            plain == !has_other_keys(b@.entries),
            count == shared_keys(a@.entries, b@.entries, i as int),
            count <= i,
        decreases a@.entries.len() - i,
    {
        match find_partner(b, a.key_at(i), plain) {
            Some(_) => {
                count = count + 1;
            },
            None => {},
        }
        i = i + 1;
    }
    count
}

/// Whether two objects share so few of their keys that they are reported as a
/// whole.
pub fn is_below_threshold_to_diff_deeper(a: &Object, b: &Object) -> (result: bool)
    ensures
        result == low_overlap(a@.entries, b@.entries),
{
    let shared: usize = shared_key_count(a, b, !has_non_str_keys(b));
    let either: u128 = a.len() as u128 + b.len() as u128 - shared as u128;
    either > 1 && 100 * (shared as u128) < THRESHOLD_TO_DIFF_DEEPER * either
}

} // verus!
