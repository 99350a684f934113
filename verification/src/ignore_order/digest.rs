//! A hash of values that agrees with their equality.

use vstd::prelude::*;

use super::fxhash::FxHasher;
use super::keys::push_text_words;
use super::members::push_children;
use crate::float::fold_signed_zero;
use crate::scalar_key::{mix_float_bits, word_of_int};
use crate::value::{Number, Object, ObjectKey, Value};

#[allow(unused_imports)]
use super::fxhash::{fx_words, lemma_hash_continues, words_of_text};
#[allow(unused_imports)]
use super::hash::number_item;
#[allow(unused_imports)]
use super::keys::item_words;
#[allow(unused_imports)]
use super::members::borrowed;
#[allow(unused_imports)]
use crate::diff::equality::{
    lemma_same_values, same_entries, same_key, same_value, same_values,
};
#[allow(unused_imports)]
use crate::scalar_key::{bool_word, int_word};
#[allow(unused_imports)]
use crate::value::{KeyVal, Val};
#[allow(unused_imports)]
use crate::walk::{
    children, entry_values, key_weight, lemma_total_add, lemma_total_push, total, total_entries,
    weight,
};

verus! {

// ---------------------------------------------------------------------
// What is hashed
// ---------------------------------------------------------------------

/// The words of a text: how long it is, and its characters.
pub open spec fn text_words(text: Seq<char>) -> Seq<u64> {
    seq![text.len() as u64] + words_of_text(text)
}

/// The words of the keys that are texts, in order.
pub open spec fn key_text_words(entries: Seq<(KeyVal, Val)>) -> Seq<u64>
    decreases entries.len(),
{
    if entries.len() == 0 {
        seq![]
    } else {
        let before: Seq<u64> = key_text_words(entries.drop_last());
        match entries.last().0 {
            KeyVal::Str(text) => before + text_words(text),
            KeyVal::Other(_) => before,
        }
    }
}

/// The keys that are not texts, in order.
pub open spec fn other_keys(entries: Seq<(KeyVal, Val)>) -> Seq<Val>
    decreases entries.len(),
{
    if entries.len() == 0 {
        seq![]
    } else {
        let before: Seq<Val> = other_keys(entries.drop_last());
        match entries.last().0 {
            KeyVal::Str(_) => before,
            KeyVal::Other(value) => before.push(*value),
        }
    }
}

/// The words of a value, but for the values inside it.
pub open spec fn own_words(value: Val) -> Seq<u64> {
    match value {
        Val::Null => seq![0u64],
        Val::Bool(b) => seq![1u64, bool_word(b)],
        Val::Number(n) => item_words(number_item(n)),
        Val::Str(s) => seq![4u64] + text_words(s),
        Val::DateTime(d) => seq![5u64, int_word(d.spec_instant())],
        Val::Date(d) => seq![6u64, int_word(d.spec_ordinal())],
        Val::Time(t) => seq![
            7u64,
            bool_word(t.spec_utc_offset_seconds().is_some()),
            int_word(t.spec_sort_instant()),
        ],
        Val::TimeDelta(d) => seq![
            8u64,
            int_word(d.spec_whole_seconds() as int),
            int_word(d.spec_subsecond_microseconds() as int),
        ],
        Val::Array(items) => seq![9u64, items.len() as u64],
        Val::Tuple(items) => seq![10u64, items.len() as u64],
        Val::MutableSet(items) => seq![11u64, items.len() as u64],
        Val::FrozenSet(items) => seq![12u64, items.len() as u64],
        Val::Object(object) => seq![13u64, object.entries.len() as u64] + key_text_words(
            object.entries,
        ),
    }
}

/// The values inside a value, in the order in which they are laid on the stack:
/// of an object the keys that are not texts, then the values.
pub open spec fn inside(value: Val) -> Seq<Val> {
    match value {
        Val::Object(object) => other_keys(object.entries) + children(value),
        _ => children(value),
    }
}

/// What is inside the entries has no more nodes than they have.
proof fn lemma_entries_total(entries: Seq<(KeyVal, Val)>)
    ensures
        total(other_keys(entries)) + total(entry_values(entries)) <= total_entries(entries),
    decreases entries.len(),
{
    if entries.len() > 0 {
        let init: Seq<(KeyVal, Val)> = entries.drop_last();
        lemma_entries_total(init);
        assert(entry_values(entries) =~= entry_values(init).push(entries.last().1));
        lemma_total_push(entry_values(init), entries.last().1);
        let key: KeyVal = entries.last().0;
        match key {
            KeyVal::Str(_) => {
                assert(other_keys(entries) == other_keys(init));
            },
            KeyVal::Other(value) => {
                assert(other_keys(entries) == other_keys(init).push(*value));
                lemma_total_push(other_keys(init), *value);
                assert(key_weight(key) == weight(*value));
            },
        }
    } else {
        assert(entry_values(entries) =~= seq![]);
    }
}

/// What is inside a value has fewer nodes than the value.
proof fn lemma_inside_total(value: Val)
    ensures
        total(inside(value)) < weight(value),
{
    match value {
        Val::Object(object) => {
            lemma_entries_total(object.entries);
            lemma_total_add(other_keys(object.entries), entry_values(object.entries));
        },
        _ => {},
    }
}

/// A step of the walk leaves fewer nodes on the stack.
pub proof fn lemma_step_total(stack: Seq<Val>)
    requires
        stack.len() > 0,
    ensures
        total(stack.drop_last() + inside(stack.last())) < total(stack),
{
    lemma_inside_total(stack.last());
    lemma_total_add(stack.drop_last(), inside(stack.last()));
}

/// The words of the values on a stack and of all that is inside them: the
/// topmost value first, its own words before what is inside it.
pub open spec fn stack_words(stack: Seq<Val>) -> Seq<u64>
    decreases total(stack),
{
    if stack.len() == 0 {
        seq![]
    } else {
        proof {
            lemma_step_total(stack);
        }
        own_words(stack.last()) + stack_words(stack.drop_last() + inside(stack.last()))
    }
}

/// The words that a value is hashed from.
pub open spec fn value_words(value: Val) -> Seq<u64> {
    stack_words(seq![value])
}

// ---------------------------------------------------------------------
// Agreement with equality
// ---------------------------------------------------------------------

/// Equal entries have the same texts, and equal values inside.
proof fn lemma_same_entries_inside(a: Seq<(KeyVal, Val)>, b: Seq<(KeyVal, Val)>)
    requires
        same_entries(a, b),
    ensures
        key_text_words(a) == key_text_words(b),
        same_values(other_keys(a), other_keys(b)),
        same_values(entry_values(a), entry_values(b)),
    decreases a.len(),
{
    if a.len() > 0 {
        lemma_same_entries_inside(a.drop_last(), b.drop_last());
        assert(entry_values(a).drop_last() =~= entry_values(a.drop_last()));
        assert(entry_values(b).drop_last() =~= entry_values(b.drop_last()));
        let k: KeyVal = a.last().0;
        let l: KeyVal = b.last().0;
        assert(same_key(k, l));
        match (k, l) {
            (KeyVal::Str(x), KeyVal::Str(y)) => {
                assert(other_keys(a) == other_keys(a.drop_last()));
                assert(other_keys(b) == other_keys(b.drop_last()));
            },
            (KeyVal::Other(x), KeyVal::Other(y)) => {
                assert(key_text_words(a) == key_text_words(a.drop_last()));
                assert(key_text_words(b) == key_text_words(b.drop_last()));
                assert(other_keys(a) == other_keys(a.drop_last()).push(*x));
                assert(other_keys(b) == other_keys(b.drop_last()).push(*y));
                assert(other_keys(a).drop_last() =~= other_keys(a.drop_last()));
                assert(other_keys(b).drop_last() =~= other_keys(b.drop_last()));
            },
            _ => {},
        }
    }
}

/// Equal values have the same words of their own, and equal values inside.
proof fn lemma_same_inside(a: Val, b: Val)
    requires
        same_value(a, b),
    ensures
        own_words(a) == own_words(b),
        same_values(inside(a), inside(b)),
{
    match (a, b) {
        (Val::Object(x), Val::Object(y)) => {
            lemma_same_entries_inside(x.entries, y.entries);
            lemma_same_values_add(
                other_keys(x.entries),
                other_keys(y.entries),
                entry_values(x.entries),
                entry_values(y.entries),
            );
        },
        _ => {},
    }
}

proof fn lemma_same_values_add(a: Seq<Val>, b: Seq<Val>, c: Seq<Val>, d: Seq<Val>)
    requires
        same_values(a, b),
        same_values(c, d),
    ensures
        same_values(a + c, b + d),
{
    lemma_same_values(a, b);
    lemma_same_values(c, d);
    lemma_same_values(a + c, b + d);
}

proof fn lemma_same_stack(a: Seq<Val>, b: Seq<Val>)
    requires
        same_values(a, b),
    ensures
        stack_words(a) == stack_words(b),
    decreases total(a),
{
    if a.len() > 0 {
        lemma_same_inside(a.last(), b.last());
        lemma_same_values_add(a.drop_last(), b.drop_last(), inside(a.last()), inside(b.last()));
        lemma_step_total(a);
        lemma_same_stack(a.drop_last() + inside(a.last()), b.drop_last() + inside(b.last()));
    }
}

/// Equal values are hashed from the same words, so they have one hash.
pub proof fn lemma_equal_hash(a: Val, b: Val)
    requires
        same_value(a, b),
    ensures
        value_words(a) == value_words(b),
{
    lemma_same_values(seq![a], seq![b]);
    lemma_same_stack(seq![a], seq![b]);
}

// ---------------------------------------------------------------------
// Hashing
// ---------------------------------------------------------------------

fn push_sized_text(words: &mut Vec<u64>, text: &str)
    ensures
        final(words)@ == old(words)@ + text_words(text@),
{
    let ghost before: Seq<u64> = words@;
    let count: usize = crate::text::chars_of(text).len();
    words.push(count as u64);
    push_text_words(words, text);
    proof {
        assert(words@ =~= before + text_words(text@));
    }
}

fn push_key_texts(words: &mut Vec<u64>, object: &Object)
    ensures
        final(words)@ == old(words)@ + key_text_words(object@.entries),
{
    let ghost before: Seq<u64> = words@;
    let ghost entries: Seq<(KeyVal, Val)> = object@.entries;
    let mut i: usize = 0;
    proof {
        assert(entries.take(0) =~= seq![]);
        assert(before + key_text_words(entries.take(0)) =~= before);
    }
    while i < object.len()
        invariant
            entries == object@.entries,
            i <= entries.len(),
            words@ == before + key_text_words(entries.take(i as int)),
        decreases entries.len() - i,
    {
        proof {
            assert(entries.take(i as int + 1).drop_last() =~= entries.take(i as int));
            assert(entries.take(i as int + 1).last() == entries[i as int]);
        }
        if let ObjectKey::Str(text) = object.key_at(i) {
            push_sized_text(words, text.as_str());
        }
        proof {
            assert(words@ =~= before + key_text_words(entries.take(i as int + 1)));
        }
        i = i + 1;
    }
    proof {
        assert(entries.take(i as int) =~= entries);
    }
}

/// The words of a value, but for the values inside it.
fn words_alone(value: &Value) -> (words: Vec<u64>)
    ensures
        words@ == own_words(value@),
{
    let mut words: Vec<u64> = Vec::new();
    match value {
        Value::Null => {
            words.push(0);
        },
        Value::Bool(b) => {
            words.push(1);
            words.push(
                if *b {
                    1
                } else {
                    0
                },
            );
        },
        Value::Number(n) => match n {
            Number::Float(f) => {
                words.push(3);
                words.push(mix_float_bits(fold_signed_zero(f.bits)));
            },
            Number::Int(i) => {
                words.push(2);
                words.push(word_of_int(*i as i128));
            },
            Number::Uint(i) => {
                words.push(2);
                words.push(word_of_int(*i as i128));
            },
        },
        Value::Str(s) => {
            words.push(4);
            push_sized_text(&mut words, s.as_str());
        },
        Value::DateTime(d) => {
            words.push(5);
            words.push(word_of_int(d.instant() as i128));
        },
        Value::Date(d) => {
            words.push(6);
            words.push(word_of_int(d.ordinal() as i128));
        },
        Value::Time(t) => {
            words.push(7);
            words.push(
                if t.utc_offset_seconds().is_some() {
                    1
                } else {
                    0
                },
            );
            words.push(word_of_int(t.sort_instant() as i128));
        },
        Value::TimeDelta(d) => {
            words.push(8);
            words.push(word_of_int(d.whole_seconds() as i128));
            words.push(word_of_int(d.microseconds() as i128));
        },
        Value::Array(items) => {
            words.push(9);
            words.push(items.len() as u64);
        },
        Value::Tuple(items) => {
            words.push(10);
            words.push(items.len() as u64);
        },
        Value::MutableSet(items) => {
            words.push(11);
            words.push(items.len() as u64);
        },
        Value::FrozenSet(items) => {
            words.push(12);
            words.push(items.len() as u64);
        },
        Value::Object(object) => {
            words.push(13);
            words.push(object.len() as u64);
            push_key_texts(&mut words, object);
        },
    }
    proof {
        assert(words@ =~= own_words(value@));
    }
    words
}

fn lay_keys<'a>(stack: &mut Vec<&'a Value>, object: &'a Object)
    ensures
        borrowed(final(stack)@) == borrowed(old(stack)@) + other_keys(object@.entries),
{
    let ghost before: Seq<Val> = borrowed(stack@);
    let ghost entries: Seq<(KeyVal, Val)> = object@.entries;
    let mut i: usize = 0;
    proof {
        assert(entries.take(0) =~= seq![]);
        assert(before + other_keys(entries.take(0)) =~= before);
    }
    while i < object.len()
        invariant
            entries == object@.entries,
            i <= entries.len(),
            borrowed(stack@) == before + other_keys(entries.take(i as int)),
        decreases entries.len() - i,
    {
        proof {
            assert(entries.take(i as int + 1).drop_last() =~= entries.take(i as int));
            assert(entries.take(i as int + 1).last() == entries[i as int]);
        }
        if let ObjectKey::Other(value) = object.key_at(i) {
            let ghost laid: Seq<Val> = borrowed(stack@);
            let key: &'a Value = &**value;
            stack.push(key);
            proof {
                assert(borrowed(stack@) =~= laid.push(key@));
            }
        }
        proof {
            assert(borrowed(stack@) =~= before + other_keys(entries.take(i as int + 1)));
        }
        i = i + 1;
    }
    proof {
        assert(entries.take(i as int) =~= entries);
    }
}

/// Lays what is inside a value on the stack.
fn lay_inside<'a>(stack: &mut Vec<&'a Value>, value: &'a Value)
    ensures
        borrowed(final(stack)@) == borrowed(old(stack)@) + inside(value@),
{
    let ghost before: Seq<Val> = borrowed(stack@);
    if let Value::Object(object) = value {
        lay_keys(stack, object);
    }
    push_children(stack, value);
    proof {
        assert(borrowed(stack@) =~= before + inside(value@));
    }
}

/// Mixes a value in, so that equal values give one hash.
///
/// Walks with a stack of its own, so no nesting overflows the thread's.
pub fn hash_value(root: &Value, state: &mut FxHasher)
    ensures
        final(state).hash == fx_words(old(state).hash, value_words(root@)),
{
    let ghost start: u64 = state.hash;
    let ghost mut done: Seq<u64> = seq![];
    let mut stack: Vec<&Value> = Vec::new();
    stack.push(root);
    proof {
        assert(borrowed(stack@) =~= seq![root@]);
        assert(done + value_words(root@) =~= value_words(root@));
    }
    while stack.len() > 0
        invariant
            state.hash == fx_words(start, done),
            done + stack_words(borrowed(stack@)) == value_words(root@),
        decreases total(borrowed(stack@)),
    {
        let ghost before: Seq<Val> = borrowed(stack@);
        if let Some(value) = stack.pop() {
            proof {
                assert(borrowed(stack@) =~= before.drop_last());
                assert(value@ == before.last());
                lemma_step_total(before);
            }
            let words: Vec<u64> = words_alone(value);
            state.write_words(&words);
            lay_inside(&mut stack, value);
            proof {
                lemma_hash_continues(start, done, words@);
                assert(done + (words@ + stack_words(borrowed(stack@))) =~= (done + words@)
                    + stack_words(borrowed(stack@)));
                done = done + words@;
            }
        }
    }
    proof {
        assert(done + stack_words(borrowed(stack@)) =~= done);
    }
}

/// The hash of a value.
pub open spec fn value_digest(value: Val) -> u64 {
    fx_words(0, value_words(value))
}

/// The hash of a value.
pub fn digest_of(value: &Value) -> (digest: u64)
    ensures
        digest == value_digest(value@),
{
    let mut hasher: FxHasher = FxHasher { hash: 0 };
    hash_value(value, &mut hasher);
    hasher.finish()
}

} // verus!
