//! Whether the constructor of a new value's type makes the new value from the
//! old one: what decides how much a change of type counts.

use vstd::prelude::*;

use super::length::item_length;
use crate::count::capped_sum;
use crate::float::{floats_equal, is_finite, is_zero};
use crate::float_math::{cut_float, from_integer};
use crate::numeric_text::{parse_integer, text_names_float};
use crate::python_eq::{lists_eq, mutually_equal};
use crate::repr::plain_float_text;
use crate::text::{push_decimal, push_signed};
use crate::value::{Number, Value};

#[allow(unused_imports)]
use super::length::leaves;
#[allow(unused_imports)]
use crate::count::capped;
#[allow(unused_imports)]
use crate::float::{finite, float_equal, zero};
#[allow(unused_imports)]
use crate::float_math::{float_cut, float_of_int};
#[allow(unused_imports)]
use crate::numeric_text::{int_of_text, names_float, trimmed};
#[allow(unused_imports)]
use crate::python_eq::{all_covered, all_have, equal_lists};
#[allow(unused_imports)]
use crate::repr::plain_float;
#[allow(unused_imports)]
use crate::text::signed_decimal;
#[allow(unused_imports)]
use crate::value::{views, Val};

verus! {

/// Python's `bool` of a value.
pub open spec fn truthy(value: Val) -> bool {
    match value {
        Val::Null => false,
        Val::Bool(b) => b,
        Val::Number(Number::Float(f)) => !zero(f.bits),
        Val::Number(n) => n.integer() != 0,
        Val::Str(s) => s.len() > 0,
        Val::DateTime(_) => true,
        Val::Date(_) => true,
        Val::Time(_) => true,
        Val::TimeDelta(d) => d.spec_total_micros() != 0,
        Val::Array(items) => items.len() > 0,
        Val::Tuple(items) => items.len() > 0,
        Val::MutableSet(items) => items.len() > 0,
        Val::FrozenSet(items) => items.len() > 0,
        Val::Object(object) => object.entries.len() > 0,
    }
}

/// Whether `float` makes a finite float from a value.
pub open spec fn makes_float(value: Val, bits: u64) -> bool {
    match value {
        Val::Bool(b) => float_equal(
            float_of_int(
                if b {
                    1
                } else {
                    0
                },
            ),
            bits,
        ),
        Val::Number(Number::Float(f)) => finite(f.bits) && float_equal(f.bits, bits),
        Val::Number(n) => float_equal(float_of_int(n.integer()), bits),
        Val::Str(s) => names_float(s, bits),
        _ => false,
    }
}

/// The integer of 64 bits that `int` makes from a value.
pub open spec fn made_int(value: Val) -> Option<int> {
    match value {
        Val::Bool(b) => Some(
            if b {
                1
            } else {
                0
            },
        ),
        Val::Number(Number::Float(f)) => float_cut(f.bits),
        Val::Number(n) => if n.integer() <= i64::MAX {
            Some(n.integer())
        } else {
            None
        },
        Val::Str(s) => int_of_text(trimmed(s)),
        _ => None,
    }
}

/// The text that `str` makes from a value; none for a container.
pub open spec fn made_text(value: Val) -> Option<Seq<char>> {
    match value {
        Val::Null => Some("None"@),
        Val::Bool(b) => Some(
            if b {
                "True"@
            } else {
                "False"@
            },
        ),
        Val::Number(Number::Float(f)) => Some(plain_float(f)),
        Val::Number(n) => Some(signed_decimal(n.integer())),
        Val::Str(s) => Some(s),
        Val::DateTime(d) => Some(d.spec_rendered(' ')),
        Val::Date(d) => Some(d.spec_isoformat()),
        Val::Time(t) => Some(t.spec_isoformat()),
        Val::TimeDelta(d) => Some(d.spec_python_str()),
        _ => None,
    }
}

/// Whether a list or tuple with the given parts is made from a value: one with
/// equal parts, or a set with equal members.
pub open spec fn makes_list(value: Val, parts: Seq<Val>) -> bool {
    match value {
        Val::Array(items) => equal_lists(items, parts, 0),
        Val::Tuple(items) => equal_lists(items, parts, 0),
        Val::MutableSet(items) => items.len() == parts.len() && all_have(items, parts, 0)
            && all_covered(items, parts, 0),
        Val::FrozenSet(items) => items.len() == parts.len() && all_have(items, parts, 0)
            && all_covered(items, parts, 0),
        _ => false,
    }
}

/// Whether a set with the given members is made from a value.
pub open spec fn makes_set(value: Val, members: Seq<Val>) -> bool {
    match value {
        Val::Array(items) => all_have(items, members, 0) && all_covered(items, members, 0),
        Val::Tuple(items) => all_have(items, members, 0) && all_covered(items, members, 0),
        Val::MutableSet(items) => all_have(items, members, 0) && all_covered(items, members, 0),
        Val::FrozenSet(items) => all_have(items, members, 0) && all_covered(items, members, 0),
        _ => false,
    }
}

/// Whether the constructor of the new value's type makes the new value from the
/// old one.
pub open spec fn reproduced(old_value: Val, new_value: Val) -> bool {
    match new_value {
        Val::Bool(b) => truthy(old_value) == b,
        Val::Number(Number::Float(f)) => makes_float(old_value, f.bits),
        Val::Number(n) => made_int(old_value) == Some(n.integer()),
        Val::Str(s) => made_text(old_value) == Some(s),
        Val::Array(items) => makes_list(old_value, items),
        Val::Tuple(items) => makes_list(old_value, items),
        Val::MutableSet(items) => makes_set(old_value, items),
        Val::FrozenSet(items) => makes_set(old_value, items),
        _ => false,
    }
}

/// How many leaves a change of type counts: one, and those of the new value
/// unless its constructor makes it from the old one.
pub open spec fn type_change_leaves(old_value: Val, new_value: Val) -> nat {
    if reproduced(old_value, new_value) {
        1
    } else {
        1 + leaves(new_value)
    }
}

/// Python's `bool` of a value.
pub fn is_truthy(value: &Value) -> (result: bool)
    ensures
        result == truthy(value@),
{
    match value {
        Value::Null => false,
        Value::Bool(b) => *b,
        Value::Number(Number::Float(f)) => !is_zero(f.bits),
        Value::Number(Number::Int(n)) => *n != 0,
        Value::Number(Number::Uint(n)) => *n != 0,
        Value::Str(s) => crate::text::chars_of(s.as_str()).len() > 0,
        Value::DateTime(_) => true,
        Value::Date(_) => true,
        Value::Time(_) => true,
        Value::TimeDelta(d) => d.whole_seconds() != 0 || d.microseconds() != 0,
        Value::Array(items) => items.len() > 0,
        Value::Tuple(items) => items.len() > 0,
        Value::MutableSet(items) => !items.is_empty(),
        Value::FrozenSet(items) => !items.is_empty(),
        Value::Object(object) => !object.is_empty(),
    }
}

fn coerces_to_float(value: &Value, bits: u64) -> (result: bool)
    ensures
        result == makes_float(value@, bits),
{
    match value {
        Value::Bool(b) => floats_equal(
            from_integer(
                if *b {
                    1
                } else {
                    0
                },
            ),
            bits,
        ),
        Value::Number(Number::Float(f)) => is_finite(f.bits) && floats_equal(f.bits, bits),
        Value::Number(Number::Int(n)) => floats_equal(from_integer(*n as i128), bits),
        Value::Number(Number::Uint(n)) => floats_equal(from_integer(*n as i128), bits),
        Value::Str(s) => text_names_float(s.as_str(), bits),
        _ => false,
    }
}

fn coerce_to_i64(value: &Value) -> (result: Option<i64>)
    ensures
        match result {
            Some(n) => made_int(value@) == Some(n as int),
            None => made_int(value@) is None,
        },
{
    match value {
        Value::Bool(b) => Some(
            if *b {
                1
            } else {
                0
            },
        ),
        Value::Number(Number::Float(f)) => cut_float(f.bits),
        Value::Number(Number::Int(n)) => Some(*n),
        Value::Number(Number::Uint(n)) => if *n <= 0x7fff_ffff_ffff_ffff {
            Some(*n as i64)
        } else {
            None
        },
        Value::Str(s) => parse_integer(s.as_str()),
        _ => None,
    }
}

/// A text of its own from a text.
fn owned(text: &str) -> (result: String)
    ensures
        result@ == text@,
{
    let mut out: String = String::new();
    out.append(text);
    proof {
        assert(out@ =~= text@);
    }
    out
}

fn coerce_to_python_str(value: &Value) -> (result: Option<String>)
    ensures
        crate::unified_diff::text_of(result) == made_text(value@),
{
    match value {
        Value::Null => Some(owned("None")),
        Value::Bool(b) => Some(
            owned(
                if *b {
                    "True"
                } else {
                    "False"
                },
            ),
        ),
        Value::Number(Number::Float(f)) => Some(plain_float_text(*f)),
        Value::Number(Number::Int(n)) => {
            let mut out: String = String::new();
            push_signed(&mut out, *n);
            proof {
                assert(out@ =~= signed_decimal(*n as int));
            }
            Some(out)
        },
        Value::Number(Number::Uint(n)) => {
            let mut out: String = String::new();
            push_decimal(&mut out, *n);
            proof {
                assert(out@ =~= signed_decimal(*n as int));
            }
            Some(out)
        },
        Value::Str(s) => Some(s.clone()),
        Value::DateTime(d) => Some(d.python_str()),
        Value::Date(d) => Some(d.python_str()),
        Value::Time(t) => Some(t.python_str()),
        Value::TimeDelta(d) => Some(d.python_str()),
        _ => None,
    }
}

fn coerces_to_list(value: &Value, parts: &Vec<Value>) -> (result: bool)
    ensures
        result == makes_list(value@, views(parts@)),
{
    match value {
        Value::Array(items) => lists_eq(items, parts),
        Value::Tuple(items) => lists_eq(items, parts),
        Value::MutableSet(items) => items.len() == parts.len() && mutually_equal(
            &items.to_vec(),
            parts,
        ),
        Value::FrozenSet(items) => items.len() == parts.len() && mutually_equal(
            &items.to_vec(),
            parts,
        ),
        _ => false,
    }
}

fn coerces_to_set(value: &Value, members: &Vec<Value>) -> (result: bool)
    ensures
        result == makes_set(value@, views(members@)),
{
    match value {
        Value::Array(items) => mutually_equal(items, members),
        Value::Tuple(items) => mutually_equal(items, members),
        Value::MutableSet(items) => mutually_equal(&items.to_vec(), members),
        Value::FrozenSet(items) => mutually_equal(&items.to_vec(), members),
        _ => false,
    }
}

/// Whether the constructor of the new value's type makes the new value from the
/// old one.
pub fn reproduces(old_value: &Value, new_value: &Value) -> (result: bool)
    ensures
        result == reproduced(old_value@, new_value@),
{
    match new_value {
        Value::Bool(b) => is_truthy(old_value) == *b,
        Value::Number(Number::Float(f)) => coerces_to_float(old_value, f.bits),
        Value::Number(n) => match (coerce_to_i64(old_value), n.as_i128()) {
            (Some(made), Some(wanted)) => made as i128 == wanted,
            _ => false,
        },
        Value::Str(s) => match coerce_to_python_str(old_value) {
            Some(made) => made.eq(s),
            None => false,
        },
        Value::Array(items) => coerces_to_list(old_value, items),
        Value::Tuple(items) => coerces_to_list(old_value, items),
        Value::MutableSet(items) => coerces_to_set(old_value, &items.to_vec()),
        Value::FrozenSet(items) => coerces_to_set(old_value, &items.to_vec()),
        _ => false,
    }
}

/// How many leaves a change of type counts.
pub fn type_change_leaf_length(old_value: &Value, new_value: &Value) -> (count: usize)
    ensures
        count == capped(type_change_leaves(old_value@, new_value@)),
{
    if reproduces(old_value, new_value) {
        1
    } else {
        capped_sum(1, item_length(new_value))
    }
}

} // verus!
