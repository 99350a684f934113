//! Distances of numbers, and of what is measured as a number.

use vstd::prelude::*;

use crate::datetime::MILLION;
use crate::float::{floats_equal, is_nan};
use crate::float_math::{add_floats, divide_floats, from_integer, subtract_floats};
use crate::value::{Number, Value};

#[allow(unused_imports)]
use crate::float::{float_equal, nan, negative, zero, SIGN};
#[allow(unused_imports)]
use crate::float_math::{absolute, float_difference, float_of_int, float_quotient, float_sum};
#[allow(unused_imports)]
use crate::value::Val;

verus! {

/// The float that a number or truth value is.
pub open spec fn as_float(value: Val) -> Option<u64> {
    match value {
        Val::Bool(b) => Some(
            float_of_int(
                if b {
                    1
                } else {
                    0
                },
            ),
        ),
        Val::Number(n) => Some(
            match n {
                Number::Float(f) => f.bits,
                _ => float_of_int(n.integer()),
            },
        ),
        _ => None,
    }
}

/// The day that a date or a datetime is on.
pub open spec fn day(value: Val) -> Option<int> {
    match value {
        Val::Date(d) => Some(d.spec_ordinal()),
        Val::DateTime(d) => Some(d.spec_date().spec_ordinal()),
        _ => None,
    }
}

/// The numbers by which two values are measured; none where their distance is
/// that of their structure.
///
/// Datetimes are measured in seconds, dates in days, a date and a datetime in
/// days, times of day in whole seconds, spans of time in seconds.
pub open spec fn measures(a: Val, b: Val) -> Option<(u64, u64)> {
    match (as_float(a), as_float(b)) {
        (Some(x), Some(y)) => Some((x, y)),
        _ => match (a, b) {
            (Val::DateTime(x), Val::DateTime(y)) => Some(
                (
                    float_quotient(float_of_int(x.spec_instant()), MILLION),
                    float_quotient(float_of_int(y.spec_instant()), MILLION),
                ),
            ),
            (Val::Time(x), Val::Time(y)) => Some(
                (
                    float_of_int(x.spec_hash_seconds_of_day()),
                    float_of_int(y.spec_hash_seconds_of_day()),
                ),
            ),
            (Val::TimeDelta(x), Val::TimeDelta(y)) => Some(
                (
                    x.spec_total_seconds(),
                    y.spec_total_seconds(),
                ),
            ),
            _ => match (day(a), day(b)) {
                (Some(x), Some(y)) => Some((float_of_int(x), float_of_int(y))),
                _ => None,
            },
        },
    }
}

/// The smaller of a distance and the largest one that counts.
pub open spec fn limited(distance: u64, cutoff: u64) -> u64 {
    if nan(distance) || negative(cutoff) || cutoff <= distance {
        cutoff
    } else {
        distance
    }
}

/// The distance of two numbers: their difference relative to their sum, no more
/// than `cutoff`.
pub open spec fn number_distance(x: u64, y: u64, cutoff: u64) -> u64 {
    let divisor = float_quotient(float_sum(x, y), cutoff);
    if float_equal(x, y) {
        0
    } else if zero(divisor) {
        cutoff
    } else {
        limited(absolute(float_quotient(float_difference(x, y), divisor)), cutoff)
    }
}

/// The float that a number or truth value is.
pub fn numeric_value(value: &Value) -> (float: Option<u64>)
    ensures
        float == as_float(value@),
{
    match value {
        Value::Bool(b) => Some(
            from_integer(
                if *b {
                    1
                } else {
                    0
                },
            ),
        ),
        Value::Number(n) => Some(
            match n {
                Number::Int(i) => from_integer(*i as i128),
                Number::Uint(i) => from_integer(*i as i128),
                Number::Float(f) => f.bits,
            },
        ),
        _ => None,
    }
}

/// The day that a date or a datetime is on.
fn day_of(value: &Value) -> (ordinal: Option<i64>)
    ensures
        match ordinal {
            Some(n) => day(value@) == Some(n as int),
            None => day(value@) is None,
        },
{
    match value {
        Value::Date(d) => Some(d.ordinal()),
        Value::DateTime(d) => Some(d.date().ordinal()),
        _ => None,
    }
}

/// The numbers by which two values are measured.
pub fn distance_family(a: &Value, b: &Value) -> (pair: Option<(u64, u64)>)
    ensures
        pair == measures(a@, b@),
{
    if let (Some(x), Some(y)) = (numeric_value(a), numeric_value(b)) {
        return Some((x, y));
    }
    match (a, b) {
        (Value::DateTime(x), Value::DateTime(y)) => Some(
            (
                divide_floats(from_integer(x.instant() as i128), MILLION),
                divide_floats(from_integer(y.instant() as i128), MILLION),
            ),
        ),
        (Value::Time(x), Value::Time(y)) => Some(
            (
                from_integer(x.hash_seconds_of_day() as i128),
                from_integer(y.hash_seconds_of_day() as i128),
            ),
        ),
        (Value::TimeDelta(x), Value::TimeDelta(y)) => Some(
            (
                x.total_seconds(),
                y.total_seconds(),
            ),
        ),
        _ => match (day_of(a), day_of(b)) {
            (Some(x), Some(y)) => Some((from_integer(x as i128), from_integer(y as i128))),
            _ => None,
        },
    }
}

/// The distance of two numbers.
pub fn numeric_distance(x: u64, y: u64, cutoff: u64) -> (distance: u64)
    ensures
        distance == number_distance(x, y, cutoff),
{
    if floats_equal(x, y) {
        return 0;
    }
    let divisor: u64 = divide_floats(add_floats(x, y), cutoff);
    if divisor % SIGN == 0 {
        return cutoff;
    }
    let distance: u64 = divide_floats(subtract_floats(x, y), divisor) % SIGN;
    if is_nan(distance) || cutoff >= SIGN || cutoff <= distance {
        cutoff
    } else {
        distance
    }
}

} // verus!
