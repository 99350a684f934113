//! Values that are compared as a whole, and the checks on how deep a
//! comparison goes.

use vstd::prelude::*;

use super::depth::{deeper_than, map_deeper_than};
use super::equality::numbers_equal;
use crate::datetime::DateTime;
use crate::error::Error;
use crate::path::{duplicate_segments, render_path, PathSegment};
use crate::report::{Report, TypeChangeEntry, ValuesChangedEntry};
use crate::unified_diff::str_diff_field;
use crate::value::{Number, Object, ObjectKind, Value};

#[allow(unused_imports)]
use super::depth::height;
#[allow(unused_imports)]
use super::equality::same_number;
#[allow(unused_imports)]
use crate::error::Failure;
#[allow(unused_imports)]
use crate::path::{path_text, segs, Seg};
#[allow(unused_imports)]
use crate::report::{
    nothing, with_type_change, with_value_change, Findings, TypeChange, ValueChange,
};
#[allow(unused_imports)]
use crate::unified_diff::unified_values;
#[allow(unused_imports)]
use crate::value::Val;

verus! {

// ---------------------------------------------------------------------
// Outcomes
// ---------------------------------------------------------------------

/// What a comparison gives: what it found, or why it failed.
pub type Outcome = Result<Findings, Failure>;

/// The model of what a comparison gives.
pub open spec fn outcome(result: Result<Report, Error>) -> Outcome {
    match result {
        Ok(report) => Ok(report@),
        Err(error) => Err(error@),
    }
}

/// The failure at a path where a comparison would go too deep.
pub open spec fn too_deep(path: Seq<Seg>, max_depth: int) -> Failure {
    Failure::MaxDepthExceeded { path: path_text(path), max_depth }
}

/// How deep a value at a depth may nest.
pub open spec fn room(depth: int, max_depth: int) -> int {
    if depth > max_depth {
        0
    } else {
        max_depth - depth
    }
}

/// Whether a value at a depth nests too deep.
pub open spec fn oversized(value: Val, depth: int, max_depth: int) -> bool {
    height(value) > room(depth, max_depth)
}

/// The model of a check.
pub open spec fn check_outcome(result: Result<(), Error>) -> Option<Failure> {
    match result {
        Ok(_) => None,
        Err(error) => Some(error@),
    }
}

/// The failure of a check, if it fails.
pub open spec fn failing(fails: bool, path: Seq<Seg>, max_depth: int) -> Option<Failure> {
    if fails {
        Some(too_deep(path, max_depth))
    } else {
        None
    }
}

/// How deep a value at a depth may nest.
fn room_at(depth: u128, max_depth: usize) -> (limit: usize)
    ensures
        limit == room(depth as int, max_depth as int),
{
    if depth > max_depth as u128 {
        0
    } else {
        max_depth - depth as usize
    }
}

fn depth_error(path: &Vec<PathSegment>, max_depth: usize) -> (error: Error)
    ensures
        error@ == too_deep(segs(path@), max_depth as int),
{
    Error::MaxDepthExceeded { path: render_path(path.as_slice()), max_depth }
}

/// Fails where a value at a depth nests too deep.
///
/// Depths are counted in a wider type than the limit, for the depth behind the
/// last one has to be counted too.
pub fn check_value_depth(
    path: &Vec<PathSegment>,
    value: &Value,
    depth: u128,
    max_depth: usize,
) -> (result: Result<(), Error>)
    ensures
        check_outcome(result) == failing(
            oversized(value@, depth as int, max_depth as int),
            segs(path@),
            max_depth as int,
        ),
{
    if deeper_than(value, room_at(depth, max_depth)) {
        return Err(depth_error(path, max_depth));
    }
    Ok(())
}

/// Fails where an object at a depth nests too deep.
pub fn check_map_depth(
    path: &Vec<PathSegment>,
    map: &Object,
    depth: u128,
    max_depth: usize,
) -> (result: Result<(), Error>)
    ensures
        check_outcome(result) == failing(
            oversized(Val::Object(map@), depth as int, max_depth as int),
            segs(path@),
            max_depth as int,
        ),
{
    if map_deeper_than(map, room_at(depth, max_depth)) {
        return Err(depth_error(path, max_depth));
    }
    Ok(())
}

/// Fails where a depth is beyond the limit.
pub fn check_traversal_depth(path: &Vec<PathSegment>, depth: u128, max_depth: usize) -> (result:
    Result<(), Error>)
    ensures
        check_outcome(result) == failing(depth > max_depth, segs(path@), max_depth as int),
{
    if depth > max_depth as u128 {
        return Err(depth_error(path, max_depth));
    }
    Ok(())
}

// ---------------------------------------------------------------------
// Types
// ---------------------------------------------------------------------

/// The name of the Python type of a value.
pub open spec fn type_text(value: Val) -> Seq<char> {
    match value {
        Val::Null => "NoneType"@,
        Val::Bool(_) => "bool"@,
        Val::Number(n) => if n.is_float() {
            "float"@
        } else {
            "int"@
        },
        Val::Str(_) => "str"@,
        Val::DateTime(_) => "datetime"@,
        Val::Date(_) => "date"@,
        Val::Time(_) => "time"@,
        Val::TimeDelta(_) => "timedelta"@,
        Val::Array(_) => "list"@,
        Val::Tuple(_) => "tuple"@,
        Val::MutableSet(_) => "set"@,
        Val::FrozenSet(_) => "frozenset"@,
        Val::Object(object) => if object.kind == ObjectKind::Dict && object.class_name.len() == 0 {
            "dict"@
        } else {
            object.class_name
        },
    }
}

/// Whether two values are of one class: of one type, and objects of one class by
/// name.
pub open spec fn same_class(a: Val, b: Val) -> bool {
    match (a, b) {
        (Val::Object(x), Val::Object(y)) => (x.kind == ObjectKind::Dict) == (y.kind
            == ObjectKind::Dict) && x.class_name == y.class_name,
        (Val::Null, Val::Null) => true,
        (Val::Bool(_), Val::Bool(_)) => true,
        (Val::Number(x), Val::Number(y)) => x.is_float() == y.is_float(),
        (Val::Str(_), Val::Str(_)) => true,
        (Val::DateTime(_), Val::DateTime(_)) => true,
        (Val::Date(_), Val::Date(_)) => true,
        (Val::Time(_), Val::Time(_)) => true,
        (Val::TimeDelta(_), Val::TimeDelta(_)) => true,
        (Val::Array(_), Val::Array(_)) => true,
        (Val::Tuple(_), Val::Tuple(_)) => true,
        (Val::MutableSet(_), Val::MutableSet(_)) => true,
        (Val::FrozenSet(_), Val::FrozenSet(_)) => true,
        _ => false,
    }
}

fn text(s: &str) -> (result: String)
    ensures
        result@ == s@,
{
    String::from_str(s)
}

/// The name of the Python type of a value.
pub fn python_type_name(value: &Value) -> (name: String)
    ensures
        name@ == type_text(value@),
{
    match value {
        Value::Null => text("NoneType"),
        Value::Bool(_) => text("bool"),
        Value::Number(n) => if n.is_f64() {
            text("float")
        } else {
            text("int")
        },
        Value::Str(_) => text("str"),
        Value::DateTime(_) => text("datetime"),
        Value::Date(_) => text("date"),
        Value::Time(_) => text("time"),
        Value::TimeDelta(_) => text("timedelta"),
        Value::Array(_) => text("list"),
        Value::Tuple(_) => text("tuple"),
        Value::MutableSet(_) => text("set"),
        Value::FrozenSet(_) => text("frozenset"),
        Value::Object(object) => match object.kind() {
            ObjectKind::Dict => if object.class_name().as_str().unicode_len() == 0 {
                text("dict")
            } else {
                object.class_name().clone()
            },
            _ => object.class_name().clone(),
        },
    }
}

/// Whether two values are of one class.
pub fn of_same_class(a: &Value, b: &Value) -> (result: bool)
    ensures
        result == same_class(a@, b@),
{
    match (a, b) {
        (Value::Object(x), Value::Object(y)) => match (x.kind(), y.kind()) {
            (ObjectKind::Dict, ObjectKind::Dict) => x.class_name().eq(y.class_name()),
            (ObjectKind::Dict, _) | (_, ObjectKind::Dict) => false,
            _ => x.class_name().eq(y.class_name()),
        },
        (Value::Number(x), Value::Number(y)) => x.is_f64() == y.is_f64(),
        (Value::Null, Value::Null)
        | (Value::Bool(_), Value::Bool(_))
        | (Value::Str(_), Value::Str(_))
        | (Value::DateTime(_), Value::DateTime(_))
        | (Value::Date(_), Value::Date(_))
        | (Value::Time(_), Value::Time(_))
        | (Value::TimeDelta(_), Value::TimeDelta(_))
        | (Value::Array(_), Value::Array(_))
        | (Value::Tuple(_), Value::Tuple(_))
        | (Value::MutableSet(_), Value::MutableSet(_))
        | (Value::FrozenSet(_), Value::FrozenSet(_)) => true,
        _ => false,
    }
}

// ---------------------------------------------------------------------
// Changes of whole values
// ---------------------------------------------------------------------

/// The change of a value's type.
pub open spec fn type_change(a: Val, b: Val, new_path: Option<Seq<Seg>>) -> TypeChange {
    TypeChange {
        old_type: type_text(a),
        new_type: type_text(b),
        old_value: a,
        new_value: b,
        new_path,
    }
}

/// The change of a value.
pub open spec fn value_change(a: Val, b: Val, new_path: Option<Seq<Seg>>) -> ValueChange {
    ValueChange { old_value: a, new_value: b, new_path, diff: unified_values(a, b) }
}

/// Two values of different types.
pub open spec fn type_change_outcome(path: Seq<Seg>, a: Val, b: Val, depth: int, max_depth: int) -> Outcome {
    if oversized(a, depth, max_depth) || oversized(b, depth, max_depth) {
        Err(too_deep(path, max_depth))
    } else {
        Ok(with_type_change(nothing(), path, type_change(a, b, None)))
    }
}

/// Two values of one type that are compared as a whole.
pub open spec fn scalar_outcome(
    path: Seq<Seg>,
    equal: bool,
    a: Val,
    b: Val,
    depth: int,
    max_depth: int,
) -> Outcome {
    if equal {
        Ok(nothing())
    } else if oversized(a, depth, max_depth) || oversized(b, depth, max_depth) {
        Err(too_deep(path, max_depth))
    } else {
        Ok(with_value_change(nothing(), path, value_change(a, b, None)))
    }
}

/// Two datetimes: compared and reported in their UTC form.
pub open spec fn datetime_outcome(
    path: Seq<Seg>,
    old: DateTime,
    new: DateTime,
    depth: int,
    max_depth: int,
) -> Outcome {
    match (old.spec_to_utc(), new.spec_to_utc()) {
        (Some(x), Some(y)) => scalar_outcome(
            path,
            x == y,
            Val::DateTime(x),
            Val::DateTime(y),
            depth,
            max_depth,
        ),
        _ => Err(Failure::DateTimeOutOfRange { path: path_text(path) }),
    }
}

/// Two numbers: an `int` and a `float` are of different types.
pub open spec fn numeric_outcome(path: Seq<Seg>, old: Number, new: Number, depth: int, max_depth: int) -> Outcome {
    if old.is_float() != new.is_float() {
        type_change_outcome(path, Val::Number(old), Val::Number(new), depth, max_depth)
    } else {
        scalar_outcome(
            path,
            same_number(old, new),
            Val::Number(old),
            Val::Number(new),
            depth,
            max_depth,
        )
    }
}

/// Compares two values of different types.
pub fn type_change_report(
    path: &Vec<PathSegment>,
    a: &Value,
    b: &Value,
    depth: u128,
    max_depth: usize,
) -> (result: Result<Report, Error>)
    ensures
        outcome(result) == type_change_outcome(
            segs(path@),
            a@,
            b@,
            depth as int,
            max_depth as int,
        ),
{
    if let Err(error) = check_value_depth(path, a, depth, max_depth) {
        return Err(error);
    }
    if let Err(error) = check_value_depth(path, b, depth, max_depth) {
        return Err(error);
    }
    let mut report: Report = Report::new();
    let entry: TypeChangeEntry = TypeChangeEntry {
        old_type: python_type_name(a),
        new_type: python_type_name(b),
        old_value: a.duplicate(),
        new_value: b.duplicate(),
        new_path: None,
    };
    proof {
        assert(entry@ == type_change(a@, b@, None));
    }
    report.insert_type_change(duplicate_segments(path), entry);
    Ok(report)
}

/// Compares two values of one type as a whole.
pub fn scalar_diff(
    path: &Vec<PathSegment>,
    equal: bool,
    a: &Value,
    b: &Value,
    depth: u128,
    max_depth: usize,
) -> (result: Result<Report, Error>)
    ensures
        outcome(result) == scalar_outcome(
            segs(path@),
            equal,
            a@,
            b@,
            depth as int,
            max_depth as int,
        ),
{
    if equal {
        return Ok(Report::new());
    }
    if let Err(error) = check_value_depth(path, a, depth, max_depth) {
        return Err(error);
    }
    if let Err(error) = check_value_depth(path, b, depth, max_depth) {
        return Err(error);
    }
    let mut report: Report = Report::new();
    let entry: ValuesChangedEntry = ValuesChangedEntry {
        old_value: a.duplicate(),
        new_value: b.duplicate(),
        new_path: None,
        diff: str_diff_field(a, b),
    };
    proof {
        assert(entry@ == value_change(a@, b@, None));
    }
    report.insert_values_changed(duplicate_segments(path), entry);
    Ok(report)
}

/// Two datetimes in their UTC form; the failure at the path where one has none.
pub fn normalized_pair(path: &Vec<PathSegment>, old: DateTime, new: DateTime) -> (result: Result<
    (DateTime, DateTime),
    Error,
>)
    ensures
        match (old.spec_to_utc(), new.spec_to_utc()) {
            (Some(x), Some(y)) => result == Ok::<(DateTime, DateTime), Error>((x, y)),
            _ => result matches Err(error) && error@ == (Failure::DateTimeOutOfRange {
                path: path_text(segs(path@)),
            }),
        },
{
    match (old.to_utc(), new.to_utc()) {
        (Some(x), Some(y)) => Ok((x, y)),
        _ => Err(Error::DateTimeOutOfRange { path: render_path(path.as_slice()) }),
    }
}

/// Compares two datetimes.
pub fn datetime_diff(
    path: &Vec<PathSegment>,
    old: DateTime,
    new: DateTime,
    depth: u128,
    max_depth: usize,
) -> (result: Result<Report, Error>)
    ensures
        outcome(result) == datetime_outcome(
            segs(path@),
            old,
            new,
            depth as int,
            max_depth as int,
        ),
{
    match normalized_pair(path, old, new) {
        Ok((x, y)) => scalar_diff(
            path,
            x == y,
            &Value::DateTime(x),
            &Value::DateTime(y),
            depth,
            max_depth,
        ),
        Err(error) => Err(error),
    }
}

/// Compares two numbers.
pub fn numeric_diff(
    path: &Vec<PathSegment>,
    old: &Number,
    new: &Number,
    depth: u128,
    max_depth: usize,
) -> (result: Result<Report, Error>)
    ensures
        outcome(result) == numeric_outcome(
            segs(path@),
            *old,
            *new,
            depth as int,
            max_depth as int,
        ),
{
    let a: Value = Value::Number(*old);
    let b: Value = Value::Number(*new);
    if old.is_f64() != new.is_f64() {
        return type_change_report(path, &a, &b, depth, max_depth);
    }
    scalar_diff(path, numbers_equal(old, new), &a, &b, depth, max_depth)
}

} // verus!
