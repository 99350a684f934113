//! Comparing two values of any types.

use vstd::prelude::*;

use super::array::array_diff;
use super::object::object_diff;
use super::options::DiffOptions;
use super::scalar::{
    check_traversal_depth, datetime_diff, numeric_diff, of_same_class, scalar_diff,
    type_change_report,
};
use super::set::set_diff;
use crate::datetime::times_equal;
use crate::error::Error;
use crate::ignore_order::memo::IgnoreOrderMemo;
use crate::path::PathSegment;
use crate::report::Report;
use crate::value::{Object, ObjectKind, Value};

#[allow(unused_imports)]
use super::model::{
    budget, diff_of, ends, failure_token, lemma_list_pivot, lemma_resolve_nearer, links, pivot,
    resolved, skips, token,
};
#[allow(unused_imports)]
use super::options::rules;
#[allow(unused_imports)]
use super::scalar::outcome;
#[allow(unused_imports)]
use crate::path::segs;
#[allow(unused_imports)]
use crate::walk::weight;

verus! {

/// Whether a value is a token.
fn is_token(value: &Value) -> (result: bool)
    ensures
        result == token(value@),
{
    match value {
        Value::Object(object) => match object.kind() {
            ObjectKind::Opaque | ObjectKind::Cycle => true,
            _ => false,
        },
        _ => false,
    }
}

/// Whether a pair reports nothing without a walk: the two are one object, though
/// not a dict, or the first points back at what encloses it.
pub fn pair_skips(a: &Value, b: &Value) -> (result: bool)
    ensures
        result == skips(a@, b@),
{
    match a {
        Value::Object(x) => {
            if let ObjectKind::Cycle = x.kind() {
                return true;
            }
            match b {
                Value::Object(y) => match (x.kind(), y.kind()) {
                    (ObjectKind::Dict, ObjectKind::Dict) => false,
                    _ => x.identity().as_str().unicode_len() > 0 && x.identity().eq(y.identity()),
                },
                _ => false,
            }
        },
        _ => false,
    }
}

/// The value that is compared with `other` in place of a token on one side, if the
/// tokens that stand for one another come to an end; a cycle token stands for what it
/// points back at against a value of its class, or against any.
pub fn resolve<'r>(
    first: bool,
    value: &Value,
    other: &Value,
    any_other: bool,
    memo: &IgnoreOrderMemo<'r>,
) -> (found: Option<&'r Value>)
    requires
        memo.well_formed(),
    ensures
        (match found {
            Some(v) => Some(v@),
            None => None,
        }) == resolved(memo.table(), first, value@, other@, any_other),
{
    if !is_token(value) {
        return None;
    }
    match value {
        Value::Object(object) => match memo.standing_for(first, object.identity()) {
            Some(found) => match object.kind() {
                ObjectKind::Cycle => if any_other || of_same_class(found, other) {
                    Some(found)
                } else {
                    None
                },
                _ => Some(found),
            },
            None => None,
        },
        _ => None,
    }
}

/// What is reported of an object whose conversion failed.
pub fn failed_or_whole(object: &Object) -> (value: Value)
    ensures
        value@ == failure_token(object@),
{
    match object.kind() {
        ObjectKind::Failed => {
            let token: Object = Object::new(
                ObjectKind::Opaque,
                object.class_name().clone(),
                object.identity().clone(),
                Vec::new(),
            );
            proof {
                assert(token@.entries =~= seq![]);
            }
            Value::Object(token)
        },
        _ => Value::Object(object.duplicate()),
    }
}

/// Whether an object's conversion failed.
pub fn is_failed(object: &Object) -> (result: bool)
    ensures
        result == (object@.kind == ObjectKind::Failed),
{
    match object.kind() {
        ObjectKind::Failed => true,
        _ => false,
    }
}

/// Compares two values at a path and a depth. Tokens are compared as what stands
/// for them, or as they are where that would not come to an end.
pub fn diff_at<'r>(
    path: &mut Vec<PathSegment>,
    a: &Value,
    b: &Value,
    depth: u128,
    opts: &DiffOptions,
    memo: &mut IgnoreOrderMemo<'r>,
) -> (result: Result<Report, Error>)
    requires
        old(memo).well_formed(),
    ensures
        final(memo).well_formed(),
        final(memo).table() == old(memo).table(),
        final(path)@ == old(path)@,
        (final(memo)@, outcome(result)) == diff_of(
            old(memo)@,
            segs(old(path)@),
            a@,
            b@,
            depth as int,
            rules(*opts, old(memo).table()),
        ),
    decreases
            budget(depth as int, opts.max_depth as int),
            links(rules(*opts, old(memo).table()), a@, b@),
            weight(pivot(rules(*opts, old(memo).table()), a@, b@)),
            9int,
            ends(rules(*opts, old(memo).table()), a@, b@),
            1int,
{
    if let Err(error) = check_traversal_depth(path, depth, opts.max_depth) {
        return Err(error);
    }
    let max_depth: usize = opts.max_depth;
    match (a, b) {
        (Value::Null, Value::Null) => Ok(Report::new()),
        (Value::Bool(old), Value::Bool(new)) => scalar_diff(
            path,
            *old == *new,
            a,
            b,
            depth,
            max_depth,
        ),
        (Value::Number(old), Value::Number(new)) => numeric_diff(path, old, new, depth, max_depth),
        (Value::Str(old), Value::Str(new)) => scalar_diff(
            path,
            old.eq(new),
            a,
            b,
            depth,
            max_depth,
        ),
        (Value::DateTime(old), Value::DateTime(new)) => datetime_diff(
            path,
            *old,
            *new,
            depth,
            max_depth,
        ),
        (Value::Date(old), Value::Date(new)) => scalar_diff(
            path,
            *old == *new,
            a,
            b,
            depth,
            max_depth,
        ),
        (Value::Time(old), Value::Time(new)) => scalar_diff(
            path,
            times_equal(*old, *new),
            a,
            b,
            depth,
            max_depth,
        ),
        (Value::TimeDelta(old), Value::TimeDelta(new)) => scalar_diff(
            path,
            *old == *new,
            a,
            b,
            depth,
            max_depth,
        ),
        (Value::Array(old), Value::Array(new)) => {
            proof {
                lemma_list_pivot(rules(*opts, memo.table()), a@, b@);
            }
            array_diff(path, old, new, depth, opts, memo)
        },
        (Value::Tuple(old), Value::Tuple(new)) => {
            proof {
                lemma_list_pivot(rules(*opts, memo.table()), a@, b@);
            }
            array_diff(path, old, new, depth, opts, memo)
        },
        (Value::MutableSet(old), Value::MutableSet(new)) => set_diff(
            path,
            old,
            new,
            depth,
            opts,
            memo,
        ),
        (Value::FrozenSet(old), Value::FrozenSet(new)) => set_diff(
            path,
            old,
            new,
            depth,
            opts,
            memo,
        ),
        (Value::Object(_), _) | (_, Value::Object(_)) => object_pair_diff(
            path,
            a,
            b,
            depth,
            opts,
            memo,
        ),
        _ => type_change_report(path, a, b, depth, max_depth),
    }
}

/// Compares two values of which one at least is an object.
fn object_pair_diff<'r>(
    path: &mut Vec<PathSegment>,
    a: &Value,
    b: &Value,
    depth: u128,
    opts: &DiffOptions,
    memo: &mut IgnoreOrderMemo<'r>,
) -> (result: Result<Report, Error>)
    requires
        old(memo).well_formed(),
        depth <= opts.max_depth,
        a@ is Object || b@ is Object,
    ensures
        final(memo).well_formed(),
        final(memo).table() == old(memo).table(),
        final(path)@ == old(path)@,
        (final(memo)@, outcome(result)) == diff_of(
            old(memo)@,
            segs(old(path)@),
            a@,
            b@,
            depth as int,
            rules(*opts, old(memo).table()),
        ),
    decreases
            budget(depth as int, opts.max_depth as int),
            links(rules(*opts, old(memo).table()), a@, b@),
            weight(pivot(rules(*opts, old(memo).table()), a@, b@)),
            9int,
            ends(rules(*opts, old(memo).table()), a@, b@),
            0int,
{
    if pair_skips(a, b) {
        return Ok(Report::new());
    }
    let first: Option<&'r Value> = resolve(true, a, b, false, memo);
    let x: &Value = match first {
        Some(value) => value,
        None => a,
    };
    let second: Option<&'r Value> = resolve(false, b, x, false, memo);
    let y: &Value = match second {
        Some(value) => value,
        None => b,
    };
    if (first.is_some() || second.is_some()) && (memo.value_ends(true, opts.ignore_order, a)
        || memo.value_ends(false, opts.ignore_order, b)) {
        proof {
            lemma_resolve_nearer(rules(*opts, memo.table()), a@, b@);
        }
        return diff_at(path, x, y, depth, opts, memo);
    }
    match (a, b) {
        (Value::Object(old), Value::Object(new)) => if !of_same_class(a, b) {
            type_change_report(path, a, b, depth, opts.max_depth)
        } else if is_failed(old) || is_failed(new) {
            scalar_diff(
                path,
                false,
                &failed_or_whole(old),
                &failed_or_whole(new),
                depth,
                opts.max_depth,
            )
        } else {
            object_diff(path, old, new, depth, opts, memo)
        },
        _ => type_change_report(path, a, b, depth, opts.max_depth),
    }
}

} // verus!
