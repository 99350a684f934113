//! What is told of two values that are no longer the same.

use vstd::prelude::*;

#[allow(unused_imports)]
use super::equality::same_number;
#[allow(unused_imports)]
use super::model::{diff_of, object_step, skips, token};
#[allow(unused_imports)]
use super::options::Rules;
#[allow(unused_imports)]
use super::scalar::{same_class, type_text, Outcome};
#[allow(unused_imports)]
use super::spots::{bare, lemma_spot_nothing, lemma_spot_with, spot, Spot};
#[allow(unused_imports)]
use crate::canonical::scalar;
#[allow(unused_imports)]
use crate::datetime::same_time;
#[allow(unused_imports)]
use crate::ignore_order::memo::MemoVal;
#[allow(unused_imports)]
use crate::path::Seg;
#[allow(unused_imports)]
use crate::report::{
    nothing, with_type_change, with_value_change, Findings, TypeChange, ValueChange,
};
#[allow(unused_imports)]
use crate::unified_diff::unified;
#[allow(unused_imports)]
use crate::value::{ObjectKind, ObjectVal, Val};

verus! {

/// Whether a report holds one finding only, at a path.
pub open spec fn only(f: Findings, path: Seq<Seg>, what: Spot) -> bool {
    forall|q: Seq<Seg>| #[trigger]
        spot(f, q) == if q == path {
            what
        } else {
            bare()
        }
}

/// Whether two scalars of one type hold the same: numbers that are equal, datetimes of
/// one instant, times that Python calls equal, or one and the same scalar.
pub open spec fn same_content(a: Val, b: Val) -> bool {
    match (a, b) {
        (Val::Number(x), Val::Number(y)) => same_number(x, y),
        (Val::DateTime(x), Val::DateTime(y)) => x.spec_to_utc() == y.spec_to_utc(),
        (Val::Time(x), Val::Time(y)) => same_time(x, y),
        _ => a == b,
    }
}

/// A scalar as a change shows it: a datetime in UTC.
pub open spec fn shown(value: Val) -> Val {
    match value {
        Val::DateTime(x) => match x.spec_to_utc() {
            Some(utc) => Val::DateTime(utc),
            None => value,
        },
        _ => value,
    }
}

/// The unified diff that a change shows: that of two texts, if they have one.
pub open spec fn line_diff(a: Val, b: Val) -> Option<Seq<char>> {
    match (a, b) {
        (Val::Str(x), Val::Str(y)) => unified(x, y),
        _ => None,
    }
}

/// Two scalars of one type: nothing is found if they hold the same; else exactly one
/// change of a value, at their path, with the old value and the new one, datetimes in
/// UTC, and for texts with their unified diff.
pub proof fn lemma_scalar_change(
    m: MemoVal,
    path: Seq<Seg>,
    a: Val,
    b: Val,
    depth: int,
    opts: Rules,
    f: Findings,
)
    requires
        scalar(a),
        scalar(b),
        same_class(a, b),
        diff_of(m, path, a, b, depth, opts).1 == Outcome::Ok(f),
    ensures
        f == nothing() <==> same_content(a, b),
        !same_content(a, b) ==> only(
            f,
            path,
            Spot {
                value_change: Some(
                    ValueChange {
                        old_value: shown(a),
                        new_value: shown(b),
                        new_path: None,
                        diff: line_diff(a, b),
                    },
                ),
                ..bare()
            },
        ),
{
    lemma_spot_nothing();
    lemma_spot_with(nothing(), path);
    if !same_content(a, b) {
        let change: ValueChange = ValueChange {
            old_value: shown(a),
            new_value: shown(b),
            new_path: None,
            diff: line_diff(a, b),
        };
        assert(f == with_value_change(nothing(), path, change));
        assert(spot(f, path).value_change == Some(change));
        assert(spot(nothing(), path) == bare());
    }
}

/// Two values of different types, of which none is skipped or stands for another:
/// exactly one change of a type is found, at their path, with the types and the values.
pub proof fn lemma_type_change(
    m: MemoVal,
    path: Seq<Seg>,
    a: Val,
    b: Val,
    depth: int,
    opts: Rules,
    f: Findings,
)
    requires
        !same_class(a, b),
        !skips(a, b),
        !token(a),
        !token(b),
        diff_of(m, path, a, b, depth, opts).1 == Outcome::Ok(f),
    ensures
        only(
            f,
            path,
            Spot {
                type_change: Some(
                    TypeChange {
                        old_type: type_text(a),
                        new_type: type_text(b),
                        old_value: a,
                        new_value: b,
                        new_path: None,
                    },
                ),
                ..bare()
            },
        ),
{
    lemma_spot_nothing();
    lemma_spot_with(nothing(), path);
    let change: TypeChange = TypeChange {
        old_type: type_text(a),
        new_type: type_text(b),
        old_value: a,
        new_value: b,
        new_path: None,
    };
    if a is Object || b is Object {
        assert(object_step(opts, a, b) is TypeChange);
    }
    assert(f == with_type_change(nothing(), path, change));
}

/// Two objects of one class of which one could not be read, unless they are skipped:
/// exactly one change of a value is found, at their path, in which an object that could
/// not be read has no entries.
pub proof fn lemma_failed_change(
    m: MemoVal,
    path: Seq<Seg>,
    p: ObjectVal,
    q: ObjectVal,
    depth: int,
    opts: Rules,
    f: Findings,
)
    requires
        same_class(Val::Object(p), Val::Object(q)),
        p.kind == ObjectKind::Failed || q.kind == ObjectKind::Failed,
        !skips(Val::Object(p), Val::Object(q)),
        !token(Val::Object(p)),
        !token(Val::Object(q)),
        diff_of(m, path, Val::Object(p), Val::Object(q), depth, opts).1 == Outcome::Ok(f),
    ensures
        spot(f, path).value_change matches Some(change) && {
            &&& only(f, path, Spot { value_change: Some(change), ..bare() })
            &&& change.old_value matches Val::Object(old) && old.class_name == p.class_name
                && old.entries == (if p.kind == ObjectKind::Failed {
                seq![]
            } else {
                p.entries
            })
            &&& change.new_value matches Val::Object(new) && new.class_name == q.class_name
                && new.entries == (if q.kind == ObjectKind::Failed {
                seq![]
            } else {
                q.entries
            })
        },
{
    lemma_spot_nothing();
    lemma_spot_with(nothing(), path);
    assert(object_step(opts, Val::Object(p), Val::Object(q)) is Change);
    assert(spot(nothing(), path) == bare());
}

/// The names of types tell the types of values that are no objects apart.
pub proof fn lemma_type_names(a: Val, b: Val)
    requires
        !(a is Object),
        !(b is Object),
    ensures
        type_text(a) == type_text(b) <==> same_class(a, b),
{
    reveal_strlit("NoneType");
    reveal_strlit("bool");
    reveal_strlit("float");
    reveal_strlit("int");
    reveal_strlit("str");
    reveal_strlit("datetime");
    reveal_strlit("date");
    reveal_strlit("time");
    reveal_strlit("timedelta");
    reveal_strlit("list");
    reveal_strlit("tuple");
    reveal_strlit("set");
    reveal_strlit("frozenset");
    if type_text(a) == type_text(b) && !same_class(a, b) {
        assert(type_text(a)[0] == type_text(b)[0]);
        assert(type_text(a)[1] == type_text(b)[1]);
        assert(type_text(a).len() == type_text(b).len());
    }
}

} // verus!
