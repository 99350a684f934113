//! Which scalars are told apart.

use vstd::prelude::*;

#[allow(unused_imports)]
use super::entries::{foreign, lemma_foreign};
#[allow(unused_imports)]
use crate::canonical::scalar;
#[allow(unused_imports)]
use crate::datetime::lemma_ordinal_identifies_date;
#[allow(unused_imports)]
use crate::float::{exact_integer, nan, zero};
#[allow(unused_imports)]
use crate::ignore_order::dict_keys::{low_overlap, shared_keys};
#[allow(unused_imports)]
use crate::ignore_order::rearranged::alike;
#[allow(unused_imports)]
use crate::scalar_key::{python_scalar, share_key};
#[allow(unused_imports)]
use crate::value::{KeyVal, Number, Val};

verus! {

/// Whether two numbers are one as items of lists without order: integers of one value,
/// or floats of one pattern, the two zeros being one. An integer and a float never are.
pub open spec fn one_number(a: Number, b: Number) -> bool {
    match (a, b) {
        (Number::Float(x), Number::Float(y)) => x.bits == y.bits || (zero(x.bits) && zero(y.bits)),
        (Number::Float(_), _) => false,
        (_, Number::Float(_)) => false,
        _ => a.integer() == b.integer(),
    }
}

/// Scalars are one as items of lists without order only where their types are one: `1`,
/// `1.0` and `True` are three items, `None` is one, and texts are their characters.
/// Datetimes are one by their instant and times by their second of the day.
pub proof fn lemma_items_told_apart(a: Val, b: Val)
    requires
        scalar(a),
        scalar(b),
        a matches Val::Date(x) ==> x.valid(),
        b matches Val::Date(y) ==> y.valid(),
    ensures
        alike(a, b) <==> match (a, b) {
            (Val::Null, Val::Null) => true,
            (Val::Bool(x), Val::Bool(y)) => x == y,
            (Val::Number(x), Val::Number(y)) => one_number(x, y),
            (Val::Str(x), Val::Str(y)) => x == y,
            (Val::DateTime(x), Val::DateTime(y)) => x.spec_instant() == y.spec_instant(),
            (Val::Date(x), Val::Date(y)) => x == y,
            (Val::Time(x), Val::Time(y)) => x.spec_hash_seconds_of_day()
                == y.spec_hash_seconds_of_day(),
            (Val::TimeDelta(x), Val::TimeDelta(y)) => x == y,
            _ => false,
        },
{
    match (a, b) {
        (Val::Date(x), Val::Date(y)) => lemma_ordinal_identifies_date(x, y),
        _ => {},
    }
}

/// The integer that a value is in Python: a truth value is zero or one, and a float may
/// be an integer.
pub open spec fn python_integer(value: Val) -> Option<int> {
    match value {
        Val::Bool(b) => Some(
            if b {
                1int
            } else {
                0int
            },
        ),
        Val::Number(Number::Float(f)) => if nan(f.bits) {
            None
        } else {
            exact_integer(f.bits)
        },
        Val::Number(n) => Some(n.integer()),
        _ => None,
    }
}

/// Which scalars Python calls equal in lists that are compared in order: those that are
/// one integer, whatever their types; floats of one pattern that are no integers; and of
/// the others `None` with itself, equal texts, dates and durations, and datetimes and
/// times of one instant of which both know their offset or none does.
pub proof fn lemma_called_equal_in_python(a: Val, b: Val)
    requires
        scalar(a),
        scalar(b),
        a matches Val::Date(x) ==> x.valid(),
        b matches Val::Date(y) ==> y.valid(),
    ensures
        share_key(python_scalar(a), python_scalar(b)) <==> match (a, b) {
            (Val::Null, Val::Null) => true,
            (Val::Str(x), Val::Str(y)) => x == y,
            (Val::DateTime(x), Val::DateTime(y)) => x.spec_instant() == y.spec_instant() && (
            x.spec_utc_offset_seconds() is Some <==> y.spec_utc_offset_seconds() is Some),
            (Val::Date(x), Val::Date(y)) => x == y,
            (Val::Time(x), Val::Time(y)) => x.spec_sort_instant() == y.spec_sort_instant() && (
            x.spec_utc_offset_seconds() is Some <==> y.spec_utc_offset_seconds() is Some),
            (Val::TimeDelta(x), Val::TimeDelta(y)) => x == y,
            (Val::Number(Number::Float(x)), Val::Number(Number::Float(y))) => !nan(x.bits) && !nan(
                y.bits,
            ) && (x.bits == y.bits || (exact_integer(x.bits) is Some && exact_integer(x.bits)
                == exact_integer(y.bits))),
            _ => python_integer(a) is Some && python_integer(a) == python_integer(b),
        },
{
    match (a, b) {
        (Val::Date(x), Val::Date(y)) => lemma_ordinal_identifies_date(x, y),
        _ => {},
    }
}

/// The positions of the first entries whose keys are among those of the others.
pub open spec fn shared_positions(
    entries: Seq<(KeyVal, Val)>,
    others: Seq<(KeyVal, Val)>,
    count: int,
) -> Set<int> {
    Set::new(|i: int| 0 <= i < count && !foreign(entries[i].0, others))
}

proof fn lemma_shared_counted(
    entries: Seq<(KeyVal, Val)>,
    others: Seq<(KeyVal, Val)>,
    count: int,
)
    requires
        0 <= count <= entries.len(),
    ensures
        shared_positions(entries, others, count).finite(),
        shared_positions(entries, others, count).len() == shared_keys(entries, others, count),
    decreases count,
{
    let all: Set<int> = shared_positions(entries, others, count);
    if count == 0 {
        assert(all =~= Set::empty());
    } else {
        let less: Set<int> = shared_positions(entries, others, count - 1);
        lemma_shared_counted(entries, others, count - 1);
        lemma_foreign(others, entries[count - 1].0, 0);
        if foreign(entries[count - 1].0, others) {
            assert(all =~= less);
        } else {
            assert(all =~= less.insert(count - 1));
        }
    }
}

/// Two dicts are reported as a whole exactly if they have more than one key between them
/// and less than thirty-three of a hundred of those keys are in both.
pub proof fn lemma_few_in_common(a: Seq<(KeyVal, Val)>, b: Seq<(KeyVal, Val)>)
    ensures
        ({
            let shared = shared_positions(a, b, a.len() as int).len();
            let either = a.len() + b.len() - shared;
            low_overlap(a, b) <==> either > 1 && 100 * shared < 33 * either
        }),
{
    lemma_shared_counted(a, b, a.len() as int);
}

} // verus!
