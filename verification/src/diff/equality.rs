//! Deep equality of values.

use vstd::prelude::*;

use crate::datetime::times_equal;
use crate::float::floats_equal;
use crate::value::{Number, ObjectKey, Value};

#[allow(unused_imports)]
use crate::datetime::same_time;
#[allow(unused_imports)]
use crate::float::float_equal;
#[allow(unused_imports)]
use crate::value::{views, KeyVal, ObjectVal, Val};
#[allow(unused_imports)]
use crate::walk::{key_weight, lemma_total_push, total, total_entries};

verus! {

/// Equality of numbers: an `int` never equals a `float`; two of the former are
/// equal by value, two of the latter by the IEEE rule.
pub open spec fn same_number(a: Number, b: Number) -> bool {
    match (a, b) {
        (Number::Float(x), Number::Float(y)) => float_equal(x.bits, y.bits),
        (Number::Float(_), _) => false,
        (_, Number::Float(_)) => false,
        _ => a.integer() == b.integer(),
    }
}

/// Equality of values: of one type and equal within it, datetimes by instant
/// and times by Python's rule; lists, tuples and sets position by position;
/// objects of one kind and class entry by entry.
pub open spec fn same_value(a: Val, b: Val) -> bool
    decreases a,
{
    match (a, b) {
        (Val::Null, Val::Null) => true,
        (Val::Bool(x), Val::Bool(y)) => x == y,
        (Val::Number(x), Val::Number(y)) => same_number(x, y),
        (Val::Str(x), Val::Str(y)) => x == y,
        (Val::DateTime(x), Val::DateTime(y)) => x.spec_instant() == y.spec_instant(),
        (Val::Date(x), Val::Date(y)) => x == y,
        (Val::Time(x), Val::Time(y)) => same_time(x, y),
        (Val::TimeDelta(x), Val::TimeDelta(y)) => x == y,
        (Val::Array(x), Val::Array(y)) => same_values(x, y),
        (Val::Tuple(x), Val::Tuple(y)) => same_values(x, y),
        (Val::MutableSet(x), Val::MutableSet(y)) => same_values(x, y),
        (Val::FrozenSet(x), Val::FrozenSet(y)) => same_values(x, y),
        (Val::Object(x), Val::Object(y)) => same_object(x, y),
        _ => false,
    }
}

/// Equality of lists, position by position.
pub open spec fn same_values(a: Seq<Val>, b: Seq<Val>) -> bool
    decreases a,
{
    a.len() == b.len() && (a.len() > 0 ==> same_values(a.drop_last(), b.drop_last()) && same_value(
        a.last(),
        b.last(),
    ))
}

/// Equality of objects.
pub open spec fn same_object(a: ObjectVal, b: ObjectVal) -> bool
    decreases a,
{
    a.kind == b.kind && a.class_name == b.class_name && a.identity == b.identity && same_entries(
        a.entries,
        b.entries,
    )
}

/// Equality of entries, position by position.
pub open spec fn same_entries(a: Seq<(KeyVal, Val)>, b: Seq<(KeyVal, Val)>) -> bool
    decreases a,
{
    a.len() == b.len() && (a.len() > 0 ==> same_entries(a.drop_last(), b.drop_last()) && same_key(
        a.last().0,
        b.last().0,
    ) && same_value(a.last().1, b.last().1))
}

/// Equality of keys.
pub open spec fn same_key(a: KeyVal, b: KeyVal) -> bool
    decreases a,
{
    match (a, b) {
        (KeyVal::Str(x), KeyVal::Str(y)) => x == y,
        (KeyVal::Other(x), KeyVal::Other(y)) => same_value(*x, *y),
        _ => false,
    }
}

/// A stack of pairs still to compare.
pub open spec fn all_same(stack: Seq<(&Value, &Value)>) -> bool {
    forall|i: int| 0 <= i < stack.len() ==> same_value((#[trigger] stack[i]).0@, stack[i].1@)
}

/// The models of the first values of the pairs.
pub open spec fn firsts(stack: Seq<(&Value, &Value)>) -> Seq<Val> {
    Seq::new(stack.len(), |i: int| stack[i].0@)
}

proof fn lemma_all_same_push(rest: Seq<(&Value, &Value)>, pair: (&Value, &Value))
    ensures
        all_same(rest.push(pair)) <==> all_same(rest) && same_value(pair.0@, pair.1@),
{
    let stack: Seq<(&Value, &Value)> = rest.push(pair);
    if all_same(stack) {
        assert forall|i: int| 0 <= i < rest.len() implies same_value(
            (#[trigger] rest[i]).0@,
            rest[i].1@,
        ) by {
            assert(same_value(stack[i].0@, stack[i].1@));
        }
        assert(same_value(stack[rest.len() as int].0@, stack[rest.len() as int].1@));
    }
}

/// Whether two numbers are equal.
pub fn numbers_equal(old: &Number, new: &Number) -> (result: bool)
    ensures
        result == same_number(*old, *new),
{
    match (old, new) {
        (Number::Float(x), Number::Float(y)) => floats_equal(x.bits, y.bits),
        _ => match (old.as_i128(), new.as_i128()) {
            (Some(x), Some(y)) => x == y,
            _ => false,
        },
    }
}

/// Whether two values are equal.
///
/// Walks with a stack of its own, so no nesting overflows the thread's.
pub fn values_equal(a: &Value, b: &Value) -> (result: bool)
    ensures
        result == same_value(a@, b@),
{
    let mut stack: Vec<(&Value, &Value)> = Vec::new();
    stack.push((a, b));
    proof {
        lemma_all_same_push(seq![], (a, b));
        assert(stack@ =~= Seq::<(&Value, &Value)>::empty().push((a, b)));
    }
    while stack.len() > 0
        invariant
            all_same(stack@) <==> same_value(a@, b@),
        decreases total(firsts(stack@)),
    {
        let ghost before: Seq<(&Value, &Value)> = stack@;
        if let Some((x, y)) = stack.pop() {
            let ghost rest: Seq<(&Value, &Value)> = stack@;
            proof {
                assert(before =~= rest.push((x, y)));
                lemma_all_same_push(rest, (x, y));
                assert(firsts(before) =~= firsts(rest).push(x@));
                lemma_total_push(firsts(rest), x@);
            }
            let decided: Option<bool> = match (x, y) {
                (Value::Null, Value::Null) => Some(true),
                (Value::Bool(p), Value::Bool(q)) => Some(*p == *q),
                (Value::Number(p), Value::Number(q)) => Some(numbers_equal(p, q)),
                (Value::Str(p), Value::Str(q)) => Some(p.eq(q)),
                (Value::DateTime(p), Value::DateTime(q)) => Some(p.instant() == q.instant()),
                (Value::Date(p), Value::Date(q)) => Some(*p == *q),
                (Value::Time(p), Value::Time(q)) => Some(times_equal(*p, *q)),
                (Value::TimeDelta(p), Value::TimeDelta(q)) => Some(*p == *q),
                (Value::Array(p), Value::Array(q)) => push_lists(&mut stack, p, q),
                (Value::Tuple(p), Value::Tuple(q)) => push_lists(&mut stack, p, q),
                (Value::MutableSet(p), Value::MutableSet(q)) => push_sets(&mut stack, p, q),
                (Value::FrozenSet(p), Value::FrozenSet(q)) => push_sets(&mut stack, p, q),
                (Value::Object(p), Value::Object(q)) => push_objects(&mut stack, p, q),
                _ => Some(false),
            };
            if decided == Some(false) {
                return false;
            }
        }
    }
    true
}

/// Pushes the pairs of two lists; decides at once where their lengths differ.
fn push_lists<'a>(
    stack: &mut Vec<(&'a Value, &'a Value)>,
    a: &'a Vec<Value>,
    b: &'a Vec<Value>,
) -> (decided: Option<bool>)
    ensures
        decided is Some ==> decided == Some(false) && !same_values(views(a@), views(b@)),
        decided is None ==> (all_same(final(stack)@) <==> all_same(old(stack)@) && same_values(
            views(a@),
            views(b@),
        )),
        decided is None ==> total(firsts(final(stack)@)) == total(firsts(old(stack)@)) + total(
            views(a@),
        ),
{
    if a.len() != b.len() {
        return Some(false);
    }
    let mut i: usize = 0;
    proof {
        assert(views(a@).take(0) =~= seq![]);
        assert(views(b@).take(0) =~= seq![]);
    }
    while i < a.len()
        invariant
            i <= a.len(),
            a.len() == b.len(),
            all_same(stack@) <==> all_same(old(stack)@) && same_values(
                views(a@).take(i as int),
                views(b@).take(i as int),
            ),
            total(firsts(stack@)) == total(firsts(old(stack)@)) + total(views(a@).take(i as int)),
        decreases a.len() - i,
    {
        let ghost before: Seq<(&'a Value, &'a Value)> = stack@;
        stack.push((&a[i], &b[i]));
        proof {
            let x: Seq<Val> = views(a@).take(i as int + 1);
            let y: Seq<Val> = views(b@).take(i as int + 1);
            assert(x.drop_last() =~= views(a@).take(i as int));
            assert(y.drop_last() =~= views(b@).take(i as int));
            lemma_all_same_push(before, (&a@[i as int], &b@[i as int]));
            assert(firsts(stack@) =~= firsts(before).push(a@[i as int]@));
            lemma_total_push(firsts(before), a@[i as int]@);
        }
        i = i + 1;
    }
    proof {
        assert(views(a@).take(i as int) =~= views(a@));
        assert(views(b@).take(i as int) =~= views(b@));
    }
    None
}

/// Pushes the pairs of two sets; decides at once where their sizes differ.
fn push_sets<'a>(
    stack: &mut Vec<(&'a Value, &'a Value)>,
    a: &'a crate::value::SetItems,
    b: &'a crate::value::SetItems,
) -> (decided: Option<bool>)
    ensures
        decided is Some ==> decided == Some(false) && !same_values(a@, b@),
        decided is None ==> (all_same(final(stack)@) <==> all_same(old(stack)@) && same_values(
            a@,
            b@,
        )),
        decided is None ==> total(firsts(final(stack)@)) == total(firsts(old(stack)@)) + total(a@),
{
    if a.len() != b.len() {
        return Some(false);
    }
    let mut i: usize = 0;
    proof {
        assert(a@.take(0) =~= seq![]);
        assert(b@.take(0) =~= seq![]);
    }
    while i < a.len()
        invariant
            i <= a@.len(),
            a@.len() == b@.len(),
            all_same(stack@) <==> all_same(old(stack)@) && same_values(
                a@.take(i as int),
                b@.take(i as int),
            ),
            total(firsts(stack@)) == total(firsts(old(stack)@)) + total(a@.take(i as int)),
        decreases a@.len() - i,
    {
        let ghost before: Seq<(&'a Value, &'a Value)> = stack@;
        let x: &'a Value = a.get(i);
        let y: &'a Value = b.get(i);
        stack.push((x, y));
        proof {
            let p: Seq<Val> = a@.take(i as int + 1);
            let q: Seq<Val> = b@.take(i as int + 1);
            assert(p.drop_last() =~= a@.take(i as int));
            assert(q.drop_last() =~= b@.take(i as int));
            lemma_all_same_push(before, (x, y));
            assert(firsts(stack@) =~= firsts(before).push(x@));
            lemma_total_push(firsts(before), x@);
        }
        i = i + 1;
    }
    proof {
        assert(a@.take(i as int) =~= a@);
        assert(b@.take(i as int) =~= b@);
    }
    None
}

/// Pushes the pairs of two objects; decides at once where something else than
/// what they hold differs.
fn push_objects<'a>(
    stack: &mut Vec<(&'a Value, &'a Value)>,
    a: &'a crate::value::Object,
    b: &'a crate::value::Object,
) -> (decided: Option<bool>)
    ensures
        decided is Some ==> decided == Some(false) && !same_object(a@, b@),
        decided is None ==> (all_same(final(stack)@) <==> all_same(old(stack)@) && same_object(
            a@,
            b@,
        )),
        decided is None ==> total(firsts(final(stack)@)) <= total(firsts(old(stack)@))
            + total_entries(a@.entries),
{
    if a.kind() != b.kind() || !a.class_name().eq(b.class_name()) || !a.identity().eq(b.identity())
        || a.len() != b.len() {
        return Some(false);
    }
    let mut i: usize = 0;
    let ghost p: Seq<(KeyVal, Val)> = a@.entries;
    let ghost q: Seq<(KeyVal, Val)> = b@.entries;
    proof {
        assert(p.take(0) =~= seq![]);
        assert(q.take(0) =~= seq![]);
    }
    while i < a.len()
        invariant
            p == a@.entries,
            q == b@.entries,
            i <= p.len(),
            p.len() == q.len(),
            all_same(stack@) <==> all_same(old(stack)@) && same_entries(
                p.take(i as int),
                q.take(i as int),
            ),
            total(firsts(stack@)) <= total(firsts(old(stack)@)) + total_entries(p.take(i as int)),
        decreases p.len() - i,
    {
        let ghost before: Seq<(&'a Value, &'a Value)> = stack@;
        proof {
            assert(p.take(i as int + 1).drop_last() =~= p.take(i as int));
            assert(q.take(i as int + 1).drop_last() =~= q.take(i as int));
        }
        match (a.key_at(i), b.key_at(i)) {
            (ObjectKey::Str(x), ObjectKey::Str(y)) => {
                if !x.eq(y) {
                    proof {
                        lemma_entries_differ(p, q, i as int);
                    }
                    return Some(false);
                }
            },
            (ObjectKey::Other(x), ObjectKey::Other(y)) => {
                let left: &'a Value = &**x;
                let right: &'a Value = &**y;
                stack.push((left, right));
                proof {
                    lemma_all_same_push(before, (left, right));
                    assert(firsts(stack@) =~= firsts(before).push(left@));
                    lemma_total_push(firsts(before), left@);
                }
            },
            _ => {
                proof {
                    lemma_entries_differ(p, q, i as int);
                }
                return Some(false);
            },
        }
        let ghost with_key: Seq<(&'a Value, &'a Value)> = stack@;
        proof {
            assert(p.take(i as int + 1).last() == p[i as int]);
            assert(q.take(i as int + 1).last() == q[i as int]);
            assert(all_same(with_key) <==> all_same(before) && same_key(
                p[i as int].0,
                q[i as int].0,
            ));
            assert(total(firsts(with_key)) == total(firsts(before)) + key_weight(p[i as int].0));
        }
        let x: &'a Value = a.value_at(i);
        let y: &'a Value = b.value_at(i);
        stack.push((x, y));
        proof {
            lemma_all_same_push(with_key, (x, y));
            assert(firsts(stack@) =~= firsts(with_key).push(x@));
            lemma_total_push(firsts(with_key), x@);
        }
        i = i + 1;
    }
    proof {
        assert(p.take(i as int) =~= p);
        assert(q.take(i as int) =~= q);
    }
    None
}

/// Entries whose keys differ somewhere are not equal.
proof fn lemma_entries_differ(p: Seq<(KeyVal, Val)>, q: Seq<(KeyVal, Val)>, i: int)
    requires
        0 <= i < p.len(),
        p.len() == q.len(),
        !same_key(p[i].0, q[i].0),
    ensures
        !same_entries(p, q),
    decreases p.len(),
{
    if i < p.len() - 1 {
        lemma_entries_differ(p.drop_last(), q.drop_last(), i);
    }
}

/// Equality of lists, by position.
pub proof fn lemma_same_values(a: Seq<Val>, b: Seq<Val>)
    ensures
        same_values(a, b) <==> a.len() == b.len() && (forall|i: int|
            0 <= i < a.len() ==> same_value(#[trigger] a[i], b[i])),
    decreases a.len(),
{
    if a.len() == b.len() && a.len() > 0 {
        lemma_same_values(a.drop_last(), b.drop_last());
        if same_values(a, b) {
            assert forall|i: int| 0 <= i < a.len() implies same_value(#[trigger] a[i], b[i]) by {
                if i < a.len() - 1 {
                    assert(same_value(a.drop_last()[i], b.drop_last()[i]));
                }
            }
        }
        if forall|i: int| 0 <= i < a.len() ==> same_value(#[trigger] a[i], b[i]) {
            assert forall|i: int| 0 <= i < a.drop_last().len() implies same_value(
                #[trigger] a.drop_last()[i],
                b.drop_last()[i],
            ) by {
                assert(same_value(a[i], b[i]));
            }
            assert(same_value(a[a.len() - 1], b[b.len() - 1]));
        }
    }
}

impl PartialEq for Value {
    fn eq(&self, other: &Self) -> (result: bool) {
        values_equal(self, other)
    }
}

impl vstd::std_specs::cmp::PartialEqSpecImpl for Value {
    open spec fn obeys_eq_spec() -> bool {
        true
    }

    open spec fn eq_spec(&self, other: &Self) -> bool {
        same_value(self@, other@)
    }
}

} // verus!
