//! How deep values nest.

use vstd::prelude::*;

use crate::value::{Object, Value};

#[allow(unused_imports)]
use crate::value::{views, KeyVal, Val};
#[allow(unused_imports)]
use crate::walk::{children, entry_values, lemma_children, lemma_total_add, lemma_total_push, total};

verus! {

/// How deep a value nests: nothing for a scalar or an empty container, else
/// one more than the deepest of what it holds.
pub open spec fn height(value: Val) -> nat
    decreases value,
{
    match value {
        Val::Array(items) => heights(items),
        Val::Tuple(items) => heights(items),
        Val::MutableSet(items) => heights(items),
        Val::FrozenSet(items) => heights(items),
        Val::Object(object) => entry_heights(object.entries),
        _ => 0,
    }
}

/// One more than the deepest of the values; nothing if there are none.
pub open spec fn heights(values: Seq<Val>) -> nat
    decreases values,
{
    if values.len() == 0 {
        0
    } else if heights(values.drop_last()) > height(values.last()) {
        heights(values.drop_last())
    } else {
        height(values.last()) + 1
    }
}

/// One more than the deepest of the values of the entries.
pub open spec fn entry_heights(entries: Seq<(KeyVal, Val)>) -> nat
    decreases entries,
{
    if entries.len() == 0 {
        0
    } else if entry_heights(entries.drop_last()) > height(entries.last().1) {
        entry_heights(entries.drop_last())
    } else {
        height(entries.last().1) + 1
    }
}

/// Whether one of the values exceeds the bound.
pub open spec fn any_deeper(values: Seq<Val>, limit: int) -> bool {
    exists|i: int| 0 <= i < values.len() && height(#[trigger] values[i]) > limit
}

/// A list is deeper than the bound where it is not empty and the bound is
/// nothing, or where one of its values is deeper than one less.
pub proof fn lemma_heights(values: Seq<Val>, limit: nat)
    ensures
        heights(values) > limit <==> any_deeper(values, limit - 1),
    decreases values.len(),
{
    if values.len() > 0 {
        let front: Seq<Val> = values.drop_last();
        lemma_heights(front, limit);
        if any_deeper(front, limit - 1) {
            let i: int = choose|i: int| 0 <= i < front.len() && height(#[trigger] front[i]) > limit - 1;
            assert(height(values[i]) > limit - 1);
        }
        if any_deeper(values, limit - 1) {
            let i: int = choose|i: int|
                0 <= i < values.len() && height(#[trigger] values[i]) > limit - 1;
            if i < front.len() {
                assert(height(front[i]) > limit - 1);
            }
        }
        if height(values.last()) > limit - 1 {
            assert(height(values[values.len() - 1]) > limit - 1);
        }
    }
}

/// The entries are as deep as their values.
pub proof fn lemma_entry_heights(entries: Seq<(KeyVal, Val)>)
    ensures
        entry_heights(entries) == heights(entry_values(entries)),
    decreases entries.len(),
{
    if entries.len() > 0 {
        lemma_entry_heights(entries.drop_last());
        assert(entry_values(entries).drop_last() =~= entry_values(entries.drop_last()));
    }
}

/// How deep a value nests, by what it holds.
pub proof fn lemma_height(value: Val, limit: nat)
    ensures
        height(value) == heights(children(value)),
        height(value) > limit <==> any_deeper(children(value), limit - 1),
{
    match value {
        Val::Object(object) => lemma_entry_heights(object.entries),
        _ => {},
    }
    lemma_heights(children(value), limit);
}

/// What a value holds nests less deep than it.
pub proof fn lemma_child_height(value: Val, i: int)
    requires
        0 <= i < children(value).len(),
    ensures
        height(children(value)[i]) < height(value),
{
    let inner: nat = height(children(value)[i]);
    lemma_height(value, inner);
    assert(height(children(value)[i]) > inner - 1);
}

/// The models of a stack of values with what each may still nest.
pub open spec fn stacked(stack: Seq<(&Value, usize)>) -> Seq<Val> {
    Seq::new(stack.len(), |i: int| stack[i].0@)
}

/// Whether one of the values exceeds its own bound.
pub open spec fn over(stack: Seq<(&Value, usize)>) -> bool {
    exists|i: int| 0 <= i < stack.len() && height((#[trigger] stack[i]).0@) > stack[i].1
}

/// Pushes what a value holds, each with the same bound.
fn push_children<'a>(stack: &mut Vec<(&'a Value, usize)>, value: &'a Value, limit: usize)
    ensures
        final(stack)@.len() == old(stack)@.len() + children(value@).len(),
        forall|i: int|
            0 <= i < old(stack)@.len() ==> #[trigger] final(stack)@[i] == old(stack)@[i],
        forall|i: int|
            old(stack)@.len() <= i < final(stack)@.len() ==> ((#[trigger] final(stack)@[i]).0@
                == children(value@)[i - old(stack)@.len()] && final(stack)@[i].1 == limit),
{
    let ghost base: Seq<(&'a Value, usize)> = stack@;
    match value {
        Value::Array(items) | Value::Tuple(items) => {
            let mut i: usize = 0;
            while i < items.len()
                invariant
                    i <= items.len(),
                    children(value@) == views(items@),
                    stack@.len() == base.len() + i,
                    forall|k: int| 0 <= k < base.len() ==> #[trigger] stack@[k] == base[k],
                    forall|k: int|
                        base.len() <= k < stack@.len() ==> ((#[trigger] stack@[k]).0@ == children(
                            value@,
                        )[k - base.len()] && stack@[k].1 == limit),
                decreases items.len() - i,
            {
                stack.push((&items[i], limit));
                i = i + 1;
            }
        },
        Value::MutableSet(items) | Value::FrozenSet(items) => {
            let mut i: usize = 0;
            while i < items.len()
                invariant
                    i <= items@.len(),
                    children(value@) == items@,
                    stack@.len() == base.len() + i,
                    forall|k: int| 0 <= k < base.len() ==> #[trigger] stack@[k] == base[k],
                    forall|k: int|
                        base.len() <= k < stack@.len() ==> ((#[trigger] stack@[k]).0@ == children(
                            value@,
                        )[k - base.len()] && stack@[k].1 == limit),
                decreases items@.len() - i,
            {
                stack.push((items.get(i), limit));
                i = i + 1;
            }
        },
        Value::Object(object) => {
            let mut i: usize = 0;
            while i < object.len()
                invariant
                    i <= object@.entries.len(),
                    children(value@) == entry_values(object@.entries),
                    stack@.len() == base.len() + i,
                    forall|k: int| 0 <= k < base.len() ==> #[trigger] stack@[k] == base[k],
                    forall|k: int|
                        base.len() <= k < stack@.len() ==> ((#[trigger] stack@[k]).0@ == children(
                            value@,
                        )[k - base.len()] && stack@[k].1 == limit),
                decreases object@.entries.len() - i,
            {
                stack.push((object.value_at(i), limit));
                i = i + 1;
            }
        },
        _ => {},
    }
}

/// Whether a value nests deeper than `limit`.
///
/// Walks with a stack of its own, so no nesting overflows the thread's.
pub fn deeper_than(value: &Value, limit: usize) -> (result: bool)
    ensures
        result == (height(value@) > limit),
{
    let mut stack: Vec<(&Value, usize)> = Vec::new();
    stack.push((value, limit));
    proof {
        assert(stack@[0].0@ == value@);
        assert(over(stack@) <==> height(value@) > limit);
    }
    while stack.len() > 0
        invariant
            over(stack@) <==> height(value@) > limit,
        decreases total(stacked(stack@)),
    {
        let ghost before: Seq<(&Value, usize)> = stack@;
        if let Some((node, remaining)) = stack.pop() {
            let ghost rest: Seq<(&Value, usize)> = stack@;
            proof {
                assert(before =~= rest.push((node, remaining)));
                assert(stacked(before) =~= stacked(rest).push(node@));
                lemma_total_push(stacked(rest), node@);
                lemma_children(node@);
                lemma_height(node@, remaining as nat);
            }
            if remaining == 0 {
                if has_children(node) {
                    proof {
                        assert(height(children(node@)[0]) > -1);
                        assert(height(before[before.len() - 1].0@) > before[before.len() - 1].1);
                    }
                    return true;
                }
                proof {
                    assert(!(height(node@) > remaining));
                    lemma_over_push(rest, node, remaining);
                }
            } else {
                push_children(&mut stack, node, remaining - 1);
                proof {
                    assert(stacked(stack@) =~= stacked(rest) + children(node@));
                    lemma_total_add(stacked(rest), children(node@));
                    lemma_over_push(rest, node, remaining);
                    if over(stack@) {
                        let i: int = choose|i: int|
                            0 <= i < stack@.len() && height((#[trigger] stack@[i]).0@)
                                > stack@[i].1;
                        if i < rest.len() {
                            assert(height(rest[i].0@) > rest[i].1);
                        } else {
                            assert(height(children(node@)[i - rest.len()]) > remaining - 1);
                        }
                    }
                    if over(rest) {
                        let i: int = choose|i: int|
                            0 <= i < rest.len() && height((#[trigger] rest[i]).0@) > rest[i].1;
                        assert(height(stack@[i].0@) > stack@[i].1);
                    }
                    if height(node@) > remaining {
                        let i: int = choose|i: int|
                            0 <= i < children(node@).len() && height(
                                #[trigger] children(node@)[i],
                            ) > remaining - 1;
                        assert(height(stack@[rest.len() + i].0@) > stack@[rest.len() + i].1);
                    }
                }
            }
        }
    }
    false
}

/// One more value on the stack is one more that may exceed its bound.
proof fn lemma_over_push(rest: Seq<(&Value, usize)>, node: &Value, remaining: usize)
    ensures
        over(rest.push((node, remaining))) <==> over(rest) || height(node@) > remaining,
{
    let stack: Seq<(&Value, usize)> = rest.push((node, remaining));
    if over(stack) {
        let i: int = choose|i: int|
            0 <= i < stack.len() && height((#[trigger] stack[i]).0@) > stack[i].1;
        if i < rest.len() {
            assert(height(rest[i].0@) > rest[i].1);
        }
    }
    if over(rest) {
        let i: int = choose|i: int|
            0 <= i < rest.len() && height((#[trigger] rest[i]).0@) > rest[i].1;
        assert(height(stack[i].0@) > stack[i].1);
    }
    if height(node@) > remaining {
        assert(height(stack[rest.len() as int].0@) > stack[rest.len() as int].1);
    }
}

/// Whether a value holds others.
fn has_children(value: &Value) -> (result: bool)
    ensures
        result == (children(value@).len() > 0),
{
    match value {
        Value::Array(items) | Value::Tuple(items) => items.len() > 0,
        Value::MutableSet(items) | Value::FrozenSet(items) => !items.is_empty(),
        Value::Object(object) => !object.is_empty(),
        _ => false,
    }
}

/// Whether an object nests deeper than `limit`, without a value made of it.
pub fn map_deeper_than(map: &Object, limit: usize) -> (result: bool)
    ensures
        result == (entry_heights(map@.entries) > limit),
{
    proof {
        lemma_height(Val::Object(map@), limit as nat);
    }
    if limit == 0 {
        proof {
            if map@.entries.len() > 0 {
                assert(height(entry_values(map@.entries)[0]) > -1);
            }
        }
        return !map.is_empty();
    }
    let mut i: usize = 0;
    while i < map.len()
        invariant
            i <= map@.entries.len(),
            limit > 0,
            entry_heights(map@.entries) > limit <==> any_deeper(
                entry_values(map@.entries),
                limit - 1,
            ),
            forall|k: int|
                0 <= k < i ==> height(#[trigger] entry_values(map@.entries)[k]) <= limit - 1,
        decreases map@.entries.len() - i,
    {
        if deeper_than(map.value_at(i), limit - 1) {
            proof {
                assert(height(entry_values(map@.entries)[i as int]) > limit - 1);
            }
            return true;
        }
        i = i + 1;
    }
    false
}

} // verus!
