//! Members of sets: which of them are the same to Python, and which stand for
//! themselves.

use vstd::prelude::*;

use super::hash::{object_key_item_key, scalar_content_key};
use super::keys::{HashKey, MemberContent, Part};
use super::memo::IgnoreOrderMemo;
use crate::intern::Interner;
use crate::order::put_pair;
use crate::scalar_key::lasting_key;
use crate::value::{Object, SetItems, Value};

#[allow(unused_imports)]
use super::hash::{key_item, scalar_item};
#[allow(unused_imports)]
use super::keys::{ContentVal, HashVal, Keys, PartVal};
#[allow(unused_imports)]
use super::memo::{with_content, with_item, with_node, with_part, MemoVal};
#[allow(unused_imports)]
use crate::order::{ascending, pair_views, put};
#[allow(unused_imports)]
use crate::scalar_key::lasting_scalar;
#[allow(unused_imports)]
use crate::value::{views, KeyVal, Val};
#[allow(unused_imports)]
use crate::walk::{
    children, entry_values, lemma_children, lemma_member, lemma_total_add, lemma_total_push, total,
    weight,
};

verus! {

// ---------------------------------------------------------------------
// What stands for a member
// ---------------------------------------------------------------------

/// What stands for a value, and the part that it is of a hashable value; a
/// value without a part is not hashable.
pub type Member = (usize, Option<usize>);

/// What stands for each value.
pub open spec fn reps(members: Seq<Member>) -> Seq<usize> {
    Seq::new(members.len(), |i: int| members[i].0)
}

/// Whether every value is hashable.
pub open spec fn hashable(members: Seq<Member>) -> bool {
    forall|i: int| 0 <= i < members.len() ==> (#[trigger] members[i]).1 is Some
}

/// The parts of hashable values.
pub open spec fn member_parts(members: Seq<Member>) -> Seq<usize> {
    Seq::new(members.len(), |i: int| members[i].1->Some_0)
}

/// Several numbers without order or repetition.
pub open spec fn number_set(numbers: Seq<usize>) -> Keys
    decreases numbers.len(),
{
    if numbers.len() == 0 {
        seq![]
    } else {
        put::<usize, ()>(number_set(numbers.drop_last()), numbers.last(), ())
    }
}

/// What stands for a tuple or a `frozenset`, given what stands for what it
/// holds: a hashable one shares it with every equal one.
pub open spec fn container_member(m: MemoVal, members: Seq<Member>, tuple: bool) -> (
    MemoVal,
    Member,
) {
    let content = if tuple {
        ContentVal::Tuple(reps(members))
    } else {
        ContentVal::FrozenSet(number_set(reps(members)))
    };
    if hashable(members) {
        let key = if tuple {
            HashVal::Tuple(member_parts(members))
        } else {
            HashVal::FrozenSet(number_set(member_parts(members)))
        };
        let (n, node, rep) = with_node(m, key, content);
        let (n, part) = with_part(n, PartVal::Node(node));
        (n, (rep, Some(part)))
    } else {
        let (n, rep) = with_content(m, content);
        (n, (rep, None))
    }
}

/// What stands for the values of the first `count` entries, by their keys'
/// items.
pub open spec fn entry_reps(
    m: MemoVal,
    entries: Seq<(KeyVal, Val)>,
    members: Seq<Member>,
    count: int,
) -> (MemoVal, Seq<(usize, usize)>)
    decreases count,
{
    if count <= 0 {
        (m, seq![])
    } else {
        let (n, pairs) = entry_reps(m, entries, members, count - 1);
        let (n, key) = key_item(n, entries[count - 1].0);
        (n, put::<usize, usize>(pairs, key, members[count - 1].0))
    }
}

/// What stands for a value, given what stands for what it holds.
pub open spec fn member_with(m: MemoVal, value: Val, members: Seq<Member>) -> (MemoVal, Member) {
    match value {
        Val::Tuple(_) => container_member(m, members, true),
        Val::FrozenSet(_) => container_member(m, members, false),
        Val::Array(_) => {
            let (n, rep) = with_content(m, ContentVal::UnhashableList(reps(members)));
            (n, (rep, None))
        },
        Val::MutableSet(_) => {
            let (n, rep) = with_content(m, ContentVal::UnhashableSet(reps(members)));
            (n, (rep, None))
        },
        Val::Object(object) => {
            let (n, pairs) = entry_reps(m, object.entries, members, object.entries.len() as int);
            let (n, rep) = with_content(n, ContentVal::UnhashableDict(pairs));
            (n, (rep, None))
        },
        _ => {
            let (n, item) = with_item(m, scalar_item(value));
            let (n, rep) = with_content(n, ContentVal::Scalar(item));
            match lasting_scalar(value) {
                Some(key) => {
                    let (n, part) = with_part(n, PartVal::Scalar(key));
                    (n, (rep, Some(part)))
                },
                None => (n, (rep, None)),
            }
        },
    }
}

/// What stands for a value.
pub open spec fn member_of(m: MemoVal, value: Val) -> (MemoVal, Member)
    decreases weight(value), 0int,
{
    proof {
        lemma_children(value);
    }
    let (n, members) = members_of(m, children(value), children(value).len() as int);
    member_with(n, value, members)
}

/// What stands for each of the first `count` values.
pub open spec fn members_of(m: MemoVal, items: Seq<Val>, count: int) -> (MemoVal, Seq<Member>)
    decreases total(items), count,
{
    if count <= 0 || count > items.len() {
        (m, seq![])
    } else {
        proof {
            lemma_member(items, count - 1);
        }
        let (n, members) = members_of(m, items, count - 1);
        let (n, member) = member_of(n, items[count - 1]);
        (n, members.push(member))
    }
}

// ---------------------------------------------------------------------
// The walk
// ---------------------------------------------------------------------

/// A value and all that it holds, each after what it holds itself.
pub open spec fn inside_out(value: Val) -> Seq<Val>
    decreases weight(value), 0int,
{
    proof {
        lemma_children(value);
    }
    inside_out_all(children(value), children(value).len() as int).push(value)
}

/// The first `count` values and all that they hold, one value after another.
pub open spec fn inside_out_all(items: Seq<Val>, count: int) -> Seq<Val>
    decreases total(items), count,
{
    if count <= 0 || count > items.len() {
        seq![]
    } else {
        proof {
            lemma_member(items, count - 1);
        }
        inside_out_all(items, count - 1) + inside_out(items[count - 1])
    }
}

/// What stands for values met in turn, each taking what it holds from the end
/// of the list.
pub open spec fn gathered(m: MemoVal, order: Seq<Val>, built: Seq<Member>) -> (MemoVal, Seq<Member>)
    decreases order.len(),
{
    if order.len() == 0 {
        (m, built)
    } else {
        let held = children(order[0]).len();
        let (n, member) = member_with(m, order[0], built.skip(built.len() - held));
        gathered(n, order.drop_first(), built.take(built.len() - held).push(member))
    }
}

/// Values met in two runs.
proof fn lemma_gathered_add(m: MemoVal, a: Seq<Val>, b: Seq<Val>, built: Seq<Member>)
    ensures
        gathered(m, a + b, built) == gathered(gathered(m, a, built).0, b, gathered(m, a, built).1),
    decreases a.len(),
{
    if a.len() == 0 {
        assert(a + b =~= b);
    } else {
        let held = children(a[0]).len();
        let (n, member) = member_with(m, a[0], built.skip(built.len() - held));
        assert((a + b).drop_first() =~= a.drop_first() + b);
        lemma_gathered_add(
            n,
            a.drop_first(),
            b,
            built.take(built.len() - held).push(member),
        );
    }
}

/// Met from the inside out, a value leaves what stands for it.
proof fn lemma_gathered(m: MemoVal, value: Val, built: Seq<Member>)
    ensures
        gathered(m, inside_out(value), built) == (
            member_of(m, value).0,
            built.push(member_of(m, value).1),
        ),
    decreases weight(value), 0int,
{
    let held = children(value);
    lemma_children(value);
    let inner = inside_out_all(held, held.len() as int);
    let (n, members) = members_of(m, held, held.len() as int);
    lemma_gathered_all(m, held, held.len() as int, built);
    lemma_gathered_add(m, inner, seq![value], built);
    assert(inside_out(value) =~= inner + seq![value]);
    let all: Seq<Member> = built + members;
    assert(all.skip(all.len() - held.len()) =~= members);
    assert(all.take(all.len() - held.len()) =~= built);
    let (last, member) = member_with(n, value, members);
    assert(seq![value].drop_first() =~= seq![]);
    reveal_with_fuel(gathered, 2);
    assert(gathered(n, seq![value], all) == (last, built.push(member)));
}

proof fn lemma_gathered_all(m: MemoVal, items: Seq<Val>, count: int, built: Seq<Member>)
    requires
        0 <= count <= items.len(),
    ensures
        gathered(m, inside_out_all(items, count), built) == (
            members_of(m, items, count).0,
            built + members_of(m, items, count).1,
        ),
        members_of(m, items, count).1.len() == count,
    decreases total(items), count,
{
    if count == 0 {
        assert(built + members_of(m, items, count).1 =~= built);
    } else {
        lemma_member(items, count - 1);
        lemma_gathered_all(m, items, count - 1, built);
        let (n, members) = members_of(m, items, count - 1);
        lemma_gathered_add(
            m,
            inside_out_all(items, count - 1),
            inside_out(items[count - 1]),
            built,
        );
        lemma_gathered(n, items[count - 1], built + members);
        let (last, member) = member_of(n, items[count - 1]);
        assert((built + members).push(member) =~= built + members.push(member));
    }
}

/// Values and then more values, inside out.
proof fn lemma_inside_out_add(a: Seq<Val>, b: Seq<Val>, count: int)
    requires
        0 <= count <= b.len(),
    ensures
        inside_out_all(a + b, a.len() + count) == inside_out_all(a, a.len() as int)
            + inside_out_all(b, count),
    decreases count,
{
    if count == 0 {
        lemma_inside_out_prefix(a + b, a, a.len() as int);
        assert(inside_out_all(a, a.len() as int) + inside_out_all(b, 0) =~= inside_out_all(
            a,
            a.len() as int,
        ));
    } else {
        lemma_inside_out_add(a, b, count - 1);
        assert((a + b)[a.len() + count - 1] == b[count - 1]);
        assert(inside_out_all(a, a.len() as int) + inside_out_all(b, count) =~= (inside_out_all(
            a,
            a.len() as int,
        ) + inside_out_all(b, count - 1)) + inside_out(b[count - 1]));
    }
}

proof fn lemma_inside_out_prefix(longer: Seq<Val>, items: Seq<Val>, count: int)
    requires
        0 <= count <= items.len() <= longer.len(),
        forall|i: int| 0 <= i < items.len() ==> longer[i] == items[i],
    ensures
        inside_out_all(longer, count) == inside_out_all(items, count),
    decreases count,
{
    if count > 0 {
        lemma_inside_out_prefix(longer, items, count - 1);
    }
}

/// The models of values that are borrowed.
pub open spec fn borrowed(values: Seq<&Value>) -> Seq<Val> {
    Seq::new(values.len(), |i: int| values[i]@)
}

/// Adds what a value holds to a list.
pub(crate) fn push_children<'a>(stack: &mut Vec<&'a Value>, value: &'a Value)
    ensures
        borrowed(final(stack)@) == borrowed(old(stack)@) + children(value@),
{
    let ghost before: Seq<Val> = borrowed(stack@);
    let ghost held: Seq<Val> = children(value@);
    proof {
        assert(before + held.take(0) =~= before);
    }
    match value {
        Value::Array(items) | Value::Tuple(items) => {
            let mut i: usize = 0;
            while i < items.len()
                invariant
                    i <= items.len(),
                    held == views(items@),
                    borrowed(stack@) == before + held.take(i as int),
                decreases items.len() - i,
            {
                let ghost prior: Seq<Val> = borrowed(stack@);
                stack.push(&items[i]);
                proof {
                    assert(borrowed(stack@) =~= prior.push(held[i as int]));
                    assert(held.take(i as int + 1) =~= held.take(i as int).push(held[i as int]));
                    assert(borrowed(stack@) =~= before + held.take(i as int + 1));
                }
                i = i + 1;
            }
        },
        Value::MutableSet(items) | Value::FrozenSet(items) => {
            let mut i: usize = 0;
            while i < items.len()
                invariant
                    i <= items@.len(),
                    held == items@,
                    borrowed(stack@) == before + held.take(i as int),
                decreases items@.len() - i,
            {
                let ghost prior: Seq<Val> = borrowed(stack@);
                stack.push(items.get(i));
                proof {
                    assert(borrowed(stack@) =~= prior.push(held[i as int]));
                    assert(held.take(i as int + 1) =~= held.take(i as int).push(held[i as int]));
                    assert(borrowed(stack@) =~= before + held.take(i as int + 1));
                }
                i = i + 1;
            }
        },
        Value::Object(object) => {
            let mut i: usize = 0;
            while i < object.len()
                invariant
                    i <= object@.entries.len(),
                    held == entry_values(object@.entries),
                    borrowed(stack@) == before + held.take(i as int),
                decreases object@.entries.len() - i,
            {
                let ghost prior: Seq<Val> = borrowed(stack@);
                stack.push(object.value_at(i));
                proof {
                    assert(borrowed(stack@) =~= prior.push(held[i as int]));
                    assert(held.take(i as int + 1) =~= held.take(i as int).push(held[i as int]));
                    assert(borrowed(stack@) =~= before + held.take(i as int + 1));
                }
                i = i + 1;
            }
        },
        _ => {},
    }
    proof {
        assert(held.take(held.len() as int) =~= held);
    }
}

/// How many values a value holds directly.
fn child_count(value: &Value) -> (count: usize)
    ensures
        count == children(value@).len(),
{
    match value {
        Value::Array(items) | Value::Tuple(items) => items.len(),
        Value::MutableSet(items) | Value::FrozenSet(items) => items.len(),
        Value::Object(object) => object.len(),
        _ => 0,
    }
}

fn child_reps(members: &Vec<Member>) -> (result: Vec<usize>)
    ensures
        result@ == reps(members@),
{
    let mut result: Vec<usize> = Vec::new();
    let mut i: usize = 0;
    while i < members.len()
        invariant
            i <= members.len(),
            result@.len() == i,
            forall|k: int| 0 <= k < i ==> (#[trigger] result@[k]) == members@[k].0,
        decreases members.len() - i,
    {
        result.push(members[i].0);
        i = i + 1;
    }
    proof {
        assert(result@ =~= reps(members@));
    }
    result
}

fn set_of_numbers(numbers: &Vec<usize>) -> (keys: Vec<(usize, ())>)
    ensures
        keys@ == number_set(numbers@),
{
    let mut keys: Vec<(usize, ())> = Vec::new();
    let mut i: usize = 0;
    proof {
        assert(pair_views(keys@) =~= seq![]);
    }
    while i < numbers.len()
        invariant
            i <= numbers.len(),
            keys@ == number_set(numbers@.take(i as int)),
            ascending::<usize, ()>(pair_views(keys@)),
        decreases numbers.len() - i,
    {
        proof {
            assert(pair_views(keys@) =~= keys@);
            assert(numbers@.take(i as int + 1).drop_last() =~= numbers@.take(i as int));
        }
        put_pair(&mut keys, numbers[i], ());
        proof {
            assert(pair_views(keys@) =~= keys@);
        }
        i = i + 1;
    }
    proof {
        assert(numbers@.take(i as int) =~= numbers@);
    }
    keys
}

/// What stands for a tuple or a `frozenset`.
fn build_container(members: &Vec<Member>, tuple: bool, memo: &mut IgnoreOrderMemo<'_>) -> (result:
    Member)
    requires
        old(memo).well_formed(),
    ensures
        final(memo).well_formed(),
        final(memo).table() == old(memo).table(),
        (final(memo)@, result) == container_member(old(memo)@, members@, tuple),
{
    let held: Vec<usize> = child_reps(members);
    let mut parts: Vec<usize> = Vec::new();
    let mut can_hash: bool = true;
    let mut i: usize = 0;
    while i < members.len()
        invariant
            i <= members.len(),
            can_hash <==> (forall|k: int| 0 <= k < i ==> (#[trigger] members@[k]).1 is Some),
            can_hash ==> parts@.len() == i,
            can_hash ==> forall|k: int| 0 <= k < i ==> (#[trigger] parts@[k])
                == members@[k].1->Some_0,
        decreases members.len() - i,
    {
        match members[i].1 {
            Some(part) => {
                if can_hash {
                    parts.push(part);
                }
            },
            None => {
                can_hash = false;
            },
        }
        i = i + 1;
    }
    let content: MemberContent = if tuple {
        MemberContent::Tuple(held)
    } else {
        MemberContent::FrozenSet(set_of_numbers(&held))
    };
    if !can_hash {
        return (memo.content_rep(content), None);
    }
    proof {
        assert(hashable(members@));
        assert(parts@ =~= member_parts(members@));
    }
    let key: HashKey = if tuple {
        HashKey::Tuple(parts)
    } else {
        HashKey::FrozenSet(set_of_numbers(&parts))
    };
    let (node, rep) = memo.member_rep(key, content);
    let part: usize = memo.part(Part::Node(node));
    (rep, Some(part))
}

/// What stands for an object.
fn build_object(object: &Object, members: &Vec<Member>, memo: &mut IgnoreOrderMemo<'_>) -> (result:
    Member)
    requires
        old(memo).well_formed(),
        members@.len() == object@.entries.len(),
    ensures
        final(memo).well_formed(),
        final(memo).table() == old(memo).table(),
        (final(memo)@, result) == member_with(old(memo)@, Val::Object(object@), members@),
{
    let ghost entries: Seq<(KeyVal, Val)> = object@.entries;
    let ghost m: MemoVal = memo@;
    let mut pairs: Vec<(usize, usize)> = Vec::new();
    let mut i: usize = 0;
    proof {
        assert(pair_views(pairs@) =~= seq![]);
    }
    while i < object.len()
        invariant
            i <= entries.len(),
            entries == object@.entries,
            members@.len() == entries.len(),
            memo.well_formed(),
            memo.table() == old(memo).table(),
            (memo@, pairs@) == entry_reps(m, entries, members@, i as int),
            ascending::<usize, usize>(pair_views(pairs@)),
        decreases entries.len() - i,
    {
        let key: usize = object_key_item_key(object.key_at(i), memo);
        proof {
            assert(pair_views(pairs@) =~= pairs@);
        }
        put_pair(&mut pairs, key, members[i].0);
        proof {
            assert(pair_views(pairs@) =~= pairs@);
        }
        i = i + 1;
    }
    (memo.content_rep(MemberContent::UnhashableDict(pairs)), None)
}

/// What stands for a value, given what stands for what it holds.
fn build_member(value: &Value, members: &Vec<Member>, memo: &mut IgnoreOrderMemo<'_>) -> (result:
    Member)
    requires
        old(memo).well_formed(),
        members@.len() == children(value@).len(),
    ensures
        final(memo).well_formed(),
        final(memo).table() == old(memo).table(),
        (final(memo)@, result) == member_with(old(memo)@, value@, members@),
{
    match value {
        Value::Tuple(_) => build_container(members, true, memo),
        Value::FrozenSet(_) => build_container(members, false, memo),
        Value::Array(_) => (
            memo.content_rep(MemberContent::UnhashableList(child_reps(members))),
            None,
        ),
        Value::MutableSet(_) => (
            memo.content_rep(MemberContent::UnhashableSet(child_reps(members))),
            None,
        ),
        Value::Object(object) => build_object(object, members, memo),
        _ => {
            let item: usize = memo.item(scalar_content_key(value));
            let rep: usize = memo.content_rep(MemberContent::Scalar(item));
            match lasting_key(value) {
                Some(key) => (rep, Some(memo.part(Part::Scalar(key)))),
                None => (rep, None),
            }
        },
    }
}

/// What stands for a member of a set.
pub fn set_member_digest(root: &Value, memo: &mut IgnoreOrderMemo<'_>) -> (rep: usize)
    requires
        old(memo).well_formed(),
    ensures
        final(memo).well_formed(),
        final(memo).table() == old(memo).table(),
        final(memo)@ == member_of(old(memo)@, root@).0,
        rep == member_of(old(memo)@, root@).1.0,
{
    let ghost m: MemoVal = memo@;
    let ghost all: Seq<Val> = inside_out(root@);
    let mut order: Vec<&Value> = Vec::new();
    let mut stack: Vec<&Value> = Vec::new();
    stack.push(root);
    proof {
        reveal_with_fuel(inside_out_all, 2);
        reveal_with_fuel(total, 2);
        assert(borrowed(stack@) =~= seq![root@]);
        assert(inside_out_all(borrowed(stack@), 1) =~= all);
        assert(borrowed(order@).reverse() =~= seq![]);
        assert(all + borrowed(order@).reverse() =~= all);
    }
    while stack.len() > 0
        invariant
            all == inside_out(root@),
            all == inside_out_all(borrowed(stack@), stack@.len() as int) + borrowed(
                order@,
            ).reverse(),
        decreases total(borrowed(stack@)),
    {
        let ghost before: Seq<Val> = borrowed(stack@);
        let ghost met: Seq<Val> = borrowed(order@);
        if let Some(value) = stack.pop() {
            let ghost rest: Seq<Val> = borrowed(stack@);
            order.push(value);
            push_children(&mut stack, value);
            proof {
                let held: Seq<Val> = children(value@);
                assert(before =~= rest.push(value@));
                lemma_total_push(rest, value@);
                lemma_total_add(rest, held);
                lemma_children(value@);
                assert(borrowed(stack@).len() == stack@.len());
                lemma_inside_out_prefix(before, rest, rest.len() as int);
                lemma_inside_out_add(rest, held, held.len() as int);
                assert(borrowed(order@) =~= met.push(value@));
                assert(borrowed(order@).reverse() =~= seq![value@] + met.reverse());
                let inner: Seq<Val> = inside_out_all(held, held.len() as int);
                assert(before[before.len() - 1] == value@);
                assert(before.len() - 1 == rest.len());
                assert(inside_out(value@) == inner.push(value@));
                assert(inside_out_all(before, before.len() as int) == inside_out_all(
                    rest,
                    rest.len() as int,
                ) + inner.push(value@));
                assert(all =~= inside_out_all(borrowed(stack@), stack@.len() as int) + borrowed(
                    order@,
                ).reverse());
            }
        }
    }
    proof {
        assert(all =~= borrowed(order@).reverse());
    }
    let mut built: Vec<Member> = Vec::new();
    let ghost target: (MemoVal, Seq<Member>) = gathered(m, all, seq![]);
    proof {
        lemma_gathered(m, root@, seq![]);
        assert(built@ =~= seq![]);
        lemma_enough(root@, 0);
    }
    while order.len() > 0
        invariant
            memo.well_formed(),
            memo.table() == old(memo).table(),
            target == gathered(memo@, borrowed(order@).reverse(), built@),
            enough(borrowed(order@).reverse(), built@.len()),
        decreases order.len(),
    {
        let ghost rest: Seq<Val> = borrowed(order@).reverse();
        if let Some(value) = order.pop() {
            proof {
                assert(rest[0] == value@);
                assert(borrowed(order@).reverse() =~= rest.drop_first());
            }
            let count: usize = child_count(value);
            let at: usize = built.len() - count;
            let ghost before: Seq<Member> = built@;
            let members: Vec<Member> = built.split_off(at);
            proof {
                assert(members@ =~= before.skip(before.len() - count));
                assert(built@ =~= before.take(before.len() - count));
            }
            let member: Member = build_member(value, &members, memo);
            built.push(member);
        }
    }
    proof {
        assert(borrowed(order@).reverse().len() == 0);
        assert(built@ == seq![member_of(m, root@).1]);
    }
    built[0].0
}

/// Whether every value finds what it holds at the end of the list, which has
/// `len` entries at first.
pub open spec fn enough(order: Seq<Val>, len: nat) -> bool
    decreases order.len(),
{
    order.len() == 0 || (children(order[0]).len() <= len && enough(
        order.drop_first(),
        (len - children(order[0]).len() + 1) as nat,
    ))
}

proof fn lemma_enough_add(a: Seq<Val>, b: Seq<Val>, len: nat, after: nat)
    requires
        enough(a, len),
        enough(b, after),
        gathered_len(a, len) == after,
    ensures
        enough(a + b, len),
    decreases a.len(),
{
    if a.len() == 0 {
        assert(a + b =~= b);
    } else {
        assert((a + b).drop_first() =~= a.drop_first() + b);
        lemma_enough_add(a.drop_first(), b, (len - children(a[0]).len() + 1) as nat, after);
    }
}

/// The length of the list after the values were met.
spec fn gathered_len(order: Seq<Val>, len: nat) -> nat
    decreases order.len(),
{
    if order.len() == 0 {
        len
    } else {
        gathered_len(order.drop_first(), (len - children(order[0]).len() + 1) as nat)
    }
}

proof fn lemma_gathered_len_add(a: Seq<Val>, b: Seq<Val>, len: nat)
    ensures
        gathered_len(a + b, len) == gathered_len(b, gathered_len(a, len)),
    decreases a.len(),
{
    if a.len() == 0 {
        assert(a + b =~= b);
    } else {
        assert((a + b).drop_first() =~= a.drop_first() + b);
        lemma_gathered_len_add(a.drop_first(), b, (len - children(a[0]).len() + 1) as nat);
    }
}

proof fn lemma_enough(value: Val, len: nat)
    ensures
        enough(inside_out(value), len),
        gathered_len(inside_out(value), len) == len + 1,
    decreases weight(value), 0int,
{
    let held = children(value);
    lemma_children(value);
    lemma_enough_all(held, held.len() as int, len);
    let inner = inside_out_all(held, held.len() as int);
    assert(inside_out(value) =~= inner + seq![value]);
    assert(seq![value].drop_first() =~= seq![]);
    reveal_with_fuel(enough, 2);
    reveal_with_fuel(gathered_len, 2);
    lemma_enough_add(inner, seq![value], len, len + held.len());
    lemma_gathered_len_add(inner, seq![value], len);
}

proof fn lemma_enough_all(items: Seq<Val>, count: int, len: nat)
    requires
        0 <= count <= items.len(),
    ensures
        enough(inside_out_all(items, count), len),
        gathered_len(inside_out_all(items, count), len) == len + count,
    decreases total(items), count,
{
    if count > 0 {
        lemma_member(items, count - 1);
        lemma_enough_all(items, count - 1, len);
        lemma_enough(items[count - 1], (len + count - 1) as nat);
        lemma_enough_add(
            inside_out_all(items, count - 1),
            inside_out(items[count - 1]),
            len,
            (len + count - 1) as nat,
        );
        lemma_gathered_len_add(
            inside_out_all(items, count - 1),
            inside_out(items[count - 1]),
            len,
        );
    }
}

// ---------------------------------------------------------------------
// Two sets
// ---------------------------------------------------------------------

/// The positions among the first `count` whose number is not one of the
/// others.
pub open spec fn unmatched(numbers: Seq<usize>, others: Seq<usize>, count: int) -> Seq<usize>
    decreases count,
{
    if count <= 0 {
        seq![]
    } else if others.contains(numbers[count - 1]) {
        unmatched(numbers, others, count - 1)
    } else {
        unmatched(numbers, others, count - 1).push((count - 1) as usize)
    }
}

/// The positions of the members of the first set that the second lacks, and
/// the other way round.
pub open spec fn set_changes(m: MemoVal, a: Seq<Val>, b: Seq<Val>) -> (
    MemoVal,
    Seq<usize>,
    Seq<usize>,
) {
    let (n, x) = members_of(m, a, a.len() as int);
    let (n, y) = members_of(n, b, b.len() as int);
    (
        n,
        unmatched(reps(x), reps(y), a.len() as int),
        unmatched(reps(y), reps(x), b.len() as int),
    )
}

/// The numbers as a table.
pub fn number_table(numbers: &Vec<usize>) -> (table: Interner<usize>)
    ensures
        table.well_formed(),
        forall|n: usize| #[trigger] table@.contains(n) == numbers@.contains(n),
{
    let mut table: Interner<usize> = Interner::new();
    let mut i: usize = 0;
    proof {
        assert(numbers@.take(0) =~= seq![]);
    }
    while i < numbers.len()
        invariant
            i <= numbers.len(),
            table.well_formed(),
            forall|n: usize| #[trigger] table@.contains(n) == numbers@.take(i as int).contains(n),
        decreases numbers.len() - i,
    {
        let ghost before: Seq<usize> = table@;
        let _: usize = table.intern(numbers[i]);
        proof {
            let upto: Seq<usize> = numbers@.take(i as int + 1);
            assert(upto =~= numbers@.take(i as int).push(numbers@[i as int]));
            assert forall|n: usize| #[trigger] table@.contains(n) == upto.contains(n) by {
                lemma_push_contains(numbers@.take(i as int), numbers@[i as int], n);
                lemma_push_contains(before, numbers@[i as int], n);
                assert(before.contains(n) == numbers@.take(i as int).contains(n));
            }
        }
        i = i + 1;
    }
    proof {
        assert(numbers@.take(i as int) =~= numbers@);
    }
    table
}

/// What a list holds with one more number.
proof fn lemma_push_contains(numbers: Seq<usize>, last: usize, n: usize)
    ensures
        numbers.push(last).contains(n) == (numbers.contains(n) || n == last),
{
    if numbers.contains(n) {
        let k: int = choose|k: int| 0 <= k < numbers.len() && numbers[k] == n;
        assert(numbers.push(last)[k] == n);
    }
    if n == last {
        assert(numbers.push(last)[numbers.len() as int] == n);
    }
    if numbers.push(last).contains(n) {
        let k: int = choose|k: int|
            0 <= k < numbers.push(last).len() && numbers.push(last)[k] == n;
        if k < numbers.len() {
            assert(numbers[k] == n);
        }
    }
}

/// What stands for each member of a set.
fn digests(items: &SetItems, memo: &mut IgnoreOrderMemo<'_>) -> (result: Vec<usize>)
    requires
        old(memo).well_formed(),
    ensures
        final(memo).well_formed(),
        final(memo).table() == old(memo).table(),
        final(memo)@ == members_of(old(memo)@, items@, items@.len() as int).0,
        result@ == reps(members_of(old(memo)@, items@, items@.len() as int).1),
        result@.len() == items@.len(),
{
    let ghost m: MemoVal = memo@;
    let mut result: Vec<usize> = Vec::new();
    let mut i: usize = 0;
    proof {
        assert(result@ =~= reps(members_of(m, items@, 0).1));
    }
    while i < items.len()
        invariant
            i <= items@.len(),
            memo.well_formed(),
            memo.table() == old(memo).table(),
            memo@ == members_of(m, items@, i as int).0,
            result@ == reps(members_of(m, items@, i as int).1),
            result@.len() == i,
        decreases items@.len() - i,
    {
        let rep: usize = set_member_digest(items.get(i), memo);
        result.push(rep);
        proof {
            assert(result@ =~= reps(members_of(m, items@, i as int + 1).1));
        }
        i = i + 1;
    }
    result
}

/// The positions whose number is not in the table.
fn positions_without(numbers: &Vec<usize>, table: &Interner<usize>, Ghost(others): Ghost<
    Seq<usize>,
>) -> (result: Vec<usize>)
    requires
        table.well_formed(),
        forall|n: usize| #[trigger] table@.contains(n) == others.contains(n),
    ensures
        result@ == unmatched(numbers@, others, numbers@.len() as int),
        forall|k: int| 0 <= k < result@.len() ==> (#[trigger] result@[k]) < numbers@.len(),
{
    let mut result: Vec<usize> = Vec::new();
    let mut i: usize = 0;
    while i < numbers.len()
        invariant
            i <= numbers.len(),
            table.well_formed(),
            forall|n: usize| #[trigger] table@.contains(n) == others.contains(n),
            result@ == unmatched(numbers@, others, i as int),
            forall|k: int| 0 <= k < result@.len() ==> (#[trigger] result@[k]) < numbers@.len(),
        decreases numbers.len() - i,
    {
        match table.find(&numbers[i]) {
            Some(_) => {},
            None => {
                result.push(i);
            },
        }
        i = i + 1;
    }
    result
}

/// The positions of the members of the first set that the second lacks, and
/// the other way round.
pub fn set_difference(a: &SetItems, b: &SetItems, memo: &mut IgnoreOrderMemo<'_>) -> (result: (
    Vec<usize>,
    Vec<usize>,
))
    requires
        old(memo).well_formed(),
    ensures
        final(memo).well_formed(),
        final(memo).table() == old(memo).table(),
        (final(memo)@, result.0@, result.1@) == set_changes(old(memo)@, a@, b@),
        forall|k: int| 0 <= k < result.0@.len() ==> (#[trigger] result.0@[k]) < a@.len(),
        forall|k: int| 0 <= k < result.1@.len() ==> (#[trigger] result.1@[k]) < b@.len(),
{
    let x: Vec<usize> = digests(a, memo);
    let y: Vec<usize> = digests(b, memo);
    let in_a: Interner<usize> = number_table(&x);
    let in_b: Interner<usize> = number_table(&y);
    let removed: Vec<usize> = positions_without(&x, &in_b, Ghost(y@));
    let added: Vec<usize> = positions_without(&y, &in_a, Ghost(x@));
    (removed, added)
}

} // verus!
