//! What becomes of the members of two sets.

use vstd::prelude::*;

#[allow(unused_imports)]
use super::model::diff_of;
#[allow(unused_imports)]
use super::options::Rules;
#[allow(unused_imports)]
use super::scalar::Outcome;
#[allow(unused_imports)]
use super::set::{member_path, members_outcome, set_outcome};
#[allow(unused_imports)]
use super::spots::{bare, lemma_spot_nothing, lemma_spot_with, spot, Spot};
#[allow(unused_imports)]
use crate::canonical::scalar;
#[allow(unused_imports)]
use crate::ignore_order::hash::scalar_item;
#[allow(unused_imports)]
use crate::ignore_order::keys::{ContentVal, ItemVal};
#[allow(unused_imports)]
use crate::ignore_order::members::{
    member_of, member_with, members_of, reps, set_changes, unmatched, Member,
};
#[allow(unused_imports)]
use crate::ignore_order::memo::{with_content, with_item, MemoVal};
#[allow(unused_imports)]
use crate::ignore_order::rearranged::{
    alike, extends, lemma_extends, lemma_member_again, lemma_member_of, lemma_members, lemma_same,
    tables,
};
#[allow(unused_imports)]
use crate::intern::{slot, with_key};
#[allow(unused_imports)]
use crate::path::{item_text, Seg};
#[allow(unused_imports)]
use crate::report::{nothing, orderly, with_set_added, with_set_removed, Findings};
#[allow(unused_imports)]
use crate::value::Val;
#[allow(unused_imports)]
use crate::walk::children;

verus! {

// ---------------------------------------------------------------------
// Which members are one
// ---------------------------------------------------------------------

/// What stands for a member of a set.
pub open spec fn stands_for(n: MemoVal, member: Val) -> usize {
    member_of(n, member).1.0
}

/// Whether a set has no member that is one with a value.
pub open spec fn lacks(n: MemoVal, members: Seq<Val>, value: Val) -> bool {
    forall|j: int| 0 <= j < members.len() ==> stands_for(n, #[trigger] members[j]) != stands_for(
        n,
        value,
    )
}

/// What stands for a member is found again as the tables grow.
proof fn lemma_found_again(m: MemoVal, items: Seq<Val>, count: int, n: MemoVal)
    requires
        tables(m),
        tables(n),
        0 <= count <= items.len(),
        extends(members_of(m, items, count).0, n),
    ensures
        members_of(m, items, count).1.len() == count,
        forall|i: int|
            0 <= i < count ==> (#[trigger] members_of(m, items, count).1[i]).0 == stands_for(
                n,
                items[i],
            ),
    decreases count,
{
    if count > 0 {
        let before: MemoVal = members_of(m, items, count - 1).0;
        lemma_members(m, items, count - 1);
        lemma_member_of(before, items[count - 1]);
        lemma_extends(before, member_of(before, items[count - 1]).0, n);
        lemma_found_again(m, items, count - 1, n);
        lemma_member_again(before, items[count - 1], n);
    }
}

/// The positions that are left are those whose number is not one of the others.
proof fn lemma_unmatched(numbers: Seq<usize>, others: Seq<usize>, count: int)
    requires
        0 <= count <= numbers.len() <= usize::MAX,
    ensures
        forall|k: int|
            0 <= k < unmatched(numbers, others, count).len() ==> (#[trigger] unmatched(
                numbers,
                others,
                count,
            )[k]) < count && !others.contains(
                numbers[unmatched(numbers, others, count)[k] as int],
            ),
        forall|i: int|
            #![trigger numbers[i]]
            0 <= i < count && !others.contains(numbers[i]) ==> unmatched(
                numbers,
                others,
                count,
            ).contains(i as usize),
    decreases count,
{
    if count > 0 {
        lemma_unmatched(numbers, others, count - 1);
        let less: Seq<usize> = unmatched(numbers, others, count - 1);
        let all: Seq<usize> = unmatched(numbers, others, count);
        if !others.contains(numbers[count - 1]) {
            assert forall|i: int|
                #![trigger numbers[i]]
                0 <= i < count && !others.contains(numbers[i]) implies all.contains(i as usize) by {
                if i == count - 1 {
                    assert(all[less.len() as int] == i as usize);
                } else {
                    let k: int = choose|k: int| 0 <= k < less.len() && less[k] == i as usize;
                    assert(all[k] == i as usize);
                }
            }
        }
    }
}

// ---------------------------------------------------------------------
// Members that only one set has
// ---------------------------------------------------------------------

/// Whether a value is a member of one set that the other lacks, and is named by a step.
pub open spec fn only_in(
    n: MemoVal,
    members: Seq<Val>,
    others: Seq<Val>,
    step: Seg,
    value: Val,
) -> bool {
    exists|i: int|
        0 <= i < members.len() && #[trigger] members[i] == value && lacks(n, others, value) && step
            == Seg::SetItem(item_text(value))
}

/// Whether what was found under a step, if anything, is a member that one set alone has,
/// and whether something was found if there is such a member.
pub open spec fn told_apart_by(
    found: Option<Val>,
    n: MemoVal,
    members: Seq<Val>,
    others: Seq<Val>,
    step: Seg,
) -> bool {
    match found {
        Some(value) => only_in(n, members, others, step, value),
        None => forall|value: Val| !#[trigger] only_in(n, members, others, step, value),
    }
}

/// Whether a member at one of the positions from the `k`th on is named by a step.
spec fn named_from(
    items: Seq<Val>,
    positions: Seq<usize>,
    step: Seg,
    value: Val,
    k: int,
) -> bool {
    exists|l: int|
        k <= l < positions.len() && items[(#[trigger] positions[l]) as int] == value && step
            == Seg::SetItem(item_text(value))
}

proof fn lemma_named_next(
    items: Seq<Val>,
    positions: Seq<usize>,
    step: Seg,
    value: Val,
    k: int,
)
    requires
        0 <= k < positions.len(),
    ensures
        named_from(items, positions, step, value, k) <==> named_from(
            items,
            positions,
            step,
            value,
            k + 1,
        ) || (items[positions[k] as int] == value && step == Seg::SetItem(item_text(value))),
{
    if named_from(items, positions, step, value, k) {
        let l: int = choose|l: int|
            k <= l < positions.len() && items[(#[trigger] positions[l]) as int] == value && step
                == Seg::SetItem(item_text(value));
        if l > k {
            assert(items[positions[l] as int] == value);
        }
    }
    if named_from(items, positions, step, value, k + 1) {
        let l: int = choose|l: int|
            k + 1 <= l < positions.len() && items[(#[trigger] positions[l]) as int] == value
                && step == Seg::SetItem(item_text(value));
        assert(items[positions[l] as int] == value);
    }
}

/// What was found under a step once the members from the `k`th position on were met.
spec fn named_or(
    now: Option<Val>,
    was: Option<Val>,
    items: Seq<Val>,
    positions: Seq<usize>,
    step: Seg,
    k: int,
) -> bool {
    if exists|v: Val| #[trigger] named_from(items, positions, step, v, k) {
        now matches Some(v) && named_from(items, positions, step, v, k)
    } else {
        now == was
    }
}

proof fn lemma_named_or(
    now: Option<Val>,
    mid: Option<Val>,
    was: Option<Val>,
    items: Seq<Val>,
    positions: Seq<usize>,
    step: Seg,
    k: int,
)
    requires
        0 <= k < positions.len(),
        mid == (if step == Seg::SetItem(item_text(items[positions[k] as int])) {
            Some(items[positions[k] as int])
        } else {
            was
        }),
        named_or(now, mid, items, positions, step, k + 1),
    ensures
        named_or(now, was, items, positions, step, k),
{
    assert forall|v: Val| #[trigger] named_from(items, positions, step, v, k) == (named_from(
        items,
        positions,
        step,
        v,
        k + 1,
    ) || (items[positions[k] as int] == v && step == Seg::SetItem(item_text(v)))) by {
        lemma_named_next(items, positions, step, v, k);
    }
    if step == Seg::SetItem(item_text(items[positions[k] as int])) {
        assert(named_from(items, positions, step, items[positions[k] as int], k));
    }
    if exists|v: Val| #[trigger] named_from(items, positions, step, v, k + 1) {
        let v: Val = choose|v: Val| #[trigger] named_from(items, positions, step, v, k + 1);
        assert(named_from(items, positions, step, v, k));
    }
}

/// What is said of a member: that it is added, or that it is removed.
spec fn member_entry(added: bool, s: Spot) -> Option<Val> {
    if added {
        s.set_added
    } else {
        s.set_removed
    }
}

/// The members at positions are recorded, each under its name.
proof fn lemma_recorded(
    f: Findings,
    path: Seq<Seg>,
    items: Seq<Val>,
    positions: Seq<usize>,
    k: int,
    added: bool,
    depth: int,
    limit: int,
    h: Findings,
)
    requires
        orderly(f),
        0 <= k,
        members_outcome(f, path, items, positions, k, added, depth, limit) == Outcome::Ok(h),
    ensures
        orderly(h),
        forall|r: Seq<Seg>| #[trigger]
            spot(h, r) == if added {
                Spot { set_added: spot(h, r).set_added, ..spot(f, r) }
            } else {
                Spot { set_removed: spot(h, r).set_removed, ..spot(f, r) }
            },
        forall|r: Seq<Seg>|
            #[trigger] spot(h, r) != spot(f, r) ==> r.len() == path.len() + 1 && r == path.push(
                r.last(),
            ),
        forall|step: Seg|
            named_or(
                member_entry(added, #[trigger] spot(h, path.push(step))),
                member_entry(added, spot(f, path.push(step))),
                items,
                positions,
                step,
                k,
            ),
    decreases positions.len() - k,
{
    if k < positions.len() {
        let item: Val = items[positions[k] as int];
        let own: Seg = Seg::SetItem(item_text(item));
        let at: Seq<Seg> = member_path(path, item);
        let g: Findings = if added {
            with_set_added(f, at, item)
        } else {
            with_set_removed(f, at, item)
        };
        lemma_spot_with(f, at);
        lemma_recorded(g, path, items, positions, k + 1, added, depth, limit, h);
        assert forall|r: Seq<Seg>| #[trigger] spot(h, r) == if added {
            Spot { set_added: spot(h, r).set_added, ..spot(f, r) }
        } else {
            Spot { set_removed: spot(h, r).set_removed, ..spot(f, r) }
        } by {
            assert(spot(g, r) == if added {
                Spot { set_added: spot(g, r).set_added, ..spot(f, r) }
            } else {
                Spot { set_removed: spot(g, r).set_removed, ..spot(f, r) }
            });
        }
        assert forall|r: Seq<Seg>|
            #[trigger] spot(h, r) != spot(f, r) implies r.len() == path.len() + 1 && r
            == path.push(r.last()) by {
            if r != at {
                assert(spot(g, r) == spot(f, r));
            } else {
                assert(at.last() == own);
            }
        }
        assert forall|step: Seg|
            named_or(
                member_entry(added, #[trigger] spot(h, path.push(step))),
                member_entry(added, spot(f, path.push(step))),
                items,
                positions,
                step,
                k,
            ) by {
            let to: Seq<Seg> = path.push(step);
            if to == at {
                assert(to[path.len() as int] == at[path.len() as int]);
            }
            lemma_named_or(
                member_entry(added, spot(h, to)),
                member_entry(added, spot(g, to)),
                member_entry(added, spot(f, to)),
                items,
                positions,
                step,
                k,
            );
        }
    } else {
        assert forall|step: Seg, v: Val| !#[trigger] named_from(items, positions, step, v, k) by {}
    }
}

/// The members at the positions that are left are those that the other set lacks.
proof fn lemma_named_only(
    n: MemoVal,
    members: Seq<Val>,
    others: Seq<Val>,
    x: Seq<Member>,
    y: Seq<Member>,
    step: Seg,
    value: Val,
)
    requires
        members.len() <= usize::MAX,
        x.len() == members.len(),
        y.len() == others.len(),
        forall|i: int| 0 <= i < x.len() ==> (#[trigger] x[i]).0 == stands_for(n, members[i]),
        forall|j: int| 0 <= j < y.len() ==> (#[trigger] y[j]).0 == stands_for(n, others[j]),
    ensures
        named_from(members, unmatched(reps(x), reps(y), members.len() as int), step, value, 0)
            <==> only_in(n, members, others, step, value),
{
    let left: Seq<usize> = unmatched(reps(x), reps(y), members.len() as int);
    lemma_unmatched(reps(x), reps(y), members.len() as int);
    assert forall|i: int| 0 <= i < members.len() implies reps(y).contains(reps(x)[i]) == !lacks(
        n,
        others,
        #[trigger] members[i],
    ) by {
        assert(reps(x)[i] == x[i].0);
        if reps(y).contains(reps(x)[i]) {
            let j: int = choose|j: int| 0 <= j < reps(y).len() && reps(y)[j] == reps(x)[i];
            assert(y[j].0 == stands_for(n, others[j]));
        }
        if !lacks(n, others, members[i]) {
            let j: int = choose|j: int|
                0 <= j < others.len() && stands_for(n, #[trigger] others[j]) == stands_for(
                    n,
                    members[i],
                );
            assert(reps(y)[j] == y[j].0);
        }
    }
    if named_from(members, left, step, value, 0) {
        let l: int = choose|l: int|
            0 <= l < left.len() && members[(#[trigger] left[l]) as int] == value && step
                == Seg::SetItem(item_text(value));
        assert(lacks(n, others, members[left[l] as int]));
    }
    if only_in(n, members, others, step, value) {
        let i: int = choose|i: int|
            0 <= i < members.len() && #[trigger] members[i] == value && lacks(n, others, value)
                && step == Seg::SetItem(item_text(value));
        assert(!reps(y).contains(reps(x)[i]));
        assert(left.contains(i as usize));
        let l: int = choose|l: int| 0 <= l < left.len() && left[l] == i as usize;
        assert(members[left[l] as int] == value);
    }
}

/// Two sets, or two `frozenset`s: what is removed is a member of the first that the
/// second lacks, what is added is a member of the second that the first lacks, each
/// under its name; all such members are there; and nothing else is found.
pub proof fn lemma_set_members(
    m: MemoVal,
    path: Seq<Seg>,
    a: Val,
    b: Val,
    x: Seq<Val>,
    y: Seq<Val>,
    depth: int,
    opts: Rules,
    f: Findings,
)
    requires
        tables(m),
        (a == Val::MutableSet(x) && b == Val::MutableSet(y)) || (a == Val::FrozenSet(x) && b
            == Val::FrozenSet(y)),
        x.len() <= usize::MAX,
        y.len() <= usize::MAX,
        diff_of(m, path, a, b, depth, opts).1 == Outcome::Ok(f),
    ensures
        forall|step: Seg|
            told_apart_by(
                (#[trigger] spot(f, path.push(step))).set_removed,
                diff_of(m, path, a, b, depth, opts).0,
                x,
                y,
                step,
            ),
        forall|step: Seg|
            told_apart_by(
                (#[trigger] spot(f, path.push(step))).set_added,
                diff_of(m, path, a, b, depth, opts).0,
                y,
                x,
                step,
            ),
        forall|r: Seq<Seg>| #[trigger]
            spot(f, r) != bare() ==> r.len() == path.len() + 1 && r == path.push(r.last())
                && spot(f, r) == (Spot {
                set_added: spot(f, r).set_added,
                set_removed: spot(f, r).set_removed,
                ..bare()
            }),
{
    let limit: int = opts.max_depth as int;
    let n: MemoVal = diff_of(m, path, a, b, depth, opts).0;
    assert(diff_of(m, path, a, b, depth, opts) == set_outcome(m, path, x, y, depth, limit));
    let (l, p) = members_of(m, x, x.len() as int);
    let (k, q) = members_of(l, y, y.len() as int);
    assert(n == k);
    lemma_members(m, x, x.len() as int);
    lemma_members(l, y, y.len() as int);
    lemma_same(n);
    lemma_found_again(m, x, x.len() as int, n);
    lemma_found_again(l, y, y.len() as int, n);
    let (_, removed, added) = set_changes(m, x, y);
    let g: Findings = members_outcome(
        nothing(),
        path,
        x,
        removed,
        0,
        false,
        depth,
        limit,
    )->Ok_0;
    lemma_spot_nothing();
    lemma_recorded(nothing(), path, x, removed, 0, false, depth, limit, g);
    lemma_recorded(g, path, y, added, 0, true, depth, limit, f);
    assert forall|step: Seg|
        told_apart_by((#[trigger] spot(f, path.push(step))).set_removed, n, x, y, step)
            && told_apart_by(spot(f, path.push(step)).set_added, n, y, x, step) by {
        let to: Seq<Seg> = path.push(step);
        assert(spot(nothing(), to) == bare());
        assert(spot(f, to).set_removed == spot(g, to).set_removed);
        assert(spot(g, to).set_added is None);
        assert(named_or(spot(g, to).set_removed, None, x, removed, step, 0)) by {
            assert(member_entry(false, spot(g, to)) == spot(g, to).set_removed);
        }
        assert(named_or(spot(f, to).set_added, None, y, added, step, 0)) by {
            assert(member_entry(true, spot(f, to)) == spot(f, to).set_added);
        }
        assert forall|v: Val| #[trigger] only_in(n, x, y, step, v) == named_from(
            x,
            removed,
            step,
            v,
            0,
        ) by {
            lemma_named_only(n, x, y, p, q, step, v);
        }
        assert forall|v: Val| #[trigger] only_in(n, y, x, step, v) == named_from(
            y,
            added,
            step,
            v,
            0,
        ) by {
            lemma_named_only(n, y, x, q, p, step, v);
        }
    }
    assert forall|r: Seq<Seg>| #[trigger] spot(f, r) != bare() implies r.len() == path.len() + 1
        && r == path.push(r.last()) && spot(f, r) == (Spot {
        set_added: spot(f, r).set_added,
        set_removed: spot(f, r).set_removed,
        ..bare()
    }) by {
        assert(spot(nothing(), r) == bare());
        assert(spot(g, r) == (Spot { set_removed: spot(g, r).set_removed, ..bare() }));
        if spot(f, r) == spot(g, r) {
            assert(spot(g, r) != spot(nothing(), r));
        }
    }
}

// ---------------------------------------------------------------------
// Scalars
// ---------------------------------------------------------------------

/// Scalars are one as members where they are not told apart as items, and only there.
pub proof fn lemma_scalar_members(n: MemoVal, a: Val, b: Val)
    requires
        tables(n),
        scalar(a),
        scalar(b),
        n.items.len() <= usize::MAX,
        n.contents.len() <= usize::MAX,
        extends(member_of(n, a).0, n),
        extends(member_of(n, b).0, n),
    ensures
        stands_for(n, a) == stands_for(n, b) <==> alike(a, b),
{
    lemma_scalar_member(n, a);
    lemma_scalar_member(n, b);
}

/// What stands for a scalar that the tables hold.
proof fn lemma_scalar_member(n: MemoVal, a: Val)
    requires
        tables(n),
        scalar(a),
        n.items.len() <= usize::MAX,
        n.contents.len() <= usize::MAX,
        extends(member_of(n, a).0, n),
    ensures
        n.items.contains(scalar_item(a)),
        stands_for(n, a) < n.contents.len(),
        n.contents[stands_for(n, a) as int] == ContentVal::Scalar(
            slot(n.items, scalar_item(a)) as usize,
        ),
        slot(n.items, scalar_item(a)) < n.items.len(),
        n.items[slot(n.items, scalar_item(a)) as int] == scalar_item(a),
{
    let item: ItemVal = scalar_item(a);
    assert(children(a) =~= seq![]);
    assert(members_of(n, children(a), 0) == (n, Seq::<Member>::empty()));
    assert(member_of(n, a) == member_with(n, a, seq![]));
    let (l, number) = with_item(n, item);
    let content: ContentVal = ContentVal::Scalar(number);
    let (k, rep) = with_content(l, content);
    assert(member_of(n, a).0.items == k.items);
    assert(member_of(n, a).0.contents == k.contents);
    assert(with_key(n.items, item).len() <= n.items.len());
    assert(with_key(n.contents, content).len() <= n.contents.len());
    assert(n.items.contains(item));
    assert(n.contents.contains(content));
    n.items.index_of_first_ensures(item);
    let i: int = choose|i: int| 0 <= i < n.items.len() && n.items[i] == item;
    assert(n.items.index_of(item) == i);
    let c: int = choose|c: int| 0 <= c < n.contents.len() && n.contents[c] == content;
    assert(n.contents.index_of(content) == c);
}

} // verus!
