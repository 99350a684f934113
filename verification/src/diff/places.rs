//! Every finding stands where it was found: a change at the path of the comparison or
//! below it, all else below it, in the order of the paths.

use vstd::prelude::*;

#[allow(unused_imports)]
use super::lists::{
    added_run, added_tail, code_outcome, code_pairs, codes_outcome, item_path, pair_outcome,
    pairs_outcome, removed_run, removed_tail,
};
#[allow(unused_imports)]
use super::model::{
    added_at, array_of, budget, consumed, crest, diff_of, ends, entries_of, leftover, lemma_links,
    lemma_list_pivot, lemma_paired_links, lemma_resolve_nearer, links, list_links, lists_of,
    lone_entries, mixed_of, new_entries, object_of, object_step, paired_links, pairs_found,
    pairs_of, pivot, pivot_items, positional_of, removed_at, reserve, unordered_of, with_added,
    with_removed, Lists, Step,
};
#[allow(unused_imports)]
use super::options::Rules;
#[allow(unused_imports)]
use super::scalar::Outcome;
#[allow(unused_imports)]
use super::set::{member_path, members_outcome, set_outcome};
#[allow(unused_imports)]
use crate::ignore_order::candidates::{unpaired, Partners};
#[allow(unused_imports)]
use crate::ignore_order::dict_keys::partner;
#[allow(unused_imports)]
use crate::ignore_order::hash::HashedVal;
#[allow(unused_imports)]
use crate::ignore_order::members::set_changes;
#[allow(unused_imports)]
use crate::ignore_order::memo::MemoVal;
#[allow(unused_imports)]
use crate::lcs::{opcodes_of, Code};
#[allow(unused_imports)]
use crate::order::{
    ascending, lemma_lookup, lemma_put, lemma_without, lookup, put, put_all, without,
};
#[allow(unused_imports)]
use crate::path::{entry_seg, key_seg, Path, Seg};
#[allow(unused_imports)]
use crate::report::{
    lemma_drop_middle, lemma_same_keys, lemma_without_held, merged, mutual_merged, nothing,
    orderly, paired_from, rendered_index, retagged,
    with_attribute_added, with_attribute_removed, with_dict_added, with_dict_removed,
    with_item_added, with_item_removed, with_set_added, with_set_removed, with_type_change,
    with_value_change, Findings, Found, TypeChange, ValueChange,
};
#[allow(unused_imports)]
use crate::value::{KeyVal, ObjectVal, Val};

verus! {

// ---------------------------------------------------------------------
// Findings at or below a path
// ---------------------------------------------------------------------

/// Whether every path of a category leads on from a path, or is that path where it need
/// not lead on strictly.
pub open spec fn beneath<W>(found: Seq<(Seq<Seg>, W)>, path: Seq<Seg>, strictly: bool) -> bool {
    forall|i: int|
        0 <= i < found.len() ==> path.is_prefix_of((#[trigger] found[i]).0) && (strictly
            ==> path.len() < found[i].0.len())
}

/// Whether every finding stands at a path or below it: at the path itself only changes
/// do; and whether each category is in the order of its paths.
pub open spec fn within(f: Findings, path: Seq<Seg>) -> bool {
    &&& orderly(f)
    &&& beneath(f.type_changes, path, false)
    &&& beneath(f.values_changed, path, false)
    &&& beneath(f.dictionary_item_added, path, true)
    &&& beneath(f.dictionary_item_removed, path, true)
    &&& beneath(f.iterable_item_added, path, true)
    &&& beneath(f.iterable_item_removed, path, true)
    &&& beneath(f.attribute_added, path, true)
    &&& beneath(f.attribute_removed, path, true)
    &&& beneath(f.set_item_added, path, true)
    &&& beneath(f.set_item_removed, path, true)
}

/// Whether what was found, if anything, stands at a path or below it.
pub open spec fn found_within(found: Outcome, path: Seq<Seg>) -> bool {
    found matches Ok(f) ==> within(f, path)
}

/// Whether two categories share no path.
pub open spec fn unshared<W>(a: Seq<(Seq<Seg>, W)>, b: Seq<(Seq<Seg>, W)>) -> bool {
    forall|i: int, j: int|
        0 <= i < a.len() && 0 <= j < b.len() ==> (#[trigger] a[i]).0 != (#[trigger] b[j]).0
}

/// Whether two findings share no path in any category.
pub open spec fn disjoint(f: Findings, g: Findings) -> bool {
    &&& unshared(f.type_changes, g.type_changes)
    &&& unshared(f.values_changed, g.values_changed)
    &&& unshared(f.dictionary_item_added, g.dictionary_item_added)
    &&& unshared(f.dictionary_item_removed, g.dictionary_item_removed)
    &&& unshared(f.iterable_item_added, g.iterable_item_added)
    &&& unshared(f.iterable_item_removed, g.iterable_item_removed)
    &&& unshared(f.attribute_added, g.attribute_added)
    &&& unshared(f.attribute_removed, g.attribute_removed)
    &&& unshared(f.set_item_added, g.set_item_added)
    &&& unshared(f.set_item_removed, g.set_item_removed)
}

proof fn lemma_put_beneath<W>(
    found: Seq<(Seq<Seg>, W)>,
    at: Seq<Seg>,
    value: W,
    path: Seq<Seg>,
    strictly: bool,
)
    requires
        beneath(found, path, strictly),
        ascending::<Path, W>(found),
        path.is_prefix_of(at),
        strictly ==> path.len() < at.len(),
    ensures
        beneath(put::<Path, W>(found, at, value), path, strictly),
        ascending::<Path, W>(put::<Path, W>(found, at, value)),
{
    lemma_put::<Path, W>(found, at, value);
    let after: Seq<(Seq<Seg>, W)> = put::<Path, W>(found, at, value);
    assert forall|i: int| 0 <= i < after.len() implies path.is_prefix_of((#[trigger] after[i]).0)
        && (strictly ==> path.len() < after[i].0.len()) by {
        if after[i].0 != at {
            let j: int = choose|j: int| 0 <= j < found.len() && #[trigger] found[j] == after[i];
            assert(path.is_prefix_of(found[j].0));
        }
    }
}

proof fn lemma_put_all_beneath<W>(
    found: Seq<(Seq<Seg>, W)>,
    more: Seq<(Seq<Seg>, W)>,
    path: Seq<Seg>,
    strictly: bool,
)
    requires
        beneath(found, path, strictly),
        ascending::<Path, W>(found),
        beneath(more, path, strictly),
    ensures
        beneath(put_all::<Path, W>(found, more), path, strictly),
        ascending::<Path, W>(put_all::<Path, W>(found, more)),
    decreases more.len(),
{
    if more.len() > 0 {
        let front: Seq<(Seq<Seg>, W)> = more.drop_last();
        assert forall|i: int| 0 <= i < front.len() implies path.is_prefix_of(
            (#[trigger] front[i]).0,
        ) && (strictly ==> path.len() < front[i].0.len()) by {
            assert(front[i] == more[i]);
        }
        lemma_put_all_beneath(found, front, path, strictly);
        assert(path.is_prefix_of(more[more.len() - 1].0));
        lemma_put_beneath(
            put_all::<Path, W>(found, front),
            more.last().0,
            more.last().1,
            path,
            strictly,
        );
    }
}

/// One more finding at a path or below it.
proof fn lemma_with(f: Findings, at: Seq<Seg>, path: Seq<Seg>)
    requires
        within(f, path),
        path.is_prefix_of(at),
    ensures
        forall|c: TypeChange| within(#[trigger] with_type_change(f, at, c), path),
        forall|c: ValueChange| within(#[trigger] with_value_change(f, at, c), path),
        forall|v: Val| path.len() < at.len() ==> within(#[trigger] with_dict_added(f, at, v), path),
        forall|v: Val| path.len() < at.len() ==> within(#[trigger] with_dict_removed(f, at, v), path),
        forall|v: Val| path.len() < at.len() ==> within(#[trigger] with_item_added(f, at, v), path),
        forall|v: Val| path.len() < at.len() ==> within(#[trigger] with_item_removed(f, at, v), path),
        forall|v: Val| path.len() < at.len() ==> within(#[trigger] with_attribute_added(f, at, v), path),
        forall|v: Val| path.len() < at.len() ==> within(#[trigger] with_attribute_removed(f, at, v), path),
        forall|v: Val| path.len() < at.len() ==> within(#[trigger] with_set_added(f, at, v), path),
        forall|v: Val| path.len() < at.len() ==> within(#[trigger] with_set_removed(f, at, v), path),
{
    assert forall|c: TypeChange| within(#[trigger] with_type_change(f, at, c), path) by {
        lemma_put_beneath(f.type_changes, at, c, path, false);
    }
    assert forall|c: ValueChange| within(#[trigger] with_value_change(f, at, c), path) by {
        lemma_put_beneath(f.values_changed, at, c, path, false);
    }
    assert forall|v: Val| path.len() < at.len() implies within(
        #[trigger] with_dict_added(f, at, v),
        path,
    ) by {
        lemma_put_beneath(f.dictionary_item_added, at, v, path, true);
    }
    assert forall|v: Val| path.len() < at.len() implies within(
        #[trigger] with_dict_removed(f, at, v),
        path,
    ) by {
        lemma_put_beneath(f.dictionary_item_removed, at, v, path, true);
    }
    assert forall|v: Val| path.len() < at.len() implies within(
        #[trigger] with_item_added(f, at, v),
        path,
    ) by {
        lemma_put_beneath(f.iterable_item_added, at, v, path, true);
    }
    assert forall|v: Val| path.len() < at.len() implies within(
        #[trigger] with_item_removed(f, at, v),
        path,
    ) by {
        lemma_put_beneath(f.iterable_item_removed, at, v, path, true);
    }
    assert forall|v: Val| path.len() < at.len() implies within(
        #[trigger] with_attribute_added(f, at, v),
        path,
    ) by {
        lemma_put_beneath(f.attribute_added, at, v, path, true);
    }
    assert forall|v: Val| path.len() < at.len() implies within(
        #[trigger] with_attribute_removed(f, at, v),
        path,
    ) by {
        lemma_put_beneath(f.attribute_removed, at, v, path, true);
    }
    assert forall|v: Val| path.len() < at.len() implies within(
        #[trigger] with_set_added(f, at, v),
        path,
    ) by {
        lemma_put_beneath(f.set_item_added, at, v, path, true);
    }
    assert forall|v: Val| path.len() < at.len() implies within(
        #[trigger] with_set_removed(f, at, v),
        path,
    ) by {
        lemma_put_beneath(f.set_item_removed, at, v, path, true);
    }
}

proof fn lemma_merged_within(f: Findings, g: Findings, path: Seq<Seg>)
    requires
        within(f, path),
        within(g, path),
    ensures
        within(merged(f, g), path),
{
    lemma_put_all_beneath(f.type_changes, g.type_changes, path, false);
    lemma_put_all_beneath(f.values_changed, g.values_changed, path, false);
    lemma_put_all_beneath(f.dictionary_item_added, g.dictionary_item_added, path, true);
    lemma_put_all_beneath(f.dictionary_item_removed, g.dictionary_item_removed, path, true);
    lemma_put_all_beneath(f.iterable_item_added, g.iterable_item_added, path, true);
    lemma_put_all_beneath(f.iterable_item_removed, g.iterable_item_removed, path, true);
    lemma_put_all_beneath(f.attribute_added, g.attribute_added, path, true);
    lemma_put_all_beneath(f.attribute_removed, g.attribute_removed, path, true);
    lemma_put_all_beneath(f.set_item_added, g.set_item_added, path, true);
    lemma_put_all_beneath(f.set_item_removed, g.set_item_removed, path, true);
}

proof fn lemma_beneath_wider<W>(
    found: Seq<(Seq<Seg>, W)>,
    below: Seq<Seg>,
    path: Seq<Seg>,
    strictly: bool,
)
    requires
        beneath(found, below, strictly),
        path.is_prefix_of(below),
    ensures
        beneath(found, path, strictly),
{
    assert forall|i: int| 0 <= i < found.len() implies path.is_prefix_of(
        (#[trigger] found[i]).0,
    ) && (strictly ==> path.len() < found[i].0.len()) by {
        let whole: Seq<Seg> = found[i].0;
        assert(below.is_prefix_of(whole));
        assert(path =~= whole.subrange(0, path.len() as int)) by {
            assert forall|k: int| 0 <= k < path.len() implies path[k] == whole[k] by {
                assert(path[k] == below.subrange(0, path.len() as int)[k]);
                assert(below[k] == whole.subrange(0, below.len() as int)[k]);
            }
        }
    }
}

/// What stands below a path stands below every path that leads to it.
proof fn lemma_within_wider(f: Findings, below: Seq<Seg>, path: Seq<Seg>)
    requires
        within(f, below),
        path.is_prefix_of(below),
    ensures
        within(f, path),
{
    lemma_beneath_wider(f.type_changes, below, path, false);
    lemma_beneath_wider(f.values_changed, below, path, false);
    lemma_beneath_wider(f.dictionary_item_added, below, path, true);
    lemma_beneath_wider(f.dictionary_item_removed, below, path, true);
    lemma_beneath_wider(f.iterable_item_added, below, path, true);
    lemma_beneath_wider(f.iterable_item_removed, below, path, true);
    lemma_beneath_wider(f.attribute_added, below, path, true);
    lemma_beneath_wider(f.attribute_removed, below, path, true);
    lemma_beneath_wider(f.set_item_added, below, path, true);
    lemma_beneath_wider(f.set_item_removed, below, path, true);
}

/// A step leads on from a path.
proof fn lemma_step(path: Seq<Seg>, step: Seg)
    ensures
        path.is_prefix_of(path.push(step)),
        path.is_prefix_of(path),
{
    assert(path =~= path.push(step).subrange(0, path.len() as int));
    assert(path =~= path.subrange(0, path.len() as int));
}

/// What was found one step on is merged in.
proof fn lemma_merged_step(f: Findings, g: Findings, path: Seq<Seg>, step: Seg)
    requires
        within(f, path),
        within(g, path.push(step)),
    ensures
        within(merged(f, g), path),
{
    lemma_step(path, step);
    lemma_within_wider(g, path.push(step), path);
    lemma_merged_within(f, g, path);
}

/// Retagging the paths of new values leaves all findings where they stand.
pub proof fn lemma_retagged_within(f: Findings, depth: int, index: int, path: Seq<Seg>)
    requires
        within(f, path),
    ensures
        within(retagged(f, depth, index), path),
{
    let g: Findings = retagged(f, depth, index);
    assert forall|i: int| 0 <= i < g.type_changes.len() implies path.is_prefix_of(
        (#[trigger] g.type_changes[i]).0,
    ) by {
        assert(path.is_prefix_of(f.type_changes[i].0));
    }
    assert forall|i: int| 0 <= i < g.values_changed.len() implies path.is_prefix_of(
        (#[trigger] g.values_changed[i]).0,
    ) by {
        assert(path.is_prefix_of(f.values_changed[i].0));
    }
    lemma_same_keys::<Path, TypeChange>(f.type_changes, g.type_changes);
    lemma_same_keys::<Path, ValueChange>(f.values_changed, g.values_changed);
}

proof fn lemma_paired_within(
    index: Seq<(Seq<char>, Seq<Seg>)>,
    rest: Found,
    kept: Found,
    removed: Found,
    changed: Seq<(Seq<Seg>, ValueChange)>,
    path: Seq<Seg>,
)
    requires
        beneath(rest, path, true),
        beneath(kept, path, true),
        beneath(removed, path, true),
        beneath(changed, path, false),
        ascending::<Path, Val>(kept + rest),
        ascending::<Path, Val>(removed),
        ascending::<Path, ValueChange>(changed),
    ensures
        ({
            let paired = paired_from(index, rest, kept, removed, changed);
            &&& beneath(paired.added, path, true)
            &&& beneath(paired.removed, path, true)
            &&& beneath(paired.changed, path, false)
            &&& ascending::<Path, Val>(paired.added)
            &&& ascending::<Path, Val>(paired.removed)
            &&& ascending::<Path, ValueChange>(paired.changed)
        }),
    decreases rest.len(),
{
    if rest.len() > 0 {
        let (at, value) = rest[0];
        let left: Found = rest.drop_first();
        assert forall|i: int| 0 <= i < left.len() implies path.is_prefix_of(
            (#[trigger] left[i]).0,
        ) && path.len() < left[i].0.len() by {
            assert(left[i] == rest[i + 1]);
        }
        let old: Option<Seq<Seg>> = lookup(index, crate::path::path_text(at));
        if old is Some && lookup(removed, old->Some_0) is Some {
            let from: Seq<Seg> = old->Some_0;
            let gone: Val = lookup(removed, from)->Some_0;
            lemma_lookup(removed, from);
            let k: int = choose|k: int|
                0 <= k < removed.len() && #[trigger] removed[k] == (from, gone);
            assert(path.is_prefix_of(removed[k].0));
            let less: Found = without(removed, from);
            assert forall|i: int| 0 <= i < less.len() implies path.is_prefix_of(
                (#[trigger] less[i]).0,
            ) && path.len() < less[i].0.len() by {
                lemma_without_held(removed, from, i);
                let j: int = choose|j: int| 0 <= j < removed.len() && removed[j] == less[i];
                assert(path.is_prefix_of(removed[j].0));
            }
            let change: ValueChange = ValueChange {
                old_value: gone,
                new_value: value,
                new_path: None,
                diff: None,
            };
            lemma_put_beneath(changed, from, change, path, false);
            lemma_without::<Path, Val>(removed, k);
            lemma_drop_middle::<Path, Val>(kept, rest);
            lemma_paired_within(
                index,
                left,
                kept,
                less,
                put::<Path, ValueChange>(changed, from, change),
                path,
            );
        } else {
            assert(path.is_prefix_of(rest[0].0));
            let more: Found = kept.push(rest[0]);
            assert forall|i: int| 0 <= i < more.len() implies path.is_prefix_of(
                (#[trigger] more[i]).0,
            ) && path.len() < more[i].0.len() by {
                if i < kept.len() {
                    assert(more[i] == kept[i]);
                }
            }
            assert(more + left =~= kept + rest);
            lemma_paired_within(index, left, more, removed, changed, path);
        }
    } else {
        assert(kept + rest =~= kept);
    }
}

/// Merging mutual items leaves all findings below their path.
pub proof fn lemma_mutual_within(f: Findings, path: Seq<Seg>)
    requires
        within(f, path),
    ensures
        within(mutual_merged(f), path),
{
    assert(Seq::<(Seq<Seg>, Val)>::empty() + f.iterable_item_added =~= f.iterable_item_added);
    lemma_paired_within(
        rendered_index(f.iterable_item_removed),
        f.iterable_item_added,
        seq![],
        f.iterable_item_removed,
        f.values_changed,
        path,
    );
}

// ---------------------------------------------------------------------
// Lists of findings
// ---------------------------------------------------------------------

proof fn lemma_removed_run_within(
    f: Findings,
    path: Seq<Seg>,
    a: Seq<Val>,
    i: int,
    stop: int,
)
    requires
        within(f, path),
    ensures
        within(removed_run(f, path, a, i, stop), path),
    decreases stop - i,
{
    if i < stop {
        lemma_step(path, Seg::Index(i));
        lemma_with(f, item_path(path, i), path);
        lemma_removed_run_within(
            with_item_removed(f, item_path(path, i), a[i]),
            path,
            a,
            i + 1,
            stop,
        );
    }
}

proof fn lemma_added_run_within(
    f: Findings,
    path: Seq<Seg>,
    b: Seq<Val>,
    i: int,
    stop: int,
)
    requires
        within(f, path),
    ensures
        within(added_run(f, path, b, i, stop), path),
    decreases stop - i,
{
    if i < stop {
        lemma_step(path, Seg::Index(i));
        lemma_with(f, item_path(path, i), path);
        lemma_added_run_within(
            with_item_added(f, item_path(path, i), b[i]),
            path,
            b,
            i + 1,
            stop,
        );
    }
}

proof fn lemma_pairs_within(
    f: Findings,
    path: Seq<Seg>,
    a: Seq<Val>,
    b: Seq<Val>,
    i: int,
    j: int,
    k: int,
    count: int,
    depth: int,
    limit: int,
)
    requires
        within(f, path),
    ensures
        found_within(pairs_outcome(f, path, a, b, i, j, k, count, depth, limit), path),
    decreases count - k,
{
    if k < count {
        let g: Outcome = pair_outcome(f, path, a, b, i + k, j + k, depth, limit);
        lemma_step(path, Seg::Index(i + k));
        lemma_with(f, item_path(path, i + k), path);
        if g is Ok {
            lemma_pairs_within(g->Ok_0, path, a, b, i, j, k + 1, count, depth, limit);
        }
    }
}

proof fn lemma_codes_within(
    f: Findings,
    path: Seq<Seg>,
    a: Seq<Val>,
    b: Seq<Val>,
    codes: Seq<Code>,
    k: int,
    depth: int,
    limit: int,
)
    requires
        within(f, path),
    ensures
        found_within(codes_outcome(f, path, a, b, codes, k, depth, limit), path),
    decreases codes.len() - k,
{
    if 0 <= k < codes.len() {
        let c: Code = codes[k];
        let g: Outcome = code_outcome(f, path, a, b, c, depth, limit);
        let count: int = code_pairs(c);
        lemma_removed_run_within(f, path, a, c.a1, c.a2);
        lemma_added_run_within(f, path, b, c.b1, c.b2);
        let h: Outcome = pairs_outcome(f, path, a, b, c.a1, c.b1, 0, count, depth, limit);
        lemma_pairs_within(f, path, a, b, c.a1, c.b1, 0, count, depth, limit);
        if h is Ok {
            lemma_removed_run_within(h->Ok_0, path, a, c.a1 + count, c.a2);
            lemma_added_run_within(
                removed_run(h->Ok_0, path, a, c.a1 + count, c.a2),
                path,
                b,
                c.b1 + count,
                c.b2,
            );
        }
        if g is Ok {
            lemma_codes_within(g->Ok_0, path, a, b, codes, k + 1, depth, limit);
        }
    }
}

proof fn lemma_removed_tail_within(
    f: Findings,
    path: Seq<Seg>,
    a: Seq<Val>,
    i: int,
    depth: int,
    limit: int,
)
    requires
        within(f, path),
    ensures
        found_within(removed_tail(f, path, a, i, depth, limit), path),
    decreases a.len() - i,
{
    if i < a.len() {
        lemma_step(path, Seg::Index(i));
        lemma_with(f, item_path(path, i), path);
        let g: Findings = with_item_removed(f, item_path(path, i), a[i]);
        lemma_removed_tail_within(g, path, a, i + 1, depth, limit);
    }
}

proof fn lemma_added_tail_within(
    f: Findings,
    path: Seq<Seg>,
    b: Seq<Val>,
    i: int,
    depth: int,
    limit: int,
)
    requires
        within(f, path),
    ensures
        found_within(added_tail(f, path, b, i, depth, limit), path),
    decreases b.len() - i,
{
    if i < b.len() {
        lemma_step(path, Seg::Index(i));
        lemma_with(f, item_path(path, i), path);
        let g: Findings = with_item_added(f, item_path(path, i), b[i]);
        lemma_added_tail_within(g, path, b, i + 1, depth, limit);
    }
}

proof fn lemma_members_within(
    f: Findings,
    path: Seq<Seg>,
    items: Seq<Val>,
    positions: Seq<usize>,
    k: int,
    added: bool,
    depth: int,
    limit: int,
)
    requires
        within(f, path),
    ensures
        found_within(
            members_outcome(f, path, items, positions, k, added, depth, limit),
            path,
        ),
    decreases positions.len() - k,
{
    if 0 <= k < positions.len() {
        let item: Val = items[positions[k] as int];
        let at: Seq<Seg> = member_path(path, item);
        lemma_step(path, at.last());
        assert(at == path.push(at.last()));
        lemma_with(f, at, path);
        let g: Findings = if added {
            with_set_added(f, at, item)
        } else {
            with_set_removed(f, at, item)
        };
        lemma_members_within(g, path, items, positions, k + 1, added, depth, limit);
    }
}

proof fn lemma_new_entries_within(
    f: Findings,
    path: Seq<Seg>,
    p: ObjectVal,
    q: ObjectVal,
    i: int,
    depth: int,
    limit: int,
)
    requires
        within(f, path),
    ensures
        found_within(new_entries(f, path, p, q, i, depth, limit), path),
    decreases q.entries.len() - i,
{
    if 0 <= i < q.entries.len() {
        let (key, value) = q.entries[i];
        let step: Seg = entry_seg(p.kind, key);
        lemma_step(path, step);
        lemma_with(f, path.push(step), path);
        let g: Findings = if lookup(p.entries, key) is Some {
            f
        } else {
            with_added(f, p.kind, path.push(step), value)
        };
        lemma_new_entries_within(g, path, p, q, i + 1, depth, limit);
    }
}

proof fn lemma_lone_within(
    f: Findings,
    path: Seq<Seg>,
    entries: Seq<(KeyVal, Val)>,
    others: Seq<(KeyVal, Val)>,
    i: int,
    added: bool,
    depth: int,
    limit: int,
)
    requires
        within(f, path),
    ensures
        found_within(
            lone_entries(f, path, entries, others, i, added, depth, limit),
            path,
        ),
    decreases entries.len() - i,
{
    if 0 <= i < entries.len() {
        let (key, value) = entries[i];
        let step: Seg = key_seg(key);
        lemma_step(path, step);
        lemma_with(f, path.push(step), path);
        let g: Findings = if partner(others, key) is Some {
            f
        } else if added {
            with_dict_added(f, path.push(step), value)
        } else {
            with_dict_removed(f, path.push(step), value)
        };
        lemma_lone_within(g, path, entries, others, i + 1, added, depth, limit);
    }
}

proof fn lemma_set_within(
    m: MemoVal,
    path: Seq<Seg>,
    a: Seq<Val>,
    b: Seq<Val>,
    depth: int,
    limit: int,
)
    ensures
        found_within(set_outcome(m, path, a, b, depth, limit).1, path),
{
    let (n, removed, added) = set_changes(m, a, b);
    let f: Outcome = members_outcome(nothing(), path, a, removed, 0, false, depth, limit);
    lemma_members_within(nothing(), path, a, removed, 0, false, depth, limit);
    if f is Ok {
        lemma_members_within(f->Ok_0, path, b, added, 0, true, depth, limit);
    }
}

proof fn lemma_leftover_within(
    f: Findings,
    path: Seq<Seg>,
    items: Seq<Val>,
    list: HashedVal,
    removed: Seq<usize>,
    partners: Partners,
    r: int,
)
    requires
        within(f, path),
    ensures
        within(leftover(f, path, items, list, removed, partners, r), path),
    decreases removed.len() - r,
{
    if 0 <= r < removed.len() {
        let i: int = list.firsts[removed[r] as int] as int;
        lemma_step(path, Seg::Index(i));
        lemma_with(f, item_path(path, i), path);
        let g: Findings = if consumed(partners, r as usize) {
            f
        } else {
            with_item_removed(f, item_path(path, i), items[i])
        };
        lemma_leftover_within(g, path, items, list, removed, partners, r + 1);
    }
}

// ---------------------------------------------------------------------
// The recursion
// ---------------------------------------------------------------------

/// What a comparison at a path finds stands at that path or below it, at that path
/// itself only a change, and each category in the order of its paths, no path twice.
pub proof fn lemma_found_below(
    m: MemoVal,
    path: Seq<Seg>,
    a: Val,
    b: Val,
    depth: int,
    opts: Rules,
)
    ensures
        found_within(diff_of(m, path, a, b, depth, opts).1, path),
    decreases
            budget(depth, opts.max_depth as int),
            links(opts, a, b),
            pivot(opts, a, b),
            9int,
            ends(opts, a, b),
            0int,
{
    let limit: int = opts.max_depth as int;
    lemma_step(path, Seg::Index(0));
    lemma_with(nothing(), path, path);
    if depth <= limit {
        match (a, b) {
            (Val::Array(x), Val::Array(y)) => {
                lemma_list_pivot(opts, a, b);
                lemma_array_below(m, path, x, y, depth, opts);
            },
            (Val::Tuple(x), Val::Tuple(y)) => {
                lemma_list_pivot(opts, a, b);
                lemma_array_below(m, path, x, y, depth, opts);
            },
            (Val::MutableSet(x), Val::MutableSet(y)) => lemma_set_within(
                m,
                path,
                x,
                y,
                depth,
                limit,
            ),
            (Val::FrozenSet(x), Val::FrozenSet(y)) => lemma_set_within(
                m,
                path,
                x,
                y,
                depth,
                limit,
            ),
            _ => {
                if a is Object || b is Object {
                    lemma_resolve_nearer(opts, a, b);
                    match object_step(opts, a, b) {
                        Step::Resolve(x, y) => lemma_found_below(m, path, x, y, depth, opts),
                        Step::Walk(p, q) => lemma_object_below(m, path, p, q, depth, opts),
                        _ => {},
                    }
                }
            },
        }
    }
}

proof fn lemma_array_below(
    m: MemoVal,
    path: Seq<Seg>,
    x: Seq<Val>,
    y: Seq<Val>,
    depth: int,
    opts: Rules,
)
    requires
        depth <= opts.max_depth,
    ensures
        found_within(array_of(m, path, x, y, depth, opts).1, path),
    decreases
            budget(depth, opts.max_depth as int),
            list_links(opts, x, y),
            pivot_items(opts, x, y),
            7int,
            0int,
            0int,
{
    if opts.ignore_order {
        lemma_unordered_below(m, path, x, y, depth, opts);
    } else {
        lemma_codes_within(
            nothing(),
            path,
            x,
            y,
            opcodes_of(x, y, false),
            0,
            depth,
            opts.max_depth as int,
        );
        lemma_positional_below(m, path, x, y, depth, opts, 0, nothing());
    }
}

proof fn lemma_positional_below(
    m: MemoVal,
    path: Seq<Seg>,
    x: Seq<Val>,
    y: Seq<Val>,
    depth: int,
    opts: Rules,
    i: int,
    f: Findings,
)
    requires
        within(f, path),
    ensures
        found_within(positional_of(m, path, x, y, depth, opts, i, f).1, path),
    decreases budget(depth + 1, opts.max_depth as int), crest(opts), x, 0int, x.len() - i, 0int,
{
    let limit: int = opts.max_depth as int;
    if 0 <= i < x.len() && i < y.len() {
        let at: Seq<Seg> = item_path(path, i);
        let (n, found) = diff_of(m, at, x[i], y[i], depth + 1, opts);
        lemma_links(opts, x[i], y[i]);
        lemma_found_below(m, at, x[i], y[i], depth + 1, opts);
        if found is Ok {
            lemma_merged_step(f, found->Ok_0, path, Seg::Index(i));
            lemma_positional_below(
                n,
                path,
                x,
                y,
                depth,
                opts,
                i + 1,
                merged(f, found->Ok_0),
            );
        }
    } else {
        let g: Outcome = removed_tail(f, path, x, i, depth, limit);
        lemma_removed_tail_within(f, path, x, i, depth, limit);
        if g is Ok {
            lemma_added_tail_within(g->Ok_0, path, y, i, depth, limit);
        }
    }
}

proof fn lemma_object_below(
    m: MemoVal,
    path: Seq<Seg>,
    p: ObjectVal,
    q: ObjectVal,
    depth: int,
    opts: Rules,
)
    ensures
        found_within(object_of(m, path, p, q, depth, opts).1, path),
    decreases budget(depth + 1, opts.max_depth as int), crest(opts), p, 1int, 0int, 0int,
{
    lemma_step(path, Seg::Index(0));
    lemma_with(nothing(), path, path);
    lemma_mixed_below(m, path, p, q, depth, opts, 0, nothing());
    lemma_entries_below(m, path, p, q, depth, opts, 0, nothing());
}

proof fn lemma_entries_below(
    m: MemoVal,
    path: Seq<Seg>,
    p: ObjectVal,
    q: ObjectVal,
    depth: int,
    opts: Rules,
    i: int,
    f: Findings,
)
    requires
        within(f, path),
    ensures
        found_within(entries_of(m, path, p, q, depth, opts, i, f).1, path),
    decreases
            budget(depth + 1, opts.max_depth as int),
            crest(opts),
            p,
            0int,
            p.entries.len() - i,
            0int,
{
    if 0 <= i < p.entries.len() {
        let (key, value) = p.entries[i];
        let step: Seg = entry_seg(p.kind, key);
        let at: Seq<Seg> = path.push(step);
        match lookup(q.entries, key) {
            None => {
                lemma_step(path, step);
                lemma_with(f, at, path);
                lemma_entries_below(
                    m,
                    path,
                    p,
                    q,
                    depth,
                    opts,
                    i + 1,
                    with_removed(f, p.kind, at, value),
                );
            },
            Some(other) => {
                let (n, found) = diff_of(m, at, value, other, depth + 1, opts);
                lemma_links(opts, value, other);
                lemma_found_below(m, at, value, other, depth + 1, opts);
                if found is Ok {
                    lemma_merged_step(f, found->Ok_0, path, step);
                    lemma_entries_below(
                        n,
                        path,
                        p,
                        q,
                        depth,
                        opts,
                        i + 1,
                        merged(f, found->Ok_0),
                    );
                }
            },
        }
    } else {
        lemma_new_entries_within(f, path, p, q, 0, depth, opts.max_depth as int);
    }
}

proof fn lemma_mixed_below(
    m: MemoVal,
    path: Seq<Seg>,
    p: ObjectVal,
    q: ObjectVal,
    depth: int,
    opts: Rules,
    i: int,
    f: Findings,
)
    requires
        within(f, path),
    ensures
        found_within(mixed_of(m, path, p, q, depth, opts, i, f).1, path),
    decreases
            budget(depth + 1, opts.max_depth as int),
            crest(opts),
            p,
            0int,
            p.entries.len() - i,
            0int,
{
    let limit: int = opts.max_depth as int;
    if 0 <= i < p.entries.len() {
        match partner(q.entries, p.entries[i].0) {
            None => lemma_mixed_below(m, path, p, q, depth, opts, i + 1, f),
            Some(j) => {
                let step: Seg = key_seg(q.entries[j].0);
                let at: Seq<Seg> = path.push(step);
                let value: Val = p.entries[i].1;
                let other: Val = q.entries[j].1;
                let (n, found) = diff_of(m, at, value, other, depth + 1, opts);
                lemma_links(opts, value, other);
                lemma_found_below(m, at, value, other, depth + 1, opts);
                if found is Ok {
                    lemma_merged_step(f, found->Ok_0, path, step);
                    lemma_mixed_below(
                        n,
                        path,
                        p,
                        q,
                        depth,
                        opts,
                        i + 1,
                        merged(f, found->Ok_0),
                    );
                }
            },
        }
    } else {
        let g: Outcome = lone_entries(f, path, p.entries, q.entries, 0, false, depth, limit);
        lemma_lone_within(f, path, p.entries, q.entries, 0, false, depth, limit);
        if g is Ok {
            lemma_lone_within(g->Ok_0, path, q.entries, p.entries, 0, true, depth, limit);
        }
    }
}

proof fn lemma_unordered_below(
    m: MemoVal,
    path: Seq<Seg>,
    x: Seq<Val>,
    y: Seq<Val>,
    depth: int,
    opts: Rules,
)
    requires
        depth <= opts.max_depth,
    ensures
        found_within(unordered_of(m, path, x, y, depth, opts).1, path),
    decreases
            reserve(depth, opts.max_depth as int),
            paired_links(opts, x, y),
            pivot_items(opts, x, y),
            6int,
            0int,
            0int,
{
    let (l, lists) = lists_of(m, x, y);
    let (k, partners) = pairs_of(l, lists, depth, opts);
    lemma_paired_below(k, path, lists, partners, depth, opts, 0, nothing());
    lemma_paired_below(
        l,
        path,
        lists,
        unpaired(lists.added.len()),
        depth,
        opts,
        0,
        nothing(),
    );
}

proof fn lemma_paired_below(
    m: MemoVal,
    path: Seq<Seg>,
    lists: Lists,
    partners: Partners,
    depth: int,
    opts: Rules,
    k: int,
    f: Findings,
)
    requires
        within(f, path),
        depth <= opts.max_depth,
    ensures
        found_within(pairs_found(m, path, lists, partners, depth, opts, k, f).1, path),
    decreases
            reserve(depth, opts.max_depth as int),
            paired_links(opts, lists.old, lists.new),
            pivot_items(opts, lists.old, lists.new),
            1int,
            lists.added.len() - k,
            0int,
{
    if 0 <= k < lists.added.len() {
        let j: int = added_at(lists, k);
        let new_value: Val = lists.new[j];
        match partners[k] {
            Some(p) => {
                let i: int = removed_at(lists, p.0 as int);
                if 0 <= i < lists.old.len() && 0 <= j < lists.new.len() {
                    let at: Seq<Seg> = item_path(path, i);
                    let (n, found) = diff_of(m, at, lists.old[i], new_value, depth, opts);
                    lemma_paired_links(opts, lists.old, lists.new, i, j);
                    lemma_found_below(m, at, lists.old[i], new_value, depth, opts);
                    if found is Ok {
                        let g: Findings = mutual_merged(found->Ok_0);
                        lemma_mutual_within(found->Ok_0, at);
                        lemma_retagged_within(g, path.len() as int, j, at);
                        let g: Findings = if i != j {
                            retagged(g, path.len() as int, j)
                        } else {
                            g
                        };
                        lemma_merged_step(f, g, path, Seg::Index(i));
                        lemma_paired_below(
                            n,
                            path,
                            lists,
                            partners,
                            depth,
                            opts,
                            k + 1,
                            merged(f, g),
                        );
                    }
                }
            },
            None => {
                lemma_step(path, Seg::Index(j));
                lemma_with(f, item_path(path, j), path);
                lemma_paired_below(
                    m,
                    path,
                    lists,
                    partners,
                    depth,
                    opts,
                    k + 1,
                    with_item_added(f, item_path(path, j), new_value),
                );
            },
        }
    } else {
        lemma_leftover_within(f, path, lists.old, lists.first, lists.removed, partners, 0);
    }
}

proof fn lemma_unshared<W>(
    a: Seq<(Seq<Seg>, W)>,
    b: Seq<(Seq<Seg>, W)>,
    path: Seq<Seg>,
    step: Seg,
    other: Seg,
)
    requires
        step != other,
        beneath(a, path.push(step), false),
        beneath(b, path.push(other), false),
    ensures
        unshared(a, b),
{
    assert forall|i: int, j: int| 0 <= i < a.len() && 0 <= j < b.len() implies (
    #[trigger] a[i]).0 != (#[trigger] b[j]).0 by {
        let n: int = path.len() as int;
        assert(path.push(step).is_prefix_of(a[i].0));
        assert(path.push(other).is_prefix_of(b[j].0));
        assert(a[i].0.subrange(0, n + 1)[n] == path.push(step)[n]);
        assert(b[j].0.subrange(0, n + 1)[n] == path.push(other)[n]);
    }
}

/// What is found below two different steps shares no path in any category, so
/// that neither takes the other's place when both are merged.
pub proof fn lemma_steps_disjoint(
    f: Findings,
    g: Findings,
    path: Seq<Seg>,
    step: Seg,
    other: Seg,
)
    requires
        step != other,
        within(f, path.push(step)),
        within(g, path.push(other)),
    ensures
        disjoint(f, g),
{
    lemma_unshared(f.type_changes, g.type_changes, path, step, other);
    lemma_unshared(f.values_changed, g.values_changed, path, step, other);
    lemma_unshared(f.dictionary_item_added, g.dictionary_item_added, path, step, other);
    lemma_unshared(f.dictionary_item_removed, g.dictionary_item_removed, path, step, other);
    lemma_unshared(f.iterable_item_added, g.iterable_item_added, path, step, other);
    lemma_unshared(f.iterable_item_removed, g.iterable_item_removed, path, step, other);
    lemma_unshared(f.attribute_added, g.attribute_added, path, step, other);
    lemma_unshared(f.attribute_removed, g.attribute_removed, path, step, other);
    lemma_unshared(f.set_item_added, g.set_item_added, path, step, other);
    lemma_unshared(f.set_item_removed, g.set_item_removed, path, step, other);
}

} // verus!
