//! What becomes of items that are added and removed at one rendered path.

use vstd::prelude::*;

#[allow(unused_imports)]
use crate::order::{
    ascending, lemma_lookup, lemma_lookup_at, lemma_lookup_without, lemma_put, lemma_put_all,
    lookup, put, without,
};
#[allow(unused_imports)]
use crate::path::{path_text, Path, Seg};
#[allow(unused_imports)]
use crate::report::{
    lemma_no_mutual_left, mutual_merged, none_mutual, paired_from, rendered_apart, rendered_index,
    Findings, Found, Paired, ValueChange,
};
#[allow(unused_imports)]
use crate::value::Val;

verus! {

/// Whether one of the items renders to a text.
pub open spec fn renders(found: Found, text: Seq<char>) -> bool {
    exists|i: int| 0 <= i < found.len() && path_text((#[trigger] found[i]).0) == text
}

/// The change that a removed value and an added one become.
pub open spec fn exchange(old_value: Val, new_value: Val) -> ValueChange {
    ValueChange { old_value, new_value, new_path: None, diff: None }
}

/// The items that do not render as one of the others does.
pub open spec fn alone(found: Found, others: Found) -> Found
    decreases found.len(),
{
    if found.len() == 0 {
        seq![]
    } else if renders(others, path_text(found.last().0)) {
        alone(found.drop_last(), others)
    } else {
        alone(found.drop_last(), others).push(found.last())
    }
}

/// What is found among the items left alone.
proof fn lemma_alone(found: Found, others: Found, path: Seq<Seg>)
    ensures
        lookup(alone(found, others), path) == if renders(others, path_text(path)) {
            None
        } else {
            lookup(found, path)
        },
    decreases found.len(),
{
    if found.len() > 0 {
        let front: Found = found.drop_last();
        lemma_alone(front, others, path);
        if !renders(others, path_text(found.last().0)) {
            assert(alone(found, others).drop_last() =~= alone(front, others));
        }
    }
}

/// The first item stays in front of those left alone, or is gone.
proof fn lemma_alone_first(found: Found, others: Found)
    requires
        found.len() > 0,
    ensures
        alone(found, others) == if renders(others, path_text(found[0].0)) {
            alone(found.drop_first(), others)
        } else {
            seq![found[0]] + alone(found.drop_first(), others)
        },
    decreases found.len(),
{
    let rest: Found = found.drop_first();
    if found.len() == 1 {
        reveal_with_fuel(alone, 2);
        assert(found.drop_last() =~= seq![]);
        assert(rest =~= seq![]);
        assert(alone(found, others) =~= if renders(others, path_text(found[0].0)) {
            alone(rest, others)
        } else {
            seq![found[0]] + alone(rest, others)
        });
    } else {
        lemma_alone_first(found.drop_last(), others);
        assert(found.drop_last().drop_first() =~= rest.drop_last());
        assert(rest.last() == found.last());
        assert(alone(found, others) =~= if renders(others, path_text(found[0].0)) {
            alone(rest, others)
        } else {
            seq![found[0]] + alone(rest, others)
        });
    }
}

/// What a text leads to is a removed item that renders to it.
proof fn lemma_index_held(removed: Found, text: Seq<char>)
    ensures
        lookup(rendered_index(removed), text) matches Some(path) ==> exists|k: int|
            0 <= k < removed.len() && (#[trigger] removed[k]).0 == path && path_text(path) == text,
        lookup(rendered_index(removed), text) is None ==> !renders(removed, text),
{
    let texts: Seq<(Seq<char>, Seq<Seg>)> = Seq::new(
        removed.len(),
        |i: int| (path_text(removed[i].0), removed[i].0),
    );
    lemma_put_all::<String, Seq<Seg>>(seq![], texts);
    lemma_lookup(texts, text);
    if let Some(path) = lookup(texts, text) {
        let k: int = choose|k: int| 0 <= k < texts.len() && #[trigger] texts[k] == (text, path);
        assert(removed[k].0 == path);
    } else {
        assert forall|i: int| 0 <= i < removed.len() implies path_text((#[trigger] removed[i]).0)
            != text by {
            assert(texts[i].0 != text);
        }
    }
}

/// What is left of the items of `given` where those of `rest` were paired with them,
/// and what the pairs became.
spec fn paired_as(
    given: Found,
    rest: Found,
    kept: Found,
    removed: Found,
    changed: Seq<(Seq<Seg>, ValueChange)>,
    paired: Paired,
) -> bool {
    &&& paired.added == kept + alone(rest, given)
    &&& ascending::<Path, Val>(paired.removed)
    &&& ascending::<Path, ValueChange>(paired.changed)
    &&& forall|path: Seq<Seg>| #[trigger]
        lookup(paired.removed, path) == if renders(rest, path_text(path)) {
            None
        } else {
            lookup(removed, path)
        }
    &&& forall|path: Seq<Seg>| #[trigger]
        lookup(paired.changed, path) == if renders(rest, path_text(path)) && lookup(given, path)
            is Some {
            Some(exchange(lookup(given, path)->Some_0, rendered_value(rest, path_text(path))))
        } else {
            lookup(changed, path)
        }
}

/// The value of the item that renders to a text.
spec fn rendered_value(found: Found, text: Seq<char>) -> Val {
    found[choose|i: int| 0 <= i < found.len() && path_text((#[trigger] found[i]).0) == text].1
}

/// Where no two items render alike, the one at a position is the one that renders as
/// it does.
proof fn lemma_rendered_value(found: Found, i: int)
    requires
        rendered_apart(found),
        0 <= i < found.len(),
    ensures
        rendered_value(found, path_text(found[i].0)) == found[i].1,
{
    let text: Seq<char> = path_text(found[i].0);
    let k: int = choose|k: int| 0 <= k < found.len() && path_text((#[trigger] found[k]).0) == text;
    if k != i {
        assert(path_text(found[k].0) != path_text(found[i].0));
    }
}

/// The item that renders to a text is the first, or is among the others.
proof fn lemma_renders_first(found: Found, text: Seq<char>)
    requires
        found.len() > 0,
        rendered_apart(found),
    ensures
        rendered_apart(found.drop_first()),
        renders(found, text) == (path_text(found[0].0) == text || renders(
            found.drop_first(),
            text,
        )),
        path_text(found[0].0) == text ==> !renders(found.drop_first(), text) && rendered_value(
            found,
            text,
        ) == found[0].1,
        renders(found.drop_first(), text) ==> rendered_value(found, text) == rendered_value(
            found.drop_first(),
            text,
        ),
{
    let rest: Found = found.drop_first();
    assert forall|i: int, j: int|
        0 <= i < rest.len() && 0 <= j < rest.len() && i != j implies path_text(
        (#[trigger] rest[i]).0,
    ) != path_text((#[trigger] rest[j]).0) by {
        assert(path_text(found[i + 1].0) != path_text(found[j + 1].0));
    }
    if renders(found, text) {
        let i: int = choose|i: int|
            0 <= i < found.len() && path_text((#[trigger] found[i]).0) == text;
        if i > 0 {
            assert(path_text(rest[i - 1].0) == text);
        }
    }
    if renders(rest, text) {
        let i: int = choose|i: int|
            0 <= i < rest.len() && path_text((#[trigger] rest[i]).0) == text;
        assert(path_text(found[i + 1].0) == text);
        assert(path_text(found[0].0) != path_text(found[i + 1].0));
        lemma_rendered_value(found, i + 1);
        lemma_rendered_value(rest, i);
    }
    if path_text(found[0].0) == text {
        lemma_rendered_value(found, 0);
    }
}

proof fn lemma_paired_as(
    given: Found,
    rest: Found,
    kept: Found,
    removed: Found,
    changed: Seq<(Seq<Seg>, ValueChange)>,
)
    requires
        rendered_apart(given),
        rendered_apart(rest),
        ascending::<Path, Val>(given),
        ascending::<Path, Val>(removed),
        ascending::<Path, ValueChange>(changed),
        forall|path: Seq<Seg>| #[trigger]
            lookup(removed, path) is Some ==> lookup(removed, path) == lookup(given, path),
        forall|path: Seq<Seg>| #[trigger]
            lookup(given, path) is Some && renders(rest, path_text(path)) ==> lookup(removed, path)
                == lookup(given, path),
    ensures
        paired_as(
            given,
            rest,
            kept,
            removed,
            changed,
            paired_from(rendered_index(given), rest, kept, removed, changed),
        ),
    decreases rest.len(),
{
    let paired: Paired = paired_from(rendered_index(given), rest, kept, removed, changed);
    if rest.len() == 0 {
        assert(alone(rest, given) =~= seq![]);
        assert(kept + alone(rest, given) =~= kept);
        assert forall|text: Seq<char>| !#[trigger] renders(rest, text) by {}
    } else {
        let (path, value) = rest[0];
        let text: Seq<char> = path_text(path);
        let less: Found = rest.drop_first();
        lemma_renders_first(rest, text);
        lemma_alone_first(rest, given);
        lemma_index_held(given, text);
        assert forall|p: Seq<Seg>| #[trigger] lookup(given, p) is Some && renders(
            less,
            path_text(p),
        ) implies lookup(removed, p) == lookup(given, p) && path_text(p) != text by {
            lemma_renders_first(rest, path_text(p));
        }
        match lookup(rendered_index(given), text) {
            Some(old) => {
                let k: int = choose|k: int|
                    0 <= k < given.len() && (#[trigger] given[k]).0 == old && path_text(old)
                        == text;
                lemma_lookup_at::<Path, Val>(given, k);
                assert(renders(given, text));
                assert(path_text(rest[0].0) == path_text(old));
                assert(lookup(removed, old) == lookup(given, old));
                let change: ValueChange = exchange(lookup(removed, old)->Some_0, value);
                let left: Found = without(removed, old);
                let more: Seq<(Seq<Seg>, ValueChange)> = put::<Path, ValueChange>(
                    changed,
                    old,
                    change,
                );
                lemma_put::<Path, ValueChange>(changed, old, change);
                lemma_left_ascending(removed, old);
                assert forall|p: Seq<Seg>| #[trigger] lookup(left, p) == if p == old {
                    None
                } else {
                    lookup(removed, p)
                } by {
                    lemma_lookup_without::<Path, Val>(removed, old, p);
                }
                lemma_paired_as(given, less, kept, left, more);
                assert forall|p: Seq<Seg>| #[trigger] lookup(paired.removed, p) == if renders(
                    rest,
                    path_text(p),
                ) {
                    None
                } else {
                    lookup(removed, p)
                } by {
                    lemma_renders_first(rest, path_text(p));
                    if path_text(p) == text && p != old {
                        lemma_one_path(given, old, p);
                    }
                }
                assert forall|p: Seq<Seg>| #[trigger] lookup(paired.changed, p) == if renders(
                    rest,
                    path_text(p),
                ) && lookup(given, p) is Some {
                    Some(exchange(lookup(given, p)->Some_0, rendered_value(rest, path_text(p))))
                } else {
                    lookup(changed, p)
                } by {
                    lemma_renders_first(rest, path_text(p));
                    if path_text(p) == text && p != old {
                        lemma_one_path(given, old, p);
                    }
                }
            },
            None => {
                let more: Found = kept.push(rest[0]);
                lemma_paired_as(given, less, more, removed, changed);
                assert(more + alone(less, given) =~= kept + (seq![rest[0]] + alone(less, given)));
                assert forall|p: Seq<Seg>| path_text(p) == text implies #[trigger] lookup(given, p)
                    is None by {
                    lemma_lookup(given, p);
                    if let Some(v) = lookup(given, p) {
                        let k: int = choose|k: int|
                            0 <= k < given.len() && #[trigger] given[k] == (p, v);
                        assert(path_text(given[k].0) == text);
                    }
                }
                assert forall|p: Seq<Seg>| #[trigger] lookup(paired.removed, p) == if renders(
                    rest,
                    path_text(p),
                ) {
                    None
                } else {
                    lookup(removed, p)
                } by {
                    lemma_renders_first(rest, path_text(p));
                    assert(path_text(p) == text ==> lookup(given, p) is None);
                }
                assert forall|p: Seq<Seg>| #[trigger] lookup(paired.changed, p) == if renders(
                    rest,
                    path_text(p),
                ) && lookup(given, p) is Some {
                    Some(exchange(lookup(given, p)->Some_0, rendered_value(rest, path_text(p))))
                } else {
                    lookup(changed, p)
                } by {
                    lemma_renders_first(rest, path_text(p));
                }
            },
        }
    }
}

/// Two items that render alike stand at one path.
proof fn lemma_one_path(given: Found, old: Seq<Seg>, path: Seq<Seg>)
    requires
        rendered_apart(given),
        lookup(given, old) is Some,
        path_text(old) == path_text(path),
        old != path,
    ensures
        lookup(given, path) is None,
{
    lemma_lookup(given, old);
    lemma_lookup(given, path);
    if let Some(v) = lookup(given, path) {
        let i: int = choose|i: int|
            0 <= i < given.len() && #[trigger] given[i] == (old, lookup(given, old)->Some_0);
        let j: int = choose|j: int| 0 <= j < given.len() && #[trigger] given[j] == (path, v);
        assert(path_text(given[i].0) != path_text(given[j].0));
    }
}

/// What is left of an ascending list ascends.
proof fn lemma_left_ascending(removed: Found, path: Seq<Seg>)
    requires
        ascending::<Path, Val>(removed),
        lookup(removed, path) is Some,
    ensures
        ascending::<Path, Val>(without(removed, path)),
{
    lemma_lookup(removed, path);
    let at: int = choose|at: int|
        0 <= at < removed.len() && #[trigger] removed[at] == (path, lookup(
            removed,
            path,
        )->Some_0);
    crate::order::lemma_without::<Path, Val>(removed, at);
}

/// What becomes of items that are added and removed at one rendered path, where no two
/// added and no two removed paths render alike: both are gone and became exactly one
/// change, at the path of the removed one, with its value and that of the added one,
/// whatever their types. A change that stood at that path gives way to it; every other
/// finding stays as it was.
pub proof fn lemma_mutual_exchanged(f: Findings)
    requires
        ascending::<Path, Val>(f.iterable_item_added),
        ascending::<Path, Val>(f.iterable_item_removed),
        ascending::<Path, ValueChange>(f.values_changed),
        rendered_apart(f.iterable_item_added),
        rendered_apart(f.iterable_item_removed),
    ensures
        forall|i: int, j: int|
            #![trigger f.iterable_item_added[i], f.iterable_item_removed[j]]
            0 <= i < f.iterable_item_added.len() && 0 <= j < f.iterable_item_removed.len()
                && path_text(f.iterable_item_added[i].0) == path_text(f.iterable_item_removed[j].0)
                ==> {
                &&& lookup(mutual_merged(f).iterable_item_added, f.iterable_item_added[i].0) is None
                &&& lookup(
                    mutual_merged(f).iterable_item_removed,
                    f.iterable_item_removed[j].0,
                ) is None
                &&& lookup(mutual_merged(f).values_changed, f.iterable_item_removed[j].0) == Some(
                    exchange(f.iterable_item_removed[j].1, f.iterable_item_added[i].1),
                )
            },
        mutual_merged(f).iterable_item_added == alone(
            f.iterable_item_added,
            f.iterable_item_removed,
        ),
        forall|path: Seq<Seg>|
            !renders(f.iterable_item_removed, path_text(path)) ==> #[trigger] lookup(
                mutual_merged(f).iterable_item_added,
                path,
            ) == lookup(f.iterable_item_added, path),
        forall|path: Seq<Seg>|
            !renders(f.iterable_item_added, path_text(path)) ==> #[trigger] lookup(
                mutual_merged(f).iterable_item_removed,
                path,
            ) == lookup(f.iterable_item_removed, path),
        forall|path: Seq<Seg>|
            lookup(f.iterable_item_removed, path) is None || !renders(
                f.iterable_item_added,
                path_text(path),
            ) ==> #[trigger] lookup(mutual_merged(f).values_changed, path) == lookup(
                f.values_changed,
                path,
            ),
        mutual_merged(f) == (Findings {
            iterable_item_added: mutual_merged(f).iterable_item_added,
            iterable_item_removed: mutual_merged(f).iterable_item_removed,
            values_changed: mutual_merged(f).values_changed,
            ..f
        }),
{
    let added: Found = f.iterable_item_added;
    let removed: Found = f.iterable_item_removed;
    lemma_paired_as(removed, added, seq![], removed, f.values_changed);
    assert(Seq::<(Seq<Seg>, Val)>::empty() + alone(added, removed) =~= alone(added, removed));
    assert forall|path: Seq<Seg>| #[trigger] lookup(alone(added, removed), path) == if renders(
        removed,
        path_text(path),
    ) {
        None
    } else {
        lookup(added, path)
    } by {
        lemma_alone(added, removed, path);
    }
    assert forall|i: int, j: int|
        #![trigger added[i], removed[j]]
        0 <= i < added.len() && 0 <= j < removed.len() && path_text(added[i].0) == path_text(
            removed[j].0,
        ) implies {
        &&& lookup(mutual_merged(f).iterable_item_added, added[i].0) is None
        &&& lookup(mutual_merged(f).iterable_item_removed, removed[j].0) is None
        &&& lookup(mutual_merged(f).values_changed, removed[j].0) == Some(
            exchange(removed[j].1, added[i].1),
        )
    } by {
        assert(renders(removed, path_text(added[i].0)));
        assert(renders(added, path_text(removed[j].0)));
        lemma_lookup_at::<Path, Val>(removed, j);
        lemma_rendered_value(added, i);
    }
}

proof fn lemma_none_paired(
    given: Found,
    rest: Found,
    kept: Found,
    removed: Found,
    changed: Seq<(Seq<Seg>, ValueChange)>,
)
    requires
        none_mutual(rest, given),
    ensures
        paired_from(rendered_index(given), rest, kept, removed, changed) == (Paired {
            added: kept + rest,
            removed,
            changed,
        }),
    decreases rest.len(),
{
    if rest.len() == 0 {
        assert(kept + rest =~= kept);
    } else {
        let text: Seq<char> = path_text(rest[0].0);
        let less: Found = rest.drop_first();
        lemma_index_held(given, text);
        if let Some(path) = lookup(rendered_index(given), text) {
            let k: int = choose|k: int|
                0 <= k < given.len() && (#[trigger] given[k]).0 == path && path_text(path) == text;
            assert(path_text(rest[0].0) != path_text(given[k].0));
        }
        assert forall|i: int, j: int| 0 <= i < less.len() && 0 <= j < given.len() implies path_text(
            (#[trigger] less[i]).0,
        ) != path_text((#[trigger] given[j]).0) by {
            assert(less[i] == rest[i + 1]);
        }
        lemma_none_paired(given, less, kept.push(rest[0]), removed, changed);
        assert(kept.push(rest[0]) + less =~= kept + rest);
    }
}

/// Merging mutual items a second time changes nothing, if no two removed items
/// rendered alike.
pub proof fn lemma_merged_once(f: Findings)
    requires
        rendered_apart(f.iterable_item_removed),
    ensures
        mutual_merged(mutual_merged(f)) == mutual_merged(f),
{
    let g: Findings = mutual_merged(f);
    lemma_no_mutual_left(f);
    lemma_none_paired(
        g.iterable_item_removed,
        g.iterable_item_added,
        seq![],
        g.iterable_item_removed,
        g.values_changed,
    );
    assert(Seq::<(Seq<Seg>, Val)>::empty() + g.iterable_item_added =~= g.iterable_item_added);
}

} // verus!
