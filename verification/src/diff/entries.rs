//! What becomes of the entries of two dicts and of the attributes of two objects.

use vstd::prelude::*;

#[allow(unused_imports)]
use super::model::{
    diff_of, entries_of, lone_entries, lone_outcome, mixed_of, new_entries, object_of, object_step,
    with_added, with_removed, Step,
};
#[allow(unused_imports)]
use super::options::Rules;
#[allow(unused_imports)]
use super::places::{lemma_found_below, within};
#[allow(unused_imports)]
use super::scalar::Outcome;
#[allow(unused_imports)]
use super::spots::{
    bare, leads, lemma_leads, lemma_spot_merged, lemma_spot_nothing, lemma_spot_with,
    lemma_spot_within, over, same_below, shows, spot, Spot,
};
#[allow(unused_imports)]
use crate::ignore_order::dict_keys::{
    has_other_keys, lemma_partner, low_overlap, partner, partner_from,
};
#[allow(unused_imports)]
use crate::ignore_order::memo::MemoVal;
#[allow(unused_imports)]
use crate::order::{ascending, lemma_lookup, lookup, Ordered, Place};
#[allow(unused_imports)]
use crate::path::{entry_seg, key_seg, Seg};
#[allow(unused_imports)]
use crate::python_eq::keys_equal;
#[allow(unused_imports)]
use crate::report::{
    merged, nothing, orderly, with_dict_added, with_dict_removed, Findings, ValueChange,
};
#[allow(unused_imports)]
use crate::value::{KeyVal, ObjectKey, ObjectKind, ObjectVal, Val};

verus! {

// ---------------------------------------------------------------------
// Keys that only one of two objects has
// ---------------------------------------------------------------------

/// Whether Python calls none of the keys of several entries equal to a key.
pub open spec fn foreign(key: KeyVal, others: Seq<(KeyVal, Val)>) -> bool {
    forall|j: int| 0 <= j < others.len() ==> !keys_equal(key, (#[trigger] others[j]).0)
}

/// Whether a value stands, from the `k`th entry on, under a key that a step leads to and
/// that the other entries have no equal of.
pub open spec fn only_here_from(
    kind: ObjectKind,
    entries: Seq<(KeyVal, Val)>,
    others: Seq<(KeyVal, Val)>,
    step: Seg,
    value: Val,
    k: int,
) -> bool {
    exists|i: int|
        #![trigger entries[i]]
        k <= i < entries.len() && foreign(entries[i].0, others) && entry_seg(kind, entries[i].0)
            == step && entries[i].1 == value
}

/// Whether a value stands under a key that a step leads to and that the other entries
/// have no equal of.
pub open spec fn only_here(
    kind: ObjectKind,
    entries: Seq<(KeyVal, Val)>,
    others: Seq<(KeyVal, Val)>,
    step: Seg,
    value: Val,
) -> bool {
    only_here_from(kind, entries, others, step, value, 0)
}

/// Whether what was found under a step, if anything, is a value that one object alone
/// has there, and whether something was found if there is such a value.
pub open spec fn told_alone(
    found: Option<Val>,
    kind: ObjectKind,
    entries: Seq<(KeyVal, Val)>,
    others: Seq<(KeyVal, Val)>,
    step: Seg,
) -> bool {
    match found {
        Some(value) => only_here(kind, entries, others, step, value),
        None => forall|value: Val| !#[trigger] only_here(kind, entries, others, step, value),
    }
}

/// What was found under a step once the entries from the `k`th on were met, and what was
/// before.
spec fn told_from(
    now: Option<Val>,
    was: Option<Val>,
    kind: ObjectKind,
    entries: Seq<(KeyVal, Val)>,
    others: Seq<(KeyVal, Val)>,
    step: Seg,
    k: int,
) -> bool {
    if exists|v: Val| #[trigger] only_here_from(kind, entries, others, step, v, k) {
        now matches Some(v) && only_here_from(kind, entries, others, step, v, k)
    } else {
        now == was
    }
}

proof fn lemma_told_end(
    was: Option<Val>,
    kind: ObjectKind,
    entries: Seq<(KeyVal, Val)>,
    others: Seq<(KeyVal, Val)>,
    step: Seg,
    k: int,
)
    requires
        k >= entries.len(),
    ensures
        told_from(was, was, kind, entries, others, step, k),
{
    assert forall|v: Val| !#[trigger] only_here_from(kind, entries, others, step, v, k) by {}
}

proof fn lemma_here_next(
    kind: ObjectKind,
    entries: Seq<(KeyVal, Val)>,
    others: Seq<(KeyVal, Val)>,
    step: Seg,
    v: Val,
    k: int,
)
    requires
        0 <= k < entries.len(),
    ensures
        only_here_from(kind, entries, others, step, v, k) <==> only_here_from(
            kind,
            entries,
            others,
            step,
            v,
            k + 1,
        ) || (foreign(entries[k].0, others) && entry_seg(kind, entries[k].0) == step && entries[k].1
            == v),
{
    if only_here_from(kind, entries, others, step, v, k) {
        let i: int = choose|i: int|
            #![trigger entries[i]]
            k <= i < entries.len() && foreign(entries[i].0, others) && entry_seg(
                kind,
                entries[i].0,
            ) == step && entries[i].1 == v;
        if i > k {
            assert(foreign(entries[i].0, others));
        }
    }
    if only_here_from(kind, entries, others, step, v, k + 1) {
        let i: int = choose|i: int|
            #![trigger entries[i]]
            k + 1 <= i < entries.len() && foreign(entries[i].0, others) && entry_seg(
                kind,
                entries[i].0,
            ) == step && entries[i].1 == v;
        assert(foreign(entries[i].0, others));
    }
}

/// One more entry in front.
proof fn lemma_told_next(
    now: Option<Val>,
    mid: Option<Val>,
    was: Option<Val>,
    kind: ObjectKind,
    entries: Seq<(KeyVal, Val)>,
    others: Seq<(KeyVal, Val)>,
    step: Seg,
    k: int,
)
    requires
        0 <= k < entries.len(),
        mid == (if foreign(entries[k].0, others) && entry_seg(kind, entries[k].0) == step {
            Some(entries[k].1)
        } else {
            was
        }),
        told_from(now, mid, kind, entries, others, step, k + 1),
    ensures
        told_from(now, was, kind, entries, others, step, k),
{
    assert forall|v: Val| #[trigger] only_here_from(kind, entries, others, step, v, k) == (
    only_here_from(kind, entries, others, step, v, k + 1) || (foreign(entries[k].0, others)
        && entry_seg(kind, entries[k].0) == step && entries[k].1 == v)) by {
        lemma_here_next(kind, entries, others, step, v, k);
    }
    if foreign(entries[k].0, others) && entry_seg(kind, entries[k].0) == step {
        assert(only_here_from(kind, entries, others, step, entries[k].1, k));
    }
    if exists|v: Val| #[trigger] only_here_from(kind, entries, others, step, v, k + 1) {
        let v: Val = choose|v: Val| #[trigger]
            only_here_from(kind, entries, others, step, v, k + 1);
        assert(only_here_from(kind, entries, others, step, v, k));
    }
}

/// A key has no partner where it is foreign, and only there.
pub proof fn lemma_foreign(entries: Seq<(KeyVal, Val)>, key: KeyVal, k: int)
    requires
        0 <= k,
    ensures
        partner_from(entries, key, k) is None <==> forall|j: int|
            k <= j < entries.len() ==> !keys_equal(key, (#[trigger] entries[j]).0),
    decreases entries.len() - k,
{
    if k < entries.len() {
        lemma_foreign(entries, key, k + 1);
    }
}

/// Two steps behind a path lead to different places.
proof fn lemma_steps(path: Seq<Seg>, step: Seg, other: Seg)
    ensures
        path.push(step) == path.push(other) <==> step == other,
{
    if path.push(step) == path.push(other) {
        assert(path.push(step)[path.len() as int] == path.push(other)[path.len() as int]);
    }
}

/// Whether a path is that of an entry, from the `k`th on, whose key the others have no
/// equal of.
spec fn alone_at(
    path: Seq<Seg>,
    kind: ObjectKind,
    entries: Seq<(KeyVal, Val)>,
    others: Seq<(KeyVal, Val)>,
    r: Seq<Seg>,
    k: int,
) -> bool {
    exists|i: int|
        #![trigger entries[i]]
        k <= i < entries.len() && foreign(entries[i].0, others) && r == path.push(
            entry_seg(kind, entries[i].0),
        )
}

proof fn lemma_alone_next(
    path: Seq<Seg>,
    kind: ObjectKind,
    entries: Seq<(KeyVal, Val)>,
    others: Seq<(KeyVal, Val)>,
    r: Seq<Seg>,
    k: int,
)
    requires
        0 <= k < entries.len(),
        alone_at(path, kind, entries, others, r, k + 1) || (foreign(entries[k].0, others) && r
            == path.push(entry_seg(kind, entries[k].0))),
    ensures
        alone_at(path, kind, entries, others, r, k),
{
    if alone_at(path, kind, entries, others, r, k + 1) {
        let i: int = choose|i: int|
            #![trigger entries[i]]
            k + 1 <= i < entries.len() && foreign(entries[i].0, others) && r == path.push(
                entry_seg(kind, entries[i].0),
            );
        assert(foreign(entries[i].0, others));
    } else {
        assert(foreign(entries[k].0, others));
    }
}

/// The entries without a partner are recorded, each under its step.
proof fn lemma_lone(
    f: Findings,
    path: Seq<Seg>,
    entries: Seq<(KeyVal, Val)>,
    others: Seq<(KeyVal, Val)>,
    i: int,
    added: bool,
    depth: int,
    limit: int,
    h: Findings,
)
    requires
        orderly(f),
        0 <= i,
        lone_entries(f, path, entries, others, i, added, depth, limit) == Outcome::Ok(h),
    ensures
        orderly(h),
        forall|r: Seq<Seg>| #[trigger]
            spot(h, r) == if added {
                Spot { dict_added: spot(h, r).dict_added, ..spot(f, r) }
            } else {
                Spot { dict_removed: spot(h, r).dict_removed, ..spot(f, r) }
            },
        forall|r: Seq<Seg>|
            !alone_at(path, ObjectKind::Dict, entries, others, r, i) ==> #[trigger] spot(h, r)
                == spot(f, r),
        forall|step: Seg|
            told_from(
                if added {
                    (#[trigger] spot(h, path.push(step))).dict_added
                } else {
                    spot(h, path.push(step)).dict_removed
                },
                if added {
                    spot(f, path.push(step)).dict_added
                } else {
                    spot(f, path.push(step)).dict_removed
                },
                ObjectKind::Dict,
                entries,
                others,
                step,
                i,
            ),
    decreases entries.len() - i,
{
    let kind: ObjectKind = ObjectKind::Dict;
    if i < entries.len() {
        let (key, value) = entries[i];
        let at: Seq<Seg> = path.push(key_seg(key));
        lemma_foreign(others, key, 0);
        let g: Findings = if partner(others, key) is Some {
            f
        } else if added {
            with_dict_added(f, at, value)
        } else {
            with_dict_removed(f, at, value)
        };
        lemma_spot_with(f, at);
        lemma_lone(g, path, entries, others, i + 1, added, depth, limit, h);
        assert forall|r: Seq<Seg>|
            !alone_at(path, kind, entries, others, r, i) implies #[trigger] spot(h, r) == spot(
            f,
            r,
        ) by {
            if alone_at(path, kind, entries, others, r, i + 1) || (foreign(key, others) && r
                == at) {
                lemma_alone_next(path, kind, entries, others, r, i);
            }
            assert(spot(h, r) == spot(g, r));
        }
        assert forall|r: Seq<Seg>| #[trigger] spot(h, r) == if added {
            Spot { dict_added: spot(h, r).dict_added, ..spot(f, r) }
        } else {
            Spot { dict_removed: spot(h, r).dict_removed, ..spot(f, r) }
        } by {
            assert(spot(g, r) == if added {
                Spot { dict_added: spot(g, r).dict_added, ..spot(f, r) }
            } else {
                Spot { dict_removed: spot(g, r).dict_removed, ..spot(f, r) }
            });
        }
        assert forall|step: Seg|
            told_from(
                if added {
                    (#[trigger] spot(h, path.push(step))).dict_added
                } else {
                    spot(h, path.push(step)).dict_removed
                },
                if added {
                    spot(f, path.push(step)).dict_added
                } else {
                    spot(f, path.push(step)).dict_removed
                },
                kind,
                entries,
                others,
                step,
                i,
            ) by {
            lemma_steps(path, step, key_seg(key));
            let to: Seq<Seg> = path.push(step);
            if added {
                lemma_told_next(
                    spot(h, to).dict_added,
                    spot(g, to).dict_added,
                    spot(f, to).dict_added,
                    kind,
                    entries,
                    others,
                    step,
                    i,
                );
            } else {
                lemma_told_next(
                    spot(h, to).dict_removed,
                    spot(g, to).dict_removed,
                    spot(f, to).dict_removed,
                    kind,
                    entries,
                    others,
                    step,
                    i,
                );
            }
        }
    } else {
        assert forall|step: Seg|
            told_from(
                if added {
                    (#[trigger] spot(h, path.push(step))).dict_added
                } else {
                    spot(h, path.push(step)).dict_removed
                },
                if added {
                    spot(f, path.push(step)).dict_added
                } else {
                    spot(f, path.push(step)).dict_removed
                },
                kind,
                entries,
                others,
                step,
                i,
            ) by {
            let to: Seq<Seg> = path.push(step);
            lemma_told_end(spot(f, to).dict_added, kind, entries, others, step, i);
            lemma_told_end(spot(f, to).dict_removed, kind, entries, others, step, i);
        }
    }
}

/// Right below a path, what was found one step on holds nothing but changes.
proof fn lemma_direct(g: Findings, path: Seq<Seg>, step: Seg, other: Seg)
    requires
        within(g, path.push(step)),
    ensures
        spot(g, path.push(other)) == (Spot {
            type_change: spot(g, path.push(other)).type_change,
            value_change: spot(g, path.push(other)).value_change,
            ..bare()
        }),
{
    let at: Seq<Seg> = path.push(step);
    lemma_spot_within(g, at, path.push(other));
    if step != other {
        lemma_leads(path, step, path.push(other));
        assert(path.push(other)[path.len() as int] == other);
    }
}

/// Whether two reports hold the same right below a path, but for changes.
spec fn same_direct(g: Findings, f: Findings, path: Seq<Seg>) -> bool {
    forall|step: Seg|
        (#[trigger] spot(g, path.push(step))) == (Spot {
            type_change: spot(g, path.push(step)).type_change,
            value_change: spot(g, path.push(step)).value_change,
            ..spot(f, path.push(step))
        })
}

/// What was found one step on, put in, leaves what stands right below the path as it is,
/// but for changes.
proof fn lemma_direct_merged(f: Findings, g: Findings, path: Seq<Seg>, step: Seg)
    requires
        orderly(f),
        within(g, path.push(step)),
    ensures
        orderly(merged(f, g)),
        same_direct(merged(f, g), f, path),
{
    lemma_spot_merged(f, g);
    assert forall|other: Seg| (#[trigger] spot(merged(f, g), path.push(other))) == (Spot {
        type_change: spot(merged(f, g), path.push(other)).type_change,
        value_change: spot(merged(f, g), path.push(other)).value_change,
        ..spot(f, path.push(other))
    }) by {
        lemma_direct(g, path, step, other);
    }
}

/// What is found under shared keys leaves what stands right below the path as it is, but
/// for changes.
proof fn lemma_mixed_before(
    m: MemoVal,
    path: Seq<Seg>,
    p: ObjectVal,
    q: ObjectVal,
    depth: int,
    opts: Rules,
    i: int,
    f: Findings,
    h: Findings,
) -> (g: Findings)
    requires
        orderly(f),
        0 <= i,
        mixed_of(m, path, p, q, depth, opts, i, f).1 == Outcome::Ok(h),
    ensures
        orderly(g),
        lone_outcome(g, path, p, q, depth, opts.max_depth as int) == Outcome::Ok(h),
        same_direct(g, f, path),
    decreases p.entries.len() - i,
{
    if i < p.entries.len() {
        match partner(q.entries, p.entries[i].0) {
            None => lemma_mixed_before(m, path, p, q, depth, opts, i + 1, f, h),
            Some(j) => {
                let step: Seg = key_seg(q.entries[j].0);
                let at: Seq<Seg> = path.push(step);
                let (n, found) = diff_of(
                    m,
                    at,
                    p.entries[i].1,
                    q.entries[j].1,
                    depth + 1,
                    opts,
                );
                let more: Findings = found->Ok_0;
                lemma_found_below(m, at, p.entries[i].1, q.entries[j].1, depth + 1, opts);
                lemma_direct_merged(f, more, path, step);
                let g: Findings = lemma_mixed_before(
                    n,
                    path,
                    p,
                    q,
                    depth,
                    opts,
                    i + 1,
                    merged(f, more),
                    h,
                );
                assert forall|other: Seg| (#[trigger] spot(g, path.push(other))) == (Spot {
                    type_change: spot(g, path.push(other)).type_change,
                    value_change: spot(g, path.push(other)).value_change,
                    ..spot(f, path.push(other))
                }) by {
                    assert(spot(merged(f, more), path.push(other)) == (Spot {
                        type_change: spot(merged(f, more), path.push(other)).type_change,
                        value_change: spot(merged(f, more), path.push(other)).value_change,
                        ..spot(f, path.push(other))
                    }));
                }
                g
            },
        }
    } else {
        f
    }
}

/// Among texts alone, a key is found where it is not foreign.
proof fn lemma_text_foreign(entries: Seq<(KeyVal, Val)>, key: KeyVal)
    requires
        key is Str,
        !has_other_keys(entries),
    ensures
        lookup(entries, key) is None <==> foreign(key, entries),
{
    lemma_lookup(entries, key);
    assert forall|j: int| 0 <= j < entries.len() implies keys_equal(
        key,
        (#[trigger] entries[j]).0,
    ) == (key == entries[j].0) by {
        assert(!(entries[j].0 is Other));
    }
    if lookup(entries, key) is Some {
        let v: Val = lookup(entries, key)->Some_0;
        let j: int = choose|j: int| 0 <= j < entries.len() && #[trigger] entries[j] == (key, v);
        assert(keys_equal(key, entries[j].0));
    }
}

/// What is said of removed entries: of those of a dict, or of attributes.
pub open spec fn removed_entry(kind: ObjectKind, s: Spot) -> Option<Val> {
    if kind == ObjectKind::Dict {
        s.dict_removed
    } else {
        s.attribute_removed
    }
}

/// What is said of added entries: of those of a dict, or of attributes.
pub open spec fn added_entry(kind: ObjectKind, s: Spot) -> Option<Val> {
    if kind == ObjectKind::Dict {
        s.dict_added
    } else {
        s.attribute_added
    }
}

/// What is said of anything but added entries.
spec fn but_added(kind: ObjectKind, s: Spot) -> Spot {
    if kind == ObjectKind::Dict {
        Spot { dict_added: None, ..s }
    } else {
        Spot { attribute_added: None, ..s }
    }
}

/// New entries under texts, each recorded under its step.
proof fn lemma_new(
    f: Findings,
    path: Seq<Seg>,
    p: ObjectVal,
    q: ObjectVal,
    i: int,
    depth: int,
    limit: int,
    h: Findings,
)
    requires
        orderly(f),
        0 <= i,
        !has_other_keys(p.entries),
        !has_other_keys(q.entries),
        new_entries(f, path, p, q, i, depth, limit) == Outcome::Ok(h),
    ensures
        orderly(h),
        forall|r: Seq<Seg>|
            but_added(p.kind, #[trigger] spot(h, r)) == but_added(p.kind, spot(f, r)),
        forall|r: Seq<Seg>|
            !alone_at(path, p.kind, q.entries, p.entries, r, i) ==> #[trigger] spot(h, r) == spot(
                f,
                r,
            ),
        forall|step: Seg|
            told_from(
                added_entry(p.kind, #[trigger] spot(h, path.push(step))),
                added_entry(p.kind, spot(f, path.push(step))),
                p.kind,
                q.entries,
                p.entries,
                step,
                i,
            ),
    decreases q.entries.len() - i,
{
    let kind: ObjectKind = p.kind;
    if i < q.entries.len() {
        let (key, value) = q.entries[i];
        let at: Seq<Seg> = path.push(entry_seg(kind, key));
        assert(!(q.entries[i].0 is Other));
        lemma_text_foreign(p.entries, key);
        let g: Findings = if lookup(p.entries, key) is Some {
            f
        } else {
            with_added(f, kind, at, value)
        };
        lemma_spot_with(f, at);
        lemma_new(g, path, p, q, i + 1, depth, limit, h);
        assert forall|r: Seq<Seg>| but_added(kind, #[trigger] spot(h, r)) == but_added(
            kind,
            spot(f, r),
        ) by {
            assert(but_added(kind, spot(g, r)) == but_added(kind, spot(f, r)));
        }
        assert forall|r: Seq<Seg>|
            !alone_at(path, kind, q.entries, p.entries, r, i) implies #[trigger] spot(h, r)
            == spot(f, r) by {
            if alone_at(path, kind, q.entries, p.entries, r, i + 1) || (foreign(key, p.entries)
                && r == at) {
                lemma_alone_next(path, kind, q.entries, p.entries, r, i);
            }
            assert(spot(h, r) == spot(g, r));
        }
        assert forall|step: Seg|
            told_from(
                added_entry(kind, #[trigger] spot(h, path.push(step))),
                added_entry(kind, spot(f, path.push(step))),
                kind,
                q.entries,
                p.entries,
                step,
                i,
            ) by {
            let to: Seq<Seg> = path.push(step);
            lemma_steps(path, step, entry_seg(kind, key));
            lemma_told_next(
                added_entry(kind, spot(h, to)),
                added_entry(kind, spot(g, to)),
                added_entry(kind, spot(f, to)),
                kind,
                q.entries,
                p.entries,
                step,
                i,
            );
        }
    } else {
        assert forall|step: Seg|
            told_from(
                added_entry(kind, #[trigger] spot(h, path.push(step))),
                added_entry(kind, spot(f, path.push(step))),
                kind,
                q.entries,
                p.entries,
                step,
                i,
            ) by {
            lemma_told_end(
                added_entry(kind, spot(f, path.push(step))),
                kind,
                q.entries,
                p.entries,
                step,
                i,
            );
        }
    }
}

/// What is found right below the path of two objects with texts alone for keys, from the
/// `i`th entry of the first on.
proof fn lemma_text_entries(
    m: MemoVal,
    path: Seq<Seg>,
    p: ObjectVal,
    q: ObjectVal,
    depth: int,
    opts: Rules,
    i: int,
    f: Findings,
    h: Findings,
)
    requires
        orderly(f),
        0 <= i,
        !has_other_keys(p.entries),
        !has_other_keys(q.entries),
        entries_of(m, path, p, q, depth, opts, i, f).1 == Outcome::Ok(h),
    ensures
        forall|step: Seg|
            told_from(
                removed_entry(p.kind, #[trigger] spot(h, path.push(step))),
                removed_entry(p.kind, spot(f, path.push(step))),
                p.kind,
                p.entries,
                q.entries,
                step,
                i,
            ),
        forall|step: Seg|
            told_from(
                added_entry(p.kind, #[trigger] spot(h, path.push(step))),
                added_entry(p.kind, spot(f, path.push(step))),
                p.kind,
                q.entries,
                p.entries,
                step,
                0,
            ),
    decreases p.entries.len() - i,
{
    let limit: int = opts.max_depth as int;
    let kind: ObjectKind = p.kind;
    if i < p.entries.len() {
        let (key, value) = p.entries[i];
        let at: Seq<Seg> = path.push(entry_seg(kind, key));
        assert(!(p.entries[i].0 is Other));
        lemma_text_foreign(q.entries, key);
        let (n, g): (MemoVal, Findings) = match lookup(q.entries, key) {
            None => (m, with_removed(f, kind, at, value)),
            Some(other) => (
                diff_of(m, at, value, other, depth + 1, opts).0,
                merged(f, diff_of(m, at, value, other, depth + 1, opts).1->Ok_0),
            ),
        };
        lemma_spot_with(f, at);
        if let Some(other) = lookup(q.entries, key) {
            lemma_found_below(m, at, value, other, depth + 1, opts);
            lemma_direct_merged(
                f,
                diff_of(m, at, value, other, depth + 1, opts).1->Ok_0,
                path,
                entry_seg(kind, key),
            );
        }
        lemma_text_entries(n, path, p, q, depth, opts, i + 1, g, h);
        assert forall|step: Seg|
            told_from(
                removed_entry(kind, #[trigger] spot(h, path.push(step))),
                removed_entry(kind, spot(f, path.push(step))),
                kind,
                p.entries,
                q.entries,
                step,
                i,
            ) by {
            let to: Seq<Seg> = path.push(step);
            lemma_steps(path, step, entry_seg(kind, key));
            assert(removed_entry(kind, spot(g, to)) == if foreign(key, q.entries) && entry_seg(
                kind,
                key,
            ) == step {
                Some(value)
            } else {
                removed_entry(kind, spot(f, to))
            });
            lemma_told_next(
                removed_entry(kind, spot(h, to)),
                removed_entry(kind, spot(g, to)),
                removed_entry(kind, spot(f, to)),
                kind,
                p.entries,
                q.entries,
                step,
                i,
            );
        }
        assert forall|step: Seg| added_entry(kind, #[trigger] spot(g, path.push(step)))
            == added_entry(kind, spot(f, path.push(step))) by {}
    } else {
        lemma_new(f, path, p, q, 0, depth, limit, h);
        assert forall|step: Seg|
            told_from(
                removed_entry(kind, #[trigger] spot(h, path.push(step))),
                removed_entry(kind, spot(f, path.push(step))),
                kind,
                p.entries,
                q.entries,
                step,
                i,
            ) by {
            let to: Seq<Seg> = path.push(step);
            assert(but_added(kind, spot(h, to)) == but_added(kind, spot(f, to)));
            lemma_told_end(
                removed_entry(kind, spot(f, to)),
                kind,
                p.entries,
                q.entries,
                step,
                i,
            );
        }
    }
}

/// What was found where nothing stood before.
proof fn lemma_told_alone(
    now: Option<Val>,
    kind: ObjectKind,
    entries: Seq<(KeyVal, Val)>,
    others: Seq<(KeyVal, Val)>,
    step: Seg,
)
    requires
        told_from(now, None, kind, entries, others, step, 0),
    ensures
        told_alone(now, kind, entries, others, step),
{
    assert forall|v: Val| #[trigger] only_here(kind, entries, others, step, v) implies
        only_here_from(kind, entries, others, step, v, 0) by {}
}

/// Two dicts that are walked: what is removed right below their path is a value of the
/// first under a key that Python calls equal to none of the second, what is added there
/// is a value of the second under a key that it calls equal to none of the first, each
/// under the step of its key; and every such value is there. This holds for keys of
/// every kind.
pub proof fn lemma_dict_entries(
    m: MemoVal,
    path: Seq<Seg>,
    p: ObjectVal,
    q: ObjectVal,
    depth: int,
    opts: Rules,
    f: Findings,
)
    requires
        p.kind == ObjectKind::Dict,
        q.kind == ObjectKind::Dict,
        p.class_name == q.class_name,
        !low_overlap(p.entries, q.entries),
        diff_of(m, path, Val::Object(p), Val::Object(q), depth, opts).1 == Outcome::Ok(f),
    ensures
        forall|step: Seg|
            told_alone(
                (#[trigger] spot(f, path.push(step))).dict_removed,
                ObjectKind::Dict,
                p.entries,
                q.entries,
                step,
            ),
        forall|step: Seg|
            told_alone(
                (#[trigger] spot(f, path.push(step))).dict_added,
                ObjectKind::Dict,
                q.entries,
                p.entries,
                step,
            ),
{
    let a: Val = Val::Object(p);
    let b: Val = Val::Object(q);
    let limit: int = opts.max_depth as int;
    let step: Step = object_step(opts, a, b);
    assert(step == Step::Walk(p, q));
    assert(diff_of(m, path, a, b, depth, opts) == object_of(m, path, p, q, depth, opts));
    lemma_spot_nothing();
    if has_other_keys(p.entries) || has_other_keys(q.entries) {
        let g: Findings = lemma_mixed_before(m, path, p, q, depth, opts, 0, nothing(), f);
        let k: Findings = lone_entries(
            g,
            path,
            p.entries,
            q.entries,
            0,
            false,
            depth,
            limit,
        )->Ok_0;
        lemma_lone(g, path, p.entries, q.entries, 0, false, depth, limit, k);
        lemma_lone(k, path, q.entries, p.entries, 0, true, depth, limit, f);
        assert forall|step: Seg|
            told_alone(
                (#[trigger] spot(f, path.push(step))).dict_removed,
                ObjectKind::Dict,
                p.entries,
                q.entries,
                step,
            ) && told_alone(
                spot(f, path.push(step)).dict_added,
                ObjectKind::Dict,
                q.entries,
                p.entries,
                step,
            ) by {
            let at: Seq<Seg> = path.push(step);
            assert(spot(f, at).dict_removed == spot(k, at).dict_removed);
            assert(spot(k, at).dict_added == spot(g, at).dict_added);
            assert(spot(nothing(), at) == bare());
            assert(spot(g, at).dict_added is None && spot(g, at).dict_removed is None);
            lemma_told_alone(
                spot(f, at).dict_removed,
                ObjectKind::Dict,
                p.entries,
                q.entries,
                step,
            );
            lemma_told_alone(
                spot(f, at).dict_added,
                ObjectKind::Dict,
                q.entries,
                p.entries,
                step,
            );
        }
    } else {
        lemma_text_entries(m, path, p, q, depth, opts, 0, nothing(), f);
        assert forall|step: Seg|
            told_alone(
                (#[trigger] spot(f, path.push(step))).dict_removed,
                ObjectKind::Dict,
                p.entries,
                q.entries,
                step,
            ) && told_alone(
                spot(f, path.push(step)).dict_added,
                ObjectKind::Dict,
                q.entries,
                p.entries,
                step,
            ) by {
            let at: Seq<Seg> = path.push(step);
            assert(spot(nothing(), at) == bare());
            lemma_told_alone(
                spot(f, at).dict_removed,
                ObjectKind::Dict,
                p.entries,
                q.entries,
                step,
            );
            lemma_told_alone(
                spot(f, at).dict_added,
                ObjectKind::Dict,
                q.entries,
                p.entries,
                step,
            );
        }
    }
}

/// Two objects of one class that are not the same instance and are walked: the
/// attributes that only the first has are removed and those that only the second has are
/// added, each under its name and with its value, and no others are.
pub proof fn lemma_attributes(
    m: MemoVal,
    path: Seq<Seg>,
    p: ObjectVal,
    q: ObjectVal,
    depth: int,
    opts: Rules,
    f: Findings,
)
    requires
        p.kind == ObjectKind::CustomObject,
        q.kind == ObjectKind::CustomObject,
        p.class_name == q.class_name,
        p.identity.len() == 0 || p.identity != q.identity,
        !has_other_keys(p.entries),
        !has_other_keys(q.entries),
        !low_overlap(p.entries, q.entries),
        diff_of(m, path, Val::Object(p), Val::Object(q), depth, opts).1 == Outcome::Ok(f),
    ensures
        forall|step: Seg|
            told_alone(
                (#[trigger] spot(f, path.push(step))).attribute_removed,
                p.kind,
                p.entries,
                q.entries,
                step,
            ),
        forall|step: Seg|
            told_alone(
                (#[trigger] spot(f, path.push(step))).attribute_added,
                p.kind,
                q.entries,
                p.entries,
                step,
            ),
{
    let a: Val = Val::Object(p);
    let b: Val = Val::Object(q);
    let step: Step = object_step(opts, a, b);
    assert(step == Step::Walk(p, q));
    assert(diff_of(m, path, a, b, depth, opts) == object_of(m, path, p, q, depth, opts));
    lemma_spot_nothing();
    lemma_text_entries(m, path, p, q, depth, opts, 0, nothing(), f);
    assert forall|step: Seg|
        told_alone(
            (#[trigger] spot(f, path.push(step))).attribute_removed,
            p.kind,
            p.entries,
            q.entries,
            step,
        ) && told_alone(
            spot(f, path.push(step)).attribute_added,
            p.kind,
            q.entries,
            p.entries,
            step,
        ) by {
        let at: Seq<Seg> = path.push(step);
        assert(spot(nothing(), at) == bare());
        lemma_told_alone(spot(f, at).attribute_removed, p.kind, p.entries, q.entries, step);
        lemma_told_alone(spot(f, at).attribute_added, p.kind, q.entries, p.entries, step);
    }
}

// ---------------------------------------------------------------------
// Keys that two objects share
// ---------------------------------------------------------------------

/// Whether keys that Python does not call equal lead to different steps, in two dicts of
/// which each key has at most one equal in the other.
pub open spec fn well_keyed(
    kind: ObjectKind,
    x: Seq<(KeyVal, Val)>,
    y: Seq<(KeyVal, Val)>,
) -> bool {
    &&& forall|i: int, j: int|
        0 <= i < x.len() && 0 <= j < y.len() ==> (#[trigger] keys_equal(x[i].0, y[j].0)
            <==> keys_equal(y[j].0, x[i].0))
    &&& forall|i: int, j: int, k: int|
        0 <= i < x.len() && 0 <= j < y.len() && 0 <= k < y.len() && #[trigger] keys_equal(
            x[i].0,
            y[j].0,
        ) && #[trigger] keys_equal(x[i].0, y[k].0) ==> j == k
    &&& forall|i: int, j: int, k: int|
        0 <= i < x.len() && 0 <= j < y.len() && 0 <= k < x.len() && #[trigger] keys_equal(
            x[i].0,
            y[j].0,
        ) && #[trigger] keys_equal(x[k].0, y[j].0) ==> i == k
    &&& forall|j: int, k: int|
        0 <= j < y.len() && 0 <= k < y.len() && #[trigger] entry_seg(kind, y[j].0)
            == #[trigger] entry_seg(kind, y[k].0) ==> j == k
    &&& forall|i: int, j: int|
        0 <= i < x.len() && 0 <= j < y.len() && #[trigger] entry_seg(kind, x[i].0)
            == #[trigger] entry_seg(kind, y[j].0) ==> keys_equal(x[i].0, y[j].0)
}

/// Dicts with texts alone for keys, each once, are well keyed.
pub proof fn lemma_texts_well_keyed(
    kind: ObjectKind,
    x: Seq<(KeyVal, Val)>,
    y: Seq<(KeyVal, Val)>,
)
    requires
        !has_other_keys(x),
        !has_other_keys(y),
        ascending::<ObjectKey, Val>(x),
        ascending::<ObjectKey, Val>(y),
    ensures
        well_keyed(kind, x, y),
{
    assert forall|i: int| 0 <= i < x.len() implies (#[trigger] x[i]).0 is Str by {
        assert(!(x[i].0 is Other));
    }
    assert forall|j: int| 0 <= j < y.len() implies (#[trigger] y[j]).0 is Str by {
        assert(!(y[j].0 is Other));
    }
    assert forall|i: int, k: int|
        0 <= i < x.len() && 0 <= k < x.len() && (#[trigger] x[i]).0 == (
        #[trigger] x[k]).0 implies i == k by {
        lemma_distinct(x, i, k);
    }
    assert forall|j: int, k: int|
        0 <= j < y.len() && 0 <= k < y.len() && (#[trigger] y[j]).0 == (
        #[trigger] y[k]).0 implies j == k by {
        lemma_distinct(y, j, k);
    }
}

proof fn lemma_distinct(x: Seq<(KeyVal, Val)>, i: int, k: int)
    requires
        ascending::<ObjectKey, Val>(x),
        0 <= i < x.len(),
        0 <= k < x.len(),
        x[i].0 == x[k].0,
    ensures
        i == k,
{
    if i < k {
        assert(ObjectKey::place(x[i].0, x[k].0) == Place::Before);
        ObjectKey::lemma_total(x[i].0, x[k].0);
    } else if k < i {
        assert(ObjectKey::place(x[k].0, x[i].0) == Place::Before);
        ObjectKey::lemma_total(x[k].0, x[i].0);
    }
}

/// Whether a path leads through the step of a shared key, from the `k`th entry of the
/// first on.
spec fn through(
    path: Seq<Seg>,
    kind: ObjectKind,
    x: Seq<(KeyVal, Val)>,
    y: Seq<(KeyVal, Val)>,
    r: Seq<Seg>,
    k: int,
) -> bool {
    exists|i: int, j: int|
        k <= i < x.len() && 0 <= j < y.len() && #[trigger] keys_equal(x[i].0, y[j].0) && leads(
            path,
            entry_seg(kind, y[j].0),
            r,
        )
}

/// What is found under one shared key, put in, stands below its step and nowhere else.
proof fn lemma_one_shared(
    f: Findings,
    g: Findings,
    path: Seq<Seg>,
    kind: ObjectKind,
    x: Seq<(KeyVal, Val)>,
    y: Seq<(KeyVal, Val)>,
    i: int,
    j: int,
)
    requires
        orderly(f),
        0 <= i < x.len(),
        0 <= j < y.len(),
        keys_equal(x[i].0, y[j].0),
        well_keyed(kind, x, y),
        within(g, path.push(entry_seg(kind, y[j].0))),
        forall|r: Seq<Seg>| through(path, kind, x, y, r, i) ==> #[trigger] spot(f, r) == bare(),
    ensures
        orderly(merged(f, g)),
        forall|r: Seq<Seg>|
            leads(path, entry_seg(kind, y[j].0), r) ==> #[trigger] spot(merged(f, g), r) == spot(
                g,
                r,
            ) && !through(path, kind, x, y, r, i + 1),
        forall|r: Seq<Seg>|
            !leads(path, entry_seg(kind, y[j].0), r) ==> #[trigger] spot(merged(f, g), r) == spot(
                f,
                r,
            ),
        forall|r: Seq<Seg>|
            through(path, kind, x, y, r, i + 1) ==> #[trigger] spot(merged(f, g), r) == bare(),
        forall|r: Seq<Seg>|
            #[trigger] through(path, kind, x, y, r, i + 1) || leads(
                path,
                entry_seg(kind, y[j].0),
                r,
            ) ==> through(path, kind, x, y, r, i),
{
    let step: Seg = entry_seg(kind, y[j].0);
    let at: Seq<Seg> = path.push(step);
    lemma_spot_merged(f, g);
    assert forall|r: Seq<Seg>|
        #[trigger] through(path, kind, x, y, r, i + 1) || leads(path, step, r) implies through(
        path,
        kind,
        x,
        y,
        r,
        i,
    ) by {
        if leads(path, step, r) {
            assert(keys_equal(x[i].0, y[j].0));
        } else {
            let (a, b): (int, int) = choose|a: int, b: int|
                i + 1 <= a < x.len() && 0 <= b < y.len() && #[trigger] keys_equal(
                    x[a].0,
                    y[b].0,
                ) && leads(path, entry_seg(kind, y[b].0), r);
            assert(keys_equal(x[a].0, y[b].0));
        }
    }
    assert forall|r: Seq<Seg>| leads(path, step, r) implies !#[trigger] through(
        path,
        kind,
        x,
        y,
        r,
        i + 1,
    ) by {
        if through(path, kind, x, y, r, i + 1) {
            let (a, b): (int, int) = choose|a: int, b: int|
                i + 1 <= a < x.len() && 0 <= b < y.len() && #[trigger] keys_equal(
                    x[a].0,
                    y[b].0,
                ) && leads(path, entry_seg(kind, y[b].0), r);
            lemma_leads(path, step, r);
            lemma_leads(path, entry_seg(kind, y[b].0), r);
            assert(b == j);
            assert(keys_equal(x[a].0, y[j].0) && keys_equal(x[i].0, y[j].0));
        }
    }
    assert forall|r: Seq<Seg>| leads(path, step, r) implies #[trigger] spot(merged(f, g), r)
        == spot(g, r) && !through(path, kind, x, y, r, i + 1) by {
        assert(through(path, kind, x, y, r, i)) by {
            assert(keys_equal(x[i].0, y[j].0));
        }
        assert(spot(f, r) == bare());
        assert(spot(merged(f, g), r) == over(spot(f, r), spot(g, r)));
        assert(!through(path, kind, x, y, r, i + 1));
    }
    assert forall|r: Seq<Seg>| !leads(path, step, r) implies #[trigger] spot(merged(f, g), r)
        == spot(f, r) by {
        lemma_spot_within(g, at, r);
        assert(spot(merged(f, g), r) == over(spot(f, r), spot(g, r)));
    }
    assert forall|r: Seq<Seg>| through(path, kind, x, y, r, i + 1) implies #[trigger] spot(
        merged(f, g),
        r,
    ) == bare() by {
        assert(through(path, kind, x, y, r, i));
        assert(!leads(path, step, r));
        assert(spot(f, r) == bare());
    }
}

/// Whether findings show under the step of each shared key, from the `k`th entry of the
/// first on, what comparing its values finds.
spec fn shared_shown(
    h: Findings,
    path: Seq<Seg>,
    kind: ObjectKind,
    x: Seq<(KeyVal, Val)>,
    y: Seq<(KeyVal, Val)>,
    depth: int,
    opts: Rules,
    k: int,
) -> bool {
    forall|i: int, j: int|
        k <= i < x.len() && 0 <= j < y.len() && #[trigger] keys_equal(x[i].0, y[j].0) ==> shows(
            h,
            path.push(entry_seg(kind, y[j].0)),
            x[i].1,
            y[j].1,
            depth,
            opts,
        )
}

/// A path that is that of an entry of one object alone is not that of a shared key.
proof fn lemma_not_alone(
    path: Seq<Seg>,
    kind: ObjectKind,
    x: Seq<(KeyVal, Val)>,
    y: Seq<(KeyVal, Val)>,
    i: int,
    j: int,
    r: Seq<Seg>,
)
    requires
        well_keyed(kind, x, y),
        0 <= i < x.len(),
        0 <= j < y.len(),
        keys_equal(x[i].0, y[j].0),
        leads(path, entry_seg(kind, y[j].0), r),
    ensures
        !alone_at(path, kind, x, y, r, 0),
        !alone_at(path, kind, y, x, r, 0),
{
    let step: Seg = entry_seg(kind, y[j].0);
    lemma_leads(path, step, r);
    if alone_at(path, kind, x, y, r, 0) {
        let a: int = choose|a: int|
            #![trigger x[a]]
            0 <= a < x.len() && foreign(x[a].0, y) && r == path.push(entry_seg(kind, x[a].0));
        assert(r[path.len() as int] == entry_seg(kind, x[a].0));
        assert(keys_equal(x[a].0, y[j].0));
    }
    if alone_at(path, kind, y, x, r, 0) {
        let b: int = choose|b: int|
            #![trigger y[b]]
            0 <= b < y.len() && foreign(y[b].0, x) && r == path.push(entry_seg(kind, y[b].0));
        assert(r[path.len() as int] == entry_seg(kind, y[b].0));
        assert(b == j);
        assert(keys_equal(y[j].0, x[i].0));
    }
}

proof fn lemma_mixed_shared(
    m: MemoVal,
    path: Seq<Seg>,
    p: ObjectVal,
    q: ObjectVal,
    depth: int,
    opts: Rules,
    i: int,
    f: Findings,
    h: Findings,
)
    requires
        orderly(f),
        0 <= i,
        well_keyed(ObjectKind::Dict, p.entries, q.entries),
        mixed_of(m, path, p, q, depth, opts, i, f).1 == Outcome::Ok(h),
        forall|r: Seq<Seg>|
            through(path, ObjectKind::Dict, p.entries, q.entries, r, i) ==> #[trigger] spot(f, r)
                == bare(),
    ensures
        shared_shown(h, path, ObjectKind::Dict, p.entries, q.entries, depth + 1, opts, i),
        forall|r: Seq<Seg>|
            !through(path, ObjectKind::Dict, p.entries, q.entries, r, i) && !alone_at(
                path,
                ObjectKind::Dict,
                p.entries,
                q.entries,
                r,
                0,
            ) && !alone_at(path, ObjectKind::Dict, q.entries, p.entries, r, 0) ==> #[trigger] spot(
                h,
                r,
            ) == spot(f, r),
    decreases p.entries.len() - i,
{
    let kind: ObjectKind = ObjectKind::Dict;
    let x: Seq<(KeyVal, Val)> = p.entries;
    let y: Seq<(KeyVal, Val)> = q.entries;
    let limit: int = opts.max_depth as int;
    if i < x.len() {
        lemma_foreign(y, x[i].0, 0);
        lemma_partner(y, x[i].0, 0);
        match partner(y, x[i].0) {
            None => {
                assert forall|r: Seq<Seg>| #[trigger] through(path, kind, x, y, r, i + 1)
                    == through(path, kind, x, y, r, i) by {
                    if through(path, kind, x, y, r, i) {
                        let (a, b): (int, int) = choose|a: int, b: int|
                            i <= a < x.len() && 0 <= b < y.len() && #[trigger] keys_equal(
                                x[a].0,
                                y[b].0,
                            ) && leads(path, entry_seg(kind, y[b].0), r);
                        assert(!keys_equal(x[i].0, y[b].0));
                        assert(a > i);
                    }
                    if through(path, kind, x, y, r, i + 1) {
                        let (a, b): (int, int) = choose|a: int, b: int|
                            i + 1 <= a < x.len() && 0 <= b < y.len() && #[trigger] keys_equal(
                                x[a].0,
                                y[b].0,
                            ) && leads(path, entry_seg(kind, y[b].0), r);
                        assert(keys_equal(x[a].0, y[b].0));
                    }
                }
                assert forall|r: Seq<Seg>|
                    through(path, kind, x, y, r, i + 1) implies #[trigger] spot(f, r) == bare() by {
                    assert(through(path, kind, x, y, r, i));
                }
                lemma_mixed_shared(m, path, p, q, depth, opts, i + 1, f, h);
                assert forall|a: int, b: int|
                    i <= a < x.len() && 0 <= b < y.len() && #[trigger] keys_equal(
                        x[a].0,
                        y[b].0,
                    ) implies shows(
                    h,
                    path.push(entry_seg(kind, y[b].0)),
                    x[a].1,
                    y[b].1,
                    depth + 1,
                    opts,
                ) by {
                    assert(!keys_equal(x[i].0, y[b].0));
                }
                assert forall|r: Seq<Seg>|
                    !through(path, kind, x, y, r, i) && !alone_at(path, kind, x, y, r, 0)
                        && !alone_at(path, kind, y, x, r, 0) implies #[trigger] spot(h, r) == spot(
                    f,
                    r,
                ) by {
                    assert(!through(path, kind, x, y, r, i + 1));
                }
            },
            Some(j) => {
                let step: Seg = key_seg(y[j].0);
                let at: Seq<Seg> = path.push(step);
                let (n, found) = diff_of(m, at, x[i].1, y[j].1, depth + 1, opts);
                let more: Findings = found->Ok_0;
                lemma_found_below(m, at, x[i].1, y[j].1, depth + 1, opts);
                lemma_one_shared(f, more, path, kind, x, y, i, j);
                let g: Findings = merged(f, more);
                lemma_mixed_shared(n, path, p, q, depth, opts, i + 1, g, h);
                assert(same_below(h, more, at)) by {
                    assert forall|r: Seq<Seg>| at.is_prefix_of(r) implies #[trigger] spot(h, r)
                        == spot(more, r) by {
                        assert(leads(path, step, r));
                        lemma_not_alone(path, kind, x, y, i, j, r);
                        assert(spot(g, r) == spot(more, r) && !through(
                            path,
                            kind,
                            x,
                            y,
                            r,
                            i + 1,
                        ));
                    }
                }
                assert(diff_of(m, at, x[i].1, y[j].1, depth + 1, opts).1 is Ok);
                assert(shows(h, at, x[i].1, y[j].1, depth + 1, opts));
                assert forall|a: int, b: int|
                    i <= a < x.len() && 0 <= b < y.len() && #[trigger] keys_equal(
                        x[a].0,
                        y[b].0,
                    ) implies shows(
                    h,
                    path.push(entry_seg(kind, y[b].0)),
                    x[a].1,
                    y[b].1,
                    depth + 1,
                    opts,
                ) by {
                    if a == i {
                        assert(keys_equal(x[i].0, y[j].0) && keys_equal(x[i].0, y[b].0));
                        assert(b == j);
                    }
                }
                assert forall|r: Seq<Seg>|
                    !through(path, kind, x, y, r, i) && !alone_at(path, kind, x, y, r, 0)
                        && !alone_at(path, kind, y, x, r, 0) implies #[trigger] spot(h, r) == spot(
                    f,
                    r,
                ) by {
                    if through(path, kind, x, y, r, i + 1) || leads(path, step, r) {
                        assert(through(path, kind, x, y, r, i));
                    }
                    assert(spot(g, r) == spot(f, r));
                }
            },
        }
    } else {
        let k: Findings = lone_entries(f, path, x, y, 0, false, depth, limit)->Ok_0;
        lemma_lone(f, path, x, y, 0, false, depth, limit, k);
        lemma_lone(k, path, y, x, 0, true, depth, limit, h);
        assert forall|r: Seq<Seg>|
            !alone_at(path, kind, x, y, r, 0) && !alone_at(
                path,
                kind,
                y,
                x,
                r,
                0,
            ) implies #[trigger] spot(h, r) == spot(f, r) by {
            assert(spot(k, r) == spot(f, r));
        }
    }
}

proof fn lemma_text_shared(
    m: MemoVal,
    path: Seq<Seg>,
    p: ObjectVal,
    q: ObjectVal,
    depth: int,
    opts: Rules,
    i: int,
    f: Findings,
    h: Findings,
)
    requires
        orderly(f),
        0 <= i,
        !has_other_keys(p.entries),
        !has_other_keys(q.entries),
        ascending::<ObjectKey, Val>(q.entries),
        well_keyed(p.kind, p.entries, q.entries),
        entries_of(m, path, p, q, depth, opts, i, f).1 == Outcome::Ok(h),
        forall|r: Seq<Seg>|
            through(path, p.kind, p.entries, q.entries, r, i) ==> #[trigger] spot(f, r) == bare(),
    ensures
        shared_shown(h, path, p.kind, p.entries, q.entries, depth + 1, opts, i),
        forall|r: Seq<Seg>|
            !through(path, p.kind, p.entries, q.entries, r, i) && !alone_at(
                path,
                p.kind,
                p.entries,
                q.entries,
                r,
                i,
            ) && !alone_at(path, p.kind, q.entries, p.entries, r, 0) ==> #[trigger] spot(h, r)
                == spot(f, r),
    decreases p.entries.len() - i,
{
    let kind: ObjectKind = p.kind;
    let x: Seq<(KeyVal, Val)> = p.entries;
    let y: Seq<(KeyVal, Val)> = q.entries;
    let limit: int = opts.max_depth as int;
    if i < x.len() {
        let (key, value) = x[i];
        let own: Seq<Seg> = path.push(entry_seg(kind, key));
        assert(!(x[i].0 is Other));
        lemma_text_foreign(y, key);
        match lookup(y, key) {
            None => {
                let g: Findings = with_removed(f, kind, own, value);
                lemma_spot_with(f, own);
                assert forall|r: Seq<Seg>| r != own implies #[trigger] spot(g, r) == spot(f, r) by {}
                assert forall|r: Seq<Seg>| #[trigger] through(path, kind, x, y, r, i + 1)
                    == through(path, kind, x, y, r, i) by {
                    if through(path, kind, x, y, r, i) {
                        let (a, b): (int, int) = choose|a: int, b: int|
                            i <= a < x.len() && 0 <= b < y.len() && #[trigger] keys_equal(
                                x[a].0,
                                y[b].0,
                            ) && leads(path, entry_seg(kind, y[b].0), r);
                        assert(!keys_equal(x[i].0, y[b].0));
                        assert(a > i);
                    }
                    if through(path, kind, x, y, r, i + 1) {
                        let (a, b): (int, int) = choose|a: int, b: int|
                            i + 1 <= a < x.len() && 0 <= b < y.len() && #[trigger] keys_equal(
                                x[a].0,
                                y[b].0,
                            ) && leads(path, entry_seg(kind, y[b].0), r);
                        assert(keys_equal(x[a].0, y[b].0));
                    }
                }
                assert forall|r: Seq<Seg>|
                    through(path, kind, x, y, r, i + 1) implies #[trigger] spot(g, r) == bare() by {
                    assert(through(path, kind, x, y, r, i));
                    let (a, b): (int, int) = choose|a: int, b: int|
                        i <= a < x.len() && 0 <= b < y.len() && #[trigger] keys_equal(
                            x[a].0,
                            y[b].0,
                        ) && leads(path, entry_seg(kind, y[b].0), r);
                    lemma_not_alone(path, kind, x, y, a, b, r);
                    if r == own {
                        assert(foreign(x[i].0, y));
                        assert(alone_at(path, kind, x, y, r, 0));
                    }
                    assert(spot(f, r) == bare());
                }
                lemma_text_shared(m, path, p, q, depth, opts, i + 1, g, h);
                assert forall|a: int, b: int|
                    i <= a < x.len() && 0 <= b < y.len() && #[trigger] keys_equal(
                        x[a].0,
                        y[b].0,
                    ) implies shows(
                    h,
                    path.push(entry_seg(kind, y[b].0)),
                    x[a].1,
                    y[b].1,
                    depth + 1,
                    opts,
                ) by {
                    assert(!keys_equal(x[i].0, y[b].0));
                }
                assert forall|r: Seq<Seg>|
                    !through(path, kind, x, y, r, i) && !alone_at(path, kind, x, y, r, i)
                        && !alone_at(path, kind, y, x, r, 0) implies #[trigger] spot(h, r) == spot(
                    f,
                    r,
                ) by {
                    assert(!through(path, kind, x, y, r, i + 1));
                    if alone_at(path, kind, x, y, r, i + 1) || r == own {
                        lemma_alone_next(path, kind, x, y, r, i);
                    }
                    assert(spot(g, r) == spot(f, r));
                }
            },
            Some(other) => {
                lemma_lookup(y, key);
                let j: int = choose|j: int| 0 <= j < y.len() && #[trigger] y[j] == (key, other);
                assert(keys_equal(x[i].0, y[j].0));
                let step: Seg = entry_seg(kind, key);
                let (n, found) = diff_of(m, own, value, other, depth + 1, opts);
                let more: Findings = found->Ok_0;
                lemma_found_below(m, own, value, other, depth + 1, opts);
                lemma_one_shared(f, more, path, kind, x, y, i, j);
                let g: Findings = merged(f, more);
                lemma_text_shared(n, path, p, q, depth, opts, i + 1, g, h);
                assert(same_below(h, more, own)) by {
                    assert forall|r: Seq<Seg>| own.is_prefix_of(r) implies #[trigger] spot(h, r)
                        == spot(more, r) by {
                        assert(leads(path, step, r));
                        lemma_not_alone(path, kind, x, y, i, j, r);
                        if alone_at(path, kind, x, y, r, i + 1) {
                            lemma_alone_wider(path, kind, x, y, r, i + 1);
                        }
                        assert(spot(g, r) == spot(more, r) && !through(
                            path,
                            kind,
                            x,
                            y,
                            r,
                            i + 1,
                        ));
                    }
                }
                assert(diff_of(m, own, value, other, depth + 1, opts).1 is Ok);
                assert(shows(h, own, value, other, depth + 1, opts));
                assert forall|a: int, b: int|
                    i <= a < x.len() && 0 <= b < y.len() && #[trigger] keys_equal(
                        x[a].0,
                        y[b].0,
                    ) implies shows(
                    h,
                    path.push(entry_seg(kind, y[b].0)),
                    x[a].1,
                    y[b].1,
                    depth + 1,
                    opts,
                ) by {
                    if a == i {
                        assert(keys_equal(x[i].0, y[j].0) && keys_equal(x[i].0, y[b].0));
                        assert(b == j);
                    }
                }
                assert forall|r: Seq<Seg>|
                    !through(path, kind, x, y, r, i) && !alone_at(path, kind, x, y, r, i)
                        && !alone_at(path, kind, y, x, r, 0) implies #[trigger] spot(h, r) == spot(
                    f,
                    r,
                ) by {
                    if through(path, kind, x, y, r, i + 1) || leads(path, step, r) {
                        assert(through(path, kind, x, y, r, i));
                    }
                    if alone_at(path, kind, x, y, r, i + 1) {
                        lemma_alone_next(path, kind, x, y, r, i);
                    }
                    assert(spot(g, r) == spot(f, r));
                }
            },
        }
    } else {
        lemma_new(f, path, p, q, 0, depth, limit, h);
    }
}

proof fn lemma_alone_wider(
    path: Seq<Seg>,
    kind: ObjectKind,
    entries: Seq<(KeyVal, Val)>,
    others: Seq<(KeyVal, Val)>,
    r: Seq<Seg>,
    k: int,
)
    requires
        0 <= k,
        alone_at(path, kind, entries, others, r, k),
    ensures
        alone_at(path, kind, entries, others, r, 0),
{
    let i: int = choose|i: int|
        #![trigger entries[i]]
        k <= i < entries.len() && foreign(entries[i].0, others) && r == path.push(
            entry_seg(kind, entries[i].0),
        );
    assert(foreign(entries[i].0, others));
}

/// Whether a path leads through the step of a key of several entries.
pub open spec fn steps_through(
    path: Seq<Seg>,
    kind: ObjectKind,
    entries: Seq<(KeyVal, Val)>,
    r: Seq<Seg>,
) -> bool {
    exists|i: int|
        #![trigger entries[i]]
        0 <= i < entries.len() && leads(path, entry_seg(kind, entries[i].0), r)
}

/// Two dicts, or two objects with texts alone for names, that are walked: what is found
/// under the step of a key that both have, and below it, is what comparing its two
/// values finds; and nothing is found elsewhere than under the steps of keys.
pub proof fn lemma_shared_entries(
    m: MemoVal,
    path: Seq<Seg>,
    p: ObjectVal,
    q: ObjectVal,
    depth: int,
    opts: Rules,
    f: Findings,
)
    requires
        (p.kind == ObjectKind::Dict && q.kind == ObjectKind::Dict) || (p.kind
            == ObjectKind::CustomObject && q.kind == ObjectKind::CustomObject && !has_other_keys(
            p.entries,
        ) && !has_other_keys(q.entries) && (p.identity.len() == 0 || p.identity != q.identity)),
        p.class_name == q.class_name,
        ascending::<ObjectKey, Val>(q.entries),
        well_keyed(p.kind, p.entries, q.entries),
        !low_overlap(p.entries, q.entries),
        diff_of(m, path, Val::Object(p), Val::Object(q), depth, opts).1 == Outcome::Ok(f),
    ensures
        forall|i: int, j: int|
            0 <= i < p.entries.len() && 0 <= j < q.entries.len() && #[trigger] keys_equal(
                p.entries[i].0,
                q.entries[j].0,
            ) ==> shows(
                f,
                path.push(entry_seg(p.kind, q.entries[j].0)),
                p.entries[i].1,
                q.entries[j].1,
                depth + 1,
                opts,
            ),
        forall|r: Seq<Seg>| #[trigger]
            spot(f, r) != bare() ==> steps_through(path, p.kind, p.entries, r) || steps_through(
                path,
                p.kind,
                q.entries,
                r,
            ),
{
    let a: Val = Val::Object(p);
    let b: Val = Val::Object(q);
    let kind: ObjectKind = p.kind;
    let x: Seq<(KeyVal, Val)> = p.entries;
    let y: Seq<(KeyVal, Val)> = q.entries;
    let step: Step = object_step(opts, a, b);
    assert(step == Step::Walk(p, q));
    assert(diff_of(m, path, a, b, depth, opts) == object_of(m, path, p, q, depth, opts));
    lemma_spot_nothing();
    if has_other_keys(x) || has_other_keys(y) {
        lemma_mixed_shared(m, path, p, q, depth, opts, 0, nothing(), f);
    } else {
        lemma_text_shared(m, path, p, q, depth, opts, 0, nothing(), f);
    }
    assert forall|r: Seq<Seg>| #[trigger] spot(f, r) != bare() implies steps_through(
        path,
        kind,
        x,
        r,
    ) || steps_through(path, kind, y, r) by {
        assert(spot(nothing(), r) == bare());
        if through(path, kind, x, y, r, 0) {
            let (i, j): (int, int) = choose|i: int, j: int|
                0 <= i < x.len() && 0 <= j < y.len() && #[trigger] keys_equal(x[i].0, y[j].0)
                    && leads(path, entry_seg(kind, y[j].0), r);
            assert(leads(path, entry_seg(kind, y[j].0), r));
        } else if alone_at(path, kind, x, y, r, 0) {
            let i: int = choose|i: int|
                #![trigger x[i]]
                0 <= i < x.len() && foreign(x[i].0, y) && r == path.push(entry_seg(kind, x[i].0));
            lemma_leads(path, entry_seg(kind, x[i].0), r);
        } else {
            let j: int = choose|j: int|
                #![trigger y[j]]
                0 <= j < y.len() && foreign(y[j].0, x) && r == path.push(entry_seg(kind, y[j].0));
            lemma_leads(path, entry_seg(kind, y[j].0), r);
        }
    }
}

/// Two dicts, or two objects that are not the same instance, with so few keys in common
/// that they are not walked: one change at their path, with both of them whole.
pub proof fn lemma_whole_change(
    m: MemoVal,
    path: Seq<Seg>,
    p: ObjectVal,
    q: ObjectVal,
    depth: int,
    opts: Rules,
    f: Findings,
)
    requires
        (p.kind == ObjectKind::Dict && q.kind == ObjectKind::Dict) || (p.kind
            == ObjectKind::CustomObject && q.kind == ObjectKind::CustomObject && (p.identity.len()
            == 0 || p.identity != q.identity)),
        p.class_name == q.class_name,
        low_overlap(p.entries, q.entries),
        diff_of(m, path, Val::Object(p), Val::Object(q), depth, opts).1 == Outcome::Ok(f),
    ensures
        forall|r: Seq<Seg>| #[trigger]
            spot(f, r) == if r == path {
                Spot {
                    value_change: Some(
                        ValueChange {
                            old_value: Val::Object(p),
                            new_value: Val::Object(q),
                            new_path: None,
                            diff: None,
                        },
                    ),
                    ..bare()
                }
            } else {
                bare()
            },
{
    let a: Val = Val::Object(p);
    let b: Val = Val::Object(q);
    let step: Step = object_step(opts, a, b);
    assert(step == Step::Walk(p, q));
    assert(diff_of(m, path, a, b, depth, opts) == object_of(m, path, p, q, depth, opts));
    lemma_spot_nothing();
    lemma_spot_with(nothing(), path);
}

} // verus!
