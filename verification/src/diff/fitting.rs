//! What the limit on depth refuses.

use vstd::prelude::*;

#[allow(unused_imports)]
use super::depth::height;
#[allow(unused_imports)]
use super::entries::{foreign, lemma_foreign};
#[allow(unused_imports)]
use super::lists::{added_tail, item_path, items_failure, removed_tail};
#[allow(unused_imports)]
use super::model::{
    all_basic, array_of, diff_of, entries_of, lone_entries, mixed_of, new_entries, object_of,
    object_step, positional_of, skips, token, unordered_of, with_added, with_removed, Step,
};
#[allow(unused_imports)]
use super::options::Rules;
#[allow(unused_imports)]
use super::scalar::{same_class, Outcome};
#[allow(unused_imports)]
use super::tally::lemma_partner_found;
#[allow(unused_imports)]
use crate::error::Failure;
#[allow(unused_imports)]
use crate::ignore_order::dict_keys::{has_other_keys, low_overlap, partner};
#[allow(unused_imports)]
use crate::ignore_order::memo::MemoVal;
#[allow(unused_imports)]
use crate::order::{ascending, lookup};
#[allow(unused_imports)]
use crate::path::{entry_seg, key_seg, path_text, Seg};
#[allow(unused_imports)]
use crate::report::{
    merged, nothing, with_dict_added, with_dict_removed, with_item_added, with_item_removed,
    Findings,
};
#[allow(unused_imports)]
use crate::value::{KeyVal, ObjectKey, ObjectKind, ObjectVal, Val};

verus! {

/// Whether a value at a depth nests no deeper than the limit; one that nests nothing
/// always does.
pub open spec fn nests_within(value: Val, depth: int, limit: int) -> bool {
    height(value) == 0 || depth + height(value) <= limit
}

/// A comparison below the limit on depth fails, and names its path and the limit.
pub proof fn lemma_below_limit(m: MemoVal, path: Seq<Seg>, a: Val, b: Val, depth: int, opts: Rules)
    requires
        depth > opts.max_depth,
    ensures
        diff_of(m, path, a, b, depth, opts).1 == Outcome::Err(
            Failure::MaxDepthExceeded {
                path: path_text(path),
                max_depth: opts.max_depth as int,
            },
        ),
{
}

proof fn lemma_removed_fit(
    f: Findings,
    path: Seq<Seg>,
    x: Seq<Val>,
    i: int,
    depth: int,
    limit: int,
)
    requires
        0 <= i,
        removed_tail(f, path, x, i, depth, limit) is Ok,
    ensures
        forall|k: int| i <= k < x.len() ==> nests_within(#[trigger] x[k], depth + 1, limit),
    decreases x.len() - i,
{
    if i < x.len() {
        lemma_removed_fit(
            with_item_removed(f, item_path(path, i), x[i]),
            path,
            x,
            i + 1,
            depth,
            limit,
        );
    }
}

proof fn lemma_added_fit(
    f: Findings,
    path: Seq<Seg>,
    y: Seq<Val>,
    i: int,
    depth: int,
    limit: int,
)
    requires
        0 <= i,
        added_tail(f, path, y, i, depth, limit) is Ok,
    ensures
        forall|k: int| i <= k < y.len() ==> nests_within(#[trigger] y[k], depth + 1, limit),
    decreases y.len() - i,
{
    if i < y.len() {
        lemma_added_fit(
            with_item_added(f, item_path(path, i), y[i]),
            path,
            y,
            i + 1,
            depth,
            limit,
        );
    }
}

proof fn lemma_tails_fit(
    m: MemoVal,
    path: Seq<Seg>,
    x: Seq<Val>,
    y: Seq<Val>,
    depth: int,
    opts: Rules,
    i: int,
    f: Findings,
)
    requires
        0 <= i <= x.len(),
        i <= y.len(),
        positional_of(m, path, x, y, depth, opts, i, f).1 is Ok,
    ensures
        forall|k: int|
            y.len() <= k < x.len() ==> nests_within(
                #[trigger] x[k],
                depth + 1,
                opts.max_depth as int,
            ),
        forall|k: int|
            x.len() <= k < y.len() ==> nests_within(
                #[trigger] y[k],
                depth + 1,
                opts.max_depth as int,
            ),
    decreases x.len() - i,
{
    let limit: int = opts.max_depth as int;
    if i < x.len() && i < y.len() {
        let (n, found) = diff_of(m, item_path(path, i), x[i], y[i], depth + 1, opts);
        lemma_tails_fit(n, path, x, y, depth, opts, i + 1, merged(f, found->Ok_0));
    } else {
        lemma_removed_fit(f, path, x, i, depth, limit);
        lemma_added_fit(
            removed_tail(f, path, x, i, depth, limit)->Ok_0,
            path,
            y,
            i,
            depth,
            limit,
        );
    }
}

/// Lists or tuples that hold more than scalars and are compared in order: a comparison
/// that succeeds adds and removes no item that nests deeper than the limit.
pub proof fn lemma_lists_fit(
    m: MemoVal,
    path: Seq<Seg>,
    a: Val,
    b: Val,
    x: Seq<Val>,
    y: Seq<Val>,
    depth: int,
    opts: Rules,
)
    requires
        (a == Val::Array(x) && b == Val::Array(y)) || (a == Val::Tuple(x) && b == Val::Tuple(y)),
        !opts.ignore_order,
        !(all_basic(x) && all_basic(y)),
        diff_of(m, path, a, b, depth, opts).1 is Ok,
    ensures
        forall|k: int|
            y.len() <= k < x.len() ==> nests_within(
                #[trigger] x[k],
                depth + 1,
                opts.max_depth as int,
            ),
        forall|k: int|
            x.len() <= k < y.len() ==> nests_within(
                #[trigger] y[k],
                depth + 1,
                opts.max_depth as int,
            ),
{
    assert(diff_of(m, path, a, b, depth, opts) == array_of(m, path, x, y, depth, opts));
    lemma_tails_fit(m, path, x, y, depth, opts, 0, nothing());
}

proof fn lemma_items_fit(path: Seq<Seg>, items: Seq<Val>, i: int, depth: int, limit: int)
    requires
        0 <= i,
        items_failure(path, items, i, depth, limit) is None,
    ensures
        forall|k: int| i <= k < items.len() ==> nests_within(#[trigger] items[k], depth + 1, limit),
    decreases items.len() - i,
{
    if i < items.len() {
        lemma_items_fit(path, items, i + 1, depth, limit);
    }
}

/// Lists or tuples compared without order: a comparison that succeeds is one of lists of
/// which no item nests deeper than the limit.
pub proof fn lemma_unordered_fit(
    m: MemoVal,
    path: Seq<Seg>,
    a: Val,
    b: Val,
    x: Seq<Val>,
    y: Seq<Val>,
    depth: int,
    opts: Rules,
)
    requires
        (a == Val::Array(x) && b == Val::Array(y)) || (a == Val::Tuple(x) && b == Val::Tuple(y)),
        opts.ignore_order,
        diff_of(m, path, a, b, depth, opts).1 is Ok,
    ensures
        forall|k: int|
            0 <= k < x.len() ==> nests_within(#[trigger] x[k], depth + 1, opts.max_depth as int),
        forall|k: int|
            0 <= k < y.len() ==> nests_within(#[trigger] y[k], depth + 1, opts.max_depth as int),
{
    let limit: int = opts.max_depth as int;
    assert(diff_of(m, path, a, b, depth, opts) == array_of(m, path, x, y, depth, opts));
    assert(array_of(m, path, x, y, depth, opts) == unordered_of(m, path, x, y, depth, opts));
    lemma_items_fit(path, x, 0, depth, limit);
    lemma_items_fit(path, y, 0, depth, limit);
}

proof fn lemma_lone_fit(
    f: Findings,
    path: Seq<Seg>,
    entries: Seq<(KeyVal, Val)>,
    others: Seq<(KeyVal, Val)>,
    i: int,
    added: bool,
    depth: int,
    limit: int,
)
    requires
        0 <= i,
        lone_entries(f, path, entries, others, i, added, depth, limit) is Ok,
    ensures
        forall|k: int|
            #![trigger entries[k]]
            i <= k < entries.len() && foreign(entries[k].0, others) ==> nests_within(
                entries[k].1,
                depth + 1,
                limit,
            ),
    decreases entries.len() - i,
{
    if i < entries.len() {
        let (key, value) = entries[i];
        let at: Seq<Seg> = path.push(key_seg(key));
        lemma_foreign(others, key, 0);
        let g: Findings = if partner(others, key) is Some {
            f
        } else if added {
            with_dict_added(f, at, value)
        } else {
            with_dict_removed(f, at, value)
        };
        lemma_lone_fit(g, path, entries, others, i + 1, added, depth, limit);
    }
}

proof fn lemma_mixed_fit(
    m: MemoVal,
    path: Seq<Seg>,
    p: ObjectVal,
    q: ObjectVal,
    depth: int,
    opts: Rules,
    i: int,
    f: Findings,
)
    requires
        0 <= i <= p.entries.len(),
        mixed_of(m, path, p, q, depth, opts, i, f).1 is Ok,
    ensures
        forall|k: int|
            #![trigger p.entries[k]]
            0 <= k < p.entries.len() && foreign(p.entries[k].0, q.entries) ==> nests_within(
                p.entries[k].1,
                depth + 1,
                opts.max_depth as int,
            ),
        forall|k: int|
            #![trigger q.entries[k]]
            0 <= k < q.entries.len() && foreign(q.entries[k].0, p.entries) ==> nests_within(
                q.entries[k].1,
                depth + 1,
                opts.max_depth as int,
            ),
    decreases p.entries.len() - i,
{
    let limit: int = opts.max_depth as int;
    if i < p.entries.len() {
        match partner(q.entries, p.entries[i].0) {
            None => lemma_mixed_fit(m, path, p, q, depth, opts, i + 1, f),
            Some(j) => {
                let at: Seq<Seg> = path.push(key_seg(q.entries[j].0));
                let (n, found) = diff_of(
                    m,
                    at,
                    p.entries[i].1,
                    q.entries[j].1,
                    depth + 1,
                    opts,
                );
                lemma_mixed_fit(n, path, p, q, depth, opts, i + 1, merged(f, found->Ok_0));
            },
        }
    } else {
        lemma_lone_fit(f, path, p.entries, q.entries, 0, false, depth, limit);
        let g: Findings = lone_entries(
            f,
            path,
            p.entries,
            q.entries,
            0,
            false,
            depth,
            limit,
        )->Ok_0;
        lemma_lone_fit(g, path, q.entries, p.entries, 0, true, depth, limit);
    }
}

proof fn lemma_news_fit(
    f: Findings,
    path: Seq<Seg>,
    p: ObjectVal,
    q: ObjectVal,
    i: int,
    depth: int,
    limit: int,
)
    requires
        0 <= i,
        new_entries(f, path, p, q, i, depth, limit) is Ok,
    ensures
        forall|k: int|
            #![trigger q.entries[k]]
            i <= k < q.entries.len() && lookup(p.entries, q.entries[k].0) is None ==> nests_within(
                q.entries[k].1,
                depth + 1,
                limit,
            ),
    decreases q.entries.len() - i,
{
    if i < q.entries.len() {
        let (key, value) = q.entries[i];
        let at: Seq<Seg> = path.push(entry_seg(p.kind, key));
        let g: Findings = if lookup(p.entries, key) is Some {
            f
        } else {
            with_added(f, p.kind, at, value)
        };
        lemma_news_fit(g, path, p, q, i + 1, depth, limit);
    }
}

proof fn lemma_entries_fit(
    m: MemoVal,
    path: Seq<Seg>,
    p: ObjectVal,
    q: ObjectVal,
    depth: int,
    opts: Rules,
    i: int,
    f: Findings,
)
    requires
        0 <= i <= p.entries.len(),
        entries_of(m, path, p, q, depth, opts, i, f).1 is Ok,
    ensures
        forall|k: int|
            #![trigger p.entries[k]]
            i <= k < p.entries.len() && lookup(q.entries, p.entries[k].0) is None ==> nests_within(
                p.entries[k].1,
                depth + 1,
                opts.max_depth as int,
            ),
        forall|k: int|
            #![trigger q.entries[k]]
            0 <= k < q.entries.len() && lookup(p.entries, q.entries[k].0) is None ==> nests_within(
                q.entries[k].1,
                depth + 1,
                opts.max_depth as int,
            ),
    decreases p.entries.len() - i,
{
    if i < p.entries.len() {
        let (key, value) = p.entries[i];
        let at: Seq<Seg> = path.push(entry_seg(p.kind, key));
        match lookup(q.entries, key) {
            None => lemma_entries_fit(
                m,
                path,
                p,
                q,
                depth,
                opts,
                i + 1,
                with_removed(f, p.kind, at, value),
            ),
            Some(other) => {
                let (n, found) = diff_of(m, at, value, other, depth + 1, opts);
                lemma_entries_fit(n, path, p, q, depth, opts, i + 1, merged(f, found->Ok_0));
            },
        }
    } else {
        lemma_news_fit(f, path, p, q, 0, depth, opts.max_depth as int);
    }
}

/// Two dicts: a comparison that succeeds adds and removes no entry whose value nests
/// deeper than the limit, and reports no dict as a whole that does.
pub proof fn lemma_dicts_fit(
    m: MemoVal,
    path: Seq<Seg>,
    p: ObjectVal,
    q: ObjectVal,
    depth: int,
    opts: Rules,
)
    requires
        p.kind == ObjectKind::Dict,
        q.kind == ObjectKind::Dict,
        p.class_name == q.class_name,
        ascending::<ObjectKey, Val>(p.entries),
        ascending::<ObjectKey, Val>(q.entries),
        diff_of(m, path, Val::Object(p), Val::Object(q), depth, opts).1 is Ok,
    ensures
        low_overlap(p.entries, q.entries) ==> nests_within(
            Val::Object(p),
            depth,
            opts.max_depth as int,
        ) && nests_within(Val::Object(q), depth, opts.max_depth as int),
        !low_overlap(p.entries, q.entries) ==> (forall|k: int|
            #![trigger p.entries[k]]
            0 <= k < p.entries.len() && foreign(p.entries[k].0, q.entries) ==> nests_within(
                p.entries[k].1,
                depth + 1,
                opts.max_depth as int,
            )) && (forall|k: int|
            #![trigger q.entries[k]]
            0 <= k < q.entries.len() && foreign(q.entries[k].0, p.entries) ==> nests_within(
                q.entries[k].1,
                depth + 1,
                opts.max_depth as int,
            )),
{
    let a: Val = Val::Object(p);
    let b: Val = Val::Object(q);
    assert(object_step(opts, a, b) == Step::Walk(p, q));
    assert(diff_of(m, path, a, b, depth, opts) == object_of(m, path, p, q, depth, opts));
    if !low_overlap(p.entries, q.entries) {
        if has_other_keys(p.entries) || has_other_keys(q.entries) {
            lemma_mixed_fit(m, path, p, q, depth, opts, 0, nothing());
        } else {
            lemma_entries_fit(m, path, p, q, depth, opts, 0, nothing());
            assert forall|k: int|
                #![trigger p.entries[k]]
                0 <= k < p.entries.len() && foreign(
                    p.entries[k].0,
                    q.entries,
                ) implies lookup(q.entries, p.entries[k].0) is None by {
                lemma_partner_found(q.entries, p.entries[k].0);
                lemma_foreign(q.entries, p.entries[k].0, 0);
            }
            assert forall|k: int|
                #![trigger q.entries[k]]
                0 <= k < q.entries.len() && foreign(
                    q.entries[k].0,
                    p.entries,
                ) implies lookup(p.entries, q.entries[k].0) is None by {
                lemma_partner_found(p.entries, q.entries[k].0);
                lemma_foreign(p.entries, q.entries[k].0, 0);
            }
        }
    }
}

/// Two values of different types, of which none is skipped or stands for another: a
/// comparison that succeeds is one of values that nest no deeper than the limit.
pub proof fn lemma_types_fit(m: MemoVal, path: Seq<Seg>, a: Val, b: Val, depth: int, opts: Rules)
    requires
        !same_class(a, b),
        !skips(a, b),
        !token(a),
        !token(b),
        diff_of(m, path, a, b, depth, opts).1 is Ok,
    ensures
        nests_within(a, depth, opts.max_depth as int),
        nests_within(b, depth, opts.max_depth as int),
{
    if a is Object || b is Object {
        assert(object_step(opts, a, b) is TypeChange);
    }
}

} // verus!
