//! Values that stand for tokens are without effect where there are no tokens, and are
//! compared in their place wherever a comparison comes to an end.

use vstd::prelude::*;

#[allow(unused_imports)]
use super::lists::item_path;
#[allow(unused_imports)]
use super::model::{
    added_at, array_of, below, candidates_of, diff_of, distance_of, entries_of, held_items,
    in_place, leaves_between, leaves_between_entries, leaves_between_lists, leaves_between_objects,
    lemma_step, lists_of, mixed_of, object_of, object_step, pairable, pairs_found, pairs_of,
    positional_of, removed_at, rough_of, skips, token, tokens_kept, unordered_of, with_removed,
    Lists, Step,
};
#[allow(unused_imports)]
use super::options::{comparison, resolvable, Rules};
#[allow(unused_imports)]
use super::reach::{all_tokenless, lemma_added_place, tokenless};
#[allow(unused_imports)]
use super::scalar::{room, same_class};
#[allow(unused_imports)]
use crate::ignore_order::candidates::{
    unpaired, Candidate, Partners, Ranking, CUTOFF_DISTANCE_FOR_PAIRS,
};
#[allow(unused_imports)]
use crate::ignore_order::dict_keys::{has_other_keys, lemma_partner, low_overlap, partner};
#[allow(unused_imports)]
use crate::ignore_order::length::leaves;
#[allow(unused_imports)]
use crate::ignore_order::memo::{resolution, MemoVal};
#[allow(unused_imports)]
use crate::ignore_order::resolver::{
    lemma_settled_ends, lemma_settled_part, lemma_settled_resolved, settled,
};
#[allow(unused_imports)]
use crate::order::{lemma_lookup, lookup};
#[allow(unused_imports)]
use crate::path::{entry_seg, key_seg, Seg};
#[allow(unused_imports)]
use crate::report::{merged, mutual_merged, nothing, retagged, with_item_added, Findings};
#[allow(unused_imports)]
use crate::value::{KeyVal, ObjectKind, ObjectVal, Val};
#[allow(unused_imports)]
use crate::walk::children;

verus! {

/// Whether two sets of rules differ in the values that stand for tokens alone.
pub open spec fn agree(u: Rules, v: Rules) -> bool {
    u.max_depth == v.max_depth && u.ignore_order == v.ignore_order
}

/// The values of the entries of an object without tokens hold none.
proof fn lemma_entries_tokenless(p: ObjectVal)
    requires
        tokenless(Val::Object(p)),
    ensures
        forall|i: int|
            #![trigger p.entries[i]]
            0 <= i < p.entries.len() ==> tokenless(p.entries[i].1),
{
}

proof fn lemma_diff_agree(
    m: MemoVal,
    path: Seq<Seg>,
    a: Val,
    b: Val,
    depth: int,
    u: Rules,
    v: Rules,
)
    requires
        agree(u, v),
        tokenless(a),
        tokenless(b),
    ensures
        diff_of(m, path, a, b, depth, u) == diff_of(m, path, a, b, depth, v),
    decreases a, 9int, 0int, 0int,
{
    match (a, b) {
        (Val::Array(x), Val::Array(y)) => lemma_array_agree(m, path, x, y, depth, u, v),
        (Val::Tuple(x), Val::Tuple(y)) => lemma_array_agree(m, path, x, y, depth, u, v),
        _ => {
            if a is Object || b is Object {
                lemma_step(u, v, a, b);
                match object_step(u, a, b) {
                    Step::Walk(p, q) => {
                        assert(a == Val::Object(p) && b == Val::Object(q));
                        lemma_object_agree(m, path, p, q, depth, u, v);
                    },
                    _ => {},
                }
            }
        },
    }
}

proof fn lemma_array_agree(
    m: MemoVal,
    path: Seq<Seg>,
    x: Seq<Val>,
    y: Seq<Val>,
    depth: int,
    u: Rules,
    v: Rules,
)
    requires
        agree(u, v),
        all_tokenless(x),
        all_tokenless(y),
    ensures
        array_of(m, path, x, y, depth, u) == array_of(m, path, x, y, depth, v),
    decreases x, 7int, 0int, 0int,
{
    if u.ignore_order {
        lemma_unordered_agree(m, path, x, y, depth, u, v);
    } else {
        lemma_positional_agree(m, path, x, y, depth, u, v, 0, nothing());
    }
}

proof fn lemma_positional_agree(
    m: MemoVal,
    path: Seq<Seg>,
    x: Seq<Val>,
    y: Seq<Val>,
    depth: int,
    u: Rules,
    v: Rules,
    i: int,
    f: Findings,
)
    requires
        agree(u, v),
        all_tokenless(x),
        all_tokenless(y),
    ensures
        positional_of(m, path, x, y, depth, u, i, f) == positional_of(
            m,
            path,
            x,
            y,
            depth,
            v,
            i,
            f,
        ),
    decreases x, 0int, x.len() - i, 0int,
{
    if 0 <= i < x.len() && i < y.len() {
        let at: Seq<Seg> = item_path(path, i);
        let (n, found) = diff_of(m, at, x[i], y[i], depth + 1, u);
        lemma_diff_agree(m, at, x[i], y[i], depth + 1, u, v);
        if let Ok(g) = found {
            lemma_positional_agree(n, path, x, y, depth, u, v, i + 1, merged(f, g));
        }
    }
}

proof fn lemma_object_agree(
    m: MemoVal,
    path: Seq<Seg>,
    p: ObjectVal,
    q: ObjectVal,
    depth: int,
    u: Rules,
    v: Rules,
)
    requires
        agree(u, v),
        tokenless(Val::Object(p)),
        tokenless(Val::Object(q)),
    ensures
        object_of(m, path, p, q, depth, u) == object_of(m, path, p, q, depth, v),
    decreases p, 1int, 0int, 0int,
{
    if !low_overlap(p.entries, q.entries) {
        if has_other_keys(p.entries) || has_other_keys(q.entries) {
            lemma_mixed_agree(m, path, p, q, depth, u, v, 0, nothing());
        } else {
            lemma_entries_agree(m, path, p, q, depth, u, v, 0, nothing());
        }
    }
}

proof fn lemma_entries_agree(
    m: MemoVal,
    path: Seq<Seg>,
    p: ObjectVal,
    q: ObjectVal,
    depth: int,
    u: Rules,
    v: Rules,
    i: int,
    f: Findings,
)
    requires
        agree(u, v),
        tokenless(Val::Object(p)),
        tokenless(Val::Object(q)),
    ensures
        entries_of(m, path, p, q, depth, u, i, f) == entries_of(m, path, p, q, depth, v, i, f),
    decreases p, 0int, p.entries.len() - i, 0int,
{
    lemma_entries_tokenless(p);
    lemma_entries_tokenless(q);
    if 0 <= i < p.entries.len() {
        let (key, value) = p.entries[i];
        let at: Seq<Seg> = path.push(entry_seg(p.kind, key));
        match lookup(q.entries, key) {
            None => {
                let g: Findings = with_removed(f, p.kind, at, value);
                lemma_entries_agree(m, path, p, q, depth, u, v, i + 1, g);
            },
            Some(other) => {
                lemma_lookup(q.entries, key);
                let (n, found) = diff_of(m, at, value, other, depth + 1, u);
                lemma_diff_agree(m, at, value, other, depth + 1, u, v);
                if let Ok(g) = found {
                    lemma_entries_agree(n, path, p, q, depth, u, v, i + 1, merged(f, g));
                }
            },
        }
    }
}

proof fn lemma_mixed_agree(
    m: MemoVal,
    path: Seq<Seg>,
    p: ObjectVal,
    q: ObjectVal,
    depth: int,
    u: Rules,
    v: Rules,
    i: int,
    f: Findings,
)
    requires
        agree(u, v),
        tokenless(Val::Object(p)),
        tokenless(Val::Object(q)),
    ensures
        mixed_of(m, path, p, q, depth, u, i, f) == mixed_of(m, path, p, q, depth, v, i, f),
    decreases p, 0int, p.entries.len() - i, 0int,
{
    lemma_entries_tokenless(p);
    lemma_entries_tokenless(q);
    if 0 <= i < p.entries.len() {
        match partner(q.entries, p.entries[i].0) {
            None => lemma_mixed_agree(m, path, p, q, depth, u, v, i + 1, f),
            Some(j) => {
                lemma_partner(q.entries, p.entries[i].0, 0);
                let at: Seq<Seg> = path.push(key_seg(q.entries[j].0));
                let value: Val = p.entries[i].1;
                let other: Val = q.entries[j].1;
                let (n, found) = diff_of(m, at, value, other, depth + 1, u);
                lemma_diff_agree(m, at, value, other, depth + 1, u, v);
                if let Ok(g) = found {
                    lemma_mixed_agree(n, path, p, q, depth, u, v, i + 1, merged(f, g));
                }
            },
        }
    }
}

/// Whether two lists hold no tokens, and the added items are items of the second.
spec fn listed_tokenless(lists: Lists) -> bool {
    &&& all_tokenless(lists.old)
    &&& all_tokenless(lists.new)
    &&& forall|k: int|
        0 <= k < lists.added.len() ==> 0 <= #[trigger] added_at(lists, k) < lists.new.len()
}

proof fn lemma_unordered_agree(
    m: MemoVal,
    path: Seq<Seg>,
    x: Seq<Val>,
    y: Seq<Val>,
    depth: int,
    u: Rules,
    v: Rules,
)
    requires
        agree(u, v),
        all_tokenless(x),
        all_tokenless(y),
    ensures
        unordered_of(m, path, x, y, depth, u) == unordered_of(m, path, x, y, depth, v),
    decreases x, 6int, 0int, 0int,
{
    let (n, lists) = lists_of(m, x, y);
    assert forall|k: int| 0 <= k < lists.added.len() implies 0 <= #[trigger] added_at(lists, k)
        < lists.new.len() by {
        lemma_added_place(m, x, y, k);
    }
    if pairable(
        lists.added.len(),
        lists.removed.len(),
        lists.first.keys.len(),
        lists.second.keys.len(),
    ) {
        lemma_pairs_agree(n, lists, depth, u, v);
        let (l, partners) = pairs_of(n, lists, depth, u);
        lemma_found_agree(l, path, lists, partners, depth, u, v, 0, nothing());
    } else {
        let partners: Partners = unpaired(lists.added.len());
        lemma_found_agree(n, path, lists, partners, depth, u, v, 0, nothing());
    }
}

proof fn lemma_pairs_agree(m: MemoVal, lists: Lists, depth: int, u: Rules, v: Rules)
    requires
        agree(u, v),
        listed_tokenless(lists),
    ensures
        pairs_of(m, lists, depth, u) == pairs_of(m, lists, depth, v),
    decreases lists.old, 5int, 0int, 0int,
{
    let added: int = lists.added.len() as int;
    let removed: int = lists.removed.len() as int;
    let (k, news) = held_items(m, lists.new, lists.second, lists.added, added);
    let (l, olds) = held_items(k, lists.old, lists.first, lists.removed, removed);
    lemma_candidates_agree(l, lists, olds, news, depth, u, v, 0, 0, seq![]);
}

proof fn lemma_candidates_agree(
    m: MemoVal,
    lists: Lists,
    olds: Seq<Option<usize>>,
    news: Seq<Option<usize>>,
    depth: int,
    u: Rules,
    v: Rules,
    k: int,
    r: int,
    found: Ranking,
)
    requires
        agree(u, v),
        listed_tokenless(lists),
    ensures
        candidates_of(m, lists, olds, news, depth, u, k, r, found) == candidates_of(
            m,
            lists,
            olds,
            news,
            depth,
            v,
            k,
            r,
            found,
        ),
    decreases lists.old, 4int, lists.added.len() - k, lists.removed.len() - r,
{
    if 0 <= k < lists.added.len() {
        if r < 0 || r >= lists.removed.len() {
            lemma_candidates_agree(m, lists, olds, news, depth, u, v, k + 1, 0, found);
        } else {
            let (n, distance) = distance_of(m, lists, olds, news, depth, u, k, r);
            lemma_distance_agree(m, lists, olds, news, depth, u, v, k, r);
            let more: Ranking = if distance >= CUTOFF_DISTANCE_FOR_PAIRS {
                found
            } else {
                found.push((Candidate { distance, added: k as usize, removed: r as usize }, ()))
            };
            lemma_candidates_agree(n, lists, olds, news, depth, u, v, k, r + 1, more);
        }
    }
}

proof fn lemma_distance_agree(
    m: MemoVal,
    lists: Lists,
    olds: Seq<Option<usize>>,
    news: Seq<Option<usize>>,
    depth: int,
    u: Rules,
    v: Rules,
    k: int,
    r: int,
)
    requires
        agree(u, v),
        listed_tokenless(lists),
        0 <= k < lists.added.len(),
    ensures
        distance_of(m, lists, olds, news, depth, u, k, r) == distance_of(
            m,
            lists,
            olds,
            news,
            depth,
            v,
            k,
            r,
        ),
    decreases lists.old, 3int, 0int, 0int,
{
    let i: int = removed_at(lists, r);
    let j: int = added_at(lists, k);
    if 0 <= i < lists.old.len() {
        assert(tokenless(lists.old[i]));
        assert(tokenless(lists.new[j]));
        lemma_rough_agree(
            m,
            lists.old[i],
            lists.new[j],
            CUTOFF_DISTANCE_FOR_PAIRS,
            depth,
            u,
            v,
        );
    }
}

proof fn lemma_rough_agree(
    m: MemoVal,
    a: Val,
    b: Val,
    cutoff: u64,
    depth: int,
    u: Rules,
    v: Rules,
)
    requires
        agree(u, v),
        tokenless(a),
        tokenless(b),
    ensures
        rough_of(m, a, b, cutoff, depth, u) == rough_of(m, a, b, cutoff, depth, v),
    decreases a, 9int, 0int, 0int,
{
    lemma_leaves_agree(m, a, b, below(depth, u.max_depth as int), u, v);
}

#[verifier::spinoff_prover]
proof fn lemma_leaves_agree(m: MemoVal, a: Val, b: Val, depth: int, u: Rules, v: Rules)
    requires
        agree(u, v),
        tokenless(a),
        tokenless(b),
    ensures
        leaves_between(m, a, b, depth, u) == leaves_between(m, a, b, depth, v),
    decreases a, 8int, 0int, 0int,
{
    match (a, b) {
        (Val::Array(x), Val::Array(y)) => lemma_list_leaves_agree(m, x, y, depth, u, v),
        (Val::Tuple(x), Val::Tuple(y)) => lemma_list_leaves_agree(m, x, y, depth, u, v),
        (Val::Object(p), Val::Object(q)) => {
            lemma_step(tokens_kept(u), tokens_kept(v), a, b);
            if object_step(tokens_kept(u), a, b) is Walk {
                assert(leaves_between(m, a, b, depth, u) == leaves_between_objects(
                    m,
                    p,
                    q,
                    depth,
                    u,
                ));
                assert(leaves_between(m, a, b, depth, v) == leaves_between_objects(
                    m,
                    p,
                    q,
                    depth,
                    v,
                ));
                if !low_overlap(p.entries, q.entries) {
                    lemma_entry_leaves_agree(m, p, q, depth, u, v, 0, 0);
                }
            }
        },
        _ => {},
    }
}

proof fn lemma_list_leaves_agree(
    m: MemoVal,
    x: Seq<Val>,
    y: Seq<Val>,
    depth: int,
    u: Rules,
    v: Rules,
)
    requires
        agree(u, v),
        all_tokenless(x),
        all_tokenless(y),
    ensures
        leaves_between_lists(m, x, y, depth, u) == leaves_between_lists(m, x, y, depth, v),
    decreases x, 8int, 0int, 0int,
{
    let limit: usize = room(depth, u.max_depth as int) as usize;
    let s: Rules = Rules { max_depth: limit, ..u };
    let t: Rules = Rules { max_depth: limit, ..v };
    lemma_array_agree(m, seq![], x, y, 0, s, t);
}

proof fn lemma_entry_leaves_agree(
    m: MemoVal,
    p: ObjectVal,
    q: ObjectVal,
    depth: int,
    u: Rules,
    v: Rules,
    i: int,
    count: nat,
)
    requires
        agree(u, v),
        tokenless(Val::Object(p)),
        tokenless(Val::Object(q)),
    ensures
        leaves_between_entries(m, p.entries, q.entries, depth, u, i, count)
            == leaves_between_entries(m, p.entries, q.entries, depth, v, i, count),
    decreases p, 6int, p.entries.len() - i, 0int,
{
    let x: Seq<(KeyVal, Val)> = p.entries;
    let y: Seq<(KeyVal, Val)> = q.entries;
    lemma_entries_tokenless(p);
    lemma_entries_tokenless(q);
    if 0 <= i < x.len() {
        match partner(y, x[i].0) {
            None => {
                lemma_entry_leaves_agree(m, p, q, depth, u, v, i + 1, count + leaves(x[i].1));
            },
            Some(j) => {
                lemma_partner(y, x[i].0, 0);
                let next: int = below(depth, u.max_depth as int);
                let (n, more) = leaves_between(m, x[i].1, y[j].1, next, u);
                lemma_leaves_agree(m, x[i].1, y[j].1, next, u, v);
                lemma_entry_leaves_agree(n, p, q, depth, u, v, i + 1, count + more);
            },
        }
    }
}

proof fn lemma_found_agree(
    m: MemoVal,
    path: Seq<Seg>,
    lists: Lists,
    partners: Partners,
    depth: int,
    u: Rules,
    v: Rules,
    k: int,
    f: Findings,
)
    requires
        agree(u, v),
        listed_tokenless(lists),
    ensures
        pairs_found(m, path, lists, partners, depth, u, k, f) == pairs_found(
            m,
            path,
            lists,
            partners,
            depth,
            v,
            k,
            f,
        ),
    decreases lists.old, 1int, lists.added.len() - k, 0int,
{
    if 0 <= k < lists.added.len() {
        let j: int = added_at(lists, k);
        let b: Val = lists.new[j];
        match partners[k] {
            Some(p) => {
                let i: int = removed_at(lists, p.0 as int);
                if 0 <= i < lists.old.len() {
                    let a: Val = lists.old[i];
                    assert(tokenless(a) && tokenless(b));
                    let at: Seq<Seg> = item_path(path, i);
                    let (n, found) = diff_of(m, at, a, b, depth, u);
                    lemma_diff_agree(m, at, a, b, depth, u, v);
                    if let Ok(g) = found {
                        let g: Findings = mutual_merged(g);
                        let g: Findings = if i != j {
                            retagged(g, path.len() as int, j)
                        } else {
                            g
                        };
                        let h: Findings = merged(f, g);
                        lemma_found_agree(n, path, lists, partners, depth, u, v, k + 1, h);
                    }
                }
            },
            None => {
                let g: Findings = with_item_added(f, item_path(path, j), b);
                lemma_found_agree(m, path, lists, partners, depth, u, v, k + 1, g);
            },
        }
    }
}

/// Values that hold no token are compared alike whatever stands for tokens.
pub proof fn lemma_resolutions_neutral(m: MemoVal, a: Val, b: Val, u: Rules, v: Rules)
    requires
        agree(u, v),
        tokenless(a),
        tokenless(b),
    ensures
        comparison(m, a, b, u) == comparison(m, a, b, v),
{
    lemma_diff_agree(m, seq![], a, b, 0, u, v);
}

// ---------------------------------------------------------------------
// Comparisons that come to an end
// ---------------------------------------------------------------------

/// The value that stands for a token against another value, if one does: for a cycle
/// token only against a value of the class that it points back at.
pub open spec fn stand_in(resolutions: Seq<(Seq<char>, Val)>, value: Val, other: Val) -> Option<
    Val,
> {
    match value {
        Val::Object(object) => match resolution(resolutions, object.identity) {
            Some(r) => if token(value) && (object.kind == ObjectKind::Cycle ==> same_class(
                r,
                other,
            )) {
                Some(r)
            } else {
                None
            },
            None => None,
        },
        _ => None,
    }
}

/// In a comparison that comes to an end, tokens are compared as what stands for them,
/// unless the two are skipped.
pub proof fn lemma_tokens_resolved(opts: Rules, a: Val, b: Val)
    requires
        resolvable(opts.resolutions, opts.ignore_order, a, b),
        !skips(a, b),
    ensures
        ({
            let x = stand_in(opts.resolutions, a, b);
            let y = stand_in(opts.resolutions, b, in_place(x, a));
            x is Some || y is Some ==> object_step(opts, a, b) == Step::Resolve(
                in_place(x, a),
                in_place(y, b),
            )
        }),
{
    let res: Seq<(Seq<char>, Val)> = opts.resolutions;
    if settled(res, true, opts.ignore_order, a) {
        lemma_settled_ends(res, true, opts.ignore_order, a);
    } else {
        lemma_settled_ends(res, false, opts.ignore_order, b);
    }
    if let Val::Object(p) = a {
        if token(a) {
            lemma_settled_resolved(res, true, false, p);
        }
    }
    if let Val::Object(q) = b {
        if token(b) {
            lemma_settled_resolved(res, false, false, q);
        }
    }
}

/// What stands for tokens in a comparison that comes to an end is compared to an end.
pub proof fn lemma_resolvable_resolved(opts: Rules, a: Val, b: Val)
    requires
        resolvable(opts.resolutions, opts.ignore_order, a, b),
    ensures
        object_step(opts, a, b) matches Step::Resolve(x, y) ==> resolvable(
            opts.resolutions,
            opts.ignore_order,
            x,
            y,
        ),
{
    let res: Seq<(Seq<char>, Val)> = opts.resolutions;
    if let Val::Object(p) = a {
        if token(a) && p.kind == ObjectKind::Opaque {
            lemma_settled_resolved(res, true, false, p);
            if settled(res, true, opts.ignore_order, a) {
                lemma_settled_resolved(res, true, opts.ignore_order, p);
            }
        }
    }
    if let Val::Object(q) = b {
        if token(b) {
            lemma_settled_resolved(res, false, false, q);
            if settled(res, false, opts.ignore_order, b) {
                lemma_settled_resolved(res, false, opts.ignore_order, q);
            }
        }
    }
}

/// What two values hold in a comparison that comes to an end is compared to an end,
/// whatever goes together.
pub proof fn lemma_resolvable_parts(opts: Rules, a: Val, b: Val, i: int, j: int)
    requires
        resolvable(opts.resolutions, opts.ignore_order, a, b),
        !(a is MutableSet || a is FrozenSet),
        !(b is MutableSet || b is FrozenSet),
        0 <= i < children(a).len(),
        0 <= j < children(b).len(),
    ensures
        resolvable(opts.resolutions, opts.ignore_order, children(a)[i], children(b)[j]),
{
    let res: Seq<(Seq<char>, Val)> = opts.resolutions;
    lemma_settled_part(res, true, false, a, i);
    lemma_settled_part(res, false, false, b, j);
    if settled(res, true, opts.ignore_order, a) {
        lemma_settled_part(res, true, opts.ignore_order, a, i);
    } else {
        lemma_settled_part(res, false, opts.ignore_order, b, j);
    }
}

} // verus!
