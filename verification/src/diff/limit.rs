//! The limit on depth decides whether a comparison succeeds, never what it finds.

use vstd::prelude::*;

#[allow(unused_imports)]
use super::lists::{
    added_tail, code_outcome, code_pairs, codes_outcome, item_path, lcs_outcome, pair_outcome,
    pairs_outcome, removed_tail,
};
#[allow(unused_imports)]
use super::model::{
    all_basic, array_of, budget, crest, diff_of, ends, entries_of, lemma_links, lemma_list_pivot,
    lemma_resolve_nearer, links, list_links, lone_entries, mixed_of, new_entries, object_of,
    object_step, pivot, pivot_items, positional_of, with_added, with_removed, Step,
};
#[allow(unused_imports)]
use super::options::{comparison, Rules};
#[allow(unused_imports)]
use super::scalar::Outcome;
#[allow(unused_imports)]
use super::set::{member_path, members_outcome, set_outcome};
#[allow(unused_imports)]
use crate::ignore_order::dict_keys::{has_other_keys, low_overlap, partner};
#[allow(unused_imports)]
use crate::ignore_order::members::set_changes;
#[allow(unused_imports)]
use crate::ignore_order::memo::MemoVal;
#[allow(unused_imports)]
use crate::lcs::{opcodes_of, Code};
#[allow(unused_imports)]
use crate::order::lookup;
#[allow(unused_imports)]
use crate::path::{entry_seg, key_seg, Seg};
#[allow(unused_imports)]
use crate::report::{
    findings_count, merged, nothing, with_dict_added, with_dict_removed, with_item_added,
    with_item_removed, with_set_added, with_set_removed, Findings,
};
#[allow(unused_imports)]
use crate::value::{KeyVal, ObjectVal, Val};

verus! {

// ---------------------------------------------------------------------
// Lists of findings
// ---------------------------------------------------------------------

proof fn lemma_pairs_wider(
    f: Findings,
    path: Seq<Seg>,
    a: Seq<Val>,
    b: Seq<Val>,
    i: int,
    j: int,
    k: int,
    count: int,
    depth: int,
    limit: int,
    wider: int,
)
    requires
        limit <= wider,
        pairs_outcome(f, path, a, b, i, j, k, count, depth, limit) is Ok,
    ensures
        pairs_outcome(f, path, a, b, i, j, k, count, depth, wider) == pairs_outcome(
            f,
            path,
            a,
            b,
            i,
            j,
            k,
            count,
            depth,
            limit,
        ),
    decreases count - k,
{
    if k < count {
        let g: Outcome = pair_outcome(f, path, a, b, i + k, j + k, depth, limit);
        assert(pair_outcome(f, path, a, b, i + k, j + k, depth, wider) == g);
        lemma_pairs_wider(g->Ok_0, path, a, b, i, j, k + 1, count, depth, limit, wider);
    }
}

proof fn lemma_codes_wider(
    f: Findings,
    path: Seq<Seg>,
    a: Seq<Val>,
    b: Seq<Val>,
    codes: Seq<Code>,
    k: int,
    depth: int,
    limit: int,
    wider: int,
)
    requires
        limit <= wider,
        codes_outcome(f, path, a, b, codes, k, depth, limit) is Ok,
    ensures
        codes_outcome(f, path, a, b, codes, k, depth, wider) == codes_outcome(
            f,
            path,
            a,
            b,
            codes,
            k,
            depth,
            limit,
        ),
    decreases codes.len() - k,
{
    if 0 <= k < codes.len() {
        let c: Code = codes[k];
        let g: Outcome = code_outcome(f, path, a, b, c, depth, limit);
        if c.tag == crate::lcs::Tag::Replace {
            lemma_pairs_wider(f, path, a, b, c.a1, c.b1, 0, code_pairs(c), depth, limit, wider);
        }
        assert(code_outcome(f, path, a, b, c, depth, wider) == g);
        lemma_codes_wider(g->Ok_0, path, a, b, codes, k + 1, depth, limit, wider);
    }
}

proof fn lemma_removed_tail_wider(
    f: Findings,
    path: Seq<Seg>,
    a: Seq<Val>,
    i: int,
    depth: int,
    limit: int,
    wider: int,
)
    requires
        limit <= wider,
        removed_tail(f, path, a, i, depth, limit) is Ok,
    ensures
        removed_tail(f, path, a, i, depth, wider) == removed_tail(f, path, a, i, depth, limit),
    decreases a.len() - i,
{
    if i < a.len() {
        let g: Findings = with_item_removed(f, item_path(path, i), a[i]);
        lemma_removed_tail_wider(g, path, a, i + 1, depth, limit, wider);
    }
}

proof fn lemma_added_tail_wider(
    f: Findings,
    path: Seq<Seg>,
    b: Seq<Val>,
    i: int,
    depth: int,
    limit: int,
    wider: int,
)
    requires
        limit <= wider,
        added_tail(f, path, b, i, depth, limit) is Ok,
    ensures
        added_tail(f, path, b, i, depth, wider) == added_tail(f, path, b, i, depth, limit),
    decreases b.len() - i,
{
    if i < b.len() {
        let g: Findings = with_item_added(f, item_path(path, i), b[i]);
        lemma_added_tail_wider(g, path, b, i + 1, depth, limit, wider);
    }
}

proof fn lemma_members_wider(
    f: Findings,
    path: Seq<Seg>,
    items: Seq<Val>,
    positions: Seq<usize>,
    k: int,
    added: bool,
    depth: int,
    limit: int,
    wider: int,
)
    requires
        limit <= wider,
        members_outcome(f, path, items, positions, k, added, depth, limit) is Ok,
    ensures
        members_outcome(f, path, items, positions, k, added, depth, wider) == members_outcome(
            f,
            path,
            items,
            positions,
            k,
            added,
            depth,
            limit,
        ),
    decreases positions.len() - k,
{
    if 0 <= k < positions.len() {
        let item: Val = items[positions[k] as int];
        let at: Seq<Seg> = member_path(path, item);
        let g: Findings = if added {
            with_set_added(f, at, item)
        } else {
            with_set_removed(f, at, item)
        };
        lemma_members_wider(g, path, items, positions, k + 1, added, depth, limit, wider);
    }
}

proof fn lemma_new_entries_wider(
    f: Findings,
    path: Seq<Seg>,
    p: ObjectVal,
    q: ObjectVal,
    i: int,
    depth: int,
    limit: int,
    wider: int,
)
    requires
        limit <= wider,
        new_entries(f, path, p, q, i, depth, limit) is Ok,
    ensures
        new_entries(f, path, p, q, i, depth, wider) == new_entries(
            f,
            path,
            p,
            q,
            i,
            depth,
            limit,
        ),
    decreases q.entries.len() - i,
{
    if 0 <= i < q.entries.len() {
        let (key, value) = q.entries[i];
        let at: Seq<Seg> = path.push(entry_seg(p.kind, key));
        let g: Findings = if lookup(p.entries, key) is Some {
            f
        } else {
            with_added(f, p.kind, at, value)
        };
        lemma_new_entries_wider(g, path, p, q, i + 1, depth, limit, wider);
    }
}

proof fn lemma_lone_wider(
    f: Findings,
    path: Seq<Seg>,
    entries: Seq<(KeyVal, Val)>,
    others: Seq<(KeyVal, Val)>,
    i: int,
    added: bool,
    depth: int,
    limit: int,
    wider: int,
)
    requires
        limit <= wider,
        lone_entries(f, path, entries, others, i, added, depth, limit) is Ok,
    ensures
        lone_entries(f, path, entries, others, i, added, depth, wider) == lone_entries(
            f,
            path,
            entries,
            others,
            i,
            added,
            depth,
            limit,
        ),
    decreases entries.len() - i,
{
    if 0 <= i < entries.len() {
        let (key, value) = entries[i];
        let at: Seq<Seg> = path.push(key_seg(key));
        let g: Findings = if partner(others, key) is Some {
            f
        } else if added {
            with_dict_added(f, at, value)
        } else {
            with_dict_removed(f, at, value)
        };
        lemma_lone_wider(g, path, entries, others, i + 1, added, depth, limit, wider);
    }
}

proof fn lemma_set_wider(
    m: MemoVal,
    path: Seq<Seg>,
    a: Seq<Val>,
    b: Seq<Val>,
    depth: int,
    limit: int,
    wider: int,
)
    requires
        limit <= wider,
        set_outcome(m, path, a, b, depth, limit).1 is Ok,
    ensures
        set_outcome(m, path, a, b, depth, wider) == set_outcome(m, path, a, b, depth, limit),
{
    let (n, removed, added) = set_changes(m, a, b);
    let f: Outcome = members_outcome(nothing(), path, a, removed, 0, false, depth, limit);
    lemma_members_wider(nothing(), path, a, removed, 0, false, depth, limit, wider);
    lemma_members_wider(f->Ok_0, path, b, added, 0, true, depth, limit, wider);
}

// ---------------------------------------------------------------------
// The recursion
// ---------------------------------------------------------------------

proof fn lemma_diff_wider(
    m: MemoVal,
    path: Seq<Seg>,
    a: Val,
    b: Val,
    depth: int,
    opts: Rules,
    wide: Rules,
)
    requires
        !opts.ignore_order,
        !wide.ignore_order,
        opts.max_depth <= wide.max_depth,
        opts.resolutions == wide.resolutions,
        diff_of(m, path, a, b, depth, opts).1 is Ok,
    ensures
        diff_of(m, path, a, b, depth, wide) == diff_of(m, path, a, b, depth, opts),
    decreases
            budget(depth, opts.max_depth as int),
            links(opts, a, b),
            pivot(opts, a, b),
            9int,
            ends(opts, a, b),
            0int,
{
    let limit: int = opts.max_depth as int;
    let wider: int = wide.max_depth as int;
    match (a, b) {
        (Val::Array(x), Val::Array(y)) => {
            lemma_list_pivot(opts, a, b);
            lemma_array_wider(m, path, x, y, depth, opts, wide);
        },
        (Val::Tuple(x), Val::Tuple(y)) => {
            lemma_list_pivot(opts, a, b);
            lemma_array_wider(m, path, x, y, depth, opts, wide);
        },
        (Val::MutableSet(x), Val::MutableSet(y)) => lemma_set_wider(
            m,
            path,
            x,
            y,
            depth,
            limit,
            wider,
        ),
        (Val::FrozenSet(x), Val::FrozenSet(y)) => lemma_set_wider(
            m,
            path,
            x,
            y,
            depth,
            limit,
            wider,
        ),
        _ => {
            if a is Object || b is Object {
                lemma_resolve_nearer(opts, a, b);
                match object_step(opts, a, b) {
                    Step::Resolve(x, y) => lemma_diff_wider(m, path, x, y, depth, opts, wide),
                    Step::Walk(p, q) => lemma_object_wider(m, path, p, q, depth, opts, wide),
                    _ => {},
                }
            }
        },
    }
}

proof fn lemma_array_wider(
    m: MemoVal,
    path: Seq<Seg>,
    x: Seq<Val>,
    y: Seq<Val>,
    depth: int,
    opts: Rules,
    wide: Rules,
)
    requires
        !opts.ignore_order,
        !wide.ignore_order,
        opts.max_depth <= wide.max_depth,
        opts.resolutions == wide.resolutions,
        depth <= opts.max_depth,
        array_of(m, path, x, y, depth, opts).1 is Ok,
    ensures
        array_of(m, path, x, y, depth, wide) == array_of(m, path, x, y, depth, opts),
    decreases
            budget(depth, opts.max_depth as int),
            list_links(opts, x, y),
            pivot_items(opts, x, y),
            7int,
            0int,
            0int,
{
    let limit: int = opts.max_depth as int;
    let wider: int = wide.max_depth as int;
    if all_basic(x) && all_basic(y) {
        let found: Outcome = lcs_outcome(path, x, y, depth, limit);
        lemma_codes_wider(
            nothing(),
            path,
            x,
            y,
            opcodes_of(x, y, false),
            0,
            depth,
            limit,
            wider,
        );
        if findings_count(found->Ok_0) > 1 {
            lemma_positional_wider(m, path, x, y, depth, opts, wide, 0, nothing());
        }
    } else {
        lemma_positional_wider(m, path, x, y, depth, opts, wide, 0, nothing());
    }
}

proof fn lemma_positional_wider(
    m: MemoVal,
    path: Seq<Seg>,
    x: Seq<Val>,
    y: Seq<Val>,
    depth: int,
    opts: Rules,
    wide: Rules,
    i: int,
    f: Findings,
)
    requires
        !opts.ignore_order,
        !wide.ignore_order,
        opts.max_depth <= wide.max_depth,
        opts.resolutions == wide.resolutions,
        positional_of(m, path, x, y, depth, opts, i, f).1 is Ok,
    ensures
        positional_of(m, path, x, y, depth, wide, i, f) == positional_of(
            m,
            path,
            x,
            y,
            depth,
            opts,
            i,
            f,
        ),
    decreases budget(depth + 1, opts.max_depth as int), crest(opts), x, 0int, x.len() - i, 0int,
{
    let limit: int = opts.max_depth as int;
    let wider: int = wide.max_depth as int;
    if 0 <= i < x.len() && i < y.len() {
        let at: Seq<Seg> = item_path(path, i);
        let (n, found) = diff_of(m, at, x[i], y[i], depth + 1, opts);
        lemma_links(opts, x[i], y[i]);
        lemma_diff_wider(m, at, x[i], y[i], depth + 1, opts, wide);
        lemma_positional_wider(
            n,
            path,
            x,
            y,
            depth,
            opts,
            wide,
            i + 1,
            merged(f, found->Ok_0),
        );
    } else {
        let g: Outcome = removed_tail(f, path, x, i, depth, limit);
        lemma_removed_tail_wider(f, path, x, i, depth, limit, wider);
        lemma_added_tail_wider(g->Ok_0, path, y, i, depth, limit, wider);
    }
}

proof fn lemma_object_wider(
    m: MemoVal,
    path: Seq<Seg>,
    p: ObjectVal,
    q: ObjectVal,
    depth: int,
    opts: Rules,
    wide: Rules,
)
    requires
        !opts.ignore_order,
        !wide.ignore_order,
        opts.max_depth <= wide.max_depth,
        opts.resolutions == wide.resolutions,
        object_of(m, path, p, q, depth, opts).1 is Ok,
    ensures
        object_of(m, path, p, q, depth, wide) == object_of(m, path, p, q, depth, opts),
    decreases budget(depth + 1, opts.max_depth as int), crest(opts), p, 1int, 0int, 0int,
{
    if !low_overlap(p.entries, q.entries) {
        if has_other_keys(p.entries) || has_other_keys(q.entries) {
            lemma_mixed_wider(m, path, p, q, depth, opts, wide, 0, nothing());
        } else {
            lemma_entries_wider(m, path, p, q, depth, opts, wide, 0, nothing());
        }
    }
}

proof fn lemma_entries_wider(
    m: MemoVal,
    path: Seq<Seg>,
    p: ObjectVal,
    q: ObjectVal,
    depth: int,
    opts: Rules,
    wide: Rules,
    i: int,
    f: Findings,
)
    requires
        !opts.ignore_order,
        !wide.ignore_order,
        opts.max_depth <= wide.max_depth,
        opts.resolutions == wide.resolutions,
        entries_of(m, path, p, q, depth, opts, i, f).1 is Ok,
    ensures
        entries_of(m, path, p, q, depth, wide, i, f) == entries_of(
            m,
            path,
            p,
            q,
            depth,
            opts,
            i,
            f,
        ),
    decreases
            budget(depth + 1, opts.max_depth as int),
            crest(opts),
            p,
            0int,
            p.entries.len() - i,
            0int,
{
    if 0 <= i < p.entries.len() {
        let (key, value) = p.entries[i];
        let at: Seq<Seg> = path.push(entry_seg(p.kind, key));
        match lookup(q.entries, key) {
            None => lemma_entries_wider(
                m,
                path,
                p,
                q,
                depth,
                opts,
                wide,
                i + 1,
                with_removed(f, p.kind, at, value),
            ),
            Some(other) => {
                let (n, found) = diff_of(m, at, value, other, depth + 1, opts);
                lemma_links(opts, value, other);
                lemma_diff_wider(m, at, value, other, depth + 1, opts, wide);
                lemma_entries_wider(
                    n,
                    path,
                    p,
                    q,
                    depth,
                    opts,
                    wide,
                    i + 1,
                    merged(f, found->Ok_0),
                );
            },
        }
    } else {
        lemma_new_entries_wider(
            f,
            path,
            p,
            q,
            0,
            depth,
            opts.max_depth as int,
            wide.max_depth as int,
        );
    }
}

proof fn lemma_mixed_wider(
    m: MemoVal,
    path: Seq<Seg>,
    p: ObjectVal,
    q: ObjectVal,
    depth: int,
    opts: Rules,
    wide: Rules,
    i: int,
    f: Findings,
)
    requires
        !opts.ignore_order,
        !wide.ignore_order,
        opts.max_depth <= wide.max_depth,
        opts.resolutions == wide.resolutions,
        mixed_of(m, path, p, q, depth, opts, i, f).1 is Ok,
    ensures
        mixed_of(m, path, p, q, depth, wide, i, f) == mixed_of(m, path, p, q, depth, opts, i, f),
    decreases
            budget(depth + 1, opts.max_depth as int),
            crest(opts),
            p,
            0int,
            p.entries.len() - i,
            0int,
{
    let limit: int = opts.max_depth as int;
    let wider: int = wide.max_depth as int;
    if 0 <= i < p.entries.len() {
        match partner(q.entries, p.entries[i].0) {
            None => lemma_mixed_wider(m, path, p, q, depth, opts, wide, i + 1, f),
            Some(j) => {
                let at: Seq<Seg> = path.push(key_seg(q.entries[j].0));
                let value: Val = p.entries[i].1;
                let other: Val = q.entries[j].1;
                let (n, found) = diff_of(m, at, value, other, depth + 1, opts);
                lemma_links(opts, value, other);
                lemma_diff_wider(m, at, value, other, depth + 1, opts, wide);
                lemma_mixed_wider(
                    n,
                    path,
                    p,
                    q,
                    depth,
                    opts,
                    wide,
                    i + 1,
                    merged(f, found->Ok_0),
                );
            },
        }
    } else {
        let g: Outcome = lone_entries(f, path, p.entries, q.entries, 0, false, depth, limit);
        lemma_lone_wider(f, path, p.entries, q.entries, 0, false, depth, limit, wider);
        lemma_lone_wider(g->Ok_0, path, q.entries, p.entries, 0, true, depth, limit, wider);
    }
}

/// The limit on depth decides whether a comparison in order succeeds, never what
/// it finds: one that succeeds finds the same under every wider limit.
pub proof fn lemma_wider_limit(
    m: MemoVal,
    a: Val,
    b: Val,
    opts: Rules,
    wide: Rules,
)
    requires
        !opts.ignore_order,
        !wide.ignore_order,
        opts.max_depth <= wide.max_depth,
        opts.resolutions == wide.resolutions,
        comparison(m, a, b, opts).1 is Ok,
    ensures
        comparison(m, a, b, wide) == comparison(m, a, b, opts),
{
    if !super::equality::same_value(a, b) {
        lemma_diff_wider(m, seq![], a, b, 0, opts, wide);
    }
}

} // verus!
