//! What becomes of the items of two lists that are compared in order.

use vstd::prelude::*;

#[allow(unused_imports)]
use super::lists::{added_tail, item_path, lcs_outcome, removed_tail};
#[allow(unused_imports)]
use super::model::{all_basic, array_of, diff_of, positional_of, smaller_of};
#[allow(unused_imports)]
use super::options::Rules;
#[allow(unused_imports)]
use super::places::lemma_found_below;
#[allow(unused_imports)]
use super::scalar::Outcome;
#[allow(unused_imports)]
use super::spots::{
    bare, come, gone, leads, lemma_leads, lemma_spot_merged, lemma_spot_nothing, lemma_spot_with,
    lemma_spot_within, over, same_below, shows, sole, spot, Spot,
};
#[allow(unused_imports)]
use crate::count::capped;
#[allow(unused_imports)]
use crate::ignore_order::memo::MemoVal;
#[allow(unused_imports)]
use crate::path::Seg;
#[allow(unused_imports)]
use crate::report::{
    findings_count, merged, nothing, orderly, with_item_added, with_item_removed, Findings,
};
#[allow(unused_imports)]
use crate::value::Val;

verus! {

// ---------------------------------------------------------------------
// Positions
// ---------------------------------------------------------------------

/// The position to which a path leads by one step behind another path, or less than
/// nothing.
pub open spec fn position(path: Seq<Seg>, q: Seq<Seg>) -> int {
    if q.len() == path.len() + 1 && path.is_prefix_of(q) {
        match q.last() {
            Seg::Index(k) => k,
            _ => -1,
        }
    } else {
        -1
    }
}

/// Whether a path leads through a position from `i` on behind another path.
pub open spec fn behind(path: Seq<Seg>, q: Seq<Seg>, i: int) -> bool {
    path.is_prefix_of(q) && path.len() < q.len() && (q[path.len() as int] matches Seg::Index(k) && k
        >= i)
}

/// The path of a position.
pub proof fn lemma_position(path: Seq<Seg>, q: Seq<Seg>, k: int)
    requires
        k >= 0,
    ensures
        position(path, q) == k <==> q == path.push(Seg::Index(k)),
        leads(path, Seg::Index(k), q) ==> behind(path, q, k),
{
    lemma_leads(path, Seg::Index(k), q);
    lemma_leads(path, Seg::Index(k), path.push(Seg::Index(k)));
    if position(path, q) == k {
        assert(q =~= path.push(Seg::Index(k))) by {
            assert forall|t: int| 0 <= t < path.len() implies q[t] == path[t] by {
                assert(q.subrange(0, path.len() as int)[t] == path[t]);
            }
        }
    }
}

/// The items of a tail are recorded as removed, each at its position.
proof fn lemma_removed_tail(
    f: Findings,
    path: Seq<Seg>,
    a: Seq<Val>,
    i: int,
    depth: int,
    limit: int,
)
    requires
        orderly(f),
        0 <= i,
        removed_tail(f, path, a, i, depth, limit) is Ok,
    ensures
        orderly(removed_tail(f, path, a, i, depth, limit)->Ok_0),
        forall|q: Seq<Seg>| #[trigger]
            spot(removed_tail(f, path, a, i, depth, limit)->Ok_0, q) == if i <= position(path, q)
                < a.len() {
                Spot { item_removed: Some(a[position(path, q)]), ..spot(f, q) }
            } else {
                spot(f, q)
            },
    decreases a.len() - i,
{
    if i < a.len() {
        let at: Seq<Seg> = item_path(path, i);
        let g: Findings = with_item_removed(f, at, a[i]);
        lemma_spot_with(f, at);
        lemma_removed_tail(g, path, a, i + 1, depth, limit);
        let h: Findings = removed_tail(f, path, a, i, depth, limit)->Ok_0;
        assert forall|q: Seq<Seg>| #[trigger] spot(h, q) == if i <= position(path, q) < a.len() {
            Spot { item_removed: Some(a[position(path, q)]), ..spot(f, q) }
        } else {
            spot(f, q)
        } by {
            lemma_position(path, q, i);
            assert(spot(g, q) == if q == at {
                Spot { item_removed: Some(a[i]), ..spot(f, q) }
            } else {
                spot(f, q)
            });
        }
    }
}

/// The items of a tail are recorded as added, each at its position.
proof fn lemma_added_tail(
    f: Findings,
    path: Seq<Seg>,
    b: Seq<Val>,
    i: int,
    depth: int,
    limit: int,
)
    requires
        orderly(f),
        0 <= i,
        added_tail(f, path, b, i, depth, limit) is Ok,
    ensures
        orderly(added_tail(f, path, b, i, depth, limit)->Ok_0),
        forall|q: Seq<Seg>| #[trigger]
            spot(added_tail(f, path, b, i, depth, limit)->Ok_0, q) == if i <= position(path, q)
                < b.len() {
                Spot { item_added: Some(b[position(path, q)]), ..spot(f, q) }
            } else {
                spot(f, q)
            },
    decreases b.len() - i,
{
    if i < b.len() {
        let at: Seq<Seg> = item_path(path, i);
        let g: Findings = with_item_added(f, at, b[i]);
        lemma_spot_with(f, at);
        lemma_added_tail(g, path, b, i + 1, depth, limit);
        let h: Findings = added_tail(f, path, b, i, depth, limit)->Ok_0;
        assert forall|q: Seq<Seg>| #[trigger] spot(h, q) == if i <= position(path, q) < b.len() {
            Spot { item_added: Some(b[position(path, q)]), ..spot(f, q) }
        } else {
            spot(f, q)
        } by {
            lemma_position(path, q, i);
            assert(spot(g, q) == if q == at {
                Spot { item_added: Some(b[i]), ..spot(f, q) }
            } else {
                spot(f, q)
            });
        }
    }
}

// ---------------------------------------------------------------------
// Position by position
// ---------------------------------------------------------------------

/// What is found from a position on, and that nothing else changes.
#[verifier::rlimit(50)]
#[verifier::spinoff_prover]
proof fn lemma_positional(
    m: MemoVal,
    path: Seq<Seg>,
    x: Seq<Val>,
    y: Seq<Val>,
    depth: int,
    opts: Rules,
    i: int,
    f: Findings,
    h: Findings,
)
    requires
        orderly(f),
        0 <= i,
        i <= x.len() && i <= y.len(),
        positional_of(m, path, x, y, depth, opts, i, f).1 == Outcome::Ok(h),
        forall|q: Seq<Seg>| behind(path, q, i) ==> #[trigger] spot(f, q) == bare(),
    ensures
        orderly(h),
        forall|q: Seq<Seg>| !behind(path, q, i) ==> #[trigger] spot(h, q) == spot(f, q),
        forall|k: int|
            #![trigger x[k]]
            i <= k < x.len() && k < y.len() ==> shows(
                h,
                path.push(Seg::Index(k)),
                x[k],
                y[k],
                depth + 1,
                opts,
            ),
        forall|k: int|
            #![trigger x[k]]
            y.len() <= k < x.len() ==> sole(h, path.push(Seg::Index(k)), gone(x[k])),
        forall|k: int|
            #![trigger y[k]]
            x.len() <= k < y.len() ==> sole(h, path.push(Seg::Index(k)), come(y[k])),
        forall|q: Seq<Seg>|
            behind(path, q, x.len() as int) && behind(path, q, y.len() as int) ==> #[trigger] spot(
                h,
                q,
            ) == bare(),
    decreases x.len() - i,
{
    let limit: int = opts.max_depth as int;
    if i < x.len() && i < y.len() {
        let at: Seq<Seg> = item_path(path, i);
        let (n, found) = diff_of(m, at, x[i], y[i], depth + 1, opts);
        let g: Findings = found->Ok_0;
        lemma_found_below(m, at, x[i], y[i], depth + 1, opts);
        lemma_spot_merged(f, g);
        let both: Findings = merged(f, g);
        assert forall|q: Seq<Seg>| !at.is_prefix_of(q) implies #[trigger] spot(both, q) == spot(
            f,
            q,
        ) by {
            lemma_spot_within(g, at, q);
            assert(spot(both, q) == over(spot(f, q), spot(g, q)));
        }
        assert forall|q: Seq<Seg>| at.is_prefix_of(q) implies #[trigger] spot(both, q) == spot(
            g,
            q,
        ) by {
            lemma_position(path, q, i);
            assert(spot(both, q) == over(spot(f, q), spot(g, q)));
            assert(spot(f, q) == bare());
        }
        assert forall|q: Seq<Seg>| behind(path, q, i + 1) implies #[trigger] spot(both, q)
            == bare() by {
            lemma_leads(path, Seg::Index(i), q);
            assert(!at.is_prefix_of(q));
            assert(behind(path, q, i));
            assert(spot(f, q) == bare());
        }
        lemma_positional(n, path, x, y, depth, opts, i + 1, both, h);
        assert forall|q: Seq<Seg>| !behind(path, q, i) implies #[trigger] spot(h, q) == spot(
            f,
            q,
        ) by {
            lemma_position(path, q, i);
            assert(!behind(path, q, i + 1));
            assert(spot(both, q) == spot(f, q));
        }
        assert(same_below(h, g, at)) by {
            assert forall|q: Seq<Seg>| at.is_prefix_of(q) implies #[trigger] spot(h, q) == spot(
                g,
                q,
            ) by {
                lemma_leads(path, Seg::Index(i), q);
                assert(!behind(path, q, i + 1));
                assert(spot(both, q) == spot(g, q));
            }
        }
        assert(diff_of(m, at, x[i], y[i], depth + 1, opts).1 is Ok);
    } else {
        let g: Findings = removed_tail(f, path, x, i, depth, limit)->Ok_0;
        lemma_removed_tail(f, path, x, i, depth, limit);
        lemma_added_tail(g, path, y, i, depth, limit);
        assert forall|q: Seq<Seg>| #[trigger] spot(h, q) == if i <= position(path, q) < x.len() {
            gone(x[position(path, q)])
        } else if i <= position(path, q) < y.len() {
            come(y[position(path, q)])
        } else {
            spot(f, q)
        } by {
            assert(spot(h, q) == if i <= position(path, q) < y.len() {
                Spot { item_added: Some(y[position(path, q)]), ..spot(g, q) }
            } else {
                spot(g, q)
            });
            assert(spot(g, q) == if i <= position(path, q) < x.len() {
                Spot { item_removed: Some(x[position(path, q)]), ..spot(f, q) }
            } else {
                spot(f, q)
            });
            if position(path, q) >= i {
                lemma_position(path, q, position(path, q));
                lemma_leads(path, Seg::Index(position(path, q)), q);
                assert(behind(path, q, i));
            }
        }
        assert forall|q: Seq<Seg>| !behind(path, q, i) implies #[trigger] spot(h, q) == spot(
            f,
            q,
        ) by {
            if position(path, q) >= i {
                lemma_position(path, q, position(path, q));
                lemma_leads(path, Seg::Index(position(path, q)), q);
            }
        }
        assert forall|k: int| #![trigger x[k]] y.len() <= k < x.len() implies sole(
            h,
            path.push(Seg::Index(k)),
            gone(x[k]),
        ) by {
            lemma_tail_sole(h, f, path, i, k, gone(x[k]));
        }
        assert forall|k: int| #![trigger y[k]] x.len() <= k < y.len() implies sole(
            h,
            path.push(Seg::Index(k)),
            come(y[k]),
        ) by {
            lemma_tail_sole(h, f, path, i, k, come(y[k]));
        }
    }
}

/// What stands at a position alone, where a report holds nothing else there.
proof fn lemma_tail_sole(
    h: Findings,
    f: Findings,
    path: Seq<Seg>,
    i: int,
    k: int,
    only: Spot,
)
    requires
        0 <= i <= k,
        spot(h, path.push(Seg::Index(k))) == only,
        forall|q: Seq<Seg>| behind(path, q, i) ==> #[trigger] spot(f, q) == bare(),
        forall|q: Seq<Seg>| position(path, q) < 0 ==> #[trigger] spot(h, q) == spot(f, q),
    ensures
        sole(h, path.push(Seg::Index(k)), only),
{
    let at: Seq<Seg> = path.push(Seg::Index(k));
    assert forall|q: Seq<Seg>| at.is_prefix_of(q) implies #[trigger] spot(h, q) == if q == at {
        only
    } else {
        bare()
    } by {
        lemma_leads(path, Seg::Index(k), q);
        lemma_position(path, q, k);
        if q != at {
            if position(path, q) >= 0 {
                lemma_position(path, q, position(path, q));
                assert(q.last() == q[path.len() as int]);
            }
            assert(spot(f, q) == bare());
        }
    }
}

/// Whether a report tells of two lists position by position: what is found at a position
/// of both, and below it, is what comparing the two items there finds; an item of the
/// first behind the end of the second is removed, an item of the second behind the end
/// of the first is added, each at its position and with its value; and nothing else is
/// found.
pub open spec fn by_position(
    f: Findings,
    path: Seq<Seg>,
    x: Seq<Val>,
    y: Seq<Val>,
    depth: int,
    opts: Rules,
) -> bool {
    &&& forall|k: int|
        #![trigger x[k]]
        0 <= k < x.len() && k < y.len() ==> shows(
            f,
            path.push(Seg::Index(k)),
            x[k],
            y[k],
            depth + 1,
            opts,
        )
    &&& forall|k: int|
        #![trigger x[k]]
        y.len() <= k < x.len() ==> sole(f, path.push(Seg::Index(k)), gone(x[k]))
    &&& forall|k: int|
        #![trigger y[k]]
        x.len() <= k < y.len() ==> sole(f, path.push(Seg::Index(k)), come(y[k]))
    &&& forall|q: Seq<Seg>|
        #[trigger] spot(f, q) != bare() ==> behind(path, q, 0) && (!behind(
            path,
            q,
            x.len() as int,
        ) || !behind(path, q, y.len() as int))
}

/// Two lists or tuples that hold more than scalars are told of position by position.
pub proof fn lemma_by_position(
    m: MemoVal,
    path: Seq<Seg>,
    a: Val,
    b: Val,
    x: Seq<Val>,
    y: Seq<Val>,
    depth: int,
    opts: Rules,
    f: Findings,
)
    requires
        (a == Val::Array(x) && b == Val::Array(y)) || (a == Val::Tuple(x) && b == Val::Tuple(y)),
        !opts.ignore_order,
        !(all_basic(x) && all_basic(y)),
        diff_of(m, path, a, b, depth, opts).1 == Outcome::Ok(f),
    ensures
        by_position(f, path, x, y, depth, opts),
{
    lemma_spot_nothing();
    assert(diff_of(m, path, a, b, depth, opts) == array_of(m, path, x, y, depth, opts));
    assert(array_of(m, path, x, y, depth, opts) == positional_of(
        m,
        path,
        x,
        y,
        depth,
        opts,
        0,
        nothing(),
    ));
    lemma_positional(m, path, x, y, depth, opts, 0, nothing(), f);
}

/// Two lists or tuples of scalars are told of by their longest common parts, or position
/// by position where that takes fewer findings or as many; one finding by their longest
/// common parts, or none, stands.
pub proof fn lemma_scalar_lists(
    m: MemoVal,
    path: Seq<Seg>,
    a: Val,
    b: Val,
    x: Seq<Val>,
    y: Seq<Val>,
    depth: int,
    opts: Rules,
    f: Findings,
) -> (common: Findings)
    requires
        (a == Val::Array(x) && b == Val::Array(y)) || (a == Val::Tuple(x) && b == Val::Tuple(y)),
        !opts.ignore_order,
        all_basic(x),
        all_basic(y),
        diff_of(m, path, a, b, depth, opts).1 == Outcome::Ok(f),
    ensures
        lcs_outcome(path, x, y, depth, opts.max_depth as int) == Outcome::Ok(common),
        findings_count(common) <= 1 ==> f == common,
        f == common || (by_position(f, path, x, y, depth, opts) && capped(findings_count(f))
            <= capped(findings_count(common))),
{
    let common: Findings = lcs_outcome(path, x, y, depth, opts.max_depth as int)->Ok_0;
    lemma_spot_nothing();
    assert(diff_of(m, path, a, b, depth, opts) == array_of(m, path, x, y, depth, opts));
    assert(array_of(m, path, x, y, depth, opts) == smaller_of(m, path, x, y, depth, opts));
    if f != common {
        lemma_positional(m, path, x, y, depth, opts, 0, nothing(), f);
    }
    common
}

} // verus!
