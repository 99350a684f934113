//! What becomes of the items of two lists of scalars that are compared by their longest
//! common parts.

use vstd::prelude::*;

#[allow(unused_imports)]
use super::items::{lemma_position, position};
#[allow(unused_imports)]
use super::lists::{
    added_run, code_outcome, code_pairs, codes_outcome, item_path, lcs_outcome, pair_outcome,
    pairs_outcome, removed_run,
};
#[allow(unused_imports)]
use super::scalar::{type_text, Outcome};
#[allow(unused_imports)]
use super::spots::{bare, lemma_spot_nothing, lemma_spot_with, spot, Spot};
#[allow(unused_imports)]
use crate::lcs::{
    best_match, class_lists, codes_from, collapsed, common, gap, inside, kept_classes, kept_range,
    lemma_best_match, lemma_opcodes_cover, lemma_tiles_bounds, lemma_tiles_one_by_one,
    matching_blocks, meets, occurrences, opcodes_of, part_before, part_behind, raw_blocks, same_run,
    tiles, whole, Block, Code, Span, Tag,
};
#[allow(unused_imports)]
use crate::path::Seg;
#[allow(unused_imports)]
use crate::report::{nothing, orderly, with_item_added, with_item_removed, Findings};
#[allow(unused_imports)]
use crate::scalar_key::{lemma_classes, python_scalar, python_scalars, share_key, ScalarVal};
#[allow(unused_imports)]
use crate::unified_diff::unified_values;
#[allow(unused_imports)]
use crate::value::Val;

verus! {

// ---------------------------------------------------------------------
// What stands at a position
// ---------------------------------------------------------------------

/// Whether nothing is said of the item of the first list at a position.
pub open spec fn passed_over(s: Spot) -> bool {
    s.type_change is None && s.value_change is None && s.item_removed is None
}

/// Whether two entries say the same of an item of the first list.
spec fn same_old(s: Spot, t: Spot) -> bool {
    s.type_change == t.type_change && s.value_change == t.value_change && s.item_removed
        == t.item_removed
}

/// Whether an entry says that the item of the first list is removed, and no more of it.
pub open spec fn dropped(s: Spot, value: Val) -> bool {
    s.type_change is None && s.value_change is None && s.item_removed == Some(value)
}

/// Whether an entry says of an item of the first list that it became another: exactly
/// one change with both values, of the value if their Python types are the same and of
/// the type otherwise, and with the path of the new item where that stands elsewhere.
/// Datetimes are compared and given in their UTC form, and two of one instant are no
/// change.
pub open spec fn exchanged(s: Spot, u: Val, v: Val, new_path: Option<Seq<Seg>>) -> bool {
    &&& s.item_removed is None
    &&& match (u, v) {
        (Val::DateTime(d), Val::DateTime(e)) => match (d.spec_to_utc(), e.spec_to_utc()) {
            (Some(x), Some(y)) => {
                &&& s.type_change is None
                &&& s.value_change is None <==> x == y
                &&& s.value_change matches Some(c) ==> c.old_value == Val::DateTime(x)
                    && c.new_value == Val::DateTime(y) && c.new_path == new_path
            },
            _ => false,
        },
        _ => if type_text(u) == type_text(v) {
            s.type_change is None && (s.value_change matches Some(c) && c.old_value == u
                && c.new_value == v && c.new_path == new_path && c.diff == unified_values(u, v))
        } else {
            s.value_change is None && (s.type_change matches Some(c) && c.old_value == u
                && c.new_value == v && c.new_path == new_path && c.old_type == type_text(u)
                && c.new_type == type_text(v))
        },
    }
}

/// Where a new item stands, if elsewhere than the old one.
pub open spec fn elsewhere(path: Seq<Seg>, i: int, j: int) -> Option<Seq<Seg>> {
    if i == j {
        None
    } else {
        Some(path.push(Seg::Index(j)))
    }
}

/// Whether item `i` of the first list became item `j` of the second.
pub open spec fn became(
    f: Findings,
    path: Seq<Seg>,
    x: Seq<Val>,
    y: Seq<Val>,
    i: int,
    j: int,
) -> bool {
    exchanged(spot(f, path.push(Seg::Index(i))), x[i], y[j], elsewhere(path, i, j))
}

/// The items of a run are recorded as removed, each at its position.
proof fn lemma_removed_run(f: Findings, path: Seq<Seg>, a: Seq<Val>, i: int, stop: int)
    requires
        orderly(f),
        0 <= i,
    ensures
        orderly(removed_run(f, path, a, i, stop)),
        forall|q: Seq<Seg>| #[trigger]
            spot(removed_run(f, path, a, i, stop), q) == if i <= position(path, q) < stop {
                Spot { item_removed: Some(a[position(path, q)]), ..spot(f, q) }
            } else {
                spot(f, q)
            },
    decreases stop - i,
{
    if i < stop {
        let at: Seq<Seg> = item_path(path, i);
        let g: Findings = with_item_removed(f, at, a[i]);
        lemma_spot_with(f, at);
        lemma_removed_run(g, path, a, i + 1, stop);
        let h: Findings = removed_run(f, path, a, i, stop);
        assert forall|q: Seq<Seg>| #[trigger] spot(h, q) == if i <= position(path, q) < stop {
            Spot { item_removed: Some(a[position(path, q)]), ..spot(f, q) }
        } else {
            spot(f, q)
        } by {
            lemma_position(path, q, i);
            assert(spot(g, q) == if q == at {
                Spot { item_removed: Some(a[i]), ..spot(f, q) }
            } else {
                spot(f, q)
            });
        }
    }
}

/// The items of a run are recorded as added, each at its position.
proof fn lemma_added_run(f: Findings, path: Seq<Seg>, a: Seq<Val>, i: int, stop: int)
    requires
        orderly(f),
        0 <= i,
    ensures
        orderly(added_run(f, path, a, i, stop)),
        forall|q: Seq<Seg>| #[trigger]
            spot(added_run(f, path, a, i, stop), q) == if i <= position(path, q) < stop {
                Spot { item_added: Some(a[position(path, q)]), ..spot(f, q) }
            } else {
                spot(f, q)
            },
    decreases stop - i,
{
    if i < stop {
        let at: Seq<Seg> = item_path(path, i);
        let g: Findings = with_item_added(f, at, a[i]);
        lemma_spot_with(f, at);
        lemma_added_run(g, path, a, i + 1, stop);
        let h: Findings = added_run(f, path, a, i, stop);
        assert forall|q: Seq<Seg>| #[trigger] spot(h, q) == if i <= position(path, q) < stop {
            Spot { item_added: Some(a[position(path, q)]), ..spot(f, q) }
        } else {
            spot(f, q)
        } by {
            lemma_position(path, q, i);
            assert(spot(g, q) == if q == at {
                Spot { item_added: Some(a[i]), ..spot(f, q) }
            } else {
                spot(f, q)
            });
        }
    }
}

/// Items that are replaced one by one, each recorded at its position.
proof fn lemma_pairs(
    f: Findings,
    path: Seq<Seg>,
    a: Seq<Val>,
    b: Seq<Val>,
    i: int,
    j: int,
    k: int,
    count: int,
    depth: int,
    limit: int,
)
    requires
        orderly(f),
        0 <= i,
        0 <= k,
        pairs_outcome(f, path, a, b, i, j, k, count, depth, limit) is Ok,
        forall|q: Seq<Seg>|
            i + k <= position(path, q) < i + count ==> passed_over(#[trigger] spot(f, q)),
    ensures
        orderly(pairs_outcome(f, path, a, b, i, j, k, count, depth, limit)->Ok_0),
        forall|q: Seq<Seg>|
            !(i + k <= position(path, q) < i + count) ==> #[trigger] spot(
                pairs_outcome(f, path, a, b, i, j, k, count, depth, limit)->Ok_0,
                q,
            ) == spot(f, q),
        forall|q: Seq<Seg>|
            i + k <= position(path, q) < i + count ==> exchanged(
                #[trigger] spot(
                    pairs_outcome(f, path, a, b, i, j, k, count, depth, limit)->Ok_0,
                    q,
                ),
                a[position(path, q)],
                b[position(path, q) - i + j],
                elsewhere(path, position(path, q), position(path, q) - i + j),
            ),
        forall|q: Seq<Seg>| #[trigger]
            spot(pairs_outcome(f, path, a, b, i, j, k, count, depth, limit)->Ok_0, q) == (Spot {
                type_change: spot(
                    pairs_outcome(f, path, a, b, i, j, k, count, depth, limit)->Ok_0,
                    q,
                ).type_change,
                value_change: spot(
                    pairs_outcome(f, path, a, b, i, j, k, count, depth, limit)->Ok_0,
                    q,
                ).value_change,
                ..spot(f, q)
            }),
    decreases count - k,
{
    if k < count {
        let at: Seq<Seg> = item_path(path, i + k);
        let g: Findings = pair_outcome(f, path, a, b, i + k, j + k, depth, limit)->Ok_0;
        lemma_spot_with(f, at);
        lemma_position(path, at, i + k);
        assert(passed_over(spot(f, at)));
        assert forall|q: Seq<Seg>| q != at implies #[trigger] spot(g, q) == spot(f, q) by {}
        assert(spot(g, at) == (Spot {
            type_change: spot(g, at).type_change,
            value_change: spot(g, at).value_change,
            ..spot(f, at)
        }));
        assert(exchanged(
            spot(g, at),
            a[i + k],
            b[j + k],
            elsewhere(path, i + k, j + k),
        ));
        assert forall|q: Seq<Seg>|
            i + k + 1 <= position(path, q) < i + count implies passed_over(
            #[trigger] spot(g, q),
        ) by {
            assert(q != at);
            assert(passed_over(spot(f, q)));
        }
        lemma_pairs(g, path, a, b, i, j, k + 1, count, depth, limit);
        let h: Findings = pairs_outcome(f, path, a, b, i, j, k, count, depth, limit)->Ok_0;
        assert forall|q: Seq<Seg>|
            i + k <= position(path, q) < i + count implies exchanged(
            #[trigger] spot(h, q),
            a[position(path, q)],
            b[position(path, q) - i + j],
            elsewhere(path, position(path, q), position(path, q) - i + j),
        ) by {
            lemma_position(path, q, i + k);
            if q == at {
                assert(spot(h, q) == spot(g, q));
            }
        }
        assert forall|q: Seq<Seg>|
            !(i + k <= position(path, q) < i + count) implies #[trigger] spot(h, q) == spot(
            f,
            q,
        ) by {
            assert(q != at);
            assert(spot(h, q) == spot(g, q));
        }
    }
}

// ---------------------------------------------------------------------
// Opcodes
// ---------------------------------------------------------------------

/// Whether findings say of the items in the ranges of an opcode what it stands for:
/// nothing of equal ones; deleted ones are removed and inserted ones added, each at its
/// position and with its value; of a replacement the items go together one by one, and
/// those left over on either side are removed or added.
pub open spec fn told(f: Findings, path: Seq<Seg>, x: Seq<Val>, y: Seq<Val>, c: Code) -> bool {
    let pairs = if c.tag == Tag::Replace {
        if c.a2 - c.a1 < c.b2 - c.b1 {
            c.a2 - c.a1
        } else {
            c.b2 - c.b1
        }
    } else {
        0
    };
    &&& c.tag == Tag::Equal ==> (forall|i: int|
        c.a1 <= i < c.a2 ==> passed_over(#[trigger] spot(f, path.push(Seg::Index(i))))) && (forall|
        j: int,
    |
        c.b1 <= j < c.b2 ==> (#[trigger] spot(f, path.push(Seg::Index(j)))).item_added is None)
    &&& c.tag != Tag::Equal ==> {
        &&& forall|i: int|
            c.a1 <= i < c.a1 + pairs ==> #[trigger] became(f, path, x, y, i, i - c.a1 + c.b1)
        &&& forall|i: int|
            c.a1 + pairs <= i < c.a2 ==> dropped(
                #[trigger] spot(f, path.push(Seg::Index(i))),
                x[i],
            )
        &&& forall|j: int|
            c.b1 <= j < c.b1 + pairs ==> (#[trigger] spot(
                f,
                path.push(Seg::Index(j)),
            )).item_added is None
        &&& forall|j: int|
            c.b1 + pairs <= j < c.b2 ==> (#[trigger] spot(
                f,
                path.push(Seg::Index(j)),
            )).item_added == Some(y[j])
    }
}

/// Whether one report differs from another only at the positions of an opcode: in what
/// it says of old items in its first range, and of new ones in its second.
spec fn only_there(g: Findings, f: Findings, path: Seq<Seg>, alo: int, blo: int) -> bool {
    forall|q: Seq<Seg>|
        {
            let k = position(path, q);
            &&& (k < alo ==> same_old(#[trigger] spot(g, q), spot(f, q)))
            &&& (k < blo ==> spot(g, q).item_added == spot(f, q).item_added)
            &&& spot(g, q) == (Spot {
                type_change: spot(g, q).type_change,
                value_change: spot(g, q).value_change,
                item_removed: spot(g, q).item_removed,
                item_added: spot(g, q).item_added,
                ..spot(f, q)
            })
        }
}

/// Whether nothing is said yet of old items from one position on, nor of new ones from
/// another.
spec fn open_from(f: Findings, path: Seq<Seg>, alo: int, blo: int) -> bool {
    forall|q: Seq<Seg>|
        {
            let k = position(path, q);
            &&& (k >= alo ==> passed_over(#[trigger] spot(f, q)))
            &&& (k >= blo ==> spot(f, q).item_added is None)
        }
}

/// What one opcode leads to.
#[verifier::spinoff_prover]
proof fn lemma_code(
    f: Findings,
    path: Seq<Seg>,
    x: Seq<Val>,
    y: Seq<Val>,
    c: Code,
    depth: int,
    limit: int,
)
    requires
        orderly(f),
        0 <= c.a1 <= c.a2,
        0 <= c.b1 <= c.b2,
        c.tag == Tag::Delete ==> c.b1 == c.b2,
        c.tag == Tag::Insert ==> c.a1 == c.a2,
        open_from(f, path, c.a1, c.b1),
        code_outcome(f, path, x, y, c, depth, limit) is Ok,
    ensures
        orderly(code_outcome(f, path, x, y, c, depth, limit)->Ok_0),
        told(code_outcome(f, path, x, y, c, depth, limit)->Ok_0, path, x, y, c),
        only_there(code_outcome(f, path, x, y, c, depth, limit)->Ok_0, f, path, c.a1, c.b1),
        open_from(code_outcome(f, path, x, y, c, depth, limit)->Ok_0, path, c.a2, c.b2),
{
    let h: Findings = code_outcome(f, path, x, y, c, depth, limit)->Ok_0;
    assert forall|k: int| k >= 0 implies position(path, #[trigger] path.push(Seg::Index(k))) == k by {
        lemma_position(path, path.push(Seg::Index(k)), k);
    }
    match c.tag {
        Tag::Equal => {},
        Tag::Delete => {
            lemma_removed_run(f, path, x, c.a1, c.a2);
        },
        Tag::Insert => {
            lemma_added_run(f, path, y, c.b1, c.b2);
        },
        Tag::Replace => {
            let count: int = code_pairs(c);
            let g: Findings = pairs_outcome(
                f,
                path,
                x,
                y,
                c.a1,
                c.b1,
                0,
                count,
                depth,
                limit,
            )->Ok_0;
            lemma_pairs(f, path, x, y, c.a1, c.b1, 0, count, depth, limit);
            let r: Findings = removed_run(g, path, x, c.a1 + count, c.a2);
            lemma_removed_run(g, path, x, c.a1 + count, c.a2);
            lemma_added_run(r, path, y, c.b1 + count, c.b2);
            assert forall|q: Seq<Seg>| #[trigger] spot(h, q) == (Spot {
                item_removed: if c.a1 + count <= position(path, q) < c.a2 {
                    Some(x[position(path, q)])
                } else {
                    spot(g, q).item_removed
                },
                item_added: if c.b1 + count <= position(path, q) < c.b2 {
                    Some(y[position(path, q)])
                } else {
                    spot(g, q).item_added
                },
                ..spot(g, q)
            }) by {
                assert(spot(h, q) == if c.b1 + count <= position(path, q) < c.b2 {
                    Spot { item_added: Some(y[position(path, q)]), ..spot(r, q) }
                } else {
                    spot(r, q)
                });
            }
            assert forall|i: int| c.a1 <= i < c.a1 + count implies #[trigger] became(
                h,
                path,
                x,
                y,
                i,
                i - c.a1 + c.b1,
            ) by {
                let at: Seq<Seg> = path.push(Seg::Index(i));
                assert(position(path, at) == i);
                assert(exchanged(
                    spot(g, at),
                    x[i],
                    y[i - c.a1 + c.b1],
                    elsewhere(path, i, i - c.a1 + c.b1),
                ));
                assert(spot(h, at).item_removed == spot(g, at).item_removed);
            }
        },
    }
}

/// What stays told as later opcodes are followed.
proof fn lemma_stays_told(
    g: Findings,
    h: Findings,
    path: Seq<Seg>,
    x: Seq<Val>,
    y: Seq<Val>,
    c: Code,
    alo: int,
    blo: int,
)
    requires
        told(g, path, x, y, c),
        0 <= c.a1 <= c.a2 <= alo,
        0 <= c.b1 <= c.b2 <= blo,
        only_there(h, g, path, alo, blo),
    ensures
        told(h, path, x, y, c),
{
    assert forall|k: int| 0 <= k < alo implies same_old(
        #[trigger] spot(h, path.push(Seg::Index(k))),
        spot(g, path.push(Seg::Index(k))),
    ) by {
        lemma_position(path, path.push(Seg::Index(k)), k);
    }
    assert forall|k: int| 0 <= k < blo implies (#[trigger] spot(
        h,
        path.push(Seg::Index(k)),
    )).item_added == spot(g, path.push(Seg::Index(k))).item_added by {
        lemma_position(path, path.push(Seg::Index(k)), k);
    }
    let pairs: int = if c.tag == Tag::Replace {
        code_pairs(c)
    } else {
        0
    };
    if c.tag != Tag::Equal {
        assert forall|i: int| c.a1 <= i < c.a1 + pairs implies #[trigger] became(
            h,
            path,
            x,
            y,
            i,
            i - c.a1 + c.b1,
        ) by {
            assert(became(g, path, x, y, i, i - c.a1 + c.b1));
            assert(same_old(
                spot(h, path.push(Seg::Index(i))),
                spot(g, path.push(Seg::Index(i))),
            ));
        }
    }
}

/// What the opcodes from the `k`th on lead to.
proof fn lemma_codes(
    f: Findings,
    path: Seq<Seg>,
    x: Seq<Val>,
    y: Seq<Val>,
    codes: Seq<Code>,
    k: int,
    depth: int,
    limit: int,
    h: Findings,
)
    requires
        orderly(f),
        tiles(codes, Span { alo: 0, ahi: x.len() as int, blo: 0, bhi: y.len() as int }),
        0 <= k <= codes.len(),
        codes_outcome(f, path, x, y, codes, k, depth, limit) == Outcome::Ok(h),
        k < codes.len() ==> open_from(f, path, codes[k].a1, codes[k].b1),
    ensures
        orderly(h),
        forall|l: int| k <= l < codes.len() ==> told(h, path, x, y, #[trigger] codes[l]),
        k < codes.len() ==> only_there(h, f, path, codes[k].a1, codes[k].b1),
        k < codes.len() ==> open_from(h, path, x.len() as int, y.len() as int),
        k == codes.len() ==> h == f,
    decreases codes.len() - k,
{
    let w: Span = Span { alo: 0, ahi: x.len() as int, blo: 0, bhi: y.len() as int };
    if k < codes.len() {
        let c: Code = codes[k];
        lemma_tiles_bounds(codes, w, k);
        lemma_tags(codes, w, k);
        let g: Findings = code_outcome(f, path, x, y, c, depth, limit)->Ok_0;
        lemma_code(f, path, x, y, c, depth, limit);
        if k + 1 < codes.len() {
            lemma_tiles_one_by_one(codes, w, k, k + 1);
        }
        lemma_codes(g, path, x, y, codes, k + 1, depth, limit, h);
        if k + 1 < codes.len() {
            lemma_stays_told(g, h, path, x, y, c, codes[k + 1].a1, codes[k + 1].b1);
            assert forall|q: Seq<Seg>|
                {
                    let p = position(path, q);
                    &&& (p < c.a1 ==> same_old(#[trigger] spot(h, q), spot(f, q)))
                    &&& (p < c.b1 ==> spot(h, q).item_added == spot(f, q).item_added)
                    &&& spot(h, q) == (Spot {
                        type_change: spot(h, q).type_change,
                        value_change: spot(h, q).value_change,
                        item_removed: spot(h, q).item_removed,
                        item_added: spot(h, q).item_added,
                        ..spot(f, q)
                    })
                } by {
                assert(spot(g, q) == (Spot {
                    type_change: spot(g, q).type_change,
                    value_change: spot(g, q).value_change,
                    item_removed: spot(g, q).item_removed,
                    item_added: spot(g, q).item_added,
                    ..spot(f, q)
                }));
            }
            assert(only_there(h, f, path, c.a1, c.b1));
        } else {
            lemma_last(codes, w);
        }
    }
}

/// The tag of an opcode and the ranges that it calls for.
pub proof fn lemma_tags(codes: Seq<Code>, w: Span, i: int)
    requires
        tiles(codes, w),
        0 <= i < codes.len(),
    ensures
        codes[i].tag == Tag::Delete ==> codes[i].a1 < codes[i].a2 && codes[i].b1 == codes[i].b2,
        codes[i].tag == Tag::Insert ==> codes[i].a1 == codes[i].a2 && codes[i].b1 < codes[i].b2,
        codes[i].tag == Tag::Replace ==> codes[i].a1 < codes[i].a2 && codes[i].b1 < codes[i].b2,
        codes[i].tag == Tag::Equal ==> codes[i].a1 < codes[i].a2 && codes[i].a2 - codes[i].a1
            == codes[i].b2 - codes[i].b1,
        i == 0 ==> codes[i].a1 == w.alo && codes[i].b1 == w.blo,
    decreases codes.len(),
{
    if i > 0 {
        let c: Code = codes[0];
        lemma_tags(codes.drop_first(), Span { alo: c.a2, blo: c.b2, ..w }, i - 1);
    }
}

/// The last opcode ends where both sequences do.
pub proof fn lemma_last(codes: Seq<Code>, w: Span)
    requires
        tiles(codes, w),
        codes.len() > 0,
    ensures
        codes.last().a2 == w.ahi,
        codes.last().b2 == w.bhi,
    decreases codes.len(),
{
    let c: Code = codes[0];
    if codes.len() > 1 {
        lemma_last(codes.drop_first(), Span { alo: c.a2, blo: c.b2, ..w });
    } else {
        reveal_with_fuel(tiles, 2);
        assert(codes.drop_first() =~= seq![]);
    }
}

/// Two lists of scalars compared by their longest common parts: of the items in the
/// ranges of each opcode, which cover both lists, the findings say what it stands for,
/// and they say nothing else. Nothing is said of equal items. Each pair of items that a
/// replacement puts together has exactly one change, at the position of the old one and
/// with both values: of the value if their Python types are the same, else of the type.
/// All other items of the first list are removed, and all others of the second are
/// added.
pub proof fn lemma_by_opcodes(
    path: Seq<Seg>,
    x: Seq<Val>,
    y: Seq<Val>,
    depth: int,
    limit: int,
    f: Findings,
)
    requires
        lcs_outcome(path, x, y, depth, limit) == Outcome::Ok(f),
    ensures
        tiles(
            opcodes_of(x, y, false),
            Span { alo: 0, ahi: x.len() as int, blo: 0, bhi: y.len() as int },
        ),
        forall|k: int|
            0 <= k < opcodes_of(x, y, false).len() ==> told(
                f,
                path,
                x,
                y,
                #[trigger] opcodes_of(x, y, false)[k],
            ),
        forall|q: Seq<Seg>| #[trigger]
            spot(f, q) == if position(path, q) < 0 {
                bare()
            } else {
                Spot {
                    type_change: spot(f, q).type_change,
                    value_change: spot(f, q).value_change,
                    item_removed: spot(f, q).item_removed,
                    item_added: spot(f, q).item_added,
                    ..bare()
                }
            },
        forall|q: Seq<Seg>|
            position(path, q) >= x.len() ==> passed_over(#[trigger] spot(f, q)),
        forall|q: Seq<Seg>|
            position(path, q) >= y.len() ==> (#[trigger] spot(f, q)).item_added is None,
{
    let codes: Seq<Code> = opcodes_of(x, y, false);
    let w: Span = Span { alo: 0, ahi: x.len() as int, blo: 0, bhi: y.len() as int };
    lemma_opcodes_cover(x, y, false);
    lemma_spot_nothing();
    if codes.len() > 0 {
        lemma_tags(codes, w, 0);
        lemma_tiles_bounds(codes, w, 0);
    }
    lemma_codes(nothing(), path, x, y, codes, 0, depth, limit, f);
}

// ---------------------------------------------------------------------
// Every item is accounted for
// ---------------------------------------------------------------------

/// The opcode whose first range holds a position.
proof fn lemma_old_covered(codes: Seq<Code>, w: Span, i: int) -> (k: int)
    requires
        tiles(codes, w),
        w.alo <= i < w.ahi,
    ensures
        0 <= k < codes.len(),
        codes[k].a1 <= i < codes[k].a2,
    decreases codes.len(),
{
    let c: Code = codes[0];
    if i < c.a2 {
        0
    } else {
        lemma_old_covered(codes.drop_first(), Span { alo: c.a2, blo: c.b2, ..w }, i) + 1
    }
}

/// The opcode whose second range holds a position.
proof fn lemma_new_covered(codes: Seq<Code>, w: Span, j: int) -> (k: int)
    requires
        tiles(codes, w),
        w.blo <= j < w.bhi,
    ensures
        0 <= k < codes.len(),
        codes[k].b1 <= j < codes[k].b2,
    decreases codes.len(),
{
    let c: Code = codes[0];
    if j < c.b2 {
        0
    } else {
        lemma_new_covered(codes.drop_first(), Span { alo: c.a2, blo: c.b2, ..w }, j) + 1
    }
}

/// What an opcode calls equal Python calls equal.
proof fn lemma_called_equal(x: Seq<Val>, y: Seq<Val>, k: int, t: int)
    requires
        0 <= k < opcodes_of(x, y, false).len(),
        opcodes_of(x, y, false)[k].tag == Tag::Equal,
        0 <= t < opcodes_of(x, y, false)[k].a2 - opcodes_of(x, y, false)[k].a1,
    ensures
        share_key(
            python_scalar(x[opcodes_of(x, y, false)[k].a1 + t]),
            python_scalar(y[opcodes_of(x, y, false)[k].b1 + t]),
        ),
{
    let codes: Seq<Code> = opcodes_of(x, y, false);
    let c: Code = codes[k];
    let w: Span = Span { alo: 0, ahi: x.len() as int, blo: 0, bhi: y.len() as int };
    lemma_opcodes_cover(x, y, false);
    lemma_tiles_bounds(codes, w, k);
    let (p, q) = class_lists(x, y);
    let m: Block = Block { a: c.a1, b: c.b1, size: c.a2 - c.a1 };
    assert(same_run(p, q, m));
    assert(p[m.a + t] == q[m.b + t]);
    let keys: Seq<Option<ScalarVal>> = python_scalars(x + y);
    lemma_classes(keys, c.a1 + t, x.len() + c.b1 + t);
    assert((x + y)[x.len() + c.b1 + t] == y[c.b1 + t]);
}

/// Whether an item of the first list is accounted for: it is removed, or it became an
/// item of the second, or it is passed over and Python calls it equal to one of the
/// second.
pub open spec fn old_accounted(
    f: Findings,
    path: Seq<Seg>,
    x: Seq<Val>,
    y: Seq<Val>,
    i: int,
) -> bool {
    ||| dropped(spot(f, path.push(Seg::Index(i))), x[i])
    ||| exists|j: int| 0 <= j < y.len() && #[trigger] became(f, path, x, y, i, j)
    ||| passed_over(spot(f, path.push(Seg::Index(i)))) && exists|j: int|
        0 <= j < y.len() && share_key(python_scalar(x[i]), python_scalar(#[trigger] y[j]))
}

/// Whether an item of the second list is accounted for: it is added, or an item of the
/// first became it, or Python calls it equal to one of the first that is passed over.
pub open spec fn new_accounted(
    f: Findings,
    path: Seq<Seg>,
    x: Seq<Val>,
    y: Seq<Val>,
    j: int,
) -> bool {
    ||| spot(f, path.push(Seg::Index(j))).item_added == Some(y[j])
    ||| exists|i: int| 0 <= i < x.len() && #[trigger] became(f, path, x, y, i, j)
    ||| exists|i: int|
        0 <= i < x.len() && passed_over(spot(f, path.push(Seg::Index(i)))) && share_key(
            python_scalar(#[trigger] x[i]),
            python_scalar(y[j]),
        )
}

/// Every item of two lists of scalars is accounted for in what comparing them by their
/// longest common parts finds.
pub proof fn lemma_scalars_accounted(
    path: Seq<Seg>,
    x: Seq<Val>,
    y: Seq<Val>,
    depth: int,
    limit: int,
    f: Findings,
)
    requires
        lcs_outcome(path, x, y, depth, limit) == Outcome::Ok(f),
    ensures
        forall|i: int| 0 <= i < x.len() ==> #[trigger] old_accounted(f, path, x, y, i),
        forall|j: int| 0 <= j < y.len() ==> #[trigger] new_accounted(f, path, x, y, j),
{
    let codes: Seq<Code> = opcodes_of(x, y, false);
    let w: Span = Span { alo: 0, ahi: x.len() as int, blo: 0, bhi: y.len() as int };
    lemma_by_opcodes(path, x, y, depth, limit, f);
    assert forall|i: int| 0 <= i < x.len() implies #[trigger] old_accounted(f, path, x, y, i) by {
        let k: int = lemma_old_covered(codes, w, i);
        let c: Code = codes[k];
        lemma_tiles_bounds(codes, w, k);
        assert(told(f, path, x, y, codes[k]));
        if c.tag == Tag::Equal {
            lemma_called_equal(x, y, k, i - c.a1);
            assert(share_key(python_scalar(x[i]), python_scalar(y[c.b1 + (i - c.a1)])));
            assert(passed_over(spot(f, path.push(Seg::Index(i)))));
        } else if c.tag == Tag::Replace && i - c.a1 < c.b2 - c.b1 {
            assert(became(f, path, x, y, i, i - c.a1 + c.b1));
        } else {
            lemma_tags(codes, w, k);
            assert(dropped(spot(f, path.push(Seg::Index(i))), x[i]));
        }
    }
    assert forall|j: int| 0 <= j < y.len() implies #[trigger] new_accounted(f, path, x, y, j) by {
        let k: int = lemma_new_covered(codes, w, j);
        let c: Code = codes[k];
        lemma_tiles_bounds(codes, w, k);
        assert(told(f, path, x, y, codes[k]));
        if c.tag == Tag::Equal {
            let i: int = c.a1 + (j - c.b1);
            lemma_called_equal(x, y, k, j - c.b1);
            assert(share_key(python_scalar(x[i]), python_scalar(y[j])));
            assert(passed_over(spot(f, path.push(Seg::Index(i)))));
        } else if c.tag == Tag::Replace && j - c.b1 < c.a2 - c.a1 {
            let i: int = c.a1 + (j - c.b1);
            assert(became(f, path, x, y, i, i - c.a1 + c.b1));
        } else {
            lemma_tags(codes, w, k);
            assert(spot(f, path.push(Seg::Index(j))).item_added == Some(y[j]));
        }
    }
}

/// Whether two values are datetimes of one instant.
pub open spec fn one_instant(a: Val, b: Val) -> bool {
    match (a, b) {
        (Val::DateTime(d), Val::DateTime(e)) => d.spec_to_utc() is Some && d.spec_to_utc()
            == e.spec_to_utc(),
        _ => false,
    }
}

/// Whether Python calls two scalars equal, or both are datetimes of one instant.
pub open spec fn not_told_apart(a: Val, b: Val) -> bool {
    share_key(python_scalar(a), python_scalar(b)) || one_instant(a, b)
}

proof fn lemma_silent_codes(x: Seq<Val>, y: Seq<Val>, path: Seq<Seg>, k: int)
    requires
        0 <= k <= opcodes_of(x, y, false).len(),
        forall|l: int|
            0 <= l < opcodes_of(x, y, false).len() ==> told(
                nothing(),
                path,
                x,
                y,
                #[trigger] opcodes_of(x, y, false)[l],
            ),
    ensures
        k > 0 ==> opcodes_of(x, y, false)[k - 1].a2 == opcodes_of(x, y, false)[k - 1].b2,
        forall|i: int|
            0 <= i < (if k > 0 {
                opcodes_of(x, y, false)[k - 1].a2
            } else {
                0
            }) ==> not_told_apart(#[trigger] x[i], y[i]),
    decreases k,
{
    let codes: Seq<Code> = opcodes_of(x, y, false);
    let w: Span = Span { alo: 0, ahi: x.len() as int, blo: 0, bhi: y.len() as int };
    if k > 0 {
        let c: Code = codes[k - 1];
        lemma_silent_codes(x, y, path, k - 1);
        lemma_opcodes_cover(x, y, false);
        lemma_tiles_bounds(codes, w, k - 1);
        lemma_tags(codes, w, k - 1);
        if k > 1 {
            lemma_adjoin(codes, w, k - 2);
        }
        lemma_spot_nothing();
        assert(told(nothing(), path, x, y, codes[k - 1]));
        assert(c.a1 == c.b1);
        assert(spot(nothing(), path.push(Seg::Index(c.a1))) == bare());
        assert(spot(nothing(), path.push(Seg::Index(c.b2 - 1))) == bare());
        assert(spot(nothing(), path.push(Seg::Index(c.a2 - 1))) == bare());
        assert(c.tag == Tag::Equal || c.tag == Tag::Replace);
        assert(c.a2 - c.a1 == c.b2 - c.b1);
        assert forall|i: int| c.a1 <= i < c.a2 implies not_told_apart(#[trigger] x[i], y[i]) by {
            if c.tag == Tag::Equal {
                lemma_called_equal(x, y, k - 1, i - c.a1);
            } else {
                assert(became(nothing(), path, x, y, i, i - c.a1 + c.b1));
                assert(spot(nothing(), path.push(Seg::Index(i))) == bare());
            }
        }
    }
}

/// An opcode starts where the one before it ends.
pub proof fn lemma_adjoin(codes: Seq<Code>, w: Span, k: int)
    requires
        tiles(codes, w),
        0 <= k,
        k + 1 < codes.len(),
    ensures
        codes[k].a2 == codes[k + 1].a1,
        codes[k].b2 == codes[k + 1].b1,
    decreases codes.len(),
{
    let c: Code = codes[0];
    let v: Span = Span { alo: c.a2, blo: c.b2, ..w };
    if k > 0 {
        lemma_adjoin(codes.drop_first(), v, k - 1);
    } else {
        lemma_tags(codes.drop_first(), v, 0);
    }
}

/// Two lists of scalars that have nothing between them by their longest common parts are
/// of one length, and Python calls the items at each position equal, or they are
/// datetimes of one instant.
pub proof fn lemma_silent_scalars(path: Seq<Seg>, x: Seq<Val>, y: Seq<Val>, depth: int, limit: int)
    requires
        lcs_outcome(path, x, y, depth, limit) == Outcome::Ok(nothing()),
    ensures
        x.len() == y.len(),
        forall|i: int| 0 <= i < x.len() ==> not_told_apart(#[trigger] x[i], y[i]),
{
    let codes: Seq<Code> = opcodes_of(x, y, false);
    let w: Span = Span { alo: 0, ahi: x.len() as int, blo: 0, bhi: y.len() as int };
    lemma_by_opcodes(path, x, y, depth, limit, nothing());
    lemma_silent_codes(x, y, path, codes.len() as int);
    if codes.len() > 0 {
        lemma_last(codes, w);
    }
}

// ---------------------------------------------------------------------
// The longest common part
// ---------------------------------------------------------------------

/// Whether a block is at least so long.
spec fn some_long(blocks: Seq<Block>, size: int) -> bool {
    exists|k: int| 0 <= k < blocks.len() && (#[trigger] blocks[k]).size >= size
}

/// Joining blocks that touch makes none shorter.
proof fn lemma_joined_long(blocks: Seq<Block>, pending: Block, size: int)
    requires
        size > 0,
        pending.size >= 0,
        forall|k: int| 0 <= k < blocks.len() ==> (#[trigger] blocks[k]).size >= 0,
        pending.size >= size || some_long(blocks, size),
    ensures
        some_long(collapsed(blocks, pending), size),
    decreases blocks.len(),
{
    let all: Seq<Block> = collapsed(blocks, pending);
    if blocks.len() == 0 {
        assert(all[0] == pending);
    } else {
        let m: Block = blocks[0];
        let rest: Seq<Block> = blocks.drop_first();
        assert forall|k: int| 0 <= k < rest.len() implies (#[trigger] rest[k]).size >= 0 by {
            assert(rest[k] == blocks[k + 1]);
        }
        if some_long(blocks, size) && m.size < size {
            let k: int = choose|k: int| 0 <= k < blocks.len() && (#[trigger] blocks[k]).size >= size;
            assert(rest[k - 1] == blocks[k]);
        }
        if pending.a + pending.size == m.a && pending.b + pending.size == m.b {
            let one: Block = Block { a: pending.a, b: pending.b, size: pending.size + m.size };
            lemma_joined_long(rest, one, size);
        } else if pending.size >= size {
            assert(all[0] == pending);
        } else {
            lemma_joined_long(rest, m, size);
            let less: Seq<Block> = collapsed(rest, m);
            let k: int = choose|k: int| 0 <= k < less.len() && (#[trigger] less[k]).size >= size;
            if pending.size > 0 {
                assert(all[k + 1] == less[k]);
            }
        }
    }
}

/// Whether an opcode keeps at least so many items.
pub open spec fn keeps(codes: Seq<Code>, size: int) -> bool {
    exists|k: int|
        0 <= k < codes.len() && (#[trigger] codes[k]).tag == Tag::Equal && codes[k].a2 - codes[k].a1
            >= size
}

/// A block has its opcode.
proof fn lemma_block_kept(blocks: Seq<Block>, i: int, j: int, size: int)
    requires
        size > 0,
        some_long(blocks, size),
    ensures
        keeps(codes_from(blocks, i, j), size),
    decreases blocks.len(),
{
    let m: Block = blocks[0];
    let rest: Seq<Block> = blocks.drop_first();
    let front: Seq<Code> = gap(i, j, m) + kept_range(m);
    let behind: Seq<Code> = codes_from(rest, m.a + m.size, m.b + m.size);
    let codes: Seq<Code> = codes_from(blocks, i, j);
    assert(codes =~= front + behind);
    if m.size >= size {
        let at: int = gap(i, j, m).len() as int;
        assert(codes[at] == kept_range(m)[0]);
        assert(codes[at].tag == Tag::Equal && codes[at].a2 - codes[at].a1 >= size);
    } else {
        let k: int = choose|k: int| 0 <= k < blocks.len() && (#[trigger] blocks[k]).size >= size;
        assert(rest[k - 1] == blocks[k]);
        lemma_block_kept(rest, m.a + m.size, m.b + m.size, size);
        let l: int = choose|l: int|
            0 <= l < behind.len() && (#[trigger] behind[l]).tag == Tag::Equal && behind[l].a2
                - behind[l].a1 >= size;
        assert(codes[front.len() + l] == behind[l]);
    }
}

/// An element that stands in a sequence occurs in it.
proof fn lemma_occurs(s: Seq<int>, j: int)
    requires
        0 <= j < s.len(),
    ensures
        occurrences(s, s[j]) > 0,
    decreases s.len(),
{
    if j < s.len() - 1 {
        lemma_occurs(s.drop_last(), j);
        assert(s.drop_last()[j] == s[j]);
    }
}

/// No block has a size below nothing.
proof fn lemma_sizes(a: Seq<int>, b: Seq<int>, kept: Set<int>, w: Span)
    ensures
        forall|k: int|
            0 <= k < raw_blocks(a, b, kept, false, w).len() ==> (#[trigger] raw_blocks(
                a,
                b,
                kept,
                false,
                w,
            )[k]).size >= 0,
    decreases w.ahi - w.alo,
{
    let m: Block = best_match(a, b, kept, false, w);
    if m.size > 0 && inside(w, m) {
        let front: Seq<Block> = raw_blocks(a, b, kept, false, part_before(w, m));
        let behind: Seq<Block> = raw_blocks(a, b, kept, false, part_behind(w, m));
        let all: Seq<Block> = raw_blocks(a, b, kept, false, w);
        lemma_sizes(a, b, kept, part_before(w, m));
        lemma_sizes(a, b, kept, part_behind(w, m));
        assert forall|k: int| 0 <= k < all.len() implies (#[trigger] all[k]).size >= 0 by {
            if k < front.len() {
                assert(all[k] == front[k]);
            } else if k == front.len() {
                assert(all[k] == m);
            } else {
                assert(all[k] == behind[k - front.len() - 1]);
            }
        }
    }
}

/// Lists of scalars are aligned by their longest common part: wherever as many items of
/// the one in a row are equal in Python to as many of the other in a row, some opcode
/// keeps at least that many.
pub proof fn lemma_longest_kept(x: Seq<Val>, y: Seq<Val>, i: int, j: int, size: int)
    requires
        size > 0,
        0 <= i,
        0 <= j,
        i + size <= x.len(),
        j + size <= y.len(),
        forall|t: int|
            0 <= t < size ==> share_key(
                #[trigger] python_scalar(x[i + t]),
                python_scalar(y[j + t]),
            ),
    ensures
        keeps(opcodes_of(x, y, false), size),
{
    let (p, q) = class_lists(x, y);
    let kept: Set<int> = kept_classes(q, false);
    let w: Span = whole(p, q);
    let keys: Seq<Option<ScalarVal>> = python_scalars(x + y);
    let n: Block = Block { a: i, b: j, size };
    assert(common(p, q, kept, n)) by {
        assert forall|t: int| 0 <= t < size implies #[trigger] meets(p, q, kept, i + t, j + t) by {
            assert(share_key(python_scalar(x[i + t]), python_scalar(y[j + t])));
            lemma_classes(keys, i + t, x.len() + j + t);
            assert((x + y)[x.len() + j + t] == y[j + t]);
            assert(p[i + t] == q[j + t]);
            lemma_occurs(q, j + t);
        }
    }
    assert(inside(w, n));
    lemma_best_match(p, q, kept, false, w);
    let m: Block = best_match(p, q, kept, false, w);
    assert(m.size >= size);
    let raw: Seq<Block> = raw_blocks(p, q, kept, false, w);
    let at: int = raw_blocks(p, q, kept, false, part_before(w, m)).len() as int;
    assert(raw[at] == m);
    assert(some_long(raw, size));
    lemma_sizes(p, q, kept, w);
    let none: Block = Block { a: 0, b: 0, size: 0 };
    lemma_joined_long(raw, none, size);
    let less: Seq<Block> = collapsed(raw, none);
    let blocks: Seq<Block> = matching_blocks(p, q, false);
    let k: int = choose|k: int| 0 <= k < less.len() && (#[trigger] less[k]).size >= size;
    assert(blocks[k] == less[k]);
    lemma_block_kept(blocks, 0, 0, size);
}

} // verus!
