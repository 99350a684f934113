//! What a unified diff says: applied to the old text it gives the new one, and the other
//! way round.

use vstd::prelude::*;

#[allow(unused_imports)]
use crate::diff::aligned::{lemma_adjoin, lemma_last, lemma_tags};
#[allow(unused_imports)]
use crate::lcs::{
    back_cut, class_lists, code_fits, front_cut, groups_from, groups_of, lemma_opcodes_cover,
    lemma_tiles_bounds, never_empty, opcodes_of, range_end, range_start, same_run, Block, Code,
    Span, Tag,
};
#[allow(unused_imports)]
use crate::scalar_key::{lemma_classes, python_scalar, python_scalars, ScalarVal};
#[allow(unused_imports)]
use crate::text::{decimal, digit};
#[allow(unused_imports)]
use crate::unified_diff::{
    code_lines, codes_lines, ends_line, file_lines, header, hunks, joined, lemma_lines_are_single,
    lines, lines_from, marked, past_line_end, range_text, single_lines, text_values, unified,
    CONTEXT_LINES,
};
#[allow(unused_imports)]
use crate::value::Val;

verus! {

// ---------------------------------------------------------------------
// Hunks
// ---------------------------------------------------------------------

/// A hunk: its header, the ranges of lines of which it speaks, and its lines.
pub struct Hunk {
    pub header: Seq<char>,
    pub a1: int,
    pub a2: int,
    pub b1: int,
    pub b2: int,
    pub lines: Seq<Seq<char>>,
}

/// The lines of one side of a hunk, without their marks: those marked as kept, and those
/// with the mark of the side.
pub open spec fn side(shown: Seq<Seq<char>>, mark: char) -> Seq<Seq<char>>
    decreases shown.len(),
{
    if shown.len() == 0 {
        seq![]
    } else {
        let line = shown.last();
        side(shown.drop_last(), mark) + if line[0] == ' ' || line[0] == mark {
            seq![line.skip(1)]
        } else {
            seq![]
        }
    }
}

/// Whether every line has one of the three marks in front.
pub open spec fn all_marked(shown: Seq<Seq<char>>) -> bool {
    forall|i: int|
        0 <= i < shown.len() ==> (#[trigger] shown[i]).len() > 0 && (shown[i][0] == ' '
            || shown[i][0] == '-' || shown[i][0] == '+')
}

/// Whether a text gives a range of lines: the number of its first line, counted from
/// one, and how many they are, unless there is one; of no lines, the number of the line in
/// front of them.
pub open spec fn gives_range(text: Seq<char>, start: int, stop: int) -> bool {
    if stop - start == 1 {
        text == decimal((start + 1) as nat)
    } else {
        text == decimal(
            if start == stop {
                start as nat
            } else {
                (start + 1) as nat
            },
        ) + seq![','] + decimal((stop - start) as nat)
    }
}

/// Whether a header gives two ranges of lines.
pub open spec fn gives_ranges(text: Seq<char>, h: Hunk) -> bool {
    exists|old: Seq<char>, new: Seq<char>|
        #![trigger gives_range(old, h.a1, h.a2), gives_range(new, h.b1, h.b2)]
        gives_range(old, h.a1, h.a2) && gives_range(new, h.b1, h.b2) && text == seq![
            '@',
            '@',
            ' ',
            '-',
        ] + old + seq![' ', '+'] + new + seq![' ', '@', '@']
}

/// Whether a hunk is true of two lists of lines: its header gives its ranges, its lines
/// that are kept or removed are those of the first range, and its lines that are kept or
/// added are those of the second.
pub open spec fn true_of(h: Hunk, a: Seq<Seq<char>>, b: Seq<Seq<char>>) -> bool {
    &&& 0 <= h.a1 <= h.a2 <= a.len()
    &&& 0 <= h.b1 <= h.b2 <= b.len()
    &&& gives_ranges(h.header, h)
    &&& all_marked(h.lines)
    &&& side(h.lines, '-') == a.subrange(h.a1, h.a2)
    &&& side(h.lines, '+') == b.subrange(h.b1, h.b2)
}

/// The lines that come of the old ones from `i` on where the hunks are applied: each
/// range that a hunk speaks of is replaced by its lines that are kept or added.
pub open spec fn applied(list: Seq<Hunk>, a: Seq<Seq<char>>, i: int) -> Seq<Seq<char>>
    decreases list.len(),
{
    if list.len() == 0 {
        a.skip(i)
    } else {
        a.subrange(i, list[0].a1) + side(list[0].lines, '+') + applied(
            list.drop_first(),
            a,
            list[0].a2,
        )
    }
}

/// The lines that come of the new ones from `j` on where the hunks are undone.
pub open spec fn undone(list: Seq<Hunk>, b: Seq<Seq<char>>, j: int) -> Seq<Seq<char>>
    decreases list.len(),
{
    if list.len() == 0 {
        b.skip(j)
    } else {
        b.subrange(j, list[0].b1) + side(list[0].lines, '-') + undone(
            list.drop_first(),
            b,
            list[0].b2,
        )
    }
}

/// The lines in which hunks are shown, each behind its header.
pub open spec fn shown_lines(list: Seq<Hunk>) -> Seq<Seq<char>>
    decreases list.len(),
{
    if list.len() == 0 {
        seq![]
    } else {
        shown_lines(list.drop_last()) + (seq![list.last().header] + list.last().lines)
    }
}

/// Whether hunks follow each other and are true of two lists of lines, which are the
/// same between them.
pub open spec fn bridges(
    list: Seq<Hunk>,
    a: Seq<Seq<char>>,
    b: Seq<Seq<char>>,
    i: int,
    j: int,
) -> bool
    decreases list.len(),
{
    if list.len() == 0 {
        0 <= i <= a.len() && 0 <= j <= b.len() && a.skip(i) == b.skip(j)
    } else {
        let h = list[0];
        &&& true_of(h, a, b)
        &&& 0 <= i <= h.a1
        &&& 0 <= j <= h.b1
        &&& a.subrange(i, h.a1) == b.subrange(j, h.b1)
        &&& bridges(list.drop_first(), a, b, h.a2, h.b2)
    }
}

/// Hunks that follow each other lead from the one list of lines to the other and back.
pub proof fn lemma_bridges_apply(
    list: Seq<Hunk>,
    a: Seq<Seq<char>>,
    b: Seq<Seq<char>>,
    i: int,
    j: int,
)
    requires
        bridges(list, a, b, i, j),
    ensures
        applied(list, a, i) == b.skip(j),
        undone(list, b, j) == a.skip(i),
    decreases list.len(),
{
    if list.len() > 0 {
        let h: Hunk = list[0];
        lemma_bridges_apply(list.drop_first(), a, b, h.a2, h.b2);
        assert(b.subrange(j, h.b1) + b.subrange(h.b1, h.b2) + b.skip(h.b2) =~= b.skip(j));
        assert(a.subrange(i, h.a1) + a.subrange(h.a1, h.a2) + a.skip(h.a2) =~= a.skip(i));
    }
}

// ---------------------------------------------------------------------
// Opcodes in groups
// ---------------------------------------------------------------------

/// Whether two lists hold the same from two positions on, for a length.
spec fn same_for<V>(a: Seq<V>, b: Seq<V>, i: int, j: int, len: int) -> bool {
    forall|t: int| 0 <= t < len ==> #[trigger] a[i + t] == b[j + t]
}

/// Whether an opcode is true of two lists.
spec fn sound<V>(c: Code, a: Seq<V>, b: Seq<V>) -> bool {
    &&& code_fits(c, a.len() as int, b.len() as int)
    &&& c.tag == Tag::Equal ==> c.a2 - c.a1 == c.b2 - c.b1 && same_for(
        a,
        b,
        c.a1,
        c.b1,
        c.a2 - c.a1,
    )
    &&& c.tag == Tag::Delete ==> c.b1 == c.b2
    &&& c.tag == Tag::Insert ==> c.a1 == c.a2
}

/// Whether opcodes are true of two lists, and each starts where the one before it ends.
spec fn chained<V>(codes: Seq<Code>, a: Seq<V>, b: Seq<V>) -> bool {
    &&& forall|k: int| 0 <= k < codes.len() ==> sound(#[trigger] codes[k], a, b)
    &&& forall|k: int| 0 <= k < codes.len() - 1 ==> #[trigger] next_to(codes, k)
}

/// Whether the opcode behind a position starts where the one at it ends.
spec fn next_to(codes: Seq<Code>, k: int) -> bool {
    codes[k].a2 == codes[k + 1].a1 && codes[k].b2 == codes[k + 1].b1
}

/// Whether groups of opcodes follow each other and are true of two lists, which are the
/// same between them.
spec fn grouped<V>(groups: Seq<Seq<Code>>, a: Seq<V>, b: Seq<V>, i: int, j: int) -> bool
    decreases groups.len(),
{
    if groups.len() == 0 {
        0 <= i <= a.len() && 0 <= j <= b.len() && a.len() - i == b.len() - j && same_for(
            a,
            b,
            i,
            j,
            a.len() - i,
        )
    } else {
        let g = groups[0];
        &&& g.len() > 0
        &&& chained(g, a, b)
        &&& 0 <= i <= g[0].a1
        &&& 0 <= j <= g[0].b1
        &&& g[0].a1 - i == g[0].b1 - j
        &&& same_for(a, b, i, j, g[0].a1 - i)
        &&& grouped(groups.drop_first(), a, b, g.last().a2, g.last().b2)
    }
}

/// Two stretches that are the same make one.
proof fn lemma_same_join<V>(a: Seq<V>, b: Seq<V>, i: int, j: int, len: int, more: int)
    requires
        same_for(a, b, i, j, len),
        same_for(a, b, i + len, j + len, more),
        len >= 0,
    ensures
        same_for(a, b, i, j, len + more),
{
    assert forall|t: int| 0 <= t < len + more implies #[trigger] a[i + t] == b[j + t] by {
        if t >= len {
            assert(a[i + len + (t - len)] == b[j + len + (t - len)]);
        }
    }
}

/// A part of a stretch that is the same.
proof fn lemma_same_part<V>(a: Seq<V>, b: Seq<V>, i: int, j: int, len: int, from: int, less: int)
    requires
        same_for(a, b, i, j, len),
        0 <= from,
        from + less <= len,
    ensures
        same_for(a, b, i + from, j + from, less),
{
    assert forall|t: int| 0 <= t < less implies #[trigger] a[i + from + t] == b[j + from + t] by {
        assert(a[i + (from + t)] == b[j + (from + t)]);
    }
}

/// The groups of opcodes that follow each other.
#[verifier::spinoff_prover]
proof fn lemma_grouped<V>(
    codes: Seq<Code>,
    group: Seq<Code>,
    n: int,
    a: Seq<V>,
    b: Seq<V>,
    i: int,
    j: int,
)
    requires
        n >= 0,
        (group + codes).len() > 0,
        chained(group + codes, a, b),
        0 <= i <= (group + codes)[0].a1,
        0 <= j <= (group + codes)[0].b1,
        (group + codes)[0].a1 - i == (group + codes)[0].b1 - j,
        same_for(a, b, i, j, (group + codes)[0].a1 - i),
        a.len() - (group + codes).last().a2 == b.len() - (group + codes).last().b2,
        same_for(
            a,
            b,
            (group + codes).last().a2,
            (group + codes).last().b2,
            a.len() - (group + codes).last().a2,
        ),
    ensures
        grouped(groups_from(codes, group, n), a, b, i, j),
    decreases codes.len(),
{
    let all: Seq<Code> = group + codes;
    reveal_with_fuel(grouped, 2);
    if codes.len() == 0 {
        assert(all =~= group);
        if group.len() == 1 && group[0].tag == Tag::Equal {
            let c: Code = group[0];
            assert(sound(all[0], a, b));
            lemma_same_join(a, b, i, j, c.a1 - i, c.a2 - c.a1);
            lemma_same_join(a, b, i, j, c.a2 - i, a.len() - c.a2);
        } else {
            assert(seq![group].drop_first() =~= seq![]);
            assert(sound(all[all.len() - 1], a, b));
        }
    } else {
        let c: Code = codes[0];
        let at: int = group.len() as int;
        let rest: Seq<Code> = codes.drop_first();
        assert(all[at] == c);
        assert(sound(all[at], a, b));
        if c.tag == Tag::Equal && c.a2 - c.a1 > n + n {
            let front: Code = range_start(c, n);
            let back: Code = range_end(c, n);
            let first: Seq<Code> = group.push(front);
            let next: Seq<Code> = seq![back] + rest;
            lemma_same_part(a, b, c.a1, c.b1, c.a2 - c.a1, 0, n);
            lemma_same_part(a, b, c.a1, c.b1, c.a2 - c.a1, n, c.a2 - c.a1 - n - n);
            lemma_same_part(a, b, c.a1, c.b1, c.a2 - c.a1, c.a2 - c.a1 - n, n);
            assert(sound(front, a, b));
            assert(sound(back, a, b));
            assert forall|k: int| 0 <= k < first.len() implies sound(#[trigger] first[k], a, b) by {
                if k < at {
                    assert(first[k] == all[k]);
                }
            }
            assert forall|k: int| 0 <= k < first.len() - 1 implies #[trigger] next_to(first, k) by {
                assert(first[k] == all[k]);
                assert(next_to(all, k));
                if k + 1 < at {
                    assert(first[k + 1] == all[k + 1]);
                }
            }
            assert forall|k: int| 0 <= k < next.len() implies sound(#[trigger] next[k], a, b) by {
                if k > 0 {
                    assert(next[k] == all[at + k]);
                }
            }
            assert forall|k: int| 0 <= k < next.len() - 1 implies #[trigger] next_to(next, k) by {
                assert(next[k + 1] == all[at + k + 1]);
                assert(next_to(all, at + k));
                if k > 0 {
                    assert(next[k] == all[at + k]);
                }
            }
            if rest.len() > 0 {
                assert(next.last() == all.last());
            } else {
                assert(all.last() == c);
            }
            lemma_grouped(rest, seq![back], n, a, b, front.a2, front.b2);
            let later: Seq<Seq<Code>> = groups_from(rest, seq![back], n);
            assert((seq![first] + later).drop_first() =~= later);
            if at > 0 {
                assert(first[0] == all[0]);
            } else {
                assert(first[0] == front);
            }
            assert(first.last() == front);
        } else {
            assert(group.push(c) + rest =~= all);
            lemma_grouped(rest, group.push(c), n, a, b, i, j);
        }
    }
}

/// The groups of changes between two lists of lines.
proof fn lemma_groups_bridge(a: Seq<Seq<char>>, b: Seq<Seq<char>>, n: int)
    requires
        n >= 0,
    ensures
        grouped(groups_of(text_values(a), text_values(b), n), a, b, 0, 0),
{
    let x: Seq<Val> = text_values(a);
    let y: Seq<Val> = text_values(b);
    let codes: Seq<Code> = opcodes_of(x, y, true);
    let w: Span = Span { alo: 0, ahi: a.len() as int, blo: 0, bhi: b.len() as int };
    lemma_opcodes_cover(x, y, true);
    let cut: Seq<Code> = back_cut(front_cut(never_empty(codes), n), n);
    if codes.len() == 0 {
        reveal_with_fuel(groups_from, 2);
        let only: Seq<Code> = Seq::<Code>::empty().push(cut[0]);
        assert(cut.drop_first() =~= Seq::<Code>::empty());
        assert(groups_from(cut, seq![], n) =~= Seq::<Seq<Code>>::empty());
    } else {
        assert forall|k: int| 0 <= k < codes.len() implies sound(#[trigger] codes[k], a, b) by {
            lemma_tiles_bounds(codes, w, k);
            lemma_tags(codes, w, k);
            let c: Code = codes[k];
            if c.tag == Tag::Equal {
                assert forall|t: int| 0 <= t < c.a2 - c.a1 implies #[trigger] a[c.a1 + t] == b[c.b1
                    + t] by {
                    lemma_same_line(a, b, k, t);
                }
            }
        }
        assert forall|k: int| 0 <= k < codes.len() - 1 implies #[trigger] next_to(codes, k) by {
            lemma_adjoin(codes, w, k);
        }
        lemma_tags(codes, w, 0);
        lemma_last(codes, w);
        let front: Seq<Code> = front_cut(codes, n);
        lemma_front_cut(codes, n, a, b);
        lemma_back_cut(front, n, a, b);
        assert(Seq::<Code>::empty() + cut =~= cut);
        lemma_grouped(cut, seq![], n, a, b, 0, 0);
    }
}

/// The equal range in front cut short.
proof fn lemma_front_cut<V>(codes: Seq<Code>, n: int, a: Seq<V>, b: Seq<V>)
    requires
        n >= 0,
        codes.len() > 0,
        chained(codes, a, b),
        codes[0].a1 == 0,
        codes[0].b1 == 0,
        codes.last().a2 == a.len(),
        codes.last().b2 == b.len(),
    ensures
        front_cut(codes, n).len() == codes.len(),
        chained(front_cut(codes, n), a, b),
        0 <= front_cut(codes, n)[0].a1,
        front_cut(codes, n)[0].a1 == front_cut(codes, n)[0].b1,
        same_for(a, b, 0, 0, front_cut(codes, n)[0].a1),
        front_cut(codes, n).last().a2 == a.len(),
        front_cut(codes, n).last().b2 == b.len(),
{
    let c: Code = codes[0];
    let cut: Seq<Code> = front_cut(codes, n);
    assert(sound(codes[0], a, b));
    if c.tag == Tag::Equal {
        let d: Code = range_end(c, n);
        let from: int = d.a1 - c.a1;
        lemma_same_part(a, b, c.a1, c.b1, c.a2 - c.a1, from, c.a2 - c.a1 - from);
        lemma_same_part(a, b, c.a1, c.b1, c.a2 - c.a1, 0, from);
        assert(sound(d, a, b));
        assert forall|k: int| 0 <= k < cut.len() implies sound(#[trigger] cut[k], a, b) by {
            if k > 0 {
                assert(cut[k] == codes[k]);
            }
        }
        assert forall|k: int| 0 <= k < cut.len() - 1 implies #[trigger] next_to(cut, k) by {
            assert(next_to(codes, k));
        }
    }
}

/// The equal range at the end cut short.
proof fn lemma_back_cut<V>(codes: Seq<Code>, n: int, a: Seq<V>, b: Seq<V>)
    requires
        n >= 0,
        codes.len() > 0,
        chained(codes, a, b),
        codes.last().a2 == a.len(),
        codes.last().b2 == b.len(),
    ensures
        back_cut(codes, n).len() == codes.len(),
        chained(back_cut(codes, n), a, b),
        back_cut(codes, n)[0].a1 == codes[0].a1,
        back_cut(codes, n)[0].b1 == codes[0].b1,
        a.len() - back_cut(codes, n).last().a2 == b.len() - back_cut(codes, n).last().b2,
        same_for(
            a,
            b,
            back_cut(codes, n).last().a2,
            back_cut(codes, n).last().b2,
            a.len() - back_cut(codes, n).last().a2,
        ),
{
    let last: int = codes.len() - 1;
    let c: Code = codes[last];
    let cut: Seq<Code> = back_cut(codes, n);
    assert(sound(codes[last], a, b));
    if c.tag == Tag::Equal {
        let d: Code = range_start(c, n);
        let len: int = d.a2 - d.a1;
        lemma_same_part(a, b, c.a1, c.b1, c.a2 - c.a1, 0, len);
        lemma_same_part(a, b, c.a1, c.b1, c.a2 - c.a1, len, c.a2 - c.a1 - len);
        assert(sound(d, a, b));
        assert forall|k: int| 0 <= k < cut.len() implies sound(#[trigger] cut[k], a, b) by {
            if k < last {
                assert(cut[k] == codes[k]);
            }
        }
        assert forall|k: int| 0 <= k < cut.len() - 1 implies #[trigger] next_to(cut, k) by {
            assert(next_to(codes, k));
        }
    }
}

/// Lines that an opcode calls equal are the same.
proof fn lemma_same_line(a: Seq<Seq<char>>, b: Seq<Seq<char>>, k: int, t: int)
    requires
        0 <= k < opcodes_of(text_values(a), text_values(b), true).len(),
        opcodes_of(text_values(a), text_values(b), true)[k].tag == Tag::Equal,
        0 <= t < opcodes_of(text_values(a), text_values(b), true)[k].a2 - opcodes_of(
            text_values(a),
            text_values(b),
            true,
        )[k].a1,
    ensures
        a[opcodes_of(text_values(a), text_values(b), true)[k].a1 + t] == b[opcodes_of(
            text_values(a),
            text_values(b),
            true,
        )[k].b1 + t],
{
    let x: Seq<Val> = text_values(a);
    let y: Seq<Val> = text_values(b);
    let codes: Seq<Code> = opcodes_of(x, y, true);
    let c: Code = codes[k];
    let w: Span = Span { alo: 0, ahi: x.len() as int, blo: 0, bhi: y.len() as int };
    lemma_opcodes_cover(x, y, true);
    lemma_tiles_bounds(codes, w, k);
    let (p, q) = class_lists(x, y);
    let m: Block = Block { a: c.a1, b: c.b1, size: c.a2 - c.a1 };
    assert(same_run(p, q, m));
    assert(p[m.a + t] == q[m.b + t]);
    let keys: Seq<Option<ScalarVal>> = python_scalars(x + y);
    lemma_classes(keys, c.a1 + t, x.len() + c.b1 + t);
    assert((x + y)[x.len() + c.b1 + t] == y[c.b1 + t]);
    assert(python_scalar(x[c.a1 + t]) == Some(ScalarVal::Str(a[c.a1 + t])));
    assert(python_scalar(y[c.b1 + t]) == Some(ScalarVal::Str(b[c.b1 + t])));
}

// ---------------------------------------------------------------------
// What a hunk shows
// ---------------------------------------------------------------------

proof fn lemma_side_add(x: Seq<Seq<char>>, y: Seq<Seq<char>>, mark: char)
    ensures
        side(x + y, mark) == side(x, mark) + side(y, mark),
    decreases y.len(),
{
    if y.len() == 0 {
        assert(x + y =~= x);
        assert(side(x, mark) + side(y, mark) =~= side(x, mark));
    } else {
        lemma_side_add(x, y.drop_last(), mark);
        assert((x + y).drop_last() =~= x + y.drop_last());
        assert(side(x + y, mark) =~= side(x, mark) + side(y, mark));
    }
}

/// The lines of a range behind a mark stand on the side of that mark, and kept ones on
/// both.
proof fn lemma_side_marked(
    own: char,
    from: Seq<Seq<char>>,
    start: int,
    stop: int,
    mark: char,
)
    requires
        0 <= start <= stop <= from.len(),
    ensures
        side(marked(own, from, start, stop), mark) == if own == ' ' || own == mark {
            from.subrange(start, stop)
        } else {
            seq![]
        },
        own == ' ' || own == '-' || own == '+' ==> all_marked(marked(own, from, start, stop)),
    decreases stop - start,
{
    let all: Seq<Seq<char>> = marked(own, from, start, stop);
    if start < stop {
        lemma_side_marked(own, from, start, stop - 1, mark);
        assert(all.drop_last() =~= marked(own, from, start, stop - 1));
        let line: Seq<char> = from[stop - 1];
        assert(all.last() == seq![own] + line);
        assert((seq![own] + line).skip(1) =~= line);
        assert(from.subrange(start, stop) =~= from.subrange(start, stop - 1) + seq![line]);
        assert(Seq::<Seq<char>>::empty() + Seq::<Seq<char>>::empty() =~= Seq::<
            Seq<char>,
        >::empty());
    } else {
        assert(all =~= seq![]);
        assert(from.subrange(start, stop) =~= seq![]);
    }
    assert forall|i: int| 0 <= i < all.len() implies (#[trigger] all[i]).len() > 0 && all[i][0]
        == own by {}
}

/// The sides of what one opcode shows.
proof fn lemma_code_sides(c: Code, a: Seq<Seq<char>>, b: Seq<Seq<char>>)
    requires
        sound(c, a, b),
    ensures
        all_marked(code_lines(c, a, b)),
        side(code_lines(c, a, b), '-') == a.subrange(c.a1, c.a2),
        side(code_lines(c, a, b), '+') == b.subrange(c.b1, c.b2),
{
    let none: Seq<Seq<char>> = seq![];
    match c.tag {
        Tag::Equal => {
            lemma_side_marked(' ', a, c.a1, c.a2, '-');
            lemma_side_marked(' ', a, c.a1, c.a2, '+');
            assert(a.subrange(c.a1, c.a2) =~= b.subrange(c.b1, c.b2)) by {
                assert forall|t: int| 0 <= t < c.a2 - c.a1 implies a.subrange(c.a1, c.a2)[t]
                    == b.subrange(c.b1, c.b2)[t] by {
                    assert(a[c.a1 + t] == b[c.b1 + t]);
                }
            }
        },
        Tag::Delete => {
            lemma_side_marked('-', a, c.a1, c.a2, '-');
            lemma_side_marked('-', a, c.a1, c.a2, '+');
            assert(b.subrange(c.b1, c.b2) =~= none);
        },
        Tag::Insert => {
            lemma_side_marked('+', b, c.b1, c.b2, '-');
            lemma_side_marked('+', b, c.b1, c.b2, '+');
            assert(a.subrange(c.a1, c.a2) =~= none);
        },
        Tag::Replace => {
            let old: Seq<Seq<char>> = marked('-', a, c.a1, c.a2);
            let new: Seq<Seq<char>> = marked('+', b, c.b1, c.b2);
            lemma_side_marked('-', a, c.a1, c.a2, '-');
            lemma_side_marked('-', a, c.a1, c.a2, '+');
            lemma_side_marked('+', b, c.b1, c.b2, '-');
            lemma_side_marked('+', b, c.b1, c.b2, '+');
            lemma_side_add(old, new, '-');
            lemma_side_add(old, new, '+');
            assert(a.subrange(c.a1, c.a2) + none =~= a.subrange(c.a1, c.a2));
            assert(none + b.subrange(c.b1, c.b2) =~= b.subrange(c.b1, c.b2));
        },
    }
}

/// The sides of what a group shows.
proof fn lemma_group_sides(group: Seq<Code>, a: Seq<Seq<char>>, b: Seq<Seq<char>>)
    requires
        group.len() > 0,
        chained(group, a, b),
    ensures
        0 <= group[0].a1 <= group.last().a2 <= a.len(),
        0 <= group[0].b1 <= group.last().b2 <= b.len(),
        all_marked(codes_lines(group, a, b)),
        side(codes_lines(group, a, b), '-') == a.subrange(group[0].a1, group.last().a2),
        side(codes_lines(group, a, b), '+') == b.subrange(group[0].b1, group.last().b2),
    decreases group.len(),
{
    let c: Code = group.last();
    let front: Seq<Code> = group.drop_last();
    let before: Seq<Seq<char>> = codes_lines(front, a, b);
    let own: Seq<Seq<char>> = code_lines(c, a, b);
    assert(sound(group[group.len() - 1], a, b));
    lemma_code_sides(c, a, b);
    lemma_side_add(before, own, '-');
    lemma_side_add(before, own, '+');
    if front.len() > 0 {
        assert forall|k: int| 0 <= k < front.len() implies sound(#[trigger] front[k], a, b) by {
            assert(front[k] == group[k]);
        }
        assert forall|k: int| 0 <= k < front.len() - 1 implies #[trigger] next_to(front, k) by {
            assert(next_to(group, k));
        }
        lemma_group_sides(front, a, b);
        assert(next_to(group, group.len() - 2));
        let d: Code = front.last();
        assert(a.subrange(group[0].a1, d.a2) + a.subrange(c.a1, c.a2) =~= a.subrange(
            group[0].a1,
            c.a2,
        ));
        assert(b.subrange(group[0].b1, d.b2) + b.subrange(c.b1, c.b2) =~= b.subrange(
            group[0].b1,
            c.b2,
        ));
    } else {
        assert(before =~= seq![]);
        assert(before + own =~= own);
        assert(Seq::<Seq<char>>::empty() + a.subrange(c.a1, c.a2) =~= a.subrange(c.a1, c.a2));
        assert(Seq::<Seq<char>>::empty() + b.subrange(c.b1, c.b2) =~= b.subrange(c.b1, c.b2));
    }
    let all: Seq<Seq<char>> = codes_lines(group, a, b);
    assert forall|i: int| 0 <= i < all.len() implies (#[trigger] all[i]).len() > 0 && (all[i][0]
        == ' ' || all[i][0] == '-' || all[i][0] == '+') by {
        if i < before.len() {
            assert(all[i] == before[i]);
        } else {
            assert(all[i] == own[i - before.len()]);
        }
    }
}

/// The hunk that a group is shown as.
spec fn hunk_of(group: Seq<Code>, a: Seq<Seq<char>>, b: Seq<Seq<char>>) -> Hunk {
    Hunk {
        header: header(group),
        a1: group[0].a1,
        a2: group.last().a2,
        b1: group[0].b1,
        b2: group.last().b2,
        lines: codes_lines(group, a, b),
    }
}

/// The hunks that groups are shown as.
spec fn hunks_of(groups: Seq<Seq<Code>>, a: Seq<Seq<char>>, b: Seq<Seq<char>>) -> Seq<Hunk> {
    Seq::new(groups.len(), |g: int| hunk_of(groups[g], a, b))
}

proof fn lemma_range(start: int, stop: int)
    requires
        0 <= start <= stop,
    ensures
        gives_range(range_text(start, stop), start, stop),
{
    assert(decimal(0) =~= seq!['0']);
    if start == stop {
        assert(range_text(start, stop) =~= decimal(start as nat) + seq![','] + decimal(0));
    }
}

proof fn lemma_hunks_bridge(
    groups: Seq<Seq<Code>>,
    a: Seq<Seq<char>>,
    b: Seq<Seq<char>>,
    i: int,
    j: int,
)
    requires
        grouped(groups, a, b, i, j),
    ensures
        bridges(hunks_of(groups, a, b), a, b, i, j),
    decreases groups.len(),
{
    let list: Seq<Hunk> = hunks_of(groups, a, b);
    if groups.len() == 0 {
        assert(a.skip(i) =~= b.skip(j)) by {
            assert forall|t: int| 0 <= t < a.len() - i implies a.skip(i)[t] == b.skip(j)[t] by {
                assert(a[i + t] == b[j + t]);
            }
        }
    } else {
        let g: Seq<Code> = groups[0];
        let h: Hunk = list[0];
        lemma_group_sides(g, a, b);
        lemma_range(h.a1, h.a2);
        lemma_range(h.b1, h.b2);
        assert(gives_ranges(h.header, h));
        assert(a.subrange(i, h.a1) =~= b.subrange(j, h.b1)) by {
            assert forall|t: int| 0 <= t < h.a1 - i implies a.subrange(i, h.a1)[t] == b.subrange(
                j,
                h.b1,
            )[t] by {
                assert(a[i + t] == b[j + t]);
            }
        }
        lemma_hunks_bridge(groups.drop_first(), a, b, h.a2, h.b2);
        assert(list.drop_first() =~= hunks_of(groups.drop_first(), a, b));
    }
}

proof fn lemma_shown(groups: Seq<Seq<Code>>, a: Seq<Seq<char>>, b: Seq<Seq<char>>)
    ensures
        shown_lines(hunks_of(groups, a, b)) == hunks(groups, a, b),
    decreases groups.len(),
{
    if groups.len() > 0 {
        lemma_shown(groups.drop_last(), a, b);
        assert(hunks_of(groups, a, b).drop_last() =~= hunks_of(groups.drop_last(), a, b));
    }
}

// ---------------------------------------------------------------------
// Lines
// ---------------------------------------------------------------------

/// Joined lines, from the front.
proof fn lemma_joined_front(parts: Seq<Seq<char>>)
    requires
        parts.len() > 1,
    ensures
        joined(parts) == parts[0].push('\n') + joined(parts.drop_first()),
    decreases parts.len(),
{
    let rest: Seq<Seq<char>> = parts.drop_first();
    if parts.len() == 2 {
        reveal_with_fuel(joined, 2);
        assert(parts.drop_last() =~= seq![parts[0]]);
        assert(joined(parts) =~= parts[0].push('\n') + parts[1]);
    } else {
        lemma_joined_front(parts.drop_last());
        assert(parts.drop_last().drop_first() =~= rest.drop_last());
        assert(rest.last() == parts.last());
        assert(joined(parts) =~= parts[0].push('\n') + joined(rest));
    }
}

/// A line that is met before a line feed.
proof fn lemma_line_met(part: Seq<char>, rest: Seq<char>, line: Seq<char>)
    requires
        forall|k: int| 0 <= k < part.len() ==> !ends_line(#[trigger] part[k]),
    ensures
        lines_from(part.push('\n') + rest, line) == seq![line + part] + lines_from(rest, seq![]),
    decreases part.len(),
{
    let all: Seq<char> = part.push('\n') + rest;
    if part.len() == 0 {
        assert(all[0] == '\n');
        assert(past_line_end(all) =~= rest);
        assert(line + part =~= line);
    } else {
        assert(!ends_line(part[0]));
        assert(all[0] == part[0]);
        let less: Seq<char> = part.drop_first();
        assert forall|k: int| 0 <= k < less.len() implies !ends_line(#[trigger] less[k]) by {
            assert(less[k] == part[k + 1]);
        }
        lemma_line_met(less, rest, line.push(part[0]));
        assert(all.skip(1) =~= less.push('\n') + rest);
        assert(line.push(part[0]) + less =~= line + part);
    }
}

/// A last line.
proof fn lemma_last_line(part: Seq<char>, line: Seq<char>)
    requires
        forall|k: int| 0 <= k < part.len() ==> !ends_line(#[trigger] part[k]),
        part.len() + line.len() > 0,
    ensures
        lines_from(part, line) == seq![line + part],
    decreases part.len(),
{
    if part.len() == 0 {
        assert(line + part =~= line);
    } else {
        assert(!ends_line(part[0]));
        let less: Seq<char> = part.skip(1);
        assert forall|k: int| 0 <= k < less.len() implies !ends_line(#[trigger] less[k]) by {
            assert(less[k] == part[k + 1]);
        }
        lemma_last_line(less, line.push(part[0]));
        assert(line.push(part[0]) + less =~= line + part);
    }
}

/// Lines that are joined by line feeds and taken apart again are the same lines, if none
/// of them holds a line end and the last is not empty.
pub proof fn lemma_lines_joined(parts: Seq<Seq<char>>)
    requires
        parts.len() > 0,
        single_lines(parts),
        parts.last().len() > 0,
    ensures
        lines(joined(parts)) == parts,
    decreases parts.len(),
{
    let none: Seq<char> = seq![];
    assert forall|k: int| 0 <= k < parts[0].len() implies !ends_line(#[trigger] parts[0][k]) by {}
    assert(none + parts[0] =~= parts[0]);
    if parts.len() == 1 {
        lemma_last_line(parts[0], none);
        assert(parts =~= seq![parts[0]]);
    } else {
        let rest: Seq<Seq<char>> = parts.drop_first();
        assert forall|i: int, k: int|
            0 <= i < rest.len() && 0 <= k < rest[i].len() implies !ends_line(
            #[trigger] rest[i][k],
        ) by {
            assert(!ends_line(parts[i + 1][k]));
        }
        lemma_joined_front(parts);
        lemma_lines_joined(rest);
        lemma_line_met(parts[0], joined(rest), none);
        assert(parts =~= seq![parts[0]] + rest);
    }
}

/// The digits of a number are no line ends.
proof fn lemma_digits(n: nat)
    ensures
        decimal(n).len() > 0,
        forall|k: int| 0 <= k < decimal(n).len() ==> !ends_line(#[trigger] decimal(n)[k]),
    decreases n,
{
    if n >= 10 {
        lemma_digits(n / 10);
        let front: Seq<char> = decimal(n / 10);
        assert forall|k: int| 0 <= k < decimal(n).len() implies !ends_line(
            #[trigger] decimal(n)[k],
        ) by {
            if k < front.len() {
                assert(decimal(n)[k] == front[k]);
            } else {
                assert(decimal(n)[k] == digit((n % 10) as int));
            }
        }
    }
}

/// Whether a text holds no line end.
spec fn single(text: Seq<char>) -> bool {
    forall|k: int| 0 <= k < text.len() ==> !ends_line(#[trigger] text[k])
}

proof fn lemma_single_add(x: Seq<char>, y: Seq<char>)
    requires
        single(x),
        single(y),
    ensures
        single(x + y),
{
    assert forall|k: int| 0 <= k < (x + y).len() implies !ends_line(#[trigger] (x + y)[k]) by {
        if k < x.len() {
            assert((x + y)[k] == x[k]);
        } else {
            assert((x + y)[k] == y[k - x.len()]);
        }
    }
}

proof fn lemma_range_single(start: int, stop: int)
    requires
        0 <= start <= stop,
    ensures
        single(range_text(start, stop)),
{
    lemma_digits((start + 1) as nat);
    lemma_digits(start as nat);
    lemma_digits((stop - start) as nat);
    lemma_single_add(decimal(start as nat), seq![',', '0']);
    lemma_single_add(decimal((start + 1) as nat), seq![',']);
    lemma_single_add(
        decimal((start + 1) as nat) + seq![','],
        decimal((stop - start) as nat),
    );
}

proof fn lemma_header_single(group: Seq<Code>)
    requires
        0 <= group[0].a1 <= group.last().a2,
        0 <= group[0].b1 <= group.last().b2,
    ensures
        single(header(group)),
        header(group).len() > 0,
{
    let one: Seq<char> = range_text(group[0].a1, group.last().a2);
    let two: Seq<char> = range_text(group[0].b1, group.last().b2);
    lemma_range_single(group[0].a1, group.last().a2);
    lemma_range_single(group[0].b1, group.last().b2);
    lemma_single_add(seq!['@', '@', ' ', '-'], one);
    lemma_single_add(seq!['@', '@', ' ', '-'] + one, seq![' ', '+']);
    lemma_single_add(seq!['@', '@', ' ', '-'] + one + seq![' ', '+'], two);
    lemma_single_add(
        seq!['@', '@', ' ', '-'] + one + seq![' ', '+'] + two,
        seq![' ', '@', '@'],
    );
}

/// Whether lines hold no line end and are not empty.
spec fn proper_lines(parts: Seq<Seq<char>>) -> bool {
    forall|i: int| 0 <= i < parts.len() ==> single(#[trigger] parts[i]) && parts[i].len() > 0
}

proof fn lemma_proper_add(x: Seq<Seq<char>>, y: Seq<Seq<char>>)
    requires
        proper_lines(x),
        proper_lines(y),
    ensures
        proper_lines(x + y),
{
    assert forall|i: int| 0 <= i < (x + y).len() implies single(#[trigger] (x + y)[i]) && (x
        + y)[i].len() > 0 by {
        if i < x.len() {
            assert((x + y)[i] == x[i]);
        } else {
            assert((x + y)[i] == y[i - x.len()]);
        }
    }
}

proof fn lemma_marked_proper(mark: char, from: Seq<Seq<char>>, start: int, stop: int)
    requires
        0 <= start <= stop <= from.len(),
        single_lines(from),
        !ends_line(mark),
    ensures
        proper_lines(marked(mark, from, start, stop)),
{
    let all: Seq<Seq<char>> = marked(mark, from, start, stop);
    assert forall|i: int| 0 <= i < all.len() implies single(#[trigger] all[i]) && all[i].len()
        > 0 by {
        let line: Seq<char> = from[start + i];
        assert(all[i] == seq![mark] + line);
        assert forall|k: int| 0 <= k < line.len() implies !ends_line(#[trigger] line[k]) by {
            assert(!ends_line(from[start + i][k]));
        }
        lemma_single_add(seq![mark], line);
    }
}

proof fn lemma_codes_proper(group: Seq<Code>, a: Seq<Seq<char>>, b: Seq<Seq<char>>)
    requires
        chained(group, a, b),
        single_lines(a),
        single_lines(b),
    ensures
        proper_lines(codes_lines(group, a, b)),
    decreases group.len(),
{
    if group.len() > 0 {
        let front: Seq<Code> = group.drop_last();
        assert forall|k: int| 0 <= k < front.len() implies sound(#[trigger] front[k], a, b) by {
            assert(front[k] == group[k]);
        }
        assert forall|k: int| 0 <= k < front.len() - 1 implies #[trigger] next_to(front, k) by {
            assert(next_to(group, k));
        }
        lemma_codes_proper(front, a, b);
        let c: Code = group.last();
        assert(sound(group[group.len() - 1], a, b));
        lemma_marked_proper(' ', a, c.a1, c.a2);
        lemma_marked_proper('-', a, c.a1, c.a2);
        lemma_marked_proper('+', b, c.b1, c.b2);
        lemma_proper_add(marked('-', a, c.a1, c.a2), marked('+', b, c.b1, c.b2));
        lemma_proper_add(codes_lines(front, a, b), code_lines(c, a, b));
    }
}

/// The first groups of groups that follow each other are true, too.
proof fn lemma_each_group<V>(
    groups: Seq<Seq<Code>>,
    a: Seq<V>,
    b: Seq<V>,
    i: int,
    j: int,
    g: int,
)
    requires
        grouped(groups, a, b, i, j),
        0 <= g < groups.len(),
    ensures
        groups[g].len() > 0,
        chained(groups[g], a, b),
    decreases groups.len(),
{
    if g > 0 {
        let h: Seq<Code> = groups[0];
        lemma_each_group(groups.drop_first(), a, b, h.last().a2, h.last().b2, g - 1);
    }
}

proof fn lemma_hunks_proper(groups: Seq<Seq<Code>>, a: Seq<Seq<char>>, b: Seq<Seq<char>>)
    requires
        forall|g: int|
            0 <= g < groups.len() ==> (#[trigger] groups[g]).len() > 0 && chained(groups[g], a, b),
        single_lines(a),
        single_lines(b),
    ensures
        proper_lines(hunks(groups, a, b)),
    decreases groups.len(),
{
    if groups.len() > 0 {
        let front: Seq<Seq<Code>> = groups.drop_last();
        assert forall|g: int| 0 <= g < front.len() implies (#[trigger] front[g]).len() > 0
            && chained(front[g], a, b) by {
            assert(front[g] == groups[g]);
        }
        lemma_hunks_proper(front, a, b);
        let last: Seq<Code> = groups[groups.len() - 1];
        lemma_group_sides(last, a, b);
        lemma_codes_proper(last, a, b);
        lemma_header_single(last);
        lemma_proper_add(seq![header(last)], codes_lines(last, a, b));
        lemma_proper_add(
            hunks(front, a, b),
            seq![header(last)] + codes_lines(last, a, b),
        );
    }
}

// ---------------------------------------------------------------------
// The law
// ---------------------------------------------------------------------

/// Whether a text shows hunks, behind the two lines that name no file, each hunk behind
/// its header.
pub open spec fn shows_hunks(text: Seq<char>, list: Seq<Hunk>) -> bool {
    lines(text) == seq![seq!['-', '-', '-', ' '], seq!['+', '+', '+', ' ']] + shown_lines(list)
}

/// A unified diff leads from the old text to the new one and back: it shows hunks, of
/// which each is true of the lines of both texts, and applying them to the lines of the
/// old text gives those of the new, and undoing them the other way round.
pub proof fn lemma_diff_applies(t1: Seq<char>, t2: Seq<char>, text: Seq<char>)
    requires
        unified(t1, t2) == Some(text),
    ensures
        exists|list: Seq<Hunk>|
            #![trigger shows_hunks(text, list)]
            {
                &&& list.len() > 0
                &&& shows_hunks(text, list)
                &&& forall|h: int|
                    0 <= h < list.len() ==> true_of(#[trigger] list[h], lines(t1), lines(t2))
                &&& applied(list, lines(t1), 0) == lines(t2)
                &&& undone(list, lines(t2), 0) == lines(t1)
            },
{
    let a: Seq<Seq<char>> = lines(t1);
    let b: Seq<Seq<char>> = lines(t2);
    let groups: Seq<Seq<Code>> = groups_of(
        text_values(a),
        text_values(b),
        CONTEXT_LINES as int,
    );
    let list: Seq<Hunk> = hunks_of(groups, a, b);
    lemma_lines_are_single(t1);
    lemma_lines_are_single(t2);
    lemma_groups_bridge(a, b, CONTEXT_LINES as int);
    lemma_hunks_bridge(groups, a, b, 0, 0);
    lemma_bridges_apply(list, a, b, 0, 0);
    assert(a.skip(0) =~= a);
    assert(b.skip(0) =~= b);
    lemma_shown(groups, a, b);
    lemma_text_lines(groups, a, b);
    assert(shows_hunks(text, list));
    assert forall|h: int| 0 <= h < list.len() implies true_of(#[trigger] list[h], a, b) by {
        lemma_each_true(list, a, b, 0, 0, h);
    }
}

/// The lines of the text that shows groups.
proof fn lemma_text_lines(groups: Seq<Seq<Code>>, a: Seq<Seq<char>>, b: Seq<Seq<char>>)
    requires
        groups.len() > 0,
        grouped(groups, a, b, 0, 0),
        single_lines(a),
        single_lines(b),
    ensures
        lines(joined(file_lines() + hunks(groups, a, b))) == file_lines() + hunks(groups, a, b),
{
    assert forall|g: int| 0 <= g < groups.len() implies (#[trigger] groups[g]).len() > 0
        && chained(groups[g], a, b) by {
        lemma_each_group(groups, a, b, 0, 0, g);
    }
    lemma_hunks_proper(groups, a, b);
    let parts: Seq<Seq<char>> = file_lines() + hunks(groups, a, b);
    assert(proper_lines(file_lines())) by {
        assert(single(file_lines()[0]));
        assert(single(file_lines()[1]));
    }
    lemma_proper_add(file_lines(), hunks(groups, a, b));
    assert(single_lines(parts)) by {
        assert forall|i: int, k: int|
            0 <= i < parts.len() && 0 <= k < parts[i].len() implies !ends_line(
            #[trigger] parts[i][k],
        ) by {
            assert(single(parts[i]));
        }
    }
    assert(parts[parts.len() - 1].len() > 0);
    lemma_lines_joined(parts);
}

/// Each of the hunks that follow each other is true.
proof fn lemma_each_true(
    list: Seq<Hunk>,
    a: Seq<Seq<char>>,
    b: Seq<Seq<char>>,
    i: int,
    j: int,
    h: int,
)
    requires
        bridges(list, a, b, i, j),
        0 <= h < list.len(),
    ensures
        true_of(list[h], a, b),
    decreases list.len(),
{
    if h > 0 {
        lemma_each_true(list.drop_first(), a, b, list[0].a2, list[0].b2, h - 1);
    }
}

/// There is a unified diff of two texts of which one has a line feed, unless their lines
/// are the same.
pub proof fn lemma_diff_owed(t1: Seq<char>, t2: Seq<char>)
    requires
        t1.contains('\n') || t2.contains('\n'),
        lines(t1) != lines(t2),
    ensures
        unified(t1, t2) is Some,
{
    let a: Seq<Seq<char>> = lines(t1);
    let b: Seq<Seq<char>> = lines(t2);
    lemma_groups_bridge(a, b, CONTEXT_LINES as int);
    if unified(t1, t2) is None {
        assert forall|t: int| 0 <= t < a.len() implies a[t] == b[t] by {
            assert(a[0 + t] == b[0 + t]);
        }
        assert(a =~= b);
    }
}

// ---------------------------------------------------------------------
// Lines and their ends
// ---------------------------------------------------------------------

/// Whether characters are a line end: a carriage return and a line feed, or one line
/// feed, vertical tab, form feed, carriage return, separator of files, groups or records,
/// next line, or separator of lines or paragraphs.
pub open spec fn line_end(end: Seq<char>) -> bool {
    end == seq!['\r', '\n'] || (end.len() == 1 && {
        let c = end[0] as int;
        10 <= c <= 13 || 28 <= c <= 30 || c == 133 || c == 8232 || c == 8233
    })
}

/// Lines, each with its end.
pub open spec fn rejoined(parts: Seq<Seq<char>>, ends: Seq<Seq<char>>) -> Seq<char>
    decreases parts.len(),
{
    if parts.len() == 0 {
        seq![]
    } else {
        parts[0] + ends[0] + rejoined(parts.drop_first(), ends.drop_first())
    }
}

/// Whether lines have such ends as a text gives them: each a line end, of which none is
/// parted; only the last line may have none, and it is not empty.
pub open spec fn ended(parts: Seq<Seq<char>>, ends: Seq<Seq<char>>) -> bool {
    &&& parts.len() == ends.len()
    &&& forall|i: int|
        0 <= i < ends.len() ==> line_end(#[trigger] ends[i]) || (i == ends.len() - 1
            && ends[i].len() == 0 && parts[i].len() > 0)
    &&& forall|i: int, j: int|
        0 <= i && j == i + 1 && j < ends.len() && #[trigger] ends[i] == seq!['\r'] ==> !(
        parts[j].len() == 0 && #[trigger] ends[j] == seq!['\n'])
}

proof fn lemma_lines_end(text: Seq<char>, line: Seq<char>) -> (ends: Seq<Seq<char>>)
    ensures
        ended(lines_from(text, line), ends),
        rejoined(lines_from(text, line), ends) == line + text,
    decreases text.len(),
{
    let parts: Seq<Seq<char>> = lines_from(text, line);
    if text.len() == 0 {
        if line.len() == 0 {
            assert(line + text =~= seq![]);
            seq![]
        } else {
            let ends: Seq<Seq<char>> = seq![seq![]];
            reveal_with_fuel(rejoined, 2);
            assert(parts.drop_first() =~= seq![]);
            assert(rejoined(parts, ends) =~= line + text);
            ends
        }
    } else if ends_line(text[0]) {
        let past: Seq<char> = past_line_end(text);
        let end: Seq<char> = text.take(text.len() - past.len());
        let rest: Seq<Seq<char>> = lines_from(past, seq![]);
        let behind: Seq<Seq<char>> = lemma_lines_end(past, seq![]);
        let ends: Seq<Seq<char>> = seq![end] + behind;
        assert(seq![] + past =~= past);
        assert(end + past =~= text);
        assert(line_end(end)) by {
            if end.len() == 2 {
                assert(end =~= seq!['\r', '\n']);
            }
        }
        assert(parts.drop_first() =~= rest);
        assert(ends.drop_first() =~= behind);
        assert(rejoined(parts, ends) =~= line + text) by {
            assert(line + end + past =~= line + text);
        }
        assert forall|i: int| 0 <= i < ends.len() implies line_end(#[trigger] ends[i]) || (i
            == ends.len() - 1 && ends[i].len() == 0 && parts[i].len() > 0) by {
            if i > 0 {
                assert(ends[i] == behind[i - 1]);
                assert(parts[i] == rest[i - 1]);
            }
        }
        assert forall|i: int, j: int|
            0 <= i && j == i + 1 && j < ends.len() && #[trigger] ends[i] == seq!['\r'] implies !(
        parts[j].len() == 0 && #[trigger] ends[j] == seq!['\n']) by {
            assert(ends[j] == behind[j - 1]);
            assert(parts[j] == rest[j - 1]);
            if i > 0 {
                assert(ends[i] == behind[i - 1]);
            } else if parts[j].len() == 0 && ends[j] == seq!['\n'] {
                assert(rejoined(rest, behind)[0] == '\n');
                assert(end[0] == text[0]);
                assert(past[0] == text[1]);
            }
        }
        ends
    } else {
        let ends: Seq<Seq<char>> = lemma_lines_end(text.skip(1), line.push(text[0]));
        assert(line.push(text[0]) + text.skip(1) =~= line + text);
        ends
    }
}

/// A text is its lines, each with its end; only the last may have none, and no empty
/// line stands behind the last end. No line holds a character that ends lines.
pub proof fn lemma_text_is_lines(text: Seq<char>)
    ensures
        exists|ends: Seq<Seq<char>>| #[trigger]
            ended(lines(text), ends) && rejoined(lines(text), ends) == text,
        forall|i: int, k: int|
            0 <= i < lines(text).len() && 0 <= k < lines(text)[i].len() ==> !line_end(
                seq![#[trigger] lines(text)[i][k]],
            ),
{
    let ends: Seq<Seq<char>> = lemma_lines_end(text, seq![]);
    lemma_lines_are_single(text);
    assert forall|i: int, k: int|
        0 <= i < lines(text).len() && 0 <= k < lines(text)[i].len() implies !line_end(
        seq![#[trigger] lines(text)[i][k]],
    ) by {
        let c: char = lines(text)[i][k];
        assert(!ends_line(c));
        assert(seq![c].len() == 1 && seq![c][0] == c);
        assert(seq!['\r', '\n'].len() == 2);
    }
    assert(seq![] + text =~= text);
    assert(ended(lines(text), ends) && rejoined(lines(text), ends) == text);
}

/// Texts without a line feed have no unified diff.
pub proof fn lemma_no_diff_owed(t1: Seq<char>, t2: Seq<char>)
    requires
        unified(t1, t2) is Some,
    ensures
        t1.contains('\n') || t2.contains('\n'),
{
}

} // verus!
