//! Lists of scalars, compared by their longest common parts, and the ends of
//! lists of different lengths.

use vstd::prelude::*;

use super::scalar::{
    check_traversal_depth, check_value_depth, normalized_pair, python_type_name,
};
use crate::error::Error;
use crate::lcs::{compute_opcodes, Opcode, Tag};
use crate::path::{duplicate_segments, PathSegment};
use crate::report::{Report, TypeChangeEntry, ValuesChangedEntry};
use crate::unified_diff::str_diff_field;
use crate::value::Value;

#[allow(unused_imports)]
use super::scalar::{outcome, oversized, too_deep, type_change, type_text, value_change, Outcome};
#[allow(unused_imports)]
use crate::error::Failure;
#[allow(unused_imports)]
use crate::lcs::{codes_view, lemma_opcodes_cover, lemma_tiles_bounds, opcodes_of, Code, Span};
#[allow(unused_imports)]
use crate::path::{path_text, segs, Seg};
#[allow(unused_imports)]
use crate::report::{
    nothing, path_of, with_item_added, with_item_removed, with_type_change, with_value_change,
    Findings,
};
#[allow(unused_imports)]
use crate::scalar_key::basic;
#[allow(unused_imports)]
use crate::value::{views, Val};

verus! {

// ---------------------------------------------------------------------
// What is found
// ---------------------------------------------------------------------

/// The path of an item.
pub open spec fn item_path(path: Seq<Seg>, i: int) -> Seq<Seg> {
    path.push(Seg::Index(i))
}

/// The items from `i` up to `stop` as removed.
pub open spec fn removed_run(f: Findings, path: Seq<Seg>, a: Seq<Val>, i: int, stop: int) -> Findings
    decreases stop - i,
{
    if i >= stop {
        f
    } else {
        removed_run(with_item_removed(f, item_path(path, i), a[i]), path, a, i + 1, stop)
    }
}

/// The items from `i` up to `stop` as added.
pub open spec fn added_run(f: Findings, path: Seq<Seg>, b: Seq<Val>, i: int, stop: int) -> Findings
    decreases stop - i,
{
    if i >= stop {
        f
    } else {
        added_run(with_item_added(f, item_path(path, i), b[i]), path, b, i + 1, stop)
    }
}

/// Item `i` replaced by item `j`.
pub open spec fn pair_outcome(
    f: Findings,
    path: Seq<Seg>,
    a: Seq<Val>,
    b: Seq<Val>,
    i: int,
    j: int,
    depth: int,
    max_depth: int,
) -> Outcome {
    let at = item_path(path, i);
    let new_path = if i != j {
        Some(item_path(path, j))
    } else {
        None
    };
    if depth + 1 > max_depth {
        Err(too_deep(at, max_depth))
    } else {
        match (a[i], b[j]) {
            (Val::DateTime(x), Val::DateTime(y)) => match (x.spec_to_utc(), y.spec_to_utc()) {
                (Some(u), Some(v)) => if u == v {
                    Ok(f)
                } else {
                    Ok(
                        with_value_change(
                            f,
                            at,
                            value_change(Val::DateTime(u), Val::DateTime(v), new_path),
                        ),
                    )
                },
                _ => Err(Failure::DateTimeOutOfRange { path: path_text(at) }),
            },
            _ => if type_text(a[i]) == type_text(b[j]) {
                Ok(with_value_change(f, at, value_change(a[i], b[j], new_path)))
            } else {
                Ok(with_type_change(f, at, type_change(a[i], b[j], new_path)))
            },
        }
    }
}

/// Items replaced one by one, from the `k`th to the `count`th behind positions
/// `i` and `j`.
pub open spec fn pairs_outcome(
    f: Findings,
    path: Seq<Seg>,
    a: Seq<Val>,
    b: Seq<Val>,
    i: int,
    j: int,
    k: int,
    count: int,
    depth: int,
    max_depth: int,
) -> Outcome
    decreases count - k,
{
    if k >= count {
        Ok(f)
    } else {
        match pair_outcome(f, path, a, b, i + k, j + k, depth, max_depth) {
            Err(e) => Err(e),
            Ok(g) => pairs_outcome(g, path, a, b, i, j, k + 1, count, depth, max_depth),
        }
    }
}

/// The length of the shorter range of an opcode.
pub open spec fn code_pairs(c: Code) -> int {
    if c.a2 - c.a1 < c.b2 - c.b1 {
        c.a2 - c.a1
    } else {
        c.b2 - c.b1
    }
}

/// What an opcode stands for.
pub open spec fn code_outcome(
    f: Findings,
    path: Seq<Seg>,
    a: Seq<Val>,
    b: Seq<Val>,
    c: Code,
    depth: int,
    max_depth: int,
) -> Outcome {
    match c.tag {
        Tag::Equal => Ok(f),
        Tag::Delete => Ok(removed_run(f, path, a, c.a1, c.a2)),
        Tag::Insert => Ok(added_run(f, path, b, c.b1, c.b2)),
        Tag::Replace => {
            let count = code_pairs(c);
            match pairs_outcome(f, path, a, b, c.a1, c.b1, 0, count, depth, max_depth) {
                Err(e) => Err(e),
                Ok(g) => Ok(
                    added_run(
                        removed_run(g, path, a, c.a1 + count, c.a2),
                        path,
                        b,
                        c.b1 + count,
                        c.b2,
                    ),
                ),
            }
        },
    }
}

/// What the opcodes from the `k`th on stand for.
pub open spec fn codes_outcome(
    f: Findings,
    path: Seq<Seg>,
    a: Seq<Val>,
    b: Seq<Val>,
    codes: Seq<Code>,
    k: int,
    depth: int,
    max_depth: int,
) -> Outcome
    decreases codes.len() - k,
{
    if k < 0 || k >= codes.len() {
        Ok(f)
    } else {
        match code_outcome(f, path, a, b, codes[k], depth, max_depth) {
            Err(e) => Err(e),
            Ok(g) => codes_outcome(g, path, a, b, codes, k + 1, depth, max_depth),
        }
    }
}

/// Two lists of scalars compared by their longest common parts.
pub open spec fn lcs_outcome(path: Seq<Seg>, a: Seq<Val>, b: Seq<Val>, depth: int, max_depth: int) -> Outcome {
    codes_outcome(nothing(), path, a, b, opcodes_of(a, b, false), 0, depth, max_depth)
}

/// The items from `i` on as removed, unless one of them nests too deep.
pub open spec fn removed_tail(
    f: Findings,
    path: Seq<Seg>,
    a: Seq<Val>,
    i: int,
    depth: int,
    max_depth: int,
) -> Outcome
    decreases a.len() - i,
{
    if i >= a.len() {
        Ok(f)
    } else if oversized(a[i], depth + 1, max_depth) {
        Err(too_deep(item_path(path, i), max_depth))
    } else {
        removed_tail(
            with_item_removed(f, item_path(path, i), a[i]),
            path,
            a,
            i + 1,
            depth,
            max_depth,
        )
    }
}

/// The items from `i` on as added, unless one of them nests too deep.
pub open spec fn added_tail(
    f: Findings,
    path: Seq<Seg>,
    b: Seq<Val>,
    i: int,
    depth: int,
    max_depth: int,
) -> Outcome
    decreases b.len() - i,
{
    if i >= b.len() {
        Ok(f)
    } else if oversized(b[i], depth + 1, max_depth) {
        Err(too_deep(item_path(path, i), max_depth))
    } else {
        added_tail(
            with_item_added(f, item_path(path, i), b[i]),
            path,
            b,
            i + 1,
            depth,
            max_depth,
        )
    }
}

/// The failure at the first item from `i` on that nests too deep.
pub open spec fn items_failure(path: Seq<Seg>, items: Seq<Val>, i: int, depth: int, max_depth: int) -> Option<
    Failure,
>
    decreases items.len() - i,
{
    if i >= items.len() {
        None
    } else if oversized(items[i], depth + 1, max_depth) {
        Some(too_deep(item_path(path, i), max_depth))
    } else {
        items_failure(path, items, i + 1, depth, max_depth)
    }
}

// ---------------------------------------------------------------------
// Finding it
// ---------------------------------------------------------------------

/// A path with one more step.
pub proof fn lemma_segs_push(path: Seq<PathSegment>, segment: PathSegment)
    ensures
        segs(path.push(segment)) == segs(path).push(segment@),
{
    assert(segs(path.push(segment)) =~= segs(path).push(segment@));
}

/// The path of a step below a path.
pub fn child_path(path: &Vec<PathSegment>, segment: PathSegment) -> (child: Vec<PathSegment>)
    ensures
        segs(child@) == segs(path@).push(segment@),
{
    let mut child: Vec<PathSegment> = duplicate_segments(path);
    proof {
        lemma_segs_push(child@, segment);
    }
    child.push(segment);
    child
}

fn insert_removed_run(
    report: &mut Report,
    path: &Vec<PathSegment>,
    a: &Vec<Value>,
    start: usize,
    stop: usize,
)
    requires
        stop <= a.len(),
    ensures
        final(report)@ == removed_run(
            old(report)@,
            segs(path@),
            views(a@),
            start as int,
            stop as int,
        ),
{
    let ghost goal: Findings = removed_run(
        report@,
        segs(path@),
        views(a@),
        start as int,
        stop as int,
    );
    let mut i: usize = start;
    while i < stop
        invariant
            stop <= a.len(),
            goal == removed_run(report@, segs(path@), views(a@), i as int, stop as int),
        decreases stop - i,
    {
        report.insert_iterable_item_removed(
            child_path(path, PathSegment::Index(i)),
            a[i].duplicate(),
        );
        i = i + 1;
    }
}

fn insert_added_run(
    report: &mut Report,
    path: &Vec<PathSegment>,
    b: &Vec<Value>,
    start: usize,
    stop: usize,
)
    requires
        stop <= b.len(),
    ensures
        final(report)@ == added_run(
            old(report)@,
            segs(path@),
            views(b@),
            start as int,
            stop as int,
        ),
{
    let ghost goal: Findings = added_run(
        report@,
        segs(path@),
        views(b@),
        start as int,
        stop as int,
    );
    let mut i: usize = start;
    while i < stop
        invariant
            stop <= b.len(),
            goal == added_run(report@, segs(path@), views(b@), i as int, stop as int),
        decreases stop - i,
    {
        report.insert_iterable_item_added(
            child_path(path, PathSegment::Index(i)),
            b[i].duplicate(),
        );
        i = i + 1;
    }
}

/// Records that item `i` was replaced by item `j`.
fn insert_lcs_pair_finding(
    report: Report,
    path: &Vec<PathSegment>,
    a: &Vec<Value>,
    b: &Vec<Value>,
    i: usize,
    j: usize,
    depth: u128,
    max_depth: usize,
) -> (result: Result<Report, Error>)
    requires
        i < a.len(),
        j < b.len(),
        depth < u128::MAX,
    ensures
        outcome(result) == pair_outcome(
            report@,
            segs(path@),
            views(a@),
            views(b@),
            i as int,
            j as int,
            depth as int,
            max_depth as int,
        ),
{
    let mut report: Report = report;
    let at: Vec<PathSegment> = child_path(path, PathSegment::Index(i));
    if let Err(error) = check_traversal_depth(&at, depth + 1, max_depth) {
        return Err(error);
    }
    let new_path: Option<Vec<PathSegment>> = if i != j {
        Some(child_path(path, PathSegment::Index(j)))
    } else {
        None
    };
    if let (Value::DateTime(x), Value::DateTime(y)) = (&a[i], &b[j]) {
        return match normalized_pair(&at, *x, *y) {
            Err(error) => Err(error),
            Ok((u, v)) => {
                if u != v {
                    let old_value: Value = Value::DateTime(u);
                    let new_value: Value = Value::DateTime(v);
                    let diff: Option<String> = str_diff_field(&old_value, &new_value);
                    let entry: ValuesChangedEntry = ValuesChangedEntry {
                        old_value,
                        new_value,
                        new_path,
                        diff,
                    };
                    proof {
                        assert(entry@ == value_change(
                            Val::DateTime(u),
                            Val::DateTime(v),
                            path_of(new_path),
                        ));
                    }
                    report.insert_values_changed(at, entry);
                }
                Ok(report)
            },
        };
    }
    let old_type: String = python_type_name(&a[i]);
    let new_type: String = python_type_name(&b[j]);
    if old_type.eq(&new_type) {
        let entry: ValuesChangedEntry = ValuesChangedEntry {
            old_value: a[i].duplicate(),
            new_value: b[j].duplicate(),
            new_path,
            diff: str_diff_field(&a[i], &b[j]),
        };
        proof {
            assert(entry@ == value_change(
                views(a@)[i as int],
                views(b@)[j as int],
                path_of(new_path),
            ));
        }
        report.insert_values_changed(at, entry);
    } else {
        let entry: TypeChangeEntry = TypeChangeEntry {
            old_type,
            new_type,
            old_value: a[i].duplicate(),
            new_value: b[j].duplicate(),
            new_path,
        };
        proof {
            assert(entry@ == type_change(
                views(a@)[i as int],
                views(b@)[j as int],
                path_of(new_path),
            ));
        }
        report.insert_type_change(at, entry);
    }
    Ok(report)
}

/// Records what an opcode stands for.
#[verifier::loop_isolation(false)]
fn insert_code(
    report: Report,
    path: &Vec<PathSegment>,
    a: &Vec<Value>,
    b: &Vec<Value>,
    code: &Opcode,
    depth: u128,
    max_depth: usize,
) -> (result: Result<Report, Error>)
    requires
        code.a1 <= code.a2 <= a.len(),
        code.b1 <= code.b2 <= b.len(),
        depth < u128::MAX,
    ensures
        outcome(result) == code_outcome(
            report@,
            segs(path@),
            views(a@),
            views(b@),
            code@,
            depth as int,
            max_depth as int,
        ),
{
    let mut report: Report = report;
    match code.tag {
        Tag::Equal => Ok(report),
        Tag::Delete => {
            insert_removed_run(&mut report, path, a, code.a1, code.a2);
            Ok(report)
        },
        Tag::Insert => {
            insert_added_run(&mut report, path, b, code.b1, code.b2);
            Ok(report)
        },
        Tag::Replace => {
            let count: usize = if code.a2 - code.a1 < code.b2 - code.b1 {
                code.a2 - code.a1
            } else {
                code.b2 - code.b1
            };
            let ghost goal: Outcome = pairs_outcome(
                report@,
                segs(path@),
                views(a@),
                views(b@),
                code.a1 as int,
                code.b1 as int,
                0,
                count as int,
                depth as int,
                max_depth as int,
            );
            let mut k: usize = 0;
            while k < count
                invariant
                    k <= count,
                    code.a1 + count <= a.len(),
                    code.b1 + count <= b.len(),
                    depth < u128::MAX,
                    goal == pairs_outcome(
                        report@,
                        segs(path@),
                        views(a@),
                        views(b@),
                        code.a1 as int,
                        code.b1 as int,
                        k as int,
                        count as int,
                        depth as int,
                        max_depth as int,
                    ),
                    code@.tag == Tag::Replace,
                    count == code_pairs(code@),
                decreases count - k,
            {
                match insert_lcs_pair_finding(
                    report,
                    path,
                    a,
                    b,
                    code.a1 + k,
                    code.b1 + k,
                    depth,
                    max_depth,
                ) {
                    Err(error) => {
                        return Err(error);
                    },
                    Ok(next) => {
                        report = next;
                    },
                }
                k = k + 1;
            }
            insert_removed_run(&mut report, path, a, code.a1 + count, code.a2);
            insert_added_run(&mut report, path, b, code.b1 + count, code.b2);
            Ok(report)
        },
    }
}

/// Compares two lists of scalars by their longest common parts.
#[verifier::loop_isolation(false)]
pub fn lcs_array_diff(
    path: &Vec<PathSegment>,
    a: &Vec<Value>,
    b: &Vec<Value>,
    depth: u128,
    max_depth: usize,
) -> (result: Result<Report, Error>)
    requires
        depth < u128::MAX,
        forall|i: int| 0 <= i < a@.len() ==> basic(#[trigger] views(a@)[i]),
        forall|i: int| 0 <= i < b@.len() ==> basic(#[trigger] views(b@)[i]),
    ensures
        outcome(result) == lcs_outcome(
            segs(path@),
            views(a@),
            views(b@),
            depth as int,
            max_depth as int,
        ),
{
    let codes: Vec<Opcode> = compute_opcodes(a.as_slice(), b.as_slice());
    let ghost all: Seq<Code> = codes_view(codes@);
    proof {
        lemma_opcodes_cover(views(a@), views(b@), false);
    }
    let ghost whole: Span = Span {
        alo: 0,
        ahi: a@.len() as int,
        blo: 0,
        bhi: b@.len() as int,
    };
    let ghost goal: Outcome = lcs_outcome(
        segs(path@),
        views(a@),
        views(b@),
        depth as int,
        max_depth as int,
    );
    let mut report: Report = Report::new();
    let mut k: usize = 0;
    while k < codes.len()
        invariant
            k <= codes.len(),
            all == codes_view(codes@),
            crate::lcs::tiles(all, whole),
            whole == (Span { alo: 0, ahi: a@.len() as int, blo: 0, bhi: b@.len() as int }),
            depth < u128::MAX,
            goal == codes_outcome(
                report@,
                segs(path@),
                views(a@),
                views(b@),
                all,
                k as int,
                depth as int,
                max_depth as int,
            ),
        decreases codes.len() - k,
    {
        proof {
            lemma_tiles_bounds(all, whole, k as int);
            assert(all[k as int] == codes@[k as int]@);
        }
        match insert_code(report, path, a, b, &codes[k], depth, max_depth) {
            Err(error) => {
                return Err(error);
            },
            Ok(next) => {
                report = next;
            },
        }
        k = k + 1;
    }
    Ok(report)
}

/// Records the items from `start` on as removed.
#[verifier::loop_isolation(false)]
pub fn insert_removed_tail(
    report: Report,
    path: &Vec<PathSegment>,
    a: &Vec<Value>,
    start: usize,
    depth: u128,
    max_depth: usize,
) -> (result: Result<Report, Error>)
    requires
        depth < u128::MAX,
    ensures
        outcome(result) == removed_tail(
            report@,
            segs(path@),
            views(a@),
            start as int,
            depth as int,
            max_depth as int,
        ),
{
    let mut report: Report = report;
    let ghost goal: Outcome = removed_tail(
        report@,
        segs(path@),
        views(a@),
        start as int,
        depth as int,
        max_depth as int,
    );
    let mut i: usize = start;
    while i < a.len()
        invariant
            depth < u128::MAX,
            goal == removed_tail(
                report@,
                segs(path@),
                views(a@),
                i as int,
                depth as int,
                max_depth as int,
            ),
        decreases a.len() - i,
    {
        let at: Vec<PathSegment> = child_path(path, PathSegment::Index(i));
        if let Err(error) = check_value_depth(&at, &a[i], depth + 1, max_depth) {
            return Err(error);
        }
        report.insert_iterable_item_removed(at, a[i].duplicate());
        i = i + 1;
    }
    Ok(report)
}

/// Records the items from `start` on as added.
#[verifier::loop_isolation(false)]
pub fn insert_added_tail(
    report: Report,
    path: &Vec<PathSegment>,
    b: &Vec<Value>,
    start: usize,
    depth: u128,
    max_depth: usize,
) -> (result: Result<Report, Error>)
    requires
        depth < u128::MAX,
    ensures
        outcome(result) == added_tail(
            report@,
            segs(path@),
            views(b@),
            start as int,
            depth as int,
            max_depth as int,
        ),
{
    let mut report: Report = report;
    let ghost goal: Outcome = added_tail(
        report@,
        segs(path@),
        views(b@),
        start as int,
        depth as int,
        max_depth as int,
    );
    let mut i: usize = start;
    while i < b.len()
        invariant
            depth < u128::MAX,
            goal == added_tail(
                report@,
                segs(path@),
                views(b@),
                i as int,
                depth as int,
                max_depth as int,
            ),
        decreases b.len() - i,
    {
        let at: Vec<PathSegment> = child_path(path, PathSegment::Index(i));
        if let Err(error) = check_value_depth(&at, &b[i], depth + 1, max_depth) {
            return Err(error);
        }
        report.insert_iterable_item_added(at, b[i].duplicate());
        i = i + 1;
    }
    Ok(report)
}

/// Fails where an item nests too deep.
#[verifier::loop_isolation(false)]
pub fn check_items_depth(path: &mut Vec<PathSegment>, items: &Vec<Value>, depth: u128, max_depth: usize) -> (result:
    Result<(), Error>)
    requires
        depth < u128::MAX,
    ensures
        final(path)@ == old(path)@,
        super::scalar::check_outcome(result) == items_failure(
            segs(old(path)@),
            views(items@),
            0,
            depth as int,
            max_depth as int,
        ),
{
    let ghost before: Seq<PathSegment> = path@;
    let ghost goal: Option<Failure> = items_failure(
        segs(before),
        views(items@),
        0,
        depth as int,
        max_depth as int,
    );
    let mut i: usize = 0;
    while i < items.len()
        invariant
            depth < u128::MAX,
            path@ == before,
            goal == items_failure(
                segs(before),
                views(items@),
                i as int,
                depth as int,
                max_depth as int,
            ),
        decreases items.len() - i,
    {
        proof {
            lemma_segs_push(before, PathSegment::Index(i));
        }
        path.push(PathSegment::Index(i));
        let result: Result<(), Error> = check_value_depth(path, &items[i], depth + 1, max_depth);
        let _ = path.pop();
        proof {
            assert(path@ =~= before);
        }
        if let Err(error) = result {
            return Err(error);
        }
        i = i + 1;
    }
    Ok(())
}

} // verus!
