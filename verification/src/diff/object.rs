//! Comparing two objects entry by entry.

use vstd::prelude::*;

use super::dispatch::diff_at;
use super::lists::child_path;
use super::options::DiffOptions;
use super::scalar::{check_map_depth, check_value_depth};
use crate::error::Error;
use crate::ignore_order::dict_keys::{
    find_partner, has_non_str_keys, is_below_threshold_to_diff_deeper,
};
use crate::ignore_order::memo::IgnoreOrderMemo;
use crate::path::{
    duplicate_segments, entry_path_segment, object_key_path_segment, PathSegment,
};
use crate::report::{Report, ValuesChangedEntry};
use crate::value::{Object, ObjectKey, ObjectKind, Value};

#[allow(unused_imports)]
use super::lists::lemma_segs_push;
#[allow(unused_imports)]
use super::model::{
    budget, collapsed, crest, entries_of, lemma_links, lone_entries, mixed_of, new_entries,
    object_of, with_added, with_removed,
};
#[allow(unused_imports)]
use super::options::rules;
#[allow(unused_imports)]
use super::scalar::{outcome, Outcome};
#[allow(unused_imports)]
use crate::ignore_order::memo::MemoVal;
#[allow(unused_imports)]
use crate::path::segs;
#[allow(unused_imports)]
use crate::report::{nothing, ValueChange};
#[allow(unused_imports)]
use crate::value::Val;
#[allow(unused_imports)]
use crate::walk::weight;

verus! {

/// Compares two objects at a path and a depth.
pub fn object_diff<'r>(
    path: &mut Vec<PathSegment>,
    a: &Object,
    b: &Object,
    depth: u128,
    opts: &DiffOptions,
    memo: &mut IgnoreOrderMemo<'r>,
) -> (result: Result<Report, Error>)
    requires
        old(memo).well_formed(),
        depth < u128::MAX,
    ensures
        final(memo).well_formed(),
        final(memo).table() == old(memo).table(),
        final(path)@ == old(path)@,
        (final(memo)@, outcome(result)) == object_of(
            old(memo)@,
            segs(old(path)@),
            a@,
            b@,
            depth as int,
            rules(*opts, old(memo).table()),
        ),
    decreases
            budget(depth + 1, opts.max_depth as int),
            crest(rules(*opts, old(memo).table())),
            weight(Val::Object(a@)),
            1int,
            0int,
            0int,
{
    if is_below_threshold_to_diff_deeper(a, b) {
        return collapsed_report(path, a, b, depth, opts.max_depth);
    }
    if has_non_str_keys(a) || has_non_str_keys(b) {
        return object_diff_mixed(path, a, b, depth, opts, memo);
    }
    object_diff_plain(path, a, b, depth, opts, memo)
}

/// Reports two objects as a whole.
fn collapsed_report(
    path: &Vec<PathSegment>,
    a: &Object,
    b: &Object,
    depth: u128,
    max_depth: usize,
) -> (result: Result<Report, Error>)
    ensures
        outcome(result) == collapsed(segs(path@), a@, b@, depth as int, max_depth as int),
{
    if let Err(error) = check_map_depth(path, a, depth, max_depth) {
        return Err(error);
    }
    if let Err(error) = check_map_depth(path, b, depth, max_depth) {
        return Err(error);
    }
    let mut report: Report = Report::new();
    let entry: ValuesChangedEntry = ValuesChangedEntry {
        old_value: Value::Object(a.duplicate()),
        new_value: Value::Object(b.duplicate()),
        new_path: None,
        diff: None,
    };
    proof {
        assert(entry@ == (ValueChange {
            old_value: Val::Object(a@),
            new_value: Val::Object(b@),
            new_path: None,
            diff: None,
        }));
    }
    report.insert_values_changed(duplicate_segments(path), entry);
    Ok(report)
}

/// Compares two objects whose keys are texts.
#[verifier::loop_isolation(false)]
fn object_diff_plain<'r>(
    path: &mut Vec<PathSegment>,
    a: &Object,
    b: &Object,
    depth: u128,
    opts: &DiffOptions,
    memo: &mut IgnoreOrderMemo<'r>,
) -> (result: Result<Report, Error>)
    requires
        old(memo).well_formed(),
        depth < u128::MAX,
    ensures
        final(memo).well_formed(),
        final(memo).table() == old(memo).table(),
        final(path)@ == old(path)@,
        (final(memo)@, outcome(result)) == entries_of(
            old(memo)@,
            segs(old(path)@),
            a@,
            b@,
            depth as int,
            rules(*opts, old(memo).table()),
            0,
            nothing(),
        ),
    decreases
            budget(depth + 1, opts.max_depth as int),
            crest(rules(*opts, old(memo).table())),
            weight(Val::Object(a@)),
            0int,
            0int,
            0int,
{
    let ghost before: Seq<PathSegment> = path@;
    let ghost goal: (MemoVal, Outcome) = entries_of(
        memo@,
        segs(before),
        a@,
        b@,
        depth as int,
        rules(*opts, old(memo).table()),
        0,
        nothing(),
    );
    let kind: ObjectKind = a.kind();
    let mut report: Report = Report::new();
    let mut i: usize = 0;
    while i < a.len()
        invariant
            i <= a@.entries.len(),
            memo.well_formed(),
            memo.table() == old(memo).table(),
            path@ == before,
            goal == entries_of(
                memo@,
                segs(before),
                a@,
                b@,
                depth as int,
                rules(*opts, old(memo).table()),
                i as int,
                report@,
            ),
        decreases a@.entries.len() - i,
    {
        let key: &ObjectKey = a.key_at(i);
        let value: &Value = a.value_at(i);
        let segment: PathSegment = entry_path_segment(kind, key);
        proof {
            lemma_segs_push(before, segment);
            assert(a@.entries[i as int] == (key@, value@));
        }
        path.push(segment);
        match b.position(key) {
            None => {
                let checked: Result<(), Error> = check_value_depth(
                    path,
                    value,
                    depth + 1,
                    opts.max_depth,
                );
                let at: Vec<PathSegment> = duplicate_segments(path);
                let _ = path.pop();
                proof {
                    assert(path@ =~= before);
                }
                if let Err(error) = checked {
                    return Err(error);
                }
                insert_removed(&mut report, kind, at, value.duplicate());
            },
            Some(j) => {
                proof {
                    lemma_links(rules(*opts, memo.table()), value@, b@.entries[j as int].1);
                }
                let found: Result<Report, Error> = diff_at(
                    path,
                    value,
                    b.value_at(j),
                    depth + 1,
                    opts,
                    memo,
                );
                let _ = path.pop();
                proof {
                    assert(path@ =~= before);
                }
                match found {
                    Err(error) => {
                        return Err(error);
                    },
                    Ok(more) => {
                        report.merge(more);
                    },
                }
            },
        }
        i = i + 1;
    }
    insert_new_entries(report, path, a, b, depth, opts.max_depth)
}

/// Records that an entry is gone.
fn insert_removed(report: &mut Report, kind: ObjectKind, path: Vec<PathSegment>, value: Value)
    ensures
        final(report)@ == with_removed(old(report)@, kind, segs(path@), value@),
{
    match kind {
        ObjectKind::Dict => report.insert_dictionary_item_removed(path, value),
        _ => report.insert_attribute_removed(path, value),
    }
}

/// Records that an entry is new.
fn insert_added(report: &mut Report, kind: ObjectKind, path: Vec<PathSegment>, value: Value)
    ensures
        final(report)@ == with_added(old(report)@, kind, segs(path@), value@),
{
    match kind {
        ObjectKind::Dict => report.insert_dictionary_item_added(path, value),
        _ => report.insert_attribute_added(path, value),
    }
}

/// Records the entries that only the second object has.
#[verifier::loop_isolation(false)]
fn insert_new_entries(
    report: Report,
    path: &Vec<PathSegment>,
    a: &Object,
    b: &Object,
    depth: u128,
    max_depth: usize,
) -> (result: Result<Report, Error>)
    requires
        depth < u128::MAX,
    ensures
        outcome(result) == new_entries(
            report@,
            segs(path@),
            a@,
            b@,
            0,
            depth as int,
            max_depth as int,
        ),
{
    let mut report: Report = report;
    let ghost goal: Outcome = new_entries(
        report@,
        segs(path@),
        a@,
        b@,
        0,
        depth as int,
        max_depth as int,
    );
    let kind: ObjectKind = a.kind();
    let mut i: usize = 0;
    while i < b.len()
        invariant
            i <= b@.entries.len(),
            goal == new_entries(
                report@,
                segs(path@),
                a@,
                b@,
                i as int,
                depth as int,
                max_depth as int,
            ),
        decreases b@.entries.len() - i,
    {
        let key: &ObjectKey = b.key_at(i);
        let value: &Value = b.value_at(i);
        proof {
            assert(b@.entries[i as int] == (key@, value@));
        }
        if !a.contains_key(key) {
            let at: Vec<PathSegment> = child_path(path, entry_path_segment(kind, key));
            if let Err(error) = check_value_depth(&at, value, depth + 1, max_depth) {
                return Err(error);
            }
            insert_added(&mut report, kind, at, value.duplicate());
        }
        i = i + 1;
    }
    Ok(report)
}

/// Compares two dicts of which one has a key that is no text.
#[verifier::loop_isolation(false)]
fn object_diff_mixed<'r>(
    path: &mut Vec<PathSegment>,
    a: &Object,
    b: &Object,
    depth: u128,
    opts: &DiffOptions,
    memo: &mut IgnoreOrderMemo<'r>,
) -> (result: Result<Report, Error>)
    requires
        old(memo).well_formed(),
        depth < u128::MAX,
    ensures
        final(memo).well_formed(),
        final(memo).table() == old(memo).table(),
        final(path)@ == old(path)@,
        (final(memo)@, outcome(result)) == mixed_of(
            old(memo)@,
            segs(old(path)@),
            a@,
            b@,
            depth as int,
            rules(*opts, old(memo).table()),
            0,
            nothing(),
        ),
    decreases
            budget(depth + 1, opts.max_depth as int),
            crest(rules(*opts, old(memo).table())),
            weight(Val::Object(a@)),
            0int,
            0int,
            0int,
{
    let ghost before: Seq<PathSegment> = path@;
    let ghost goal: (MemoVal, Outcome) = mixed_of(
        memo@,
        segs(before),
        a@,
        b@,
        depth as int,
        rules(*opts, old(memo).table()),
        0,
        nothing(),
    );
    let plain: bool = !has_non_str_keys(b);
    let mut report: Report = Report::new();
    let mut i: usize = 0;
    while i < a.len()
        invariant
            i <= a@.entries.len(),
            memo.well_formed(),
            memo.table() == old(memo).table(),
            path@ == before,
            goal == mixed_of(
                memo@,
                segs(before),
                a@,
                b@,
                depth as int,
                rules(*opts, old(memo).table()),
                i as int,
                report@,
            ),
        decreases a@.entries.len() - i,
    {
        match find_partner(b, a.key_at(i), plain) {
            None => {},
            Some(j) => {
                let segment: PathSegment = object_key_path_segment(b.key_at(j));
                proof {
                    lemma_segs_push(before, segment);
                    lemma_links(
                        rules(*opts, memo.table()),
                        a@.entries[i as int].1,
                        b@.entries[j as int].1,
                    );
                }
                path.push(segment);
                let found: Result<Report, Error> = diff_at(
                    path,
                    a.value_at(i),
                    b.value_at(j),
                    depth + 1,
                    opts,
                    memo,
                );
                let _ = path.pop();
                proof {
                    assert(path@ =~= before);
                }
                match found {
                    Err(error) => {
                        return Err(error);
                    },
                    Ok(more) => {
                        report.merge(more);
                    },
                }
            },
        }
        i = i + 1;
    }
    match insert_lone_entries(report, path, a, b, false, depth, opts.max_depth) {
        Err(error) => Err(error),
        Ok(report) => insert_lone_entries(report, path, b, a, true, depth, opts.max_depth),
    }
}

/// Records the entries whose key has no partner.
#[verifier::loop_isolation(false)]
fn insert_lone_entries(
    report: Report,
    path: &Vec<PathSegment>,
    object: &Object,
    other: &Object,
    added: bool,
    depth: u128,
    max_depth: usize,
) -> (result: Result<Report, Error>)
    requires
        depth < u128::MAX,
    ensures
        outcome(result) == lone_entries(
            report@,
            segs(path@),
            object@.entries,
            other@.entries,
            0,
            added,
            depth as int,
            max_depth as int,
        ),
{
    let mut report: Report = report;
    let ghost goal: Outcome = lone_entries(
        report@,
        segs(path@),
        object@.entries,
        other@.entries,
        0,
        added,
        depth as int,
        max_depth as int,
    );
    let plain: bool = !has_non_str_keys(other);
    let mut i: usize = 0;
    while i < object.len()
        invariant
            i <= object@.entries.len(),
            goal == lone_entries(
                report@,
                segs(path@),
                object@.entries,
                other@.entries,
                i as int,
                added,
                depth as int,
                max_depth as int,
            ),
        decreases object@.entries.len() - i,
    {
        let key: &ObjectKey = object.key_at(i);
        let value: &Value = object.value_at(i);
        proof {
            assert(object@.entries[i as int] == (key@, value@));
        }
        if find_partner(other, key, plain).is_none() {
            let at: Vec<PathSegment> = child_path(path, object_key_path_segment(key));
            if let Err(error) = check_value_depth(&at, value, depth + 1, max_depth) {
                return Err(error);
            }
            if added {
                report.insert_dictionary_item_added(at, value.duplicate());
            } else {
                report.insert_dictionary_item_removed(at, value.duplicate());
            }
        }
        i = i + 1;
    }
    Ok(report)
}

} // verus!
