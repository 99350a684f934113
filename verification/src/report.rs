//! What a comparison found, and the layout in which it is given out.

use vstd::prelude::*;

use crate::count::capped_sum;
use crate::ignore_order::coerce::type_change_leaf_length;
use crate::ignore_order::length::item_length;
use crate::order::{find_pair, put_pair, put_pairs, reversed, take_pair};
use crate::path::{duplicate_segments, render_path, Path, PathSegment};
use crate::value::{Builder, Value};

#[allow(unused_imports)]
use crate::count::capped;
#[allow(unused_imports)]
use crate::ignore_order::coerce::type_change_leaves;
#[allow(unused_imports)]
use crate::ignore_order::length::leaves;
#[allow(unused_imports)]
use crate::order::{
    ascending, lemma_lookup, lemma_put_all, lookup, pair_views, put, put_all, without, Ordered,
};
#[allow(unused_imports)]
use crate::path::{path_text, segs, Seg};
#[allow(unused_imports)]
use crate::unified_diff::text_of;
#[allow(unused_imports)]
use crate::value::{dict_of, named, views, KeyVal, ObjectKey, Val};

verus! {

// ---------------------------------------------------------------------
// Models
// ---------------------------------------------------------------------

/// The model of a [`ValuesChangedEntry`].
pub struct ValueChange {
    pub old_value: Val,
    pub new_value: Val,
    pub new_path: Option<Seq<Seg>>,
    pub diff: Option<Seq<char>>,
}

/// The model of a [`TypeChangeEntry`].
pub struct TypeChange {
    pub old_type: Seq<char>,
    pub new_type: Seq<char>,
    pub old_value: Val,
    pub new_value: Val,
    pub new_path: Option<Seq<Seg>>,
}

/// Values by the paths at which they stand, in the order of the paths.
pub type Found = Seq<(Seq<Seg>, Val)>;

/// The model of a [`Report`].
pub struct Findings {
    pub type_changes: Seq<(Seq<Seg>, TypeChange)>,
    pub values_changed: Seq<(Seq<Seg>, ValueChange)>,
    pub dictionary_item_added: Found,
    pub dictionary_item_removed: Found,
    pub iterable_item_added: Found,
    pub iterable_item_removed: Found,
    pub attribute_added: Found,
    pub attribute_removed: Found,
    pub set_item_added: Found,
    pub set_item_removed: Found,
}

/// Nothing found.
pub open spec fn nothing() -> Findings {
    Findings {
        type_changes: seq![],
        values_changed: seq![],
        dictionary_item_added: seq![],
        dictionary_item_removed: seq![],
        iterable_item_added: seq![],
        iterable_item_removed: seq![],
        attribute_added: seq![],
        attribute_removed: seq![],
        set_item_added: seq![],
        set_item_removed: seq![],
    }
}

/// The model of an optional path.
pub open spec fn path_of(path: Option<Vec<PathSegment>>) -> Option<Seq<Seg>> {
    match path {
        None => None,
        Some(segments) => Some(segs(segments@)),
    }
}

// ---------------------------------------------------------------------
// Entries
// ---------------------------------------------------------------------

/// A value that became another one of its type.
#[derive(Debug, Clone, PartialEq)]
pub struct ValuesChangedEntry {
    pub old_value: Value,
    pub new_value: Value,
    /// Where the new value stands, if elsewhere than the old one.
    pub new_path: Option<Vec<PathSegment>>,
    /// The unified diff of two texts of several lines.
    pub diff: Option<String>,
}

/// A value that became one of another type.
#[derive(Debug, Clone, PartialEq)]
pub struct TypeChangeEntry {
    pub old_type: String,
    pub new_type: String,
    pub old_value: Value,
    pub new_value: Value,
    /// Where the new value stands, if elsewhere than the old one.
    pub new_path: Option<Vec<PathSegment>>,
}

impl View for ValuesChangedEntry {
    type V = ValueChange;

    open spec fn view(&self) -> ValueChange {
        ValueChange {
            old_value: self.old_value@,
            new_value: self.new_value@,
            new_path: path_of(self.new_path),
            diff: text_of(self.diff),
        }
    }
}

impl View for TypeChangeEntry {
    type V = TypeChange;

    open spec fn view(&self) -> TypeChange {
        TypeChange {
            old_type: self.old_type@,
            new_type: self.new_type@,
            old_value: self.old_value@,
            new_value: self.new_value@,
            new_path: path_of(self.new_path),
        }
    }
}

/// A text under a name.
pub open spec fn text_entry(name: Seq<char>, text: Seq<char>) -> (KeyVal, Val) {
    (KeyVal::Str(name), Val::Str(text))
}

/// The path of the new value under its name, where there is one.
pub open spec fn new_path_entry(path: Option<Seq<Seg>>) -> Seq<(KeyVal, Val)> {
    match path {
        None => seq![],
        Some(p) => seq![text_entry("new_path"@, path_text(p))],
    }
}

/// The entry of a changed value as it is given out.
pub open spec fn value_change_value(entry: ValueChange) -> Val {
    Val::Object(
        dict_of(
            seq![
                (KeyVal::Str("new_value"@), entry.new_value),
                (KeyVal::Str("old_value"@), entry.old_value),
            ] + new_path_entry(entry.new_path) + (match entry.diff {
                None => seq![],
                Some(text) => seq![text_entry("diff"@, text)],
            }),
        ),
    )
}

/// The entry of a changed type as it is given out.
pub open spec fn type_change_value(entry: TypeChange) -> Val {
    Val::Object(
        dict_of(
            seq![
                text_entry("old_type"@, entry.old_type),
                text_entry("new_type"@, entry.new_type),
                (KeyVal::Str("old_value"@), entry.old_value),
                (KeyVal::Str("new_value"@), entry.new_value),
            ] + new_path_entry(entry.new_path),
        ),
    )
}

/// Adds a value under a name.
fn push_named(entries: &mut Vec<(String, Value)>, name: &str, value: Value)
    ensures
        named(final(entries)@) == named(old(entries)@).push((KeyVal::Str(name@), value@)),
{
    let mut key: String = String::new();
    key.append(name);
    let ghost before: Seq<(String, Value)> = entries@;
    proof {
        assert(key@ =~= name@);
    }
    entries.push((key, value));
    proof {
        assert(named(entries@) =~= named(before).push((KeyVal::Str(name@), value@)));
    }
}

/// A path, rendered, as a value.
fn rendered(path: &Vec<PathSegment>) -> (value: Value)
    ensures
        value@ == Val::Str(path_text(segs(path@))),
{
    Value::Str(render_path(path.as_slice()))
}

impl ValuesChangedEntry {
    /// The entry as it is given out.
    pub fn to_value(&self, builder: &mut Builder) -> (value: Value)
        ensures
            value@ == value_change_value(self@),
    {
        let mut entries: Vec<(String, Value)> = Vec::new();
        push_named(&mut entries, "new_value", self.new_value.duplicate());
        push_named(&mut entries, "old_value", self.old_value.duplicate());
        if let Some(new_path) = &self.new_path {
            push_named(&mut entries, "new_path", rendered(new_path));
        }
        if let Some(diff) = &self.diff {
            push_named(&mut entries, "diff", Value::Str(diff.clone()));
        }
        proof {
            let entry: ValueChange = self@;
            assert(named(entries@) =~= seq![
                (KeyVal::Str("new_value"@), entry.new_value),
                (KeyVal::Str("old_value"@), entry.old_value),
            ] + new_path_entry(entry.new_path) + (match entry.diff {
                None => seq![],
                Some(text) => seq![text_entry("diff"@, text)],
            }));
        }
        builder.object(entries)
    }
}

impl TypeChangeEntry {
    /// The entry as it is given out.
    pub fn to_value(&self, builder: &mut Builder) -> (value: Value)
        ensures
            value@ == type_change_value(self@),
    {
        let mut entries: Vec<(String, Value)> = Vec::new();
        push_named(&mut entries, "old_type", Value::Str(self.old_type.clone()));
        push_named(&mut entries, "new_type", Value::Str(self.new_type.clone()));
        push_named(&mut entries, "old_value", self.old_value.duplicate());
        push_named(&mut entries, "new_value", self.new_value.duplicate());
        if let Some(new_path) = &self.new_path {
            push_named(&mut entries, "new_path", rendered(new_path));
        }
        proof {
            let entry: TypeChange = self@;
            assert(named(entries@) =~= seq![
                text_entry("old_type"@, entry.old_type),
                text_entry("new_type"@, entry.new_type),
                (KeyVal::Str("old_value"@), entry.old_value),
                (KeyVal::Str("new_value"@), entry.new_value),
            ] + new_path_entry(entry.new_path));
        }
        builder.object(entries)
    }
}

// ---------------------------------------------------------------------
// Reports
// ---------------------------------------------------------------------

/// What a comparison found: each finding under the path at which it stands, by
/// category.
#[derive(Debug, PartialEq)]
pub struct Report {
    type_changes: Vec<(Path, TypeChangeEntry)>,
    values_changed: Vec<(Path, ValuesChangedEntry)>,
    dictionary_item_added: Vec<(Path, Value)>,
    dictionary_item_removed: Vec<(Path, Value)>,
    iterable_item_added: Vec<(Path, Value)>,
    iterable_item_removed: Vec<(Path, Value)>,
    attribute_added: Vec<(Path, Value)>,
    attribute_removed: Vec<(Path, Value)>,
    set_item_added: Vec<(Path, Value)>,
    set_item_removed: Vec<(Path, Value)>,
}

impl View for Report {
    type V = Findings;

    closed spec fn view(&self) -> Findings {
        Findings {
            type_changes: pair_views(self.type_changes@),
            values_changed: pair_views(self.values_changed@),
            dictionary_item_added: pair_views(self.dictionary_item_added@),
            dictionary_item_removed: pair_views(self.dictionary_item_removed@),
            iterable_item_added: pair_views(self.iterable_item_added@),
            iterable_item_removed: pair_views(self.iterable_item_removed@),
            attribute_added: pair_views(self.attribute_added@),
            attribute_removed: pair_views(self.attribute_removed@),
            set_item_added: pair_views(self.set_item_added@),
            set_item_removed: pair_views(self.set_item_removed@),
        }
    }
}

/// A finding put in.
pub open spec fn with_type_change(f: Findings, path: Seq<Seg>, entry: TypeChange) -> Findings {
    Findings { type_changes: put::<Path, TypeChange>(f.type_changes, path, entry), ..f }
}

/// A finding put in.
pub open spec fn with_value_change(f: Findings, path: Seq<Seg>, entry: ValueChange) -> Findings {
    Findings { values_changed: put::<Path, ValueChange>(f.values_changed, path, entry), ..f }
}

/// A finding put in.
pub open spec fn with_dict_added(f: Findings, path: Seq<Seg>, value: Val) -> Findings {
    Findings { dictionary_item_added: put::<Path, Val>(f.dictionary_item_added, path, value), ..f }
}

/// A finding put in.
pub open spec fn with_dict_removed(f: Findings, path: Seq<Seg>, value: Val) -> Findings {
    Findings {
        dictionary_item_removed: put::<Path, Val>(f.dictionary_item_removed, path, value),
        ..f
    }
}

/// A finding put in.
pub open spec fn with_item_added(f: Findings, path: Seq<Seg>, value: Val) -> Findings {
    Findings { iterable_item_added: put::<Path, Val>(f.iterable_item_added, path, value), ..f }
}

/// A finding put in.
pub open spec fn with_item_removed(f: Findings, path: Seq<Seg>, value: Val) -> Findings {
    Findings { iterable_item_removed: put::<Path, Val>(f.iterable_item_removed, path, value), ..f }
}

/// A finding put in.
pub open spec fn with_attribute_added(f: Findings, path: Seq<Seg>, value: Val) -> Findings {
    Findings { attribute_added: put::<Path, Val>(f.attribute_added, path, value), ..f }
}

/// A finding put in.
pub open spec fn with_attribute_removed(f: Findings, path: Seq<Seg>, value: Val) -> Findings {
    Findings { attribute_removed: put::<Path, Val>(f.attribute_removed, path, value), ..f }
}

/// A finding put in.
pub open spec fn with_set_added(f: Findings, path: Seq<Seg>, value: Val) -> Findings {
    Findings { set_item_added: put::<Path, Val>(f.set_item_added, path, value), ..f }
}

/// A finding put in.
pub open spec fn with_set_removed(f: Findings, path: Seq<Seg>, value: Val) -> Findings {
    Findings { set_item_removed: put::<Path, Val>(f.set_item_removed, path, value), ..f }
}

/// The findings of two reports, the second's put into the first.
pub open spec fn merged(f: Findings, g: Findings) -> Findings {
    Findings {
        type_changes: put_all::<Path, TypeChange>(f.type_changes, g.type_changes),
        values_changed: put_all::<Path, ValueChange>(f.values_changed, g.values_changed),
        dictionary_item_added: put_all::<Path, Val>(
            f.dictionary_item_added,
            g.dictionary_item_added,
        ),
        dictionary_item_removed: put_all::<Path, Val>(
            f.dictionary_item_removed,
            g.dictionary_item_removed,
        ),
        iterable_item_added: put_all::<Path, Val>(f.iterable_item_added, g.iterable_item_added),
        iterable_item_removed: put_all::<Path, Val>(
            f.iterable_item_removed,
            g.iterable_item_removed,
        ),
        attribute_added: put_all::<Path, Val>(f.attribute_added, g.attribute_added),
        attribute_removed: put_all::<Path, Val>(f.attribute_removed, g.attribute_removed),
        set_item_added: put_all::<Path, Val>(f.set_item_added, g.set_item_added),
        set_item_removed: put_all::<Path, Val>(f.set_item_removed, g.set_item_removed),
    }
}

/// Whether each category is in the order of its paths, no path twice.
pub open spec fn orderly(f: Findings) -> bool {
    &&& ascending::<Path, TypeChange>(f.type_changes)
    &&& ascending::<Path, ValueChange>(f.values_changed)
    &&& ascending::<Path, Val>(f.dictionary_item_added)
    &&& ascending::<Path, Val>(f.dictionary_item_removed)
    &&& ascending::<Path, Val>(f.iterable_item_added)
    &&& ascending::<Path, Val>(f.iterable_item_removed)
    &&& ascending::<Path, Val>(f.attribute_added)
    &&& ascending::<Path, Val>(f.attribute_removed)
    &&& ascending::<Path, Val>(f.set_item_added)
    &&& ascending::<Path, Val>(f.set_item_removed)
}

/// The removed items by their rendered paths, of several that render alike the
/// last.
pub open spec fn rendered_index(removed: Found) -> Seq<(Seq<char>, Seq<Seg>)> {
    put_all::<String, Seq<Seg>>(
        seq![],
        Seq::new(removed.len(), |i: int| (path_text(removed[i].0), removed[i].0)),
    )
}

/// Added and removed items, and the changes that pairs of them became.
pub struct Paired {
    pub added: Found,
    pub removed: Found,
    pub changed: Seq<(Seq<Seg>, ValueChange)>,
}

/// Pairs the added items one after another with the removed items that render
/// to the same path, and makes each pair a changed value.
pub open spec fn paired_from(
    index: Seq<(Seq<char>, Seq<Seg>)>,
    rest: Found,
    kept: Found,
    removed: Found,
    changed: Seq<(Seq<Seg>, ValueChange)>,
) -> Paired
    decreases rest.len(),
{
    if rest.len() == 0 {
        Paired { added: kept, removed, changed }
    } else {
        let (path, value) = rest[0];
        match lookup(index, path_text(path)) {
            Some(old_path) if lookup(removed, old_path) is Some => paired_from(
                index,
                rest.drop_first(),
                kept,
                without(removed, old_path),
                put::<Path, ValueChange>(
                    changed,
                    old_path,
                    ValueChange {
                        old_value: lookup(removed, old_path)->Some_0,
                        new_value: value,
                        new_path: None,
                        diff: None,
                    },
                ),
            ),
            _ => paired_from(index, rest.drop_first(), kept.push(rest[0]), removed, changed),
        }
    }
}

/// The findings with each added and removed item of one rendered path made a
/// changed value.
pub open spec fn mutual_merged(f: Findings) -> Findings {
    let paired: Paired = paired_from(
        rendered_index(f.iterable_item_removed),
        f.iterable_item_added,
        seq![],
        f.iterable_item_removed,
        f.values_changed,
    );
    Findings {
        iterable_item_added: paired.added,
        iterable_item_removed: paired.removed,
        values_changed: paired.changed,
        ..f
    }
}

/// Where a new value stands: on its own path, or the finding's, with one step
/// replaced by a position.
pub open spec fn retagged_path(
    path: Seq<Seg>,
    new_path: Option<Seq<Seg>>,
    depth: int,
    index: int,
) -> Option<Seq<Seg>> {
    let base: Seq<Seg> = match new_path {
        Some(p) => p,
        None => path,
    };
    if depth < base.len() {
        Some(base.update(depth, Seg::Index(index)))
    } else {
        Some(base)
    }
}

/// The findings with the paths of the new values retagged.
pub open spec fn retagged(f: Findings, depth: int, index: int) -> Findings {
    Findings {
        values_changed: Seq::new(
            f.values_changed.len(),
            |i: int|
                (
                    f.values_changed[i].0,
                    ValueChange {
                        new_path: retagged_path(
                            f.values_changed[i].0,
                            f.values_changed[i].1.new_path,
                            depth,
                            index,
                        ),
                        ..f.values_changed[i].1
                    },
                ),
        ),
        type_changes: Seq::new(
            f.type_changes.len(),
            |i: int|
                (
                    f.type_changes[i].0,
                    TypeChange {
                        new_path: retagged_path(
                            f.type_changes[i].0,
                            f.type_changes[i].1.new_path,
                            depth,
                            index,
                        ),
                        ..f.type_changes[i].1
                    },
                ),
        ),
        ..f
    }
}

/// The value of a category under its name; nothing for an empty category.
pub open spec fn category_entry(name: Seq<char>, size: nat, value: Val) -> Seq<(KeyVal, Val)> {
    if size == 0 {
        seq![]
    } else {
        seq![(KeyVal::Str(name), value)]
    }
}

/// A category of plain values as it is given out: by rendered path, of several
/// that render alike the last.
pub open spec fn raw_category(found: Found) -> Val {
    Val::Object(
        dict_of(
            Seq::new(found.len(), |i: int| (KeyVal::Str(path_text(found[i].0)), found[i].1)),
        ),
    )
}

/// The rendered paths of a category in their order, each once.
pub open spec fn set_texts(found: Found) -> Seq<(Seq<char>, ())> {
    put_all::<String, ()>(seq![], Seq::new(found.len(), |i: int| (path_text(found[i].0), ())))
}

/// A category of set members as it is given out: the rendered paths alone.
pub open spec fn set_category(found: Found) -> Val {
    Val::Array(Seq::new(set_texts(found).len(), |i: int| Val::Str(set_texts(found)[i].0)))
}

/// The changed types as they are given out.
pub open spec fn type_category(found: Seq<(Seq<Seg>, TypeChange)>) -> Val {
    Val::Object(
        dict_of(
            Seq::new(
                found.len(),
                |i: int| (KeyVal::Str(path_text(found[i].0)), type_change_value(found[i].1)),
            ),
        ),
    )
}

/// The changed values as they are given out.
pub open spec fn value_category(found: Seq<(Seq<Seg>, ValueChange)>) -> Val {
    Val::Object(
        dict_of(
            Seq::new(
                found.len(),
                |i: int| (KeyVal::Str(path_text(found[i].0)), value_change_value(found[i].1)),
            ),
        ),
    )
}

/// The categories that hold anything, under their names.
pub open spec fn categories(f: Findings) -> Seq<(KeyVal, Val)> {
    category_entry(
        "type_changes"@,
        f.type_changes.len(),
        type_category(f.type_changes),
    ) + category_entry(
        "values_changed"@,
        f.values_changed.len(),
        value_category(f.values_changed),
    ) + category_entry(
        "dictionary_item_added"@,
        f.dictionary_item_added.len(),
        raw_category(f.dictionary_item_added),
    ) + category_entry(
        "dictionary_item_removed"@,
        f.dictionary_item_removed.len(),
        raw_category(f.dictionary_item_removed),
    ) + category_entry(
        "iterable_item_added"@,
        f.iterable_item_added.len(),
        raw_category(f.iterable_item_added),
    ) + category_entry(
        "iterable_item_removed"@,
        f.iterable_item_removed.len(),
        raw_category(f.iterable_item_removed),
    ) + category_entry(
        "attribute_added"@,
        f.attribute_added.len(),
        raw_category(f.attribute_added),
    ) + category_entry(
        "attribute_removed"@,
        f.attribute_removed.len(),
        raw_category(f.attribute_removed),
    ) + category_entry(
        "set_item_added"@,
        f.set_item_added.len(),
        set_category(f.set_item_added),
    ) + category_entry(
        "set_item_removed"@,
        f.set_item_removed.len(),
        set_category(f.set_item_removed),
    )
}

/// The report as it is given out.
pub open spec fn report_value(f: Findings) -> Val {
    Val::Object(dict_of(categories(f)))
}

/// How many findings there are.
pub open spec fn findings_count(f: Findings) -> nat {
    f.type_changes.len() + f.values_changed.len() + f.dictionary_item_added.len()
        + f.dictionary_item_removed.len() + f.iterable_item_added.len()
        + f.iterable_item_removed.len() + f.attribute_added.len() + f.attribute_removed.len()
        + f.set_item_added.len() + f.set_item_removed.len()
}

/// A list without its middle element stays in order.
pub proof fn lemma_drop_middle<K: Ordered, W>(front: Seq<(K::V, W)>, back: Seq<(K::V, W)>)
    requires
        ascending::<K, W>(front + back),
        back.len() > 0,
    ensures
        ascending::<K, W>(front + back.drop_first()),
{
    let all: Seq<(K::V, W)> = front + back;
    let rest: Seq<(K::V, W)> = front + back.drop_first();
    assert forall|x: int, y: int| 0 <= x < y < rest.len() implies #[trigger] K::place(
        rest[x].0,
        rest[y].0,
    ) == crate::order::Place::Before by {
        let i: int = if x < front.len() {
            x
        } else {
            x + 1
        };
        let j: int = if y < front.len() {
            y
        } else {
            y + 1
        };
        assert(K::place(all[i].0, all[j].0) == crate::order::Place::Before);
    }
}

/// A list with the keys of one in order is in order.
pub proof fn lemma_same_keys<K: Ordered, W>(a: Seq<(K::V, W)>, b: Seq<(K::V, W)>)
    requires
        ascending::<K, W>(a),
        a.len() == b.len(),
        forall|i: int| 0 <= i < a.len() ==> (#[trigger] a[i]).0 == b[i].0,
    ensures
        ascending::<K, W>(b),
{
    assert forall|x: int, y: int| 0 <= x < y < b.len() implies #[trigger] K::place(
        b[x].0,
        b[y].0,
    ) == crate::order::Place::Before by {
        assert(a[x].0 == b[x].0);
        assert(a[y].0 == b[y].0);
        assert(K::place(a[x].0, a[y].0) == crate::order::Place::Before);
    }
}

/// The removed items by their rendered paths.
fn index_rendered(removed: &Vec<(Path, Value)>) -> (index: Vec<(String, Path)>)
    ensures
        pair_views(index@) == rendered_index(pair_views(removed@)),
        ascending::<String, Seq<Seg>>(pair_views(index@)),
{
    let ghost found: Found = pair_views(removed@);
    let ghost all: Seq<(Seq<char>, Seq<Seg>)> = Seq::new(
        found.len(),
        |i: int| (path_text(found[i].0), found[i].0),
    );
    let mut index: Vec<(String, Path)> = Vec::new();
    let mut i: usize = 0;
    proof {
        assert(pair_views(index@) =~= seq![]);
        assert(all.take(0) =~= seq![]);
    }
    while i < removed.len()
        invariant
            i <= removed.len(),
            found == pair_views(removed@),
            all == Seq::new(found.len(), |k: int| (path_text(found[k].0), found[k].0)),
            ascending::<String, Seq<Seg>>(pair_views(index@)),
            pair_views(index@) == put_all::<String, Seq<Seg>>(seq![], all.take(i as int)),
        decreases removed.len() - i,
    {
        let path: &Vec<PathSegment> = &removed[i].0.segments;
        let copy: Path = Path { segments: duplicate_segments(path) };
        let text: String = render_path(path.as_slice());
        proof {
            let now: Seq<(Seq<char>, Seq<Seg>)> = all.take(i as int + 1);
            assert(now.drop_last() =~= all.take(i as int));
            assert(now.last() == (text@, copy@));
        }
        put_pair(&mut index, text, copy);
        i = i + 1;
    }
    proof {
        assert(all.take(i as int) =~= all);
    }
    index
}

/// Where a new value stands, one step replaced by a position.
fn retag(
    path: &Vec<PathSegment>,
    new_path: Option<Vec<PathSegment>>,
    depth: usize,
    index: usize,
) -> (result: Option<Vec<PathSegment>>)
    ensures
        path_of(result) == retagged_path(
            segs(path@),
            path_of(new_path),
            depth as int,
            index as int,
        ),
{
    let mut base: Vec<PathSegment> = match new_path {
        Some(segments) => segments,
        None => duplicate_segments(path),
    };
    if depth < base.len() {
        let ghost before: Seq<PathSegment> = base@;
        base.set(depth, PathSegment::Index(index));
        proof {
            assert(segs(base@) =~= segs(before).update(depth as int, Seg::Index(index as int)));
        }
    }
    Some(base)
}

/// Adds the changed types, unless there are none.
fn push_type_category(
    root: &mut Vec<(String, Value)>,
    builder: &mut Builder,
    name: &str,
    found: &Vec<(Path, TypeChangeEntry)>,
)
    ensures
        named(final(root)@) == named(old(root)@) + category_entry(
            name@,
            found@.len(),
            type_category(pair_views(found@)),
        ),
{
    let ghost before: Seq<(KeyVal, Val)> = named(root@);
    if found.len() > 0 {
        let ghost all: Seq<(Seq<Seg>, TypeChange)> = pair_views(found@);
        let mut entries: Vec<(String, Value)> = Vec::new();
        let mut i: usize = 0;
        while i < found.len()
            invariant
                i <= found.len(),
                all == pair_views(found@),
                named(entries@) =~= Seq::new(
                    i as nat,
                    |k: int| (KeyVal::Str(path_text(all[k].0)), type_change_value(all[k].1)),
                ),
            decreases found.len() - i,
        {
            let text: String = render_path(found[i].0.segments.as_slice());
            let value: Value = found[i].1.to_value(builder);
            push_named(&mut entries, text.as_str(), value);
            i = i + 1;
        }
        push_named(root, name, builder.object(entries));
    }
    proof {
        assert(named(root@) =~= before + category_entry(
            name@,
            found@.len(),
            type_category(pair_views(found@)),
        ));
    }
}

/// Adds the changed values, unless there are none.
fn push_value_category(
    root: &mut Vec<(String, Value)>,
    builder: &mut Builder,
    name: &str,
    found: &Vec<(Path, ValuesChangedEntry)>,
)
    ensures
        named(final(root)@) == named(old(root)@) + category_entry(
            name@,
            found@.len(),
            value_category(pair_views(found@)),
        ),
{
    let ghost before: Seq<(KeyVal, Val)> = named(root@);
    if found.len() > 0 {
        let ghost all: Seq<(Seq<Seg>, ValueChange)> = pair_views(found@);
        let mut entries: Vec<(String, Value)> = Vec::new();
        let mut i: usize = 0;
        while i < found.len()
            invariant
                i <= found.len(),
                all == pair_views(found@),
                named(entries@) =~= Seq::new(
                    i as nat,
                    |k: int| (KeyVal::Str(path_text(all[k].0)), value_change_value(all[k].1)),
                ),
            decreases found.len() - i,
        {
            let text: String = render_path(found[i].0.segments.as_slice());
            let value: Value = found[i].1.to_value(builder);
            push_named(&mut entries, text.as_str(), value);
            i = i + 1;
        }
        push_named(root, name, builder.object(entries));
    }
    proof {
        assert(named(root@) =~= before + category_entry(
            name@,
            found@.len(),
            value_category(pair_views(found@)),
        ));
    }
}

/// Adds a category of plain values, unless it is empty.
fn push_raw_category(
    root: &mut Vec<(String, Value)>,
    builder: &mut Builder,
    name: &str,
    found: &Vec<(Path, Value)>,
)
    ensures
        named(final(root)@) == named(old(root)@) + category_entry(
            name@,
            found@.len(),
            raw_category(pair_views(found@)),
        ),
{
    let ghost before: Seq<(KeyVal, Val)> = named(root@);
    if found.len() > 0 {
        let ghost all: Found = pair_views(found@);
        let mut entries: Vec<(String, Value)> = Vec::new();
        let mut i: usize = 0;
        while i < found.len()
            invariant
                i <= found.len(),
                all == pair_views(found@),
                named(entries@) =~= Seq::new(
                    i as nat,
                    |k: int| (KeyVal::Str(path_text(all[k].0)), all[k].1),
                ),
            decreases found.len() - i,
        {
            let text: String = render_path(found[i].0.segments.as_slice());
            push_named(&mut entries, text.as_str(), found[i].1.duplicate());
            i = i + 1;
        }
        push_named(root, name, builder.object(entries));
    }
    proof {
        assert(named(root@) =~= before + category_entry(
            name@,
            found@.len(),
            raw_category(pair_views(found@)),
        ));
    }
}

/// The rendered paths of a category in their order, each once.
fn rendered_set_entries(found: &Vec<(Path, Value)>) -> (texts: Vec<(String, ())>)
    ensures
        pair_views(texts@) == set_texts(pair_views(found@)),
{
    let ghost all: Found = pair_views(found@);
    let ghost keys: Seq<(Seq<char>, ())> = Seq::new(
        all.len(),
        |i: int| (path_text(all[i].0), ()),
    );
    let mut texts: Vec<(String, ())> = Vec::new();
    let mut i: usize = 0;
    proof {
        assert(pair_views(texts@) =~= seq![]);
        assert(keys.take(0) =~= seq![]);
    }
    while i < found.len()
        invariant
            i <= found.len(),
            all == pair_views(found@),
            keys == Seq::new(all.len(), |k: int| (path_text(all[k].0), ())),
            ascending::<String, ()>(pair_views(texts@)),
            pair_views(texts@) == put_all::<String, ()>(seq![], keys.take(i as int)),
        decreases found.len() - i,
    {
        let text: String = render_path(found[i].0.segments.as_slice());
        proof {
            let now: Seq<(Seq<char>, ())> = keys.take(i as int + 1);
            assert(now.drop_last() =~= keys.take(i as int));
            assert(now.last() == (text@, ()));
        }
        put_pair(&mut texts, text, ());
        i = i + 1;
    }
    proof {
        assert(keys.take(i as int) =~= keys);
    }
    texts
}

/// Adds a category of set members, unless it is empty.
fn push_set_category(root: &mut Vec<(String, Value)>, name: &str, found: &Vec<(Path, Value)>)
    ensures
        named(final(root)@) == named(old(root)@) + category_entry(
            name@,
            found@.len(),
            set_category(pair_views(found@)),
        ),
{
    let ghost before: Seq<(KeyVal, Val)> = named(root@);
    if found.len() > 0 {
        let texts: Vec<(String, ())> = rendered_set_entries(found);
        let ghost all: Seq<(Seq<char>, ())> = pair_views(texts@);
        let mut entries: Vec<Value> = Vec::new();
        let mut i: usize = 0;
        while i < texts.len()
            invariant
                i <= texts.len(),
                all == pair_views(texts@),
                entries@.len() == i,
                forall|k: int|
                    0 <= k < i ==> (#[trigger] entries@[k])@ == Val::Str(all[k].0),
            decreases texts.len() - i,
        {
            entries.push(Value::Str(texts[i].0.clone()));
            i = i + 1;
        }
        proof {
            assert(views(entries@) =~= Seq::new(all.len(), |k: int| Val::Str(all[k].0)));
        }
        push_named(root, name, Value::Array(entries));
    }
    proof {
        assert(named(root@) =~= before + category_entry(
            name@,
            found@.len(),
            set_category(pair_views(found@)),
        ));
    }
}

impl Report {
    #[verifier::type_invariant]
    spec fn well_formed(self) -> bool {
        orderly(self@)
    }

    /// An empty report.
    pub fn new() -> (report: Self)
        ensures
            report@ == nothing(),
    {
        let report: Report = Report {
            type_changes: Vec::new(),
            values_changed: Vec::new(),
            dictionary_item_added: Vec::new(),
            dictionary_item_removed: Vec::new(),
            iterable_item_added: Vec::new(),
            iterable_item_removed: Vec::new(),
            attribute_added: Vec::new(),
            attribute_removed: Vec::new(),
            set_item_added: Vec::new(),
            set_item_removed: Vec::new(),
        };
        proof {
            assert(report@.type_changes =~= nothing().type_changes);
            assert(report@.values_changed =~= nothing().values_changed);
            assert(report@.dictionary_item_added =~= nothing().dictionary_item_added);
            assert(report@.dictionary_item_removed =~= nothing().dictionary_item_removed);
            assert(report@.iterable_item_added =~= nothing().iterable_item_added);
            assert(report@.iterable_item_removed =~= nothing().iterable_item_removed);
            assert(report@.attribute_added =~= nothing().attribute_added);
            assert(report@.attribute_removed =~= nothing().attribute_removed);
            assert(report@.set_item_added =~= nothing().set_item_added);
            assert(report@.set_item_removed =~= nothing().set_item_removed);
        }
        report
    }

    /// Puts a changed type in.
    pub fn insert_type_change(&mut self, path: Vec<PathSegment>, entry: TypeChangeEntry)
        ensures
            final(self)@ == with_type_change(old(self)@, segs(path@), entry@),
    {
        proof {
            use_type_invariant(&*self);
        }
        let mut list: Vec<(Path, TypeChangeEntry)> = Vec::new();
        std::mem::swap(&mut list, &mut self.type_changes);
        put_pair(&mut list, Path { segments: path }, entry);
        self.type_changes = list;
    }

    /// Puts a changed value in.
    pub fn insert_values_changed(&mut self, path: Vec<PathSegment>, entry: ValuesChangedEntry)
        ensures
            final(self)@ == with_value_change(old(self)@, segs(path@), entry@),
    {
        proof {
            use_type_invariant(&*self);
        }
        let mut list: Vec<(Path, ValuesChangedEntry)> = Vec::new();
        std::mem::swap(&mut list, &mut self.values_changed);
        put_pair(&mut list, Path { segments: path }, entry);
        self.values_changed = list;
    }

    /// Puts an added `dict` entry in.
    pub fn insert_dictionary_item_added(&mut self, path: Vec<PathSegment>, value: Value)
        ensures
            final(self)@ == with_dict_added(old(self)@, segs(path@), value@),
    {
        proof {
            use_type_invariant(&*self);
        }
        let mut list: Vec<(Path, Value)> = Vec::new();
        std::mem::swap(&mut list, &mut self.dictionary_item_added);
        put_pair(&mut list, Path { segments: path }, value);
        self.dictionary_item_added = list;
    }

    /// Puts a removed `dict` entry in.
    pub fn insert_dictionary_item_removed(&mut self, path: Vec<PathSegment>, value: Value)
        ensures
            final(self)@ == with_dict_removed(old(self)@, segs(path@), value@),
    {
        proof {
            use_type_invariant(&*self);
        }
        let mut list: Vec<(Path, Value)> = Vec::new();
        std::mem::swap(&mut list, &mut self.dictionary_item_removed);
        put_pair(&mut list, Path { segments: path }, value);
        self.dictionary_item_removed = list;
    }

    /// Puts an added item in.
    pub fn insert_iterable_item_added(&mut self, path: Vec<PathSegment>, value: Value)
        ensures
            final(self)@ == with_item_added(old(self)@, segs(path@), value@),
    {
        proof {
            use_type_invariant(&*self);
        }
        let mut list: Vec<(Path, Value)> = Vec::new();
        std::mem::swap(&mut list, &mut self.iterable_item_added);
        put_pair(&mut list, Path { segments: path }, value);
        self.iterable_item_added = list;
    }

    /// Puts a removed item in.
    pub fn insert_iterable_item_removed(&mut self, path: Vec<PathSegment>, value: Value)
        ensures
            final(self)@ == with_item_removed(old(self)@, segs(path@), value@),
    {
        proof {
            use_type_invariant(&*self);
        }
        let mut list: Vec<(Path, Value)> = Vec::new();
        std::mem::swap(&mut list, &mut self.iterable_item_removed);
        put_pair(&mut list, Path { segments: path }, value);
        self.iterable_item_removed = list;
    }

    /// Puts an added attribute in.
    pub fn insert_attribute_added(&mut self, path: Vec<PathSegment>, value: Value)
        ensures
            final(self)@ == with_attribute_added(old(self)@, segs(path@), value@),
    {
        proof {
            use_type_invariant(&*self);
        }
        let mut list: Vec<(Path, Value)> = Vec::new();
        std::mem::swap(&mut list, &mut self.attribute_added);
        put_pair(&mut list, Path { segments: path }, value);
        self.attribute_added = list;
    }

    /// Puts a removed attribute in.
    pub fn insert_attribute_removed(&mut self, path: Vec<PathSegment>, value: Value)
        ensures
            final(self)@ == with_attribute_removed(old(self)@, segs(path@), value@),
    {
        proof {
            use_type_invariant(&*self);
        }
        let mut list: Vec<(Path, Value)> = Vec::new();
        std::mem::swap(&mut list, &mut self.attribute_removed);
        put_pair(&mut list, Path { segments: path }, value);
        self.attribute_removed = list;
    }

    /// Puts an added member of a set in.
    pub fn insert_set_item_added(&mut self, path: Vec<PathSegment>, value: Value)
        ensures
            final(self)@ == with_set_added(old(self)@, segs(path@), value@),
    {
        proof {
            use_type_invariant(&*self);
        }
        let mut list: Vec<(Path, Value)> = Vec::new();
        std::mem::swap(&mut list, &mut self.set_item_added);
        put_pair(&mut list, Path { segments: path }, value);
        self.set_item_added = list;
    }

    /// Puts a removed member of a set in.
    pub fn insert_set_item_removed(&mut self, path: Vec<PathSegment>, value: Value)
        ensures
            final(self)@ == with_set_removed(old(self)@, segs(path@), value@),
    {
        proof {
            use_type_invariant(&*self);
        }
        let mut list: Vec<(Path, Value)> = Vec::new();
        std::mem::swap(&mut list, &mut self.set_item_removed);
        put_pair(&mut list, Path { segments: path }, value);
        self.set_item_removed = list;
    }

    /// Puts the findings of another report in.
    pub fn merge(&mut self, other: Report)
        ensures
            final(self)@ == merged(old(self)@, other@),
    {
        proof {
            use_type_invariant(&*self);
        }
        let mut type_changes: Vec<(Path, TypeChangeEntry)> = Vec::new();
        std::mem::swap(&mut type_changes, &mut self.type_changes);
        put_pairs(&mut type_changes, other.type_changes);
        self.type_changes = type_changes;
        let mut values_changed: Vec<(Path, ValuesChangedEntry)> = Vec::new();
        std::mem::swap(&mut values_changed, &mut self.values_changed);
        put_pairs(&mut values_changed, other.values_changed);
        self.values_changed = values_changed;
        let mut list: Vec<(Path, Value)> = Vec::new();
        std::mem::swap(&mut list, &mut self.dictionary_item_added);
        put_pairs(&mut list, other.dictionary_item_added);
        self.dictionary_item_added = list;
        let mut list: Vec<(Path, Value)> = Vec::new();
        std::mem::swap(&mut list, &mut self.dictionary_item_removed);
        put_pairs(&mut list, other.dictionary_item_removed);
        self.dictionary_item_removed = list;
        let mut list: Vec<(Path, Value)> = Vec::new();
        std::mem::swap(&mut list, &mut self.iterable_item_added);
        put_pairs(&mut list, other.iterable_item_added);
        self.iterable_item_added = list;
        let mut list: Vec<(Path, Value)> = Vec::new();
        std::mem::swap(&mut list, &mut self.iterable_item_removed);
        put_pairs(&mut list, other.iterable_item_removed);
        self.iterable_item_removed = list;
        let mut list: Vec<(Path, Value)> = Vec::new();
        std::mem::swap(&mut list, &mut self.attribute_added);
        put_pairs(&mut list, other.attribute_added);
        self.attribute_added = list;
        let mut list: Vec<(Path, Value)> = Vec::new();
        std::mem::swap(&mut list, &mut self.attribute_removed);
        put_pairs(&mut list, other.attribute_removed);
        self.attribute_removed = list;
        let mut list: Vec<(Path, Value)> = Vec::new();
        std::mem::swap(&mut list, &mut self.set_item_added);
        put_pairs(&mut list, other.set_item_added);
        self.set_item_added = list;
        let mut list: Vec<(Path, Value)> = Vec::new();
        std::mem::swap(&mut list, &mut self.set_item_removed);
        put_pairs(&mut list, other.set_item_removed);
        self.set_item_removed = list;
    }

    /// Makes each added and removed item of one rendered path a changed value.
    pub fn merge_mutual_add_removes(&mut self)
        ensures
            final(self)@ == mutual_merged(old(self)@),
    {
        proof {
            use_type_invariant(&*self);
        }
        let ghost before: Findings = self@;
        let mut removed: Vec<(Path, Value)> = Vec::new();
        std::mem::swap(&mut removed, &mut self.iterable_item_removed);
        let mut added: Vec<(Path, Value)> = Vec::new();
        std::mem::swap(&mut added, &mut self.iterable_item_added);
        let mut changed: Vec<(Path, ValuesChangedEntry)> = Vec::new();
        std::mem::swap(&mut changed, &mut self.values_changed);
        let index: Vec<(String, Path)> = index_rendered(&removed);
        let ghost given: Found = pair_views(added@);
        let ghost goal: Paired = paired_from(
            pair_views(index@),
            given,
            seq![],
            pair_views(removed@),
            pair_views(changed@),
        );
        let mut rest: Vec<(Path, Value)> = reversed(added);
        let mut kept: Vec<(Path, Value)> = Vec::new();
        let ghost mut done: nat = 0;
        proof {
            assert(given.skip(0) =~= given);
            assert(pair_views(kept@) =~= Seq::<(Seq<Seg>, Val)>::empty());
            assert(Seq::<(Seq<Seg>, Val)>::empty() + given =~= given);
            assert(pair_views(rest@).len() == rest@.len());
            assert forall|i: int| 0 <= i < rest.len() implies (((#[trigger] rest@[i]).0@,
                rest@[i].1@)) == given[given.len() - 1 - i] by {
                assert(pair_views(rest@)[i] == given.reverse()[i]);
            }
        }
        while rest.len() > 0
            invariant
                done + rest.len() == given.len(),
                forall|i: int|
                    0 <= i < rest.len() ==> (((#[trigger] rest@[i]).0@, rest@[i].1@))
                        == given[given.len() - 1 - i],
                ascending::<String, Seq<Seg>>(pair_views(index@)),
                ascending::<Path, Val>(pair_views(removed@)),
                ascending::<Path, ValueChange>(pair_views(changed@)),
                ascending::<Path, Val>(pair_views(kept@) + given.skip(done as int)),
                paired_from(
                    pair_views(index@),
                    given.skip(done as int),
                    pair_views(kept@),
                    pair_views(removed@),
                    pair_views(changed@),
                ) == goal,
            decreases rest.len(),
        {
            if let Some(pair) = rest.pop() {
                let ghost todo: Found = given.skip(done as int);
                let ghost stayed: Found = pair_views(kept@);
                proof {
                    assert(todo[0] == (pair.0@, pair.1@));
                    assert(todo.drop_first() =~= given.skip(done as int + 1));
                    done = done + 1;
                    lemma_drop_middle::<Path, Val>(stayed, todo);
                }
                let text: String = render_path(pair.0.segments.as_slice());
                let found: Option<usize> = find_pair(&index, &text);
                let taken: Option<(Path, Value)> = match found {
                    Some(at) => take_pair(&mut removed, &index[at].1),
                    None => None,
                };
                match taken {
                    Some(old) => {
                        put_pair(
                            &mut changed,
                            old.0,
                            ValuesChangedEntry {
                                old_value: old.1,
                                new_value: pair.1,
                                new_path: None,
                                diff: None,
                            },
                        );
                    },
                    None => {
                        kept.push(pair);
                        proof {
                            assert(pair_views(kept@) =~= stayed.push(todo[0]));
                            assert(stayed.push(todo[0]) + todo.drop_first() =~= stayed + todo);
                        }
                    },
                }
            }
        }
        proof {
            assert(given.skip(done as int) =~= Seq::<(Seq<Seg>, Val)>::empty());
            assert(pair_views(kept@) + Seq::<(Seq<Seg>, Val)>::empty() =~= pair_views(kept@));
        }
        self.iterable_item_removed = removed;
        self.iterable_item_added = kept;
        self.values_changed = changed;
    }

    /// Replaces a step of the paths of the new values by a position.
    pub fn retag_new_path(&mut self, prefix_depth: usize, new_idx: usize)
        ensures
            final(self)@ == retagged(old(self)@, prefix_depth as int, new_idx as int),
    {
        proof {
            use_type_invariant(&*self);
        }
        let ghost before: Findings = self@;
        let mut values: Vec<(Path, ValuesChangedEntry)> = Vec::new();
        std::mem::swap(&mut values, &mut self.values_changed);
        let mut rest: Vec<(Path, ValuesChangedEntry)> = reversed(values);
        let mut changed: Vec<(Path, ValuesChangedEntry)> = Vec::new();
        let ghost goal: Findings = retagged(before, prefix_depth as int, new_idx as int);
        let ghost given: Seq<(Seq<Seg>, ValueChange)> = before.values_changed;
        proof {
            assert(pair_views(rest@).len() == rest@.len());
            assert forall|i: int| 0 <= i < rest.len() implies (((#[trigger] rest@[i]).0@,
                rest@[i].1@)) == given[given.len() - 1 - i] by {
                assert(pair_views(rest@)[i] == given.reverse()[i]);
            }
        }
        while rest.len() > 0
            invariant
                given == before.values_changed,
                goal == retagged(before, prefix_depth as int, new_idx as int),
                changed.len() + rest.len() == given.len(),
                forall|i: int|
                    0 <= i < rest.len() ==> (((#[trigger] rest@[i]).0@, rest@[i].1@))
                        == given[given.len() - 1 - i],
                pair_views(changed@) =~= goal.values_changed.take(changed@.len() as int),
            decreases rest.len(),
        {
            if let Some(pair) = rest.pop() {
                let ghost done: Seq<(Path, ValuesChangedEntry)> = changed@;
                let (path, entry) = pair;
                let new_path: Option<Vec<PathSegment>> = retag(
                    &path.segments,
                    entry.new_path,
                    prefix_depth,
                    new_idx,
                );
                let fresh: ValuesChangedEntry = ValuesChangedEntry {
                    old_value: entry.old_value,
                    new_value: entry.new_value,
                    new_path,
                    diff: entry.diff,
                };
                proof {
                    assert(pair_views(done.push((path, fresh))) =~= pair_views(done).push(
                        (path@, fresh@),
                    ));
                    assert((path@, fresh@) == goal.values_changed[done.len() as int]);
                }
                changed.push((path, fresh));
            }
        }
        proof {
            assert(pair_views(changed@) =~= goal.values_changed);
            lemma_same_keys::<Path, ValueChange>(given, pair_views(changed@));
        }
        self.values_changed = changed;
        let mut types: Vec<(Path, TypeChangeEntry)> = Vec::new();
        std::mem::swap(&mut types, &mut self.type_changes);
        let mut rest: Vec<(Path, TypeChangeEntry)> = reversed(types);
        let mut changed: Vec<(Path, TypeChangeEntry)> = Vec::new();
        let ghost given: Seq<(Seq<Seg>, TypeChange)> = before.type_changes;
        proof {
            assert(pair_views(rest@).len() == rest@.len());
            assert forall|i: int| 0 <= i < rest.len() implies (((#[trigger] rest@[i]).0@,
                rest@[i].1@)) == given[given.len() - 1 - i] by {
                assert(pair_views(rest@)[i] == given.reverse()[i]);
            }
        }
        while rest.len() > 0
            invariant
                given == before.type_changes,
                goal == retagged(before, prefix_depth as int, new_idx as int),
                changed.len() + rest.len() == given.len(),
                forall|i: int|
                    0 <= i < rest.len() ==> (((#[trigger] rest@[i]).0@, rest@[i].1@))
                        == given[given.len() - 1 - i],
                pair_views(changed@) =~= goal.type_changes.take(changed@.len() as int),
            decreases rest.len(),
        {
            if let Some(pair) = rest.pop() {
                let ghost done: Seq<(Path, TypeChangeEntry)> = changed@;
                let (path, entry) = pair;
                let new_path: Option<Vec<PathSegment>> = retag(
                    &path.segments,
                    entry.new_path,
                    prefix_depth,
                    new_idx,
                );
                let fresh: TypeChangeEntry = TypeChangeEntry {
                    old_type: entry.old_type,
                    new_type: entry.new_type,
                    old_value: entry.old_value,
                    new_value: entry.new_value,
                    new_path,
                };
                proof {
                    assert(pair_views(done.push((path, fresh))) =~= pair_views(done).push(
                        (path@, fresh@),
                    ));
                    assert((path@, fresh@) == goal.type_changes[done.len() as int]);
                }
                changed.push((path, fresh));
            }
        }
        proof {
            assert(pair_views(changed@) =~= goal.type_changes);
            lemma_same_keys::<Path, TypeChange>(given, pair_views(changed@));
        }
        self.type_changes = changed;
    }

    /// The report as it is given out.
    pub fn to_value(&self) -> (value: Value)
        ensures
            value@ == report_value(self@),
    {
        let mut builder: Builder = Builder::new();
        let mut root: Vec<(String, Value)> = Vec::new();
        push_type_category(&mut root, &mut builder, "type_changes", &self.type_changes);
        proof {
            assert(named(root@) =~= category_entry(
                "type_changes"@,
                self@.type_changes.len(),
                type_category(self@.type_changes),
            ));
        }
        push_value_category(&mut root, &mut builder, "values_changed", &self.values_changed);
        push_raw_category(
            &mut root,
            &mut builder,
            "dictionary_item_added",
            &self.dictionary_item_added,
        );
        push_raw_category(
            &mut root,
            &mut builder,
            "dictionary_item_removed",
            &self.dictionary_item_removed,
        );
        push_raw_category(
            &mut root,
            &mut builder,
            "iterable_item_added",
            &self.iterable_item_added,
        );
        push_raw_category(
            &mut root,
            &mut builder,
            "iterable_item_removed",
            &self.iterable_item_removed,
        );
        push_raw_category(&mut root, &mut builder, "attribute_added", &self.attribute_added);
        push_raw_category(&mut root, &mut builder, "attribute_removed", &self.attribute_removed);
        push_set_category(&mut root, "set_item_added", &self.set_item_added);
        push_set_category(&mut root, "set_item_removed", &self.set_item_removed);
        proof {
            assert(named(root@) == categories(self@));
        }
        builder.object(root)
    }

    /// Whether nothing was found.
    pub fn is_empty(&self) -> (empty: bool)
        ensures
            empty == (findings_count(self@) == 0),
    {
        self.type_changes.len() == 0 && self.values_changed.len() == 0
            && self.dictionary_item_added.len() == 0 && self.dictionary_item_removed.len() == 0
            && self.iterable_item_added.len() == 0 && self.iterable_item_removed.len() == 0
            && self.attribute_added.len() == 0 && self.attribute_removed.len() == 0
            && self.set_item_added.len() == 0 && self.set_item_removed.len() == 0
    }

    /// How much was found.
    pub fn finding_count(&self) -> (count: usize)
        ensures
            count == capped(findings_count(self@)),
    {
        let mut count: usize = self.type_changes.len();
        count = capped_sum(count, self.values_changed.len());
        count = capped_sum(count, self.dictionary_item_added.len());
        count = capped_sum(count, self.dictionary_item_removed.len());
        count = capped_sum(count, self.iterable_item_added.len());
        count = capped_sum(count, self.iterable_item_removed.len());
        count = capped_sum(count, self.attribute_added.len());
        count = capped_sum(count, self.attribute_removed.len());
        count = capped_sum(count, self.set_item_added.len());
        count = capped_sum(count, self.set_item_removed.len());
        count
    }
}

impl Default for Report {
    fn default() -> (report: Self)
        ensures
            report@ == nothing(),
    {
        Report::new()
    }
}

// ---------------------------------------------------------------------
// How much a report weighs as a distance
// ---------------------------------------------------------------------

/// The leaves of changed values: those of the new values.
pub open spec fn change_leaves(changes: Seq<(Seq<Seg>, ValueChange)>) -> nat
    decreases changes.len(),
{
    if changes.len() == 0 {
        0
    } else {
        change_leaves(changes.drop_last()) + leaves(changes.last().1.new_value)
    }
}

/// The leaves of changes of type.
pub open spec fn retyped_leaves(changes: Seq<(Seq<Seg>, TypeChange)>) -> nat
    decreases changes.len(),
{
    if changes.len() == 0 {
        0
    } else {
        retyped_leaves(changes.drop_last()) + type_change_leaves(
            changes.last().1.old_value,
            changes.last().1.new_value,
        )
    }
}

/// The leaves of values that were added or removed.
pub open spec fn found_leaves(found: Found) -> nat
    decreases found.len(),
{
    if found.len() == 0 {
        0
    } else {
        found_leaves(found.drop_last()) + leaves(found.last().1)
    }
}

/// The leaves of everything that was found.
pub open spec fn finding_leaves(f: Findings) -> nat {
    change_leaves(f.values_changed) + retyped_leaves(f.type_changes) + found_leaves(
        f.dictionary_item_added,
    ) + found_leaves(f.dictionary_item_removed) + found_leaves(f.iterable_item_added)
        + found_leaves(f.iterable_item_removed) + found_leaves(f.attribute_added) + found_leaves(
        f.attribute_removed,
    ) + found_leaves(f.set_item_added) + found_leaves(f.set_item_removed)
}

fn length_of_found(found: &Vec<(Path, Value)>) -> (count: usize)
    ensures
        count == capped(found_leaves(pair_views(found@))),
{
    let ghost all: Found = pair_views(found@);
    let mut count: usize = 0;
    let mut i: usize = 0;
    proof {
        assert(all.take(0) =~= seq![]);
    }
    while i < found.len()
        invariant
            i <= found.len(),
            all == pair_views(found@),
            count == capped(found_leaves(all.take(i as int))),
        decreases found.len() - i,
    {
        count = capped_sum(count, item_length(&found[i].1));
        proof {
            let upto: Found = all.take(i as int + 1);
            assert(upto.drop_last() =~= all.take(i as int));
            assert(upto.last() == all[i as int]);
        }
        i = i + 1;
    }
    proof {
        assert(all.take(i as int) =~= all);
    }
    count
}

fn length_of_changes(changes: &Vec<(Path, ValuesChangedEntry)>) -> (count: usize)
    ensures
        count == capped(change_leaves(pair_views(changes@))),
{
    let ghost all: Seq<(Seq<Seg>, ValueChange)> = pair_views(changes@);
    let mut count: usize = 0;
    let mut i: usize = 0;
    proof {
        assert(all.take(0) =~= seq![]);
    }
    while i < changes.len()
        invariant
            i <= changes.len(),
            all == pair_views(changes@),
            count == capped(change_leaves(all.take(i as int))),
        decreases changes.len() - i,
    {
        count = capped_sum(count, item_length(&changes[i].1.new_value));
        proof {
            let upto: Seq<(Seq<Seg>, ValueChange)> = all.take(i as int + 1);
            assert(upto.drop_last() =~= all.take(i as int));
            assert(upto.last() == all[i as int]);
        }
        i = i + 1;
    }
    proof {
        assert(all.take(i as int) =~= all);
    }
    count
}

fn length_of_retyped(changes: &Vec<(Path, TypeChangeEntry)>) -> (count: usize)
    ensures
        count == capped(retyped_leaves(pair_views(changes@))),
{
    let ghost all: Seq<(Seq<Seg>, TypeChange)> = pair_views(changes@);
    let mut count: usize = 0;
    let mut i: usize = 0;
    proof {
        assert(all.take(0) =~= seq![]);
    }
    while i < changes.len()
        invariant
            i <= changes.len(),
            all == pair_views(changes@),
            count == capped(retyped_leaves(all.take(i as int))),
        decreases changes.len() - i,
    {
        count = capped_sum(
            count,
            type_change_leaf_length(&changes[i].1.old_value, &changes[i].1.new_value),
        );
        proof {
            let upto: Seq<(Seq<Seg>, TypeChange)> = all.take(i as int + 1);
            assert(upto.drop_last() =~= all.take(i as int));
            assert(upto.last() == all[i as int]);
        }
        i = i + 1;
    }
    proof {
        assert(all.take(i as int) =~= all);
    }
    count
}

impl Report {
    /// The leaves of everything that was found.
    pub fn distance_leaf_length(&self) -> (count: usize)
        ensures
            count == capped(finding_leaves(self@)),
    {
        let mut count: usize = length_of_changes(&self.values_changed);
        count = capped_sum(count, length_of_retyped(&self.type_changes));
        count = capped_sum(count, length_of_found(&self.dictionary_item_added));
        count = capped_sum(count, length_of_found(&self.dictionary_item_removed));
        count = capped_sum(count, length_of_found(&self.iterable_item_added));
        count = capped_sum(count, length_of_found(&self.iterable_item_removed));
        count = capped_sum(count, length_of_found(&self.attribute_added));
        count = capped_sum(count, length_of_found(&self.attribute_removed));
        count = capped_sum(count, length_of_found(&self.set_item_added));
        count = capped_sum(count, length_of_found(&self.set_item_removed));
        count
    }
}

/// A report with nothing in it is the one report without findings.
pub proof fn lemma_empty(f: Findings)
    ensures
        findings_count(f) == 0 <==> f == nothing(),
{
    if findings_count(f) == 0 {
        assert(f.type_changes =~= nothing().type_changes);
        assert(f.values_changed =~= nothing().values_changed);
        assert(f.dictionary_item_added =~= nothing().dictionary_item_added);
        assert(f.dictionary_item_removed =~= nothing().dictionary_item_removed);
        assert(f.iterable_item_added =~= nothing().iterable_item_added);
        assert(f.iterable_item_removed =~= nothing().iterable_item_removed);
        assert(f.attribute_added =~= nothing().attribute_added);
        assert(f.attribute_removed =~= nothing().attribute_removed);
        assert(f.set_item_added =~= nothing().set_item_added);
        assert(f.set_item_removed =~= nothing().set_item_removed);
    }
}

/// Putting nothing into a report leaves it as it is.
pub proof fn lemma_merge_nothing(f: Findings)
    ensures
        merged(f, nothing()) == f,
{
}

/// Two steps of a new path are replaced in any order.
pub proof fn lemma_retag_composes(
    path: Seq<Seg>,
    new_path: Option<Seq<Seg>>,
    depth: int,
    index: int,
    other_depth: int,
    other_index: int,
)
    requires
        0 <= depth,
        0 <= other_depth,
        depth != other_depth,
    ensures
        retagged_path(
            path,
            retagged_path(path, new_path, depth, index),
            other_depth,
            other_index,
        ) == retagged_path(
            path,
            retagged_path(path, new_path, other_depth, other_index),
            depth,
            index,
        ),
{
    let base: Seq<Seg> = match new_path {
        Some(p) => p,
        None => path,
    };
    if depth < base.len() && other_depth < base.len() {
        assert(base.update(depth, Seg::Index(index)).update(other_depth, Seg::Index(other_index))
            =~= base.update(other_depth, Seg::Index(other_index)).update(depth, Seg::Index(index)));
    }
}

/// What nothing was added to is what was merged into nothing.
pub proof fn lemma_nothing_merged(f: Findings)
    requires
        orderly(f),
    ensures
        merged(nothing(), f) == f,
{
    crate::order::lemma_put_all_itself::<Path, TypeChange>(f.type_changes);
    crate::order::lemma_put_all_itself::<Path, ValueChange>(f.values_changed);
    crate::order::lemma_put_all_itself::<Path, Val>(f.dictionary_item_added);
    crate::order::lemma_put_all_itself::<Path, Val>(f.dictionary_item_removed);
    crate::order::lemma_put_all_itself::<Path, Val>(f.iterable_item_added);
    crate::order::lemma_put_all_itself::<Path, Val>(f.iterable_item_removed);
    crate::order::lemma_put_all_itself::<Path, Val>(f.attribute_added);
    crate::order::lemma_put_all_itself::<Path, Val>(f.attribute_removed);
    crate::order::lemma_put_all_itself::<Path, Val>(f.set_item_added);
    crate::order::lemma_put_all_itself::<Path, Val>(f.set_item_removed);
}

/// What is left of a list was in it.
pub proof fn lemma_without_held<K, W>(pairs: Seq<(K, W)>, key: K, i: int)
    requires
        0 <= i < without(pairs, key).len(),
    ensures
        pairs.contains(without(pairs, key)[i]),
    decreases pairs.len(),
{
    let rest: Seq<(K, W)> = without(pairs, key);
    if pairs.last().0 == key {
        assert(pairs[i] == rest[i]);
    } else if i < rest.len() - 1 {
        lemma_without_held(pairs.drop_last(), key, i);
        let k: int = choose|k: int|
            0 <= k < pairs.drop_last().len() && pairs.drop_last()[k] == rest[i];
        assert(pairs[k] == rest[i]);
    } else {
        assert(pairs[pairs.len() - 1] == rest[i]);
    }
}

/// Whether no two items render alike.
pub open spec fn rendered_apart(removed: Found) -> bool {
    forall|i: int, j: int|
        0 <= i < removed.len() && 0 <= j < removed.len() && i != j ==> path_text(
            (#[trigger] removed[i]).0,
        ) != path_text((#[trigger] removed[j]).0)
}

/// Whether no added item renders as a removed one does.
pub open spec fn none_mutual(added: Found, removed: Found) -> bool {
    forall|i: int, j: int|
        0 <= i < added.len() && 0 <= j < removed.len() ==> path_text((#[trigger] added[i]).0)
            != path_text((#[trigger] removed[j]).0)
}

proof fn lemma_index(removed: Found, i: int)
    requires
        rendered_apart(removed),
        0 <= i < removed.len(),
    ensures
        lookup(rendered_index(removed), path_text(removed[i].0)) == Some(removed[i].0),
{
    let texts: Seq<(Seq<char>, Seq<Seg>)> = Seq::new(
        removed.len(),
        |i: int| (path_text(removed[i].0), removed[i].0),
    );
    lemma_put_all::<String, Seq<Seg>>(seq![], texts);
    lemma_lookup(texts, path_text(removed[i].0));
    assert(texts[i].0 == path_text(removed[i].0));
    let found: Seq<Seg> = lookup(texts, path_text(removed[i].0))->Some_0;
    let k: int = choose|k: int|
        0 <= k < texts.len() && #[trigger] texts[k] == (path_text(removed[i].0), found);
    assert(path_text(removed[k].0) == path_text(removed[i].0));
}

proof fn lemma_paired(
    given: Found,
    rest: Found,
    kept: Found,
    removed: Found,
    changed: Seq<(Seq<Seg>, ValueChange)>,
)
    requires
        rendered_apart(given),
        forall|j: int| 0 <= j < removed.len() ==> given.contains(#[trigger] removed[j]),
        none_mutual(kept, removed),
    ensures
        ({
            let paired = paired_from(rendered_index(given), rest, kept, removed, changed);
            none_mutual(paired.added, paired.removed)
        }),
    decreases rest.len(),
{
    if rest.len() > 0 {
        let (path, value) = rest[0];
        let old: Option<Seq<Seg>> = lookup(rendered_index(given), path_text(path));
        if old is Some && lookup(removed, old->Some_0) is Some {
            let less: Found = without(removed, old->Some_0);
            assert forall|j: int| 0 <= j < less.len() implies removed.contains(#[trigger] less[j]) by {
                lemma_without_held(removed, old->Some_0, j);
            }
            assert forall|j: int| 0 <= j < less.len() implies given.contains(#[trigger] less[j]) by {
                let k: int = choose|k: int| 0 <= k < removed.len() && removed[k] == less[j];
                assert(given.contains(removed[k]));
            }
            assert(none_mutual(kept, less)) by {
                assert forall|i: int, j: int|
                    0 <= i < kept.len() && 0 <= j < less.len() implies path_text(
                    (#[trigger] kept[i]).0,
                ) != path_text((#[trigger] less[j]).0) by {
                    let k: int = choose|k: int| 0 <= k < removed.len() && removed[k] == less[j];
                    assert(path_text(kept[i].0) != path_text(removed[k].0));
                }
            }
            lemma_paired(
                given,
                rest.drop_first(),
                kept,
                less,
                put::<Path, ValueChange>(
                    changed,
                    old->Some_0,
                    ValueChange {
                        old_value: lookup(removed, old->Some_0)->Some_0,
                        new_value: value,
                        new_path: None,
                        diff: None,
                    },
                ),
            );
        } else {
            let more: Found = kept.push(rest[0]);
            assert forall|i: int, j: int|
                0 <= i < more.len() && 0 <= j < removed.len() implies path_text(
                (#[trigger] more[i]).0,
            ) != path_text((#[trigger] removed[j]).0) by {
                if i < kept.len() {
                    assert(more[i] == kept[i]);
                } else if path_text(more[i].0) == path_text(removed[j].0) {
                    assert(given.contains(removed[j]));
                    let k: int = choose|k: int| 0 <= k < given.len() && given[k] == removed[j];
                    lemma_index(given, k);
                    lemma_lookup(removed, removed[j].0);
                }
            }
            lemma_paired(given, rest.drop_first(), more, removed, changed);
        }
    }
}

/// Once mutual items are merged, none is left: no added item renders as a removed
/// one does, if no two removed items rendered alike.
pub proof fn lemma_no_mutual_left(f: Findings)
    requires
        rendered_apart(f.iterable_item_removed),
    ensures
        none_mutual(
            mutual_merged(f).iterable_item_added,
            mutual_merged(f).iterable_item_removed,
        ),
{
    let removed: Found = f.iterable_item_removed;
    assert forall|j: int| 0 <= j < removed.len() implies removed.contains(#[trigger] removed[j]) by {}
    lemma_paired(removed, f.iterable_item_added, seq![], removed, f.values_changed);
}

/// A report that is given out is empty where nothing was found, and only there.
pub proof fn lemma_empty_report(f: Findings)
    ensures
        report_value(f) == Val::Object(dict_of(seq![])) <==> f == nothing(),
{
    let listed: Seq<(KeyVal, Val)> = categories(f);
    lemma_empty(f);
    if f == nothing() {
        assert(listed =~= seq![]);
    } else {
        assert(listed.len() > 0);
        lemma_put_all::<ObjectKey, Val>(seq![], listed);
        lemma_lookup(listed, listed[0].0);
        assert(lookup(dict_of(listed).entries, listed[0].0) is Some);
    }
}

// ---------------------------------------------------------------------
// Copies
// ---------------------------------------------------------------------

/// What stands under a path and can be copied.
trait Copied: View + Sized {
    /// A copy.
    fn copied(&self) -> (copy: Self)
        ensures
            copy@ == self@,
    ;
}

impl Copied for Value {
    fn copied(&self) -> (copy: Self) {
        self.duplicate()
    }
}

fn copy_path(path: &Option<Vec<PathSegment>>) -> (copy: Option<Vec<PathSegment>>)
    ensures
        path_of(copy) == path_of(*path),
{
    match path {
        Some(segments) => Some(duplicate_segments(segments)),
        None => None,
    }
}

impl Copied for ValuesChangedEntry {
    fn copied(&self) -> (copy: Self) {
        let diff: Option<String> = match &self.diff {
            Some(text) => Some(text.clone()),
            None => None,
        };
        ValuesChangedEntry {
            old_value: self.old_value.duplicate(),
            new_value: self.new_value.duplicate(),
            new_path: copy_path(&self.new_path),
            diff,
        }
    }
}

impl Copied for TypeChangeEntry {
    fn copied(&self) -> (copy: Self) {
        TypeChangeEntry {
            old_type: self.old_type.clone(),
            new_type: self.new_type.clone(),
            old_value: self.old_value.duplicate(),
            new_value: self.new_value.duplicate(),
            new_path: copy_path(&self.new_path),
        }
    }
}

fn copy_pairs<W: Copied>(pairs: &Vec<(Path, W)>) -> (copies: Vec<(Path, W)>)
    ensures
        pair_views(copies@) == pair_views(pairs@),
{
    let mut copies: Vec<(Path, W)> = Vec::new();
    let mut i: usize = 0;
    while i < pairs.len()
        invariant
            i <= pairs.len(),
            pair_views(copies@) =~= pair_views(pairs@).take(i as int),
        decreases pairs.len() - i,
    {
        let ghost before: Seq<(Path, W)> = copies@;
        let path: Path = Path { segments: duplicate_segments(&pairs[i].0.segments) };
        let entry: W = pairs[i].1.copied();
        proof {
            assert(path@ == pairs@[i as int].0@);
            assert(pair_views(before.push((path, entry))) =~= pair_views(before).push(
                (path@, entry@),
            ));
        }
        copies.push((path, entry));
        i = i + 1;
    }
    proof {
        assert(pair_views(copies@) =~= pair_views(pairs@));
    }
    copies
}

impl Clone for Report {
    fn clone(&self) -> (copy: Self)
        ensures
            copy@ == self@,
    {
        proof {
            use_type_invariant(self);
        }
        let type_changes: Vec<(Path, TypeChangeEntry)> = copy_pairs(&self.type_changes);
        let values_changed: Vec<(Path, ValuesChangedEntry)> = copy_pairs(&self.values_changed);
        let dictionary_item_added: Vec<(Path, Value)> = copy_pairs(&self.dictionary_item_added);
        let dictionary_item_removed: Vec<(Path, Value)> = copy_pairs(
            &self.dictionary_item_removed,
        );
        let iterable_item_added: Vec<(Path, Value)> = copy_pairs(&self.iterable_item_added);
        let iterable_item_removed: Vec<(Path, Value)> = copy_pairs(&self.iterable_item_removed);
        let attribute_added: Vec<(Path, Value)> = copy_pairs(&self.attribute_added);
        let attribute_removed: Vec<(Path, Value)> = copy_pairs(&self.attribute_removed);
        let set_item_added: Vec<(Path, Value)> = copy_pairs(&self.set_item_added);
        let set_item_removed: Vec<(Path, Value)> = copy_pairs(&self.set_item_removed);
        Report {
            type_changes,
            values_changed,
            dictionary_item_added,
            dictionary_item_removed,
            iterable_item_added,
            iterable_item_removed,
            attribute_added,
            attribute_removed,
            set_item_added,
            set_item_removed,
        }
    }
}

} // verus!
