//! How a report is laid out where it is given out.

use vstd::prelude::*;

#[allow(unused_imports)]
use crate::diff::spots::{bare, spot, Spot};
#[allow(unused_imports)]
use crate::order::{lemma_lookup, lemma_put_all, lookup};
#[allow(unused_imports)]
use crate::path::{item_text, lemma_path_extends, path_text, Seg};
#[allow(unused_imports)]
use crate::report::{
    categories, category_entry, new_path_entry, raw_category, report_value, set_category, set_texts,
    text_entry, type_category, type_change_value, value_category, value_change_value, Findings,
    Found, TypeChange, ValueChange,
};
#[allow(unused_imports)]
use crate::repr::number_text;
#[allow(unused_imports)]
use crate::text::decimal;
#[allow(unused_imports)]
use crate::value::{dict_of, KeyVal, Number, ObjectKey, Val};

verus! {

/// What a dict holds under a text.
pub open spec fn under(value: Val, name: Seq<char>) -> Option<Val> {
    match value {
        Val::Object(object) => lookup(object.entries, KeyVal::Str(name)),
        _ => None,
    }
}

/// What a report that is given out holds in a category under a rendered path.
pub open spec fn entry_under(report: Val, category: Seq<char>, at: Seq<char>) -> Option<Val> {
    match under(report, category) {
        Some(entries) => under(entries, at),
        None => None,
    }
}

/// Whether a report that is given out lists a rendered path in a category.
pub open spec fn listed_under(report: Val, category: Seq<char>, at: Seq<char>) -> bool {
    under(report, category) matches Some(Val::Array(items)) && items.contains(Val::Str(at))
}

/// Whether no other path of a report renders as one does.
pub open spec fn rendered_once(f: Findings, path: Seq<Seg>) -> bool {
    forall|q: Seq<Seg>|
        #[trigger] spot(f, q) != bare() && path_text(q) == path_text(path) ==> q == path
}

/// A text that may be missing, as a value.
pub open spec fn text_value(text: Option<Seq<char>>) -> Option<Val> {
    match text {
        Some(chars) => Some(Val::Str(chars)),
        None => None,
    }
}

/// A path that may be missing, rendered.
pub open spec fn rendered(path: Option<Seq<Seg>>) -> Option<Seq<char>> {
    match path {
        Some(steps) => Some(path_text(steps)),
        None => None,
    }
}

/// What is found in two lists, one behind the other.
proof fn lemma_lookup_behind(x: Seq<(KeyVal, Val)>, y: Seq<(KeyVal, Val)>, key: KeyVal)
    ensures
        lookup(x + y, key) == if lookup(y, key) is Some {
            lookup(y, key)
        } else {
            lookup(x, key)
        },
    decreases y.len(),
{
    if y.len() == 0 {
        assert(x + y =~= x);
    } else {
        assert((x + y).drop_last() =~= x + y.drop_last());
        assert((x + y).last() == y.last());
        lemma_lookup_behind(x, y.drop_last(), key);
    }
}

/// What a dict made of a list holds.
proof fn lemma_under(list: Seq<(KeyVal, Val)>, name: Seq<char>)
    ensures
        under(Val::Object(dict_of(list)), name) == lookup(list, KeyVal::Str(name)),
{
    lemma_put_all::<ObjectKey, Val>(seq![], list);
}

/// What is found in a list of one entry at most.
proof fn lemma_one_entry(name: Seq<char>, size: nat, value: Val, other: Seq<char>)
    ensures
        lookup(category_entry(name, size, value), KeyVal::Str(other)) == if size > 0 && name
            == other {
            Some(value)
        } else {
            None
        },
{
    let list: Seq<(KeyVal, Val)> = category_entry(name, size, value);
    if size > 0 {
        reveal_with_fuel(lookup, 2);
        assert(list.drop_last() =~= seq![]);
        assert(list.last() == (KeyVal::Str(name), value));
    }
}

/// The names of the categories are different.
proof fn lemma_names()
    ensures
        "type_changes"@ != "values_changed"@,
        "type_changes"@ != "dictionary_item_added"@,
        "type_changes"@ != "dictionary_item_removed"@,
        "type_changes"@ != "iterable_item_added"@,
        "type_changes"@ != "iterable_item_removed"@,
        "type_changes"@ != "attribute_added"@,
        "type_changes"@ != "attribute_removed"@,
        "type_changes"@ != "set_item_added"@,
        "type_changes"@ != "set_item_removed"@,
        "values_changed"@ != "dictionary_item_added"@,
        "values_changed"@ != "dictionary_item_removed"@,
        "values_changed"@ != "iterable_item_added"@,
        "values_changed"@ != "iterable_item_removed"@,
        "values_changed"@ != "attribute_added"@,
        "values_changed"@ != "attribute_removed"@,
        "values_changed"@ != "set_item_added"@,
        "values_changed"@ != "set_item_removed"@,
        "dictionary_item_added"@ != "dictionary_item_removed"@,
        "dictionary_item_added"@ != "iterable_item_added"@,
        "dictionary_item_added"@ != "iterable_item_removed"@,
        "dictionary_item_added"@ != "attribute_added"@,
        "dictionary_item_added"@ != "attribute_removed"@,
        "dictionary_item_added"@ != "set_item_added"@,
        "dictionary_item_added"@ != "set_item_removed"@,
        "dictionary_item_removed"@ != "iterable_item_added"@,
        "dictionary_item_removed"@ != "iterable_item_removed"@,
        "dictionary_item_removed"@ != "attribute_added"@,
        "dictionary_item_removed"@ != "attribute_removed"@,
        "dictionary_item_removed"@ != "set_item_added"@,
        "dictionary_item_removed"@ != "set_item_removed"@,
        "iterable_item_added"@ != "iterable_item_removed"@,
        "iterable_item_added"@ != "attribute_added"@,
        "iterable_item_added"@ != "attribute_removed"@,
        "iterable_item_added"@ != "set_item_added"@,
        "iterable_item_added"@ != "set_item_removed"@,
        "iterable_item_removed"@ != "attribute_added"@,
        "iterable_item_removed"@ != "attribute_removed"@,
        "iterable_item_removed"@ != "set_item_added"@,
        "iterable_item_removed"@ != "set_item_removed"@,
        "attribute_added"@ != "attribute_removed"@,
        "attribute_added"@ != "set_item_added"@,
        "attribute_added"@ != "set_item_removed"@,
        "attribute_removed"@ != "set_item_added"@,
        "attribute_removed"@ != "set_item_removed"@,
        "set_item_added"@ != "set_item_removed"@,
{
    reveal_strlit("type_changes");
    reveal_strlit("values_changed");
    reveal_strlit("dictionary_item_added");
    reveal_strlit("dictionary_item_removed");
    reveal_strlit("iterable_item_added");
    reveal_strlit("iterable_item_removed");
    reveal_strlit("attribute_added");
    reveal_strlit("attribute_removed");
    reveal_strlit("set_item_added");
    reveal_strlit("set_item_removed");
    assert("type_changes"@.len() != "values_changed"@.len());
    assert("type_changes"@.len() != "dictionary_item_added"@.len());
    assert("type_changes"@.len() != "dictionary_item_removed"@.len());
    assert("type_changes"@.len() != "iterable_item_added"@.len());
    assert("type_changes"@.len() != "iterable_item_removed"@.len());
    assert("type_changes"@.len() != "attribute_added"@.len());
    assert("type_changes"@.len() != "attribute_removed"@.len());
    assert("type_changes"@.len() != "set_item_added"@.len());
    assert("type_changes"@.len() != "set_item_removed"@.len());
    assert("values_changed"@.len() != "dictionary_item_added"@.len());
    assert("values_changed"@.len() != "dictionary_item_removed"@.len());
    assert("values_changed"@.len() != "iterable_item_added"@.len());
    assert("values_changed"@.len() != "iterable_item_removed"@.len());
    assert("values_changed"@.len() != "attribute_added"@.len());
    assert("values_changed"@.len() != "attribute_removed"@.len());
    assert("values_changed"@[0] != "set_item_added"@[0]);
    assert("values_changed"@.len() != "set_item_removed"@.len());
    assert("dictionary_item_added"@.len() != "dictionary_item_removed"@.len());
    assert("dictionary_item_added"@.len() != "iterable_item_added"@.len());
    assert("dictionary_item_added"@[0] != "iterable_item_removed"@[0]);
    assert("dictionary_item_added"@.len() != "attribute_added"@.len());
    assert("dictionary_item_added"@.len() != "attribute_removed"@.len());
    assert("dictionary_item_added"@.len() != "set_item_added"@.len());
    assert("dictionary_item_added"@.len() != "set_item_removed"@.len());
    assert("dictionary_item_removed"@.len() != "iterable_item_added"@.len());
    assert("dictionary_item_removed"@.len() != "iterable_item_removed"@.len());
    assert("dictionary_item_removed"@.len() != "attribute_added"@.len());
    assert("dictionary_item_removed"@.len() != "attribute_removed"@.len());
    assert("dictionary_item_removed"@.len() != "set_item_added"@.len());
    assert("dictionary_item_removed"@.len() != "set_item_removed"@.len());
    assert("iterable_item_added"@.len() != "iterable_item_removed"@.len());
    assert("iterable_item_added"@.len() != "attribute_added"@.len());
    assert("iterable_item_added"@.len() != "attribute_removed"@.len());
    assert("iterable_item_added"@.len() != "set_item_added"@.len());
    assert("iterable_item_added"@.len() != "set_item_removed"@.len());
    assert("iterable_item_removed"@.len() != "attribute_added"@.len());
    assert("iterable_item_removed"@.len() != "attribute_removed"@.len());
    assert("iterable_item_removed"@.len() != "set_item_added"@.len());
    assert("iterable_item_removed"@.len() != "set_item_removed"@.len());
    assert("attribute_added"@.len() != "attribute_removed"@.len());
    assert("attribute_added"@.len() != "set_item_added"@.len());
    assert("attribute_added"@.len() != "set_item_removed"@.len());
    assert("attribute_removed"@.len() != "set_item_added"@.len());
    assert("attribute_removed"@.len() != "set_item_removed"@.len());
    assert("set_item_added"@.len() != "set_item_removed"@.len());
}

/// What a report holds under a name.
proof fn lemma_category(f: Findings, name: Seq<char>)
    ensures
        under(report_value(f), name) == if name == "set_item_removed"@ && f.set_item_removed.len() > 0 {
            Some(set_category(f.set_item_removed))
        } else if name == "set_item_added"@ && f.set_item_added.len() > 0 {
            Some(set_category(f.set_item_added))
        } else if name == "attribute_removed"@ && f.attribute_removed.len() > 0 {
            Some(raw_category(f.attribute_removed))
        } else if name == "attribute_added"@ && f.attribute_added.len() > 0 {
            Some(raw_category(f.attribute_added))
        } else if name == "iterable_item_removed"@ && f.iterable_item_removed.len() > 0 {
            Some(raw_category(f.iterable_item_removed))
        } else if name == "iterable_item_added"@ && f.iterable_item_added.len() > 0 {
            Some(raw_category(f.iterable_item_added))
        } else if name == "dictionary_item_removed"@ && f.dictionary_item_removed.len() > 0 {
            Some(raw_category(f.dictionary_item_removed))
        } else if name == "dictionary_item_added"@ && f.dictionary_item_added.len() > 0 {
            Some(raw_category(f.dictionary_item_added))
        } else if name == "values_changed"@ && f.values_changed.len() > 0 {
            Some(value_category(f.values_changed))
        } else if name == "type_changes"@ && f.type_changes.len() > 0 {
            Some(type_category(f.type_changes))
        } else {
            None
        },
{
    lemma_names();
    lemma_under(categories(f), name);
    let key: KeyVal = KeyVal::Str(name);
    let part0: Seq<(KeyVal, Val)> = category_entry(
        "type_changes"@,
        f.type_changes.len(),
        type_category(f.type_changes),
    );
    lemma_one_entry("type_changes"@, f.type_changes.len(), type_category(f.type_changes), name);
    let part1: Seq<(KeyVal, Val)> = category_entry(
        "values_changed"@,
        f.values_changed.len(),
        value_category(f.values_changed),
    );
    lemma_one_entry("values_changed"@, f.values_changed.len(), value_category(f.values_changed), name);
    let part2: Seq<(KeyVal, Val)> = category_entry(
        "dictionary_item_added"@,
        f.dictionary_item_added.len(),
        raw_category(f.dictionary_item_added),
    );
    lemma_one_entry("dictionary_item_added"@, f.dictionary_item_added.len(), raw_category(f.dictionary_item_added), name);
    let part3: Seq<(KeyVal, Val)> = category_entry(
        "dictionary_item_removed"@,
        f.dictionary_item_removed.len(),
        raw_category(f.dictionary_item_removed),
    );
    lemma_one_entry("dictionary_item_removed"@, f.dictionary_item_removed.len(), raw_category(f.dictionary_item_removed), name);
    let part4: Seq<(KeyVal, Val)> = category_entry(
        "iterable_item_added"@,
        f.iterable_item_added.len(),
        raw_category(f.iterable_item_added),
    );
    lemma_one_entry("iterable_item_added"@, f.iterable_item_added.len(), raw_category(f.iterable_item_added), name);
    let part5: Seq<(KeyVal, Val)> = category_entry(
        "iterable_item_removed"@,
        f.iterable_item_removed.len(),
        raw_category(f.iterable_item_removed),
    );
    lemma_one_entry("iterable_item_removed"@, f.iterable_item_removed.len(), raw_category(f.iterable_item_removed), name);
    let part6: Seq<(KeyVal, Val)> = category_entry(
        "attribute_added"@,
        f.attribute_added.len(),
        raw_category(f.attribute_added),
    );
    lemma_one_entry("attribute_added"@, f.attribute_added.len(), raw_category(f.attribute_added), name);
    let part7: Seq<(KeyVal, Val)> = category_entry(
        "attribute_removed"@,
        f.attribute_removed.len(),
        raw_category(f.attribute_removed),
    );
    lemma_one_entry("attribute_removed"@, f.attribute_removed.len(), raw_category(f.attribute_removed), name);
    let part8: Seq<(KeyVal, Val)> = category_entry(
        "set_item_added"@,
        f.set_item_added.len(),
        set_category(f.set_item_added),
    );
    lemma_one_entry("set_item_added"@, f.set_item_added.len(), set_category(f.set_item_added), name);
    let part9: Seq<(KeyVal, Val)> = category_entry(
        "set_item_removed"@,
        f.set_item_removed.len(),
        set_category(f.set_item_removed),
    );
    lemma_one_entry("set_item_removed"@, f.set_item_removed.len(), set_category(f.set_item_removed), name);
    let list1: Seq<(KeyVal, Val)> = part0 + part1;
    lemma_lookup_behind(part0, part1, key);
    let list2: Seq<(KeyVal, Val)> = list1 + part2;
    lemma_lookup_behind(list1, part2, key);
    let list3: Seq<(KeyVal, Val)> = list2 + part3;
    lemma_lookup_behind(list2, part3, key);
    let list4: Seq<(KeyVal, Val)> = list3 + part4;
    lemma_lookup_behind(list3, part4, key);
    let list5: Seq<(KeyVal, Val)> = list4 + part5;
    lemma_lookup_behind(list4, part5, key);
    let list6: Seq<(KeyVal, Val)> = list5 + part6;
    lemma_lookup_behind(list5, part6, key);
    let list7: Seq<(KeyVal, Val)> = list6 + part7;
    lemma_lookup_behind(list6, part7, key);
    let list8: Seq<(KeyVal, Val)> = list7 + part8;
    lemma_lookup_behind(list7, part8, key);
    let list9: Seq<(KeyVal, Val)> = list8 + part9;
    lemma_lookup_behind(list8, part9, key);
    assert(categories(f) == list9);
}

/// What stands under a rendered path, where no other path renders so.
proof fn lemma_rendered<W>(
    found: Seq<(Seq<Seg>, W)>,
    list: Seq<(KeyVal, Val)>,
    show: spec_fn(W) -> Val,
    path: Seq<Seg>,
)
    requires
        list.len() == found.len(),
        forall|i: int|
            0 <= i < found.len() ==> (#[trigger] list[i]) == (
                KeyVal::Str(path_text(found[i].0)),
                show(found[i].1),
            ),
        forall|i: int|
            0 <= i < found.len() && path_text((#[trigger] found[i]).0) == path_text(path)
                ==> found[i].0 == path,
    ensures
        lookup(list, KeyVal::Str(path_text(path))) == match lookup(found, path) {
            Some(w) => Some(show(w)),
            None => None,
        },
    decreases found.len(),
{
    if found.len() > 0 {
        let front: Seq<(Seq<Seg>, W)> = found.drop_last();
        let less: Seq<(KeyVal, Val)> = list.drop_last();
        assert forall|i: int| 0 <= i < front.len() implies (#[trigger] less[i]) == (
            KeyVal::Str(path_text(front[i].0)),
            show(front[i].1),
        ) by {
            assert(less[i] == list[i]);
        }
        assert forall|i: int|
            0 <= i < front.len() && path_text((#[trigger] front[i]).0) == path_text(
                path,
            ) implies front[i].0 == path by {
            assert(front[i] == found[i]);
        }
        lemma_rendered(front, less, show, path);
        assert(list[list.len() - 1].0 == KeyVal::Str(path_text(found.last().0)));
        assert(found[found.len() - 1] == found.last());
    }
}

/// A path of a category that renders as another does is that path, if it is rendered
/// once.
proof fn lemma_once(f: Findings, path: Seq<Seg>)
    requires
        rendered_once(f, path),
    ensures
        forall|i: int|
            0 <= i < f.type_changes.len() && path_text((#[trigger] f.type_changes[i]).0) == path_text(path)
                ==> f.type_changes[i].0 == path,
        forall|i: int|
            0 <= i < f.values_changed.len() && path_text((#[trigger] f.values_changed[i]).0) == path_text(path)
                ==> f.values_changed[i].0 == path,
        forall|i: int|
            0 <= i < f.dictionary_item_added.len() && path_text((#[trigger] f.dictionary_item_added[i]).0) == path_text(path)
                ==> f.dictionary_item_added[i].0 == path,
        forall|i: int|
            0 <= i < f.dictionary_item_removed.len() && path_text((#[trigger] f.dictionary_item_removed[i]).0) == path_text(path)
                ==> f.dictionary_item_removed[i].0 == path,
        forall|i: int|
            0 <= i < f.iterable_item_added.len() && path_text((#[trigger] f.iterable_item_added[i]).0) == path_text(path)
                ==> f.iterable_item_added[i].0 == path,
        forall|i: int|
            0 <= i < f.iterable_item_removed.len() && path_text((#[trigger] f.iterable_item_removed[i]).0) == path_text(path)
                ==> f.iterable_item_removed[i].0 == path,
        forall|i: int|
            0 <= i < f.attribute_added.len() && path_text((#[trigger] f.attribute_added[i]).0) == path_text(path)
                ==> f.attribute_added[i].0 == path,
        forall|i: int|
            0 <= i < f.attribute_removed.len() && path_text((#[trigger] f.attribute_removed[i]).0) == path_text(path)
                ==> f.attribute_removed[i].0 == path,
        forall|i: int|
            0 <= i < f.set_item_added.len() && path_text((#[trigger] f.set_item_added[i]).0) == path_text(path)
                ==> f.set_item_added[i].0 == path,
        forall|i: int|
            0 <= i < f.set_item_removed.len() && path_text((#[trigger] f.set_item_removed[i]).0) == path_text(path)
                ==> f.set_item_removed[i].0 == path,
{
    reveal(spot);
    assert forall|i: int|
        0 <= i < f.type_changes.len() && path_text((#[trigger] f.type_changes[i]).0) == path_text(
            path,
        ) implies f.type_changes[i].0 == path by {
        let q: Seq<Seg> = f.type_changes[i].0;
        lemma_lookup(f.type_changes, q);
        assert(spot(f, q) != bare());
    }
    assert forall|i: int|
        0 <= i < f.values_changed.len() && path_text((#[trigger] f.values_changed[i]).0) == path_text(
            path,
        ) implies f.values_changed[i].0 == path by {
        let q: Seq<Seg> = f.values_changed[i].0;
        lemma_lookup(f.values_changed, q);
        assert(spot(f, q) != bare());
    }
    assert forall|i: int|
        0 <= i < f.dictionary_item_added.len() && path_text((#[trigger] f.dictionary_item_added[i]).0) == path_text(
            path,
        ) implies f.dictionary_item_added[i].0 == path by {
        let q: Seq<Seg> = f.dictionary_item_added[i].0;
        lemma_lookup(f.dictionary_item_added, q);
        assert(spot(f, q) != bare());
    }
    assert forall|i: int|
        0 <= i < f.dictionary_item_removed.len() && path_text((#[trigger] f.dictionary_item_removed[i]).0) == path_text(
            path,
        ) implies f.dictionary_item_removed[i].0 == path by {
        let q: Seq<Seg> = f.dictionary_item_removed[i].0;
        lemma_lookup(f.dictionary_item_removed, q);
        assert(spot(f, q) != bare());
    }
    assert forall|i: int|
        0 <= i < f.iterable_item_added.len() && path_text((#[trigger] f.iterable_item_added[i]).0) == path_text(
            path,
        ) implies f.iterable_item_added[i].0 == path by {
        let q: Seq<Seg> = f.iterable_item_added[i].0;
        lemma_lookup(f.iterable_item_added, q);
        assert(spot(f, q) != bare());
    }
    assert forall|i: int|
        0 <= i < f.iterable_item_removed.len() && path_text((#[trigger] f.iterable_item_removed[i]).0) == path_text(
            path,
        ) implies f.iterable_item_removed[i].0 == path by {
        let q: Seq<Seg> = f.iterable_item_removed[i].0;
        lemma_lookup(f.iterable_item_removed, q);
        assert(spot(f, q) != bare());
    }
    assert forall|i: int|
        0 <= i < f.attribute_added.len() && path_text((#[trigger] f.attribute_added[i]).0) == path_text(
            path,
        ) implies f.attribute_added[i].0 == path by {
        let q: Seq<Seg> = f.attribute_added[i].0;
        lemma_lookup(f.attribute_added, q);
        assert(spot(f, q) != bare());
    }
    assert forall|i: int|
        0 <= i < f.attribute_removed.len() && path_text((#[trigger] f.attribute_removed[i]).0) == path_text(
            path,
        ) implies f.attribute_removed[i].0 == path by {
        let q: Seq<Seg> = f.attribute_removed[i].0;
        lemma_lookup(f.attribute_removed, q);
        assert(spot(f, q) != bare());
    }
    assert forall|i: int|
        0 <= i < f.set_item_added.len() && path_text((#[trigger] f.set_item_added[i]).0) == path_text(
            path,
        ) implies f.set_item_added[i].0 == path by {
        let q: Seq<Seg> = f.set_item_added[i].0;
        lemma_lookup(f.set_item_added, q);
        assert(spot(f, q) != bare());
    }
    assert forall|i: int|
        0 <= i < f.set_item_removed.len() && path_text((#[trigger] f.set_item_removed[i]).0) == path_text(
            path,
        ) implies f.set_item_removed[i].0 == path by {
        let q: Seq<Seg> = f.set_item_removed[i].0;
        lemma_lookup(f.set_item_removed, q);
        assert(spot(f, q) != bare());
    }
}

proof fn lemma_raw(found: Found, path: Seq<Seg>)
    requires
        forall|i: int|
            0 <= i < found.len() && path_text((#[trigger] found[i]).0) == path_text(path)
                ==> found[i].0 == path,
    ensures
        under(raw_category(found), path_text(path)) == lookup(found, path),
{
    let list: Seq<(KeyVal, Val)> = Seq::new(
        found.len(),
        |i: int| (KeyVal::Str(path_text(found[i].0)), found[i].1),
    );
    lemma_under(list, path_text(path));
    lemma_rendered(found, list, |v: Val| v, path);
}

proof fn lemma_listed(found: Found, path: Seq<Seg>)
    requires
        forall|i: int|
            0 <= i < found.len() && path_text((#[trigger] found[i]).0) == path_text(path)
                ==> found[i].0 == path,
    ensures
        set_category(found) matches Val::Array(items) && (items.contains(
            Val::Str(path_text(path)),
        ) <==> lookup(found, path) is Some),
{
    let text: Seq<char> = path_text(path);
    let all: Seq<(Seq<char>, ())> = Seq::new(found.len(), |i: int| (path_text(found[i].0), ()));
    let texts: Seq<(Seq<char>, ())> = set_texts(found);
    let items: Seq<Val> = Seq::new(texts.len(), |i: int| Val::Str(texts[i].0));
    lemma_put_all::<String, ()>(seq![], all);
    lemma_lookup(all, text);
    lemma_lookup(texts, text);
    lemma_lookup(found, path);
    assert(set_category(found) == Val::Array(items));
    if items.contains(Val::Str(text)) {
        let i: int = choose|i: int| 0 <= i < items.len() && items[i] == Val::Str(text);
        assert(texts[i].0 == text);
        assert(lookup(texts, text) is Some);
        let k: int = choose|k: int| 0 <= k < all.len() && #[trigger] all[k] == (text, ());
        assert(found[k].0 == path);
    }
    if lookup(found, path) is Some {
        let k: int = choose|k: int|
            0 <= k < found.len() && #[trigger] found[k] == (path, lookup(found, path)->Some_0);
        assert(all[k].0 == text);
        assert(lookup(texts, text) is Some);
        let i: int = choose|i: int| 0 <= i < texts.len() && #[trigger] texts[i] == (text, ());
        assert(items[i] == Val::Str(text));
    }
}

/// What the entry of a changed value holds.
pub proof fn lemma_value_change_laid_out(change: ValueChange)
    ensures
        under(value_change_value(change), "old_value"@) == Some(change.old_value),
        under(value_change_value(change), "new_value"@) == Some(change.new_value),
        under(value_change_value(change), "new_path"@) == text_value(rendered(change.new_path)),
        under(value_change_value(change), "diff"@) == text_value(change.diff),
{
    lemma_field_names();
    let values: Seq<(KeyVal, Val)> = seq![
        (KeyVal::Str("new_value"@), change.new_value),
        (KeyVal::Str("old_value"@), change.old_value),
    ];
    let place: Seq<(KeyVal, Val)> = new_path_entry(change.new_path);
    let diff: Seq<(KeyVal, Val)> = match change.diff {
        None => seq![],
        Some(text) => seq![text_entry("diff"@, text)],
    };
    let list: Seq<(KeyVal, Val)> = values + place + diff;
    lemma_fields(values, place, diff, "old_value"@);
    lemma_fields(values, place, diff, "new_value"@);
    lemma_fields(values, place, diff, "new_path"@);
    lemma_fields(values, place, diff, "diff"@);
    reveal_with_fuel(lookup, 3);
    assert(values.drop_last().drop_last() =~= seq![]);
    if change.new_path is Some {
        assert(place.drop_last() =~= seq![]);
    }
    if change.diff is Some {
        assert(diff.drop_last() =~= seq![]);
    }
}

/// What the entry of a changed type holds.
pub proof fn lemma_type_change_laid_out(change: TypeChange)
    ensures
        under(type_change_value(change), "old_type"@) == Some(Val::Str(change.old_type)),
        under(type_change_value(change), "new_type"@) == Some(Val::Str(change.new_type)),
        under(type_change_value(change), "old_value"@) == Some(change.old_value),
        under(type_change_value(change), "new_value"@) == Some(change.new_value),
        under(type_change_value(change), "new_path"@) == text_value(rendered(change.new_path)),
{
    lemma_field_names();
    let values: Seq<(KeyVal, Val)> = seq![
        text_entry("old_type"@, change.old_type),
        text_entry("new_type"@, change.new_type),
        (KeyVal::Str("old_value"@), change.old_value),
        (KeyVal::Str("new_value"@), change.new_value),
    ];
    let place: Seq<(KeyVal, Val)> = new_path_entry(change.new_path);
    let none: Seq<(KeyVal, Val)> = seq![];
    assert(values + place + none =~= values + place);
    lemma_fields(values, place, none, "old_type"@);
    lemma_fields(values, place, none, "new_type"@);
    lemma_fields(values, place, none, "old_value"@);
    lemma_fields(values, place, none, "new_value"@);
    lemma_fields(values, place, none, "new_path"@);
    reveal_with_fuel(lookup, 5);
    assert(values.drop_last().drop_last().drop_last().drop_last() =~= seq![]);
    if change.new_path is Some {
        assert(place.drop_last() =~= seq![]);
    }
}

proof fn lemma_fields(
    values: Seq<(KeyVal, Val)>,
    place: Seq<(KeyVal, Val)>,
    diff: Seq<(KeyVal, Val)>,
    name: Seq<char>,
)
    ensures
        under(Val::Object(dict_of(values + place + diff)), name) == if lookup(
            diff,
            KeyVal::Str(name),
        ) is Some {
            lookup(diff, KeyVal::Str(name))
        } else if lookup(place, KeyVal::Str(name)) is Some {
            lookup(place, KeyVal::Str(name))
        } else {
            lookup(values, KeyVal::Str(name))
        },
{
    lemma_under(values + place + diff, name);
    lemma_lookup_behind(values + place, diff, KeyVal::Str(name));
    lemma_lookup_behind(values, place, KeyVal::Str(name));
}

/// The names of the fields of a change are different.
proof fn lemma_field_names()
    ensures
        "old_type"@ != "new_type"@,
        "old_type"@ != "old_value"@,
        "old_type"@ != "new_value"@,
        "old_type"@ != "new_path"@,
        "old_type"@ != "diff"@,
        "new_type"@ != "old_value"@,
        "new_type"@ != "new_value"@,
        "new_type"@ != "new_path"@,
        "new_type"@ != "diff"@,
        "old_value"@ != "new_value"@,
        "old_value"@ != "new_path"@,
        "old_value"@ != "diff"@,
        "new_value"@ != "new_path"@,
        "new_value"@ != "diff"@,
        "new_path"@ != "diff"@,
{
    reveal_strlit("old_type");
    reveal_strlit("new_type");
    reveal_strlit("old_value");
    reveal_strlit("new_value");
    reveal_strlit("new_path");
    reveal_strlit("diff");
    assert("old_type"@[0] != "new_type"@[0]);
    assert("old_type"@.len() != "old_value"@.len());
    assert("old_type"@.len() != "new_value"@.len());
    assert("old_type"@[0] != "new_path"@[0]);
    assert("old_type"@.len() != "diff"@.len());
    assert("new_type"@.len() != "old_value"@.len());
    assert("new_type"@.len() != "new_value"@.len());
    assert("new_type"@[4] != "new_path"@[4]);
    assert("new_type"@.len() != "diff"@.len());
    assert("old_value"@[0] != "new_value"@[0]);
    assert("old_value"@.len() != "new_path"@.len());
    assert("old_value"@.len() != "diff"@.len());
    assert("new_value"@.len() != "new_path"@.len());
    assert("new_value"@.len() != "diff"@.len());
    assert("new_path"@.len() != "diff"@.len());
}

/// A report that is given out shows at each path that renders as no other what was found
/// there, each category under its own name: added and removed values by their rendered
/// paths, members of sets as a list of rendered paths, and changes as entries that
/// name the old and the new.
pub proof fn lemma_report_shows(f: Findings, path: Seq<Seg>)
    requires
        rendered_once(f, path),
    ensures
        ({
            let report = report_value(f);
            let at = path_text(path);
            let here = spot(f, path);
            &&& entry_under(report, "dictionary_item_added"@, at) == here.dict_added
            &&& entry_under(report, "dictionary_item_removed"@, at) == here.dict_removed
            &&& entry_under(report, "iterable_item_added"@, at) == here.item_added
            &&& entry_under(report, "iterable_item_removed"@, at) == here.item_removed
            &&& entry_under(report, "attribute_added"@, at) == here.attribute_added
            &&& entry_under(report, "attribute_removed"@, at) == here.attribute_removed
            &&& listed_under(report, "set_item_added"@, at) <==> here.set_added is Some
            &&& listed_under(report, "set_item_removed"@, at) <==> here.set_removed is Some
            &&& entry_under(report, "values_changed"@, at) == match here.value_change {
                Some(change) => Some(value_change_value(change)),
                None => None,
            }
            &&& entry_under(report, "type_changes"@, at) == match here.type_change {
                Some(change) => Some(type_change_value(change)),
                None => None,
            }
        }),
{
    let at: Seq<char> = path_text(path);
    lemma_once(f, path);
    lemma_named_type_changes(f);
    lemma_named_values_changed(f);
    lemma_named_dictionary_item_added(f);
    lemma_named_dictionary_item_removed(f);
    lemma_named_iterable_item_added(f);
    lemma_named_iterable_item_removed(f);
    lemma_named_attribute_added(f);
    lemma_named_attribute_removed(f);
    lemma_named_set_item_added(f);
    lemma_named_set_item_removed(f);
    lemma_raw(f.dictionary_item_added, path);
    lemma_raw(f.dictionary_item_removed, path);
    lemma_raw(f.iterable_item_added, path);
    lemma_raw(f.iterable_item_removed, path);
    lemma_raw(f.attribute_added, path);
    lemma_raw(f.attribute_removed, path);
    lemma_listed(f.set_item_added, path);
    lemma_listed(f.set_item_removed, path);
    lemma_values_shown(f.values_changed, path);
    lemma_types_shown(f.type_changes, path);
    assert(spot(f, path) == Spot {
        type_change: lookup(f.type_changes, path),
        value_change: lookup(f.values_changed, path),
        dict_added: lookup(f.dictionary_item_added, path),
        dict_removed: lookup(f.dictionary_item_removed, path),
        item_added: lookup(f.iterable_item_added, path),
        item_removed: lookup(f.iterable_item_removed, path),
        attribute_added: lookup(f.attribute_added, path),
        attribute_removed: lookup(f.attribute_removed, path),
        set_added: lookup(f.set_item_added, path),
        set_removed: lookup(f.set_item_removed, path),
    }) by {
        reveal(spot);
    }
}

proof fn lemma_values_shown(found: Seq<(Seq<Seg>, ValueChange)>, path: Seq<Seg>)
    requires
        forall|i: int|
            0 <= i < found.len() && path_text((#[trigger] found[i]).0) == path_text(path)
                ==> found[i].0 == path,
    ensures
        under(value_category(found), path_text(path)) == match lookup(found, path) {
            Some(change) => Some(value_change_value(change)),
            None => None,
        },
{
    let list: Seq<(KeyVal, Val)> = Seq::new(
        found.len(),
        |i: int| (KeyVal::Str(path_text(found[i].0)), value_change_value(found[i].1)),
    );
    lemma_under(list, path_text(path));
    lemma_rendered(found, list, |c: ValueChange| value_change_value(c), path);
}

proof fn lemma_types_shown(found: Seq<(Seq<Seg>, TypeChange)>, path: Seq<Seg>)
    requires
        forall|i: int|
            0 <= i < found.len() && path_text((#[trigger] found[i]).0) == path_text(path)
                ==> found[i].0 == path,
    ensures
        under(type_category(found), path_text(path)) == match lookup(found, path) {
            Some(change) => Some(type_change_value(change)),
            None => None,
        },
{
    let list: Seq<(KeyVal, Val)> = Seq::new(
        found.len(),
        |i: int| (KeyVal::Str(path_text(found[i].0)), type_change_value(found[i].1)),
    );
    lemma_under(list, path_text(path));
    lemma_rendered(found, list, |c: TypeChange| type_change_value(c), path);
}

proof fn lemma_named_type_changes(f: Findings)
    ensures
        under(report_value(f), "type_changes"@) == if f.type_changes.len() > 0 {
            Some(type_category(f.type_changes))
        } else {
            None
        },
{
    lemma_names();
    lemma_category(f, "type_changes"@);
}

proof fn lemma_named_values_changed(f: Findings)
    ensures
        under(report_value(f), "values_changed"@) == if f.values_changed.len() > 0 {
            Some(value_category(f.values_changed))
        } else {
            None
        },
{
    lemma_names();
    lemma_category(f, "values_changed"@);
}

proof fn lemma_named_dictionary_item_added(f: Findings)
    ensures
        under(report_value(f), "dictionary_item_added"@) == if f.dictionary_item_added.len() > 0 {
            Some(raw_category(f.dictionary_item_added))
        } else {
            None
        },
{
    lemma_names();
    lemma_category(f, "dictionary_item_added"@);
}

proof fn lemma_named_dictionary_item_removed(f: Findings)
    ensures
        under(report_value(f), "dictionary_item_removed"@) == if f.dictionary_item_removed.len() > 0 {
            Some(raw_category(f.dictionary_item_removed))
        } else {
            None
        },
{
    lemma_names();
    lemma_category(f, "dictionary_item_removed"@);
}

proof fn lemma_named_iterable_item_added(f: Findings)
    ensures
        under(report_value(f), "iterable_item_added"@) == if f.iterable_item_added.len() > 0 {
            Some(raw_category(f.iterable_item_added))
        } else {
            None
        },
{
    lemma_names();
    lemma_category(f, "iterable_item_added"@);
}

proof fn lemma_named_iterable_item_removed(f: Findings)
    ensures
        under(report_value(f), "iterable_item_removed"@) == if f.iterable_item_removed.len() > 0 {
            Some(raw_category(f.iterable_item_removed))
        } else {
            None
        },
{
    lemma_names();
    lemma_category(f, "iterable_item_removed"@);
}

proof fn lemma_named_attribute_added(f: Findings)
    ensures
        under(report_value(f), "attribute_added"@) == if f.attribute_added.len() > 0 {
            Some(raw_category(f.attribute_added))
        } else {
            None
        },
{
    lemma_names();
    lemma_category(f, "attribute_added"@);
}

proof fn lemma_named_attribute_removed(f: Findings)
    ensures
        under(report_value(f), "attribute_removed"@) == if f.attribute_removed.len() > 0 {
            Some(raw_category(f.attribute_removed))
        } else {
            None
        },
{
    lemma_names();
    lemma_category(f, "attribute_removed"@);
}

proof fn lemma_named_set_item_added(f: Findings)
    ensures
        under(report_value(f), "set_item_added"@) == if f.set_item_added.len() > 0 {
            Some(set_category(f.set_item_added))
        } else {
            None
        },
{
    lemma_names();
    lemma_category(f, "set_item_added"@);
}

proof fn lemma_named_set_item_removed(f: Findings)
    ensures
        under(report_value(f), "set_item_removed"@) == if f.set_item_removed.len() > 0 {
            Some(set_category(f.set_item_removed))
        } else {
            None
        },
{
    lemma_names();
    lemma_category(f, "set_item_removed"@);
}

// ---------------------------------------------------------------------
// Rendered paths
// ---------------------------------------------------------------------

/// The number that decimal digits write.
pub open spec fn read_digits(digits: Seq<char>) -> int
    decreases digits.len(),
{
    if digits.len() == 0 {
        0
    } else {
        read_digits(digits.drop_last()) * 10 + (digits.last() as int - 48)
    }
}

/// Whether characters are the digits of a number, without leading zeros.
pub open spec fn writes(digits: Seq<char>, n: int) -> bool {
    &&& digits.len() > 0
    &&& forall|i: int| 0 <= i < digits.len() ==> 48 <= (#[trigger] digits[i]) as int <= 57
    &&& digits.len() > 1 ==> digits[0] != '0'
    &&& read_digits(digits) == n
}

/// Decimal digits write their number.
pub proof fn lemma_decimal_writes(n: nat)
    ensures
        writes(decimal(n), n as int),
        n > 0 ==> decimal(n)[0] != '0',
    decreases n,
{
    reveal_with_fuel(read_digits, 2);
    let digits: Seq<char> = decimal(n);
    if n < 10 {
        assert(digits.drop_last() =~= seq![]);
    } else {
        lemma_decimal_writes(n / 10);
        assert(digits.drop_last() =~= decimal(n / 10));
        assert forall|i: int| 0 <= i < digits.len() implies 48 <= (#[trigger] digits[i]) as int
            <= 57 by {
            if i < digits.len() - 1 {
                assert(digits[i] == decimal(n / 10)[i]);
            }
        }
        assert(digits[0] == decimal(n / 10)[0]);
    }
}

/// How the steps of a path are rendered behind `root`: a key between brackets and
/// quotes, which are single unless the key holds a single quote, and as it is; a position
/// between brackets in decimal digits; and an attribute behind a dot.
pub proof fn lemma_steps_rendered(path: Seq<Seg>, key: Seq<char>, index: nat)
    ensures
        path_text(seq![]) == seq!['r', 'o', 'o', 't'],
        path_text(path.push(Seg::Key(key))) == path_text(path) + (if key.contains('\'') {
            seq!['[', '"'] + key + seq!['"', ']']
        } else {
            seq!['[', '\''] + key + seq!['\'', ']']
        }),
        exists|digits: Seq<char>| #[trigger]
            writes(digits, index as int) && path_text(path.push(Seg::Index(index as int)))
                == path_text(path) + seq!['['] + digits + seq![']'],
        path_text(path.push(Seg::Attribute(key))) == path_text(path) + seq!['.'] + key,
{
    reveal_strlit("root");
    lemma_path_extends(path, Seg::Key(key));
    lemma_path_extends(path, Seg::Index(index as int));
    lemma_path_extends(path, Seg::Attribute(key));
    lemma_decimal_writes(index);
    assert(path_text(seq![]) =~= seq!['r', 'o', 'o', 't']);
    assert(path_text(path.push(Seg::Key(key))) =~= path_text(path) + (if key.contains('\'') {
        seq!['[', '"'] + key + seq!['"', ']']
    } else {
        seq!['[', '\''] + key + seq!['\'', ']']
    }));
    assert(path_text(path.push(Seg::Index(index as int))) =~= path_text(path) + seq!['[']
        + decimal(index) + seq![']']);
    assert(path_text(path.push(Seg::Attribute(key))) =~= path_text(path) + seq!['.'] + key);
}

/// An integer without its sign.
pub open spec fn unsigned_size(n: Number) -> int {
    if n.integer() < 0 {
        -n.integer()
    } else {
        n.integer()
    }
}

/// An integer is written as its digits, behind a minus if it is negative.
pub proof fn lemma_integer_written(n: Number)
    requires
        !n.is_float(),
    ensures
        exists|digits: Seq<char>| #[trigger]
            writes(digits, unsigned_size(n)) && number_text(n) == (if n.integer() < 0 {
                seq!['-']
            } else {
                seq![]
            }) + digits,
{
    let size: nat = unsigned_size(n) as nat;
    lemma_decimal_writes(size);
    assert(number_text(n) =~= (if n.integer() < 0 {
        seq!['-']
    } else {
        seq![]
    }) + decimal(size));
}

/// How members of sets are named: a text between single quotes and as it is, `None`,
/// `True` and `False`, and a number as it is written.
pub proof fn lemma_members_named(text: Seq<char>, n: Number)
    ensures
        item_text(Val::Str(text)) == seq!['\''] + text + seq!['\''],
        item_text(Val::Null) == seq!['N', 'o', 'n', 'e'],
        item_text(Val::Bool(true)) == seq!['T', 'r', 'u', 'e'],
        item_text(Val::Bool(false)) == seq!['F', 'a', 'l', 's', 'e'],
        item_text(Val::Number(n)) == number_text(n),
{
    reveal_strlit("None");
    reveal_strlit("True");
    reveal_strlit("False");
    assert(item_text(Val::Null) =~= seq!['N', 'o', 'n', 'e']);
    assert(item_text(Val::Bool(true)) =~= seq!['T', 'r', 'u', 'e']);
    assert(item_text(Val::Bool(false)) =~= seq!['F', 'a', 'l', 's', 'e']);
}

} // verus!
