//! Reports and the layout in which they are given out.

use onix_core::path::{python_repr, PathSegment};
use onix_core::report::{Report, TypeChangeEntry, ValuesChangedEntry};
use onix_core::value::{Number, Object as CObject, ObjectKey, Value as CValue};
use serde_json::Value as Json;

/// A JSON object.
fn json_object(entries: Vec<(&str, Json)>) -> Json {
    Json::Object(
        entries
            .into_iter()
            .map(|(key, value)| (key.to_string(), value))
            .collect(),
    )
}

/// The number that a float is.
fn float_number(f: f64) -> Number {
    Number::from_f64(f.to_bits()).unwrap()
}

/// The number that a JSON number is.
fn cnum(n: &serde_json::Number) -> Number {
    if let Some(u) = n.as_u64() {
        Number::from_u64(u)
    } else if let Some(i) = n.as_i64() {
        Number::from_i64(i)
    } else {
        float_number(n.as_f64().unwrap())
    }
}

/// The value that a JSON value is.
fn cv(value: &Json) -> CValue {
    match value {
        Json::Null => CValue::Null,
        Json::Bool(b) => CValue::Bool(*b),
        Json::Number(n) => CValue::Number(cnum(n)),
        Json::String(s) => CValue::Str(s.clone()),
        Json::Array(items) => CValue::Array(cvec(items)),
        Json::Object(map) => CValue::Object(cobj(map)),
    }
}

/// The values that JSON values are.
fn cvec(items: &[Json]) -> Vec<CValue> {
    items.iter().map(cv).collect()
}

/// The dict that a JSON object is.
fn cobj(map: &serde_json::Map<String, Json>) -> CObject {
    CObject::from_pairs(
        map.iter()
            .map(|(key, value)| (ObjectKey::Str(key.clone()), cv(value)))
            .collect(),
    )
}

/// The text under a key, as JSON has it.
fn key_text(key: &ObjectKey) -> String {
    match key {
        ObjectKey::Str(s) => s.clone(),
        ObjectKey::Other(value) => python_repr(value),
    }
}

/// A value as JSON has it.
fn json_of(value: &CValue) -> Json {
    match value {
        CValue::Null => Json::Null,
        CValue::Bool(b) => Json::Bool(*b),
        CValue::Number(Number::Int(i)) => Json::from(*i),
        CValue::Number(Number::Uint(u)) => Json::from(*u),
        CValue::Number(Number::Float(f)) => Json::from(f64::from_bits(f.bits)),
        CValue::Str(s) => Json::from(s.as_str()),
        CValue::DateTime(d) => Json::from(d.isoformat()),
        CValue::Date(d) => Json::from(d.isoformat()),
        CValue::Time(t) => Json::from(t.isoformat()),
        CValue::TimeDelta(d) => Json::from(
            d.whole_seconds() as f64 + d.microseconds() as f64 / 1_000_000.0,
        ),
        CValue::Array(items) | CValue::Tuple(items) => {
            Json::Array(items.iter().map(json_of).collect())
        }
        CValue::MutableSet(items) | CValue::FrozenSet(items) => {
            Json::Array(items.to_vec().iter().map(json_of).collect())
        }
        CValue::Object(object) => Json::Object(
            (0..object.len())
                .map(|i| (key_text(object.key_at(i)), json_of(object.value_at(i))))
                .collect(),
        ),
    }
}

/// Reports as JSON has them.
trait ToJson {
    fn to_json_value(&self) -> Json;
}

impl ToJson for Report {
    fn to_json_value(&self) -> Json {
        json_of(&self.to_value())
    }
}

/// The entry of an object under a text.
fn entry_under<'a>(object: &'a CObject, key: &str) -> Option<&'a CValue> {
    object
        .position(&ObjectKey::Str(key.to_string()))
        .map(|i| object.value_at(i))
}

fn ctup(items: &[Json]) -> CValue {
    CValue::Tuple(cvec(items))
}

fn key_path(name: &str) -> Vec<PathSegment> {
    vec![PathSegment::Key(name.to_string())]
}

fn index_path(i: usize) -> Vec<PathSegment> {
    vec![PathSegment::Index(i)]
}

#[test]
fn new_report_is_empty() {
    let report = Report::new();
    assert!(report.is_empty());
}

#[test]
fn default_report_is_empty() {
    let report = Report::default();
    assert!(report.is_empty());
}

#[test]
fn empty_report_serializes_to_empty_object() {
    let report = Report::new();
    assert_eq!(report.to_json_value(), json_object(Vec::new()));
}

#[test]
fn values_changed_entry_is_not_empty_and_serializes_exactly() {
    let mut report = Report::new();
    report.insert_values_changed(
        Vec::new(),
        ValuesChangedEntry {
            old_value: cv(&Json::from(1)),
            new_value: cv(&Json::from(2)),
            new_path: None, diff: None },
    );

    assert!(!report.is_empty());
    assert_eq!(
        report.to_json_value(),
        json_object(vec![("values_changed", json_object(vec![("root", json_object(vec![("new_value", Json::from(2)), ("old_value", Json::from(1))]))]))])
    );
}

#[test]
fn type_change_entry_is_not_empty_and_serializes_exactly() {
    let mut report = Report::new();
    report.insert_type_change(
        Vec::new(),
        TypeChangeEntry {
            old_type: "int".to_string(),
            new_type: "str".to_string(),
            old_value: cv(&Json::from(1)),
            new_value: cv(&Json::from("1")),
            new_path: None,
        },
    );

    assert!(!report.is_empty());
    assert_eq!(
        report.to_json_value(),
        json_object(vec![("type_changes", json_object(vec![("root", json_object(vec![("old_type", Json::from("int")), ("new_type", Json::from("str")), ("old_value", Json::from(1)), ("new_value", Json::from("1"))]))]))])
    );
}

#[test]
fn both_categories_present_omits_neither() {
    let mut report = Report::new();
    report.insert_type_change(
        key_path("a"),
        TypeChangeEntry {
            old_type: "int".to_string(),
            new_type: "float".to_string(),
            old_value: cv(&Json::from(1)),
            new_value: cv(&Json::from(1.5)),
            new_path: None,
        },
    );
    report.insert_values_changed(
        key_path("b"),
        ValuesChangedEntry {
            old_value: cv(&Json::from("x")),
            new_value: cv(&Json::from("y")),
            new_path: None, diff: None },
    );

    let value = report.to_json_value();
    assert_eq!(value.as_object().unwrap().len(), 2);
    assert!(value.get("type_changes").is_some());
    assert!(value.get("values_changed").is_some());
}

#[test]
fn dictionary_item_added_entry_is_not_empty_and_serializes_to_raw_value() {
    let mut report = Report::new();
    report.insert_dictionary_item_added(key_path("c"), cv(&Json::from(3)));

    assert!(!report.is_empty());
    assert_eq!(
        report.to_json_value(),
        json_object(vec![("dictionary_item_added", json_object(vec![("root['c']", Json::from(3))]))])
    );
}

#[test]
fn dictionary_item_removed_entry_is_not_empty_and_serializes_to_raw_value() {
    let mut report = Report::new();
    report.insert_dictionary_item_removed(key_path("b"), cv(&Json::from(2)));

    assert!(!report.is_empty());
    assert_eq!(
        report.to_json_value(),
        json_object(vec![("dictionary_item_removed", json_object(vec![("root['b']", Json::from(2))]))])
    );
}

#[test]
fn iterable_item_added_entry_is_not_empty_and_serializes_to_raw_value() {
    let mut report = Report::new();
    report.insert_iterable_item_added(index_path(3), cv(&Json::from("x")));

    assert!(!report.is_empty());
    assert_eq!(
        report.to_json_value(),
        json_object(vec![("iterable_item_added", json_object(vec![("root[3]", Json::from("x"))]))])
    );
}

#[test]
fn iterable_item_removed_entry_is_not_empty_and_serializes_to_raw_value() {
    let mut report = Report::new();
    report.insert_iterable_item_removed(index_path(2), cv(&Json::from("y")));

    assert!(!report.is_empty());
    assert_eq!(
        report.to_json_value(),
        json_object(vec![("iterable_item_removed", json_object(vec![("root[2]", Json::from("y"))]))])
    );
}

#[test]
fn all_six_categories_present_omits_none() {
    let mut report = Report::new();
    report.insert_type_change(
        key_path("a"),
        TypeChangeEntry {
            old_type: "int".to_string(),
            new_type: "float".to_string(),
            old_value: cv(&Json::from(1)),
            new_value: cv(&Json::from(1.5)),
            new_path: None,
        },
    );
    report.insert_values_changed(
        key_path("b"),
        ValuesChangedEntry {
            old_value: cv(&Json::from("x")),
            new_value: cv(&Json::from("y")),
            new_path: None, diff: None },
    );
    report.insert_dictionary_item_added(key_path("c"), cv(&Json::from(3)));
    report.insert_dictionary_item_removed(key_path("d"), cv(&Json::from(4)));
    report.insert_iterable_item_added(index_path(0), cv(&Json::from(5)));
    report.insert_iterable_item_removed(index_path(1), cv(&Json::from(6)));

    let value = report.to_json_value();
    assert_eq!(value.as_object().unwrap().len(), 6);
    assert!(value.get("type_changes").is_some());
    assert!(value.get("values_changed").is_some());
    assert!(value.get("dictionary_item_added").is_some());
    assert!(value.get("dictionary_item_removed").is_some());
    assert!(value.get("iterable_item_added").is_some());
    assert!(value.get("iterable_item_removed").is_some());
}

#[test]
fn finding_count_sums_every_category_distinctly() {
    let mut report = Report::new();
    for i in 0..2 {
        report.insert_type_change(
            index_path(i),
            TypeChangeEntry {
                old_type: "int".to_string(),
                new_type: "float".to_string(),
                old_value: cv(&Json::from(1)),
                new_value: cv(&Json::from(1.5)),
                new_path: None,
            },
        );
    }
    for i in 0..3 {
        report.insert_values_changed(
            index_path(i),
            ValuesChangedEntry {
                old_value: cv(&Json::from("x")),
                new_value: cv(&Json::from("y")),
                new_path: None, diff: None },
        );
    }
    for i in 0..4 {
        report.insert_dictionary_item_added(index_path(i), cv(&Json::from(1)));
    }
    for i in 0..5 {
        report.insert_dictionary_item_removed(index_path(i), cv(&Json::from(1)));
    }
    for i in 0..6 {
        report.insert_iterable_item_added(index_path(i), cv(&Json::from(1)));
    }
    for i in 0..7 {
        report.insert_iterable_item_removed(index_path(i), cv(&Json::from(1)));
    }

    assert_eq!(report.finding_count(), 2 + 3 + 4 + 5 + 6 + 7);
}

#[test]
fn merge_combines_findings_from_both_reports() {
    let mut left = Report::new();
    left.insert_dictionary_item_added(key_path("a"), cv(&Json::from(1)));

    let mut right = Report::new();
    right.insert_dictionary_item_removed(key_path("b"), cv(&Json::from(2)));

    left.merge(right);

    assert_eq!(
        left.to_json_value(),
        json_object(vec![("dictionary_item_added", json_object(vec![("root['a']", Json::from(1))])), ("dictionary_item_removed", json_object(vec![("root['b']", Json::from(2))]))])
    );
}

#[test]
fn merge_combines_iterable_findings_from_both_reports() {
    let mut left = Report::new();
    left.insert_iterable_item_removed(index_path(3), cv(&Json::from("y")));

    let mut right = Report::new();
    right.insert_iterable_item_added(index_path(2), cv(&Json::from("x")));
    right.insert_iterable_item_removed(index_path(4), cv(&Json::from("z")));

    left.merge(right);

    assert_eq!(
        left.to_json_value(),
        json_object(vec![("iterable_item_added", json_object(vec![("root[2]", Json::from("x"))])), ("iterable_item_removed", json_object(vec![("root[3]", Json::from("y")), ("root[4]", Json::from("z"))]))])
    );
}

#[test]
fn merging_two_empty_reports_stays_empty() {
    let mut left = Report::new();
    left.merge(Report::new());
    assert!(left.is_empty());
}

#[test]
fn multiple_paths_in_same_category_are_sorted_by_path() {
    let mut report = Report::new();
    report.insert_values_changed(
        key_path("b"),
        ValuesChangedEntry {
            old_value: cv(&Json::from(1)),
            new_value: cv(&Json::from(2)),
            new_path: None, diff: None },
    );
    report.insert_values_changed(
        key_path("a"),
        ValuesChangedEntry {
            old_value: cv(&Json::from(3)),
            new_value: cv(&Json::from(4)),
            new_path: None, diff: None },
    );

    let value = report.to_json_value();
    let keys: Vec<&String> = value["values_changed"]
        .as_object()
        .unwrap()
        .keys()
        .collect();
    assert_eq!(keys, vec!["root['a']", "root['b']"]);
}

#[test]
fn retag_new_path_swaps_prefix_segment_and_keeps_suffix() {
    let mut report = Report::new();
    report.insert_values_changed(
        vec![PathSegment::Index(0), PathSegment::Key("x".to_string())],
        ValuesChangedEntry {
            old_value: cv(&Json::from(1)),
            new_value: cv(&Json::from(2)),
            new_path: None, diff: None },
    );

    report.retag_new_path(0, 3);

    let value = report.to_json_value();
    assert_eq!(
        value,
        json_object(vec![("values_changed", json_object(vec![("root[0]['x']", json_object(vec![("new_value", Json::from(2)), ("old_value", Json::from(1)), ("new_path", Json::from("root[3]['x']"))]))]))])
    );
}

#[test]
fn retag_new_path_also_retags_type_changes() {
    let mut report = Report::new();
    report.insert_type_change(
        index_path(0),
        TypeChangeEntry {
            old_type: "int".to_string(),
            new_type: "str".to_string(),
            old_value: cv(&Json::from(1)),
            new_value: cv(&Json::from("1")),
            new_path: None,
        },
    );

    report.retag_new_path(0, 5);

    let value = report.to_json_value();
    assert_eq!(value["type_changes"]["root[0]"]["new_path"], "root[5]");
}

#[test]
fn retag_new_path_composes_with_an_already_set_new_path() {
    let mut report = Report::new();
    report.insert_values_changed(
        vec![PathSegment::Index(0), PathSegment::Index(2)],
        ValuesChangedEntry {
            old_value: cv(&Json::from(1)),
            new_value: cv(&Json::from(2)),
            new_path: Some(vec![PathSegment::Index(0), PathSegment::Index(1)]), diff: None },
    );

    report.retag_new_path(0, 1);

    assert_eq!(
        report.to_json_value()["values_changed"]["root[0][2]"]["new_path"],
        "root[1][1]"
    );
}

#[test]
fn two_structural_paths_rendering_identically_collapse_without_panicking() {
    let mut k1_then_k2 = String::new();
    k1_then_k2.push('p');
    k1_then_k2.push('\'');
    let k1 = k1_then_k2.clone();
    let mut k2 = String::new();
    k2.push('q');
    k2.push('\'');

    let mut flat_key = String::new();
    flat_key.push('p');
    flat_key.push('\'');
    flat_key.push('"');
    flat_key.push(']');
    flat_key.push('[');
    flat_key.push('"');
    flat_key.push('q');
    flat_key.push('\'');

    let flat = key_path(&flat_key);
    let nested = vec![PathSegment::Key(k1), PathSegment::Key(k2)];
    assert_eq!(
        onix_core::path::render_path(&flat),
        onix_core::path::render_path(&nested),
        "test fixture assumption: these two structural paths must render identically",
    );

    let mut report = Report::new();
    report.insert_values_changed(
        flat,
        ValuesChangedEntry {
            old_value: cv(&Json::from(1)),
            new_value: cv(&Json::from(2)),
            new_path: None, diff: None },
    );
    report.insert_values_changed(
        nested,
        ValuesChangedEntry {
            old_value: cv(&Json::from(10)),
            new_value: cv(&Json::from(20)),
            new_path: None, diff: None },
    );

    let value = report.to_json_value();
    let category = value["values_changed"].as_object().unwrap();
    assert_eq!(category.len(), 1);
    assert!(category.contains_key("root[\"p'\"][\"q'\"]"));
}

#[test]
fn to_value_preserves_a_tuple_that_to_json_value_flattens_to_an_array() {
    let mut report = Report::new();
    report.insert_dictionary_item_added(key_path("s"), ctup(&[Json::from(1), Json::from(2)]));
    report.insert_values_changed(
        index_path(0),
        ValuesChangedEntry {
            old_value: ctup(&[Json::from(1)]),
            new_value: cv(&Json::Array(vec![Json::from(1)])),
            new_path: None, diff: None },
    );

    let rendered = report.to_value();
    let CValue::Object(root) = &rendered else {
        panic!("a report renders to an object");
    };
    let CValue::Object(added) = entry_under(root, "dictionary_item_added").expect("category present") else {
        panic!("a category renders to an object");
    };
    assert!(matches!(
        entry_under(added, "root['s']").expect("path present"),
        CValue::Tuple(_)
    ));
    let CValue::Object(changed) = entry_under(root, "values_changed").expect("category present") else {
        panic!("a category renders to an object");
    };
    let CValue::Object(entry) = entry_under(changed, "root[0]").expect("path present") else {
        panic!("an entry renders to an object");
    };
    assert!(matches!(
        entry_under(entry, "old_value").expect("old_value present"),
        CValue::Tuple(_)
    ));
    assert!(matches!(
        entry_under(entry, "new_value").expect("new_value present"),
        CValue::Array(_)
    ));

    assert_eq!(
        report.to_json_value(),
        json_object(vec![("dictionary_item_added", json_object(vec![("root['s']", Json::Array(vec![Json::from(1), Json::from(2)]))])), ("values_changed", json_object(vec![("root[0]", json_object(vec![("new_value", Json::Array(vec![Json::from(1)])), ("old_value", Json::Array(vec![Json::from(1)]))]))]))])
    );
}

#[test]
fn the_two_renderings_agree_on_every_category() {
    let mut report = Report::new();
    report.insert_values_changed(
        index_path(0),
        ValuesChangedEntry {
            old_value: cv(&Json::from(1)),
            new_value: cv(&Json::from(2)),
            new_path: Some(index_path(3)), diff: None },
    );
    report.insert_type_change(
        key_path("t"),
        TypeChangeEntry {
            old_type: "tuple".to_string(),
            new_type: "list".to_string(),
            old_value: ctup(&[Json::from(1)]),
            new_value: cv(&Json::Array(vec![Json::from(1)])),
            new_path: Some(key_path("t2")),
        },
    );
    report.insert_dictionary_item_added(key_path("a"), ctup(&[Json::from(1), Json::from("x")]));
    report.insert_dictionary_item_removed(key_path("r"), cv(&json_object(vec![("k", Json::Array(vec![Json::from(1), Json::from(2)]))])));
    report.insert_iterable_item_added(index_path(7), cv(&Json::Null));
    report.insert_iterable_item_removed(index_path(8), ctup(&[]));

    assert_eq!(report.to_json_value(), json_of(&report.to_value()));
}

fn set_item_path(item: &str) -> Vec<PathSegment> {
    vec![PathSegment::SetItem(item.to_string())]
}

#[test]
fn set_categories_serialize_as_arrays_of_path_strings() {
    let mut report = Report::new();
    report.insert_set_item_removed(set_item_path("1"), cv(&Json::from(1)));
    report.insert_set_item_added(set_item_path("'b'"), cv(&Json::from("b")));

    let expected = json_object(vec![("set_item_added", Json::Array(vec![Json::from("root['b']")])), ("set_item_removed", Json::Array(vec![Json::from("root[1]")]))]);
    assert_eq!(report.to_json_value(), expected);
    assert_eq!(json_of(&report.to_value()), expected);
}

#[test]
fn empty_set_categories_are_omitted() {
    let mut report = Report::new();
    report.insert_set_item_added(set_item_path("1"), cv(&Json::from(1)));

    assert_eq!(
        report.to_json_value(),
        json_object(vec![("set_item_added", Json::Array(vec![Json::from("root[1]")]))])
    );
}

#[test]
fn set_entries_are_sorted_by_rendered_path_string() {
    let mut report = Report::new();
    for key in ["it's", "a", "b"] {
        report.insert_set_item_added(
            vec![
                PathSegment::Key(key.to_string()),
                PathSegment::SetItem("1".to_string()),
            ],
            cv(&Json::from(1)),
        );
    }

    assert_eq!(
        report.to_json_value(),
        json_object(vec![("set_item_added", Json::Array(vec![Json::from("root[\"it's\"][1]"), Json::from("root['a'][1]"), Json::from("root['b'][1]")]))])
    );
}

#[test]
fn set_entries_rendering_identically_collapse_to_one() {
    let mut flat_key = String::new();
    flat_key.push('p');
    flat_key.push('\'');
    flat_key.push('"');
    flat_key.push(']');
    flat_key.push('[');
    flat_key.push('"');
    flat_key.push('q');
    flat_key.push('\'');

    let item = PathSegment::SetItem("1".to_string());
    let flat = vec![PathSegment::Key(flat_key), item.clone()];
    let nested = vec![
        PathSegment::Key("p'".to_string()),
        PathSegment::Key("q'".to_string()),
        item,
    ];
    assert_eq!(
        onix_core::path::render_path(&flat),
        onix_core::path::render_path(&nested),
        "test fixture assumption: these two structural paths must render identically",
    );

    let mut report = Report::new();
    report.insert_set_item_added(flat, cv(&Json::from(1)));
    report.insert_set_item_added(nested, cv(&Json::from(1)));

    let rendered = report.to_json_value();
    assert_eq!(
        rendered["set_item_added"]
            .as_array()
            .expect("an array")
            .len(),
        1
    );
    assert_eq!(rendered, json_of(&report.to_value()));
}

#[test]
fn set_categories_count_toward_emptiness_and_finding_count() {
    let mut report = Report::new();
    assert!(report.is_empty());

    report.insert_set_item_added(set_item_path("1"), cv(&Json::from(1)));
    assert!(!report.is_empty());
    assert_eq!(report.finding_count(), 1);

    report.insert_set_item_removed(set_item_path("2"), cv(&Json::from(2)));
    assert_eq!(report.finding_count(), 2);
}

#[test]
fn merging_carries_set_categories_over() {
    let mut report = Report::new();
    report.insert_set_item_added(set_item_path("1"), cv(&Json::from(1)));

    let mut other = Report::new();
    other.insert_set_item_removed(set_item_path("2"), cv(&Json::from(2)));
    report.merge(other);

    assert_eq!(
        report.to_json_value(),
        json_object(vec![("set_item_added", Json::Array(vec![Json::from("root[1]")])), ("set_item_removed", Json::Array(vec![Json::from("root[2]")]))])
    );
}

#[test]
fn set_findings_contribute_their_item_length_to_the_distance() {
    let mut report = Report::new();
    report.insert_set_item_added(set_item_path("(1, 2)"), cv(&Json::Array(vec![Json::from(1), Json::from(2)])));
    report.insert_set_item_removed(set_item_path("1"), cv(&Json::from(1)));

    assert_eq!(report.distance_leaf_length(), 3);
}
