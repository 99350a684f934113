//! Comparing two values.

use onix_core::diff::DEFAULT_MAX_DEPTH;
use onix_core::error::Error;
use onix_core::path::{python_repr, PathSegment};
use onix_core::report::Report;
use onix_core::value::{
    Number as CNumber, Object as CObject, ObjectKey, SetItems, Value as CValue,
};
use onix_core::{Date, DateTime};
use serde_json::{Number, Value};
use serde_json::Value as Json;

/// A JSON object.
fn json_object(entries: Vec<(&str, Json)>) -> Json {
    Json::Object(
        entries
            .into_iter()
            .map(|(key, value)| (key.to_string(), value))
            .collect(),
    )
}

/// The number that a float is.
fn float_number(f: f64) -> CNumber {
    CNumber::from_f64(f.to_bits()).unwrap()
}

/// The number that a JSON number is.
fn cnum(n: &serde_json::Number) -> CNumber {
    if let Some(u) = n.as_u64() {
        CNumber::from_u64(u)
    } else if let Some(i) = n.as_i64() {
        CNumber::from_i64(i)
    } else {
        float_number(n.as_f64().unwrap())
    }
}

/// The value that a JSON value is.
fn cv(value: &Json) -> CValue {
    match value {
        Json::Null => CValue::Null,
        Json::Bool(b) => CValue::Bool(*b),
        Json::Number(n) => CValue::Number(cnum(n)),
        Json::String(s) => CValue::Str(s.clone()),
        Json::Array(items) => CValue::Array(cvec(items)),
        Json::Object(map) => CValue::Object(cobj(map)),
    }
}

/// The values that JSON values are.
fn cvec(items: &[Json]) -> Vec<CValue> {
    items.iter().map(cv).collect()
}

/// The dict that a JSON object is.
fn cobj(map: &serde_json::Map<String, Json>) -> CObject {
    CObject::from_pairs(
        map.iter()
            .map(|(key, value)| (ObjectKey::Str(key.clone()), cv(value)))
            .collect(),
    )
}

/// The text under a key, as JSON has it.
fn key_text(key: &ObjectKey) -> String {
    match key {
        ObjectKey::Str(s) => s.clone(),
        ObjectKey::Other(value) => python_repr(value),
    }
}

/// A value as JSON has it.
fn json_of(value: &CValue) -> Json {
    match value {
        CValue::Null => Json::Null,
        CValue::Bool(b) => Json::Bool(*b),
        CValue::Number(CNumber::Int(i)) => Json::from(*i),
        CValue::Number(CNumber::Uint(u)) => Json::from(*u),
        CValue::Number(CNumber::Float(f)) => Json::from(f64::from_bits(f.bits)),
        CValue::Str(s) => Json::from(s.as_str()),
        CValue::DateTime(d) => Json::from(d.isoformat()),
        CValue::Date(d) => Json::from(d.isoformat()),
        CValue::Time(t) => Json::from(t.isoformat()),
        CValue::TimeDelta(d) => Json::from(
            d.whole_seconds() as f64 + d.microseconds() as f64 / 1_000_000.0,
        ),
        CValue::Array(items) | CValue::Tuple(items) => {
            Json::Array(items.iter().map(json_of).collect())
        }
        CValue::MutableSet(items) | CValue::FrozenSet(items) => {
            Json::Array(items.to_vec().iter().map(json_of).collect())
        }
        CValue::Object(object) => Json::Object(
            (0..object.len())
                .map(|i| (key_text(object.key_at(i)), json_of(object.value_at(i))))
                .collect(),
        ),
    }
}

/// Reports as JSON has them.
trait ToJson {
    fn to_json_value(&self) -> Json;
}

impl ToJson for Report {
    fn to_json_value(&self) -> Json {
        json_of(&self.to_value())
    }
}

fn ctup(items: &[Json]) -> CValue {
    CValue::Tuple(cvec(items))
}

fn cset(items: &[Json]) -> CValue {
    CValue::MutableSet(SetItems::new(cvec(items)))
}

fn cfrozen(items: &[Json]) -> CValue {
    CValue::FrozenSet(SetItems::new(cvec(items)))
}

fn cdate(year: i32, month: u8, day: u8) -> CValue {
    CValue::Date(Date::new(year, month, day).unwrap())
}

fn cdt(year: i32, month: u8, day: u8, offset: Option<i32>) -> CValue {
    cdt_at(year, month, day, 0, 0, 0, 0, offset)
}

fn cdt_at(
    year: i32,
    month: u8,
    day: u8,
    hour: u8,
    minute: u8,
    second: u8,
    microsecond: u32,
    offset: Option<i32>,
) -> CValue {
    let date = Date::new(year, month, day).unwrap();
    CValue::DateTime(DateTime::new(date, hour, minute, second, microsecond, offset).unwrap())
}


fn python_type_name(value: &Value) -> String {
    onix_core::diff::scalar::python_type_name(&cv(value))
}

fn scalar_diff(
    path: &Vec<PathSegment>,
    equal: bool,
    a: &Value,
    b: &Value,
    depth: u128,
    max_depth: usize,
) -> Result<Report, Error> {
    onix_core::diff::scalar::scalar_diff(path, equal, &cv(a), &cv(b), depth, max_depth)
}

fn number_as_i128(n: &Number) -> Option<i128> {
    cnum(n).as_i128()
}

fn diff(a: &Value, b: &Value) -> Result<Report, Error> {
    onix_core::diff::diff(&cv(a), &cv(b))
}

fn diff_with_max_depth(a: &Value, b: &Value, max_depth: usize) -> Result<Report, Error> {
    onix_core::diff::diff_with_max_depth(&cv(a), &cv(b), max_depth)
}

fn values_equal(a: &Value, b: &Value) -> bool {
    onix_core::diff::equality::values_equal(&cv(a), &cv(b))
}

fn deeper_than(value: &Value, limit: usize) -> bool {
    onix_core::diff::depth::deeper_than(&cv(value), limit)
}

fn map_deeper_than(map: &serde_json::Map<String, Value>, limit: usize) -> bool {
    onix_core::diff::depth::map_deeper_than(&cobj(map), limit)
}

fn nested_dict(depth: usize, leaf: Value) -> Value {
    let mut value = leaf;
    for _ in 0..depth {
        let mut map = serde_json::Map::new();
        map.insert("k".to_string(), value);
        value = Value::Object(map);
    }
    value
}

fn nested_array(depth: usize, leaf: Value) -> Value {
    let mut value = leaf;
    for _ in 0..depth {
        value = Value::Array(vec![value]);
    }
    value
}

const PAST_DEFAULT_MAX_DEPTH: usize = DEFAULT_MAX_DEPTH + 100;

const RECURSION_OVERFLOW_DEPTH: usize = 20_000;

#[test]
fn equal_nulls_are_empty() {
    let report = diff(&Value::Null, &Value::Null).unwrap();
    assert!(report.is_empty());
}

#[test]
fn null_vs_scalar_is_type_change() {
    let report = diff(&Value::Null, &Json::from(0)).unwrap();
    assert_eq!(
        report.to_json_value(),
        json_object(vec![("type_changes", json_object(vec![("root", json_object(vec![("old_type", Json::from("NoneType")), ("new_type", Json::from("int")), ("old_value", Json::Null), ("new_value", Json::from(0))]))]))])
    );
}

#[test]
fn equal_ints_are_empty() {
    let report = diff(&Json::from(1), &Json::from(1)).unwrap();
    assert!(report.is_empty());
}

#[test]
fn unequal_ints_are_values_changed() {
    let report = diff(&Json::from(1), &Json::from(2)).unwrap();
    assert_eq!(
        report.to_json_value(),
        json_object(vec![("values_changed", json_object(vec![("root", json_object(vec![("new_value", Json::from(2)), ("old_value", Json::from(1))]))]))])
    );
}

#[test]
fn int_vs_float_is_always_type_change_even_when_numerically_equal() {
    let report = diff(&Json::from(1), &Json::from(1.0)).unwrap();
    assert_eq!(
        report.to_json_value(),
        json_object(vec![("type_changes", json_object(vec![("root", json_object(vec![("old_type", Json::from("int")), ("new_type", Json::from("float")), ("old_value", Json::from(1)), ("new_value", Json::from(1.0))]))]))])
    );
}

#[test]
fn unequal_floats_are_values_changed() {
    let report = diff(&Json::from(1.5), &Json::from(2.5)).unwrap();
    assert_eq!(
        report.to_json_value(),
        json_object(vec![("values_changed", json_object(vec![("root", json_object(vec![("new_value", Json::from(2.5)), ("old_value", Json::from(1.5))]))]))])
    );
}

#[test]
fn equal_floats_are_empty() {
    let report = diff(&Json::from(1.5), &Json::from(1.5)).unwrap();
    assert!(report.is_empty());
}

#[test]
fn positive_zero_and_negative_zero_are_equal() {
    let report = diff(&Json::from(0.0), &Json::from(-0.0)).unwrap();
    assert!(report.is_empty());
}

#[test]
fn same_value_within_i64_range_is_equal_regardless_of_i64_or_u64_representation() {
    let a = Value::Number(Number::from(9_000_000_000_000_000_000u64));
    let b = Value::Number(Number::from(9_000_000_000_000_000_000i64));
    let report = diff(&a, &b).unwrap();
    assert!(report.is_empty());
}

#[test]
fn u64_max_equal_to_itself() {
    let a = Value::Number(Number::from(u64::MAX));
    let b = Value::Number(Number::from(u64::MAX));
    let report = diff(&a, &b).unwrap();
    assert!(report.is_empty());
}

#[test]
fn u64_max_vs_negative_one_is_values_changed_not_false_equal() {
    let a = Value::Number(Number::from(u64::MAX));
    let b = Value::Number(Number::from(-1i64));
    let report = diff(&a, &b).unwrap();
    assert_eq!(
        report.to_json_value(),
        json_object(vec![("values_changed", json_object(vec![("root", json_object(vec![("new_value", Json::from(-1)), ("old_value", serde_json::to_value(&(u64::MAX)).unwrap())]))]))])
    );
}

#[test]
fn unequal_ints_straddling_the_i64_max_boundary_are_values_changed() {
    let i64_max_as_u64 = u64::try_from(i64::MAX).expect("i64::MAX fits in u64");
    let just_over_i64_max = i64_max_as_u64 + 1;
    let a = Value::Number(Number::from(i64::MAX));
    let b = Value::Number(Number::from(just_over_i64_max));
    let report = diff(&a, &b).unwrap();
    assert_eq!(
        report.to_json_value(),
        json_object(vec![("values_changed", json_object(vec![("root", json_object(vec![("new_value", serde_json::to_value(&(just_over_i64_max)).unwrap()), ("old_value", serde_json::to_value(&(i64::MAX)).unwrap())]))]))])
    );
}

#[test]
fn bool_vs_int_is_type_change() {
    let report = diff(&Json::Bool(true), &Json::from(1)).unwrap();
    assert_eq!(
        report.to_json_value(),
        json_object(vec![("type_changes", json_object(vec![("root", json_object(vec![("old_type", Json::from("bool")), ("new_type", Json::from("int")), ("old_value", Json::Bool(true)), ("new_value", Json::from(1))]))]))])
    );
}

#[test]
fn true_vs_false_is_values_changed() {
    let report = diff(&Json::Bool(true), &Json::Bool(false)).unwrap();
    assert_eq!(
        report.to_json_value(),
        json_object(vec![("values_changed", json_object(vec![("root", json_object(vec![("new_value", Json::Bool(false)), ("old_value", Json::Bool(true))]))]))])
    );
}

#[test]
fn equal_bools_are_empty() {
    let report = diff(&Json::Bool(true), &Json::Bool(true)).unwrap();
    assert!(report.is_empty());
}

#[test]
fn null_vs_zero_is_type_change() {
    let report = diff(&Value::Null, &Json::from(0)).unwrap();
    assert!(!report.is_empty());
}

#[test]
fn changed_strings_are_values_changed() {
    let report = diff(&Json::from("a"), &Json::from("b")).unwrap();
    assert_eq!(
        report.to_json_value(),
        json_object(vec![("values_changed", json_object(vec![("root", json_object(vec![("new_value", Json::from("b")), ("old_value", Json::from("a"))]))]))])
    );
}

#[test]
fn equal_strings_are_empty() {
    let report = diff(&Json::from("a"), &Json::from("a")).unwrap();
    assert!(report.is_empty());
}

#[test]
fn str_vs_int_is_type_change() {
    let report = diff(&Json::from("1"), &Json::from(1)).unwrap();
    assert_eq!(
        report.to_json_value(),
        json_object(vec![("type_changes", json_object(vec![("root", json_object(vec![("old_type", Json::from("str")), ("new_type", Json::from("int")), ("old_value", Json::from("1")), ("new_value", Json::from(1))]))]))])
    );
}

#[test]
fn dict_vs_list_is_type_change() {
    let report = diff(&json_object(vec![("a", Json::from(1))]), &Json::Array(vec![Json::from(1)])).unwrap();
    assert_eq!(
        report.to_json_value(),
        json_object(vec![("type_changes", json_object(vec![("root", json_object(vec![("old_type", Json::from("dict")), ("new_type", Json::from("list")), ("old_value", json_object(vec![("a", Json::from(1))])), ("new_value", Json::Array(vec![Json::from(1)]))]))]))])
    );
}

#[test]
fn equal_dicts_are_empty() {
    let report = diff(&json_object(vec![("a", Json::from(1)), ("b", Json::from(2))]), &json_object(vec![("b", Json::from(2)), ("a", Json::from(1))])).unwrap();
    assert!(report.is_empty());
}

#[test]
fn unequal_dicts_now_recurse_instead_of_erroring() {
    let report = diff(&json_object(vec![("a", Json::from(1))]), &json_object(vec![("a", Json::from(2))])).unwrap();
    assert_eq!(
        report.to_json_value(),
        json_object(vec![("values_changed", json_object(vec![("root['a']", json_object(vec![("new_value", Json::from(2)), ("old_value", Json::from(1))]))]))])
    );
}

#[test]
fn empty_dict_vs_empty_dict_is_empty() {
    let report = diff(&json_object(Vec::new()), &json_object(Vec::new())).unwrap();
    assert_eq!(report.to_json_value(), json_object(Vec::new()));
}

#[test]
fn empty_dict_vs_nonempty_dict_is_all_added() {
    let report = diff(&json_object(Vec::new()), &json_object(vec![("a", Json::from(1))])).unwrap();
    assert_eq!(
        report.to_json_value(),
        json_object(vec![("dictionary_item_added", json_object(vec![("root['a']", Json::from(1))]))])
    );
}

#[test]
fn nonempty_dict_vs_empty_dict_is_all_removed() {
    let report = diff(&json_object(vec![("a", Json::from(1))]), &json_object(Vec::new())).unwrap();
    assert_eq!(
        report.to_json_value(),
        json_object(vec![("dictionary_item_removed", json_object(vec![("root['a']", Json::from(1))]))])
    );
}

#[test]
fn mixed_dict_diff_reports_every_category_exactly() {
    let a = json_object(vec![("same", Json::from(1)), ("changed", Json::from(2)), ("type_changed", Json::from(3)), ("removed", Json::from(4))]);
    let b = json_object(vec![("same", Json::from(1)), ("changed", Json::from(20)), ("type_changed", Json::from("3")), ("added", Json::from(5))]);

    let report = diff(&a, &b).unwrap();

    assert_eq!(
        report.to_json_value(),
        json_object(vec![("values_changed", json_object(vec![("root['changed']", json_object(vec![("new_value", Json::from(20)), ("old_value", Json::from(2))]))])), ("type_changes", json_object(vec![("root['type_changed']", json_object(vec![("old_type", Json::from("int")), ("new_type", Json::from("str")), ("old_value", Json::from(3)), ("new_value", Json::from("3"))]))])), ("dictionary_item_added", json_object(vec![("root['added']", Json::from(5))])), ("dictionary_item_removed", json_object(vec![("root['removed']", Json::from(4))]))])
    );
}

#[test]
fn unicode_key_is_rendered_correctly_in_added_path() {
    let report = diff(&json_object(Vec::new()), &json_object(vec![("héllo世界", Json::from(1))])).unwrap();
    assert_eq!(
        report.to_json_value(),
        json_object(vec![("dictionary_item_added", json_object(vec![("root['héllo世界']", Json::from(1))]))])
    );
}

#[test]
fn key_containing_a_quote_is_rendered_correctly() {
    let report = diff(&json_object(Vec::new()), &json_object(vec![("it's", Json::from(1))])).unwrap();
    assert_eq!(
        report.to_json_value(),
        json_object(vec![("dictionary_item_added", json_object(vec![(r#"root["it's"]"#, Json::from(1))]))])
    );
}

#[test]
fn nested_values_changed_reports_deep_path() {
    let report = diff(&json_object(vec![("a", json_object(vec![("b", Json::from(1))]))]), &json_object(vec![("a", json_object(vec![("b", Json::from(2))]))])).unwrap();
    assert_eq!(
        report.to_json_value(),
        json_object(vec![("values_changed", json_object(vec![("root['a']['b']", json_object(vec![("new_value", Json::from(2)), ("old_value", Json::from(1))]))]))])
    );
}

#[test]
fn nested_add_and_remove_at_depth() {
    let a = json_object(vec![("a", json_object(vec![("keep", Json::from(1)), ("removed", Json::from(2))]))]);
    let b = json_object(vec![("a", json_object(vec![("keep", Json::from(1)), ("added", Json::from(3))]))]);

    let report = diff(&a, &b).unwrap();

    assert_eq!(
        report.to_json_value(),
        json_object(vec![("dictionary_item_added", json_object(vec![("root['a']['added']", Json::from(3))])), ("dictionary_item_removed", json_object(vec![("root['a']['removed']", Json::from(2))]))])
    );
}

#[test]
fn nested_dict_vs_scalar_is_type_change_with_dict_type() {
    let report = diff(&json_object(vec![("a", json_object(vec![("b", Json::from(1))]))]), &json_object(vec![("a", Json::from(5))])).unwrap();
    assert_eq!(
        report.to_json_value(),
        json_object(vec![("type_changes", json_object(vec![("root['a']", json_object(vec![("old_type", Json::from("dict")), ("new_type", Json::from("int")), ("old_value", json_object(vec![("b", Json::from(1))])), ("new_value", Json::from(5))]))]))])
    );
}

#[test]
fn identical_deep_nested_dicts_are_empty() {
    let value = json_object(vec![("a", json_object(vec![("b", json_object(vec![("c", Json::Array(vec![Json::from(1), Json::from(2), Json::from(3)])), ("d", Json::from("x"))]))]))]);
    let report = diff(&value, &value).unwrap();
    assert!(report.is_empty());
}

#[test]
fn nested_unequal_list_inside_dict_now_recurses_instead_of_erroring() {
    let a = json_object(vec![("a", json_object(vec![("b", Json::Array(vec![Json::from(1), Json::from(2)]))]))]);
    let b = json_object(vec![("a", json_object(vec![("b", Json::Array(vec![Json::from(1), Json::from(3)]))]))]);

    let report = diff(&a, &b).unwrap();

    assert_eq!(
        report.to_json_value(),
        json_object(vec![("values_changed", json_object(vec![("root['a']['b'][1]", json_object(vec![("new_value", Json::from(3)), ("old_value", Json::from(2))]))]))])
    );
}

#[test]
fn nested_equal_int_repr_shortcut_is_still_correct() {
    let mut a_inner = serde_json::Map::new();
    a_inner.insert(
        "b".to_string(),
        Value::Number(Number::from(9_000_000_000_000_000_000u64)),
    );
    let mut a = serde_json::Map::new();
    a.insert("a".to_string(), Value::Object(a_inner));

    let mut b_inner = serde_json::Map::new();
    b_inner.insert(
        "b".to_string(),
        Value::Number(Number::from(9_000_000_000_000_000_000i64)),
    );
    let mut b = serde_json::Map::new();
    b.insert("a".to_string(), Value::Object(b_inner));

    let report = diff(&Value::Object(a), &Value::Object(b)).unwrap();
    assert!(report.is_empty());
}

#[test]
fn dictionary_item_added_value_is_a_whole_nested_container_verbatim() {
    let report = diff(&json_object(Vec::new()), &json_object(vec![("a", json_object(vec![("nested", json_object(vec![("deep", Json::Array(vec![Json::from(1), Json::from(2), Json::from(3)]))]))]))])).unwrap();
    assert_eq!(
        report.to_json_value(),
        json_object(vec![("dictionary_item_added", json_object(vec![("root['a']", json_object(vec![("nested", json_object(vec![("deep", Json::Array(vec![Json::from(1), Json::from(2), Json::from(3)]))]))]))]))])
    );
}

#[test]
fn dictionary_item_removed_value_is_a_whole_nested_container_verbatim() {
    let report = diff(&json_object(vec![("a", json_object(vec![("nested", json_object(vec![("deep", Json::Array(vec![Json::from(1), Json::from(2), Json::from(3)]))]))]))]), &json_object(Vec::new())).unwrap();
    assert_eq!(
        report.to_json_value(),
        json_object(vec![("dictionary_item_removed", json_object(vec![("root['a']", json_object(vec![("nested", json_object(vec![("deep", Json::Array(vec![Json::from(1), Json::from(2), Json::from(3)]))]))]))]))])
    );
}

#[test]
fn quoted_key_combined_with_recursion_depth_two() {
    let report = diff(
        &json_object(vec![("it's", json_object(vec![("also's", Json::from(1))]))]),
        &json_object(vec![("it's", json_object(vec![("also's", Json::from(2))]))]),
    )
    .unwrap();
    assert_eq!(
        report.to_json_value(),
        json_object(vec![("values_changed", json_object(vec![(r#"root["it's"]["also's"]"#, json_object(vec![("new_value", Json::from(2)), ("old_value", Json::from(1))]))]))])
    );
}

#[test]
fn equal_lists_are_empty() {
    let report = diff(&Json::Array(vec![Json::from(1), Json::from(2), Json::from(3)]), &Json::Array(vec![Json::from(1), Json::from(2), Json::from(3)])).unwrap();
    assert!(report.is_empty());
}

#[test]
fn unequal_lists_now_diff_index_aligned_instead_of_erroring() {
    let report = diff(&Json::Array(vec![Json::from(1), Json::from(2)]), &Json::Array(vec![Json::from(1), Json::from(3)])).unwrap();
    assert_eq!(
        report.to_json_value(),
        json_object(vec![("values_changed", json_object(vec![("root[1]", json_object(vec![("new_value", Json::from(3)), ("old_value", Json::from(2))]))]))])
    );
}

#[test]
fn python_type_name_covers_every_json_variant() {
    assert_eq!(python_type_name(&Value::Null), "NoneType");
    assert_eq!(python_type_name(&Json::Bool(true)), "bool");
    assert_eq!(python_type_name(&Json::from(1)), "int");
    assert_eq!(python_type_name(&Json::from(1.0)), "float");
    assert_eq!(python_type_name(&Json::from("s")), "str");
    assert_eq!(python_type_name(&Json::Array(vec![Json::from(1)])), "list");
    assert_eq!(python_type_name(&json_object(vec![("a", Json::from(1))])), "dict");
}

#[test]
fn number_as_i128_uses_i64_when_available() {
    assert_eq!(number_as_i128(&Number::from(-5i64)), Some(-5i128));
}

#[test]
fn number_as_i128_falls_back_to_u64_beyond_i64_range() {
    let n = Number::from(u64::MAX);
    assert_eq!(number_as_i128(&n), Some(i128::from(u64::MAX)));

    assert_eq!(
        number_as_i128(&Number::from_f64(1.5).expect("finite")),
        None
    );
}

#[test]
fn nested_equal_null_alongside_an_unrelated_change_produces_no_finding_for_it() {
    let report = diff(
        &json_object(vec![("n", Json::Null), ("changed", Json::from(1))]),
        &json_object(vec![("n", Json::Null), ("changed", Json::from(2))]),
    )
    .unwrap();
    assert_eq!(
        report.to_json_value(),
        json_object(vec![("values_changed", json_object(vec![("root['changed']", json_object(vec![("new_value", Json::from(2)), ("old_value", Json::from(1))]))]))])
    );
}

#[test]
fn nested_equal_list_alongside_an_unrelated_change_produces_no_finding_for_it() {
    let report = diff(
        &json_object(vec![("list", Json::Array(vec![Json::from(1), Json::from(2)])), ("changed", Json::from(1))]),
        &json_object(vec![("list", Json::Array(vec![Json::from(1), Json::from(2)])), ("changed", Json::from(2))]),
    )
    .unwrap();
    assert_eq!(
        report.to_json_value(),
        json_object(vec![("values_changed", json_object(vec![("root['changed']", json_object(vec![("new_value", Json::from(2)), ("old_value", Json::from(1))]))]))])
    );
}

#[test]
fn equal_deeply_nested_dicts_do_not_hit_the_depth_bound() {
    let a = nested_dict(PAST_DEFAULT_MAX_DEPTH, Json::from("leaf"));
    let b = nested_dict(PAST_DEFAULT_MAX_DEPTH, Json::from("leaf"));
    let report = diff(&a, &b).unwrap();
    assert!(report.is_empty());
}

#[test]
fn equal_deeply_nested_arrays_do_not_hit_the_depth_bound() {
    let a = nested_array(PAST_DEFAULT_MAX_DEPTH, Json::from(1));
    let b = nested_array(PAST_DEFAULT_MAX_DEPTH, Json::from(1));
    let report = diff(&a, &b).unwrap();
    assert!(report.is_empty());
}

#[test]
fn deeper_than_true_for_value_one_level_past_limit() {
    let value = nested_array(4, Json::from(1));
    assert!(deeper_than(&value, 3));
}

#[test]
fn deeper_than_false_for_value_exactly_at_limit() {
    let value = nested_array(3, Json::from(1));
    assert!(!deeper_than(&value, 3));
}

#[test]
fn deeper_than_counts_object_nesting_the_same_way_as_array_nesting() {
    assert!(deeper_than(&nested_dict(4, Json::from(1)), 3));
    assert!(!deeper_than(&nested_dict(3, Json::from(1)), 3));
}

#[test]
fn deeper_than_counts_frozenset_nesting_the_same_way_as_array_nesting() {
    let mut value = cv(&Json::from(1));
    for _ in 0..4 {
        value = CValue::FrozenSet(SetItems::new(vec![value]));
    }
    assert!(onix_core::diff::depth::deeper_than(&value, 3));

    let mut value = cv(&Json::from(1));
    for _ in 0..3 {
        value = CValue::FrozenSet(SetItems::new(vec![value]));
    }
    assert!(!onix_core::diff::depth::deeper_than(&value, 3));
}

#[test]
fn deeper_than_false_for_a_scalar_regardless_of_limit() {
    assert!(!deeper_than(&Json::from(1), 0));
    assert!(!deeper_than(&Json::from("s"), 0));
    assert!(!deeper_than(&Value::Null, 0));
}

#[test]
fn deeper_than_false_for_empty_containers() {
    assert!(!deeper_than(&Json::Array(vec![]), 0));
    assert!(!deeper_than(&json_object(Vec::new()), 0));
}

#[test]
fn map_deeper_than_true_for_a_map_one_level_past_limit() {
    let mut map = serde_json::Map::new();
    map.insert("x".to_string(), nested_dict(3, Json::from(1)));
    assert!(map_deeper_than(&map, 3));
}

#[test]
fn map_deeper_than_false_for_a_map_exactly_at_limit() {
    let mut map = serde_json::Map::new();
    map.insert("x".to_string(), nested_dict(2, Json::from(1)));
    assert!(!map_deeper_than(&map, 3));
}

#[test]
fn map_deeper_than_true_for_any_nonempty_map_at_limit_zero() {
    let mut map = serde_json::Map::new();
    map.insert("x".to_string(), Json::from(1));
    assert!(map_deeper_than(&map, 0));
}

#[test]
fn map_deeper_than_false_for_an_empty_map_at_limit_zero() {
    assert!(!map_deeper_than(&serde_json::Map::new(), 0));
}

#[test]
fn map_deeper_than_recurses_with_incrementing_not_constant_depth() {
    let mut inner = serde_json::Map::new();
    inner.insert("y".to_string(), Json::from(1));
    let mut map = serde_json::Map::new();
    map.insert("x".to_string(), Value::Object(inner));
    assert!(map_deeper_than(&map, 1));
}

#[test]
fn added_value_deeper_than_max_depth_errors_cleanly_instead_of_cloning_it() {
    let deep = nested_array(20, Json::from(1));
    let mut b = serde_json::Map::new();
    b.insert("x".to_string(), deep);

    let err = diff_with_max_depth(&json_object(Vec::new()), &Value::Object(b), 10).unwrap_err();

    assert_eq!(
        err,
        Error::MaxDepthExceeded {
            path: "root['x']".to_string(),
            max_depth: 10,
        }
    );
}

#[test]
fn removed_value_deeper_than_max_depth_errors_cleanly_instead_of_cloning_it() {
    let deep = nested_array(20, Json::from(1));
    let mut a = serde_json::Map::new();
    a.insert("x".to_string(), deep);

    let err = diff_with_max_depth(&Value::Object(a), &json_object(Vec::new()), 10).unwrap_err();

    assert_eq!(
        err,
        Error::MaxDepthExceeded {
            path: "root['x']".to_string(),
            max_depth: 10,
        }
    );
}

#[test]
fn threshold_collapse_rejects_a_deep_side_cleanly_instead_of_cloning_it_first() {
    let mut a = serde_json::Map::new();
    a.insert("a".to_string(), Json::from(1));
    a.insert("deep".to_string(), nested_array(10, Json::from(1)));

    let err = diff_with_max_depth(&Value::Object(a), &json_object(vec![("x", Json::from(1)), ("y", Json::from(2))]), 5).unwrap_err();

    assert_eq!(
        err,
        Error::MaxDepthExceeded {
            path: "root".to_string(),
            max_depth: 5,
        }
    );
}

#[test]
fn removed_value_at_root_is_checked_against_its_own_plus_one_depth_not_the_parents() {
    let deep = nested_array(10, Json::from(1));
    let mut a = serde_json::Map::new();
    a.insert("x".to_string(), deep);

    let err = diff_with_max_depth(&Value::Object(a), &json_object(Vec::new()), 10).unwrap_err();

    assert_eq!(
        err,
        Error::MaxDepthExceeded {
            path: "root['x']".to_string(),
            max_depth: 10,
        }
    );
}

#[test]
fn type_changed_value_deeper_than_max_depth_errors_cleanly_instead_of_cloning_it() {
    let deep = nested_array(20, Json::from(1));
    let mut a = serde_json::Map::new();
    a.insert("x".to_string(), deep);
    let mut b = serde_json::Map::new();
    b.insert("x".to_string(), Json::from(5));

    let err = diff_with_max_depth(&Value::Object(a), &Value::Object(b), 10).unwrap_err();

    assert_eq!(
        err,
        Error::MaxDepthExceeded {
            path: "root['x']".to_string(),
            max_depth: 10,
        }
    );
}

#[test]
fn type_changed_deep_value_on_the_new_side_alone_errors_cleanly() {
    let deep = nested_array(11, Json::from(1));
    let err = diff_with_max_depth(&Json::from(5), &deep, 10).unwrap_err();
    assert_eq!(
        err,
        Error::MaxDepthExceeded {
            path: "root".to_string(),
            max_depth: 10,
        }
    );
}

#[test]
fn scalar_diff_rejects_a_value_whose_own_nesting_exceeds_max_depth_on_the_old_side() {
    let deep = nested_array(20, Json::from(1));
    let err = scalar_diff(&Vec::new(), false, &deep, &Json::from(1), 0, 10).unwrap_err();
    assert_eq!(
        err,
        Error::MaxDepthExceeded {
            path: "root".to_string(),
            max_depth: 10,
        }
    );
}

#[test]
fn scalar_diff_rejects_a_value_whose_own_nesting_exceeds_max_depth_on_the_new_side() {
    let deep = nested_array(20, Json::from(1));
    let err = scalar_diff(&Vec::new(), false, &Json::from(1), &deep, 0, 10).unwrap_err();
    assert_eq!(
        err,
        Error::MaxDepthExceeded {
            path: "root".to_string(),
            max_depth: 10,
        }
    );
}

#[test]
fn value_depth_full_budget_at_a_shallow_finding_is_accepted() {
    let deep = nested_array(10, Json::from(1));
    let report = diff_with_max_depth(&deep, &Json::from(5), 10).unwrap();
    assert_eq!(
        report.to_json_value(),
        json_object(vec![("type_changes", json_object(vec![("root", json_object(vec![("old_type", Json::from("list")), ("new_type", Json::from("int")), ("old_value", serde_json::to_value(&(deep)).unwrap()), ("new_value", Json::from(5))]))]))])
    );
}

#[test]
fn value_depth_one_past_full_budget_at_a_shallow_finding_errors() {
    let deep = nested_array(11, Json::from(1));
    let err = diff_with_max_depth(&deep, &Json::from(5), 10).unwrap_err();
    assert_eq!(
        err,
        Error::MaxDepthExceeded {
            path: "root".to_string(),
            max_depth: 10,
        }
    );
}

#[test]
fn value_depth_reduced_budget_at_a_deep_finding_is_accepted_at_the_reduced_bound() {
    let deep = nested_array(8, Json::from(1));
    let a = json_object(vec![("p", json_object(Vec::new()))]);
    let mut inner_b = serde_json::Map::new();
    inner_b.insert("x".to_string(), deep.clone());
    let b = json_object(vec![("p", serde_json::to_value(&(Value::Object(inner_b))).unwrap())]);

    let report = diff_with_max_depth(&a, &b, 10).unwrap();

    assert_eq!(
        report.to_json_value(),
        json_object(vec![("dictionary_item_added", json_object(vec![("root['p']['x']", serde_json::to_value(&(deep)).unwrap())]))])
    );
}

#[test]
fn value_depth_one_past_reduced_budget_at_a_deep_finding_errors() {
    let deep = nested_array(9, Json::from(1));
    let a = json_object(vec![("p", json_object(Vec::new()))]);
    let mut inner_b = serde_json::Map::new();
    inner_b.insert("x".to_string(), deep);
    let b = json_object(vec![("p", serde_json::to_value(&(Value::Object(inner_b))).unwrap())]);

    let err = diff_with_max_depth(&a, &b, 10).unwrap_err();

    assert_eq!(
        err,
        Error::MaxDepthExceeded {
            path: "root['p']['x']".to_string(),
            max_depth: 10,
        }
    );
}

#[test]
fn many_dict_siblings_with_nested_findings_report_correct_paths_at_scale() {
    const SIBLINGS: usize = 3;

    let mut a = serde_json::Map::new();
    let mut b = serde_json::Map::new();
    let mut expected_changes = serde_json::Map::new();

    for i in 0..SIBLINGS {
        let key = format!("k{i}");

        let mut a_inner = serde_json::Map::new();
        a_inner.insert("changed".to_string(), serde_json::to_value(&(i)).unwrap());
        let mut b_inner = serde_json::Map::new();
        b_inner.insert("changed".to_string(), serde_json::to_value(&(i + 1000)).unwrap());

        a.insert(key.clone(), Value::Object(a_inner));
        b.insert(key.clone(), Value::Object(b_inner));

        expected_changes.insert(
            format!("root['{key}']['changed']"),
            json_object(vec![("new_value", serde_json::to_value(&(i + 1000)).unwrap()), ("old_value", serde_json::to_value(&(i)).unwrap())]),
        );
    }

    let report = diff(&Value::Object(a), &Value::Object(b)).unwrap();

    let mut expected = serde_json::Map::new();
    expected.insert(
        "values_changed".to_string(),
        Value::Object(expected_changes),
    );
    assert_eq!(report.to_json_value(), Value::Object(expected));
}

#[test]
fn many_array_siblings_with_nested_findings_report_correct_paths_at_scale() {
    const SIBLINGS: usize = 3;

    let mut a_items = Vec::new();
    let mut b_items = Vec::new();
    let mut expected_changes = serde_json::Map::new();

    for i in 0..SIBLINGS {
        let mut a_inner = serde_json::Map::new();
        a_inner.insert("changed".to_string(), serde_json::to_value(&(i)).unwrap());
        let mut b_inner = serde_json::Map::new();
        b_inner.insert("changed".to_string(), serde_json::to_value(&(i + 1000)).unwrap());

        a_items.push(Value::Object(a_inner));
        b_items.push(Value::Object(b_inner));

        expected_changes.insert(
            format!("root[{i}]['changed']"),
            json_object(vec![("new_value", serde_json::to_value(&(i + 1000)).unwrap()), ("old_value", serde_json::to_value(&(i)).unwrap())]),
        );
    }

    let report = diff(&Value::Array(a_items), &Value::Array(b_items)).unwrap();

    let mut expected = serde_json::Map::new();
    expected.insert(
        "values_changed".to_string(),
        Value::Object(expected_changes),
    );
    assert_eq!(report.to_json_value(), Value::Object(expected));
}

#[test]
fn sibling_after_a_deeply_nested_key_gets_its_own_shallow_path_not_the_deep_ones() {
    let depth = 50;
    let a = json_object(vec![("first", serde_json::to_value(&(nested_dict(depth, Json::from("a")))).unwrap()), ("second", Json::from(1))]);
    let b = json_object(vec![("first", serde_json::to_value(&(nested_dict(depth, Json::from("b")))).unwrap()), ("second", Json::from(2))]);

    let report = diff(&a, &b).unwrap();

    let expected_first_path = format!("root['first']{}", "['k']".repeat(depth));
    let mut expected_changes = serde_json::Map::new();
    expected_changes.insert(
        expected_first_path,
        json_object(vec![("new_value", Json::from("b")), ("old_value", Json::from("a"))]),
    );
    expected_changes.insert(
        "root['second']".to_string(),
        json_object(vec![("new_value", Json::from(2)), ("old_value", Json::from(1))]),
    );
    let mut expected = serde_json::Map::new();
    expected.insert(
        "values_changed".to_string(),
        Value::Object(expected_changes),
    );
    assert_eq!(report.to_json_value(), Value::Object(expected));
}

#[test]
fn shallow_finding_with_a_value_past_the_guard_errors_cleanly() {
    let deep = nested_array(PAST_DEFAULT_MAX_DEPTH, Json::from(1));
    let mut b = serde_json::Map::new();
    b.insert("x".to_string(), deep);
    let b = Value::Object(b);

    let err = diff_with_max_depth(&json_object(Vec::new()), &b, DEFAULT_MAX_DEPTH).unwrap_err();

    assert_eq!(
        err,
        Error::MaxDepthExceeded {
            path: "root['x']".to_string(),
            max_depth: DEFAULT_MAX_DEPTH,
        }
    );
}

#[test]
fn unequal_structure_deeper_than_default_max_depth_errors_via_diff() {
    let a = nested_dict(DEFAULT_MAX_DEPTH + 1, Json::from("a"));
    let b = nested_dict(DEFAULT_MAX_DEPTH + 1, Json::from("b"));

    let err = diff(&a, &b).unwrap_err();

    let expected_path = format!("root{}", "['k']".repeat(DEFAULT_MAX_DEPTH + 1));
    assert_eq!(
        err,
        Error::MaxDepthExceeded {
            path: expected_path,
            max_depth: DEFAULT_MAX_DEPTH,
        }
    );
}

#[test]
fn structure_exactly_at_configured_max_depth_diffs_successfully() {
    let a = nested_dict(3, Json::from("a"));
    let b = nested_dict(3, Json::from("b"));

    let report = diff_with_max_depth(&a, &b, 3).unwrap();

    assert_eq!(
        report.to_json_value(),
        json_object(vec![("values_changed", json_object(vec![("root['k']['k']['k']", json_object(vec![("new_value", Json::from("b")), ("old_value", Json::from("a"))]))]))])
    );
}

#[test]
fn mixed_dict_shared_key_recursion_steps_depth_by_one_not_by_multiplication() {
    let a = CValue::Object(CObject::from_pairs(vec![(
        ObjectKey::Other(Box::new(cv(&Json::from(1)))),
        cv(&Json::from("a")),
    )]));
    let b = CValue::Object(CObject::from_pairs(vec![(
        ObjectKey::Other(Box::new(cv(&Json::from(1)))),
        cv(&Json::from("b")),
    )]));

    let err = onix_core::diff::diff_with_max_depth(&a, &b, 0).unwrap_err();

    assert_eq!(
        err,
        Error::MaxDepthExceeded {
            path: "root[1]".to_string(),
            max_depth: 0,
        }
    );
}

#[test]
fn mixed_dict_removed_key_value_is_checked_against_its_own_plus_one_depth() {
    let a = CValue::Object(CObject::from_pairs(vec![(
        ObjectKey::Other(Box::new(cv(&Json::from(5)))),
        cv(&nested_array(10, Json::from(1))),
    )]));
    let b = CValue::Object(CObject::from_pairs(vec![]));

    let err = onix_core::diff::diff_with_max_depth(&a, &b, 10).unwrap_err();

    assert_eq!(
        err,
        Error::MaxDepthExceeded {
            path: "root[5]".to_string(),
            max_depth: 10,
        }
    );
}

#[test]
fn mixed_dict_added_key_value_is_checked_against_its_own_plus_one_depth() {
    let a = CValue::Object(CObject::from_pairs(vec![]));
    let b = CValue::Object(CObject::from_pairs(vec![(
        ObjectKey::Other(Box::new(cv(&Json::from(5)))),
        cv(&nested_array(10, Json::from(1))),
    )]));

    let err = onix_core::diff::diff_with_max_depth(&a, &b, 10).unwrap_err();

    assert_eq!(
        err,
        Error::MaxDepthExceeded {
            path: "root[5]".to_string(),
            max_depth: 10,
        }
    );
}

#[test]
fn structure_one_level_past_configured_max_depth_errors() {
    let a = nested_dict(4, Json::from("a"));
    let b = nested_dict(4, Json::from("b"));

    let err = diff_with_max_depth(&a, &b, 3).unwrap_err();

    assert_eq!(
        err,
        Error::MaxDepthExceeded {
            path: "root['k']['k']['k']['k']".to_string(),
            max_depth: 3,
        }
    );
}

#[test]
fn equal_inputs_deeper_than_a_tiny_configured_max_depth_still_succeed() {
    let value = nested_dict(50, Json::from("leaf"));
    let report = diff_with_max_depth(&value, &value.clone(), 1).unwrap();
    assert!(report.is_empty());
}

#[test]
fn equal_inputs_containing_a_null_leaf_use_the_equality_fast_path_even_past_max_depth() {
    let value = nested_dict(50, Value::Null);
    let report = diff_with_max_depth(&value, &value.clone(), 1).unwrap();
    assert!(report.is_empty());
}

#[test]
fn equal_inputs_containing_a_bool_leaf_use_the_equality_fast_path_even_past_max_depth() {
    let value = nested_dict(50, Json::Bool(true));
    let report = diff_with_max_depth(&value, &value.clone(), 1).unwrap();
    assert!(report.is_empty());
}

#[test]
fn equal_subtree_nested_under_an_unrelated_shallow_change_still_hits_the_bound() {
    let deep_equal_a = nested_dict(50, Json::from("same"));
    let deep_equal_b = nested_dict(50, Json::from("same"));
    let mut a = serde_json::Map::new();
    a.insert("shallow".to_string(), Json::from(1));
    a.insert("deep".to_string(), deep_equal_a);
    let mut b = serde_json::Map::new();
    b.insert("shallow".to_string(), Json::from(2));
    b.insert("deep".to_string(), deep_equal_b);

    let err = diff_with_max_depth(&Value::Object(a), &Value::Object(b), 1).unwrap_err();

    assert_eq!(
        err,
        Error::MaxDepthExceeded {
            path: "root['deep']['k']".to_string(),
            max_depth: 1,
        }
    );
}

#[test]
fn values_equal_true_for_equal_objects_regardless_of_key_order() {
    assert!(values_equal(
        &json_object(vec![("a", Json::from(1)), ("b", Json::from(2))]),
        &json_object(vec![("b", Json::from(2)), ("a", Json::from(1))])
    ));
}

#[test]
fn values_equal_false_for_objects_with_different_key_sets() {
    assert!(!values_equal(&json_object(vec![("a", Json::from(1))]), &json_object(vec![("a", Json::from(1)), ("b", Json::from(2))])));
}

#[test]
fn values_equal_false_for_arrays_of_different_length() {
    assert!(!values_equal(&Json::Array(vec![Json::from(1), Json::from(2)]), &Json::Array(vec![Json::from(1), Json::from(2), Json::from(3)])));
}

#[test]
fn values_equal_false_for_different_json_variants() {
    assert!(!values_equal(&Json::from(1), &Json::from("1")));
}

#[test]
fn values_equal_true_for_deeply_nested_mixed_structure() {
    let value = json_object(vec![("a", Json::Array(vec![Json::from(1), json_object(vec![("b", Json::from(2)), ("c", Json::Array(vec![Json::from(3), Json::from(4)]))])])), ("d", Json::from("x"))]);
    assert!(values_equal(&value, &value.clone()));
}

#[test]
fn values_equal_false_when_mixed_structure_differs_at_a_leaf() {
    let a = json_object(vec![("a", Json::Array(vec![Json::from(1), json_object(vec![("b", Json::from(2))])]))]);
    let b = json_object(vec![("a", Json::Array(vec![Json::from(1), json_object(vec![("b", Json::from(3))])]))]);
    assert!(!values_equal(&a, &b));
}

#[test]
fn values_equal_agrees_with_diff_emptiness_across_numeric_matrix() {
    let i64_max_as_u64 = u64::try_from(i64::MAX).expect("i64::MAX fits in u64");
    let cases: Vec<(Value, Value)> = vec![
        (Json::from(1), Json::from(1)),
        (Json::from(1), Json::from(2)),
        (Json::from(1), Json::from(1.0)),
        (Json::from(1.5), Json::from(1.5)),
        (Json::from(1.5), Json::from(2.5)),
        (Json::from(0.0), Json::from(-0.0)),
        (
            Value::Number(Number::from(9_000_000_000_000_000_000u64)),
            Value::Number(Number::from(9_000_000_000_000_000_000i64)),
        ),
        (
            Value::Number(Number::from(u64::MAX)),
            Value::Number(Number::from(u64::MAX)),
        ),
        (
            Value::Number(Number::from(u64::MAX)),
            Value::Number(Number::from(-1i64)),
        ),
        (
            Value::Number(Number::from(i64::MAX)),
            Value::Number(Number::from(i64_max_as_u64 + 1)),
        ),
    ];

    for (a, b) in cases {
        let diff_is_empty = diff(&a, &b).unwrap().is_empty();
        assert_eq!(
            values_equal(&a, &b),
            diff_is_empty,
            "values_equal disagreed with diff emptiness for a={a:?} b={b:?}"
        );
    }
}

#[test]
fn empty_lists_are_empty() {
    let report = diff(&Json::Array(vec![]), &Json::Array(vec![])).unwrap();
    assert!(report.is_empty());
}

#[test]
fn equal_nested_lists_are_empty() {
    let report = diff(&Json::Array(vec![Json::Array(vec![Json::from(1), Json::from(2)]), Json::Array(vec![Json::from(3), Json::from(4)])]), &Json::Array(vec![Json::Array(vec![Json::from(1), Json::from(2)]), Json::Array(vec![Json::from(3), Json::from(4)])])).unwrap();
    assert!(report.is_empty());
}

#[test]
fn same_length_lists_with_a_type_changed_element_report_it_at_the_right_index() {
    let report = diff(&Json::Array(vec![Json::from(1), Json::from("a"), Json::from(3)]), &Json::Array(vec![Json::from(1), Json::from(2), Json::from(3)])).unwrap();
    assert_eq!(
        report.to_json_value(),
        json_object(vec![("type_changes", json_object(vec![("root[1]", json_object(vec![("old_type", Json::from("str")), ("new_type", Json::from("int")), ("old_value", Json::from("a")), ("new_value", Json::from(2))]))]))])
    );
}

#[test]
fn shorter_a_reports_bs_tail_as_iterable_item_added_at_absolute_indices() {
    let report = diff(&Json::Array(vec![Json::from(1), Json::from(2)]), &Json::Array(vec![Json::from(1), Json::from(2), Json::from(3), Json::from(4)])).unwrap();
    assert_eq!(
        report.to_json_value(),
        json_object(vec![("iterable_item_added", json_object(vec![("root[2]", Json::from(3)), ("root[3]", Json::from(4))]))])
    );
}

#[test]
fn shorter_b_reports_as_tail_as_iterable_item_removed_at_absolute_indices() {
    let report = diff(&Json::Array(vec![Json::from(1), Json::from(2), Json::from(3), Json::from(4)]), &Json::Array(vec![Json::from(1), Json::from(2)])).unwrap();
    assert_eq!(
        report.to_json_value(),
        json_object(vec![("iterable_item_removed", json_object(vec![("root[2]", Json::from(3)), ("root[3]", Json::from(4))]))])
    );
}

#[test]
fn mixed_list_diff_reports_changed_indices_and_added_tail_exactly() {
    let a = Json::Array(vec![Json::from(1), Json::from(2), Json::from(3)]);
    let b = Json::Array(vec![Json::from(1), Json::from(20), Json::from("3"), Json::from(4), Json::from(5)]);

    let report = diff(&a, &b).unwrap();

    assert_eq!(
        report.to_json_value(),
        json_object(vec![("values_changed", json_object(vec![("root[1]", json_object(vec![("new_value", Json::from(20)), ("old_value", Json::from(2))]))])), ("type_changes", json_object(vec![("root[2]", json_object(vec![("old_type", Json::from("int")), ("new_type", Json::from("str")), ("old_value", Json::from(3)), ("new_value", Json::from("3"))]))])), ("iterable_item_added", json_object(vec![("root[3]", Json::from(4)), ("root[4]", Json::from(5))]))])
    );
}

#[test]
fn nested_list_in_list_reports_deep_index_path() {
    let report = diff(&Json::Array(vec![Json::Array(vec![Json::from(1), Json::from(2)])]), &Json::Array(vec![Json::Array(vec![Json::from(1), Json::from(3)])])).unwrap();
    assert_eq!(
        report.to_json_value(),
        json_object(vec![("values_changed", json_object(vec![("root[0][1]", json_object(vec![("new_value", Json::from(3)), ("old_value", Json::from(2))]))]))])
    );
}

#[test]
fn list_inside_dict_recurses_with_correct_path() {
    let report = diff(&json_object(vec![("a", Json::Array(vec![Json::from(1), Json::from(2)]))]), &json_object(vec![("a", Json::Array(vec![Json::from(1), Json::from(3)]))])).unwrap();
    assert_eq!(
        report.to_json_value(),
        json_object(vec![("values_changed", json_object(vec![("root['a'][1]", json_object(vec![("new_value", Json::from(3)), ("old_value", Json::from(2))]))]))])
    );
}

#[test]
fn dict_inside_list_recurses_with_correct_path() {
    let report = diff(&Json::Array(vec![json_object(vec![("a", Json::from(1))])]), &Json::Array(vec![json_object(vec![("a", Json::from(2))])])).unwrap();
    assert_eq!(
        report.to_json_value(),
        json_object(vec![("values_changed", json_object(vec![("root[0]['a']", json_object(vec![("new_value", Json::from(2)), ("old_value", Json::from(1))]))]))])
    );
}

#[test]
fn type_change_at_an_index_from_dict_to_scalar() {
    let report = diff(&Json::Array(vec![json_object(vec![("a", Json::from(1))])]), &Json::Array(vec![Json::from(5)])).unwrap();
    assert_eq!(
        report.to_json_value(),
        json_object(vec![("type_changes", json_object(vec![("root[0]", json_object(vec![("old_type", Json::from("dict")), ("new_type", Json::from("int")), ("old_value", json_object(vec![("a", Json::from(1))])), ("new_value", Json::from(5))]))]))])
    );
}

#[test]
fn type_change_at_an_index_from_scalar_to_list() {
    let report = diff(&Json::Array(vec![Json::from(5)]), &Json::Array(vec![Json::Array(vec![Json::from(1), Json::from(2)])])).unwrap();
    assert_eq!(
        report.to_json_value(),
        json_object(vec![("type_changes", json_object(vec![("root[0]", json_object(vec![("old_type", Json::from("int")), ("new_type", Json::from("list")), ("old_value", Json::from(5)), ("new_value", Json::Array(vec![Json::from(1), Json::from(2)]))]))]))])
    );
}

#[test]
fn int_vs_float_single_element_list_matches_via_lcs_python_equality() {
    let report = diff(&Json::Array(vec![Json::from(1)]), &Json::Array(vec![Json::from(1.0)])).unwrap();
    assert!(report.is_empty());
}

#[test]
fn int_vs_float_at_an_index_is_still_a_type_change_outside_a_hashable_only_list() {
    let report = diff(&Json::Array(vec![Json::from(1), json_object(vec![("k", Json::from(1))])]), &Json::Array(vec![Json::from(1.0), json_object(vec![("k", Json::from(1))])])).unwrap();
    assert_eq!(
        report.to_json_value(),
        json_object(vec![("type_changes", json_object(vec![("root[0]", json_object(vec![("old_type", Json::from("int")), ("new_type", Json::from("float")), ("old_value", Json::from(1)), ("new_value", Json::from(1.0))]))]))])
    );
}

#[test]
fn i64_and_u64_same_value_at_an_index_are_equal() {
    let a = Json::Array(vec![serde_json::to_value(&(Value::Number(Number::from(9_000_000_000_000_000_000u64)))).unwrap()]);
    let b = Json::Array(vec![serde_json::to_value(&(Value::Number(Number::from(9_000_000_000_000_000_000i64)))).unwrap()]);
    let report = diff(&a, &b).unwrap();
    assert!(report.is_empty());
}

#[test]
fn deeply_nested_unequal_list_at_the_bottom_hits_the_depth_bound() {
    let a = nested_array(DEFAULT_MAX_DEPTH + 1, Json::from(1));
    let b = nested_array(DEFAULT_MAX_DEPTH + 1, Json::from(2));

    let err = diff(&a, &b).unwrap_err();

    let expected_path = format!("root{}", "[0]".repeat(DEFAULT_MAX_DEPTH + 1));
    assert_eq!(
        err,
        Error::MaxDepthExceeded {
            path: expected_path,
            max_depth: DEFAULT_MAX_DEPTH,
        }
    );
}

#[test]
fn array_diff_at_depth_512_on_a_default_stack_completes_without_crashing() {
    let a = nested_array(DEFAULT_MAX_DEPTH + 1, Json::from("left"));
    let b = nested_array(DEFAULT_MAX_DEPTH + 1, Json::from("right"));

    let err = diff(&a, &b).unwrap_err();

    assert_eq!(
        err,
        Error::MaxDepthExceeded {
            path: format!("root{}", "[0]".repeat(DEFAULT_MAX_DEPTH + 1)),
            max_depth: DEFAULT_MAX_DEPTH,
        }
    );
}

#[test]
fn added_tail_element_deeper_than_the_remaining_budget_errors_cleanly() {
    let deep = nested_array(11, Json::from(1));
    let a = Json::Array(vec![]);
    let b = Json::Array(vec![serde_json::to_value(&(deep)).unwrap()]);

    let err = diff_with_max_depth(&a, &b, 10).unwrap_err();

    assert_eq!(
        err,
        Error::MaxDepthExceeded {
            path: "root[0]".to_string(),
            max_depth: 10,
        }
    );
}

#[test]
fn removed_tail_element_deeper_than_the_remaining_budget_errors_cleanly() {
    let deep = nested_array(11, Json::from(1));
    let a = Json::Array(vec![serde_json::to_value(&(deep)).unwrap()]);
    let b = Json::Array(vec![]);

    let err = diff_with_max_depth(&a, &b, 10).unwrap_err();

    assert_eq!(
        err,
        Error::MaxDepthExceeded {
            path: "root[0]".to_string(),
            max_depth: 10,
        }
    );
}

#[test]
fn added_tail_element_at_a_non_root_path_is_accepted_at_the_reduced_budget() {
    let deep = nested_array(8, Json::from(1));
    let a = json_object(vec![("p", Json::Array(vec![Json::from(1)]))]);
    let b = json_object(vec![("p", Json::Array(vec![Json::from(1), serde_json::to_value(&(deep.clone())).unwrap()]))]);

    let report = diff_with_max_depth(&a, &b, 10).unwrap();

    assert_eq!(
        report.to_json_value(),
        json_object(vec![("iterable_item_added", json_object(vec![("root['p'][1]", serde_json::to_value(&(deep)).unwrap())]))])
    );
}

#[test]
fn added_tail_element_at_a_non_root_path_one_past_the_reduced_budget_errors() {
    let deep = nested_array(9, Json::from(1));
    let a = json_object(vec![("p", Json::Array(vec![Json::from(1)]))]);
    let b = json_object(vec![("p", Json::Array(vec![Json::from(1), serde_json::to_value(&(deep)).unwrap()]))]);

    let err = diff_with_max_depth(&a, &b, 10).unwrap_err();

    assert_eq!(
        err,
        Error::MaxDepthExceeded {
            path: "root['p'][1]".to_string(),
            max_depth: 10,
        }
    );
}

#[test]
fn removed_tail_element_at_a_non_root_path_is_accepted_at_the_reduced_budget() {
    let deep = nested_array(8, Json::from(1));
    let a = json_object(vec![("p", Json::Array(vec![Json::from(1), serde_json::to_value(&(deep.clone())).unwrap()]))]);
    let b = json_object(vec![("p", Json::Array(vec![Json::from(1)]))]);

    let report = diff_with_max_depth(&a, &b, 10).unwrap();

    assert_eq!(
        report.to_json_value(),
        json_object(vec![("iterable_item_removed", json_object(vec![("root['p'][1]", serde_json::to_value(&(deep)).unwrap())]))])
    );
}

#[test]
fn removed_tail_element_at_a_non_root_path_one_past_the_reduced_budget_errors() {
    let deep = nested_array(9, Json::from(1));
    let a = json_object(vec![("p", Json::Array(vec![Json::from(1), serde_json::to_value(&(deep)).unwrap()]))]);
    let b = json_object(vec![("p", Json::Array(vec![Json::from(1)]))]);

    let err = diff_with_max_depth(&a, &b, 10).unwrap_err();

    assert_eq!(
        err,
        Error::MaxDepthExceeded {
            path: "root['p'][1]".to_string(),
            max_depth: 10,
        }
    );
}

#[test]
fn equal_deeply_nested_lists_at_a_tiny_max_depth_still_succeed() {
    let value = nested_array(50, Json::from("leaf"));
    let report = diff_with_max_depth(&value, &value.clone(), 1).unwrap();
    assert!(report.is_empty());
}

#[test]
fn lcs_tie_break_positional_candidate_hits_the_depth_bound_at_the_root() {
    let a = Json::Array(vec![Json::from(1.0), Json::from(2)]);
    let b = Json::Array(vec![Json::from(2), Json::from(1)]);

    let err = diff_with_max_depth(&a, &b, 0).unwrap_err();

    assert_eq!(
        err,
        Error::MaxDepthExceeded {
            path: "root[0]".to_string(),
            max_depth: 0,
        }
    );
}

#[test]
fn lcs_replace_pair_itself_hits_the_depth_bound_not_via_the_positional_fallback() {
    let a = Json::Array(vec![Json::from(1), Json::from(2), Json::from(3)]);
    let b = Json::Array(vec![Json::from(1), Json::from(5), Json::from(3)]);

    let err = diff_with_max_depth(&a, &b, 0).unwrap_err();

    assert_eq!(
        err,
        Error::MaxDepthExceeded {
            path: "root[1]".to_string(),
            max_depth: 0,
        }
    );
}

#[test]
fn lcs_tie_break_positional_candidate_succeeds_at_a_sufficient_max_depth() {
    let a = Json::Array(vec![Json::from(1.0), Json::from(2)]);
    let b = Json::Array(vec![Json::from(2), Json::from(1)]);

    let report = diff_with_max_depth(&a, &b, 1).unwrap();

    assert_eq!(
        report.to_json_value(),
        json_object(vec![("type_changes", json_object(vec![("root[0]", json_object(vec![("old_type", Json::from("float")), ("new_type", Json::from("int")), ("old_value", Json::from(1.0)), ("new_value", Json::from(2))]))])), ("values_changed", json_object(vec![("root[1]", json_object(vec![("new_value", Json::from(1)), ("old_value", Json::from(2))]))]))])
    );
}

#[test]
fn tuple_vs_tuple_diffs_positionally_like_a_list() {
    let report = onix_core::diff::diff(
        &ctup(&[Json::from(1), Json::from(2), Json::from(3)]),
        &ctup(&[Json::from(1), Json::from(2), Json::from(4)]),
    )
    .unwrap();
    assert_eq!(
        report.to_json_value(),
        json_object(vec![("values_changed", json_object(vec![("root[2]", json_object(vec![("new_value", Json::from(4)), ("old_value", Json::from(3))]))]))])
    );
}

#[test]
fn equal_tuples_are_empty() {
    let report = onix_core::diff::diff(&ctup(&[Json::from(1), Json::from(2)]), &ctup(&[Json::from(1), Json::from(2)])).unwrap();
    assert!(report.is_empty());
}

#[test]
fn tuple_vs_list_at_root_is_a_type_change() {
    let report = onix_core::diff::diff(&ctup(&[Json::from(1), Json::from(2)]), &cv(&Json::Array(vec![Json::from(1), Json::from(2)]))).unwrap();
    assert_eq!(
        report.to_json_value(),
        json_object(vec![("type_changes", json_object(vec![("root", json_object(vec![("old_type", Json::from("tuple")), ("new_type", Json::from("list")), ("old_value", Json::Array(vec![Json::from(1), Json::from(2)])), ("new_value", Json::Array(vec![Json::from(1), Json::from(2)]))]))]))])
    );
}

#[test]
fn list_vs_tuple_nested_in_a_dict_is_a_type_change() {
    let mut a = serde_json::Map::new();
    a.insert("a".to_string(), Json::Array(vec![Json::from(1), Json::from(2)]));
    let b = CValue::Object(CObject::from_pairs(vec![(
        ObjectKey::Str(String::from("a")),
        ctup(&[Json::from(1), Json::from(2)]),
    )]));
    let report = onix_core::diff::diff(&cv(&Value::Object(a)), &b).unwrap();
    assert_eq!(
        report.to_json_value(),
        json_object(vec![("type_changes", json_object(vec![("root['a']", json_object(vec![("old_type", Json::from("list")), ("new_type", Json::from("tuple")), ("old_value", Json::Array(vec![Json::from(1), Json::from(2)])), ("new_value", Json::Array(vec![Json::from(1), Json::from(2)]))]))]))])
    );
}

#[test]
fn empty_tuple_vs_empty_list_is_a_type_change() {
    let report = onix_core::diff::diff(&ctup(&[]), &cv(&Json::Array(vec![]))).unwrap();
    assert_eq!(
        report.to_json_value(),
        json_object(vec![("type_changes", json_object(vec![("root", json_object(vec![("old_type", Json::from("tuple")), ("new_type", Json::from("list")), ("old_value", Json::Array(vec![])), ("new_value", Json::Array(vec![]))]))]))])
    );
}

#[test]
fn tuple_growing_reports_the_surplus_tail_as_added() {
    let report = onix_core::diff::diff(
        &ctup(&[Json::from(1), Json::from(2)]),
        &ctup(&[Json::from(1), Json::from(2), Json::from(3)]),
    )
    .unwrap();
    assert_eq!(
        report.to_json_value(),
        json_object(vec![("iterable_item_added", json_object(vec![("root[2]", Json::from(3))]))])
    );
}

#[test]
fn tuple_of_dicts_recurses_into_the_dict() {
    let report = onix_core::diff::diff(&ctup(&[json_object(vec![("a", Json::from(1))])]), &ctup(&[json_object(vec![("a", Json::from(2))])])).unwrap();
    assert_eq!(
        report.to_json_value(),
        json_object(vec![("values_changed", json_object(vec![("root[0]['a']", json_object(vec![("new_value", Json::from(2)), ("old_value", Json::from(1))]))]))])
    );
}

#[test]
fn tuple_of_scalars_uses_the_same_lcs_match_a_list_would() {
    let report = onix_core::diff::diff(
        &ctup(&[
            Json::from(0),
            Json::from(0),
            Json::from(3),
            Json::from(3),
            Json::from(0),
            Json::from(1),
            Json::from(0),
        ]),
        &ctup(&[Json::from(4), Json::from(3), Json::from(0), Json::from(4)]),
    )
    .unwrap();
    assert_eq!(
        report.to_json_value(),
        json_object(vec![("values_changed", json_object(vec![("root[0]", json_object(vec![("new_value", Json::from(4)), ("old_value", Json::from(0))])), ("root[5]", json_object(vec![("new_value", Json::from(4)), ("old_value", Json::from(1)), ("new_path", Json::from("root[3]"))]))])), ("iterable_item_removed", json_object(vec![("root[1]", Json::from(0)), ("root[2]", Json::from(3)), ("root[6]", Json::from(0))]))])
    );
}

#[test]
fn a_tuple_element_disqualifies_a_list_from_lcs_matching() {
    let report = onix_core::diff::diff(
        &CValue::Array(vec![ctup(&[Json::from(1), Json::from(2)]), cv(&Json::from(3))]),
        &cv(&Json::Array(vec![Json::from(3)])),
    )
    .unwrap();
    assert_eq!(
        report.to_json_value(),
        json_object(vec![("type_changes", json_object(vec![("root[0]", json_object(vec![("old_type", Json::from("tuple")), ("new_type", Json::from("int")), ("old_value", Json::Array(vec![Json::from(1), Json::from(2)])), ("new_value", Json::from(3))]))])), ("iterable_item_removed", json_object(vec![("root[1]", Json::from(3))]))])
    );
}

#[test]
fn python_type_name_of_a_tuple_is_tuple() {
    assert_eq!(onix_core::diff::scalar::python_type_name(&ctup(&[Json::from(1)])), "tuple");
}

#[test]
fn a_tuple_never_equals_a_list_with_the_same_items() {
    assert!(!onix_core::diff::equality::values_equal(
        &ctup(&[Json::from(1), Json::from(2)]),
        &cv(&Json::Array(vec![Json::from(1), Json::from(2)]))
    ));
    assert!(onix_core::diff::equality::values_equal(
        &ctup(&[Json::from(1), Json::from(2)]),
        &ctup(&[Json::from(1), Json::from(2)])
    ));
}

#[test]
fn tuple_nesting_counts_toward_the_value_depth_guard() {
    let nested = CValue::Tuple(vec![ctup(&[Json::from(1)])]);
    assert!(onix_core::diff::depth::deeper_than(&nested, 1));
    assert!(!onix_core::diff::depth::deeper_than(&nested, 2));
}

#[test]
fn a_dict_value_that_is_a_too_deep_tuple_errors_instead_of_being_cloned() {
    let mut deep = CValue::Null;
    for _ in 0..5 {
        deep = CValue::Tuple(vec![deep]);
    }
    let b = CValue::Object(CObject::from_pairs(vec![(
        ObjectKey::Str(String::from("a")),
        deep,
    )]));
    let error = onix_core::diff::diff_with_max_depth(&cv(&json_object(Vec::new())), &b, 4).unwrap_err();
    assert!(matches!(error, Error::MaxDepthExceeded { .. }));
}

fn wrapped(value: CValue) -> CValue {
    let mut builder = onix_core::value::Builder::new();
    builder.object(vec![("t".to_string(), value)])
}

#[test]
fn changed_datetimes_report_the_pair_normalized_to_utc() {
    let report = onix_core::diff::diff(
        &cdt_at(2024, 1, 1, 10, 0, 0, 0, Some(-5 * 3600)),
        &cdt_at(2024, 1, 2, 10, 0, 0, 0, Some(-5 * 3600)),
    )
    .unwrap();

    assert_eq!(
        report.to_json_value(),
        json_object(vec![("values_changed", json_object(vec![("root", json_object(vec![("new_value", Json::from("2024-01-02T15:00:00+00:00")), ("old_value", Json::from("2024-01-01T15:00:00+00:00"))]))]))])
    );
}

#[test]
fn datetimes_at_the_same_instant_report_nothing_however_they_are_written() {
    for new in [
        cdt_at(2024, 1, 1, 10, 0, 0, 0, Some(0)),
        cdt_at(2024, 1, 1, 12, 0, 0, 0, Some(2 * 3600)),
        cdt_at(2024, 1, 1, 5, 0, 0, 0, Some(-5 * 3600)),
    ] {
        let old = cdt_at(2024, 1, 1, 10, 0, 0, 0, None);

        assert!(onix_core::diff::diff(&old, &new).unwrap().is_empty());
        assert!(
            onix_core::diff::diff(&wrapped(old), &wrapped(new))
                .unwrap()
                .is_empty(),
            "the same rule must hold one level down"
        );
    }
}

#[test]
fn a_datetime_outside_values_changed_keeps_its_raw_rendering() {
    let added = onix_core::diff::diff(
        &cv(&json_object(Vec::new())),
        &wrapped(cdt_at(2024, 1, 1, 10, 0, 0, 0, Some(1830))),
    )
    .unwrap();
    let type_changed = onix_core::diff::diff(
        &cdt_at(2024, 1, 1, 0, 0, 0, 0, None),
        &cv(&Json::from("2024-01-01")),
    )
    .unwrap();

    assert_eq!(
        added.to_json_value(),
        json_object(vec![("dictionary_item_added", json_object(vec![("root['t']", Json::from("2024-01-01T10:00:00+00:30:30"))]))])
    );
    assert_eq!(
        type_changed.to_json_value(),
        json_object(vec![("type_changes", json_object(vec![("root", json_object(vec![("old_type", Json::from("datetime")), ("new_type", Json::from("str")), ("old_value", Json::from("2024-01-01T00:00:00")), ("new_value", Json::from("2024-01-01"))]))]))])
    );
}

#[test]
fn dates_compare_by_value_and_are_never_a_datetime() {
    let changed = onix_core::diff::diff(&cdate(2024, 1, 1), &cdate(2024, 1, 2)).unwrap();
    let retyped = onix_core::diff::diff(&cdate(2024, 1, 1), &cdt(2024, 1, 1, None)).unwrap();

    assert_eq!(
        changed.to_json_value(),
        json_object(vec![("values_changed", json_object(vec![("root", json_object(vec![("new_value", Json::from("2024-01-02")), ("old_value", Json::from("2024-01-01"))]))]))])
    );
    assert_eq!(
        retyped.to_json_value(),
        json_object(vec![("type_changes", json_object(vec![("root", json_object(vec![("old_type", Json::from("date")), ("new_type", Json::from("datetime")), ("old_value", Json::from("2024-01-01")), ("new_value", Json::from("2024-01-01T00:00:00"))]))]))])
    );
    assert!(
        onix_core::diff::diff(&cdate(2024, 1, 1), &cdate(2024, 1, 1))
            .unwrap()
            .is_empty()
    );
}

#[test]
fn calendar_type_names_are_datetime_and_date() {
    assert_eq!(onix_core::diff::scalar::python_type_name(&cdt(2024, 1, 1, None)), "datetime");
    assert_eq!(onix_core::diff::scalar::python_type_name(&cdate(2024, 1, 1)), "date");
}

#[test]
fn a_list_of_datetimes_takes_the_difflib_path() {
    let report = onix_core::diff::diff(
        &CValue::Array(
            vec![
                cdt(2024, 1, 1, None),
                cdt(2024, 1, 2, None),
                cdt(2024, 1, 3, None),
            ],
        ),
        &CValue::Array(
            vec![
                cdt(2024, 1, 2, None),
                cdt(2024, 1, 3, None),
                cdt(2024, 1, 4, None),
            ],
        ),
    )
    .unwrap();

    assert_eq!(
        report.to_json_value(),
        json_object(vec![("iterable_item_removed", json_object(vec![("root[0]", Json::from("2024-01-01T00:00:00"))])), ("iterable_item_added", json_object(vec![("root[2]", Json::from("2024-01-04T00:00:00"))]))])
    );
}

#[test]
fn a_naive_and_aware_pair_matched_by_difflib_replace_reports_nothing_at_a_drifted_index() {
    let report = onix_core::diff::diff(
        &CValue::Array(
            vec![
                cv(&Json::from("x")),
                cv(&Json::from("y")),
                cdt_at(2024, 1, 1, 10, 0, 0, 0, None),
            ],
        ),
        &CValue::Array(
            vec![
                cv(&Json::from("y")),
                cdt_at(2024, 1, 1, 12, 0, 0, 0, Some(2 * 3600)),
            ],
        ),
    )
    .unwrap();

    assert_eq!(
        report.to_json_value(),
        json_object(vec![("iterable_item_removed", json_object(vec![("root[0]", Json::from("x"))]))])
    );
}

#[test]
fn a_datetime_pair_matched_by_difflib_replace_is_normalized_and_keeps_new_path() {
    let report = onix_core::diff::diff(
        &CValue::Array(
            vec![
                cv(&Json::from("x")),
                cv(&Json::from("y")),
                cdt_at(2024, 1, 1, 10, 0, 0, 0, None),
            ],
        ),
        &CValue::Array(
            vec![
                cv(&Json::from("y")),
                cdt_at(2024, 1, 2, 12, 0, 0, 0, Some(2 * 3600)),
            ],
        ),
    )
    .unwrap();

    assert_eq!(
        report.to_json_value(),
        json_object(vec![("values_changed", json_object(vec![("root[2]", json_object(vec![("new_value", Json::from("2024-01-02T10:00:00+00:00")), ("old_value", Json::from("2024-01-01T10:00:00+00:00")), ("new_path", Json::from("root[1]"))]))])), ("iterable_item_removed", json_object(vec![("root[0]", Json::from("x"))]))])
    );
}

#[test]
fn comparing_two_datetimes_that_cannot_normalize_to_utc_is_an_error_naming_the_path() {
    let extreme = cdt_at(9999, 12, 31, 23, 0, 0, 0, Some(-3600));
    let ordinary = cdt_at(2024, 1, 1, 10, 0, 0, 0, None);

    let error = onix_core::diff::diff(&wrapped(extreme.clone()), &wrapped(ordinary))
        .expect_err("an unnormalizable pair has no report");

    assert_eq!(
        error,
        Error::DateTimeOutOfRange {
            path: "root['t']".to_string(),
        }
    );
}

#[test]
fn an_unnormalizable_datetime_still_diffs_when_it_is_never_compared_to_another_one() {
    let extreme = cdt_at(9999, 12, 31, 23, 0, 0, 0, Some(-3600));

    let added = onix_core::diff::diff(&cv(&json_object(Vec::new())), &wrapped(extreme.clone())).unwrap();
    let retyped = onix_core::diff::diff(&extreme, &cv(&Json::from(5))).unwrap();

    assert_eq!(
        added.to_json_value(),
        json_object(vec![("dictionary_item_added", json_object(vec![("root['t']", Json::from("9999-12-31T23:00:00-01:00"))]))])
    );
    assert_eq!(
        retyped.to_json_value(),
        json_object(vec![("type_changes", json_object(vec![("root", json_object(vec![("old_type", Json::from("datetime")), ("new_type", Json::from("int")), ("old_value", Json::from("9999-12-31T23:00:00-01:00")), ("new_value", Json::from(5))]))]))])
    );
}

#[test]
fn an_unnormalizable_datetime_under_ignore_order_is_reported_raw() {
    let extreme = cdt_at(9999, 12, 31, 23, 0, 0, 0, Some(-3600));
    let opts = onix_core::diff::DiffOptions {
        ignore_order: true,
        ..onix_core::diff::DiffOptions::default()
    };
    let list = |items: Vec<CValue>| CValue::Array(items);

    let added = onix_core::diff::diff_with_options(
        &list(vec![cv(&Json::from(1))]),
        &list(vec![cv(&Json::from(1)), extreme.clone()]),
        &opts,
    )
    .unwrap();
    let shuffled = onix_core::diff::diff_with_options(
        &list(vec![cv(&Json::from(1)), extreme.clone()]),
        &list(vec![extreme, cv(&Json::from(1))]),
        &opts,
    )
    .unwrap();

    assert_eq!(
        added.to_json_value(),
        json_object(vec![("iterable_item_added", json_object(vec![("root[1]", Json::from("9999-12-31T23:00:00-01:00"))]))])
    );
    assert!(shuffled.is_empty());
}

fn diff_compact(a: &CValue, b: &CValue) -> Result<Report, Error> {
    onix_core::diff::diff(a, b)
}

#[test]
fn set_reports_added_and_removed_items() {
    let report = diff_compact(
        &cset(&[Json::from(1), Json::from(2), Json::from(3)]),
        &cset(&[Json::from(2), Json::from(3), Json::from(4)]),
    )
    .expect("shallow sets diff cleanly");

    assert_eq!(
        report.to_json_value(),
        json_object(vec![("set_item_added", Json::Array(vec![Json::from("root[4]")])), ("set_item_removed", Json::Array(vec![Json::from("root[1]")]))])
    );
}

#[test]
fn a_set_with_the_same_items_in_another_order_reports_nothing() {
    let report = diff_compact(&cset(&[Json::from(1), Json::from(2)]), &cset(&[Json::from(2), Json::from(1)]))
        .expect("shallow sets diff cleanly");

    assert!(report.is_empty());
}

#[test]
fn set_findings_carry_the_sets_own_path() {
    let mut builder = onix_core::value::Builder::new();
    let a = builder.object(vec![("a".to_string(), cset(&[Json::from(1), Json::from(2)]))]);
    let b = builder.object(vec![("a".to_string(), cset(&[Json::from(1)]))]);

    assert_eq!(
        diff_compact(&a, &b)
            .expect("shallow sets diff cleanly")
            .to_json_value(),
        json_object(vec![("set_item_removed", Json::Array(vec![Json::from("root['a'][2]")]))])
    );
}

#[test]
fn set_membership_is_type_aware_for_numbers() {
    for (a, b, removed, added) in [
        (Json::from(1), Json::from(1.0), "root[1]", "root[1.0]"),
        (Json::Bool(true), Json::from(1), "root[True]", "root[1]"),
    ] {
        assert_eq!(
            diff_compact(
                &cset(std::slice::from_ref(&a)),
                &cset(std::slice::from_ref(&b)),
            )
            .expect("shallow sets diff cleanly")
            .to_json_value(),
            json_object(vec![("set_item_added", Json::Array(vec![serde_json::to_value(&(added)).unwrap()])), ("set_item_removed", Json::Array(vec![serde_json::to_value(&(removed)).unwrap()]))]),
            "{a} vs {b}"
        );
    }
}

#[test]
fn a_container_set_item_is_compared_by_python_equality() {
    let tuples = diff_compact(
        &CValue::MutableSet(SetItems::new(vec![ctup(&[Json::from(1)])])),
        &CValue::MutableSet(SetItems::new(vec![ctup(&[Json::from(1.0)])])),
    )
    .expect("shallow sets diff cleanly");
    assert!(tuples.is_empty());

    let frozensets = diff_compact(
        &CValue::MutableSet(SetItems::new(vec![cfrozen(&[Json::from(1)])])),
        &CValue::MutableSet(SetItems::new(vec![cfrozen(&[Json::from(1.0)])])),
    )
    .expect("shallow sets diff cleanly");
    assert!(frozensets.is_empty());
}

#[test]
fn a_set_and_a_frozenset_are_a_type_change() {
    let report =
        diff_compact(&cset(&[Json::from(1)]), &cfrozen(&[Json::from(1)])).expect("shallow sets diff cleanly");

    assert_eq!(
        report.to_json_value(),
        json_object(vec![("type_changes", json_object(vec![("root", json_object(vec![("old_type", Json::from("set")), ("new_type", Json::from("frozenset")), ("old_value", Json::Array(vec![Json::from(1)])), ("new_value", Json::Array(vec![Json::from(1)]))]))]))])
    );
}

#[test]
fn python_type_name_names_both_set_kinds() {
    assert_eq!(onix_core::diff::scalar::python_type_name(&cset(&[])), "set");
    assert_eq!(onix_core::diff::scalar::python_type_name(&cfrozen(&[])), "frozenset");
}

#[test]
fn a_set_element_disqualifies_a_list_from_the_lcs_match() {
    assert!(!onix_core::scalar_key::all_basic_scalars(&[cset(&[Json::from(1)])]));
    assert!(!onix_core::scalar_key::all_basic_scalars(&[cfrozen(&[Json::from(1)])]));
}

#[test]
fn a_sets_report_does_not_depend_on_its_member_order() {
    let float_tuple = CValue::Tuple(Vec::from([ctup(&[Json::from(1.0)])]));
    let int_tuple = CValue::Tuple(Vec::from([ctup(&[Json::from(1)]), cv(&Json::from(0))]));
    let b = CValue::MutableSet(SetItems::new(vec![CValue::Tuple(Vec::from([ctup(&[
        Json::from(1),
        Json::from(1),
    ])]))]));

    let expected = json_object(vec![("set_item_added", Json::Array(vec![Json::from("root[((1, 1),)]")])), ("set_item_removed", Json::Array(vec![Json::from("root[((1,), 0)]"), Json::from("root[((1.0,),)]")]))]);
    for members in [
        vec![float_tuple.clone(), int_tuple.clone()],
        vec![int_tuple, float_tuple],
    ] {
        assert_eq!(
            diff_compact(&CValue::MutableSet(SetItems::new(members)), &b)
                .expect("shallow sets diff cleanly")
                .to_json_value(),
            expected
        );
    }
}

#[test]
fn a_set_versus_list_type_change_does_not_depend_on_order() {
    let opts = onix_core::diff::DiffOptions {
        ignore_order: true,
        ..onix_core::diff::DiffOptions::default()
    };
    let listed = |value: CValue| CValue::Array(Vec::from([value]));
    let members = || vec![cv(&Json::from(75)), cv(&Json::from(47))];
    let mut reversed = members();
    reversed.reverse();

    for set_members in [members(), reversed] {
        for list in [Json::Array(vec![Json::from(75), Json::from(47)]), Json::Array(vec![Json::from(47), Json::from(75)])] {
            let report = onix_core::diff::diff_with_options(
                &listed(CValue::MutableSet(SetItems::new(set_members.clone()))),
                &listed(cv(&list)),
                &opts,
            )
            .expect("shallow values diff cleanly");
            assert_eq!(
                report.to_json_value()["type_changes"]["root[0]"]["new_type"],
                Json::from("list"),
                "for set {set_members:?} against {list}"
            );
        }
    }
}

#[test]
fn a_duplicate_set_member_is_reported_once() {
    let with_duplicate = CValue::MutableSet(SetItems::new(vec![
        cv(&Json::from("x")),
        cv(&Json::from("x")),
        cv(&Json::from("y")),
    ]));

    assert_eq!(
        diff_compact(&with_duplicate, &cset(&[Json::from("y")]))
            .expect("shallow sets diff cleanly")
            .to_json_value(),
        json_object(vec![("set_item_removed", Json::Array(vec![Json::from("root['x']")]))])
    );
}

#[test]
fn a_too_deep_set_item_reports_max_depth_exceeded() {
    let deep = |nesting: usize| {
        let mut value = ctup(&[Json::from(1)]);
        for _ in 1..nesting {
            value = CValue::Tuple(Vec::from([value]));
        }
        CValue::MutableSet(SetItems::new(vec![value]))
    };

    assert!(onix_core::diff::diff_with_max_depth(&deep(2), &cset(&[Json::from(9)]), 3).is_ok());
    assert!(matches!(
        onix_core::diff::diff_with_max_depth(&deep(3), &cset(&[Json::from(9)]), 3),
        Err(Error::MaxDepthExceeded { .. })
    ));
}

/// A value inside `depth` dicts of one entry; not to be dropped where it is
/// deep, for that would take as many calls.
fn deep_dict(depth: usize, leaf: CValue) -> CValue {
    let mut value = leaf;
    for _ in 0..depth {
        value = CValue::Object(CObject::from_pairs(vec![(
            ObjectKey::Str("k".to_string()),
            value,
        )]));
    }
    value
}

/// A value inside `depth` lists of one item; not to be dropped where it is deep.
fn deep_array(depth: usize, leaf: CValue) -> CValue {
    let mut value = leaf;
    for _ in 0..depth {
        value = CValue::Array(vec![value]);
    }
    value
}

#[test]
fn values_equal_handles_deeply_nested_equal_dicts_without_crashing() {
    let a = deep_dict(RECURSION_OVERFLOW_DEPTH, cv(&Json::from("leaf")));
    let b = deep_dict(RECURSION_OVERFLOW_DEPTH, cv(&Json::from("leaf")));
    assert!(onix_core::diff::equality::values_equal(&a, &b));
    std::mem::forget((a, b));
}

#[test]
fn values_equal_handles_deeply_nested_equal_arrays_without_crashing() {
    let a = deep_array(RECURSION_OVERFLOW_DEPTH, cv(&Json::from(1)));
    let b = deep_array(RECURSION_OVERFLOW_DEPTH, cv(&Json::from(1)));
    assert!(onix_core::diff::equality::values_equal(&a, &b));
    std::mem::forget((a, b));
}

#[test]
fn values_equal_handles_deeply_nested_unequal_dicts_without_crashing() {
    let a = deep_dict(RECURSION_OVERFLOW_DEPTH, cv(&Json::from("a")));
    let b = deep_dict(RECURSION_OVERFLOW_DEPTH, cv(&Json::from("b")));
    assert!(!onix_core::diff::equality::values_equal(&a, &b));
    std::mem::forget((a, b));
}

#[test]
fn deeper_than_handles_a_deeply_nested_value_without_crashing() {
    let value = deep_array(RECURSION_OVERFLOW_DEPTH, cv(&Json::from(1)));
    assert!(onix_core::diff::depth::deeper_than(&value, DEFAULT_MAX_DEPTH));
    std::mem::forget(value);
}

#[test]
fn threshold_collapse_rejects_a_deep_side_on_a_constrained_stack_instead_of_crashing() {
    let deep = deep_array(RECURSION_OVERFLOW_DEPTH, cv(&Json::from(1)));
    let a = CValue::Object(CObject::from_pairs(vec![
        (ObjectKey::Str("p".to_string()), cv(&Json::from(1))),
        (ObjectKey::Str("q".to_string()), cv(&Json::from(2))),
    ]));
    let b = CValue::Object(CObject::from_pairs(vec![
        (ObjectKey::Str("r".to_string()), cv(&Json::from(3))),
        (ObjectKey::Str("deep".to_string()), deep),
    ]));

    let err = onix_core::diff::diff_with_max_depth(&a, &b, 1).unwrap_err();
    assert_eq!(
        err,
        Error::MaxDepthExceeded {
            path: "root".to_string(),
            max_depth: 1,
        }
    );
    std::mem::forget(b);
}
