//! Comparing lists without regard to order.

use onix_core::diff::DiffOptions;
use onix_core::ignore_order::candidates::Candidate;
use onix_core::ignore_order::dict_keys::THRESHOLD_TO_DIFF_DEEPER;
use onix_core::ignore_order::digest::digest_of;
use onix_core::ignore_order::fxhash::{FxHasher, FX_SEED};
use onix_core::ignore_order::memo::IgnoreOrderMemo;
use onix_core::order::{Ordered, Place};
use onix_core::path::python_repr;
use onix_core::report::Report;
use onix_core::value::{Number, Object as CObject, ObjectKey, SetItems, Value as CValue};
use onix_core::{Date, DateTime};
use serde_json::Value as Json;

/// A JSON object.
fn json_object(entries: Vec<(&str, Json)>) -> Json {
    Json::Object(
        entries
            .into_iter()
            .map(|(key, value)| (key.to_string(), value))
            .collect(),
    )
}

/// The number that a float is.
fn float_number(f: f64) -> Number {
    Number::from_f64(f.to_bits()).unwrap()
}

/// The number that a JSON number is.
fn cnum(n: &serde_json::Number) -> Number {
    if let Some(u) = n.as_u64() {
        Number::from_u64(u)
    } else if let Some(i) = n.as_i64() {
        Number::from_i64(i)
    } else {
        float_number(n.as_f64().unwrap())
    }
}

/// The value that a JSON value is.
fn cv(value: &Json) -> CValue {
    match value {
        Json::Null => CValue::Null,
        Json::Bool(b) => CValue::Bool(*b),
        Json::Number(n) => CValue::Number(cnum(n)),
        Json::String(s) => CValue::Str(s.clone()),
        Json::Array(items) => CValue::Array(cvec(items)),
        Json::Object(map) => CValue::Object(cobj(map)),
    }
}

/// The values that JSON values are.
fn cvec(items: &[Json]) -> Vec<CValue> {
    items.iter().map(cv).collect()
}

/// The dict that a JSON object is.
fn cobj(map: &serde_json::Map<String, Json>) -> CObject {
    CObject::from_pairs(
        map.iter()
            .map(|(key, value)| (ObjectKey::Str(key.clone()), cv(value)))
            .collect(),
    )
}

/// The text under a key, as JSON has it.
fn key_text(key: &ObjectKey) -> String {
    match key {
        ObjectKey::Str(s) => s.clone(),
        ObjectKey::Other(value) => python_repr(value),
    }
}

/// A value as JSON has it.
fn json_of(value: &CValue) -> Json {
    match value {
        CValue::Null => Json::Null,
        CValue::Bool(b) => Json::Bool(*b),
        CValue::Number(Number::Int(i)) => Json::from(*i),
        CValue::Number(Number::Uint(u)) => Json::from(*u),
        CValue::Number(Number::Float(f)) => Json::from(f64::from_bits(f.bits)),
        CValue::Str(s) => Json::from(s.as_str()),
        CValue::DateTime(d) => Json::from(d.isoformat()),
        CValue::Date(d) => Json::from(d.isoformat()),
        CValue::Time(t) => Json::from(t.isoformat()),
        CValue::TimeDelta(d) => Json::from(
            d.whole_seconds() as f64 + d.microseconds() as f64 / 1_000_000.0,
        ),
        CValue::Array(items) | CValue::Tuple(items) => {
            Json::Array(items.iter().map(json_of).collect())
        }
        CValue::MutableSet(items) | CValue::FrozenSet(items) => {
            Json::Array(items.to_vec().iter().map(json_of).collect())
        }
        CValue::Object(object) => Json::Object(
            (0..object.len())
                .map(|i| (key_text(object.key_at(i)), json_of(object.value_at(i))))
                .collect(),
        ),
    }
}

/// Reports as JSON has them.
trait ToJson {
    fn to_json_value(&self) -> Json;
}

impl ToJson for Report {
    fn to_json_value(&self) -> Json {
        json_of(&self.to_value())
    }
}

fn ctup(items: &[Json]) -> CValue {
    CValue::Tuple(cvec(items))
}

fn cset(items: &[Json]) -> CValue {
    CValue::MutableSet(SetItems::new(cvec(items)))
}

fn cfrozen(items: &[Json]) -> CValue {
    CValue::FrozenSet(SetItems::new(cvec(items)))
}

fn cdate(year: i32, month: u8, day: u8) -> CValue {
    CValue::Date(Date::new(year, month, day).unwrap())
}

fn cdt(year: i32, month: u8, day: u8, offset: Option<i32>) -> CValue {
    cdt_at(year, month, day, 0, 0, 0, 0, offset)
}

fn cdt_at(
    year: i32,
    month: u8,
    day: u8,
    hour: u8,
    minute: u8,
    second: u8,
    microsecond: u32,
    offset: Option<i32>,
) -> CValue {
    let date = Date::new(year, month, day).unwrap();
    CValue::DateTime(DateTime::new(date, hour, minute, second, microsecond, offset).unwrap())
}


/// The largest distance that lets two items pair.
const CUTOFF_DISTANCE_FOR_PAIRS: f64 = 0.3;

fn numeric_value(value: &Json) -> Option<f64> {
    onix_core::ignore_order::numeric::numeric_value(&cv(value)).map(f64::from_bits)
}

fn numeric_distance(x: f64, y: f64, cutoff: f64) -> f64 {
    f64::from_bits(onix_core::ignore_order::numeric::numeric_distance(
        x.to_bits(),
        y.to_bits(),
        cutoff.to_bits(),
    ))
}

fn rough_distance(
    removed: &CValue,
    added: &CValue,
    cutoff: f64,
    depth: u128,
    opts: &DiffOptions,
    memo: &mut IgnoreOrderMemo<'_>,
) -> f64 {
    f64::from_bits(onix_core::ignore_order::distance::rough_distance(
        removed,
        added,
        cutoff.to_bits(),
        depth,
        opts,
        memo,
    ))
}

fn is_length_excluded_key(key: &str) -> bool {
    onix_core::ignore_order::length::is_length_excluded_key(key)
}

fn count_diff_leaves(a: &Json, b: &Json, depth: u128, opts: &DiffOptions) -> usize {
    onix_core::ignore_order::distance::count_diff_leaves(
        &cv(a),
        &cv(b),
        depth,
        opts,
        &mut IgnoreOrderMemo::new(),
    )
}

fn count_object_diff_leaves(
    a: &serde_json::Map<String, Json>,
    b: &serde_json::Map<String, Json>,
    depth: u128,
    opts: &DiffOptions,
) -> usize {
    onix_core::ignore_order::distance::count_object_diff_leaves(
        &cobj(a),
        &cobj(b),
        depth,
        opts,
        &mut IgnoreOrderMemo::new(),
    )
}

fn count_array_diff_leaves(a: &[Json], b: &[Json], depth: u128, opts: &DiffOptions) -> usize {
    onix_core::ignore_order::distance::count_array_diff_leaves(
        &cvec(a),
        &cvec(b),
        depth,
        opts,
        &mut IgnoreOrderMemo::new(),
    )
}

/// Whether two items have the same key.
fn same_key(a: &CValue, b: &CValue) -> bool {
    let mut memo = IgnoreOrderMemo::new();
    let first = onix_core::ignore_order::hash::item_key(a, &mut memo);
    first == onix_core::ignore_order::hash::item_key(b, &mut memo)
}

/// The number under which a value's distances are remembered.
fn dist_number(value: &CValue, memo: &mut IgnoreOrderMemo<'_>) -> usize {
    let item = onix_core::ignore_order::hash::item_key(value, memo);
    memo.hold(item, value)
}

fn diff_with_options(
    a: &Json,
    b: &Json,
    opts: &DiffOptions,
) -> Result<onix_core::report::Report, onix_core::error::Error> {
    onix_core::diff::diff_with_options(&cv(a), &cv(b), opts)
}

fn item_length(value: &Json) -> usize {
    onix_core::ignore_order::length::item_length(&cv(value))
}

fn type_change_leaf_length(a: &Json, b: &Json) -> usize {
    onix_core::ignore_order::coerce::type_change_leaf_length(&cv(a), &cv(b))
}

fn rough_length(value: &Json) -> usize {
    onix_core::ignore_order::length::rough_length(&cv(value))
}

fn ignore_order_diff(a: &Json, b: &Json) -> Json {
    diff_with_options(
        a,
        b,
        &DiffOptions {
            ignore_order: true,
            ..DiffOptions::default()
        },
    )
    .unwrap()
    .to_json_value()
}

#[test]
fn pure_shuffle_is_empty() {
    assert_eq!(
        ignore_order_diff(&Json::Array(vec![Json::from(1), Json::from(2), Json::from(3)]), &Json::Array(vec![Json::from(3), Json::from(2), Json::from(1)])),
        json_object(Vec::new())
    );
}

#[test]
fn duplicates_multiplicity_change_is_invisible() {
    assert_eq!(
        ignore_order_diff(&Json::Array(vec![Json::from(1), Json::from(1), Json::from(2)]), &Json::Array(vec![Json::from(1), Json::from(2), Json::from(2)])),
        json_object(Vec::new())
    );
}

#[test]
fn nested_list_reorder_inside_a_shuffled_outer_list_is_empty() {
    assert_eq!(
        ignore_order_diff(&Json::Array(vec![Json::Array(vec![Json::from(1), Json::from(2), Json::from(3)]), Json::from("x")]), &Json::Array(vec![Json::from("x"), Json::Array(vec![Json::from(3), Json::from(2), Json::from(1)])])),
        json_object(Vec::new())
    );
}

#[test]
fn gate_below_threshold_engages_real_pairing() {
    let a: Vec<i64> = (0..100).collect();
    let mut b = a.clone();
    b.reverse();
    b[0] = 100_000;
    let result = ignore_order_diff(&serde_json::to_value(&(a)).unwrap(), &serde_json::to_value(&(b)).unwrap());
    let changed = result["values_changed"].as_object().unwrap();
    assert_eq!(changed.len(), 1);
    assert!(result.get("iterable_item_added").is_none());
    assert!(result.get("iterable_item_removed").is_none());
}

#[test]
fn gate_above_threshold_falls_back_to_raw_add_remove_plus_merge() {
    assert_eq!(
        ignore_order_diff(&Json::Array(vec![Json::from(1), Json::from(1), Json::from(2)]), &Json::Array(vec![Json::from(3), Json::from(4)])),
        json_object(vec![("values_changed", json_object(vec![("root[0]", json_object(vec![("new_value", Json::from(3)), ("old_value", Json::from(1))]))])), ("iterable_item_added", json_object(vec![("root[1]", Json::from(4))])), ("iterable_item_removed", json_object(vec![("root[2]", Json::from(2))]))])
    );
}

#[test]
fn one_sided_lists_are_all_added_or_all_removed() {
    assert_eq!(
        ignore_order_diff(&Json::Array(vec![]), &Json::Array(vec![Json::from(1), Json::from(2), Json::from(3)])),
        json_object(vec![("iterable_item_added", json_object(vec![("root[0]", Json::from(1)), ("root[1]", Json::from(2)), ("root[2]", Json::from(3))]))])
    );
    assert_eq!(
        ignore_order_diff(&Json::Array(vec![Json::from(1), Json::from(2), Json::from(3)]), &Json::Array(vec![])),
        json_object(vec![("iterable_item_removed", json_object(vec![("root[0]", Json::from(1)), ("root[1]", Json::from(2)), ("root[2]", Json::from(3))]))])
    );
}

#[test]
fn nested_dict_pairing_with_index_drift_retags_a_nested_finding() {
    let t1 = Json::Array(vec![json_object(vec![("id", Json::from(1)), ("meta", json_object(vec![("x", Json::from(1))]))]), Json::from("anchorA"), Json::from("anchorB"), Json::from("anchorC")]);
    let t2 = Json::Array(vec![Json::from("anchorA"), Json::from("anchorB"), Json::from("anchorC"), json_object(vec![("id", Json::from(1)), ("meta", json_object(vec![("x", Json::from(2))]))])]);
    assert_eq!(
        ignore_order_diff(&t1, &t2),
        json_object(vec![("values_changed", json_object(vec![("root[0]['meta']['x']", json_object(vec![("new_value", Json::from(2)), ("old_value", Json::from(1)), ("new_path", Json::from("root[3]['meta']['x']"))]))]))])
    );
}

#[test]
fn dictionary_item_added_nested_in_a_paired_container_has_no_new_path() {
    let t1 = Json::Array(vec![json_object(vec![("id", Json::from(1)), ("meta", json_object(vec![("x", Json::from(1))]))]), Json::from("anchorA"), Json::from("anchorB"), Json::from("anchorC")]);
    let t2 = Json::Array(vec![Json::from("anchorA"), Json::from("anchorB"), Json::from("anchorC"), json_object(vec![("id", Json::from(1)), ("meta", json_object(vec![("x", Json::from(1))])), ("extra", Json::from(9))])]);
    assert_eq!(
        ignore_order_diff(&t1, &t2),
        json_object(vec![("dictionary_item_added", json_object(vec![("root[0]['extra']", Json::from(9))]))])
    );
}

#[test]
fn type_change_under_ignore_order_pairing() {
    let result = ignore_order_diff(&Json::Array(vec![Json::from(1), Json::from("2"), Json::from(3.0)]), &Json::Array(vec![Json::from(3.0), Json::from(2), Json::from("1")]));
    let changed = &result["values_changed"];
    assert_eq!(changed["root[0]"]["old_value"], Json::from(1));
    assert_eq!(changed["root[0]"]["new_value"], Json::from(2));
}

#[test]
fn int_vs_float_single_element_pairs_and_type_changes() {
    assert_eq!(
        ignore_order_diff(&Json::Array(vec![Json::from(1)]), &Json::Array(vec![Json::from(1.0)])),
        json_object(vec![("type_changes", json_object(vec![("root[0]", json_object(vec![("old_type", Json::from("int")), ("new_type", Json::from("float")), ("old_value", Json::from(1)), ("new_value", Json::from(1.0))]))]))])
    );
}

#[test]
fn list_in_dict_in_list_recurses_ignore_order_at_every_level() {
    let t1 = Json::Array(vec![json_object(vec![("tags", Json::Array(vec![Json::from("x"), Json::from("y"), Json::from("z")]))]), Json::from("anchor")]);
    let t2 = Json::Array(vec![Json::from("anchor"), json_object(vec![("tags", Json::Array(vec![Json::from("z"), Json::from("y"), Json::from("x")]))])]);
    assert_eq!(ignore_order_diff(&t1, &t2), json_object(Vec::new()));
}

#[test]
fn equal_inputs_of_any_shape_are_empty() {
    assert_eq!(ignore_order_diff(&Json::Null, &Json::Null), json_object(Vec::new()));
    assert_eq!(ignore_order_diff(&Json::Array(vec![]), &Json::Array(vec![])), json_object(Vec::new()));
    assert_eq!(ignore_order_diff(&Json::Array(vec![Json::from(1)]), &Json::Array(vec![Json::from(1)])), json_object(Vec::new()));
}

#[test]
fn max_depth_exceeded_on_an_over_budget_item_is_a_clean_error() {
    let mut deep = Json::from(1);
    for _ in 0..10 {
        deep = Json::Array(vec![serde_json::to_value(&(deep)).unwrap()]);
    }
    let err = diff_with_options(
        &Json::Array(vec![Json::from(0)]),
        &Json::Array(vec![serde_json::to_value(&(deep)).unwrap()]),
        &DiffOptions {
            max_depth: 3,
            ignore_order: true,
        },
    )
    .unwrap_err();
    assert!(matches!(err, onix_core::error::Error::MaxDepthExceeded { .. }));
}

#[test]
fn max_depth_boundary_is_exact_for_an_item_on_the_a_side() {
    let err = diff_with_options(
        &Json::Array(vec![json_object(vec![("a", json_object(vec![("b", Json::from(1))]))])]),
        &Json::Array(vec![Json::from(0)]),
        &DiffOptions {
            max_depth: 2,
            ignore_order: true,
        },
    )
    .unwrap_err();
    assert!(matches!(err, onix_core::error::Error::MaxDepthExceeded { .. }));
}

#[test]
fn max_depth_boundary_is_exact_for_an_item_on_the_b_side() {
    let err = diff_with_options(
        &Json::Array(vec![Json::from(0)]),
        &Json::Array(vec![json_object(vec![("a", json_object(vec![("b", Json::from(1))]))])]),
        &DiffOptions {
            max_depth: 2,
            ignore_order: true,
        },
    )
    .unwrap_err();
    assert!(matches!(err, onix_core::error::Error::MaxDepthExceeded { .. }));
}

#[test]
fn get_pairs_gate_ratio_uses_the_sum_of_added_and_removed_not_their_product() {
    assert_eq!(
        ignore_order_diff(&Json::Array(vec![Json::from(1), Json::from(2), Json::from(3), Json::from(4)]), &Json::Array(vec![Json::from(100)])),
        json_object(vec![("values_changed", json_object(vec![("root[0]", json_object(vec![("new_value", Json::from(100)), ("old_value", Json::from(1))]))])), ("iterable_item_removed", json_object(vec![("root[1]", Json::from(2)), ("root[2]", Json::from(3)), ("root[3]", Json::from(4))]))])
    );
}

#[test]
fn paired_recursion_depth_boundary_is_exact() {
    let anchors: Vec<Json> = (0..10).map(|i| serde_json::to_value(&(format!("anchor{i}"))).unwrap()).collect();
    let mut a = anchors.clone();
    a.push(json_object(vec![("a", json_object(vec![("b", Json::from(1))]))]));
    let mut b = anchors;
    b.push(json_object(vec![("a", json_object(vec![("b", Json::from(9))]))]));

    let err = diff_with_options(
        &serde_json::to_value(&(a)).unwrap(),
        &serde_json::to_value(&(b)).unwrap(),
        &DiffOptions {
            max_depth: 2,
            ignore_order: true,
        },
    )
    .unwrap_err();
    assert!(matches!(err, onix_core::error::Error::MaxDepthExceeded { .. }));
}

#[test]
fn item_key_handles_a_u64_beyond_i64_range() {
    let a = Json::Array(vec![Json::from(1), Json::from(18_446_744_073_709_551_615u64)]);
    let b = Json::Array(vec![Json::from(18_446_744_073_709_551_615u64), Json::from(1)]);
    assert_eq!(ignore_order_diff(&a, &b), json_object(Vec::new()));
}

#[test]
fn numeric_pairing_at_two_distances_reuses_the_used_check_across_buckets() {
    let anchors: Vec<Json> = (0..10).map(|i| serde_json::to_value(&(format!("anchor{i}"))).unwrap()).collect();
    let mut a = anchors.clone();
    a.push(Json::from(4));
    a.push(Json::from(100));
    let mut b = anchors;
    b.push(Json::from(5));

    assert_eq!(
        ignore_order_diff(&serde_json::to_value(&(a)).unwrap(), &serde_json::to_value(&(b)).unwrap()),
        json_object(vec![("values_changed", json_object(vec![("root[10]", json_object(vec![("new_value", Json::from(5)), ("old_value", Json::from(4))]))])), ("iterable_item_removed", json_object(vec![("root[11]", Json::from(100))]))])
    );
}

#[test]
fn distance_pairing_tie_between_two_records_favors_the_earliest_t1_index() {
    let anchors: Vec<Json> = (0..10).map(|i| serde_json::to_value(&(format!("anchor{i}"))).unwrap()).collect();
    let mut a = anchors.clone();
    a.push(json_object(vec![("a", Json::from(1)), ("b", Json::from(1))]));
    a.push(json_object(vec![("a", Json::from(1)), ("b", Json::from(2))]));
    let mut b = anchors;
    b.push(json_object(vec![("a", Json::from(1)), ("b", Json::from(3))]));

    assert_eq!(
        ignore_order_diff(&serde_json::to_value(&(a)).unwrap(), &serde_json::to_value(&(b)).unwrap()),
        json_object(vec![("values_changed", json_object(vec![("root[10]['b']", json_object(vec![("new_value", Json::from(3)), ("old_value", Json::from(1))]))])), ("iterable_item_removed", json_object(vec![("root[11]", json_object(vec![("a", Json::from(1)), ("b", Json::from(2))]))]))])
    );
}

#[test]
fn structural_distance_of_zero_leaves_pairs_unconditionally() {
    let anchors: Vec<Json> = (0..10).map(|i| serde_json::to_value(&(format!("anchor{i}"))).unwrap()).collect();
    let mut a = anchors.clone();
    a.push(json_object(vec![("a", Json::from(1))]));
    let mut b = anchors;
    b.push(json_object(vec![("a", Json::from(1)), ("b", Json::Null)]));

    let result = ignore_order_diff(&serde_json::to_value(&(a)).unwrap(), &serde_json::to_value(&(b)).unwrap());
    assert_eq!(
        result["dictionary_item_added"]["root[10]['b']"],
        Json::Null
    );
}

#[test]
fn structural_pairing_of_records_with_null_bool_and_nested_list_fields() {
    let anchors: Vec<Json> = (0..10).map(|i| serde_json::to_value(&(format!("anchor{i}"))).unwrap()).collect();
    let mut a = anchors.clone();
    a.push(json_object(vec![("id", Json::from(1)), ("meta", Json::Null), ("flag", Json::Bool(true)), ("note", Json::from("x")), ("tags", Json::Array(vec![Json::from(1), Json::from(2)]))]));
    let mut b = anchors;
    b.push(json_object(vec![("id", Json::from(1)), ("meta", Json::Null), ("flag", Json::Bool(false)), ("extra", Json::from(5)), ("tags", Json::Array(vec![Json::from(1), Json::from(2), Json::from(3)]))]));

    let result = ignore_order_diff(&serde_json::to_value(&(a)).unwrap(), &serde_json::to_value(&(b)).unwrap());

    assert!(result.get("values_changed").is_some());
}

#[test]
fn ignore_order_is_a_no_op_on_dict_comparison_itself() {
    assert_eq!(
        ignore_order_diff(&json_object(vec![("a", Json::from(1)), ("z", Json::from(9))]), &json_object(vec![("b", Json::from(1)), ("z", Json::from(9))])),
        json_object(vec![("dictionary_item_added", json_object(vec![("root['b']", Json::from(1))])), ("dictionary_item_removed", json_object(vec![("root['a']", Json::from(1))]))])
    );
}

#[test]
fn fx_hasher_output_depends_on_its_input() {
    let hash_u8 = |v: u8| {
        let mut h = FxHasher::default();
        h.write_u8(v);
        h.finish()
    };
    assert_ne!(hash_u8(1), hash_u8(2));

    let hash_u16 = |v: u16| {
        let mut h = FxHasher::default();
        h.write_u16(v);
        h.finish()
    };
    assert_ne!(hash_u16(1), hash_u16(2));

    let hash_u32 = |v: u32| {
        let mut h = FxHasher::default();
        h.write_u32(v);
        h.finish()
    };
    assert_ne!(hash_u32(1), hash_u32(2));

    let hash_u64 = |v: u64| {
        let mut h = FxHasher::default();
        h.write_u64(v);
        h.finish()
    };
    assert_ne!(hash_u64(1), hash_u64(2));

    let hash_usize = |v: usize| {
        let mut h = FxHasher::default();
        h.write_usize(v);
        h.finish()
    };
    assert_ne!(hash_usize(1), hash_usize(2));

    let hash_u128 = |v: u128| {
        let mut h = FxHasher::default();
        h.write_u128(v);
        h.finish()
    };
    assert_ne!(hash_u128(1), hash_u128(2));

    assert_ne!(hash_u128(1 << 64), hash_u128(0));

    let hash_bytes = |s: &str| {
        let mut h = FxHasher::default();
        h.write(s.as_bytes());
        h.finish()
    };

    assert_ne!(hash_bytes("abcdefghi"), hash_bytes("abcdefghz"));
    assert_ne!(hash_bytes("short"), hash_bytes(""));
}

#[test]
fn fx_hasher_mixing_step_is_xor_not_or() {
    assert_eq!(1_u64.rotate_left(5), 32);
    let mut h = FxHasher { hash: 1 };
    h.add_to_hash(32);
    let expected = (1_u64.rotate_left(5) ^ 32).wrapping_mul(FX_SEED);
    assert_eq!(h.hash, expected);
    assert_eq!(expected, 0, "1.rotate_left(5) ^ 32 == 32 ^ 32 == 0");
}

#[test]
fn count_array_diff_leaves_sums_every_report_category_via_the_ordered_path() {
    let opts = DiffOptions {
        ignore_order: false,
        ..DiffOptions::default()
    };
    let a = vec![
        Json::from(1),
        json_object(vec![("x", Json::from(1)), ("y", Json::from(2))]),
        Json::from("removed_str"),
        Json::from("tail_removed"),
    ];
    let b = vec![Json::from(1.5), json_object(vec![("x", Json::from(2)), ("z", Json::from(9))]), Json::from("added_str")];

    assert_eq!(count_array_diff_leaves(&a, &b, 0, &opts), 7);
}

#[test]
fn count_array_diff_leaves_of_equal_arrays_is_zero() {
    let opts = DiffOptions::default();
    assert_eq!(
        count_array_diff_leaves(&[Json::from(1)], &[Json::from(1)], 0, &opts),
        0
    );
}

#[test]
fn count_diff_leaves_number_type_mismatch_uses_type_change_leaf_length() {
    let opts = DiffOptions::default();

    assert_eq!(count_diff_leaves(&Json::from(1), &Json::from(1.5), 0, &opts), 2);
}

#[test]
fn type_change_leaf_length_omits_new_value_when_the_coercion_reproduces_it() {
    assert_eq!(type_change_leaf_length(&Json::from(0), &Json::from(0.0)), 1);

    assert_eq!(type_change_leaf_length(&Json::from(2), &Json::from(1.0)), 2);

    assert_eq!(type_change_leaf_length(&Json::from(1.9), &Json::from(1)), 1);

    assert_eq!(type_change_leaf_length(&Json::from(1.5), &Json::from(2)), 2);

    assert_eq!(type_change_leaf_length(&Json::from(5), &Json::Bool(true)), 1);

    assert_eq!(type_change_leaf_length(&Json::from(0), &Json::Bool(false)), 1);

    assert_eq!(type_change_leaf_length(&Json::Bool(true), &Json::from(1)), 1);

    assert_eq!(type_change_leaf_length(&Json::Bool(true), &Json::from(2)), 2);

    assert_eq!(type_change_leaf_length(&Json::Bool(true), &Json::from("True")), 1);

    assert_eq!(type_change_leaf_length(&Json::Bool(true), &Json::from("true")), 2);

    assert_eq!(type_change_leaf_length(&Json::from("5"), &Json::from(5)), 1);

    assert_eq!(type_change_leaf_length(&Json::from("abc"), &Json::from(5)), 2);

    assert_eq!(
        type_change_leaf_length(&Json::Null, &Json::Bool(false)),
        1
    );

    assert_eq!(
        type_change_leaf_length(&Json::Null, &Json::from("None")),
        1
    );

    assert_eq!(type_change_leaf_length(&Json::from(5), &json_object(vec![("a", Json::from(1))])), 1 + 1);

    assert_eq!(type_change_leaf_length(&Json::Array(vec![]), &Json::Bool(false)), 1);
    assert_eq!(type_change_leaf_length(&Json::Array(vec![Json::from(1)]), &Json::Bool(true)), 1);
    assert_eq!(type_change_leaf_length(&json_object(Vec::new()), &Json::Bool(false)), 1);
    assert_eq!(type_change_leaf_length(&json_object(vec![("a", Json::from(1))]), &Json::Bool(true)), 1);

    assert_eq!(
        type_change_leaf_length(&Json::from(18_446_744_073_709_551_615u64), &Json::Bool(true)),
        1
    );
    assert_eq!(
        type_change_leaf_length(
            &Json::from(18_446_744_073_709_551_615u64),
            &Json::from("18446744073709551615")
        ),
        1
    );

    assert_eq!(type_change_leaf_length(&Json::from(1e300), &Json::from(5)), 2);

    assert_eq!(type_change_leaf_length(&Json::from(1e300), &serde_json::to_value(&(i64::MAX)).unwrap()), 2);
    assert_eq!(type_change_leaf_length(&Json::from(-1e300), &serde_json::to_value(&(i64::MIN)).unwrap()), 2);

    assert_eq!(type_change_leaf_length(&Json::from(5), &Json::from(5.0)), 1);

    assert_eq!(type_change_leaf_length(&Json::from(""), &Json::Bool(false)), 1);
    assert_eq!(type_change_leaf_length(&Json::from("x"), &Json::Bool(true)), 1);

    assert_eq!(type_change_leaf_length(&Json::from("x"), &Json::Bool(false)), 2);

    assert_eq!(type_change_leaf_length(&Json::from(5.5), &Json::from("5.5")), 1);

    assert_eq!(type_change_leaf_length(&Json::from(5.5), &Json::from("5.5.0")), 2);
}

#[test]
fn ignore_order_pairing_rejects_a_false_negative_from_the_old_special_case() {
    let a = Json::Array(vec![Json::Array(vec![Json::Array(vec![Json::from(""), Json::from("")]), Json::Array(vec![])]), json_object(Vec::new())]);
    let b = Json::Array(vec![Json::Array(vec![Json::from(1), Json::Array(vec![]), Json::Bool(true), json_object(vec![("c", Json::Bool(true))])]), json_object(Vec::new())]);
    assert_eq!(
        ignore_order_diff(&a, &b),
        json_object(vec![("iterable_item_added", json_object(vec![("root[0][0]", Json::from(1)), ("root[0][3]", json_object(vec![("c", Json::Bool(true))]))])), ("type_changes", json_object(vec![("root[0][0]", json_object(vec![("new_path", Json::from("root[0][2]")), ("new_type", Json::from("bool")), ("new_value", Json::Bool(true)), ("old_type", Json::from("list")), ("old_value", Json::Array(vec![Json::from(""), Json::from("")]))]))]))])
    );
}

#[test]
fn ignore_order_pairing_generalizes_past_the_true_literal_special_case() {
    let a = Json::Array(vec![Json::Array(vec![Json::from(0)])]);
    let b = Json::Array(vec![Json::Array(vec![Json::from(0.0)])]);
    assert_eq!(
        ignore_order_diff(&a, &b),
        json_object(vec![("type_changes", json_object(vec![("root[0][0]", json_object(vec![("new_type", Json::from("float")), ("new_value", Json::from(0.0)), ("old_type", Json::from("int")), ("old_value", Json::from(0))]))]))])
    );
}

#[test]
fn ignore_order_pairing_is_not_corrupted_by_a_nested_low_overlap_dict_pair() {
    let a = Json::Array(vec![Json::from("y"), Json::from(1), Json::Array(vec![json_object(vec![("aa", Json::from(1)), ("bb", Json::from(2)), ("cc", Json::from(3))])])]);
    let b = Json::Array(vec![Json::from("y"), Json::from(0.0), Json::from(2), Json::Array(vec![json_object(Vec::new())])]);
    assert_eq!(
        ignore_order_diff(&a, &b),
        json_object(vec![("iterable_item_added", json_object(vec![("root[1]", Json::from(0.0))])), ("values_changed", json_object(vec![("root[1]", json_object(vec![("new_path", Json::from("root[2]")), ("new_value", Json::from(2)), ("old_value", Json::from(1))])), ("root[2][0]", json_object(vec![("new_path", Json::from("root[3][0]")), ("new_value", json_object(Vec::new())), ("old_value", json_object(vec![("aa", Json::from(1)), ("bb", Json::from(2)), ("cc", Json::from(3))]))]))]))])
    );
}

#[test]
fn count_diff_leaves_same_type_numbers_equal_is_zero_unequal_is_one() {
    let opts = DiffOptions::default();
    assert_eq!(count_diff_leaves(&Json::from(5), &Json::from(5), 0, &opts), 0);
    assert_eq!(count_diff_leaves(&Json::from(5), &Json::from(6), 0, &opts), 1);
    assert_eq!(count_diff_leaves(&Json::from(5.0), &Json::from(5.0), 0, &opts), 0);
    assert_eq!(count_diff_leaves(&Json::from(5.0), &Json::from(6.0), 0, &opts), 1);
}

#[test]
fn count_diff_leaves_null_null_is_zero() {
    let opts = DiffOptions::default();
    assert_eq!(
        count_diff_leaves(&Json::Null, &Json::Null, 0, &opts),
        0
    );
}

#[test]
fn count_diff_leaves_bool_equal_is_zero_unequal_is_one() {
    let opts = DiffOptions::default();
    assert_eq!(count_diff_leaves(&Json::Bool(true), &Json::Bool(true), 0, &opts), 0);
    assert_eq!(count_diff_leaves(&Json::Bool(true), &Json::Bool(false), 0, &opts), 1);
}

#[test]
fn count_diff_leaves_string_equal_is_zero_unequal_is_one() {
    let opts = DiffOptions::default();
    assert_eq!(count_diff_leaves(&Json::from("a"), &Json::from("a"), 0, &opts), 0);
    assert_eq!(count_diff_leaves(&Json::from("a"), &Json::from("b"), 0, &opts), 1);
}

#[test]
fn count_diff_leaves_array_dispatches_to_count_array_diff_leaves() {
    let opts = DiffOptions::default();

    assert_eq!(
        count_diff_leaves(&Json::Array(vec![Json::from(1), Json::from(2)]), &Json::Array(vec![Json::from(1), Json::from(3)]), 0, &opts),
        1
    );
}

#[test]
fn count_object_diff_leaves_below_threshold_collapses_to_a_wholesale_new_value() {
    let opts = DiffOptions::default();
    let a = json_object(vec![("a", Json::from(1)), ("c", Json::from(2))]).as_object().unwrap().clone();
    let b = json_object(vec![("b", Json::from(1)), ("d", Json::from(2))]).as_object().unwrap().clone();

    assert_eq!(count_object_diff_leaves(&a, &b, 0, &opts), 2);
}

#[test]
fn count_object_diff_leaves_ratio_uses_division_not_multiplication() {
    let opts = DiffOptions::default();

    let a = json_object(vec![("shared", Json::from(1)), ("x", Json::from(2))]).as_object().unwrap().clone();
    let b = json_object(vec![("shared", Json::from(9)), ("y", Json::from(3)), ("z", Json::from(4))])
        .as_object()
        .unwrap()
        .clone();
    assert_eq!(count_object_diff_leaves(&a, &b, 0, &opts), 3);
}

#[test]
fn count_object_diff_leaves_ratio_at_exactly_the_threshold_does_not_collapse() {
    let mut a = serde_json::Map::new();
    let mut b = serde_json::Map::new();
    for i in 0..33 {
        a.insert(format!("shared{i}"), Json::from(1));
        b.insert(format!("shared{i}"), Json::from(1));
    }
    for i in 0..67 {
        a.insert(format!("only_a{i}"), Json::from(2));
    }
    assert_eq!(33.0_f64 / 100.0_f64, THRESHOLD_TO_DIFF_DEEPER as f64 / 100.0);

    assert_eq!(
        count_object_diff_leaves(&a, &b, 0, &DiffOptions::default()),
        67
    );
}

#[test]
fn count_object_diff_leaves_shared_key_recursion_depth_boundary_is_exact() {
    let opts = DiffOptions {
        max_depth: 3,
        ignore_order: false,
    };
    let a = json_object(vec![("x", Json::Array(vec![json_object(vec![("a", json_object(vec![("b", Json::from(1))]))])]))]).as_object().unwrap().clone();
    let b = json_object(vec![("x", Json::Array(vec![json_object(vec![("a", json_object(vec![("b", Json::from(9))]))])]))]).as_object().unwrap().clone();
    assert_eq!(count_object_diff_leaves(&a, &b, 0, &opts), 0);
}

#[test]
fn count_object_diff_leaves_at_or_above_threshold_recurses_normally() {
    let opts = DiffOptions::default();

    let a = json_object(vec![("a", Json::from(1)), ("b", Json::from(2))]).as_object().unwrap().clone();
    let b = json_object(vec![("a", Json::from(1)), ("b", Json::from(3))]).as_object().unwrap().clone();

    assert_eq!(count_object_diff_leaves(&a, &b, 0, &opts), 1);
}

#[test]
fn count_object_diff_leaves_union_len_one_never_collapses() {
    let opts = DiffOptions::default();

    let a = json_object(vec![("a", Json::from(1))]).as_object().unwrap().clone();
    let b = serde_json::Map::new();

    assert_eq!(count_object_diff_leaves(&a, &b, 0, &opts), 1);
}

#[test]
fn count_object_diff_leaves_accumulates_distinct_contributions_by_addition() {
    let opts = DiffOptions::default();

    let a = json_object(vec![("a", Json::Array(vec![Json::from(9), Json::from(9)])), ("b", Json::Array(vec![Json::from(1), Json::from(2), Json::from(3)]))])
        .as_object()
        .unwrap()
        .clone();
    let b = json_object(vec![("a", Json::Array(vec![Json::from(1), Json::from(2)])), ("c", Json::Array(vec![Json::from(1), Json::from(2), Json::from(3), Json::from(4)]))])
        .as_object()
        .unwrap()
        .clone();
    assert_eq!(count_object_diff_leaves(&a, &b, 0, &opts), 2 + 3 + 4);
}

#[test]
fn int_float_bool_never_share_a_key_even_at_equal_value() {
    assert!(!same_key(&cv(&Json::from(1)), &cv(&Json::from(1.0))));
    assert!(!same_key(&cv(&Json::from(1)), &cv(&Json::Bool(true))));
    assert!(!same_key(&cv(&Json::from(1.0)), &cv(&Json::Bool(true))));
    assert!(!same_key(&cv(&Json::from(0)), &cv(&Json::Bool(false))));
}

#[test]
fn signed_zero_floats_share_a_key_but_stay_distinct_from_the_integer_zero() {
    assert!(same_key(&cv(&Json::from(0.0)), &cv(&Json::from(-0.0))));
    assert!(!same_key(&cv(&Json::from(2.0)), &cv(&Json::from(2))));
    assert!(!same_key(&cv(&Json::from(0.0)), &cv(&Json::from(0))));
}

#[test]
fn signed_zero_floats_share_a_set_member_digest_too() {
    let mut memo = IgnoreOrderMemo::new();
    let mut key = |value: &CValue| onix_core::ignore_order::members::set_member_digest(value, &mut memo);
    assert_eq!(key(&cv(&Json::from(0.0))), key(&cv(&Json::from(-0.0))));
    assert_ne!(key(&cv(&Json::from(2.0))), key(&cv(&Json::from(2))));

    assert_ne!(key(&cv(&Json::from(1.5))), key(&cv(&Json::from(2.5))));
}

#[test]
fn signed_zero_floats_dedup_to_one_removal_under_ignore_order() {
    assert_eq!(
        ignore_order_diff(&Json::Array(vec![Json::from(0.0), Json::from(-0.0)]), &Json::Array(vec![])),
        json_object(vec![("iterable_item_removed", json_object(vec![("root[0]", Json::from(0.0))]))])
    );
}

#[test]
fn equal_ints_share_a_key_regardless_of_representation() {
    assert!(same_key(&cv(&Json::from(5)), &cv(&Json::from(5))));
}

#[test]
fn nested_list_hashes_order_and_count_insensitively() {
    assert!(same_key(&cv(&Json::Array(vec![Json::from(1), Json::from(2), Json::from(3)])), &cv(&Json::Array(vec![Json::from(3), Json::from(2), Json::from(1)]))));
    assert!(same_key(&cv(&Json::Array(vec![Json::from(1), Json::from(1), Json::from(2)])), &cv(&Json::Array(vec![Json::from(1), Json::from(2), Json::from(2)]))));
    assert!(!same_key(&cv(&Json::Array(vec![Json::from(1), Json::from(2)])), &cv(&Json::Array(vec![Json::from(1), Json::from(2), Json::from(3)]))));
}

#[test]
fn nested_dict_hashes_key_order_insensitively() {
    assert!(same_key(&cv(&json_object(vec![("a", Json::from(1)), ("b", Json::from(2))])), &cv(&json_object(vec![("b", Json::from(2)), ("a", Json::from(1))]))));
    assert!(!same_key(&cv(&json_object(vec![("a", Json::from(1))])), &cv(&json_object(vec![("a", Json::from(1)), ("b", Json::from(2))]))));
}

#[test]
fn different_strings_and_null_have_distinct_keys() {
    assert!(same_key(&cv(&Json::from("a")), &cv(&Json::from("a"))));
    assert!(!same_key(&cv(&Json::from("a")), &cv(&Json::from("b"))));
    assert!(!same_key(&cv(&Json::Null), &cv(&Json::from("a"))));
    assert!(same_key(&cv(&Json::Null), &cv(&Json::Null)));
}

#[test]
fn numeric_value_covers_bool_and_number_only() {
    assert_eq!(numeric_value(&Json::Bool(true)), Some(1.0));
    assert_eq!(numeric_value(&Json::Bool(false)), Some(0.0));
    assert_eq!(numeric_value(&Json::from(3)), Some(3.0));
    assert_eq!(numeric_value(&Json::from(3.5)), Some(3.5));
    assert_eq!(numeric_value(&Json::from("3")), None);
    assert_eq!(numeric_value(&Json::Null), None);
}

#[test]
fn numeric_distance_of_equal_values_is_zero() {
    assert_eq!(numeric_distance(5.0, 5.0, 0.3), 0.0);
}

#[test]
fn numeric_distance_opposite_sign_zero_sum_is_always_rejected() {
    assert_eq!(numeric_distance(-5.0, 5.0, 0.3), 0.3);
}

#[test]
fn numeric_distance_bool_vs_number_is_always_at_the_cutoff() {
    assert_eq!(numeric_distance(0.0, 1.0, 0.3), 0.3);
}

#[test]
fn numeric_distance_matches_the_probed_n_equals_100_shape() {
    let d = numeric_distance(251_650.0, 2_870_137.0, 0.3);
    assert!(
        d < 0.3,
        "expected an accepted (self-cancellation) candidate, got {d}"
    );
}

#[test]
fn rough_distance_structural_formula_is_diff_length_over_summed_rough_lengths() {
    let opts = DiffOptions::default();

    let removed = Json::Array(vec![Json::from(1), Json::from(2)]);
    let added = Json::Array(vec![Json::from(1), Json::from(2), Json::from(3)]);
    let d = rough_distance(
        &cv(&removed),
        &cv(&added),
        CUTOFF_DISTANCE_FOR_PAIRS,
        0,
        &opts,
        &mut IgnoreOrderMemo::new(),
    );
    assert!((d - 1.0 / 7.0).abs() < 1e-12, "expected 1/7, got {d}");
}

#[test]
fn rough_distance_depth_boundary_is_exact() {
    let opts = DiffOptions {
        max_depth: 3,
        ignore_order: false,
    };
    let removed = Json::Array(vec![json_object(vec![("a", json_object(vec![("b", Json::from(1))]))])]);
    let added = Json::Array(vec![json_object(vec![("a", json_object(vec![("b", Json::from(9))]))])]);
    let d = rough_distance(
        &cv(&removed),
        &cv(&added),
        CUTOFF_DISTANCE_FOR_PAIRS,
        0,
        &opts,
        &mut IgnoreOrderMemo::new(),
    );
    assert_eq!(d, 0.0);
}

#[test]
fn rough_distance_datetime_pair_measures_seconds_not_microseconds() {
    let a = cdt_at(2024, 1, 1, 0, 0, 0, 0, None);
    let b = cdt_at(2024, 1, 1, 0, 0, 10, 0, None);
    let (CValue::DateTime(a_dt), CValue::DateTime(b_dt)) = (&a, &b) else {
        panic!("cdt_at builds a DateTime")
    };
    let a_seconds = a_dt.instant() as f64 / 1_000_000.0;
    let b_seconds = b_dt.instant() as f64 / 1_000_000.0;
    let expected = numeric_distance(a_seconds, b_seconds, CUTOFF_DISTANCE_FOR_PAIRS);

    let d = rough_distance(
        &a,
        &b,
        CUTOFF_DISTANCE_FOR_PAIRS,
        0,
        &DiffOptions::default(),
        &mut IgnoreOrderMemo::new(),
    );
    assert!(
        (d - expected).abs() < 1e-12,
        "expected {expected} (seconds-scale), got {d}"
    );
}

#[test]
fn rough_length_matches_deephash_counts_for_scalars_and_containers() {
    assert_eq!(rough_length(&Json::from(1)), 1);
    assert_eq!(rough_length(&Json::from("x")), 1);
    assert_eq!(rough_length(&Json::Null), 1);
    assert_eq!(rough_length(&Json::Array(vec![Json::from(1), Json::from(2)])), 1 + 1 + 1);
    assert_eq!(rough_length(&json_object(vec![("a", Json::from(1))])), 1 + (1 + 1));
}

#[test]
fn item_length_of_null_is_zero() {
    assert_eq!(item_length(&Json::Null), 0);
}

#[test]
fn item_length_excludes_special_dict_keys() {
    assert_eq!(item_length(&json_object(vec![("old_value", Json::from(5)), ("x", Json::from(3))])), 1);
}

#[test]
fn is_length_excluded_key_matches_the_literal_set() {
    assert!(is_length_excluded_key("old_value"));
    assert!(is_length_excluded_key("old_type"));
    assert!(is_length_excluded_key("new_path"));
    assert!(is_length_excluded_key("deep_distance"));
    assert!(is_length_excluded_key("_internal"));
    assert!(!is_length_excluded_key("new_value"));
    assert!(!is_length_excluded_key("new_type"));
    assert!(!is_length_excluded_key("x"));
}

#[test]
fn item_length_of_scalars_and_containers() {
    assert_eq!(item_length(&Json::from(1)), 1);
    assert_eq!(item_length(&Json::from("x")), 1);
    assert_eq!(item_length(&Json::Bool(true)), 1);
    assert_eq!(item_length(&Json::Array(vec![Json::from(1), Json::from(2), Json::from("x")])), 3);
    assert_eq!(item_length(&json_object(vec![("a", Json::from(1)), ("b", Json::Array(vec![Json::from(1), Json::from(2)]))])), 3);
}

#[test]
fn deep_nested_ignore_order_completes_quickly_with_memoization() {
    let opts = DiffOptions {
        ignore_order: true,
        max_depth: 100_000,
    };
    let build = |depth: usize, leaf: i64| {
        let mut value = serde_json::to_value(&(leaf)).unwrap();
        for _ in 0..depth {
            value = Json::Array(vec![serde_json::to_value(&(value)).unwrap()]);
        }
        cv(&value)
    };

    let (a, b) = (build(20, 1), build(20, 2));
    let started = std::time::Instant::now();
    let report = onix_core::diff::diff_with_options(&a, &b, &opts).expect("depth 20 diffs");
    let depth_20 = started.elapsed();
    assert!(
        !report.is_empty(),
        "depth-20 unequal input must report a change"
    );
    assert!(
        depth_20.as_millis() < 500,
        "depth-20 nested ignore_order took {depth_20:?}, over the 500ms bound"
    );

    let (a, b) = (build(25, 1), build(25, 2));
    let started = std::time::Instant::now();
    let _ = onix_core::diff::diff_with_options(&a, &b, &opts).expect("depth 25 diffs");
    let depth_25 = started.elapsed();
    assert!(
        depth_25.as_secs() < 5,
        "depth-25 nested ignore_order took {depth_25:?}, over the 5s bound"
    );
}

fn ignore_order_diff_compact(a: &CValue, b: &CValue) -> Json {
    onix_core::diff::diff_with_options(
        a,
        b,
        &DiffOptions {
            ignore_order: true,
            ..DiffOptions::default()
        },
    )
    .unwrap()
    .to_json_value()
}

fn carr(items: Vec<CValue>) -> CValue {
    CValue::Array(items)
}

#[test]
fn a_tuple_and_a_list_with_the_same_items_never_hash_match() {
    assert!(!same_key(&ctup(&[Json::from(1), Json::from(2)]), &cv(&Json::Array(vec![Json::from(1), Json::from(2)]))));
    assert_eq!(
        ignore_order_diff_compact(
            &carr(vec![ctup(&[Json::from(1), Json::from(2)])]),
            &cv(&Json::Array(vec![Json::Array(vec![Json::from(1), Json::from(2)])])),
        ),
        json_object(vec![("type_changes", json_object(vec![("root[0]", json_object(vec![("old_type", Json::from("tuple")), ("new_type", Json::from("list")), ("old_value", Json::Array(vec![Json::from(1), Json::from(2)])), ("new_value", Json::Array(vec![Json::from(1), Json::from(2)]))]))]))])
    );
}

#[test]
fn a_tuple_nested_in_a_list_hashes_order_insensitively() {
    assert_eq!(
        ignore_order_diff_compact(
            &carr(vec![ctup(&[Json::from(1), Json::from(2)])]),
            &carr(vec![ctup(&[Json::from(2), Json::from(1)])]),
        ),
        json_object(Vec::new())
    );
}

#[test]
fn a_tuple_is_itself_paired_by_hash_under_ignore_order() {
    assert_eq!(
        ignore_order_diff_compact(
            &ctup(&[Json::from(1), Json::from(2), Json::from(3)]),
            &ctup(&[Json::from(3), Json::from(2), Json::from(5)]),
        ),
        json_object(vec![("values_changed", json_object(vec![("root[0]", json_object(vec![("new_value", Json::from(5)), ("old_value", Json::from(1)), ("new_path", Json::from("root[2]"))]))]))])
    );
}

#[test]
fn a_changed_tuple_inside_a_list_pairs_and_carries_new_path() {
    assert_eq!(
        ignore_order_diff_compact(
            &carr(vec![cv(&Json::from("anchor")), ctup(&[Json::from(1), Json::from(2)])]),
            &carr(vec![ctup(&[Json::from(1), Json::from(3)]), cv(&Json::from("anchor"))]),
        ),
        json_object(vec![("values_changed", json_object(vec![("root[1][1]", json_object(vec![("new_value", Json::from(3)), ("old_value", Json::from(2)), ("new_path", Json::from("root[0][1]"))]))]))])
    );
}

#[test]
fn a_tuple_and_a_list_whose_items_differ_fall_back_to_raw_add_remove() {
    assert_eq!(
        ignore_order_diff_compact(
            &carr(vec![ctup(&[Json::from(1), Json::from(2)])]),
            &cv(&Json::Array(vec![Json::Array(vec![Json::from(1), Json::from(3)])])),
        ),
        json_object(vec![("values_changed", json_object(vec![("root[0]", json_object(vec![("new_value", Json::Array(vec![Json::from(1), Json::from(3)])), ("old_value", Json::Array(vec![Json::from(1), Json::from(2)]))]))]))])
    );
}

#[test]
fn a_hashable_tuple_inherits_the_digest_of_an_earlier_python_equal_one() {
    for (a, b) in [
        (ctup(&[Json::from(1)]), ctup(&[Json::from(1.0)])),
        (ctup(&[Json::from(1.0)]), ctup(&[Json::from(1)])),
        (ctup(&[Json::Bool(true)]), ctup(&[Json::from(1)])),
        (ctup(&[Json::from(0)]), ctup(&[Json::Bool(false)])),
        (
            ctup(&[Json::from("a"), Json::from(1)]),
            ctup(&[Json::from("a"), Json::from(1.0)]),
        ),
    ] {
        assert_eq!(
            ignore_order_diff_compact(&carr(vec![a]), &carr(vec![b])),
            json_object(Vec::new()),
        );
    }
}

#[test]
fn the_digest_collision_reaches_tuples_nested_inside_other_containers() {
    let wrapped = |item: CValue| {
        (
            carr(vec![CValue::Tuple(vec![item.clone()])]),
            carr(vec![cobj_of("k", item.clone())]),
            carr(vec![carr(vec![item])]),
        )
    };
    let (a_tuple, a_dict, a_list) = wrapped(ctup(&[Json::from(1)]));
    let (b_tuple, b_dict, b_list) = wrapped(ctup(&[Json::from(1.0)]));

    assert_eq!(ignore_order_diff_compact(&a_tuple, &b_tuple), json_object(Vec::new()));
    assert_eq!(ignore_order_diff_compact(&a_dict, &b_dict), json_object(Vec::new()));
    assert_eq!(ignore_order_diff_compact(&a_list, &b_list), json_object(Vec::new()));
}

#[test]
fn colliding_tuples_in_one_list_collapse_to_a_single_distinct_item() {
    assert_eq!(
        ignore_order_diff_compact(
            &carr(vec![ctup(&[Json::from(1)]), ctup(&[Json::from(1.0)])]),
            &carr(vec![]),
        ),
        json_object(vec![("iterable_item_removed", json_object(vec![("root[0]", Json::Array(vec![Json::from(1)]))]))])
    );
}

#[test]
fn a_tuple_digest_cache_hit_reads_its_own_index_not_the_first_ones() {
    let a = carr(vec![
        ctup(&[Json::from(9)]),
        ctup(&[Json::from(1)]),
        ctup(&[Json::from(1.0)]),
    ]);
    let b = carr(vec![ctup(&[Json::from(9)]), ctup(&[Json::from(1)])]);
    assert_eq!(ignore_order_diff_compact(&a, &b), json_object(Vec::new()));
}

#[test]
fn an_unhashable_tuple_never_collides() {
    let list_inside = |first: Json| {
        carr(vec![CValue::Tuple(
            vec![cv(&first), cv(&Json::Array(vec![Json::from(1)]))],
        )])
    };
    assert_eq!(
        ignore_order_diff_compact(&list_inside(Json::from(1)), &list_inside(Json::from(1.0))),
        json_object(vec![("type_changes", json_object(vec![("root[0][0]", json_object(vec![("old_type", Json::from("int")), ("new_type", Json::from("float")), ("old_value", Json::from(1)), ("new_value", Json::from(1.0))]))]))])
    );

    let dict_inside = |first: Json| {
        carr(vec![CValue::Tuple(
            vec![cv(&first), cv(&json_object(vec![("k", Json::from(1))]))],
        )])
    };
    assert_eq!(
        ignore_order_diff_compact(&dict_inside(Json::from(1)), &dict_inside(Json::from(1.0))),
        json_object(vec![("type_changes", json_object(vec![("root[0][0]", json_object(vec![("old_type", Json::from("int")), ("new_type", Json::from("float")), ("old_value", Json::from(1)), ("new_value", Json::from(1.0))]))]))])
    );
}

#[test]
fn the_collision_is_positional_not_the_order_insensitive_content_digest() {
    assert_eq!(
        ignore_order_diff_compact(
            &carr(vec![ctup(&[Json::from(1), Json::from(2)])]),
            &carr(vec![ctup(&[Json::from(2.0), Json::from(1.0)])]),
        ),
        json_object(vec![("values_changed", json_object(vec![("root[0]", json_object(vec![("new_value", Json::Array(vec![Json::from(2.0), Json::from(1.0)])), ("old_value", Json::Array(vec![Json::from(1), Json::from(2)]))]))]))])
    );
}

#[test]
fn which_member_of_an_equality_class_is_hashed_first_is_observable() {
    assert_eq!(
        ignore_order_diff_compact(
            &carr(vec![ctup(&[Json::from(1)])]),
            &carr(vec![ctup(&[Json::from(1), Json::from(1)])]),
        ),
        json_object(Vec::new())
    );
    assert_eq!(
        ignore_order_diff_compact(
            &carr(vec![ctup(&[Json::from(1.0)])]),
            &carr(vec![ctup(&[Json::from(1), Json::from(1)])]),
        ),
        json_object(vec![("type_changes", json_object(vec![("root[0][0]", json_object(vec![("old_type", Json::from("float")), ("new_type", Json::from("int")), ("old_value", Json::from(1.0)), ("new_value", Json::from(1))]))]))])
    );
}

#[test]
fn a_collided_element_drops_out_of_its_parents_own_comparison() {
    assert_eq!(
        ignore_order_diff_compact(
            &carr(vec![CValue::Tuple(
                vec![ctup(&[Json::from(1)]), cv(&Json::from("a"))]
            )]),
            &carr(vec![CValue::Tuple(
                vec![ctup(&[Json::from(1.0)]), cv(&Json::from("b"))]
            )]),
        ),
        json_object(vec![("values_changed", json_object(vec![("root[0][1]", json_object(vec![("new_value", Json::from("b")), ("old_value", Json::from("a"))]))]))])
    );
}

#[test]
fn a_tuple_and_a_list_whose_items_are_python_equal_still_pair() {
    for (a, b) in [
        (ctup(&[Json::from(1)]), cv(&Json::Array(vec![Json::from(1.0)]))),
        (ctup(&[Json::from(1), Json::from(2)]), cv(&Json::Array(vec![Json::from(1.0), Json::from(2.0)]))),
        (ctup(&[Json::from(1)]), cv(&Json::Array(vec![Json::Bool(true)]))),
        (ctup(&[Json::from(0)]), cv(&Json::Array(vec![Json::Bool(false)]))),
    ] {
        let expected_old = json_of(&a);
        let expected_new = json_of(&b);
        assert_eq!(
            ignore_order_diff_compact(&carr(vec![a]), &carr(vec![b])),
            json_object(vec![("type_changes", json_object(vec![("root[0]", json_object(vec![("old_type", Json::from("tuple")), ("new_type", Json::from("list")), ("old_value", serde_json::to_value(&(expected_old)).unwrap()), ("new_value", serde_json::to_value(&(expected_new)).unwrap())]))]))])
        );
    }
}

#[test]
fn python_equality_keeps_container_kinds_distinct_inside_the_coercion_test() {
    assert_eq!(
        ignore_order_diff_compact(
            &carr(vec![CValue::Tuple(
                vec![cv(&Json::from(1)), ctup(&[Json::from(2)])]
            )]),
            &cv(&Json::Array(vec![Json::Array(vec![Json::from(1), Json::Array(vec![Json::from(2)])])])),
        ),
        json_object(vec![("values_changed", json_object(vec![("root[0]", json_object(vec![("new_value", Json::Array(vec![Json::from(1), Json::Array(vec![Json::from(2)])])), ("old_value", Json::Array(vec![Json::from(1), Json::Array(vec![Json::from(2)])]))]))]))])
    );

    assert_eq!(
        ignore_order_diff_compact(
            &carr(vec![CValue::Tuple(
                vec![cv(&Json::from(1)), cv(&Json::Array(vec![Json::from(2)]))]
            )]),
            &cv(&Json::Array(vec![Json::Array(vec![Json::from(1), Json::Array(vec![Json::from(2)])])])),
        ),
        json_object(vec![("type_changes", json_object(vec![("root[0]", json_object(vec![("old_type", Json::from("tuple")), ("new_type", Json::from("list")), ("old_value", Json::Array(vec![Json::from(1), Json::Array(vec![Json::from(2)])])), ("new_value", Json::Array(vec![Json::from(1), Json::Array(vec![Json::from(2)])]))]))]))])
    );
}

#[test]
fn tuple_and_list_leaf_lengths_follow_python_equality() {
    assert_eq!(
        onix_core::ignore_order::coerce::type_change_leaf_length(&ctup(&[Json::from(1)]), &cv(&Json::Array(vec![Json::from(1.0)]))),
        1
    );
    assert_eq!(
        onix_core::ignore_order::coerce::type_change_leaf_length(&cv(&Json::Array(vec![Json::from(1.0)])), &ctup(&[Json::from(1)])),
        1
    );
    assert_eq!(
        onix_core::ignore_order::coerce::type_change_leaf_length(&ctup(&[Json::from(1)]), &cv(&Json::Array(vec![Json::from(2)]))),
        2
    );
    assert_eq!(
        onix_core::ignore_order::coerce::type_change_leaf_length(&ctup(&[Json::from(1), Json::from(2)]), &cv(&Json::Array(vec![Json::from(1), Json::from(3)]))),
        3
    );

    assert_eq!(
        onix_core::ignore_order::coerce::type_change_leaf_length(
            &ctup(&[json_object(vec![("k", Json::from(1))])]),
            &cv(&Json::Array(vec![json_object(vec![("k", Json::from(1.0))])]))
        ),
        1
    );
    assert_eq!(
        onix_core::ignore_order::coerce::type_change_leaf_length(
            &ctup(&[json_object(vec![("k", Json::from(1))])]),
            &cv(&Json::Array(vec![json_object(vec![("k", Json::from(2))])]))
        ),
        2
    );
    assert_eq!(
        onix_core::ignore_order::coerce::type_change_leaf_length(
            &ctup(&[json_object(vec![("k", Json::from(1))])]),
            &cv(&Json::Array(vec![json_object(vec![("j", Json::from(1))])]))
        ),
        2
    );
}

fn cobj_of(key: &str, value: CValue) -> CValue {
    CValue::Object(onix_core::value::Object::from_pairs(vec![(
        ObjectKey::Str(String::from(key)),
        value,
    )]))
}

#[test]
fn a_naive_and_an_aware_datetime_at_one_instant_hash_match() {
    let opts = DiffOptions {
        ignore_order: true,
        ..DiffOptions::default()
    };
    let a = CValue::Array(vec![cdt_at(2024, 1, 1, 10, 0, 0, 0, None)]);
    let b = CValue::Array(vec![cdt_at(2024, 1, 1, 12, 0, 0, 0, Some(2 * 3600))]);

    assert!(
        onix_core::diff::diff_with_options(&a, &b, &opts)
            .unwrap()
            .is_empty()
    );
}

#[test]
fn a_date_and_a_datetime_at_one_midnight_never_hash_match() {
    let opts = DiffOptions {
        ignore_order: true,
        ..DiffOptions::default()
    };
    let a = CValue::Array(vec![cdate(2024, 1, 1)]);
    let b = CValue::Array(vec![cdt(2024, 1, 1, None)]);

    assert_eq!(
        onix_core::diff::diff_with_options(&a, &b, &opts)
            .unwrap()
            .to_json_value(),
        json_object(vec![("type_changes", json_object(vec![("root[0]", json_object(vec![("old_type", Json::from("date")), ("new_type", Json::from("datetime")), ("old_value", Json::from("2024-01-01")), ("new_value", Json::from("2024-01-01T00:00:00"))]))]))])
    );
}

#[test]
fn a_paired_datetime_is_reported_normalized_while_an_unpaired_one_stays_raw() {
    let opts = DiffOptions {
        ignore_order: true,
        ..DiffOptions::default()
    };
    let a = CValue::Array(
        vec![
            cdt_at(2024, 1, 1, 10, 0, 0, 0, Some(-5 * 3600)),
            cv(&Json::from("anchor")),
        ],
    );
    let b = CValue::Array(
        vec![
            cv(&Json::from("anchor")),
            cdt_at(2024, 1, 2, 10, 0, 0, 0, Some(-5 * 3600)),
            cv(&Json::from("extra")),
        ],
    );

    assert_eq!(
        onix_core::diff::diff_with_options(&a, &b, &opts)
            .unwrap()
            .to_json_value(),
        json_object(vec![("values_changed", json_object(vec![("root[0]", json_object(vec![("new_path", Json::from("root[1]")), ("new_value", Json::from("2024-01-02T15:00:00+00:00")), ("old_value", Json::from("2024-01-01T15:00:00+00:00"))]))])), ("iterable_item_added", json_object(vec![("root[2]", Json::from("extra"))]))])
    );
}

#[test]
fn calendar_values_count_as_one_structural_node() {
    assert_eq!(onix_core::ignore_order::length::item_length(&cdt(2024, 1, 1, None)), 1);
    assert_eq!(onix_core::ignore_order::length::item_length(&cdate(2024, 1, 1)), 1);
    assert_eq!(onix_core::ignore_order::length::rough_length(&cdt(2024, 1, 1, None)), 1);
    assert_eq!(onix_core::ignore_order::length::rough_length(&cdate(2024, 1, 1)), 1);
}

#[test]
fn a_datetime_leaf_counts_as_changed_only_when_the_instants_differ() {
    let opts = DiffOptions::default();
    let mut memo = IgnoreOrderMemo::new();
    let mut count = |a: &CValue, b: &CValue| onix_core::ignore_order::distance::count_diff_leaves(a, b, 0, &opts, &mut memo);

    assert_eq!(
        count(
            &cdt_at(2024, 1, 1, 10, 0, 0, 0, None),
            &cdt_at(2024, 1, 1, 12, 0, 0, 0, Some(2 * 3600))
        ),
        0
    );
    assert_eq!(count(&cdt(2024, 1, 1, None), &cdt(2024, 1, 2, None)), 1);
    assert_eq!(count(&cdate(2024, 1, 1), &cdate(2024, 1, 1)), 0);
    assert_eq!(count(&cdate(2024, 1, 1), &cdate(2024, 1, 2)), 1);
}

#[test]
fn a_date_and_a_datetime_pair_by_ordinal_distance_in_either_direction() {
    let opts = DiffOptions {
        ignore_order: true,
        ..DiffOptions::default()
    };
    let date_side = CValue::Array(vec![cdate(2024, 1, 1)]);
    let datetime_side = CValue::Array(vec![cdt(2024, 3, 5, None)]);

    let forward = onix_core::diff::diff_with_options(&date_side, &datetime_side, &opts).unwrap();
    let backward = onix_core::diff::diff_with_options(&datetime_side, &date_side, &opts).unwrap();

    assert_eq!(
        forward.to_json_value(),
        json_object(vec![("type_changes", json_object(vec![("root[0]", json_object(vec![("old_type", Json::from("date")), ("new_type", Json::from("datetime")), ("old_value", Json::from("2024-01-01")), ("new_value", Json::from("2024-03-05T00:00:00"))]))]))])
    );
    assert_eq!(
        backward.to_json_value(),
        json_object(vec![("type_changes", json_object(vec![("root[0]", json_object(vec![("old_type", Json::from("datetime")), ("new_type", Json::from("date")), ("old_value", Json::from("2024-03-05T00:00:00")), ("new_value", Json::from("2024-01-01"))]))]))])
    );
}

#[test]
fn a_calendar_value_is_truthy_when_a_type_change_coerces_it_to_bool() {
    let leaf = |a: &CValue, b: &CValue| onix_core::ignore_order::coerce::type_change_leaf_length(a, b);

    assert_eq!(leaf(&cdt(2024, 1, 1, None), &cv(&Json::Bool(true))), 1);
    assert_eq!(leaf(&cdate(2024, 1, 1), &cv(&Json::Bool(true))), 1);
    assert_eq!(leaf(&cdt(2024, 1, 1, None), &cv(&Json::Bool(false))), 2);
    assert_eq!(leaf(&cdt(2024, 1, 1, None), &cv(&Json::from("x"))), 2);
}

#[test]
fn a_calendar_value_and_a_number_share_no_distance_family_and_never_pair() {
    let opts = DiffOptions {
        ignore_order: true,
        ..DiffOptions::default()
    };
    let a = CValue::Array(
        vec![cdt_at(2024, 1, 1, 10, 0, 0, 0, None), cv(&Json::from("anchor"))],
    );
    let b = CValue::Array(vec![cv(&Json::from("anchor")), cv(&Json::from(5))]);

    assert_eq!(
        onix_core::diff::diff_with_options(&a, &b, &opts)
            .unwrap()
            .to_json_value(),
        json_object(vec![("iterable_item_added", json_object(vec![("root[1]", Json::from(5))])), ("iterable_item_removed", json_object(vec![("root[0]", Json::from("2024-01-01T10:00:00"))]))])
    );
}

#[test]
fn a_calendar_value_against_its_own_python_str_is_reproduced_by_coercion() {
    let leaf = |a: &CValue, b: &CValue| onix_core::ignore_order::coerce::type_change_leaf_length(a, b);

    assert_eq!(
        leaf(&cdt(2024, 1, 1, None), &cv(&Json::from("2024-01-01 00:00:00"))),
        1
    );
    assert_eq!(leaf(&cdate(2024, 1, 1), &cv(&Json::from("2024-01-01"))), 1);
    assert_eq!(
        leaf(&cdt(2024, 1, 1, None), &cv(&Json::from("2024-01-01T00:00:00"))),
        2
    );
    assert_eq!(
        leaf(
            &cdt_at(2024, 1, 1, 10, 0, 0, 0, Some(1830)),
            &cv(&Json::from("2024-01-01 10:00:00+00:30:30"))
        ),
        1
    );
}

#[test]
fn a_calendar_value_pairs_with_its_own_python_str_under_ignore_order() {
    let opts = DiffOptions {
        ignore_order: true,
        ..DiffOptions::default()
    };
    let wrapped = |value: CValue| {
        let mut builder = onix_core::value::Builder::new();
        CValue::Array(vec![builder.object(vec![("a".to_string(), value)])])
    };

    assert_eq!(
        onix_core::diff::diff_with_options(
            &wrapped(cdt(2024, 1, 1, None)),
            &wrapped(cv(&Json::from("2024-01-01 00:00:00"))),
            &opts,
        )
        .unwrap()
        .to_json_value(),
        json_object(vec![("type_changes", json_object(vec![("root[0]['a']", json_object(vec![("old_type", Json::from("datetime")), ("new_type", Json::from("str")), ("old_value", Json::from("2024-01-01T00:00:00")), ("new_value", Json::from("2024-01-01 00:00:00"))]))]))])
    );
    assert_eq!(
        onix_core::diff::diff_with_options(
            &wrapped(cdate(2024, 1, 1)),
            &wrapped(cv(&Json::from("2024-01-01"))),
            &opts,
        )
        .unwrap()
        .to_json_value(),
        json_object(vec![("type_changes", json_object(vec![("root[0]['a']", json_object(vec![("old_type", Json::from("date")), ("new_type", Json::from("str")), ("old_value", Json::from("2024-01-01")), ("new_value", Json::from("2024-01-01"))]))]))])
    );
}

#[test]
fn two_bare_scalars_are_too_far_apart_to_pair_even_when_str_reproduces_one() {
    let opts = DiffOptions {
        ignore_order: true,
        ..DiffOptions::default()
    };
    let a = CValue::Array(vec![cdt(2024, 1, 1, None)]);
    let b = CValue::Array(vec![cv(&Json::from("2024-01-01 00:00:00"))]);

    assert_eq!(
        onix_core::diff::diff_with_options(&a, &b, &opts)
            .unwrap()
            .to_json_value(),
        json_object(vec![("values_changed", json_object(vec![("root[0]", json_object(vec![("old_value", Json::from("2024-01-01T00:00:00")), ("new_value", Json::from("2024-01-01 00:00:00"))]))]))])
    );
}

#[test]
fn a_pre_epoch_datetime_pairs_with_a_date_by_ordinal_not_by_timestamp() {
    let opts = DiffOptions {
        ignore_order: true,
        ..DiffOptions::default()
    };
    let a = CValue::Array(vec![cdt(1950, 1, 1, None), cv(&Json::from("anchor"))]);
    let b = CValue::Array(vec![cv(&Json::from("anchor")), cdate(1990, 1, 1)]);

    assert_eq!(
        onix_core::diff::diff_with_options(&a, &b, &opts)
            .unwrap()
            .to_json_value(),
        json_object(vec![("type_changes", json_object(vec![("root[0]", json_object(vec![("old_type", Json::from("datetime")), ("new_type", Json::from("date")), ("new_path", Json::from("root[1]")), ("old_value", Json::from("1950-01-01T00:00:00")), ("new_value", Json::from("1990-01-01"))]))]))])
    );
}

fn compact_ignore_order_diff(
    a: &CValue,
    b: &CValue,
) -> Result<onix_core::report::Report, onix_core::error::Error> {
    onix_core::diff::diff_with_options(
        a,
        b,
        &DiffOptions {
            ignore_order: true,
            ..DiffOptions::default()
        },
    )
}

fn listed(value: CValue) -> CValue {
    CValue::Array(Vec::from([value]))
}

#[test]
fn a_set_never_hash_matches_another_container_kind() {
    let items = [Json::from(1), Json::from(2)];
    for (other, new_type) in [
        (cv(&Json::Array(vec![Json::from(1), Json::from(2)])), "list"),
        (ctup(&items), "tuple"),
        (cfrozen(&items), "frozenset"),
    ] {
        let report = compact_ignore_order_diff(&listed(cset(&items)), &listed(other))
            .expect("shallow values diff cleanly");
        assert_eq!(
            report.to_json_value()["type_changes"]["root[0]"]["new_type"],
            serde_json::to_value(&(new_type)).unwrap(),
        );
    }
}

#[test]
fn sets_holding_the_same_items_hash_match() {
    let report = compact_ignore_order_diff(
        &listed(cset(&[Json::from(1), Json::from(2)])),
        &listed(cset(&[Json::from(2), Json::from(1)])),
    )
    .expect("shallow values diff cleanly");

    assert!(report.is_empty());
}

#[test]
fn neither_set_kind_inherits_another_items_digest() {
    let frozen = compact_ignore_order_diff(
        &listed(cfrozen(&[Json::from(1)])),
        &listed(cfrozen(&[Json::from(1.0)])),
    )
    .expect("shallow values diff cleanly");
    assert_eq!(
        frozen.to_json_value(),
        json_object(vec![("values_changed", json_object(vec![("root[0]", json_object(vec![("old_value", Json::Array(vec![Json::from(1)])), ("new_value", Json::Array(vec![Json::from(1.0)]))]))]))]),
        "the two frozensets are distinct items, and too far apart to pair"
    );

    let plain = compact_ignore_order_diff(
        &CValue::Array(Vec::from([cset(&[Json::from(1)]), cset(&[Json::from(1.0)])])),
        &CValue::Array(Vec::from([])),
    )
    .expect("shallow values diff cleanly");
    assert_eq!(
        plain.to_json_value(),
        json_object(vec![("iterable_item_removed", json_object(vec![("root[0]", Json::Array(vec![Json::from(1)])), ("root[1]", Json::Array(vec![Json::from(1.0)]))]))])
    );
}

#[test]
fn a_frozenset_hashes_by_membership_and_apart_from_a_tuple() {
    let report = compact_ignore_order_diff(
        &listed(cfrozen(&[Json::from(1), Json::from(2)])),
        &listed(cfrozen(&[Json::from(2), Json::from(1)])),
    )
    .expect("shallow values diff cleanly");
    assert!(report.is_empty());

    let mut memo = IgnoreOrderMemo::new();
    assert!(!same_key(&ctup(&[Json::from(1)]), &cfrozen(&[Json::from(1)])));
}

#[test]
fn count_diff_leaves_of_two_sets_counts_added_and_removed_items() {
    let mut memo = IgnoreOrderMemo::new();
    let opts = DiffOptions::default();
    let mut count = |a: &CValue, b: &CValue| onix_core::ignore_order::distance::count_diff_leaves(a, b, 0, &opts, &mut memo);

    assert_eq!(
        count(
            &cset(&[Json::from(1), Json::from(2)]),
            &cset(&[Json::from(1), Json::from(2), Json::from(3), Json::from(4), Json::from(5)]),
        ),
        3
    );
    assert_eq!(count(&cset(&[Json::from(1)]), &cset(&[Json::from(1.0)])), 2);
    assert_eq!(count(&cset(&[Json::from(1)]), &cset(&[Json::from(1)])), 0);
}

#[test]
fn rough_length_of_a_set_matches_a_list_of_the_same_items() {
    assert_eq!(
        onix_core::ignore_order::length::rough_length(&cset(&[Json::from(1), Json::from(2)])),
        3
    );
    assert_eq!(onix_core::ignore_order::length::rough_length(&cfrozen(&[])), 1);
    assert_eq!(
        onix_core::ignore_order::length::item_length(&cset(&[Json::from(1), Json::from(2)])),
        2
    );
}

#[test]
fn a_set_type_change_omits_its_new_value_when_the_constructor_reproduces_it() {
    let leaves = onix_core::ignore_order::coerce::type_change_leaf_length;
    let items = [Json::from(1), Json::from(2)];

    assert_eq!(leaves(&cv(&Json::Array(vec![Json::from(1), Json::from(2)])), &cset(&items)), 1);
    assert_eq!(leaves(&ctup(&items), &cfrozen(&items)), 1);
    assert_eq!(leaves(&cset(&items), &cfrozen(&items)), 1);
    assert_eq!(leaves(&cset(&items), &cv(&Json::Array(vec![Json::from(1), Json::from(2)]))), 1);
    assert_eq!(leaves(&cfrozen(&items), &ctup(&items)), 1);

    assert_eq!(leaves(&cv(&Json::Array(vec![Json::from(1), Json::from(1.0)])), &cset(&[Json::from(1)])), 1);

    for nested in [cfrozen(&items), cset(&items)] {
        assert_eq!(
            leaves(
                &CValue::MutableSet(SetItems::new(vec![nested.clone()])),
                &CValue::MutableSet(SetItems::new(vec![nested])),
            ),
            1
        );
    }

    assert_eq!(leaves(&cset(&items), &cv(&Json::Array(vec![Json::from(2), Json::from(1)]))), 1);

    assert_eq!(leaves(&cset(&items), &cfrozen(&[Json::from(1), Json::from(3)])), 3);

    assert_eq!(leaves(&cset(&items), &cfrozen(&[Json::from(1)])), 2);
}

#[test]
fn a_set_coerces_to_its_own_truthiness() {
    let leaves = onix_core::ignore_order::coerce::type_change_leaf_length;

    assert_eq!(leaves(&cset(&[Json::from(1)]), &cv(&Json::Bool(true))), 1);
    assert_eq!(leaves(&cfrozen(&[]), &cv(&Json::Bool(false))), 1);

    assert_eq!(leaves(&cset(&[Json::from(1)]), &cv(&Json::from(2))), 2);
    assert_eq!(leaves(&cset(&[Json::from(1)]), &cv(&Json::from(2.5))), 2);
    assert_eq!(leaves(&cset(&[Json::from(1)]), &cv(&Json::from("x"))), 2);
}

#[test]
fn python_eq_rejects_mismatched_nested_sequence_lengths() {
    let leaves = onix_core::ignore_order::coerce::type_change_leaf_length;

    assert_eq!(
        leaves(&ctup(&[Json::Array(vec![Json::from(1), Json::from(2), Json::from(3)])]), &cv(&Json::Array(vec![Json::Array(vec![Json::from(1), Json::from(2)])]))),
        1 + 2,
        "not reproduced: the mismatched inner lengths must cost new_value's own length"
    );

    assert_eq!(
        leaves(&ctup(&[Json::Array(vec![Json::from(1), Json::from(2), Json::from(3)])]), &cv(&Json::Array(vec![Json::Array(vec![Json::from(1), Json::from(2), Json::from(3)])]))),
        1
    );
}

#[test]
fn a_frozenset_holding_an_unhashable_value_keeps_its_own_digest() {
    let mut memo = IgnoreOrderMemo::new();
    let with_list = CValue::FrozenSet(SetItems::new(vec![cv(&Json::Array(vec![Json::from(1)]))]));
    let with_other_list = CValue::FrozenSet(SetItems::new(vec![cv(&Json::Array(vec![Json::from(1.0)]))]));

    assert!(!same_key(&with_list, &with_other_list));
}

#[test]
fn an_unhashable_set_member_keys_structurally() {
    let mut memo = IgnoreOrderMemo::new();
    let mut key = |value: &CValue| onix_core::ignore_order::members::set_member_digest(value, &mut memo);
    let mut builder = onix_core::value::Builder::new();
    let object = builder.object(vec![("a".to_string(), cv(&Json::from(1)))]);
    let other_object = builder.object(vec![("a".to_string(), cv(&Json::from(2)))]);

    assert_ne!(key(&cv(&Json::Array(vec![Json::from(1)]))), key(&cv(&Json::Array(vec![Json::from(2)]))));
    assert_eq!(key(&cv(&Json::Array(vec![Json::from(1)]))), key(&cv(&Json::Array(vec![Json::from(1)]))));
    assert_ne!(key(&cset(&[Json::from(1)])), key(&cset(&[Json::from(2)])));
    assert_ne!(key(&object), key(&other_object));
    assert_ne!(key(&cv(&Json::Array(vec![Json::from(1)]))), key(&ctup(&[Json::from(1)])));

    assert_ne!(
        key(&ctup(&[Json::Array(vec![Json::from(1)])])),
        key(&ctup(&[Json::Array(vec![Json::from(2)])])),
        "an unhashable element still distinguishes its tuple"
    );

    assert_ne!(
        key(&CValue::Number(onix_core::value::Number::from_u64(u64::MAX))),
        key(&cv(&Json::from(1)))
    );
}

#[test]
fn unhashable_set_members_of_different_kinds_stay_distinct() {
    let mut memo = IgnoreOrderMemo::new();
    let mut key = |value: &CValue| onix_core::ignore_order::members::set_member_digest(value, &mut memo);
    let listed = |value: CValue| CValue::Tuple(Vec::from([value]));

    assert_ne!(
        key(&listed(cv(&Json::Array(vec![Json::from(1)])))),
        key(&listed(cset(&[Json::from(1)]))),
        "a list and a set holding the same members are not one identity"
    );
    assert_ne!(
        key(&listed(cv(&Json::Array(vec![Json::from(1)])))),
        key(&listed(cfrozen(&[Json::from(1)])))
    );

    let with_set = CValue::MutableSet(SetItems::new(vec![listed(cset(&[Json::from(1)]))]));
    let with_list = CValue::MutableSet(SetItems::new(vec![listed(cv(&Json::Array(vec![Json::from(1)])))]));
    assert_eq!(
        onix_core::diff::diff(&with_set, &with_list)
            .expect("shallow sets diff cleanly")
            .to_json_value(),
        json_object(vec![("set_item_added", Json::Array(vec![Json::from("root[([1],)]")])), ("set_item_removed", Json::Array(vec![Json::from("root[({1},)]")]))])
    );
}

#[test]
fn a_set_member_collapses_a_calendar_difference_at_the_root_and_below_it() {
    let n = || cdt(2024, 1, 1, None);
    let a = || cdt(2024, 1, 1, Some(0));
    let i = |x: i64| cv(&serde_json::to_value(&(x)).unwrap());
    let f = |x: f64| cv(&serde_json::to_value(&(x)).unwrap());
    let tup = |items: Vec<CValue>| CValue::Tuple(items);
    let fz = |items: Vec<CValue>| CValue::FrozenSet(SetItems::new(items));
    let set = |items: Vec<CValue>| CValue::MutableSet(SetItems::new(items));
    let empty = |x: CValue, y: CValue| {
        onix_core::diff::diff(&x, &y)
            .expect("shallow sets diff cleanly")
            .is_empty()
    };

    assert!(empty(
        set(vec![tup(vec![n(), tup(vec![i(1)])])]),
        set(vec![tup(vec![a(), tup(vec![f(1.0)])])]),
    ));
    assert!(
        !empty(
            set(vec![tup(vec![n(), i(1)])]),
            set(vec![tup(vec![a(), f(1.0)])]),
        ),
        "a bare-number sibling is type-distinct with no shared cache entry"
    );

    assert!(empty(
        set(vec![tup(vec![tup(vec![n()])])]),
        set(vec![tup(vec![tup(vec![a()])])]),
    ));

    assert!(empty(
        set(vec![tup(vec![tup(vec![tup(vec![n()])])])]),
        set(vec![tup(vec![tup(vec![tup(vec![a()])])])]),
    ));

    assert!(empty(
        set(vec![fz(vec![tup(vec![n()])])]),
        set(vec![fz(vec![tup(vec![a()])])]),
    ));

    assert!(empty(
        set(vec![tup(vec![n(), tup(vec![n(), i(1)])])]),
        set(vec![tup(vec![a(), tup(vec![a(), i(1)])])]),
    ));
}

#[test]
fn memo_does_not_conflate_lists_sharing_itemkey_but_differing_repetition() {
    let short = Json::Array(vec![Json::from(3), Json::from(4)]);
    let long = Json::Array(vec![Json::from(3), Json::from(3), Json::from(3), Json::from(3), Json::from(3), Json::from(3), Json::from(3), Json::from(3), Json::from(4), Json::from(4), Json::from(4), Json::from(4), Json::from(4), Json::from(4), Json::from(4), Json::from(4)]);
    let other = Json::Array(vec![Json::from(9), Json::from(8)]);
    let opts = DiffOptions {
        ignore_order: true,
        max_depth: 1_000,
    };

    for (p_a, q_a) in [(&short, &long), (&long, &short)] {
        let a = cv(&json_object(vec![("p", Json::Array(vec![serde_json::to_value(&(p_a)).unwrap()])), ("q", Json::Array(vec![serde_json::to_value(&(q_a)).unwrap()]))]));
        let b = cv(&json_object(vec![("p", Json::Array(vec![serde_json::to_value(&(other)).unwrap()])), ("q", Json::Array(vec![serde_json::to_value(&(other)).unwrap()]))]));

        let memoized = onix_core::diff::diff_with_options_memo(&a, &b, &opts, &mut IgnoreOrderMemo::new())
            .expect("memoized diff succeeds");
        let unmemoized =
            onix_core::diff::diff_with_options_memo(&a, &b, &opts, &mut IgnoreOrderMemo::disabled())
                .expect("unmemoized diff succeeds");
        assert_eq!(
            memoized.to_json_value().to_string(),
            unmemoized.to_json_value().to_string(),
            "the memo changed the report for arrangement p={p_a}, q={q_a}"
        );

        let mut isolated = onix_core::diff::diff_with_options(
            &cv(&json_object(vec![("p", Json::Array(vec![serde_json::to_value(&(p_a)).unwrap()]))])),
            &cv(&json_object(vec![("p", Json::Array(vec![serde_json::to_value(&(other)).unwrap()]))])),
            &opts,
        )
        .expect("p-only diff succeeds");
        let q_only = onix_core::diff::diff_with_options(
            &cv(&json_object(vec![("q", Json::Array(vec![serde_json::to_value(&(q_a)).unwrap()]))])),
            &cv(&json_object(vec![("q", Json::Array(vec![serde_json::to_value(&(other)).unwrap()]))])),
            &opts,
        )
        .expect("q-only diff succeeds");
        isolated.merge(q_only);
        assert_eq!(
            memoized.to_json_value(),
            isolated.to_json_value(),
            "sibling subtrees contaminated each other for arrangement p={p_a}, q={q_a}"
        );
    }
}

#[test]
fn distance_memo_only_caches_container_pairs_when_enabled() {
    let opts = DiffOptions {
        ignore_order: true,
        max_depth: 1_000,
    };

    let mut scalar_memo = IgnoreOrderMemo::new();
    onix_core::diff::diff_with_options_memo(
        &cv(&Json::Array(vec![Json::from(1), Json::from(2), Json::from(3)])),
        &cv(&Json::Array(vec![Json::from(3), Json::from(4), Json::from(5)])),
        &opts,
        &mut scalar_memo,
    )
    .expect("scalar diff succeeds");
    assert_eq!(
        scalar_memo.cache_len(),
        0,
        "scalar-only ignore_order diff must not populate the distance cache"
    );

    let container_a = cv(&Json::Array(vec![Json::Array(vec![Json::from(1), Json::from(2)]), Json::Array(vec![Json::from(3), Json::from(4)]), Json::from("anchor")]));
    let container_b = cv(&Json::Array(vec![Json::from("anchor"), Json::Array(vec![Json::from(1), Json::from(9)]), Json::Array(vec![Json::from(3), Json::from(8)])]));
    let mut enabled_memo = IgnoreOrderMemo::new();
    onix_core::diff::diff_with_options_memo(&container_a, &container_b, &opts, &mut enabled_memo)
        .expect("container diff succeeds");
    assert!(
        enabled_memo.cache_len() > 0,
        "container ignore_order diff should populate the distance cache"
    );

    let mut disabled_memo = IgnoreOrderMemo::disabled();
    onix_core::diff::diff_with_options_memo(&container_a, &container_b, &opts, &mut disabled_memo)
        .expect("container diff succeeds");
    assert_eq!(
        disabled_memo.cache_len(),
        0,
        "a disabled memo must never populate the distance cache"
    );
}

#[test]
fn distance_partial_cmp_and_eq_and_hash_are_consistent() {
    let candidate = |distance: f64| Candidate {
        distance: distance.to_bits(),
        added: 0,
        removed: 0,
    };
    let a = candidate(0.1);
    let b = candidate(0.1);
    let c = candidate(0.2);

    assert_eq!(a, b);
    assert_eq!(a.order(&b), Place::Same);
    assert_eq!(a.order(&c), Place::Before);
    assert_eq!(c.order(&a), Place::After);

    assert_ne!(a, c);
}

#[test]
fn item_key_is_orderable_for_use_as_a_nested_set_element() {
    assert!(same_key(
        &cv(&Json::Array(vec![
            json_object(vec![("a", Json::from(1))]),
            json_object(vec![("b", Json::Array(vec![Json::from(1), Json::from(2)]))]),
        ])),
        &cv(&Json::Array(vec![
            json_object(vec![("b", Json::Array(vec![Json::from(2), Json::from(1)]))]),
            json_object(vec![("a", Json::from(1))]),
        ])),
    ));
}

#[test]
fn item_key_ord_is_consistent_with_eq() {
    assert!(same_key(&cv(&Json::from(1)), &cv(&Json::from(1))));
}

#[test]
fn a_deeply_nested_set_member_hashes_and_compares_without_native_recursion() {
    const DEPTH: usize = 200_000;
    let chain = |leaf: CValue| {
        let mut value = leaf;
        for _ in 0..DEPTH {
            value = CValue::FrozenSet(SetItems::new(vec![value]));
        }
        value
    };
    let member = |dt: CValue| {
        CValue::MutableSet(SetItems::new(vec![CValue::Tuple(vec![
            dt,
            chain(cv(&Json::from(0))),
        ])]))
    };
    let a = member(cdt(2024, 1, 1, None));
    let b = member(cdt(2024, 1, 1, Some(0)));
    assert!(
        onix_core::diff::diff(&a, &b)
            .expect("deep set members diff cleanly")
            .is_empty()
    );
    std::mem::forget((a, b));
}

#[test]
fn ignore_order_memo_at_default_budget_on_plain_thread() {
    let build = |leaf: i64| {
        let mut value = cv(&Json::from(leaf));
        for _ in 0..200 {
            value = CValue::Array(vec![value]);
        }
        value
    };
    let opts = DiffOptions {
        ignore_order: true,
        max_depth: onix_core::diff::DEFAULT_MAX_DEPTH,
    };
    let report = onix_core::diff::diff_with_options(&build(1), &build(2), &opts)
        .expect("default-budget ignore_order diff succeeds");
    assert!(!report.is_empty());
}

#[test]
fn dist_key_hash_agrees_with_equality_on_tricky_equal_values() {
    let float = |f: f64| CValue::Number(float_number(f));
    let nested_set = |order: [i64; 3]| {
        CValue::MutableSet(SetItems::new(vec![
            ctup(&[Json::from(order[0])]),
            ctup(&[Json::from(order[1])]),
            ctup(&[Json::from(order[2])]),
        ]))
    };
    let pairs: Vec<(CValue, CValue)> = vec![
        (float(0.0), float(-0.0)),
        (
            cset(&[Json::from(1), Json::from(2), Json::from(3)]),
            cset(&[Json::from(3), Json::from(1), Json::from(2)]),
        ),
        (
            cfrozen(&[Json::from("b"), Json::from("a")]),
            cfrozen(&[Json::from("a"), Json::from("b")]),
        ),
        (nested_set([1, 2, 3]), nested_set([3, 2, 1])),
        (cdt(2024, 6, 1, None), cdt(2024, 6, 1, Some(0))),
        (
            cdt_at(2024, 6, 1, 12, 0, 0, 0, Some(0)),
            cdt_at(2024, 6, 1, 13, 0, 0, 0, Some(3600)),
        ),
    ];
    for (a, b) in pairs {
        assert_eq!(a, b, "test inputs must be Value-equal: {a:?} vs {b:?}");
        assert_eq!(
            digest_of(&a),
            digest_of(&b),
            "equal values must hash equal: {a:?} vs {b:?}"
        );
        let mut memo = IgnoreOrderMemo::new();
        assert_eq!(dist_number(&a, &mut memo), dist_number(&b, &mut memo));
    }
}

#[test]
fn dist_key_hashing_does_not_overflow_the_native_stack() {
    const DEPTH: usize = 200_000;
    let mut value = cv(&Json::from(0));
    for _ in 0..DEPTH {
        value = CValue::Array(vec![value]);
    }
    let mut shallower = cv(&Json::from(0));
    for _ in 1..DEPTH {
        shallower = CValue::Array(vec![shallower]);
    }
    assert_ne!(digest_of(&value), digest_of(&shallower));
    std::mem::forget((value, shallower));
}

#[test]
fn unequal_values_are_told_apart_by_their_digests() {
    let object = |key: ObjectKey, value: i64| {
        CValue::Object(CObject::from_pairs(vec![(key, cv(&Json::from(value)))]))
    };
    let values = vec![
        CValue::Null,
        CValue::Bool(false),
        CValue::Bool(true),
        cv(&Json::from(0)),
        cv(&Json::from(1)),
        cv(&Json::from(-1)),
        CValue::Number(float_number(1.0)),
        cv(&Json::from("")),
        cv(&Json::from("1")),
        CValue::Array(vec![]),
        CValue::Tuple(vec![]),
        cset(&[]),
        cfrozen(&[]),
        CValue::Array(vec![cv(&Json::from(1)), cv(&Json::from(2))]),
        CValue::Array(vec![cv(&Json::from(2)), cv(&Json::from(1))]),
        object(ObjectKey::Str("a".to_string()), 1),
        object(ObjectKey::Str("a".to_string()), 2),
        object(ObjectKey::Str("b".to_string()), 1),
        object(ObjectKey::Other(Box::new(cv(&Json::from(1)))), 1),
        cdt(2024, 6, 1, None),
        cdt(2024, 6, 2, None),
    ];
    for (i, a) in values.iter().enumerate() {
        for (j, b) in values.iter().enumerate() {
            assert_eq!(i == j, digest_of(a) == digest_of(b), "{a:?} and {b:?}");
        }
    }
}

/// A source of numbers that is the same in every run.
struct Numbers(u64);

impl Numbers {
    fn below(&mut self, bound: u64) -> u64 {
        self.0 = self
            .0
            .wrapping_mul(6_364_136_223_846_793_005)
            .wrapping_add(1_442_695_040_888_963_407);
        (self.0 >> 33) % bound
    }
}

/// A nested value of a few levels.
fn nested_case(numbers: &mut Numbers, depth: u64) -> CValue {
    let shapes = if depth == 0 { 4 } else { 6 };
    match numbers.below(shapes) {
        0 => CValue::Null,
        1 => CValue::Bool(numbers.below(2) == 0),
        2 => cv(&Json::from(numbers.below(5))),
        3 => cv(&Json::from(["", "a", "b", "ab"][numbers.below(4) as usize])),
        4 => {
            let count = numbers.below(4);
            CValue::Array((0..count).map(|_| nested_case(numbers, depth - 1)).collect())
        }
        _ => {
            let count = numbers.below(3);
            CValue::Object(CObject::from_pairs(
                (0..count)
                    .map(|_| {
                        let key = ["a", "b", "c"][numbers.below(3) as usize];
                        (ObjectKey::Str(key.to_string()), nested_case(numbers, depth - 1))
                    })
                    .collect(),
            ))
        }
    }
}

/// What a comparison gives with distances remembered, and without.
fn with_and_without(a: &CValue, b: &CValue) -> (Result<String, String>, Result<String, String>) {
    let opts = DiffOptions {
        ignore_order: true,
        max_depth: 1_000,
    };
    let with =
        onix_core::diff::diff_with_options_memo(a, b, &opts, &mut IgnoreOrderMemo::new());
    let without =
        onix_core::diff::diff_with_options_memo(a, b, &opts, &mut IgnoreOrderMemo::disabled());
    (
        with.map(|report| report.to_json_value().to_string())
            .map_err(|error| error.message()),
        without
            .map(|report| report.to_json_value().to_string())
            .map_err(|error| error.message()),
    )
}

#[test]
fn memoized_and_unmemoized_reports_are_byte_identical() {
    let mut numbers = Numbers(1);
    for _ in 0..600 {
        let a = nested_case(&mut numbers, 4);
        let b = nested_case(&mut numbers, 4);
        let (with, without) = with_and_without(&a, &b);
        assert_eq!(with, without);
    }
}

#[test]
fn memo_neutral_on_repetition_varying_siblings() {
    let mut numbers = Numbers(2);
    let list = |numbers: &mut Numbers| {
        let count = 1 + numbers.below(11);
        CValue::Array(vec![CValue::Array(
            (0..count).map(|_| cv(&Json::from(numbers.below(3)))).collect(),
        )])
    };
    for _ in 0..800 {
        let other = list(&mut numbers);
        let mut sides: Vec<(ObjectKey, CValue)> = Vec::new();
        let mut others: Vec<(ObjectKey, CValue)> = Vec::new();
        for key in ["p", "q", "r", "s"] {
            sides.push((ObjectKey::Str(key.to_string()), list(&mut numbers)));
            others.push((ObjectKey::Str(key.to_string()), other.clone()));
        }
        let (with, without) = with_and_without(
            &CValue::Object(CObject::from_pairs(sides)),
            &CValue::Object(CObject::from_pairs(others)),
        );
        assert_eq!(with, without);
    }
}
