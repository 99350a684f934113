//! Longest common parts of lists of scalars.

use onix_core::lcs::{build_b2j, find_longest_match, Opcode, Tag, Window};
use onix_core::scalar_key::{mix_float_bits, python_scalar_key, scalar_classes, ScalarKey};
use onix_core::value::{Number, Object as CObject, ObjectKey, Value as CValue};
use onix_core::{Date, DateTime};
use serde_json::Value as Json;

/// A JSON object.
fn json_object(entries: Vec<(&str, Json)>) -> Json {
    Json::Object(
        entries
            .into_iter()
            .map(|(key, value)| (key.to_string(), value))
            .collect(),
    )
}

/// The number that a float is.
fn float_number(f: f64) -> Number {
    Number::from_f64(f.to_bits()).unwrap()
}

/// The number that a JSON number is.
fn cnum(n: &serde_json::Number) -> Number {
    if let Some(u) = n.as_u64() {
        Number::from_u64(u)
    } else if let Some(i) = n.as_i64() {
        Number::from_i64(i)
    } else {
        float_number(n.as_f64().unwrap())
    }
}

/// The value that a JSON value is.
fn cv(value: &Json) -> CValue {
    match value {
        Json::Null => CValue::Null,
        Json::Bool(b) => CValue::Bool(*b),
        Json::Number(n) => CValue::Number(cnum(n)),
        Json::String(s) => CValue::Str(s.clone()),
        Json::Array(items) => CValue::Array(cvec(items)),
        Json::Object(map) => CValue::Object(cobj(map)),
    }
}

/// The values that JSON values are.
fn cvec(items: &[Json]) -> Vec<CValue> {
    items.iter().map(cv).collect()
}

/// The dict that a JSON object is.
fn cobj(map: &serde_json::Map<String, Json>) -> CObject {
    CObject::from_pairs(
        map.iter()
            .map(|(key, value)| (ObjectKey::Str(key.clone()), cv(value)))
            .collect(),
    )
}

fn cdate(year: i32, month: u8, day: u8) -> CValue {
    CValue::Date(Date::new(year, month, day).unwrap())
}

fn cdt(year: i32, month: u8, day: u8, offset: Option<i32>) -> CValue {
    cdt_at(year, month, day, 0, 0, 0, 0, offset)
}

fn cdt_at(
    year: i32,
    month: u8,
    day: u8,
    hour: u8,
    minute: u8,
    second: u8,
    microsecond: u32,
    offset: Option<i32>,
) -> CValue {
    let date = Date::new(year, month, day).unwrap();
    CValue::DateTime(DateTime::new(date, hour, minute, second, microsecond, offset).unwrap())
}


fn all_basic_scalars(items: &[Json]) -> bool {
    onix_core::scalar_key::all_basic_scalars(&cvec(items))
}

fn compute_opcodes(a: &[Json], b: &[Json]) -> Vec<Opcode> {
    onix_core::lcs::compute_opcodes(&cvec(a), &cvec(b))
}

fn python_scalar_eq(a: &Json, b: &Json) -> bool {
    python_scalar_key(&cv(a)) == python_scalar_key(&cv(b))
}

fn grouped_opcodes(
    a: &[Json],
    b: &[Json],
    n: usize,
) -> Vec<Vec<Opcode>> {
    onix_core::lcs::grouped_opcodes(&cvec(a), &cvec(b), n)
}

#[test]
fn empty_slice_is_vacuously_all_scalar() {
    assert!(all_basic_scalars(&[]));
}

#[test]
fn every_json_scalar_kind_qualifies() {
    assert!(all_basic_scalars(&[
        Json::Null,
        Json::Bool(true),
        Json::from(1),
        Json::from(1.5),
        Json::from("s"),
    ]));
}

#[test]
fn a_nested_array_disqualifies() {
    assert!(!all_basic_scalars(&[Json::from(1), Json::Array(vec![Json::from(1)])]));
}

#[test]
fn a_nested_object_disqualifies() {
    assert!(!all_basic_scalars(&[Json::from(1), json_object(vec![("a", Json::from(1))])]));
}

#[test]
fn int_and_equal_float_are_python_equal() {
    assert!(python_scalar_eq(&Json::from(1), &Json::from(1.0)));
}

#[test]
fn bool_and_equal_int_are_python_equal() {
    assert!(python_scalar_eq(&Json::Bool(true), &Json::from(1)));
    assert!(python_scalar_eq(&Json::Bool(false), &Json::from(0)));
}

#[test]
fn positive_and_negative_zero_are_python_equal() {
    assert!(python_scalar_eq(&Json::from(0.0), &Json::from(-0.0)));
}

#[test]
fn different_numeric_values_are_not_python_equal() {
    assert!(!python_scalar_eq(&Json::from(1), &Json::from(2)));
}

#[test]
fn string_and_number_are_never_python_equal() {
    assert!(!python_scalar_eq(&Json::from("1"), &Json::from(1)));
}

#[test]
fn null_is_only_python_equal_to_null() {
    assert!(python_scalar_eq(
        &Json::Null,
        &Json::Null
    ));
    assert!(!python_scalar_eq(&Json::Null, &Json::from(0)));
}

#[test]
fn non_integral_floats_compare_by_value() {
    assert!(python_scalar_eq(&Json::from(1.5), &Json::from(1.5)));
    assert!(!python_scalar_eq(&Json::from(1.5), &Json::from(2.5)));
}

fn vals(items: &[i64]) -> Vec<Json> {
    items.iter().map(|&i| serde_json::to_value(&(i)).unwrap()).collect()
}

fn vals_str(items: &[&str]) -> Vec<Json> {
    items.iter().map(|&s| serde_json::to_value(&(s)).unwrap()).collect()
}

#[test]
fn equal_lists_are_one_equal_opcode() {
    let a = vals(&[1, 2, 3]);
    let ops = compute_opcodes(&a, &a);
    assert_eq!(ops.len(), 1);
    assert_eq!(ops[0].tag, Tag::Equal);
    assert_eq!((ops[0].a1, ops[0].a2, ops[0].b1, ops[0].b2), (0, 3, 0, 3));
}

#[test]
fn empty_a_is_one_insert_opcode() {
    let a: Vec<Json> = Vec::new();
    let b = vals(&[1, 2, 3]);
    let ops = compute_opcodes(&a, &b);
    assert_eq!(ops.len(), 1);
    assert_eq!(ops[0].tag, Tag::Insert);
    assert_eq!((ops[0].a1, ops[0].a2, ops[0].b1, ops[0].b2), (0, 0, 0, 3));
}

#[test]
fn empty_b_is_one_delete_opcode() {
    let a = vals(&[1, 2, 3]);
    let b: Vec<Json> = Vec::new();
    let ops = compute_opcodes(&a, &b);
    assert_eq!(ops.len(), 1);
    assert_eq!(ops[0].tag, Tag::Delete);
    assert_eq!((ops[0].a1, ops[0].a2, ops[0].b1, ops[0].b2), (0, 3, 0, 0));
}

#[test]
fn both_empty_is_no_opcodes() {
    let a: Vec<Json> = Vec::new();
    assert!(compute_opcodes(&a, &a).is_empty());
}

#[test]
fn repro_bool_reorder_matches_real_deepdiff_opcodes() {
    let a = vec![Json::Bool(false), Json::Bool(true), Json::Bool(false)];
    let b = vec![Json::Bool(true), Json::Bool(false), Json::Bool(true)];
    let ops = compute_opcodes(&a, &b);
    assert_eq!(
        ops,
        vec![
            Opcode {
                tag: Tag::Insert,
                a1: 0,
                a2: 0,
                b1: 0,
                b2: 1,
            },
            Opcode {
                tag: Tag::Equal,
                a1: 0,
                a2: 2,
                b1: 1,
                b2: 3,
            },
            Opcode {
                tag: Tag::Delete,
                a1: 2,
                a2: 3,
                b1: 3,
                b2: 3,
            },
        ]
    );
}

#[test]
fn equal_length_replace_is_one_replace_opcode() {
    let a = vals(&[1, 2, 3]);
    let b = vals(&[1, 5, 3]);
    let ops = compute_opcodes(&a, &b);
    assert_eq!(
        ops,
        vec![
            Opcode {
                tag: Tag::Equal,
                a1: 0,
                a2: 1,
                b1: 0,
                b2: 1,
            },
            Opcode {
                tag: Tag::Replace,
                a1: 1,
                a2: 2,
                b1: 1,
                b2: 2,
            },
            Opcode {
                tag: Tag::Equal,
                a1: 2,
                a2: 3,
                b1: 2,
                b2: 3,
            },
        ]
    );
}

#[test]
fn replace_opcode_ranges_never_share_a_matching_element() {
    let cases: &[(&[i64], &[i64])] = &[
        (&[0, 0, 3, 3, 0, 1, 0], &[4, 3, 0, 4]),
        (&[1, 2, 1], &[2, 1, 2]),
        (&[1, 2, 3], &[0, 3, 1, 2]),
        (&[5, 1, 2, 3], &[1, 2, 3, 5]),
    ];
    for (a, b) in cases {
        let a = vals(a);
        let b = vals(b);
        for op in compute_opcodes(&a, &b) {
            if op.tag != Tag::Replace {
                continue;
            }
            for x in &a[op.a1..op.a2] {
                for y in &b[op.b1..op.b2] {
                    assert!(
                        !python_scalar_eq(x, y),
                        "replace opcode {op:?} contains a matching pair {x:?}/{y:?}"
                    );
                }
            }
        }
    }
}

#[test]
fn get_matching_blocks_right_recursion_finds_a_second_insert() {
    let a = vals(&[1, 0, 0, 0]);
    let b = vals(&[0, 0, 0, 1, 0, 0, 1, 0]);

    assert_eq!(
        compute_opcodes(&a, &b),
        vec![
            Opcode {
                tag: Tag::Insert,
                a1: 0,
                a2: 0,
                b1: 0,
                b2: 3,
            },
            Opcode {
                tag: Tag::Equal,
                a1: 0,
                a2: 3,
                b1: 3,
                b2: 6,
            },
            Opcode {
                tag: Tag::Insert,
                a1: 3,
                a2: 3,
                b1: 6,
                b2: 7,
            },
            Opcode {
                tag: Tag::Equal,
                a1: 3,
                a2: 4,
                b1: 7,
                b2: 8,
            },
        ]
    );
}

#[test]
fn get_matching_blocks_right_recursion_finds_a_trailing_insert() {
    let a = vec![
        Json::from(2),
        Json::from(0.0),
        Json::from(1.0),
        Json::from(2.0),
        Json::Bool(false),
        Json::from(1),
    ];
    let b = vec![Json::from(1.0), Json::from(2.0), Json::from(0.0), Json::from(0.0), Json::Bool(true)];

    assert_eq!(
        compute_opcodes(&a, &b),
        vec![
            Opcode {
                tag: Tag::Delete,
                a1: 0,
                a2: 2,
                b1: 0,
                b2: 0,
            },
            Opcode {
                tag: Tag::Equal,
                a1: 2,
                a2: 5,
                b1: 0,
                b2: 3,
            },
            Opcode {
                tag: Tag::Insert,
                a1: 5,
                a2: 5,
                b1: 3,
                b2: 4,
            },
            Opcode {
                tag: Tag::Equal,
                a1: 5,
                a2: 6,
                b1: 4,
                b2: 5,
            },
        ]
    );
}

#[test]
fn one_vs_one_point_zero_is_a_single_equal_opcode() {
    let a = vec![Json::from(1)];
    let b = vec![Json::from(1.0)];
    let ops = compute_opcodes(&a, &b);
    assert_eq!(ops.len(), 1);
    assert_eq!(ops[0].tag, Tag::Equal);
}

#[test]
fn adjacent_matches_from_different_stack_entries_collapse_needs_and_not_or() {
    let a = vals_str(&["s0"]);
    let b = vals_str(&["s2", "s0"]);

    assert_eq!(
        compute_opcodes(&a, &b),
        vec![
            Opcode {
                tag: Tag::Insert,
                a1: 0,
                a2: 0,
                b1: 0,
                b2: 1,
            },
            Opcode {
                tag: Tag::Equal,
                a1: 0,
                a2: 1,
                b1: 1,
                b2: 2,
            },
        ]
    );
}

#[test]
fn collapse_check_needs_pending_a_plus_pending_size_not_times() {
    let a = vals(&[2, 2, 0, 1, 1, 0, 1]);
    let b = vals(&[1, 1, 1]);

    assert_eq!(
        compute_opcodes(&a, &b),
        vec![
            Opcode {
                tag: Tag::Delete,
                a1: 0,
                a2: 3,
                b1: 0,
                b2: 0,
            },
            Opcode {
                tag: Tag::Equal,
                a1: 3,
                a2: 5,
                b1: 0,
                b2: 2,
            },
            Opcode {
                tag: Tag::Delete,
                a1: 5,
                a2: 6,
                b1: 2,
                b2: 2,
            },
            Opcode {
                tag: Tag::Equal,
                a1: 6,
                a2: 7,
                b1: 2,
                b2: 3,
            },
        ]
    );
}

#[test]
fn collapse_check_needs_pending_b_plus_pending_size_not_times() {
    let a = vec![Json::from(0), Json::from(2), Json::from(2)];
    let b = vec![
        Json::Bool(false),
        Json::from(1.0),
        Json::from(2),
        Json::from(0),
        Json::from(2.0),
        Json::from(0),
        Json::from(2),
    ];

    assert_eq!(
        compute_opcodes(&a, &b),
        vec![
            Opcode {
                tag: Tag::Insert,
                a1: 0,
                a2: 0,
                b1: 0,
                b2: 3,
            },
            Opcode {
                tag: Tag::Equal,
                a1: 0,
                a2: 2,
                b1: 3,
                b2: 5,
            },
            Opcode {
                tag: Tag::Insert,
                a1: 2,
                a2: 2,
                b1: 5,
                b2: 6,
            },
            Opcode {
                tag: Tag::Equal,
                a1: 2,
                a2: 3,
                b1: 6,
                b2: 7,
            },
        ]
    );
}

#[test]
fn calendar_values_are_basic_scalars() {
    assert!(onix_core::scalar_key::all_basic_scalars(&[
        cdt(2024, 1, 1, None),
        cdate(2024, 1, 1),
        cv(&Json::from(1)),
    ]));
}

#[test]
fn datetime_scalar_keys_follow_pythons_own_equality_not_the_engines() {
    let naive = python_scalar_key(&cdt_at(2024, 1, 1, 10, 0, 0, 0, None));
    let utc = python_scalar_key(&cdt_at(2024, 1, 1, 10, 0, 0, 0, Some(0)));
    let plus_two = python_scalar_key(&cdt_at(2024, 1, 1, 12, 0, 0, 0, Some(2 * 3600)));

    assert_eq!(utc, plus_two);

    assert_ne!(naive, utc);
}

#[test]
fn a_date_key_never_equals_a_datetime_key_or_another_dates() {
    let date = python_scalar_key(&cdate(2024, 1, 1));

    assert_ne!(date, python_scalar_key(&cdt(2024, 1, 1, None)));
    assert_ne!(date, python_scalar_key(&cdate(2024, 1, 2)));
    assert_eq!(date, python_scalar_key(&cdate(2024, 1, 1)));
}

#[test]
fn mix_float_bits_spreads_low_bits_of_integral_and_half_integer_floats() {
        for &half in &[0.0_f64, 0.5] {
        let low_bytes: std::collections::HashSet<u8> = (0..1000u64)
            .map(|i| {
                                let f = i as f64 + half;
                (mix_float_bits(f.to_bits()) & 0xff) as u8
            })
            .collect();

        assert!(
            low_bytes.len() > 200,
            "mixed low byte covered only {} of 256 values for +{half}",
            low_bytes.len()
        );
    }

    assert_ne!(
        mix_float_bits(1.0_f64.to_bits()),
        mix_float_bits(2.0_f64.to_bits())
    );
}

#[test]
fn grouped_opcodes_of_empty_inputs_yields_no_groups() {
    assert!(grouped_opcodes(&[], &[], 3).is_empty());
}

#[test]
fn grouped_opcodes_of_identical_inputs_yields_no_groups() {
    let same = vec![Json::from("a"), Json::from("b"), Json::from("c")];
    assert!(grouped_opcodes(&same, &same, 3).is_empty());
}

#[test]
fn grouped_opcodes_splits_far_apart_changes_into_separate_groups() {
    let a: Vec<Json> = (0..20).map(|i| serde_json::to_value(&(format!("L{i}"))).unwrap()).collect();
    let b: Vec<Json> = (0..20)
        .map(|i| match i {
            1 => Json::from("X1"),
            15 => Json::from("X15"),
            _ => serde_json::to_value(&(format!("L{i}"))).unwrap(),
        })
        .collect();
    assert_eq!(grouped_opcodes(&a, &b, 3).len(), 2);
}

/// The class of each scalar of two lists, the same for equal ones.
fn classes_of(a: &[Json], b: &[Json]) -> (Vec<usize>, Vec<usize>, usize) {
    let keys: Vec<Option<ScalarKey>> = a
        .iter()
        .chain(b)
        .map(|value| python_scalar_key(&cv(value)))
        .collect();
    let classes = scalar_classes(&keys);
    let (first, second) = classes.split_at(a.len());
    (first.to_vec(), second.to_vec(), keys.len())
}

/// The positions of each class, without those of one scalar.
fn index_without(b: &[usize], count: usize, purged: usize) -> Vec<Vec<usize>> {
    let mut lists = build_b2j(&b.to_vec(), count, false);
    lists[purged].clear();
    lists
}

#[test]
fn extension_bridges_a_purged_element_backward() {
    let (a, b, count) = classes_of(
        &[Json::from("P"), Json::from("P"), Json::from("u")],
        &[Json::from("P"), Json::from("u")],
    );
    let b2j = index_without(&b, count, a[0]);
    let window = Window {
        alo: 0,
        ahi: a.len(),
        blo: 0,
        bhi: b.len(),
    };
    let best = find_longest_match(&a, &b, window, &b2j, true);
    assert_eq!((best.a, best.b, best.size), (1, 0, 2));
}

#[test]
fn extension_bridges_a_purged_element_forward() {
    let (a, b, count) = classes_of(
        &[Json::from("u"), Json::from("P")],
        &[Json::from("u"), Json::from("P"), Json::from("P")],
    );
    let b2j = index_without(&b, count, a[1]);
    let window = Window {
        alo: 0,
        ahi: a.len(),
        blo: 0,
        bhi: b.len(),
    };
    let best = find_longest_match(&a, &b, window, &b2j, false);
    assert_eq!((best.a, best.b, best.size), (0, 0, 1), "with extend=false the purged P is not bridged");
    let best = find_longest_match(&a, &b, window, &b2j, true);
    assert_eq!((best.a, best.b, best.size), (0, 0, 2), "with extend=true the forward extension bridges one P");
}

#[test]
fn build_b2j_purges_only_above_the_autojunk_threshold() {
    let mut items: Vec<Json> = Vec::new();
    items.extend(std::iter::repeat(Json::from("pop")).take(4));
    items.extend(std::iter::repeat(Json::from("keep3")).take(3));
    for i in 0..193 {
        items.push(Json::from(format!("u{i}")));
    }
    assert_eq!(items.len(), 200);
    let (_, b, count) = classes_of(&[], &items);

    let purged = build_b2j(&b, count, true);
    assert!(
        purged[b[0]].is_empty(),
        "pop occurs 4 times (> ntest 3) and must be purged"
    );
    assert!(
        !purged[b[4]].is_empty(),
        "keep3 occurs exactly 3 times (== ntest) and must be kept"
    );

    let unpurged = build_b2j(&b, count, false);
    assert!(!unpurged[b[0]].is_empty());
}
