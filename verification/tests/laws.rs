//! What holds of every comparison, on chosen values.

use onix_core::datetime::times_equal;
use onix_core::diff::equality::values_equal;
use onix_core::diff::{
    diff, diff_with_max_depth, diff_with_options, diff_with_options_memo, diff_with_resolver,
    DiffOptions, Resolution, Resolver,
};
use onix_core::float_math::{add_floats, cut_float, divide_floats, from_integer, subtract_floats};
use onix_core::diff::dispatch::diff_at;
use onix_core::ignore_order::memo::IgnoreOrderMemo;
use onix_core::ignore_order::pairing::compute_pairs;
use onix_core::ignore_order::unordered::ListPair;
use onix_core::ignore_order::numeric::{distance_family, numeric_distance};
use onix_core::lcs::{compute_opcodes, Tag};
use onix_core::numeric_text::{parse_integer, text_names_float};
use onix_core::path::{python_repr, render_path, PathSegment};
use onix_core::report::{Report, ValuesChangedEntry};
use onix_core::scalar_key::python_scalar_key;
use onix_core::repr::{is_non_printable, number_repr, plain_float_text, python_float_repr};
use onix_core::value::{Float, Number, Object, ObjectKey, ObjectKind, SetItems, Value};
use onix_core::{Date, DateTime, Error, Time, TimeDelta};
use std::sync::Arc;

fn whole(n: i64) -> Value {
    Value::Number(Number::from_i64(n))
}

fn float(f: f64) -> Value {
    Value::Number(Number::from_f64(f.to_bits()).unwrap())
}

fn text(s: &str) -> Value {
    Value::Str(s.to_string())
}

fn list(items: Vec<Value>) -> Value {
    Value::Array(items)
}

fn dict(entries: Vec<(&str, Value)>) -> Value {
    Value::Object(Object::from_pairs(
        entries
            .into_iter()
            .map(|(key, value)| (ObjectKey::Str(key.to_string()), value))
            .collect(),
    ))
}

fn object(kind: ObjectKind, class_name: &str, identity: &str, entries: Vec<(&str, Value)>) -> Value {
    Value::Object(Object::new(
        kind,
        class_name.to_string(),
        identity.to_string(),
        entries
            .into_iter()
            .map(|(key, value)| (ObjectKey::Str(key.to_string()), value))
            .collect(),
    ))
}

fn unordered() -> DiffOptions {
    DiffOptions {
        max_depth: 512,
        ignore_order: true,
    }
}

fn shown(report: &Report) -> String {
    python_repr(&report.to_value())
}

#[test]
fn equal_values_are_silent_at_any_depth() {
    let mut a = whole(1);
    let mut b = whole(1);
    for _ in 0..40 {
        a = list(vec![a]);
        b = list(vec![b]);
    }
    assert!(diff_with_max_depth(&a, &b, 0).unwrap().is_empty());
    assert!(values_equal(&a, &a));
    let nan = Value::Number(Number::Float(Float {
        bits: f64::NAN.to_bits(),
    }));
    assert!(!values_equal(&nan, &nan));
}

#[test]
fn order_and_repetition_are_ignored_at_every_level() {
    let a = dict(vec![(
        "k",
        list(vec![
            whole(1),
            list(vec![whole(2), whole(3)]),
            dict(vec![("x", list(vec![text("p"), text("q")]))]),
        ]),
    )]);
    let b = dict(vec![(
        "k",
        list(vec![
            dict(vec![("x", list(vec![text("q"), text("p"), text("q")]))]),
            list(vec![whole(3), whole(2), whole(2)]),
            whole(1),
            whole(1),
        ]),
    )]);
    let report = diff_with_options(&a, &b, &unordered()).unwrap();
    assert_eq!(shown(&report), "{}");
    assert!(!diff(&a, &b).unwrap().is_empty());
}

#[test]
fn remembered_distances_change_no_report() {
    let a = list(vec![
        list(vec![whole(1), whole(2), whole(3)]),
        dict(vec![("x", whole(1)), ("y", whole(2)), ("z", whole(3))]),
    ]);
    let b = list(vec![
        dict(vec![("x", whole(1)), ("y", whole(2)), ("z", whole(4))]),
        list(vec![whole(1), whole(2), whole(4)]),
    ]);
    let opts = unordered();
    let with = diff_with_options_memo(&a, &b, &opts, &mut IgnoreOrderMemo::new()).unwrap();
    let without = diff_with_options_memo(&a, &b, &opts, &mut IgnoreOrderMemo::disabled()).unwrap();
    assert_eq!(shown(&with), shown(&without));
    assert!(!with.is_empty());
}

#[test]
fn a_wider_limit_finds_the_same() {
    let a = dict(vec![("k", list(vec![whole(1), list(vec![whole(2)])]))]);
    let b = dict(vec![("k", list(vec![whole(1), list(vec![whole(3)])]))]);
    assert!(diff_with_max_depth(&a, &b, 2).is_err());
    let narrow = diff_with_max_depth(&a, &b, 3).unwrap();
    assert_eq!(
        shown(&narrow),
        "{'values_changed': {\"root['k'][1][0]\": {'new_value': 3, 'old_value': 2}}}"
    );
    for limit in [4, 10, 1000] {
        assert_eq!(shown(&diff_with_max_depth(&a, &b, limit).unwrap()), shown(&narrow));
    }
}

#[test]
fn values_within_the_limit_are_never_too_deep() {
    let nest = |leaf: Value| {
        dict(vec![("k", list(vec![whole(1), Value::Tuple(vec![leaf])]))])
    };
    let pairs = vec![
        (nest(whole(1)), nest(whole(2))),
        (nest(whole(1)), nest(list(vec![]))),
        (nest(whole(1)), whole(1)),
        (nest(whole(1)), dict(vec![])),
        (list(vec![]), list(vec![nest(whole(1))])),
    ];
    for ignore_order in [false, true] {
        for (a, b) in &pairs {
            let opts = DiffOptions {
                max_depth: 4,
                ignore_order,
            };
            assert!(diff_with_options(a, b, &opts).is_ok());
            assert!(diff_with_options(b, a, &opts).is_ok());
        }
    }
    let shallow = DiffOptions {
        max_depth: 2,
        ignore_order: false,
    };
    assert!(matches!(
        diff_with_options(&pairs[0].0, &pairs[0].1, &shallow),
        Err(Error::MaxDepthExceeded { max_depth: 2, .. })
    ));
}

#[test]
fn a_wide_enough_limit_does_not_show_without_order() {
    let a = list(vec![
        list(vec![whole(1), whole(2), whole(3)]),
        dict(vec![("k", list(vec![whole(4), whole(5)]))]),
    ]);
    let b = list(vec![
        dict(vec![("k", list(vec![whole(4), whole(6)]))]),
        list(vec![whole(1), whole(2), whole(7)]),
    ]);
    let narrow = DiffOptions {
        max_depth: 3,
        ignore_order: true,
    };
    let report = diff_with_options(&a, &b, &narrow).unwrap();
    assert!(!report.is_empty());
    for limit in [4, 5, 100] {
        let wide = DiffOptions {
            max_depth: limit,
            ignore_order: true,
        };
        assert_eq!(shown(&diff_with_options(&a, &b, &wide).unwrap()), shown(&report));
    }
}

#[test]
fn findings_of_different_steps_are_kept_apart() {
    let a = dict(vec![("p", list(vec![whole(1)])), ("q", list(vec![whole(1)]))]);
    let b = dict(vec![("p", list(vec![whole(2)])), ("q", list(vec![whole(2)]))]);
    let report = diff(&a, &b).unwrap();
    assert_eq!(report.finding_count(), 2);
    assert!(shown(&report).contains("root['p'][0]"));
    assert!(shown(&report).contains("root['q'][0]"));
}

#[test]
fn members_of_a_set_have_no_order() {
    let a = SetItems::new(vec![whole(3), whole(1), whole(2), whole(1)]);
    let b = SetItems::new(vec![whole(1), whole(2), whole(3)]);
    assert_eq!(a.len(), 3);
    assert_eq!(
        python_repr(&Value::MutableSet(a)),
        python_repr(&Value::MutableSet(b))
    );
}

#[test]
fn entries_of_a_dict_have_no_order() {
    let a = dict(vec![("a", whole(1)), ("b", whole(2))]);
    let b = dict(vec![("b", whole(2)), ("a", whole(1))]);
    assert!(values_equal(&a, &b));
    assert!(diff(&a, &b).unwrap().is_empty());
}

#[test]
fn a_report_of_nothing_is_an_empty_dict() {
    let mut report = Report::new();
    assert_eq!(shown(&report), "{}");
    report.insert_iterable_item_added(vec![PathSegment::Index(0)], whole(1));
    assert_eq!(shown(&report), "{'iterable_item_added': {'root[0]': 1}}");
}

#[test]
fn merging_with_nothing_changes_nothing() {
    let mut report = Report::new();
    report.insert_iterable_item_removed(vec![PathSegment::Index(2)], whole(7));
    let before = shown(&report);
    report.merge(Report::new());
    assert_eq!(shown(&report), before);
    let mut other = Report::new();
    other.merge(report);
    assert_eq!(shown(&other), before);
}

#[test]
fn no_mutual_items_are_left() {
    let mut report = Report::new();
    report.insert_iterable_item_removed(vec![PathSegment::Index(0)], whole(1));
    report.insert_iterable_item_removed(vec![PathSegment::Index(1)], whole(2));
    report.insert_iterable_item_added(vec![PathSegment::Index(0)], whole(3));
    report.merge_mutual_add_removes();
    assert_eq!(
        shown(&report),
        "{'iterable_item_removed': {'root[1]': 2}, \
         'values_changed': {'root[0]': {'new_value': 3, 'old_value': 1}}}"
    );
}

#[test]
fn two_steps_are_retagged_in_any_order() {
    let path = || {
        vec![
            PathSegment::Index(0),
            PathSegment::Key("k".to_string()),
            PathSegment::Index(5),
        ]
    };
    let changed = || {
        let mut report = Report::new();
        report.insert_values_changed(
            path(),
            ValuesChangedEntry {
                old_value: whole(1),
                new_value: whole(2),
                new_path: None,
                diff: None,
            },
        );
        report
    };
    let mut a = changed();
    a.retag_new_path(0, 3);
    a.retag_new_path(2, 9);
    let mut b = changed();
    b.retag_new_path(2, 9);
    b.retag_new_path(0, 3);
    assert_eq!(shown(&a), shown(&b));
    assert_eq!(
        shown(&a),
        "{'values_changed': {\"root[0]['k'][5]\": {'new_path': \"root[3]['k'][9]\", \
         'new_value': 2, 'old_value': 1}}}"
    );
}

#[test]
fn replaced_ranges_share_no_element() {
    let a: Vec<Value> = [1, 2, 3, 4, 9, 5].iter().map(|n| whole(*n)).collect();
    let b: Vec<Value> = [1, 7, 8, 4, 6, 5].iter().map(|n| whole(*n)).collect();
    let mut replaced = 0;
    for code in compute_opcodes(&a, &b) {
        if code.tag == Tag::Replace {
            replaced += 1;
            for x in &a[code.a1..code.a2] {
                for y in &b[code.b1..code.b2] {
                    assert!(!values_equal(x, y));
                }
            }
        }
    }
    assert_eq!(replaced, 2);
}

#[test]
fn floats_out_of_range_are_not_cut() {
    assert_eq!(cut_float(9_223_372_036_854_775_808.0_f64.to_bits()), None);
    assert_eq!(cut_float((-9_223_372_036_854_775_808.0_f64).to_bits()), Some(i64::MIN));
    assert_eq!(cut_float(9_223_372_036_854_774_784.0_f64.to_bits()), Some(9_223_372_036_854_774_784));
    assert_eq!(cut_float(2.75_f64.to_bits()), Some(2));
    assert_eq!(cut_float(f64::NAN.to_bits()), None);
}

#[test]
fn floats_that_are_not_finite_are_written_as_python_does() {
    let written = |f: f64| plain_float_text(Float { bits: f.to_bits() });
    assert_eq!(written(f64::NAN), "nan");
    assert_eq!(written(f64::INFINITY), "inf");
    assert_eq!(written(f64::NEG_INFINITY), "-inf");
    assert_eq!(written(5.0), "5.0");
}

#[test]
fn a_copy_of_a_report_is_equal_to_it() {
    let report = diff(&list(vec![whole(1), whole(2)]), &list(vec![whole(1), text("a")])).unwrap();
    let copy = report.clone();
    assert_eq!(copy, report);
    assert_eq!(shown(&copy), shown(&report));
}

#[test]
fn steps_of_a_path_are_ordered_by_kind_and_then_by_what_they_hold() {
    let mut steps = vec![
        PathSegment::Index(10),
        PathSegment::Key("b".to_string()),
        PathSegment::Index(2),
        PathSegment::Key("a".to_string()),
    ];
    steps.sort();
    assert_eq!(
        steps,
        vec![
            PathSegment::Key("a".to_string()),
            PathSegment::Key("b".to_string()),
            PathSegment::Index(2),
            PathSegment::Index(10),
        ]
    );
}

#[test]
fn a_comparison_below_the_limit_fails_at_its_path() {
    let mut path = vec![PathSegment::Key("k".to_string())];
    let mut memo = IgnoreOrderMemo::new();
    let opts = DiffOptions {
        max_depth: 2,
        ignore_order: false,
    };
    for depth in [3, 4, 1_000, u128::MAX] {
        assert_eq!(
            diff_at(&mut path, &whole(1), &whole(2), depth, &opts, &mut memo),
            Err(Error::MaxDepthExceeded {
                path: "root['k']".to_string(),
                max_depth: 2,
            })
        );
    }
    assert_eq!(path.len(), 1);
    assert!(diff_at(&mut path, &whole(1), &whole(2), 2, &opts, &mut memo).is_ok());
}

#[test]
fn whatever_share_of_the_keys_changed_is_paired() {
    let record = |b: i64| dict(vec![("a", whole(1)), ("b", whole(b))]);
    let old = vec![record(1), record(2)];
    let new = vec![record(3)];
    let mut memo = IgnoreOrderMemo::new();
    let lists = ListPair::build(&old, &new, &mut memo);
    let partners = compute_pairs(&lists, 0, &unordered(), &mut memo);
    assert_eq!(partners.len(), 1);
    assert_eq!(partners[0], Some((0, 0.1_f64.to_bits())));
    assert_eq!(diff_with_options(&list(old), &list(new), &unordered()).unwrap().finding_count(), 3);
}

#[test]
fn what_a_replacement_pairs_differs() {
    let a = vec![whole(1), float(2.5), text("a"), Value::Bool(true), Value::Null];
    let b = vec![float(1.0), whole(7), float(-0.0), whole(1), text("b"), Value::Null];
    for code in compute_opcodes(&a, &b) {
        if code.tag == Tag::Replace {
            for old in &a[code.a1..code.a2] {
                for new in &b[code.b1..code.b2] {
                    assert!(!values_equal(old, new));
                }
            }
        }
    }
    assert!(diff(&list(a), &list(b)).unwrap().finding_count() > 1);
}

/// Floats of many sizes.
fn samples() -> Vec<f64> {
    let mut floats = vec![
        0.0,
        -0.0,
        1.0,
        -1.5,
        0.1,
        0.3,
        1.0 / 3.0,
        5e-324,
        2.2250738585072014e-308,
        f64::MAX,
        9007199254740993.0,
        9.5e22,
        1e23,
        123456789.125,
    ];
    let mut state: u64 = 0x9e37_79b9_7f4a_7c15;
    for _ in 0..120 {
        state = state.wrapping_mul(6364136223846793005).wrapping_add(1442695040888963407);
        let f = f64::from_bits(state);
        if f.is_finite() {
            floats.push(f);
        }
    }
    floats
}

#[test]
fn float_arithmetic_is_that_of_the_machine() {
    for a in samples() {
        for b in samples().into_iter().step_by(5) {
            let (x, y) = (a.to_bits(), b.to_bits());
            let same = |got: u64, expected: f64| {
                got == expected.to_bits() || (expected.is_nan() && f64::from_bits(got).is_nan())
            };
            assert!(same(add_floats(x, y), a + b), "{a} + {b}");
            assert!(same(subtract_floats(x, y), a - b), "{a} - {b}");
            assert!(same(divide_floats(x, y), a / b), "{a} / {b}");
        }
    }
    for n in [0, 1, -1, 9007199254740993, i64::MAX, i64::MIN] {
        assert_eq!(from_integer(n as i128), (n as f64).to_bits());
    }
    assert_eq!(cut_float((-2.75_f64).to_bits()), Some(-2));
    assert_eq!(cut_float(1e300_f64.to_bits()), None);
}

#[test]
fn floats_are_printed_with_the_digits_that_read_back() {
    for f in samples() {
        let given = Float { bits: f.to_bits() };
        let mut plain = f.to_string();
        if !plain.contains('.') {
            plain.push_str(".0");
        }
        assert_eq!(plain_float_text(given), plain);
        let printed = python_float_repr(given);
        assert_eq!(printed.parse::<f64>().unwrap().to_bits(), f.to_bits(), "{printed}");
    }
    assert_eq!(number_repr(&Number::from_f64(1e22_f64.to_bits()).unwrap()), "1e+22");
    assert_eq!(number_repr(&Number::from_u64(u64::MAX)), "18446744073709551615");
    assert_eq!(number_repr(&Number::from_i64(i64::MIN)), "-9223372036854775808");
    assert!(Number::from_f64(f64::INFINITY.to_bits()).is_none());
}

#[test]
fn texts_name_the_floats_that_they_are_read_as() {
    for f in samples() {
        let written = format!("  {f:e}\n");
        assert!(text_names_float(&written, f.to_bits()), "{written}");
        assert!(!text_names_float(&written, f.to_bits() ^ 1), "{written}");
    }
    assert!(!text_names_float("1x", 1.0_f64.to_bits()));
    assert_eq!(parse_integer(" -42 "), Some(-42));
    assert_eq!(parse_integer("9223372036854775808"), None);
    assert_eq!(parse_integer("4.0"), None);
}

#[test]
fn numbers_are_as_far_apart_as_their_ratio_says() {
    let distance = |x: f64, y: f64| {
        f64::from_bits(numeric_distance(x.to_bits(), y.to_bits(), 0.3_f64.to_bits()))
    };
    assert_eq!(distance(10.0, 10.0), 0.0);
    assert_eq!(distance(10.0, 11.0), (10.0 - 11.0_f64).abs() / ((10.0 + 11.0) / 0.3));
    assert_eq!(distance(1.0, -1.0), 0.3);
}

#[test]
fn calendar_values_are_measured_within_their_family() {
    let date = |day: u8| Value::Date(Date::new(2024, 1, day).unwrap());
    let delta = |seconds: i64| Value::TimeDelta(TimeDelta::new(0, seconds, 0).unwrap());
    let time = |hour: u8| Value::Time(Time::new(hour, 0, 0, 0, None).unwrap());
    assert!(distance_family(&date(1), &date(2)).is_some());
    assert!(distance_family(&delta(1), &delta(2)).is_some());
    assert!(distance_family(&time(1), &time(2)).is_some());
    assert!(distance_family(&text("a"), &text("b")).is_none());
    assert_eq!(
        f64::from_bits(TimeDelta::new(1, 2, 500_000).unwrap().total_seconds()),
        86402.5
    );
}

#[test]
fn aware_times_are_equal_across_their_offsets() {
    let a = Time::new(12, 0, 0, 0, Some(3600)).unwrap();
    let b = Time::new(11, 0, 0, 0, Some(0)).unwrap();
    let c = Time::new(11, 0, 0, 0, None).unwrap();
    assert!(times_equal(a, b));
    assert!(times_equal(b, a));
    assert!(!times_equal(b, c));
    assert!(times_equal(c, c));
}

#[test]
fn characters_are_escaped_by_their_category() {
    assert!(is_non_printable('\u{200b}'));
    assert!(is_non_printable('\u{e000}'));
    assert!(is_non_printable('\u{a0}'));
    assert!(!is_non_printable(' '));
    assert!(!is_non_printable('a'));
    assert!(!is_non_printable('\u{4e16}'));
    assert_eq!(python_repr(&text("a\u{200b}'")), "\"a\\u200b'\"");
}

#[test]
fn errors_say_what_failed_and_where() {
    let deep = |leaf: i64| dict(vec![("a", dict(vec![("b", whole(leaf))]))]);
    match diff_with_max_depth(&deep(1), &deep(2), 1) {
        Err(error) => assert_eq!(
            error,
            Error::MaxDepthExceeded {
                path: "root['a']['b']".to_string(),
                max_depth: 1
            }
        ),
        Ok(_) => panic!("the limit is exceeded"),
    }
    let early = |hour: u8| {
        Value::DateTime(
            DateTime::new(Date::new(1, 1, 1).unwrap(), hour, 0, 0, 0, Some(3600 * 5)).unwrap(),
        )
    };
    match diff(&early(1), &early(2)) {
        Err(error) => {
            assert_eq!(
                error,
                Error::DateTimeOutOfRange {
                    path: "root".to_string()
                }
            );
            assert!(error.message().contains("root"));
        }
        Ok(_) => panic!("the instant is out of range"),
    }
}

#[test]
fn tokens_are_compared_as_what_stands_for_them() {
    let token = |kind: ObjectKind, identity: &str| object(kind, "Point", identity, vec![]);
    let point = |x: i64| object(ObjectKind::CustomObject, "Point", "", vec![("x", whole(x))]);
    let mut resolver = Resolver::new();
    resolver.add("one".to_string(), Resolution::Shared(Arc::new(point(1))));
    let second = point(2);
    resolver.add("two".to_string(), Resolution::Borrowed(&second));
    assert!(resolver.find("three").is_none());
    let opts = DiffOptions::default();
    let a = token(ObjectKind::Opaque, "one");
    let b = token(ObjectKind::Opaque, "two");
    let found = diff_with_resolver(&a, &b, &opts, &resolver).unwrap();
    assert_eq!(
        shown(&found),
        "{'values_changed': {'root.x': {'new_value': 2, 'old_value': 1}}}"
    );
    let same = diff_with_resolver(&a, &token(ObjectKind::Opaque, "one"), &opts, &resolver).unwrap();
    assert!(same.is_empty());
    let unresolved = diff(&a, &b).unwrap();
    assert_eq!(unresolved.finding_count(), 0);
    let cycle = token(ObjectKind::Cycle, "one");
    assert!(diff(&cycle, &point(9)).unwrap().is_empty());
    let against = diff_with_resolver(&point(9), &cycle, &opts, &resolver).unwrap();
    assert_eq!(
        shown(&against),
        "{'values_changed': {'root.x': {'new_value': 1, 'old_value': 9}}}"
    );
}

/// A token that another value may stand for.
fn opaque(identity: &str) -> Value {
    object(ObjectKind::Opaque, "Lazy", identity, vec![])
}

#[test]
fn scalars_and_lists_stand_for_tokens_too() {
    let mut resolver = Resolver::new();
    resolver.add("number".to_string(), Resolution::Shared(Arc::new(whole(5))));
    let items = list(vec![whole(1), opaque("number")]);
    resolver.add("items".to_string(), Resolution::Borrowed(&items));
    for ignore_order in [false, true] {
        assert!(resolver.is_resolvable(ignore_order, &opaque("items"), &opaque("number")));
        let opts = DiffOptions {
            max_depth: 512,
            ignore_order,
        };
        let found = diff_with_resolver(&opaque("number"), &whole(6), &opts, &resolver).unwrap();
        assert_eq!(
            shown(&found),
            "{'values_changed': {'root': {'new_value': 6, 'old_value': 5}}}"
        );
        let found =
            diff_with_resolver(&list(vec![whole(1), whole(4)]), &opaque("items"), &opts, &resolver)
                .unwrap();
        assert!(!found.is_empty());
        assert!(!shown(&found).contains("type_changes': {'root'"));
    }
    let found = diff_with_resolver(
        &list(vec![whole(1), whole(4)]),
        &opaque("items"),
        &DiffOptions::default(),
        &resolver,
    )
    .unwrap();
    assert_eq!(
        shown(&found),
        "{'values_changed': {'root[1]': {'new_value': 5, 'old_value': 4}}}"
    );
    let shuffled = diff_with_resolver(
        &list(vec![text("x"), text("y")]),
        &opaque("letters"),
        &unordered(),
        &{
            let mut letters = Resolver::new();
            let value = list(vec![text("y"), text("x")]);
            letters.add("letters".to_string(), Resolution::Shared(Arc::new(value)));
            letters
        },
    )
    .unwrap();
    assert!(shuffled.is_empty());
}

#[test]
fn tokens_stand_for_tokens_as_long_as_the_chain_ends() {
    let mut resolver = Resolver::new();
    resolver.add("a".to_string(), Resolution::Shared(Arc::new(opaque("b"))));
    resolver.add("b".to_string(), Resolution::Shared(Arc::new(opaque("c"))));
    resolver.add("c".to_string(), Resolution::Shared(Arc::new(whole(3))));
    for ignore_order in [false, true] {
        assert!(resolver.is_resolvable(ignore_order, &opaque("a"), &opaque("b")));
        let opts = DiffOptions {
            max_depth: 512,
            ignore_order,
        };
        assert!(diff_with_resolver(&opaque("a"), &whole(3), &opts, &resolver).unwrap().is_empty());
        assert!(diff_with_resolver(&whole(3), &opaque("a"), &opts, &resolver).unwrap().is_empty());
        assert_eq!(
            diff_with_resolver(&whole(4), &opaque("a"), &opts, &resolver)
                .unwrap()
                .finding_count(),
            1
        );
    }
    let mut circle = Resolver::new();
    circle.add("a".to_string(), Resolution::Shared(Arc::new(opaque("b"))));
    circle.add("b".to_string(), Resolution::Shared(Arc::new(opaque("a"))));
    let mut inside = Resolver::new();
    let value = list(vec![whole(1), list(vec![opaque("a")])]);
    inside.add("a".to_string(), Resolution::Shared(Arc::new(value)));
    let mut below = Resolver::new();
    let value = list(vec![dict(vec![("k", opaque("a"))])]);
    below.add("a".to_string(), Resolution::Shared(Arc::new(value)));
    let other = dict(vec![("x", list(vec![opaque("a")]))]);
    for ignore_order in [false, true] {
        assert!(!circle.is_resolvable(ignore_order, &opaque("a"), &whole(1)));
        assert!(!circle.is_resolvable(ignore_order, &whole(1), &other));
        assert!(circle.is_resolvable(ignore_order, &opaque("c"), &whole(1)));
        assert!(below.is_resolvable(ignore_order, &opaque("a"), &other));
    }
    assert!(inside.is_resolvable(false, &opaque("a"), &opaque("a")));
    assert!(!inside.is_resolvable(true, &opaque("a"), &opaque("a")));
}

#[test]
fn a_list_that_leads_back_to_its_token_is_compared_as_far_as_the_other_goes() {
    let mut resolver = Resolver::new();
    let value = list(vec![whole(1), list(vec![opaque("a")])]);
    resolver.add("a".to_string(), Resolution::Shared(Arc::new(value)));
    let other = list(vec![whole(1), list(vec![whole(2)])]);
    let opts = unordered();
    assert!(resolver.is_resolvable(true, &opaque("a"), &other));
    assert!(resolver.is_resolvable(true, &other, &opaque("a")));
    let found = diff_with_resolver(&opaque("a"), &other, &opts, &resolver).unwrap();
    assert_eq!(
        shown(&found),
        "{'values_changed': {'root[1][0]': {'new_value': 2, 'old_value': {}}}}"
    );
    let found = diff_with_resolver(&other, &opaque("a"), &opts, &resolver).unwrap();
    assert_eq!(
        shown(&found),
        "{'values_changed': {'root[1][0]': {'new_value': {}, 'old_value': 2}}}"
    );
}

#[test]
fn a_token_is_resolved_whatever_becomes_of_others() {
    let mut resolver = Resolver::new();
    resolver.add("loop".to_string(), Resolution::Shared(Arc::new(opaque("loop"))));
    resolver.add("five".to_string(), Resolution::Shared(Arc::new(whole(5))));
    let a = dict(vec![("k", opaque("five"))]);
    let b = dict(vec![("k", whole(6))]);
    for ignore_order in [false, true] {
        let opts = DiffOptions {
            max_depth: 512,
            ignore_order,
        };
        assert!(resolver.is_resolvable(ignore_order, &a, &b));
        let found = diff_with_resolver(&a, &b, &opts, &resolver).unwrap();
        assert_eq!(
            shown(&found),
            "{'values_changed': {\"root['k']\": {'new_value': 6, 'old_value': 5}}}"
        );
        let mut memo = IgnoreOrderMemo::with_resolver(&resolver);
        let mut path = Vec::new();
        let pair = dict(vec![("p", opaque("loop")), ("q", opaque("five"))]);
        let other = dict(vec![("p", whole(1)), ("q", whole(5))]);
        let found = diff_at(&mut path, &pair, &other, 0, &opts, &mut memo).unwrap();
        assert_eq!(found.finding_count(), 1);
        assert!(shown(&found).starts_with("{'type_changes': {\"root['p']\": "));
    }
}

#[test]
fn tokens_below_tokens_are_compared_as_what_stands_for_them() {
    let mut resolver = Resolver::new();
    let outer = dict(vec![("k", list(vec![whole(1), opaque("inner")]))]);
    resolver.add("outer".to_string(), Resolution::Borrowed(&outer));
    resolver.add(
        "inner".to_string(),
        Resolution::Shared(Arc::new(dict(vec![("x", opaque("number"))]))),
    );
    resolver.add("number".to_string(), Resolution::Shared(Arc::new(whole(7))));
    let plain = |x: i64| {
        list(vec![dict(vec![("k", list(vec![whole(1), dict(vec![("x", whole(x))])]))])])
    };
    let a = list(vec![opaque("outer")]);
    assert!(resolver.is_resolvable(false, &a, &plain(8)));
    let opts = DiffOptions::default();
    assert!(diff_with_resolver(&a, &plain(7), &opts, &resolver).unwrap().is_empty());
    let found = diff_with_resolver(&a, &plain(8), &opts, &resolver).unwrap();
    assert_eq!(
        shown(&found),
        "{'values_changed': {\"root[0]['k'][1]['x']\": {'new_value': 8, 'old_value': 7}}}"
    );
}

#[test]
fn values_without_tokens_are_compared_alike_under_every_resolver() {
    let mut circle = Resolver::new();
    circle.add("a".to_string(), Resolution::Shared(Arc::new(opaque("a"))));
    let a = list(vec![whole(1), dict(vec![("k", whole(2))])]);
    let b = list(vec![dict(vec![("k", whole(3))]), whole(1)]);
    for ignore_order in [false, true] {
        let opts = DiffOptions {
            max_depth: 512,
            ignore_order,
        };
        assert_eq!(
            shown(&diff_with_resolver(&a, &b, &opts, &circle).unwrap()),
            shown(&diff_with_options(&a, &b, &opts).unwrap())
        );
    }
}

#[test]
fn cycle_tokens_that_point_back_at_a_list_stand_for_it_against_lists() {
    let cycle = || object(ObjectKind::Cycle, "list", "l", vec![]);
    let own = list(vec![whole(1), cycle()]);
    let mut resolver = Resolver::new();
    resolver.add("l".to_string(), Resolution::Borrowed(&own));
    for ignore_order in [false, true] {
        assert!(resolver.is_resolvable(ignore_order, &own, &cycle()));
        let opts = DiffOptions {
            max_depth: 512,
            ignore_order,
        };
        let found =
            diff_with_resolver(&list(vec![whole(1)]), &cycle(), &opts, &resolver).unwrap();
        assert!(shown(&found).contains("iterable_item_added"));
        let found = diff_with_resolver(&whole(1), &cycle(), &opts, &resolver).unwrap();
        assert!(shown(&found).contains("type_changes"));
        assert!(diff_with_resolver(&cycle(), &whole(1), &opts, &resolver).unwrap().is_empty());
    }
}

#[test]
fn objects_that_failed_are_always_reported() {
    let failed = || object(ObjectKind::Failed, "Broken", "", vec![("e", whole(1))]);
    let report = diff(&list(vec![failed(), whole(1)]), &list(vec![failed(), whole(2)])).unwrap();
    assert_eq!(report.finding_count(), 2);
    assert!(diff(&failed(), &failed()).unwrap().is_empty());
}

#[test]
fn attributes_are_reported_apart_from_entries() {
    let thing = |names: Vec<(&str, Value)>| object(ObjectKind::CustomObject, "Thing", "", names);
    let a = thing(vec![("a", whole(1)), ("b", whole(2)), ("c", whole(3))]);
    let b = thing(vec![("a", whole(1)), ("b", whole(5)), ("d", whole(4))]);
    assert_eq!(
        shown(&diff(&a, &b).unwrap()),
        "{'attribute_added': {'root.d': 4}, 'attribute_removed': {'root.c': 3}, \
         'values_changed': {'root.b': {'new_value': 5, 'old_value': 2}}}"
    );
    let other = object(ObjectKind::CustomObject, "Other", "", vec![("a", whole(1))]);
    assert_eq!(
        shown(&diff(&a, &other).unwrap())
            .matches("type_changes")
            .count(),
        1
    );
}

#[test]
fn dicts_with_few_keys_in_common_are_reported_whole() {
    let a = dict(vec![("a", whole(1)), ("b", whole(2)), ("c", whole(3)), ("d", whole(4))]);
    let b = dict(vec![("a", whole(1)), ("x", whole(2)), ("y", whole(3)), ("z", whole(4))]);
    let report = diff(&a, &b).unwrap();
    assert_eq!(report.finding_count(), 1);
    assert!(shown(&report).starts_with("{'values_changed': {'root': "));
}

#[test]
fn paths_are_rendered_step_by_step() {
    let path = [
        PathSegment::Key("it's".to_string()),
        PathSegment::Index(4),
        PathSegment::Attribute("x".to_string()),
    ];
    assert_eq!(render_path(&path), "root[\"it's\"][4].x");
    assert_eq!(render_path(&[]), "root");
    assert_eq!(python_repr(&float(0.5)), "0.5");
}

#[test]
fn zeros_are_one_item_whatever_their_sign() {
    let a = list(vec![float(0.0), whole(1), list(vec![float(-0.0), text("x")])]);
    let b = list(vec![
        list(vec![text("x"), float(0.0), float(-0.0)]),
        whole(1),
        float(-0.0),
        float(0.0),
    ]);
    assert_eq!(shown(&diff_with_options(&a, &b, &unordered()).unwrap()), "{}");
}

#[test]
fn tuples_and_sets_are_matched_wherever_they_stand() {
    let tuple = |n: i64| Value::Tuple(vec![whole(n), text("t"), Value::Null]);
    let set = |n: i64| Value::MutableSet(SetItems::new(vec![whole(n), text("s")]));
    let a = list(vec![tuple(1), set(2), tuple(3)]);
    let b = list(vec![tuple(3), tuple(1), set(2), tuple(3)]);
    assert_eq!(shown(&diff_with_options(&a, &b, &unordered()).unwrap()), "{}");
    let c = list(vec![tuple(3), tuple(4), set(2)]);
    assert!(!diff_with_options(&a, &c, &unordered()).unwrap().is_empty());
}

#[test]
fn dicts_of_two_classes_differ_in_type() {
    let plain = dict(vec![("a", whole(1))]);
    let ordered = object(ObjectKind::Dict, "OrderedDict", "", vec![("a", whole(1))]);
    let report = diff(&plain, &ordered).unwrap();
    assert_eq!(
        shown(&report),
        "{'type_changes': {'root': {'new_type': 'OrderedDict', 'new_value': {'a': 1}, \
         'old_type': 'dict', 'old_value': {'a': 1}}}}"
    );
    assert!(diff(&ordered, &ordered).unwrap().is_empty());
}

#[test]
fn the_smaller_of_two_reports_on_a_list_is_kept() {
    // By opcodes an item would be removed and another added.
    let a = list(vec![float(1.0), whole(2)]);
    let b = list(vec![whole(2), whole(1)]);
    let report = diff(&a, &b).unwrap();
    assert_eq!(report.finding_count(), 2);
    assert!(shown(&report).contains("'root[0]'"));
    assert!(shown(&report).contains("'root[1]'"));
}

#[test]
fn an_item_goes_with_the_nearest_that_was_removed() {
    let record = |a: i64, b: i64| {
        dict(vec![("id", text("r")), ("a", whole(a)), ("b", whole(b)), ("c", whole(0))])
    };
    let old = vec![record(7, 8), record(1, 2)];
    let new = vec![record(1, 3)];
    let mut remembering = IgnoreOrderMemo::new();
    let lists = ListPair::build(&old, &new, &mut remembering);
    let partners = compute_pairs(&lists, 0, &unordered(), &mut remembering);
    assert_eq!(partners.len(), 1);
    assert_eq!(partners[0].map(|partner| partner.0), Some(1));
    let mut forgetful = IgnoreOrderMemo::disabled();
    let again = ListPair::build(&old, &new, &mut forgetful);
    assert_eq!(compute_pairs(&again, 0, &unordered(), &mut forgetful), partners);
}

#[test]
fn what_is_not_a_number_has_a_key_that_equals_no_other() {
    let nan = || Value::Number(Number::Float(Float { bits: f64::NAN.to_bits() }));
    let key = python_scalar_key(&nan());
    assert!(key.is_some());
    assert_ne!(key, python_scalar_key(&nan()));
    assert_ne!(key, key);
    assert_ne!(key, python_scalar_key(&list(vec![])));
    assert_eq!(python_scalar_key(&float(1.0)), python_scalar_key(&whole(1)));
    assert!(!diff(&list(vec![nan()]), &list(vec![nan()])).unwrap().is_empty());
}

#[test]
fn items_added_and_removed_at_one_path_become_one_change() {
    let at = |i: usize| vec![PathSegment::Key("k".to_string()), PathSegment::Index(i)];
    let mut report = Report::new();
    report.insert_iterable_item_removed(at(0), whole(1));
    report.insert_iterable_item_removed(at(1), whole(2));
    report.insert_iterable_item_added(at(1), text("two"));
    report.insert_iterable_item_added(at(2), whole(3));
    report.insert_dictionary_item_added(vec![PathSegment::Key("n".to_string())], whole(4));
    report.merge_mutual_add_removes();
    let once = report.clone();
    assert_eq!(
        shown(&once),
        "{'dictionary_item_added': {\"root['n']\": 4}, \
         'iterable_item_added': {\"root['k'][2]\": 3}, \
         'iterable_item_removed': {\"root['k'][0]\": 1}, \
         'values_changed': {\"root['k'][1]\": {'new_value': 'two', 'old_value': 2}}}"
    );
    report.merge_mutual_add_removes();
    assert_eq!(report, once);
}

#[test]
fn remembered_distances_change_no_report_of_tuples_sets_and_times() {
    let day = |d: u8| Value::Date(Date::new(2024, 1, d).unwrap());
    let record = |n: i64, d: u8| {
        Value::Tuple(vec![
            whole(n),
            day(d),
            Value::MutableSet(SetItems::new(vec![whole(n), text("s")])),
            list(vec![Value::Tuple(vec![whole(n), float(0.5)]), day(d), whole(7)]),
        ])
    };
    let a = list(vec![record(1, 2), list(vec![record(1, 2), record(3, 4)]), record(5, 6)]);
    let b = list(vec![list(vec![record(3, 5), record(1, 3)]), record(5, 7), record(1, 3)]);
    let opts = unordered();
    let with = diff_with_options_memo(&a, &b, &opts, &mut IgnoreOrderMemo::new()).unwrap();
    let without = diff_with_options_memo(&a, &b, &opts, &mut IgnoreOrderMemo::disabled()).unwrap();
    assert_eq!(shown(&with), shown(&without));
    assert!(!with.is_empty());
    let wide = DiffOptions {
        max_depth: 4000,
        ignore_order: true,
    };
    assert_eq!(shown(&diff_with_options(&a, &b, &wide).unwrap()), shown(&with));
}

#[test]
fn equal_zeros_share_a_distance_that_is_remembered() {
    let side = |zero: f64| list(vec![dict(vec![("v", float(zero))]), whole(1)]);
    let texts = || list(vec![dict(vec![("v", text("0.0"))]), whole(1)]);
    let a = dict(vec![("p", side(0.0)), ("q", side(-0.0))]);
    let b = dict(vec![("p", texts()), ("q", texts())]);
    let opts = unordered();
    let with = diff_with_options_memo(&a, &b, &opts, &mut IgnoreOrderMemo::new()).unwrap();
    let without = diff_with_options_memo(&a, &b, &opts, &mut IgnoreOrderMemo::disabled()).unwrap();
    assert_ne!(shown(&with), shown(&without));
}
