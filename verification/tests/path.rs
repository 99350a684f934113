//! Paths as they are rendered, and Python's own forms of values.

use onix_core::path::{python_repr, quote_key, render_path, set_item_repr, PathSegment};
use onix_core::repr::escape_non_printable;
use onix_core::value::{Builder, Number, SetItems, Value};
use onix_core::{Date, DateTime};

/// The number that a float is.
fn float_number(f: f64) -> Number {
    Number::from_f64(f.to_bits()).unwrap()
}


fn cdate(year: i32, month: u8, day: u8) -> Value {
    Value::Date(Date::new(year, month, day).unwrap())
}

fn cdt_at(
    year: i32,
    month: u8,
    day: u8,
    hour: u8,
    minute: u8,
    second: u8,
    microsecond: u32,
    offset: Option<i32>,
) -> Value {
    let date = Date::new(year, month, day).unwrap();
    Value::DateTime(DateTime::new(date, hour, minute, second, microsecond, offset).unwrap())
}

#[test]
fn empty_path_renders_as_root() {
    assert_eq!(render_path(&[]), "root");
}

#[test]
fn single_key_segment() {
    assert_eq!(
        render_path(&[PathSegment::Key("a".to_string())]),
        "root['a']"
    );
}

#[test]
fn single_index_segment() {
    assert_eq!(render_path(&[PathSegment::Index(0)]), "root[0]");
}

#[test]
fn mixed_nested_segments() {
    let segments = vec![
        PathSegment::Key("a".to_string()),
        PathSegment::Index(3),
        PathSegment::Key("b c".to_string()),
    ];
    assert_eq!(render_path(&segments), "root['a'][3]['b c']");
}

#[test]
fn empty_string_key_renders_empty_quotes() {
    assert_eq!(render_path(&[PathSegment::Key(String::new())]), "root['']");
}

#[test]
fn quote_key_default_uses_single_quotes() {
    assert_eq!(quote_key("a"), "'a'");
}

#[test]
fn quote_key_with_single_quote_uses_double_quotes() {
    assert_eq!(quote_key("it's"), "\"it's\"");
}

#[test]
fn quote_key_with_double_quote_only_uses_single_quotes_unescaped() {
    assert_eq!(quote_key(r#"he said "hi""#), r#"'he said "hi"'"#);
}

#[test]
fn quote_key_with_both_quote_kinds_uses_double_quotes_unescaped() {
    let mut key = String::new();
    key.push_str("it's ");
    key.push('"');
    key.push_str("cool");
    key.push('"');

    let mut expected = String::new();
    expected.push('"');
    expected.push_str(&key);
    expected.push('"');

    assert_eq!(quote_key(&key), expected);
}

#[test]
fn quote_key_does_not_escape_backslashes() {
    assert_eq!(quote_key(r"a\b"), r"'a\b'");
}

#[test]
fn quote_key_keeps_unicode_literal() {
    assert_eq!(quote_key("héllo世界"), "'héllo世界'");
}

#[test]
fn quote_key_empty_string() {
    assert_eq!(quote_key(""), "''");
}

#[test]
fn set_item_segment_renders_its_text_verbatim() {
    assert_eq!(
        render_path(&[
            PathSegment::Key("a".to_string()),
            PathSegment::SetItem("(1, 2)".to_string()),
        ]),
        "root['a'][(1, 2)]"
    );
}

#[test]
fn set_item_str_always_uses_bare_single_quotes() {
    assert_eq!(set_item_repr(&Value::Str("a".into())), "'a'");
    assert_eq!(set_item_repr(&Value::Str("it's".into())), "'it's'");
    assert_eq!(
        set_item_repr(&Value::Str(r#"he said "hi""#.into())),
        r#"'he said "hi"'"#
    );
    assert_eq!(set_item_repr(&Value::Str("a\nb".into())), "'a\nb'");
    assert_ne!(
        set_item_repr(&Value::Str("it's".into())),
        quote_key("it's"),
        "the set-item rule and the dict-key rule genuinely differ"
    );
}

#[test]
fn set_item_scalars_render_as_python_str() {
    assert_eq!(set_item_repr(&Value::Null), "None");
    assert_eq!(set_item_repr(&Value::Bool(true)), "True");
    assert_eq!(set_item_repr(&Value::Bool(false)), "False");
    assert_eq!(set_item_repr(&Value::Number(Number::from_i64(-7))), "-7");
    assert_eq!(
        set_item_repr(&Value::Number(Number::from_u64(u64::MAX))),
        "18446744073709551615"
    );
}

#[test]
fn str_nested_in_a_tuple_item_uses_python_repr() {
    let tuple = Value::Tuple(Vec::from([Value::Str("it's".into())]));
    assert_eq!(set_item_repr(&tuple), r#"("it's",)"#);

    let both = Value::Tuple(Vec::from([Value::Str("it's \"x\"".into())]));
    assert_eq!(set_item_repr(&both), r#"('it\'s "x"',)"#);
}

#[test]
fn python_repr_renders_every_container_kind() {
    let inner = Value::Tuple(Vec::from([Value::Number(Number::from_u64(1))]));
    assert_eq!(python_repr(&inner), "(1,)");
    assert_eq!(
        python_repr(&Value::Tuple(Vec::from([
            Value::Number(Number::from_u64(1)),
            Value::Number(Number::from_u64(2)),
        ]))),
        "(1, 2)"
    );
    assert_eq!(python_repr(&Value::Tuple(Vec::from([]))), "()");
    assert_eq!(
        python_repr(&Value::Array(Vec::from([
            Value::Null,
            Value::Str("a".into()),
        ]))),
        "[None, 'a']"
    );
    assert_eq!(python_repr(&Value::Array(Vec::from([]))), "[]");
}

#[test]
fn python_repr_renders_sets_in_canonical_order() {
    let members = || {
        vec![
            Value::Number(Number::from_u64(2)),
            Value::Number(Number::from_u64(1)),
        ]
    };

    assert_eq!(python_repr(&Value::MutableSet(SetItems::new(members()))), "{1, 2}");
    assert_eq!(python_repr(&Value::MutableSet(SetItems::new(vec![]))), "set()");
    assert_eq!(
        python_repr(&Value::FrozenSet(SetItems::new(members()))),
        "frozenset({1, 2})"
    );
    assert_eq!(
        python_repr(&Value::FrozenSet(SetItems::new(vec![]))),
        "frozenset()"
    );
}

#[test]
fn python_float_repr_breaks_shortest_form_ties_pythons_way() {
    let cases = [
        (160_598_971_591_683.12_f64, "160598971591683.12"),
        (2_113_325_745_016_023.2, "2113325745016023.2"),
        (-20_243_279_817_481.062, "-20243279817481.062"),
        (245_712_874_376_162.12, "245712874376162.12"),
    ];
    for (input, expected) in cases {
        assert_eq!(
            set_item_repr(&Value::Number(float_number(input))),
            expected,
            "for {input:?}"
        );
    }
}

#[test]
fn python_repr_renders_a_dict_with_repr_keys() {
    let mut builder = Builder::new();
    let object = builder.object(vec![
        ("b".to_string(), Value::Number(Number::from_u64(2))),
        ("a".to_string(), Value::Null),
    ]);
    assert_eq!(python_repr(&object), "{'a': None, 'b': 2}");
    assert_eq!(python_repr(&builder.object(vec![])), "{}");
}

#[test]
fn python_repr_nests_containers() {
    let value = Value::Tuple(Vec::from([
        Value::Number(Number::from_u64(1)),
        Value::Tuple(Vec::from([
            Value::Number(Number::from_u64(2)),
            Value::FrozenSet(SetItems::new(vec![Value::Str("x".into())])),
        ])),
    ]));
    assert_eq!(python_repr(&value), "(1, (2, frozenset({'x'})))");
}

#[test]
fn python_repr_of_a_very_deep_nest_does_not_overflow_the_stack() {
    let mut value = Value::Tuple(Vec::from([]));
    for _ in 0..100_000 {
        value = Value::Tuple(Vec::from([value]));
    }

    let rendered = python_repr(&value);

    assert!(rendered.starts_with("((((("));
    assert!(rendered.ends_with(",),),),),)"));
    // Dropping the nest would recurse as deep as it is.
    std::mem::forget(value);
}

#[test]
fn python_repr_str_picks_pythons_quote_and_escapes() {
    let cases = [
        ("a", "'a'"),
        ("it's", "\"it's\""),
        (r#"say "hi""#, r#"'say "hi"'"#),
        (r#"it's "x""#, r#"'it\'s "x"'"#),
        (r"a\b", r"'a\\b'"),
        ("a\tb\nc\rd", r"'a\tb\nc\rd'"),
        ("a\u{0}b", r"'a\x00b'"),
        ("a\u{7f}\u{a0}\u{ad}b", r"'a\x7f\xa0\xadb'"),
        ("héllo世界", "'héllo世界'"),
    ];
    for (input, expected) in cases {
        let item = Value::Tuple(Vec::from([Value::Str(input.into())]));
        assert_eq!(
            python_repr(&item),
            format!("({expected},)"),
            "for {input:?}"
        );
    }
}

#[test]
fn python_repr_str_escapes_non_printable_code_points_above_u0100() {
    let cases = [

        ("a\u{ff}b", "'a\u{ff}b'"),

        ("a\u{200b}b", r"'a\u200bb'"),

        ("a\u{2028}b", r"'a\u2028b'"),

        ("a\u{e000}b", r"'a\ue000b'"),

        ("a\u{378}b", r"'a\u0378b'"),

        ("a\u{ffff}b", r"'a\uffffb'"),

        ("a\u{10000}b", "'a\u{10000}b'"),

        ("a\u{1f600}b", "'a\u{1f600}b'"),

        ("a\u{f0000}b", r"'a\U000f0000b'"),

        ("a\u{10ffff}b", r"'a\U0010ffffb'"),
    ];
    for (input, expected) in cases {
        let item = Value::Tuple(Vec::from([Value::Str(input.into())]));
        assert_eq!(
            python_repr(&item),
            format!("({expected},)"),
            "for {input:?}"
        );
    }
}

#[test]
fn python_repr_str_does_not_escape_plain_space() {
    let item = Value::Tuple(Vec::from([Value::Str("a b".into())]));
    assert_eq!(python_repr(&item), "('a b',)");
}

#[test]
fn escape_non_printable_widths_switch_exactly_at_their_boundaries() {
    let cases = [
        (0xff, "\\xff"),
        (0x100, "\\u0100"),
        (0xffff, "\\uffff"),
        (0x1_0000, "\\U00010000"),
    ];
    for (code_point, expected) in cases {
        let mut out = String::new();
        escape_non_printable(
            &mut out,
            char::from_u32(code_point).expect("valid code point"),
        );
        assert_eq!(out, expected, "for U+{code_point:04X}");
    }
}

#[test]
fn unicode_general_category_stays_pinned_to_16_0_0() {
    assert_eq!(unicode_general_category::UNICODE_VERSION, (16, 0, 0));
}

#[test]
fn calendar_values_render_as_python_repr() {
    let cases = [
        (
            cdt_at(2024, 1, 1, 0, 0, 0, 0, None),
            "datetime.datetime(2024, 1, 1, 0, 0)",
        ),
        (
            cdt_at(2024, 1, 1, 10, 30, 0, 0, None),
            "datetime.datetime(2024, 1, 1, 10, 30)",
        ),
        (
            cdt_at(2024, 1, 1, 10, 30, 5, 0, None),
            "datetime.datetime(2024, 1, 1, 10, 30, 5)",
        ),
        (
            cdt_at(2024, 1, 1, 10, 30, 5, 7, None),
            "datetime.datetime(2024, 1, 1, 10, 30, 5, 7)",
        ),
        (
            cdt_at(2024, 1, 1, 0, 0, 0, 7, None),
            "datetime.datetime(2024, 1, 1, 0, 0, 0, 7)",
        ),
        (
            cdt_at(2024, 1, 1, 0, 0, 0, 0, Some(0)),
            "datetime.datetime(2024, 1, 1, 0, 0, tzinfo=datetime.timezone.utc)",
        ),
        (
            cdt_at(2024, 1, 1, 0, 0, 0, 0, Some(3600)),
            "datetime.datetime(2024, 1, 1, 0, 0, \
             tzinfo=datetime.timezone(datetime.timedelta(seconds=3600)))",
        ),
        (
            cdt_at(2024, 1, 1, 0, 0, 0, 0, Some(-18000)),
            "datetime.datetime(2024, 1, 1, 0, 0, \
             tzinfo=datetime.timezone(datetime.timedelta(days=-1, seconds=68400)))",
        ),
        (cdate(2024, 1, 1), "datetime.date(2024, 1, 1)"),
    ];
    for (value, expected) in cases {
        assert_eq!(
            python_repr(&value),
            expected.replace("\n                 ", "")
        );
    }
}

#[test]
fn python_float_repr_matches_python() {
    let cases = [
        (0.0, "0.0"),
        (-0.0, "-0.0"),
        (1.0, "1.0"),
        (-2.5, "-2.5"),
        (0.1, "0.1"),
        (1.5, "1.5"),
        (100.0, "100.0"),
        (123.456, "123.456"),
        (0.0001, "0.0001"),
        (1e-5, "1e-05"),
        (1.5e-7, "1.5e-07"),
        (1e15, "1000000000000000.0"),
        (1e16, "1e+16"),
        (1.5e16, "1.5e+16"),
        (1e100, "1e+100"),
        (5e-324, "5e-324"),
        (f64::MAX, "1.7976931348623157e+308"),
    ];
    for (input, expected) in cases {
        assert_eq!(
            set_item_repr(&Value::Number(float_number(input))),
            expected,
            "for {input:?}"
        );
    }
}

#[test]
fn quote_key_does_not_escape_control_characters() {
    let mut key = String::new();
    key.push('a');
    key.push('\n');
    key.push('\t');
    key.push('\0');
    key.push('\u{7F}');
    key.push('b');

    let mut expected = String::new();
    expected.push('\'');
    expected.push('a');
    expected.push('\n');
    expected.push('\t');
    expected.push('\0');
    expected.push('\u{7F}');
    expected.push('b');
    expected.push('\'');

    assert_eq!(quote_key(&key), expected);
}
