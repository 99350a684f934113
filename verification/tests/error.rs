//! Failures, and the root of the library.

use onix_core::value::{Object as CObject, ObjectKey, Value as CValue};
use onix_core::{exceeds_depth, version, Error, Number};
use serde_json::Value as Json;

/// A JSON object.
fn json_object(entries: Vec<(&str, Json)>) -> Json {
    Json::Object(
        entries
            .into_iter()
            .map(|(key, value)| (key.to_string(), value))
            .collect(),
    )
}

/// The number that a float is.
fn float_number(f: f64) -> Number {
    Number::from_f64(f.to_bits()).unwrap()
}

/// The number that a JSON number is.
fn cnum(n: &serde_json::Number) -> Number {
    if let Some(u) = n.as_u64() {
        Number::from_u64(u)
    } else if let Some(i) = n.as_i64() {
        Number::from_i64(i)
    } else {
        float_number(n.as_f64().unwrap())
    }
}

/// The value that a JSON value is.
fn cv(value: &Json) -> CValue {
    match value {
        Json::Null => CValue::Null,
        Json::Bool(b) => CValue::Bool(*b),
        Json::Number(n) => CValue::Number(cnum(n)),
        Json::String(s) => CValue::Str(s.clone()),
        Json::Array(items) => CValue::Array(cvec(items)),
        Json::Object(map) => CValue::Object(cobj(map)),
    }
}

/// The values that JSON values are.
fn cvec(items: &[Json]) -> Vec<CValue> {
    items.iter().map(cv).collect()
}

/// The dict that a JSON object is.
fn cobj(map: &serde_json::Map<String, Json>) -> CObject {
    CObject::from_pairs(
        map.iter()
            .map(|(key, value)| (ObjectKey::Str(key.clone()), cv(value)))
            .collect(),
    )
}

#[test]
fn max_depth_exceeded_display_includes_path_and_max_depth() {
    let error = Error::MaxDepthExceeded {
        path: "root['a']['b']".to_string(),
        max_depth: 512,
    };
    let message = error.message();
    assert!(message.contains("root['a']['b']"));
    assert!(message.contains("512"));
}

#[test]
fn max_depth_exceeded_is_clonable_and_comparable() {
    let a = Error::MaxDepthExceeded {
        path: "root".to_string(),
        max_depth: 3,
    };
    let b = a.clone();
    assert_eq!(a, b);
}

#[test]
fn version_matches_manifest() {
    assert_eq!(version(), "0.1.0");
}

#[test]
fn exceeds_depth_delegates_to_the_core_depth_check() {
    assert!(exceeds_depth(&cv(&Json::Array(vec![Json::Array(vec![Json::Array(vec![Json::from(1)])])])), 2));
    assert!(!exceeds_depth(&cv(&Json::Array(vec![Json::Array(vec![Json::Array(vec![Json::from(1)])])])), 3));
}
