use knf::emit::{json_check, replace_nulls, toml_check, TomlError};
use knf::path::render_path;
use knf::value::{Number, Value};

fn obj(entries: Vec<(&str, Value)>) -> Value {
    Value::Object(entries.into_iter().map(|(k, v)| (k.to_string(), v)).collect())
}

fn n(v: i64) -> Value {
    Value::Number(Number::I64(v))
}

fn f(v: f64) -> Value {
    Value::Number(Number::F64(v.to_bits()))
}

#[test]
fn to_toml_rejects_nulls_with_array_indices() {
    let value = obj(vec![
        ("a", obj(vec![("b", Value::Null)])),
        ("c", Value::Array(vec![n(1), Value::Null])),
        ("d", n(2)),
    ]);
    let err = toml_check(&value).unwrap_err();
    let TomlError::Null(report) = err else {
        panic!("expected a null report");
    };
    let rendered: Vec<_> = report.entries.iter().map(|p| render_path(p)).collect();
    assert_eq!(rendered, vec!["a.b", "c[1]"]);
    assert_eq!(report.to_string(), "cannot serialize null to TOML\n  --> a.b\n  --> c[1]");
}

#[test]
fn to_toml_reports_every_datetime_that_does_not_reparse() {
    let value = obj(vec![
        ("created", Value::Datetime("nope".to_string())),
        (
            "events",
            Value::Array(vec![
                Value::Datetime("1979-05-27T07:32:00Z".to_string()),
                Value::Datetime("yesterday".to_string()),
            ]),
        ),
    ]);
    let err = toml_check(&value).unwrap_err();
    assert!(matches!(err, TomlError::Datetime(_)));
    assert_eq!(
        err.to_string(),
        "cannot serialize datetime to TOML\n  --> created: `nope`\n  --> events[1]: `yesterday`"
    );
}

#[test]
fn a_null_is_reported_before_a_malformed_datetime() {
    let all_three = vec![
        ("a", Value::Null),
        ("n", Value::Number(Number::U64(u64::MAX))),
        ("d", Value::Datetime("nope".to_string())),
    ];
    let value = obj(all_three);
    assert!(matches!(toml_check(&value).unwrap_err(), TomlError::Null(_)));
    let value = obj(vec![("n", Value::Number(Number::U64(u64::MAX))), ("d", Value::Datetime("nope".to_string()))]);
    assert!(matches!(toml_check(&value).unwrap_err(), TomlError::Integer(_)));
    let value = obj(vec![("d", Value::Datetime("nope".to_string()))]);
    assert!(matches!(toml_check(&value).unwrap_err(), TomlError::Datetime(_)));
}

#[test]
fn to_toml_reports_every_integer_above_i64_max() {
    let value = obj(vec![
        ("id", Value::Number(Number::from_u64(10_000_000_000_000_000_001))),
        ("ok", n(42)),
        ("ids", Value::Array(vec![n(1), Value::Number(Number::from_u64(18_446_744_073_709_551_615))])),
    ]);
    let err = toml_check(&value).unwrap_err();
    assert!(matches!(err, TomlError::Integer(_)));
    assert_eq!(
        err.to_string(),
        "cannot serialize integer to TOML\n  --> id: `10000000000000000001`\n  \
         --> ids[1]: `18446744073709551615`"
    );
}

#[test]
fn a_u64_small_enough_for_an_i64_still_converts() {
    let value = obj(vec![("n", Value::Number(Number::U64(1)))]);
    assert!(toml_check(&value).is_ok());
}

#[test]
fn to_json_reports_every_non_finite_float() {
    let value = obj(vec![
        ("timeout", f(f64::INFINITY)),
        ("ok", f(1.5)),
        ("backoff", Value::Array(vec![f(f64::NEG_INFINITY), f(f64::NAN)])),
    ]);
    let err = json_check(&value).unwrap_err();
    assert_eq!(
        err.to_string(),
        "cannot serialize non-finite number to JSON\n  --> timeout: `inf`\n  \
         --> backoff[0]: `-inf`\n  --> backoff[1]: `nan`"
    );
}

#[test]
fn the_new_reports_end_without_a_newline() {
    let big = obj(vec![("id", Value::Number(Number::from_u64(10_000_000_000_000_000_001)))]);
    assert!(!toml_check(&big).unwrap_err().to_string().ends_with('\n'));
    let inf = obj(vec![("t", f(f64::INFINITY))]);
    assert!(!json_check(&inf).unwrap_err().to_string().ends_with('\n'));
}

#[test]
fn non_finite_floats_are_fine_in_toml() {
    let value = obj(vec![("timeout", f(f64::INFINITY))]);
    assert!(toml_check(&value).is_ok());
}

#[test]
fn replace_nulls_substitutes_everywhere_and_unblocks_toml() {
    let mut v = obj(vec![
        ("a", obj(vec![("b", Value::Null)])),
        ("c", Value::Array(vec![n(1), Value::Null, n(3)])),
        ("d", n(2)),
    ]);
    replace_nulls(&mut v, "none");
    let none = || Value::String("none".to_string());
    assert_eq!(
        v,
        obj(vec![("a", obj(vec![("b", none())])), ("c", Value::Array(vec![n(1), none(), n(3)])), ("d", n(2))])
    );
    toml_check(&v).expect("the substitution left no nulls");
}

#[test]
fn replace_nulls_is_the_identity_without_nulls() {
    let src = obj(vec![("a", n(1)), ("xs", Value::Array(vec![n(1), n(2)])), ("nested", obj(vec![("k", Value::String("v".into()))]))]);
    let mut v = src.clone();
    replace_nulls(&mut v, "none");
    assert_eq!(v, src);
}

#[test]
fn a_valid_datetime_passes_the_toml_check() {
    for text in ["1979-05-27T07:32:00Z", "1979-05-27T00:32:00.999999-07:00", "1979-05-27T07:32:00", "1979-05-27", "07:32:00.5"] {
        assert!(toml_check(&obj(vec![("d", Value::Datetime(text.to_string()))])).is_ok(), "{text}");
    }
}
