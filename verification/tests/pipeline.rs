use knf::explain::PipelineError;
use knf::interp::{EnvValue, ProcessEnv};
use knf::interp_error::InterpError;
use knf::merge::MergeOptions;
use knf::emit::TomlError;
use knf::format::Format;
use knf::pipeline::{merge_layers, prepare_emit};
use knf::value::{is_well_formed, Number, Value};

fn obj(entries: Vec<(&str, Value)>) -> Value {
    Value::Object(entries.into_iter().map(|(k, v)| (k.to_string(), v)).collect())
}

fn s(text: &str) -> Value {
    Value::String(text.to_string())
}

fn n(i: i64) -> Value {
    Value::Number(Number::I64(i))
}

fn env(vars: &[(&str, &str)]) -> ProcessEnv {
    ProcessEnv::new(
        vars.iter()
            .map(|(k, v)| (k.to_string(), EnvValue { raw: v.to_string(), typed: Value::String(v.to_string()) }))
            .collect(),
    )
}

fn spell(bits: u64) -> String {
    format!("{:?}", f64::from_bits(bits))
}

#[test]
fn overlays_fold_after_every_file() {
    let files = vec![obj(vec![("port", n(1)), ("host", s("a"))]), obj(vec![("port", n(2))])];
    let overlays = vec![obj(vec![("port", n(3))])];
    let merged = merge_layers(files, overlays, &MergeOptions::last_wins(), false, &env(&[]), &spell).unwrap();
    assert_eq!(merged, obj(vec![("port", n(3)), ("host", s("a"))]));
}

#[test]
fn references_resolve_once_over_the_merged_document() {
    // The reference sits in the first file; its target is only in the overlay.
    let files = vec![obj(vec![("url", s("http://${host}/"))])];
    let overlays = vec![obj(vec![("host", s("example.org"))])];
    let merged = merge_layers(files, overlays, &MergeOptions::last_wins(), true, &env(&[]), &spell).unwrap();
    assert_eq!(merged, obj(vec![("url", s("http://example.org/")), ("host", s("example.org"))]));
}

#[test]
fn without_interpolation_references_pass_through() {
    let files = vec![obj(vec![("url", s("http://${host}/"))])];
    let merged = merge_layers(files, Vec::new(), &MergeOptions::last_wins(), false, &env(&[]), &spell).unwrap();
    assert_eq!(merged, obj(vec![("url", s("http://${host}/"))]));
}

#[test]
fn strict_mode_checks_kinds_before_substitution() {
    // "${p}" is a string when strict mode looks, so a number over it is a conflict.
    let files = vec![obj(vec![("port", s("${p}")), ("p", n(80))]), obj(vec![("port", n(8080))])];
    let err = merge_layers(files, Vec::new(), &MergeOptions::strict(), true, &env(&[]), &spell).unwrap_err();
    assert!(matches!(err, PipelineError::Merge(_)));
}

#[test]
fn a_reference_that_names_nothing_fails_the_run() {
    let files = vec![obj(vec![("a", s("${missing}"))])];
    let err = merge_layers(files, Vec::new(), &MergeOptions::last_wins(), true, &env(&[]), &spell).unwrap_err();
    assert!(matches!(err, PipelineError::Interp(InterpError::Problems(_))));
}

#[test]
fn a_cycle_fails_the_run() {
    let files = vec![obj(vec![("a", s("${b}")), ("b", s("${a}"))])];
    let err = merge_layers(files, Vec::new(), &MergeOptions::last_wins(), true, &env(&[]), &spell).unwrap_err();
    assert!(matches!(err, PipelineError::Interp(InterpError::Cycle(_))));
}

#[test]
fn repeated_keys_are_caught() {
    assert!(is_well_formed(&obj(vec![("a", n(1)), ("b", obj(vec![("c", n(2))]))])));
    assert!(!is_well_formed(&obj(vec![("a", n(1)), ("a", n(2))])));
    assert!(!is_well_formed(&Value::Array(vec![obj(vec![("x", n(1)), ("x", n(1))])])));
}

#[test]
fn json_output_keeps_nulls_whatever_the_placeholder() {
    let doc = obj(vec![("a", Value::Null), ("b", n(1))]);
    let out = prepare_emit(doc, Format::Json, Some("~")).unwrap();
    assert_eq!(out, obj(vec![("a", Value::Null), ("b", n(1))]));
}

#[test]
fn toml_output_takes_the_placeholder_for_nulls() {
    let doc = obj(vec![("a", Value::Null), ("b", Value::Array(vec![Value::Null, n(2)]))]);
    let out = prepare_emit(doc, Format::Toml, Some("~")).unwrap();
    assert_eq!(out, obj(vec![("a", s("~")), ("b", Value::Array(vec![s("~"), n(2)]))]));
}

#[test]
fn toml_output_without_a_placeholder_refuses_nulls() {
    let doc = obj(vec![("a", Value::Null)]);
    let err = prepare_emit(doc, Format::Toml, None).unwrap_err();
    assert!(matches!(err, PipelineError::Toml(TomlError::Null(_))));
}

#[test]
fn json_output_refuses_an_infinity() {
    let doc = obj(vec![("x", Value::Number(Number::F64(f64::INFINITY.to_bits())))]);
    let err = prepare_emit(doc, Format::Json, Some("~")).unwrap_err();
    match err {
        PipelineError::Json(e) => assert_eq!(e.entries.len(), 1),
        _ => panic!("expected a JSON refusal"),
    }
}

#[test]
fn toml_output_refuses_an_integer_above_i64_max() {
    let doc = obj(vec![("big", Value::Number(Number::U64(u64::MAX)))]);
    let err = prepare_emit(doc, Format::Toml, None).unwrap_err();
    assert!(matches!(err, PipelineError::Toml(TomlError::Integer(_))));
}
