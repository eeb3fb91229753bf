use std::path::{Path, PathBuf};

use knf::format::{
    ensure_trailing_newline, input_format, resolve_output_format, top_level_error, Format, FormatArg, LoadError,
    MixedFormats, SourceName,
};
use knf::value::{Number, Value};

#[test]
fn extension_inference() {
    assert_eq!(Format::from_path(Path::new("a.json")), Some(Format::Json));
    assert_eq!(Format::from_path(Path::new("a.TOML")), Some(Format::Toml));
    assert_eq!(Format::from_path(Path::new("a.yaml")), None);
    assert_eq!(Format::from_path(Path::new("a")), None);
}

#[test]
fn extensions_ignore_ascii_case_only() {
    assert_eq!(Format::from_extension("JsOn"), Some(Format::Json));
    assert_eq!(Format::from_extension("tml"), None);
    assert_eq!(Format::Json.extension(), "json");
    assert_eq!(Format::Toml.to_string(), "toml");
}

#[test]
fn top_level_must_be_an_object() {
    let err = top_level_error(&SourceName::Stdin, &Value::Array(vec![Value::Number(Number::I64(1))])).unwrap();
    assert!(err.contains("found array"), "{err}");
    assert_eq!(err, "<stdin>: expected an object at the top level, found array");
    assert_eq!(top_level_error(&SourceName::Stdin, &Value::Object(vec![])), None);
}

#[test]
fn an_explicit_output_format_wins() {
    assert_eq!(resolve_output_format(Some(Format::Toml), &[Format::Json, Format::Json]), Ok(Format::Toml));
}

#[test]
fn no_inputs_default_to_json_and_one_format_is_kept() {
    assert_eq!(resolve_output_format(None, &[]), Ok(Format::Json));
    assert_eq!(resolve_output_format(None, &[Format::Toml, Format::Toml]), Ok(Format::Toml));
}

#[test]
fn mixed_inputs_demand_a_choice() {
    let err = resolve_output_format(None, &[Format::Toml, Format::Json, Format::Toml]).unwrap_err();
    assert_eq!(err, MixedFormats { formats: vec![Format::Toml, Format::Json] });
    assert_eq!(
        err.to_string(),
        "inputs mix toml and json formats; -f is required to choose the output format\nhelp: pass -f json or -f toml"
    );
}

#[test]
fn stdin_needs_an_explicit_input_format() {
    let err = input_format(Path::new("-"), true, false, None).unwrap_err();
    assert!(matches!(err, LoadError::StdinNeedsFormat));
    assert_eq!(err.to_string(), "`-` reads stdin, which has no extension");
    assert_eq!(err.path(), None);
    assert_eq!(input_format(Path::new("-"), true, false, Some(Format::Toml)).unwrap(), Format::Toml);
}

#[test]
fn a_directory_is_not_a_layer() {
    let err = input_format(Path::new("conf"), false, true, None).unwrap_err();
    assert_eq!(err.to_string(), "`conf` is a directory; knf takes files as layers");
    assert_eq!(err.path(), Some(Path::new("conf")));
}

#[test]
fn an_unknown_extension_is_reported_unless_overridden() {
    let err = input_format(Path::new("x.yaml"), false, false, None).unwrap_err();
    assert_eq!(err.to_string(), "cannot infer a format from `x.yaml`");
    assert_eq!(input_format(Path::new("x.yaml"), false, false, Some(Format::Json)).unwrap(), Format::Json);
    assert_eq!(input_format(Path::new("x.toml"), false, false, None).unwrap(), Format::Toml);
}

#[test]
fn sources_print_as_their_paths() {
    assert_eq!(SourceName::File(PathBuf::from("a/b.toml")).to_string(), "a/b.toml");
    assert_eq!(SourceName::Stdin.to_string(), "<stdin>");
}

#[test]
fn output_always_ends_in_one_newline() {
    assert_eq!(ensure_trailing_newline("a".to_string()), "a\n");
    assert_eq!(ensure_trailing_newline("a\n".to_string()), "a\n");
    assert_eq!(ensure_trailing_newline(String::new()), "\n");
}

#[test]
fn format_flags_name_formats() {
    assert_eq!(FormatArg::Json.to_format(), Format::Json);
    assert_eq!(FormatArg::Toml.to_format(), Format::Toml);
}
