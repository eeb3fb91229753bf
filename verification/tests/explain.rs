use std::path::PathBuf;

use knf::emit::{IntegerOutOfRange, NonFiniteFloat, NullInToml, TomlError};
use knf::explain::{
    explain_integer, explain_interp, explain_load, explain_merge, explain_non_finite, explain_null, explain_pipeline,
    explain_rules, name_the_rule_flag,
    name_the_set_flag, PipelineError,
};
use knf::format::LoadError;
use knf::interp_error::{Cycle, InterpError, Problem};
use knf::merge::MergeError;
use knf::path::{PathError, Seg};
use knf::rules::{RuleErrors, Rules, Strategy};
use knf::scan::Syntax;
use knf::value::Kind;

fn key(k: &str) -> Vec<Seg> {
    vec![Seg::Key(k.to_string())]
}

#[test]
fn an_index_in_a_rule_path_names_the_flag() {
    let err = PathError::IndexInKeyPath { path: "a[0]".to_string() };
    assert_eq!(
        name_the_rule_flag(&err, "--append"),
        "`a[0]` contains an array index; merge paths take keys only\nhelp: --append takes a key path; a rule cannot name an array element"
    );
    assert_eq!(name_the_rule_flag(&PathError::EmptyPath, "--append"), "empty path");
}

#[test]
fn an_index_in_a_set_path_names_the_flag() {
    let err = PathError::IndexInKeyPath { path: "servers[0].host".to_string() };
    assert_eq!(
        name_the_set_flag(&err),
        "`servers[0].host` contains an array index; merge paths take keys only\n\
         help: --set takes KEY.PATH=VALUE; an index like servers[0] can be read\n      \
         by a ${...} reference but never written — put the value in a file instead"
    );
    assert_eq!(name_the_set_flag(&PathError::MissingEquals), "expected KEY.PATH=VALUE");
}

fn rejected(rules: Vec<(&str, Strategy)>) -> RuleErrors {
    Rules::build(rules.into_iter().map(|(p, s)| (p.split('.').map(str::to_string).collect(), s)).collect()).unwrap_err()
}

#[test]
fn rule_rejections_name_the_flags_for_each_kind_present() {
    let conflict = rejected(vec![("db", Strategy::Append), ("db", Strategy::Replace)]);
    assert_eq!(
        explain_rules(&conflict),
        "conflicting strategies at `db`: `append` and `replace`\nhelp: a path may be named by only one of --append, --replace and --fail"
    );
    let unreachable = rejected(vec![("db", Strategy::Replace), ("db.x", Strategy::Append)]);
    assert_eq!(
        explain_rules(&unreachable),
        "rule at `db.x` can never fire: `db` is `replace`, which does not recurse\n\
         help: --append, --replace and --fail take the whole value at their path, so a rule below one can never fire"
    );
}

#[test]
fn merge_rule_errors_name_their_flag() {
    let locked = MergeError::Locked { path: vec!["port".to_string()] };
    assert_eq!(
        explain_merge(&locked),
        "`port` is locked: a later layer sets it again\nhelp: --fail pins a path to the first layer that sets it; drop the flag or the later value"
    );
    let append = MergeError::AppendKind { path: vec!["t".to_string()], base: Kind::Array, over: Kind::Number };
    assert_eq!(
        explain_merge(&append),
        "cannot append at `t`: array and number are not both arrays\nhelp: --append needs an array on both sides"
    );
    let conflict = MergeError::TypeConflict { path: vec!["a".to_string()], expected: Kind::Object, found: Kind::Number };
    assert_eq!(explain_merge(&conflict), "type conflict at `a`: object would be replaced by number");
}

#[test]
fn interpolation_errors_get_one_help_line_per_kind() {
    let err = InterpError::Problems(vec![
        Problem::Syntax { path: key("b"), error: Syntax::EmptyRef },
        Problem::Unresolved { path: key("a"), reference: "nope".to_string() },
    ]);
    assert_eq!(
        explain_interp(&err),
        "invalid reference\n  --> b: empty reference `${}`\nunresolved reference\n  --> a: `nope`\n\
         help: a reference is `${key.path}` (with `[n]` for array elements) or `${env:NAME}`; write `$$` for a literal `$`\n\
         help: `${key.path}` names a key in the merged document, `${env:NAME}` an environment variable\n\
         help: drop --interpolate to pass `${...}` through untouched"
    );
    let embedded = InterpError::Problems(vec![Problem::NotStringifiable {
        path: key("url"),
        reference: "db".to_string(),
        kind: "object",
    }]);
    assert_eq!(
        explain_interp(&embedded),
        "reference cannot be rendered into a string\n  --> url: `db` is an object\n\
         help: an object or array reference must be the whole string, not embedded in one"
    );
    let cycle = InterpError::Cycle(Cycle::new(vec![key("a"), key("a")]));
    assert_eq!(
        explain_interp(&cycle),
        "reference cycle: `a` -> `a`\nhelp: a reference may not resolve, directly or indirectly, to itself"
    );
}

#[test]
fn load_errors_name_the_input_format_flag() {
    assert_eq!(
        explain_load(&LoadError::StdinNeedsFormat),
        "`-` reads stdin, which has no extension: pass --input-format json or --input-format toml"
    );
    assert_eq!(
        explain_load(&LoadError::UnknownExtension { path: PathBuf::from("x.yaml") }),
        "cannot infer a format from `x.yaml`: pass --input-format json or --input-format toml"
    );
    assert_eq!(
        explain_load(&LoadError::Directory { path: PathBuf::from("conf") }),
        "`conf` is a directory; knf takes files as layers\nhelp: `knf conf/*.toml` merges its files as layers"
    );
}

#[test]
fn a_null_in_toml_names_its_escapes() {
    let report = NullInToml { entries: vec![key("a")] };
    assert_eq!(
        explain_null(&report),
        "cannot serialize null to TOML\n  --> a\nhelp: emit JSON with -f json, substitute with --null-as, or remove the null"
    );
    let via_pipeline = explain_pipeline(&PipelineError::Toml(TomlError::Null(NullInToml { entries: vec![key("a")] })));
    assert_eq!(via_pipeline, explain_null(&report));
}

#[test]
fn the_pipeline_dispatches_by_stage() {
    assert_eq!(
        explain_pipeline(&PipelineError::Load(LoadError::StdinNeedsFormat)),
        explain_load(&LoadError::StdinNeedsFormat)
    );
    let locked = MergeError::Locked { path: vec!["p".to_string()] };
    assert_eq!(explain_pipeline(&PipelineError::Merge(MergeError::Locked { path: vec!["p".to_string()] })), explain_merge(&locked));
}

#[test]
fn an_oversized_integer_names_the_json_escape() {
    let report = IntegerOutOfRange { entries: vec![(key("id"), 10_000_000_000_000_000_001)] };
    assert_eq!(
        explain_integer(&report),
        "cannot serialize integer to TOML\n  --> id: `10000000000000000001`\nhelp: TOML integers are signed 64-bit; emit JSON with -f json"
    );
}

#[test]
fn a_non_finite_float_names_the_toml_escape() {
    let report = NonFiniteFloat { entries: vec![(key("timeout"), f64::INFINITY.to_bits())] };
    assert_eq!(
        explain_non_finite(&report),
        "cannot serialize non-finite number to JSON\n  --> timeout: `inf`\nhelp: emit TOML with -f toml, which can represent inf and nan"
    );
    let via = explain_pipeline(&PipelineError::Json(NonFiniteFloat { entries: vec![(key("timeout"), f64::INFINITY.to_bits())] }));
    assert_eq!(via, explain_non_finite(&report));
}
