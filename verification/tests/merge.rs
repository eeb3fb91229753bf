use knf::merge::{merge, merge_all_toml, merge_into, merge_toml, merge_with, toml_kind, MergeError, MergeOptions};
use knf::value::{Number, Value};

/// A JSON literal as a document.
fn ir(text: &str) -> Value {
    from_json(serde_json::from_str(text).expect("valid JSON"))
}

fn from_json(v: serde_json::Value) -> Value {
    match v {
        serde_json::Value::Null => Value::Null,
        serde_json::Value::Bool(b) => Value::Bool(b),
        serde_json::Value::Number(n) => Value::Number(if let Some(i) = n.as_i64() {
            Number::I64(i)
        } else if let Some(u) = n.as_u64() {
            Number::from_u64(u)
        } else {
            Number::F64(n.as_f64().expect("a float").to_bits())
        }),
        serde_json::Value::String(s) => Value::String(s),
        serde_json::Value::Array(items) => Value::Array(items.into_iter().map(from_json).collect()),
        serde_json::Value::Object(map) => Value::Object(map.into_iter().map(|(k, v)| (k, from_json(v))).collect()),
    }
}

enum Expect {
    Doc(&'static str),
    Conflict(&'static str),
}

struct Case {
    name: &'static str,
    layers: &'static [&'static str],
    strict: bool,
    expect: Expect,
}

fn ok(name: &'static str, layers: &'static [&'static str], doc: &'static str) -> Case {
    Case { name, layers, strict: false, expect: Expect::Doc(doc) }
}

fn strict(name: &'static str, layers: &'static [&'static str], doc: &'static str) -> Case {
    Case { name, layers, strict: true, expect: Expect::Doc(doc) }
}

fn conflict(name: &'static str, layers: &'static [&'static str], path: &'static str) -> Case {
    Case { name, layers, strict: true, expect: Expect::Conflict(path) }
}

fn opts(case: &Case) -> MergeOptions {
    if case.strict { MergeOptions::strict() } else { MergeOptions::last_wins() }
}

fn cases() -> Vec<Case> {
    vec![
    // --- §2.1: the semantics table ------------------------------------------
    ok("no layers is an empty object", &[], "{}"),
    ok("one layer is a no-op", &[r#"{"a":1,"b":{"c":[1,2]}}"#], r#"{"a":1,"b":{"c":[1,2]}}"#),
    ok("object + object recurses per key", &[r#"{"a":{"x":1}}"#, r#"{"a":{"y":2}}"#], r#"{"a":{"x":1,"y":2}}"#),
    ok("disjoint keys union", &[r#"{"a":1}"#, r#"{"b":2}"#], r#"{"a":1,"b":2}"#),
    ok("scalar + scalar is last-wins", &[r#"{"a":1}"#, r#"{"a":2}"#], r#"{"a":2}"#),
    ok("scalar shadows an object", &[r#"{"a":{"b":1}}"#, r#"{"a":5}"#], r#"{"a":5}"#),
    ok("object shadows a scalar", &[r#"{"a":5}"#, r#"{"a":{"b":1}}"#], r#"{"a":{"b":1}}"#),

    // Arrays replace wholesale. Lodash-style index-merging would produce
    // ["a","y","z"] here — a value nobody wrote.
    ok("array replaces, never index-merges", &[r#"{"a":["x","y","z"]}"#, r#"{"a":["a"]}"#], r#"{"a":["a"]}"#),
    ok("array replaces with the empty array", &[r#"{"a":[1,2]}"#, r#"{"a":[]}"#], r#"{"a":[]}"#),
    ok("array is not merged element-wise", &[r#"{"a":[{"x":1}]}"#, r#"{"a":[{"y":2}]}"#], r#"{"a":[{"y":2}]}"#),
    ok("array replaces a scalar", &[r#"{"a":1}"#, r#"{"a":[1]}"#], r#"{"a":[1]}"#),

    // Null is a value, not a delete (RFC 7386 merge-patch was rejected).
    ok("null overwrites a scalar", &[r#"{"a":1}"#, r#"{"a":null}"#], r#"{"a":null}"#),
    ok("null overwrites an object", &[r#"{"a":{"b":1}}"#, r#"{"a":null}"#], r#"{"a":null}"#),
    ok("a value overwrites null", &[r#"{"a":null}"#, r#"{"a":1}"#], r#"{"a":1}"#),
    ok("null survives a single layer", &[r#"{"a":null}"#], r#"{"a":null}"#),

    // --- §2.1: merge is not associative -------------------------------------
    // The worked example. merge_with folds strictly left over the flat list, so
    // {a:5} erases {a:{b:1}} and {a:{c:2}} then merges into a fresh object.
    ok("left fold, not right", &[r#"{"a":{"b":1}}"#, r#"{"a":5}"#, r#"{"a":{"c":2}}"#], r#"{"a":{"c":2}}"#),
    // Grouping the last two first would give {"a":{"b":1,"c":2}} — the bug this
    // ordering rule exists to prevent.
    ok("three-layer deep merge", &[r#"{"a":{"b":1}}"#, r#"{"a":{"c":2}}"#, r#"{"a":{"b":9}}"#], r#"{"a":{"b":9,"c":2}}"#),

    // --- nesting depth ------------------------------------------------------
    ok("deep recursion", &[r#"{"a":{"b":{"c":{"d":1}}}}"#, r#"{"a":{"b":{"c":{"e":2}}}}"#], r#"{"a":{"b":{"c":{"d":1,"e":2}}}}"#),
    ok("deep insert into a missing branch", &[r#"{"a":{"b":1}}"#, r#"{"x":{"y":{"z":2}}}"#], r#"{"a":{"b":1},"x":{"y":{"z":2}}}"#),

    // --- §2.2: strict mode --------------------------------------------------
    strict("strict allows new keys", &[r#"{"a":1}"#, r#"{"b":2}"#], r#"{"a":1,"b":2}"#),
    strict("strict allows same-kind replacement", &[r#"{"a":1}"#, r#"{"a":2}"#], r#"{"a":2}"#),
    strict("strict treats int and float as one kind", &[r#"{"a":1}"#, r#"{"a":1.5}"#], r#"{"a":1.5}"#),
    strict("strict allows array replacement", &[r#"{"a":[1]}"#, r#"{"a":["x","y"]}"#], r#"{"a":["x","y"]}"#),
    strict("strict allows null over null", &[r#"{"a":null}"#, r#"{"a":null}"#], r#"{"a":null}"#),
    strict("strict recurses without conflict", &[r#"{"a":{"b":1}}"#, r#"{"a":{"b":2,"c":3}}"#], r#"{"a":{"b":2,"c":3}}"#),

    conflict("scalar shadowing an object", &[r#"{"a":{"b":1}}"#, r#"{"a":5}"#], "a"),
    conflict("object shadowing a scalar", &[r#"{"a":5}"#, r#"{"a":{"b":1}}"#], "a"),
    conflict("array shadowing a scalar", &[r#"{"a":1}"#, r#"{"a":[1]}"#], "a"),
    conflict("null shadowing a value", &[r#"{"a":1}"#, r#"{"a":null}"#], "a"),
    conflict("value shadowing null", &[r#"{"a":null}"#, r#"{"a":1}"#], "a"),
    conflict("string shadowing a number", &[r#"{"a":1}"#, r#"{"a":"1"}"#], "a"),
    conflict("bool shadowing a number", &[r#"{"a":1}"#, r#"{"a":true}"#], "a"),
    conflict("conflict reports a nested path", &[r#"{"a":{"b":{"c":1}}}"#, r#"{"a":{"b":{"c":[]}}}"#], "a.b.c"),
    conflict("conflict from the third layer", &[r#"{"a":1}"#, r#"{"a":2}"#, r#"{"a":"three"}"#], "a"),
    ]
}

#[test]
fn cases_table() {
    for case in cases() {
        let layers: Vec<Value> = case.layers.iter().map(|s| ir(s)).collect();
        let got = merge_with(layers, &opts(&case));
        match (&case.expect, got) {
            (Expect::Doc(want), Ok(got)) => {
                assert_eq!(got, ir(want), "case `{}`", case.name);
            }
            (Expect::Doc(want), Err(e)) => {
                panic!("case `{}`: expected {want}, got error: {}", case.name, e.to_string());
            }
            (Expect::Conflict(want), Err(MergeError::TypeConflict { path, .. })) => {
                assert_eq!(path.join("."), *want, "case `{}`: wrong path", case.name);
            }
            (Expect::Conflict(_), Err(e)) => {
                panic!("case `{}`: unexpected error {}", case.name, e.to_string());
            }
            (Expect::Conflict(want), Ok(got)) => {
                panic!("case `{}`: expected conflict at `{want}`, merged to {got:?}", case.name);
            }
        }
    }
}

#[test]
fn merge_into_matches_merge_with() {
    for case in cases() {
        let Expect::Doc(want) = case.expect else {
            continue;
        };
        let mut acc = Value::Object(Vec::new());
        for layer in case.layers {
            merge_into(&mut acc, ir(layer), &opts(&case)).expect(case.name);
        }
        assert_eq!(acc, ir(want), "case `{}`", case.name);
    }
}

#[test]
fn merge_is_last_wins() {
    for case in cases() {
        if case.strict {
            continue;
        }
        let Expect::Doc(want) = case.expect else {
            continue;
        };
        let got = merge(case.layers.iter().map(|s| ir(s)).collect()).expect(case.name);
        assert_eq!(got, ir(want), "case `{}`", case.name);
    }
}

#[test]
fn root_level_conflict_has_empty_path() {
    let mut base = Value::Object(Vec::new());
    let err = merge_into(&mut base, Value::Bool(true), &MergeOptions::strict()).unwrap_err();
    assert_eq!(err.path(), &[] as &[String]);
    assert!(err.to_string().contains("<root>"), "{}", err.to_string());
}

#[test]
fn cases_conflict_message_names_both_kinds() {
    let err = merge_with(vec![ir(r#"{"a":{"b":1}}"#), ir(r#"{"a":5}"#)], &MergeOptions::strict()).unwrap_err();
    assert_eq!(err.to_string(), "type conflict at `a`: object would be replaced by number");
}

#[test]
fn datetime_conflicts_with_string_under_strict() {
    let mut base = Value::Object(vec![("a".to_string(), Value::Datetime("1979-05-27T07:32:00Z".to_string()))]);
    let err = merge_into(&mut base, ir(r#"{"a":"1979-05-27T07:32:00Z"}"#), &MergeOptions::strict()).unwrap_err();
    match err {
        MergeError::TypeConflict { path, expected, found } => {
            assert_eq!(path, ["a"]);
            assert_eq!(expected.name(), "datetime");
            assert_eq!(found.name(), "string");
        }
        other => panic!("unexpected {}", other.to_string()),
    }
}

#[test]
fn a_failed_merge_leaves_the_accumulator_alone() {
    let mut acc = ir(r#"{"a":{"b":1},"c":2}"#);
    let before = acc.clone();
    merge_into(&mut acc, ir(r#"{"c":3,"a":5}"#), &MergeOptions::strict()).unwrap_err();
    assert_eq!(acc, before);
}

#[test]
fn shallow_replaces_top_level_objects_whole() {
    let got = merge_with(vec![ir(r#"{"db":{"host":"a","port":1}}"#), ir(r#"{"db":{"host":"b"}}"#)], &MergeOptions::shallow())
        .unwrap();
    assert_eq!(got, ir(r#"{"db":{"host":"b"}}"#));
}

#[test]
fn merging_a_document_with_itself_gives_it_back() {
    let doc = ir(r#"{"a":{"b":[1,2],"c":null},"d":"x"}"#);
    let got = merge_with(vec![doc.clone(), doc.clone()], &MergeOptions::last_wins()).unwrap();
    assert_eq!(got, doc);
}

#[test]
fn overriding_twice_is_overriding_once() {
    let a = ir(r#"{"a":{"x":1,"y":2},"b":3}"#);
    let b = ir(r#"{"a":{"y":5},"c":[1]}"#);
    let once = merge_with(vec![a.clone(), b.clone()], &MergeOptions::last_wins()).unwrap();
    let twice = merge_with(vec![a, b.clone(), b], &MergeOptions::last_wins()).unwrap();
    assert_eq!(once, twice);
}

#[test]
fn strict_agrees_with_last_wins_when_it_succeeds() {
    let layers = || vec![ir(r#"{"a":{"x":1}}"#), ir(r#"{"a":{"x":2,"y":"s"}}"#)];
    let lenient = merge_with(layers(), &MergeOptions::last_wins()).unwrap();
    let strict = merge_with(layers(), &MergeOptions::strict()).unwrap();
    assert_eq!(lenient, strict);
}

#[test]
fn toml_merges_use_the_same_walk() {
    let got = merge_all_toml(vec![ir(r#"{"a":{"x":1}}"#), ir(r#"{"a":{"y":2}}"#)], &MergeOptions::last_wins()).unwrap();
    assert_eq!(got, ir(r#"{"a":{"x":1,"y":2}}"#));
    let mut base = ir(r#"{"a":1}"#);
    merge_toml(&mut base, ir(r#"{"a":1.5}"#), &MergeOptions::strict()).expect("int and float are both number");
    assert_eq!(base, ir(r#"{"a":1.5}"#));
    assert_eq!(toml_kind(&Value::Datetime("1979-05-27".into())), "datetime");
}

fn with_rule(path: &str, strategy: knf::rules::Strategy) -> MergeOptions {
    let rules = knf::rules::Rules::build(vec![(path.split('.').map(str::to_string).collect(), strategy)]).unwrap();
    MergeOptions { strict: false, shallow: false, rules }
}

#[test]
fn append_concatenates_arrays_and_does_not_double_a_single_layer() {
    let opts = with_rule("tags", knf::rules::Strategy::Append);
    let got = merge_with(vec![ir(r#"{"tags":[1]}"#), ir(r#"{"tags":[2,3]}"#)], &opts).unwrap();
    assert_eq!(got, ir(r#"{"tags":[1,2,3]}"#));
    let single = merge_with(vec![ir(r#"{"tags":[1]}"#)], &opts).unwrap();
    assert_eq!(single, ir(r#"{"tags":[1]}"#));
}

#[test]
fn append_needs_arrays_on_both_sides() {
    let opts = with_rule("tags", knf::rules::Strategy::Append);
    let err = merge_with(vec![ir(r#"{"tags":[1]}"#), ir(r#"{"tags":5}"#)], &opts).unwrap_err();
    assert_eq!(err.to_string(), "cannot append at `tags`: array and number are not both arrays");
}

#[test]
fn replace_takes_an_object_whole() {
    let opts = with_rule("db", knf::rules::Strategy::Replace);
    let got = merge_with(vec![ir(r#"{"db":{"host":"a","port":1}}"#), ir(r#"{"db":{"host":"b"}}"#)], &opts).unwrap();
    assert_eq!(got, ir(r#"{"db":{"host":"b"}}"#));
}

#[test]
fn fail_locks_a_path_to_the_first_layer_that_sets_it() {
    let opts = with_rule("port", knf::rules::Strategy::Fail);
    let err = merge_with(vec![ir(r#"{"port":1}"#), ir(r#"{"port":2}"#)], &opts).unwrap_err();
    assert_eq!(err, MergeError::Locked { path: vec!["port".to_string()] });
    assert_eq!(err.to_string(), "`port` is locked: a later layer sets it again");
    let fine = merge_with(vec![ir(r#"{"a":1}"#), ir(r#"{"port":2}"#)], &opts).unwrap();
    assert_eq!(fine, ir(r#"{"a":1,"port":2}"#));
}

#[test]
fn a_single_object_layer_is_kept_as_it_is_under_strict() {
    let doc = ir(r#"{"a":{"b":1},"c":[1,2]}"#);
    let merged = merge_with(vec![ir(r#"{"a":{"b":1},"c":[1,2]}"#)], &MergeOptions::strict()).unwrap();
    assert_eq!(merged, doc);
}

#[test]
fn strict_merges_without_a_clash_succeed_and_with_one_fail() {
    assert!(merge_with(vec![ir(r#"{"a":{"b":1}}"#), ir(r#"{"a":{"b":2,"c":"x"}}"#)], &MergeOptions::strict()).is_ok());
    let err = merge_with(vec![ir(r#"{"a":{"b":1}}"#), ir(r#"{"a":{"b":"2"}}"#)], &MergeOptions::strict()).unwrap_err();
    assert!(matches!(err, MergeError::TypeConflict { .. }));
}

#[test]
fn strict_merging_is_associative_on_concrete_tables() {
    let a = || ir(r#"{"db":{"host":"a","port":1},"name":"x"}"#);
    let b = || ir(r#"{"db":{"port":2},"extra":[1]}"#);
    let c = || ir(r#"{"db":{"host":"c"},"name":"y"}"#);
    let left = merge_with(vec![a(), b(), c()], &MergeOptions::strict()).unwrap();
    let bc = merge_with(vec![b(), c()], &MergeOptions::strict()).unwrap();
    let right = merge_with(vec![a(), bc], &MergeOptions::strict()).unwrap();
    assert_eq!(left, right);
}

#[test]
fn no_layers_merge_to_the_empty_object() {
    assert_eq!(merge_with(vec![], &MergeOptions::strict()).unwrap(), Value::Object(vec![]));
}

#[test]
fn the_strict_conflict_names_the_first_clash_in_key_order() {
    let err = merge_with(vec![ir(r#"{"a":{"b":1,"c":"s"}}"#), ir(r#"{"a":{"c":5,"b":"t"}}"#)], &MergeOptions::strict())
        .unwrap_err();
    match err {
        MergeError::TypeConflict { path, .. } => assert_eq!(path, vec!["a".to_string(), "c".to_string()]),
        other => panic!("expected a type conflict, got {other:?}"),
    }
}
