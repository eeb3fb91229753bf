use knf::interp::{interpolate, lookup, EnvValue, ProcessEnv};
use knf::path::Seg;
use knf::interp_error::InterpError;
use knf::value::{Number, Value};

/// An environment of the given variables, typed by a miniature of the
/// caller's rule: booleans, integers, and strings otherwise.
fn stub_env(vars: &[(&str, &str)]) -> ProcessEnv {
    ProcessEnv::new(
        vars.iter()
            .map(|(k, v)| {
                let raw = v.to_string();
                let typed = match raw.as_str() {
                    "true" => Value::Bool(true),
                    "false" => Value::Bool(false),
                    text => match text.parse::<i64>() {
                        Ok(n) => Value::Number(Number::I64(n)),
                        Err(_) => Value::String(raw.clone()),
                    },
                };
                (k.to_string(), EnvValue { raw, typed })
            })
            .collect(),
    )
}

fn spell(bits: u64) -> String {
    format!("{:?}", f64::from_bits(bits))
}

fn obj(entries: Vec<(&str, Value)>) -> Value {
    Value::Object(entries.into_iter().map(|(k, v)| (k.to_string(), v)).collect())
}

fn get<'a>(map: &'a [(String, Value)], key: &str) -> &'a Value {
    &map.iter().find(|(k, _)| k == key).expect("key present").1
}

fn s(text: &str) -> Value {
    Value::String(text.to_string())
}

fn n(v: i64) -> Value {
    Value::Number(Number::I64(v))
}

fn interp(doc: Value) -> Result<Value, InterpError> {
    interpolate(doc, &stub_env(&[]), &spell)
}

fn interp_env(doc: Value, vars: &[(&str, &str)]) -> Result<Value, InterpError> {
    interpolate(doc, &stub_env(vars), &spell)
}

fn err(doc: Value) -> String {
    interp(doc).expect_err("should fail").to_string()
}

fn err_env(doc: Value, vars: &[(&str, &str)]) -> String {
    interp_env(doc, vars).expect_err("should fail").to_string()
}

// --- positions ------------------------------------------------------------

/// The whole-string rule: the reference *is* the value, so it keeps its type.
#[test]
fn a_whole_string_reference_takes_the_referents_type() {
    let doc = obj(vec![("p", n(8080)), ("port", s("${p}"))]);
    assert_eq!(
        interp(doc).unwrap(),
        obj(vec![("p", n(8080)), ("port", n(8080))])
    );
}

#[test]
fn an_embedded_reference_stringifies() {
    let doc = obj(vec![
        ("host", s("db")),
        ("p", n(8080)),
        ("url", s("http://${host}:${p}/health")),
    ]);
    let out = interp(doc).unwrap();
    let Value::Object(map) = &out else {
        panic!("expected an object");
    };
    assert_eq!(get(map, "url"), &s("http://db:8080/health"));
}

/// A float embedded in text must render as the emitters would write it.
#[test]
fn an_embedded_float_keeps_its_point() {
    let doc = obj(vec![
        ("v", Value::Number(Number::F64(1.0f64.to_bits()))),
        ("tag", s("v${v}")),
    ]);
    let out = interp(doc).unwrap();
    let Value::Object(map) = &out else {
        panic!("expected an object");
    };
    assert_eq!(get(map, "tag"), &s("v1.0"));
}

#[test]
fn a_datetime_splices_as_its_source_spelling() {
    let doc = obj(vec![
        ("d", Value::Datetime("1979-05-27T07:32:00Z".into())),
        ("stamp", s("at ${d}")),
        ("copy", s("${d}")),
    ]);
    let out = interp(doc).unwrap();
    let Value::Object(map) = &out else {
        panic!("expected an object");
    };
    assert_eq!(get(map, "stamp"), &s("at 1979-05-27T07:32:00Z"));
    // Whole-string keeps the *type*: a copied datetime, not a string.
    assert_eq!(get(map, "copy"), &Value::Datetime("1979-05-27T07:32:00Z".into()));
}

// --- escapes and non-references -------------------------------------------

#[test]
fn dollar_dollar_escapes_to_one_dollar() {
    let doc = obj(vec![("literal", s("$${NOT_A_REF}"))]);
    assert_eq!(
        interp(doc).unwrap(),
        obj(vec![("literal", s("${NOT_A_REF}"))])
    );
}

#[test]
fn a_bare_dollar_is_left_alone() {
    let doc = obj(vec![("price", s("USD $5")), ("plain", s("no refs here"))]);
    assert_eq!(interp(doc.clone()).unwrap(), doc);
}

/// Keys are never interpolated; values only.
#[test]
fn keys_are_not_interpolated() {
    let doc = obj(vec![("a", s("x")), ("${a}", n(1))]);
    assert_eq!(interp(doc.clone()).unwrap(), doc);
}

// --- transitivity, order, cycles ------------------------------------------

#[test]
fn references_resolve_transitively() {
    let doc = obj(vec![
        ("a", s("${b}")),
        ("b", s("${c}")),
        ("c", s("deep")),
        ("joined", s("<${a}>")),
    ]);
    assert_eq!(
        interp(doc).unwrap(),
        obj(vec![
            ("a", s("deep")),
            ("b", s("deep")),
            ("c", s("deep")),
            ("joined", s("<deep>")),
        ])
    );
}

/// Declaration order must not matter: a forward reference resolves the same as
/// a backward one.
#[test]
fn a_forward_reference_resolves_like_a_backward_one() {
    let forward = interp(obj(vec![("a", s("${b}")), ("b", s("v"))])).unwrap();
    let backward = interp(obj(vec![("b", s("v")), ("a", s("${b}"))])).unwrap();
    assert_eq!(forward, obj(vec![("a", s("v")), ("b", s("v"))]));
    assert_eq!(backward, obj(vec![("b", s("v")), ("a", s("v"))]));
}

#[test]
fn every_key_order_resolves_every_key_alike() {
    let entry = |i: usize| -> (&'static str, Value) {
        match i {
            0 => ("x", s("${y.z}-${w}")),
            1 => ("y", obj(vec![("z", s("${w}")), ("t", s("${x}"))])),
            _ => ("w", n(7)),
        }
    };
    let reference = match interp(obj(vec![entry(0), entry(1), entry(2)])).unwrap() {
        Value::Object(m) => m,
        other => panic!("not an object: {:?}", other),
    };
    assert_eq!(get(&reference, "x"), &s("7-7"));
    assert_eq!(get(&reference, "y"), &obj(vec![("z", n(7)), ("t", s("7-7"))]));
    for order in [[0, 1, 2], [0, 2, 1], [1, 0, 2], [1, 2, 0], [2, 0, 1], [2, 1, 0]] {
        let doc = obj(order.iter().map(|&i| entry(i)).collect());
        let keys: Vec<String> = order.iter().map(|&i| entry(i).0.to_string()).collect();
        match interp(doc).unwrap() {
            Value::Object(m) => {
                let got: Vec<String> = m.iter().map(|(k, _)| k.clone()).collect();
                assert_eq!(got, keys);
                for key in ["x", "y", "w"] {
                    assert_eq!(get(&m, key), get(&reference, key));
                }
            }
            other => panic!("not an object: {:?}", other),
        }
    }
}

#[test]
fn a_direct_cycle_is_reported_as_a_chain() {
    let doc = obj(vec![("a", s("${b}")), ("b", s("${a}"))]);
    assert_eq!(err(doc), "reference cycle: `a` -> `b` -> `a`");
}

#[test]
fn a_self_reference_is_a_cycle() {
    assert_eq!(
        err(obj(vec![("a", s("${a}"))])),
        "reference cycle: `a` -> `a`"
    );
}

/// A reference back into the container currently being resolved closes a cycle
/// through the container, and the chain says so.
#[test]
fn a_cycle_through_a_container_names_every_hop() {
    let doc = obj(vec![("a", obj(vec![("b", s("${a}"))]))]);
    assert_eq!(err(doc), "reference cycle: `a` -> `a.b` -> `a`");
}

// --- containers -----------------------------------------------------------

/// Whole-string: allowed, and the alias is the *resolved* subtree.
#[test]
fn a_whole_string_container_reference_aliases_a_resolved_subtree() {
    let doc = obj(vec![
        ("host", s("db.internal")),
        (
            "primary",
            obj(vec![("host", s("${host}")), ("port", n(5432))]),
        ),
        ("replica", s("${primary}")),
    ]);
    let out = interp(doc).unwrap();
    let Value::Object(map) = &out else {
        panic!("expected an object");
    };
    let expected = obj(vec![("host", s("db.internal")), ("port", n(5432))]);
    assert_eq!(get(map, "primary"), &expected);
    assert_eq!(get(map, "replica"), &expected);
}

#[test]
fn an_embedded_container_reference_is_rejected() {
    let doc = obj(vec![
        ("db", obj(vec![("host", s("x"))])),
        ("xs", Value::Array(vec![n(1)])),
        ("url", s("http://${db}/")),
        ("tag", s("<${xs}>")),
    ]);
    assert_eq!(
        err(doc),
        "reference cannot be rendered into a string\n\
         \x20 --> url: `db` is an object\n\
         \x20 --> tag: `xs` is an array"
    );
}

#[test]
fn an_embedded_null_reference_is_rejected() {
    let doc = obj(vec![("n", Value::Null), ("t", s("[${n}]"))]);
    assert_eq!(
        err(doc),
        "reference cannot be rendered into a string\n  --> t: `n` is a null"
    );
}

/// A null referent is fine as a whole string — it becomes an ordinary null, and
/// meets the existing TOML-null error (and its existing escape) at emit.
#[test]
fn a_whole_string_null_reference_is_an_ordinary_null() {
    let doc = obj(vec![("n", Value::Null), ("copy", s("${n}"))]);
    assert_eq!(
        interp(doc).unwrap(),
        obj(vec![("n", Value::Null), ("copy", Value::Null)])
    );
}

// --- environment ----------------------------------------------------------

#[test]
fn env_is_typed_whole_string_and_raw_embedded() {
    let doc = obj(vec![
        ("port", s("${env:PORT}")),
        ("url", s("http://localhost:${env:PORT}/health")),
    ]);
    assert_eq!(
        interp_env(doc, &[("PORT", "8080")]).unwrap(),
        obj(vec![
            ("port", n(8080)),
            ("url", s("http://localhost:8080/health")),
        ])
    );
}

/// The raw form is spliced verbatim: parsing it and printing it back is the one
/// thing guaranteed to be able to corrupt it.
#[test]
fn an_embedded_variable_splices_its_raw_text() {
    let doc = obj(vec![("v", s("[${env:V}]"))]);
    assert_eq!(
        interp_env(doc, &[("V", "1.500")]).unwrap(),
        obj(vec![("v", s("[1.500]"))])
    );
}

/// Environment values are terminal — a variable holding `${x}` is text, not a
/// second round of resolution.
#[test]
fn environment_values_are_not_rescanned() {
    let doc = obj(vec![("x", s("secret")), ("v", s("${env:V}"))]);
    assert_eq!(
        interp_env(doc, &[("V", "${x}")]).unwrap(),
        obj(vec![("x", s("secret")), ("v", s("${x}"))])
    );
}

#[test]
fn an_unset_variable_is_unresolved() {
    let doc = obj(vec![("port", s("${env:PORT}")), ("url", s("x${env:HOST}"))]);
    assert_eq!(
        err(doc),
        "unresolved reference\n\
         \x20 --> port: `env:PORT`\n\
         \x20 --> url: `env:HOST`"
    );
}

/// `env:` is a prefix match, not a split on the first `:`, so a key containing a
/// colon is an ordinary key.
#[test]
fn a_colon_in_a_key_is_not_a_namespace() {
    let doc = obj(vec![("a:b", n(1)), ("v", s("${a:b}"))]);
    assert_eq!(interp(doc).unwrap(), obj(vec![("a:b", n(1)), ("v", n(1))]));
}

/// The same rule keeps a dotted path with a colon in it from reading as a
/// namespace nobody named.
#[test]
fn a_dotted_path_with_a_colon_reports_as_a_key() {
    let doc = obj(vec![("v", s("${db.host:port}"))]);
    assert_eq!(err(doc), "unresolved reference\n  --> v: `db.host:port`");
}

// --- problems -------------------------------------------------------------

#[test]
fn missing_keys_are_collected_with_their_paths() {
    let doc = obj(vec![
        ("server", obj(vec![("url", s("${db.hostname}"))])),
        ("tags", Value::Array(vec![s("${env:REGION}")])),
    ]);
    assert_eq!(
        err(doc),
        "unresolved reference\n\
         \x20 --> server.url: `db.hostname`\n\
         \x20 --> tags[0]: `env:REGION`"
    );
}

#[test]
fn syntax_problems_are_collected() {
    let doc = obj(vec![
        ("a", s("${b")),
        ("b", s("${}")),
        ("c", s("${env:}")),
        ("d", s("${x..y}")),
        ("e", s("${p${q}}")),
    ]);
    assert_eq!(
        err(doc),
        "invalid reference\n\
         \x20 --> a: unterminated `${` at offset 0\n\
         \x20 --> b: empty reference `${}`\n\
         \x20 --> c: empty variable name in `${env:}`\n\
         \x20 --> d: empty segment in reference `${x..y}`\n\
         \x20 --> e: nested `${` in `${p${q}`"
    );
}

/// Every kind in one run, so a user fixing a config learns everything at once.
#[test]
fn every_kind_of_problem_is_reported_in_one_run() {
    let doc = obj(vec![
        ("db", obj(vec![("host", s("x"))])),
        ("bad", s("${}")),
        ("gone", s("${nope}")),
        ("url", s("http://${db}/")),
    ]);
    assert_eq!(
        err(doc),
        "invalid reference\n\
         \x20 --> bad: empty reference `${}`\n\
         unresolved reference\n\
         \x20 --> gone: `nope`\n\
         reference cannot be rendered into a string\n\
         \x20 --> url: `db` is an object"
    );
}

/// Several references to one broken key report once per *site*, not once per
/// visit: memoization is what keeps a widely-referenced value from flooding the
/// report.
#[test]
fn a_problem_is_reported_once_per_site() {
    let doc = obj(vec![
        ("a", s("${gone}")),
        ("b", s("${a}")),
        ("c", s("${a}")),
    ]);
    assert_eq!(err(doc), "unresolved reference\n  --> a: `gone`");
}

/// `${env:}` is malformed, not a lookup of the empty name — so an environment
/// that somehow holds one cannot make it resolve.
#[test]
fn an_empty_variable_name_is_syntax_not_a_lookup() {
    assert_eq!(
        err_env(obj(vec![("a", s("${env:}"))]), &[("", "x")]),
        "invalid reference\n  --> a: empty variable name in `${env:}`"
    );
}

// --- shape ----------------------------------------------------------------

/// References may live inside arrays even though they can never point into one.
#[test]
fn references_resolve_inside_arrays() {
    let doc = obj(vec![
        ("region", s("eu")),
        ("tags", Value::Array(vec![s("${region}"), s("a-${region}")])),
    ]);
    assert_eq!(
        interp(doc).unwrap(),
        obj(vec![
            ("region", s("eu")),
            ("tags", Value::Array(vec![s("eu"), s("a-eu")])),
        ])
    );
}

#[test]
fn key_order_survives_a_pass() {
    let doc = obj(vec![
        ("zebra", n(1)),
        ("apple", n(2)),
        ("middle", s("${zebra}")),
    ]);
    let Value::Object(map) = interp(doc).unwrap() else {
        panic!("expected an object");
    };
    assert_eq!(map.iter().map(|(k, _)| k.as_str()).collect::<Vec<_>>(), ["zebra", "apple", "middle"]);
}


#[test]
fn the_process_environment_looks_up_what_it_was_given() {
    let env = ProcessEnv::new(vec![(
        "PORT".to_string(),
        EnvValue { raw: "8080".to_string(), typed: n(8080) },
    )]);
    let doc = obj(vec![("port", s("${env:PORT}")), ("url", s("h:${env:PORT}"))]);
    assert_eq!(
        interpolate(doc, &env, &spell).unwrap(),
        obj(vec![("port", n(8080)), ("url", s("h:8080"))])
    );
    assert!(env.get("HOME").is_none());
}

fn lookup_doc() -> Value {
    obj(vec![("db", obj(vec![("host", s("h"))])), ("tags", Value::Array(vec![n(1)]))])
}

#[test]
fn lookup_walks_objects_and_arrays() {
    let doc = lookup_doc();
    assert_eq!(lookup(&doc, &[]), Some(&doc));
    assert_eq!(lookup(&doc, &[Seg::Key("db".into()), Seg::Key("host".into())]), Some(&s("h")));
    assert_eq!(lookup(&doc, &[Seg::Key("tags".into()), Seg::Index(0)]), Some(&n(1)));
}

#[test]
fn lookup_misses_are_none() {
    let doc = lookup_doc();
    assert_eq!(lookup(&doc, &[Seg::Key("nope".into())]), None);
    assert_eq!(lookup(&doc, &[Seg::Key("db".into()), Seg::Index(0)]), None);
    assert_eq!(lookup(&doc, &[Seg::Key("tags".into()), Seg::Index(9)]), None);
}

fn f(v: f64) -> Value {
    Value::Number(Number::F64(v.to_bits()))
}

#[test]
fn scalars_render() {
    assert_eq!(knf::interp::stringify(&Value::Bool(true), &spell).unwrap(), "true");
    assert_eq!(knf::interp::stringify(&Value::Bool(false), &spell).unwrap(), "false");
    assert_eq!(knf::interp::stringify(&s("hi"), &spell).unwrap(), "hi");
    assert_eq!(knf::interp::stringify(&Value::Datetime("1979-05-27T07:32:00Z".into()), &spell).unwrap(), "1979-05-27T07:32:00Z");
}

#[test]
fn integral_floats_keep_their_point() {
    assert_eq!(knf::interp::stringify(&f(1.0), &spell).unwrap(), "1.0");
    assert_eq!(knf::interp::stringify(&f(-0.0), &spell).unwrap(), "-0.0");
    assert_eq!(knf::interp::stringify(&f(1.5), &spell).unwrap(), "1.5");
    assert_eq!(knf::interp::stringify(&n(1), &spell).unwrap(), "1");
    assert_eq!(knf::interp::stringify(&n(-42), &spell).unwrap(), "-42");
    assert_eq!(knf::interp::stringify(&Value::Number(Number::U64(u64::MAX)), &spell).unwrap(), "18446744073709551615");
}

#[test]
fn non_finite_floats_take_their_toml_spellings() {
    assert_eq!(knf::interp::stringify(&f(f64::INFINITY), &spell).unwrap(), "inf");
    assert_eq!(knf::interp::stringify(&f(f64::NEG_INFINITY), &spell).unwrap(), "-inf");
    assert_eq!(knf::interp::stringify(&f(f64::NAN), &spell).unwrap(), "nan");
    assert_eq!(knf::interp::stringify(&f(-f64::NAN), &spell).unwrap(), "nan");
}

#[test]
fn containers_and_null_have_no_spelling() {
    assert_eq!(knf::interp::stringify(&Value::Null, &spell), None);
    assert_eq!(knf::interp::stringify(&Value::Array(vec![]), &spell), None);
    assert_eq!(knf::interp::stringify(&Value::Object(vec![]), &spell), None);
}

#[test]
fn a_document_without_a_dollar_comes_back_unchanged() {
    let doc = obj(vec![("a", obj(vec![("b", s("plain"))])), ("xs", Value::Array(vec![n(1), Value::Null]))]);
    assert_eq!(interp(doc.clone()).unwrap(), doc);
}

#[test]
fn a_reference_to_a_reference_reads_the_resolved_value() {
    let doc = obj(vec![("a", s("${b}")), ("b", s("x-${c}")), ("c", n(3)), ("d", s("[${a}]"))]);
    assert_eq!(
        interp(doc).unwrap(),
        obj(vec![("a", s("x-3")), ("b", s("x-3")), ("c", n(3)), ("d", s("[x-3]"))])
    );
}

#[test]
fn a_document_that_is_one_string_is_resolved_too() {
    assert_eq!(interp_env(s("${env:HOME}"), &[("HOME", "/home/k")]).unwrap(), s("/home/k"));
    assert_eq!(interp(s("USD $5")).unwrap(), s("USD $5"));
    assert_eq!(interp(s("a $$ b")).unwrap(), s("a $ b"));
}

#[test]
fn a_document_that_is_one_string_reports_its_problems() {
    assert!(matches!(interp(s("${nope}")), Err(InterpError::Problems(_))));
    assert!(matches!(interp(s("${env:}")), Err(InterpError::Problems(_))));
}
