use knf::leaf::{ParseError, PathLeaf};
use knf::value::{Number, Value};

fn from_json(v: serde_json::Value) -> Value {
    match v {
        serde_json::Value::Null => Value::Null,
        serde_json::Value::Bool(b) => Value::Bool(b),
        serde_json::Value::Number(n) => Value::Number(if let Some(i) = n.as_i64() {
            Number::I64(i)
        } else if let Some(u) = n.as_u64() {
            Number::from_u64(u)
        } else {
            Number::F64(n.as_f64().expect("a float").to_bits())
        }),
        serde_json::Value::String(s) => Value::String(s),
        serde_json::Value::Array(items) => Value::Array(items.into_iter().map(from_json).collect()),
        serde_json::Value::Object(map) => Value::Object(map.into_iter().map(|(k, v)| (k, from_json(v))).collect()),
    }
}

fn to_json(v: &Value) -> serde_json::Value {
    match v {
        Value::Null => serde_json::Value::Null,
        Value::Bool(b) => serde_json::Value::Bool(*b),
        Value::Number(Number::I64(i)) => serde_json::Value::from(*i),
        Value::Number(Number::U64(u)) => serde_json::Value::from(*u),
        Value::Number(Number::F64(bits)) => serde_json::Value::from(f64::from_bits(*bits)),
        Value::String(s) | Value::Datetime(s) => serde_json::Value::String(s.clone()),
        Value::Array(items) => serde_json::Value::Array(items.iter().map(to_json).collect()),
        Value::Object(entries) => {
            serde_json::Value::Object(entries.iter().map(|(k, v)| (k.clone(), to_json(v))).collect())
        },
    }
}

/// JSON first, a string as the fallback.
fn json_or_string(rhs: &str) -> Value {
    match serde_json::from_str::<serde_json::Value>(rhs) {
        Ok(v) => from_json(v),
        Err(_) => Value::String(rhs.to_string()),
    }
}

fn parse(expr: &str) -> PathLeaf {
    PathLeaf::from_expression(expr, json_or_string).expect("valid PathLeaf")
}

fn nested(expr: &str) -> Value {
    parse(expr).into_value()
}

fn json(text: &str) -> Value {
    from_json(serde_json::from_str(text).expect("valid JSON"))
}

fn display(leaf: &PathLeaf) -> String {
    leaf.to_string_with(|v| serde_json::to_string(&to_json(v)).expect("serializable"))
}

#[test]
fn lib_value_typing() {
    assert_eq!(nested("port=8080"), json(r#"{"port": 8080}"#));
    assert_eq!(nested("debug=true"), json(r#"{"debug": true}"#));
    assert_eq!(nested("name=foo"), json(r#"{"name": "foo"}"#));
    assert_eq!(nested("proxy=null"), json(r#"{"proxy": null}"#));
    assert_eq!(nested(r#"tags=["a","b"]"#), json(r#"{"tags": ["a", "b"]}"#));
    assert_eq!(nested("tags=[a,b]"), json(r#"{"tags": "[a,b]"}"#));
}

#[test]
fn lib_numeric_looking_strings() {
    assert_eq!(nested("version=1.0"), json(r#"{"version": 1.0}"#));
    assert_eq!(nested(r#"version="1.0""#), json(r#"{"version": "1.0"}"#));
}

#[test]
fn lib_dotted_paths_nest() {
    assert_eq!(nested("server.port=8080"), json(r#"{"server": {"port": 8080}}"#));
    assert_eq!(nested("a.b.c=1"), json(r#"{"a": {"b": {"c": 1}}}"#));
}

#[test]
fn lib_splits_on_the_first_equals_only() {
    assert_eq!(nested("q=a=b"), json(r#"{"q": "a=b"}"#));
    assert_eq!(nested("q="), json(r#"{"q": ""}"#));
}

#[test]
fn lib_rejects_malformed_expressions() {
    for (bad, want) in [
        ("noequals", ParseError::MissingEquals),
        ("=1", ParseError::EmptyKey),
        ("a..b=1", ParseError::EmptySegment { key: "a..b".into() }),
        (".a=1", ParseError::EmptySegment { key: ".a".into() }),
        ("a.=1", ParseError::EmptySegment { key: "a.".into() }),
    ] {
        assert_eq!(PathLeaf::from_expression(bad, json_or_string).unwrap_err(), want, "{bad}");
    }
}

#[test]
fn lib_new_rejects_empty_path_and_empty_segments() {
    assert_eq!(PathLeaf::new(vec![], json("1")).unwrap_err(), ParseError::EmptyKey);
    assert_eq!(
        PathLeaf::new(vec!["".into()], json("1")).unwrap_err(),
        ParseError::EmptySegment { key: "".into() }
    );
    assert_eq!(
        PathLeaf::new(vec!["a".into(), "".into()], json("1")).unwrap_err(),
        ParseError::EmptySegment { key: "a.".into() }
    );
}

#[test]
fn lib_display_is_canonical() {
    assert_eq!(display(&parse("name=foo")), r#"name="foo""#);
    assert_eq!(display(&parse("port=8080")), "port=8080");
    assert_eq!(display(&parse("q=")), r#"q="""#);
    assert_eq!(display(&parse("q=a=b")), r#"q="a=b""#);
    assert_eq!(display(&parse("server.port=8080")), "server.port=8080");
}

#[test]
fn lib_fromstr_display_preserves_path_and_leaf() {
    for expr in [
        "port=8080",
        "name=foo",
        r#"name="foo""#,
        "debug=true",
        "proxy=null",
        r#"tags=["a","b"]"#,
        "q=",
        "q=a=b",
        "server.port=8080",
    ] {
        let parsed = parse(expr);
        let round = parse(&display(&parsed));
        assert_eq!(round.path(), parsed.path(), "{expr}");
        assert_eq!(round.leaf(), parsed.leaf(), "{expr}");
    }
}

#[test]
fn parse_errors_read_as_messages() {
    assert_eq!(ParseError::MissingEquals.to_string(), "expected KEY.PATH=VALUE");
    assert_eq!(ParseError::EmptyKey.to_string(), "empty key");
    assert_eq!(ParseError::EmptySegment { key: "a..b".into() }.to_string(), "empty segment in key `a..b`");
}

#[test]
fn brackets_are_part_of_a_plain_key() {
    let leaf = parse("a[0]=1");
    assert_eq!(leaf.path(), ["a[0]".to_string()]);
}
