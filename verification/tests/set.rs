use knf::path::{PathError, Seg};
use knf::set::{typed_or_string, PathLeaf};
use knf::value::{Number, Value};

fn key(k: &str) -> Seg {
    Seg::Key(k.to_string())
}

fn obj(entries: Vec<(&str, Value)>) -> Value {
    Value::Object(entries.into_iter().map(|(k, v)| (k.to_string(), v)).collect())
}

#[test]
fn set_rejects_malformed_expressions() {
    for (bad, want) in [
        ("noequals", PathError::MissingEquals),
        ("=1", PathError::EmptyPath),
        ("a..b=1", PathError::EmptySegment { path: "a..b".into() }),
        (".a=1", PathError::EmptySegment { path: ".a".into() }),
        ("a.=1", PathError::EmptySegment { path: "a.".into() }),
        ("a[]=1", PathError::BadIndex { path: "a[]".into() }),
    ] {
        assert_eq!(bad.parse::<PathLeaf<String>>().unwrap_err(), want, "{bad}");
    }
}

#[test]
fn new_rejects_empty_path_and_empty_segments() {
    assert_eq!(PathLeaf::<String>::new(vec![], "1".into()).unwrap_err(), PathError::EmptyPath);
    assert_eq!(
        PathLeaf::<String>::new(vec!["".into()], "1".into()).unwrap_err(),
        PathError::EmptySegment { path: "".into() }
    );
    assert_eq!(
        PathLeaf::<String>::new(vec!["a".into(), "".into()], "1".into()).unwrap_err(),
        PathError::EmptySegment { path: "a.".into() }
    );
}

#[test]
fn raw_fromstr_keeps_the_rhs_unparsed() {
    let path_leaf: PathLeaf<String> = "port=8080".parse().unwrap();
    assert_eq!(path_leaf.path(), [key("port")]);
    assert_eq!(path_leaf.leaf(), "8080");
    assert_eq!(path_leaf.to_string(), "port=8080");
}

#[test]
fn path_leaf_accepts_brackets_its_writers_reject() {
    let parsed: PathLeaf<String> = "a[0]=1".parse().unwrap();
    assert_eq!(parsed.path(), [key("a"), Seg::Index(0)]);
    assert_eq!(parsed.to_string(), "a[0]=1");
}

#[test]
fn map_leaf_preserves_the_path() {
    let path_leaf = PathLeaf::new(vec!["a".into()], "xy".to_string()).unwrap().map_leaf(|s| s.len());
    assert_eq!(path_leaf.path(), [key("a")]);
    assert_eq!(*path_leaf.leaf(), 2);
}

#[test]
fn splits_on_the_first_equals_only() {
    let q: PathLeaf<String> = "q=a=b".parse().unwrap();
    assert_eq!(q.leaf(), "a=b");
    let empty: PathLeaf<String> = "q=".parse().unwrap();
    assert_eq!(empty.leaf(), "");
}

#[test]
fn dotted_paths_nest() {
    let leaf: PathLeaf<String> = "server.port=8080".parse().unwrap();
    let typed = leaf.map_leaf(|raw| Value::Number(Number::I64(raw.parse().unwrap())));
    assert_eq!(typed.into_value().unwrap(), obj(vec![("server", obj(vec![("port", Value::Number(Number::I64(8080)))]))]));
    let deep = PathLeaf::new(vec!["a".into(), "b".into(), "c".into()], Value::Number(Number::I64(1))).unwrap();
    assert_eq!(
        deep.into_value().unwrap(),
        obj(vec![("a", obj(vec![("b", obj(vec![("c", Value::Number(Number::I64(1)))]))]))])
    );
}

#[test]
fn bracketed_paths_parse_but_cannot_write() {
    let leaf: PathLeaf<String> = "servers[0].host=x".parse().unwrap();
    let typed = leaf.map_leaf(Value::String);
    assert_eq!(typed.into_value().unwrap_err(), PathError::IndexInKeyPath { path: "servers[0].host".to_string() });
}

#[test]
fn try_map_leaf_passes_errors_through() {
    let leaf: PathLeaf<String> = "port=x".parse().unwrap();
    let r: Result<PathLeaf<i64>, String> = leaf.try_map_leaf(|raw| raw.parse::<i64>().map_err(|_| "not a number".to_string()));
    assert_eq!(r.unwrap_err(), "not a number");
    let ok: PathLeaf<String> = "port=7".parse().unwrap();
    let n = ok.try_map_leaf(|raw| raw.parse::<i64>()).unwrap();
    assert_eq!(*n.leaf(), 7);
    assert_eq!(n.path(), [key("port")]);
}

#[test]
fn displaying_a_parsed_expression_parses_back_to_it() {
    for expr in ["port=8080", "q=a=b", "q=", "a[01].b=x", "server.port=[1, 2]"] {
        let parsed = PathLeaf::<String>::parse(expr).unwrap();
        let again = PathLeaf::<String>::parse(&parsed.to_string()).unwrap();
        assert_eq!(again.path(), parsed.path(), "{expr}");
        assert_eq!(again.leaf(), parsed.leaf(), "{expr}");
    }
    assert_eq!(PathLeaf::<String>::parse("a[01].b=x").unwrap().to_string(), "a[1].b=x");
}

#[test]
fn a_right_hand_side_that_is_not_json_stays_a_string() {
    assert_eq!(typed_or_string("8080".to_string(), Some(Value::Number(Number::I64(8080)))), Value::Number(Number::I64(8080)));
    assert_eq!(typed_or_string("[a,b]".to_string(), None), Value::String("[a,b]".to_string()));
}
