use knf::path::{render_path, PathError, RefPath, Seg};

fn seg(key: &str) -> Seg {
    Seg::Key(key.into())
}

fn empty_segment(path: &str) -> PathError {
    PathError::EmptySegment { path: path.into() }
}

fn bad_index(path: &str) -> PathError {
    PathError::BadIndex { path: path.into() }
}

fn check_render_path_mixes_keys_and_indices() {
    assert_eq!(render_path(&[]), "");
    assert_eq!(render_path(&[Seg::Key("a".into()), Seg::Key("b".into())]), "a.b");
    assert_eq!(render_path(&[Seg::Key("tags".into()), Seg::Index(0)]), "tags[0]");
}

fn check_ref_path_rejects_malformed_bodies() {
    let cases: &[(&str, PathError)] = &[
        (".a", empty_segment(".a")),
        ("a..b", empty_segment("a..b")),
        ("a[0]..b", empty_segment("a[0]..b")),
        ("[0].a", empty_segment("[0].a")),
        ("a[]", bad_index("a[]")),
        ("a[x]", bad_index("a[x]")),
        ("a[1", bad_index("a[1")),
        ("a[-1]", bad_index("a[-1]")),
        ("a]", bad_index("a]")),
        ("a[99999999999999999999999999]", bad_index("a[99999999999999999999999999]")),
    ];
    for (body, want) in cases {
        assert_eq!(&body.parse::<RefPath>().unwrap_err(), want, "{body}");
    }
    assert_eq!("".parse::<RefPath>().unwrap_err(), PathError::EmptyPath);
}

fn check_try_into_keys_rejects_index_steps_with_the_full_path() {
    for (indexed, want) in [("a[0]", "a[0]"), ("a.b[2].c", "a.b[2].c")] {
        let err = indexed.parse::<RefPath>().unwrap().try_into_keys().unwrap_err();
        assert_eq!(err, PathError::IndexInKeyPath { path: want.into() });
    }
    let err = "a[0]".parse::<RefPath>().unwrap().try_into_keys().unwrap_err();
    assert_eq!(err.to_string(), "`a[0]` contains an array index; merge paths take keys only");
}

#[test]
fn path_render_path_mixes_keys_and_indices() {
    check_render_path_mixes_keys_and_indices();
}

#[test]
fn path_ref_path_rejects_malformed_bodies() {
    check_ref_path_rejects_malformed_bodies();
}

#[test]
fn path_try_into_keys_rejects_index_steps_with_the_full_path() {
    check_try_into_keys_rejects_index_steps_with_the_full_path();
}

#[test]
fn lib_render_path_mixes_keys_and_indices() {
    check_render_path_mixes_keys_and_indices();
}

#[test]
fn lib_ref_path_rejects_malformed_bodies() {
    check_ref_path_rejects_malformed_bodies();
}

#[test]
fn lib_try_into_keys_rejects_index_steps_with_the_full_path() {
    check_try_into_keys_rejects_index_steps_with_the_full_path();
}

#[test]
fn ref_path_parses_mixed_steps() {
    let cases: &[(&str, &[Seg])] = &[
        ("a", &[seg("a")]),
        ("a.b", &[seg("a"), seg("b")]),
        ("a[0]", &[seg("a"), Seg::Index(0)]),
        ("a.b[2].c", &[seg("a"), seg("b"), Seg::Index(2), seg("c")]),
        ("a[0][1]", &[seg("a"), Seg::Index(0), Seg::Index(1)]),
        ("a:b[3]", &[seg("a:b"), Seg::Index(3)]),
    ];
    for (body, want) in cases {
        let parsed: RefPath = body.parse().unwrap();
        assert_eq!(parsed.segs(), *want, "{body}");
    }
}

#[test]
fn ref_path_displays_as_rendered_witness() {
    let parsed: RefPath = "a.b[2].c".parse().unwrap();
    assert_eq!(parsed.to_string(), "a.b[2].c");
    assert_eq!("a.b".parse::<RefPath>().unwrap().to_string(), "a.b");
}

#[test]
fn from_keys_rejects_empty_path_and_empty_segments() {
    assert_eq!(RefPath::from_keys(vec![]).unwrap_err(), PathError::EmptyPath);
    assert_eq!(RefPath::from_keys(vec!["".into()]).unwrap_err(), PathError::EmptySegment { path: "".into() });
    assert_eq!(
        RefPath::from_keys(vec!["a".into(), "".into()]).unwrap_err(),
        PathError::EmptySegment { path: "a.".into() }
    );
    assert_eq!(
        RefPath::from_keys(vec!["db".into(), "plugins".into()]).unwrap(),
        "db.plugins".parse().unwrap()
    );
}

#[test]
fn try_into_keys_passes_all_key_paths_whole() {
    let parsed: RefPath = "db.plugins".parse().unwrap();
    assert_eq!(parsed.try_into_keys().unwrap(), ["db", "plugins"]);
}

#[test]
fn equals_is_an_ordinary_key_character() {
    let parsed: RefPath = "a=b".parse().unwrap();
    assert_eq!(parsed.try_into_keys().unwrap(), ["a=b"]);
}

#[test]
fn into_segs_keeps_every_step() {
    let parsed: RefPath = "a[1].b".parse().unwrap();
    assert_eq!(parsed.into_segs(), vec![seg("a"), Seg::Index(1), seg("b")]);
}

#[test]
fn path_errors_read_as_their_messages() {
    assert_eq!(PathError::MissingEquals.to_string(), "expected KEY.PATH=VALUE");
    assert_eq!(PathError::EmptyPath.to_string(), "empty path");
    assert_eq!(empty_segment("a..b").to_string(), "empty segment in path `a..b`");
    assert_eq!(bad_index("a[x]").to_string(), "malformed index in path `a[x]`");
}

#[test]
fn rendering_a_parsed_path_parses_back_to_it() {
    for body in ["a", "a.b[2].c", "servers[0].host", "a[007].b", "x[18446744073709551615]"] {
        let parsed = RefPath::parse(body).unwrap();
        let shown = parsed.to_string();
        assert_eq!(RefPath::parse(&shown).unwrap(), parsed, "{body}");
    }
    assert_eq!(RefPath::parse("a[007].b").unwrap().to_string(), "a[7].b");
}
