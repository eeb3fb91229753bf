use std::path::{Path, PathBuf};

use knf::format::Format;
use knf::matrix::{
    ambiguity_error, enumerate, list_text, matrix_documents, name_pairs, output_names, plan_matrix, product_size,
    resolve_axes, split_args, Alternative, Group, MatrixError, MatrixRefusal,
};
use knf::merge::{MergeError, MergeOptions};
use knf::value::{Number, Value};

fn group(id: &str, names: &[&str]) -> Group {
    Group {
        id: id.to_string(),
        alternatives: names
            .iter()
            .map(|n| Alternative { name: n.to_string(), path: PathBuf::from(format!("{id}/{n}.toml")) })
            .collect(),
    }
}

fn pins(pairs: &[(&str, &str)]) -> Vec<(String, String)> {
    pairs.iter().map(|(g, c)| (g.to_string(), c.to_string())).collect()
}

fn pin<'a>(pins: &'a [(String, String)], group: &str) -> &'a str {
    &pins.iter().find(|(g, _)| g == group).expect("pinned").1
}

#[test]
fn split_args_is_syntactic() {
    let (dir, pins) =
        split_args(&["config/".to_string(), "db=postgres".to_string(), "server=nginx".to_string()]).unwrap();
    assert_eq!(dir, PathBuf::from("config/"));
    assert_eq!(pin(&pins, "db"), "postgres");
    assert_eq!(pin(&pins, "server"), "nginx");
}

#[test]
fn split_args_rejects_zero_or_two_directories() {
    assert!(split_args(&["db=x".to_string()]).is_err());
    assert!(split_args(&["a".to_string(), "b".to_string()]).is_err());
}

#[test]
fn product_overflow_is_not_a_panic() {
    assert_eq!(product_size(&[]), Some(1));
    assert_eq!(product_size(&[vec![0, 1], vec![0, 1, 2]]), Some(6));
    assert_eq!(product_size(&vec![vec![0usize, 1]; 64]), None);
}

#[test]
fn split_args_sorts_pins_and_splits_on_the_first_equals() {
    let (_, pins) = split_args(&["z=1".to_string(), "d".to_string(), "a=b=c".to_string()]).unwrap();
    assert_eq!(pins, vec![("a".to_string(), "b=c".to_string()), ("z".to_string(), "1".to_string())]);
}

#[test]
fn split_args_errors_read_as_their_messages() {
    let twice = split_args(&["db=a".to_string(), "db=b".to_string(), "x".to_string()]).unwrap_err();
    assert_eq!(twice, MatrixError::PinnedTwice { group: "db".to_string() });
    assert_eq!(twice.to_string(), "group `db` is pinned twice");
    let none = split_args(&["db=x".to_string()]).unwrap_err();
    assert_eq!(none.to_string(), "expected a directory\nhelp: knf matrix config/");
    let two = split_args(&["a".to_string(), "b".to_string()]).unwrap_err();
    assert_eq!(
        two.to_string(),
        "expected one directory, got 2: a, b\nhelp: arguments containing `=` are group pins; everything else is the directory"
    );
}

#[test]
fn pins_singletons_and_free_axes_resolve() {
    let groups = vec![group("config", &["base"]), group("db", &["mysql", "postgres"]), group("server", &["a", "b", "c"])];
    let axes = resolve_axes(&groups, &pins(&[("db", "postgres")])).unwrap();
    assert_eq!(axes, vec![vec![0], vec![1], vec![0, 1, 2]]);
    assert_eq!(enumerate(&axes), vec![vec![0, 1, 0], vec![0, 1, 1], vec![0, 1, 2]]);
    assert_eq!(product_size(&axes), Some(3));
}

#[test]
fn an_unknown_group_or_choice_is_reported() {
    let groups = vec![group("db", &["mysql", "postgres"])];
    let err = resolve_axes(&groups, &pins(&[("web", "x")])).unwrap_err();
    assert_eq!(err.to_string(), "no group `web`\nhelp: groups are db");
    let err = resolve_axes(&groups, &pins(&[("db", "oracle")])).unwrap_err();
    assert_eq!(
        err.to_string(),
        "group `db` has no alternative `oracle`\nhelp: alternatives are db=mysql, db=postgres"
    );
}

#[test]
fn the_last_axis_varies_fastest() {
    assert_eq!(enumerate(&[vec![0, 1], vec![5, 6]]), vec![vec![0, 5], vec![0, 6], vec![1, 5], vec![1, 6]]);
    assert_eq!(enumerate(&[]), vec![Vec::<usize>::new()]);
}

#[test]
fn name_pairs_skip_singletons_and_sort_by_group() {
    let groups = vec![group("server", &["a", "b"]), group("config", &["base"]), group("db", &["mysql", "postgres"])];
    assert_eq!(name_pairs(&groups, &[1, 0, 0]), vec!["db=mysql".to_string(), "server=b".to_string()]);
}

#[test]
fn the_listing_names_each_tuple_and_its_files() {
    let groups = vec![group("config", &["base"]), group("db", &["mysql", "postgres"])];
    let tuples = enumerate(&resolve_axes(&groups, &[]).unwrap());
    assert_eq!(
        list_text(&groups, &tuples, "config", "+"),
        "db=mysql\n  config/base.toml\n  db/mysql.toml\ndb=postgres\n  config/base.toml\n  db/postgres.toml\n"
    );
    let single = vec![group("config", &["base"])];
    assert_eq!(list_text(&single, &[vec![0]], "config", "+"), "config\n  config/base.toml\n");
}

#[test]
fn output_names_follow_the_layout() {
    let pairs = vec!["db=mysql".to_string(), "server=a".to_string()];
    assert_eq!(output_names(&pairs, "config", false, "+", Format::Json), vec!["db=mysql+server=a.json".to_string()]);
    assert_eq!(
        output_names(&pairs, "config", true, "+", Format::Toml),
        vec!["db=mysql".to_string(), "server=a.toml".to_string()]
    );
    assert_eq!(output_names(&[], "config", true, "+", Format::Toml), vec!["config.toml".to_string()]);
}

#[test]
fn the_ambiguity_report_offers_a_runnable_command() {
    let groups = vec![group("config", &["base"]), group("db", &["mysql", "postgres"]), group("server", &["a", "b"])];
    let report = ambiguity_error(&groups, &pins(&[("server", "b")]), Path::new("config"));
    assert_eq!(
        report.to_string(),
        "ambiguous group `db` — 2 alternatives\n  db=mysql, db=postgres\n\
         help: knf matrix config server=b db=mysql\n\
         help: or write every combination — knf matrix config server=b --out-dir out/"
    );
}

#[test]
fn the_walk_order_never_shows_in_a_name() {
    let forward = vec![group("server", &["a", "b"]), group("base", &["base"]), group("db", &["mysql", "pg"])];
    let backward = vec![group("db", &["mysql", "pg"]), group("base", &["base"]), group("server", &["a", "b"])];
    assert_eq!(name_pairs(&forward, &[1, 0, 0]), name_pairs(&backward, &[0, 0, 1]));
    assert_eq!(name_pairs(&forward, &[1, 0, 0]), vec!["db=mysql".to_string(), "server=b".to_string()]);
}

#[test]
fn a_plan_over_the_cap_is_refused_with_its_message() {
    let axes = vec![vec![0, 1, 2], vec![0, 1]];
    assert_eq!(plan_matrix(&axes, 5, true, false), Err(MatrixRefusal::TooMany { max: 5 }));
    assert_eq!(plan_matrix(&axes, 6, true, false), Ok(6));
    assert_eq!(
        MatrixRefusal::too_many_message(5),
        "this tree describes more than 5 documents\nhelp: pin a group, or raise --max"
    );
}

#[test]
fn a_plan_that_overflows_is_too_many() {
    let big: Vec<usize> = (0..65536).collect();
    let axes = vec![big.clone(), big.clone(), big.clone(), big.clone(), big];
    assert_eq!(plan_matrix(&axes, usize::MAX, true, false), Err(MatrixRefusal::TooMany { max: usize::MAX }));
}

#[test]
fn several_documents_need_an_out_dir_or_a_listing() {
    let axes = vec![vec![0, 1], vec![0]];
    assert_eq!(plan_matrix(&axes, 10, false, false), Err(MatrixRefusal::Ambiguous));
    assert_eq!(plan_matrix(&axes, 10, true, false), Ok(2));
    assert_eq!(plan_matrix(&axes, 10, false, true), Ok(2));
    assert_eq!(plan_matrix(&[vec![0], vec![0]], 10, false, false), Ok(1));
}

#[test]
fn each_document_is_the_merge_of_its_tuple() {
    let doc = |k: &str, v: i64| Value::Object(vec![(k.to_string(), Value::Number(Number::I64(v)))]);
    let alternatives = vec![vec![doc("port", 1)], vec![doc("port", 2), doc("host", 3)]];
    let tuples = vec![vec![0, 0], vec![0, 1]];
    let docs = matrix_documents(&alternatives, &tuples, &MergeOptions::last_wins()).unwrap();
    assert_eq!(docs, vec![doc("port", 2), Value::Object(vec![
        ("port".to_string(), Value::Number(Number::I64(1))),
        ("host".to_string(), Value::Number(Number::I64(3))),
    ])]);
}

#[test]
fn the_first_failing_document_stops_the_matrix() {
    let alternatives = vec![
        vec![Value::Object(vec![("port".to_string(), Value::Number(Number::I64(1)))])],
        vec![Value::Object(vec![("port".to_string(), Value::String("x".to_string()))])],
    ];
    let tuples = vec![vec![0, 0]];
    let err = matrix_documents(&alternatives, &tuples, &MergeOptions::strict()).unwrap_err();
    assert!(matches!(err, MergeError::TypeConflict { .. }));
}
