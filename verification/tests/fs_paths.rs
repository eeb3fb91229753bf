use std::path::{Path, PathBuf};

use knf::fs::{paths, paths_capped, rel, Dir, File, PathsError};

fn file(path: &str) -> File {
    File { path: PathBuf::from(path) }
}

fn dir(path: &str, files: Vec<File>, dirs: Vec<Dir>) -> Dir {
    Dir { path: PathBuf::from(path), files, dirs }
}

fn path_names(tree: &Dir) -> Vec<Vec<String>> {
    paths(tree)
        .into_iter()
        .map(|p| p.into_iter().map(|f| f.path.file_name().unwrap().to_string_lossy().into_owned()).collect())
        .collect()
}

#[test]
fn sibling_dirs_are_alternative_branches() {
    let tree = dir(
        "root",
        vec![file("root/base.toml")],
        vec![
            dir("root/bar", vec![file("root/bar/leaf-four.toml"), file("root/bar/leaf-three.toml")], vec![]),
            dir("root/foo", vec![file("root/foo/leaf-two.toml"), file("root/foo/leaf.toml")], vec![]),
        ],
    );
    assert_eq!(
        path_names(&tree),
        vec![
            vec!["base.toml", "leaf-four.toml"],
            vec!["base.toml", "leaf-three.toml"],
            vec!["base.toml", "leaf-two.toml"],
            vec!["base.toml", "leaf.toml"],
        ]
    );
}

#[test]
fn nested_single_child_still_crosses_files_along_the_path() {
    let tree = dir(
        "config",
        vec![file("config/base.toml")],
        vec![dir(
            "config/db",
            vec![file("config/db/mysql.toml"), file("config/db/postgres.toml")],
            vec![dir(
                "config/db/tuning",
                vec![file("config/db/tuning/large.toml"), file("config/db/tuning/small.toml")],
                vec![],
            )],
        )],
    );
    assert_eq!(
        path_names(&tree),
        vec![
            vec!["base.toml", "mysql.toml", "large.toml"],
            vec!["base.toml", "mysql.toml", "small.toml"],
            vec!["base.toml", "postgres.toml", "large.toml"],
            vec!["base.toml", "postgres.toml", "small.toml"],
        ]
    );
}

#[test]
fn singleton_chain_is_one_path() {
    let tree = dir(
        "config",
        vec![file("config/base.toml")],
        vec![dir("config/db", vec![file("config/db/only.toml")], vec![])],
    );
    assert_eq!(path_names(&tree), vec![vec!["base.toml", "only.toml"]]);
}

#[test]
fn directory_with_no_files_passes_through() {
    let tree = dir("outer", vec![], vec![dir("outer/inner", vec![file("outer/inner/x.toml")], vec![])]);
    assert_eq!(path_names(&tree), vec![vec!["x.toml"]]);
}

#[test]
fn paths_capped_errors_instead_of_returning_too_many() {
    let dir = Dir { path: PathBuf::from("root"), files: vec![file("a.toml"), file("b.toml"), file("c.toml")], dirs: vec![] };
    assert_eq!(paths(&dir).len(), 3);
    let err = paths_capped(&dir, 2).unwrap_err();
    assert!(matches!(err, PathsError::TooMany { max: 2 }));
    assert_eq!(err.to_string(), "this tree describes more than 2 documents");
}

#[test]
fn paths_capped_passes_a_tree_within_the_cap() {
    let dir = Dir { path: PathBuf::from("root"), files: vec![file("a.toml"), file("b.toml")], dirs: vec![] };
    assert_eq!(paths_capped(&dir, 2).unwrap().len(), 2);
}

#[test]
fn rel_is_slash_separated_under_the_root() {
    assert_eq!(rel(Path::new("root"), &file("root/bar/leaf.toml")), "bar/leaf.toml");
    assert_eq!(rel(Path::new("root"), &file("root/base.toml")), "base.toml");
}

#[test]
fn rel_outside_the_root_keeps_the_whole_path() {
    assert_eq!(rel(Path::new("elsewhere"), &file("root/bar/leaf.toml")), "root/bar/leaf.toml");
}
