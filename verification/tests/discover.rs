//! The walk's decisions, driven over an in-memory tree: each directory's
//! listing is handed over as it would be read, in an order that is not the
//! sorted one.

use std::collections::BTreeMap;
use std::path::{Path, PathBuf};

use knf::discover::{
    alternatives_of, assemble, barren_directory, child_rel, children_to_visit, directory_contribution, eligible_files, own_group,
    repeated_group, settle, sort_entries, DiscoverError, RawEntry, RawKind,
};
use knf::fs::{paths, rel, Dir, EntryKind};
use knf::matrix::{Alternative, Group};

/// Directory path -> its entries, in "disk" order.
struct Fake {
    dirs: BTreeMap<PathBuf, Vec<(Option<String>, RawKind)>>,
}

impl Fake {
    fn new(root: &str) -> Fake {
        let mut dirs = BTreeMap::new();
        dirs.insert(PathBuf::from(root), Vec::new());
        Fake { dirs }
    }

    fn add(&mut self, parent: &Path, name: Option<&str>, kind: RawKind) {
        let entries = self.dirs.entry(parent.to_path_buf()).or_default();
        let name = name.map(str::to_string);
        if !entries.iter().any(|(n, _)| *n == name && name.is_some()) {
            // Newest first, so a listing is never already in sorted order.
            entries.insert(0, (name, kind));
        }
    }

    /// Adds a file (and every directory above it) under `root`.
    fn file(mut self, root: &str, rel_path: &str) -> Fake {
        let mut parent = PathBuf::from(root);
        let parts: Vec<&str> = rel_path.split('/').collect();
        for (i, part) in parts.iter().enumerate() {
            if i + 1 == parts.len() {
                self.add(&parent.clone(), Some(part), RawKind::File);
            } else {
                self.add(&parent.clone(), Some(part), RawKind::Dir);
                parent = parent.join(part);
                self.dirs.entry(parent.clone()).or_default();
            }
        }
        self
    }

    fn dir(mut self, root: &str, rel_path: &str) -> Fake {
        let path = PathBuf::from(root).join(rel_path);
        self.add(path.parent().unwrap(), Some(path.file_name().unwrap().to_str().unwrap()), RawKind::Dir);
        self.dirs.entry(path).or_default();
        self
    }

    fn entry(mut self, parent: &str, name: Option<&str>, kind: RawKind) -> Fake {
        self.add(Path::new(parent), name, kind);
        self
    }

    fn listing(&self, dir: &Path) -> Vec<RawEntry> {
        self.dirs[dir]
            .iter()
            .enumerate()
            .map(|(i, (name, kind))| RawEntry {
                name: name.clone(),
                path: dir.join(name.clone().unwrap_or_else(|| format!("\u{fffd}{i}"))),
                kind: *kind,
            })
            .collect()
    }
}

fn is_json_or_toml(path: &Path) -> bool {
    path.extension()
        .is_some_and(|e| e.eq_ignore_ascii_case("json") || e.eq_ignore_ascii_case("toml"))
}

fn everything(_: &str, _: EntryKind) -> bool {
    true
}

fn walk<I: Fn(&str, EntryKind) -> bool>(
    fake: &Fake,
    dir: &Path,
    rel_path: &str,
    depth: usize,
    max_depth: Option<usize>,
    wanted: &I,
) -> Result<Option<Dir>, DiscoverError> {
    let (candidates, subdirs) = sort_entries(fake.listing(dir));
    let files = eligible_files(candidates, &is_json_or_toml);
    let had_subdirs = !subdirs.is_empty();
    let mut children = Vec::new();
    for (child, path) in children_to_visit(rel_path, depth, max_depth, subdirs, wanted) {
        if let Some(c) = walk(fake, &path, &child, depth + 1, max_depth, wanted)? {
            children.push(c);
        }
    }
    assemble(dir.to_path_buf(), rel_path, files, had_subdirs, children, wanted)
}

fn discover<I: Fn(&str, EntryKind) -> bool>(
    fake: &Fake,
    root: &str,
    wanted: &I,
    max_depth: Option<usize>,
) -> Result<Dir, DiscoverError> {
    settle(walk(fake, Path::new(root), "", 0, max_depth, wanted)?)
}

fn lineages(fake: &Fake, root: &str, max_depth: Option<usize>) -> Vec<Vec<String>> {
    let tree = discover(fake, root, &everything, max_depth).expect("discover");
    paths(&tree).into_iter().map(|p| p.into_iter().map(|f| rel(Path::new(root), f)).collect()).collect()
}

fn file_names_at(dir: &Dir) -> Vec<String> {
    dir.files.iter().map(|f| f.path.file_stem().unwrap().to_string_lossy().into_owned()).collect()
}

#[test]
fn sibling_branches_from_a_listing() {
    let fake = Fake::new("root")
        .file("root", "base.toml")
        .file("root", "foo/leaf.toml")
        .file("root", "foo/leaf-two.toml")
        .file("root", "bar/leaf-three.toml")
        .file("root", "bar/leaf-four.toml");
    assert_eq!(
        lineages(&fake, "root", None),
        vec![
            vec!["base.toml", "bar/leaf-four.toml"],
            vec!["base.toml", "bar/leaf-three.toml"],
            vec!["base.toml", "foo/leaf-two.toml"],
            vec!["base.toml", "foo/leaf.toml"],
        ]
    );
}

#[test]
fn nested_tuning_is_on_the_db_path_of_a_listing() {
    let fake = Fake::new("config")
        .file("config", "base.toml")
        .file("config", "db/mysql.toml")
        .file("config", "db/postgres.toml")
        .file("config", "db/tuning/small.toml")
        .file("config", "server/nginx.toml");
    assert_eq!(
        lineages(&fake, "config", None),
        vec![
            vec!["base.toml", "db/mysql.toml", "db/tuning/small.toml"],
            vec!["base.toml", "db/postgres.toml", "db/tuning/small.toml"],
            vec!["base.toml", "server/nginx.toml"],
        ]
    );
}

#[test]
fn dot_names_are_skipped() {
    let fake = Fake::new("root").file("root", "base.toml").file("root", ".hidden.toml").file("root", ".git/config.toml");
    assert_eq!(lineages(&fake, "root", None), vec![vec!["base.toml"]]);
}

#[test]
fn files_outside_the_predicate_are_skipped() {
    let fake = Fake::new("root")
        .file("root", "base.toml")
        .file("root", "over.json")
        .file("root", "README.md")
        .file("root", "notes.yaml")
        .file("root", "noextension");
    let tree = discover(&fake, "root", &everything, None).unwrap();
    assert_eq!(file_names_at(&tree), vec!["base", "over"]);
}

#[test]
fn an_empty_directory_is_an_error_naming_it() {
    let fake = Fake::new("root").file("root", "base.toml").dir("root", "empty");
    let err = discover(&fake, "root", &everything, None).unwrap_err();
    assert!(matches!(&err, DiscoverError::EmptyDirectory { path } if path == Path::new("root/empty")));
    assert_eq!(
        err.to_string(),
        "`root/empty` contains no eligible files\nhelp: add a file, or remove the directory"
    );
}

#[test]
fn a_leaf_whose_files_are_all_filtered_out_is_omitted_not_empty() {
    let fake = Fake::new("root").file("root", "base.toml").file("root", "db/a.toml");
    let wanted = |rel_path: &str, kind: EntryKind| match kind {
        EntryKind::Dir => true,
        EntryKind::File => rel_path.starts_with("missing/"),
    };
    let err = discover(&fake, "root", &wanted, None).unwrap_err();
    assert!(matches!(err, DiscoverError::NoMatch));
}

#[test]
fn a_directory_contributing_only_through_a_subdirectory_is_not_empty() {
    let fake = Fake::new("outer").file("outer", "inner/x.toml");
    assert_eq!(lineages(&fake, "outer", None), vec![vec!["inner/x.toml"]]);
}

#[test]
fn the_predicate_prunes_unused_branches() {
    let fake = Fake::new("root")
        .file("root", "base.toml")
        .file("root", "foo/leaf.toml")
        .file("root", "foo/leaf-two.toml")
        .file("root", "bar/leaf-three.toml")
        .file("root", "bar/leaf-four.toml");
    let only_foo = |p: &str, kind: EntryKind| match kind {
        EntryKind::Dir => p == "foo",
        EntryKind::File => p.starts_with("foo/"),
    };
    let tree = discover(&fake, "root", &only_foo, None).expect("discover");
    let got: Vec<Vec<String>> =
        paths(&tree).into_iter().map(|p| p.into_iter().map(|f| rel(Path::new("root"), f)).collect()).collect();
    assert_eq!(
        got,
        vec![vec!["base.toml", "foo/leaf-two.toml"], vec!["base.toml", "foo/leaf.toml"]]
    );
}

#[test]
fn a_predicate_that_keeps_nothing_is_no_match() {
    let fake = Fake::new("root").file("root", "foo/leaf.toml");
    let missing = |p: &str, _: EntryKind| p.starts_with("missing/");
    let err = discover(&fake, "root", &missing, None).unwrap_err();
    assert!(matches!(err, DiscoverError::NoMatch));
    assert_eq!(err.to_string(), "no paths matched\nhelp: loosen --glob, or raise --max-depth");
}

#[test]
fn depth_zero_keeps_only_the_root_files() {
    let fake = Fake::new("root").file("root", "base.toml").file("root", "foo/leaf.toml").file("root", "bar/leaf-three.toml");
    let tree = discover(&fake, "root", &everything, Some(0)).expect("discover");
    assert_eq!(file_names_at(&tree), vec!["base"]);
    assert!(tree.dirs.is_empty());
}

#[test]
fn depth_one_stops_before_nested_tuning() {
    let fake = Fake::new("config")
        .file("config", "base.toml")
        .file("config", "db/mysql.toml")
        .file("config", "db/postgres.toml")
        .file("config", "db/tuning/small.toml")
        .file("config", "server/nginx.toml");
    assert_eq!(
        lineages(&fake, "config", Some(1)),
        vec![
            vec!["base.toml", "db/mysql.toml"],
            vec!["base.toml", "db/postgres.toml"],
            vec!["base.toml", "server/nginx.toml"],
        ]
    );
}

#[test]
fn symlinks_and_names_that_are_not_utf8_are_skipped() {
    let fake = Fake::new("root")
        .file("root", "base.toml")
        .file("root", "real/r.toml")
        .entry("root", Some("link"), RawKind::Symlink)
        .entry("root", Some("l.toml"), RawKind::Symlink)
        .entry("root", None, RawKind::File);
    assert_eq!(lineages(&fake, "root", None), vec![vec!["base.toml", "real/r.toml"]]);
}

#[test]
fn sorting_is_byte_wise_not_natural() {
    let fake = Fake::new("root")
        .file("root", "2-b.toml")
        .file("root", "10-a.toml")
        .file("root", "Z-upper.toml")
        .file("root", "a-lower.toml");
    let tree = discover(&fake, "root", &everything, None).unwrap();
    assert_eq!(file_names_at(&tree), vec!["10-a", "2-b", "Z-upper", "a-lower"]);
}

#[test]
fn sort_entries_splits_and_orders_a_listing() {
    let listing = vec![
        RawEntry { name: Some("b.toml".into()), path: PathBuf::from("d/b.toml"), kind: RawKind::File },
        RawEntry { name: Some("sub".into()), path: PathBuf::from("d/sub"), kind: RawKind::Dir },
        RawEntry { name: Some("a.toml".into()), path: PathBuf::from("d/a.toml"), kind: RawKind::File },
        RawEntry { name: Some(".a".into()), path: PathBuf::from("d/.a"), kind: RawKind::Dir },
        RawEntry { name: Some("Sub".into()), path: PathBuf::from("d/Sub"), kind: RawKind::Dir },
    ];
    let (files, dirs) = sort_entries(listing);
    assert_eq!(
        files,
        vec![("a.toml".to_string(), PathBuf::from("d/a.toml")), ("b.toml".to_string(), PathBuf::from("d/b.toml"))]
    );
    assert_eq!(dirs, vec![("Sub".to_string(), PathBuf::from("d/Sub")), ("sub".to_string(), PathBuf::from("d/sub"))]);
}

#[test]
fn child_paths_are_slash_joined_below_the_root() {
    assert_eq!(child_rel("", "db"), "db");
    assert_eq!(child_rel("db", "tuning"), "db/tuning");
}

#[test]
fn not_a_directory_names_the_path() {
    let err = DiscoverError::NotADirectory { path: PathBuf::from("conf.toml") };
    assert_eq!(err.to_string(), "`conf.toml` is not a directory");
}

#[test]
fn alternatives_are_named_by_stem_and_sorted_by_it() {
    let candidates = vec![
        ("b.toml".to_string(), PathBuf::from("c/b.toml")),
        ("README.md".to_string(), PathBuf::from("c/README.md")),
        ("a.json".to_string(), PathBuf::from("c/a.json")),
        ("a-b.toml".to_string(), PathBuf::from("c/a-b.toml")),
    ];
    let names: Vec<(String, PathBuf)> =
        alternatives_of(candidates).into_iter().map(|a: Alternative| (a.name, a.path)).collect();
    assert_eq!(
        names,
        vec![
            ("a".to_string(), PathBuf::from("c/a.json")),
            ("a-b".to_string(), PathBuf::from("c/a-b.toml")),
            ("b".to_string(), PathBuf::from("c/b.toml")),
        ]
    );
}

#[test]
fn the_root_group_takes_the_root_id_and_others_their_path() {
    let alt = || vec![Alternative { name: "base".into(), path: PathBuf::from("config/base.toml") }];
    assert_eq!(own_group("", "config", alt()).unwrap().id, "config");
    assert_eq!(own_group("db/tuning", "config", alt()).unwrap().id, "db/tuning");
    assert!(own_group("db", "config", Vec::new()).is_none());
}

#[test]
fn a_repeated_group_id_is_named() {
    let group = |id: &str| Group {
        id: id.to_string(),
        alternatives: vec![Alternative { name: "x".into(), path: PathBuf::from("x.toml") }],
    };
    assert_eq!(repeated_group(&[group("cfg"), group("db")]), None);
    assert_eq!(
        repeated_group(&[group("cfg"), group("db"), group("cfg"), group("db")]).unwrap(),
        "group `cfg` is defined twice: the root directory's basename collides with a subdirectory\nhelp: rename the subdirectory, or point `knf matrix` at a differently named root"
    );
}

#[test]
fn a_barren_directory_is_named() {
    assert_eq!(
        barren_directory(Path::new("config/db")),
        "`config/db` contains no .json or .toml files\nhelp: add a file, or remove the directory"
    );
}

#[test]
fn a_directory_that_contributed_nothing_is_named() {
    assert_eq!(directory_contribution(Path::new("root/db"), true, false), Ok(true));
    assert_eq!(directory_contribution(Path::new("root/db"), false, true), Ok(true));
    assert_eq!(
        directory_contribution(Path::new("root/db"), false, false),
        Err("`root/db` contains no .json or .toml files\nhelp: add a file, or remove the directory".to_string())
    );
}
