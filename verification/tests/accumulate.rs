use std::path::{Path, PathBuf};

use knf::accumulate::{candidates, ordered_files, AccumulateTarget, Listed};
use knf::format::Format;

#[test]
fn an_accumulate_target_is_a_relative_json_or_toml_file() {
    let t = AccumulateTarget::parse(Path::new("foo/bar/target.toml")).unwrap();
    assert_eq!(t.path(), &PathBuf::from("foo/bar/target.toml"));
    assert_eq!(t.format(), Format::Toml);
}

#[test]
fn dot_components_are_dropped() {
    let t = AccumulateTarget::parse(Path::new("./foo/./bar/target.json")).unwrap();
    assert_eq!(t.path(), &PathBuf::from("foo/bar/target.json"));
    assert_eq!(t.format(), Format::Json);
}

#[test]
fn accumulate_refusals_come_in_order() {
    assert_eq!(AccumulateTarget::parse(Path::new("-")).unwrap_err(), "--accumulate does not accept stdin");
    for escaping in ["../x.toml", "/etc/x.toml", "a/../x.toml"] {
        assert_eq!(
            AccumulateTarget::parse(Path::new(escaping)).unwrap_err(),
            "--accumulate requires a relative target path without .. components",
            "{escaping}"
        );
    }
    assert_eq!(
        AccumulateTarget::parse(Path::new("x.yaml")).unwrap_err(),
        "--accumulate requires a target with a JSON or TOML extension"
    );
    assert_eq!(
        AccumulateTarget::parse(Path::new("../x.yaml")).unwrap_err(),
        "--accumulate requires a relative target path without .. components"
    );
}

fn listed(name: &str, dir: &str) -> Listed {
    Listed { name: name.as_bytes().to_vec(), path: Path::new(dir).join(name) }
}

#[test]
fn candidates_are_same_format_siblings_other_than_the_target() {
    let listing = vec![
        listed("target.toml", "a"),
        listed("base.toml", "a"),
        listed("base.json", "a"),
        listed("README.md", "a"),
        listed("sub", "a"),
    ];
    let got: Vec<PathBuf> = candidates(listing, Path::new("a/target.toml"), Format::Toml)
        .into_iter()
        .map(|l| l.path)
        .collect();
    assert_eq!(got, vec![PathBuf::from("a/base.toml")]);
}

#[test]
fn a_directory_contributes_its_regular_files_in_byte_order() {
    let checked = vec![
        (listed("b.toml", "d"), true),
        (listed("Z.toml", "d"), true),
        (listed("dir.toml", "d"), false),
        (listed("a.toml", "d"), true),
        (listed("10.toml", "d"), true),
        (listed("2.toml", "d"), true),
    ];
    assert_eq!(
        ordered_files(checked),
        vec![
            PathBuf::from("d/10.toml"),
            PathBuf::from("d/2.toml"),
            PathBuf::from("d/Z.toml"),
            PathBuf::from("d/a.toml"),
            PathBuf::from("d/b.toml"),
        ]
    );
}

#[test]
fn non_ascii_names_order_by_their_bytes() {
    // 'z' is 0x7A; 'é' is 0xC3 0xA9 in UTF-8 and '\u{ff}' is 0xC3 0xBF.
    let checked = vec![(listed("\u{ff}.json", "d"), true), (listed("é.json", "d"), true), (listed("z.json", "d"), true)];
    assert_eq!(
        ordered_files(checked),
        vec![PathBuf::from("d/z.json"), PathBuf::from("d/é.json"), PathBuf::from("d/\u{ff}.json")]
    );
}
