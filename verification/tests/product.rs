use std::path::{Path, PathBuf};

use knf::format::{Format, SourceName};
use knf::product::{
    enumerate_combinations, file_label, is_product, output_name, reject_unsafe_label, split_factors, LoadedLayer,
    ProductError,
};
use knf::value::Value;

fn paths(items: &[&str]) -> Vec<PathBuf> {
    items.iter().map(PathBuf::from).collect()
}

fn layer(label: &str) -> LoadedLayer {
    LoadedLayer { source: SourceName::File(PathBuf::from(format!("{label}.json"))), value: Value::Null, label: label.into() }
}

#[test]
fn x_separates_factors() {
    assert!(is_product(Path::new("x")));
    assert!(!is_product(Path::new("x.json")));
    assert!(!is_product(Path::new("./x")));
    let ps = paths(&["a.json", "b.json", "x", "c.toml", "x", "d.json", "e.json"]);
    let factors = split_factors(&ps).unwrap();
    let got: Vec<Vec<&str>> =
        factors.iter().map(|f| f.iter().map(|p| p.to_str().unwrap()).collect()).collect();
    assert_eq!(got, vec![vec!["a.json", "b.json"], vec!["c.toml"], vec!["d.json", "e.json"]]);
}

#[test]
fn a_single_factor_needs_no_x() {
    let ps = paths(&["a.json", "b.json"]);
    assert_eq!(split_factors(&ps).unwrap().len(), 1);
}

#[test]
fn empty_factors_are_refused() {
    for bad in [&["x", "a.json"][..], &["a.json", "x", "x", "b.json"][..]] {
        let err = split_factors(&paths(bad)).unwrap_err();
        assert!(matches!(err, ProductError::EmptyFactor), "{bad:?}");
        assert_eq!(err.to_string(), "`x` cannot start a product or follow another `x`: factor is empty");
    }
    for bad in [&["a.json", "x"][..], &[][..]] {
        let err = split_factors(&paths(bad)).unwrap_err();
        assert!(matches!(err, ProductError::TrailingSeparator), "{bad:?}");
        assert_eq!(err.to_string(), "`x` cannot end a product: factor is empty");
    }
}

#[test]
fn labels_with_separators_or_nul_are_refused() {
    assert!(reject_unsafe_label("port=8080").is_ok());
    for bad in ["a/b=1", "a\\b", "nul\0"] {
        let err = reject_unsafe_label(bad).unwrap_err();
        assert!(matches!(&err, ProductError::UnsafeLabel { text } if text == bad));
    }
    assert_eq!(
        reject_unsafe_label("a/b=1").unwrap_err().to_string(),
        "cannot use `a/b=1` in an output filename: it contains a path separator or null byte"
    );
}

#[test]
fn file_labels_are_stems() {
    assert_eq!(file_label(Path::new("conf/prod.json")).unwrap(), "prod");
    assert_eq!(file_label(Path::new("-")).unwrap(), "stdin");
    assert_eq!(file_label(Path::new("archive.tar.gz")).unwrap(), "archive.tar");
    let err = file_label(Path::new("/")).unwrap_err();
    assert!(matches!(err, ProductError::NoStem { .. }));
    assert_eq!(err.to_string(), "cannot derive an output name from input `/`");
}

#[test]
fn output_names_join_labels_and_add_the_extension() {
    let (a, b) = (layer("base"), layer("prod"));
    assert_eq!(output_name(&[&a, &b], "-", Format::Json).unwrap(), "base-prod.json");
    assert_eq!(output_name(&[&a], "+", Format::Toml).unwrap(), "base.toml");
}

#[test]
fn output_names_are_capped_in_bytes() {
    // 235 bytes of label and ".json" make 240: the limit itself is fine.
    let fits = layer(&"a".repeat(235));
    assert_eq!(output_name(&[&fits], "-", Format::Json).unwrap().len(), 240);
    let over = layer(&"a".repeat(236));
    let err = output_name(&[&over], "-", Format::Json).unwrap_err();
    assert!(matches!(&err, ProductError::NameTooLong { name } if name.len() == 241));
    // Characters count by their UTF-8 width: 118 two-byte characters and
    // ".json" make 241 bytes, 117 of them 239.
    let wide = layer(&"é".repeat(118));
    assert!(output_name(&[&wide], "-", Format::Json).is_err());
    let narrow = layer(&"é".repeat(117));
    assert!(output_name(&[&narrow], "-", Format::Json).is_ok());
}

#[test]
fn combinations_vary_the_last_factor_fastest() {
    let factors = vec![vec![layer("a"), layer("b")], vec![layer("x1"), layer("x2"), layer("x3")]];
    let combos = enumerate_combinations(&factors, "+", Format::Json).unwrap();
    let names: Vec<&str> = combos.iter().map(|c| c.name.as_str()).collect();
    assert_eq!(names, vec!["a+x1.json", "a+x2.json", "a+x3.json", "b+x1.json", "b+x2.json", "b+x3.json"]);
    assert_eq!(combos[4].selected[0].label, "b");
    assert_eq!(combos[4].selected[1].label, "x2");
}

#[test]
fn the_first_overlong_name_stops_the_enumeration() {
    let long = "l".repeat(240);
    let factors = vec![vec![layer("a"), layer(&long)], vec![layer("z")]];
    let err = enumerate_combinations(&factors, "-", Format::Json).unwrap_err();
    assert!(matches!(&err, ProductError::NameTooLong { name } if *name == format!("{long}-z.json")));
}
