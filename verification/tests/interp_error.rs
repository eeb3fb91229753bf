use knf::interp_error::{article, Cycle, InterpError, Problem};
use knf::path::Seg;
use knf::scan::Syntax;

fn key(dotted: &str) -> Vec<Seg> {
    dotted.split('.').map(|s| Seg::Key(s.to_string())).collect()
}

#[test]
fn one_kind_renders_as_a_header_and_a_list() {
    let err = InterpError::Problems(vec![
        Problem::Unresolved { path: key("server.url"), reference: "db.hostname".into() },
        Problem::Unresolved { path: vec![Seg::Key("tags".into()), Seg::Index(0)], reference: "env:REGION".into() },
    ]);
    assert_eq!(
        err.to_string(),
        "unresolved reference\n\
         \x20 --> server.url: `db.hostname`\n\
         \x20 --> tags[0]: `env:REGION`"
    );
}

#[test]
fn kinds_group_in_a_fixed_order() {
    let err = InterpError::Problems(vec![
        Problem::NotStringifiable { path: key("url"), reference: "db".into(), kind: "object" },
        Problem::Unresolved { path: key("a"), reference: "nope".into() },
        Problem::Syntax { path: key("b"), error: Syntax::EmptyRef },
    ]);
    assert_eq!(
        err.to_string(),
        "invalid reference\n\
         \x20 --> b: empty reference `${}`\n\
         unresolved reference\n\
         \x20 --> a: `nope`\n\
         reference cannot be rendered into a string\n\
         \x20 --> url: `db` is an object"
    );
}

#[test]
fn a_cycle_reads_as_a_chain() {
    let err = InterpError::Cycle(Cycle::new(vec![key("a"), key("b"), key("a")]));
    assert_eq!(err.to_string(), "reference cycle: `a` -> `b` -> `a`");
}

#[test]
fn articles_match_the_three_possible_kinds() {
    assert_eq!(article("object"), "an");
    assert_eq!(article("array"), "an");
    assert_eq!(article("null"), "a");
}

#[test]
fn a_problem_knows_its_site() {
    let p = Problem::Unresolved { path: key("server.url"), reference: "x".into() };
    assert_eq!(p.path(), key("server.url").as_slice());
}
