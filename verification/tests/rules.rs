use knf::rules::{RuleError, RuleErrors, Rules, Strategy};

fn path(dotted: &str) -> Vec<String> {
    dotted.split('.').map(str::to_string).collect()
}

fn build(rules: &[(&str, Strategy)]) -> Result<Rules, RuleErrors> {
    Rules::build(rules.iter().map(|(p, s)| (path(p), *s)).collect())
}

fn errors(rules: &[(&str, Strategy)]) -> Vec<RuleError> {
    build(rules).expect_err("rule set should be rejected").0
}

#[test]
fn a_rule_is_found_at_its_own_path_only() {
    let rules = build(&[("a.b", Strategy::Append)]).expect("valid");
    let a = rules.child("a").expect("a exists");
    assert_eq!(a.strategy(), None);
    assert_eq!(a.child("b").expect("a.b exists").strategy(), Some(Strategy::Append));
    assert_eq!(a.child("c"), None);
    assert_eq!(rules.child("b"), None);
}

#[test]
fn duplicate_paths_with_one_strategy_are_accepted() {
    let rules = build(&[("db", Strategy::Replace), ("db", Strategy::Replace)]).expect("valid");
    assert_eq!(rules.child("db").expect("db exists").strategy(), Some(Strategy::Replace));
}

#[test]
fn one_path_two_strategies_conflicts_in_both_orders() {
    let forward = errors(&[("db", Strategy::Append), ("db", Strategy::Replace)]);
    let backward = errors(&[("db", Strategy::Replace), ("db", Strategy::Append)]);
    assert_eq!(forward, backward);
    assert_eq!(
        forward,
        [RuleError::Conflict { path: path("db"), strategies: vec![Strategy::Append, Strategy::Replace] }]
    );
}

#[test]
fn a_three_way_conflict_names_every_strategy() {
    let found = build(&[("x", Strategy::Fail), ("x", Strategy::Append), ("x", Strategy::Replace)]).expect_err("rejected");
    assert_eq!(found.to_string(), "conflicting strategies at `x`: `append`, `replace` and `fail`");
}

#[test]
fn a_rule_under_a_terminal_rule_is_unreachable_in_both_orders() {
    let forward = errors(&[("db", Strategy::Replace), ("db.plugins", Strategy::Append)]);
    let backward = errors(&[("db.plugins", Strategy::Append), ("db", Strategy::Replace)]);
    assert_eq!(forward, backward);
    assert_eq!(
        forward,
        [RuleError::Unreachable { path: path("db.plugins"), blocked_by: path("db"), blocker: Strategy::Replace }]
    );
}

#[test]
fn a_sibling_of_a_terminal_rule_is_reachable() {
    build(&[("a.b", Strategy::Replace), ("a.c", Strategy::Append)]).expect("valid");
}

#[test]
fn the_shallowest_terminal_rule_is_the_blocker() {
    let found = errors(&[("a", Strategy::Replace), ("a.b", Strategy::Fail), ("a.b.c", Strategy::Append)]);
    assert_eq!(
        found,
        [
            RuleError::Unreachable { path: path("a.b"), blocked_by: path("a"), blocker: Strategy::Replace },
            RuleError::Unreachable { path: path("a.b.c"), blocked_by: path("a"), blocker: Strategy::Replace },
        ]
    );
}

#[test]
fn multiple_errors_are_reported_sorted_and_order_independently() {
    let rules = [
        ("z.deep", Strategy::Append),
        ("a", Strategy::Fail),
        ("z", Strategy::Replace),
        ("a", Strategy::Append),
    ];
    let mut reversed = rules;
    reversed.reverse();

    let found = build(&rules).expect_err("rejected");
    assert_eq!(found, build(&reversed).expect_err("rejected"));
    assert_eq!(
        found.to_string(),
        "conflicting strategies at `a`: `append` and `fail`\n\
         rule at `z.deep` can never fire: `z` is `replace`, which does not recurse"
    );
}

#[test]
fn a_root_rule_blocks_everything_below_it() {
    let found = Rules::build(vec![(vec![], Strategy::Replace), (path("a"), Strategy::Append)]).expect_err("rejected");
    assert_eq!(found.to_string(), "rule at `a` can never fire: `<root>` is `replace`, which does not recurse");
}

#[test]
fn an_empty_rule_set_has_no_rules() {
    let rules = Rules::empty();
    assert_eq!(rules.strategy(), None);
    assert_eq!(rules.child("a"), None);
}

#[test]
fn a_rule_error_knows_its_path() {
    let found = errors(&[("db", Strategy::Replace), ("db.plugins", Strategy::Append)]);
    assert_eq!(found[0].path(), path("db.plugins").as_slice());
    let all = build(&[("db", Strategy::Replace), ("db", Strategy::Fail)]).expect_err("rejected");
    assert_eq!(all.errors().len(), 1);
}

#[test]
fn strategies_read_as_their_labels() {
    assert_eq!(Strategy::Append.to_string(), "append");
    assert_eq!(Strategy::Replace.to_string(), "replace");
    assert_eq!(Strategy::Fail.to_string(), "fail");
}

#[test]
fn rule_order_gives_the_same_trie() {
    let one = build(&[("db.pool", Strategy::Append), ("server", Strategy::Replace), ("db.host", Strategy::Fail)])
        .expect("valid");
    let two = build(&[("db.host", Strategy::Fail), ("db.pool", Strategy::Append), ("server", Strategy::Replace)])
        .expect("valid");
    assert_eq!(one, two);
}

#[test]
fn rule_order_gives_the_same_errors() {
    let one = errors(&[("a", Strategy::Replace), ("a.b", Strategy::Append), ("c", Strategy::Fail), ("c", Strategy::Append)]);
    let two = errors(&[("c", Strategy::Append), ("a.b", Strategy::Append), ("c", Strategy::Fail), ("a", Strategy::Replace)]);
    assert_eq!(one, two);
}
