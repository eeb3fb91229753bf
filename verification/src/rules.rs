//! Per-path merge strategies.
//!
//! A [`Rules`] set narrows alongside the merge's own descent: one lookup per
//! level, and `None` short-circuits an entire subtree. Children are kept sorted
//! by key so that rule order is meaningless: the whole set is validated by
//! [`Rules::build`] in one pass, so the same rules always produce the same
//! result — and the same errors, in the same order — whatever order they
//! arrived in.

use vstd::prelude::*;
use crate::path::{joined, keys_view, render_keys, rendered_keys};
use crate::text::{chars_lt, lemma_chars_lt_asymmetric, lemma_chars_lt_irreflexive,
    lemma_chars_lt_transitive, lemma_chars_lt_trichotomy, owned, push_str, str_eq, str_lt};
use crate::value::{entries_model, find_key, key_index, lemma_object_model, Value, ValueModel};

verus! {

/// What to do where a layer supplies a value for a path that already has one.
///
/// Every strategy is terminal: it consumes the overlay whole and never
/// recurses. The order of the variants is the tie-break used when reporting
/// conflicts.
#[derive(Debug, Clone, Copy, PartialEq, Eq, PartialOrd, Ord, Hash, Structural)]
pub enum Strategy {
    /// Concatenate base ++ overlay. Both sides must be arrays.
    Append,
    /// Assign wholesale, no recursion, even object over object.
    Replace,
    /// Error. The first layer to define the path pins it.
    Fail,
}

impl Strategy {
    /// How a strategy is spelled in messages.
    pub open spec fn label(self) -> Seq<char> {
        match self {
            Strategy::Append => "append"@,
            Strategy::Replace => "replace"@,
            Strategy::Fail => "fail"@,
        }
    }

    /// The strategy's name, as `Display` would print it.
    pub fn to_string(&self) -> (out: String)
        ensures
            out@ == self.label(),
    {
        match self {
            Strategy::Append => owned("append"),
            Strategy::Replace => owned("replace"),
            Strategy::Fail => owned("fail"),
        }
    }
}

/// A validated set of per-path strategies, shaped as a trie whose children
/// are sorted by key.
#[derive(Debug, PartialEq, Eq)]
pub struct Rules {
    strategy: Option<Strategy>,
    children: Vec<(String, Rules)>,
}

/// What a [`Rules`] trie denotes.
pub struct RulesModel {
    pub strategy: Option<Strategy>,
    pub children: Seq<(Seq<char>, RulesModel)>,
}

impl Rules {
    /// The denotation of this trie.
    pub closed spec fn model(self) -> RulesModel
        decreases self,
    {
        RulesModel {
            strategy: self.strategy,
            children: Seq::new(
                self.children@.len(),
                |i: int|
                    if 0 <= i < self.children@.len() {
                        (self.children@[i].0@, self.children@[i].1.model())
                    } else {
                        (Seq::empty(), RulesModel { strategy: None, children: Seq::empty() })
                    },
            ),
        }
    }
}

impl RulesModel {
    /// Children sorted strictly by key, all the way down.
    pub open spec fn well_formed(self) -> bool
        decreases self,
    {
        &&& forall|i: int, j: int|
            0 <= i < j < self.children.len() ==> chars_lt(
                #[trigger] self.children[i].0,
                #[trigger] self.children[j].0,
            )
        &&& forall|i: int| 0 <= i < self.children.len() ==> (#[trigger] self.children[i]).1.well_formed()
    }

    /// The subtree under `key`, if any.
    pub open spec fn child(self, key: Seq<char>) -> Option<RulesModel> {
        let i = key_index(self.children, key);
        if i >= 0 {
            Some(self.children[i].1)
        } else {
            None
        }
    }

    /// The node at `path`, if the trie has one.
    pub open spec fn node_at(self, path: Seq<Seq<char>>) -> Option<RulesModel>
        decreases path.len(),
    {
        if path.len() == 0 {
            Some(self)
        } else {
            match self.child(path[0]) {
                Some(c) => c.node_at(path.drop_first()),
                None => None,
            }
        }
    }

    /// No node below this one is idle: each names a strategy or has a
    /// child, all the way down.
    pub open spec fn pruned(self) -> bool
        decreases self,
    {
        forall|i: int|
            0 <= i < self.children.len() ==> ((#[trigger] self.children[i]).1.strategy is Some
                || self.children[i].1.children.len() > 0) && self.children[i].1.pruned()
    }

    /// The strategy a rule names exactly at `path`.
    pub open spec fn at(self, path: Seq<Seq<char>>) -> Option<Strategy>
        decreases path.len(),
    {
        if path.len() == 0 {
            self.strategy
        } else {
            match self.child(path[0]) {
                Some(c) => c.at(path.drop_first()),
                None => None,
            }
        }
    }
}

/// The rules as given: each a key path and a strategy.
pub open spec fn rules_view(rules: Seq<(Vec<String>, Strategy)>) -> Seq<(Seq<Seq<char>>, Strategy)> {
    rules.map_values(|r: (Vec<String>, Strategy)| (keys_view(r.0@), r.1))
}

/// Some rule names `path` with `s`.
pub open spec fn names(rules: Seq<(Seq<Seq<char>>, Strategy)>, path: Seq<Seq<char>>, s: Strategy) -> bool {
    exists|i: int| 0 <= i < rules.len() && rules[i].0 == path && rules[i].1 == s
}

/// Some rule names `path`.
pub open spec fn has_rule(rules: Seq<(Seq<Seq<char>>, Strategy)>, path: Seq<Seq<char>>) -> bool {
    exists|i: int| 0 <= i < rules.len() && rules[i].0 == path
}

/// The strategies the rules name at `path`, in [`Strategy`] order.
pub open spec fn strategies_at(rules: Seq<(Seq<Seq<char>>, Strategy)>, path: Seq<Seq<char>>) -> Seq<Strategy> {
    strategy_set(
        names(rules, path, Strategy::Append),
        names(rules, path, Strategy::Replace),
        names(rules, path, Strategy::Fail),
    )
}

/// The strategies flagged, in [`Strategy`] order.
pub open spec fn strategy_set(append: bool, replace: bool, fail: bool) -> Seq<Strategy> {
    (if append { seq![Strategy::Append] } else { Seq::empty() })
        + (if replace { seq![Strategy::Replace] } else { Seq::empty() })
        + (if fail { seq![Strategy::Fail] } else { Seq::empty() })
}

/// The depth of the shallowest rule strictly above `path`, searching from
/// `depth` down.
pub open spec fn blocking_depth_from(
    rules: Seq<(Seq<Seq<char>>, Strategy)>,
    path: Seq<Seq<char>>,
    depth: nat,
) -> Option<nat>
    decreases path.len() - depth,
{
    if depth >= path.len() {
        None
    } else if has_rule(rules, path.take(depth as int)) {
        Some(depth)
    } else {
        blocking_depth_from(rules, path, depth + 1)
    }
}

/// The depth of the shallowest rule strictly above `path`. Every strategy is
/// terminal, so any ancestor rule blocks; the shallowest is the one a walk
/// meets first.
pub open spec fn blocking_depth(rules: Seq<(Seq<Seq<char>>, Strategy)>, path: Seq<Seq<char>>) -> Option<nat> {
    blocking_depth_from(rules, path, 0)
}

/// Why a rule set was rejected, as the paths and strategies involved.
pub enum RuleFault {
    Conflict { path: Seq<Seq<char>>, strategies: Seq<Strategy> },
    Unreachable { path: Seq<Seq<char>>, blocked_by: Seq<Seq<char>>, blocker: Strategy },
}

impl RuleFault {
    pub open spec fn path(self) -> Seq<Seq<char>> {
        match self {
            RuleFault::Conflict { path, .. } => path,
            RuleFault::Unreachable { path, .. } => path,
        }
    }

    /// This fault is what the rules say about its path.
    pub open spec fn holds_for(self, rules: Seq<(Seq<Seq<char>>, Strategy)>) -> bool {
        match self {
            RuleFault::Conflict { path, strategies } => has_rule(rules, path) && strategies
                == strategies_at(rules, path) && strategies.len() > 1,
            RuleFault::Unreachable { path, blocked_by, blocker } => has_rule(rules, path)
                && blocking_depth(rules, path) is Some && blocked_by == path.take(
                blocking_depth(rules, path)->Some_0 as int,
            ) && blocker == strategies_at(rules, blocked_by)[0],
        }
    }
}

/// Lexicographic order over key paths, a strict prefix first.
pub open spec fn path_lt(a: Seq<Seq<char>>, b: Seq<Seq<char>>) -> bool
    decreases a.len(),
{
    if a.len() == 0 {
        b.len() > 0
    } else if b.len() == 0 {
        false
    } else if chars_lt(a[0], b[0]) {
        true
    } else if a[0] == b[0] {
        path_lt(a.drop_first(), b.drop_first())
    } else {
        false
    }
}

/// Faults ordered by path, then a conflict before an unreachable rule.
pub open spec fn faults_sorted(faults: Seq<RuleFault>) -> bool {
    forall|i: int, j: int|
        0 <= i < j < faults.len() ==> path_lt(#[trigger] faults[i].path(), #[trigger] faults[j].path())
            || (faults[i].path() == faults[j].path() && faults[i] is Conflict
            && faults[j] is Unreachable)
}

/// Every fault the rules have is reported: a conflict wherever a path is
/// named with two strategies, an unreachable rule wherever a rule sits below
/// another.
pub open spec fn faults_complete(faults: Seq<RuleFault>, rules: Seq<(Seq<Seq<char>>, Strategy)>) -> bool {
    &&& forall|p: Seq<Seq<char>>|
        has_rule(rules, p) && #[trigger] strategies_at(rules, p).len() > 1 ==> exists|i: int|
            0 <= i < faults.len() && faults[i] is Conflict && #[trigger] faults[i].path() == p
    &&& forall|p: Seq<Seq<char>>|
        has_rule(rules, p) && #[trigger] blocking_depth(rules, p) is Some ==> exists|i: int|
            0 <= i < faults.len() && faults[i] is Unreachable && #[trigger] faults[i].path() == p
}

/// A rule set with no faults.
pub open spec fn rules_valid(rules: Seq<(Seq<Seq<char>>, Strategy)>) -> bool {
    forall|p: Seq<Seq<char>>|
        has_rule(rules, p) ==> #[trigger] strategies_at(rules, p).len() <= 1 && blocking_depth(
            rules,
            p,
        ) is None
}

/// Why a rule set was rejected. Carries key paths and strategies, never a
/// flag name.
#[derive(Debug, PartialEq, Eq)]
pub enum RuleError {
    /// One path, more than one strategy, in [`Strategy`] order.
    Conflict { path: Vec<String>, strategies: Vec<Strategy> },
    /// A rule beneath another rule, which could never fire.
    Unreachable { path: Vec<String>, blocked_by: Vec<String>, blocker: Strategy },
}

impl View for RuleError {
    type V = RuleFault;

    open spec fn view(&self) -> RuleFault {
        match self {
            RuleError::Conflict { path, strategies } => RuleFault::Conflict {
                path: keys_view(path@),
                strategies: strategies@,
            },
            RuleError::Unreachable { path, blocked_by, blocker } => RuleFault::Unreachable {
                path: keys_view(path@),
                blocked_by: keys_view(blocked_by@),
                blocker: *blocker,
            },
        }
    }
}

/// `a`, `b` and `c`, each backticked.
pub open spec fn strategy_list(s: Seq<Strategy>) -> Seq<char>
    decreases s.len(),
{
    if s.len() == 0 {
        Seq::empty()
    } else if s.len() == 1 {
        "`"@ + s[0].label() + "`"@
    } else if s.len() == 2 {
        "`"@ + s[0].label() + "` and `"@ + s[1].label() + "`"@
    } else {
        "`"@ + s[0].label() + "`, "@ + strategy_list(s.drop_first())
    }
}

/// The message a rule fault displays.
pub open spec fn rule_fault_text(f: RuleFault) -> Seq<char> {
    match f {
        RuleFault::Conflict { path, strategies } => "conflicting strategies at `"@ + rendered_keys(path)
            + "`: "@ + strategy_list(strategies),
        RuleFault::Unreachable { path, blocked_by, blocker } => "rule at `"@ + rendered_keys(path)
            + "` can never fire: `"@ + rendered_keys(blocked_by) + "` is `"@ + blocker.label()
            + "`, which does not recurse"@,
    }
}

fn push_strategy_list(out: &mut String, s: &[Strategy])
    ensures
        final(out)@ == old(out)@ + strategy_list(s@),
    decreases s.len(),
{
    if s.len() == 0 {
    } else if s.len() == 1 {
        push_str(out, "`");
        push_str(out, s[0].to_string().as_str());
        push_str(out, "`");
        proof {
            assert(final(out)@ =~= old(out)@ + strategy_list(s@));
        }
    } else if s.len() == 2 {
        push_str(out, "`");
        push_str(out, s[0].to_string().as_str());
        push_str(out, "` and `");
        push_str(out, s[1].to_string().as_str());
        push_str(out, "`");
        proof {
            assert(final(out)@ =~= old(out)@ + strategy_list(s@));
        }
    } else {
        push_str(out, "`");
        push_str(out, s[0].to_string().as_str());
        push_str(out, "`, ");
        let ghost mid = out@;
        let rest = slice_tail(s);
        push_strategy_list(out, rest);
        proof {
            assert(rest@ =~= s@.drop_first());
            assert(final(out)@ =~= old(out)@ + strategy_list(s@));
        }
    }
}

fn slice_tail<T>(s: &[T]) -> (r: &[T])
    requires
        s@.len() > 0,
    ensures
        r@ == s@.drop_first(),
{
    let (_, rest) = s.split_at(1);
    rest
}

impl RuleError {
    /// The path the rule set was rejected at.
    pub fn path(&self) -> (r: &[String])
        ensures
            keys_view(r@) == self@.path(),
    {
        match self {
            RuleError::Conflict { path, .. } => path.as_slice(),
            RuleError::Unreachable { path, .. } => path.as_slice(),
        }
    }

    /// The message, as `Display` would print it.
    pub fn to_string(&self) -> (out: String)
        ensures
            out@ == rule_fault_text(self@),
    {
        match self {
            RuleError::Conflict { path, strategies } => {
                let mut out = owned("conflicting strategies at `");
                push_str(&mut out, render_keys(path.as_slice()).as_str());
                push_str(&mut out, "`: ");
                push_strategy_list(&mut out, strategies.as_slice());
                out
            },
            RuleError::Unreachable { path, blocked_by, blocker } => {
                let mut out = owned("rule at `");
                push_str(&mut out, render_keys(path.as_slice()).as_str());
                push_str(&mut out, "` can never fire: `");
                push_str(&mut out, render_keys(blocked_by.as_slice()).as_str());
                push_str(&mut out, "` is `");
                push_str(&mut out, blocker.to_string().as_str());
                push_str(&mut out, "`, which does not recurse");
                out
            },
        }
    }
}

/// Every problem with a rule set, sorted by path.
#[derive(Debug, PartialEq, Eq)]
pub struct RuleErrors(pub Vec<RuleError>);

/// The errors' faults, in order.
pub open spec fn faults_view(errors: Seq<RuleError>) -> Seq<RuleFault> {
    errors.map_values(|e: RuleError| e@)
}

/// The messages joined by newlines.
pub open spec fn faults_text(faults: Seq<RuleFault>) -> Seq<char>
    decreases faults.len(),
{
    if faults.len() == 0 {
        Seq::empty()
    } else if faults.len() == 1 {
        rule_fault_text(faults[0])
    } else {
        faults_text(faults.drop_last()).push('\n') + rule_fault_text(faults.last())
    }
}

impl RuleErrors {
    /// Every error, sorted.
    pub fn errors(&self) -> (r: &[RuleError])
        ensures
            r@ == self.0@,
    {
        self.0.as_slice()
    }

    /// The messages one per line, as `Display` would print them.
    pub fn to_string(&self) -> (out: String)
        ensures
            out@ == faults_text(faults_view(self.0@)),
    {
        let mut out = String::new();
        let mut i: usize = 0;
        while i < self.0.len()
            invariant
                i <= self.0@.len(),
                out@ == faults_text(faults_view(self.0@.take(i as int))),
            decreases self.0.len() - i,
        {
            proof {
                assert(faults_view(self.0@.take(i + 1)).drop_last() =~= faults_view(self.0@.take(i as int)));
            }
            if i > 0 {
                out.push('\n');
            }
            let text = self.0[i].to_string();
            push_str(&mut out, text.as_str());
            i += 1;
            proof {
                let v = faults_view(self.0@.take(i as int));
                assert(v.last() == self.0@[i - 1]@);
                if i == 1 {
                    assert(faults_text(v) == rule_fault_text(v[0]));
                }
                assert(out@ =~= faults_text(v));
            }
        }
        proof {
            assert(self.0@.take(self.0@.len() as int) =~= self.0@);
        }
        out
    }
}

// --- ordering -------------------------------------------------------------

pub proof fn lemma_path_lt_irreflexive(a: Seq<Seq<char>>)
    ensures
        !path_lt(a, a),
    decreases a.len(),
{
    if a.len() > 0 {
        lemma_chars_lt_irreflexive(a[0]);
        lemma_path_lt_irreflexive(a.drop_first());
    }
}

pub proof fn lemma_path_lt_trichotomy(a: Seq<Seq<char>>, b: Seq<Seq<char>>)
    ensures
        path_lt(a, b) || path_lt(b, a) || a == b,
    decreases a.len(),
{
    if a.len() > 0 && b.len() > 0 {
        lemma_chars_lt_trichotomy(a[0], b[0]);
        if a[0] == b[0] {
            lemma_path_lt_trichotomy(a.drop_first(), b.drop_first());
            if a.drop_first() == b.drop_first() {
                assert(a =~= seq![a[0]] + a.drop_first());
                assert(b =~= seq![b[0]] + b.drop_first());
            }
        }
    } else if a.len() == 0 && b.len() == 0 {
        assert(a =~= b);
    }
}

pub proof fn lemma_path_lt_asymmetric(a: Seq<Seq<char>>, b: Seq<Seq<char>>)
    requires
        path_lt(a, b),
    ensures
        !path_lt(b, a),
        a != b,
    decreases a.len(),
{
    if a.len() > 0 && b.len() > 0 {
        if chars_lt(a[0], b[0]) {
            lemma_chars_lt_asymmetric(a[0], b[0]);
        } else if a[0] == b[0] {
            lemma_chars_lt_irreflexive(a[0]);
            lemma_path_lt_asymmetric(a.drop_first(), b.drop_first());
        }
    }
    if a == b {
        lemma_path_lt_irreflexive(a);
    }
}

pub proof fn lemma_path_lt_transitive(a: Seq<Seq<char>>, b: Seq<Seq<char>>, c: Seq<Seq<char>>)
    requires
        path_lt(a, b),
        path_lt(b, c),
    ensures
        path_lt(a, c),
    decreases a.len(),
{
    if a.len() > 0 && b.len() > 0 && c.len() > 0 {
        if chars_lt(a[0], b[0]) {
            if chars_lt(b[0], c[0]) {
                lemma_chars_lt_transitive(a[0], b[0], c[0]);
            }
        } else if a[0] == b[0] {
            if a[0] == c[0] {
                lemma_path_lt_transitive(a.drop_first(), b.drop_first(), c.drop_first());
            }
        }
    }
}

/// A strict prefix sorts first.
pub proof fn lemma_prefix_first(p: Seq<Seq<char>>, d: int)
    requires
        0 <= d < p.len(),
    ensures
        path_lt(p.take(d), p),
    decreases d,
{
    if d > 0 {
        lemma_prefix_first(p.drop_first(), d - 1);
        assert(p.take(d).drop_first() =~= p.drop_first().take(d - 1));
        lemma_chars_lt_irreflexive(p[0]);
    }
}

/// Decides `path_lt`.
fn keys_lt(a: &[String], b: &[String]) -> (r: bool)
    ensures
        r == path_lt(keys_view(a@), keys_view(b@)),
{
    let mut i: usize = 0;
    proof {
        assert(keys_view(a@).skip(0) =~= keys_view(a@));
        assert(keys_view(b@).skip(0) =~= keys_view(b@));
    }
    while i < a.len() && i < b.len() && a[i] == b[i]
        invariant
            i <= a@.len(),
            i <= b@.len(),
            path_lt(keys_view(a@), keys_view(b@)) == path_lt(
                keys_view(a@).skip(i as int),
                keys_view(b@).skip(i as int),
            ),
        decreases a.len() - i,
    {
        proof {
            let x = keys_view(a@).skip(i as int);
            let y = keys_view(b@).skip(i as int);
            assert(x.drop_first() =~= keys_view(a@).skip(i + 1));
            assert(y.drop_first() =~= keys_view(b@).skip(i + 1));
            lemma_chars_lt_irreflexive(x[0]);
        }
        i += 1;
    }
    proof {
        let x = keys_view(a@).skip(i as int);
        let y = keys_view(b@).skip(i as int);
        if i < a@.len() && i < b@.len() {
            assert(x[0] == a@[i as int]@);
            assert(y[0] == b@[i as int]@);
            if chars_lt(x[0], y[0]) {
                lemma_chars_lt_asymmetric(x[0], y[0]);
            }
        }
    }
    if i == a.len() {
        i < b.len()
    } else if i == b.len() {
        false
    } else {
        str_lt(a[i].as_str(), b[i].as_str())
    }
}

/// Decides equality of key paths.
fn keys_eq(a: &[String], b: &[String]) -> (r: bool)
    ensures
        r == (keys_view(a@) == keys_view(b@)),
{
    if a.len() != b.len() {
        proof {
            assert(keys_view(a@).len() != keys_view(b@).len());
        }
        return false;
    }
    let mut i: usize = 0;
    while i < a.len()
        invariant
            a@.len() == b@.len(),
            i <= a@.len(),
            forall|j: int| 0 <= j < i ==> a@[j]@ == b@[j]@,
        decreases a.len() - i,
    {
        if a[i] != b[i] {
            proof {
                assert(keys_view(a@)[i as int] != keys_view(b@)[i as int]);
            }
            return false;
        }
        i += 1;
    }
    proof {
        assert(keys_view(a@) =~= keys_view(b@));
    }
    true
}

/// Whether `q` is exactly the first `depth` keys of `p`.
fn is_prefix_at(q: &[String], p: &[String], depth: usize) -> (r: bool)
    requires
        depth <= p@.len(),
    ensures
        r == (keys_view(q@) == keys_view(p@).take(depth as int)),
{
    if q.len() != depth {
        proof {
            assert(keys_view(q@).len() != keys_view(p@).take(depth as int).len());
        }
        return false;
    }
    let mut i: usize = 0;
    while i < depth
        invariant
            q@.len() == depth <= p@.len(),
            i <= depth,
            forall|j: int| 0 <= j < i ==> q@[j]@ == p@[j]@,
        decreases depth - i,
    {
        if q[i] != p[i] {
            proof {
                assert(keys_view(q@)[i as int] != keys_view(p@).take(depth as int)[i as int]);
            }
            return false;
        }
        i += 1;
    }
    proof {
        assert(keys_view(q@) =~= keys_view(p@).take(depth as int));
    }
    true
}

// --- building -------------------------------------------------------------

/// One distinct path and which strategies name it.
struct Group {
    path: Vec<String>,
    append: bool,
    replace: bool,
    fail: bool,
}

impl Group {
    spec fn set(self) -> Seq<Strategy> {
        strategy_set(self.append, self.replace, self.fail)
    }
}

/// The groups are strictly sorted by path, and each records exactly the
/// strategies `rules` name at its path; every named path has a group.
spec fn groups_match(groups: Seq<Group>, rules: Seq<(Seq<Seq<char>>, Strategy)>) -> bool {
    &&& groups_sorted(groups)
    &&& groups_flags(groups, rules)
    &&& groups_cover(groups, rules)
}

/// Strictly sorted by path.
spec fn groups_sorted(groups: Seq<Group>) -> bool {
    forall|i: int, j: int|
        0 <= i < j < groups.len() ==> path_lt(
            keys_view(#[trigger] groups[i].path@),
            keys_view(#[trigger] groups[j].path@),
        )
}

/// Each group records exactly the strategies the rules name at its path.
spec fn groups_flags(groups: Seq<Group>, rules: Seq<(Seq<Seq<char>>, Strategy)>) -> bool {
    forall|i: int|
        0 <= i < groups.len() ==> {
            let p = keys_view(#[trigger] groups[i].path@);
            &&& has_rule(rules, p)
            &&& groups[i].append == names(rules, p, Strategy::Append)
            &&& groups[i].replace == names(rules, p, Strategy::Replace)
            &&& groups[i].fail == names(rules, p, Strategy::Fail)
        }
}

/// Every named path has a group.
spec fn groups_cover(groups: Seq<Group>, rules: Seq<(Seq<Seq<char>>, Strategy)>) -> bool {
    forall|k: int| 0 <= k < rules.len() ==> #[trigger] has_group(groups, rules[k].0)
}

/// Some group has path `p`.
spec fn has_group(groups: Seq<Group>, p: Seq<Seq<char>>) -> bool {
    exists|i: int| 0 <= i < groups.len() && keys_view(#[trigger] groups[i].path@) == p
}

proof fn lemma_names_push(
    rules: Seq<(Seq<Seq<char>>, Strategy)>,
    r: (Seq<Seq<char>>, Strategy),
    p: Seq<Seq<char>>,
    s: Strategy,
)
    ensures
        names(rules.push(r), p, s) == (names(rules, p, s) || (r.0 == p && r.1 == s)),
        has_rule(rules.push(r), p) == (has_rule(rules, p) || r.0 == p),
{
    let all = rules.push(r);
    if names(rules, p, s) {
        let i = choose|i: int| 0 <= i < rules.len() && rules[i].0 == p && rules[i].1 == s;
        assert(all[i] == rules[i]);
    }
    if has_rule(rules, p) {
        let i = choose|i: int| 0 <= i < rules.len() && rules[i].0 == p;
        assert(all[i] == rules[i]);
    }
    if r.0 == p {
        assert(all[rules.len() as int] == r);
    }
    if names(all, p, s) {
        let i = choose|i: int| 0 <= i < all.len() && all[i].0 == p && all[i].1 == s;
        if i < rules.len() {
            assert(rules[i] == all[i]);
        }
    }
    if has_rule(all, p) {
        let i = choose|i: int| 0 <= i < all.len() && all[i].0 == p;
        if i < rules.len() {
            assert(rules[i] == all[i]);
        }
    }
}

/// Groups the rules by path, sorted, as a `BTreeMap<path, set>` would.
fn group_rules(rules: &Vec<(Vec<String>, Strategy)>) -> (groups: Vec<Group>)
    ensures
        groups_match(groups@, rules_view(rules@)),
{
    let mut groups: Vec<Group> = Vec::new();
    let mut k: usize = 0;
    while k < rules.len()
        invariant
            k <= rules@.len(),
            groups_match(groups@, rules_view(rules@.take(k as int))),
        decreases rules.len() - k,
    {
        let ghost before = rules_view(rules@.take(k as int));
        proof {
            assert(rules_view(rules@.take(k + 1)) =~= before.push(
                (keys_view(rules@[k as int].0@), rules@[k as int].1),
            ));
        }
        add_rule(&mut groups, rules[k].0.as_slice(), rules[k].1, Ghost(before));
        k += 1;
    }
    proof {
        assert(rules@.take(rules@.len() as int) =~= rules@);
    }
    groups
}

/// Records one more rule in the sorted groups.
fn add_rule(
    groups: &mut Vec<Group>,
    path: &[String],
    s: Strategy,
    Ghost(before): Ghost<Seq<(Seq<Seq<char>>, Strategy)>>,
)
    requires
        groups_match(old(groups)@, before),
    ensures
        groups_match(final(groups)@, before.push((keys_view(path@), s))),
{
    let ghost r = (keys_view(path@), s);
    let ghost og = groups@;
    let mut j: usize = 0;
    loop
        invariant
            j <= groups@.len(),
            groups@ == og,
            r.0 == keys_view(path@),
            forall|i: int| 0 <= i < j ==> path_lt(keys_view(#[trigger] groups@[i].path@), r.0),
        ensures
            j <= groups@.len(),
            groups@ == og,
            forall|i: int| 0 <= i < j ==> path_lt(keys_view(#[trigger] groups@[i].path@), r.0),
            j < groups@.len() ==> !path_lt(keys_view(groups@[j as int].path@), r.0),
        decreases groups.len() - j,
    {
        if j >= groups.len() {
            break;
        }
        if !keys_lt(groups[j].path.as_slice(), path) {
            break;
        }
        j += 1;
    }
    if j < groups.len() && keys_eq(groups[j].path.as_slice(), path) {
        let g2 = Group {
            path: clone_keys(groups[j].path.as_slice()),
            append: groups[j].append || s == Strategy::Append,
            replace: groups[j].replace || s == Strategy::Replace,
            fail: groups[j].fail || s == Strategy::Fail,
        };
        groups.set(j, g2);
        proof {
            lemma_add_existing(og, groups@, j as int, g2, before, r);
        }
    } else {
        let g = Group {
            path: clone_keys(path),
            append: s == Strategy::Append,
            replace: s == Strategy::Replace,
            fail: s == Strategy::Fail,
        };
        groups.insert(j, g);
        proof {
            lemma_add_new(og, groups@, j as int, g, before, r);
        }
    }
}

/// Adding a rule whose path already has a group sets one more flag on it.
proof fn lemma_add_existing(
    og: Seq<Group>,
    ng: Seq<Group>,
    j: int,
    g2: Group,
    before: Seq<(Seq<Seq<char>>, Strategy)>,
    r: (Seq<Seq<char>>, Strategy),
)
    requires
        groups_match(og, before),
        0 <= j < og.len(),
        keys_view(og[j].path@) == r.0,
        keys_view(g2.path@) == r.0,
        g2.append == (og[j].append || r.1 == Strategy::Append),
        g2.replace == (og[j].replace || r.1 == Strategy::Replace),
        g2.fail == (og[j].fail || r.1 == Strategy::Fail),
        ng == og.update(j, g2),
    ensures
        groups_match(ng, before.push(r)),
{
    let after = before.push(r);
        assert forall|x: int| 0 <= x < ng.len() implies keys_view(#[trigger] ng[x].path@)
        == keys_view(og[x].path@) by {
    }
    assert forall|a: int, b: int| 0 <= a < b < ng.len() implies path_lt(
        keys_view(#[trigger] ng[a].path@),
        keys_view(#[trigger] ng[b].path@),
    ) by {
        assert(keys_view(ng[a].path@) == keys_view(og[a].path@));
        assert(keys_view(ng[b].path@) == keys_view(og[b].path@));
    }
    assert forall|i: int| 0 <= i < ng.len() implies {
        let p = keys_view(#[trigger] ng[i].path@);
        &&& has_rule(after, p)
        &&& ng[i].append == names(after, p, Strategy::Append)
        &&& ng[i].replace == names(after, p, Strategy::Replace)
        &&& ng[i].fail == names(after, p, Strategy::Fail)
    } by {
        let p = keys_view(ng[i].path@);
        assert(p == keys_view(og[i].path@));
        lemma_names_push(before, r, p, Strategy::Append);
        lemma_names_push(before, r, p, Strategy::Replace);
        lemma_names_push(before, r, p, Strategy::Fail);
        if i < j {
            lemma_path_lt_asymmetric(keys_view(og[i].path@), keys_view(og[j].path@));
        } else if i > j {
            lemma_path_lt_asymmetric(keys_view(og[j].path@), keys_view(og[i].path@));
        }
    }
    assert forall|m: int| 0 <= m < after.len() implies #[trigger] has_group(ng, after[m].0) by {
        if m < before.len() {
            assert(after[m] == before[m]);
            assert(has_group(og, before[m].0));
            let i = choose|i: int| 0 <= i < og.len() && keys_view(#[trigger] og[i].path@) == before[m].0;
            assert(keys_view(ng[i].path@) == keys_view(og[i].path@));
        } else {
            assert(keys_view(ng[j].path@) == after[m].0);
        }
    }
    assert(groups_sorted(ng));
    assert(groups_flags(ng, after));
    assert(groups_cover(ng, after));
}

/// Adding a rule whose path has no group inserts one where it sorts.
proof fn lemma_add_new(
    og: Seq<Group>,
    ng: Seq<Group>,
    j: int,
    g: Group,
    before: Seq<(Seq<Seq<char>>, Strategy)>,
    r: (Seq<Seq<char>>, Strategy),
)
    requires
        groups_match(og, before),
        0 <= j <= og.len(),
        forall|i: int| 0 <= i < j ==> path_lt(keys_view(#[trigger] og[i].path@), r.0),
        j < og.len() ==> !path_lt(keys_view(og[j].path@), r.0),
        j < og.len() ==> keys_view(og[j].path@) != r.0,
        keys_view(g.path@) == r.0,
        g.append == (r.1 == Strategy::Append),
        g.replace == (r.1 == Strategy::Replace),
        g.fail == (r.1 == Strategy::Fail),
        ng == og.insert(j, g),
    ensures
        groups_match(ng, before.push(r)),
{
    let after = before.push(r);
        if j < og.len() {
        lemma_path_lt_trichotomy(keys_view(og[j].path@), r.0);
    }
    assert forall|a: int, b: int| 0 <= a < b < ng.len() implies path_lt(
        keys_view(#[trigger] ng[a].path@),
        keys_view(#[trigger] ng[b].path@),
    ) by {
        if b == j {
            assert(ng[a] == og[a]);
            assert(ng[j] == g);
            assert(path_lt(keys_view(og[a].path@), r.0));
        } else if a == j {
            assert(ng[j] == g);
            assert(ng[b] == og[b - 1]);
            if b - 1 > j {
                assert(path_lt(keys_view(og[j].path@), keys_view(og[b - 1].path@)));
                lemma_path_lt_transitive(r.0, keys_view(og[j].path@), keys_view(og[b - 1].path@));
            }
        } else if a < j && b > j {
            assert(ng[a] == og[a]);
            assert(ng[b] == og[b - 1]);
            assert(path_lt(keys_view(og[a].path@), keys_view(og[b - 1].path@)));
        } else if b < j {
            assert(ng[a] == og[a]);
            assert(ng[b] == og[b]);
            assert(path_lt(keys_view(og[a].path@), keys_view(og[b].path@)));
        } else {
            assert(ng[a] == og[a - 1]);
            assert(ng[b] == og[b - 1]);
            assert(path_lt(keys_view(og[a - 1].path@), keys_view(og[b - 1].path@)));
        }
    }
    assert forall|i: int| 0 <= i < ng.len() implies {
        let p = keys_view(#[trigger] ng[i].path@);
        &&& has_rule(after, p)
        &&& ng[i].append == names(after, p, Strategy::Append)
        &&& ng[i].replace == names(after, p, Strategy::Replace)
        &&& ng[i].fail == names(after, p, Strategy::Fail)
    } by {
        let p = keys_view(ng[i].path@);
        lemma_names_push(before, r, p, Strategy::Append);
        lemma_names_push(before, r, p, Strategy::Replace);
        lemma_names_push(before, r, p, Strategy::Fail);
        if i != j {
            let o = if i < j { i } else { i - 1 };
            assert(ng[i] == og[o]);
            if o < j {
                lemma_path_lt_asymmetric(keys_view(og[o].path@), r.0);
            } else {
                if o > j {
                    lemma_path_lt_transitive(r.0, keys_view(og[j].path@), keys_view(og[o].path@));
                }
                lemma_path_lt_asymmetric(r.0, keys_view(og[o].path@));
            }
        } else {
            assert(p == r.0);
            if has_rule(before, p) {
                let m = choose|m: int| 0 <= m < before.len() && before[m].0 == p;
                assert(has_group(og, before[m].0));
            let o = choose|o: int| 0 <= o < og.len() && keys_view(#[trigger] og[o].path@) == before[m].0;
                if o < j {
                    lemma_path_lt_irreflexive(r.0);
                } else if o > j {
                    lemma_path_lt_transitive(r.0, keys_view(og[j].path@), keys_view(og[o].path@));
                    lemma_path_lt_irreflexive(r.0);
                }
            }
            lemma_names_has_rule(before, p, Strategy::Append);
            lemma_names_has_rule(before, p, Strategy::Replace);
            lemma_names_has_rule(before, p, Strategy::Fail);
        }
    }
    assert forall|m: int| 0 <= m < after.len() implies #[trigger] has_group(ng, after[m].0) by {
        if m < before.len() {
            assert(after[m] == before[m]);
            assert(has_group(og, before[m].0));
            let o = choose|o: int| 0 <= o < og.len() && keys_view(#[trigger] og[o].path@) == before[m].0;
            let i = if o < j { o } else { o + 1 };
            assert(ng[i] == og[o]);
        } else {
            assert(keys_view(ng[j].path@) == after[m].0);
        }
    }
    assert(groups_sorted(ng));
    assert(groups_flags(ng, after));
    assert(groups_cover(ng, after));
}

/// A path named with some strategy has a rule.
proof fn lemma_names_has_rule(rules: Seq<(Seq<Seq<char>>, Strategy)>, p: Seq<Seq<char>>, s: Strategy)
    ensures
        names(rules, p, s) ==> has_rule(rules, p),
{
    if names(rules, p, s) {
        let m = choose|m: int| 0 <= m < rules.len() && rules[m].0 == p && rules[m].1 == s;
    }
}

/// A path with a rule is named with at least one strategy.
proof fn lemma_has_rule_named(rules: Seq<(Seq<Seq<char>>, Strategy)>, p: Seq<Seq<char>>)
    requires
        has_rule(rules, p),
    ensures
        strategies_at(rules, p).len() >= 1,
{
    let m = choose|m: int| 0 <= m < rules.len() && rules[m].0 == p;
    match rules[m].1 {
        Strategy::Append => assert(names(rules, p, Strategy::Append)),
        Strategy::Replace => assert(names(rules, p, Strategy::Replace)),
        Strategy::Fail => assert(names(rules, p, Strategy::Fail)),
    }
}

/// A copy of the keys.
pub fn clone_keys(keys: &[String]) -> (out: Vec<String>)
    ensures
        keys_view(out@) == keys_view(keys@),
{
    let mut out: Vec<String> = Vec::new();
    let mut i: usize = 0;
    while i < keys.len()
        invariant
            i <= keys@.len(),
            keys_view(out@) == keys_view(keys@.take(i as int)),
        decreases keys.len() - i,
    {
        let ghost prev = out@;
        out.push(keys[i].clone());
        proof {
            assert(keys_view(out@) =~= keys_view(prev).push(keys@[i as int]@));
            assert(keys_view(keys@.take(i + 1)) =~= keys_view(keys@.take(i as int)).push(keys@[i as int]@));
        }
        i += 1;
    }
    proof {
        assert(keys@.take(keys@.len() as int) =~= keys@);
    }
    out
}

fn strategies_of(append: bool, replace: bool, fail: bool) -> (out: Vec<Strategy>)
    ensures
        out@ == strategy_set(append, replace, fail),
{
    let mut out: Vec<Strategy> = Vec::new();
    if append {
        out.push(Strategy::Append);
    }
    if replace {
        out.push(Strategy::Replace);
    }
    if fail {
        out.push(Strategy::Fail);
    }
    proof {
        assert(out@ =~= strategy_set(append, replace, fail));
    }
    out
}

/// The first `fail` rule strictly below a node whose path `base` has a value
/// at, as the path below the node. A layer that replaces `base` wholesale
/// would overwrite that value without ever visiting the rule.
pub open spec fn lock_below(r: RulesModel, base: ValueModel) -> Option<Seq<Seq<char>>>
    decreases r,
{
    match base {
        ValueModel::Object(be) => lock_in(r.children, be),
        _ => None,
    }
}

/// [`lock_below`] over a node's children, in key order.
pub open spec fn lock_in(children: Seq<(Seq<char>, RulesModel)>, be: Seq<(Seq<char>, ValueModel)>) -> Option<Seq<Seq<char>>>
    decreases children,
{
    if children.len() == 0 {
        None
    } else {
        let k = children[0].0;
        let i = key_index(be, k);
        let here = if i < 0 {
            None
        } else if children[0].1.strategy == Some(Strategy::Fail) {
            Some(seq![k])
        } else if children[0].1.strategy is None {
            proof {
                assert(decreases_to!(children => children[0]));
            }
            match lock_below(children[0].1, be[i].1) {
                Some(q) => Some(seq![k] + q),
                None => None,
            }
        } else {
            None
        };
        if here is Some {
            here
        } else {
            lock_in(children.drop_first(), be)
        }
    }
}

impl Rules {
    /// No rules at all: the default merge everywhere.
    pub fn empty() -> (r: Rules)
        ensures
            r.model().strategy is None,
            r.model().children.len() == 0,
            r.model().well_formed(),
    {
        let r = Rules { strategy: None, children: Vec::new() };
        proof {
            assert(r.model().children.len() == 0);
        }
        r
    }

    /// The subtree of rules under `key`, or `None` if nothing is nested there.
    pub fn child(&self, key: &str) -> (r: Option<&Rules>)
        ensures
            match self.model().child(key@) {
                Some(c) => r is Some && r->Some_0.model() == c,
                None => r is None,
            },
    {
        let mut i: usize = 0;
        while i < self.children.len()
            invariant
                i <= self.children@.len(),
                key_index(self.model().children, key@) == -1 || key_index(self.model().children, key@) >= i,
                forall|j: int| 0 <= j < i ==> self.children@[j].0@ != key@,
            decreases self.children.len() - i,
        {
            proof {
                crate::value::lemma_key_index(self.model().children, key@);
                assert(self.model().children[i as int].0 == self.children@[i as int].0@);
            }
            if str_eq(self.children[i].0.as_str(), key) {
                proof {
                    assert(key_index(self.model().children, key@) == i);
                }
                return Some(&self.children[i].1);
            }
            i += 1;
        }
        proof {
            crate::value::lemma_key_index(self.model().children, key@);
            if key_index(self.model().children, key@) >= 0 {
                let k = key_index(self.model().children, key@);
                assert(self.model().children[k].0 == self.children@[k].0@);
            }
        }
        None
    }

    /// The path, below this node, of the first `fail` rule whose path `base`
    /// has a value at.
    pub fn first_lock(&self, base: &Value) -> (r: Option<Vec<String>>)
        ensures
            match r {
                Some(q) => lock_below(self.model(), base.model()) == Some(keys_view(q@)),
                None => lock_below(self.model(), base.model()) is None,
            },
        decreases self,
    {
        match base {
            Value::Object(entries) => {
                let ghost em = entries_model(entries@);
                let ghost ch = self.model().children;
                proof {
                    lemma_object_model(*entries);
                    assert(ch.skip(0) =~= ch);
                }
                let mut i: usize = 0;
                while i < self.children.len()
                    invariant
                        i <= self.children@.len(),
                        ch == self.model().children,
                        em == entries_model(entries@),
                        base.model() == ValueModel::Object(em),
                        lock_below(self.model(), base.model()) == lock_in(ch.skip(i as int), em),
                    decreases self.children.len() - i,
                {
                    let ghost rest = ch.skip(i as int);
                    proof {
                        assert(rest[0] == ch[i as int]);
                        assert(ch[i as int] == (self.children@[i as int].0@, self.children@[i as int].1.model()));
                        assert(rest.drop_first() =~= ch.skip(i + 1));
                    }
                    let key = &self.children[i].0;
                    let child = &self.children[i].1;
                    let found = find_key(entries, key.as_str());
                    proof {
                        crate::value::lemma_key_index(em, key@);
                    }
                    match found {
                        Some(bi) => {
                            match child.strategy {
                                Some(Strategy::Fail) => {
                                    let mut out: Vec<String> = Vec::new();
                                    out.push(key.clone());
                                    proof {
                                        assert(keys_view(out@) =~= seq![key@]);
                                    }
                                    return Some(out);
                                },
                                None => {
                                    proof {
                                        assert(decreases_to!(self => self.children@[i as int].1));
                                        assert(em[bi as int].1 == entries@[bi as int].1.model());
                                    }
                                    match child.first_lock(&entries[bi].1) {
                                        Some(q) => {
                                            let mut out = q;
                                            let ghost qv = out@;
                                            out.insert(0, key.clone());
                                            proof {
                                                assert(keys_view(out@) =~= seq![key@] + keys_view(qv));
                                            }
                                            return Some(out);
                                        },
                                        None => {},
                                    }
                                },
                                _ => {},
                            }
                        },
                        None => {},
                    }
                    i += 1;
                }
                proof {
                    assert(ch.skip(i as int).len() == 0);
                }
                None
            },
            _ => None,
        }
    }

    /// The strategy at this node, if a rule names it exactly.
    pub fn strategy(&self) -> (r: Option<Strategy>)
        ensures
            r == self.model().strategy,
    {
        self.strategy
    }

    /// Validates a whole rule set at once and builds the trie.
    ///
    /// A duplicate path with the same strategy is accepted; only differing
    /// strategies conflict, and a rule below another can never fire. Every
    /// such fault is reported, sorted by path.
    pub fn build(rules: Vec<(Vec<String>, Strategy)>) -> (r: Result<Rules, RuleErrors>)
        ensures
            r is Ok <==> rules_valid(rules_view(rules@)),
            r is Ok ==> r->Ok_0.model().well_formed() && forall|p: Seq<Seq<char>>|
                #[trigger] r->Ok_0.model().at(p) == if has_rule(rules_view(rules@), p) {
                    Some(strategies_at(rules_view(rules@), p)[0])
                } else {
                    None
                },
            r is Ok ==> r->Ok_0.model().pruned(),
            r is Ok ==> forall|p: Seq<Seq<char>>|
                p.len() > 0 && (#[trigger] r->Ok_0.model().node_at(p)) is Some ==> exists|q: Seq<Seq<char>>|
                    has_rule(rules_view(rules@), #[trigger] (p + q)),
            r is Err ==> {
                let faults = faults_view(r->Err_0.0@);
                &&& faults.len() > 0
                &&& forall|i: int| 0 <= i < faults.len() ==> #[trigger] faults[i].holds_for(
                    rules_view(rules@),
                )
                &&& faults_complete(faults, rules_view(rules@))
                &&& faults_sorted(faults)
            },
    {
        let groups = group_rules(&rules);
        let ghost input = rules_view(rules@);
        let errors = collect_faults(&groups, Ghost(input));
        if errors.len() > 0 {
            return Err(RuleErrors(errors));
        }
        let root = build_trie(&groups, Ghost(input));
        proof {
            assert forall|p: Seq<Seq<char>>|
                p.len() > 0 && (#[trigger] root.model().node_at(p)) is Some implies exists|q: Seq<Seq<char>>|
                    has_rule(input, #[trigger] (p + q)) by {
                lemma_nodes_lead_to_strategies(root.model(), p);
                let q = choose|q: Seq<Seq<char>>| #[trigger] root.model().at(p + q) is Some;
                assert(has_rule(input, p + q));
            }
        }
        Ok(root)
    }

    /// Sets the strategy at `path`, creating nodes on the way.
    fn insert(&mut self, path: &[String], strategy: Strategy)
        requires
            old(self).model().well_formed(),
        ensures
            final(self).model().well_formed(),
            old(self).model().pruned() ==> final(self).model().pruned(),
            path@.len() == 0 ==> final(self).model().strategy is Some,
            path@.len() > 0 ==> final(self).model().children.len() > 0,
            forall|q: Seq<Seq<char>>| #[trigger] final(self).model().at(q) == if q == keys_view(path@) {
                Some(strategy)
            } else {
                old(self).model().at(q)
            },
        decreases path.len(),
    {
        if path.len() == 0 {
            self.strategy = Some(strategy);
            proof {
                assert forall|q: Seq<Seq<char>>| #[trigger] final(self).model().at(q) == if q == keys_view(path@) {
                    Some(strategy)
                } else {
                    old(self).model().at(q)
                } by {
                    if q.len() == 0 {
                        assert(q =~= keys_view(path@));
                    }
                    assert(final(self).model().children =~= old(self).model().children);
                }
                assert(final(self).model().children =~= old(self).model().children);
            }
            return;
        }
        let key = &path[0];
        let rest = slice_tail(path);
        let mut j: usize = 0;
        while j < self.children.len() && str_lt(self.children[j].0.as_str(), key.as_str())
            invariant
                j <= self.children@.len(),
                forall|i: int| 0 <= i < j ==> chars_lt(#[trigger] self.children@[i].0@, key@),
            decreases self.children.len() - j,
        {
            j += 1;
        }
        let ghost old_model = self.model();
        let ghost oc = self.children@;
        proof {
            assert(old_model.well_formed());
            assert(forall|i: int| 0 <= i < oc.len() ==> #[trigger] old_model.children[i] == (oc[i].0@, oc[i].1.model()));
        }
        let found = j < self.children.len() && str_eq(self.children[j].0.as_str(), key.as_str());
        proof {
            if j < oc.len() {
                assert(old_model.children[j as int].0 == oc[j as int].0@);
                if !found {
                    lemma_chars_lt_trichotomy(key@, old_model.children[j as int].0);
                }
            }
        }
        let (k, mut node) = if found {
            self.children.remove(j)
        } else {
            (key.clone(), Rules::empty())
        };
        proof {
            if found {
                assert((k, node) == oc[j as int]);
                assert(node.model() == old_model.children[j as int].1);
                lemma_child_well_formed(old_model, j as int);
            }
        }
        let ghost node_before = node.model();
        node.insert(rest, strategy);
        let ghost kn = (k, node);
        self.children.insert(j, (k, node));
        proof {
            if found {
                assert(self.children@ =~= oc.update(j as int, kn));
            } else {
                assert(self.children@ =~= oc.insert(j as int, kn));
            }
            let entry = (key@, kn.1.model());
            let nm = self.model().children;
            let om = old_model.children;
            assert(forall|i: int| 0 <= i < self.children@.len() ==> #[trigger] nm[i] == (self.children@[i].0@, self.children@[i].1.model()));
            if found {
                assert(nm =~= om.update(j as int, entry));
            } else {
                assert(nm =~= om.insert(j as int, entry));
            }
            assert(forall|i: int| 0 <= i < j ==> chars_lt(#[trigger] om[i].0, key@));
            assert forall|i: int| 0 <= i < om.len() implies #[trigger] om[i].1.well_formed() by {
                lemma_child_well_formed(old_model, i);
            }
            assert(nm == if found { om.update(j as int, entry) } else { om.insert(j as int, entry) });
            lemma_insert_sorted(om, nm, j as int, found, entry);
            lemma_well_formed_intro(self.model());
            lemma_sorted_distinct(om);
            lemma_sorted_distinct(nm);
            assert(rest@ == path@.drop_first());
            assert(nm[j as int] == entry);
            if found {
                assert(om[j as int] == (key@, node_before));
            } else {
                assert forall|i: int| 0 <= i < om.len() implies om[i].0 != key@ by {
                    let t = if i < j { i } else { i + 1 };
                    assert(nm[t] == om[i]);
                }
            }
            lemma_insert_at(old_model, self.model(), j as int, found, key@, node_before, kn.1.model(), path@, strategy);
            if old_model.pruned() {
                if !found {
                    assert(node_before.children.len() == 0);
                    assert(node_before.pruned());
                } else {
                    assert(node_before.pruned());
                }
                assert(kn.1.model().pruned());
                assert forall|i: int| 0 <= i < nm.len() implies ((#[trigger] nm[i]).1.strategy is Some
                    || nm[i].1.children.len() > 0) && nm[i].1.pruned() by {
                    if i != j {
                        let t = if i < j || found { i } else { i - 1 };
                        assert(nm[i] == om[t]);
                    }
                }
                assert(self.model().pruned());
            }
        }
    }
}

/// What the trie names after `strategy` is set at `path`, given what the
/// child under its first key names after the rest of the path is set.
proof fn lemma_insert_at(
    old_m: RulesModel,
    new_m: RulesModel,
    j: int,
    found: bool,
    key: Seq<char>,
    before_child: RulesModel,
    after_child: RulesModel,
    path: Seq<String>,
    strategy: Strategy,
)
    requires
        path.len() > 0,
        path[0]@ == key,
        new_m.strategy == old_m.strategy,
        0 <= j <= old_m.children.len(),
        found ==> j < old_m.children.len() && old_m.children[j] == (key, before_child),
        !found ==> forall|i: int| 0 <= i < old_m.children.len() ==> old_m.children[i].0 != key,
        !found ==> before_child.strategy is None && before_child.children.len() == 0,
        new_m.children == if found {
            old_m.children.update(j, (key, after_child))
        } else {
            old_m.children.insert(j, (key, after_child))
        },
        crate::value::keys_distinct(old_m.children),
        crate::value::keys_distinct(new_m.children),
        forall|q: Seq<Seq<char>>| #[trigger] after_child.at(q) == if q == keys_view(path.drop_first()) {
            Some(strategy)
        } else {
            before_child.at(q)
        },
    ensures
        forall|q: Seq<Seq<char>>| #[trigger] new_m.at(q) == if q == keys_view(path) {
            Some(strategy)
        } else {
            old_m.at(q)
        },
{
    let om = old_m.children;
    let nm = new_m.children;
    let entry = (key, after_child);
    assert forall|q: Seq<Seq<char>>| #[trigger] new_m.at(q) == if q == keys_view(path) {
        Some(strategy)
    } else {
        old_m.at(q)
    } by {
        lemma_keys_view_cons(path, q);
        if q.len() > 0 {
            let x = q[0];
            if x == key {
                crate::value::lemma_key_index_distinct(nm, j);
                assert(nm[j] == entry);
                assert(new_m.child(x) == Some(after_child));
                assert(new_m.at(q) == after_child.at(q.drop_first()));
                if found {
                    crate::value::lemma_key_index_distinct(om, j);
                    assert(old_m.child(x) == Some(before_child));
                    assert(old_m.at(q) == before_child.at(q.drop_first()));
                } else {
                    crate::value::lemma_key_index(om, x);
                    assert(old_m.child(x) is None);
                    lemma_empty_at(before_child, q.drop_first());
                    assert(old_m.at(q) is None);
                }
            } else {
                lemma_child_unchanged(om, nm, j, found, entry, x);
                assert(new_m.child(x) == old_m.child(x));
                assert(new_m.at(q) == old_m.at(q));
            }
        } else {
            assert(new_m.at(q) == old_m.at(q));
        }
    }
}

/// The empty trie names nothing.
proof fn lemma_empty_at(m: RulesModel, q: Seq<Seq<char>>)
    requires
        m.strategy is None,
        m.children.len() == 0,
    ensures
        m.at(q) is None,
{
    if q.len() > 0 {
        crate::value::lemma_key_index(m.children, q[0]);
    }
}

/// A well-formed trie's children are well formed.
proof fn lemma_child_well_formed(m: RulesModel, i: int)
    requires
        m.well_formed(),
        0 <= i < m.children.len(),
    ensures
        m.children[i].1.well_formed(),
{
}

/// Sorted, well-formed children make a well-formed trie.
proof fn lemma_well_formed_intro(m: RulesModel)
    requires
        forall|a: int, b: int| 0 <= a < b < m.children.len() ==> chars_lt(#[trigger] m.children[a].0, #[trigger] m.children[b].0),
        forall|i: int| 0 <= i < m.children.len() ==> #[trigger] m.children[i].1.well_formed(),
    ensures
        m.well_formed(),
{
    assert forall|i: int| 0 <= i < m.children.len() implies (#[trigger] m.children[i]).1.well_formed() by {
        assert(m.children[i].1.well_formed());
    }
}

/// A pruned node that names a strategy or has a child names a strategy at
/// some path at or below it.
proof fn lemma_live_names(n: RulesModel)
    requires
        n.pruned(),
        n.strategy is Some || n.children.len() > 0,
    ensures
        exists|q: Seq<Seq<char>>| #[trigger] n.at(q) is Some,
    decreases n,
{
    if n.strategy is Some {
        assert(n.at(Seq::empty()) is Some);
    } else {
        let c = n.children[0].1;
        assert(c.strategy is Some || c.children.len() > 0);
        lemma_live_names(c);
        let q = choose|q: Seq<Seq<char>>| #[trigger] c.at(q) is Some;
        let full = seq![n.children[0].0] + q;
        assert(key_index(n.children, n.children[0].0) == 0);
        assert(full[0] == n.children[0].0);
        assert(full.drop_first() =~= q);
        assert(n.at(full) == c.at(q));
    }
}

/// Below the node at `p`, a pruned trie reads as that node does; the node
/// is pruned, and one below the root names a strategy or has a child.
proof fn lemma_node_at(m: RulesModel, p: Seq<Seq<char>>, n: RulesModel)
    requires
        m.pruned(),
        m.node_at(p) == Some(n),
    ensures
        n.pruned(),
        p.len() > 0 ==> (n.strategy is Some || n.children.len() > 0),
        forall|q: Seq<Seq<char>>| #[trigger] m.at(p + q) == n.at(q),
    decreases p.len(),
{
    if p.len() == 0 {
        assert forall|q: Seq<Seq<char>>| #[trigger] m.at(p + q) == n.at(q) by {
            assert(p + q =~= q);
        }
    } else {
        let k = key_index(m.children, p[0]);
        crate::value::lemma_key_index(m.children, p[0]);
        let c = m.children[k].1;
        assert(m.child(p[0]) == Some(c));
        lemma_node_at(c, p.drop_first(), n);
        assert forall|q: Seq<Seq<char>>| #[trigger] m.at(p + q) == n.at(q) by {
            assert((p + q)[0] == p[0]);
            assert((p + q).drop_first() =~= p.drop_first() + q);
            assert(c.at(p.drop_first() + q) == n.at(q));
        }
        if p.drop_first().len() == 0 {
            assert(n == c);
        }
    }
}

/// In a pruned trie, every node below the root lies on the way to a path
/// that names a strategy.
proof fn lemma_nodes_lead_to_strategies(m: RulesModel, p: Seq<Seq<char>>)
    requires
        m.pruned(),
        p.len() > 0,
        m.node_at(p) is Some,
    ensures
        exists|q: Seq<Seq<char>>| #[trigger] m.at(p + q) is Some,
{
    let n = m.node_at(p)->Some_0;
    lemma_node_at(m, p, n);
    lemma_live_names(n);
    let q = choose|q: Seq<Seq<char>>| #[trigger] n.at(q) is Some;
    assert(m.at(p + q) == n.at(q));
}

/// Some entry of `a` has the key `k`.
spec fn has_key(a: Seq<(Seq<char>, RulesModel)>, k: Seq<char>) -> bool {
    exists|i: int| 0 <= i < a.len() && (#[trigger] a[i]).0 == k
}

/// Keys strictly ascending.
spec fn keys_ascending(a: Seq<(Seq<char>, RulesModel)>) -> bool {
    forall|i: int, j: int| 0 <= i < j < a.len() ==> chars_lt(#[trigger] a[i].0, #[trigger] a[j].0)
}

/// Two lists in strictly ascending key order with the same keys have them
/// in the same places.
proof fn lemma_same_keys_same_places(a: Seq<(Seq<char>, RulesModel)>, b: Seq<(Seq<char>, RulesModel)>)
    requires
        keys_ascending(a),
        keys_ascending(b),
        forall|k: Seq<char>| #[trigger] has_key(a, k) == has_key(b, k),
    ensures
        a.len() == b.len(),
        forall|i: int| 0 <= i < a.len() ==> (#[trigger] a[i]).0 == b[i].0,
    decreases a.len() + b.len(),
{
    if a.len() == 0 {
        if b.len() > 0 {
            assert(has_key(b, b[0].0));
            assert(!has_key(a, b[0].0));
        }
    } else if b.len() == 0 {
        assert(has_key(a, a[0].0));
    } else {
        assert(has_key(a, a[0].0));
        assert(has_key(b, b[0].0));
        assert(has_key(a, b[0].0));
        assert(has_key(b, a[0].0));
        let j = choose|j: int| 0 <= j < b.len() && (#[trigger] b[j]).0 == a[0].0;
        let i = choose|i: int| 0 <= i < a.len() && (#[trigger] a[i]).0 == b[0].0;
        if j > 0 && i > 0 {
            assert(chars_lt(b[0].0, b[j].0));
            assert(chars_lt(a[0].0, a[i].0));
            lemma_chars_lt_asymmetric(a[0].0, b[0].0);
        }
        assert(a[0].0 == b[0].0);
        let a1 = a.drop_first();
        let b1 = b.drop_first();
        assert forall|k: Seq<char>| #[trigger] has_key(a1, k) == has_key(b1, k) by {
            if has_key(a1, k) {
                let x = choose|x: int| 0 <= x < a1.len() && (#[trigger] a1[x]).0 == k;
                assert(a[x + 1] == a1[x]);
                assert(chars_lt(a[0].0, a[x + 1].0));
                lemma_chars_lt_irreflexive(k);
                assert(has_key(a, k));
                let y = choose|y: int| 0 <= y < b.len() && (#[trigger] b[y]).0 == k;
                assert(y != 0);
                assert(b1[y - 1] == b[y]);
            }
            if has_key(b1, k) {
                let x = choose|x: int| 0 <= x < b1.len() && (#[trigger] b1[x]).0 == k;
                assert(b[x + 1] == b1[x]);
                assert(chars_lt(b[0].0, b[x + 1].0));
                lemma_chars_lt_irreflexive(k);
                assert(has_key(b, k));
                assert(has_key(a, k));
                let y = choose|y: int| 0 <= y < a.len() && (#[trigger] a[y]).0 == k;
                assert(y != 0);
                assert(a1[y - 1] == a[y]);
            }
        }
        assert(keys_ascending(a1)) by {
            assert forall|x: int, y: int| 0 <= x < y < a1.len() implies chars_lt(#[trigger] a1[x].0, #[trigger] a1[y].0) by {
                assert(a1[x] == a[x + 1] && a1[y] == a[y + 1]);
            }
        }
        assert(keys_ascending(b1)) by {
            assert forall|x: int, y: int| 0 <= x < y < b1.len() implies chars_lt(#[trigger] b1[x].0, #[trigger] b1[y].0) by {
                assert(b1[x] == b[x + 1] && b1[y] == b[y + 1]);
            }
        }
        lemma_same_keys_same_places(a1, b1);
        assert forall|x: int| 0 <= x < a.len() implies (#[trigger] a[x]).0 == b[x].0 by {
            if x > 0 {
                assert(a[x] == a1[x - 1] && b[x] == b1[x - 1]);
            }
        }
    }
}

/// A child's key leads to that child.
proof fn lemma_child_of_key(m: RulesModel, i: int)
    requires
        m.well_formed(),
        0 <= i < m.children.len(),
    ensures
        m.child(m.children[i].0) == Some(m.children[i].1),
{
    let k = m.children[i].0;
    crate::value::lemma_key_index(m.children, k);
    let x = key_index(m.children, k);
    if x != i {
        if x < i {
            assert(chars_lt(m.children[x].0, m.children[i].0));
        } else if x > i {
            assert(chars_lt(m.children[i].0, m.children[x].0));
        }
        lemma_chars_lt_irreflexive(k);
    }
}

/// A well-formed, pruned trie is determined by the strategy it finds at
/// each path: two such tries that agree on every path are the same trie.
/// So [`Rules::build`] gives the same trie for any two rule lists that name
/// the same strategies at the same paths, whatever their order.
pub proof fn law_trie_is_determined_by_its_strategies(m1: RulesModel, m2: RulesModel)
    requires
        m1.well_formed(),
        m2.well_formed(),
        m1.pruned(),
        m2.pruned(),
        forall|p: Seq<Seq<char>>| #[trigger] m1.at(p) == m2.at(p),
    ensures
        m1 == m2,
    decreases m1,
{
    assert(m1.at(Seq::empty()) == m2.at(Seq::empty()));
    let a = m1.children;
    let b = m2.children;
    assert forall|k: Seq<char>| #[trigger] has_key(a, k) == has_key(b, k) by {
        if has_key(a, k) {
            let i = choose|i: int| 0 <= i < a.len() && (#[trigger] a[i]).0 == k;
            lemma_child_of_key(m1, i);
            let c = a[i].1;
            lemma_live_names(c);
            let q = choose|q: Seq<Seq<char>>| #[trigger] c.at(q) is Some;
            let full = seq![k] + q;
            assert(full[0] == k);
            assert(full.drop_first() =~= q);
            assert(m1.at(full) is Some);
            assert(m2.at(full) is Some);
            crate::value::lemma_key_index(b, k);
        }
        if has_key(b, k) {
            let i = choose|i: int| 0 <= i < b.len() && (#[trigger] b[i]).0 == k;
            lemma_child_of_key(m2, i);
            let c = b[i].1;
            lemma_live_names(c);
            let q = choose|q: Seq<Seq<char>>| #[trigger] c.at(q) is Some;
            let full = seq![k] + q;
            assert(full[0] == k);
            assert(full.drop_first() =~= q);
            assert(m2.at(full) is Some);
            assert(m1.at(full) is Some);
            crate::value::lemma_key_index(a, k);
        }
    }
    lemma_same_keys_same_places(a, b);
    assert forall|i: int| 0 <= i < a.len() implies a[i] == b[i] by {
        let k = a[i].0;
        lemma_child_of_key(m1, i);
        lemma_child_of_key(m2, i);
        let c1 = a[i].1;
        let c2 = b[i].1;
        assert forall|q: Seq<Seq<char>>| #[trigger] c1.at(q) == c2.at(q) by {
            let full = seq![k] + q;
            assert(full[0] == k);
            assert(full.drop_first() =~= q);
            assert(m1.at(full) == c1.at(q));
            assert(m2.at(full) == c2.at(q));
        }
        law_trie_is_determined_by_its_strategies(c1, c2);
    }
    assert(a =~= b);
}

/// `x` comes before `y` in a report: by path, then a conflict before an
/// unreachable rule.
pub open spec fn fault_before(x: RuleFault, y: RuleFault) -> bool {
    path_lt(x.path(), y.path()) || (x.path() == y.path() && x is Conflict && y is Unreachable)
}

proof fn lemma_fault_before_asymmetric(x: RuleFault, y: RuleFault)
    requires
        fault_before(x, y),
    ensures
        !fault_before(y, x),
        x != y,
{
    if path_lt(x.path(), y.path()) {
        lemma_path_lt_asymmetric(x.path(), y.path());
    } else {
        lemma_path_lt_irreflexive(x.path());
    }
}

/// Two faults that hold of the same rules, at the same path and of the
/// same sort, are the same fault.
proof fn lemma_holding_faults_agree(x: RuleFault, y: RuleFault, rules: Seq<(Seq<Seq<char>>, Strategy)>)
    requires
        x.holds_for(rules),
        y.holds_for(rules),
        x.path() == y.path(),
        x is Conflict == y is Conflict,
    ensures
        x == y,
{
}

/// Two lists of faults, each ordered strictly by [`fault_before`] and
/// holding the same faults, are the same list.
proof fn lemma_sorted_faults_equal(a: Seq<RuleFault>, b: Seq<RuleFault>)
    requires
        forall|i: int, j: int| 0 <= i < j < a.len() ==> fault_before(#[trigger] a[i], #[trigger] a[j]),
        forall|i: int, j: int| 0 <= i < j < b.len() ==> fault_before(#[trigger] b[i], #[trigger] b[j]),
        forall|x: RuleFault| #[trigger] a.contains(x) == b.contains(x),
    ensures
        a == b,
    decreases a.len() + b.len(),
{
    if a.len() == 0 {
        if b.len() > 0 {
            assert(b.contains(b[0]));
            assert(!a.contains(b[0]));
        }
        assert(a =~= b);
    } else if b.len() == 0 {
        assert(a.contains(a[0]));
    } else {
        assert(a.contains(a[0]));
        assert(b.contains(b[0]));
        assert(b.contains(a[0]));
        assert(a.contains(b[0]));
        let j = choose|j: int| 0 <= j < b.len() && b[j] == a[0];
        let i = choose|i: int| 0 <= i < a.len() && a[i] == b[0];
        if j > 0 && i > 0 {
            assert(fault_before(b[0], b[j]));
            assert(fault_before(a[0], a[i]));
            lemma_fault_before_asymmetric(a[0], b[0]);
        }
        assert(a[0] == b[0]);
        let a1 = a.drop_first();
        let b1 = b.drop_first();
        assert forall|x: RuleFault| #[trigger] a1.contains(x) == b1.contains(x) by {
            if a1.contains(x) {
                let m = choose|m: int| 0 <= m < a1.len() && a1[m] == x;
                assert(a[m + 1] == x);
                assert(fault_before(a[0], a[m + 1]));
                lemma_fault_before_asymmetric(a[0], x);
                assert(a.contains(x));
                assert(b.contains(x));
                let n = choose|n: int| 0 <= n < b.len() && b[n] == x;
                assert(n != 0);
                assert(b1[n - 1] == x);
            }
            if b1.contains(x) {
                let m = choose|m: int| 0 <= m < b1.len() && b1[m] == x;
                assert(b[m + 1] == x);
                assert(fault_before(b[0], b[m + 1]));
                lemma_fault_before_asymmetric(b[0], x);
                assert(b.contains(x));
                assert(a.contains(x));
                let n = choose|n: int| 0 <= n < a.len() && a[n] == x;
                assert(n != 0);
                assert(a1[n - 1] == x);
            }
        }
        assert forall|x: int, y: int| 0 <= x < y < a1.len() implies fault_before(#[trigger] a1[x], #[trigger] a1[y]) by {
            assert(a1[x] == a[x + 1] && a1[y] == a[y + 1]);
        }
        assert forall|x: int, y: int| 0 <= x < y < b1.len() implies fault_before(#[trigger] b1[x], #[trigger] b1[y]) by {
            assert(b1[x] == b[x + 1] && b1[y] == b[y + 1]);
        }
        lemma_sorted_faults_equal(a1, b1);
        assert(a =~= seq![a[0]] + a1);
        assert(b =~= seq![b[0]] + b1);
    }
}

/// A complete report, in report order, of faults that hold is determined by
/// the rules, and rule order or repetition does not change it: for two rule
/// lists that are reorderings (or repetitions) of one another, two such
/// reports are the same list. So [`Rules::build`] rejects two orderings of
/// one rule list with the same errors in the same order.
pub proof fn law_fault_report_is_determined(
    f1: Seq<RuleFault>,
    f2: Seq<RuleFault>,
    rules1: Seq<(Seq<Seq<char>>, Strategy)>,
    rules2: Seq<(Seq<Seq<char>>, Strategy)>,
)
    requires
        same_rules(rules1, rules2),
        forall|i: int| 0 <= i < f1.len() ==> #[trigger] f1[i].holds_for(rules1),
        forall|i: int| 0 <= i < f2.len() ==> #[trigger] f2[i].holds_for(rules2),
        faults_complete(f1, rules1),
        faults_complete(f2, rules2),
        faults_sorted(f1),
        faults_sorted(f2),
    ensures
        f1 == f2,
{
    law_rule_order_is_irrelevant(rules1, rules2);
    assert forall|i: int, j: int| 0 <= i < j < f1.len() implies fault_before(#[trigger] f1[i], #[trigger] f1[j]) by {
        assert(faults_sorted(f1));
    }
    assert forall|i: int, j: int| 0 <= i < j < f2.len() implies fault_before(#[trigger] f2[i], #[trigger] f2[j]) by {
        assert(faults_sorted(f2));
    }
    assert forall|x: RuleFault| #[trigger] f1.contains(x) == f2.contains(x) by {
        if f1.contains(x) {
            let i = choose|i: int| 0 <= i < f1.len() && f1[i] == x;
            assert(f1[i].holds_for(rules1));
            assert(x.holds_for(rules2));
            match x {
                RuleFault::Conflict { path, strategies } => {
                    assert(strategies_at(rules2, path).len() > 1);
                    let k = choose|k: int| 0 <= k < f2.len() && f2[k] is Conflict && #[trigger] f2[k].path() == path;
                    assert(f2[k].holds_for(rules2));
                    lemma_holding_faults_agree(x, f2[k], rules2);
                },
                RuleFault::Unreachable { path, .. } => {
                    assert(blocking_depth(rules2, path) is Some);
                    let k = choose|k: int| 0 <= k < f2.len() && f2[k] is Unreachable && #[trigger] f2[k].path() == path;
                    assert(f2[k].holds_for(rules2));
                    lemma_holding_faults_agree(x, f2[k], rules2);
                },
            }
        }
        if f2.contains(x) {
            let i = choose|i: int| 0 <= i < f2.len() && f2[i] == x;
            assert(f2[i].holds_for(rules2));
            assert(x.holds_for(rules1));
            match x {
                RuleFault::Conflict { path, strategies } => {
                    assert(strategies_at(rules1, path).len() > 1);
                    let k = choose|k: int| 0 <= k < f1.len() && f1[k] is Conflict && #[trigger] f1[k].path() == path;
                    assert(f1[k].holds_for(rules1));
                    lemma_holding_faults_agree(x, f1[k], rules1);
                },
                RuleFault::Unreachable { path, .. } => {
                    assert(blocking_depth(rules1, path) is Some);
                    let k = choose|k: int| 0 <= k < f1.len() && f1[k] is Unreachable && #[trigger] f1[k].path() == path;
                    assert(f1[k].holds_for(rules1));
                    lemma_holding_faults_agree(x, f1[k], rules1);
                },
            }
        }
    }
    lemma_sorted_faults_equal(f1, f2);
}

/// A key path is its first key followed by the rest.
proof fn lemma_keys_view_cons(path: Seq<String>, q: Seq<Seq<char>>)
    requires
        path.len() > 0,
    ensures
        q == keys_view(path) <==> (q.len() > 0 && q[0] == path[0]@ && q.drop_first() == keys_view(path.drop_first())),
{
    if q.len() > 0 && q[0] == path[0]@ && q.drop_first() == keys_view(path.drop_first()) {
        assert forall|i: int| 0 <= i < q.len() implies q[i] == keys_view(path)[i] by {
            if i > 0 {
                assert(q[i] == q.drop_first()[i - 1]);
            }
        }
        assert(q =~= keys_view(path));
    }
    if q == keys_view(path) {
        assert(q.drop_first() =~= keys_view(path.drop_first()));
    }
}

/// Strictly sorted keys are distinct.
proof fn lemma_sorted_distinct(c: Seq<(Seq<char>, RulesModel)>)
    requires
        forall|i: int, j: int| 0 <= i < j < c.len() ==> chars_lt(#[trigger] c[i].0, #[trigger] c[j].0),
    ensures
        crate::value::keys_distinct(c),
{
    assert forall|i: int, j: int| 0 <= i < c.len() && 0 <= j < c.len() && i != j implies c[i].0 != c[j].0 by {
        if i < j {
            lemma_chars_lt_asymmetric(c[i].0, c[j].0);
        } else {
            lemma_chars_lt_asymmetric(c[j].0, c[i].0);
        }
    }
}

/// Putting `entry` at `j`, over an equal key or between its neighbours,
/// keeps the children sorted and well formed.
proof fn lemma_insert_sorted(
    om: Seq<(Seq<char>, RulesModel)>,
    nm: Seq<(Seq<char>, RulesModel)>,
    j: int,
    found: bool,
    entry: (Seq<char>, RulesModel),
)
    requires
        nm == if found { om.update(j, entry) } else { om.insert(j, entry) },
        0 <= j <= om.len(),
        found ==> j < om.len() && om[j].0 == entry.0,
        !found ==> j < om.len() ==> chars_lt(entry.0, om[j].0),
        forall|i: int| 0 <= i < j ==> chars_lt(#[trigger] om[i].0, entry.0),
        forall|a: int, b: int| 0 <= a < b < om.len() ==> chars_lt(#[trigger] om[a].0, #[trigger] om[b].0),
        forall|i: int| 0 <= i < om.len() ==> #[trigger] om[i].1.well_formed(),
        entry.1.well_formed(),
    ensures
        forall|a: int, b: int| 0 <= a < b < nm.len() ==> chars_lt(#[trigger] nm[a].0, #[trigger] nm[b].0),
        forall|i: int| 0 <= i < nm.len() ==> #[trigger] nm[i].1.well_formed(),
{
    assert forall|a: int, b: int| 0 <= a < b < nm.len() implies chars_lt(#[trigger] nm[a].0, #[trigger] nm[b].0) by {
        if found {
            if b == j {
                assert(nm[a] == om[a]);
            } else if a == j {
                assert(nm[b] == om[b]);
                assert(chars_lt(om[j].0, om[b].0));
            } else {
                assert(nm[a] == om[a]);
                assert(nm[b] == om[b]);
            }
        } else {
            if b == j {
                assert(nm[a] == om[a]);
            } else if a == j {
                assert(nm[b] == om[b - 1]);
                if b - 1 > j {
                    lemma_chars_lt_transitive(entry.0, om[j].0, om[b - 1].0);
                }
            } else if a < j {
                assert(nm[a] == om[a]);
                if b < j {
                    assert(nm[b] == om[b]);
                } else {
                    assert(nm[b] == om[b - 1]);
                    if a < b - 1 {
                    } else {
                    }
                }
            } else {
                assert(nm[a] == om[a - 1]);
                assert(nm[b] == om[b - 1]);
            }
        }
    }
    assert forall|i: int| 0 <= i < nm.len() implies #[trigger] nm[i].1.well_formed() by {
        if i != j {
            if found || i < j {
                assert(nm[i] == om[i]);
            } else {
                assert(nm[i] == om[i - 1]);
            }
        }
    }
}

/// A key other than the one put at `j` finds the same child as before.
proof fn lemma_child_unchanged(
    om: Seq<(Seq<char>, RulesModel)>,
    nm: Seq<(Seq<char>, RulesModel)>,
    j: int,
    found: bool,
    entry: (Seq<char>, RulesModel),
    x: Seq<char>,
)
    requires
        0 <= j <= om.len(),
        found ==> j < om.len() && om[j].0 == entry.0,
        nm == if found { om.update(j, entry) } else { om.insert(j, entry) },
        crate::value::keys_distinct(om),
        crate::value::keys_distinct(nm),
        x != entry.0,
    ensures
        crate::value::key_index(nm, x) >= 0 <==> crate::value::key_index(om, x) >= 0,
        crate::value::key_index(nm, x) >= 0 ==> nm[crate::value::key_index(nm, x)].1 == om[crate::value::key_index(
            om,
            x,
        )].1,
{
    crate::value::lemma_key_index(om, x);
    crate::value::lemma_key_index(nm, x);
    let oi = crate::value::key_index(om, x);
    let ni = crate::value::key_index(nm, x);
    if oi >= 0 {
        let t = if found || oi < j { oi } else { oi + 1 };
        assert(nm[t] == om[oi]);
        crate::value::lemma_key_index_distinct(nm, t);
    } else if ni >= 0 {
        if ni == j {
        } else if found || ni < j {
            assert(nm[ni] == om[ni]);
        } else {
            assert(nm[ni] == om[ni - 1]);
        }
    }
}

/// The faults of the first `i` groups have been collected, in order.
spec fn faults_upto(groups: Seq<Group>, errors: Seq<RuleError>, input: Seq<(Seq<Seq<char>>, Strategy)>, i: int) -> bool {
    &&& forall|e: int| 0 <= e < errors.len() ==> #[trigger] errors[e]@.holds_for(input)
    &&& faults_sorted(faults_view(errors))
    &&& forall|e: int| 0 <= e < errors.len() ==> exists|g: int| 0 <= g < i
        && #[trigger] errors[e]@.path() == keys_view(#[trigger] groups[g].path@)
    &&& forall|g: int| 0 <= g < i ==> #[trigger] group_reported(groups[g], errors, input)
}

/// The faults at a group's path are among `errors`.
spec fn group_reported(g: Group, errors: Seq<RuleError>, input: Seq<(Seq<Seq<char>>, Strategy)>) -> bool {
    let p = keys_view(g.path@);
    &&& strategies_at(input, p).len() > 1 ==> exists|e: int| 0 <= e < errors.len()
        && errors[e]@ is Conflict && #[trigger] errors[e]@.path() == p
    &&& blocking_depth(input, p) is Some ==> exists|e: int| 0 <= e < errors.len()
        && errors[e]@ is Unreachable && #[trigger] errors[e]@.path() == p
}

/// A group reported among some errors stays reported when more are added.
proof fn lemma_reported_grows(g: Group, before: Seq<RuleError>, after: Seq<RuleError>, input: Seq<(Seq<Seq<char>>, Strategy)>)
    requires
        group_reported(g, before, input),
        before.len() <= after.len(),
        forall|e: int| 0 <= e < before.len() ==> after[e] == before[e],
    ensures
        group_reported(g, after, input),
{
    let p = keys_view(g.path@);
    if strategies_at(input, p).len() > 1 {
        let e = choose|e: int| 0 <= e < before.len() && before[e]@ is Conflict && #[trigger] before[e]@.path() == p;
        assert(after[e] == before[e]);
    }
    if blocking_depth(input, p) is Some {
        let e = choose|e: int| 0 <= e < before.len() && before[e]@ is Unreachable && #[trigger] before[e]@.path() == p;
        assert(after[e] == before[e]);
    }
}

/// Collects the faults at group `i`.
fn fault_step(groups: &Vec<Group>, i: usize, errors: &mut Vec<RuleError>, Ghost(input): Ghost<Seq<(Seq<Seq<char>>, Strategy)>>)
    requires
        i < groups@.len(),
        groups_match(groups@, input),
        faults_upto(groups@, old(errors)@, input, i as int),
    ensures
        faults_upto(groups@, final(errors)@, input, i + 1),
{
    let g = &groups[i];
    let ghost p = keys_view(g.path@);
    let count = (g.append as usize) + (g.replace as usize) + (g.fail as usize);
    proof {
        assert(has_rule(input, p));
        assert(g.set() == strategies_at(input, p));
        assert(g.set().len() == count);
    }
    let ghost before = errors@;
    proof {
        assert forall|e: int| 0 <= e < before.len() implies path_lt(#[trigger] before[e]@.path(), p) by {
            let h = choose|h: int| 0 <= h < i && #[trigger] before[e]@.path() == keys_view(#[trigger] groups@[h].path@);
        }
    }
    if count > 1 {
        let err = RuleError::Conflict {
            path: clone_keys(g.path.as_slice()),
            strategies: strategies_of(g.append, g.replace, g.fail),
        };
        proof {
            lemma_push_fault_sorted(faults_view(errors@), err@);
        }
        errors.push(err);
        proof {
            assert(faults_view(errors@) =~= faults_view(before).push(errors@.last()@));
        }
    }
    let ghost mid = errors@;
    let blocker = blocking_prefix(groups, g.path.as_slice(), Ghost(input));
    match blocker {
        Some((depth, index)) => {
            let b = &groups[index];
            proof {
                assert(has_rule(input, keys_view(b.path@)));
                lemma_has_rule_named(input, keys_view(b.path@));
                assert(b.set() == strategies_at(input, keys_view(b.path@)));
            }
            let strategies = strategies_of(b.append, b.replace, b.fail);
            let err = RuleError::Unreachable {
                path: clone_keys(g.path.as_slice()),
                blocked_by: clone_keys(b.path.as_slice()),
                blocker: strategies[0],
            };
            proof {
                assert forall|e: int| 0 <= e < mid.len() implies path_lt(#[trigger] faults_view(mid)[e].path(), err@.path())
                    || (faults_view(mid)[e].path() == err@.path() && faults_view(mid)[e] is Conflict && err@ is Unreachable) by {
                    if e < before.len() {
                        assert(mid[e] == before[e]);
                    }
                }
                lemma_push_fault_sorted(faults_view(mid), err@);
            }
            errors.push(err);
            proof {
                assert(faults_view(errors@) =~= faults_view(mid).push(errors@.last()@));
                assert(errors@[mid.len() as int]@.path() == p);
            }
        },
        None => {},
    }
    proof {
        let now = errors@;
        assert forall|e: int| 0 <= e < now.len() implies #[trigger] now[e]@.holds_for(input) by {
            if e < before.len() {
                assert(now[e] == before[e]);
            }
        }
        assert forall|e: int| 0 <= e < now.len() implies exists|h: int| 0 <= h < i + 1
            && #[trigger] now[e]@.path() == keys_view(#[trigger] groups@[h].path@) by {
            if e < before.len() {
                assert(now[e] == before[e]);
                let h = choose|h: int| 0 <= h < i && #[trigger] before[e]@.path() == keys_view(#[trigger] groups@[h].path@);
            } else {
                assert(now[e]@.path() == keys_view(groups@[i as int].path@));
            }
        }
        assert forall|gg: int| 0 <= gg < i + 1 implies #[trigger] group_reported(groups@[gg], now, input) by {
            if gg < i {
                lemma_reported_grows(groups@[gg], before, now, input);
            } else {
                if count > 1 {
                    assert(now[before.len() as int] == mid[before.len() as int]);
                    assert(now[before.len() as int]@ is Conflict);
                    assert(now[before.len() as int]@.path() == p);
                }
            }
        }
    }
}

/// Every fault of the grouped rules, in path order.
fn collect_faults(groups: &Vec<Group>, Ghost(input): Ghost<Seq<(Seq<Seq<char>>, Strategy)>>) -> (errors: Vec<RuleError>)
    requires
        groups_match(groups@, input),
    ensures
        forall|e: int| 0 <= e < errors@.len() ==> #[trigger] errors@[e]@.holds_for(input),
        faults_sorted(faults_view(errors@)),
        faults_complete(faults_view(errors@), input),
        errors@.len() == 0 <==> rules_valid(input),
{
    let mut errors: Vec<RuleError> = Vec::new();
    let mut i: usize = 0;
    while i < groups.len()
        invariant
            i <= groups@.len(),
            groups_match(groups@, input),
            faults_upto(groups@, errors@, input, i as int),
        decreases groups.len() - i,
    {
        fault_step(groups, i, &mut errors, Ghost(input));
        i += 1;
    }
    proof {
        assert(groups_cover(groups@, input));
        if errors@.len() == 0 {
            assert forall|p: Seq<Seq<char>>| has_rule(input, p) implies #[trigger] strategies_at(input, p).len()
                <= 1 && blocking_depth(input, p) is None by {
                let k = choose|k: int| 0 <= k < input.len() && input[k].0 == p;
                assert(has_group(groups@, input[k].0));
                let g = choose|g: int| 0 <= g < groups@.len() && keys_view(#[trigger] groups@[g].path@) == input[k].0;
                assert(group_reported(groups@[g], errors@, input));
            }
        } else {
            let f = errors@[0]@;
            assert(f.holds_for(input));
            assert(has_rule(input, f.path()));
            assert(!(strategies_at(input, f.path()).len() <= 1 && blocking_depth(input, f.path()) is None));
        }
        assert forall|p: Seq<Seq<char>>| has_rule(input, p) && #[trigger] strategies_at(input, p).len() > 1 implies exists|i: int|
            0 <= i < faults_view(errors@).len() && faults_view(errors@)[i] is Conflict && #[trigger] faults_view(errors@)[i].path() == p by {
            let k = choose|k: int| 0 <= k < input.len() && input[k].0 == p;
            assert(has_group(groups@, input[k].0));
            let g = choose|g: int| 0 <= g < groups@.len() && keys_view(#[trigger] groups@[g].path@) == input[k].0;
            assert(group_reported(groups@[g], errors@, input));
            let e = choose|e: int| 0 <= e < errors@.len() && errors@[e]@ is Conflict && #[trigger] errors@[e]@.path() == p;
            assert(faults_view(errors@)[e] == errors@[e]@);
        }
        assert forall|p: Seq<Seq<char>>| has_rule(input, p) && #[trigger] blocking_depth(input, p) is Some implies exists|i: int|
            0 <= i < faults_view(errors@).len() && faults_view(errors@)[i] is Unreachable && #[trigger] faults_view(errors@)[i].path() == p by {
            let k = choose|k: int| 0 <= k < input.len() && input[k].0 == p;
            assert(has_group(groups@, input[k].0));
            let g = choose|g: int| 0 <= g < groups@.len() && keys_view(#[trigger] groups@[g].path@) == input[k].0;
            assert(group_reported(groups@[g], errors@, input));
            let e = choose|e: int| 0 <= e < errors@.len() && errors@[e]@ is Unreachable && #[trigger] errors@[e]@.path() == p;
            assert(faults_view(errors@)[e] == errors@[e]@);
        }
    }
    errors
}

/// The trie of a valid, grouped rule set.
fn build_trie(groups: &Vec<Group>, Ghost(input): Ghost<Seq<(Seq<Seq<char>>, Strategy)>>) -> (root: Rules)
    requires
        groups_match(groups@, input),
        rules_valid(input),
    ensures
        root.model().well_formed(),
        root.model().pruned(),
        forall|p: Seq<Seq<char>>| #[trigger] root.model().at(p) == if has_rule(input, p) {
            Some(strategies_at(input, p)[0])
        } else {
            None
        },
{
    let mut root = Rules::empty();
    proof {
        assert forall|p: Seq<Seq<char>>| #[trigger] root.model().at(p) is None by {
            lemma_empty_at(root.model(), p);
        }
    }
    let mut j: usize = 0;
    while j < groups.len()
        invariant
            j <= groups@.len(),
            groups_match(groups@, input),
            rules_valid(input),
            root.model().well_formed(),
            root.model().pruned(),
            forall|p: Seq<Seq<char>>| #[trigger] root.model().at(p) == if exists|h: int| 0 <= h < j && keys_view(groups@[h].path@) == p {
                Some(strategies_at(input, p)[0])
            } else {
                None
            },
        decreases groups.len() - j,
    {
        let g = &groups[j];
        let ghost p = keys_view(g.path@);
        proof {
            assert(has_rule(input, p));
            lemma_has_rule_named(input, p);
            assert(g.set() == strategies_at(input, p));
        }
        let strategies = strategies_of(g.append, g.replace, g.fail);
        root.insert(g.path.as_slice(), strategies[0]);
        proof {
            assert forall|q: Seq<Seq<char>>| #[trigger] root.model().at(q) == if exists|h: int| 0 <= h < j + 1 && keys_view(groups@[h].path@) == q {
                Some(strategies_at(input, q)[0])
            } else {
                None
            } by {
                if q == p {
                    assert(keys_view(groups@[j as int].path@) == q);
                } else {
                    if exists|h: int| 0 <= h < j + 1 && keys_view(groups@[h].path@) == q {
                        let h = choose|h: int| 0 <= h < j + 1 && keys_view(groups@[h].path@) == q;
                        assert(h < j);
                    }
                }
            }
        }
        j += 1;
    }
    proof {
        assert forall|p: Seq<Seq<char>>| #[trigger] root.model().at(p) == if has_rule(input, p) {
            Some(strategies_at(input, p)[0])
        } else {
            None
        } by {
            if has_rule(input, p) {
                let k = choose|k: int| 0 <= k < input.len() && input[k].0 == p;
                assert(has_group(groups@, input[k].0));
                let g = choose|g: int| 0 <= g < groups@.len() && keys_view(#[trigger] groups@[g].path@) == input[k].0;
            } else {
                if exists|h: int| 0 <= h < groups@.len() && keys_view(groups@[h].path@) == p {
                    let h = choose|h: int| 0 <= h < groups@.len() && keys_view(groups@[h].path@) == p;
                    assert(has_rule(input, keys_view(groups@[h].path@)));
                }
            }
        }
    }
    root
}

/// Among the groups, the shallowest strict prefix of `path` that some rule
/// names: its depth, and the index of its group.
fn blocking_prefix(groups: &Vec<Group>, path: &[String], Ghost(input): Ghost<Seq<(Seq<Seq<char>>, Strategy)>>) -> (r: Option<(usize, usize)>)
    requires
        groups_match(groups@, input),
    ensures
        match r {
            Some((depth, index)) => {
                &&& blocking_depth(input, keys_view(path@)) == Some(depth as nat)
                &&& index < groups@.len()
                &&& keys_view(groups@[index as int].path@) == keys_view(path@).take(depth as int)
            },
            None => blocking_depth(input, keys_view(path@)) is None,
        },
{
    let ghost p = keys_view(path@);
    let mut depth: usize = 0;
    while depth < path.len()
        invariant
            depth <= path@.len(),
            p == keys_view(path@),
            groups_match(groups@, input),
            blocking_depth(input, p) == blocking_depth_from(input, p, depth as nat),
        decreases path.len() - depth,
    {
        let mut g: usize = 0;
        while g < groups.len()
            invariant
                g <= groups@.len(),
                depth < path@.len(),
                p == keys_view(path@),
                groups_match(groups@, input),
                blocking_depth(input, p) == blocking_depth_from(input, p, depth as nat),
                forall|h: int| 0 <= h < g ==> keys_view(#[trigger] groups@[h].path@) != p.take(depth as int),
            decreases groups.len() - g,
        {
            if is_prefix_at(groups[g].path.as_slice(), path, depth) {
                proof {
                    assert(has_rule(input, keys_view(groups@[g as int].path@)));
                }
                return Some((depth, g));
            }
            g += 1;
        }
        proof {
            if has_rule(input, p.take(depth as int)) {
                let k = choose|k: int| 0 <= k < input.len() && input[k].0 == p.take(depth as int);
                assert(has_group(groups@, input[k].0));
                let h = choose|h: int| 0 <= h < groups@.len() && keys_view(#[trigger] groups@[h].path@) == input[k].0;
            }
        }
        depth += 1;
    }
    None
}

/// Appending a fault that sorts after every earlier one keeps them sorted.
proof fn lemma_push_fault_sorted(faults: Seq<RuleFault>, f: RuleFault)
    requires
        faults_sorted(faults),
        forall|e: int| 0 <= e < faults.len() ==> path_lt(#[trigger] faults[e].path(), f.path())
            || (faults[e].path() == f.path() && faults[e] is Conflict && f is Unreachable),
    ensures
        faults_sorted(faults.push(f)),
{
    let all = faults.push(f);
    assert forall|i: int, j: int| 0 <= i < j < all.len() implies path_lt(#[trigger] all[i].path(), #[trigger] all[j].path())
        || (all[i].path() == all[j].path() && all[i] is Conflict && all[j] is Unreachable) by {
        assert(all[i] == faults[i]);
        if j < faults.len() {
            assert(all[j] == faults[j]);
        }
    }
}

// --- laws -------------------------------------------------------------------

/// Two rule lists naming the same rules, whatever their order and however
/// often each is repeated.
pub open spec fn same_rules(a: Seq<(Seq<Seq<char>>, Strategy)>, b: Seq<(Seq<Seq<char>>, Strategy)>) -> bool {
    forall|x: (Seq<Seq<char>>, Strategy)| a.contains(x) <==> b.contains(x)
}

proof fn lemma_names_agree(
    a: Seq<(Seq<Seq<char>>, Strategy)>,
    b: Seq<(Seq<Seq<char>>, Strategy)>,
    p: Seq<Seq<char>>,
    s: Strategy,
)
    requires
        same_rules(a, b),
    ensures
        names(a, p, s) == names(b, p, s),
{
    if names(a, p, s) {
        let i = choose|i: int| 0 <= i < a.len() && a[i].0 == p && a[i].1 == s;
        assert(a.contains(a[i]));
        assert(b.contains((p, s)));
    }
    if names(b, p, s) {
        let i = choose|i: int| 0 <= i < b.len() && b[i].0 == p && b[i].1 == s;
        assert(b.contains(b[i]));
        assert(a.contains((p, s)));
    }
}

proof fn lemma_has_rule_agree(a: Seq<(Seq<Seq<char>>, Strategy)>, b: Seq<(Seq<Seq<char>>, Strategy)>, p: Seq<Seq<char>>)
    requires
        same_rules(a, b),
    ensures
        has_rule(a, p) == has_rule(b, p),
        strategies_at(a, p) == strategies_at(b, p),
{
    if has_rule(a, p) {
        let i = choose|i: int| 0 <= i < a.len() && a[i].0 == p;
        assert(a.contains(a[i]));
        assert(b.contains(a[i]));
    }
    if has_rule(b, p) {
        let i = choose|i: int| 0 <= i < b.len() && b[i].0 == p;
        assert(b.contains(b[i]));
        assert(a.contains(b[i]));
    }
    lemma_names_agree(a, b, p, Strategy::Append);
    lemma_names_agree(a, b, p, Strategy::Replace);
    lemma_names_agree(a, b, p, Strategy::Fail);
}

proof fn lemma_blocking_agree(
    a: Seq<(Seq<Seq<char>>, Strategy)>,
    b: Seq<(Seq<Seq<char>>, Strategy)>,
    p: Seq<Seq<char>>,
    depth: nat,
)
    requires
        same_rules(a, b),
    ensures
        blocking_depth_from(a, p, depth) == blocking_depth_from(b, p, depth),
    decreases p.len() - depth,
{
    if depth < p.len() {
        lemma_has_rule_agree(a, b, p.take(depth as int));
        lemma_blocking_agree(a, b, p, depth + 1);
    }
}

/// The order rules are given in, and any repetition of one, changes nothing
/// a rule set is judged by: whether it is valid, the strategy found at each
/// path, and which faults hold of it and make a complete report — so
/// [`Rules::build`] answers alike for both.
pub proof fn law_rule_order_is_irrelevant(a: Seq<(Seq<Seq<char>>, Strategy)>, b: Seq<(Seq<Seq<char>>, Strategy)>)
    requires
        same_rules(a, b),
    ensures
        rules_valid(a) == rules_valid(b),
        forall|p: Seq<Seq<char>>|
            #![trigger has_rule(a, p)]
            #![trigger has_rule(b, p)]
            has_rule(a, p) == has_rule(b, p) && strategies_at(a, p) == strategies_at(b, p),
        forall|f: RuleFault| #[trigger] f.holds_for(a) == f.holds_for(b),
        forall|faults: Seq<RuleFault>| #[trigger] faults_complete(faults, a) == faults_complete(faults, b),
{
    assert forall|p: Seq<Seq<char>>|
        #![trigger has_rule(a, p)]
        #![trigger has_rule(b, p)]
        has_rule(a, p) == has_rule(b, p) && strategies_at(a, p) == strategies_at(b, p) by {
        lemma_has_rule_agree(a, b, p);
    }
    assert forall|p: Seq<Seq<char>>| #[trigger] blocking_depth(a, p) == blocking_depth(b, p) by {
        lemma_blocking_agree(a, b, p, 0);
    }
    assert forall|f: RuleFault| #[trigger] f.holds_for(a) == f.holds_for(b) by {
        lemma_has_rule_agree(a, b, f.path());
        match f {
            RuleFault::Unreachable { path, blocked_by, blocker } => {
                lemma_has_rule_agree(a, b, blocked_by);
                lemma_blocking_agree(a, b, path, 0);
            },
            _ => {},
        }
    }
    assert(rules_valid(a) == rules_valid(b)) by {
        if rules_valid(a) {
            assert forall|p: Seq<Seq<char>>| has_rule(b, p) implies #[trigger] strategies_at(b, p).len() <= 1
                && blocking_depth(b, p) is None by {
                lemma_has_rule_agree(a, b, p);
                lemma_blocking_agree(a, b, p, 0);
            }
        }
        if rules_valid(b) {
            assert forall|p: Seq<Seq<char>>| has_rule(a, p) implies #[trigger] strategies_at(a, p).len() <= 1
                && blocking_depth(a, p) is None by {
                lemma_has_rule_agree(a, b, p);
                lemma_blocking_agree(a, b, p, 0);
            }
        }
    }
    assert forall|faults: Seq<RuleFault>| #[trigger] faults_complete(faults, a) == faults_complete(faults, b) by {
        if faults_complete(faults, a) {
            lemma_complete_transfers(faults, a, b);
        }
        if faults_complete(faults, b) {
            lemma_complete_transfers(faults, b, a);
        }
    }
}

proof fn lemma_complete_transfers(
    faults: Seq<RuleFault>,
    a: Seq<(Seq<Seq<char>>, Strategy)>,
    b: Seq<(Seq<Seq<char>>, Strategy)>,
)
    requires
        same_rules(a, b) || same_rules(b, a),
        faults_complete(faults, a),
    ensures
        faults_complete(faults, b),
{
    assert(same_rules(a, b));
    assert forall|p: Seq<Seq<char>>| has_rule(b, p) && #[trigger] strategies_at(b, p).len() > 1 implies exists|i: int|
        0 <= i < faults.len() && faults[i] is Conflict && #[trigger] faults[i].path() == p by {
        lemma_has_rule_agree(a, b, p);
        assert(strategies_at(a, p).len() > 1);
    }
    assert forall|p: Seq<Seq<char>>| has_rule(b, p) && #[trigger] blocking_depth(b, p) is Some implies exists|i: int|
        0 <= i < faults.len() && faults[i] is Unreachable && #[trigger] faults[i].path() == p by {
        lemma_has_rule_agree(a, b, p);
        lemma_blocking_agree(a, b, p, 0);
        assert(blocking_depth(a, p) is Some);
    }
}

} // verus!
