//! What a `fail` rule guarantees: once a layer has set a value at a
//! fail-ruled path, no later layer can change it and succeed, whether it
//! writes the path itself or replaces one of its ancestors wholesale.

use vstd::prelude::*;
use crate::interp::lemma_key_index_same_keys;
use crate::merge::{fold_spec, merge_entries_spec, merge_spec, MergeFault};
use crate::rules::{lock_below, lock_in, RulesModel, Strategy};
use crate::text::{chars_lt, lemma_chars_lt_asymmetric};
use crate::value::{key_index, lemma_key_index, ValueModel};

verus! {

/// The node at a key path of a value, if it has one.
pub open spec fn node_under(v: ValueModel, path: Seq<Seq<char>>) -> Option<ValueModel>
    decreases path.len(),
{
    if path.len() == 0 {
        Some(v)
    } else {
        match v {
            ValueModel::Object(e) => if key_index(e, path[0]) >= 0 {
                node_under(e[key_index(e, path[0])].1, path.drop_first())
            } else {
                None
            },
            _ => None,
        }
    }
}

/// A `fail` rule stands at the key path `q` below `r`, and no node strictly
/// between `r` and it names a strategy.
pub open spec fn fail_rule_at(r: RulesModel, q: Seq<Seq<char>>) -> bool {
    &&& q.len() > 0
    &&& r.node_at(q) is Some
    &&& r.node_at(q)->Some_0.strategy == Some(Strategy::Fail)
    &&& forall|n: int|
        1 <= n < q.len() ==> (#[trigger] r.node_at(q.take(n))) is Some && r.node_at(q.take(n))->Some_0.strategy is None
}

/// One child of a trie node, as the lock search sees it.
spec fn lock_at(child: (Seq<char>, RulesModel), be: Seq<(Seq<char>, ValueModel)>) -> Option<Seq<Seq<char>>> {
    let k = child.0;
    let i = key_index(be, k);
    if i < 0 {
        None
    } else if child.1.strategy == Some(Strategy::Fail) {
        Some(seq![k])
    } else if child.1.strategy is None {
        match lock_below(child.1, be[i].1) {
            Some(q) => Some(seq![k] + q),
            None => None,
        }
    } else {
        None
    }
}

/// The lock search over a node's children finds something as soon as one
/// child does.
proof fn lemma_lock_in_some(children: Seq<(Seq<char>, RulesModel)>, be: Seq<(Seq<char>, ValueModel)>, j: int)
    requires
        0 <= j < children.len(),
        lock_at(children[j], be) is Some,
    ensures
        lock_in(children, be) is Some,
    decreases j,
{
    if lock_at(children[0], be) is None {
        assert(children.drop_first()[j - 1] == children[j]);
        lemma_lock_in_some(children.drop_first(), be, j - 1);
    }
}

/// The first step towards a `fail` rule: the child under the path's first
/// key, which is the rule itself or a strategy-free node with the rule
/// below it.
proof fn lemma_fail_rule_child(r: RulesModel, q: Seq<Seq<char>>)
    requires
        fail_rule_at(r, q),
    ensures
        r.child(q[0]) is Some,
        q.len() == 1 ==> r.child(q[0])->Some_0.strategy == Some(Strategy::Fail),
        q.len() > 1 ==> r.child(q[0])->Some_0.strategy is None && fail_rule_at(r.child(q[0])->Some_0, q.drop_first()),
{
    assert(r.child(q[0]) is Some);
    let c = r.child(q[0])->Some_0;
    assert(r.node_at(q) == c.node_at(q.drop_first()));
    if q.len() == 1 {
        assert(q.drop_first() =~= Seq::<Seq<char>>::empty());
    } else {
        let one: int = 1;
        assert(q.take(one).drop_first() =~= Seq::<Seq<char>>::empty());
        assert(q.take(one)[0] == q[0]);
        assert(c.node_at(q.take(one).drop_first()) == Some(c));
        assert(r.node_at(q.take(one)) == Some(c));
        let rest = q.drop_first();
        assert forall|n: int| 1 <= n < rest.len() implies (#[trigger] c.node_at(rest.take(n))) is Some
            && c.node_at(rest.take(n))->Some_0.strategy is None by {
            let m = n + 1;
            assert(q.take(m).drop_first() =~= rest.take(n));
            assert(q.take(m)[0] == q[0]);
            assert(r.node_at(q.take(m)) == c.node_at(rest.take(n)));
        }
    }
}

/// The lock search below a trie node finds a `fail` rule whenever the value
/// it searches has something at that rule's path.
proof fn lemma_lock_found(r: RulesModel, base: ValueModel, q: Seq<Seq<char>>)
    requires
        fail_rule_at(r, q),
        node_under(base, q) is Some,
    ensures
        lock_below(r, base) is Some,
    decreases q.len(),
{
    let be = base->Object_0;
    let k = q[0];
    lemma_fail_rule_child(r, q);
    let ci = key_index(r.children, k);
    lemma_key_index(r.children, k);
    lemma_key_index(be, k);
    let i = key_index(be, k);
    let c = r.children[ci].1;
    if q.len() > 1 {
        lemma_lock_found(c, be[i].1, q.drop_first());
    }
    assert(lock_at(r.children[ci], be) is Some);
    lemma_lock_in_some(r.children, be, ci);
}

/// A value with something at a `fail` rule's path, below a strategy-free
/// node, cannot be replaced wholesale: the lock search reports the rule,
/// however deep it sits.
pub proof fn law_lock_search_finds_every_set_fail_rule(r: RulesModel, base: ValueModel, q: Seq<Seq<char>>)
    requires
        fail_rule_at(r, q),
        node_under(base, q) is Some,
    ensures
        lock_below(r, base) is Some,
{
    lemma_lock_found(r, base, q);
}

/// What the lock search reports is a real lock: a `fail` rule at that path
/// below the node, where the searched value has something.
pub open spec fn real_lock(r: RulesModel, base: ValueModel, p: Seq<Seq<char>>) -> bool {
    &&& p.len() > 0
    &&& r.node_at(p) is Some
    &&& r.node_at(p)->Some_0.strategy == Some(Strategy::Fail)
    &&& node_under(base, p) is Some
}

/// In a well-formed trie a child's own index is where its key is found.
proof fn lemma_child_at(r: RulesModel, n: int)
    requires
        r.well_formed(),
        0 <= n < r.children.len(),
    ensures
        r.child(r.children[n].0) == Some(r.children[n].1),
{
    let k = r.children[n].0;
    lemma_key_index(r.children, k);
    let at = key_index(r.children, k);
    if at != n {
        if at < n {
            assert(chars_lt(r.children[at].0, r.children[n].0));
            lemma_chars_lt_asymmetric(r.children[at].0, r.children[n].0);
        } else {
            assert(at < 0);
        }
    }
}

proof fn lemma_lock_sound(r: RulesModel, base: ValueModel)
    requires
        r.well_formed(),
    ensures
        lock_below(r, base) matches Some(p) ==> real_lock(r, base, p),
    decreases r, 1int, 0int,
{
    if let ValueModel::Object(be) = base {
        assert(r.children.skip(0) =~= r.children);
        lemma_lock_in_sound(r, be, 0);
    }
}

proof fn lemma_lock_in_sound(r: RulesModel, be: Seq<(Seq<char>, ValueModel)>, n: int)
    requires
        r.well_formed(),
        0 <= n <= r.children.len(),
    ensures
        lock_in(r.children.skip(n), be) matches Some(p) ==> real_lock(r, ValueModel::Object(be), p),
    decreases r, 0int, r.children.len() - n,
{
    let rest = r.children.skip(n);
    if n < r.children.len() {
        assert(rest[0] == r.children[n]);
        assert(rest.drop_first() =~= r.children.skip(n + 1));
        let k = r.children[n].0;
        let c = r.children[n].1;
        let i = key_index(be, k);
        lemma_key_index(be, k);
        match lock_at(rest[0], be) {
            Some(p) => {
                lemma_child_at(r, n);
                assert(p[0] == k);
                if c.strategy == Some(Strategy::Fail) {
                    assert(p.drop_first() =~= Seq::<Seq<char>>::empty());
                    assert(c.node_at(p.drop_first()) == Some(c));
                    assert(node_under(be[i].1, p.drop_first()) == Some(be[i].1));
                } else {
                    let q = lock_below(c, be[i].1)->Some_0;
                    assert(c.well_formed());
                    assert(decreases_to!(r => r.children));
                    assert(decreases_to!(r.children => r.children[n]));
                    assert(decreases_to!(r.children[n] => r.children[n].1));
                    lemma_lock_sound(c, be[i].1);
                    assert(p.drop_first() =~= q);
                }
            },
            None => {
                lemma_lock_in_sound(r, be, n + 1);
            },
        }
    }
}

/// The lock search reports only real locks: a path, below the node, where
/// a `fail` rule stands and the searched value has something.
pub proof fn law_lock_search_reports_only_real_locks(r: RulesModel, base: ValueModel)
    requires
        r.well_formed(),
    ensures
        lock_below(r, base) matches Some(p) ==> real_lock(r, base, p),
{
    lemma_lock_sound(r, base);
}

/// Keys that keep their places keep where each key is found.
proof fn lemma_key_index_push(b: Seq<(Seq<char>, ValueModel)>, x: (Seq<char>, ValueModel), k: Seq<char>)
    requires
        key_index(b, k) >= 0,
    ensures
        key_index(b.push(x), k) == key_index(b, k),
{
    lemma_key_index(b, k);
    lemma_key_index(b.push(x), k);
    let idx = key_index(b, k);
    assert(b.push(x)[idx] == b[idx]);
    if key_index(b.push(x), k) >= 0 && key_index(b.push(x), k) < idx {
        assert(b.push(x)[key_index(b.push(x), k)] == b[key_index(b.push(x), k)]);
    }
}

/// A merge leaves the value at a `fail` rule's path alone, or fails.
proof fn lemma_merge_keeps(
    base: ValueModel,
    over: ValueModel,
    strict: bool,
    shallow: bool,
    r: RulesModel,
    path: Seq<Seq<char>>,
    q: Seq<Seq<char>>,
)
    requires
        r.strategy is None,
        fail_rule_at(r, q),
        node_under(base, q) is Some,
    ensures
        merge_spec(base, over, strict, shallow, Some(r), path) matches Ok(m) ==> node_under(m, q) == node_under(
            base,
            q,
        ),
    decreases over,
{
    match (base, over) {
        (ValueModel::Object(be), ValueModel::Object(oe)) => {
            if !(shallow && path.len() > 0) {
                lemma_entries_keeps(be, oe, strict, shallow, r, path, q);
            } else {
                lemma_lock_found(r, base, q);
            }
        },
        _ => {
            lemma_lock_found(r, base, q);
        },
    }
}

/// [`lemma_merge_keeps`] over the entries of an object, one key at a time.
proof fn lemma_entries_keeps(
    b: Seq<(Seq<char>, ValueModel)>,
    oe: Seq<(Seq<char>, ValueModel)>,
    strict: bool,
    shallow: bool,
    r: RulesModel,
    path: Seq<Seq<char>>,
    q: Seq<Seq<char>>,
)
    requires
        fail_rule_at(r, q),
        node_under(ValueModel::Object(b), q) is Some,
    ensures
        merge_entries_spec(b, oe, strict, shallow, Some(r), path) matches Ok(e) ==> node_under(
            ValueModel::Object(e),
            q,
        ) == node_under(ValueModel::Object(b), q),
    decreases oe,
{
    if oe.len() > 0 {
        let k = oe[0].0;
        let i = key_index(b, k);
        let q0 = q[0];
        lemma_key_index(b, k);
        lemma_key_index(b, q0);
        let at = key_index(b, q0);
        lemma_fail_rule_child(r, q);
        let c = r.child(q0)->Some_0;
        if i >= 0 {
            assert(decreases_to!(oe => oe[0]));
            let sub = merge_spec(b[i].1, oe[0].1, strict, shallow, r.child(k), path.push(k));
            if k == q0 {
                if q.len() > 1 {
                    lemma_merge_keeps(b[i].1, oe[0].1, strict, shallow, c, path.push(k), q.drop_first());
                }
                if let Ok(m) = sub {
                    let b2 = b.update(i, (k, m));
                    lemma_key_index_same_keys(b, b2, q0);
                    lemma_entries_keeps(b2, oe.drop_first(), strict, shallow, r, path, q);
                }
            } else {
                if let Ok(m) = sub {
                    let b2 = b.update(i, (k, m));
                    lemma_key_index_same_keys(b, b2, q0);
                    assert(b2[at] == b[at]);
                    lemma_entries_keeps(b2, oe.drop_first(), strict, shallow, r, path, q);
                }
            }
        } else {
            let b2 = b.push(oe[0]);
            lemma_key_index_push(b, oe[0], q0);
            assert(b2[at] == b[at]);
            lemma_entries_keeps(b2, oe.drop_first(), strict, shallow, r, path, q);
        }
    }
}

/// Once a value sits at a path a `fail` rule guards (no node above it
/// naming a strategy), merging any value over it either fails or leaves
/// that value exactly as it was: neither writing the path nor replacing an
/// ancestor wholesale gets past the rule.
pub proof fn law_merge_keeps_a_locked_value(
    base: ValueModel,
    over: ValueModel,
    strict: bool,
    shallow: bool,
    r: RulesModel,
    path: Seq<Seq<char>>,
    q: Seq<Seq<char>>,
)
    requires
        r.strategy is None,
        fail_rule_at(r, q),
        node_under(base, q) is Some,
    ensures
        merge_spec(base, over, strict, shallow, Some(r), path) matches Ok(m) ==> node_under(m, q) == node_under(
            base,
            q,
        ),
{
    lemma_merge_keeps(base, over, strict, shallow, r, path, q);
}

/// Folding layers over a document that already holds a value at a path a
/// `fail` rule guards either fails or ends with that same value there.
pub proof fn law_fold_keeps_a_locked_value(
    acc: ValueModel,
    layers: Seq<ValueModel>,
    strict: bool,
    shallow: bool,
    r: RulesModel,
    q: Seq<Seq<char>>,
)
    requires
        r.strategy is None,
        fail_rule_at(r, q),
        node_under(acc, q) is Some,
    ensures
        fold_spec(acc, layers, strict, shallow, r) matches Ok(m) ==> node_under(m, q) == node_under(acc, q),
    decreases layers.len(),
{
    if layers.len() > 0 {
        lemma_merge_keeps(acc, layers[0], strict, shallow, r, Seq::empty(), q);
        if let Ok(m) = merge_spec(acc, layers[0], strict, shallow, Some(r), Seq::empty()) {
            law_fold_keeps_a_locked_value(m, layers.drop_first(), strict, shallow, r, q);
        }
    }
}

/// `k` is found in `b` where it is found in `b0`, holding the same entry.
spec fn agrees_on(b: Seq<(Seq<char>, ValueModel)>, b0: Seq<(Seq<char>, ValueModel)>, k: Seq<char>) -> bool {
    &&& key_index(b, k) == key_index(b0, k)
    &&& key_index(b0, k) >= 0 ==> b[key_index(b0, k)] == b0[key_index(b0, k)]
}

/// The error path `p` of a merge at `path` names a guarded place: it lies
/// at or below `path`, a `fail` rule stands there, and `base` had a value
/// there.
pub open spec fn guarded(rules: Option<RulesModel>, base: ValueModel, path: Seq<Seq<char>>, p: Seq<Seq<char>>) -> bool {
    &&& rules is Some
    &&& path.is_prefix_of(p)
    &&& rules->Some_0.node_at(p.skip(path.len() as int)) is Some
    &&& rules->Some_0.node_at(p.skip(path.len() as int))->Some_0.strategy == Some(Strategy::Fail)
    &&& node_under(base, p.skip(path.len() as int)) is Some
}

/// Appending a new key leaves every other key absent that was absent.
proof fn lemma_key_index_push_absent(b: Seq<(Seq<char>, ValueModel)>, x: (Seq<char>, ValueModel), k: Seq<char>)
    requires
        key_index(b, k) < 0,
        x.0 != k,
    ensures
        key_index(b.push(x), k) < 0,
{
    lemma_key_index(b, k);
    lemma_key_index(b.push(x), k);
    if key_index(b.push(x), k) >= 0 {
        let at = key_index(b.push(x), k);
        if at < b.len() {
            assert(b.push(x)[at] == b[at]);
        }
    }
}

/// A guarded path one key down is guarded from the node above.
proof fn lemma_guarded_up(
    r: RulesModel,
    b: Seq<(Seq<char>, ValueModel)>,
    b0: Seq<(Seq<char>, ValueModel)>,
    path: Seq<Seq<char>>,
    k: Seq<char>,
    p: Seq<Seq<char>>,
)
    requires
        key_index(b, k) >= 0,
        agrees_on(b, b0, k),
        guarded(r.child(k), b[key_index(b, k)].1, path.push(k), p),
    ensures
        guarded(Some(r), ValueModel::Object(b0), path, p),
{
    let c = r.child(k)->Some_0;
    let n = path.len() as int;
    let rest = p.skip(n + 1);
    let here = p.skip(n);
    assert(path.push(k).is_prefix_of(p));
    assert(path =~= p.subrange(0, n)) by {
        assert forall|t: int| 0 <= t < n implies path[t] == p.subrange(0, n)[t] by {
            assert(path.push(k)[t] == path[t]);
            assert(p.subrange(0, n + 1)[t] == p[t]);
        }
    }
    assert(p[n] == k) by {
        assert(path.push(k)[n] == k);
        assert(p.subrange(0, n + 1)[n] == p[n]);
    }
    assert(here.len() > 0);
    assert(here[0] == k);
    assert(here.drop_first() =~= rest);
    assert(r.node_at(here) == c.node_at(rest));
    lemma_key_index(b0, k);
    assert(node_under(ValueModel::Object(b0), here) == node_under(b0[key_index(b0, k)].1, rest));
}

proof fn lemma_merge_lock_sound(
    base: ValueModel,
    over: ValueModel,
    strict: bool,
    shallow: bool,
    rules: Option<RulesModel>,
    path: Seq<Seq<char>>,
)
    requires
        rules is Some ==> rules->Some_0.well_formed(),
        over.well_formed(),
    ensures
        merge_spec(base, over, strict, shallow, rules, path) matches Err(MergeFault::Locked { path: p }) ==> guarded(
            rules,
            base,
            path,
            p,
        ),
    decreases over,
{
    match rules {
        Some(r) => {
            if r.strategy == Some(Strategy::Fail) {
                assert(path.skip(path.len() as int) =~= Seq::<Seq<char>>::empty());
                assert(path =~= path.subrange(0, path.len() as int));
            } else if r.strategy is None {
                match (base, over) {
                    (ValueModel::Object(be), ValueModel::Object(oe)) if !(shallow && path.len() > 0) => {
                        lemma_entries_lock_sound(be, be, oe, strict, shallow, rules, path);
                    },
                    _ => {
                        lemma_lock_sound(r, base);
                        if let Some(q) = lock_below(r, base) {
                            assert((path + q).skip(path.len() as int) =~= q);
                            assert(path =~= (path + q).subrange(0, path.len() as int));
                        }
                    },
                }
            }
        },
        None => {
            match (base, over) {
                (ValueModel::Object(be), ValueModel::Object(oe)) if !(shallow && path.len() > 0) => {
                    lemma_entries_lock_sound(be, be, oe, strict, shallow, rules, path);
                },
                _ => {},
            }
        },
    }
}

proof fn lemma_entries_lock_sound(
    b: Seq<(Seq<char>, ValueModel)>,
    b0: Seq<(Seq<char>, ValueModel)>,
    oe: Seq<(Seq<char>, ValueModel)>,
    strict: bool,
    shallow: bool,
    rules: Option<RulesModel>,
    path: Seq<Seq<char>>,
)
    requires
        rules is Some ==> rules->Some_0.well_formed(),
        crate::value::keys_distinct(oe),
        forall|j: int| 0 <= j < oe.len() ==> (#[trigger] oe[j]).1.well_formed(),
        forall|j: int| 0 <= j < oe.len() ==> agrees_on(b, b0, (#[trigger] oe[j]).0),
    ensures
        merge_entries_spec(b, oe, strict, shallow, rules, path) matches Err(MergeFault::Locked { path: p })
            ==> guarded(rules, ValueModel::Object(b0), path, p),
    decreases oe,
{
    if oe.len() > 0 {
        let k = oe[0].0;
        let i = key_index(b, k);
        lemma_key_index(b, k);
        let sub_rules = match rules {
            Some(r) => r.child(k),
            None => None,
        };
        let rest = oe.drop_first();
        assert forall|j: int| 0 <= j < rest.len() implies (#[trigger] rest[j]).1.well_formed() by {
            assert(rest[j] == oe[j + 1]);
        }
        assert(crate::value::keys_distinct(rest)) by {
            assert forall|a: int, c: int| 0 <= a < rest.len() && 0 <= c < rest.len() && a != c implies rest[a].0 != rest[c].0 by {
                assert(rest[a] == oe[a + 1]);
                assert(rest[c] == oe[c + 1]);
            }
        }
        let b2 = if i >= 0 {
            assert(decreases_to!(oe => oe[0]));
            if let Some(r) = rules {
                crate::value::lemma_key_index(r.children, k);
                if r.child(k) is Some {
                    assert(r.children[key_index(r.children, k)].1.well_formed());
                }
            }
            lemma_merge_lock_sound(b[i].1, oe[0].1, strict, shallow, sub_rules, path.push(k));
            match merge_spec(b[i].1, oe[0].1, strict, shallow, sub_rules, path.push(k)) {
                Ok(m) => b.update(i, (k, m)),
                Err(f) => {
                    if let MergeFault::Locked { path: p } = f {
                        assert(agrees_on(b, b0, oe[0].0));
                        lemma_guarded_up(rules->Some_0, b, b0, path, k, p);
                    }
                    b
                },
            }
        } else {
            b.push(oe[0])
        };
        if merge_entries_spec(b, oe, strict, shallow, rules, path) == merge_entries_spec(
            b2,
            rest,
            strict,
            shallow,
            rules,
            path,
        ) {
            assert forall|j: int| 0 <= j < rest.len() implies agrees_on(b2, b0, (#[trigger] rest[j]).0) by {
                let k2 = rest[j].0;
                assert(rest[j] == oe[j + 1]);
                assert(k2 != k);
                assert(agrees_on(b, b0, oe[j + 1].0));
                lemma_key_index(b, k2);
                if i >= 0 {
                    lemma_key_index_same_keys(b, b2, k2);
                    if key_index(b, k2) >= 0 {
                        assert(b2[key_index(b, k2)] == b[key_index(b, k2)]);
                    }
                } else if key_index(b, k2) >= 0 {
                    lemma_key_index_push(b, oe[0], k2);
                    assert(b2[key_index(b, k2)] == b[key_index(b, k2)]);
                } else {
                    lemma_key_index_push_absent(b, oe[0], k2);
                }
            }
            lemma_entries_lock_sound(b2, b0, rest, strict, shallow, rules, path);
        }
    }
}

/// A merge that fails on a `fail` rule names a place the rule guards: at or
/// below where the merge stands, a `fail` rule is there, and the base
/// already had a value there — a later layer never trips a lock on a path
/// the document had left unset.
pub proof fn law_a_lock_error_names_a_guarded_path(
    base: ValueModel,
    over: ValueModel,
    strict: bool,
    shallow: bool,
    r: RulesModel,
    path: Seq<Seq<char>>,
)
    requires
        r.well_formed(),
        over.well_formed(),
    ensures
        merge_spec(base, over, strict, shallow, Some(r), path) matches Err(MergeFault::Locked { path: p }) ==> guarded(
            Some(r),
            base,
            path,
            p,
        ),
{
    lemma_merge_lock_sound(base, over, strict, shallow, Some(r), path);
}

} // verus!
