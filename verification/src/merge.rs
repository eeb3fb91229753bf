//! The layered merge.
//!
//! Objects recurse per key; every other kind replaces wholesale. Arrays are
//! never index-merged, and null is an ordinary value that overwrites rather
//! than a delete instruction. A [`Rules`] set overrides that default at named
//! paths, and strict mode rejects a layer that changes the kind of an
//! existing value.
//!
//! The fold over a layer list must be strictly left over the *flat* list:
//! merge is not associative, since a scalar shadowing an object discards it.

use vstd::prelude::*;
use crate::path::{keys_view, render_keys, rendered_keys};
use crate::rules::{lock_below, lock_in, Rules, RulesModel, Strategy};
use crate::text::{owned, push_str};
use crate::value::{entries_model, find_key, key_index, keys_distinct, lemma_key_index, lemma_object_model, Kind, Value, ValueModel};

verus! {

/// Knobs on the merge itself.
#[derive(Debug, PartialEq, Eq)]
pub struct MergeOptions {
    /// Error when a layer changes the kind of an existing value.
    pub strict: bool,
    /// Merge top-level keys only: every value below the root is replaced
    /// wholesale, object or not.
    pub shallow: bool,
    /// Per-path strategies that override the default merge.
    pub rules: Rules,
}

impl MergeOptions {
    /// The default: last layer wins, no type checking, no rules.
    pub fn last_wins() -> (o: MergeOptions)
        ensures
            !o.strict,
            !o.shallow,
            o.rules.model().strategy is None,
            o.rules.model().children.len() == 0,
    {
        MergeOptions { strict: false, shallow: false, rules: Rules::empty() }
    }

    /// Error when a layer changes the kind of an existing value.
    pub fn strict() -> (o: MergeOptions)
        ensures
            o.strict,
            !o.shallow,
            o.rules.model().strategy is None,
            o.rules.model().children.len() == 0,
    {
        MergeOptions { strict: true, shallow: false, rules: Rules::empty() }
    }

    /// Merge top-level keys only.
    pub fn shallow() -> (o: MergeOptions)
        ensures
            !o.strict,
            o.shallow,
            o.rules.model().strategy is None,
            o.rules.model().children.len() == 0,
    {
        MergeOptions { strict: false, shallow: true, rules: Rules::empty() }
    }
}

/// Why a merge failed, by key path.
pub enum MergeFault {
    TypeConflict { path: Seq<Seq<char>>, expected: Kind, found: Kind },
    Locked { path: Seq<Seq<char>> },
    AppendKind { path: Seq<Seq<char>>, base: Kind, over: Kind },
}

impl MergeFault {
    pub open spec fn path(self) -> Seq<Seq<char>> {
        match self {
            MergeFault::TypeConflict { path, .. } => path,
            MergeFault::Locked { path } => path,
            MergeFault::AppendKind { path, .. } => path,
        }
    }
}

/// Why a merge failed. Carries a key path and the kinds involved — no
/// filenames, no layer indices, no flag names.
#[derive(Debug, PartialEq, Eq)]
pub enum MergeError {
    /// A layer replaced an existing value with a value of a different kind.
    TypeConflict { path: Vec<String>, expected: Kind, found: Kind },
    /// A later layer set a path that a `fail` rule pins to the first layer
    /// that sets it.
    Locked { path: Vec<String> },
    /// An `append` rule met a value that is not an array.
    AppendKind { path: Vec<String>, base: Kind, over: Kind },
}

impl View for MergeError {
    type V = MergeFault;

    open spec fn view(&self) -> MergeFault {
        match self {
            MergeError::TypeConflict { path, expected, found } => MergeFault::TypeConflict {
                path: keys_view(path@),
                expected: *expected,
                found: *found,
            },
            MergeError::Locked { path } => MergeFault::Locked { path: keys_view(path@) },
            MergeError::AppendKind { path, base, over } => MergeFault::AppendKind {
                path: keys_view(path@),
                base: *base,
                over: *over,
            },
        }
    }
}

/// The message a merge fault displays.
pub open spec fn merge_fault_text(f: MergeFault) -> Seq<char> {
    match f {
        MergeFault::TypeConflict { path, expected, found } => "type conflict at `"@ + rendered_keys(path)
            + "`: "@ + expected.label()@ + " would be replaced by "@ + found.label()@,
        MergeFault::Locked { path } => "`"@ + rendered_keys(path)
            + "` is locked: a later layer sets it again"@,
        MergeFault::AppendKind { path, base, over } => "cannot append at `"@ + rendered_keys(path)
            + "`: "@ + base.label()@ + " and "@ + over.label()@ + " are not both arrays"@,
    }
}

impl MergeError {
    /// The key path the merge failed at.
    pub fn path(&self) -> (r: &[String])
        ensures
            keys_view(r@) == self@.path(),
    {
        match self {
            MergeError::TypeConflict { path, .. } => path.as_slice(),
            MergeError::Locked { path } => path.as_slice(),
            MergeError::AppendKind { path, .. } => path.as_slice(),
        }
    }

    /// The message, as `Display` would print it.
    pub fn to_string(&self) -> (out: String)
        ensures
            out@ == merge_fault_text(self@),
    {
        match self {
            MergeError::TypeConflict { path, expected, found } => {
                let mut out = owned("type conflict at `");
                push_str(&mut out, render_keys(path.as_slice()).as_str());
                push_str(&mut out, "`: ");
                push_str(&mut out, expected.name());
                push_str(&mut out, " would be replaced by ");
                push_str(&mut out, found.name());
                out
            },
            MergeError::Locked { path } => {
                let mut out = owned("`");
                push_str(&mut out, render_keys(path.as_slice()).as_str());
                push_str(&mut out, "` is locked: a later layer sets it again");
                out
            },
            MergeError::AppendKind { path, base, over } => {
                let mut out = owned("cannot append at `");
                push_str(&mut out, render_keys(path.as_slice()).as_str());
                push_str(&mut out, "`: ");
                push_str(&mut out, base.name());
                push_str(&mut out, " and ");
                push_str(&mut out, over.name());
                push_str(&mut out, " are not both arrays");
                out
            },
        }
    }
}

// --- the merge, as a function on denotations ------------------------------

/// The rules below `key`, if any.
pub open spec fn rules_under(rules: Option<RulesModel>, key: Seq<char>) -> Option<RulesModel> {
    match rules {
        Some(r) => r.child(key),
        None => None,
    }
}

/// The strategy a rule names exactly here, if any.
pub open spec fn strategy_here(rules: Option<RulesModel>) -> Option<Strategy> {
    match rules {
        Some(r) => r.strategy,
        None => None,
    }
}

/// Strict mode's check: replacing `base` by `over` must keep the kind.
pub open spec fn kind_check(base: ValueModel, over: ValueModel, strict: bool, path: Seq<Seq<char>>) -> Option<MergeFault> {
    if strict && base.kind() != over.kind() {
        Some(MergeFault::TypeConflict { path, expected: base.kind(), found: over.kind() })
    } else {
        None
    }
}

/// Replacing `base` wholesale at `path`: the kind check, then any `fail`
/// rule below whose path `base` has a value at.
pub open spec fn replace_spec(
    base: ValueModel,
    over: ValueModel,
    strict: bool,
    rules: Option<RulesModel>,
    path: Seq<Seq<char>>,
) -> Result<ValueModel, MergeFault> {
    match kind_check(base, over, strict, path) {
        Some(f) => Err(f),
        None => match rules {
            Some(r) => match lock_below(r, base) {
                Some(q) => Err(MergeFault::Locked { path: path + q }),
                None => Ok(over),
            },
            None => Ok(over),
        },
    }
}

/// `over` merged into `base` at `path`, under the rules found there.
pub open spec fn merge_spec(
    base: ValueModel,
    over: ValueModel,
    strict: bool,
    shallow: bool,
    rules: Option<RulesModel>,
    path: Seq<Seq<char>>,
) -> Result<ValueModel, MergeFault>
    decreases over,
{
    match strategy_here(rules) {
        Some(Strategy::Append) => match (base, over) {
            (ValueModel::Array(a), ValueModel::Array(b)) => Ok(ValueModel::Array(a + b)),
            _ => Err(MergeFault::AppendKind { path, base: base.kind(), over: over.kind() }),
        },
        Some(Strategy::Replace) => match kind_check(base, over, strict, path) {
            Some(f) => Err(f),
            None => Ok(over),
        },
        Some(Strategy::Fail) => Err(MergeFault::Locked { path }),
        None => match (base, over) {
            (ValueModel::Object(be), ValueModel::Object(oe)) => if shallow && path.len() > 0 {
                replace_spec(base, over, strict, rules, path)
            } else {
                match merge_entries_spec(be, oe, strict, shallow, rules, path) {
                    Ok(e) => Ok(ValueModel::Object(e)),
                    Err(f) => Err(f),
                }
            },
            _ => replace_spec(base, over, strict, rules, path),
        },
    }
}

/// The entries `over` merged into the entries `base`, one key at a time and
/// in `over`'s order: a key `base` has recurses, a new key is appended.
pub open spec fn merge_entries_spec(
    base: Seq<(Seq<char>, ValueModel)>,
    over: Seq<(Seq<char>, ValueModel)>,
    strict: bool,
    shallow: bool,
    rules: Option<RulesModel>,
    path: Seq<Seq<char>>,
) -> Result<Seq<(Seq<char>, ValueModel)>, MergeFault>
    decreases over,
{
    if over.len() == 0 {
        Ok(base)
    } else {
        let k = over[0].0;
        let i = key_index(base, k);
        let step = if i >= 0 {
            proof {
                assert(decreases_to!(over => over[0]));
            }
            match merge_spec(base[i].1, over[0].1, strict, shallow, rules_under(rules, k), path.push(k)) {
                Ok(m) => Ok(base.update(i, (k, m))),
                Err(f) => Err(f),
            }
        } else {
            Ok(base.push(over[0]))
        };
        match step {
            Ok(b) => merge_entries_spec(b, over.drop_first(), strict, shallow, rules, path),
            Err(f) => Err(f),
        }
    }
}

/// The layers folded left into `acc`.
pub open spec fn fold_spec(
    acc: ValueModel,
    layers: Seq<ValueModel>,
    strict: bool,
    shallow: bool,
    rules: RulesModel,
) -> Result<ValueModel, MergeFault>
    decreases layers.len(),
{
    if layers.len() == 0 {
        Ok(acc)
    } else {
        match merge_spec(acc, layers[0], strict, shallow, Some(rules), Seq::empty()) {
            Ok(m) => fold_spec(m, layers.drop_first(), strict, shallow, rules),
            Err(f) => Err(f),
        }
    }
}

/// What a merge call returns, against what the specification says.
pub open spec fn merge_result_is(r: Result<Value, MergeError>, s: Result<ValueModel, MergeFault>) -> bool {
    match r {
        Ok(v) => s == Ok::<ValueModel, MergeFault>(v.model()),
        Err(e) => s == Err::<ValueModel, MergeFault>(e@),
    }
}

// --- the merge, executable -------------------------------------------------

/// A copy of `path` with `key` appended.
fn child_path(path: &Vec<String>, key: &String) -> (out: Vec<String>)
    ensures
        keys_view(out@) == keys_view(path@).push(key@),
{
    let mut out = crate::rules::clone_keys(path.as_slice());
    let ghost before = out@;
    out.push(key.clone());
    proof {
        assert(keys_view(out@) =~= keys_view(before).push(key@));
    }
    out
}

/// A copy of the path `path ++ tail`.
fn joined_path(path: &Vec<String>, tail: Vec<String>) -> (out: Vec<String>)
    ensures
        keys_view(out@) == keys_view(path@) + keys_view(tail@),
{
    let mut out = crate::rules::clone_keys(path.as_slice());
    let mut i: usize = 0;
    let ghost start = keys_view(out@);
    while i < tail.len()
        invariant
            i <= tail@.len(),
            start == keys_view(path@),
            keys_view(out@) == start + keys_view(tail@.take(i as int)),
        decreases tail.len() - i,
    {
        let ghost prev = out@;
        out.push(tail[i].clone());
        proof {
            assert(keys_view(out@) =~= keys_view(prev).push(tail@[i as int]@));
            assert(keys_view(tail@.take(i + 1)) =~= keys_view(tail@.take(i as int)).push(tail@[i as int]@));
        }
        i += 1;
    }
    proof {
        assert(tail@.take(tail@.len() as int) =~= tail@);
    }
    out
}

/// Replaces `base` wholesale after the kind check and the lock check.
fn replace_value(base: Value, over: Value, strict: bool, rules: Option<&Rules>, path: &Vec<String>) -> (r: Result<Value, MergeError>)
    ensures
        merge_result_is(
            r,
            replace_spec(
                base.model(),
                over.model(),
                strict,
                match rules {
                    Some(x) => Some(x.model()),
                    None => None,
                },
                keys_view(path@),
            ),
        ),
{
    if strict {
        let expected = base.kind_of();
        let found = over.kind_of();
        if expected != found {
            return Err(MergeError::TypeConflict { path: crate::rules::clone_keys(path.as_slice()), expected, found });
        }
    }
    match rules {
        Some(r) => match r.first_lock(&base) {
            Some(q) => Err(MergeError::Locked { path: joined_path(path, q) }),
            None => Ok(over),
        },
        None => Ok(over),
    }
}

/// `over` merged into `base` at `path`, under `rules`, the rules found there.
pub fn merge_value(
    base: Value,
    over: Value,
    strict: bool,
    shallow: bool,
    rules: Option<&Rules>,
    path: &Vec<String>,
) -> (r: Result<Value, MergeError>)
    ensures
        merge_result_is(
            r,
            merge_spec(
                base.model(),
                over.model(),
                strict,
                shallow,
                match rules {
                    Some(x) => Some(x.model()),
                    None => None,
                },
                keys_view(path@),
            ),
        ),
    decreases over,
{
    let ghost rm = match rules {
        Some(x) => Some(x.model()),
        None => None,
    };
    let here = match rules {
        Some(x) => x.strategy(),
        None => None,
    };
    match here {
        Some(Strategy::Append) => {
            match (base, over) {
                (Value::Array(a), Value::Array(b)) => {
                    proof {
                        crate::value::lemma_array_model(a);
                        crate::value::lemma_array_model(b);
                    }
                    let mut a = a;
                    let mut b = b;
                    let ghost am = a@;
                    let ghost bm = b@;
                    a.append(&mut b);
                    proof {
                        crate::value::lemma_array_model(a);
                        assert(a@.map_values(|v: Value| v.model()) =~= am.map_values(|v: Value| v.model())
                            + bm.map_values(|v: Value| v.model()));
                    }
                    Ok(Value::Array(a))
                },
                (base, over) => Err(MergeError::AppendKind {
                    path: crate::rules::clone_keys(path.as_slice()),
                    base: base.kind_of(),
                    over: over.kind_of(),
                }),
            }
        },
        Some(Strategy::Replace) => {
            if strict {
                let expected = base.kind_of();
                let found = over.kind_of();
                if expected != found {
                    return Err(MergeError::TypeConflict { path: crate::rules::clone_keys(path.as_slice()), expected, found });
                }
            }
            Ok(over)
        },
        Some(Strategy::Fail) => Err(MergeError::Locked { path: crate::rules::clone_keys(path.as_slice()) }),
        None => {
            match (base, over) {
                (Value::Object(be), Value::Object(oe)) => {
                    if shallow && path.len() > 0 {
                        replace_value(Value::Object(be), Value::Object(oe), strict, rules, path)
                    } else {
                        proof {
                            lemma_object_model(be);
                            lemma_object_model(oe);
                        }
                        match merge_entries(be, oe, strict, shallow, rules, path) {
                            Ok(e) => {
                                proof {
                                    lemma_object_model(e);
                                }
                                Ok(Value::Object(e))
                            },
                            Err(f) => Err(f),
                        }
                    }
                },
                (base, over) => replace_value(base, over, strict, rules, path),
            }
        },
    }
}

/// The entries `over` merged into the entries `base`, in `over`'s order.
fn merge_entries(
    base: Vec<(String, Value)>,
    over: Vec<(String, Value)>,
    strict: bool,
    shallow: bool,
    rules: Option<&Rules>,
    path: &Vec<String>,
) -> (r: Result<Vec<(String, Value)>, MergeError>)
    ensures
        match r {
            Ok(e) => merge_entries_spec(
                entries_model(base@),
                entries_model(over@),
                strict,
                shallow,
                match rules {
                    Some(x) => Some(x.model()),
                    None => None,
                },
                keys_view(path@),
            ) == Ok::<Seq<(Seq<char>, ValueModel)>, MergeFault>(entries_model(e@)),
            Err(f) => merge_entries_spec(
                entries_model(base@),
                entries_model(over@),
                strict,
                shallow,
                match rules {
                    Some(x) => Some(x.model()),
                    None => None,
                },
                keys_view(path@),
            ) == Err::<Seq<(Seq<char>, ValueModel)>, MergeFault>(f@),
        },
    decreases over,
{
    let ghost rm = match rules {
        Some(x) => Some(x.model()),
        None => None,
    };
    let ghost sp = keys_view(path@);
    let ghost all = over@;
    let ghost om = entries_model(over@);
    let ghost over0 = over;
    let ghost bm0 = entries_model(base@);
    let mut acc = base;
    proof {
        assert(om.skip(0) =~= om);
    }
    for item in it: over.into_iter()
        invariant
            it.seq() == all,
            all == over0@,
            om == entries_model(all),
            bm0 == entries_model(base@),
            om == entries_model(over@),
            sp == keys_view(path@),
            rm == match rules {
                Some(x) => Some(x.model()),
                None => None,
            },
            merge_entries_spec(bm0, om, strict, shallow, rm, sp) == merge_entries_spec(
                entries_model(acc@),
                om.skip(it.index() as int),
                strict,
                shallow,
                rm,
                sp,
            ),
    {
        let ghost cur = entries_model(acc@);
        let ghost i = it.index() as int;
        let ghost rest = om.skip(i);
        proof {
            assert(all[i] == item);
            assert(rest[0] == om[i]);
            assert(rest.drop_first() =~= om.skip(i + 1));
        }
        let (k, v) = item;
        let found = find_key(&acc, k.as_str());
        proof {
            crate::value::lemma_key_index(cur, k@);
        }
        match found {
            Some(bi) => {
                let (bk, bv) = acc.remove(bi);
                let child = match rules {
                    Some(r) => r.child(k.as_str()),
                    None => None,
                };
                let cp = child_path(path, &k);
                proof {
                    assert(decreases_to!(over0 => over0@));
                    assert(decreases_to!(over0@ => over0@[i]));
                    assert(decreases_to!(over0@[i] => over0@[i].1));
                    assert(cur[bi as int].1 == bv.model());
                }
                let ghost cm = match child {
                    Some(x) => Some(x.model()),
                    None => None,
                };
                proof {
                    assert(cm == rules_under(rm, rest[0].0));
                    assert(keys_view(cp@) == sp.push(rest[0].0));
                    assert(key_index(cur, rest[0].0) == bi);
                }
                let ghost vm = v.model();
                let r = merge_value(bv, v, strict, shallow, child, &cp);
                proof {
                    assert(merge_result_is(r, merge_spec(cur[bi as int].1, rest[0].1, strict, shallow, cm, sp.push(rest[0].0))));
                }
                match r {
                    Ok(m) => {
                        let ghost mm = m.model();
                        acc.insert(bi, (k, m));
                        proof {
                            assert(entries_model(acc@) =~= cur.update(bi as int, (om[i].0, mm)));
                        }
                    },
                    Err(f) => {
                        proof {
                            assert(merge_entries_spec(cur, rest, strict, shallow, rm, sp) == Err::<Seq<(Seq<char>, ValueModel)>, MergeFault>(f@));
                            assert(merge_entries_spec(bm0, om, strict, shallow, rm, sp) == Err::<Seq<(Seq<char>, ValueModel)>, MergeFault>(f@));
                                        }
                        return Err(f);
                    },
                }
            },
            None => {
                acc.push((k, v));
                proof {
                    assert(entries_model(acc@) =~= cur.push(om[i]));
                }
            },
        }
    }
    proof {
        assert(om.skip(all.len() as int).len() == 0);
    }
    Ok(acc)
}

// --- the public fold --------------------------------------------------------

/// Folds a list of layers into one document, seeded with an empty object.
///
/// The fold is strictly left over the flat layer list.
pub fn merge_with(layers: Vec<Value>, opts: &MergeOptions) -> (r: Result<Value, MergeError>)
    ensures
        merge_result_is(
            r,
            fold_spec(
                ValueModel::Object(Seq::empty()),
                layers@.map_values(|v: Value| v.model()),
                opts.strict,
                opts.shallow,
                opts.rules.model(),
            ),
        ),
{
    let ghost lm = layers@.map_values(|v: Value| v.model());
    let ghost all = layers@;
    let empty: Vec<(String, Value)> = Vec::new();
    proof {
        lemma_object_model(empty);
        assert(entries_model(empty@) =~= Seq::<(Seq<char>, ValueModel)>::empty());
        assert(lm.skip(0) =~= lm);
    }
    let mut acc = Value::Object(empty);
    let ghost acc0 = acc.model();
    let root: Vec<String> = Vec::new();
    for layer in it: layers.into_iter()
        invariant
            it.seq() == all,
            lm == all.map_values(|v: Value| v.model()),
            lm == layers@.map_values(|v: Value| v.model()),
            acc0 == ValueModel::Object(Seq::empty()),
            keys_view(root@) == Seq::<Seq<char>>::empty(),
            fold_spec(acc0, lm, opts.strict, opts.shallow, opts.rules.model()) == fold_spec(
                acc.model(),
                lm.skip(it.index() as int),
                opts.strict,
                opts.shallow,
                opts.rules.model(),
            ),
    {
        let ghost i = it.index() as int;
        proof {
            assert(all[i] == layer);
            assert(lm.skip(i)[0] == layer.model());
            assert(lm.skip(i).drop_first() =~= lm.skip(i + 1));
        }
        let prev = acc;
        let ghost pm = prev.model();
        let r = merge_value(prev, layer, opts.strict, opts.shallow, Some(&opts.rules), &root);
        proof {
            assert(merge_result_is(r, merge_spec(pm, lm.skip(i)[0], opts.strict, opts.shallow, Some(opts.rules.model()), Seq::empty())));
        }
        match r {
            Ok(m) => {
                acc = m;
            },
            Err(f) => {
                proof {
                    assert(fold_spec(pm, lm.skip(i), opts.strict, opts.shallow, opts.rules.model()) == Err::<ValueModel, MergeFault>(f@));
                }
                return Err(f);
            },
        }
    }
    proof {
        assert(lm.skip(all.len() as int).len() == 0);
    }
    Ok(acc)
}

/// `layer` merged into `acc`. On error `acc` is left as it was.
pub fn merge_into(acc: &mut Value, layer: Value, opts: &MergeOptions) -> (r: Result<(), MergeError>)
    ensures
        match r {
            Ok(_) => merge_spec(old(acc).model(), layer.model(), opts.strict, opts.shallow, Some(opts.rules.model()), Seq::empty())
                == Ok::<ValueModel, MergeFault>(final(acc).model()),
            Err(f) => merge_spec(old(acc).model(), layer.model(), opts.strict, opts.shallow, Some(opts.rules.model()), Seq::empty())
                == Err::<ValueModel, MergeFault>(f@) && final(acc).model() == old(acc).model(),
        },
{
    let root: Vec<String> = Vec::new();
    proof {
        assert(keys_view(root@) =~= Seq::<Seq<char>>::empty());
    }
    let base = acc.duplicate();
    match merge_value(base, layer, opts.strict, opts.shallow, Some(&opts.rules), &root) {
        Ok(m) => {
            *acc = m;
            Ok(())
        },
        Err(f) => Err(f),
    }
}

/// The last-wins merge of `layers`: no type checking, no rules.
pub fn merge(layers: Vec<Value>) -> (r: Result<Value, MergeError>)
    ensures
        merge_result_is(
            r,
            fold_spec(
                ValueModel::Object(Seq::empty()),
                layers@.map_values(|v: Value| v.model()),
                false,
                false,
                RulesModel { strategy: None, children: Seq::empty() },
            ),
        ),
{
    let opts = MergeOptions::last_wins();
    proof {
        assert(opts.rules.model().children =~= Seq::<(Seq<char>, RulesModel)>::empty());
    }
    merge_with(layers, &opts)
}

/// The kind of a value, for conflict reporting and parse errors: a TOML
/// integer and float are one kind, and a datetime is its own.
pub fn toml_kind(v: &Value) -> (r: &'static str)
    ensures
        r == v.model().kind().label(),
{
    v.kind()
}

/// Merges `over` into `base` in place. On error `base` is left as it was.
pub fn merge_toml(base: &mut Value, over: Value, opts: &MergeOptions) -> (r: Result<(), MergeError>)
    ensures
        match r {
            Ok(_) => merge_spec(old(base).model(), over.model(), opts.strict, opts.shallow, Some(opts.rules.model()), Seq::empty())
                == Ok::<ValueModel, MergeFault>(final(base).model()),
            Err(f) => merge_spec(old(base).model(), over.model(), opts.strict, opts.shallow, Some(opts.rules.model()), Seq::empty())
                == Err::<ValueModel, MergeFault>(f@) && final(base).model() == old(base).model(),
        },
{
    merge_into(base, over, opts)
}

/// Folds a list of layers into one document, seeded with an empty table.
pub fn merge_all_toml(layers: Vec<Value>, opts: &MergeOptions) -> (r: Result<Value, MergeError>)
    ensures
        merge_result_is(
            r,
            fold_spec(
                ValueModel::Object(Seq::empty()),
                layers@.map_values(|v: Value| v.model()),
                opts.strict,
                opts.shallow,
                opts.rules.model(),
            ),
        ),
{
    merge_with(layers, opts)
}

// --- laws -----------------------------------------------------------------

/// Rules that say nothing: none at all, or an empty set.
pub open spec fn inert(rules: Option<RulesModel>) -> bool {
    match rules {
        Some(r) => r.strategy is None && r.children.len() == 0,
        None => true,
    }
}

/// A layer merged over itself changes nothing, whatever the knobs, when no
/// rule applies: `knf a.json` is a no-op.
pub proof fn law_merge_with_itself_is_identity(
    a: ValueModel,
    strict: bool,
    shallow: bool,
    rules: Option<RulesModel>,
    path: Seq<Seq<char>>,
)
    requires
        a.well_formed(),
        inert(rules),
    ensures
        merge_spec(a, a, strict, shallow, rules, path) == Ok::<ValueModel, MergeFault>(a),
    decreases a,
{
    if let Some(r) = rules {
        assert forall|k: Seq<char>| #[trigger] r.child(k) is None by {
            crate::value::lemma_key_index(r.children, k);
        }
        if a is Object {
            let e = a->Object_0;
            assert(lock_in(r.children, e) is None);
        }
    }
    match a {
        ValueModel::Object(e) => {
            if !(shallow && path.len() > 0) {
                assert(e.skip(0) =~= e);
                lemma_entries_with_themselves(e, e, 0, strict, shallow, rules, path);
            }
        },
        _ => {},
    }
}

/// The entries of an object merged over themselves, from the `n`th on.
proof fn lemma_entries_with_themselves(
    base: Seq<(Seq<char>, ValueModel)>,
    over: Seq<(Seq<char>, ValueModel)>,
    n: int,
    strict: bool,
    shallow: bool,
    rules: Option<RulesModel>,
    path: Seq<Seq<char>>,
)
    requires
        crate::value::keys_distinct(base),
        forall|i: int| 0 <= i < base.len() ==> (#[trigger] base[i]).1.well_formed(),
        0 <= n <= base.len(),
        over == base.skip(n),
        inert(rules),
    ensures
        merge_entries_spec(base, over, strict, shallow, rules, path) == Ok::<Seq<(Seq<char>, ValueModel)>, MergeFault>(base),
    decreases over,
{
    if over.len() > 0 {
        let k = over[0].0;
        assert(over[0] == base[n]);
        crate::value::lemma_key_index_distinct(base, n);
        if let Some(r) = rules {
            crate::value::lemma_key_index(r.children, k);
        }
        assert(decreases_to!(over => over[0]));
        law_merge_with_itself_is_identity(base[n].1, strict, shallow, rules_under(rules, k), path.push(k));
        assert(base.update(n, (k, base[n].1)) =~= base);
        assert(over.drop_first() =~= base.skip(n + 1));
        lemma_entries_with_themselves(base, over.drop_first(), n + 1, strict, shallow, rules, path);
    }
}

/// Strict mode never changes a result, it only rejects one: whenever it
/// succeeds it agrees with the default merge.
pub proof fn law_strict_agrees_when_it_succeeds(
    base: ValueModel,
    over: ValueModel,
    shallow: bool,
    rules: Option<RulesModel>,
    path: Seq<Seq<char>>,
)
    requires
        merge_spec(base, over, true, shallow, rules, path) is Ok,
    ensures
        merge_spec(base, over, false, shallow, rules, path) == merge_spec(base, over, true, shallow, rules, path),
    decreases over,
{
    match strategy_here(rules) {
        None => match (base, over) {
            (ValueModel::Object(be), ValueModel::Object(oe)) => {
                if !(shallow && path.len() > 0) {
                    lemma_strict_entries_agree(be, oe, shallow, rules, path);
                }
            },
            _ => {},
        },
        _ => {},
    }
}

proof fn lemma_strict_entries_agree(
    base: Seq<(Seq<char>, ValueModel)>,
    over: Seq<(Seq<char>, ValueModel)>,
    shallow: bool,
    rules: Option<RulesModel>,
    path: Seq<Seq<char>>,
)
    requires
        merge_entries_spec(base, over, true, shallow, rules, path) is Ok,
    ensures
        merge_entries_spec(base, over, false, shallow, rules, path) == merge_entries_spec(base, over, true, shallow, rules, path),
    decreases over,
{
    if over.len() > 0 {
        let k = over[0].0;
        let i = key_index(base, k);
        if i >= 0 {
            assert(decreases_to!(over => over[0]));
            law_strict_agrees_when_it_succeeds(base[i].1, over[0].1, shallow, rules_under(rules, k), path.push(k));
            let m = merge_spec(base[i].1, over[0].1, true, shallow, rules_under(rules, k), path.push(k))->Ok_0;
            lemma_strict_entries_agree(base.update(i, (k, m)), over.drop_first(), shallow, rules, path);
        } else {
            lemma_strict_entries_agree(base.push(over[0]), over.drop_first(), shallow, rules, path);
        }
    }
}

/// No `fail` rule finds a value in an empty object.
proof fn lemma_no_lock_in_empty(children: Seq<(Seq<char>, RulesModel)>)
    ensures
        lock_in(children, Seq::empty()) is None,
    decreases children.len(),
{
    if children.len() > 0 {
        crate::value::lemma_key_index(Seq::<(Seq<char>, ValueModel)>::empty(), children[0].0);
        lemma_no_lock_in_empty(children.drop_first());
    }
}

/// One layer is still the identity, whatever the rule set, as long as no
/// rule names the root: every key is absent from the empty seed, so it is
/// inserted rather than combined, and no rule fires. A lone layer's array
/// is not doubled by an `append` rule. In strict mode the layer must be an
/// object, as a document layer is: anything else changes the kind of the
/// empty object it is merged into.
pub proof fn law_single_layer_is_identity(a: ValueModel, strict: bool, shallow: bool, rules: RulesModel)
    requires
        a.well_formed(),
        rules.strategy is None,
        strict ==> a is Object,
    ensures
        fold_spec(ValueModel::Object(Seq::empty()), seq![a], strict, shallow, rules) == Ok::<ValueModel, MergeFault>(a),
{
    let empty = ValueModel::Object(Seq::empty());
    match a {
        ValueModel::Object(e) => {
            assert(Seq::<(Seq<char>, ValueModel)>::empty() + e =~= e);
            lemma_entries_into_fresh(Seq::empty(), e, strict, shallow, Some(rules));
        },
        _ => {
            lemma_no_lock_in_empty(rules.children);
        },
    }
    assert(merge_spec(empty, a, strict, shallow, Some(rules), Seq::empty()) == Ok::<ValueModel, MergeFault>(a));
    assert(seq![a].drop_first() =~= Seq::<ValueModel>::empty());
    assert(fold_spec(a, Seq::<ValueModel>::empty(), strict, shallow, rules) == Ok::<ValueModel, MergeFault>(a));
}

/// Entries whose keys are all new are appended as they are.
proof fn lemma_entries_into_fresh(
    prefix: Seq<(Seq<char>, ValueModel)>,
    over: Seq<(Seq<char>, ValueModel)>,
    strict: bool,
    shallow: bool,
    rules: Option<RulesModel>,
)
    requires
        crate::value::keys_distinct(prefix + over),
    ensures
        merge_entries_spec(prefix, over, strict, shallow, rules, Seq::empty()) == Ok::<Seq<(Seq<char>, ValueModel)>, MergeFault>(prefix + over),
    decreases over.len(),
{
    if over.len() > 0 {
        let all = prefix + over;
        let k = over[0].0;
        assert(all[prefix.len() as int] == over[0]);
        assert forall|j: int| 0 <= j < prefix.len() implies prefix[j].0 != k by {
            assert(all[j] == prefix[j]);
        }
        crate::value::lemma_key_index(prefix, k);
        let next = prefix.push(over[0]);
        assert(next + over.drop_first() =~= all);
        lemma_entries_into_fresh(next, over.drop_first(), strict, shallow, rules);
    } else {
        assert(prefix + over =~= prefix);
    }
}

/// The value an object holds at `key`.
pub open spec fn value_at(entries: Seq<(Seq<char>, ValueModel)>, key: Seq<char>) -> ValueModel {
    entries[key_index(entries, key)].1
}

/// Without strict mode and without rules, a merge always succeeds.
pub proof fn lemma_lenient_merge_succeeds(
    base: ValueModel,
    over: ValueModel,
    shallow: bool,
    rules: Option<RulesModel>,
    path: Seq<Seq<char>>,
)
    requires
        inert(rules),
    ensures
        merge_spec(base, over, false, shallow, rules, path) is Ok,
    decreases over,
{
    if let Some(r) = rules {
        if base is Object {
            let e = base->Object_0;
            assert(lock_in(r.children, e) is None);
        }
    }
    match (base, over) {
        (ValueModel::Object(be), ValueModel::Object(oe)) => {
            if !(shallow && path.len() > 0) {
                lemma_entries_result(be, oe, shallow, rules, path);
            }
        },
        _ => {},
    }
}

/// The first place, in `over`'s depth-first key order, where `over`,
/// reached only through objects that `base` also holds as objects, holds a
/// value of another kind than `base` holds there: its path below the two
/// values, the kind `base` has there and the kind `over` has.
pub open spec fn first_clash(base: ValueModel, over: ValueModel) -> Option<(Seq<Seq<char>>, Kind, Kind)>
    decreases over,
{
    match (base, over) {
        (ValueModel::Object(be), ValueModel::Object(oe)) => first_entries_clash(be, oe),
        _ => if base.kind() != over.kind() {
            Some((Seq::empty(), base.kind(), over.kind()))
        } else {
            None
        },
    }
}

/// The first clash of `over`'s entries, in order, with the entries of
/// `base` under the same keys.
pub open spec fn first_entries_clash(
    be: Seq<(Seq<char>, ValueModel)>,
    oe: Seq<(Seq<char>, ValueModel)>,
) -> Option<(Seq<Seq<char>>, Kind, Kind)>
    decreases oe,
{
    if oe.len() == 0 {
        None
    } else {
        let k = oe[0].0;
        let here = if key_index(be, k) >= 0 {
            proof {
                assert(decreases_to!(oe => oe[0]));
            }
            match first_clash(value_at(be, k), oe[0].1) {
                Some((q, e, f)) => Some((seq![k] + q, e, f)),
                None => None,
            }
        } else {
            None
        };
        match here {
            Some(c) => Some(c),
            None => first_entries_clash(be, oe.drop_first()),
        }
    }
}

/// What the strict merge of `over` into `base` at `path` comes to with no
/// rules and no shallow merging: a type conflict at the first clash, or
/// success.
pub open spec fn strict_verdict(base: ValueModel, over: ValueModel, path: Seq<Seq<char>>, r: Result<ValueModel, MergeFault>) -> bool {
    match first_clash(base, over) {
        Some((q, e, f)) => r == Err::<ValueModel, MergeFault>(MergeFault::TypeConflict { path: path + q, expected: e, found: f }),
        None => r is Ok,
    }
}

/// Without rules and without shallow merging, the strict merge fails
/// exactly when a kind clash is reached through objects on both sides, and
/// then with a type conflict at the first such place in `over`'s
/// depth-first key order, naming the kind `base` had there and the kind
/// `over` brought; otherwise it gives what the lenient merge gives
/// ([`law_strict_agrees_when_it_succeeds`]). Empty rules are no rules
/// ([`law_empty_rules_are_no_rules`]).
pub proof fn law_strict_merge_fails_exactly_on_a_kind_clash(
    base: ValueModel,
    over: ValueModel,
    path: Seq<Seq<char>>,
)
    requires
        over.well_formed(),
    ensures
        strict_verdict(base, over, path, merge_spec(base, over, true, false, None, path)),
    decreases over,
{
    match (base, over) {
        (ValueModel::Object(be), ValueModel::Object(oe)) => {
            assert forall|j: int| 0 <= j < oe.len() implies (#[trigger] oe[j]).1.well_formed() by {
                assert(over.well_formed());
            }
            lemma_strict_entries(be, be, oe, path);
        },
        _ => {
            assert(path + Seq::<Seq<char>>::empty() =~= path);
        },
    }
}

proof fn lemma_strict_entries(
    b: Seq<(Seq<char>, ValueModel)>,
    be: Seq<(Seq<char>, ValueModel)>,
    oe: Seq<(Seq<char>, ValueModel)>,
    path: Seq<Seq<char>>,
)
    requires
        crate::value::keys_distinct(oe),
        forall|j: int| 0 <= j < oe.len() ==> (#[trigger] oe[j]).1.well_formed(),
        forall|j: int|
            0 <= j < oe.len() ==> (key_index(b, (#[trigger] oe[j]).0) >= 0) == (key_index(be, oe[j].0) >= 0)
                && (key_index(be, oe[j].0) >= 0 ==> value_at(b, oe[j].0) == value_at(be, oe[j].0)),
    ensures
        match first_entries_clash(be, oe) {
            Some((q, e, f)) => merge_entries_spec(b, oe, true, false, None, path) == Err::<Seq<(Seq<char>, ValueModel)>, MergeFault>(
                MergeFault::TypeConflict { path: path + q, expected: e, found: f },
            ),
            None => merge_entries_spec(b, oe, true, false, None, path) is Ok,
        },
    decreases oe,
{
    if oe.len() > 0 {
        let k = oe[0].0;
        let i = key_index(b, k);
        crate::value::lemma_key_index(b, k);
        let rest = oe.drop_first();
        assert(crate::value::keys_distinct(rest)) by {
            assert forall|x: int, y: int| 0 <= x < rest.len() && 0 <= y < rest.len() && x != y implies rest[x].0 != rest[y].0 by {
                assert(rest[x] == oe[x + 1]);
                assert(rest[y] == oe[y + 1]);
            }
        }
        assert forall|j: int| 0 <= j < rest.len() implies (#[trigger] rest[j]).1.well_formed() by {
            assert(rest[j] == oe[j + 1]);
        }
        assert forall|j: int| 0 <= j < rest.len() implies rest[j].0 != k by {
            assert(rest[j] == oe[j + 1]);
        }
        if i >= 0 {
            assert(decreases_to!(oe => oe[0]));
            law_strict_merge_fails_exactly_on_a_kind_clash(b[i].1, oe[0].1, path.push(k));
            match first_clash(b[i].1, oe[0].1) {
                Some((q, e, f)) => {
                    assert(path.push(k) + q =~= path + (seq![k] + q));
                },
                None => {},
            }
            match merge_spec(b[i].1, oe[0].1, true, false, None, path.push(k)) {
                Ok(m) => {
                    let next = b.update(i, (k, m));
                    assert forall|j: int| 0 <= j < rest.len() implies (key_index(next, (#[trigger] rest[j]).0) >= 0) == (key_index(be, rest[j].0) >= 0)
                        && (key_index(be, rest[j].0) >= 0 ==> value_at(next, rest[j].0) == value_at(be, rest[j].0)) by {
                        let kk = rest[j].0;
                        assert(rest[j] == oe[j + 1]);
                        lemma_key_index_update(b, i, (k, m), kk);
                        crate::value::lemma_key_index(b, kk);
                    }
                    lemma_strict_entries(next, be, rest, path);
                },
                Err(_) => {},
            }
        } else {
            let next = b.push(oe[0]);
            assert forall|j: int| 0 <= j < rest.len() implies (key_index(next, (#[trigger] rest[j]).0) >= 0) == (key_index(be, rest[j].0) >= 0)
                && (key_index(be, rest[j].0) >= 0 ==> value_at(next, rest[j].0) == value_at(be, rest[j].0)) by {
                let kk = rest[j].0;
                assert(rest[j] == oe[j + 1]);
                lemma_key_index_push(b, oe[0], kk);
                crate::value::lemma_key_index(b, kk);
            }
            lemma_strict_entries(next, be, rest, path);
        }
    }
}

/// Rules that name no strategy anywhere are no rules at all: the merge
/// under them is the merge under none. [`MergeOptions::strict`] and
/// [`MergeOptions::last_wins`] carry such rules.
pub proof fn law_empty_rules_are_no_rules(
    base: ValueModel,
    over: ValueModel,
    strict: bool,
    shallow: bool,
    rules: RulesModel,
    path: Seq<Seq<char>>,
)
    requires
        rules.strategy is None,
        rules.children.len() == 0,
    ensures
        merge_spec(base, over, strict, shallow, Some(rules), path) == merge_spec(base, over, strict, shallow, None, path),
    decreases over,
{
    assert(lock_below(rules, base) is None) by {
        if base is Object {
            lemma_no_lock_in_empty_children(rules, base->Object_0);
        }
    }
    match (base, over) {
        (ValueModel::Object(be), ValueModel::Object(oe)) => {
            lemma_empty_rules_entries(be, oe, strict, shallow, rules, path);
        },
        _ => {},
    }
}

proof fn lemma_no_lock_in_empty_children(rules: RulesModel, be: Seq<(Seq<char>, ValueModel)>)
    requires
        rules.children.len() == 0,
    ensures
        lock_in(rules.children, be) is None,
{
}

proof fn lemma_empty_rules_entries(
    be: Seq<(Seq<char>, ValueModel)>,
    oe: Seq<(Seq<char>, ValueModel)>,
    strict: bool,
    shallow: bool,
    rules: RulesModel,
    path: Seq<Seq<char>>,
)
    requires
        rules.strategy is None,
        rules.children.len() == 0,
    ensures
        merge_entries_spec(be, oe, strict, shallow, Some(rules), path) == merge_entries_spec(be, oe, strict, shallow, None, path),
    decreases oe,
{
    if oe.len() > 0 {
        let k = oe[0].0;
        crate::value::lemma_key_index(rules.children, k);
        assert(rules_under(Some(rules), k) is None);
        let i = key_index(be, k);
        if i >= 0 {
            assert(decreases_to!(oe => oe[0]));
            match merge_spec(be[i].1, oe[0].1, strict, shallow, None, path.push(k)) {
                Ok(m) => {
                    lemma_empty_rules_entries(be.update(i, (k, m)), oe.drop_first(), strict, shallow, rules, path);
                },
                Err(_) => {},
            }
        } else {
            lemma_empty_rules_entries(be.push(oe[0]), oe.drop_first(), strict, shallow, rules, path);
        }
    }
}

/// Replacing one entry by another with the same key moves no key.
proof fn lemma_key_index_update(s: Seq<(Seq<char>, ValueModel)>, i: int, e: (Seq<char>, ValueModel), x: Seq<char>)
    requires
        0 <= i < s.len(),
        s[i].0 == e.0,
    ensures
        key_index(s.update(i, e), x) == key_index(s, x),
{
    crate::value::lemma_key_index(s, x);
    crate::value::lemma_key_index(s.update(i, e), x);
    let a = key_index(s, x);
    let b = key_index(s.update(i, e), x);
    if a >= 0 && b >= 0 {
        if a < b {
            assert(s.update(i, e)[a].0 == s[a].0);
        } else if b < a {
            assert(s.update(i, e)[b].0 == s[b].0);
        }
    } else if a >= 0 {
        assert(s.update(i, e)[a].0 == s[a].0);
    } else if b >= 0 {
        assert(s.update(i, e)[b].0 == s[b].0);
    }
}

/// Appending an entry moves no key, and a new key is found at the end.
proof fn lemma_key_index_push(s: Seq<(Seq<char>, ValueModel)>, e: (Seq<char>, ValueModel), x: Seq<char>)
    ensures
        x != e.0 ==> key_index(s.push(e), x) == key_index(s, x),
        x == e.0 && key_index(s, x) < 0 ==> key_index(s.push(e), x) == s.len(),
{
    let t = s.push(e);
    crate::value::lemma_key_index(s, x);
    crate::value::lemma_key_index(t, x);
    let a = key_index(s, x);
    let b = key_index(t, x);
    if a >= 0 {
        assert(t[a] == s[a]);
    }
    if b >= 0 && b < s.len() {
        assert(t[b] == s[b]);
    }
    if x == e.0 && a < 0 {
        assert(t[s.len() as int] == e);
    }
}

/// What a lenient merge of entries yields: a key `over` lacks keeps its
/// place and value; a key `over` has holds the merge of the two values, or
/// `over`'s value where `base` lacked the key.
proof fn lemma_entries_result(
    base: Seq<(Seq<char>, ValueModel)>,
    over: Seq<(Seq<char>, ValueModel)>,
    shallow: bool,
    rules: Option<RulesModel>,
    path: Seq<Seq<char>>,
)
    requires
        inert(rules),
    ensures
        merge_entries_spec(base, over, false, shallow, rules, path) is Ok,
        crate::value::keys_distinct(over) ==> ({
            let r = merge_entries_spec(base, over, false, shallow, rules, path)->Ok_0;
            &&& forall|x: Seq<char>| key_index(over, x) < 0 ==> #[trigger] key_index(r, x) == key_index(base, x)
                && (key_index(base, x) >= 0 ==> value_at(r, x) == value_at(base, x))
            &&& forall|j: int| 0 <= j < over.len() ==> {
                let k = #[trigger] over[j].0;
                &&& key_index(r, k) >= 0
                &&& value_at(r, k) == if key_index(base, k) >= 0 {
                    merge_spec(value_at(base, k), over[j].1, false, shallow, None, path.push(k))->Ok_0
                } else {
                    over[j].1
                }
            }
        }),
    decreases over,
{
    if over.len() > 0 {
        let k = over[0].0;
        let i = key_index(base, k);
        crate::value::lemma_key_index(base, k);
        if let Some(r) = rules {
            crate::value::lemma_key_index(r.children, k);
        }
        assert(rules_under(rules, k) is None);
        let next = if i >= 0 {
            assert(decreases_to!(over => over[0]));
            lemma_lenient_merge_succeeds(base[i].1, over[0].1, shallow, None, path.push(k));
            let m = merge_spec(base[i].1, over[0].1, false, shallow, None, path.push(k))->Ok_0;
            base.update(i, (k, m))
        } else {
            base.push(over[0])
        };
        lemma_entries_result(next, over.drop_first(), shallow, rules, path);
        if crate::value::keys_distinct(over) {
            let rest = over.drop_first();
            assert(crate::value::keys_distinct(rest)) by {
                assert forall|a: int, b: int| 0 <= a < rest.len() && 0 <= b < rest.len() && a != b implies rest[a].0 != rest[b].0 by {
                    assert(rest[a] == over[a + 1]);
                    assert(rest[b] == over[b + 1]);
                }
            }
            let r = merge_entries_spec(base, over, false, shallow, rules, path)->Ok_0;
            assert(r == merge_entries_spec(next, rest, false, shallow, rules, path)->Ok_0);
            crate::value::lemma_key_index(rest, k);
            assert forall|j: int| 0 <= j < rest.len() implies rest[j].0 != k by {
                assert(rest[j] == over[j + 1]);
            }
            assert forall|x: Seq<char>| key_index(over, x) < 0 implies #[trigger] key_index(r, x) == key_index(base, x)
                && (key_index(base, x) >= 0 ==> value_at(r, x) == value_at(base, x)) by {
                crate::value::lemma_key_index(over, x);
                crate::value::lemma_key_index(rest, x);
                assert forall|j: int| 0 <= j < rest.len() implies rest[j].0 != x by {
                    assert(rest[j] == over[j + 1]);
                }
                assert(x != k);
                if i >= 0 {
                    lemma_key_index_update(base, i, next[i], x);
                    crate::value::lemma_key_index(base, x);
                } else {
                    lemma_key_index_push(base, over[0], x);
                    crate::value::lemma_key_index(base, x);
                }
            }
            assert forall|j: int| 0 <= j < over.len() implies {
                let kk = #[trigger] over[j].0;
                &&& key_index(r, kk) >= 0
                &&& value_at(r, kk) == if key_index(base, kk) >= 0 {
                    merge_spec(value_at(base, kk), over[j].1, false, shallow, None, path.push(kk))->Ok_0
                } else {
                    over[j].1
                }
            } by {
                let kk = over[j].0;
                if j == 0 {
                    if i >= 0 {
                        lemma_key_index_update(base, i, next[i], k);
                    } else {
                        lemma_key_index_push(base, over[0], k);
                    }
                    crate::value::lemma_key_index(next, k);
                } else {
                    assert(rest[j - 1] == over[j]);
                    assert(kk != k);
                    crate::value::lemma_key_index(base, kk);
                    if i >= 0 {
                        lemma_key_index_update(base, i, next[i], kk);
                    } else {
                        lemma_key_index_push(base, over[0], kk);
                    }
                }
            }
        }
    }
}

/// Entries already holding what `over` would merge in are left as they are.
proof fn lemma_entries_fixed(
    r: Seq<(Seq<char>, ValueModel)>,
    over: Seq<(Seq<char>, ValueModel)>,
    shallow: bool,
    rules: Option<RulesModel>,
    path: Seq<Seq<char>>,
)
    requires
        inert(rules),
        forall|j: int| 0 <= j < over.len() ==> {
            let k = #[trigger] over[j].0;
            &&& key_index(r, k) >= 0
            &&& merge_spec(value_at(r, k), over[j].1, false, shallow, None, path.push(k)) == Ok::<ValueModel, MergeFault>(value_at(r, k))
        },
    ensures
        merge_entries_spec(r, over, false, shallow, rules, path) == Ok::<Seq<(Seq<char>, ValueModel)>, MergeFault>(r),
    decreases over.len(),
{
    if over.len() > 0 {
        let k = over[0].0;
        let i = key_index(r, k);
        crate::value::lemma_key_index(r, k);
        if let Some(x) = rules {
            crate::value::lemma_key_index(x.children, k);
        }
        assert(r.update(i, (k, r[i].1)) =~= r);
        let rest = over.drop_first();
        assert forall|j: int| 0 <= j < rest.len() implies {
            let kk = #[trigger] rest[j].0;
            &&& key_index(r, kk) >= 0
            &&& merge_spec(value_at(r, kk), rest[j].1, false, shallow, None, path.push(kk)) == Ok::<ValueModel, MergeFault>(value_at(r, kk))
        } by {
            assert(rest[j] == over[j + 1]);
        }
        lemma_entries_fixed(r, rest, shallow, rules, path);
    }
}

/// Applying the same override twice is the same as applying it once.
pub proof fn law_overriding_twice_is_overriding_once(
    a: ValueModel,
    b: ValueModel,
    shallow: bool,
    rules: Option<RulesModel>,
    path: Seq<Seq<char>>,
)
    requires
        a.well_formed(),
        b.well_formed(),
        inert(rules),
    ensures
        merge_spec(a, b, false, shallow, rules, path) is Ok,
        merge_spec(merge_spec(a, b, false, shallow, rules, path)->Ok_0, b, false, shallow, rules, path)
            == merge_spec(a, b, false, shallow, rules, path),
    decreases b,
{
    lemma_lenient_merge_succeeds(a, b, shallow, rules, path);
    let once = merge_spec(a, b, false, shallow, rules, path)->Ok_0;
    if let Some(r) = rules {
        assert(lock_in(r.children, Seq::empty()) is None) by {
            lemma_no_lock_in_empty(r.children);
        }
        if once is Object {
            let e = once->Object_0;
            assert(lock_in(r.children, e) is None);
        }
    }
    match (a, b) {
        (ValueModel::Object(ae), ValueModel::Object(be)) => {
            if !(shallow && path.len() > 0) {
                lemma_entries_result(ae, be, shallow, rules, path);
                let re = once->Object_0;
                assert forall|j: int| 0 <= j < be.len() implies {
                    let k = #[trigger] be[j].0;
                    &&& key_index(re, k) >= 0
                    &&& merge_spec(value_at(re, k), be[j].1, false, shallow, None, path.push(k)) == Ok::<ValueModel, MergeFault>(value_at(re, k))
                } by {
                    let k = be[j].0;
                    assert(be[j].1.well_formed());
                    assert(decreases_to!(be => be[j]));
                    if key_index(ae, k) >= 0 {
                        crate::value::lemma_key_index(ae, k);
                        assert(ae[key_index(ae, k)].1.well_formed());
                        law_overriding_twice_is_overriding_once(value_at(ae, k), be[j].1, shallow, None, path.push(k));
                    } else {
                        law_merge_with_itself_is_identity(be[j].1, false, shallow, None, path.push(k));
                    }
                }
                lemma_entries_fixed(re, be, shallow, rules, path);
            } else {
                law_merge_with_itself_is_identity(b, false, shallow, rules, path);
            }
        },
        _ => {
            law_merge_with_itself_is_identity(b, false, shallow, rules, path);
        },
    }
}

// --- merging keeps documents well formed ----------------------------------------

/// Merging two well-formed values gives a well-formed one: no object ever
/// ends up holding a key twice.
pub proof fn lemma_merge_well_formed(
    base: ValueModel,
    over: ValueModel,
    strict: bool,
    shallow: bool,
    rules: Option<RulesModel>,
    path: Seq<Seq<char>>,
)
    requires
        base.well_formed(),
        over.well_formed(),
    ensures
        merge_spec(base, over, strict, shallow, rules, path) matches Ok(m) ==> m.well_formed(),
    decreases over, 1nat,
{
    match strategy_here(rules) {
        Some(Strategy::Append) => {
            if let (ValueModel::Array(a), ValueModel::Array(b)) = (base, over) {
                assert forall|i: int| 0 <= i < (a + b).len() implies (#[trigger] (a + b)[i]).well_formed() by {
                    if i < a.len() {
                        assert((a + b)[i] == a[i]);
                    } else {
                        assert((a + b)[i] == b[i - a.len()]);
                    }
                }
            }
        },
        Some(_) => {},
        None => {
            if let (ValueModel::Object(be), ValueModel::Object(oe)) = (base, over) {
                if !(shallow && path.len() > 0) {
                    lemma_entries_well_formed(be, oe, strict, shallow, rules, path);
                }
            }
        },
    }
}

/// Merging well-formed entries into well-formed entries keeps keys distinct
/// and every value well formed.
proof fn lemma_entries_well_formed(
    base: Seq<(Seq<char>, ValueModel)>,
    over: Seq<(Seq<char>, ValueModel)>,
    strict: bool,
    shallow: bool,
    rules: Option<RulesModel>,
    path: Seq<Seq<char>>,
)
    requires
        keys_distinct(base),
        forall|i: int| 0 <= i < base.len() ==> (#[trigger] base[i]).1.well_formed(),
        keys_distinct(over),
        forall|i: int| 0 <= i < over.len() ==> (#[trigger] over[i]).1.well_formed(),
    ensures
        merge_entries_spec(base, over, strict, shallow, rules, path) matches Ok(e) ==> ValueModel::Object(
            e,
        ).well_formed(),
    decreases over, 0nat,
{
    if over.len() == 0 {
        assert(ValueModel::Object(base).well_formed());
    } else {
        let k = over[0].0;
        let i = key_index(base, k);
        lemma_key_index(base, k);
        let rest = over.drop_first();
        assert forall|a: int, b: int| 0 <= a < rest.len() && 0 <= b < rest.len() && a != b implies rest[a].0 != rest[b].0 by {
            assert(rest[a] == over[a + 1] && rest[b] == over[b + 1]);
        }
        assert forall|a: int| 0 <= a < rest.len() implies (#[trigger] rest[a]).1.well_formed() by {
            assert(rest[a] == over[a + 1]);
        }
        if i >= 0 {
            assert(decreases_to!(over => over[0]));
            lemma_merge_well_formed(base[i].1, over[0].1, strict, shallow, rules_under(rules, k), path.push(k));
            if let Ok(m) = merge_spec(base[i].1, over[0].1, strict, shallow, rules_under(rules, k), path.push(k)) {
                let b = base.update(i, (k, m));
                assert forall|a: int, c: int| 0 <= a < b.len() && 0 <= c < b.len() && a != c implies b[a].0 != b[c].0 by {
                    assert(b[a].0 == base[a].0 && b[c].0 == base[c].0);
                }
                assert forall|a: int| 0 <= a < b.len() implies (#[trigger] b[a]).1.well_formed() by {
                    if a != i {
                        assert(b[a] == base[a]);
                    }
                }
                lemma_entries_well_formed(b, rest, strict, shallow, rules, path);
            }
        } else {
            let b = base.push(over[0]);
            assert forall|a: int, c: int| 0 <= a < b.len() && 0 <= c < b.len() && a != c implies b[a].0 != b[c].0 by {
                if a < base.len() && c < base.len() {
                    assert(b[a] == base[a] && b[c] == base[c]);
                } else if a < base.len() {
                    assert(b[a] == base[a]);
                } else if c < base.len() {
                    assert(b[c] == base[c]);
                }
            }
            assert forall|a: int| 0 <= a < b.len() implies (#[trigger] b[a]).1.well_formed() by {
                if a < base.len() {
                    assert(b[a] == base[a]);
                }
            }
            assert forall|a: int| 0 <= a < rest.len() implies rest[a].0 != k by {
                assert(rest[a] == over[a + 1]);
            }
            lemma_entries_well_formed(b, rest, strict, shallow, rules, path);
        }
    }
}

/// Folding well-formed layers gives a well-formed document.
pub proof fn lemma_fold_well_formed(acc: ValueModel, layers: Seq<ValueModel>, strict: bool, shallow: bool, rules: RulesModel)
    requires
        acc.well_formed(),
        forall|i: int| 0 <= i < layers.len() ==> (#[trigger] layers[i]).well_formed(),
    ensures
        fold_spec(acc, layers, strict, shallow, rules) matches Ok(m) ==> m.well_formed(),
    decreases layers.len(),
{
    if layers.len() > 0 {
        lemma_merge_well_formed(acc, layers[0], strict, shallow, Some(rules), Seq::empty());
        if let Ok(m) = merge_spec(acc, layers[0], strict, shallow, Some(rules), Seq::empty()) {
            assert forall|i: int| 0 <= i < layers.drop_first().len() implies (#[trigger] layers.drop_first()[i]).well_formed() by {
                assert(layers.drop_first()[i] == layers[i + 1]);
            }
            lemma_fold_well_formed(m, layers.drop_first(), strict, shallow, rules);
        }
    }
}

// --- strict associativity ------------------------------------------------------

/// The strict merge with no rules and no shallow merging.
pub open spec fn strict_merge(a: ValueModel, b: ValueModel, path: Seq<Seq<char>>) -> Result<ValueModel, MergeFault> {
    merge_spec(a, b, true, false, None, path)
}

/// The strict merge of entries with no rules and no shallow merging.
spec fn strict_entries(
    x: Seq<(Seq<char>, ValueModel)>,
    ys: Seq<(Seq<char>, ValueModel)>,
    path: Seq<Seq<char>>,
) -> Result<Seq<(Seq<char>, ValueModel)>, MergeFault> {
    merge_entries_spec(x, ys, true, false, None, path)
}

/// Merging entries one more entry at the end is merging the others, then
/// that one.
proof fn lemma_entries_push(
    x: Seq<(Seq<char>, ValueModel)>,
    ys: Seq<(Seq<char>, ValueModel)>,
    y: (Seq<char>, ValueModel),
    path: Seq<Seq<char>>,
)
    ensures
        strict_entries(x, ys.push(y), path) == match strict_entries(x, ys, path) {
            Ok(z) => strict_entries(z, seq![y], path),
            Err(f) => Err(f),
        },
    decreases ys.len(),
{
    if ys.len() == 0 {
        assert(ys.push(y) =~= seq![y]);
    } else {
        assert(ys.push(y)[0] == ys[0]);
        assert(ys.push(y).drop_first() =~= ys.drop_first().push(y));
        let k = ys[0].0;
        let i = key_index(x, k);
        if i >= 0 {
            match strict_merge(x[i].1, ys[0].1, path.push(k)) {
                Ok(m) => lemma_entries_push(x.update(i, (k, m)), ys.drop_first(), y, path),
                Err(_) => {},
            }
        } else {
            lemma_entries_push(x.push(ys[0]), ys.drop_first(), y, path);
        }
    }
}

/// Entries with no key `k` leave where `k` is, and what it holds, alone.
proof fn lemma_entries_keep_key(
    y: Seq<(Seq<char>, ValueModel)>,
    r: Seq<(Seq<char>, ValueModel)>,
    k: Seq<char>,
    path: Seq<Seq<char>>,
)
    requires
        forall|j: int| 0 <= j < r.len() ==> (#[trigger] r[j]).0 != k,
        strict_entries(y, r, path) is Ok,
    ensures
        key_index(strict_entries(y, r, path)->Ok_0, k) == key_index(y, k),
        key_index(y, k) >= 0 ==> strict_entries(y, r, path)->Ok_0[key_index(y, k)] == y[key_index(y, k)],
    decreases r.len(),
{
    if r.len() > 0 {
        let rk = r[0].0;
        assert(rk != k);
        let ri = key_index(y, rk);
        crate::value::lemma_key_index(y, rk);
        crate::value::lemma_key_index(y, k);
        assert forall|j: int| 0 <= j < r.drop_first().len() implies (#[trigger] r.drop_first()[j]).0 != k by {
            assert(r.drop_first()[j] == r[j + 1]);
        }
        if ri >= 0 {
            let m = strict_merge(y[ri].1, r[0].1, path.push(rk))->Ok_0;
            let y1 = y.update(ri, (rk, m));
            lemma_key_index_update(y, ri, (rk, m), k);
            lemma_entries_keep_key(y1, r.drop_first(), k, path);
        } else {
            let y1 = y.push(r[0]);
            lemma_key_index_push(y, r[0], k);
            lemma_entries_keep_key(y1, r.drop_first(), k, path);
        }
    }
}

/// Changing what a key holds before entries with no such key are merged
/// in changes only what it holds after.
proof fn lemma_entries_update_commutes(
    y: Seq<(Seq<char>, ValueModel)>,
    j: int,
    k: Seq<char>,
    x: ValueModel,
    r: Seq<(Seq<char>, ValueModel)>,
    path: Seq<Seq<char>>,
)
    requires
        0 <= j < y.len(),
        y[j].0 == k,
        forall|t: int| 0 <= t < r.len() ==> (#[trigger] r[t]).0 != k,
        strict_entries(y, r, path) is Ok,
    ensures
        strict_entries(y.update(j, (k, x)), r, path) == Ok::<Seq<(Seq<char>, ValueModel)>, MergeFault>(
            strict_entries(y, r, path)->Ok_0.update(j, (k, x)),
        ),
        j < strict_entries(y, r, path)->Ok_0.len(),
    decreases r.len(),
{
    let y2 = y.update(j, (k, x));
    if r.len() == 0 {
    } else {
        let rk = r[0].0;
        assert(rk != k);
        crate::value::lemma_key_index(y, rk);
        lemma_key_index_update(y, j, (k, x), rk);
        let ri = key_index(y, rk);
        assert forall|t: int| 0 <= t < r.drop_first().len() implies (#[trigger] r.drop_first()[t]).0 != k by {
            assert(r.drop_first()[t] == r[t + 1]);
        }
        if ri >= 0 {
            assert(ri != j);
            assert(y2[ri] == y[ri]);
            let m = strict_merge(y[ri].1, r[0].1, path.push(rk))->Ok_0;
            let y1 = y.update(ri, (rk, m));
            assert(y2.update(ri, (rk, m)) =~= y1.update(j, (k, x)));
            lemma_entries_update_commutes(y1, j, k, x, r.drop_first(), path);
        } else {
            let y1 = y.push(r[0]);
            assert(y2.push(r[0]) =~= y1.update(j, (k, x)));
            lemma_entries_update_commutes(y1, j, k, x, r.drop_first(), path);
        }
    }
}

/// Where a merged key lands and what it holds: the merge of what the base
/// held under it with what the entry brings, or what the entry brings.
proof fn lemma_entries_at_key(
    a: Seq<(Seq<char>, ValueModel)>,
    d: Seq<(Seq<char>, ValueModel)>,
    i: int,
    path: Seq<Seq<char>>,
)
    requires
        keys_distinct(d),
        0 <= i < d.len(),
        strict_entries(a, d, path) is Ok,
    ensures
        ({
            let k = d[i].0;
            let x = strict_entries(a, d, path)->Ok_0;
            &&& key_index(x, k) >= 0
            &&& key_index(a, k) >= 0 ==> strict_merge(value_at(a, k), d[i].1, path.push(k)) == Ok::<ValueModel, MergeFault>(value_at(x, k))
            &&& key_index(a, k) < 0 ==> value_at(x, k) == d[i].1
        }),
    decreases d.len(),
{
    let k = d[i].0;
    let d0 = d[0].0;
    let rest = d.drop_first();
    crate::value::lemma_key_index(a, d0);
    crate::value::lemma_key_index(a, k);
    let ai = key_index(a, d0);
    let a1 = if ai >= 0 {
        a.update(ai, (d0, strict_merge(a[ai].1, d[0].1, path.push(d0))->Ok_0))
    } else {
        a.push(d[0])
    };
    assert(strict_entries(a1, rest, path) == strict_entries(a, d, path));
    if i == 0 {
        assert forall|t: int| 0 <= t < rest.len() implies (#[trigger] rest[t]).0 != k by {
            assert(rest[t] == d[t + 1]);
        }
        if ai >= 0 {
            lemma_key_index_update(a, ai, a1[ai], k);
        } else {
            lemma_key_index_push(a, d[0], k);
        }
        lemma_entries_keep_key(a1, rest, k, path);
    } else {
        assert(rest[i - 1] == d[i]);
        assert(d0 != k);
        assert(keys_distinct(rest)) by {
            assert forall|x: int, y: int| 0 <= x < rest.len() && 0 <= y < rest.len() && x != y implies rest[x].0 != rest[y].0 by {
                assert(rest[x] == d[x + 1]);
                assert(rest[y] == d[y + 1]);
            }
        }
        if ai >= 0 {
            lemma_key_index_update(a, ai, a1[ai], k);
        } else {
            lemma_key_index_push(a, d[0], k);
        }
        lemma_entries_at_key(a1, rest, i - 1, path);
    }
}

/// Merging entries with one entry's value changed changes only what its key
/// holds in the result: what the base held there merged with the new value,
/// or the new value.
proof fn lemma_entries_change_one(
    a: Seq<(Seq<char>, ValueModel)>,
    d: Seq<(Seq<char>, ValueModel)>,
    i: int,
    w: ValueModel,
    w2: ValueModel,
    path: Seq<Seq<char>>,
)
    requires
        keys_distinct(d),
        0 <= i < d.len(),
        strict_entries(a, d, path) is Ok,
        key_index(a, d[i].0) >= 0 ==> strict_merge(value_at(a, d[i].0), w, path.push(d[i].0)) == Ok::<ValueModel, MergeFault>(w2),
        key_index(a, d[i].0) < 0 ==> w2 == w,
    ensures
        ({
            let k = d[i].0;
            let x = strict_entries(a, d, path)->Ok_0;
            &&& key_index(x, k) >= 0
            &&& strict_entries(a, d.update(i, (k, w)), path) == Ok::<Seq<(Seq<char>, ValueModel)>, MergeFault>(
                x.update(key_index(x, k), (k, w2)),
            )
        }),
    decreases d.len(),
{
    let k = d[i].0;
    let d0 = d[0].0;
    let rest = d.drop_first();
    let dn = d.update(i, (k, w));
    crate::value::lemma_key_index(a, d0);
    crate::value::lemma_key_index(a, k);
    let ai = key_index(a, d0);
    let a1 = if ai >= 0 {
        a.update(ai, (d0, strict_merge(a[ai].1, d[0].1, path.push(d0))->Ok_0))
    } else {
        a.push(d[0])
    };
    assert(strict_entries(a1, rest, path) == strict_entries(a, d, path));
    if i == 0 {
        assert forall|t: int| 0 <= t < rest.len() implies (#[trigger] rest[t]).0 != k by {
            assert(rest[t] == d[t + 1]);
        }
        assert(dn[0] == (k, w));
        assert(dn.drop_first() =~= rest);
        let j = if ai >= 0 { ai } else { a.len() as int };
        if ai >= 0 {
            lemma_key_index_update(a, ai, a1[ai], k);
            assert(a.update(ai, (k, w2)) =~= a1.update(j, (k, w2)));
        } else {
            lemma_key_index_push(a, d[0], k);
            assert(a.push((k, w)) =~= a1.update(j, (k, w2)));
        }
        lemma_entries_keep_key(a1, rest, k, path);
        lemma_entries_update_commutes(a1, j, k, w2, rest, path);
    } else {
        assert(rest[i - 1] == d[i]);
        assert(d0 != k);
        assert(dn[0] == d[0]);
        assert(dn.drop_first() =~= rest.update(i - 1, (k, w)));
        assert(keys_distinct(rest)) by {
            assert forall|x: int, y: int| 0 <= x < rest.len() && 0 <= y < rest.len() && x != y implies rest[x].0 != rest[y].0 by {
                assert(rest[x] == d[x + 1]);
                assert(rest[y] == d[y + 1]);
            }
        }
        if ai >= 0 {
            lemma_key_index_update(a, ai, a1[ai], k);
        } else {
            lemma_key_index_push(a, d[0], k);
        }
        lemma_entries_change_one(a1, rest, i - 1, w, w2, path);
    }
}

/// Merging one entry: into what the base holds under its key, or appended.
proof fn lemma_entries_one(x: Seq<(Seq<char>, ValueModel)>, y: (Seq<char>, ValueModel), path: Seq<Seq<char>>)
    ensures
        strict_entries(x, seq![y], path) == if key_index(x, y.0) >= 0 {
            match strict_merge(x[key_index(x, y.0)].1, y.1, path.push(y.0)) {
                Ok(m) => Ok(x.update(key_index(x, y.0), (y.0, m))),
                Err(f) => Err(f),
            }
        } else {
            Ok::<Seq<(Seq<char>, ValueModel)>, MergeFault>(x.push(y))
        },
{
    assert(seq![y][0] == y);
    assert(seq![y].drop_first() =~= Seq::<(Seq<char>, ValueModel)>::empty());
    let i = key_index(x, y.0);
    if i >= 0 {
        match strict_merge(x[i].1, y.1, path.push(y.0)) {
            Ok(m) => {
                assert(merge_entries_spec(x.update(i, (y.0, m)), Seq::empty(), true, false, None, path) == Ok::<Seq<(Seq<char>, ValueModel)>, MergeFault>(x.update(i, (y.0, m))));
            },
            Err(_) => {},
        }
    } else {
        assert(merge_entries_spec(x.push(y), Seq::empty(), true, false, None, path) == Ok::<Seq<(Seq<char>, ValueModel)>, MergeFault>(x.push(y)));
    }
}

/// One more entry merged after two merges is that entry merged into the
/// second's entries first, when the whole succeeds.
proof fn lemma_assoc_step(
    a: Seq<(Seq<char>, ValueModel)>,
    d: Seq<(Seq<char>, ValueModel)>,
    c: (Seq<char>, ValueModel),
    path: Seq<Seq<char>>,
)
    requires
        ValueModel::Object(a).well_formed(),
        ValueModel::Object(d).well_formed(),
        c.1.well_formed(),
        strict_entries(a, d, path) is Ok,
        strict_entries(strict_entries(a, d, path)->Ok_0, seq![c], path) is Ok,
    ensures
        strict_entries(d, seq![c], path) is Ok,
        strict_entries(a, strict_entries(d, seq![c], path)->Ok_0, path) == strict_entries(
            strict_entries(a, d, path)->Ok_0,
            seq![c],
            path,
        ),
    decreases c, 0nat,
{
    let k = c.0;
    let x = strict_entries(a, d, path)->Ok_0;
    lemma_entries_one(d, c, path);
    lemma_entries_one(x, c, path);
    crate::value::lemma_key_index(d, k);
    let i = key_index(d, k);
    if i < 0 {
        lemma_entries_push(a, d, c, path);
        assert(d.push(c) == strict_entries(d, seq![c], path)->Ok_0);
    } else {
        lemma_entries_at_key(a, d, i, path);
        crate::value::lemma_key_index(x, k);
        let jx = key_index(x, k);
        let xk = value_at(x, k);
        let m = strict_merge(xk, c.1, path.push(k))->Ok_0;
        assert(strict_entries(x, seq![c], path) == Ok::<Seq<(Seq<char>, ValueModel)>, MergeFault>(x.update(jx, (k, m))));
        assert(d[i].1.well_formed());
        if key_index(a, k) >= 0 {
            crate::value::lemma_key_index(a, k);
            let ak = value_at(a, k);
            assert(ak.well_formed());
            assert(decreases_to!(c => c.1));
            law_strict_merge_is_associative(ak, d[i].1, c.1, path.push(k));
            let w = strict_merge(d[i].1, c.1, path.push(k))->Ok_0;
            assert(strict_entries(d, seq![c], path) == Ok::<Seq<(Seq<char>, ValueModel)>, MergeFault>(d.update(i, (k, w))));
            lemma_entries_change_one(a, d, i, w, m, path);
        } else {
            assert(xk == d[i].1);
            assert(strict_entries(d, seq![c], path) == Ok::<Seq<(Seq<char>, ValueModel)>, MergeFault>(d.update(i, (k, m))));
            lemma_entries_change_one(a, d, i, m, m, path);
        }
    }
}

/// Entry-level associativity of the strict merge.
proof fn lemma_assoc_entries(
    a: Seq<(Seq<char>, ValueModel)>,
    b: Seq<(Seq<char>, ValueModel)>,
    c: Seq<(Seq<char>, ValueModel)>,
    path: Seq<Seq<char>>,
)
    requires
        ValueModel::Object(a).well_formed(),
        ValueModel::Object(b).well_formed(),
        ValueModel::Object(c).well_formed(),
        strict_entries(a, b, path) is Ok,
        strict_entries(strict_entries(a, b, path)->Ok_0, c, path) is Ok,
    ensures
        strict_entries(b, c, path) is Ok,
        strict_entries(a, strict_entries(b, c, path)->Ok_0, path) == strict_entries(
            strict_entries(a, b, path)->Ok_0,
            c,
            path,
        ),
    decreases c, 1nat,
{
    let x = strict_entries(a, b, path)->Ok_0;
    if c.len() == 0 {
    } else {
        let c1 = c.drop_last();
        let cl = c.last();
        assert(c1.push(cl) =~= c);
        assert(ValueModel::Object(c1).well_formed()) by {
            assert forall|i: int, j: int| 0 <= i < c1.len() && 0 <= j < c1.len() && i != j implies c1[i].0 != c1[j].0 by {
                assert(c1[i] == c[i] && c1[j] == c[j]);
            }
            assert forall|i: int| 0 <= i < c1.len() implies (#[trigger] c1[i]).1.well_formed() by {
                assert(c1[i] == c[i]);
            }
        }
        assert(ValueModel::Object(c).well_formed());
        assert(cl == c[c.len() - 1]);
        assert(cl.1.well_formed());
        lemma_entries_push(x, c1, cl, path);
        lemma_entries_push(b, c1, cl, path);
        assert(decreases_to!(c => c1));
        lemma_assoc_entries(a, b, c1, path);
        let y1 = strict_entries(b, c1, path)->Ok_0;
        lemma_merge_well_formed(ValueModel::Object(b), ValueModel::Object(c1), true, false, None, path);
        assert(merge_spec(ValueModel::Object(b), ValueModel::Object(c1), true, false, None, path) == Ok::<ValueModel, MergeFault>(ValueModel::Object(y1)));
        assert(decreases_to!(c => cl));
        lemma_assoc_step(a, y1, cl, path);
    }
}

/// Under strict mode the merge is associative: when merging `b` and then
/// `c` over `a` succeeds, merging `c` over `b` succeeds, and merging that
/// over `a` gives the same document. Strict mode rejects exactly the
/// changes of kind that would break this (without it, a scalar that
/// replaces an object and is then replaced by an object drops the first
/// object's keys on one side only).
pub proof fn law_strict_merge_is_associative(a: ValueModel, b: ValueModel, c: ValueModel, path: Seq<Seq<char>>)
    requires
        a.well_formed(),
        b.well_formed(),
        c.well_formed(),
        strict_merge(a, b, path) is Ok,
        strict_merge(strict_merge(a, b, path)->Ok_0, c, path) is Ok,
    ensures
        strict_merge(b, c, path) is Ok,
        strict_merge(a, strict_merge(b, c, path)->Ok_0, path) == strict_merge(strict_merge(a, b, path)->Ok_0, c, path),
    decreases c, 2nat,
{
    match (a, b) {
        (ValueModel::Object(ae), ValueModel::Object(be)) => {
            match c {
                ValueModel::Object(ce) => {
                    assert(decreases_to!(c => ce));
                    lemma_assoc_entries(ae, be, ce, path);
                },
                _ => {},
            }
        },
        _ => {},
    }
}

/// No layers at all fold to the empty object.
pub proof fn law_no_layers_is_the_empty_object(strict: bool, shallow: bool, rules: RulesModel)
    ensures
        fold_spec(ValueModel::Object(Seq::empty()), Seq::empty(), strict, shallow, rules) == Ok::<ValueModel, MergeFault>(
            ValueModel::Object(Seq::empty()),
        ),
{
}

/// Merging an object layer into the empty seed under empty rules gives the
/// layer.
proof fn lemma_seed_merge(x: ValueModel, rules: RulesModel)
    requires
        x.well_formed(),
        x is Object,
        rules.strategy is None,
        rules.children.len() == 0,
    ensures
        merge_spec(ValueModel::Object(Seq::empty()), x, true, false, Some(rules), Seq::empty()) == Ok::<ValueModel, MergeFault>(x),
{
    law_single_layer_is_identity(x, true, false, rules);
    lemma_fold_one(ValueModel::Object(Seq::empty()), x, true, false, rules);
}

/// Folding one layer is merging it in.
proof fn lemma_fold_one(acc: ValueModel, x: ValueModel, strict: bool, shallow: bool, rules: RulesModel)
    ensures
        fold_spec(acc, seq![x], strict, shallow, rules) == merge_spec(acc, x, strict, shallow, Some(rules), Seq::empty()),
{
    assert(seq![x][0] == x);
    assert(seq![x].drop_first() =~= Seq::<ValueModel>::empty());
    match merge_spec(acc, x, strict, shallow, Some(rules), Seq::empty()) {
        Ok(m) => {
            assert(fold_spec(m, Seq::<ValueModel>::empty(), strict, shallow, rules) == Ok::<ValueModel, MergeFault>(m));
        },
        Err(_) => {},
    }
}

/// Folding a layer and then more is merging it in and folding the rest.
proof fn lemma_fold_cons(acc: ValueModel, layers: Seq<ValueModel>, strict: bool, shallow: bool, rules: RulesModel)
    requires
        layers.len() > 0,
    ensures
        fold_spec(acc, layers, strict, shallow, rules) == match merge_spec(acc, layers[0], strict, shallow, Some(rules), Seq::empty()) {
            Ok(m) => fold_spec(m, layers.drop_first(), strict, shallow, rules),
            Err(f) => Err(f),
        },
{
}

/// Folding three object layers under strict mode and empty rules (as
/// [`MergeOptions::strict`] has them) is associative: when `[a, b, c]`
/// folds, `[b, c]` folds, and folding `a` with that result gives the same
/// document.
pub proof fn law_strict_fold_is_associative(a: ValueModel, b: ValueModel, c: ValueModel, rules: RulesModel)
    requires
        a.well_formed(),
        b.well_formed(),
        c.well_formed(),
        a is Object,
        b is Object,
        c is Object,
        rules.strategy is None,
        rules.children.len() == 0,
        fold_spec(ValueModel::Object(Seq::empty()), seq![a, b, c], true, false, rules) is Ok,
    ensures
        fold_spec(ValueModel::Object(Seq::empty()), seq![b, c], true, false, rules) is Ok,
        fold_spec(
            ValueModel::Object(Seq::empty()),
            seq![a, fold_spec(ValueModel::Object(Seq::empty()), seq![b, c], true, false, rules)->Ok_0],
            true,
            false,
            rules,
        ) == fold_spec(ValueModel::Object(Seq::empty()), seq![a, b, c], true, false, rules),
{
    let e = ValueModel::Object(Seq::empty());
    let p = Seq::<Seq<char>>::empty();
    lemma_seed_merge(a, rules);
    lemma_seed_merge(b, rules);
    assert(seq![a, b, c][0] == a);
    assert(seq![a, b, c].drop_first() =~= seq![b, c]);
    assert(seq![b, c][0] == b);
    assert(seq![b, c].drop_first() =~= seq![c]);
    lemma_fold_cons(e, seq![a, b, c], true, false, rules);
    lemma_fold_cons(a, seq![b, c], true, false, rules);
    lemma_fold_cons(e, seq![b, c], true, false, rules);
    law_empty_rules_are_no_rules(a, b, true, false, rules, p);
    let ab = strict_merge(a, b, p)->Ok_0;
    lemma_fold_one(ab, c, true, false, rules);
    lemma_fold_one(b, c, true, false, rules);
    law_empty_rules_are_no_rules(ab, c, true, false, rules, p);
    law_empty_rules_are_no_rules(b, c, true, false, rules, p);
    law_strict_merge_is_associative(a, b, c, p);
    let bc = strict_merge(b, c, p)->Ok_0;
    lemma_merge_well_formed(b, c, true, false, None, p);
    assert(bc is Object);
    law_empty_rules_are_no_rules(a, bc, true, false, rules, p);
    assert(seq![a, bc][0] == a);
    assert(seq![a, bc].drop_first() =~= seq![bc]);
    lemma_fold_cons(e, seq![a, bc], true, false, rules);
    lemma_fold_one(a, bc, true, false, rules);
}

} // verus!
