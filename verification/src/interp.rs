//! `${key.path}` and `${env:VAR}` resolution over a merged document.
//!
//! One pass over a merged document, replacing references in string values.
//! Keys are never interpolated; values only. Two positions:
//!
//! - **whole string** — `port = "${p}"` takes the referent's value *and
//!   type*. A reference to a container is allowed here, and aliases the
//!   (fully resolved) subtree.
//! - **embedded** — `url = "http://${host}:${p}/"` stringifies. A container
//!   or a null has no format-independent spelling there, so it is reported.
//!
//! The environment is injected through [`Env`], so this module never touches
//! process state; the caller types environment values by its own rule.

use vstd::prelude::*;
use crate::interp_error::{problems_view, Cycle, InterpError, Problem, ProblemModel};
use crate::path::{clone_segs, lemma_parsed_is_plain, parse_path, segs_view, ParseFault, PathError, RefPath, Seg, SegModel};
use crate::scan::{scan, scan_spec, Piece, PieceModel, Spelled, Syntax, SyntaxModel};
use crate::text::{chars_of, owned, push_decimal, push_signed_decimal, push_str, str_eq, string_from};
use crate::value::{
    entries_model, find_key, key_index, lemma_array_model, lemma_object_model, Number, Value, ValueModel,
};

verus! {

/// An environment variable in both forms interpolation needs: spliced
/// verbatim into surrounding text, and substituted whole, with a type, when
/// the reference is the whole string.
#[derive(Debug, PartialEq)]
pub struct EnvValue {
    /// Spliced verbatim into surrounding text.
    pub raw: String,
    /// Substituted whole, with its type, when the reference is the whole string.
    pub typed: Value,
}

/// Where `${env:NAME}` reads from.
pub trait Env {
    /// What the environment holds for a name: its raw text and its typed
    /// value, or `None` when it is unset.
    spec fn var(&self, name: Seq<char>) -> Option<(Seq<char>, ValueModel)>;

    /// The variable, or `None` if it is unset.
    fn lookup(&self, name: &str) -> (r: Option<EnvValue>)
        ensures
            match r {
                Some(e) => self.var(name@) == Some((e.raw@, e.typed.model())),
                None => self.var(name@) is None,
            },
    ;
}

/// The process environment, as captured when the process started: every
/// variable whose name and value are both UTF-8, each already typed. A
/// variable that is not UTF-8 reads as unset, since its bytes could not be
/// spliced into a JSON or TOML document either way.
#[derive(Debug)]
pub struct ProcessEnv {
    vars: Vec<(String, EnvValue)>,
}

/// The raw text a list of variables gives `name`: the first entry's.
pub open spec fn env_raw(vars: Seq<(Seq<char>, Seq<char>, ValueModel)>, name: Seq<char>) -> Option<
    (Seq<char>, ValueModel),
>
    decreases vars.len(),
{
    if vars.len() == 0 {
        None
    } else if vars[0].0 == name {
        Some((vars[0].1, vars[0].2))
    } else {
        env_raw(vars.drop_first(), name)
    }
}

impl ProcessEnv {
    /// The variables, by name, with both forms of their value.
    pub closed spec fn vars_view(&self) -> Seq<(Seq<char>, Seq<char>, ValueModel)> {
        self.vars@.map_values(|v: (String, EnvValue)| (v.0@, v.1.raw@, v.1.typed.model()))
    }

    /// An environment holding exactly these variables.
    pub fn new(vars: Vec<(String, EnvValue)>) -> (r: Self)
        ensures
            r.vars_view() == vars@.map_values(|v: (String, EnvValue)| (v.0@, v.1.raw@, v.1.typed.model())),
    {
        ProcessEnv { vars }
    }

    /// The variable `name`, or `None` if it is unset.
    pub fn get(&self, name: &str) -> (r: Option<EnvValue>)
        ensures
            match r {
                Some(e) => env_raw(self.vars_view(), name@) == Some((e.raw@, e.typed.model())),
                None => env_raw(self.vars_view(), name@) is None,
            },
    {
        let ghost vv = self.vars_view();
        let mut i: usize = 0;
        proof {
            assert(vv.skip(0) =~= vv);
        }
        while i < self.vars.len()
            invariant
                i <= self.vars@.len(),
                vv == self.vars_view(),
                env_raw(vv, name@) == env_raw(vv.skip(i as int), name@),
            decreases self.vars.len() - i,
        {
            proof {
                assert(vv.skip(i as int).drop_first() =~= vv.skip(i + 1));
                assert(vv.skip(i as int)[0] == vv[i as int]);
            }
            if crate::text::str_eq(self.vars[i].0.as_str(), name) {
                let e = &self.vars[i].1;
                return Some(EnvValue { raw: e.raw.clone(), typed: e.typed.duplicate() });
            }
            i += 1;
        }
        None
    }
}

impl Env for ProcessEnv {
    open spec fn var(&self, name: Seq<char>) -> Option<(Seq<char>, ValueModel)> {
        env_raw(self.vars_view(), name)
    }

    fn lookup(&self, name: &str) -> (r: Option<EnvValue>) {
        self.get(name)
    }
}

// --- lookups -----------------------------------------------------------------

/// The node at `path`, or `None` if nothing lives there.
pub open spec fn lookup_spec(v: ValueModel, path: Seq<SegModel>) -> Option<ValueModel>
    decreases path.len(),
{
    if path.len() == 0 {
        Some(v)
    } else {
        match (path[0], v) {
            (SegModel::Key(k), ValueModel::Object(e)) => {
                let at = key_index(e, k);
                if at >= 0 {
                    lookup_spec(e[at].1, path.drop_first())
                } else {
                    None
                }
            },
            (SegModel::Index(n), ValueModel::Array(a)) => if (n as int) < a.len() {
                lookup_spec(a[n as int], path.drop_first())
            } else {
                None
            },
            _ => None,
        }
    }
}

/// The node at `path`, or `None` if nothing lives there: a missing key and a
/// step of the wrong shape are both simply absent.
pub fn lookup<'a>(root: &'a Value, path: &[Seg]) -> (r: Option<&'a Value>)
    ensures
        match r {
            Some(v) => lookup_spec(root.model(), segs_view(path@)) == Some(v.model()),
            None => lookup_spec(root.model(), segs_view(path@)) is None,
        },
{
    let ghost p = segs_view(path@);
    let mut node = root;
    let mut i: usize = 0;
    proof {
        assert(p.skip(0) =~= p);
    }
    while i < path.len()
        invariant
            i <= path@.len(),
            p == segs_view(path@),
            lookup_spec(root.model(), p) == lookup_spec(node.model(), p.skip(i as int)),
        decreases path.len() - i,
    {
        let ghost rest = p.skip(i as int);
        proof {
            assert(rest[0] == path@[i as int]@);
            assert(rest.drop_first() =~= p.skip(i + 1));
        }
        match (&path[i], node) {
            (Seg::Key(k), Value::Object(entries)) => {
                proof {
                    lemma_object_model(*entries);
                    crate::value::lemma_key_index(entries_model(entries@), k@);
                }
                match find_key(entries, k.as_str()) {
                    Some(bi) => {
                        node = &entries[bi].1;
                    },
                    None => {
                        return None;
                    },
                }
            },
            (Seg::Index(n), Value::Array(items)) => {
                proof {
                    lemma_array_model(*items);
                }
                if *n < items.len() {
                    node = &items[*n];
                } else {
                    return None;
                }
            },
            _ => {
                return None;
            },
        }
        i += 1;
    }
    proof {
        assert(p.skip(i as int).len() == 0);
    }
    Some(node)
}

/// Every path at which `v` has a node.
pub open spec fn paths(v: ValueModel) -> Set<Seq<SegModel>> {
    Set::new(|p: Seq<SegModel>| lookup_spec(v, p) is Some)
}

/// The paths of `s`, each behind one more step.
pub open spec fn under(step: SegModel, s: Set<Seq<SegModel>>) -> Set<Seq<SegModel>> {
    s.map(|q: Seq<SegModel>| seq![step] + q)
}

/// The paths below the first `n` entries of an object.
pub open spec fn entry_paths(e: Seq<(Seq<char>, ValueModel)>, n: int) -> Set<Seq<SegModel>>
    decreases n,
{
    if n <= 0 {
        Set::empty()
    } else {
        entry_paths(e, n - 1).union(under(SegModel::Key(e[n - 1].0), paths(e[n - 1].1)))
    }
}

/// The paths below the first `n` items of an array.
pub open spec fn item_paths(a: Seq<ValueModel>, n: int) -> Set<Seq<SegModel>>
    decreases n,
{
    if n <= 0 {
        Set::empty()
    } else {
        item_paths(a, n - 1).union(under(SegModel::Index((n - 1) as usize), paths(a[n - 1])))
    }
}

/// A document has finitely many paths.
pub proof fn lemma_paths_finite(v: ValueModel)
    ensures
        paths(v).finite(),
    decreases v, 0int,
{
    broadcast use vstd::set_lib::lemma_set_subset_finite;
    let root = Set::<Seq<SegModel>>::empty().insert(Seq::empty());
    match v {
        ValueModel::Object(e) => {
            lemma_entry_paths_finite(e, e.len() as int);
            let all = root.union(entry_paths(e, e.len() as int));
            assert forall|p: Seq<SegModel>| paths(v).contains(p) implies all.contains(p) by {
                if p.len() > 0 {
                    if let SegModel::Key(k) = p[0] {
                        let at = key_index(e, k);
                        crate::value::lemma_key_index(e, k);
                        assert(paths(e[at].1).contains(p.drop_first()));
                        lemma_entry_paths_contain(e, e.len() as int, at, p.drop_first());
                        assert(p =~= seq![SegModel::Key(e[at].0)] + p.drop_first());
                    }
                } else {
                    assert(p =~= Seq::<SegModel>::empty());
                }
            }
            assert(paths(v).subset_of(all));
        },
        ValueModel::Array(a) => {
            lemma_item_paths_finite(a, a.len() as int);
            let all = root.union(item_paths(a, a.len() as int));
            assert forall|p: Seq<SegModel>| paths(v).contains(p) implies all.contains(p) by {
                if p.len() > 0 {
                    if let SegModel::Index(n) = p[0] {
                        assert(paths(a[n as int]).contains(p.drop_first()));
                        lemma_item_paths_contain(a, a.len() as int, n as int, p.drop_first());
                        assert(p =~= seq![SegModel::Index(n)] + p.drop_first());
                    }
                } else {
                    assert(p =~= Seq::<SegModel>::empty());
                }
            }
            assert(paths(v).subset_of(all));
        },
        _ => {
            assert forall|p: Seq<SegModel>| paths(v).contains(p) implies root.contains(p) by {
                if p.len() == 0 {
                    assert(p =~= Seq::<SegModel>::empty());
                }
            }
            assert(paths(v).subset_of(root));
        },
    }
}

proof fn lemma_entry_paths_finite(e: Seq<(Seq<char>, ValueModel)>, n: int)
    requires
        0 <= n <= e.len(),
    ensures
        entry_paths(e, n).finite(),
    decreases e, n,
{
    if n > 0 {
        lemma_entry_paths_finite(e, n - 1);
        assert(decreases_to!(e => e[n - 1]));
        lemma_paths_finite(e[n - 1].1);
        paths(e[n - 1].1).lemma_map_finite(|q: Seq<SegModel>| seq![SegModel::Key(e[n - 1].0)] + q);
    }
}

proof fn lemma_item_paths_finite(a: Seq<ValueModel>, n: int)
    requires
        0 <= n <= a.len(),
    ensures
        item_paths(a, n).finite(),
    decreases a, n,
{
    if n > 0 {
        lemma_item_paths_finite(a, n - 1);
        assert(decreases_to!(a => a[n - 1]));
        lemma_paths_finite(a[n - 1]);
        paths(a[n - 1]).lemma_map_finite(|q: Seq<SegModel>| seq![SegModel::Index((n - 1) as usize)] + q);
    }
}

proof fn lemma_entry_paths_contain(e: Seq<(Seq<char>, ValueModel)>, n: int, i: int, q: Seq<SegModel>)
    requires
        0 <= i < n,
        paths(e[i].1).contains(q),
    ensures
        entry_paths(e, n).contains(seq![SegModel::Key(e[i].0)] + q),
    decreases n,
{
    if i < n - 1 {
        lemma_entry_paths_contain(e, n - 1, i, q);
    } else {
        let f = |x: Seq<SegModel>| seq![SegModel::Key(e[i].0)] + x;
        assert(paths(e[i].1).map(f).contains(f(q)));
    }
}

proof fn lemma_item_paths_contain(a: Seq<ValueModel>, n: int, i: int, q: Seq<SegModel>)
    requires
        0 <= i < n,
        i <= usize::MAX,
        paths(a[i]).contains(q),
    ensures
        item_paths(a, n).contains(seq![SegModel::Index(i as usize)] + q),
    decreases n,
{
    if i < n - 1 {
        lemma_item_paths_contain(a, n - 1, i, q);
    } else {
        let f = |x: Seq<SegModel>| seq![SegModel::Index((n - 1) as usize)] + x;
        assert(paths(a[i]).map(f).contains(f(q)));
    }
}

/// One more step from a node that exists.
pub proof fn lemma_lookup_push(v: ValueModel, p: Seq<SegModel>, s: SegModel)
    ensures
        lookup_spec(v, p.push(s)) == match lookup_spec(v, p) {
            Some(w) => lookup_spec(w, seq![s]),
            None => None,
        },
    decreases p.len(),
{
    if p.len() > 0 {
        assert(p.push(s).drop_first() =~= p.drop_first().push(s));
        assert(p.push(s)[0] == p[0]);
        match (p[0], v) {
            (SegModel::Key(k), ValueModel::Object(e)) => {
                let at = key_index(e, k);
                if at >= 0 {
                    lemma_lookup_push(e[at].1, p.drop_first(), s);
                }
            },
            (SegModel::Index(n), ValueModel::Array(a)) => {
                if (n as int) < a.len() {
                    lemma_lookup_push(a[n as int], p.drop_first(), s);
                }
            },
            _ => {},
        }
    } else {
        assert(p.push(s) =~= seq![s]);
    }
}

/// A node of a well-formed document is well formed.
pub proof fn lemma_lookup_well_formed(v: ValueModel, p: Seq<SegModel>)
    requires
        v.well_formed(),
        lookup_spec(v, p) is Some,
    ensures
        lookup_spec(v, p)->Some_0.well_formed(),
    decreases p.len(),
{
    if p.len() > 0 {
        match (p[0], v) {
            (SegModel::Key(k), ValueModel::Object(e)) => {
                let at = key_index(e, k);
                crate::value::lemma_key_index(e, k);
                assert(e[at].1.well_formed());
                lemma_lookup_well_formed(e[at].1, p.drop_first());
            },
            (SegModel::Index(n), ValueModel::Array(a)) => {
                assert(a[n as int].well_formed());
                lemma_lookup_well_formed(a[n as int], p.drop_first());
            },
            _ => {},
        }
    }
}

// --- rendering ---------------------------------------------------------------

/// Whether a value is a float, whose spelling the caller supplies.
pub open spec fn is_float(v: ValueModel) -> bool {
    v matches ValueModel::Number(Number::F64(_))
}

/// The text an embedded reference splices in, for a value that is not a
/// float; `None` when it has no format-independent spelling.
pub open spec fn stringify_spec(v: ValueModel) -> Option<Seq<char>> {
    match v {
        ValueModel::Bool(b) => Some(if b { "true"@ } else { "false"@ }),
        ValueModel::String(s) => Some(s),
        ValueModel::Datetime(s) => Some(s),
        ValueModel::Number(Number::I64(i)) => Some(crate::text::signed_decimal(i as int)),
        ValueModel::Number(Number::U64(u)) => Some(crate::text::decimal(u as nat)),
        _ => None,
    }
}

fn value_is_non_finite(bits: u64) -> (r: bool)
    ensures
        r == Number::F64(bits).is_non_finite(),
{
    Number::F64(bits).non_finite()
}

/// The text an embedded reference splices in, or `None` when the value has
/// no format-independent spelling: a null, an array or an object. An
/// infinity or a NaN takes its TOML spelling; any other float is spelled by
/// `spell`, given its bits.
pub fn stringify<F: Fn(u64) -> String>(value: &Value, spell: &F) -> (r: Option<String>)
    requires
        forall|b: u64| #[trigger] spell.requires((b,)),
    ensures
        !is_float(value.model()) ==> match r {
            Some(t) => stringify_spec(value.model()) == Some(t@),
            None => stringify_spec(value.model()) is None,
        },
        is_float(value.model()) && value.model()->Number_0.is_non_finite() ==> r is Some
            && r->Some_0@ == crate::emit::nonfinite_spelling(value.model()->Number_0->F64_0),
        is_float(value.model()) && !value.model()->Number_0.is_non_finite() ==> r is Some && spell.ensures(
            (value.model()->Number_0->F64_0,),
            r->Some_0,
        ),
{
    match value {
        Value::Bool(b) => Some(if *b { owned("true") } else { owned("false") }),
        Value::String(s) => Some(s.clone()),
        Value::Datetime(s) => Some(s.clone()),
        Value::Number(Number::I64(i)) => {
            let mut out = String::new();
            push_signed_decimal(&mut out, *i);
            Some(out)
        },
        Value::Number(Number::U64(u)) => {
            let mut out = String::new();
            push_decimal(&mut out, *u);
            Some(out)
        },
        Value::Number(Number::F64(bits)) => {
            if value_is_non_finite(*bits) {
                Some(owned(crate::emit::spell_nonfinite(*bits)))
            } else {
                Some(spell(*bits))
            }
        },
        _ => None,
    }
}

// --- resolution --------------------------------------------------------------

/// What resolution leaves alone: keys and their order, array lengths, every
/// scalar that is not a string, and every string without a `$`.
pub open spec fn preserved(raw: ValueModel, out: ValueModel) -> bool
    decreases raw,
{
    match raw {
        ValueModel::String(s) => !s.contains('$') ==> out == raw,
        ValueModel::Array(a) => match out {
            ValueModel::Array(b) => a.len() == b.len() && forall|i: int|
                0 <= i < a.len() ==> preserved(#[trigger] a[i], b[i]),
            _ => false,
        },
        ValueModel::Object(e) => match out {
            ValueModel::Object(f) => e.len() == f.len() && forall|i: int|
                0 <= i < e.len() ==> f[i].0 == (#[trigger] e[i]).0 && preserved(e[i].1, f[i].1),
            _ => false,
        },
        _ => out == raw,
    }
}

/// The paths being resolved, as a set.
pub open spec fn visit_set(visiting: Seq<Vec<Seg>>) -> Set<Seq<SegModel>> {
    Set::new(|p: Seq<SegModel>| exists|i: int| 0 <= i < visiting.len() && #[trigger] segs_view(visiting[i]@) == p)
}

/// How many paths of the document are not being resolved: what bounds the
/// depth of resolution.
pub open spec fn unvisited(doc: ValueModel, visiting: Seq<Vec<Seg>>) -> nat {
    paths(doc).difference(visit_set(visiting)).len()
}

/// Every memoized resolution is of a node the document has, and preserves it.
pub open spec fn memo_ok(doc: ValueModel, memo: Seq<(Vec<Seg>, Value)>) -> bool {
    forall|i: int|
        0 <= i < memo.len() ==> {
            let p = segs_view((#[trigger] memo[i]).0@);
            &&& lookup_spec(doc, p) is Some
            &&& preserved(lookup_spec(doc, p)->Some_0, memo[i].1.model())
        }
}

/// The variable a reference body names, when it has the `env:` prefix.
pub open spec fn env_ref(body: Seq<char>) -> Option<Seq<char>> {
    if body.len() >= 4 && body.take(4) == "env:"@ {
        Some(body.skip(4))
    } else {
        None
    }
}

/// What is wrong with a reference on its own, before anything is looked
/// up: an `env:` reference with no name, or a document path that does not
/// parse.
pub open spec fn body_fault(body: Seq<char>) -> Option<SyntaxModel> {
    match env_ref(body) {
        Some(name) => if name.len() == 0 {
            Some(SyntaxModel::EmptyEnvName)
        } else {
            None
        },
        None => match parse_path(body) {
            Ok(_) => None,
            Err(ParseFault::BadIndex) => Some(SyntaxModel::BadIndex { body }),
            Err(_) => Some(SyntaxModel::EmptySegment { body }),
        },
    }
}

/// The string at `path` in the document holds the reference `body`.
pub open spec fn site(doc: ValueModel, path: Seq<SegModel>, body: Seq<char>) -> bool {
    lookup_spec(doc, path) matches Some(ValueModel::String(s)) && scan_spec(s).contains(PieceModel::Ref(body))
}

/// A reported problem is a real one: it stands at a string of the document
/// whose references include the offending one, and what it says of that
/// reference is so.
pub open spec fn genuine<E: Env>(doc: ValueModel, env: &E, p: ProblemModel) -> bool {
    match lookup_spec(doc, p.path()) {
        Some(ValueModel::String(s)) => {
            let pieces = scan_spec(s);
            match p {
                ProblemModel::Syntax { error, .. } => (exists|spelling: Seq<char>|
                    pieces.contains(PieceModel::Malformed { spelling, error })) || (exists|body: Seq<char>|
                    pieces.contains(PieceModel::Ref(body)) && body_fault(body) == Some(error)),
                ProblemModel::Unresolved { reference, .. } => {
                    &&& pieces.contains(PieceModel::Ref(reference))
                    &&& body_fault(reference) is None
                    &&& match env_ref(reference) {
                        Some(name) => env.var(name) is None,
                        None => lookup_spec(doc, parse_path(reference)->Ok_0) is None,
                    }
                },
                ProblemModel::NotStringifiable { reference, kind, .. } => {
                    &&& pieces.contains(PieceModel::Ref(reference))
                    &&& env_ref(reference) is None
                    &&& body_fault(reference) is None
                    &&& lookup_spec(doc, parse_path(reference)->Ok_0) is Some
                    &&& (kind == "object"@ || kind == "array"@ || kind == "null"@)
                },
            }
        },
        _ => false,
    }
}

/// A value an embedded reference cannot splice into text: one with no
/// format-independent spelling.
pub open spec fn unspliceable(x: ValueModel) -> bool {
    x is Null || x is Array || x is Object
}

/// A piece of a string that resolution has nothing to complain about: text,
/// or a well-formed reference that names something — a set variable, or a
/// node of the document which, in embedded position, resolves to something
/// that splices.
pub open spec fn piece_clean<E: Env>(
    doc: ValueModel,
    env: &E,
    resolved: spec_fn(Seq<SegModel>) -> Option<ValueModel>,
    piece: PieceModel,
    whole: bool,
) -> bool {
    match piece {
        PieceModel::Literal(_) => true,
        PieceModel::Malformed { .. } => false,
        PieceModel::Ref(body) => body_fault(body) is None && match env_ref(body) {
            Some(name) => env.var(name) is Some,
            None => lookup_spec(doc, parse_path(body)->Ok_0) is Some && (!whole ==> (resolved(
                parse_path(body)->Ok_0,
            ) matches Some(x) && !unspliceable(x))),
        },
    }
}

/// A string that is one reference and nothing else: the reference is in
/// whole position. Any other reference is embedded.
pub open spec fn whole_ref(pieces: Seq<PieceModel>) -> bool {
    pieces.len() == 1 && pieces[0] is Ref
}

/// Whether a string's references are all clean.
pub open spec fn string_clean<E: Env>(
    doc: ValueModel,
    env: &E,
    resolved: spec_fn(Seq<SegModel>) -> Option<ValueModel>,
    s: Seq<char>,
) -> bool {
    forall|k: int|
        0 <= k < scan_spec(s).len() ==> #[trigger] piece_clean(doc, env, resolved, scan_spec(s)[k], whole_ref(scan_spec(s)))
}

/// Every string of the document, the document itself included when it is
/// one, is clean, its references resolved as in `out`.
pub open spec fn document_clean<E: Env>(doc: ValueModel, env: &E, out: ValueModel) -> bool {
    forall|p: Seq<SegModel>|
        (#[trigger] lookup_spec(doc, p)) is Some && lookup_spec(doc, p)->Some_0 is String
            ==> string_clean(doc, env, node_of(out), lookup_spec(doc, p)->Some_0->String_0)
}

/// Resolving the node at `p` needs the node at `q` resolved first: `q` is
/// a child of the container at `p`, or a node the string at `p` refers to.
pub open spec fn depends(doc: ValueModel, p: Seq<SegModel>, q: Seq<SegModel>) -> bool {
    match lookup_spec(doc, p) {
        Some(ValueModel::Object(e)) => exists|k: int| 0 <= k < e.len() && q == p.push(SegModel::Key(#[trigger] e[k].0)),
        Some(ValueModel::Array(a)) => exists|k: usize| k < a.len() && q == #[trigger] p.push(SegModel::Index(k)),
        Some(ValueModel::String(s)) => exists|k: int|
            0 <= k < scan_spec(s).len() && #[trigger] piece_target(doc, scan_spec(s)[k]) == Some(q),
        _ => false,
    }
}

/// The document's nodes below the root, listed so that each comes after
/// every node it needs: an order in which they can all be resolved.
pub open spec fn resolution_order(doc: ValueModel, order: Seq<Seq<SegModel>>) -> bool {
    &&& forall|i: int| 0 <= i < order.len() ==> (#[trigger] order[i]).len() > 0 && lookup_spec(doc, order[i]) is Some
    &&& forall|p: Seq<SegModel>|
        p.len() > 0 && (#[trigger] lookup_spec(doc, p)) is Some ==> exists|i: int| 0 <= i < order.len() && #[trigger] order[i] == p
    &&& forall|i: int, q: Seq<SegModel>|
        0 <= i < order.len() && #[trigger] depends(doc, order[i], q) ==> exists|j: int| 0 <= j < i && #[trigger] order[j] == q
}

/// A chain of nodes each of which needs the next, ending where it starts:
/// a reference cycle, through references and the containers that hold them.
pub open spec fn dependency_cycle(doc: ValueModel, c: Seq<Seq<SegModel>>) -> bool {
    &&& c.len() >= 2
    &&& c[0] == c.last()
    &&& forall|k: int| 0 <= k < c.len() - 1 ==> #[trigger] depends(doc, c[k], c[k + 1])
}

/// No node repeats along a chain but the last, which closes it.
pub open spec fn simple_cycle(c: Seq<Seq<SegModel>>) -> bool {
    forall|i: int, j: int| 0 <= i < j < c.len() - 1 ==> c[i] != c[j]
}

/// Every reference in the document is well-formed and names something: a
/// set variable, or a node of the document.
pub open spec fn references_sound<E: Env>(doc: ValueModel, env: &E) -> bool {
    forall|p: Seq<SegModel>, k: int|
        (#[trigger] lookup_spec(doc, p)) is Some && lookup_spec(doc, p)->Some_0 is String && 0 <= k < scan_spec(
            lookup_spec(doc, p)->Some_0->String_0,
        ).len() ==> #[trigger] reference_sound(doc, env, scan_spec(lookup_spec(doc, p)->Some_0->String_0)[k])
}

/// A piece that is text, or a well-formed reference that names something.
pub open spec fn reference_sound<E: Env>(doc: ValueModel, env: &E, piece: PieceModel) -> bool {
    match piece {
        PieceModel::Literal(_) => true,
        PieceModel::Malformed { .. } => false,
        PieceModel::Ref(body) => body_fault(body) is None && match env_ref(body) {
            Some(name) => env.var(name) is Some,
            None => lookup_spec(doc, parse_path(body)->Ok_0) is Some,
        },
    }
}

/// In a document whose references are sound, the only real problem is a
/// container or a null spliced into text.
proof fn lemma_sound_problems<E: Env>(doc: ValueModel, env: &E, p: ProblemModel)
    requires
        references_sound(doc, env),
        genuine(doc, env, p),
    ensures
        p is NotStringifiable,
{
    let s = lookup_spec(doc, p.path())->Some_0->String_0;
    let pieces = scan_spec(s);
    match p {
        ProblemModel::Syntax { error, .. } => {
            if exists|spelling: Seq<char>| pieces.contains(PieceModel::Malformed { spelling, error }) {
                let spelling = choose|spelling: Seq<char>| pieces.contains(PieceModel::Malformed { spelling, error });
                let k = choose|k: int| 0 <= k < pieces.len() && pieces[k] == PieceModel::Malformed { spelling, error };
                assert(reference_sound(doc, env, pieces[k]));
            } else {
                let body = choose|body: Seq<char>| pieces.contains(PieceModel::Ref(body)) && body_fault(body) == Some(error);
                let k = choose|k: int| 0 <= k < pieces.len() && pieces[k] == PieceModel::Ref(body);
                assert(reference_sound(doc, env, pieces[k]));
            }
        },
        ProblemModel::Unresolved { reference, .. } => {
            let k = choose|k: int| 0 <= k < pieces.len() && pieces[k] == PieceModel::Ref(reference);
            assert(reference_sound(doc, env, pieces[k]));
        },
        _ => {},
    }
}

/// Every problem reported is a real one.
pub open spec fn all_genuine<E: Env>(doc: ValueModel, env: &E, problems: Seq<Problem>) -> bool {
    forall|i: int| 0 <= i < problems.len() ==> #[trigger] genuine(doc, env, problems[i]@)
}

/// The problem one piece of the string at `p` comes to, if any, its
/// referents resolved as `resolved` says: a malformed reference; an `env:`
/// reference with no name, or to a variable that is not set; a document
/// reference that does not parse or names nothing; and, in embedded
/// position, one whose referent resolved to a container or a null.
pub open spec fn piece_problem<E: Env>(
    doc: ValueModel,
    env: &E,
    resolved: spec_fn(Seq<SegModel>) -> Option<ValueModel>,
    p: Seq<SegModel>,
    piece: PieceModel,
    whole: bool,
) -> Option<ProblemModel> {
    match piece {
        PieceModel::Literal(_) => None,
        PieceModel::Malformed { error, .. } => Some(ProblemModel::Syntax { path: p, error }),
        PieceModel::Ref(body) => match env_ref(body) {
            Some(name) => if name.len() == 0 {
                Some(ProblemModel::Syntax { path: p, error: SyntaxModel::EmptyEnvName })
            } else if env.var(name) is None {
                Some(ProblemModel::Unresolved { path: p, reference: body })
            } else {
                None
            },
            None => match parse_path(body) {
                Err(ParseFault::BadIndex) => Some(ProblemModel::Syntax { path: p, error: SyntaxModel::BadIndex { body } }),
                Err(_) => Some(ProblemModel::Syntax { path: p, error: SyntaxModel::EmptySegment { body } }),
                Ok(q) => if lookup_spec(doc, q) is None {
                    Some(ProblemModel::Unresolved { path: p, reference: body })
                } else if !whole && resolved(q) is Some && unspliceable(resolved(q)->Some_0) {
                    Some(
                        ProblemModel::NotStringifiable {
                            path: p,
                            reference: body,
                            kind: resolved(q)->Some_0.kind().label()@,
                        },
                    )
                } else {
                    None
                },
            },
        },
    }
}

/// `q` is among the problems reported.
pub open spec fn reported(problems: Seq<Problem>, q: ProblemModel) -> bool {
    exists|j: int| 0 <= j < problems.len() && (#[trigger] problems[j])@ == q
}

/// The problem a piece comes to, if any, is among those reported.
pub open spec fn piece_reported<E: Env>(
    doc: ValueModel,
    env: &E,
    resolved: spec_fn(Seq<SegModel>) -> Option<ValueModel>,
    p: Seq<SegModel>,
    piece: PieceModel,
    whole: bool,
    problems: Seq<Problem>,
) -> bool {
    match piece_problem(doc, env, resolved, p, piece, whole) {
        Some(q) => reported(problems, q),
        None => true,
    }
}

/// Every problem of the string `s` at `p` is among those reported.
pub open spec fn string_reported<E: Env>(
    doc: ValueModel,
    env: &E,
    resolved: spec_fn(Seq<SegModel>) -> Option<ValueModel>,
    p: Seq<SegModel>,
    s: Seq<char>,
    problems: Seq<Problem>,
) -> bool {
    forall|k: int|
        0 <= k < scan_spec(s).len() ==> #[trigger] piece_reported(
            doc,
            env,
            resolved,
            p,
            scan_spec(s)[k],
            whole_ref(scan_spec(s)),
            problems,
        )
}

/// Every problem of every string of the document is among those reported.
pub open spec fn all_reported<E: Env>(
    doc: ValueModel,
    env: &E,
    resolved: spec_fn(Seq<SegModel>) -> Option<ValueModel>,
    problems: Seq<Problem>,
) -> bool {
    forall|p: Seq<SegModel>|
        (#[trigger] lookup_spec(doc, p)) is Some && lookup_spec(doc, p)->Some_0 is String
            ==> string_reported(doc, env, resolved, p, lookup_spec(doc, p)->Some_0->String_0, problems)
}

/// `q` is the problem some piece of the string at its path comes to,
/// referents resolved as `resolved` says.
pub open spec fn from_a_piece<E: Env>(
    doc: ValueModel,
    env: &E,
    resolved: spec_fn(Seq<SegModel>) -> Option<ValueModel>,
    q: ProblemModel,
) -> bool {
    &&& lookup_spec(doc, q.path()) is Some
    &&& lookup_spec(doc, q.path())->Some_0 is String
    &&& exists|k: int|
        0 <= k < scan_spec(lookup_spec(doc, q.path())->Some_0->String_0).len() && #[trigger] piece_problem(
            doc,
            env,
            resolved,
            q.path(),
            scan_spec(lookup_spec(doc, q.path())->Some_0->String_0)[k],
            whole_ref(scan_spec(lookup_spec(doc, q.path())->Some_0->String_0)),
        ) == Some(q)
}

/// Every problem reported is the problem of some piece of the string at
/// its path.
pub open spec fn all_from_pieces<E: Env>(
    doc: ValueModel,
    env: &E,
    resolved: spec_fn(Seq<SegModel>) -> Option<ValueModel>,
    problems: Seq<Problem>,
) -> bool {
    forall|j: int| 0 <= j < problems.len() ==> #[trigger] from_a_piece(doc, env, resolved, problems[j]@)
}

/// The node a reported splice problem names has been resolved.
spec fn splices_held(doc: ValueModel, memo: Seq<(Vec<Seg>, Value)>, problems: Seq<Problem>) -> bool {
    forall|j: int|
        0 <= j < problems.len() && (#[trigger] problems[j])@ is NotStringifiable ==> exists|x: ValueModel|
            memo_holds(memo, parse_path(problems[j]@->NotStringifiable_reference)->Ok_0, x)
}

/// Every problem reported comes from a piece, by the memo's resolutions,
/// and those resolutions stay put.
spec fn memo_sourced<E: Env>(doc: ValueModel, env: &E, memo: Seq<(Vec<Seg>, Value)>, problems: Seq<Problem>) -> bool {
    &&& all_from_pieces(doc, env, memo_lookup(memo), problems)
    &&& splices_held(doc, memo, problems)
}

/// A problem from a piece stays one as more nodes are resolved, when the
/// node a splice problem names was already resolved.
proof fn lemma_from_a_piece_memo<E: Env>(
    doc: ValueModel,
    env: &E,
    new: Seq<(Vec<Seg>, Value)>,
    old: Seq<(Vec<Seg>, Value)>,
    q: ProblemModel,
)
    requires
        memo_extends(new, old),
        memo_unique(new),
        from_a_piece(doc, env, memo_lookup(old), q),
        q is NotStringifiable ==> exists|x: ValueModel| memo_holds(old, parse_path(q->NotStringifiable_reference)->Ok_0, x),
    ensures
        from_a_piece(doc, env, memo_lookup(new), q),
{
    let s = lookup_spec(doc, q.path())->Some_0->String_0;
    let pieces = scan_spec(s);
    let k = choose|k: int|
        0 <= k < pieces.len() && #[trigger] piece_problem(doc, env, memo_lookup(old), q.path(), pieces[k], whole_ref(pieces)) == Some(q);
    if let PieceModel::Ref(body) = pieces[k] {
        if env_ref(body) is None && parse_path(body) is Ok {
            let t = parse_path(body)->Ok_0;
            if lookup_spec(doc, t) is Some && !whole_ref(pieces) {
                lemma_lookup_stable(new, old, t);
            }
        }
    }
    assert(piece_problem(doc, env, memo_lookup(new), q.path(), pieces[k], whole_ref(pieces)) == Some(q));
}

/// A problem some piece of its string comes to is from a piece.
proof fn lemma_from_piece_at<E: Env>(
    doc: ValueModel,
    env: &E,
    resolved: spec_fn(Seq<SegModel>) -> Option<ValueModel>,
    s: Seq<char>,
    k: int,
    q: ProblemModel,
)
    requires
        lookup_spec(doc, q.path()) == Some(ValueModel::String(s)),
        0 <= k < scan_spec(s).len(),
        piece_problem(doc, env, resolved, q.path(), scan_spec(s)[k], whole_ref(scan_spec(s))) == Some(q),
    ensures
        from_a_piece(doc, env, resolved, q),
{
}

/// Reporting one more problem from a piece keeps every report from a piece.
proof fn lemma_sourced_push<E: Env>(
    doc: ValueModel,
    env: &E,
    memo: Seq<(Vec<Seg>, Value)>,
    old: Seq<Problem>,
    x: Problem,
)
    requires
        memo_sourced(doc, env, memo, old),
        from_a_piece(doc, env, memo_lookup(memo), x@),
        x@ is NotStringifiable ==> exists|y: ValueModel| memo_holds(memo, parse_path(x@->NotStringifiable_reference)->Ok_0, y),
    ensures
        memo_sourced(doc, env, memo, old.push(x)),
{
    let new = old.push(x);
    assert forall|j: int| 0 <= j < new.len() implies #[trigger] from_a_piece(doc, env, memo_lookup(memo), new[j]@) by {
        if j < old.len() {
            assert(new[j] == old[j]);
        }
    }
    assert forall|j: int| 0 <= j < new.len() && (#[trigger] new[j])@ is NotStringifiable implies exists|y: ValueModel|
        memo_holds(memo, parse_path(new[j]@->NotStringifiable_reference)->Ok_0, y) by {
        if j < old.len() {
            assert(new[j] == old[j]);
        }
    }
}

/// Resolving more nodes keeps every report from a piece.
proof fn lemma_sourced_memo<E: Env>(
    doc: ValueModel,
    env: &E,
    new: Seq<(Vec<Seg>, Value)>,
    old: Seq<(Vec<Seg>, Value)>,
    problems: Seq<Problem>,
)
    requires
        memo_extends(new, old),
        memo_unique(new),
        memo_sourced(doc, env, old, problems),
    ensures
        memo_sourced(doc, env, new, problems),
{
    assert forall|j: int| 0 <= j < problems.len() implies #[trigger] from_a_piece(doc, env, memo_lookup(new), problems[j]@) by {
        assert(from_a_piece(doc, env, memo_lookup(old), problems[j]@));
        lemma_from_a_piece_memo(doc, env, new, old, problems[j]@);
    }
    assert forall|j: int| 0 <= j < problems.len() && (#[trigger] problems[j])@ is NotStringifiable implies exists|y: ValueModel|
        memo_holds(new, parse_path(problems[j]@->NotStringifiable_reference)->Ok_0, y) by {
        let t = parse_path(problems[j]@->NotStringifiable_reference)->Ok_0;
        let y = choose|y: ValueModel| memo_holds(old, t, y);
        lemma_holds_extends(new, old, t, y);
    }
}

// --- the order of resolution ----------------------------------------------------

/// What a walk of resolution leaves: the places (a string's path and a
/// piece's index) whose problems are reported, in the order they are
/// reported; the paths resolved by then; and the cycle it stopped at, if it
/// did.
pub struct Walk {
    pub sites: Seq<(Seq<SegModel>, int)>,
    pub done: Set<Seq<SegModel>>,
    pub cycle: Option<Seq<Seq<SegModel>>>,
}

/// The paths on a stack, as a set.
pub open spec fn stack_set(stack: Seq<Seq<SegModel>>) -> Set<Seq<SegModel>> {
    Set::new(|q: Seq<SegModel>| exists|i: int| 0 <= i < stack.len() && stack[i] == q)
}

/// How many paths of the document are not on the stack.
pub open spec fn left(doc: ValueModel, stack: Seq<Seq<SegModel>>) -> nat {
    paths(doc).difference(stack_set(stack)).len()
}

/// Where `p` is on a stack.
pub open spec fn position(stack: Seq<Seq<SegModel>>, p: Seq<SegModel>) -> int {
    choose|i: int| 0 <= i < stack.len() && stack[i] == p
}

/// The walk of resolution from the node at `p`, with `stack` the nodes being
/// resolved (outermost first) and `done` those already resolved: a resolved
/// node is not entered again; a node on the stack closes a cycle, reported
/// from where that node stands on the stack; any other node is entered,
/// its members or references walked in order, and then it counts as
/// resolved (the root never does: nothing can name it).
pub open spec fn walk(doc: ValueModel, stack: Seq<Seq<SegModel>>, done: Set<Seq<SegModel>>, p: Seq<SegModel>, budget: nat) -> Walk
    decreases budget, 0nat, 0nat,
{
    if done.contains(p) {
        Walk { sites: Seq::empty(), done, cycle: None }
    } else if stack_set(stack).contains(p) {
        Walk { sites: Seq::empty(), done, cycle: Some(stack.skip(position(stack, p)).push(p)) }
    } else if left(doc, stack.push(p)) < budget {
        let inner = walk_node(doc, stack.push(p), done, p, left(doc, stack.push(p)));
        if inner.cycle is Some {
            inner
        } else {
            Walk { sites: inner.sites, done: if p.len() > 0 { inner.done.insert(p) } else { inner.done }, cycle: None }
        }
    } else {
        Walk { sites: Seq::empty(), done, cycle: None }
    }
}

/// The walk inside the node at `p`, already on the stack: an object's
/// members and an array's items in order, a string's pieces in order.
pub open spec fn walk_node(doc: ValueModel, stack: Seq<Seq<SegModel>>, done: Set<Seq<SegModel>>, p: Seq<SegModel>, budget: nat) -> Walk
    decreases budget, 2nat, 0nat,
{
    match lookup_spec(doc, p) {
        Some(ValueModel::Object(e)) => walk_list(
            doc,
            stack,
            done,
            Seq::new(e.len(), |i: int| p.push(SegModel::Key(e[i].0))),
            e.len(),
            budget,
        ),
        Some(ValueModel::Array(a)) => walk_list(
            doc,
            stack,
            done,
            Seq::new(a.len(), |i: int| p.push(SegModel::Index(i as usize))),
            a.len(),
            budget,
        ),
        Some(ValueModel::String(s)) => walk_pieces(doc, stack, done, p, scan_spec(s), scan_spec(s).len(), budget),
        _ => Walk { sites: Seq::empty(), done, cycle: None },
    }
}

/// The walk of the first `n` members.
pub open spec fn walk_list(
    doc: ValueModel,
    stack: Seq<Seq<SegModel>>,
    done: Set<Seq<SegModel>>,
    members: Seq<Seq<SegModel>>,
    n: nat,
    budget: nat,
) -> Walk
    decreases budget, 1nat, n,
{
    if n == 0 || n > members.len() {
        Walk { sites: Seq::empty(), done, cycle: None }
    } else {
        let w = walk_list(doc, stack, done, members, (n - 1) as nat, budget);
        if w.cycle is Some {
            w
        } else {
            let c = walk(doc, stack, w.done, members[n - 1], budget);
            Walk { sites: w.sites + c.sites, done: c.done, cycle: c.cycle }
        }
    }
}

/// The walk of the first `n` pieces of the string at `p`: a piece's
/// referent, if it names one, is walked before the piece's own place.
pub open spec fn walk_pieces(
    doc: ValueModel,
    stack: Seq<Seq<SegModel>>,
    done: Set<Seq<SegModel>>,
    p: Seq<SegModel>,
    pieces: Seq<PieceModel>,
    n: nat,
    budget: nat,
) -> Walk
    decreases budget, 1nat, n,
{
    if n == 0 || n > pieces.len() {
        Walk { sites: Seq::empty(), done, cycle: None }
    } else {
        let w = walk_pieces(doc, stack, done, p, pieces, (n - 1) as nat, budget);
        if w.cycle is Some {
            w
        } else {
            match piece_target(doc, pieces[n - 1]) {
                Some(q) => {
                    let c = walk(doc, stack, w.done, q, budget);
                    if c.cycle is Some {
                        Walk { sites: w.sites + c.sites, done: c.done, cycle: c.cycle }
                    } else {
                        Walk { sites: (w.sites + c.sites).push((p, n - 1)), done: c.done, cycle: None }
                    }
                },
                None => Walk { sites: w.sites.push((p, n - 1)), done: w.done, cycle: None },
            }
        }
    }
}

/// The problem the piece at a place comes to, if any.
pub open spec fn site_problem<E: Env>(
    doc: ValueModel,
    env: &E,
    resolved: spec_fn(Seq<SegModel>) -> Option<ValueModel>,
    site: (Seq<SegModel>, int),
) -> Option<ProblemModel> {
    match lookup_spec(doc, site.0) {
        Some(ValueModel::String(s)) => if 0 <= site.1 < scan_spec(s).len() {
            piece_problem(doc, env, resolved, site.0, scan_spec(s)[site.1], whole_ref(scan_spec(s)))
        } else {
            None
        },
        _ => None,
    }
}

/// The problems the places come to, in order, referents resolved as
/// `resolved` says.
pub open spec fn site_problems<E: Env>(
    doc: ValueModel,
    env: &E,
    resolved: spec_fn(Seq<SegModel>) -> Option<ValueModel>,
    sites: Seq<(Seq<SegModel>, int)>,
) -> Seq<ProblemModel>
    decreases sites.len(),
{
    if sites.len() == 0 {
        Seq::empty()
    } else {
        site_problems(doc, env, resolved, sites.drop_last()) + opt_problem(site_problem(doc, env, resolved, sites.last()))
    }
}

/// The walk of a whole interpolation, from the root.
pub open spec fn resolution_walk(doc: ValueModel) -> Walk {
    walk(doc, Seq::empty(), Set::empty(), Seq::empty(), paths(doc).len())
}

/// The paths on the stack of nodes being resolved.
spec fn stack_view(visiting: Seq<Vec<Seg>>) -> Seq<Seq<SegModel>> {
    visiting.map_values(|v: Vec<Seg>| segs_view(v@))
}

/// The paths the memo holds resolutions of.
spec fn memo_paths(memo: Seq<(Vec<Seg>, Value)>) -> Set<Seq<SegModel>> {
    Set::new(|q: Seq<SegModel>| exists|i: int| 0 <= i < memo.len() && segs_view((#[trigger] memo[i]).0@) == q)
}

/// The piece at a place, if there is one.
spec fn site_piece(doc: ValueModel, site: (Seq<SegModel>, int)) -> Option<PieceModel> {
    match lookup_spec(doc, site.0) {
        Some(ValueModel::String(s)) => if 0 <= site.1 < scan_spec(s).len() {
            Some(scan_spec(s)[site.1])
        } else {
            None
        },
        _ => None,
    }
}

/// Every node a place's piece names has been resolved.
spec fn sites_held(doc: ValueModel, memo: Seq<(Vec<Seg>, Value)>, sites: Seq<(Seq<SegModel>, int)>) -> bool {
    forall|j: int|
        0 <= j < sites.len() && (#[trigger] site_piece(doc, sites[j])) is Some ==> target_held(
            doc,
            memo,
            site_piece(doc, sites[j])->Some_0,
        )
}

/// A problem, if any, as a list.
pub open spec fn opt_problem(o: Option<ProblemModel>) -> Seq<ProblemModel> {
    match o {
        Some(q) => seq![q],
        None => Seq::empty(),
    }
}

proof fn lemma_site_problems_concat<E: Env>(
    doc: ValueModel,
    env: &E,
    resolved: spec_fn(Seq<SegModel>) -> Option<ValueModel>,
    a: Seq<(Seq<SegModel>, int)>,
    b: Seq<(Seq<SegModel>, int)>,
)
    ensures
        site_problems(doc, env, resolved, a + b) == site_problems(doc, env, resolved, a) + site_problems(doc, env, resolved, b),
    decreases b.len(),
{
    if b.len() == 0 {
        assert(a + b =~= a);
        assert(site_problems(doc, env, resolved, a) + Seq::<ProblemModel>::empty() =~= site_problems(doc, env, resolved, a));
    } else {
        assert((a + b).drop_last() =~= a + b.drop_last());
        assert((a + b).last() == b.last());
        lemma_site_problems_concat(doc, env, resolved, a, b.drop_last());
        let x = site_problems(doc, env, resolved, a);
        let y = site_problems(doc, env, resolved, b.drop_last());
        let z = opt_problem(site_problem(doc, env, resolved, b.last()));
        assert(x + y + z =~= x + (y + z));
    }
}

/// One more place, at the end.
proof fn lemma_site_problems_push<E: Env>(
    doc: ValueModel,
    env: &E,
    resolved: spec_fn(Seq<SegModel>) -> Option<ValueModel>,
    a: Seq<(Seq<SegModel>, int)>,
    site: (Seq<SegModel>, int),
)
    ensures
        site_problems(doc, env, resolved, a.push(site)) == site_problems(doc, env, resolved, a) + opt_problem(
            site_problem(doc, env, resolved, site),
        ),
{
    assert(a.push(site).drop_last() =~= a);
}

/// The stack of paths grows as the stack of nodes does.
proof fn lemma_stack_view_push(v: Seq<Vec<Seg>>, x: Vec<Seg>)
    ensures
        stack_view(v.push(x)) == stack_view(v).push(segs_view(x@)),
        stack_set(stack_view(v)) == visit_set(v),
{
    assert(stack_view(v.push(x)) =~= stack_view(v).push(segs_view(x@)));
    assert(stack_set(stack_view(v)) =~= visit_set(v)) by {
        assert forall|q: Seq<SegModel>| stack_set(stack_view(v)).contains(q) == visit_set(v).contains(q) by {
            if stack_set(stack_view(v)).contains(q) {
                let i = choose|i: int| 0 <= i < stack_view(v).len() && stack_view(v)[i] == q;
                assert(segs_view(v[i]@) == q);
            }
            if visit_set(v).contains(q) {
                let i = choose|i: int| 0 <= i < v.len() && #[trigger] segs_view(v[i]@) == q;
                assert(stack_view(v)[i] == q);
            }
        }
    }
}

/// The paths a memo holds, one more entry on.
proof fn lemma_memo_paths_push(memo: Seq<(Vec<Seg>, Value)>, e: (Vec<Seg>, Value))
    ensures
        memo_paths(memo.push(e)) == memo_paths(memo).insert(segs_view(e.0@)),
{
    assert(memo_paths(memo.push(e)) =~= memo_paths(memo).insert(segs_view(e.0@))) by {
        assert forall|q: Seq<SegModel>| memo_paths(memo.push(e)).contains(q) == memo_paths(memo).insert(segs_view(e.0@)).contains(q) by {
            if memo_paths(memo).contains(q) {
                let i = choose|i: int| 0 <= i < memo.len() && segs_view((#[trigger] memo[i]).0@) == q;
                assert(memo.push(e)[i] == memo[i]);
            }
            if q == segs_view(e.0@) {
                assert(memo.push(e)[memo.len() as int] == e);
            }
            if memo_paths(memo.push(e)).contains(q) {
                let i = choose|i: int| 0 <= i < memo.push(e).len() && segs_view((#[trigger] memo.push(e)[i]).0@) == q;
                if i < memo.len() {
                    assert(memo.push(e)[i] == memo[i]);
                }
            }
        }
    }
}

proof fn lemma_sites_held_concat(doc: ValueModel, memo: Seq<(Vec<Seg>, Value)>, a: Seq<(Seq<SegModel>, int)>, b: Seq<(Seq<SegModel>, int)>)
    requires
        sites_held(doc, memo, a),
        sites_held(doc, memo, b),
    ensures
        sites_held(doc, memo, a + b),
{
    assert forall|j: int|
        0 <= j < (a + b).len() && (#[trigger] site_piece(doc, (a + b)[j])) is Some implies target_held(
            doc,
            memo,
            site_piece(doc, (a + b)[j])->Some_0,
        ) by {
        if j < a.len() {
            assert((a + b)[j] == a[j]);
        } else {
            assert((a + b)[j] == b[j - a.len()]);
        }
    }
}

proof fn lemma_sites_held_push(doc: ValueModel, memo: Seq<(Vec<Seg>, Value)>, a: Seq<(Seq<SegModel>, int)>, site: (Seq<SegModel>, int))
    requires
        sites_held(doc, memo, a),
        site_piece(doc, site) is Some ==> target_held(doc, memo, site_piece(doc, site)->Some_0),
    ensures
        sites_held(doc, memo, a.push(site)),
{
    assert forall|j: int|
        0 <= j < a.push(site).len() && (#[trigger] site_piece(doc, a.push(site)[j])) is Some implies target_held(
            doc,
            memo,
            site_piece(doc, a.push(site)[j])->Some_0,
        ) by {
        if j < a.len() {
            assert(a.push(site)[j] == a[j]);
        }
    }
}

/// One more piece of an embedded string walked: its referent's walk, then
/// its own place.
proof fn lemma_pieces_step<E: Env>(
    doc: ValueModel,
    env: &E,
    sv: Seq<Seq<SegModel>>,
    dn: Set<Seq<SegModel>>,
    sp: Seq<SegModel>,
    text: Seq<char>,
    i: nat,
    budget: nat,
    start: State,
    before: State,
    after: State,
)
    requires
        lookup_spec(doc, sp) == Some(ValueModel::String(text)),
        i < scan_spec(text).len(),
        !whole_ref(scan_spec(text)),
        walk_pieces(doc, sv, dn, sp, scan_spec(text), i, budget).cycle is None,
        followed(doc, env, walk_pieces(doc, sv, dn, sp, scan_spec(text), i, budget), start, before, Seq::empty()),
        followed(
            doc,
            env,
            piece_walk(doc, sv, memo_paths(before.memo@), scan_spec(text)[i as int], budget),
            before,
            after,
            opt_problem(piece_problem(doc, env, memo_lookup(after.memo@), sp, scan_spec(text)[i as int], false)),
        ),
        memo_extends(after.memo@, before.memo@),
        memo_unique(after.memo@),
        target_held(doc, after.memo@, scan_spec(text)[i as int]),
    ensures
        walk_pieces(doc, sv, dn, sp, scan_spec(text), i + 1, budget).cycle is None,
        followed(doc, env, walk_pieces(doc, sv, dn, sp, scan_spec(text), i + 1, budget), start, after, Seq::empty()),
{
    let pv = scan_spec(text);
    let w = walk_pieces(doc, sv, dn, sp, pv, i, budget);
    let c = piece_walk(doc, sv, w.done, pv[i as int], budget);
    let w2 = walk_pieces(doc, sv, dn, sp, pv, i + 1, budget);
    assert(((i + 1) - 1) as nat == i);
    assert(w2.sites =~= (w.sites + c.sites).push((sp, i as int)));
    assert(w2.done == c.done);
    let ra = memo_lookup(after.memo@);
    let rb = memo_lookup(before.memo@);
    lemma_site_problems_memo(doc, env, after.memo@, before.memo@, w.sites);
    lemma_site_problems_concat(doc, env, ra, w.sites, c.sites);
    lemma_site_problems_push(doc, env, ra, w.sites + c.sites, (sp, i as int));
    assert(site_problem(doc, env, ra, (sp, i as int)) == piece_problem(doc, env, ra, sp, pv[i as int], false));
    let x = problems_view(start.problems@);
    let a = site_problems(doc, env, ra, w.sites);
    let b = site_problems(doc, env, ra, c.sites);
    let o = opt_problem(piece_problem(doc, env, ra, sp, pv[i as int], false));
    assert(problems_view(before.problems@) =~= x + a);
    assert(problems_view(after.problems@) =~= x + site_problems(doc, env, ra, w2.sites) + Seq::<ProblemModel>::empty());
    lemma_sites_held_concat(doc, after.memo@, w.sites, c.sites);
    assert(site_piece(doc, (sp, i as int)) == Some(pv[i as int]));
    lemma_sites_held_push(doc, after.memo@, w.sites + c.sites, (sp, i as int));
}

/// A cycle met at one piece stops the walk of the whole string.
proof fn lemma_pieces_stop(
    doc: ValueModel,
    sv: Seq<Seq<SegModel>>,
    dn: Set<Seq<SegModel>>,
    sp: Seq<SegModel>,
    pv: Seq<PieceModel>,
    i: nat,
    budget: nat,
    chain: Seq<Seq<SegModel>>,
)
    requires
        i < pv.len(),
        walk_pieces(doc, sv, dn, sp, pv, i, budget).cycle is None,
        piece_walk(doc, sv, walk_pieces(doc, sv, dn, sp, pv, i, budget).done, pv[i as int], budget).cycle == Some(chain),
    ensures
        walk_pieces(doc, sv, dn, sp, pv, pv.len(), budget).cycle == Some(chain),
{
    assert(((i + 1) - 1) as nat == i);
    assert(walk_pieces(doc, sv, dn, sp, pv, i + 1, budget).cycle == Some(chain));
    lemma_walk_pieces_stops(doc, sv, dn, sp, pv, i + 1, pv.len(), budget);
}

/// One more member walked.
proof fn lemma_list_step<E: Env>(
    doc: ValueModel,
    env: &E,
    sv: Seq<Seq<SegModel>>,
    dn: Set<Seq<SegModel>>,
    ms: Seq<Seq<SegModel>>,
    i: nat,
    budget: nat,
    start: State,
    before: State,
    after: State,
)
    requires
        i < ms.len(),
        walk_list(doc, sv, dn, ms, i, budget).cycle is None,
        followed(doc, env, walk_list(doc, sv, dn, ms, i, budget), start, before, Seq::empty()),
        followed(doc, env, walk(doc, sv, memo_paths(before.memo@), ms[i as int], budget), before, after, Seq::empty()),
        memo_extends(after.memo@, before.memo@),
        memo_unique(after.memo@),
    ensures
        walk_list(doc, sv, dn, ms, i + 1, budget).cycle is None,
        followed(doc, env, walk_list(doc, sv, dn, ms, i + 1, budget), start, after, Seq::empty()),
{
    let w = walk_list(doc, sv, dn, ms, i, budget);
    let c = walk(doc, sv, w.done, ms[i as int], budget);
    let w2 = walk_list(doc, sv, dn, ms, i + 1, budget);
    assert(((i + 1) - 1) as nat == i);
    assert(w2.sites == w.sites + c.sites);
    let ra = memo_lookup(after.memo@);
    lemma_site_problems_memo(doc, env, after.memo@, before.memo@, w.sites);
    lemma_site_problems_concat(doc, env, ra, w.sites, c.sites);
    let x = problems_view(start.problems@);
    assert(problems_view(before.problems@) =~= x + site_problems(doc, env, ra, w.sites));
    assert(problems_view(after.problems@) =~= x + site_problems(doc, env, ra, w2.sites) + Seq::<ProblemModel>::empty());
    lemma_sites_held_concat(doc, after.memo@, w.sites, c.sites);
}

/// A cycle met at one member stops the walk of the whole list.
proof fn lemma_list_stop(
    doc: ValueModel,
    sv: Seq<Seq<SegModel>>,
    dn: Set<Seq<SegModel>>,
    ms: Seq<Seq<SegModel>>,
    i: nat,
    budget: nat,
    chain: Seq<Seq<SegModel>>,
)
    requires
        i < ms.len(),
        walk_list(doc, sv, dn, ms, i, budget).cycle is None,
        walk(doc, sv, walk_list(doc, sv, dn, ms, i, budget).done, ms[i as int], budget).cycle == Some(chain),
    ensures
        walk_list(doc, sv, dn, ms, ms.len(), budget).cycle == Some(chain),
{
    assert(((i + 1) - 1) as nat == i);
    assert(walk_list(doc, sv, dn, ms, i + 1, budget).cycle == Some(chain));
    lemma_walk_list_stops(doc, sv, dn, ms, i + 1, ms.len(), budget);
}

/// Once the walk of some pieces stops at a cycle, the walk of more does too.
proof fn lemma_walk_pieces_stops(
    doc: ValueModel,
    stack: Seq<Seq<SegModel>>,
    done: Set<Seq<SegModel>>,
    p: Seq<SegModel>,
    pieces: Seq<PieceModel>,
    m: nat,
    n: nat,
    budget: nat,
)
    requires
        m <= n <= pieces.len(),
        walk_pieces(doc, stack, done, p, pieces, m, budget).cycle is Some,
    ensures
        walk_pieces(doc, stack, done, p, pieces, n, budget).cycle == walk_pieces(doc, stack, done, p, pieces, m, budget).cycle,
    decreases n - m,
{
    if m < n {
        lemma_walk_pieces_stops(doc, stack, done, p, pieces, m, (n - 1) as nat, budget);
    }
}

/// Once the walk of some members stops at a cycle, the walk of more does too.
proof fn lemma_walk_list_stops(
    doc: ValueModel,
    stack: Seq<Seq<SegModel>>,
    done: Set<Seq<SegModel>>,
    members: Seq<Seq<SegModel>>,
    m: nat,
    n: nat,
    budget: nat,
)
    requires
        m <= n <= members.len(),
        walk_list(doc, stack, done, members, m, budget).cycle is Some,
    ensures
        walk_list(doc, stack, done, members, n, budget).cycle == walk_list(doc, stack, done, members, m, budget).cycle,
    decreases n - m,
{
    if m < n {
        lemma_walk_list_stops(doc, stack, done, members, m, (n - 1) as nat, budget);
    }
}

/// The problems of places whose referents are held stay put as more nodes
/// are resolved.
proof fn lemma_site_problems_memo<E: Env>(
    doc: ValueModel,
    env: &E,
    new: Seq<(Vec<Seg>, Value)>,
    old: Seq<(Vec<Seg>, Value)>,
    sites: Seq<(Seq<SegModel>, int)>,
)
    requires
        memo_extends(new, old),
        memo_unique(new),
        sites_held(doc, old, sites),
    ensures
        site_problems(doc, env, memo_lookup(new), sites) == site_problems(doc, env, memo_lookup(old), sites),
        sites_held(doc, new, sites),
    decreases sites.len(),
{
    assert forall|j: int|
        0 <= j < sites.len() && (#[trigger] site_piece(doc, sites[j])) is Some implies target_held(
            doc,
            new,
            site_piece(doc, sites[j])->Some_0,
        ) by {
        let piece = site_piece(doc, sites[j])->Some_0;
        assert(target_held(doc, old, piece));
        if let Some(q) = piece_target(doc, piece) {
            let x = choose|x: ValueModel| memo_holds(old, q, x);
            lemma_holds_extends(new, old, q, x);
        }
    }
    if sites.len() > 0 {
        let rest = sites.drop_last();
        assert forall|j: int|
            0 <= j < rest.len() && (#[trigger] site_piece(doc, rest[j])) is Some implies target_held(
                doc,
                old,
                site_piece(doc, rest[j])->Some_0,
            ) by {
            assert(rest[j] == sites[j]);
        }
        lemma_site_problems_memo(doc, env, new, old, rest);
        let (p, k) = sites.last();
        assert(sites[sites.len() - 1] == sites.last());
        if let Some(ValueModel::String(s)) = lookup_spec(doc, p) {
            if 0 <= k < scan_spec(s).len() {
                let piece = scan_spec(s)[k];
                assert(site_piece(doc, sites[sites.len() - 1]) == Some(piece));
                assert(target_held(doc, old, piece));
                if let PieceModel::Ref(body) = piece {
                    if env_ref(body) is None && parse_path(body) is Ok {
                        let t = parse_path(body)->Ok_0;
                        if lookup_spec(doc, t) is Some {
                            assert(piece_target(doc, piece) == Some(t));
                            lemma_lookup_stable(new, old, t);
                        }
                    }
                }
            }
        }
    }
}

/// The walk of what a piece names, if it names a node.
pub open spec fn piece_walk(doc: ValueModel, stack: Seq<Seq<SegModel>>, done: Set<Seq<SegModel>>, piece: PieceModel, budget: nat) -> Walk {
    match piece_target(doc, piece) {
        Some(q) => walk(doc, stack, done, q, budget),
        None => Walk { sites: Seq::empty(), done, cycle: None },
    }
}

/// A run from `old` to `new` took the walk `w` to its end, and reported the
/// problems of its places, then `extra`.
spec fn followed<E: Env>(doc: ValueModel, env: &E, w: Walk, old: State, new: State, extra: Seq<ProblemModel>) -> bool {
    &&& w.cycle is None
    &&& memo_paths(new.memo@) == w.done
    &&& sites_held(doc, new.memo@, w.sites)
    &&& problems_view(new.problems@) == problems_view(old.problems@) + site_problems(doc, env, memo_lookup(new.memo@), w.sites)
        + extra
}

/// `new` keeps every problem of `old`, in place.
spec fn problems_extend(new: Seq<Problem>, old: Seq<Problem>) -> bool {
    old.len() <= new.len() && forall|i: int| 0 <= i < old.len() ==> new[i] == #[trigger] old[i]
}

/// Every string resolved so far has had all its problems reported.
spec fn memo_reported<E: Env>(doc: ValueModel, env: &E, memo: Seq<(Vec<Seg>, Value)>, problems: Seq<Problem>) -> bool {
    forall|i: int|
        0 <= i < memo.len() ==> match lookup_spec(doc, segs_view((#[trigger] memo[i]).0@)) {
            Some(ValueModel::String(s)) => string_reported(doc, env, memo_lookup(memo), segs_view(memo[i].0@), s, problems),
            _ => true,
        }
}

proof fn lemma_piece_reported_grows<E: Env>(
    doc: ValueModel,
    env: &E,
    resolved: spec_fn(Seq<SegModel>) -> Option<ValueModel>,
    p: Seq<SegModel>,
    piece: PieceModel,
    whole: bool,
    new: Seq<Problem>,
    old: Seq<Problem>,
)
    requires
        problems_extend(new, old),
        piece_reported(doc, env, resolved, p, piece, whole, old),
    ensures
        piece_reported(doc, env, resolved, p, piece, whole, new),
{
    if let Some(q) = piece_problem(doc, env, resolved, p, piece, whole) {
        let j = choose|j: int| 0 <= j < old.len() && (#[trigger] old[j])@ == q;
        assert(new[j] == old[j]);
    }
}

proof fn lemma_string_reported_grows<E: Env>(
    doc: ValueModel,
    env: &E,
    resolved: spec_fn(Seq<SegModel>) -> Option<ValueModel>,
    p: Seq<SegModel>,
    s: Seq<char>,
    new: Seq<Problem>,
    old: Seq<Problem>,
)
    requires
        problems_extend(new, old),
        string_reported(doc, env, resolved, p, s, old),
    ensures
        string_reported(doc, env, resolved, p, s, new),
{
    let pieces = scan_spec(s);
    assert forall|k: int| 0 <= k < pieces.len() implies #[trigger] piece_reported(doc, env, resolved, p, pieces[k], whole_ref(pieces), new) by {
        assert(piece_reported(doc, env, resolved, p, pieces[k], whole_ref(pieces), old));
        lemma_piece_reported_grows(doc, env, resolved, p, pieces[k], whole_ref(pieces), new, old);
    }
}

/// Reporting more problems keeps the memo's strings reported.
proof fn lemma_memo_reported_grows<E: Env>(
    doc: ValueModel,
    env: &E,
    memo: Seq<(Vec<Seg>, Value)>,
    new: Seq<Problem>,
    old: Seq<Problem>,
)
    requires
        problems_extend(new, old),
        memo_reported(doc, env, memo, old),
    ensures
        memo_reported(doc, env, memo, new),
{
    assert forall|i: int| 0 <= i < memo.len() implies match lookup_spec(doc, segs_view((#[trigger] memo[i]).0@)) {
        Some(ValueModel::String(s)) => string_reported(doc, env, memo_lookup(memo), segs_view(memo[i].0@), s, new),
        _ => true,
    } by {
        if let Some(ValueModel::String(s)) = lookup_spec(doc, segs_view(memo[i].0@)) {
            lemma_string_reported_grows(doc, env, memo_lookup(memo), segs_view(memo[i].0@), s, new, old);
        }
    }
}

/// A piece whose referent, if it names one, is held keeps its verdict as
/// more nodes are resolved.
proof fn lemma_piece_reported_memo<E: Env>(
    doc: ValueModel,
    env: &E,
    new: Seq<(Vec<Seg>, Value)>,
    old: Seq<(Vec<Seg>, Value)>,
    p: Seq<SegModel>,
    piece: PieceModel,
    whole: bool,
    problems: Seq<Problem>,
)
    requires
        memo_extends(new, old),
        memo_unique(new),
        whole || target_held(doc, old, piece),
        piece_reported(doc, env, memo_lookup(old), p, piece, whole, problems),
    ensures
        piece_reported(doc, env, memo_lookup(new), p, piece, whole, problems),
{
    if let PieceModel::Ref(body) = piece {
        if env_ref(body) is None && !whole && parse_path(body) is Ok {
            let q = parse_path(body)->Ok_0;
            if lookup_spec(doc, q) is Some {
                assert(piece_target(doc, piece) == Some(q));
                lemma_lookup_stable(new, old, q);
            }
        }
    }
}

/// A string whose referents are held keeps its report as more nodes are
/// resolved.
proof fn lemma_string_reported_memo<E: Env>(
    doc: ValueModel,
    env: &E,
    new: Seq<(Vec<Seg>, Value)>,
    old: Seq<(Vec<Seg>, Value)>,
    p: Seq<SegModel>,
    s: Seq<char>,
    problems: Seq<Problem>,
)
    requires
        memo_extends(new, old),
        memo_unique(new),
        whole_ref(scan_spec(s)) || refs_held(doc, old, scan_spec(s)),
        string_reported(doc, env, memo_lookup(old), p, s, problems),
    ensures
        string_reported(doc, env, memo_lookup(new), p, s, problems),
{
    let pieces = scan_spec(s);
    assert forall|k: int| 0 <= k < pieces.len() implies #[trigger] piece_reported(
        doc,
        env,
        memo_lookup(new),
        p,
        pieces[k],
        whole_ref(pieces),
        problems,
    ) by {
        assert(piece_reported(doc, env, memo_lookup(old), p, pieces[k], whole_ref(pieces), problems));
        if !whole_ref(pieces) {
            assert(piece_target(doc, pieces[k]) is Some ==> exists|x: ValueModel|
                memo_holds(old, piece_target(doc, pieces[k])->Some_0, x));
        }
        lemma_piece_reported_memo(doc, env, new, old, p, pieces[k], whole_ref(pieces), problems);
    }
}

/// Resolving one more node keeps every resolved string reported, when the
/// new one's problems are.
proof fn lemma_memo_reported_push<E: Env>(
    doc: ValueModel,
    env: &E,
    new: Seq<(Vec<Seg>, Value)>,
    before: Seq<(Vec<Seg>, Value)>,
    sp: Seq<SegModel>,
    x: ValueModel,
    problems: Seq<Problem>,
)
    requires
        memo_extends(new, before),
        memo_unique(new),
        new.len() == before.len() + 1,
        segs_view(new[before.len() as int].0@) == sp,
        memo_coherent(doc, env, before),
        memo_reported(doc, env, before, problems),
        assembled(doc, env, before, sp, x),
        match lookup_spec(doc, sp) {
            Some(ValueModel::String(t)) => string_reported(doc, env, memo_lookup(before), sp, t, problems),
            _ => true,
        },
    ensures
        memo_reported(doc, env, new, problems),
{
    assert forall|i: int| 0 <= i < new.len() implies match lookup_spec(doc, segs_view((#[trigger] new[i]).0@)) {
        Some(ValueModel::String(s)) => string_reported(doc, env, memo_lookup(new), segs_view(new[i].0@), s, problems),
        _ => true,
    } by {
        let pi = segs_view(new[i].0@);
        if let Some(ValueModel::String(s)) = lookup_spec(doc, pi) {
            if i < before.len() {
                assert(new[i] == before[i]);
                assert(assembled(doc, env, before, segs_view(before[i].0@), before[i].1.model()));
                assert(match lookup_spec(doc, segs_view(before[i].0@)) {
                    Some(ValueModel::String(s)) => string_reported(doc, env, memo_lookup(before), segs_view(before[i].0@), s, problems),
                    _ => true,
                });
            }
            lemma_string_reported_memo(doc, env, new, before, pi, s, problems);
        }
    }
}

/// What the resolution `x` of a string `s` is when `s` is one whole-string
/// reference: the variable's typed value, or the memoized resolution of the
/// node it names.
spec fn string_assembled<E: Env>(doc: ValueModel, env: &E, memo: Seq<(Vec<Seg>, Value)>, s: Seq<char>, x: ValueModel) -> bool {
    let pieces = crate::scan::scan_spec(s);
    if pieces.len() == 1 && pieces[0] is Ref {
        let body = pieces[0]->Ref_0;
        match env_ref(body) {
            Some(name) => name.len() > 0 && env.var(name) is Some ==> x == env.var(name)->Some_0.1,
            None => parse_path(body) is Ok && lookup_spec(doc, parse_path(body)->Ok_0) is Some ==> memo_holds(
                memo,
                parse_path(body)->Ok_0,
                x,
            ),
        }
    } else if pieces.len() > 0 {
        &&& refs_held(doc, memo, pieces)
        &&& match pieces_text(doc, env, memo_lookup(memo), pieces) {
            Some(t) => x == ValueModel::String(t),
            None => true,
        }
    } else {
        true
    }
}

/// The text a resolved value splices into surrounding text, where it does
/// not take a float spelling: an infinity or a NaN by its TOML spelling,
/// any other scalar as [`stringify_spec`] has it. `None` for a container, a
/// null, and a finite float.
pub open spec fn splice_text(v: ValueModel) -> Option<Seq<char>> {
    match v {
        ValueModel::Number(Number::F64(bits)) => if v->Number_0.is_non_finite() {
            Some(crate::emit::nonfinite_spelling(bits))
        } else {
            None
        },
        _ => stringify_spec(v),
    }
}

/// The memoized resolution of `q`.
spec fn memo_value(memo: Seq<(Vec<Seg>, Value)>, q: Seq<SegModel>) -> ValueModel {
    choose|x: ValueModel| memo_holds(memo, q, x)
}

/// What one piece of an embedded string contributes, where it is known: a
/// literal its text, a set variable its raw text, and a reference to a node
/// the document has the splice text of that node's resolution, looked up by
/// `resolved`.
pub open spec fn piece_text<E: Env>(
    doc: ValueModel,
    env: &E,
    resolved: spec_fn(Seq<SegModel>) -> Option<ValueModel>,
    piece: crate::scan::PieceModel,
) -> Option<Seq<char>> {
    match piece {
        crate::scan::PieceModel::Literal(t) => Some(t),
        crate::scan::PieceModel::Ref(body) => match env_ref(body) {
            Some(name) => if name.len() > 0 && env.var(name) is Some {
                Some(env.var(name)->Some_0.0)
            } else {
                None
            },
            None => if parse_path(body) is Ok && lookup_spec(doc, parse_path(body)->Ok_0) is Some && resolved(
                parse_path(body)->Ok_0,
            ) is Some {
                splice_text(resolved(parse_path(body)->Ok_0)->Some_0)
            } else {
                None
            },
        },
        _ => None,
    }
}

/// The text of an embedded string, where every piece's is known.
pub open spec fn pieces_text<E: Env>(
    doc: ValueModel,
    env: &E,
    resolved: spec_fn(Seq<SegModel>) -> Option<ValueModel>,
    pieces: Seq<crate::scan::PieceModel>,
) -> Option<Seq<char>>
    decreases pieces.len(),
{
    if pieces.len() == 0 {
        Some(Seq::empty())
    } else {
        match (pieces_text(doc, env, resolved, pieces.drop_last()), piece_text(doc, env, resolved, pieces.last())) {
            (Some(a), Some(b)) => Some(a + b),
            _ => None,
        }
    }
}

/// The document node a reference names, when it is a document reference
/// that parses and names a node.
pub open spec fn piece_target(doc: ValueModel, piece: crate::scan::PieceModel) -> Option<Seq<SegModel>> {
    match piece {
        crate::scan::PieceModel::Ref(body) => if env_ref(body) is None && parse_path(body) is Ok && lookup_spec(
            doc,
            parse_path(body)->Ok_0,
        ) is Some {
            Some(parse_path(body)->Ok_0)
        } else {
            None
        },
        _ => None,
    }
}

/// The node a piece names, if it names one, has a memoized resolution.
spec fn target_held(doc: ValueModel, memo: Seq<(Vec<Seg>, Value)>, piece: crate::scan::PieceModel) -> bool {
    match piece_target(doc, piece) {
        Some(q) => exists|x: ValueModel| memo_holds(memo, q, x),
        None => true,
    }
}

proof fn lemma_target_held(
    doc: ValueModel,
    memo: Seq<(Vec<Seg>, Value)>,
    piece: crate::scan::PieceModel,
    q: Seq<SegModel>,
    x: ValueModel,
)
    requires
        piece_target(doc, piece) == Some(q),
        memo_holds(memo, q, x),
    ensures
        target_held(doc, memo, piece),
{
    assert(exists|y: ValueModel| memo_holds(memo, q, y));
    assert(piece_target(doc, piece)->Some_0 == q);
}

/// Every node the pieces name has a memoized resolution.
spec fn refs_held(doc: ValueModel, memo: Seq<(Vec<Seg>, Value)>, pieces: Seq<crate::scan::PieceModel>) -> bool {
    forall|k: int|
        0 <= k < pieces.len() && (#[trigger] piece_target(doc, pieces[k])) is Some ==> exists|x: ValueModel|
            memo_holds(memo, piece_target(doc, pieces[k])->Some_0, x)
}

/// Resolutions as the memo holds them.
spec fn memo_lookup(memo: Seq<(Vec<Seg>, Value)>) -> spec_fn(Seq<SegModel>) -> Option<ValueModel> {
    |q: Seq<SegModel>| if exists|x: ValueModel| memo_holds(memo, q, x) {
        Some(memo_value(memo, q))
    } else {
        None
    }
}

/// The memo records a resolution `x` for path `p`.
spec fn memo_holds(memo: Seq<(Vec<Seg>, Value)>, p: Seq<SegModel>, x: ValueModel) -> bool {
    exists|i: int| 0 <= i < memo.len() && segs_view((#[trigger] memo[i]).0@) == p && memo[i].1.model() == x
}

/// No path is memoized twice, and the root never is.
spec fn memo_unique(memo: Seq<(Vec<Seg>, Value)>) -> bool {
    &&& forall|i: int, j: int|
        0 <= i < j < memo.len() ==> segs_view((#[trigger] memo[i]).0@) != segs_view((#[trigger] memo[j]).0@)
    &&& forall|i: int| 0 <= i < memo.len() ==> segs_view((#[trigger] memo[i]).0@).len() > 0
}

/// `new` keeps every entry of `old`, in place.
spec fn memo_extends(new: Seq<(Vec<Seg>, Value)>, old: Seq<(Vec<Seg>, Value)>) -> bool {
    old.len() <= new.len() && forall|i: int| 0 <= i < old.len() ==> new[i] == #[trigger] old[i]
}

/// What a resolution `x` of the node at `p` is made of: a container's
/// members are the memoized resolutions of the members' paths, and a
/// whole-string reference to a node the document has is that node's
/// memoized resolution.
spec fn assembled<E: Env>(doc: ValueModel, env: &E, memo: Seq<(Vec<Seg>, Value)>, p: Seq<SegModel>, x: ValueModel) -> bool {
    match lookup_spec(doc, p) {
        Some(ValueModel::Object(e)) => x is Object && x->Object_0.len() == e.len() && forall|i: int|
            0 <= i < e.len() ==> memo_holds(memo, p.push(SegModel::Key(e[i].0)), (#[trigger] x->Object_0[i]).1),
        Some(ValueModel::Array(a)) => x is Array && x->Array_0.len() == a.len() && forall|i: int|
            0 <= i < a.len() ==> memo_holds(memo, p.push(SegModel::Index(i as usize)), #[trigger] x->Array_0[i]),
        Some(ValueModel::String(s)) => string_assembled(doc, env, memo, s, x),
        _ => true,
    }
}

/// Every memoized resolution is assembled from the memo.
spec fn memo_coherent<E: Env>(doc: ValueModel, env: &E, memo: Seq<(Vec<Seg>, Value)>) -> bool {
    forall|i: int| 0 <= i < memo.len() ==> assembled(doc, env, memo, segs_view((#[trigger] memo[i]).0@), memo[i].1.model())
}

/// No path being resolved has a memoized resolution yet.
spec fn memo_apart(memo: Seq<(Vec<Seg>, Value)>, visiting: Seq<Vec<Seg>>) -> bool {
    forall|i: int| 0 <= i < memo.len() ==> !visit_set(visiting).contains(segs_view((#[trigger] memo[i]).0@))
}

/// The memo invariants one resolution keeps.
/// The nodes being resolved, outermost first, each needing the next.
spec fn chain_ok(doc: ValueModel, visiting: Seq<Vec<Seg>>) -> bool {
    &&& forall|i: int, j: int|
        #![trigger visiting[i], visiting[j]]
        0 <= i && j == i + 1 && j < visiting.len() ==> depends(doc, segs_view(visiting[i]@), segs_view(visiting[j]@))
    &&& forall|i: int, j: int|
        #![trigger visiting[i], visiting[j]]
        0 <= i < j < visiting.len() ==> segs_view(visiting[i]@) != segs_view(visiting[j]@)
}

/// Every node resolved so far was resolved after everything it needs.
spec fn memo_ordered(doc: ValueModel, memo: Seq<(Vec<Seg>, Value)>) -> bool {
    forall|i: int, q: Seq<SegModel>|
        0 <= i < memo.len() && #[trigger] depends(doc, segs_view(memo[i].0@), q) ==> exists|j: int|
            0 <= j < i && segs_view((#[trigger] memo[j]).0@) == q
}

/// Every string resolved so far is clean.
spec fn memo_clean<E: Env>(doc: ValueModel, env: &E, memo: Seq<(Vec<Seg>, Value)>) -> bool {
    forall|i: int|
        0 <= i < memo.len() ==> match lookup_spec(doc, segs_view((#[trigger] memo[i]).0@)) {
            Some(ValueModel::String(s)) => string_clean(doc, env, memo_lookup(memo), s),
            _ => true,
        }
}

/// While nothing has been reported, every string resolved so far is clean.
spec fn quiet_clean<E: Env>(doc: ValueModel, env: &E, st: State) -> bool {
    st.problems@.len() == 0 ==> memo_clean(doc, env, st.memo@)
}

/// Resolving one more node keeps the memo clean when that node is.
proof fn lemma_memo_clean_push<E: Env>(
    doc: ValueModel,
    env: &E,
    new: Seq<(Vec<Seg>, Value)>,
    before: Seq<(Vec<Seg>, Value)>,
    sp: Seq<SegModel>,
)
    requires
        memo_extends(new, before),
        memo_unique(new),
        new.len() == before.len() + 1,
        segs_view(new[before.len() as int].0@) == sp,
        memo_clean(doc, env, before),
        match lookup_spec(doc, sp) {
            Some(ValueModel::String(t)) => string_clean(doc, env, memo_lookup(before), t),
            _ => true,
        },
    ensures
        memo_clean(doc, env, new),
{
    assert forall|i: int| 0 <= i < new.len() implies match lookup_spec(doc, segs_view((#[trigger] new[i]).0@)) {
        Some(ValueModel::String(s)) => string_clean(doc, env, memo_lookup(new), s),
        _ => true,
    } by {
        if i < before.len() {
            assert(new[i] == before[i]);
        }
        if let Some(ValueModel::String(s)) = lookup_spec(doc, segs_view(new[i].0@)) {
            if i < before.len() {
                assert(match lookup_spec(doc, segs_view(before[i].0@)) {
                    Some(ValueModel::String(s)) => string_clean(doc, env, memo_lookup(before), s),
                    _ => true,
                });
            }
            lemma_string_clean_extends(doc, env, new, before, s);
        }
    }
}

spec fn memo_good<E: Env>(doc: ValueModel, env: &E, st: State) -> bool {
    &&& memo_unique(st.memo@)
    &&& memo_coherent(doc, env, st.memo@)
    &&& memo_apart(st.memo@, st.visiting@)
    &&& quiet_clean(doc, env, st)
    &&& memo_ordered(doc, st.memo@)
    &&& memo_reported(doc, env, st.memo@, st.problems@)
    &&& memo_sourced(doc, env, st.memo@, st.problems@)
}

/// Only a node of the document needs anything, and what it needs is below
/// the root.
pub(crate) proof fn lemma_depends_nonroot(doc: ValueModel, p: Seq<SegModel>, q: Seq<SegModel>)
    requires
        depends(doc, p, q),
    ensures
        lookup_spec(doc, p) is Some,
        q.len() > 0,
{
    match lookup_spec(doc, p) {
        Some(ValueModel::String(s)) => {
            let k = choose|k: int| 0 <= k < scan_spec(s).len() && #[trigger] piece_target(doc, scan_spec(s)[k]) == Some(q);
            let body = scan_spec(s)[k]->Ref_0;
            lemma_parsed_is_plain(body);
        },
        _ => {},
    }
}

/// Along a dependency cycle, every node after the first was resolved
/// before the first.
proof fn lemma_cycle_indices(doc: ValueModel, memo: Seq<(Vec<Seg>, Value)>, c: Seq<Seq<SegModel>>, k: int)
    requires
        memo_ordered(doc, memo),
        dependency_cycle(doc, c),
        1 <= k < c.len(),
        forall|p: Seq<SegModel>|
            p.len() > 0 && (#[trigger] lookup_spec(doc, p)) is Some ==> exists|i: int|
                0 <= i < memo.len() && segs_view((#[trigger] memo[i]).0@) == p,
    ensures
        exists|i: int, i0: int|
            0 <= i < i0 < memo.len() && segs_view((#[trigger] memo[i]).0@) == c[k] && segs_view(
                (#[trigger] memo[i0]).0@,
            ) == c[0],
    decreases k,
{
    let last = c.len() - 2;
    assert(depends(doc, c[last], c[last + 1]));
    lemma_depends_nonroot(doc, c[last], c[last + 1]);
    let first: int = 0;
    assert(depends(doc, c[first], c[first + 1]));
    lemma_depends_nonroot(doc, c[0], c[1]);
    assert(lookup_spec(doc, c[0]) is Some);
    let i0 = choose|i: int| 0 <= i < memo.len() && segs_view((#[trigger] memo[i]).0@) == c[0];
    if k == 1 {
        assert(depends(doc, segs_view(memo[i0].0@), c[1]));
        let j = choose|j: int| 0 <= j < i0 && segs_view((#[trigger] memo[j]).0@) == c[1];
    } else {
        lemma_cycle_indices(doc, memo, c, k - 1);
        let (i, i1) = choose|i: int, i1: int|
            0 <= i < i1 < memo.len() && segs_view((#[trigger] memo[i]).0@) == c[k - 1] && segs_view(
                (#[trigger] memo[i1]).0@,
            ) == c[0];
        let m = k - 1;
        assert(depends(doc, c[m], c[m + 1]));
        assert(depends(doc, segs_view(memo[i].0@), c[k]));
        let j = choose|j: int| 0 <= j < i && segs_view((#[trigger] memo[j]).0@) == c[k];
    }
}

/// With every node of the document resolved in order, there is no
/// dependency cycle.
proof fn lemma_no_cycle(doc: ValueModel, memo: Seq<(Vec<Seg>, Value)>, c: Seq<Seq<SegModel>>)
    requires
        memo_ordered(doc, memo),
        memo_unique(memo),
        forall|p: Seq<SegModel>|
            p.len() > 0 && (#[trigger] lookup_spec(doc, p)) is Some ==> exists|i: int|
                0 <= i < memo.len() && segs_view((#[trigger] memo[i]).0@) == p,
    ensures
        !dependency_cycle(doc, c),
{
    if dependency_cycle(doc, c) {
        lemma_cycle_indices(doc, memo, c, c.len() - 1);
        let (i, i0) = choose|i: int, i0: int|
            0 <= i < i0 < memo.len() && segs_view((#[trigger] memo[i]).0@) == c[c.len() - 1] && segs_view(
                (#[trigger] memo[i0]).0@,
            ) == c[0];
        assert(segs_view(memo[i].0@) != segs_view(memo[i0].0@));
    }
}

/// A string needs the node each of its references names.
pub(crate) proof fn lemma_site_depends(doc: ValueModel, path: Seq<SegModel>, body: Seq<char>, q: Seq<SegModel>)
    requires
        site(doc, path, body),
        env_ref(body) is None,
        parse_path(body) is Ok,
        parse_path(body)->Ok_0 == q,
        lookup_spec(doc, q) is Some,
    ensures
        depends(doc, path, q),
{
    let s = lookup_spec(doc, path)->Some_0->String_0;
    let k = choose|k: int| 0 <= k < scan_spec(s).len() && scan_spec(s)[k] == PieceModel::Ref(body);
    assert(piece_target(doc, scan_spec(s)[k]) == Some(q));
}

/// What a node needs is resolved once the node's value is assembled.
proof fn lemma_assembled_deps<E: Env>(doc: ValueModel, env: &E, memo: Seq<(Vec<Seg>, Value)>, p: Seq<SegModel>, x: ValueModel, q: Seq<SegModel>)
    requires
        assembled(doc, env, memo, p, x),
        depends(doc, p, q),
    ensures
        exists|j: int| 0 <= j < memo.len() && segs_view((#[trigger] memo[j]).0@) == q,
{
    match lookup_spec(doc, p) {
        Some(ValueModel::Object(e)) => {
            let k = choose|k: int| 0 <= k < e.len() && q == p.push(SegModel::Key(e[k].0));
            assert(memo_holds(memo, p.push(SegModel::Key(e[k].0)), x->Object_0[k].1));
        },
        Some(ValueModel::Array(a)) => {
            let k = choose|k: usize| k < a.len() && q == p.push(SegModel::Index(k));
            assert(memo_holds(memo, p.push(SegModel::Index(k as int as usize)), x->Array_0[k as int]));
        },
        Some(ValueModel::String(s)) => {
            let pieces = scan_spec(s);
            let k = choose|k: int| 0 <= k < pieces.len() && piece_target(doc, pieces[k]) == Some(q);
            if pieces.len() == 1 && pieces[0] is Ref {
                assert(k == 0);
                assert(memo_holds(memo, q, x));
            } else {
                assert(refs_held(doc, memo, pieces));
                assert(piece_target(doc, pieces[k]) is Some);
            }
        },
        _ => {},
    }
}

/// Resolving one more node, after everything it needs, keeps the order.
proof fn lemma_memo_ordered_push<E: Env>(
    doc: ValueModel,
    env: &E,
    new: Seq<(Vec<Seg>, Value)>,
    before: Seq<(Vec<Seg>, Value)>,
    sp: Seq<SegModel>,
    x: ValueModel,
)
    requires
        memo_extends(new, before),
        new.len() == before.len() + 1,
        segs_view(new[before.len() as int].0@) == sp,
        memo_ordered(doc, before),
        assembled(doc, env, before, sp, x),
    ensures
        memo_ordered(doc, new),
{
    assert forall|i: int, q: Seq<SegModel>|
        0 <= i < new.len() && #[trigger] depends(doc, segs_view(new[i].0@), q) implies exists|j: int|
            0 <= j < i && segs_view((#[trigger] new[j]).0@) == q by {
        if i < before.len() {
            assert(new[i] == before[i]);
            assert(depends(doc, segs_view(before[i].0@), q));
            let j = choose|j: int| 0 <= j < i && segs_view(before[j].0@) == q;
            assert(new[j] == before[j]);
        } else {
            lemma_assembled_deps(doc, env, before, sp, x, q);
            let j = choose|j: int| 0 <= j < before.len() && segs_view(before[j].0@) == q;
            assert(new[j] == before[j]);
        }
    }
}

/// A clean piece stays clean as more nodes are resolved.
proof fn lemma_piece_clean_extends<E: Env>(
    doc: ValueModel,
    env: &E,
    new: Seq<(Vec<Seg>, Value)>,
    old: Seq<(Vec<Seg>, Value)>,
    piece: PieceModel,
    whole: bool,
)
    requires
        memo_extends(new, old),
        memo_unique(new),
        piece_clean(doc, env, memo_lookup(old), piece, whole),
    ensures
        piece_clean(doc, env, memo_lookup(new), piece, whole),
{
    if let PieceModel::Ref(body) = piece {
        if env_ref(body) is None && !whole {
            let q = parse_path(body)->Ok_0;
            assert(memo_lookup(old)(q) is Some);
            assert(exists|x: ValueModel| memo_holds(old, q, x));
            lemma_lookup_stable(new, old, q);
        }
    }
}

/// A clean string stays clean as more nodes are resolved.
proof fn lemma_string_clean_extends<E: Env>(
    doc: ValueModel,
    env: &E,
    new: Seq<(Vec<Seg>, Value)>,
    old: Seq<(Vec<Seg>, Value)>,
    s: Seq<char>,
)
    requires
        memo_extends(new, old),
        memo_unique(new),
        string_clean(doc, env, memo_lookup(old), s),
    ensures
        string_clean(doc, env, memo_lookup(new), s),
{
    let pieces = scan_spec(s);
    assert forall|k: int| 0 <= k < pieces.len() implies #[trigger] piece_clean(doc, env, memo_lookup(new), pieces[k], whole_ref(pieces)) by {
        assert(piece_clean(doc, env, memo_lookup(old), pieces[k], whole_ref(pieces)));
        lemma_piece_clean_extends(doc, env, new, old, pieces[k], whole_ref(pieces));
    }
}

proof fn lemma_extends_trans(a: Seq<(Vec<Seg>, Value)>, b: Seq<(Vec<Seg>, Value)>, c: Seq<(Vec<Seg>, Value)>)
    requires
        memo_extends(a, b),
        memo_extends(b, c),
    ensures
        memo_extends(a, c),
{
    assert forall|i: int| 0 <= i < c.len() implies a[i] == #[trigger] c[i] by {
        assert(a[i] == b[i]);
    }
}

proof fn lemma_holds_extends(new: Seq<(Vec<Seg>, Value)>, old: Seq<(Vec<Seg>, Value)>, p: Seq<SegModel>, x: ValueModel)
    requires
        memo_extends(new, old),
        memo_holds(old, p, x),
    ensures
        memo_holds(new, p, x),
{
    let i = choose|i: int| 0 <= i < old.len() && segs_view((#[trigger] old[i]).0@) == p && old[i].1.model() == x;
    assert(new[i] == old[i]);
}

proof fn lemma_lookup_stable(new: Seq<(Vec<Seg>, Value)>, old: Seq<(Vec<Seg>, Value)>, q: Seq<SegModel>)
    requires
        memo_extends(new, old),
        memo_unique(new),
        exists|x: ValueModel| memo_holds(old, q, x),
    ensures
        memo_lookup(new)(q) == memo_lookup(old)(q),
        memo_lookup(old)(q) is Some,
        memo_holds(new, q, memo_lookup(old)(q)->Some_0),
{
    let x = choose|x: ValueModel| memo_holds(old, q, x);
    let i = choose|i: int| 0 <= i < old.len() && segs_view((#[trigger] old[i]).0@) == q && old[i].1.model() == x;
    assert(new[i] == old[i]);
    assert(memo_holds(new, q, x));
    let y = memo_value(old, q);
    assert(memo_holds(old, q, y));
    let j = choose|j: int| 0 <= j < old.len() && segs_view((#[trigger] old[j]).0@) == q && old[j].1.model() == y;
    assert(new[j] == old[j]);
    let z = memo_value(new, q);
    assert(memo_holds(new, q, z));
    let k = choose|k: int| 0 <= k < new.len() && segs_view((#[trigger] new[k]).0@) == q && new[k].1.model() == z;
    if k != j {
        if k < j {
            assert(segs_view(new[k].0@) != segs_view(new[j].0@));
        } else {
            assert(segs_view(new[j].0@) != segs_view(new[k].0@));
        }
    }
}

proof fn lemma_refs_held_push(
    doc: ValueModel,
    memo: Seq<(Vec<Seg>, Value)>,
    prefix: Seq<crate::scan::PieceModel>,
    piece: crate::scan::PieceModel,
)
    requires
        refs_held(doc, memo, prefix),
        target_held(doc, memo, piece),
    ensures
        refs_held(doc, memo, prefix.push(piece)),
{
    let all = prefix.push(piece);
    assert forall|k: int| 0 <= k < all.len() && (#[trigger] piece_target(doc, all[k])) is Some implies exists|
        x: ValueModel,
    | memo_holds(memo, piece_target(doc, all[k])->Some_0, x) by {
        if k < prefix.len() {
            assert(all[k] == prefix[k]);
        }
    }
}

proof fn lemma_holds_unique(memo: Seq<(Vec<Seg>, Value)>, q: Seq<SegModel>, x: ValueModel, y: ValueModel)
    requires
        memo_unique(memo),
        memo_holds(memo, q, x),
        memo_holds(memo, q, y),
    ensures
        x == y,
{
    let i = choose|i: int| 0 <= i < memo.len() && segs_view((#[trigger] memo[i]).0@) == q && memo[i].1.model() == x;
    let j = choose|j: int| 0 <= j < memo.len() && segs_view((#[trigger] memo[j]).0@) == q && memo[j].1.model() == y;
    if i < j {
        assert(segs_view(memo[i].0@) != segs_view(memo[j].0@));
    } else if j < i {
        assert(segs_view(memo[j].0@) != segs_view(memo[i].0@));
    }
}

proof fn lemma_pieces_text_extends<E: Env>(
    doc: ValueModel,
    env: &E,
    new: Seq<(Vec<Seg>, Value)>,
    old: Seq<(Vec<Seg>, Value)>,
    pieces: Seq<crate::scan::PieceModel>,
)
    requires
        memo_extends(new, old),
        memo_unique(new),
        refs_held(doc, old, pieces),
    ensures
        pieces_text(doc, env, memo_lookup(new), pieces) == pieces_text(doc, env, memo_lookup(old), pieces),
        refs_held(doc, new, pieces),
    decreases pieces.len(),
{
    assert forall|k: int|
        0 <= k < pieces.len() && (#[trigger] piece_target(doc, pieces[k])) is Some implies exists|x: ValueModel|
            memo_holds(new, piece_target(doc, pieces[k])->Some_0, x) by {
        lemma_lookup_stable(new, old, piece_target(doc, pieces[k])->Some_0);
    }
    if pieces.len() > 0 {
        let init = pieces.drop_last();
        assert forall|k: int|
            0 <= k < init.len() && (#[trigger] piece_target(doc, init[k])) is Some implies exists|x: ValueModel|
                memo_holds(old, piece_target(doc, init[k])->Some_0, x) by {
            assert(init[k] == pieces[k]);
        }
        lemma_pieces_text_extends(doc, env, new, old, init);
        let last = pieces.last();
        assert(last == pieces[pieces.len() - 1]);
        if let crate::scan::PieceModel::Ref(body) = last {
            if env_ref(body) is None && parse_path(body) is Ok && lookup_spec(doc, parse_path(body)->Ok_0) is Some {
                assert(piece_target(doc, pieces[pieces.len() - 1]) is Some);
                lemma_lookup_stable(new, old, parse_path(body)->Ok_0);
            }
        }
    }
}

proof fn lemma_assembled_extends<E: Env>(
    doc: ValueModel,
    env: &E,
    new: Seq<(Vec<Seg>, Value)>,
    old: Seq<(Vec<Seg>, Value)>,
    p: Seq<SegModel>,
    x: ValueModel,
)
    requires
        memo_extends(new, old),
        memo_unique(new),
        assembled(doc, env, old, p, x),
    ensures
        assembled(doc, env, new, p, x),
{
    match lookup_spec(doc, p) {
        Some(ValueModel::Object(e)) => {
            assert forall|i: int| 0 <= i < e.len() implies memo_holds(
                new,
                p.push(SegModel::Key(e[i].0)),
                (#[trigger] x->Object_0[i]).1,
            ) by {
                lemma_holds_extends(new, old, p.push(SegModel::Key(e[i].0)), x->Object_0[i].1);
            }
        },
        Some(ValueModel::Array(a)) => {
            assert forall|i: int| 0 <= i < a.len() implies memo_holds(
                new,
                p.push(SegModel::Index(i as usize)),
                #[trigger] x->Array_0[i],
            ) by {
                lemma_holds_extends(new, old, p.push(SegModel::Index(i as usize)), x->Array_0[i]);
            }
        },
        Some(ValueModel::String(s)) => {
            let pieces = crate::scan::scan_spec(s);
            if pieces.len() == 1 && pieces[0] is Ref {
                let body = pieces[0]->Ref_0;
                if env_ref(body) is None && parse_path(body) is Ok && lookup_spec(doc, parse_path(body)->Ok_0) is Some {
                    lemma_holds_extends(new, old, parse_path(body)->Ok_0, x);
                }
            } else if pieces.len() > 0 {
                lemma_pieces_text_extends(doc, env, new, old, pieces);
            }
        },
        _ => {},
    }
}

/// Every string of the document (the document itself included, when it is
/// one) resolved as its references say: a
/// whole-string reference took its referent's value and type (what the node
/// it names resolved to, or a set variable's typed value), and a string with
/// references embedded in text is that text with each reference replaced by
/// the splice text of its referent (a set variable's raw text) — wherever
/// every piece's text is known.
pub open spec fn references_resolved<E: Env>(doc: ValueModel, env: &E, out: ValueModel) -> bool {
    forall|p: Seq<SegModel>| #[trigger] references_resolved_at(doc, env, out, p)
}

/// [`references_resolved`] at one path.
pub open spec fn references_resolved_at<E: Env>(doc: ValueModel, env: &E, out: ValueModel, p: Seq<SegModel>) -> bool {
    match lookup_spec(doc, p) {
        Some(ValueModel::String(s)) => {
            let pieces = crate::scan::scan_spec(s);
            if pieces.len() == 1 && pieces[0] is Ref {
                let body = pieces[0]->Ref_0;
                match env_ref(body) {
                    Some(name) => name.len() > 0 && env.var(name) is Some ==> lookup_spec(out, p) == Some(
                        env.var(name)->Some_0.1,
                    ),
                    None => parse_path(body) is Ok && lookup_spec(doc, parse_path(body)->Ok_0) is Some ==> lookup_spec(
                        out,
                        p,
                    ) == lookup_spec(out, parse_path(body)->Ok_0),
                }
            } else if pieces.len() > 0 {
                match pieces_text(doc, env, node_of(out), pieces) {
                    Some(t) => lookup_spec(out, p) == Some(ValueModel::String(t)),
                    None => true,
                }
            } else {
                true
            }
        },
        _ => true,
    }
}

/// The node at each path of `v`.
pub open spec fn node_of(v: ValueModel) -> spec_fn(Seq<SegModel>) -> Option<ValueModel> {
    |q: Seq<SegModel>| lookup_spec(v, q)
}

pub(crate) proof fn lemma_key_index_same_keys(e: Seq<(Seq<char>, ValueModel)>, f: Seq<(Seq<char>, ValueModel)>, k: Seq<char>)
    requires
        e.len() == f.len(),
        forall|i: int| 0 <= i < e.len() ==> f[i].0 == (#[trigger] e[i]).0,
    ensures
        key_index(e, k) == key_index(f, k),
    decreases e.len(),
{
    if e.len() > 0 {
        assert(f[0].0 == e[0].0);
        assert forall|i: int| 0 <= i < e.drop_first().len() implies f.drop_first()[i].0 == (
        #[trigger] e.drop_first()[i]).0 by {
            assert(f[i + 1].0 == e[i + 1].0);
        }
        lemma_key_index_same_keys(e.drop_first(), f.drop_first(), k);
    }
}

/// Below the root, the output of a pass holds at every path of the document
/// exactly the memoized resolution of that path.
proof fn lemma_output_is_memo<E: Env>(doc: ValueModel, env: &E, memo: Seq<(Vec<Seg>, Value)>, v: ValueModel, p: Seq<SegModel>)
    requires
        memo_unique(memo),
        memo_coherent(doc, env, memo),
        memo_ok(doc, memo),
        assembled(doc, env, memo, Seq::empty(), v),
        preserved(doc, v),
        p.len() > 0,
        lookup_spec(doc, p) is Some,
    ensures
        exists|x: ValueModel| memo_holds(memo, p, x) && lookup_spec(v, p) == Some(x),
    decreases p.len(),
{
    let parent = p.drop_last();
    let step = p.last();
    assert(parent.push(step) =~= p);
    lemma_lookup_push(doc, parent, step);
    lemma_lookup_push(v, parent, step);
    let w = lookup_spec(doc, parent)->Some_0;
    // The parent's resolution, and that it is assembled and preserved.
    let y: ValueModel = if parent.len() == 0 {
        v
    } else {
        lemma_output_is_memo(doc, env, memo, v, parent);
        choose|x: ValueModel| memo_holds(memo, parent, x) && lookup_spec(v, parent) == Some(x)
    };
    if parent.len() == 0 {
        assert(parent =~= Seq::<SegModel>::empty());
        assert(lookup_spec(doc, parent) == Some(doc));
        assert(lookup_spec(v, parent) == Some(v));
    } else {
        let i = choose|i: int| 0 <= i < memo.len() && segs_view((#[trigger] memo[i]).0@) == parent && memo[i].1.model() == y;
        assert(assembled(doc, env, memo, parent, y));
        assert(preserved(w, y));
    }
    assert(assembled(doc, env, memo, parent, y));
    assert(preserved(w, y));
    assert(lookup_spec(v, parent) == Some(y));
    match (step, w) {
        (SegModel::Key(k), ValueModel::Object(e)) => {
            let at = key_index(e, k);
            crate::value::lemma_key_index(e, k);
            let f = y->Object_0;
            lemma_key_index_same_keys(e, f, k);
            assert(memo_holds(memo, parent.push(SegModel::Key(e[at].0)), f[at].1));
            assert(lookup_spec(f[at].1, seq![step].drop_first()) == Some(f[at].1)) by {
                assert(seq![step].drop_first() =~= Seq::<SegModel>::empty());
            }
        },
        (SegModel::Index(n), ValueModel::Array(a)) => {
            let b = y->Array_0;
            assert(memo_holds(memo, parent.push(SegModel::Index(n as int as usize)), b[n as int]));
            assert(lookup_spec(b[n as int], seq![step].drop_first()) == Some(b[n as int])) by {
                assert(seq![step].drop_first() =~= Seq::<SegModel>::empty());
            }
        },
        _ => {},
    }
}

proof fn lemma_pieces_text_output<E: Env>(
    doc: ValueModel,
    env: &E,
    memo: Seq<(Vec<Seg>, Value)>,
    v: ValueModel,
    pieces: Seq<crate::scan::PieceModel>,
)
    requires
        memo_unique(memo),
        memo_coherent(doc, env, memo),
        memo_ok(doc, memo),
        assembled(doc, env, memo, Seq::empty(), v),
        preserved(doc, v),
    ensures
        pieces_text(doc, env, node_of(v), pieces) == pieces_text(doc, env, memo_lookup(memo), pieces),
    decreases pieces.len(),
{
    if pieces.len() > 0 {
        lemma_pieces_text_output(doc, env, memo, v, pieces.drop_last());
        if let crate::scan::PieceModel::Ref(body) = pieces.last() {
            if env_ref(body) is None && parse_path(body) is Ok && lookup_spec(doc, parse_path(body)->Ok_0) is Some {
                let q = parse_path(body)->Ok_0;
                lemma_output_is_memo(doc, env, memo, v, q);
                let x = choose|x: ValueModel| memo_holds(memo, q, x) && lookup_spec(v, q) == Some(x);
                assert(node_of(v)(q) == Some(x));
                lemma_lookup_stable(memo, memo, q);
                lemma_holds_unique(memo, q, x, memo_lookup(memo)(q)->Some_0);
                assert(memo_lookup(memo)(q) == Some(x));
            }
        }
    }
}

/// The memo's view of a clean string carries over to the output's.
proof fn lemma_clean_output<E: Env>(doc: ValueModel, env: &E, memo: Seq<(Vec<Seg>, Value)>, v: ValueModel, s: Seq<char>)
    requires
        memo_unique(memo),
        memo_coherent(doc, env, memo),
        memo_ok(doc, memo),
        assembled(doc, env, memo, Seq::empty(), v),
        preserved(doc, v),
        string_clean(doc, env, memo_lookup(memo), s),
    ensures
        string_clean(doc, env, node_of(v), s),
{
    let pieces = scan_spec(s);
    assert forall|k: int| 0 <= k < pieces.len() implies #[trigger] piece_clean(doc, env, node_of(v), pieces[k], whole_ref(pieces)) by {
        assert(piece_clean(doc, env, memo_lookup(memo), pieces[k], whole_ref(pieces)));
        if let PieceModel::Ref(body) = pieces[k] {
            if env_ref(body) is None && !whole_ref(pieces) {
                let q = parse_path(body)->Ok_0;
                if q.len() > 0 {
                    lemma_output_is_memo(doc, env, memo, v, q);
                    let x = choose|x: ValueModel| memo_holds(memo, q, x) && lookup_spec(v, q) == Some(x);
                    lemma_lookup_stable(memo, memo, q);
                    lemma_holds_unique(memo, q, x, memo_lookup(memo)(q)->Some_0);
                }
            }
        }
    }
}

/// What a string's report says with referents looked up in the memo, it
/// says with them looked up in the output.
proof fn lemma_reported_output<E: Env>(
    doc: ValueModel,
    env: &E,
    memo: Seq<(Vec<Seg>, Value)>,
    v: ValueModel,
    p: Seq<SegModel>,
    s: Seq<char>,
    problems: Seq<Problem>,
)
    requires
        memo_unique(memo),
        memo_coherent(doc, env, memo),
        memo_ok(doc, memo),
        assembled(doc, env, memo, Seq::empty(), v),
        preserved(doc, v),
        string_reported(doc, env, memo_lookup(memo), p, s, problems),
    ensures
        string_reported(doc, env, node_of(v), p, s, problems),
{
    let pieces = scan_spec(s);
    assert forall|k: int| 0 <= k < pieces.len() implies #[trigger] piece_reported(
        doc,
        env,
        node_of(v),
        p,
        pieces[k],
        whole_ref(pieces),
        problems,
    ) by {
        assert(piece_reported(doc, env, memo_lookup(memo), p, pieces[k], whole_ref(pieces), problems));
        if let PieceModel::Ref(body) = pieces[k] {
            if env_ref(body) is None && parse_path(body) is Ok {
                let q = parse_path(body)->Ok_0;
                lemma_parsed_is_plain(body);
                if lookup_spec(doc, q) is Some {
                    lemma_output_is_memo(doc, env, memo, v, q);
                    let x = choose|x: ValueModel| memo_holds(memo, q, x) && lookup_spec(v, q) == Some(x);
                    lemma_lookup_stable(memo, memo, q);
                    lemma_holds_unique(memo, q, x, memo_lookup(memo)(q)->Some_0);
                    assert(node_of(v)(q) == memo_lookup(memo)(q));
                }
            }
        }
    }
}

/// A problem from a piece by the memo's resolutions is one by the output's.
proof fn lemma_from_piece_output<E: Env>(
    doc: ValueModel,
    env: &E,
    memo: Seq<(Vec<Seg>, Value)>,
    v: ValueModel,
    q: ProblemModel,
)
    requires
        memo_unique(memo),
        memo_coherent(doc, env, memo),
        memo_ok(doc, memo),
        assembled(doc, env, memo, Seq::empty(), v),
        preserved(doc, v),
        from_a_piece(doc, env, memo_lookup(memo), q),
    ensures
        from_a_piece(doc, env, node_of(v), q),
{
    let s = lookup_spec(doc, q.path())->Some_0->String_0;
    let pieces = scan_spec(s);
    let k = choose|k: int|
        0 <= k < pieces.len() && #[trigger] piece_problem(doc, env, memo_lookup(memo), q.path(), pieces[k], whole_ref(pieces)) == Some(q);
    if let PieceModel::Ref(body) = pieces[k] {
        if env_ref(body) is None && parse_path(body) is Ok {
            let t = parse_path(body)->Ok_0;
            lemma_parsed_is_plain(body);
            if lookup_spec(doc, t) is Some {
                lemma_output_is_memo(doc, env, memo, v, t);
                let x = choose|x: ValueModel| memo_holds(memo, t, x) && lookup_spec(v, t) == Some(x);
                lemma_lookup_stable(memo, memo, t);
                lemma_holds_unique(memo, t, x, memo_lookup(memo)(t)->Some_0);
                assert(node_of(v)(t) == memo_lookup(memo)(t));
            }
        }
    }
    assert(piece_problem(doc, env, node_of(v), q.path(), pieces[k], whole_ref(pieces)) == Some(q));
}

/// The places' problems by the memo's resolutions are those by the output's.
proof fn lemma_site_problems_output<E: Env>(
    doc: ValueModel,
    env: &E,
    memo: Seq<(Vec<Seg>, Value)>,
    v: ValueModel,
    sites: Seq<(Seq<SegModel>, int)>,
)
    requires
        memo_unique(memo),
        memo_coherent(doc, env, memo),
        memo_ok(doc, memo),
        assembled(doc, env, memo, Seq::empty(), v),
        preserved(doc, v),
        sites_held(doc, memo, sites),
    ensures
        site_problems(doc, env, node_of(v), sites) == site_problems(doc, env, memo_lookup(memo), sites),
    decreases sites.len(),
{
    if sites.len() > 0 {
        let rest = sites.drop_last();
        assert forall|j: int|
            0 <= j < rest.len() && (#[trigger] site_piece(doc, rest[j])) is Some implies target_held(
                doc,
                memo,
                site_piece(doc, rest[j])->Some_0,
            ) by {
            assert(rest[j] == sites[j]);
        }
        lemma_site_problems_output(doc, env, memo, v, rest);
        let (p, k) = sites.last();
        assert(sites[sites.len() - 1] == sites.last());
        if let Some(ValueModel::String(s)) = lookup_spec(doc, p) {
            if 0 <= k < scan_spec(s).len() {
                let piece = scan_spec(s)[k];
                assert(site_piece(doc, sites[sites.len() - 1]) == Some(piece));
                if let PieceModel::Ref(body) = piece {
                    if env_ref(body) is None && parse_path(body) is Ok {
                        let t = parse_path(body)->Ok_0;
                        lemma_parsed_is_plain(body);
                        if lookup_spec(doc, t) is Some {
                            assert(piece_target(doc, piece) == Some(t));
                            lemma_output_is_memo(doc, env, memo, v, t);
                            let x = choose|x: ValueModel| memo_holds(memo, t, x) && lookup_spec(v, t) == Some(x);
                            lemma_lookup_stable(memo, memo, t);
                            lemma_holds_unique(memo, t, x, memo_lookup(memo)(t)->Some_0);
                            assert(node_of(v)(t) == memo_lookup(memo)(t));
                        }
                    }
                }
                assert(site_problem(doc, env, node_of(v), (p, k)) == site_problem(doc, env, memo_lookup(memo), (p, k)));
            }
        }
    }
}

/// The document itself, when it is a string, resolved as its references
/// say: what it was assembled from is what the output holds.
proof fn lemma_root_resolved<E: Env>(doc: ValueModel, env: &E, memo: Seq<(Vec<Seg>, Value)>, v: ValueModel)
    requires
        memo_unique(memo),
        memo_coherent(doc, env, memo),
        memo_ok(doc, memo),
        assembled(doc, env, memo, Seq::empty(), v),
        preserved(doc, v),
    ensures
        references_resolved_at(doc, env, v, Seq::empty()),
{
    let p = Seq::<SegModel>::empty();
    assert(lookup_spec(doc, p) == Some(doc));
    assert(lookup_spec(v, p) == Some(v));
    if let ValueModel::String(s) = doc {
        let pieces = scan_spec(s);
        if !(pieces.len() == 1 && pieces[0] is Ref) && pieces.len() > 0 {
            lemma_pieces_text_output(doc, env, memo, v, pieces);
        }
        if pieces.len() == 1 && pieces[0] is Ref {
            let body = pieces[0]->Ref_0;
            if env_ref(body) is None && parse_path(body) is Ok {
                let q = parse_path(body)->Ok_0;
                lemma_parsed_is_plain(body);
                if lookup_spec(doc, q) is Some {
                    assert(memo_holds(memo, q, v));
                    lemma_output_is_memo(doc, env, memo, v, q);
                    let xq = choose|x: ValueModel| memo_holds(memo, q, x) && lookup_spec(v, q) == Some(x);
                    lemma_holds_unique(memo, q, v, xq);
                }
            }
        }
    }
}

/// No string anywhere in `v` holds a `$`: there is nothing to resolve.
pub open spec fn no_dollar(v: ValueModel) -> bool
    decreases v,
{
    match v {
        ValueModel::String(s) => !s.contains('$'),
        ValueModel::Array(a) => forall|i: int| 0 <= i < a.len() ==> no_dollar(#[trigger] a[i]),
        ValueModel::Object(e) => forall|i: int| 0 <= i < e.len() ==> no_dollar((#[trigger] e[i]).1),
        _ => true,
    }
}

/// A node of a document without `$` has none either.
proof fn lemma_no_dollar_lookup(v: ValueModel, p: Seq<SegModel>)
    requires
        no_dollar(v),
        lookup_spec(v, p) is Some,
    ensures
        no_dollar(lookup_spec(v, p)->Some_0),
    decreases p.len(),
{
    if p.len() > 0 {
        match (p[0], v) {
            (SegModel::Key(k), ValueModel::Object(e)) => {
                let at = key_index(e, k);
                crate::value::lemma_key_index(e, k);
                assert(no_dollar(e[at].1));
                lemma_no_dollar_lookup(e[at].1, p.drop_first());
            },
            (SegModel::Index(n), ValueModel::Array(a)) => {
                assert(no_dollar(a[n as int]));
                lemma_no_dollar_lookup(a[n as int], p.drop_first());
            },
            _ => {},
        }
    }
}

/// What resolution preserves of a document without `$` is all of it.
proof fn lemma_preserved_no_dollar(raw: ValueModel, out: ValueModel)
    requires
        preserved(raw, out),
        no_dollar(raw),
    ensures
        out == raw,
    decreases raw,
{
    match raw {
        ValueModel::Array(a) => {
            let b = out->Array_0;
            assert forall|i: int| 0 <= i < a.len() implies b[i] == a[i] by {
                assert(decreases_to!(raw => a[i]));
                lemma_preserved_no_dollar(a[i], b[i]);
            }
            assert(b =~= a);
        },
        ValueModel::Object(e) => {
            let f = out->Object_0;
            assert forall|i: int| 0 <= i < e.len() implies f[i] == e[i] by {
                assert(decreases_to!(raw => e[i].1));
                lemma_preserved_no_dollar(e[i].1, f[i].1);
            }
            assert(f =~= e);
        },
        _ => {},
    }
}

/// Every path being resolved is a prefix of `p`, strictly when `strict`.
spec fn visiting_above(visiting: Seq<Vec<Seg>>, p: Seq<SegModel>, strict: bool) -> bool {
    forall|i: int|
        0 <= i < visiting.len() ==> {
            let a = segs_view((#[trigger] visiting[i])@);
            &&& a.len() <= p.len()
            &&& strict ==> a.len() < p.len()
            &&& p.take(a.len() as int) == a
        }
}

proof fn lemma_visiting_above_child(visiting: Seq<Vec<Seg>>, p: Seq<SegModel>, step: SegModel)
    requires
        visiting_above(visiting, p, false),
    ensures
        visiting_above(visiting, p.push(step), true),
{
    assert forall|i: int| 0 <= i < visiting.len() implies {
        let a = segs_view((#[trigger] visiting[i])@);
        &&& a.len() <= p.push(step).len()
        &&& true ==> a.len() < p.push(step).len()
        &&& p.push(step).take(a.len() as int) == a
    } by {
        let a = segs_view(visiting[i]@);
        assert(p.take(a.len() as int) == a);
        assert(p.push(step).take(a.len() as int) =~= p.take(a.len() as int));
    }
}

/// The state of one resolution pass.
struct State {
    /// Resolved nodes, keyed on path.
    memo: Vec<(Vec<Seg>, Value)>,
    /// The paths currently being resolved, innermost last. Doubles as the
    /// cycle chain.
    visiting: Vec<Vec<Seg>>,
    problems: Vec<Problem>,
}

/// Whether two paths are equal.
fn segs_eq(a: &[Seg], b: &[Seg]) -> (r: bool)
    ensures
        r == (segs_view(a@) == segs_view(b@)),
{
    if a.len() != b.len() {
        proof {
            assert(segs_view(a@).len() != segs_view(b@).len());
        }
        return false;
    }
    let mut i: usize = 0;
    while i < a.len()
        invariant
            a@.len() == b@.len(),
            i <= a@.len(),
            forall|j: int| 0 <= j < i ==> a@[j]@ == b@[j]@,
        decreases a.len() - i,
    {
        let same = match (&a[i], &b[i]) {
            (Seg::Key(x), Seg::Key(y)) => str_eq(x.as_str(), y.as_str()),
            (Seg::Index(x), Seg::Index(y)) => *x == *y,
            _ => false,
        };
        if !same {
            proof {
                assert(segs_view(a@)[i as int] != segs_view(b@)[i as int]);
            }
            return false;
        }
        i += 1;
    }
    proof {
        assert(segs_view(a@) =~= segs_view(b@));
    }
    true
}

/// `path` with one more step.
fn child(path: &Vec<Seg>, step: Seg) -> (out: Vec<Seg>)
    ensures
        segs_view(out@) == segs_view(path@).push(step@),
{
    let mut out = clone_segs(path.as_slice());
    let ghost before = out@;
    let ghost s = step@;
    out.push(step);
    proof {
        assert(segs_view(out@) =~= segs_view(before).push(s));
    }
    out
}

/// The memoized resolution of `path`, if any.
fn memo_get(memo: &Vec<(Vec<Seg>, Value)>, path: &Vec<Seg>) -> (r: Option<usize>)
    ensures
        match r {
            Some(i) => i < memo@.len() && segs_view(memo@[i as int].0@) == segs_view(path@),
            None => forall|j: int| 0 <= j < memo@.len() ==> segs_view((#[trigger] memo@[j]).0@) != segs_view(path@),
        },
{
    let mut i: usize = 0;
    while i < memo.len()
        invariant
            i <= memo@.len(),
            forall|j: int| 0 <= j < i ==> segs_view((#[trigger] memo@[j]).0@) != segs_view(path@),
        decreases memo.len() - i,
    {
        if segs_eq(memo[i].0.as_slice(), path.as_slice()) {
            return Some(i);
        }
        i += 1;
    }
    None
}

/// Where `path` is being resolved already, if it is.
fn visiting_position(visiting: &Vec<Vec<Seg>>, path: &Vec<Seg>) -> (r: Option<usize>)
    ensures
        match r {
            Some(i) => i < visiting@.len() && segs_view(visiting@[i as int]@) == segs_view(path@),
            None => !visit_set(visiting@).contains(segs_view(path@)),
        },
{
    let mut i: usize = 0;
    while i < visiting.len()
        invariant
            i <= visiting@.len(),
            forall|j: int| 0 <= j < i ==> segs_view(visiting@[j]@) != segs_view(path@),
        decreases visiting.len() - i,
    {
        if segs_eq(visiting[i].as_slice(), path.as_slice()) {
            return Some(i);
        }
        i += 1;
    }
    None
}

/// The body after an `env:` prefix, if it has one. The namespace is matched
/// as a literal prefix, not by splitting on the first `:`.
fn env_name(body: &str) -> (r: Option<String>)
    ensures
        match r {
            Some(n) => body@.len() >= 4 && body@.take(4) == "env:"@ && n@ == body@.skip(4),
            None => !(body@.len() >= 4 && body@.take(4) == "env:"@),
        },
{
    let chars = chars_of(body);
    proof {
        reveal_strlit("env:");
    }
    if chars.len() >= 4 && chars[0] == 'e' && chars[1] == 'n' && chars[2] == 'v' && chars[3] == ':' {
        let name = string_from(chars.as_slice(), 4, chars.len());
        proof {
            assert(body@.take(4) =~= "env:"@);
            assert(body@.skip(4) =~= chars@.subrange(4, chars@.len() as int));
        }
        Some(name)
    } else {
        proof {
            if body@.len() >= 4 && body@.take(4) == "env:"@ {
                assert(body@.take(4)[0] == 'e');
                assert(body@.take(4)[1] == 'n');
                assert(body@.take(4)[2] == 'v');
                assert(body@.take(4)[3] == ':');
            }
        }
        None
    }
}

/// What resolution needs to know of its state to go on.
spec fn state_ok(doc: ValueModel, st: State) -> bool {
    &&& paths(doc).finite()
    &&& doc.well_formed()
    &&& memo_ok(doc, st.memo@)
}

/// The variable, recording a problem and returning `None` if the name is
/// empty or the variable is unset.
fn env_value<E: Env>(env: &E, st: &mut State, name: &str, body: &str, path: &Vec<Seg>, Ghost(doc): Ghost<ValueModel>) -> (r: Option<EnvValue>)
    requires
        site(doc, segs_view(path@), body@),
        env_ref(body@) == Some(name@),
        all_genuine(doc, env, old(st).problems@),
    ensures
        all_genuine(doc, env, final(st).problems@),
        final(st).memo@ == old(st).memo@,
        final(st).visiting@ == old(st).visiting@,
        final(st).problems@.len() >= old(st).problems@.len(),
        !(name@.len() > 0 && env.var(name@) is Some) ==> old(st).problems@.len() < final(st).problems@.len(),
        name@.len() > 0 && env.var(name@) is Some ==> (r matches Some(e) && (e.raw@, e.typed.model()) == env.var(
            name@,
        )->Some_0),
        problems_extend(final(st).problems@, old(st).problems@),
        name@.len() == 0 ==> reported(
            final(st).problems@,
            ProblemModel::Syntax { path: segs_view(path@), error: SyntaxModel::EmptyEnvName },
        ),
        name@.len() > 0 && env.var(name@) is None ==> reported(
            final(st).problems@,
            ProblemModel::Unresolved { path: segs_view(path@), reference: body@ },
        ),
        name@.len() > 0 && env.var(name@) is Some ==> final(st).problems@ == old(st).problems@,
        memo_sourced(doc, env, old(st).memo@, old(st).problems@) ==> memo_sourced(doc, env, final(st).memo@, final(st).problems@),
        problems_view(final(st).problems@) == problems_view(old(st).problems@) + opt_problem(
            if name@.len() == 0 {
                Some(ProblemModel::Syntax { path: segs_view(path@), error: SyntaxModel::EmptyEnvName })
            } else if env.var(name@) is None {
                Some(ProblemModel::Unresolved { path: segs_view(path@), reference: body@ })
            } else {
                None
            },
        ),
{
    let ghost s = lookup_spec(doc, segs_view(path@))->Some_0->String_0;
    let ghost k = choose|k: int| 0 <= k < scan_spec(s).len() && scan_spec(s)[k] == PieceModel::Ref(body@);
    let ghost old_problems = st.problems@;
    if name.is_empty() {
        let p = Problem::Syntax { path: clone_segs(path.as_slice()), error: Syntax::EmptyEnvName };
        proof {
            assert(body_fault(body@) == Some(SyntaxModel::EmptyEnvName));
            assert(genuine(doc, env, p@));
        }
        st.problems.push(p);
        proof {
            assert(forall|i: int| 0 <= i < old_problems.len() ==> st.problems@[i] == old_problems[i]);
            assert(st.problems@[old_problems.len() as int] == p);
            assert(problems_view(st.problems@) =~= problems_view(old_problems) + seq![p@]);
            if memo_sourced(doc, env, st.memo@, old_problems) {
                lemma_from_piece_at(doc, env, memo_lookup(st.memo@), s, k, p@);
                lemma_sourced_push(doc, env, st.memo@, old_problems, p);
            }
        }
        return None;
    }
    let found = env.lookup(name);
    if found.is_none() {
        let p = Problem::Unresolved { path: clone_segs(path.as_slice()), reference: owned(body) };
        proof {
            assert(genuine(doc, env, p@));
        }
        st.problems.push(p);
        proof {
            assert(forall|i: int| 0 <= i < old_problems.len() ==> st.problems@[i] == old_problems[i]);
            assert(st.problems@[old_problems.len() as int] == p);
            assert(problems_view(st.problems@) =~= problems_view(old_problems) + seq![p@]);
            if memo_sourced(doc, env, st.memo@, old_problems) {
                lemma_from_piece_at(doc, env, memo_lookup(st.memo@), s, k, p@);
                lemma_sourced_push(doc, env, st.memo@, old_problems, p);
            }
        }
    }
    proof {
        if found.is_some() && name@.len() > 0 {
            assert(problems_view(st.problems@) =~= problems_view(old_problems) + Seq::<ProblemModel>::empty());
        }
    }
    found
}

/// The document path a reference names, recording a problem and returning
/// `None` if it is malformed or names nothing.
fn target<E: Env>(doc: &Value, env: &E, st: &mut State, body: &str, path: &Vec<Seg>) -> (r: Option<Vec<Seg>>)
    requires
        site(doc.model(), segs_view(path@), body@),
        env_ref(body@) is None,
        all_genuine(doc.model(), env, old(st).problems@),
    ensures
        all_genuine(doc.model(), env, final(st).problems@),
        old(st).problems@.len() <= final(st).problems@.len(),
        r is None ==> old(st).problems@.len() < final(st).problems@.len(),
        final(st).memo@ == old(st).memo@,
        final(st).visiting@ == old(st).visiting@,
        match r {
            Some(t) => lookup_spec(doc.model(), segs_view(t@)) is Some && parse_path(body@) is Ok && segs_view(t@)
                == parse_path(body@)->Ok_0,
            None => true,
        },
        parse_path(body@) is Ok && lookup_spec(doc.model(), parse_path(body@)->Ok_0) is Some ==> r is Some,
        problems_extend(final(st).problems@, old(st).problems@),
        r is Some ==> final(st).problems@ == old(st).problems@,
        parse_path(body@) matches Err(ParseFault::BadIndex) ==> reported(
            final(st).problems@,
            ProblemModel::Syntax { path: segs_view(path@), error: SyntaxModel::BadIndex { body: body@ } },
        ),
        parse_path(body@) is Err && !(parse_path(body@) matches Err(ParseFault::BadIndex)) ==> reported(
            final(st).problems@,
            ProblemModel::Syntax { path: segs_view(path@), error: SyntaxModel::EmptySegment { body: body@ } },
        ),
        parse_path(body@) is Ok && lookup_spec(doc.model(), parse_path(body@)->Ok_0) is None ==> reported(
            final(st).problems@,
            ProblemModel::Unresolved { path: segs_view(path@), reference: body@ },
        ),
        memo_sourced(doc.model(), env, old(st).memo@, old(st).problems@) ==> memo_sourced(
            doc.model(),
            env,
            final(st).memo@,
            final(st).problems@,
        ),
        problems_view(final(st).problems@) == problems_view(old(st).problems@) + opt_problem(
            match parse_path(body@) {
                Err(ParseFault::BadIndex) => Some(
                    ProblemModel::Syntax { path: segs_view(path@), error: SyntaxModel::BadIndex { body: body@ } },
                ),
                Err(_) => Some(ProblemModel::Syntax { path: segs_view(path@), error: SyntaxModel::EmptySegment { body: body@ } }),
                Ok(q) => if lookup_spec(doc.model(), q) is None {
                    Some(ProblemModel::Unresolved { path: segs_view(path@), reference: body@ })
                } else {
                    None
                },
            },
        ),
{
    let ghost s = lookup_spec(doc.model(), segs_view(path@))->Some_0->String_0;
    let ghost k = choose|k: int| 0 <= k < scan_spec(s).len() && scan_spec(s)[k] == PieceModel::Ref(body@);
    let ghost old_problems = st.problems@;
    let ghost d = doc.model();
    let parsed = match RefPath::parse(body) {
        Ok(p) => p.into_segs(),
        Err(PathError::BadIndex { .. }) => {
            let p = Problem::Syntax { path: clone_segs(path.as_slice()), error: Syntax::BadIndex { body: owned(body) } };
            proof {
                assert(parse_path(body@) matches Err(ParseFault::BadIndex));
                assert(body_fault(body@) == Some(SyntaxModel::BadIndex { body: body@ }));
                assert(genuine(d, env, p@));
            }
            st.problems.push(p);
            proof {
                assert(forall|i: int| 0 <= i < old_problems.len() ==> st.problems@[i] == old_problems[i]);
                assert(st.problems@[old_problems.len() as int] == p);
                assert(problems_view(st.problems@) =~= problems_view(old_problems) + seq![p@]);
                if memo_sourced(d, env, st.memo@, old_problems) {
                    lemma_from_piece_at(d, env, memo_lookup(st.memo@), s, k, p@);
                    lemma_sourced_push(d, env, st.memo@, old_problems, p);
                }
            }
            return None;
        },
        Err(_) => {
            let p = Problem::Syntax {
                path: clone_segs(path.as_slice()),
                error: Syntax::EmptySegment { body: owned(body) },
            };
            proof {
                assert(parse_path(body@) is Err && !(parse_path(body@) matches Err(ParseFault::BadIndex)));
                assert(body_fault(body@) == Some(SyntaxModel::EmptySegment { body: body@ }));
                assert(genuine(d, env, p@));
            }
            st.problems.push(p);
            proof {
                assert(forall|i: int| 0 <= i < old_problems.len() ==> st.problems@[i] == old_problems[i]);
                assert(st.problems@[old_problems.len() as int] == p);
                assert(problems_view(st.problems@) =~= problems_view(old_problems) + seq![p@]);
                if memo_sourced(d, env, st.memo@, old_problems) {
                    lemma_from_piece_at(d, env, memo_lookup(st.memo@), s, k, p@);
                    lemma_sourced_push(d, env, st.memo@, old_problems, p);
                }
            }
            return None;
        },
    };
    if lookup(doc, parsed.as_slice()).is_none() {
        let p = Problem::Unresolved { path: clone_segs(path.as_slice()), reference: owned(body) };
        proof {
            assert(genuine(d, env, p@));
        }
        st.problems.push(p);
        proof {
            assert(forall|i: int| 0 <= i < old_problems.len() ==> st.problems@[i] == old_problems[i]);
            assert(st.problems@[old_problems.len() as int] == p);
                assert(problems_view(st.problems@) =~= problems_view(old_problems) + seq![p@]);
            if memo_sourced(d, env, st.memo@, old_problems) {
                lemma_from_piece_at(d, env, memo_lookup(st.memo@), s, k, p@);
                lemma_sourced_push(d, env, st.memo@, old_problems, p);
            }
        }
        return None;
    }
    proof {
        assert(problems_view(st.problems@) =~= problems_view(old_problems) + Seq::<ProblemModel>::empty());
    }
    Some(parsed)
}

/// Resolves the node at `path`, which exists.
fn resolve<E: Env, F: Fn(u64) -> String>(
    doc: &Value,
    env: &E,
    spell: &F,
    st: &mut State,
    path: &Vec<Seg>,
    Ghost(budget): Ghost<nat>,
) -> (r: Result<Value, Cycle>)
    requires
        chain_ok(doc.model(), old(st).visiting@),
        old(st).visiting@.len() > 0 ==> depends(doc.model(), segs_view(old(st).visiting@.last()@), segs_view(path@)),
        all_genuine(doc.model(), env, old(st).problems@),
        state_ok(doc.model(), *old(st)),
        memo_good(doc.model(), env, *old(st)),
        budget == unvisited(doc.model(), old(st).visiting@),
        lookup_spec(doc.model(), segs_view(path@)) is Some,
        forall|b: u64| #[trigger] spell.requires((b,)),
        no_dollar(doc.model()) ==> visiting_above(old(st).visiting@, segs_view(path@), true),
    ensures
        all_genuine(doc.model(), env, final(st).problems@),
        old(st).problems@.len() <= final(st).problems@.len(),
        problems_extend(final(st).problems@, old(st).problems@),
        r is Err ==> dependency_cycle(doc.model(), r->Err_0.chain_view()),
        r is Err ==> simple_cycle(r->Err_0.chain_view()),
        no_dollar(doc.model()) ==> r is Ok && final(st).problems@ == old(st).problems@,
        r is Ok ==> {
            &&& state_ok(doc.model(), *final(st))
            &&& memo_good(doc.model(), env, *final(st))
            &&& memo_extends(final(st).memo@, old(st).memo@)
            &&& final(st).visiting@ == old(st).visiting@
            &&& preserved(lookup_spec(doc.model(), segs_view(path@))->Some_0, r->Ok_0.model())
            &&& path@.len() > 0 ==> memo_holds(final(st).memo@, segs_view(path@), r->Ok_0.model())
            &&& path@.len() == 0 ==> assembled(doc.model(), env, final(st).memo@, segs_view(path@), r->Ok_0.model())
        },
        r is Err ==> walk(doc.model(), stack_view(old(st).visiting@), memo_paths(old(st).memo@), segs_view(path@), budget).cycle
            == Some(r->Err_0.chain_view()),
        r is Ok ==> followed(
            doc.model(),
            env,
            walk(doc.model(), stack_view(old(st).visiting@), memo_paths(old(st).memo@), segs_view(path@), budget),
            *old(st),
            *final(st),
            Seq::empty(),
        ),
        r is Ok && path@.len() == 0 ==> match lookup_spec(doc.model(), segs_view(path@)) {
            Some(ValueModel::String(t)) => {
                &&& final(st).problems@.len() == 0 ==> string_clean(doc.model(), env, memo_lookup(final(st).memo@), t)
                &&& string_reported(doc.model(), env, memo_lookup(final(st).memo@), segs_view(path@), t, final(st).problems@)
            },
            _ => true,
        },
    decreases budget, 0nat,
{
    let ghost sp = segs_view(path@);
    match memo_get(&st.memo, path) {
        Some(i) => {
            proof {
                assert(memo_ok(doc.model(), st.memo@));
                let m = st.memo@[i as int];
                assert(segs_view(m.0@) == sp);
                assert(segs_view(st.memo@[i as int].0@).len() > 0);
            }
            let hit = st.memo[i].1.clone();
            proof {
                assert(memo_holds(st.memo@, sp, hit.model()));
                assert(memo_paths(st.memo@).contains(sp));
                assert(problems_view(st.problems@) + site_problems(doc.model(), env, memo_lookup(st.memo@), Seq::empty())
                    + Seq::<ProblemModel>::empty() =~= problems_view(st.problems@));
            }
            return Ok(hit);
        },
        None => {},
    }
    match visiting_position(&st.visiting, path) {
        Some(start) => {
            let mut chain: Vec<Vec<Seg>> = Vec::new();
            let mut j = start;
            while j < st.visiting.len()
                invariant
                    start <= j <= st.visiting@.len(),
                    start < st.visiting@.len(),
                    chain@.len() == j - start,
                    forall|k: int| 0 <= k < j - start ==> segs_view((#[trigger] chain@[k])@) == segs_view(st.visiting@[start + k]@),
                decreases st.visiting.len() - j,
            {
                let next = clone_segs(st.visiting[j].as_slice());
                let ghost before = chain@;
                chain.push(next);
                proof {
                    assert(forall|k: int| 0 <= k < before.len() ==> chain@[k] == before[k]);
                }
                j += 1;
            }
            let last = clone_segs(path.as_slice());
            let ghost before = chain@;
            chain.push(last);
            proof {
                assert(forall|k: int| 0 <= k < before.len() ==> chain@[k] == before[k]);
                assert(segs_view(chain@[0]@) == segs_view(st.visiting@[start as int]@));
            }
            let c = Cycle::new(chain);
            proof {
                assert(c.chain_view().len() == chain@.len());
                assert(c.chain_view()[0] == segs_view(chain@[0]@));
                assert(c.chain_view().last() == segs_view(chain@.last()@));
                let sv = stack_view(st.visiting@);
                assert(!memo_paths(st.memo@).contains(sp));
                assert(sv[start as int] == sp);
                assert(stack_set(sv).contains(sp));
                let pos = position(sv, sp);
                assert(0 <= pos < sv.len() && sv[pos] == sp);
                if pos != start as int {
                    assert(chain_ok(doc.model(), st.visiting@));
                    if pos < start as int {
                        assert(segs_view(st.visiting@[pos]@) != segs_view(st.visiting@[start as int]@));
                    } else {
                        assert(segs_view(st.visiting@[start as int]@) != segs_view(st.visiting@[pos]@));
                    }
                }
                assert(c.chain_view() =~= sv.skip(start as int).push(sp)) by {
                    assert forall|k: int| 0 <= k < c.chain_view().len() implies c.chain_view()[k] == sv.skip(start as int).push(sp)[k] by {
                        assert(c.chain_view()[k] == segs_view(chain@[k]@));
                        if k < chain@.len() - 1 {
                            assert(chain@[k] == before[k]);
                        }
                    }
                }
            }
            return Err(c);
        },
        None => {},
    }
    let raw = match lookup(doc, path.as_slice()) {
        Some(raw) => raw,
        None => {
            proof {
                assert(false);
            }
            return Ok(Value::Null);
        },
    };
    let ghost old_visiting = st.visiting@;
    proof {
        lemma_paths_finite(doc.model());
        assert(visit_set(old_visiting.push(*path)) =~= visit_set(old_visiting).insert(sp)) by {
            assert forall|q: Seq<SegModel>| visit_set(old_visiting.push(*path)).contains(q)
                == visit_set(old_visiting).insert(sp).contains(q) by {
                if visit_set(old_visiting).contains(q) {
                    let i = choose|i: int| 0 <= i < old_visiting.len() && #[trigger] segs_view(old_visiting[i]@) == q;
                    assert(old_visiting.push(*path)[i] == old_visiting[i]);
                }
                if q == sp {
                    assert(old_visiting.push(*path)[old_visiting.len() as int] == *path);
                }
                if visit_set(old_visiting.push(*path)).contains(q) {
                    let i = choose|i: int| 0 <= i < old_visiting.len() + 1 && #[trigger] segs_view(old_visiting.push(*path)[i]@) == q;
                    if i < old_visiting.len() {
                        assert(old_visiting.push(*path)[i] == old_visiting[i]);
                    }
                }
            }
        }
        paths(doc.model()).lemma_set_insert_diff_decreases(visit_set(old_visiting), sp);
        lemma_lookup_well_formed(doc.model(), sp);
    }
    st.visiting.push(clone_segs(path.as_slice()));
    proof {
        assert(st.visiting@ =~= old_visiting.push(st.visiting@.last()));
        assert(segs_view(st.visiting@.last()@) == sp);
        assert(visit_set(st.visiting@) =~= visit_set(old_visiting).insert(sp)) by {
            assert forall|q: Seq<SegModel>| visit_set(st.visiting@).contains(q)
                == visit_set(old_visiting).insert(sp).contains(q) by {
                if visit_set(old_visiting).contains(q) {
                    let i = choose|i: int| 0 <= i < old_visiting.len() && #[trigger] segs_view(old_visiting[i]@) == q;
                    assert(st.visiting@[i] == old_visiting[i]);
                }
                if q == sp {
                    assert(segs_view(st.visiting@[old_visiting.len() as int]@) == sp);
                }
                if visit_set(st.visiting@).contains(q) {
                    let i = choose|i: int| 0 <= i < st.visiting@.len() && #[trigger] segs_view(st.visiting@[i]@) == q;
                    if i < old_visiting.len() {
                        assert(st.visiting@[i] == old_visiting[i]);
                    }
                }
            }
        }
    }
    let ghost m0 = st.memo@;
    let ghost vis1 = st.visiting@;
    proof {
        assert forall|i: int| 0 <= i < st.memo@.len() implies !visit_set(st.visiting@).contains(
            segs_view((#[trigger] st.memo@[i]).0@),
        ) by {
            assert(!visit_set(old_visiting).contains(segs_view(st.memo@[i].0@)));
            assert(segs_view(st.memo@[i].0@) != sp);
        }
    }
    proof {
        if no_dollar(doc.model()) {
            assert forall|i: int| 0 <= i < st.visiting@.len() implies {
                let a = segs_view((#[trigger] st.visiting@[i])@);
                &&& a.len() <= sp.len()
                &&& false ==> a.len() < sp.len()
                &&& sp.take(a.len() as int) == a
            } by {
                if i < old_visiting.len() {
                    assert(st.visiting@[i] == old_visiting[i]);
                } else {
                    assert(segs_view(st.visiting@[i]@) == sp);
                    assert(sp.take(sp.len() as int) =~= sp);
                }
            }
        }
    }
    let ghost b1 = unvisited(doc.model(), st.visiting@);
    let ghost sv0 = stack_view(old_visiting);
    let ghost st_in = *st;
    proof {
        lemma_stack_view_push(old_visiting, st.visiting@.last());
        lemma_stack_view_push(st.visiting@, st.visiting@.last());
        assert(st.visiting@ == old_visiting.push(st.visiting@.last()));
        assert(stack_view(st.visiting@) == sv0.push(sp));
        assert(left(doc.model(), sv0.push(sp)) == b1);
        assert(!memo_paths(st.memo@).contains(sp));
        assert(!stack_set(sv0).contains(sp));
    }
    let resolved = match resolve_value(doc, env, spell, st, raw, path, Ghost(b1)) {
        Ok(v) => v,
        Err(c) => {
            return Err(c);
        },
    };
    let ghost st_mid = *st;
    proof {
        assert(st.visiting@ == vis1);
        assert(visit_set(vis1).contains(sp));
    }
    st.visiting.pop();
    proof {
        assert(st.visiting@ =~= old_visiting);
        assert forall|i: int| 0 <= i < st.memo@.len() implies !visit_set(st.visiting@).contains(
            segs_view((#[trigger] st.memo@[i]).0@),
        ) by {
            assert(!visit_set(vis1).contains(segs_view(st.memo@[i].0@)));
        }
        assert forall|i: int| 0 <= i < st.memo@.len() implies segs_view((#[trigger] st.memo@[i]).0@) != sp by {
            assert(!visit_set(vis1).contains(segs_view(st.memo@[i].0@)));
        }
        lemma_extends_trans(st.memo@, m0, old(st).memo@);
    }
    if path.len() > 0 {
        let copy = resolved.clone();
        let ghost before = st.memo@;
        st.memo.push((clone_segs(path.as_slice()), copy));
        proof {
            assert forall|i: int| 0 <= i < st.memo@.len() implies {
                let p = segs_view((#[trigger] st.memo@[i]).0@);
                &&& lookup_spec(doc.model(), p) is Some
                &&& preserved(lookup_spec(doc.model(), p)->Some_0, st.memo@[i].1.model())
            } by {
                if i < before.len() {
                    assert(st.memo@[i] == before[i]);
                }
            }
            let n = before.len() as int;
            assert(segs_view(st.memo@[n].0@) == sp);
            assert(st.memo@[n].1.model() == resolved.model());
            assert(memo_extends(st.memo@, before));
            assert forall|i: int, j: int| 0 <= i < j < st.memo@.len() implies segs_view(
                (#[trigger] st.memo@[i]).0@,
            ) != segs_view((#[trigger] st.memo@[j]).0@) by {
                assert(st.memo@[i] == before[i]);
                if j < n {
                    assert(st.memo@[j] == before[j]);
                }
            }
            assert forall|i: int| 0 <= i < st.memo@.len() implies segs_view((#[trigger] st.memo@[i]).0@).len() > 0 by {
                if i < n {
                    assert(st.memo@[i] == before[i]);
                }
            }
            assert forall|i: int| 0 <= i < st.memo@.len() implies assembled(
                doc.model(),
                env,
                st.memo@,
                segs_view((#[trigger] st.memo@[i]).0@),
                st.memo@[i].1.model(),
            ) by {
                if i < n {
                    assert(st.memo@[i] == before[i]);
                    assert(assembled(doc.model(), env, before, segs_view(before[i].0@), before[i].1.model()));
                }
                lemma_assembled_extends(doc.model(), env, st.memo@, before, segs_view(st.memo@[i].0@), st.memo@[i].1.model());
            }
            assert forall|i: int| 0 <= i < st.memo@.len() implies !visit_set(st.visiting@).contains(
                segs_view((#[trigger] st.memo@[i]).0@),
            ) by {
                if i < n {
                    assert(st.memo@[i] == before[i]);
                }
            }
            assert(memo_holds(st.memo@, sp, resolved.model()));
            lemma_extends_trans(st.memo@, before, old(st).memo@);
            if st.problems@.len() == 0 {
                lemma_memo_clean_push(doc.model(), env, st.memo@, before, sp);
            }
            lemma_memo_reported_push(doc.model(), env, st.memo@, before, sp, resolved.model(), st.problems@);
            lemma_sourced_memo(doc.model(), env, st.memo@, before, st.problems@);
            lemma_memo_ordered_push(doc.model(), env, st.memo@, before, sp, resolved.model());
        }
    }
    proof {
        let inner = walk_node(doc.model(), sv0.push(sp), memo_paths(m0), sp, b1);
        if path.len() > 0 {
            lemma_memo_paths_push(st_mid.memo@, st.memo@.last());
            assert(st.memo@ == st_mid.memo@.push(st.memo@.last()));
            lemma_site_problems_memo(doc.model(), env, st.memo@, st_mid.memo@, inner.sites);
        }
        assert(problems_view(st.problems@) == problems_view(old(st).problems@) + site_problems(
            doc.model(),
            env,
            memo_lookup(st.memo@),
            inner.sites,
        ) + Seq::<ProblemModel>::empty());
    }
    Ok(resolved)
}

/// Resolves `raw`, the node at `path`: a string by its references, a
/// container by resolving each member under its own path.
fn resolve_value<E: Env, F: Fn(u64) -> String>(
    doc: &Value,
    env: &E,
    spell: &F,
    st: &mut State,
    raw: &Value,
    path: &Vec<Seg>,
    Ghost(budget): Ghost<nat>,
) -> (r: Result<Value, Cycle>)
    requires
        chain_ok(doc.model(), old(st).visiting@),
        old(st).visiting@.len() > 0 && segs_view(old(st).visiting@.last()@) == segs_view(path@),
        all_genuine(doc.model(), env, old(st).problems@),
        state_ok(doc.model(), *old(st)),
        budget == unvisited(doc.model(), old(st).visiting@),
        memo_good(doc.model(), env, *old(st)),
        lookup_spec(doc.model(), segs_view(path@)) == Some(raw.model()),
        raw.model().well_formed(),
        forall|b: u64| #[trigger] spell.requires((b,)),
        no_dollar(doc.model()) ==> visiting_above(old(st).visiting@, segs_view(path@), false),
    ensures
        all_genuine(doc.model(), env, final(st).problems@),
        old(st).problems@.len() <= final(st).problems@.len(),
        r is Ok && final(st).problems@.len() == 0 ==> match lookup_spec(doc.model(), segs_view(path@)) {
            Some(ValueModel::String(t)) => string_clean(doc.model(), env, memo_lookup(final(st).memo@), t),
            _ => true,
        },
        problems_extend(final(st).problems@, old(st).problems@),
        r is Ok ==> match lookup_spec(doc.model(), segs_view(path@)) {
            Some(ValueModel::String(t)) => string_reported(
                doc.model(),
                env,
                memo_lookup(final(st).memo@),
                segs_view(path@),
                t,
                final(st).problems@,
            ),
            _ => true,
        },
        r is Err ==> dependency_cycle(doc.model(), r->Err_0.chain_view()),
        r is Err ==> simple_cycle(r->Err_0.chain_view()),
        no_dollar(doc.model()) ==> r is Ok && final(st).problems@ == old(st).problems@,
        r is Ok ==> {
            &&& state_ok(doc.model(), *final(st))
            &&& memo_good(doc.model(), env, *final(st))
            &&& memo_extends(final(st).memo@, old(st).memo@)
            &&& final(st).visiting@ == old(st).visiting@
            &&& preserved(raw.model(), r->Ok_0.model())
            &&& assembled(doc.model(), env, final(st).memo@, segs_view(path@), r->Ok_0.model())
        },
        r is Err ==> walk_node(doc.model(), stack_view(old(st).visiting@), memo_paths(old(st).memo@), segs_view(path@), budget).cycle
            == Some(r->Err_0.chain_view()),
        r is Ok ==> followed(
            doc.model(),
            env,
            walk_node(doc.model(), stack_view(old(st).visiting@), memo_paths(old(st).memo@), segs_view(path@), budget),
            *old(st),
            *final(st),
            Seq::empty(),
        ),
    decreases budget, 3nat,
{
    let ghost sp = segs_view(path@);
    let ghost sv = stack_view(old(st).visiting@);
    let ghost dn = memo_paths(old(st).memo@);
    proof {
        if no_dollar(doc.model()) {
            lemma_no_dollar_lookup(doc.model(), sp);
        }
        assert(problems_view(st.problems@) + site_problems(doc.model(), env, memo_lookup(st.memo@), Seq::empty())
            + Seq::<ProblemModel>::empty() =~= problems_view(st.problems@));
    }
    match raw {
        Value::String(text) => resolve_string(doc, env, spell, st, text, path, Ghost(budget)),
        Value::Array(items) => {
            proof {
                lemma_array_model(*items);
            }
            let ghost am = raw.model()->Array_0;
            let ghost ms = Seq::new(am.len(), |k: int| sp.push(SegModel::Index(k as usize)));
            let mut out: Vec<Value> = Vec::new();
            let mut index: usize = 0;
            while index < items.len()
                invariant
                    index <= items@.len(),
                    am == items@.map_values(|v: Value| v.model()),
                    ms == Seq::new(am.len(), |k: int| sp.push(SegModel::Index(k as usize))),
                    lookup_spec(doc.model(), sp) == Some(raw.model()),
                    raw.model() == ValueModel::Array(am),
                    sp == segs_view(path@),
                    state_ok(doc.model(), *st),
                    st.visiting@ == old(st).visiting@,
                    budget == unvisited(doc.model(), st.visiting@),
                    forall|b: u64| #[trigger] spell.requires((b,)),
                    out@.len() == index,
                    forall|i: int| 0 <= i < index ==> preserved(#[trigger] am[i], out@[i].model()),
                    memo_good(doc.model(), env, *st),
                    memo_extends(st.memo@, old(st).memo@),
                    forall|i: int|
                        0 <= i < index ==> memo_holds(st.memo@, sp.push(SegModel::Index(i as usize)), #[trigger] out@[i].model()),
                    no_dollar(doc.model()) ==> st.problems@ == old(st).problems@,
                    no_dollar(doc.model()) ==> visiting_above(st.visiting@, sp, false),
                    all_genuine(doc.model(), env, st.problems@),
                    old(st).problems@.len() <= st.problems@.len(),
                    problems_extend(st.problems@, old(st).problems@),
                    sv == stack_view(old(st).visiting@),
                    dn == memo_paths(old(st).memo@),
                    walk_list(doc.model(), sv, dn, ms, index as nat, budget).cycle is None,
                    followed(doc.model(), env, walk_list(doc.model(), sv, dn, ms, index as nat, budget), *old(st), *st, Seq::empty()),
                    chain_ok(doc.model(), st.visiting@),
                    st.visiting@.len() > 0 && segs_view(st.visiting@.last()@) == sp,
                decreases items.len() - index,
            {
                let ghost before = st.memo@;
                let ghost st0 = *st;
                let next = child(path, Seg::Index(index));
                proof {
                    if no_dollar(doc.model()) {
                        lemma_visiting_above_child(st.visiting@, sp, SegModel::Index(index));
                    }
                }
                proof {
                    assert(depends(doc.model(), sp, sp.push(SegModel::Index(index))));
                    lemma_lookup_push(doc.model(), sp, SegModel::Index(index));
                    assert(lookup_spec(am[index as int], seq![SegModel::Index(index)].drop_first()) == Some(am[index as int])) by {
                        assert(seq![SegModel::Index(index)].drop_first() =~= Seq::<SegModel>::empty());
                    }
                }
                proof {
                    assert(segs_view(next@) == ms[index as int]);
                }
                let v = match resolve(doc, env, spell, st, &next, Ghost(budget)) {
                    Ok(v) => v,
                    Err(c) => {
                        proof {
                            lemma_list_stop(doc.model(), sv, dn, ms, index as nat, budget, c.chain_view());
                        }
                        return Err(c);
                    },
                };
                proof {
                    lemma_list_step(doc.model(), env, sv, dn, ms, index as nat, budget, *old(st), st0, *st);
                    assert forall|i: int| 0 <= i < index implies memo_holds(
                        st.memo@,
                        sp.push(SegModel::Index(i as usize)),
                        #[trigger] out@[i].model(),
                    ) by {
                        lemma_holds_extends(st.memo@, before, sp.push(SegModel::Index(i as usize)), out@[i].model());
                    }
                    lemma_extends_trans(st.memo@, before, old(st).memo@);
                }
                out.push(v);
                index += 1;
            }
            let result = Value::Array(out);
            proof {
                lemma_array_model(out);
                let x = result.model();
                assert forall|i: int| 0 <= i < am.len() implies memo_holds(
                    st.memo@,
                    sp.push(SegModel::Index(i as usize)),
                    #[trigger] x->Array_0[i],
                ) by {
                    assert(x->Array_0[i] == out@[i].model());
                }
            }
            Ok(result)
        },
        Value::Object(entries) => {
            proof {
                lemma_object_model(*entries);
            }
            let ghost em = entries_model(entries@);
            let ghost ms = Seq::new(em.len(), |k: int| sp.push(SegModel::Key(em[k].0)));
            let mut out: Vec<(String, Value)> = Vec::new();
            let mut index: usize = 0;
            while index < entries.len()
                invariant
                    index <= entries@.len(),
                    em == entries_model(entries@),
                    ms == Seq::new(em.len(), |k: int| sp.push(SegModel::Key(em[k].0))),
                    lookup_spec(doc.model(), sp) == Some(raw.model()),
                    raw.model() == ValueModel::Object(em),
                    raw.model().well_formed(),
                    sp == segs_view(path@),
                    state_ok(doc.model(), *st),
                    st.visiting@ == old(st).visiting@,
                    budget == unvisited(doc.model(), st.visiting@),
                    forall|b: u64| #[trigger] spell.requires((b,)),
                    out@.len() == index,
                    forall|i: int| 0 <= i < index ==> out@[i].0@ == (#[trigger] em[i]).0 && preserved(em[i].1, out@[i].1.model()),
                    memo_good(doc.model(), env, *st),
                    memo_extends(st.memo@, old(st).memo@),
                    forall|i: int|
                        0 <= i < index ==> memo_holds(st.memo@, sp.push(SegModel::Key(em[i].0)), (#[trigger] out@[i]).1.model()),
                    no_dollar(doc.model()) ==> st.problems@ == old(st).problems@,
                    no_dollar(doc.model()) ==> visiting_above(st.visiting@, sp, false),
                    all_genuine(doc.model(), env, st.problems@),
                    old(st).problems@.len() <= st.problems@.len(),
                    problems_extend(st.problems@, old(st).problems@),
                    sv == stack_view(old(st).visiting@),
                    dn == memo_paths(old(st).memo@),
                    walk_list(doc.model(), sv, dn, ms, index as nat, budget).cycle is None,
                    followed(doc.model(), env, walk_list(doc.model(), sv, dn, ms, index as nat, budget), *old(st), *st, Seq::empty()),
                    chain_ok(doc.model(), st.visiting@),
                    st.visiting@.len() > 0 && segs_view(st.visiting@.last()@) == sp,
                decreases entries.len() - index,
            {
                let ghost before = st.memo@;
                let ghost st0 = *st;
                proof {
                    if no_dollar(doc.model()) {
                        lemma_visiting_above_child(st.visiting@, sp, SegModel::Key(em[index as int].0));
                    }
                }
                let key = entries[index].0.clone();
                let next = child(path, Seg::Key(entries[index].0.clone()));
                proof {
                    assert(depends(doc.model(), sp, sp.push(SegModel::Key(em[index as int].0))));
                    lemma_lookup_push(doc.model(), sp, SegModel::Key(em[index as int].0));
                    crate::value::lemma_key_index_distinct(em, index as int);
                    assert(lookup_spec(em[index as int].1, seq![SegModel::Key(em[index as int].0)].drop_first()) == Some(em[index as int].1)) by {
                        assert(seq![SegModel::Key(em[index as int].0)].drop_first() =~= Seq::<SegModel>::empty());
                    }
                }
                proof {
                    assert(segs_view(next@) == ms[index as int]);
                }
                let v = match resolve(doc, env, spell, st, &next, Ghost(budget)) {
                    Ok(v) => v,
                    Err(c) => {
                        proof {
                            lemma_list_stop(doc.model(), sv, dn, ms, index as nat, budget, c.chain_view());
                        }
                        return Err(c);
                    },
                };
                proof {
                    lemma_list_step(doc.model(), env, sv, dn, ms, index as nat, budget, *old(st), st0, *st);
                    assert forall|i: int| 0 <= i < index implies memo_holds(
                        st.memo@,
                        sp.push(SegModel::Key(em[i].0)),
                        (#[trigger] out@[i]).1.model(),
                    ) by {
                        lemma_holds_extends(st.memo@, before, sp.push(SegModel::Key(em[i].0)), out@[i].1.model());
                    }
                    lemma_extends_trans(st.memo@, before, old(st).memo@);
                }
                out.push((key, v));
                index += 1;
            }
            let result = Value::Object(out);
            proof {
                lemma_object_model(out);
                let x = result.model();
                assert forall|i: int| 0 <= i < em.len() implies memo_holds(
                    st.memo@,
                    sp.push(SegModel::Key(em[i].0)),
                    (#[trigger] x->Object_0[i]).1,
                ) by {
                    assert(x->Object_0[i].1 == out@[i].1.model());
                }
            }
            Ok(result)
        },
        _ => Ok(raw.clone()),
    }
}

/// Resolves a string's references.
fn resolve_string<E: Env, F: Fn(u64) -> String>(
    doc: &Value,
    env: &E,
    spell: &F,
    st: &mut State,
    text: &String,
    path: &Vec<Seg>,
    Ghost(budget): Ghost<nat>,
) -> (r: Result<Value, Cycle>)
    requires
        chain_ok(doc.model(), old(st).visiting@),
        old(st).visiting@.len() > 0 && segs_view(old(st).visiting@.last()@) == segs_view(path@),
        all_genuine(doc.model(), env, old(st).problems@),
        lookup_spec(doc.model(), segs_view(path@)) == Some(ValueModel::String(text@)),
        state_ok(doc.model(), *old(st)),
        memo_good(doc.model(), env, *old(st)),
        budget == unvisited(doc.model(), old(st).visiting@),
        forall|b: u64| #[trigger] spell.requires((b,)),
        no_dollar(doc.model()) ==> !text@.contains('$'),
    ensures
        all_genuine(doc.model(), env, final(st).problems@),
        old(st).problems@.len() <= final(st).problems@.len(),
        r is Ok && final(st).problems@.len() == 0 ==> string_clean(doc.model(), env, memo_lookup(final(st).memo@), text@),
        problems_extend(final(st).problems@, old(st).problems@),
        r is Ok ==> string_reported(
            doc.model(),
            env,
            memo_lookup(final(st).memo@),
            segs_view(path@),
            text@,
            final(st).problems@,
        ),
        r is Err ==> dependency_cycle(doc.model(), r->Err_0.chain_view()),
        r is Err ==> simple_cycle(r->Err_0.chain_view()),
        !text@.contains('$') ==> r is Ok && final(st).problems@ == old(st).problems@,
        r is Ok ==> {
            &&& state_ok(doc.model(), *final(st))
            &&& memo_good(doc.model(), env, *final(st))
            &&& memo_extends(final(st).memo@, old(st).memo@)
            &&& final(st).visiting@ == old(st).visiting@
            &&& !text@.contains('$') ==> r->Ok_0.model() == ValueModel::String(text@)
            &&& string_assembled(doc.model(), env, final(st).memo@, text@, r->Ok_0.model())
        },
        r is Err ==> walk_pieces(
            doc.model(),
            stack_view(old(st).visiting@),
            memo_paths(old(st).memo@),
            segs_view(path@),
            scan_spec(text@),
            scan_spec(text@).len(),
            budget,
        ).cycle == Some(r->Err_0.chain_view()),
        r is Ok ==> followed(
            doc.model(),
            env,
            walk_pieces(
                doc.model(),
                stack_view(old(st).visiting@),
                memo_paths(old(st).memo@),
                segs_view(path@),
                scan_spec(text@),
                scan_spec(text@).len(),
                budget,
            ),
            *old(st),
            *final(st),
            Seq::empty(),
        ),
    decreases budget, 2nat,
{
    let pieces = scan(text.as_str());
    proof {
        assert(crate::scan::pieces_view(pieces@) == crate::scan::scan_spec(text@));
        assert(crate::scan::pieces_view(pieces@).len() == pieces@.len());
    }
    let ghost sv = stack_view(old(st).visiting@);
    let ghost dn = memo_paths(old(st).memo@);
    let ghost sp = segs_view(path@);
    if pieces.len() == 0 {
        proof {
            assert(problems_view(st.problems@) + Seq::<ProblemModel>::empty() + Seq::<ProblemModel>::empty()
                =~= problems_view(st.problems@));
        }
        return Ok(Value::String(text.clone()));
    }
    proof {
        if !text@.contains('$') {
            assert(crate::scan::scan_spec(text@).len() == 0);
            assert(crate::scan::pieces_view(pieces@).len() == 0);
        }
        assert(text@.contains('$'));
        assert(!no_dollar(doc.model()));
    }
    if pieces.len() == 1 {
        if let Piece::Ref(body) = &pieces[0] {
            proof {
                assert(crate::scan::pieces_view(pieces@)[0] == pieces@[0]@);
                assert(crate::scan::scan_spec(text@)[0] == crate::scan::PieceModel::Ref(body@));
                assert(crate::scan::scan_spec(text@).contains(PieceModel::Ref(body@)));
            }
            let r = substitute(doc, env, spell, st, body.as_str(), path, Ghost(budget));
            proof {
                assert(whole_ref(crate::scan::scan_spec(text@)));
                let pv0 = scan_spec(text@);
                let c = piece_walk(doc.model(), sv, dn, PieceModel::Ref(body@), budget);
                let w1 = walk_pieces(doc.model(), sv, dn, sp, pv0, 1, budget);
                assert(walk_pieces(doc.model(), sv, dn, sp, pv0, 0, budget) == Walk { sites: Seq::empty(), done: dn, cycle: None });
                assert(pv0[0] == PieceModel::Ref(body@));
                if r is Err {
                    assert(w1.cycle == c.cycle);
                } else {
                    assert(w1.sites =~= c.sites.push((sp, 0)));
                    assert(w1.done == c.done);
                    let rr = memo_lookup(st.memo@);
                    lemma_site_problems_push(doc.model(), env, rr, c.sites, (sp, 0));
                    assert(site_problem(doc.model(), env, rr, (sp, 0)) == piece_problem(doc.model(), env, rr, sp, PieceModel::Ref(body@), true));
                    assert(site_piece(doc.model(), (sp, 0)) == Some(PieceModel::Ref(body@)));
                    lemma_sites_held_push(doc.model(), st.memo@, c.sites, (sp, 0));
                    assert(problems_view(old(st).problems@) + site_problems(doc.model(), env, rr, c.sites) + opt_problem(
                        piece_problem(doc.model(), env, rr, sp, PieceModel::Ref(body@), true),
                    ) + Seq::<ProblemModel>::empty() =~= problems_view(old(st).problems@) + site_problems(doc.model(), env, rr, w1.sites)
                        + Seq::<ProblemModel>::empty());
                }
                if r is Ok {
                    assert forall|k: int| 0 <= k < scan_spec(text@).len() implies #[trigger] piece_reported(
                        doc.model(),
                        env,
                        memo_lookup(st.memo@),
                        segs_view(path@),
                        scan_spec(text@)[k],
                        whole_ref(scan_spec(text@)),
                        st.problems@,
                    ) by {
                        assert(k == 0);
                    }
                }
            }
            return r;
        }
    }
    proof {
        if pieces@.len() == 1 {
            assert(crate::scan::pieces_view(pieces@)[0] == pieces@[0]@);
            assert(!(pieces@[0] is Ref));
            assert(!(crate::scan::scan_spec(text@)[0] is Ref));
        }
    }
    let ghost pv = crate::scan::scan_spec(text@);
    let mut out = String::new();
    let mut i: usize = 0;
    proof {
        assert(pv.take(0) =~= Seq::<crate::scan::PieceModel>::empty());
        assert(!whole_ref(pv));
        assert(problems_view(st.problems@) + site_problems(doc.model(), env, memo_lookup(st.memo@), Seq::empty())
            + Seq::<ProblemModel>::empty() =~= problems_view(st.problems@));
    }
    while i < pieces.len()
        invariant
            i <= pieces@.len(),
            pv == crate::scan::pieces_view(pieces@),
            pv.len() == pieces@.len(),
            state_ok(doc.model(), *st),
            memo_good(doc.model(), env, *st),
            memo_extends(st.memo@, old(st).memo@),
            st.visiting@ == old(st).visiting@,
            budget == unvisited(doc.model(), st.visiting@),
            forall|b: u64| #[trigger] spell.requires((b,)),
            text@.contains('$'),
            !no_dollar(doc.model()),
            all_genuine(doc.model(), env, st.problems@),
            lookup_spec(doc.model(), segs_view(path@)) == Some(ValueModel::String(text@)),
            pv == crate::scan::scan_spec(text@),
            !whole_ref(pv),
            old(st).problems@.len() <= st.problems@.len(),
            problems_extend(st.problems@, old(st).problems@),
            sv == stack_view(old(st).visiting@),
            dn == memo_paths(old(st).memo@),
            sp == segs_view(path@),
            walk_pieces(doc.model(), sv, dn, sp, pv, i as nat, budget).cycle is None,
            followed(doc.model(), env, walk_pieces(doc.model(), sv, dn, sp, pv, i as nat, budget), *old(st), *st, Seq::empty()),
            forall|k: int|
                0 <= k < i ==> #[trigger] piece_reported(
                    doc.model(),
                    env,
                    memo_lookup(st.memo@),
                    segs_view(path@),
                    pv[k],
                    false,
                    st.problems@,
                ),
            chain_ok(doc.model(), st.visiting@),
            st.visiting@.len() > 0 && segs_view(st.visiting@.last()@) == segs_view(path@),
            st.problems@.len() == 0 ==> forall|k: int|
                0 <= k < i ==> #[trigger] piece_clean(doc.model(), env, memo_lookup(st.memo@), pv[k], false),
            refs_held(doc.model(), st.memo@, pv.take(i as int)),
            match pieces_text(doc.model(), env, memo_lookup(st.memo@), pv.take(i as int)) {
                Some(t) => out@ == t,
                None => true,
            },
        decreases pieces.len() - i,
    {
        let ghost before = st.memo@;
        let ghost problems_before = st.problems@;
        let ghost st0 = *st;
        let ghost head = out@;
        let ghost prefix = pv.take(i as int);
        proof {
            assert(pv.take(i + 1).drop_last() =~= prefix);
            assert(pv.take(i + 1).last() == pieces@[i as int]@);
        }
        match &pieces[i] {
            Piece::Literal(t) => {
                push_str(&mut out, t.as_str());
                proof {
                    lemma_refs_held_push(doc.model(), st.memo@, prefix, pieces@[i as int]@);
                    assert(pv.take(i + 1) =~= prefix.push(pieces@[i as int]@));
                    assert(pv[i as int] == PieceModel::Literal(t@));
                    assert(problems_view(st.problems@) + site_problems(doc.model(), env, memo_lookup(st.memo@), Seq::empty())
                        + Seq::<ProblemModel>::empty() =~= problems_view(st.problems@));
                    lemma_pieces_step(doc.model(), env, sv, dn, sp, text@, i as nat, budget, *old(st), st0, *st);
                }
            },
            Piece::Ref(body) => {
                proof {
                    assert(pv[i as int] == PieceModel::Ref(body@));
                    assert(pv.contains(PieceModel::Ref(body@)));
                }
                let spliced = match splice(doc, env, spell, st, body.as_str(), path, Ghost(budget)) {
                    Ok(t) => t,
                    Err(c) => {
                        proof {
                            lemma_pieces_stop(doc.model(), sv, dn, sp, pv, i as nat, budget, c.chain_view());
                        }
                        return Err(c);
                    },
                };
                proof {
                    lemma_extends_trans(st.memo@, before, old(st).memo@);
                    lemma_pieces_step(doc.model(), env, sv, dn, sp, text@, i as nat, budget, *old(st), st0, *st);
                    assert forall|k: int| 0 <= k < i + 1 implies #[trigger] piece_reported(
                        doc.model(),
                        env,
                        memo_lookup(st.memo@),
                        segs_view(path@),
                        pv[k],
                        false,
                        st.problems@,
                    ) by {
                        if k < i {
                            assert(piece_reported(doc.model(), env, memo_lookup(before), segs_view(path@), pv[k], false, problems_before));
                            assert(prefix[k] == pv[k]);
                            assert(target_held(doc.model(), before, pv[k]));
                            lemma_piece_reported_memo(doc.model(), env, st.memo@, before, segs_view(path@), pv[k], false, problems_before);
                            lemma_piece_reported_grows(doc.model(), env, memo_lookup(st.memo@), segs_view(path@), pv[k], false, st.problems@, problems_before);
                        }
                    }
                    if st.problems@.len() == 0 {
                        assert forall|k: int| 0 <= k < i + 1 implies #[trigger] piece_clean(
                            doc.model(),
                            env,
                            memo_lookup(st.memo@),
                            pv[k],
                            false,
                        ) by {
                            if k < i {
                                assert(piece_clean(doc.model(), env, memo_lookup(before), pv[k], false));
                                lemma_piece_clean_extends(doc.model(), env, st.memo@, before, pv[k], false);
                            }
                        }
                    }
                    lemma_pieces_text_extends(doc.model(), env, st.memo@, before, prefix);
                    lemma_refs_held_push(doc.model(), st.memo@, prefix, pieces@[i as int]@);
                    assert(pv.take(i + 1) =~= prefix.push(pieces@[i as int]@));
                }
                push_str(&mut out, spliced.as_str());
            },
            Piece::Malformed { spelling, error } => {
                let ghost old_problems = st.problems@;
                let p = Problem::Syntax { path: clone_segs(path.as_slice()), error: error.clone() };
                proof {
                    assert(pv[i as int] == PieceModel::Malformed { spelling: spelling@, error: error@ });
                    assert(pv.contains(PieceModel::Malformed { spelling: spelling@, error: error@ }));
                    assert(genuine(doc.model(), env, p@));
                }
                st.problems.push(p);
                proof {
                    assert(forall|k: int| 0 <= k < old_problems.len() ==> st.problems@[k] == old_problems[k]);
                    assert(st.problems@[old_problems.len() as int] == p);
                    lemma_memo_reported_grows(doc.model(), env, st.memo@, st.problems@, old_problems);
                    assert(problems_view(st.problems@) =~= problems_view(old_problems) + site_problems(doc.model(), env, memo_lookup(st.memo@), Seq::empty())
                        + seq![p@]);
                    lemma_pieces_step(doc.model(), env, sv, dn, sp, text@, i as nat, budget, *old(st), st0, *st);
                    assert forall|k: int| 0 <= k < i + 1 implies #[trigger] piece_reported(
                        doc.model(),
                        env,
                        memo_lookup(st.memo@),
                        segs_view(path@),
                        pv[k],
                        false,
                        st.problems@,
                    ) by {
                        if k < i {
                            lemma_piece_reported_grows(doc.model(), env, memo_lookup(st.memo@), segs_view(path@), pv[k], false, st.problems@, old_problems);
                        }
                    }
                }
                push_str(&mut out, spelling.as_str());
                proof {
                    lemma_refs_held_push(doc.model(), st.memo@, prefix, pieces@[i as int]@);
                    assert(pv.take(i + 1) =~= prefix.push(pieces@[i as int]@));
                }
            },
        }
        i += 1;
    }
    proof {
        assert(pv.take(pv.len() as int) =~= pv);
    }
    proof {
        if st.problems@.len() == 0 {
            assert forall|k: int| 0 <= k < scan_spec(text@).len() implies #[trigger] piece_clean(
                doc.model(),
                env,
                memo_lookup(st.memo@),
                scan_spec(text@)[k],
                whole_ref(scan_spec(text@)),
            ) by {
                assert(piece_clean(doc.model(), env, memo_lookup(st.memo@), pv[k], false));
            }
        }
    }
    Ok(Value::String(out))
}

/// Whole-string position: the reference is the value, so it takes the
/// referent's type. Containers are allowed here; an environment value is
/// terminal and never re-scanned.
fn substitute<E: Env, F: Fn(u64) -> String>(
    doc: &Value,
    env: &E,
    spell: &F,
    st: &mut State,
    body: &str,
    path: &Vec<Seg>,
    Ghost(budget): Ghost<nat>,
) -> (r: Result<Value, Cycle>)
    requires
        chain_ok(doc.model(), old(st).visiting@),
        old(st).visiting@.len() > 0 && segs_view(old(st).visiting@.last()@) == segs_view(path@),
        all_genuine(doc.model(), env, old(st).problems@),
        site(doc.model(), segs_view(path@), body@),
        state_ok(doc.model(), *old(st)),
        memo_good(doc.model(), env, *old(st)),
        budget == unvisited(doc.model(), old(st).visiting@),
        forall|b: u64| #[trigger] spell.requires((b,)),
        !no_dollar(doc.model()),
    ensures
        all_genuine(doc.model(), env, final(st).problems@),
        old(st).problems@.len() <= final(st).problems@.len(),
        r is Ok && final(st).problems@.len() == 0 ==> piece_clean(doc.model(), env, memo_lookup(final(st).memo@), PieceModel::Ref(body@), true),
        problems_extend(final(st).problems@, old(st).problems@),
        r is Ok ==> piece_reported(
            doc.model(),
            env,
            memo_lookup(final(st).memo@),
            segs_view(path@),
            PieceModel::Ref(body@),
            true,
            final(st).problems@,
        ),
        r is Err ==> dependency_cycle(doc.model(), r->Err_0.chain_view()),
        r is Err ==> simple_cycle(r->Err_0.chain_view()),
        r is Ok ==> {
            &&& state_ok(doc.model(), *final(st))
            &&& memo_good(doc.model(), env, *final(st))
            &&& memo_extends(final(st).memo@, old(st).memo@)
            &&& final(st).visiting@ == old(st).visiting@
            &&& match env_ref(body@) {
                Some(name) => name.len() > 0 && env.var(name) is Some ==> r->Ok_0.model() == env.var(name)->Some_0.1,
                None => parse_path(body@) is Ok && lookup_spec(doc.model(), parse_path(body@)->Ok_0) is Some
                    ==> memo_holds(final(st).memo@, parse_path(body@)->Ok_0, r->Ok_0.model()),
            }
        },
        r is Err ==> piece_walk(doc.model(), stack_view(old(st).visiting@), memo_paths(old(st).memo@), PieceModel::Ref(body@), budget).cycle
            == Some(r->Err_0.chain_view()),
        r is Ok ==> followed(
            doc.model(),
            env,
            piece_walk(doc.model(), stack_view(old(st).visiting@), memo_paths(old(st).memo@), PieceModel::Ref(body@), budget),
            *old(st),
            *final(st),
            opt_problem(piece_problem(doc.model(), env, memo_lookup(final(st).memo@), segs_view(path@), PieceModel::Ref(body@), true)),
        ),
        r is Ok ==> target_held(doc.model(), final(st).memo@, PieceModel::Ref(body@)),
    decreases budget, 1nat,
{
    let ghost problems0 = st.problems@;
    if let Some(name) = env_name(body) {
        let found = env_value(env, st, name.as_str(), body, path, Ghost(doc.model()));
        proof {
            lemma_memo_reported_grows(doc.model(), env, st.memo@, st.problems@, problems0);
        }
        return Ok(
            match found {
                Some(found) => found.typed,
                None => Value::String(Spelled(owned(body)).to_string()),
            },
        );
    }
    match target(doc, env, st, body, path) {
        Some(t) => {
            proof {
                lemma_site_depends(doc.model(), segs_view(path@), body@, segs_view(t@));
            }
            let r = resolve(doc, env, spell, st, &t, Ghost(budget));
            proof {
                if r is Ok {
                    lemma_parsed_is_plain(body@);
                    assert(piece_target(doc.model(), PieceModel::Ref(body@)) == Some(segs_view(t@)));
                    lemma_target_held(doc.model(), st.memo@, PieceModel::Ref(body@), segs_view(t@), r->Ok_0.model());
                }
            }
            r
        },
        None => {
            proof {
                lemma_memo_reported_grows(doc.model(), env, st.memo@, st.problems@, problems0);
            }
            Ok(Value::String(Spelled(owned(body)).to_string()))
        },
    }
}

/// Embedded position: the reference joins surrounding text, so it renders.
/// An environment value splices its raw text.
#[verifier::spinoff_prover]
#[verifier::rlimit(100)]
fn splice<E: Env, F: Fn(u64) -> String>(
    doc: &Value,
    env: &E,
    spell: &F,
    st: &mut State,
    body: &str,
    path: &Vec<Seg>,
    Ghost(budget): Ghost<nat>,
) -> (r: Result<String, Cycle>)
    requires
        chain_ok(doc.model(), old(st).visiting@),
        old(st).visiting@.len() > 0 && segs_view(old(st).visiting@.last()@) == segs_view(path@),
        all_genuine(doc.model(), env, old(st).problems@),
        site(doc.model(), segs_view(path@), body@),
        !whole_ref(scan_spec(lookup_spec(doc.model(), segs_view(path@))->Some_0->String_0)),
        state_ok(doc.model(), *old(st)),
        memo_good(doc.model(), env, *old(st)),
        budget == unvisited(doc.model(), old(st).visiting@),
        forall|b: u64| #[trigger] spell.requires((b,)),
        !no_dollar(doc.model()),
    ensures
        all_genuine(doc.model(), env, final(st).problems@),
        old(st).problems@.len() <= final(st).problems@.len(),
        r is Ok && final(st).problems@.len() == 0 ==> piece_clean(doc.model(), env, memo_lookup(final(st).memo@), PieceModel::Ref(body@), false),
        problems_extend(final(st).problems@, old(st).problems@),
        r is Ok ==> piece_reported(
            doc.model(),
            env,
            memo_lookup(final(st).memo@),
            segs_view(path@),
            PieceModel::Ref(body@),
            false,
            final(st).problems@,
        ),
        r is Err ==> dependency_cycle(doc.model(), r->Err_0.chain_view()),
        r is Err ==> simple_cycle(r->Err_0.chain_view()),
        r is Ok ==> {
            &&& state_ok(doc.model(), *final(st))
            &&& memo_good(doc.model(), env, *final(st))
            &&& memo_extends(final(st).memo@, old(st).memo@)
            &&& final(st).visiting@ == old(st).visiting@
        },
        r is Ok ==> target_held(doc.model(), final(st).memo@, crate::scan::PieceModel::Ref(body@)),
        r is Ok ==> match piece_text(doc.model(), env, memo_lookup(final(st).memo@), crate::scan::PieceModel::Ref(body@)) {
            Some(t) => r->Ok_0@ == t,
            None => true,
        },
        r is Err ==> piece_walk(doc.model(), stack_view(old(st).visiting@), memo_paths(old(st).memo@), PieceModel::Ref(body@), budget).cycle
            == Some(r->Err_0.chain_view()),
        r is Ok ==> followed(
            doc.model(),
            env,
            piece_walk(doc.model(), stack_view(old(st).visiting@), memo_paths(old(st).memo@), PieceModel::Ref(body@), budget),
            *old(st),
            *final(st),
            opt_problem(piece_problem(doc.model(), env, memo_lookup(final(st).memo@), segs_view(path@), PieceModel::Ref(body@), false)),
        ),
    decreases budget, 1nat,
{
    let ghost problems0 = st.problems@;
    if let Some(name) = env_name(body) {
        let text = match env_value(env, st, name.as_str(), body, path, Ghost(doc.model())) {
            Some(found) => found.raw,
            None => Spelled(owned(body)).to_string(),
        };
        proof {
            lemma_memo_reported_grows(doc.model(), env, st.memo@, st.problems@, problems0);
            assert(env_ref(body@) is Some);
            assert(piece_target(doc.model(), crate::scan::PieceModel::Ref(body@)) is None);
        }
        return Ok(text);
    }
    proof {
        assert(env_ref(body@) is None);
    }
    let t = match target(doc, env, st, body, path) {
        Some(t) => t,
        None => {
            proof {
                lemma_memo_reported_grows(doc.model(), env, st.memo@, st.problems@, problems0);
                assert(piece_target(doc.model(), crate::scan::PieceModel::Ref(body@)) is None);
                assert(piece_text(doc.model(), env, memo_lookup(st.memo@), crate::scan::PieceModel::Ref(body@)) is None);
            }
            return Ok(Spelled(owned(body)).to_string());
        },
    };
    proof {
        lemma_site_depends(doc.model(), segs_view(path@), body@, segs_view(t@));
    }
    let ghost st_before = *st;
    let value = match resolve(doc, env, spell, st, &t, Ghost(budget)) {
        Ok(v) => v,
        Err(c) => {
            return Err(c);
        },
    };
    let ghost st_after = *st;
    proof {
        let q = segs_view(t@);
        assert(memo_holds(st.memo@, q, value.model()));
        lemma_lookup_stable(st.memo@, st.memo@, q);
        lemma_holds_unique(st.memo@, q, value.model(), memo_lookup(st.memo@)(q)->Some_0);
        assert(memo_lookup(st.memo@)(q) == Some(value.model()));
        assert(env_ref(body@) is None);
        assert(parse_path(body@) is Ok && parse_path(body@)->Ok_0 == q);
        assert(piece_target(doc.model(), crate::scan::PieceModel::Ref(body@)) == Some(q));
        assert(piece_text(doc.model(), env, memo_lookup(st.memo@), crate::scan::PieceModel::Ref(body@)) == splice_text(
            value.model(),
        ));
    }
    match stringify(&value, spell) {
        Some(text) => {
            proof {
                let v = value.model();
                if is_float(v) {
                    assert(v is Number && v->Number_0 is F64);
                } else {
                    assert(splice_text(v) == stringify_spec(v));
                }
                assert(match piece_text(doc.model(), env, memo_lookup(st.memo@), crate::scan::PieceModel::Ref(body@)) {
                    Some(t) => text@ == t,
                    None => true,
                });
                assert(memo_holds(st.memo@, segs_view(t@), value.model()));
                let ghost q = segs_view(t@);
                assert(piece_target(doc.model(), crate::scan::PieceModel::Ref(body@)) == Some(q));
                assert(memo_holds(st.memo@, q, value.model()));
                lemma_target_held(doc.model(), st.memo@, crate::scan::PieceModel::Ref(body@), q, value.model());
                assert(!unspliceable(value.model()));
                assert(piece_problem(doc.model(), env, memo_lookup(st.memo@), segs_view(path@), PieceModel::Ref(body@), false) is None);
                assert(problems_view(st.problems@) + Seq::<ProblemModel>::empty() =~= problems_view(st.problems@));
            }
            Ok(text)
        },
        None => {
            proof {
                let v = value.model();
                assert(!is_float(v));
                assert(splice_text(v) == stringify_spec(v));
                assert(splice_text(v) is None);
            }
            let ghost memo_now = st.memo@;
            let ghost problems1 = st.problems@;
            let problem = Problem::NotStringifiable {
                path: clone_segs(path.as_slice()),
                reference: owned(body),
                kind: value.kind(),
            };
            st.problems.push(problem);
            proof {
                assert(forall|k: int| 0 <= k < problems1.len() ==> st.problems@[k] == problems1[k]);
                assert(st.problems@[problems1.len() as int] == problem);
                lemma_memo_reported_grows(doc.model(), env, st.memo@, st.problems@, problems1);
                let ghost sq = segs_view(t@);
                let ghost s = lookup_spec(doc.model(), segs_view(path@))->Some_0->String_0;
                let ghost k = choose|k: int| 0 <= k < scan_spec(s).len() && scan_spec(s)[k] == PieceModel::Ref(body@);
                lemma_lookup_stable(st.memo@, st.memo@, sq);
                lemma_holds_unique(st.memo@, sq, value.model(), memo_lookup(st.memo@)(sq)->Some_0);
                assert(memo_lookup(st.memo@)(sq) == Some(value.model()));
                assert(problem@.path() == segs_view(path@));
                lemma_from_piece_at(doc.model(), env, memo_lookup(st.memo@), s, k, problem@);
                assert(memo_holds(st.memo@, sq, value.model()));
                lemma_sourced_push(doc.model(), env, st.memo@, problems1, problem);
                assert(st.memo@ == memo_now);
                assert(memo_holds(st.memo@, segs_view(t@), value.model()));
                let ghost q = segs_view(t@);
                assert(piece_target(doc.model(), crate::scan::PieceModel::Ref(body@)) == Some(q));
                assert(memo_holds(st.memo@, q, value.model()));
                lemma_target_held(doc.model(), st.memo@, crate::scan::PieceModel::Ref(body@), q, value.model());
                assert(piece_problem(doc.model(), env, memo_lookup(st.memo@), segs_view(path@), PieceModel::Ref(body@), false)
                    == Some(problem@));
                assert(problems_view(st.problems@) =~= problems_view(problems1) + seq![problem@]);
            }
            Ok(Spelled(owned(body)).to_string())
        },
    }
}

/// What interpolating `doc` against `env` comes to. Success keeps the
/// document's shape, resolves every reference, and happens only for a clean
/// document in which no node needs itself: its nodes can be listed each
/// after every node it needs ([`resolution_order`]). A problem report holds only real
/// problems; and, referents resolved as in a resolution of the document
/// that keeps its shape and resolves its references, it holds every problem
/// of every string, the document itself included when it is one
/// ([`all_reported`]), and nothing that is not
/// the problem of some piece of such a string ([`all_from_pieces`]);
/// exactly, it lists the problems of the places the walk of resolution
/// ([`resolution_walk`]) passes, in the order it passes them, each once. A
/// cycle report is the cycle that walk stops at, from where its first node
/// stands on the stack of nodes being resolved, and holds a
/// real cycle, along which no node repeats but the one that closes it. A
/// document with no `$` comes back unchanged, and one whose
/// references are all sound and acyclic fails, if at all, only on a
/// container or null spliced into text.
pub open spec fn interpolation_outcome<E: Env>(doc: ValueModel, env: &E, r: Result<Value, InterpError>) -> bool {
    &&& match r {
        Ok(v) => preserved(doc, v.model()) && references_resolved(doc, env, v.model()) && document_clean(
            doc,
            env,
            v.model(),
        ) && (forall|c: Seq<Seq<SegModel>>| !#[trigger] dependency_cycle(doc, c)) && exists|order: Seq<Seq<SegModel>>|
            #[trigger] resolution_order(doc, order),
        Err(InterpError::Problems(ps)) => {
            &&& ps@.len() > 0
            &&& all_genuine(doc, env, ps@)
            &&& exists|v: ValueModel|
                preserved(doc, v) && references_resolved(doc, env, v) && #[trigger] all_reported(
                    doc,
                    env,
                    node_of(v),
                    ps@,
                ) && all_from_pieces(doc, env, node_of(v), ps@) && problems_view(ps@) == site_problems(
                    doc,
                    env,
                    node_of(v),
                    resolution_walk(doc).sites,
                )
        },
        Err(InterpError::Cycle(c)) => dependency_cycle(doc, c.chain_view()) && simple_cycle(c.chain_view())
            && resolution_walk(doc).cycle == Some(c.chain_view()),
    }
    &&& no_dollar(doc) ==> (r matches Ok(v) && v.model() == doc)
    &&& references_sound(doc, env) && (forall|c: Seq<Seq<SegModel>>| !#[trigger] dependency_cycle(doc, c)) ==> match r {
        Ok(_) => true,
        Err(InterpError::Cycle(_)) => false,
        Err(InterpError::Problems(ps)) => forall|i: int| 0 <= i < ps@.len() ==> (#[trigger] ps@[i])@ is NotStringifiable,
    }
}

/// Resolves every reference in `doc`.
///
/// A referent is read in its pre-substitution form whatever order the
/// document is walked in, and each node is resolved at most once. Every
/// unresolved reference and every malformed one is collected; a cycle
/// returns alone. Finite floats embedded in text are spelled by `spell`,
/// given their bits.
///
/// What comes back keeps the document's shape, and every string (the
/// document itself, when it is one) is what its references make it
/// ([`references_resolved`]); a
/// document with no `$` in it comes back unchanged. Success means the
/// document was clean ([`document_clean`]): no malformed reference, none
/// that names nothing, none that splices a container or a null into text —
/// and that no node needs itself ([`dependency_cycle`]). Every problem
/// reported is a real one ([`genuine`]), at the string that holds it; a
/// report holds every problem of every string ([`all_reported`]) and only
/// those ([`all_from_pieces`]), in the order resolution reaches them
/// ([`resolution_walk`]); and a reported cycle is the real dependency cycle
/// resolution runs into, from the node it entered first.
pub fn interpolate<E: Env, F: Fn(u64) -> String>(doc: Value, env: &E, spell: &F) -> (r: Result<Value, InterpError>)
    requires
        doc.model().well_formed(),
        forall|b: u64| #[trigger] spell.requires((b,)),
    ensures
        interpolation_outcome(doc.model(), env, r),
{
    let mut st = State { memo: Vec::new(), visiting: Vec::new(), problems: Vec::new() };
    proof {
        assert(all_genuine(doc.model(), env, st.problems@));
    }
    let root: Vec<Seg> = Vec::new();
    proof {
        lemma_paths_finite(doc.model());
        assert(segs_view(root@) =~= Seq::<SegModel>::empty());
    }
    let ghost b0 = unvisited(doc.model(), st.visiting@);
    let ghost st_start = st;
    proof {
        assert(visit_set(st.visiting@) =~= Set::<Seq<SegModel>>::empty());
        assert(paths(doc.model()).difference(visit_set(st.visiting@)) =~= paths(doc.model()));
        assert(stack_view(st.visiting@) =~= Seq::<Seq<SegModel>>::empty());
        assert(memo_paths(st.memo@) =~= Set::<Seq<SegModel>>::empty());
        assert(walk(doc.model(), stack_view(st.visiting@), memo_paths(st.memo@), segs_view(root@), b0) == resolution_walk(doc.model()));
    }
    let resolved = match resolve(&doc, env, spell, &mut st, &root, Ghost(b0)) {
        Ok(v) => v,
        Err(c) => {
            return Err(InterpError::Cycle(c));
        },
    };
    proof {
        let d = doc.model();
        let v = resolved.model();
        assert forall|p: Seq<SegModel>| #[trigger] references_resolved_at(d, env, v, p) by {
            if p.len() == 0 {
                lemma_root_resolved(d, env, st.memo@, v);
            } else if let Some(ValueModel::String(s)) = lookup_spec(d, p) {
                let pieces = crate::scan::scan_spec(s);
                if !(pieces.len() == 1 && pieces[0] is Ref) && pieces.len() > 0 {
                    lemma_output_is_memo(d, env, st.memo@, v, p);
                    let xp = choose|x: ValueModel| memo_holds(st.memo@, p, x) && lookup_spec(v, p) == Some(x);
                    let i = choose|i: int|
                        0 <= i < st.memo@.len() && segs_view((#[trigger] st.memo@[i]).0@) == p && st.memo@[i].1.model() == xp;
                    assert(assembled(d, env, st.memo@, p, xp));
                    lemma_pieces_text_output(d, env, st.memo@, v, pieces);
                }
                if pieces.len() == 1 && pieces[0] is Ref {
                    lemma_output_is_memo(d, env, st.memo@, v, p);
                    let xp = choose|x: ValueModel| memo_holds(st.memo@, p, x) && lookup_spec(v, p) == Some(x);
                    let i = choose|i: int|
                        0 <= i < st.memo@.len() && segs_view((#[trigger] st.memo@[i]).0@) == p && st.memo@[i].1.model() == xp;
                    assert(assembled(d, env, st.memo@, p, xp));
                    let body = pieces[0]->Ref_0;
                    if env_ref(body) is None && parse_path(body) is Ok {
                        let q = parse_path(body)->Ok_0;
                        if lookup_spec(d, q) is Some {
                            assert(memo_holds(st.memo@, q, xp));
                            lemma_output_is_memo(d, env, st.memo@, v, q);
                            let xq = choose|x: ValueModel| memo_holds(st.memo@, q, x) && lookup_spec(v, q) == Some(x);
                            let a = choose|a: int|
                                0 <= a < st.memo@.len() && segs_view((#[trigger] st.memo@[a]).0@) == q && st.memo@[a].1.model() == xp;
                            let b = choose|b: int|
                                0 <= b < st.memo@.len() && segs_view((#[trigger] st.memo@[b]).0@) == q && st.memo@[b].1.model() == xq;
                            if a < b {
                                assert(segs_view(st.memo@[a].0@) != segs_view(st.memo@[b].0@));
                            } else if b < a {
                                assert(segs_view(st.memo@[b].0@) != segs_view(st.memo@[a].0@));
                            }
                        }
                    }
                }
            }
        }
    }
    proof {
        if no_dollar(doc.model()) {
            lemma_preserved_no_dollar(doc.model(), resolved.model());
        }
    }
    if st.problems.len() == 0 {
        proof {
            let d = doc.model();
            let v = resolved.model();
            assert(memo_clean(d, env, st.memo@));
            assert forall|p: Seq<SegModel>|
                (#[trigger] lookup_spec(d, p)) is Some && lookup_spec(d, p)->Some_0 is String implies string_clean(
                d,
                env,
                node_of(v),
                lookup_spec(d, p)->Some_0->String_0,
            ) by {
                let s = lookup_spec(d, p)->Some_0->String_0;
                if p.len() == 0 {
                    assert(segs_view(root@) == p);
                    lemma_clean_output(d, env, st.memo@, v, s);
                } else {
                    lemma_output_is_memo(d, env, st.memo@, v, p);
                    let x = choose|x: ValueModel| memo_holds(st.memo@, p, x) && lookup_spec(v, p) == Some(x);
                    let i = choose|i: int|
                        0 <= i < st.memo@.len() && segs_view((#[trigger] st.memo@[i]).0@) == p && st.memo@[i].1.model() == x;
                    assert(match lookup_spec(d, segs_view(st.memo@[i].0@)) {
                        Some(ValueModel::String(s)) => string_clean(d, env, memo_lookup(st.memo@), s),
                        _ => true,
                    });
                    lemma_clean_output(d, env, st.memo@, v, s);
                }
            }
            assert forall|p: Seq<SegModel>|
                p.len() > 0 && (#[trigger] lookup_spec(d, p)) is Some implies exists|i: int|
                    0 <= i < st.memo@.len() && segs_view((#[trigger] st.memo@[i]).0@) == p by {
                lemma_output_is_memo(d, env, st.memo@, v, p);
                let x = choose|x: ValueModel| memo_holds(st.memo@, p, x) && lookup_spec(v, p) == Some(x);
            }
            assert forall|c: Seq<Seq<SegModel>>| !#[trigger] dependency_cycle(d, c) by {
                lemma_no_cycle(d, st.memo@, c);
            }
            let order = Seq::new(st.memo@.len(), |i: int| segs_view(st.memo@[i].0@));
            assert forall|i: int| 0 <= i < order.len() implies (#[trigger] order[i]).len() > 0 && lookup_spec(d, order[i]) is Some by {
                assert(segs_view(st.memo@[i].0@) == order[i]);
            }
            assert forall|p: Seq<SegModel>|
                p.len() > 0 && (#[trigger] lookup_spec(d, p)) is Some implies exists|i: int| 0 <= i < order.len() && #[trigger] order[i] == p by {
                let i = choose|i: int| 0 <= i < st.memo@.len() && segs_view((#[trigger] st.memo@[i]).0@) == p;
                assert(order[i] == p);
            }
            assert forall|i: int, q: Seq<SegModel>|
                0 <= i < order.len() && #[trigger] depends(d, order[i], q) implies exists|j: int| 0 <= j < i && #[trigger] order[j] == q by {
                assert(depends(d, segs_view(st.memo@[i].0@), q));
                let j = choose|j: int| 0 <= j < i && segs_view((#[trigger] st.memo@[j]).0@) == q;
                assert(order[j] == q);
            }
            assert(resolution_order(d, order));
        }
        Ok(resolved)
    } else {
        proof {
            let d = doc.model();
            let v = resolved.model();
            assert forall|p: Seq<SegModel>|
                (#[trigger] lookup_spec(d, p)) is Some && lookup_spec(d, p)->Some_0 is String implies string_reported(
                d,
                env,
                node_of(v),
                p,
                lookup_spec(d, p)->Some_0->String_0,
                st.problems@,
            ) by {
                let s = lookup_spec(d, p)->Some_0->String_0;
                if p.len() == 0 {
                    assert(segs_view(root@) == p);
                    lemma_reported_output(d, env, st.memo@, v, p, s, st.problems@);
                } else {
                    lemma_output_is_memo(d, env, st.memo@, v, p);
                    let x = choose|x: ValueModel| memo_holds(st.memo@, p, x) && lookup_spec(v, p) == Some(x);
                    let i = choose|i: int|
                        0 <= i < st.memo@.len() && segs_view((#[trigger] st.memo@[i]).0@) == p && st.memo@[i].1.model() == x;
                    assert(match lookup_spec(d, segs_view(st.memo@[i].0@)) {
                        Some(ValueModel::String(s)) => string_reported(d, env, memo_lookup(st.memo@), segs_view(st.memo@[i].0@), s, st.problems@),
                        _ => true,
                    });
                    lemma_reported_output(d, env, st.memo@, v, p, s, st.problems@);
                }
            }
            assert(all_reported(d, env, node_of(v), st.problems@));
            let w = resolution_walk(d);
            lemma_site_problems_output(d, env, st.memo@, v, w.sites);
            assert(problems_view(st_start.problems@) =~= Seq::<ProblemModel>::empty());
            assert(problems_view(st.problems@) =~= site_problems(d, env, node_of(v), w.sites));
            assert forall|j: int| 0 <= j < st.problems@.len() implies #[trigger] from_a_piece(d, env, node_of(v), st.problems@[j]@) by {
                assert(from_a_piece(d, env, memo_lookup(st.memo@), st.problems@[j]@));
                lemma_from_piece_output(d, env, st.memo@, v, st.problems@[j]@);
            }
            if references_sound(doc.model(), env) {
                assert forall|i: int| 0 <= i < st.problems@.len() implies (#[trigger] st.problems@[i])@ is NotStringifiable by {
                    assert(genuine(doc.model(), env, st.problems@[i]@));
                    lemma_sound_problems(doc.model(), env, st.problems@[i]@);
                }
            }
        }
        Err(InterpError::Problems(st.problems))
    }
}

} // verus!
