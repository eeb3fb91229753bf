//! `key.path=value` expressions: the one inline-layer spelling.
//!
//! [`PathLeaf`] pairs a [`RefPath`] with a leaf value. The path is always
//! typed; the leaf type `V` is chosen by the caller. Parsing a
//! [`PathLeaf<String>`] keeps the right-hand side raw; typing it is the
//! caller's business, through [`PathLeaf::map_leaf`].
//!
//! [`PathLeaf::into_value`] expands a `PathLeaf<Value>` to a nested object:
//! `server.port=8080` → `{"server":{"port":8080}}`.

use vstd::prelude::*;
use crate::path::{
    all_keys, fault_error, joined, keys_view, law_parsed_paths_survive_rendering, lemma_parsed_keys_from,
    lemma_rendered_avoids, parse_path, rendered, segs_view, ParseFault, PathError, PathFailure, RefPath, Seg,
    SegModel,
};
use crate::text::{chars_of, eq_index, eq_position, lemma_eq_index_after, lemma_eq_index_bounds, push_str, string_from};
use crate::value::{entries_model, lemma_object_model, Value, ValueModel};

verus! {

/// A leaf value addressed by a parsed path.
///
/// The grammar accepts bracket steps — `a[0]=1` parses — because it is the
/// one spelling references also use. Whether such a path may *write* is
/// asked at conversion time.
#[derive(Debug)]
pub struct PathLeaf<V> {
    path: RefPath,
    leaf: V,
}

/// The text before the first `=`.
pub open spec fn lhs_of(expr: Seq<char>) -> Seq<char> {
    expr.take(eq_index(expr))
}

/// The text after the first `=`.
pub open spec fn rhs_of(expr: Seq<char>) -> Seq<char> {
    expr.skip(eq_index(expr) + 1)
}

/// The leaf nested under every key, innermost last: `a.b=1` is
/// `{"a":{"b":1}}`.
pub open spec fn nested(keys: Seq<Seq<char>>, leaf: ValueModel) -> ValueModel
    decreases keys.len(),
{
    if keys.len() == 0 {
        leaf
    } else {
        ValueModel::Object(seq![(keys[0], nested(keys.drop_first(), leaf))])
    }
}

/// The keys of an all-key path.
pub open spec fn path_keys(path: Seq<SegModel>) -> Seq<Seq<char>> {
    path.map_values(|s: SegModel| s->Key_0)
}

impl<V> PathLeaf<V> {
    /// The path's steps.
    pub closed spec fn path_view(&self) -> Seq<SegModel> {
        self.path@
    }

    /// The leaf.
    pub closed spec fn leaf_view(&self) -> V {
        self.leaf
    }

    /// Build from path segments and a leaf. Rejects an empty path or any
    /// empty segment.
    pub fn new(path: Vec<String>, leaf: V) -> (r: Result<Self, PathError>)
        ensures
            path@.len() == 0 ==> r is Err && r->Err_0@ == PathFailure::EmptyPath,
            path@.len() > 0 && (exists|i: int| 0 <= i < path@.len() && path@[i]@.len() == 0)
                ==> r is Err && r->Err_0@ == PathFailure::EmptySegment(joined(keys_view(path@))),
            path@.len() > 0 && (forall|i: int| 0 <= i < path@.len() ==> path@[i]@.len() > 0) ==> r is Ok
                && r->Ok_0.path_view() == keys_view(path@).map_values(|k: Seq<char>| SegModel::Key(k))
                && r->Ok_0.leaf_view() == leaf,
    {
        match RefPath::from_keys(path) {
            Ok(path) => Ok(PathLeaf { path, leaf }),
            Err(e) => Err(e),
        }
    }

    /// The path as steps. May hold index steps from the grammar; consumers
    /// that write check for them.
    pub fn path(&self) -> (r: &[Seg])
        ensures
            segs_view(r@) == self.path_view(),
    {
        self.path.segs()
    }

    /// The right-hand side, not yet wrapped in nested objects.
    pub fn leaf(&self) -> (r: &V)
        ensures
            *r == self.leaf_view(),
    {
        &self.leaf
    }

    /// Replace the leaf, keeping the path. The path is already valid, so
    /// this cannot fail the way [`new`](Self::new) can.
    pub fn map_leaf<T, F: FnOnce(V) -> T>(self, f: F) -> (r: PathLeaf<T>)
        requires
            f.requires((self.leaf_view(),)),
        ensures
            r.path_view() == self.path_view(),
            f.ensures((self.leaf_view(),), r.leaf_view()),
    {
        let leaf = f(self.leaf);
        PathLeaf { path: self.path, leaf }
    }

    /// [`map_leaf`](Self::map_leaf) when the conversion can fail.
    pub fn try_map_leaf<T, E, F: FnOnce(V) -> Result<T, E>>(self, f: F) -> (r: Result<PathLeaf<T>, E>)
        requires
            f.requires((self.leaf_view(),)),
        ensures
            match r {
                Ok(p) => p.path_view() == self.path_view() && f.ensures((self.leaf_view(),), Ok::<T, E>(p.leaf_view())),
                Err(e) => f.ensures((self.leaf_view(),), Err::<T, E>(e)),
            },
    {
        match f(self.leaf) {
            Ok(leaf) => Ok(PathLeaf { path: self.path, leaf }),
            Err(e) => Err(e),
        }
    }
}

impl PathLeaf<String> {
    /// Parses `key.path=value`, splitting on the first `=` so the value may
    /// hold more of them. The path is a [`RefPath`]; the value is kept raw.
    pub fn parse(expr: &str) -> (r: Result<Self, PathError>)
        ensures
            eq_index(expr@) < 0 ==> r is Err && r->Err_0@ == PathFailure::MissingEquals,
            eq_index(expr@) >= 0 && parse_path(lhs_of(expr@)) is Err ==> r is Err && r->Err_0@ == fault_error(
                parse_path(lhs_of(expr@))->Err_0,
                lhs_of(expr@),
            ),
            eq_index(expr@) >= 0 && parse_path(lhs_of(expr@)) is Ok ==> r is Ok && r->Ok_0.path_view()
                == parse_path(lhs_of(expr@))->Ok_0 && r->Ok_0.leaf_view()@ == rhs_of(expr@),
    {
        match eq_position(expr) {
            None => Err(PathError::MissingEquals),
            Some(p) => {
                let chars = chars_of(expr);
                assert(chars@ == expr@);
                let lhs = string_from(chars.as_slice(), 0, p);
                let rhs = string_from(chars.as_slice(), p + 1, chars.len());
                proof {
                    assert(lhs@ =~= lhs_of(expr@));
                    assert(rhs@ =~= rhs_of(expr@));
                }
                match RefPath::parse(lhs.as_str()) {
                    Ok(path) => Ok(PathLeaf { path, leaf: rhs }),
                    Err(e) => Err(e),
                }
            },
        }
    }

    /// `Display`: the rendered path, `=`, and the raw value.
    pub fn to_string(&self) -> (out: String)
        ensures
            out@ == rendered(self.path_view()) + "="@ + self.leaf_view()@,
    {
        let mut out = self.path.to_string();
        push_str(&mut out, "=");
        push_str(&mut out, self.leaf.as_str());
        out
    }
}

impl std::str::FromStr for PathLeaf<String> {
    type Err = PathError;

    fn from_str(expr: &str) -> (r: Result<Self, Self::Err>)
        ensures
            eq_index(expr@) < 0 ==> r is Err && r->Err_0@ == PathFailure::MissingEquals,
            eq_index(expr@) >= 0 && parse_path(lhs_of(expr@)) is Err ==> r is Err && r->Err_0@ == fault_error(
                parse_path(lhs_of(expr@))->Err_0,
                lhs_of(expr@),
            ),
            eq_index(expr@) >= 0 && parse_path(lhs_of(expr@)) is Ok ==> r is Ok && r->Ok_0.path_view()
                == parse_path(lhs_of(expr@))->Ok_0 && r->Ok_0.leaf_view()@ == rhs_of(expr@),
    {
        PathLeaf::parse(expr)
    }
}

impl PathLeaf<Value> {
    /// Expands to a nested object. Fallible because the grammar accepts
    /// bracket steps (`a[0]=1` parses) that a writer cannot use: an index
    /// never reaches the expansion.
    pub fn into_value(self) -> (r: Result<Value, PathError>)
        ensures
            all_keys(self.path_view()) ==> r is Ok && r->Ok_0.model() == nested(
                path_keys(self.path_view()),
                self.leaf_view().model(),
            ),
            !all_keys(self.path_view()) ==> r is Err && r->Err_0@ == PathFailure::IndexInKeyPath(
                rendered(self.path_view()),
            ),
    {
        let ghost steps = self.path@;
        let ghost leaf_model = self.leaf.model();
        let mut keys = match self.path.try_into_keys() {
            Ok(keys) => keys,
            Err(e) => return Err(e),
        };
        let ghost all = keys_view(keys@);
        proof {
            assert(all =~= path_keys(steps));
            assert(all.skip(all.len() as int) =~= Seq::<Seq<char>>::empty());
        }
        let mut acc = self.leaf;
        while keys.len() > 0
            invariant
                keys@.len() <= all.len(),
                keys_view(keys@) == all.take(keys@.len() as int),
                acc.model() == nested(all.skip(keys@.len() as int), leaf_model),
            decreases keys.len(),
        {
            let ghost n = keys@.len();
            let key = keys.pop().unwrap();
            let ghost k = key@;
            proof {
                assert(all.take(n as int)[n - 1] == k);
                assert(all[n - 1] == k);
                assert(keys_view(keys@) =~= all.take(n - 1));
            }
            let ghost prev = acc.model();
            let mut entries: Vec<(String, Value)> = Vec::new();
            entries.push((key, acc));
            proof {
                lemma_object_model(entries);
                assert(entries_model(entries@) =~= seq![(k, prev)]);
                let rest = all.skip(n as int);
                assert(all.skip(n - 1).drop_first() =~= rest);
                assert(all.skip(n - 1)[0] == k);
                assert(nested(all.skip(n - 1), leaf_model) == ValueModel::Object(seq![(k, nested(rest, leaf_model))]));
            }
            acc = Value::Object(entries);
        }
        proof {
            assert(all.skip(0) =~= all);
        }
        Ok(acc)
    }
}

/// Displaying a parsed expression and parsing the display gives the same
/// path and the same raw value back: `FromStr` after `Display` is the
/// identity on whatever `FromStr` produces, whatever spelling it read.
pub proof fn law_display_then_parse_is_identity(expr: Seq<char>)
    requires
        eq_index(expr) >= 0,
        parse_path(lhs_of(expr)) is Ok,
    ensures
        ({
            let path = parse_path(lhs_of(expr))->Ok_0;
            let shown = rendered(path) + "="@ + rhs_of(expr);
            &&& eq_index(shown) >= 0
            &&& parse_path(lhs_of(shown)) == Ok::<Seq<SegModel>, ParseFault>(path)
            &&& rhs_of(shown) == rhs_of(expr)
        }),
{
    reveal_strlit("=");
    let lhs = lhs_of(expr);
    let path = parse_path(lhs)->Ok_0;
    lemma_eq_index_bounds(expr);
    lemma_parsed_keys_from(lhs);
    assert forall|i: int, j: int|
        0 <= i < path.len() && path[i] is Key && 0 <= j < path[i]->Key_0.len() implies #[trigger] path[i]->Key_0[j]
        != '=' by {
        let c = path[i]->Key_0[j];
        let k = choose|k: int| 0 <= k < lhs.len() && lhs[k] == c;
        assert(lhs[k] == expr[k]);
    }
    lemma_rendered_avoids(path, '=');
    let r = rendered(path);
    lemma_eq_index_after(r, rhs_of(expr));
    let shown = r + "="@ + rhs_of(expr);
    assert(lhs_of(shown) =~= r);
    assert(rhs_of(shown) =~= rhs_of(expr));
    law_parsed_paths_survive_rendering(lhs);
}

/// The typing rule for a right-hand side and for a variable substituted
/// whole: the document its text parses to as JSON (`8080` a number, `true` a
/// bool), else the text itself as a string (`foo`, `[a,b]`). `parsed` is
/// what the JSON parser made of `text`.
pub fn typed_or_string(text: String, parsed: Option<Value>) -> (r: Value)
    ensures
        r.model() == match parsed {
            Some(v) => v.model(),
            None => ValueModel::String(text@),
        },
{
    match parsed {
        Some(v) => v,
        None => Value::String(text),
    }
}

} // verus!
