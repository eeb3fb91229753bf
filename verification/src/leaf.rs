//! A leaf value addressed by a dotted path, `key.path=value`, where every
//! key is a plain name: no brackets, no indices.
//!
//! How the right-hand side is typed is the caller's choice, made once per
//! expression; the path, and every reason to reject an expression, are
//! decided here. [`PathLeaf::into_value`] expands to a nested object:
//! `server.port=8080` → `{"server":{"port":8080}}`.

use vstd::prelude::*;
use crate::path::{joined, keys_view, push_joined};
use crate::set::{lhs_of, nested, rhs_of};
use crate::text::{chars_of, eq_index, eq_position, lemma_eq_index_after, lemma_eq_index_bounds, owned, push_str, string_from};
use crate::value::{entries_model, lemma_object_model, Value, ValueModel};

verus! {

/// Why a `key.path=value` expression, or a path given as keys, was
/// rejected. Carries the dotted key when a segment is empty, and nothing
/// else: where the expression came from is the caller's business.
#[derive(Debug, Clone, PartialEq, Eq)]
pub enum ParseError {
    /// No `=` in the expression.
    MissingEquals,
    /// The path is empty (`=1`, or no keys at all).
    EmptyKey,
    /// A path segment is empty (`a..b=1`, `.a=1`, `a.=1`).
    EmptySegment { key: String },
}

/// What a [`ParseError`] reads as.
pub enum ParseErrorModel {
    MissingEquals,
    EmptyKey,
    EmptySegment(Seq<char>),
}

impl ParseError {
    pub open spec fn model(&self) -> ParseErrorModel {
        match self {
            ParseError::MissingEquals => ParseErrorModel::MissingEquals,
            ParseError::EmptyKey => ParseErrorModel::EmptyKey,
            ParseError::EmptySegment { key } => ParseErrorModel::EmptySegment(key@),
        }
    }

    /// The message: `expected KEY.PATH=VALUE`, `empty key`, or
    /// ``empty segment in key `{key}` ``.
    pub fn to_string(&self) -> (out: String)
        ensures
            out@ == match self.model() {
                ParseErrorModel::MissingEquals => "expected KEY.PATH=VALUE"@,
                ParseErrorModel::EmptyKey => "empty key"@,
                ParseErrorModel::EmptySegment(key) => "empty segment in key `"@ + key + "`"@,
            },
    {
        match self {
            ParseError::MissingEquals => owned("expected KEY.PATH=VALUE"),
            ParseError::EmptyKey => owned("empty key"),
            ParseError::EmptySegment { key } => {
                let mut out = owned("empty segment in key `");
                push_str(&mut out, key.as_str());
                push_str(&mut out, "`");
                out
            },
        }
    }
}

/// Whether some key is empty.
pub open spec fn has_empty_key(keys: Seq<Seq<char>>) -> bool {
    exists|i: int| 0 <= i < keys.len() && #[trigger] keys[i].len() == 0
}

/// What building from `keys` is refused with, if anything.
pub open spec fn keys_fault(keys: Seq<Seq<char>>) -> Option<ParseErrorModel> {
    if keys.len() == 0 {
        Some(ParseErrorModel::EmptyKey)
    } else if has_empty_key(keys) {
        Some(ParseErrorModel::EmptySegment(joined(keys)))
    } else {
        None
    }
}

/// `s` cut at every `.`: `a.b` is `["a", "b"]`, and `a..b` has an empty
/// key between the dots.
pub open spec fn dot_split(s: Seq<char>) -> Seq<Seq<char>>
    decreases s.len(),
{
    if s.len() == 0 {
        seq![seq![]]
    } else {
        let rest = dot_split(s.drop_last());
        if s.last() == '.' {
            rest.push(seq![])
        } else {
            rest.update(rest.len() - 1, rest.last().push(s.last()))
        }
    }
}

proof fn lemma_dot_split_len(s: Seq<char>)
    ensures
        dot_split(s).len() >= 1,
    decreases s.len(),
{
    if s.len() > 0 {
        lemma_dot_split_len(s.drop_last());
    }
}

fn split_dots(s: &str) -> (out: Vec<String>)
    ensures
        keys_view(out@) == dot_split(s@),
{
    let chars = chars_of(s);
    let mut done: Vec<String> = Vec::new();
    let mut cur = String::new();
    let mut i: usize = 0;
    proof {
        assert(chars@.take(0) =~= Seq::<char>::empty());
    }
    while i < chars.len()
        invariant
            i <= chars@.len(),
            chars@ == s@,
            keys_view(done@).push(cur@) == dot_split(chars@.take(i as int)),
        decreases chars.len() - i,
    {
        let c = chars[i];
        let ghost before = chars@.take(i as int);
        proof {
            assert(chars@.take(i + 1).drop_last() =~= before);
            assert(chars@.take(i + 1).last() == c);
            lemma_dot_split_len(before);
        }
        if c == '.' {
            let piece = cur;
            let ghost kv = keys_view(done@);
            done.push(piece);
            cur = String::new();
            proof {
                assert(keys_view(done@) =~= kv.push(piece@));
                assert(keys_view(done@).push(cur@) =~= dot_split(before).push(seq![]));
            }
        } else {
            let ghost kv = keys_view(done@);
            let ghost old_cur = cur@;
            cur.push(c);
            proof {
                assert(kv.push(cur@) =~= kv.push(old_cur).update(kv.len() as int, old_cur.push(c)));
            }
        }
        i += 1;
    }
    proof {
        assert(chars@.take(chars@.len() as int) =~= chars@);
    }
    let ghost kv = keys_view(done@);
    done.push(cur);
    proof {
        assert(keys_view(done@) =~= kv.push(cur@));
    }
    done
}

/// A leaf value addressed by dotted path keys.
#[derive(Debug)]
pub struct PathLeaf {
    path: Vec<String>,
    leaf: Value,
}

impl PathLeaf {
    /// The path's keys.
    pub closed spec fn path_view(&self) -> Seq<Seq<char>> {
        keys_view(self.path@)
    }

    /// The leaf.
    pub closed spec fn leaf_view(&self) -> ValueModel {
        self.leaf.model()
    }

    /// Builds from path keys and a leaf. Rejects an empty path, and a path
    /// with an empty key, naming the dotted path.
    pub fn new(path: Vec<String>, leaf: Value) -> (r: Result<PathLeaf, ParseError>)
        ensures
            match keys_fault(keys_view(path@)) {
                Some(fault) => r is Err && r->Err_0.model() == fault,
                None => r is Ok && r->Ok_0.path_view() == keys_view(path@) && r->Ok_0.leaf_view() == leaf.model(),
            },
    {
        let ghost keys = keys_view(path@);
        if path.len() == 0 {
            return Err(ParseError::EmptyKey);
        }
        let mut i: usize = 0;
        while i < path.len()
            invariant
                i <= path@.len(),
                keys == keys_view(path@),
                forall|j: int| 0 <= j < i ==> #[trigger] keys[j].len() != 0,
            decreases path.len() - i,
        {
            if chars_of(path[i].as_str()).len() == 0 {
                proof {
                    assert(keys[i as int].len() == 0);
                }
                let mut key = String::new();
                push_joined(&mut key, path.as_slice());
                return Err(ParseError::EmptySegment { key });
            }
            i += 1;
        }
        Ok(PathLeaf { path, leaf })
    }

    /// The path's keys, in order: `server.port` is `["server", "port"]`.
    pub fn path(&self) -> (r: &[String])
        ensures
            keys_view(r@) == self.path_view(),
    {
        self.path.as_slice()
    }

    /// The value, not yet wrapped in nested objects.
    pub fn leaf(&self) -> (r: &Value)
        ensures
            r.model() == self.leaf_view(),
    {
        &self.leaf
    }

    /// Parses `key.path=value`, splitting on the first `=` so the value may
    /// hold more of them, and the path at every `.`; `leaf_of` types the
    /// text after the `=`.
    pub fn from_expression<F: FnOnce(&str) -> Value>(expr: &str, leaf_of: F) -> (r: Result<PathLeaf, ParseError>)
        requires
            forall|s: &str| #[trigger] leaf_of.requires((s,)),
        ensures
            eq_index(expr@) < 0 ==> r is Err && r->Err_0.model() == ParseErrorModel::MissingEquals,
            eq_index(expr@) >= 0 && lhs_of(expr@).len() == 0 ==> r is Err && r->Err_0.model()
                == ParseErrorModel::EmptyKey,
            eq_index(expr@) >= 0 && lhs_of(expr@).len() > 0 ==> match keys_fault(dot_split(lhs_of(expr@))) {
                Some(fault) => r is Err && r->Err_0.model() == fault,
                None => r is Ok && r->Ok_0.path_view() == dot_split(lhs_of(expr@)) && exists|s: &str, v: Value|
                    s@ == rhs_of(expr@) && v.model() == r->Ok_0.leaf_view() && #[trigger] leaf_of.ensures((s,), v),
            },
    {
        match eq_position(expr) {
            None => Err(ParseError::MissingEquals),
            Some(p) => {
                let chars = chars_of(expr);
                let lhs = string_from(chars.as_slice(), 0, p);
                let rhs = string_from(chars.as_slice(), p + 1, chars.len());
                proof {
                    assert(lhs@ =~= lhs_of(expr@));
                    assert(rhs@ =~= rhs_of(expr@));
                }
                if p == 0 {
                    return Err(ParseError::EmptyKey);
                }
                let keys = split_dots(lhs.as_str());
                let text = rhs.as_str();
                let leaf = leaf_of(text);
                proof {
                    assert(leaf_of.ensures((text,), leaf));
                }
                PathLeaf::new(keys, leaf)
            },
        }
    }

    /// The canonical spelling: the keys joined by `.`, `=`, and the leaf
    /// as `spell` writes it (compact JSON, for `Display`). Parsing that
    /// spelling back gives the same path and leaf, not the original text.
    pub fn to_string_with<F: FnOnce(&Value) -> String>(&self, spell: F) -> (out: String)
        requires
            forall|v: &Value| #[trigger] spell.requires((v,)),
        ensures
            exists|v: &Value, text: String|
                v.model() == self.leaf_view() && #[trigger] spell.ensures((v,), text) && out@ == joined(
                    self.path_view(),
                ) + "="@ + text@,
    {
        let mut out = String::new();
        push_joined(&mut out, self.path.as_slice());
        push_str(&mut out, "=");
        let text = spell(&self.leaf);
        push_str(&mut out, text.as_str());
        proof {
            assert(spell.ensures((&self.leaf,), text));
        }
        out
    }

    /// Expands to a nested object: the leaf under every key, innermost
    /// last.
    pub fn into_value(self) -> (r: Value)
        ensures
            r.model() == nested(self.path_view(), self.leaf_view()),
    {
        let ghost all = keys_view(self.path@);
        let ghost leaf_model = self.leaf.model();
        let mut keys = self.path;
        proof {
            assert(all.skip(all.len() as int) =~= Seq::<Seq<char>>::empty());
            assert(all.take(all.len() as int) =~= all);
        }
        let mut acc = self.leaf;
        while keys.len() > 0
            invariant
                keys@.len() <= all.len(),
                keys_view(keys@) == all.take(keys@.len() as int),
                acc.model() == nested(all.skip(keys@.len() as int), leaf_model),
            decreases keys.len(),
        {
            let ghost n = keys@.len();
            let key = keys.pop().unwrap();
            let ghost k = key@;
            proof {
                assert(all.take(n as int)[n - 1] == k);
                assert(all[n - 1] == k);
                assert(keys_view(keys@) =~= all.take(n - 1));
            }
            let ghost prev = acc.model();
            let mut entries: Vec<(String, Value)> = Vec::new();
            entries.push((key, acc));
            proof {
                lemma_object_model(entries);
                assert(entries_model(entries@) =~= seq![(k, prev)]);
                let rest = all.skip(n as int);
                assert(all.skip(n - 1).drop_first() =~= rest);
                assert(all.skip(n - 1)[0] == k);
                assert(nested(all.skip(n - 1), leaf_model) == ValueModel::Object(seq![(k, nested(rest, leaf_model))]));
            }
            acc = Value::Object(entries);
        }
        proof {
            assert(all.skip(0) =~= all);
        }
        acc
    }
}

// --- spelling a path and parsing it back -------------------------------------------

/// Every character of a key of `s` cut at the dots is a character of `s`
/// other than `.`.
proof fn lemma_dot_split_chars(s: Seq<char>)
    ensures
        dot_split(s).len() >= 1,
        forall|i: int, j: int|
            0 <= i < dot_split(s).len() && 0 <= j < dot_split(s)[i].len() ==> #[trigger] dot_split(s)[i][j] != '.'
                && s.contains(dot_split(s)[i][j]),
    decreases s.len(),
{
    if s.len() > 0 {
        let prev = s.drop_last();
        lemma_dot_split_chars(prev);
        let rest = dot_split(prev);
        assert forall|i: int, j: int|
            0 <= i < dot_split(s).len() && 0 <= j < dot_split(s)[i].len() implies #[trigger] dot_split(s)[i][j] != '.'
                && s.contains(dot_split(s)[i][j]) by {
            let c = dot_split(s)[i][j];
            if s.last() == '.' {
                assert(dot_split(s) == rest.push(seq![]));
                assert(i < rest.len());
                assert(c == rest[i][j]);
                let k = choose|k: int| 0 <= k < prev.len() && prev[k] == c;
                assert(s[k] == c);
            } else if i < rest.len() - 1 || j < rest.last().len() {
                if i < rest.len() - 1 {
                    assert(c == rest[i][j]);
                } else {
                    assert(c == rest[i][j]);
                }
                let k = choose|k: int| 0 <= k < prev.len() && prev[k] == c;
                assert(s[k] == c);
            } else {
                assert(c == s.last());
                assert(s[s.len() - 1] == c);
            }
        }
    }
}

/// Cutting a text that ends in a dot-free run extends the last key by it.
proof fn lemma_dot_split_run(s: Seq<char>, t: Seq<char>)
    requires
        forall|j: int| 0 <= j < t.len() ==> #[trigger] t[j] != '.',
    ensures
        dot_split(s + t) == dot_split(s).update(dot_split(s).len() - 1, dot_split(s).last() + t),
    decreases t.len(),
{
    lemma_dot_split_chars(s);
    if t.len() == 0 {
        assert(s + t =~= s);
        assert(dot_split(s).last() + t =~= dot_split(s).last());
        assert(dot_split(s).update(dot_split(s).len() - 1, dot_split(s).last()) =~= dot_split(s));
    } else {
        let u = t.drop_last();
        assert forall|j: int| 0 <= j < u.len() implies #[trigger] u[j] != '.' by {
            assert(u[j] == t[j]);
        }
        lemma_dot_split_run(s, u);
        assert((s + t).drop_last() =~= s + u);
        assert((s + t).last() == t.last());
        let r = dot_split(s);
        let ru = r.update(r.len() - 1, r.last() + u);
        assert(ru.last() == r.last() + u);
        assert(ru.update(ru.len() - 1, ru.last().push(t.last())) =~= r.update(r.len() - 1, r.last() + t)) by {
            assert((r.last() + u).push(t.last()) =~= r.last() + t);
        }
    }
}

/// Cutting keys joined by `.` gives the keys back, when no key holds a dot.
proof fn lemma_dot_split_joined(keys: Seq<Seq<char>>)
    requires
        keys.len() > 0,
        forall|i: int, j: int| 0 <= i < keys.len() && 0 <= j < keys[i].len() ==> #[trigger] keys[i][j] != '.',
    ensures
        dot_split(joined(keys)) == keys,
    decreases keys.len(),
{
    let last = keys.last();
    assert forall|j: int| 0 <= j < last.len() implies #[trigger] last[j] != '.' by {
        assert(last[j] == keys[keys.len() - 1][j]);
    }
    if keys.len() == 1 {
        lemma_dot_split_run(Seq::empty(), last);
        assert(Seq::<char>::empty() + last =~= last);
        assert(dot_split(Seq::<char>::empty()) == seq![Seq::<char>::empty()]);
        assert(Seq::<char>::empty() + last =~= last);
        assert(seq![Seq::<char>::empty()].update(0, Seq::<char>::empty() + last) =~= keys);
    } else {
        let front = keys.drop_last();
        assert forall|i: int, j: int| 0 <= i < front.len() && 0 <= j < front[i].len() implies #[trigger] front[i][j]
            != '.' by {
            assert(front[i] == keys[i]);
        }
        lemma_dot_split_joined(front);
        let head = joined(front).push('.');
        assert(joined(keys) == head + last);
        lemma_dot_split_run(head, last);
        assert(head.drop_last() =~= joined(front));
        assert(dot_split(head) == front.push(seq![]));
        assert(Seq::<char>::empty() + last =~= last);
        assert(front.push(seq![]).update(front.len() as int, Seq::<char>::empty() + last) =~= keys);
    }
}

/// Keys joined by `.` hold no `=` when no key does.
proof fn lemma_joined_has_no_eq(keys: Seq<Seq<char>>)
    requires
        forall|i: int, j: int| 0 <= i < keys.len() && 0 <= j < keys[i].len() ==> #[trigger] keys[i][j] != '=',
    ensures
        forall|j: int| 0 <= j < joined(keys).len() ==> #[trigger] joined(keys)[j] != '=',
    decreases keys.len(),
{
    if keys.len() > 1 {
        let front = keys.drop_last();
        assert forall|i: int, j: int| 0 <= i < front.len() && 0 <= j < front[i].len() implies #[trigger] front[i][j]
            != '=' by {
            assert(front[i] == keys[i]);
        }
        lemma_joined_has_no_eq(front);
        let head = joined(front).push('.');
        let last = keys.last();
        assert forall|j: int| 0 <= j < joined(keys).len() implies #[trigger] joined(keys)[j] != '=' by {
            if j < joined(front).len() {
                assert(joined(keys)[j] == joined(front)[j]);
            } else if j == joined(front).len() {
                assert(joined(keys)[j] == '.');
            } else {
                assert(joined(keys)[j] == last[j - head.len()]);
                assert(last == keys[keys.len() - 1]);
            }
        }
    } else if keys.len() == 1 {
        assert forall|j: int| 0 <= j < joined(keys).len() implies #[trigger] joined(keys)[j] != '=' by {
            assert(joined(keys)[j] == keys[0][j]);
        }
    }
}

/// Spelling a parsed path and parsing it back keeps the path: when `expr`
/// parses, its keys joined by `.`, then `=` and any text, parse again — to
/// the same keys, with that text as the value's spelling. (Whether the leaf
/// survives too is the caller's typing: it does when the typing reads back
/// what the spelling wrote.)
pub proof fn law_spelling_then_parsing_keeps_the_path(expr: Seq<char>, text: Seq<char>)
    requires
        eq_index(expr) >= 0,
        lhs_of(expr).len() > 0,
        keys_fault(dot_split(lhs_of(expr))) is None,
    ensures
        ({
            let keys = dot_split(lhs_of(expr));
            let spelled = joined(keys) + "="@ + text;
            &&& eq_index(spelled) >= 0
            &&& lhs_of(spelled).len() > 0
            &&& dot_split(lhs_of(spelled)) == keys
            &&& keys_fault(dot_split(lhs_of(spelled))) is None
            &&& rhs_of(spelled) == text
        }),
{
    reveal_strlit("=");
    let lhs = lhs_of(expr);
    let keys = dot_split(lhs);
    lemma_eq_index_bounds(expr);
    lemma_dot_split_chars(lhs);
    assert forall|i: int, j: int| 0 <= i < keys.len() && 0 <= j < keys[i].len() implies #[trigger] keys[i][j] != '='
        && keys[i][j] != '.' by {
        let c = keys[i][j];
        let k = choose|k: int| 0 <= k < lhs.len() && lhs[k] == c;
        assert(lhs[k] == expr[k]);
    }
    lemma_dot_split_joined(keys);
    lemma_joined_has_no_eq(keys);
    let a = joined(keys);
    lemma_eq_index_after(a, text);
    let spelled = a + "="@ + text;
    assert(lhs_of(spelled) =~= a);
    assert(rhs_of(spelled) =~= text);
    assert(a.len() > 0) by {
        assert(keys.len() > 0);
        assert(!has_empty_key(keys));
        if keys.len() == 1 {
            assert(keys[0].len() != 0);
        } else {
            assert(a == joined(keys.drop_last()).push('.') + keys.last());
        }
    }
}

} // verus!
