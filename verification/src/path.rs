//! The path vocabulary: one step type, one parsed spelling, one witness.
//!
//! [`Seg`] is the single step every path is built from — an object key or an
//! array index — and [`render_path`] the one display for a chain of them.
//! [`RefPath`] parses `a.b[2].c`; a bare `Vec<Seg>` is the witness a walker
//! builds by descending a document. Writers take keys only, which
//! [`RefPath::try_into_keys`] enforces.

use vstd::prelude::*;
use crate::text::{chars_of, decimal, digit_char, owned, push_decimal, push_str, string_from};

verus! {

/// One step of a path into a document.
#[derive(Debug, PartialEq, Eq, PartialOrd, Ord, Hash)]
pub enum Seg {
    /// An object key.
    Key(String),
    /// An array position.
    Index(usize),
}

/// What a [`Seg`] denotes.
pub enum SegModel {
    Key(Seq<char>),
    Index(usize),
}

impl View for Seg {
    type V = SegModel;

    open spec fn view(&self) -> SegModel {
        match self {
            Seg::Key(k) => SegModel::Key(k@),
            Seg::Index(i) => SegModel::Index(*i),
        }
    }
}

impl Clone for Seg {
    fn clone(&self) -> (r: Self)
        ensures
            r@ == self@,
    {
        match self {
            Seg::Key(k) => Seg::Key(k.clone()),
            Seg::Index(i) => Seg::Index(*i),
        }
    }
}

/// The denotation of a sequence of steps.
pub open spec fn segs_view(path: Seq<Seg>) -> Seq<SegModel> {
    path.map_values(|s: Seg| s@)
}

/// The denotation of a sequence of keys.
pub open spec fn keys_view(keys: Seq<String>) -> Seq<Seq<char>> {
    keys.map_values(|k: String| k@)
}

/// `servers.primary.host`, `tags[0]`: keys joined by `.`, an index as `[n]`.
/// A key that follows nothing rendered yet takes no leading dot.
pub open spec fn rendered(path: Seq<SegModel>) -> Seq<char>
    decreases path.len(),
{
    if path.len() == 0 {
        Seq::empty()
    } else {
        let prev = rendered(path.drop_last());
        match path.last() {
            SegModel::Key(k) => if prev.len() == 0 {
                k
            } else {
                prev.push('.') + k
            },
            SegModel::Index(i) => prev.push('[') + decimal(i as nat) + seq![']'],
        }
    }
}

/// Renders a path for display: `servers.primary.host`, `tags[0]`.
pub fn render_path(path: &[Seg]) -> (out: String)
    ensures
        out@ == rendered(segs_view(path@)),
{
    let mut out = String::new();
    let mut i: usize = 0;
    while i < path.len()
        invariant
            i <= path@.len(),
            out@ == rendered(segs_view(path@.take(i as int))),
        decreases path.len() - i,
    {
        proof {
            assert(segs_view(path@.take(i + 1)).drop_last() =~= segs_view(path@.take(i as int)));
        }
        match &path[i] {
            Seg::Key(k) => {
                if !out.as_str().is_empty() {
                    out.push('.');
                }
                push_str(&mut out, k.as_str());
            },
            Seg::Index(n) => {
                out.push('[');
                push_decimal(&mut out, *n as u64);
                out.push(']');
            },
        }
        i += 1;
        proof {
            let prev = rendered(segs_view(path@.take(i - 1)));
            let p = segs_view(path@.take(i as int));
            assert(p.last() == path@[i - 1]@);
            assert(prev.len() == 0 <==> old_len_zero(prev));
            assert(out@ =~= rendered(p));
        }
    }
    proof {
        assert(path@.take(path@.len() as int) =~= path@);
    }
    out
}

spec fn old_len_zero(s: Seq<char>) -> bool {
    s.len() == 0
}

/// Keys joined by `.`.
pub open spec fn joined(keys: Seq<Seq<char>>) -> Seq<char>
    decreases keys.len(),
{
    if keys.len() == 0 {
        Seq::empty()
    } else if keys.len() == 1 {
        keys[0]
    } else {
        joined(keys.drop_last()).push('.') + keys.last()
    }
}

/// Appends the keys joined by `.`.
pub fn push_joined(out: &mut String, keys: &[String])
    ensures
        final(out)@ == old(out)@ + joined(keys_view(keys@)),
{
    let ghost start = out@;
    let mut i: usize = 0;
    while i < keys.len()
        invariant
            i <= keys@.len(),
            out@ == start + joined(keys_view(keys@.take(i as int))),
        decreases keys.len() - i,
    {
        proof {
            assert(keys_view(keys@.take(i + 1)).drop_last() =~= keys_view(keys@.take(i as int)));
        }
        if i > 0 {
            out.push('.');
        }
        push_str(out, keys[i].as_str());
        i += 1;
        proof {
            let v = keys_view(keys@.take(i as int));
            if i == 1 {
                assert(joined(v) == v[0]);
            }
            assert(out@ =~= start + joined(v));
        }
    }
    proof {
        assert(keys@.take(keys@.len() as int) =~= keys@);
    }
}

/// Renders a key path for display. An empty path is the document root.
pub open spec fn rendered_keys(keys: Seq<Seq<char>>) -> Seq<char> {
    if keys.len() == 0 {
        "<root>"@
    } else {
        joined(keys)
    }
}

/// Renders a key path for display; the empty path is `<root>`.
pub fn render_keys(path: &[String]) -> (out: String)
    ensures
        out@ == rendered_keys(keys_view(path@)),
{
    if path.len() == 0 {
        owned("<root>")
    } else {
        let mut out = String::new();
        push_joined(&mut out, path);
        out
    }
}

/// Why a path expression was rejected. Carries the path text and nothing else.
#[derive(Debug, PartialEq, Eq)]
pub enum PathError {
    /// No `=` in a `key.path=value` expression.
    MissingEquals,
    /// The path is empty.
    EmptyPath,
    /// A path segment is empty (`a..b`, `.a`, `a.`).
    EmptySegment { path: String },
    /// A bracket step is malformed: empty, not a number, too big, or unclosed.
    BadIndex { path: String },
    /// A path that arrived at a writer contained an array index.
    IndexInKeyPath { path: String },
}

/// What a [`PathError`] says, without its payload's spelling.
pub enum PathFailure {
    MissingEquals,
    EmptyPath,
    EmptySegment(Seq<char>),
    BadIndex(Seq<char>),
    IndexInKeyPath(Seq<char>),
}

impl View for PathError {
    type V = PathFailure;

    open spec fn view(&self) -> PathFailure {
        match self {
            PathError::MissingEquals => PathFailure::MissingEquals,
            PathError::EmptyPath => PathFailure::EmptyPath,
            PathError::EmptySegment { path } => PathFailure::EmptySegment(path@),
            PathError::BadIndex { path } => PathFailure::BadIndex(path@),
            PathError::IndexInKeyPath { path } => PathFailure::IndexInKeyPath(path@),
        }
    }
}

/// The message a [`PathError`] displays.
pub open spec fn path_error_text(e: PathFailure) -> Seq<char> {
    match e {
        PathFailure::MissingEquals => "expected KEY.PATH=VALUE"@,
        PathFailure::EmptyPath => "empty path"@,
        PathFailure::EmptySegment(p) => "empty segment in path `"@ + p + "`"@,
        PathFailure::BadIndex(p) => "malformed index in path `"@ + p + "`"@,
        PathFailure::IndexInKeyPath(p) => "`"@ + p + "` contains an array index; merge paths take keys only"@,
    }
}

impl Clone for PathError {
    fn clone(&self) -> (r: Self)
        ensures
            r@ == self@,
    {
        match self {
            PathError::MissingEquals => PathError::MissingEquals,
            PathError::EmptyPath => PathError::EmptyPath,
            PathError::EmptySegment { path } => PathError::EmptySegment { path: path.clone() },
            PathError::BadIndex { path } => PathError::BadIndex { path: path.clone() },
            PathError::IndexInKeyPath { path } => PathError::IndexInKeyPath { path: path.clone() },
        }
    }
}

impl PathError {
    /// The message, as `Display` would print it.
    pub fn to_string(&self) -> (out: String)
        ensures
            out@ == path_error_text(self@),
    {
        match self {
            PathError::MissingEquals => owned("expected KEY.PATH=VALUE"),
            PathError::EmptyPath => owned("empty path"),
            PathError::EmptySegment { path } => {
                let mut out = owned("empty segment in path `");
                push_str(&mut out, path.as_str());
                push_str(&mut out, "`");
                out
            },
            PathError::BadIndex { path } => {
                let mut out = owned("malformed index in path `");
                push_str(&mut out, path.as_str());
                push_str(&mut out, "`");
                out
            },
            PathError::IndexInKeyPath { path } => {
                let mut out = owned("`");
                push_str(&mut out, path.as_str());
                push_str(&mut out, "` contains an array index; merge paths take keys only");
                out
            },
        }
    }
}

/// A character that ends a key run.
pub open spec fn is_delimiter(c: char) -> bool {
    c == '.' || c == '[' || c == ']'
}

/// The end of the maximal key run starting at `from`: the first delimiter at
/// or after `from`, or the end of the text.
pub open spec fn run_end(s: Seq<char>, from: int) -> int
    decreases s.len() - from,
{
    if from >= s.len() || is_delimiter(s[from]) {
        from
    } else {
        run_end(s, from + 1)
    }
}

/// The end of the run of ASCII digits starting at `from`.
pub open spec fn digits_end(s: Seq<char>, from: int) -> int
    decreases s.len() - from,
{
    if from >= s.len() || !('0' <= s[from] <= '9') {
        from
    } else {
        digits_end(s, from + 1)
    }
}

/// The number a run of ASCII digits spells.
pub open spec fn digits_value(d: Seq<char>) -> nat
    decreases d.len(),
{
    if d.len() == 0 {
        0
    } else {
        digits_value(d.drop_last()) * 10 + ((d.last() as u32) - ('0' as u32)) as nat
    }
}

/// A key run stays in bounds and holds no delimiter.
pub proof fn lemma_run_end(s: Seq<char>, from: int)
    requires
        0 <= from <= s.len(),
    ensures
        from <= run_end(s, from) <= s.len(),
        forall|j: int| from <= j < run_end(s, from) ==> !is_delimiter(#[trigger] s[j]),
        run_end(s, from) < s.len() ==> is_delimiter(s[run_end(s, from)]),
    decreases s.len() - from,
{
    if from < s.len() && !is_delimiter(s[from]) {
        lemma_run_end(s, from + 1);
    }
}

/// A digit run stays in bounds and holds only digits.
pub proof fn lemma_digits_end(s: Seq<char>, from: int)
    requires
        0 <= from <= s.len(),
    ensures
        from <= digits_end(s, from) <= s.len(),
        forall|j: int| from <= j < digits_end(s, from) ==> '0' <= #[trigger] s[j] <= '9',
    decreases s.len() - from,
{
    if from < s.len() && '0' <= s[from] <= '9' {
        lemma_digits_end(s, from + 1);
    }
}

/// Why a body failed to parse, without the body itself (every error carries
/// the whole body).
pub enum ParseFault {
    EmptyPath,
    EmptySegment,
    BadIndex,
}

/// The steps of `s[from..]`, which is a sequence of `.key` and `[N]` steps:
/// a key is a non-empty run of anything but `.[]`, and `N` a bare decimal
/// that fits a `usize`.
pub open spec fn parse_steps(s: Seq<char>, from: int) -> Result<Seq<SegModel>, ParseFault>
    decreases s.len() - from, 0int,
{
    if from < 0 || from >= s.len() {
        Ok(Seq::empty())
    } else if s[from] == '.' {
        let end = run_end(s, from + 1);
        proof {
            lemma_run_end(s, from + 1);
        }
        if end <= from + 1 {
            Err(ParseFault::EmptySegment)
        } else {
            match parse_steps(s, end) {
                Ok(rest) => Ok(seq![SegModel::Key(s.subrange(from + 1, end))] + rest),
                Err(f) => Err(f),
            }
        }
    } else if s[from] == '[' {
        let end = digits_end(s, from + 1);
        proof {
            lemma_digits_end(s, from + 1);
        }
        if end <= from + 1 || end >= s.len() || s[end] != ']' || digits_value(
            s.subrange(from + 1, end),
        ) > usize::MAX {
            Err(ParseFault::BadIndex)
        } else {
            match parse_steps(s, end + 1) {
                Ok(rest) => Ok(
                    seq![SegModel::Index(digits_value(s.subrange(from + 1, end)) as usize)] + rest,
                ),
                Err(f) => Err(f),
            }
        }
    } else {
        Err(ParseFault::BadIndex)
    }
}

/// The grammar of a reference path: a leading key, then any mix of `.key`
/// and `[N]` steps. There is no `[0]` into the root.
pub open spec fn parse_path(s: Seq<char>) -> Result<Seq<SegModel>, ParseFault> {
    if s.len() == 0 {
        Err(ParseFault::EmptyPath)
    } else {
        let end = run_end(s, 0);
        if end == 0 {
            if s[0] == ']' {
                Err(ParseFault::BadIndex)
            } else {
                Err(ParseFault::EmptySegment)
            }
        } else {
            match parse_steps(s, end) {
                Ok(rest) => Ok(seq![SegModel::Key(s.subrange(0, end))] + rest),
                Err(f) => Err(f),
            }
        }
    }
}

/// The error a failed parse of `body` reports.
pub open spec fn fault_error(f: ParseFault, body: Seq<char>) -> PathFailure {
    match f {
        ParseFault::EmptyPath => PathFailure::EmptyPath,
        ParseFault::EmptySegment => PathFailure::EmptySegment(body),
        ParseFault::BadIndex => PathFailure::BadIndex(body),
    }
}

/// A parsed path: dotted keys plus bracket array indices, `a.b[2].c`.
///
/// Never empty, starts with a key, and no key is empty.
#[derive(Debug, PartialEq, Eq, PartialOrd, Ord, Hash)]
pub struct RefPath {
    path: Vec<Seg>,
}

impl View for RefPath {
    type V = Seq<SegModel>;

    closed spec fn view(&self) -> Seq<SegModel> {
        segs_view(self.path@)
    }
}

impl Clone for RefPath {
    fn clone(&self) -> (r: Self)
        ensures
            r@ == self@,
    {
        RefPath { path: clone_segs(&self.path) }
    }
}

/// A copy of the steps.
pub fn clone_segs(path: &[Seg]) -> (out: Vec<Seg>)
    ensures
        segs_view(out@) == segs_view(path@),
{
    let mut out: Vec<Seg> = Vec::new();
    let mut i: usize = 0;
    while i < path.len()
        invariant
            i <= path@.len(),
            segs_view(out@) == segs_view(path@.take(i as int)),
        decreases path.len() - i,
    {
        let ghost prev = out@;
        let seg = path[i].clone();
        out.push(seg);
        proof {
            assert(segs_view(out@) =~= segs_view(prev).push(path@[i as int]@));
            assert(segs_view(path@.take(i + 1)) =~= segs_view(path@.take(i as int)).push(path@[i as int]@));
        }
        i += 1;
    }
    proof {
        assert(path@.take(path@.len() as int) =~= path@);
    }
    out
}

/// Whether every step is a key.
pub open spec fn all_keys(path: Seq<SegModel>) -> bool {
    forall|i: int| 0 <= i < path.len() ==> path[i] is Key
}

impl RefPath {
    /// Build from key strings. Rejects an empty path or any empty segment.
    pub fn from_keys(keys: Vec<String>) -> (r: Result<Self, PathError>)
        ensures
            keys@.len() == 0 ==> r is Err && r->Err_0@ == PathFailure::EmptyPath,
            keys@.len() > 0 && (exists|i: int| 0 <= i < keys@.len() && keys@[i]@.len() == 0)
                ==> r is Err && r->Err_0@ == PathFailure::EmptySegment(joined(keys_view(keys@))),
            keys@.len() > 0 && (forall|i: int| 0 <= i < keys@.len() ==> keys@[i]@.len() > 0)
                ==> r is Ok && r->Ok_0@ == keys_view(keys@).map_values(
                |k: Seq<char>| SegModel::Key(k),
            ),
    {
        if keys.len() == 0 {
            return Err(PathError::EmptyPath);
        }
        let mut i: usize = 0;
        while i < keys.len()
            invariant
                i <= keys@.len(),
                forall|j: int| 0 <= j < i ==> keys@[j]@.len() > 0,
            decreases keys.len() - i,
        {
            if keys[i].as_str().is_empty() {
                let mut path = String::new();
                push_joined(&mut path, keys.as_slice());
                return Err(PathError::EmptySegment { path });
            }
            i += 1;
        }
        let mut path: Vec<Seg> = Vec::new();
        let ghost all = keys@;
        for key in it: keys.into_iter()
            invariant
                it.seq() == all,
                segs_view(path@) == keys_view(all.take(it.index() as int)).map_values(
                    |k: Seq<char>| SegModel::Key(k),
                ),
        {
            let ghost prev = path@;
            path.push(Seg::Key(key));
            proof {
                let n = it.index() + 1;
                assert(all[n - 1] == key);
                assert(segs_view(path@) =~= segs_view(prev).push(SegModel::Key(key@)));
                assert(keys_view(all.take(n)) =~= keys_view(all.take(n - 1)).push(key@));
                assert(segs_view(path@) =~= keys_view(all.take(n)).map_values(
                    |k: Seq<char>| SegModel::Key(k),
                ));
            }
        }
        proof {
            assert(all.take(all.len() as int) =~= all);
        }
        Ok(RefPath { path })
    }

    /// The segments as steps.
    pub fn segs(&self) -> (r: &[Seg])
        ensures
            segs_view(r@) == self@,
    {
        self.path.as_slice()
    }

    /// The segments as steps, zero-copy.
    pub fn into_segs(self) -> (r: Vec<Seg>)
        ensures
            segs_view(r@) == self@,
    {
        self.path
    }

    /// The owned key strings, checked all-key: an index step is rejected with
    /// the whole path rendered.
    pub fn try_into_keys(self) -> (r: Result<Vec<String>, PathError>)
        ensures
            all_keys(self@) ==> r is Ok && r->Ok_0@.len() == self@.len() && forall|i: int|
                0 <= i < self@.len() ==> self@[i] == SegModel::Key(#[trigger] r->Ok_0@[i]@),
            !all_keys(self@) ==> r is Err && r->Err_0@ == PathFailure::IndexInKeyPath(
                rendered(self@),
            ),
    {
        let mut i: usize = 0;
        while i < self.path.len()
            invariant
                i <= self.path@.len(),
                forall|j: int| 0 <= j < i ==> self@[j] is Key,
            decreases self.path.len() - i,
        {
            if let Seg::Index(_) = &self.path[i] {
                proof {
                    assert(self@[i as int] == self.path@[i as int]@);
                }
                let path = render_path(self.path.as_slice());
                return Err(PathError::IndexInKeyPath { path });
            }
            i += 1;
        }
        let mut keys: Vec<String> = Vec::new();
        let ghost all = self@;
        let ghost segs = self.path@;
        for seg in it: self.path.into_iter()
            invariant
                it.seq() == segs,
                segs_view(segs) == all,
                all_keys(all),
                keys@.len() == it.index(),
                forall|j: int| 0 <= j < keys@.len() ==> all[j] == SegModel::Key(#[trigger] keys@[j]@),
        {
            proof {
                assert(all[it.index() as int] == seg@);
            }
            match seg {
                Seg::Key(k) => keys.push(k),
                Seg::Index(_) => {
                    proof {
                        assert(false);
                    }
                },
            }
        }
        Ok(keys)
    }

    /// Parses `a.b[2].c`: a leading key, then any mix of `.key` and `[N]`
    /// steps, where a key is a run of anything but `.[]` and `N` a bare
    /// `usize`.
    pub fn parse(body: &str) -> (r: Result<Self, PathError>)
        ensures
            parse_path(body@) is Ok ==> r is Ok && r->Ok_0@ == parse_path(body@)->Ok_0,
            parse_path(body@) is Err ==> r is Err && r->Err_0@ == fault_error(
                parse_path(body@)->Err_0,
                body@,
            ),
    {
        let chars = chars_of(body);
        let n = chars.len();
        if n == 0 {
            return Err(PathError::EmptyPath);
        }
        let (key, next) = take_key(chars.as_slice(), 0);
        if key.as_str().is_empty() {
            if chars[0] == ']' {
                return Err(PathError::BadIndex { path: owned(body) });
            }
            return Err(PathError::EmptySegment { path: owned(body) });
        }
        let mut steps: Vec<Seg> = Vec::new();
        let ghost first = key@;
        steps.push(Seg::Key(key));
        let mut cursor = next;
        proof {
            assert(segs_view(steps@) =~= seq![SegModel::Key(first)]);
        }
        while cursor < n
            invariant
                n == chars@.len(),
                chars@ == body@,
                0 < cursor <= n,
                parse_path(body@) == (match parse_steps(body@, cursor as int) {
                    Ok(rest) => Ok(segs_view(steps@) + rest),
                    Err(f) => Err::<Seq<SegModel>, ParseFault>(f),
                }),
            decreases n - cursor,
        {
            let c = chars[cursor];
            if c == '.' {
                let (key, next) = take_key(chars.as_slice(), cursor + 1);
                if key.as_str().is_empty() {
                    return Err(PathError::EmptySegment { path: owned(body) });
                }
                let ghost before = segs_view(steps@);
                steps.push(Seg::Key(key));
                proof {
                    assert(segs_view(steps@) =~= before.push(SegModel::Key(body@.subrange(cursor + 1, next as int))));
                    assert(parse_steps(body@, cursor as int) == (match parse_steps(body@, next as int) {
                        Ok(rest) => Ok(seq![SegModel::Key(body@.subrange(cursor + 1, next as int))] + rest),
                        Err(f) => Err::<Seq<SegModel>, ParseFault>(f),
                    }));
                    match parse_steps(body@, next as int) {
                        Ok(rest) => {
                            assert(before + (seq![SegModel::Key(body@.subrange(cursor + 1, next as int))] + rest)
                                =~= segs_view(steps@) + rest);
                        },
                        Err(_) => {},
                    }
                }
                cursor = next;
            } else if c == '[' {
                let (value, end) = take_index(chars.as_slice(), cursor + 1);
                match value {
                    None => {
                        return Err(PathError::BadIndex { path: owned(body) });
                    },
                    Some(index) => {
                        let ghost before = segs_view(steps@);
                        steps.push(Seg::Index(index));
                        proof {
                            assert(segs_view(steps@) =~= before.push(SegModel::Index(index)));
                            match parse_steps(body@, end + 1) {
                                Ok(rest) => {
                                    assert(before + (seq![SegModel::Index(index)] + rest)
                                        =~= segs_view(steps@) + rest);
                                },
                                Err(_) => {},
                            }
                        }
                        cursor = end + 1;
                    },
                }
            } else {
                return Err(PathError::BadIndex { path: owned(body) });
            }
        }
        proof {
            assert(segs_view(steps@) + Seq::<SegModel>::empty() =~= segs_view(steps@));
        }
        Ok(RefPath { path: steps })
    }
}

/// The maximal run containing none of `.[]`, starting at `from`, and where it
/// ends.
fn take_key(chars: &[char], from: usize) -> (r: (String, usize))
    requires
        from <= chars@.len(),
    ensures
        r.1 == run_end(chars@, from as int),
        from <= r.1 <= chars@.len(),
        r.0@ == chars@.subrange(from as int, r.1 as int),
{
    let mut end = from;
    while end < chars.len() && !(chars[end] == '.' || chars[end] == '[' || chars[end] == ']')
        invariant
            from <= end <= chars@.len(),
            run_end(chars@, from as int) == run_end(chars@, end as int),
        decreases chars.len() - end,
    {
        end += 1;
    }
    (string_from(chars, from, end), end)
}

/// The bracket step whose digits start at `from`: its value and the position
/// of its `]`, or `None` when the step is empty, not a number, too big, or
/// unclosed.
fn take_index(chars: &[char], from: usize) -> (r: (Option<usize>, usize))
    requires
        0 < from <= chars@.len(),
    ensures
        ({
            let s = chars@;
            let end = digits_end(s, from as int);
            let bad = end <= from || end >= s.len() || s[end] != ']' || digits_value(
                s.subrange(from as int, end),
            ) > usize::MAX;
            &&& bad ==> r.0 is None
            &&& !bad ==> r.0 == Some(digits_value(s.subrange(from as int, end)) as usize) && r.1
                == end
        }),
{
    let mut end = from;
    let mut value: usize = 0;
    let mut overflow = false;
    while end < chars.len() && '0' <= chars[end] && chars[end] <= '9'
        invariant
            from <= end <= chars@.len(),
            digits_end(chars@, from as int) == digits_end(chars@, end as int),
            forall|j: int| from <= j < end ==> '0' <= #[trigger] chars@[j] <= '9',
            !overflow ==> value as nat == digits_value(chars@.subrange(from as int, end as int)),
            overflow ==> digits_value(chars@.subrange(from as int, end as int)) > usize::MAX,
        decreases chars.len() - end,
    {
        let d = (chars[end] as u32 - '0' as u32) as usize;
        proof {
            let prev = chars@.subrange(from as int, end as int);
            let next = chars@.subrange(from as int, end + 1);
            assert(next.drop_last() =~= prev);
            assert(next.last() == chars@[end as int]);
            assert(digits_value(next) == digits_value(prev) * 10 + d);
        }
        if !overflow {
            if value > (usize::MAX - d) / 10 {
                overflow = true;
                proof {
                    assert(value * 10 + d > usize::MAX) by (nonlinear_arith)
                        requires
                            value > (usize::MAX - d) / 10,
                            d <= 9,
                    ;
                }
            } else {
                proof {
                    assert(value * 10 + d <= usize::MAX) by (nonlinear_arith)
                        requires
                            value <= (usize::MAX - d) / 10,
                            d <= 9,
                    ;
                }
                value = value * 10 + d;
            }
        } else {
            proof {
                let prev = chars@.subrange(from as int, end as int);
                assert(digits_value(prev) * 10 + d > usize::MAX) by (nonlinear_arith)
                    requires
                        digits_value(prev) > usize::MAX,
                ;
            }
        }
        end += 1;
    }
    if end == from || end >= chars.len() || chars[end] != ']' || overflow {
        (None, end)
    } else {
        (Some(value), end)
    }
}

impl std::str::FromStr for RefPath {
    type Err = PathError;

    fn from_str(body: &str) -> (r: Result<Self, Self::Err>)
        ensures
            parse_path(body@) is Ok ==> r is Ok && r->Ok_0@ == parse_path(body@)->Ok_0,
            parse_path(body@) is Err ==> r is Err && r->Err_0@ == fault_error(parse_path(body@)->Err_0, body@),
    {
        RefPath::parse(body)
    }
}

impl RefPath {
    /// `Display` of a reference path: [`render_path`] of its steps.
    pub fn to_string(&self) -> (out: String)
        ensures
            out@ == rendered(self@),
    {
        render_path(self.path.as_slice())
    }
}

// --- rendering a path and parsing it back ------------------------------------------

/// A path whose every key is non-empty and holds none of `.[]`: what the
/// grammar can give back from a rendering.
pub open spec fn plain_keys(path: Seq<SegModel>) -> bool {
    forall|i: int|
        0 <= i < path.len() && (#[trigger] path[i]) is Key ==> path[i]->Key_0.len() > 0 && forall|j: int|
            0 <= j < path[i]->Key_0.len() ==> !is_delimiter(#[trigger] path[i]->Key_0[j])
}

/// How one step after the first is spelled: `.key` or `[n]`.
pub open spec fn step_text(seg: SegModel) -> Seq<char> {
    match seg {
        SegModel::Key(k) => seq!['.'] + k,
        SegModel::Index(i) => seq!['['] + decimal(i as nat) + seq![']'],
    }
}

/// The steps spelled one after another.
pub open spec fn steps_text(path: Seq<SegModel>) -> Seq<char>
    decreases path.len(),
{
    if path.len() == 0 {
        Seq::empty()
    } else {
        step_text(path[0]) + steps_text(path.drop_first())
    }
}

proof fn lemma_steps_text_push(path: Seq<SegModel>, seg: SegModel)
    ensures
        steps_text(path.push(seg)) == steps_text(path) + step_text(seg),
    decreases path.len(),
{
    if path.len() == 0 {
        assert(path.push(seg).drop_first() =~= Seq::<SegModel>::empty());
        assert(path.push(seg)[0] == seg);
        assert(steps_text(Seq::<SegModel>::empty()) == Seq::<char>::empty());
        assert(step_text(seg) + Seq::<char>::empty() =~= step_text(seg));
        assert(Seq::<char>::empty() + step_text(seg) =~= step_text(seg));
    } else {
        assert(path.push(seg)[0] == path[0]);
        assert(path.push(seg).drop_first() =~= path.drop_first().push(seg));
        lemma_steps_text_push(path.drop_first(), seg);
        assert(step_text(path[0]) + (steps_text(path.drop_first()) + step_text(seg)) =~= (step_text(path[0])
            + steps_text(path.drop_first())) + step_text(seg));
    }
}

/// A rendering is the first key followed by the spelling of every later step.
proof fn lemma_rendered_form(path: Seq<SegModel>)
    requires
        path.len() > 0,
        path[0] is Key,
        path[0]->Key_0.len() > 0,
    ensures
        rendered(path) == path[0]->Key_0 + steps_text(path.drop_first()),
    decreases path.len(),
{
    let k0 = path[0]->Key_0;
    if path.len() == 1 {
        assert(path.drop_first() =~= Seq::<SegModel>::empty());
        assert(rendered(path.drop_last()) == Seq::<char>::empty());
        assert(k0 + Seq::<char>::empty() =~= k0);
    } else {
        let front = path.drop_last();
        lemma_rendered_form(front);
        let prev = rendered(front);
        assert(prev.len() > 0);
        assert(path.drop_first() =~= front.drop_first().push(path.last()));
        lemma_steps_text_push(front.drop_first(), path.last());
        match path.last() {
            SegModel::Key(k) => {
                assert(prev.push('.') + k =~= prev + step_text(path.last()));
            },
            SegModel::Index(i) => {
                assert(prev.push('[') + decimal(i as nat) + seq![']'] =~= prev + step_text(path.last()));
            },
        }
        assert(prev + step_text(path.last()) =~= k0 + (steps_text(front.drop_first()) + step_text(path.last())));
    }
}

proof fn lemma_digit_char(d: nat)
    requires
        d < 10,
    ensures
        '0' <= digit_char(d) <= '9',
        ((digit_char(d) as u32) - ('0' as u32)) as nat == d,
{
    if d == 0 {
    } else if d == 1 {
    } else if d == 2 {
    } else if d == 3 {
    } else if d == 4 {
    } else if d == 5 {
    } else if d == 6 {
    } else if d == 7 {
    } else if d == 8 {
    } else {
    }
}

proof fn lemma_decimal_digits(n: nat)
    ensures
        decimal(n).len() > 0,
        forall|j: int| 0 <= j < decimal(n).len() ==> '0' <= #[trigger] decimal(n)[j] <= '9',
        digits_value(decimal(n)) == n,
    decreases n,
{
    if n >= 10 {
        lemma_decimal_digits(n / 10);
        let d = decimal(n / 10);
        let c = digit_char(n % 10);
        lemma_digit_char(n % 10);
        assert(decimal(n) == d.push(c));
        assert(decimal(n).drop_last() =~= d);
        assert forall|j: int| 0 <= j < decimal(n).len() implies '0' <= #[trigger] decimal(n)[j] <= '9' by {
            if j < d.len() {
                assert(decimal(n)[j] == d[j]);
            }
        }
        assert(((c as u32) - ('0' as u32)) as nat == n % 10);
        assert(decimal(n).last() == c);
        assert(digits_value(decimal(n)) == digits_value(d) * 10 + ((c as u32) - ('0' as u32)) as nat);
        assert(digits_value(d) == n / 10);
        assert((n / 10) * 10 + n % 10 == n);
    } else {
        lemma_digit_char(n);
        assert(decimal(n) == seq![digit_char(n)]);
        assert(decimal(n).drop_last() =~= Seq::<char>::empty());
        assert(decimal(n).last() == digit_char(n));
        assert(digits_value(Seq::<char>::empty()) == 0);
        assert(digits_value(decimal(n)) == 0 * 10 + ((digit_char(n) as u32) - ('0' as u32)) as nat);
    }
}

proof fn lemma_run_end_at(s: Seq<char>, from: int, to: int)
    requires
        0 <= from <= to <= s.len(),
        forall|j: int| from <= j < to ==> !is_delimiter(#[trigger] s[j]),
        to == s.len() || is_delimiter(s[to]),
    ensures
        run_end(s, from) == to,
    decreases to - from,
{
    if from < to {
        lemma_run_end_at(s, from + 1, to);
    }
}

proof fn lemma_digits_end_at(s: Seq<char>, from: int, to: int)
    requires
        0 <= from <= to < s.len(),
        forall|j: int| from <= j < to ==> '0' <= #[trigger] s[j] <= '9',
        !('0' <= s[to] <= '9'),
    ensures
        digits_end(s, from) == to,
    decreases to - from,
{
    if from < to {
        lemma_digits_end_at(s, from + 1, to);
    }
}

/// The spelling of steps starts with a delimiter, when there is one.
proof fn lemma_steps_text_start(path: Seq<SegModel>)
    ensures
        path.len() > 0 ==> steps_text(path).len() > 0 && is_delimiter(steps_text(path)[0]),
{
    if path.len() > 0 {
        let t = step_text(path[0]) + steps_text(path.drop_first());
        assert(t[0] == step_text(path[0])[0]);
    }
}

/// Parsing the spelling of plain steps, after any prefix, gives the steps.
proof fn lemma_parse_steps_text(pre: Seq<char>, path: Seq<SegModel>)
    requires
        plain_keys(path),
    ensures
        parse_steps(pre + steps_text(path), pre.len() as int) == Ok::<Seq<SegModel>, ParseFault>(path),
    decreases path.len(),
{
    let s = pre + steps_text(path);
    let from = pre.len() as int;
    if path.len() == 0 {
        assert(s =~= pre);
        assert(path =~= Seq::<SegModel>::empty());
    } else {
        let seg = path[0];
        let rest = path.drop_first();
        assert forall|i: int| 0 <= i < rest.len() && (#[trigger] rest[i]) is Key implies rest[i]->Key_0.len() > 0
            && forall|j: int| 0 <= j < rest[i]->Key_0.len() ==> !is_delimiter(#[trigger] rest[i]->Key_0[j]) by {
            assert(rest[i] == path[i + 1]);
        }
        let pre2 = pre + step_text(seg);
        assert(s =~= pre2 + steps_text(rest));
        lemma_parse_steps_text(pre2, rest);
        lemma_steps_text_start(rest);
        let tail = steps_text(rest);
        match seg {
            SegModel::Key(k) => {
                assert(path[0] is Key);
                assert(s[from] == '.');
                let to = pre2.len() as int;
                assert forall|j: int| from + 1 <= j < to implies !is_delimiter(#[trigger] s[j]) by {
                    assert(s[j] == k[j - from - 1]);
                }
                if to < s.len() {
                    assert(s[to] == tail[0]);
                }
                lemma_run_end_at(s, from + 1, to);
                assert(s.subrange(from + 1, to) =~= k);
                assert(seq![SegModel::Key(k)] + rest =~= path);
            },
            SegModel::Index(n) => {
                lemma_decimal_digits(n as nat);
                let d = decimal(n as nat);
                assert(s[from] == '[');
                let to = from + 1 + d.len();
                assert forall|j: int| from + 1 <= j < to implies '0' <= #[trigger] s[j] <= '9' by {
                    assert(s[j] == d[j - from - 1]);
                }
                assert(s[to] == ']');
                lemma_digits_end_at(s, from + 1, to);
                assert(s.subrange(from + 1, to) =~= d);
                assert(to + 1 == pre2.len());
                assert(seq![SegModel::Index(n)] + rest =~= path);
            },
        }
    }
}

/// Rendering a path whose first step is a plain key, and every key plain,
/// and parsing the rendering, gives the path back.
proof fn lemma_parse_rendered(path: Seq<SegModel>)
    requires
        path.len() > 0,
        path[0] is Key,
        plain_keys(path),
    ensures
        parse_path(rendered(path)) == Ok::<Seq<SegModel>, ParseFault>(path),
{
    let k0 = path[0]->Key_0;
    lemma_rendered_form(path);
    let rest = path.drop_first();
    assert forall|i: int| 0 <= i < rest.len() && (#[trigger] rest[i]) is Key implies rest[i]->Key_0.len() > 0
        && forall|j: int| 0 <= j < rest[i]->Key_0.len() ==> !is_delimiter(#[trigger] rest[i]->Key_0[j]) by {
        assert(rest[i] == path[i + 1]);
    }
    lemma_parse_steps_text(k0, rest);
    lemma_steps_text_start(rest);
    let s = k0 + steps_text(rest);
    assert forall|j: int| 0 <= j < k0.len() implies !is_delimiter(#[trigger] s[j]) by {
        assert(s[j] == k0[j]);
    }
    if k0.len() < s.len() {
        assert(s[k0.len() as int] == steps_text(rest)[0]);
    }
    lemma_run_end_at(s, 0, k0.len() as int);
    assert(s.subrange(0, k0.len() as int) =~= k0);
    assert(seq![SegModel::Key(k0)] + rest =~= path);
}

proof fn lemma_parse_steps_plain(s: Seq<char>, from: int)
    requires
        parse_steps(s, from) is Ok,
    ensures
        plain_keys(parse_steps(s, from)->Ok_0),
    decreases s.len() - from,
{
    if 0 <= from < s.len() {
        let q = parse_steps(s, from)->Ok_0;
        if s[from] == '.' {
            let end = run_end(s, from + 1);
            lemma_run_end(s, from + 1);
            lemma_parse_steps_plain(s, end);
            let rest = parse_steps(s, end)->Ok_0;
            let k = s.subrange(from + 1, end);
            assert(q == seq![SegModel::Key(k)] + rest);
            assert forall|i: int| 0 <= i < q.len() && (#[trigger] q[i]) is Key implies q[i]->Key_0.len() > 0
                && forall|j: int| 0 <= j < q[i]->Key_0.len() ==> !is_delimiter(#[trigger] q[i]->Key_0[j]) by {
                if i == 0 {
                    assert forall|j: int| 0 <= j < k.len() implies !is_delimiter(#[trigger] k[j]) by {
                        assert(k[j] == s[from + 1 + j]);
                    }
                } else {
                    assert(q[i] == rest[i - 1]);
                }
            }
        } else if s[from] == '[' {
            let end = digits_end(s, from + 1);
            lemma_digits_end(s, from + 1);
            lemma_parse_steps_plain(s, end + 1);
            let rest = parse_steps(s, end + 1)->Ok_0;
            assert forall|i: int| 0 <= i < q.len() && (#[trigger] q[i]) is Key implies q[i]->Key_0.len() > 0
                && forall|j: int| 0 <= j < q[i]->Key_0.len() ==> !is_delimiter(#[trigger] q[i]->Key_0[j]) by {
                assert(q[i] == rest[i - 1]);
            }
        }
    }
}

/// What parsing gives back: a path that starts with a plain key, all of
/// whose keys are plain.
pub proof fn lemma_parsed_is_plain(text: Seq<char>)
    requires
        parse_path(text) is Ok,
    ensures
        parse_path(text)->Ok_0.len() > 0,
        parse_path(text)->Ok_0[0] is Key,
        plain_keys(parse_path(text)->Ok_0),
{
    let end = run_end(text, 0);
    lemma_run_end(text, 0);
    lemma_parse_steps_plain(text, end);
    let rest = parse_steps(text, end)->Ok_0;
    let k = text.subrange(0, end);
    let q = parse_path(text)->Ok_0;
    assert(q == seq![SegModel::Key(k)] + rest);
    assert(q[0] == SegModel::Key(k));
    assert forall|i: int| 0 <= i < q.len() && (#[trigger] q[i]) is Key implies q[i]->Key_0.len() > 0
        && forall|j: int| 0 <= j < q[i]->Key_0.len() ==> !is_delimiter(#[trigger] q[i]->Key_0[j]) by {
        if i == 0 {
            assert forall|j: int| 0 <= j < k.len() implies !is_delimiter(#[trigger] k[j]) by {
                assert(k[j] == text[j]);
            }
        } else {
            assert(q[i] == rest[i - 1]);
        }
    }
}

/// Rendering a path and parsing the rendering gives the path back, for
/// every path that starts with a key and whose keys are non-empty and hold
/// none of `.[]` — every path that parsing produces is one. A key holding a
/// delimiter renders as more than one step.
pub proof fn law_render_then_parse_is_identity(path: Seq<SegModel>)
    requires
        path.len() > 0,
        path[0] is Key,
        plain_keys(path),
    ensures
        parse_path(rendered(path)) == Ok::<Seq<SegModel>, ParseFault>(path),
{
    lemma_parse_rendered(path);
}

/// Parsing, rendering and parsing again gives what the first parse gave:
/// `FromStr` after `Display` preserves the path, whatever the spelling it was
/// parsed from.
pub proof fn law_parsed_paths_survive_rendering(text: Seq<char>)
    requires
        parse_path(text) is Ok,
    ensures
        parse_path(rendered(parse_path(text)->Ok_0)) == parse_path(text),
{
    lemma_parsed_is_plain(text);
    lemma_parse_rendered(parse_path(text)->Ok_0);
}

/// A rendering holds a character that is neither a delimiter nor a digit
/// only where a key holds it.
pub proof fn lemma_rendered_avoids(path: Seq<SegModel>, c: char)
    requires
        !is_delimiter(c),
        !('0' <= c <= '9'),
        forall|i: int, j: int|
            0 <= i < path.len() && path[i] is Key && 0 <= j < path[i]->Key_0.len() ==> #[trigger] path[i]->Key_0[j]
                != c,
    ensures
        forall|j: int| 0 <= j < rendered(path).len() ==> #[trigger] rendered(path)[j] != c,
    decreases path.len(),
{
    if path.len() > 0 {
        let front = path.drop_last();
        assert forall|i: int, j: int|
            0 <= i < front.len() && front[i] is Key && 0 <= j < front[i]->Key_0.len() implies #[trigger] front[i]->Key_0[j]
            != c by {
            assert(front[i] == path[i]);
        }
        lemma_rendered_avoids(front, c);
        let prev = rendered(front);
        let r = rendered(path);
        match path.last() {
            SegModel::Key(k) => {
                assert forall|j: int| 0 <= j < r.len() implies #[trigger] r[j] != c by {
                    if prev.len() == 0 {
                        assert(r[j] == k[j]);
                        assert(path[path.len() - 1] == path.last());
                    } else if j < prev.len() {
                        assert(r[j] == prev[j]);
                    } else if j > prev.len() {
                        assert(r[j] == k[j - prev.len() - 1]);
                        assert(path[path.len() - 1] == path.last());
                    }
                }
            },
            SegModel::Index(n) => {
                lemma_decimal_digits(n as nat);
                let d = decimal(n as nat);
                assert forall|j: int| 0 <= j < r.len() implies #[trigger] r[j] != c by {
                    if j < prev.len() {
                        assert(r[j] == prev[j]);
                    } else if prev.len() < j < prev.len() + 1 + d.len() {
                        assert(r[j] == d[j - prev.len() - 1]);
                    }
                }
            },
        }
    }
}

proof fn lemma_parse_steps_chars(s: Seq<char>, from: int)
    requires
        parse_steps(s, from) is Ok,
    ensures
        forall|i: int, j: int|
            0 <= i < parse_steps(s, from)->Ok_0.len() && parse_steps(s, from)->Ok_0[i] is Key && 0 <= j
                < parse_steps(s, from)->Ok_0[i]->Key_0.len() ==> s.contains(#[trigger] parse_steps(s, from)->Ok_0[i]->Key_0[j]),
    decreases s.len() - from,
{
    if 0 <= from < s.len() {
        let q = parse_steps(s, from)->Ok_0;
        if s[from] == '.' {
            let end = run_end(s, from + 1);
            lemma_run_end(s, from + 1);
            lemma_parse_steps_chars(s, end);
            let rest = parse_steps(s, end)->Ok_0;
            let k = s.subrange(from + 1, end);
            assert(q == seq![SegModel::Key(k)] + rest);
            assert forall|i: int, j: int|
                0 <= i < q.len() && q[i] is Key && 0 <= j < q[i]->Key_0.len() implies s.contains(
                #[trigger] q[i]->Key_0[j],
            ) by {
                if i == 0 {
                    assert(k[j] == s[from + 1 + j]);
                } else {
                    assert(q[i] == rest[i - 1]);
                }
            }
        } else if s[from] == '[' {
            let end = digits_end(s, from + 1);
            lemma_digits_end(s, from + 1);
            lemma_parse_steps_chars(s, end + 1);
            let rest = parse_steps(s, end + 1)->Ok_0;
            assert forall|i: int, j: int|
                0 <= i < q.len() && q[i] is Key && 0 <= j < q[i]->Key_0.len() implies s.contains(
                #[trigger] q[i]->Key_0[j],
            ) by {
                assert(q[i] == rest[i - 1]);
            }
        }
    }
}

/// Every character of a parsed key is a character of the parsed text.
pub proof fn lemma_parsed_keys_from(text: Seq<char>)
    requires
        parse_path(text) is Ok,
    ensures
        forall|i: int, j: int|
            0 <= i < parse_path(text)->Ok_0.len() && parse_path(text)->Ok_0[i] is Key && 0 <= j
                < parse_path(text)->Ok_0[i]->Key_0.len() ==> text.contains(#[trigger] parse_path(text)->Ok_0[i]->Key_0[j]),
{
    let end = run_end(text, 0);
    lemma_run_end(text, 0);
    lemma_parse_steps_chars(text, end);
    let rest = parse_steps(text, end)->Ok_0;
    let k = text.subrange(0, end);
    let q = parse_path(text)->Ok_0;
    assert(q == seq![SegModel::Key(k)] + rest);
    assert forall|i: int, j: int|
        0 <= i < q.len() && q[i] is Key && 0 <= j < q[i]->Key_0.len() implies text.contains(
        #[trigger] q[i]->Key_0[j],
    ) by {
        if i == 0 {
            assert(k[j] == text[j]);
        } else {
            assert(q[i] == rest[i - 1]);
        }
    }
}

} // verus!
