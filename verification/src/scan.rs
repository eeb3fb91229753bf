//! Splitting a string into literal text and reference bodies.
//!
//! Flat and non-recursive by design. This runs on string leaves after the
//! document has been parsed, so it never meets a format's escapes — those were
//! resolved by the format parser long before the merge.

use vstd::prelude::*;
use crate::text::{chars_of, decimal, owned, push_decimal, push_str, string_from};

verus! {

/// A malformed reference. Carries the offending text or offset and nothing
/// else — no key path and no flag names.
#[derive(Debug, PartialEq, Eq)]
pub enum Syntax {
    /// `${` with no `}` after it; the offset is in UTF-8 bytes.
    Unterminated { offset: usize },
    /// `${}` — a reference to nothing.
    EmptyRef,
    /// `${a${b}}`. The end of a reference is the first `}`, so a nested `${`
    /// has no reading that is not a guess.
    Nested { body: String },
    /// `${env:}` — the namespace with no variable after it.
    EmptyEnvName,
    /// `${a..b}` — a dotted path with an empty segment.
    EmptySegment { body: String },
    /// `${servers[x]}` — a bracket step that is not an array index.
    BadIndex { body: String },
}

/// What a [`Syntax`] denotes.
pub enum SyntaxModel {
    Unterminated { offset: usize },
    EmptyRef,
    Nested { body: Seq<char> },
    EmptyEnvName,
    EmptySegment { body: Seq<char> },
    BadIndex { body: Seq<char> },
}

impl View for Syntax {
    type V = SyntaxModel;

    open spec fn view(&self) -> SyntaxModel {
        match self {
            Syntax::Unterminated { offset } => SyntaxModel::Unterminated { offset: *offset },
            Syntax::EmptyRef => SyntaxModel::EmptyRef,
            Syntax::Nested { body } => SyntaxModel::Nested { body: body@ },
            Syntax::EmptyEnvName => SyntaxModel::EmptyEnvName,
            Syntax::EmptySegment { body } => SyntaxModel::EmptySegment { body: body@ },
            Syntax::BadIndex { body } => SyntaxModel::BadIndex { body: body@ },
        }
    }
}

/// The message a malformed reference displays.
pub open spec fn syntax_text(e: SyntaxModel) -> Seq<char> {
    match e {
        SyntaxModel::Unterminated { offset } => "unterminated `${` at offset "@ + decimal(offset as nat),
        SyntaxModel::EmptyRef => "empty reference `${}`"@,
        SyntaxModel::Nested { body } => "nested `${` in `${"@ + body + "}`"@,
        SyntaxModel::EmptyEnvName => "empty variable name in `${env:}`"@,
        SyntaxModel::EmptySegment { body } => "empty segment in reference `${"@ + body + "}`"@,
        SyntaxModel::BadIndex { body } => "malformed index in reference `${"@ + body + "}`"@,
    }
}

impl Syntax {
    /// The message, as `Display` would print it.
    pub fn to_string(&self) -> (out: String)
        ensures
            out@ == syntax_text(self@),
    {
        match self {
            Syntax::Unterminated { offset } => {
                let mut out = owned("unterminated `${` at offset ");
                push_decimal(&mut out, *offset as u64);
                out
            },
            Syntax::EmptyRef => owned("empty reference `${}`"),
            Syntax::Nested { body } => {
                let mut out = owned("nested `${` in `${");
                push_str(&mut out, body.as_str());
                push_str(&mut out, "}`");
                out
            },
            Syntax::EmptyEnvName => owned("empty variable name in `${env:}`"),
            Syntax::EmptySegment { body } => {
                let mut out = owned("empty segment in reference `${");
                push_str(&mut out, body.as_str());
                push_str(&mut out, "}`");
                out
            },
            Syntax::BadIndex { body } => {
                let mut out = owned("malformed index in reference `${");
                push_str(&mut out, body.as_str());
                push_str(&mut out, "}`");
                out
            },
        }
    }
}

impl Clone for Syntax {
    fn clone(&self) -> (r: Self)
        ensures
            r@ == self@,
    {
        match self {
            Syntax::Unterminated { offset } => Syntax::Unterminated { offset: *offset },
            Syntax::EmptyRef => Syntax::EmptyRef,
            Syntax::Nested { body } => Syntax::Nested { body: body.clone() },
            Syntax::EmptyEnvName => Syntax::EmptyEnvName,
            Syntax::EmptySegment { body } => Syntax::EmptySegment { body: body.clone() },
            Syntax::BadIndex { body } => Syntax::BadIndex { body: body.clone() },
        }
    }
}

/// One span of a scanned string. A `Ref` body is left unparsed: the `env:`
/// prefix and the path split are resolution's business.
#[derive(Debug, PartialEq, Eq)]
pub enum Piece {
    Literal(String),
    Ref(String),
    Malformed { spelling: String, error: Syntax },
}

/// What a [`Piece`] denotes.
pub enum PieceModel {
    Literal(Seq<char>),
    Ref(Seq<char>),
    Malformed { spelling: Seq<char>, error: SyntaxModel },
}

impl View for Piece {
    type V = PieceModel;

    open spec fn view(&self) -> PieceModel {
        match self {
            Piece::Literal(t) => PieceModel::Literal(t@),
            Piece::Ref(b) => PieceModel::Ref(b@),
            Piece::Malformed { spelling, error } => PieceModel::Malformed {
                spelling: spelling@,
                error: error@,
            },
        }
    }
}

/// The denotation of a list of pieces.
pub open spec fn pieces_view(p: Seq<Piece>) -> Seq<PieceModel> {
    p.map_values(|x: Piece| x@)
}

// --- the grammar ------------------------------------------------------------

/// The first `c` at or after `from`, or the end of the text.
pub open spec fn find_from(s: Seq<char>, from: int, c: char) -> int
    decreases s.len() - from,
{
    if from >= s.len() {
        s.len() as int
    } else if s[from] == c {
        from
    } else {
        find_from(s, from + 1, c)
    }
}

/// `find_from` stays in bounds, and skips no `c`.
pub proof fn lemma_find_from(s: Seq<char>, from: int, c: char)
    requires
        0 <= from,
    ensures
        from <= find_from(s, from, c) || from > s.len(),
        find_from(s, from, c) <= s.len(),
        find_from(s, from, c) < s.len() ==> s[find_from(s, from, c)] == c,
        forall|j: int| from <= j < find_from(s, from, c) ==> s[j] != c,
    decreases s.len() - from,
{
    if from < s.len() && s[from] != c {
        lemma_find_from(s, from + 1, c);
    }
}

/// Whether `${` occurs in `b`.
pub open spec fn has_open(b: Seq<char>) -> bool {
    exists|i: int| 0 <= i < b.len() - 1 && #[trigger] open_at(b, i)
}

/// Whether `${` starts at `i`.
pub open spec fn open_at(b: Seq<char>, i: int) -> bool {
    b[i] == '$' && b[i + 1] == '{'
}

/// How many bytes a character takes in UTF-8.
pub open spec fn utf8_width(c: char) -> nat {
    if (c as u32) < 0x80 {
        1
    } else if (c as u32) < 0x800 {
        2
    } else if (c as u32) < 0x10000 {
        3
    } else {
        4
    }
}

/// How many bytes a text takes in UTF-8.
pub open spec fn utf8_len(s: Seq<char>) -> nat
    decreases s.len(),
{
    if s.len() == 0 {
        0
    } else {
        utf8_len(s.drop_last()) + utf8_width(s.last())
    }
}

/// The byte offset of position `at`, as a `usize`.
pub open spec fn byte_offset(s: Seq<char>, at: int) -> usize {
    if utf8_len(s.take(at)) <= usize::MAX {
        utf8_len(s.take(at)) as usize
    } else {
        usize::MAX
    }
}

/// A pending literal, if it is not empty.
pub open spec fn literal_piece(t: Seq<char>) -> Seq<PieceModel> {
    if t.len() == 0 {
        Seq::empty()
    } else {
        seq![PieceModel::Literal(t)]
    }
}

/// The pieces of `s` from `cursor` on, with a literal pending since `lit`:
/// `$$` is a literal `$`, `${body}` a reference, and a `$` followed by
/// anything else ordinary text. A malformed reference becomes a piece of its
/// own; an unterminated one consumes the rest of the text.
pub open spec fn scan_from(s: Seq<char>, cursor: int, lit: int) -> Seq<PieceModel>
    decreases s.len() - cursor,
{
    if cursor < 0 || cursor >= s.len() {
        literal_piece(s.subrange(lit, s.len() as int))
    } else {
        let at = find_from(s, cursor, '$');
        proof {
            lemma_find_from(s, cursor, '$');
        }
        if at >= s.len() {
            literal_piece(s.subrange(lit, s.len() as int))
        } else if at + 1 < s.len() && s[at + 1] == '$' {
            literal_piece(s.subrange(lit, at)) + seq![PieceModel::Literal(seq!['$'])] + scan_from(
                s,
                at + 2,
                at + 2,
            )
        } else if at + 1 < s.len() && s[at + 1] == '{' {
            let close = find_from(s, at + 2, '}');
            proof {
                lemma_find_from(s, at + 2, '}');
            }
            let head = literal_piece(s.subrange(lit, at));
            if close >= s.len() {
                head + seq![
                    PieceModel::Malformed {
                        spelling: s.subrange(at, s.len() as int),
                        error: SyntaxModel::Unterminated { offset: byte_offset(s, at) },
                    },
                ]
            } else {
                let body = s.subrange(at + 2, close);
                let spelled = s.subrange(at, close + 1);
                let piece = if body.len() == 0 {
                    PieceModel::Malformed { spelling: spelled, error: SyntaxModel::EmptyRef }
                } else if has_open(body) {
                    PieceModel::Malformed { spelling: spelled, error: SyntaxModel::Nested { body } }
                } else {
                    PieceModel::Ref(body)
                };
                head + seq![piece] + scan_from(s, close + 1, close + 1)
            }
        } else {
            scan_from(s, at + 1, lit)
        }
    }
}

/// The pieces of `s`; none at all when `s` has no `$` — the caller's signal
/// to leave the value alone.
pub open spec fn scan_spec(s: Seq<char>) -> Seq<PieceModel> {
    if !s.contains('$') {
        Seq::empty()
    } else {
        scan_from(s, 0, 0)
    }
}

// --- the scanner -----------------------------------------------------------

fn find_char(s: &Vec<char>, from: usize, c: char) -> (r: usize)
    requires
        from <= s@.len(),
    ensures
        r == find_from(s@, from as int, c),
{
    let mut i = from;
    while i < s.len() && s[i] != c
        invariant
            from <= i <= s@.len(),
            find_from(s@, from as int, c) == find_from(s@, i as int, c),
        decreases s.len() - i,
    {
        i += 1;
    }
    i
}

fn contains_open(s: &Vec<char>, from: usize, to: usize) -> (r: bool)
    requires
        from <= to <= s@.len(),
    ensures
        r == has_open(s@.subrange(from as int, to as int)),
{
    let ghost b = s@.subrange(from as int, to as int);
    let mut i = from;
    while to - i > 1
        invariant
            from <= i <= to,
            to <= s@.len(),
            b == s@.subrange(from as int, to as int),
            forall|j: int| 0 <= j < i - from && j < b.len() - 1 ==> !#[trigger] open_at(b, j),
        decreases to - i,
    {
        if s[i] == '$' && s[i + 1] == '{' {
            proof {
                assert(open_at(b, i - from));
            }
            return true;
        }
        i += 1;
    }
    false
}

fn width_sum(s: &Vec<char>, to: usize) -> (r: usize)
    requires
        to <= s@.len(),
    ensures
        r == byte_offset(s@, to as int),
{
    let mut sum: u128 = 0;
    let mut i: usize = 0;
    while i < to
        invariant
            i <= to <= s@.len(),
            sum == utf8_len(s@.take(i as int)),
            sum <= 4 * i,
        decreases to - i,
    {
        let c = s[i];
        let w: u128 = if (c as u32) < 0x80 {
            1
        } else if (c as u32) < 0x800 {
            2
        } else if (c as u32) < 0x10000 {
            3
        } else {
            4
        };
        proof {
            assert(s@.take(i + 1).drop_last() =~= s@.take(i as int));
        }
        sum = sum + w;
        i += 1;
    }
    if sum <= usize::MAX as u128 {
        sum as usize
    } else {
        usize::MAX
    }
}

fn push_literal(pieces: &mut Vec<Piece>, s: &Vec<char>, from: usize, to: usize)
    requires
        from <= to <= s@.len(),
    ensures
        pieces_view(final(pieces)@) == pieces_view(old(pieces)@) + literal_piece(s@.subrange(from as int, to as int)),
{
    if from < to {
        let ghost before = pieces@;
        pieces.push(Piece::Literal(string_from(s.as_slice(), from, to)));
        proof {
            assert(pieces_view(pieces@) =~= pieces_view(before) + literal_piece(s@.subrange(from as int, to as int)));
        }
    } else {
        proof {
            assert(pieces_view(pieces@) =~= pieces_view(pieces@) + literal_piece(s@.subrange(from as int, to as int)));
        }
    }
}

/// Splits `s` into literals and reference bodies.
///
/// Returns an empty vector when `s` contains no `$` at all. `$$` yields a
/// literal `$`; a `$` followed by anything else is ordinary text, so `USD $5`
/// needs no escaping. Malformed references are returned as pieces rather
/// than aborting the scan, so later references are still found; an
/// unterminated reference consumes the remainder of the string.
pub fn scan(text: &str) -> (pieces: Vec<Piece>)
    ensures
        pieces_view(pieces@) == scan_spec(text@),
{
    let s = chars_of(text);
    let n = s.len();
    let first = find_char(&s, 0, '$');
    proof {
        lemma_find_from(s@, 0, '$');
        if s@.contains('$') {
            let k = choose|k: int| 0 <= k < s@.len() && s@[k] == '$';
        }
    }
    let mut pieces: Vec<Piece> = Vec::new();
    if first >= n {
        return pieces;
    }
    let mut cursor: usize = 0;
    let mut lit: usize = 0;
    while cursor < n
        invariant
            n == s@.len(),
            s@ == text@,
            lit <= cursor <= n,
            pieces_view(pieces@) + scan_from(s@, cursor as int, lit as int) == scan_from(s@, 0, 0),
        decreases n - cursor,
    {
        let at = find_char(&s, cursor, '$');
        proof {
            lemma_find_from(s@, cursor as int, '$');
        }
        let ghost before = pieces_view(pieces@);
        if at >= n {
            push_literal(&mut pieces, &s, lit, n);
            proof {
                assert(pieces_view(pieces@) + scan_from(s@, n as int, n as int) =~= before + scan_from(
                    s@,
                    cursor as int,
                    lit as int,
                ));
            }
            cursor = n;
            lit = n;
        } else if at + 1 < n && s[at + 1] == '$' {
            push_literal(&mut pieces, &s, lit, at);
            let dollar = owned("$");
            proof {
                reveal_strlit("$");
                assert(dollar@ =~= seq!['$']);
            }
            pieces.push(Piece::Literal(dollar));
            proof {
                assert(pieces_view(pieces@) =~= before + literal_piece(s@.subrange(lit as int, at as int))
                    + seq![PieceModel::Literal(seq!['$'])]);
            }
            cursor = at + 2;
            lit = cursor;
        } else if at + 1 < n && s[at + 1] == '{' {
            let close = find_char(&s, at + 2, '}');
            proof {
                lemma_find_from(s@, at + 2, '}');
            }
            push_literal(&mut pieces, &s, lit, at);
            let ghost head = pieces_view(pieces@);
            if close >= n {
                let offset = width_sum(&s, at);
                pieces.push(Piece::Malformed {
                    spelling: string_from(s.as_slice(), at, n),
                    error: Syntax::Unterminated { offset },
                });
                proof {
                    assert(pieces_view(pieces@) =~= head.push(pieces@.last()@));
                    assert(pieces_view(pieces@) + scan_from(s@, n as int, n as int) =~= before + scan_from(
                        s@,
                        cursor as int,
                        lit as int,
                    ));
                }
                cursor = n;
                lit = n;
            } else {
                let piece = if close == at + 2 {
                    Piece::Malformed { spelling: string_from(s.as_slice(), at, close + 1), error: Syntax::EmptyRef }
                } else if contains_open(&s, at + 2, close) {
                    Piece::Malformed {
                        spelling: string_from(s.as_slice(), at, close + 1),
                        error: Syntax::Nested { body: string_from(s.as_slice(), at + 2, close) },
                    }
                } else {
                    Piece::Ref(string_from(s.as_slice(), at + 2, close))
                };
                pieces.push(piece);
                proof {
                    assert(pieces_view(pieces@) =~= head.push(pieces@.last()@));
                }
                cursor = close + 1;
                lit = cursor;
            }
        } else {
            cursor = at + 1;
        }
    }
    let ghost before = pieces_view(pieces@);
    push_literal(&mut pieces, &s, lit, n);
    proof {
        assert(scan_from(s@, n as int, lit as int) == literal_piece(s@.subrange(lit as int, n as int)));
        assert(pieces_view(pieces@) =~= scan_from(s@, 0, 0));
    }
    pieces
}

/// The source spelling of a reference, for splicing back the text of a piece
/// that could not be resolved.
pub struct Spelled(pub String);

impl Spelled {
    /// `${body}`.
    pub fn to_string(&self) -> (out: String)
        ensures
            out@ == "${"@ + self.0@ + "}"@,
    {
        let mut out = owned("${");
        push_str(&mut out, self.0.as_str());
        push_str(&mut out, "}");
        out
    }
}

proof fn lemma_find_at(s: Seq<char>, from: int, to: int, c: char)
    requires
        0 <= from <= to <= s.len(),
        forall|j: int| from <= j < to ==> s[j] != c,
        to == s.len() || s[to] == c,
    ensures
        find_from(s, from, c) == to,
    decreases to - from,
{
    if from < to {
        lemma_find_at(s, from + 1, to, c);
    }
}

/// Scanning the spelling of a reference gives the reference back: a body
/// that is not empty, holds no `}` and opens no `${` of its own, spelled
/// as `${body}`, scans to that one reference.
pub proof fn law_spelled_reference_scans_back(body: Seq<char>)
    requires
        body.len() > 0,
        !body.contains('}'),
        !has_open(body),
    ensures
        scan_spec("${"@ + body + "}"@) == seq![PieceModel::Ref(body)],
{
    reveal_strlit("${");
    reveal_strlit("}");
    let s = "${"@ + body + "}"@;
    let close = body.len() as int + 2;
    assert(s[0] == '$');
    assert(s[1] == '{');
    assert(s[close] == '}');
    assert(s.contains('$'));
    lemma_find_at(s, 0, 0, '$');
    assert forall|j: int| 2 <= j < close implies s[j] != '}' by {
        assert(s[j] == body[j - 2]);
        if s[j] == '}' {
            assert(body.contains('}'));
        }
    }
    lemma_find_at(s, 2, close, '}');
    assert(s.subrange(2, close) =~= body);
    assert(s.subrange(0, 0) =~= Seq::<char>::empty());
    assert(s.subrange(close + 1, s.len() as int) =~= Seq::<char>::empty());
    assert(scan_from(s, close + 1, close + 1) == literal_piece(Seq::<char>::empty()));
    assert(literal_piece(Seq::<char>::empty()) =~= Seq::<PieceModel>::empty());
    assert(seq![PieceModel::Ref(body)] + Seq::<PieceModel>::empty() =~= seq![PieceModel::Ref(body)]);
    assert(Seq::<PieceModel>::empty() + seq![PieceModel::Ref(body)] =~= seq![PieceModel::Ref(body)]);
}

} // verus!
