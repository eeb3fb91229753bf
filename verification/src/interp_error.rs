//! What interpolation reports, and how it reads.
//!
//! Key paths and nothing else: this pass runs after the merge, and no layer
//! outlives the merge, so the file a reference was written in is unavailable.
//! No flag names either.

use vstd::prelude::*;
use crate::path::{clone_segs, render_path, rendered, segs_view, Seg, SegModel};
use crate::scan::{syntax_text, Syntax, SyntaxModel};
use crate::text::{owned, push_str};

verus! {

/// One thing wrong with one reference.
#[derive(Debug, PartialEq, Eq)]
pub enum Problem {
    /// A reference that is not spelled like one.
    Syntax { path: Vec<Seg>, error: Syntax },
    /// A reference that names nothing: a key the merged document does not
    /// have, or a variable the environment does not set.
    Unresolved { path: Vec<Seg>, reference: String },
    /// A container or a null in embedded position — `url = "http://${db}/"`.
    NotStringifiable { path: Vec<Seg>, reference: String, kind: &'static str },
}

/// What a [`Problem`] denotes.
pub enum ProblemModel {
    Syntax { path: Seq<SegModel>, error: SyntaxModel },
    Unresolved { path: Seq<SegModel>, reference: Seq<char> },
    NotStringifiable { path: Seq<SegModel>, reference: Seq<char>, kind: Seq<char> },
}

impl View for Problem {
    type V = ProblemModel;

    open spec fn view(&self) -> ProblemModel {
        match self {
            Problem::Syntax { path, error } => ProblemModel::Syntax { path: segs_view(path@), error: error@ },
            Problem::Unresolved { path, reference } => ProblemModel::Unresolved {
                path: segs_view(path@),
                reference: reference@,
            },
            Problem::NotStringifiable { path, reference, kind } => ProblemModel::NotStringifiable {
                path: segs_view(path@),
                reference: reference@,
                kind: kind@,
            },
        }
    }
}

/// The three kinds of problem, in the order a report lists them: a
/// malformed reference was never going to resolve, so it comes first.
#[derive(Debug, Clone, Copy, PartialEq, Eq, Structural)]
pub enum ProblemGroup {
    Syntax,
    Unresolved,
    NotStringifiable,
}

impl ProblemGroup {
    /// The header a group's lines stand under.
    pub open spec fn header(self) -> Seq<char> {
        match self {
            ProblemGroup::Syntax => "invalid reference"@,
            ProblemGroup::Unresolved => "unresolved reference"@,
            ProblemGroup::NotStringifiable => "reference cannot be rendered into a string"@,
        }
    }
}

impl ProblemModel {
    pub open spec fn path(self) -> Seq<SegModel> {
        match self {
            ProblemModel::Syntax { path, .. } => path,
            ProblemModel::Unresolved { path, .. } => path,
            ProblemModel::NotStringifiable { path, .. } => path,
        }
    }

    pub open spec fn group(self) -> ProblemGroup {
        match self {
            ProblemModel::Syntax { .. } => ProblemGroup::Syntax,
            ProblemModel::Unresolved { .. } => ProblemGroup::Unresolved,
            ProblemModel::NotStringifiable { .. } => ProblemGroup::NotStringifiable,
        }
    }

    /// What is wrong, after the path.
    pub open spec fn detail(self) -> Seq<char> {
        match self {
            ProblemModel::Syntax { error, .. } => syntax_text(error),
            ProblemModel::Unresolved { reference, .. } => "`"@ + reference + "`"@,
            ProblemModel::NotStringifiable { reference, kind, .. } => "`"@ + reference + "` is "@
                + article_of(kind) + " "@ + kind,
        }
    }

    /// `  --> path: detail`.
    pub open spec fn line(self) -> Seq<char> {
        "  --> "@ + rendered(self.path()) + ": "@ + self.detail()
    }
}

/// `an` before a vowel, `a` otherwise.
pub open spec fn article_of(kind: Seq<char>) -> Seq<char> {
    if kind.len() > 0 && (kind[0] == 'a' || kind[0] == 'e' || kind[0] == 'i' || kind[0] == 'o'
        || kind[0] == 'u') {
        "an"@
    } else {
        "a"@
    }
}

/// `object` and `array` take `an`; `null` takes `a`.
pub fn article(kind: &str) -> (r: &'static str)
    ensures
        r@ == article_of(kind@),
{
    let chars = crate::text::chars_of(kind);
    if chars.len() > 0 {
        let c = chars[0];
        if c == 'a' || c == 'e' || c == 'i' || c == 'o' || c == 'u' {
            return "an";
        }
    }
    "a"
}

/// The lines of the problems in group `g`, in order, under its header.
pub open spec fn group_lines(problems: Seq<ProblemModel>, g: ProblemGroup) -> Seq<Seq<char>> {
    let members = problems.filter(|p: ProblemModel| p.group() == g);
    if members.len() == 0 {
        Seq::empty()
    } else {
        seq![g.header()] + members.map_values(|p: ProblemModel| p.line())
    }
}

/// Lines joined by newlines, with none at the end.
pub open spec fn join_lines(lines: Seq<Seq<char>>) -> Seq<char>
    decreases lines.len(),
{
    if lines.len() == 0 {
        Seq::empty()
    } else if lines.len() == 1 {
        lines[0]
    } else {
        join_lines(lines.drop_last()).push('\n') + lines.last()
    }
}

/// How a list of problems reads: grouped by kind, in a fixed order.
pub open spec fn problems_text(problems: Seq<ProblemModel>) -> Seq<char> {
    join_lines(
        group_lines(problems, ProblemGroup::Syntax) + group_lines(problems, ProblemGroup::Unresolved)
            + group_lines(problems, ProblemGroup::NotStringifiable),
    )
}

/// The denotation of a list of problems.
pub open spec fn problems_view(p: Seq<Problem>) -> Seq<ProblemModel> {
    p.map_values(|x: Problem| x@)
}

impl Problem {
    /// Where in the merged document the offending string lives.
    pub fn path(&self) -> (r: &[Seg])
        ensures
            segs_view(r@) == self@.path(),
    {
        match self {
            Problem::Syntax { path, .. } => path.as_slice(),
            Problem::Unresolved { path, .. } => path.as_slice(),
            Problem::NotStringifiable { path, .. } => path.as_slice(),
        }
    }

    fn group(&self) -> (g: ProblemGroup)
        ensures
            g == self@.group(),
    {
        match self {
            Problem::Syntax { .. } => ProblemGroup::Syntax,
            Problem::Unresolved { .. } => ProblemGroup::Unresolved,
            Problem::NotStringifiable { .. } => ProblemGroup::NotStringifiable,
        }
    }

    fn line(&self) -> (out: String)
        ensures
            out@ == self@.line(),
    {
        let mut out = owned("  --> ");
        push_str(&mut out, render_path(self.path()).as_str());
        push_str(&mut out, ": ");
        match self {
            Problem::Syntax { error, .. } => {
                push_str(&mut out, error.to_string().as_str());
            },
            Problem::Unresolved { reference, .. } => {
                push_str(&mut out, "`");
                push_str(&mut out, reference.as_str());
                push_str(&mut out, "`");
            },
            Problem::NotStringifiable { reference, kind, .. } => {
                push_str(&mut out, "`");
                push_str(&mut out, reference.as_str());
                push_str(&mut out, "` is ");
                push_str(&mut out, article(kind));
                push_str(&mut out, " ");
                push_str(&mut out, kind);
            },
        }
        out
    }
}

/// A reference that resolves, directly or indirectly, to itself. Reported
/// as the whole chain rather than the one path it closed at.
#[derive(Debug, PartialEq, Eq)]
pub struct Cycle {
    chain: Vec<Vec<Seg>>,
}

impl Cycle {
    /// The cycle through these paths, in order.
    pub fn new(chain: Vec<Vec<Seg>>) -> (c: Cycle)
        ensures
            c.chain_view() == chain@.map_values(|p: Vec<Seg>| segs_view(p@)),
    {
        Cycle { chain }
    }

    /// The paths of the chain.
    pub closed spec fn chain_view(self) -> Seq<Seq<SegModel>> {
        self.chain@.map_values(|p: Vec<Seg>| segs_view(p@))
    }

    /// `reference cycle: `a` -> `b` -> `a``.
    pub fn to_string(&self) -> (out: String)
        ensures
            out@ == cycle_text(self.chain_view()),
    {
        let mut out = owned("reference cycle: ");
        let ghost chain = self.chain_view();
        let mut i: usize = 0;
        while i < self.chain.len()
            invariant
                i <= self.chain@.len(),
                chain == self.chain_view(),
                out@ == "reference cycle: "@ + hops_text(chain.take(i as int)),
            decreases self.chain.len() - i,
        {
            proof {
                assert(chain.take(i + 1).drop_last() =~= chain.take(i as int));
                assert(chain[i as int] == segs_view(self.chain@[i as int]@));
            }
            if i > 0 {
                push_str(&mut out, " -> `");
            } else {
                push_str(&mut out, "`");
            }
            push_str(&mut out, render_path(self.chain[i].as_slice()).as_str());
            push_str(&mut out, "`");
            i += 1;
            proof {
                let t = chain.take(i as int);
                if i == 1 {
                    assert(hops_text(t) == hops_text(t.drop_last()) + "`"@ + rendered(t.last()) + "`"@);
                    assert(hops_text(t.drop_last()) == Seq::<char>::empty());
                }
                assert(out@ =~= "reference cycle: "@ + hops_text(t));
            }
        }
        proof {
            assert(chain.take(chain.len() as int) =~= chain);
        }
        out
    }
}

/// `` `a` -> `b` ``.
pub open spec fn hops_text(chain: Seq<Seq<SegModel>>) -> Seq<char>
    decreases chain.len(),
{
    if chain.len() == 0 {
        Seq::empty()
    } else if chain.len() == 1 {
        "`"@ + rendered(chain[0]) + "`"@
    } else {
        hops_text(chain.drop_last()) + " -> `"@ + rendered(chain.last()) + "`"@
    }
}

/// How a cycle reads.
pub open spec fn cycle_text(chain: Seq<Seq<SegModel>>) -> Seq<char> {
    "reference cycle: "@ + hops_text(chain)
}

/// Why interpolation failed. Everything a document gets wrong is collected
/// and reported together; a cycle is the exception, since resolution cannot
/// continue past it, and arrives alone.
#[derive(Debug, PartialEq, Eq)]
pub enum InterpError {
    Problems(Vec<Problem>),
    Cycle(Cycle),
}

impl InterpError {
    /// The report, as `Display` would print it: problems grouped by kind,
    /// or the cycle's chain. No trailing newline.
    pub fn to_string(&self) -> (out: String)
        ensures
            match self {
                InterpError::Problems(ps) => out@ == problems_text(problems_view(ps@)),
                InterpError::Cycle(c) => out@ == cycle_text(c.chain_view()),
            },
    {
        match self {
            InterpError::Cycle(c) => c.to_string(),
            InterpError::Problems(ps) => {
                let ghost pv = problems_view(ps@);
                let mut lines: Vec<String> = Vec::new();
                push_group(&mut lines, ps, ProblemGroup::Syntax);
                push_group(&mut lines, ps, ProblemGroup::Unresolved);
                push_group(&mut lines, ps, ProblemGroup::NotStringifiable);
                proof {
                    assert(lines@.map_values(|l: String| l@) =~= group_lines(pv, ProblemGroup::Syntax)
                        + group_lines(pv, ProblemGroup::Unresolved) + group_lines(pv, ProblemGroup::NotStringifiable));
                }
                join(&lines)
            },
        }
    }
}

/// Appends the header and lines of group `g`, if it has members.
fn push_group(lines: &mut Vec<String>, ps: &Vec<Problem>, g: ProblemGroup)
    ensures
        final(lines)@.map_values(|l: String| l@) == old(lines)@.map_values(|l: String| l@) + group_lines(
            problems_view(ps@),
            g,
        ),
{
    let ghost pv = problems_view(ps@);
    let ghost start = lines@.map_values(|l: String| l@);
    let mut members: Vec<String> = Vec::new();
    let mut i: usize = 0;
    while i < ps.len()
        invariant
            i <= ps@.len(),
            pv == problems_view(ps@),
            members@.map_values(|l: String| l@) == pv.take(i as int).filter(|p: ProblemModel| p.group() == g).map_values(
                |p: ProblemModel| p.line(),
            ),
        decreases ps.len() - i,
    {
        let ghost before = members@;
        proof {
            assert(pv.take(i + 1).drop_last() =~= pv.take(i as int));
            assert(pv.take(i + 1).last() == ps@[i as int]@);
            reveal(Seq::filter);
        }
        if ps[i].group() == g {
            members.push(ps[i].line());
            proof {
                assert(members@.map_values(|l: String| l@) =~= before.map_values(|l: String| l@).push(ps@[i as int]@.line()));
            }
        } else {
            proof {
                assert(members@ == before);
            }
        }
        i += 1;
    }
    proof {
        assert(pv.take(ps@.len() as int) =~= pv);
    }
    if members.len() > 0 {
        let header = match g {
            ProblemGroup::Syntax => owned("invalid reference"),
            ProblemGroup::Unresolved => owned("unresolved reference"),
            ProblemGroup::NotStringifiable => owned("reference cannot be rendered into a string"),
        };
        lines.push(header);
        let ghost mid = lines@.map_values(|l: String| l@);
        let ghost ms = members@.map_values(|l: String| l@);
        for m in it: members.into_iter()
            invariant
                it.seq().map_values(|l: String| l@) == ms,
                lines@.map_values(|l: String| l@) == mid + ms.take(it.index() as int),
        {
            let ghost prev = lines@;
            lines.push(m);
            proof {
                let k = it.index() + 1;
                assert(ms.take(k) =~= ms.take(k - 1).push(m@));
                assert(lines@.map_values(|l: String| l@) =~= prev.map_values(|l: String| l@).push(m@));
            }
        }
        proof {
            assert(ms.take(ms.len() as int) =~= ms);
            assert(lines@.map_values(|l: String| l@) =~= start + group_lines(pv, g));
        }
    } else {
        proof {
            assert(lines@.map_values(|l: String| l@) =~= start + group_lines(pv, g));
        }
    }
}

/// The lines joined by newlines.
fn join(lines: &Vec<String>) -> (out: String)
    ensures
        out@ == join_lines(lines@.map_values(|l: String| l@)),
{
    let ghost lv = lines@.map_values(|l: String| l@);
    let mut out = String::new();
    let mut i: usize = 0;
    while i < lines.len()
        invariant
            i <= lines@.len(),
            lv == lines@.map_values(|l: String| l@),
            out@ == join_lines(lv.take(i as int)),
        decreases lines.len() - i,
    {
        proof {
            assert(lv.take(i + 1).drop_last() =~= lv.take(i as int));
        }
        if i > 0 {
            out.push('\n');
        }
        push_str(&mut out, lines[i].as_str());
        i += 1;
        proof {
            let t = lv.take(i as int);
            assert(t.last() == lines@[i - 1]@);
            if i == 1 {
                assert(join_lines(t) == t[0]);
            }
            assert(out@ =~= join_lines(t));
        }
    }
    proof {
        assert(lv.take(lv.len() as int) =~= lv);
    }
    out
}

} // verus!
