//! A directory tree of config groups: the pure half of `knf matrix`.
//!
//! A directory is a group and the files within it are mutually exclusive
//! alternatives; each subdirectory is an independent axis that also applies.
//! Nothing here touches the filesystem.

use vstd::prelude::*;
use std::path::{Path, PathBuf};
use crate::format::{as_path, buf_path, display_path, display_text};
use crate::format::Format;
use crate::merge::{fold_spec, merge_with, MergeError, MergeFault, MergeOptions};
use crate::value::{Value, ValueModel};
use crate::text::{
    eq_index, eq_position, chars_lt, chars_of, decimal, lemma_chars_lt_asymmetric, lemma_chars_lt_irreflexive,
    lemma_chars_lt_transitive, lemma_chars_lt_trichotomy, owned, push_decimal, push_str, str_eq, str_lt, string_from,
};

verus! {

/// A set of mutually exclusive alternatives.
#[derive(Debug)]
pub struct Group {
    /// Path relative to the root, `/`-separated (`db`, `db/tuning`). The
    /// root directory's own file group is named by the root's basename.
    pub id: String,
    /// Never empty: a directory with no eligible files contributes no group.
    pub alternatives: Vec<Alternative>,
}

/// One file of a group.
#[derive(Debug)]
pub struct Alternative {
    /// File stem — the name used in pins and in output filenames.
    pub name: String,
    pub path: PathBuf,
}

/// The text `PathBuf::from` makes a path of.
pub uninterp spec fn path_from_text(text: Seq<char>) -> PathBuf;

/// Calls `PathBuf::from` on a string; the path is a function of the text.
#[verifier::external_body]
fn path_from(text: String) -> (r: PathBuf)
    ensures
        r == path_from_text(text@),
{
    PathBuf::from(text)
}

/// Why a matrix invocation was rejected.
#[derive(Debug, PartialEq, Eq)]
pub enum MatrixError {
    /// A pin names a group the tree does not have.
    UnknownGroup { group: String, known: Vec<String> },
    /// A pin names an alternative its group does not have.
    UnknownChoice { group: String, choice: String, choices: Vec<String> },
    /// One group pinned twice.
    PinnedTwice { group: String },
    /// No positional that is not a pin.
    NoDirectory,
    /// More than one positional that is not a pin.
    TooManyDirectories { names: Vec<String> },
}

/// Items joined by `sep`.
pub open spec fn joined_by(items: Seq<Seq<char>>, sep: Seq<char>) -> Seq<char>
    decreases items.len(),
{
    if items.len() == 0 {
        Seq::empty()
    } else if items.len() == 1 {
        items[0]
    } else {
        joined_by(items.drop_last(), sep) + sep + items.last()
    }
}

/// The views of some strings.
pub open spec fn texts(v: Seq<String>) -> Seq<Seq<char>> {
    v.map_values(|s: String| s@)
}

/// `items` joined by `sep`.
pub fn join(items: &[String], sep: &str) -> (out: String)
    ensures
        out@ == joined_by(texts(items@), sep@),
{
    let ghost all = texts(items@);
    let mut out = String::new();
    let mut i: usize = 0;
    while i < items.len()
        invariant
            i <= items@.len(),
            all == texts(items@),
            out@ == joined_by(all.take(i as int), sep@),
        decreases items.len() - i,
    {
        proof {
            assert(all.take(i + 1).drop_last() =~= all.take(i as int));
        }
        if i > 0 {
            push_str(&mut out, sep);
        }
        push_str(&mut out, items[i].as_str());
        i += 1;
        proof {
            let t = all.take(i as int);
            if i == 1 {
                assert(joined_by(t, sep@) == t[0]);
            }
            assert(out@ =~= joined_by(t, sep@));
        }
    }
    proof {
        assert(all.take(all.len() as int) =~= all);
    }
    out
}

impl MatrixError {
    /// The message, with its help line.
    pub fn to_string(&self) -> (out: String)
        ensures
            match self {
                MatrixError::UnknownGroup { group, known } => out@ == "no group `"@ + group@ + "`\nhelp: groups are "@
                    + joined_by(texts(known@), ", "@),
                MatrixError::UnknownChoice { group, choice, choices } => out@ == "group `"@ + group@
                    + "` has no alternative `"@ + choice@ + "`\nhelp: alternatives are "@ + joined_by(
                    texts(choices@),
                    ", "@,
                ),
                MatrixError::PinnedTwice { group } => out@ == "group `"@ + group@ + "` is pinned twice"@,
                MatrixError::NoDirectory => out@ == "expected a directory\nhelp: knf matrix config/"@,
                MatrixError::TooManyDirectories { names } => out@ == "expected one directory, got "@ + decimal(
                    names@.len(),
                ) + ": "@ + joined_by(texts(names@), ", "@)
                    + "\nhelp: arguments containing `=` are group pins; everything else is the directory"@,
            },
    {
        match self {
            MatrixError::UnknownGroup { group, known } => {
                let mut out = owned("no group `");
                push_str(&mut out, group.as_str());
                push_str(&mut out, "`\nhelp: groups are ");
                push_str(&mut out, join(known.as_slice(), ", ").as_str());
                out
            },
            MatrixError::UnknownChoice { group, choice, choices } => {
                let mut out = owned("group `");
                push_str(&mut out, group.as_str());
                push_str(&mut out, "` has no alternative `");
                push_str(&mut out, choice.as_str());
                push_str(&mut out, "`\nhelp: alternatives are ");
                push_str(&mut out, join(choices.as_slice(), ", ").as_str());
                out
            },
            MatrixError::PinnedTwice { group } => {
                let mut out = owned("group `");
                push_str(&mut out, group.as_str());
                push_str(&mut out, "` is pinned twice");
                out
            },
            MatrixError::NoDirectory => owned("expected a directory\nhelp: knf matrix config/"),
            MatrixError::TooManyDirectories { names } => {
                let mut out = owned("expected one directory, got ");
                push_decimal(&mut out, names.len() as u64);
                push_str(&mut out, ": ");
                push_str(&mut out, join(names.as_slice(), ", ").as_str());
                push_str(&mut out, "\nhelp: arguments containing `=` are group pins; everything else is the directory");
                out
            },
        }
    }
}

// --- groups ------------------------------------------------------------------

/// What the enumeration reads of a group: its id, and the names of its
/// alternatives in order.
pub open spec fn group_view(g: Group) -> (Seq<char>, Seq<Seq<char>>) {
    (g.id@, g.alternatives@.map_values(|a: Alternative| a.name@))
}

/// The groups, as the enumeration reads them.
pub open spec fn groups_view(gs: Seq<Group>) -> Seq<(Seq<char>, Seq<Seq<char>>)> {
    gs.map_values(|g: Group| group_view(g))
}

/// `id=name` for each alternative.
pub open spec fn choice_names_of(g: (Seq<char>, Seq<Seq<char>>)) -> Seq<Seq<char>> {
    g.1.map_values(|n: Seq<char>| g.0 + "="@ + n)
}

/// The index of the first entry whose first component is `key`, or -1.
pub open spec fn first_index<V>(s: Seq<(Seq<char>, V)>, key: Seq<char>) -> int
    decreases s.len(),
{
    if s.len() == 0 {
        -1
    } else if s[0].0 == key {
        0
    } else {
        let rest = first_index(s.drop_first(), key);
        if rest < 0 {
            -1
        } else {
            rest + 1
        }
    }
}

/// The index of the first name equal to `name`, or -1.
pub open spec fn name_index(names: Seq<Seq<char>>, name: Seq<char>) -> int
    decreases names.len(),
{
    if names.len() == 0 {
        -1
    } else if names[0] == name {
        0
    } else {
        let rest = name_index(names.drop_first(), name);
        if rest < 0 {
            -1
        } else {
            rest + 1
        }
    }
}

/// `0..n`.
pub open spec fn all_indices(n: nat) -> Seq<usize> {
    Seq::new(n, |i: int| i as usize)
}

/// The alternatives a group offers: exactly its pin, its one alternative,
/// or all of them. `None` when the pin names no alternative.
pub open spec fn axis_of(g: (Seq<char>, Seq<Seq<char>>), pins: Seq<(Seq<char>, Seq<char>)>) -> Option<Seq<usize>> {
    let p = first_index(pins, g.0);
    if p >= 0 {
        let at = name_index(g.1, pins[p].1);
        if at >= 0 {
            Some(seq![at as usize])
        } else {
            None
        }
    } else if g.1.len() == 1 {
        Some(seq![0usize])
    } else {
        Some(all_indices(g.1.len()))
    }
}

/// The first pin that names no group, if any.
pub open spec fn unknown_pin(groups: Seq<(Seq<char>, Seq<Seq<char>>)>, pins: Seq<(Seq<char>, Seq<char>)>) -> int
    decreases pins.len(),
{
    if pins.len() == 0 {
        -1
    } else if first_index(groups, pins.last().0) < 0 && unknown_pin(groups, pins.drop_last()) < 0 {
        pins.len() - 1
    } else {
        unknown_pin(groups, pins.drop_last())
    }
}

/// The first group whose pin names no alternative, if any.
pub open spec fn bad_pin_group(groups: Seq<(Seq<char>, Seq<Seq<char>>)>, pins: Seq<(Seq<char>, Seq<char>)>) -> int
    decreases groups.len(),
{
    if groups.len() == 0 {
        -1
    } else if axis_of(groups.last(), pins) is None && bad_pin_group(groups.drop_last(), pins) < 0 {
        groups.len() - 1
    } else {
        bad_pin_group(groups.drop_last(), pins)
    }
}

fn pin_index(pins: &[(String, String)], key: &str) -> (r: Option<usize>)
    ensures
        match r {
            Some(i) => first_index(pins_view(pins@), key@) == i && i < pins@.len(),
            None => first_index(pins_view(pins@), key@) == -1,
        },
{
    let ghost pv = pins_view(pins@);
    let mut i: usize = 0;
    proof {
        assert(pv.skip(0) =~= pv);
    }
    while i < pins.len()
        invariant
            i <= pins@.len(),
            pv == pins_view(pins@),
            first_index(pv, key@) == if first_index(pv.skip(i as int), key@) < 0 {
                -1
            } else {
                first_index(pv.skip(i as int), key@) + i
            },
        decreases pins.len() - i,
    {
        proof {
            assert(pv.skip(i as int).drop_first() =~= pv.skip(i + 1));
            assert(pv.skip(i as int)[0] == pv[i as int]);
        }
        if str_eq(pins[i].0.as_str(), key) {
            return Some(i);
        }
        i += 1;
    }
    None
}

/// The pins, as text pairs.
pub open spec fn pins_view(pins: Seq<(String, String)>) -> Seq<(Seq<char>, Seq<char>)> {
    pins.map_values(|p: (String, String)| (p.0@, p.1@))
}

fn group_index(groups: &[Group], id: &str) -> (r: Option<usize>)
    ensures
        match r {
            Some(i) => first_index(groups_view(groups@), id@) == i && i < groups@.len(),
            None => first_index(groups_view(groups@), id@) == -1,
        },
{
    let ghost gv = groups_view(groups@);
    let mut i: usize = 0;
    proof {
        assert(gv.skip(0) =~= gv);
    }
    while i < groups.len()
        invariant
            i <= groups@.len(),
            gv == groups_view(groups@),
            first_index(gv, id@) == if first_index(gv.skip(i as int), id@) < 0 {
                -1
            } else {
                first_index(gv.skip(i as int), id@) + i
            },
        decreases groups.len() - i,
    {
        proof {
            assert(gv.skip(i as int).drop_first() =~= gv.skip(i + 1));
            assert(gv.skip(i as int)[0] == gv[i as int]);
        }
        if str_eq(groups[i].id.as_str(), id) {
            return Some(i);
        }
        i += 1;
    }
    None
}

fn alternative_index(alts: &[Alternative], name: &str) -> (r: Option<usize>)
    ensures
        match r {
            Some(i) => name_index(alts@.map_values(|a: Alternative| a.name@), name@) == i && i < alts@.len(),
            None => name_index(alts@.map_values(|a: Alternative| a.name@), name@) == -1,
        },
{
    let ghost nv = alts@.map_values(|a: Alternative| a.name@);
    let mut i: usize = 0;
    proof {
        assert(nv.skip(0) =~= nv);
    }
    while i < alts.len()
        invariant
            i <= alts@.len(),
            nv == alts@.map_values(|a: Alternative| a.name@),
            name_index(nv, name@) == if name_index(nv.skip(i as int), name@) < 0 {
                -1
            } else {
                name_index(nv.skip(i as int), name@) + i
            },
        decreases alts.len() - i,
    {
        proof {
            assert(nv.skip(i as int).drop_first() =~= nv.skip(i + 1));
            assert(nv.skip(i as int)[0] == nv[i as int]);
        }
        if str_eq(alts[i].name.as_str(), name) {
            return Some(i);
        }
        i += 1;
    }
    None
}

/// `id=name` for each alternative of `g`.
fn choice_names(g: &Group) -> (out: Vec<String>)
    ensures
        texts(out@) == choice_names_of(group_view(*g)),
{
    let ghost want = choice_names_of(group_view(*g));
    let mut out: Vec<String> = Vec::new();
    let mut i: usize = 0;
    while i < g.alternatives.len()
        invariant
            i <= g.alternatives@.len(),
            want == choice_names_of(group_view(*g)),
            texts(out@) == want.take(i as int),
        decreases g.alternatives.len() - i,
    {
        let mut s = owned(g.id.as_str());
        push_str(&mut s, "=");
        push_str(&mut s, g.alternatives[i].name.as_str());
        let ghost before = out@;
        out.push(s);
        proof {
            assert(out@ == before.push(s));
            assert(texts(out@) =~= texts(before).push(s@));
            assert(want[i as int] == g.id@ + "="@ + g.alternatives@[i as int].name@);
            assert(want.take(i + 1) =~= want.take(i as int).push(want[i as int]));
        }
        i += 1;
    }
    proof {
        assert(want.take(want.len() as int) =~= want);
    }
    out
}

/// The ids of the groups.
fn group_ids(groups: &[Group]) -> (out: Vec<String>)
    ensures
        texts(out@) == groups_view(groups@).map_values(|g: (Seq<char>, Seq<Seq<char>>)| g.0),
{
    let ghost want = groups_view(groups@).map_values(|g: (Seq<char>, Seq<Seq<char>>)| g.0);
    let mut out: Vec<String> = Vec::new();
    let mut i: usize = 0;
    while i < groups.len()
        invariant
            i <= groups@.len(),
            want == groups_view(groups@).map_values(|g: (Seq<char>, Seq<Seq<char>>)| g.0),
            texts(out@) == want.take(i as int),
        decreases groups.len() - i,
    {
        let ghost before = out@;
        let id = groups[i].id.clone();
        out.push(id);
        proof {
            assert(out@ == before.push(id));
            assert(texts(out@) =~= texts(before).push(id@));
            assert(want[i as int] == groups@[i as int].id@);
            assert(want.take(i + 1) =~= want.take(i as int).push(want[i as int]));
        }
        i += 1;
    }
    proof {
        assert(want.take(want.len() as int) =~= want);
    }
    out
}

/// Resolves pins into the list of selectable alternatives per group: a
/// pinned group offers exactly its pin, a singleton auto-selects, and any
/// other group becomes a free axis offering all of its alternatives. A pin
/// naming no group is reported first, then a pin naming no alternative.
pub fn resolve_axes(groups: &[Group], pins: &[(String, String)]) -> (r: Result<Vec<Vec<usize>>, MatrixError>)
    requires
        keys_sorted(pins_view(pins@)),
        keys_distinct(pins_view(pins@)),
    ensures
        ({
            let gv = groups_view(groups@);
            let pv = pins_view(pins@);
            &&& unknown_pin(gv, pv) >= 0 ==> (r matches Err(MatrixError::UnknownGroup { group, known }) && group@
                == pv[unknown_pin(gv, pv)].0 && texts(known@) == gv.map_values(|g: (Seq<char>, Seq<Seq<char>>)| g.0))
            &&& unknown_pin(gv, pv) < 0 && bad_pin_group(gv, pv) >= 0 ==> (r matches Err(
                MatrixError::UnknownChoice { group, choice, choices },
            ) && group@ == gv[bad_pin_group(gv, pv)].0 && choice@ == pv[first_index(pv, gv[bad_pin_group(gv, pv)].0)].1
                && texts(choices@) == choice_names_of(gv[bad_pin_group(gv, pv)]))
            &&& unknown_pin(gv, pv) < 0 && bad_pin_group(gv, pv) < 0 ==> r is Ok && r->Ok_0@.len() == gv.len()
                && forall|i: int| 0 <= i < gv.len() ==> axis_of(gv[i], pv) == Some(#[trigger] r->Ok_0@[i]@)
        }),
{
    let ghost gv = groups_view(groups@);
    let ghost pv = pins_view(pins@);
    let mut k: usize = 0;
    while k < pins.len()
        invariant
            k <= pins@.len(),
            gv == groups_view(groups@),
            pv == pins_view(pins@),
            unknown_pin(gv, pv.take(k as int)) < 0,
        decreases pins.len() - k,
    {
        proof {
            assert(pv.take(k + 1).drop_last() =~= pv.take(k as int));
        }
        match group_index(groups, pins[k].0.as_str()) {
            None => {
                proof {
                    lemma_unknown_pin_prefix(gv, pv, k as int);
                }
                return Err(MatrixError::UnknownGroup { group: pins[k].0.clone(), known: group_ids(groups) });
            },
            Some(_) => {},
        }
        k += 1;
    }
    proof {
        assert(pv.take(pins@.len() as int) =~= pv);
    }
    let mut axes: Vec<Vec<usize>> = Vec::new();
    let mut i: usize = 0;
    while i < groups.len()
        invariant
            i <= groups@.len(),
            gv == groups_view(groups@),
            pv == pins_view(pins@),
            unknown_pin(gv, pv) < 0,
            bad_pin_group(gv.take(i as int), pv) < 0,
            axes@.len() == i,
            forall|j: int| 0 <= j < i ==> axis_of(gv[j], pv) == Some(#[trigger] axes@[j]@),
        decreases groups.len() - i,
    {
        let g = &groups[i];
        proof {
            assert(gv.take(i + 1).drop_last() =~= gv.take(i as int));
            assert(gv.take(i + 1).last() == gv[i as int]);
            assert(gv[i as int] == group_view(*g));
        }
        let axis: Vec<usize> = match pin_index(pins, g.id.as_str()) {
            Some(p) => {
                match alternative_index(g.alternatives.as_slice(), pins[p].1.as_str()) {
                    Some(at) => {
                        let mut v: Vec<usize> = Vec::new();
                        v.push(at);
                        proof {
                            assert(v@ =~= seq![at]);
                        }
                        v
                    },
                    None => {
                        proof {
                            lemma_bad_pin_group_prefix(gv, pv, i as int);
                        }
                        return Err(MatrixError::UnknownChoice {
                            group: g.id.clone(),
                            choice: pins[p].1.clone(),
                            choices: choice_names(g),
                        });
                    },
                }
            },
            None => {
                if g.alternatives.len() == 1 {
                    let mut v: Vec<usize> = Vec::new();
                    v.push(0);
                    proof {
                        assert(v@ =~= seq![0usize]);
                    }
                    v
                } else {
                    let mut v: Vec<usize> = Vec::new();
                    let mut n: usize = 0;
                    while n < g.alternatives.len()
                        invariant
                            n <= g.alternatives@.len(),
                            v@ == all_indices(n as nat),
                        decreases g.alternatives.len() - n,
                    {
                        v.push(n);
                        n += 1;
                        proof {
                            assert(v@ =~= all_indices(n as nat));
                        }
                    }
                    v
                }
            },
        };
        axes.push(axis);
        i += 1;
    }
    proof {
        assert(gv.take(groups@.len() as int) =~= gv);
    }
    Ok(axes)
}

/// The first unknown pin of all the pins is the first of a prefix ending
/// in one.
proof fn lemma_unknown_pin_prefix(gv: Seq<(Seq<char>, Seq<Seq<char>>)>, pv: Seq<(Seq<char>, Seq<char>)>, k: int)
    requires
        0 <= k < pv.len(),
        unknown_pin(gv, pv.take(k)) < 0,
        first_index(gv, pv[k].0) < 0,
    ensures
        unknown_pin(gv, pv) == k,
    decreases pv.len() - k,
{
    if k == pv.len() - 1 {
        assert(pv.drop_last() =~= pv.take(k));
    } else {
        assert(pv.drop_last().take(k) =~= pv.take(k));
        assert(pv.drop_last()[k] == pv[k]);
        lemma_unknown_pin_prefix(gv, pv.drop_last(), k);
    }
}

/// The same for the first group whose pin names no alternative.
proof fn lemma_bad_pin_group_prefix(gv: Seq<(Seq<char>, Seq<Seq<char>>)>, pv: Seq<(Seq<char>, Seq<char>)>, i: int)
    requires
        0 <= i < gv.len(),
        bad_pin_group(gv.take(i), pv) < 0,
        axis_of(gv[i], pv) is None,
    ensures
        bad_pin_group(gv, pv) == i,
    decreases gv.len() - i,
{
    if i == gv.len() - 1 {
        assert(gv.drop_last() =~= gv.take(i));
    } else {
        assert(gv.drop_last().take(i) =~= gv.take(i));
        assert(gv.drop_last()[i] == gv[i]);
        lemma_bad_pin_group_prefix(gv.drop_last(), pv, i);
    }
}

// --- the product ---------------------------------------------------------------

/// Every tuple picking one choice per axis, the last axis varying fastest.
pub open spec fn product(axes: Seq<Seq<usize>>) -> Seq<Seq<usize>>
    decreases axes.len(),
{
    if axes.len() == 0 {
        seq![Seq::empty()]
    } else {
        extend_all(product(axes.drop_last()), axes.last())
    }
}

/// Each tuple, followed by each choice in turn.
pub open spec fn extend_all(tuples: Seq<Seq<usize>>, axis: Seq<usize>) -> Seq<Seq<usize>>
    decreases tuples.len(),
{
    if tuples.len() == 0 {
        Seq::empty()
    } else {
        extend_all(tuples.drop_last(), axis) + axis.map_values(|c: usize| tuples.last().push(c))
    }
}

/// The number of tuples.
pub open spec fn product_len(axes: Seq<Seq<usize>>) -> nat
    decreases axes.len(),
{
    if axes.len() == 0 {
        1
    } else {
        product_len(axes.drop_last()) * axes.last().len()
    }
}

/// Cartesian product over the axes, the last axis varying fastest. Every
/// axis pinned is the degenerate case: one tuple.
pub fn enumerate(axes: &[Vec<usize>]) -> (out: Vec<Vec<usize>>)
    ensures
        out@.map_values(|t: Vec<usize>| t@) == product(axes@.map_values(|a: Vec<usize>| a@)),
{
    let ghost av = axes@.map_values(|a: Vec<usize>| a@);
    let mut tuples: Vec<Vec<usize>> = Vec::new();
    tuples.push(Vec::new());
    proof {
        assert(tuples@.map_values(|t: Vec<usize>| t@) =~= product(av.take(0)));
    }
    let mut k: usize = 0;
    while k < axes.len()
        invariant
            k <= axes@.len(),
            av == axes@.map_values(|a: Vec<usize>| a@),
            tuples@.map_values(|t: Vec<usize>| t@) == product(av.take(k as int)),
        decreases axes.len() - k,
    {
        let axis = &axes[k];
        let ghost before = tuples@.map_values(|t: Vec<usize>| t@);
        let mut next: Vec<Vec<usize>> = Vec::new();
        let mut t: usize = 0;
        while t < tuples.len()
            invariant
                t <= tuples@.len(),
                before == tuples@.map_values(|x: Vec<usize>| x@),
                next@.map_values(|x: Vec<usize>| x@) == extend_all(before.take(t as int), axis@),
            decreases tuples.len() - t,
        {
            let ghost start = next@.map_values(|x: Vec<usize>| x@);
            let mut c: usize = 0;
            while c < axis.len()
                invariant
                    c <= axis@.len(),
                    t < tuples@.len(),
                    next@.map_values(|x: Vec<usize>| x@) == start + axis@.take(c as int).map_values(
                        |ch: usize| tuples@[t as int]@.push(ch),
                    ),
                decreases axis.len() - c,
            {
                let mut tuple = tuples[t].clone();
                proof {
                    assert(tuple@ == tuples@[t as int]@);
                }
                tuple.push(axis[c]);
                let ghost prev = next@;
                let ghost tv = tuple@;
                next.push(tuple);
                proof {
                    assert(tv == tuples@[t as int]@.push(axis@[c as int]));
                    assert(next@.map_values(|x: Vec<usize>| x@) =~= prev.map_values(|x: Vec<usize>| x@).push(tv));
                    assert(axis@.take(c + 1) =~= axis@.take(c as int).push(axis@[c as int]));
                    assert(axis@.take(c + 1).map_values(|ch: usize| tuples@[t as int]@.push(ch)) =~= axis@.take(
                        c as int,
                    ).map_values(|ch: usize| tuples@[t as int]@.push(ch)).push(tv));
                }
                c += 1;
                proof {
                    assert(next@.map_values(|x: Vec<usize>| x@) =~= start + axis@.take(c as int).map_values(
                        |ch: usize| tuples@[t as int]@.push(ch),
                    ));
                }
            }
            t += 1;
            proof {
                assert(axis@.take(axis@.len() as int) =~= axis@);
                assert(before.take(t as int).drop_last() =~= before.take(t - 1));
                assert(next@.map_values(|x: Vec<usize>| x@) =~= extend_all(before.take(t as int), axis@));
            }
        }
        proof {
            assert(before.take(before.len() as int) =~= before);
            assert(av.take(k + 1).drop_last() =~= av.take(k as int));
        }
        tuples = next;
        k += 1;
    }
    proof {
        assert(av.take(av.len() as int) =~= av);
    }
    tuples
}

/// The product of the axis lengths, multiplied in order, or `None` once a
/// partial product no longer fits in `usize`.
pub open spec fn checked_product(axes: Seq<Seq<usize>>) -> Option<nat>
    decreases axes.len(),
{
    if axes.len() == 0 {
        Some(1)
    } else {
        match checked_product(axes.drop_last()) {
            Some(p) => if p * axes.last().len() <= usize::MAX {
                Some(p * axes.last().len())
            } else {
                None
            },
            None => None,
        }
    }
}

/// A checked product that succeeds is the number of tuples.
pub proof fn lemma_checked_product_len(axes: Seq<Seq<usize>>)
    requires
        checked_product(axes) is Some,
    ensures
        checked_product(axes) == Some(product_len(axes)),
    decreases axes.len(),
{
    if axes.len() > 0 {
        lemma_checked_product_len(axes.drop_last());
    }
}

proof fn lemma_extend_all_len(tuples: Seq<Seq<usize>>, axis: Seq<usize>)
    ensures
        extend_all(tuples, axis).len() == tuples.len() * axis.len(),
    decreases tuples.len(),
{
    if tuples.len() > 0 {
        lemma_extend_all_len(tuples.drop_last(), axis);
        assert((tuples.len() - 1) * axis.len() + axis.len() == tuples.len() * axis.len()) by (nonlinear_arith);
    }
}

proof fn lemma_extend_all_member(tuples: Seq<Seq<usize>>, axis: Seq<usize>, t: int)
    requires
        0 <= t < extend_all(tuples, axis).len(),
    ensures
        exists|i: int, c: int|
            0 <= i < tuples.len() && 0 <= c < axis.len() && extend_all(tuples, axis)[t] == tuples[i].push(
                axis[c],
            ),
    decreases tuples.len(),
{
    if tuples.len() > 0 {
        let front = tuples.drop_last();
        lemma_extend_all_len(front, axis);
        let head = extend_all(front, axis);
        let tail = axis.map_values(|c: usize| tuples.last().push(c));
        if t < head.len() {
            lemma_extend_all_member(front, axis, t);
            let (i, c) = choose|i: int, c: int|
                0 <= i < front.len() && 0 <= c < axis.len() && head[t] == front[i].push(axis[c]);
            assert(extend_all(tuples, axis)[t] == head[t]);
            assert(front[i] == tuples[i]);
        } else {
            let c = t - head.len();
            assert(extend_all(tuples, axis)[t] == tail[c]);
            assert(tuples.last() == tuples[tuples.len() - 1]);
        }
    }
}

/// Every tuple of the product picks one choice from each axis, in order.
pub proof fn lemma_product_member(axes: Seq<Seq<usize>>, t: int)
    requires
        0 <= t < product(axes).len(),
    ensures
        product(axes)[t].len() == axes.len(),
        forall|k: int| 0 <= k < axes.len() ==> (#[trigger] axes[k]).contains(product(axes)[t][k]),
    decreases axes.len(),
{
    if axes.len() > 0 {
        let front = axes.drop_last();
        lemma_extend_all_member(product(front), axes.last(), t);
        let (i, c) = choose|i: int, c: int|
            0 <= i < product(front).len() && 0 <= c < axes.last().len() && product(axes)[t] == product(front)[i].push(
                axes.last()[c],
            );
        lemma_product_member(front, i);
        assert forall|k: int| 0 <= k < axes.len() implies (#[trigger] axes[k]).contains(product(axes)[t][k]) by {
            if k < front.len() {
                assert(front[k] == axes[k]);
                assert(product(axes)[t][k] == product(front)[i][k]);
            } else {
                assert(axes[k] == axes.last());
                assert(product(axes)[t][k] == axes.last()[c]);
            }
        }
    } else {
        assert(product(axes) == seq![Seq::<usize>::empty()]);
    }
}

/// [`enumerate`] yields exactly as many tuples as the axes describe: the
/// count [`product_size`] checks against the cap is the count written.
pub proof fn law_product_has_product_len_tuples(axes: Seq<Seq<usize>>)
    ensures
        product(axes).len() == product_len(axes),
    decreases axes.len(),
{
    if axes.len() > 0 {
        law_product_has_product_len_tuples(axes.drop_last());
        lemma_extend_all_len(product(axes.drop_last()), axes.last());
    }
}

/// Every axis pinned is the degenerate case, not a separate path: the
/// product is the single tuple of the pins.
pub proof fn law_all_pinned_is_one_tuple(axes: Seq<Seq<usize>>)
    requires
        forall|i: int| 0 <= i < axes.len() ==> (#[trigger] axes[i]).len() == 1,
    ensures
        product(axes) == seq![axes.map_values(|a: Seq<usize>| a[0])],
    decreases axes.len(),
{
    let firsts = axes.map_values(|a: Seq<usize>| a[0]);
    if axes.len() == 0 {
        assert(firsts =~= Seq::<usize>::empty());
    } else {
        let init = axes.drop_last();
        assert forall|i: int| 0 <= i < init.len() implies (#[trigger] init[i]).len() == 1 by {
            assert(init[i] == axes[i]);
        }
        law_all_pinned_is_one_tuple(init);
        let t = init.map_values(|a: Seq<usize>| a[0]);
        let axis = axes.last();
        assert(axis.len() == 1) by {
            assert(axes[axes.len() - 1] == axis);
        }
        assert(seq![t].drop_last() =~= Seq::<Seq<usize>>::empty());
        assert(extend_all(Seq::<Seq<usize>>::empty(), axis) =~= Seq::<Seq<usize>>::empty());
        assert(axis.map_values(|c: usize| t.push(c)) =~= seq![t.push(axis[0])]);
        assert(t.push(axis[0]) =~= firsts);
        assert(extend_all(seq![t], axis) =~= seq![firsts]);
    }
}

/// How many documents the axes describe, or `None` on overflow, so a
/// pathological tree hits the cap rather than wrapping.
pub fn product_size(axes: &[Vec<usize>]) -> (r: Option<usize>)
    ensures
        ({
            let av = axes@.map_values(|a: Vec<usize>| a@);
            &&& checked_product(av) is Some ==> r == Some(product_len(av) as usize)
            &&& checked_product(av) is None ==> r is None
        }),
{
    let ghost av = axes@.map_values(|a: Vec<usize>| a@);
    let mut acc: usize = 1;
    let mut k: usize = 0;
    while k < axes.len()
        invariant
            k <= axes@.len(),
            av == axes@.map_values(|a: Vec<usize>| a@),
            checked_product(av.take(k as int)) == Some(acc as nat),
        decreases axes.len() - k,
    {
        proof {
            assert(av.take(k + 1).drop_last() =~= av.take(k as int));
            assert(av.take(k + 1).last() == axes@[k as int]@);
        }
        match acc.checked_mul(axes[k].len()) {
            Some(v) => {
                acc = v;
            },
            None => {
                proof {
                    lemma_checked_product_none_extends(av, k as int + 1);
                }
                return None;
            },
        }
        k += 1;
    }
    proof {
        assert(av.take(av.len() as int) =~= av);
        lemma_checked_product_len(av);
    }
    Some(acc)
}

/// Why a matrix run stops before it writes anything.
#[derive(Debug, PartialEq, Eq)]
pub enum MatrixRefusal {
    /// The tree describes more documents than `max` (or more than fit in
    /// `usize`).
    TooMany { max: usize },
    /// Several documents, and neither an output directory to write them to
    /// nor a listing asked for: the free groups are what to report.
    Ambiguous,
}

/// The message for a tree that describes too many documents.
pub open spec fn too_many_text(max: usize) -> Seq<char> {
    "this tree describes more than "@ + decimal(max as nat) + " documents\nhelp: pin a group, or raise --max"@
}

impl MatrixRefusal {
    /// The message for [`MatrixRefusal::TooMany`]; the ambiguity is reported
    /// with the groups it names ([`ambiguity_error`]).
    pub fn too_many_message(max: usize) -> (out: String)
        ensures
            out@ == too_many_text(max),
    {
        let mut out = owned("this tree describes more than ");
        push_decimal(&mut out, max as u64);
        push_str(&mut out, " documents\nhelp: pin a group, or raise --max");
        proof {
            reveal_strlit("this tree describes more than ");
            reveal_strlit(" documents\nhelp: pin a group, or raise --max");
        }
        out
    }
}

/// What a matrix run may go on to do: how many documents the axes describe,
/// refused when that is more than `max` (overflow included), and refused as
/// ambiguous when it is more than one with nowhere to write them and no
/// listing asked for. Both are decided before anything is written.
pub fn plan_matrix(axes: &[Vec<usize>], max: usize, has_out_dir: bool, list: bool) -> (r: Result<usize, MatrixRefusal>)
    ensures
        ({
            let av = axes@.map_values(|a: Vec<usize>| a@);
            &&& (checked_product(av) is None || checked_product(av)->Some_0 > max) ==> r == Err::<usize, MatrixRefusal>(
                MatrixRefusal::TooMany { max },
            )
            &&& (checked_product(av) is Some && checked_product(av)->Some_0 <= max) ==> {
                let n = checked_product(av)->Some_0;
                if n > 1 && !has_out_dir && !list {
                    r == Err::<usize, MatrixRefusal>(MatrixRefusal::Ambiguous)
                } else {
                    r == Ok::<usize, MatrixRefusal>(n as usize)
                }
            }
        }),
{
    let ghost av = axes@.map_values(|a: Vec<usize>| a@);
    let total = match product_size(axes) {
        Some(n) => n,
        None => {
            return Err(MatrixRefusal::TooMany { max });
        },
    };
    proof {
        lemma_checked_product_len(av);
    }
    if total > max {
        return Err(MatrixRefusal::TooMany { max });
    }
    if total > 1 && !has_out_dir && !list {
        return Err(MatrixRefusal::Ambiguous);
    }
    Ok(total)
}

/// The parsed documents of each group's alternatives, as values.
pub open spec fn alternative_models(alternatives: Seq<Vec<Value>>) -> Seq<Seq<ValueModel>> {
    alternatives.map_values(|a: Vec<Value>| a@.map_values(|v: Value| v.model()))
}

/// The layers a tuple picks: from each group in order, the document of the
/// alternative the tuple names.
pub open spec fn tuple_layers(alternatives: Seq<Seq<ValueModel>>, tuple: Seq<usize>) -> Seq<ValueModel> {
    Seq::new(tuple.len(), |g: int| alternatives[g][tuple[g] as int])
}

/// The document a tuple describes: its layers folded, in group order, into
/// an empty object.
pub open spec fn tuple_document(
    alternatives: Seq<Seq<ValueModel>>,
    tuple: Seq<usize>,
    opts: MergeOptions,
) -> Result<ValueModel, MergeFault> {
    fold_spec(
        ValueModel::Object(Seq::empty()),
        tuple_layers(alternatives, tuple),
        opts.strict,
        opts.shallow,
        opts.rules.model(),
    )
}

/// Every tuple names one alternative of every group.
pub open spec fn tuples_fit(alternatives: Seq<Seq<ValueModel>>, tuples: Seq<Vec<usize>>) -> bool {
    forall|t: int|
        0 <= t < tuples.len() ==> {
            &&& (#[trigger] tuples[t])@.len() == alternatives.len()
            &&& forall|g: int| 0 <= g < alternatives.len() ==> tuples[t]@[g] < alternatives[g].len()
        }
}

/// The documents the tuples describe, in order: each the merge of its
/// tuple's layers. The first tuple whose merge fails stops the run with
/// that merge's error.
pub fn matrix_documents(alternatives: &[Vec<Value>], tuples: &[Vec<usize>], opts: &MergeOptions) -> (r: Result<
    Vec<Value>,
    MergeError,
>)
    requires
        tuples_fit(alternative_models(alternatives@), tuples@),
    ensures
        ({
            let am = alternative_models(alternatives@);
            match r {
                Ok(docs) => docs@.len() == tuples@.len() && forall|t: int|
                    0 <= t < tuples@.len() ==> tuple_document(am, (#[trigger] tuples@[t])@, *opts)
                        == Ok::<ValueModel, MergeFault>(docs@[t].model()),
                Err(e) => exists|t: int|
                    0 <= t < tuples@.len() && tuple_document(am, (#[trigger] tuples@[t])@, *opts)
                        == Err::<ValueModel, MergeFault>(e@) && forall|u: int|
                        0 <= u < t ==> tuple_document(am, (#[trigger] tuples@[u])@, *opts) is Ok,
            }
        }),
{
    let ghost am = alternative_models(alternatives@);
    let mut docs: Vec<Value> = Vec::new();
    let mut t: usize = 0;
    while t < tuples.len()
        invariant
            t <= tuples@.len(),
            am == alternative_models(alternatives@),
            tuples_fit(am, tuples@),
            docs@.len() == t,
            forall|u: int|
                0 <= u < t ==> tuple_document(am, (#[trigger] tuples@[u])@, *opts) == Ok::<ValueModel, MergeFault>(
                    docs@[u].model(),
                ),
        decreases tuples.len() - t,
    {
        let tuple = &tuples[t];
        let ghost want = tuple_layers(am, tuple@);
        proof {
            assert(tuples@[t as int]@.len() == am.len());
            assert(want.len() == tuple@.len());
            assert(want.take(0) =~= Seq::<ValueModel>::empty());
        }
        let mut layers: Vec<Value> = Vec::new();
        let mut g: usize = 0;
        while g < tuple.len()
            invariant
                g <= tuple@.len(),
                tuple@.len() == alternatives@.len(),
                am == alternative_models(alternatives@),
                forall|h: int| 0 <= h < am.len() ==> #[trigger] tuple@[h] < am[h].len(),
                want == tuple_layers(am, tuple@),
                layers@.map_values(|v: Value| v.model()) == want.take(g as int),
            decreases tuple.len() - g,
        {
            proof {
                assert(am[g as int] == alternatives@[g as int]@.map_values(|v: Value| v.model()));
            }
            let layer = alternatives[g][tuple[g]].duplicate();
            let ghost before = layers@;
            proof {
                assert(before.map_values(|v: Value| v.model()).len() == g);
                assert(want[g as int] == am[g as int][tuple@[g as int] as int]);
            }
            layers.push(layer);
            proof {
                let lv = layers@.map_values(|v: Value| v.model());
                assert(lv =~= want.take(g + 1)) by {
                    assert(before.map_values(|v: Value| v.model()) == want.take(g as int));
                    assert forall|h: int| 0 <= h < g + 1 implies #[trigger] lv[h] == want.take(g + 1)[h] by {
                        if h < g {
                            assert(layers@[h] == before[h]);
                        }
                    }
                }
            }
            g += 1;
        }
        proof {
            assert(want.take(tuple@.len() as int) =~= want);
        }
        match merge_with(layers, opts) {
            Ok(d) => {
                docs.push(d);
                proof {
                    assert forall|u: int| 0 <= u < t + 1 implies tuple_document(am, (#[trigger] tuples@[u])@, *opts)
                        == Ok::<ValueModel, MergeFault>(docs@[u].model()) by {
                        if u < t {
                            assert(docs@[u] == docs@.drop_last()[u]);
                        }
                    }
                }
            },
            Err(e) => {
                proof {
                    assert(tuple_document(am, tuples@[t as int]@, *opts) == Err::<ValueModel, MergeFault>(e@));
                }
                return Err(e);
            },
        }
        t += 1;
    }
    Ok(docs)
}

/// Once a prefix overflows, so does every longer one.
proof fn lemma_checked_product_none_extends(axes: Seq<Seq<usize>>, k: int)
    requires
        0 <= k <= axes.len(),
        checked_product(axes.take(k)) is None,
    ensures
        checked_product(axes) is None,
    decreases axes.len() - k,
{
    if k < axes.len() {
        assert(axes.take(k + 1).drop_last() =~= axes.take(k));
        lemma_checked_product_none_extends(axes, k + 1);
    } else {
        assert(axes.take(k) =~= axes);
    }
}

// --- names -------------------------------------------------------------------

/// `GROUP=CHOICE` for one group and choice.
pub open spec fn pair_text(g: (Seq<char>, Seq<Seq<char>>), choice: usize) -> Seq<char> {
    g.0 + "="@ + g.1[choice as int]
}

/// `(id, GROUP=CHOICE)` for each of the first `n` groups that has more than
/// one alternative, in group order.
pub open spec fn named_upto(gv: Seq<(Seq<char>, Seq<Seq<char>>)>, tuple: Seq<usize>, n: nat) -> Seq<
    (Seq<char>, Seq<char>),
>
    decreases n,
{
    if n == 0 {
        Seq::empty()
    } else {
        let prev = named_upto(gv, tuple, (n - 1) as nat);
        let g = gv[n - 1];
        if g.1.len() != 1 {
            prev.push((g.0, pair_text(g, tuple[n - 1])))
        } else {
            prev
        }
    }
}

/// Where `key` goes in a list sorted by key: after every entry whose key is
/// not greater, so equal keys keep their order.
pub open spec fn insert_pos(s: Seq<(Seq<char>, Seq<char>)>, key: Seq<char>) -> int
    decreases s.len(),
{
    if s.len() == 0 {
        0
    } else if chars_lt(key, s[0].0) {
        0
    } else {
        1 + insert_pos(s.drop_first(), key)
    }
}

/// A stable sort by key.
pub open spec fn sort_by_key(s: Seq<(Seq<char>, Seq<char>)>) -> Seq<(Seq<char>, Seq<char>)>
    decreases s.len(),
{
    if s.len() == 0 {
        s
    } else {
        let r = sort_by_key(s.drop_last());
        r.insert(insert_pos(r, s.last().0), s.last())
    }
}

/// No key is greater than a later one.
pub open spec fn keys_sorted(s: Seq<(Seq<char>, Seq<char>)>) -> bool {
    forall|i: int, j: int| 0 <= i < j < s.len() ==> !chars_lt(#[trigger] s[j].0, #[trigger] s[i].0)
}

/// No key appears twice.
pub open spec fn keys_distinct(s: Seq<(Seq<char>, Seq<char>)>) -> bool {
    forall|i: int, j: int| 0 <= i < j < s.len() ==> (#[trigger] s[i]).0 != (#[trigger] s[j]).0
}

proof fn lemma_insert_pos(r: Seq<(Seq<char>, Seq<char>)>, key: Seq<char>)
    ensures
        0 <= insert_pos(r, key) <= r.len(),
        forall|i: int| 0 <= i < insert_pos(r, key) ==> !chars_lt(key, #[trigger] r[i].0),
        insert_pos(r, key) < r.len() ==> chars_lt(key, r[insert_pos(r, key)].0),
    decreases r.len(),
{
    if r.len() > 0 && !chars_lt(key, r[0].0) {
        lemma_insert_pos(r.drop_first(), key);
        assert forall|i: int| 0 <= i < insert_pos(r, key) implies !chars_lt(key, #[trigger] r[i].0) by {
            if i > 0 {
                assert(r[i] == r.drop_first()[i - 1]);
            }
        }
    }
}

/// The stable sort by key sorts, keeps the same items, and keeps keys
/// distinct when they were.
proof fn lemma_sort_by_key(s: Seq<(Seq<char>, Seq<char>)>)
    ensures
        keys_sorted(sort_by_key(s)),
        sort_by_key(s).to_multiset() == s.to_multiset(),
        keys_distinct(s) ==> keys_distinct(sort_by_key(s)),
    decreases s.len(),
{
    broadcast use vstd::seq_lib::group_to_multiset_ensures;

    if s.len() > 0 {
        let front = s.drop_last();
        let x = s.last();
        lemma_sort_by_key(front);
        let r = sort_by_key(front);
        let p = insert_pos(r, x.0);
        lemma_insert_pos(r, x.0);
        let out = r.insert(p, x);
        assert(out == sort_by_key(s));
        r.insert_ensures(p, x);
        vstd::seq_lib::to_multiset_insert(r, p, x);
        assert(s == front.push(x));
        assert(out.to_multiset() == s.to_multiset());
        assert forall|i: int, j: int| 0 <= i < j < out.len() implies !chars_lt(#[trigger] out[j].0, #[trigger] out[i].0) by {
            if j < p {
                assert(out[i] == r[i] && out[j] == r[j]);
            } else if j == p {
                assert(out[i] == r[i]);
                assert(!chars_lt(x.0, r[i].0));
            } else if i > p {
                assert(out[i] == r[i - 1] && out[j] == r[j - 1]);
            } else if i == p {
                assert(out[j] == r[j - 1]);
                let rp = r[p];
                assert(chars_lt(x.0, rp.0));
                if j - 1 > p {
                    assert(!chars_lt(r[j - 1].0, rp.0));
                    lemma_chars_lt_trichotomy(rp.0, r[j - 1].0);
                    if chars_lt(rp.0, r[j - 1].0) {
                        lemma_chars_lt_transitive(x.0, rp.0, r[j - 1].0);
                    }
                }
                lemma_chars_lt_asymmetric(x.0, r[j - 1].0);
            } else {
                assert(out[i] == r[i] && out[j] == r[j - 1]);
            }
        }
        if keys_distinct(s) {
            assert forall|i: int, j: int| 0 <= i < j < front.len() implies (#[trigger] front[i]).0 != (#[trigger] front[j]).0 by {
                assert(front[i] == s[i] && front[j] == s[j]);
            }
            assert forall|k: int| 0 <= k < r.len() implies (#[trigger] r[k]).0 != x.0 by {
                assert(r.to_multiset().count(r[k]) > 0);
                assert(front.contains(r[k]));
                let m = choose|m: int| 0 <= m < front.len() && front[m] == r[k];
                assert(s[m] == front[m]);
                assert(s[s.len() - 1] == x);
            }
            assert forall|i: int, j: int| 0 <= i < j < out.len() implies (#[trigger] out[i]).0 != (#[trigger] out[j]).0 by {
                if j < p {
                    assert(out[i] == r[i] && out[j] == r[j]);
                } else if j == p {
                    assert(out[i] == r[i]);
                } else if i > p {
                    assert(out[i] == r[i - 1] && out[j] == r[j - 1]);
                } else if i == p {
                    assert(out[j] == r[j - 1]);
                } else {
                    assert(out[i] == r[i] && out[j] == r[j - 1]);
                }
            }
        }
    }
}

/// Two sorted lists of the same items, the first without a repeated key,
/// are the same list.
proof fn lemma_sorted_unique(a: Seq<(Seq<char>, Seq<char>)>, b: Seq<(Seq<char>, Seq<char>)>)
    requires
        keys_sorted(a),
        keys_sorted(b),
        keys_distinct(a),
        a.to_multiset() == b.to_multiset(),
    ensures
        a == b,
    decreases a.len(),
{
    broadcast use vstd::seq_lib::group_to_multiset_ensures;

    assert(a.len() == b.len()) by {
        assert(a.len() == a.to_multiset().len());
        assert(b.len() == b.to_multiset().len());
    }
    if a.len() > 0 {
        assert(a.to_multiset().count(a[0]) > 0);
        assert(b.contains(a[0]));
        let j = choose|j: int| 0 <= j < b.len() && b[j] == a[0];
        assert(b.to_multiset().count(b[0]) > 0);
        assert(a.contains(b[0]));
        let i = choose|i: int| 0 <= i < a.len() && a[i] == b[0];
        if i > 0 {
            assert(!chars_lt(a[i].0, a[0].0));
        }
        if j > 0 {
            assert(!chars_lt(b[j].0, b[0].0));
        }
        lemma_chars_lt_trichotomy(a[0].0, b[0].0);
        lemma_chars_lt_irreflexive(a[0].0);
        assert(a[0].0 == b[0].0);
        if i > 0 {
            assert(a[0].0 != a[i].0);
        }
        assert(b[0] == a[0]);
        let a2 = a.drop_first();
        let b2 = b.drop_first();
        assert(a.remove(0) == a2);
        assert(b.remove(0) == b2);
        assert(a2.to_multiset() == a.to_multiset().remove(a[0]));
        assert(b2.to_multiset() == b.to_multiset().remove(b[0]));
        assert forall|x: int, y: int| 0 <= x < y < a2.len() implies !chars_lt(#[trigger] a2[y].0, #[trigger] a2[x].0) by {
            assert(a2[x] == a[x + 1] && a2[y] == a[y + 1]);
        }
        assert forall|x: int, y: int| 0 <= x < y < b2.len() implies !chars_lt(#[trigger] b2[y].0, #[trigger] b2[x].0) by {
            assert(b2[x] == b[x + 1] && b2[y] == b[y + 1]);
        }
        assert forall|x: int, y: int| 0 <= x < y < a2.len() implies (#[trigger] a2[x]).0 != (#[trigger] a2[y]).0 by {
            assert(a2[x] == a[x + 1] && a2[y] == a[y + 1]);
        }
        lemma_sorted_unique(a2, b2);
        assert(a =~= seq![a[0]] + a2);
        assert(b =~= seq![b[0]] + b2);
    }
}

/// A tuple's name does not depend on the order its pairs were collected
/// in: two collections of the same pairs, no group named twice, sort to the
/// same list — so the walk order of the tree never shows in a file name.
pub proof fn law_pair_order_does_not_matter(a: Seq<(Seq<char>, Seq<char>)>, b: Seq<(Seq<char>, Seq<char>)>)
    requires
        a.to_multiset() == b.to_multiset(),
        keys_distinct(a),
    ensures
        sort_by_key(a) == sort_by_key(b),
{
    lemma_sort_by_key(a);
    lemma_sort_by_key(b);
    lemma_sorted_unique(sort_by_key(a), sort_by_key(b));
}

/// The `GROUP=CHOICE` pairs identifying a tuple, sorted by group id.
pub open spec fn name_pairs_spec(gv: Seq<(Seq<char>, Seq<Seq<char>>)>, tuple: Seq<usize>) -> Seq<Seq<char>> {
    let n = if gv.len() < tuple.len() {
        gv.len()
    } else {
        tuple.len()
    };
    sort_by_key(named_upto(gv, tuple, n)).map_values(|p: (Seq<char>, Seq<char>)| p.1)
}

/// Every choice of a group with more than one alternative is one of its
/// alternatives.
pub open spec fn tuple_fits(gv: Seq<(Seq<char>, Seq<Seq<char>>)>, tuple: Seq<usize>) -> bool {
    forall|i: int|
        0 <= i < gv.len() && i < tuple.len() && (#[trigger] gv[i]).1.len() != 1 ==> tuple[i] < gv[i].1.len()
}

fn find_insert_pos(sorted: &Vec<(String, String)>, key: &str) -> (r: usize)
    ensures
        r == insert_pos(pins_view(sorted@), key@),
        r <= sorted@.len(),
{
    let ghost sv = pins_view(sorted@);
    let mut j: usize = 0;
    proof {
        assert(sv.skip(0) =~= sv);
    }
    while j < sorted.len() && !str_lt(key, sorted[j].0.as_str())
        invariant
            j <= sorted@.len(),
            sv == pins_view(sorted@),
            insert_pos(sv, key@) == j + insert_pos(sv.skip(j as int), key@),
        decreases sorted.len() - j,
    {
        proof {
            assert(sv.skip(j as int).drop_first() =~= sv.skip(j + 1));
            assert(sv.skip(j as int)[0] == sv[j as int]);
        }
        j += 1;
    }
    proof {
        if j < sorted@.len() {
            assert(sv.skip(j as int)[0] == sv[j as int]);
        }
    }
    j
}

/// The `GROUP=CHOICE` pairs identifying a tuple, sorted by group id.
///
/// Only groups with more than one alternative appear — pinned ones included,
/// since dropping them would make filenames irreversible, and singletons
/// excluded, since they carry no information. Sorting by group id means a
/// tuple always yields the same name whatever the walk order.
pub fn name_pairs(groups: &[Group], tuple: &[usize]) -> (out: Vec<String>)
    requires
        tuple_fits(groups_view(groups@), tuple@),
    ensures
        texts(out@) == name_pairs_spec(groups_view(groups@), tuple@),
{
    let ghost gv = groups_view(groups@);
    let n: usize = if groups.len() < tuple.len() {
        groups.len()
    } else {
        tuple.len()
    };
    let mut sorted: Vec<(String, String)> = Vec::new();
    let mut i: usize = 0;
    while i < n
        invariant
            i <= n,
            n <= groups@.len(),
            n <= tuple@.len(),
            n == (if gv.len() < tuple@.len() {
                gv.len()
            } else {
                tuple@.len()
            }),
            gv == groups_view(groups@),
            tuple_fits(gv, tuple@),
            pins_view(sorted@) == sort_by_key(named_upto(gv, tuple@, i as nat)),
        decreases n - i,
    {
        let g = &groups[i];
        proof {
            assert(gv[i as int] == group_view(*g));
        }
        if g.alternatives.len() != 1 {
            let choice = tuple[i];
            let mut pair = owned(g.id.as_str());
            push_str(&mut pair, "=");
            push_str(&mut pair, g.alternatives[choice].name.as_str());
            let at = find_insert_pos(&sorted, g.id.as_str());
            let ghost before = pins_view(sorted@);
            let id = g.id.clone();
            let ghost item = (id@, pair@);
            sorted.insert(at, (id, pair));
            proof {
                assert(item == (gv[i as int].0, pair_text(gv[i as int], tuple@[i as int])));
                let prev = named_upto(gv, tuple@, i as nat);
                assert(named_upto(gv, tuple@, (i + 1) as nat) == prev.push(item));
                assert(prev.push(item).drop_last() =~= prev);
                assert(pins_view(sorted@) =~= before.insert(at as int, item));
            }
        } else {
            proof {
                assert(named_upto(gv, tuple@, (i + 1) as nat) == named_upto(gv, tuple@, i as nat));
            }
        }
        i += 1;
    }
    let mut out: Vec<String> = Vec::new();
    let ghost sv = pins_view(sorted@);
    let mut k: usize = 0;
    while k < sorted.len()
        invariant
            k <= sorted@.len(),
            sv == pins_view(sorted@),
            texts(out@) == sv.take(k as int).map_values(|p: (Seq<char>, Seq<char>)| p.1),
        decreases sorted.len() - k,
    {
        let ghost before = out@;
        let s = sorted[k].1.clone();
        out.push(s);
        proof {
            assert(out@ == before.push(s));
            assert(s@ == sv[k as int].1);
            assert(texts(out@) =~= texts(before).push(s@));
            assert(sv.take(k + 1) =~= sv.take(k as int).push(sv[k as int]));
            assert(texts(out@) =~= sv.take(k + 1).map_values(|p: (Seq<char>, Seq<char>)| p.1));
        }
        k += 1;
    }
    proof {
        assert(sv.take(sv.len() as int) =~= sv);
    }
    out
}

// --- arguments -----------------------------------------------------------------

/// A pin argument split at its first `=`: the group, then the choice.
pub open spec fn pin_of(arg: Seq<char>) -> (Seq<char>, Seq<char>) {
    (arg.take(eq_index(arg)), arg.skip(eq_index(arg) + 1))
}

/// The pins among the arguments, in order.
pub open spec fn pin_args(args: Seq<Seq<char>>) -> Seq<(Seq<char>, Seq<char>)>
    decreases args.len(),
{
    if args.len() == 0 {
        Seq::empty()
    } else if eq_index(args.last()) >= 0 {
        pin_args(args.drop_last()).push(pin_of(args.last()))
    } else {
        pin_args(args.drop_last())
    }
}

/// The arguments that are not pins, in order.
pub open spec fn dir_args(args: Seq<Seq<char>>) -> Seq<Seq<char>>
    decreases args.len(),
{
    if args.len() == 0 {
        Seq::empty()
    } else if eq_index(args.last()) < 0 {
        dir_args(args.drop_last()).push(args.last())
    } else {
        dir_args(args.drop_last())
    }
}

/// The first argument that pins a group an earlier argument pinned, or -1.
pub open spec fn repeated_pin(args: Seq<Seq<char>>) -> int
    decreases args.len(),
{
    if args.len() == 0 {
        -1
    } else if repeated_pin(args.drop_last()) >= 0 {
        repeated_pin(args.drop_last())
    } else if eq_index(args.last()) >= 0 && pin_args(args.drop_last()).map_values(
        |p: (Seq<char>, Seq<char>)| p.0,
    ).contains(pin_of(args.last()).0) {
        args.len() - 1
    } else {
        -1
    }
}

proof fn lemma_repeated_pin_prefix(args: Seq<Seq<char>>, k: int)
    requires
        0 <= k <= args.len(),
        repeated_pin(args.take(k)) >= 0,
    ensures
        repeated_pin(args) == repeated_pin(args.take(k)),
    decreases args.len() - k,
{
    if k < args.len() {
        assert(args.take(k + 1).drop_last() =~= args.take(k));
        lemma_repeated_pin_prefix(args, k + 1);
    } else {
        assert(args.take(k) =~= args);
    }
}

fn contains_text(v: &Vec<String>, t: &str) -> (r: bool)
    ensures
        r == texts(v@).contains(t@),
{
    let mut i: usize = 0;
    while i < v.len()
        invariant
            i <= v@.len(),
            forall|j: int| 0 <= j < i ==> v@[j]@ != t@,
        decreases v.len() - i,
    {
        if str_eq(v[i].as_str(), t) {
            proof {
                assert(texts(v@)[i as int] == t@);
            }
            return true;
        }
        i += 1;
    }
    proof {
        if texts(v@).contains(t@) {
            let j = choose|j: int| 0 <= j < texts(v@).len() && texts(v@)[j] == t@;
            assert(v@[j]@ == t@);
        }
    }
    false
}

/// Splits positionals into the directory and the pins, sorted by group.
///
/// Purely syntactic: an argument containing `=` is a pin, anything else is
/// the directory. Never dependent on whether a file of that name exists.
pub fn split_args(args: &[String]) -> (r: Result<(PathBuf, Vec<(String, String)>), MatrixError>)
    ensures
        ({
            let av = texts(args@);
            &&& repeated_pin(av) >= 0 ==> (r matches Err(MatrixError::PinnedTwice { group }) && group@ == pin_of(
                av[repeated_pin(av)],
            ).0)
            &&& repeated_pin(av) < 0 && dir_args(av).len() == 0 ==> r == Err::<
                (PathBuf, Vec<(String, String)>),
                MatrixError,
            >(MatrixError::NoDirectory)
            &&& repeated_pin(av) < 0 && dir_args(av).len() > 1 ==> (r matches Err(
                MatrixError::TooManyDirectories { names },
            ) && texts(names@) == dir_args(av))
            &&& repeated_pin(av) < 0 && dir_args(av).len() == 1 ==> (r matches Ok((dir, pins)) && dir
                == path_from_text(dir_args(av)[0]) && pins_view(pins@) == sort_by_key(pin_args(av)))
        }),
        r matches Ok((_, pins)) ==> keys_sorted(pins_view(pins@)) && keys_distinct(pins_view(pins@)),
{
    let ghost av = texts(args@);
    let mut seen: Vec<String> = Vec::new();
    let mut sorted: Vec<(String, String)> = Vec::new();
    let mut dirs: Vec<String> = Vec::new();
    let mut i: usize = 0;
    while i < args.len()
        invariant
            i <= args@.len(),
            av == texts(args@),
            texts(seen@) == pin_args(av.take(i as int)).map_values(|p: (Seq<char>, Seq<char>)| p.0),
            pins_view(sorted@) == sort_by_key(pin_args(av.take(i as int))),
            texts(dirs@) == dir_args(av.take(i as int)),
            repeated_pin(av.take(i as int)) < 0,
            keys_distinct(pin_args(av.take(i as int))),
        decreases args.len() - i,
    {
        let arg = args[i].as_str();
        let ghost prefix = av.take(i as int);
        proof {
            assert(av.take(i + 1).drop_last() =~= prefix);
            assert(av.take(i + 1).last() == arg@);
        }
        match eq_position(arg) {
            Some(p) => {
                let chars = chars_of(arg);
                assert(chars@ == arg@);
                assert(p < chars.len());
                let group = string_from(chars.as_slice(), 0, p);
                let choice = string_from(chars.as_slice(), p + 1, chars.len());
                proof {
                    assert(group@ =~= pin_of(arg@).0);
                    assert(choice@ =~= pin_of(arg@).1);
                }
                if contains_text(&seen, group.as_str()) {
                    proof {
                        assert(repeated_pin(av.take(i + 1)) == i);
                        lemma_repeated_pin_prefix(av, i + 1);
                    }
                    return Err(MatrixError::PinnedTwice { group });
                }
                let at = find_insert_pos(&sorted, group.as_str());
                let ghost before_sorted = pins_view(sorted@);
                let ghost before_seen = seen@;
                let ghost item = (group@, choice@);
                seen.push(group.clone());
                sorted.insert(at, (group, choice));
                proof {
                    let pp = pin_args(prefix);
                    assert(pin_args(av.take(i + 1)) == pp.push(item));
                    assert(pp.push(item).drop_last() =~= pp);
                    assert(pins_view(sorted@) =~= before_sorted.insert(at as int, item));
                    assert(texts(seen@) =~= texts(before_seen).push(item.0));
                    assert(pp.push(item).map_values(|q: (Seq<char>, Seq<char>)| q.0) =~= pp.map_values(
                        |q: (Seq<char>, Seq<char>)| q.0,
                    ).push(item.0));
                    assert(dir_args(av.take(i + 1)) == dir_args(prefix));
                    assert(!pp.map_values(|q: (Seq<char>, Seq<char>)| q.0).contains(item.0));
                    assert forall|a: int, c: int| 0 <= a < c < pp.push(item).len() implies (#[trigger] pp.push(item)[a]).0
                        != (#[trigger] pp.push(item)[c]).0 by {
                        if c == pp.len() {
                            assert(pp.map_values(|q: (Seq<char>, Seq<char>)| q.0)[a] == pp[a].0);
                        } else {
                            assert(pp.push(item)[a] == pp[a] && pp.push(item)[c] == pp[c]);
                        }
                    }
                }
            },
            None => {
                let ghost before = dirs@;
                let d = args[i].clone();
                dirs.push(d);
                proof {
                    assert(dirs@ == before.push(d));
                    assert(texts(dirs@) =~= texts(before).push(arg@));
                    assert(pin_args(av.take(i + 1)) == pin_args(prefix));
                }
            },
        }
        i += 1;
    }
    proof {
        assert(av.take(av.len() as int) =~= av);
        lemma_sort_by_key(pin_args(av));
    }
    if dirs.len() == 0 {
        Err(MatrixError::NoDirectory)
    } else if dirs.len() == 1 {
        let dir = dirs.pop().unwrap();
        proof {
            assert(dir@ == dir_args(av)[0]);
        }
        Ok((path_from(dir), sorted))
    } else {
        Err(MatrixError::TooManyDirectories { names: dirs })
    }
}

// --- the ambiguity report ------------------------------------------------------

/// Free multi-alternative groups with nowhere to write the resulting
/// documents.
#[derive(Debug)]
pub struct AmbiguousGroups {
    entries: Vec<(String, Vec<String>)>,
    pin_command: String,
    out_dir_command: String,
}

/// The groups with more than one alternative and no pin, in order.
pub open spec fn free_groups(gv: Seq<(Seq<char>, Seq<Seq<char>>)>, pv: Seq<(Seq<char>, Seq<char>)>) -> Seq<
    (Seq<char>, Seq<Seq<char>>),
>
    decreases gv.len(),
{
    if gv.len() == 0 {
        Seq::empty()
    } else if gv.last().1.len() != 1 && first_index(pv, gv.last().0) < 0 {
        free_groups(gv.drop_last(), pv).push(gv.last())
    } else {
        free_groups(gv.drop_last(), pv)
    }
}

/// ` GROUP=CHOICE` for each pin.
pub open spec fn pins_text(pv: Seq<(Seq<char>, Seq<char>)>) -> Seq<char>
    decreases pv.len(),
{
    if pv.len() == 0 {
        Seq::empty()
    } else {
        pins_text(pv.drop_last()) + " "@ + pv.last().0 + "="@ + pv.last().1
    }
}

/// ` GROUP=FIRST` for each group, pinning it to its first alternative.
pub open spec fn first_choices_text(gs: Seq<(Seq<char>, Seq<Seq<char>>)>) -> Seq<char>
    decreases gs.len(),
{
    if gs.len() == 0 {
        Seq::empty()
    } else {
        first_choices_text(gs.drop_last()) + " "@ + gs.last().0 + "="@ + gs.last().1[0]
    }
}

/// The command as the user gave it, directory then pins.
pub open spec fn given_command(root: Seq<char>, pv: Seq<(Seq<char>, Seq<char>)>) -> Seq<char> {
    "knf matrix "@ + root + pins_text(pv)
}

/// One entry of the report.
pub open spec fn entry_text(e: (Seq<char>, Seq<Seq<char>>)) -> Seq<char> {
    "ambiguous group `"@ + e.0 + "` — "@ + decimal(e.1.len()) + " alternatives\n  "@ + joined_by(e.1, ", "@)
        + "\n"@
}

/// The entries of the report, one after the other.
pub open spec fn entries_text(es: Seq<(Seq<char>, Seq<Seq<char>>)>) -> Seq<char>
    decreases es.len(),
{
    if es.len() == 0 {
        Seq::empty()
    } else {
        entries_text(es.drop_last()) + entry_text(es.last())
    }
}

impl AmbiguousGroups {
    /// Each free group with its `GROUP=CHOICE` names.
    pub closed spec fn entries_view(&self) -> Seq<(Seq<char>, Seq<Seq<char>>)> {
        self.entries@.map_values(|e: (String, Vec<String>)| (e.0@, texts(e.1@)))
    }

    /// A runnable command pinning every free group.
    pub closed spec fn pin_command_view(&self) -> Seq<char> {
        self.pin_command@
    }

    /// The alternative: write every combination to a directory.
    pub closed spec fn out_dir_command_view(&self) -> Seq<char> {
        self.out_dir_command@
    }

    /// One paragraph per free group, then the two ways out.
    pub fn to_string(&self) -> (out: String)
        ensures
            out@ == entries_text(self.entries_view()) + "help: "@ + self.pin_command_view() + "\nhelp: or "@
                + self.out_dir_command_view(),
    {
        let ghost ev = self.entries_view();
        let mut out = String::new();
        let mut i: usize = 0;
        while i < self.entries.len()
            invariant
                i <= self.entries@.len(),
                ev == self.entries_view(),
                out@ == entries_text(ev.take(i as int)),
            decreases self.entries.len() - i,
        {
            let (id, choices) = &self.entries[i];
            proof {
                assert(ev[i as int] == (id@, texts(choices@)));
                assert(ev.take(i + 1).drop_last() =~= ev.take(i as int));
            }
            push_str(&mut out, "ambiguous group `");
            push_str(&mut out, id.as_str());
            push_str(&mut out, "` — ");
            push_decimal(&mut out, choices.len() as u64);
            push_str(&mut out, " alternatives\n  ");
            push_str(&mut out, join(choices.as_slice(), ", ").as_str());
            push_str(&mut out, "\n");
            i += 1;
            proof {
                assert(out@ =~= entries_text(ev.take(i as int)));
            }
        }
        proof {
            assert(ev.take(ev.len() as int) =~= ev);
        }
        push_str(&mut out, "help: ");
        push_str(&mut out, self.pin_command.as_str());
        push_str(&mut out, "\nhelp: or ");
        push_str(&mut out, self.out_dir_command.as_str());
        out
    }
}

/// The report for groups left free with nowhere to write the documents.
///
/// The help line must be runnable as printed, so it pins each free group to
/// its first alternative and carries the pins the user already gave.
pub fn ambiguity_error(groups: &[Group], pins: &[(String, String)], root: &Path) -> (r: AmbiguousGroups)
    requires
        keys_sorted(pins_view(pins@)),
        keys_distinct(pins_view(pins@)),
        forall|i: int| 0 <= i < groups@.len() ==> (#[trigger] groups@[i]).alternatives@.len() > 0,
    ensures
        ({
            let free = free_groups(groups_view(groups@), pins_view(pins@));
            let command = given_command(display_text(root), pins_view(pins@));
            &&& r.entries_view() == free.map_values(
                |g: (Seq<char>, Seq<Seq<char>>)| (g.0, choice_names_of(g)),
            )
            &&& r.pin_command_view() == command + first_choices_text(free)
            &&& r.out_dir_command_view() == "write every combination — "@ + command + " --out-dir out/"@
        }),
{
    let ghost gv = groups_view(groups@);
    let ghost pv = pins_view(pins@);
    let mut command = owned("knf matrix ");
    push_str(&mut command, display_path(root).as_str());
    let mut k: usize = 0;
    while k < pins.len()
        invariant
            k <= pins@.len(),
            pv == pins_view(pins@),
            command@ == "knf matrix "@ + display_text(root) + pins_text(pv.take(k as int)),
        decreases pins.len() - k,
    {
        proof {
            assert(pv.take(k + 1).drop_last() =~= pv.take(k as int));
        }
        push_str(&mut command, " ");
        push_str(&mut command, pins[k].0.as_str());
        push_str(&mut command, "=");
        push_str(&mut command, pins[k].1.as_str());
        k += 1;
        proof {
            assert(command@ =~= "knf matrix "@ + display_text(root) + pins_text(pv.take(k as int)));
        }
    }
    proof {
        assert(pv.take(pv.len() as int) =~= pv);
    }
    let mut pin_command = command.clone();
    let mut entries: Vec<(String, Vec<String>)> = Vec::new();
    let mut i: usize = 0;
    while i < groups.len()
        invariant
            i <= groups@.len(),
            gv == groups_view(groups@),
            pv == pins_view(pins@),
            forall|j: int| 0 <= j < groups@.len() ==> (#[trigger] groups@[j]).alternatives@.len() > 0,
            command@ == given_command(display_text(root), pv),
            pin_command@ == command@ + first_choices_text(free_groups(gv.take(i as int), pv)),
            entries@.map_values(|e: (String, Vec<String>)| (e.0@, texts(e.1@))) == free_groups(
                gv.take(i as int),
                pv,
            ).map_values(|g: (Seq<char>, Seq<Seq<char>>)| (g.0, choice_names_of(g))),
        decreases groups.len() - i,
    {
        let g = &groups[i];
        proof {
            assert(gv[i as int] == group_view(*g));
            assert(gv.take(i + 1).drop_last() =~= gv.take(i as int));
            assert(gv.take(i + 1).last() == gv[i as int]);
        }
        let free = g.alternatives.len() != 1 && pin_index(pins, g.id.as_str()).is_none();
        if free {
            let ghost before = entries@;
            let ghost fv = free_groups(gv.take(i as int), pv);
            push_str(&mut pin_command, " ");
            push_str(&mut pin_command, g.id.as_str());
            push_str(&mut pin_command, "=");
            push_str(&mut pin_command, g.alternatives[0].name.as_str());
            let names = choice_names(g);
            let id = g.id.clone();
            let ghost item = (id@, texts(names@));
            entries.push((id, names));
            proof {
                assert(free_groups(gv.take(i + 1), pv) == fv.push(gv[i as int]));
                assert(fv.push(gv[i as int]).drop_last() =~= fv);
                assert(entries@.map_values(|e: (String, Vec<String>)| (e.0@, texts(e.1@))) =~= before.map_values(
                    |e: (String, Vec<String>)| (e.0@, texts(e.1@)),
                ).push(item));
                assert(fv.push(gv[i as int]).map_values(|g: (Seq<char>, Seq<Seq<char>>)| (g.0, choice_names_of(g)))
                    =~= fv.map_values(|g: (Seq<char>, Seq<Seq<char>>)| (g.0, choice_names_of(g))).push(item));
                assert(pin_command@ =~= command@ + first_choices_text(free_groups(gv.take(i + 1), pv)));
            }
        } else {
            proof {
                assert(free_groups(gv.take(i + 1), pv) == free_groups(gv.take(i as int), pv));
            }
        }
        i += 1;
    }
    proof {
        assert(gv.take(gv.len() as int) =~= gv);
    }
    let mut out_dir_command = owned("write every combination — ");
    push_str(&mut out_dir_command, command.as_str());
    push_str(&mut out_dir_command, " --out-dir out/");
    AmbiguousGroups { entries, pin_command, out_dir_command }
}

// --- listing and output names -------------------------------------------------

/// Every choice picks one of its group's alternatives.
pub open spec fn tuple_in_range(groups: Seq<Group>, tuple: Seq<usize>) -> bool {
    forall|i: int| 0 <= i < groups.len() && i < tuple.len() ==> tuple[i] < (#[trigger] groups[i]).alternatives@.len()
}

/// The name a tuple is listed and written under: its pairs joined by
/// `sep`, or the root's id when every group is a singleton.
pub open spec fn tuple_name(pairs: Seq<Seq<char>>, root_id: Seq<char>, sep: Seq<char>) -> Seq<char> {
    if pairs.len() == 0 {
        root_id
    } else {
        joined_by(pairs, sep)
    }
}

/// `  PATH\n` for each layer of the first `n` groups, shallow to deep.
pub open spec fn layer_lines(groups: Seq<Group>, tuple: Seq<usize>, n: nat) -> Seq<char>
    decreases n,
{
    if n == 0 {
        Seq::empty()
    } else {
        layer_lines(groups, tuple, (n - 1) as nat) + "  "@ + display_text(
            buf_path(&groups[n - 1].alternatives@[tuple[n - 1] as int].path),
        ) + "\n"@
    }
}

/// One tuple of the listing: its name, then the files it merges.
pub open spec fn list_entry(groups: Seq<Group>, tuple: Seq<usize>, root_id: Seq<char>, sep: Seq<char>) -> Seq<char> {
    let n = if groups.len() < tuple.len() {
        groups.len()
    } else {
        tuple.len()
    };
    tuple_name(name_pairs_spec(groups_view(groups), tuple), root_id, sep) + "\n"@ + layer_lines(
        groups,
        tuple,
        n,
    )
}

/// The whole listing.
pub open spec fn list_spec(groups: Seq<Group>, tuples: Seq<Seq<usize>>, root_id: Seq<char>, sep: Seq<char>) -> Seq<
    char,
>
    decreases tuples.len(),
{
    if tuples.len() == 0 {
        Seq::empty()
    } else {
        list_spec(groups, tuples.drop_last(), root_id, sep) + list_entry(groups, tuples.last(), root_id, sep)
    }
}

/// What `--list` prints: each tuple's name, then the files it merges.
pub fn list_text(groups: &[Group], tuples: &[Vec<usize>], root_id: &str, separator: &str) -> (out: String)
    requires
        forall|t: int| 0 <= t < tuples@.len() ==> tuple_in_range(groups@, (#[trigger] tuples@[t])@),
    ensures
        out@ == list_spec(groups@, tuples@.map_values(|t: Vec<usize>| t@), root_id@, separator@),
{
    let ghost tv = tuples@.map_values(|t: Vec<usize>| t@);
    let mut out = String::new();
    let mut k: usize = 0;
    while k < tuples.len()
        invariant
            k <= tuples@.len(),
            tv == tuples@.map_values(|t: Vec<usize>| t@),
            forall|t: int| 0 <= t < tuples@.len() ==> tuple_in_range(groups@, (#[trigger] tuples@[t])@),
            out@ == list_spec(groups@, tv.take(k as int), root_id@, separator@),
        decreases tuples.len() - k,
    {
        let tuple = &tuples[k];
        proof {
            assert(tv.take(k + 1).drop_last() =~= tv.take(k as int));
            assert(tv.take(k + 1).last() == tuple@);
            assert(tuple_in_range(groups@, tuples@[k as int]@));
            assert forall|i: int| 0 <= i < groups@.len() && i < tuple@.len() && (#[trigger] groups_view(
                groups@,
            )[i]).1.len() != 1 implies tuple@[i] < groups_view(groups@)[i].1.len() by {
                assert(groups@[i].alternatives@.len() == groups_view(groups@)[i].1.len());
            }
        }
        let pairs = name_pairs(groups, tuple.as_slice());
        if pairs.len() == 0 {
            push_str(&mut out, root_id);
        } else {
            push_str(&mut out, join(pairs.as_slice(), separator).as_str());
        }
        push_str(&mut out, "\n");
        let ghost head = out@;
        let n: usize = if groups.len() < tuple.len() {
            groups.len()
        } else {
            tuple.len()
        };
        let mut i: usize = 0;
        while i < n
            invariant
                i <= n,
                n <= groups@.len(),
                n <= tuple@.len(),
                tuple_in_range(groups@, tuple@),
                out@ == head + layer_lines(groups@, tuple@, i as nat),
            decreases n - i,
        {
            let choice = tuple[i];
            assert(choice < groups@[i as int].alternatives@.len());
            push_str(&mut out, "  ");
            push_str(&mut out, display_path(as_path(&groups[i].alternatives[choice].path)).as_str());
            push_str(&mut out, "\n");
            i += 1;
            proof {
                assert(out@ =~= head + layer_lines(groups@, tuple@, i as nat));
            }
        }
        k += 1;
        proof {
            assert(out@ =~= list_spec(groups@, tv.take(k as int), root_id@, separator@));
        }
    }
    proof {
        assert(tv.take(tv.len() as int) =~= tv);
    }
    out
}

/// The path components one document is written to under the output
/// directory. `--tree` nests all but the last pair as directories; a nested
/// group id keeps its slash, which is what keeps a name reversible.
pub open spec fn output_names_spec(
    pairs: Seq<Seq<char>>,
    root_id: Seq<char>,
    tree: bool,
    sep: Seq<char>,
    ext: Seq<char>,
) -> Seq<Seq<char>> {
    if pairs.len() == 0 {
        seq![root_id + "."@ + ext]
    } else if tree {
        pairs.drop_last().push(pairs.last() + "."@ + ext)
    } else {
        seq![joined_by(pairs, sep) + "."@ + ext]
    }
}

/// Where one document goes under `--out-dir`, as the components to push
/// onto that directory.
pub fn output_names(pairs: &[String], root_id: &str, tree: bool, separator: &str, format: Format) -> (out: Vec<
    String,
>)
    ensures
        texts(out@) == output_names_spec(texts(pairs@), root_id@, tree, separator@, format.name()),
{
    let mut out: Vec<String> = Vec::new();
    let ghost pv = texts(pairs@);
    if pairs.len() == 0 {
        let mut s = owned(root_id);
        push_str(&mut s, ".");
        push_str(&mut s, format.extension());
        out.push(s);
        proof {
            assert(texts(out@) =~= seq![s@]);
        }
    } else if tree {
        let last = pairs.len() - 1;
        let mut i: usize = 0;
        while i < last
            invariant
                i <= last,
                last == pairs@.len() - 1,
                pv == texts(pairs@),
                texts(out@) == pv.take(i as int),
            decreases last - i,
        {
            let ghost before = out@;
            let s = pairs[i].clone();
            out.push(s);
            proof {
                assert(out@ == before.push(s));
                assert(texts(out@) =~= texts(before).push(s@));
                assert(pv.take(i + 1) =~= pv.take(i as int).push(pv[i as int]));
            }
            i += 1;
        }
        let mut s = pairs[last].clone();
        push_str(&mut s, ".");
        push_str(&mut s, format.extension());
        let ghost before = out@;
        out.push(s);
        proof {
            assert(out@ == before.push(s));
            assert(texts(out@) =~= texts(before).push(s@));
            assert(pv.drop_last() =~= pv.take(last as int));
        }
    } else {
        let mut s = join(pairs, separator);
        push_str(&mut s, ".");
        push_str(&mut s, format.extension());
        out.push(s);
        proof {
            assert(texts(out@) =~= seq![s@]);
        }
    }
    out
}

} // verus!
