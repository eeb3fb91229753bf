//! A directory tree of config files, and the saturating paths through it.
//!
//! Eligible files in a directory are mutually exclusive layers for that node.
//! Subdirectories are alternative branches, not independent axes: a path picks
//! one child and continues. Files on the way down always apply.

use vstd::prelude::*;
use std::path::{Path, PathBuf};
use crate::format::{as_path, buf_path};
use crate::matrix::{join, joined_by};
use crate::text::{owned, push_decimal};

verus! {

#[verifier::external_type_specification]
#[verifier::external_body]
pub struct ExPathBuf(PathBuf);

/// Failures from [`paths_capped`].
#[derive(Debug, PartialEq, Eq)]
pub enum PathsError {
    TooMany { max: usize },
}

impl PathsError {
    /// `this tree describes more than {max} documents`.
    pub fn to_string(&self) -> (out: String)
        ensures
            match self {
                PathsError::TooMany { max } => out@ == "this tree describes more than "@ + crate::text::decimal(
                    *max as nat,
                ) + " documents"@,
            },
    {
        match self {
            PathsError::TooMany { max } => {
                let mut out = owned("this tree describes more than ");
                push_decimal(&mut out, *max as u64);
                crate::text::push_str(&mut out, " documents");
                out
            },
        }
    }
}

/// An eligible file, by its path.
#[derive(Debug)]
pub struct File {
    pub path: PathBuf,
}

/// A directory that was entered during discovery.
#[derive(Debug)]
pub struct Dir {
    pub path: PathBuf,
    /// Eligible files, byte-wise sorted. Mutually exclusive at this node.
    pub files: Vec<File>,
    /// Children that were entered, sorted by name.
    pub dirs: Vec<Dir>,
}

/// Whether discovery's `include` predicate is looking at a file or a
/// directory. Directories decide descent; files decide leaf emission only.
#[derive(Debug, Clone, Copy, PartialEq, Eq, Structural)]
pub enum EntryKind {
    File,
    Dir,
}

// --- naming a file -------------------------------------------------------------

/// The components of a path, each as `to_string_lossy` spells it.
pub uninterp spec fn component_texts(path: &Path) -> Seq<Seq<char>>;

/// What `Path::strip_prefix` leaves of `path` once `root` is taken off its
/// front, or `None` when `root` is not a prefix of it.
pub uninterp spec fn stripped(path: &Path, root: &Path) -> Option<PathBuf>;

/// Calls `Path::components`, spelling each component with
/// `to_string_lossy`.
#[verifier::external_body]
fn components_of(path: &Path) -> (r: Vec<String>)
    ensures
        r@.map_values(|s: String| s@) == component_texts(path),
{
    let mut out = Vec::new();
    for c in path.components() {
        out.push(c.as_os_str().to_string_lossy().into_owned());
    }
    out
}

/// Calls `Path::strip_prefix`, owning what is left.
#[verifier::external_body]
fn strip_prefix(path: &Path, root: &Path) -> (r: Option<PathBuf>)
    ensures
        r == stripped(path, root),
{
    match path.strip_prefix(root) {
        Ok(rest) => Some(rest.to_path_buf()),
        Err(_) => None,
    }
}

/// The components `rel` joins: those of the path relative to `root` when it
/// lies under it, the file's own otherwise.
pub open spec fn rel_parts(root: &Path, file: &File) -> Seq<Seq<char>> {
    match stripped(buf_path(&file.path), root) {
        Some(rest) => component_texts(buf_path(&rest)),
        None => component_texts(buf_path(&file.path)),
    }
}

/// Path of `file` relative to `root`, `/`-separated.
pub fn rel(root: &Path, file: &File) -> (out: String)
    ensures
        out@ == joined_by(rel_parts(root, file), "/"@),
{
    let own = as_path(&file.path);
    let parts = match strip_prefix(own, root) {
        Some(rest) => components_of(as_path(&rest)),
        None => components_of(own),
    };
    join(parts.as_slice(), "/")
}

// --- enumeration, as a function of the tree ----------------------------------

/// The choices at a node: one of its files, or nothing when it has none —
/// a directory without files passes through.
pub open spec fn choices(files: Seq<File>) -> Seq<Option<File>> {
    if files.len() == 0 {
        seq![None]
    } else {
        files.map_values(|f: File| Some(f))
    }
}

/// `prefix`, with the chosen file if there is one.
pub open spec fn extended(prefix: Seq<File>, c: Option<File>) -> Seq<File> {
    match c {
        Some(f) => prefix.push(f),
        None => prefix,
    }
}

/// The paths a node without children ends, one per choice; a choice that
/// leaves the path empty ends nothing.
pub open spec fn leaf_paths(cs: Seq<Option<File>>, prefix: Seq<File>) -> Seq<Seq<File>>
    decreases cs.len(),
{
    if cs.len() == 0 {
        Seq::empty()
    } else {
        let next = extended(prefix, cs[0]);
        (if next.len() == 0 {
            Seq::empty()
        } else {
            seq![next]
        }) + leaf_paths(cs.drop_first(), prefix)
    }
}

/// Saturating paths below `dir`, after `prefix`: files at a node are OR,
/// children are OR (a sum), not AND (a product). Each path is shallow to
/// deep; the last file is the leaf.
pub open spec fn walk_spec(dir: Dir, prefix: Seq<File>) -> Seq<Seq<File>>
    decreases dir, 2int, 0int,
{
    if dir.dirs@.len() == 0 {
        leaf_paths(choices(dir.files@), prefix)
    } else {
        over_choices(dir, choices(dir.files@), prefix)
    }
}

/// For each choice in turn, the paths through every child.
pub open spec fn over_choices(dir: Dir, cs: Seq<Option<File>>, prefix: Seq<File>) -> Seq<Seq<File>>
    decreases dir, 1int, cs.len(),
{
    if cs.len() == 0 {
        Seq::empty()
    } else {
        over_children(dir, 0, extended(prefix, cs[0])) + over_choices(dir, cs.drop_first(), prefix)
    }
}

/// The paths through the children of `dir` from the `i`th on.
pub open spec fn over_children(dir: Dir, i: int, prefix: Seq<File>) -> Seq<Seq<File>>
    decreases dir, 0int, dir.dirs@.len() - i,
{
    if i < 0 || i >= dir.dirs@.len() {
        Seq::empty()
    } else {
        proof {
            assert(decreases_to!(dir => dir.dirs));
            assert(decreases_to!(dir.dirs => dir.dirs@));
            assert(decreases_to!(dir.dirs@ => dir.dirs@[i]));
        }
        walk_spec(dir.dirs@[i], prefix) + over_children(dir, i + 1, prefix)
    }
}

/// The files a list of file references names.
pub open spec fn refs_view(v: Seq<&File>) -> Seq<File> {
    v.map_values(|f: &File| *f)
}

/// The paths a list of paths names.
pub open spec fn paths_view(out: Seq<Vec<&File>>) -> Seq<Seq<File>> {
    out.map_values(|p: Vec<&File>| refs_view(p@))
}

// --- enumeration, executable -------------------------------------------------

fn extend<'a>(prefix: &Vec<&'a File>, file: Option<&'a File>) -> (out: Vec<&'a File>)
    ensures
        refs_view(out@) == extended(
            refs_view(prefix@),
            match file {
                Some(f) => Some(*f),
                None => None,
            },
        ),
{
    let mut out: Vec<&'a File> = Vec::new();
    let mut i: usize = 0;
    while i < prefix.len()
        invariant
            i <= prefix@.len(),
            refs_view(out@) == refs_view(prefix@.take(i as int)),
        decreases prefix.len() - i,
    {
        let ghost before = out@;
        out.push(prefix[i]);
        proof {
            assert(refs_view(out@) =~= refs_view(before).push(*prefix@[i as int]));
            assert(refs_view(prefix@.take(i + 1)) =~= refs_view(prefix@.take(i as int)).push(*prefix@[i as int]));
        }
        i += 1;
    }
    proof {
        assert(prefix@.take(prefix@.len() as int) =~= prefix@);
    }
    match file {
        Some(f) => {
            let ghost before = out@;
            out.push(f);
            proof {
                assert(refs_view(out@) =~= refs_view(before).push(*f));
            }
        },
        None => {},
    }
    out
}

fn push_path<'a>(out: &mut Vec<Vec<&'a File>>, path: Vec<&'a File>, max: Option<usize>) -> (r: Result<(), PathsError>)
    requires
        max is Some ==> old(out)@.len() <= max->Some_0,
    ensures
        r is Ok ==> paths_view(final(out)@) == paths_view(old(out)@).push(refs_view(path@)) && (max is Some
            ==> final(out)@.len() <= max->Some_0),
        r is Err ==> max is Some && old(out)@.len() >= max->Some_0 && r->Err_0 == (PathsError::TooMany { max: max->Some_0 }),
{
    match max {
        Some(m) => {
            if out.len() >= m {
                return Err(PathsError::TooMany { max: m });
            }
        },
        None => {},
    }
    let ghost before = out@;
    out.push(path);
    proof {
        assert(paths_view(out@) =~= paths_view(before).push(refs_view(out@.last()@)));
    }
    Ok(())
}

/// The choice at position `k` of a node's choices.
fn choice_at<'a>(dir: &'a Dir, k: usize) -> (c: Option<&'a File>)
    requires
        k < choices(dir.files@).len(),
    ensures
        match c {
            Some(f) => choices(dir.files@)[k as int] == Some(*f),
            None => choices(dir.files@)[k as int] is None,
        },
{
    if dir.files.len() == 0 {
        None
    } else {
        Some(&dir.files[k])
    }
}

fn choice_count(dir: &Dir) -> (n: usize)
    ensures
        n == choices(dir.files@).len(),
{
    if dir.files.len() == 0 {
        1
    } else {
        dir.files.len()
    }
}

/// The paths a childless node ends, for its choices from the `k`th on.
fn emit_leaves<'a>(dir: &'a Dir, k: usize, prefix: &Vec<&'a File>, out: &mut Vec<Vec<&'a File>>, max: Option<usize>) -> (r: Result<(), PathsError>)
    requires
        k <= choices(dir.files@).len(),
        max is Some ==> old(out)@.len() <= max->Some_0,
    ensures
        r is Ok ==> paths_view(final(out)@) == paths_view(old(out)@) + leaf_paths(
            choices(dir.files@).skip(k as int),
            refs_view(prefix@),
        ) && (max is Some ==> final(out)@.len() <= max->Some_0),
        r is Err ==> max is Some && old(out)@.len() + leaf_paths(
            choices(dir.files@).skip(k as int),
            refs_view(prefix@),
        ).len() > max->Some_0 && r->Err_0 == (PathsError::TooMany { max: max->Some_0 }),
    decreases choices(dir.files@).len() - k,
{
    let ghost cs = choices(dir.files@).skip(k as int);
    if k >= choice_count(dir) {
        proof {
            assert(paths_view(out@) =~= paths_view(out@) + leaf_paths(cs, refs_view(prefix@)));
        }
        return Ok(());
    }
    proof {
        assert(cs[0] == choices(dir.files@)[k as int]);
        assert(cs.drop_first() =~= choices(dir.files@).skip(k + 1));
    }
    let next = extend(prefix, choice_at(dir, k));
    if next.len() > 0 {
        match push_path(out, next, max) {
            Ok(()) => {},
            Err(e) => {
                return Err(e);
            },
        }
    }
    let ghost mid = paths_view(out@);
    match emit_leaves(dir, k + 1, prefix, out, max) {
        Ok(()) => {
            proof {
                assert(paths_view(out@) =~= paths_view(old(out)@) + leaf_paths(cs, refs_view(prefix@)));
            }
            Ok(())
        },
        Err(e) => Err(e),
    }
}

/// The paths through the children of `dir` from the `i`th on.
fn walk_children<'a>(dir: &'a Dir, i: usize, prefix: &Vec<&'a File>, out: &mut Vec<Vec<&'a File>>, max: Option<usize>) -> (r: Result<(), PathsError>)
    requires
        i <= dir.dirs@.len(),
        max is Some ==> old(out)@.len() <= max->Some_0,
    ensures
        r is Ok ==> paths_view(final(out)@) == paths_view(old(out)@) + over_children(*dir, i as int, refs_view(prefix@))
            && (max is Some ==> final(out)@.len() <= max->Some_0),
        r is Err ==> max is Some && old(out)@.len() + over_children(*dir, i as int, refs_view(prefix@)).len()
            > max->Some_0 && r->Err_0 == (PathsError::TooMany { max: max->Some_0 }),
    decreases *dir, 0int, dir.dirs@.len() - i,
{
    if i >= dir.dirs.len() {
        proof {
            assert(paths_view(out@) =~= paths_view(out@) + over_children(*dir, i as int, refs_view(prefix@)));
        }
        return Ok(());
    }
    proof {
        assert(decreases_to!(*dir => dir.dirs));
        assert(decreases_to!(dir.dirs => dir.dirs@));
        assert(decreases_to!(dir.dirs@ => dir.dirs@[i as int]));
    }
    match walk_paths(&dir.dirs[i], prefix, out, max) {
        Ok(()) => {},
        Err(e) => {
            return Err(e);
        },
    }
    match walk_children(dir, i + 1, prefix, out, max) {
        Ok(()) => {
            proof {
                assert(paths_view(out@) =~= paths_view(old(out)@) + over_children(*dir, i as int, refs_view(prefix@)));
            }
            Ok(())
        },
        Err(e) => Err(e),
    }
}

/// For a node's choices from the `k`th on, the paths through every child.
fn walk_choices<'a>(dir: &'a Dir, k: usize, prefix: &Vec<&'a File>, out: &mut Vec<Vec<&'a File>>, max: Option<usize>) -> (r: Result<(), PathsError>)
    requires
        k <= choices(dir.files@).len(),
        max is Some ==> old(out)@.len() <= max->Some_0,
    ensures
        r is Ok ==> paths_view(final(out)@) == paths_view(old(out)@) + over_choices(
            *dir,
            choices(dir.files@).skip(k as int),
            refs_view(prefix@),
        ) && (max is Some ==> final(out)@.len() <= max->Some_0),
        r is Err ==> max is Some && old(out)@.len() + over_choices(
            *dir,
            choices(dir.files@).skip(k as int),
            refs_view(prefix@),
        ).len() > max->Some_0 && r->Err_0 == (PathsError::TooMany { max: max->Some_0 }),
    decreases *dir, 1int, choices(dir.files@).len() - k,
{
    let ghost cs = choices(dir.files@).skip(k as int);
    if k >= choice_count(dir) {
        proof {
            assert(paths_view(out@) =~= paths_view(out@) + over_choices(*dir, cs, refs_view(prefix@)));
        }
        return Ok(());
    }
    proof {
        assert(cs[0] == choices(dir.files@)[k as int]);
        assert(cs.drop_first() =~= choices(dir.files@).skip(k + 1));
    }
    let next = extend(prefix, choice_at(dir, k));
    match walk_children(dir, 0, &next, out, max) {
        Ok(()) => {},
        Err(e) => {
            return Err(e);
        },
    }
    match walk_choices(dir, k + 1, prefix, out, max) {
        Ok(()) => {
            proof {
                assert(paths_view(out@) =~= paths_view(old(out)@) + over_choices(*dir, cs, refs_view(prefix@)));
            }
            Ok(())
        },
        Err(e) => Err(e),
    }
}

fn walk_paths<'a>(dir: &'a Dir, prefix: &Vec<&'a File>, out: &mut Vec<Vec<&'a File>>, max: Option<usize>) -> (r: Result<(), PathsError>)
    requires
        max is Some ==> old(out)@.len() <= max->Some_0,
    ensures
        r is Ok ==> paths_view(final(out)@) == paths_view(old(out)@) + walk_spec(*dir, refs_view(prefix@)) && (
        max is Some ==> final(out)@.len() <= max->Some_0),
        r is Err ==> max is Some && old(out)@.len() + walk_spec(*dir, refs_view(prefix@)).len() > max->Some_0
            && r->Err_0 == (PathsError::TooMany { max: max->Some_0 }),
    decreases *dir, 2int, 0int,
{
    proof {
        assert(choices(dir.files@).skip(0) =~= choices(dir.files@));
    }
    if dir.dirs.len() == 0 {
        emit_leaves(dir, 0, prefix, out, max)
    } else {
        walk_choices(dir, 0, prefix, out, max)
    }
}

/// Saturating DFS: files at a node are OR; children are OR (a sum), not AND
/// (a product). Each inner vec is shallow to deep; the last file is the leaf.
pub fn paths(root: &Dir) -> (out: Vec<Vec<&File>>)
    ensures
        paths_view(out@) == walk_spec(*root, Seq::empty()),
{
    let mut out: Vec<Vec<&File>> = Vec::new();
    let prefix: Vec<&File> = Vec::new();
    let r = walk_paths(root, &prefix, &mut out, None);
    proof {
        assert(refs_view(prefix@) =~= Seq::<File>::empty());
        assert(paths_view(Seq::<Vec<&File>>::empty()) =~= Seq::<Seq<File>>::empty());
    }
    out
}

/// Like [`paths`], but errors instead of returning more than `max` paths,
/// so a pathological tree hits its cap rather than writing half a tree.
pub fn paths_capped(root: &Dir, max: usize) -> (r: Result<Vec<Vec<&File>>, PathsError>)
    ensures
        walk_spec(*root, Seq::empty()).len() <= max ==> r is Ok && paths_view(r->Ok_0@) == walk_spec(
            *root,
            Seq::empty(),
        ),
        walk_spec(*root, Seq::empty()).len() > max ==> r == Err::<Vec<Vec<&File>>, PathsError>((PathsError::TooMany { max })),
{
    let mut out: Vec<Vec<&File>> = Vec::new();
    let prefix: Vec<&File> = Vec::new();
    proof {
        assert(refs_view(prefix@) =~= Seq::<File>::empty());
        assert(paths_view(Seq::<Vec<&File>>::empty()) =~= Seq::<Seq<File>>::empty());
    }
    match walk_paths(root, &prefix, &mut out, Some(max)) {
        Ok(()) => Ok(out),
        Err(e) => Err(e),
    }
}

} // verus!
