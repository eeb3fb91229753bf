//! `--accumulate`: one relative target, expanded into the same-format files
//! of every directory above it, shallowest first, then the target itself.
//!
//! Listing directories and asking whether an entry is a regular file is the
//! caller's work; what is accepted as a target, which entries are looked at,
//! and the order they come in are decided here.

use vstd::prelude::*;
use std::path::{Path, PathBuf};
use crate::discover::{by_name, insert_by_name, named_view};
use crate::format::{as_path, buf_path, format_of_path, os_text, path_text, Format};
use crate::text::{owned, str_eq};

verus! {

/// What a component of a path is, as `Path::components` tells them apart.
#[derive(Debug, Clone, Copy, PartialEq, Eq, Structural)]
pub enum PartKind {
    Prefix,
    RootDir,
    CurDir,
    ParentDir,
    Normal,
}

/// The components of a path, each with its kind and its text as a path of
/// its own: a function of the path alone.
pub uninterp spec fn path_parts(path: &Path) -> Seq<(PartKind, PathBuf)>;

/// Calls `Path::components`, keeping each component's kind and its
/// `as_os_str` as a `PathBuf`.
#[verifier::external_body]
fn parts_of(path: &Path) -> (r: Vec<(PartKind, PathBuf)>)
    ensures
        r@ == path_parts(path),
{
    let mut out = Vec::new();
    for c in path.components() {
        let kind = match c {
            std::path::Component::Prefix(_) => PartKind::Prefix,
            std::path::Component::RootDir => PartKind::RootDir,
            std::path::Component::CurDir => PartKind::CurDir,
            std::path::Component::ParentDir => PartKind::ParentDir,
            std::path::Component::Normal(_) => PartKind::Normal,
        };
        out.push((kind, PathBuf::from(c.as_os_str())));
    }
    out
}

/// The path `PathBuf`'s `FromIterator` builds from some parts, pushed in
/// order: a function of the parts alone.
pub uninterp spec fn collected(parts: Seq<PathBuf>) -> PathBuf;

/// Collects parts into one path, as `PathBuf`'s `FromIterator` does.
#[verifier::external_body]
fn collect_parts(parts: Vec<PathBuf>) -> (r: PathBuf)
    ensures
        r == collected(parts@),
{
    parts.into_iter().collect()
}

/// Whether a part leaves the working directory's tree: a root, a prefix,
/// or `..`.
pub open spec fn escapes(kind: PartKind) -> bool {
    kind == PartKind::RootDir || kind == PartKind::Prefix || kind == PartKind::ParentDir
}

/// The parts of a path other than `.`, in order.
pub open spec fn kept_parts(parts: Seq<(PartKind, PathBuf)>) -> Seq<PathBuf>
    decreases parts.len(),
{
    if parts.len() == 0 {
        seq![]
    } else {
        let rest = kept_parts(parts.drop_last());
        if parts.last().0 == PartKind::CurDir {
            rest
        } else {
            rest.push(parts.last().1)
        }
    }
}

/// A relative JSON or TOML path accepted as the value of `--accumulate`.
///
/// `.` components are stripped, so `./foo/./bar/target.toml` is stored as
/// `foo/bar/target.toml`. The format is the one its extension names;
/// discovery does not look the extension up again.
#[derive(Debug)]
pub struct AccumulateTarget {
    path: PathBuf,
    format: Format,
}

/// Why a target was refused, in the order the checks run.
pub open spec fn target_rejection(raw: &Path) -> Option<Seq<char>> {
    let parts = path_parts(raw);
    if os_text(raw) == Some("-"@) {
        Some("--accumulate does not accept stdin"@)
    } else if exists|i: int| 0 <= i < parts.len() && escapes(#[trigger] parts[i].0) {
        Some("--accumulate requires a relative target path without .. components"@)
    } else if format_of_path(buf_path(&collected(kept_parts(parts)))) is None {
        Some("--accumulate requires a target with a JSON or TOML extension"@)
    } else {
        None
    }
}

impl AccumulateTarget {
    /// The target's path, without `.` components.
    pub closed spec fn path_view(&self) -> PathBuf {
        self.path
    }

    /// The target's format.
    pub closed spec fn format_view(&self) -> Format {
        self.format
    }

    /// Accepts a target: not stdin, relative and without `..`, and with a
    /// JSON or TOML extension. The `.` components are dropped.
    pub fn parse(raw: &Path) -> (r: Result<Self, String>)
        ensures
            match target_rejection(raw) {
                Some(why) => r is Err && r->Err_0@ == why,
                None => r is Ok && r->Ok_0.path_view() == collected(kept_parts(path_parts(raw))) && Some(
                    r->Ok_0.format_view(),
                ) == format_of_path(buf_path(&collected(kept_parts(path_parts(raw))))),
            },
    {
        let is_stdin = match path_text(raw) {
            Some(t) => str_eq(t.as_str(), "-"),
            None => false,
        };
        if is_stdin {
            return Err(owned("--accumulate does not accept stdin"));
        }
        let parts = parts_of(raw);
        let ghost all = parts@;
        let mut kept: Vec<PathBuf> = Vec::new();
        let mut rest = parts;
        while rest.len() > 0
            invariant
                all == path_parts(raw),
                os_text(raw) != Some("-"@),
                all =~= all.take(all.len() - rest@.len()) + rest@,
                rest@.len() <= all.len(),
                forall|i: int| 0 <= i < all.len() - rest@.len() ==> !escapes(#[trigger] all[i].0),
                kept@ == kept_parts(all.take(all.len() - rest@.len())),
            decreases rest@.len(),
        {
            let ghost i = all.len() - rest@.len();
            let ghost before_rest = rest@;
            let (kind, part) = rest.remove(0);
            proof {
                assert(all[i] == before_rest[0]);
                assert(all =~= all.take(all.len() - rest@.len()) + rest@);
                assert(all.take(i + 1).drop_last() =~= all.take(i));
                assert(all.take(i + 1).last() == all[i]);
            }
            match kind {
                PartKind::RootDir | PartKind::Prefix | PartKind::ParentDir => {
                    proof {
                        assert(all == path_parts(raw));
                        assert(escapes(all[i].0));
                    }
                    return Err(owned("--accumulate requires a relative target path without .. components"));
                },
                PartKind::CurDir => {},
                PartKind::Normal => {
                    kept.push(part);
                },
            }
        }
        proof {
            assert(all.take(all.len() as int) =~= all);
        }
        let path = collect_parts(kept);
        match Format::from_path(as_path(&path)) {
            Some(format) => Ok(AccumulateTarget { path, format }),
            None => Err(owned("--accumulate requires a target with a JSON or TOML extension")),
        }
    }

    /// The target's path.
    pub fn path(&self) -> (r: &PathBuf)
        ensures
            *r == self.path_view(),
    {
        &self.path
    }

    /// The target's format.
    pub fn format(&self) -> (r: Format)
        ensures
            r == self.format_view(),
    {
        self.format
    }
}

// --- one directory above the target ------------------------------------------------

/// One entry of a listed directory: its name, as the bytes the platform
/// stores, and its path.
#[derive(Debug)]
pub struct Listed {
    pub name: Vec<u8>,
    pub path: PathBuf,
}

/// Whether two paths are equal as `Path`'s `==` compares them, component by
/// component: a function of the two paths alone.
pub uninterp spec fn same_path(a: &Path, b: &Path) -> bool;

/// Calls `Path`'s `==`.
#[verifier::external_body]
fn paths_equal(a: &Path, b: &Path) -> (r: bool)
    ensures
        r == same_path(a, b),
{
    a == b
}

/// Whether an entry is worth asking about: not the target itself, and of
/// the target's format.
pub open spec fn worth_inspecting(e: Listed, target: &Path, format: Format) -> bool {
    !same_path(buf_path(&e.path), target) && format_of_path(buf_path(&e.path)) == Some(format)
}

/// The entries of a listing worth asking about, in listing order.
pub open spec fn candidates_of(listing: Seq<Listed>, target: &Path, format: Format) -> Seq<Listed>
    decreases listing.len(),
{
    if listing.len() == 0 {
        seq![]
    } else {
        let rest = candidates_of(listing.drop_last(), target, format);
        if worth_inspecting(listing.last(), target, format) {
            rest.push(listing.last())
        } else {
            rest
        }
    }
}

/// The entries of one directory's listing that could join the
/// accumulation: everything of the target's format but the target itself.
/// Whether each is a regular file is asked of the filesystem next.
pub fn candidates(listing: Vec<Listed>, target: &Path, format: Format) -> (out: Vec<Listed>)
    ensures
        out@ == candidates_of(listing@, target, format),
{
    let ghost all = listing@;
    let mut rest = listing;
    let mut out: Vec<Listed> = Vec::new();
    while rest.len() > 0
        invariant
            all =~= all.take(all.len() - rest@.len()) + rest@,
            rest@.len() <= all.len(),
            out@ == candidates_of(all.take(all.len() - rest@.len()), target, format),
        decreases rest@.len(),
    {
        let ghost i = all.len() - rest@.len();
        let ghost before_rest = rest@;
        let e = rest.remove(0);
        proof {
            assert(all[i] == before_rest[0]);
            assert(all =~= all.take(all.len() - rest@.len()) + rest@);
            assert(all.take(i + 1).drop_last() =~= all.take(i));
            assert(all.take(i + 1).last() == all[i]);
        }
        let p = as_path(&e.path);
        let same = paths_equal(p, target);
        let of_format = match Format::from_path(p) {
            Some(f) => f == format,
            None => false,
        };
        if !same && of_format {
            out.push(e);
        }
    }
    proof {
        assert(all.take(all.len() as int) =~= all);
    }
    out
}

/// A name's bytes as characters, one per byte: ordering these is ordering
/// the bytes.
pub open spec fn byte_chars(bytes: Seq<u8>) -> Seq<char> {
    bytes.map_values(|b: u8| b as char)
}

/// The candidates that are regular files, named by their bytes.
pub open spec fn regular_of(checked: Seq<(Listed, bool)>) -> Seq<(Seq<char>, PathBuf)>
    decreases checked.len(),
{
    if checked.len() == 0 {
        seq![]
    } else {
        let rest = regular_of(checked.drop_last());
        let (e, is_file) = checked.last();
        if is_file {
            rest.push((byte_chars(e.name@), e.path))
        } else {
            rest
        }
    }
}

fn name_key(bytes: &Vec<u8>) -> (out: String)
    ensures
        out@ == byte_chars(bytes@),
{
    let mut out = String::new();
    let mut i: usize = 0;
    while i < bytes.len()
        invariant
            i <= bytes@.len(),
            out@ == byte_chars(bytes@.take(i as int)),
        decreases bytes.len() - i,
    {
        out.push(bytes[i] as char);
        proof {
            assert(byte_chars(bytes@.take(i + 1)) =~= byte_chars(bytes@.take(i as int)).push(bytes@[i as int] as char));
        }
        i += 1;
    }
    proof {
        assert(bytes@.take(bytes@.len() as int) =~= bytes@);
    }
    out
}

/// The paths a directory contributes: its candidates that are regular
/// files, sorted by name, byte-wise.
pub fn ordered_files(checked: Vec<(Listed, bool)>) -> (out: Vec<PathBuf>)
    ensures
        out@ == by_name(regular_of(checked@)).map_values(|p: (Seq<char>, PathBuf)| p.1),
{
    let ghost all = checked@;
    let mut rest = checked;
    let mut sorted: Vec<(String, PathBuf)> = Vec::new();
    while rest.len() > 0
        invariant
            all =~= all.take(all.len() - rest@.len()) + rest@,
            rest@.len() <= all.len(),
            named_view(sorted@) == by_name(regular_of(all.take(all.len() - rest@.len()))),
        decreases rest@.len(),
    {
        let ghost i = all.len() - rest@.len();
        let ghost before_rest = rest@;
        let (e, is_file) = rest.remove(0);
        proof {
            assert(all[i] == before_rest[0]);
            assert(all =~= all.take(all.len() - rest@.len()) + rest@);
            assert(all.take(i + 1).drop_last() =~= all.take(i));
            assert(all.take(i + 1).last() == all[i]);
        }
        let ghost done = regular_of(all.take(i));
        if is_file {
            let key = name_key(&e.name);
            insert_by_name(&mut sorted, key, e.path, Ghost(done));
        }
    }
    proof {
        assert(all.take(all.len() as int) =~= all);
    }
    let ghost sv = named_view(sorted@);
    let mut out: Vec<PathBuf> = Vec::new();
    let mut left = sorted;
    while left.len() > 0
        invariant
            sv =~= sv.take(sv.len() - left@.len()) + named_view(left@),
            left@.len() <= sv.len(),
            out@ == sv.take(sv.len() - left@.len()).map_values(|p: (Seq<char>, PathBuf)| p.1),
        decreases left@.len(),
    {
        let ghost i = sv.len() - left@.len();
        let ghost before_left = left@;
        let ghost before_out = out@;
        let (_name, path) = left.remove(0);
        proof {
            assert(named_view(before_left) =~= seq![(_name@, path)] + named_view(left@));
            assert(sv[i] == (_name@, path));
            assert(sv =~= sv.take(sv.len() - left@.len()) + named_view(left@));
            assert(sv.take(i + 1) =~= sv.take(i).push(sv[i]));
        }
        out.push(path);
        proof {
            assert(out@ =~= sv.take(i + 1).map_values(|p: (Seq<char>, PathBuf)| p.1));
        }
    }
    proof {
        assert(sv.take(sv.len() as int) =~= sv);
    }
    out
}

} // verus!
