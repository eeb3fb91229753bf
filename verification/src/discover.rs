//! The decisions of a directory walk, one directory at a time.
//!
//! Reading a directory is the caller's work; what it read comes here as a
//! listing of [`RawEntry`] values, and everything decided about it is decided
//! here: which entries are skipped (dot names, symlinks, names that are not
//! UTF-8), how files and subdirectories are ordered (byte-wise, never
//! natural), which subdirectories are entered, and when a directory is empty
//! enough to be an error.

use vstd::prelude::*;
use std::path::{Path, PathBuf};
use crate::format::{as_path, buf_path, display_path, display_text, file_stem_of, stem_text};
use crate::format::{format_of_path, Format};
use crate::fs::{Dir, EntryKind, File};
use crate::matrix::{Alternative, Group};
use crate::text::{chars_lt, chars_of, lemma_chars_lt_asymmetric, lemma_chars_lt_irreflexive, lemma_chars_lt_transitive, owned, push_str, str_eq, str_lt};

verus! {

#[verifier::external_type_specification]
#[verifier::external_body]
pub struct ExWalkdirError(walkdir::Error);

/// Failures from discovery.
#[derive(Debug)]
pub enum DiscoverError {
    NotADirectory { path: PathBuf },
    EmptyDirectory { path: PathBuf },
    NoMatch,
    ReadEntry { path: PathBuf, source: walkdir::Error },
}

/// What a [`DiscoverError`] says.
pub open spec fn discover_error_text(e: &DiscoverError) -> Seq<char> {
    match e {
        DiscoverError::NotADirectory { path } => "`"@ + display_text(buf_path(path)) + "` is not a directory"@,
        DiscoverError::EmptyDirectory { path } => "`"@ + display_text(buf_path(path))
            + "` contains no eligible files\nhelp: add a file, or remove the directory"@,
        DiscoverError::NoMatch => "no paths matched\nhelp: loosen --glob, or raise --max-depth"@,
        DiscoverError::ReadEntry { path, .. } => "reading `"@ + display_text(buf_path(path)) + "`"@,
    }
}

impl DiscoverError {
    /// The message, as the command line prints it.
    pub fn to_string(&self) -> (out: String)
        ensures
            out@ == discover_error_text(self),
    {
        match self {
            DiscoverError::NotADirectory { path } => {
                let mut out = owned("`");
                push_str(&mut out, display_path(as_path(path)).as_str());
                push_str(&mut out, "` is not a directory");
                out
            },
            DiscoverError::EmptyDirectory { path } => {
                let mut out = owned("`");
                push_str(&mut out, display_path(as_path(path)).as_str());
                push_str(&mut out, "` contains no eligible files\nhelp: add a file, or remove the directory");
                out
            },
            DiscoverError::NoMatch => owned("no paths matched\nhelp: loosen --glob, or raise --max-depth"),
            DiscoverError::ReadEntry { path, .. } => {
                let mut out = owned("reading `");
                push_str(&mut out, display_path(as_path(path)).as_str());
                push_str(&mut out, "`");
                out
            },
        }
    }
}

// --- one directory's listing ---------------------------------------------------

/// What an entry is, as a walk that does not follow links sees it.
#[derive(Debug, Clone, Copy, PartialEq, Eq, Structural)]
pub enum RawKind {
    Dir,
    Symlink,
    File,
}

/// One entry of a directory, as it was read: its name when that is valid
/// UTF-8, its full path, and its kind.
#[derive(Debug)]
pub struct RawEntry {
    pub name: Option<String>,
    pub path: PathBuf,
    pub kind: RawKind,
}

/// An entry the walk looks at, of the given kind: named in UTF-8, the name
/// not starting with `.`, and not a symlink.
pub open spec fn shown(e: RawEntry, kind: RawKind) -> bool {
    &&& e.name is Some
    &&& !(e.name->Some_0@.len() > 0 && e.name->Some_0@[0] == '.')
    &&& e.kind == kind
}

/// The entries of `listing` that [`shown`] keeps, with their names.
pub open spec fn shown_of(listing: Seq<RawEntry>, kind: RawKind) -> Seq<(Seq<char>, PathBuf)>
    decreases listing.len(),
{
    if listing.len() == 0 {
        seq![]
    } else {
        let rest = shown_of(listing.drop_last(), kind);
        let e = listing.last();
        if shown(e, kind) {
            rest.push((e.name->Some_0@, e.path))
        } else {
            rest
        }
    }
}

/// Where an entry named `key` goes among entries whose names are `names`:
/// after every name that is not greater, so equal names keep their order.
pub open spec fn slot(names: Seq<Seq<char>>, key: Seq<char>) -> int
    decreases names.len(),
{
    if names.len() == 0 {
        0
    } else if chars_lt(key, names[0]) {
        0
    } else {
        1 + slot(names.drop_first(), key)
    }
}

/// The names of named entries.
pub open spec fn names_of<V>(s: Seq<(Seq<char>, V)>) -> Seq<Seq<char>> {
    s.map_values(|p: (Seq<char>, V)| p.0)
}

/// Named entries, stably sorted by name, byte-wise.
pub open spec fn by_name<V>(s: Seq<(Seq<char>, V)>) -> Seq<(Seq<char>, V)>
    decreases s.len(),
{
    if s.len() == 0 {
        s
    } else {
        let r = by_name(s.drop_last());
        r.insert(slot(names_of(r), s.last().0), s.last())
    }
}

/// The entries named `k`, in order.
pub open spec fn with_name<V>(s: Seq<(Seq<char>, V)>, k: Seq<char>) -> Seq<(Seq<char>, V)>
    decreases s.len(),
{
    if s.len() == 0 {
        Seq::empty()
    } else if s.last().0 == k {
        with_name(s.drop_last(), k).push(s.last())
    } else {
        with_name(s.drop_last(), k)
    }
}

/// Ordered by name: no name is below an earlier one.
pub open spec fn names_ordered<V>(s: Seq<(Seq<char>, V)>) -> bool {
    forall|i: int, j: int| 0 <= i < j < s.len() ==> !chars_lt(#[trigger] s[j].0, #[trigger] s[i].0)
}

proof fn lemma_with_name_concat<V>(a: Seq<(Seq<char>, V)>, b: Seq<(Seq<char>, V)>, k: Seq<char>)
    ensures
        with_name(a + b, k) == with_name(a, k) + with_name(b, k),
    decreases b.len(),
{
    if b.len() == 0 {
        assert(a + b =~= a);
        assert(with_name(a, k) + Seq::<(Seq<char>, V)>::empty() =~= with_name(a, k));
    } else {
        assert((a + b).drop_last() =~= a + b.drop_last());
        assert((a + b).last() == b.last());
        lemma_with_name_concat(a, b.drop_last(), k);
        if b.last().0 == k {
            assert(with_name(a, k) + with_name(b.drop_last(), k).push(b.last()) =~= (with_name(a, k) + with_name(
                b.drop_last(),
                k,
            )).push(b.last()));
        }
    }
}

proof fn lemma_with_name_none<V>(b: Seq<(Seq<char>, V)>, k: Seq<char>)
    requires
        forall|j: int| 0 <= j < b.len() ==> (#[trigger] b[j]).0 != k,
    ensures
        with_name(b, k) == Seq::<(Seq<char>, V)>::empty(),
    decreases b.len(),
{
    if b.len() > 0 {
        assert forall|j: int| 0 <= j < b.drop_last().len() implies (#[trigger] b.drop_last()[j]).0 != k by {
            assert(b.drop_last()[j] == b[j]);
        }
        lemma_with_name_none(b.drop_last(), k);
        assert(b.last() == b[b.len() - 1]);
    }
}

proof fn lemma_slot<V>(r: Seq<(Seq<char>, V)>, key: Seq<char>)
    ensures
        0 <= slot(names_of(r), key) <= r.len(),
        forall|i: int| 0 <= i < slot(names_of(r), key) ==> !chars_lt(key, #[trigger] r[i].0),
        slot(names_of(r), key) < r.len() ==> chars_lt(key, r[slot(names_of(r), key)].0),
    decreases r.len(),
{
    let names = names_of(r);
    if r.len() > 0 && !chars_lt(key, names[0]) {
        assert(names.drop_first() =~= names_of(r.drop_first()));
        lemma_slot(r.drop_first(), key);
        assert forall|i: int| 0 <= i < slot(names, key) implies !chars_lt(key, #[trigger] r[i].0) by {
            if i > 0 {
                assert(r[i] == r.drop_first()[i - 1]);
            }
        }
        if slot(names, key) < r.len() {
            assert(r[slot(names, key)] == r.drop_first()[slot(names, key) - 1]);
        }
    }
}

/// The sort by name orders entries by name and is stable: for every name,
/// the entries with that name come out in the order they went in, and none
/// is lost or added.
pub proof fn law_by_name_is_a_stable_sort<V>(s: Seq<(Seq<char>, V)>)
    ensures
        names_ordered(by_name(s)),
        forall|k: Seq<char>| #[trigger] with_name(by_name(s), k) == with_name(s, k),
        by_name(s).len() == s.len(),
    decreases s.len(),
{
    if s.len() > 0 {
        let x = s.last();
        let rr = by_name(s.drop_last());
        law_by_name_is_a_stable_sort(s.drop_last());
        lemma_slot(rr, x.0);
        let at = slot(names_of(rr), x.0);
        let r = rr.insert(at, x);
        assert(r == by_name(s));
        let a = rr.take(at);
        let b = rr.skip(at);
        assert(rr =~= a + b);
        assert(r =~= a + seq![x] + b);
        assert forall|i: int, j: int| 0 <= i < j < r.len() implies !chars_lt(#[trigger] r[j].0, #[trigger] r[i].0) by {
            if j < at {
                assert(r[i] == rr[i] && r[j] == rr[j]);
            } else if j == at {
                assert(r[i] == rr[i]);
                assert(r[j] == x);
                assert(!chars_lt(x.0, rr[i].0));
            } else if i == at {
                assert(r[i] == x && r[j] == rr[j - 1]);
                if chars_lt(rr[j - 1].0, x.0) {
                    assert(at < rr.len());
                    assert(chars_lt(x.0, rr[at].0));
                    lemma_chars_lt_transitive(rr[j - 1].0, x.0, rr[at].0);
                    if j - 1 > at {
                        assert(names_ordered(rr));
                        assert(!chars_lt(rr[j - 1].0, rr[at].0));
                    } else {
                        lemma_chars_lt_irreflexive(rr[at].0);
                    }
                }
            } else if i < at {
                assert(r[i] == rr[i] && r[j] == rr[j - 1]);
            } else {
                assert(r[i] == rr[i - 1] && r[j] == rr[j - 1]);
            }
        }
        assert forall|k: Seq<char>| #[trigger] with_name(by_name(s), k) == with_name(s, k) by {
            lemma_with_name_concat(a + seq![x], b, k);
            lemma_with_name_concat(a, seq![x], k);
            lemma_with_name_concat(a, b, k);
            assert(seq![x].drop_last() =~= Seq::<(Seq<char>, V)>::empty());
            assert(seq![x].last() == x);
            assert(with_name(Seq::<(Seq<char>, V)>::empty(), k) == Seq::<(Seq<char>, V)>::empty());
            assert(with_name(seq![x].drop_last(), k) == Seq::<(Seq<char>, V)>::empty());
            assert(with_name(rr, k) == with_name(s.drop_last(), k));
            assert(with_name(r, k) == with_name(a, k) + with_name(seq![x], k) + with_name(b, k));
            assert(with_name(rr, k) == with_name(a, k) + with_name(b, k));
            if x.0 == k {
                assert(with_name(seq![x], k) =~= seq![x]);
                assert(with_name(s, k) == with_name(s.drop_last(), k).push(x));
                assert forall|j: int| 0 <= j < b.len() implies (#[trigger] b[j]).0 != k by {
                    assert(b[j] == rr[at + j]);
                    assert(chars_lt(x.0, rr[at].0));
                    if j > 0 {
                        assert(names_ordered(rr));
                        assert(!chars_lt(rr[at + j].0, rr[at].0));
                    }
                    if rr[at + j].0 == k {
                        lemma_chars_lt_asymmetric(k, rr[at].0);
                    }
                }
                lemma_with_name_none(b, k);
                assert(with_name(a, k) + seq![x] + Seq::<(Seq<char>, V)>::empty() =~= with_name(a, k).push(x));
                assert(with_name(a, k) + Seq::<(Seq<char>, V)>::empty() =~= with_name(a, k));
            } else {
                assert(with_name(seq![x], k) =~= Seq::<(Seq<char>, V)>::empty());
                assert(with_name(s, k) == with_name(s.drop_last(), k));
                assert(with_name(a, k) + Seq::<(Seq<char>, V)>::empty() =~= with_name(a, k));
            }
        }
    }
}

/// A list of named entries, by the names' views.
pub open spec fn named_view<V>(s: Seq<(String, V)>) -> Seq<(Seq<char>, V)> {
    s.map_values(|p: (String, V)| (p.0@, p.1))
}

fn find_slot<V>(sorted: &Vec<(String, V)>, key: &str) -> (r: usize)
    ensures
        r == slot(names_of(named_view(sorted@)), key@),
        r <= sorted@.len(),
{
    let ghost names = names_of(named_view(sorted@));
    let mut j: usize = 0;
    proof {
        assert(names.skip(0) =~= names);
    }
    while j < sorted.len() && !str_lt(key, sorted[j].0.as_str())
        invariant
            j <= sorted@.len(),
            names == names_of(named_view(sorted@)),
            slot(names, key@) == j + slot(names.skip(j as int), key@),
        decreases sorted.len() - j,
    {
        proof {
            assert(names.skip(j as int).drop_first() =~= names.skip(j + 1));
            assert(names.skip(j as int)[0] == names[j as int]);
        }
        j += 1;
    }
    proof {
        if j < sorted@.len() {
            assert(names.skip(j as int)[0] == names[j as int]);
        }
    }
    j
}

pub(crate) fn insert_by_name<V>(sorted: &mut Vec<(String, V)>, name: String, item: V, Ghost(s): Ghost<Seq<(Seq<char>, V)>>)
    requires
        named_view(old(sorted)@) == by_name(s),
    ensures
        named_view(final(sorted)@) == by_name(s.push((name@, item))),
{
    let ghost before = named_view(sorted@);
    let at = find_slot(sorted, name.as_str());
    let ghost entry = (name@, item);
    sorted.insert(at, (name, item));
    proof {
        assert(s.push(entry).drop_last() =~= s);
        assert(named_view(sorted@) =~= before.insert(at as int, entry));
    }
}

/// Splits a listing into the files and the subdirectories the walk looks
/// at, each as `(name, path)` and sorted by name, byte-wise: `10-a` comes
/// before `2-b`, and `Z` before `a`.
pub fn sort_entries(listing: Vec<RawEntry>) -> (r: (Vec<(String, PathBuf)>, Vec<(String, PathBuf)>))
    ensures
        named_view(r.0@) == by_name(shown_of(listing@, RawKind::File)),
        named_view(r.1@) == by_name(shown_of(listing@, RawKind::Dir)),
{
    let ghost all = listing@;
    let mut rest = listing;
    let mut files: Vec<(String, PathBuf)> = Vec::new();
    let mut dirs: Vec<(String, PathBuf)> = Vec::new();
    while rest.len() > 0
        invariant
            all =~= all.take(all.len() - rest@.len()) + rest@,
            rest@.len() <= all.len(),
            named_view(files@) == by_name(shown_of(all.take(all.len() - rest@.len()), RawKind::File)),
            named_view(dirs@) == by_name(shown_of(all.take(all.len() - rest@.len()), RawKind::Dir)),
        decreases rest@.len(),
    {
        let ghost done = all.take(all.len() - rest@.len());
        let e = rest.remove(0);
        let ghost next = all.take(all.len() - rest@.len());
        proof {
            assert(next =~= done.push(e));
            assert(next.drop_last() =~= done);
        }
        let RawEntry { name, path, kind } = e;
        let ghost fs = shown_of(done, RawKind::File);
        let ghost ds = shown_of(done, RawKind::Dir);
        match name {
            Some(n) => {
                let chars = chars_of(n.as_str());
                let starts_dot = chars.len() > 0 && chars[0] == '.';
                if !starts_dot {
                    match kind {
                        RawKind::File => {
                            insert_by_name(&mut files, n, path, Ghost(fs));
                        },
                        RawKind::Dir => {
                            insert_by_name(&mut dirs, n, path, Ghost(ds));
                        },
                        RawKind::Symlink => {},
                    }
                }
            },
            None => {},
        }
    }
    proof {
        assert(all.take(all.len() as int) =~= all);
    }
    (files, dirs)
}

// --- which entries count ---------------------------------------------------------

/// `items` without those whose flag is false, in order.
pub open spec fn kept<T>(items: Seq<T>, flags: Seq<bool>) -> Seq<T>
    decreases items.len(),
{
    if items.len() == 0 {
        seq![]
    } else {
        let n = items.len() - 1;
        let rest = kept(items.take(n), flags);
        if flags[n] {
            rest.push(items[n])
        } else {
            rest
        }
    }
}

proof fn lemma_kept_flags<T>(items: Seq<T>, f: Seq<bool>, g: Seq<bool>)
    requires
        forall|j: int| 0 <= j < items.len() ==> f[j] == g[j],
    ensures
        kept(items, f) == kept(items, g),
    decreases items.len(),
{
    if items.len() > 0 {
        let n = items.len() - 1;
        lemma_kept_flags(items.take(n), f, g);
    }
}

/// The paths of named entries, as files.
pub open spec fn as_files(s: Seq<(Seq<char>, PathBuf)>) -> Seq<File> {
    s.map_values(|p: (Seq<char>, PathBuf)| File { path: p.1 })
}

/// Keeps the candidate files that `is_eligible` accepts, in order. The
/// predicate is the caller's: nothing here knows which formats count.
pub fn eligible_files<E: Fn(&Path) -> bool>(candidates: Vec<(String, PathBuf)>, is_eligible: &E) -> (out: Vec<(String, PathBuf)>)
    requires
        forall|p: &Path| #[trigger] is_eligible.requires((p,)),
    ensures
        exists|flags: Seq<bool>|
            {
                &&& flags.len() == candidates@.len()
                &&& forall|i: int|
                    0 <= i < candidates@.len() ==> #[trigger] is_eligible.ensures(
                        (buf_path(&candidates@[i].1),),
                        flags[i],
                    )
                &&& named_view(out@) == kept(named_view(candidates@), flags)
            },
{
    let ghost all = named_view(candidates@);
    let ghost cands = candidates@;
    let mut rest = candidates;
    let mut out: Vec<(String, PathBuf)> = Vec::new();
    let ghost mut flags: Seq<bool> = seq![];
    while rest.len() > 0
        invariant
            forall|p: &Path| #[trigger] is_eligible.requires((p,)),
            cands =~= cands.take(cands.len() - rest@.len()) + rest@,
            rest@.len() <= cands.len(),
            all == named_view(cands),
            flags.len() == cands.len() - rest@.len(),
            forall|i: int| 0 <= i < flags.len() ==> #[trigger] is_eligible.ensures((buf_path(&cands[i].1),), flags[i]),
            named_view(out@) == kept(all.take(flags.len() as int), flags),
        decreases rest@.len(),
    {
        let ghost i = flags.len() as int;
        let ghost before_rest = rest@;
        let (name, path) = rest.remove(0);
        proof {
            assert(cands[i] == before_rest[0]);
            assert(cands.take(i + 1) =~= cands.take(i).push(cands[i]));
            assert(cands =~= cands.take(cands.len() - rest@.len()) + rest@);
        }
        let keep = is_eligible(as_path(&path));
        let ghost f = (name@, path);
        proof {
            assert(all[i] == f);
            assert(all.take(i + 1).take(i) =~= all.take(i));
            assert(all.take(i + 1)[i] == f);
            let old_flags = flags;
            flags = flags.push(keep);
            lemma_kept_flags(all.take(i), old_flags, flags);
        }
        if keep {
            let ghost before_out = out@;
            out.push((name, path));
            proof {
                assert(named_view(out@) =~= named_view(before_out).push(f));
            }
        }
    }
    proof {
        assert(all.take(cands.len() as int) =~= all);
    }
    out
}

/// `rel/name`, or `name` at the root, where `rel` is empty.
pub open spec fn rel_join(rel: Seq<char>, name: Seq<char>) -> Seq<char> {
    if rel.len() == 0 {
        name
    } else {
        rel + "/"@ + name
    }
}

/// The path of a child named `name`, relative to the root, for a directory
/// whose relative path is `rel`: `/`-separated, and empty at the root.
pub fn child_rel(rel: &str, name: &str) -> (out: String)
    ensures
        out@ == rel_join(rel@, name@),
{
    if chars_of(rel).len() == 0 {
        owned(name)
    } else {
        let mut out = owned(rel);
        push_str(&mut out, "/");
        push_str(&mut out, name);
        out
    }
}

/// Named entries, renamed by their paths relative to the root.
pub open spec fn renamed<V>(rel: Seq<char>, s: Seq<(Seq<char>, V)>) -> Seq<(Seq<char>, V)> {
    s.map_values(|p: (Seq<char>, V)| (rel_join(rel, p.0), p.1))
}

/// `wanted` answered `flag` when asked about the entry at `text`.
pub open spec fn answered<I: Fn(&str, EntryKind) -> bool>(wanted: &I, text: Seq<char>, kind: EntryKind, flag: bool) -> bool {
    exists|s: &str| s@ == text && #[trigger] wanted.ensures((s, kind), flag)
}

/// The entries of `items` that `wanted` keeps, asked by their paths relative
/// to the root, and named by those paths.
fn selected<I: Fn(&str, EntryKind) -> bool>(rel: &str, items: Vec<(String, PathBuf)>, kind: EntryKind, wanted: &I) -> (out: Vec<(String, PathBuf)>)
    requires
        forall|s: &str, k: EntryKind| #[trigger] wanted.requires((s, k)),
    ensures
        exists|flags: Seq<bool>|
            {
                &&& flags.len() == items@.len()
                &&& forall|i: int|
                    0 <= i < items@.len() ==> #[trigger] answered(wanted, rel_join(rel@, items@[i].0@), kind, flags[i])
                &&& named_view(out@) == kept(renamed(rel@, named_view(items@)), flags)
            },
{
    let ghost all = renamed(rel@, named_view(items@));
    let ghost its = items@;
    let mut rest = items;
    let mut out: Vec<(String, PathBuf)> = Vec::new();
    let ghost mut flags: Seq<bool> = seq![];
    while rest.len() > 0
        invariant
            forall|s: &str, k: EntryKind| #[trigger] wanted.requires((s, k)),
            its =~= its.take(its.len() - rest@.len()) + rest@,
            rest@.len() <= its.len(),
            all == renamed(rel@, named_view(its)),
            flags.len() == its.len() - rest@.len(),
            forall|i: int| 0 <= i < flags.len() ==> #[trigger] answered(wanted, rel_join(rel@, its[i].0@), kind, flags[i]),
            named_view(out@) == kept(all.take(flags.len() as int), flags),
        decreases rest@.len(),
    {
        let ghost i = flags.len() as int;
        let ghost before_rest = rest@;
        let (name, path) = rest.remove(0);
        proof {
            assert(its[i] == before_rest[0]);
            assert(its.take(i + 1) =~= its.take(i).push(its[i]));
            assert(its =~= its.take(its.len() - rest@.len()) + rest@);
        }
        let child = child_rel(rel, name.as_str());
        let cs = child.as_str();
        let keep = wanted(cs, kind);
        let ghost f = (child@, path);
        proof {
            assert(wanted.ensures((cs, kind), keep));
            assert(answered(wanted, rel_join(rel@, its[i].0@), kind, keep));
            assert(all[i] == f);
            assert(all.take(i + 1).take(i) =~= all.take(i));
            assert(all.take(i + 1)[i] == f);
            let old_flags = flags;
            flags = flags.push(keep);
            lemma_kept_flags(all.take(i), old_flags, flags);
        }
        if keep {
            let ghost before_out = out@;
            out.push((child, path));
            proof {
                assert(named_view(out@) =~= named_view(before_out).push(f));
            }
        }
    }
    proof {
        assert(all.take(its.len() as int) =~= all);
    }
    out
}

/// Whether a directory at `depth` (the root is at 0) is as deep as the walk
/// goes: then none of its subdirectories is entered.
pub open spec fn at_limit(depth: usize, max_depth: Option<usize>) -> bool {
    match max_depth {
        Some(max) => depth >= max,
        None => false,
    }
}

/// The subdirectories to enter, each named by its path relative to the
/// root: none at the depth limit, else those `wanted` keeps when asked about
/// a directory.
pub fn children_to_visit<I: Fn(&str, EntryKind) -> bool>(
    rel: &str,
    depth: usize,
    max_depth: Option<usize>,
    subdirs: Vec<(String, PathBuf)>,
    wanted: &I,
) -> (out: Vec<(String, PathBuf)>)
    requires
        forall|s: &str, k: EntryKind| #[trigger] wanted.requires((s, k)),
    ensures
        at_limit(depth, max_depth) ==> out@.len() == 0,
        !at_limit(depth, max_depth) ==> exists|flags: Seq<bool>|
            {
                &&& flags.len() == subdirs@.len()
                &&& forall|i: int|
                    0 <= i < subdirs@.len() ==> #[trigger] answered(
                        wanted,
                        rel_join(rel@, subdirs@[i].0@),
                        EntryKind::Dir,
                        flags[i],
                    )
                &&& named_view(out@) == kept(renamed(rel@, named_view(subdirs@)), flags)
            },
{
    let limit = match max_depth {
        Some(max) => depth >= max,
        None => false,
    };
    if limit {
        Vec::new()
    } else {
        selected(rel, subdirs, EntryKind::Dir, wanted)
    }
}

/// The files of named entries.
pub fn to_files(named: Vec<(String, PathBuf)>) -> (out: Vec<File>)
    ensures
        out@ == as_files(named_view(named@)),
{
    let ghost all = as_files(named_view(named@));
    let ghost ns = named@;
    let mut rest = named;
    let mut out: Vec<File> = Vec::new();
    while rest.len() > 0
        invariant
            ns =~= ns.take(ns.len() - rest@.len()) + rest@,
            rest@.len() <= ns.len(),
            all == as_files(named_view(ns)),
            out@ == all.take(ns.len() - rest@.len()),
        decreases rest@.len(),
    {
        let ghost i = ns.len() - rest@.len();
        let ghost before_rest = rest@;
        let (_name, path) = rest.remove(0);
        proof {
            assert(ns[i] == before_rest[0]);
            assert(ns =~= ns.take(ns.len() - rest@.len()) + rest@);
            assert(all.take(i + 1) =~= all.take(i).push(File { path }));
        }
        out.push(File { path });
    }
    proof {
        assert(all.take(ns.len() as int) =~= all);
    }
    out
}

/// What a directory with no entered child comes to, given the files it
/// keeps and whether it held any eligible file or any subdirectory before
/// `wanted` and the depth limit had their say.
pub open spec fn leaf_verdict(
    r: Result<Option<Dir>, DiscoverError>,
    dir: PathBuf,
    files: Seq<File>,
    had_files: bool,
    had_subdirs: bool,
) -> bool {
    if files.len() > 0 {
        r matches Ok(Some(d)) && d.path == dir && d.files@ == files && d.dirs@.len() == 0
    } else if had_files || had_subdirs {
        r matches Ok(None)
    } else {
        r matches Err(DiscoverError::EmptyDirectory { path }) && path == dir
    }
}

/// A directory's verdict, once its children have been walked. The files
/// at a node with entered children all apply; at a leaf, only those that
/// `wanted` keeps. A node left with no file and no child is dropped when
/// `wanted` or the depth limit removed what it had (eligible files or
/// subdirectories), and is an error only when it had neither.
pub fn assemble<I: Fn(&str, EntryKind) -> bool>(
    dir: PathBuf,
    rel: &str,
    files: Vec<(String, PathBuf)>,
    had_subdirs: bool,
    children: Vec<Dir>,
    wanted: &I,
) -> (r: Result<Option<Dir>, DiscoverError>)
    requires
        forall|s: &str, k: EntryKind| #[trigger] wanted.requires((s, k)),
    ensures
        children@.len() > 0 ==> (r matches Ok(Some(d)) && d.path == dir && d.files@ == as_files(
            named_view(files@),
        ) && d.dirs@ == children@),
        children@.len() == 0 ==> exists|flags: Seq<bool>|
            {
                &&& flags.len() == files@.len()
                &&& forall|i: int|
                    0 <= i < files@.len() ==> #[trigger] answered(
                        wanted,
                        rel_join(rel@, files@[i].0@),
                        EntryKind::File,
                        flags[i],
                    )
                &&& leaf_verdict(
                    r,
                    dir,
                    as_files(kept(renamed(rel@, named_view(files@)), flags)),
                    files@.len() > 0,
                    had_subdirs,
                )
            },
{
    let had_files = files.len() > 0;
    let kept_files = if children.len() == 0 {
        let chosen = selected(rel, files, EntryKind::File, wanted);
        to_files(chosen)
    } else {
        to_files(files)
    };
    if kept_files.len() == 0 && children.len() == 0 {
        if had_files || had_subdirs {
            Ok(None)
        } else {
            Err(DiscoverError::EmptyDirectory { path: dir })
        }
    } else {
        Ok(Some(Dir { path: dir, files: kept_files, dirs: children }))
    }
}

/// The result of a whole walk: the root's directory, or no match when the
/// depth limit or `wanted` left nothing.
pub fn settle(top: Option<Dir>) -> (r: Result<Dir, DiscoverError>)
    ensures
        match top {
            Some(d) => r == Ok::<Dir, DiscoverError>(d),
            None => r matches Err(DiscoverError::NoMatch),
        },
{
    match top {
        Some(d) => Ok(d),
        None => Err(DiscoverError::NoMatch),
    }
}

// --- groups, for the matrix ------------------------------------------------------

/// The name a file goes by in a group: its stem, or its whole name when the
/// stem is not valid UTF-8.
pub open spec fn choice_name(name: Seq<char>, path: PathBuf) -> Seq<char> {
    match stem_text(buf_path(&path)) {
        Some(Some(t)) => t,
        _ => name,
    }
}

/// The candidates whose extension names a format, each named by its stem.
pub open spec fn eligible_choices(s: Seq<(Seq<char>, PathBuf)>) -> Seq<(Seq<char>, PathBuf)>
    decreases s.len(),
{
    if s.len() == 0 {
        seq![]
    } else {
        let rest = eligible_choices(s.drop_last());
        let (name, path) = s.last();
        if format_of_path(buf_path(&path)) is Some {
            rest.push((choice_name(name, path), path))
        } else {
            rest
        }
    }
}

/// Alternatives, as named entries.
pub open spec fn alternatives_view(s: Seq<Alternative>) -> Seq<(Seq<char>, PathBuf)> {
    s.map_values(|a: Alternative| (a.name@, a.path))
}

/// The alternatives of one directory: the candidate files with a `.json` or
/// `.toml` extension, named by their stems and sorted by them, byte-wise.
/// Anything else — a `README.md` — is skipped without a word.
pub fn alternatives_of(candidates: Vec<(String, PathBuf)>) -> (out: Vec<Alternative>)
    ensures
        alternatives_view(out@) == by_name(eligible_choices(named_view(candidates@))),
{
    let ghost cands = candidates@;
    let mut rest = candidates;
    let mut sorted: Vec<(String, PathBuf)> = Vec::new();
    while rest.len() > 0
        invariant
            cands =~= cands.take(cands.len() - rest@.len()) + rest@,
            rest@.len() <= cands.len(),
            named_view(sorted@) == by_name(eligible_choices(named_view(cands.take(cands.len() - rest@.len())))),
        decreases rest@.len(),
    {
        let ghost done = named_view(cands.take(cands.len() - rest@.len()));
        let ghost before_rest = rest@;
        let (name, path) = rest.remove(0);
        let ghost next = named_view(cands.take(cands.len() - rest@.len()));
        proof {
            assert(cands =~= cands.take(cands.len() - rest@.len()) + rest@);
            assert(next =~= done.push((name@, path)));
            assert(next.drop_last() =~= done);
        }
        let ghost es = eligible_choices(done);
        if Format::from_path(as_path(&path)).is_some() {
            let stem = match file_stem_of(as_path(&path)) {
                Some(Some(t)) => t,
                _ => name,
            };
            insert_by_name(&mut sorted, stem, path, Ghost(es));
        }
    }
    proof {
        assert(cands.take(cands.len() as int) =~= cands);
    }
    let ghost sv = named_view(sorted@);
    let mut out: Vec<Alternative> = Vec::new();
    let mut left = sorted;
    while left.len() > 0
        invariant
            sv =~= sv.take(sv.len() - left@.len()) + named_view(left@),
            left@.len() <= sv.len(),
            alternatives_view(out@) == sv.take(sv.len() - left@.len()),
        decreases left@.len(),
    {
        let ghost i = sv.len() - left@.len();
        let ghost before_left = left@;
        let (name, path) = left.remove(0);
        let ghost before_out = out@;
        proof {
            assert(named_view(before_left) =~= seq![(name@, path)] + named_view(left@));
            assert(sv[i] == (name@, path));
            assert(sv =~= sv.take(sv.len() - left@.len()) + named_view(left@));
            assert(sv.take(i + 1) =~= sv.take(i).push(sv[i]));
        }
        out.push(Alternative { name, path });
        proof {
            assert(alternatives_view(out@) =~= alternatives_view(before_out).push(sv[i]));
        }
    }
    proof {
        assert(sv.take(sv.len() as int) =~= sv);
    }
    out
}

/// The group a directory's own files form: none without files, else named
/// by the directory's path relative to the root, or by `root_id` at the
/// root itself.
pub fn own_group(rel: &str, root_id: &str, alternatives: Vec<Alternative>) -> (r: Option<Group>)
    ensures
        alternatives@.len() == 0 ==> r is None,
        alternatives@.len() > 0 ==> (r matches Some(g) && g.id@ == (if rel@.len() == 0 {
            root_id@
        } else {
            rel@
        }) && g.alternatives@ == alternatives@),
{
    if alternatives.len() == 0 {
        None
    } else {
        let id = if chars_of(rel).len() == 0 {
            owned(root_id)
        } else {
            owned(rel)
        };
        Some(Group { id, alternatives })
    }
}

/// `` `{dir}` contains no .json or .toml files ``, with its `help:` line: a
/// directory that contributed nothing, neither files nor a subdirectory that
/// did.
pub fn barren_directory(dir: &Path) -> (out: String)
    ensures
        out@ == "`"@ + display_text(dir) + "` contains no .json or .toml files\nhelp: add a file, or remove the directory"@,
{
    let mut out = owned("`");
    push_str(&mut out, display_path(dir).as_str());
    push_str(&mut out, "` contains no .json or .toml files\nhelp: add a file, or remove the directory");
    out
}

/// Whether a directory contributed to the matrix: it did when it has a
/// group of its own or a subdirectory of it did, and a directory that
/// contributed nothing is an error naming it ([`barren_directory`]).
pub fn directory_contribution(dir: &Path, own_group: bool, child_contributed: bool) -> (r: Result<bool, String>)
    ensures
        own_group || child_contributed ==> r == Ok::<bool, String>(true),
        !own_group && !child_contributed ==> (r matches Err(m) && m@ == "`"@ + display_text(dir)
            + "` contains no .json or .toml files\nhelp: add a file, or remove the directory"@),
{
    if own_group || child_contributed {
        Ok(true)
    } else {
        Err(barren_directory(dir))
    }
}

/// The first position whose id an earlier position already has, or -1.
pub open spec fn first_repeat(ids: Seq<Seq<char>>) -> int
    decreases ids.len(),
{
    if ids.len() == 0 {
        -1
    } else {
        let r = first_repeat(ids.drop_last());
        if r >= 0 {
            r
        } else if ids.drop_last().contains(ids.last()) {
            ids.len() - 1
        } else {
            -1
        }
    }
}

/// The ids of groups.
pub open spec fn group_ids(gs: Seq<Group>) -> Seq<Seq<char>> {
    gs.map_values(|g: Group| g.id@)
}

/// What is said of a group id defined twice.
pub open spec fn twice_text(id: Seq<char>) -> Seq<char> {
    "group `"@ + id
        + "` is defined twice: the root directory's basename collides with a subdirectory\nhelp: rename the subdirectory, or point `knf matrix` at a differently named root"@
}

fn seen_before(groups: &[Group], j: usize) -> (r: bool)
    requires
        j < groups@.len(),
    ensures
        r == group_ids(groups@).take(j as int).contains(groups@[j as int].id@),
{
    let ghost ids = group_ids(groups@);
    let mut i: usize = 0;
    while i < j
        invariant
            i <= j < groups@.len(),
            ids == group_ids(groups@),
            forall|k: int| 0 <= k < i ==> ids[k] != ids[j as int],
        decreases j - i,
    {
        if str_eq(groups[i].id.as_str(), groups[j].id.as_str()) {
            proof {
                assert(ids.take(j as int)[i as int] == ids[j as int]);
            }
            return true;
        }
        i += 1;
    }
    proof {
        if ids.take(j as int).contains(ids[j as int]) {
            let k = choose|k: int| 0 <= k < j && ids.take(j as int)[k] == ids[j as int];
            assert(ids[k] == ids[j as int]);
        }
    }
    false
}

/// The complaint about the first group whose id an earlier group already
/// has — a root basename that collides with a subdirectory name would make
/// pins ambiguous — or `None` when every id is distinct.
pub fn repeated_group(groups: &[Group]) -> (r: Option<String>)
    ensures
        first_repeat(group_ids(groups@)) < 0 ==> r is None,
        first_repeat(group_ids(groups@)) >= 0 ==> (r matches Some(t) && t@ == twice_text(
            group_ids(groups@)[first_repeat(group_ids(groups@))],
        )),
{
    let ghost ids = group_ids(groups@);
    let mut j: usize = 0;
    while j < groups.len()
        invariant
            j <= groups@.len(),
            ids == group_ids(groups@),
            first_repeat(ids.take(j as int)) < 0,
        decreases groups.len() - j,
    {
        let twice = seen_before(groups, j);
        proof {
            assert(ids.take(j + 1).drop_last() =~= ids.take(j as int));
            assert(ids.take(j + 1).last() == ids[j as int]);
        }
        if twice {
            proof {
                lemma_first_repeat_prefix(ids, j as int + 1);
            }
            let mut out = owned("group `");
            push_str(&mut out, groups[j].id.as_str());
            push_str(
                &mut out,
                "` is defined twice: the root directory's basename collides with a subdirectory\nhelp: rename the subdirectory, or point `knf matrix` at a differently named root",
            );
            return Some(out);
        }
        j += 1;
    }
    proof {
        assert(ids.take(j as int) =~= ids);
    }
    None
}

proof fn lemma_first_repeat_prefix(ids: Seq<Seq<char>>, n: int)
    requires
        0 <= n <= ids.len(),
        first_repeat(ids.take(n)) >= 0,
    ensures
        first_repeat(ids) == first_repeat(ids.take(n)),
    decreases ids.len() - n,
{
    if n < ids.len() {
        assert(ids.take(n + 1).drop_last() =~= ids.take(n));
        assert(first_repeat(ids.take(n + 1)) == first_repeat(ids.take(n)));
        lemma_first_repeat_prefix(ids, n + 1);
    } else {
        assert(ids.take(n) =~= ids);
    }
}

} // verus!
