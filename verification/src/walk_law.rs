//! What enumerating a directory tree keeps: the files chosen above a
//! directory begin every path below it.

use vstd::prelude::*;
use crate::fs::{choices, extended, leaf_paths, over_children, over_choices, walk_spec, Dir, File};

verus! {

/// Every path of `paths` begins with `prefix`.
pub open spec fn all_begin_with(paths: Seq<Seq<File>>, prefix: Seq<File>) -> bool {
    forall|j: int| 0 <= j < paths.len() ==> prefix.is_prefix_of(#[trigger] paths[j])
}

proof fn lemma_begin_concat(a: Seq<Seq<File>>, b: Seq<Seq<File>>, prefix: Seq<File>)
    requires
        all_begin_with(a, prefix),
        all_begin_with(b, prefix),
    ensures
        all_begin_with(a + b, prefix),
{
    assert forall|j: int| 0 <= j < (a + b).len() implies prefix.is_prefix_of(#[trigger] (a + b)[j]) by {
        if j < a.len() {
            assert((a + b)[j] == a[j]);
        } else {
            assert((a + b)[j] == b[j - a.len()]);
        }
    }
}

/// Paths that begin with a longer prefix begin with its own prefix.
proof fn lemma_begin_weaken(paths: Seq<Seq<File>>, prefix: Seq<File>, c: Option<File>)
    requires
        all_begin_with(paths, extended(prefix, c)),
    ensures
        all_begin_with(paths, prefix),
{
    let longer = extended(prefix, c);
    assert(prefix.is_prefix_of(longer)) by {
        assert(prefix =~= longer.subrange(0, prefix.len() as int));
    }
    assert forall|j: int| 0 <= j < paths.len() implies prefix.is_prefix_of(#[trigger] paths[j]) by {
        assert(longer.is_prefix_of(paths[j]));
        assert(prefix =~= paths[j].subrange(0, prefix.len() as int)) by {
            assert forall|t: int| 0 <= t < prefix.len() implies prefix[t] == paths[j].subrange(0, prefix.len() as int)[t] by {
                assert(longer[t] == prefix[t]);
                assert(longer[t] == paths[j].subrange(0, longer.len() as int)[t]);
            }
        }
    }
}

proof fn lemma_leaf_paths_begin(cs: Seq<Option<File>>, prefix: Seq<File>)
    ensures
        all_begin_with(leaf_paths(cs, prefix), prefix),
    decreases cs.len(),
{
    if cs.len() > 0 {
        let next = extended(prefix, cs[0]);
        let head: Seq<Seq<File>> = if next.len() == 0 {
            Seq::empty()
        } else {
            seq![next]
        };
        assert(all_begin_with(head, next)) by {
            assert forall|j: int| 0 <= j < head.len() implies next.is_prefix_of(#[trigger] head[j]) by {
                assert(next =~= next.subrange(0, next.len() as int));
            }
        }
        lemma_begin_weaken(head, prefix, cs[0]);
        lemma_leaf_paths_begin(cs.drop_first(), prefix);
        lemma_begin_concat(head, leaf_paths(cs.drop_first(), prefix), prefix);
    }
}

proof fn lemma_walk_begins(dir: Dir, prefix: Seq<File>)
    ensures
        all_begin_with(walk_spec(dir, prefix), prefix),
    decreases dir, 2int, 0int,
{
    if dir.dirs@.len() == 0 {
        lemma_leaf_paths_begin(choices(dir.files@), prefix);
    } else {
        lemma_choices_begin(dir, choices(dir.files@), prefix);
    }
}

proof fn lemma_choices_begin(dir: Dir, cs: Seq<Option<File>>, prefix: Seq<File>)
    ensures
        all_begin_with(over_choices(dir, cs, prefix), prefix),
    decreases dir, 1int, cs.len(),
{
    if cs.len() > 0 {
        lemma_children_begin(dir, 0, extended(prefix, cs[0]));
        lemma_begin_weaken(over_children(dir, 0, extended(prefix, cs[0])), prefix, cs[0]);
        lemma_choices_begin(dir, cs.drop_first(), prefix);
        lemma_begin_concat(
            over_children(dir, 0, extended(prefix, cs[0])),
            over_choices(dir, cs.drop_first(), prefix),
            prefix,
        );
    }
}

proof fn lemma_children_begin(dir: Dir, i: int, prefix: Seq<File>)
    ensures
        all_begin_with(over_children(dir, i, prefix), prefix),
    decreases dir, 0int, dir.dirs@.len() - i,
{
    if 0 <= i < dir.dirs@.len() {
        assert(decreases_to!(dir => dir.dirs));
        assert(decreases_to!(dir.dirs => dir.dirs@));
        assert(decreases_to!(dir.dirs@ => dir.dirs@[i]));
        lemma_walk_begins(dir.dirs@[i], prefix);
        lemma_children_begin(dir, i + 1, prefix);
        lemma_begin_concat(walk_spec(dir.dirs@[i], prefix), over_children(dir, i + 1, prefix), prefix);
    }
}

/// Every path enumerated below a directory begins with the files chosen
/// above it: a directory without files passes its ancestors' choices
/// through unchanged, and no choice below ever drops one made above.
pub proof fn law_paths_below_keep_the_files_above(dir: Dir, prefix: Seq<File>)
    ensures
        forall|j: int|
            0 <= j < walk_spec(dir, prefix).len() ==> prefix.is_prefix_of(#[trigger] walk_spec(dir, prefix)[j]),
{
    lemma_walk_begins(dir, prefix);
}

/// With a prefix to start from, every directory yields at least one path.
proof fn lemma_walk_nonempty(dir: Dir, prefix: Seq<File>)
    requires
        prefix.len() > 0,
    ensures
        walk_spec(dir, prefix).len() > 0,
    decreases dir, 2int, 0int,
{
    let cs = choices(dir.files@);
    assert(cs.len() > 0);
    if dir.dirs@.len() == 0 {
        assert(extended(prefix, cs[0]).len() > 0);
    } else {
        lemma_children_nonempty(dir, extended(prefix, cs[0]));
    }
}

proof fn lemma_children_nonempty(dir: Dir, prefix: Seq<File>)
    requires
        prefix.len() > 0,
        dir.dirs@.len() > 0,
    ensures
        over_children(dir, 0, prefix).len() > 0,
    decreases dir, 1int, 0int,
{
    assert(decreases_to!(dir => dir.dirs));
    assert(decreases_to!(dir.dirs => dir.dirs@));
    assert(decreases_to!(dir.dirs@ => dir.dirs@[0]));
    lemma_walk_nonempty(dir.dirs@[0], prefix);
}

/// Where the paths of one choice begin with that choice, some path of the
/// whole begins with each choice.
proof fn lemma_choice_reached(dir: Dir, cs: Seq<Option<File>>, prefix: Seq<File>, k: int)
    requires
        dir.dirs@.len() > 0,
        0 <= k < cs.len(),
        cs[k] is Some,
    ensures
        exists|j: int|
            0 <= j < over_choices(dir, cs, prefix).len() && extended(prefix, cs[k]).is_prefix_of(
                #[trigger] over_choices(dir, cs, prefix)[j],
            ),
    decreases cs.len(),
{
    let head = over_children(dir, 0, extended(prefix, cs[0]));
    let tail = over_choices(dir, cs.drop_first(), prefix);
    let all = over_choices(dir, cs, prefix);
    assert(all == head + tail);
    if k == 0 {
        assert(extended(prefix, cs[0]).len() > 0);
        lemma_children_nonempty(dir, extended(prefix, cs[0]));
        lemma_children_begin(dir, 0, extended(prefix, cs[0]));
        assert(all[0] == head[0]);
        assert(extended(prefix, cs[0]).is_prefix_of(all[0]));
    } else {
        lemma_choice_reached(dir, cs.drop_first(), prefix, k - 1);
        assert(cs.drop_first()[k - 1] == cs[k]);
        let j = choose|j: int|
            0 <= j < tail.len() && extended(prefix, cs[k]).is_prefix_of(#[trigger] tail[j]);
        assert(all[head.len() + j] == tail[j]);
    }
}

/// Every file of a directory starts some path below it, right after the
/// files chosen above it: no file is dropped from the enumeration.
pub proof fn law_every_file_starts_a_path(dir: Dir, prefix: Seq<File>, f: File)
    requires
        dir.files@.contains(f),
    ensures
        exists|j: int|
            0 <= j < walk_spec(dir, prefix).len() && prefix.push(f).is_prefix_of(#[trigger] walk_spec(dir, prefix)[j]),
{
    let cs = choices(dir.files@);
    let k = choose|k: int| 0 <= k < dir.files@.len() && dir.files@[k] == f;
    assert(cs[k] == Some(f));
    assert(extended(prefix, cs[k]) == prefix.push(f));
    let all = walk_spec(dir, prefix);
    if dir.dirs@.len() == 0 {
        lemma_leaf_reached(cs, prefix, k);
        assert(all == leaf_paths(cs, prefix));
    } else {
        lemma_choice_reached(dir, cs, prefix, k);
        assert(all == over_choices(dir, cs, prefix));
    }
    let j = choose|j: int| 0 <= j < all.len() && extended(prefix, cs[k]).is_prefix_of(#[trigger] all[j]);
    assert(prefix.push(f).is_prefix_of(all[j]));
}

proof fn lemma_leaf_reached(cs: Seq<Option<File>>, prefix: Seq<File>, k: int)
    requires
        0 <= k < cs.len(),
        cs[k] is Some,
    ensures
        exists|j: int|
            0 <= j < leaf_paths(cs, prefix).len() && extended(prefix, cs[k]).is_prefix_of(
                #[trigger] leaf_paths(cs, prefix)[j],
            ),
    decreases cs.len(),
{
    let next = extended(prefix, cs[0]);
    let head: Seq<Seq<File>> = if next.len() == 0 {
        Seq::empty()
    } else {
        seq![next]
    };
    let tail = leaf_paths(cs.drop_first(), prefix);
    let all = leaf_paths(cs, prefix);
    assert(all == head + tail);
    if k == 0 {
        assert(all[0] == next);
        assert(next.is_prefix_of(next)) by {
            assert(next =~= next.subrange(0, next.len() as int));
        }
    } else {
        lemma_leaf_reached(cs.drop_first(), prefix, k - 1);
        assert(cs.drop_first()[k - 1] == cs[k]);
        let j = choose|j: int|
            0 <= j < tail.len() && extended(prefix, cs[k]).is_prefix_of(#[trigger] tail[j]);
        assert(all[head.len() + j] == tail[j]);
    }
}

/// A directory with files puts one of them right after the files chosen
/// above it, in every path below it.
pub proof fn law_paths_take_one_file_per_directory(dir: Dir, prefix: Seq<File>)
    requires
        dir.files@.len() > 0,
    ensures
        forall|j: int|
            0 <= j < walk_spec(dir, prefix).len() ==> prefix.len() < (#[trigger] walk_spec(dir, prefix)[j]).len()
                && dir.files@.contains(walk_spec(dir, prefix)[j][prefix.len() as int]),
{
    let cs = choices(dir.files@);
    lemma_choices_of_files(dir.files@);
    if dir.dirs@.len() == 0 {
        lemma_leaf_next(dir.files@, cs, prefix);
    } else {
        lemma_choices_next(dir, dir.files@, cs, prefix);
    }
}

/// Every choice of a directory with files is one of its files.
spec fn choices_are_files(files: Seq<File>, cs: Seq<Option<File>>) -> bool {
    forall|k: int| 0 <= k < cs.len() ==> (#[trigger] cs[k]) is Some && files.contains(cs[k]->Some_0)
}

/// The paths all continue their prefix with a file of `files`.
spec fn next_is_file(paths: Seq<Seq<File>>, prefix: Seq<File>, files: Seq<File>) -> bool {
    forall|j: int|
        0 <= j < paths.len() ==> prefix.len() < (#[trigger] paths[j]).len() && files.contains(paths[j][prefix.len() as int])
}

proof fn lemma_next_concat(a: Seq<Seq<File>>, b: Seq<Seq<File>>, prefix: Seq<File>, files: Seq<File>)
    requires
        next_is_file(a, prefix, files),
        next_is_file(b, prefix, files),
    ensures
        next_is_file(a + b, prefix, files),
{
    assert forall|j: int| 0 <= j < (a + b).len() implies prefix.len() < (#[trigger] (a + b)[j]).len() && files.contains(
        (a + b)[j][prefix.len() as int],
    ) by {
        if j < a.len() {
            assert((a + b)[j] == a[j]);
        } else {
            assert((a + b)[j] == b[j - a.len()]);
        }
    }
}

proof fn lemma_choices_of_files(files: Seq<File>)
    requires
        files.len() > 0,
    ensures
        choices_are_files(files, choices(files)),
{
    let cs = choices(files);
    assert forall|k: int| 0 <= k < cs.len() implies (#[trigger] cs[k]) is Some && files.contains(cs[k]->Some_0) by {
        assert(cs[k] == Some(files[k]));
    }
}

/// The file a path continues with, once it begins with `prefix` and that file.
proof fn lemma_next_from_begin(paths: Seq<Seq<File>>, prefix: Seq<File>, f: File, files: Seq<File>)
    requires
        all_begin_with(paths, prefix.push(f)),
        files.contains(f),
    ensures
        next_is_file(paths, prefix, files),
{
    assert forall|j: int| 0 <= j < paths.len() implies prefix.len() < (#[trigger] paths[j]).len() && files.contains(
        paths[j][prefix.len() as int],
    ) by {
        assert(prefix.push(f).is_prefix_of(paths[j]));
        assert(prefix.push(f)[prefix.len() as int] == f);
        assert(paths[j].subrange(0, prefix.len() as int + 1)[prefix.len() as int] == paths[j][prefix.len() as int]);
    }
}

proof fn lemma_leaf_next(files: Seq<File>, cs: Seq<Option<File>>, prefix: Seq<File>)
    requires
        choices_are_files(files, cs),
    ensures
        next_is_file(leaf_paths(cs, prefix), prefix, files),
    decreases cs.len(),
{
    if cs.len() > 0 {
        let f = cs[0]->Some_0;
        let next = prefix.push(f);
        assert(extended(prefix, cs[0]) == next);
        let head: Seq<Seq<File>> = seq![next];
        assert(next_is_file(head, prefix, files)) by {
            assert(head[0] == next);
            assert(next[prefix.len() as int] == f);
        }
        assert forall|k: int| 0 <= k < cs.drop_first().len() implies (#[trigger] cs.drop_first()[k]) is Some
            && files.contains(cs.drop_first()[k]->Some_0) by {
            assert(cs.drop_first()[k] == cs[k + 1]);
        }
        lemma_leaf_next(files, cs.drop_first(), prefix);
        lemma_next_concat(head, leaf_paths(cs.drop_first(), prefix), prefix, files);
    }
}

proof fn lemma_choices_next(dir: Dir, files: Seq<File>, cs: Seq<Option<File>>, prefix: Seq<File>)
    requires
        choices_are_files(files, cs),
    ensures
        next_is_file(over_choices(dir, cs, prefix), prefix, files),
    decreases cs.len(),
{
    if cs.len() > 0 {
        let f = cs[0]->Some_0;
        assert(extended(prefix, cs[0]) == prefix.push(f));
        lemma_children_begin(dir, 0, prefix.push(f));
        lemma_next_from_begin(over_children(dir, 0, prefix.push(f)), prefix, f, files);
        assert forall|k: int| 0 <= k < cs.drop_first().len() implies (#[trigger] cs.drop_first()[k]) is Some
            && files.contains(cs.drop_first()[k]->Some_0) by {
            assert(cs.drop_first()[k] == cs[k + 1]);
        }
        lemma_choices_next(dir, files, cs.drop_first(), prefix);
        lemma_next_concat(over_children(dir, 0, prefix.push(f)), over_choices(dir, cs.drop_first(), prefix), prefix, files);
    }
}

} // verus!
