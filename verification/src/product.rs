//! Cartesian-product mode: the `x` positional that separates factors, the
//! combinations of one layer from each factor, and the output names derived
//! from them. Reading the inputs and writing the outputs is the caller's.

use vstd::prelude::*;
use std::path::{Path, PathBuf};
use crate::format::{
    as_path, buf_path, display_path, display_text, file_stem_of, os_text, path_text, stem_text, to_path_buf, Format,
    SourceName,
};
use crate::matrix::{all_indices, checked_product, enumerate, joined_by, lemma_product_member, product, product_size};
use crate::text::{chars_of, owned, push_str, str_eq};
use crate::value::Value;

verus! {

/// Leaves room below the common 255-byte limit on a file name.
pub const MAX_OUTPUT_NAME_BYTES: usize = 240;

/// Why a product could not be formed or named.
#[derive(Debug)]
pub enum ProductError {
    /// An `x` first, or right after another `x`.
    EmptyFactor,
    /// An `x` last, or no positional at all.
    TrailingSeparator,
    /// More combinations than a `usize` counts.
    TooLarge,
    /// A generated name longer than [`MAX_OUTPUT_NAME_BYTES`].
    NameTooLong { name: String },
    /// An input with no file stem to name outputs by.
    NoStem { path: PathBuf },
    /// An input whose stem is not valid UTF-8.
    StemNotUtf8 { path: PathBuf },
    /// A label holding `/`, `\` or a NUL.
    UnsafeLabel { text: String },
}

/// What a [`ProductError`] says.
pub open spec fn product_error_text(e: &ProductError) -> Seq<char> {
    match e {
        ProductError::EmptyFactor => "`x` cannot start a product or follow another `x`: factor is empty"@,
        ProductError::TrailingSeparator => "`x` cannot end a product: factor is empty"@,
        ProductError::TooLarge => "Cartesian product is too large to enumerate"@,
        ProductError::NameTooLong { name } => "generated output name exceeds 240 bytes: `"@ + name@ + "`"@,
        ProductError::NoStem { path } => "cannot derive an output name from input `"@ + display_text(buf_path(path))
            + "`"@,
        ProductError::StemNotUtf8 { path } => "cannot derive an output name from input `"@ + display_text(
            buf_path(path),
        ) + "`: file name is not valid UTF-8"@,
        ProductError::UnsafeLabel { text } => "cannot use `"@ + text@
            + "` in an output filename: it contains a path separator or null byte"@,
    }
}

impl ProductError {
    /// The message, as the command line prints it.
    pub fn to_string(&self) -> (out: String)
        ensures
            out@ == product_error_text(self),
    {
        match self {
            ProductError::EmptyFactor => owned("`x` cannot start a product or follow another `x`: factor is empty"),
            ProductError::TrailingSeparator => owned("`x` cannot end a product: factor is empty"),
            ProductError::TooLarge => owned("Cartesian product is too large to enumerate"),
            ProductError::NameTooLong { name } => {
                let mut out = owned("generated output name exceeds 240 bytes: `");
                push_str(&mut out, name.as_str());
                push_str(&mut out, "`");
                out
            },
            ProductError::NoStem { path } => {
                let mut out = owned("cannot derive an output name from input `");
                push_str(&mut out, display_path(as_path(path)).as_str());
                push_str(&mut out, "`");
                out
            },
            ProductError::StemNotUtf8 { path } => {
                let mut out = owned("cannot derive an output name from input `");
                push_str(&mut out, display_path(as_path(path)).as_str());
                push_str(&mut out, "`: file name is not valid UTF-8");
                out
            },
            ProductError::UnsafeLabel { text } => {
                let mut out = owned("cannot use `");
                push_str(&mut out, text.as_str());
                push_str(&mut out, "` in an output filename: it contains a path separator or null byte");
                out
            },
        }
    }
}

// --- factors ---------------------------------------------------------------------

/// Whether a positional is the `x` that separates two factors.
pub open spec fn is_separator(path: &Path) -> bool {
    os_text(path) == Some("x"@)
}

/// Whether a positional is the `x` that separates two factors.
pub fn is_product(path: &Path) -> (r: bool)
    ensures
        r == is_separator(path),
{
    match path_text(path) {
        Some(t) => str_eq(t.as_str(), "x"),
        None => false,
    }
}

/// Why positionals do not split into factors.
pub enum SplitFault {
    EmptyFactor,
    TrailingSeparator,
}

/// How the first `n` positionals split, given which are separators: the
/// finished factors as ranges of positions, and where the open one starts.
pub open spec fn split_upto(xs: Seq<bool>, n: nat) -> Result<(Seq<(int, int)>, int), SplitFault>
    decreases n,
{
    if n == 0 {
        Ok((seq![], 0))
    } else {
        match split_upto(xs, (n - 1) as nat) {
            Err(f) => Err(f),
            Ok((done, start)) => if xs[n - 1] {
                if start == n - 1 {
                    Err(SplitFault::EmptyFactor)
                } else {
                    Ok((done.push((start, n - 1)), n as int))
                }
            } else {
                Ok((done, start))
            },
        }
    }
}

/// The factors, as ranges of positions, or why there are none.
pub open spec fn split_spec(xs: Seq<bool>) -> Result<Seq<(int, int)>, SplitFault> {
    match split_upto(xs, xs.len()) {
        Err(f) => Err(f),
        Ok((done, start)) => if start == xs.len() {
            Err(SplitFault::TrailingSeparator)
        } else {
            Ok(done.push((start, xs.len() as int)))
        },
    }
}

/// Which positionals are separators.
pub open spec fn separators(paths: Seq<PathBuf>) -> Seq<bool> {
    Seq::new(paths.len(), |i: int| is_separator(buf_path(&paths[i])))
}

proof fn lemma_split_upto_bounds(xs: Seq<bool>, n: nat)
    requires
        n <= xs.len(),
        split_upto(xs, n) is Ok,
    ensures
        ({
            let (done, start) = split_upto(xs, n)->Ok_0;
            &&& 0 <= start <= n
            &&& forall|k: int| 0 <= k < done.len() ==> 0 <= (#[trigger] done[k]).0 < done[k].1 <= start
        }),
    decreases n,
{
    if n > 0 {
        lemma_split_upto_bounds(xs, (n - 1) as nat);
    }
}

/// Splits positionals at each `x` into factors, none of them empty.
pub fn split_factors(paths: &[PathBuf]) -> (r: Result<Vec<Vec<&Path>>, ProductError>)
    ensures
        match split_spec(separators(paths@)) {
            Ok(ranges) => r is Ok && r->Ok_0@.len() == ranges.len() && forall|k: int|
                0 <= k < ranges.len() ==> (#[trigger] r->Ok_0@[k])@.len() == ranges[k].1 - ranges[k].0 && forall|j: int|
                    0 <= j < ranges[k].1 - ranges[k].0 ==> r->Ok_0@[k]@[j] == buf_path(&paths@[ranges[k].0 + j]),
            Err(SplitFault::EmptyFactor) => r matches Err(ProductError::EmptyFactor),
            Err(SplitFault::TrailingSeparator) => r matches Err(ProductError::TrailingSeparator),
        },
{
    let ghost xs = separators(paths@);
    let mut factors: Vec<Vec<&Path>> = Vec::new();
    let mut current: Vec<&Path> = Vec::new();
    let mut i: usize = 0;
    while i < paths.len()
        invariant
            i <= paths@.len(),
            xs == separators(paths@),
            split_upto(xs, i as nat) is Ok,
            ({
                let (done, start) = split_upto(xs, i as nat)->Ok_0;
                &&& factors@.len() == done.len()
                &&& forall|k: int|
                    0 <= k < done.len() ==> (#[trigger] factors@[k])@.len() == done[k].1 - done[k].0 && forall|j: int|
                        0 <= j < done[k].1 - done[k].0 ==> factors@[k]@[j] == buf_path(&paths@[done[k].0 + j])
                &&& current@.len() == i - start
                &&& forall|j: int| 0 <= j < i - start ==> current@[j] == buf_path(&paths@[start + j])
            }),
        decreases paths.len() - i,
    {
        proof {
            lemma_split_upto_bounds(xs, i as nat);
        }
        let ghost (done, start) = split_upto(xs, i as nat)->Ok_0;
        let p = as_path(&paths[i]);
        let x = is_product(p);
        proof {
            assert(xs[i as int] == x);
        }
        if x {
            if current.len() == 0 {
                proof {
                    assert(split_upto(xs, (i + 1) as nat) is Err);
                    lemma_split_err_stays(xs, (i + 1) as nat, xs.len());
                }
                return Err(ProductError::EmptyFactor);
            }
            let ghost finished = current@;
            let ghost before = factors@;
            factors.push(current);
            current = Vec::new();
            proof {
                assert(factors@.len() == before.len() + 1 && factors@.last()@ == finished);
                assert(forall|k: int| 0 <= k < before.len() ==> factors@[k] == before[k]);
                let (d2, s2) = split_upto(xs, (i + 1) as nat)->Ok_0;
                assert(d2 == done.push((start, i as int)));
                assert(s2 == i + 1);
            }
        } else {
            current.push(p);
        }
        i += 1;
    }
    if current.len() == 0 {
        return Err(ProductError::TrailingSeparator);
    }
    proof {
        lemma_split_upto_bounds(xs, i as nat);
    }
    let ghost last = current@;
    let ghost before = factors@;
    factors.push(current);
    proof {
        assert(factors@.len() == before.len() + 1 && factors@.last()@ == last);
        assert(forall|k: int| 0 <= k < before.len() ==> factors@[k] == before[k]);
    }
    Ok(factors)
}

proof fn lemma_split_err_stays(xs: Seq<bool>, n: nat, m: nat)
    requires
        n <= m <= xs.len(),
        split_upto(xs, n) is Err,
    ensures
        split_upto(xs, m) == split_upto(xs, n),
    decreases m - n,
{
    if n < m {
        lemma_split_err_stays(xs, n + 1, m);
    }
}

// --- labels ------------------------------------------------------------------------

/// Whether text holds a path separator or a NUL.
pub open spec fn unsafe_label(text: Seq<char>) -> bool {
    text.contains('/') || text.contains('\\') || text.contains('\0')
}

/// Refuses a label that could smuggle a path separator or a NUL into a
/// generated file name.
pub fn reject_unsafe_label(text: &str) -> (r: Result<(), ProductError>)
    ensures
        !unsafe_label(text@) ==> r is Ok,
        unsafe_label(text@) ==> (r matches Err(ProductError::UnsafeLabel { text: t }) && t@ == text@),
{
    let chars = chars_of(text);
    let mut i: usize = 0;
    while i < chars.len()
        invariant
            i <= chars@.len(),
            chars@ == text@,
            forall|j: int| 0 <= j < i ==> chars@[j] != '/' && chars@[j] != '\\' && chars@[j] != '\0',
        decreases chars.len() - i,
    {
        let c = chars[i];
        if c == '/' || c == '\\' || c == '\0' {
            proof {
                assert(text@[i as int] == c);
            }
            return Err(ProductError::UnsafeLabel { text: owned(text) });
        }
        i += 1;
    }
    proof {
        if unsafe_label(text@) {
            if text@.contains('/') {
                let k = choose|k: int| 0 <= k < text@.len() && text@[k] == '/';
                assert(chars@[k] == '/');
            } else if text@.contains('\\') {
                let k = choose|k: int| 0 <= k < text@.len() && text@[k] == '\\';
                assert(chars@[k] == '\\');
            } else {
                let k = choose|k: int| 0 <= k < text@.len() && text@[k] == '\0';
                assert(chars@[k] == '\0');
            }
        }
    }
    Ok(())
}

/// The label an input file gives the outputs it takes part in: `stdin` for
/// `-`, else its stem, which must exist, be valid UTF-8, not be empty, and
/// be safe in a file name.
pub fn file_label(path: &Path) -> (r: Result<String, ProductError>)
    ensures
        os_text(path) == Some("-"@) ==> (r matches Ok(t) && t@ == "stdin"@),
        os_text(path) != Some("-"@) ==> match stem_text(path) {
            None => r matches Err(ProductError::NoStem { path: p }) && buf_path(&p) == path,
            Some(None) => r matches Err(ProductError::StemNotUtf8 { path: p }) && buf_path(&p) == path,
            Some(Some(stem)) => if stem.len() == 0 {
                r matches Err(ProductError::NoStem { path: p }) && buf_path(&p) == path
            } else if unsafe_label(stem) {
                r matches Err(ProductError::UnsafeLabel { text: t }) && t@ == stem
            } else {
                r matches Ok(t) && t@ == stem
            },
        },
{
    let is_stdin = match path_text(path) {
        Some(t) => str_eq(t.as_str(), "-"),
        None => false,
    };
    if is_stdin {
        return Ok(owned("stdin"));
    }
    match file_stem_of(path) {
        None => Err(ProductError::NoStem { path: to_path_buf(path) }),
        Some(None) => Err(ProductError::StemNotUtf8 { path: to_path_buf(path) }),
        Some(Some(stem)) => {
            if chars_of(stem.as_str()).len() == 0 {
                return Err(ProductError::NoStem { path: to_path_buf(path) });
            }
            match reject_unsafe_label(stem.as_str()) {
                Err(e) => Err(e),
                Ok(()) => Ok(stem),
            }
        },
    }
}

// --- combinations and their names -------------------------------------------------

/// An input layer ready for a product: where it came from, its value, and the
/// label the outputs it takes part in are named by.
#[derive(Debug)]
pub struct LoadedLayer {
    pub source: SourceName,
    pub value: Value,
    pub label: String,
}

/// One combination: a layer from each factor, in factor order, and the name
/// of the document it makes.
#[derive(Debug)]
pub struct Combination<'a> {
    pub selected: Vec<&'a LoadedLayer>,
    pub name: String,
}

/// How many bytes UTF-8 spends on a character.
pub open spec fn utf8_width(c: char) -> nat {
    if (c as u32) < 0x80 {
        1
    } else if (c as u32) < 0x800 {
        2
    } else if (c as u32) < 0x10000 {
        3
    } else {
        4
    }
}

/// How many bytes UTF-8 spends on a text.
pub open spec fn utf8_len(s: Seq<char>) -> nat
    decreases s.len(),
{
    if s.len() == 0 {
        0
    } else {
        utf8_len(s.drop_last()) + utf8_width(s.last())
    }
}

fn longer_than_limit(s: &str) -> (r: bool)
    ensures
        r == (utf8_len(s@) > MAX_OUTPUT_NAME_BYTES),
{
    let chars = chars_of(s);
    let mut total: usize = 0;
    let mut i: usize = 0;
    while i < chars.len()
        invariant
            i <= chars@.len(),
            chars@ == s@,
            total <= MAX_OUTPUT_NAME_BYTES + 4,
            utf8_len(chars@.take(i as int)) <= MAX_OUTPUT_NAME_BYTES ==> total == utf8_len(chars@.take(i as int)),
            utf8_len(chars@.take(i as int)) > MAX_OUTPUT_NAME_BYTES ==> total > MAX_OUTPUT_NAME_BYTES,
        decreases chars.len() - i,
    {
        let c = chars[i];
        let code = c as u32;
        let width: usize = if code < 0x80 {
            1
        } else if code < 0x800 {
            2
        } else if code < 0x10000 {
            3
        } else {
            4
        };
        proof {
            assert(chars@.take(i + 1).drop_last() =~= chars@.take(i as int));
            assert(chars@.take(i + 1).last() == c);
            assert(width == utf8_width(c));
        }
        if total <= MAX_OUTPUT_NAME_BYTES {
            total = total + width;
        }
        i += 1;
    }
    proof {
        assert(chars@.take(chars@.len() as int) =~= chars@);
    }
    total > MAX_OUTPUT_NAME_BYTES
}

/// The labels of some layers.
pub open spec fn labels_of(layers: Seq<&LoadedLayer>) -> Seq<Seq<char>> {
    layers.map_values(|l: &LoadedLayer| l.label@)
}

/// The name a combination's document is written under: its labels joined
/// by `separator`, then the format's extension.
pub open spec fn output_name_spec(labels: Seq<Seq<char>>, separator: Seq<char>, format: Format) -> Seq<char> {
    joined_by(labels, separator) + "."@ + format.name()
}

/// The name a combination's document is written under, refused when it is
/// longer than [`MAX_OUTPUT_NAME_BYTES`] bytes.
pub fn output_name(selected: &[&LoadedLayer], separator: &str, format: Format) -> (r: Result<String, ProductError>)
    ensures
        ({
            let name = output_name_spec(labels_of(selected@), separator@, format);
            &&& utf8_len(name) <= MAX_OUTPUT_NAME_BYTES ==> (r matches Ok(t) && t@ == name)
            &&& utf8_len(name) > MAX_OUTPUT_NAME_BYTES ==> (r matches Err(ProductError::NameTooLong { name: n })
                && n@ == name)
        }),
{
    let ghost all = labels_of(selected@);
    let mut name = String::new();
    let mut i: usize = 0;
    while i < selected.len()
        invariant
            i <= selected@.len(),
            all == labels_of(selected@),
            name@ == joined_by(all.take(i as int), separator@),
        decreases selected.len() - i,
    {
        proof {
            assert(all.take(i + 1).drop_last() =~= all.take(i as int));
            assert(all.take(i + 1).last() == selected@[i as int].label@);
        }
        if i > 0 {
            push_str(&mut name, separator);
        }
        push_str(&mut name, selected[i].label.as_str());
        i += 1;
        proof {
            if i == 1 {
                assert(joined_by(all.take(1), separator@) == all.take(1)[0]);
                assert(name@ =~= all.take(1)[0]);
            } else {
                assert(name@ =~= joined_by(all.take(i as int), separator@));
            }
        }
    }
    proof {
        assert(all.take(all.len() as int) =~= all);
    }
    push_str(&mut name, ".");
    push_str(&mut name, format.extension());
    if longer_than_limit(name.as_str()) {
        Err(ProductError::NameTooLong { name })
    } else {
        Ok(name)
    }
}

/// One axis per factor: every position of it.
pub open spec fn factor_axes(factors: Seq<Vec<LoadedLayer>>) -> Seq<Seq<usize>> {
    factors.map_values(|f: Vec<LoadedLayer>| all_indices(f@.len()))
}

/// The labels a tuple of positions picks, one from each factor.
pub open spec fn tuple_labels(factors: Seq<Vec<LoadedLayer>>, tuple: Seq<usize>) -> Seq<Seq<char>> {
    Seq::new(tuple.len(), |k: int| factors[k]@[tuple[k] as int].label@)
}

/// The name of each combination, in enumeration order.
pub open spec fn combination_names(factors: Seq<Vec<LoadedLayer>>, separator: Seq<char>, format: Format) -> Seq<
    Seq<char>,
> {
    product(factor_axes(factors)).map_values(
        |t: Seq<usize>| output_name_spec(tuple_labels(factors, t), separator, format),
    )
}

/// The first name that is too long, or -1.
pub open spec fn first_too_long(names: Seq<Seq<char>>) -> int
    decreases names.len(),
{
    if names.len() == 0 {
        -1
    } else if first_too_long(names.drop_last()) >= 0 {
        first_too_long(names.drop_last())
    } else if utf8_len(names.last()) > MAX_OUTPUT_NAME_BYTES {
        names.len() - 1
    } else {
        -1
    }
}

proof fn lemma_first_too_long_prefix(names: Seq<Seq<char>>, n: int)
    requires
        0 <= n <= names.len(),
        first_too_long(names.take(n)) >= 0,
    ensures
        first_too_long(names) == first_too_long(names.take(n)),
    decreases names.len() - n,
{
    if n < names.len() {
        assert(names.take(n + 1).drop_last() =~= names.take(n));
        lemma_first_too_long_prefix(names, n + 1);
    } else {
        assert(names.take(n) =~= names);
    }
}

/// Every combination of one layer from each factor — the last factor
/// varying fastest — each with its output name. Refused when there are more
/// combinations than a `usize` counts, or at the first name that is too
/// long.
pub fn enumerate_combinations<'a>(factors: &'a [Vec<LoadedLayer>], separator: &str, format: Format) -> (r: Result<
    Vec<Combination<'a>>,
    ProductError,
>)
    requires
        forall|k: int| 0 <= k < factors@.len() ==> (#[trigger] factors@[k])@.len() > 0,
    ensures
        checked_product(factor_axes(factors@)) is None ==> (r matches Err(ProductError::TooLarge)),
        checked_product(factor_axes(factors@)) is Some ==> ({
            let tuples = product(factor_axes(factors@));
            let names = combination_names(factors@, separator@, format);
            &&& first_too_long(names) < 0 ==> r is Ok && r->Ok_0@.len() == tuples.len() && forall|t: int|
                0 <= t < tuples.len() ==> (#[trigger] r->Ok_0@[t]).name@ == names[t] && r->Ok_0@[t].selected@.len()
                    == factors@.len() && forall|k: int|
                    0 <= k < factors@.len() ==> *r->Ok_0@[t].selected@[k] == factors@[k]@[tuples[t][k] as int]
            &&& first_too_long(names) >= 0 ==> (r matches Err(ProductError::NameTooLong { name }) && name@
                == names[first_too_long(names)])
        }),
{
    let ghost fv = factors@;
    let ghost axes_view = factor_axes(fv);
    let mut axes: Vec<Vec<usize>> = Vec::new();
    let mut k: usize = 0;
    while k < factors.len()
        invariant
            k <= factors@.len(),
            fv == factors@,
            axes_view == factor_axes(fv),
            axes@.map_values(|a: Vec<usize>| a@) == axes_view.take(k as int),
        decreases factors.len() - k,
    {
        let n = factors[k].len();
        let mut v: Vec<usize> = Vec::new();
        let mut c: usize = 0;
        while c < n
            invariant
                c <= n,
                v@ == all_indices(c as nat),
            decreases n - c,
        {
            v.push(c);
            c += 1;
            proof {
                assert(v@ =~= all_indices(c as nat));
            }
        }
        let ghost before = axes@.map_values(|a: Vec<usize>| a@);
        let ghost vv = v@;
        axes.push(v);
        proof {
            assert(axes_view[k as int] == all_indices(n as nat));
            assert(axes@.map_values(|a: Vec<usize>| a@) =~= before.push(vv));
            assert(axes_view.take(k + 1) =~= axes_view.take(k as int).push(axes_view[k as int]));
        }
        k += 1;
    }
    proof {
        assert(axes_view.take(axes_view.len() as int) =~= axes_view);
    }
    if product_size(axes.as_slice()).is_none() {
        return Err(ProductError::TooLarge);
    }
    let tuples = enumerate(axes.as_slice());
    let ghost tv = tuples@.map_values(|t: Vec<usize>| t@);
    let ghost names = combination_names(fv, separator@, format);
    proof {
        assert(tv == product(axes_view));
        assert(names.len() == tv.len());
    }
    let mut out: Vec<Combination<'a>> = Vec::new();
    let mut t: usize = 0;
    while t < tuples.len()
        invariant
            t <= tuples@.len(),
            fv == factors@,
            tv == tuples@.map_values(|x: Vec<usize>| x@),
            tv == product(axes_view),
            axes_view == factor_axes(fv),
            names == combination_names(fv, separator@, format),
            names.len() == tv.len(),
            checked_product(axes_view) is Some,
            first_too_long(names.take(t as int)) < 0,
            out@.len() == t,
            forall|u: int|
                0 <= u < t ==> (#[trigger] out@[u]).name@ == names[u] && out@[u].selected@.len() == fv.len()
                    && forall|j: int| 0 <= j < fv.len() ==> *out@[u].selected@[j] == fv[j]@[tv[u][j] as int],
        decreases tuples.len() - t,
    {
        let tuple = &tuples[t];
        proof {
            lemma_product_member(axes_view, t as int);
            assert(tuple@ == tv[t as int]);
        }
        let mut selected: Vec<&'a LoadedLayer> = Vec::new();
        let mut j: usize = 0;
        while j < tuple.len()
            invariant
                j <= tuple@.len(),
                tuple@.len() == fv.len(),
                fv == factors@,
                tuple@ == tv[t as int],
                forall|m: int| 0 <= m < axes_view.len() ==> (#[trigger] axes_view[m]).contains(tv[t as int][m]),
                axes_view == factor_axes(fv),
                selected@.len() == j,
                forall|m: int| 0 <= m < j ==> *selected@[m] == fv[m]@[tv[t as int][m] as int],
            decreases tuple.len() - j,
        {
            proof {
                assert(axes_view[j as int] == all_indices(fv[j as int]@.len()));
                assert(axes_view[j as int].contains(tv[t as int][j as int]));
                let c = choose|c: int| 0 <= c < axes_view[j as int].len() && axes_view[j as int][c] == tv[t as int][j as int];
                assert(tuple@[j as int] < fv[j as int]@.len());
            }
            let layer: &'a LoadedLayer = &factors[j][tuple[j]];
            selected.push(layer);
            j += 1;
        }
        proof {
            assert(labels_of(selected@) =~= tuple_labels(fv, tv[t as int]));
            assert(names[t as int] == output_name_spec(tuple_labels(fv, tv[t as int]), separator@, format));
            assert(names.take(t + 1).drop_last() =~= names.take(t as int));
            assert(names.take(t + 1).last() == names[t as int]);
        }
        match output_name(selected.as_slice(), separator, format) {
            Err(e) => {
                proof {
                    lemma_first_too_long_prefix(names, t + 1);
                }
                return Err(e);
            },
            Ok(name) => {
                out.push(Combination { selected, name });
            },
        }
        t += 1;
    }
    proof {
        assert(names.take(names.len() as int) =~= names);
    }
    Ok(out)
}

} // verus!
