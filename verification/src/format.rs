//! Formats, where an input came from, and the decisions made about them
//! before anything is parsed or printed.

use vstd::prelude::*;
use std::path::{Path, PathBuf};
use crate::text::{chars_of, owned, push_str};
use crate::value::Value;

verus! {

#[verifier::external_type_specification]
#[verifier::external_body]
pub struct ExPath(Path);

/// What `Path::extension` gives for a path, when it is valid UTF-8: a
/// function of the path alone.
pub uninterp spec fn extension_text(path: &Path) -> Option<Seq<char>>;

/// How `Path::display` spells a path: a function of the path alone.
pub uninterp spec fn display_text(path: &Path) -> Seq<char>;

/// The path a `PathBuf` holds, as `PathBuf::as_path` lends it.
pub uninterp spec fn buf_path(buf: &PathBuf) -> &Path;

/// Calls `Path::extension` and keeps it when it is valid UTF-8.
#[verifier::external_body]
fn extension_of(path: &Path) -> (r: Option<String>)
    ensures
        match r {
            Some(e) => extension_text(path) == Some(e@),
            None => extension_text(path) is None,
        },
{
    match path.extension() {
        Some(ext) => match ext.to_str() {
            Some(text) => Some(text.to_string()),
            None => None,
        },
        None => None,
    }
}

/// What `OsStr::to_str` gives for a path's whole text: `None` when it is
/// not valid UTF-8. A function of the path alone.
pub uninterp spec fn os_text(path: &Path) -> Option<Seq<char>>;

/// Calls `Path::as_os_str` and `OsStr::to_str`.
#[verifier::external_body]
pub(crate) fn path_text(path: &Path) -> (r: Option<String>)
    ensures
        match r {
            Some(t) => os_text(path) == Some(t@),
            None => os_text(path) is None,
        },
{
    match path.as_os_str().to_str() {
        Some(text) => Some(text.to_string()),
        None => None,
    }
}

/// What `Path::file_stem` gives for a path: nothing, a stem that is not
/// valid UTF-8, or the stem's text. A function of the path alone.
pub uninterp spec fn stem_text(path: &Path) -> Option<Option<Seq<char>>>;

/// Calls `Path::file_stem`, and `to_str` on the stem when there is one.
#[verifier::external_body]
pub(crate) fn file_stem_of(path: &Path) -> (r: Option<Option<String>>)
    ensures
        match r {
            Some(Some(t)) => stem_text(path) == Some(Some(t@)),
            Some(None) => stem_text(path) == Some(None::<Seq<char>>),
            None => stem_text(path) is None,
        },
{
    match path.file_stem() {
        Some(stem) => match stem.to_str() {
            Some(text) => Some(Some(text.to_string())),
            None => Some(None),
        },
        None => None,
    }
}

/// Calls `Path::display` and collects it into a `String`.
#[verifier::external_body]
pub(crate) fn display_path(path: &Path) -> (r: String)
    ensures
        r@ == display_text(path),
{
    path.display().to_string()
}

/// Calls `PathBuf::as_path`.
#[verifier::external_body]
pub(crate) fn as_path(path: &PathBuf) -> (r: &Path)
    ensures
        r == buf_path(path),
{
    path.as_path()
}

/// The positional that means "read stdin".
pub const STDIN: &'static str = "-";

/// The format a path's extension names, if any.
pub open spec fn format_of_path(path: &Path) -> Option<Format> {
    match extension_text(path) {
        Some(e) => format_of_extension(e),
        None => None,
    }
}

/// JSON and TOML. Adding a format is one arm of these matches.
#[derive(Debug, Clone, Copy, PartialEq, Eq, Structural)]
pub enum Format {
    Json,
    Toml,
}

/// `-f` and `--input-format`, as the command line spells them.
#[derive(Debug, Clone, Copy, PartialEq, Eq, Structural)]
pub enum FormatArg {
    Json,
    Toml,
}

impl FormatArg {
    /// The format the flag names.
    pub fn to_format(self) -> (r: Format)
        ensures
            r == match self {
                FormatArg::Json => Format::Json,
                FormatArg::Toml => Format::Toml,
            },
    {
        match self {
            FormatArg::Json => Format::Json,
            FormatArg::Toml => Format::Toml,
        }
    }
}

/// ASCII lower case.
pub open spec fn ascii_lower(c: char) -> char {
    if 'A' <= c <= 'Z' {
        ((c as u32) + 32) as char
    } else {
        c
    }
}

/// Equal ignoring ASCII case.
pub open spec fn eq_ignore_ascii_case(a: Seq<char>, b: Seq<char>) -> bool {
    a.len() == b.len() && forall|i: int| 0 <= i < a.len() ==> ascii_lower(#[trigger] a[i]) == ascii_lower(b[i])
}

/// The format an extension names, if any, ignoring ASCII case.
pub open spec fn format_of_extension(ext: Seq<char>) -> Option<Format> {
    if eq_ignore_ascii_case(ext, "json"@) {
        Some(Format::Json)
    } else if eq_ignore_ascii_case(ext, "toml"@) {
        Some(Format::Toml)
    } else {
        None
    }
}

fn lower(c: char) -> (r: char)
    ensures
        r == ascii_lower(c),
{
    if 'A' <= c && c <= 'Z' {
        let n = (c as u32) + 32;
        proof {
            assert(n <= 0x7f);
        }
        char_from(n)
    } else {
        c
    }
}

fn char_from(n: u32) -> (r: char)
    requires
        n <= 0x7f,
    ensures
        r == n as char,
{
    let b = n as u8;
    proof {
        assert(b as u32 == n);
    }
    b as char
}

fn ascii_case_eq(a: &str, b: &str) -> (r: bool)
    ensures
        r == eq_ignore_ascii_case(a@, b@),
{
    let x = chars_of(a);
    let y = chars_of(b);
    if x.len() != y.len() {
        return false;
    }
    let mut i: usize = 0;
    while i < x.len()
        invariant
            x@ == a@,
            y@ == b@,
            x@.len() == y@.len(),
            i <= x@.len(),
            forall|j: int| 0 <= j < i ==> ascii_lower(#[trigger] x@[j]) == ascii_lower(y@[j]),
        decreases x.len() - i,
    {
        if lower(x[i]) != lower(y[i]) {
            return false;
        }
        i += 1;
    }
    true
}

impl Format {
    /// The format an extension names, ignoring ASCII case: `json` or `toml`.
    pub fn from_extension(ext: &str) -> (r: Option<Format>)
        ensures
            r == format_of_extension(ext@),
    {
        if ascii_case_eq(ext, "json") {
            Some(Format::Json)
        } else if ascii_case_eq(ext, "toml") {
            Some(Format::Toml)
        } else {
            None
        }
    }

    /// Infers a format from a file extension. `None` means "no opinion": the
    /// caller decides whether that is an error or a cue to fall back.
    pub fn from_path(path: &Path) -> (r: Option<Format>)
        ensures
            r == format_of_path(path),
    {
        match extension_of(path) {
            Some(ext) => Format::from_extension(ext.as_str()),
            None => None,
        }
    }

    /// The canonical file extension for this format.
    pub fn extension(self) -> (r: &'static str)
        ensures
            r@ == self.name(),
    {
        match self {
            Format::Json => "json",
            Format::Toml => "toml",
        }
    }

    /// How a format is spelled: its extension.
    pub open spec fn name(self) -> Seq<char> {
        match self {
            Format::Json => "json"@,
            Format::Toml => "toml"@,
        }
    }

    /// The format's name, as `Display` would print it.
    pub fn to_string(&self) -> (out: String)
        ensures
            out@ == self.name(),
    {
        owned(self.extension())
    }
}

/// Which input a parse error came from.
#[derive(Debug)]
pub enum SourceName {
    File(PathBuf),
    Stdin,
}

/// How a source is named in messages: its path as it prints, or `<stdin>`.
pub open spec fn source_text(source: &SourceName) -> Seq<char> {
    match source {
        SourceName::File(p) => display_text(buf_path(p)),
        SourceName::Stdin => "<stdin>"@,
    }
}

impl SourceName {
    /// The file's path as it prints, or `<stdin>`.
    pub fn to_string(&self) -> (out: String)
        ensures
            out@ == source_text(self),
    {
        match self {
            SourceName::File(p) => display_path(as_path(p)),
            SourceName::Stdin => owned("<stdin>"),
        }
    }
}

/// The formats in first-appearance order, each once.
pub open spec fn distinct_formats(inputs: Seq<Format>) -> Seq<Format>
    decreases inputs.len(),
{
    if inputs.len() == 0 {
        Seq::empty()
    } else {
        let before = distinct_formats(inputs.drop_last());
        if before.contains(inputs.last()) {
            before
        } else {
            before.push(inputs.last())
        }
    }
}

proof fn lemma_distinct_formats(s: Seq<Format>)
    ensures
        distinct_formats(s).len() == (if s.contains(Format::Json) { 1int } else { 0int }) + (if s.contains(
            Format::Toml,
        ) {
            1int
        } else {
            0int
        }),
        forall|f: Format| #[trigger] distinct_formats(s).contains(f) <==> s.contains(f),
    decreases s.len(),
{
    if s.len() > 0 {
        let init = s.drop_last();
        lemma_distinct_formats(init);
        assert forall|f: Format| #[trigger] s.contains(f) <==> init.contains(f) || s.last() == f by {
            if s.contains(f) {
                let i = choose|i: int| 0 <= i < s.len() && s[i] == f;
                if i < s.len() - 1 {
                    assert(init[i] == f);
                }
            }
            if init.contains(f) {
                let i = choose|i: int| 0 <= i < init.len() && init[i] == f;
                assert(s[i] == f);
            }
        }
        let before = distinct_formats(init);
        if !before.contains(s.last()) {
            assert forall|f: Format| #[trigger] before.push(s.last()).contains(f) <==> before.contains(f) || f == s.last() by {
                if before.push(s.last()).contains(f) {
                    let i = choose|i: int| 0 <= i < before.len() + 1 && before.push(s.last())[i] == f;
                    if i < before.len() {
                        assert(before[i] == f);
                    }
                }
                if before.contains(f) {
                    let i = choose|i: int| 0 <= i < before.len() && before[i] == f;
                    assert(before.push(s.last())[i] == f);
                }
                if f == s.last() {
                    assert(before.push(s.last())[before.len() as int] == f);
                }
            }
        }
    }
}

/// The output format cannot change when the inputs are reordered, or when an
/// input of a format already present is added or dropped: how many formats
/// the inputs mix, and which one when there is one, depend only on which
/// formats occur.
pub proof fn law_output_format_ignores_input_order(a: Seq<Format>, b: Seq<Format>)
    requires
        forall|f: Format| a.contains(f) <==> b.contains(f),
    ensures
        distinct_formats(a).len() == distinct_formats(b).len(),
        distinct_formats(a).len() <= 1 ==> distinct_formats(a) == distinct_formats(b),
{
    lemma_distinct_formats(a);
    lemma_distinct_formats(b);
    assert(a.contains(Format::Json) == b.contains(Format::Json));
    assert(a.contains(Format::Toml) == b.contains(Format::Toml));
    let da = distinct_formats(a);
    let db = distinct_formats(b);
    if da.len() == 1 {
        assert(da.contains(da[0]));
        assert(db.contains(db[0]));
        assert(b.contains(da[0]));
        assert(db.contains(da[0]));
        assert(da =~= db);
    }
    if da.len() == 0 {
        assert(da =~= db);
    }
}

/// Inputs of more than one format, and no explicit output format.
#[derive(Debug, PartialEq, Eq)]
pub struct MixedFormats {
    /// The formats the inputs have, in first-appearance order.
    pub formats: Vec<Format>,
}

/// The names joined by ` and `.
pub open spec fn joined_names(formats: Seq<Format>) -> Seq<char>
    decreases formats.len(),
{
    if formats.len() == 0 {
        Seq::empty()
    } else if formats.len() == 1 {
        formats[0].name()
    } else {
        joined_names(formats.drop_last()) + " and "@ + formats.last().name()
    }
}

impl MixedFormats {
    /// The message, with the help line that names `-f`.
    pub fn to_string(&self) -> (out: String)
        ensures
            out@ == "inputs mix "@ + joined_names(self.formats@)
                + " formats; -f is required to choose the output format\nhelp: pass -f json or -f toml"@,
    {
        let mut out = owned("inputs mix ");
        let ghost fs = self.formats@;
        let ghost start = out@;
        let mut i: usize = 0;
        while i < self.formats.len()
            invariant
                i <= fs.len(),
                fs == self.formats@,
                start == "inputs mix "@,
                out@ == start + joined_names(fs.take(i as int)),
            decreases self.formats.len() - i,
        {
            proof {
                assert(fs.take(i + 1).drop_last() =~= fs.take(i as int));
            }
            if i > 0 {
                push_str(&mut out, " and ");
            }
            push_str(&mut out, self.formats[i].extension());
            i += 1;
            proof {
                let t = fs.take(i as int);
                if i == 1 {
                    assert(joined_names(t) == t[0].name());
                    assert(joined_names(t.drop_last()) == Seq::<char>::empty());
                }
                assert(out@ =~= start + joined_names(t));
            }
        }
        proof {
            assert(fs.take(fs.len() as int) =~= fs);
        }
        push_str(&mut out, " formats; -f is required to choose the output format\nhelp: pass -f json or -f toml");
        out
    }
}

/// Decides the output format from `-f` and the inputs. Following the first
/// input would mean reordering arguments silently changes the output
/// encoding, so mixed inputs demand an explicit choice; no inputs at all
/// give JSON.
pub fn resolve_output_format(explicit: Option<Format>, inputs: &[Format]) -> (r: Result<Format, MixedFormats>)
    ensures
        explicit is Some ==> r == Ok::<Format, MixedFormats>(explicit->Some_0),
        explicit is None && distinct_formats(inputs@).len() == 0 ==> r == Ok::<Format, MixedFormats>(Format::Json),
        explicit is None && distinct_formats(inputs@).len() == 1 ==> r == Ok::<Format, MixedFormats>(
            distinct_formats(inputs@)[0],
        ),
        explicit is None && distinct_formats(inputs@).len() > 1 ==> r is Err && r->Err_0.formats@ == distinct_formats(
            inputs@,
        ),
{
    if let Some(format) = explicit {
        return Ok(format);
    }
    let mut distinct: Vec<Format> = Vec::new();
    let mut i: usize = 0;
    while i < inputs.len()
        invariant
            i <= inputs@.len(),
            distinct@ == distinct_formats(inputs@.take(i as int)),
        decreases inputs.len() - i,
    {
        proof {
            assert(inputs@.take(i + 1).drop_last() =~= inputs@.take(i as int));
        }
        let f = inputs[i];
        let mut seen = false;
        let mut j: usize = 0;
        while j < distinct.len()
            invariant
                j <= distinct@.len(),
                seen == exists|k: int| 0 <= k < j && distinct@[k] == f,
            decreases distinct.len() - j,
        {
            if distinct[j] == f {
                seen = true;
            }
            j += 1;
        }
        if !seen {
            distinct.push(f);
        }
        i += 1;
        proof {
            assert(inputs@.take(i as int).last() == f);
            if seen {
                let k = choose|k: int| 0 <= k < distinct@.len() && distinct@[k] == f;
                assert(distinct@.contains(f));
            } else {
                assert(!distinct_formats(inputs@.take(i - 1)).contains(f));
            }
        }
    }
    proof {
        assert(inputs@.take(inputs@.len() as int) =~= inputs@);
    }
    if distinct.len() == 0 {
        Ok(Format::Json)
    } else if distinct.len() == 1 {
        Ok(distinct[0])
    } else {
        Err(MixedFormats { formats: distinct })
    }
}

/// `text`, ending in a newline.
pub fn ensure_trailing_newline(text: String) -> (out: String)
    ensures
        text@.len() > 0 && text@.last() == '\n' ==> out@ == text@,
        !(text@.len() > 0 && text@.last() == '\n') ==> out@ == text@.push('\n'),
{
    let chars = chars_of(text.as_str());
    let mut out = text;
    if chars.len() == 0 || chars[chars.len() - 1] != '\n' {
        out.push('\n');
    }
    out
}

/// The complaint about a layer that is not an object at the top level, if
/// it is not. A bare array or string is legal JSON but is not a config.
pub fn top_level_error(source: &SourceName, value: &Value) -> (r: Option<String>)
    ensures
        (value.model() is Object) ==> r is None,
        !(value.model() is Object) ==> (r matches Some(t) && t@ == source_text(source)
            + ": expected an object at the top level, found "@ + value.model().kind().label()@),
{
    match value {
        Value::Object(_) => None,
        _ => {
            let mut out = source.to_string();
            push_str(&mut out, ": expected an object at the top level, found ");
            push_str(&mut out, value.kind());
            Some(out)
        },
    }
}

/// Why a positional could not be turned into a layer. Carries paths and
/// nothing else; the remedy is always a flag, which is the caller's to name.
#[derive(Debug)]
pub enum LoadError {
    /// `-` was given without an explicit input format.
    StdinNeedsFormat,
    /// A positional named a directory.
    Directory { path: PathBuf },
    /// A positional's extension is neither `json` nor `toml`.
    UnknownExtension { path: PathBuf },
}

impl LoadError {
    /// The path this failed on, or `None` for stdin.
    pub fn path(&self) -> (r: Option<&Path>)
        ensures
            r == match self {
                LoadError::StdinNeedsFormat => None,
                LoadError::Directory { path } => Some(buf_path(path)),
                LoadError::UnknownExtension { path } => Some(buf_path(path)),
            },
    {
        match self {
            LoadError::StdinNeedsFormat => None,
            LoadError::Directory { path } => Some(as_path(path)),
            LoadError::UnknownExtension { path } => Some(as_path(path)),
        }
    }

    /// The message, as `Display` would print it.
    pub fn to_string(&self) -> (out: String)
        ensures
            out@ == match self {
                LoadError::StdinNeedsFormat => "`-` reads stdin, which has no extension"@,
                LoadError::Directory { path } => "`"@ + display_text(buf_path(path))
                    + "` is a directory; knf takes files as layers"@,
                LoadError::UnknownExtension { path } => "cannot infer a format from `"@ + display_text(buf_path(path))
                    + "`"@,
            },
    {
        match self {
            LoadError::StdinNeedsFormat => owned("`-` reads stdin, which has no extension"),
            LoadError::Directory { path } => {
                let mut out = owned("`");
                push_str(&mut out, display_path(as_path(path)).as_str());
                push_str(&mut out, "` is a directory; knf takes files as layers");
                out
            },
            LoadError::UnknownExtension { path } => {
                let mut out = owned("cannot infer a format from `");
                push_str(&mut out, display_path(as_path(path)).as_str());
                push_str(&mut out, "`");
                out
            },
        }
    }
}

/// What reading a positional needs decided before any I/O: the format to
/// parse it as, or why there is none.
pub fn input_format(path: &Path, is_stdin: bool, is_dir: bool, explicit: Option<Format>) -> (r: Result<Format, LoadError>)
    ensures
        is_stdin ==> match explicit {
            Some(f) => r == Ok::<Format, LoadError>(f),
            None => r is Err && r->Err_0 is StdinNeedsFormat,
        },
        !is_stdin && is_dir ==> (r matches Err(LoadError::Directory { path: p }) && buf_path(&p) == path),
        !is_stdin && !is_dir && explicit is Some ==> r == Ok::<Format, LoadError>(explicit->Some_0),
        !is_stdin && !is_dir && explicit is None ==> match format_of_path(path) {
            Some(f) => r == Ok::<Format, LoadError>(f),
            None => r matches Err(LoadError::UnknownExtension { path: p }) && buf_path(&p) == path,
        },
{
    if is_stdin {
        return match explicit {
            Some(f) => Ok(f),
            None => Err(LoadError::StdinNeedsFormat),
        };
    }
    if is_dir {
        return Err(LoadError::Directory { path: to_path_buf(path) });
    }
    match explicit {
        Some(f) => Ok(f),
        None => match Format::from_path(path) {
            Some(f) => Ok(f),
            None => Err(LoadError::UnknownExtension { path: to_path_buf(path) }),
        },
    }
}

/// Calls `Path::to_path_buf`: the owned copy lends back the same path.
#[verifier::external_body]
pub(crate) fn to_path_buf(path: &Path) -> (r: PathBuf)
    ensures
        buf_path(&r) == path,
{
    path.to_path_buf()
}

} // verus!
