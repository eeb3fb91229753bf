//! Flag names, and where they are allowed to appear.
//!
//! The other modules raise errors that carry key paths, reference spellings
//! and file paths — never a command-line flag, because none of them has heard
//! of one. Every `help:` line here closes that gap on the way out, and this is
//! the only module whose messages name `--append`, `--replace`, `--fail`,
//! `--set`, `--input-format`, `--interpolate`, `-f` or `--null-as`.

use vstd::prelude::*;
use crate::emit::{NonFiniteFloat, NullInToml, TomlError};
use crate::format::{buf_path, display_text, as_path, display_path, LoadError};
use crate::interp_error::{problems_text, problems_view, cycle_text, InterpError, Problem};
use crate::merge::{merge_fault_text, MergeError};
use crate::path::{path_error_text, PathError};
use crate::rules::{faults_text, faults_view, RuleError, RuleErrors};
use crate::text::{owned, push_str};

verus! {

/// An error of the pipeline that a help line can decorate.
#[derive(Debug)]
pub enum PipelineError {
    Load(LoadError),
    Merge(MergeError),
    Interp(InterpError),
    Toml(TomlError),
    Json(NonFiniteFloat),
}

/// The help line after a null that reached TOML output.
pub open spec fn null_help() -> Seq<char> {
    "\nhelp: emit JSON with -f json, substitute with --null-as, or remove the null"@
}

/// Names the two flags that get a document with a null out through TOML.
pub fn explain_null(err: &NullInToml) -> (out: String)
    ensures
        out@ == err.message() + null_help(),
{
    let mut out = err.to_string();
    push_str(&mut out, "\nhelp: emit JSON with -f json, substitute with --null-as, or remove the null");
    out
}

/// What a load error reads as once the flag that resolves it is named.
pub open spec fn load_explained(err: &LoadError, message: Seq<char>) -> Seq<char> {
    match err {
        LoadError::Directory { path } => message + "\nhelp: `knf "@ + display_text(buf_path(path))
            + "/*.toml` merges its files as layers"@,
        _ => message + ": pass --input-format json or --input-format toml"@,
    }
}

/// Names the flag that resolves an input whose format could not be settled.
pub fn explain_load(err: &LoadError) -> (out: String)
    ensures
        ({
            let message = match err {
                LoadError::StdinNeedsFormat => "`-` reads stdin, which has no extension"@,
                LoadError::Directory { path } => "`"@ + display_text(buf_path(path))
                    + "` is a directory; knf takes files as layers"@,
                LoadError::UnknownExtension { path } => "cannot infer a format from `"@ + display_text(
                    buf_path(path),
                ) + "`"@,
            };
            out@ == load_explained(err, message)
        }),
{
    let mut out = err.to_string();
    match err {
        LoadError::Directory { path } => {
            push_str(&mut out, "\nhelp: `knf ");
            push_str(&mut out, display_path(as_path(path)).as_str());
            push_str(&mut out, "/*.toml` merges its files as layers");
        },
        _ => {
            push_str(&mut out, ": pass --input-format json or --input-format toml");
        },
    }
    out
}

/// The help line for a path that reached a rule flag with an index in it.
pub open spec fn rule_flag_help(flag: Seq<char>) -> Seq<char> {
    "\nhelp: "@ + flag + " takes a key path; a rule cannot name an array element"@
}

/// The path error, with the help line naming `flag` when it is an index in
/// a key path: the path is rendered elsewhere, the flag that carried it is
/// named here.
pub fn name_the_rule_flag(err: &PathError, flag: &str) -> (out: String)
    ensures
        out@ == path_error_text(err@) + match err {
            PathError::IndexInKeyPath { .. } => rule_flag_help(flag@),
            _ => Seq::empty(),
        },
{
    let mut out = err.to_string();
    match err {
        PathError::IndexInKeyPath { .. } => {
            push_str(&mut out, "\nhelp: ");
            push_str(&mut out, flag);
            push_str(&mut out, " takes a key path; a rule cannot name an array element");
        },
        _ => {
            proof {
                assert(out@ =~= path_error_text(err@) + Seq::<char>::empty());
            }
        },
    }
    out
}

/// The help line for an index in a `--set` path.
pub open spec fn set_flag_help() -> Seq<char> {
    "\nhelp: --set takes KEY.PATH=VALUE; an index like servers[0] can be read\n      by a ${...} reference but never written — put the value in a file instead"@
}

/// The same for `--set`, whose paths feed the same conversion.
pub fn name_the_set_flag(err: &PathError) -> (out: String)
    ensures
        out@ == path_error_text(err@) + match err {
            PathError::IndexInKeyPath { .. } => set_flag_help(),
            _ => Seq::empty(),
        },
{
    let mut out = err.to_string();
    match err {
        PathError::IndexInKeyPath { .. } => {
            push_str(
                &mut out,
                "\nhelp: --set takes KEY.PATH=VALUE; an index like servers[0] can be read\n      by a ${...} reference but never written — put the value in a file instead",
            );
        },
        _ => {
            proof {
                assert(out@ =~= path_error_text(err@) + Seq::<char>::empty());
            }
        },
    }
    out
}

/// Whether some rule error is a conflict.
pub open spec fn has_conflict(es: Seq<RuleError>) -> bool {
    exists|i: int| 0 <= i < es.len() && (#[trigger] es[i]) is Conflict
}

/// Whether some rule error is an unreachable rule.
pub open spec fn has_unreachable(es: Seq<RuleError>) -> bool {
    exists|i: int| 0 <= i < es.len() && (#[trigger] es[i]) is Unreachable
}

/// The help lines a rule-set rejection gets: one for conflicts, one for
/// unreachable rules, each when one is present.
pub open spec fn rules_help(es: Seq<RuleError>) -> Seq<char> {
    (if has_conflict(es) {
        "\nhelp: a path may be named by only one of --append, --replace and --fail"@
    } else {
        Seq::empty()
    }) + (if has_unreachable(es) {
        "\nhelp: --append, --replace and --fail take the whole value at their path, so a rule below one can never fire"@
    } else {
        Seq::empty()
    })
}

fn any_conflict(es: &Vec<RuleError>) -> (r: bool)
    ensures
        r == has_conflict(es@),
{
    let mut i: usize = 0;
    while i < es.len()
        invariant
            i <= es@.len(),
            forall|j: int| 0 <= j < i ==> !(es@[j] is Conflict),
        decreases es.len() - i,
    {
        if let RuleError::Conflict { .. } = &es[i] {
            return true;
        }
        i += 1;
    }
    false
}

fn any_unreachable(es: &Vec<RuleError>) -> (r: bool)
    ensures
        r == has_unreachable(es@),
{
    let mut i: usize = 0;
    while i < es.len()
        invariant
            i <= es@.len(),
            forall|j: int| 0 <= j < i ==> !(es@[j] is Unreachable),
        decreases es.len() - i,
    {
        if let RuleError::Unreachable { .. } = &es[i] {
            return true;
        }
        i += 1;
    }
    false
}

/// Turns a rule-set rejection into the flags the user actually typed: the
/// strategies are named elsewhere, the flags that spell them here.
pub fn explain_rules(errors: &RuleErrors) -> (out: String)
    ensures
        out@ == faults_text(faults_view(errors.0@)) + rules_help(errors.0@),
{
    let mut out = errors.to_string();
    let ghost base = out@;
    let conflict = any_conflict(&errors.0);
    if conflict {
        push_str(&mut out, "\nhelp: a path may be named by only one of --append, --replace and --fail");
    }
    let ghost mid = out@;
    if any_unreachable(&errors.0) {
        push_str(
            &mut out,
            "\nhelp: --append, --replace and --fail take the whole value at their path, so a rule below one can never fire",
        );
    }
    proof {
        assert(out@ =~= base + rules_help(errors.0@));
    }
    out
}

/// The help line a merge error gets, if any.
pub open spec fn merge_help(err: &MergeError) -> Seq<char> {
    match err {
        MergeError::Locked { .. } => "\nhelp: --fail pins a path to the first layer that sets it; drop the flag or the later value"@,
        MergeError::AppendKind { .. } => "\nhelp: --append needs an array on both sides"@,
        MergeError::TypeConflict { .. } => Seq::empty(),
    }
}

/// Names the flag behind a rule that fired during the merge.
pub fn explain_merge(err: &MergeError) -> (out: String)
    ensures
        out@ == merge_fault_text(err@) + merge_help(err),
{
    let mut out = err.to_string();
    match err {
        MergeError::Locked { .. } => {
            push_str(
                &mut out,
                "\nhelp: --fail pins a path to the first layer that sets it; drop the flag or the later value",
            );
        },
        MergeError::AppendKind { .. } => {
            push_str(&mut out, "\nhelp: --append needs an array on both sides");
        },
        MergeError::TypeConflict { .. } => {
            proof {
                assert(out@ =~= merge_fault_text(err@) + Seq::<char>::empty());
            }
        },
    }
    out
}

/// Whether some problem is malformed syntax.
pub open spec fn has_syntax(ps: Seq<Problem>) -> bool {
    exists|i: int| 0 <= i < ps.len() && (#[trigger] ps[i]) is Syntax
}

/// Whether some reference names nothing.
pub open spec fn has_unresolved(ps: Seq<Problem>) -> bool {
    exists|i: int| 0 <= i < ps.len() && (#[trigger] ps[i]) is Unresolved
}

/// Whether some container sits in embedded position.
pub open spec fn has_not_stringifiable(ps: Seq<Problem>) -> bool {
    exists|i: int| 0 <= i < ps.len() && (#[trigger] ps[i]) is NotStringifiable
}

/// One help line per kind of problem present, in the order the report lists
/// them, then the escape for a document whose `${...}` was never meant for
/// interpolation.
pub open spec fn problems_help(ps: Seq<Problem>) -> Seq<char> {
    (if has_syntax(ps) {
        "\nhelp: a reference is `${key.path}` (with `[n]` for array elements) or `${env:NAME}`; write `$$` for a literal `$`"@
    } else {
        Seq::empty()
    }) + (if has_unresolved(ps) {
        "\nhelp: `${key.path}` names a key in the merged document, `${env:NAME}` an environment variable"@
    } else {
        Seq::empty()
    }) + (if has_not_stringifiable(ps) {
        "\nhelp: an object or array reference must be the whole string, not embedded in one"@
    } else {
        Seq::empty()
    }) + (if has_syntax(ps) || has_unresolved(ps) {
        "\nhelp: drop --interpolate to pass `${...}` through untouched"@
    } else {
        Seq::empty()
    })
}

/// The help a failed interpolation gets.
pub open spec fn interp_help(err: &InterpError) -> Seq<char> {
    match err {
        InterpError::Cycle(_) => "\nhelp: a reference may not resolve, directly or indirectly, to itself"@,
        InterpError::Problems(ps) => problems_help(ps@),
    }
}

/// What a failed interpolation displays.
pub open spec fn interp_text(err: &InterpError) -> Seq<char> {
    match err {
        InterpError::Problems(ps) => problems_text(problems_view(ps@)),
        InterpError::Cycle(c) => cycle_text(c.chain_view()),
    }
}

fn problems_of_kind(ps: &Vec<Problem>, kind: u8) -> (r: bool)
    requires
        kind < 3,
    ensures
        kind == 0 ==> r == has_syntax(ps@),
        kind == 1 ==> r == has_unresolved(ps@),
        kind == 2 ==> r == has_not_stringifiable(ps@),
{
    let mut i: usize = 0;
    while i < ps.len()
        invariant
            kind < 3,
            i <= ps@.len(),
            kind == 0 ==> forall|j: int| 0 <= j < i ==> !(ps@[j] is Syntax),
            kind == 1 ==> forall|j: int| 0 <= j < i ==> !(ps@[j] is Unresolved),
            kind == 2 ==> forall|j: int| 0 <= j < i ==> !(ps@[j] is NotStringifiable),
        decreases ps.len() - i,
    {
        let hit = match &ps[i] {
            Problem::Syntax { .. } => kind == 0,
            Problem::Unresolved { .. } => kind == 1,
            Problem::NotStringifiable { .. } => kind == 2,
        };
        if hit {
            return true;
        }
        i += 1;
    }
    false
}

/// Names `--interpolate`, which the interpolation itself has never heard of.
pub fn explain_interp(err: &InterpError) -> (out: String)
    ensures
        out@ == interp_text(err) + interp_help(err),
{
    let mut out = err.to_string();
    let ghost base = out@;
    match err {
        InterpError::Cycle(_) => {
            push_str(&mut out, "\nhelp: a reference may not resolve, directly or indirectly, to itself");
        },
        InterpError::Problems(ps) => {
            let syntax = problems_of_kind(ps, 0);
            let unresolved = problems_of_kind(ps, 1);
            let embedded = problems_of_kind(ps, 2);
            if syntax {
                push_str(
                    &mut out,
                    "\nhelp: a reference is `${key.path}` (with `[n]` for array elements) or `${env:NAME}`; write `$$` for a literal `$`",
                );
            }
            if unresolved {
                push_str(
                    &mut out,
                    "\nhelp: `${key.path}` names a key in the merged document, `${env:NAME}` an environment variable",
                );
            }
            if embedded {
                push_str(&mut out, "\nhelp: an object or array reference must be the whole string, not embedded in one");
            }
            if syntax || unresolved {
                push_str(&mut out, "\nhelp: drop --interpolate to pass `${...}` through untouched");
            }
            proof {
                assert(out@ =~= base + problems_help(ps@));
            }
        },
    }
    out
}

/// The help line after an integer TOML cannot hold.
pub open spec fn integer_help() -> Seq<char> {
    "\nhelp: TOML integers are signed 64-bit; emit JSON with -f json"@
}

/// The help line after a float JSON cannot hold.
pub open spec fn non_finite_help() -> Seq<char> {
    "\nhelp: emit TOML with -f toml, which can represent inf and nan"@
}

/// What a TOML conversion error reads as: a null and an oversized integer
/// get the flags that get them out. A malformed datetime is only reachable
/// from a value built by hand, and no flag gets anyone out of it.
pub open spec fn toml_explained(err: &TomlError) -> Seq<char> {
    match err {
        TomlError::Null(e) => e.message() + null_help(),
        TomlError::Integer(e) => e.message() + integer_help(),
        TomlError::Datetime(e) => e.message(),
    }
}

/// Names the format that can hold an integer TOML cannot.
pub fn explain_integer(err: &crate::emit::IntegerOutOfRange) -> (out: String)
    ensures
        out@ == err.message() + integer_help(),
{
    let mut out = err.to_string();
    push_str(&mut out, "\nhelp: TOML integers are signed 64-bit; emit JSON with -f json");
    out
}

/// Names the format that can hold an infinity or a NaN.
pub fn explain_non_finite(err: &NonFiniteFloat) -> (out: String)
    ensures
        out@ == "cannot serialize non-finite number to JSON"@ + crate::emit::detail_lines(
            err.entries@.map_values(|e: (Vec<crate::path::Seg>, u64)| (crate::path::segs_view(e.0@), crate::emit::nonfinite_spelling(e.1))),
        ) + non_finite_help(),
{
    let mut out = err.to_string();
    push_str(&mut out, "\nhelp: emit TOML with -f toml, which can represent inf and nan");
    out
}

/// Adds the command-line spelling to an error of the pipeline. Every stage
/// passes through here, so there is one place a library error picks up a
/// flag name.
pub fn explain_pipeline(err: &PipelineError) -> (out: String)
    ensures
        out@ == match err {
            PipelineError::Load(e) => load_explained(
                e,
                match e {
                    LoadError::StdinNeedsFormat => "`-` reads stdin, which has no extension"@,
                    LoadError::Directory { path } => "`"@ + display_text(buf_path(path))
                        + "` is a directory; knf takes files as layers"@,
                    LoadError::UnknownExtension { path } => "cannot infer a format from `"@ + display_text(
                        buf_path(path),
                    ) + "`"@,
                },
            ),
            PipelineError::Merge(e) => merge_fault_text(e@) + merge_help(e),
            PipelineError::Interp(e) => interp_text(e) + interp_help(e),
            PipelineError::Toml(e) => toml_explained(e),
            PipelineError::Json(e) => "cannot serialize non-finite number to JSON"@ + crate::emit::detail_lines(
                e.entries@.map_values(|x: (Vec<crate::path::Seg>, u64)| (crate::path::segs_view(x.0@), crate::emit::nonfinite_spelling(x.1))),
            ) + non_finite_help(),
        },
{
    match err {
        PipelineError::Load(e) => explain_load(e),
        PipelineError::Merge(e) => explain_merge(e),
        PipelineError::Interp(e) => explain_interp(e),
        PipelineError::Toml(TomlError::Null(report)) => explain_null(report),
        PipelineError::Toml(TomlError::Integer(report)) => explain_integer(report),
        PipelineError::Toml(other) => other.to_string(),
        PipelineError::Json(report) => explain_non_finite(report),
    }
}

} // verus!
