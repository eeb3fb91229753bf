//! What a merged document must not hold on its way out, and the one
//! rescue offered for it.
//!
//! TOML has no null, no integer above `i64::MAX`, and only datetimes its own
//! parser accepts; JSON has no infinity or NaN. Each is found up front, with
//! the key path it sits at, so that a conversion never has to fail halfway or
//! drop a value silently.

use vstd::prelude::*;
use crate::path::{clone_segs, render_path, rendered, segs_view, Seg, SegModel};
use crate::text::{decimal, owned, push_decimal, push_str};
use crate::value::{entries_model, lemma_array_model, lemma_object_model, Number, Value, ValueModel};

verus! {

/// Whether `text` is a datetime the TOML parser accepts.
pub uninterp spec fn is_toml_datetime(text: Seq<char>) -> bool;

/// Whether `text` parses as a `toml::value::Datetime`.
///
/// Calls `str::parse::<toml::value::Datetime>`; the contract claims only
/// that the answer is a function of the text.
#[verifier::external_body]
fn parses_as_datetime(text: &str) -> (r: bool)
    ensures
        r == is_toml_datetime(text@),
{
    text.parse::<toml::value::Datetime>().is_ok()
}

/// The four things a document can hold that a format cannot.
#[derive(Debug, Clone, Copy, PartialEq, Eq, Structural)]
pub enum Unwritable {
    Null,
    BigInteger,
    BadDatetime,
    NonFinite,
}

/// Whether a leaf is of the given unwritable sort.
pub open spec fn is_unwritable(v: ValueModel, sort: Unwritable) -> bool {
    match sort {
        Unwritable::Null => v is Null,
        Unwritable::BigInteger => v matches ValueModel::Number(Number::U64(u)) && u > i64::MAX,
        Unwritable::BadDatetime => v matches ValueModel::Datetime(s) && !is_toml_datetime(s),
        Unwritable::NonFinite => v matches ValueModel::Number(n) && n.is_non_finite(),
    }
}

/// Every leaf of the given sort, with its path, in document order.
pub open spec fn findings(v: ValueModel, path: Seq<SegModel>, sort: Unwritable) -> Seq<(Seq<SegModel>, ValueModel)>
    decreases v, 1int,
{
    match v {
        ValueModel::Object(e) => entry_findings(e, path, sort),
        ValueModel::Array(a) => item_findings(a, 0, path, sort),
        _ => if is_unwritable(v, sort) {
            seq![(path, v)]
        } else {
            Seq::empty()
        },
    }
}

/// [`findings`] over an object's entries, in order.
pub open spec fn entry_findings(
    e: Seq<(Seq<char>, ValueModel)>,
    path: Seq<SegModel>,
    sort: Unwritable,
) -> Seq<(Seq<SegModel>, ValueModel)>
    decreases e, 0int,
{
    if e.len() == 0 {
        Seq::empty()
    } else {
        proof {
            assert(decreases_to!(e => e[0]));
        }
        findings(e[0].1, path.push(SegModel::Key(e[0].0)), sort) + entry_findings(e.drop_first(), path, sort)
    }
}

/// [`findings`] over an array's items, the first at index `start`.
pub open spec fn item_findings(
    a: Seq<ValueModel>,
    start: int,
    path: Seq<SegModel>,
    sort: Unwritable,
) -> Seq<(Seq<SegModel>, ValueModel)>
    decreases a, 0int,
{
    if a.len() == 0 {
        Seq::empty()
    } else {
        findings(a[0], path.push(SegModel::Index(start as usize)), sort) + item_findings(
            a.drop_first(),
            start + 1,
            path,
            sort,
        )
    }
}

/// The paths of a list of findings.
pub open spec fn finding_paths(f: Seq<(Seq<SegModel>, ValueModel)>) -> Seq<Seq<SegModel>> {
    f.map_values(|x: (Seq<SegModel>, ValueModel)| x.0)
}

/// Nulls survived into a document being converted to TOML. Carries paths
/// and nothing else; the remedies are the caller's to offer.
#[derive(Debug, PartialEq, Eq)]
pub struct NullInToml {
    pub entries: Vec<Vec<Seg>>,
}

/// A datetime whose text is not a TOML datetime, with its path.
#[derive(Debug, PartialEq, Eq)]
pub struct BadDatetime {
    pub entries: Vec<(Vec<Seg>, String)>,
}

/// An integer too large for TOML's signed 64-bit integers, with its path.
#[derive(Debug, PartialEq, Eq)]
pub struct IntegerOutOfRange {
    pub entries: Vec<(Vec<Seg>, u64)>,
}

/// A float JSON cannot represent — an infinity or a NaN — with its path,
/// carried as its bits.
#[derive(Debug, PartialEq, Eq)]
pub struct NonFiniteFloat {
    pub entries: Vec<(Vec<Seg>, u64)>,
}

impl NullInToml {
    /// What the report says.
    pub open spec fn message(&self) -> Seq<char> {
        "cannot serialize null to TOML"@ + arrow_lines(self.entries@.map_values(|p: Vec<Seg>| segs_view(p@)))
    }
}

impl BadDatetime {
    /// What the report says.
    pub open spec fn message(&self) -> Seq<char> {
        "cannot serialize datetime to TOML"@ + detail_lines(
            self.entries@.map_values(|e: (Vec<Seg>, String)| (segs_view(e.0@), e.1@)),
        )
    }
}

impl IntegerOutOfRange {
    /// What the report says.
    pub open spec fn message(&self) -> Seq<char> {
        "cannot serialize integer to TOML"@ + detail_lines(
            self.entries@.map_values(|e: (Vec<Seg>, u64)| (segs_view(e.0@), decimal(e.1 as nat))),
        )
    }
}

/// Why a document could not be converted to TOML.
#[derive(Debug, PartialEq, Eq)]
pub enum TomlError {
    /// The document contains a null, which TOML cannot represent.
    Null(NullInToml),
    /// The document contains an integer above `i64::MAX`.
    Integer(IntegerOutOfRange),
    /// The document contains a datetime whose spelling does not parse.
    Datetime(BadDatetime),
}

/// `\n  --> path` for each path.
pub open spec fn arrow_lines(paths: Seq<Seq<SegModel>>) -> Seq<char>
    decreases paths.len(),
{
    if paths.len() == 0 {
        Seq::empty()
    } else {
        arrow_lines(paths.drop_last()) + "\n  --> "@ + rendered(paths.last())
    }
}

/// `\n  --> path: `detail`` for each entry.
pub open spec fn detail_lines(entries: Seq<(Seq<SegModel>, Seq<char>)>) -> Seq<char>
    decreases entries.len(),
{
    if entries.len() == 0 {
        Seq::empty()
    } else {
        detail_lines(entries.drop_last()) + "\n  --> "@ + rendered(entries.last().0) + ": `"@
            + entries.last().1 + "`"@
    }
}

/// How a non-finite float is spelled: TOML's `inf`, `-inf` or `nan`.
pub open spec fn nonfinite_spelling(bits: u64) -> Seq<char> {
    if bits & 0xfffffffffffffu64 != 0 {
        "nan"@
    } else if bits >> 63u64 == 0 {
        "inf"@
    } else {
        "-inf"@
    }
}

pub(crate) fn spell_nonfinite(bits: u64) -> (r: &'static str)
    ensures
        r@ == nonfinite_spelling(bits),
{
    if bits & 0xfffffffffffffu64 != 0 {
        "nan"
    } else if bits >> 63u64 == 0 {
        "inf"
    } else {
        "-inf"
    }
}

impl NullInToml {
    /// `cannot serialize null to TOML`, then one line per path. No trailing
    /// newline, so a caller can append a `help:` line of its own.
    pub fn to_string(&self) -> (out: String)
        ensures
            out@ == "cannot serialize null to TOML"@ + arrow_lines(self.entries@.map_values(|p: Vec<Seg>| segs_view(p@))),
    {
        let ghost all = self.entries@.map_values(|p: Vec<Seg>| segs_view(p@));
        let mut out = owned("cannot serialize null to TOML");
        let ghost start = out@;
        let mut i: usize = 0;
        while i < self.entries.len()
            invariant
                i <= self.entries@.len(),
                all == self.entries@.map_values(|p: Vec<Seg>| segs_view(p@)),
                out@ == start + arrow_lines(all.take(i as int)),
            decreases self.entries.len() - i,
        {
            proof {
                assert(all.take(i + 1).drop_last() =~= all.take(i as int));
            }
            push_str(&mut out, "\n  --> ");
            push_str(&mut out, render_path(self.entries[i].as_slice()).as_str());
            i += 1;
            proof {
                assert(out@ =~= start + arrow_lines(all.take(i as int)));
            }
        }
        proof {
            assert(all.take(all.len() as int) =~= all);
        }
        out
    }
}

impl BadDatetime {
    /// `cannot serialize datetime to TOML`, then one line per datetime.
    pub fn to_string(&self) -> (out: String)
        ensures
            out@ == "cannot serialize datetime to TOML"@ + detail_lines(
                self.entries@.map_values(|e: (Vec<Seg>, String)| (segs_view(e.0@), e.1@)),
            ),
    {
        let ghost all = self.entries@.map_values(|e: (Vec<Seg>, String)| (segs_view(e.0@), e.1@));
        let mut out = owned("cannot serialize datetime to TOML");
        let ghost start = out@;
        let mut i: usize = 0;
        while i < self.entries.len()
            invariant
                i <= self.entries@.len(),
                all == self.entries@.map_values(|e: (Vec<Seg>, String)| (segs_view(e.0@), e.1@)),
                out@ == start + detail_lines(all.take(i as int)),
            decreases self.entries.len() - i,
        {
            proof {
                assert(all.take(i + 1).drop_last() =~= all.take(i as int));
            }
            push_str(&mut out, "\n  --> ");
            push_str(&mut out, render_path(self.entries[i].0.as_slice()).as_str());
            push_str(&mut out, ": `");
            push_str(&mut out, self.entries[i].1.as_str());
            push_str(&mut out, "`");
            i += 1;
            proof {
                assert(out@ =~= start + detail_lines(all.take(i as int)));
            }
        }
        proof {
            assert(all.take(all.len() as int) =~= all);
        }
        out
    }
}

impl IntegerOutOfRange {
    /// `cannot serialize integer to TOML`, then one line per integer.
    pub fn to_string(&self) -> (out: String)
        ensures
            out@ == "cannot serialize integer to TOML"@ + detail_lines(
                self.entries@.map_values(|e: (Vec<Seg>, u64)| (segs_view(e.0@), decimal(e.1 as nat))),
            ),
    {
        let ghost all = self.entries@.map_values(|e: (Vec<Seg>, u64)| (segs_view(e.0@), decimal(e.1 as nat)));
        let mut out = owned("cannot serialize integer to TOML");
        let ghost start = out@;
        let mut i: usize = 0;
        while i < self.entries.len()
            invariant
                i <= self.entries@.len(),
                all == self.entries@.map_values(|e: (Vec<Seg>, u64)| (segs_view(e.0@), decimal(e.1 as nat))),
                out@ == start + detail_lines(all.take(i as int)),
            decreases self.entries.len() - i,
        {
            proof {
                assert(all.take(i + 1).drop_last() =~= all.take(i as int));
            }
            push_str(&mut out, "\n  --> ");
            push_str(&mut out, render_path(self.entries[i].0.as_slice()).as_str());
            push_str(&mut out, ": `");
            push_decimal(&mut out, self.entries[i].1);
            push_str(&mut out, "`");
            i += 1;
            proof {
                assert(out@ =~= start + detail_lines(all.take(i as int)));
            }
        }
        proof {
            assert(all.take(all.len() as int) =~= all);
        }
        out
    }
}

impl NonFiniteFloat {
    /// `cannot serialize non-finite number to JSON`, then one line per float,
    /// spelled as TOML spells it.
    pub fn to_string(&self) -> (out: String)
        ensures
            out@ == "cannot serialize non-finite number to JSON"@ + detail_lines(
                self.entries@.map_values(|e: (Vec<Seg>, u64)| (segs_view(e.0@), nonfinite_spelling(e.1))),
            ),
    {
        let ghost all = self.entries@.map_values(|e: (Vec<Seg>, u64)| (segs_view(e.0@), nonfinite_spelling(e.1)));
        let mut out = owned("cannot serialize non-finite number to JSON");
        let ghost start = out@;
        let mut i: usize = 0;
        while i < self.entries.len()
            invariant
                i <= self.entries@.len(),
                all == self.entries@.map_values(|e: (Vec<Seg>, u64)| (segs_view(e.0@), nonfinite_spelling(e.1))),
                out@ == start + detail_lines(all.take(i as int)),
            decreases self.entries.len() - i,
        {
            proof {
                assert(all.take(i + 1).drop_last() =~= all.take(i as int));
            }
            push_str(&mut out, "\n  --> ");
            push_str(&mut out, render_path(self.entries[i].0.as_slice()).as_str());
            push_str(&mut out, ": `");
            push_str(&mut out, spell_nonfinite(self.entries[i].1));
            push_str(&mut out, "`");
            i += 1;
            proof {
                assert(out@ =~= start + detail_lines(all.take(i as int)));
            }
        }
        proof {
            assert(all.take(all.len() as int) =~= all);
        }
        out
    }
}

impl TomlError {
    /// The message of the variant.
    pub fn to_string(&self) -> (out: String)
        ensures
            out@ == match self {
                TomlError::Null(e) => e.message(),
                TomlError::Integer(e) => e.message(),
                TomlError::Datetime(e) => e.message(),
            },
    {
        match self {
            TomlError::Null(e) => e.to_string(),
            TomlError::Integer(e) => e.to_string(),
            TomlError::Datetime(e) => e.to_string(),
        }
    }
}

// --- the walk -----------------------------------------------------------------

/// What one walk collects.
struct Found {
    nulls: Vec<Vec<Seg>>,
    integers: Vec<(Vec<Seg>, u64)>,
    datetimes: Vec<(Vec<Seg>, String)>,
    floats: Vec<(Vec<Seg>, u64)>,
}

pub open spec fn nulls_view(v: Seq<Vec<Seg>>) -> Seq<Seq<SegModel>> {
    v.map_values(|p: Vec<Seg>| segs_view(p@))
}

pub open spec fn ints_view(v: Seq<(Vec<Seg>, u64)>) -> Seq<(Seq<SegModel>, ValueModel)> {
    v.map_values(|e: (Vec<Seg>, u64)| (segs_view(e.0@), ValueModel::Number(Number::U64(e.1))))
}

pub open spec fn floats_view(v: Seq<(Vec<Seg>, u64)>) -> Seq<(Seq<SegModel>, ValueModel)> {
    v.map_values(|e: (Vec<Seg>, u64)| (segs_view(e.0@), ValueModel::Number(Number::F64(e.1))))
}

pub open spec fn dates_view(v: Seq<(Vec<Seg>, String)>) -> Seq<(Seq<SegModel>, ValueModel)> {
    v.map_values(|e: (Vec<Seg>, String)| (segs_view(e.0@), ValueModel::Datetime(e.1@)))
}

/// Everything found so far, extended by what `v` at `path` holds.
spec fn found_after(old: Found, new: Found, v: ValueModel, path: Seq<SegModel>) -> bool {
    &&& nulls_view(new.nulls@) == nulls_view(old.nulls@) + finding_paths(findings(v, path, Unwritable::Null))
    &&& ints_view(new.integers@) == ints_view(old.integers@) + findings(v, path, Unwritable::BigInteger)
    &&& dates_view(new.datetimes@) == dates_view(old.datetimes@) + findings(v, path, Unwritable::BadDatetime)
    &&& floats_view(new.floats@) == floats_view(old.floats@) + findings(v, path, Unwritable::NonFinite)
}

#[verifier::loop_isolation(false)]
fn walk(value: &Value, cur: &mut Vec<Seg>, found: &mut Found)
    ensures
        final(cur)@ == old(cur)@,
        found_after(*old(found), *final(found), value.model(), segs_view(old(cur)@)),
    decreases value,
{
    let ghost here = segs_view(cur@);
    let ghost before = *found;
    match value {
        Value::Object(entries) => {
            proof {
                lemma_object_model(*entries);
            }
            let ghost em = entries_model(entries@);
            let mut i: usize = 0;
            proof {
                assert(em.skip(0) =~= em);
                assert(found_after(before, *found, ValueModel::Object(em.take(0)), here)) by {
                    assert(em.take(0) =~= Seq::<(Seq<char>, ValueModel)>::empty());
                    assert(nulls_view(found.nulls@) =~= nulls_view(before.nulls@) + Seq::<Seq<SegModel>>::empty());
                    assert(ints_view(found.integers@) =~= ints_view(before.integers@) + Seq::<(Seq<SegModel>, ValueModel)>::empty());
                    assert(dates_view(found.datetimes@) =~= dates_view(before.datetimes@) + Seq::<(Seq<SegModel>, ValueModel)>::empty());
                    assert(floats_view(found.floats@) =~= floats_view(before.floats@) + Seq::<(Seq<SegModel>, ValueModel)>::empty());
                }
            }
            while i < entries.len()
                invariant
                    i <= entries@.len(),
                    em == entries_model(entries@),
                    value.model() == ValueModel::Object(em),
                    segs_view(cur@) == here,
                    cur@ == old(cur)@,
                    found_after(before, *found, ValueModel::Object(em.take(i as int)), here),
                decreases entries.len() - i,
            {
                let ghost mid = *found;
                let ghost saved = cur@;
                cur.push(Seg::Key(entries[i].0.clone()));
                proof {
                    assert(segs_view(cur@) =~= here.push(SegModel::Key(em[i as int].0)));
                    assert(decreases_to!(value => entries@[i as int].1));
                }
                walk(&entries[i].1, cur, found);
                cur.pop();
                proof {
                    assert(cur@ =~= saved);
                    lemma_entry_findings_push(em.take(i as int), em[i as int], here, Unwritable::Null);
                    lemma_entry_findings_push(em.take(i as int), em[i as int], here, Unwritable::BigInteger);
                    lemma_entry_findings_push(em.take(i as int), em[i as int], here, Unwritable::BadDatetime);
                    lemma_entry_findings_push(em.take(i as int), em[i as int], here, Unwritable::NonFinite);
                    assert(em.take(i + 1) =~= em.take(i as int).push(em[i as int]));
                    assert(em[i as int].1 == entries@[i as int].1.model());
                    lemma_found_step(before, mid, *found, ValueModel::Object(em.take(i as int)), ValueModel::Object(em.take(i + 1)), em[i as int].1, here, here.push(SegModel::Key(em[i as int].0)));
                }
                i += 1;
            }
            proof {
                assert(em.take(em.len() as int) =~= em);
            }
        },
        Value::Array(items) => {
            proof {
                lemma_array_model(*items);
            }
            let ghost am = items@.map_values(|v: Value| v.model());
            let mut i: usize = 0;
            proof {
                assert(found_after(before, *found, ValueModel::Array(am.take(0)), here)) by {
                    assert(am.take(0) =~= Seq::<ValueModel>::empty());
                    assert(nulls_view(found.nulls@) =~= nulls_view(before.nulls@) + Seq::<Seq<SegModel>>::empty());
                    assert(ints_view(found.integers@) =~= ints_view(before.integers@) + Seq::<(Seq<SegModel>, ValueModel)>::empty());
                    assert(dates_view(found.datetimes@) =~= dates_view(before.datetimes@) + Seq::<(Seq<SegModel>, ValueModel)>::empty());
                    assert(floats_view(found.floats@) =~= floats_view(before.floats@) + Seq::<(Seq<SegModel>, ValueModel)>::empty());
                }
            }
            while i < items.len()
                invariant
                    i <= items@.len(),
                    am == items@.map_values(|v: Value| v.model()),
                    value.model() == ValueModel::Array(am),
                    segs_view(cur@) == here,
                    cur@ == old(cur)@,
                    found_after(before, *found, ValueModel::Array(am.take(i as int)), here),
                decreases items.len() - i,
            {
                let ghost mid = *found;
                let ghost saved = cur@;
                cur.push(Seg::Index(i));
                proof {
                    assert(segs_view(cur@) =~= here.push(SegModel::Index(i)));
                    assert(decreases_to!(value => items@[i as int]));
                }
                walk(&items[i], cur, found);
                cur.pop();
                proof {
                    assert(cur@ =~= saved);
                    lemma_item_findings_push(am.take(i as int), am[i as int], 0, here, Unwritable::Null);
                    lemma_item_findings_push(am.take(i as int), am[i as int], 0, here, Unwritable::BigInteger);
                    lemma_item_findings_push(am.take(i as int), am[i as int], 0, here, Unwritable::BadDatetime);
                    lemma_item_findings_push(am.take(i as int), am[i as int], 0, here, Unwritable::NonFinite);
                    assert(am.take(i + 1) =~= am.take(i as int).push(am[i as int]));
                    lemma_found_step(before, mid, *found, ValueModel::Array(am.take(i as int)), ValueModel::Array(am.take(i + 1)), am[i as int], here, here.push(SegModel::Index(i)));
                }
                i += 1;
            }
            proof {
                assert(am.take(am.len() as int) =~= am);
            }
        },
        Value::Null => {
            let ghost b = found.nulls@;
            found.nulls.push(clone_segs(cur.as_slice()));
            proof {
                assert(nulls_view(found.nulls@) =~= nulls_view(b).push(here));
                assert(finding_paths(findings(value.model(), here, Unwritable::Null)) =~= seq![here]);
            }
        },
        Value::Number(Number::U64(u)) => {
            if *u > 9223372036854775807u64 {
                let ghost b = found.integers@;
                found.integers.push((clone_segs(cur.as_slice()), *u));
                proof {
                    assert(ints_view(found.integers@) =~= ints_view(b).push((here, value.model())));
                }
            }
        },
        Value::Number(Number::F64(bits)) => {
            if value_non_finite(*bits) {
                let ghost b = found.floats@;
                found.floats.push((clone_segs(cur.as_slice()), *bits));
                proof {
                    assert(floats_view(found.floats@) =~= floats_view(b).push((here, value.model())));
                }
            }
        },
        Value::Datetime(s) => {
            if !parses_as_datetime(s.as_str()) {
                let ghost b = found.datetimes@;
                found.datetimes.push((clone_segs(cur.as_slice()), s.clone()));
                proof {
                    assert(dates_view(found.datetimes@) =~= dates_view(b).push((here, value.model())));
                }
            }
        },
        _ => {},
    }
    proof {
        assert(nulls_view(found.nulls@) =~= nulls_view(before.nulls@) + finding_paths(findings(value.model(), here, Unwritable::Null)));
        assert(ints_view(found.integers@) =~= ints_view(before.integers@) + findings(value.model(), here, Unwritable::BigInteger));
        assert(dates_view(found.datetimes@) =~= dates_view(before.datetimes@) + findings(value.model(), here, Unwritable::BadDatetime));
        assert(floats_view(found.floats@) =~= floats_view(before.floats@) + findings(value.model(), here, Unwritable::NonFinite));
    }
}

/// Findings so far, then a child's, are the findings of the larger node.
proof fn lemma_found_step(
    before: Found,
    mid: Found,
    after: Found,
    prev: ValueModel,
    next: ValueModel,
    child: ValueModel,
    here: Seq<SegModel>,
    there: Seq<SegModel>,
)
    requires
        found_after(before, mid, prev, here),
        found_after(mid, after, child, there),
        forall|s: Unwritable| #[trigger] findings(next, here, s) == findings(prev, here, s) + findings(child, there, s),
    ensures
        found_after(before, after, next, here),
{
    let n = Unwritable::Null;
    assert(findings(next, here, n) == findings(prev, here, n) + findings(child, there, n));
    assert(finding_paths(findings(next, here, n)) =~= finding_paths(findings(prev, here, n)) + finding_paths(findings(child, there, n)));
    assert(nulls_view(after.nulls@) =~= nulls_view(before.nulls@) + finding_paths(findings(next, here, n)));
    let b = Unwritable::BigInteger;
    assert(findings(next, here, b) == findings(prev, here, b) + findings(child, there, b));
    assert(ints_view(after.integers@) =~= ints_view(before.integers@) + findings(next, here, b));
    let d = Unwritable::BadDatetime;
    assert(findings(next, here, d) == findings(prev, here, d) + findings(child, there, d));
    assert(dates_view(after.datetimes@) =~= dates_view(before.datetimes@) + findings(next, here, d));
    let f = Unwritable::NonFinite;
    assert(findings(next, here, f) == findings(prev, here, f) + findings(child, there, f));
    assert(floats_view(after.floats@) =~= floats_view(before.floats@) + findings(next, here, f));
}

fn value_non_finite(bits: u64) -> (r: bool)
    ensures
        r == Number::F64(bits).is_non_finite(),
{
    Number::F64(bits).non_finite()
}

/// One more entry extends the findings of an object by its own.
proof fn lemma_entry_findings_push(e: Seq<(Seq<char>, ValueModel)>, x: (Seq<char>, ValueModel), path: Seq<SegModel>, sort: Unwritable)
    ensures
        entry_findings(e.push(x), path, sort) == entry_findings(e, path, sort) + findings(
            x.1,
            path.push(SegModel::Key(x.0)),
            sort,
        ),
    decreases e.len(),
{
    let empty = Seq::<(Seq<char>, ValueModel)>::empty();
    assert(entry_findings(empty, path, sort) == Seq::<(Seq<SegModel>, ValueModel)>::empty());
    if e.len() == 0 {
        assert(e.push(x).drop_first() =~= empty);
        assert(e.push(x)[0] == x);
        assert(entry_findings(e.push(x), path, sort) =~= findings(x.1, path.push(SegModel::Key(x.0)), sort));
        assert(e =~= empty);
    } else {
        lemma_entry_findings_push(e.drop_first(), x, path, sort);
        assert(e.push(x).drop_first() =~= e.drop_first().push(x));
        assert(e.push(x)[0] == e[0]);
        assert(entry_findings(e.push(x), path, sort) =~= entry_findings(e, path, sort) + findings(
            x.1,
            path.push(SegModel::Key(x.0)),
            sort,
        ));
    }
}

/// One more item extends the findings of an array by its own.
proof fn lemma_item_findings_push(a: Seq<ValueModel>, x: ValueModel, start: int, path: Seq<SegModel>, sort: Unwritable)
    ensures
        item_findings(a.push(x), start, path, sort) == item_findings(a, start, path, sort) + findings(
            x,
            path.push(SegModel::Index((start + a.len()) as usize)),
            sort,
        ),
    decreases a.len(),
{
    let empty = Seq::<ValueModel>::empty();
    assert(item_findings(empty, start + 1, path, sort) == Seq::<(Seq<SegModel>, ValueModel)>::empty());
    assert(item_findings(empty, start, path, sort) == Seq::<(Seq<SegModel>, ValueModel)>::empty());
    if a.len() == 0 {
        assert(a.push(x).drop_first() =~= empty);
        assert(a.push(x)[0] == x);
        assert(item_findings(a.push(x), start, path, sort) =~= findings(x, path.push(SegModel::Index(start as usize)), sort));
        assert(a =~= empty);
    } else {
        lemma_item_findings_push(a.drop_first(), x, start + 1, path, sort);
        assert(a.push(x).drop_first() =~= a.drop_first().push(x));
        assert(a.push(x)[0] == a[0]);
        assert(item_findings(a.push(x), start, path, sort) =~= item_findings(a, start, path, sort) + findings(
            x,
            path.push(SegModel::Index((start + a.len()) as usize)),
            sort,
        ));
    }
}

fn find_all(value: &Value) -> (found: Found)
    ensures
        nulls_view(found.nulls@) == finding_paths(findings(value.model(), Seq::empty(), Unwritable::Null)),
        ints_view(found.integers@) == findings(value.model(), Seq::empty(), Unwritable::BigInteger),
        dates_view(found.datetimes@) == findings(value.model(), Seq::empty(), Unwritable::BadDatetime),
        floats_view(found.floats@) == findings(value.model(), Seq::empty(), Unwritable::NonFinite),
{
    let mut found = Found { nulls: Vec::new(), integers: Vec::new(), datetimes: Vec::new(), floats: Vec::new() };
    let mut cur: Vec<Seg> = Vec::new();
    let ghost start = found;
    walk(value, &mut cur, &mut found);
    proof {
        assert(segs_view(Seq::<Seg>::empty()) =~= Seq::<SegModel>::empty());
        assert(nulls_view(start.nulls@) =~= Seq::<Seq<SegModel>>::empty());
        assert(ints_view(start.integers@) =~= Seq::<(Seq<SegModel>, ValueModel)>::empty());
        assert(dates_view(start.datetimes@) =~= Seq::<(Seq<SegModel>, ValueModel)>::empty());
        assert(floats_view(start.floats@) =~= Seq::<(Seq<SegModel>, ValueModel)>::empty());
        assert(nulls_view(found.nulls@) =~= finding_paths(findings(value.model(), Seq::empty(), Unwritable::Null)));
        assert(ints_view(found.integers@) =~= findings(value.model(), Seq::empty(), Unwritable::BigInteger));
        assert(dates_view(found.datetimes@) =~= findings(value.model(), Seq::empty(), Unwritable::BadDatetime));
        assert(floats_view(found.floats@) =~= findings(value.model(), Seq::empty(), Unwritable::NonFinite));
    }
    found
}

/// The TOML check's verdict on `v`: the nulls, if any; else the integers
/// above `i64::MAX`, if any; else the datetimes that do not re-parse, if
/// any; else success.
pub open spec fn toml_verdict(v: ValueModel, r: Result<(), TomlError>) -> bool {
    let nulls = findings(v, Seq::empty(), Unwritable::Null);
    let ints = findings(v, Seq::empty(), Unwritable::BigInteger);
    let dates = findings(v, Seq::empty(), Unwritable::BadDatetime);
    &&& nulls.len() > 0 ==> (r matches Err(TomlError::Null(e)) && nulls_view(e.entries@) == finding_paths(nulls))
    &&& nulls.len() == 0 && ints.len() > 0 ==> (r matches Err(TomlError::Integer(e)) && ints_view(e.entries@) == ints)
    &&& nulls.len() == 0 && ints.len() == 0 && dates.len() > 0 ==> (r matches Err(TomlError::Datetime(e))
        && dates_view(e.entries@) == dates)
    &&& nulls.len() == 0 && ints.len() == 0 && dates.len() == 0 ==> r is Ok
}

/// The JSON check's verdict on `v`: every infinity and NaN, or success.
pub open spec fn json_verdict(v: ValueModel, r: Result<(), NonFiniteFloat>) -> bool {
    let floats = findings(v, Seq::empty(), Unwritable::NonFinite);
    &&& floats.len() > 0 ==> r is Err && floats_view(r->Err_0.entries@) == floats
    &&& floats.len() == 0 ==> r is Ok
}

/// Whether `value` can be written as TOML. Nulls are reported first, then
/// integers above `i64::MAX`, then datetimes that do not re-parse: the order
/// in which a document can reach them. Every offender of the reported sort is
/// listed, in document order.
pub fn toml_check(value: &Value) -> (r: Result<(), TomlError>)
    ensures
        toml_verdict(value.model(), r),
{
    let found = find_all(value);
    proof {
        assert(finding_paths(findings(value.model(), Seq::empty(), Unwritable::Null)).len() == findings(
            value.model(),
            Seq::empty(),
            Unwritable::Null,
        ).len());
    }
    if found.nulls.len() > 0 {
        return Err(TomlError::Null(NullInToml { entries: found.nulls }));
    }
    if found.integers.len() > 0 {
        return Err(TomlError::Integer(IntegerOutOfRange { entries: found.integers }));
    }
    if found.datetimes.len() > 0 {
        return Err(TomlError::Datetime(BadDatetime { entries: found.datetimes }));
    }
    Ok(())
}

/// Whether `value` can be written as JSON: every infinity and NaN, in
/// document order. A datetime is no impossibility here — it renders as the
/// string JSON would have to use anyway.
pub fn json_check(value: &Value) -> (r: Result<(), NonFiniteFloat>)
    ensures
        json_verdict(value.model(), r),
{
    let found = find_all(value);
    if found.floats.len() > 0 {
        return Err(NonFiniteFloat { entries: found.floats });
    }
    Ok(())
}

/// `v` with every null replaced by the string `placeholder`.
pub open spec fn without_nulls(v: ValueModel, placeholder: Seq<char>) -> ValueModel
    decreases v,
{
    match v {
        ValueModel::Null => ValueModel::String(placeholder),
        ValueModel::Array(a) => ValueModel::Array(
            Seq::new(a.len(), |i: int| if 0 <= i < a.len() { without_nulls(a[i], placeholder) } else { ValueModel::Null }),
        ),
        ValueModel::Object(e) => ValueModel::Object(
            Seq::new(
                e.len(),
                |i: int|
                    if 0 <= i < e.len() {
                        (e[i].0, without_nulls(e[i].1, placeholder))
                    } else {
                        (Seq::empty(), ValueModel::Null)
                    },
            ),
        ),
        _ => v,
    }
}

/// Substitutes `placeholder` for every null in the document: the
/// alternative to the TOML check's rejection, and the user's choice of value
/// rather than the tool's.
pub fn replace_nulls(value: &mut Value, placeholder: &str)
    ensures
        final(value).model() == without_nulls(old(value).model(), placeholder@),
{
    let mut taken = Value::Null;
    std::mem::swap(&mut taken, value);
    *value = nulls_replaced(taken, placeholder);
}

#[verifier::loop_isolation(false)]
fn nulls_replaced(value: Value, placeholder: &str) -> (r: Value)
    ensures
        r.model() == without_nulls(value.model(), placeholder@),
    decreases value,
{
    let ghost before = value.model();
    match value {
        Value::Null => Value::String(owned(placeholder)),
        Value::Array(items) => {
            proof {
                lemma_array_model(items);
            }
            let ghost orig = items;
            let mut out: Vec<Value> = Vec::new();
            for item in it: items.into_iter()
                invariant
                    it.seq() == orig@,
                    out@.len() == it.index(),
                    forall|j: int| 0 <= j < out@.len() ==> #[trigger] out@[j].model() == without_nulls(orig@[j].model(), placeholder@),
            {
                proof {
                    assert(orig@[it.index() as int] == item);
                    assert(decreases_to!(value => item));
                }
                out.push(nulls_replaced(item, placeholder));
            }
            proof {
                lemma_array_model(out);
            }
            let r = Value::Array(out);
            proof {
                assert(r.model()->Array_0 =~= without_nulls(before, placeholder@)->Array_0);
            }
            r
        },
        Value::Object(entries) => {
            proof {
                lemma_object_model(entries);
            }
            let ghost orig = entries;
            let mut out: Vec<(String, Value)> = Vec::new();
            for entry in it: entries.into_iter()
                invariant
                    it.seq() == orig@,
                    out@.len() == it.index(),
                    forall|j: int| 0 <= j < out@.len() ==> (#[trigger] out@[j]).0@ == orig@[j].0@ && out@[j].1.model()
                        == without_nulls(orig@[j].1.model(), placeholder@),
            {
                proof {
                    assert(orig@[it.index() as int] == entry);
                    assert(decreases_to!(value => entry.1));
                }
                let (k, v) = entry;
                out.push((k, nulls_replaced(v, placeholder)));
            }
            proof {
                lemma_object_model(out);
            }
            let r = Value::Object(out);
            proof {
                assert(r.model()->Object_0 =~= without_nulls(before, placeholder@)->Object_0);
            }
            r
        },
        other => other,
    }
}

// --- laws -------------------------------------------------------------------

spec fn replaced_items(a: Seq<ValueModel>, p: Seq<char>) -> Seq<ValueModel> {
    Seq::new(a.len(), |i: int| without_nulls(a[i], p))
}

spec fn replaced_entries(e: Seq<(Seq<char>, ValueModel)>, p: Seq<char>) -> Seq<(Seq<char>, ValueModel)> {
    Seq::new(e.len(), |i: int| (e[i].0, without_nulls(e[i].1, p)))
}

proof fn lemma_no_nulls_left(v: ValueModel, p: Seq<char>, path: Seq<SegModel>)
    ensures
        findings(without_nulls(v, p), path, Unwritable::Null) == Seq::<(Seq<SegModel>, ValueModel)>::empty(),
    decreases v, 1int,
{
    match v {
        ValueModel::Object(e) => {
            assert(without_nulls(v, p) == ValueModel::Object(replaced_entries(e, p))) by {
                assert(without_nulls(v, p)->Object_0 =~= replaced_entries(e, p));
            }
            lemma_no_nulls_left_entries(e, p, path);
        },
        ValueModel::Array(a) => {
            assert(without_nulls(v, p) == ValueModel::Array(replaced_items(a, p))) by {
                assert(without_nulls(v, p)->Array_0 =~= replaced_items(a, p));
            }
            lemma_no_nulls_left_items(a, 0, p, path);
        },
        _ => {},
    }
}

proof fn lemma_no_nulls_left_entries(e: Seq<(Seq<char>, ValueModel)>, p: Seq<char>, path: Seq<SegModel>)
    ensures
        entry_findings(replaced_entries(e, p), path, Unwritable::Null) == Seq::<(Seq<SegModel>, ValueModel)>::empty(),
    decreases e, 0int,
{
    if e.len() > 0 {
        let r = replaced_entries(e, p);
        assert(r.drop_first() =~= replaced_entries(e.drop_first(), p));
        assert(decreases_to!(e => e[0]));
        lemma_no_nulls_left(e[0].1, p, path.push(SegModel::Key(e[0].0)));
        lemma_no_nulls_left_entries(e.drop_first(), p, path);
        assert(entry_findings(r, path, Unwritable::Null) =~= Seq::<(Seq<SegModel>, ValueModel)>::empty());
    }
}

proof fn lemma_no_nulls_left_items(a: Seq<ValueModel>, start: int, p: Seq<char>, path: Seq<SegModel>)
    ensures
        item_findings(replaced_items(a, p), start, path, Unwritable::Null) == Seq::<(Seq<SegModel>, ValueModel)>::empty(),
    decreases a, 0int,
{
    if a.len() > 0 {
        let r = replaced_items(a, p);
        assert(r.drop_first() =~= replaced_items(a.drop_first(), p));
        assert(decreases_to!(a => a[0]));
        lemma_no_nulls_left(a[0], p, path.push(SegModel::Index(start as usize)));
        lemma_no_nulls_left_items(a.drop_first(), start + 1, p, path);
        assert(item_findings(r, start, path, Unwritable::Null) =~= Seq::<(Seq<SegModel>, ValueModel)>::empty());
    }
}

proof fn lemma_untouched_without_nulls(v: ValueModel, p: Seq<char>, path: Seq<SegModel>)
    requires
        findings(v, path, Unwritable::Null).len() == 0,
    ensures
        without_nulls(v, p) == v,
    decreases v, 1int,
{
    match v {
        ValueModel::Object(e) => {
            lemma_untouched_entries(e, p, path);
            assert(without_nulls(v, p)->Object_0 =~= e);
        },
        ValueModel::Array(a) => {
            lemma_untouched_items(a, 0, p, path);
            assert(without_nulls(v, p)->Array_0 =~= a);
        },
        _ => {},
    }
}

proof fn lemma_untouched_entries(e: Seq<(Seq<char>, ValueModel)>, p: Seq<char>, path: Seq<SegModel>)
    requires
        entry_findings(e, path, Unwritable::Null).len() == 0,
    ensures
        replaced_entries(e, p) == e,
    decreases e, 0int,
{
    if e.len() > 0 {
        assert(decreases_to!(e => e[0]));
        lemma_untouched_without_nulls(e[0].1, p, path.push(SegModel::Key(e[0].0)));
        lemma_untouched_entries(e.drop_first(), p, path);
        assert forall|i: int| 0 <= i < e.len() implies #[trigger] replaced_entries(e, p)[i] == e[i] by {
            if i > 0 {
                assert(replaced_entries(e.drop_first(), p)[i - 1] == e.drop_first()[i - 1]);
            }
        }
        assert(replaced_entries(e, p) =~= e);
    } else {
        assert(replaced_entries(e, p) =~= e);
    }
}

proof fn lemma_untouched_items(a: Seq<ValueModel>, start: int, p: Seq<char>, path: Seq<SegModel>)
    requires
        item_findings(a, start, path, Unwritable::Null).len() == 0,
    ensures
        replaced_items(a, p) == a,
    decreases a, 0int,
{
    if a.len() > 0 {
        assert(decreases_to!(a => a[0]));
        lemma_untouched_without_nulls(a[0], p, path.push(SegModel::Index(start as usize)));
        lemma_untouched_items(a.drop_first(), start + 1, p, path);
        assert forall|i: int| 0 <= i < a.len() implies #[trigger] replaced_items(a, p)[i] == a[i] by {
            if i > 0 {
                assert(replaced_items(a.drop_first(), p)[i - 1] == a.drop_first()[i - 1]);
            }
        }
        assert(replaced_items(a, p) =~= a);
    } else {
        assert(replaced_items(a, p) =~= a);
    }
}

/// After [`replace_nulls`], the TOML check finds no null to report, whatever
/// the placeholder.
pub proof fn law_replacing_nulls_leaves_none(v: ValueModel, placeholder: Seq<char>)
    ensures
        findings(without_nulls(v, placeholder), Seq::empty(), Unwritable::Null).len() == 0,
{
    lemma_no_nulls_left(v, placeholder, Seq::empty());
}

/// A document without nulls is left exactly as it was by
/// [`replace_nulls`], so the substitution cannot perturb a document that
/// never needed it.
pub proof fn law_replace_nulls_is_the_identity_without_nulls(v: ValueModel, placeholder: Seq<char>)
    requires
        findings(v, Seq::empty(), Unwritable::Null).len() == 0,
    ensures
        without_nulls(v, placeholder) == v,
{
    lemma_untouched_without_nulls(v, placeholder, Seq::empty());
}

} // verus!
