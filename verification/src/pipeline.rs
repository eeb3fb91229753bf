//! The fold at the heart of a run: file layers, then in-memory overlays, in
//! one flat, strictly-left merge — then, when asked, one interpolation pass
//! over the merged document, never per layer.

use vstd::prelude::*;
use crate::explain::PipelineError;
use crate::interp::{interpolate, interpolation_outcome, Env};
use crate::interp_error::InterpError;
use crate::merge::{fold_spec, lemma_fold_well_formed, merge_with, MergeOptions};
use crate::value::{Value, ValueModel};
use crate::emit::{json_check, json_verdict, replace_nulls, toml_check, toml_verdict, without_nulls};
use crate::format::Format;

verus! {

/// The layers a run folds: every file layer, then every overlay.
pub open spec fn all_layers(layers: Seq<Value>, overlays: Seq<Value>) -> Seq<ValueModel> {
    (layers + overlays).map_values(|v: Value| v.model())
}

/// Appends the overlays to the layers and folds the flat list from the left
/// into an empty object; then, when `resolve` is set, interpolates the
/// merged document once. Strict mode therefore compares the kinds values
/// had when they were written, and an overlay's references resolve like any
/// other layer's.
pub fn merge_layers<E: Env, F: Fn(u64) -> String>(
    layers: Vec<Value>,
    overlays: Vec<Value>,
    opts: &MergeOptions,
    resolve: bool,
    env: &E,
    spell: &F,
) -> (r: Result<Value, PipelineError>)
    requires
        forall|i: int| 0 <= i < layers@.len() ==> (#[trigger] layers@[i]).model().well_formed(),
        forall|i: int| 0 <= i < overlays@.len() ==> (#[trigger] overlays@[i]).model().well_formed(),
        forall|b: u64| #[trigger] spell.requires((b,)),
    ensures
        match fold_spec(
            ValueModel::Object(Seq::empty()),
            all_layers(layers@, overlays@),
            opts.strict,
            opts.shallow,
            opts.rules.model(),
        ) {
            Err(f) => r matches Err(PipelineError::Merge(e)) && e@ == f,
            Ok(m) => if resolve {
                match r {
                    Ok(v) => interpolation_outcome(m, env, Ok::<Value, InterpError>(v)),
                    Err(PipelineError::Interp(e)) => interpolation_outcome(m, env, Err::<Value, InterpError>(e)),
                    _ => false,
                }
            } else {
                r matches Ok(v) && v.model() == m
            },
        },
{
    let ghost first = layers@;
    let ghost second = overlays@;
    let mut all = layers;
    let mut rest = overlays;
    while rest.len() > 0
        invariant
            second =~= second.take(second.len() - rest@.len()) + rest@,
            rest@.len() <= second.len(),
            all@ == first + second.take(second.len() - rest@.len()),
        decreases rest@.len(),
    {
        let ghost n = second.len() - rest@.len();
        let ghost before_rest = rest@;
        let v = rest.remove(0);
        proof {
            assert(second[n] == before_rest[0]);
            assert(second =~= second.take(second.len() - rest@.len()) + rest@);
            assert(second.take(n + 1) =~= second.take(n).push(second[n]));
        }
        all.push(v);
        proof {
            assert(all@ =~= first + second.take(n + 1));
        }
    }
    proof {
        assert(second.take(second.len() as int) =~= second);
        let lm = all@.map_values(|v: Value| v.model());
        assert(lm == all_layers(first, second));
        assert forall|i: int| 0 <= i < lm.len() implies (#[trigger] lm[i]).well_formed() by {
            if i < first.len() {
                assert(all@[i] == first[i]);
            } else {
                assert(all@[i] == second[i - first.len()]);
            }
        }
        assert(ValueModel::Object(Seq::empty()).well_formed());
        lemma_fold_well_formed(ValueModel::Object(Seq::empty()), lm, opts.strict, opts.shallow, opts.rules.model());
    }
    let merged = match merge_with(all, opts) {
        Ok(m) => m,
        Err(e) => return Err(PipelineError::Merge(e)),
    };
    if !resolve {
        return Ok(merged);
    }
    match interpolate(merged, env, spell) {
        Ok(v) => Ok(v),
        Err(e) => Err(PipelineError::Interp(e)),
    }
}

/// The document as it goes out in `format`: in TOML every null replaced by
/// the placeholder when one is given; in JSON, where null is a value,
/// untouched whatever the placeholder.
pub open spec fn outgoing(v: ValueModel, format: Format, null_as: Option<Seq<char>>) -> ValueModel {
    match (format, null_as) {
        (Format::Toml, Some(p)) => without_nulls(v, p),
        _ => v,
    }
}

/// Readies a merged document for writing in `format`: substitutes the
/// placeholder for nulls when writing TOML, then checks that the format can
/// hold what is left. JSON refuses infinities and NaNs; TOML refuses nulls,
/// integers above `i64::MAX` and datetimes that do not re-parse.
pub fn prepare_emit(value: Value, format: Format, null_as: Option<&str>) -> (r: Result<Value, PipelineError>)
    ensures
        ({
            let w = outgoing(value.model(), format, match null_as { Some(p) => Some(p@), None => None });
            match format {
                Format::Json => {
                    &&& r is Ok ==> r->Ok_0.model() == w && json_verdict(w, Ok(()))
                    &&& r is Err ==> (r matches Err(PipelineError::Json(e)) && json_verdict(w, Err(e)))
                },
                Format::Toml => {
                    &&& r is Ok ==> r->Ok_0.model() == w && toml_verdict(w, Ok(()))
                    &&& r is Err ==> (r matches Err(PipelineError::Toml(e)) && toml_verdict(w, Err(e)))
                },
            }
        }),
{
    match format {
        Format::Json => match json_check(&value) {
            Ok(()) => Ok(value),
            Err(e) => Err(PipelineError::Json(e)),
        },
        Format::Toml => {
            let mut value = value;
            if let Some(placeholder) = null_as {
                replace_nulls(&mut value, placeholder);
            }
            match toml_check(&value) {
                Ok(()) => Ok(value),
                Err(e) => Err(PipelineError::Toml(e)),
            }
        },
    }
}

} // verus!
