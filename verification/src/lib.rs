//! Records encoded as maps keyed by small integers.
//!
//! A record type's declaration is read into a schema ([`parse::Input`]); the
//! schema gives every field the key `offset + position`. From the schema come
//! the two algorithms of the record type ([`derive_serialize`],
//! [`derive_deserialize`]), each put together from one piece per field.

use vstd::prelude::*;
use crate::algorithm::{
    count_term, decode_algorithm, emit_step, encode_algorithm, keys_fit, match_arm, output_field,
    slot_check, slot_init, CountTerm, DecodeAlgorithm, EmitStep, EncodeAlgorithm, MatchArm,
    OutputField, SlotCheck, SlotInit,
};
use crate::codec::{decode_wf, encode_fits};
use crate::parse::{in_order, views, Field, FieldView, Input};

pub mod algorithm;
pub mod codec;
pub mod laws;
pub mod parse;
pub mod syntax;

verus! {

/// A copy of an optional string.
fn clone_opt(text: &Option<String>) -> (out: Option<String>)
    ensures
        out.deep_view() == text.deep_view(),
{
    match text {
        Some(s) => Some(s.clone()),
        None => None,
    }
}

/// The steps that write the entries, one per field, in field order.
pub fn serialize_fields(fields: &[Field], offset: usize) -> (out: Vec<EmitStep>)
    requires
        keys_fit(views(fields@), offset),
    ensures
        views(out@) == views(fields@).map_values(|f: FieldView| emit_step(f, offset)),
{
    let mut out: Vec<EmitStep> = Vec::new();
    let mut i: usize = 0;
    while i < fields.len()
        invariant
            i <= fields.len(),
            keys_fit(views(fields@), offset),
            out.len() == i,
            forall|k: int| 0 <= k < i ==> (#[trigger] out[k])@ == emit_step(fields[k]@, offset),
        decreases fields.len() - i,
    {
        let field = &fields[i];
        assert(views(fields@)[i as int] == field@);
        let step = EmitStep {
            key: field.index + offset,
            member: field.label.clone(),
            slot: field.index,
            guard: clone_opt(&field.skip_serializing_if),
        };
        out.push(step);
        i += 1;
    }
    out
}

/// The terms of the entry count, one per field, in field order.
pub fn count_serialized_fields(fields: &[Field]) -> (out: Vec<CountTerm>)
    ensures
        views(out@) == views(fields@).map_values(|f: FieldView| count_term(f)),
{
    let mut out: Vec<CountTerm> = Vec::new();
    let mut i: usize = 0;
    while i < fields.len()
        invariant
            i <= fields.len(),
            out.len() == i,
            forall|k: int| 0 <= k < i ==> (#[trigger] out[k])@ == count_term(fields[k]@),
        decreases fields.len() - i,
    {
        let field = &fields[i];
        let term = match &field.skip_serializing_if {
            Some(path) => CountTerm::Unless {
                predicate: path.clone(),
                member: field.label.clone(),
                slot: field.index,
            },
            None => CountTerm::Always,
        };
        out.push(term);
        i += 1;
    }
    out
}

/// The encode algorithm of a schema.
pub fn derive_serialize(input: &Input) -> (out: EncodeAlgorithm)
    requires
        keys_fit(input@.fields, input@.attrs.offset),
    ensures
        out@ == encode_algorithm(input@),
        in_order(input@.fields) ==> encode_fits(out@, input@.fields.len()),
{
    let num_fields = count_serialized_fields(&input.fields);
    let serialize_fields = serialize_fields(&input.fields, input.attrs.offset);
    EncodeAlgorithm { ident: input.ident.clone(), count: num_fields, steps: serialize_fields }
}

/// The accumulator slots, one per field, in field order.
pub fn none_fields(fields: &[Field]) -> (out: Vec<SlotInit>)
    ensures
        views(out@) == views(fields@).map_values(|f: FieldView| slot_init(f)),
{
    let mut out: Vec<SlotInit> = Vec::new();
    let mut i: usize = 0;
    while i < fields.len()
        invariant
            i <= fields.len(),
            out.len() == i,
            forall|k: int| 0 <= k < i ==> (#[trigger] out[k])@ == slot_init(fields[k]@),
        decreases fields.len() - i,
    {
        out.push(SlotInit { label: fields[i].label.clone() });
        i += 1;
    }
    out
}

/// The final checks, one per field, in field order.
pub fn unwrap_expected_fields(fields: &[Field]) -> (out: Vec<SlotCheck>)
    ensures
        views(out@) == views(fields@).map_values(|f: FieldView| slot_check(f)),
{
    let mut out: Vec<SlotCheck> = Vec::new();
    let mut i: usize = 0;
    while i < fields.len()
        invariant
            i <= fields.len(),
            out.len() == i,
            forall|k: int| 0 <= k < i ==> (#[trigger] out[k])@ == slot_check(fields[k]@),
        decreases fields.len() - i,
    {
        let field = &fields[i];
        let check = if field.skip_serializing_if.is_none() {
            SlotCheck::Required { label: field.label.clone(), slot: field.index }
        } else {
            SlotCheck::Optional
        };
        out.push(check);
        i += 1;
    }
    out
}

/// The arms of the match on an incoming key, one per field, in field order.
pub fn match_fields(fields: &[Field], offset: usize) -> (out: Vec<MatchArm>)
    requires
        keys_fit(views(fields@), offset),
    ensures
        views(out@) == views(fields@).map_values(|f: FieldView| match_arm(f, offset)),
{
    let mut out: Vec<MatchArm> = Vec::new();
    let mut i: usize = 0;
    while i < fields.len()
        invariant
            i <= fields.len(),
            keys_fit(views(fields@), offset),
            out.len() == i,
            forall|k: int| 0 <= k < i ==> (#[trigger] out[k])@ == match_arm(fields[k]@, offset),
        decreases fields.len() - i,
    {
        let field = &fields[i];
        assert(views(fields@)[i as int] == field@);
        let arm = MatchArm {
            key: field.index + offset,
            label: field.label.clone(),
            slot: field.index,
        };
        out.push(arm);
        i += 1;
    }
    out
}

/// The fields of the record that is built in the end, in field order.
pub fn all_fields(fields: &[Field]) -> (out: Vec<OutputField>)
    ensures
        views(out@) == views(fields@).map_values(|f: FieldView| output_field(f)),
{
    let mut out: Vec<OutputField> = Vec::new();
    let mut i: usize = 0;
    while i < fields.len()
        invariant
            i <= fields.len(),
            out.len() == i,
            forall|k: int| 0 <= k < i ==> (#[trigger] out[k])@ == output_field(fields[k]@),
        decreases fields.len() - i,
    {
        let field = &fields[i];
        out.push(OutputField { label: field.label.clone(), slot: field.index });
        i += 1;
    }
    out
}

/// The decode algorithm of a schema.
pub fn derive_deserialize(input: &Input) -> (out: DecodeAlgorithm)
    requires
        keys_fit(input@.fields, input@.attrs.offset),
    ensures
        out@ == decode_algorithm(input@),
        in_order(input@.fields) ==> decode_wf(out@),
{
    let none_fields = none_fields(&input.fields);
    let unwrap_expected_fields = unwrap_expected_fields(&input.fields);
    let match_fields = match_fields(&input.fields, input.attrs.offset);
    let all_fields = all_fields(&input.fields);
    DecodeAlgorithm {
        ident: input.ident.clone(),
        slots: none_fields,
        arms: match_fields,
        checks: unwrap_expected_fields,
        output: all_fields,
    }
}

} // verus!
