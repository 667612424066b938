//! The two algorithms of a record type, as data.
//!
//! An algorithm is made of one piece per field. A piece names its field by
//! `slot`, the field's position in the record, and carries the names that a
//! printed form of the algorithm needs.

use vstd::prelude::*;
use crate::parse::{in_order, views, FieldView, Input, InputView};

verus! {

/// One term of the sum that gives the number of entries.
#[derive(Clone, Debug, PartialEq, Eq)]
pub enum CountTerm {
    /// The field is always written: one entry.
    Always,
    /// The field is written unless `predicate` holds of its value.
    Unless { predicate: String, member: String, slot: usize },
}

/// The mathematical content of a [`CountTerm`].
pub enum CountTermView {
    Always,
    Unless { predicate: Seq<char>, member: Seq<char>, slot: usize },
}

impl View for CountTerm {
    type V = CountTermView;

    open spec fn view(&self) -> CountTermView {
        match self {
            CountTerm::Always => CountTermView::Always,
            CountTerm::Unless { predicate, member, slot } => CountTermView::Unless {
                predicate: predicate@,
                member: member@,
                slot: *slot,
            },
        }
    }
}

/// One step of the pass that writes the entries: write the field's value
/// under `key`, unless `guard` is there and holds of the value.
#[derive(Clone, Debug, PartialEq, Eq)]
pub struct EmitStep {
    pub key: usize,
    pub member: String,
    pub slot: usize,
    pub guard: Option<String>,
}

/// The mathematical content of an [`EmitStep`].
pub struct EmitStepView {
    pub key: usize,
    pub member: Seq<char>,
    pub slot: usize,
    pub guard: Option<Seq<char>>,
}

impl View for EmitStep {
    type V = EmitStepView;

    open spec fn view(&self) -> EmitStepView {
        EmitStepView {
            key: self.key,
            member: self.member@,
            slot: self.slot,
            guard: self.guard.deep_view(),
        }
    }
}

/// How a record is encoded.
#[derive(Clone, Debug, PartialEq, Eq)]
pub struct EncodeAlgorithm {
    /// The name of the record type.
    pub ident: String,
    pub count: Vec<CountTerm>,
    pub steps: Vec<EmitStep>,
}

/// The mathematical content of an [`EncodeAlgorithm`].
pub struct EncodeAlgorithmView {
    pub ident: Seq<char>,
    pub count: Seq<CountTermView>,
    pub steps: Seq<EmitStepView>,
}

impl View for EncodeAlgorithm {
    type V = EncodeAlgorithmView;

    open spec fn view(&self) -> EncodeAlgorithmView {
        EncodeAlgorithmView {
            ident: self.ident@,
            count: views(self.count@),
            steps: views(self.steps@),
        }
    }
}

/// The declaration of one accumulator slot, empty at first.
#[derive(Clone, Debug, PartialEq, Eq)]
pub struct SlotInit {
    pub label: String,
}

/// The mathematical content of a [`SlotInit`].
pub struct SlotInitView {
    pub label: Seq<char>,
}

impl View for SlotInit {
    type V = SlotInitView;

    open spec fn view(&self) -> SlotInitView {
        SlotInitView { label: self.label@ }
    }
}

/// One arm of the match on an incoming key: the value that comes with `key`
/// goes to `slot`, which must still be empty.
#[derive(Clone, Debug, PartialEq, Eq)]
pub struct MatchArm {
    pub key: usize,
    pub label: String,
    pub slot: usize,
}

/// The mathematical content of a [`MatchArm`].
pub struct MatchArmView {
    pub key: usize,
    pub label: Seq<char>,
    pub slot: usize,
}

impl View for MatchArm {
    type V = MatchArmView;

    open spec fn view(&self) -> MatchArmView {
        MatchArmView { key: self.key, label: self.label@, slot: self.slot }
    }
}

/// What is asked of one slot when the entries have all been read.
#[derive(Clone, Debug, PartialEq, Eq)]
pub enum SlotCheck {
    /// The slot must be filled.
    Required { label: String, slot: usize },
    /// The slot may have stayed empty.
    Optional,
}

/// The mathematical content of a [`SlotCheck`].
pub enum SlotCheckView {
    Required { label: Seq<char>, slot: usize },
    Optional,
}

impl View for SlotCheck {
    type V = SlotCheckView;

    open spec fn view(&self) -> SlotCheckView {
        match self {
            SlotCheck::Required { label, slot } => SlotCheckView::Required {
                label: label@,
                slot: *slot,
            },
            SlotCheck::Optional => SlotCheckView::Optional,
        }
    }
}

/// One field of the record that is built in the end, with the slot it is
/// taken from.
#[derive(Clone, Debug, PartialEq, Eq)]
pub struct OutputField {
    pub label: String,
    pub slot: usize,
}

/// The mathematical content of an [`OutputField`].
pub struct OutputFieldView {
    pub label: Seq<char>,
    pub slot: usize,
}

impl View for OutputField {
    type V = OutputFieldView;

    open spec fn view(&self) -> OutputFieldView {
        OutputFieldView { label: self.label@, slot: self.slot }
    }
}

/// How a record is decoded.
#[derive(Clone, Debug, PartialEq, Eq)]
pub struct DecodeAlgorithm {
    /// The name of the record type.
    pub ident: String,
    pub slots: Vec<SlotInit>,
    pub arms: Vec<MatchArm>,
    pub checks: Vec<SlotCheck>,
    pub output: Vec<OutputField>,
}

/// The mathematical content of a [`DecodeAlgorithm`].
pub struct DecodeAlgorithmView {
    pub ident: Seq<char>,
    pub slots: Seq<SlotInitView>,
    pub arms: Seq<MatchArmView>,
    pub checks: Seq<SlotCheckView>,
    pub output: Seq<OutputFieldView>,
}

impl View for DecodeAlgorithm {
    type V = DecodeAlgorithmView;

    open spec fn view(&self) -> DecodeAlgorithmView {
        DecodeAlgorithmView {
            ident: self.ident@,
            slots: views(self.slots@),
            arms: views(self.arms@),
            checks: views(self.checks@),
            output: views(self.output@),
        }
    }
}

/// The key of a field: its position plus the offset.
pub open spec fn key_of(field: FieldView, offset: usize) -> int {
    field.index + offset
}

/// Every key of the schema is a `usize`.
pub open spec fn keys_fit(fields: Seq<FieldView>, offset: usize) -> bool {
    forall|i: int| 0 <= i < fields.len() ==> key_of(#[trigger] fields[i], offset) <= usize::MAX
}

/// A schema as extraction gives it, with keys that are all `usize`.
pub open spec fn schema_wf(schema: InputView) -> bool {
    in_order(schema.fields) && keys_fit(schema.fields, schema.attrs.offset)
}

impl Input {
    /// Whether every field's index is its position and every key a `usize`.
    pub fn is_well_formed(&self) -> (b: bool)
        ensures
            b == schema_wf(self@),
    {
        let mut i: usize = 0;
        while i < self.fields.len()
            invariant
                i <= self.fields.len(),
                forall|k: int|
                    0 <= k < i ==> (#[trigger] self@.fields[k]).index == k && key_of(
                        self@.fields[k],
                        self@.attrs.offset,
                    ) <= usize::MAX,
            decreases self.fields.len() - i,
        {
            let field = &self.fields[i];
            assert(self@.fields[i as int] == field@);
            if field.index != i || field.index > usize::MAX - self.attrs.offset {
                return false;
            }
            i += 1;
        }
        true
    }
}

/// The count term of a field.
pub open spec fn count_term(field: FieldView) -> CountTermView {
    match field.skip_serializing_if {
        Some(predicate) => CountTermView::Unless {
            predicate,
            member: field.label,
            slot: field.index,
        },
        None => CountTermView::Always,
    }
}

/// The emission step of a field.
pub open spec fn emit_step(field: FieldView, offset: usize) -> EmitStepView {
    EmitStepView {
        key: key_of(field, offset) as usize,
        member: field.label,
        slot: field.index,
        guard: field.skip_serializing_if,
    }
}

/// The accumulator slot of a field.
pub open spec fn slot_init(field: FieldView) -> SlotInitView {
    SlotInitView { label: field.label }
}

/// The match arm of a field.
pub open spec fn match_arm(field: FieldView, offset: usize) -> MatchArmView {
    MatchArmView { key: key_of(field, offset) as usize, label: field.label, slot: field.index }
}

/// The final check of a field: a field without a skip predicate is required.
pub open spec fn slot_check(field: FieldView) -> SlotCheckView {
    if field.skip_serializing_if is None {
        SlotCheckView::Required { label: field.label, slot: field.index }
    } else {
        SlotCheckView::Optional
    }
}

/// The output entry of a field.
pub open spec fn output_field(field: FieldView) -> OutputFieldView {
    OutputFieldView { label: field.label, slot: field.index }
}

/// The encode algorithm of a schema.
pub open spec fn encode_algorithm(schema: InputView) -> EncodeAlgorithmView {
    EncodeAlgorithmView {
        ident: schema.ident,
        count: schema.fields.map_values(|f: FieldView| count_term(f)),
        steps: schema.fields.map_values(|f: FieldView| emit_step(f, schema.attrs.offset)),
    }
}

/// The decode algorithm of a schema.
pub open spec fn decode_algorithm(schema: InputView) -> DecodeAlgorithmView {
    DecodeAlgorithmView {
        ident: schema.ident,
        slots: schema.fields.map_values(|f: FieldView| slot_init(f)),
        arms: schema.fields.map_values(|f: FieldView| match_arm(f, schema.attrs.offset)),
        checks: schema.fields.map_values(|f: FieldView| slot_check(f)),
        output: schema.fields.map_values(|f: FieldView| output_field(f)),
    }
}

} // verus!
