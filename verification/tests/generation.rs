use serde_indexed::algorithm::{
    CountTerm, DecodeAlgorithm, EmitStep, EncodeAlgorithm, MatchArm, OutputField, SlotCheck,
    SlotInit,
};
use serde_indexed::parse::{Field, Input, StructAttrs};
use serde_indexed::{
    all_fields, count_serialized_fields, derive_deserialize, derive_serialize, match_fields,
    none_fields, serialize_fields, unwrap_expected_fields,
};

fn plain(label: &str, index: usize) -> Field {
    Field { label: label.to_string(), index, skip_serializing_if: None, ty: "u8".to_string() }
}

fn guarded(label: &str, index: usize, path: &str) -> Field {
    Field {
        label: label.to_string(),
        index,
        skip_serializing_if: Some(path.to_string()),
        ty: "Option<u8>".to_string(),
    }
}

fn example_fields() -> Vec<Field> {
    vec![plain("number", 0), guarded("option", 1, "Option::is_none"), plain("bytes", 2)]
}

fn example_schema(offset: usize) -> Input {
    Input {
        ident: "SomeKeys".to_string(),
        attrs: StructAttrs { offset },
        fields: example_fields(),
        lifetimes: vec![],
    }
}

#[test]
fn emission_steps_carry_key_member_and_guard() {
    assert_eq!(
        serialize_fields(&example_fields(), 1),
        vec![
            EmitStep { key: 1, member: "number".to_string(), slot: 0, guard: None },
            EmitStep {
                key: 2,
                member: "option".to_string(),
                slot: 1,
                guard: Some("Option::is_none".to_string()),
            },
            EmitStep { key: 3, member: "bytes".to_string(), slot: 2, guard: None },
        ]
    );
}

#[test]
fn key_is_offset_plus_position() {
    for offset in [0usize, 1, 7, 1000] {
        let steps = serialize_fields(&example_fields(), offset);
        let arms = match_fields(&example_fields(), offset);
        for i in 0..3 {
            assert_eq!(steps[i].key, offset + i);
            assert_eq!(arms[i].key, offset + i);
        }
    }
}

#[test]
fn changing_the_offset_shifts_every_key_alike() {
    let low = serialize_fields(&example_fields(), 2);
    let high = serialize_fields(&example_fields(), 12);
    for i in 0..3 {
        assert_eq!(high[i].key - low[i].key, 10);
    }
    let low = match_fields(&example_fields(), 2);
    let high = match_fields(&example_fields(), 12);
    for i in 0..3 {
        assert_eq!(high[i].key - low[i].key, 10);
    }
}

#[test]
fn renaming_a_field_keeps_its_key() {
    let mut renamed = example_fields();
    renamed[2].label = "payload".to_string();
    let before = serialize_fields(&example_fields(), 4);
    let after = serialize_fields(&renamed, 4);
    assert_eq!(before[2].key, after[2].key);
    assert_eq!(after[2].member, "payload");
}

#[test]
fn keys_reach_the_largest_usize() {
    let fields = vec![plain("a", 0), plain("b", 1)];
    let steps = serialize_fields(&fields, usize::MAX - 1);
    assert_eq!(steps[0].key, usize::MAX - 1);
    assert_eq!(steps[1].key, usize::MAX);
}

#[test]
fn count_terms_follow_the_predicates() {
    assert_eq!(
        count_serialized_fields(&example_fields()),
        vec![
            CountTerm::Always,
            CountTerm::Unless {
                predicate: "Option::is_none".to_string(),
                member: "option".to_string(),
                slot: 1,
            },
            CountTerm::Always,
        ]
    );
}

#[test]
fn slots_are_declared_per_field() {
    assert_eq!(
        none_fields(&example_fields()),
        vec![
            SlotInit { label: "number".to_string() },
            SlotInit { label: "option".to_string() },
            SlotInit { label: "bytes".to_string() },
        ]
    );
}

#[test]
fn fields_with_a_predicate_are_not_required() {
    assert_eq!(
        unwrap_expected_fields(&example_fields()),
        vec![
            SlotCheck::Required { label: "number".to_string(), slot: 0 },
            SlotCheck::Optional,
            SlotCheck::Required { label: "bytes".to_string(), slot: 2 },
        ]
    );
}

#[test]
fn match_arms_carry_key_label_and_slot() {
    assert_eq!(
        match_fields(&example_fields(), 1),
        vec![
            MatchArm { key: 1, label: "number".to_string(), slot: 0 },
            MatchArm { key: 2, label: "option".to_string(), slot: 1 },
            MatchArm { key: 3, label: "bytes".to_string(), slot: 2 },
        ]
    );
}

#[test]
fn output_lists_every_field_in_order() {
    assert_eq!(
        all_fields(&example_fields()),
        vec![
            OutputField { label: "number".to_string(), slot: 0 },
            OutputField { label: "option".to_string(), slot: 1 },
            OutputField { label: "bytes".to_string(), slot: 2 },
        ]
    );
}

#[test]
fn pieces_of_an_empty_schema_are_empty() {
    let none: Vec<Field> = vec![];
    assert!(serialize_fields(&none, 5).is_empty());
    assert!(count_serialized_fields(&none).is_empty());
    assert!(none_fields(&none).is_empty());
    assert!(unwrap_expected_fields(&none).is_empty());
    assert!(match_fields(&none, 5).is_empty());
    assert!(all_fields(&none).is_empty());
}

#[test]
fn encode_algorithm_is_put_together_from_the_pieces() {
    let schema = example_schema(1);
    assert_eq!(
        derive_serialize(&schema),
        EncodeAlgorithm {
            ident: "SomeKeys".to_string(),
            count: count_serialized_fields(&schema.fields),
            steps: serialize_fields(&schema.fields, 1),
        }
    );
    assert!(derive_serialize(&schema).fits(3));
    assert!(!derive_serialize(&schema).fits(2));
}

#[test]
fn decode_algorithm_is_put_together_from_the_pieces() {
    let schema = example_schema(1);
    assert_eq!(
        derive_deserialize(&schema),
        DecodeAlgorithm {
            ident: "SomeKeys".to_string(),
            slots: none_fields(&schema.fields),
            arms: match_fields(&schema.fields, 1),
            checks: unwrap_expected_fields(&schema.fields),
            output: all_fields(&schema.fields),
        }
    );
    assert!(derive_deserialize(&schema).is_well_formed());
}

#[test]
fn schema_well_formedness_is_decided() {
    assert!(example_schema(0).is_well_formed());
    assert!(example_schema(usize::MAX - 2).is_well_formed());
    assert!(!example_schema(usize::MAX - 1).is_well_formed());
    assert!(!example_schema(usize::MAX).is_well_formed());
    let mut swapped = example_schema(0);
    swapped.fields[0].index = 1;
    swapped.fields[1].index = 0;
    assert!(!swapped.is_well_formed());
    let mut gap = example_schema(0);
    gap.fields[2].index = 3;
    assert!(!gap.is_well_formed());
}

#[test]
fn algorithm_well_formedness_is_decided() {
    let schema = example_schema(1);
    let good = derive_deserialize(&schema);
    let mut arm_out_of_range = good.clone();
    arm_out_of_range.arms[0].slot = 3;
    assert!(!arm_out_of_range.is_well_formed());
    let mut check_out_of_range = good.clone();
    check_out_of_range.checks[2] = SlotCheck::Required { label: "bytes".to_string(), slot: 9 };
    assert!(!check_out_of_range.is_well_formed());
    let mut short_output = good.clone();
    short_output.output.pop();
    assert!(!short_output.is_well_formed());
    let mut shuffled_output = good.clone();
    shuffled_output.output.swap(0, 1);
    assert!(!shuffled_output.is_well_formed());
    let mut term_out_of_range = derive_serialize(&schema);
    term_out_of_range.count[1] = CountTerm::Unless {
        predicate: "p".to_string(),
        member: "option".to_string(),
        slot: 3,
    };
    assert!(!term_out_of_range.fits(3));
    assert!(term_out_of_range.fits(4));
}
