use serde_indexed::algorithm::{DecodeAlgorithm, EncodeAlgorithm};
use serde_indexed::codec::{decode, encode, evaluate_guards, DecodeError, Decoder};
use serde_indexed::parse::{
    Attribute, Data, Declaration, Field, FieldDecl, Fields, Input, MetaItem, StructAttrs,
};
use serde_indexed::{derive_deserialize, derive_serialize};

#[derive(Clone, Debug, PartialEq)]
enum Value {
    Number(i32),
    Optional(Option<u8>),
    Bytes([u8; 7]),
}

fn example_schema() -> Input {
    Input {
        ident: "SomeKeys".to_string(),
        attrs: StructAttrs { offset: 1 },
        fields: vec![
            Field {
                label: "number".to_string(),
                index: 0,
                skip_serializing_if: None,
                ty: "i32".to_string(),
            },
            Field {
                label: "option".to_string(),
                index: 1,
                skip_serializing_if: Some("Option::is_none".to_string()),
                ty: "Option<u8>".to_string(),
            },
            Field {
                label: "bytes".to_string(),
                index: 2,
                skip_serializing_if: None,
                ty: "[u8; 7]".to_string(),
            },
        ],
        lifetimes: vec![],
    }
}

fn encoder() -> EncodeAlgorithm {
    derive_serialize(&example_schema())
}

fn decoder() -> DecodeAlgorithm {
    derive_deserialize(&example_schema())
}

fn holds(name: &String, value: &Value) -> bool {
    match (name.as_str(), value) {
        ("Option::is_none", Value::Optional(inner)) => inner.is_none(),
        _ => false,
    }
}

fn owned(entries: &Vec<(usize, &Value)>) -> Vec<(usize, Value)> {
    entries.iter().map(|(key, value)| (*key, (*value).clone())).collect()
}

#[test]
fn example_record_encodes_without_the_absent_option() {
    let record = vec![Value::Number(5), Value::Optional(None), Value::Bytes([0; 7])];
    let algorithm = encoder();
    let skip = evaluate_guards(&algorithm, &record, holds);
    assert_eq!(skip, vec![false, true, false]);
    let out = encode(&algorithm, &record, &skip);
    assert_eq!(out.count, 2);
    assert_eq!(
        owned(&out.entries),
        vec![(1, Value::Number(5)), (3, Value::Bytes([0; 7]))]
    );
}

#[test]
fn example_record_decodes_back_with_the_option_absent() {
    let record = vec![Value::Number(5), Value::Optional(None), Value::Bytes([0; 7])];
    let algorithm = encoder();
    let skip = evaluate_guards(&algorithm, &record, holds);
    let out = encode(&algorithm, &record, &skip);
    let back = decode(&decoder(), out.entries).unwrap();
    assert_eq!(back, vec![Some(&record[0]), None, Some(&record[2])]);
}

#[test]
fn record_without_triggered_predicate_round_trips() {
    let record = vec![Value::Number(-9), Value::Optional(Some(4)), Value::Bytes([1; 7])];
    let algorithm = encoder();
    let skip = evaluate_guards(&algorithm, &record, holds);
    assert_eq!(skip, vec![false, false, false]);
    let out = encode(&algorithm, &record, &skip);
    assert_eq!(out.count, 3);
    assert_eq!(out.entries.len(), 3);
    let keys: Vec<usize> = out.entries.iter().map(|entry| entry.0).collect();
    assert_eq!(keys, vec![1, 2, 3]);
    let back = decode(&decoder(), owned(&out.entries)).unwrap();
    let expected: Vec<Option<Value>> = record.iter().cloned().map(Some).collect();
    assert_eq!(back, expected);
}

#[test]
fn announced_count_is_the_number_of_entries() {
    let record = vec![1u8, 2, 3];
    let algorithm = encoder();
    for skip in [
        vec![false, false, false],
        vec![false, true, false],
        vec![true, true, true],
        vec![true, false, true],
    ] {
        let out = encode(&algorithm, &record, &skip);
        assert_eq!(out.count, out.entries.len());
        assert_eq!(out.count, if skip[1] { 2 } else { 3 });
    }
}

#[test]
fn skip_is_not_looked_at_for_a_field_without_predicate() {
    let record = vec![1u8, 2, 3];
    let out = encode(&encoder(), &record, &vec![true, false, true]);
    assert_eq!(out.entries, vec![(1, &1u8), (2, &2u8), (3, &3u8)]);
}

#[test]
fn emitted_keys_stay_in_the_range_of_the_schema() {
    let record = vec![1u8, 2, 3];
    let out = encode(&encoder(), &record, &vec![false, false, false]);
    for (key, _) in out.entries {
        assert!(1 <= key && key <= 3);
    }
}

#[test]
fn omitted_field_has_no_entry_and_decodes_to_none() {
    let record = vec![10u8, 20, 30];
    let out = encode(&encoder(), &record, &vec![false, true, false]);
    assert!(out.entries.iter().all(|entry| entry.0 != 2));
    let back = decode(&decoder(), out.entries).unwrap();
    assert_eq!(back[1], None);
    assert_eq!(back, vec![Some(&10u8), None, Some(&30u8)]);
}

#[test]
fn guards_are_asked_by_name_and_value() {
    let record = vec![Value::Number(0), Value::Optional(Some(0)), Value::Bytes([0; 7])];
    let algorithm = encoder();
    let always = evaluate_guards(&algorithm, &record, |_: &String, _: &Value| true);
    assert_eq!(always, vec![false, true, false]);
    let by_name = evaluate_guards(&algorithm, &record, |name: &String, _: &Value| {
        name == "Option::is_some"
    });
    assert_eq!(by_name, vec![false, false, false]);
    let by_value = evaluate_guards(&algorithm, &record, |_: &String, value: &Value| {
        *value == Value::Optional(Some(0))
    });
    assert_eq!(by_value, vec![false, true, false]);
}

#[test]
fn entries_decode_alike_in_any_order() {
    let orders: [[usize; 3]; 6] =
        [[0, 1, 2], [0, 2, 1], [1, 0, 2], [1, 2, 0], [2, 0, 1], [2, 1, 0]];
    let entries = [(1usize, 'a'), (2, 'b'), (3, 'c')];
    for order in orders {
        let stream: Vec<(usize, char)> = order.iter().map(|&i| entries[i]).collect();
        assert_eq!(decode(&decoder(), stream), Ok(vec![Some('a'), Some('b'), Some('c')]));
    }
    assert_eq!(decode(&decoder(), vec![(3, 'c'), (1, 'a')]), Ok(vec![Some('a'), None, Some('c')]));
    assert_eq!(decode(&decoder(), vec![(1, 'a'), (3, 'c')]), Ok(vec![Some('a'), None, Some('c')]));
}

#[test]
fn duplicate_key_is_rejected_wherever_it_stands() {
    let label = |s: &str| Err(DecodeError::DuplicateField(s.to_string()));
    assert_eq!(decode(&decoder(), vec![(1, 'a'), (1, 'b')]), label("number"));
    assert_eq!(decode(&decoder(), vec![(1, 'a'), (2, 'b'), (3, 'c'), (2, 'd')]), label("option"));
    assert_eq!(decode(&decoder(), vec![(3, 'a'), (1, 'b'), (3, 'a')]), label("bytes"));
    assert_eq!(decode(&decoder(), vec![(2, 'a'), (2, 'a'), (1, 'b'), (1, 'b')]), label("option"));
}

#[test]
fn missing_required_field_is_rejected_by_name() {
    let missing = |s: &str| Err(DecodeError::MissingField(s.to_string()));
    assert_eq!(decode(&decoder(), vec![(1, 'a'), (2, 'b')]), missing("bytes"));
    assert_eq!(decode(&decoder(), vec![(3, 'c'), (2, 'b')]), missing("number"));
    assert_eq!(decode(&decoder(), vec![(2, 'b')]), missing("number"));
    assert_eq!(decode(&decoder(), Vec::<(usize, char)>::new()), missing("number"));
}

#[test]
fn unknown_key_is_rejected() {
    assert_eq!(decode(&decoder(), vec![(0, 'a')]), Err(DecodeError::UnknownKey(0)));
    assert_eq!(decode(&decoder(), vec![(4, 'a')]), Err(DecodeError::UnknownKey(4)));
    assert_eq!(
        decode(&decoder(), vec![(1, 'a'), (3, 'c'), (usize::MAX, 'z')]),
        Err(DecodeError::UnknownKey(usize::MAX))
    );
}

#[test]
fn first_error_in_the_stream_decides() {
    assert_eq!(
        decode(&decoder(), vec![(9, 'x'), (1, 'a'), (1, 'b')]),
        Err(DecodeError::UnknownKey(9))
    );
    assert_eq!(
        decode(&decoder(), vec![(1, 'a'), (1, 'b'), (9, 'x')]),
        Err(DecodeError::DuplicateField("number".to_string()))
    );
    assert_eq!(
        decode(&decoder(), vec![(3, 'a'), (8, 'x')]),
        Err(DecodeError::UnknownKey(8))
    );
}

#[test]
fn optional_field_is_never_required() {
    let schema = Input {
        ident: "AllOptional".to_string(),
        attrs: StructAttrs { offset: 0 },
        fields: vec![Field {
            label: "maybe".to_string(),
            index: 0,
            skip_serializing_if: Some("always".to_string()),
            ty: "Option<u8>".to_string(),
        }],
        lifetimes: vec![],
    };
    let algorithm = derive_deserialize(&schema);
    assert_eq!(decode(&algorithm, Vec::<(usize, u8)>::new()), Ok(vec![None]));
    assert_eq!(decode(&algorithm, vec![(0, 7u8)]), Ok(vec![Some(7)]));
}

#[test]
fn empty_schema_decodes_the_empty_stream_only() {
    let schema = Input {
        ident: "Empty".to_string(),
        attrs: StructAttrs { offset: 3 },
        fields: vec![],
        lifetimes: vec![],
    };
    let algorithm = derive_deserialize(&schema);
    assert_eq!(decode(&algorithm, Vec::<(usize, u8)>::new()), Ok(vec![]));
    assert_eq!(decode(&algorithm, vec![(3, 1u8)]), Err(DecodeError::UnknownKey(3)));
    let record: Vec<u8> = vec![];
    let out = encode(&derive_serialize(&schema), &record, &vec![]);
    assert_eq!(out.count, 0);
    assert!(out.entries.is_empty());
}

#[test]
fn decoder_is_fed_one_key_at_a_time() {
    let algorithm = decoder();
    let state: Decoder<&str> = Decoder::new(&algorithm);
    assert_eq!(state.accept(3), Ok(2));
    let state = state.store(2, "bytes");
    assert_eq!(state.accept(3), Err(DecodeError::DuplicateField("bytes".to_string())));
    assert_eq!(state.accept(7), Err(DecodeError::UnknownKey(7)));
    assert_eq!(state.accept(2), Ok(1));
    assert_eq!(state.accept(1), Ok(0));
    let state = state.store(0, "number");
    assert_eq!(state.accept(1), Err(DecodeError::DuplicateField("number".to_string())));
    assert_eq!(state.finish(), Ok(vec![Some("number"), None, Some("bytes")]));
}

#[test]
fn decoder_that_read_nothing_misses_the_first_required_field() {
    let algorithm = decoder();
    let state: Decoder<u8> = Decoder::new(&algorithm);
    assert_eq!(state.finish(), Err(DecodeError::MissingField("number".to_string())));
}

#[test]
fn decoder_stops_at_the_first_missing_field_in_field_order() {
    let algorithm = decoder();
    let state: Decoder<u8> = Decoder::new(&algorithm);
    let state = state.store(0, 1);
    assert_eq!(state.finish(), Err(DecodeError::MissingField("bytes".to_string())));
}

#[test]
fn unknown_key_is_reported_without_the_key() {
    assert_eq!(DecodeError::UnknownKey(42).subject(), "inexistent field index");
    assert_eq!(DecodeError::DuplicateField("number".to_string()).subject(), "number");
    assert_eq!(DecodeError::MissingField("bytes".to_string()).subject(), "bytes");
}

#[test]
fn extracted_schema_encodes_and_decodes() {
    let decl = Declaration {
        ident: "Pair".to_string(),
        attrs: vec![Attribute {
            path: "serde_indexed".to_string(),
            items: vec![MetaItem { key: "offset".to_string(), value: Some("0x0A".to_string()) }],
        }],
        generics: vec![],
        data: Data::Struct(Fields::Named(vec![
            FieldDecl { ident: "left".to_string(), attrs: vec![], ty: "u8".to_string() },
            FieldDecl {
                ident: "right".to_string(),
                attrs: vec![Attribute {
                    path: "serde".to_string(),
                    items: vec![MetaItem {
                        key: "skip_serializing_if".to_string(),
                        value: Some("\"is_zero\"".to_string()),
                    }],
                }],
                ty: "u8".to_string(),
            },
        ])),
    };
    let schema = Input::parse(&decl).unwrap();
    assert!(schema.is_well_formed());
    let encoder = derive_serialize(&schema);
    let decoder = derive_deserialize(&schema);
    let record = vec![7u8, 0];
    let skip = evaluate_guards(&encoder, &record, |name: &String, value: &u8| {
        name == "is_zero" && *value == 0
    });
    let out = encode(&encoder, &record, &skip);
    assert_eq!(out.count, 1);
    assert_eq!(out.entries, vec![(10, &7u8)]);
    assert_eq!(decode(&decoder, out.entries), Ok(vec![Some(&7u8), None]));
    let record = vec![7u8, 9];
    let skip = evaluate_guards(&encoder, &record, |name: &String, value: &u8| {
        name == "is_zero" && *value == 0
    });
    let out = encode(&encoder, &record, &skip);
    assert_eq!(out.entries, vec![(10, &7u8), (11, &9u8)]);
    assert_eq!(decode(&decoder, out.entries), Ok(vec![Some(&7u8), Some(&9u8)]));
}
