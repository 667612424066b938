//! What holds of every schema, every record and every stream of entries.
//!
//! The laws speak of the algorithms that a schema gives
//! ([`encode_algorithm`], [`decode_algorithm`]) and of what running them
//! means ([`emitted`], [`decoded`]).

use vstd::prelude::*;
use crate::algorithm::{
    decode_algorithm, emit_step, encode_algorithm, key_of, match_arm, schema_wf, slot_check,
};
use crate::codec::{
    accepted, check_fails, collected, decode_wf, decoded, emitted, empty_slots, encode_fits,
    entry_count, find_arm, finished, first_missing, lemma_collected_error, step_emits,
    DecodeErrorView,
};
use crate::parse::{
    in_order, lemma_fields_schema_in_order, schema_of, Data, Declaration, Fields, InputView,
    Readings,
};

verus! {

/// Whether `key` is the key of a field of the schema.
pub open spec fn is_key(schema: InputView, key: usize) -> bool {
    schema.attrs.offset <= key < schema.attrs.offset + schema.fields.len()
}

/// The first `upto` entries have keys of the schema only.
pub open spec fn keys_known<V>(schema: InputView, entries: Seq<(usize, V)>, upto: int) -> bool {
    forall|j: int| 0 <= j < upto ==> is_key(schema, (#[trigger] entries[j]).0)
}

/// The keys of the first `upto` entries rise from each entry to the next.
pub open spec fn keys_rise<V>(entries: Seq<(usize, V)>, upto: int) -> bool {
    forall|i: int, j: int|
        0 <= i < j < upto ==> (#[trigger] entries[i]).0 < (#[trigger] entries[j]).0
}

/// No two of the first `upto` entries have the same key.
pub open spec fn keys_distinct<V>(entries: Seq<(usize, V)>, upto: int) -> bool {
    forall|i: int, j: int|
        0 <= i < j < upto ==> (#[trigger] entries[i]).0 != (#[trigger] entries[j]).0
}

/// The value that comes with `key` among the first `upto` entries.
pub open spec fn lookup<V>(entries: Seq<(usize, V)>, upto: int, key: usize) -> Option<V>
    decreases upto,
{
    if upto <= 0 {
        None
    } else if entries[upto - 1].0 == key {
        Some(entries[upto - 1].1)
    } else {
        lookup(entries, upto - 1, key)
    }
}

/// Whether encoding writes the field at position `s`.
pub open spec fn written(schema: InputView, skip: Seq<bool>, s: int) -> bool {
    schema.fields[s].skip_serializing_if is None || !skip[s]
}

/// The entries that encoding a record gives.
pub open spec fn encoded<V>(schema: InputView, record: Seq<V>, skip: Seq<bool>) -> Seq<
    (usize, V),
> {
    emitted(encode_algorithm(schema).steps, schema.fields.len() as int, record, skip)
}

/// The slots after the first `upto` entries with known and distinct keys.
pub open spec fn slots_of<V>(schema: InputView, entries: Seq<(usize, V)>, upto: int) -> Seq<
    Option<V>,
> {
    Seq::new(
        schema.fields.len(),
        |s: int| lookup(entries, upto, (schema.attrs.offset + s) as usize),
    )
}

proof fn lemma_lookup_none<V>(entries: Seq<(usize, V)>, upto: int, key: usize)
    requires
        forall|j: int| 0 <= j < upto ==> (#[trigger] entries[j]).0 != key,
    ensures
        lookup(entries, upto, key) is None,
    decreases upto,
{
    if upto > 0 {
        lemma_lookup_none(entries, upto - 1, key);
    }
}

proof fn lemma_lookup_some<V>(entries: Seq<(usize, V)>, upto: int, j: int)
    requires
        0 <= j < upto,
        keys_distinct(entries, upto),
    ensures
        lookup(entries, upto, entries[j].0) == Some(entries[j].1),
    decreases upto,
{
    if j < upto - 1 {
        lemma_lookup_some(entries, upto - 1, j);
    }
}

proof fn lemma_lookup_found<V>(entries: Seq<(usize, V)>, upto: int, key: usize) -> (j: int)
    requires
        lookup(entries, upto, key) is Some,
    ensures
        0 <= j < upto,
        entries[j].0 == key,
        lookup(entries, upto, key) == Some(entries[j].1),
    decreases upto,
{
    if entries[upto - 1].0 == key {
        upto - 1
    } else {
        lemma_lookup_found(entries, upto - 1, key)
    }
}

proof fn lemma_lookup_same<V>(a: Seq<(usize, V)>, b: Seq<(usize, V)>, upto: int, key: usize)
    requires
        forall|j: int| 0 <= j < upto ==> a[j] == b[j],
    ensures
        lookup(a, upto, key) == lookup(b, upto, key),
    decreases upto,
{
    if upto > 0 {
        lemma_lookup_same(a, b, upto - 1, key);
    }
}

/// Well-formed algorithms: the algorithms that a schema gives name only
/// slots of the record, so they can be run on every record of the schema.
pub proof fn law_algorithms_well_formed(schema: InputView)
    requires
        schema_wf(schema),
    ensures
        encode_fits(encode_algorithm(schema), schema.fields.len()),
        decode_wf(decode_algorithm(schema)),
        decode_algorithm(schema).slots.len() == schema.fields.len(),
{
}

proof fn lemma_find_arm(schema: InputView, key: usize, from: int)
    requires
        schema_wf(schema),
        0 <= from <= schema.fields.len(),
    ensures
        find_arm(decode_algorithm(schema).arms, key, from) == (if schema.attrs.offset + from
            <= key < schema.attrs.offset + schema.fields.len() {
            Some(key - schema.attrs.offset)
        } else {
            None::<int>
        }),
    decreases schema.fields.len() - from,
{
    if from < schema.fields.len() {
        lemma_find_arm(schema, key, from + 1);
    }
}

proof fn lemma_accepted<V>(schema: InputView, slots: Seq<Option<V>>, key: usize)
    requires
        schema_wf(schema),
        slots.len() == schema.fields.len(),
    ensures
        accepted(decode_algorithm(schema), slots, key) == (if !is_key(schema, key) {
            Err::<usize, DecodeErrorView>(DecodeErrorView::UnknownKey(key))
        } else if slots[key - schema.attrs.offset] is Some {
            Err(DecodeErrorView::DuplicateField(schema.fields[key - schema.attrs.offset].label))
        } else {
            Ok((key - schema.attrs.offset) as usize)
        }),
{
    lemma_find_arm(schema, key, 0);
    if is_key(schema, key) {
        let s = key - schema.attrs.offset;
        assert(decode_algorithm(schema).arms[s] == match_arm(
            schema.fields[s],
            schema.attrs.offset,
        ));
    }
}

/// Entries with known and distinct keys are collected without error, each
/// value in the slot of its key.
proof fn lemma_collected_ok<V>(schema: InputView, entries: Seq<(usize, V)>, upto: int)
    requires
        schema_wf(schema),
        0 <= upto <= entries.len(),
        keys_known(schema, entries, upto),
        keys_distinct(entries, upto),
    ensures
        collected(decode_algorithm(schema), entries, upto) == Ok::<
            Seq<Option<V>>,
            DecodeErrorView,
        >(slots_of(schema, entries, upto)),
    decreases upto,
{
    let algorithm = decode_algorithm(schema);
    if upto <= 0 {
        assert(empty_slots::<V>(algorithm) =~= slots_of(schema, entries, upto));
    } else {
        lemma_collected_ok(schema, entries, upto - 1);
        let before = slots_of(schema, entries, upto - 1);
        let (key, value) = entries[upto - 1];
        let s = key - schema.attrs.offset;
        lemma_accepted(schema, before, key);
        lemma_lookup_none(entries, upto - 1, key);
        let after = slots_of(schema, entries, upto);
        assert forall|t: int| 0 <= t < schema.fields.len() implies before.update(
            s,
            Some(value),
        )[t] == after[t] by {
            assert(key_of(schema.fields[t], schema.attrs.offset) == schema.attrs.offset + t);
        }
        assert(before.update(s, Some(value)) =~= after);
    }
}

/// Entries that are collected without error have known and distinct keys.
proof fn lemma_collected_keys<V>(schema: InputView, entries: Seq<(usize, V)>, upto: int)
    requires
        schema_wf(schema),
        0 <= upto <= entries.len(),
        collected(decode_algorithm(schema), entries, upto) is Ok,
    ensures
        keys_known(schema, entries, upto),
        keys_distinct(entries, upto),
    decreases upto,
{
    if upto > 0 {
        lemma_collected_keys(schema, entries, upto - 1);
        lemma_collected_ok(schema, entries, upto - 1);
        let before = slots_of(schema, entries, upto - 1);
        let (key, value) = entries[upto - 1];
        lemma_accepted(schema, before, key);
        assert forall|i: int| 0 <= i < upto - 1 implies (#[trigger] entries[i]).0 != key by {
            if entries[i].0 == key {
                lemma_lookup_some(entries, upto - 1, i);
            }
        }
    }
}

/// Whether the field at position `s` is required and its slot empty.
pub open spec fn missing<V>(schema: InputView, slots: Seq<Option<V>>, s: int) -> bool {
    schema.fields[s].skip_serializing_if is None && slots[s] is None
}

proof fn lemma_first_missing<V>(schema: InputView, slots: Seq<Option<V>>, from: int, i: int)
    requires
        schema_wf(schema),
        slots.len() == schema.fields.len(),
        0 <= from <= i <= schema.fields.len(),
        forall|t: int| from <= t < i ==> !missing(schema, slots, t),
        i < schema.fields.len() ==> missing(schema, slots, i),
    ensures
        first_missing(decode_algorithm(schema).checks, slots, from) == (if i
            < schema.fields.len() {
            Some(i)
        } else {
            None::<int>
        }),
    decreases schema.fields.len() - from,
{
    if from < schema.fields.len() {
        let check = decode_algorithm(schema).checks[from];
        assert(check_fails(check, slots) == missing(schema, slots, from));
        if from < i {
            lemma_first_missing(schema, slots, from + 1, i);
        }
    }
}

/// Where the first missing required field is at position `i`, finishing
/// fails and names it; where none is missing, the slots are the record.
proof fn lemma_finished<V>(schema: InputView, slots: Seq<Option<V>>, i: int)
    requires
        schema_wf(schema),
        slots.len() == schema.fields.len(),
        0 <= i <= schema.fields.len(),
        forall|t: int| 0 <= t < i ==> !missing(schema, slots, t),
        i < schema.fields.len() ==> missing(schema, slots, i),
    ensures
        finished(decode_algorithm(schema), slots) == (if i < schema.fields.len() {
            Err::<Seq<Option<V>>, DecodeErrorView>(
                DecodeErrorView::MissingField(schema.fields[i].label),
            )
        } else {
            Ok(slots)
        }),
{
    let algorithm = decode_algorithm(schema);
    lemma_first_missing(schema, slots, 0, i);
    if i >= schema.fields.len() {
        assert(Seq::new(algorithm.output.len(), |t: int| slots[algorithm.output[t].slot as int])
            =~= slots);
    }
}

/// What the first `upto` steps of encoding write: at most one entry per
/// field, under the field's key, in rising order of keys.
proof fn lemma_emitted<V>(schema: InputView, record: Seq<V>, skip: Seq<bool>, upto: int)
    requires
        schema_wf(schema),
        record.len() == schema.fields.len(),
        skip.len() == schema.fields.len(),
        0 <= upto <= schema.fields.len(),
    ensures
        ({
            let algorithm = encode_algorithm(schema);
            let entries = emitted(algorithm.steps, upto, record, skip);
            &&& entries.len() == entry_count(algorithm.count, upto, skip)
            &&& entries.len() <= upto
            &&& forall|j: int|
                0 <= j < entries.len() ==> schema.attrs.offset <= (#[trigger] entries[j]).0
                    < schema.attrs.offset + upto
            &&& keys_rise(entries, entries.len() as int)
            &&& forall|s: int|
                0 <= s < schema.fields.len() ==> #[trigger] lookup(
                    entries,
                    entries.len() as int,
                    (schema.attrs.offset + s) as usize,
                ) == (if s < upto && written(schema, skip, s) {
                    Some(record[s])
                } else {
                    None
                })
        }),
    decreases upto,
{
    let algorithm = encode_algorithm(schema);
    let entries = emitted(algorithm.steps, upto, record, skip);
    if upto > 0 {
        lemma_emitted(schema, record, skip, upto - 1);
        let before = emitted(algorithm.steps, upto - 1, record, skip);
        assert forall|s: int| 0 <= s < schema.fields.len() implies #[trigger] lookup(
            entries,
            entries.len() as int,
            (schema.attrs.offset + s) as usize,
        ) == (if s < upto && written(schema, skip, s) {
            Some(record[s])
        } else {
            None
        }) by {
            let key = (schema.attrs.offset + s) as usize;
            lemma_lookup_same(entries, before, before.len() as int, key);
        }
    }
}

/// Positions: in the schema of a declaration, whatever was read of its
/// values, every field's index is its place in the declaration.
pub proof fn law_positions_in_order(decl: Declaration, readings: Readings)
    ensures
        schema_of(decl, readings) matches Ok(schema) ==> in_order(schema.fields),
{
    match decl.data {
        Data::Struct(Fields::Named(named)) => {
            assert(named@.len() == named.len());
            lemma_fields_schema_in_order(named@, readings.predicates, named@.len() as int);
        },
        _ => {},
    }
}

/// Key assignment: the field at position `i` has the key `offset + i`, in
/// the schema and in both of its algorithms.
pub proof fn law_key_assignment(schema: InputView, i: int)
    requires
        schema_wf(schema),
        0 <= i < schema.fields.len(),
    ensures
        key_of(schema.fields[i], schema.attrs.offset) == schema.attrs.offset + i,
        encode_algorithm(schema).steps[i].key == schema.attrs.offset + i,
        decode_algorithm(schema).arms[i].key == schema.attrs.offset + i,
{
}

/// Distinct keys: two fields of one schema never have the same key.
pub proof fn law_keys_distinct(schema: InputView, i: int, j: int)
    requires
        schema_wf(schema),
        0 <= i < schema.fields.len(),
        0 <= j < schema.fields.len(),
        i != j,
    ensures
        key_of(schema.fields[i], schema.attrs.offset) != key_of(
            schema.fields[j],
            schema.attrs.offset,
        ),
        encode_algorithm(schema).steps[i].key != encode_algorithm(schema).steps[j].key,
        decode_algorithm(schema).arms[i].key != decode_algorithm(schema).arms[j].key,
{
}

/// Offset shift: two schemas with the same fields differ in every key by
/// the difference of their offsets.
pub proof fn law_offset_shift(schema: InputView, shifted: InputView, i: int)
    requires
        schema_wf(schema),
        schema_wf(shifted),
        shifted.fields == schema.fields,
        0 <= i < schema.fields.len(),
    ensures
        encode_algorithm(shifted).steps[i].key - encode_algorithm(schema).steps[i].key
            == shifted.attrs.offset - schema.attrs.offset,
        decode_algorithm(shifted).arms[i].key - decode_algorithm(schema).arms[i].key
            == shifted.attrs.offset - schema.attrs.offset,
{
}

/// Exact count and key range: the announced count is the number of entries
/// written, every entry has the key of a field, and the keys rise from each
/// entry to the next, so that no key comes twice.
pub proof fn law_encoded_entries<V>(schema: InputView, record: Seq<V>, skip: Seq<bool>)
    requires
        schema_wf(schema),
        record.len() == schema.fields.len(),
        skip.len() == schema.fields.len(),
    ensures
        entry_count(encode_algorithm(schema).count, schema.fields.len() as int, skip)
            == encoded(schema, record, skip).len(),
        keys_known(
            schema,
            encoded(schema, record, skip),
            encoded(schema, record, skip).len() as int,
        ),
        keys_rise(encoded(schema, record, skip), encoded(schema, record, skip).len() as int),
        keys_distinct(
            encoded(schema, record, skip),
            encoded(schema, record, skip).len() as int,
        ),
{
    lemma_emitted(schema, record, skip, schema.fields.len() as int);
}

/// The record that comes back: decoding what encoding wrote succeeds, and
/// gives every written field its value and every field left out `None`.
pub proof fn law_decode_encoded<V>(schema: InputView, record: Seq<V>, skip: Seq<bool>)
    requires
        schema_wf(schema),
        record.len() == schema.fields.len(),
        skip.len() == schema.fields.len(),
    ensures
        decoded(decode_algorithm(schema), encoded(schema, record, skip)) == Ok::<
            Seq<Option<V>>,
            DecodeErrorView,
        >(
            Seq::new(
                schema.fields.len(),
                |s: int|
                    if written(schema, skip, s) {
                        Some(record[s])
                    } else {
                        None
                    },
            ),
        ),
{
    let n = schema.fields.len() as int;
    let entries = encoded(schema, record, skip);
    let expected = Seq::new(
        schema.fields.len(),
        |s: int|
            if written(schema, skip, s) {
                Some(record[s])
            } else {
                None
            },
    );
    lemma_emitted(schema, record, skip, n);
    lemma_collected_ok(schema, entries, entries.len() as int);
    let slots = slots_of(schema, entries, entries.len() as int);
    assert(slots =~= expected);
    lemma_finished(schema, slots, n);
}

/// Round trip: where no skip predicate holds, decoding what encoding wrote
/// gives the record back, every field present.
pub proof fn law_round_trip<V>(schema: InputView, record: Seq<V>, skip: Seq<bool>)
    requires
        schema_wf(schema),
        record.len() == schema.fields.len(),
        skip.len() == schema.fields.len(),
        forall|s: int|
            0 <= s < schema.fields.len() && (#[trigger] schema.fields[s]).skip_serializing_if
                is Some ==> !skip[s],
    ensures
        decoded(decode_algorithm(schema), encoded(schema, record, skip)) == Ok::<
            Seq<Option<V>>,
            DecodeErrorView,
        >(record.map_values(|v: V| Some(v))),
{
    law_decode_encoded(schema, record, skip);
    assert(record.map_values(|v: V| Some(v)) =~= Seq::new(
        schema.fields.len(),
        |s: int|
            if written(schema, skip, s) {
                Some(record[s])
            } else {
                None
            },
    ));
}

/// Omission: where the skip predicate of the field at position `i` holds,
/// no entry has the field's key, and decoding gives the field `None`.
pub proof fn law_omission<V>(schema: InputView, record: Seq<V>, skip: Seq<bool>, i: int)
    requires
        schema_wf(schema),
        record.len() == schema.fields.len(),
        skip.len() == schema.fields.len(),
        0 <= i < schema.fields.len(),
        schema.fields[i].skip_serializing_if is Some,
        skip[i],
    ensures
        forall|j: int|
            0 <= j < encoded(schema, record, skip).len() ==> (#[trigger] encoded(
                schema,
                record,
                skip,
            )[j]).0 != schema.attrs.offset + i,
        decoded(decode_algorithm(schema), encoded(schema, record, skip)) matches Ok(back)
            && back.len() == schema.fields.len() && back[i] is None,
{
    let entries = encoded(schema, record, skip);
    let key = (schema.attrs.offset + i) as usize;
    lemma_emitted(schema, record, skip, schema.fields.len() as int);
    assert forall|j: int| 0 <= j < entries.len() implies (#[trigger] entries[j]).0
        != schema.attrs.offset + i by {
        if entries[j].0 == key {
            lemma_lookup_some(entries, entries.len() as int, j);
        }
    }
    law_decode_encoded(schema, record, skip);
}

proof fn lemma_duplicate<V>(schema: InputView, entries: Seq<(usize, V)>, i: int, j: int)
    requires
        schema_wf(schema),
        0 <= i < j < entries.len(),
        entries[i].0 == entries[j].0,
        keys_known(schema, entries, j),
    ensures
        collected(decode_algorithm(schema), entries, j + 1) matches Err(
            DecodeErrorView::DuplicateField(_),
        ),
        keys_distinct(entries, j) ==> collected(decode_algorithm(schema), entries, j + 1) == Err::<
            Seq<Option<V>>,
            DecodeErrorView,
        >(
            DecodeErrorView::DuplicateField(
                schema.fields[entries[j].0 - schema.attrs.offset].label,
            ),
        ),
    decreases j,
{
    let algorithm = decode_algorithm(schema);
    if keys_distinct(entries, j) {
        lemma_collected_ok(schema, entries, j);
        lemma_lookup_some(entries, j, i);
        lemma_accepted(schema, slots_of(schema, entries, j), entries[j].0);
    } else {
        let (a, b) = choose|a: int, b: int|
            0 <= a < b < j && (#[trigger] entries[a]).0 == (#[trigger] entries[b]).0;
        lemma_duplicate(schema, entries, a, b);
        lemma_collected_error(algorithm, entries, b + 1, j + 1);
    }
}

proof fn lemma_unknown<V>(schema: InputView, entries: Seq<(usize, V)>, j: int)
    requires
        schema_wf(schema),
        0 <= j < entries.len(),
        !is_key(schema, entries[j].0),
        keys_distinct(entries, j),
    ensures
        collected(decode_algorithm(schema), entries, j + 1) matches Err(
            DecodeErrorView::UnknownKey(_),
        ),
        keys_known(schema, entries, j) ==> collected(decode_algorithm(schema), entries, j + 1)
            == Err::<Seq<Option<V>>, DecodeErrorView>(DecodeErrorView::UnknownKey(entries[j].0)),
    decreases j,
{
    let algorithm = decode_algorithm(schema);
    if keys_known(schema, entries, j) {
        lemma_collected_ok(schema, entries, j);
        lemma_accepted(schema, slots_of(schema, entries, j), entries[j].0);
    } else {
        let i = choose|i: int| 0 <= i < j && !is_key(schema, (#[trigger] entries[i]).0);
        lemma_unknown(schema, entries, i);
        lemma_collected_error(algorithm, entries, i + 1, j + 1);
    }
}

/// Duplicate rejection: a stream in which the key at position `j` has come
/// before, and which has no unknown key before `j`, fails with
/// `DuplicateField`. Where `j` is the first such position, the error names
/// the field of that key.
pub proof fn law_duplicate_rejected<V>(
    schema: InputView,
    entries: Seq<(usize, V)>,
    i: int,
    j: int,
)
    requires
        schema_wf(schema),
        0 <= i < j < entries.len(),
        entries[i].0 == entries[j].0,
        keys_known(schema, entries, j),
    ensures
        decoded(decode_algorithm(schema), entries) matches Err(DecodeErrorView::DuplicateField(_)),
        keys_distinct(entries, j) ==> decoded(decode_algorithm(schema), entries) == Err::<
            Seq<Option<V>>,
            DecodeErrorView,
        >(
            DecodeErrorView::DuplicateField(
                schema.fields[entries[j].0 - schema.attrs.offset].label,
            ),
        ),
{
    lemma_duplicate(schema, entries, i, j);
    lemma_collected_error(decode_algorithm(schema), entries, j + 1, entries.len() as int);
}

/// Unknown-key rejection: a stream with a key at position `j` that belongs
/// to no field, and with no key twice before `j`, fails with `UnknownKey`.
/// Where `j` is the first such position, the error holds that key.
pub proof fn law_unknown_key_rejected<V>(schema: InputView, entries: Seq<(usize, V)>, j: int)
    requires
        schema_wf(schema),
        0 <= j < entries.len(),
        !is_key(schema, entries[j].0),
        keys_distinct(entries, j),
    ensures
        decoded(decode_algorithm(schema), entries) matches Err(DecodeErrorView::UnknownKey(_)),
        keys_known(schema, entries, j) ==> decoded(decode_algorithm(schema), entries) == Err::<
            Seq<Option<V>>,
            DecodeErrorView,
        >(DecodeErrorView::UnknownKey(entries[j].0)),
{
    lemma_unknown(schema, entries, j);
    lemma_collected_error(decode_algorithm(schema), entries, j + 1, entries.len() as int);
}

/// Whether the stream has an entry for the field at position `s`.
pub open spec fn present<V>(schema: InputView, entries: Seq<(usize, V)>, s: int) -> bool {
    exists|j: int| 0 <= j < entries.len() && (#[trigger] entries[j]).0 == schema.attrs.offset + s
}

/// Missing-required rejection: a stream of known keys, none twice, without
/// an entry for the required field at position `i`, and with one for every
/// required field before it, fails with `MissingField` naming that field.
pub proof fn law_missing_rejected<V>(schema: InputView, entries: Seq<(usize, V)>, i: int)
    requires
        schema_wf(schema),
        keys_known(schema, entries, entries.len() as int),
        keys_distinct(entries, entries.len() as int),
        0 <= i < schema.fields.len(),
        schema.fields[i].skip_serializing_if is None,
        !present(schema, entries, i),
        forall|t: int|
            0 <= t < i && (#[trigger] schema.fields[t]).skip_serializing_if is None ==> present(
                schema,
                entries,
                t,
            ),
    ensures
        decoded(decode_algorithm(schema), entries) == Err::<Seq<Option<V>>, DecodeErrorView>(
            DecodeErrorView::MissingField(schema.fields[i].label),
        ),
{
    let len = entries.len() as int;
    lemma_collected_ok(schema, entries, len);
    let slots = slots_of(schema, entries, len);
    lemma_lookup_none(entries, len, (schema.attrs.offset + i) as usize);
    assert forall|t: int| 0 <= t < i implies !missing(schema, slots, t) by {
        if schema.fields[t].skip_serializing_if is None {
            let j = choose|j: int|
                0 <= j < entries.len() && (#[trigger] entries[j]).0 == schema.attrs.offset + t;
            lemma_lookup_some(entries, len, j);
        }
    }
    lemma_finished(schema, slots, i);
}

proof fn lemma_same_multiset_index<V>(a: Seq<(usize, V)>, b: Seq<(usize, V)>, j: int) -> (i: int)
    requires
        a.to_multiset() == b.to_multiset(),
        0 <= j < b.len(),
    ensures
        0 <= i < a.len(),
        a[i] == b[j],
{
    a.to_multiset_ensures();
    b.to_multiset_ensures();
    assert(a.to_multiset().count(b[j]) > 0);
    choose|i: int| 0 <= i < a.len() && a[i] == b[j]
}

proof fn lemma_permuted_keys<V>(schema: InputView, first: Seq<(usize, V)>, second: Seq<(usize, V)>)
    requires
        first.to_multiset() == second.to_multiset(),
        keys_known(schema, first, first.len() as int),
        keys_distinct(first, first.len() as int),
    ensures
        keys_known(schema, second, second.len() as int),
        keys_distinct(second, second.len() as int),
{
    assert forall|j: int| 0 <= j < second.len() implies is_key(
        schema,
        (#[trigger] second[j]).0,
    ) by {
        lemma_same_multiset_index(first, second, j);
    }
    assert(first.no_duplicates());
    first.lemma_multiset_has_no_duplicates();
    second.lemma_multiset_has_no_duplicates_conv();
    assert forall|a: int, b: int| 0 <= a < b < second.len() implies (#[trigger] second[a]).0 != (
    #[trigger] second[b]).0 by {
        let ia = lemma_same_multiset_index(first, second, a);
        let ib = lemma_same_multiset_index(first, second, b);
        assert(second[a] != second[b]);
        assert(ia != ib);
    }
}

proof fn lemma_permuted_lookup<V>(first: Seq<(usize, V)>, second: Seq<(usize, V)>, key: usize)
    requires
        first.to_multiset() == second.to_multiset(),
        keys_distinct(first, first.len() as int),
        keys_distinct(second, second.len() as int),
    ensures
        lookup(second, second.len() as int, key) == lookup(first, first.len() as int, key),
{
    if lookup(first, first.len() as int, key) is Some {
        let i = lemma_lookup_found(first, first.len() as int, key);
        let j = lemma_same_multiset_index(second, first, i);
        lemma_lookup_some(second, second.len() as int, j);
    } else if lookup(second, second.len() as int, key) is Some {
        let j = lemma_lookup_found(second, second.len() as int, key);
        let i = lemma_same_multiset_index(first, second, j);
        lemma_lookup_some(first, first.len() as int, i);
    }
}

/// Order independence: two streams with the same entries, whose keys are
/// known and come once each, decode to the same result, in whatever order
/// each presents them.
pub proof fn law_order_independent<V>(
    schema: InputView,
    first: Seq<(usize, V)>,
    second: Seq<(usize, V)>,
)
    requires
        schema_wf(schema),
        first.to_multiset() == second.to_multiset(),
        keys_known(schema, first, first.len() as int),
        keys_distinct(first, first.len() as int),
    ensures
        decoded(decode_algorithm(schema), second) == decoded(decode_algorithm(schema), first),
{
    lemma_permuted_keys(schema, first, second);
    lemma_collected_ok(schema, first, first.len() as int);
    lemma_collected_ok(schema, second, second.len() as int);
    let a = slots_of(schema, first, first.len() as int);
    let b = slots_of(schema, second, second.len() as int);
    assert forall|s: int| 0 <= s < schema.fields.len() implies a[s] == b[s] by {
        lemma_permuted_lookup(first, second, (schema.attrs.offset + s) as usize);
    }
    assert(a =~= b);
}

/// The position of the first missing required field at or after `from`, or
/// the number of fields where there is none.
spec fn first_missing_position<V>(
    schema: InputView,
    slots: Seq<Option<V>>,
    from: int,
) -> int
    decreases schema.fields.len() - from,
{
    if from >= schema.fields.len() {
        schema.fields.len() as int
    } else if missing(schema, slots, from) {
        from
    } else {
        first_missing_position(schema, slots, from + 1)
    }
}

proof fn lemma_first_missing_position<V>(schema: InputView, slots: Seq<Option<V>>, from: int)
    requires
        0 <= from <= schema.fields.len(),
    ensures
        ({
            let i = first_missing_position(schema, slots, from);
            &&& from <= i <= schema.fields.len()
            &&& forall|t: int| from <= t < i ==> !missing(schema, slots, t)
            &&& i < schema.fields.len() ==> missing(schema, slots, i)
        }),
    decreases schema.fields.len() - from,
{
    if from < schema.fields.len() && !missing(schema, slots, from) {
        lemma_first_missing_position(schema, slots, from + 1);
    }
}

/// A stream decodes to a record exactly when its keys are known, come once
/// each, and no required field is left without an entry.
pub proof fn law_decodes<V>(schema: InputView, entries: Seq<(usize, V)>)
    requires
        schema_wf(schema),
    ensures
        decoded(decode_algorithm(schema), entries) is Ok <==> {
            &&& keys_known(schema, entries, entries.len() as int)
            &&& keys_distinct(entries, entries.len() as int)
            &&& forall|s: int|
                0 <= s < schema.fields.len() && (#[trigger] schema.fields[s]).skip_serializing_if
                    is None ==> present(schema, entries, s)
        },
        decoded(decode_algorithm(schema), entries) matches Ok(record) ==> record == slots_of(
            schema,
            entries,
            entries.len() as int,
        ),
{
    let len = entries.len() as int;
    let n = schema.fields.len() as int;
    if collected(decode_algorithm(schema), entries, len) is Ok {
        lemma_collected_keys(schema, entries, len);
    }
    if keys_known(schema, entries, len) && keys_distinct(entries, len) {
        lemma_collected_ok(schema, entries, len);
        let slots = slots_of(schema, entries, len);
        assert forall|s: int| 0 <= s < n implies (#[trigger] slots[s] is Some <==> present(
            schema,
            entries,
            s,
        )) by {
            let key = (schema.attrs.offset + s) as usize;
            assert(key_of(schema.fields[s], schema.attrs.offset) == schema.attrs.offset + s);
            if slots[s] is Some {
                lemma_lookup_found(entries, len, key);
            } else if present(schema, entries, s) {
                let j = choose|j: int|
                    0 <= j < entries.len() && (#[trigger] entries[j]).0 == schema.attrs.offset
                        + s;
                lemma_lookup_some(entries, len, j);
            }
        }
        let i = first_missing_position(schema, slots, 0);
        lemma_first_missing_position(schema, slots, 0);
        lemma_finished(schema, slots, i);
        if i >= n {
            assert forall|s: int|
                0 <= s < n && (#[trigger] schema.fields[s]).skip_serializing_if
                    is None implies present(schema, entries, s) by {
                assert(!missing(schema, slots, s));
            }
        }
    }
}

} // verus!
