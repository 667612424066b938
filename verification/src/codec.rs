//! Running the two algorithms.
//!
//! [`encode`] turns a record into entries; [`Decoder`] is the state of a
//! decoding that is fed one key at a time, and [`decode`] feeds it a whole
//! stream. A record is given by position: one value per field, in field order.

use vstd::prelude::*;
use crate::algorithm::{
    CountTerm, CountTermView, DecodeAlgorithm, DecodeAlgorithmView, EmitStep, EmitStepView,
    EncodeAlgorithm, EncodeAlgorithmView, MatchArmView, SlotCheck, SlotCheckView,
};

verus! {

/// Why a stream of entries is not a record.
#[derive(Clone, Debug, PartialEq, Eq)]
pub enum DecodeError {
    /// A key that belongs to no field; holds the key.
    UnknownKey(usize),
    /// A second entry for the field with this label.
    DuplicateField(String),
    /// No entry for the required field with this label.
    MissingField(String),
}

/// The mathematical content of a [`DecodeError`].
pub enum DecodeErrorView {
    UnknownKey(usize),
    DuplicateField(Seq<char>),
    MissingField(Seq<char>),
}

impl View for DecodeError {
    type V = DecodeErrorView;

    open spec fn view(&self) -> DecodeErrorView {
        match self {
            DecodeError::UnknownKey(key) => DecodeErrorView::UnknownKey(*key),
            DecodeError::DuplicateField(label) => DecodeErrorView::DuplicateField(label@),
            DecodeError::MissingField(label) => DecodeErrorView::MissingField(label@),
        }
    }
}

/// What an error is reported under: the label of the field, or for an
/// unknown key a fixed notice that does not hold the key.
pub open spec fn subject_of(error: DecodeErrorView) -> Seq<char> {
    match error {
        DecodeErrorView::UnknownKey(_) => "inexistent field index"@,
        DecodeErrorView::DuplicateField(label) => label,
        DecodeErrorView::MissingField(label) => label,
    }
}

impl DecodeError {
    /// What the error is reported under.
    pub fn subject(&self) -> (text: String)
        ensures
            text@ == subject_of(self@),
    {
        match self {
            DecodeError::UnknownKey(_) => "inexistent field index".to_owned(),
            DecodeError::DuplicateField(label) => label.clone(),
            DecodeError::MissingField(label) => label.clone(),
        }
    }
}

/// Every slot that the algorithm names is a field of a record with `n`
/// fields.
pub open spec fn encode_fits(algorithm: EncodeAlgorithmView, n: nat) -> bool {
    &&& forall|i: int|
        0 <= i < algorithm.count.len() ==> (#[trigger] algorithm.count[i]
            matches CountTermView::Unless { slot, .. } ==> slot < n)
    &&& forall|i: int| 0 <= i < algorithm.steps.len() ==> (#[trigger] algorithm.steps[i]).slot < n
}

impl EncodeAlgorithm {
    /// Whether every slot that the algorithm names is a field of a record
    /// with `n` fields.
    pub fn fits(&self, n: usize) -> (b: bool)
        ensures
            b == encode_fits(self@, n as nat),
    {
        let mut i: usize = 0;
        while i < self.count.len()
            invariant
                i <= self.count.len(),
                forall|k: int|
                    0 <= k < i ==> (#[trigger] self@.count[k] matches CountTermView::Unless {
                        slot,
                        ..
                    } ==> slot < n),
            decreases self.count.len() - i,
        {
            assert(self@.count[i as int] == self.count[i as int]@);
            match &self.count[i] {
                CountTerm::Unless { slot, .. } => {
                    if *slot >= n {
                        return false;
                    }
                },
                CountTerm::Always => {},
            }
            i += 1;
        }
        let mut j: usize = 0;
        while j < self.steps.len()
            invariant
                j <= self.steps.len(),
                forall|k: int|
                    0 <= k < self@.count.len() ==> (#[trigger] self@.count[k]
                        matches CountTermView::Unless { slot, .. } ==> slot < n),
                forall|k: int| 0 <= k < j ==> (#[trigger] self@.steps[k]).slot < n,
            decreases self.steps.len() - j,
        {
            assert(self@.steps[j as int] == self.steps[j as int]@);
            if self.steps[j].slot >= n {
                return false;
            }
            j += 1;
        }
        true
    }
}

/// What one term adds to the entry count. `skip[s]` says whether the skip
/// predicate of the field in slot `s` holds of the field's value.
pub open spec fn term_value(term: CountTermView, skip: Seq<bool>) -> nat {
    match term {
        CountTermView::Always => 1,
        CountTermView::Unless { slot, .. } => if skip[slot as int] {
            0
        } else {
            1
        },
    }
}

/// The sum of the first `upto` terms.
pub open spec fn entry_count(terms: Seq<CountTermView>, upto: int, skip: Seq<bool>) -> nat
    decreases upto,
{
    if upto <= 0 {
        0
    } else {
        entry_count(terms, upto - 1, skip) + term_value(terms[upto - 1], skip)
    }
}

/// Whether a step writes its entry.
pub open spec fn step_emits(step: EmitStepView, skip: Seq<bool>) -> bool {
    step.guard is None || !skip[step.slot as int]
}

/// The entries that the first `upto` steps write, in order.
pub open spec fn emitted<V>(
    steps: Seq<EmitStepView>,
    upto: int,
    record: Seq<V>,
    skip: Seq<bool>,
) -> Seq<(usize, V)>
    decreases upto,
{
    if upto <= 0 {
        Seq::empty()
    } else {
        let step = steps[upto - 1];
        let before = emitted(steps, upto - 1, record, skip);
        if step_emits(step, skip) {
            before.push((step.key, record[step.slot as int]))
        } else {
            before
        }
    }
}

/// Whether `skip` holds, for every slot, what `holds` said of the slot's
/// value under the guard of a step for that slot, and `false` for a slot
/// that no step guards.
pub open spec fn evaluated<V, F: Fn(&String, &V) -> bool>(
    steps: Seq<EmitStep>,
    record: Seq<V>,
    holds: F,
    skip: Seq<bool>,
) -> bool {
    &&& skip.len() == record.len()
    &&& forall|s: int|
        0 <= s < record.len() ==> {
            ||| !(#[trigger] skip[s]) && forall|i: int|
                0 <= i < steps.len() && (#[trigger] steps[i]).slot == s ==> steps[i].guard is None
            ||| exists|i: int|
                0 <= i < steps.len() && (#[trigger] steps[i]).slot == s && steps[i].guard is Some
                    && holds.ensures((&steps[i].guard->0, &record[s]), skip[s])
        }
}

/// Asks `holds` for every guarded step whether the guard holds of the
/// value in the step's slot; the answers are what [`encode`] takes as
/// `skip`.
pub fn evaluate_guards<V, F: Fn(&String, &V) -> bool>(
    algorithm: &EncodeAlgorithm,
    record: &Vec<V>,
    holds: F,
) -> (skip: Vec<bool>)
    requires
        encode_fits(algorithm@, record@.len()),
        forall|name: &String, value: &V| holds.requires((name, value)),
    ensures
        evaluated(algorithm.steps@, record@, holds, skip@),
{
    let mut skip: Vec<bool> = Vec::new();
    let mut s: usize = 0;
    while s < record.len()
        invariant
            s <= record.len(),
            skip@.len() == s,
            forall|t: int| 0 <= t < s ==> !(#[trigger] skip@[t]),
        decreases record.len() - s,
    {
        skip.push(false);
        s += 1;
    }
    let mut i: usize = 0;
    while i < algorithm.steps.len()
        invariant
            i <= algorithm.steps.len(),
            encode_fits(algorithm@, record@.len()),
            forall|name: &String, value: &V| holds.requires((name, value)),
            skip@.len() == record@.len(),
            forall|t: int|
                0 <= t < record@.len() ==> {
                    ||| !(#[trigger] skip@[t]) && forall|k: int|
                        0 <= k < i && (#[trigger] algorithm.steps@[k]).slot == t
                            ==> algorithm.steps@[k].guard is None
                    ||| exists|k: int|
                        0 <= k < i && (#[trigger] algorithm.steps@[k]).slot == t
                            && algorithm.steps@[k].guard is Some && holds.ensures(
                            (&algorithm.steps@[k].guard->0, &record@[t]),
                            skip@[t],
                        )
                },
        decreases algorithm.steps.len() - i,
    {
        let step = &algorithm.steps[i];
        assert(algorithm@.steps[i as int] == step@);
        match &step.guard {
            Some(guard) => {
                let answer = holds(guard, &record[step.slot]);
                skip.set(step.slot, answer);
            },
            None => {},
        }
        i += 1;
    }
    skip
}

/// An encoded record: the number of entries announced before the first one
/// is written, and the entries in the order in which they are written.
#[derive(Clone, Debug, PartialEq, Eq)]
pub struct Encoded<'a, V> {
    pub count: usize,
    pub entries: Vec<(usize, &'a V)>,
}

/// The entries with their values in place of the references to them.
pub open spec fn entry_values<V>(entries: Seq<(usize, &V)>) -> Seq<(usize, V)> {
    entries.map_values(|e: (usize, &V)| (e.0, *e.1))
}

/// Encodes a record. `skip[s]` says whether the skip predicate of the field
/// in slot `s` holds of `record[s]`; where the field has none, it is not
/// looked at.
pub fn encode<'a, V>(algorithm: &EncodeAlgorithm, record: &'a Vec<V>, skip: &Vec<bool>) -> (out:
    Encoded<'a, V>)
    requires
        encode_fits(algorithm@, record@.len()),
        skip@.len() == record@.len(),
    ensures
        out.count == entry_count(algorithm@.count, algorithm@.count.len() as int, skip@),
        entry_values(out.entries@) == emitted(
            algorithm@.steps,
            algorithm@.steps.len() as int,
            record@,
            skip@,
        ),
{
    let mut count: usize = 0;
    let mut i: usize = 0;
    while i < algorithm.count.len()
        invariant
            i <= algorithm.count.len(),
            encode_fits(algorithm@, record@.len()),
            skip@.len() == record@.len(),
            count <= i,
            count == entry_count(algorithm@.count, i as int, skip@),
        decreases algorithm.count.len() - i,
    {
        assert(algorithm@.count[i as int] == algorithm.count[i as int]@);
        match &algorithm.count[i] {
            CountTerm::Always => {
                count += 1;
            },
            CountTerm::Unless { slot, .. } => {
                if !skip[*slot] {
                    count += 1;
                }
            },
        }
        i += 1;
    }
    let mut entries: Vec<(usize, &'a V)> = Vec::new();
    let mut j: usize = 0;
    while j < algorithm.steps.len()
        invariant
            j <= algorithm.steps.len(),
            encode_fits(algorithm@, record@.len()),
            skip@.len() == record@.len(),
            entry_values(entries@) == emitted(algorithm@.steps, j as int, record@, skip@),
        decreases algorithm.steps.len() - j,
    {
        let step = &algorithm.steps[j];
        assert(algorithm@.steps[j as int] == step@);
        if step.guard.is_none() || !skip[step.slot] {
            entries.push((step.key, &record[step.slot]));
        }
        j += 1;
    }
    Encoded { count, entries }
}

/// The algorithm names only slots that it declares, and builds the record
/// from all of them in order.
pub open spec fn decode_wf(algorithm: DecodeAlgorithmView) -> bool {
    let n = algorithm.slots.len();
    &&& forall|a: int| 0 <= a < algorithm.arms.len() ==> (#[trigger] algorithm.arms[a]).slot < n
    &&& forall|c: int|
        0 <= c < algorithm.checks.len() ==> (#[trigger] algorithm.checks[c]
            matches SlotCheckView::Required { slot, .. } ==> slot < n)
    &&& algorithm.output.len() == n
    &&& forall|i: int| 0 <= i < n ==> (#[trigger] algorithm.output[i]).slot == i
}

impl DecodeAlgorithm {
    /// Whether the algorithm names only slots that it declares, and builds
    /// the record from all of them in order.
    pub fn is_well_formed(&self) -> (b: bool)
        ensures
            b == decode_wf(self@),
    {
        let n = self.slots.len();
        if self.output.len() != n {
            return false;
        }
        let mut a: usize = 0;
        while a < self.arms.len()
            invariant
                a <= self.arms.len(),
                n == self@.slots.len(),
                forall|k: int| 0 <= k < a ==> (#[trigger] self@.arms[k]).slot < n,
            decreases self.arms.len() - a,
        {
            assert(self@.arms[a as int] == self.arms[a as int]@);
            if self.arms[a].slot >= n {
                return false;
            }
            a += 1;
        }
        let mut c: usize = 0;
        while c < self.checks.len()
            invariant
                c <= self.checks.len(),
                n == self@.slots.len(),
                forall|k: int|
                    0 <= k < c ==> (#[trigger] self@.checks[k] matches SlotCheckView::Required {
                        slot,
                        ..
                    } ==> slot < n),
            decreases self.checks.len() - c,
        {
            assert(self@.checks[c as int] == self.checks[c as int]@);
            match &self.checks[c] {
                SlotCheck::Required { slot, .. } => {
                    if *slot >= n {
                        return false;
                    }
                },
                SlotCheck::Optional => {},
            }
            c += 1;
        }
        let mut i: usize = 0;
        while i < n
            invariant
                i <= n,
                n == self@.slots.len(),
                n == self@.output.len(),
                forall|k: int| 0 <= k < i ==> (#[trigger] self@.output[k]).slot == k,
            decreases n - i,
        {
            assert(self@.output[i as int] == self.output[i as int]@);
            if self.output[i].slot != i {
                return false;
            }
            i += 1;
        }
        true
    }
}

/// The position of the first arm for `key` at or after `from`.
pub open spec fn find_arm(arms: Seq<MatchArmView>, key: usize, from: int) -> Option<int>
    decreases arms.len() - from,
{
    if from >= arms.len() {
        None
    } else if arms[from].key == key {
        Some(from)
    } else {
        find_arm(arms, key, from + 1)
    }
}

/// The slots of a decoding that has read nothing yet.
pub open spec fn empty_slots<V>(algorithm: DecodeAlgorithmView) -> Seq<Option<V>> {
    Seq::new(algorithm.slots.len(), |i: int| None)
}

/// What is decided on an incoming key: the slot that its value goes to, or
/// the error that ends the decoding.
pub open spec fn accepted<V>(
    algorithm: DecodeAlgorithmView,
    slots: Seq<Option<V>>,
    key: usize,
) -> Result<usize, DecodeErrorView> {
    match find_arm(algorithm.arms, key, 0) {
        None => Err(DecodeErrorView::UnknownKey(key)),
        Some(a) => {
            let arm = algorithm.arms[a];
            if slots[arm.slot as int] is Some {
                Err(DecodeErrorView::DuplicateField(arm.label))
            } else {
                Ok(arm.slot)
            }
        },
    }
}

/// The slots after the first `upto` entries, or the first error among them.
pub open spec fn collected<V>(
    algorithm: DecodeAlgorithmView,
    entries: Seq<(usize, V)>,
    upto: int,
) -> Result<Seq<Option<V>>, DecodeErrorView>
    decreases upto,
{
    if upto <= 0 {
        Ok(empty_slots(algorithm))
    } else {
        match collected(algorithm, entries, upto - 1) {
            Err(e) => Err(e),
            Ok(slots) => {
                let (key, value) = entries[upto - 1];
                match accepted(algorithm, slots, key) {
                    Err(e) => Err(e),
                    Ok(slot) => Ok(slots.update(slot as int, Some(value))),
                }
            },
        }
    }
}

/// Whether a check fails on the slots.
pub open spec fn check_fails<V>(check: SlotCheckView, slots: Seq<Option<V>>) -> bool {
    check matches SlotCheckView::Required { slot, .. } && slots[slot as int] is None
}

/// The position of the first check at or after `from` that fails.
pub open spec fn first_missing<V>(
    checks: Seq<SlotCheckView>,
    slots: Seq<Option<V>>,
    from: int,
) -> Option<int>
    decreases checks.len() - from,
{
    if from >= checks.len() {
        None
    } else if check_fails(checks[from], slots) {
        Some(from)
    } else {
        first_missing(checks, slots, from + 1)
    }
}

/// The record built from the slots once no entry is left, or the first
/// required field that is missing.
pub open spec fn finished<V>(algorithm: DecodeAlgorithmView, slots: Seq<Option<V>>) -> Result<
    Seq<Option<V>>,
    DecodeErrorView,
> {
    match first_missing(algorithm.checks, slots, 0) {
        Some(c) => Err(DecodeErrorView::MissingField(algorithm.checks[c]->label)),
        None => Ok(
            Seq::new(algorithm.output.len(), |i: int| slots[algorithm.output[i].slot as int]),
        ),
    }
}

/// The record that a stream of entries decodes to: `Some` where an entry
/// gave the field its value, `None` where an optional field had none.
pub open spec fn decoded<V>(algorithm: DecodeAlgorithmView, entries: Seq<(usize, V)>) -> Result<
    Seq<Option<V>>,
    DecodeErrorView,
> {
    match collected(algorithm, entries, entries.len() as int) {
        Err(e) => Err(e),
        Ok(slots) => finished(algorithm, slots),
    }
}

/// A decoding under way: one slot per field, empty until the field's entry
/// has been read. It starts out collecting ([`Decoder::new`]); every key is
/// shown to it before its value is read ([`Decoder::accept`]), and an error
/// there ends the decoding; a value that was read is put into its slot
/// ([`Decoder::store`]); when the stream is at its end the decoding is
/// finished ([`Decoder::finish`]), with the record or with an error.
pub struct Decoder<'a, V> {
    algorithm: &'a DecodeAlgorithm,
    slots: Vec<Option<V>>,
}

impl<'a, V> Decoder<'a, V> {
    #[verifier::type_invariant]
    spec fn wf(self) -> bool {
        decode_wf(self.algorithm@) && self.slots@.len() == self.algorithm@.slots.len()
    }

    /// The algorithm that the decoding follows.
    pub closed spec fn algorithm(self) -> DecodeAlgorithmView {
        self.algorithm@
    }

    /// The slots: `Some` where a value was stored.
    pub closed spec fn slots(self) -> Seq<Option<V>> {
        self.slots@
    }

    /// Starts a decoding: every slot is empty.
    pub fn new(algorithm: &'a DecodeAlgorithm) -> (decoder: Self)
        requires
            decode_wf(algorithm@),
        ensures
            decoder.algorithm() == algorithm@,
            decoder.slots() == empty_slots::<V>(algorithm@),
    {
        let mut slots: Vec<Option<V>> = Vec::new();
        let mut i: usize = 0;
        while i < algorithm.slots.len()
            invariant
                i <= algorithm.slots.len(),
                slots.len() == i,
                forall|k: int| 0 <= k < i ==> slots[k] is None,
            decreases algorithm.slots.len() - i,
        {
            slots.push(None);
            i += 1;
        }
        Decoder { algorithm, slots }
    }

    /// Decides on an incoming key. `Ok` holds the slot for the value that
    /// comes with the key; the caller reads the value and stores it there.
    pub fn accept(&self, key: usize) -> (r: Result<usize, DecodeError>)
        ensures
            match r {
                Ok(slot) => accepted(self.algorithm(), self.slots(), key) == Ok::<
                    usize,
                    DecodeErrorView,
                >(slot) && slot < self.slots().len() && self.slots()[slot as int] is None,
                Err(e) => accepted(self.algorithm(), self.slots(), key) == Err::<
                    usize,
                    DecodeErrorView,
                >(e@),
            },
    {
        proof {
            use_type_invariant(self);
        }
        let algorithm = self.algorithm;
        let mut a: usize = 0;
        while a < algorithm.arms.len()
            invariant
                a <= algorithm.arms.len(),
                algorithm == self.algorithm,
                decode_wf(algorithm@),
                self.slots@.len() == algorithm@.slots.len(),
                find_arm(algorithm@.arms, key, 0) == find_arm(algorithm@.arms, key, a as int),
            decreases algorithm.arms.len() - a,
        {
            let arm = &algorithm.arms[a];
            if arm.key == key {
                if self.slots[arm.slot].is_some() {
                    return Err(DecodeError::DuplicateField(arm.label.clone()));
                }
                return Ok(arm.slot);
            }
            a += 1;
        }
        Err(DecodeError::UnknownKey(key))
    }

    /// Puts a value into a slot and gives the decoding back.
    pub fn store(self, slot: usize, value: V) -> (next: Self)
        requires
            slot < self.slots().len(),
        ensures
            next.algorithm() == self.algorithm(),
            next.slots() == self.slots().update(slot as int, Some(value)),
    {
        proof {
            use_type_invariant(&self);
        }
        let Decoder { algorithm, mut slots } = self;
        slots.set(slot, Some(value));
        Decoder { algorithm, slots }
    }

    /// Ends the decoding: no entry is left.
    pub fn finish(self) -> (r: Result<Vec<Option<V>>, DecodeError>)
        ensures
            match r {
                Ok(record) => finished(self.algorithm(), self.slots()) == Ok::<
                    Seq<Option<V>>,
                    DecodeErrorView,
                >(record@),
                Err(e) => finished(self.algorithm(), self.slots()) == Err::<
                    Seq<Option<V>>,
                    DecodeErrorView,
                >(e@),
            },
    {
        proof {
            use_type_invariant(&self);
        }
        let algorithm = self.algorithm;
        let mut c: usize = 0;
        while c < algorithm.checks.len()
            invariant
                c <= algorithm.checks.len(),
                algorithm == self.algorithm,
                decode_wf(algorithm@),
                self.slots@.len() == algorithm@.slots.len(),
                first_missing(algorithm@.checks, self.slots@, 0) == first_missing(
                    algorithm@.checks,
                    self.slots@,
                    c as int,
                ),
            decreases algorithm.checks.len() - c,
        {
            match &algorithm.checks[c] {
                SlotCheck::Required { label, slot } => {
                    if self.slots[*slot].is_none() {
                        return Err(DecodeError::MissingField(label.clone()));
                    }
                },
                SlotCheck::Optional => {},
            }
            c += 1;
        }
        assert(self.slots@ =~= Seq::new(
            algorithm@.output.len(),
            |i: int| self.slots@[algorithm@.output[i].slot as int],
        ));
        Ok(self.slots)
    }
}

/// Decodes a stream of entries, in the order in which they come.
pub fn decode<V>(algorithm: &DecodeAlgorithm, entries: Vec<(usize, V)>) -> (r: Result<
    Vec<Option<V>>,
    DecodeError,
>)
    requires
        decode_wf(algorithm@),
    ensures
        match r {
            Ok(record) => decoded(algorithm@, entries@) == Ok::<Seq<Option<V>>, DecodeErrorView>(
                record@,
            ),
            Err(e) => decoded(algorithm@, entries@) == Err::<Seq<Option<V>>, DecodeErrorView>(e@),
        },
{
    let mut decoder: Decoder<V> = Decoder::new(algorithm);
    let ghost all = entries@;
    for entry in it: entries
        invariant
            it.seq() == all,
            decoder.algorithm() == algorithm@,
            decoder.slots().len() == algorithm@.slots.len(),
            collected(algorithm@, all, it.index() as int) == Ok::<
                Seq<Option<V>>,
                DecodeErrorView,
            >(decoder.slots()),
    {
        let (key, value) = entry;
        match decoder.accept(key) {
            Ok(slot) => {
                decoder = decoder.store(slot, value);
            },
            Err(e) => {
                proof {
                    lemma_collected_error(
                        algorithm@,
                        all,
                        it.index() as int + 1,
                        all.len() as int,
                    );
                }
                return Err(e);
            },
        }
    }
    decoder.finish()
}

/// An error among the first `at` entries is still the result after `upto`.
pub(crate) proof fn lemma_collected_error<V>(
    algorithm: DecodeAlgorithmView,
    entries: Seq<(usize, V)>,
    at: int,
    upto: int,
)
    requires
        at <= upto,
        collected(algorithm, entries, at) is Err,
    ensures
        collected(algorithm, entries, upto) == collected(algorithm, entries, at),
    decreases upto - at,
{
    if at < upto {
        lemma_collected_error(algorithm, entries, at, upto - 1);
    }
}

} // verus!
