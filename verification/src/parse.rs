//! The schema of a record type and its extraction from a declaration.
//!
//! A [`Declaration`] is what the host language reports of a record type:
//! names, shapes and the text of attribute values. [`Input::parse`] turns it
//! into the schema, or says why it cannot. Entries are read in the order in
//! which they are written, and the first one that is wrong decides the error.
//!
//! What the text of a value denotes is asked of `syn`, and nothing is known
//! here of its answers. So the schema is stated as a function of the
//! declaration and of the answers ([`Readings`]), and the functions that ask
//! say that their result is the one that some answers give.

use vstd::prelude::*;
use vstd::string::StringExecFns;
use crate::syntax::{check_expr_path, check_token_text, parse_int_literal, parse_str_literal};

verus! {

/// One entry between the parentheses of an attribute: `key` or `key = value`.
#[derive(Clone, Debug, PartialEq, Eq)]
pub struct MetaItem {
    /// The path before the `=`, as written.
    pub key: String,
    /// The tokens after the `=`, as written; `None` where there is no `=`.
    pub value: Option<String>,
}

/// An attribute `#[path(items)]`.
#[derive(Clone, Debug, PartialEq, Eq)]
pub struct Attribute {
    pub path: String,
    pub items: Vec<MetaItem>,
}

/// A generic parameter of the declared type, by kind, with its name.
#[derive(Clone, Debug, PartialEq, Eq)]
pub enum GenericParam {
    Lifetime(String),
    Type(String),
    Const(String),
}

/// A named field as declared.
#[derive(Clone, Debug, PartialEq, Eq)]
pub struct FieldDecl {
    pub ident: String,
    pub attrs: Vec<Attribute>,
    /// The field's type, as written.
    pub ty: String,
}

/// The fields of a struct.
#[derive(Clone, Debug, PartialEq, Eq)]
pub enum Fields {
    Named(Vec<FieldDecl>),
    Unnamed,
    Unit,
}

/// The body of a declared type.
#[derive(Clone, Debug, PartialEq, Eq)]
pub enum Data {
    Struct(Fields),
    Enum,
    Union,
}

/// A type declaration.
#[derive(Clone, Debug, PartialEq, Eq)]
pub struct Declaration {
    pub ident: String,
    pub attrs: Vec<Attribute>,
    pub generics: Vec<GenericParam>,
    pub data: Data,
}

/// Why a declaration has no schema.
#[derive(Clone, Debug, PartialEq, Eq)]
pub enum ExtractError {
    /// The declaration is an enum or a union.
    NotAStruct,
    /// The struct has positional fields or none at all.
    UnnamedFields,
    /// A struct-level entry other than `offset`; holds its key.
    UnknownStructAttribute(String),
    /// `offset` without a value, or with one that is no integer literal
    /// fitting `usize`.
    MalformedOffset,
    /// A field-level entry other than `skip_serializing_if`; holds its key.
    UnknownFieldAttribute(String),
    /// `skip_serializing_if` without a value, or with one that is no string
    /// literal holding a path.
    MalformedPredicate,
    /// A second `skip_serializing_if` on one field.
    MultipleSkipPredicates,
}

/// The message of an error: it names the shape or the entry that is wrong.
pub open spec fn message_of(error: ExtractError) -> Seq<char> {
    match error {
        ExtractError::NotAStruct => "input must be a struct"@,
        ExtractError::UnnamedFields => "struct fields must be named"@,
        ExtractError::UnknownStructAttribute(key) =>
            "the only accepted struct level attribute is offset, not "@ + key@,
        ExtractError::MalformedOffset => "offset = integer"@,
        ExtractError::UnknownFieldAttribute(key) => "unknown field attribute "@ + key@,
        ExtractError::MalformedPredicate => "skip_serializing_if = \"path\""@,
        ExtractError::MultipleSkipPredicates => "multiple attributes for skip_serializing_if"@,
    }
}

impl ExtractError {
    /// The message that the error is reported with.
    pub fn message(&self) -> (text: String)
        ensures
            text@ == message_of(*self),
    {
        match self {
            ExtractError::NotAStruct => "input must be a struct".to_owned(),
            ExtractError::UnnamedFields => "struct fields must be named".to_owned(),
            ExtractError::UnknownStructAttribute(key) => {
                let mut text =
                    "the only accepted struct level attribute is offset, not ".to_owned();
                text.append(key.as_str());
                text
            },
            ExtractError::MalformedOffset => "offset = integer".to_owned(),
            ExtractError::UnknownFieldAttribute(key) => {
                let mut text = "unknown field attribute ".to_owned();
                text.append(key.as_str());
                text
            },
            ExtractError::MalformedPredicate => "skip_serializing_if = \"path\"".to_owned(),
            ExtractError::MultipleSkipPredicates => {
                "multiple attributes for skip_serializing_if".to_owned()
            },
        }
    }
}

/// Options given for the record type as a whole.
#[derive(Clone, Copy, Debug, PartialEq, Eq)]
pub struct StructAttrs {
    /// The key of the first field.
    pub offset: usize,
}

impl Default for StructAttrs {
    fn default() -> (r: Self)
        ensures
            r.offset == 0,
    {
        StructAttrs { offset: 0 }
    }
}

/// One field of a schema.
#[derive(Clone, Debug, PartialEq, Eq)]
pub struct Field {
    pub label: String,
    /// The field's position in declaration order, counted from zero.
    pub index: usize,
    /// The path of the predicate that decides whether the field is left out
    /// when encoding.
    pub skip_serializing_if: Option<String>,
    pub ty: String,
}

/// The mathematical content of a [`Field`].
pub struct FieldView {
    pub label: Seq<char>,
    pub index: usize,
    pub skip_serializing_if: Option<Seq<char>>,
    pub ty: Seq<char>,
}

impl View for Field {
    type V = FieldView;

    open spec fn view(&self) -> FieldView {
        FieldView {
            label: self.label@,
            index: self.index,
            skip_serializing_if: self.skip_serializing_if.deep_view(),
            ty: self.ty@,
        }
    }
}

/// The schema of a record type.
#[derive(Clone, Debug, PartialEq, Eq)]
pub struct Input {
    pub ident: String,
    pub attrs: StructAttrs,
    pub fields: Vec<Field>,
    pub lifetimes: Vec<String>,
}

/// The mathematical content of an [`Input`].
pub struct InputView {
    pub ident: Seq<char>,
    pub attrs: StructAttrs,
    pub fields: Seq<FieldView>,
    pub lifetimes: Seq<Seq<char>>,
}

/// The views of the elements of a sequence, in order.
pub open spec fn views<T: View>(items: Seq<T>) -> Seq<T::V> {
    items.map_values(|item: T| item@)
}

/// Every field's index is its position.
pub open spec fn in_order(fields: Seq<FieldView>) -> bool {
    forall|i: int| 0 <= i < fields.len() ==> (#[trigger] fields[i]).index == i
}

impl View for Input {
    type V = InputView;

    open spec fn view(&self) -> InputView {
        InputView {
            ident: self.ident@,
            attrs: self.attrs,
            fields: views(self.fields@),
            lifetimes: self.lifetimes.deep_view(),
        }
    }
}

/// Struct-level entries are read from attributes with these two paths.
pub open spec fn is_struct_namespace(path: Seq<char>) -> bool {
    path == "serde_indexed"@ || path == "serde"@
}

/// Field-level entries are read from attributes with this path.
pub open spec fn is_field_namespace(path: Seq<char>) -> bool {
    path == "serde"@
}

/// What was read of the value of an `offset` entry: the number, or `None`
/// where the value was not read as an integer that fits `usize`.
pub type OffsetReading = Option<usize>;

/// What was read of the value of a `skip_serializing_if` entry.
pub struct PathReading {
    /// The string that the value denotes; `None` where the value was not
    /// read as a string literal.
    pub path: Option<Seq<char>>,
    /// Whether the string was split into tokens.
    pub is_tokens: bool,
    /// Whether the string was read as a path.
    pub is_path: bool,
}

/// What was read of the values in a declaration: one reading for every
/// entry of every attribute, in the order of the declaration. A reading is
/// looked at only for an entry that has the key it belongs to, and a value.
pub struct Readings {
    /// By struct-level attribute and entry.
    pub offsets: Seq<Seq<OffsetReading>>,
    /// By field, attribute and entry.
    pub predicates: Seq<Seq<Seq<PathReading>>>,
}

/// The offset that one struct-level entry sets.
pub open spec fn meta_offset(item: MetaItem, reading: OffsetReading) -> Result<
    usize,
    ExtractError,
> {
    if item.key@ != "offset"@ {
        Err(ExtractError::UnknownStructAttribute(item.key))
    } else if item.value is None {
        Err(ExtractError::MalformedOffset)
    } else {
        match reading {
            Some(offset) => Ok(offset),
            None => Err(ExtractError::MalformedOffset),
        }
    }
}

/// The offset after the first `upto` entries of one attribute, read in
/// order, when it was `start` before them.
pub open spec fn items_offset(
    items: Seq<MetaItem>,
    readings: Seq<OffsetReading>,
    upto: int,
    start: usize,
) -> Result<usize, ExtractError>
    decreases upto,
{
    if upto <= 0 {
        Ok(start)
    } else {
        match items_offset(items, readings, upto - 1, start) {
            Err(e) => Err(e),
            Ok(_) => meta_offset(items[upto - 1], readings[upto - 1]),
        }
    }
}

/// The offset after the first `upto` attributes of the declaration. It is
/// zero until an entry sets it, and a later entry overrides an earlier one.
pub open spec fn attrs_offset(
    attrs: Seq<Attribute>,
    readings: Seq<Seq<OffsetReading>>,
    upto: int,
) -> Result<usize, ExtractError>
    decreases upto,
{
    if upto <= 0 {
        Ok(0)
    } else {
        match attrs_offset(attrs, readings, upto - 1) {
            Err(e) => Err(e),
            Ok(offset) => {
                let attr = attrs[upto - 1];
                if is_struct_namespace(attr.path@) {
                    items_offset(
                        attr.items@,
                        readings[upto - 1],
                        attr.items@.len() as int,
                        offset,
                    )
                } else {
                    Ok(offset)
                }
            },
        }
    }
}

/// What becomes of a string offered as a field's skip predicate, given
/// whether the field has one already, whether the string splits into
/// tokens, and whether it is a path.
pub open spec fn predicate_taken(found: bool, is_tokens: bool, is_path: bool) -> Result<
    (),
    ExtractError,
> {
    if !is_tokens {
        Err(ExtractError::MalformedPredicate)
    } else if found {
        Err(ExtractError::MultipleSkipPredicates)
    } else if !is_path {
        Err(ExtractError::MalformedPredicate)
    } else {
        Ok(())
    }
}

/// The skip predicate after one field-level entry, when `found` was known
/// before it.
pub open spec fn meta_predicate(
    item: MetaItem,
    reading: PathReading,
    found: Option<Seq<char>>,
) -> Result<Option<Seq<char>>, ExtractError> {
    if item.key@ != "skip_serializing_if"@ {
        Err(ExtractError::UnknownFieldAttribute(item.key))
    } else if item.value is None {
        Err(ExtractError::MalformedPredicate)
    } else {
        match reading.path {
            None => Err(ExtractError::MalformedPredicate),
            Some(path) => match predicate_taken(found is Some, reading.is_tokens, reading.is_path) {
                Err(e) => Err(e),
                Ok(()) => Ok(Some(path)),
            },
        }
    }
}

/// The skip predicate after the first `upto` entries of one attribute, when
/// `start` was known before them.
pub open spec fn items_predicate(
    items: Seq<MetaItem>,
    readings: Seq<PathReading>,
    upto: int,
    start: Option<Seq<char>>,
) -> Result<Option<Seq<char>>, ExtractError>
    decreases upto,
{
    if upto <= 0 {
        Ok(start)
    } else {
        match items_predicate(items, readings, upto - 1, start) {
            Err(e) => Err(e),
            Ok(found) => meta_predicate(items[upto - 1], readings[upto - 1], found),
        }
    }
}

/// The skip predicate after the first `upto` attributes of a field.
pub open spec fn attrs_predicate(
    attrs: Seq<Attribute>,
    readings: Seq<Seq<PathReading>>,
    upto: int,
) -> Result<Option<Seq<char>>, ExtractError>
    decreases upto,
{
    if upto <= 0 {
        Ok(None)
    } else {
        match attrs_predicate(attrs, readings, upto - 1) {
            Err(e) => Err(e),
            Ok(found) => {
                let attr = attrs[upto - 1];
                if is_field_namespace(attr.path@) {
                    items_predicate(
                        attr.items@,
                        readings[upto - 1],
                        attr.items@.len() as int,
                        found,
                    )
                } else {
                    Ok(found)
                }
            },
        }
    }
}

/// The schema entry of the field declared at position `index`.
pub open spec fn field_schema(
    decl: FieldDecl,
    readings: Seq<Seq<PathReading>>,
    index: usize,
) -> Result<FieldView, ExtractError> {
    match attrs_predicate(decl.attrs@, readings, decl.attrs@.len() as int) {
        Err(e) => Err(e),
        Ok(found) => Ok(
            FieldView { label: decl.ident@, index, skip_serializing_if: found, ty: decl.ty@ },
        ),
    }
}

/// The schema entries of the first `upto` declared fields.
pub open spec fn fields_schema(
    decls: Seq<FieldDecl>,
    readings: Seq<Seq<Seq<PathReading>>>,
    upto: int,
) -> Result<Seq<FieldView>, ExtractError>
    decreases upto,
{
    if upto <= 0 {
        Ok(Seq::empty())
    } else {
        match fields_schema(decls, readings, upto - 1) {
            Err(e) => Err(e),
            Ok(fields) => match field_schema(
                decls[upto - 1],
                readings[upto - 1],
                (upto - 1) as usize,
            ) {
                Err(e) => Err(e),
                Ok(field) => Ok(fields.push(field)),
            },
        }
    }
}

/// The names of the lifetimes among the first `upto` generic parameters.
pub open spec fn lifetimes_of(generics: Seq<GenericParam>, upto: int) -> Seq<Seq<char>>
    decreases upto,
{
    if upto <= 0 {
        Seq::empty()
    } else {
        match generics[upto - 1] {
            GenericParam::Lifetime(name) => lifetimes_of(generics, upto - 1).push(name@),
            _ => lifetimes_of(generics, upto - 1),
        }
    }
}

/// The schema of a declaration, given what was read of its values. The
/// shape is looked at first, then the struct-level attributes, then whether
/// the fields are named, then the fields one by one.
pub open spec fn schema_of(decl: Declaration, readings: Readings) -> Result<
    InputView,
    ExtractError,
> {
    match decl.data {
        Data::Struct(fields) => match attrs_offset(
            decl.attrs@,
            readings.offsets,
            decl.attrs@.len() as int,
        ) {
            Err(e) => Err(e),
            Ok(offset) => match fields {
                Fields::Named(named) => match fields_schema(
                    named@,
                    readings.predicates,
                    named@.len() as int,
                ) {
                    Err(e) => Err(e),
                    Ok(entries) => Ok(
                        InputView {
                            ident: decl.ident@,
                            attrs: StructAttrs { offset },
                            fields: entries,
                            lifetimes: lifetimes_of(decl.generics@, decl.generics@.len() as int),
                        },
                    ),
                },
                _ => Err(ExtractError::UnnamedFields),
            },
        },
        _ => Err(ExtractError::NotAStruct),
    }
}

/// The result of a step as the specs give it: the value after the step, or
/// the error.
pub open spec fn outcome<T>(r: Result<(), ExtractError>, after: T) -> Result<T, ExtractError> {
    match r {
        Ok(()) => Ok(after),
        Err(e) => Err(e),
    }
}

/// Whether `text` spells `name`.
fn spells(text: &String, name: &str) -> (b: bool)
    ensures
        b == (text@ == name@),
{
    let name = name.to_owned();
    *text == name
}

/// Whether struct-level entries are read from an attribute with this path.
pub fn reads_struct_attribute(path: &String) -> (b: bool)
    ensures
        b == is_struct_namespace(path@),
{
    spells(path, "serde_indexed") || spells(path, "serde")
}

/// Whether field-level entries are read from an attribute with this path.
pub fn reads_field_attribute(path: &String) -> (b: bool)
    ensures
        b == is_field_namespace(path@),
{
    spells(path, "serde")
}

/// Sets the offset from what was read of the value of an `offset` entry:
/// `None` where the entry has no value, an error where the value is no
/// integer literal that fits.
pub fn set_offset(attrs: &mut StructAttrs, value: Option<Result<usize, syn::Error>>) -> (r: Result<
    (),
    ExtractError,
>)
    ensures
        match value {
            Some(Ok(offset)) => r == Ok::<(), ExtractError>(()) && final(attrs).offset == offset,
            _ => r == Err::<(), ExtractError>(ExtractError::MalformedOffset) && *final(attrs)
                == *old(attrs),
        },
{
    match value {
        Some(Ok(offset)) => {
            attrs.offset = offset;
            Ok(())
        },
        _ => Err(ExtractError::MalformedOffset),
    }
}

/// Reads one struct-level entry into `attrs`. The value of an `offset`
/// entry is read as an integer literal; the result is the one that some
/// reading of it gives.
pub fn parse_meta(attrs: &mut StructAttrs, meta: &MetaItem) -> (r: Result<(), ExtractError>)
    ensures
        exists|reading: OffsetReading| #[trigger]
            meta_offset(*meta, reading) == outcome(r, final(attrs).offset),
        r is Err ==> *final(attrs) == *old(attrs),
{
    if spells(&meta.key, "offset") {
        let value = match &meta.value {
            Some(text) => Some(parse_int_literal(text.as_str())),
            None => None,
        };
        let ghost reading: OffsetReading = match value {
            Some(Ok(offset)) => Some(offset),
            _ => None,
        };
        let r = set_offset(attrs, value);
        assert(meta_offset(*meta, reading) == outcome(r, attrs.offset));
        r
    } else {
        assert(meta_offset(*meta, None) == outcome(
            Err(ExtractError::UnknownStructAttribute(meta.key)),
            attrs.offset,
        ));
        Err(ExtractError::UnknownStructAttribute(meta.key.clone()))
    }
}

/// Reads the entries of one struct-level attribute into `attrs`, in order.
fn parse_nested_meta(attrs: &mut StructAttrs, items: &Vec<MetaItem>) -> (r: Result<
    (),
    ExtractError,
>)
    ensures
        exists|readings: Seq<OffsetReading>| #[trigger]
            items_offset(items@, readings, items@.len() as int, old(attrs).offset) == outcome(
                r,
                final(attrs).offset,
            ),
{
    let ghost mut readings: Seq<OffsetReading> = Seq::empty();
    let mut j: usize = 0;
    while j < items.len()
        invariant
            j <= items.len(),
            readings.len() == j,
            items_offset(items@, readings, j as int, old(attrs).offset) == Ok::<
                usize,
                ExtractError,
            >(attrs.offset),
        decreases items.len() - j,
    {
        let ghost before = readings;
        let r = parse_meta(attrs, &items[j]);
        proof {
            let reading = choose|reading: OffsetReading| #[trigger]
                meta_offset(items@[j as int], reading) == outcome(r, attrs.offset);
            readings = before.push(reading);
            lemma_items_offset_same(items@, before, readings, j as int, old(attrs).offset);
        }
        match r {
            Ok(()) => {},
            Err(e) => {
                proof {
                    lemma_items_offset_error(
                        items@,
                        readings,
                        j as int + 1,
                        items@.len() as int,
                        old(attrs).offset,
                    );
                }
                return Err(e);
            },
        }
        j += 1;
    }
    Ok(())
}

/// Reads the struct-level attributes of a declaration. The result is the
/// one that some readings of the values give.
pub fn parse_attrs(attrs: &Vec<Attribute>) -> (r: Result<StructAttrs, ExtractError>)
    ensures
        exists|readings: Seq<Seq<OffsetReading>>| #[trigger]
            attrs_offset(attrs@, readings, attrs@.len() as int) == (match r {
                Ok(found) => Ok::<usize, ExtractError>(found.offset),
                Err(e) => Err(e),
            }),
{
    let ghost mut readings: Seq<Seq<OffsetReading>> = Seq::empty();
    let mut struct_attrs = StructAttrs::default();
    let mut i: usize = 0;
    while i < attrs.len()
        invariant
            i <= attrs.len(),
            readings.len() == i,
            attrs_offset(attrs@, readings, i as int) == Ok::<usize, ExtractError>(
                struct_attrs.offset,
            ),
        decreases attrs.len() - i,
    {
        let attr = &attrs[i];
        let ghost before = readings;
        let ghost start = struct_attrs.offset;
        if reads_struct_attribute(&attr.path) {
            let r = parse_nested_meta(&mut struct_attrs, &attr.items);
            proof {
                let inner = choose|inner: Seq<OffsetReading>| #[trigger]
                    items_offset(attr.items@, inner, attr.items@.len() as int, start) == outcome(
                        r,
                        struct_attrs.offset,
                    );
                readings = before.push(inner);
                lemma_attrs_offset_same(attrs@, before, readings, i as int);
            }
            match r {
                Ok(()) => {},
                Err(e) => {
                    proof {
                        lemma_attrs_offset_error(
                            attrs@,
                            readings,
                            i as int + 1,
                            attrs@.len() as int,
                        );
                    }
                    return Err(e);
                },
            }
        } else {
            proof {
                readings = before.push(Seq::empty());
                lemma_attrs_offset_same(attrs@, before, readings, i as int);
            }
        }
        i += 1;
    }
    Ok(struct_attrs)
}

/// Takes `path` as the field's skip predicate, given what was read of it.
pub fn take_predicate(
    found: &mut Option<String>,
    path: String,
    is_tokens: bool,
    is_path: bool,
) -> (r: Result<(), ExtractError>)
    ensures
        r == predicate_taken(*old(found) is Some, is_tokens, is_path),
        r is Ok ==> *final(found) == Some(path),
        r is Err ==> *final(found) == *old(found),
{
    if !is_tokens {
        return Err(ExtractError::MalformedPredicate);
    }
    if found.is_some() {
        return Err(ExtractError::MultipleSkipPredicates);
    }
    if !is_path {
        return Err(ExtractError::MalformedPredicate);
    }
    *found = Some(path);
    Ok(())
}

/// Reads one field-level entry, given the predicate found before it. The
/// value of a `skip_serializing_if` entry is read as a string literal, and
/// the string as tokens and as a path; the result is the one that some
/// reading of it gives.
pub fn parse_field_meta(found: &mut Option<String>, meta: &MetaItem) -> (r: Result<
    (),
    ExtractError,
>)
    ensures
        exists|reading: PathReading| #[trigger]
            meta_predicate(*meta, reading, old(found).deep_view()) == outcome(
                r,
                final(found).deep_view(),
            ),
        r is Err ==> *final(found) == *old(found),
{
    let ghost unread = PathReading { path: None, is_tokens: false, is_path: false };
    if !spells(&meta.key, "skip_serializing_if") {
        assert(meta_predicate(*meta, unread, found.deep_view()) == outcome(
            Err(ExtractError::UnknownFieldAttribute(meta.key)),
            found.deep_view(),
        ));
        return Err(ExtractError::UnknownFieldAttribute(meta.key.clone()));
    }
    let text = match &meta.value {
        Some(text) => text,
        None => {
            assert(meta_predicate(*meta, unread, found.deep_view()) == outcome(
                Err(ExtractError::MalformedPredicate),
                found.deep_view(),
            ));
            return Err(ExtractError::MalformedPredicate);
        },
    };
    let path = match parse_str_literal(text.as_str()) {
        Ok(path) => path,
        Err(_) => {
            assert(meta_predicate(*meta, unread, found.deep_view()) == outcome(
                Err(ExtractError::MalformedPredicate),
                found.deep_view(),
            ));
            return Err(ExtractError::MalformedPredicate);
        },
    };
    let is_tokens = check_token_text(path.as_str()).is_ok();
    let is_path = check_expr_path(path.as_str()).is_ok();
    let ghost reading = PathReading { path: Some(path@), is_tokens, is_path };
    let r = take_predicate(found, path, is_tokens, is_path);
    assert(meta_predicate(*meta, reading, old(found).deep_view()) == outcome(
        r,
        found.deep_view(),
    ));
    r
}

/// Reads the entries of one field-level attribute, in order.
fn parse_field_nested_meta(found: &mut Option<String>, items: &Vec<MetaItem>) -> (r: Result<
    (),
    ExtractError,
>)
    ensures
        exists|readings: Seq<PathReading>| #[trigger]
            items_predicate(items@, readings, items@.len() as int, old(found).deep_view())
                == outcome(r, final(found).deep_view()),
{
    let ghost mut readings: Seq<PathReading> = Seq::empty();
    let mut j: usize = 0;
    while j < items.len()
        invariant
            j <= items.len(),
            readings.len() == j,
            items_predicate(items@, readings, j as int, old(found).deep_view()) == Ok::<
                Option<Seq<char>>,
                ExtractError,
            >(found.deep_view()),
        decreases items.len() - j,
    {
        let ghost before = readings;
        let ghost start = found.deep_view();
        let r = parse_field_meta(found, &items[j]);
        proof {
            let reading = choose|reading: PathReading| #[trigger]
                meta_predicate(items@[j as int], reading, start) == outcome(
                    r,
                    found.deep_view(),
                );
            readings = before.push(reading);
            lemma_items_predicate_same(
                items@,
                before,
                readings,
                j as int,
                old(found).deep_view(),
            );
        }
        match r {
            Ok(()) => {},
            Err(e) => {
                proof {
                    lemma_items_predicate_error(
                        items@,
                        readings,
                        j as int + 1,
                        items@.len() as int,
                        old(found).deep_view(),
                    );
                }
                return Err(e);
            },
        }
        j += 1;
    }
    Ok(())
}

/// Reads the attributes of one field for its skip predicate. The result is
/// the one that some readings of the values give.
pub fn skip_predicate(attrs: &Vec<Attribute>) -> (r: Result<Option<String>, ExtractError>)
    ensures
        exists|readings: Seq<Seq<PathReading>>| #[trigger]
            attrs_predicate(attrs@, readings, attrs@.len() as int) == (match r {
                Ok(found) => Ok::<Option<Seq<char>>, ExtractError>(found.deep_view()),
                Err(e) => Err(e),
            }),
{
    let ghost mut readings: Seq<Seq<PathReading>> = Seq::empty();
    let mut found: Option<String> = None;
    let mut i: usize = 0;
    while i < attrs.len()
        invariant
            i <= attrs.len(),
            readings.len() == i,
            attrs_predicate(attrs@, readings, i as int) == Ok::<Option<Seq<char>>, ExtractError>(
                found.deep_view(),
            ),
        decreases attrs.len() - i,
    {
        let attr = &attrs[i];
        let ghost before = readings;
        let ghost start = found.deep_view();
        if reads_field_attribute(&attr.path) {
            let r = parse_field_nested_meta(&mut found, &attr.items);
            proof {
                let inner = choose|inner: Seq<PathReading>| #[trigger]
                    items_predicate(attr.items@, inner, attr.items@.len() as int, start)
                        == outcome(r, found.deep_view());
                readings = before.push(inner);
                lemma_attrs_predicate_same(attrs@, before, readings, i as int);
            }
            match r {
                Ok(()) => {},
                Err(e) => {
                    proof {
                        lemma_attrs_predicate_error(
                            attrs@,
                            readings,
                            i as int + 1,
                            attrs@.len() as int,
                        );
                    }
                    return Err(e);
                },
            }
        } else {
            proof {
                readings = before.push(Seq::empty());
                lemma_attrs_predicate_same(attrs@, before, readings, i as int);
            }
        }
        i += 1;
    }
    Ok(found)
}

/// Builds the schema's fields from the declared ones, in declaration order.
/// The result is the one that some readings of the values give.
pub fn fields_from_ast(fields: &Vec<FieldDecl>) -> (r: Result<Vec<Field>, ExtractError>)
    ensures
        exists|readings: Seq<Seq<Seq<PathReading>>>| #[trigger]
            fields_schema(fields@, readings, fields@.len() as int) == (match r {
                Ok(out) => Ok::<Seq<FieldView>, ExtractError>(views(out@)),
                Err(e) => Err(e),
            }),
        r matches Ok(out) ==> out@.len() == fields@.len() && in_order(views(out@)),
{
    let ghost mut readings: Seq<Seq<Seq<PathReading>>> = Seq::empty();
    let mut out: Vec<Field> = Vec::new();
    let mut i: usize = 0;
    assert(views(out@) =~= Seq::empty());
    while i < fields.len()
        invariant
            i <= fields.len(),
            readings.len() == i,
            fields_schema(fields@, readings, i as int) == Ok::<Seq<FieldView>, ExtractError>(
                views(out@),
            ),
        decreases fields.len() - i,
    {
        let field = &fields[i];
        let ghost before = readings;
        let r = skip_predicate(&field.attrs);
        proof {
            let inner = choose|inner: Seq<Seq<PathReading>>| #[trigger]
                attrs_predicate(field.attrs@, inner, field.attrs@.len() as int) == (match r {
                    Ok(found) => Ok::<Option<Seq<char>>, ExtractError>(found.deep_view()),
                    Err(e) => Err(e),
                });
            readings = before.push(inner);
            lemma_fields_schema_same(fields@, before, readings, i as int);
        }
        match r {
            Ok(skip_serializing_if) => {
                let ghost entries = views(out@);
                let entry = Field {
                    label: field.ident.clone(),
                    index: i,
                    skip_serializing_if,
                    ty: field.ty.clone(),
                };
                out.push(entry);
                assert(views(out@) =~= entries.push(entry@));
            },
            Err(e) => {
                proof {
                    lemma_fields_schema_error(
                        fields@,
                        readings,
                        i as int + 1,
                        fields@.len() as int,
                    );
                }
                return Err(e);
            },
        }
        i += 1;
    }
    proof {
        lemma_fields_schema_in_order(fields@, readings, fields@.len() as int);
    }
    Ok(out)
}

/// Collects the names of the lifetime parameters, in order.
pub fn lifetimes(generics: &Vec<GenericParam>) -> (out: Vec<String>)
    ensures
        out.deep_view() == lifetimes_of(generics@, generics@.len() as int),
{
    let mut out: Vec<String> = Vec::new();
    let mut i: usize = 0;
    while i < generics.len()
        invariant
            i <= generics.len(),
            out.deep_view() == lifetimes_of(generics@, i as int),
        decreases generics.len() - i,
    {
        match &generics[i] {
            GenericParam::Lifetime(name) => {
                out.push(name.clone());
            },
            _ => {},
        }
        i += 1;
    }
    out
}

impl Input {
    /// Extracts the schema of a declaration. The result is the one that
    /// some readings of the values give: where no value is read, or the
    /// error comes before any is, it is fixed by the declaration alone.
    pub fn parse(input: &Declaration) -> (r: Result<Input, ExtractError>)
        ensures
            exists|readings: Readings| #[trigger]
                schema_of(*input, readings) == (match r {
                    Ok(schema) => Ok::<InputView, ExtractError>(schema@),
                    Err(e) => Err(e),
                }),
            r matches Ok(schema) ==> in_order(schema@.fields),
    {
        let ghost unread = Readings { offsets: Seq::empty(), predicates: Seq::empty() };
        let data = match &input.data {
            Data::Struct(data) => data,
            _ => {
                assert(schema_of(*input, unread) == Err::<InputView, ExtractError>(
                    ExtractError::NotAStruct,
                ));
                return Err(ExtractError::NotAStruct);
            },
        };
        let found = parse_attrs(&input.attrs);
        let ghost offsets = choose|offsets: Seq<Seq<OffsetReading>>| #[trigger]
            attrs_offset(input.attrs@, offsets, input.attrs@.len() as int) == (match found {
                Ok(found) => Ok::<usize, ExtractError>(found.offset),
                Err(e) => Err(e),
            });
        let attrs = match found {
            Ok(attrs) => attrs,
            Err(e) => {
                assert(schema_of(*input, Readings { offsets, predicates: Seq::empty() }) == Err::<
                    InputView,
                    ExtractError,
                >(e));
                return Err(e);
            },
        };
        let named = match data {
            Fields::Named(named) => named,
            _ => {
                assert(schema_of(*input, Readings { offsets, predicates: Seq::empty() }) == Err::<
                    InputView,
                    ExtractError,
                >(ExtractError::UnnamedFields));
                return Err(ExtractError::UnnamedFields);
            },
        };
        let built = fields_from_ast(named);
        let ghost predicates = choose|predicates: Seq<Seq<Seq<PathReading>>>| #[trigger]
            fields_schema(named@, predicates, named@.len() as int) == (match built {
                Ok(out) => Ok::<Seq<FieldView>, ExtractError>(views(out@)),
                Err(e) => Err(e),
            });
        let ghost readings = Readings { offsets, predicates };
        let fields = match built {
            Ok(fields) => fields,
            Err(e) => {
                assert(schema_of(*input, readings) == Err::<InputView, ExtractError>(e));
                return Err(e);
            },
        };
        let lifetimes = lifetimes(&input.generics);
        let schema = Input { ident: input.ident.clone(), attrs, fields, lifetimes };
        assert(schema_of(*input, readings) == Ok::<InputView, ExtractError>(schema@));
        Ok(schema)
    }
}

/// The offset after `upto` entries rests on the first `upto` readings only.
proof fn lemma_items_offset_same(
    items: Seq<MetaItem>,
    a: Seq<OffsetReading>,
    b: Seq<OffsetReading>,
    upto: int,
    start: usize,
)
    requires
        forall|k: int| 0 <= k < upto ==> a[k] == b[k],
    ensures
        items_offset(items, a, upto, start) == items_offset(items, b, upto, start),
    decreases upto,
{
    if upto > 0 {
        lemma_items_offset_same(items, a, b, upto - 1, start);
    }
}

/// The offset after `upto` attributes rests on the first `upto` readings
/// only.
proof fn lemma_attrs_offset_same(
    attrs: Seq<Attribute>,
    a: Seq<Seq<OffsetReading>>,
    b: Seq<Seq<OffsetReading>>,
    upto: int,
)
    requires
        forall|k: int| 0 <= k < upto ==> a[k] == b[k],
    ensures
        attrs_offset(attrs, a, upto) == attrs_offset(attrs, b, upto),
    decreases upto,
{
    if upto > 0 {
        lemma_attrs_offset_same(attrs, a, b, upto - 1);
    }
}

/// The predicate after `upto` entries rests on the first `upto` readings
/// only.
proof fn lemma_items_predicate_same(
    items: Seq<MetaItem>,
    a: Seq<PathReading>,
    b: Seq<PathReading>,
    upto: int,
    start: Option<Seq<char>>,
)
    requires
        forall|k: int| 0 <= k < upto ==> a[k] == b[k],
    ensures
        items_predicate(items, a, upto, start) == items_predicate(items, b, upto, start),
    decreases upto,
{
    if upto > 0 {
        lemma_items_predicate_same(items, a, b, upto - 1, start);
    }
}

/// The predicate after `upto` attributes rests on the first `upto` readings
/// only.
proof fn lemma_attrs_predicate_same(
    attrs: Seq<Attribute>,
    a: Seq<Seq<PathReading>>,
    b: Seq<Seq<PathReading>>,
    upto: int,
)
    requires
        forall|k: int| 0 <= k < upto ==> a[k] == b[k],
    ensures
        attrs_predicate(attrs, a, upto) == attrs_predicate(attrs, b, upto),
    decreases upto,
{
    if upto > 0 {
        lemma_attrs_predicate_same(attrs, a, b, upto - 1);
    }
}

/// The schema of `upto` fields rests on the first `upto` readings only.
proof fn lemma_fields_schema_same(
    decls: Seq<FieldDecl>,
    a: Seq<Seq<Seq<PathReading>>>,
    b: Seq<Seq<Seq<PathReading>>>,
    upto: int,
)
    requires
        forall|k: int| 0 <= k < upto ==> a[k] == b[k],
    ensures
        fields_schema(decls, a, upto) == fields_schema(decls, b, upto),
    decreases upto,
{
    if upto > 0 {
        lemma_fields_schema_same(decls, a, b, upto - 1);
    }
}

/// An error among the first `at` entries is still the result after `upto`.
proof fn lemma_items_offset_error(
    items: Seq<MetaItem>,
    readings: Seq<OffsetReading>,
    at: int,
    upto: int,
    start: usize,
)
    requires
        at <= upto,
        items_offset(items, readings, at, start) is Err,
    ensures
        items_offset(items, readings, upto, start) == items_offset(items, readings, at, start),
    decreases upto - at,
{
    if at < upto {
        lemma_items_offset_error(items, readings, at, upto - 1, start);
    }
}

/// An error among the first `at` attributes is still the result after `upto`.
proof fn lemma_attrs_offset_error(
    attrs: Seq<Attribute>,
    readings: Seq<Seq<OffsetReading>>,
    at: int,
    upto: int,
)
    requires
        at <= upto,
        attrs_offset(attrs, readings, at) is Err,
    ensures
        attrs_offset(attrs, readings, upto) == attrs_offset(attrs, readings, at),
    decreases upto - at,
{
    if at < upto {
        lemma_attrs_offset_error(attrs, readings, at, upto - 1);
    }
}

/// An error among the first `at` entries is still the result after `upto`.
proof fn lemma_items_predicate_error(
    items: Seq<MetaItem>,
    readings: Seq<PathReading>,
    at: int,
    upto: int,
    start: Option<Seq<char>>,
)
    requires
        at <= upto,
        items_predicate(items, readings, at, start) is Err,
    ensures
        items_predicate(items, readings, upto, start) == items_predicate(
            items,
            readings,
            at,
            start,
        ),
    decreases upto - at,
{
    if at < upto {
        lemma_items_predicate_error(items, readings, at, upto - 1, start);
    }
}

/// An error among the first `at` attributes is still the result after `upto`.
proof fn lemma_attrs_predicate_error(
    attrs: Seq<Attribute>,
    readings: Seq<Seq<PathReading>>,
    at: int,
    upto: int,
)
    requires
        at <= upto,
        attrs_predicate(attrs, readings, at) is Err,
    ensures
        attrs_predicate(attrs, readings, upto) == attrs_predicate(attrs, readings, at),
    decreases upto - at,
{
    if at < upto {
        lemma_attrs_predicate_error(attrs, readings, at, upto - 1);
    }
}

/// The schema of `upto` declared fields has `upto` entries, each with its
/// position as index.
pub(crate) proof fn lemma_fields_schema_in_order(
    decls: Seq<FieldDecl>,
    readings: Seq<Seq<Seq<PathReading>>>,
    upto: int,
)
    requires
        0 <= upto <= decls.len(),
        decls.len() <= usize::MAX,
    ensures
        fields_schema(decls, readings, upto) matches Ok(fields) ==> fields.len() == upto
            && in_order(fields),
    decreases upto,
{
    if upto > 0 {
        lemma_fields_schema_in_order(decls, readings, upto - 1);
    }
}

/// An error among the first `at` fields is still the result after `upto`.
proof fn lemma_fields_schema_error(
    decls: Seq<FieldDecl>,
    readings: Seq<Seq<Seq<PathReading>>>,
    at: int,
    upto: int,
)
    requires
        at <= upto,
        fields_schema(decls, readings, at) is Err,
    ensures
        fields_schema(decls, readings, upto) == fields_schema(decls, readings, at),
    decreases upto - at,
{
    if at < upto {
        lemma_fields_schema_error(decls, readings, at, upto - 1);
    }
}

} // verus!
