//! Values as YAML documents of `serde_yaml`.

use crate::backend::{Failure, UnknownValueError};
use crate::eval::value::{
    fields_model, lemma_view_list, lemma_view_struct, list_model, Value, ValueView,
};
use crate::table::put;
use vstd::prelude::*;
use vstd::string::*;

verus! {

/// A YAML document: a value of `serde_yaml`. Nothing of its inside is
/// visible to the proofs.
#[verifier::external_body]
pub struct YamlDocument {
    pub value: serde_yaml::Value,
}

/// Why a value has no YAML document.
#[derive(Clone, Debug, PartialEq, Eq)]
pub enum YamlValueError {
    /// The value is unknown, or a part of it.
    UnknownValueError(UnknownValueError),
    /// A number of the value is no number of YAML; with the message of
    /// `serde_yaml`.
    NumberParseError(String),
}

/// What a YAML document holds. A number is held by the text that stands
/// for it; a mapping by its names and their values, in its order.
pub ghost enum YamlView {
    Null,
    Bool(bool),
    Number(Seq<char>),
    String(Seq<char>),
    Sequence(Seq<YamlView>),
    Mapping(Seq<(Seq<char>, YamlView)>),
}

/// What a YAML document holds.
pub uninterp spec fn yaml_view(document: YamlDocument) -> YamlView;

/// The number that `serde_yaml` reads from a text, by the text that
/// stands for it in a document; `None` where it reads no number.
pub uninterp spec fn yaml_number(text: Seq<char>) -> Option<Seq<char>>;

/// What a list of YAML documents holds.
pub open spec fn yaml_views(values: Seq<YamlDocument>) -> Seq<YamlView> {
    Seq::new(values.len(), |i: int| yaml_view(values[i]))
}

/// What a list of names and YAML documents holds.
pub open spec fn yaml_entries(fields: Seq<(String, YamlDocument)>) -> Seq<
    (Seq<char>, YamlView),
> {
    Seq::new(fields.len(), |i: int| (fields[i].0@, yaml_view(fields[i].1)))
}

/// The mapping that is filled with the entries in turn: a new name
/// comes last, and where a name occurs again, the later value takes the
/// place of the earlier one.
pub open spec fn yaml_mapping_of(entries: Seq<(Seq<char>, YamlView)>) -> Seq<
    (Seq<char>, YamlView),
>
    decreases entries.len(),
{
    if entries.len() == 0 {
        Seq::empty()
    } else {
        put(yaml_mapping_of(entries.drop_last()), entries.last().0, entries.last().1)
    }
}

/// `serde_yaml::Value::Null`.
#[verifier::external_body]
fn yaml_null() -> (r: YamlDocument)
    ensures
        yaml_view(r) == YamlView::Null,
{
    YamlDocument { value: serde_yaml::Value::Null }
}

/// `serde_yaml::Value::Bool`.
#[verifier::external_body]
fn yaml_bool(b: bool) -> (r: YamlDocument)
    ensures
        yaml_view(r) == YamlView::Bool(b),
{
    YamlDocument { value: serde_yaml::Value::Bool(b) }
}

/// `serde_yaml::Number::from_str`, and `serde_yaml::Value::Number` around
/// the number it read: the number that the text stands for, or, where
/// it stands for none, the message of the error.
#[verifier::external_body]
fn yaml_number_value(text: &str) -> (r: Result<YamlDocument, String>)
    ensures
        r is Ok == yaml_number(text@) is Some,
        r matches Ok(document) ==> yaml_view(document) == YamlView::Number(
            yaml_number(text@)->Some_0,
        ),
{
    match text.parse::<serde_yaml::Number>() {
        Ok(number) => Ok(YamlDocument { value: serde_yaml::Value::Number(number) }),
        Err(error) => Err(error.to_string()),
    }
}

/// `serde_yaml::Value::String`.
#[verifier::external_body]
fn yaml_string(s: String) -> (r: YamlDocument)
    ensures
        yaml_view(r) == YamlView::String(s@),
{
    YamlDocument { value: serde_yaml::Value::String(s) }
}

/// `serde_yaml::Value::Sequence`.
#[verifier::external_body]
fn yaml_sequence(items: Vec<YamlDocument>) -> (r: YamlDocument)
    ensures
        yaml_view(r) == YamlView::Sequence(yaml_views(items@)),
{
    let values = items.into_iter().map(|item| item.value).collect();
    YamlDocument { value: serde_yaml::Value::Sequence(values) }
}

/// `serde_yaml::Mapping::from_iter`, with each name as a string of YAML,
/// and `serde_yaml::Value::Mapping` around the mapping: the entries are
/// put into the mapping in turn; a new name comes last, and a later
/// value takes the place of an earlier one of the same name.
#[verifier::external_body]
fn yaml_mapping(fields: Vec<(String, YamlDocument)>) -> (r: YamlDocument)
    ensures
        yaml_view(r) == YamlView::Mapping(yaml_mapping_of(yaml_entries(fields@))),
{
    let entries = fields.into_iter().map(
        |field| (serde_yaml::Value::String(field.0), field.1.value),
    );
    YamlDocument { value: serde_yaml::Value::Mapping(entries.collect()) }
}

/// The YAML document of a value: null, booleans and strings as they
/// are, a number as `serde_yaml` reads it, a list as a sequence and a
/// struct as a mapping.
pub open spec fn spec_yaml(value: ValueView) -> Result<YamlView, Failure>
    decreases value, 0int,
{
    match value {
        ValueView::Unknown => Err(Failure::Unknown),
        ValueView::Null => Ok(YamlView::Null),
        ValueView::Bool(b) => Ok(YamlView::Bool(b)),
        ValueView::Number(n) => match yaml_number(n) {
            Some(number) => Ok(YamlView::Number(number)),
            None => Err(Failure::Number(n)),
        },
        ValueView::String(s) => Ok(YamlView::String(s)),
        ValueView::List(items) => match spec_yaml_items(items) {
            Ok(documents) => Ok(YamlView::Sequence(documents)),
            Err(failure) => Err(failure),
        },
        ValueView::Struct(fields) => match spec_yaml_fields(fields) {
            Ok(entries) => Ok(YamlView::Mapping(yaml_mapping_of(entries))),
            Err(failure) => Err(failure),
        },
    }
}

/// The documents of the items of a list. The first item that has none
/// decides.
pub open spec fn spec_yaml_items(items: Seq<ValueView>) -> Result<Seq<YamlView>, Failure>
    decreases items, 1int,
{
    if items.len() == 0 {
        Ok(Seq::empty())
    } else {
        match spec_yaml_items(items.drop_last()) {
            Err(failure) => Err(failure),
            Ok(before) => match spec_yaml(items.last()) {
                Ok(document) => Ok(before.push(document)),
                Err(failure) => Err(failure),
            },
        }
    }
}

/// The names and documents of the fields of a struct. The first field
/// that has no document decides.
pub open spec fn spec_yaml_fields(fields: Seq<(Seq<char>, ValueView)>) -> Result<
    Seq<(Seq<char>, YamlView)>,
    Failure,
>
    decreases fields, 1int,
{
    if fields.len() == 0 {
        Ok(Seq::empty())
    } else {
        match spec_yaml_fields(fields.drop_last()) {
            Err(failure) => Err(failure),
            Ok(before) => match spec_yaml(fields.last().1) {
                Ok(document) => Ok(before.push((fields.last().0, document))),
                Err(failure) => Err(failure),
            },
        }
    }
}

/// Whether a result is what the value calls for: the document, or the
/// error of the first part that has none.
pub open spec fn yaml_agrees(
    r: Result<YamlDocument, YamlValueError>,
    expected: Result<YamlView, Failure>,
) -> bool {
    match expected {
        Ok(document) => r matches Ok(value) && yaml_view(value) == document,
        Err(Failure::Unknown) => r matches Err(YamlValueError::UnknownValueError(_)),
        Err(Failure::Number(_)) => r matches Err(YamlValueError::NumberParseError(_)),
    }
}

/// Once an item fails, the list fails, for the same reason.
proof fn lemma_yaml_items_fail(items: Seq<ValueView>, i: int)
    requires
        0 <= i <= items.len(),
        spec_yaml_items(items.take(i)) is Err,
    ensures
        spec_yaml_items(items) == spec_yaml_items(items.take(i)),
    decreases items.len(),
{
    if i < items.len() {
        assert(items.drop_last().take(i) =~= items.take(i));
        lemma_yaml_items_fail(items.drop_last(), i);
    } else {
        assert(items.take(i) =~= items);
    }
}

/// Once a field fails, the struct fails, for the same reason.
proof fn lemma_yaml_fields_fail(fields: Seq<(Seq<char>, ValueView)>, i: int)
    requires
        0 <= i <= fields.len(),
        spec_yaml_fields(fields.take(i)) is Err,
    ensures
        spec_yaml_fields(fields) == spec_yaml_fields(fields.take(i)),
    decreases fields.len(),
{
    if i < fields.len() {
        assert(fields.drop_last().take(i) =~= fields.take(i));
        lemma_yaml_fields_fail(fields.drop_last(), i);
    } else {
        assert(fields.take(i) =~= fields);
    }
}

/// The YAML document of a value.
fn yaml_value(value: &Value) -> (r: Result<YamlDocument, YamlValueError>)
    ensures
        yaml_agrees(r, spec_yaml(value@)),
    decreases value@,
{
    match value {
        Value::Unknown => Err(YamlValueError::UnknownValueError(UnknownValueError)),
        Value::Null => Ok(yaml_null()),
        Value::Bool(b) => Ok(yaml_bool(*b)),
        Value::Number(n) => match yaml_number_value(n.as_str()) {
            Ok(number) => Ok(number),
            Err(error) => Err(YamlValueError::NumberParseError(error)),
        },
        Value::String(s) => Ok(yaml_string(s.clone())),
        Value::List(items) => {
            let ghost all = list_model(items@);
            proof {
                lemma_view_list(*items);
                assert(all.take(0) =~= Seq::empty());
            }
            let mut out: Vec<YamlDocument> = Vec::new();
            let mut i: usize = 0;
            assert(yaml_views(out@) =~= Seq::empty());
            while i < items.len()
                invariant
                    i <= items@.len(),
                    all == list_model(items@),
                    value@ == ValueView::List(all),
                    spec_yaml_items(all.take(i as int)) == Ok::<Seq<YamlView>, Failure>(
                        yaml_views(out@),
                    ),
                decreases items@.len() - i,
            {
                proof {
                    assert(all.take(i + 1).drop_last() =~= all.take(i as int));
                    assert(all.take(i + 1).last() == items@[i as int]@);
                    assert(all[i as int] == items@[i as int]@);
                }
                let ghost before = yaml_views(out@);
                match yaml_value(&items[i]) {
                    Err(error) => {
                        proof {
                            lemma_yaml_items_fail(all, i + 1);
                        }
                        return Err(error);
                    },
                    Ok(document) => {
                        out.push(document);
                        assert(yaml_views(out@) =~= before.push(yaml_view(document)));
                    },
                }
                i += 1;
            }
            assert(all.take(i as int) =~= all);
            Ok(yaml_sequence(out))
        },
        Value::Struct(fields) => {
            let ghost all = fields_model(fields@);
            proof {
                lemma_view_struct(*fields);
                assert(all.take(0) =~= Seq::empty());
            }
            let mut out: Vec<(String, YamlDocument)> = Vec::new();
            let mut i: usize = 0;
            assert(yaml_entries(out@) =~= Seq::empty());
            while i < fields.len()
                invariant
                    i <= fields@.len(),
                    all == fields_model(fields@),
                    value@ == ValueView::Struct(all),
                    spec_yaml_fields(all.take(i as int)) == Ok::<
                        Seq<(Seq<char>, YamlView)>,
                        Failure,
                    >(yaml_entries(out@)),
                decreases fields@.len() - i,
            {
                proof {
                    assert(all.take(i + 1).drop_last() =~= all.take(i as int));
                    assert(all.take(i + 1).last() == all[i as int]);
                    assert(all[i as int] == (fields@[i as int].0@, fields@[i as int].1@));
                }
                let ghost before = yaml_entries(out@);
                assert(value@->Struct_0[i as int].1 == fields@[i as int].1@);
                match yaml_value(&fields[i].1) {
                    Err(error) => {
                        proof {
                            lemma_yaml_fields_fail(all, i + 1);
                        }
                        return Err(error);
                    },
                    Ok(document) => {
                        let name = fields[i].0.clone();
                        out.push((name, document));
                        assert(yaml_entries(out@) =~= before.push((name@, yaml_view(document))));
                    },
                }
                i += 1;
            }
            assert(all.take(i as int) =~= all);
            Ok(yaml_mapping(out))
        },
    }
}

/// The YAML document of a value: null, booleans and strings as they
/// are, a number as `serde_yaml` reads it, a list as a sequence and a
/// struct as a mapping. A value that holds `Unknown`, or a number that
/// `serde_yaml` does not read, has no document; the first such part in
/// the order of the items and fields decides the error.
pub fn to_yaml_value(value: Value) -> (r: Result<YamlDocument, YamlValueError>)
    ensures
        yaml_agrees(r, spec_yaml(value@)),
{
    yaml_value(&value)
}

} // verus!
