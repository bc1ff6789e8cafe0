//! Values as JSON documents of `serde_json`.

use crate::backend::{Failure, UnknownValueError};
use crate::eval::value::{
    fields_model, lemma_view_list, lemma_view_struct, list_model, Value, ValueView,
};
use vstd::prelude::*;
use vstd::string::*;

verus! {

/// A JSON document: a value of `serde_json`. Nothing of its inside is
/// visible to the proofs.
#[verifier::external_body]
pub struct JsonDocument {
    pub value: serde_json::Value,
}

/// Why a value has no JSON document.
#[derive(Clone, Debug, PartialEq, Eq)]
pub enum JsonValueError {
    /// The value is unknown, or a part of it.
    UnknownValueError(UnknownValueError),
    /// A number of the value is no number of JSON; with the message of
    /// `serde_json`.
    NumberParseError(String),
}

/// What a JSON document holds. A number is held by the text that stands
/// for it; an object by the value of each of its names.
pub ghost enum JsonView {
    Null,
    Bool(bool),
    Number(Seq<char>),
    String(Seq<char>),
    Array(Seq<JsonView>),
    Object(Map<Seq<char>, JsonView>),
}

/// What a JSON document holds.
pub uninterp spec fn json_view(document: JsonDocument) -> JsonView;

/// The number that `serde_json` reads from a text, by the text that
/// stands for it in a document; `None` where it reads no number.
pub uninterp spec fn json_number(text: Seq<char>) -> Option<Seq<char>>;

/// What a list of JSON documents holds.
pub open spec fn json_views(values: Seq<JsonDocument>) -> Seq<JsonView> {
    Seq::new(values.len(), |i: int| json_view(values[i]))
}

/// What a list of names and JSON documents holds.
pub open spec fn json_entries(fields: Seq<(String, JsonDocument)>) -> Seq<
    (Seq<char>, JsonView),
> {
    Seq::new(fields.len(), |i: int| (fields[i].0@, json_view(fields[i].1)))
}

/// The object that is filled with the entries in turn: where a name
/// occurs twice, the later value stays.
pub open spec fn json_object_of(entries: Seq<(Seq<char>, JsonView)>) -> Map<Seq<char>, JsonView>
    decreases entries.len(),
{
    if entries.len() == 0 {
        Map::empty()
    } else {
        json_object_of(entries.drop_last()).insert(entries.last().0, entries.last().1)
    }
}

/// `serde_json::Value::Null`.
#[verifier::external_body]
fn json_null() -> (r: JsonDocument)
    ensures
        json_view(r) == JsonView::Null,
{
    JsonDocument { value: serde_json::Value::Null }
}

/// `serde_json::Value::Bool`.
#[verifier::external_body]
fn json_bool(b: bool) -> (r: JsonDocument)
    ensures
        json_view(r) == JsonView::Bool(b),
{
    JsonDocument { value: serde_json::Value::Bool(b) }
}

/// `serde_json::Number::from_str`, and `serde_json::Value::Number` around
/// the number it read: the number that the text stands for, or, where
/// it stands for none, the message of the error.
#[verifier::external_body]
fn json_number_value(text: &str) -> (r: Result<JsonDocument, String>)
    ensures
        r is Ok == json_number(text@) is Some,
        r matches Ok(document) ==> json_view(document) == JsonView::Number(
            json_number(text@)->Some_0,
        ),
{
    match text.parse::<serde_json::Number>() {
        Ok(number) => Ok(JsonDocument { value: serde_json::Value::Number(number) }),
        Err(error) => Err(error.to_string()),
    }
}

/// `serde_json::Value::String`.
#[verifier::external_body]
fn json_string(s: String) -> (r: JsonDocument)
    ensures
        json_view(r) == JsonView::String(s@),
{
    JsonDocument { value: serde_json::Value::String(s) }
}

/// `serde_json::Value::Array`.
#[verifier::external_body]
fn json_array(items: Vec<JsonDocument>) -> (r: JsonDocument)
    ensures
        json_view(r) == JsonView::Array(json_views(items@)),
{
    let values = items.into_iter().map(|item| item.value).collect();
    JsonDocument { value: serde_json::Value::Array(values) }
}

/// `serde_json::Map::from_iter`, and `serde_json::Value::Object` around
/// the map: the entries are put into the map in turn, and a later value
/// takes the place of an earlier one of the same name.
#[verifier::external_body]
fn json_object(fields: Vec<(String, JsonDocument)>) -> (r: JsonDocument)
    ensures
        json_view(r) == JsonView::Object(json_object_of(json_entries(fields@))),
{
    let map = fields.into_iter().map(|field| (field.0, field.1.value)).collect();
    JsonDocument { value: serde_json::Value::Object(map) }
}

/// The JSON document of a value: null, booleans and strings as they
/// are, a number as `serde_json` reads it, a list as an array and a
/// struct as an object.
pub open spec fn spec_json(value: ValueView) -> Result<JsonView, Failure>
    decreases value, 0int,
{
    match value {
        ValueView::Unknown => Err(Failure::Unknown),
        ValueView::Null => Ok(JsonView::Null),
        ValueView::Bool(b) => Ok(JsonView::Bool(b)),
        ValueView::Number(n) => match json_number(n) {
            Some(number) => Ok(JsonView::Number(number)),
            None => Err(Failure::Number(n)),
        },
        ValueView::String(s) => Ok(JsonView::String(s)),
        ValueView::List(items) => match spec_json_items(items) {
            Ok(documents) => Ok(JsonView::Array(documents)),
            Err(failure) => Err(failure),
        },
        ValueView::Struct(fields) => match spec_json_fields(fields) {
            Ok(entries) => Ok(JsonView::Object(json_object_of(entries))),
            Err(failure) => Err(failure),
        },
    }
}

/// The documents of the items of a list. The first item that has none
/// decides.
pub open spec fn spec_json_items(items: Seq<ValueView>) -> Result<Seq<JsonView>, Failure>
    decreases items, 1int,
{
    if items.len() == 0 {
        Ok(Seq::empty())
    } else {
        match spec_json_items(items.drop_last()) {
            Err(failure) => Err(failure),
            Ok(before) => match spec_json(items.last()) {
                Ok(document) => Ok(before.push(document)),
                Err(failure) => Err(failure),
            },
        }
    }
}

/// The names and documents of the fields of a struct. The first field
/// that has no document decides.
pub open spec fn spec_json_fields(fields: Seq<(Seq<char>, ValueView)>) -> Result<
    Seq<(Seq<char>, JsonView)>,
    Failure,
>
    decreases fields, 1int,
{
    if fields.len() == 0 {
        Ok(Seq::empty())
    } else {
        match spec_json_fields(fields.drop_last()) {
            Err(failure) => Err(failure),
            Ok(before) => match spec_json(fields.last().1) {
                Ok(document) => Ok(before.push((fields.last().0, document))),
                Err(failure) => Err(failure),
            },
        }
    }
}

/// Whether a result is what the value calls for: the document, or the
/// error of the first part that has none.
pub open spec fn json_agrees(
    r: Result<JsonDocument, JsonValueError>,
    expected: Result<JsonView, Failure>,
) -> bool {
    match expected {
        Ok(document) => r matches Ok(value) && json_view(value) == document,
        Err(Failure::Unknown) => r matches Err(JsonValueError::UnknownValueError(_)),
        Err(Failure::Number(_)) => r matches Err(JsonValueError::NumberParseError(_)),
    }
}

/// Once an item fails, the list fails, for the same reason.
proof fn lemma_json_items_fail(items: Seq<ValueView>, i: int)
    requires
        0 <= i <= items.len(),
        spec_json_items(items.take(i)) is Err,
    ensures
        spec_json_items(items) == spec_json_items(items.take(i)),
    decreases items.len(),
{
    if i < items.len() {
        assert(items.drop_last().take(i) =~= items.take(i));
        lemma_json_items_fail(items.drop_last(), i);
    } else {
        assert(items.take(i) =~= items);
    }
}

/// Once a field fails, the struct fails, for the same reason.
proof fn lemma_json_fields_fail(fields: Seq<(Seq<char>, ValueView)>, i: int)
    requires
        0 <= i <= fields.len(),
        spec_json_fields(fields.take(i)) is Err,
    ensures
        spec_json_fields(fields) == spec_json_fields(fields.take(i)),
    decreases fields.len(),
{
    if i < fields.len() {
        assert(fields.drop_last().take(i) =~= fields.take(i));
        lemma_json_fields_fail(fields.drop_last(), i);
    } else {
        assert(fields.take(i) =~= fields);
    }
}

/// The JSON document of a value.
fn json_value(value: &Value) -> (r: Result<JsonDocument, JsonValueError>)
    ensures
        json_agrees(r, spec_json(value@)),
    decreases value@,
{
    match value {
        Value::Unknown => Err(JsonValueError::UnknownValueError(UnknownValueError)),
        Value::Null => Ok(json_null()),
        Value::Bool(b) => Ok(json_bool(*b)),
        Value::Number(n) => match json_number_value(n.as_str()) {
            Ok(number) => Ok(number),
            Err(error) => Err(JsonValueError::NumberParseError(error)),
        },
        Value::String(s) => Ok(json_string(s.clone())),
        Value::List(items) => {
            let ghost all = list_model(items@);
            proof {
                lemma_view_list(*items);
                assert(all.take(0) =~= Seq::empty());
            }
            let mut out: Vec<JsonDocument> = Vec::new();
            let mut i: usize = 0;
            assert(json_views(out@) =~= Seq::empty());
            while i < items.len()
                invariant
                    i <= items@.len(),
                    all == list_model(items@),
                    value@ == ValueView::List(all),
                    spec_json_items(all.take(i as int)) == Ok::<Seq<JsonView>, Failure>(
                        json_views(out@),
                    ),
                decreases items@.len() - i,
            {
                proof {
                    assert(all.take(i + 1).drop_last() =~= all.take(i as int));
                    assert(all.take(i + 1).last() == items@[i as int]@);
                    assert(all[i as int] == items@[i as int]@);
                }
                let ghost before = json_views(out@);
                match json_value(&items[i]) {
                    Err(error) => {
                        proof {
                            lemma_json_items_fail(all, i + 1);
                        }
                        return Err(error);
                    },
                    Ok(document) => {
                        out.push(document);
                        assert(json_views(out@) =~= before.push(json_view(document)));
                    },
                }
                i += 1;
            }
            assert(all.take(i as int) =~= all);
            Ok(json_array(out))
        },
        Value::Struct(fields) => {
            let ghost all = fields_model(fields@);
            proof {
                lemma_view_struct(*fields);
                assert(all.take(0) =~= Seq::empty());
            }
            let mut out: Vec<(String, JsonDocument)> = Vec::new();
            let mut i: usize = 0;
            assert(json_entries(out@) =~= Seq::empty());
            while i < fields.len()
                invariant
                    i <= fields@.len(),
                    all == fields_model(fields@),
                    value@ == ValueView::Struct(all),
                    spec_json_fields(all.take(i as int)) == Ok::<
                        Seq<(Seq<char>, JsonView)>,
                        Failure,
                    >(json_entries(out@)),
                decreases fields@.len() - i,
            {
                proof {
                    assert(all.take(i + 1).drop_last() =~= all.take(i as int));
                    assert(all.take(i + 1).last() == all[i as int]);
                    assert(all[i as int] == (fields@[i as int].0@, fields@[i as int].1@));
                }
                let ghost before = json_entries(out@);
                assert(value@->Struct_0[i as int].1 == fields@[i as int].1@);
                match json_value(&fields[i].1) {
                    Err(error) => {
                        proof {
                            lemma_json_fields_fail(all, i + 1);
                        }
                        return Err(error);
                    },
                    Ok(document) => {
                        let name = fields[i].0.clone();
                        out.push((name, document));
                        assert(json_entries(out@) =~= before.push((name@, json_view(document))));
                    },
                }
                i += 1;
            }
            assert(all.take(i as int) =~= all);
            Ok(json_object(out))
        },
    }
}

/// The JSON document of a value: null, booleans and strings as they
/// are, a number as `serde_json` reads it, a list as an array and a
/// struct as an object. A value that holds `Unknown`, or a number that
/// `serde_json` does not read, has no document; the first such part in
/// the order of the items and fields decides the error.
pub fn to_json_value(value: Value) -> (r: Result<JsonDocument, JsonValueError>)
    ensures
        json_agrees(r, spec_json(value@)),
{
    json_value(&value)
}

} // verus!
