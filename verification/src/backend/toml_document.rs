//! Values as TOML documents of `toml`.

use crate::backend::UnknownValueError;
use crate::eval::value::{
    fields_model, lemma_view_list, lemma_view_struct, list_model, Value, ValueView,
};
use vstd::prelude::*;
use vstd::string::*;

verus! {

/// A TOML document: a value of `toml`. Nothing of its inside is visible
/// to the proofs.
#[verifier::external_body]
pub struct TomlDocument {
    pub value: toml::Value,
}

/// The error of std for a text that is no integer. Nothing of its
/// inside is visible here.
#[verifier::external_type_specification]
#[verifier::external_body]
pub struct ExParseIntError(std::num::ParseIntError);

/// The error of std for a text that is no number with a fraction.
/// Nothing of its inside is visible here.
#[verifier::external_type_specification]
#[verifier::external_body]
pub struct ExParseFloatError(std::num::ParseFloatError);

/// Why a value has no TOML document.
#[derive(Debug, PartialEq, Eq)]
pub enum TomlValueError {
    /// The value is unknown, or a part of it.
    UnknownValueError(UnknownValueError),
    /// A number without a dot is no integer of 64 bits.
    ParseIntError(std::num::ParseIntError),
    /// A number with a dot is no number that std reads.
    ParseFloatError(std::num::ParseFloatError),
}

/// What a TOML document holds. A number with a fraction is held by the
/// text that stands for it; a table by the value of each of its names.
pub ghost enum TomlView {
    Boolean(bool),
    Integer(int),
    Float(Seq<char>),
    String(Seq<char>),
    Array(Seq<TomlView>),
    Table(Map<Seq<char>, TomlView>),
}

/// What a TOML document holds.
pub uninterp spec fn toml_view(document: TomlDocument) -> TomlView;

/// The number with a fraction that std reads from a text, by the text
/// that stands for it in a document; `None` where it reads no number.
pub uninterp spec fn toml_float(text: Seq<char>) -> Option<Seq<char>>;

/// What a list of TOML documents holds.
pub open spec fn toml_views(values: Seq<TomlDocument>) -> Seq<TomlView> {
    Seq::new(values.len(), |i: int| toml_view(values[i]))
}

/// What a list of names and TOML documents holds.
pub open spec fn toml_entries(fields: Seq<(String, TomlDocument)>) -> Seq<
    (Seq<char>, TomlView),
> {
    Seq::new(fields.len(), |i: int| (fields[i].0@, toml_view(fields[i].1)))
}

/// The table that is filled with the entries in turn: where a name
/// occurs twice, the later value stays.
pub open spec fn toml_table_of(entries: Seq<(Seq<char>, TomlView)>) -> Map<Seq<char>, TomlView>
    decreases entries.len(),
{
    if entries.len() == 0 {
        Map::empty()
    } else {
        toml_table_of(entries.drop_last()).insert(entries.last().0, entries.last().1)
    }
}

/// The number that decimal digits stand for.
pub open spec fn digits_value(digits: Seq<char>) -> int
    decreases digits.len(),
{
    if digits.len() == 0 {
        0
    } else {
        digits_value(digits.drop_last()) * 10 + (digits.last() as int - '0' as int)
    }
}

/// Whether every character is a decimal digit.
pub open spec fn all_digits(digits: Seq<char>) -> bool {
    forall|i: int| 0 <= i < digits.len() ==> '0' <= #[trigger] digits[i] <= '9'
}

/// The integer of 64 bits that a text stands for: an optional sign,
/// `+` or `-`, and then decimal digits, at least one, and nothing else.
/// `None` where the text is of another form or the number does not fit.
pub open spec fn spec_integer(text: Seq<char>) -> Option<int> {
    let signed = text.len() > 0 && (text[0] == '-' || text[0] == '+');
    let digits = if signed {
        text.skip(1)
    } else {
        text
    };
    let value = if signed && text[0] == '-' {
        -digits_value(digits)
    } else {
        digits_value(digits)
    };
    if digits.len() > 0 && all_digits(digits) && i64::MIN <= value <= i64::MAX {
        Some(value)
    } else {
        None
    }
}

/// `i64::from_str`: the integer that the text stands for, or an error
/// where it stands for none.
#[verifier::external_body]
fn parse_integer(text: &str) -> (r: Result<i64, std::num::ParseIntError>)
    ensures
        r is Ok == spec_integer(text@) is Some,
        r matches Ok(value) ==> spec_integer(text@) == Some(value as int),
{
    text.parse::<i64>()
}

/// `toml::Value::Boolean`.
#[verifier::external_body]
fn toml_boolean(b: bool) -> (r: TomlDocument)
    ensures
        toml_view(r) == TomlView::Boolean(b),
{
    TomlDocument { value: toml::Value::Boolean(b) }
}

/// `toml::Value::Integer`.
#[verifier::external_body]
fn toml_integer(value: i64) -> (r: TomlDocument)
    ensures
        toml_view(r) == TomlView::Integer(value as int),
{
    TomlDocument { value: toml::Value::Integer(value) }
}

/// The `from_str` of std for numbers with a fraction, and
/// `toml::Value::Float` around the number it read: the number that the
/// text stands for, or the error where it stands for none.
#[verifier::external_body]
fn toml_float_value(text: &str) -> (r: Result<TomlDocument, std::num::ParseFloatError>)
    ensures
        r is Ok == toml_float(text@) is Some,
        r matches Ok(document) ==> toml_view(document) == TomlView::Float(
            toml_float(text@)->Some_0,
        ),
{
    match text.parse() {
        Ok(number) => Ok(TomlDocument { value: toml::Value::Float(number) }),
        Err(error) => Err(error),
    }
}

/// `toml::Value::String`.
#[verifier::external_body]
fn toml_string(s: String) -> (r: TomlDocument)
    ensures
        toml_view(r) == TomlView::String(s@),
{
    TomlDocument { value: toml::Value::String(s) }
}

/// `toml::Value::Array`.
#[verifier::external_body]
fn toml_array(items: Vec<TomlDocument>) -> (r: TomlDocument)
    ensures
        toml_view(r) == TomlView::Array(toml_views(items@)),
{
    let values = items.into_iter().map(|item| item.value).collect();
    TomlDocument { value: toml::Value::Array(values) }
}

/// `toml::map::Map::from_iter`, and `toml::Value::Table` around the map:
/// the entries are put into the map in turn, and a later value takes
/// the place of an earlier one of the same name.
#[verifier::external_body]
fn toml_table(fields: Vec<(String, TomlDocument)>) -> (r: TomlDocument)
    ensures
        toml_view(r) == TomlView::Table(toml_table_of(toml_entries(fields@))),
{
    let map = fields.into_iter().map(|field| (field.0, field.1.value)).collect();
    TomlDocument { value: toml::Value::Table(map) }
}

/// Why a value has no TOML document: the first part of it, in the order
/// of its items and fields, that has none.
pub ghost enum TomlFailure {
    /// An unknown value.
    Unknown,
    /// A number without a dot that is no integer of 64 bits, with its
    /// text.
    Integer(Seq<char>),
    /// A number with a dot that std does not read, with its text.
    Float(Seq<char>),
}

/// The TOML document of a value, if it has one: booleans and strings as
/// they are, a number with a dot as a number with a fraction and any
/// other number as an integer, a list as an array and a struct as a
/// table. Null has no document, and is left out of arrays and tables.
pub open spec fn spec_toml(value: ValueView) -> Result<Option<TomlView>, TomlFailure>
    decreases value, 0int,
{
    match value {
        ValueView::Unknown => Err(TomlFailure::Unknown),
        ValueView::Null => Ok(None),
        ValueView::Bool(b) => Ok(Some(TomlView::Boolean(b))),
        ValueView::Number(n) => if n.contains('.') {
            match toml_float(n) {
                Some(number) => Ok(Some(TomlView::Float(number))),
                None => Err(TomlFailure::Float(n)),
            }
        } else {
            match spec_integer(n) {
                Some(number) => Ok(Some(TomlView::Integer(number))),
                None => Err(TomlFailure::Integer(n)),
            }
        },
        ValueView::String(s) => Ok(Some(TomlView::String(s))),
        ValueView::List(items) => match spec_toml_items(items) {
            Ok(documents) => Ok(Some(TomlView::Array(documents))),
            Err(failure) => Err(failure),
        },
        ValueView::Struct(fields) => match spec_toml_fields(fields) {
            Ok(entries) => Ok(Some(TomlView::Table(toml_table_of(entries)))),
            Err(failure) => Err(failure),
        },
    }
}

/// The documents of the items of a list that have one. The first item
/// that fails decides.
pub open spec fn spec_toml_items(items: Seq<ValueView>) -> Result<Seq<TomlView>, TomlFailure>
    decreases items, 1int,
{
    if items.len() == 0 {
        Ok(Seq::empty())
    } else {
        match spec_toml_items(items.drop_last()) {
            Err(failure) => Err(failure),
            Ok(before) => match spec_toml(items.last()) {
                Ok(Some(document)) => Ok(before.push(document)),
                Ok(None) => Ok(before),
                Err(failure) => Err(failure),
            },
        }
    }
}

/// The names and documents of the fields of a struct that have a
/// document. The first field that fails decides.
pub open spec fn spec_toml_fields(fields: Seq<(Seq<char>, ValueView)>) -> Result<
    Seq<(Seq<char>, TomlView)>,
    TomlFailure,
>
    decreases fields, 1int,
{
    if fields.len() == 0 {
        Ok(Seq::empty())
    } else {
        match spec_toml_fields(fields.drop_last()) {
            Err(failure) => Err(failure),
            Ok(before) => match spec_toml(fields.last().1) {
                Ok(Some(document)) => Ok(before.push((fields.last().0, document))),
                Ok(None) => Ok(before),
                Err(failure) => Err(failure),
            },
        }
    }
}

/// Whether a result is what the value calls for: the document if there
/// is one, or the error of the first part that fails.
pub open spec fn toml_agrees(
    r: Result<Option<TomlDocument>, TomlValueError>,
    expected: Result<Option<TomlView>, TomlFailure>,
) -> bool {
    match expected {
        Ok(Some(document)) => r matches Ok(Some(value)) && toml_view(value) == document,
        Ok(None) => r matches Ok(None),
        Err(TomlFailure::Unknown) => r matches Err(TomlValueError::UnknownValueError(_)),
        Err(TomlFailure::Integer(_)) => r matches Err(TomlValueError::ParseIntError(_)),
        Err(TomlFailure::Float(_)) => r matches Err(TomlValueError::ParseFloatError(_)),
    }
}

/// Once an item fails, the list fails, for the same reason.
proof fn lemma_toml_items_fail(items: Seq<ValueView>, i: int)
    requires
        0 <= i <= items.len(),
        spec_toml_items(items.take(i)) is Err,
    ensures
        spec_toml_items(items) == spec_toml_items(items.take(i)),
    decreases items.len(),
{
    if i < items.len() {
        assert(items.drop_last().take(i) =~= items.take(i));
        lemma_toml_items_fail(items.drop_last(), i);
    } else {
        assert(items.take(i) =~= items);
    }
}

/// Once a field fails, the struct fails, for the same reason.
proof fn lemma_toml_fields_fail(fields: Seq<(Seq<char>, ValueView)>, i: int)
    requires
        0 <= i <= fields.len(),
        spec_toml_fields(fields.take(i)) is Err,
    ensures
        spec_toml_fields(fields) == spec_toml_fields(fields.take(i)),
    decreases fields.len(),
{
    if i < fields.len() {
        assert(fields.drop_last().take(i) =~= fields.take(i));
        lemma_toml_fields_fail(fields.drop_last(), i);
    } else {
        assert(fields.take(i) =~= fields);
    }
}

/// Whether a text holds a dot.
fn has_dot(text: &str) -> (r: bool)
    ensures
        r == text@.contains('.'),
{
    let n = text.unicode_len();
    let mut i: usize = 0;
    while i < n
        invariant
            n == text@.len(),
            i <= n,
            forall|j: int| 0 <= j < i ==> text@[j] != '.',
        decreases n - i,
    {
        if text.get_char(i) == '.' {
            return true;
        }
        i += 1;
    }
    false
}

/// The TOML document of a value, if it has one.
fn toml_value(value: &Value) -> (r: Result<Option<TomlDocument>, TomlValueError>)
    ensures
        toml_agrees(r, spec_toml(value@)),
    decreases value@,
{
    match value {
        Value::Unknown => Err(TomlValueError::UnknownValueError(UnknownValueError)),
        Value::Null => Ok(None),
        Value::Bool(b) => Ok(Some(toml_boolean(*b))),
        Value::Number(n) => {
            if has_dot(n.as_str()) {
                match toml_float_value(n.as_str()) {
                    Ok(number) => Ok(Some(number)),
                    Err(error) => Err(TomlValueError::ParseFloatError(error)),
                }
            } else {
                match parse_integer(n.as_str()) {
                    Ok(number) => Ok(Some(toml_integer(number))),
                    Err(error) => Err(TomlValueError::ParseIntError(error)),
                }
            }
        },
        Value::String(s) => Ok(Some(toml_string(s.clone()))),
        Value::List(items) => {
            let ghost all = list_model(items@);
            proof {
                lemma_view_list(*items);
                assert(all.take(0) =~= Seq::empty());
            }
            let mut out: Vec<TomlDocument> = Vec::new();
            let mut i: usize = 0;
            assert(toml_views(out@) =~= Seq::empty());
            while i < items.len()
                invariant
                    i <= items@.len(),
                    all == list_model(items@),
                    value@ == ValueView::List(all),
                    spec_toml_items(all.take(i as int)) == Ok::<Seq<TomlView>, TomlFailure>(
                        toml_views(out@),
                    ),
                decreases items@.len() - i,
            {
                proof {
                    assert(all.take(i + 1).drop_last() =~= all.take(i as int));
                    assert(all.take(i + 1).last() == items@[i as int]@);
                    assert(all[i as int] == items@[i as int]@);
                }
                let ghost before = toml_views(out@);
                match toml_value(&items[i]) {
                    Err(error) => {
                        proof {
                            lemma_toml_items_fail(all, i + 1);
                        }
                        return Err(error);
                    },
                    Ok(Some(document)) => {
                        out.push(document);
                        assert(toml_views(out@) =~= before.push(toml_view(document)));
                    },
                    Ok(None) => {},
                }
                i += 1;
            }
            assert(all.take(i as int) =~= all);
            Ok(Some(toml_array(out)))
        },
        Value::Struct(fields) => {
            let ghost all = fields_model(fields@);
            proof {
                lemma_view_struct(*fields);
                assert(all.take(0) =~= Seq::empty());
            }
            let mut out: Vec<(String, TomlDocument)> = Vec::new();
            let mut i: usize = 0;
            assert(toml_entries(out@) =~= Seq::empty());
            while i < fields.len()
                invariant
                    i <= fields@.len(),
                    all == fields_model(fields@),
                    value@ == ValueView::Struct(all),
                    spec_toml_fields(all.take(i as int)) == Ok::<
                        Seq<(Seq<char>, TomlView)>,
                        TomlFailure,
                    >(toml_entries(out@)),
                decreases fields@.len() - i,
            {
                proof {
                    assert(all.take(i + 1).drop_last() =~= all.take(i as int));
                    assert(all.take(i + 1).last() == all[i as int]);
                    assert(all[i as int] == (fields@[i as int].0@, fields@[i as int].1@));
                }
                let ghost before = toml_entries(out@);
                assert(value@->Struct_0[i as int].1 == fields@[i as int].1@);
                match toml_value(&fields[i].1) {
                    Err(error) => {
                        proof {
                            lemma_toml_fields_fail(all, i + 1);
                        }
                        return Err(error);
                    },
                    Ok(Some(document)) => {
                        let name = fields[i].0.clone();
                        out.push((name, document));
                        assert(toml_entries(out@) =~= before.push((name@, toml_view(document))));
                    },
                    Ok(None) => {},
                }
                i += 1;
            }
            assert(all.take(i as int) =~= all);
            Ok(Some(toml_table(out)))
        },
    }
}

/// The TOML document of a value, if it has one: booleans and strings as
/// they are, a number with a dot as a number with a fraction and any
/// other number as an integer of 64 bits, a list as an array and a
/// struct as a table. Null has no document, and is left out of arrays
/// and tables. A value that holds `Unknown`, or a number that cannot be
/// read, fails; the first such part in the order of the items and
/// fields decides the error.
pub fn to_toml_value(value: Value) -> (r: Result<Option<TomlDocument>, TomlValueError>)
    ensures
        toml_agrees(r, spec_toml(value@)),
{
    toml_value(&value)
}

} // verus!
