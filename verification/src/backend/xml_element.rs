//! Values as XML elements of `xml_builder`.

use crate::backend::UnknownValueError;
use crate::eval::value::{
    fields_model, lemma_view_list, lemma_view_struct, list_model, Value, ValueView,
};
use vstd::prelude::*;
use vstd::string::*;
use xml_builder::XMLElement;

verus! {

/// Why a value has no XML element.
#[derive(Clone, Copy, Debug, PartialEq, Eq)]
pub enum XmlValueError {
    /// The value is unknown, or a part of it.
    UnknownValueError(UnknownValueError),
    /// A list stands outside a struct, or directly inside a list.
    StructlessList,
}

/// An element of `xml_builder`. Nothing of its inside is visible here.
#[verifier::external_type_specification]
#[verifier::external_body]
pub struct ExXMLElement(XMLElement);

/// What an XML element holds: its name, and its text or its children.
pub ghost struct XmlView {
    pub name: Seq<char>,
    pub text: Option<Seq<char>>,
    pub children: Seq<XmlView>,
}

/// What an element of `xml_builder` holds.
pub uninterp spec fn xml_view(element: XMLElement) -> XmlView;

/// `XMLElement::new`: an element of the given name that holds neither
/// text nor children.
#[verifier::external_body]
fn new_element(name: &str) -> (r: XMLElement)
    ensures
        xml_view(r) == (XmlView { name: name@, text: None, children: Seq::empty() }),
{
    XMLElement::new(name)
}

/// `XMLElement::add_text`: an element that holds nothing takes the text
/// as it is; any other element refuses it and stays what it was. The
/// result says whether the text was taken.
#[verifier::external_body]
fn add_text(element: &mut XMLElement, text: String) -> (r: bool)
    ensures
        r == (xml_view(*old(element)).text is None && xml_view(*old(element)).children.len() == 0),
        r ==> xml_view(*final(element)) == (XmlView {
            text: Some(text@),
            ..xml_view(*old(element))
        }),
        !r ==> xml_view(*final(element)) == xml_view(*old(element)),
{
    element.add_text(text).is_ok()
}

/// `XMLElement::add_child`: an element without text takes the child
/// after the children it has; an element with text refuses it and stays
/// what it was. The result says whether the child was taken.
#[verifier::external_body]
fn add_child(element: &mut XMLElement, child: XMLElement) -> (r: bool)
    ensures
        r == (xml_view(*old(element)).text is None),
        r ==> xml_view(*final(element)) == (XmlView {
            children: xml_view(*old(element)).children.push(xml_view(child)),
            ..xml_view(*old(element))
        }),
        !r ==> xml_view(*final(element)) == xml_view(*old(element)),
{
    element.add_child(child).is_ok()
}

/// The text of a boolean.
pub open spec fn bool_text(b: bool) -> Seq<char> {
    if b {
        "true"@
    } else {
        "false"@
    }
}

/// The element of the given name for a value. Null is an empty element;
/// a boolean, a number or a string is an element with that text; a
/// struct is an element with the elements of its fields as children. An
/// unknown value and a list that is no field of a struct have no
/// element.
pub open spec fn spec_xml(value: ValueView, name: Seq<char>) -> Result<XmlView, XmlValueError>
    decreases value, 0int,
{
    match value {
        ValueView::Unknown => Err(XmlValueError::UnknownValueError(UnknownValueError)),
        ValueView::Null => Ok(XmlView { name, text: None, children: Seq::empty() }),
        ValueView::Bool(b) => Ok(
            XmlView { name, text: Some(bool_text(b)), children: Seq::empty() },
        ),
        ValueView::Number(n) => Ok(XmlView { name, text: Some(n), children: Seq::empty() }),
        ValueView::String(s) => Ok(XmlView { name, text: Some(s), children: Seq::empty() }),
        ValueView::List(_) => Err(XmlValueError::StructlessList),
        ValueView::Struct(fields) => match spec_xml_fields(fields) {
            Ok(children) => Ok(XmlView { name, text: None, children }),
            Err(error) => Err(error),
        },
    }
}

/// The elements of the fields of a struct, in the order of the fields:
/// one element for a field, named by the field; for a field that is a
/// list, one element for each of its items, each named by the field.
/// The first value that has no element decides.
pub open spec fn spec_xml_fields(fields: Seq<(Seq<char>, ValueView)>) -> Result<
    Seq<XmlView>,
    XmlValueError,
>
    decreases fields, 2int,
{
    if fields.len() == 0 {
        Ok(Seq::empty())
    } else {
        match spec_xml_fields(fields.drop_last()) {
            Err(error) => Err(error),
            Ok(before) => match fields.last().1 {
                ValueView::List(items) => match spec_xml_items(items, fields.last().0) {
                    Ok(elements) => Ok(before + elements),
                    Err(error) => Err(error),
                },
                value => match spec_xml(value, fields.last().0) {
                    Ok(element) => Ok(before.push(element)),
                    Err(error) => Err(error),
                },
            },
        }
    }
}

/// The elements of the items of a list, each of the given name. The
/// first item that has no element decides.
pub open spec fn spec_xml_items(items: Seq<ValueView>, name: Seq<char>) -> Result<
    Seq<XmlView>,
    XmlValueError,
>
    decreases items, 1int,
{
    if items.len() == 0 {
        Ok(Seq::empty())
    } else {
        match spec_xml_items(items.drop_last(), name) {
            Err(error) => Err(error),
            Ok(before) => match spec_xml(items.last(), name) {
                Ok(element) => Ok(before.push(element)),
                Err(error) => Err(error),
            },
        }
    }
}

/// Once a field has no element, the struct has none, for the same
/// reason.
proof fn lemma_xml_fields_fail(fields: Seq<(Seq<char>, ValueView)>, i: int)
    requires
        0 <= i <= fields.len(),
        spec_xml_fields(fields.take(i)) is Err,
    ensures
        spec_xml_fields(fields) == spec_xml_fields(fields.take(i)),
    decreases fields.len(),
{
    if i < fields.len() {
        assert(fields.drop_last().take(i) =~= fields.take(i));
        lemma_xml_fields_fail(fields.drop_last(), i);
    } else {
        assert(fields.take(i) =~= fields);
    }
}

/// Once an item has no element, the list has none, for the same reason.
proof fn lemma_xml_items_fail(items: Seq<ValueView>, name: Seq<char>, i: int)
    requires
        0 <= i <= items.len(),
        spec_xml_items(items.take(i), name) is Err,
    ensures
        spec_xml_items(items, name) == spec_xml_items(items.take(i), name),
    decreases items.len(),
{
    if i < items.len() {
        assert(items.drop_last().take(i) =~= items.take(i));
        lemma_xml_items_fail(items.drop_last(), name, i);
    } else {
        assert(items.take(i) =~= items);
    }
}

/// What a result holds: the content of the element, or the error.
pub open spec fn xml_result(r: Result<XMLElement, XmlValueError>) -> Result<
    XmlView,
    XmlValueError,
> {
    match r {
        Ok(element) => Ok(xml_view(element)),
        Err(error) => Err(error),
    }
}

/// Adds the elements of the items of a list to an element, each under
/// the given name.
fn add_items(element: &mut XMLElement, items: &Vec<Value>, name: &str) -> (r: Result<
    (),
    XmlValueError,
>)
    requires
        xml_view(*old(element)).text is None,
    ensures
        match spec_xml_items(list_model(items@), name@) {
            Ok(elements) => r is Ok && xml_view(*final(element)) == (XmlView {
                children: xml_view(*old(element)).children + elements,
                ..xml_view(*old(element))
            }),
            Err(error) => r == Err::<(), XmlValueError>(error),
        },
    decreases list_model(items@), 1int,
{
    let ghost all = list_model(items@);
    let ghost start = xml_view(*element);
    let mut i: usize = 0;
    assert(all.take(0) =~= Seq::empty());
    assert(start.children + Seq::<XmlView>::empty() =~= start.children);
    while i < items.len()
        invariant
            i <= items@.len(),
            all == list_model(items@),
            start == xml_view(*old(element)),
            spec_xml_items(all.take(i as int), name@) is Ok,
            xml_view(*element) == (XmlView {
                children: start.children + spec_xml_items(all.take(i as int), name@)->Ok_0,
                ..start
            }),
            start.text is None,
        decreases items@.len() - i,
    {
        proof {
            assert(all.take(i + 1).drop_last() =~= all.take(i as int));
            assert(all.take(i + 1).last() == items@[i as int]@);
            assert(all[i as int] == items@[i as int]@);
        }
        let ghost before = spec_xml_items(all.take(i as int), name@)->Ok_0;
        match xml_element(&items[i], name) {
            Err(error) => {
                proof {
                    lemma_xml_items_fail(all, name@, i + 1);
                }
                return Err(error);
            },
            Ok(child) => {
                let taken = add_child(element, child);
                assert(taken);
                assert(start.children + before.push(xml_view(child)) =~= (start.children
                    + before).push(xml_view(child)));
            },
        }
        i += 1;
    }
    assert(all.take(i as int) =~= all);
    Ok(())
}

/// The element of the given name for a value.
fn xml_element(value: &Value, name: &str) -> (r: Result<XMLElement, XmlValueError>)
    ensures
        xml_result(r) == spec_xml(value@, name@),
    decreases value@, 0int,
{
    let mut element = new_element(name);
    match value {
        Value::Unknown => Err(XmlValueError::UnknownValueError(UnknownValueError)),
        Value::Null => Ok(element),
        Value::Bool(b) => {
            let text = if *b {
                "true".to_string()
            } else {
                "false".to_string()
            };
            let taken = add_text(&mut element, text);
            assert(taken);
            Ok(element)
        },
        Value::Number(n) => {
            let taken = add_text(&mut element, n.clone());
            assert(taken);
            Ok(element)
        },
        Value::String(s) => {
            let taken = add_text(&mut element, s.clone());
            assert(taken);
            Ok(element)
        },
        Value::List(_) => Err(XmlValueError::StructlessList),
        Value::Struct(fields) => {
            let ghost all = fields_model(fields@);
            proof {
                lemma_view_struct(*fields);
                assert(all.take(0) =~= Seq::empty());
            }
            let mut i: usize = 0;
            while i < fields.len()
                invariant
                    i <= fields@.len(),
                    all == fields_model(fields@),
                    value@ == ValueView::Struct(all),
                    spec_xml_fields(all.take(i as int)) is Ok,
                    xml_view(element) == (XmlView {
                        name: name@,
                        text: None,
                        children: spec_xml_fields(all.take(i as int))->Ok_0,
                    }),
                decreases fields@.len() - i,
            {
                proof {
                    assert(all.take(i + 1).drop_last() =~= all.take(i as int));
                    assert(all.take(i + 1).last() == all[i as int]);
                    assert(all[i as int] == (fields@[i as int].0@, fields@[i as int].1@));
                }
                let ghost before = spec_xml_fields(all.take(i as int))->Ok_0;
                let field = &fields[i];
                match &field.1 {
                    Value::List(items) => {
                        proof {
                            lemma_view_list(*items);
                            assert(all[i as int].1 == ValueView::List(list_model(items@)));
                            assert(value@->Struct_0[i as int].1->List_0 == list_model(items@));
                        }
                        match add_items(&mut element, items, field.0.as_str()) {
                            Err(error) => {
                                proof {
                                    lemma_xml_fields_fail(all, i + 1);
                                }
                                return Err(error);
                            },
                            Ok(_) => {},
                        }
                    },
                    other => {
                        assert(!(other@ is List)) by {
                            if other@ is List {
                                reveal_with_fuel(Value::model, 2);
                            }
                        }
                        match xml_element(other, field.0.as_str()) {
                            Err(error) => {
                                proof {
                                    lemma_xml_fields_fail(all, i + 1);
                                }
                                return Err(error);
                            },
                            Ok(child) => {
                                let taken = add_child(&mut element, child);
                                assert(taken);
                            },
                        }
                    },
                }
                i += 1;
            }
            assert(all.take(i as int) =~= all);
            Ok(element)
        },
    }
}

/// The XML element of the given name for a value: an empty element for
/// null, an element with text for a boolean, a number or a string, and
/// for a struct an element with one child for each field, or one for
/// each item of a field that is a list. An unknown value has no element,
/// and neither has a list that is no field of a struct; the first such
/// value in the order of the fields decides the error.
pub fn to_xml_value(value: Value, name: &str) -> (r: Result<XMLElement, XmlValueError>)
    ensures
        xml_result(r) == spec_xml(value@, name@),
{
    xml_element(&value, name)
}

} // verus!
