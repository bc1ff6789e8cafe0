//! From values to the documents of the output formats.

pub mod json_document;
pub mod toml_document;
pub mod xml_element;
pub mod yaml_document;

pub use crate::backend::json_document::{to_json_value, JsonDocument, JsonValueError};
pub use crate::backend::toml_document::{to_toml_value, TomlDocument, TomlValueError};
pub use crate::backend::xml_element::{to_xml_value, XmlValueError};
pub use crate::backend::yaml_document::{to_yaml_value, YamlDocument, YamlValueError};
use vstd::prelude::*;

verus! {

/// A value that holds `Unknown` has no document.
#[derive(Clone, Copy, Debug, PartialEq, Eq)]
pub struct UnknownValueError;

/// Why a value has no document: the first part of it, in the order of
/// its items and fields, that has none.
pub ghost enum Failure {
    /// An unknown value.
    Unknown,
    /// A number that the format does not read, with its text.
    Number(Seq<char>),
}

} // verus!
