use nabla_frontend::backend::{
    to_json_value, to_toml_value, to_xml_value, to_yaml_value, JsonValueError, TomlValueError,
    UnknownValueError, XmlValueError, YamlValueError,
};
use nabla_frontend::eval::Value;
use xml_builder::XMLElement;

fn render(element: &XMLElement) -> String {
    let mut out = Vec::new();
    element
        .render(&mut out, false, false, false, true)
        .expect("writing into memory");
    String::from_utf8(out).expect("text")
}

fn xml(value: Value, name: &str) -> String {
    match to_xml_value(value, name) {
        Ok(element) => render(&element),
        Err(error) => panic!("no element: {:?}", error),
    }
}

#[test]
fn xml_of_plain_values() {
    assert_eq!("<root></root>", xml(Value::Null, "root"));
    assert_eq!("<root>true</root>", xml(Value::Bool(true), "root"));
    assert_eq!("<root>false</root>", xml(Value::Bool(false), "root"));
    assert_eq!("<n>1.5</n>", xml(Value::Number("1.5".to_string()), "n"));
    assert_eq!("<s>text</s>", xml(Value::String("text".to_string()), "s"));
    assert_eq!("<root></root>", xml(Value::Struct(Vec::new()), "root"));
}

#[test]
fn xml_of_a_struct_with_a_list() {
    let value = Value::Struct(vec![
        ("a".to_string(), Value::Number("1".to_string())),
        (
            "b".to_string(),
            Value::List(vec![
                Value::String("x".to_string()),
                Value::Struct(vec![("c".to_string(), Value::Null)]),
            ]),
        ),
        ("d".to_string(), Value::List(Vec::new())),
        ("e".to_string(), Value::Bool(true)),
    ]);
    assert_eq!(
        "<root><a>1</a><b>x</b><b><c></c></b><e>true</e></root>",
        xml(value, "root")
    );
}

#[test]
fn values_without_an_xml_element() {
    assert_eq!(
        Some(XmlValueError::UnknownValueError(UnknownValueError)),
        to_xml_value(Value::Unknown, "root").err()
    );
    assert_eq!(
        Some(XmlValueError::StructlessList),
        to_xml_value(Value::List(Vec::new()), "root").err()
    );
    let nested = Value::Struct(vec![(
        "a".to_string(),
        Value::List(vec![Value::List(Vec::new()), Value::Unknown]),
    )]);
    assert_eq!(
        Some(XmlValueError::StructlessList),
        to_xml_value(nested, "root").err()
    );
    let later = Value::Struct(vec![
        ("a".to_string(), Value::Null),
        ("b".to_string(), Value::Unknown),
        ("c".to_string(), Value::List(vec![Value::List(Vec::new())])),
    ]);
    assert_eq!(
        Some(XmlValueError::UnknownValueError(UnknownValueError)),
        to_xml_value(later, "root").err()
    );
}

fn json(value: Value) -> String {
    match to_json_value(value) {
        Ok(document) => document.value.to_string(),
        Err(error) => panic!("no document: {:?}", error),
    }
}

#[test]
fn json_of_plain_values() {
    assert_eq!("null", json(Value::Null));
    assert_eq!("true", json(Value::Bool(true)));
    assert_eq!("12", json(Value::Number("12".to_string())));
    assert_eq!("1.5", json(Value::Number("1.50".to_string())));
    assert_eq!("\"text\"", json(Value::String("text".to_string())));
    assert_eq!("[]", json(Value::List(Vec::new())));
    assert_eq!("{}", json(Value::Struct(Vec::new())));
}

#[test]
fn json_of_a_struct_with_a_list() {
    let value = Value::Struct(vec![
        ("b".to_string(), Value::Number("1".to_string())),
        (
            "a".to_string(),
            Value::List(vec![
                Value::String("x".to_string()),
                Value::Null,
                Value::Struct(vec![("c".to_string(), Value::Bool(false))]),
            ]),
        ),
        ("b".to_string(), Value::Number("2".to_string())),
    ]);
    let document = to_json_value(value).expect("a document");
    let object = document.value.as_object().expect("an object");
    assert_eq!(2, object.len());
    assert_eq!(Some(2), object["b"].as_u64());
    let array = object["a"].as_array().expect("an array");
    assert_eq!(3, array.len());
    assert_eq!(Some("x"), array[0].as_str());
    assert!(array[1].is_null());
    assert_eq!(Some(false), array[2]["c"].as_bool());
}

#[test]
fn values_without_a_json_document() {
    assert_eq!(
        Some(JsonValueError::UnknownValueError(UnknownValueError)),
        to_json_value(Value::Unknown).err()
    );
    assert!(matches!(
        to_json_value(Value::Number("007".to_string())),
        Err(JsonValueError::NumberParseError(_))
    ));
    let unknown_first = Value::List(vec![
        Value::Null,
        Value::Struct(vec![("a".to_string(), Value::Unknown)]),
        Value::Number("1.".to_string()),
    ]);
    assert_eq!(
        Some(JsonValueError::UnknownValueError(UnknownValueError)),
        to_json_value(unknown_first).err()
    );
    let number_first = Value::Struct(vec![
        ("a".to_string(), Value::Number("x".to_string())),
        ("b".to_string(), Value::Unknown),
    ]);
    assert!(matches!(
        to_json_value(number_first),
        Err(JsonValueError::NumberParseError(_))
    ));
}

fn yaml(value: Value) -> serde_yaml::Value {
    match to_yaml_value(value) {
        Ok(document) => document.value,
        Err(error) => panic!("no document: {:?}", error),
    }
}

#[test]
fn yaml_of_plain_values() {
    assert_eq!(serde_yaml::Value::Null, yaml(Value::Null));
    assert_eq!(serde_yaml::Value::Bool(false), yaml(Value::Bool(false)));
    assert_eq!(Some(12), yaml(Value::Number("12".to_string())).as_u64());
    assert_eq!(
        serde_yaml::Value::String("text".to_string()),
        yaml(Value::String("text".to_string()))
    );
    assert_eq!(
        serde_yaml::Value::Sequence(Vec::new()),
        yaml(Value::List(Vec::new()))
    );
}

#[test]
fn yaml_mapping_keeps_the_order_of_the_fields() {
    let value = Value::Struct(vec![
        ("b".to_string(), Value::Number("1".to_string())),
        ("a".to_string(), Value::List(vec![Value::Null, Value::Bool(true)])),
        ("b".to_string(), Value::String("again".to_string())),
    ]);
    let document = yaml(value);
    let mapping = document.as_mapping().expect("a mapping");
    let entries: Vec<(&serde_yaml::Value, &serde_yaml::Value)> = mapping.iter().collect();
    assert_eq!(2, entries.len());
    assert_eq!(Some("b"), entries[0].0.as_str());
    assert_eq!(Some("again"), entries[0].1.as_str());
    assert_eq!(Some("a"), entries[1].0.as_str());
    assert_eq!(
        &serde_yaml::Value::Sequence(vec![serde_yaml::Value::Null, serde_yaml::Value::Bool(true)]),
        entries[1].1
    );
}

#[test]
fn values_without_a_yaml_document() {
    assert_eq!(
        Some(YamlValueError::UnknownValueError(UnknownValueError)),
        to_yaml_value(Value::List(vec![Value::Null, Value::Unknown])).err()
    );
    assert!(matches!(
        to_yaml_value(Value::Struct(vec![
            ("a".to_string(), Value::Number("one".to_string())),
            ("b".to_string(), Value::Unknown),
        ])),
        Err(YamlValueError::NumberParseError(_))
    ));
}

fn toml(value: Value) -> Option<toml::Value> {
    match to_toml_value(value) {
        Ok(document) => document.map(|document| document.value),
        Err(error) => panic!("no document: {:?}", error),
    }
}

#[test]
fn toml_of_plain_values() {
    assert_eq!(None, toml(Value::Null));
    assert_eq!(Some(toml::Value::Boolean(true)), toml(Value::Bool(true)));
    assert_eq!(
        Some(toml::Value::Integer(12)),
        toml(Value::Number("12".to_string()))
    );
    assert_eq!(
        Some(toml::Value::Integer(-7)),
        toml(Value::Number("-007".to_string()))
    );
    assert_eq!(
        Some(toml::Value::Integer(i64::MIN)),
        toml(Value::Number("-9223372036854775808".to_string()))
    );
    assert_eq!(
        Some(toml::Value::Float(1.5)),
        toml(Value::Number("1.5".to_string()))
    );
    assert_eq!(
        Some(toml::Value::String("text".to_string())),
        toml(Value::String("text".to_string()))
    );
}

#[test]
fn toml_leaves_null_out() {
    let value = Value::Struct(vec![
        ("a".to_string(), Value::Null),
        (
            "b".to_string(),
            Value::List(vec![
                Value::Number("1".to_string()),
                Value::Null,
                Value::Number("2".to_string()),
            ]),
        ),
        ("c".to_string(), Value::Struct(vec![("d".to_string(), Value::Null)])),
    ]);
    let document = toml(value).expect("a document");
    let table = document.as_table().expect("a table");
    assert_eq!(2, table.len());
    assert_eq!(
        Some(&toml::Value::Array(vec![toml::Value::Integer(1), toml::Value::Integer(2)])),
        table.get("b")
    );
    assert_eq!(Some(0), table.get("c").and_then(|c| c.as_table()).map(|c| c.len()));
}

#[test]
fn values_without_a_toml_document() {
    assert_eq!(
        Some(TomlValueError::UnknownValueError(UnknownValueError)),
        to_toml_value(Value::Unknown).err()
    );
    assert!(matches!(
        to_toml_value(Value::Number("9223372036854775808".to_string())),
        Err(TomlValueError::ParseIntError(_))
    ));
    assert!(matches!(
        to_toml_value(Value::Number("".to_string())),
        Err(TomlValueError::ParseIntError(_))
    ));
    assert!(matches!(
        to_toml_value(Value::Number("+".to_string())),
        Err(TomlValueError::ParseIntError(_))
    ));
    assert!(matches!(
        to_toml_value(Value::Number("1_000".to_string())),
        Err(TomlValueError::ParseIntError(_))
    ));
    assert!(matches!(
        to_toml_value(Value::Number("1.2.3".to_string())),
        Err(TomlValueError::ParseFloatError(_))
    ));
    assert!(matches!(
        to_toml_value(Value::List(vec![
            Value::Number("x".to_string()),
            Value::Unknown,
        ])),
        Err(TomlValueError::ParseIntError(_))
    ));
}
