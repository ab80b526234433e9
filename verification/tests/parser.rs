use structured_merge_diff::schema::{Atom, Scalar, Schema, SchemaMap, StructField, TypeDef, TypeRef};
use structured_merge_diff::typed::parser::{deduced_parseable_type, ParseableType, Parser};
use structured_merge_diff::typed::ValidationOption;
use structured_merge_diff::value::{Value, ValueMap};

/// A schema with one map type, `stringPair`, whose fields `key` and
/// `value` are strings.
fn test_schema() -> Parser {
    let string_field = |name: &str| StructField {
        name: name.to_string(),
        field_type: TypeRef { inlined: Box::new(Atom { scalar: Some(Scalar::String), list: None, map: None }), ..Default::default() },
        default: None,
    };
    let map = SchemaMap { fields: vec![string_field("key"), string_field("value")], ..Default::default() };
    Parser {
        schema: Schema::with_types(vec![TypeDef {
            name: "stringPair".to_string(),
            atom: Atom { scalar: None, list: None, map: Some(map) },
        }]),
    }
}

fn object(entries: Vec<(&str, Value)>) -> Value {
    let mut m = ValueMap::new();
    for (k, v) in entries {
        m.set(k.to_string(), v);
    }
    Value::Object(m)
}

#[test]
fn test_parser_new() {
    let parser = test_schema();
    assert!(parser.type_names().contains(&"stringPair"));
}

#[test]
fn test_parseable_type_from_yaml() {
    let parser = test_schema();
    let pt = parser.type_by_name("stringPair");

    // {"key": "foo", "value": "bar"}
    let tv = pt
        .from_value(object(vec![("key", Value::String("foo".into())), ("value", Value::String("bar".into()))]))
        .unwrap();
    assert!(tv.value().is_map());
}

#[test]
fn test_parseable_type_is_valid() {
    let parser = test_schema();
    assert!(parser.type_by_name("stringPair").is_valid());
    assert!(!parser.type_by_name("nonexistent").is_valid());
}

#[test]
fn test_deduced_parseable_type() {
    let pt = deduced_parseable_type();
    assert!(pt.is_valid());

    // {"a": 1, "b": "hello"}
    let tv = pt.from_value(object(vec![("a", Value::Int(1)), ("b", Value::String("hello".into()))])).unwrap();
    assert!(tv.value().is_map());
}

#[test]
fn type_names_in_order() {
    let pt = deduced_parseable_type();
    let parser = Parser { schema: pt.schema.clone() };
    assert_eq!(parser.type_names(), vec!["__untyped_atomic_", "__untyped_deduced_"]);
}

#[test]
fn from_value_reports_validation_errors() {
    let parser = test_schema();
    let pt: ParseableType = parser.type_by_name("stringPair");
    let err = pt.from_value(object(vec![("key", Value::Int(3))])).err().unwrap();
    assert!(err.to_string().starts_with("validation failed: "));
    let err = pt.from_value(Value::Int(3)).err().unwrap();
    assert!(err.to_string().starts_with("validation failed: "));
}

#[test]
fn from_value_with_opts_allows_duplicates() {
    let pt = deduced_parseable_type();
    let list = Value::List(vec![Value::Int(1), Value::Int(1)]);
    assert!(pt.from_value_with_opts(list, &[ValidationOption::AllowDuplicates]).is_ok());
}

#[test]
fn from_value_lists_every_error_in_order() {
    let parser = test_schema();
    let pt = parser.type_by_name("stringPair");
    // {"key": 3, "other": "x", "value": true}
    let err = pt
        .from_value(object(vec![
            ("key", Value::Int(3)),
            ("other", Value::String("x".into())),
            ("value", Value::Bool(true)),
        ]))
        .err()
        .unwrap();
    assert_eq!(
        err.to_string(),
        "validation failed: .key: type mismatch: expected string, got int\n\
         : unknown field: other\n\
         .value: type mismatch: expected string, got boolean"
    );
    let err = parser.type_by_name("missing").from_value(Value::Int(1)).err().unwrap();
    assert_eq!(err.to_string(), "validation failed: no type found matching: missing");
}
