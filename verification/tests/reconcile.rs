use structured_merge_diff::fieldpath::path::{Path, PathElement};
use structured_merge_diff::fieldpath::set::FieldPathSet;
use structured_merge_diff::fieldpath::{APIVersion, ManagedFields, VersionedSet};
use structured_merge_diff::merge::Updater;
use structured_merge_diff::schema::{
    Atom, ElementRelationship, List, Scalar, Schema, SchemaMap, StructField, TypeDef, TypeRef,
};
use structured_merge_diff::typed::reconcile_schema::reconcile_field_set_with_schema;
use structured_merge_diff::typed::TypedValue;
use structured_merge_diff::value::{Field, FieldList, Value, ValueMap};

fn named(n: &str) -> TypeRef {
    TypeRef { named_type: Some(n.to_string()), ..Default::default() }
}

fn scalar(s: Scalar) -> TypeRef {
    TypeRef { inlined: Box::new(Atom { scalar: Some(s), ..Default::default() }), ..Default::default() }
}

fn field_of(name: &str, t: TypeRef) -> StructField {
    StructField { name: name.to_string(), field_type: t, default: None }
}

fn map_type(name: &str, m: SchemaMap) -> TypeDef {
    TypeDef { name: name.to_string(), atom: Atom { map: Some(m), ..Default::default() } }
}

fn list_type(name: &str, l: List) -> TypeDef {
    TypeDef { name: name.to_string(), atom: Atom { list: Some(l), ..Default::default() } }
}

fn fields_map(fields: Vec<StructField>, er: ElementRelationship) -> SchemaMap {
    SchemaMap { fields, element_relationship: er, ..Default::default() }
}

/// The atom of deduced values: an untyped scalar, an atomic list, a map of
/// deduced values.
fn deduced_atom(list_item: &str, map_item: &str, map_er: ElementRelationship) -> Atom {
    Atom {
        scalar: Some(Scalar::Untyped),
        list: Some(List { element_type: named(list_item), element_relationship: ElementRelationship::Atomic, keys: vec![] }),
        map: Some(SchemaMap { element_type: named(map_item), element_relationship: map_er, ..Default::default() }),
    }
}

/// The schema of the tests: granular, or with the struct, lists and string
/// map made atomic.
fn test_schema(version: &str, atomic: bool) -> Schema {
    let er = |a: bool, granular: ElementRelationship| if a { ElementRelationship::Atomic } else { granular };
    let inline_deduced = TypeRef {
        inlined: Box::new(deduced_atom("__untyped_atomic_", "__untyped_deduced_", ElementRelationship::Separable)),
        ..Default::default()
    };
    let object_list = if atomic {
        List { element_type: named("listItem"), element_relationship: ElementRelationship::Atomic, keys: vec![] }
    } else {
        List {
            element_type: named("listItem"),
            element_relationship: ElementRelationship::Associative,
            keys: vec!["keyA".to_string(), "keyB".to_string()],
        }
    };
    Schema::with_types(vec![
        map_type(
            version,
            fields_map(
                vec![
                    field_of("struct", named("struct")),
                    field_of("list", named("list")),
                    field_of("objectList", named("objectList")),
                    field_of("stringMap", named("stringMap")),
                    field_of("unchanged", named("unchanged")),
                ],
                ElementRelationship::Separable,
            ),
        ),
        map_type(
            "struct",
            fields_map(
                vec![field_of("numeric", scalar(Scalar::Numeric)), field_of("string", scalar(Scalar::String))],
                er(atomic, ElementRelationship::Separable),
            ),
        ),
        list_type(
            "list",
            List {
                element_type: scalar(Scalar::String),
                element_relationship: er(atomic, ElementRelationship::Associative),
                keys: vec![],
            },
        ),
        list_type("objectList", object_list),
        map_type(
            "listItem",
            fields_map(
                vec![
                    field_of("keyA", scalar(Scalar::String)),
                    field_of("keyB", scalar(Scalar::String)),
                    field_of("value", scalar(Scalar::String)),
                ],
                ElementRelationship::Separable,
            ),
        ),
        map_type(
            "stringMap",
            SchemaMap {
                element_type: scalar(Scalar::String),
                element_relationship: er(atomic, ElementRelationship::Separable),
                ..Default::default()
            },
        ),
        map_type("unchanged", fields_map(vec![field_of("numeric", scalar(Scalar::Numeric))], ElementRelationship::Separable)),
        TypeDef {
            name: "empty".to_string(),
            atom: Atom {
                map: Some(SchemaMap {
                    element_type: inline_deduced.clone(),
                    element_relationship: ElementRelationship::Separable,
                    ..Default::default()
                }),
                ..Default::default()
            },
        },
        map_type(
            "emptyWithPreserveUnknown",
            fields_map(
                vec![field_of(
                    "preserveField",
                    TypeRef {
                        inlined: Box::new(Atom {
                            map: Some(SchemaMap { element_type: inline_deduced.clone(), ..Default::default() }),
                            ..Default::default()
                        }),
                        ..Default::default()
                    },
                )],
                ElementRelationship::Separable,
            ),
        ),
        map_type(
            "populatedWithPreserveUnknown",
            fields_map(
                vec![field_of(
                    "preserveField",
                    TypeRef {
                        inlined: Box::new(Atom {
                            map: Some(SchemaMap {
                                fields: vec![field_of("list", named("list"))],
                                element_type: named("__untyped_deduced_"),
                                ..Default::default()
                            }),
                            ..Default::default()
                        }),
                        ..Default::default()
                    },
                )],
                ElementRelationship::Separable,
            ),
        ),
        TypeDef {
            name: "__untyped_atomic_".to_string(),
            atom: deduced_atom("__untyped_atomic_", "__untyped_atomic_", ElementRelationship::Atomic),
        },
        TypeDef {
            name: "__untyped_deduced_".to_string(),
            atom: deduced_atom("__untyped_atomic_", "__untyped_deduced_", ElementRelationship::Separable),
        },
    ])
}

fn s(x: &str) -> Value {
    Value::String(x.to_string())
}

fn obj(entries: Vec<(&str, Value)>) -> Value {
    let mut m = ValueMap::new();
    for (k, v) in entries {
        m.set(k.to_string(), v);
    }
    Value::Object(m)
}

fn basic_live_object() -> Value {
    obj(vec![
        ("struct", obj(vec![("numeric", Value::Int(1)), ("string", s("two"))])),
        ("list", Value::List(vec![s("one"), s("two")])),
        (
            "objectList",
            Value::List(vec![
                obj(vec![("keyA", s("a1")), ("keyB", s("b1")), ("value", s("v1"))]),
                obj(vec![("keyA", s("a2")), ("keyB", s("b2")), ("value", s("v2"))]),
            ]),
        ),
        ("stringMap", obj(vec![("key1", s("value1"))])),
        ("unchanged", obj(vec![("numeric", Value::Int(10))])),
    ])
}

fn live(schema: Schema, name: &str, v: Value) -> TypedValue {
    TypedValue::new(v, schema, named(name))
}

fn path(elements: Vec<PathElement>) -> Path {
    Path::from_elements(elements)
}

fn field(name: &str) -> PathElement {
    PathElement::field_name(name)
}

fn value_elem(v: Value) -> PathElement {
    PathElement::value(v)
}

fn key_by_fields(fields: Vec<(&str, Value)>) -> PathElement {
    PathElement::Key(FieldList {
        fields: fields.into_iter().map(|(name, value)| Field { name: name.to_string(), value }).collect(),
    })
}

fn new_set(paths: Vec<Path>) -> FieldPathSet {
    let mut set = FieldPathSet::new();
    for p in paths {
        set.insert(&p);
    }
    set
}

#[test]
fn test_reconcile_granular_to_atomic() {
    let live_object = live(test_schema("v1", true), "v1", basic_live_object());

    let old_fields = new_set(vec![
        path(vec![field("struct"), field("numeric")]),
        path(vec![field("list"), value_elem(Value::String("one".into()))]),
        path(vec![field("stringMap"), field("key1")]),
        path(vec![
            field("objectList"),
            key_by_fields(vec![("keyA", Value::String("a1".into())), ("keyB", Value::String("b1".into()))]),
            field("value"),
        ]),
        path(vec![field("unchanged"), field("numeric")]),
    ]);

    let fixed = reconcile_field_set_with_schema(&old_fields, &live_object).unwrap();
    assert!(fixed.is_some(), "Expected field set to change");

    let fixed = fixed.unwrap();
    let expected = new_set(vec![
        path(vec![field("struct")]),
        path(vec![field("list")]),
        path(vec![field("objectList")]),
        path(vec![field("stringMap")]),
        path(vec![field("unchanged"), field("numeric")]),
    ]);

    assert!(fixed.equals(&expected), "Expected:\n{:?}\nGot:\n{:?}", expected, fixed);
}

#[test]
fn test_reconcile_no_change_granular() {
    let live_object = live(test_schema("v1", false), "v1", basic_live_object());

    let old_fields = new_set(vec![
        path(vec![field("struct"), field("numeric")]),
        path(vec![field("list"), value_elem(Value::String("one".into()))]),
        path(vec![
            field("objectList"),
            key_by_fields(vec![("keyA", Value::String("a1".into())), ("keyB", Value::String("b1".into()))]),
            field("value"),
        ]),
        path(vec![field("stringMap"), field("key1")]),
        path(vec![field("unchanged"), field("numeric")]),
    ]);

    let fixed = reconcile_field_set_with_schema(&old_fields, &live_object).unwrap();
    assert!(fixed.is_none(), "Expected no change");
}

#[test]
fn test_reconcile_no_change_atomic() {
    let live_object = live(test_schema("v1", true), "v1", basic_live_object());

    let old_fields = new_set(vec![
        path(vec![field("struct")]),
        path(vec![field("list")]),
        path(vec![field("objectList")]),
        path(vec![field("unchanged"), field("numeric")]),
    ]);

    let fixed = reconcile_field_set_with_schema(&old_fields, &live_object).unwrap();
    assert!(fixed.is_none(), "Expected no change");
}

#[test]
fn test_reconcile_no_change_empty_granular() {
    let live_value = obj(vec![
        ("struct", obj(vec![])),
        ("list", Value::List(vec![])),
        ("objectList", Value::List(vec![obj(vec![("keyA", s("a1")), ("keyB", s("b1"))])])),
        ("stringMap", obj(vec![])),
        ("unchanged", obj(vec![])),
    ]);
    let live_object = live(test_schema("v1", false), "v1", live_value);

    let old_fields = new_set(vec![
        path(vec![field("struct")]),
        path(vec![field("list")]),
        path(vec![field("objectList")]),
        path(vec![
            field("objectList"),
            key_by_fields(vec![("keyA", Value::String("a1".into())), ("keyB", Value::String("b1".into()))]),
        ]),
        path(vec![
            field("objectList"),
            key_by_fields(vec![("keyA", Value::String("a1".into())), ("keyB", Value::String("b1".into()))]),
            field("value"),
        ]),
        path(vec![field("unchanged")]),
    ]);

    let fixed = reconcile_field_set_with_schema(&old_fields, &live_object).unwrap();
    assert!(fixed.is_none(), "Expected no change");
}

#[test]
fn test_reconcile_deduced() {
    let live_object = live(test_schema("v1", false), "empty", basic_live_object());

    let old_fields = new_set(vec![
        path(vec![field("struct")]),
        path(vec![field("list")]),
        path(vec![field("objectList")]),
        path(vec![field("unchanged"), field("numeric")]),
    ]);

    let fixed = reconcile_field_set_with_schema(&old_fields, &live_object).unwrap();
    assert!(fixed.is_none(), "Expected no change for deduced type");
}

#[test]
fn test_reconcile_empty_preserve_unknown() {
    let live_object =
        live(test_schema("v1", false), "emptyWithPreserveUnknown", obj(vec![("preserveField", obj(vec![("arbitrary", s("abc"))]))]));

    let old_fields = new_set(vec![
        path(vec![field("preserveField")]),
        path(vec![field("preserveField"), field("arbitrary")]),
    ]);

    let fixed = reconcile_field_set_with_schema(&old_fields, &live_object).unwrap();
    assert!(fixed.is_none(), "Expected no change for preserve unknown type");
}

#[test]
fn test_reconcile_populated_preserve_unknown() {
    let live_object = live(
        test_schema("v1", true),
        "populatedWithPreserveUnknown",
        obj(vec![("preserveField", obj(vec![("arbitrary", s("abc")), ("list", Value::List(vec![s("one")]))]))]),
    );

    let old_fields = new_set(vec![
        path(vec![field("preserveField")]),
        path(vec![field("preserveField"), field("arbitrary")]),
        path(vec![field("preserveField"), field("list")]),
        path(vec![field("preserveField"), field("list"), value_elem(Value::String("one".into()))]),
    ]);

    let fixed = reconcile_field_set_with_schema(&old_fields, &live_object).unwrap();
    assert!(fixed.is_some(), "Expected field set to change");

    let fixed = fixed.unwrap();
    let expected = new_set(vec![
        path(vec![field("preserveField")]),
        path(vec![field("preserveField"), field("arbitrary")]),
        path(vec![field("preserveField"), field("list")]),
    ]);

    assert!(fixed.equals(&expected), "Expected:\n{:?}\nGot:\n{:?}", expected, fixed);
}

#[test]
fn reconcile_reports_unresolvable_types() {
    let live_object = live(test_schema("v1", false), "nope", Value::Null);
    let fs = new_set(vec![path(vec![field("a")])]);
    let e = reconcile_field_set_with_schema(&fs, &live_object).unwrap_err();
    assert!(e.starts_with("could not resolve "));
}

#[test]
fn update_collapses_fields_of_types_made_atomic() {
    let schema = test_schema("v1", true);
    let live_object = live(schema.clone(), "v1", basic_live_object());
    let mut managers = ManagedFields::new();
    let owned = new_set(vec![
        path(vec![field("struct"), field("numeric")]),
        path(vec![field("unchanged"), field("numeric")]),
    ]);
    managers.insert("old", VersionedSet::new(owned, APIVersion::new("v1"), true));
    let updater = Updater::builder().build();
    updater.update(&live_object, &live_object.clone(), &APIVersion::new("v1"), &mut managers, "m").unwrap();
    let expected = new_set(vec![path(vec![field("struct")]), path(vec![field("unchanged"), field("numeric")])]);
    assert!(managers.get("old").unwrap().set().equals(&expected));
}
