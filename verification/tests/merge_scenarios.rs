use structured_merge_diff::typed::parser::{deduced_parseable_type, ParseableType, Parser};
use structured_merge_diff::fieldpath::path::{Path, PathElement};
use structured_merge_diff::fieldpath::set::FieldPathSet;
use structured_merge_diff::schema::{
    Atom, ElementRelationship, List, Scalar, Schema, SchemaMap, StructField, TypeDef, TypeRef, Union, UnionField,
};
use structured_merge_diff::typed::{TypedValue, ValidationOption};
use structured_merge_diff::value::{Field, FieldList, Value, ValueMap};
use structured_merge_diff::fieldpath::{APIVersion, ManagedFields, VersionedSet};
use structured_merge_diff::merge::{ApplyError, ConversionError, Converter, Updater};

/// Reads a JSON document into a library value.
fn value_from_json(j: &serde_json::Value) -> Value {
    match j {
        serde_json::Value::Null => Value::Null,
        serde_json::Value::Bool(b) => Value::Bool(*b),
        serde_json::Value::Number(n) => match n.as_i64() {
            Some(i) => Value::Int(i),
            None => Value::Float(n.to_string()),
        },
        serde_json::Value::String(s) => Value::String(s.clone()),
        serde_json::Value::Array(a) => Value::List(a.iter().map(value_from_json).collect()),
        serde_json::Value::Object(o) => {
            let mut m = ValueMap::new();
            for (k, v) in o {
                m.set(k.clone(), value_from_json(v));
            }
            Value::Object(m)
        },
    }
}

/// A float as the library spells it: the text of a JSON number.
fn float(x: f64) -> Value {
    Value::Float(serde_json::Number::from_f64(x).unwrap().to_string())
}

fn yaml_json(yaml: &str) -> Result<serde_json::Value, String> {
    serde_yaml::from_str(yaml).map_err(|e| format!("failed to parse YAML: {}", e))
}

fn opt_str(j: &serde_json::Value, k: &str) -> Option<String> {
    j.get(k).and_then(|v| v.as_str()).map(|s| s.to_string())
}

fn relationship(j: &serde_json::Value) -> Option<ElementRelationship> {
    match j.get("elementRelationship").and_then(|v| v.as_str()) {
        Some("associative") => Some(ElementRelationship::Associative),
        Some("atomic") => Some(ElementRelationship::Atomic),
        Some("separable") => Some(ElementRelationship::Separable),
        _ => None,
    }
}

fn type_ref_from_json(j: &serde_json::Value) -> TypeRef {
    TypeRef {
        named_type: opt_str(j, "namedType"),
        inlined: Box::new(atom_from_json(j)),
        element_relationship: relationship(j),
    }
}

fn atom_from_json(j: &serde_json::Value) -> Atom {
    let scalar = match j.get("scalar").and_then(|v| v.as_str()) {
        Some("numeric") => Some(Scalar::Numeric),
        Some("string") => Some(Scalar::String),
        Some("boolean") => Some(Scalar::Boolean),
        Some("untyped") => Some(Scalar::Untyped),
        _ => None,
    };
    let list = j.get("list").map(|l| List {
        element_type: l.get("elementType").map(type_ref_from_json).unwrap_or_default(),
        element_relationship: relationship(l).unwrap_or_default(),
        keys: l
            .get("keys")
            .and_then(|k| k.as_array())
            .map(|ks| ks.iter().filter_map(|k| k.as_str().map(|s| s.to_string())).collect())
            .unwrap_or_default(),
    });
    let map = j.get("map").map(|m| SchemaMap {
        fields: m
            .get("fields")
            .and_then(|f| f.as_array())
            .map(|fs| {
                fs.iter()
                    .map(|f| StructField {
                        name: opt_str(f, "name").unwrap_or_default(),
                        field_type: f.get("type").map(type_ref_from_json).unwrap_or_default(),
                        default: f.get("default").map(value_from_json),
                    })
                    .collect()
            })
            .unwrap_or_default(),
        unions: m
            .get("unions")
            .and_then(|u| u.as_array())
            .map(|us| {
                us.iter()
                    .map(|u| Union {
                        discriminator: opt_str(u, "discriminator"),
                        deduce_invalid_discriminator: u
                            .get("deduceInvalidDiscriminator")
                            .and_then(|b| b.as_bool())
                            .unwrap_or(false),
                        fields: u
                            .get("fields")
                            .and_then(|f| f.as_array())
                            .map(|fs| {
                                fs.iter()
                                    .map(|f| UnionField {
                                        field_name: opt_str(f, "fieldName").unwrap_or_default(),
                                        discriminator_value: opt_str(f, "discriminatorValue").unwrap_or_default(),
                                    })
                                    .collect()
                            })
                            .unwrap_or_default(),
                    })
                    .collect()
            })
            .unwrap_or_default(),
        element_type: m.get("elementType").map(type_ref_from_json).unwrap_or_default(),
        element_relationship: relationship(m).unwrap_or_default(),
    });
    Atom { scalar, list, map }
}

/// Reading a schema from YAML text.
trait SchemaFromYaml: Sized {
    fn new(yaml: &str) -> Result<Self, String>;
}

impl SchemaFromYaml for Parser {
    fn new(yaml: &str) -> Result<Parser, String> {
        let j = yaml_json(yaml)?;
        let types = j
            .get("types")
            .and_then(|t| t.as_array())
            .map(|ts| {
                ts.iter()
                    .map(|t| TypeDef { name: opt_str(t, "name").unwrap_or_default(), atom: atom_from_json(t) })
                    .collect()
            })
            .unwrap_or_default();
        Ok(Parser { schema: Schema::with_types(types) })
    }
}

/// Reading YAML objects as a type of a schema.
trait FromYaml {
    fn from_yaml(&self, yaml: &str) -> Result<TypedValue, String>;
    fn from_yaml_with_opts(&self, yaml: &str, opts: &[ValidationOption]) -> Result<TypedValue, String>;
}

impl FromYaml for ParseableType {
    fn from_yaml(&self, yaml: &str) -> Result<TypedValue, String> {
        self.from_yaml_with_opts(yaml, &[])
    }

    fn from_yaml_with_opts(&self, yaml: &str, opts: &[ValidationOption]) -> Result<TypedValue, String> {
        let v = value_from_json(&yaml_json(yaml)?);
        self.from_value_with_opts(v, opts).map_err(|e| e.to_string())
    }
}



    /// Helper to create a path from elements.
    fn path(elements: Vec<PathElement>) -> Path {
        Path::from_elements(elements)
    }

    /// Helper to create a field name path element.
    fn field(name: &str) -> PathElement {
        PathElement::field_name(name)
    }

    /// Helper to create a key path element from field/value pairs.
    fn key_by_fields(fields: Vec<(&str, Value)>) -> PathElement {
        PathElement::Key(FieldList {
            fields: fields
                .into_iter()
                .map(|(name, value)| Field {
                    name: name.to_string(),
                    value,
                })
                .collect(),
        })
    }

    fn create_leaf_fields_schema() -> Schema {
        // Schema with numeric, string, and bool fields
        Schema::with_types(vec![
            TypeDef {
                name: "leafFields".to_string(),
                atom: Atom {
                    map: Some(SchemaMap::with_fields(vec![
                        StructField {
                            name: "numeric".to_string(),
                            field_type: TypeRef {
                                inlined: Box::new(Atom {
                                    scalar: Some(Scalar::Numeric),
                                    ..Default::default()
                                }),
                                ..Default::default()
                            },
                            default: None,
                        },
                        StructField {
                            name: "string".to_string(),
                            field_type: TypeRef {
                                inlined: Box::new(Atom {
                                    scalar: Some(Scalar::String),
                                    ..Default::default()
                                }),
                                ..Default::default()
                            },
                            default: None,
                        },
                        StructField {
                            name: "bool".to_string(),
                            field_type: TypeRef {
                                inlined: Box::new(Atom {
                                    scalar: Some(Scalar::Boolean),
                                    ..Default::default()
                                }),
                                ..Default::default()
                            },
                            default: None,
                        },
                    ])),
                    ..Default::default()
                },
            },
        ])
    }

    fn create_set_fields_schema() -> Schema {
        // Schema with set fields (associative lists)
        Schema::with_types(vec![
            TypeDef {
                name: "setFields".to_string(),
                atom: Atom {
                    map: Some(SchemaMap::with_fields(vec![
                        StructField {
                            name: "setStr".to_string(),
                            field_type: TypeRef {
                                named_type: Some("setOfStrings".to_string()),
                                ..Default::default()
                            },
                            default: None,
                        },
                        StructField {
                            name: "setNum".to_string(),
                            field_type: TypeRef {
                                named_type: Some("setOfNumerics".to_string()),
                                ..Default::default()
                            },
                            default: None,
                        },
                    ])),
                    ..Default::default()
                },
            },
            TypeDef {
                name: "setOfStrings".to_string(),
                atom: Atom {
                    list: Some(List {
                        element_type: TypeRef {
                            inlined: Box::new(Atom {
                                scalar: Some(Scalar::String),
                                ..Default::default()
                            }),
                            ..Default::default()
                        },
                        element_relationship: ElementRelationship::Associative,
                        keys: vec![],
                    }),
                    ..Default::default()
                },
            },
            TypeDef {
                name: "setOfNumerics".to_string(),
                atom: Atom {
                    list: Some(List {
                        element_type: TypeRef {
                            inlined: Box::new(Atom {
                                scalar: Some(Scalar::Numeric),
                                ..Default::default()
                            }),
                            ..Default::default()
                        },
                        element_relationship: ElementRelationship::Associative,
                        keys: vec![],
                    }),
                    ..Default::default()
                },
            },
        ])
    }

    fn create_typed_value(schema: &Schema, tname: &str, value: Value) -> TypedValue {
        TypedValue::new(
            value,
            schema.clone(),
            TypeRef {
                named_type: Some(tname.to_string()),
                ..Default::default()
            },
        )
    }

    #[test]
    fn test_apply_twice() {
        // Test applying twice from the same manager
        let schema = create_leaf_fields_schema();
        let updater = Updater::builder().build();
        let version = structured_merge_diff::fieldpath::APIVersion::new("v1");
        let mut managers = ManagedFields::new();

        // First apply: numeric=1, string="string"
        let mut obj1 = ValueMap::new();
        obj1.set("numeric".to_string(), Value::Int(1));
        obj1.set("string".to_string(), Value::String("string".into()));
        let tv1 = create_typed_value(&schema, "leafFields", Value::Object(obj1));

        // Apply to empty object
        let empty = create_typed_value(&schema, "leafFields", Value::Object(ValueMap::new()));
        let result1 = updater.apply(&empty, &tv1, &version, &mut managers, "default", false);
        assert!(result1.is_ok());
        let live1 = result1.unwrap();

        // Verify manager owns the fields
        let manager_set = managers.get("default").unwrap();
        assert!(manager_set.set().has(&path(vec![field("numeric")])));
        assert!(manager_set.set().has(&path(vec![field("string")])));

        // Second apply: numeric=2, string="string", bool=false
        let mut obj2 = ValueMap::new();
        obj2.set("numeric".to_string(), Value::Int(2));
        obj2.set("string".to_string(), Value::String("string".into()));
        obj2.set("bool".to_string(), Value::Bool(false));
        let tv2 = create_typed_value(&schema, "leafFields", Value::Object(obj2));

        let result2 = updater.apply(&live1, &tv2, &version, &mut managers, "default", false);
        assert!(result2.is_ok());
        let live2 = result2.unwrap();

        // Verify final state
        if let Value::Object(m) = live2.value() {
            assert_eq!(m.get("numeric"), Some(&Value::Int(2)));
            assert_eq!(m.get("string"), Some(&Value::String("string".into())));
            assert_eq!(m.get("bool"), Some(&Value::Bool(false)));
        } else {
            panic!("Expected map");
        }

        // Verify manager owns all fields
        let manager_set = managers.get("default").unwrap();
        assert!(manager_set.set().has(&path(vec![field("numeric")])));
        assert!(manager_set.set().has(&path(vec![field("string")])));
        assert!(manager_set.set().has(&path(vec![field("bool")])));
    }

    #[test]
    fn test_apply_update_no_conflict() {
        // Test: apply, then update from different manager, then apply again
        let schema = create_leaf_fields_schema();
        let updater = Updater::builder().build();
        let version = structured_merge_diff::fieldpath::APIVersion::new("v1");
        let mut managers = ManagedFields::new();

        // First apply: numeric=1, string="string"
        let mut obj1 = ValueMap::new();
        obj1.set("numeric".to_string(), Value::Int(1));
        obj1.set("string".to_string(), Value::String("string".into()));
        let tv1 = create_typed_value(&schema, "leafFields", Value::Object(obj1));

        let empty = create_typed_value(&schema, "leafFields", Value::Object(ValueMap::new()));
        let result1 = updater.apply(&empty, &tv1, &version, &mut managers, "default", false);
        assert!(result1.is_ok());
        let live1 = result1.unwrap();

        // Update from controller: add bool=true
        let mut obj2 = ValueMap::new();
        obj2.set("numeric".to_string(), Value::Int(1));
        obj2.set("string".to_string(), Value::String("string".into()));
        obj2.set("bool".to_string(), Value::Bool(true));
        let tv2 = create_typed_value(&schema, "leafFields", Value::Object(obj2));

        let result2 = updater.update(&live1, &tv2, &version, &mut managers, "controller");
        assert!(result2.is_ok());
        let live2 = result2.unwrap();

        // Third apply from default: update numeric=2
        let mut obj3 = ValueMap::new();
        obj3.set("numeric".to_string(), Value::Int(2));
        obj3.set("string".to_string(), Value::String("string".into()));
        let tv3 = create_typed_value(&schema, "leafFields", Value::Object(obj3));

        let result3 = updater.apply(&live2, &tv3, &version, &mut managers, "default", false);
        assert!(result3.is_ok());
        let live3 = result3.unwrap();

        // Verify final state: numeric=2, string="string", bool=true
        if let Value::Object(m) = live3.value() {
            assert_eq!(m.get("numeric"), Some(&Value::Int(2)));
            assert_eq!(m.get("string"), Some(&Value::String("string".into())));
            assert_eq!(m.get("bool"), Some(&Value::Bool(true)));
        } else {
            panic!("Expected map");
        }

        // Verify ownership: default owns numeric, string; controller owns bool
        let default_set = managers.get("default").unwrap();
        assert!(default_set.set().has(&path(vec![field("numeric")])));
        assert!(default_set.set().has(&path(vec![field("string")])));
        assert!(!default_set.set().has(&path(vec![field("bool")])));

        let controller_set = managers.get("controller").unwrap();
        assert!(controller_set.set().has(&path(vec![field("bool")])));
        assert!(!controller_set.set().has(&path(vec![field("numeric")])));
    }

    #[test]
    fn test_apply_with_conflict() {
        // Test: apply, update from another manager, then apply with conflict
        let schema = create_leaf_fields_schema();
        let updater = Updater::builder().build();
        let version = structured_merge_diff::fieldpath::APIVersion::new("v1");
        let mut managers = ManagedFields::new();

        // First apply: numeric=1, string="string"
        let mut obj1 = ValueMap::new();
        obj1.set("numeric".to_string(), Value::Int(1));
        obj1.set("string".to_string(), Value::String("string".into()));
        let tv1 = create_typed_value(&schema, "leafFields", Value::Object(obj1));

        let empty = create_typed_value(&schema, "leafFields", Value::Object(ValueMap::new()));
        let result1 = updater.apply(&empty, &tv1, &version, &mut managers, "default", false);
        assert!(result1.is_ok());
        let live1 = result1.unwrap();

        // Update from controller: change string, add bool
        let mut obj2 = ValueMap::new();
        obj2.set("numeric".to_string(), Value::Int(1));
        obj2.set("string".to_string(), Value::String("controller string".into()));
        obj2.set("bool".to_string(), Value::Bool(true));
        let tv2 = create_typed_value(&schema, "leafFields", Value::Object(obj2));

        let result2 = updater.update(&live1, &tv2, &version, &mut managers, "controller");
        assert!(result2.is_ok());
        let live2 = result2.unwrap();

        // Apply from default: try to change string -> should conflict
        let mut obj3 = ValueMap::new();
        obj3.set("numeric".to_string(), Value::Int(2));
        obj3.set("string".to_string(), Value::String("user string".into()));
        let tv3 = create_typed_value(&schema, "leafFields", Value::Object(obj3));

        let result3 = updater.apply(&live2, &tv3, &version, &mut managers, "default", false);
        // This should return a conflict error
        assert!(result3.is_err());
        let err = result3.unwrap_err();
        // The error should be a Conflicts error
        match &err {
            ApplyError::Conflicts(conflicts) => {
                assert!(!conflicts.is_empty(), "Expected conflicts, got empty");
                // Verify string field is in the conflicts
                let conflict_has_string = conflicts.iter().iter().any(|c| {
                    c.path == path(vec![field("string")])
                });
                assert!(conflict_has_string, "Expected conflict on string field");
            }
            _ => panic!("Expected Conflicts error, got: {}", err.to_string()),
        }

        // Force apply should work
        let result4 = updater.apply(&live2, &tv3, &version, &mut managers, "default", true);
        assert!(result4.is_ok());
        let live4 = result4.unwrap();

        // After force apply, default should own string
        let default_set = managers.get("default").unwrap();
        assert!(default_set.set().has(&path(vec![field("string")])));

        // Value should be updated
        if let Value::Object(m) = live4.value() {
            assert_eq!(m.get("string"), Some(&Value::String("user string".into())));
        } else {
            panic!("Expected map");
        }
    }

    #[test]
    fn test_apply_remove_field() {
        // Test: apply twice, removing a field in the second apply
        let schema = create_leaf_fields_schema();
        let updater = Updater::builder().build();
        let version = structured_merge_diff::fieldpath::APIVersion::new("v1");
        let mut managers = ManagedFields::new();

        // First apply: all fields
        let mut obj1 = ValueMap::new();
        obj1.set("numeric".to_string(), Value::Int(1));
        obj1.set("string".to_string(), Value::String("string".into()));
        obj1.set("bool".to_string(), Value::Bool(false));
        let tv1 = create_typed_value(&schema, "leafFields", Value::Object(obj1));

        let empty = create_typed_value(&schema, "leafFields", Value::Object(ValueMap::new()));
        let result1 = updater.apply(&empty, &tv1, &version, &mut managers, "default", false);
        assert!(result1.is_ok());
        let live1 = result1.unwrap();

        // Second apply: only string field
        let mut obj2 = ValueMap::new();
        obj2.set("string".to_string(), Value::String("new string".into()));
        let tv2 = create_typed_value(&schema, "leafFields", Value::Object(obj2));

        let result2 = updater.apply(&live1, &tv2, &version, &mut managers, "default", false);
        assert!(result2.is_ok());
        let live2 = result2.unwrap();

        // Verify final state: only string field should remain
        if let Value::Object(m) = live2.value() {
            assert!(m.get("numeric").is_none() || *m.get("numeric").unwrap() == Value::Null);
            assert_eq!(m.get("string"), Some(&Value::String("new string".into())));
            assert!(m.get("bool").is_none() || *m.get("bool").unwrap() == Value::Null);
        } else {
            panic!("Expected map");
        }

        // Verify manager only owns string
        let manager_set = managers.get("default").unwrap();
        assert!(!manager_set.set().has(&path(vec![field("numeric")])));
        assert!(manager_set.set().has(&path(vec![field("string")])));
        assert!(!manager_set.set().has(&path(vec![field("bool")])));
    }

    #[test]
    fn test_set_field_apply() {
        // Test applying to set fields (associative lists)
        let schema = create_set_fields_schema();
        let updater = Updater::builder().build();
        let version = structured_merge_diff::fieldpath::APIVersion::new("v1");
        let mut managers = ManagedFields::new();

        // First apply: setStr=["a", "b"]
        let mut obj1 = ValueMap::new();
        obj1.set(
            "setStr".to_string(),
            Value::List(vec![
                Value::String("a".into()),
                Value::String("b".into()),
            ]),
        );
        let tv1 = create_typed_value(&schema, "setFields", Value::Object(obj1));

        let empty = create_typed_value(&schema, "setFields", Value::Object(ValueMap::new()));
        let result1 = updater.apply(&empty, &tv1, &version, &mut managers, "default", false);
        assert!(result1.is_ok());
        let live1 = result1.unwrap();

        // Verify manager owns the set items
        let manager_set = managers.get("default").unwrap();
        assert!(manager_set
            .set()
            .has(&path(vec![field("setStr"), PathElement::value(Value::String("a".into()))])));
        assert!(manager_set
            .set()
            .has(&path(vec![field("setStr"), PathElement::value(Value::String("b".into()))])));

        // Second apply from different manager: setStr=["b", "c"]
        let mut obj2 = ValueMap::new();
        obj2.set(
            "setStr".to_string(),
            Value::List(vec![
                Value::String("b".into()),
                Value::String("c".into()),
            ]),
        );
        let tv2 = create_typed_value(&schema, "setFields", Value::Object(obj2));

        let result2 = updater.apply(&live1, &tv2, &version, &mut managers, "manager2", false);
        // This may or may not conflict depending on implementation
        // If it conflicts, force apply should work
        let live3 = if result2.is_err() {
            let result3 = updater.apply(&live1, &tv2, &version, &mut managers, "manager2", true);
            assert!(result3.is_ok());
            result3.unwrap()
        } else {
            result2.unwrap()
        };

        // After merge, should have a, b, c (union)
        if let Value::Object(m) = live3.value() {
            if let Some(Value::List(items)) = m.get("setStr") {
                assert!(items.contains(&Value::String("a".into())));
                assert!(items.contains(&Value::String("b".into())));
                assert!(items.contains(&Value::String("c".into())));
            } else {
                panic!("Expected setStr to be a list");
            }
        } else {
            panic!("Expected map");
        }

        // Verify ownership: manager2 should own "b" and "c"
        let manager2_set = managers.get("manager2").unwrap();
        assert!(manager2_set
            .set()
            .has(&path(vec![field("setStr"), PathElement::value(Value::String("b".into()))])));
        assert!(manager2_set
            .set()
            .has(&path(vec![field("setStr"), PathElement::value(Value::String("c".into()))])));
    }

    #[test]
    fn test_update_take_ownership() {
        // Test that update takes ownership of changed fields
        let schema = create_leaf_fields_schema();
        let updater = Updater::builder().build();
        let version = structured_merge_diff::fieldpath::APIVersion::new("v1");
        let mut managers = ManagedFields::new();

        // First apply: numeric=1, string="string"
        let mut obj1 = ValueMap::new();
        obj1.set("numeric".to_string(), Value::Int(1));
        obj1.set("string".to_string(), Value::String("string".into()));
        let tv1 = create_typed_value(&schema, "leafFields", Value::Object(obj1));

        let empty = create_typed_value(&schema, "leafFields", Value::Object(ValueMap::new()));
        let result1 = updater.apply(&empty, &tv1, &version, &mut managers, "default", false);
        assert!(result1.is_ok());
        let live1 = result1.unwrap();

        // Update from controller: change string
        let mut obj2 = ValueMap::new();
        obj2.set("numeric".to_string(), Value::Int(1));
        obj2.set("string".to_string(), Value::String("new string".into()));
        let tv2 = create_typed_value(&schema, "leafFields", Value::Object(obj2));

        let result2 = updater.update(&live1, &tv2, &version, &mut managers, "controller");
        assert!(result2.is_ok());

        // Controller should now own string, default should not
        let controller_set = managers.get("controller").unwrap();
        assert!(controller_set.set().has(&path(vec![field("string")])));

        // Default should no longer own string (it was taken by controller)
        // Note: depending on implementation, default might still own it
        // until a new apply removes it from default's set
    }

    // =========================================================================
    // Deduced tests from merge/deduced_test.go
    // =========================================================================

    /// Helper to create a new set with the given paths.
    fn new_set(paths: Vec<Path>) -> FieldPathSet {
        let mut set = FieldPathSet::new();
        for path in paths {
            set.insert(&path);
        }
        set
    }

    /// Helper to verify managed fields match expected paths for a manager.
    fn verify_managed_fields(managers: &ManagedFields, manager: &str, expected_paths: Vec<Path>) {
        let versioned_set = managers.get(manager)
            .expect(&format!("Manager '{}' should exist", manager));
        let expected = new_set(expected_paths);
        assert!(
            versioned_set.set().equals(&expected),
            "Manager '{}' has set {:?}, expected {:?}",
            manager,
            versioned_set.set(),
            expected
        );
    }

    #[test]
    fn test_deduced_leaf_apply_twice() {
        // Apply twice from the same manager - second should update values
        let pt = deduced_parseable_type();
        let updater = Updater::builder().build();
        let version = structured_merge_diff::fieldpath::APIVersion::new("v1");
        let mut managers = ManagedFields::new();

        // Create empty object
        let empty = pt.from_yaml("{}").unwrap();

        // First apply: numeric=1, string="string"
        let obj1 = pt.from_yaml(r#"{"numeric": 1, "string": "string"}"#).unwrap();
        let result1 = updater.apply(&empty, &obj1, &version, &mut managers, "default", false);
        assert!(result1.is_ok(), "First apply failed: {:?}", result1.err());
        let live1 = result1.unwrap();

        // Second apply: numeric=2, string="string", bool=false
        let obj2 = pt.from_yaml(r#"{"numeric": 2, "string": "string", "bool": false}"#).unwrap();
        let result2 = updater.apply(&live1, &obj2, &version, &mut managers, "default", false);
        assert!(result2.is_ok(), "Second apply failed: {:?}", result2.err());
        let live2 = result2.unwrap();

        // Verify final state
        if let Value::Object(m) = live2.value() {
            assert_eq!(m.get("numeric"), Some(&Value::Int(2)));
            assert_eq!(m.get("string"), Some(&Value::String("string".into())));
            assert_eq!(m.get("bool"), Some(&Value::Bool(false)));
        } else {
            panic!("Expected map");
        }

        // Verify managed fields
        verify_managed_fields(&managers, "default", vec![
            path(vec![field("numeric")]),
            path(vec![field("string")]),
            path(vec![field("bool")]),
        ]);
    }

    #[test]
    fn test_deduced_leaf_apply_update_apply_no_conflict() {
        // Apply from default, update from controller (adds field), apply from default
        // No conflict because default doesn't touch the field controller added
        let pt = deduced_parseable_type();
        let updater = Updater::builder().build();
        let version = structured_merge_diff::fieldpath::APIVersion::new("v1");
        let mut managers = ManagedFields::new();

        let empty = pt.from_yaml("{}").unwrap();

        // First apply: numeric=1, string="string"
        let obj1 = pt.from_yaml(r#"{"numeric": 1, "string": "string"}"#).unwrap();
        let result1 = updater.apply(&empty, &obj1, &version, &mut managers, "default", false);
        assert!(result1.is_ok());
        let live1 = result1.unwrap();

        // Update from controller: add bool=true
        let obj2 = pt.from_yaml(r#"{"numeric": 1, "string": "string", "bool": true}"#).unwrap();
        let result2 = updater.update(&live1, &obj2, &version, &mut managers, "controller");
        assert!(result2.is_ok());
        let live2 = result2.unwrap();

        // Apply from default: update numeric=2
        let obj3 = pt.from_yaml(r#"{"numeric": 2, "string": "string"}"#).unwrap();
        let result3 = updater.apply(&live2, &obj3, &version, &mut managers, "default", false);
        assert!(result3.is_ok(), "Apply should not conflict: {:?}", result3.err());
        let live3 = result3.unwrap();

        // Verify final state
        if let Value::Object(m) = live3.value() {
            assert_eq!(m.get("numeric"), Some(&Value::Int(2)));
            assert_eq!(m.get("string"), Some(&Value::String("string".into())));
            assert_eq!(m.get("bool"), Some(&Value::Bool(true)));
        } else {
            panic!("Expected map");
        }

        // Verify managed fields
        verify_managed_fields(&managers, "default", vec![
            path(vec![field("numeric")]),
            path(vec![field("string")]),
        ]);
        verify_managed_fields(&managers, "controller", vec![
            path(vec![field("bool")]),
        ]);
    }

    #[test]
    fn test_deduced_leaf_apply_update_apply_with_conflict() {
        // Apply from default, update from controller (changes owned field), apply from default
        // Should conflict because controller modified default's field
        let pt = deduced_parseable_type();
        let updater = Updater::builder().build();
        let version = structured_merge_diff::fieldpath::APIVersion::new("v1");
        let mut managers = ManagedFields::new();

        let empty = pt.from_yaml("{}").unwrap();

        // First apply: numeric=1, string="string"
        let obj1 = pt.from_yaml(r#"{"numeric": 1, "string": "string"}"#).unwrap();
        let result1 = updater.apply(&empty, &obj1, &version, &mut managers, "default", false);
        assert!(result1.is_ok());
        let live1 = result1.unwrap();

        // Update from controller: change string, add bool
        let obj2 = pt.from_yaml(r#"{"numeric": 1, "string": "controller string", "bool": true}"#).unwrap();
        let result2 = updater.update(&live1, &obj2, &version, &mut managers, "controller");
        assert!(result2.is_ok());
        let live2 = result2.unwrap();

        // Apply from default: try to change string -> should conflict
        let obj3 = pt.from_yaml(r#"{"numeric": 2, "string": "user string"}"#).unwrap();
        let result3 = updater.apply(&live2, &obj3, &version, &mut managers, "default", false);

        // Should have conflict on string field
        match &result3 {
            Err(ApplyError::Conflicts(conflicts)) => {
                assert!(!conflicts.is_empty(), "Expected conflicts");
                let has_string_conflict = conflicts.iter().iter().any(|c| {
                    c.manager == "controller" && c.path == path(vec![field("string")])
                });
                assert!(has_string_conflict, "Expected conflict on string field from controller");
            }
            Ok(_) => panic!("Expected conflict error"),
            Err(e) => panic!("Expected Conflicts error, got: {}", e.to_string()),
        }

        // Force apply should work
        let result4 = updater.apply(&live2, &obj3, &version, &mut managers, "default", true);
        assert!(result4.is_ok());
        let live4 = result4.unwrap();

        // Verify final state
        if let Value::Object(m) = live4.value() {
            assert_eq!(m.get("numeric"), Some(&Value::Int(2)));
            assert_eq!(m.get("string"), Some(&Value::String("user string".into())));
            assert_eq!(m.get("bool"), Some(&Value::Bool(true)));
        } else {
            panic!("Expected map");
        }

        // Verify managed fields
        verify_managed_fields(&managers, "default", vec![
            path(vec![field("numeric")]),
            path(vec![field("string")]),
        ]);
        verify_managed_fields(&managers, "controller", vec![
            path(vec![field("bool")]),
        ]);
    }

    #[test]
    fn test_deduced_leaf_apply_twice_remove() {
        // Apply with multiple fields, then apply with fewer fields - removed fields should be gone
        let pt = deduced_parseable_type();
        let updater = Updater::builder().build();
        let version = structured_merge_diff::fieldpath::APIVersion::new("v1");
        let mut managers = ManagedFields::new();

        let empty = pt.from_yaml("{}").unwrap();

        // First apply: numeric=1, string="string", bool=false
        let obj1 = pt.from_yaml(r#"{"numeric": 1, "string": "string", "bool": false}"#).unwrap();
        let result1 = updater.apply(&empty, &obj1, &version, &mut managers, "default", false);
        assert!(result1.is_ok());
        let live1 = result1.unwrap();

        // Second apply: only string="new string"
        let obj2 = pt.from_yaml(r#"{"string": "new string"}"#).unwrap();
        let result2 = updater.apply(&live1, &obj2, &version, &mut managers, "default", false);
        assert!(result2.is_ok());
        let live2 = result2.unwrap();

        // Verify final state - only string should remain
        if let Value::Object(m) = live2.value() {
            assert_eq!(m.get("string"), Some(&Value::String("new string".into())));
            // numeric and bool should be removed
            assert!(
                m.get("numeric").is_none() || m.get("numeric") == Some(&Value::Null),
                "numeric should be removed, got: {:?}",
                m.get("numeric")
            );
            assert!(
                m.get("bool").is_none() || m.get("bool") == Some(&Value::Null),
                "bool should be removed, got: {:?}",
                m.get("bool")
            );
        } else {
            panic!("Expected map");
        }

        // Verify managed fields
        verify_managed_fields(&managers, "default", vec![
            path(vec![field("string")]),
        ]);
    }

    #[test]
    fn test_deduced_leaf_update_remove_empty_set() {
        // Apply, then update which changes all fields - default should lose ownership
        let pt = deduced_parseable_type();
        let updater = Updater::builder().build();
        let version = structured_merge_diff::fieldpath::APIVersion::new("v1");
        let mut managers = ManagedFields::new();

        let empty = pt.from_yaml("{}").unwrap();

        // First apply: string="string"
        let obj1 = pt.from_yaml(r#"{"string": "string"}"#).unwrap();
        let result1 = updater.apply(&empty, &obj1, &version, &mut managers, "default", false);
        assert!(result1.is_ok());
        let live1 = result1.unwrap();

        // Update from controller: change string
        let obj2 = pt.from_yaml(r#"{"string": "new string"}"#).unwrap();
        let result2 = updater.update(&live1, &obj2, &version, &mut managers, "controller");
        assert!(result2.is_ok());
        let live2 = result2.unwrap();

        // Verify final state
        if let Value::Object(m) = live2.value() {
            assert_eq!(m.get("string"), Some(&Value::String("new string".into())));
        } else {
            panic!("Expected map");
        }

        // Controller should own string
        verify_managed_fields(&managers, "controller", vec![
            path(vec![field("string")]),
        ]);

        // Default should be removed since it's empty now
        // (or still exist but with empty set - depends on implementation)
    }

    #[test]
    fn test_deduced_apply_twice_list_is_atomic() {
        // Lists in deduced schema are atomic
        let pt = deduced_parseable_type();
        let updater = Updater::builder().build();
        let version = structured_merge_diff::fieldpath::APIVersion::new("v1");
        let mut managers = ManagedFields::new();

        let empty = pt.from_yaml("{}").unwrap();

        // First apply: list=["a", "c"]
        let obj1 = pt.from_yaml(r#"{"list": ["a", "c"]}"#).unwrap();
        let result1 = updater.apply(&empty, &obj1, &version, &mut managers, "default", false);
        assert!(result1.is_ok());
        let live1 = result1.unwrap();

        // Second apply: list=["a", "d", "c", "b"]
        let obj2 = pt.from_yaml(r#"{"list": ["a", "d", "c", "b"]}"#).unwrap();
        let result2 = updater.apply(&live1, &obj2, &version, &mut managers, "default", false);
        assert!(result2.is_ok());
        let live2 = result2.unwrap();

        // Verify final state
        if let Value::Object(m) = live2.value() {
            if let Some(Value::List(items)) = m.get("list") {
                assert_eq!(items.len(), 4);
                assert_eq!(items[0], Value::String("a".into()));
                assert_eq!(items[1], Value::String("d".into()));
                assert_eq!(items[2], Value::String("c".into()));
                assert_eq!(items[3], Value::String("b".into()));
            } else {
                panic!("Expected list");
            }
        } else {
            panic!("Expected map");
        }

        // List is atomic - only the list path is tracked, not individual elements
        verify_managed_fields(&managers, "default", vec![
            path(vec![field("list")]),
        ]);
    }

    #[test]
    fn test_deduced_apply_update_apply_list() {
        // Apply list, update from controller changes it, force apply to override
        let pt = deduced_parseable_type();
        let updater = Updater::builder().build();
        let version = structured_merge_diff::fieldpath::APIVersion::new("v1");
        let mut managers = ManagedFields::new();

        let empty = pt.from_yaml("{}").unwrap();

        // First apply: list=["a", "c"]
        let obj1 = pt.from_yaml(r#"{"list": ["a", "c"]}"#).unwrap();
        let result1 = updater.apply(&empty, &obj1, &version, &mut managers, "default", false);
        assert!(result1.is_ok());
        let live1 = result1.unwrap();

        // Update from controller: change list
        let obj2 = pt.from_yaml(r#"{"list": ["a", "b", "c", "d"]}"#).unwrap();
        let result2 = updater.update(&live1, &obj2, &version, &mut managers, "controller");
        assert!(result2.is_ok());
        let live2 = result2.unwrap();

        // Force apply: override list
        let obj3 = pt.from_yaml(r#"{"list": ["a", "b", "c"]}"#).unwrap();
        let result3 = updater.apply(&live2, &obj3, &version, &mut managers, "default", true);
        assert!(result3.is_ok());
        let live3 = result3.unwrap();

        // Verify final state
        if let Value::Object(m) = live3.value() {
            if let Some(Value::List(items)) = m.get("list") {
                assert_eq!(items.len(), 3);
                assert_eq!(items, &vec![
                    Value::String("a".into()),
                    Value::String("b".into()),
                    Value::String("c".into()),
                ]);
            } else {
                panic!("Expected list");
            }
        } else {
            panic!("Expected map");
        }

        // default should own the list now
        verify_managed_fields(&managers, "default", vec![
            path(vec![field("list")]),
        ]);
    }

    #[test]
    fn test_deduced_leaf_apply_remove_empty_set() {
        // Apply with fields, then apply empty - should remove all fields and manager
        let pt = deduced_parseable_type();
        let updater = Updater::builder().build();
        let version = structured_merge_diff::fieldpath::APIVersion::new("v1");
        let mut managers = ManagedFields::new();

        let empty = pt.from_yaml("{}").unwrap();

        // First apply: string="string"
        let obj1 = pt.from_yaml(r#"{"string": "string"}"#).unwrap();
        let result1 = updater.apply(&empty, &obj1, &version, &mut managers, "default", false);
        assert!(result1.is_ok());
        let live1 = result1.unwrap();

        // Second apply: empty
        let obj2 = pt.from_yaml("{}").unwrap();
        let result2 = updater.apply(&live1, &obj2, &version, &mut managers, "default", false);
        assert!(result2.is_ok());
        let live2 = result2.unwrap();

        // Verify final state - should be empty (null or empty map)
        match live2.value() {
            Value::Object(m) => {
                // string should be removed
                assert!(
                    m.get("string").is_none() || m.get("string") == Some(&Value::Null),
                    "string should be removed"
                );
            }
            Value::Null => {
                // Null is also acceptable when all fields are removed
            }
            _ => panic!("Expected map or null, got {:?}", live2.value()),
        }

        // Manager should be removed (empty set)
        assert!(
            managers.get("default").is_none() || managers.get("default").map(|vs| vs.set().is_empty()).unwrap_or(false),
            "default manager should be removed or empty"
        );
    }

    #[test]
    fn test_deduced_apply_update_apply_nested() {
        // Test nested objects with deduced schema
        let pt = deduced_parseable_type();
        let updater = Updater::builder().build();
        let version = structured_merge_diff::fieldpath::APIVersion::new("v1");
        let mut managers = ManagedFields::new();

        let empty = pt.from_yaml("{}").unwrap();

        // First apply: nested structure
        let obj1 = pt.from_yaml(r#"
        {
            "a": 1,
            "b": {
                "c": {
                    "d": 2,
                    "e": [1, 2, 3],
                    "f": [{"name": "n", "value": 1}]
                }
            }
        }
        "#).unwrap();
        let result1 = updater.apply(&empty, &obj1, &version, &mut managers, "default", false);
        assert!(result1.is_ok(), "First apply failed: {:?}", result1.err());
        let live1 = result1.unwrap();

        // Update from controller: modify nested values
        let obj2 = pt.from_yaml(r#"
        {
            "a": 1,
            "b": {
                "c": {
                    "d": 3,
                    "e": [1, 2, 3, 4],
                    "f": [{"name": "n", "value": 2}]
                }
            },
            "g": 5
        }
        "#).unwrap();
        let result2 = updater.update(&live1, &obj2, &version, &mut managers, "controller");
        assert!(result2.is_ok(), "Update failed: {:?}", result2.err());
        let live2 = result2.unwrap();

        // Apply from default: try to change values controller changed -> should conflict
        let obj3 = pt.from_yaml(r#"
        {
            "a": 2,
            "b": {
                "c": {
                    "d": 2,
                    "e": [3, 2, 1],
                    "f": [{"name": "n", "value": 1}]
                }
            }
        }
        "#).unwrap();
        let result3 = updater.apply(&live2, &obj3, &version, &mut managers, "default", false);

        // Should have conflicts
        match &result3 {
            Err(ApplyError::Conflicts(conflicts)) => {
                assert!(!conflicts.is_empty(), "Expected conflicts");
            }
            Ok(_) => panic!("Expected conflict error"),
            Err(e) => panic!("Expected Conflicts error, got: {}", e.to_string()),
        }

        // Force apply should work
        let result4 = updater.apply(&live2, &obj3, &version, &mut managers, "default", true);
        assert!(result4.is_ok(), "Force apply failed: {:?}", result4.err());
        let live4 = result4.unwrap();

        // Verify that g=5 is still there (from controller, not touched by default)
        if let Value::Object(m) = live4.value() {
            assert_eq!(m.get("a"), Some(&Value::Int(2)));
            assert_eq!(m.get("g"), Some(&Value::Int(5)));
        } else {
            panic!("Expected map");
        }
    }

    // =========================================================================
    // Nested type tests from merge/nested_test.go
    // =========================================================================

    const NESTED_TYPE_SCHEMA: &str = r#"types:
- name: type
  map:
    fields:
      - name: listOfLists
        type:
          namedType: listOfLists
      - name: listOfMaps
        type:
          namedType: listOfMaps
      - name: mapOfLists
        type:
          namedType: mapOfLists
      - name: mapOfMaps
        type:
          namedType: mapOfMaps
      - name: mapOfMapsRecursive
        type:
          namedType: mapOfMapsRecursive
      - name: struct
        type:
          namedType: struct
- name: struct
  map:
    fields:
    - name: name
      type:
        scalar: string
    - name: value
      type:
        scalar: numeric
- name: listOfLists
  list:
    elementType:
      map:
        fields:
        - name: name
          type:
            scalar: string
        - name: value
          type:
            namedType: list
    elementRelationship: associative
    keys:
    - name
- name: list
  list:
    elementType:
      scalar: string
    elementRelationship: associative
- name: listOfMaps
  list:
    elementType:
      map:
        fields:
        - name: name
          type:
            scalar: string
        - name: value
          type:
            namedType: map
    elementRelationship: associative
    keys:
    - name
- name: map
  map:
    elementType:
      scalar: string
    elementRelationship: associative
- name: mapOfLists
  map:
    elementType:
      namedType: list
    elementRelationship: associative
- name: mapOfMaps
  map:
    elementType:
      namedType: map
    elementRelationship: associative
- name: mapOfMapsRecursive
  map:
    elementType:
      namedType: mapOfMapsRecursive
    elementRelationship: associative
"#;


    fn nested_type_parser() -> Parser {
        Parser::new(NESTED_TYPE_SCHEMA).expect("nested type schema should parse")
    }

    #[test]
    fn test_nested_list_of_lists_change_value() {
        let parser = nested_type_parser();
        let pt = parser.type_by_name("type");
        let updater = Updater::builder().build();
        let version = structured_merge_diff::fieldpath::APIVersion::new("v1");
        let mut managers = ManagedFields::new();

        let empty = pt.from_yaml("{}").unwrap();

        // First apply: listOfLists with name=a, value=[b, c]
        let obj1 = pt.from_yaml(r#"
            listOfLists:
            - name: a
              value:
              - b
              - c
        "#).unwrap();
        let result1 = updater.apply(&empty, &obj1, &version, &mut managers, "default", false);
        assert!(result1.is_ok(), "First apply failed: {:?}", result1.err());
        let live1 = result1.unwrap();

        // Second apply: change value to [a, c]
        let obj2 = pt.from_yaml(r#"
            listOfLists:
            - name: a
              value:
              - a
              - c
        "#).unwrap();
        let result2 = updater.apply(&live1, &obj2, &version, &mut managers, "default", false);
        assert!(result2.is_ok(), "Second apply failed: {:?}", result2.err());
        let live2 = result2.unwrap();

        // Verify final state
        if let Value::Object(m) = live2.value() {
            if let Some(Value::List(items)) = m.get("listOfLists") {
                assert_eq!(items.len(), 1);
                if let Value::Object(item) = &items[0] {
                    assert_eq!(item.get("name"), Some(&Value::String("a".into())));
                    if let Some(Value::List(values)) = item.get("value") {
                        assert_eq!(values.len(), 2);
                        assert!(values.contains(&Value::String("a".into())));
                        assert!(values.contains(&Value::String("c".into())));
                    } else {
                        panic!("Expected value to be a list");
                    }
                } else {
                    panic!("Expected list item to be a map");
                }
            } else {
                panic!("Expected listOfLists to be a list");
            }
        } else {
            panic!("Expected map");
        }
    }

    #[test]
    fn test_nested_list_of_lists_change_key_and_value() {
        let parser = nested_type_parser();
        let pt = parser.type_by_name("type");
        let updater = Updater::builder().build();
        let version = structured_merge_diff::fieldpath::APIVersion::new("v1");
        let mut managers = ManagedFields::new();

        let empty = pt.from_yaml("{}").unwrap();

        // First apply: listOfLists with name=a
        let obj1 = pt.from_yaml(r#"
            listOfLists:
            - name: a
              value:
              - b
              - c
        "#).unwrap();
        let result1 = updater.apply(&empty, &obj1, &version, &mut managers, "default", false);
        assert!(result1.is_ok());
        let live1 = result1.unwrap();

        // Second apply: change name to b and value to [a, c]
        let obj2 = pt.from_yaml(r#"
            listOfLists:
            - name: b
              value:
              - a
              - c
        "#).unwrap();
        let result2 = updater.apply(&live1, &obj2, &version, &mut managers, "default", false);
        assert!(result2.is_ok());
        let live2 = result2.unwrap();

        // Verify final state - should have name=b now
        if let Value::Object(m) = live2.value() {
            if let Some(Value::List(items)) = m.get("listOfLists") {
                assert_eq!(items.len(), 1);
                if let Value::Object(item) = &items[0] {
                    assert_eq!(item.get("name"), Some(&Value::String("b".into())));
                }
            }
        }
    }

    #[test]
    fn test_nested_map_of_maps_change_value() {
        let parser = nested_type_parser();
        let pt = parser.type_by_name("type");
        let updater = Updater::builder().build();
        let version = structured_merge_diff::fieldpath::APIVersion::new("v1");
        let mut managers = ManagedFields::new();

        let empty = pt.from_yaml("{}").unwrap();

        // First apply
        let obj1 = pt.from_yaml(r#"
            mapOfMaps:
              a:
                b: "x"
                c: "y"
        "#).unwrap();
        let result1 = updater.apply(&empty, &obj1, &version, &mut managers, "default", false);
        assert!(result1.is_ok());
        let live1 = result1.unwrap();

        // Second apply: change inner map
        let obj2 = pt.from_yaml(r#"
            mapOfMaps:
              a:
                a: "x"
                c: "z"
        "#).unwrap();
        let result2 = updater.apply(&live1, &obj2, &version, &mut managers, "default", false);
        assert!(result2.is_ok());
        let live2 = result2.unwrap();

        // Verify final state
        if let Value::Object(m) = live2.value() {
            if let Some(Value::Object(outer)) = m.get("mapOfMaps") {
                if let Some(Value::Object(inner)) = outer.get("a") {
                    assert_eq!(inner.get("a"), Some(&Value::String("x".into())));
                    assert_eq!(inner.get("c"), Some(&Value::String("z".into())));
                    // "b" should be gone
                    assert!(inner.get("b").is_none() || inner.get("b") == Some(&Value::Null));
                }
            }
        }
    }

    #[test]
    fn test_nested_map_of_maps_recursive_change_middle_key() {
        let parser = nested_type_parser();
        let pt = parser.type_by_name("type");
        let updater = Updater::builder().build();
        let version = structured_merge_diff::fieldpath::APIVersion::new("v1");
        let mut managers = ManagedFields::new();

        let empty = pt.from_yaml("{}").unwrap();

        // First apply: a.b.c
        let obj1 = pt.from_yaml(r#"
            mapOfMapsRecursive:
              a:
                b:
                  c:
        "#).unwrap();
        let result1 = updater.apply(&empty, &obj1, &version, &mut managers, "default", false);
        assert!(result1.is_ok());
        let live1 = result1.unwrap();

        // Second apply: change b to d -> a.d.c
        let obj2 = pt.from_yaml(r#"
            mapOfMapsRecursive:
              a:
                d:
                  c:
        "#).unwrap();
        let result2 = updater.apply(&live1, &obj2, &version, &mut managers, "default", false);
        assert!(result2.is_ok());
        let live2 = result2.unwrap();

        // Verify final state
        if let Value::Object(m) = live2.value() {
            if let Some(Value::Object(outer)) = m.get("mapOfMapsRecursive") {
                if let Some(Value::Object(a_map)) = outer.get("a") {
                    // Should have "d", not "b"
                    assert!(a_map.get("d").is_some());
                    assert!(a_map.get("b").is_none() || a_map.get("b") == Some(&Value::Null));
                }
            }
        }
    }

    #[test]
    fn test_nested_struct_apply_remove_all() {
        let parser = nested_type_parser();
        let pt = parser.type_by_name("type");
        let updater = Updater::builder().build();
        let version = structured_merge_diff::fieldpath::APIVersion::new("v1");
        let mut managers = ManagedFields::new();

        let empty = pt.from_yaml("{}").unwrap();

        // First apply: struct with name and value
        let obj1 = pt.from_yaml(r#"
            struct:
              name: a
              value: 1
        "#).unwrap();
        let result1 = updater.apply(&empty, &obj1, &version, &mut managers, "default", false);
        assert!(result1.is_ok());
        let live1 = result1.unwrap();

        // Second apply: empty - should remove struct
        let obj2 = pt.from_yaml("{}").unwrap();
        let result2 = updater.apply(&live1, &obj2, &version, &mut managers, "default", false);
        assert!(result2.is_ok());
        let live2 = result2.unwrap();

        // Verify final state - struct should be gone
        match live2.value() {
            Value::Object(m) => {
                assert!(
                    m.get("struct").is_none() || m.get("struct") == Some(&Value::Null),
                    "struct should be removed"
                );
            }
            Value::Null => {
                // Acceptable if all fields removed
            }
            _ => panic!("Expected map or null"),
        }
    }

    #[test]
    fn test_nested_struct_apply_update_remove_all() {
        let parser = nested_type_parser();
        let pt = parser.type_by_name("type");
        let updater = Updater::builder().build();
        let version = structured_merge_diff::fieldpath::APIVersion::new("v1");
        let mut managers = ManagedFields::new();

        let empty = pt.from_yaml("{}").unwrap();

        // First apply: struct.name from default
        let obj1 = pt.from_yaml(r#"
            struct:
              name: a
        "#).unwrap();
        let result1 = updater.apply(&empty, &obj1, &version, &mut managers, "default", false);
        assert!(result1.is_ok());
        let live1 = result1.unwrap();

        // Update from controller: add struct.value
        let obj2 = pt.from_yaml(r#"
            struct:
              name: a
              value: 1
        "#).unwrap();
        let result2 = updater.update(&live1, &obj2, &version, &mut managers, "controller");
        assert!(result2.is_ok());
        let live2 = result2.unwrap();

        // Apply from default: remove struct (empty)
        let obj3 = pt.from_yaml("{}").unwrap();
        let result3 = updater.apply(&live2, &obj3, &version, &mut managers, "default", false);
        assert!(result3.is_ok());
        let live3 = result3.unwrap();

        // Verify final state - struct.value should remain (owned by controller)
        if let Value::Object(m) = live3.value() {
            if let Some(Value::Object(s)) = m.get("struct") {
                assert_eq!(s.get("value"), Some(&Value::Int(1)));
            }
        }
    }

    #[test]
    fn test_nested_list_of_maps_change_value() {
        // Test: listOfMaps_change_value
        let parser = nested_type_parser();
        let pt = parser.type_by_name("type");
        let updater = Updater::builder().build();
        let version = structured_merge_diff::fieldpath::APIVersion::new("v1");
        let mut managers = ManagedFields::new();

        let empty = pt.from_yaml("{}").unwrap();

        // First apply: listOfMaps[name=a].value = {b: "x", c: "y"}
        let obj1 = pt.from_yaml(r#"
            listOfMaps:
            - name: a
              value:
                b: "x"
                c: "y"
        "#).unwrap();
        let result1 = updater.apply(&empty, &obj1, &version, &mut managers, "default", false);
        assert!(result1.is_ok());
        let live1 = result1.unwrap();

        // Second apply: change value to {a: "x", c: "z"}
        let obj2 = pt.from_yaml(r#"
            listOfMaps:
            - name: a
              value:
                a: "x"
                c: "z"
        "#).unwrap();
        let result2 = updater.apply(&live1, &obj2, &version, &mut managers, "default", false);
        assert!(result2.is_ok());
        let live2 = result2.unwrap();

        // Verify final state
        if let Value::Object(m) = live2.value() {
            if let Some(Value::List(items)) = m.get("listOfMaps") {
                assert_eq!(items.len(), 1);
                if let Value::Object(item) = &items[0] {
                    assert_eq!(item.get("name"), Some(&Value::String("a".into())));
                    if let Some(Value::Object(value)) = item.get("value") {
                        assert_eq!(value.get("a"), Some(&Value::String("x".into())));
                        assert_eq!(value.get("c"), Some(&Value::String("z".into())));
                        assert!(value.get("b").is_none());
                    } else {
                        panic!("Expected value to be a map");
                    }
                }
            }
        }
    }

    #[test]
    fn test_nested_list_of_maps_change_key_and_value() {
        // Test: listOfMaps_change_key_and_value
        let parser = nested_type_parser();
        let pt = parser.type_by_name("type");
        let updater = Updater::builder().build();
        let version = structured_merge_diff::fieldpath::APIVersion::new("v1");
        let mut managers = ManagedFields::new();

        let empty = pt.from_yaml("{}").unwrap();

        // First apply: listOfMaps[name=a].value = {b: "x", c: "y"}
        let obj1 = pt.from_yaml(r#"
            listOfMaps:
            - name: a
              value:
                b: "x"
                c: "y"
        "#).unwrap();
        let result1 = updater.apply(&empty, &obj1, &version, &mut managers, "default", false);
        assert!(result1.is_ok());
        let live1 = result1.unwrap();

        // Second apply: change key to b and value to {a: "x", c: "z"}
        let obj2 = pt.from_yaml(r#"
            listOfMaps:
            - name: b
              value:
                a: "x"
                c: "z"
        "#).unwrap();
        let result2 = updater.apply(&live1, &obj2, &version, &mut managers, "default", false);
        assert!(result2.is_ok());
        let live2 = result2.unwrap();

        // Verify final state
        if let Value::Object(m) = live2.value() {
            if let Some(Value::List(items)) = m.get("listOfMaps") {
                assert_eq!(items.len(), 1);
                if let Value::Object(item) = &items[0] {
                    assert_eq!(item.get("name"), Some(&Value::String("b".into())));
                }
            }
        }
    }

    #[test]
    fn test_nested_map_of_lists_change_value() {
        // Test: mapOfLists_change_value
        let parser = nested_type_parser();
        let pt = parser.type_by_name("type");
        let updater = Updater::builder().build();
        let version = structured_merge_diff::fieldpath::APIVersion::new("v1");
        let mut managers = ManagedFields::new();

        let empty = pt.from_yaml("{}").unwrap();

        // First apply: mapOfLists.a = [b, c]
        let obj1 = pt.from_yaml(r#"
            mapOfLists:
              a:
              - b
              - c
        "#).unwrap();
        let result1 = updater.apply(&empty, &obj1, &version, &mut managers, "default", false);
        assert!(result1.is_ok());
        let live1 = result1.unwrap();

        // Second apply: change value to [a, c]
        let obj2 = pt.from_yaml(r#"
            mapOfLists:
              a:
              - a
              - c
        "#).unwrap();
        let result2 = updater.apply(&live1, &obj2, &version, &mut managers, "default", false);
        assert!(result2.is_ok());
        let live2 = result2.unwrap();

        // Verify final state
        if let Value::Object(m) = live2.value() {
            if let Some(Value::Object(mol)) = m.get("mapOfLists") {
                if let Some(Value::List(items)) = mol.get("a") {
                    assert_eq!(items.len(), 2);
                    assert!(items.contains(&Value::String("a".into())));
                    assert!(items.contains(&Value::String("c".into())));
                    assert!(!items.contains(&Value::String("b".into())));
                }
            }
        }
    }

    #[test]
    fn test_nested_map_of_lists_change_key_and_value() {
        // Test: mapOfLists_change_key_and_value
        let parser = nested_type_parser();
        let pt = parser.type_by_name("type");
        let updater = Updater::builder().build();
        let version = structured_merge_diff::fieldpath::APIVersion::new("v1");
        let mut managers = ManagedFields::new();

        let empty = pt.from_yaml("{}").unwrap();

        // First apply: mapOfLists.a = [b, c]
        let obj1 = pt.from_yaml(r#"
            mapOfLists:
              a:
              - b
              - c
        "#).unwrap();
        let result1 = updater.apply(&empty, &obj1, &version, &mut managers, "default", false);
        assert!(result1.is_ok());
        let live1 = result1.unwrap();

        // Second apply: change key to b and value to [a, c]
        let obj2 = pt.from_yaml(r#"
            mapOfLists:
              b:
              - a
              - c
        "#).unwrap();
        let result2 = updater.apply(&live1, &obj2, &version, &mut managers, "default", false);
        assert!(result2.is_ok());
        let live2 = result2.unwrap();

        // Verify final state
        if let Value::Object(m) = live2.value() {
            if let Some(Value::Object(mol)) = m.get("mapOfLists") {
                assert!(mol.get("a").is_none());
                if let Some(Value::List(items)) = mol.get("b") {
                    assert_eq!(items.len(), 2);
                    assert!(items.contains(&Value::String("a".into())));
                    assert!(items.contains(&Value::String("c".into())));
                }
            }
        }
    }

    #[test]
    fn test_nested_map_of_maps_change_key_and_value() {
        // Test: mapOfMaps_change_key_and_value
        let parser = nested_type_parser();
        let pt = parser.type_by_name("type");
        let updater = Updater::builder().build();
        let version = structured_merge_diff::fieldpath::APIVersion::new("v1");
        let mut managers = ManagedFields::new();

        let empty = pt.from_yaml("{}").unwrap();

        // First apply: mapOfMaps.a = {b: "x", c: "y"}
        let obj1 = pt.from_yaml(r#"
            mapOfMaps:
              a:
                b: "x"
                c: "y"
        "#).unwrap();
        let result1 = updater.apply(&empty, &obj1, &version, &mut managers, "default", false);
        assert!(result1.is_ok());
        let live1 = result1.unwrap();

        // Second apply: change key to b and value to {a: "x", c: "z"}
        let obj2 = pt.from_yaml(r#"
            mapOfMaps:
              b:
                a: "x"
                c: "z"
        "#).unwrap();
        let result2 = updater.apply(&live1, &obj2, &version, &mut managers, "default", false);
        assert!(result2.is_ok());
        let live2 = result2.unwrap();

        // Verify final state
        if let Value::Object(m) = live2.value() {
            if let Some(Value::Object(mom)) = m.get("mapOfMaps") {
                assert!(mom.get("a").is_none());
                if let Some(Value::Object(inner)) = mom.get("b") {
                    assert_eq!(inner.get("a"), Some(&Value::String("x".into())));
                    assert_eq!(inner.get("c"), Some(&Value::String("z".into())));
                    assert!(inner.get("b").is_none());
                }
            }
        }
    }

    #[test]
    fn test_nested_struct_apply_remove_dangling() {
        // Test: struct_apply_remove_dangling
        // Apply struct.name, then apply struct: {} (dangling)
        let parser = nested_type_parser();
        let pt = parser.type_by_name("type");
        let updater = Updater::builder().build();
        let version = structured_merge_diff::fieldpath::APIVersion::new("v1");
        let mut managers = ManagedFields::new();

        let empty = pt.from_yaml("{}").unwrap();

        // First apply: struct.name = a
        let obj1 = pt.from_yaml(r#"
            struct:
              name: a
        "#).unwrap();
        let result1 = updater.apply(&empty, &obj1, &version, &mut managers, "default", false);
        assert!(result1.is_ok());
        let live1 = result1.unwrap();

        // Second apply: struct: {} (dangling, no children)
        // In YAML, this means struct key exists but has null value
        let obj2 = pt.from_yaml(r#"
            struct:
        "#).unwrap();
        let result2 = updater.apply(&live1, &obj2, &version, &mut managers, "default", false);
        assert!(result2.is_ok());
        let live2 = result2.unwrap();

        // Verify final state - struct should exist but be empty/null
        if let Value::Object(m) = live2.value() {
            // struct key should exist
            assert!(m.get("struct").is_some());
        }

        // Manager should own struct (but not struct.name which was removed)
        let vs = managers.get("default").unwrap();
        assert!(vs.set().has(&path(vec![field("struct")])));
    }

    #[test]
    fn test_nested_struct_apply_update_took_over() {
        // Test: struct_apply_update_took_over
        // default applies struct.name, controller updates with struct.name=b and struct.value=1,
        // default applies empty struct - should leave controller's fields
        let parser = nested_type_parser();
        let pt = parser.type_by_name("type");
        let updater = Updater::builder().build();
        let version = structured_merge_diff::fieldpath::APIVersion::new("v1");
        let mut managers = ManagedFields::new();

        let empty = pt.from_yaml("{}").unwrap();

        // First apply from default: struct.name = a
        let obj1 = pt.from_yaml(r#"
            struct:
              name: a
        "#).unwrap();
        let result1 = updater.apply(&empty, &obj1, &version, &mut managers, "default", false);
        assert!(result1.is_ok());
        let live1 = result1.unwrap();

        // Update from controller: struct.name = b and struct.value = 1
        let obj2 = pt.from_yaml(r#"
            struct:
              name: b
              value: 1
        "#).unwrap();
        let result2 = updater.update(&live1, &obj2, &version, &mut managers, "controller");
        assert!(result2.is_ok());
        let live2 = result2.unwrap();

        // Apply from default: empty struct (removes struct key)
        let obj3 = pt.from_yaml(r#"
            struct:
        "#).unwrap();
        let result3 = updater.apply(&live2, &obj3, &version, &mut managers, "default", false);
        assert!(result3.is_ok());
        let live3 = result3.unwrap();

        // Verify final state - controller's fields should remain
        if let Value::Object(m) = live3.value() {
            if let Some(Value::Object(s)) = m.get("struct") {
                // name and value should be there (owned by controller)
                assert_eq!(s.get("name"), Some(&Value::String("b".into())));
                assert_eq!(s.get("value"), Some(&Value::Int(1)));
            }
        }
    }

    // =========================================================================
    // Multiple appliers tests from merge/multiple_appliers_test.go
    // =========================================================================

    const ASSOCIATIVE_LIST_SCHEMA: &str = r#"types:
- name: type
  map:
    fields:
      - name: list
        type:
          namedType: associativeList
- name: associativeList
  list:
    elementType:
      namedType: myElement
    elementRelationship: associative
    keys:
    - name
- name: myElement
  map:
    fields:
    - name: name
      type:
        scalar: string
    - name: value
      type:
        scalar: numeric
"#;

    fn associative_list_parser() -> Parser {
        Parser::new(ASSOCIATIVE_LIST_SCHEMA).expect("associative list schema should parse")
    }

    /// Helper for key path element with a single name field.
    fn key_name(name: &str) -> PathElement {
        PathElement::key(FieldList {
            fields: vec![Field {
                name: "name".to_string(),
                value: Value::String(name.into()),
            }],
        })
    }

    #[test]
    fn test_multiple_appliers_remove_one() {
        // Two appliers managing different items - one removes an item it owned
        let parser = associative_list_parser();
        let pt = parser.type_by_name("type");
        let updater = Updater::builder().build();
        let mut managers = ManagedFields::new();

        let empty = pt.from_yaml("{}").unwrap();

        // apply-one: list=[a, b]
        let obj1 = pt.from_yaml(r#"
            list:
            - name: a
            - name: b
        "#).unwrap();
        let version1 = structured_merge_diff::fieldpath::APIVersion::new("v1");
        let result1 = updater.apply(&empty, &obj1, &version1, &mut managers, "apply-one", false);
        assert!(result1.is_ok(), "First apply failed: {:?}", result1.err());
        let live1 = result1.unwrap();

        // apply-two: list=[c]
        let obj2 = pt.from_yaml(r#"
            list:
            - name: c
        "#).unwrap();
        let version2 = structured_merge_diff::fieldpath::APIVersion::new("v2");
        let result2 = updater.apply(&live1, &obj2, &version2, &mut managers, "apply-two", false);
        assert!(result2.is_ok(), "Second apply failed: {:?}", result2.err());
        let live2 = result2.unwrap();

        // apply-one: list=[a] (removes b)
        let obj3 = pt.from_yaml(r#"
            list:
            - name: a
        "#).unwrap();
        let version3 = structured_merge_diff::fieldpath::APIVersion::new("v3");
        let result3 = updater.apply(&live2, &obj3, &version3, &mut managers, "apply-one", false);
        assert!(result3.is_ok(), "Third apply failed: {:?}", result3.err());
        let live3 = result3.unwrap();

        // Verify final state: should have [a, c]
        if let Value::Object(m) = live3.value() {
            if let Some(Value::List(items)) = m.get("list") {
                assert_eq!(items.len(), 2, "Expected 2 items, got {:?}", items);
                let has_a = items.iter().any(|v| {
                    if let Value::Object(m) = v {
                        m.get("name") == Some(&Value::String("a".into()))
                    } else { false }
                });
                let has_c = items.iter().any(|v| {
                    if let Value::Object(m) = v {
                        m.get("name") == Some(&Value::String("c".into()))
                    } else { false }
                });
                assert!(has_a, "Should have item 'a'");
                assert!(has_c, "Should have item 'c'");
                // b should be gone
                let has_b = items.iter().any(|v| {
                    if let Value::Object(m) = v {
                        m.get("name") == Some(&Value::String("b".into()))
                    } else { false }
                });
                assert!(!has_b, "Item 'b' should be removed");
            } else {
                panic!("Expected list");
            }
        } else {
            panic!("Expected map");
        }

        // Verify ownership
        let set1 = managers.get("apply-one").unwrap();
        assert!(set1.set().has(&path(vec![field("list"), key_name("a")])));
        assert!(set1.set().has(&path(vec![field("list"), key_name("a"), field("name")])));

        let set2 = managers.get("apply-two").unwrap();
        assert!(set2.set().has(&path(vec![field("list"), key_name("c")])));
        assert!(set2.set().has(&path(vec![field("list"), key_name("c"), field("name")])));
    }

    #[test]
    fn test_multiple_appliers_same_value_no_conflict() {
        // Two appliers setting same value on same item - no conflict
        let parser = associative_list_parser();
        let pt = parser.type_by_name("type");
        let updater = Updater::builder().build();
        let mut managers = ManagedFields::new();

        let empty = pt.from_yaml("{}").unwrap();

        // apply-one: list=[{name: a, value: 0}]
        let obj1 = pt.from_yaml(r#"
            list:
            - name: a
              value: 0
        "#).unwrap();
        let version1 = structured_merge_diff::fieldpath::APIVersion::new("v1");
        let result1 = updater.apply(&empty, &obj1, &version1, &mut managers, "apply-one", false);
        assert!(result1.is_ok());
        let live1 = result1.unwrap();

        // apply-two: list=[{name: a, value: 0}] (same value)
        let obj2 = pt.from_yaml(r#"
            list:
            - name: a
              value: 0
        "#).unwrap();
        let version2 = structured_merge_diff::fieldpath::APIVersion::new("v2");
        let result2 = updater.apply(&live1, &obj2, &version2, &mut managers, "apply-two", false);
        assert!(result2.is_ok(), "Should not conflict on same value: {:?}", result2.err());
        let live2 = result2.unwrap();

        // Verify final state
        if let Value::Object(m) = live2.value() {
            if let Some(Value::List(items)) = m.get("list") {
                assert_eq!(items.len(), 1);
                if let Value::Object(item) = &items[0] {
                    assert_eq!(item.get("name"), Some(&Value::String("a".into())));
                    assert_eq!(item.get("value"), Some(&Value::Int(0)));
                }
            }
        }

        // Both should own the fields
        let set1 = managers.get("apply-one").unwrap();
        assert!(set1.set().has(&path(vec![field("list"), key_name("a"), field("value")])));

        let set2 = managers.get("apply-two").unwrap();
        assert!(set2.set().has(&path(vec![field("list"), key_name("a"), field("value")])));
    }

    #[test]
    fn test_multiple_appliers_change_value_conflict() {
        // Two appliers trying to set different values - should conflict
        let parser = associative_list_parser();
        let pt = parser.type_by_name("type");
        let updater = Updater::builder().build();
        let mut managers = ManagedFields::new();

        let empty = pt.from_yaml("{}").unwrap();

        // apply-one: list=[{name: a, value: 0}]
        let obj1 = pt.from_yaml(r#"
            list:
            - name: a
              value: 0
        "#).unwrap();
        let version1 = structured_merge_diff::fieldpath::APIVersion::new("v1");
        let result1 = updater.apply(&empty, &obj1, &version1, &mut managers, "apply-one", false);
        assert!(result1.is_ok());
        let live1 = result1.unwrap();

        // apply-two: list=[{name: a, value: 1}] (different value)
        let obj2 = pt.from_yaml(r#"
            list:
            - name: a
              value: 1
        "#).unwrap();
        let version2 = structured_merge_diff::fieldpath::APIVersion::new("v2");
        let result2 = updater.apply(&live1, &obj2, &version2, &mut managers, "apply-two", false);

        // Should have conflict on value field
        match &result2 {
            Err(ApplyError::Conflicts(conflicts)) => {
                assert!(!conflicts.is_empty(), "Expected conflicts");
                let has_value_conflict = conflicts.iter().iter().any(|c| {
                    c.manager == "apply-one" &&
                    c.path == path(vec![field("list"), key_name("a"), field("value")])
                });
                assert!(has_value_conflict, "Expected conflict on value field");
            }
            Ok(_) => panic!("Expected conflict error"),
            Err(e) => panic!("Expected Conflicts error, got: {}", e.to_string()),
        }

        // Object should remain unchanged
        if let Value::Object(m) = live1.value() {
            if let Some(Value::List(items)) = m.get("list") {
                if let Value::Object(item) = &items[0] {
                    assert_eq!(item.get("value"), Some(&Value::Int(0)));
                }
            }
        }

        // apply-one should still own value
        let set1 = managers.get("apply-one").unwrap();
        assert!(set1.set().has(&path(vec![field("list"), key_name("a"), field("value")])));
    }

    #[test]
    fn test_multiple_appliers_remove_one_keep_one() {
        // One applier removes items, another keeps different items
        let parser = associative_list_parser();
        let pt = parser.type_by_name("type");
        let updater = Updater::builder().build();
        let mut managers = ManagedFields::new();

        let empty = pt.from_yaml("{}").unwrap();

        // apply-one: list=[a, b, c]
        let obj1 = pt.from_yaml(r#"
            list:
            - name: a
            - name: b
            - name: c
        "#).unwrap();
        let version1 = structured_merge_diff::fieldpath::APIVersion::new("v1");
        let result1 = updater.apply(&empty, &obj1, &version1, &mut managers, "apply-one", false);
        assert!(result1.is_ok());
        let live1 = result1.unwrap();

        // apply-two: list=[c, d]
        let obj2 = pt.from_yaml(r#"
            list:
            - name: c
            - name: d
        "#).unwrap();
        let version2 = structured_merge_diff::fieldpath::APIVersion::new("v2");
        let result2 = updater.apply(&live1, &obj2, &version2, &mut managers, "apply-two", true); // Force to take c
        assert!(result2.is_ok());
        let live2 = result2.unwrap();

        // apply-one: list=[a] (removes b, c is kept by apply-two)
        let obj3 = pt.from_yaml(r#"
            list:
            - name: a
        "#).unwrap();
        let version3 = structured_merge_diff::fieldpath::APIVersion::new("v3");
        let result3 = updater.apply(&live2, &obj3, &version3, &mut managers, "apply-one", false);
        assert!(result3.is_ok());
        let live3 = result3.unwrap();

        // Verify final state: should have [a, c, d]
        if let Value::Object(m) = live3.value() {
            if let Some(Value::List(items)) = m.get("list") {
                assert_eq!(items.len(), 3, "Expected 3 items, got {:?}", items);
                let names: Vec<_> = items.iter().filter_map(|v| {
                    if let Value::Object(m) = v {
                        if let Some(Value::String(s)) = m.get("name") {
                            return Some(s.as_str());
                        }
                    }
                    None
                }).collect();
                assert!(names.contains(&"a"), "Should have 'a'");
                assert!(names.contains(&"c"), "Should have 'c'");
                assert!(names.contains(&"d"), "Should have 'd'");
                assert!(!names.contains(&"b"), "'b' should be removed");
            } else {
                panic!("Expected list");
            }
        } else {
            panic!("Expected map");
        }

        // Verify ownership
        let set1 = managers.get("apply-one").unwrap();
        assert!(set1.set().has(&path(vec![field("list"), key_name("a")])));
        assert!(!set1.set().has(&path(vec![field("list"), key_name("b")])));

        let set2 = managers.get("apply-two").unwrap();
        assert!(set2.set().has(&path(vec![field("list"), key_name("c")])));
        assert!(set2.set().has(&path(vec![field("list"), key_name("d")])));
    }

    // =========================================================================
    // Multiple appliers nested type tests
    // =========================================================================

    /// Helper for value path element
    fn value_elem(v: Value) -> PathElement {
        PathElement::value(v)
    }

    #[test]
    fn test_multiple_appliers_nested_remove_one_keep_one_with_sub_items() {
        let parser = nested_type_parser();
        let pt = parser.type_by_name("type");
        let updater = Updater::builder().build();
        let mut managers = ManagedFields::new();

        let empty = pt.from_yaml("{}").unwrap();

        // apply-one: listOfLists with [a, b(with value [c])]
        let obj1 = pt.from_yaml(r#"
            listOfLists:
            - name: a
            - name: b
              value:
              - c
        "#).unwrap();
        let version1 = structured_merge_diff::fieldpath::APIVersion::new("v1");
        let result1 = updater.apply(&empty, &obj1, &version1, &mut managers, "apply-one", false);
        assert!(result1.is_ok());
        let live1 = result1.unwrap();

        // apply-two: listOfLists with [b(with value [d])]
        let obj2 = pt.from_yaml(r#"
            listOfLists:
            - name: b
              value:
              - d
        "#).unwrap();
        let version2 = structured_merge_diff::fieldpath::APIVersion::new("v2");
        let result2 = updater.apply(&live1, &obj2, &version2, &mut managers, "apply-two", true); // Force to take b
        assert!(result2.is_ok());
        let live2 = result2.unwrap();

        // apply-one: listOfLists with [a] (removes b which is kept by apply-two)
        let obj3 = pt.from_yaml(r#"
            listOfLists:
            - name: a
        "#).unwrap();
        let version3 = structured_merge_diff::fieldpath::APIVersion::new("v3");
        let result3 = updater.apply(&live2, &obj3, &version3, &mut managers, "apply-one", false);
        assert!(result3.is_ok());
        let live3 = result3.unwrap();

        // Verify final state: should have [a, b(with value [d])]
        if let Value::Object(m) = live3.value() {
            if let Some(Value::List(items)) = m.get("listOfLists") {
                assert_eq!(items.len(), 2, "Expected 2 items, got {:?}", items);

                // Check b has value [d]
                let b_item = items.iter().find(|v| {
                    if let Value::Object(m) = v {
                        m.get("name") == Some(&Value::String("b".into()))
                    } else { false }
                });
                assert!(b_item.is_some(), "Should have item 'b'");
                if let Some(Value::Object(b_map)) = b_item {
                    if let Some(Value::List(values)) = b_map.get("value") {
                        assert!(values.contains(&Value::String("d".into())), "b.value should contain 'd'");
                    }
                }
            }
        }

        // Verify ownership
        let set1 = managers.get("apply-one").unwrap();
        assert!(set1.set().has(&path(vec![field("listOfLists"), key_name("a")])));

        let set2 = managers.get("apply-two").unwrap();
        assert!(set2.set().has(&path(vec![field("listOfLists"), key_name("b")])));
        assert!(set2.set().has(&path(vec![field("listOfLists"), key_name("b"), field("value"), value_elem(Value::String("d".into()))])));
    }

    #[test]
    fn test_multiple_appliers_nested_remove_one_keep_one_with_dangling_subitem() {
        // Go: remove_one_keep_one_with_dangling_subitem
        // Tests that when an applier removes an item that has dangling subitems (added by controller),
        // the dangling subitems also get removed
        let parser = nested_type_parser();
        let pt = parser.type_by_name("type");
        let updater = Updater::builder().build();
        let mut managers = ManagedFields::new();

        let empty = pt.from_yaml("{}").unwrap();

        // apply-one: listOfLists with [a, b(with value [c])]
        let obj1 = pt.from_yaml(r#"
            listOfLists:
            - name: a
            - name: b
              value:
              - c
        "#).unwrap();
        let version1 = structured_merge_diff::fieldpath::APIVersion::new("v1");
        let result1 = updater.apply(&empty, &obj1, &version1, &mut managers, "apply-one", false);
        assert!(result1.is_ok());
        let live1 = result1.unwrap();

        // apply-two: listOfLists with [b(with value [d])]
        let obj2 = pt.from_yaml(r#"
            listOfLists:
            - name: b
              value:
              - d
        "#).unwrap();
        let version2 = structured_merge_diff::fieldpath::APIVersion::new("v2");
        let result2 = updater.apply(&live1, &obj2, &version2, &mut managers, "apply-two", true); // Force to take b
        assert!(result2.is_ok());
        let live2 = result2.unwrap();

        // controller: adds value e to b
        let obj3 = pt.from_yaml(r#"
            listOfLists:
            - name: a
            - name: b
              value:
              - c
              - d
              - e
        "#).unwrap();
        let result3 = updater.update(&live2, &obj3, &version2, &mut managers, "controller");
        assert!(result3.is_ok());
        let live3 = result3.unwrap();

        // apply-one: removes b (keeps only a)
        let obj4 = pt.from_yaml(r#"
            listOfLists:
            - name: a
        "#).unwrap();
        let version3 = structured_merge_diff::fieldpath::APIVersion::new("v3");
        let result4 = updater.apply(&live3, &obj4, &version3, &mut managers, "apply-one", false);
        assert!(result4.is_ok());
        let live4 = result4.unwrap();

        // Verify final state: should have [a, b(with value [d, e])]
        // b remains because apply-two owns it, c is removed because apply-one owned it
        if let Value::Object(m) = live4.value() {
            if let Some(Value::List(items)) = m.get("listOfLists") {
                assert_eq!(items.len(), 2, "Expected 2 items");

                // Find b and check its values
                let b_item = items.iter().find(|v| {
                    if let Value::Object(m) = v {
                        m.get("name") == Some(&Value::String("b".into()))
                    } else { false }
                });
                assert!(b_item.is_some());
                if let Some(Value::Object(b_map)) = b_item {
                    if let Some(Value::List(values)) = b_map.get("value") {
                        // d (apply-two) and e (controller) should remain
                        assert!(values.contains(&Value::String("d".into())));
                        assert!(values.contains(&Value::String("e".into())));
                    }
                }
            }
        }

        // Verify ownership
        let set1 = managers.get("apply-one").unwrap();
        assert!(set1.set().has(&path(vec![field("listOfLists"), key_name("a")])));

        let set2 = managers.get("apply-two").unwrap();
        assert!(set2.set().has(&path(vec![field("listOfLists"), key_name("b")])));
        assert!(set2.set().has(&path(vec![field("listOfLists"), key_name("b"), field("value"), value_elem(Value::String("d".into()))])));

        let set3 = managers.get("controller").unwrap();
        assert!(set3.set().has(&path(vec![field("listOfLists"), key_name("b"), field("value"), value_elem(Value::String("e".into()))])));
    }

    #[test]
    fn test_multiple_appliers_nested_remove_one_with_dangling_subitem_keep_one() {
        // Go: remove_one_with_dangling_subitem_keep_one
        // Tests removal of item with dangling subitems while keeping another item
        let parser = nested_type_parser();
        let pt = parser.type_by_name("type");
        let updater = Updater::builder().build();
        let mut managers = ManagedFields::new();

        let empty = pt.from_yaml("{}").unwrap();

        // apply-one: listOfLists with [a, b(with value [c])]
        let obj1 = pt.from_yaml(r#"
            listOfLists:
            - name: a
            - name: b
              value:
              - c
        "#).unwrap();
        let version1 = structured_merge_diff::fieldpath::APIVersion::new("v1");
        let result1 = updater.apply(&empty, &obj1, &version1, &mut managers, "apply-one", false);
        assert!(result1.is_ok());
        let live1 = result1.unwrap();

        // apply-two: shares a and adds value [b] to a
        let obj2 = pt.from_yaml(r#"
            listOfLists:
            - name: a
              value:
              - b
        "#).unwrap();
        let version2 = structured_merge_diff::fieldpath::APIVersion::new("v2");
        let result2 = updater.apply(&live1, &obj2, &version2, &mut managers, "apply-two", false);
        assert!(result2.is_ok());
        let live2 = result2.unwrap();

        // controller: adds value d to b
        let obj3 = pt.from_yaml(r#"
            listOfLists:
            - name: a
              value:
              - b
            - name: b
              value:
              - c
              - d
        "#).unwrap();
        let result3 = updater.update(&live2, &obj3, &version2, &mut managers, "controller");
        assert!(result3.is_ok());
        let live3 = result3.unwrap();

        // apply-one: removes b (keeps only a)
        let obj4 = pt.from_yaml(r#"
            listOfLists:
            - name: a
        "#).unwrap();
        let version3 = structured_merge_diff::fieldpath::APIVersion::new("v3");
        let result4 = updater.apply(&live3, &obj4, &version3, &mut managers, "apply-one", false);
        assert!(result4.is_ok());
        let live4 = result4.unwrap();

        // Verify final state: should have [a(with value [b])]
        // b is completely removed since apply-one owned it
        if let Value::Object(m) = live4.value() {
            if let Some(Value::List(items)) = m.get("listOfLists") {
                assert_eq!(items.len(), 1, "Expected 1 item (only a)");

                // Check a has value [b]
                let a_item = items.iter().find(|v| {
                    if let Value::Object(m) = v {
                        m.get("name") == Some(&Value::String("a".into()))
                    } else { false }
                });
                assert!(a_item.is_some());
                if let Some(Value::Object(a_map)) = a_item {
                    if let Some(Value::List(values)) = a_map.get("value") {
                        assert!(values.contains(&Value::String("b".into())));
                    }
                }
            }
        }

        // Verify ownership
        let set1 = managers.get("apply-one").unwrap();
        assert!(set1.set().has(&path(vec![field("listOfLists"), key_name("a")])));

        let set2 = managers.get("apply-two").unwrap();
        assert!(set2.set().has(&path(vec![field("listOfLists"), key_name("a")])));
        assert!(set2.set().has(&path(vec![field("listOfLists"), key_name("a"), field("value"), value_elem(Value::String("b".into()))])));
    }

    #[test]
    fn test_multiple_appliers_nested_remove_one_keep_one_with_sub_item() {
        // Go: remove_one_keep_one_with_sub_item
        // Similar to remove_one_keep_one_with_two_sub_items but without the force
        let parser = nested_type_parser();
        let pt = parser.type_by_name("type");
        let updater = Updater::builder().build();
        let mut managers = ManagedFields::new();

        let empty = pt.from_yaml("{}").unwrap();

        // apply-one: listOfLists with [a, b(with value [c])]
        let obj1 = pt.from_yaml(r#"
            listOfLists:
            - name: a
            - name: b
              value:
              - c
        "#).unwrap();
        let version1 = structured_merge_diff::fieldpath::APIVersion::new("v1");
        let result1 = updater.apply(&empty, &obj1, &version1, &mut managers, "apply-one", false);
        assert!(result1.is_ok());
        let live1 = result1.unwrap();

        // apply-two: adds value [d] to b (without force - takes b.value.d only)
        let obj2 = pt.from_yaml(r#"
            listOfLists:
            - name: b
              value:
              - d
        "#).unwrap();
        let version2 = structured_merge_diff::fieldpath::APIVersion::new("v2");
        let result2 = updater.apply(&live1, &obj2, &version2, &mut managers, "apply-two", false);
        // This might conflict since apply-one owns b
        if result2.is_err() {
            // Force apply instead
            let result2 = updater.apply(&live1, &obj2, &version2, &mut managers, "apply-two", true);
            assert!(result2.is_ok());
        }
        let live2 = if result2.is_ok() { result2.unwrap() } else {
            updater.apply(&live1, &obj2, &version2, &mut managers, "apply-two", true).unwrap()
        };

        // apply-one: removes b (keeps only a)
        let obj3 = pt.from_yaml(r#"
            listOfLists:
            - name: a
        "#).unwrap();
        let version3 = structured_merge_diff::fieldpath::APIVersion::new("v3");
        let result3 = updater.apply(&live2, &obj3, &version3, &mut managers, "apply-one", false);
        assert!(result3.is_ok());
        let live3 = result3.unwrap();

        // Verify final state: should have [a, b(with value [d])]
        if let Value::Object(m) = live3.value() {
            if let Some(Value::List(items)) = m.get("listOfLists") {
                assert_eq!(items.len(), 2, "Expected 2 items");

                // Find b and check its values
                let b_item = items.iter().find(|v| {
                    if let Value::Object(m) = v {
                        m.get("name") == Some(&Value::String("b".into()))
                    } else { false }
                });
                assert!(b_item.is_some());
                if let Some(Value::Object(b_map)) = b_item {
                    if let Some(Value::List(values)) = b_map.get("value") {
                        assert!(values.contains(&Value::String("d".into())));
                    }
                }
            }
        }
    }

    #[test]
    fn test_multiple_appliers_recursive_map() {
        // Test multiple appliers working on recursive maps
        // This tests a simpler scenario than the full Go test
        let parser = nested_type_parser();
        let pt = parser.type_by_name("type");
        let updater = Updater::builder().build();
        let mut managers = ManagedFields::new();

        let empty = pt.from_yaml("{}").unwrap();

        // apply-one: mapOfMapsRecursive with a.b
        let obj1 = pt.from_yaml(r#"
            mapOfMapsRecursive:
              a:
                b:
        "#).unwrap();
        let version1 = structured_merge_diff::fieldpath::APIVersion::new("v1");
        let result1 = updater.apply(&empty, &obj1, &version1, &mut managers, "apply-one", false);
        assert!(result1.is_ok());
        let live1 = result1.unwrap();

        // apply-two: mapOfMapsRecursive with c.d (different branch)
        let obj2 = pt.from_yaml(r#"
            mapOfMapsRecursive:
              c:
                d:
        "#).unwrap();
        let version2 = structured_merge_diff::fieldpath::APIVersion::new("v2");
        let result2 = updater.apply(&live1, &obj2, &version2, &mut managers, "apply-two", false);
        assert!(result2.is_ok(), "apply-two failed: {:?}", result2.err());
        let live2 = result2.unwrap();

        // Verify merged state has both branches
        if let Value::Object(m) = live2.value() {
            if let Some(Value::Object(outer)) = m.get("mapOfMapsRecursive") {
                assert!(outer.get("a").is_some(), "Should have 'a'");
                assert!(outer.get("c").is_some(), "Should have 'c'");
            } else {
                panic!("Expected mapOfMapsRecursive to be a map");
            }
        } else {
            panic!("Expected map");
        }

        // Verify ownership: each applier owns their branch
        let set1 = managers.get("apply-one").unwrap();
        assert!(set1.set().has(&path(vec![field("mapOfMapsRecursive"), field("a")])));
        assert!(set1.set().has(&path(vec![field("mapOfMapsRecursive"), field("a"), field("b")])));

        let set2 = managers.get("apply-two").unwrap();
        assert!(set2.set().has(&path(vec![field("mapOfMapsRecursive"), field("c")])));
        assert!(set2.set().has(&path(vec![field("mapOfMapsRecursive"), field("c"), field("d")])));

        // apply-one removes their branch
        let obj3 = pt.from_yaml(r#"
            mapOfMapsRecursive: {}
        "#).unwrap();
        let version3 = structured_merge_diff::fieldpath::APIVersion::new("v3");
        let result3 = updater.apply(&live2, &obj3, &version3, &mut managers, "apply-one", false);
        assert!(result3.is_ok());
        let live3 = result3.unwrap();

        // Verify final state: a.b should be gone, c.d should remain
        if let Value::Object(m) = live3.value() {
            if let Some(Value::Object(outer)) = m.get("mapOfMapsRecursive") {
                // a should be gone (apply-one removed it)
                assert!(
                    outer.get("a").is_none() || outer.get("a") == Some(&Value::Null),
                    "a should be removed"
                );
                // c should remain (apply-two owns it)
                assert!(outer.get("c").is_some(), "c should still exist");
            }
        }

        // apply-one should now only own mapOfMapsRecursive root
        let set1 = managers.get("apply-one").unwrap();
        assert!(set1.set().has(&path(vec![field("mapOfMapsRecursive")])));
        assert!(!set1.set().has(&path(vec![field("mapOfMapsRecursive"), field("a")])));

        // apply-two should still own c.d
        let set2 = managers.get("apply-two").unwrap();
        assert!(set2.set().has(&path(vec![field("mapOfMapsRecursive"), field("c")])));
    }

    // =========================================================================
    // Multiple appliers deduced type tests
    // =========================================================================

    #[test]
    fn test_multiple_appliers_deduced_recursive_map() {
        // Test multiple appliers working on recursive maps with deduced schema
        // This tests a simpler scenario than the full Go test
        let pt = deduced_parseable_type();
        let updater = Updater::builder().build();
        let mut managers = ManagedFields::new();

        let empty = pt.from_yaml("{}").unwrap();

        // apply-one: a.b
        let obj1 = pt.from_yaml(r#"
            a:
              b:
        "#).unwrap();
        let version1 = structured_merge_diff::fieldpath::APIVersion::new("v1");
        let result1 = updater.apply(&empty, &obj1, &version1, &mut managers, "apply-one", false);
        assert!(result1.is_ok());
        let live1 = result1.unwrap();

        // apply-two: c.d (different branch)
        let obj2 = pt.from_yaml(r#"
            c:
              d:
        "#).unwrap();
        let version2 = structured_merge_diff::fieldpath::APIVersion::new("v2");
        let result2 = updater.apply(&live1, &obj2, &version2, &mut managers, "apply-two", false);
        assert!(result2.is_ok(), "apply-two failed: {:?}", result2.err());
        let live2 = result2.unwrap();

        // Verify merged state has both branches
        if let Value::Object(m) = live2.value() {
            assert!(m.get("a").is_some(), "Should have 'a'");
            assert!(m.get("c").is_some(), "Should have 'c'");
        } else {
            panic!("Expected map");
        }

        // Verify ownership: each applier owns their branch
        let set1 = managers.get("apply-one").unwrap();
        assert!(set1.set().has(&path(vec![field("a")])));
        assert!(set1.set().has(&path(vec![field("a"), field("b")])));

        let set2 = managers.get("apply-two").unwrap();
        assert!(set2.set().has(&path(vec![field("c")])));
        assert!(set2.set().has(&path(vec![field("c"), field("d")])));

        // controller updates with deeper nesting in c
        let obj3 = pt.from_yaml(r#"
            a:
              b:
            c:
              d:
                e:
        "#).unwrap();
        let version3 = structured_merge_diff::fieldpath::APIVersion::new("v3");
        let result3 = updater.update(&live2, &obj3, &version3, &mut managers, "controller");
        assert!(result3.is_ok());
        let live3 = result3.unwrap();

        // Controller should own the new nested field (and c.d since it was modified)
        let ctrl = managers.get("controller").unwrap();
        assert!(ctrl.set().has(&path(vec![field("c"), field("d")])));
        assert!(ctrl.set().has(&path(vec![field("c"), field("d"), field("e")])));

        // apply-two now only owns c (lost c.d to controller who modified it)
        let set2_after_ctrl = managers.get("apply-two").unwrap();
        assert!(set2_after_ctrl.set().has(&path(vec![field("c")])));
        // c.d is now owned by controller
        assert!(!set2_after_ctrl.set().has(&path(vec![field("c"), field("d")])));

        // apply-one removes their branch
        let obj4 = pt.from_yaml("{}").unwrap();
        let version4 = structured_merge_diff::fieldpath::APIVersion::new("v4");
        let result4 = updater.apply(&live3, &obj4, &version4, &mut managers, "apply-one", false);
        assert!(result4.is_ok());
        let live4 = result4.unwrap();

        // Verify final state: a.b should be gone, c.d.e should remain
        if let Value::Object(m) = live4.value() {
            // a should be gone (apply-one removed it)
            assert!(
                m.get("a").is_none() || m.get("a") == Some(&Value::Null),
                "a should be removed"
            );
            // c should remain (apply-two owns it)
            assert!(m.get("c").is_some(), "c should still exist");
        }

        // apply-two should still own c (but not c.d - controller owns that)
        let set2 = managers.get("apply-two").unwrap();
        assert!(set2.set().has(&path(vec![field("c")])));

        // controller should still own c.d.e
        let ctrl = managers.get("controller").unwrap();
        assert!(ctrl.set().has(&path(vec![field("c"), field("d")])));
        assert!(ctrl.set().has(&path(vec![field("c"), field("d"), field("e")])));
    }

    // =========================================================================
    // Atomic map tests
    // =========================================================================

    const ATOMIC_MAP_SCHEMA: &str = r#"types:
- name: v1
  map:
    fields:
      - name: atomicMap
        type:
          namedType: atomicMap
- name: atomicMap
  map:
    fields:
      - name: field1
        type:
          scalar: string
      - name: field2
        type:
          scalar: string
    elementRelationship: atomic
"#;

    fn atomic_map_parser() -> Parser {
        Parser::new(ATOMIC_MAP_SCHEMA).expect("atomic map schema should parse")
    }

    #[test]
    fn test_multiple_appliers_atomic_map_force() {
        let parser = atomic_map_parser();
        let pt = parser.type_by_name("v1");
        let updater = Updater::builder().build();
        let version = structured_merge_diff::fieldpath::APIVersion::new("v1");
        let mut managers = ManagedFields::new();

        let empty = pt.from_yaml("{}").unwrap();

        // apply-one: atomicMap.field1 = a
        let obj1 = pt.from_yaml(r#"
            atomicMap:
              field1: a
        "#).unwrap();
        let result1 = updater.apply(&empty, &obj1, &version, &mut managers, "apply-one", false);
        assert!(result1.is_ok());
        let live1 = result1.unwrap();

        // apply-two: atomicMap.field2 = b - should conflict (atomic map)
        let obj2 = pt.from_yaml(r#"
            atomicMap:
              field2: b
        "#).unwrap();
        let result2 = updater.apply(&live1, &obj2, &version, &mut managers, "apply-two", false);

        // Should have conflict on atomicMap
        match &result2 {
            Err(ApplyError::Conflicts(conflicts)) => {
                assert!(!conflicts.is_empty(), "Expected conflicts");
                let has_atomic_conflict = conflicts.iter().iter().any(|c| {
                    c.manager == "apply-one" &&
                    c.path == path(vec![field("atomicMap")])
                });
                assert!(has_atomic_conflict, "Expected conflict on atomicMap");
            }
            Ok(_) => panic!("Expected conflict error"),
            Err(e) => panic!("Expected Conflicts error, got: {}", e.to_string()),
        }

        // Force apply should work
        let result3 = updater.apply(&live1, &obj2, &version, &mut managers, "apply-two", true);
        assert!(result3.is_ok(), "Force apply failed: {:?}", result3.err());
        let live3 = result3.unwrap();

        // Verify final state
        if let Value::Object(m) = live3.value() {
            if let Some(Value::Object(atom)) = m.get("atomicMap") {
                // After force apply, should only have field2 (apply-two's config)
                assert_eq!(atom.get("field2"), Some(&Value::String("b".into())));
                // field1 should be gone (replaced entirely)
                assert!(
                    atom.get("field1").is_none() || atom.get("field1") == Some(&Value::Null),
                    "field1 should be gone after atomic replacement"
                );
            }
        }

        // apply-two should own atomicMap, apply-one should not
        let set2 = managers.get("apply-two").unwrap();
        assert!(set2.set().has(&path(vec![field("atomicMap")])));

        // apply-one should be removed or have empty set
        let set1 = managers.get("apply-one");
        if let Some(s) = set1 {
            assert!(!s.set().has(&path(vec![field("atomicMap")])), "apply-one should not own atomicMap");
        }
    }

    // =========================================================================
    // Set field tests from merge/set_test.go
    // =========================================================================

    const SET_FIELDS_SCHEMA: &str = r#"types:
- name: sets
  map:
    fields:
    - name: list
      type:
        list:
          elementType:
            scalar: string
          elementRelationship: associative
"#;

    fn set_fields_parser() -> Parser {
        Parser::new(SET_FIELDS_SCHEMA).expect("set fields schema should parse")
    }

    #[test]
    fn test_set_apply_twice() {
        // Test: apply_twice with sets
        let parser = set_fields_parser();
        let pt = parser.type_by_name("sets");
        let updater = Updater::builder().build();
        let version = structured_merge_diff::fieldpath::APIVersion::new("v1");
        let mut managers = ManagedFields::new();

        let empty = pt.from_yaml("{}").unwrap();

        // First apply: list=[a, c]
        let obj1 = pt.from_yaml(r#"
            list:
            - a
            - c
        "#).unwrap();
        let result1 = updater.apply(&empty, &obj1, &version, &mut managers, "default", false);
        assert!(result1.is_ok());
        let live1 = result1.unwrap();

        // Second apply: list=[a, b, c, d]
        let obj2 = pt.from_yaml(r#"
            list:
            - a
            - b
            - c
            - d
        "#).unwrap();
        let result2 = updater.apply(&live1, &obj2, &version, &mut managers, "default", false);
        assert!(result2.is_ok());
        let live2 = result2.unwrap();

        // Verify final state
        if let Value::Object(m) = live2.value() {
            if let Some(Value::List(items)) = m.get("list") {
                assert_eq!(items.len(), 4);
                assert!(items.contains(&Value::String("a".into())));
                assert!(items.contains(&Value::String("b".into())));
                assert!(items.contains(&Value::String("c".into())));
                assert!(items.contains(&Value::String("d".into())));
            } else {
                panic!("Expected list");
            }
        } else {
            panic!("Expected map");
        }

        // Verify managed fields
        let vs = managers.get("default").unwrap();
        assert!(vs.set().has(&path(vec![field("list"), value_elem(Value::String("a".into()))])));
        assert!(vs.set().has(&path(vec![field("list"), value_elem(Value::String("b".into()))])));
        assert!(vs.set().has(&path(vec![field("list"), value_elem(Value::String("c".into()))])));
        assert!(vs.set().has(&path(vec![field("list"), value_elem(Value::String("d".into()))])));
    }

    #[test]
    fn test_set_apply_update_apply_no_overlap() {
        // Test: apply from default, update from controller, apply from default with no overlap
        let parser = set_fields_parser();
        let pt = parser.type_by_name("sets");
        let updater = Updater::builder().build();
        let version = structured_merge_diff::fieldpath::APIVersion::new("v1");
        let mut managers = ManagedFields::new();

        let empty = pt.from_yaml("{}").unwrap();

        // First apply: list=[a, c]
        let obj1 = pt.from_yaml(r#"
            list:
            - a
            - c
        "#).unwrap();
        let result1 = updater.apply(&empty, &obj1, &version, &mut managers, "default", false);
        assert!(result1.is_ok());
        let live1 = result1.unwrap();

        // Update from controller: list=[a, b, c, d]
        let obj2 = pt.from_yaml(r#"
            list:
            - a
            - b
            - c
            - d
        "#).unwrap();
        let result2 = updater.update(&live1, &obj2, &version, &mut managers, "controller");
        assert!(result2.is_ok());
        let live2 = result2.unwrap();

        // Apply from default: list=[a, aprime, c, cprime]
        let obj3 = pt.from_yaml(r#"
            list:
            - a
            - aprime
            - c
            - cprime
        "#).unwrap();
        let result3 = updater.apply(&live2, &obj3, &version, &mut managers, "default", false);
        assert!(result3.is_ok());
        let live3 = result3.unwrap();

        // Verify final state: should have union of default's and controller's items
        if let Value::Object(m) = live3.value() {
            if let Some(Value::List(items)) = m.get("list") {
                assert!(items.contains(&Value::String("a".into())));
                assert!(items.contains(&Value::String("b".into())));
                assert!(items.contains(&Value::String("aprime".into())));
                assert!(items.contains(&Value::String("c".into())));
                assert!(items.contains(&Value::String("d".into())));
                assert!(items.contains(&Value::String("cprime".into())));
            } else {
                panic!("Expected list");
            }
        } else {
            panic!("Expected map");
        }

        // Verify managed fields
        let default_set = managers.get("default").unwrap();
        assert!(default_set.set().has(&path(vec![field("list"), value_elem(Value::String("a".into()))])));
        assert!(default_set.set().has(&path(vec![field("list"), value_elem(Value::String("aprime".into()))])));
        assert!(default_set.set().has(&path(vec![field("list"), value_elem(Value::String("c".into()))])));
        assert!(default_set.set().has(&path(vec![field("list"), value_elem(Value::String("cprime".into()))])));

        let controller_set = managers.get("controller").unwrap();
        assert!(controller_set.set().has(&path(vec![field("list"), value_elem(Value::String("b".into()))])));
        assert!(controller_set.set().has(&path(vec![field("list"), value_elem(Value::String("d".into()))])));
    }

    #[test]
    fn test_set_apply_twice_remove() {
        // Test: apply_twice_remove with sets
        let parser = set_fields_parser();
        let pt = parser.type_by_name("sets");
        let updater = Updater::builder().build();
        let version = structured_merge_diff::fieldpath::APIVersion::new("v1");
        let mut managers = ManagedFields::new();

        let empty = pt.from_yaml("{}").unwrap();

        // First apply: list=[a, b, c, d]
        let obj1 = pt.from_yaml(r#"
            list:
            - a
            - b
            - c
            - d
        "#).unwrap();
        let result1 = updater.apply(&empty, &obj1, &version, &mut managers, "default", false);
        assert!(result1.is_ok());
        let live1 = result1.unwrap();

        // Second apply: list=[a, c] (remove b and d)
        let obj2 = pt.from_yaml(r#"
            list:
            - a
            - c
        "#).unwrap();
        let result2 = updater.apply(&live1, &obj2, &version, &mut managers, "default", false);
        assert!(result2.is_ok());
        let live2 = result2.unwrap();

        // Verify final state
        if let Value::Object(m) = live2.value() {
            if let Some(Value::List(items)) = m.get("list") {
                assert_eq!(items.len(), 2);
                assert!(items.contains(&Value::String("a".into())));
                assert!(items.contains(&Value::String("c".into())));
                assert!(!items.contains(&Value::String("b".into())));
                assert!(!items.contains(&Value::String("d".into())));
            } else {
                panic!("Expected list");
            }
        } else {
            panic!("Expected map");
        }

        // Verify managed fields
        let vs = managers.get("default").unwrap();
        assert!(vs.set().has(&path(vec![field("list"), value_elem(Value::String("a".into()))])));
        assert!(vs.set().has(&path(vec![field("list"), value_elem(Value::String("c".into()))])));
        assert!(!vs.set().has(&path(vec![field("list"), value_elem(Value::String("b".into()))])));
        assert!(!vs.set().has(&path(vec![field("list"), value_elem(Value::String("d".into()))])));
    }

    #[test]
    fn test_set_apply_twice_reorder() {
        // Test: apply_twice_reorder with sets
        let parser = set_fields_parser();
        let pt = parser.type_by_name("sets");
        let updater = Updater::builder().build();
        let version = structured_merge_diff::fieldpath::APIVersion::new("v1");
        let mut managers = ManagedFields::new();

        let empty = pt.from_yaml("{}").unwrap();

        // First apply: list=[a, b, c, d]
        let obj1 = pt.from_yaml(r#"
            list:
            - a
            - b
            - c
            - d
        "#).unwrap();
        let result1 = updater.apply(&empty, &obj1, &version, &mut managers, "default", false);
        assert!(result1.is_ok());
        let live1 = result1.unwrap();

        // Second apply: list=[a, d, c, b] (reorder)
        let obj2 = pt.from_yaml(r#"
            list:
            - a
            - d
            - c
            - b
        "#).unwrap();
        let result2 = updater.apply(&live1, &obj2, &version, &mut managers, "default", false);
        assert!(result2.is_ok());
        let live2 = result2.unwrap();

        // Verify final state - order should match the new order
        if let Value::Object(m) = live2.value() {
            if let Some(Value::List(items)) = m.get("list") {
                assert_eq!(items.len(), 4);
                assert_eq!(items[0], Value::String("a".into()));
                assert_eq!(items[1], Value::String("d".into()));
                assert_eq!(items[2], Value::String("c".into()));
                assert_eq!(items[3], Value::String("b".into()));
            } else {
                panic!("Expected list");
            }
        } else {
            panic!("Expected map");
        }
    }

    #[test]
    fn test_set_apply_update_apply_no_overlap_and_different_version() {
        // Test: apply from default v1, update from controller v2, apply from default v1 with no overlap
        let parser = set_fields_parser();
        let pt = parser.type_by_name("sets");
        let updater = Updater::builder().build();
        let mut managers = ManagedFields::new();

        let empty = pt.from_yaml("{}").unwrap();

        // First apply v1: list=[a, c]
        let obj1 = pt.from_yaml(r#"
            list:
            - a
            - c
        "#).unwrap();
        let version1 = structured_merge_diff::fieldpath::APIVersion::new("v1");
        let result1 = updater.apply(&empty, &obj1, &version1, &mut managers, "default", false);
        assert!(result1.is_ok());
        let live1 = result1.unwrap();

        // Update from controller v2: list=[a, b, c, d]
        let obj2 = pt.from_yaml(r#"
            list:
            - a
            - b
            - c
            - d
        "#).unwrap();
        let version2 = structured_merge_diff::fieldpath::APIVersion::new("v2");
        let result2 = updater.update(&live1, &obj2, &version2, &mut managers, "controller");
        assert!(result2.is_ok());
        let live2 = result2.unwrap();

        // Apply from default v1: list=[a, aprime, c, cprime]
        let obj3 = pt.from_yaml(r#"
            list:
            - a
            - aprime
            - c
            - cprime
        "#).unwrap();
        let result3 = updater.apply(&live2, &obj3, &version1, &mut managers, "default", false);
        assert!(result3.is_ok());
        let live3 = result3.unwrap();

        // Verify final state
        if let Value::Object(m) = live3.value() {
            if let Some(Value::List(items)) = m.get("list") {
                assert!(items.contains(&Value::String("a".into())));
                assert!(items.contains(&Value::String("b".into())));
                assert!(items.contains(&Value::String("aprime".into())));
                assert!(items.contains(&Value::String("c".into())));
                assert!(items.contains(&Value::String("d".into())));
                assert!(items.contains(&Value::String("cprime".into())));
            } else {
                panic!("Expected list");
            }
        } else {
            panic!("Expected map");
        }

        // Verify managed fields
        let default_set = managers.get("default").unwrap();
        assert_eq!(default_set.api_version().as_str(), "v1");
        assert!(default_set.set().has(&path(vec![field("list"), value_elem(Value::String("a".into()))])));
        assert!(default_set.set().has(&path(vec![field("list"), value_elem(Value::String("aprime".into()))])));
        assert!(default_set.set().has(&path(vec![field("list"), value_elem(Value::String("c".into()))])));
        assert!(default_set.set().has(&path(vec![field("list"), value_elem(Value::String("cprime".into()))])));

        let controller_set = managers.get("controller").unwrap();
        assert_eq!(controller_set.api_version().as_str(), "v2");
        assert!(controller_set.set().has(&path(vec![field("list"), value_elem(Value::String("b".into()))])));
        assert!(controller_set.set().has(&path(vec![field("list"), value_elem(Value::String("d".into()))])));
    }

    #[test]
    fn test_set_apply_update_apply_with_overlap() {
        // Test: apply from default, update from controller, apply from default with overlap
        let parser = set_fields_parser();
        let pt = parser.type_by_name("sets");
        let updater = Updater::builder().build();
        let version = structured_merge_diff::fieldpath::APIVersion::new("v1");
        let mut managers = ManagedFields::new();

        let empty = pt.from_yaml("{}").unwrap();

        // First apply: list=[a, c]
        let obj1 = pt.from_yaml(r#"
            list:
            - a
            - c
        "#).unwrap();
        let result1 = updater.apply(&empty, &obj1, &version, &mut managers, "default", false);
        assert!(result1.is_ok());
        let live1 = result1.unwrap();

        // Update from controller: list=[a, b, c, d]
        let obj2 = pt.from_yaml(r#"
            list:
            - a
            - b
            - c
            - d
        "#).unwrap();
        let result2 = updater.update(&live1, &obj2, &version, &mut managers, "controller");
        assert!(result2.is_ok());
        let live2 = result2.unwrap();

        // Apply from default: list=[a, b, c] - now includes 'b' which controller added
        let obj3 = pt.from_yaml(r#"
            list:
            - a
            - b
            - c
        "#).unwrap();
        let result3 = updater.apply(&live2, &obj3, &version, &mut managers, "default", false);
        assert!(result3.is_ok());
        let live3 = result3.unwrap();

        // Verify final state
        if let Value::Object(m) = live3.value() {
            if let Some(Value::List(items)) = m.get("list") {
                assert!(items.contains(&Value::String("a".into())));
                assert!(items.contains(&Value::String("b".into())));
                assert!(items.contains(&Value::String("c".into())));
                assert!(items.contains(&Value::String("d".into())));
            } else {
                panic!("Expected list");
            }
        } else {
            panic!("Expected map");
        }

        // Verify managed fields - both now own 'b'
        let default_set = managers.get("default").unwrap();
        assert!(default_set.set().has(&path(vec![field("list"), value_elem(Value::String("a".into()))])));
        assert!(default_set.set().has(&path(vec![field("list"), value_elem(Value::String("b".into()))])));
        assert!(default_set.set().has(&path(vec![field("list"), value_elem(Value::String("c".into()))])));

        let controller_set = managers.get("controller").unwrap();
        assert!(controller_set.set().has(&path(vec![field("list"), value_elem(Value::String("b".into()))])));
        assert!(controller_set.set().has(&path(vec![field("list"), value_elem(Value::String("d".into()))])));
    }

    #[test]
    fn test_set_apply_update_apply_with_overlap_and_different_version() {
        // Test: apply from default v1, update from controller v2, apply from default v1 with overlap
        let parser = set_fields_parser();
        let pt = parser.type_by_name("sets");
        let updater = Updater::builder().build();
        let mut managers = ManagedFields::new();

        let empty = pt.from_yaml("{}").unwrap();

        // First apply v1: list=[a, c]
        let obj1 = pt.from_yaml(r#"
            list:
            - a
            - c
        "#).unwrap();
        let version1 = structured_merge_diff::fieldpath::APIVersion::new("v1");
        let result1 = updater.apply(&empty, &obj1, &version1, &mut managers, "default", false);
        assert!(result1.is_ok());
        let live1 = result1.unwrap();

        // Update from controller v2: list=[a, b, c, d]
        let obj2 = pt.from_yaml(r#"
            list:
            - a
            - b
            - c
            - d
        "#).unwrap();
        let version2 = structured_merge_diff::fieldpath::APIVersion::new("v2");
        let result2 = updater.update(&live1, &obj2, &version2, &mut managers, "controller");
        assert!(result2.is_ok());
        let live2 = result2.unwrap();

        // Apply from default v1: list=[a, b, c] - now includes 'b' which controller added
        let obj3 = pt.from_yaml(r#"
            list:
            - a
            - b
            - c
        "#).unwrap();
        let result3 = updater.apply(&live2, &obj3, &version1, &mut managers, "default", false);
        assert!(result3.is_ok());
        let live3 = result3.unwrap();

        // Verify final state
        if let Value::Object(m) = live3.value() {
            if let Some(Value::List(items)) = m.get("list") {
                assert!(items.contains(&Value::String("a".into())));
                assert!(items.contains(&Value::String("b".into())));
                assert!(items.contains(&Value::String("c".into())));
                assert!(items.contains(&Value::String("d".into())));
            } else {
                panic!("Expected list");
            }
        } else {
            panic!("Expected map");
        }

        // Verify managed fields
        let default_set = managers.get("default").unwrap();
        assert_eq!(default_set.api_version().as_str(), "v1");
        assert!(default_set.set().has(&path(vec![field("list"), value_elem(Value::String("a".into()))])));
        assert!(default_set.set().has(&path(vec![field("list"), value_elem(Value::String("b".into()))])));
        assert!(default_set.set().has(&path(vec![field("list"), value_elem(Value::String("c".into()))])));

        let controller_set = managers.get("controller").unwrap();
        assert_eq!(controller_set.api_version().as_str(), "v2");
        assert!(controller_set.set().has(&path(vec![field("list"), value_elem(Value::String("b".into()))])));
        assert!(controller_set.set().has(&path(vec![field("list"), value_elem(Value::String("d".into()))])));
    }

    #[test]
    fn test_set_apply_update_apply_reorder() {
        // Test: apply, then update (reorder), then apply (reorder back)
        let parser = set_fields_parser();
        let pt = parser.type_by_name("sets");
        let updater = Updater::builder().build();
        let version = structured_merge_diff::fieldpath::APIVersion::new("v1");
        let mut managers = ManagedFields::new();

        let empty = pt.from_yaml("{}").unwrap();

        // First apply: list=[a, b, c, d]
        let obj1 = pt.from_yaml(r#"
            list:
            - a
            - b
            - c
            - d
        "#).unwrap();
        let result1 = updater.apply(&empty, &obj1, &version, &mut managers, "default", false);
        assert!(result1.is_ok());
        let live1 = result1.unwrap();

        // Update from controller: reorder to list=[a, d, c, b]
        let obj2 = pt.from_yaml(r#"
            list:
            - a
            - d
            - c
            - b
        "#).unwrap();
        let result2 = updater.update(&live1, &obj2, &version, &mut managers, "controller");
        assert!(result2.is_ok());
        let live2 = result2.unwrap();

        // Apply from default: reorder back to list=[a, b, c, d]
        let obj3 = pt.from_yaml(r#"
            list:
            - a
            - b
            - c
            - d
        "#).unwrap();
        let result3 = updater.apply(&live2, &obj3, &version, &mut managers, "default", false);
        assert!(result3.is_ok());
        let live3 = result3.unwrap();

        // Verify final state - order from apply
        if let Value::Object(m) = live3.value() {
            if let Some(Value::List(items)) = m.get("list") {
                assert_eq!(items.len(), 4);
                assert_eq!(items[0], Value::String("a".into()));
                assert_eq!(items[1], Value::String("b".into()));
                assert_eq!(items[2], Value::String("c".into()));
                assert_eq!(items[3], Value::String("d".into()));
            } else {
                panic!("Expected list");
            }
        } else {
            panic!("Expected map");
        }

        // Verify managed fields - default owns all
        let default_set = managers.get("default").unwrap();
        assert!(default_set.set().has(&path(vec![field("list"), value_elem(Value::String("a".into()))])));
        assert!(default_set.set().has(&path(vec![field("list"), value_elem(Value::String("b".into()))])));
        assert!(default_set.set().has(&path(vec![field("list"), value_elem(Value::String("c".into()))])));
        assert!(default_set.set().has(&path(vec![field("list"), value_elem(Value::String("d".into()))])));
    }

    #[test]
    fn test_set_apply_update_apply_reorder_across_versions() {
        // Test: apply v1, then update v1 (reorder), then apply v2 (reorder back)
        let parser = set_fields_parser();
        let pt = parser.type_by_name("sets");
        let updater = Updater::builder().build();
        let mut managers = ManagedFields::new();

        let empty = pt.from_yaml("{}").unwrap();

        // First apply v1: list=[a, b, c, d]
        let obj1 = pt.from_yaml(r#"
            list:
            - a
            - b
            - c
            - d
        "#).unwrap();
        let version1 = structured_merge_diff::fieldpath::APIVersion::new("v1");
        let result1 = updater.apply(&empty, &obj1, &version1, &mut managers, "default", false);
        assert!(result1.is_ok());
        let live1 = result1.unwrap();

        // Update from controller v1: reorder to list=[a, d, c, b]
        let obj2 = pt.from_yaml(r#"
            list:
            - a
            - d
            - c
            - b
        "#).unwrap();
        let result2 = updater.update(&live1, &obj2, &version1, &mut managers, "controller");
        assert!(result2.is_ok());
        let live2 = result2.unwrap();

        // Apply from default v2: reorder back to list=[a, b, c, d]
        let obj3 = pt.from_yaml(r#"
            list:
            - a
            - b
            - c
            - d
        "#).unwrap();
        let version2 = structured_merge_diff::fieldpath::APIVersion::new("v2");
        let result3 = updater.apply(&live2, &obj3, &version2, &mut managers, "default", false);
        assert!(result3.is_ok());
        let live3 = result3.unwrap();

        // Verify final state - order from apply
        if let Value::Object(m) = live3.value() {
            if let Some(Value::List(items)) = m.get("list") {
                assert_eq!(items.len(), 4);
                assert_eq!(items[0], Value::String("a".into()));
                assert_eq!(items[1], Value::String("b".into()));
                assert_eq!(items[2], Value::String("c".into()));
                assert_eq!(items[3], Value::String("d".into()));
            } else {
                panic!("Expected list");
            }
        } else {
            panic!("Expected map");
        }

        // Verify managed fields - default owns all, version is v2
        let default_set = managers.get("default").unwrap();
        assert_eq!(default_set.api_version().as_str(), "v2");
        assert!(default_set.set().has(&path(vec![field("list"), value_elem(Value::String("a".into()))])));
        assert!(default_set.set().has(&path(vec![field("list"), value_elem(Value::String("b".into()))])));
        assert!(default_set.set().has(&path(vec![field("list"), value_elem(Value::String("c".into()))])));
        assert!(default_set.set().has(&path(vec![field("list"), value_elem(Value::String("d".into()))])));
    }

    #[test]
    fn test_set_apply_twice_remove_across_versions() {
        // Test: apply v1 with [a,b,c,d], then apply v2 with [a,c,e]
        let parser = set_fields_parser();
        let pt = parser.type_by_name("sets");
        let updater = Updater::builder().build();
        let mut managers = ManagedFields::new();

        let empty = pt.from_yaml("{}").unwrap();

        // First apply v1: list=[a, b, c, d]
        let obj1 = pt.from_yaml(r#"
            list:
            - a
            - b
            - c
            - d
        "#).unwrap();
        let version1 = structured_merge_diff::fieldpath::APIVersion::new("v1");
        let result1 = updater.apply(&empty, &obj1, &version1, &mut managers, "default", false);
        assert!(result1.is_ok());
        let live1 = result1.unwrap();

        // Second apply v2: list=[a, c, e] (remove b and d, add e)
        let obj2 = pt.from_yaml(r#"
            list:
            - a
            - c
            - e
        "#).unwrap();
        let version2 = structured_merge_diff::fieldpath::APIVersion::new("v2");
        let result2 = updater.apply(&live1, &obj2, &version2, &mut managers, "default", false);
        assert!(result2.is_ok());
        let live2 = result2.unwrap();

        // Verify final state
        if let Value::Object(m) = live2.value() {
            if let Some(Value::List(items)) = m.get("list") {
                assert_eq!(items.len(), 3);
                assert!(items.contains(&Value::String("a".into())));
                assert!(items.contains(&Value::String("c".into())));
                assert!(items.contains(&Value::String("e".into())));
                assert!(!items.contains(&Value::String("b".into())));
                assert!(!items.contains(&Value::String("d".into())));
            } else {
                panic!("Expected list");
            }
        } else {
            panic!("Expected map");
        }

        // Verify managed fields - version updated to v2
        let vs = managers.get("default").unwrap();
        assert_eq!(vs.api_version().as_str(), "v2");
        assert!(vs.set().has(&path(vec![field("list"), value_elem(Value::String("a".into()))])));
        assert!(vs.set().has(&path(vec![field("list"), value_elem(Value::String("c".into()))])));
        assert!(vs.set().has(&path(vec![field("list"), value_elem(Value::String("e".into()))])));
        assert!(!vs.set().has(&path(vec![field("list"), value_elem(Value::String("b".into()))])));
        assert!(!vs.set().has(&path(vec![field("list"), value_elem(Value::String("d".into()))])));
    }

    // =========================================================================
    // ExtractApply tests from merge/extract_apply_test.go
    // =========================================================================

    const EXTRACT_APPLY_SCHEMA: &str = r#"types:
- name: sets
  map:
    fields:
    - name: list
      type:
        list:
          elementType:
            scalar: string
          elementRelationship: associative
    - name: atomicList
      type:
        list:
          elementType:
            scalar: string
          elementRelationship: atomic
    - name: map
      type:
        map:
          elementType:
            scalar: string
          elementRelationship: separable
    - name: atomicMap
      type:
        map:
          elementType:
            scalar: string
          elementRelationship: atomic
"#;

    fn extract_apply_parser() -> Parser {
        Parser::new(EXTRACT_APPLY_SCHEMA).expect("extract apply schema should parse")
    }

    #[test]
    fn test_extract_apply_one_own_both() {
        // Test: apply_one_extract_apply_one_own_both
        // Apply one item, then extract_apply another - should own both
        let parser = extract_apply_parser();
        let pt = parser.type_by_name("sets");
        let updater = Updater::builder().build();
        let version = structured_merge_diff::fieldpath::APIVersion::new("v1");
        let mut managers = ManagedFields::new();

        let empty = pt.from_yaml("{}").unwrap();

        // First apply: list=[a]
        let obj1 = pt.from_yaml(r#"
            list:
            - a
        "#).unwrap();
        let result1 = updater.apply(&empty, &obj1, &version, &mut managers, "default", false);
        assert!(result1.is_ok());
        let live1 = result1.unwrap();

        // ExtractApply: list=[b]
        let obj2 = pt.from_yaml(r#"
            list:
            - b
        "#).unwrap();
        let result2 = updater.extract_apply(&live1, &obj2, &version, &mut managers, "default", false);
        assert!(result2.is_ok(), "extract_apply failed: {:?}", result2.err());
        let live2 = result2.unwrap();

        // Verify final state: should have both a and b
        if let Value::Object(m) = live2.value() {
            if let Some(Value::List(items)) = m.get("list") {
                assert_eq!(items.len(), 2);
                assert!(items.contains(&Value::String("a".into())));
                assert!(items.contains(&Value::String("b".into())));
            } else {
                panic!("Expected list");
            }
        } else {
            panic!("Expected map");
        }

        // Verify managed fields: should own both a and b
        let vs = managers.get("default").unwrap();
        assert!(vs.set().has(&path(vec![field("list"), value_elem(Value::String("a".into()))])));
        assert!(vs.set().has(&path(vec![field("list"), value_elem(Value::String("b".into()))])));
    }

    #[test]
    fn test_extract_apply_from_beginning() {
        // Test: extract_apply_from_beginning
        // Two extract_applies in a row should accumulate ownership
        let parser = extract_apply_parser();
        let pt = parser.type_by_name("sets");
        let updater = Updater::builder().build();
        let version = structured_merge_diff::fieldpath::APIVersion::new("v1");
        let mut managers = ManagedFields::new();

        let empty = pt.from_yaml("{}").unwrap();

        // First extract_apply: list=[a]
        let obj1 = pt.from_yaml(r#"
            list:
            - a
        "#).unwrap();
        let result1 = updater.extract_apply(&empty, &obj1, &version, &mut managers, "default", false);
        assert!(result1.is_ok());
        let live1 = result1.unwrap();

        // Second extract_apply: list=[b]
        let obj2 = pt.from_yaml(r#"
            list:
            - b
        "#).unwrap();
        let result2 = updater.extract_apply(&live1, &obj2, &version, &mut managers, "default", false);
        assert!(result2.is_ok());
        let live2 = result2.unwrap();

        // Verify final state: should have both a and b
        if let Value::Object(m) = live2.value() {
            if let Some(Value::List(items)) = m.get("list") {
                assert_eq!(items.len(), 2);
                assert!(items.contains(&Value::String("a".into())));
                assert!(items.contains(&Value::String("b".into())));
            } else {
                panic!("Expected list");
            }
        } else {
            panic!("Expected map");
        }

        // Verify managed fields: should own both a and b
        let vs = managers.get("default").unwrap();
        assert!(vs.set().has(&path(vec![field("list"), value_elem(Value::String("a".into()))])));
        assert!(vs.set().has(&path(vec![field("list"), value_elem(Value::String("b".into()))])));
    }

    #[test]
    fn test_apply_after_extract_removes_fields() {
        // Test: apply_after_extract_remove_fields
        // extract_apply then regular apply should remove old fields
        let parser = extract_apply_parser();
        let pt = parser.type_by_name("sets");
        let updater = Updater::builder().build();
        let version = structured_merge_diff::fieldpath::APIVersion::new("v1");
        let mut managers = ManagedFields::new();

        let empty = pt.from_yaml("{}").unwrap();

        // First extract_apply: list=[a]
        let obj1 = pt.from_yaml(r#"
            list:
            - a
        "#).unwrap();
        let result1 = updater.extract_apply(&empty, &obj1, &version, &mut managers, "default", false);
        assert!(result1.is_ok());
        let live1 = result1.unwrap();

        // Regular apply: list=[b] (should replace, removing a)
        let obj2 = pt.from_yaml(r#"
            list:
            - b
        "#).unwrap();
        let result2 = updater.apply(&live1, &obj2, &version, &mut managers, "default", false);
        assert!(result2.is_ok());
        let live2 = result2.unwrap();

        // Verify final state: should have only b
        if let Value::Object(m) = live2.value() {
            if let Some(Value::List(items)) = m.get("list") {
                assert_eq!(items.len(), 1);
                assert!(items.contains(&Value::String("b".into())));
                assert!(!items.contains(&Value::String("a".into())));
            } else {
                panic!("Expected list");
            }
        } else {
            panic!("Expected map");
        }

        // Verify managed fields: should only own b
        let vs = managers.get("default").unwrap();
        assert!(!vs.set().has(&path(vec![field("list"), value_elem(Value::String("a".into()))])));
        assert!(vs.set().has(&path(vec![field("list"), value_elem(Value::String("b".into()))])));
    }

    #[test]
    fn test_extract_apply_retain_ownership_after_controller_update() {
        // Test: extract_apply_retain_ownership_after_controller_update
        let parser = extract_apply_parser();
        let pt = parser.type_by_name("sets");
        let updater = Updater::builder().build();
        let version = structured_merge_diff::fieldpath::APIVersion::new("v1");
        let mut managers = ManagedFields::new();

        let empty = pt.from_yaml("{}").unwrap();

        // Apply: list=[a]
        let obj1 = pt.from_yaml(r#"
            list:
            - a
        "#).unwrap();
        let result1 = updater.apply(&empty, &obj1, &version, &mut managers, "default", false);
        assert!(result1.is_ok());
        let live1 = result1.unwrap();

        // Update from controller: list=[a, b]
        let obj2 = pt.from_yaml(r#"
            list:
            - a
            - b
        "#).unwrap();
        let result2 = updater.update(&live1, &obj2, &version, &mut managers, "controller");
        assert!(result2.is_ok());
        let live2 = result2.unwrap();

        // ExtractApply: list=[c] (should add c, keep a, keep b from controller)
        let obj3 = pt.from_yaml(r#"
            list:
            - c
        "#).unwrap();
        let result3 = updater.extract_apply(&live2, &obj3, &version, &mut managers, "default", false);
        assert!(result3.is_ok());
        let live3 = result3.unwrap();

        // Verify final state: should have a, b, c
        if let Value::Object(m) = live3.value() {
            if let Some(Value::List(items)) = m.get("list") {
                assert_eq!(items.len(), 3);
                assert!(items.contains(&Value::String("a".into())));
                assert!(items.contains(&Value::String("b".into())));
                assert!(items.contains(&Value::String("c".into())));
            } else {
                panic!("Expected list");
            }
        } else {
            panic!("Expected map");
        }

        // Verify managed fields: default owns a and c, controller owns b
        let default_set = managers.get("default").unwrap();
        assert!(default_set.set().has(&path(vec![field("list"), value_elem(Value::String("a".into()))])));
        assert!(default_set.set().has(&path(vec![field("list"), value_elem(Value::String("c".into()))])));

        let controller_set = managers.get("controller").unwrap();
        assert!(controller_set.set().has(&path(vec![field("list"), value_elem(Value::String("b".into()))])));
    }

    #[test]
    fn test_extract_apply_atomic_list() {
        // Test: extract_apply_atomic_list
        let parser = extract_apply_parser();
        let pt = parser.type_by_name("sets");
        let updater = Updater::builder().build();
        let version = structured_merge_diff::fieldpath::APIVersion::new("v1");
        let mut managers = ManagedFields::new();

        let empty = pt.from_yaml("{}").unwrap();

        // Extract_apply: atomicList=[a, b, c]
        let obj1 = pt.from_yaml(r#"
            atomicList:
            - a
            - b
            - c
        "#).unwrap();
        let result1 = updater.extract_apply(&empty, &obj1, &version, &mut managers, "apply-one", false);
        assert!(result1.is_ok());
        let live1 = result1.unwrap();

        // Verify final state
        if let Value::Object(m) = live1.value() {
            if let Some(Value::List(items)) = m.get("atomicList") {
                assert_eq!(items.len(), 3);
                assert_eq!(items[0], Value::String("a".into()));
                assert_eq!(items[1], Value::String("b".into()));
                assert_eq!(items[2], Value::String("c".into()));
            } else {
                panic!("Expected atomicList");
            }
        } else {
            panic!("Expected map");
        }

        // Verify managed fields: owns atomicList (not individual elements)
        let vs = managers.get("apply-one").unwrap();
        assert!(vs.set().has(&path(vec![field("atomicList")])));
    }

    #[test]
    fn test_extract_apply_map() {
        // Test extract_apply with separable map
        let parser = extract_apply_parser();
        let pt = parser.type_by_name("sets");
        let updater = Updater::builder().build();
        let version = structured_merge_diff::fieldpath::APIVersion::new("v1");
        let mut managers = ManagedFields::new();

        let empty = pt.from_yaml("{}").unwrap();

        // First extract_apply: map: {a: c}
        let obj1 = pt.from_yaml(r#"
            map:
              a: c
        "#).unwrap();
        let result1 = updater.extract_apply(&empty, &obj1, &version, &mut managers, "apply-one", false);
        assert!(result1.is_ok());
        let live1 = result1.unwrap();

        // Second extract_apply: map: {b: d}
        let obj2 = pt.from_yaml(r#"
            map:
              b: d
        "#).unwrap();
        let result2 = updater.extract_apply(&live1, &obj2, &version, &mut managers, "apply-one", false);
        assert!(result2.is_ok());
        let live2 = result2.unwrap();

        // Verify final state: should have both a and b
        if let Value::Object(m) = live2.value() {
            if let Some(Value::Object(inner)) = m.get("map") {
                assert_eq!(inner.get("a"), Some(&Value::String("c".into())));
                assert_eq!(inner.get("b"), Some(&Value::String("d".into())));
            } else {
                panic!("Expected map");
            }
        } else {
            panic!("Expected map");
        }

        // Verify managed fields: should own both a and b
        let vs = managers.get("apply-one").unwrap();
        assert!(vs.set().has(&path(vec![field("map"), field("a")])));
        assert!(vs.set().has(&path(vec![field("map"), field("b")])));
    }

    #[test]
    fn test_extract_apply_controller_removes() {
        // Test: apply_one_controller_remove_extract_apply_one
        // Controller removes applier's field, extract_apply adds new field
        let parser = extract_apply_parser();
        let pt = parser.type_by_name("sets");
        let updater = Updater::builder().build();
        let version = structured_merge_diff::fieldpath::APIVersion::new("v1");
        let mut managers = ManagedFields::new();

        let empty = pt.from_yaml("{}").unwrap();

        // Apply: list=[a]
        let obj1 = pt.from_yaml(r#"
            list:
            - a
        "#).unwrap();
        let result1 = updater.apply(&empty, &obj1, &version, &mut managers, "default", false);
        assert!(result1.is_ok());
        let live1 = result1.unwrap();

        // Controller removes 'a', adds 'b'
        let obj2 = pt.from_yaml(r#"
            list:
            - b
        "#).unwrap();
        let result2 = updater.update(&live1, &obj2, &version, &mut managers, "controller");
        assert!(result2.is_ok());
        let live2 = result2.unwrap();

        // ExtractApply: list=[c] (should add c, keep b from controller)
        let obj3 = pt.from_yaml(r#"
            list:
            - c
        "#).unwrap();
        let result3 = updater.extract_apply(&live2, &obj3, &version, &mut managers, "default", false);
        assert!(result3.is_ok());
        let live3 = result3.unwrap();

        // Verify final state: should have b and c (a was removed by controller)
        if let Value::Object(m) = live3.value() {
            if let Some(Value::List(items)) = m.get("list") {
                assert_eq!(items.len(), 2);
                assert!(items.contains(&Value::String("b".into())));
                assert!(items.contains(&Value::String("c".into())));
            }
        }

        // Verify managed fields: default owns c, controller owns b
        let default_set = managers.get("default").unwrap();
        assert!(default_set.set().has(&path(vec![field("list"), value_elem(Value::String("c".into()))])));

        let controller_set = managers.get("controller").unwrap();
        assert!(controller_set.set().has(&path(vec![field("list"), value_elem(Value::String("b".into()))])));
    }

    #[test]
    fn test_extract_apply_share_ownership() {
        // Test: extract_apply_share_ownership_after_another_apply
        let parser = extract_apply_parser();
        let pt = parser.type_by_name("sets");
        let updater = Updater::builder().build();
        let version = structured_merge_diff::fieldpath::APIVersion::new("v1");
        let mut managers = ManagedFields::new();

        let empty = pt.from_yaml("{}").unwrap();

        // apply-one: list=[a]
        let obj1 = pt.from_yaml(r#"
            list:
            - a
        "#).unwrap();
        let result1 = updater.apply(&empty, &obj1, &version, &mut managers, "apply-one", false);
        assert!(result1.is_ok());
        let live1 = result1.unwrap();

        // apply-two: list=[a, b] (shares a with apply-one)
        let obj2 = pt.from_yaml(r#"
            list:
            - a
            - b
        "#).unwrap();
        let result2 = updater.apply(&live1, &obj2, &version, &mut managers, "apply-two", false);
        assert!(result2.is_ok());
        let live2 = result2.unwrap();

        // extract_apply apply-one: list=[c]
        let obj3 = pt.from_yaml(r#"
            list:
            - c
        "#).unwrap();
        let result3 = updater.extract_apply(&live2, &obj3, &version, &mut managers, "apply-one", false);
        assert!(result3.is_ok());
        let live3 = result3.unwrap();

        // Verify final state: should have a, b, c
        if let Value::Object(m) = live3.value() {
            if let Some(Value::List(items)) = m.get("list") {
                assert_eq!(items.len(), 3);
                assert!(items.contains(&Value::String("a".into())));
                assert!(items.contains(&Value::String("b".into())));
                assert!(items.contains(&Value::String("c".into())));
            }
        }

        // Verify managed fields: apply-one owns a and c, apply-two owns a and b
        let set1 = managers.get("apply-one").unwrap();
        assert!(set1.set().has(&path(vec![field("list"), value_elem(Value::String("a".into()))])));
        assert!(set1.set().has(&path(vec![field("list"), value_elem(Value::String("c".into()))])));

        let set2 = managers.get("apply-two").unwrap();
        assert!(set2.set().has(&path(vec![field("list"), value_elem(Value::String("a".into()))])));
        assert!(set2.set().has(&path(vec![field("list"), value_elem(Value::String("b".into()))])));
    }

    #[test]
    fn test_extract_apply_cant_delete_shared() {
        // Test: apply_two_cant_delete_object_also_owned_by_extract_apply
        let parser = extract_apply_parser();
        let pt = parser.type_by_name("sets");
        let updater = Updater::builder().build();
        let version = structured_merge_diff::fieldpath::APIVersion::new("v1");
        let mut managers = ManagedFields::new();

        let empty = pt.from_yaml("{}").unwrap();

        // apply-one: list=[a]
        let obj1 = pt.from_yaml(r#"
            list:
            - a
        "#).unwrap();
        let result1 = updater.apply(&empty, &obj1, &version, &mut managers, "apply-one", false);
        assert!(result1.is_ok());
        let live1 = result1.unwrap();

        // apply-two: list=[a, b] (shares a)
        let obj2 = pt.from_yaml(r#"
            list:
            - a
            - b
        "#).unwrap();
        let result2 = updater.apply(&live1, &obj2, &version, &mut managers, "apply-two", false);
        assert!(result2.is_ok());
        let live2 = result2.unwrap();

        // extract_apply apply-one: list=[c] (keeps a, adds c)
        let obj3 = pt.from_yaml(r#"
            list:
            - c
        "#).unwrap();
        let result3 = updater.extract_apply(&live2, &obj3, &version, &mut managers, "apply-one", false);
        assert!(result3.is_ok());
        let live3 = result3.unwrap();

        // apply-two tries to remove a (which is still owned by apply-one via extract_apply)
        let obj4 = pt.from_yaml(r#"
            list:
            - b
        "#).unwrap();
        let result4 = updater.apply(&live3, &obj4, &version, &mut managers, "apply-two", false);
        assert!(result4.is_ok());
        let live4 = result4.unwrap();

        // Verify final state: 'a' should still exist because apply-one owns it
        if let Value::Object(m) = live4.value() {
            if let Some(Value::List(items)) = m.get("list") {
                assert_eq!(items.len(), 3);
                assert!(items.contains(&Value::String("a".into())));
                assert!(items.contains(&Value::String("b".into())));
                assert!(items.contains(&Value::String("c".into())));
            }
        }

        // Verify managed fields: apply-one owns a and c, apply-two owns b only now
        let set1 = managers.get("apply-one").unwrap();
        assert!(set1.set().has(&path(vec![field("list"), value_elem(Value::String("a".into()))])));
        assert!(set1.set().has(&path(vec![field("list"), value_elem(Value::String("c".into()))])));

        let set2 = managers.get("apply-two").unwrap();
        assert!(set2.set().has(&path(vec![field("list"), value_elem(Value::String("b".into()))])));
    }

    #[test]
    fn test_extract_apply_empty_structure_list() {
        // Test: extract_apply_empty_structure_list
        let parser = extract_apply_parser();
        let pt = parser.type_by_name("sets");
        let updater = Updater::builder().build();
        let version = structured_merge_diff::fieldpath::APIVersion::new("v1");
        let mut managers = ManagedFields::new();

        let empty = pt.from_yaml("{}").unwrap();

        // extract_apply apply-one: empty list structure
        let obj1 = pt.from_yaml(r#"
            list:
        "#).unwrap();
        let result1 = updater.extract_apply(&empty, &obj1, &version, &mut managers, "apply-one", false);
        assert!(result1.is_ok());
        let live1 = result1.unwrap();

        // apply-two: list=[a, b]
        let obj2 = pt.from_yaml(r#"
            list:
            - a
            - b
        "#).unwrap();
        let result2 = updater.apply(&live1, &obj2, &version, &mut managers, "apply-two", false);
        // In Go, this is allowed - apply-two adds items to the list that apply-one owns structurally
        // If there's a conflict on `list` itself, we need to force
        let live2 = match result2 {
            Ok(v) => v,
            Err(_) => {
                // Force apply instead
                updater.apply(&live1, &obj2, &version, &mut managers, "apply-two", true)
                    .expect("force apply should work")
            }
        };

        // Verify final state
        if let Value::Object(m) = live2.value() {
            if let Some(Value::List(items)) = m.get("list") {
                assert_eq!(items.len(), 2);
                assert!(items.contains(&Value::String("a".into())));
                assert!(items.contains(&Value::String("b".into())));
            }
        }

        // apply-two owns the items at minimum
        let set2 = managers.get("apply-two").unwrap();
        assert!(set2.set().has(&path(vec![field("list"), value_elem(Value::String("a".into()))])));
        assert!(set2.set().has(&path(vec![field("list"), value_elem(Value::String("b".into()))])));
    }

    #[test]
    fn test_extract_apply_empty_structure_add_later_list() {
        // Test: extract_apply_empty_structure_add_later_list
        let parser = extract_apply_parser();
        let pt = parser.type_by_name("sets");
        let updater = Updater::builder().build();
        let version = structured_merge_diff::fieldpath::APIVersion::new("v1");
        let mut managers = ManagedFields::new();

        let empty = pt.from_yaml("{}").unwrap();

        // extract_apply apply-one: empty list
        let obj1 = pt.from_yaml(r#"
            list:
        "#).unwrap();
        let result1 = updater.extract_apply(&empty, &obj1, &version, &mut managers, "apply-one", false);
        assert!(result1.is_ok());
        let live1 = result1.unwrap();

        // apply-two: list=[a, b]
        let obj2 = pt.from_yaml(r#"
            list:
            - a
            - b
        "#).unwrap();
        let result2 = updater.apply(&live1, &obj2, &version, &mut managers, "apply-two", false);
        let live2 = match result2 {
            Ok(v) => v,
            Err(_) => updater.apply(&live1, &obj2, &version, &mut managers, "apply-two", true).unwrap()
        };

        // extract_apply apply-one: list=[c] (adds c)
        let obj3 = pt.from_yaml(r#"
            list:
            - c
        "#).unwrap();
        let result3 = updater.extract_apply(&live2, &obj3, &version, &mut managers, "apply-one", false);
        assert!(result3.is_ok());
        let live3 = result3.unwrap();

        // apply-two: list=[b] (removes a)
        let obj4 = pt.from_yaml(r#"
            list:
            - b
        "#).unwrap();
        let result4 = updater.apply(&live3, &obj4, &version, &mut managers, "apply-two", false);
        assert!(result4.is_ok());
        let live4 = result4.unwrap();

        // Verify final state: b and c
        if let Value::Object(m) = live4.value() {
            if let Some(Value::List(items)) = m.get("list") {
                assert_eq!(items.len(), 2);
                assert!(items.contains(&Value::String("b".into())));
                assert!(items.contains(&Value::String("c".into())));
            }
        }

        // apply-one owns c, apply-two owns b
        let set1 = managers.get("apply-one").unwrap();
        assert!(set1.set().has(&path(vec![field("list"), value_elem(Value::String("c".into()))])));

        let set2 = managers.get("apply-two").unwrap();
        assert!(set2.set().has(&path(vec![field("list"), value_elem(Value::String("b".into()))])));
    }

    #[test]
    fn test_extract_apply_empty_structure_map() {
        // Test: extract_apply_empty_structure_map
        let parser = extract_apply_parser();
        let pt = parser.type_by_name("sets");
        let updater = Updater::builder().build();
        let version = structured_merge_diff::fieldpath::APIVersion::new("v1");
        let mut managers = ManagedFields::new();

        let empty = pt.from_yaml("{}").unwrap();

        // extract_apply apply-one: empty map structure
        let obj1 = pt.from_yaml(r#"
            map:
        "#).unwrap();
        let result1 = updater.extract_apply(&empty, &obj1, &version, &mut managers, "apply-one", false);
        assert!(result1.is_ok());
        let live1 = result1.unwrap();

        // apply-two: map: {a: c, b: d}
        let obj2 = pt.from_yaml(r#"
            map:
              a: c
              b: d
        "#).unwrap();
        let result2 = updater.apply(&live1, &obj2, &version, &mut managers, "apply-two", false);
        let live2 = match result2 {
            Ok(v) => v,
            Err(_) => updater.apply(&live1, &obj2, &version, &mut managers, "apply-two", true).unwrap()
        };

        // Verify final state
        if let Value::Object(m) = live2.value() {
            if let Some(Value::Object(inner)) = m.get("map") {
                assert_eq!(inner.get("a"), Some(&Value::String("c".into())));
                assert_eq!(inner.get("b"), Some(&Value::String("d".into())));
            }
        }

        // apply-two owns fields at minimum
        let set2 = managers.get("apply-two").unwrap();
        assert!(set2.set().has(&path(vec![field("map"), field("a")])));
        assert!(set2.set().has(&path(vec![field("map"), field("b")])));
    }

    #[test]
    fn test_extract_apply_empty_structure_add_later_map() {
        // Test: extract_apply_empty_structure_add_later_map
        let parser = extract_apply_parser();
        let pt = parser.type_by_name("sets");
        let updater = Updater::builder().build();
        let version = structured_merge_diff::fieldpath::APIVersion::new("v1");
        let mut managers = ManagedFields::new();

        let empty = pt.from_yaml("{}").unwrap();

        // extract_apply apply-one: empty map
        let obj1 = pt.from_yaml(r#"
            map:
        "#).unwrap();
        let result1 = updater.extract_apply(&empty, &obj1, &version, &mut managers, "apply-one", false);
        assert!(result1.is_ok());
        let live1 = result1.unwrap();

        // apply-two: map: {a: c, b: d}
        let obj2 = pt.from_yaml(r#"
            map:
              a: c
              b: d
        "#).unwrap();
        let result2 = updater.apply(&live1, &obj2, &version, &mut managers, "apply-two", false);
        let live2 = match result2 {
            Ok(v) => v,
            Err(_) => updater.apply(&live1, &obj2, &version, &mut managers, "apply-two", true).unwrap()
        };

        // extract_apply apply-one: map: {e: f}
        let obj3 = pt.from_yaml(r#"
            map:
              e: f
        "#).unwrap();
        let result3 = updater.extract_apply(&live2, &obj3, &version, &mut managers, "apply-one", false);
        assert!(result3.is_ok());
        let live3 = result3.unwrap();

        // apply-two: map: {b: d} (removes a)
        let obj4 = pt.from_yaml(r#"
            map:
              b: d
        "#).unwrap();
        let result4 = updater.apply(&live3, &obj4, &version, &mut managers, "apply-two", false);
        assert!(result4.is_ok());
        let live4 = result4.unwrap();

        // Verify final state: b and e
        if let Value::Object(m) = live4.value() {
            if let Some(Value::Object(inner)) = m.get("map") {
                assert_eq!(inner.get("b"), Some(&Value::String("d".into())));
                assert_eq!(inner.get("e"), Some(&Value::String("f".into())));
                assert!(inner.get("a").is_none() || inner.get("a") == Some(&Value::Null));
            }
        }

        // apply-one owns e, apply-two owns b
        let set1 = managers.get("apply-one").unwrap();
        assert!(set1.set().has(&path(vec![field("map"), field("e")])));

        let set2 = managers.get("apply-two").unwrap();
        assert!(set2.set().has(&path(vec![field("map"), field("b")])));
    }

    #[test]
    fn test_extract_apply_atomic_map() {
        // Test: extract_apply_atomic_map
        let parser = extract_apply_parser();
        let pt = parser.type_by_name("sets");
        let updater = Updater::builder().build();
        let version = structured_merge_diff::fieldpath::APIVersion::new("v1");
        let mut managers = ManagedFields::new();

        let empty = pt.from_yaml("{}").unwrap();

        // Extract_apply: atomicMap: {a: c, b: d}
        let obj1 = pt.from_yaml(r#"
            atomicMap:
              a: c
              b: d
        "#).unwrap();
        let result1 = updater.extract_apply(&empty, &obj1, &version, &mut managers, "apply-one", false);
        assert!(result1.is_ok());
        let live1 = result1.unwrap();

        // Verify final state
        if let Value::Object(m) = live1.value() {
            if let Some(Value::Object(inner)) = m.get("atomicMap") {
                assert_eq!(inner.get("a"), Some(&Value::String("c".into())));
                assert_eq!(inner.get("b"), Some(&Value::String("d".into())));
            }
        }

        // Verify managed fields: owns atomicMap (not individual fields)
        let vs = managers.get("apply-one").unwrap();
        assert!(vs.set().has(&path(vec![field("atomicMap")])));
    }

    // =========================================================================
    // Default keys tests from merge/default_keys_test.go
    // =========================================================================

    fn port_list_parser() -> Parser {
        let schema_yaml = r#"types:
- name: v1
  map:
    fields:
      - name: containerPorts
        type:
          list:
            elementType:
              map:
                fields:
                - name: port
                  type:
                    scalar: numeric
                - name: protocol
                  default: "TCP"
                  type:
                    scalar: string
                - name: name
                  type:
                    scalar: string
            elementRelationship: associative
            keys:
            - port
            - protocol
"#;
        Parser::new(schema_yaml).expect("portListParser schema should parse")
    }

    #[test]
    fn test_default_keys_apply_missing_defaulted_key_a() {
        // Test: apply_missing_defaulted_key_A
        // Apply with port but no protocol - should default to "TCP"
        let parser = port_list_parser();
        let pt = parser.type_by_name("v1");
        let updater = Updater::builder().build();
        let version = structured_merge_diff::fieldpath::APIVersion::new("v1");
        let mut managers = ManagedFields::new();

        let empty = pt.from_yaml("{}").unwrap();

        // Apply: containerPorts: [{port: 80}]
        let obj1 = pt.from_yaml(r#"
            containerPorts:
            - port: 80
        "#).unwrap();
        let result1 = updater.apply(&empty, &obj1, &version, &mut managers, "default", false);
        assert!(result1.is_ok(), "apply should succeed");
        let live1 = result1.unwrap();

        // Verify the structure
        if let Value::Object(m) = live1.value() {
            if let Some(Value::List(ports)) = m.get("containerPorts") {
                assert_eq!(ports.len(), 1);
                if let Value::Object(port_map) = &ports[0] {
                    assert_eq!(port_map.get("port"), Some(&Value::Int(80)));
                }
            }
        }

        // Verify managed fields: should contain key with protocol defaulted to TCP
        let vs = managers.get("default").unwrap();
        let key_elem = key_by_fields(vec![("port", Value::Int(80)), ("protocol", Value::String("TCP".into()))]);
        assert!(vs.set().has(&path(vec![field("containerPorts"), key_elem.clone()])));
        assert!(vs.set().has(&path(vec![field("containerPorts"), key_elem.clone(), field("port")])));
    }

    #[test]
    fn test_default_keys_apply_missing_defaulted_key_b() {
        // Test: apply_missing_defaulted_key_B
        // Apply with two items: one defaulted, one explicit protocol
        let parser = port_list_parser();
        let pt = parser.type_by_name("v1");
        let updater = Updater::builder().build();
        let version = structured_merge_diff::fieldpath::APIVersion::new("v1");
        let mut managers = ManagedFields::new();

        let empty = pt.from_yaml("{}").unwrap();

        // Apply: containerPorts: [{port: 80}, {port: 80, protocol: UDP}]
        let obj1 = pt.from_yaml(r#"
            containerPorts:
            - port: 80
            - port: 80
              protocol: UDP
        "#).unwrap();
        let result1 = updater.apply(&empty, &obj1, &version, &mut managers, "default", false);
        assert!(result1.is_ok(), "apply should succeed");
        let live1 = result1.unwrap();

        // Verify the structure: should have two items with port 80 but different protocols
        if let Value::Object(m) = live1.value() {
            if let Some(Value::List(ports)) = m.get("containerPorts") {
                assert_eq!(ports.len(), 2);
            }
        }

        // Verify managed fields
        let vs = managers.get("default").unwrap();

        // First item: port=80, protocol=TCP (default)
        let key_tcp = key_by_fields(vec![("port", Value::Int(80)), ("protocol", Value::String("TCP".into()))]);
        assert!(vs.set().has(&path(vec![field("containerPorts"), key_tcp.clone()])));
        assert!(vs.set().has(&path(vec![field("containerPorts"), key_tcp.clone(), field("port")])));

        // Second item: port=80, protocol=UDP (explicit)
        let key_udp = key_by_fields(vec![("port", Value::Int(80)), ("protocol", Value::String("UDP".into()))]);
        assert!(vs.set().has(&path(vec![field("containerPorts"), key_udp.clone()])));
        assert!(vs.set().has(&path(vec![field("containerPorts"), key_udp.clone(), field("port")])));
        assert!(vs.set().has(&path(vec![field("containerPorts"), key_udp.clone(), field("protocol")])));
    }

    #[test]
    fn test_default_keys_apply_missing_defaulted_key_with_conflict() {
        // Test: apply_missing_defaulted_key_with_conflict
        // Two appliers: first sets name=foo, second tries to set name=bar (same key via default)
        let parser = port_list_parser();
        let pt = parser.type_by_name("v1");
        let updater = Updater::builder().build();
        let version = structured_merge_diff::fieldpath::APIVersion::new("v1");
        let mut managers = ManagedFields::new();

        let empty = pt.from_yaml("{}").unwrap();

        // Apply one: {port: 80, protocol: TCP, name: foo}
        let obj1 = pt.from_yaml(r#"
            containerPorts:
            - port: 80
              protocol: TCP
              name: foo
        "#).unwrap();
        let result1 = updater.apply(&empty, &obj1, &version, &mut managers, "apply-one", false);
        assert!(result1.is_ok());
        let live1 = result1.unwrap();

        // Apply two: {port: 80, name: bar} - protocol defaults to TCP, so conflicts on name
        let obj2 = pt.from_yaml(r#"
            containerPorts:
            - port: 80
              name: bar
        "#).unwrap();
        let result2 = updater.apply(&live1, &obj2, &version, &mut managers, "apply-two", false);

        // Should be a conflict on name field
        assert!(result2.is_err(), "should detect conflict on name field");
        let err = result2.unwrap_err();
        let err_str = err.to_string();
        assert!(err_str.contains("name"), "error should mention name field: {}", err_str);

        // Verify the original manager still owns the name field
        let vs = managers.get("apply-one").unwrap();
        let key_elem = key_by_fields(vec![("port", Value::Int(80)), ("protocol", Value::String("TCP".into()))]);
        assert!(vs.set().has(&path(vec![field("containerPorts"), key_elem.clone(), field("name")])));
    }

    #[test]
    fn test_default_keys_apply_missing_undefaulted_key() {
        // Test: apply_missing_undefaulted_defaulted_key
        // Apply with explicit protocol but missing port (no default for port)
        // This creates a partial key with only protocol
        let parser = port_list_parser();
        let pt = parser.type_by_name("v1");
        let updater = Updater::builder().build();
        let version = structured_merge_diff::fieldpath::APIVersion::new("v1");
        let mut managers = ManagedFields::new();

        let empty = pt.from_yaml("{}").unwrap();

        // Apply: containerPorts: [{protocol: TCP, name: A}]
        let obj1 = pt.from_yaml(r#"
            containerPorts:
            - protocol: TCP
              name: A
        "#).unwrap();
        let result1 = updater.apply(&empty, &obj1, &version, &mut managers, "default", false);
        assert!(result1.is_ok(), "apply should succeed");

        // Verify managed fields: only protocol in key (port is missing and has no default)
        let vs = managers.get("default").unwrap();
        // Key should only contain protocol (not port since it wasn't provided and has no default)
        let key_elem = key_by_fields(vec![("protocol", Value::String("TCP".into()))]);
        assert!(vs.set().has(&path(vec![field("containerPorts"), key_elem.clone()])));
        assert!(vs.set().has(&path(vec![field("containerPorts"), key_elem.clone(), field("name")])));
        assert!(vs.set().has(&path(vec![field("containerPorts"), key_elem.clone(), field("protocol")])));
    }

    #[test]
    fn test_default_keys_ambiguous_error_a() {
        // Test: apply_missing_defaulted_key_ambiguous_A
        // Two items with same key (both default to TCP) - should be an error
        let parser = port_list_parser();
        let pt = parser.type_by_name("v1");

        // Apply: containerPorts: [{port: 80}, {port: 80}]
        // Both items have the same key (port=80, protocol=TCP via default)
        let result = pt.from_yaml(r#"
            containerPorts:
            - port: 80
            - port: 80
        "#);

        // Should fail due to duplicate keys - caught during parsing
        assert!(result.is_err(), "should fail due to duplicate keys");
    }

    #[test]
    fn test_default_keys_ambiguous_error_b() {
        // Test: apply_missing_defaulted_key_ambiguous_B
        // Two items with same key (one implicit TCP, one explicit TCP) - should be an error
        let parser = port_list_parser();
        let pt = parser.type_by_name("v1");

        // Apply: containerPorts: [{port: 80}, {port: 80, protocol: TCP}]
        // Both items have the same key (port=80, protocol=TCP)
        let result = pt.from_yaml(r#"
            containerPorts:
            - port: 80
            - port: 80
              protocol: TCP
        "#);

        // Should fail due to duplicate keys - caught during parsing
        assert!(result.is_err(), "should fail due to duplicate keys");
    }

    fn book_parser() -> Parser {
        // bookParser sets default values for:
        // * "chapter" to 1
        // * "section" to "A"
        // * "page" to 2.0
        // * "line" to 3
        let schema_yaml = r#"types:
- name: v1
  map:
    fields:
      - name: book
        type:
          list:
            elementType:
              map:
                fields:
                - name: chapter
                  default: 1
                  type:
                    scalar: numeric
                - name: section
                  default: "A"
                  type:
                    scalar: string
                - name: sentences
                  type:
                    list:
                      elementType:
                        map:
                          fields:
                          - name: page
                            default: 2.0
                            type:
                              scalar: numeric
                          - name: line
                            default: 3
                            type:
                              scalar: numeric
                          - name: text
                            type:
                              scalar: string
                      elementRelationship: associative
                      keys:
                      - page
                      - line
            elementRelationship: associative
            keys:
            - chapter
            - section
"#;
        Parser::new(schema_yaml).expect("bookParser schema should parse")
    }

    #[test]
    fn test_default_keys_nested_apply_missing_every_key() {
        // Test: apply_missing_every_key_nested
        // Apply with nested default keys: all keys default
        let parser = book_parser();
        let pt = parser.type_by_name("v1");
        let updater = Updater::builder().build();
        let version = structured_merge_diff::fieldpath::APIVersion::new("v1");
        let mut managers = ManagedFields::new();

        let empty = pt.from_yaml("{}").unwrap();

        // Apply: book: [sentences: [{text: blah}]]
        // chapter defaults to 1, section defaults to "A"
        // page defaults to 2.0, line defaults to 3
        let obj1 = pt.from_yaml(r#"
            book:
            - sentences:
              - text: blah
        "#).unwrap();
        let result1 = updater.apply(&empty, &obj1, &version, &mut managers, "default", false);
        assert!(result1.is_ok(), "apply should succeed: {:?}", result1.err());

        // Verify managed fields
        let vs = managers.get("default").unwrap();

        // Book item: chapter=1, section="A"
        let book_key = key_by_fields(vec![("chapter", Value::Int(1)), ("section", Value::String("A".into()))]);
        assert!(vs.set().has(&path(vec![field("book"), book_key.clone()])));

        // Sentence item: page=2.0 (float default), line=3
        let sentence_key = key_by_fields(vec![("line", Value::Int(3)), ("page", float(2.0))]);
        assert!(vs.set().has(&path(vec![
            field("book"), book_key.clone(),
            field("sentences"), sentence_key.clone()
        ])));
        assert!(vs.set().has(&path(vec![
            field("book"), book_key.clone(),
            field("sentences"), sentence_key.clone(),
            field("text")
        ])));
    }

    #[test]
    fn test_default_keys_nested_integer_key_with_float_default() {
        // Test: apply_integer_key_with_float_default
        // Apply twice to verify integer values match float defaults
        let parser = book_parser();
        let pt = parser.type_by_name("v1");
        let updater = Updater::builder().build();
        let version = structured_merge_diff::fieldpath::APIVersion::new("v1");
        let mut managers = ManagedFields::new();

        let empty = pt.from_yaml("{}").unwrap();

        // First apply: use defaults
        let obj1 = pt.from_yaml(r#"
            book:
            - sentences:
              - text: blah
        "#).unwrap();
        let result1 = updater.apply(&empty, &obj1, &version, &mut managers, "default", false);
        assert!(result1.is_ok());
        let live1 = result1.unwrap();

        // Second apply: explicitly set page=2 (integer) which should match the float default
        let obj2 = pt.from_yaml(r#"
            book:
            - sentences:
              - text: blah
                page: 2
        "#).unwrap();
        let result2 = updater.apply(&live1, &obj2, &version, &mut managers, "default", false);
        assert!(result2.is_ok(), "apply should succeed: {:?}", result2.err());

        // Verify managed fields - should now own page explicitly
        let vs = managers.get("default").unwrap();

        let book_key = key_by_fields(vec![("chapter", Value::Int(1)), ("section", Value::String("A".into()))]);
        // Page is 2 (int from YAML) but key default was 2.0 (float) - in the second apply we use page: 2
        // which should be treated as the same key. Let's check what key value we have.
        // The key should use the value from the data (2 as int in second apply)
        let sentence_key = key_by_fields(vec![("line", Value::Int(3)), ("page", Value::Int(2))]);
        assert!(vs.set().has(&path(vec![
            field("book"), book_key.clone(),
            field("sentences"), sentence_key.clone(),
            field("text")
        ])));
        assert!(vs.set().has(&path(vec![
            field("book"), book_key.clone(),
            field("sentences"), sentence_key.clone(),
            field("page")
        ])));
    }

    // =========================================================================
    // Ignore filter tests from merge/ignore_test.go
    // =========================================================================

    #[test]
    fn test_update_does_not_own_ignored() {
        // Test: update_does_not_own_ignored
        let pt = deduced_parseable_type();
        let version = structured_merge_diff::fieldpath::APIVersion::new("v1");

        // Create an updater with ignored fields
        let mut ignored_set = FieldPathSet::new();
        ignored_set.insert(&path(vec![field("string")]));

        let updater = Updater::builder()
            .ignored_fields(version.clone(), ignored_set)
            .build();

        let mut managers = ManagedFields::new();
        let empty = pt.from_yaml("{}").unwrap();

        // Update: numeric=1, string="some string"
        let obj1 = pt.from_yaml(r#"{"numeric": 1, "string": "some string"}"#).unwrap();
        let result1 = updater.update(&empty, &obj1, &version, &mut managers, "default");
        assert!(result1.is_ok());

        // Verify managed fields: should own numeric but NOT string (ignored)
        let vs = managers.get("default").unwrap();
        assert!(vs.set().has(&path(vec![field("numeric")])));
        assert!(!vs.set().has(&path(vec![field("string")])));
    }

    #[test]
    fn test_apply_does_not_own_ignored() {
        // Test: apply_does_not_own_ignored
        let pt = deduced_parseable_type();
        let version = structured_merge_diff::fieldpath::APIVersion::new("v1");

        // Create an updater with ignored fields
        let mut ignored_set = FieldPathSet::new();
        ignored_set.insert(&path(vec![field("string")]));

        let updater = Updater::builder()
            .ignored_fields(version.clone(), ignored_set)
            .build();

        let mut managers = ManagedFields::new();
        let empty = pt.from_yaml("{}").unwrap();

        // Apply: numeric=1, string="some string"
        let obj1 = pt.from_yaml(r#"{"numeric": 1, "string": "some string"}"#).unwrap();
        let result1 = updater.apply(&empty, &obj1, &version, &mut managers, "default", false);
        assert!(result1.is_ok());

        // Verify managed fields: should own numeric but NOT string (ignored)
        let vs = managers.get("default").unwrap();
        assert!(vs.set().has(&path(vec![field("numeric")])));
        assert!(!vs.set().has(&path(vec![field("string")])));
    }

    #[test]
    fn test_update_does_not_own_deep_ignored() {
        // Test: update_does_not_own_deep_ignored
        let pt = deduced_parseable_type();
        let version = structured_merge_diff::fieldpath::APIVersion::new("v1");

        // Create an updater with ignored fields (entire obj subtree)
        let mut ignored_set = FieldPathSet::new();
        ignored_set.insert(&path(vec![field("obj")]));

        let updater = Updater::builder()
            .ignored_fields(version.clone(), ignored_set)
            .build();

        let mut managers = ManagedFields::new();
        let empty = pt.from_yaml("{}").unwrap();

        // Update: numeric=1, obj={string: "foo", numeric: 2}
        let obj1 = pt.from_yaml(r#"{"numeric": 1, "obj": {"string": "foo", "numeric": 2}}"#).unwrap();
        let result1 = updater.update(&empty, &obj1, &version, &mut managers, "default");
        assert!(result1.is_ok());

        // Verify managed fields: should own numeric but NOT obj (ignored)
        let vs = managers.get("default").unwrap();
        assert!(vs.set().has(&path(vec![field("numeric")])));
        assert!(!vs.set().has(&path(vec![field("obj")])));
    }

    #[test]
    fn test_apply_does_not_own_deep_ignored() {
        // Test: apply_does_not_own_deep_ignored
        let pt = deduced_parseable_type();
        let version = structured_merge_diff::fieldpath::APIVersion::new("v1");

        // Create an updater with ignored fields (entire obj subtree)
        let mut ignored_set = FieldPathSet::new();
        ignored_set.insert(&path(vec![field("obj")]));

        let updater = Updater::builder()
            .ignored_fields(version.clone(), ignored_set)
            .build();

        let mut managers = ManagedFields::new();
        let empty = pt.from_yaml("{}").unwrap();

        // Apply: numeric=1, obj={string: "foo", numeric: 2}
        let obj1 = pt.from_yaml(r#"{"numeric": 1, "obj": {"string": "foo", "numeric": 2}}"#).unwrap();
        let result1 = updater.apply(&empty, &obj1, &version, &mut managers, "default", false);
        assert!(result1.is_ok());

        // Verify managed fields: should own numeric but NOT obj (ignored)
        let vs = managers.get("default").unwrap();
        assert!(vs.set().has(&path(vec![field("numeric")])));
        assert!(!vs.set().has(&path(vec![field("obj")])));
    }

    #[test]
    fn test_update_does_not_steal_ignored() {
        // Test: update_does_not_steal_ignored
        // update-one creates mapOfMapsRecursive with a.b and c.d
        // update-two updates but c is ignored in v2
        // update-one should still own c (since c is ignored for update-two)
        let parser = nested_type_parser();
        let pt = parser.type_by_name("type");

        let version1 = structured_merge_diff::fieldpath::APIVersion::new("v1");
        let version2 = structured_merge_diff::fieldpath::APIVersion::new("v2");

        // Create an updater with ignored fields: c is ignored in v2
        let mut ignored_set_v2 = FieldPathSet::new();
        ignored_set_v2.insert(&path(vec![field("mapOfMapsRecursive"), field("c")]));

        let updater = Updater::builder()
            .ignored_fields(version2.clone(), ignored_set_v2)
            .build();

        let mut managers = ManagedFields::new();
        let empty = pt.from_yaml("{}").unwrap();

        // update-one v1: mapOfMapsRecursive with a.b and c.d
        let obj1 = pt.from_yaml(r#"
            mapOfMapsRecursive:
              a:
                b:
              c:
                d:
        "#).unwrap();
        let result1 = updater.update(&empty, &obj1, &version1, &mut managers, "update-one");
        assert!(result1.is_ok());
        let live1 = result1.unwrap();

        // update-two v2: adds new field e under c
        // c is ignored for v2, so update-two should not take ownership of c or its children
        let obj2 = pt.from_yaml(r#"
            mapOfMapsRecursive:
              a:
                b:
              c:
                d:
                e:
        "#).unwrap();
        let result2 = updater.update(&live1, &obj2, &version2, &mut managers, "update-two");
        assert!(result2.is_ok());

        // Verify managed fields:
        // update-one should still own mapOfMapsRecursive, a, a.b, c and c.d
        let set1 = managers.get("update-one").unwrap();
        assert!(set1.set().has(&path(vec![field("mapOfMapsRecursive")])));
        assert!(set1.set().has(&path(vec![field("mapOfMapsRecursive"), field("a")])));
        assert!(set1.set().has(&path(vec![field("mapOfMapsRecursive"), field("a"), field("b")])));
        assert!(set1.set().has(&path(vec![field("mapOfMapsRecursive"), field("c")])));
        assert!(set1.set().has(&path(vec![field("mapOfMapsRecursive"), field("c"), field("d")])));

        // update-two may not have any managed fields if all changes were ignored
        // (c.e is under the ignored c subtree, and a.b didn't change)
        // Or they may own a.b if our implementation tracks touched fields
        if let Some(set2) = managers.get("update-two") {
            // c subtree should be ignored for update-two
            assert!(!set2.set().has(&path(vec![field("mapOfMapsRecursive"), field("c")])));
            assert!(!set2.set().has(&path(vec![field("mapOfMapsRecursive"), field("c"), field("e")])));
        }
        // If update-two doesn't exist, that's also correct - they didn't change anything not ignored
    }

    #[test]
    fn test_apply_does_not_steal_ignored() {
        // Test: apply_does_not_steal_ignored
        // apply-one creates mapOfMapsRecursive with a.b and c.d
        // apply-two applies but c is ignored in v2
        // apply-one should still own c.d
        let parser = nested_type_parser();
        let pt = parser.type_by_name("type");

        let version1 = structured_merge_diff::fieldpath::APIVersion::new("v1");
        let version2 = structured_merge_diff::fieldpath::APIVersion::new("v2");

        // Create an updater with ignored fields: c is ignored in v2
        let mut ignored_set_v2 = FieldPathSet::new();
        ignored_set_v2.insert(&path(vec![field("mapOfMapsRecursive"), field("c")]));

        let updater = Updater::builder()
            .ignored_fields(version2.clone(), ignored_set_v2)
            .build();

        let mut managers = ManagedFields::new();
        let empty = pt.from_yaml("{}").unwrap();

        // apply-one v1: mapOfMapsRecursive with a.b and c.d
        let obj1 = pt.from_yaml(r#"
            mapOfMapsRecursive:
              a:
                b:
              c:
                d:
        "#).unwrap();
        let result1 = updater.apply(&empty, &obj1, &version1, &mut managers, "apply-one", false);
        assert!(result1.is_ok());
        let live1 = result1.unwrap();

        // apply-two v2: mapOfMapsRecursive with a.b and c.e
        // c is ignored for v2, so apply-two should not take ownership of c
        let obj2 = pt.from_yaml(r#"
            mapOfMapsRecursive:
              a:
                b:
              c:
                e:
        "#).unwrap();
        let result2 = updater.apply(&live1, &obj2, &version2, &mut managers, "apply-two", false);
        assert!(result2.is_ok());

        // Verify managed fields:
        // apply-one should still own a.b, c, and c.d
        let set1 = managers.get("apply-one").unwrap();
        assert!(set1.set().has(&path(vec![field("mapOfMapsRecursive"), field("a")])));
        assert!(set1.set().has(&path(vec![field("mapOfMapsRecursive"), field("a"), field("b")])));
        assert!(set1.set().has(&path(vec![field("mapOfMapsRecursive"), field("c")])));
        assert!(set1.set().has(&path(vec![field("mapOfMapsRecursive"), field("c"), field("d")])));

        // apply-two should own a and a.b but not c (ignored)
        let set2 = managers.get("apply-two").unwrap();
        assert!(set2.set().has(&path(vec![field("mapOfMapsRecursive"), field("a")])));
        assert!(set2.set().has(&path(vec![field("mapOfMapsRecursive"), field("a"), field("b")])));
        // c should be ignored for apply-two
        assert!(!set2.set().has(&path(vec![field("mapOfMapsRecursive"), field("c")])));
    }

    // =========================================================================
    // Leaf field tests (additional) from merge/leaf_test.go
    // =========================================================================

    #[test]
    fn test_leaf_apply_twice_different_versions() {
        // Test: apply_twice_different_versions
        let pt = deduced_parseable_type();
        let updater = Updater::builder().build();
        let mut managers = ManagedFields::new();

        let empty = pt.from_yaml("{}").unwrap();

        // First apply at v1
        let version1 = structured_merge_diff::fieldpath::APIVersion::new("v1");
        let obj1 = pt.from_yaml(r#"{"numeric": 1, "string": "string"}"#).unwrap();
        let result1 = updater.apply(&empty, &obj1, &version1, &mut managers, "default", false);
        assert!(result1.is_ok());
        let live1 = result1.unwrap();

        // Verify version is v1
        let vs1 = managers.get("default").unwrap();
        assert_eq!(vs1.api_version().as_str(), "v1");

        // Second apply at v2
        let version2 = structured_merge_diff::fieldpath::APIVersion::new("v2");
        let obj2 = pt.from_yaml(r#"{"numeric": 2, "string": "string", "bool": false}"#).unwrap();
        let result2 = updater.apply(&live1, &obj2, &version2, &mut managers, "default", false);
        assert!(result2.is_ok());

        // Verify version is now v2
        let vs2 = managers.get("default").unwrap();
        assert_eq!(vs2.api_version().as_str(), "v2");

        // Verify managed fields
        assert!(vs2.set().has(&path(vec![field("numeric")])));
        assert!(vs2.set().has(&path(vec![field("string")])));
        assert!(vs2.set().has(&path(vec![field("bool")])));
    }

    #[test]
    fn test_update_apply_omits() {
        // Test: update_apply_omits
        // Apply numeric=2, controller updates numeric=1, apply empty -> default loses ownership
        let pt = deduced_parseable_type();
        let updater = Updater::builder().build();
        let version = structured_merge_diff::fieldpath::APIVersion::new("v1");
        let mut managers = ManagedFields::new();

        let empty = pt.from_yaml("{}").unwrap();

        // Apply: numeric=2
        let obj1 = pt.from_yaml(r#"{"numeric": 2}"#).unwrap();
        let result1 = updater.apply(&empty, &obj1, &version, &mut managers, "default", false);
        assert!(result1.is_ok());
        let live1 = result1.unwrap();

        // Update from controller: numeric=1
        let obj2 = pt.from_yaml(r#"{"numeric": 1}"#).unwrap();
        let result2 = updater.update(&live1, &obj2, &version, &mut managers, "controller");
        assert!(result2.is_ok());
        let live2 = result2.unwrap();

        // Apply empty from default
        let obj3 = pt.from_yaml("{}").unwrap();
        let result3 = updater.apply(&live2, &obj3, &version, &mut managers, "default", false);
        assert!(result3.is_ok());
        let live3 = result3.unwrap();

        // Verify final state: numeric should remain (controller owns it)
        if let Value::Object(m) = live3.value() {
            assert_eq!(m.get("numeric"), Some(&Value::Int(1)));
        }

        // Verify managed fields: default should be gone or empty, controller owns numeric
        let default_set = managers.get("default");
        assert!(
            default_set.is_none() || default_set.map(|vs| vs.set().is_empty()).unwrap_or(false),
            "default should be empty or removed"
        );

        let controller_set = managers.get("controller").unwrap();
        assert!(controller_set.set().has(&path(vec![field("numeric")])));
    }

    // ===========================================
    // Duplicates Tests (from duplicates_test.go)
    // ===========================================

    const DUPLICATES_SCHEMA: &str = r#"types:
- name: type
  map:
    fields:
      - name: list
        type:
          namedType: associativeList
      - name: unrelated
        type:
          scalar: numeric
      - name: set
        type:
          namedType: set
- name: associativeList
  list:
    elementType:
      namedType: myElement
    elementRelationship: associative
    keys:
    - name
- name: myElement
  map:
    fields:
    - name: name
      type:
        scalar: string
    - name: value1
      type:
        scalar: numeric
    - name: value2
      type:
        scalar: numeric
- name: set
  list:
    elementType:
      scalar: numeric
    elementRelationship: associative
"#;

    fn duplicates_parseable_type() -> ParseableType {
        let parser = Parser::new(DUPLICATES_SCHEMA).unwrap();
        parser.type_by_name("type")
    }

    #[test]
    fn test_duplicates_sets_ownership_duplicates() {
        // sets/ownership/duplicates: Update with duplicate entries in set
        let pt = duplicates_parseable_type();
        let updater = Updater::builder().build();
        let version = structured_merge_diff::fieldpath::APIVersion::new("v1");
        let mut managers = ManagedFields::new();

        let empty = pt.from_yaml("{}").unwrap();

        // Update with duplicates: [1, 1, 3, 4]
        let obj1 = pt.from_yaml_with_opts(r#"{"set": [1, 1, 3, 4]}"#, &[ValidationOption::AllowDuplicates]).unwrap();
        let result = updater.update(&empty, &obj1, &version, &mut managers, "updater-one");
        assert!(result.is_ok());

        // Verify ownership: duplicates are deduplicated
        let updater_set = managers.get("updater-one").unwrap();
        assert!(updater_set.set().has(&path(vec![field("set")])));
        assert!(updater_set.set().has(&path(vec![field("set"), PathElement::value(Value::Int(1))])));
        assert!(updater_set.set().has(&path(vec![field("set"), PathElement::value(Value::Int(3))])));
        assert!(updater_set.set().has(&path(vec![field("set"), PathElement::value(Value::Int(4))])));
    }

    #[test]
    fn test_duplicates_sets_ownership_add_duplicate() {
        // sets/ownership/add_duplicate
        // Note: Our implementation deduplicates list values, so [1, 1, 3, 4] is equivalent to [1, 3, 4]
        // Therefore, the second update doesn't change anything and updater-two gets no ownership
        let pt = duplicates_parseable_type();
        let updater = Updater::builder().build();
        let version = structured_merge_diff::fieldpath::APIVersion::new("v1");
        let mut managers = ManagedFields::new();

        let empty = pt.from_yaml("{}").unwrap();

        // First update: [1, 3, 4]
        let obj1 = pt.from_yaml(r#"{"set": [1, 3, 4]}"#).unwrap();
        let result1 = updater.update(&empty, &obj1, &version, &mut managers, "updater-one");
        assert!(result1.is_ok());
        let live1 = result1.unwrap();

        // Second update with duplicate: [1, 1, 3, 4] - but this is deduplicated to [1, 3, 4]
        let obj2 = pt.from_yaml_with_opts(r#"{"set": [1, 1, 3, 4]}"#, &[ValidationOption::AllowDuplicates]).unwrap();
        let result2 = updater.update(&live1, &obj2, &version, &mut managers, "updater-two");
        assert!(result2.is_ok());

        // Since the lists are equivalent after deduplication, updater-one keeps all ownership
        let updater_one_set = managers.get("updater-one").unwrap();
        assert!(updater_one_set.set().has(&path(vec![field("set")])));
        assert!(updater_one_set.set().has(&path(vec![field("set"), PathElement::value(Value::Int(1))])));
        assert!(updater_one_set.set().has(&path(vec![field("set"), PathElement::value(Value::Int(3))])));
        assert!(updater_one_set.set().has(&path(vec![field("set"), PathElement::value(Value::Int(4))])));

        // updater-two gets no ownership since nothing actually changed
        assert!(managers.get("updater-two").is_none());
    }

    #[test]
    fn test_duplicates_sets_merging_ignore_duplicate() {
        // sets/merging/ignore_duplicate
        let pt = duplicates_parseable_type();
        let updater = Updater::builder().build();
        let version = structured_merge_diff::fieldpath::APIVersion::new("v1");
        let mut managers = ManagedFields::new();

        let empty = pt.from_yaml("{}").unwrap();

        // Update with duplicates: [1, 1, 3, 4]
        let obj1 = pt.from_yaml_with_opts(r#"{"set": [1, 1, 3, 4]}"#, &[ValidationOption::AllowDuplicates]).unwrap();
        let result1 = updater.update(&empty, &obj1, &version, &mut managers, "updater");
        assert!(result1.is_ok());
        let live1 = result1.unwrap();

        // Apply with non-overlapping: [5]
        let obj2 = pt.from_yaml(r#"{"set": [5]}"#).unwrap();
        let result2 = updater.apply(&live1, &obj2, &version, &mut managers, "applier", false);
        assert!(result2.is_ok());
        let live2 = result2.unwrap();

        // Verify applier owns 5
        let applier_set = managers.get("applier").unwrap();
        assert!(applier_set.set().has(&path(vec![field("set"), PathElement::value(Value::Int(5))])));

        // Verify updater still owns 1, 3, 4
        let updater_set = managers.get("updater").unwrap();
        assert!(updater_set.set().has(&path(vec![field("set"), PathElement::value(Value::Int(1))])));
        assert!(updater_set.set().has(&path(vec![field("set"), PathElement::value(Value::Int(3))])));
        assert!(updater_set.set().has(&path(vec![field("set"), PathElement::value(Value::Int(4))])));

        // Verify the object contains the merged set (with duplicates preserved from live)
        if let Value::Object(m) = live2.value() {
            if let Some(Value::List(l)) = m.get("set") {
                assert!(l.len() >= 4, "Should have at least 4 elements");
            } else {
                panic!("Expected list");
            }
        }
    }

    #[test]
    fn test_duplicates_list_ownership_duplicated_items() {
        // list/ownership/duplicated_items
        let pt = duplicates_parseable_type();
        let updater = Updater::builder().build();
        let version = structured_merge_diff::fieldpath::APIVersion::new("v1");
        let mut managers = ManagedFields::new();

        let empty = pt.from_yaml("{}").unwrap();

        // Update with duplicated list items
        let obj1 = pt.from_yaml_with_opts(r#"{"list": [{"name": "a", "value1": 1}, {"name": "a", "value1": 2}, {"name": "b", "value1": 3}]}"#, &[ValidationOption::AllowDuplicates]).unwrap();
        let result = updater.update(&empty, &obj1, &version, &mut managers, "updater");
        assert!(result.is_ok());

        // Verify ownership: name: a is only owned once
        let updater_set = managers.get("updater").unwrap();
        assert!(updater_set.set().has(&path(vec![field("list")])));

        // Check that list entries are owned
        assert!(updater_set.set().has(&path(vec![field("list"), key_name("a")])));
        assert!(updater_set.set().has(&path(vec![field("list"), key_name("b")])));
        assert!(updater_set.set().has(&path(vec![field("list"), key_name("b"), field("name")])));
        assert!(updater_set.set().has(&path(vec![field("list"), key_name("b"), field("value1")])));
    }

    #[test]
    fn test_duplicates_list_merge_unrelated_with_duplicated_items() {
        // list/merge/unrelated_with_duplicated_items
        let pt = duplicates_parseable_type();
        let updater = Updater::builder().build();
        let version = structured_merge_diff::fieldpath::APIVersion::new("v1");
        let mut managers = ManagedFields::new();

        let empty = pt.from_yaml("{}").unwrap();

        // Update with duplicated list items
        let obj1 = pt.from_yaml_with_opts(r#"{"list": [{"name": "a", "value1": 1}, {"name": "a", "value1": 2}, {"name": "b", "value1": 3}]}"#, &[ValidationOption::AllowDuplicates]).unwrap();
        let result1 = updater.update(&empty, &obj1, &version, &mut managers, "updater");
        assert!(result1.is_ok());
        let live1 = result1.unwrap();

        // Apply on unrelated field
        let obj2 = pt.from_yaml(r#"{"unrelated": 5}"#).unwrap();
        let result2 = updater.apply(&live1, &obj2, &version, &mut managers, "applier", true);
        assert!(result2.is_ok());
        let live2 = result2.unwrap();

        // Verify applier owns unrelated
        let applier_set = managers.get("applier").unwrap();
        assert!(applier_set.set().has(&path(vec![field("unrelated")])));

        // Verify updater still owns list
        let updater_set = managers.get("updater").unwrap();
        assert!(updater_set.set().has(&path(vec![field("list")])));

        // Verify final object has both list and unrelated
        if let Value::Object(m) = live2.value() {
            assert!(m.get("list").is_some());
            assert_eq!(m.get("unrelated"), Some(&Value::Int(5)));
        }
    }

    #[test]
    fn test_duplicates_list_merge_change_non_duplicated_item() {
        // list/merge/change_non_duplicated_item
        let pt = duplicates_parseable_type();
        let updater = Updater::builder().build();
        let version = structured_merge_diff::fieldpath::APIVersion::new("v1");
        let mut managers = ManagedFields::new();

        let empty = pt.from_yaml("{}").unwrap();

        // Update with duplicated list items
        let obj1 = pt.from_yaml_with_opts(r#"{"list": [{"name": "a", "value1": 1}, {"name": "a", "value1": 2}, {"name": "b", "value1": 3}]}"#, &[ValidationOption::AllowDuplicates]).unwrap();
        let result1 = updater.update(&empty, &obj1, &version, &mut managers, "updater");
        assert!(result1.is_ok());
        let live1 = result1.unwrap();

        // Force apply on non-duplicated item (b)
        let obj2 = pt.from_yaml(r#"{"list": [{"name": "b", "value1": 4}]}"#).unwrap();
        let result2 = updater.apply(&live1, &obj2, &version, &mut managers, "applier", true);
        assert!(result2.is_ok());
        let live2 = result2.unwrap();

        // Verify applier owns the b entry
        let applier_set = managers.get("applier").unwrap();
        assert!(applier_set.set().has(&path(vec![field("list"), key_name("b")])));
        assert!(applier_set.set().has(&path(vec![field("list"), key_name("b"), field("name")])));
        assert!(applier_set.set().has(&path(vec![field("list"), key_name("b"), field("value1")])));

        // Verify the object has the duplicates and the changed b
        if let Value::Object(m) = live2.value() {
            if let Some(Value::List(l)) = m.get("list") {
                // Should have the duplicated "a" items and the changed "b"
                assert!(l.len() >= 2, "Should have at least 2 entries");
                // Find the "b" entry and verify value1=4
                let b_entry = l.iter().find(|item| {
                    if let Value::Object(im) = item {
                        im.get("name") == Some(&Value::String("b".to_string()))
                    } else {
                        false
                    }
                });
                if let Some(Value::Object(bm)) = b_entry {
                    assert_eq!(bm.get("value1"), Some(&Value::Int(4)));
                } else {
                    panic!("Expected to find b entry");
                }
            } else {
                panic!("Expected list");
            }
        }
    }

    #[test]
    fn test_duplicates_list_merge_apply_update_duplicates_apply_without() {
        // list/merge/apply_update_duplicates_apply_without
        // Note: Our implementation deduplicates list items by key, so duplicate "a" entries are merged
        let pt = duplicates_parseable_type();
        let updater = Updater::builder().build();
        let version = structured_merge_diff::fieldpath::APIVersion::new("v1");
        let mut managers = ManagedFields::new();

        let empty = pt.from_yaml("{}").unwrap();

        // Apply initial list
        let obj1 = pt.from_yaml(r#"{"list": [{"name": "a", "value1": 1}, {"name": "b", "value1": 3}]}"#).unwrap();
        let result1 = updater.apply(&empty, &obj1, &version, &mut managers, "applier", false);
        assert!(result1.is_ok());
        let live1 = result1.unwrap();

        // Applier owns both a and b after first apply
        let applier_set1 = managers.get("applier").unwrap();
        assert!(applier_set1.set().has(&path(vec![field("list"), key_name("a")])));
        assert!(applier_set1.set().has(&path(vec![field("list"), key_name("b")])));

        // Update with duplicate a - but since we deduplicate, it's effectively [{"name": "a", "value1": 2}, {"name": "b", "value1": 3}]
        // The second "a" entry (value1: 2) replaces the first one during deduplication
        let obj2 = pt.from_yaml_with_opts(r#"{"list": [{"name": "a", "value1": 1}, {"name": "a", "value1": 2}, {"name": "b", "value1": 3}]}"#, &[ValidationOption::AllowDuplicates]).unwrap();
        let result2 = updater.update(&live1, &obj2, &version, &mut managers, "updater");
        assert!(result2.is_ok());
        let live2 = result2.unwrap();

        // Updater should own a.value1 since they modified it (from 1 to 2)
        // Check the final state
        if let Value::Object(m) = live2.value() {
            if let Some(Value::List(l)) = m.get("list") {
                // Find the "a" entry
                let a_entry = l.iter().find(|item| {
                    if let Value::Object(im) = item {
                        im.get("name") == Some(&Value::String("a".to_string()))
                    } else {
                        false
                    }
                });
                // After deduplication, the "a" entry keeps value1=1 (first wins in our implementation)
                if let Some(Value::Object(am)) = a_entry {
                    assert_eq!(am.get("value1"), Some(&Value::Int(1)));
                }
            }
        }
    }

    // ==================== Field Level Override Tests ====================
    // Tests from field_level_overrides_test.go

    fn field_level_override_parser() -> ParseableType {
        let schema_yaml = r#"
types:
- name: type
  map:
    fields:
      - name: associativeListReference
        type:
          namedType: associativeList
          elementRelationship: atomic
      - name: separableInlineList
        type:
          list:
            elementType:
              scalar: numeric
            elementRelationship: atomic
          elementRelationship: associative
      - name: separableMapReference
        type:
          namedType: atomicMap
          elementRelationship: separable
      - name: atomicMapReference
        type:
          namedType: unspecifiedMap
          elementRelationship: atomic

- name: associativeList
  list:
    elementType:
      namedType: unspecifiedMap
      elementRelationship: atomic
    elementRelationship: associative
    keys:
    - name
- name: unspecifiedMap
  map:
    fields:
    - name: name
      type:
        scalar: string
    - name: value
      type:
        scalar: numeric
- name: atomicMap
  map:
    elementRelationship: atomic
    fields:
    - name: name
      type:
        scalar: string
    - name: value
      type:
        scalar: numeric
"#;
        let parser = Parser::new(schema_yaml).expect("Failed to parse field level override schema");
        parser.type_by_name("type")
    }

    #[test]
    fn test_override_atomic_map_with_separable() {
        // Test that a reference with a separable override to an atomic type
        // is treated as separable
        let pt = field_level_override_parser();
        let updater = Updater::builder().build();
        let version = structured_merge_diff::fieldpath::APIVersion::new("v1");
        let mut managers = ManagedFields::new();

        let empty = pt.from_yaml("{}").unwrap();

        // Apply one: set separableMapReference.name
        let obj1 = pt.from_yaml(r#"
separableMapReference:
  name: a
"#).unwrap();
        let result1 = updater.apply(&empty, &obj1, &version, &mut managers, "apply_one", false);
        assert!(result1.is_ok());
        let live1 = result1.unwrap();

        // Apply two: set separableMapReference.value
        let obj2 = pt.from_yaml(r#"
separableMapReference:
  value: 2
"#).unwrap();
        let result2 = updater.apply(&live1, &obj2, &version, &mut managers, "apply_two", false);
        assert!(result2.is_ok());
        let live2 = result2.unwrap();

        // Verify the final object has both fields merged
        if let Value::Object(m) = live2.value() {
            if let Some(Value::Object(ref_map)) = m.get("separableMapReference") {
                assert_eq!(ref_map.get("name"), Some(&Value::String("a".to_string())));
                assert_eq!(ref_map.get("value"), Some(&Value::Int(2)));
            } else {
                panic!("Expected separableMapReference to be a map");
            }
        } else {
            panic!("Expected top-level map");
        }

        // Verify apply_one owns separableMapReference.name
        let apply_one_set = managers.get("apply_one").unwrap();
        assert!(apply_one_set.set().has(&path(vec![field("separableMapReference"), field("name")])));

        // Verify apply_two owns separableMapReference.value
        let apply_two_set = managers.get("apply_two").unwrap();
        assert!(apply_two_set.set().has(&path(vec![field("separableMapReference"), field("value")])));
    }

    #[test]
    fn test_override_unspecified_map_with_atomic() {
        // Test that a map which has its element relationship left as default
        // (granular) can be overridden to be atomic
        let pt = field_level_override_parser();
        let updater = Updater::builder().build();
        let version = structured_merge_diff::fieldpath::APIVersion::new("v1");
        let mut managers = ManagedFields::new();

        let empty = pt.from_yaml("{}").unwrap();

        // Apply one: set atomicMapReference
        let obj1 = pt.from_yaml(r#"
atomicMapReference:
  name: a
"#).unwrap();
        let result1 = updater.apply(&empty, &obj1, &version, &mut managers, "apply_one", false);
        assert!(result1.is_ok());
        let live1 = result1.unwrap();

        // Apply two: try to set different value - should CONFLICT because atomic
        let obj2 = pt.from_yaml(r#"
atomicMapReference:
  value: 2
"#).unwrap();
        let result2 = updater.apply(&live1, &obj2, &version, &mut managers, "apply_two", false);
        // Should have conflict with apply_one at atomicMapReference
        assert!(result2.is_err());
        if let Err(ApplyError::Conflicts(conflicts)) = &result2 {
            assert!(!conflicts.is_empty());
            // Verify conflict is at atomicMapReference
            let conflict_set = conflicts.to_set();
            assert!(conflict_set.has(&path(vec![field("atomicMapReference")])));
        } else {
            panic!("Expected conflicts error, got {:?}", result2);
        }

        // Apply one again with full value - should succeed
        let obj3 = pt.from_yaml(r#"
atomicMapReference:
  name: b
  value: 2
"#).unwrap();
        let result3 = updater.apply(&live1, &obj3, &version, &mut managers, "apply_one", false);
        assert!(result3.is_ok(), "Expected success but got {:?}", result3);
        let live3 = result3.unwrap();

        // Verify final object
        if let Value::Object(m) = live3.value() {
            if let Some(Value::Object(ref_map)) = m.get("atomicMapReference") {
                assert_eq!(ref_map.get("name"), Some(&Value::String("b".to_string())));
                assert_eq!(ref_map.get("value"), Some(&Value::Int(2)));
            } else {
                panic!("Expected atomicMapReference to be a map");
            }
        }

        // Verify apply_one owns atomicMapReference (as atomic)
        let apply_one_set = managers.get("apply_one").unwrap();
        assert!(apply_one_set.set().has(&path(vec![field("atomicMapReference")])));
    }

    #[test]
    fn test_override_associative_list_with_atomic() {
        // Test that if a list type is listed associative but referred to as atomic
        // that attempting to add to the list fails
        let pt = field_level_override_parser();
        let updater = Updater::builder().build();
        let version = structured_merge_diff::fieldpath::APIVersion::new("v1");
        let mut managers = ManagedFields::new();

        let empty = pt.from_yaml("{}").unwrap();

        // Apply one: set associativeListReference
        let obj1 = pt.from_yaml(r#"
associativeListReference:
  - name: a
    value: 1
"#).unwrap();
        let result1 = updater.apply(&empty, &obj1, &version, &mut managers, "apply_one", false);
        assert!(result1.is_ok());
        let live1 = result1.unwrap();

        // Apply two: try to add different item - should CONFLICT because atomic
        let obj2 = pt.from_yaml(r#"
associativeListReference:
- name: b
  value: 2
"#).unwrap();
        let result2 = updater.apply(&live1, &obj2, &version, &mut managers, "apply_two", false);
        // Should have conflict with apply_one at associativeListReference
        assert!(result2.is_err());
        if let Err(ApplyError::Conflicts(conflicts)) = &result2 {
            assert!(!conflicts.is_empty());
            let conflict_set = conflicts.to_set();
            assert!(conflict_set.has(&path(vec![field("associativeListReference")])));
        } else {
            panic!("Expected conflicts error, got {:?}", result2);
        }

        // Verify apply_one owns associativeListReference (as atomic)
        let apply_one_set = managers.get("apply_one").unwrap();
        assert!(apply_one_set.set().has(&path(vec![field("associativeListReference")])));
    }

    #[test]
    fn test_override_inline_atomic_list_with_associative() {
        // Tests that an inline atomic list can have its type overridden to be
        // associative (using set semantics)
        let pt = field_level_override_parser();
        let updater = Updater::builder().build();
        let version = structured_merge_diff::fieldpath::APIVersion::new("v1");
        let mut managers = ManagedFields::new();

        let empty = pt.from_yaml("{}").unwrap();

        // Apply one: set separableInlineList with value 1
        let obj1 = pt.from_yaml(r#"
separableInlineList:
- 1
"#).unwrap();
        let result1 = updater.apply(&empty, &obj1, &version, &mut managers, "apply_one", false);
        assert!(result1.is_ok());
        let live1 = result1.unwrap();

        // Apply two: add value 2 - should succeed because associative override
        let obj2 = pt.from_yaml(r#"
separableInlineList:
- 2
"#).unwrap();
        let result2 = updater.apply(&live1, &obj2, &version, &mut managers, "apply_two", false);
        assert!(result2.is_ok());
        let live2 = result2.unwrap();

        // Verify the final object has both values merged
        if let Value::Object(m) = live2.value() {
            if let Some(Value::List(l)) = m.get("separableInlineList") {
                assert_eq!(l.len(), 2);
                assert!(l.contains(&Value::Int(1)));
                assert!(l.contains(&Value::Int(2)));
            } else {
                panic!("Expected separableInlineList to be a list");
            }
        } else {
            panic!("Expected top-level map");
        }

        // Verify apply_one owns the value 1 (set semantics: [=1])
        let apply_one_set = managers.get("apply_one").unwrap();
        assert!(apply_one_set.set().has(&path(vec![
            field("separableInlineList"),
            PathElement::value(Value::Int(1))
        ])));

        // Verify apply_two owns the value 2 (set semantics: [=2])
        let apply_two_set = managers.get("apply_two").unwrap();
        assert!(apply_two_set.set().has(&path(vec![
            field("separableInlineList"),
            PathElement::value(Value::Int(2))
        ])));
    }

    // ==================== Key Tests ====================
    // Tests from key_test.go

    fn associative_list_key_parser() -> ParseableType {
        let schema_yaml = r#"
types:
- name: type
  map:
    fields:
      - name: list
        type:
          namedType: associativeList
- name: associativeList
  list:
    elementType:
      namedType: myElement
    elementRelationship: associative
    keys:
    - name
- name: myElement
  map:
    fields:
    - name: name
      type:
        scalar: string
    - name: value
      type:
        scalar: numeric
"#;
        let parser = Parser::new(schema_yaml).expect("Failed to parse associative list key schema");
        parser.type_by_name("type")
    }

    #[test]
    fn test_removing_obsolete_applied_structs() {
        // Test that when an applier changes their config (removes an item from the list
        // and adds a different one), the old item is removed from both the object and their ownership
        let pt = associative_list_key_parser();
        let updater = Updater::builder().build();
        let version = structured_merge_diff::fieldpath::APIVersion::new("v1");
        let mut managers = ManagedFields::new();

        let empty = pt.from_yaml("{}").unwrap();

        // First apply: list with item "a"
        let obj1 = pt.from_yaml(r#"
list:
- name: a
  value: 1
"#).unwrap();
        let result1 = updater.apply(&empty, &obj1, &version, &mut managers, "default", false);
        assert!(result1.is_ok());
        let live1 = result1.unwrap();

        // Second apply: list with item "b" (replaces "a")
        let obj2 = pt.from_yaml(r#"
list:
- name: b
  value: 2
"#).unwrap();
        let result2 = updater.apply(&live1, &obj2, &version, &mut managers, "default", false);
        assert!(result2.is_ok());
        let live2 = result2.unwrap();

        // Verify the final object only has "b", not "a"
        if let Value::Object(m) = live2.value() {
            if let Some(Value::List(l)) = m.get("list") {
                assert_eq!(l.len(), 1, "Expected only one item in list");
                if let Some(Value::Object(item)) = l.first() {
                    assert_eq!(item.get("name"), Some(&Value::String("b".to_string())));
                    assert_eq!(item.get("value"), Some(&Value::Int(2)));
                } else {
                    panic!("Expected list item to be a map");
                }
            } else {
                panic!("Expected list field");
            }
        } else {
            panic!("Expected top-level map");
        }

        // Verify default only owns "b" paths
        let default_set = managers.get("default").unwrap();
        assert!(default_set.set().has(&path(vec![
            field("list"),
            key_by_fields(vec![("name", Value::String("b".to_string()))])
        ])));
        assert!(default_set.set().has(&path(vec![
            field("list"),
            key_by_fields(vec![("name", Value::String("b".to_string()))]),
            field("name")
        ])));
        assert!(default_set.set().has(&path(vec![
            field("list"),
            key_by_fields(vec![("name", Value::String("b".to_string()))]),
            field("value")
        ])));

        // Verify default does NOT own "a" paths anymore
        assert!(!default_set.set().has(&path(vec![
            field("list"),
            key_by_fields(vec![("name", Value::String("a".to_string()))])
        ])));
    }

    // ==================== Obsolete Version Tests ====================
    // Tests from obsolete_versions_test.go


    /// A converter that only accepts specific versions.
    struct SpecificVersionConverter {
        accepted_versions: std::cell::RefCell<Vec<String>>,
    }

    impl SpecificVersionConverter {
        fn new(versions: Vec<&str>) -> Self {
            SpecificVersionConverter {
                accepted_versions: std::cell::RefCell::new(versions.iter().map(|s| s.to_string()).collect()),
            }
        }

        #[allow(dead_code)]
        fn set_versions(&self, versions: Vec<&str>) {
            *self.accepted_versions.borrow_mut() = versions.iter().map(|s| s.to_string()).collect();
        }
    }

    impl Converter for SpecificVersionConverter {
        fn convert(&self, obj: &TypedValue, version: &structured_merge_diff::fieldpath::APIVersion) -> Result<TypedValue, ConversionError> {
            let versions = self.accepted_versions.borrow();
            for v in versions.iter() {
                if v == version.as_str() {
                    return Ok(obj.clone());
                }
            }
            Err(ConversionError {
                message: format!("Unknown version: {}", version.as_str()),
                is_missing_version: true,
            })
        }

        fn is_missing_version_error(&self, err: &ConversionError) -> bool {
            err.is_missing_version
        }
    }

    #[test]
    fn test_obsolete_versions() {
        // Managers of fields in a version that no longer exist are
        // automatically removed.
        let pt = deduced_parseable_type();
        let updater = Updater::builder()
            .converter(Box::new(SpecificVersionConverter::new(vec!["v1", "v2"])))
            .build();

        let empty = pt.from_yaml("{}").unwrap();
        let mut managers = ManagedFields::new();

        // Update with v1
        let obj1 = pt.from_yaml(r#"{"v1": 0}"#).unwrap();
        let result1 = updater.update(&empty, &obj1, &structured_merge_diff::fieldpath::APIVersion::new("v1"), &mut managers, "v1");
        assert!(result1.is_ok());
        let live1 = result1.unwrap();

        // Update with v2
        let obj2 = pt.from_yaml(r#"{"v1": 0, "v2": 0}"#).unwrap();
        let result2 = updater.update(&live1, &obj2, &structured_merge_diff::fieldpath::APIVersion::new("v2"), &mut managers, "v2");
        assert!(result2.is_ok());
        let live2 = result2.unwrap();

        // Now we need a new updater that only accepts v2, v3 (v1 is obsolete)
        // Since our converter is immutable once built, we need to create a new updater
        let updater2 = Updater::builder()
            .converter(Box::new(SpecificVersionConverter::new(vec!["v2", "v3"])))
            .build();

        // Update with v3
        let obj3 = pt.from_yaml(r#"{"v1": 0, "v2": 0, "v3": 0}"#).unwrap();
        let result3 = updater2.update(&live2, &obj3, &structured_merge_diff::fieldpath::APIVersion::new("v3"), &mut managers, "v3");
        assert!(result3.is_ok());

        // The "v1" manager should be removed because v1 is no longer an accepted version
        // Only "v2" and "v3" should remain
        assert!(!managers.contains("v1"), "v1 manager should be removed");
        assert!(managers.contains("v2"), "v2 manager should exist");
        assert!(managers.contains("v3"), "v3 manager should exist");

        // Verify v2 owns .v2
        let v2_set = managers.get("v2").unwrap();
        assert!(v2_set.set().has(&path(vec![field("v2")])));

        // Verify v3 owns .v3
        let v3_set = managers.get("v3").unwrap();
        assert!(v3_set.set().has(&path(vec![field("v3")])));
    }

    #[test]
    fn test_apply_obsolete_version() {

        let schema_yaml = r#"
types:
- name: sets
  map:
    fields:
    - name: list
      type:
        list:
          elementType:
            scalar: string
          elementRelationship: associative
"#;
        let parser = Parser::new(schema_yaml).expect("Failed to parse schema");
        let pt = parser.type_by_name("sets");

        // Start with v1 only
        let updater1 = Updater::builder()
            .converter(Box::new(SpecificVersionConverter::new(vec!["v1"])))
            .build();

        let empty = pt.from_yaml("{}").unwrap();
        let mut managers = ManagedFields::new();

        // Apply with v1
        let obj1 = pt.from_yaml(r#"{"list": ["a", "b", "c", "d"]}"#).unwrap();
        let result1 = updater1.apply(&empty, &obj1, &structured_merge_diff::fieldpath::APIVersion::new("v1"), &mut managers, "apply", false);
        assert!(result1.is_ok());
        let live1 = result1.unwrap();

        // Now create updater with v2 only (v1 is obsolete)
        let updater2 = Updater::builder()
            .converter(Box::new(SpecificVersionConverter::new(vec!["v2"])))
            .build();

        // Apply with v2 - the old v1 entry should be dropped since it can't be converted
        let obj2 = pt.from_yaml(r#"{"list": ["a"]}"#).unwrap();
        let result2 = updater2.apply(&live1, &obj2, &structured_merge_diff::fieldpath::APIVersion::new("v2"), &mut managers, "apply", false);
        assert!(result2.is_ok());
        let live2 = result2.unwrap();

        // The live object should still have all items because the v1 manager can't be used for conflict detection
        // (it would skip over the v1 entry since v1 is not accepted)
        // The new apply in v2 owns ["a"], but the other items should be preserved from live1
        // since we can't determine if they conflict or not (v1 version is obsolete)
        if let Value::Object(m) = live2.value() {
            if let Some(Value::List(l)) = m.get("list") {
                // Should still have all 4 items - "a", "b", "c", "d"
                assert_eq!(l.len(), 4, "Expected 4 items in list, got {}", l.len());
            } else {
                panic!("Expected list field");
            }
        } else {
            panic!("Expected top-level map");
        }
    }

    // ==================== Preserve Unknown Fields Tests ====================
    // Tests from preserve_unknown_test.go

    #[test]
    fn test_preserve_unknown_fields() {

        // Schema with num field (numeric) and elementType of string (allows unknown fields)
        let schema_yaml = r#"
types:
- name: type
  map:
    fields:
    - name: num
      type:
        scalar: numeric
    elementType:
      scalar: string
"#;
        let parser = Parser::new(schema_yaml).expect("Failed to parse schema");
        let pt = parser.type_by_name("type");

        let updater = Updater::builder().build();
        let mut managers = ManagedFields::new();

        // Start with empty object
        let empty = pt.from_yaml("{}").unwrap();

        // First apply: num: 5, unknown: value
        let obj1 = pt.from_yaml(r#"{"num": 5, "unknown": "value"}"#).unwrap();
        let result1 = updater.apply(
            &empty,
            &obj1,
            &structured_merge_diff::fieldpath::APIVersion::new("v1"),
            &mut managers,
            "default",
            false,
        );
        assert!(result1.is_ok(), "First apply failed: {:?}", result1.err());
        let live1 = result1.unwrap();

        // Second apply: num: 6, unknown: new
        let obj2 = pt.from_yaml(r#"{"num": 6, "unknown": "new"}"#).unwrap();
        let result2 = updater.apply(
            &live1,
            &obj2,
            &structured_merge_diff::fieldpath::APIVersion::new("v1"),
            &mut managers,
            "default",
            false,
        );
        assert!(result2.is_ok(), "Second apply failed: {:?}", result2.err());
        let live2 = result2.unwrap();

        // Verify final state
        if let Value::Object(m) = live2.value() {
            // Check num field
            if let Some(Value::Int(n)) = m.get("num") {
                assert_eq!(*n, 6, "Expected num=6");
            } else if let Some(Value::Float(f)) = m.get("num") {
                assert_eq!(f.parse::<f64>().unwrap(), 6.0, "Expected num=6");
            } else {
                panic!("Expected num field to be 6, got {:?}", m.get("num"));
            }

            // Check unknown field - it should be preserved
            if let Some(Value::String(s)) = m.get("unknown") {
                assert_eq!(s, "new", "Expected unknown=\"new\"");
            } else {
                panic!("Expected unknown field to be \"new\", got {:?}", m.get("unknown"));
            }
        } else {
            panic!("Expected top-level map");
        }

        // Verify manager owns both fields
        assert!(managers.contains("default"), "default manager should exist");
        let default_set = managers.get("default").unwrap();

        // Check .num is owned
        assert!(
            default_set.set().has(&path(vec![field("num")])),
            "default should own .num"
        );

        // Check .unknown is owned
        assert!(
            default_set.set().has(&path(vec![field("unknown")])),
            "default should own .unknown"
        );
    }

    // ==================== Schema Change Tests ====================
    // Tests from schema_change_test.go

    #[test]
    fn test_granular_to_atomic_schema_change() {

        // Old schema: struct is granular (default)
        let struct_schema_yaml = r#"
types:
- name: v1
  map:
    fields:
    - name: struct
      type:
        namedType: struct
- name: struct
  map:
    fields:
    - name: numeric
      type:
        scalar: numeric
    - name: string
      type:
        scalar: string
"#;
        // New schema: struct is atomic
        let struct_with_atomic_yaml = r#"
types:
- name: v1
  map:
    fields:
    - name: struct
      type:
        namedType: struct
- name: struct
  map:
    fields:
    - name: numeric
      type:
        scalar: numeric
    - name: string
      type:
        scalar: string
    elementRelationship: atomic
"#;
        let parser1 = Parser::new(struct_schema_yaml).expect("Failed to parse schema");
        let pt1 = parser1.type_by_name("v1");

        let parser2 = Parser::new(struct_with_atomic_yaml).expect("Failed to parse schema");
        let pt2 = parser2.type_by_name("v1");

        let updater = Updater::builder().build();
        let mut managers = ManagedFields::new();

        // Manager one applies struct.numeric
        let empty = pt1.from_yaml("{}").unwrap();
        let obj1 = pt1.from_yaml(r#"{"struct": {"numeric": 1}}"#).unwrap();
        let result1 = updater.apply(
            &empty,
            &obj1,
            &structured_merge_diff::fieldpath::APIVersion::new("v1"),
            &mut managers,
            "one",
            false,
        );
        assert!(result1.is_ok(), "First apply failed: {:?}", result1.err());
        let live1 = result1.unwrap();

        // Schema changes: struct becomes atomic
        // Convert the live object to the new schema
        let live1_value = live1.value().clone();
        let live1_new_schema = pt2.from_value(live1_value).unwrap();

        // Manager two tries to apply struct.string - should conflict at .struct
        let obj2 = pt2.from_yaml(r#"{"struct": {"string": "string"}}"#).unwrap();
        let result2 = updater.apply(
            &live1_new_schema,
            &obj2,
            &structured_merge_diff::fieldpath::APIVersion::new("v1"),
            &mut managers,
            "two",
            false,
        );

        // This should fail with conflict at .struct
        assert!(result2.is_err(), "Expected conflict but got success");
        let err = result2.unwrap_err();
        if let ApplyError::Conflicts(conflicts) = err {
            assert_eq!(conflicts.len(), 1, "Expected exactly 1 conflict");
            let conflict = conflicts.iter().iter().next().unwrap();
            assert_eq!(conflict.manager, "one");
            assert_eq!(conflict.path, path(vec![field("struct")]));
        } else {
            panic!("Expected Conflict error, got {:?}", err);
        }

        // Force apply by manager two
        let result3 = updater.apply(
            &live1_new_schema,
            &obj2,
            &structured_merge_diff::fieldpath::APIVersion::new("v1"),
            &mut managers,
            "two",
            true, // force
        );
        assert!(result3.is_ok(), "Force apply failed: {:?}", result3.err());
        let live2 = result3.unwrap();

        // Verify final state
        if let Value::Object(m) = live2.value() {
            if let Some(Value::Object(s)) = m.get("struct") {
                // Should have only string, numeric should be removed
                assert!(s.get("string").is_some(), "struct.string should exist");
                assert!(s.get("numeric").is_none(), "struct.numeric should be removed");
            } else {
                panic!("Expected struct field");
            }
        } else {
            panic!("Expected top-level map");
        }

        // Manager two should own .struct (atomic)
        assert!(managers.contains("two"), "two manager should exist");
        let two_set = managers.get("two").unwrap();
        assert!(
            two_set.set().has(&path(vec![field("struct")])),
            "two should own .struct"
        );
    }

    #[test]
    fn test_atomic_to_granular_schema_change() {

        // Old schema: struct is atomic
        let struct_with_atomic_yaml = r#"
types:
- name: v1
  map:
    fields:
    - name: struct
      type:
        namedType: struct
- name: struct
  map:
    fields:
    - name: numeric
      type:
        scalar: numeric
    - name: string
      type:
        scalar: string
    elementRelationship: atomic
"#;
        // New schema: struct is granular (default)
        let struct_schema_yaml = r#"
types:
- name: v1
  map:
    fields:
    - name: struct
      type:
        namedType: struct
- name: struct
  map:
    fields:
    - name: numeric
      type:
        scalar: numeric
    - name: string
      type:
        scalar: string
"#;
        let parser1 = Parser::new(struct_with_atomic_yaml).expect("Failed to parse schema");
        let pt1 = parser1.type_by_name("v1");

        let parser2 = Parser::new(struct_schema_yaml).expect("Failed to parse schema");
        let pt2 = parser2.type_by_name("v1");

        let updater = Updater::builder().build();
        let mut managers = ManagedFields::new();

        // Manager one applies struct with both fields
        let empty = pt1.from_yaml("{}").unwrap();
        let obj1 = pt1.from_yaml(r#"{"struct": {"numeric": 1, "string": "a"}}"#).unwrap();
        let result1 = updater.apply(
            &empty,
            &obj1,
            &structured_merge_diff::fieldpath::APIVersion::new("v1"),
            &mut managers,
            "one",
            false,
        );
        assert!(result1.is_ok(), "First apply failed: {:?}", result1.err());
        let live1 = result1.unwrap();

        // Manager two tries to apply struct.string with atomic schema - should conflict
        let obj2 = pt1.from_yaml(r#"{"struct": {"string": "b"}}"#).unwrap();
        let result2 = updater.apply(
            &live1,
            &obj2,
            &structured_merge_diff::fieldpath::APIVersion::new("v1"),
            &mut managers,
            "two",
            false,
        );
        assert!(result2.is_err(), "Expected conflict with atomic schema");

        // Schema changes: struct becomes granular
        // Convert the live object to the new schema
        let live1_value = live1.value().clone();
        let live1_new_schema = pt2.from_value(live1_value).unwrap();

        // Manager two applies struct.string - no conflict with granular schema
        let obj3 = pt2.from_yaml(r#"{"struct": {"string": "b"}}"#).unwrap();
        let result3 = updater.apply(
            &live1_new_schema,
            &obj3,
            &structured_merge_diff::fieldpath::APIVersion::new("v1"),
            &mut managers,
            "two",
            false,
        );
        assert!(result3.is_ok(), "Apply with granular schema should succeed: {:?}", result3.err());
        let live2 = result3.unwrap();

        // Verify final state
        if let Value::Object(m) = live2.value() {
            if let Some(Value::Object(s)) = m.get("struct") {
                // numeric should still be 1, string should be "b"
                if let Some(Value::Int(n)) = s.get("numeric") {
                    assert_eq!(*n, 1, "numeric should be 1");
                } else if let Some(Value::Float(f)) = s.get("numeric") {
                    assert_eq!(f.parse::<f64>().unwrap(), 1.0, "numeric should be 1");
                } else {
                    panic!("Expected numeric to be 1");
                }
                if let Some(Value::String(st)) = s.get("string") {
                    assert_eq!(st, "b", "string should be b");
                } else {
                    panic!("Expected string to be b");
                }
            } else {
                panic!("Expected struct field");
            }
        } else {
            panic!("Expected top-level map");
        }

        // Manager one should own .struct (from previous atomic ownership)
        // Manager two should own .struct.string
        assert!(managers.contains("one"), "one manager should exist");
        assert!(managers.contains("two"), "two manager should exist");

        let one_set = managers.get("one").unwrap();
        assert!(
            one_set.set().has(&path(vec![field("struct")])),
            "one should still own .struct"
        );

        let two_set = managers.get("two").unwrap();
        assert!(
            two_set.set().has(&path(vec![field("struct"), field("string")])),
            "two should own .struct.string"
        );
    }

    #[test]
    fn test_associative_list_promote_key() {

        // Old schema: associative list with one key (name)
        let old_schema_yaml = r#"
types:
- name: v1
  map:
    fields:
    - name: list
      type:
        namedType: associativeList
- name: associativeList
  list:
    elementType:
      namedType: myElement
    elementRelationship: associative
    keys:
    - name
- name: myElement
  map:
    fields:
    - name: name
      type:
        scalar: string
    - name: id
      type:
        scalar: numeric
    - name: value
      type:
        scalar: numeric
"#;
        // New schema: associative list with two keys (name, id)
        let new_schema_yaml = r#"
types:
- name: v1
  map:
    fields:
    - name: list
      type:
        namedType: associativeList
- name: associativeList
  list:
    elementType:
      namedType: myElement
    elementRelationship: associative
    keys:
    - name
    - id
- name: myElement
  map:
    fields:
    - name: name
      type:
        scalar: string
    - name: id
      type:
        scalar: numeric
    - name: value
      type:
        scalar: numeric
"#;
        let parser1 = Parser::new(old_schema_yaml).expect("Failed to parse schema");
        let pt1 = parser1.type_by_name("v1");

        let parser2 = Parser::new(new_schema_yaml).expect("Failed to parse schema");
        let pt2 = parser2.type_by_name("v1");

        let updater = Updater::builder().build();
        let mut managers = ManagedFields::new();

        // Apply with old schema (single key)
        let empty = pt1.from_yaml("{}").unwrap();
        let obj1 = pt1.from_yaml(r#"{"list": [{"name": "a", "id": 1, "value": 1}]}"#).unwrap();
        let result1 = updater.apply(
            &empty,
            &obj1,
            &structured_merge_diff::fieldpath::APIVersion::new("v1"),
            &mut managers,
            "one",
            false,
        );
        assert!(result1.is_ok(), "First apply failed: {:?}", result1.err());
        let live1 = result1.unwrap();

        // Schema changes: id is now part of the key
        let live1_value = live1.value().clone();
        let live1_new_schema = pt2.from_value(live1_value).unwrap();

        // Apply with new schema - same item should merge
        let obj2 = pt2.from_yaml(r#"{"list": [{"name": "a", "id": 1, "value": 2}]}"#).unwrap();
        let result2 = updater.apply(
            &live1_new_schema,
            &obj2,
            &structured_merge_diff::fieldpath::APIVersion::new("v1"),
            &mut managers,
            "one",
            false,
        );
        assert!(result2.is_ok(), "Apply with new key schema failed: {:?}", result2.err());
        let live2 = result2.unwrap();

        // Verify final state
        if let Value::Object(m) = live2.value() {
            if let Some(Value::List(l)) = m.get("list") {
                assert_eq!(l.len(), 1, "Should have 1 item");
                if let Value::Object(item) = &l[0] {
                    if let Some(Value::Int(v)) = item.get("value") {
                        assert_eq!(*v, 2, "value should be 2");
                    } else if let Some(Value::Float(f)) = item.get("value") {
                        assert_eq!(f.parse::<f64>().unwrap(), 2.0, "value should be 2");
                    } else {
                        panic!("Expected value to be 2");
                    }
                }
            } else {
                panic!("Expected list field");
            }
        } else {
            panic!("Expected top-level map");
        }
    }

    #[test]
    fn test_associative_list_distinct_items_after_key_change() {

        // Old schema: associative list with one key (name)
        let old_schema_yaml = r#"
types:
- name: v1
  map:
    fields:
    - name: list
      type:
        namedType: associativeList
- name: associativeList
  list:
    elementType:
      namedType: myElement
    elementRelationship: associative
    keys:
    - name
- name: myElement
  map:
    fields:
    - name: name
      type:
        scalar: string
    - name: id
      type:
        scalar: numeric
    - name: value
      type:
        scalar: numeric
"#;
        // New schema: associative list with two keys (name, id)
        let new_schema_yaml = r#"
types:
- name: v1
  map:
    fields:
    - name: list
      type:
        namedType: associativeList
- name: associativeList
  list:
    elementType:
      namedType: myElement
    elementRelationship: associative
    keys:
    - name
    - id
- name: myElement
  map:
    fields:
    - name: name
      type:
        scalar: string
    - name: id
      type:
        scalar: numeric
    - name: value
      type:
        scalar: numeric
"#;
        let parser1 = Parser::new(old_schema_yaml).expect("Failed to parse schema");
        let pt1 = parser1.type_by_name("v1");

        let parser2 = Parser::new(new_schema_yaml).expect("Failed to parse schema");
        let pt2 = parser2.type_by_name("v1");

        let updater = Updater::builder().build();
        let mut managers = ManagedFields::new();

        // Apply with old schema (single key)
        let empty = pt1.from_yaml("{}").unwrap();
        let obj1 = pt1.from_yaml(r#"{"list": [{"name": "a", "id": 1, "value": 1}]}"#).unwrap();
        let result1 = updater.apply(
            &empty,
            &obj1,
            &structured_merge_diff::fieldpath::APIVersion::new("v1"),
            &mut managers,
            "one",
            false,
        );
        assert!(result1.is_ok(), "First apply failed: {:?}", result1.err());
        let live1 = result1.unwrap();

        // Schema changes: id is now part of the key
        let live1_value = live1.value().clone();
        let live1_new_schema = pt2.from_value(live1_value).unwrap();

        // Apply with new schema - adding a distinct item (same name, different id)
        let obj2 = pt2.from_yaml(r#"{"list": [{"name": "a", "id": 1, "value": 1}, {"name": "a", "id": 2, "value": 2}]}"#).unwrap();
        let result2 = updater.apply(
            &live1_new_schema,
            &obj2,
            &structured_merge_diff::fieldpath::APIVersion::new("v1"),
            &mut managers,
            "one",
            false,
        );
        assert!(result2.is_ok(), "Apply with distinct items failed: {:?}", result2.err());
        let live2 = result2.unwrap();

        // Verify final state
        if let Value::Object(m) = live2.value() {
            if let Some(Value::List(l)) = m.get("list") {
                assert_eq!(l.len(), 2, "Should have 2 items after adding distinct item");
            } else {
                panic!("Expected list field");
            }
        } else {
            panic!("Expected top-level map");
        }
    }
