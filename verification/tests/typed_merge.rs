use structured_merge_diff::schema::schemaschema::SCHEMA_SCHEMA_YAML;
use structured_merge_diff::typed::parser::{deduced_parseable_type, ParseableType, Parser};
use structured_merge_diff::fieldpath::path::{Path, PathElement};
use structured_merge_diff::fieldpath::set::FieldPathSet;
use structured_merge_diff::schema::{
    Atom, ElementRelationship, List, Scalar, Schema, SchemaMap, StructField, TypeDef, TypeRef, Union, UnionField,
};
use structured_merge_diff::typed::{TypedValue, ValidationOption};
use structured_merge_diff::value::{Field, FieldList, Value, ValueMap};

/// Reads a JSON document into a library value.
fn value_from_json(j: &serde_json::Value) -> Value {
    match j {
        serde_json::Value::Null => Value::Null,
        serde_json::Value::Bool(b) => Value::Bool(*b),
        serde_json::Value::Number(n) => match n.as_i64() {
            Some(i) => Value::Int(i),
            None => Value::Float(n.to_string()),
        },
        serde_json::Value::String(s) => Value::String(s.clone()),
        serde_json::Value::Array(a) => Value::List(a.iter().map(value_from_json).collect()),
        serde_json::Value::Object(o) => {
            let mut m = ValueMap::new();
            for (k, v) in o {
                m.set(k.clone(), value_from_json(v));
            }
            Value::Object(m)
        },
    }
}

fn yaml_json(yaml: &str) -> Result<serde_json::Value, String> {
    serde_yaml::from_str(yaml).map_err(|e| format!("failed to parse YAML: {}", e))
}

fn opt_str(j: &serde_json::Value, k: &str) -> Option<String> {
    j.get(k).and_then(|v| v.as_str()).map(|s| s.to_string())
}

fn relationship(j: &serde_json::Value) -> Option<ElementRelationship> {
    match j.get("elementRelationship").and_then(|v| v.as_str()) {
        Some("associative") => Some(ElementRelationship::Associative),
        Some("atomic") => Some(ElementRelationship::Atomic),
        Some("separable") => Some(ElementRelationship::Separable),
        _ => None,
    }
}

fn type_ref_from_json(j: &serde_json::Value) -> TypeRef {
    TypeRef {
        named_type: opt_str(j, "namedType"),
        inlined: Box::new(atom_from_json(j)),
        element_relationship: relationship(j),
    }
}

fn atom_from_json(j: &serde_json::Value) -> Atom {
    let scalar = match j.get("scalar").and_then(|v| v.as_str()) {
        Some("numeric") => Some(Scalar::Numeric),
        Some("string") => Some(Scalar::String),
        Some("boolean") => Some(Scalar::Boolean),
        Some("untyped") => Some(Scalar::Untyped),
        _ => None,
    };
    let list = j.get("list").map(|l| List {
        element_type: l.get("elementType").map(type_ref_from_json).unwrap_or_default(),
        element_relationship: relationship(l).unwrap_or_default(),
        keys: l
            .get("keys")
            .and_then(|k| k.as_array())
            .map(|ks| ks.iter().filter_map(|k| k.as_str().map(|s| s.to_string())).collect())
            .unwrap_or_default(),
    });
    let map = j.get("map").map(|m| SchemaMap {
        fields: m
            .get("fields")
            .and_then(|f| f.as_array())
            .map(|fs| {
                fs.iter()
                    .map(|f| StructField {
                        name: opt_str(f, "name").unwrap_or_default(),
                        field_type: f.get("type").map(type_ref_from_json).unwrap_or_default(),
                        default: f.get("default").map(value_from_json),
                    })
                    .collect()
            })
            .unwrap_or_default(),
        unions: m
            .get("unions")
            .and_then(|u| u.as_array())
            .map(|us| {
                us.iter()
                    .map(|u| Union {
                        discriminator: opt_str(u, "discriminator"),
                        deduce_invalid_discriminator: u
                            .get("deduceInvalidDiscriminator")
                            .and_then(|b| b.as_bool())
                            .unwrap_or(false),
                        fields: u
                            .get("fields")
                            .and_then(|f| f.as_array())
                            .map(|fs| {
                                fs.iter()
                                    .map(|f| UnionField {
                                        field_name: opt_str(f, "fieldName").unwrap_or_default(),
                                        discriminator_value: opt_str(f, "discriminatorValue").unwrap_or_default(),
                                    })
                                    .collect()
                            })
                            .unwrap_or_default(),
                    })
                    .collect()
            })
            .unwrap_or_default(),
        element_type: m.get("elementType").map(type_ref_from_json).unwrap_or_default(),
        element_relationship: relationship(m).unwrap_or_default(),
    });
    Atom { scalar, list, map }
}

/// Reading a schema from YAML text.
trait SchemaFromYaml: Sized {
    fn new(yaml: &str) -> Result<Self, String>;
}

impl SchemaFromYaml for Parser {
    fn new(yaml: &str) -> Result<Parser, String> {
        let j = yaml_json(yaml)?;
        let types = j
            .get("types")
            .and_then(|t| t.as_array())
            .map(|ts| {
                ts.iter()
                    .map(|t| TypeDef { name: opt_str(t, "name").unwrap_or_default(), atom: atom_from_json(t) })
                    .collect()
            })
            .unwrap_or_default();
        Ok(Parser { schema: Schema::with_types(types) })
    }
}

/// Reading YAML objects as a type of a schema.
trait FromYaml {
    fn from_yaml(&self, yaml: &str) -> Result<TypedValue, String>;
    fn from_yaml_with_opts(&self, yaml: &str, opts: &[ValidationOption]) -> Result<TypedValue, String>;
}

impl FromYaml for ParseableType {
    fn from_yaml(&self, yaml: &str) -> Result<TypedValue, String> {
        self.from_yaml_with_opts(yaml, &[])
    }

    fn from_yaml_with_opts(&self, yaml: &str, opts: &[ValidationOption]) -> Result<TypedValue, String> {
        let v = value_from_json(&yaml_json(yaml)?);
        self.from_value_with_opts(v, opts).map_err(|e| e.to_string())
    }
}



    /// Test case for merge operations.
    struct MergeTestCase {
        name: &'static str,
        root_type_name: &'static str,
        schema: &'static str,
        triplets: Vec<MergeTriplet>,
    }

    struct MergeTriplet {
        lhs: &'static str,
        rhs: &'static str,
        out: &'static str,
    }

    fn run_merge_test_case(tc: MergeTestCase) {
        let parser = Parser::new(tc.schema)
            .expect(&format!("Failed to parse schema for test: {}", tc.name));

        let pt = parser.type_by_name(tc.root_type_name);

        for (i, triplet) in tc.triplets.iter().enumerate() {
            // Parse with AllowDuplicates for lhs (former object may have duplicates in sets)
            let lhs = pt.from_yaml_with_opts(triplet.lhs, &[ValidationOption::AllowDuplicates])
                .expect(&format!("Failed to parse lhs for {}-{}: {}", tc.name, i, triplet.lhs));

            let rhs = pt.from_yaml(triplet.rhs)
                .expect(&format!("Failed to parse rhs for {}-{}: {}", tc.name, i, triplet.rhs));

            let expected = pt.from_yaml_with_opts(triplet.out, &[ValidationOption::AllowDuplicates])
                .expect(&format!("Failed to parse out for {}-{}: {}", tc.name, i, triplet.out));

            let result = lhs.merge(&rhs);
            assert!(result.is_ok(), "Merge failed for {}-{}: {:?}", tc.name, i, result.err());

            let merged = result.unwrap();
            assert_eq!(
                merged.value(),
                expected.value(),
                "Merge result mismatch for {}-{}.\nLHS: {}\nRHS: {}\nExpected: {}\nGot: {:?}",
                tc.name, i, triplet.lhs, triplet.rhs, triplet.out, merged.value()
            );
        }
    }

    #[test]
    fn test_merge_simple_pair() {
        run_merge_test_case(MergeTestCase {
            name: "simple pair",
            root_type_name: "stringPair",
            schema: r#"types:
- name: stringPair
  map:
    fields:
    - name: key
      type:
        scalar: string
    - name: value
      type:
        namedType: __untyped_atomic_
- name: __untyped_atomic_
  scalar: untyped
  list:
    elementType:
      namedType: __untyped_atomic_
    elementRelationship: atomic
  map:
    elementType:
      namedType: __untyped_atomic_
    elementRelationship: atomic
"#,
            triplets: vec![
                MergeTriplet {
                    lhs: r#"{"key":"foo","value":{}}"#,
                    rhs: r#"{"key":"foo","value":1}"#,
                    out: r#"{"key":"foo","value":1}"#,
                },
                MergeTriplet {
                    lhs: r#"{"key":"foo","value":1}"#,
                    rhs: r#"{"key":"foo","value":{}}"#,
                    out: r#"{"key":"foo","value":{}}"#,
                },
                MergeTriplet {
                    lhs: r#"{"key":"foo","value":null}"#,
                    rhs: r#"{"key":"foo","value":{}}"#,
                    out: r#"{"key":"foo","value":{}}"#,
                },
                MergeTriplet {
                    lhs: r#"{"key":"foo"}"#,
                    rhs: r#"{"value":true}"#,
                    out: r#"{"key":"foo","value":true}"#,
                },
            ],
        });
    }

    #[test]
    fn test_merge_null_empty_map() {
        run_merge_test_case(MergeTestCase {
            name: "null/empty map",
            root_type_name: "nestedMap",
            schema: r#"types:
- name: nestedMap
  map:
    fields:
    - name: inner
      type:
        map:
          elementType:
            namedType: __untyped_atomic_
- name: __untyped_atomic_
  scalar: untyped
  list:
    elementType:
      namedType: __untyped_atomic_
    elementRelationship: atomic
  map:
    elementType:
      namedType: __untyped_atomic_
    elementRelationship: atomic
"#,
            triplets: vec![
                MergeTriplet {
                    lhs: r#"{}"#,
                    rhs: r#"{"inner":{}}"#,
                    out: r#"{"inner":{}}"#,
                },
                MergeTriplet {
                    lhs: r#"{}"#,
                    rhs: r#"{"inner":null}"#,
                    out: r#"{"inner":null}"#,
                },
                MergeTriplet {
                    lhs: r#"{"inner":null}"#,
                    rhs: r#"{"inner":{}}"#,
                    out: r#"{"inner":{}}"#,
                },
                MergeTriplet {
                    lhs: r#"{"inner":{}}"#,
                    rhs: r#"{"inner":null}"#,
                    out: r#"{"inner":null}"#,
                },
                MergeTriplet {
                    lhs: r#"{"inner":{}}"#,
                    rhs: r#"{"inner":{}}"#,
                    out: r#"{"inner":{}}"#,
                },
            ],
        });
    }

    #[test]
    fn test_merge_null_empty_struct() {
        run_merge_test_case(MergeTestCase {
            name: "null/empty struct",
            root_type_name: "nestedStruct",
            schema: r#"types:
- name: nestedStruct
  map:
    fields:
    - name: inner
      type:
        map:
          fields:
          - name: value
            type:
              namedType: __untyped_atomic_
- name: __untyped_atomic_
  scalar: untyped
  list:
    elementType:
      namedType: __untyped_atomic_
    elementRelationship: atomic
  map:
    elementType:
      namedType: __untyped_atomic_
    elementRelationship: atomic
"#,
            triplets: vec![
                MergeTriplet {
                    lhs: r#"{}"#,
                    rhs: r#"{"inner":{}}"#,
                    out: r#"{"inner":{}}"#,
                },
                MergeTriplet {
                    lhs: r#"{}"#,
                    rhs: r#"{"inner":null}"#,
                    out: r#"{"inner":null}"#,
                },
                MergeTriplet {
                    lhs: r#"{"inner":null}"#,
                    rhs: r#"{"inner":{}}"#,
                    out: r#"{"inner":{}}"#,
                },
                MergeTriplet {
                    lhs: r#"{"inner":{}}"#,
                    rhs: r#"{"inner":null}"#,
                    out: r#"{"inner":null}"#,
                },
                MergeTriplet {
                    lhs: r#"{"inner":{}}"#,
                    rhs: r#"{"inner":{}}"#,
                    out: r#"{"inner":{}}"#,
                },
            ],
        });
    }

    #[test]
    fn test_merge_null_empty_list() {
        run_merge_test_case(MergeTestCase {
            name: "null/empty list",
            root_type_name: "nestedList",
            schema: r#"types:
- name: nestedList
  map:
    fields:
    - name: inner
      type:
        list:
          elementType:
            namedType: __untyped_atomic_
          elementRelationship: atomic
- name: __untyped_atomic_
  scalar: untyped
  list:
    elementType:
      namedType: __untyped_atomic_
    elementRelationship: atomic
  map:
    elementType:
      namedType: __untyped_atomic_
    elementRelationship: atomic
"#,
            triplets: vec![
                MergeTriplet {
                    lhs: r#"{}"#,
                    rhs: r#"{"inner":[]}"#,
                    out: r#"{"inner":[]}"#,
                },
                MergeTriplet {
                    lhs: r#"{}"#,
                    rhs: r#"{"inner":null}"#,
                    out: r#"{"inner":null}"#,
                },
                MergeTriplet {
                    lhs: r#"{"inner":null}"#,
                    rhs: r#"{"inner":[]}"#,
                    out: r#"{"inner":[]}"#,
                },
                MergeTriplet {
                    lhs: r#"{"inner":[]}"#,
                    rhs: r#"{"inner":null}"#,
                    out: r#"{"inner":null}"#,
                },
                MergeTriplet {
                    lhs: r#"{"inner":[]}"#,
                    rhs: r#"{"inner":[]}"#,
                    out: r#"{"inner":[]}"#,
                },
            ],
        });
    }

    #[test]
    fn test_merge_struct_grab_bag() {
        run_merge_test_case(MergeTestCase {
            name: "struct grab bag",
            root_type_name: "myStruct",
            schema: r#"types:
- name: myStruct
  map:
    fields:
    - name: numeric
      type:
        scalar: numeric
    - name: string
      type:
        scalar: string
    - name: bool
      type:
        scalar: boolean
    - name: setStr
      type:
        list:
          elementType:
            scalar: string
          elementRelationship: associative
    - name: setBool
      type:
        list:
          elementType:
            scalar: boolean
          elementRelationship: associative
    - name: setNumeric
      type:
        list:
          elementType:
            scalar: numeric
          elementRelationship: associative
"#,
            triplets: vec![
                // Numeric changes
                MergeTriplet {
                    lhs: r#"{"numeric":1}"#,
                    rhs: r#"{"numeric":3.14159}"#,
                    out: r#"{"numeric":3.14159}"#,
                },
                MergeTriplet {
                    lhs: r#"{"numeric":3.14159}"#,
                    rhs: r#"{"numeric":1}"#,
                    out: r#"{"numeric":1}"#,
                },
                // Add different field
                MergeTriplet {
                    lhs: r#"{"string":"aoeu"}"#,
                    rhs: r#"{"bool":true}"#,
                    out: r#"{"string":"aoeu","bool":true}"#,
                },
                // Set operations - union semantics
                MergeTriplet {
                    lhs: r#"{"setStr":["a","b","c"]}"#,
                    rhs: r#"{"setStr":["a","b"]}"#,
                    out: r#"{"setStr":["a","b","c"]}"#,
                },
                MergeTriplet {
                    lhs: r#"{"setStr":["a","b"]}"#,
                    rhs: r#"{"setStr":["a","b","c"]}"#,
                    out: r#"{"setStr":["a","b","c"]}"#,
                },
                // Empty set preserves
                MergeTriplet {
                    lhs: r#"{"setStr":["a","b","c"]}"#,
                    rhs: r#"{"setStr":[]}"#,
                    out: r#"{"setStr":["a","b","c"]}"#,
                },
                MergeTriplet {
                    lhs: r#"{"setStr":[]}"#,
                    rhs: r#"{"setStr":["a","b","c"]}"#,
                    out: r#"{"setStr":["a","b","c"]}"#,
                },
                // Order from RHS
                MergeTriplet {
                    lhs: r#"{"setStr":["a","b"]}"#,
                    rhs: r#"{"setStr":["b","a"]}"#,
                    out: r#"{"setStr":["b","a"]}"#,
                },
                // Disjoint sets
                MergeTriplet {
                    lhs: r#"{"setStr":["a","b","c"]}"#,
                    rhs: r#"{"setStr":["d","e","f"]}"#,
                    out: r#"{"setStr":["a","b","c","d","e","f"]}"#,
                },
                // Bool set
                MergeTriplet {
                    lhs: r#"{"setBool":[true]}"#,
                    rhs: r#"{"setBool":[false]}"#,
                    out: r#"{"setBool":[true,false]}"#,
                },
            ],
        });
    }

    #[test]
    fn test_merge_associative_list() {
        run_merge_test_case(MergeTestCase {
            name: "associative list",
            root_type_name: "myRoot",
            schema: r#"types:
- name: myRoot
  map:
    fields:
    - name: list
      type:
        namedType: myList
    - name: atomicList
      type:
        namedType: mySequence
- name: myList
  list:
    elementType:
      namedType: myElement
    elementRelationship: associative
    keys:
    - key
    - id
- name: mySequence
  list:
    elementType:
      scalar: string
    elementRelationship: atomic
- name: myElement
  map:
    fields:
    - name: key
      type:
        scalar: string
    - name: id
      type:
        scalar: numeric
    - name: value
      type:
        namedType: myValue
    - name: bv
      type:
        scalar: boolean
    - name: nv
      type:
        scalar: numeric
- name: myValue
  map:
    elementType:
      scalar: string
"#,
            triplets: vec![
                // Same key/id - merge
                MergeTriplet {
                    lhs: r#"{"list":[{"key":"a","id":1,"value":{"a":"a"}}]}"#,
                    rhs: r#"{"list":[{"key":"a","id":1,"value":{"a":"a"}}]}"#,
                    out: r#"{"list":[{"key":"a","id":1,"value":{"a":"a"}}]}"#,
                },
                // Different id - add
                MergeTriplet {
                    lhs: r#"{"list":[{"key":"a","id":1,"value":{"a":"a"}}]}"#,
                    rhs: r#"{"list":[{"key":"a","id":2,"value":{"a":"a"}}]}"#,
                    out: r#"{"list":[{"key":"a","id":1,"value":{"a":"a"}},{"key":"a","id":2,"value":{"a":"a"}}]}"#,
                },
                // Atomic list - replace
                MergeTriplet {
                    lhs: r#"{"atomicList":["a","a","a"]}"#,
                    rhs: r#"{"atomicList":null}"#,
                    out: r#"{"atomicList":null}"#,
                },
                MergeTriplet {
                    lhs: r#"{"atomicList":["a","b","c"]}"#,
                    rhs: r#"{"atomicList":[]}"#,
                    out: r#"{"atomicList":[]}"#,
                },
                MergeTriplet {
                    lhs: r#"{"atomicList":["a","a","a"]}"#,
                    rhs: r#"{"atomicList":["a","a"]}"#,
                    out: r#"{"atomicList":["a","a"]}"#,
                },
            ],
        });
    }

    #[test]
    fn test_merge_set_ordering() {
        // Test that set ordering from RHS is preserved
        run_merge_test_case(MergeTestCase {
            name: "set ordering",
            root_type_name: "myStruct",
            schema: r#"types:
- name: myStruct
  map:
    fields:
    - name: setStr
      type:
        list:
          elementType:
            scalar: string
          elementRelationship: associative
"#,
            triplets: vec![
                // Overlapping sets with reordering
                MergeTriplet {
                    lhs: r#"{"setStr":["c","a","g","f"]}"#,
                    rhs: r#"{"setStr":["c","f","a","g"]}"#,
                    out: r#"{"setStr":["c","f","a","g"]}"#,
                },
                MergeTriplet {
                    lhs: r#"{"setStr":["a","b","c","d"]}"#,
                    rhs: r#"{"setStr":["d","e","f","a"]}"#,
                    out: r#"{"setStr":["b","c","d","e","f","a"]}"#,
                },
            ],
        });
    }

    #[test]
    fn test_merge_set_with_duplicates() {
        // Test handling of duplicates in sets (LHS may have duplicates from old data)
        run_merge_test_case(MergeTestCase {
            name: "set with duplicates",
            root_type_name: "myStruct",
            schema: r#"types:
- name: myStruct
  map:
    fields:
    - name: setStr
      type:
        list:
          elementType:
            scalar: string
          elementRelationship: associative
"#,
            triplets: vec![
                // Duplicate in LHS, not in RHS
                MergeTriplet {
                    lhs: r#"{"setStr":["a","b","b"]}"#,
                    rhs: r#"{"setStr":["c"]}"#,
                    out: r#"{"setStr":["a","b","b","c"]}"#,
                },
                // Duplicate in LHS, also in RHS
                MergeTriplet {
                    lhs: r#"{"setStr":["a","b","b"]}"#,
                    rhs: r#"{"setStr":["b"]}"#,
                    out: r#"{"setStr":["a","b"]}"#,
                },
                // Multiple duplicates in LHS
                MergeTriplet {
                    lhs: r#"{"setStr":["a","a","b","b"]}"#,
                    rhs: r#"{"setStr":["b","c","d"]}"#,
                    out: r#"{"setStr":["a","a","b","c","d"]}"#,
                },
                // All duplicates in LHS, empty RHS
                MergeTriplet {
                    lhs: r#"{"setStr":["a","a","b","b"]}"#,
                    rhs: r#"{"setStr":[]}"#,
                    out: r#"{"setStr":["a","a","b","b"]}"#,
                },
            ],
        });
    }

    #[test]
    fn test_merge_list_reordering() {
        // Test more complex list reordering scenarios
        run_merge_test_case(MergeTestCase {
            name: "list reordering",
            root_type_name: "myRoot",
            schema: r#"types:
- name: myRoot
  map:
    fields:
    - name: list
      type:
        namedType: myList
- name: myList
  list:
    elementType:
      namedType: myElement
    elementRelationship: associative
    keys:
    - key
    - id
- name: myElement
  map:
    fields:
    - name: key
      type:
        scalar: string
    - name: id
      type:
        scalar: numeric
    - name: value
      type:
        namedType: myValue
- name: myValue
  map:
    elementType:
      scalar: string
"#,
            triplets: vec![
                // Add item in middle
                MergeTriplet {
                    lhs: r#"{"list":[{"key":"b","id":2}]}"#,
                    rhs: r#"{"list":[{"key":"a","id":1},{"key":"b","id":2},{"key":"c","id":3}]}"#,
                    out: r#"{"list":[{"key":"a","id":1},{"key":"b","id":2},{"key":"c","id":3}]}"#,
                },
                // Reorder existing items
                MergeTriplet {
                    lhs: r#"{"list":[{"key":"a","id":1},{"key":"b","id":2},{"key":"c","id":3}]}"#,
                    rhs: r#"{"list":[{"key":"c","id":3},{"key":"b","id":2}]}"#,
                    out: r#"{"list":[{"key":"a","id":1},{"key":"c","id":3},{"key":"b","id":2}]}"#,
                },
                MergeTriplet {
                    lhs: r#"{"list":[{"key":"a","id":1},{"key":"b","id":2},{"key":"c","id":3}]}"#,
                    rhs: r#"{"list":[{"key":"c","id":3},{"key":"a","id":1}]}"#,
                    out: r#"{"list":[{"key":"b","id":2},{"key":"c","id":3},{"key":"a","id":1}]}"#,
                },
            ],
        });
    }

#[test]
fn test_schema_schema_parses() {
    let schema = Parser::new(SCHEMA_SCHEMA_YAML);
    assert!(schema.is_ok(), "Failed to parse schema schema: {:?}", schema.err());

    let schema = schema.unwrap().schema;
    assert!(!schema.types.is_empty());

    // Verify some key types exist
    assert!(schema.find_named_type("schema").is_some());
    assert!(schema.find_named_type("typeDef").is_some());
    assert!(schema.find_named_type("typeRef").is_some());
    assert!(schema.find_named_type("map").is_some());
    assert!(schema.find_named_type("list").is_some());
}

#[test]
fn schema_schema_checks_itself() {
    let parser = Parser::new(SCHEMA_SCHEMA_YAML).unwrap();
    let pt = parser.type_by_name("schema");
    assert!(pt.is_valid());
    assert!(pt.from_yaml(SCHEMA_SCHEMA_YAML).is_ok());
}
