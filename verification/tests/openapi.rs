use structured_merge_diff::openapi::{
    convert_openapi_to_schema, AdditionalProperties, Components, OpenAPIConverter, OpenAPIDocument, OpenAPIv2,
    OpenAPIv3, SchemaV2, SchemaV3, UnionDefinition,
};
use structured_merge_diff::schema::{ElementRelationship, Scalar};

fn typed2(t: &str) -> SchemaV2 {
    SchemaV2 { schema_type: Some(t.to_string()), ..Default::default() }
}

fn typed3(t: &str) -> SchemaV3 {
    SchemaV3 { schema_type: Some(t.to_string()), ..Default::default() }
}

fn ref2(r: &str) -> SchemaV2 {
    SchemaV2 { ref_path: Some(r.to_string()), ..Default::default() }
}

fn ref3(r: &str) -> SchemaV3 {
    SchemaV3 { ref_path: Some(r.to_string()), ..Default::default() }
}

fn doc2(defs: Vec<(&str, SchemaV2)>) -> OpenAPIDocument {
    OpenAPIDocument::V2(OpenAPIv2 {
        swagger: "2.0".to_string(),
        definitions: defs.into_iter().map(|(n, s)| (n.to_string(), s)).collect(),
        ..Default::default()
    })
}

fn doc3(defs: Vec<(&str, SchemaV3)>) -> OpenAPIDocument {
    OpenAPIDocument::V3(OpenAPIv3 {
        openapi: "3.0.0".to_string(),
        components: Components { schemas: defs.into_iter().map(|(n, s)| (n.to_string(), s)).collect() },
        ..Default::default()
    })
}

#[test]
fn test_convert_simple_object() {
    let pet = SchemaV2 {
        schema_type: Some("object".to_string()),
        properties: vec![("age".to_string(), typed2("integer")), ("name".to_string(), typed2("string"))],
        ..Default::default()
    };
    let doc = doc2(vec![("Pet", pet)]);
    let result = convert_openapi_to_schema(&doc);

    assert!(result.errors.is_empty());
    assert_eq!(result.schema.types.len(), 1);

    let pet_type = &result.schema.types[0];
    assert_eq!(pet_type.name, "Pet");
    assert!(pet_type.atom.map.is_some());

    let map = pet_type.atom.map.as_ref().unwrap();
    assert_eq!(map.fields.len(), 2);
}

#[test]
fn test_convert_array_with_list_type() {
    let container_list = SchemaV2 {
        schema_type: Some("array".to_string()),
        items: Some(Box::new(ref2("#/definitions/Container"))),
        x_kubernetes_list_type: Some("map".to_string()),
        x_kubernetes_list_map_keys: Some(vec!["name".to_string()]),
        ..Default::default()
    };
    let container = SchemaV2 {
        schema_type: Some("object".to_string()),
        properties: vec![("name".to_string(), typed2("string"))],
        ..Default::default()
    };
    let doc = doc2(vec![("Container", container), ("ContainerList", container_list)]);
    let result = convert_openapi_to_schema(&doc);

    assert!(result.errors.is_empty());

    let container_list = result.schema.types.iter().find(|t| t.name == "ContainerList").unwrap();
    assert!(container_list.atom.list.is_some());

    let list = container_list.atom.list.as_ref().unwrap();
    assert_eq!(list.element_relationship, ElementRelationship::Associative);
    assert_eq!(list.keys, vec!["name"]);
    assert_eq!(list.element_type.named_type, Some("Container".to_string()));
}

#[test]
fn test_convert_atomic_map() {
    let labels = SchemaV2 {
        schema_type: Some("object".to_string()),
        additional_properties: Some(Box::new(AdditionalProperties::Schema(typed2("string")))),
        x_kubernetes_map_type: Some("atomic".to_string()),
        ..Default::default()
    };
    let doc = doc2(vec![("Labels", labels)]);
    let result = convert_openapi_to_schema(&doc);

    assert!(result.errors.is_empty());

    let labels = result.schema.types.iter().find(|t| t.name == "Labels").unwrap();
    assert!(labels.atom.map.is_some());

    let map = labels.atom.map.as_ref().unwrap();
    assert_eq!(map.element_relationship, ElementRelationship::Atomic);
    assert_eq!(map.element_type.inlined.scalar, Some(Scalar::String));
}

#[test]
fn test_convert_v3_document() {
    let tags = SchemaV3 {
        schema_type: Some("array".to_string()),
        items: Some(Box::new(typed3("string"))),
        x_kubernetes_list_type: Some("set".to_string()),
        ..Default::default()
    };
    let pet = SchemaV3 {
        schema_type: Some("object".to_string()),
        properties: vec![("name".to_string(), typed3("string")), ("tags".to_string(), tags)],
        ..Default::default()
    };
    let doc = doc3(vec![("Pet", pet)]);
    let result = convert_openapi_to_schema(&doc);

    assert!(result.errors.is_empty());
    assert_eq!(result.schema.types.len(), 1);

    let pet = &result.schema.types[0];
    assert_eq!(pet.name, "Pet");
    let tags = &pet.atom.map.as_ref().unwrap().fields[1];
    assert_eq!(tags.name, "tags");
    let list = tags.field_type.inlined.list.as_ref().unwrap();
    assert_eq!(list.element_relationship, ElementRelationship::Associative);
}

#[test]
fn test_convert_preserve_unknown_fields() {
    let raw = SchemaV2 {
        schema_type: Some("object".to_string()),
        x_kubernetes_preserve_unknown_fields: Some(true),
        ..Default::default()
    };
    let doc = doc2(vec![("RawExtension", raw)]);
    let result = convert_openapi_to_schema(&doc);

    assert!(result.errors.is_empty());

    let raw_ext = result.schema.types.iter().find(|t| t.name == "RawExtension").unwrap();
    assert!(raw_ext.atom.map.is_some());

    let map = raw_ext.atom.map.as_ref().unwrap();
    assert!(map.element_type.named_type.as_ref().unwrap().contains("untyped"));
}

#[test]
fn unknown_type_is_reported_with_its_path() {
    let obj = SchemaV2 {
        schema_type: Some("object".to_string()),
        properties: vec![("weird".to_string(), typed2("file"))],
        ..Default::default()
    };
    let result = convert_openapi_to_schema(&doc2(vec![("T", obj)]));
    assert_eq!(result.errors.len(), 1);
    assert_eq!(result.errors[0].path, "T.weird");
    assert_eq!(result.errors[0].message, "Unknown type: file");
    assert_eq!(result.errors[0].to_string(), "T.weird: Unknown type: file");
    let f = &result.schema.types[0].atom.map.as_ref().unwrap().fields[0];
    assert_eq!(f.field_type.inlined.scalar, Some(Scalar::Untyped));
}

#[test]
fn refs_name_their_types() {
    let obj = SchemaV3 {
        schema_type: Some("object".to_string()),
        properties: vec![
            ("a".to_string(), ref3("#/components/schemas/A")),
            ("b".to_string(), ref3("#/definitions/B")),
            ("c".to_string(), ref3("other/place/C")),
        ],
        ..Default::default()
    };
    let result = convert_openapi_to_schema(&doc3(vec![("T", obj), ("R", ref3("#/definitions/Q"))]));
    let fields = &result.schema.types[0].atom.map.as_ref().unwrap().fields;
    assert_eq!(fields[0].field_type.named_type.as_deref(), Some("A"));
    assert_eq!(fields[1].field_type.named_type.as_deref(), Some("B"));
    assert_eq!(fields[2].field_type.named_type.as_deref(), Some("C"));
    let r = result.schema.types[1].atom.map.as_ref().unwrap();
    assert_eq!(r.element_type.named_type.as_deref(), Some("Q"));
}

#[test]
fn all_of_merges_properties_by_name() {
    let base = SchemaV3 {
        schema_type: Some("object".to_string()),
        properties: vec![("b".to_string(), typed3("string")), ("z".to_string(), typed3("string"))],
        ..Default::default()
    };
    let extra = SchemaV3 {
        properties: vec![("a".to_string(), typed3("integer")), ("b".to_string(), typed3("boolean"))],
        ..Default::default()
    };
    let composed = SchemaV3 {
        all_of: Some(vec![ref3("#/components/schemas/Base"), extra]),
        ..Default::default()
    };
    let result = convert_openapi_to_schema(&doc3(vec![("Base", base), ("Composed", composed)]));
    assert!(result.errors.is_empty());
    let composed = result.schema.types.iter().find(|t| t.name == "Composed").unwrap();
    let fields = &composed.atom.map.as_ref().unwrap().fields;
    let names: Vec<&str> = fields.iter().map(|f| f.name.as_str()).collect();
    assert_eq!(names, vec!["a", "b", "z"]);
    assert_eq!(fields[1].field_type.inlined.scalar, Some(Scalar::Boolean));
}

#[test]
fn any_of_takes_the_first_schema() {
    let s = SchemaV3 { any_of: Some(vec![typed3("boolean"), typed3("string")]), ..Default::default() };
    let result = convert_openapi_to_schema(&doc3(vec![("S", s)]));
    assert_eq!(result.schema.types[0].atom.scalar, Some(Scalar::Boolean));
}

#[test]
fn self_composition_runs_out_of_depth() {
    let looping = SchemaV3 {
        properties: vec![(
            "x".to_string(),
            SchemaV3 { all_of: Some(vec![ref3("#/components/schemas/L")]), ..Default::default() },
        )],
        ..Default::default()
    };
    let result = convert_openapi_to_schema(&doc3(vec![("L", looping)]));
    assert!(result.errors.iter().any(|e| e.message == "schema nested too deeply"));
}

#[test]
fn list_and_map_relationships() {
    let merge_list = SchemaV2 {
        schema_type: Some("array".to_string()),
        x_kubernetes_patch_strategy: Some("merge".to_string()),
        ..Default::default()
    };
    let plain_list = typed2("array");
    let closed_map = SchemaV2 {
        schema_type: Some("object".to_string()),
        additional_properties: Some(Box::new(AdditionalProperties::Bool(false))),
        ..Default::default()
    };
    let open_map = SchemaV2 {
        schema_type: Some("object".to_string()),
        additional_properties: Some(Box::new(AdditionalProperties::Bool(true))),
        ..Default::default()
    };
    let union_obj = SchemaV2 {
        schema_type: Some("object".to_string()),
        properties: vec![("a".to_string(), typed2("string"))],
        x_kubernetes_unions: Some(vec![UnionDefinition {
            discriminator: Some("kind".to_string()),
            fields_to_discriminate_by: vec![("a".to_string(), "A".to_string())],
        }]),
        ..Default::default()
    };
    let mut conv = OpenAPIConverter::new();
    let result = conv.convert(&doc2(vec![
        ("M", merge_list),
        ("P", plain_list),
        ("C", closed_map),
        ("O", open_map),
        ("U", union_obj),
    ]));
    let t = &result.schema.types;
    let m = t[0].atom.list.as_ref().unwrap();
    assert_eq!(m.element_relationship, ElementRelationship::Associative);
    let p = t[1].atom.list.as_ref().unwrap();
    assert_eq!(p.element_relationship, ElementRelationship::Atomic);
    assert_eq!(p.element_type.named_type.as_deref(), Some("__untyped_atomic_"));
    let c = t[2].atom.map.as_ref().unwrap();
    assert!(c.element_type.named_type.is_none());
    let o = t[3].atom.map.as_ref().unwrap();
    assert_eq!(o.element_type.named_type.as_deref(), Some("__untyped_deduced_"));
    let u = t[4].atom.map.as_ref().unwrap();
    assert_eq!(u.unions.len(), 1);
    assert_eq!(u.unions[0].discriminator.as_deref(), Some("kind"));
    assert_eq!(u.unions[0].fields[0].field_name, "a");
    assert_eq!(u.unions[0].fields[0].discriminator_value, "A");
    assert!(doc2(vec![]).is_v2());
    assert!(doc3(vec![]).is_v3());
}

#[test]
fn long_composition_chain_converts_without_depth_error() {
    let n = 300;
    let mut schemas: Vec<(String, SchemaV3)> = Vec::new();
    for i in 0..n {
        let prop = if i + 1 < n {
            SchemaV3 { all_of: Some(vec![ref3(&format!("#/components/schemas/D{}", i + 1))]), ..Default::default() }
        } else {
            typed3("string")
        };
        schemas.push((format!("D{}", i), SchemaV3 { properties: vec![("p".to_string(), prop)], ..Default::default() }));
    }
    let doc = OpenAPIDocument::V3(OpenAPIv3 {
        openapi: "3.0.0".to_string(),
        components: Components { schemas },
        ..Default::default()
    });
    let result = convert_openapi_to_schema(&doc);
    assert!(result.errors.is_empty());
    assert_eq!(result.schema.types.len(), n);
}
