//! The parts of OpenAPI documents that schemas are made from. Maps of the
//! documents (definitions, properties) are kept as lists of named entries,
//! in the order of their names.

use crate::text::push_str;
use crate::value::Value;
use vstd::prelude::*;

verus! {

/// An OpenAPI v2 (Swagger) document.
#[derive(Debug)]
pub struct OpenAPIv2 {
    /// The Swagger version ("2.0").
    pub swagger: String,
    pub info: Info,
    /// The named schema definitions.
    pub definitions: Vec<(String, SchemaV2)>,
    /// The API paths, as read.
    pub paths: Vec<(String, Value)>,
}

/// An OpenAPI v3 document.
#[derive(Debug)]
pub struct OpenAPIv3 {
    /// The OpenAPI version ("3.0.x" or "3.1.x").
    pub openapi: String,
    pub info: Info,
    pub components: Components,
    /// The API paths, as read.
    pub paths: Vec<(String, Value)>,
}

/// The API's information.
#[derive(Debug)]
pub struct Info {
    pub title: String,
    pub version: String,
    pub description: Option<String>,
}

/// The components of a v3 document.
#[derive(Debug)]
pub struct Components {
    /// The named schemas.
    pub schemas: Vec<(String, SchemaV3)>,
}

/// A schema of a v2 document.
#[derive(Debug)]
pub struct SchemaV2 {
    pub schema_type: Option<String>,
    pub format: Option<String>,
    pub description: Option<String>,
    /// A reference to another schema (`$ref`).
    pub ref_path: Option<String>,
    pub properties: Vec<(String, SchemaV2)>,
    pub additional_properties: Option<Box<AdditionalProperties<SchemaV2>>>,
    pub items: Option<Box<SchemaV2>>,
    pub required: Vec<String>,
    pub default: Option<Value>,
    pub enum_values: Option<Vec<Value>>,
    pub x_kubernetes_group_version_kind: Option<Vec<GroupVersionKind>>,
    /// `atomic`, `set` or `map`.
    pub x_kubernetes_list_type: Option<String>,
    pub x_kubernetes_list_map_keys: Option<Vec<String>>,
    /// `atomic` or `granular`.
    pub x_kubernetes_map_type: Option<String>,
    pub x_kubernetes_patch_strategy: Option<String>,
    pub x_kubernetes_patch_merge_key: Option<String>,
    pub x_kubernetes_preserve_unknown_fields: Option<bool>,
    pub x_kubernetes_int_or_string: Option<bool>,
    pub x_kubernetes_embedded_resource: Option<bool>,
    pub x_kubernetes_unions: Option<Vec<UnionDefinition>>,
}

/// A schema of a v3 document: a v2 schema with compositions.
#[derive(Debug)]
pub struct SchemaV3 {
    pub schema_type: Option<String>,
    pub format: Option<String>,
    pub description: Option<String>,
    /// A reference to another schema (`$ref`).
    pub ref_path: Option<String>,
    pub properties: Vec<(String, SchemaV3)>,
    pub additional_properties: Option<Box<AdditionalProperties<SchemaV3>>>,
    pub items: Option<Box<SchemaV3>>,
    pub required: Vec<String>,
    pub default: Option<Value>,
    pub enum_values: Option<Vec<Value>>,
    pub all_of: Option<Vec<SchemaV3>>,
    pub any_of: Option<Vec<SchemaV3>>,
    pub one_of: Option<Vec<SchemaV3>>,
    pub not: Option<Box<SchemaV3>>,
    pub nullable: Option<bool>,
    pub x_kubernetes_group_version_kind: Option<Vec<GroupVersionKind>>,
    /// `atomic`, `set` or `map`.
    pub x_kubernetes_list_type: Option<String>,
    pub x_kubernetes_list_map_keys: Option<Vec<String>>,
    /// `atomic` or `granular`.
    pub x_kubernetes_map_type: Option<String>,
    pub x_kubernetes_patch_strategy: Option<String>,
    pub x_kubernetes_patch_merge_key: Option<String>,
    pub x_kubernetes_preserve_unknown_fields: Option<bool>,
    pub x_kubernetes_int_or_string: Option<bool>,
    pub x_kubernetes_embedded_resource: Option<bool>,
    pub x_kubernetes_unions: Option<Vec<UnionDefinition>>,
}

/// Additional properties: allowed or not, or the schema of their values.
#[derive(Debug)]
pub enum AdditionalProperties<S> {
    Bool(bool),
    Schema(S),
}

/// A Kubernetes group, version and kind.
#[derive(Debug)]
pub struct GroupVersionKind {
    pub group: String,
    pub version: String,
    pub kind: String,
}

/// A Kubernetes union: its discriminator and the value that selects each
/// field.
#[derive(Debug)]
pub struct UnionDefinition {
    pub discriminator: Option<String>,
    pub fields_to_discriminate_by: Vec<(String, String)>,
}

/// A document of either version.
#[derive(Debug)]
pub enum OpenAPIDocument {
    V2(OpenAPIv2),
    V3(OpenAPIv3),
}

impl OpenAPIDocument {
    /// Returns true for a v2 document.
    pub fn is_v2(&self) -> (r: bool)
        ensures
            r == (self is V2),
    {
        match self {
            OpenAPIDocument::V2(_) => true,
            OpenAPIDocument::V3(_) => false,
        }
    }

    /// Returns true for a v3 document.
    pub fn is_v3(&self) -> (r: bool)
        ensures
            r == (self is V3),
    {
        match self {
            OpenAPIDocument::V2(_) => false,
            OpenAPIDocument::V3(_) => true,
        }
    }
}

/// Why a document could not be read.
#[derive(Debug)]
pub enum OpenAPIParseError {
    InvalidJson(String),
    InvalidYaml(String),
    InvalidSchema(String),
    UnknownVersion,
}

impl OpenAPIParseError {
    /// Returns the message of the error.
    pub fn to_string(&self) -> (r: String)
        ensures
            match self {
                OpenAPIParseError::InvalidJson(e) => r@ == "Invalid JSON: "@ + e@,
                OpenAPIParseError::InvalidYaml(e) => r@ == "Invalid YAML: "@ + e@,
                OpenAPIParseError::InvalidSchema(e) => r@ == "Invalid schema: "@ + e@,
                OpenAPIParseError::UnknownVersion => r@ == "Unknown OpenAPI version"@,
            },
    {
        match self {
            OpenAPIParseError::InvalidJson(e) => {
                let mut out = String::from_str("Invalid JSON: ");
                push_str(&mut out, e.as_str());
                out
            },
            OpenAPIParseError::InvalidYaml(e) => {
                let mut out = String::from_str("Invalid YAML: ");
                push_str(&mut out, e.as_str());
                out
            },
            OpenAPIParseError::InvalidSchema(e) => {
                let mut out = String::from_str("Invalid schema: ");
                push_str(&mut out, e.as_str());
                out
            },
            OpenAPIParseError::UnknownVersion => String::from_str("Unknown OpenAPI version"),
        }
    }
}

impl Default for SchemaV2 {
    /// A schema with nothing set.
    fn default() -> (r: SchemaV2)
        ensures
            r.schema_type is None,
            r.format is None,
            r.description is None,
            r.ref_path is None,
            r.additional_properties is None,
            r.items is None,
            r.default is None,
            r.enum_values is None,
            r.x_kubernetes_group_version_kind is None,
            r.x_kubernetes_list_type is None,
            r.x_kubernetes_list_map_keys is None,
            r.x_kubernetes_map_type is None,
            r.x_kubernetes_patch_strategy is None,
            r.x_kubernetes_patch_merge_key is None,
            r.x_kubernetes_preserve_unknown_fields is None,
            r.x_kubernetes_int_or_string is None,
            r.x_kubernetes_embedded_resource is None,
            r.x_kubernetes_unions is None,
            r.properties@.len() == 0,
            r.required@.len() == 0,
    {
        SchemaV2 {
            schema_type: None,
            format: None,
            description: None,
            ref_path: None,
            additional_properties: None,
            items: None,
            default: None,
            enum_values: None,
            x_kubernetes_group_version_kind: None,
            x_kubernetes_list_type: None,
            x_kubernetes_list_map_keys: None,
            x_kubernetes_map_type: None,
            x_kubernetes_patch_strategy: None,
            x_kubernetes_patch_merge_key: None,
            x_kubernetes_preserve_unknown_fields: None,
            x_kubernetes_int_or_string: None,
            x_kubernetes_embedded_resource: None,
            x_kubernetes_unions: None,
            properties: Vec::new(),
            required: Vec::new(),
        }
    }
}

impl Default for SchemaV3 {
    /// A schema with nothing set.
    fn default() -> (r: SchemaV3)
        ensures
            r.schema_type is None,
            r.format is None,
            r.description is None,
            r.ref_path is None,
            r.additional_properties is None,
            r.items is None,
            r.default is None,
            r.enum_values is None,
            r.all_of is None,
            r.any_of is None,
            r.one_of is None,
            r.not is None,
            r.nullable is None,
            r.x_kubernetes_group_version_kind is None,
            r.x_kubernetes_list_type is None,
            r.x_kubernetes_list_map_keys is None,
            r.x_kubernetes_map_type is None,
            r.x_kubernetes_patch_strategy is None,
            r.x_kubernetes_patch_merge_key is None,
            r.x_kubernetes_preserve_unknown_fields is None,
            r.x_kubernetes_int_or_string is None,
            r.x_kubernetes_embedded_resource is None,
            r.x_kubernetes_unions is None,
            r.properties@.len() == 0,
            r.required@.len() == 0,
    {
        SchemaV3 {
            schema_type: None,
            format: None,
            description: None,
            ref_path: None,
            additional_properties: None,
            items: None,
            default: None,
            enum_values: None,
            all_of: None,
            any_of: None,
            one_of: None,
            not: None,
            nullable: None,
            x_kubernetes_group_version_kind: None,
            x_kubernetes_list_type: None,
            x_kubernetes_list_map_keys: None,
            x_kubernetes_map_type: None,
            x_kubernetes_patch_strategy: None,
            x_kubernetes_patch_merge_key: None,
            x_kubernetes_preserve_unknown_fields: None,
            x_kubernetes_int_or_string: None,
            x_kubernetes_embedded_resource: None,
            x_kubernetes_unions: None,
            properties: Vec::new(),
            required: Vec::new(),
        }
    }
}

impl Default for Info {
    fn default() -> (r: Info)
        ensures
            r.title@.len() == 0,
            r.version@.len() == 0,
            r.description is None,
    {
        Info { title: String::new(), version: String::new(), description: None }
    }
}

impl Default for Components {
    fn default() -> (r: Components)
        ensures
            r.schemas@.len() == 0,
    {
        Components { schemas: Vec::new() }
    }
}

impl Default for OpenAPIv2 {
    fn default() -> (r: OpenAPIv2)
        ensures
            r.swagger@.len() == 0,
            r.definitions@.len() == 0,
            r.paths@.len() == 0,
    {
        OpenAPIv2 { swagger: String::new(), info: Info::default(), definitions: Vec::new(), paths: Vec::new() }
    }
}

impl Default for OpenAPIv3 {
    fn default() -> (r: OpenAPIv3)
        ensures
            r.openapi@.len() == 0,
            r.components.schemas@.len() == 0,
            r.paths@.len() == 0,
    {
        OpenAPIv3 { openapi: String::new(), info: Info::default(), components: Components::default(), paths: Vec::new() }
    }
}

impl Default for GroupVersionKind {
    fn default() -> (r: GroupVersionKind)
        ensures
            r.group@.len() == 0,
            r.version@.len() == 0,
            r.kind@.len() == 0,
    {
        GroupVersionKind { group: String::new(), version: String::new(), kind: String::new() }
    }
}

impl Default for UnionDefinition {
    fn default() -> (r: UnionDefinition)
        ensures
            r.discriminator is None,
            r.fields_to_discriminate_by@.len() == 0,
    {
        UnionDefinition { discriminator: None, fields_to_discriminate_by: Vec::new() }
    }
}

/// The versions of OpenAPI documents.
#[derive(Debug, Clone, Copy, PartialEq, Eq, Structural)]
pub enum OpenAPIVersion {
    V2,
    V3,
}

/// `s` starts with `p`.
pub open spec fn starts_with(s: Seq<char>, p: Seq<char>) -> bool {
    s.len() >= p.len() && s.take(p.len() as int) == p
}

fn has_prefix(s: &str, p: &str) -> (r: bool)
    ensures
        r == starts_with(s@, p@),
{
    let n = s.unicode_len();
    let k = p.unicode_len();
    if n < k {
        return false;
    }
    let head = s.substring_char(0, k);
    proof {
        assert(head@ =~= s@.take(k as int));
    }
    crate::value::str_equal(head, p)
}

/// The version that a document declares: v2 when its `swagger` field is a
/// string that starts with `2.`, else v3 when its `openapi` field is a
/// string that starts with `3.`; none otherwise.
pub fn detect_version(swagger: Option<&str>, openapi: Option<&str>) -> (r: Option<OpenAPIVersion>)
    ensures
        r == (if swagger is Some && starts_with(swagger->0@, "2."@) {
            Some(OpenAPIVersion::V2)
        } else if openapi is Some && starts_with(openapi->0@, "3."@) {
            Some(OpenAPIVersion::V3)
        } else {
            None
        }),
{
    match swagger {
        Some(s) => {
            if has_prefix(s, "2.") {
                return Some(OpenAPIVersion::V2);
            }
        },
        None => {},
    }
    match openapi {
        Some(o) => {
            if has_prefix(o, "3.") {
                return Some(OpenAPIVersion::V3);
            }
        },
        None => {},
    }
    None
}

} // verus!
