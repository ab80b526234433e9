//! OpenAPI v2 (Swagger) and v3 documents, and their conversion into
//! schemas of this library.

pub mod converter;
pub mod schema;

pub use converter::{convert_openapi_to_schema, ConversionError, ConversionResult, OpenAPIConverter};
pub use schema::{
    AdditionalProperties, Components, GroupVersionKind, Info, OpenAPIDocument, OpenAPIParseError, OpenAPIv2,
    OpenAPIv3, OpenAPIVersion, SchemaV2, SchemaV3, UnionDefinition, detect_version,
};
