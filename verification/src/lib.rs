//! Structured merge and diff operations on typed YAML/JSON objects, with
//! field ownership tracking for multiple managers.

pub mod debug_text;
pub mod fieldpath;
pub mod json;
pub mod merge;
pub mod openapi;
pub mod schema;
pub mod text;
pub mod typed;
pub mod value;
