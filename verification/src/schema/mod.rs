//! A schema language for structured merges and diffs: named types of
//! scalars, lists and maps, and how their items relate.

pub mod elements;
pub mod equals;
pub mod schemaschema;

pub use elements::{
    Atom, AtomView, ElementRelationship, List, ListView, MapView, Scalar, Schema, SchemaMap, StructField,
    StructFieldView, TypeDef, TypeDefView, TypeRef, TypeRefView, TypeSpecifier, Union, UnionField,
    UnionFieldView, UnionView,
};
