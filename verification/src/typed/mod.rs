//! Values paired with their types: comparison results and validation.

pub mod comparison;
pub mod parser;
pub mod reconcile_schema;
pub mod typed_value;
pub mod validation;

pub use comparison::{Comparison, ComparisonView};
pub use typed_value::{as_typed_unvalidated, TypedValue, TypedValueView};
pub use validation::{ValidationError, ValidationErrorView, ValidationErrors, ValidationOption};
