//! Validation options and errors.

use crate::text::{push_char, push_str};
use vstd::prelude::*;

verus! {

/// Options of validation.
#[derive(Debug, Clone, Copy, PartialEq, Eq, Structural)]
pub enum ValidationOption {
    /// Allow duplicate items in sets and associative lists.
    AllowDuplicates,
}

/// Abstract model of a [`ValidationError`].
pub enum ValidationErrorView {
    TypeMismatch { path: Seq<char>, expected: Seq<char>, actual: Seq<char> },
    UnknownField { path: Seq<char>, field: Seq<char> },
    MissingField { path: Seq<char>, field: Seq<char> },
    DuplicateKey { path: Seq<char>, key: Seq<char> },
    InvalidValue { path: Seq<char>, message: Seq<char> },
    SchemaError { message: Seq<char> },
}

/// An error found while checking a value against its schema.
#[derive(Debug)]
pub enum ValidationError {
    TypeMismatch { path: String, expected: String, actual: String },
    UnknownField { path: String, field: String },
    MissingField { path: String, field: String },
    DuplicateKey { path: String, key: String },
    InvalidValue { path: String, message: String },
    SchemaError { message: String },
}

impl View for ValidationError {
    type V = ValidationErrorView;

    open spec fn view(&self) -> ValidationErrorView {
        match self {
            ValidationError::TypeMismatch { path, expected, actual } => ValidationErrorView::TypeMismatch {
                path: path@,
                expected: expected@,
                actual: actual@,
            },
            ValidationError::UnknownField { path, field } => ValidationErrorView::UnknownField {
                path: path@,
                field: field@,
            },
            ValidationError::MissingField { path, field } => ValidationErrorView::MissingField {
                path: path@,
                field: field@,
            },
            ValidationError::DuplicateKey { path, key } => ValidationErrorView::DuplicateKey {
                path: path@,
                key: key@,
            },
            ValidationError::InvalidValue { path, message } => ValidationErrorView::InvalidValue {
                path: path@,
                message: message@,
            },
            ValidationError::SchemaError { message } => ValidationErrorView::SchemaError { message: message@ },
        }
    }
}

/// The message of a validation error.
pub open spec fn error_display(e: ValidationErrorView) -> Seq<char> {
    match e {
        ValidationErrorView::TypeMismatch { path, expected, actual } => path + ": type mismatch: expected "@
            + expected + ", got "@ + actual,
        ValidationErrorView::UnknownField { path, field } => path + ": unknown field: "@ + field,
        ValidationErrorView::MissingField { path, field } => path + ": missing required field: "@ + field,
        ValidationErrorView::DuplicateKey { path, key } => path + ": duplicate key in list: "@ + key,
        ValidationErrorView::InvalidValue { path, message } => path + ": "@ + message,
        ValidationErrorView::SchemaError { message } => message,
    }
}

impl ValidationError {
    /// Creates a type mismatch error.
    pub fn type_mismatch(path: &str, expected: &str, actual: &str) -> (r: ValidationError)
        ensures
            r@ == (ValidationErrorView::TypeMismatch { path: path@, expected: expected@, actual: actual@ }),
    {
        ValidationError::TypeMismatch {
            path: String::from_str(path),
            expected: String::from_str(expected),
            actual: String::from_str(actual),
        }
    }

    /// Creates an unknown field error.
    pub fn unknown_field(path: &str, field: &str) -> (r: ValidationError)
        ensures
            r@ == (ValidationErrorView::UnknownField { path: path@, field: field@ }),
    {
        ValidationError::UnknownField { path: String::from_str(path), field: String::from_str(field) }
    }

    /// Creates a missing field error.
    pub fn missing_field(path: &str, field: &str) -> (r: ValidationError)
        ensures
            r@ == (ValidationErrorView::MissingField { path: path@, field: field@ }),
    {
        ValidationError::MissingField { path: String::from_str(path), field: String::from_str(field) }
    }

    /// Creates a duplicate key error.
    pub fn duplicate_key(path: &str, key: &str) -> (r: ValidationError)
        ensures
            r@ == (ValidationErrorView::DuplicateKey { path: path@, key: key@ }),
    {
        ValidationError::DuplicateKey { path: String::from_str(path), key: String::from_str(key) }
    }

    /// Creates an invalid value error.
    pub fn invalid_value(path: &str, message: &str) -> (r: ValidationError)
        ensures
            r@ == (ValidationErrorView::InvalidValue { path: path@, message: message@ }),
    {
        ValidationError::InvalidValue { path: String::from_str(path), message: String::from_str(message) }
    }

    /// Creates a schema error.
    pub fn schema_error(message: &str) -> (r: ValidationError)
        ensures
            r@ == (ValidationErrorView::SchemaError { message: message@ }),
    {
        ValidationError::SchemaError { message: String::from_str(message) }
    }

    /// Returns the message of the error.
    pub fn to_string(&self) -> (r: String)
        ensures
            r@ == error_display(self@),
    {
        let mut out = String::new();
        match self {
            ValidationError::TypeMismatch { path, expected, actual } => {
                push_str(&mut out, path.as_str());
                push_str(&mut out, ": type mismatch: expected ");
                push_str(&mut out, expected.as_str());
                push_str(&mut out, ", got ");
                push_str(&mut out, actual.as_str());
            },
            ValidationError::UnknownField { path, field } => {
                push_str(&mut out, path.as_str());
                push_str(&mut out, ": unknown field: ");
                push_str(&mut out, field.as_str());
            },
            ValidationError::MissingField { path, field } => {
                push_str(&mut out, path.as_str());
                push_str(&mut out, ": missing required field: ");
                push_str(&mut out, field.as_str());
            },
            ValidationError::DuplicateKey { path, key } => {
                push_str(&mut out, path.as_str());
                push_str(&mut out, ": duplicate key in list: ");
                push_str(&mut out, key.as_str());
            },
            ValidationError::InvalidValue { path, message } => {
                push_str(&mut out, path.as_str());
                push_str(&mut out, ": ");
                push_str(&mut out, message.as_str());
            },
            ValidationError::SchemaError { message } => {
                push_str(&mut out, message.as_str());
            },
        }
        proof {
            assert(out@ =~= error_display(self@));
        }
        out
    }
}

impl Clone for ValidationError {
    fn clone(&self) -> (r: ValidationError)
        ensures
            r@ == self@,
    {
        match self {
            ValidationError::TypeMismatch { path, expected, actual } => ValidationError::TypeMismatch {
                path: path.clone(),
                expected: expected.clone(),
                actual: actual.clone(),
            },
            ValidationError::UnknownField { path, field } => ValidationError::UnknownField {
                path: path.clone(),
                field: field.clone(),
            },
            ValidationError::MissingField { path, field } => ValidationError::MissingField {
                path: path.clone(),
                field: field.clone(),
            },
            ValidationError::DuplicateKey { path, key } => ValidationError::DuplicateKey {
                path: path.clone(),
                key: key.clone(),
            },
            ValidationError::InvalidValue { path, message } => ValidationError::InvalidValue {
                path: path.clone(),
                message: message.clone(),
            },
            ValidationError::SchemaError { message } => ValidationError::SchemaError { message: message.clone() },
        }
    }
}

/// A collection of validation errors, in the order they were found.
#[derive(Debug)]
pub struct ValidationErrors {
    errors: Vec<ValidationError>,
}

impl View for ValidationErrors {
    type V = Seq<ValidationErrorView>;

    closed spec fn view(&self) -> Seq<ValidationErrorView> {
        self.errors@.map_values(|e: ValidationError| e@)
    }
}

/// The messages of the errors, one per line.
pub open spec fn errors_display(es: Seq<ValidationErrorView>) -> Seq<char>
    decreases es.len(),
{
    if es.len() == 0 {
        Seq::empty()
    } else if es.len() == 1 {
        error_display(es[0])
    } else {
        errors_display(es.drop_last()) + seq!['\n'] + error_display(es.last())
    }
}

impl ValidationErrors {
    /// Creates an empty collection.
    pub fn new() -> (r: ValidationErrors)
        ensures
            r@ == Seq::<ValidationErrorView>::empty(),
    {
        let r = ValidationErrors { errors: Vec::new() };
        assert(r@ =~= Seq::<ValidationErrorView>::empty());
        r
    }

    /// Creates a collection of one error.
    pub fn from_error(error: ValidationError) -> (r: ValidationErrors)
        ensures
            r@ == seq![error@],
    {
        let mut errors: Vec<ValidationError> = Vec::new();
        errors.push(error);
        let r = ValidationErrors { errors };
        assert(r@ =~= seq![error@]);
        r
    }

    /// Adds an error at the end.
    pub fn add(&mut self, error: ValidationError)
        ensures
            final(self)@ == old(self)@.push(error@),
    {
        self.errors.push(error);
        assert(self@ =~= old(self)@.push(error@));
    }

    /// Adds the errors of `other` at the end, in their order.
    pub fn extend(&mut self, other: ValidationErrors)
        ensures
            final(self)@ == old(self)@ + other@,
    {
        let ghost start = self@;
        let ghost more = other@;
        let mut i: usize = 0;
        while i < other.errors.len()
            invariant
                more == other@,
                more.len() == other.errors@.len(),
                i <= more.len(),
                self@ == start + more.take(i as int),
            decreases more.len() - i,
        {
            let e = other.errors[i].clone();
            self.add(e);
            proof {
                assert(more.take(i as int + 1) =~= more.take(i as int).push(more[i as int]));
                assert(self@ =~= start + more.take(i as int + 1));
            }
            i = i + 1;
        }
        proof {
            assert(more.take(more.len() as int) =~= more);
        }
    }

    /// Returns true if there are no errors.
    pub fn is_empty(&self) -> (r: bool)
        ensures
            r == (self@.len() == 0),
    {
        self.errors.len() == 0
    }

    /// Returns the number of errors.
    pub fn len(&self) -> (r: usize)
        ensures
            r == self@.len(),
    {
        self.errors.len()
    }

    /// Returns the errors, in the order they were found.
    pub fn iter(&self) -> (r: &[ValidationError])
        ensures
            r@.map_values(|e: ValidationError| e@) == self@,
    {
        self.errors.as_slice()
    }

    /// Returns the messages of the errors, one per line.
    pub fn to_string(&self) -> (r: String)
        ensures
            r@ == errors_display(self@),
    {
        let mut out = String::new();
        let ghost es = self@;
        proof {
            assert(es.take(0) =~= Seq::<ValidationErrorView>::empty());
        }
        let mut i: usize = 0;
        while i < self.errors.len()
            invariant
                es == self@,
                es.len() == self.errors@.len(),
                i <= es.len(),
                out@ == errors_display(es.take(i as int)),
            decreases es.len() - i,
        {
            if i > 0 {
                push_char(&mut out, '\n');
            }
            let t = self.errors[i].to_string();
            push_str(&mut out, t.as_str());
            proof {
                let s = es.take(i as int + 1);
                assert(s.drop_last() =~= es.take(i as int));
                assert(s.last() == es[i as int]);
                assert(out@ =~= errors_display(s));
            }
            i = i + 1;
        }
        proof {
            assert(es.take(es.len() as int) =~= es);
        }
        out
    }
}

impl Clone for ValidationErrors {
    fn clone(&self) -> (r: ValidationErrors)
        ensures
            r@ == self@,
    {
        let mut errors: Vec<ValidationError> = Vec::new();
        let mut i: usize = 0;
        while i < self.errors.len()
            invariant
                i <= self.errors@.len(),
                errors@.len() == i,
                forall|j: int| 0 <= j < i ==> #[trigger] errors@[j]@ == self.errors@[j]@,
            decreases self.errors@.len() - i,
        {
            errors.push(self.errors[i].clone());
            i = i + 1;
        }
        let r = ValidationErrors { errors };
        assert(r@ =~= self@);
        r
    }
}

} // verus!
