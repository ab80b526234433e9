//! Types of a schema that values are read as.

use crate::schema::elements::{
    empty_atom, lemma_views, resolve_view, AtomView, ElementRelationship, List, ListView, MapView, Scalar, Schema,
    SchemaMap, TypeDef, TypeDefView, TypeRef, TypeRefView,
};
use crate::text::push_str;
use crate::typed::typed_value::{as_typed, valid_value, value_errors, TypedValue, TypedValueView};
use crate::typed::validation::errors_display;
use crate::typed::validation::ValidationOption;
use crate::value::Value;
use vstd::prelude::*;

verus! {

/// An error of reading a typed value.
#[derive(Debug)]
pub struct ParseError {
    pub message: String,
}

impl ParseError {
    /// Creates an error with the given message.
    pub fn new(message: &str) -> (r: ParseError)
        ensures
            r.message@ == message@,
    {
        ParseError { message: String::from_str(message) }
    }

    /// Returns the message.
    pub fn to_string(&self) -> (r: String)
        ensures
            r@ == self.message@,
    {
        self.message.clone()
    }
}

impl Clone for ParseError {
    fn clone(&self) -> (r: ParseError)
        ensures
            r.message@ == self.message@,
    {
        ParseError { message: self.message.clone() }
    }
}

/// A reference to the type of the given name.
pub open spec fn named_ref(name: Seq<char>) -> TypeRefView {
    TypeRefView { named_type: Some(name), inlined: Box::new(empty_atom()), element_relationship: None }
}

/// A schema whose types values are read as.
#[derive(Debug)]
pub struct Parser {
    pub schema: Schema,
}

impl Parser {
    /// The names of the schema's types, in order.
    pub fn type_names(&self) -> (r: Vec<&str>)
        ensures
            r@.len() == self.schema@.len(),
            forall|i: int| 0 <= i < r@.len() ==> #[trigger] r@[i]@ == self.schema@[i].name,
    {
        let types = &self.schema.types;
        let mut names: Vec<&str> = Vec::new();
        let mut i: usize = 0;
        while i < types.len()
            invariant
                i <= types@.len(),
                types@ == self.schema.types@,
                self.schema@.len() == types@.len(),
                forall|j: int| 0 <= j < types@.len() ==> #[trigger] self.schema@[j] == types@[j]@,
                names@.len() == i,
                forall|j: int| 0 <= j < i ==> #[trigger] names@[j]@ == self.schema@[j].name,
            decreases types@.len() - i,
        {
            names.push(types[i].name.as_str());
            i = i + 1;
        }
        names
    }

    /// The type of the given name in this schema.
    pub fn type_by_name(&self, name: &str) -> (r: ParseableType)
        ensures
            r.schema@ == self.schema@,
            r.type_ref@ == named_ref(name@),
    {
        let mut type_ref = TypeRef::default();
        type_ref.named_type = Some(String::from_str(name));
        proof {
            lemma_views(type_ref, *type_ref.inlined, arbitrary(), arbitrary(), arbitrary());
        }
        ParseableType { schema: self.schema.clone(), type_ref }
    }
}

impl Clone for Parser {
    fn clone(&self) -> (r: Parser)
        ensures
            r.schema@ == self.schema@,
    {
        Parser { schema: self.schema.clone() }
    }
}

/// A type of a schema that values are read as.
#[derive(Debug)]
pub struct ParseableType {
    pub schema: Schema,
    pub type_ref: TypeRef,
}

impl ParseableType {
    /// Whether the type resolves in the schema.
    pub fn is_valid(&self) -> (r: bool)
        ensures
            r == resolve_view(self.schema@, self.type_ref@) is Some,
    {
        self.schema.resolve(&self.type_ref).is_some()
    }

    /// Reads a value as this type: validates it (see
    /// [`as_typed`](crate::typed::typed_value::as_typed)).
    pub fn from_value(&self, value: Value) -> (r: Result<TypedValue, ParseError>)
        ensures
            r is Ok <==> valid_value(self.schema@, self.type_ref@, value@, false),
            r matches Ok(tv) ==> tv@ == (TypedValueView { value: value@, type_ref: self.type_ref@, schema: self.schema@ }),
            r matches Err(e) ==> e.message@ == "validation failed: "@ + errors_display(
                value_errors(self.schema@, self.type_ref@, value@, Seq::empty(), false),
            ),
    {
        let opts: Vec<ValidationOption> = Vec::new();
        proof {
            assert(!opts@.contains(ValidationOption::AllowDuplicates));
        }
        self.from_value_with_opts(value, opts.as_slice())
    }

    /// Reads a value as this type with the validation options; an invalid
    /// value gives `validation failed: ` and the validation errors.
    pub fn from_value_with_opts(&self, value: Value, opts: &[ValidationOption]) -> (r: Result<TypedValue, ParseError>)
        ensures
            r is Ok <==> valid_value(
                self.schema@,
                self.type_ref@,
                value@,
                opts@.contains(ValidationOption::AllowDuplicates),
            ),
            r matches Ok(tv) ==> tv@ == (TypedValueView { value: value@, type_ref: self.type_ref@, schema: self.schema@ }),
            r matches Err(e) ==> e.message@ == "validation failed: "@ + errors_display(
                value_errors(
                    self.schema@,
                    self.type_ref@,
                    value@,
                    Seq::empty(),
                    opts@.contains(ValidationOption::AllowDuplicates),
                ),
            ),
    {
        match as_typed(value, &self.schema, self.type_ref.clone(), opts) {
            Ok(tv) => Ok(tv),
            Err(e) => {
                let mut message = String::from_str("validation failed: ");
                let text = e.to_string();
                push_str(&mut message, text.as_str());
                Err(ParseError { message })
            },
        }
    }
}

impl Clone for ParseableType {
    fn clone(&self) -> (r: ParseableType)
        ensures
            r.schema@ == self.schema@,
            r.type_ref@ == self.type_ref@,
    {
        ParseableType { schema: self.schema.clone(), type_ref: self.type_ref.clone() }
    }
}

/// An untyped scalar that is also a list of `list_items` and a map of
/// `map_items`, with the given relationships.
pub open spec fn untyped_atom(
    list_items: Seq<char>,
    list_rel: ElementRelationship,
    map_items: Seq<char>,
    map_rel: ElementRelationship,
) -> AtomView {
    AtomView {
        scalar: Some(Scalar::Untyped),
        list: Some(
            Box::new(ListView { element_type: named_ref(list_items), element_relationship: list_rel, keys: Seq::empty() }),
        ),
        map: Some(
            Box::new(
                MapView {
                    fields: Seq::empty(),
                    unions: Seq::empty(),
                    element_type: named_ref(map_items),
                    element_relationship: map_rel,
                },
            ),
        ),
    }
}

/// The schema of values read without a schema: `__untyped_atomic_`, whose
/// lists and maps are atomic, and `__untyped_deduced_`, whose maps are
/// separable maps of deduced values and whose lists are atomic.
pub open spec fn deduced_schema() -> Seq<TypeDefView> {
    seq![
        TypeDefView {
            name: "__untyped_atomic_"@,
            atom: untyped_atom("__untyped_atomic_"@, ElementRelationship::Atomic, "__untyped_atomic_"@, ElementRelationship::Atomic),
        },
        TypeDefView {
            name: "__untyped_deduced_"@,
            atom: untyped_atom("__untyped_atomic_"@, ElementRelationship::Atomic, "__untyped_deduced_"@, ElementRelationship::Separable),
        },
    ]
}

/// A reference to the type `name`.
fn named(name: &str) -> (r: TypeRef)
    ensures
        r@ == named_ref(name@),
{
    let mut r = TypeRef::default();
    r.named_type = Some(String::from_str(name));
    proof {
        lemma_views(r, *r.inlined, arbitrary(), arbitrary(), arbitrary());
    }
    r
}

/// The untyped type `name` (see [`untyped_atom`]).
fn untyped_type(
    name: &str,
    list_items: &str,
    list_rel: ElementRelationship,
    map_items: &str,
    map_rel: ElementRelationship,
) -> (r: TypeDef)
    ensures
        r@ == (TypeDefView { name: name@, atom: untyped_atom(list_items@, list_rel, map_items@, map_rel) }),
{
    let list = List { element_type: named(list_items), element_relationship: list_rel, keys: Vec::new() };
    let map = SchemaMap {
        fields: Vec::new(),
        unions: Vec::new(),
        element_type: named(map_items),
        element_relationship: map_rel,
    };
    let atom = crate::schema::elements::Atom { scalar: Some(Scalar::Untyped), list: Some(list), map: Some(map) };
    let r = TypeDef { name: String::from_str(name), atom };
    proof {
        lemma_views(arbitrary(), r.atom, list, map, arbitrary());
        assert(crate::schema::elements::strings_view(list.keys@) =~= Seq::<Seq<char>>::empty());
        assert(map@.fields =~= Seq::empty());
        assert(map@.unions =~= Seq::empty());
        assert(r@.atom =~= untyped_atom(list_items@, list_rel, map_items@, map_rel));
    }
    r
}

/// The type that values are read as when there is no schema:
/// `__untyped_deduced_` of [`deduced_schema`].
pub fn deduced_parseable_type() -> (r: ParseableType)
    ensures
        r.schema@ == deduced_schema(),
        r.type_ref@ == named_ref("__untyped_deduced_"@),
{
    let atomic = untyped_type(
        "__untyped_atomic_",
        "__untyped_atomic_",
        ElementRelationship::Atomic,
        "__untyped_atomic_",
        ElementRelationship::Atomic,
    );
    let deduced = untyped_type(
        "__untyped_deduced_",
        "__untyped_atomic_",
        ElementRelationship::Atomic,
        "__untyped_deduced_",
        ElementRelationship::Separable,
    );
    let schema = Schema { types: vec![atomic, deduced] };
    proof {
        assert(schema@ =~= deduced_schema());
    }
    let parser = Parser { schema };
    parser.type_by_name("__untyped_deduced_")
}

} // verus!
