//! Conversion of OpenAPI schemas into schemas of this library.
//!
//! A `$ref` becomes a map whose items have the named type; Kubernetes'
//! int-or-string becomes a string; preserved unknown fields and embedded
//! resources become untyped maps; strings, numbers and booleans become
//! scalars; arrays become lists (associative for list types `set` and `map`
//! and for the patch strategies `merge` and `retainKeys`, atomic otherwise);
//! objects become maps of their properties, or of their additional
//! properties. In v3, `allOf` merges the properties of its schemas, and
//! `anyOf` and `oneOf` take their first schema. An unknown type becomes an
//! untyped scalar and is reported.
//!
//! Every level of nesting takes one unit of a depth budget: one more than
//! the number of schemas in the document's definitions. A conversion that
//! ends never goes through one schema twice on its way down, so it stays
//! within the budget; only schemas that compose themselves without end
//! (through `allOf` and `$ref`) exhaust it, and are reported.

use super::schema::{AdditionalProperties, OpenAPIDocument, OpenAPIv2, OpenAPIv3, SchemaV2, SchemaV3, UnionDefinition};
use crate::schema::elements::{
    empty_atom, empty_type_ref, lemma_views, opt_str_view, strings_view, type_defs_view, Atom, AtomView,
    ElementRelationship, List, ListView, MapView, Scalar, Schema, SchemaMap, StructField, StructFieldView, TypeDef,
    TypeDefView, TypeRef, TypeRefView, Union, UnionField, UnionFieldView, UnionView,
};
use crate::text::push_str;
use crate::value::{chars_order, compare_str, lemma_chars_order, str_equal};
use vstd::prelude::*;

verus! {

/// `n`, or `u32::MAX` where `n` is larger.
pub open spec fn sat32(n: nat) -> nat {
    if n > u32::MAX {
        u32::MAX as nat
    } else {
        n
    }
}

/// The number of schemas in a v3 schema that a conversion may go into: the
/// schema itself, and within it its properties, items, additional
/// properties, and the members of `allOf`, `anyOf` and `oneOf`.
pub open spec fn count3(s: SchemaV3) -> nat
    decreases s,
{
    1 + props_count3(s.properties@) + match s.items {
        Some(b) => count3(*b),
        None => 0,
    } + match s.additional_properties {
        Some(b) => match *b {
            AdditionalProperties::Schema(x) => count3(x),
            AdditionalProperties::Bool(_) => 0,
        },
        None => 0,
    } + match s.all_of {
        Some(v) => list_count3(v@),
        None => 0,
    } + match s.any_of {
        Some(v) => list_count3(v@),
        None => 0,
    } + match s.one_of {
        Some(v) => list_count3(v@),
        None => 0,
    }
}

/// The number of schemas in named v3 schemas (see [`count3`]).
pub open spec fn props_count3(ps: Seq<(String, SchemaV3)>) -> nat
    decreases ps,
{
    if ps.len() == 0 {
        0
    } else {
        props_count3(ps.drop_last()) + count3(ps[ps.len() - 1].1)
    }
}

/// The number of schemas in v3 schemas (see [`count3`]).
pub open spec fn list_count3(xs: Seq<SchemaV3>) -> nat
    decreases xs,
{
    if xs.len() == 0 {
        0
    } else {
        list_count3(xs.drop_last()) + count3(xs[xs.len() - 1])
    }
}

/// The number of schemas in a v2 schema that a conversion may go into: the
/// schema itself, and within it its properties, items and additional
/// properties.
pub open spec fn count2(s: SchemaV2) -> nat
    decreases s,
{
    1 + props_count2(s.properties@) + match s.items {
        Some(b) => count2(*b),
        None => 0,
    } + match s.additional_properties {
        Some(b) => match *b {
            AdditionalProperties::Schema(x) => count2(x),
            AdditionalProperties::Bool(_) => 0,
        },
        None => 0,
    }
}

/// The number of schemas in named v2 schemas (see [`count2`]).
pub open spec fn props_count2(ps: Seq<(String, SchemaV2)>) -> nat
    decreases ps,
{
    if ps.len() == 0 {
        0
    } else {
        props_count2(ps.drop_last()) + count2(ps[ps.len() - 1].1)
    }
}

/// The depth budget of converting the v3 definitions `defs`: one more than
/// the number of schemas in them.
pub open spec fn budget3(defs: Seq<(String, SchemaV3)>) -> nat {
    sat32(props_count3(defs) + 1)
}

/// The depth budget of converting the v2 definitions `defs`: one more than
/// the number of schemas in them.
pub open spec fn budget2(defs: Seq<(String, SchemaV2)>) -> nat {
    sat32(props_count2(defs) + 1)
}

// ---------------------------------------------------------------------------
// Errors and results.
// ---------------------------------------------------------------------------

/// A problem found while converting: where, and what.
#[derive(Debug)]
pub struct ConversionError {
    pub path: String,
    pub message: String,
}

impl View for ConversionError {
    type V = (Seq<char>, Seq<char>);

    open spec fn view(&self) -> (Seq<char>, Seq<char>) {
        (self.path@, self.message@)
    }
}

impl ConversionError {
    /// Returns the message: the path, a colon, and what was found.
    pub fn to_string(&self) -> (r: String)
        ensures
            r@ == self.path@ + ": "@ + self.message@,
    {
        let mut out = String::new();
        push_str(&mut out, self.path.as_str());
        push_str(&mut out, ": ");
        push_str(&mut out, self.message.as_str());
        out
    }
}

/// The views of a list of errors.
pub open spec fn errors_view(es: Seq<ConversionError>) -> Seq<(Seq<char>, Seq<char>)> {
    es.map_values(|e: ConversionError| e@)
}

/// The schema that a conversion made, and the problems it reported.
#[derive(Debug)]
pub struct ConversionResult {
    pub schema: Schema,
    pub errors: Vec<ConversionError>,
}

/// Converts OpenAPI documents, collecting the problems it finds.
pub struct OpenAPIConverter {
    errors: Vec<ConversionError>,
}

// ---------------------------------------------------------------------------
// The parts of the conversion that do not depend on the version.
// ---------------------------------------------------------------------------

/// The name of the type that a `$ref` points to: what follows
/// `#/definitions/` or `#/components/schemas/`, or else what follows the
/// last `/`.
pub open spec fn ref_type_name(r: Seq<char>) -> Seq<char> {
    let d = "#/definitions/"@;
    let c = "#/components/schemas/"@;
    if r.len() >= d.len() && r.take(d.len() as int) == d {
        r.skip(d.len() as int)
    } else if r.len() >= c.len() && r.take(c.len() as int) == c {
        r.skip(c.len() as int)
    } else {
        after_last_slash(r)
    }
}

/// What follows the last `/` of `r`, or all of `r` when it has none.
pub open spec fn after_last_slash(r: Seq<char>) -> Seq<char>
    decreases r.len(),
{
    if r.len() == 0 {
        r
    } else if r.last() == '/' {
        Seq::empty()
    } else {
        after_last_slash(r.drop_last()).push(r.last())
    }
}

/// The optional string is `t`.
pub open spec fn is_str(o: Option<String>, t: Seq<char>) -> bool {
    o is Some && o->0@ == t
}

/// How the items of a list relate: by the list type, else by the patch
/// strategy, else atomic.
pub open spec fn list_relationship(list_type: Option<String>, patch: Option<String>) -> ElementRelationship {
    if is_str(list_type, "atomic"@) {
        ElementRelationship::Atomic
    } else if is_str(list_type, "set"@) || is_str(list_type, "map"@) {
        ElementRelationship::Associative
    } else if is_str(patch, "merge"@) || is_str(patch, "retainKeys"@) {
        ElementRelationship::Associative
    } else {
        ElementRelationship::Atomic
    }
}

/// How the items of a map relate: atomic for the map type `atomic`,
/// separable otherwise.
pub open spec fn map_relationship(map_type: Option<String>) -> ElementRelationship {
    if is_str(map_type, "atomic"@) {
        ElementRelationship::Atomic
    } else {
        ElementRelationship::Separable
    }
}

/// The union that a Kubernetes union stands for.
pub open spec fn union_of(u: UnionDefinition) -> UnionView {
    UnionView {
        discriminator: opt_str_view(u.discriminator),
        deduce_invalid_discriminator: false,
        fields: u.fields_to_discriminate_by@.map_values(
            |p: (String, String)| UnionFieldView { field_name: p.0@, discriminator_value: p.1@ },
        ),
    }
}

/// The unions of a schema.
pub open spec fn unions_of(us: Option<Vec<UnionDefinition>>) -> Seq<UnionView> {
    match us {
        Some(v) => v@.map_values(|u: UnionDefinition| union_of(u)),
        None => Seq::empty(),
    }
}

/// The keys of an associative list.
pub open spec fn keys_of(ks: Option<Vec<String>>) -> Seq<Seq<char>> {
    match ks {
        Some(v) => strings_view(v@),
        None => Seq::empty(),
    }
}

/// The text of a schema's type, empty when it has none.
pub open spec fn type_text(t: Option<String>) -> Seq<char> {
    match t {
        Some(x) => x@,
        None => ""@,
    }
}

/// A reference to the named type.
pub open spec fn named_ref(n: Seq<char>) -> TypeRefView {
    TypeRefView { named_type: Some(n), inlined: Box::new(empty_atom()), element_relationship: None }
}

/// A reference to an inlined type.
pub open spec fn inlined_ref(a: AtomView) -> TypeRefView {
    TypeRefView { named_type: None, inlined: Box::new(a), element_relationship: None }
}

/// The type of values whose type is deduced from the values themselves.
pub open spec fn untyped_deduced() -> TypeRefView {
    named_ref("__untyped_deduced_"@)
}

/// The type of untyped values taken as a whole.
pub open spec fn untyped_atomic() -> TypeRefView {
    named_ref("__untyped_atomic_"@)
}

pub open spec fn scalar_atom(s: Scalar) -> AtomView {
    AtomView { scalar: Some(s), list: None, map: None }
}

pub open spec fn list_atom(l: ListView) -> AtomView {
    AtomView { scalar: None, list: Some(Box::new(l)), map: None }
}

pub open spec fn map_atom(m: MapView) -> AtomView {
    AtomView { scalar: None, list: None, map: Some(Box::new(m)) }
}

/// A map with no fields whose items have type `t`.
pub open spec fn element_map(t: TypeRefView, er: ElementRelationship) -> MapView {
    MapView { fields: Seq::empty(), unions: Seq::empty(), element_type: t, element_relationship: er }
}

/// What a `$ref` schema converts to.
pub open spec fn ref_atom(r: Seq<char>) -> AtomView {
    map_atom(element_map(named_ref(ref_type_name(r)), ElementRelationship::Separable))
}

/// What a schema whose depth budget ran out converts to.
pub open spec fn too_deep(path: Seq<char>) -> (AtomView, Seq<(Seq<char>, Seq<char>)>) {
    (scalar_atom(Scalar::Untyped), seq![(path, "schema nested too deeply"@)])
}

/// What a schema of an unknown type converts to.
pub open spec fn unknown_type(path: Seq<char>, t: Seq<char>) -> (AtomView, Seq<(Seq<char>, Seq<char>)>) {
    (scalar_atom(Scalar::Untyped), seq![(path, "Unknown type: "@ + t)])
}

// ---------------------------------------------------------------------------
// Version 3.
// ---------------------------------------------------------------------------

/// The named entries of a document as names and schemas.
pub open spec fn named3(v: Seq<(String, SchemaV3)>) -> Seq<(Seq<char>, SchemaV3)> {
    v.map_values(|p: (String, SchemaV3)| (p.0@, p.1))
}

/// The definition named `n`, the first one if several are.
pub open spec fn find_def3(defs: Seq<(String, SchemaV3)>, n: Seq<char>) -> Option<SchemaV3>
    decreases defs.len(),
{
    if defs.len() == 0 {
        None
    } else if defs[0].0@ == n {
        Some(defs[0].1)
    } else {
        find_def3(defs.drop_first(), n)
    }
}

/// Adds a property to properties kept in the order of their names; one of
/// the same name is replaced.
pub open spec fn props_insert3(ps: Seq<(Seq<char>, SchemaV3)>, e: (Seq<char>, SchemaV3)) -> Seq<(Seq<char>, SchemaV3)>
    decreases ps.len(),
{
    if ps.len() == 0 {
        seq![e]
    } else if ps[0].0 == e.0 {
        seq![e] + ps.drop_first()
    } else if chars_order(e.0, ps[0].0) < 0 {
        seq![e] + ps
    } else {
        seq![ps[0]] + props_insert3(ps.drop_first(), e)
    }
}

/// Adds properties one after the other.
pub open spec fn props_insert_all3(ps: Seq<(Seq<char>, SchemaV3)>, src: Seq<(Seq<char>, SchemaV3)>) -> Seq<(Seq<char>, SchemaV3)>
    decreases src.len(),
{
    if src.len() == 0 {
        ps
    } else {
        props_insert3(props_insert_all3(ps, src.drop_last()), src.last())
    }
}

/// The properties of the schemas of an `allOf`, a `$ref` standing for the
/// properties of its definition, merged by name.
pub open spec fn merged_props3(xs: Seq<SchemaV3>, defs: Seq<(String, SchemaV3)>) -> Seq<(Seq<char>, SchemaV3)>
    decreases xs.len(),
{
    if xs.len() == 0 {
        Seq::empty()
    } else {
        let x = xs.last();
        let src = match x.ref_path {
            Some(r) => match find_def3(defs, ref_type_name(r@)) {
                Some(d) => named3(d.properties@),
                None => Seq::empty(),
            },
            None => named3(x.properties@),
        };
        props_insert_all3(merged_props3(xs.drop_last(), defs), src)
    }
}

/// What a v3 schema converts to at `path`, with the problems found, with
/// `fuel` levels of depth left.
pub open spec fn conv3(s: SchemaV3, defs: Seq<(String, SchemaV3)>, path: Seq<char>, fuel: nat) -> (
    AtomView,
    Seq<(Seq<char>, Seq<char>)>,
)
    decreases fuel, 3int, 0int,
{
    if fuel == 0 {
        too_deep(path)
    } else if s.ref_path is Some {
        (ref_atom(s.ref_path->0@), Seq::empty())
    } else if s.all_of is Some && s.all_of->0@.len() > 0 {
        obj3(
            merged_props3(s.all_of->0@, defs),
            None,
            ElementRelationship::Separable,
            Seq::empty(),
            defs,
            path,
            (fuel - 1) as nat,
        )
    } else if s.any_of is Some && s.any_of->0@.len() > 0 {
        conv3(s.any_of->0@[0], defs, path, (fuel - 1) as nat)
    } else if s.one_of is Some && s.one_of->0@.len() > 0 {
        conv3(s.one_of->0@[0], defs, path, (fuel - 1) as nat)
    } else if s.x_kubernetes_int_or_string == Some(true) {
        (scalar_atom(Scalar::String), Seq::empty())
    } else if s.x_kubernetes_preserve_unknown_fields == Some(true) || s.x_kubernetes_embedded_resource == Some(true) {
        (map_atom(element_map(untyped_deduced(), ElementRelationship::Separable)), Seq::empty())
    } else {
        let t = type_text(s.schema_type);
        if t == "string"@ {
            (scalar_atom(Scalar::String), Seq::empty())
        } else if t == "integer"@ || t == "number"@ {
            (scalar_atom(Scalar::Numeric), Seq::empty())
        } else if t == "boolean"@ {
            (scalar_atom(Scalar::Boolean), Seq::empty())
        } else if t == "array"@ {
            arr3(s, defs, path, (fuel - 1) as nat)
        } else if t == "object"@ || t == ""@ {
            obj3(
                named3(s.properties@),
                s.additional_properties,
                map_relationship(s.x_kubernetes_map_type),
                unions_of(s.x_kubernetes_unions),
                defs,
                path,
                (fuel - 1) as nat,
            )
        } else {
            unknown_type(path, t)
        }
    }
}

/// What a v3 array converts to: a list of its items' type (untyped and
/// atomic when it has none).
pub open spec fn arr3(s: SchemaV3, defs: Seq<(String, SchemaV3)>, path: Seq<char>, fuel: nat) -> (
    AtomView,
    Seq<(Seq<char>, Seq<char>)>,
)
    decreases fuel, 5int, 0int,
{
    let (et, es) = match s.items {
        Some(it) => tconv3(*it, defs, path + ".items"@, fuel),
        None => (untyped_atomic(), Seq::empty()),
    };
    (
        list_atom(
            ListView {
                element_type: et,
                element_relationship: list_relationship(s.x_kubernetes_list_type, s.x_kubernetes_patch_strategy),
                keys: keys_of(s.x_kubernetes_list_map_keys),
            },
        ),
        es,
    )
}

/// The reference that a v3 schema converts to: a name for a `$ref`, an
/// inlined type otherwise.
pub open spec fn tconv3(s: SchemaV3, defs: Seq<(String, SchemaV3)>, path: Seq<char>, fuel: nat) -> (
    TypeRefView,
    Seq<(Seq<char>, Seq<char>)>,
)
    decreases fuel, 4int, 0int,
{
    if s.ref_path is Some {
        (named_ref(ref_type_name(s.ref_path->0@)), Seq::empty())
    } else {
        let (a, es) = conv3(s, defs, path, fuel);
        (inlined_ref(a), es)
    }
}

/// The fields that v3 properties convert to, in order.
pub open spec fn fields3(ps: Seq<(Seq<char>, SchemaV3)>, defs: Seq<(String, SchemaV3)>, path: Seq<char>, fuel: nat) -> (
    Seq<StructFieldView>,
    Seq<(Seq<char>, Seq<char>)>,
)
    decreases fuel, 5int, ps.len(),
{
    if ps.len() == 0 {
        (Seq::empty(), Seq::empty())
    } else {
        let (fs, es) = fields3(ps.drop_last(), defs, path, fuel);
        let p = ps.last();
        let (t, e) = tconv3(p.1, defs, path + "."@ + p.0, fuel);
        (
            fs.push(
                StructFieldView {
                    name: p.0,
                    field_type: t,
                    default: match p.1.default {
                        Some(v) => Some(v@),
                        None => None,
                    },
                },
            ),
            es + e,
        )
    }
}

/// The type of the additional properties of a v3 object.
pub open spec fn addl3(
    a: Option<Box<AdditionalProperties<SchemaV3>>>,
    defs: Seq<(String, SchemaV3)>,
    path: Seq<char>,
    fuel: nat,
) -> (TypeRefView, Seq<(Seq<char>, Seq<char>)>)
    decreases fuel, 5int, 0int,
{
    match a {
        None => (empty_type_ref(), Seq::empty()),
        Some(b) => match *b {
            AdditionalProperties::Bool(true) => (untyped_deduced(), Seq::empty()),
            AdditionalProperties::Bool(false) => (empty_type_ref(), Seq::empty()),
            AdditionalProperties::Schema(x) => tconv3(x, defs, path + ".additionalProperties"@, fuel),
        },
    }
}

/// What a v3 object converts to: a map of its properties, with its
/// additional properties as the type of the other fields; or a map of its
/// additional properties; or an untyped map.
pub open spec fn obj3(
    ps: Seq<(Seq<char>, SchemaV3)>,
    additional: Option<Box<AdditionalProperties<SchemaV3>>>,
    er: ElementRelationship,
    unions: Seq<UnionView>,
    defs: Seq<(String, SchemaV3)>,
    path: Seq<char>,
    fuel: nat,
) -> (AtomView, Seq<(Seq<char>, Seq<char>)>)
    decreases fuel, 6int, 0int,
{
    if ps.len() > 0 {
        let (fs, e1) = fields3(ps, defs, path, fuel);
        let (et, e2) = addl3(additional, defs, path, fuel);
        (map_atom(MapView { fields: fs, unions, element_type: et, element_relationship: er }), e1 + e2)
    } else if additional is Some {
        let (et, es) = addl3(additional, defs, path, fuel);
        (map_atom(element_map(et, er)), es)
    } else {
        (map_atom(element_map(untyped_deduced(), er)), Seq::empty())
    }
}

/// The named types of the definitions `ds`, and the problems found.
pub open spec fn types3(ds: Seq<(String, SchemaV3)>, defs: Seq<(String, SchemaV3)>) -> (
    Seq<TypeDefView>,
    Seq<(Seq<char>, Seq<char>)>,
)
    decreases ds.len(),
{
    if ds.len() == 0 {
        (Seq::empty(), Seq::empty())
    } else {
        let (ts, es) = types3(ds.drop_last(), defs);
        let d = ds.last();
        let (a, e) = conv3(d.1, defs, d.0@, budget3(defs));
        (ts.push(TypeDefView { name: d.0@, atom: a }), es + e)
    }
}

// Version 2.
// ---------------------------------------------------------------------------

/// The named entries of a document as names and schemas.
pub open spec fn named2(v: Seq<(String, SchemaV2)>) -> Seq<(Seq<char>, SchemaV2)> {
    v.map_values(|p: (String, SchemaV2)| (p.0@, p.1))
}

/// What a v2 schema converts to at `path`, with the problems found, with
/// `fuel` levels of depth left.
pub open spec fn conv2(s: SchemaV2, defs: Seq<(String, SchemaV2)>, path: Seq<char>, fuel: nat) -> (
    AtomView,
    Seq<(Seq<char>, Seq<char>)>,
)
    decreases fuel, 3int, 0int,
{
    if fuel == 0 {
        too_deep(path)
    } else if s.ref_path is Some {
        (ref_atom(s.ref_path->0@), Seq::empty())
    } else if s.x_kubernetes_int_or_string == Some(true) {
        (scalar_atom(Scalar::String), Seq::empty())
    } else if s.x_kubernetes_preserve_unknown_fields == Some(true) || s.x_kubernetes_embedded_resource == Some(true) {
        (map_atom(element_map(untyped_deduced(), ElementRelationship::Separable)), Seq::empty())
    } else {
        let t = type_text(s.schema_type);
        if t == "string"@ {
            (scalar_atom(Scalar::String), Seq::empty())
        } else if t == "integer"@ || t == "number"@ {
            (scalar_atom(Scalar::Numeric), Seq::empty())
        } else if t == "boolean"@ {
            (scalar_atom(Scalar::Boolean), Seq::empty())
        } else if t == "array"@ {
            arr2(s, defs, path, (fuel - 1) as nat)
        } else if t == "object"@ || t == ""@ {
            obj2(
                named2(s.properties@),
                s.additional_properties,
                map_relationship(s.x_kubernetes_map_type),
                unions_of(s.x_kubernetes_unions),
                defs,
                path,
                (fuel - 1) as nat,
            )
        } else {
            unknown_type(path, t)
        }
    }
}

/// What a v2 array converts to: a list of its items' type (untyped and
/// atomic when it has none).
pub open spec fn arr2(s: SchemaV2, defs: Seq<(String, SchemaV2)>, path: Seq<char>, fuel: nat) -> (
    AtomView,
    Seq<(Seq<char>, Seq<char>)>,
)
    decreases fuel, 5int, 0int,
{
    let (et, es) = match s.items {
        Some(it) => tconv2(*it, defs, path + ".items"@, fuel),
        None => (untyped_atomic(), Seq::empty()),
    };
    (
        list_atom(
            ListView {
                element_type: et,
                element_relationship: list_relationship(s.x_kubernetes_list_type, s.x_kubernetes_patch_strategy),
                keys: keys_of(s.x_kubernetes_list_map_keys),
            },
        ),
        es,
    )
}

/// The reference that a v2 schema converts to: a name for a `$ref`, an
/// inlined type otherwise.
pub open spec fn tconv2(s: SchemaV2, defs: Seq<(String, SchemaV2)>, path: Seq<char>, fuel: nat) -> (
    TypeRefView,
    Seq<(Seq<char>, Seq<char>)>,
)
    decreases fuel, 4int, 0int,
{
    if s.ref_path is Some {
        (named_ref(ref_type_name(s.ref_path->0@)), Seq::empty())
    } else {
        let (a, es) = conv2(s, defs, path, fuel);
        (inlined_ref(a), es)
    }
}

/// The fields that v2 properties convert to, in order.
pub open spec fn fields2(ps: Seq<(Seq<char>, SchemaV2)>, defs: Seq<(String, SchemaV2)>, path: Seq<char>, fuel: nat) -> (
    Seq<StructFieldView>,
    Seq<(Seq<char>, Seq<char>)>,
)
    decreases fuel, 5int, ps.len(),
{
    if ps.len() == 0 {
        (Seq::empty(), Seq::empty())
    } else {
        let (fs, es) = fields2(ps.drop_last(), defs, path, fuel);
        let p = ps.last();
        let (t, e) = tconv2(p.1, defs, path + "."@ + p.0, fuel);
        (
            fs.push(
                StructFieldView {
                    name: p.0,
                    field_type: t,
                    default: match p.1.default {
                        Some(v) => Some(v@),
                        None => None,
                    },
                },
            ),
            es + e,
        )
    }
}

/// The type of the additional properties of a v2 object.
pub open spec fn addl2(
    a: Option<Box<AdditionalProperties<SchemaV2>>>,
    defs: Seq<(String, SchemaV2)>,
    path: Seq<char>,
    fuel: nat,
) -> (TypeRefView, Seq<(Seq<char>, Seq<char>)>)
    decreases fuel, 5int, 0int,
{
    match a {
        None => (empty_type_ref(), Seq::empty()),
        Some(b) => match *b {
            AdditionalProperties::Bool(true) => (untyped_deduced(), Seq::empty()),
            AdditionalProperties::Bool(false) => (empty_type_ref(), Seq::empty()),
            AdditionalProperties::Schema(x) => tconv2(x, defs, path + ".additionalProperties"@, fuel),
        },
    }
}

/// What a v2 object converts to: a map of its properties, with its
/// additional properties as the type of the other fields; or a map of its
/// additional properties; or an untyped map.
pub open spec fn obj2(
    ps: Seq<(Seq<char>, SchemaV2)>,
    additional: Option<Box<AdditionalProperties<SchemaV2>>>,
    er: ElementRelationship,
    unions: Seq<UnionView>,
    defs: Seq<(String, SchemaV2)>,
    path: Seq<char>,
    fuel: nat,
) -> (AtomView, Seq<(Seq<char>, Seq<char>)>)
    decreases fuel, 6int, 0int,
{
    if ps.len() > 0 {
        let (fs, e1) = fields2(ps, defs, path, fuel);
        let (et, e2) = addl2(additional, defs, path, fuel);
        (map_atom(MapView { fields: fs, unions, element_type: et, element_relationship: er }), e1 + e2)
    } else if additional is Some {
        let (et, es) = addl2(additional, defs, path, fuel);
        (map_atom(element_map(et, er)), es)
    } else {
        (map_atom(element_map(untyped_deduced(), er)), Seq::empty())
    }
}

/// The named types of the definitions `ds`, and the problems found.
pub open spec fn types2(ds: Seq<(String, SchemaV2)>, defs: Seq<(String, SchemaV2)>) -> (
    Seq<TypeDefView>,
    Seq<(Seq<char>, Seq<char>)>,
)
    decreases ds.len(),
{
    if ds.len() == 0 {
        (Seq::empty(), Seq::empty())
    } else {
        let (ts, es) = types2(ds.drop_last(), defs);
        let d = ds.last();
        let (a, e) = conv2(d.1, defs, d.0@, budget2(defs));
        (ts.push(TypeDefView { name: d.0@, atom: a }), es + e)
    }
}

// ---------------------------------------------------------------------------
// ---------------------------------------------------------------------------
// Depth budgets.
// ---------------------------------------------------------------------------

/// The number of schemas in a v3 schema, up to `u32::MAX`.
fn count_v3(s: &SchemaV3) -> (r: u32)
    ensures
        r == sat32(count3(*s)),
    decreases s,
{
    let mut n: u32 = 1;
    let ps = &s.properties;
    let mut i: usize = 0;
    proof {
        assert(ps@.take(0) =~= Seq::<(String, SchemaV3)>::empty());
    }
    while i < ps.len()
        invariant
            ps == s.properties,
            i <= ps@.len(),
            n == sat32(1 + props_count3(ps@.take(i as int))),
        decreases ps@.len() - i,
    {
        proof {
            assert(decreases_to!(*s => s.properties));
            assert(decreases_to!(s.properties => s.properties@));
            assert(decreases_to!(s.properties@ => s.properties@[i as int]));
            assert(decreases_to!(s.properties@[i as int] => s.properties@[i as int].1));
        }
        let c = count_v3(&ps[i].1);
        n = n.saturating_add(c);
        proof {
            assert(ps@.take(i + 1).drop_last() =~= ps@.take(i as int));
            assert(ps@.take(i + 1)[i as int] == ps@[i as int]);
        }
        i = i + 1;
    }
    proof {
        assert(ps@.take(ps@.len() as int) =~= ps@);
    }
    match &s.items {
        Some(b) => {
            proof {
                assert(decreases_to!(*s => s.items));
            }
            let c = count_v3(b);
            n = n.saturating_add(c);
        },
        None => {},
    }
    match &s.additional_properties {
        Some(b) => match &**b {
            AdditionalProperties::Schema(x) => {
                proof {
                    assert(decreases_to!(*s => s.additional_properties));
                }
                let c = count_v3(x);
                n = n.saturating_add(c);
            },
            AdditionalProperties::Bool(_) => {},
        },
        None => {},
    }
    match &s.all_of {
        Some(v) => {
            proof {
                assert(decreases_to!(*s => s.all_of));
            }
            let c = count_list_v3(v);
            n = n.saturating_add(c);
        },
        None => {},
    }
    match &s.any_of {
        Some(v) => {
            proof {
                assert(decreases_to!(*s => s.any_of));
            }
            let c = count_list_v3(v);
            n = n.saturating_add(c);
        },
        None => {},
    }
    match &s.one_of {
        Some(v) => {
            proof {
                assert(decreases_to!(*s => s.one_of));
            }
            let c = count_list_v3(v);
            n = n.saturating_add(c);
        },
        None => {},
    }
    n
}

/// The number of schemas in v3 schemas, up to `u32::MAX`.
fn count_list_v3(v: &Vec<SchemaV3>) -> (r: u32)
    ensures
        r == sat32(list_count3(v@)),
    decreases v,
{
    let mut n: u32 = 0;
    let mut i: usize = 0;
    proof {
        assert(v@.take(0) =~= Seq::<SchemaV3>::empty());
    }
    while i < v.len()
        invariant
            i <= v@.len(),
            n == sat32(list_count3(v@.take(i as int))),
        decreases v@.len() - i,
    {
        proof {
            assert(decreases_to!(*v => v@));
            assert(decreases_to!(v@ => v@[i as int]));
        }
        let c = count_v3(&v[i]);
        n = n.saturating_add(c);
        proof {
            assert(v@.take(i + 1).drop_last() =~= v@.take(i as int));
            assert(v@.take(i + 1)[i as int] == v@[i as int]);
        }
        i = i + 1;
    }
    proof {
        assert(v@.take(v@.len() as int) =~= v@);
    }
    n
}

/// The depth budget of converting v3 definitions (see [`budget3`]).
fn budget_v3(defs: &Vec<(String, SchemaV3)>) -> (r: u32)
    ensures
        r == budget3(defs@),
{
    let mut n: u32 = 1;
    let mut i: usize = 0;
    proof {
        assert(defs@.take(0) =~= Seq::<(String, SchemaV3)>::empty());
    }
    while i < defs.len()
        invariant
            i <= defs@.len(),
            n == sat32(props_count3(defs@.take(i as int)) + 1),
        decreases defs@.len() - i,
    {
        let c = count_v3(&defs[i].1);
        n = n.saturating_add(c);
        proof {
            assert(defs@.take(i + 1).drop_last() =~= defs@.take(i as int));
            assert(defs@.take(i + 1)[i as int] == defs@[i as int]);
        }
        i = i + 1;
    }
    proof {
        assert(defs@.take(defs@.len() as int) =~= defs@);
    }
    n
}

/// The number of schemas in a v2 schema, up to `u32::MAX`.
fn count_v2(s: &SchemaV2) -> (r: u32)
    ensures
        r == sat32(count2(*s)),
    decreases s,
{
    let mut n: u32 = 1;
    let ps = &s.properties;
    let mut i: usize = 0;
    proof {
        assert(ps@.take(0) =~= Seq::<(String, SchemaV2)>::empty());
    }
    while i < ps.len()
        invariant
            ps == s.properties,
            i <= ps@.len(),
            n == sat32(1 + props_count2(ps@.take(i as int))),
        decreases ps@.len() - i,
    {
        proof {
            assert(decreases_to!(*s => s.properties));
            assert(decreases_to!(s.properties => s.properties@));
            assert(decreases_to!(s.properties@ => s.properties@[i as int]));
            assert(decreases_to!(s.properties@[i as int] => s.properties@[i as int].1));
        }
        let c = count_v2(&ps[i].1);
        n = n.saturating_add(c);
        proof {
            assert(ps@.take(i + 1).drop_last() =~= ps@.take(i as int));
            assert(ps@.take(i + 1)[i as int] == ps@[i as int]);
        }
        i = i + 1;
    }
    proof {
        assert(ps@.take(ps@.len() as int) =~= ps@);
    }
    match &s.items {
        Some(b) => {
            proof {
                assert(decreases_to!(*s => s.items));
            }
            let c = count_v2(b);
            n = n.saturating_add(c);
        },
        None => {},
    }
    match &s.additional_properties {
        Some(b) => match &**b {
            AdditionalProperties::Schema(x) => {
                proof {
                    assert(decreases_to!(*s => s.additional_properties));
                }
                let c = count_v2(x);
                n = n.saturating_add(c);
            },
            AdditionalProperties::Bool(_) => {},
        },
        None => {},
    }
    n
}

/// The depth budget of converting v2 definitions (see [`budget2`]).
fn budget_v2(defs: &Vec<(String, SchemaV2)>) -> (r: u32)
    ensures
        r == budget2(defs@),
{
    let mut n: u32 = 1;
    let mut i: usize = 0;
    proof {
        assert(defs@.take(0) =~= Seq::<(String, SchemaV2)>::empty());
    }
    while i < defs.len()
        invariant
            i <= defs@.len(),
            n == sat32(props_count2(defs@.take(i as int)) + 1),
        decreases defs@.len() - i,
    {
        let c = count_v2(&defs[i].1);
        n = n.saturating_add(c);
        proof {
            assert(defs@.take(i + 1).drop_last() =~= defs@.take(i as int));
            assert(defs@.take(i + 1)[i as int] == defs@[i as int]);
        }
        i = i + 1;
    }
    proof {
        assert(defs@.take(defs@.len() as int) =~= defs@);
    }
    n
}

// ---------------------------------------------------------------------------
// Executable helpers shared by both versions.
// ---------------------------------------------------------------------------

/// Whether the optional string is `t`.
fn opt_is(o: &Option<String>, t: &str) -> (r: bool)
    ensures
        r == is_str(*o, t@),
{
    match o {
        Some(x) => str_equal(x.as_str(), t),
        None => false,
    }
}

/// `a`, then `b`, then `c`.
fn join3(a: &str, b: &str, c: &str) -> (r: String)
    ensures
        r@ == a@ + b@ + c@,
{
    let mut out = String::new();
    push_str(&mut out, a);
    push_str(&mut out, b);
    push_str(&mut out, c);
    out
}

proof fn lemma_after_last_slash_step(r: Seq<char>, i: int)
    requires
        0 < i <= r.len(),
        r[i - 1] != '/',
    ensures
        after_last_slash(r.take(i)) == after_last_slash(r.take(i - 1)).push(r[i - 1]),
{
    assert(r.take(i).drop_last() =~= r.take(i - 1));
}

/// What follows the prefix `pre` of `r`, when `r` starts with it.
fn strip(r: &str, pre: &str) -> (out: Option<String>)
    ensures
        out is Some == (r@.len() >= pre@.len() && r@.take(pre@.len() as int) == pre@),
        out matches Some(x) ==> x@ == r@.skip(pre@.len() as int),
{
    let n = r.unicode_len();
    let k = pre.unicode_len();
    if n < k {
        return None;
    }
    let head = r.substring_char(0, k);
    let rest = r.substring_char(k, n);
    proof {
        assert(head@ =~= r@.take(k as int));
        assert(rest@ =~= r@.skip(k as int));
    }
    if !str_equal(head, pre) {
        return None;
    }
    Some(String::from_str(rest))
}

/// The chars of a reference.
fn after_slash(r: &str) -> (out: String)
    ensures
        out@ == after_last_slash(r@),
{
    let n = r.unicode_len();
    let mut i: usize = n;
    proof {
        assert(r@.take(n as int) =~= r@);
        assert(r@.subrange(n as int, n as int) =~= Seq::<char>::empty());
    }
    while i > 0
        invariant
            i <= n,
            n == r@.len(),
            after_last_slash(r@) == after_last_slash(r@.take(i as int)) + r@.subrange(i as int, n as int),
        decreases i,
    {
        let c = r.get_char(i - 1);
        if c == '/' {
            proof {
                assert(r@.take(i as int).last() == '/');
                assert(after_last_slash(r@.take(i as int)) =~= Seq::<char>::empty());
                assert(after_last_slash(r@) =~= r@.subrange(i as int, n as int));
            }
            let rest = r.substring_char(i, n);
            return String::from_str(rest);
        }
        proof {
            lemma_after_last_slash_step(r@, i as int);
            assert(after_last_slash(r@.take(i - 1)).push(r@[i - 1]) + r@.subrange(i as int, n as int) =~= after_last_slash(
                r@.take(i - 1),
            ) + r@.subrange(i - 1, n as int));
        }
        i = i - 1;
    }
    proof {
        assert(after_last_slash(r@.take(0)) =~= Seq::<char>::empty());
        assert(r@.subrange(0, n as int) =~= r@);
    }
    String::from_str(r)
}

/// The name of the type that a `$ref` points to.
fn ref_name(r: &str) -> (n: String)
    ensures
        n@ == ref_type_name(r@),
{
    match strip(r, "#/definitions/") {
        Some(x) => x,
        None => match strip(r, "#/components/schemas/") {
            Some(x) => x,
            None => after_slash(r),
        },
    }
}

/// A reference to the named type.
fn named_type_ref(name: String) -> (t: TypeRef)
    ensures
        t@ == named_ref(name@),
{
    let t = TypeRef { named_type: Some(name), inlined: Box::new(Atom::default()), element_relationship: None };
    proof {
        lemma_views(t, *t.inlined, arbitrary(), arbitrary(), arbitrary());
    }
    t
}

/// A reference to an inlined type.
fn inlined_type_ref(a: Atom) -> (t: TypeRef)
    ensures
        t@ == inlined_ref(a@),
{
    let t = TypeRef { named_type: None, inlined: Box::new(a), element_relationship: None };
    proof {
        lemma_views(t, *t.inlined, arbitrary(), arbitrary(), arbitrary());
    }
    t
}

fn scalar_only(s: Scalar) -> (a: Atom)
    ensures
        a@ == scalar_atom(s),
{
    let a = Atom { scalar: Some(s), list: None, map: None };
    proof {
        lemma_views(arbitrary(), a, arbitrary(), arbitrary(), arbitrary());
    }
    a
}

fn map_only(m: SchemaMap) -> (a: Atom)
    ensures
        a@ == map_atom(m@),
{
    let ghost mv = m@;
    let a = Atom { scalar: None, list: None, map: Some(m) };
    proof {
        lemma_views(arbitrary(), a, arbitrary(), arbitrary(), arbitrary());
    }
    a
}

fn list_only(l: List) -> (a: Atom)
    ensures
        a@ == list_atom(l@),
{
    let a = Atom { scalar: None, list: Some(l), map: None };
    proof {
        lemma_views(arbitrary(), a, arbitrary(), arbitrary(), arbitrary());
    }
    a
}

/// An untyped map of the given relationship.
fn deduced_map(er: ElementRelationship) -> (a: Atom)
    ensures
        a@ == map_atom(element_map(untyped_deduced(), er)),
{
    let t = named_type_ref(String::from_str("__untyped_deduced_"));
    map_only(SchemaMap::with_element_type_and_relationship(t, er))
}

/// The unions of a schema.
fn convert_unions(us: &Option<Vec<UnionDefinition>>) -> (r: Vec<Union>)
    ensures
        r@.map_values(|u: Union| u@) == unions_of(*us),
{
    let mut out: Vec<Union> = Vec::new();
    match us {
        None => {
            proof {
                assert(out@.map_values(|u: Union| u@) =~= Seq::<UnionView>::empty());
            }
        },
        Some(v) => {
            let mut i: usize = 0;
            while i < v.len()
                invariant
                    i <= v@.len(),
                    out@.len() == i,
                    forall|j: int| 0 <= j < i ==> #[trigger] out@[j]@ == union_of(v@[j]),
                decreases v@.len() - i,
            {
                let d = &v[i];
                let mut fields: Vec<UnionField> = Vec::new();
                let mut k: usize = 0;
                while k < d.fields_to_discriminate_by.len()
                    invariant
                        k <= d.fields_to_discriminate_by@.len(),
                        fields@.len() == k,
                        forall|j: int| 0 <= j < k ==> #[trigger] fields@[j]@ == (UnionFieldView {
                            field_name: d.fields_to_discriminate_by@[j].0@,
                            discriminator_value: d.fields_to_discriminate_by@[j].1@,
                        }),
                    decreases d.fields_to_discriminate_by@.len() - k,
                {
                    let p = &d.fields_to_discriminate_by[k];
                    fields.push(UnionField { field_name: p.0.clone(), discriminator_value: p.1.clone() });
                    k = k + 1;
                }
                let disc = match &d.discriminator {
                    Some(x) => Some(x.clone()),
                    None => None,
                };
                let u = Union { discriminator: disc, deduce_invalid_discriminator: false, fields };
                proof {
                    assert(u@.fields =~= union_of(*d).fields);
                }
                out.push(u);
                i = i + 1;
            }
            proof {
                assert(out@.map_values(|u: Union| u@) =~= unions_of(*us));
            }
        },
    }
    out
}

/// The keys of an associative list.
fn clone_keys(ks: &Option<Vec<String>>) -> (r: Vec<String>)
    ensures
        strings_view(r@) == keys_of(*ks),
{
    let mut out: Vec<String> = Vec::new();
    match ks {
        None => {
            proof {
                assert(strings_view(out@) =~= Seq::<Seq<char>>::empty());
            }
        },
        Some(v) => {
            let mut i: usize = 0;
            while i < v.len()
                invariant
                    i <= v@.len(),
                    out@.len() == i,
                    forall|j: int| 0 <= j < i ==> #[trigger] out@[j]@ == v@[j]@,
                decreases v@.len() - i,
            {
                out.push(v[i].clone());
                i = i + 1;
            }
            proof {
                assert(strings_view(out@) =~= strings_view(v@));
            }
        },
    }
    out
}

/// How the items of a list relate.
fn list_relationship_of(list_type: &Option<String>, patch: &Option<String>) -> (r: ElementRelationship)
    ensures
        r == list_relationship(*list_type, *patch),
{
    if opt_is(list_type, "atomic") {
        ElementRelationship::Atomic
    } else if opt_is(list_type, "set") || opt_is(list_type, "map") {
        ElementRelationship::Associative
    } else if opt_is(patch, "merge") || opt_is(patch, "retainKeys") {
        ElementRelationship::Associative
    } else {
        ElementRelationship::Atomic
    }
}

/// How the items of a map relate.
fn map_relationship_of(map_type: &Option<String>) -> (r: ElementRelationship)
    ensures
        r == map_relationship(*map_type),
{
    if opt_is(map_type, "atomic") {
        ElementRelationship::Atomic
    } else {
        ElementRelationship::Separable
    }
}

impl OpenAPIConverter {
    /// The views of the problems found so far.
    pub closed spec fn errors_found(&self) -> Seq<(Seq<char>, Seq<char>)> {
        errors_view(self.errors@)
    }

    /// Creates a converter that has found no problem.
    pub fn new() -> (r: OpenAPIConverter)
        ensures
            r.errors_found() == Seq::<(Seq<char>, Seq<char>)>::empty(),
    {
        let r = OpenAPIConverter { errors: Vec::new() };
        proof {
            assert(errors_view(r.errors@) =~= Seq::<(Seq<char>, Seq<char>)>::empty());
        }
        r
    }

    /// Records a problem.
    fn add_error(&mut self, path: &str, message: String)
        ensures
            final(self).errors_found() == old(self).errors_found().push((path@, message@)),
    {
        let ghost e0 = self.errors@;
        self.errors.push(ConversionError { path: String::from_str(path), message });
        proof {
            assert(errors_view(self.errors@) =~= errors_view(e0).push((path@, message@)));
        }
    }

    /// Converts a string schema, whatever its format.
    fn convert_string_type(&self, _format: &Option<String>) -> (a: Atom)
        ensures
            a@ == scalar_atom(Scalar::String),
    {
        scalar_only(Scalar::String)
    }

    /// Converts a `$ref` schema.
    fn ref_to_atom(&self, r: &str) -> (a: Atom)
        ensures
            a@ == ref_atom(r@),
    {
        let t = named_type_ref(ref_name(r));
        map_only(SchemaMap::with_element_type(t))
    }
}

/// `a`, then `b`.
fn join2(a: &str, b: &str) -> (r: String)
    ensures
        r@ == a@ + b@,
{
    let mut out = String::new();
    push_str(&mut out, a);
    push_str(&mut out, b);
    out
}

// ---------------------------------------------------------------------------
// Executable conversion, version 3.
// ---------------------------------------------------------------------------

/// Properties held by reference, as names and schemas.
pub open spec fn props_view3(v: Seq<(&str, &SchemaV3)>) -> Seq<(Seq<char>, SchemaV3)> {
    v.map_values(|p: (&str, &SchemaV3)| (p.0@, *p.1))
}

/// The properties of a schema, by reference.
fn property_refs_v3<'a>(props: &'a Vec<(String, SchemaV3)>) -> (r: Vec<(&'a str, &'a SchemaV3)>)
    ensures
        props_view3(r@) == named3(props@),
{
    let mut out: Vec<(&'a str, &'a SchemaV3)> = Vec::new();
    let mut i: usize = 0;
    while i < props.len()
        invariant
            i <= props@.len(),
            props_view3(out@) == named3(props@).take(i as int),
        decreases props@.len() - i,
    {
        let ghost before = out@;
        out.push((props[i].0.as_str(), &props[i].1));
        proof {
            assert(props_view3(out@) =~= props_view3(before).push((props@[i as int].0@, props@[i as int].1)));
            assert(named3(props@).take(i + 1) =~= named3(props@).take(i as int).push(named3(props@)[i as int]));
        }
        i = i + 1;
    }
    proof {
        assert(named3(props@).take(props@.len() as int) =~= named3(props@));
    }
    out
}

/// The definition named `name`, the first one if several are.
fn find_definition_v3<'a>(defs: &'a Vec<(String, SchemaV3)>, name: &str) -> (r: Option<&'a SchemaV3>)
    ensures
        match r {
            Some(d) => find_def3(defs@, name@) == Some(*d),
            None => find_def3(defs@, name@) is None,
        },
{
    let mut i: usize = 0;
    proof {
        assert(defs@.skip(0) =~= defs@);
    }
    while i < defs.len()
        invariant
            i <= defs@.len(),
            find_def3(defs@, name@) == find_def3(defs@.skip(i as int), name@),
        decreases defs@.len() - i,
    {
        proof {
            assert(defs@.skip(i as int)[0] == defs@[i as int]);
            assert(defs@.skip(i as int).drop_first() =~= defs@.skip(i + 1));
        }
        if str_equal(defs[i].0.as_str(), name) {
            return Some(&defs[i].1);
        }
        i = i + 1;
    }
    None
}

/// Adds a property to properties kept in the order of their names.
fn props_insert_v3<'a>(ps: &mut Vec<(&'a str, &'a SchemaV3)>, name: &'a str, s: &'a SchemaV3)
    ensures
        props_view3(final(ps)@) == props_insert3(props_view3(old(ps)@), (name@, *s)),
{
    let ghost v0 = props_view3(ps@);
    let ghost e = (name@, *s);
    let mut i: usize = 0;
    proof {
        assert(v0.skip(0) =~= v0);
        assert(v0.take(0) + props_insert3(v0.skip(0), e) =~= props_insert3(v0, e));
    }
    loop
        invariant
            i <= ps@.len(),
            props_view3(ps@) == v0,
            e == (name@, *s),
            props_insert3(v0, e) == v0.take(i as int) + props_insert3(v0.skip(i as int), e),
        ensures
            i <= ps@.len(),
            props_view3(ps@) == v0,
            props_insert3(v0, e) == v0.take(i as int) + props_insert3(v0.skip(i as int), e),
            i == ps@.len() || chars_order(ps@[i as int].0@, name@) >= 0,
        decreases ps@.len() - i,
    {
        if i >= ps.len() {
            break;
        }
        let c = compare_str(ps[i].0, name);
        if c >= 0 {
            break;
        }
        proof {
            let t = v0.skip(i as int);
            assert(t[0] == v0[i as int]);
            assert(v0[i as int] == (ps@[i as int].0@, *ps@[i as int].1));
            lemma_chars_order(v0[i as int].0, name@, name@);
            assert(t.drop_first() =~= v0.skip(i + 1));
            assert(props_insert3(t, e) == seq![v0[i as int]] + props_insert3(v0.skip(i + 1), e));
            assert(v0.take(i as int) + (seq![v0[i as int]] + props_insert3(v0.skip(i + 1), e)) =~= v0.take(i + 1)
                + props_insert3(v0.skip(i + 1), e));
        }
        i = i + 1;
    }
    let ghost before = ps@;
    if i < ps.len() && compare_str(ps[i].0, name) == 0 {
        proof {
            assert(v0[i as int] == (ps@[i as int].0@, *ps@[i as int].1));
            lemma_chars_order(v0[i as int].0, name@, name@);
            let t = v0.skip(i as int);
            assert(t[0] == v0[i as int]);
            assert(t.drop_first() =~= v0.skip(i + 1));
        }
        ps.set(i, (name, s));
        proof {
            assert(props_view3(ps@) =~= v0.take(i as int) + (seq![e] + v0.skip(i + 1)));
        }
    } else {
        proof {
            if i < v0.len() {
                assert(v0[i as int] == (ps@[i as int].0@, *ps@[i as int].1));
                lemma_chars_order(v0[i as int].0, name@, name@);
                assert(v0.skip(i as int)[0] == v0[i as int]);
            } else {
                assert(v0.skip(i as int) =~= Seq::<(Seq<char>, SchemaV3)>::empty());
            }
        }
        ps.insert(i, (name, s));
        proof {
            assert(props_view3(ps@) =~= v0.take(i as int) + (seq![e] + v0.skip(i as int)));
        }
    }
}

/// Adds properties one after the other.
fn props_insert_all_v3<'a>(ps: &mut Vec<(&'a str, &'a SchemaV3)>, src: &'a Vec<(String, SchemaV3)>)
    ensures
        props_view3(final(ps)@) == props_insert_all3(props_view3(old(ps)@), named3(src@)),
{
    let ghost v0 = props_view3(ps@);
    let ghost n = named3(src@);
    let mut k: usize = 0;
    proof {
        assert(n.take(0) =~= Seq::<(Seq<char>, SchemaV3)>::empty());
    }
    while k < src.len()
        invariant
            k <= src@.len(),
            n == named3(src@),
            props_view3(ps@) == props_insert_all3(v0, n.take(k as int)),
        decreases src@.len() - k,
    {
        props_insert_v3(ps, src[k].0.as_str(), &src[k].1);
        proof {
            assert(n.take(k + 1).drop_last() =~= n.take(k as int));
            assert(n.take(k + 1).last() == n[k as int]);
        }
        k = k + 1;
    }
    proof {
        assert(n.take(src@.len() as int) =~= n);
    }
}

impl OpenAPIConverter {
    /// Converts a v3 schema at `path`, with `fuel` levels of depth left.
    fn schema_v3_to_atom(&mut self, schema: &SchemaV3, definitions: &Vec<(String, SchemaV3)>, path: &str, fuel: u32) -> (r:
        Atom)
        ensures
            r@ == conv3(*schema, definitions@, path@, fuel as nat).0,
            final(self).errors_found() == old(self).errors_found() + conv3(*schema, definitions@, path@, fuel as nat).1,
        decreases fuel, 3int, 0int,
    {
        if fuel == 0 {
            self.add_error(path, String::from_str("schema nested too deeply"));
            return scalar_only(Scalar::Untyped);
        }
        match &schema.ref_path {
            Some(r) => {
                proof {
                    assert(old(self).errors_found() + Seq::<(Seq<char>, Seq<char>)>::empty() =~= old(self).errors_found());
                }
                return self.ref_to_atom(r.as_str());
            },
            None => {},
        }
        match &schema.all_of {
            Some(xs) => {
                if xs.len() > 0 {
                    return self.merge_v3_schemas(xs, definitions, path, fuel - 1);
                }
            },
            None => {},
        }
        match &schema.any_of {
            Some(xs) => {
                if xs.len() > 0 {
                    return self.schema_v3_to_atom(&xs[0], definitions, path, fuel - 1);
                }
            },
            None => {},
        }
        match &schema.one_of {
            Some(xs) => {
                if xs.len() > 0 {
                    return self.schema_v3_to_atom(&xs[0], definitions, path, fuel - 1);
                }
            },
            None => {},
        }
        proof {
            assert(old(self).errors_found() + Seq::<(Seq<char>, Seq<char>)>::empty() =~= old(self).errors_found());
        }
        match schema.x_kubernetes_int_or_string {
            Some(true) => {
                return self.convert_string_type(&schema.format);
            },
            _ => {},
        }
        let preserve = match schema.x_kubernetes_preserve_unknown_fields {
            Some(true) => true,
            _ => false,
        };
        let embedded = match schema.x_kubernetes_embedded_resource {
            Some(true) => true,
            _ => false,
        };
        if preserve || embedded {
            return deduced_map(ElementRelationship::Separable);
        }
        let t: &str = match &schema.schema_type {
            Some(x) => x.as_str(),
            None => "",
        };
        if str_equal(t, "string") {
            self.convert_string_type(&schema.format)
        } else if str_equal(t, "integer") || str_equal(t, "number") {
            scalar_only(Scalar::Numeric)
        } else if str_equal(t, "boolean") {
            scalar_only(Scalar::Boolean)
        } else if str_equal(t, "array") {
            self.convert_v3_array(schema, definitions, path, fuel - 1)
        } else if str_equal(t, "object") || str_equal(t, "") {
            let props = property_refs_v3(&schema.properties);
            let er = map_relationship_of(&schema.x_kubernetes_map_type);
            let unions = convert_unions(&schema.x_kubernetes_unions);
            self.convert_v3_object(&props, &schema.additional_properties, er, unions, definitions, path, fuel - 1)
        } else {
            let msg = join2("Unknown type: ", t);
            self.add_error(path, msg);
            scalar_only(Scalar::Untyped)
        }
    }

    /// Converts a v3 schema to a reference: a name for a `$ref`, an inlined
    /// type otherwise.
    fn v3_schema_to_type_ref(
        &mut self,
        schema: &SchemaV3,
        definitions: &Vec<(String, SchemaV3)>,
        path: &str,
        fuel: u32,
    ) -> (r: TypeRef)
        ensures
            r@ == tconv3(*schema, definitions@, path@, fuel as nat).0,
            final(self).errors_found() == old(self).errors_found() + tconv3(*schema, definitions@, path@, fuel as nat).1,
        decreases fuel, 4int, 0int,
    {
        match &schema.ref_path {
            Some(r) => {
                proof {
                    assert(old(self).errors_found() + Seq::<(Seq<char>, Seq<char>)>::empty() =~= old(self).errors_found());
                }
                named_type_ref(ref_name(r.as_str()))
            },
            None => {
                let a = self.schema_v3_to_atom(schema, definitions, path, fuel);
                inlined_type_ref(a)
            },
        }
    }

    /// Converts a v3 array schema.
    fn convert_v3_array(&mut self, schema: &SchemaV3, definitions: &Vec<(String, SchemaV3)>, path: &str, fuel: u32) -> (r:
        Atom)
        ensures
            r@ == arr3(*schema, definitions@, path@, fuel as nat).0,
            final(self).errors_found() == old(self).errors_found() + arr3(*schema, definitions@, path@, fuel as nat).1,
        decreases fuel, 5int, 0int,
    {
        let element_type = match &schema.items {
            Some(it) => {
                let p = join2(path, ".items");
                self.v3_schema_to_type_ref(&**it, definitions, p.as_str(), fuel)
            },
            None => {
                proof {
                    assert(old(self).errors_found() + Seq::<(Seq<char>, Seq<char>)>::empty() =~= old(self).errors_found());
                }
                named_type_ref(String::from_str("__untyped_atomic_"))
            },
        };
        let er = list_relationship_of(&schema.x_kubernetes_list_type, &schema.x_kubernetes_patch_strategy);
        let keys = clone_keys(&schema.x_kubernetes_list_map_keys);
        let l = List { element_type, element_relationship: er, keys };
        proof {
            lemma_views(arbitrary(), arbitrary(), l, arbitrary(), arbitrary());
        }
        list_only(l)
    }

    /// Converts the additional properties of a v3 object to the type of the
    /// other fields.
    fn additional_type_v3(
        &mut self,
        additional: &Option<Box<AdditionalProperties<SchemaV3>>>,
        definitions: &Vec<(String, SchemaV3)>,
        path: &str,
        fuel: u32,
    ) -> (r: TypeRef)
        ensures
            r@ == addl3(*additional, definitions@, path@, fuel as nat).0,
            final(self).errors_found() == old(self).errors_found() + addl3(*additional, definitions@, path@, fuel as nat).1,
        decreases fuel, 5int, 0int,
    {
        proof {
            assert(old(self).errors_found() + Seq::<(Seq<char>, Seq<char>)>::empty() =~= old(self).errors_found());
        }
        match additional {
            None => TypeRef::default(),
            Some(b) => match &**b {
                AdditionalProperties::Bool(true) => named_type_ref(String::from_str("__untyped_deduced_")),
                AdditionalProperties::Bool(false) => TypeRef::default(),
                AdditionalProperties::Schema(x) => {
                    let p = join2(path, ".additionalProperties");
                    self.v3_schema_to_type_ref(x, definitions, p.as_str(), fuel)
                },
            },
        }
    }

    /// Converts v3 properties to fields, in order.
    fn convert_fields_v3(
        &mut self,
        props: &Vec<(&str, &SchemaV3)>,
        definitions: &Vec<(String, SchemaV3)>,
        path: &str,
        fuel: u32,
    ) -> (r: Vec<StructField>)
        ensures
            r@.len() == fields3(props_view3(props@), definitions@, path@, fuel as nat).0.len(),
            forall|i: int| 0 <= i < r@.len() ==> #[trigger] r@[i]@ == fields3(props_view3(props@), definitions@, path@, fuel as nat).0[i],
            final(self).errors_found() == old(self).errors_found() + fields3(props_view3(props@), definitions@, path@, fuel as nat).1,
        decreases fuel, 5int, 0int,
    {
        let ghost pv = props_view3(props@);
        let mut fields: Vec<StructField> = Vec::new();
        let mut i: usize = 0;
        proof {
            assert(pv.take(0) =~= Seq::<(Seq<char>, SchemaV3)>::empty());
            assert(old(self).errors_found() + Seq::<(Seq<char>, Seq<char>)>::empty() =~= old(self).errors_found());
        }
        while i < props.len()
            invariant
                i <= props@.len(),
                pv == props_view3(props@),
                fields@.len() == fields3(pv.take(i as int), definitions@, path@, fuel as nat).0.len(),
                forall|j: int| 0 <= j < fields@.len() ==> #[trigger] fields@[j]@ == fields3(pv.take(i as int), definitions@, path@, fuel as nat).0[j],
                self.errors_found() == old(self).errors_found() + fields3(pv.take(i as int), definitions@, path@, fuel as nat).1,
            decreases props@.len() - i,
        {
            let (name, prop) = props[i];
            let p = join3(path, ".", name);
            let ghost e_before = self.errors_found();
            let field_type = self.v3_schema_to_type_ref(prop, definitions, p.as_str(), fuel);
            let default = match &prop.default {
                Some(v) => Some(v.clone()),
                None => None,
            };
            let f = StructField { name: String::from_str(name), field_type, default };
            proof {
                lemma_views(arbitrary(), arbitrary(), arbitrary(), arbitrary(), f);
                assert(pv.take(i + 1).drop_last() =~= pv.take(i as int));
                assert(pv.take(i + 1).last() == pv[i as int]);
                assert(pv[i as int] == (name@, *prop));
                let prev = fields3(pv.take(i as int), definitions@, path@, fuel as nat);
                assert(self.errors_found() =~= old(self).errors_found() + (prev.1 + tconv3(
                    *prop,
                    definitions@,
                    path@ + "."@ + name@,
                    fuel as nat,
                ).1));
            }
            fields.push(f);
            i = i + 1;
        }
        proof {
            assert(pv.take(props@.len() as int) =~= pv);
        }
        fields
    }

    /// Converts a v3 object given by its parts.
    fn convert_v3_object(
        &mut self,
        props: &Vec<(&str, &SchemaV3)>,
        additional: &Option<Box<AdditionalProperties<SchemaV3>>>,
        er: ElementRelationship,
        unions: Vec<Union>,
        definitions: &Vec<(String, SchemaV3)>,
        path: &str,
        fuel: u32,
    ) -> (r: Atom)
        ensures
            r@ == obj3(props_view3(props@), *additional, er, unions@.map_values(|u: Union| u@), definitions@, path@, fuel as nat).0,
            final(self).errors_found() == old(self).errors_found() + obj3(
                props_view3(props@),
                *additional,
                er,
                unions@.map_values(|u: Union| u@),
                definitions@,
                path@,
                fuel as nat,
            ).1,
        decreases fuel, 6int, 0int,
    {
        if props.len() > 0 {
            let ghost e0 = self.errors_found();
            let fields = self.convert_fields_v3(props, definitions, path, fuel);
            let ghost e1 = self.errors_found();
            let element_type = self.additional_type_v3(additional, definitions, path, fuel);
            let m = SchemaMap { fields, unions, element_type, element_relationship: er };
            proof {
                lemma_views(arbitrary(), arbitrary(), arbitrary(), m, arbitrary());
                assert(m@.fields =~= fields3(props_view3(props@), definitions@, path@, fuel as nat).0);
                assert(self.errors_found() =~= e0 + (fields3(props_view3(props@), definitions@, path@, fuel as nat).1
                    + addl3(*additional, definitions@, path@, fuel as nat).1));
            }
            map_only(m)
        } else if additional.is_some() {
            let element_type = self.additional_type_v3(additional, definitions, path, fuel);
            map_only(SchemaMap::with_element_type_and_relationship(element_type, er))
        } else {
            proof {
                assert(old(self).errors_found() + Seq::<(Seq<char>, Seq<char>)>::empty() =~= old(self).errors_found());
            }
            deduced_map(er)
        }
    }

    /// Converts an `allOf`: the properties of its schemas, merged by name.
    fn merge_v3_schemas(&mut self, schemas: &Vec<SchemaV3>, definitions: &Vec<(String, SchemaV3)>, path: &str, fuel: u32) -> (r:
        Atom)
        ensures
            r@ == obj3(
                merged_props3(schemas@, definitions@),
                None,
                ElementRelationship::Separable,
                Seq::empty(),
                definitions@,
                path@,
                fuel as nat,
            ).0,
            final(self).errors_found() == old(self).errors_found() + obj3(
                merged_props3(schemas@, definitions@),
                None,
                ElementRelationship::Separable,
                Seq::empty(),
                definitions@,
                path@,
                fuel as nat,
            ).1,
        decreases fuel, 7int, 0int,
    {
        let mut merged: Vec<(&str, &SchemaV3)> = Vec::new();
        let mut k: usize = 0;
        proof {
            assert(schemas@.take(0) =~= Seq::<SchemaV3>::empty());
            assert(props_view3(merged@) =~= Seq::<(Seq<char>, SchemaV3)>::empty());
        }
        while k < schemas.len()
            invariant
                k <= schemas@.len(),
                props_view3(merged@) == merged_props3(schemas@.take(k as int), definitions@),
            decreases schemas@.len() - k,
        {
            let x = &schemas[k];
            proof {
                assert(schemas@.take(k + 1).drop_last() =~= schemas@.take(k as int));
                assert(schemas@.take(k + 1).last() == schemas@[k as int]);
            }
            match &x.ref_path {
                Some(r) => {
                    let n = ref_name(r.as_str());
                    match find_definition_v3(definitions, n.as_str()) {
                        Some(d) => props_insert_all_v3(&mut merged, &d.properties),
                        None => {
                            proof {
                                assert(props_insert_all3(props_view3(merged@), Seq::empty()) == props_view3(merged@));
                            }
                        },
                    }
                },
                None => props_insert_all_v3(&mut merged, &x.properties),
            }
            k = k + 1;
        }
        proof {
            assert(schemas@.take(schemas@.len() as int) =~= schemas@);
        }
        let none: Option<Box<AdditionalProperties<SchemaV3>>> = None;
        let unions: Vec<Union> = Vec::new();
        proof {
            assert(unions@.map_values(|u: Union| u@) =~= Seq::<UnionView>::empty());
        }
        self.convert_v3_object(&merged, &none, ElementRelationship::Separable, unions, definitions, path, fuel)
    }

    /// Converts the schemas of a v3 document to named types.
    fn convert_v3(&mut self, doc: &OpenAPIv3) -> (r: Schema)
        ensures
            r@ == types3(doc.components.schemas@, doc.components.schemas@).0,
            final(self).errors_found() == old(self).errors_found() + types3(doc.components.schemas@, doc.components.schemas@).1,
    {
        let defs = &doc.components.schemas;
        let budget = budget_v3(defs);
        let mut types: Vec<TypeDef> = Vec::new();
        let mut i: usize = 0;
        proof {
            assert(defs@.take(0) =~= Seq::<(String, SchemaV3)>::empty());
            assert(old(self).errors_found() + Seq::<(Seq<char>, Seq<char>)>::empty() =~= old(self).errors_found());
            assert(type_defs_view(types@) =~= Seq::<TypeDefView>::empty());
        }
        while i < defs.len()
            invariant
                i <= defs@.len(),
                types@.len() == i,
                budget == budget3(defs@),
                type_defs_view(types@) == types3(defs@.take(i as int), defs@).0,
                self.errors_found() == old(self).errors_found() + types3(defs@.take(i as int), defs@).1,
            decreases defs@.len() - i,
        {
            let ghost e0 = self.errors_found();
            let atom = self.schema_v3_to_atom(&defs[i].1, defs, defs[i].0.as_str(), budget);
            let ghost t0 = types@;
            types.push(TypeDef { name: defs[i].0.clone(), atom });
            proof {
                assert(defs@.take(i + 1).drop_last() =~= defs@.take(i as int));
                assert(defs@.take(i + 1).last() == defs@[i as int]);
                assert(type_defs_view(types@) =~= type_defs_view(t0).push(types@[i as int]@));
                let prev = types3(defs@.take(i as int), defs@);
                assert(self.errors_found() =~= old(self).errors_found() + (prev.1 + conv3(
                    defs@[i as int].1,
                    defs@,
                    defs@[i as int].0@,
                    budget as nat,
                ).1));
            }
            i = i + 1;
        }
        proof {
            assert(defs@.take(defs@.len() as int) =~= defs@);
        }
        Schema::with_types(types)
    }
}

// ---------------------------------------------------------------------------
// Executable conversion, version 2.
// ---------------------------------------------------------------------------

/// Properties held by reference, as names and schemas.
pub open spec fn props_view2(v: Seq<(&str, &SchemaV2)>) -> Seq<(Seq<char>, SchemaV2)> {
    v.map_values(|p: (&str, &SchemaV2)| (p.0@, *p.1))
}

/// The properties of a schema, by reference.
fn property_refs_v2<'a>(props: &'a Vec<(String, SchemaV2)>) -> (r: Vec<(&'a str, &'a SchemaV2)>)
    ensures
        props_view2(r@) == named2(props@),
{
    let mut out: Vec<(&'a str, &'a SchemaV2)> = Vec::new();
    let mut i: usize = 0;
    while i < props.len()
        invariant
            i <= props@.len(),
            props_view2(out@) == named2(props@).take(i as int),
        decreases props@.len() - i,
    {
        let ghost before = out@;
        out.push((props[i].0.as_str(), &props[i].1));
        proof {
            assert(props_view2(out@) =~= props_view2(before).push((props@[i as int].0@, props@[i as int].1)));
            assert(named2(props@).take(i + 1) =~= named2(props@).take(i as int).push(named2(props@)[i as int]));
        }
        i = i + 1;
    }
    proof {
        assert(named2(props@).take(props@.len() as int) =~= named2(props@));
    }
    out
}

impl OpenAPIConverter {
    /// Converts a v2 schema at `path`, with `fuel` levels of depth left.
    fn schema_v2_to_atom(&mut self, schema: &SchemaV2, definitions: &Vec<(String, SchemaV2)>, path: &str, fuel: u32) -> (r:
        Atom)
        ensures
            r@ == conv2(*schema, definitions@, path@, fuel as nat).0,
            final(self).errors_found() == old(self).errors_found() + conv2(*schema, definitions@, path@, fuel as nat).1,
        decreases fuel, 3int, 0int,
    {
        if fuel == 0 {
            self.add_error(path, String::from_str("schema nested too deeply"));
            return scalar_only(Scalar::Untyped);
        }
        match &schema.ref_path {
            Some(r) => {
                proof {
                    assert(old(self).errors_found() + Seq::<(Seq<char>, Seq<char>)>::empty() =~= old(self).errors_found());
                }
                return self.ref_to_atom(r.as_str());
            },
            None => {},
        }
        proof {
            assert(old(self).errors_found() + Seq::<(Seq<char>, Seq<char>)>::empty() =~= old(self).errors_found());
        }
        match schema.x_kubernetes_int_or_string {
            Some(true) => {
                return self.convert_string_type(&schema.format);
            },
            _ => {},
        }
        let preserve = match schema.x_kubernetes_preserve_unknown_fields {
            Some(true) => true,
            _ => false,
        };
        let embedded = match schema.x_kubernetes_embedded_resource {
            Some(true) => true,
            _ => false,
        };
        if preserve || embedded {
            return deduced_map(ElementRelationship::Separable);
        }
        let t: &str = match &schema.schema_type {
            Some(x) => x.as_str(),
            None => "",
        };
        if str_equal(t, "string") {
            self.convert_string_type(&schema.format)
        } else if str_equal(t, "integer") || str_equal(t, "number") {
            scalar_only(Scalar::Numeric)
        } else if str_equal(t, "boolean") {
            scalar_only(Scalar::Boolean)
        } else if str_equal(t, "array") {
            self.convert_v2_array(schema, definitions, path, fuel - 1)
        } else if str_equal(t, "object") || str_equal(t, "") {
            let props = property_refs_v2(&schema.properties);
            let er = map_relationship_of(&schema.x_kubernetes_map_type);
            let unions = convert_unions(&schema.x_kubernetes_unions);
            self.convert_v2_object(&props, &schema.additional_properties, er, unions, definitions, path, fuel - 1)
        } else {
            let msg = join2("Unknown type: ", t);
            self.add_error(path, msg);
            scalar_only(Scalar::Untyped)
        }
    }

    /// Converts a v2 schema to a reference: a name for a `$ref`, an inlined
    /// type otherwise.
    fn v2_schema_to_type_ref(
        &mut self,
        schema: &SchemaV2,
        definitions: &Vec<(String, SchemaV2)>,
        path: &str,
        fuel: u32,
    ) -> (r: TypeRef)
        ensures
            r@ == tconv2(*schema, definitions@, path@, fuel as nat).0,
            final(self).errors_found() == old(self).errors_found() + tconv2(*schema, definitions@, path@, fuel as nat).1,
        decreases fuel, 4int, 0int,
    {
        match &schema.ref_path {
            Some(r) => {
                proof {
                    assert(old(self).errors_found() + Seq::<(Seq<char>, Seq<char>)>::empty() =~= old(self).errors_found());
                }
                named_type_ref(ref_name(r.as_str()))
            },
            None => {
                let a = self.schema_v2_to_atom(schema, definitions, path, fuel);
                inlined_type_ref(a)
            },
        }
    }

    /// Converts a v2 array schema.
    fn convert_v2_array(&mut self, schema: &SchemaV2, definitions: &Vec<(String, SchemaV2)>, path: &str, fuel: u32) -> (r:
        Atom)
        ensures
            r@ == arr2(*schema, definitions@, path@, fuel as nat).0,
            final(self).errors_found() == old(self).errors_found() + arr2(*schema, definitions@, path@, fuel as nat).1,
        decreases fuel, 5int, 0int,
    {
        let element_type = match &schema.items {
            Some(it) => {
                let p = join2(path, ".items");
                self.v2_schema_to_type_ref(&**it, definitions, p.as_str(), fuel)
            },
            None => {
                proof {
                    assert(old(self).errors_found() + Seq::<(Seq<char>, Seq<char>)>::empty() =~= old(self).errors_found());
                }
                named_type_ref(String::from_str("__untyped_atomic_"))
            },
        };
        let er = list_relationship_of(&schema.x_kubernetes_list_type, &schema.x_kubernetes_patch_strategy);
        let keys = clone_keys(&schema.x_kubernetes_list_map_keys);
        let l = List { element_type, element_relationship: er, keys };
        proof {
            lemma_views(arbitrary(), arbitrary(), l, arbitrary(), arbitrary());
        }
        list_only(l)
    }

    /// Converts the additional properties of a v2 object to the type of the
    /// other fields.
    fn additional_type_v2(
        &mut self,
        additional: &Option<Box<AdditionalProperties<SchemaV2>>>,
        definitions: &Vec<(String, SchemaV2)>,
        path: &str,
        fuel: u32,
    ) -> (r: TypeRef)
        ensures
            r@ == addl2(*additional, definitions@, path@, fuel as nat).0,
            final(self).errors_found() == old(self).errors_found() + addl2(*additional, definitions@, path@, fuel as nat).1,
        decreases fuel, 5int, 0int,
    {
        proof {
            assert(old(self).errors_found() + Seq::<(Seq<char>, Seq<char>)>::empty() =~= old(self).errors_found());
        }
        match additional {
            None => TypeRef::default(),
            Some(b) => match &**b {
                AdditionalProperties::Bool(true) => named_type_ref(String::from_str("__untyped_deduced_")),
                AdditionalProperties::Bool(false) => TypeRef::default(),
                AdditionalProperties::Schema(x) => {
                    let p = join2(path, ".additionalProperties");
                    self.v2_schema_to_type_ref(x, definitions, p.as_str(), fuel)
                },
            },
        }
    }

    /// Converts v2 properties to fields, in order.
    fn convert_fields_v2(
        &mut self,
        props: &Vec<(&str, &SchemaV2)>,
        definitions: &Vec<(String, SchemaV2)>,
        path: &str,
        fuel: u32,
    ) -> (r: Vec<StructField>)
        ensures
            r@.len() == fields2(props_view2(props@), definitions@, path@, fuel as nat).0.len(),
            forall|i: int| 0 <= i < r@.len() ==> #[trigger] r@[i]@ == fields2(props_view2(props@), definitions@, path@, fuel as nat).0[i],
            final(self).errors_found() == old(self).errors_found() + fields2(props_view2(props@), definitions@, path@, fuel as nat).1,
        decreases fuel, 5int, 0int,
    {
        let ghost pv = props_view2(props@);
        let mut fields: Vec<StructField> = Vec::new();
        let mut i: usize = 0;
        proof {
            assert(pv.take(0) =~= Seq::<(Seq<char>, SchemaV2)>::empty());
            assert(old(self).errors_found() + Seq::<(Seq<char>, Seq<char>)>::empty() =~= old(self).errors_found());
        }
        while i < props.len()
            invariant
                i <= props@.len(),
                pv == props_view2(props@),
                fields@.len() == fields2(pv.take(i as int), definitions@, path@, fuel as nat).0.len(),
                forall|j: int| 0 <= j < fields@.len() ==> #[trigger] fields@[j]@ == fields2(pv.take(i as int), definitions@, path@, fuel as nat).0[j],
                self.errors_found() == old(self).errors_found() + fields2(pv.take(i as int), definitions@, path@, fuel as nat).1,
            decreases props@.len() - i,
        {
            let (name, prop) = props[i];
            let p = join3(path, ".", name);
            let ghost e_before = self.errors_found();
            let field_type = self.v2_schema_to_type_ref(prop, definitions, p.as_str(), fuel);
            let default = match &prop.default {
                Some(v) => Some(v.clone()),
                None => None,
            };
            let f = StructField { name: String::from_str(name), field_type, default };
            proof {
                lemma_views(arbitrary(), arbitrary(), arbitrary(), arbitrary(), f);
                assert(pv.take(i + 1).drop_last() =~= pv.take(i as int));
                assert(pv.take(i + 1).last() == pv[i as int]);
                assert(pv[i as int] == (name@, *prop));
                let prev = fields2(pv.take(i as int), definitions@, path@, fuel as nat);
                assert(self.errors_found() =~= old(self).errors_found() + (prev.1 + tconv2(
                    *prop,
                    definitions@,
                    path@ + "."@ + name@,
                    fuel as nat,
                ).1));
            }
            fields.push(f);
            i = i + 1;
        }
        proof {
            assert(pv.take(props@.len() as int) =~= pv);
        }
        fields
    }

    /// Converts a v2 object given by its parts.
    fn convert_v2_object(
        &mut self,
        props: &Vec<(&str, &SchemaV2)>,
        additional: &Option<Box<AdditionalProperties<SchemaV2>>>,
        er: ElementRelationship,
        unions: Vec<Union>,
        definitions: &Vec<(String, SchemaV2)>,
        path: &str,
        fuel: u32,
    ) -> (r: Atom)
        ensures
            r@ == obj2(props_view2(props@), *additional, er, unions@.map_values(|u: Union| u@), definitions@, path@, fuel as nat).0,
            final(self).errors_found() == old(self).errors_found() + obj2(
                props_view2(props@),
                *additional,
                er,
                unions@.map_values(|u: Union| u@),
                definitions@,
                path@,
                fuel as nat,
            ).1,
        decreases fuel, 6int, 0int,
    {
        if props.len() > 0 {
            let ghost e0 = self.errors_found();
            let fields = self.convert_fields_v2(props, definitions, path, fuel);
            let ghost e1 = self.errors_found();
            let element_type = self.additional_type_v2(additional, definitions, path, fuel);
            let m = SchemaMap { fields, unions, element_type, element_relationship: er };
            proof {
                lemma_views(arbitrary(), arbitrary(), arbitrary(), m, arbitrary());
                assert(m@.fields =~= fields2(props_view2(props@), definitions@, path@, fuel as nat).0);
                assert(self.errors_found() =~= e0 + (fields2(props_view2(props@), definitions@, path@, fuel as nat).1
                    + addl2(*additional, definitions@, path@, fuel as nat).1));
            }
            map_only(m)
        } else if additional.is_some() {
            let element_type = self.additional_type_v2(additional, definitions, path, fuel);
            map_only(SchemaMap::with_element_type_and_relationship(element_type, er))
        } else {
            proof {
                assert(old(self).errors_found() + Seq::<(Seq<char>, Seq<char>)>::empty() =~= old(self).errors_found());
            }
            deduced_map(er)
        }
    }

    /// Converts the schemas of a v2 document to named types.
    fn convert_v2(&mut self, doc: &OpenAPIv2) -> (r: Schema)
        ensures
            r@ == types2(doc.definitions@, doc.definitions@).0,
            final(self).errors_found() == old(self).errors_found() + types2(doc.definitions@, doc.definitions@).1,
    {
        let defs = &doc.definitions;
        let budget = budget_v2(defs);
        let mut types: Vec<TypeDef> = Vec::new();
        let mut i: usize = 0;
        proof {
            assert(defs@.take(0) =~= Seq::<(String, SchemaV2)>::empty());
            assert(old(self).errors_found() + Seq::<(Seq<char>, Seq<char>)>::empty() =~= old(self).errors_found());
            assert(type_defs_view(types@) =~= Seq::<TypeDefView>::empty());
        }
        while i < defs.len()
            invariant
                i <= defs@.len(),
                types@.len() == i,
                budget == budget2(defs@),
                type_defs_view(types@) == types2(defs@.take(i as int), defs@).0,
                self.errors_found() == old(self).errors_found() + types2(defs@.take(i as int), defs@).1,
            decreases defs@.len() - i,
        {
            let ghost e0 = self.errors_found();
            let atom = self.schema_v2_to_atom(&defs[i].1, defs, defs[i].0.as_str(), budget);
            let ghost t0 = types@;
            types.push(TypeDef { name: defs[i].0.clone(), atom });
            proof {
                assert(defs@.take(i + 1).drop_last() =~= defs@.take(i as int));
                assert(defs@.take(i + 1).last() == defs@[i as int]);
                assert(type_defs_view(types@) =~= type_defs_view(t0).push(types@[i as int]@));
                let prev = types2(defs@.take(i as int), defs@);
                assert(self.errors_found() =~= old(self).errors_found() + (prev.1 + conv2(
                    defs@[i as int].1,
                    defs@,
                    defs@[i as int].0@,
                    budget as nat,
                ).1));
            }
            i = i + 1;
        }
        proof {
            assert(defs@.take(defs@.len() as int) =~= defs@);
        }
        Schema::with_types(types)
    }
}

// ---------------------------------------------------------------------------
// Documents.
// ---------------------------------------------------------------------------

/// What a document converts to: a named type for each definition (v2) or
/// schema (v3), in order, and the problems found.
pub open spec fn document_conversion(doc: OpenAPIDocument) -> (Seq<TypeDefView>, Seq<(Seq<char>, Seq<char>)>) {
    match doc {
        OpenAPIDocument::V2(d) => types2(d.definitions@, d.definitions@),
        OpenAPIDocument::V3(d) => types3(d.components.schemas@, d.components.schemas@),
    }
}

impl OpenAPIConverter {
    /// Converts a document: the schema of its named types, and the problems
    /// found on the way. The converter is left with no problem recorded.
    pub fn convert(&mut self, doc: &OpenAPIDocument) -> (r: ConversionResult)
        ensures
            r.schema@ == document_conversion(*doc).0,
            errors_view(r.errors@) == document_conversion(*doc).1,
            final(self).errors_found() == Seq::<(Seq<char>, Seq<char>)>::empty(),
    {
        self.errors = Vec::new();
        proof {
            assert(self.errors_found() =~= Seq::<(Seq<char>, Seq<char>)>::empty());
        }
        let schema = match doc {
            OpenAPIDocument::V2(v2) => self.convert_v2(v2),
            OpenAPIDocument::V3(v3) => self.convert_v3(v3),
        };
        proof {
            assert(self.errors_found() =~= document_conversion(*doc).1);
        }
        let mut errors: Vec<ConversionError> = Vec::new();
        std::mem::swap(&mut errors, &mut self.errors);
        proof {
            assert(self.errors_found() =~= Seq::<(Seq<char>, Seq<char>)>::empty());
        }
        ConversionResult { schema, errors }
    }
}

impl Default for OpenAPIConverter {
    fn default() -> (r: OpenAPIConverter)
        ensures
            r.errors_found() == Seq::<(Seq<char>, Seq<char>)>::empty(),
    {
        OpenAPIConverter::new()
    }
}

/// Converts a document to a schema (see [`OpenAPIConverter::convert`]).
pub fn convert_openapi_to_schema(doc: &OpenAPIDocument) -> (r: ConversionResult)
    ensures
        r.schema@ == document_conversion(*doc).0,
        errors_view(r.errors@) == document_conversion(*doc).1,
{
    let mut converter = OpenAPIConverter::new();
    converter.convert(doc)
}

// ---------------------------------------------------------------------------
// Laws: the keys of converted lists.
// ---------------------------------------------------------------------------

/// The converted types of v2 definitions: one per definition, in order,
/// named as the definition and holding what its schema converts to.
pub proof fn lemma_types2_at(ds: Seq<(String, SchemaV2)>, defs: Seq<(String, SchemaV2)>)
    ensures
        types2(ds, defs).0.len() == ds.len(),
        forall|i: int|
            0 <= i < ds.len() ==> #[trigger] types2(ds, defs).0[i] == (TypeDefView {
                name: ds[i].0@,
                atom: conv2(ds[i].1, defs, ds[i].0@, budget2(defs)).0,
            }),
    decreases ds.len(),
{
    if ds.len() > 0 {
        lemma_types2_at(ds.drop_last(), defs);
        assert forall|i: int| 0 <= i < ds.len() implies #[trigger] types2(ds, defs).0[i] == (TypeDefView {
            name: ds[i].0@,
            atom: conv2(ds[i].1, defs, ds[i].0@, budget2(defs)).0,
        }) by {
            if i < ds.len() - 1 {
                assert(ds.drop_last()[i] == ds[i]);
            }
        }
    }
}

/// The converted types of v3 definitions: one per definition, in order,
/// named as the definition and holding what its schema converts to.
pub proof fn lemma_types3_at(ds: Seq<(String, SchemaV3)>, defs: Seq<(String, SchemaV3)>)
    ensures
        types3(ds, defs).0.len() == ds.len(),
        forall|i: int|
            0 <= i < ds.len() ==> #[trigger] types3(ds, defs).0[i] == (TypeDefView {
                name: ds[i].0@,
                atom: conv3(ds[i].1, defs, ds[i].0@, budget3(defs)).0,
            }),
    decreases ds.len(),
{
    if ds.len() > 0 {
        lemma_types3_at(ds.drop_last(), defs);
        assert forall|i: int| 0 <= i < ds.len() implies #[trigger] types3(ds, defs).0[i] == (TypeDefView {
            name: ds[i].0@,
            atom: conv3(ds[i].1, defs, ds[i].0@, budget3(defs)).0,
        }) by {
            if i < ds.len() - 1 {
                assert(ds.drop_last()[i] == ds[i]);
            }
        }
    }
}

/// A v2 array schema (no `$ref`, not int-or-string, not preserving unknown
/// fields, not an embedded resource) converts to a list type whose keys are
/// exactly its `x-kubernetes-list-map-keys`: as many, in the same order;
/// none when it gives none.
pub proof fn lemma_v2_array_keys(s: SchemaV2, defs: Seq<(String, SchemaV2)>, path: Seq<char>, fuel: nat)
    requires
        fuel > 0,
        s.ref_path is None,
        s.x_kubernetes_int_or_string != Some(true),
        s.x_kubernetes_preserve_unknown_fields != Some(true),
        s.x_kubernetes_embedded_resource != Some(true),
        s.schema_type matches Some(t) && t@ == "array"@,
    ensures
        conv2(s, defs, path, fuel).0.list is Some,
        match s.x_kubernetes_list_map_keys {
            Some(v) => conv2(s, defs, path, fuel).0.list->Some_0.keys.len() == v@.len() && forall|j: int|
                0 <= j < v@.len() ==> #[trigger] conv2(s, defs, path, fuel).0.list->Some_0.keys[j] == v@[j]@,
            None => conv2(s, defs, path, fuel).0.list->Some_0.keys.len() == 0,
        },
{
    reveal_strlit("array");
    reveal_strlit("string");
    reveal_strlit("integer");
    reveal_strlit("number");
    reveal_strlit("boolean");
    assert("array"@[0] != "string"@[0]);
    assert("array"@ != "string"@);
    assert("array"@[0] != "integer"@[0]);
    assert("array"@ != "integer"@);
    assert("array"@[0] != "number"@[0]);
    assert("array"@[0] != "boolean"@[0]);
    assert("array"@ != "number"@);
    assert("array"@ != "boolean"@);
}

/// A v3 array schema (no `$ref`, no `allOf`, `anyOf` or `oneOf` members,
/// not int-or-string, not preserving unknown fields, not an embedded
/// resource) converts to a list type whose keys are exactly its
/// `x-kubernetes-list-map-keys`: as many, in the same order; none when it
/// gives none.
pub proof fn lemma_v3_array_keys(s: SchemaV3, defs: Seq<(String, SchemaV3)>, path: Seq<char>, fuel: nat)
    requires
        fuel > 0,
        s.ref_path is None,
        !(s.all_of is Some && s.all_of->0@.len() > 0),
        !(s.any_of is Some && s.any_of->0@.len() > 0),
        !(s.one_of is Some && s.one_of->0@.len() > 0),
        s.x_kubernetes_int_or_string != Some(true),
        s.x_kubernetes_preserve_unknown_fields != Some(true),
        s.x_kubernetes_embedded_resource != Some(true),
        s.schema_type matches Some(t) && t@ == "array"@,
    ensures
        conv3(s, defs, path, fuel).0.list is Some,
        match s.x_kubernetes_list_map_keys {
            Some(v) => conv3(s, defs, path, fuel).0.list->Some_0.keys.len() == v@.len() && forall|j: int|
                0 <= j < v@.len() ==> #[trigger] conv3(s, defs, path, fuel).0.list->Some_0.keys[j] == v@[j]@,
            None => conv3(s, defs, path, fuel).0.list->Some_0.keys.len() == 0,
        },
{
    reveal_strlit("array");
    reveal_strlit("string");
    reveal_strlit("integer");
    reveal_strlit("number");
    reveal_strlit("boolean");
    assert("array"@[0] != "string"@[0]);
    assert("array"@ != "string"@);
    assert("array"@[0] != "integer"@[0]);
    assert("array"@ != "integer"@);
    assert("array"@[0] != "number"@[0]);
    assert("array"@[0] != "boolean"@[0]);
    assert("array"@ != "number"@);
    assert("array"@ != "boolean"@);
    assert(type_text(s.schema_type) == "array"@);
    assert(conv3(s, defs, path, fuel) == arr3(s, defs, path, (fuel - 1) as nat));
    assert(arr3(s, defs, path, (fuel - 1) as nat).0.list is Some);
}

/// Converting a document: the `i`-th definition, when it is an array schema
/// as [`lemma_v2_array_keys`] and [`lemma_v3_array_keys`] describe, becomes
/// the `i`-th type of the schema, a list type whose keys are exactly the
/// definition's `x-kubernetes-list-map-keys`, all of them and in order.
pub proof fn lemma_document_array_keys(doc: OpenAPIDocument, i: int)
    requires
        match doc {
            OpenAPIDocument::V2(d) => 0 <= i < d.definitions@.len() && {
                let s = d.definitions@[i].1;
                &&& s.ref_path is None
                &&& s.x_kubernetes_int_or_string != Some(true)
                &&& s.x_kubernetes_preserve_unknown_fields != Some(true)
                &&& s.x_kubernetes_embedded_resource != Some(true)
                &&& s.schema_type matches Some(t) && t@ == "array"@
            },
            OpenAPIDocument::V3(d) => 0 <= i < d.components.schemas@.len() && {
                let s = d.components.schemas@[i].1;
                &&& s.ref_path is None
                &&& !(s.all_of is Some && s.all_of->0@.len() > 0)
                &&& !(s.any_of is Some && s.any_of->0@.len() > 0)
                &&& !(s.one_of is Some && s.one_of->0@.len() > 0)
                &&& s.x_kubernetes_int_or_string != Some(true)
                &&& s.x_kubernetes_preserve_unknown_fields != Some(true)
                &&& s.x_kubernetes_embedded_resource != Some(true)
                &&& s.schema_type matches Some(t) && t@ == "array"@
            },
        },
    ensures
        0 <= i < document_conversion(doc).0.len(),
        document_conversion(doc).0[i].atom.list is Some,
        match doc {
            OpenAPIDocument::V2(d) => match d.definitions@[i].1.x_kubernetes_list_map_keys {
                Some(v) => document_conversion(doc).0[i].atom.list->Some_0.keys.len() == v@.len() && forall|j: int|
                    0 <= j < v@.len() ==> #[trigger] document_conversion(doc).0[i].atom.list->Some_0.keys[j] == v@[j]@,
                None => document_conversion(doc).0[i].atom.list->Some_0.keys.len() == 0,
            },
            OpenAPIDocument::V3(d) => match d.components.schemas@[i].1.x_kubernetes_list_map_keys {
                Some(v) => document_conversion(doc).0[i].atom.list->Some_0.keys.len() == v@.len() && forall|j: int|
                    0 <= j < v@.len() ==> #[trigger] document_conversion(doc).0[i].atom.list->Some_0.keys[j] == v@[j]@,
                None => document_conversion(doc).0[i].atom.list->Some_0.keys.len() == 0,
            },
        },
{
    match doc {
        OpenAPIDocument::V2(d) => {
            let ds = d.definitions@;
            lemma_types2_at(ds, ds);
            assert(document_conversion(doc).0[i].atom == conv2(ds[i].1, ds, ds[i].0@, budget2(ds)).0);
            lemma_v2_array_keys(ds[i].1, ds, ds[i].0@, budget2(ds));
        },
        OpenAPIDocument::V3(d) => {
            let ds = d.components.schemas@;
            lemma_types3_at(ds, ds);
            assert(document_conversion(doc).0[i].atom == conv3(ds[i].1, ds, ds[i].0@, budget3(ds)).0);
            lemma_v3_array_keys(ds[i].1, ds, ds[i].0@, budget3(ds));
        },
    }
}

} // verus!
