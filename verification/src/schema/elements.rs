//! The elements of the schema language: named types, type references,
//! atoms, maps, lists and scalars.

use crate::value::{str_equal, Value, ValueView};
use vstd::prelude::*;

verus! {

/// A type whose values are single numbers, strings or booleans, or any of
/// them.
#[derive(Debug, Clone, Copy, PartialEq, Eq, Structural)]
pub enum Scalar {
    Numeric,
    String,
    Boolean,
    Untyped,
}

/// How the items of a container relate to each other.
#[derive(Debug, Clone, Copy, PartialEq, Eq, Structural)]
pub enum ElementRelationship {
    /// Items are identified by keys (lists only).
    Associative,
    /// The container behaves as a single leaf.
    Atomic,
    /// Items have no particular relationship (the default for maps).
    Separable,
}

impl Default for ElementRelationship {
    fn default() -> (r: ElementRelationship)
        ensures
            r == ElementRelationship::Separable,
    {
        ElementRelationship::Separable
    }
}

// ---------------------------------------------------------------------------
// Abstract models.
// ---------------------------------------------------------------------------

/// Abstract model of a [`TypeRef`].
pub struct TypeRefView {
    pub named_type: Option<Seq<char>>,
    pub inlined: Box<AtomView>,
    pub element_relationship: Option<ElementRelationship>,
}

/// Abstract model of an [`Atom`].
pub struct AtomView {
    pub scalar: Option<Scalar>,
    pub list: Option<Box<ListView>>,
    pub map: Option<Box<MapView>>,
}

/// Abstract model of a [`List`].
pub struct ListView {
    pub element_type: TypeRefView,
    pub element_relationship: ElementRelationship,
    pub keys: Seq<Seq<char>>,
}

/// Abstract model of a [`SchemaMap`].
pub struct MapView {
    pub fields: Seq<StructFieldView>,
    pub unions: Seq<UnionView>,
    pub element_type: TypeRefView,
    pub element_relationship: ElementRelationship,
}

/// Abstract model of a [`StructField`].
pub struct StructFieldView {
    pub name: Seq<char>,
    pub field_type: TypeRefView,
    pub default: Option<ValueView>,
}

/// Abstract model of a [`UnionField`].
pub struct UnionFieldView {
    pub field_name: Seq<char>,
    pub discriminator_value: Seq<char>,
}

/// Abstract model of a [`Union`].
pub struct UnionView {
    pub discriminator: Option<Seq<char>>,
    pub deduce_invalid_discriminator: bool,
    pub fields: Seq<UnionFieldView>,
}

/// Abstract model of a [`TypeDef`].
pub struct TypeDefView {
    pub name: Seq<char>,
    pub atom: AtomView,
}

// ---------------------------------------------------------------------------
// The types.
// ---------------------------------------------------------------------------

/// A reference to a named type, or an inlined type.
#[derive(Debug)]
pub struct TypeRef {
    /// The name of a type of the schema.
    pub named_type: Option<String>,
    /// The inlined type, used when no name is given.
    pub inlined: Box<Atom>,
    /// For a map or list type, overrides the relationship of its items.
    pub element_relationship: Option<ElementRelationship>,
}

/// The smallest pieces of the type system: each set member is a possible
/// type of the value.
#[derive(Debug)]
pub struct Atom {
    pub scalar: Option<Scalar>,
    pub list: Option<List>,
    pub map: Option<SchemaMap>,
}

/// A map type: named fields of given types, unions of fields, and the type
/// of the other fields.
#[derive(Debug)]
pub struct SchemaMap {
    /// Each field appears once.
    pub fields: Vec<StructField>,
    /// Groups of fields of which only one may be set.
    pub unions: Vec<Union>,
    /// The type of the fields that are not listed.
    pub element_type: TypeRef,
    /// The relationship of the map's items.
    pub element_relationship: ElementRelationship,
}

/// A field of a union and the discriminator value that selects it.
#[derive(Debug)]
pub struct UnionField {
    pub field_name: String,
    pub discriminator_value: String,
}

/// A group of fields of a map of which only one may be set at a time.
#[derive(Debug)]
pub struct Union {
    /// The field that tells which member is set, if any.
    pub discriminator: Option<String>,
    /// Whether the discriminator is deduced from the fields that are set.
    pub deduce_invalid_discriminator: bool,
    /// The members of the union.
    pub fields: Vec<UnionField>,
}

/// A field of a map type: its name, type and default value.
#[derive(Debug)]
pub struct StructField {
    pub name: String,
    pub field_type: TypeRef,
    pub default: Option<Value>,
}

/// A list type: the type of the items, their relationship, and the names of
/// the key fields of an associative list.
#[derive(Debug)]
pub struct List {
    pub element_type: TypeRef,
    pub element_relationship: ElementRelationship,
    pub keys: Vec<String>,
}

/// A named type of a schema.
#[derive(Debug)]
pub struct TypeDef {
    pub name: String,
    pub atom: Atom,
}

/// A list of named types.
#[derive(Debug)]
pub struct Schema {
    pub types: Vec<TypeDef>,
}

/// A type of a schema: a reference and the schema it refers into.
#[derive(Debug)]
pub struct TypeSpecifier {
    pub type_ref: TypeRef,
    pub schema: Schema,
}

// ---------------------------------------------------------------------------
// Views.
// ---------------------------------------------------------------------------

pub open spec fn opt_str_view(s: Option<String>) -> Option<Seq<char>> {
    match s {
        Some(x) => Some(x@),
        None => None,
    }
}

pub open spec fn strings_view(xs: Seq<String>) -> Seq<Seq<char>> {
    xs.map_values(|x: String| x@)
}

pub open spec fn type_ref_view(t: TypeRef) -> TypeRefView
    decreases t,
{
    TypeRefView {
        named_type: opt_str_view(t.named_type),
        inlined: Box::new(atom_view(*t.inlined)),
        element_relationship: t.element_relationship,
    }
}

pub open spec fn atom_view(a: Atom) -> AtomView
    decreases a,
{
    AtomView {
        scalar: a.scalar,
        list: match a.list {
            Some(l) => Some(Box::new(list_view(l))),
            None => None,
        },
        map: match a.map {
            Some(m) => Some(Box::new(map_view(m))),
            None => None,
        },
    }
}

pub open spec fn list_view(l: List) -> ListView
    decreases l,
{
    ListView {
        element_type: type_ref_view(l.element_type),
        element_relationship: l.element_relationship,
        keys: strings_view(l.keys@),
    }
}

pub open spec fn map_view(m: SchemaMap) -> MapView
    decreases m,
{
    MapView {
        fields: struct_fields_view(m.fields@),
        unions: m.unions@.map_values(|u: Union| u@),
        element_type: type_ref_view(m.element_type),
        element_relationship: m.element_relationship,
    }
}

pub open spec fn struct_fields_view(fs: Seq<StructField>) -> Seq<StructFieldView>
    decreases fs,
{
    if fs.len() == 0 {
        Seq::empty()
    } else {
        struct_fields_view(fs.drop_last()).push(struct_field_view(fs.last()))
    }
}

pub open spec fn struct_field_view(f: StructField) -> StructFieldView
    decreases f,
{
    StructFieldView {
        name: f.name@,
        field_type: type_ref_view(f.field_type),
        default: match f.default {
            Some(v) => Some(v@),
            None => None,
        },
    }
}

pub open spec fn type_defs_view(ds: Seq<TypeDef>) -> Seq<TypeDefView> {
    ds.map_values(|d: TypeDef| TypeDefView { name: d.name@, atom: atom_view(d.atom) })
}

impl View for TypeRef {
    type V = TypeRefView;

    open spec fn view(&self) -> TypeRefView {
        type_ref_view(*self)
    }
}

impl View for Atom {
    type V = AtomView;

    open spec fn view(&self) -> AtomView {
        atom_view(*self)
    }
}

impl View for List {
    type V = ListView;

    open spec fn view(&self) -> ListView {
        list_view(*self)
    }
}

impl View for SchemaMap {
    type V = MapView;

    open spec fn view(&self) -> MapView {
        map_view(*self)
    }
}

impl View for StructField {
    type V = StructFieldView;

    open spec fn view(&self) -> StructFieldView {
        struct_field_view(*self)
    }
}

impl View for UnionField {
    type V = UnionFieldView;

    open spec fn view(&self) -> UnionFieldView {
        UnionFieldView { field_name: self.field_name@, discriminator_value: self.discriminator_value@ }
    }
}

impl View for Union {
    type V = UnionView;

    open spec fn view(&self) -> UnionView {
        UnionView {
            discriminator: opt_str_view(self.discriminator),
            deduce_invalid_discriminator: self.deduce_invalid_discriminator,
            fields: self.fields@.map_values(|f: UnionField| f@),
        }
    }
}

impl View for TypeDef {
    type V = TypeDefView;

    open spec fn view(&self) -> TypeDefView {
        TypeDefView { name: self.name@, atom: self.atom@ }
    }
}

impl View for Schema {
    type V = Seq<TypeDefView>;

    open spec fn view(&self) -> Seq<TypeDefView> {
        type_defs_view(self.types@)
    }
}

/// Unfolds the views of the schema types one level.
pub proof fn lemma_views(t: TypeRef, a: Atom, l: List, m: SchemaMap, f: StructField)
    ensures
        t@ == (TypeRefView {
            named_type: opt_str_view(t.named_type),
            inlined: Box::new(t.inlined@),
            element_relationship: t.element_relationship,
        }),
        a@.scalar == a.scalar,
        a@.list is Some == a.list is Some,
        a.list matches Some(x) ==> a@.list == Some(Box::new(x@)),
        a@.map is Some == a.map is Some,
        a.map matches Some(x) ==> a@.map == Some(Box::new(x@)),
        l@ == (ListView {
            element_type: l.element_type@,
            element_relationship: l.element_relationship,
            keys: strings_view(l.keys@),
        }),
        m@.element_type == m.element_type@,
        m@.element_relationship == m.element_relationship,
        m@.unions == m.unions@.map_values(|u: Union| u@),
        m@.fields.len() == m.fields@.len(),
        forall|i: int| 0 <= i < m.fields@.len() ==> #[trigger] m@.fields[i] == m.fields@[i]@,
        f@ == (StructFieldView {
            name: f.name@,
            field_type: f.field_type@,
            default: match f.default {
                Some(v) => Some(v@),
                None => None,
            },
        }),
{
    lemma_struct_fields_view(m.fields@);
}

pub proof fn lemma_struct_fields_view(fs: Seq<StructField>)
    ensures
        struct_fields_view(fs).len() == fs.len(),
        forall|i: int| 0 <= i < fs.len() ==> #[trigger] struct_fields_view(fs)[i] == fs[i]@,
    decreases fs.len(),
{
    if fs.len() > 0 {
        lemma_struct_fields_view(fs.drop_last());
    }
}

// ---------------------------------------------------------------------------
// Looking up types and fields.
// ---------------------------------------------------------------------------

/// The last type of `types` named `name` (a later definition replaces an
/// earlier one), if any.
pub open spec fn find_type(types: Seq<TypeDefView>, name: Seq<char>) -> Option<TypeDefView>
    decreases types.len(),
{
    if types.len() == 0 {
        None
    } else if types.last().name == name {
        Some(types.last())
    } else {
        find_type(types.drop_last(), name)
    }
}

/// The last field of `fields` named `name` (a later field replaces an
/// earlier one), if any.
pub open spec fn find_field_view(fields: Seq<StructFieldView>, name: Seq<char>) -> Option<StructFieldView>
    decreases fields.len(),
{
    if fields.len() == 0 {
        None
    } else if fields.last().name == name {
        Some(fields.last())
    } else {
        find_field_view(fields.drop_last(), name)
    }
}

/// The type that a reference stands for, without the override of its
/// items' relationship.
pub open spec fn resolve_plain(types: Seq<TypeDefView>, t: TypeRefView) -> Option<AtomView> {
    match t.named_type {
        Some(n) => match find_type(types, n) {
            Some(d) => Some(d.atom),
            None => None,
        },
        None => Some(*t.inlined),
    }
}

/// The type that a reference stands for: the named type or the inlined
/// one. An override of the items' relationship applies to the map type if
/// there is one, else to the list type, and the result holds only that
/// container; a reference with an override to any other type resolves to
/// nothing.
pub open spec fn resolve_view(types: Seq<TypeDefView>, t: TypeRefView) -> Option<AtomView> {
    match t.element_relationship {
        None => resolve_plain(types, t),
        Some(er) => match resolve_plain(types, t) {
            None => None,
            Some(a) => match a.map {
                Some(m) => Some(
                    AtomView {
                        scalar: None,
                        list: None,
                        map: Some(Box::new(MapView { element_relationship: er, ..*m })),
                    },
                ),
                None => match a.list {
                    Some(l) => Some(
                        AtomView {
                            scalar: None,
                            list: Some(Box::new(ListView { element_relationship: er, ..*l })),
                            map: None,
                        },
                    ),
                    None => None,
                },
            },
        },
    }
}

// ---------------------------------------------------------------------------
// Copies.
// ---------------------------------------------------------------------------

fn clone_strings(xs: &Vec<String>) -> (r: Vec<String>)
    ensures
        strings_view(r@) == strings_view(xs@),
{
    let mut r: Vec<String> = Vec::new();
    let mut i: usize = 0;
    while i < xs.len()
        invariant
            i <= xs@.len(),
            r@.len() == i,
            forall|j: int| 0 <= j < i ==> #[trigger] r@[j]@ == xs@[j]@,
        decreases xs@.len() - i,
    {
        r.push(xs[i].clone());
        i = i + 1;
    }
    assert(strings_view(r@) =~= strings_view(xs@));
    r
}

fn clone_opt_string(s: &Option<String>) -> (r: Option<String>)
    ensures
        opt_str_view(r) == opt_str_view(*s),
{
    match s {
        Some(x) => Some(x.clone()),
        None => None,
    }
}

impl Clone for TypeRef {
    fn clone(&self) -> (r: TypeRef)
        ensures
            r@ == self@,
        decreases self,
    {
        let inlined = (&*self.inlined).clone();
        let r = TypeRef {
            named_type: clone_opt_string(&self.named_type),
            inlined: Box::new(inlined),
            element_relationship: self.element_relationship,
        };
        proof {
            lemma_views(*self, *self.inlined, arbitrary(), arbitrary(), arbitrary());
            lemma_views(r, *r.inlined, arbitrary(), arbitrary(), arbitrary());
        }
        r
    }
}

impl Clone for Atom {
    fn clone(&self) -> (r: Atom)
        ensures
            r@ == self@,
        decreases self,
    {
        let list = match &self.list {
            Some(l) => Some(l.clone()),
            None => None,
        };
        let map = match &self.map {
            Some(m) => Some(m.clone()),
            None => None,
        };
        let r = Atom { scalar: self.scalar, list, map };
        proof {
            lemma_views(arbitrary(), *self, arbitrary(), arbitrary(), arbitrary());
            lemma_views(arbitrary(), r, arbitrary(), arbitrary(), arbitrary());
            assert(r@.list == self@.list);
            assert(r@.map == self@.map);
        }
        r
    }
}

impl Clone for List {
    fn clone(&self) -> (r: List)
        ensures
            r@ == self@,
        decreases self,
    {
        let r = List {
            element_type: self.element_type.clone(),
            element_relationship: self.element_relationship,
            keys: clone_strings(&self.keys),
        };
        proof {
            lemma_views(arbitrary(), arbitrary(), *self, arbitrary(), arbitrary());
            lemma_views(arbitrary(), arbitrary(), r, arbitrary(), arbitrary());
        }
        r
    }
}

impl Clone for UnionField {
    fn clone(&self) -> (r: UnionField)
        ensures
            r@ == self@,
    {
        UnionField { field_name: self.field_name.clone(), discriminator_value: self.discriminator_value.clone() }
    }
}

impl Clone for Union {
    fn clone(&self) -> (r: Union)
        ensures
            r@ == self@,
    {
        let mut fields: Vec<UnionField> = Vec::new();
        let mut i: usize = 0;
        while i < self.fields.len()
            invariant
                i <= self.fields@.len(),
                fields@.len() == i,
                forall|j: int| 0 <= j < i ==> #[trigger] fields@[j]@ == self.fields@[j]@,
            decreases self.fields@.len() - i,
        {
            fields.push(self.fields[i].clone());
            i = i + 1;
        }
        let r = Union {
            discriminator: clone_opt_string(&self.discriminator),
            deduce_invalid_discriminator: self.deduce_invalid_discriminator,
            fields,
        };
        assert(r@.fields =~= self@.fields);
        r
    }
}

impl Clone for StructField {
    fn clone(&self) -> (r: StructField)
        ensures
            r@ == self@,
        decreases self,
    {
        let default = match &self.default {
            Some(v) => Some(v.clone()),
            None => None,
        };
        let r = StructField { name: self.name.clone(), field_type: self.field_type.clone(), default };
        proof {
            lemma_views(arbitrary(), arbitrary(), arbitrary(), arbitrary(), *self);
            lemma_views(arbitrary(), arbitrary(), arbitrary(), arbitrary(), r);
        }
        r
    }
}

impl Clone for SchemaMap {
    fn clone(&self) -> (r: SchemaMap)
        ensures
            r@ == self@,
        decreases self,
    {
        let mut fields: Vec<StructField> = Vec::new();
        let mut i: usize = 0;
        while i < self.fields.len()
            invariant
                i <= self.fields@.len(),
                fields@.len() == i,
                forall|j: int| 0 <= j < i ==> #[trigger] fields@[j]@ == self.fields@[j]@,
            decreases self.fields@.len() - i,
        {
            fields.push(self.fields[i].clone());
            i = i + 1;
        }
        let mut unions: Vec<Union> = Vec::new();
        let mut k: usize = 0;
        while k < self.unions.len()
            invariant
                k <= self.unions@.len(),
                unions@.len() == k,
                forall|j: int| 0 <= j < k ==> #[trigger] unions@[j]@ == self.unions@[j]@,
            decreases self.unions@.len() - k,
        {
            unions.push(self.unions[k].clone());
            k = k + 1;
        }
        let r = SchemaMap {
            fields,
            unions,
            element_type: self.element_type.clone(),
            element_relationship: self.element_relationship,
        };
        proof {
            lemma_views(arbitrary(), arbitrary(), arbitrary(), *self, arbitrary());
            lemma_views(arbitrary(), arbitrary(), arbitrary(), r, arbitrary());
            assert(r@.fields =~= self@.fields);
            assert(r@.unions =~= self@.unions);
        }
        r
    }
}

impl Clone for TypeDef {
    fn clone(&self) -> (r: TypeDef)
        ensures
            r@ == self@,
    {
        TypeDef { name: self.name.clone(), atom: self.atom.clone() }
    }
}

fn clone_type_defs(ds: &Vec<TypeDef>) -> (r: Vec<TypeDef>)
    ensures
        type_defs_view(r@) == type_defs_view(ds@),
{
    let mut r: Vec<TypeDef> = Vec::new();
    let mut i: usize = 0;
    while i < ds.len()
        invariant
            i <= ds@.len(),
            r@.len() == i,
            forall|j: int| 0 <= j < i ==> #[trigger] r@[j]@ == ds@[j]@,
        decreases ds@.len() - i,
    {
        r.push(ds[i].clone());
        i = i + 1;
    }
    assert forall|j: int| 0 <= j < r@.len() implies #[trigger] type_defs_view(r@)[j] == type_defs_view(ds@)[j] by {
        assert(r@[j]@ == ds@[j]@);
    }
    assert(type_defs_view(r@) =~= type_defs_view(ds@));
    r
}

impl Clone for Schema {
    fn clone(&self) -> (r: Schema)
        ensures
            r@ == self@,
    {
        Schema { types: clone_type_defs(&self.types) }
    }
}

impl Clone for TypeSpecifier {
    fn clone(&self) -> (r: TypeSpecifier)
        ensures
            r.type_ref@ == self.type_ref@,
            r.schema@ == self.schema@,
    {
        TypeSpecifier { type_ref: self.type_ref.clone(), schema: self.schema.clone() }
    }
}

// ---------------------------------------------------------------------------
// Defaults and constructors.
// ---------------------------------------------------------------------------

/// The type with no member: no scalar, no list and no map.
pub open spec fn empty_atom() -> AtomView {
    AtomView { scalar: None, list: None, map: None }
}

/// A reference to nothing: no name, an empty inlined type, no override.
pub open spec fn empty_type_ref() -> TypeRefView {
    TypeRefView { named_type: None, inlined: Box::new(empty_atom()), element_relationship: None }
}

impl Default for Atom {
    fn default() -> (r: Atom)
        ensures
            r@ == empty_atom(),
    {
        let r = Atom { scalar: None, list: None, map: None };
        proof {
            lemma_views(arbitrary(), r, arbitrary(), arbitrary(), arbitrary());
        }
        r
    }
}

impl Default for TypeRef {
    fn default() -> (r: TypeRef)
        ensures
            r@ == empty_type_ref(),
    {
        let r = TypeRef { named_type: None, inlined: Box::new(Atom::default()), element_relationship: None };
        proof {
            lemma_views(r, *r.inlined, arbitrary(), arbitrary(), arbitrary());
        }
        r
    }
}

impl Default for SchemaMap {
    fn default() -> (r: SchemaMap)
        ensures
            r@ == (MapView {
                fields: Seq::empty(),
                unions: Seq::empty(),
                element_type: empty_type_ref(),
                element_relationship: ElementRelationship::Separable,
            }),
    {
        SchemaMap::new()
    }
}

impl Default for List {
    fn default() -> (r: List)
        ensures
            r@ == (ListView {
                element_type: empty_type_ref(),
                element_relationship: ElementRelationship::Separable,
                keys: Seq::empty(),
            }),
    {
        let r = List {
            element_type: TypeRef::default(),
            element_relationship: ElementRelationship::Separable,
            keys: Vec::new(),
        };
        proof {
            lemma_views(arbitrary(), arbitrary(), r, arbitrary(), arbitrary());
            assert(strings_view(r.keys@) =~= Seq::<Seq<char>>::empty());
        }
        r
    }
}

impl Default for StructField {
    fn default() -> (r: StructField)
        ensures
            r@ == (StructFieldView { name: Seq::empty(), field_type: empty_type_ref(), default: None }),
    {
        let r = StructField { name: String::new(), field_type: TypeRef::default(), default: None };
        proof {
            lemma_views(arbitrary(), arbitrary(), arbitrary(), arbitrary(), r);
        }
        r
    }
}

impl Default for UnionField {
    fn default() -> (r: UnionField)
        ensures
            r@ == (UnionFieldView { field_name: Seq::empty(), discriminator_value: Seq::empty() }),
    {
        UnionField { field_name: String::new(), discriminator_value: String::new() }
    }
}

impl Default for Union {
    fn default() -> (r: Union)
        ensures
            r@ == (UnionView { discriminator: None, deduce_invalid_discriminator: false, fields: Seq::empty() }),
    {
        let r = Union { discriminator: None, deduce_invalid_discriminator: false, fields: Vec::new() };
        assert(r@.fields =~= Seq::<UnionFieldView>::empty());
        r
    }
}

impl Default for TypeDef {
    fn default() -> (r: TypeDef)
        ensures
            r@ == (TypeDefView { name: Seq::empty(), atom: empty_atom() }),
    {
        TypeDef { name: String::new(), atom: Atom::default() }
    }
}

impl Default for Schema {
    fn default() -> (r: Schema)
        ensures
            r@ == Seq::<TypeDefView>::empty(),
    {
        Schema::new()
    }
}

impl Atom {
    /// Returns true if the type may be a scalar.
    pub fn is_scalar(&self) -> (r: bool)
        ensures
            r == (self@.scalar is Some),
    {
        proof {
            lemma_views(arbitrary(), *self, arbitrary(), arbitrary(), arbitrary());
        }
        self.scalar.is_some()
    }

    /// Returns true if the type may be a list.
    pub fn is_list(&self) -> (r: bool)
        ensures
            r == (self@.list is Some),
    {
        proof {
            lemma_views(arbitrary(), *self, arbitrary(), arbitrary(), arbitrary());
        }
        self.list.is_some()
    }

    /// Returns true if the type may be a map.
    pub fn is_map(&self) -> (r: bool)
        ensures
            r == (self@.map is Some),
    {
        proof {
            lemma_views(arbitrary(), *self, arbitrary(), arbitrary(), arbitrary());
        }
        self.map.is_some()
    }
}

impl SchemaMap {
    /// Creates a map type with no fields whose other fields have no type.
    pub fn new() -> (r: SchemaMap)
        ensures
            r@ == (MapView {
                fields: Seq::empty(),
                unions: Seq::empty(),
                element_type: empty_type_ref(),
                element_relationship: ElementRelationship::Separable,
            }),
    {
        let r = SchemaMap {
            fields: Vec::new(),
            unions: Vec::new(),
            element_type: TypeRef::default(),
            element_relationship: ElementRelationship::Separable,
        };
        proof {
            lemma_views(arbitrary(), arbitrary(), arbitrary(), r, arbitrary());
            assert(r@.fields =~= Seq::<StructFieldView>::empty());
            assert(r@.unions =~= Seq::<UnionView>::empty());
        }
        r
    }

    /// Creates a map type with the given fields.
    pub fn with_fields(fields: Vec<StructField>) -> (r: SchemaMap)
        ensures
            r@.fields.len() == fields@.len(),
            forall|i: int| 0 <= i < fields@.len() ==> #[trigger] r@.fields[i] == fields@[i]@,
            r@.unions == Seq::<UnionView>::empty(),
            r@.element_type == empty_type_ref(),
            r@.element_relationship == ElementRelationship::Separable,
    {
        let r = SchemaMap {
            fields,
            unions: Vec::new(),
            element_type: TypeRef::default(),
            element_relationship: ElementRelationship::Separable,
        };
        proof {
            lemma_views(arbitrary(), arbitrary(), arbitrary(), r, arbitrary());
            assert(r@.unions =~= Seq::<UnionView>::empty());
        }
        r
    }

    /// Creates a map type whose fields all have the given type.
    pub fn with_element_type(element_type: TypeRef) -> (r: SchemaMap)
        ensures
            r@ == (MapView {
                fields: Seq::empty(),
                unions: Seq::empty(),
                element_type: element_type@,
                element_relationship: ElementRelationship::Separable,
            }),
    {
        SchemaMap::with_element_type_and_relationship(element_type, ElementRelationship::Separable)
    }

    /// Creates a map type whose fields all have the given type, with the
    /// given relationship.
    pub fn with_element_type_and_relationship(element_type: TypeRef, element_relationship: ElementRelationship) -> (r:
        SchemaMap)
        ensures
            r@ == (MapView {
                fields: Seq::empty(),
                unions: Seq::empty(),
                element_type: element_type@,
                element_relationship,
            }),
    {
        let r = SchemaMap { fields: Vec::new(), unions: Vec::new(), element_type, element_relationship };
        proof {
            lemma_views(arbitrary(), arbitrary(), arbitrary(), r, arbitrary());
            assert(r@.fields =~= Seq::<StructFieldView>::empty());
            assert(r@.unions =~= Seq::<UnionView>::empty());
        }
        r
    }

    /// Returns the last field named `name`, if any.
    pub fn find_field(&self, name: &str) -> (r: Option<&StructField>)
        ensures
            r is Some == find_field_view(self@.fields, name@) is Some,
            r matches Some(f) ==> Some(f@) == find_field_view(self@.fields, name@),
    {
        proof {
            lemma_views(arbitrary(), arbitrary(), arbitrary(), *self, arbitrary());
        }
        let ghost fs = self@.fields;
        proof {
            assert(fs.take(fs.len() as int) =~= fs);
        }
        let mut i: usize = self.fields.len();
        while i > 0
            invariant
                i <= fs.len(),
                fs.len() == self.fields@.len(),
                fs == self@.fields,
                forall|j: int| 0 <= j < fs.len() ==> #[trigger] fs[j] == self.fields@[j]@,
                find_field_view(fs, name@) == find_field_view(fs.take(i as int), name@),
            decreases i,
        {
            proof {
                let t = fs.take(i as int);
                assert(t.drop_last() =~= fs.take(i - 1));
                assert(t.last() == fs[i - 1]);
            }
            if str_equal(self.fields[i - 1].name.as_str(), name) {
                return Some(&self.fields[i - 1]);
            }
            i = i - 1;
        }
        None
    }

    /// Copies this map type into `dst`.
    pub fn copy_into(&self, dst: &mut SchemaMap)
        ensures
            final(dst)@ == self@,
    {
        *dst = self.clone();
    }
}

impl Schema {
    /// Creates a schema with no types.
    pub fn new() -> (r: Schema)
        ensures
            r@ == Seq::<TypeDefView>::empty(),
    {
        let r = Schema { types: Vec::new() };
        assert(r@ =~= Seq::<TypeDefView>::empty());
        r
    }

    /// Creates a schema of the given types.
    pub fn with_types(types: Vec<TypeDef>) -> (r: Schema)
        ensures
            r@ == type_defs_view(types@),
    {
        Schema { types }
    }

    /// Returns the last type named `name`, if any.
    pub fn find_named_type(&self, name: &str) -> (r: Option<&TypeDef>)
        ensures
            r is Some == find_type(self@, name@) is Some,
            r matches Some(d) ==> Some(d@) == find_type(self@, name@),
    {
        let ghost ts = self@;
        proof {
            assert(ts.take(ts.len() as int) =~= ts);
        }
        let mut i: usize = self.types.len();
        while i > 0
            invariant
                i <= ts.len(),
                ts.len() == self.types@.len(),
                ts == self@,
                forall|j: int| 0 <= j < ts.len() ==> #[trigger] ts[j] == self.types@[j]@,
                find_type(ts, name@) == find_type(ts.take(i as int), name@),
            decreases i,
        {
            proof {
                let t = ts.take(i as int);
                assert(t.drop_last() =~= ts.take(i - 1));
                assert(t.last() == ts[i - 1]);
            }
            if str_equal(self.types[i - 1].name.as_str(), name) {
                return Some(&self.types[i - 1]);
            }
            i = i - 1;
        }
        None
    }

    /// Returns the type that a reference stands for (see [`resolve_view`]).
    pub fn resolve(&self, tr: &TypeRef) -> (r: Option<Atom>)
        ensures
            r is Some == resolve_view(self@, tr@) is Some,
            r matches Some(a) ==> Some(a@) == resolve_view(self@, tr@),
    {
        proof {
            lemma_views(*tr, *tr.inlined, arbitrary(), arbitrary(), arbitrary());
        }
        let base: Option<Atom> = match &tr.named_type {
            Some(n) => match self.find_named_type(n.as_str()) {
                Some(d) => Some(d.atom.clone()),
                None => None,
            },
            None => Some((&*tr.inlined).clone()),
        };
        match tr.element_relationship {
            None => base,
            Some(er) => match base {
                None => None,
                Some(a) => {
                    proof {
                        lemma_views(arbitrary(), a, arbitrary(), arbitrary(), arbitrary());
                    }
                    let Atom { scalar: _, list, map } = a;
                    match map {
                        Some(mut m) => {
                            proof {
                                lemma_views(arbitrary(), arbitrary(), arbitrary(), m, arbitrary());
                            }
                            let ghost mv = m@;
                            m.element_relationship = er;
                            let r = Atom { scalar: None, list: None, map: Some(m) };
                            proof {
                                lemma_views(arbitrary(), r, arbitrary(), m, arbitrary());
                                assert(m@.fields =~= mv.fields);
                                assert(m@ == MapView { element_relationship: er, ..mv });
                            }
                            Some(r)
                        },
                        None => match list {
                            Some(mut l) => {
                                proof {
                                    lemma_views(arbitrary(), arbitrary(), l, arbitrary(), arbitrary());
                                }
                                let ghost lv = l@;
                                l.element_relationship = er;
                                let r = Atom { scalar: None, list: Some(l), map: None };
                                proof {
                                    lemma_views(arbitrary(), r, l, arbitrary(), arbitrary());
                                }
                                Some(r)
                            },
                            None => None,
                        },
                    }
                },
            },
        }
    }

    /// Copies this schema into `dst`.
    pub fn copy_into(&self, dst: &mut Schema)
        ensures
            final(dst)@ == self@,
    {
        *dst = self.clone();
    }
}

} // verus!
