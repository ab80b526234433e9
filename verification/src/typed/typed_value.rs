//! A value paired with its schema and type: field sets, comparison,
//! removal, extraction, merging and validation.

use crate::fieldpath::path::{Path, PathElement, PathElementView};
use crate::fieldpath::set::{contains_path, FieldPathSet};
use crate::schema::elements::{
    find_field_view, lemma_views, resolve_view, AtomView, ElementRelationship, List, ListView, MapView, Schema,
    SchemaMap, TypeDefView, TypeRef, TypeRefView,
};
use crate::debug_text::{key_debug, names_debug};
use crate::value::{chars_order, entries_map, Field, FieldList, Value, ValueMap, ValueView, lemma_value_view_cases};
use vstd::prelude::*;

verus! {

/// Abstract model of a [`TypedValue`].
pub struct TypedValueView {
    pub value: ValueView,
    pub type_ref: TypeRefView,
    pub schema: Seq<TypeDefView>,
}

/// A value paired with its schema and type.
#[derive(Debug)]
pub struct TypedValue {
    value: Value,
    type_ref: TypeRef,
    schema: Schema,
}

impl View for TypedValue {
    type V = TypedValueView;

    closed spec fn view(&self) -> TypedValueView {
        TypedValueView { value: self.value@, type_ref: self.type_ref@, schema: self.schema@ }
    }
}

impl Clone for TypedValue {
    fn clone(&self) -> (r: TypedValue)
        ensures
            r@ == self@,
    {
        TypedValue { value: self.value.clone(), type_ref: self.type_ref.clone(), schema: self.schema.clone() }
    }
}

// ---------------------------------------------------------------------------
// Types of the parts of a value.
// ---------------------------------------------------------------------------

/// The type of the field `key` of a map type: the type of the field of
/// that name, else the type of the other fields.
pub open spec fn field_type_of(m: MapView, key: Seq<char>) -> TypeRefView {
    match find_field_view(m.fields, key) {
        Some(f) => f.field_type,
        None => m.element_type,
    }
}

/// The default value that the schema gives to the key field `name` of the
/// items of an associative list.
pub open spec fn key_default(types: Seq<TypeDefView>, l: ListView, name: Seq<char>) -> Option<ValueView> {
    match resolve_view(types, l.element_type) {
        Some(a) => match a.map {
            Some(m) => match find_field_view(m.fields, name) {
                Some(f) => f.default,
                None => None,
            },
            None => None,
        },
        None => None,
    }
}

/// The key fields of an item of an associative list, in the order of the
/// list's key names: the item's own value of each, else the schema's
/// default, else nothing for that name.
pub open spec fn key_fields(
    types: Seq<TypeDefView>,
    l: ListView,
    es: Seq<(Seq<char>, ValueView)>,
    names: Seq<Seq<char>>,
) -> Seq<(Seq<char>, ValueView)>
    decreases names.len(),
{
    if names.len() == 0 {
        Seq::empty()
    } else {
        let prev = key_fields(types, l, es, names.drop_last());
        let name = names.last();
        if entries_map(es).contains_key(name) {
            prev.push((name, entries_map(es)[name]))
        } else {
            match key_default(types, l, name) {
                Some(d) => prev.push((name, d)),
                None => prev,
            }
        }
    }
}

/// The key of an item of an associative list: for a list without key
/// names, the item itself under an empty name; otherwise the item must be a
/// map with at least one key field (or a default for one), and the key
/// holds those fields ordered by name.
pub open spec fn item_key(types: Seq<TypeDefView>, l: ListView, item: ValueView) -> Option<Seq<(Seq<char>, ValueView)>> {
    if l.keys.len() == 0 {
        Some(seq![(Seq::<char>::empty(), item)])
    } else {
        match item {
            ValueView::Object(es) => {
                let fs = key_fields(types, l, es, l.keys);
                if fs.len() == 0 {
                    None
                } else {
                    Some(crate::value::sort_fields(fs))
                }
            },
            _ => None,
        }
    }
}

/// The index of position `i` as a path element holds it (an `i32`).
pub open spec fn index_of(i: int) -> int {
    (i as i32) as int
}

/// The path element of the item at position `i` of a list: in an
/// associative list the item itself (no key names) or its key (when it has
/// one); otherwise its index.
pub open spec fn item_pe(types: Seq<TypeDefView>, l: ListView, item: ValueView, i: int) -> PathElementView {
    if l.element_relationship == ElementRelationship::Associative {
        if l.keys.len() == 0 {
            PathElementView::Value(item)
        } else {
            match item_key(types, l, item) {
                Some(k) => PathElementView::Key(k),
                None => PathElementView::Index(index_of(i)),
            }
        }
    } else {
        PathElementView::Index(index_of(i))
    }
}

// ---------------------------------------------------------------------------
// Paths.
// ---------------------------------------------------------------------------

/// `q` starts with `p`.
pub open spec fn has_prefix(p: Seq<PathElementView>, q: Seq<PathElementView>) -> bool {
    p.len() <= q.len() && q.take(p.len() as int) == p
}

proof fn lemma_prefix_push(p: Seq<PathElementView>, e: PathElementView, q: Seq<PathElementView>)
    ensures
        has_prefix(p.push(e), q) == (has_prefix(p, q) && q.len() > p.len() && q[p.len() as int] == e),
        has_prefix(p.push(e), q) ==> q.skip(p.len() as int + 1) == q.skip(p.len() as int).drop_first() && q.skip(
            p.len() as int,
        )[0] == e,
{
    if has_prefix(p.push(e), q) {
        assert(q.take(p.len() as int) =~= q.take(p.len() as int + 1).drop_last());
        assert(p.push(e).drop_last() =~= p);
        assert(q[p.len() as int] == q.take(p.len() as int + 1)[p.len() as int]);
        assert(q.skip(p.len() as int + 1) =~= q.skip(p.len() as int).drop_first());
    }
    if has_prefix(p, q) && q.len() > p.len() && q[p.len() as int] == e {
        assert(q.take(p.len() as int + 1) =~= p.push(e));
    }
}

proof fn lemma_prefix_empty(q: Seq<PathElementView>)
    ensures
        has_prefix(Seq::empty(), q),
        q.skip(0) == q,
{
    assert(q.take(0) =~= Seq::<PathElementView>::empty());
    assert(q.skip(0) =~= q);
}

// ---------------------------------------------------------------------------
// Field sets.
// ---------------------------------------------------------------------------

/// The node itself is a leaf of the field set: null, an atomic container,
/// a map of a type that may also be a scalar or with no fields, or a value
/// that can only be read as a scalar.
pub open spec fn leaf_here(a: AtomView, v: ValueView) -> bool {
    match v {
        ValueView::Null => true,
        ValueView::Object(es) => match a.map {
            Some(m) => m.element_relationship == ElementRelationship::Atomic || a.scalar is Some || es.len()
                == 0,
            None => a.scalar is Some,
        },
        ValueView::List(_) => match a.list {
            Some(l) => l.element_relationship == ElementRelationship::Atomic,
            None => a.scalar is Some,
        },
        _ => a.scalar is Some,
    }
}

/// A map type whose fields are marked themselves: associative, without
/// listed fields, with a named type for the other fields.
pub open spec fn marks_fields(m: MapView) -> bool {
    m.element_relationship == ElementRelationship::Associative && m.fields.len() == 0
        && m.element_type.named_type is Some
}

/// A list type whose items are marked themselves: associative with key
/// names.
pub open spec fn marks_items(l: ListView) -> bool {
    l.element_relationship == ElementRelationship::Associative && l.keys.len() > 0
}

/// The path `r`, relative to a value of type `t`, is in the value's field
/// set: the empty path when the value is a leaf, a longer one when it goes
/// through a field or an item.
pub open spec fn rel_contains(types: Seq<TypeDefView>, t: TypeRefView, v: ValueView, r: Seq<PathElementView>) -> bool
    decreases v, 1int,
{
    match resolve_view(types, t) {
        None => false,
        Some(a) => if r.len() == 0 {
            leaf_here(a, v)
        } else {
            children_contain(types, a, v, r)
        },
    }
}

/// The non-empty path `r` goes through a field or an item of a value of
/// type `a`: the container must not be atomic.
pub open spec fn children_contain(types: Seq<TypeDefView>, a: AtomView, v: ValueView, r: Seq<PathElementView>) -> bool
    decreases v, 0int,
{
    match v {
        ValueView::Object(es) => match a.map {
            Some(m) => m.element_relationship != ElementRelationship::Atomic && object_children_contain(
                types,
                *m,
                es,
                r,
            ),
            None => false,
        },
        ValueView::List(xs) => match a.list {
            Some(l) => l.element_relationship != ElementRelationship::Atomic && list_children_contain(
                types,
                *l,
                xs,
                r,
            ),
            None => false,
        },
        _ => false,
    }
}

/// Some field of the map holds the path `r` (which starts with the field's
/// name).
pub open spec fn object_children_contain(
    types: Seq<TypeDefView>,
    m: MapView,
    es: Seq<(Seq<char>, ValueView)>,
    r: Seq<PathElementView>,
) -> bool
    decreases es, 0int,
{
    if es.len() == 0 {
        false
    } else {
        object_children_contain(types, m, es.drop_last(), r) || (r.len() > 0 && r[0]
            == PathElementView::FieldName(es.last().0) && (rel_contains(
            types,
            field_type_of(m, es.last().0),
            es.last().1,
            r.drop_first(),
        ) || (r.len() == 1 && marks_fields(m))))
    }
}

/// Some item of the list holds the path `r` (which starts with the item's
/// path element).
pub open spec fn list_children_contain(
    types: Seq<TypeDefView>,
    l: ListView,
    xs: Seq<ValueView>,
    r: Seq<PathElementView>,
) -> bool
    decreases xs, 0int,
{
    if xs.len() == 0 {
        false
    } else {
        list_children_contain(types, l, xs.drop_last(), r) || (r.len() > 0 && r[0] == item_pe(
            types,
            l,
            xs.last(),
            xs.len() - 1,
        ) && (rel_contains(types, l.element_type, xs.last(), r.drop_first()) || (r.len() == 1
            && marks_items(l))))
    }
}

proof fn lemma_children_nonempty(
    types: Seq<TypeDefView>,
    m: MapView,
    es: Seq<(Seq<char>, ValueView)>,
    l: ListView,
    xs: Seq<ValueView>,
    r: Seq<PathElementView>,
)
    ensures
        object_children_contain(types, m, es, r) ==> r.len() > 0,
        list_children_contain(types, l, xs, r) ==> r.len() > 0,
    decreases es.len() + xs.len(),
{
    if es.len() > 0 {
        lemma_children_nonempty(types, m, es.drop_last(), l, xs, r);
    }
    if xs.len() > 0 {
        lemma_children_nonempty(types, m, es, l, xs.drop_last(), r);
    }
}

/// The field set of a typed value: its non-empty leaf paths (see
/// [`rel_contains`]).
pub open spec fn field_set_contains(tv: TypedValueView, q: Seq<PathElementView>) -> bool {
    q.len() > 0 && rel_contains(tv.schema, tv.type_ref, tv.value, q)
}

// ---------------------------------------------------------------------------
// Construction and access.
// ---------------------------------------------------------------------------

/// Pairs a value with its schema and type, without checking it.
pub fn as_typed_unvalidated(value: Value, schema: &Schema, type_ref: TypeRef) -> (r: TypedValue)
    ensures
        r@ == (TypedValueView { value: value@, type_ref: type_ref@, schema: schema@ }),
{
    TypedValue { value, type_ref, schema: schema.clone() }
}

impl TypedValue {
    /// Pairs a value with its schema and type.
    pub fn new(value: Value, schema: Schema, type_ref: TypeRef) -> (r: TypedValue)
        ensures
            r@ == (TypedValueView { value: value@, type_ref: type_ref@, schema: schema@ }),
    {
        TypedValue { value, type_ref, schema }
    }

    /// Returns the value.
    pub fn value(&self) -> (r: &Value)
        ensures
            r@ == self@.value,
    {
        &self.value
    }

    /// Returns the value, for modification.
    pub fn value_mut(&mut self) -> (r: &mut Value)
        ensures
            r@ == old(self)@.value,
            final(self)@ == (TypedValueView { value: final(r)@, ..old(self)@ }),
    {
        &mut self.value
    }

    /// Returns the value, giving up the type.
    pub fn into_value(self) -> (r: Value)
        ensures
            r@ == self@.value,
    {
        self.value
    }

    /// Returns the type reference.
    pub fn type_ref(&self) -> (r: &TypeRef)
        ensures
            r@ == self@.type_ref,
    {
        &self.type_ref
    }

    /// Returns the schema.
    pub fn schema(&self) -> (r: &Schema)
        ensures
            r@ == self@.schema,
    {
        &self.schema
    }

    /// Returns a null value of the same type and schema.
    pub fn empty(&self) -> (r: TypedValue)
        ensures
            r@ == (TypedValueView { value: ValueView::Null, ..self@ }),
    {
        let r = TypedValue { value: Value::Null, type_ref: self.type_ref.clone(), schema: self.schema.clone() };
        proof {
            lemma_value_view_cases(r.value);
        }
        r
    }

    /// Returns the type of the field `key` of a map type.
    fn field_type(map: &SchemaMap, key: &str) -> (r: TypeRef)
        ensures
            r@ == field_type_of(map@, key@),
    {
        proof {
            lemma_views(arbitrary(), arbitrary(), arbitrary(), *map, arbitrary());
        }
        match map.find_field(key) {
            Some(f) => {
                proof {
                    lemma_views(arbitrary(), arbitrary(), arbitrary(), arbitrary(), *f);
                }
                f.field_type.clone()
            },
            None => map.element_type.clone(),
        }
    }

    /// Returns the default value of the key field `name` of the items of an
    /// associative list.
    fn associative_key_default(&self, list: &List, name: &str) -> (r: Option<Value>)
        ensures
            match r {
                Some(v) => key_default(self@.schema, list@, name@) == Some(v@),
                None => key_default(self@.schema, list@, name@) is None,
            },
    {
        proof {
            lemma_views(arbitrary(), arbitrary(), *list, arbitrary(), arbitrary());
        }
        match self.schema.resolve(&list.element_type) {
            None => None,
            Some(atom) => {
                proof {
                    lemma_views(arbitrary(), atom, arbitrary(), arbitrary(), arbitrary());
                }
                match &atom.map {
                    None => None,
                    Some(m) => {
                        proof {
                            lemma_views(arbitrary(), arbitrary(), arbitrary(), *m, arbitrary());
                        }
                        match m.find_field(name) {
                            None => None,
                            Some(f) => {
                                proof {
                                    lemma_views(arbitrary(), arbitrary(), arbitrary(), arbitrary(), *f);
                                }
                                match &f.default {
                                    Some(d) => Some(d.clone()),
                                    None => None,
                                }
                            },
                        }
                    },
                }
            },
        }
    }

    /// Computes the key of an item of an associative list (see
    /// [`item_key`]).
    fn list_item_to_key(&self, item: &Value, list: &List) -> (r: Option<FieldList>)
        ensures
            match r {
                Some(k) => item_key(self@.schema, list@, item@) == Some(k@),
                None => item_key(self@.schema, list@, item@) is None,
            },
    {
        proof {
            lemma_views(arbitrary(), arbitrary(), *list, arbitrary(), arbitrary());
            lemma_value_view_cases(*item);
        }
        if list.keys.len() == 0 {
            let mut fields: Vec<Field> = Vec::new();
            fields.push(Field { name: String::new(), value: item.clone() });
            let ghost fv = crate::value::fields_view(fields@);
            let k = FieldList::with_fields(fields);
            proof {
                assert(fv =~= seq![(Seq::<char>::empty(), item@)]);
                assert(fv.drop_last() =~= Seq::<(Seq<char>, ValueView)>::empty());
                assert(crate::value::sort_fields(fv.drop_last()) =~= Seq::<(Seq<char>, ValueView)>::empty());
                assert(k@ =~= seq![(Seq::<char>::empty(), item@)]);
            }
            return Some(k);
        }
        let m = match item {
            Value::Object(m) => m,
            _ => {
                return None;
            },
        };
        let ghost l = list@;
        let ghost es = m@;
        let ghost names = l.keys;
        let mut fields: Vec<Field> = Vec::new();
        let mut i: usize = 0;
        proof {
            assert(names.take(0) =~= Seq::<Seq<char>>::empty());
            assert(FieldList { fields }@ =~= key_fields(self@.schema, l, es, names.take(0)));
        }
        while i < list.keys.len()
            invariant
                l == list@,
                es == m@,
                names == l.keys,
                names.len() == list.keys@.len(),
                forall|j: int| 0 <= j < names.len() ==> #[trigger] names[j] == list.keys@[j]@,
                i <= names.len(),
                (FieldList { fields })@ == key_fields(self@.schema, l, es, names.take(i as int)),
            decreases names.len() - i,
        {
            let name = &list.keys[i];
            let ghost before = fields@;
            proof {
                assert(names.take(i as int + 1).drop_last() =~= names.take(i as int));
                assert(names.take(i as int + 1).last() == name@);
            }
            match m.get(name.as_str()) {
                Some(v) => {
                    fields.push(Field { name: name.clone(), value: v.clone() });
                    proof {
                        assert((FieldList { fields })@ =~= key_fields(self@.schema, l, es, names.take(i as int + 1)));
                    }
                },
                None => {
                    match self.associative_key_default(list, name.as_str()) {
                        Some(d) => {
                            fields.push(Field { name: name.clone(), value: d });
                            proof {
                                assert((FieldList { fields })@ =~= key_fields(
                                    self@.schema,
                                    l,
                                    es,
                                    names.take(i as int + 1),
                                ));
                            }
                        },
                        None => {
                            proof {
                                assert((FieldList { fields })@ =~= key_fields(
                                    self@.schema,
                                    l,
                                    es,
                                    names.take(i as int + 1),
                                ));
                            }
                        },
                    }
                },
            }
            i = i + 1;
        }
        proof {
            assert(names.take(names.len() as int) =~= names);
        }
        if fields.len() == 0 {
            proof {
                assert((FieldList { fields })@.len() == 0);
            }
            None
        } else {
            proof {
                assert((FieldList { fields })@ =~= crate::value::fields_view(fields@));
            }
            Some(FieldList::with_fields(fields))
        }
    }

    /// Computes the path element of the item at position `i` of a list (see
    /// [`item_pe`]).
    fn item_path_element(&self, item: &Value, list: &List, i: usize) -> (r: PathElement)
        ensures
            r@ == item_pe(self@.schema, list@, item@, i as int),
    {
        proof {
            lemma_views(arbitrary(), arbitrary(), *list, arbitrary(), arbitrary());
        }
        #[verifier::truncate]
        let index: i32 = i as i32;
        if list.element_relationship == ElementRelationship::Associative {
            if list.keys.len() == 0 {
                PathElement::Value(item.clone())
            } else {
                match self.list_item_to_key(item, list) {
                    Some(key) => PathElement::Key(key),
                    None => PathElement::Index(index),
                }
            }
        } else {
            PathElement::Index(index)
        }
    }
}

// ---------------------------------------------------------------------------
// Collecting the field set.
// ---------------------------------------------------------------------------

/// The path `q` is `p` followed by `e` exactly when it starts with `p`,
/// is one longer, and has `e` there.
proof fn lemma_push_eq(p: Seq<PathElementView>, e: PathElementView, q: Seq<PathElementView>)
    ensures
        (q == p.push(e)) == (has_prefix(p, q) && q.len() == p.len() + 1 && q.skip(p.len() as int).len() == 1
            && q.skip(p.len() as int)[0] == e),
{
    lemma_prefix_push(p, e, q);
    if q == p.push(e) {
        assert(q.take(p.len() as int) =~= p);
        assert(q.skip(p.len() as int) =~= seq![e]);
    }
    if has_prefix(p, q) && q.len() == p.len() + 1 && q.skip(p.len() as int)[0] == e {
        assert(q[p.len() as int] == q.skip(p.len() as int)[0]);
        assert(q =~= q.take(p.len() as int + 1));
    }
}

impl TypedValue {
    /// Whether a node is a leaf of the field set (see [`leaf_here`]).
    fn is_leaf(atom: &crate::schema::elements::Atom, value: &Value) -> (r: bool)
        ensures
            r == leaf_here(atom@, value@),
    {
        proof {
            lemma_views(arbitrary(), *atom, arbitrary(), arbitrary(), arbitrary());
            lemma_value_view_cases(*value);
        }
        match value {
            Value::Null => true,
            Value::Object(m) => match &atom.map {
                Some(map) => {
                    proof {
                        lemma_views(arbitrary(), arbitrary(), arbitrary(), *map, arbitrary());
                    }
                    map.element_relationship == ElementRelationship::Atomic || atom.scalar.is_some() || m.is_empty()
                },
                None => atom.scalar.is_some(),
            },
            Value::List(_) => match &atom.list {
                Some(list) => {
                    proof {
                        lemma_views(arbitrary(), arbitrary(), *list, arbitrary(), arbitrary());
                    }
                    list.element_relationship == ElementRelationship::Atomic
                },
                None => atom.scalar.is_some(),
            },
            _ => atom.scalar.is_some(),
        }
    }

    /// Returns the field set of the value: every non-empty path to a leaf
    /// (see [`rel_contains`]). It does not fail.
    pub fn to_field_set(&self) -> (r: Result<FieldPathSet, crate::typed::validation::ValidationErrors>)
        ensures
            r matches Ok(s) && forall|q: Seq<PathElementView>| #[trigger] contains_path(s@, q) == field_set_contains(self@, q),
    {
        let mut set = FieldPathSet::new();
        let path = Path::new();
        let ghost s0 = set@;
        self.collect_field_set(&self.value, &self.type_ref, &path, &mut set);
        proof {
            assert(crate::fieldpath::set::no_paths(s0));
            assert forall|q: Seq<PathElementView>| #[trigger] contains_path(set@, q) == field_set_contains(self@, q) by {
                lemma_prefix_empty(q);
            }
        }
        Ok(set)
    }

    fn collect_field_set(&self, value: &Value, type_ref: &TypeRef, path: &Path, set: &mut FieldPathSet)
        ensures
            forall|q: Seq<PathElementView>| #[trigger] contains_path(final(set)@, q) == (contains_path(old(set)@, q) || (q.len()
                > 0 && has_prefix(path@, q) && rel_contains(self@.schema, type_ref@, value@, q.skip(path@.len() as int)))),
        decreases value@,
    {
        let ghost types = self@.schema;
        let ghost p = path@;
        let ghost s0 = set@;
        let atom = match self.schema.resolve(type_ref) {
            Some(a) => a,
            None => {
                return;
            },
        };
        proof {
            lemma_views(arbitrary(), atom, arbitrary(), arbitrary(), arbitrary());
            lemma_value_view_cases(*value);
        }
        let ghost av = atom@;
        let leaf = Self::is_leaf(&atom, value);
        if leaf && !path.is_empty() {
            set.insert(path);
        }
        let ghost s1 = set@;
        proof {
            assert forall|q: Seq<PathElementView>| #[trigger] contains_path(s1, q) == (contains_path(s0, q) || (q.len() > 0
                && has_prefix(p, q) && q.skip(p.len() as int).len() == 0 && leaf_here(av, value@))) by {
                if q == p {
                    assert(q.take(p.len() as int) =~= q);
                    assert(q.skip(p.len() as int).len() == 0);
                }
                if has_prefix(p, q) && q.skip(p.len() as int).len() == 0 {
                    assert(q =~= q.take(p.len() as int));
                }
            }
        }
        match value {
            Value::Object(m) => {
                match &atom.map {
                    Some(map) => {
                        proof {
                            lemma_views(arbitrary(), arbitrary(), arbitrary(), *map, arbitrary());
                        }
                        if map.element_relationship != ElementRelationship::Atomic {
                            let marks = map.element_relationship == ElementRelationship::Associative
                                && map.fields.len() == 0 && map.element_type.named_type.is_some();
                            let ghost mv = map@;
                            let ghost es = m@;
                            let n = m.len();
                            let mut i: usize = 0;
                            proof {
                                assert(es.take(0) =~= Seq::<(Seq<char>, ValueView)>::empty());
                                assert(marks == marks_fields(mv));
                            }
                            while i < n
                                invariant
                                    n == es.len(),
                                    es == m@,
                                    value@ == ValueView::Object(es),
                                    p == path@,
                                    types == self@.schema,
                                    mv == map@,
                                    marks == marks_fields(mv),
                                    av.map == Some(Box::new(mv)),
                                    mv.element_relationship != ElementRelationship::Atomic,
                                    resolve_view(types, type_ref@) == Some(av),
                                    i <= n,
                                    forall|q: Seq<PathElementView>| #[trigger] contains_path(s1, q) == (contains_path(s0, q) || (q.len() > 0
                                        && has_prefix(p, q) && q.skip(p.len() as int).len() == 0 && leaf_here(av, value@))),
                                    forall|q: Seq<PathElementView>| #[trigger] contains_path(set@, q) == (contains_path(s1, q)
                                        || (q.len() > 0 && has_prefix(p, q) && object_children_contain(
                                        types,
                                        mv,
                                        es.take(i as int),
                                        q.skip(p.len() as int),
                                    ))),
                                decreases n - i,
                            {
                                let (k, v) = m.entry_at(i);
                                let e = PathElement::FieldName(k.clone());
                                let ghost ev = e@;
                                let fp = path.with(e);
                                let ft = Self::field_type(map, k.as_str());
                                let ghost s2 = set@;
                                proof {
                                    assert(decreases_to!(value@ => value@->Object_0));
                                    assert(decreases_to!(es => es[i as int]));
                                    assert(decreases_to!(es[i as int] => es[i as int].1));
                                    assert(decreases_to!(value@ => es[i as int].1));
                                }
                                self.collect_field_set(v, &ft, &fp, set);
                                if marks {
                                    set.insert(&fp);
                                }
                                proof {
                                    let t = es.take(i as int + 1);
                                    assert(t.drop_last() =~= es.take(i as int));
                                    assert(t.last() == (k@, v@));
                                    assert forall|q: Seq<PathElementView>| #[trigger] contains_path(set@, q) == (contains_path(s1, q)
                                        || (q.len() > 0 && has_prefix(p, q) && object_children_contain(
                                        types,
                                        mv,
                                        t,
                                        q.skip(p.len() as int),
                                    ))) by {
                                        lemma_prefix_push(p, ev, q);
                                        lemma_push_eq(p, ev, q);
                                    }
                                }
                                i = i + 1;
                            }
                            proof {
                                assert(es.take(n as int) =~= es);
                            }
                        }
                    },
                    None => {},
                }
            },
            Value::List(xs) => {
                match &atom.list {
                    Some(list) => {
                        proof {
                            lemma_views(arbitrary(), arbitrary(), *list, arbitrary(), arbitrary());
                        }
                        if list.element_relationship != ElementRelationship::Atomic {
                            let marks = list.element_relationship == ElementRelationship::Associative
                                && list.keys.len() > 0;
                            let ghost lv = list@;
                            let ghost vs = crate::value::values_view(xs@);
                            proof {
                                crate::value::lemma_values_view(xs@);
                                assert(vs.take(0) =~= Seq::<ValueView>::empty());
                                assert(marks == marks_items(lv));
                            }
                            let mut i: usize = 0;
                            while i < xs.len()
                                invariant
                                    vs == crate::value::values_view(xs@),
                                    vs.len() == xs@.len(),
                                    forall|j: int| 0 <= j < xs@.len() ==> #[trigger] vs[j] == xs@[j]@,
                                    value@ == ValueView::List(vs),
                                    p == path@,
                                    types == self@.schema,
                                    lv == list@,
                                    marks == marks_items(lv),
                                    av.list == Some(Box::new(lv)),
                                    lv.element_relationship != ElementRelationship::Atomic,
                                    resolve_view(types, type_ref@) == Some(av),
                                    i <= xs@.len(),
                                    forall|q: Seq<PathElementView>| #[trigger] contains_path(s1, q) == (contains_path(s0, q) || (q.len() > 0
                                        && has_prefix(p, q) && q.skip(p.len() as int).len() == 0 && leaf_here(av, value@))),
                                    forall|q: Seq<PathElementView>| #[trigger] contains_path(set@, q) == (contains_path(s1, q)
                                        || (q.len() > 0 && has_prefix(p, q) && list_children_contain(
                                        types,
                                        lv,
                                        vs.take(i as int),
                                        q.skip(p.len() as int),
                                    ))),
                                decreases xs@.len() - i,
                            {
                                let e = self.item_path_element(&xs[i], list, i);
                                let ghost ev = e@;
                                let ip = path.with(e);
                                let ghost s2 = set@;
                                proof {
                                    assert(decreases_to!(value@ => value@->List_0));
                                    assert(decreases_to!(vs => vs[i as int]));
                                    assert(decreases_to!(value@ => vs[i as int]));
                                }
                                self.collect_field_set(&xs[i], &list.element_type, &ip, set);
                                if marks {
                                    set.insert(&ip);
                                }
                                proof {
                                    let t = vs.take(i as int + 1);
                                    assert(t.drop_last() =~= vs.take(i as int));
                                    assert(t.last() == xs@[i as int]@);
                                    assert(t.len() - 1 == i);
                                    assert forall|q: Seq<PathElementView>| #[trigger] contains_path(set@, q) == (contains_path(s1, q)
                                        || (q.len() > 0 && has_prefix(p, q) && list_children_contain(
                                        types,
                                        lv,
                                        t,
                                        q.skip(p.len() as int),
                                    ))) by {
                                        lemma_prefix_push(p, ev, q);
                                        lemma_push_eq(p, ev, q);
                                    }
                                }
                                i = i + 1;
                            }
                            proof {
                                assert(vs.take(xs@.len() as int) =~= vs);
                            }
                        }
                    },
                    None => {},
                }
            },
            _ => {},
        }
        proof {
            assert forall|q: Seq<PathElementView>| #[trigger] contains_path(set@, q) == (contains_path(s1, q) || (q.len()
                > 0 && has_prefix(p, q) && q.skip(p.len() as int).len() > 0 && children_contain(types, av, value@, q.skip(p.len() as int)))) by {
                let r = q.skip(p.len() as int);
                lemma_children_nonempty(types, *av.map->0, value@->Object_0, *av.list->0, value@->List_0, r);
            }
            assert forall|q: Seq<PathElementView>| #[trigger] contains_path(set@, q) == (contains_path(s0, q) || (q.len()
                > 0 && has_prefix(p, q) && rel_contains(types, type_ref@, value@, q.skip(p.len() as int)))) by {
                let r = q.skip(p.len() as int);
                assert(resolve_view(types, type_ref@) == Some(av));
                if r.len() > 0 {
                    assert(rel_contains(types, type_ref@, value@, r) == children_contain(types, av, value@, r));
                }
            }
        }
    }
}

// ---------------------------------------------------------------------------
// Removing items.
// ---------------------------------------------------------------------------

/// A value with the paths of `items` taken out; `p` is the value's path.
/// A value whose own path is in `items` becomes null; the items of a list
/// and the fields of a map whose paths are in `items` are dropped and the
/// others have their own parts removed; a map left with no field becomes
/// null.
pub open spec fn removed_value(
    types: Seq<TypeDefView>,
    t: TypeRefView,
    v: ValueView,
    items: crate::fieldpath::set::SetView,
    p: Seq<PathElementView>,
) -> ValueView
    decreases v, 1int,
{
    if contains_path(items, p) {
        ValueView::Null
    } else {
        match resolve_view(types, t) {
            None => v,
            Some(a) => match v {
                ValueView::List(xs) => match a.list {
                    Some(l) => ValueView::List(removed_items(types, *l, xs, items, p)),
                    None => v,
                },
                ValueView::Object(es) => match a.map {
                    Some(m) => {
                        let ne = removed_entries(types, *m, es, items, p);
                        if ne.len() == 0 {
                            ValueView::Null
                        } else {
                            ValueView::Object(ne)
                        }
                    },
                    None => v,
                },
                _ => v,
            },
        }
    }
}

/// The items of a list that [`removed_value`] keeps, each with its own
/// parts removed.
pub open spec fn removed_items(
    types: Seq<TypeDefView>,
    l: ListView,
    xs: Seq<ValueView>,
    items: crate::fieldpath::set::SetView,
    p: Seq<PathElementView>,
) -> Seq<ValueView>
    decreases xs, 0int,
{
    if xs.len() == 0 {
        Seq::empty()
    } else {
        let prev = removed_items(types, l, xs.drop_last(), items, p);
        let ip = p.push(item_pe(types, l, xs.last(), xs.len() - 1));
        if contains_path(items, ip) {
            prev
        } else {
            prev.push(removed_value(types, l.element_type, xs.last(), items, ip))
        }
    }
}

/// The fields of a map that [`removed_value`] keeps, each with its own
/// parts removed.
pub open spec fn removed_entries(
    types: Seq<TypeDefView>,
    m: MapView,
    es: Seq<(Seq<char>, ValueView)>,
    items: crate::fieldpath::set::SetView,
    p: Seq<PathElementView>,
) -> Seq<(Seq<char>, ValueView)>
    decreases es, 0int,
{
    if es.len() == 0 {
        Seq::empty()
    } else {
        let prev = removed_entries(types, m, es.drop_last(), items, p);
        let fp = p.push(PathElementView::FieldName(es.last().0));
        if contains_path(items, fp) {
            prev
        } else {
            prev.push((es.last().0, removed_value(types, field_type_of(m, es.last().0), es.last().1, items, fp)))
        }
    }
}

impl TypedValue {
    /// Returns the value with the paths of `items` taken out (see
    /// [`removed_value`]), of the same type.
    pub fn remove_items(&self, items: &FieldPathSet) -> (r: TypedValue)
        ensures
            r@ == (TypedValueView {
                value: removed_value(self@.schema, self@.type_ref, self@.value, items@, Seq::empty()),
                ..self@
            }),
    {
        let path = Path::new();
        let v = self.remove_items_from_value(&self.value, &self.type_ref, items, &path);
        TypedValue { value: v, type_ref: self.type_ref.clone(), schema: self.schema.clone() }
    }

    fn remove_items_from_value(&self, value: &Value, type_ref: &TypeRef, items: &FieldPathSet, path: &Path) -> (r:
        Value)
        ensures
            r@ == removed_value(self@.schema, type_ref@, value@, items@, path@),
        decreases value@,
    {
        let ghost types = self@.schema;
        let ghost p = path@;
        if items.has(path) {
            let r = Value::Null;
            proof {
                lemma_value_view_cases(r);
            }
            return r;
        }
        let atom = match self.schema.resolve(type_ref) {
            Some(a) => a,
            None => {
                return value.clone();
            },
        };
        proof {
            lemma_views(arbitrary(), atom, arbitrary(), arbitrary(), arbitrary());
            lemma_value_view_cases(*value);
        }
        let ghost av = atom@;
        match value {
            Value::List(xs) => {
                match &atom.list {
                    Some(list) => {
                        proof {
                            lemma_views(arbitrary(), arbitrary(), *list, arbitrary(), arbitrary());
                        }
                        let ghost lv = list@;
                        let ghost vs = crate::value::values_view(xs@);
                        proof {
                            crate::value::lemma_values_view(xs@);
                            assert(vs.take(0) =~= Seq::<ValueView>::empty());
                        }
                        let mut out: Vec<Value> = Vec::new();
                        let mut i: usize = 0;
                        proof {
                            crate::value::lemma_values_view(out@);
                        }
                        while i < xs.len()
                            invariant
                                vs == crate::value::values_view(xs@),
                                vs.len() == xs@.len(),
                                forall|j: int| 0 <= j < xs@.len() ==> #[trigger] vs[j] == xs@[j]@,
                                value@ == ValueView::List(vs),
                                p == path@,
                                types == self@.schema,
                                lv == list@,
                                i <= xs@.len(),
                                crate::value::values_view(out@) == removed_items(types, lv, vs.take(i as int), items@, p),
                            decreases xs@.len() - i,
                        {
                            let e = self.item_path_element(&xs[i], list, i);
                            let ip = path.with(e);
                            let ghost before = out@;
                            proof {
                                let t = vs.take(i as int + 1);
                                assert(t.drop_last() =~= vs.take(i as int));
                                assert(t.last() == xs@[i as int]@);
                                assert(decreases_to!(value@ => value@->List_0));
                                assert(decreases_to!(vs => vs[i as int]));
                            }
                            if !items.has(&ip) {
                                let nv = self.remove_items_from_value(&xs[i], &list.element_type, items, &ip);
                                out.push(nv);
                                proof {
                                    crate::value::lemma_values_view(out@);
                                    crate::value::lemma_values_view(before);
                                    assert(crate::value::values_view(out@) =~= crate::value::values_view(before).push(nv@));
                                }
                            }
                            i = i + 1;
                        }
                        proof {
                            assert(vs.take(xs@.len() as int) =~= vs);
                        }
                        let r = Value::List(out);
                        proof {
                            lemma_value_view_cases(r);
                        }
                        return r;
                    },
                    None => {},
                }
            },
            Value::Object(m) => {
                match &atom.map {
                    Some(map) => {
                        proof {
                            lemma_views(arbitrary(), arbitrary(), arbitrary(), *map, arbitrary());
                        }
                        let ghost mv = map@;
                        let ghost es = m@;
                        let n = m.len();
                        let mut out = ValueMap::new();
                        let ghost mut last: int = 0;
                        proof {
                            assert(es.take(0) =~= Seq::<(Seq<char>, ValueView)>::empty());
                        }
                        let mut i: usize = 0;
                        while i < n
                            invariant
                                n == es.len(),
                                es == m@,
                                crate::value::keys_sorted(es),
                                value@ == ValueView::Object(es),
                                p == path@,
                                types == self@.schema,
                                mv == map@,
                                i <= n,
                                out@ == removed_entries(types, mv, es.take(i as int), items@, p),
                                out@.len() > 0 ==> 0 <= last < i && out@.last().0 == es[last].0,
                            decreases n - i,
                        {
                            let (k, v) = m.entry_at(i);
                            let fp = path.with(PathElement::FieldName(k.clone()));
                            proof {
                                let t = es.take(i as int + 1);
                                assert(t.drop_last() =~= es.take(i as int));
                                assert(t.last() == (k@, v@));
                                assert(decreases_to!(value@ => value@->Object_0));
                                assert(decreases_to!(es => es[i as int]));
                                assert(decreases_to!(es[i as int] => es[i as int].1));
                            }
                            if !items.has(&fp) {
                                let ft = Self::field_type(map, k.as_str());
                                let nv = self.remove_items_from_value(v, &ft, items, &fp);
                                proof {
                                    if out@.len() > 0 {
                                        assert(chars_order(es[last].0, es[i as int].0) < 0);
                                    }
                                }
                                out.push_entry(k.clone(), nv);
                                proof {
                                    last = i as int;
                                }
                            }
                            i = i + 1;
                        }
                        proof {
                            assert(es.take(n as int) =~= es);
                        }
                        if out.is_empty() {
                            let r = Value::Null;
                            proof {
                                lemma_value_view_cases(r);
                            }
                            return r;
                        }
                        let r = Value::Object(out);
                        proof {
                            lemma_value_view_cases(r);
                        }
                        return r;
                    },
                    None => {},
                }
            },
            _ => {},
        }
        value.clone()
    }
}

// ---------------------------------------------------------------------------
// Extracting items.
// ---------------------------------------------------------------------------

/// The parts of a value at the paths of `items`; `p` is the value's path.
/// A value whose own path is in `items` is kept whole; otherwise a scalar
/// type gives null, and a list or map keeps the non-null parts extracted
/// from its items or fields, becoming null when none is left.
pub open spec fn extracted_value(
    types: Seq<TypeDefView>,
    t: TypeRefView,
    v: ValueView,
    items: crate::fieldpath::set::SetView,
    p: Seq<PathElementView>,
) -> ValueView
    decreases v, 1int,
{
    match resolve_view(types, t) {
        None => ValueView::Null,
        Some(a) => if contains_path(items, p) {
            v
        } else if a.scalar is Some {
            ValueView::Null
        } else {
            match (a.list, v) {
                (Some(l), ValueView::List(xs)) => {
                    let ni = extracted_items(types, *l, xs, items, p);
                    if ni.len() == 0 {
                        ValueView::Null
                    } else {
                        ValueView::List(ni)
                    }
                },
                _ => match (a.map, v) {
                    (Some(m), ValueView::Object(es)) => {
                        let ne = extracted_entries(types, *m, es, items, p);
                        if ne.len() == 0 {
                            ValueView::Null
                        } else {
                            ValueView::Object(ne)
                        }
                    },
                    _ => ValueView::Null,
                },
            }
        },
    }
}

/// The non-null parts extracted from the items of a list.
pub open spec fn extracted_items(
    types: Seq<TypeDefView>,
    l: ListView,
    xs: Seq<ValueView>,
    items: crate::fieldpath::set::SetView,
    p: Seq<PathElementView>,
) -> Seq<ValueView>
    decreases xs, 0int,
{
    if xs.len() == 0 {
        Seq::empty()
    } else {
        let prev = extracted_items(types, l, xs.drop_last(), items, p);
        let ip = p.push(item_pe(types, l, xs.last(), xs.len() - 1));
        let ni = extracted_value(types, l.element_type, xs.last(), items, ip);
        if ni is Null {
            prev
        } else {
            prev.push(ni)
        }
    }
}

/// The fields with non-null parts extracted from the fields of a map.
pub open spec fn extracted_entries(
    types: Seq<TypeDefView>,
    m: MapView,
    es: Seq<(Seq<char>, ValueView)>,
    items: crate::fieldpath::set::SetView,
    p: Seq<PathElementView>,
) -> Seq<(Seq<char>, ValueView)>
    decreases es, 0int,
{
    if es.len() == 0 {
        Seq::empty()
    } else {
        let prev = extracted_entries(types, m, es.drop_last(), items, p);
        let fp = p.push(PathElementView::FieldName(es.last().0));
        let nv = extracted_value(types, field_type_of(m, es.last().0), es.last().1, items, fp);
        if nv is Null {
            prev
        } else {
            prev.push((es.last().0, nv))
        }
    }
}

impl TypedValue {
    /// Returns the parts of the value at the paths of `items` (see
    /// [`extracted_value`]), of the same type.
    pub fn extract_items(&self, items: &FieldPathSet) -> (r: TypedValue)
        ensures
            r@ == (TypedValueView {
                value: extracted_value(self@.schema, self@.type_ref, self@.value, items@, Seq::empty()),
                ..self@
            }),
    {
        let path = Path::new();
        let v = self.extract_items_from_value(&self.value, &self.type_ref, items, &path);
        TypedValue { value: v, type_ref: self.type_ref.clone(), schema: self.schema.clone() }
    }

    fn extract_items_from_value(&self, value: &Value, type_ref: &TypeRef, items: &FieldPathSet, path: &Path) -> (r:
        Value)
        ensures
            r@ == extracted_value(self@.schema, type_ref@, value@, items@, path@),
        decreases value@,
    {
        let ghost types = self@.schema;
        let ghost p = path@;
        let null = Value::Null;
        proof {
            lemma_value_view_cases(null);
        }
        let atom = match self.schema.resolve(type_ref) {
            Some(a) => a,
            None => {
                return null;
            },
        };
        if items.has(path) {
            return value.clone();
        }
        proof {
            lemma_views(arbitrary(), atom, arbitrary(), arbitrary(), arbitrary());
            lemma_value_view_cases(*value);
        }
        if atom.scalar.is_some() {
            return null;
        }
        if let (Some(list), Value::List(xs)) = (&atom.list, value) {
            proof {
                lemma_views(arbitrary(), arbitrary(), *list, arbitrary(), arbitrary());
            }
            let ghost lv = list@;
            let ghost vs = crate::value::values_view(xs@);
            proof {
                crate::value::lemma_values_view(xs@);
                assert(vs.take(0) =~= Seq::<ValueView>::empty());
            }
            let mut out: Vec<Value> = Vec::new();
            let mut i: usize = 0;
            proof {
                crate::value::lemma_values_view(out@);
            }
            while i < xs.len()
                invariant
                    vs == crate::value::values_view(xs@),
                    vs.len() == xs@.len(),
                    forall|j: int| 0 <= j < xs@.len() ==> #[trigger] vs[j] == xs@[j]@,
                    value@ == ValueView::List(vs),
                    p == path@,
                    types == self@.schema,
                    lv == list@,
                    i <= xs@.len(),
                    crate::value::values_view(out@) == extracted_items(types, lv, vs.take(i as int), items@, p),
                decreases xs@.len() - i,
            {
                let e = self.item_path_element(&xs[i], list, i);
                let ip = path.with(e);
                let ghost before = out@;
                proof {
                    let t = vs.take(i as int + 1);
                    assert(t.drop_last() =~= vs.take(i as int));
                    assert(t.last() == xs@[i as int]@);
                    assert(decreases_to!(value@ => value@->List_0));
                    assert(decreases_to!(vs => vs[i as int]));
                }
                let nv = self.extract_items_from_value(&xs[i], &list.element_type, items, &ip);
                proof {
                    lemma_value_view_cases(nv);
                }
                if !nv.is_null() {
                    out.push(nv);
                    proof {
                        crate::value::lemma_values_view(out@);
                        crate::value::lemma_values_view(before);
                        assert(crate::value::values_view(out@) =~= crate::value::values_view(before).push(
                            out@[before.len() as int]@,
                        ));
                    }
                }
                i = i + 1;
            }
            proof {
                assert(vs.take(xs@.len() as int) =~= vs);
                crate::value::lemma_values_view(out@);
            }
            if out.len() == 0 {
                return null;
            }
            let r = Value::List(out);
            proof {
                lemma_value_view_cases(r);
            }
            return r;
        }
        if let (Some(map), Value::Object(m)) = (&atom.map, value) {
            proof {
                lemma_views(arbitrary(), arbitrary(), arbitrary(), *map, arbitrary());
            }
            let ghost mv = map@;
            let ghost es = m@;
            let n = m.len();
            let mut out = ValueMap::new();
            let ghost mut last: int = 0;
            proof {
                assert(es.take(0) =~= Seq::<(Seq<char>, ValueView)>::empty());
            }
            let mut i: usize = 0;
            while i < n
                invariant
                    n == es.len(),
                    es == m@,
                    crate::value::keys_sorted(es),
                    value@ == ValueView::Object(es),
                    p == path@,
                    types == self@.schema,
                    mv == map@,
                    i <= n,
                    out@ == extracted_entries(types, mv, es.take(i as int), items@, p),
                    out@.len() > 0 ==> 0 <= last < i && out@.last().0 == es[last].0,
                decreases n - i,
            {
                let (k, v) = m.entry_at(i);
                let fp = path.with(PathElement::FieldName(k.clone()));
                proof {
                    let t = es.take(i as int + 1);
                    assert(t.drop_last() =~= es.take(i as int));
                    assert(t.last() == (k@, v@));
                    assert(decreases_to!(value@ => value@->Object_0));
                    assert(decreases_to!(es => es[i as int]));
                    assert(decreases_to!(es[i as int] => es[i as int].1));
                }
                let ft = Self::field_type(map, k.as_str());
                let nv = self.extract_items_from_value(v, &ft, items, &fp);
                proof {
                    lemma_value_view_cases(nv);
                }
                if !nv.is_null() {
                    proof {
                        if out@.len() > 0 {
                            assert(chars_order(es[last].0, es[i as int].0) < 0);
                        }
                    }
                    out.push_entry(k.clone(), nv);
                    proof {
                        last = i as int;
                    }
                }
                i = i + 1;
            }
            proof {
                assert(es.take(n as int) =~= es);
            }
            if out.is_empty() {
                return null;
            }
            let r = Value::Object(out);
            proof {
                lemma_value_view_cases(r);
            }
            return r;
        }
        null
    }
}

// ---------------------------------------------------------------------------
// Comparing.
// ---------------------------------------------------------------------------

/// The path `r`, relative to a value of type `t`, leads to a field or item
/// inside the value (not to the value itself), through containers that are
/// not atomic.
pub open spec fn all_paths(types: Seq<TypeDefView>, t: TypeRefView, v: ValueView, r: Seq<PathElementView>) -> bool
    decreases v, 1int,
{
    match resolve_view(types, t) {
        None => false,
        Some(a) => match v {
            ValueView::Object(es) => match a.map {
                Some(m) => m.element_relationship != ElementRelationship::Atomic && object_all_paths(types, *m, es, r),
                None => false,
            },
            ValueView::List(xs) => match a.list {
                Some(l) => l.element_relationship != ElementRelationship::Atomic && list_all_paths(types, *l, xs, r),
                None => false,
            },
            _ => false,
        },
    }
}

/// The path `r` leads to a field of the map or inside it.
pub open spec fn object_all_paths(
    types: Seq<TypeDefView>,
    m: MapView,
    es: Seq<(Seq<char>, ValueView)>,
    r: Seq<PathElementView>,
) -> bool
    decreases es, 0int,
{
    es.len() > 0 && (object_all_paths(types, m, es.drop_last(), r) || (r.len() > 0 && r[0]
        == PathElementView::FieldName(es.last().0) && (r.len() == 1 || all_paths(
        types,
        field_type_of(m, es.last().0),
        es.last().1,
        r.drop_first(),
    ))))
}

/// The path `r` leads to an item of the list or inside it.
pub open spec fn list_all_paths(types: Seq<TypeDefView>, l: ListView, xs: Seq<ValueView>, r: Seq<PathElementView>) -> bool
    decreases xs, 0int,
{
    xs.len() > 0 && (list_all_paths(types, l, xs.drop_last(), r) || (r.len() > 0 && r[0] == item_pe(
        types,
        l,
        xs.last(),
        xs.len() - 1,
    ) && (r.len() == 1 || all_paths(types, l.element_type, xs.last(), r.drop_first()))))
}

/// The position of the last item of a list whose path element is `e`, or
/// -1.
pub open spec fn pe_index(types: Seq<TypeDefView>, l: ListView, xs: Seq<ValueView>, e: PathElementView) -> int
    decreases xs.len(),
{
    if xs.len() == 0 {
        -1
    } else if item_pe(types, l, xs.last(), xs.len() - 1) == e {
        xs.len() - 1
    } else {
        pe_index(types, l, xs.drop_last(), e)
    }
}

pub proof fn lemma_pe_index(types: Seq<TypeDefView>, l: ListView, xs: Seq<ValueView>, e: PathElementView)
    ensures
        -1 <= pe_index(types, l, xs, e) < xs.len(),
        pe_index(types, l, xs, e) >= 0 ==> item_pe(types, l, xs[pe_index(types, l, xs, e)], pe_index(types, l, xs, e))
            == e,
    decreases xs.len(),
{
    if xs.len() > 0 && item_pe(types, l, xs.last(), xs.len() - 1) != e {
        lemma_pe_index(types, l, xs.drop_last(), e);
    }
}

/// Which of the three sets of a comparison: 0 removed, 1 modified, 2 added.
pub open spec fn part(c: crate::typed::comparison::ComparisonView, w: int) -> crate::fieldpath::set::SetView {
    if w == 0 {
        c.removed
    } else if w == 1 {
        c.modified
    } else {
        c.added
    }
}

/// The path `r`, relative to two values of type `t`, is in set `w` of their
/// comparison (0 removed, 1 modified, 2 added).
///
/// Two maps of a map type, or two lists of a list type, compare item by
/// item (or as a whole when atomic); otherwise values that differ are
/// modified, and when a side is a map of a map type, its inner paths are
/// removed (left side) or added (right side).
pub open spec fn differs_at(
    types: Seq<TypeDefView>,
    t: TypeRefView,
    lv: ValueView,
    rv: ValueView,
    w: int,
    r: Seq<PathElementView>,
) -> bool
    decreases lv, 2int,
{
    match resolve_view(types, t) {
        None => false,
        Some(a) => match (lv, rv) {
            (ValueView::Object(les), ValueView::Object(res)) => match a.map {
                Some(m) => map_differs_at(types, *m, les, res, w, r),
                None => w == 1 && r.len() == 0 && lv != rv,
            },
            (ValueView::List(lxs), ValueView::List(rxs)) => match a.list {
                Some(l) => list_differs_at(types, *l, lxs, rxs, w, r),
                None => w == 1 && r.len() == 0 && lv != rv,
            },
            _ => lv != rv && ((w == 1 && r.len() == 0) || (w == 0 && lv is Object && a.map is Some && all_paths(
                types,
                t,
                lv,
                r,
            )) || (w == 2 && rv is Object && a.map is Some && all_paths(types, t, rv, r))),
        },
    }
}

/// Set `w` of the comparison of two maps of a map type holds the relative
/// path `r`: an atomic map compares as a whole; otherwise a field only on
/// the left is removed with its inner paths, a field only on the right is
/// added with its inner paths, and a field on both sides compares by value.
pub open spec fn map_differs_at(
    types: Seq<TypeDefView>,
    m: MapView,
    les: Seq<(Seq<char>, ValueView)>,
    res: Seq<(Seq<char>, ValueView)>,
    w: int,
    r: Seq<PathElementView>,
) -> bool
    decreases les, 1int,
{
    if m.element_relationship == ElementRelationship::Atomic {
        w == 1 && r.len() == 0 && les != res
    } else if r.len() == 0 {
        false
    } else {
        match r[0] {
            PathElementView::FieldName(k) => {
                let lm = entries_map(les);
                let rm = entries_map(res);
                if lm.contains_key(k) && rm.contains_key(k) {
                    proof {
                        let j = crate::value::key_index(les, k);
                        assert(decreases_to!(les => les[j]));
                        assert(decreases_to!(les[j] => les[j].1));
                    }
                    differs_at(types, field_type_of(m, k), lm[k], rm[k], w, r.drop_first())
                } else if lm.contains_key(k) {
                    w == 0 && (r.len() == 1 || all_paths(types, field_type_of(m, k), lm[k], r.drop_first()))
                } else if rm.contains_key(k) {
                    w == 2 && (r.len() == 1 || all_paths(types, field_type_of(m, k), rm[k], r.drop_first()))
                } else {
                    false
                }
            },
            _ => false,
        }
    }
}

/// Set `w` of the comparison of two lists of a list type holds the relative
/// path `r`: an atomic list compares as a whole; otherwise items are
/// matched by path element (the last item with each), an item only on the
/// left is removed, one only on the right is added, and items on both
/// sides compare by value.
pub open spec fn list_differs_at(
    types: Seq<TypeDefView>,
    l: ListView,
    lxs: Seq<ValueView>,
    rxs: Seq<ValueView>,
    w: int,
    r: Seq<PathElementView>,
) -> bool
    decreases lxs, 1int,
{
    if l.element_relationship == ElementRelationship::Atomic {
        w == 1 && r.len() == 0 && lxs != rxs
    } else if r.len() == 0 {
        false
    } else {
        let li = pe_index(types, l, lxs, r[0]);
        let ri = pe_index(types, l, rxs, r[0]);
        if li >= 0 && ri >= 0 {
            proof {
                lemma_pe_index(types, l, lxs, r[0]);
                assert(decreases_to!(lxs => lxs[li]));
            }
            differs_at(types, l.element_type, lxs[li], rxs[ri], w, r.drop_first())
        } else if li >= 0 {
            w == 0 && r.len() == 1
        } else if ri >= 0 {
            w == 2 && r.len() == 1
        } else {
            false
        }
    }
}

/// Comparing a value with itself finds no path removed, modified or added.
pub proof fn lemma_differs_at_self(types: Seq<TypeDefView>, t: TypeRefView, v: ValueView, w: int, r: Seq<PathElementView>)
    ensures
        !differs_at(types, t, v, v, w, r),
    decreases v,
{
    match resolve_view(types, t) {
        None => {},
        Some(a) => match v {
            ValueView::Object(es) => match a.map {
                Some(m) => {
                    if m.element_relationship != ElementRelationship::Atomic && r.len() > 0 {
                        match r[0] {
                            PathElementView::FieldName(k) => {
                                if entries_map(es).contains_key(k) {
                                    let j = crate::value::key_index(es, k);
                                    assert(decreases_to!(es => es[j]));
                                    assert(decreases_to!(es[j] => es[j].1));
                                    lemma_differs_at_self(types, field_type_of(*m, k), es[j].1, w, r.drop_first());
                                }
                            },
                            _ => {},
                        }
                    }
                },
                None => {},
            },
            ValueView::List(xs) => match a.list {
                Some(l) => {
                    if l.element_relationship != ElementRelationship::Atomic && r.len() > 0 {
                        let li = pe_index(types, *l, xs, r[0]);
                        lemma_pe_index(types, *l, xs, r[0]);
                        if li >= 0 {
                            assert(decreases_to!(xs => xs[li]));
                            lemma_differs_at_self(types, l.element_type, xs[li], w, r.drop_first());
                        }
                    }
                },
                None => {},
            },
            _ => {},
        },
    }
}

/// Comparing the other way round swaps the removed and added sets and
/// keeps the modified set: set `w` of comparing `lv` with `rv` is set
/// `2 - w` of comparing `rv` with `lv`.
pub proof fn lemma_differs_at_swap(
    types: Seq<TypeDefView>,
    t: TypeRefView,
    lv: ValueView,
    rv: ValueView,
    w: int,
    r: Seq<PathElementView>,
)
    requires
        0 <= w < 3,
    ensures
        differs_at(types, t, lv, rv, w, r) == differs_at(types, t, rv, lv, 2 - w, r),
    decreases lv,
{
    match resolve_view(types, t) {
        None => {},
        Some(a) => match (lv, rv) {
            (ValueView::Object(les), ValueView::Object(res)) => match a.map {
                Some(m) => {
                    if m.element_relationship != ElementRelationship::Atomic && r.len() > 0 {
                        match r[0] {
                            PathElementView::FieldName(k) => {
                                let lm = entries_map(les);
                                let rm = entries_map(res);
                                if lm.contains_key(k) && rm.contains_key(k) {
                                    let j = crate::value::key_index(les, k);
                                    assert(decreases_to!(les => les[j]));
                                    assert(decreases_to!(les[j] => les[j].1));
                                    lemma_differs_at_swap(types, field_type_of(*m, k), les[j].1, rm[k], w, r.drop_first());
                                }
                            },
                            _ => {},
                        }
                    }
                },
                None => {},
            },
            (ValueView::List(lxs), ValueView::List(rxs)) => match a.list {
                Some(l) => {
                    if l.element_relationship != ElementRelationship::Atomic && r.len() > 0 {
                        let li = pe_index(types, *l, lxs, r[0]);
                        let ri = pe_index(types, *l, rxs, r[0]);
                        lemma_pe_index(types, *l, lxs, r[0]);
                        lemma_pe_index(types, *l, rxs, r[0]);
                        if li >= 0 && ri >= 0 {
                            assert(decreases_to!(lxs => lxs[li]));
                            lemma_differs_at_swap(types, l.element_type, lxs[li], rxs[ri], w, r.drop_first());
                        }
                    }
                },
                None => {},
            },
            _ => {},
        },
    }
}

/// The three sets of a comparison are disjoint: a path is in at most one
/// of the removed, modified and added sets.
pub proof fn lemma_differs_at_disjoint(
    types: Seq<TypeDefView>,
    t: TypeRefView,
    lv: ValueView,
    rv: ValueView,
    r: Seq<PathElementView>,
)
    ensures
        !(differs_at(types, t, lv, rv, 0, r) && differs_at(types, t, lv, rv, 1, r)),
        !(differs_at(types, t, lv, rv, 0, r) && differs_at(types, t, lv, rv, 2, r)),
        !(differs_at(types, t, lv, rv, 1, r) && differs_at(types, t, lv, rv, 2, r)),
    decreases lv,
{
    match resolve_view(types, t) {
        None => {},
        Some(a) => match (lv, rv) {
            (ValueView::Object(les), ValueView::Object(res)) => match a.map {
                Some(m) => {
                    if m.element_relationship != ElementRelationship::Atomic && r.len() > 0 {
                        match r[0] {
                            PathElementView::FieldName(k) => {
                                let lm = entries_map(les);
                                let rm = entries_map(res);
                                if lm.contains_key(k) && rm.contains_key(k) {
                                    let j = crate::value::key_index(les, k);
                                    assert(decreases_to!(les => les[j]));
                                    assert(decreases_to!(les[j] => les[j].1));
                                    lemma_differs_at_disjoint(types, field_type_of(*m, k), les[j].1, rm[k], r.drop_first());
                                }
                            },
                            _ => {},
                        }
                    }
                },
                None => {},
            },
            (ValueView::List(lxs), ValueView::List(rxs)) => match a.list {
                Some(l) => {
                    if l.element_relationship != ElementRelationship::Atomic && r.len() > 0 {
                        let li = pe_index(types, *l, lxs, r[0]);
                        let ri = pe_index(types, *l, rxs, r[0]);
                        lemma_pe_index(types, *l, lxs, r[0]);
                        lemma_pe_index(types, *l, rxs, r[0]);
                        if li >= 0 && ri >= 0 {
                            assert(decreases_to!(lxs => lxs[li]));
                            lemma_differs_at_disjoint(types, l.element_type, lxs[li], rxs[ri], r.drop_first());
                        }
                    }
                },
                None => {},
            },
            _ => {
                match (lv, a.map) {
                    (ValueView::Object(es), Some(m)) => {
                        lemma_all_paths_nonempty(types, *m, es, arbitrary(), Seq::empty(), r);
                    },
                    _ => {},
                }
                match (rv, a.map) {
                    (ValueView::Object(es), Some(m)) => {
                        lemma_all_paths_nonempty(types, *m, es, arbitrary(), Seq::empty(), r);
                    },
                    _ => {},
                }
            },
        },
    }
}

proof fn lemma_all_paths_nonempty(
    types: Seq<TypeDefView>,
    m: MapView,
    es: Seq<(Seq<char>, ValueView)>,
    l: ListView,
    xs: Seq<ValueView>,
    r: Seq<PathElementView>,
)
    ensures
        object_all_paths(types, m, es, r) ==> r.len() > 0,
        list_all_paths(types, l, xs, r) ==> r.len() > 0,
    decreases es.len() + xs.len(),
{
    if es.len() > 0 {
        lemma_all_paths_nonempty(types, m, es.drop_last(), l, xs, r);
    }
    if xs.len() > 0 {
        lemma_all_paths_nonempty(types, m, es, l, xs.drop_last(), r);
    }
}

impl TypedValue {
    /// Adds to `set` every path inside the value, after `path` (see
    /// [`all_paths`]).
    fn collect_all_paths(&self, value: &Value, type_ref: &TypeRef, path: &Path, set: &mut FieldPathSet)
        ensures
            forall|q: Seq<PathElementView>| #[trigger] contains_path(final(set)@, q) == (contains_path(old(set)@, q) || (
            has_prefix(path@, q) && all_paths(self@.schema, type_ref@, value@, q.skip(path@.len() as int)))),
        decreases value@,
    {
        let ghost types = self@.schema;
        let ghost p = path@;
        let ghost s0 = set@;
        let atom = match self.schema.resolve(type_ref) {
            Some(a) => a,
            None => {
                return;
            },
        };
        proof {
            lemma_views(arbitrary(), atom, arbitrary(), arbitrary(), arbitrary());
            lemma_value_view_cases(*value);
        }
        let ghost av = atom@;
        match value {
            Value::Object(m) => {
                match &atom.map {
                    Some(map) => {
                        proof {
                            lemma_views(arbitrary(), arbitrary(), arbitrary(), *map, arbitrary());
                        }
                        if map.element_relationship != ElementRelationship::Atomic {
                            let ghost mv = map@;
                            let ghost es = m@;
                            let n = m.len();
                            let mut i: usize = 0;
                            proof {
                                assert(es.take(0) =~= Seq::<(Seq<char>, ValueView)>::empty());
                            }
                            while i < n
                                invariant
                                    n == es.len(),
                                    es == m@,
                                    value@ == ValueView::Object(es),
                                    p == path@,
                                    types == self@.schema,
                                    mv == map@,
                                    av.map == Some(Box::new(mv)),
                                    mv.element_relationship != ElementRelationship::Atomic,
                                    resolve_view(types, type_ref@) == Some(av),
                                    i <= n,
                                    forall|q: Seq<PathElementView>| #[trigger] contains_path(set@, q) == (contains_path(s0, q)
                                        || (has_prefix(p, q) && object_all_paths(
                                        types,
                                        mv,
                                        es.take(i as int),
                                        q.skip(p.len() as int),
                                    ))),
                                decreases n - i,
                            {
                                let (k, v) = m.entry_at(i);
                                let e = PathElement::FieldName(k.clone());
                                let ghost ev = e@;
                                let fp = path.with(e);
                                let ft = Self::field_type(map, k.as_str());
                                proof {
                                    assert(decreases_to!(value@ => value@->Object_0));
                                    assert(decreases_to!(es => es[i as int]));
                                    assert(decreases_to!(es[i as int] => es[i as int].1));
                                }
                                set.insert(&fp);
                                self.collect_all_paths(v, &ft, &fp, set);
                                proof {
                                    let t = es.take(i as int + 1);
                                    assert(t.drop_last() =~= es.take(i as int));
                                    assert(t.last() == (k@, v@));
                                    assert forall|q: Seq<PathElementView>| #[trigger] contains_path(set@, q) == (contains_path(s0, q)
                                        || (has_prefix(p, q) && object_all_paths(types, mv, t, q.skip(p.len() as int)))) by {
                                        lemma_prefix_push(p, ev, q);
                                        lemma_push_eq(p, ev, q);
                                    }
                                }
                                i = i + 1;
                            }
                            proof {
                                assert(es.take(n as int) =~= es);
                            }
                        }
                    },
                    None => {},
                }
            },
            Value::List(xs) => {
                match &atom.list {
                    Some(list) => {
                        proof {
                            lemma_views(arbitrary(), arbitrary(), *list, arbitrary(), arbitrary());
                        }
                        if list.element_relationship != ElementRelationship::Atomic {
                            let ghost lv = list@;
                            let ghost vs = crate::value::values_view(xs@);
                            proof {
                                crate::value::lemma_values_view(xs@);
                                assert(vs.take(0) =~= Seq::<ValueView>::empty());
                            }
                            let mut i: usize = 0;
                            while i < xs.len()
                                invariant
                                    vs == crate::value::values_view(xs@),
                                    vs.len() == xs@.len(),
                                    forall|j: int| 0 <= j < xs@.len() ==> #[trigger] vs[j] == xs@[j]@,
                                    value@ == ValueView::List(vs),
                                    p == path@,
                                    types == self@.schema,
                                    lv == list@,
                                    av.list == Some(Box::new(lv)),
                                    lv.element_relationship != ElementRelationship::Atomic,
                                    resolve_view(types, type_ref@) == Some(av),
                                    i <= xs@.len(),
                                    forall|q: Seq<PathElementView>| #[trigger] contains_path(set@, q) == (contains_path(s0, q)
                                        || (has_prefix(p, q) && list_all_paths(
                                        types,
                                        lv,
                                        vs.take(i as int),
                                        q.skip(p.len() as int),
                                    ))),
                                decreases xs@.len() - i,
                            {
                                let e = self.item_path_element(&xs[i], list, i);
                                let ghost ev = e@;
                                let ip = path.with(e);
                                proof {
                                    assert(decreases_to!(value@ => value@->List_0));
                                    assert(decreases_to!(vs => vs[i as int]));
                                }
                                set.insert(&ip);
                                self.collect_all_paths(&xs[i], &list.element_type, &ip, set);
                                proof {
                                    let t = vs.take(i as int + 1);
                                    assert(t.drop_last() =~= vs.take(i as int));
                                    assert(t.last() == xs@[i as int]@);
                                    assert(t.len() - 1 == i);
                                    assert forall|q: Seq<PathElementView>| #[trigger] contains_path(set@, q) == (contains_path(s0, q)
                                        || (has_prefix(p, q) && list_all_paths(types, lv, t, q.skip(p.len() as int)))) by {
                                        lemma_prefix_push(p, ev, q);
                                        lemma_push_eq(p, ev, q);
                                    }
                                }
                                i = i + 1;
                            }
                            proof {
                                assert(vs.take(xs@.len() as int) =~= vs);
                            }
                        }
                    },
                    None => {},
                }
            },
            _ => {},
        }
        proof {
            assert forall|q: Seq<PathElementView>| #[trigger] contains_path(set@, q) == (contains_path(s0, q) || (has_prefix(
                p,
                q,
            ) && all_paths(types, type_ref@, value@, q.skip(p.len() as int)))) by {
                assert(resolve_view(types, type_ref@) == Some(av));
            }
        }
    }
}

/// The relative path `r` leads to a field among the first entries `lpre`
/// of the left map that the right map lacks, or inside that field.
pub open spec fn key_removed(
    types: Seq<TypeDefView>,
    m: MapView,
    les: Seq<(Seq<char>, ValueView)>,
    lpre: Seq<(Seq<char>, ValueView)>,
    res: Seq<(Seq<char>, ValueView)>,
    r: Seq<PathElementView>,
) -> bool {
    r.len() > 0 && match r[0] {
        PathElementView::FieldName(k) => crate::value::has_key(lpre, k) && !entries_map(res).contains_key(k) && (r.len()
            == 1 || all_paths(types, field_type_of(m, k), entries_map(les)[k], r.drop_first())),
        _ => false,
    }
}

/// The relative path `r` starts with a field among the first entries
/// `rpre` of the right map, and is in set `w` through it (see
/// [`map_differs_at`]).
pub open spec fn right_part(
    types: Seq<TypeDefView>,
    m: MapView,
    les: Seq<(Seq<char>, ValueView)>,
    res: Seq<(Seq<char>, ValueView)>,
    rpre: Seq<(Seq<char>, ValueView)>,
    w: int,
    r: Seq<PathElementView>,
) -> bool {
    r.len() > 0 && match r[0] {
        PathElementView::FieldName(k) => crate::value::has_key(rpre, k) && (if entries_map(les).contains_key(k) {
            differs_at(types, field_type_of(m, k), entries_map(les)[k], entries_map(res)[k], w, r.drop_first())
        } else {
            w == 2 && (r.len() == 1 || all_paths(types, field_type_of(m, k), entries_map(res)[k], r.drop_first()))
        }),
        _ => false,
    }
}

proof fn lemma_has_key_take(s: Seq<(Seq<char>, ValueView)>, i: int, k: Seq<char>)
    requires
        0 <= i < s.len(),
    ensures
        crate::value::has_key(s.take(i + 1), k) == (crate::value::has_key(s.take(i), k) || s[i].0 == k),
{
    if crate::value::has_key(s.take(i + 1), k) {
        let j = crate::value::key_index(s.take(i + 1), k);
        if j < i {
            assert(s.take(i)[j].0 == k);
        }
    }
    if crate::value::has_key(s.take(i), k) {
        let j = crate::value::key_index(s.take(i), k);
        assert(s.take(i + 1)[j].0 == k);
    }
    if s[i].0 == k {
        assert(s.take(i + 1)[i].0 == k);
    }
}

impl TypedValue {
    /// Compares this value with another of the same type: the fields only
    /// here are removed, the fields on both sides with different values are
    /// modified, and the fields only there are added (see [`differs_at`]). Two
    /// values of different types cannot be compared.
    pub fn compare(&self, rhs: &TypedValue) -> (r: Result<crate::typed::comparison::Comparison, crate::typed::validation::ValidationErrors>)
        ensures
            r is Err <==> self@.type_ref != rhs@.type_ref,
            r matches Err(e) ==> e@ == seq![
                crate::typed::validation::ValidationErrorView::SchemaError {
                    message: "expected objects of the same type"@,
                },
            ],
            r matches Ok(c) ==> forall|w: int, q: Seq<PathElementView>|
                0 <= w < 3 ==> #[trigger] contains_path(part(c@, w), q) == differs_at(
                    self@.schema,
                    self@.type_ref,
                    self@.value,
                    rhs@.value,
                    w,
                    q,
                ),
    {
        if self.type_ref != rhs.type_ref {
            return Err(
                crate::typed::validation::ValidationErrors::from_error(
                    crate::typed::validation::ValidationError::schema_error("expected objects of the same type"),
                ),
            );
        }
        let mut c = crate::typed::comparison::Comparison::new();
        let ghost c0 = c@;
        let path = Path::new();
        self.compare_values(&self.value, &rhs.value, &self.type_ref, &path, &mut c);
        proof {
            assert forall|w: int, q: Seq<PathElementView>| 0 <= w < 3 implies #[trigger] contains_path(part(c@, w), q) == differs_at(
                self@.schema,
                self@.type_ref,
                self@.value,
                rhs@.value,
                w,
                q,
            ) by {
                lemma_prefix_empty(q);
                assert(!contains_path(part(c0, w), q));
            }
        }
        Ok(c)
    }

    fn compare_values(
        &self,
        lhs: &Value,
        rhs: &Value,
        type_ref: &TypeRef,
        path: &Path,
        c: &mut crate::typed::comparison::Comparison,
    )
        ensures
            forall|w: int, q: Seq<PathElementView>|
                0 <= w < 3 ==> #[trigger] contains_path(part(final(c)@, w), q) == (contains_path(part(old(c)@, w), q) || (
                has_prefix(path@, q) && differs_at(self@.schema, type_ref@, lhs@, rhs@, w, q.skip(path@.len() as int)))),
        decreases lhs@, 2int,
    {
        let ghost types = self@.schema;
        let ghost p = path@;
        let ghost c0 = c@;
        let atom = match self.schema.resolve(type_ref) {
            Some(a) => a,
            None => {
                return;
            },
        };
        proof {
            lemma_views(arbitrary(), atom, arbitrary(), arbitrary(), arbitrary());
            lemma_value_view_cases(*lhs);
            lemma_value_view_cases(*rhs);
        }
        let ghost av = atom@;
        match (lhs, rhs) {
            (Value::Object(lm), Value::Object(rm)) => {
                match &atom.map {
                    Some(map) => {
                        proof {
                            lemma_views(arbitrary(), arbitrary(), arbitrary(), *map, arbitrary());
                            assert(decreases_to!(lhs@ => lhs@->Object_0));
                        }
                        self.compare_maps(lm, rm, map, path, c);
                    },
                    None => {
                        if lhs != rhs {
                            c.modified.insert(path);
                        }
                    },
                }
            },
            (Value::List(lx), Value::List(rx)) => {
                match &atom.list {
                    Some(list) => {
                        proof {
                            lemma_views(arbitrary(), arbitrary(), *list, arbitrary(), arbitrary());
                            assert(decreases_to!(lhs@ => lhs@->List_0));
                        }
                        self.compare_lists(lx, rx, list, path, c);
                    },
                    None => {
                        if lhs != rhs {
                            c.modified.insert(path);
                        }
                    },
                }
            },
            _ => {
                if lhs != rhs {
                    c.modified.insert(path);
                    if lhs.is_map() && atom.map.is_some() {
                        self.collect_all_paths(lhs, type_ref, path, &mut c.removed);
                    }
                    if rhs.is_map() && atom.map.is_some() {
                        self.collect_all_paths(rhs, type_ref, path, &mut c.added);
                    }
                }
            },
        }
        proof {
            assert forall|w: int, q: Seq<PathElementView>| 0 <= w < 3 implies #[trigger] contains_path(part(c@, w), q) == (
            contains_path(part(c0, w), q) || (has_prefix(p, q) && differs_at(types, type_ref@, lhs@, rhs@, w, q.skip(
                p.len() as int,
            )))) by {
                assert(resolve_view(types, type_ref@) == Some(av));
                if q == p {
                    assert(q.take(p.len() as int) =~= q);
                    assert(q.skip(p.len() as int).len() == 0);
                }
                if has_prefix(p, q) && q.skip(p.len() as int).len() == 0 {
                    assert(q =~= q.take(p.len() as int));
                }
            }
        }
    }

    fn compare_maps(
        &self,
        lm: &ValueMap,
        rm: &ValueMap,
        map: &SchemaMap,
        path: &Path,
        c: &mut crate::typed::comparison::Comparison,
    )
        ensures
            forall|w: int, q: Seq<PathElementView>|
                0 <= w < 3 ==> #[trigger] contains_path(part(final(c)@, w), q) == (contains_path(part(old(c)@, w), q) || (
                has_prefix(path@, q) && map_differs_at(self@.schema, map@, lm@, rm@, w, q.skip(path@.len() as int)))),
        decreases lm@, 1int,
    {
        let ghost types = self@.schema;
        let ghost p = path@;
        let ghost c0 = c@;
        let ghost mv = map@;
        let ghost les = lm@;
        let ghost res = rm@;
        proof {
            lemma_views(arbitrary(), arbitrary(), arbitrary(), *map, arbitrary());
        }
        if map.element_relationship == ElementRelationship::Atomic {
            if lm != rm {
                c.modified.insert(path);
            }
            proof {
                assert forall|w: int, q: Seq<PathElementView>| 0 <= w < 3 implies #[trigger] contains_path(part(c@, w), q) == (
                contains_path(part(c0, w), q) || (has_prefix(p, q) && map_differs_at(types, mv, les, res, w, q.skip(
                    p.len() as int,
                )))) by {
                    if q == p {
                        assert(q.take(p.len() as int) =~= q);
                        assert(q.skip(p.len() as int).len() == 0);
                    }
                    if has_prefix(p, q) && q.skip(p.len() as int).len() == 0 {
                        assert(q =~= q.take(p.len() as int));
                    }
                }
            }
            return;
        }
        let n = lm.len();
        let _ = rm.len();
        let mut i: usize = 0;
        proof {
            assert(les.take(0) =~= Seq::<(Seq<char>, ValueView)>::empty());
        }
        while i < n
            invariant
                n == les.len(),
                les == lm@,
                res == rm@,
                crate::value::keys_sorted(les),
                p == path@,
                types == self@.schema,
                mv == map@,
                i <= n,
                c@.modified == c0.modified,
                c@.added == c0.added,
                forall|q: Seq<PathElementView>| #[trigger] contains_path(c@.removed, q) == (contains_path(c0.removed, q) || (
                has_prefix(p, q) && key_removed(types, mv, les, les.take(i as int), res, q.skip(p.len() as int)))),
            decreases n - i,
        {
            let (k, lv) = lm.entry_at(i);
            let e = PathElement::FieldName(k.clone());
            let ghost ev = e@;
            let ghost before = c@.removed;
            proof {
                crate::value::lemma_entries_map_at(les, i as int);
            }
            let found = rm.has(k.as_str());
            if !found {
                let fp = path.with(e);
                let ft = Self::field_type(map, k.as_str());
                c.removed.insert(&fp);
                let ghost mid = c@.removed;
                self.collect_all_paths(lv, &ft, &fp, &mut c.removed);
                proof {
                    assert forall|q: Seq<PathElementView>| #[trigger] contains_path(c@.removed, q) == (contains_path(before, q)
                        || q == fp@ || (has_prefix(fp@, q) && all_paths(types, ft@, lv@, q.skip(fp@.len() as int)))) by {
                        assert(contains_path(mid, q) == (contains_path(before, q) || q == fp@));
                    }
                }
            }
            proof {
                assert(les[i as int].0 == k@);
                assert(ev == PathElementView::FieldName(k@));
                assert forall|q: Seq<PathElementView>| #[trigger] contains_path(c@.removed, q) == (contains_path(c0.removed, q) || (
                has_prefix(p, q) && key_removed(types, mv, les, les.take(i as int + 1), res, q.skip(p.len() as int)))) by {
                    assert(contains_path(before, q) == (contains_path(c0.removed, q) || (
                        has_prefix(p, q) && key_removed(types, mv, les, les.take(i as int), res, q.skip(p.len() as int)))));
                    lemma_prefix_push(p, ev, q);
                    lemma_push_eq(p, ev, q);
                    let r = q.skip(p.len() as int);
                    if r.len() > 0 {
                        match r[0] {
                            PathElementView::FieldName(k2) => {
                                lemma_has_key_take(les, i as int, k2);
                            },
                            _ => {},
                        }
                    }
                }
            }
            i = i + 1;
        }
        let ghost c1 = c@;
        let n2 = rm.len();
        let mut i: usize = 0;
        proof {
            assert(res.take(0) =~= Seq::<(Seq<char>, ValueView)>::empty());
        }
        while i < n2
            invariant
                n2 == res.len(),
                les == lm@,
                res == rm@,
                crate::value::keys_sorted(les),
                crate::value::keys_sorted(res),
                p == path@,
                types == self@.schema,
                mv == map@,
                mv.element_relationship != ElementRelationship::Atomic,
                i <= n2,
                forall|w: int, q: Seq<PathElementView>|
                    0 <= w < 3 ==> #[trigger] contains_path(part(c@, w), q) == (contains_path(part(c1, w), q) || (
                    has_prefix(p, q) && right_part(types, mv, les, res, res.take(i as int), w, q.skip(p.len() as int)))),
            decreases n2 - i,
        {
            let ghost cb = c@;
            let (k, rv) = rm.entry_at(i);
            let e = PathElement::FieldName(k.clone());
            let ghost ev = e@;
            let fp = path.with(e);
            let ft = Self::field_type(map, k.as_str());
            proof {
                crate::value::lemma_entries_map_at(res, i as int);
            }
            match lm.get(k.as_str()) {
                None => {
                    c.added.insert(&fp);
                    let ghost mid = c@.added;
                    self.collect_all_paths(rv, &ft, &fp, &mut c.added);
                    proof {
                        assert forall|q: Seq<PathElementView>| #[trigger] contains_path(c@.added, q) == (contains_path(cb.added, q)
                            || q == fp@ || (has_prefix(fp@, q) && all_paths(types, ft@, rv@, q.skip(fp@.len() as int)))) by {
                            assert(contains_path(mid, q) == (contains_path(cb.added, q) || q == fp@));
                        }
                    }
                },
                Some(lv) => {
                    proof {
                        let j = crate::value::key_index(les, k@);
                        crate::value::lemma_entries_map_at(les, j);
                        assert(decreases_to!(les => les[j]));
                        assert(decreases_to!(les[j] => les[j].1));
                    }
                    self.compare_values(lv, rv, &ft, &fp, c);
                },
            }
            proof {
                assert forall|w: int, q: Seq<PathElementView>| 0 <= w < 3 implies #[trigger] contains_path(part(c@, w), q) == (
                contains_path(part(c1, w), q) || (has_prefix(p, q) && right_part(types, mv, les, res, res.take(i as int + 1), w, q.skip(
                    p.len() as int,
                )))) by {
                    assert(contains_path(part(cb, w), q) == (contains_path(part(c1, w), q) || (has_prefix(p, q) && right_part(
                        types,
                        mv,
                        les,
                        res,
                        res.take(i as int),
                        w,
                        q.skip(p.len() as int),
                    ))));
                    lemma_prefix_push(p, ev, q);
                    lemma_push_eq(p, ev, q);
                    let r = q.skip(p.len() as int);
                    if r.len() > 0 {
                        match r[0] {
                            PathElementView::FieldName(k2) => {
                                lemma_has_key_take(res, i as int, k2);
                            },
                            _ => {},
                        }
                    }
                }
            }
            i = i + 1;
        }
        proof {
            assert(les.take(n as int) =~= les);
            assert(res.take(n2 as int) =~= res);
            assert forall|w: int, q: Seq<PathElementView>| 0 <= w < 3 implies #[trigger] contains_path(part(c@, w), q) == (
            contains_path(part(c0, w), q) || (has_prefix(p, q) && map_differs_at(types, mv, les, res, w, q.skip(p.len() as int))))
                by {
                let r = q.skip(p.len() as int);
                if r.len() > 0 {
                    match r[0] {
                        PathElementView::FieldName(k2) => {
                            assert(entries_map(les).contains_key(k2) == crate::value::has_key(les, k2));
                            assert(entries_map(res).contains_key(k2) == crate::value::has_key(res, k2));
                        },
                        _ => {},
                    }
                }
            }
        }
    }
}

/// The relative path `r` is the path element of one of the first `n`
/// entries of `lks` (the items of the left list) that the right list lacks.
pub open spec fn list_removed_upto(
    types: Seq<TypeDefView>,
    l: ListView,
    lks: Seq<(PathElementView, usize)>,
    n: int,
    rxs: Seq<ValueView>,
    r: Seq<PathElementView>,
) -> bool {
    r.len() == 1 && (exists|j: int| 0 <= j < n && #[trigger] lks[j].0 == r[0]) && pe_index(types, l, rxs, r[0]) < 0
}

/// The relative path `r` starts with the path element of one of the first
/// `n` entries of `rks` (the items of the right list) and is in set `w`
/// through it (see [`list_differs_at`]).
pub open spec fn list_right_upto(
    types: Seq<TypeDefView>,
    l: ListView,
    rks: Seq<(PathElementView, usize)>,
    n: int,
    lxs: Seq<ValueView>,
    rxs: Seq<ValueView>,
    w: int,
    r: Seq<PathElementView>,
) -> bool {
    r.len() > 0 && (exists|j: int| 0 <= j < n && #[trigger] rks[j].0 == r[0]) && (if pe_index(types, l, lxs, r[0]) >= 0 {
        differs_at(
            types,
            l.element_type,
            lxs[pe_index(types, l, lxs, r[0])],
            rxs[pe_index(types, l, rxs, r[0])],
            w,
            r.drop_first(),
        )
    } else {
        w == 2 && r.len() == 1
    })
}

impl TypedValue {
    /// Maps the path element of each item of a list to the position of the
    /// last item with it.
    fn item_positions(&self, xs: &Vec<Value>, list: &List) -> (r: crate::fieldpath::pathelementmap::PathElementMap<usize>)
        ensures
            forall|e: PathElementView| #[trigger] r.as_map().contains_key(e) == (pe_index(
                self@.schema,
                list@,
                crate::value::values_view(xs@),
                e,
            ) >= 0),
            forall|e: PathElementView| #[trigger] r.as_map().contains_key(e) ==> r.as_map()[e] == pe_index(
                self@.schema,
                list@,
                crate::value::values_view(xs@),
                e,
            ),
    {
        let ghost types = self@.schema;
        let ghost vs = crate::value::values_view(xs@);
        proof {
            crate::value::lemma_values_view(xs@);
        }
        let mut r = crate::fieldpath::pathelementmap::PathElementMap::new(xs.len());
        proof {
            assert(r.as_map() =~= Map::<PathElementView, usize>::empty());
        }
        let mut i: usize = 0;
        while i < xs.len()
            invariant
                vs == crate::value::values_view(xs@),
                vs.len() == xs@.len(),
                forall|j: int| 0 <= j < xs@.len() ==> #[trigger] vs[j] == xs@[j]@,
                types == self@.schema,
                i <= xs@.len(),
                forall|e: PathElementView| #[trigger] r.as_map().contains_key(e) == (pe_index(types, list@, vs.take(i as int), e)
                    >= 0),
                forall|e: PathElementView| #[trigger] r.as_map().contains_key(e) ==> r.as_map()[e] == pe_index(
                    types,
                    list@,
                    vs.take(i as int),
                    e,
                ),
            decreases xs@.len() - i,
        {
            let e = self.item_path_element(&xs[i], list, i);
            let ghost ev = e@;
            r.insert(e, i);
            proof {
                let t = vs.take(i as int + 1);
                assert(t.drop_last() =~= vs.take(i as int));
                assert(t.last() == xs@[i as int]@);
                assert forall|e2: PathElementView| #[trigger] r.as_map().contains_key(e2) == (pe_index(types, list@, t, e2) >= 0)
                    && (r.as_map().contains_key(e2) ==> r.as_map()[e2] == pe_index(types, list@, t, e2)) by {
                    lemma_pe_index(types, list@, vs.take(i as int), e2);
                }
            }
            i = i + 1;
        }
        proof {
            assert(vs.take(xs@.len() as int) =~= vs);
        }
        r
    }

    fn compare_lists(
        &self,
        lx: &Vec<Value>,
        rx: &Vec<Value>,
        list: &List,
        path: &Path,
        c: &mut crate::typed::comparison::Comparison,
    )
        ensures
            forall|w: int, q: Seq<PathElementView>|
                0 <= w < 3 ==> #[trigger] contains_path(part(final(c)@, w), q) == (contains_path(part(old(c)@, w), q) || (
                has_prefix(path@, q) && list_differs_at(
                    self@.schema,
                    list@,
                    crate::value::values_view(lx@),
                    crate::value::values_view(rx@),
                    w,
                    q.skip(path@.len() as int),
                ))),
        decreases crate::value::values_view(lx@), 1int,
    {
        let ghost types = self@.schema;
        let ghost p = path@;
        let ghost c0 = c@;
        let ghost lv = list@;
        let ghost lxs = crate::value::values_view(lx@);
        let ghost rxs = crate::value::values_view(rx@);
        proof {
            lemma_views(arbitrary(), arbitrary(), *list, arbitrary(), arbitrary());
            crate::value::lemma_values_view(lx@);
            crate::value::lemma_values_view(rx@);
        }
        if list.element_relationship == ElementRelationship::Atomic {
            let d = crate::value::compare_values(lx, rx);
            proof {
                crate::value::lemma_list_order_eq(lxs, rxs);
            }
            if d != 0 {
                c.modified.insert(path);
            }
            proof {
                assert forall|w: int, q: Seq<PathElementView>| 0 <= w < 3 implies #[trigger] contains_path(part(c@, w), q) == (
                contains_path(part(c0, w), q) || (has_prefix(p, q) && list_differs_at(types, lv, lxs, rxs, w, q.skip(
                    p.len() as int,
                )))) by {
                    if q == p {
                        assert(q.take(p.len() as int) =~= q);
                        assert(q.skip(p.len() as int).len() == 0);
                    }
                    if has_prefix(p, q) && q.skip(p.len() as int).len() == 0 {
                        assert(q =~= q.take(p.len() as int));
                    }
                }
            }
            return;
        }
        let lmap = self.item_positions(lx, list);
        let rmap = self.item_positions(rx, list);
        let _ = lmap.len();
        let _ = rmap.len();
        let lkeys = lmap.keys();
        let ghost lks = lmap@;
        let ghost rks = rmap@;
        let mut j: usize = 0;
        while j < lkeys.len()
            invariant
                lkeys@.len() == lks.len(),
                forall|jj: int| 0 <= jj < lkeys@.len() ==> (#[trigger] lkeys@[jj])@ == lks[jj].0,
                lks == lmap@,
                rks == rmap@,
                p == path@,
                types == self@.schema,
                lv == list@,
                rxs == crate::value::values_view(rx@),
                forall|e: PathElementView| #[trigger] rmap.as_map().contains_key(e) == (pe_index(types, lv, rxs, e) >= 0),
                j <= lkeys@.len(),
                c@.modified == c0.modified,
                c@.added == c0.added,
                forall|q: Seq<PathElementView>| #[trigger] contains_path(c@.removed, q) == (contains_path(c0.removed, q) || (
                has_prefix(p, q) && list_removed_upto(types, lv, lks, j as int, rxs, q.skip(p.len() as int)))),
            decreases lkeys@.len() - j,
        {
            let pe = lkeys[j];
            let ghost ev = pe@;
            let ghost before = c@.removed;
            let found = rmap.contains(pe);
            if !found {
                let ip = path.with(pe.clone());
                c.removed.insert(&ip);
            }
            proof {
                assert forall|q: Seq<PathElementView>| #[trigger] contains_path(c@.removed, q) == (contains_path(before, q) || (
                !found && q == p.push(ev))) by {}
                assert forall|q: Seq<PathElementView>| #[trigger] contains_path(c@.removed, q) == (contains_path(c0.removed, q) || (
                has_prefix(p, q) && list_removed_upto(types, lv, lks, j as int + 1, rxs, q.skip(p.len() as int)))) by {
                    assert(contains_path(before, q) == (contains_path(c0.removed, q) || (has_prefix(p, q) && list_removed_upto(
                        types,
                        lv,
                        lks,
                        j as int,
                        rxs,
                        q.skip(p.len() as int),
                    ))));
                    lemma_prefix_push(p, ev, q);
                    lemma_push_eq(p, ev, q);
                    let r = q.skip(p.len() as int);
                    if r.len() == 1 && r[0] == ev {
                        assert(lks[j as int].0 == r[0]);
                    }
                    if r.len() == 1 && (exists|jj: int| 0 <= jj < j + 1 && #[trigger] lks[jj].0 == r[0]) && r[0] != ev {
                        let jj = choose|jj: int| 0 <= jj < j + 1 && #[trigger] lks[jj].0 == r[0];
                        assert(jj < j);
                    }
                }
            }
            j = j + 1;
        }
        let ghost c1 = c@;
        let rentries = rmap.iter();
        let mut j: usize = 0;
        while j < rentries.len()
            invariant
                rentries@.len() == rks.len(),
                forall|jj: int| 0 <= jj < rentries@.len() ==> (#[trigger] rentries@[jj]).0@ == rks[jj].0 && *rentries@[jj].1
                    == rks[jj].1,
                lks == lmap@,
                rks == rmap@,
                crate::fieldpath::pathelementmap::entry_keys_sorted(rks),
                p == path@,
                types == self@.schema,
                lv == list@,
                lxs == crate::value::values_view(lx@),
                rxs == crate::value::values_view(rx@),
                lxs.len() == lx@.len(),
                rxs.len() == rx@.len(),
                forall|jj: int| 0 <= jj < lx@.len() ==> #[trigger] lxs[jj] == lx@[jj]@,
                forall|jj: int| 0 <= jj < rx@.len() ==> #[trigger] rxs[jj] == rx@[jj]@,
                forall|e: PathElementView| #[trigger] lmap.as_map().contains_key(e) == (pe_index(types, lv, lxs, e) >= 0),
                forall|e: PathElementView| #[trigger] lmap.as_map().contains_key(e) ==> lmap.as_map()[e] == pe_index(
                    types,
                    lv,
                    lxs,
                    e,
                ),
                forall|e: PathElementView| #[trigger] rmap.as_map().contains_key(e) ==> rmap.as_map()[e] == pe_index(
                    types,
                    lv,
                    rxs,
                    e,
                ),
                forall|e: PathElementView| #[trigger] rmap.as_map().contains_key(e) == (pe_index(types, lv, rxs, e) >= 0),
                lv.element_relationship != ElementRelationship::Atomic,
                j <= rentries@.len(),
                forall|w: int, q: Seq<PathElementView>|
                    0 <= w < 3 ==> #[trigger] contains_path(part(c@, w), q) == (contains_path(part(c1, w), q) || (
                    has_prefix(p, q) && list_right_upto(types, lv, rks, j as int, lxs, rxs, w, q.skip(p.len() as int)))),
            decreases rentries@.len() - j,
        {
            let ghost cb = c@;
            let (pe, ri) = rentries[j];
            let ghost ev = pe@;
            let ip = path.with(pe.clone());
            proof {
                crate::fieldpath::pathelementmap::lemma_entries_as_map_at(rks, j as int);
                lemma_pe_index(types, lv, rxs, ev);
                lemma_pe_index(types, lv, lxs, ev);
                assert(rks[j as int].0 == ev);
                assert(*ri == rks[j as int].1);
                assert(rmap.as_map().contains_key(ev));
                assert(rmap.as_map()[ev] == *ri);
                assert(*ri as int == pe_index(types, lv, rxs, ev));
            }
            match lmap.get(pe) {
                None => {
                    c.added.insert(&ip);
                },
                Some(li) => {
                    proof {
                        assert(*li as int == pe_index(types, lv, lxs, ev));
                        assert(decreases_to!(lxs => lxs[*li as int]));
                    }
                    self.compare_values(&lx[*li], &rx[*ri], &list.element_type, &ip, c);
                },
            }
            proof {
                assert forall|w: int, q: Seq<PathElementView>| 0 <= w < 3 implies #[trigger] contains_path(part(c@, w), q) == (
                contains_path(part(c1, w), q) || (has_prefix(p, q) && list_right_upto(types, lv, rks, j as int + 1, lxs, rxs, w, q.skip(
                    p.len() as int,
                )))) by {
                    assert(contains_path(part(cb, w), q) == (contains_path(part(c1, w), q) || (has_prefix(p, q) && list_right_upto(
                        types,
                        lv,
                        rks,
                        j as int,
                        lxs,
                        rxs,
                        w,
                        q.skip(p.len() as int),
                    ))));
                    lemma_prefix_push(p, ev, q);
                    lemma_push_eq(p, ev, q);
                    let r = q.skip(p.len() as int);
                    if r.len() > 0 && r[0] == ev {
                        assert(rks[j as int].0 == r[0]);
                    }
                    if r.len() > 0 && (exists|jj: int| 0 <= jj < j + 1 && #[trigger] rks[jj].0 == r[0]) && r[0] != ev {
                        let jj = choose|jj: int| 0 <= jj < j + 1 && #[trigger] rks[jj].0 == r[0];
                        assert(jj < j);
                    }
                }
            }
            j = j + 1;
        }
        proof {
            assert forall|w: int, q: Seq<PathElementView>| 0 <= w < 3 implies #[trigger] contains_path(part(c@, w), q) == (
            contains_path(part(c0, w), q) || (has_prefix(p, q) && list_differs_at(types, lv, lxs, rxs, w, q.skip(p.len() as int))))
                by {
                let r = q.skip(p.len() as int);
                if r.len() > 0 {
                    let e = r[0];
                    assert(lmap.as_map().contains_key(e) == crate::fieldpath::pathelementmap::has_entry(lks, e));
                    assert(rmap.as_map().contains_key(e) == crate::fieldpath::pathelementmap::has_entry(rks, e));
                }
            }
        }
    }
}

// ---------------------------------------------------------------------------
// Merging.
// ---------------------------------------------------------------------------

/// The keys of the items of a list (`None` for an item without one).
pub open spec fn item_keys(types: Seq<TypeDefView>, l: ListView, xs: Seq<ValueView>) -> Seq<
    Option<Seq<(Seq<char>, ValueView)>>,
> {
    xs.map_values(|x: ValueView| item_key(types, l, x))
}

/// Some entry of `ks` is the key `k`.
pub open spec fn has_item_key(ks: Seq<Option<Seq<(Seq<char>, ValueView)>>>, k: Seq<(Seq<char>, ValueView)>) -> bool {
    exists|j: int| 0 <= j < ks.len() && #[trigger] ks[j] == Some(k)
}

/// How many entries of `ks` are the key `k`.
pub open spec fn key_count(ks: Seq<Option<Seq<(Seq<char>, ValueView)>>>, k: Seq<(Seq<char>, ValueView)>) -> nat
    decreases ks.len(),
{
    if ks.len() == 0 {
        0
    } else {
        key_count(ks.drop_last(), k) + if ks.last() == Some(k) {
            1nat
        } else {
            0nat
        }
    }
}

/// The position of the first entry of `ks` that is the key `k`, or -1.
pub open spec fn first_key_index(ks: Seq<Option<Seq<(Seq<char>, ValueView)>>>, k: Seq<(Seq<char>, ValueView)>) -> int
    decreases ks.len(),
{
    if ks.len() == 0 {
        -1
    } else if first_key_index(ks.drop_last(), k) >= 0 {
        first_key_index(ks.drop_last(), k)
    } else if ks.last() == Some(k) {
        ks.len() - 1
    } else {
        -1
    }
}

/// The result of merging `rv` into `lv`, both of type `t`: a null right
/// side gives null; a null left side gives the right side; two maps of a
/// map type, or two lists of a list type, that are not atomic merge item by
/// item; anything else gives the right side.
pub open spec fn merged_value(types: Seq<TypeDefView>, t: TypeRefView, lv: ValueView, rv: ValueView) -> ValueView
    decreases lv, 0int,
{
    if rv is Null {
        ValueView::Null
    } else if lv is Null {
        rv
    } else {
        match resolve_view(types, t) {
            None => rv,
            Some(a) => match (lv, rv) {
                (ValueView::Object(les), ValueView::Object(res)) => match a.map {
                    Some(m) => if m.element_relationship == ElementRelationship::Atomic {
                        rv
                    } else {
                        ValueView::Object(merged_entries(types, *m, les, res))
                    },
                    None => rv,
                },
                (ValueView::List(lxs), ValueView::List(rxs)) => match a.list {
                    Some(l) => if l.element_relationship == ElementRelationship::Atomic {
                        rv
                    } else {
                        ValueView::List(merged_list(types, *l, lxs, rxs))
                    },
                    None => rv,
                },
                _ => rv,
            },
        }
    }
}

/// The fields of two maps merged, in key order: a field on one side only is
/// kept as it is; a field on both sides has the right value merged into the
/// left one.
pub open spec fn merged_entries(
    types: Seq<TypeDefView>,
    m: MapView,
    les: Seq<(Seq<char>, ValueView)>,
    res: Seq<(Seq<char>, ValueView)>,
) -> Seq<(Seq<char>, ValueView)>
    decreases les, res.len(),
{
    if les.len() == 0 {
        res
    } else if res.len() == 0 {
        les
    } else if crate::value::chars_order(les[0].0, res[0].0) < 0 {
        seq![les[0]] + merged_entries(types, m, les.drop_first(), res)
    } else if crate::value::chars_order(les[0].0, res[0].0) > 0 {
        seq![res[0]] + merged_entries(types, m, les, res.drop_first())
    } else {
        seq![(res[0].0, merged_value(types, field_type_of(m, res[0].0), les[0].1, res[0].1))] + merged_entries(
            types,
            m,
            les.drop_first(),
            res.drop_first(),
        )
    }
}

/// The items of two lists merged. A list that is not associative takes the
/// right items. In an associative list without key names (a set), when the
/// right keys are a proper subset of the left ones and no right key occurs
/// twice on the left, the left items stay as they are. Otherwise the left
/// items whose key the right side lacks come first, then each right item
/// with a key, merged with the first left item of that key when the list
/// has key names; items without a key are dropped.
pub open spec fn merged_list(types: Seq<TypeDefView>, l: ListView, lxs: Seq<ValueView>, rxs: Seq<ValueView>) -> Seq<
    ValueView,
>
    decreases lxs, rxs.len() + 1,
{
    if l.element_relationship != ElementRelationship::Associative {
        rxs
    } else {
        let lks = item_keys(types, l, lxs);
        let rks = item_keys(types, l, rxs);
        let rhs_sub = forall|k: Seq<(Seq<char>, ValueView)>| has_item_key(rks, k) ==> has_item_key(lks, k);
        let lhs_sub = forall|k: Seq<(Seq<char>, ValueView)>| has_item_key(lks, k) ==> has_item_key(rks, k);
        let dup = exists|k: Seq<(Seq<char>, ValueView)>| has_item_key(rks, k) && key_count(lks, k) > 1;
        if l.keys.len() == 0 && rhs_sub && !lhs_sub && !dup {
            lxs
        } else {
            left_only_items(lks, rks, lxs) + right_items(types, l, lxs, rxs)
        }
    }
}

/// The left items with a key that the right side lacks, in order.
pub open spec fn left_only_items(
    lks: Seq<Option<Seq<(Seq<char>, ValueView)>>>,
    rks: Seq<Option<Seq<(Seq<char>, ValueView)>>>,
    lxs: Seq<ValueView>,
) -> Seq<ValueView>
    decreases lxs.len(),
{
    if lxs.len() == 0 {
        Seq::empty()
    } else {
        let prev = left_only_items(lks, rks, lxs.drop_last());
        let k = lks[lxs.len() - 1];
        if k is Some && !has_item_key(rks, k->0) {
            prev.push(lxs.last())
        } else {
            prev
        }
    }
}

/// The right items with a key, in order, each merged with the first left
/// item of its key when the list has key names.
pub open spec fn right_items(types: Seq<TypeDefView>, l: ListView, lxs: Seq<ValueView>, rxs: Seq<ValueView>) -> Seq<
    ValueView,
>
    decreases lxs, rxs.len(),
{
    if rxs.len() == 0 {
        Seq::empty()
    } else {
        let prev = right_items(types, l, lxs, rxs.drop_last());
        let lks = item_keys(types, l, lxs);
        match item_key(types, l, rxs.last()) {
            None => prev,
            Some(k) => {
                let f = first_key_index(lks, k);
                if l.keys.len() > 0 && 0 <= f < lxs.len() {
                    proof {
                        assert(decreases_to!(lxs => lxs[f]));
                    }
                    prev.push(merged_value(types, l.element_type, lxs[f], rxs.last()))
                } else {
                    prev.push(rxs.last())
                }
            },
        }
    }
}

/// The models of a list of optional keys.
pub open spec fn opt_keys_view(ks: Seq<Option<FieldList>>) -> Seq<Option<Seq<(Seq<char>, ValueView)>>> {
    ks.map_values(
        |o: Option<FieldList>|
            match o {
                Some(k) => Some(k@),
                None => None,
            },
    )
}

/// Returns true if some entry of `ks` is the key `k`.
fn key_in(ks: &Vec<Option<FieldList>>, k: &FieldList) -> (r: bool)
    ensures
        r == has_item_key(opt_keys_view(ks@), k@),
{
    let ghost v = opt_keys_view(ks@);
    let mut i: usize = 0;
    while i < ks.len()
        invariant
            v == opt_keys_view(ks@),
            v.len() == ks@.len(),
            i <= ks@.len(),
            forall|j: int| 0 <= j < i ==> v[j] != Some(k@),
        decreases ks@.len() - i,
    {
        match &ks[i] {
            Some(x) => {
                if x == k {
                    proof {
                        assert(v[i as int] == Some(k@));
                    }
                    return true;
                }
            },
            None => {},
        }
        i = i + 1;
    }
    false
}

/// Counts the entries of `ks` that are the key `k`.
fn count_key(ks: &Vec<Option<FieldList>>, k: &FieldList) -> (r: usize)
    ensures
        r == key_count(opt_keys_view(ks@), k@),
{
    let ghost v = opt_keys_view(ks@);
    let mut n: usize = 0;
    let mut i: usize = 0;
    proof {
        assert(v.take(0) =~= Seq::<Option<Seq<(Seq<char>, ValueView)>>>::empty());
    }
    while i < ks.len()
        invariant
            v == opt_keys_view(ks@),
            v.len() == ks@.len(),
            i <= ks@.len(),
            n == key_count(v.take(i as int), k@),
            n <= i,
        decreases ks@.len() - i,
    {
        proof {
            assert(v.take(i as int + 1).drop_last() =~= v.take(i as int));
        }
        match &ks[i] {
            Some(x) => {
                if x == k {
                    n = n + 1;
                }
            },
            None => {},
        }
        i = i + 1;
    }
    proof {
        assert(v.take(ks@.len() as int) =~= v);
    }
    n
}

/// Finds the first entry of `ks` that is the key `k`.
fn first_key(ks: &Vec<Option<FieldList>>, k: &FieldList) -> (r: Option<usize>)
    ensures
        match r {
            Some(f) => f as int == first_key_index(opt_keys_view(ks@), k@) && f < ks@.len(),
            None => first_key_index(opt_keys_view(ks@), k@) == -1,
        },
{
    let ghost v = opt_keys_view(ks@);
    let mut i: usize = 0;
    proof {
        assert(v.take(0) =~= Seq::<Option<Seq<(Seq<char>, ValueView)>>>::empty());
    }
    while i < ks.len()
        invariant
            v == opt_keys_view(ks@),
            v.len() == ks@.len(),
            i <= ks@.len(),
            first_key_index(v.take(i as int), k@) == -1,
        decreases ks@.len() - i,
    {
        proof {
            assert(v.take(i as int + 1).drop_last() =~= v.take(i as int));
        }
        match &ks[i] {
            Some(x) => {
                if x == k {
                    proof {
                        lemma_first_key_prefix(v, i as int, k@);
                    }
                    return Some(i);
                }
            },
            None => {},
        }
        i = i + 1;
    }
    proof {
        assert(v.take(ks@.len() as int) =~= v);
    }
    None
}

/// Once a key is found at position `i` with none before, the first index
/// of the key in the whole sequence is `i`.
proof fn lemma_first_key_prefix(v: Seq<Option<Seq<(Seq<char>, ValueView)>>>, i: int, k: Seq<(Seq<char>, ValueView)>)
    requires
        0 <= i < v.len(),
        first_key_index(v.take(i), k) == -1,
        v[i] == Some(k),
    ensures
        first_key_index(v, k) == i,
    decreases v.len(),
{
    if v.len() == i + 1 {
        assert(v.drop_last() =~= v.take(i));
    } else {
        assert(v.drop_last().take(i) =~= v.take(i));
        lemma_first_key_prefix(v.drop_last(), i, k);
    }
}

impl TypedValue {
    /// Merges another value of the same type into this one: the right side
    /// wins where both have a value, maps merge field by field, atomic
    /// containers are replaced (see [`merged_value`]). Two values of
    /// different types cannot be merged.
    pub fn merge(&self, rhs: &TypedValue) -> (r: Result<TypedValue, crate::typed::validation::ValidationErrors>)
        ensures
            r is Err <==> self@.type_ref != rhs@.type_ref,
            r matches Err(e) ==> e@ == seq![
                crate::typed::validation::ValidationErrorView::SchemaError {
                    message: "expected objects of the same type"@,
                },
            ],
            r matches Ok(tv) ==> tv@ == (TypedValueView {
                value: merged_value(self@.schema, self@.type_ref, self@.value, rhs@.value),
                ..self@
            }),
    {
        if self.type_ref != rhs.type_ref {
            return Err(
                crate::typed::validation::ValidationErrors::from_error(
                    crate::typed::validation::ValidationError::schema_error("expected objects of the same type"),
                ),
            );
        }
        let v = self.merge_values(&self.value, &rhs.value, &self.type_ref);
        Ok(TypedValue { value: v, type_ref: self.type_ref.clone(), schema: self.schema.clone() })
    }

    fn merge_values(&self, lhs: &Value, rhs: &Value, type_ref: &TypeRef) -> (r: Value)
        ensures
            r@ == merged_value(self@.schema, type_ref@, lhs@, rhs@),
        decreases lhs@, 0int,
    {
        proof {
            lemma_value_view_cases(*lhs);
            lemma_value_view_cases(*rhs);
        }
        if rhs.is_null() {
            let r = Value::Null;
            proof {
                lemma_value_view_cases(r);
            }
            return r;
        }
        if lhs.is_null() {
            return rhs.clone();
        }
        let atom = match self.schema.resolve(type_ref) {
            Some(a) => a,
            None => {
                return rhs.clone();
            },
        };
        proof {
            lemma_views(arbitrary(), atom, arbitrary(), arbitrary(), arbitrary());
        }
        match (lhs, rhs) {
            (Value::Object(lm), Value::Object(rm)) => {
                match &atom.map {
                    Some(map) => {
                        proof {
                            lemma_views(arbitrary(), arbitrary(), arbitrary(), *map, arbitrary());
                        }
                        if map.element_relationship == ElementRelationship::Atomic {
                            return rhs.clone();
                        }
                        proof {
                            assert(decreases_to!(lhs@ => lhs@->Object_0));
                        }
                        let merged = self.merge_maps(lm, rm, map);
                        let r = Value::Object(merged);
                        proof {
                            lemma_value_view_cases(r);
                        }
                        r
                    },
                    None => rhs.clone(),
                }
            },
            (Value::List(lx), Value::List(rx)) => {
                match &atom.list {
                    Some(list) => {
                        proof {
                            lemma_views(arbitrary(), arbitrary(), *list, arbitrary(), arbitrary());
                        }
                        if list.element_relationship == ElementRelationship::Atomic {
                            return rhs.clone();
                        }
                        proof {
                            assert(decreases_to!(lhs@ => lhs@->List_0));
                        }
                        let merged = self.merge_lists(lx, rx, list);
                        let r = Value::List(merged);
                        proof {
                            lemma_value_view_cases(r);
                        }
                        r
                    },
                    None => rhs.clone(),
                }
            },
            _ => rhs.clone(),
        }
    }

    #[verifier::rlimit(40)]
    #[verifier::spinoff_prover]
    fn merge_maps(&self, lm: &ValueMap, rm: &ValueMap, map: &SchemaMap) -> (r: ValueMap)
        ensures
            r@ == merged_entries(self@.schema, map@, lm@, rm@),
        decreases lm@, rm@.len(),
    {
        let ghost types = self@.schema;
        let ghost mv = map@;
        let ghost les = lm@;
        let ghost res = rm@;
        let nl = lm.len();
        let nr = rm.len();
        let mut out = ValueMap::new();
        let mut i: usize = 0;
        let mut j: usize = 0;
        proof {
            assert(les.skip(0) =~= les);
            assert(res.skip(0) =~= res);
            assert(out@ + merged_entries(types, mv, les.skip(0), res.skip(0)) =~= merged_entries(types, mv, les, res));
        }
        while i < nl || j < nr
            invariant
                nl == les.len(),
                nr == res.len(),
                les == lm@,
                res == rm@,
                types == self@.schema,
                mv == map@,
                crate::value::keys_sorted(les),
                crate::value::keys_sorted(res),
                i <= nl,
                j <= nr,
                out@ + merged_entries(types, mv, les.skip(i as int), res.skip(j as int)) == merged_entries(
                    types,
                    mv,
                    les,
                    res,
                ),
                out@.len() > 0 ==> (i < nl ==> chars_order(out@.last().0, les[i as int].0) < 0) && (j < nr
                    ==> chars_order(out@.last().0, res[j as int].0) < 0),
            decreases nl - i + nr - j,
        {
            let ghost ls = les.skip(i as int);
            let ghost rs = res.skip(j as int);
            let ghost before = out@;
            if i < nl && j < nr {
                let (lk, lv) = lm.entry_at(i);
                let (rk, rv) = rm.entry_at(j);
                let c = crate::value::compare_str(lk.as_str(), rk.as_str());
                proof {
                    assert(ls[0] == les[i as int]);
                    assert(rs[0] == res[j as int]);
                    assert(ls.drop_first() =~= les.skip(i as int + 1));
                    assert(rs.drop_first() =~= res.skip(j as int + 1));
                    crate::value::lemma_chars_order(les[i as int].0, res[j as int].0, res[j as int].0);
                }
                if c < 0 {
                    out.push_entry(lk.clone(), lv.clone());
                    i = i + 1;
                    proof {
                        assert(out@ + merged_entries(types, mv, les.skip(i as int), res.skip(j as int)) =~= before
                            + merged_entries(types, mv, ls, rs));
                        if i < nl {
                            assert(chars_order(les[i - 1].0, les[i as int].0) < 0);
                        }
                    }
                } else if c > 0 {
                    out.push_entry(rk.clone(), rv.clone());
                    j = j + 1;
                    proof {
                        assert(out@ + merged_entries(types, mv, les.skip(i as int), res.skip(j as int)) =~= before
                            + merged_entries(types, mv, ls, rs));
                        crate::value::lemma_chars_order(res[j - 1].0, les[i as int].0, les[i as int].0);
                        if j < nr {
                            assert(chars_order(res[j - 1].0, res[j as int].0) < 0);
                        }
                    }
                } else {
                    let ft = Self::field_type(map, rk.as_str());
                    proof {
                        assert(decreases_to!(les => les[i as int]));
                        assert(decreases_to!(les[i as int] => les[i as int].1));
                    }
                    let merged = self.merge_values(lv, rv, &ft);
                    out.push_entry(rk.clone(), merged);
                    i = i + 1;
                    j = j + 1;
                    proof {
                        assert(out@ + merged_entries(types, mv, les.skip(i as int), res.skip(j as int)) =~= before
                            + merged_entries(types, mv, ls, rs));
                        if i < nl {
                            assert(chars_order(les[i - 1].0, les[i as int].0) < 0);
                        }
                        if j < nr {
                            assert(chars_order(res[j - 1].0, res[j as int].0) < 0);
                        }
                    }
                }
            } else if i < nl {
                let (lk, lv) = lm.entry_at(i);
                proof {
                    assert(rs.len() == 0);
                    assert(ls[0] == les[i as int]);
                    assert(ls =~= seq![ls[0]] + les.skip(i as int + 1));
                }
                out.push_entry(lk.clone(), lv.clone());
                i = i + 1;
                proof {
                    assert(out@ + merged_entries(types, mv, les.skip(i as int), res.skip(j as int)) =~= before
                        + merged_entries(types, mv, ls, rs));
                    if i < nl {
                        assert(chars_order(les[i - 1].0, les[i as int].0) < 0);
                    }
                }
            } else {
                let (rk, rv) = rm.entry_at(j);
                proof {
                    assert(ls.len() == 0);
                    assert(rs[0] == res[j as int]);
                    assert(rs =~= seq![rs[0]] + res.skip(j as int + 1));
                }
                out.push_entry(rk.clone(), rv.clone());
                j = j + 1;
                proof {
                    assert(out@ + merged_entries(types, mv, les.skip(i as int), res.skip(j as int)) =~= before
                        + merged_entries(types, mv, ls, rs));
                    if j < nr {
                        assert(chars_order(res[j - 1].0, res[j as int].0) < 0);
                    }
                }
            }
        }
        proof {
            assert(les.skip(nl as int) =~= Seq::<(Seq<char>, ValueView)>::empty());
            assert(res.skip(nr as int) =~= Seq::<(Seq<char>, ValueView)>::empty());
            assert(out@ =~= merged_entries(types, mv, les, res));
        }
        out
    }
}

impl TypedValue {
    /// Computes the key of each item of a list.
    fn keys_of(&self, xs: &Vec<Value>, list: &List) -> (r: Vec<Option<FieldList>>)
        ensures
            opt_keys_view(r@) == item_keys(self@.schema, list@, crate::value::values_view(xs@)),
    {
        let ghost vs = crate::value::values_view(xs@);
        proof {
            crate::value::lemma_values_view(xs@);
        }
        let mut r: Vec<Option<FieldList>> = Vec::new();
        let mut i: usize = 0;
        while i < xs.len()
            invariant
                vs == crate::value::values_view(xs@),
                vs.len() == xs@.len(),
                forall|j: int| 0 <= j < xs@.len() ==> #[trigger] vs[j] == xs@[j]@,
                i <= xs@.len(),
                r@.len() == i,
                forall|j: int| 0 <= j < i ==> #[trigger] opt_keys_view(r@)[j] == item_key(self@.schema, list@, vs[j]),
            decreases xs@.len() - i,
        {
            let k = self.list_item_to_key(&xs[i], list);
            let ghost before = r@;
            r.push(k);
            proof {
                assert forall|j: int| 0 <= j < i + 1 implies #[trigger] opt_keys_view(r@)[j] == item_key(
                    self@.schema,
                    list@,
                    vs[j],
                ) by {
                    if j < i {
                        assert(r@[j] == before[j]);
                        assert(opt_keys_view(before)[j] == item_key(self@.schema, list@, vs[j]));
                    }
                }
            }
            i = i + 1;
        }
        proof {
            assert(opt_keys_view(r@) =~= item_keys(self@.schema, list@, vs));
        }
        r
    }

    fn merge_lists(&self, lx: &Vec<Value>, rx: &Vec<Value>, list: &List) -> (r: Vec<Value>)
        ensures
            crate::value::values_view(r@) == merged_list(
                self@.schema,
                list@,
                crate::value::values_view(lx@),
                crate::value::values_view(rx@),
            ),
        decreases crate::value::values_view(lx@), crate::value::values_view(rx@).len() + 1,
    {
        let ghost types = self@.schema;
        let ghost lv = list@;
        let ghost lxs = crate::value::values_view(lx@);
        let ghost rxs = crate::value::values_view(rx@);
        proof {
            lemma_views(arbitrary(), arbitrary(), *list, arbitrary(), arbitrary());
            crate::value::lemma_values_view(lx@);
            crate::value::lemma_values_view(rx@);
        }
        if list.element_relationship != ElementRelationship::Associative {
            return crate::value::clone_values(rx);
        }
        let lkeys = self.keys_of(lx, list);
        let rkeys = self.keys_of(rx, list);
        let ghost lks = opt_keys_view(lkeys@);
        let ghost rks = opt_keys_view(rkeys@);
        let is_set = list.keys.len() == 0;
        let mut rhs_sub = true;
        let mut dup = false;
        let mut j: usize = 0;
        while j < rkeys.len()
            invariant
                lks == opt_keys_view(lkeys@),
                rks == opt_keys_view(rkeys@),
                rks.len() == rkeys@.len(),
                j <= rkeys@.len(),
                rhs_sub == (forall|jj: int| 0 <= jj < j ==> (#[trigger] rks[jj]) is Some ==> has_item_key(lks, rks[jj]->0)),
                dup == (exists|jj: int| 0 <= jj < j && (#[trigger] rks[jj]) is Some && key_count(lks, rks[jj]->0) > 1),
            decreases rkeys@.len() - j,
        {
            match &rkeys[j] {
                Some(k) => {
                    proof {
                        assert(rks[j as int] == Some(k@));
                    }
                    if !key_in(&lkeys, k) {
                        rhs_sub = false;
                    }
                    if count_key(&lkeys, k) > 1 {
                        dup = true;
                    }
                },
                None => {
                    proof {
                        assert(rks[j as int] is None);
                    }
                },
            }
            j = j + 1;
        }
        let mut lhs_sub = true;
        let mut i: usize = 0;
        while i < lkeys.len()
            invariant
                lks == opt_keys_view(lkeys@),
                rks == opt_keys_view(rkeys@),
                lks.len() == lkeys@.len(),
                i <= lkeys@.len(),
                lhs_sub == (forall|ii: int| 0 <= ii < i ==> (#[trigger] lks[ii]) is Some ==> has_item_key(rks, lks[ii]->0)),
            decreases lkeys@.len() - i,
        {
            match &lkeys[i] {
                Some(k) => {
                    proof {
                        assert(lks[i as int] == Some(k@));
                    }
                    if !key_in(&rkeys, k) {
                        lhs_sub = false;
                    }
                },
                None => {
                    proof {
                        assert(lks[i as int] is None);
                    }
                },
            }
            i = i + 1;
        }
        proof {
            assert(lks == item_keys(types, lv, lxs));
            assert(rks == item_keys(types, lv, rxs));
            assert(rhs_sub == (forall|k: Seq<(Seq<char>, ValueView)>| has_item_key(rks, k) ==> has_item_key(lks, k))) by {
                if rhs_sub {
                    assert forall|k: Seq<(Seq<char>, ValueView)>| has_item_key(rks, k) implies has_item_key(lks, k) by {
                        let jj = choose|jj: int| 0 <= jj < rks.len() && #[trigger] rks[jj] == Some(k);
                        assert(rks[jj] is Some);
                    }
                } else {
                    let jj = choose|jj: int| !(0 <= jj < rks.len() ==> (#[trigger] rks[jj]) is Some ==> has_item_key(lks, rks[jj]->0));
                    assert(has_item_key(rks, rks[jj]->0));
                }
            }
            assert(lhs_sub == (forall|k: Seq<(Seq<char>, ValueView)>| has_item_key(lks, k) ==> has_item_key(rks, k))) by {
                if lhs_sub {
                    assert forall|k: Seq<(Seq<char>, ValueView)>| has_item_key(lks, k) implies has_item_key(rks, k) by {
                        let ii = choose|ii: int| 0 <= ii < lks.len() && #[trigger] lks[ii] == Some(k);
                        assert(lks[ii] is Some);
                    }
                } else {
                    let ii = choose|ii: int| !(0 <= ii < lks.len() ==> (#[trigger] lks[ii]) is Some ==> has_item_key(rks, lks[ii]->0));
                    assert(has_item_key(lks, lks[ii]->0));
                }
            }
            assert(dup == (exists|k: Seq<(Seq<char>, ValueView)>| has_item_key(rks, k) && key_count(lks, k) > 1)) by {
                if dup {
                    let jj = choose|jj: int| 0 <= jj < rks.len() && (#[trigger] rks[jj]) is Some && key_count(lks, rks[jj]->0) > 1;
                    assert(has_item_key(rks, rks[jj]->0));
                }
                if exists|k: Seq<(Seq<char>, ValueView)>| has_item_key(rks, k) && key_count(lks, k) > 1 {
                    let k = choose|k: Seq<(Seq<char>, ValueView)>| has_item_key(rks, k) && key_count(lks, k) > 1;
                    let jj = choose|jj: int| 0 <= jj < rks.len() && #[trigger] rks[jj] == Some(k);
                    assert(rks[jj] is Some && key_count(lks, rks[jj]->0) > 1);
                }
            }
        }
        if is_set && rhs_sub && !lhs_sub && !dup {
            return crate::value::clone_values(lx);
        }
        let mut out: Vec<Value> = Vec::new();
        let mut i: usize = 0;
        proof {
            assert(lxs.take(0) =~= Seq::<ValueView>::empty());
            crate::value::lemma_values_view(out@);
            assert(crate::value::values_view(out@) =~= Seq::<ValueView>::empty());
        }
        while i < lx.len()
            invariant
                lxs == crate::value::values_view(lx@),
                lxs.len() == lx@.len(),
                forall|jj: int| 0 <= jj < lx@.len() ==> #[trigger] lxs[jj] == lx@[jj]@,
                lks == opt_keys_view(lkeys@),
                rks == opt_keys_view(rkeys@),
                lks.len() == lx@.len(),
                i <= lx@.len(),
                crate::value::values_view(out@) == left_only_items(lks, rks, lxs.take(i as int)),
            decreases lx@.len() - i,
        {
            proof {
                let t = lxs.take(i as int + 1);
                assert(t.drop_last() =~= lxs.take(i as int));
                assert(t.last() == lx@[i as int]@);
            }
            match &lkeys[i] {
                Some(k) => {
                    proof {
                        assert(lks[i as int] == Some(k@));
                    }
                    if !key_in(&rkeys, k) {
                        let ghost before = out@;
                        let v = lx[i].clone();
                        out.push(v);
                        proof {
                            crate::value::lemma_values_view_push(before, v);
                        }
                    }
                },
                None => {
                    proof {
                        assert(lks[i as int] is None);
                    }
                },
            }
            i = i + 1;
        }
        proof {
            assert(lxs.take(lx@.len() as int) =~= lxs);
        }
        let ghost left = crate::value::values_view(out@);
        let mut j: usize = 0;
        proof {
            assert(rxs.take(0) =~= Seq::<ValueView>::empty());
            assert(left + right_items(types, lv, lxs, rxs.take(0)) =~= left);
        }
        while j < rx.len()
            invariant
                lxs == crate::value::values_view(lx@),
                rxs == crate::value::values_view(rx@),
                lxs.len() == lx@.len(),
                rxs.len() == rx@.len(),
                forall|jj: int| 0 <= jj < lx@.len() ==> #[trigger] lxs[jj] == lx@[jj]@,
                forall|jj: int| 0 <= jj < rx@.len() ==> #[trigger] rxs[jj] == rx@[jj]@,
                lks == opt_keys_view(lkeys@),
                rks == opt_keys_view(rkeys@),
                lks == item_keys(types, lv, lxs),
                rks.len() == rx@.len(),
                forall|jj: int| 0 <= jj < rx@.len() ==> #[trigger] rks[jj] == item_key(types, lv, rxs[jj]),
                types == self@.schema,
                lv == list@,
                is_set == (lv.keys.len() == 0),
                j <= rx@.len(),
                crate::value::values_view(out@) == left + right_items(types, lv, lxs, rxs.take(j as int)),
            decreases rx@.len() - j,
        {
            proof {
                let t = rxs.take(j as int + 1);
                assert(t.drop_last() =~= rxs.take(j as int));
                assert(t.last() == rx@[j as int]@);
            }
            let ghost before = out@;
            match &rkeys[j] {
                Some(k) => {
                    proof {
                        assert(rks[j as int] == Some(k@));
                    }
                    if !is_set {
                        match first_key(&lkeys, k) {
                            Some(f) => {
                                proof {
                                    assert(decreases_to!(lxs => lxs[f as int]));
                                }
                                let v = self.merge_values(&lx[f], &rx[j], &list.element_type);
                                out.push(v);
                                proof {
                                    crate::value::lemma_values_view_push(before, v);
                                }
                            },
                            None => {
                                let v = rx[j].clone();
                                out.push(v);
                                proof {
                                    crate::value::lemma_values_view_push(before, v);
                                }
                            },
                        }
                    } else {
                        let v = rx[j].clone();
                        out.push(v);
                        proof {
                            crate::value::lemma_values_view_push(before, v);
                        }
                    }
                },
                None => {
                    proof {
                        assert(rks[j as int] is None);
                    }
                },
            }
            proof {
                assert(crate::value::values_view(out@) =~= left + right_items(types, lv, lxs, rxs.take(j as int + 1)));
            }
            j = j + 1;
        }
        proof {
            assert(rxs.take(rx@.len() as int) =~= rxs);
        }
        out
    }
}

// ---------------------------------------------------------------------------
// Validation.
// ---------------------------------------------------------------------------

/// A scalar value fits a scalar type.
pub open spec fn scalar_ok(s: crate::schema::elements::Scalar, v: ValueView) -> bool {
    match s {
        crate::schema::elements::Scalar::Numeric => v is Int || v is Float,
        crate::schema::elements::Scalar::String => v is Str,
        crate::schema::elements::Scalar::Boolean => v is Bool,
        crate::schema::elements::Scalar::Untyped => v is Int || v is Float || v is Str || v is Bool,
    }
}

/// A map type has a type for the fields it does not list.
pub open spec fn has_element_type(m: MapView) -> bool {
    m.element_type.named_type is Some || m.element_type.inlined.scalar is Some || m.element_type.inlined.list is Some
        || m.element_type.inlined.map is Some
}

/// A value fits its type: a named type must exist; null always fits; a
/// scalar needs a scalar type it fits; a list needs a list type and valid
/// items (in an associative list each with a key, and, unless duplicates
/// are allowed, no key twice); a map needs a map type and valid fields,
/// each listed in the type or covered by its type for other fields.
pub open spec fn valid_value(types: Seq<TypeDefView>, t: TypeRefView, v: ValueView, allow_duplicates: bool) -> bool
    decreases v, 1int,
{
    match resolve_view(types, t) {
        None => t.named_type is None,
        Some(a) => match v {
            ValueView::Null => true,
            ValueView::List(xs) => match a.list {
                Some(l) => valid_items(types, *l, xs, allow_duplicates),
                None => false,
            },
            ValueView::Object(es) => match a.map {
                Some(m) => valid_fields(types, *m, es, allow_duplicates),
                None => false,
            },
            _ => match a.scalar {
                Some(s) => scalar_ok(s, v),
                None => false,
            },
        },
    }
}

/// The items of a list are valid (see [`valid_value`]).
pub open spec fn valid_items(types: Seq<TypeDefView>, l: ListView, xs: Seq<ValueView>, allow_duplicates: bool) -> bool
    decreases xs, 0int,
{
    if xs.len() == 0 {
        true
    } else {
        let last = xs.last();
        let key_ok = l.element_relationship == ElementRelationship::Associative ==> match item_key(types, l, last) {
            Some(k) => allow_duplicates || !key_before(types, l, xs, xs.len() - 1, k),
            None => false,
        };
        valid_items(types, l, xs.drop_last(), allow_duplicates) && key_ok && valid_value(
            types,
            l.element_type,
            last,
            allow_duplicates,
        )
    }
}

/// The fields of a map are valid (see [`valid_value`]).
pub open spec fn valid_fields(
    types: Seq<TypeDefView>,
    m: MapView,
    es: Seq<(Seq<char>, ValueView)>,
    allow_duplicates: bool,
) -> bool
    decreases es, 0int,
{
    if es.len() == 0 {
        true
    } else {
        let last = es.last();
        let field_ok = match find_field_view(m.fields, last.0) {
            Some(f) => valid_value(types, f.field_type, last.1, allow_duplicates),
            None => has_element_type(m) && valid_value(types, m.element_type, last.1, allow_duplicates),
        };
        valid_fields(types, m, es.drop_last(), allow_duplicates) && field_ok
    }
}

/// The name of a value's kind in error messages.
pub open spec fn kind_name(v: ValueView) -> Seq<char> {
    match v {
        ValueView::Null => "null"@,
        ValueView::Bool(_) => "boolean"@,
        ValueView::Int(_) => "int"@,
        ValueView::Float(_) => "float"@,
        ValueView::Str(_) => "string"@,
        ValueView::List(_) => "list"@,
        ValueView::Object(_) => "map"@,
    }
}

/// The name of a scalar type in error messages.
pub open spec fn scalar_name(s: crate::schema::elements::Scalar) -> Seq<char> {
    match s {
        crate::schema::elements::Scalar::Numeric => "numeric"@,
        crate::schema::elements::Scalar::String => "string"@,
        crate::schema::elements::Scalar::Boolean => "boolean"@,
        crate::schema::elements::Scalar::Untyped => "scalar"@,
    }
}

/// What a type expects, in error messages, when a value is none of its
/// kinds: the first of `first`, `second` that it has, else `unknown`.
pub open spec fn expected_name(first: bool, first_name: Seq<char>, second: bool, second_name: Seq<char>) -> Seq<char> {
    if first {
        first_name
    } else if second {
        second_name
    } else {
        "unknown"@
    }
}

/// The message for an item of an associative list that gives no key.
pub open spec fn keyless_item_message(l: ListView, item: ValueView) -> Seq<char> {
    if l.keys.len() != 0 && item is Object {
        "associative list with keys has an element that omits all key fields "@ + names_debug(l.keys)
            + " (and doesn't have default values for any key fields)"@
    } else {
        "expected map for associative list item"@
    }
}

/// The errors that checking `v` against `t` at `path` reports, in order
/// (see [`valid_value`]): a type that does not resolve reports that no type
/// matches its name; a value of a kind the type does not have reports a
/// type mismatch; lists and maps report the errors of their items.
pub open spec fn value_errors(
    types: Seq<TypeDefView>,
    t: TypeRefView,
    v: ValueView,
    path: Seq<PathElementView>,
    allow_duplicates: bool,
) -> Seq<crate::typed::validation::ValidationErrorView>
    decreases v, 1int,
{
    match resolve_view(types, t) {
        None => match t.named_type {
            Some(n) => seq![crate::typed::validation::ValidationErrorView::SchemaError { message: "no type found matching: "@ + n }],
            None => Seq::empty(),
        },
        Some(a) => match v {
            ValueView::Null => Seq::empty(),
            ValueView::List(xs) => match a.list {
                Some(l) => items_errors(types, *l, xs, path, allow_duplicates),
                None => seq![
                    crate::typed::validation::ValidationErrorView::TypeMismatch {
                        path: crate::fieldpath::path::path_display(path),
                        expected: expected_name(a.scalar is Some, "scalar"@, a.map is Some, "map"@),
                        actual: "list"@,
                    },
                ],
            },
            ValueView::Object(es) => match a.map {
                Some(m) => fields_errors(types, *m, es, path, allow_duplicates),
                None => seq![
                    crate::typed::validation::ValidationErrorView::TypeMismatch {
                        path: crate::fieldpath::path::path_display(path),
                        expected: expected_name(a.scalar is Some, "scalar"@, a.list is Some, "list"@),
                        actual: "map"@,
                    },
                ],
            },
            _ => match a.scalar {
                Some(s) => if scalar_ok(s, v) {
                    Seq::empty()
                } else {
                    seq![
                        crate::typed::validation::ValidationErrorView::TypeMismatch {
                            path: crate::fieldpath::path::path_display(path),
                            expected: scalar_name(s),
                            actual: kind_name(v),
                        },
                    ]
                },
                None => seq![
                    crate::typed::validation::ValidationErrorView::TypeMismatch {
                        path: crate::fieldpath::path::path_display(path),
                        expected: expected_name(a.list is Some, "list"@, a.map is Some, "map"@),
                        actual: kind_name(v),
                    },
                ],
            },
        },
    }
}

/// The `i`-th item of `xs` repeats the key of an earlier item (and
/// duplicates are not allowed).
pub open spec fn item_dup(types: Seq<TypeDefView>, l: ListView, xs: Seq<ValueView>, i: int, allow_duplicates: bool) -> bool {
    !allow_duplicates && match item_key(types, l, xs[i]) {
        Some(k) => key_before(types, l, xs, i, k),
        None => false,
    }
}

/// The key errors of an item of an associative list: a duplicate key
/// (`dup`), or a missing key.
pub open spec fn item_key_errors(
    types: Seq<TypeDefView>,
    l: ListView,
    item: ValueView,
    dup: bool,
    path: Seq<PathElementView>,
) -> Seq<crate::typed::validation::ValidationErrorView> {
    if l.element_relationship == ElementRelationship::Associative {
        match item_key(types, l, item) {
            Some(k) => if dup {
                seq![
                    crate::typed::validation::ValidationErrorView::DuplicateKey {
                        path: crate::fieldpath::path::path_display(path),
                        key: key_debug(k),
                    },
                ]
            } else {
                Seq::empty()
            },
            None => seq![
                crate::typed::validation::ValidationErrorView::InvalidValue {
                    path: Seq::empty(),
                    message: keyless_item_message(l, item),
                },
            ],
        }
    } else {
        Seq::empty()
    }
}

/// The path element of the `i`-th item in error paths: its key in an
/// associative list that gives one, else its index.
pub open spec fn item_elem(types: Seq<TypeDefView>, l: ListView, item: ValueView, i: int) -> PathElementView {
    if l.element_relationship == ElementRelationship::Associative && item_key(types, l, item) is Some {
        PathElementView::Key(item_key(types, l, item)->0)
    } else {
        PathElementView::Index((i as i32) as int)
    }
}

/// The errors of the items of a list, item by item: the key errors of an
/// item of an associative list (see [`item_key_errors`]), then the errors
/// of the item at its path (see [`item_elem`]).
pub open spec fn items_errors(
    types: Seq<TypeDefView>,
    l: ListView,
    xs: Seq<ValueView>,
    path: Seq<PathElementView>,
    allow_duplicates: bool,
) -> Seq<crate::typed::validation::ValidationErrorView>
    decreases xs, 0int,
{
    if xs.len() == 0 {
        Seq::empty()
    } else {
        let i = xs.len() - 1;
        let last = xs.last();
        items_errors(types, l, xs.drop_last(), path, allow_duplicates) + item_key_errors(
            types,
            l,
            last,
            item_dup(types, l, xs, i, allow_duplicates),
            path,
        ) + value_errors(types, l.element_type, last, path.push(item_elem(types, l, last, i)), allow_duplicates)
    }
}

/// The errors of the fields of a map, field by field: those of a field of
/// the map type, or of an other field against the element type; without an
/// element type, an other field is unknown.
pub open spec fn fields_errors(
    types: Seq<TypeDefView>,
    m: MapView,
    es: Seq<(Seq<char>, ValueView)>,
    path: Seq<PathElementView>,
    allow_duplicates: bool,
) -> Seq<crate::typed::validation::ValidationErrorView>
    decreases es, 0int,
{
    if es.len() == 0 {
        Seq::empty()
    } else {
        let last = es.last();
        let fp = path.push(PathElementView::FieldName(last.0));
        fields_errors(types, m, es.drop_last(), path, allow_duplicates) + match find_field_view(m.fields, last.0) {
            Some(f) => value_errors(types, f.field_type, last.1, fp, allow_duplicates),
            None => if has_element_type(m) {
                value_errors(types, m.element_type, last.1, fp, allow_duplicates)
            } else {
                seq![
                    crate::typed::validation::ValidationErrorView::UnknownField {
                        path: crate::fieldpath::path::path_display(path),
                        field: last.0,
                    },
                ]
            },
        }
    }
}

/// Some of the keys `ks` is `k`.
pub open spec fn in_seen(ks: Seq<FieldList>, k: Seq<(Seq<char>, ValueView)>) -> bool {
    exists|t: int| 0 <= t < ks.len() && #[trigger] ks[t]@ == k
}

/// Some of the first `i` items has the key `k`.
pub open spec fn key_before(types: Seq<TypeDefView>, l: ListView, vs: Seq<ValueView>, i: int, k: Seq<(Seq<char>, ValueView)>) -> bool {
    exists|j: int| 0 <= j < i && #[trigger] item_key(types, l, vs[j]) == Some(k)
}

proof fn lemma_key_before_take(types: Seq<TypeDefView>, l: ListView, vs: Seq<ValueView>, i: int, k: Seq<(Seq<char>, ValueView)>)
    requires
        0 <= i < vs.len(),
    ensures
        key_before(types, l, vs.take(i + 1), i, k) == key_before(types, l, vs, i, k),
{
    if key_before(types, l, vs, i, k) {
        let j = choose|j: int| 0 <= j < i && #[trigger] item_key(types, l, vs[j]) == Some(k);
        assert(vs.take(i + 1)[j] == vs[j]);
    }
    if key_before(types, l, vs.take(i + 1), i, k) {
        let j = choose|j: int| 0 <= j < i && #[trigger] item_key(types, l, vs.take(i + 1)[j]) == Some(k);
        assert(vs.take(i + 1)[j] == vs[j]);
    }
}


/// The name of a value's kind in error messages (see [`kind_name`]).
fn value_type_name(v: &Value) -> (r: &'static str)
    ensures
        r@ == kind_name(v@),
{
    proof {
        lemma_value_view_cases(*v);
    }
    match v {
        Value::Null => "null",
        Value::Bool(_) => "boolean",
        Value::Int(_) => "int",
        Value::Float(_) => "float",
        Value::String(_) => "string",
        Value::List(_) => "list",
        Value::Object(_) => "map",
    }
}

/// Returns true if some key of `seen` is `k`.
fn seen_key(seen: &Vec<FieldList>, k: &FieldList) -> (r: bool)
    ensures
        r == in_seen(seen@, k@),
{
    let mut i: usize = 0;
    while i < seen.len()
        invariant
            i <= seen@.len(),
            forall|t: int| 0 <= t < i ==> #[trigger] seen@[t]@ != k@,
        decreases seen@.len() - i,
    {
        if &seen[i] == k {
            return true;
        }
        i = i + 1;
    }
    false
}

use crate::typed::validation::{ValidationError, ValidationErrors};

/// Pairs a value with its schema and type after checking that the value
/// fits the type (see [`valid_value`]).
pub fn as_typed(
    value: Value,
    schema: &Schema,
    type_ref: TypeRef,
    opts: &[crate::typed::validation::ValidationOption],
) -> (r: Result<TypedValue, ValidationErrors>)
    ensures
        r is Ok <==> valid_value(schema@, type_ref@, value@, opts@.contains(
            crate::typed::validation::ValidationOption::AllowDuplicates,
        )),
        r matches Ok(tv) ==> tv@ == (TypedValueView { value: value@, type_ref: type_ref@, schema: schema@ }),
        r matches Err(e) ==> e@ == value_errors(
            schema@,
            type_ref@,
            value@,
            Seq::empty(),
            opts@.contains(crate::typed::validation::ValidationOption::AllowDuplicates),
        ),
{
    let tv = TypedValue { value, type_ref, schema: schema.clone() };
    match tv.validate(opts) {
        Ok(()) => Ok(tv),
        Err(e) => Err(e),
    }
}

impl TypedValue {
    /// Checks that the value fits its type (see [`valid_value`]); the
    /// errors list what does not.
    pub fn validate(&self, opts: &[crate::typed::validation::ValidationOption]) -> (r: Result<(), ValidationErrors>)
        ensures
            r is Ok <==> valid_value(self@.schema, self@.type_ref, self@.value, opts@.contains(
                crate::typed::validation::ValidationOption::AllowDuplicates,
            )),
            r matches Err(e) ==> e@.len() > 0,
            r matches Err(e) ==> e@ == value_errors(
                self@.schema,
                self@.type_ref,
                self@.value,
                Seq::empty(),
                opts@.contains(crate::typed::validation::ValidationOption::AllowDuplicates),
            ),
    {
        let mut allow = false;
        let mut i: usize = 0;
        while i < opts.len()
            invariant
                i <= opts@.len(),
                allow == (exists|j: int| 0 <= j < i && #[trigger] opts@[j] == crate::typed::validation::ValidationOption::AllowDuplicates),
            decreases opts@.len() - i,
        {
            if opts[i] == crate::typed::validation::ValidationOption::AllowDuplicates {
                allow = true;
            }
            i = i + 1;
        }
        proof {
            assert(allow == opts@.contains(crate::typed::validation::ValidationOption::AllowDuplicates));
        }
        let mut errors = ValidationErrors::new();
        let path = Path::new();
        self.validate_value(&self.value, &self.type_ref, &path, allow, &mut errors);
        proof {
            assert(errors@ =~= value_errors(self@.schema, self@.type_ref, self@.value, Seq::empty(), allow));
        }
        if errors.is_empty() {
            Ok(())
        } else {
            Err(errors)
        }
    }

    fn validate_value(&self, value: &Value, type_ref: &TypeRef, path: &Path, allow: bool, errors: &mut ValidationErrors)
        ensures
            final(errors)@.len() >= old(errors)@.len(),
            (final(errors)@.len() == old(errors)@.len()) == valid_value(self@.schema, type_ref@, value@, allow),
            final(errors)@ == old(errors)@ + value_errors(self@.schema, type_ref@, value@, path@, allow),
        decreases value@, 1int,
    {
        let ghost e0 = errors@;
        proof {
            lemma_views(*type_ref, *type_ref.inlined, arbitrary(), arbitrary(), arbitrary());
        }
        let atom = match self.schema.resolve(type_ref) {
            Some(a) => a,
            None => {
                match &type_ref.named_type {
                    Some(name) => {
                        let mut message = String::from_str("no type found matching: ");
                        crate::text::push_str(&mut message, name.as_str());
                        errors.add(ValidationError::SchemaError { message });
                    },
                    None => {},
                }
                proof {
                    assert(errors@ =~= e0 + value_errors(self@.schema, type_ref@, value@, path@, allow));
                }
                return;
            },
        };
        proof {
            lemma_views(arbitrary(), atom, arbitrary(), arbitrary(), arbitrary());
            lemma_value_view_cases(*value);
        }
        match value {
            Value::Null => {},
            Value::List(xs) => {
                match &atom.list {
                    Some(list) => {
                        proof {
                            lemma_views(arbitrary(), arbitrary(), *list, arbitrary(), arbitrary());
                            assert(decreases_to!(value@ => value@->List_0));
                        }
                        self.validate_list(xs, list, path, allow, errors);
                    },
                    None => {
                        let p = path.to_string();
                        let expected = if atom.scalar.is_some() {
                            "scalar"
                        } else if atom.map.is_some() {
                            "map"
                        } else {
                            "unknown"
                        };
                        errors.add(ValidationError::type_mismatch(p.as_str(), expected, "list"));
                    },
                }
            },
            Value::Object(m) => {
                match &atom.map {
                    Some(map) => {
                        proof {
                            lemma_views(arbitrary(), arbitrary(), arbitrary(), *map, arbitrary());
                            assert(decreases_to!(value@ => value@->Object_0));
                        }
                        self.validate_map(m, map, path, allow, errors);
                    },
                    None => {
                        let p = path.to_string();
                        let expected = if atom.scalar.is_some() {
                            "scalar"
                        } else if atom.list.is_some() {
                            "list"
                        } else {
                            "unknown"
                        };
                        errors.add(ValidationError::type_mismatch(p.as_str(), expected, "map"));
                    },
                }
            },
            _ => {
                match &atom.scalar {
                    Some(s) => {
                        let valid = match s {
                            crate::schema::elements::Scalar::Numeric => value.is_int() || value.is_float(),
                            crate::schema::elements::Scalar::String => value.is_string(),
                            crate::schema::elements::Scalar::Boolean => value.is_bool(),
                            crate::schema::elements::Scalar::Untyped => value.is_int() || value.is_float()
                                || value.is_string() || value.is_bool(),
                        };
                        if !valid {
                            let expected = match s {
                                crate::schema::elements::Scalar::Numeric => "numeric",
                                crate::schema::elements::Scalar::String => "string",
                                crate::schema::elements::Scalar::Boolean => "boolean",
                                crate::schema::elements::Scalar::Untyped => "scalar",
                            };
                            let p = path.to_string();
                            errors.add(ValidationError::type_mismatch(p.as_str(), expected, value_type_name(value)));
                        }
                    },
                    None => {
                        let p = path.to_string();
                        let expected = if atom.list.is_some() {
                            "list"
                        } else if atom.map.is_some() {
                            "map"
                        } else {
                            "unknown"
                        };
                        errors.add(ValidationError::type_mismatch(p.as_str(), expected, value_type_name(value)));
                    },
                }
            },
        }
        proof {
            assert(errors@ =~= e0 + value_errors(self@.schema, type_ref@, value@, path@, allow));
        }
    }

    fn validate_list(&self, xs: &Vec<Value>, list: &List, path: &Path, allow: bool, errors: &mut ValidationErrors)
        ensures
            final(errors)@.len() >= old(errors)@.len(),
            (final(errors)@.len() == old(errors)@.len()) == valid_items(
                self@.schema,
                list@,
                crate::value::values_view(xs@),
                allow,
            ),
            final(errors)@ == old(errors)@ + items_errors(self@.schema, list@, crate::value::values_view(xs@), path@, allow),
        decreases crate::value::values_view(xs@), 0int,
    {
        let ghost e0 = errors@;
        let ghost types = self@.schema;
        let ghost lv = list@;
        let ghost vs = crate::value::values_view(xs@);
        let ghost n0 = errors@.len();
        proof {
            lemma_views(arbitrary(), arbitrary(), *list, arbitrary(), arbitrary());
            crate::value::lemma_values_view(xs@);
            assert(vs.take(0) =~= Seq::<ValueView>::empty());
        }
        let assoc = list.element_relationship == ElementRelationship::Associative;
        let mut seen: Vec<FieldList> = Vec::new();
        let mut i: usize = 0;
        while i < xs.len()
            invariant
                vs == crate::value::values_view(xs@),
                vs.len() == xs@.len(),
                forall|j: int| 0 <= j < xs@.len() ==> #[trigger] vs[j] == xs@[j]@,
                types == self@.schema,
                lv == list@,
                assoc == (lv.element_relationship == ElementRelationship::Associative),
                i <= xs@.len(),
                errors@.len() >= n0,
                (errors@.len() == n0) == valid_items(types, lv, vs.take(i as int), allow),
                e0.len() == n0,
                errors@ == e0 + items_errors(types, lv, vs.take(i as int), path@, allow),
                assoc ==> forall|k: Seq<(Seq<char>, ValueView)>| #[trigger] in_seen(seen@, k) == key_before(types, lv, vs, i as int, k),
            decreases xs@.len() - i,
        {
            let ghost before = errors@.len();
            let ghost before_seq = errors@;
            let ghost ok_before = valid_items(types, lv, vs.take(i as int), allow);
            let ghost t1 = vs.take(i as int + 1);
            proof {
                assert(t1.drop_last() =~= vs.take(i as int));
                assert(t1.last() == xs@[i as int]@);
                assert forall|j: int| 0 <= j < i implies #[trigger] t1[j] == vs[j] by {}
            }
            let e = if assoc {
                match self.list_item_to_key(&xs[i], list) {
                    Some(key) => {
                        let dup = seen_key(&seen, &key);
                        if !allow && dup {
                            let p = path.to_string();
                            let kt = key.debug_text();
                            errors.add(ValidationError::duplicate_key(p.as_str(), kt.as_str()));
                        }
                        let ghost kv = key@;
                        let ghost seen_before = seen@;
                        let kc = key.clone();
                        seen.push(kc);
                        proof {
                            assert forall|k: Seq<(Seq<char>, ValueView)>| #[trigger] in_seen(seen@, k) == key_before(types, lv, vs, i + 1, k) by {
                                assert(in_seen(seen_before, k) == key_before(types, lv, vs, i as int, k));
                                if exists|t: int| 0 <= t < seen@.len() && #[trigger] seen@[t]@ == k {
                                    let t = choose|t: int| 0 <= t < seen@.len() && #[trigger] seen@[t]@ == k;
                                    if t < seen_before.len() {
                                        assert(seen_before[t]@ == k);
                                    } else {
                                        assert(item_key(types, lv, vs[i as int]) == Some(k));
                                    }
                                }
                                if exists|j: int| 0 <= j < i + 1 && #[trigger] item_key(types, lv, vs[j]) == Some(k) {
                                    let j = choose|j: int| 0 <= j < i + 1 && #[trigger] item_key(types, lv, vs[j]) == Some(k);
                                    if j < i {
                                        let t = choose|t: int| 0 <= t < seen_before.len() && #[trigger] seen_before[t]@ == k;
                                        assert(seen@[t] == seen_before[t]);
                                    } else {
                                        assert(seen@[seen_before.len() as int]@ == k);
                                    }
                                }
                            }
                        }
                        PathElement::Key(key)
                    },
                    None => {
                        let message = if list.keys.len() == 0 {
                            String::from_str("expected map for associative list item")
                        } else {
                            match &xs[i] {
                                Value::Object(_) => {
                                    let mut m = String::from_str(
                                        "associative list with keys has an element that omits all key fields ",
                                    );
                                    crate::debug_text::push_names_debug(&mut m, &list.keys);
                                    crate::text::push_str(&mut m, " (and doesn't have default values for any key fields)");
                                    m
                                },
                                _ => String::from_str("expected map for associative list item"),
                            }
                        };
                        errors.add(ValidationError::InvalidValue { path: String::new(), message });
                        proof {
                            assert forall|k: Seq<(Seq<char>, ValueView)>| #[trigger] in_seen(seen@, k) == key_before(types, lv, vs, i + 1, k) by {
                                assert(in_seen(seen@, k) == key_before(types, lv, vs, i as int, k));
                                if exists|j: int| 0 <= j < i + 1 && #[trigger] item_key(types, lv, vs[j]) == Some(k) {
                                    let j = choose|j: int| 0 <= j < i + 1 && #[trigger] item_key(types, lv, vs[j]) == Some(k);
                                    assert(j < i);
                                }
                            }
                        }
                        #[verifier::truncate]
                        let index: i32 = i as i32;
                        PathElement::Index(index)
                    },
                }
            } else {
                #[verifier::truncate]
                let index: i32 = i as i32;
                PathElement::Index(index)
            };
            proof {
                lemma_value_view_cases(xs@[i as int]);
                assert(errors@ =~= before_seq + item_key_errors(
                    types,
                    lv,
                    vs[i as int],
                    item_dup(types, lv, vs, i as int, allow),
                    path@,
                ));
                assert(e@ == item_elem(types, lv, vs[i as int], i as int));
            }
            let ip = path.with(e);
            let ghost mid = errors@.len();
            let ghost key_ok = (lv.element_relationship == ElementRelationship::Associative ==> match item_key(
                types,
                lv,
                vs[i as int],
            ) {
                Some(k) => allow || !key_before(types, lv, vs, i as int, k),
                None => false,
            });
            proof {
                assert(decreases_to!(vs => vs[i as int]));
                assert(mid >= before);
                assert((mid == before) == key_ok);
            }
            self.validate_value(&xs[i], &list.element_type, &ip, allow, errors);
            proof {
                match item_key(types, lv, vs[i as int]) {
                    Some(k) => {
                        lemma_key_before_take(types, lv, vs, i as int, k);
                    },
                    None => {},
                }
                assert(t1.len() - 1 == i);
                assert(item_dup(types, lv, t1, i as int, allow) == item_dup(types, lv, vs, i as int, allow));
                assert(errors@ =~= e0 + items_errors(types, lv, t1, path@, allow));
            }
            i = i + 1;
        }
        proof {
            assert(vs.take(xs@.len() as int) =~= vs);
        }
    }

    fn validate_map(&self, m: &ValueMap, map: &SchemaMap, path: &Path, allow: bool, errors: &mut ValidationErrors)
        ensures
            final(errors)@.len() >= old(errors)@.len(),
            (final(errors)@.len() == old(errors)@.len()) == valid_fields(self@.schema, map@, m@, allow),
            final(errors)@ == old(errors)@ + fields_errors(self@.schema, map@, m@, path@, allow),
        decreases m@, 0int,
    {
        let ghost e0 = errors@;
        let ghost types = self@.schema;
        let ghost mv = map@;
        let ghost es = m@;
        let ghost n0 = errors@.len();
        proof {
            lemma_views(arbitrary(), arbitrary(), arbitrary(), *map, arbitrary());
            lemma_views(map.element_type, *map.element_type.inlined, arbitrary(), arbitrary(), arbitrary());
            lemma_views(arbitrary(), *map.element_type.inlined, arbitrary(), arbitrary(), arbitrary());
            assert(es.take(0) =~= Seq::<(Seq<char>, ValueView)>::empty());
        }
        let has_elem = map.element_type.named_type.is_some() || map.element_type.inlined.scalar.is_some()
            || map.element_type.inlined.list.is_some() || map.element_type.inlined.map.is_some();
        let n = m.len();
        let mut i: usize = 0;
        while i < n
            invariant
                n == es.len(),
                es == m@,
                types == self@.schema,
                mv == map@,
                has_elem == has_element_type(mv),
                i <= n,
                errors@.len() >= n0,
                (errors@.len() == n0) == valid_fields(types, mv, es.take(i as int), allow),
                e0.len() == n0,
                errors@ == e0 + fields_errors(types, mv, es.take(i as int), path@, allow),
            decreases n - i,
        {
            let (k, v) = m.entry_at(i);
            let fp = path.with(PathElement::FieldName(k.clone()));
            proof {
                let t = es.take(i as int + 1);
                assert(t.drop_last() =~= es.take(i as int));
                assert(t.last() == (k@, v@));
                assert(decreases_to!(es => es[i as int]));
                assert(decreases_to!(es[i as int] => es[i as int].1));
            }
            match map.find_field(k.as_str()) {
                Some(f) => {
                    proof {
                        lemma_views(arbitrary(), arbitrary(), arbitrary(), arbitrary(), *f);
                    }
                    self.validate_value(v, &f.field_type, &fp, allow, errors);
                },
                None => {
                    if has_elem {
                        self.validate_value(v, &map.element_type, &fp, allow, errors);
                    } else {
                        let p = path.to_string();
                        errors.add(ValidationError::unknown_field(p.as_str(), k.as_str()));
                    }
                },
            }
            i = i + 1;
        }
        proof {
            assert(es.take(n as int) =~= es);
        }
    }
}


// ---------------------------------------------------------------------------
// Laws: scalar values against scalar types.
// ---------------------------------------------------------------------------

/// A scalar value (a boolean, an integer, a float or a string) checked
/// against a type that resolves to a scalar type: a numeric type takes
/// integers and floats only, a string type strings only, a boolean type
/// booleans only, and an untyped scalar takes any of them. A value that
/// fits reports nothing; one that does not reports exactly one type
/// mismatch at its path, naming the expected scalar type ("numeric",
/// "string", "boolean" or "scalar") and the value's kind ("boolean", "int",
/// "float" or "string").
pub proof fn lemma_scalar_validation(
    types: Seq<TypeDefView>,
    t: TypeRefView,
    v: ValueView,
    path: Seq<PathElementView>,
    allow_duplicates: bool,
)
    requires
        resolve_view(types, t) matches Some(a) && a.scalar is Some,
        v is Bool || v is Int || v is Float || v is Str,
    ensures
        ({
            let s = resolve_view(types, t)->Some_0.scalar->Some_0;
            &&& s is Numeric ==> (valid_value(types, t, v, allow_duplicates) <==> (v is Int || v is Float))
            &&& s is String ==> (valid_value(types, t, v, allow_duplicates) <==> v is Str)
            &&& s is Boolean ==> (valid_value(types, t, v, allow_duplicates) <==> v is Bool)
            &&& s is Untyped ==> valid_value(types, t, v, allow_duplicates)
            &&& valid_value(types, t, v, allow_duplicates) ==> value_errors(types, t, v, path, allow_duplicates)
                == Seq::<crate::typed::validation::ValidationErrorView>::empty()
            &&& !valid_value(types, t, v, allow_duplicates) ==> value_errors(types, t, v, path, allow_duplicates)
                == seq![
                crate::typed::validation::ValidationErrorView::TypeMismatch {
                    path: crate::fieldpath::path::path_display(path),
                    expected: if s is Numeric {
                        "numeric"@
                    } else if s is String {
                        "string"@
                    } else if s is Boolean {
                        "boolean"@
                    } else {
                        "scalar"@
                    },
                    actual: if v is Bool {
                        "boolean"@
                    } else if v is Int {
                        "int"@
                    } else if v is Float {
                        "float"@
                    } else {
                        "string"@
                    },
                },
            ]
        }),
{
}


/// The fields of a map value are valid exactly when each field is: a field
/// that the map type lists fits the listed type, and any other field fits
/// the type the map gives its other fields (and the map gives one). One
/// field that does not fit, such as a string in a numeric field, makes the
/// whole map invalid.
pub proof fn lemma_fields_validation(
    types: Seq<TypeDefView>,
    m: MapView,
    es: Seq<(Seq<char>, ValueView)>,
    allow_duplicates: bool,
)
    ensures
        valid_fields(types, m, es, allow_duplicates) <==> forall|k: int|
            0 <= k < es.len() ==> match find_field_view(m.fields, (#[trigger] es[k]).0) {
                Some(f) => valid_value(types, f.field_type, es[k].1, allow_duplicates),
                None => has_element_type(m) && valid_value(types, m.element_type, es[k].1, allow_duplicates),
            },
    decreases es.len(),
{
    if es.len() > 0 {
        let init = es.drop_last();
        let n = es.len() - 1;
        lemma_fields_validation(types, m, init, allow_duplicates);
        assert forall|k: int| #![trigger init[k]] #![trigger es[k]] 0 <= k < n implies init[k] == es[k] by {}
        assert(es[n] == es.last());
    }
}

} // verus!
