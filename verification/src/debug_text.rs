//! Debug texts of values, keys, key names and type references, as path
//! displays and error messages show them: the variant or type name, then
//! the parts in brackets, each string in std's `Debug` form.

use crate::schema::elements::{
    lemma_views, opt_str_view, strings_view, Atom, AtomView, ElementRelationship, List, ListView, MapView, Scalar,
    SchemaMap, StructFieldView, TypeRef, TypeRefView, Union, UnionFieldView, UnionView,
};
use crate::text::{decimal, push_decimal, push_str, push_str_debug, str_debug};
use crate::value::{lemma_value_view_cases, lemma_values_view, values_view, FieldList, Value, ValueView};
use vstd::prelude::*;

verus! {

/// `true` or `false`.
pub open spec fn bool_text(b: bool) -> Seq<char> {
    if b {
        "true"@
    } else {
        "false"@
    }
}

/// The debug text of a value: `Null`, `Bool(true)`, `Int(3)`,
/// `Float("1.5")`, `String("x")`, `List([..])` with the items separated by
/// `, `, or `Object(ValueMap { entries: [..] })` with each entry as
/// `("name", value)`.
pub open spec fn value_debug(v: ValueView) -> Seq<char>
    decreases v,
{
    match v {
        ValueView::Null => "Null"@,
        ValueView::Bool(b) => "Bool("@ + bool_text(b) + ")"@,
        ValueView::Int(i) => "Int("@ + decimal(i) + ")"@,
        ValueView::Float(t) => "Float("@ + str_debug(t) + ")"@,
        ValueView::Str(t) => "String("@ + str_debug(t) + ")"@,
        ValueView::List(xs) => "List(["@ + values_debug(xs) + "])"@,
        ValueView::Object(es) => "Object(ValueMap { entries: ["@ + entries_debug(es) + "] })"@,
    }
}

/// The debug texts of values, separated by `, `.
pub open spec fn values_debug(xs: Seq<ValueView>) -> Seq<char>
    decreases xs,
{
    if xs.len() == 0 {
        Seq::empty()
    } else if xs.len() == 1 {
        value_debug(xs[0])
    } else {
        values_debug(xs.drop_last()) + ", "@ + value_debug(xs[xs.len() - 1])
    }
}

/// The debug text of a map entry: `("name", value)`.
pub open spec fn entry_debug(e: (Seq<char>, ValueView)) -> Seq<char>
    decreases e,
{
    "("@ + str_debug(e.0) + ", "@ + value_debug(e.1) + ")"@
}

/// The debug texts of map entries, separated by `, `.
pub open spec fn entries_debug(es: Seq<(Seq<char>, ValueView)>) -> Seq<char>
    decreases es,
{
    if es.len() == 0 {
        Seq::empty()
    } else if es.len() == 1 {
        entry_debug(es[0])
    } else {
        entries_debug(es.drop_last()) + ", "@ + entry_debug(es[es.len() - 1])
    }
}

/// The debug text of a key: `FieldList { fields: [..] }` with each field
/// as `Field { name: "name", value: value }`.
pub open spec fn key_debug(fs: Seq<(Seq<char>, ValueView)>) -> Seq<char> {
    "FieldList { fields: ["@ + key_fields_debug(fs) + "] }"@
}

/// The debug text of one field of a key.
pub open spec fn key_field_debug(f: (Seq<char>, ValueView)) -> Seq<char> {
    "Field { name: "@ + str_debug(f.0) + ", value: "@ + value_debug(f.1) + " }"@
}

/// The debug texts of the fields of a key, separated by `, `.
pub open spec fn key_fields_debug(fs: Seq<(Seq<char>, ValueView)>) -> Seq<char>
    decreases fs.len(),
{
    if fs.len() == 0 {
        Seq::empty()
    } else if fs.len() == 1 {
        key_field_debug(fs[0])
    } else {
        key_fields_debug(fs.drop_last()) + ", "@ + key_field_debug(fs[fs.len() - 1])
    }
}

/// The debug text of a list of names: `["a", "b"]`.
pub open spec fn names_debug(ns: Seq<Seq<char>>) -> Seq<char> {
    "["@ + names_join(ns) + "]"@
}

/// The debug texts of names, separated by `, `.
pub open spec fn names_join(ns: Seq<Seq<char>>) -> Seq<char>
    decreases ns.len(),
{
    if ns.len() == 0 {
        Seq::empty()
    } else if ns.len() == 1 {
        str_debug(ns[0])
    } else {
        names_join(ns.drop_last()) + ", "@ + str_debug(ns[ns.len() - 1])
    }
}

/// Appends the debug text of a value.
pub fn push_value_debug(out: &mut String, v: &Value)
    ensures
        final(out)@ == old(out)@ + value_debug(v@),
    decreases v@,
{
    proof {
        lemma_value_view_cases(*v);
    }
    let ghost vv = v@;
    match v {
        Value::Null => push_str(out, "Null"),
        Value::Bool(b) => {
            push_str(out, "Bool(");
            if *b {
                push_str(out, "true");
            } else {
                push_str(out, "false");
            }
            push_str(out, ")");
        },
        Value::Int(i) => {
            push_str(out, "Int(");
            push_decimal(out, *i);
            push_str(out, ")");
        },
        Value::Float(t) => {
            push_str(out, "Float(");
            push_str_debug(out, t.as_str());
            push_str(out, ")");
        },
        Value::String(t) => {
            push_str(out, "String(");
            push_str_debug(out, t.as_str());
            push_str(out, ")");
        },
        Value::List(xs) => {
            push_str(out, "List([");
            let ghost vs = values_view(xs@);
            let ghost mid = out@;
            proof {
                lemma_values_view(xs@);
                assert(vs.take(0) =~= Seq::<ValueView>::empty());
            }
            let mut i: usize = 0;
            while i < xs.len()
                invariant
                    i <= xs@.len(),
                    vv == v@,
                    vv == ValueView::List(vs),
                    vs == values_view(xs@),
                    vs.len() == xs@.len(),
                    forall|k: int| 0 <= k < xs@.len() ==> #[trigger] vs[k] == xs@[k]@,
                    out@ == mid + values_debug(vs.take(i as int)),
                decreases xs@.len() - i,
            {
                let ghost before = out@;
                if i > 0 {
                    push_str(out, ", ");
                }
                proof {
                    assert(xs@[i as int]@ == vs[i as int]);
                    assert(decreases_to!(vv => vv->List_0));
                    assert(decreases_to!(vv->List_0 => vv->List_0[i as int]));
                }
                push_value_debug(out, &xs[i]);
                proof {
                    let t = vs.take(i as int + 1);
                    assert(t.drop_last() =~= vs.take(i as int));
                    assert(t[t.len() - 1] == vs[i as int]);
                    if i == 0 {
                        assert(t[0] == vs[0]);
                    }
                    assert(out@ =~= mid + values_debug(t));
                }
                i = i + 1;
            }
            proof {
                assert(vs.take(xs@.len() as int) =~= vs);
            }
            push_str(out, "])");
        },
        Value::Object(m) => {
            push_str(out, "Object(ValueMap { entries: [");
            let ghost es = m@;
            let ghost mid = out@;
            proof {
                assert(es.take(0) =~= Seq::<(Seq<char>, ValueView)>::empty());
            }
            let n = m.len();
            let mut i: usize = 0;
            while i < n
                invariant
                    n == es.len(),
                    i <= n,
                    es == m@,
                    vv == v@,
                    vv == ValueView::Object(es),
                    out@ == mid + entries_debug(es.take(i as int)),
                decreases n - i,
            {
                if i > 0 {
                    push_str(out, ", ");
                }
                let (k, x) = m.entry_at(i);
                push_str(out, "(");
                push_str_debug(out, k.as_str());
                push_str(out, ", ");
                proof {
                    assert(decreases_to!(vv => vv->Object_0));
                    assert(decreases_to!(vv->Object_0 => vv->Object_0[i as int]));
                    assert(decreases_to!(vv->Object_0[i as int] => vv->Object_0[i as int].1));
                }
                push_value_debug(out, x);
                push_str(out, ")");
                proof {
                    let t = es.take(i as int + 1);
                    assert(t.drop_last() =~= es.take(i as int));
                    assert(t[t.len() - 1] == es[i as int]);
                    assert(es[i as int] == (k@, x@));
                    assert(entry_debug(es[i as int]) == "("@ + str_debug(k@) + ", "@ + value_debug(x@) + ")"@);
                    if i == 0 {
                        assert(t[0] == es[0]);
                    }
                    assert(out@ =~= mid + entries_debug(t));
                }
                i = i + 1;
            }
            proof {
                assert(es.take(n as int) =~= es);
            }
            push_str(out, "] })");
        },
    }
    proof {
        assert(out@ =~= old(out)@ + value_debug(vv));
    }
}

impl Value {
    /// The debug text of the value (see [`value_debug`]).
    pub fn debug_text(&self) -> (r: String)
        ensures
            r@ == value_debug(self@),
    {
        let mut out = String::new();
        push_value_debug(&mut out, self);
        proof {
            assert(out@ =~= value_debug(self@));
        }
        out
    }
}

impl FieldList {
    /// The debug text of the key (see [`key_debug`]).
    pub fn debug_text(&self) -> (r: String)
        ensures
            r@ == key_debug(self@),
    {
        let mut out = String::new();
        push_str(&mut out, "FieldList { fields: [");
        let ghost fs = self@;
        let ghost mid = out@;
        proof {
            assert(fs.take(0) =~= Seq::<(Seq<char>, ValueView)>::empty());
        }
        let mut i: usize = 0;
        while i < self.fields.len()
            invariant
                fs == self@,
                fs.len() == self.fields@.len(),
                i <= fs.len(),
                out@ == mid + key_fields_debug(fs.take(i as int)),
            decreases fs.len() - i,
        {
            if i > 0 {
                push_str(&mut out, ", ");
            }
            push_str(&mut out, "Field { name: ");
            push_str_debug(&mut out, self.fields[i].name.as_str());
            push_str(&mut out, ", value: ");
            push_value_debug(&mut out, &self.fields[i].value);
            push_str(&mut out, " }");
            proof {
                let t = fs.take(i as int + 1);
                assert(t.drop_last() =~= fs.take(i as int));
                assert(t[t.len() - 1] == (self.fields@[i as int].name@, self.fields@[i as int].value@));
                if i == 0 {
                    assert(t[0] == fs[0]);
                }
                assert(out@ =~= mid + key_fields_debug(t));
            }
            i = i + 1;
        }
        proof {
            assert(fs.take(fs.len() as int) =~= fs);
        }
        push_str(&mut out, "] }");
        proof {
            assert(out@ =~= key_debug(fs));
        }
        out
    }
}

/// Appends the debug text of a list of names (see [`names_debug`]).
pub fn push_names_debug(out: &mut String, names: &Vec<String>)
    ensures
        final(out)@ == old(out)@ + names_debug(names@.map_values(|n: String| n@)),
{
    let ghost ns = names@.map_values(|n: String| n@);
    push_str(out, "[");
    let ghost mid = out@;
    proof {
        assert(ns.take(0) =~= Seq::<Seq<char>>::empty());
    }
    let mut i: usize = 0;
    while i < names.len()
        invariant
            ns == names@.map_values(|n: String| n@),
            ns.len() == names@.len(),
            i <= ns.len(),
            out@ == mid + names_join(ns.take(i as int)),
        decreases ns.len() - i,
    {
        if i > 0 {
            push_str(out, ", ");
        }
        push_str_debug(out, names[i].as_str());
        proof {
            let t = ns.take(i as int + 1);
            assert(t.drop_last() =~= ns.take(i as int));
            assert(t[t.len() - 1] == names@[i as int]@);
            if i == 0 {
                assert(t[0] == ns[0]);
            }
            assert(out@ =~= mid + names_join(t));
        }
        i = i + 1;
    }
    proof {
        assert(ns.take(ns.len() as int) =~= ns);
    }
    push_str(out, "]");
    proof {
        assert(out@ =~= old(out)@ + names_debug(ns));
    }
}

/// `Some("text")` or `None`.
pub open spec fn opt_text_debug(o: Option<Seq<char>>) -> Seq<char> {
    match o {
        Some(t) => "Some("@ + str_debug(t) + ")"@,
        None => "None"@,
    }
}

/// The name of a scalar kind.
pub open spec fn scalar_name(k: Scalar) -> Seq<char> {
    match k {
        Scalar::Numeric => "Numeric"@,
        Scalar::String => "String"@,
        Scalar::Boolean => "Boolean"@,
        Scalar::Untyped => "Untyped"@,
    }
}

/// The name of an element relationship.
pub open spec fn relationship_name(e: ElementRelationship) -> Seq<char> {
    match e {
        ElementRelationship::Associative => "Associative"@,
        ElementRelationship::Atomic => "Atomic"@,
        ElementRelationship::Separable => "Separable"@,
    }
}

/// The debug text of a type reference: `TypeRef { named_type: ..,
/// inlined: .., element_relationship: .. }`, each part in the same form.
pub open spec fn type_ref_debug(t: TypeRefView) -> Seq<char>
    decreases t,
{
    "TypeRef { named_type: "@ + opt_text_debug(t.named_type) + ", inlined: "@ + atom_debug(*t.inlined)
        + ", element_relationship: "@ + match t.element_relationship {
        Some(e) => "Some("@ + relationship_name(e) + ")"@,
        None => "None"@,
    } + " }"@
}

/// The debug text of an atom: `Atom { scalar: .., list: .., map: .. }`.
pub open spec fn atom_debug(a: AtomView) -> Seq<char>
    decreases a,
{
    "Atom { scalar: "@ + opt_scalar_debug(a.scalar) + ", list: "@ + opt_list_debug(a.list) + ", map: "@
        + opt_map_debug(a.map) + " }"@
}

/// `Some(kind)` or `None`.
pub open spec fn opt_scalar_debug(o: Option<Scalar>) -> Seq<char> {
    match o {
        Some(k) => "Some("@ + scalar_name(k) + ")"@,
        None => "None"@,
    }
}

/// `Some(list type)` or `None`.
pub open spec fn opt_list_debug(o: Option<Box<ListView>>) -> Seq<char>
    decreases o,
{
    match o {
        Some(l) => "Some("@ + list_debug(*l) + ")"@,
        None => "None"@,
    }
}

/// `Some(map type)` or `None`.
pub open spec fn opt_map_debug(o: Option<Box<MapView>>) -> Seq<char>
    decreases o,
{
    match o {
        Some(m) => "Some("@ + map_debug(*m) + ")"@,
        None => "None"@,
    }
}

/// The debug text of a list type: `List { element_type: ..,
/// element_relationship: .., keys: [..] }`.
pub open spec fn list_debug(l: ListView) -> Seq<char>
    decreases l,
{
    "List { element_type: "@ + type_ref_debug(l.element_type) + ", element_relationship: "@ + relationship_name(
        l.element_relationship,
    ) + ", keys: "@ + names_debug(l.keys) + " }"@
}

/// The debug text of a map type: `Map { fields: [..], unions: [..],
/// element_type: .., element_relationship: .. }`.
pub open spec fn map_debug(m: MapView) -> Seq<char>
    decreases m,
{
    "Map { fields: ["@ + struct_fields_debug(m.fields) + "], unions: ["@ + unions_debug(m.unions) + "], element_type: "@
        + type_ref_debug(m.element_type) + ", element_relationship: "@ + relationship_name(m.element_relationship)
        + " }"@
}

/// The debug text of a field of a map type: `StructField { name: "name",
/// field_type: .., default: .. }`.
pub open spec fn struct_field_debug(f: StructFieldView) -> Seq<char>
    decreases f,
{
    "StructField { name: "@ + str_debug(f.name) + ", field_type: "@ + type_ref_debug(f.field_type) + ", default: "@
        + match f.default {
        Some(v) => "Some("@ + value_debug(v) + ")"@,
        None => "None"@,
    } + " }"@
}

/// The debug texts of the fields of a map type, separated by `, `.
pub open spec fn struct_fields_debug(fs: Seq<StructFieldView>) -> Seq<char>
    decreases fs,
{
    if fs.len() == 0 {
        Seq::empty()
    } else if fs.len() == 1 {
        struct_field_debug(fs[0])
    } else {
        struct_fields_debug(fs.drop_last()) + ", "@ + struct_field_debug(fs[fs.len() - 1])
    }
}

/// The debug text of a union: `Union { discriminator: ..,
/// deduce_invalid_discriminator: .., fields: [..] }`.
pub open spec fn union_debug(u: UnionView) -> Seq<char> {
    "Union { discriminator: "@ + opt_text_debug(u.discriminator) + ", deduce_invalid_discriminator: "@ + bool_text(
        u.deduce_invalid_discriminator,
    ) + ", fields: ["@ + union_fields_debug(u.fields) + "] }"@
}

/// The debug texts of unions, separated by `, `.
pub open spec fn unions_debug(us: Seq<UnionView>) -> Seq<char>
    decreases us.len(),
{
    if us.len() == 0 {
        Seq::empty()
    } else if us.len() == 1 {
        union_debug(us[0])
    } else {
        unions_debug(us.drop_last()) + ", "@ + union_debug(us[us.len() - 1])
    }
}

/// The debug text of a member of a union: `UnionField { field_name: "a",
/// discriminator_value: "b" }`.
pub open spec fn union_field_debug(f: UnionFieldView) -> Seq<char> {
    "UnionField { field_name: "@ + str_debug(f.field_name) + ", discriminator_value: "@ + str_debug(
        f.discriminator_value,
    ) + " }"@
}

/// The debug texts of the members of a union, separated by `, `.
pub open spec fn union_fields_debug(fs: Seq<UnionFieldView>) -> Seq<char>
    decreases fs.len(),
{
    if fs.len() == 0 {
        Seq::empty()
    } else if fs.len() == 1 {
        union_field_debug(fs[0])
    } else {
        union_fields_debug(fs.drop_last()) + ", "@ + union_field_debug(fs[fs.len() - 1])
    }
}

fn push_opt_text_debug(out: &mut String, o: &Option<String>)
    ensures
        final(out)@ == old(out)@ + opt_text_debug(opt_str_view(*o)),
{
    match o {
        Some(t) => {
            push_str(out, "Some(");
            push_str_debug(out, t.as_str());
            push_str(out, ")");
        },
        None => push_str(out, "None"),
    }
    proof {
        assert(out@ =~= old(out)@ + opt_text_debug(opt_str_view(*o)));
    }
}

fn push_relationship(out: &mut String, e: ElementRelationship)
    ensures
        final(out)@ == old(out)@ + relationship_name(e),
{
    match e {
        ElementRelationship::Associative => push_str(out, "Associative"),
        ElementRelationship::Atomic => push_str(out, "Atomic"),
        ElementRelationship::Separable => push_str(out, "Separable"),
    }
}

/// Appends the debug text of a type reference.
#[verifier::rlimit(80)]
pub fn push_type_ref_debug(out: &mut String, t: &TypeRef)
    ensures
        final(out)@ == old(out)@ + type_ref_debug(t@),
    decreases t@, 0int,
{
    proof {
        lemma_views(*t, arbitrary(), arbitrary(), arbitrary(), arbitrary());
    }
    let ghost tv = t@;
    push_str(out, "TypeRef { named_type: ");
    push_opt_text_debug(out, &t.named_type);
    push_str(out, ", inlined: ");
    proof {
        assert(decreases_to!(tv => tv.inlined));
    }
    push_atom_debug(out, &t.inlined);
    push_str(out, ", element_relationship: ");
    match t.element_relationship {
        Some(e) => {
            push_str(out, "Some(");
            push_relationship(out, e);
            push_str(out, ")");
        },
        None => push_str(out, "None"),
    }
    push_str(out, " }");
    proof {
        assert(out@ =~= old(out)@ + type_ref_debug(tv));
    }
}

/// Appends the debug text of an atom.
pub fn push_atom_debug(out: &mut String, a: &Atom)
    ensures
        final(out)@ == old(out)@ + atom_debug(a@),
    decreases a@, 2int,
{
    proof {
        lemma_views(arbitrary(), *a, arbitrary(), arbitrary(), arbitrary());
    }
    let ghost av = a@;
    push_str(out, "Atom { scalar: ");
    push_opt_scalar(out, a.scalar);
    push_str(out, ", list: ");
    push_atom_list(out, a);
    push_str(out, ", map: ");
    push_atom_map(out, a);
    push_str(out, " }");
    proof {
        assert(out@ =~= old(out)@ + atom_debug(av));
    }
}

fn push_opt_scalar(out: &mut String, o: Option<Scalar>)
    ensures
        final(out)@ == old(out)@ + opt_scalar_debug(o),
{
    match o {
        Some(k) => {
            push_str(out, "Some(");
            match k {
                Scalar::Numeric => push_str(out, "Numeric"),
                Scalar::String => push_str(out, "String"),
                Scalar::Boolean => push_str(out, "Boolean"),
                Scalar::Untyped => push_str(out, "Untyped"),
            }
            push_str(out, ")");
        },
        None => push_str(out, "None"),
    }
    proof {
        assert(out@ =~= old(out)@ + opt_scalar_debug(o));
    }
}

fn push_atom_list(out: &mut String, a: &Atom)
    ensures
        final(out)@ == old(out)@ + opt_list_debug(a@.list),
    decreases a@, 1int,
{
    proof {
        lemma_views(arbitrary(), *a, arbitrary(), arbitrary(), arbitrary());
    }
    let ghost av = a@;
    match &a.list {
        Some(l) => {
            push_str(out, "Some(");
            proof {
                assert(decreases_to!(av => av.list));
                assert(decreases_to!(av.list => av.list->Some_0));
            }
            push_list_debug(out, l);
            push_str(out, ")");
        },
        None => push_str(out, "None"),
    }
    proof {
        assert(out@ =~= old(out)@ + opt_list_debug(av.list));
    }
}

fn push_atom_map(out: &mut String, a: &Atom)
    ensures
        final(out)@ == old(out)@ + opt_map_debug(a@.map),
    decreases a@, 1int,
{
    proof {
        lemma_views(arbitrary(), *a, arbitrary(), arbitrary(), arbitrary());
    }
    let ghost av = a@;
    match &a.map {
        Some(m) => {
            push_str(out, "Some(");
            proof {
                assert(decreases_to!(av => av.map));
                assert(decreases_to!(av.map => av.map->Some_0));
            }
            push_map_debug(out, m);
            push_str(out, ")");
        },
        None => push_str(out, "None"),
    }
    proof {
        assert(out@ =~= old(out)@ + opt_map_debug(av.map));
    }
}

/// Appends the debug text of a list type.
pub fn push_list_debug(out: &mut String, l: &List)
    ensures
        final(out)@ == old(out)@ + list_debug(l@),
    decreases l@, 0int,
{
    proof {
        lemma_views(arbitrary(), arbitrary(), *l, arbitrary(), arbitrary());
    }
    let ghost lv = l@;
    push_str(out, "List { element_type: ");
    proof {
        assert(decreases_to!(lv => lv.element_type));
    }
    push_type_ref_debug(out, &l.element_type);
    push_str(out, ", element_relationship: ");
    push_relationship(out, l.element_relationship);
    push_str(out, ", keys: ");
    push_names_debug(out, &l.keys);
    push_str(out, " }");
    proof {
        assert(strings_view(l.keys@) == l.keys@.map_values(|n: String| n@));
        assert(out@ =~= old(out)@ + list_debug(lv));
    }
}

/// Appends the debug text of a map type.
#[verifier::rlimit(80)]
pub fn push_map_debug(out: &mut String, m: &SchemaMap)
    ensures
        final(out)@ == old(out)@ + map_debug(m@),
    decreases m@, 0int,
{
    proof {
        lemma_views(arbitrary(), arbitrary(), arbitrary(), *m, arbitrary());
    }
    let ghost mv = m@;
    let ghost fs = mv.fields;
    push_str(out, "Map { fields: [");
    let ghost mid = out@;
    proof {
        assert(fs.take(0) =~= Seq::<StructFieldView>::empty());
    }
    let mut i: usize = 0;
    while i < m.fields.len()
        invariant
            mv == m@,
            fs == mv.fields,
            fs.len() == m.fields@.len(),
            forall|k: int| 0 <= k < m.fields@.len() ==> #[trigger] fs[k] == m.fields@[k]@,
            i <= fs.len(),
            out@ == mid + struct_fields_debug(fs.take(i as int)),
        decreases fs.len() - i,
    {
        let f = &m.fields[i];
        proof {
            assert(fs[i as int] == f@);
        }
        if i > 0 {
            push_str(out, ", ");
        }
        proof {
            assert(decreases_to!(mv => mv.fields));
            assert(decreases_to!(mv.fields => mv.fields[i as int]));
        }
        push_struct_field_debug(out, f);
        proof {
            let t = fs.take(i as int + 1);
            assert(t.drop_last() =~= fs.take(i as int));
            assert(t[t.len() - 1] == f@);
            if i == 0 {
                assert(t[0] == fs[0]);
            }
            assert(out@ =~= mid + struct_fields_debug(t));
        }
        i = i + 1;
    }
    proof {
        assert(fs.take(fs.len() as int) =~= fs);
    }
    push_str(out, "], unions: [");
    let ghost us = mv.unions;
    let ghost mid2 = out@;
    proof {
        assert(us.take(0) =~= Seq::<UnionView>::empty());
    }
    let mut j: usize = 0;
    while j < m.unions.len()
        invariant
            mv == m@,
            us == mv.unions,
            us == m.unions@.map_values(|u: Union| u@),
            j <= us.len(),
            out@ == mid2 + unions_debug(us.take(j as int)),
        decreases us.len() - j,
    {
        if j > 0 {
            push_str(out, ", ");
        }
        push_union_debug(out, &m.unions[j]);
        proof {
            let t = us.take(j as int + 1);
            assert(t.drop_last() =~= us.take(j as int));
            assert(t[t.len() - 1] == m.unions@[j as int]@);
            if j == 0 {
                assert(t[0] == us[0]);
            }
            assert(out@ =~= mid2 + unions_debug(t));
        }
        j = j + 1;
    }
    proof {
        assert(us.take(us.len() as int) =~= us);
    }
    push_str(out, "], element_type: ");
    proof {
        assert(decreases_to!(mv => mv.element_type));
    }
    push_type_ref_debug(out, &m.element_type);
    push_str(out, ", element_relationship: ");
    push_relationship(out, m.element_relationship);
    push_str(out, " }");
    proof {
        assert(out@ =~= old(out)@ + map_debug(mv));
    }
}

/// Appends the debug text of a field of a map type.
fn push_struct_field_debug(out: &mut String, f: &crate::schema::elements::StructField)
    ensures
        final(out)@ == old(out)@ + struct_field_debug(f@),
    decreases f@, 0int,
{
    proof {
        lemma_views(arbitrary(), arbitrary(), arbitrary(), arbitrary(), *f);
    }
    let ghost fv = f@;
    push_str(out, "StructField { name: ");
    push_str_debug(out, f.name.as_str());
    push_str(out, ", field_type: ");
    proof {
        assert(decreases_to!(fv => fv.field_type));
    }
    push_type_ref_debug(out, &f.field_type);
    push_str(out, ", default: ");
    let ghost s1 = out@;
    match &f.default {
        Some(v) => {
            push_str(out, "Some(");
            push_value_debug(out, v);
            push_str(out, ")");
        },
        None => push_str(out, "None"),
    }
    proof {
        assert(out@ =~= s1 + match fv.default {
            Some(v) => "Some("@ + value_debug(v) + ")"@,
            None => "None"@,
        });
    }
    push_str(out, " }");
    proof {
        assert(out@ =~= old(out)@ + struct_field_debug(fv));
    }
}

fn push_union_debug(out: &mut String, u: &Union)
    ensures
        final(out)@ == old(out)@ + union_debug(u@),
{
    let ghost fs = u@.fields;
    push_str(out, "Union { discriminator: ");
    push_opt_text_debug(out, &u.discriminator);
    push_str(out, ", deduce_invalid_discriminator: ");
    if u.deduce_invalid_discriminator {
        push_str(out, "true");
    } else {
        push_str(out, "false");
    }
    push_str(out, ", fields: [");
    let ghost mid = out@;
    proof {
        assert(fs.take(0) =~= Seq::<UnionFieldView>::empty());
    }
    let mut i: usize = 0;
    while i < u.fields.len()
        invariant
            fs == u@.fields,
            fs == u.fields@.map_values(|f: crate::schema::elements::UnionField| f@),
            i <= fs.len(),
            out@ == mid + union_fields_debug(fs.take(i as int)),
        decreases fs.len() - i,
    {
        if i > 0 {
            push_str(out, ", ");
        }
        push_str(out, "UnionField { field_name: ");
        push_str_debug(out, u.fields[i].field_name.as_str());
        push_str(out, ", discriminator_value: ");
        push_str_debug(out, u.fields[i].discriminator_value.as_str());
        push_str(out, " }");
        proof {
            let t = fs.take(i as int + 1);
            assert(t.drop_last() =~= fs.take(i as int));
            assert(t[t.len() - 1] == u.fields@[i as int]@);
            if i == 0 {
                assert(t[0] == fs[0]);
            }
            assert(out@ =~= mid + union_fields_debug(t));
        }
        i = i + 1;
    }
    proof {
        assert(fs.take(fs.len() as int) =~= fs);
    }
    push_str(out, "] }");
    proof {
        assert(out@ =~= old(out)@ + union_debug(u@));
    }
}

impl TypeRef {
    /// The debug text of the type reference (see [`type_ref_debug`]).
    pub fn debug_text(&self) -> (r: String)
        ensures
            r@ == type_ref_debug(self@),
    {
        let mut out = String::new();
        push_type_ref_debug(&mut out, self);
        proof {
            assert(out@ =~= type_ref_debug(self@));
        }
        out
    }
}

} // verus!
