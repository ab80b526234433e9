//! Reconciling a field set with a schema whose types changed: where a map or
//! list type became atomic, the paths below it collapse into the path of the
//! container itself.

use crate::fieldpath::path::{Path, PathElement, PathElementView};
use crate::fieldpath::set::{child_of, contains_path, covers, paths_view, FieldPathSet, SetView};
use crate::schema::elements::{
    find_field_view, resolve_view, Atom, AtomView, ElementRelationship, MapView, Scalar, Schema, TypeDefView, TypeRef,
    TypeRefView,
};
use crate::debug_text::type_ref_debug;
use crate::text::push_str;
use crate::typed::typed_value::TypedValue;
use crate::value::str_equal;
use vstd::prelude::*;

verus! {

// ---------------------------------------------------------------------------
// What reconciliation finds.
// ---------------------------------------------------------------------------

/// A reference to the type of deduced (untyped) values: by name, or an
/// inlined untyped scalar.
pub open spec fn untyped_deduced_ref(t: TypeRefView) -> bool {
    if t.named_type is Some {
        t.named_type->0 == "__untyped_deduced_"@
    } else if t.inlined.scalar is Some {
        t.inlined.scalar == Some(Scalar::Untyped)
    } else {
        false
    }
}

/// A map with no fields whose items are deduced.
pub open spec fn untyped_deduced_map(m: MapView) -> bool {
    untyped_deduced_ref(m.element_type) && m.fields.len() == 0
}

/// A reference that names no type and inlines nothing.
pub open spec fn empty_ref(t: TypeRefView) -> bool {
    t.named_type is None && t.inlined.scalar is None && t.inlined.list is None && t.inlined.map is None
}

/// The type of the item `pe` of a map or list type, if it has one: for a
/// map, the field of that name or else the type of the other fields (none
/// when that reference is empty); for a list, its items' type.
pub open spec fn item_type(a: AtomView, pe: PathElementView) -> Option<TypeRefView> {
    if a.map is Some {
        let m = *a.map->0;
        let tr = match pe {
            PathElementView::FieldName(n) => match find_field_view(m.fields, n) {
                Some(f) => f.field_type,
                None => m.element_type,
            },
            _ => m.element_type,
        };
        if empty_ref(tr) {
            None
        } else {
            Some(tr)
        }
    } else {
        Some(a.list->0.element_type)
    }
}

/// Two steps of a walk, in order: the first error, or both lists of
/// collapse points.
pub open spec fn then(
    a: Result<Seq<Seq<PathElementView>>, TypeRefView>,
    b: Result<Seq<Seq<PathElementView>>, TypeRefView>,
) -> Result<Seq<Seq<PathElementView>>, TypeRefView> {
    match a {
        Err(e) => Err(e),
        Ok(ps) => match b {
            Err(e) => Err(e),
            Ok(qs) => Ok(ps + qs),
        },
    }
}

/// Walks the node `cur` of a field set, at path `p`, of type `t`: the paths
/// whose map or list type is atomic while the node is not (collapse
/// points), or the first type that does not resolve. A map type collapses
/// only when the whole field set (`nonempty`) holds some member or child.
/// Deduced maps are left alone.
pub open spec fn walk(
    types: Seq<TypeDefView>,
    t: TypeRefView,
    nonempty: bool,
    cur: SetView,
    p: Seq<PathElementView>,
    is_atomic: bool,
) -> Result<Seq<Seq<PathElementView>>, TypeRefView>
    decreases cur, 3int, 0int,
{
    match resolve_view(types, t) {
        None => Err(t),
        Some(a) => if a.map is Some {
            let m = *a.map->0;
            if untyped_deduced_map(m) {
                Ok(Seq::empty())
            } else if !is_atomic && m.element_relationship == ElementRelationship::Atomic {
                if nonempty {
                    Ok(seq![p])
                } else {
                    Ok(Seq::empty())
                }
            } else {
                walk_children(types, a, nonempty, cur, p, 0)
            }
        } else if a.list is Some {
            if !is_atomic && a.list->0.element_relationship == ElementRelationship::Atomic {
                Ok(seq![p])
            } else {
                walk_children(types, a, nonempty, cur, p, 0)
            }
        } else {
            Ok(Seq::empty())
        },
    }
}

/// Walks the children of `cur` from the `i`-th on that are not also
/// members, then the members.
pub open spec fn walk_children(
    types: Seq<TypeDefView>,
    a: AtomView,
    nonempty: bool,
    cur: SetView,
    p: Seq<PathElementView>,
    i: int,
) -> Result<Seq<Seq<PathElementView>>, TypeRefView>
    decreases cur, 2int, cur.children.len() - i,
{
    if i < 0 || i >= cur.children.len() {
        walk_members(types, a, nonempty, cur, p, 0)
    } else {
        let pe = cur.children[i].0;
        let rest = walk_children(types, a, nonempty, cur, p, i + 1);
        if cur.members.contains(pe) {
            rest
        } else {
            match item_type(a, pe) {
                None => rest,
                Some(tr) => {
                    proof {
                        assert(decreases_to!(cur => cur.children));
                        assert(decreases_to!(cur.children => cur.children[i]));
                        assert(decreases_to!(cur.children[i] => cur.children[i].1));
                    }
                    then(walk(types, tr, nonempty, cur.children[i].1, p.push(pe), false), rest)
                },
            }
        }
    }
}

/// Walks the members of `cur` from the `j`-th on: a member with a child is
/// walked as a granular node; a member without one is only checked to have
/// a type that resolves.
pub open spec fn walk_members(
    types: Seq<TypeDefView>,
    a: AtomView,
    nonempty: bool,
    cur: SetView,
    p: Seq<PathElementView>,
    j: int,
) -> Result<Seq<Seq<PathElementView>>, TypeRefView>
    decreases cur, 1int, cur.members.len() - j,
{
    if j < 0 || j >= cur.members.len() {
        Ok(Seq::empty())
    } else {
        let pe = cur.members[j];
        let rest = walk_members(types, a, nonempty, cur, p, j + 1);
        match item_type(a, pe) {
            None => rest,
            Some(tr) => {
                let step = match child_of(cur.children, pe) {
                    Some(c) => {
                        proof {
                            assert forall|i: int| 0 <= i < cur.children.len() implies decreases_to!(cur => (#[trigger] cur.children[i]).1) by {
                                assert(decreases_to!(cur => cur.children));
                                assert(decreases_to!(cur.children => cur.children[i]));
                                assert(decreases_to!(cur.children[i] => cur.children[i].1));
                            }
                        }
                        walk(types, tr, nonempty, c, p.push(pe), false)
                    },
                    None => if resolve_view(types, tr) is None {
                        Err(tr)
                    } else {
                        Ok(Seq::empty())
                    },
                };
                then(step, rest)
            },
        }
    }
}

/// The collapse points of a field set of type `t`, or the first type that
/// does not resolve.
pub open spec fn reconcile_points(types: Seq<TypeDefView>, t: TypeRefView, fs: SetView) -> Result<
    Seq<Seq<PathElementView>>,
    TypeRefView,
> {
    walk(types, t, fs.members.len() + fs.children.len() > 0, fs, Seq::empty(), false)
}

/// Some collapse point is a prefix of `q` (or `q` itself).
pub open spec fn under_point(ps: Seq<Seq<PathElementView>>, q: Seq<PathElementView>) -> bool {
    exists|i: int, k: int| #![trigger ps[i], q.take(k)] 0 <= i < ps.len() && 0 <= k <= q.len() && ps[i] == q.take(k)
}

/// The path `q` is in the field set `fs` once reconciled with type `t`:
/// with collapse points, the paths at or below them are replaced by the
/// points themselves; otherwise (or on an error) the set is unchanged.
pub open spec fn reconciled_has(types: Seq<TypeDefView>, t: TypeRefView, fs: SetView, q: Seq<PathElementView>) -> bool {
    match reconcile_points(types, t, fs) {
        Ok(ps) => if ps.len() > 0 {
            (contains_path(fs, q) && !under_point(ps, q)) || ps.contains(q)
        } else {
            contains_path(fs, q)
        },
        Err(_) => contains_path(fs, q),
    }
}

// ---------------------------------------------------------------------------
// The walk.
// ---------------------------------------------------------------------------

proof fn lemma_then_ok(g: Seq<Seq<PathElementView>>, ps: Seq<Seq<PathElementView>>, rest: Result<Seq<Seq<PathElementView>>, TypeRefView>)
    ensures
        then(Ok(g), then(Ok(ps), rest)) == then(Ok(g + ps), rest),
{
    match rest {
        Ok(qs) => {
            assert(g + (ps + qs) =~= (g + ps) + qs);
        },
        Err(_) => {},
    }
}

proof fn lemma_then_empty(rest: Result<Seq<Seq<PathElementView>>, TypeRefView>)
    ensures
        then(Ok(Seq::empty()), rest) == rest,
{
    match rest {
        Ok(qs) => {
            assert(Seq::<Seq<PathElementView>>::empty() + qs =~= qs);
        },
        Err(_) => {},
    }
}

/// Whether the reference names no type and inlines nothing.
fn is_empty_ref(t: &TypeRef) -> (r: bool)
    ensures
        r == empty_ref(t@),
{
    proof {
        crate::schema::elements::lemma_views(*t, *t.inlined, arbitrary(), arbitrary(), arbitrary());
    }
    t.named_type.is_none() && t.inlined.scalar.is_none() && t.inlined.list.is_none() && t.inlined.map.is_none()
}

/// Whether the reference is to deduced values.
fn is_untyped_deduced_ref(t: &TypeRef) -> (r: bool)
    ensures
        r == untyped_deduced_ref(t@),
{
    proof {
        crate::schema::elements::lemma_views(*t, *t.inlined, arbitrary(), arbitrary(), arbitrary());
    }
    match &t.named_type {
        Some(name) => str_equal(name.as_str(), "__untyped_deduced_"),
        None => match t.inlined.scalar {
            Some(s) => s == Scalar::Untyped,
            None => false,
        },
    }
}

/// The type of the item `pe` of a map or list type.
fn item_type_of(a: &Atom, pe: &PathElement) -> (r: Option<TypeRef>)
    requires
        a@.map is Some || a@.list is Some,
    ensures
        r is Some == item_type(a@, pe@) is Some,
        r matches Some(t) ==> item_type(a@, pe@) == Some(t@),
{
    proof {
        crate::schema::elements::lemma_views(arbitrary(), *a, arbitrary(), arbitrary(), arbitrary());
    }
    match &a.map {
        Some(m) => {
            proof {
                crate::schema::elements::lemma_views(arbitrary(), arbitrary(), arbitrary(), *m, arbitrary());
            }
            let tr = match pe {
                PathElement::FieldName(n) => match m.find_field(n.as_str()) {
                    Some(f) => {
                        proof {
                            crate::schema::elements::lemma_views(arbitrary(), arbitrary(), arbitrary(), arbitrary(), *f);
                        }
                        f.field_type.clone()
                    },
                    None => m.element_type.clone(),
                },
                _ => m.element_type.clone(),
            };
            if is_empty_ref(&tr) {
                None
            } else {
                Some(tr)
            }
        },
        None => match &a.list {
            Some(l) => {
                proof {
                    crate::schema::elements::lemma_views(arbitrary(), arbitrary(), *l, arbitrary(), arbitrary());
                }
                Some(l.element_type.clone())
            },
            None => None,
        },
    }
}

/// Walks the node `cur` at `path` (see [`walk`]), adding the collapse
/// points to `out`; returns the first type that does not resolve.
fn walk_node(
    schema: &Schema,
    t: &TypeRef,
    nonempty: bool,
    cur: &FieldPathSet,
    path: &Path,
    is_atomic: bool,
    out: &mut Vec<Path>,
) -> (r: Result<(), TypeRef>)
    ensures
        match walk(schema@, t@, nonempty, cur@, path@, is_atomic) {
            Err(e) => r matches Err(x) && x@ == e,
            Ok(ps) => r is Ok && paths_view(final(out)@) == paths_view(old(out)@) + ps,
        },
    decreases cur@, 3int, 0int,
{
    let atom = match schema.resolve(t) {
        Some(a) => a,
        None => {
            return Err(t.clone());
        },
    };
    proof {
        crate::schema::elements::lemma_views(arbitrary(), atom, arbitrary(), arbitrary(), arbitrary());
        assert(paths_view(old(out)@) + Seq::<Seq<PathElementView>>::empty() =~= paths_view(old(out)@));
    }
    match &atom.map {
        Some(m) => {
            proof {
                crate::schema::elements::lemma_views(arbitrary(), arbitrary(), arbitrary(), *m, arbitrary());
            }
            if is_untyped_deduced_ref(&m.element_type) && m.fields.len() == 0 {
                return Ok(());
            }
            if !is_atomic && m.element_relationship == ElementRelationship::Atomic {
                if nonempty {
                    let ghost before = out@;
                    out.push(path.clone());
                    proof {
                        assert(paths_view(out@) =~= paths_view(before) + seq![path@]);
                    }
                }
                return Ok(());
            }
            return walk_items(schema, &atom, nonempty, cur, path, out);
        },
        None => {},
    }
    match &atom.list {
        Some(l) => {
            proof {
                crate::schema::elements::lemma_views(arbitrary(), arbitrary(), *l, arbitrary(), arbitrary());
            }
            if !is_atomic && l.element_relationship == ElementRelationship::Atomic {
                let ghost before = out@;
                out.push(path.clone());
                proof {
                    assert(paths_view(out@) =~= paths_view(before) + seq![path@]);
                }
                return Ok(());
            }
            walk_items(schema, &atom, nonempty, cur, path, out)
        },
        None => Ok(()),
    }
}

/// Walks the children of `cur` that are not members, then its members.
fn walk_items(
    schema: &Schema,
    a: &Atom,
    nonempty: bool,
    cur: &FieldPathSet,
    path: &Path,
    out: &mut Vec<Path>,
) -> (r: Result<(), TypeRef>)
    requires
        a@.map is Some || a@.list is Some,
    ensures
        match walk_children(schema@, a@, nonempty, cur@, path@, 0) {
            Err(e) => r matches Err(x) && x@ == e,
            Ok(ps) => r is Ok && paths_view(final(out)@) == paths_view(old(out)@) + ps,
        },
    decreases cur@, 2int, cur@.children.len() + 1,
{
    let ghost whole = walk_children(schema@, a@, nonempty, cur@, path@, 0);
    let ghost o0 = paths_view(out@);
    let n = cur.child_count();
    let mut i: usize = 0;
    proof {
        lemma_then_empty(whole);
        assert(o0 + Seq::<Seq<PathElementView>>::empty() =~= o0);
    }
    while i < n
        invariant
            i <= n,
            n == cur@.children.len(),
            a@.map is Some || a@.list is Some,
            whole == walk_children(schema@, a@, nonempty, cur@, path@, 0),
            paths_view(out@).len() >= o0.len(),
            paths_view(out@) == o0 + paths_view(out@).skip(o0.len() as int),
            whole == then(Ok(paths_view(out@).skip(o0.len() as int)), walk_children(schema@, a@, nonempty, cur@, path@, i as int)),
        decreases n - i,
    {
        let (pe, child) = cur.child_at(i);
        let ghost g = paths_view(out@).skip(o0.len() as int);
        if !cur.members().contains(pe) {
            match item_type_of(a, pe) {
                None => {},
                Some(tr) => {
                    let p = path.with(pe.clone());
                    let ghost before = paths_view(out@);
                    proof {
                        assert(decreases_to!(cur@ => cur@.children));
                        assert(decreases_to!(cur@.children => cur@.children[i as int]));
                        assert(decreases_to!(cur@.children[i as int] => cur@.children[i as int].1));
                    }
                    let res = walk_node(schema, &tr, nonempty, child, &p, false, out);
                    match res {
                        Err(e) => {
                            proof {
                                let w = walk(schema@, tr@, nonempty, child@, p@, false);
                                assert(w is Err);
                                assert(walk_children(schema@, a@, nonempty, cur@, path@, i as int) == then(
                                    w,
                                    walk_children(schema@, a@, nonempty, cur@, path@, i + 1),
                                ));
                                assert(whole == w);
                                assert(e@ == w->Err_0);
                                assert(whole->Err_0 == e@);
                            }
                            return Err(e);
                        },
                        Ok(()) => {
                            proof {
                                let ps = walk(schema@, tr@, nonempty, child@, p@, false)->Ok_0;
                                lemma_then_ok(g, ps, walk_children(schema@, a@, nonempty, cur@, path@, i + 1));
                                assert(paths_view(out@).skip(o0.len() as int) =~= g + ps);
                                assert(paths_view(out@) =~= o0 + (g + ps));
                            }
                        },
                    }
                },
            }
        }
        i = i + 1;
    }
    let ghost g = paths_view(out@).skip(o0.len() as int);
    let res = walk_member_items(schema, a, nonempty, cur, path, out);
    proof {
        assert(walk_children(schema@, a@, nonempty, cur@, path@, n as int) == walk_members(schema@, a@, nonempty, cur@, path@, 0));
        match walk_members(schema@, a@, nonempty, cur@, path@, 0) {
            Ok(ps) => {
                assert(paths_view(out@) =~= o0 + (g + ps));
            },
            Err(_) => {},
        }
    }
    res
}

/// Walks the members of `cur`.
fn walk_member_items(
    schema: &Schema,
    a: &Atom,
    nonempty: bool,
    cur: &FieldPathSet,
    path: &Path,
    out: &mut Vec<Path>,
) -> (r: Result<(), TypeRef>)
    requires
        a@.map is Some || a@.list is Some,
    ensures
        match walk_members(schema@, a@, nonempty, cur@, path@, 0) {
            Err(e) => r matches Err(x) && x@ == e,
            Ok(ps) => r is Ok && paths_view(final(out)@) == paths_view(old(out)@) + ps,
        },
    decreases cur@, 1int, cur@.members.len() + 1,
{
    let ghost whole = walk_members(schema@, a@, nonempty, cur@, path@, 0);
    let ghost o0 = paths_view(out@);
    let members = cur.members();
    let n = members.len();
    let mut j: usize = 0;
    proof {
        lemma_then_empty(whole);
        assert(o0 + Seq::<Seq<PathElementView>>::empty() =~= o0);
    }
    while j < n
        invariant
            j <= n,
            n == cur@.members.len(),
            members@ == cur@.members,
            a@.map is Some || a@.list is Some,
            whole == walk_members(schema@, a@, nonempty, cur@, path@, 0),
            paths_view(out@).len() >= o0.len(),
            paths_view(out@) == o0 + paths_view(out@).skip(o0.len() as int),
            whole == then(Ok(paths_view(out@).skip(o0.len() as int)), walk_members(schema@, a@, nonempty, cur@, path@, j as int)),
        decreases n - j,
    {
        let pe = members.element_at(j);
        let ghost g = paths_view(out@).skip(o0.len() as int);
        match item_type_of(a, pe) {
            None => {},
            Some(tr) => {
                let ghost rest = walk_members(schema@, a@, nonempty, cur@, path@, j + 1);
                match cur.child(pe) {
                    Some(child) => {
                        let p = path.with(pe.clone());
                        proof {
                            assert forall|k: int| 0 <= k < cur@.children.len() implies decreases_to!(cur@ => (#[trigger] cur@.children[k]).1) by {
                                assert(decreases_to!(cur@ => cur@.children));
                                assert(decreases_to!(cur@.children => cur@.children[k]));
                                assert(decreases_to!(cur@.children[k] => cur@.children[k].1));
                            }
                        }
                        proof {
                            assert(walk_members(schema@, a@, nonempty, cur@, path@, j as int) == then(
                                walk(schema@, tr@, nonempty, child@, p@, false),
                                rest,
                            ));
                        }
                        let res = walk_node(schema, &tr, nonempty, child, &p, false, out);
                        match res {
                            Err(e) => {
                                proof {
                                    let w = walk(schema@, tr@, nonempty, child@, p@, false);
                                    assert(w is Err);
                                    assert(walk_members(schema@, a@, nonempty, cur@, path@, j as int) == w);
                                    assert(whole == w);
                                    assert(e@ == w->Err_0);
                                    assert(whole->Err_0 == e@);
                                }
                                return Err(e);
                            },
                            Ok(()) => {
                                proof {
                                    let ps = walk(schema@, tr@, nonempty, child@, p@, false)->Ok_0;
                                    lemma_then_ok(g, ps, rest);
                                    assert(paths_view(out@).skip(o0.len() as int) =~= g + ps);
                                    assert(paths_view(out@) =~= o0 + (g + ps));
                                }
                            },
                        }
                    },
                    None => {
                        if schema.resolve(&tr).is_none() {
                            proof {
                                assert(walk_members(schema@, a@, nonempty, cur@, path@, j as int) == then(
                                    Err(tr@),
                                    rest,
                                ));
                                assert(whole == Result::<Seq<Seq<PathElementView>>, TypeRefView>::Err(tr@));
                            }
                            return Err(tr);
                        }
                        proof {
                            lemma_then_empty(rest);
                        }
                    },
                }
            },
        }
        j = j + 1;
    }
    proof {
        let g = paths_view(out@).skip(o0.len() as int);
        assert(walk_members(schema@, a@, nonempty, cur@, path@, n as int) == Result::<Seq<Seq<PathElementView>>, TypeRefView>::Ok(Seq::<Seq<PathElementView>>::empty()));
        assert(g + Seq::<Seq<PathElementView>>::empty() =~= g);
    }
    Ok(())
}

// ---------------------------------------------------------------------------
// Reconciling.
// ---------------------------------------------------------------------------

/// Reconciles a field set with the schema of `tv` (see [`walk`]): where a
/// map or list type became atomic, the paths at or below it are replaced by
/// its own path. Returns `None` when nothing changes, and an error naming
/// the first type that does not resolve.
pub fn reconcile_field_set_with_schema(fieldset: &FieldPathSet, tv: &TypedValue) -> (r: Result<Option<FieldPathSet>, String>)
    ensures
        match reconcile_points(tv@.schema, tv@.type_ref, fieldset@) {
            Err(t) => r matches Err(m) && m@ == "could not resolve "@ + type_ref_debug(t),
            Ok(ps) => if ps.len() == 0 {
                r matches Ok(None)
            } else {
                r matches Ok(Some(s)) && forall|q: Seq<PathElementView>| #[trigger] contains_path(s@, q)
                    == reconciled_has(tv@.schema, tv@.type_ref, fieldset@, q)
            },
        },
{
    let nonempty = fieldset.members().len() > 0 || fieldset.child_count() > 0;
    let mut points: Vec<Path> = Vec::new();
    let path = Path::new();
    proof {
        assert(paths_view(points@) =~= Seq::<Seq<PathElementView>>::empty());
        assert(path@ =~= Seq::<PathElementView>::empty());
    }
    match walk_node(tv.schema(), tv.type_ref(), nonempty, fieldset, &path, false, &mut points) {
        Err(t) => {
            let mut m = String::from_str("could not resolve ");
            let d = t.debug_text();
            push_str(&mut m, d.as_str());
            Err(m)
        },
        Ok(()) => {
            let ghost ps = paths_view(points@);
            proof {
                assert(Seq::<Seq<PathElementView>>::empty() + ps =~= ps);
            }
            if points.len() == 0 {
                return Ok(None);
            }
            let mut marks = FieldPathSet::new();
            let mut i: usize = 0;
            while i < points.len()
                invariant
                    i <= points@.len(),
                    ps == paths_view(points@),
                    forall|q: Seq<PathElementView>| #[trigger] contains_path(marks@, q) == exists|k: int|
                        0 <= k < i && #[trigger] ps[k] == q,
                decreases points@.len() - i,
            {
                marks.insert(&points[i]);
                proof {
                    assert forall|q: Seq<PathElementView>| #[trigger] contains_path(marks@, q) == exists|k: int|
                        0 <= k < i + 1 && #[trigger] ps[k] == q by {
                        if q == ps[i as int] {
                            assert(ps[i as int] == q);
                        }
                    }
                }
                i = i + 1;
            }
            let out = fieldset.recursive_difference(&marks).union(&marks);
            proof {
                assert forall|q: Seq<PathElementView>| #[trigger] contains_path(out@, q) == reconciled_has(
                    tv@.schema,
                    tv@.type_ref,
                    fieldset@,
                    q,
                ) by {
                    assert(contains_path(marks@, q) == ps.contains(q));
                    if covers(marks@, q) {
                        let k = choose|k: int| 0 <= k <= q.len() && #[trigger] contains_path(marks@, q.take(k));
                        let j = choose|j: int| 0 <= j < ps.len() && #[trigger] ps[j] == q.take(k);
                        assert(under_point(ps, q));
                    }
                    if under_point(ps, q) {
                        let (j, k) = choose|j: int, k: int| #![trigger ps[j], q.take(k)] 0 <= j < ps.len() && 0 <= k <= q.len() && ps[j] == q.take(k);
                        assert(contains_path(marks@, q.take(k)));
                        assert(covers(marks@, q));
                    }
                }
            }
            Ok(Some(out))
        },
    }
}

} // verus!
