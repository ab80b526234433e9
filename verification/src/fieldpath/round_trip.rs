//! Reading back the JSON form of a set of field paths.

use super::path::{element_order, lemma_element_order_eq, lemma_element_order_trans, PathElementView};
use super::serialize::{
    doc_has, doc_nonempty, doc_reads, element_key, element_text, empty_object, json_element_name,
    lemma_element_text_round_trip, plain_doc, name_element, set_json, set_json_fold, skipped_name,
};
use super::set::{bare, child_of, child_ok, contains_path, lemma_bare, lemma_wf_children, sorted, wf_view, SetView};
use crate::value::{entries_map, has_key, keys_sorted, lemma_insert_sorted, sorted_entries, ValueView};
use vstd::prelude::*;

verus! {

/// A path element that the JSON form writes without JSON: a field name, or
/// an index that fits in 32 bits.
pub open spec fn plain_element_view(pe: PathElementView) -> bool {
    pe is FieldName || (pe is Index && i32::MIN <= pe->Index_0 <= i32::MAX)
}

/// Every element of the set, at any depth, is a field name or an index.
pub open spec fn plain_set(v: SetView) -> bool
    decreases v,
{
    &&& forall|i: int| 0 <= i < v.members.len() ==> plain_element_view(#[trigger] v.members[i])
    &&& forall|j: int|
        0 <= j < v.children.len() ==> plain_element_view(#[trigger] v.children[j].0) && plain_set(v.children[j].1)
}

/// The text of a field name or an index reads back as the element, and is
/// neither passed over nor read as JSON.
proof fn lemma_plain_key(pe: PathElementView)
    requires
        plain_element_view(pe),
    ensures
        name_element(element_key(pe)) == Some(pe),
        !skipped_name(element_key(pe)),
        !json_element_name(element_key(pe)),
        element_key(pe) != seq!['.'],
{
    lemma_element_text_round_trip(pe);
    let t = element_text(pe);
    assert(element_key(pe) == t);
    assert(seq!['f', ':'][0] != seq!['v', ':'][0] && seq!['f', ':'][0] != seq!['k', ':'][0] && seq!['f', ':'][0]
        != seq!['i', ':'][0]);
    assert(seq!['i', ':'][0] != seq!['v', ':'][0] && seq!['i', ':'][0] != seq!['k', ':'][0]);
    assert(t.len() != seq!['.'].len());
}

/// With sorted keys, the child keyed by the `b`-th key is the `b`-th child.
proof fn lemma_child_of_at(cs: Seq<(PathElementView, SetView)>, b: int)
    requires
        super::set::keys_sorted(cs),
        0 <= b < cs.len(),
    ensures
        child_of(cs, cs[b].0) == Some(cs[b].1),
{
    let pe = cs[b].0;
    assert(exists|i: int| 0 <= i < cs.len() && #[trigger] cs[i].0 == pe);
    let i = choose|i: int| 0 <= i < cs.len() && #[trigger] cs[i].0 == pe;
    lemma_element_order_eq(pe, pe);
    if i < b {
        assert(element_order(cs[i].0, cs[b].0) < 0);
    } else if b < i {
        assert(element_order(cs[b].0, cs[i].0) < 0);
    }
    assert(i == b);
}

/// The value that the JSON form of `v` maps the text of `pe` to: the JSON
/// form of its child (marked when `pe` is a member too), or `{}`.
pub open spec fn elem_entry(v: SetView, pe: PathElementView) -> ValueView {
    match child_of(v.children, pe) {
        Some(c) => set_json(c, v.members.contains(pe)),
        None => empty_object(),
    }
}

/// `pe` is a member from the `i`-th on, or a child key from the `j`-th on.
pub open spec fn rest_has(v: SetView, i: int, j: int, pe: PathElementView) -> bool {
    (exists|a: int| i <= a < v.members.len() && #[trigger] v.members[a] == pe) || (exists|b: int|
        j <= b < v.children.len() && #[trigger] v.children[b].0 == pe)
}

/// The members before the `i`-th and the child keys before the `j`-th come
/// before the others, in the element order.
pub open spec fn synced(v: SetView, i: int, j: int) -> bool {
    &&& forall|a: int, b: int|
        0 <= a < i && j <= b < v.children.len() ==> element_order(#[trigger] v.members[a], #[trigger] v.children[b].0) < 0
    &&& forall|a: int, b: int|
        i <= a < v.members.len() && 0 <= b < j ==> element_order(#[trigger] v.children[b].0, #[trigger] v.members[a]) < 0
}

/// The members from the `i`-th on and the children from the `j`-th on put
/// into `acc` the texts of their elements, each mapped to its
/// [`elem_entry`]; the other names of `acc` stay as they were.
proof fn lemma_fold(v: SetView, i: int, j: int, acc: Map<Seq<char>, ValueView>)
    requires
        wf_view(v),
        plain_set(v),
        0 <= i <= v.members.len(),
        0 <= j <= v.children.len(),
        synced(v, i, j),
    ensures
        forall|t: Seq<char>|
            #[trigger] set_json_fold(v, i, j, acc).contains_key(t) == (acc.contains_key(t) || exists|pe: PathElementView|
                rest_has(v, i, j, pe) && element_key(pe) == t),
        forall|pe: PathElementView|
            rest_has(v, i, j, pe) ==> set_json_fold(v, i, j, acc)[#[trigger] element_key(pe)] == elem_entry(v, pe),
        forall|t: Seq<char>|
            acc.contains_key(t) && !(exists|pe: PathElementView| rest_has(v, i, j, pe) && element_key(pe) == t) ==> #[trigger] set_json_fold(
                v,
                i,
                j,
                acc,
            )[t] == acc[t],
    decreases v.members.len() + v.children.len() - i - j,
{
    let nm = v.members.len() as int;
    let nc = v.children.len() as int;
    let ms = v.members;
    let cs = v.children;
    if i == nm && j == nc {
        return;
    }
    let ghost x: PathElementView;
    let ghost i2: int;
    let ghost j2: int;
    let ghost w: ValueView;
    if i == nm || (j < nc && element_order(cs[j].0, ms[i]) < 0) {
        x = cs[j].0;
        i2 = i;
        j2 = j + 1;
        w = set_json(cs[j].1, false);
        lemma_child_of_at(cs, j);
        assert forall|a: int| 0 <= a < nm implies #[trigger] ms[a] != x by {
            lemma_element_order_eq(ms[a], x);
            if a >= i {
                if a > i {
                    lemma_element_order_trans(x, ms[i], ms[a]);
                }
                lemma_element_order_eq(x, ms[a]);
            }
        }
        assert(!ms.contains(x));
        assert(elem_entry(v, x) == w);
    } else if j < nc && cs[j].0 == ms[i] {
        x = ms[i];
        i2 = i + 1;
        j2 = j + 1;
        w = set_json(cs[j].1, true);
        lemma_child_of_at(cs, j);
        assert(ms.contains(x));
        assert(elem_entry(v, x) == w);
    } else {
        x = ms[i];
        i2 = i + 1;
        j2 = j;
        w = empty_object();
        if j < nc {
            lemma_element_order_eq(cs[j].0, ms[i]);
        }
        assert forall|b: int| 0 <= b < nc implies #[trigger] cs[b].0 != x by {
            lemma_element_order_eq(cs[b].0, x);
            if b >= j {
                if b > j {
                    lemma_element_order_trans(x, cs[j].0, cs[b].0);
                }
                lemma_element_order_eq(x, cs[b].0);
            }
        }
        assert(child_of(cs, x) is None);
        assert(elem_entry(v, x) == w);
    }
    assert(set_json_fold(v, i, j, acc) == set_json_fold(v, i2, j2, acc.insert(element_key(x), w)));
    // The element just taken is not among the ones left.
    assert forall|a: int| i2 <= a < nm implies #[trigger] ms[a] != x && element_order(x, ms[a]) < 0 by {
        if j2 > j {
            lemma_element_order_eq(cs[j].0, ms[i]);
        }
        if i2 > i {
            assert(element_order(ms[i], ms[a]) < 0);
        } else {
            assert(element_order(cs[j].0, ms[i]) < 0);
            if a > i {
                lemma_element_order_trans(cs[j].0, ms[i], ms[a]);
            }
        }
        lemma_element_order_eq(x, ms[a]);
    }
    assert forall|b: int| j2 <= b < nc implies #[trigger] cs[b].0 != x && element_order(x, cs[b].0) < 0 by {
        if j2 > j {
            assert(element_order(cs[j].0, cs[b].0) < 0);
        } else {
            lemma_element_order_eq(cs[j].0, ms[i]);
            if b > j {
                lemma_element_order_trans(ms[i], cs[j].0, cs[b].0);
            }
        }
        lemma_element_order_eq(x, cs[b].0);
    }
    assert(synced(v, i2, j2)) by {
        assert forall|a: int, b: int| 0 <= a < i2 && j2 <= b < nc implies element_order(#[trigger] ms[a], #[trigger] cs[b].0) < 0 by {
            if a == i && i2 > i {
                assert(ms[a] == x);
            }
        }
        assert forall|a: int, b: int| i2 <= a < nm && 0 <= b < j2 implies element_order(#[trigger] cs[b].0, #[trigger] ms[a]) < 0 by {
            if b == j && j2 > j {
                assert(cs[b].0 == x);
            }
        }
    }
    let acc2 = acc.insert(element_key(x), w);
    lemma_fold(v, i2, j2, acc2);
    assert(plain_element_view(x)) by {
        if x == cs[j].0 && j < nc {
        } else {
            assert(x == ms[i]);
        }
    }
    lemma_plain_key(x);
    assert forall|pe: PathElementView| #[trigger] rest_has(v, i, j, pe) == (rest_has(v, i2, j2, pe) || pe == x) by {
        if rest_has(v, i, j, pe) && pe != x {
            if exists|a: int| i <= a < nm && #[trigger] ms[a] == pe {
                let a = choose|a: int| i <= a < nm && #[trigger] ms[a] == pe;
                assert(a != i || i2 == i);
            } else {
                let b = choose|b: int| j <= b < nc && #[trigger] cs[b].0 == pe;
                assert(b != j || j2 == j);
            }
        }
        if pe == x {
            if i2 > i {
                assert(ms[i] == pe);
            } else {
                assert(cs[j].0 == pe);
            }
        }
    }
    // Different plain elements have different texts.
    assert forall|pe: PathElementView| rest_has(v, i2, j2, pe) implies plain_element_view(pe) && #[trigger] element_key(pe)
        != element_key(x) by {
        if exists|a: int| i2 <= a < nm && #[trigger] ms[a] == pe {
            let a = choose|a: int| i2 <= a < nm && #[trigger] ms[a] == pe;
            assert(plain_element_view(ms[a]));
        } else {
            let b = choose|b: int| j2 <= b < nc && #[trigger] cs[b].0 == pe;
            assert(plain_element_view(cs[b].0));
        }
        lemma_plain_key(pe);
    }
}

/// The fold, started from a map that some sorted entries stand for, ends in
/// a map that some sorted entries stand for.
proof fn lemma_fold_sorted(
    v: SetView,
    i: int,
    j: int,
    acc: Map<Seq<char>, ValueView>,
    es0: Seq<(Seq<char>, ValueView)>,
)
    requires
        keys_sorted(es0),
        entries_map(es0) == acc,
        0 <= i <= v.members.len(),
        0 <= j <= v.children.len(),
    ensures
        exists|es: Seq<(Seq<char>, ValueView)>| keys_sorted(es) && entries_map(es) == set_json_fold(v, i, j, acc),
    decreases v.members.len() + v.children.len() - i - j,
{
    let nm = v.members.len() as int;
    let nc = v.children.len() as int;
    if i == nm && j == nc {
        return;
    }
    let ghost k: Seq<char>;
    let ghost w: ValueView;
    let ghost i2: int;
    let ghost j2: int;
    if i == nm || (j < nc && element_order(v.children[j].0, v.members[i]) < 0) {
        k = element_key(v.children[j].0);
        w = set_json(v.children[j].1, false);
        i2 = i;
        j2 = j + 1;
    } else if j < nc && v.children[j].0 == v.members[i] {
        k = element_key(v.members[i]);
        w = set_json(v.children[j].1, true);
        i2 = i + 1;
        j2 = j + 1;
    } else {
        k = element_key(v.members[i]);
        w = empty_object();
        i2 = i + 1;
        j2 = j;
    }
    assert(set_json_fold(v, i, j, acc) == set_json_fold(v, i2, j2, acc.insert(k, w)));
    lemma_insert_sorted(es0, k, w);
    lemma_fold_sorted(v, i2, j2, acc.insert(k, w), crate::value::insert_sorted(es0, k, w));
}

/// The `l`-th member stands for the element `pe` and maps to an object.
pub open spec fn reads_as(es: Seq<(Seq<char>, ValueView)>, l: int, pe: PathElementView) -> bool {
    !skipped_name(es[l].0) && name_element(es[l].0) == Some(pe) && es[l].1 is Object
}

/// What a member that stands for `q[0]` and maps to `val` adds to the read
/// set for the path `q` (see [`doc_has`]).
pub open spec fn adds_path(val: ValueView, q: Seq<PathElementView>) -> bool {
    let c = val->Object_0;
    (q.len() == 1 && (c.len() == 0 || has_key(c, seq!['.']))) || (q.len() >= 2 && doc_nonempty(c) && doc_has(
        c,
        c.len() as int,
        q.drop_first(),
    ))
}

/// Where at most one member stands for `q[0]`, the path `q` is read from
/// the first `k` members exactly when that member is among them and adds it.
proof fn lemma_doc_has_scan(es: Seq<(Seq<char>, ValueView)>, k: int, q: Seq<PathElementView>)
    requires
        0 <= k <= es.len(),
        q.len() >= 1,
        forall|l1: int, l2: int|
            0 <= l1 < es.len() && 0 <= l2 < es.len() && reads_as(es, l1, q[0]) && reads_as(es, l2, q[0]) ==> l1 == l2,
    ensures
        doc_has(es, k, q) == exists|l: int| 0 <= l < k && #[trigger] reads_as(es, l, q[0]) && adds_path(es[l].1, q),
    decreases k,
{
    if k > 0 {
        lemma_doc_has_scan(es, k - 1, q);
        if reads_as(es, k - 1, q[0]) {
            if exists|l: int| 0 <= l < k - 1 && #[trigger] reads_as(es, l, q[0]) && adds_path(es[l].1, q) {
                let l = choose|l: int| 0 <= l < k - 1 && #[trigger] reads_as(es, l, q[0]) && adds_path(es[l].1, q);
                assert(l == k - 1);
            }
            if adds_path(es[k - 1].1, q) {
                assert(reads_as(es, k - 1, q[0]));
            }
        } else {
            if exists|l: int| 0 <= l < k && #[trigger] reads_as(es, l, q[0]) && adds_path(es[l].1, q) {
                let l = choose|l: int| 0 <= l < k && #[trigger] reads_as(es, l, q[0]) && adds_path(es[l].1, q);
                assert(l != k - 1);
            }
        }
    }
}

/// The JSON form of `v` (marked or not, see [`set_json`]) is an object
/// with sorted names that holds no JSON element names, reads without error
/// and reads as exactly the paths of `v`; it has a `.` member exactly when
/// it is marked and `v` holds a path.
pub open spec fn reads_back(v: SetView, marked: bool) -> bool {
    let j = set_json(v, marked);
    let es = j->Object_0;
    &&& j is Object
    &&& keys_sorted(es)
    &&& plain_doc(es)
    &&& doc_reads(es)
    &&& forall|q: Seq<PathElementView>| #[trigger] doc_has(es, es.len() as int, q) == contains_path(v, q)
    &&& has_key(es, seq!['.']) == (marked && !bare(v))
}

/// The names of the JSON form of `v` that come from its elements.
pub open spec fn from_element(v: SetView, t: Seq<char>, w: ValueView) -> bool {
    exists|pe: PathElementView| rest_has(v, 0, 0, pe) && element_key(pe) == t && w == elem_entry(v, pe)
}

/// The JSON form of `v` marks it with `.`: it is marked and not bare.
pub open spec fn dot_marked(v: SetView, marked: bool) -> bool {
    marked && !(v.members.len() == 0 && v.children.len() == 0)
}

/// The members of the JSON form of `v`: sorted names, each `.` (mapped to
/// `{}`) or the text of an element of `v` mapped to its entry, and each
/// element's text among them.
proof fn lemma_json_entries(v: SetView, marked: bool)
    requires
        wf_view(v),
        plain_set(v),
    ensures
        set_json(v, marked) is Object,
        keys_sorted(set_json(v, marked)->Object_0),
        forall|l: int|
            0 <= l < set_json(v, marked)->Object_0.len() ==> (#[trigger] set_json(v, marked)->Object_0[l].0 == seq!['.']
                && dot_marked(v, marked) && set_json(v, marked)->Object_0[l].1 == empty_object()) || from_element(
                v,
                set_json(v, marked)->Object_0[l].0,
                set_json(v, marked)->Object_0[l].1,
            ),
        forall|pe: PathElementView|
            rest_has(v, 0, 0, pe) ==> exists|l: int|
                0 <= l < set_json(v, marked)->Object_0.len() && #[trigger] set_json(v, marked)->Object_0[l].0 == element_key(pe)
                    && set_json(v, marked)->Object_0[l].1 == elem_entry(v, pe),
        has_key(set_json(v, marked)->Object_0, seq!['.']) == dot_marked(v, marked),
        forall|pe: PathElementView| rest_has(v, 0, 0, pe) ==> #[trigger] plain_element_view(pe),
{
    let nm = v.members.len() as int;
    let nc = v.children.len() as int;
    let ms = v.members;
    let cs = v.children;
    let dot = seq!['.'];
    let has_dot = dot_marked(v, marked);
    let base: Map<Seq<char>, ValueView> = if has_dot {
        map![dot => empty_object()]
    } else {
        Map::empty()
    };
    let es0: Seq<(Seq<char>, ValueView)> = if has_dot {
        seq![(dot, empty_object())]
    } else {
        Seq::empty()
    };
    assert(entries_map(es0) =~= base) by {
        if has_dot {
            crate::value::lemma_entries_map_at(es0, 0);
            assert forall|t: Seq<char>| #[trigger] entries_map(es0).contains_key(t) == base.contains_key(t) by {
                if has_key(es0, t) {
                    let l = choose|l: int| 0 <= l < es0.len() && #[trigger] es0[l].0 == t;
                    assert(l == 0);
                }
            }
        }
    }
    lemma_fold_sorted(v, 0, 0, base, es0);
    let m = set_json_fold(v, 0, 0, base);
    let es = sorted_entries(m);
    assert(keys_sorted(es) && entries_map(es) == m);
    assert(set_json(v, marked) == ValueView::Object(es));
    lemma_fold(v, 0, 0, base);
    assert forall|pe: PathElementView| rest_has(v, 0, 0, pe) implies #[trigger] plain_element_view(pe) by {
        if exists|a: int| 0 <= a < nm && #[trigger] ms[a] == pe {
            let a = choose|a: int| 0 <= a < nm && #[trigger] ms[a] == pe;
            assert(plain_element_view(ms[a]));
        } else {
            let b = choose|b: int| 0 <= b < nc && #[trigger] cs[b].0 == pe;
            assert(plain_element_view(cs[b].0));
        }
    }
    assert forall|l: int| 0 <= l < es.len() implies (#[trigger] es[l].0 == dot && has_dot && es[l].1 == empty_object())
        || from_element(v, es[l].0, es[l].1) by {
        crate::value::lemma_entries_map_at(es, l);
        let t = es[l].0;
        if exists|pe: PathElementView| rest_has(v, 0, 0, pe) && element_key(pe) == t {
            let pe = choose|pe: PathElementView| rest_has(v, 0, 0, pe) && element_key(pe) == t;
            assert(m[element_key(pe)] == elem_entry(v, pe));
        } else {
            assert(base.contains_key(t));
            assert(m[t] == base[t]);
        }
    }
    assert forall|pe: PathElementView| rest_has(v, 0, 0, pe) implies exists|l: int|
        0 <= l < es.len() && #[trigger] es[l].0 == element_key(pe) && es[l].1 == elem_entry(v, pe) by {
        let t = element_key(pe);
        assert(m.contains_key(t));
        assert(has_key(es, t));
        let l = choose|l: int| 0 <= l < es.len() && #[trigger] es[l].0 == t;
        crate::value::lemma_entries_map_at(es, l);
    }
    assert(has_key(es, dot) == has_dot) by {
        assert(m.contains_key(dot) == has_key(es, dot));
        assert forall|pe: PathElementView| rest_has(v, 0, 0, pe) implies #[trigger] element_key(pe) != dot by {
            lemma_plain_key(pe);
        }
    }
}

/// The entry of an element of `v` is an object with no JSON element name,
/// which reads without error, given that the children's forms read back.
proof fn lemma_elem_entry_reads(v: SetView, pe: PathElementView)
    requires
        wf_view(v),
        rest_has(v, 0, 0, pe),
        forall|b: int, mk: bool| 0 <= b < v.children.len() ==> #[trigger] reads_back(v.children[b].1, mk),
    ensures
        elem_entry(v, pe) is Object,
        plain_doc(elem_entry(v, pe)->Object_0),
        doc_reads(elem_entry(v, pe)->Object_0),
{
    let cs = v.children;
    if exists|b: int| 0 <= b < cs.len() && #[trigger] cs[b].0 == pe {
        let b = choose|b: int| 0 <= b < cs.len() && #[trigger] cs[b].0 == pe;
        lemma_child_of_at(cs, b);
        assert(reads_back(cs[b].1, v.members.contains(pe)));
    } else {
        assert(child_of(cs, pe) is None);
    }
}

/// For an element `pe` of `v`, what its entry adds for a path `q` starting
/// with `pe` is whether `q` is in `v`, given that the children's forms read
/// back.
proof fn lemma_elem_entry_adds(v: SetView, q: Seq<PathElementView>)
    requires
        wf_view(v),
        q.len() >= 1,
        rest_has(v, 0, 0, q[0]),
        forall|b: int, mk: bool| 0 <= b < v.children.len() ==> #[trigger] reads_back(v.children[b].1, mk),
    ensures
        adds_path(elem_entry(v, q[0]), q) == contains_path(v, q),
{
    let pe = q[0];
    let cs = v.children;
    let ms = v.members;
    lemma_wf_children(cs);
    if q.len() >= 2 {
        super::set::lemma_contains_under(v, q);
    }
    if exists|b: int| 0 <= b < cs.len() && #[trigger] cs[b].0 == pe {
        let b = choose|b: int| 0 <= b < cs.len() && #[trigger] cs[b].0 == pe;
        lemma_child_of_at(cs, b);
        let c = cs[b].1;
        let mk = ms.contains(pe);
        assert(reads_back(c, mk));
        let ec = set_json(c, mk)->Object_0;
        assert(child_ok(c));
        lemma_bare(c);
        let p = choose|p: Seq<PathElementView>| p.len() > 0 && #[trigger] contains_path(c, p);
        assert(doc_has(ec, ec.len() as int, p));
        super::serialize::lemma_doc_nonempty(ec);
        assert(doc_nonempty(ec));
        assert(ec.len() > 0) by {
            if ec.len() == 0 {
                assert(!doc_has(ec, 0, p));
            }
        }
        if q.len() >= 2 {
            super::set::lemma_under_at(cs, b, q);
        }
    } else {
        assert(child_of(cs, pe) is None);
        assert(elem_entry(v, pe)->Object_0.len() == 0);
        super::serialize::lemma_doc_nonempty(Seq::<(Seq<char>, ValueView)>::empty());
        if q.len() >= 2 {
            super::set::lemma_under_absent(cs, q);
        }
        if q.len() == 1 {
            let a = choose|a: int| 0 <= a < ms.len() && #[trigger] ms[a] == pe;
            assert(ms.contains(pe));
        }
    }
}

proof fn lemma_set_json_reads(v: SetView, marked: bool)
    requires
        wf_view(v),
        plain_set(v),
        !v.root,
    ensures
        reads_back(v, marked),
    decreases v,
{
    let nm = v.members.len() as int;
    let nc = v.children.len() as int;
    let ms = v.members;
    let cs = v.children;
    lemma_wf_children(cs);
    assert forall|b: int, mk: bool| 0 <= b < nc implies #[trigger] reads_back(cs[b].1, mk) by {
        assert(child_ok(cs[b].1));
        assert(plain_element_view(cs[b].0));
        assert(plain_set(cs[b].1));
        assert(decreases_to!(v => v.children));
        assert(decreases_to!(v.children => v.children[b]));
        assert(decreases_to!(v.children[b] => v.children[b].1));
        lemma_set_json_reads(cs[b].1, mk);
    }
    lemma_json_entries(v, marked);
    let es = set_json(v, marked)->Object_0;
    let dot = seq!['.'];
    assert(plain_doc(es) && doc_reads(es)) by {
        assert forall|l: int| 0 <= l < es.len() implies !json_element_name(#[trigger] es[l].0) && (es[l].1 is Object ==> plain_doc(
            es[l].1->Object_0,
        )) && (skipped_name(es[l].0) || (name_element(es[l].0) is Some && es[l].1 is Object && doc_reads(
            es[l].1->Object_0,
        ))) by {
            if es[l].0 == dot && dot_marked(v, marked) && es[l].1 == empty_object() {
                assert(!json_element_name(dot));
            } else {
                let pe = choose|pe: PathElementView| rest_has(v, 0, 0, pe) && element_key(pe) == es[l].0 && es[l].1 == elem_entry(v, pe);
                lemma_plain_key(pe);
                lemma_elem_entry_reads(v, pe);
            }
        }
    }
    assert forall|q: Seq<PathElementView>| #[trigger] doc_has(es, es.len() as int, q) == contains_path(v, q) by {
        if q.len() == 0 {
            super::serialize::lemma_doc_has_empty_path(es, es.len() as int);
            assert(q =~= Seq::<PathElementView>::empty());
        } else {
            let pe = q[0];
            assert forall|l1: int, l2: int|
                0 <= l1 < es.len() && 0 <= l2 < es.len() && reads_as(es, l1, pe) && reads_as(es, l2, pe) implies l1 == l2 by {
                let p1 = choose|p: PathElementView| rest_has(v, 0, 0, p) && element_key(p) == es[l1].0 && es[l1].1 == elem_entry(v, p);
                let p2 = choose|p: PathElementView| rest_has(v, 0, 0, p) && element_key(p) == es[l2].0 && es[l2].1 == elem_entry(v, p);
                lemma_plain_key(p1);
                lemma_plain_key(p2);
                crate::value::lemma_sorted_keys_distinct(es, l1, l2);
            }
            lemma_doc_has_scan(es, es.len() as int, q);
            if q.len() >= 2 {
                super::set::lemma_contains_under(v, q);
            }
            if rest_has(v, 0, 0, pe) {
                lemma_plain_key(pe);
                let l = choose|l: int| 0 <= l < es.len() && #[trigger] es[l].0 == element_key(pe) && es[l].1 == elem_entry(v, pe);
                lemma_elem_entry_reads(v, pe);
                assert(reads_as(es, l, pe));
                lemma_elem_entry_adds(v, q);
                if adds_path(elem_entry(v, pe), q) {
                    assert(reads_as(es, l, q[0]) && adds_path(es[l].1, q));
                }
                if exists|l2: int| 0 <= l2 < es.len() && #[trigger] reads_as(es, l2, q[0]) && adds_path(es[l2].1, q) {
                    let l2 = choose|l2: int| 0 <= l2 < es.len() && #[trigger] reads_as(es, l2, q[0]) && adds_path(es[l2].1, q);
                    assert(l2 == l);
                }
                assert(doc_has(es, es.len() as int, q) == adds_path(elem_entry(v, pe), q));
            } else {
                if exists|l: int| 0 <= l < es.len() && #[trigger] reads_as(es, l, q[0]) && adds_path(es[l].1, q) {
                    let l = choose|l: int| 0 <= l < es.len() && #[trigger] reads_as(es, l, q[0]) && adds_path(es[l].1, q);
                    let p1 = choose|p: PathElementView| rest_has(v, 0, 0, p) && element_key(p) == es[l].0 && es[l].1 == elem_entry(v, p);
                    lemma_plain_key(p1);
                }
                if q.len() >= 2 {
                    super::set::lemma_under_absent(cs, q);
                }
                if q.len() == 1 && ms.contains(pe) {
                    let a = choose|a: int| 0 <= a < nm && ms[a] == pe;
                    assert(ms[a] == pe);
                }
                assert(!doc_has(es, es.len() as int, q));
                assert(!contains_path(v, q));
            }
        }
    }
}

/// Reading back the JSON form of a set whose elements are field names and
/// indices gives the set: the form (see [`set_json`]) holds no element
/// read as JSON, reads without error (see [`doc_reads`]), and reads as
/// exactly the paths of the set (see [`doc_has`]). So
/// `FieldPathSet::from_json_value` of what `to_json` writes holds the same
/// paths. (The empty path is never written, so the set must not hold it.)
pub proof fn lemma_set_json_round_trip(v: SetView)
    requires
        wf_view(v),
        !v.root,
        plain_set(v),
    ensures
        set_json(v, false) is Object,
        plain_doc(set_json(v, false)->Object_0),
        doc_reads(set_json(v, false)->Object_0),
        forall|q: Seq<PathElementView>|
            #[trigger] doc_has(set_json(v, false)->Object_0, set_json(v, false)->Object_0.len() as int, q)
                == contains_path(v, q),
{
    lemma_set_json_reads(v, false);
}

} // verus!
