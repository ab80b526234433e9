//! In-memory representation of YAML/JSON values, their abstract model and
//! the total order used to sort them.

use crate::text::{decimal, json_quote, json_quoted, push_char, push_decimal, push_str};
use vstd::prelude::*;

verus! {

/// Abstract model of a [`Value`].
pub enum ValueView {
    Null,
    Bool(bool),
    Int(int),
    Float(Seq<char>),
    Str(Seq<char>),
    List(Seq<ValueView>),
    Object(Seq<(Seq<char>, ValueView)>),
}

/// A YAML/JSON value.
///
/// A floating-point number is held as its decimal JSON text (for example
/// `"3.14"`), which is how it is written out and how it is compared.
#[derive(Debug)]
pub enum Value {
    Null,
    Bool(bool),
    Int(i64),
    Float(String),
    String(String),
    List(Vec<Value>),
    Object(ValueMap),
}

/// A map from string keys to values, kept sorted by key.
#[derive(Debug)]
pub struct ValueMap {
    entries: Vec<(String, Value)>,
}

/// One named component of an associative-list key.
#[derive(Debug)]
pub struct Field {
    pub name: String,
    pub value: Value,
}

/// The key of an item of an associative list: a list of named values.
#[derive(Debug)]
pub struct FieldList {
    pub fields: Vec<Field>,
}

pub closed spec fn value_view(v: Value) -> ValueView
    decreases v,
{
    match v {
        Value::Null => ValueView::Null,
        Value::Bool(b) => ValueView::Bool(b),
        Value::Int(i) => ValueView::Int(i as int),
        Value::Float(s) => ValueView::Float(s@),
        Value::String(s) => ValueView::Str(s@),
        Value::List(l) => ValueView::List(values_view(l@)),
        Value::Object(m) => ValueView::Object(entries_view(m.entries@)),
    }
}

pub closed spec fn values_view(xs: Seq<Value>) -> Seq<ValueView>
    decreases xs,
{
    if xs.len() == 0 {
        Seq::empty()
    } else {
        values_view(xs.drop_last()).push(value_view(xs.last()))
    }
}

pub closed spec fn entries_view(xs: Seq<(String, Value)>) -> Seq<(Seq<char>, ValueView)>
    decreases xs,
{
    if xs.len() == 0 {
        Seq::empty()
    } else {
        entries_view(xs.drop_last()).push((xs.last().0@, value_view(xs.last().1)))
    }
}

pub open spec fn fields_view(xs: Seq<Field>) -> Seq<(Seq<char>, ValueView)> {
    Seq::new(xs.len(), |i: int| (xs[i].name@, xs[i].value@))
}

impl View for Value {
    type V = ValueView;

    open spec fn view(&self) -> ValueView {
        value_view(*self)
    }
}

impl View for ValueMap {
    type V = Seq<(Seq<char>, ValueView)>;

    closed spec fn view(&self) -> Seq<(Seq<char>, ValueView)> {
        entries_view(self.entries@)
    }
}

impl View for FieldList {
    type V = Seq<(Seq<char>, ValueView)>;

    open spec fn view(&self) -> Seq<(Seq<char>, ValueView)> {
        fields_view(self.fields@)
    }
}

pub proof fn lemma_values_view(xs: Seq<Value>)
    ensures
        values_view(xs).len() == xs.len(),
        forall|i: int| 0 <= i < xs.len() ==> #[trigger] values_view(xs)[i] == xs[i]@,
    decreases xs.len(),
{
    if xs.len() > 0 {
        lemma_values_view(xs.drop_last());
    }
}

/// The model of a sequence grown by one value is the model grown by the
/// value's model.
pub proof fn lemma_values_view_push(xs: Seq<Value>, v: Value)
    ensures
        values_view(xs.push(v)) == values_view(xs).push(v@),
{
    assert(xs.push(v).drop_last() =~= xs);
}

pub proof fn lemma_entries_view(xs: Seq<(String, Value)>)
    ensures
        entries_view(xs).len() == xs.len(),
        forall|i: int|
            0 <= i < xs.len() ==> #[trigger] entries_view(xs)[i] == (xs[i].0@, xs[i].1@),
    decreases xs.len(),
{
    if xs.len() > 0 {
        lemma_entries_view(xs.drop_last());
    }
}

pub proof fn lemma_value_view_cases(v: Value)
    ensures
        match v {
            Value::Null => v@ == ValueView::Null,
            Value::Bool(b) => v@ == ValueView::Bool(b),
            Value::Int(i) => v@ == ValueView::Int(i as int),
            Value::Float(s) => v@ == ValueView::Float(s@),
            Value::String(s) => v@ == ValueView::Str(s@),
            Value::List(l) => v@ == ValueView::List(values_view(l@)),
            Value::Object(m) => v@ == ValueView::Object(m@),
        },
{
}

// ---------------------------------------------------------------------------
// The total order on values.
// ---------------------------------------------------------------------------

/// Three-way comparison of integers: -1, 0 or 1.
pub open spec fn int_order(a: int, b: int) -> int {
    if a < b {
        -1
    } else if a == b {
        0
    } else {
        1
    }
}

/// Lexicographic comparison of character sequences, by code point.
pub open spec fn chars_order(a: Seq<char>, b: Seq<char>) -> int
    decreases a.len(),
{
    if a.len() == 0 {
        if b.len() == 0 {
            0
        } else {
            -1
        }
    } else if b.len() == 0 {
        1
    } else if a[0] != b[0] {
        int_order(a[0] as int, b[0] as int)
    } else {
        chars_order(a.drop_first(), b.drop_first())
    }
}

/// Position of a value's kind in the order: null, booleans, integers,
/// floats, strings, lists, maps.
pub open spec fn rank(v: ValueView) -> int {
    match v {
        ValueView::Null => 0,
        ValueView::Bool(_) => 1,
        ValueView::Int(_) => 2,
        ValueView::Float(_) => 3,
        ValueView::Str(_) => 4,
        ValueView::List(_) => 5,
        ValueView::Object(_) => 6,
    }
}

pub open spec fn bool_order(a: bool, b: bool) -> int {
    if a == b {
        0
    } else if !a {
        -1
    } else {
        1
    }
}

/// Three-way comparison of values: first by kind, then by content;
/// lists and maps compare lexicographically.
pub open spec fn value_order(a: ValueView, b: ValueView) -> int
    decreases a,
{
    if rank(a) != rank(b) {
        int_order(rank(a), rank(b))
    } else {
        match (a, b) {
            (ValueView::Bool(x), ValueView::Bool(y)) => bool_order(x, y),
            (ValueView::Int(x), ValueView::Int(y)) => int_order(x, y),
            (ValueView::Float(x), ValueView::Float(y)) => chars_order(x, y),
            (ValueView::Str(x), ValueView::Str(y)) => chars_order(x, y),
            (ValueView::List(xs), ValueView::List(ys)) => list_order(xs, ys),
            (ValueView::Object(xs), ValueView::Object(ys)) => entries_order(xs, ys),
            _ => 0,
        }
    }
}

/// Lexicographic comparison of value sequences.
pub open spec fn list_order(xs: Seq<ValueView>, ys: Seq<ValueView>) -> int
    decreases xs,
{
    if xs.len() == 0 {
        if ys.len() == 0 {
            0
        } else {
            -1
        }
    } else if ys.len() == 0 {
        1
    } else if value_order(xs[0], ys[0]) != 0 {
        value_order(xs[0], ys[0])
    } else {
        list_order(xs.drop_first(), ys.drop_first())
    }
}

/// Lexicographic comparison of (name, value) sequences; each pair compares
/// by name, then by value.
pub open spec fn entries_order(xs: Seq<(Seq<char>, ValueView)>, ys: Seq<(Seq<char>, ValueView)>) -> int
    decreases xs,
{
    if xs.len() == 0 {
        if ys.len() == 0 {
            0
        } else {
            -1
        }
    } else if ys.len() == 0 {
        1
    } else if chars_order(xs[0].0, ys[0].0) != 0 {
        chars_order(xs[0].0, ys[0].0)
    } else if value_order(xs[0].1, ys[0].1) != 0 {
        value_order(xs[0].1, ys[0].1)
    } else {
        entries_order(xs.drop_first(), ys.drop_first())
    }
}

proof fn lemma_seq_from_parts<A>(a: Seq<A>, b: Seq<A>)
    requires
        a.len() > 0,
        b.len() > 0,
        a[0] == b[0],
        a.drop_first() == b.drop_first(),
    ensures
        a == b,
{
    assert(a.drop_first().len() == a.len() - 1);
    assert(b.drop_first().len() == b.len() - 1);
    assert(a.len() == b.len());
    assert forall|i: int| 0 <= i < a.len() implies a[i] == b[i] by {
        if i > 0 {
            assert(a[i] == a.drop_first()[i - 1]);
            assert(b[i] == b.drop_first()[i - 1]);
        }
    }
    assert(a =~= b);
}

pub proof fn lemma_chars_order(a: Seq<char>, b: Seq<char>, c: Seq<char>)
    ensures
        -1 <= chars_order(a, b) <= 1,
        chars_order(a, b) == -chars_order(b, a),
        chars_order(a, b) == 0 <==> a == b,
        chars_order(a, b) < 0 && chars_order(b, c) < 0 ==> chars_order(a, c) < 0,
    decreases a.len(),
{
    if a.len() > 0 && b.len() > 0 {
        let c1 = if c.len() > 0 { c } else { b };
        lemma_chars_order(a.drop_first(), b.drop_first(), c1.drop_first());
        if a.drop_first() == b.drop_first() && a[0] == b[0] {
            lemma_seq_from_parts(a, b);
        }
    } else if a.len() == 0 && b.len() == 0 {
        assert(a =~= b);
    }
}

/// The value order is antisymmetric and is zero exactly on equal values.
pub proof fn lemma_value_order_eq(a: ValueView, b: ValueView)
    ensures
        -1 <= value_order(a, b) <= 1,
        value_order(a, b) == -value_order(b, a),
        value_order(a, b) == 0 <==> a == b,
    decreases a,
{
    if rank(a) == rank(b) {
        match (a, b) {
            (ValueView::Float(x), ValueView::Float(y)) => {
                lemma_chars_order(x, y, y);
            },
            (ValueView::Str(x), ValueView::Str(y)) => {
                lemma_chars_order(x, y, y);
            },
            (ValueView::List(xs), ValueView::List(ys)) => {
                lemma_list_order_eq(xs, ys);
            },
            (ValueView::Object(xs), ValueView::Object(ys)) => {
                lemma_entries_order_eq(xs, ys);
            },
            _ => {},
        }
    }
}

pub proof fn lemma_list_order_eq(xs: Seq<ValueView>, ys: Seq<ValueView>)
    ensures
        -1 <= list_order(xs, ys) <= 1,
        list_order(xs, ys) == -list_order(ys, xs),
        list_order(xs, ys) == 0 <==> xs == ys,
    decreases xs,
{
    if xs.len() > 0 && ys.len() > 0 {
        lemma_value_order_eq(xs[0], ys[0]);
        lemma_list_order_eq(xs.drop_first(), ys.drop_first());
        if xs.drop_first() == ys.drop_first() && xs[0] == ys[0] {
            lemma_seq_from_parts(xs, ys);
        }
    } else if xs.len() == 0 && ys.len() == 0 {
        assert(xs =~= ys);
    }
}

pub proof fn lemma_entries_order_eq(xs: Seq<(Seq<char>, ValueView)>, ys: Seq<(Seq<char>, ValueView)>)
    ensures
        -1 <= entries_order(xs, ys) <= 1,
        entries_order(xs, ys) == -entries_order(ys, xs),
        entries_order(xs, ys) == 0 <==> xs == ys,
    decreases xs,
{
    if xs.len() > 0 && ys.len() > 0 {
        lemma_chars_order(xs[0].0, ys[0].0, ys[0].0);
        lemma_value_order_eq(xs[0].1, ys[0].1);
        lemma_entries_order_eq(xs.drop_first(), ys.drop_first());
        if xs.drop_first() == ys.drop_first() && xs[0] == ys[0] {
            lemma_seq_from_parts(xs, ys);
        }
    } else if xs.len() == 0 && ys.len() == 0 {
        assert(xs =~= ys);
    }
}

/// The value order is transitive.
pub proof fn lemma_value_order_trans(a: ValueView, b: ValueView, c: ValueView)
    requires
        value_order(a, b) < 0,
        value_order(b, c) < 0,
    ensures
        value_order(a, c) < 0,
    decreases a,
{
    lemma_value_order_eq(a, b);
    lemma_value_order_eq(b, c);
    lemma_value_order_eq(a, c);
    if rank(a) == rank(b) && rank(b) == rank(c) {
        match (a, b, c) {
            (ValueView::Float(x), ValueView::Float(y), ValueView::Float(z)) => {
                lemma_chars_order(x, y, z);
            },
            (ValueView::Str(x), ValueView::Str(y), ValueView::Str(z)) => {
                lemma_chars_order(x, y, z);
            },
            (ValueView::List(xs), ValueView::List(ys), ValueView::List(zs)) => {
                lemma_list_order_trans(xs, ys, zs);
            },
            (ValueView::Object(xs), ValueView::Object(ys), ValueView::Object(zs)) => {
                lemma_entries_order_trans(xs, ys, zs);
            },
            _ => {},
        }
    }
}

pub proof fn lemma_list_order_trans(xs: Seq<ValueView>, ys: Seq<ValueView>, zs: Seq<ValueView>)
    requires
        list_order(xs, ys) < 0,
        list_order(ys, zs) < 0,
    ensures
        list_order(xs, zs) < 0,
    decreases xs,
{
    if xs.len() > 0 && ys.len() > 0 && zs.len() > 0 {
        lemma_value_order_eq(xs[0], ys[0]);
        lemma_value_order_eq(ys[0], zs[0]);
        lemma_value_order_eq(xs[0], zs[0]);
        if value_order(xs[0], ys[0]) < 0 && value_order(ys[0], zs[0]) < 0 {
            lemma_value_order_trans(xs[0], ys[0], zs[0]);
        } else if value_order(xs[0], ys[0]) == 0 && value_order(ys[0], zs[0]) == 0 {
            lemma_list_order_trans(xs.drop_first(), ys.drop_first(), zs.drop_first());
        }
    }
}

pub proof fn lemma_entries_order_trans(
    xs: Seq<(Seq<char>, ValueView)>,
    ys: Seq<(Seq<char>, ValueView)>,
    zs: Seq<(Seq<char>, ValueView)>,
)
    requires
        entries_order(xs, ys) < 0,
        entries_order(ys, zs) < 0,
    ensures
        entries_order(xs, zs) < 0,
    decreases xs,
{
    if xs.len() > 0 && ys.len() > 0 && zs.len() > 0 {
        lemma_chars_order(xs[0].0, ys[0].0, zs[0].0);
        lemma_chars_order(ys[0].0, zs[0].0, zs[0].0);
        lemma_value_order_eq(xs[0].1, ys[0].1);
        lemma_value_order_eq(ys[0].1, zs[0].1);
        lemma_value_order_eq(xs[0].1, zs[0].1);
        if chars_order(xs[0].0, ys[0].0) == 0 && chars_order(ys[0].0, zs[0].0) == 0 {
            if value_order(xs[0].1, ys[0].1) < 0 && value_order(ys[0].1, zs[0].1) < 0 {
                lemma_value_order_trans(xs[0].1, ys[0].1, zs[0].1);
            } else if value_order(xs[0].1, ys[0].1) == 0 && value_order(ys[0].1, zs[0].1) == 0 {
                lemma_entries_order_trans(xs.drop_first(), ys.drop_first(), zs.drop_first());
            }
        }
    }
}

// ---------------------------------------------------------------------------
// Executable comparison.
// ---------------------------------------------------------------------------

proof fn lemma_chars_order_step(a: Seq<char>, b: Seq<char>, i: int)
    requires
        0 <= i < a.len(),
        i < b.len(),
        a[i] == b[i],
    ensures
        chars_order(a.skip(i), b.skip(i)) == chars_order(a.skip(i + 1), b.skip(i + 1)),
{
    assert(a.skip(i).drop_first() =~= a.skip(i + 1));
    assert(b.skip(i).drop_first() =~= b.skip(i + 1));
}

/// Compares two strings by code point, lexicographically: -1, 0 or 1.
pub fn compare_str(a: &str, b: &str) -> (r: i8)
    ensures
        r as int == chars_order(a@, b@),
{
    let la = a.unicode_len();
    let lb = b.unicode_len();
    let mut i: usize = 0;
    assert(a@.skip(0) =~= a@);
    assert(b@.skip(0) =~= b@);
    while i < la && i < lb
        invariant
            la == a@.len(),
            lb == b@.len(),
            i <= la,
            i <= lb,
            chars_order(a@, b@) == chars_order(a@.skip(i as int), b@.skip(i as int)),
        decreases la - i,
    {
        let ca = a.get_char(i);
        let cb = b.get_char(i);
        if ca != cb {
            let xa: u32 = ca as u32;
            let xb: u32 = cb as u32;
            assert(a@.skip(i as int)[0] == ca);
            assert(b@.skip(i as int)[0] == cb);
            if xa < xb {
                return -1;
            } else {
                return 1;
            }
        }
        proof {
            lemma_chars_order_step(a@, b@, i as int);
        }
        i = i + 1;
    }
    if i == la && i == lb {
        0
    } else if i == la {
        -1
    } else {
        1
    }
}

/// Returns true if the two strings hold the same characters.
pub fn str_equal(a: &str, b: &str) -> (r: bool)
    ensures
        r == (a@ == b@),
{
    let c = compare_str(a, b);
    proof {
        lemma_chars_order(a@, b@, b@);
    }
    c == 0
}

proof fn lemma_list_order_step(a: Seq<ValueView>, b: Seq<ValueView>, i: int)
    requires
        0 <= i < a.len(),
        i < b.len(),
    ensures
        value_order(a[i], b[i]) == 0 ==> list_order(a.skip(i), b.skip(i)) == list_order(
            a.skip(i + 1),
            b.skip(i + 1),
        ),
        value_order(a[i], b[i]) != 0 ==> list_order(a.skip(i), b.skip(i)) == value_order(a[i], b[i]),
{
    assert(a.skip(i).drop_first() =~= a.skip(i + 1));
    assert(b.skip(i).drop_first() =~= b.skip(i + 1));
    assert(a.skip(i)[0] == a[i]);
    assert(b.skip(i)[0] == b[i]);
}

proof fn lemma_entries_order_step(a: Seq<(Seq<char>, ValueView)>, b: Seq<(Seq<char>, ValueView)>, i: int)
    requires
        0 <= i < a.len(),
        i < b.len(),
    ensures
        chars_order(a[i].0, b[i].0) != 0 ==> entries_order(a.skip(i), b.skip(i)) == chars_order(a[i].0, b[i].0),
        chars_order(a[i].0, b[i].0) == 0 && value_order(a[i].1, b[i].1) != 0
            ==> entries_order(a.skip(i), b.skip(i)) == value_order(a[i].1, b[i].1),
        chars_order(a[i].0, b[i].0) == 0 && value_order(a[i].1, b[i].1) == 0
            ==> entries_order(a.skip(i), b.skip(i)) == entries_order(a.skip(i + 1), b.skip(i + 1)),
{
    assert(a.skip(i).drop_first() =~= a.skip(i + 1));
    assert(b.skip(i).drop_first() =~= b.skip(i + 1));
    assert(a.skip(i)[0] == a[i]);
    assert(b.skip(i)[0] == b[i]);
}

/// Compares two sequences of values lexicographically: -1, 0 or 1.
pub fn compare_values(a: &Vec<Value>, b: &Vec<Value>) -> (r: i8)
    ensures
        r as int == list_order(values_view(a@), values_view(b@)),
    decreases a,
{
    let ghost va = values_view(a@);
    let ghost vb = values_view(b@);
    proof {
        lemma_values_view(a@);
        lemma_values_view(b@);
        assert(va.skip(0) =~= va);
        assert(vb.skip(0) =~= vb);
    }
    let mut i: usize = 0;
    while i < a.len() && i < b.len()
        invariant
            va == values_view(a@),
            vb == values_view(b@),
            va.len() == a@.len(),
            vb.len() == b@.len(),
            forall|j: int| 0 <= j < a@.len() ==> #[trigger] va[j] == a@[j]@,
            forall|j: int| 0 <= j < b@.len() ==> #[trigger] vb[j] == b@[j]@,
            i <= a.len(),
            i <= b.len(),
            list_order(va, vb) == list_order(va.skip(i as int), vb.skip(i as int)),
        decreases a.len() - i,
    {
        let c = a[i].compare(&b[i]);
        proof {
            lemma_list_order_step(va, vb, i as int);
        }
        if c != 0 {
            return c;
        }
        i = i + 1;
    }
    if i == a.len() && i == b.len() {
        0
    } else if i == a.len() {
        -1
    } else {
        1
    }
}

/// Compares two sequences of (name, value) pairs lexicographically.
fn compare_entries(a: &Vec<(String, Value)>, b: &Vec<(String, Value)>) -> (r: i8)
    ensures
        r as int == entries_order(entries_view(a@), entries_view(b@)),
    decreases a,
{
    let ghost va = entries_view(a@);
    let ghost vb = entries_view(b@);
    proof {
        lemma_entries_view(a@);
        lemma_entries_view(b@);
        assert(va.skip(0) =~= va);
        assert(vb.skip(0) =~= vb);
    }
    let mut i: usize = 0;
    while i < a.len() && i < b.len()
        invariant
            va == entries_view(a@),
            vb == entries_view(b@),
            va.len() == a@.len(),
            vb.len() == b@.len(),
            forall|j: int| 0 <= j < a@.len() ==> #[trigger] va[j] == (a@[j].0@, a@[j].1@),
            forall|j: int| 0 <= j < b@.len() ==> #[trigger] vb[j] == (b@[j].0@, b@[j].1@),
            i <= a.len(),
            i <= b.len(),
            entries_order(va, vb) == entries_order(va.skip(i as int), vb.skip(i as int)),
        decreases a.len() - i,
    {
        let c = compare_str(a[i].0.as_str(), b[i].0.as_str());
        proof {
            lemma_entries_order_step(va, vb, i as int);
        }
        if c != 0 {
            return c;
        }
        let d = a[i].1.compare(&b[i].1);
        if d != 0 {
            return d;
        }
        i = i + 1;
    }
    if i == a.len() && i == b.len() {
        0
    } else if i == a.len() {
        -1
    } else {
        1
    }
}

impl Value {
    /// Compares two values in the total order on values: -1, 0 or 1.
    pub fn compare(&self, other: &Value) -> (r: i8)
        ensures
            r as int == value_order(self@, other@),
        decreases self,
    {
        proof {
            lemma_value_view_cases(*self);
            lemma_value_view_cases(*other);
        }
        match (self, other) {
            (Value::Null, Value::Null) => 0,
            (Value::Bool(x), Value::Bool(y)) => {
                if *x == *y {
                    0
                } else if !*x {
                    -1
                } else {
                    1
                }
            },
            (Value::Int(x), Value::Int(y)) => {
                if *x < *y {
                    -1
                } else if *x == *y {
                    0
                } else {
                    1
                }
            },
            (Value::Float(x), Value::Float(y)) => compare_str(x.as_str(), y.as_str()),
            (Value::String(x), Value::String(y)) => compare_str(x.as_str(), y.as_str()),
            (Value::List(xs), Value::List(ys)) => compare_values(xs, ys),
            (Value::Object(xs), Value::Object(ys)) => compare_entries(&xs.entries, &ys.entries),
            _ => {
                let ra = self.kind_rank();
                let rb = other.kind_rank();
                if ra < rb {
                    -1
                } else {
                    1
                }
            },
        }
    }

    fn kind_rank(&self) -> (r: u8)
        ensures
            r as int == rank(self@),
    {
        proof {
            lemma_value_view_cases(*self);
        }
        match self {
            Value::Null => 0,
            Value::Bool(_) => 1,
            Value::Int(_) => 2,
            Value::Float(_) => 3,
            Value::String(_) => 4,
            Value::List(_) => 5,
            Value::Object(_) => 6,
        }
    }
}

// ---------------------------------------------------------------------------
// Equality and copies.
// ---------------------------------------------------------------------------

impl PartialEq for Value {
    fn eq(&self, other: &Value) -> (r: bool) {
        proof {
            lemma_value_order_eq(self@, other@);
        }
        self.compare(other) == 0
    }
}

impl vstd::std_specs::cmp::PartialEqSpecImpl for Value {
    open spec fn obeys_eq_spec() -> bool {
        true
    }

    open spec fn eq_spec(&self, other: &Value) -> bool {
        self@ == other@
    }
}

impl Eq for Value {}

impl Clone for Value {
    fn clone(&self) -> (r: Value)
        ensures
            r@ == self@,
        decreases self,
    {
        proof {
            lemma_value_view_cases(*self);
        }
        let r = match self {
            Value::Null => Value::Null,
            Value::Bool(b) => Value::Bool(*b),
            Value::Int(i) => Value::Int(*i),
            Value::Float(s) => Value::Float(s.clone()),
            Value::String(s) => Value::String(s.clone()),
            Value::List(xs) => Value::List(clone_values(xs)),
            Value::Object(m) => Value::Object(m.clone()),
        };
        proof {
            lemma_value_view_cases(r);
        }
        r
    }
}

/// Copies a sequence of values.
pub fn clone_values(xs: &Vec<Value>) -> (r: Vec<Value>)
    ensures
        values_view(r@) == values_view(xs@),
    decreases xs,
{
    let mut r: Vec<Value> = Vec::new();
    let mut i: usize = 0;
    while i < xs.len()
        invariant
            i <= xs.len(),
            r@.len() == i,
            forall|j: int| 0 <= j < i ==> #[trigger] r@[j]@ == xs@[j]@,
        decreases xs.len() - i,
    {
        let v = xs[i].clone();
        r.push(v);
        i = i + 1;
    }
    proof {
        lemma_values_view(r@);
        lemma_values_view(xs@);
        assert(values_view(r@) =~= values_view(xs@));
    }
    r
}

fn clone_entries(xs: &Vec<(String, Value)>) -> (r: Vec<(String, Value)>)
    ensures
        entries_view(r@) == entries_view(xs@),
    decreases xs,
{
    let mut r: Vec<(String, Value)> = Vec::new();
    let mut i: usize = 0;
    while i < xs.len()
        invariant
            i <= xs.len(),
            r@.len() == i,
            forall|j: int| 0 <= j < i ==> #[trigger] r@[j].0@ == xs@[j].0@ && r@[j].1@ == xs@[j].1@,
        decreases xs.len() - i,
    {
        let k = xs[i].0.clone();
        let v = xs[i].1.clone();
        r.push((k, v));
        i = i + 1;
    }
    proof {
        lemma_entries_view(r@);
        lemma_entries_view(xs@);
        assert(entries_view(r@) =~= entries_view(xs@));
    }
    r
}

// ---------------------------------------------------------------------------
// Kinds of values.
// ---------------------------------------------------------------------------

impl Value {
    pub fn is_null(&self) -> (r: bool)
        ensures
            r == (self@ is Null),
    {
        proof {
            lemma_value_view_cases(*self);
        }
        match self {
            Value::Null => true,
            _ => false,
        }
    }

    pub fn is_bool(&self) -> (r: bool)
        ensures
            r == (self@ is Bool),
    {
        proof {
            lemma_value_view_cases(*self);
        }
        match self {
            Value::Bool(_) => true,
            _ => false,
        }
    }

    pub fn is_int(&self) -> (r: bool)
        ensures
            r == (self@ is Int),
    {
        proof {
            lemma_value_view_cases(*self);
        }
        match self {
            Value::Int(_) => true,
            _ => false,
        }
    }

    pub fn is_float(&self) -> (r: bool)
        ensures
            r == (self@ is Float),
    {
        proof {
            lemma_value_view_cases(*self);
        }
        match self {
            Value::Float(_) => true,
            _ => false,
        }
    }

    pub fn is_string(&self) -> (r: bool)
        ensures
            r == (self@ is Str),
    {
        proof {
            lemma_value_view_cases(*self);
        }
        match self {
            Value::String(_) => true,
            _ => false,
        }
    }

    pub fn is_list(&self) -> (r: bool)
        ensures
            r == (self@ is List),
    {
        proof {
            lemma_value_view_cases(*self);
        }
        match self {
            Value::List(_) => true,
            _ => false,
        }
    }

    pub fn is_map(&self) -> (r: bool)
        ensures
            r == (self@ is Object),
    {
        proof {
            lemma_value_view_cases(*self);
        }
        match self {
            Value::Object(_) => true,
            _ => false,
        }
    }

    /// The map, when the value is one.
    pub fn as_map(&self) -> (r: Option<&ValueMap>)
        ensures
            r is Some == (self@ is Object),
            r matches Some(m) ==> self@ == ValueView::Object(m@),
    {
        proof {
            lemma_value_view_cases(*self);
        }
        match self {
            Value::Object(m) => Some(m),
            _ => None,
        }
    }

    /// The items, when the value is a list.
    pub fn as_list(&self) -> (r: Option<&Vec<Value>>)
        ensures
            r is Some == (self@ is List),
            r matches Some(xs) ==> self@ == ValueView::List(values_view(xs@)),
    {
        proof {
            lemma_value_view_cases(*self);
        }
        match self {
            Value::List(xs) => Some(xs),
            _ => None,
        }
    }
}

// ---------------------------------------------------------------------------
// Maps of values.
// ---------------------------------------------------------------------------

/// The keys of a sequence of entries are strictly increasing.
pub open spec fn keys_sorted(s: Seq<(Seq<char>, ValueView)>) -> bool {
    forall|i: int, j: int| 0 <= i < j < s.len() ==> chars_order(#[trigger] s[i].0, #[trigger] s[j].0) < 0
}

/// The key `k` is the key of some entry.
pub open spec fn has_key(s: Seq<(Seq<char>, ValueView)>, k: Seq<char>) -> bool {
    exists|i: int| 0 <= i < s.len() && #[trigger] s[i].0 == k
}

/// The position of an entry with key `k`.
pub open spec fn key_index(s: Seq<(Seq<char>, ValueView)>, k: Seq<char>) -> int {
    choose|i: int| 0 <= i < s.len() && #[trigger] s[i].0 == k
}

/// The map that a sequence of entries with distinct keys stands for.
pub open spec fn entries_map(s: Seq<(Seq<char>, ValueView)>) -> Map<Seq<char>, ValueView> {
    Map::new(|k: Seq<char>| has_key(s, k), |k: Seq<char>| s[key_index(s, k)].1)
}

pub proof fn lemma_sorted_keys_distinct(s: Seq<(Seq<char>, ValueView)>, i: int, j: int)
    requires
        keys_sorted(s),
        0 <= i < s.len(),
        0 <= j < s.len(),
        s[i].0 == s[j].0,
    ensures
        i == j,
{
    if i < j {
        lemma_chars_order(s[i].0, s[j].0, s[j].0);
    } else if j < i {
        lemma_chars_order(s[j].0, s[i].0, s[i].0);
    }
}

pub proof fn lemma_entries_map_at(s: Seq<(Seq<char>, ValueView)>, i: int)
    requires
        keys_sorted(s),
        0 <= i < s.len(),
    ensures
        entries_map(s).contains_key(s[i].0),
        entries_map(s)[s[i].0] == s[i].1,
{
    let k = s[i].0;
    assert(has_key(s, k));
    let j = key_index(s, k);
    lemma_sorted_keys_distinct(s, i, j);
}

/// The sorted entries that stand for a map (there is at most one such
/// sequence, see [`lemma_sorted_entries_unique`]).
pub open spec fn sorted_entries(m: Map<Seq<char>, ValueView>) -> Seq<(Seq<char>, ValueView)> {
    choose|es: Seq<(Seq<char>, ValueView)>| keys_sorted(es) && entries_map(es) == m
}

/// The first entry of sorted entries is left out of the map of the rest.
proof fn lemma_entries_map_drop_first(a: Seq<(Seq<char>, ValueView)>)
    requires
        keys_sorted(a),
        a.len() > 0,
    ensures
        keys_sorted(a.drop_first()),
        entries_map(a.drop_first()) == entries_map(a).remove(a[0].0),
{
    let t = a.drop_first();
    assert forall|i: int, j: int| 0 <= i < j < t.len() implies chars_order(#[trigger] t[i].0, #[trigger] t[j].0) < 0 by {
        assert(t[i] == a[i + 1] && t[j] == a[j + 1]);
    }
    assert forall|k: Seq<char>| #[trigger] has_key(t, k) == (has_key(a, k) && k != a[0].0) by {
        if has_key(t, k) {
            let i = choose|i: int| 0 <= i < t.len() && #[trigger] t[i].0 == k;
            assert(a[i + 1].0 == k);
            lemma_chars_order(a[0].0, a[i + 1].0, a[i + 1].0);
        }
        if has_key(a, k) && k != a[0].0 {
            let i = choose|i: int| 0 <= i < a.len() && #[trigger] a[i].0 == k;
            assert(i > 0);
            assert(t[i - 1].0 == k);
        }
    }
    assert forall|k: Seq<char>| has_key(t, k) implies #[trigger] entries_map(t)[k] == entries_map(a)[k] by {
        let i = choose|i: int| 0 <= i < t.len() && #[trigger] t[i].0 == k;
        lemma_entries_map_at(t, i);
        lemma_entries_map_at(a, i + 1);
        assert(t[i] == a[i + 1]);
    }
    assert(entries_map(t) =~= entries_map(a).remove(a[0].0));
}

/// Two sorted sequences of entries that stand for the same map are equal.
pub proof fn lemma_sorted_entries_unique(a: Seq<(Seq<char>, ValueView)>, b: Seq<(Seq<char>, ValueView)>)
    requires
        keys_sorted(a),
        keys_sorted(b),
        entries_map(a) == entries_map(b),
    ensures
        a == b,
    decreases a.len(),
{
    if a.len() == 0 {
        if b.len() > 0 {
            lemma_entries_map_at(b, 0);
            assert(!has_key(a, b[0].0));
        }
        assert(a =~= b);
    } else {
        lemma_entries_map_at(a, 0);
        if b.len() == 0 {
            assert(!has_key(b, a[0].0));
        }
        lemma_entries_map_at(b, 0);
        let ka = a[0].0;
        let kb = b[0].0;
        assert(has_key(b, ka));
        assert(has_key(a, kb));
        let j = choose|j: int| 0 <= j < b.len() && #[trigger] b[j].0 == ka;
        let i = choose|i: int| 0 <= i < a.len() && #[trigger] a[i].0 == kb;
        if i > 0 && j > 0 {
            lemma_chars_order(ka, kb, ka);
        } else if i > 0 {
            lemma_sorted_keys_distinct(b, 0, j);
        } else if j > 0 {
            lemma_sorted_keys_distinct(a, 0, i);
        }
        assert(ka == kb);
        assert(a[0] == b[0]);
        lemma_entries_map_drop_first(a);
        lemma_entries_map_drop_first(b);
        lemma_sorted_entries_unique(a.drop_first(), b.drop_first());
        assert forall|k: int| 0 <= k < a.len() implies a[k] == b[k] by {
            if k > 0 {
                assert(a[k] == a.drop_first()[k - 1]);
                assert(b[k] == b.drop_first()[k - 1]);
            }
        }
        assert(a =~= b);
    }
}

/// The sorted entries with `(k, w)` put in: in place of an entry with key
/// `k`, or at the position that keeps the keys increasing.
pub open spec fn insert_sorted(es: Seq<(Seq<char>, ValueView)>, k: Seq<char>, w: ValueView) -> Seq<(Seq<char>, ValueView)>
    decreases es.len(),
{
    if es.len() == 0 {
        seq![(k, w)]
    } else if chars_order(es[0].0, k) < 0 {
        seq![es[0]] + insert_sorted(es.drop_first(), k, w)
    } else if es[0].0 == k {
        seq![(k, w)] + es.drop_first()
    } else {
        seq![(k, w)] + es
    }
}

/// Putting an entry into sorted entries keeps them sorted and puts the
/// entry into their map.
pub proof fn lemma_insert_sorted(es: Seq<(Seq<char>, ValueView)>, k: Seq<char>, w: ValueView)
    requires
        keys_sorted(es),
    ensures
        keys_sorted(insert_sorted(es, k, w)),
        entries_map(insert_sorted(es, k, w)) == entries_map(es).insert(k, w),
        forall|i: int|
            0 <= i < insert_sorted(es, k, w).len() ==> #[trigger] insert_sorted(es, k, w)[i].0 == k || has_key(
                es,
                insert_sorted(es, k, w)[i].0,
            ),
    decreases es.len(),
{
    let r = insert_sorted(es, k, w);
    if es.len() == 0 {
        assert(entries_map(r) =~= entries_map(es).insert(k, w)) by {
            assert(r[0] == (k, w));
            lemma_entries_map_at(r, 0);
        }
    } else {
        lemma_entries_map_drop_first(es);
        let t = es.drop_first();
        lemma_chars_order(es[0].0, k, k);
        if chars_order(es[0].0, k) < 0 {
            lemma_insert_sorted(t, k, w);
            let r1 = insert_sorted(t, k, w);
            assert(r =~= seq![es[0]] + r1);
            assert forall|i: int| 0 <= i < r1.len() implies chars_order(es[0].0, #[trigger] r1[i].0) < 0 by {
                if r1[i].0 != k {
                    let j = choose|j: int| 0 <= j < t.len() && #[trigger] t[j].0 == r1[i].0;
                    assert(t[j] == es[j + 1]);
                }
            }
            assert forall|a: int, b: int| 0 <= a < b < r.len() implies chars_order(#[trigger] r[a].0, #[trigger] r[b].0) < 0 by {
                if a == 0 {
                    assert(r[b] == r1[b - 1]);
                } else {
                    assert(r[a] == r1[a - 1] && r[b] == r1[b - 1]);
                }
            }
            lemma_entries_map_drop_first(r);
            assert(r.drop_first() =~= r1);
            lemma_entries_map_at(r, 0);
            lemma_entries_map_at(es, 0);
            assert(entries_map(r) =~= entries_map(es).insert(k, w)) by {
                assert forall|x: Seq<char>| #[trigger] entries_map(r).contains_key(x) == entries_map(es).insert(k, w).contains_key(x) by {
                    if x == es[0].0 {
                    } else {
                        assert(entries_map(r).remove(es[0].0).contains_key(x) == entries_map(r).contains_key(x));
                        assert(entries_map(es).remove(es[0].0).contains_key(x) == entries_map(es).contains_key(x));
                    }
                }
                assert forall|x: Seq<char>| #[trigger] entries_map(r).contains_key(x) implies entries_map(r)[x] == entries_map(es).insert(k, w)[x] by {
                    if x != es[0].0 {
                        assert(entries_map(r).remove(es[0].0)[x] == entries_map(r)[x]);
                        assert(entries_map(es).remove(es[0].0)[x] == entries_map(es)[x]);
                    }
                }
            }
            assert forall|i: int| 0 <= i < r.len() implies #[trigger] r[i].0 == k || has_key(es, r[i].0) by {
                if i == 0 {
                    assert(es[0].0 == r[0].0);
                } else {
                    assert(r[i] == r1[i - 1]);
                    if r1[i - 1].0 != k {
                        let j = choose|j: int| 0 <= j < t.len() && #[trigger] t[j].0 == r1[i - 1].0;
                        assert(es[j + 1].0 == r[i].0);
                    }
                }
            }
        } else {
            if es[0].0 == k {
                assert(r == seq![(k, w)] + t);
                assert forall|a: int, b: int| 0 <= a < b < r.len() implies chars_order(#[trigger] r[a].0, #[trigger] r[b].0) < 0 by {
                    assert(r[b] == es[b]);
                    if a > 0 {
                        assert(r[a] == es[a]);
                    }
                }
                assert forall|i: int| 0 <= i < r.len() implies #[trigger] r[i].0 == k || has_key(es, r[i].0) by {
                    if i > 0 {
                        assert(r[i] == es[i]);
                    }
                }
            } else {
                assert(r == seq![(k, w)] + es);
                assert forall|a: int, b: int| 0 <= a < b < r.len() implies chars_order(#[trigger] r[a].0, #[trigger] r[b].0) < 0 by {
                    assert(r[b] == es[b - 1]);
                    if a > 0 {
                        assert(r[a] == es[a - 1]);
                    } else if b > 1 {
                        lemma_chars_order(k, es[0].0, es[b - 1].0);
                    }
                }
                assert forall|i: int| 0 <= i < r.len() implies #[trigger] r[i].0 == k || has_key(es, r[i].0) by {
                    if i > 0 {
                        assert(r[i] == es[i - 1]);
                    }
                }
            }
            lemma_entries_map_drop_first(r);
            lemma_entries_map_at(r, 0);
            assert(entries_map(r) =~= entries_map(es).insert(k, w)) by {
                if es[0].0 == k {
                    assert(r.drop_first() =~= t);
                    assert forall|x: Seq<char>| #[trigger] entries_map(r).contains_key(x) == entries_map(es).insert(k, w).contains_key(x) by {
                        if x != k {
                            assert(entries_map(r).remove(k).contains_key(x) == entries_map(r).contains_key(x));
                            assert(entries_map(es).remove(k).contains_key(x) == entries_map(es).contains_key(x));
                        }
                    }
                    assert forall|x: Seq<char>| #[trigger] entries_map(r).contains_key(x) implies entries_map(r)[x] == entries_map(es).insert(k, w)[x] by {
                        if x != k {
                            assert(entries_map(r).remove(k)[x] == entries_map(r)[x]);
                            assert(entries_map(es).remove(k)[x] == entries_map(es)[x]);
                        }
                    }
                } else {
                    assert(r.drop_first() =~= es);
                    assert forall|x: Seq<char>| #[trigger] entries_map(r).contains_key(x) == entries_map(es).insert(k, w).contains_key(x) by {
                        if x != k {
                            assert(entries_map(r).remove(k).contains_key(x) == entries_map(r).contains_key(x));
                        }
                    }
                    assert forall|x: Seq<char>| #[trigger] entries_map(r).contains_key(x) implies entries_map(r)[x] == entries_map(es).insert(k, w)[x] by {
                        if x != k {
                            assert(entries_map(r).remove(k)[x] == entries_map(r)[x]);
                        }
                    }
                }
            }
        }
    }
}

/// Sorted entries are the sorted entries of their map.
pub proof fn lemma_sorted_entries_of(es: Seq<(Seq<char>, ValueView)>)
    requires
        keys_sorted(es),
    ensures
        sorted_entries(entries_map(es)) == es,
{
    let m = entries_map(es);
    assert(keys_sorted(es) && entries_map(es) == m);
    let c = sorted_entries(m);
    lemma_sorted_entries_unique(c, es);
}

impl ValueMap {
    #[verifier::type_invariant]
    closed spec fn sorted(&self) -> bool {
        keys_sorted(entries_view(self.entries@))
    }

    /// Creates an empty map.
    pub fn new() -> (r: ValueMap)
        ensures
            r@ == Seq::<(Seq<char>, ValueView)>::empty(),
    {
        let r = ValueMap { entries: Vec::new() };
        proof {
            lemma_entries_view(r.entries@);
            assert(entries_view(r.entries@) =~= Seq::<(Seq<char>, ValueView)>::empty());
        }
        r
    }

    /// Returns the number of entries.
    pub fn len(&self) -> (r: usize)
        ensures
            r == self@.len(),
            keys_sorted(self@),
    {
        proof {
            use_type_invariant(self);
            lemma_entries_view(self.entries@);
        }
        self.entries.len()
    }

    /// Returns true if the map has no entries.
    pub fn is_empty(&self) -> (r: bool)
        ensures
            r == (self@.len() == 0),
    {
        proof {
            lemma_entries_view(self.entries@);
        }
        self.entries.len() == 0
    }

    /// Returns the key and value of the `i`-th entry in key order.
    pub fn entry_at(&self, i: usize) -> (r: (&String, &Value))
        requires
            i < self@.len(),
        ensures
            (r.0@, r.1@) == self@[i as int],
    {
        proof {
            lemma_entries_view(self.entries@);
        }
        (&self.entries[i].0, &self.entries[i].1)
    }

    /// Finds the position of `key`, or the position where it would be
    /// inserted to keep the keys sorted.
    fn locate(&self, key: &str) -> (r: (usize, bool))
        ensures
            r.0 <= self@.len(),
            r.1 ==> r.0 < self@.len() && self@[r.0 as int].0 == key@,
            forall|j: int| 0 <= j < r.0 ==> chars_order(#[trigger] self@[j].0, key@) < 0,
            !r.1 ==> forall|j: int| r.0 <= j < self@.len() ==> chars_order(key@, #[trigger] self@[j].0) < 0,
    {
        proof {
            use_type_invariant(self);
            lemma_entries_view(self.entries@);
        }
        let ghost s = self@;
        let mut i: usize = 0;
        while i < self.entries.len()
            invariant
                s == self@,
                s.len() == self.entries@.len(),
                keys_sorted(s),
                i <= s.len(),
                forall|j: int| 0 <= j < i ==> chars_order(#[trigger] s[j].0, key@) < 0,
                forall|j: int| 0 <= j < s.len() ==> #[trigger] s[j] == (self.entries@[j].0@, self.entries@[j].1@),
            decreases s.len() - i,
        {
            let c = compare_str(self.entries[i].0.as_str(), key);
            if c == 0 {
                proof {
                    lemma_chars_order(s[i as int].0, key@, key@);
                }
                return (i, true);
            }
            if c > 0 {
                proof {
                    assert forall|j: int| i <= j < s.len() implies chars_order(key@, #[trigger] s[j].0) < 0 by {
                        lemma_chars_order(s[i as int].0, key@, key@);
                        if j > i {
                            lemma_chars_order(key@, s[i as int].0, s[j].0);
                            lemma_chars_order(s[i as int].0, s[j].0, s[j].0);
                        }
                    }
                }
                return (i, false);
            }
            i = i + 1;
        }
        (i, false)
    }

    /// Returns the value stored under `key`, if any.
    pub fn get(&self, key: &str) -> (r: Option<&Value>)
        ensures
            r is Some == entries_map(self@).contains_key(key@),
            r matches Some(v) ==> v@ == entries_map(self@)[key@],
    {
        proof {
            use_type_invariant(self);
            lemma_entries_view(self.entries@);
        }
        let (i, found) = self.locate(key);
        if found {
            proof {
                lemma_entries_map_at(self@, i as int);
            }
            Some(&self.entries[i].1)
        } else {
            proof {
                if has_key(self@, key@) {
                    let j = choose|j: int| 0 <= j < self@.len() && #[trigger] self@[j].0 == key@;
                    if j < i {
                        lemma_chars_order(key@, key@, key@);
                    } else {
                        lemma_chars_order(key@, key@, key@);
                    }
                }
            }
            None
        }
    }

    /// Returns true if the map has an entry for `key`.
    pub fn has(&self, key: &str) -> (r: bool)
        ensures
            r == entries_map(self@).contains_key(key@),
    {
        self.get(key).is_some()
    }

    /// Stores `value` under `key`, replacing any previous value.
    pub fn set(&mut self, key: String, value: Value)
        ensures
            entries_map(final(self)@) == entries_map(old(self)@).insert(key@, value@),
            final(self)@ == insert_sorted(old(self)@, key@, value@),
    {
        proof {
            use_type_invariant(&*self);
            lemma_entries_view(self.entries@);
        }
        let ghost s0 = self@;
        let ghost kv = key@;
        let ghost vv = value@;
        let (i, found) = self.locate(key.as_str());
        let mut entries = Vec::new();
        std::mem::swap(&mut entries, &mut self.entries);
        let ghost e0 = entries@;
        if found {
            entries.set(i, (key, value));
        } else {
            entries.insert(i, (key, value));
        }
        proof {
            lemma_entries_view(entries@);
            let s1 = entries_view(entries@);
            if found {
                assert forall|j: int| 0 <= j < s1.len() implies #[trigger] s1[j] == (if j == i { (kv, vv) } else { s0[j] }) by {}
            } else {
                assert forall|j: int| 0 <= j < s1.len() implies #[trigger] s1[j] == (if j < i { s0[j] } else if j == i { (kv, vv) } else { s0[j - 1] }) by {}
            }
            assert forall|a: int, b: int| 0 <= a < b < s1.len() implies chars_order(#[trigger] s1[a].0, #[trigger] s1[b].0) < 0 by {
                if found {
                    if a == i {
                        lemma_chars_order(s0[a].0, s0[b].0, s0[b].0);
                    } else if b == i {
                        lemma_chars_order(s0[a].0, s0[b].0, s0[b].0);
                    }
                } else {
                    if a < i && b == i {
                    } else if a < i && b > i {
                        lemma_chars_order(s0[a].0, kv, s0[b - 1].0);
                    } else if a == i {
                    } else if a > i {
                    }
                }
            }
            let m0 = entries_map(s0);
            let m1 = entries_map(s1);
            assert forall|k: Seq<char>| m1.contains_key(k) <==> m0.insert(kv, vv).contains_key(k) by {
                if m0.contains_key(k) {
                    let j = choose|j: int| 0 <= j < s0.len() && #[trigger] s0[j].0 == k;
                    if found {
                        assert(s1[j].0 == k);
                    } else if j < i {
                        assert(s1[j].0 == k);
                    } else {
                        assert(s1[j + 1].0 == k);
                    }
                }
                if m1.contains_key(k) && k != kv {
                    let j = choose|j: int| 0 <= j < s1.len() && #[trigger] s1[j].0 == k;
                    if found {
                        assert(s0[j].0 == k);
                    } else if j < i {
                        assert(s0[j].0 == k);
                    } else {
                        assert(s0[j - 1].0 == k);
                    }
                }
                assert(s1[i as int].0 == kv);
            }
            assert forall|k: Seq<char>| #[trigger] m1.contains_key(k) implies m1[k] == m0.insert(kv, vv)[k] by {
                let j = key_index(s1, k);
                lemma_entries_map_at(s1, j);
                if k == kv {
                    lemma_sorted_keys_distinct(s1, j, i as int);
                } else {
                    if found {
                        lemma_entries_map_at(s0, j);
                    } else if j < i {
                        lemma_entries_map_at(s0, j);
                    } else {
                        lemma_entries_map_at(s0, j - 1);
                    }
                }
            }
            assert(m1 =~= m0.insert(kv, vv));
            lemma_insert_sorted(s0, kv, vv);
            lemma_sorted_entries_unique(s1, insert_sorted(s0, kv, vv));
        }
        self.entries = entries;
    }
}

impl PartialEq for ValueMap {
    fn eq(&self, other: &ValueMap) -> (r: bool) {
        proof {
            lemma_entries_order_eq(self@, other@);
        }
        compare_entries(&self.entries, &other.entries) == 0
    }
}

impl vstd::std_specs::cmp::PartialEqSpecImpl for ValueMap {
    open spec fn obeys_eq_spec() -> bool {
        true
    }

    open spec fn eq_spec(&self, other: &ValueMap) -> bool {
        self@ == other@
    }
}

impl Eq for ValueMap {}

impl Clone for ValueMap {
    fn clone(&self) -> (r: ValueMap)
        ensures
            r@ == self@,
        decreases self,
    {
        proof {
            use_type_invariant(self);
        }
        ValueMap { entries: clone_entries(&self.entries) }
    }
}

// ---------------------------------------------------------------------------
// Keys of associative lists.
// ---------------------------------------------------------------------------

/// Inserts a field after the fields whose names are not greater than its
/// own.
pub open spec fn field_insert(acc: Seq<(Seq<char>, ValueView)>, e: (Seq<char>, ValueView)) -> Seq<(Seq<char>, ValueView)>
    decreases acc.len(),
{
    if acc.len() == 0 {
        seq![e]
    } else if chars_order(e.0, acc.last().0) >= 0 {
        acc.push(e)
    } else {
        field_insert(acc.drop_last(), e).push(acc.last())
    }
}

/// The fields ordered by name; fields of equal names keep their order.
pub open spec fn sort_fields(s: Seq<(Seq<char>, ValueView)>) -> Seq<(Seq<char>, ValueView)>
    decreases s.len(),
{
    if s.len() == 0 {
        Seq::empty()
    } else {
        field_insert(sort_fields(s.drop_last()), s.last())
    }
}

proof fn lemma_field_insert_len(acc: Seq<(Seq<char>, ValueView)>, e: (Seq<char>, ValueView))
    ensures
        field_insert(acc, e).len() == acc.len() + 1,
    decreases acc.len(),
{
    if acc.len() > 0 && chars_order(e.0, acc.last().0) < 0 {
        lemma_field_insert_len(acc.drop_last(), e);
    }
}

/// Sorting keeps the number of fields.
pub proof fn lemma_sort_fields_len(s: Seq<(Seq<char>, ValueView)>)
    ensures
        sort_fields(s).len() == s.len(),
    decreases s.len(),
{
    if s.len() > 0 {
        lemma_sort_fields_len(s.drop_last());
        lemma_field_insert_len(sort_fields(s.drop_last()), s.last());
    }
}

/// Inserts `f` into fields ordered by name, after those of names not
/// greater than its own.
fn insert_field(acc: &mut Vec<Field>, f: Field)
    ensures
        fields_view(final(acc)@) == field_insert(fields_view(old(acc)@), (f.name@, f.value@)),
{
    let ghost a = fields_view(acc@);
    let ghost e = (f.name@, f.value@);
    let mut p: usize = acc.len();
    proof {
        assert(a.take(p as int) =~= a);
        assert(a.skip(p as int) =~= Seq::<(Seq<char>, ValueView)>::empty());
        assert(field_insert(a, e) =~= field_insert(a.take(p as int), e) + a.skip(p as int));
    }
    while p > 0 && compare_str(f.name.as_str(), acc[p - 1].name.as_str()) < 0
        invariant
            p <= acc@.len(),
            a == fields_view(acc@),
            e == (f.name@, f.value@),
            field_insert(a, e) == field_insert(a.take(p as int), e) + a.skip(p as int),
        decreases p,
    {
        proof {
            let t = a.take(p as int);
            assert(t.last() == a[p - 1]);
            assert(a[p - 1] == (acc@[p - 1].name@, acc@[p - 1].value@));
            assert(t.drop_last() =~= a.take(p - 1));
            assert(field_insert(t, e) == field_insert(a.take(p - 1), e).push(a[p - 1]));
            assert(field_insert(a.take(p - 1), e).push(a[p - 1]) + a.skip(p as int) =~= field_insert(a.take(p - 1), e)
                + a.skip(p - 1));
        }
        p = p - 1;
    }
    proof {
        if p > 0 {
            let t = a.take(p as int);
            assert(t.last() == a[p - 1]);
            assert(a[p - 1] == (acc@[p - 1].name@, acc@[p - 1].value@));
            assert(field_insert(t, e) == t.push(e));
        } else {
            assert(a.take(0) =~= Seq::<(Seq<char>, ValueView)>::empty());
        }
    }
    acc.insert(p, f);
    proof {
        assert(fields_view(acc@) =~= a.take(p as int).push(e) + a.skip(p as int));
    }
}

impl FieldList {
    /// Creates a field list from the given fields, ordered by name (fields
    /// of equal names keep their order).
    pub fn with_fields(fields: Vec<Field>) -> (r: FieldList)
        ensures
            r@ == sort_fields(fields_view(fields@)),
    {
        let ghost v = fields_view(fields@);
        let mut sorted: Vec<Field> = Vec::new();
        let n = fields.len();
        let mut i: usize = 0;
        proof {
            assert(fields_view(sorted@) =~= sort_fields(v.take(0)));
        }
        while i < n
            invariant
                i <= n,
                n == fields@.len(),
                v == fields_view(fields@),
                fields_view(sorted@) == sort_fields(v.take(i as int)),
            decreases n - i,
        {
            let f = fields[i].clone();
            proof {
                assert(v.take(i + 1).drop_last() =~= v.take(i as int));
                assert(v.take(i + 1).last() == (f.name@, f.value@));
            }
            insert_field(&mut sorted, f);
            i = i + 1;
        }
        proof {
            assert(v.take(n as int) =~= v);
        }
        FieldList { fields: sorted }
    }

    /// Compares two field lists lexicographically (by name, then value).
    pub fn compare(&self, other: &FieldList) -> (r: i8)
        ensures
            r as int == entries_order(self@, other@),
    {
        let ghost va = self@;
        let ghost vb = other@;
        proof {
            assert(va.skip(0) =~= va);
            assert(vb.skip(0) =~= vb);
        }
        let mut i: usize = 0;
        while i < self.fields.len() && i < other.fields.len()
            invariant
                va == self@,
                vb == other@,
                i <= self.fields.len(),
                i <= other.fields.len(),
                entries_order(va, vb) == entries_order(va.skip(i as int), vb.skip(i as int)),
            decreases self.fields.len() - i,
        {
            let c = compare_str(self.fields[i].name.as_str(), other.fields[i].name.as_str());
            proof {
                lemma_entries_order_step(va, vb, i as int);
            }
            if c != 0 {
                return c;
            }
            let d = self.fields[i].value.compare(&other.fields[i].value);
            if d != 0 {
                return d;
            }
            i = i + 1;
        }
        if i == self.fields.len() && i == other.fields.len() {
            0
        } else if i == self.fields.len() {
            -1
        } else {
            1
        }
    }
}

impl PartialEq for FieldList {
    fn eq(&self, other: &FieldList) -> (r: bool) {
        proof {
            lemma_entries_order_eq(self@, other@);
        }
        self.compare(other) == 0
    }
}

impl vstd::std_specs::cmp::PartialEqSpecImpl for FieldList {
    open spec fn obeys_eq_spec() -> bool {
        true
    }

    open spec fn eq_spec(&self, other: &FieldList) -> bool {
        self@ == other@
    }
}

impl Eq for FieldList {}

impl Clone for Field {
    fn clone(&self) -> (r: Field)
        ensures
            r.name@ == self.name@,
            r.value@ == self.value@,
    {
        Field { name: self.name.clone(), value: self.value.clone() }
    }
}

impl Clone for FieldList {
    fn clone(&self) -> (r: FieldList)
        ensures
            r@ == self@,
    {
        let mut fields: Vec<Field> = Vec::new();
        let mut i: usize = 0;
        while i < self.fields.len()
            invariant
                i <= self.fields.len(),
                fields@.len() == i,
                forall|j: int| 0 <= j < i ==> #[trigger] fields@[j].name@ == self.fields@[j].name@
                    && fields@[j].value@ == self.fields@[j].value@,
            decreases self.fields.len() - i,
        {
            fields.push(self.fields[i].clone());
            i = i + 1;
        }
        let r = FieldList { fields };
        assert(r@ =~= self@);
        r
    }
}

// ---------------------------------------------------------------------------
// JSON text.
// ---------------------------------------------------------------------------

/// The compact JSON text of a value: `null`, `true`, `false`, decimal
/// integers, a float's own text, string literals, and arrays and objects
/// with their items separated by commas and no spaces.
pub open spec fn json_text(v: ValueView) -> Seq<char>
    decreases v,
{
    match v {
        ValueView::Null => seq!['n', 'u', 'l', 'l'],
        ValueView::Bool(b) => if b {
            seq!['t', 'r', 'u', 'e']
        } else {
            seq!['f', 'a', 'l', 's', 'e']
        },
        ValueView::Int(i) => decimal(i),
        ValueView::Float(t) => t,
        ValueView::Str(s) => json_quoted(s),
        ValueView::List(xs) => seq!['['] + json_items(xs) + seq![']'],
        ValueView::Object(es) => seq!['{'] + json_members(es) + seq!['}'],
    }
}

/// The JSON texts of the values, separated by commas.
pub open spec fn json_items(xs: Seq<ValueView>) -> Seq<char>
    decreases xs,
{
    if xs.len() == 0 {
        Seq::empty()
    } else if xs.len() == 1 {
        json_text(xs[0])
    } else {
        json_items(xs.drop_last()) + seq![','] + json_text(xs.last())
    }
}

/// The members of a JSON object: each name as a string literal, a colon and
/// the value's text, separated by commas.
pub open spec fn json_members(es: Seq<(Seq<char>, ValueView)>) -> Seq<char>
    decreases es,
{
    if es.len() == 0 {
        Seq::empty()
    } else if es.len() == 1 {
        json_quoted(es[0].0) + seq![':'] + json_text(es[0].1)
    } else {
        json_members(es.drop_last()) + seq![','] + json_quoted(es.last().0) + seq![':'] + json_text(
            es.last().1,
        )
    }
}

impl Value {
    /// Appends the compact JSON text of the value.
    pub fn write_json(&self, out: &mut String)
        ensures
            final(out)@ == old(out)@ + json_text(self@),
        decreases self,
    {
        proof {
            lemma_value_view_cases(*self);
        }
        match self {
            Value::Null => push_str(out, "null"),
            Value::Bool(b) => {
                if *b {
                    push_str(out, "true");
                } else {
                    push_str(out, "false");
                }
            },
            Value::Int(i) => push_decimal(out, *i),
            Value::Float(t) => push_str(out, t.as_str()),
            Value::String(t) => {
                let q = json_quote(t.as_str());
                push_str(out, q.as_str());
            },
            Value::List(xs) => {
                push_char(out, '[');
                write_json_items(xs, out);
                push_char(out, ']');
            },
            Value::Object(m) => {
                push_char(out, '{');
                write_json_members(&m.entries, out);
                push_char(out, '}');
            },
        }
        proof {
            reveal_strlit("null");
            reveal_strlit("true");
            reveal_strlit("false");
            assert(final(out)@ =~= old(out)@ + json_text(self@));
        }
    }
}

fn write_json_items(xs: &Vec<Value>, out: &mut String)
    ensures
        final(out)@ == old(out)@ + json_items(values_view(xs@)),
    decreases xs,
{
    let ghost start = out@;
    let ghost vs = values_view(xs@);
    proof {
        lemma_values_view(xs@);
        assert(vs.take(0) =~= Seq::<ValueView>::empty());
    }
    let mut i: usize = 0;
    while i < xs.len()
        invariant
            i <= xs.len(),
            vs == values_view(xs@),
            vs.len() == xs@.len(),
            forall|j: int| 0 <= j < xs@.len() ==> #[trigger] vs[j] == xs@[j]@,
            out@ == start + json_items(vs.take(i as int)),
        decreases xs.len() - i,
    {
        let ghost before = out@;
        if i > 0 {
            push_char(out, ',');
        }
        xs[i].write_json(out);
        proof {
            let t = vs.take(i as int + 1);
            assert(t.drop_last() =~= vs.take(i as int));
            assert(t.last() == xs@[i as int]@);
            if i == 0 {
                assert(out@ =~= start + json_items(t));
            } else {
                assert(out@ =~= start + json_items(t));
            }
        }
        i = i + 1;
    }
    proof {
        assert(vs.take(xs@.len() as int) =~= vs);
    }
}

fn write_json_members(es: &Vec<(String, Value)>, out: &mut String)
    ensures
        final(out)@ == old(out)@ + json_members(entries_view(es@)),
    decreases es,
{
    let ghost start = out@;
    let ghost vs = entries_view(es@);
    proof {
        lemma_entries_view(es@);
        assert(vs.take(0) =~= Seq::<(Seq<char>, ValueView)>::empty());
    }
    let mut i: usize = 0;
    while i < es.len()
        invariant
            i <= es.len(),
            vs == entries_view(es@),
            vs.len() == es@.len(),
            forall|j: int| 0 <= j < es@.len() ==> #[trigger] vs[j] == (es@[j].0@, es@[j].1@),
            out@ == start + json_members(vs.take(i as int)),
        decreases es.len() - i,
    {
        if i > 0 {
            push_char(out, ',');
        }
        let q = json_quote(es[i].0.as_str());
        push_str(out, q.as_str());
        push_char(out, ':');
        es[i].1.write_json(out);
        proof {
            let t = vs.take(i as int + 1);
            assert(t.drop_last() =~= vs.take(i as int));
            assert(t.last() == (es@[i as int].0@, es@[i as int].1@));
            assert(out@ =~= start + json_members(t));
        }
        i = i + 1;
    }
    proof {
        assert(vs.take(es@.len() as int) =~= vs);
    }
}

impl ValueMap {
    /// Appends an entry whose key is greater than every key of the map.
    pub fn push_entry(&mut self, key: String, value: Value)
        requires
            old(self)@.len() == 0 || chars_order(old(self)@.last().0, key@) < 0,
        ensures
            final(self)@ == old(self)@.push((key@, value@)),
    {
        proof {
            use_type_invariant(&*self);
            lemma_entries_view(self.entries@);
        }
        let ghost s0 = self@;
        let ghost k = key@;
        let mut tmp = ValueMap::new();
        std::mem::swap(self, &mut tmp);
        let ValueMap { mut entries } = tmp;
        entries.push((key, value));
        proof {
            lemma_entries_view(entries@);
            let s1 = entries_view(entries@);
            assert(s1 =~= s0.push((k, value@)));
            assert forall|i: int, j: int| 0 <= i < j < s1.len() implies chars_order(#[trigger] s1[i].0, #[trigger] s1[j].0) < 0 by {
                if j == s0.len() && i < s0.len() - 1 {
                    lemma_chars_order(s0[i].0, s0.last().0, k);
                }
            }
        }
        *self = ValueMap { entries };
    }

    /// Returns the entries as a field list, in key order.
    pub fn to_field_list(&self) -> (r: FieldList)
        ensures
            r@ == self@,
    {
        let mut fields: Vec<Field> = Vec::new();
        let mut i: usize = 0;
        let n = self.len();
        while i < n
            invariant
                n == self@.len(),
                i <= n,
                fields@.len() == i,
                forall|j: int| 0 <= j < i ==> (#[trigger] fields@[j]).name@ == self@[j].0 && fields@[j].value@
                    == self@[j].1,
            decreases n - i,
        {
            let (k, v) = self.entry_at(i);
            fields.push(Field { name: k.clone(), value: v.clone() });
            i = i + 1;
        }
        let r = FieldList { fields };
        assert(r@ =~= self@);
        r
    }
}

impl ValueMap {
    /// Appends the compact JSON text of the map, as an object.
    pub fn write_json(&self, out: &mut String)
        ensures
            final(out)@ == old(out)@ + seq!['{'] + json_members(self@) + seq!['}'],
    {
        push_char(out, '{');
        write_json_members(&self.entries, out);
        push_char(out, '}');
        proof {
            assert(final(out)@ =~= old(out)@ + seq!['{'] + json_members(self@) + seq!['}']);
        }
    }
}

} // verus!
