//! Path elements and paths.

use crate::value::{
    chars_order, compare_str, entries_order, int_order, lemma_chars_order, lemma_entries_order_eq,
    lemma_entries_order_trans, lemma_value_order_eq, lemma_value_order_trans, value_order, FieldList,
    Value, ValueView,
};
use crate::debug_text::value_debug;
use crate::text::{decimal, push_char, push_decimal, push_str};
use vstd::prelude::*;

verus! {

/// Abstract model of a [`PathElement`].
pub enum PathElementView {
    FieldName(Seq<char>),
    Key(Seq<(Seq<char>, ValueView)>),
    Value(ValueView),
    Index(int),
}

/// One level of navigation in a path.
#[derive(Debug)]
pub enum PathElement {
    /// Field name for map/struct fields.
    FieldName(String),
    /// Key for associative lists (multi-field keys).
    Key(FieldList),
    /// Value for sets (scalar list elements).
    Value(Value),
    /// Index for array indices.
    Index(i32),
}

impl View for PathElement {
    type V = PathElementView;

    open spec fn view(&self) -> PathElementView {
        match self {
            PathElement::FieldName(s) => PathElementView::FieldName(s@),
            PathElement::Key(k) => PathElementView::Key(k@),
            PathElement::Value(v) => PathElementView::Value(v@),
            PathElement::Index(i) => PathElementView::Index(*i as int),
        }
    }
}

/// Position of an element's kind in the order: field names, keys, values,
/// indices.
pub open spec fn element_rank(e: PathElementView) -> int {
    match e {
        PathElementView::FieldName(_) => 0,
        PathElementView::Key(_) => 1,
        PathElementView::Value(_) => 2,
        PathElementView::Index(_) => 3,
    }
}

/// Three-way comparison of path elements: first by kind, then by content.
pub open spec fn element_order(a: PathElementView, b: PathElementView) -> int {
    if element_rank(a) != element_rank(b) {
        int_order(element_rank(a), element_rank(b))
    } else {
        match (a, b) {
            (PathElementView::FieldName(x), PathElementView::FieldName(y)) => chars_order(x, y),
            (PathElementView::Key(x), PathElementView::Key(y)) => entries_order(x, y),
            (PathElementView::Value(x), PathElementView::Value(y)) => value_order(x, y),
            (PathElementView::Index(x), PathElementView::Index(y)) => int_order(x, y),
            _ => 0,
        }
    }
}

/// The element order is antisymmetric and is zero exactly on equal elements.
pub proof fn lemma_element_order_eq(a: PathElementView, b: PathElementView)
    ensures
        -1 <= element_order(a, b) <= 1,
        element_order(a, b) == -element_order(b, a),
        element_order(a, b) == 0 <==> a == b,
{
    match (a, b) {
        (PathElementView::FieldName(x), PathElementView::FieldName(y)) => {
            lemma_chars_order(x, y, y);
        },
        (PathElementView::Key(x), PathElementView::Key(y)) => {
            lemma_entries_order_eq(x, y);
        },
        (PathElementView::Value(x), PathElementView::Value(y)) => {
            lemma_value_order_eq(x, y);
        },
        _ => {},
    }
}

/// The element order is transitive.
pub proof fn lemma_element_order_trans(a: PathElementView, b: PathElementView, c: PathElementView)
    requires
        element_order(a, b) < 0,
        element_order(b, c) < 0,
    ensures
        element_order(a, c) < 0,
{
    lemma_element_order_eq(a, b);
    lemma_element_order_eq(b, c);
    lemma_element_order_eq(a, c);
    match (a, b, c) {
        (PathElementView::FieldName(x), PathElementView::FieldName(y), PathElementView::FieldName(z)) => {
            lemma_chars_order(x, y, z);
        },
        (PathElementView::Key(x), PathElementView::Key(y), PathElementView::Key(z)) => {
            lemma_entries_order_trans(x, y, z);
        },
        (PathElementView::Value(x), PathElementView::Value(y), PathElementView::Value(z)) => {
            lemma_value_order_trans(x, y, z);
        },
        _ => {},
    }
}

impl PathElement {
    /// Creates a field name path element.
    pub fn field_name(name: &str) -> (r: PathElement)
        ensures
            r@ == PathElementView::FieldName(name@),
    {
        PathElement::FieldName(String::from_str(name))
    }

    /// Creates a key path element.
    pub fn key(fields: FieldList) -> (r: PathElement)
        ensures
            r@ == PathElementView::Key(fields@),
    {
        PathElement::Key(fields)
    }

    /// Creates a value path element.
    pub fn value(v: Value) -> (r: PathElement)
        ensures
            r@ == PathElementView::Value(v@),
    {
        PathElement::Value(v)
    }

    /// Creates an index path element.
    pub fn index(i: i32) -> (r: PathElement)
        ensures
            r@ == PathElementView::Index(i as int),
    {
        PathElement::Index(i)
    }

    /// Returns true if this is a field name element.
    pub fn is_field_name(&self) -> (r: bool)
        ensures
            r == (self@ is FieldName),
    {
        match self {
            PathElement::FieldName(_) => true,
            _ => false,
        }
    }

    /// Returns the field name if this is a field name element.
    pub fn as_field_name(&self) -> (r: Option<&str>)
        ensures
            match self@ {
                PathElementView::FieldName(n) => r matches Some(s) && s@ == n,
                _ => r is None,
            },
    {
        match self {
            PathElement::FieldName(name) => Some(name.as_str()),
            _ => None,
        }
    }

    /// Compares two path elements in the element order: -1, 0 or 1.
    pub fn compare(&self, other: &PathElement) -> (r: i8)
        ensures
            r as int == element_order(self@, other@),
    {
        match (self, other) {
            (PathElement::FieldName(a), PathElement::FieldName(b)) => compare_str(a.as_str(), b.as_str()),
            (PathElement::Key(a), PathElement::Key(b)) => a.compare(b),
            (PathElement::Value(a), PathElement::Value(b)) => a.compare(b),
            (PathElement::Index(a), PathElement::Index(b)) => {
                if *a < *b {
                    -1
                } else if *a == *b {
                    0
                } else {
                    1
                }
            },
            _ => {
                let ra = self.kind_rank();
                let rb = other.kind_rank();
                if ra < rb {
                    -1
                } else {
                    1
                }
            },
        }
    }

    fn kind_rank(&self) -> (r: u8)
        ensures
            r as int == element_rank(self@),
    {
        match self {
            PathElement::FieldName(_) => 0,
            PathElement::Key(_) => 1,
            PathElement::Value(_) => 2,
            PathElement::Index(_) => 3,
        }
    }
}

impl PartialEq for PathElement {
    fn eq(&self, other: &PathElement) -> (r: bool) {
        proof {
            lemma_element_order_eq(self@, other@);
        }
        self.compare(other) == 0
    }
}

impl vstd::std_specs::cmp::PartialEqSpecImpl for PathElement {
    open spec fn obeys_eq_spec() -> bool {
        true
    }

    open spec fn eq_spec(&self, other: &PathElement) -> bool {
        self@ == other@
    }
}

impl Eq for PathElement {}

impl Clone for PathElement {
    fn clone(&self) -> (r: PathElement)
        ensures
            r@ == self@,
    {
        match self {
            PathElement::FieldName(s) => PathElement::FieldName(s.clone()),
            PathElement::Key(k) => PathElement::Key(k.clone()),
            PathElement::Value(v) => PathElement::Value(v.clone()),
            PathElement::Index(i) => PathElement::Index(*i),
        }
    }
}

/// The ordering that a three-way comparison result stands for.
pub open spec fn ordering_of(c: int) -> core::cmp::Ordering {
    if c < 0 {
        core::cmp::Ordering::Less
    } else if c == 0 {
        core::cmp::Ordering::Equal
    } else {
        core::cmp::Ordering::Greater
    }
}

impl PartialOrd for PathElement {
    fn partial_cmp(&self, other: &PathElement) -> (r: Option<core::cmp::Ordering>) {
        let c = self.compare(other);
        if c < 0 {
            Some(core::cmp::Ordering::Less)
        } else if c == 0 {
            Some(core::cmp::Ordering::Equal)
        } else {
            Some(core::cmp::Ordering::Greater)
        }
    }
}

impl vstd::std_specs::cmp::PartialOrdSpecImpl for PathElement {
    open spec fn obeys_partial_cmp_spec() -> bool {
        true
    }

    open spec fn partial_cmp_spec(&self, other: &PathElement) -> Option<core::cmp::Ordering> {
        Some(ordering_of(element_order(self@, other@)))
    }
}

/// A complete path to a nested field: a sequence of path elements.
#[derive(Debug)]
pub struct Path {
    elements: Vec<PathElement>,
}

/// The models of a sequence of path elements.
pub open spec fn elements_view(xs: Seq<PathElement>) -> Seq<PathElementView> {
    xs.map_values(|e: PathElement| e@)
}

impl View for Path {
    type V = Seq<PathElementView>;

    closed spec fn view(&self) -> Seq<PathElementView> {
        elements_view(self.elements@)
    }
}

impl Path {
    /// Creates an empty path.
    pub fn new() -> (r: Path)
        ensures
            r@ == Seq::<PathElementView>::empty(),
    {
        let r = Path { elements: Vec::new() };
        assert(r@ =~= Seq::<PathElementView>::empty());
        r
    }

    /// Creates a path from a vector of elements.
    pub fn from_elements(elements: Vec<PathElement>) -> (r: Path)
        ensures
            r@ == elements_view(elements@),
    {
        Path { elements }
    }

    /// Returns the number of elements in the path.
    pub fn len(&self) -> (r: usize)
        ensures
            r == self@.len(),
    {
        self.elements.len()
    }

    /// Returns true if the path is empty.
    pub fn is_empty(&self) -> (r: bool)
        ensures
            r == (self@.len() == 0),
    {
        self.elements.len() == 0
    }

    /// Returns the elements of the path.
    pub fn as_slice(&self) -> (r: &[PathElement])
        ensures
            elements_view(r@) == self@,
    {
        self.elements.as_slice()
    }

    /// Returns the `i`-th element of the path.
    pub fn element_at(&self, i: usize) -> (r: &PathElement)
        requires
            i < self@.len(),
        ensures
            r@ == self@[i as int],
    {
        &self.elements[i]
    }

    /// Appends a path element.
    pub fn push(&mut self, element: PathElement)
        ensures
            final(self)@ == old(self)@.push(element@),
    {
        self.elements.push(element);
        assert(self@ =~= old(self)@.push(element@));
    }

    /// Removes and returns the last path element.
    pub fn pop(&mut self) -> (r: Option<PathElement>)
        ensures
            old(self)@.len() == 0 ==> r is None && final(self)@ == old(self)@,
            old(self)@.len() > 0 ==> (r matches Some(e) && e@ == old(self)@.last() && final(self)@
                == old(self)@.drop_last()),
    {
        let r = self.elements.pop();
        proof {
            if old(self)@.len() > 0 {
                assert(self@ =~= old(self)@.drop_last());
            } else {
                assert(self@ =~= old(self)@);
            }
        }
        r
    }

    /// Returns the last path element.
    pub fn last(&self) -> (r: Option<&PathElement>)
        ensures
            self@.len() == 0 ==> r is None,
            self@.len() > 0 ==> (r matches Some(e) && e@ == self@.last()),
    {
        if self.elements.len() == 0 {
            None
        } else {
            Some(&self.elements[self.elements.len() - 1])
        }
    }

    /// Creates a new path with the given element appended.
    pub fn with(&self, element: PathElement) -> (r: Path)
        ensures
            r@ == self@.push(element@),
    {
        let mut new_path = self.clone();
        new_path.push(element);
        new_path
    }

    /// Creates a path of the first `n` elements.
    pub fn prefix(&self, n: usize) -> (r: Path)
        requires
            n <= self@.len(),
        ensures
            r@ == self@.take(n as int),
    {
        let mut elements: Vec<PathElement> = Vec::new();
        let mut i: usize = 0;
        while i < n
            invariant
                n <= self.elements@.len(),
                i <= n,
                elements@.len() == i,
                forall|j: int| 0 <= j < i ==> #[trigger] elements@[j]@ == self.elements@[j]@,
            decreases n - i,
        {
            elements.push(self.elements[i].clone());
            i = i + 1;
        }
        let r = Path { elements };
        assert(r@ =~= self@.take(n as int));
        r
    }

    /// Creates a path of the elements from position `start` on.
    pub fn suffix(&self, start: usize) -> (r: Path)
        requires
            start <= self@.len(),
        ensures
            r@ == self@.skip(start as int),
    {
        let mut elements: Vec<PathElement> = Vec::new();
        let mut i = start;
        while i < self.elements.len()
            invariant
                start <= i <= self.elements@.len(),
                elements@.len() == i - start,
                forall|j: int| 0 <= j < elements@.len() ==> #[trigger] elements@[j]@ == self.elements@[start + j]@,
            decreases self.elements@.len() - i,
        {
            elements.push(self.elements[i].clone());
            i = i + 1;
        }
        let r = Path { elements };
        assert(r@ =~= self@.skip(start as int));
        r
    }
}

impl Clone for Path {
    fn clone(&self) -> (r: Path)
        ensures
            r@ == self@,
    {
        let mut elements: Vec<PathElement> = Vec::new();
        let mut i: usize = 0;
        while i < self.elements.len()
            invariant
                i <= self.elements@.len(),
                elements@.len() == i,
                forall|j: int| 0 <= j < i ==> #[trigger] elements@[j]@ == self.elements@[j]@,
            decreases self.elements@.len() - i,
        {
            elements.push(self.elements[i].clone());
            i = i + 1;
        }
        let r = Path { elements };
        assert(r@ =~= self@);
        r
    }
}

impl PartialEq for Path {
    fn eq(&self, other: &Path) -> (r: bool) {
        if self.elements.len() != other.elements.len() {
            assert(self@.len() != other@.len());
            return false;
        }
        let mut i: usize = 0;
        while i < self.elements.len()
            invariant
                self.elements@.len() == other.elements@.len(),
                i <= self.elements@.len(),
                forall|j: int| 0 <= j < i ==> #[trigger] self@[j] == other@[j],
            decreases self.elements@.len() - i,
        {
            if self.elements[i] != other.elements[i] {
                assert(self@[i as int] != other@[i as int]);
                return false;
            }
            i = i + 1;
        }
        assert(self@ =~= other@);
        true
    }
}

impl vstd::std_specs::cmp::PartialEqSpecImpl for Path {
    open spec fn obeys_eq_spec() -> bool {
        true
    }

    open spec fn eq_spec(&self, other: &Path) -> bool {
        self@ == other@
    }
}

impl Eq for Path {}

// ---------------------------------------------------------------------------
// Display text.
// ---------------------------------------------------------------------------

/// The display text of the fields of a key: `name=value` pairs separated by
/// commas, each value in its debug text (see [`value_debug`]).
pub open spec fn key_display(fs: Seq<(Seq<char>, ValueView)>) -> Seq<char>
    decreases fs.len(),
{
    if fs.len() == 0 {
        Seq::empty()
    } else if fs.len() == 1 {
        fs[0].0 + seq!['='] + value_debug(fs[0].1)
    } else {
        key_display(fs.drop_last()) + seq![','] + fs.last().0 + seq!['='] + value_debug(fs.last().1)
    }
}

/// The display text of a path element: `.name`, `[fields]`, `[=value]` or
/// `[index]`.
pub open spec fn element_display(pe: PathElementView) -> Seq<char> {
    match pe {
        PathElementView::FieldName(n) => seq!['.'] + n,
        PathElementView::Key(fs) => seq!['['] + key_display(fs) + seq![']'],
        PathElementView::Value(v) => seq!['[', '='] + value_debug(v) + seq![']'],
        PathElementView::Index(i) => seq!['['] + decimal(i) + seq![']'],
    }
}

/// The display text of a path: the texts of its elements, one after the
/// other.
pub open spec fn path_display(es: Seq<PathElementView>) -> Seq<char>
    decreases es.len(),
{
    if es.len() == 0 {
        Seq::empty()
    } else {
        path_display(es.drop_last()) + element_display(es.last())
    }
}

impl PathElement {
    /// Appends the display text of the element.
    pub fn write_display(&self, out: &mut String)
        ensures
            final(out)@ == old(out)@ + element_display(self@),
    {
        match self {
            PathElement::FieldName(n) => {
                push_char(out, '.');
                push_str(out, n.as_str());
            },
            PathElement::Key(fields) => {
                push_char(out, '[');
                let ghost start = out@;
                let ghost fs = fields@;
                proof {
                    assert(fs.take(0) =~= Seq::<(Seq<char>, ValueView)>::empty());
                }
                let mut i: usize = 0;
                while i < fields.fields.len()
                    invariant
                        fs == fields@,
                        fs.len() == fields.fields@.len(),
                        i <= fs.len(),
                        out@ == start + key_display(fs.take(i as int)),
                    decreases fs.len() - i,
                {
                    if i > 0 {
                        push_char(out, ',');
                    }
                    push_str(out, fields.fields[i].name.as_str());
                    push_char(out, '=');
                    let d = fields.fields[i].value.debug_text();
                    push_str(out, d.as_str());
                    proof {
                        let t = fs.take(i as int + 1);
                        assert(t.drop_last() =~= fs.take(i as int));
                        assert(t.last() == (fields.fields@[i as int].name@, fields.fields@[i as int].value@));
                        assert(out@ =~= start + key_display(t));
                    }
                    i = i + 1;
                }
                proof {
                    assert(fs.take(fs.len() as int) =~= fs);
                }
                push_char(out, ']');
            },
            PathElement::Value(v) => {
                push_char(out, '[');
                push_char(out, '=');
                let d = v.debug_text();
                push_str(out, d.as_str());
                push_char(out, ']');
            },
            PathElement::Index(i) => {
                push_char(out, '[');
                push_decimal(out, *i as i64);
                push_char(out, ']');
            },
        }
        proof {
            assert(final(out)@ =~= old(out)@ + element_display(self@));
        }
    }

    /// Returns the display text of the element.
    pub fn to_string(&self) -> (r: String)
        ensures
            r@ == element_display(self@),
    {
        let mut out = String::new();
        self.write_display(&mut out);
        proof {
            assert(out@ =~= element_display(self@));
        }
        out
    }
}

impl Path {
    /// Returns the elements of the path, in order.
    pub fn iter(&self) -> (r: &[PathElement])
        ensures
            elements_view(r@) == self@,
    {
        self.elements.as_slice()
    }

    /// Returns the display text of the path: the texts of its elements.
    pub fn to_string(&self) -> (r: String)
        ensures
            r@ == path_display(self@),
    {
        let mut out = String::new();
        let ghost es = self@;
        proof {
            assert(es.take(0) =~= Seq::<PathElementView>::empty());
        }
        let mut i: usize = 0;
        while i < self.elements.len()
            invariant
                es == self@,
                es.len() == self.elements@.len(),
                i <= es.len(),
                out@ == path_display(es.take(i as int)),
            decreases es.len() - i,
        {
            self.elements[i].write_display(&mut out);
            proof {
                let t = es.take(i as int + 1);
                assert(t.drop_last() =~= es.take(i as int));
                assert(t.last() == self.elements@[i as int]@);
            }
            i = i + 1;
        }
        proof {
            assert(es.take(es.len() as int) =~= es);
        }
        out
    }
}

} // verus!
