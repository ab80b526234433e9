//! Sets of path elements and sets of field paths.

use super::path::{
    elements_view, element_order, lemma_element_order_eq, lemma_element_order_trans, Path,
    PathElement, PathElementView,
};
use vstd::prelude::*;

verus! {

/// The elements of `s` are strictly increasing in the element order.
pub open spec fn sorted(s: Seq<PathElementView>) -> bool {
    forall|i: int, j: int| 0 <= i < j < s.len() ==> element_order(#[trigger] s[i], #[trigger] s[j]) < 0
}

/// In a strictly increasing sequence each element occurs once.
pub proof fn lemma_sorted_unique(s: Seq<PathElementView>, i: int, j: int)
    requires
        sorted(s),
        0 <= i < s.len(),
        0 <= j < s.len(),
        s[i] == s[j],
    ensures
        i == j,
{
    if i < j {
        lemma_element_order_eq(s[i], s[j]);
    } else if j < i {
        lemma_element_order_eq(s[j], s[i]);
    }
}

/// Appending an element above the last one keeps a sequence sorted.
pub proof fn lemma_sorted_push(s: Seq<PathElementView>, x: PathElementView)
    requires
        sorted(s),
        s.len() > 0 ==> element_order(s.last(), x) < 0,
    ensures
        sorted(s.push(x)),
{
    let t = s.push(x);
    assert forall|i: int, j: int| 0 <= i < j < t.len() implies element_order(#[trigger] t[i], #[trigger] t[j]) < 0 by {
        if j == s.len() && i < s.len() - 1 {
            lemma_element_order_trans(s[i], s.last(), x);
        }
    }
}

/// In a sorted sequence, everything before position `j` is below `s[j]`.
pub proof fn lemma_sorted_below(s: Seq<PathElementView>, i: int, j: int)
    requires
        sorted(s),
        0 <= i < j < s.len(),
    ensures
        element_order(s[i], s[j]) < 0,
{
}

/// A set of path elements, kept as a strictly increasing sequence.
#[derive(Debug)]
pub struct PathElementSet {
    members: Vec<PathElement>,
}

impl View for PathElementSet {
    type V = Seq<PathElementView>;

    closed spec fn view(&self) -> Seq<PathElementView> {
        elements_view(self.members@)
    }
}

impl PathElementSet {
    #[verifier::type_invariant]
    closed spec fn is_sorted(&self) -> bool {
        sorted(elements_view(self.members@))
    }

    /// Creates an empty set.
    pub fn new() -> (r: PathElementSet)
        ensures
            r@ == Seq::<PathElementView>::empty(),
    {
        let r = PathElementSet { members: Vec::new() };
        assert(r@ =~= Seq::<PathElementView>::empty());
        r
    }

    /// Returns the number of elements; the elements are strictly increasing.
    pub fn len(&self) -> (r: usize)
        ensures
            r == self@.len(),
            sorted(self@),
    {
        proof {
            use_type_invariant(self);
        }
        self.members.len()
    }

    /// Returns true if the set is empty.
    pub fn is_empty(&self) -> (r: bool)
        ensures
            r == (self@.len() == 0),
    {
        self.members.len() == 0
    }

    /// Returns the `i`-th element in increasing order.
    pub fn element_at(&self, i: usize) -> (r: &PathElement)
        requires
            i < self@.len(),
        ensures
            r@ == self@[i as int],
    {
        &self.members[i]
    }

    /// Returns the elements, in increasing order, as a list of references.
    pub fn iter(&self) -> (r: Vec<&PathElement>)
        ensures
            r@.len() == self@.len(),
            forall|i: int| 0 <= i < r@.len() ==> #[trigger] r@[i]@ == self@[i],
    {
        proof {
            use_type_invariant(self);
        }
        let mut r: Vec<&PathElement> = Vec::new();
        let mut i: usize = 0;
        while i < self.members.len()
            invariant
                i <= self.members@.len(),
                self@ == elements_view(self.members@),
                r@.len() == i,
                forall|k: int| 0 <= k < i ==> #[trigger] r@[k]@ == self.members@[k]@,
            decreases self.members@.len() - i,
        {
            r.push(&self.members[i]);
            i = i + 1;
        }
        proof {
            assert forall|k: int| 0 <= k < r@.len() implies #[trigger] r@[k]@ == self@[k] by {
                assert(elements_view(self.members@)[k] == self.members@[k]@);
            }
        }
        r
    }

    /// Returns the elements in increasing order.
    pub fn as_slice(&self) -> (r: &[PathElement])
        ensures
            elements_view(r@) == self@,
            sorted(self@),
    {
        proof {
            use_type_invariant(self);
        }
        self.members.as_slice()
    }

    /// Finds the position of `element`, or the position where it would be
    /// inserted to keep the sequence increasing.
    fn search(&self, element: &PathElement) -> (r: (usize, bool))
        ensures
            r.0 <= self@.len(),
            r.1 ==> r.0 < self@.len() && self@[r.0 as int] == element@,
            forall|j: int| 0 <= j < r.0 ==> element_order(#[trigger] self@[j], element@) < 0,
            !r.1 ==> forall|j: int| r.0 <= j < self@.len() ==> element_order(element@, #[trigger] self@[j]) < 0,
    {
        proof {
            use_type_invariant(self);
        }
        let ghost s = self@;
        let mut lo: usize = 0;
        let mut hi: usize = self.members.len();
        while lo < hi
            invariant
                s == self@,
                s.len() == self.members@.len(),
                sorted(s),
                lo <= hi <= s.len(),
                forall|j: int| 0 <= j < lo ==> element_order(#[trigger] s[j], element@) < 0,
                forall|j: int| hi <= j < s.len() ==> element_order(element@, #[trigger] s[j]) < 0,
            decreases hi - lo,
        {
            let mid = lo + (hi - lo) / 2;
            let c = self.members[mid].compare(element);
            proof {
                lemma_element_order_eq(s[mid as int], element@);
            }
            if c == 0 {
                proof {
                    assert forall|j: int| 0 <= j < mid implies element_order(#[trigger] s[j], element@) < 0 by {
                        lemma_sorted_below(s, j, mid as int);
                    }
                }
                return (mid, true);
            } else if c < 0 {
                proof {
                    assert forall|j: int| 0 <= j < mid + 1 implies element_order(#[trigger] s[j], element@) < 0 by {
                        if j < mid {
                            lemma_element_order_trans(s[j], s[mid as int], element@);
                        }
                    }
                }
                lo = mid + 1;
            } else {
                proof {
                    assert forall|j: int| mid <= j < s.len() implies element_order(element@, #[trigger] s[j]) < 0 by {
                        if j > mid {
                            lemma_element_order_trans(element@, s[mid as int], s[j]);
                        }
                    }
                }
                hi = mid;
            }
        }
        (lo, false)
    }

    /// Returns true if the set contains `element`.
    pub fn contains(&self, element: &PathElement) -> (r: bool)
        ensures
            r == self@.contains(element@),
    {
        let (i, found) = self.search(element);
        proof {
            if !found && self@.contains(element@) {
                let j = choose|j: int| 0 <= j < self@.len() && self@[j] == element@;
                lemma_element_order_eq(element@, element@);
                if j < i {
                    assert(element_order(self@[j], element@) < 0);
                } else {
                    assert(element_order(element@, self@[j]) < 0);
                }
            }
        }
        found
    }

    /// Inserts `element` into the set.
    pub fn insert(&mut self, element: PathElement)
        ensures
            final(self)@.to_set() == old(self)@.to_set().insert(element@),
            old(self)@.contains(element@) ==> final(self)@ == old(self)@,
    {
        proof {
            use_type_invariant(&*self);
        }
        let (i, found) = self.search(&element);
        if !found {
            let ghost s0 = self@;
            let ghost ev = element@;
            let mut members = Vec::new();
            std::mem::swap(&mut members, &mut self.members);
            members.insert(i, element);
            proof {
                let s1 = elements_view(members@);
                assert(s1 =~= s0.insert(i as int, ev));
                assert forall|a: int, b: int| 0 <= a < b < s1.len() implies element_order(#[trigger] s1[a], #[trigger] s1[b]) < 0 by {
                    if a < i && b > i {
                        lemma_element_order_trans(s0[a], ev, s0[b - 1]);
                    }
                }
                assert(s1.to_set() =~= s0.to_set().insert(ev)) by {
                    assert forall|x: PathElementView| s1.contains(x) <==> s0.contains(x) || x == ev by {
                        if s0.contains(x) {
                            let j = choose|j: int| 0 <= j < s0.len() && s0[j] == x;
                            if j < i {
                                assert(s1[j] == x);
                            } else {
                                assert(s1[j + 1] == x);
                            }
                        }
                        if s1.contains(x) && x != ev {
                            let j = choose|j: int| 0 <= j < s1.len() && s1[j] == x;
                            if j < i {
                                assert(s0[j] == x);
                            } else {
                                assert(s0[j - 1] == x);
                            }
                        }
                        if x == ev {
                            assert(s1[i as int] == ev);
                        }
                    }
                }
            }
            self.members = members;
        } else {
            proof {
                assert(self@.to_set() =~= self@.to_set().insert(element@));
            }
        }
        proof {
            if old(self)@.contains(element@) && !found {
                let j = choose|j: int| 0 <= j < old(self)@.len() && old(self)@[j] == element@;
                lemma_element_order_eq(element@, element@);
                if j < i {
                    assert(element_order(old(self)@[j], element@) < 0);
                } else {
                    assert(element_order(element@, old(self)@[j]) < 0);
                }
            }
        }
    }

    /// Removes `element` from the set; returns true if it was present.
    pub fn remove(&mut self, element: &PathElement) -> (r: bool)
        ensures
            r == old(self)@.contains(element@),
            final(self)@.to_set() == old(self)@.to_set().remove(element@),
    {
        proof {
            use_type_invariant(&*self);
        }
        let ghost s0 = self@;
        let (i, found) = self.search(element);
        if found {
            let mut members = Vec::new();
            std::mem::swap(&mut members, &mut self.members);
            members.remove(i);
            proof {
                let s1 = elements_view(members@);
                assert(s1 =~= s0.remove(i as int));
                assert forall|a: int, b: int| 0 <= a < b < s1.len() implies element_order(#[trigger] s1[a], #[trigger] s1[b]) < 0 by {
                    if a < i && b >= i {
                        assert(s1[a] == s0[a]);
                        assert(s1[b] == s0[b + 1]);
                    } else if a >= i {
                        assert(s1[a] == s0[a + 1]);
                        assert(s1[b] == s0[b + 1]);
                    }
                }
                assert(s1.to_set() =~= s0.to_set().remove(element@)) by {
                    assert forall|x: PathElementView| s1.contains(x) <==> s0.contains(x) && x != element@ by {
                        if s0.contains(x) && x != element@ {
                            let j = choose|j: int| 0 <= j < s0.len() && s0[j] == x;
                            if j < i {
                                assert(s1[j] == x);
                            } else {
                                assert(j != i);
                                assert(s1[j - 1] == x);
                            }
                        }
                        if s1.contains(x) {
                            let j = choose|j: int| 0 <= j < s1.len() && s1[j] == x;
                            if j < i {
                                assert(s0[j] == x);
                                if x == element@ {
                                    lemma_sorted_unique(s0, j, i as int);
                                }
                            } else {
                                assert(s0[j + 1] == x);
                                if x == element@ {
                                    lemma_sorted_unique(s0, j + 1, i as int);
                                }
                            }
                        }
                    }
                }
            }
            self.members = members;
            true
        } else {
            proof {
                if s0.contains(element@) {
                    let j = choose|j: int| 0 <= j < s0.len() && s0[j] == element@;
                    lemma_element_order_eq(element@, element@);
                    if j < i {
                        assert(element_order(s0[j], element@) < 0);
                    } else {
                        assert(element_order(element@, s0[j]) < 0);
                    }
                }
                assert(s0.to_set() =~= s0.to_set().remove(element@));
            }
            false
        }
    }

    /// Returns the union of two sets.
    pub fn union(&self, other: &PathElementSet) -> (r: PathElementSet)
        ensures
            r@.to_set() == self@.to_set() + other@.to_set(),
    {
        proof {
            use_type_invariant(self);
            use_type_invariant(other);
        }
        let ghost a = self@;
        let ghost b = other@;
        let mut result: Vec<PathElement> = Vec::new();
        let mut i: usize = 0;
        let mut j: usize = 0;
        proof {
            assert(a.take(0) =~= Seq::<PathElementView>::empty());
            assert(b.take(0) =~= Seq::<PathElementView>::empty());
            assert(elements_view(result@) =~= Seq::<PathElementView>::empty());
        }
        while i < self.members.len() || j < other.members.len()
            invariant
                a == self@,
                b == other@,
                a.len() == self.members@.len(),
                b.len() == other.members@.len(),
                sorted(a),
                sorted(b),
                i <= a.len(),
                j <= b.len(),
                sorted(elements_view(result@)),
                forall|x: PathElementView|
                    elements_view(result@).contains(x) <==> a.take(i as int).contains(x) || b.take(j as int).contains(x),
                result@.len() > 0 && i < a.len() ==> element_order(elements_view(result@).last(), a[i as int]) < 0,
                result@.len() > 0 && j < b.len() ==> element_order(elements_view(result@).last(), b[j as int]) < 0,
            decreases a.len() + b.len() - i - j,
        {
            broadcast use vstd::seq_lib::group_seq_properties;
            let ghost r0 = elements_view(result@);
            let mut c: i8 = 0;
            if i < self.members.len() && j < other.members.len() {
                c = self.members[i].compare(&other.members[j]);
                proof {
                    lemma_element_order_eq(a[i as int], b[j as int]);
                }
            }
            if i < self.members.len() && (j == other.members.len() || c < 0) {
                result.push(self.members[i].clone());
                proof {
                    assert(elements_view(result@) =~= r0.push(a[i as int]));
                    assert(a.take(i + 1) =~= a.take(i as int).push(a[i as int]));
                    lemma_sorted_push(r0, a[i as int]);
                }
                i = i + 1;
            } else if j < other.members.len() && (i == self.members.len() || c > 0) {
                result.push(other.members[j].clone());
                proof {
                    assert(elements_view(result@) =~= r0.push(b[j as int]));
                    assert(b.take(j + 1) =~= b.take(j as int).push(b[j as int]));
                    lemma_sorted_push(r0, b[j as int]);
                }
                j = j + 1;
            } else {
                result.push(self.members[i].clone());
                proof {
                    assert(elements_view(result@) =~= r0.push(a[i as int]));
                    assert(a.take(i + 1) =~= a.take(i as int).push(a[i as int]));
                    assert(b.take(j + 1) =~= b.take(j as int).push(b[j as int]));
                    lemma_sorted_push(r0, a[i as int]);
                }
                i = i + 1;
                j = j + 1;
            }
        }
        let r = PathElementSet { members: result };
        proof {
            assert(a.take(a.len() as int) =~= a);
            assert(b.take(b.len() as int) =~= b);
            assert(r@.to_set() =~= a.to_set() + b.to_set());
        }
        r
    }

    /// Returns the intersection of two sets.
    pub fn intersection(&self, other: &PathElementSet) -> (r: PathElementSet)
        ensures
            r@.to_set() == self@.to_set().intersect(other@.to_set()),
    {
        proof {
            use_type_invariant(self);
            use_type_invariant(other);
        }
        let ghost a = self@;
        let ghost b = other@;
        let mut result: Vec<PathElement> = Vec::new();
        let mut i: usize = 0;
        let mut j: usize = 0;
        proof {
            assert(elements_view(result@) =~= Seq::<PathElementView>::empty());
        }
        while i < self.members.len() && j < other.members.len()
            invariant
                a == self@,
                b == other@,
                a.len() == self.members@.len(),
                b.len() == other.members@.len(),
                sorted(a),
                sorted(b),
                i <= a.len(),
                j <= b.len(),
                sorted(elements_view(result@)),
                forall|x: PathElementView|
                    #![trigger elements_view(result@).contains(x)]
                    #![trigger a.take(i as int).contains(x)]
                    elements_view(result@).contains(x) <==> a.take(i as int).contains(x) && b.contains(x),
                forall|x: PathElementView|
                    #![trigger b.take(j as int).contains(x)]
                    b.take(j as int).contains(x) && a.contains(x) ==> a.take(i as int).contains(x),
                result@.len() > 0 && i < a.len() ==> element_order(elements_view(result@).last(), a[i as int]) < 0,
                j < b.len() ==> forall|k: int| 0 <= k < i ==> element_order(#[trigger] a[k], b[j as int]) < 0,
                i < a.len() ==> forall|k: int| 0 <= k < j ==> element_order(#[trigger] b[k], a[i as int]) < 0,
            decreases a.len() + b.len() - i - j,
        {
            broadcast use vstd::seq_lib::group_seq_properties;
            let ghost r0 = elements_view(result@);
            let c = self.members[i].compare(&other.members[j]);
            proof {
                lemma_element_order_eq(a[i as int], b[j as int]);
                assert(a.take(i + 1) =~= a.take(i as int).push(a[i as int]));
                assert(b.take(j + 1) =~= b.take(j as int).push(b[j as int]));
            }
            if c < 0 {
                proof {
                    // a[i] is not in b: the elements of b before j are below it and
                    // those from j on are above it.
                    assert(!b.contains(a[i as int])) by {
                        if b.contains(a[i as int]) {
                            let k = choose|k: int| 0 <= k < b.len() && b[k] == a[i as int];
                            if k < j {
                                lemma_element_order_eq(b[k], a[i as int]);
                            } else if k > j {
                                lemma_element_order_trans(a[i as int], b[j as int], b[k]);
                                lemma_element_order_eq(a[i as int], b[k]);
                            }
                        }
                    }
                    if i + 1 < a.len() {
                        assert forall|k: int| 0 <= k < j implies element_order(#[trigger] b[k], a[i + 1]) < 0 by {
                            lemma_element_order_trans(b[k], a[i as int], a[i + 1]);
                        }
                    }
                    if r0.len() > 0 && i + 1 < a.len() {
                        lemma_element_order_trans(r0.last(), a[i as int], a[i + 1]);
                    }
                }
                i = i + 1;
            } else if c > 0 {
                proof {
                    if j + 1 < b.len() {
                        assert forall|k: int| 0 <= k < i implies element_order(#[trigger] a[k], b[j + 1]) < 0 by {
                            lemma_element_order_trans(a[k], b[j as int], b[j + 1]);
                        }
                    }
                    assert forall|x: PathElementView| b.take(j + 1).contains(x) && a.contains(x) implies a.take(i as int).contains(x) by {
                        if x == b[j as int] {
                            let k = choose|k: int| 0 <= k < a.len() && a[k] == x;
                            if k > i {
                                lemma_element_order_trans(b[j as int], a[i as int], a[k]);
                                lemma_element_order_eq(b[j as int], a[k]);
                            } else if k == i {
                                lemma_element_order_eq(b[j as int], a[k]);
                            }
                        }
                    }
                }
                j = j + 1;
            } else {
                result.push(self.members[i].clone());
                proof {
                    assert(elements_view(result@) =~= r0.push(a[i as int]));
                    lemma_sorted_push(r0, a[i as int]);
                    assert(b[j as int] == a[i as int]);
                    assert forall|x: PathElementView|
                        elements_view(result@).contains(x) <==> a.take(i + 1).contains(x) && b.contains(x) by {
                        assert(r0.contains(x) <==> a.take(i as int).contains(x) && b.contains(x));
                        assert(r0.push(a[i as int]).contains(x) <==> r0.contains(x) || x == a[i as int]);
                        assert(a.take(i as int).push(a[i as int]).contains(x) <==> a.take(i as int).contains(x) || x == a[i as int]);
                        if x == a[i as int] {
                            assert(b.contains(x));
                        }
                    }
                    if j + 1 < b.len() {
                        assert forall|k: int| 0 <= k < i + 1 implies element_order(#[trigger] a[k], b[j + 1]) < 0 by {
                            if k < i {
                                lemma_element_order_trans(a[k], b[j as int], b[j + 1]);
                            }
                        }
                    }
                    if i + 1 < a.len() {
                        assert forall|k: int| 0 <= k < j + 1 implies element_order(#[trigger] b[k], a[i + 1]) < 0 by {
                            if k < j {
                                lemma_element_order_trans(b[k], a[i as int], a[i + 1]);
                            }
                        }
                    }
                }
                i = i + 1;
                j = j + 1;
            }
        }
        let r = PathElementSet { members: result };
        proof {
            broadcast use vstd::seq_lib::group_seq_properties;
            if i == a.len() {
                assert(a.take(i as int) =~= a);
            } else {
                assert(b.take(j as int) =~= b);
            }
            assert forall|x: PathElementView| r@.contains(x) <==> a.contains(x) && b.contains(x) by {
                assert(elements_view(r.members@).contains(x) <==> a.take(i as int).contains(x) && b.contains(x));
            }
            assert(r@.to_set() =~= a.to_set().intersect(b.to_set()));
        }
        r
    }

    /// Returns the difference of two sets (`self` minus `other`).
    pub fn difference(&self, other: &PathElementSet) -> (r: PathElementSet)
        ensures
            r@.to_set() == self@.to_set().difference(other@.to_set()),
    {
        proof {
            use_type_invariant(self);
            use_type_invariant(other);
        }
        let ghost a = self@;
        let ghost b = other@;
        let mut result: Vec<PathElement> = Vec::new();
        let mut i: usize = 0;
        let mut j: usize = 0;
        proof {
            assert(elements_view(result@) =~= Seq::<PathElementView>::empty());
        }
        while i < self.members.len()
            invariant
                a == self@,
                b == other@,
                a.len() == self.members@.len(),
                b.len() == other.members@.len(),
                sorted(a),
                sorted(b),
                i <= a.len(),
                j <= b.len(),
                sorted(elements_view(result@)),
                forall|x: PathElementView|
                    #![trigger elements_view(result@).contains(x)]
                    #![trigger a.take(i as int).contains(x)]
                    elements_view(result@).contains(x) <==> a.take(i as int).contains(x) && !b.contains(x),
                result@.len() > 0 && i < a.len() ==> element_order(elements_view(result@).last(), a[i as int]) < 0,
                j < b.len() ==> forall|k: int| 0 <= k < i ==> element_order(#[trigger] a[k], b[j as int]) < 0,
                i < a.len() ==> forall|k: int| 0 <= k < j ==> element_order(#[trigger] b[k], a[i as int]) < 0,
            decreases a.len() + b.len() - i - j,
        {
            broadcast use vstd::seq_lib::group_seq_properties;
            let ghost r0 = elements_view(result@);
            let mut c: i8 = -1;
            if j < other.members.len() {
                c = self.members[i].compare(&other.members[j]);
                proof {
                    lemma_element_order_eq(a[i as int], b[j as int]);
                }
            }
            proof {
                assert(a.take(i + 1) =~= a.take(i as int).push(a[i as int]));
            }
            if c < 0 {
                result.push(self.members[i].clone());
                proof {
                    assert(elements_view(result@) =~= r0.push(a[i as int]));
                    lemma_sorted_push(r0, a[i as int]);
                    assert(!b.contains(a[i as int])) by {
                        if b.contains(a[i as int]) {
                            let k = choose|k: int| 0 <= k < b.len() && b[k] == a[i as int];
                            if k < j {
                                lemma_element_order_eq(b[k], a[i as int]);
                            } else if k > j {
                                lemma_element_order_trans(a[i as int], b[j as int], b[k]);
                                lemma_element_order_eq(a[i as int], b[k]);
                            } else {
                                lemma_element_order_eq(a[i as int], b[k]);
                            }
                        }
                    }
                    if i + 1 < a.len() {
                        assert forall|k: int| 0 <= k < j implies element_order(#[trigger] b[k], a[i + 1]) < 0 by {
                            lemma_element_order_trans(b[k], a[i as int], a[i + 1]);
                        }
                    }
                }
                i = i + 1;
            } else if c > 0 {
                proof {
                    if j + 1 < b.len() {
                        assert forall|k: int| 0 <= k < i implies element_order(#[trigger] a[k], b[j + 1]) < 0 by {
                            lemma_element_order_trans(a[k], b[j as int], b[j + 1]);
                        }
                    }
                }
                j = j + 1;
            } else {
                proof {
                    if j + 1 < b.len() {
                        assert forall|k: int| 0 <= k < i + 1 implies element_order(#[trigger] a[k], b[j + 1]) < 0 by {
                            if k < i {
                                lemma_element_order_trans(a[k], b[j as int], b[j + 1]);
                            }
                        }
                    }
                    if i + 1 < a.len() {
                        assert forall|k: int| 0 <= k < j + 1 implies element_order(#[trigger] b[k], a[i + 1]) < 0 by {
                            if k < j {
                                lemma_element_order_trans(b[k], a[i as int], a[i + 1]);
                            }
                        }
                    }
                    if r0.len() > 0 && i + 1 < a.len() {
                        lemma_element_order_trans(r0.last(), a[i as int], a[i + 1]);
                    }
                    assert(b.contains(a[i as int])) by {
                        assert(b[j as int] == a[i as int]);
                    }
                }
                i = i + 1;
                j = j + 1;
            }
        }
        let r = PathElementSet { members: result };
        proof {
            assert(a.take(a.len() as int) =~= a);
            assert forall|x: PathElementView| r@.contains(x) <==> a.contains(x) && !b.contains(x) by {
                assert(elements_view(r.members@).contains(x) <==> a.take(i as int).contains(x) && !b.contains(x));
            }
            assert(r@.to_set() =~= a.to_set().difference(b.to_set()));
        }
        r
    }

    /// Creates a set from a vector of elements (duplicates are dropped).
    pub fn from_vec(elements: Vec<PathElement>) -> (r: PathElementSet)
        ensures
            r@.to_set() == elements_view(elements@).to_set(),
    {
        let ghost all = elements_view(elements@);
        let mut rest = elements;
        let mut r = PathElementSet::new();
        proof {
            assert(r@.to_set() + elements_view(rest@).to_set() =~= all.to_set());
        }
        while rest.len() > 0
            invariant
                r@.to_set() + elements_view(rest@).to_set() == all.to_set(),
            decreases rest.len(),
        {
            let ghost before = rest@;
            let e = rest.pop().unwrap();
            proof {
                assert(elements_view(before) =~= elements_view(rest@).push(e@));
                elements_view(rest@).lemma_push_to_set_commute(e@);
            }
            let ghost r0 = r@.to_set();
            r.insert(e);
            proof {
                assert(r@.to_set() + elements_view(rest@).to_set() =~= r0 + elements_view(before).to_set());
            }
        }
        proof {
            assert(elements_view(rest@).to_set() =~= Set::<PathElementView>::empty());
            assert(r@.to_set() =~= all.to_set());
        }
        r
    }
}

impl PartialEq for PathElementSet {
    fn eq(&self, other: &PathElementSet) -> (r: bool) {
        if self.members.len() != other.members.len() {
            assert(self@.len() != other@.len());
            return false;
        }
        let mut i: usize = 0;
        while i < self.members.len()
            invariant
                self.members@.len() == other.members@.len(),
                i <= self.members@.len(),
                forall|j: int| 0 <= j < i ==> #[trigger] self@[j] == other@[j],
            decreases self.members@.len() - i,
        {
            if self.members[i] != other.members[i] {
                assert(self@[i as int] != other@[i as int]);
                return false;
            }
            i = i + 1;
        }
        assert(self@ =~= other@);
        true
    }
}

impl vstd::std_specs::cmp::PartialEqSpecImpl for PathElementSet {
    open spec fn obeys_eq_spec() -> bool {
        true
    }

    open spec fn eq_spec(&self, other: &PathElementSet) -> bool {
        self@ == other@
    }
}

impl Eq for PathElementSet {}

impl Clone for PathElementSet {
    fn clone(&self) -> (r: PathElementSet)
        ensures
            r@ == self@,
    {
        proof {
            use_type_invariant(self);
        }
        let mut members: Vec<PathElement> = Vec::new();
        let mut i: usize = 0;
        while i < self.members.len()
            invariant
                i <= self.members@.len(),
                members@.len() == i,
                forall|j: int| 0 <= j < i ==> #[trigger] members@[j]@ == self.members@[j]@,
            decreases self.members@.len() - i,
        {
            members.push(self.members[i].clone());
            i = i + 1;
        }
        proof {
            assert(elements_view(members@) =~= self@);
        }
        PathElementSet { members }
    }
}

// ---------------------------------------------------------------------------
// Sets of field paths.
// ---------------------------------------------------------------------------

/// Abstract model of a [`FieldPathSet`] node.
pub struct SetView {
    pub root: bool,
    pub members: Seq<PathElementView>,
    pub children: Seq<(PathElementView, SetView)>,
}

/// The path `p` is in the set that `v` stands for.
///
/// The empty path is in the set when the root flag is set; a path of one
/// element when the element is a member; a longer path when its first
/// element is the key of a child whose set holds the rest of the path.
pub open spec fn contains_path(v: SetView, p: Seq<PathElementView>) -> bool
    decreases p.len(),
{
    if p.len() == 0 {
        v.root
    } else if p.len() == 1 {
        v.members.contains(p[0])
    } else {
        exists|i: int|
            0 <= i < v.children.len() && #[trigger] v.children[i].0 == p[0] && contains_path(
                v.children[i].1,
                p.drop_first(),
            )
    }
}

/// The child of a node keyed by `pe`, if there is one.
pub open spec fn child_of(cs: Seq<(PathElementView, SetView)>, pe: PathElementView) -> Option<SetView> {
    if exists|i: int| 0 <= i < cs.len() && #[trigger] cs[i].0 == pe {
        Some(cs[choose|i: int| 0 <= i < cs.len() && #[trigger] cs[i].0 == pe].1)
    } else {
        None
    }
}

/// A path of two or more elements that goes through one of the children.
pub open spec fn under(cs: Seq<(PathElementView, SetView)>, p: Seq<PathElementView>) -> bool {
    exists|i: int| 0 <= i < cs.len() && #[trigger] cs[i].0 == p[0] && contains_path(cs[i].1, p.drop_first())
}

/// The set has no field path at all.
pub open spec fn no_paths(v: SetView) -> bool {
    forall|p: Seq<PathElementView>| !contains_path(v, p)
}

/// The two sets hold the same field paths.
pub open spec fn same_paths(a: SetView, b: SetView) -> bool {
    forall|p: Seq<PathElementView>| contains_path(a, p) == contains_path(b, p)
}

/// The keys of the children are strictly increasing.
pub open spec fn keys_sorted(cs: Seq<(PathElementView, SetView)>) -> bool {
    forall|i: int, j: int| 0 <= i < j < cs.len() ==> element_order(#[trigger] cs[i].0, #[trigger] cs[j].0) < 0
}

/// Nothing is stored in the node.
pub open spec fn bare(v: SetView) -> bool {
    !v.root && v.members.len() == 0 && v.children.len() == 0
}

/// A child node: well formed, not holding the empty path, and not bare.
pub open spec fn child_ok(c: SetView) -> bool {
    &&& wf_view(c)
    &&& !c.root
    &&& !bare(c)
}

/// Well-formedness of a node: sorted members, sorted child keys, and
/// children that are themselves well formed, non-root and non-bare.
pub open spec fn wf_view(v: SetView) -> bool
    decreases v,
{
    &&& sorted(v.members)
    &&& keys_sorted(v.children)
    &&& wf_children(v.children)
}

pub open spec fn wf_children(cs: Seq<(PathElementView, SetView)>) -> bool
    decreases cs,
{
    if cs.len() == 0 {
        true
    } else {
        &&& wf_children(cs.drop_last())
        &&& wf_view(cs.last().1)
        &&& !cs.last().1.root
        &&& !bare(cs.last().1)
    }
}

pub proof fn lemma_wf_children(cs: Seq<(PathElementView, SetView)>)
    ensures
        wf_children(cs) <==> forall|i: int| 0 <= i < cs.len() ==> child_ok(#[trigger] cs[i].1),
    decreases cs.len(),
{
    if cs.len() > 0 {
        lemma_wf_children(cs.drop_last());
        if forall|i: int| 0 <= i < cs.len() ==> child_ok(#[trigger] cs[i].1) {
            assert forall|i: int| 0 <= i < cs.drop_last().len() implies child_ok(#[trigger] cs.drop_last()[i].1) by {
                assert(cs.drop_last()[i] == cs[i]);
            }
            assert(child_ok(cs[cs.len() - 1].1));
        }
        if wf_children(cs) {
            assert forall|i: int| 0 <= i < cs.len() implies child_ok(#[trigger] cs[i].1) by {
                if i < cs.len() - 1 {
                    assert(cs.drop_last()[i] == cs[i]);
                }
            }
        }
    }
}

pub proof fn lemma_contains_under(v: SetView, p: Seq<PathElementView>)
    requires
        p.len() >= 2,
    ensures
        contains_path(v, p) == under(v.children, p),
{
}

/// Pushing a child adds exactly the paths that go through it.
pub proof fn lemma_under_push(cs: Seq<(PathElementView, SetView)>, e: (PathElementView, SetView), p: Seq<PathElementView>)
    requires
        p.len() >= 2,
    ensures
        under(cs.push(e), p) == (under(cs, p) || (e.0 == p[0] && contains_path(e.1, p.drop_first()))),
{
    let t = cs.push(e);
    if under(cs, p) {
        let i = choose|i: int| 0 <= i < cs.len() && #[trigger] cs[i].0 == p[0] && contains_path(cs[i].1, p.drop_first());
        assert(t[i] == cs[i]);
    }
    if e.0 == p[0] && contains_path(e.1, p.drop_first()) {
        assert(t[cs.len() as int] == e);
    }
    if under(t, p) {
        let i = choose|i: int| 0 <= i < t.len() && #[trigger] t[i].0 == p[0] && contains_path(t[i].1, p.drop_first());
        if i < cs.len() {
            assert(t[i] == cs[i]);
        }
    }
}

/// With sorted keys, a path through the child keyed by its first element
/// is in the children exactly when it is in that child.
pub proof fn lemma_under_at(cs: Seq<(PathElementView, SetView)>, l: int, p: Seq<PathElementView>)
    requires
        keys_sorted(cs),
        0 <= l < cs.len(),
        p.len() >= 2,
        cs[l].0 == p[0],
    ensures
        under(cs, p) == contains_path(cs[l].1, p.drop_first()),
{
    if under(cs, p) {
        let i = choose|i: int| 0 <= i < cs.len() && #[trigger] cs[i].0 == p[0] && contains_path(cs[i].1, p.drop_first());
        if i < l {
            lemma_element_order_eq(cs[i].0, cs[l].0);
        } else if l < i {
            lemma_element_order_eq(cs[l].0, cs[i].0);
        }
    }
}

/// A path whose first element is no child's key is not under the children.
pub proof fn lemma_under_absent(cs: Seq<(PathElementView, SetView)>, p: Seq<PathElementView>)
    requires
        p.len() >= 2,
        forall|i: int| 0 <= i < cs.len() ==> #[trigger] cs[i].0 != p[0],
    ensures
        !under(cs, p),
{
}

/// A well-formed node that is not bare holds some path; a bare node holds none.
pub proof fn lemma_bare(v: SetView)
    requires
        wf_view(v),
    ensures
        bare(v) <==> no_paths(v),
        !bare(v) && !v.root ==> exists|p: Seq<PathElementView>| p.len() > 0 && #[trigger] contains_path(v, p),
    decreases v,
{
    if bare(v) {
        assert forall|p: Seq<PathElementView>| !contains_path(v, p) by {
            if p.len() >= 2 {
                lemma_under_absent(v.children, p);
            }
        }
    } else {
        if v.root {
            assert(contains_path(v, Seq::empty()));
        } else if v.members.len() > 0 {
            let p = seq![v.members[0]];
            assert(p[0] == v.members[0]);
            assert(contains_path(v, p));
        } else {
            lemma_wf_children(v.children);
            let c = v.children[0].1;
            assert(child_ok(c));
            lemma_bare(c);
            let q = choose|q: Seq<PathElementView>| q.len() > 0 && #[trigger] contains_path(c, q);
            let p = seq![v.children[0].0] + q;
            assert(p.drop_first() =~= q);
            assert(p[0] == v.children[0].0);
            assert(contains_path(v, p));
        }
    }
}

/// A set of field paths, kept as a tree: the members are the paths of one
/// element, and each child holds the longer paths that start with its key.
#[derive(Debug)]
pub struct FieldPathSet {
    members: PathElementSet,
    children: Vec<(PathElement, FieldPathSet)>,
    root_in_set: bool,
}

pub closed spec fn set_view(s: FieldPathSet) -> SetView
    decreases s,
{
    SetView { root: s.root_in_set, members: s.members@, children: children_view(s.children@) }
}

pub closed spec fn children_view(cs: Seq<(PathElement, FieldPathSet)>) -> Seq<(PathElementView, SetView)>
    decreases cs,
{
    if cs.len() == 0 {
        Seq::empty()
    } else {
        children_view(cs.drop_last()).push((cs.last().0@, set_view(cs.last().1)))
    }
}

proof fn lemma_children_view(cs: Seq<(PathElement, FieldPathSet)>)
    ensures
        children_view(cs).len() == cs.len(),
        forall|i: int| 0 <= i < cs.len() ==> #[trigger] children_view(cs)[i] == (cs[i].0@, cs[i].1@),
    decreases cs.len(),
{
    if cs.len() > 0 {
        lemma_children_view(cs.drop_last());
    }
}

impl View for FieldPathSet {
    type V = SetView;

    open spec fn view(&self) -> SetView {
        set_view(*self)
    }
}

proof fn lemma_set_view(s: FieldPathSet)
    ensures
        s@.root == s.root_in_set,
        s@.members == s.members@,
        s@.children == children_view(s.children@),
        s@.children.len() == s.children@.len(),
        forall|i: int| 0 <= i < s.children@.len() ==> #[trigger] s@.children[i] == (s.children@[i].0@, s.children@[i].1@),
{
    lemma_children_view(s.children@);
}

impl FieldPathSet {
    #[verifier::type_invariant]
    closed spec fn well_formed(&self) -> bool {
        wf_view(set_view(*self))
    }

    /// Creates an empty set.
    pub fn new() -> (r: FieldPathSet)
        ensures
            bare(r@),
            no_paths(r@),
    {
        let r = FieldPathSet { members: PathElementSet::new(), children: Vec::new(), root_in_set: false };
        proof {
            lemma_set_view(r);
            lemma_wf_children(r@.children);
            lemma_bare(r@);
        }
        r
    }

    /// Returns true if the set holds no path.
    pub fn is_empty(&self) -> (r: bool)
        ensures
            r == no_paths(self@),
    {
        proof {
            use_type_invariant(self);
            lemma_set_view(*self);
            lemma_bare(self@);
        }
        !self.root_in_set && self.members.is_empty() && self.children.len() == 0
    }

    /// Returns true if the set holds no path (alias of [`is_empty`](Self::is_empty)).
    pub fn empty(&self) -> (r: bool)
        ensures
            r == no_paths(self@),
    {
        self.is_empty()
    }

    /// Returns the number of top-level members and children: the elements
    /// that are paths of the set, and the elements that lead to longer
    /// paths of the set (see [`top_count`]). A count past `usize::MAX`,
    /// which no set in memory reaches, gives `usize::MAX`.
    pub fn size(&self) -> (r: usize)
        ensures
            top_count(self@) == self@.members.len() + self@.children.len(),
            r == (if top_count(self@) <= usize::MAX { top_count(self@) } else { usize::MAX as nat }),
    {
        proof {
            use_type_invariant(self);
            lemma_set_view(*self);
            lemma_wf_children(self@.children);
            lemma_top_count(self@);
        }
        self.members.len().saturating_add(self.children.len())
    }
}

/// Finds the child keyed by `key`, or the position where such a child would
/// be inserted to keep the keys increasing.
fn search_children(children: &Vec<(PathElement, FieldPathSet)>, key: &PathElement) -> (r: (usize, bool))
    requires
        keys_sorted(children_view(children@)),
    ensures
        r.0 <= children@.len(),
        r.1 ==> r.0 < children@.len() && children_view(children@)[r.0 as int].0 == key@,
        forall|j: int| 0 <= j < r.0 ==> element_order(#[trigger] children_view(children@)[j].0, key@) < 0,
        !r.1 ==> forall|j: int|
            r.0 <= j < children@.len() ==> element_order(key@, #[trigger] children_view(children@)[j].0) < 0,
        !r.1 ==> forall|j: int| 0 <= j < children@.len() ==> #[trigger] children_view(children@)[j].0 != key@,
{
    let ghost cs = children_view(children@);
    proof {
        lemma_children_view(children@);
    }
    let mut lo: usize = 0;
    let mut hi: usize = children.len();
    while lo < hi
        invariant
            cs == children_view(children@),
            cs.len() == children@.len(),
            forall|j: int| 0 <= j < children@.len() ==> #[trigger] cs[j] == (children@[j].0@, children@[j].1@),
            keys_sorted(cs),
            lo <= hi <= cs.len(),
            forall|j: int| 0 <= j < lo ==> element_order(#[trigger] cs[j].0, key@) < 0,
            forall|j: int| hi <= j < cs.len() ==> element_order(key@, #[trigger] cs[j].0) < 0,
        decreases hi - lo,
    {
        let mid = lo + (hi - lo) / 2;
        let c = children[mid].0.compare(key);
        proof {
            lemma_element_order_eq(cs[mid as int].0, key@);
        }
        if c == 0 {
            proof {
                assert forall|j: int| 0 <= j < mid implies element_order(#[trigger] cs[j].0, key@) < 0 by {
                    assert(element_order(cs[j].0, cs[mid as int].0) < 0);
                }
            }
            return (mid, true);
        } else if c < 0 {
            proof {
                assert forall|j: int| 0 <= j < mid + 1 implies element_order(#[trigger] cs[j].0, key@) < 0 by {
                    if j < mid {
                        assert(element_order(cs[j].0, cs[mid as int].0) < 0);
                        lemma_element_order_trans(cs[j].0, cs[mid as int].0, key@);
                    }
                }
            }
            lo = mid + 1;
        } else {
            proof {
                assert forall|j: int| mid <= j < cs.len() implies element_order(key@, #[trigger] cs[j].0) < 0 by {
                    if j > mid {
                        assert(element_order(cs[mid as int].0, cs[j].0) < 0);
                        lemma_element_order_trans(key@, cs[mid as int].0, cs[j].0);
                    }
                }
            }
            hi = mid;
        }
    }
    proof {
        assert forall|j: int| 0 <= j < cs.len() implies #[trigger] cs[j].0 != key@ by {
            lemma_element_order_eq(key@, key@);
            if j < lo {
                assert(element_order(cs[j].0, key@) < 0);
            } else {
                assert(element_order(key@, cs[j].0) < 0);
            }
        }
    }
    (lo, false)
}

/// Two child lists that agree on every child whose key is not `key` hold
/// the same paths outside that key.
proof fn lemma_under_same_except(
    cs0: Seq<(PathElementView, SetView)>,
    cs1: Seq<(PathElementView, SetView)>,
    key: PathElementView,
    q: Seq<PathElementView>,
)
    requires
        q.len() >= 2,
        q[0] != key,
        forall|e: (PathElementView, SetView)| e.0 != key ==> (cs0.contains(e) <==> cs1.contains(e)),
    ensures
        under(cs0, q) == under(cs1, q),
{
    if under(cs0, q) {
        let i = choose|i: int| 0 <= i < cs0.len() && #[trigger] cs0[i].0 == q[0] && contains_path(cs0[i].1, q.drop_first());
        assert(cs0.contains(cs0[i]));
        let j = choose|j: int| 0 <= j < cs1.len() && cs1[j] == cs0[i];
        assert(cs1[j].0 == q[0]);
    }
    if under(cs1, q) {
        let i = choose|i: int| 0 <= i < cs1.len() && #[trigger] cs1[i].0 == q[0] && contains_path(cs1[i].1, q.drop_first());
        assert(cs1.contains(cs1[i]));
        let j = choose|j: int| 0 <= j < cs0.len() && cs0[j] == cs1[i];
        assert(cs0[j].0 == q[0]);
    }
}

/// Putting the child `entry` at position `i` of the children `c0` (in place
/// of the child with the same key when `found`, as a new child otherwise)
/// keeps the children well formed and adds the paths of `entry` under its key.
proof fn lemma_children_put(
    c0: Seq<(PathElementView, SetView)>,
    c1: Seq<(PathElementView, SetView)>,
    i: int,
    entry: (PathElementView, SetView),
    found: bool,
    p: Seq<PathElementView>,
)
    requires
        keys_sorted(c0),
        wf_children(c0),
        0 <= i <= c0.len(),
        found ==> i < c0.len() && c0[i].0 == entry.0 && c1 == c0.update(i, entry),
        !found ==> c1 == c0.insert(i, entry),
        forall|j: int| 0 <= j < i ==> element_order(#[trigger] c0[j].0, entry.0) < 0,
        !found ==> forall|j: int| i <= j < c0.len() ==> element_order(entry.0, #[trigger] c0[j].0) < 0,
        !found ==> forall|j: int| 0 <= j < c0.len() ==> #[trigger] c0[j].0 != entry.0,
        child_ok(entry.1),
        p.len() >= 2,
        entry.0 == p[0],
        forall|q: Seq<PathElementView>|
            contains_path(entry.1, q) == ((found && contains_path(c0[i].1, q)) || q == p.drop_first()),
    ensures
        keys_sorted(c1),
        wf_children(c1),
        forall|q: Seq<PathElementView>| q.len() >= 2 ==> under(c1, q) == (under(c0, q) || q == p),
{
    lemma_wf_children(c0);
    assert(c1[i] == entry);
    assert forall|a: int, b: int| 0 <= a < b < c1.len() implies element_order(#[trigger] c1[a].0, #[trigger] c1[b].0) < 0 by {
        if !found && a < i && b > i {
            lemma_element_order_trans(c0[a].0, entry.0, c0[b - 1].0);
        }
    }
    assert forall|j: int| 0 <= j < c1.len() implies child_ok(#[trigger] c1[j].1) by {
        if j != i {
            if found || j < i {
                assert(c1[j] == c0[j]);
            } else {
                assert(c1[j] == c0[j - 1]);
            }
        }
    }
    lemma_wf_children(c1);
    assert forall|e: (PathElementView, SetView)| e.0 != p[0] implies (c0.contains(e) <==> c1.contains(e)) by {
        if c0.contains(e) {
            let j = choose|j: int| 0 <= j < c0.len() && c0[j] == e;
            if found {
                assert(j != i);
                assert(c1[j] == e);
            } else if j < i {
                assert(c1[j] == e);
            } else {
                assert(c1[j + 1] == e);
            }
        }
        if c1.contains(e) {
            let j = choose|j: int| 0 <= j < c1.len() && c1[j] == e;
            assert(j != i);
            if found || j < i {
                assert(c0[j] == e);
            } else {
                assert(c0[j - 1] == e);
            }
        }
    }
    assert forall|q: Seq<PathElementView>| q.len() >= 2 implies under(c1, q) == (under(c0, q) || q == p) by {
        if q[0] == p[0] {
            lemma_under_at(c1, i, q);
            if found {
                lemma_under_at(c0, i, q);
            } else {
                lemma_under_absent(c0, q);
            }
            if q.drop_first() == p.drop_first() {
                assert(q =~= p) by {
                    assert forall|k: int| 0 <= k < q.len() implies q[k] == p[k] by {
                        if k > 0 {
                            assert(q[k] == q.drop_first()[k - 1]);
                            assert(p[k] == p.drop_first()[k - 1]);
                        }
                    }
                }
            }
        } else {
            lemma_under_same_except(c0, c1, p[0], q);
            assert(q != p);
        }
    }
}

impl FieldPathSet {
    /// Returns true if the set contains `path`.
    pub fn has(&self, path: &Path) -> (r: bool)
        ensures
            r == contains_path(self@, path@),
    {
        proof {
            lemma_set_view(*self);
        }
        if path.is_empty() {
            self.root_in_set
        } else {
            proof {
                assert(path@.skip(0) =~= path@);
            }
            self.has_from(path, 0)
        }
    }

    /// Returns true if the set contains the elements of `path` from
    /// position `start` on.
    fn has_from(&self, path: &Path, start: usize) -> (r: bool)
        requires
            start < path@.len(),
        ensures
            r == contains_path(self@, path@.skip(start as int)),
        decreases path@.len() - start,
    {
        proof {
            use_type_invariant(self);
            lemma_set_view(*self);
        }
        let ghost p = path@.skip(start as int);
        let first = path.element_at(start);
        proof {
            assert(p[0] == path@[start as int]);
        }
        if path.len() - start == 1 {
            self.members.contains(first)
        } else {
            proof {
                assert(p.drop_first() =~= path@.skip(start + 1));
                lemma_contains_under(self@, p);
            }
            let (i, found) = search_children(&self.children, first);
            if found {
                proof {
                    lemma_under_at(self@.children, i as int, p);
                }
                self.children[i].1.has_from(path, start + 1)
            } else {
                proof {
                    lemma_under_absent(self@.children, p);
                }
                false
            }
        }
    }

    /// Inserts `path` into the set.
    pub fn insert(&mut self, path: &Path)
        ensures
            forall|q: Seq<PathElementView>|
                contains_path(final(self)@, q) == (contains_path(old(self)@, q) || q == path@),
    {
        if path.is_empty() {
            proof {
                use_type_invariant(&*self);
            }
            let mut tmp = FieldPathSet::new();
            std::mem::swap(self, &mut tmp);
            proof {
                use_type_invariant(&tmp);
                lemma_set_view(tmp);
            }
            let FieldPathSet { members, children, root_in_set: _ } = tmp;
            let r = FieldPathSet { members, children, root_in_set: true };
            proof {
                lemma_set_view(r);
                assert forall|q: Seq<PathElementView>|
                    contains_path(r@, q) == (contains_path(old(self)@, q) || q == path@) by {
                    if q.len() == 0 {
                        assert(q =~= path@);
                    }
                }
            }
            *self = r;
        } else {
            proof {
                assert(path@.skip(0) =~= path@);
            }
            self.insert_from(path, 0);
        }
    }

    /// Inserts the elements of `path` from position `start` on.
    fn insert_from(&mut self, path: &Path, start: usize)
        requires
            start < path@.len(),
        ensures
            forall|q: Seq<PathElementView>|
                contains_path(final(self)@, q) == (contains_path(old(self)@, q) || q == path@.skip(start as int)),
            final(self)@.root == old(self)@.root,
            !bare(final(self)@),
        decreases path@.len() - start,
    {
        proof {
            use_type_invariant(&*self);
        }
        let ghost v0 = self@;
        let ghost p = path@.skip(start as int);
        let mut tmp = FieldPathSet::new();
        std::mem::swap(self, &mut tmp);
        proof {
            use_type_invariant(&tmp);
            lemma_set_view(tmp);
            lemma_wf_children(v0.children);
        }
        let FieldPathSet { mut members, mut children, root_in_set } = tmp;
        let ghost m0 = members@;
        let ghost c0 = children_view(children@);
        let first = path.element_at(start);
        proof {
            assert(p[0] == path@[start as int]);
            lemma_children_view(children@);
        }
        if path.len() - start == 1 {
            members.insert(first.clone());
            proof {
                use_type_invariant(&members);
                lemma_children_view(children@);
                assert(wf_view(SetView { root: root_in_set, members: members@, children: children_view(children@) }));
            }
            let r = FieldPathSet { members, children, root_in_set };
            proof {
                lemma_set_view(r);
                let ms = r.members@;
                broadcast use vstd::seq_lib::group_seq_properties;
                assert(ms.len() > 0) by {
                    assert(ms.to_set().contains(p[0]));
                }
                assert forall|q: Seq<PathElementView>|
                    contains_path(r@, q) == (contains_path(v0, q) || q == p) by {
                    if q.len() == 1 {
                        assert(ms.to_set().contains(q[0]) == (m0.to_set().contains(q[0]) || q[0] == p[0]));
                        if q[0] == p[0] {
                            assert(q =~= p);
                        }
                    }
                    if q.len() >= 2 {
                        assert(q != p);
                    }
                }
            }
            *self = r;
            proof {
                assert forall|q: Seq<PathElementView>|
                    contains_path(self@, q) == (contains_path(old(self)@, q) || q == path@.skip(start as int)) by {
                    assert(contains_path(r@, q) == (contains_path(v0, q) || q == p));
                }
            }
        } else {
            proof {
                assert(p.drop_first() =~= path@.skip(start + 1));
            }
            let (i, found) = search_children(&children, first);
            let ghost entry: (PathElementView, SetView);
            if found {
                let (k, mut child) = children.remove(i);
                proof {
                    use_type_invariant(&child);
                    assert(child@ == c0[i as int].1);
                    assert(child_ok(c0[i as int].1));
                }
                child.insert_from(path, start + 1);
                proof {
                    use_type_invariant(&child);
                    entry = (k@, child@);
                    assert(child_ok(child@));
                }
                children.insert(i, (k, child));
            } else {
                let mut child = FieldPathSet::new();
                child.insert_from(path, start + 1);
                proof {
                    use_type_invariant(&child);
                    entry = (first@, child@);
                    assert(child_ok(child@));
                }
                children.insert(i, (first.clone(), child));
            }
            let ghost c1 = children_view(children@);
            proof {
                use_type_invariant(&members);
                lemma_children_view(children@);
                if found {
                    assert(c1 =~= c0.update(i as int, entry));
                } else {
                    assert(c1 =~= c0.insert(i as int, entry));
                }
                lemma_children_put(c0, c1, i as int, entry, found, p);
                assert(wf_view(SetView { root: root_in_set, members: members@, children: c1 }));
            }
            let r = FieldPathSet { members, children, root_in_set };
            proof {
                lemma_set_view(r);
                assert(r@.children == c1);
                assert(r@.members == v0.members);
                assert(v0.children == c0);
                assert forall|q: Seq<PathElementView>|
                    contains_path(r@, q) == (contains_path(v0, q) || q == p) by {
                    if q.len() >= 2 {
                        lemma_contains_under(r@, q);
                        lemma_contains_under(v0, q);
                    } else {
                        assert(q != p);
                    }
                }
            }
            *self = r;
            proof {
                assert forall|q: Seq<PathElementView>|
                    contains_path(self@, q) == (contains_path(old(self)@, q) || q == path@.skip(start as int)) by {
                    assert(contains_path(r@, q) == (contains_path(v0, q) || q == p));
                }
            }
        }
    }
}

/// Putting `entry` at position `i` of sorted children (in place of a child
/// with the same key, or as a new child) keeps them sorted and well formed;
/// the paths through `entry.0` are then those of `entry.1`, the others stay.
proof fn lemma_children_replace(
    c0: Seq<(PathElementView, SetView)>,
    c1: Seq<(PathElementView, SetView)>,
    i: int,
    entry: (PathElementView, SetView),
    found: bool,
)
    requires
        keys_sorted(c0),
        wf_children(c0),
        0 <= i <= c0.len(),
        found ==> i < c0.len() && c0[i].0 == entry.0 && c1 == c0.update(i, entry),
        !found ==> c1 == c0.insert(i, entry),
        forall|j: int| 0 <= j < i ==> element_order(#[trigger] c0[j].0, entry.0) < 0,
        !found ==> forall|j: int| i <= j < c0.len() ==> element_order(entry.0, #[trigger] c0[j].0) < 0,
        !found ==> forall|j: int| 0 <= j < c0.len() ==> #[trigger] c0[j].0 != entry.0,
        child_ok(entry.1),
    ensures
        keys_sorted(c1),
        wf_children(c1),
        forall|q: Seq<PathElementView>|
            q.len() >= 2 ==> under(c1, q) == (if q[0] == entry.0 {
                contains_path(entry.1, q.drop_first())
            } else {
                under(c0, q)
            }),
{
    lemma_wf_children(c0);
    assert(c1[i] == entry);
    assert forall|a: int, b: int| 0 <= a < b < c1.len() implies element_order(#[trigger] c1[a].0, #[trigger] c1[b].0) < 0 by {
        if !found && a < i && b > i {
            lemma_element_order_trans(c0[a].0, entry.0, c0[b - 1].0);
        }
    }
    assert forall|j: int| 0 <= j < c1.len() implies child_ok(#[trigger] c1[j].1) by {
        if j != i {
            if found || j < i {
                assert(c1[j] == c0[j]);
            } else {
                assert(c1[j] == c0[j - 1]);
            }
        }
    }
    lemma_wf_children(c1);
    assert forall|e: (PathElementView, SetView)| e.0 != entry.0 implies (c0.contains(e) <==> c1.contains(e)) by {
        if c0.contains(e) {
            let j = choose|j: int| 0 <= j < c0.len() && c0[j] == e;
            if found {
                assert(j != i);
                assert(c1[j] == e);
            } else if j < i {
                assert(c1[j] == e);
            } else {
                assert(c1[j + 1] == e);
            }
        }
        if c1.contains(e) {
            let j = choose|j: int| 0 <= j < c1.len() && c1[j] == e;
            assert(j != i);
            if found || j < i {
                assert(c0[j] == e);
            } else {
                assert(c0[j - 1] == e);
            }
        }
    }
    assert forall|q: Seq<PathElementView>| q.len() >= 2 implies under(c1, q) == (if q[0] == entry.0 {
        contains_path(entry.1, q.drop_first())
    } else {
        under(c0, q)
    }) by {
        if q[0] == entry.0 {
            lemma_under_at(c1, i, q);
        } else {
            lemma_under_same_except(c0, c1, entry.0, q);
        }
    }
}

impl FieldPathSet {
    /// Makes `child` the set of paths below the element `pe`, in place of
    /// what was below it before; the other paths stay.
    pub(crate) fn replace_child(&mut self, pe: PathElement, child: FieldPathSet)
        requires
            !no_paths(child@),
            !child@.root,
        ensures
            forall|q: Seq<PathElementView>|
                #[trigger] contains_path(final(self)@, q) == (if q.len() >= 2 && q[0] == pe@ {
                    contains_path(child@, q.drop_first())
                } else {
                    contains_path(old(self)@, q)
                }),
    {
        proof {
            use_type_invariant(&*self);
            use_type_invariant(&child);
            lemma_bare(child@);
        }
        let ghost v0 = self@;
        let ghost entry = (pe@, child@);
        let mut tmp = FieldPathSet::new();
        std::mem::swap(self, &mut tmp);
        proof {
            use_type_invariant(&tmp);
            lemma_set_view(tmp);
        }
        let FieldPathSet { members, mut children, root_in_set } = tmp;
        let ghost c0 = children_view(children@);
        proof {
            lemma_children_view(children@);
        }
        let (i, found) = search_children(&children, &pe);
        if found {
            children.set(i, (pe, child));
        } else {
            children.insert(i, (pe, child));
        }
        let ghost c1 = children_view(children@);
        proof {
            use_type_invariant(&members);
            lemma_children_view(children@);
            if found {
                assert(c1 =~= c0.update(i as int, entry));
            } else {
                assert(c1 =~= c0.insert(i as int, entry));
            }
            assert(child_ok(entry.1));
            lemma_children_replace(c0, c1, i as int, entry, found);
            assert(wf_view(SetView { root: root_in_set, members: members@, children: c1 }));
        }
        let r = FieldPathSet { members, children, root_in_set };
        proof {
            lemma_set_view(r);
            assert(r@.children == c1);
            assert forall|q: Seq<PathElementView>|
                #[trigger] contains_path(r@, q) == (if q.len() >= 2 && q[0] == entry.0 {
                    contains_path(entry.1, q.drop_first())
                } else {
                    contains_path(v0, q)
                }) by {
                if q.len() >= 2 {
                    lemma_contains_under(r@, q);
                    lemma_contains_under(v0, q);
                }
            }
        }
        *self = r;
    }
}

/// Extending a prefix of the children by one child adds the paths through it.
proof fn lemma_under_take(cs: Seq<(PathElementView, SetView)>, i: int, q: Seq<PathElementView>)
    requires
        0 <= i < cs.len(),
        q.len() >= 2,
    ensures
        under(cs.take(i + 1), q) == (under(cs.take(i), q) || (cs[i].0 == q[0] && contains_path(cs[i].1, q.drop_first()))),
{
    assert(cs.take(i + 1) =~= cs.take(i).push(cs[i]));
    lemma_under_push(cs.take(i), cs[i], q);
}

/// In children with sorted keys, a key above all keys before position `j`
/// and below the key at `j` (if any) is no child's key.
proof fn lemma_key_absent(cs: Seq<(PathElementView, SetView)>, j: int, k: PathElementView)
    requires
        keys_sorted(cs),
        0 <= j <= cs.len(),
        forall|l: int| 0 <= l < j ==> element_order(#[trigger] cs[l].0, k) < 0,
        j < cs.len() ==> element_order(k, cs[j].0) < 0,
    ensures
        forall|l: int| 0 <= l < cs.len() ==> #[trigger] cs[l].0 != k,
{
    assert forall|l: int| 0 <= l < cs.len() implies #[trigger] cs[l].0 != k by {
        lemma_element_order_eq(k, k);
        if l > j {
            lemma_element_order_trans(k, cs[j].0, cs[l].0);
        }
    }
}

impl Clone for FieldPathSet {
    fn clone(&self) -> (r: FieldPathSet)
        ensures
            r@ == self@,
        decreases self,
    {
        proof {
            use_type_invariant(self);
            lemma_set_view(*self);
        }
        let members = self.members.clone();
        let mut children: Vec<(PathElement, FieldPathSet)> = Vec::new();
        let mut i: usize = 0;
        while i < self.children.len()
            invariant
                i <= self.children@.len(),
                children@.len() == i,
                forall|j: int| 0 <= j < i ==> #[trigger] children@[j].0@ == self.children@[j].0@
                    && children@[j].1@ == self.children@[j].1@,
            decreases self.children@.len() - i,
        {
            let k = self.children[i].0.clone();
            let c = self.children[i].1.clone();
            children.push((k, c));
            i = i + 1;
        }
        proof {
            lemma_children_view(children@);
            assert(children_view(children@) =~= self@.children);
            use_type_invariant(&members);
        }
        let r = FieldPathSet { members, children, root_in_set: self.root_in_set };
        proof {
            lemma_set_view(r);
        }
        r
    }
}

impl FieldPathSet {
    /// Returns the union of two sets.
    pub fn union(&self, other: &FieldPathSet) -> (r: FieldPathSet)
        ensures
            forall|q: Seq<PathElementView>| contains_path(r@, q) == (contains_path(self@, q) || contains_path(other@, q)),
        decreases self,
    {
        proof {
            use_type_invariant(self);
            use_type_invariant(other);
            lemma_set_view(*self);
            lemma_set_view(*other);
            lemma_wf_children(self@.children);
            lemma_wf_children(other@.children);
        }
        let ghost ca = self@.children;
        let ghost cb = other@.children;
        let members = self.members.union(&other.members);
        let mut children: Vec<(PathElement, FieldPathSet)> = Vec::new();
        let mut i: usize = 0;
        let mut j: usize = 0;
        proof {
            lemma_children_view(children@);
            assert(children_view(children@) =~= Seq::<(PathElementView, SetView)>::empty());
            assert(ca.take(0) =~= Seq::<(PathElementView, SetView)>::empty());
            assert(cb.take(0) =~= Seq::<(PathElementView, SetView)>::empty());
            lemma_wf_children(children_view(children@));
        }
        while i < self.children.len() || j < other.children.len()
            invariant
                ca == self@.children,
                cb == other@.children,
                ca.len() == self.children@.len(),
                cb.len() == other.children@.len(),
                forall|l: int| 0 <= l < self.children@.len() ==> #[trigger] ca[l] == (self.children@[l].0@, self.children@[l].1@),
                forall|l: int| 0 <= l < other.children@.len() ==> #[trigger] cb[l] == (other.children@[l].0@, other.children@[l].1@),
                keys_sorted(ca),
                keys_sorted(cb),
                forall|l: int| 0 <= l < ca.len() ==> child_ok(#[trigger] ca[l].1),
                forall|l: int| 0 <= l < cb.len() ==> child_ok(#[trigger] cb[l].1),
                i <= ca.len(),
                j <= cb.len(),
                keys_sorted(children_view(children@)),
                wf_children(children_view(children@)),
                forall|q: Seq<PathElementView>|
                    #![trigger under(children_view(children@), q)]
                    q.len() >= 2 ==> under(children_view(children@), q) == (under(ca.take(i as int), q) || under(cb.take(j as int), q)),
                children@.len() > 0 && i < ca.len() ==> element_order(children_view(children@).last().0, ca[i as int].0) < 0,
                children@.len() > 0 && j < cb.len() ==> element_order(children_view(children@).last().0, cb[j as int].0) < 0,
            decreases ca.len() + cb.len() - i - j,
        {
            proof {
                lemma_children_view(children@);
            }
            let ghost r0 = children_view(children@);
            let mut c: i8 = 0;
            if i < self.children.len() && j < other.children.len() {
                c = self.children[i].0.compare(&other.children[j].0);
                proof {
                    lemma_element_order_eq(ca[i as int].0, cb[j as int].0);
                }
            }
            let take_a = i < self.children.len() && (j == other.children.len() || c <= 0);
            let take_b = j < other.children.len() && (i == self.children.len() || c >= 0);
            let ghost entry: (PathElementView, SetView);
            let ghost from_a: bool = take_a;
            let ghost from_b: bool = take_b;
            if take_a && !take_b {
                let k = self.children[i].0.clone();
                let child = self.children[i].1.clone();
                proof {
                    entry = (k@, child@);
                }
                children.push((k, child));
            } else if take_b && !take_a {
                let k = other.children[j].0.clone();
                let child = other.children[j].1.clone();
                proof {
                    entry = (k@, child@);
                }
                children.push((k, child));
            } else {
                let k = self.children[i].0.clone();
                let child = self.children[i].1.union(&other.children[j].1);
                proof {
                    use_type_invariant(&child);
                    lemma_bare(ca[i as int].1);
                    let t = choose|t: Seq<PathElementView>| t.len() > 0 && #[trigger] contains_path(ca[i as int].1, t);
                    assert(contains_path(child@, t));
                    lemma_bare(child@);
                    assert(!child@.root) by {
                        assert(contains_path(child@, Seq::empty()) == (contains_path(ca[i as int].1, Seq::empty())
                            || contains_path(cb[j as int].1, Seq::empty())));
                    }
                    entry = (k@, child@);
                }
                children.push((k, child));
            }
            proof {
                lemma_children_view(children@);
                let r1 = children_view(children@);
                assert(r1 =~= r0.push(entry));
                if from_a {
                    assert(entry.0 == ca[i as int].0);
                }
                if from_b {
                    assert(entry.0 == cb[j as int].0);
                }
                assert(child_ok(entry.1));
                // keys stay sorted
                assert forall|x: int, y: int| 0 <= x < y < r1.len() implies element_order(#[trigger] r1[x].0, #[trigger] r1[y].0) < 0 by {
                    if y == r0.len() && x < r0.len() - 1 {
                        lemma_element_order_trans(r0[x].0, r0.last().0, entry.0);
                    }
                }
                assert forall|l: int| 0 <= l < r1.len() implies child_ok(#[trigger] r1[l].1) by {
                    if l < r0.len() {
                        lemma_wf_children(r0);
                        assert(r1[l] == r0[l]);
                    }
                }
                lemma_wf_children(r1);
                let ni: int = if from_a { i + 1 } else { i as int };
                let nj: int = if from_b { j + 1 } else { j as int };
                assert forall|q: Seq<PathElementView>| q.len() >= 2 implies
                    #[trigger] under(r1, q) == (under(ca.take(ni), q) || under(cb.take(nj), q)) by {
                    lemma_under_push(r0, entry, q);
                    if from_a {
                        lemma_under_take(ca, i as int, q);
                    }
                    if from_b {
                        lemma_under_take(cb, j as int, q);
                    }
                }
                if ni < ca.len() {
                    if from_a {
                        assert(element_order(ca[i as int].0, ca[ni].0) < 0);
                    } else {
                        lemma_element_order_eq(cb[j as int].0, ca[i as int].0);
                    }
                }
                if nj < cb.len() {
                    if from_b {
                        assert(element_order(cb[j as int].0, cb[nj].0) < 0);
                    } else {
                        lemma_element_order_eq(ca[i as int].0, cb[j as int].0);
                    }
                }
            }
            if take_a {
                i = i + 1;
            }
            if take_b {
                j = j + 1;
            }
        }
        proof {
            use_type_invariant(&members);
            assert(ca.take(ca.len() as int) =~= ca);
            assert(cb.take(cb.len() as int) =~= cb);
        }
        let r = FieldPathSet { members, children, root_in_set: self.root_in_set || other.root_in_set };
        proof {
            lemma_set_view(r);
            broadcast use vstd::seq_lib::group_seq_properties;
            assert forall|q: Seq<PathElementView>|
                contains_path(r@, q) == (contains_path(self@, q) || contains_path(other@, q)) by {
                if q.len() == 1 {
                    assert(r@.members.to_set().contains(q[0]) == (self@.members.to_set().contains(q[0])
                        || other@.members.to_set().contains(q[0])));
                }
                if q.len() >= 2 {
                    lemma_contains_under(r@, q);
                    lemma_contains_under(self@, q);
                    lemma_contains_under(other@, q);
                }
            }
        }
        r
    }

    /// Returns the intersection of two sets.
    pub fn intersection(&self, other: &FieldPathSet) -> (r: FieldPathSet)
        ensures
            forall|q: Seq<PathElementView>| contains_path(r@, q) == (contains_path(self@, q) && contains_path(other@, q)),
        decreases self,
    {
        proof {
            use_type_invariant(self);
            use_type_invariant(other);
            lemma_set_view(*self);
            lemma_set_view(*other);
            lemma_wf_children(self@.children);
            lemma_wf_children(other@.children);
        }
        let ghost ca = self@.children;
        let ghost cb = other@.children;
        let members = self.members.intersection(&other.members);
        let mut children: Vec<(PathElement, FieldPathSet)> = Vec::new();
        let mut i: usize = 0;
        let mut j: usize = 0;
        proof {
            lemma_children_view(children@);
            assert(children_view(children@) =~= Seq::<(PathElementView, SetView)>::empty());
            assert(ca.take(0) =~= Seq::<(PathElementView, SetView)>::empty());
            assert(cb.take(0) =~= Seq::<(PathElementView, SetView)>::empty());
            lemma_wf_children(children_view(children@));
        }
        while i < self.children.len() && j < other.children.len()
            invariant
                ca == self@.children,
                cb == other@.children,
                ca.len() == self.children@.len(),
                cb.len() == other.children@.len(),
                forall|l: int| 0 <= l < self.children@.len() ==> #[trigger] ca[l] == (self.children@[l].0@, self.children@[l].1@),
                forall|l: int| 0 <= l < other.children@.len() ==> #[trigger] cb[l] == (other.children@[l].0@, other.children@[l].1@),
                keys_sorted(ca),
                keys_sorted(cb),
                forall|l: int| 0 <= l < ca.len() ==> child_ok(#[trigger] ca[l].1),
                forall|l: int| 0 <= l < cb.len() ==> child_ok(#[trigger] cb[l].1),
                i <= ca.len(),
                j <= cb.len(),
                keys_sorted(children_view(children@)),
                wf_children(children_view(children@)),
                forall|q: Seq<PathElementView>|
                    #![trigger under(children_view(children@), q)]
                    q.len() >= 2 ==> under(children_view(children@), q) == (under(ca.take(i as int), q) && under(cb, q)),
                forall|q: Seq<PathElementView>|
                    #![trigger under(cb.take(j as int), q)]
                    q.len() >= 2 && under(cb.take(j as int), q) && under(ca, q) ==> under(ca.take(i as int), q),
                forall|l: int| 0 <= l < children@.len() && i < ca.len() ==> element_order(#[trigger] children_view(children@)[l].0, ca[i as int].0) < 0,
                j < cb.len() ==> forall|l: int| 0 <= l < i ==> element_order(#[trigger] ca[l].0, cb[j as int].0) < 0,
                i < ca.len() ==> forall|l: int| 0 <= l < j ==> element_order(#[trigger] cb[l].0, ca[i as int].0) < 0,
            decreases ca.len() + cb.len() - i - j,
        {
            proof {
                lemma_children_view(children@);
            }
            let ghost r0 = children_view(children@);
            let c = self.children[i].0.compare(&other.children[j].0);
            proof {
                lemma_element_order_eq(ca[i as int].0, cb[j as int].0);
            }
            if c < 0 {
                proof {
                    lemma_key_absent(cb, j as int, ca[i as int].0);
                    assert forall|q: Seq<PathElementView>| q.len() >= 2 implies
                        #[trigger] under(children_view(children@), q) == (under(ca.take(i + 1), q) && under(cb, q)) by {
                        lemma_under_take(ca, i as int, q);
                        if q[0] == ca[i as int].0 {
                            lemma_under_absent(cb, q);
                        }
                    }
                    if i + 1 < ca.len() {
                        assert forall|l: int| 0 <= l < j implies element_order(#[trigger] cb[l].0, ca[i + 1].0) < 0 by {
                            assert(element_order(ca[i as int].0, ca[i + 1].0) < 0);
                            lemma_element_order_trans(cb[l].0, ca[i as int].0, ca[i + 1].0);
                        }
                        assert forall|l: int| 0 <= l < children@.len() implies element_order(#[trigger] children_view(children@)[l].0, ca[i + 1].0) < 0 by {
                            assert(element_order(ca[i as int].0, ca[i + 1].0) < 0);
                            lemma_element_order_trans(r0[l].0, ca[i as int].0, ca[i + 1].0);
                        }
                    }
                    assert forall|q: Seq<PathElementView>| q.len() >= 2 && under(cb.take(j as int), q) && under(ca, q)
                        implies #[trigger] under(ca.take(i + 1), q) by {
                        lemma_under_take(ca, i as int, q);
                    }
                }
                i = i + 1;
            } else if c > 0 {
                proof {
                    assert forall|q: Seq<PathElementView>| q.len() >= 2 && under(cb.take(j + 1), q) && under(ca, q)
                        implies #[trigger] under(ca.take(i as int), q) by {
                        lemma_under_take(cb, j as int, q);
                        if q[0] == cb[j as int].0 && !under(cb.take(j as int), q) {
                            // the key of q is below ca[i], so the child of ca that holds q comes before i
                            let l = choose|l: int| 0 <= l < ca.len() && #[trigger] ca[l].0 == q[0] && contains_path(ca[l].1, q.drop_first());
                            if l >= i {
                                if l > i {
                                    assert(element_order(ca[i as int].0, ca[l].0) < 0);
                                    lemma_element_order_trans(cb[j as int].0, ca[i as int].0, ca[l].0);
                                }
                                lemma_element_order_eq(cb[j as int].0, ca[l].0);
                            }
                            assert(ca.take(i as int)[l] == ca[l]);
                        }
                    }
                    if j + 1 < cb.len() {
                        assert forall|l: int| 0 <= l < i implies element_order(#[trigger] ca[l].0, cb[j + 1].0) < 0 by {
                            assert(element_order(cb[j as int].0, cb[j + 1].0) < 0);
                            lemma_element_order_trans(ca[l].0, cb[j as int].0, cb[j + 1].0);
                        }
                    }
                }
                j = j + 1;
            } else {
                let child = self.children[i].1.intersection(&other.children[j].1);
                proof {
                    use_type_invariant(&child);
                    lemma_bare(child@);
                    assert(!child@.root) by {
                        assert(contains_path(child@, Seq::empty()) == (contains_path(ca[i as int].1, Seq::empty())
                            && contains_path(cb[j as int].1, Seq::empty())));
                    }
                    lemma_key_absent(children_view(children@), children@.len() as int, ca[i as int].0);
                }
                if !child.is_empty() {
                    let k = self.children[i].0.clone();
                    let ghost entry = (k@, child@);
                    children.push((k, child));
                    proof {
                        lemma_children_view(children@);
                        let r1 = children_view(children@);
                        assert(r1 =~= r0.push(entry));
                        assert(child_ok(entry.1));
                        assert forall|x: int, y: int| 0 <= x < y < r1.len() implies element_order(#[trigger] r1[x].0, #[trigger] r1[y].0) < 0 by {}
                        assert forall|l: int| 0 <= l < r1.len() implies child_ok(#[trigger] r1[l].1) by {
                            if l < r0.len() {
                                lemma_wf_children(r0);
                                assert(r1[l] == r0[l]);
                            }
                        }
                        lemma_wf_children(r1);
                        assert forall|q: Seq<PathElementView>| q.len() >= 2 implies
                            #[trigger] under(r1, q) == (under(ca.take(i + 1), q) && under(cb, q)) by {
                            lemma_under_push(r0, entry, q);
                            lemma_under_take(ca, i as int, q);
                            if q[0] == ca[i as int].0 {
                                lemma_under_at(cb, j as int, q);
                                lemma_key_absent(ca.take(i as int), i as int, ca[i as int].0);
                                lemma_under_absent(ca.take(i as int), q);
                            }
                        }
                    }
                } else {
                    proof {
                        assert forall|q: Seq<PathElementView>| q.len() >= 2 implies
                            #[trigger] under(children_view(children@), q) == (under(ca.take(i + 1), q) && under(cb, q)) by {
                            lemma_under_take(ca, i as int, q);
                            if q[0] == ca[i as int].0 {
                                lemma_under_at(cb, j as int, q);
                                lemma_under_absent(r0, q);
                                assert(!contains_path(child@, q.drop_first()));
                            }
                        }
                    }
                }
                proof {
                    lemma_children_view(children@);
                    let r1 = children_view(children@);
                    if i + 1 < ca.len() {
                        assert(element_order(ca[i as int].0, ca[i + 1].0) < 0);
                        assert forall|l: int| 0 <= l < j + 1 implies element_order(#[trigger] cb[l].0, ca[i + 1].0) < 0 by {
                            if l < j {
                                lemma_element_order_trans(cb[l].0, ca[i as int].0, ca[i + 1].0);
                            }
                        }
                        assert forall|l: int| 0 <= l < r1.len() implies element_order(#[trigger] r1[l].0, ca[i + 1].0) < 0 by {
                            if l < r0.len() {
                                assert(r1[l] == r0[l]);
                                lemma_element_order_trans(r0[l].0, ca[i as int].0, ca[i + 1].0);
                            }
                        }
                    }
                    if j + 1 < cb.len() {
                        assert(element_order(cb[j as int].0, cb[j + 1].0) < 0);
                        assert forall|l: int| 0 <= l < i + 1 implies element_order(#[trigger] ca[l].0, cb[j + 1].0) < 0 by {
                            if l < i {
                                lemma_element_order_trans(ca[l].0, cb[j as int].0, cb[j + 1].0);
                            }
                        }
                    }
                    assert forall|q: Seq<PathElementView>| q.len() >= 2 && under(cb.take(j + 1), q) && under(ca, q)
                        implies #[trigger] under(ca.take(i + 1), q) by {
                        lemma_under_take(ca, i as int, q);
                        lemma_under_take(cb, j as int, q);
                    }
                }
                i = i + 1;
                j = j + 1;
            }
        }
        proof {
            use_type_invariant(&members);
            if i == ca.len() {
                assert(ca.take(i as int) =~= ca);
            } else {
                assert(cb.take(j as int) =~= cb);
            }
        }
        let r = FieldPathSet { members, children, root_in_set: self.root_in_set && other.root_in_set };
        proof {
            lemma_set_view(r);
            broadcast use vstd::seq_lib::group_seq_properties;
            assert forall|q: Seq<PathElementView>|
                contains_path(r@, q) == (contains_path(self@, q) && contains_path(other@, q)) by {
                if q.len() == 1 {
                    assert(r@.members.to_set().contains(q[0]) == (self@.members.to_set().contains(q[0])
                        && other@.members.to_set().contains(q[0])));
                }
                if q.len() >= 2 {
                    lemma_contains_under(r@, q);
                    lemma_contains_under(self@, q);
                    lemma_contains_under(other@, q);
                    assert(under(children_view(r.children@), q) == (under(ca.take(i as int), q) && under(cb, q)));
                }
            }
        }
        r
    }

    /// Returns the difference of two sets (`self` minus `other`).
    pub fn difference(&self, other: &FieldPathSet) -> (r: FieldPathSet)
        ensures
            forall|q: Seq<PathElementView>| contains_path(r@, q) == (contains_path(self@, q) && !contains_path(other@, q)),
        decreases self,
    {
        proof {
            use_type_invariant(self);
            use_type_invariant(other);
            lemma_set_view(*self);
            lemma_set_view(*other);
            lemma_wf_children(self@.children);
            lemma_wf_children(other@.children);
        }
        let ghost ca = self@.children;
        let ghost cb = other@.children;
        let members = self.members.difference(&other.members);
        let mut children: Vec<(PathElement, FieldPathSet)> = Vec::new();
        let mut i: usize = 0;
        let mut j: usize = 0;
        proof {
            lemma_children_view(children@);
            assert(children_view(children@) =~= Seq::<(PathElementView, SetView)>::empty());
            assert(ca.take(0) =~= Seq::<(PathElementView, SetView)>::empty());
            lemma_wf_children(children_view(children@));
        }
        while i < self.children.len()
            invariant
                ca == self@.children,
                cb == other@.children,
                ca.len() == self.children@.len(),
                cb.len() == other.children@.len(),
                forall|l: int| 0 <= l < self.children@.len() ==> #[trigger] ca[l] == (self.children@[l].0@, self.children@[l].1@),
                forall|l: int| 0 <= l < other.children@.len() ==> #[trigger] cb[l] == (other.children@[l].0@, other.children@[l].1@),
                keys_sorted(ca),
                keys_sorted(cb),
                forall|l: int| 0 <= l < ca.len() ==> child_ok(#[trigger] ca[l].1),
                forall|l: int| 0 <= l < cb.len() ==> child_ok(#[trigger] cb[l].1),
                i <= ca.len(),
                j <= cb.len(),
                keys_sorted(children_view(children@)),
                wf_children(children_view(children@)),
                forall|q: Seq<PathElementView>|
                    #![trigger under(children_view(children@), q)]
                    q.len() >= 2 ==> under(children_view(children@), q) == (under(ca.take(i as int), q) && !under(cb, q)),
                forall|l: int| 0 <= l < children@.len() && i < ca.len() ==> element_order(#[trigger] children_view(children@)[l].0, ca[i as int].0) < 0,
                j < cb.len() ==> forall|l: int| 0 <= l < i ==> element_order(#[trigger] ca[l].0, cb[j as int].0) < 0,
                i < ca.len() ==> forall|l: int| 0 <= l < j ==> element_order(#[trigger] cb[l].0, ca[i as int].0) < 0,
            decreases ca.len() + cb.len() - i - j,
        {
            proof {
                lemma_children_view(children@);
            }
            let ghost r0 = children_view(children@);
            let mut c: i8 = -1;
            if j < other.children.len() {
                c = self.children[i].0.compare(&other.children[j].0);
                proof {
                    lemma_element_order_eq(ca[i as int].0, cb[j as int].0);
                }
            }
            if c < 0 {
                let k = self.children[i].0.clone();
                let child = self.children[i].1.clone();
                let ghost entry = (k@, child@);
                children.push((k, child));
                proof {
                    lemma_children_view(children@);
                    let r1 = children_view(children@);
                    assert(r1 =~= r0.push(entry));
                    lemma_key_absent(cb, j as int, ca[i as int].0);
                    lemma_key_absent(r0, r0.len() as int, ca[i as int].0);
                    assert forall|x: int, y: int| 0 <= x < y < r1.len() implies element_order(#[trigger] r1[x].0, #[trigger] r1[y].0) < 0 by {}
                    assert forall|l: int| 0 <= l < r1.len() implies child_ok(#[trigger] r1[l].1) by {
                        if l < r0.len() {
                            lemma_wf_children(r0);
                            assert(r1[l] == r0[l]);
                        }
                    }
                    lemma_wf_children(r1);
                    assert forall|q: Seq<PathElementView>| q.len() >= 2 implies
                        #[trigger] under(r1, q) == (under(ca.take(i + 1), q) && !under(cb, q)) by {
                        lemma_under_push(r0, entry, q);
                        lemma_under_take(ca, i as int, q);
                        if q[0] == ca[i as int].0 {
                            lemma_under_absent(cb, q);
                            lemma_key_absent(ca.take(i as int), i as int, ca[i as int].0);
                            lemma_under_absent(ca.take(i as int), q);
                        }
                    }
                    if i + 1 < ca.len() {
                        assert(element_order(ca[i as int].0, ca[i + 1].0) < 0);
                        assert forall|l: int| 0 <= l < j implies element_order(#[trigger] cb[l].0, ca[i + 1].0) < 0 by {
                            lemma_element_order_trans(cb[l].0, ca[i as int].0, ca[i + 1].0);
                        }
                        assert forall|l: int| 0 <= l < r1.len() implies element_order(#[trigger] r1[l].0, ca[i + 1].0) < 0 by {
                            if l < r0.len() {
                                assert(r1[l] == r0[l]);
                                lemma_element_order_trans(r0[l].0, ca[i as int].0, ca[i + 1].0);
                            }
                        }
                    }
                }
                i = i + 1;
            } else if c > 0 {
                proof {
                    if j + 1 < cb.len() {
                        assert forall|l: int| 0 <= l < i implies element_order(#[trigger] ca[l].0, cb[j + 1].0) < 0 by {
                            assert(element_order(cb[j as int].0, cb[j + 1].0) < 0);
                            lemma_element_order_trans(ca[l].0, cb[j as int].0, cb[j + 1].0);
                        }
                    }
                }
                j = j + 1;
            } else {
                let child = self.children[i].1.difference(&other.children[j].1);
                proof {
                    use_type_invariant(&child);
                    lemma_bare(child@);
                    assert(!child@.root) by {
                        assert(contains_path(child@, Seq::empty()) == (contains_path(ca[i as int].1, Seq::empty())
                            && !contains_path(cb[j as int].1, Seq::empty())));
                    }
                    lemma_key_absent(r0, r0.len() as int, ca[i as int].0);
                }
                if !child.is_empty() {
                    let k = self.children[i].0.clone();
                    let ghost entry = (k@, child@);
                    children.push((k, child));
                    proof {
                        lemma_children_view(children@);
                        let r1 = children_view(children@);
                        assert(r1 =~= r0.push(entry));
                        assert(child_ok(entry.1));
                        assert forall|x: int, y: int| 0 <= x < y < r1.len() implies element_order(#[trigger] r1[x].0, #[trigger] r1[y].0) < 0 by {}
                        assert forall|l: int| 0 <= l < r1.len() implies child_ok(#[trigger] r1[l].1) by {
                            if l < r0.len() {
                                lemma_wf_children(r0);
                                assert(r1[l] == r0[l]);
                            }
                        }
                        lemma_wf_children(r1);
                        assert forall|q: Seq<PathElementView>| q.len() >= 2 implies
                            #[trigger] under(r1, q) == (under(ca.take(i + 1), q) && !under(cb, q)) by {
                            lemma_under_push(r0, entry, q);
                            lemma_under_take(ca, i as int, q);
                            if q[0] == ca[i as int].0 {
                                lemma_under_at(cb, j as int, q);
                                lemma_key_absent(ca.take(i as int), i as int, ca[i as int].0);
                                lemma_under_absent(ca.take(i as int), q);
                            }
                        }
                    }
                } else {
                    proof {
                        assert forall|q: Seq<PathElementView>| q.len() >= 2 implies
                            #[trigger] under(children_view(children@), q) == (under(ca.take(i + 1), q) && !under(cb, q)) by {
                            lemma_under_take(ca, i as int, q);
                            if q[0] == ca[i as int].0 {
                                lemma_under_at(cb, j as int, q);
                                lemma_under_absent(r0, q);
                                assert(!contains_path(child@, q.drop_first()));
                            }
                        }
                    }
                }
                proof {
                    lemma_children_view(children@);
                    let r1 = children_view(children@);
                    if i + 1 < ca.len() {
                        assert(element_order(ca[i as int].0, ca[i + 1].0) < 0);
                        assert forall|l: int| 0 <= l < j + 1 implies element_order(#[trigger] cb[l].0, ca[i + 1].0) < 0 by {
                            if l < j {
                                lemma_element_order_trans(cb[l].0, ca[i as int].0, ca[i + 1].0);
                            }
                        }
                        assert forall|l: int| 0 <= l < r1.len() implies element_order(#[trigger] r1[l].0, ca[i + 1].0) < 0 by {
                            if l < r0.len() {
                                assert(r1[l] == r0[l]);
                                lemma_element_order_trans(r0[l].0, ca[i as int].0, ca[i + 1].0);
                            }
                        }
                    }
                    if j + 1 < cb.len() {
                        assert(element_order(cb[j as int].0, cb[j + 1].0) < 0);
                        assert forall|l: int| 0 <= l < i + 1 implies element_order(#[trigger] ca[l].0, cb[j + 1].0) < 0 by {
                            if l < i {
                                lemma_element_order_trans(ca[l].0, cb[j as int].0, cb[j + 1].0);
                            }
                        }
                    }
                }
                i = i + 1;
                j = j + 1;
            }
        }
        proof {
            use_type_invariant(&members);
            assert(ca.take(i as int) =~= ca);
        }
        let r = FieldPathSet { members, children, root_in_set: self.root_in_set && !other.root_in_set };
        proof {
            lemma_set_view(r);
            broadcast use vstd::seq_lib::group_seq_properties;
            assert forall|q: Seq<PathElementView>|
                contains_path(r@, q) == (contains_path(self@, q) && !contains_path(other@, q)) by {
                if q.len() == 1 {
                    assert(r@.members.to_set().contains(q[0]) == (self@.members.to_set().contains(q[0])
                        && !other@.members.to_set().contains(q[0])));
                }
                if q.len() >= 2 {
                    lemma_contains_under(r@, q);
                    lemma_contains_under(self@, q);
                    lemma_contains_under(other@, q);
                    assert(under(children_view(r.children@), q) == (under(ca.take(i as int), q) && !under(cb, q)));
                }
            }
        }
        r
    }

    /// Adds the paths of `other` to this set.
    pub fn union_into(&mut self, other: &FieldPathSet)
        ensures
            forall|q: Seq<PathElementView>|
                contains_path(final(self)@, q) == (contains_path(old(self)@, q) || contains_path(other@, q)),
    {
        let r = self.union(other);
        *self = r;
    }

    /// Returns true if the two sets hold the same paths.
    pub fn equals(&self, other: &FieldPathSet) -> (r: bool)
        ensures
            r == same_paths(self@, other@),
    {
        let d1 = self.difference(other);
        let d2 = other.difference(self);
        let r = d1.is_empty() && d2.is_empty();
        proof {
            if !r {
                if !no_paths(d1@) {
                    let q = choose|q: Seq<PathElementView>| contains_path(d1@, q);
                    assert(contains_path(self@, q) != contains_path(other@, q));
                } else {
                    let q = choose|q: Seq<PathElementView>| contains_path(d2@, q);
                    assert(contains_path(self@, q) != contains_path(other@, q));
                }
            } else {
                assert forall|q: Seq<PathElementView>| contains_path(self@, q) == contains_path(other@, q) by {
                    assert(!contains_path(d1@, q));
                    assert(!contains_path(d2@, q));
                }
            }
        }
        r
    }

    /// Returns the members: the paths of one element, in increasing order.
    pub fn members(&self) -> (r: &PathElementSet)
        ensures
            r@ == self@.members,
    {
        proof {
            lemma_set_view(*self);
        }
        &self.members
    }

    /// Returns the number of children. (The set is well formed.)
    pub fn child_count(&self) -> (r: usize)
        ensures
            r == self@.children.len(),
            wf_view(self@),
    {
        proof {
            use_type_invariant(self);
            lemma_set_view(*self);
        }
        self.children.len()
    }

    /// Returns the key and the set of the `i`-th child in key order.
    pub fn child_at(&self, i: usize) -> (r: (&PathElement, &FieldPathSet))
        requires
            i < self@.children.len(),
        ensures
            (r.0@, r.1@) == self@.children[i as int],
    {
        proof {
            lemma_set_view(*self);
        }
        (&self.children[i].0, &self.children[i].1)
    }

    /// Returns the set of paths below the element `pe`: the paths `p` such
    /// that `pe` followed by `p` is in this set and `p` is not empty.
    pub fn child(&self, pe: &PathElement) -> (r: Option<&FieldPathSet>)
        ensures
            r matches Some(c) ==> forall|q: Seq<PathElementView>|
                q.len() >= 1 ==> contains_path(c@, q) == contains_path(self@, seq![pe@] + q),
            r is None ==> forall|q: Seq<PathElementView>| q.len() >= 1 ==> !contains_path(self@, seq![pe@] + q),
            r matches Some(c) ==> child_of(self@.children, pe@) == Some(c@),
            r is None ==> child_of(self@.children, pe@) is None,
    {
        proof {
            use_type_invariant(self);
            lemma_set_view(*self);
        }
        let (i, found) = search_children(&self.children, pe);
        proof {
            lemma_children_view(self.children@);
        }
        proof {
            assert forall|q: Seq<PathElementView>| q.len() >= 1 implies (seq![pe@] + q).drop_first() == q && (seq![pe@] + q)[0] == pe@ by {
                assert((seq![pe@] + q).drop_first() =~= q);
            }
        }
        if found {
            proof {
                let cs = self@.children;
                assert(cs[i as int].0 == pe@);
                let k = choose|k: int| 0 <= k < cs.len() && #[trigger] cs[k].0 == pe@;
                if k < i {
                    lemma_element_order_eq(cs[k].0, cs[i as int].0);
                } else if i < k {
                    lemma_element_order_eq(cs[i as int].0, cs[k].0);
                }
                assert(k == i);
                assert forall|q: Seq<PathElementView>| q.len() >= 1 implies
                    contains_path(self.children@[i as int].1@, q) == contains_path(self@, seq![pe@] + q) by {
                    lemma_contains_under(self@, seq![pe@] + q);
                    lemma_under_at(self@.children, i as int, seq![pe@] + q);
                }
            }
            Some(&self.children[i].1)
        } else {
            proof {
                assert forall|q: Seq<PathElementView>| q.len() >= 1 implies !contains_path(self@, seq![pe@] + q) by {
                    lemma_contains_under(self@, seq![pe@] + q);
                    lemma_under_absent(self@.children, seq![pe@] + q);
                }
            }
            None
        }
    }

    /// Lists every path in the set: the empty path first if it is in the
    /// set, then the members in order, then the paths of each child in key
    /// order.
    pub fn iterate(&self) -> (r: Vec<Path>)
        ensures
            paths_view(r@) == (if self@.root { seq![Seq::<PathElementView>::empty()] } else { Seq::empty() })
                + listing(self@, Seq::empty()),
            forall|i: int| 0 <= i < r@.len() ==> contains_path(self@, #[trigger] r@[i]@),
            forall|q: Seq<PathElementView>| contains_path(self@, q) ==> exists|i: int| 0 <= i < r@.len() && #[trigger] r@[i]@ == q,
            paths_view(r@).no_duplicates(),
    {
        proof {
            use_type_invariant(self);
            lemma_set_view(*self);
        }
        let mut out: Vec<Path> = Vec::new();
        let prefix = Path::new();
        if self.root_in_set {
            out.push(Path::new());
        }
        let ghost head = paths_view(out@);
        proof {
            if self.root_in_set {
                assert(head =~= seq![Seq::<PathElementView>::empty()]);
            } else {
                assert(head =~= Seq::<Seq<PathElementView>>::empty());
            }
        }
        self.iterate_with_path(&prefix, &mut out);
        proof {
            let l = listing(self@, prefix@);
            lemma_listing(self@, prefix@);
            assert(paths_view(out@) == head + l);
            assert forall|i: int| 0 <= i < out@.len() implies contains_path(self@, #[trigger] out@[i]@) by {
                assert(paths_view(out@)[i] == out@[i]@);
                if i >= head.len() {
                    assert(l.contains(l[i - head.len()]));
                    let q = choose|q: Seq<PathElementView>| q.len() >= 1 && contains_path(self@, q) && l[i - head.len()] == prefix@ + q;
                    assert(prefix@ + q =~= q);
                } else {
                    assert(out@[i]@ =~= Seq::<PathElementView>::empty());
                }
            }
            assert forall|q: Seq<PathElementView>| contains_path(self@, q) implies exists|i: int| 0 <= i < out@.len() && #[trigger] out@[i]@ == q by {
                if q.len() == 0 {
                    assert(paths_view(out@)[0] == out@[0]@);
                    assert(out@[0]@ == q);
                } else {
                    assert(prefix@ + q =~= q);
                    assert(l.contains(prefix@ + q));
                    let k = choose|k: int| 0 <= k < l.len() && l[k] == prefix@ + q;
                    assert(paths_view(out@)[head.len() + k] == out@[head.len() + k]@);
                    assert(out@[head.len() + k]@ == q);
                }
            }
            lemma_set_listing_distinct(self@);
        }
        out
    }

    /// Appends to `out` the path `prefix` followed by each non-empty path of
    /// this set.
    fn iterate_with_path(&self, prefix: &Path, out: &mut Vec<Path>)
        ensures
            paths_view(final(out)@) == paths_view(old(out)@) + listing(self@, prefix@),
        decreases self,
    {
        proof {
            use_type_invariant(self);
            lemma_set_view(*self);
        }
        let ghost base = paths_view(out@);
        let ghost ms = self@.members;
        let mut k: usize = 0;
        let n = self.members.len();
        proof {
            assert(paths_view(out@) =~= base + member_paths(ms.take(0), prefix@));
        }
        while k < n
            invariant
                n == ms.len(),
                ms == self@.members,
                k <= n,
                paths_view(out@) == base + member_paths(ms.take(k as int), prefix@),
            decreases n - k,
        {
            let p = prefix.with(self.members.element_at(k).clone());
            let ghost before = paths_view(out@);
            out.push(p);
            proof {
                assert(ms.take(k + 1) =~= ms.take(k as int).push(ms[k as int]));
                assert(member_paths(ms.take(k + 1), prefix@) =~= member_paths(ms.take(k as int), prefix@).push(prefix@.push(ms[k as int])));
                assert(paths_view(out@) =~= before.push(p@));
            }
            k = k + 1;
        }
        let ghost mid = paths_view(out@);
        let ghost cs = self@.children;
        let mut c: usize = 0;
        proof {
            assert(ms.take(n as int) =~= ms);
            assert(cs.take(0) =~= Seq::<(PathElementView, SetView)>::empty());
            assert(paths_view(out@) =~= mid + children_listing(cs.take(0), prefix@));
        }
        while c < self.children.len()
            invariant
                cs == self@.children,
                cs.len() == self.children@.len(),
                forall|l: int| 0 <= l < self.children@.len() ==> #[trigger] cs[l] == (self.children@[l].0@, self.children@[l].1@),
                c <= cs.len(),
                paths_view(out@) == mid + children_listing(cs.take(c as int), prefix@),
            decreases cs.len() - c,
        {
            let sub = prefix.with(self.children[c].0.clone());
            self.children[c].1.iterate_with_path(&sub, out);
            proof {
                assert(cs.take(c + 1).drop_last() =~= cs.take(c as int));
                assert(paths_view(out@) =~= mid + children_listing(cs.take(c + 1), prefix@));
            }
            c = c + 1;
        }
        proof {
            assert(cs.take(cs.len() as int) =~= cs);
            assert(paths_view(out@) =~= base + listing(self@, prefix@));
        }
    }
}

/// The models of a sequence of paths.
pub open spec fn paths_view(ps: Seq<Path>) -> Seq<Seq<PathElementView>> {
    ps.map_values(|p: Path| p@)
}

/// The paths `prefix` followed by one member, in order.
pub open spec fn member_paths(ms: Seq<PathElementView>, prefix: Seq<PathElementView>) -> Seq<Seq<PathElementView>> {
    ms.map_values(|m: PathElementView| prefix.push(m))
}

/// The non-empty paths of a node, each after `prefix`: the members first,
/// then the paths of each child in order.
pub open spec fn listing(v: SetView, prefix: Seq<PathElementView>) -> Seq<Seq<PathElementView>>
    decreases v,
{
    member_paths(v.members, prefix) + children_listing(v.children, prefix)
}

pub open spec fn children_listing(cs: Seq<(PathElementView, SetView)>, prefix: Seq<PathElementView>) -> Seq<Seq<PathElementView>>
    decreases cs,
{
    if cs.len() == 0 {
        Seq::empty()
    } else {
        children_listing(cs.drop_last(), prefix) + listing(cs.last().1, prefix.push(cs.last().0))
    }
}

/// The listing of a well-formed node holds exactly its non-empty paths,
/// each after the prefix.
pub proof fn lemma_listing(v: SetView, prefix: Seq<PathElementView>)
    requires
        wf_view(v),
    ensures
        forall|x: Seq<PathElementView>| #[trigger] listing(v, prefix).contains(x) <==> exists|q: Seq<PathElementView>|
            q.len() >= 1 && contains_path(v, q) && x == prefix + q,
    decreases v,
{
    lemma_wf_children(v.children);
    lemma_children_listing(v.children, prefix);
    let l = listing(v, prefix);
    let mp = member_paths(v.members, prefix);
    let cl = children_listing(v.children, prefix);
    assert forall|x: Seq<PathElementView>| #[trigger] l.contains(x) <==> exists|q: Seq<PathElementView>|
        q.len() >= 1 && contains_path(v, q) && x == prefix + q by {
        if l.contains(x) {
            let k = choose|k: int| 0 <= k < l.len() && l[k] == x;
            if k < mp.len() {
                let q = seq![v.members[k]];
                assert(prefix + q =~= prefix.push(v.members[k]));
                assert(q[0] == v.members[k]);
                assert(contains_path(v, q));
            } else {
                assert(cl[k - mp.len()] == x);
                assert(cl.contains(x));
                let (j, t) = choose|j: int, t: Seq<PathElementView>|
                    0 <= j < v.children.len() && t.len() >= 1 && contains_path(v.children[j].1, t)
                        && x == prefix.push(v.children[j].0) + t;
                let q = seq![v.children[j].0] + t;
                assert(prefix + q =~= prefix.push(v.children[j].0) + t);
                assert(q.drop_first() =~= t);
                assert(q[0] == v.children[j].0);
                assert(contains_path(v, q));
            }
        }
        if exists|q: Seq<PathElementView>| q.len() >= 1 && contains_path(v, q) && x == prefix + q {
            let q = choose|q: Seq<PathElementView>| q.len() >= 1 && contains_path(v, q) && x == prefix + q;
            if q.len() == 1 {
                let k = choose|k: int| 0 <= k < v.members.len() && v.members[k] == q[0];
                assert(prefix + q =~= prefix.push(v.members[k]));
                assert(l[k] == x);
            } else {
                let j = choose|j: int| 0 <= j < v.children.len() && #[trigger] v.children[j].0 == q[0]
                    && contains_path(v.children[j].1, q.drop_first());
                let t = q.drop_first();
                assert(prefix + q =~= prefix.push(v.children[j].0) + t);
                assert(cl.contains(x));
                let k = choose|k: int| 0 <= k < cl.len() && cl[k] == x;
                assert(l[mp.len() + k] == x);
            }
        }
    }
}

/// The elements that are themselves paths of the set.
pub open spec fn top_members(v: SetView) -> Set<PathElementView> {
    Set::new(|e: PathElementView| contains_path(v, seq![e]))
}

/// The elements that lead to longer paths of the set.
pub open spec fn top_children(v: SetView) -> Set<PathElementView> {
    Set::new(
        |e: PathElementView| exists|q: Seq<PathElementView>| q.len() >= 1 && #[trigger] contains_path(v, seq![e] + q),
    )
}

/// The number of top-level members and of elements with paths below them.
pub open spec fn top_count(v: SetView) -> nat {
    top_members(v).len() + top_children(v).len()
}

/// A child node holds a path.
proof fn lemma_has_path(v: SetView)
    requires
        wf_view(v),
        !bare(v),
    ensures
        v.root || exists|q: Seq<PathElementView>| q.len() >= 1 && contains_path(v, q),
    decreases v,
{
    if !v.root {
        if v.members.len() > 0 {
            let q = seq![v.members[0]];
            assert(q[0] == v.members[0]);
            assert(contains_path(v, q));
        } else {
            lemma_wf_children(v.children);
            assert(child_ok(v.children[0].1));
            assert(decreases_to!(v => v.children));
            assert(decreases_to!(v.children => v.children[0]));
            assert(decreases_to!(v.children[0] => v.children[0].1));
            lemma_has_path(v.children[0].1);
            let q1 = choose|q: Seq<PathElementView>| q.len() >= 1 && contains_path(v.children[0].1, q);
            let q = seq![v.children[0].0] + q1;
            assert(q.drop_first() =~= q1);
            assert(q[0] == v.children[0].0);
            assert(contains_path(v, q));
        }
    }
}

/// The members and the child keys of a well-formed node are its top-level
/// elements, each once.
pub proof fn lemma_top_count(v: SetView)
    requires
        wf_view(v),
    ensures
        top_members(v) == v.members.to_set(),
        top_children(v) == v.children.map_values(|c: (PathElementView, SetView)| c.0).to_set(),
        top_count(v) == v.members.len() + v.children.len(),
{
    lemma_wf_children(v.children);
    let ms = v.members;
    let ks = v.children.map_values(|c: (PathElementView, SetView)| c.0);
    assert forall|e: PathElementView| #[trigger] top_members(v).contains(e) <==> ms.to_set().contains(e) by {
        let p = seq![e];
        assert(p[0] == e);
    }
    assert(top_members(v) =~= ms.to_set());
    assert forall|e: PathElementView| #[trigger] top_children(v).contains(e) <==> ks.to_set().contains(e) by {
        if top_children(v).contains(e) {
            let q = choose|q: Seq<PathElementView>| q.len() >= 1 && #[trigger] contains_path(v, seq![e] + q);
            let p = seq![e] + q;
            assert(p[0] == e);
            let i = choose|i: int| 0 <= i < v.children.len() && #[trigger] v.children[i].0 == p[0] && contains_path(
                v.children[i].1,
                p.drop_first(),
            );
            assert(ks[i] == e);
        }
        if ks.to_set().contains(e) {
            let i = choose|i: int| 0 <= i < ks.len() && ks[i] == e;
            assert(child_ok(v.children[i].1));
            lemma_has_path(v.children[i].1);
            let q1 = choose|q: Seq<PathElementView>| q.len() >= 1 && contains_path(v.children[i].1, q);
            let p = seq![e] + q1;
            assert(p.drop_first() =~= q1);
            assert(p[0] == e);
            assert(v.children[i].0 == p[0]);
            assert(contains_path(v, p));
        }
    }
    assert(top_children(v) =~= ks.to_set());
    assert forall|i: int, j: int| 0 <= i < ms.len() && 0 <= j < ms.len() && i != j implies ms[i] != ms[j] by {
        if ms[i] == ms[j] {
            lemma_sorted_unique(ms, i, j);
        }
    }
    assert forall|i: int, j: int| 0 <= i < ks.len() && 0 <= j < ks.len() && i != j implies ks[i] != ks[j] by {
        if i < j {
            assert(element_order(v.children[i].0, v.children[j].0) < 0);
            lemma_element_order_eq(v.children[i].0, v.children[j].0);
        } else {
            assert(element_order(v.children[j].0, v.children[i].0) < 0);
            lemma_element_order_eq(v.children[j].0, v.children[i].0);
        }
    }
    ms.unique_seq_to_set();
    ks.unique_seq_to_set();
}

/// The paths of a well-formed set, listed as `FieldPathSet::iterate` lists
/// them (the empty path first where the set holds it), each occur once.
pub proof fn lemma_set_listing_distinct(v: SetView)
    requires
        wf_view(v),
    ensures
        ((if v.root { seq![Seq::<PathElementView>::empty()] } else { Seq::empty() }) + listing(
            v,
            Seq::empty(),
        )).no_duplicates(),
{
    let head: Seq<Seq<PathElementView>> = if v.root { seq![Seq::<PathElementView>::empty()] } else { Seq::empty() };
    let l = listing(v, Seq::empty());
    lemma_listing_distinct(v, Seq::empty());
    lemma_listing(v, Seq::empty());
    assert forall|i: int, j: int| 0 <= i < head.len() && 0 <= j < l.len() implies head[i] != l[j] by {
        assert(l.contains(l[j]));
        let q = choose|q: Seq<PathElementView>| q.len() >= 1 && contains_path(v, q) && l[j] == Seq::<PathElementView>::empty() + q;
        assert(Seq::<PathElementView>::empty() + q =~= q);
    }
    vstd::seq_lib::lemma_no_dup_in_concat(head, l);
}

/// The listing of a well-formed node holds each of its paths once.
pub proof fn lemma_listing_distinct(v: SetView, prefix: Seq<PathElementView>)
    requires
        wf_view(v),
    ensures
        listing(v, prefix).no_duplicates(),
    decreases v,
{
    lemma_wf_children(v.children);
    lemma_children_listing(v.children, prefix);
    lemma_children_listing_distinct(v.children, prefix);
    let mp = member_paths(v.members, prefix);
    let cl = children_listing(v.children, prefix);
    assert forall|i: int, j: int| 0 <= i < mp.len() && 0 <= j < mp.len() && i != j implies mp[i] != mp[j] by {
        if mp[i] == mp[j] {
            assert(mp[i][prefix.len() as int] == v.members[i]);
            assert(mp[j][prefix.len() as int] == v.members[j]);
            lemma_sorted_unique(v.members, i, j);
        }
    }
    assert forall|i: int, j: int| 0 <= i < mp.len() && 0 <= j < cl.len() implies mp[i] != cl[j] by {
        assert(cl.contains(cl[j]));
        let (k, t) = choose|k: int, t: Seq<PathElementView>|
            0 <= k < v.children.len() && t.len() >= 1 && contains_path(v.children[k].1, t) && cl[j] == prefix.push(
                v.children[k].0,
            ) + t;
        assert(mp[i].len() == prefix.len() + 1);
    }
    vstd::seq_lib::lemma_no_dup_in_concat(mp, cl);
}

/// The listing of well-formed children under distinct keys holds each path
/// once.
pub proof fn lemma_children_listing_distinct(cs: Seq<(PathElementView, SetView)>, prefix: Seq<PathElementView>)
    requires
        keys_sorted(cs),
        forall|i: int| 0 <= i < cs.len() ==> child_ok(#[trigger] cs[i].1),
    ensures
        children_listing(cs, prefix).no_duplicates(),
    decreases cs,
{
    if cs.len() > 0 {
        let init = cs.drop_last();
        assert forall|i: int| 0 <= i < init.len() implies child_ok(#[trigger] init[i].1) by {
            assert(init[i] == cs[i]);
        }
        assert forall|i: int, j: int| 0 <= i < j < init.len() implies element_order(
            #[trigger] init[i].0,
            #[trigger] init[j].0,
        ) < 0 by {
            assert(init[i] == cs[i]);
            assert(init[j] == cs[j]);
        }
        lemma_children_listing_distinct(init, prefix);
        lemma_children_listing(init, prefix);
        let last = cs.last();
        assert(child_ok(cs[cs.len() - 1].1));
        lemma_listing_distinct(last.1, prefix.push(last.0));
        lemma_listing(last.1, prefix.push(last.0));
        let a = children_listing(init, prefix);
        let b = listing(last.1, prefix.push(last.0));
        assert forall|i: int, j: int| 0 <= i < a.len() && 0 <= j < b.len() implies a[i] != b[j] by {
            assert(a.contains(a[i]));
            assert(b.contains(b[j]));
            let (k, t) = choose|k: int, t: Seq<PathElementView>|
                0 <= k < init.len() && t.len() >= 1 && contains_path(init[k].1, t) && a[i] == prefix.push(init[k].0) + t;
            let q = choose|q: Seq<PathElementView>| q.len() >= 1 && contains_path(last.1, q) && b[j] == prefix.push(last.0) + q;
            assert(a[i][prefix.len() as int] == init[k].0);
            assert(b[j][prefix.len() as int] == last.0);
            assert(init[k] == cs[k]);
            assert(element_order(cs[k].0, cs[cs.len() - 1].0) < 0);
            lemma_element_order_eq(cs[k].0, cs[cs.len() - 1].0);
        }
        vstd::seq_lib::lemma_no_dup_in_concat(a, b);
    }
}

pub proof fn lemma_children_listing(cs: Seq<(PathElementView, SetView)>, prefix: Seq<PathElementView>)
    requires
        forall|i: int| 0 <= i < cs.len() ==> child_ok(#[trigger] cs[i].1),
    ensures
        forall|x: Seq<PathElementView>| #[trigger] children_listing(cs, prefix).contains(x) <==> exists|j: int, t: Seq<PathElementView>|
            0 <= j < cs.len() && t.len() >= 1 && contains_path(cs[j].1, t) && x == prefix.push(cs[j].0) + t,
    decreases cs,
{
    if cs.len() > 0 {
        let init = cs.drop_last();
        assert forall|i: int| 0 <= i < init.len() implies child_ok(#[trigger] init[i].1) by {
            assert(init[i] == cs[i]);
        }
        lemma_children_listing(init, prefix);
        let last = cs.last();
        assert(child_ok(cs[cs.len() - 1].1));
        lemma_listing(last.1, prefix.push(last.0));
        let a = children_listing(init, prefix);
        let b = listing(last.1, prefix.push(last.0));
        assert forall|x: Seq<PathElementView>| #[trigger] children_listing(cs, prefix).contains(x) <==> exists|j: int, t: Seq<PathElementView>|
            0 <= j < cs.len() && t.len() >= 1 && contains_path(cs[j].1, t) && x == prefix.push(cs[j].0) + t by {
            let all = children_listing(cs, prefix);
            assert(all == a + b);
            if all.contains(x) {
                let k = choose|k: int| 0 <= k < all.len() && all[k] == x;
                if k < a.len() {
                    assert(a.contains(x));
                    let (j, t) = choose|j: int, t: Seq<PathElementView>|
                        0 <= j < init.len() && t.len() >= 1 && contains_path(init[j].1, t) && x == prefix.push(init[j].0) + t;
                    assert(init[j] == cs[j]);
                } else {
                    assert(b[k - a.len()] == x);
                    assert(b.contains(x));
                    let q = choose|q: Seq<PathElementView>| q.len() >= 1 && contains_path(last.1, q) && x == prefix.push(last.0) + q;
                    assert(cs[cs.len() - 1] == last);
                }
            }
            if exists|j: int, t: Seq<PathElementView>|
                0 <= j < cs.len() && t.len() >= 1 && contains_path(cs[j].1, t) && x == prefix.push(cs[j].0) + t {
                let (j, t) = choose|j: int, t: Seq<PathElementView>|
                    0 <= j < cs.len() && t.len() >= 1 && contains_path(cs[j].1, t) && x == prefix.push(cs[j].0) + t;
                if j < cs.len() - 1 {
                    assert(init[j] == cs[j]);
                    assert(a.contains(x));
                    let k = choose|k: int| 0 <= k < a.len() && a[k] == x;
                    assert(all[k] == x);
                } else {
                    assert(b.contains(x));
                    let k = choose|k: int| 0 <= k < b.len() && b[k] == x;
                    assert(all[a.len() + k] == x);
                }
            }
        }
    }
}

impl PartialEq for FieldPathSet {
    fn eq(&self, other: &FieldPathSet) -> (r: bool) {
        self.equals(other)
    }
}

impl vstd::std_specs::cmp::PartialEqSpecImpl for FieldPathSet {
    open spec fn obeys_eq_spec() -> bool {
        true
    }

    open spec fn eq_spec(&self, other: &FieldPathSet) -> bool {
        same_paths(self@, other@)
    }
}

impl Eq for FieldPathSet {}

/// Some prefix of `q` (the empty path and `q` itself included) is in the
/// set.
pub open spec fn covers(v: SetView, q: Seq<PathElementView>) -> bool {
    exists|k: int| 0 <= k <= q.len() && #[trigger] contains_path(v, q.take(k))
}

impl FieldPathSet {
    /// Returns true if some prefix of `path` (itself included) is in the
    /// set.
    pub fn covers_path(&self, path: &Path) -> (r: bool)
        ensures
            r == covers(self@, path@),
    {
        let n = path.len();
        let mut k: usize = 0;
        while k < n
            invariant
                n == path@.len(),
                k <= n,
                forall|j: int| 0 <= j < k ==> !#[trigger] contains_path(self@, path@.take(j)),
            decreases n - k,
        {
            let pre = path.prefix(k);
            if self.has(&pre) {
                return true;
            }
            k = k + 1;
        }
        proof {
            assert(path@.take(n as int) =~= path@);
        }
        self.has(path)
    }

    /// Returns the paths of the set that no path of `other` covers: the
    /// paths of `other` and everything below them are taken out.
    pub fn recursive_difference(&self, other: &FieldPathSet) -> (r: FieldPathSet)
        ensures
            forall|q: Seq<PathElementView>| #[trigger] contains_path(r@, q) == (contains_path(self@, q) && !covers(other@, q)),
    {
        let paths = self.iterate();
        let mut r = FieldPathSet::new();
        let mut i: usize = 0;
        while i < paths.len()
            invariant
                i <= paths@.len(),
                forall|j: int| 0 <= j < paths@.len() ==> contains_path(self@, #[trigger] paths@[j]@),
                forall|q: Seq<PathElementView>| #[trigger] contains_path(r@, q) == (exists|j: int|
                    0 <= j < i && #[trigger] paths@[j]@ == q && !covers(other@, q)),
            decreases paths@.len() - i,
        {
            if !other.covers_path(&paths[i]) {
                r.insert(&paths[i]);
            }
            proof {
                assert forall|q: Seq<PathElementView>| #[trigger] contains_path(r@, q) == (exists|j: int|
                    0 <= j < i + 1 && #[trigger] paths@[j]@ == q && !covers(other@, q)) by {
                    if q == paths@[i as int]@ && !covers(other@, q) {
                        assert(paths@[i as int]@ == q);
                    }
                    if exists|j: int| 0 <= j < i + 1 && #[trigger] paths@[j]@ == q && !covers(other@, q) {
                        let j = choose|j: int| 0 <= j < i + 1 && #[trigger] paths@[j]@ == q && !covers(other@, q);
                        if j < i {
                            assert(exists|j: int| 0 <= j < i && #[trigger] paths@[j]@ == q && !covers(other@, q));
                        }
                    }
                }
            }
            i = i + 1;
        }
        proof {
            assert forall|q: Seq<PathElementView>| #[trigger] contains_path(r@, q) == (contains_path(self@, q) && !covers(
                other@,
                q,
            )) by {
                if contains_path(self@, q) && !covers(other@, q) {
                    let j = choose|j: int| 0 <= j < paths@.len() && #[trigger] paths@[j]@ == q;
                    assert(paths@[j]@ == q);
                }
            }
        }
        r
    }
}

} // verus!
