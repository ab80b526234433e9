//! Maps from path elements to values, kept sorted by path element.

use super::path::{elements_view, element_order, lemma_element_order_eq, lemma_element_order_trans, PathElement, PathElementView};
use super::set::sorted;
use crate::value::Value;
use vstd::prelude::*;

verus! {

/// The keys of the entries are strictly increasing in the element order.
pub open spec fn entry_keys_sorted<T>(s: Seq<(PathElementView, T)>) -> bool {
    forall|i: int, j: int| 0 <= i < j < s.len() ==> element_order(#[trigger] s[i].0, #[trigger] s[j].0) < 0
}

/// Some entry has key `k`.
pub open spec fn has_entry<T>(s: Seq<(PathElementView, T)>, k: PathElementView) -> bool {
    exists|i: int| 0 <= i < s.len() && #[trigger] s[i].0 == k
}

/// The position of the entry with key `k`.
pub open spec fn entry_index<T>(s: Seq<(PathElementView, T)>, k: PathElementView) -> int {
    choose|i: int| 0 <= i < s.len() && #[trigger] s[i].0 == k
}

/// The map that the entries stand for.
pub open spec fn entries_as_map<T>(s: Seq<(PathElementView, T)>) -> Map<PathElementView, T> {
    Map::new(|k: PathElementView| has_entry(s, k), |k: PathElementView| s[entry_index(s, k)].1)
}

/// In a sorted sequence of entries the entry at position `i` is the one the
/// map holds for its key.
pub proof fn lemma_entries_as_map_at<T>(s: Seq<(PathElementView, T)>, i: int)
    requires
        entry_keys_sorted(s),
        0 <= i < s.len(),
    ensures
        entries_as_map(s).contains_key(s[i].0),
        entries_as_map(s)[s[i].0] == s[i].1,
{
    assert(has_entry(s, s[i].0));
    let j = entry_index(s, s[i].0);
    lemma_key_unique(s, i, j);
}

proof fn lemma_key_unique<T>(s: Seq<(PathElementView, T)>, i: int, j: int)
    requires
        entry_keys_sorted(s),
        0 <= i < s.len(),
        0 <= j < s.len(),
        s[i].0 == s[j].0,
    ensures
        i == j,
{
    if i < j {
        lemma_element_order_eq(s[i].0, s[j].0);
    } else if j < i {
        lemma_element_order_eq(s[j].0, s[i].0);
    }
}

/// Giving the entry at position `i` a new value gives its key that value in
/// the map.
proof fn lemma_update_map<T>(s: Seq<(PathElementView, T)>, i: int, x: T)
    requires
        entry_keys_sorted(s),
        0 <= i < s.len(),
    ensures
        entry_keys_sorted(s.update(i, (s[i].0, x))),
        entries_as_map(s.update(i, (s[i].0, x))) == entries_as_map(s).insert(s[i].0, x),
{
    let s1 = s.update(i, (s[i].0, x));
    let k = s[i].0;
    assert(s1.len() == s.len());
    assert forall|a: int, b: int| 0 <= a < b < s1.len() implies element_order(#[trigger] s1[a].0, #[trigger] s1[b].0) < 0 by {
        assert(s1[a].0 == s[a].0);
        assert(s1[b].0 == s[b].0);
    }
    let m0 = entries_as_map(s);
    let m1 = entries_as_map(s1);
    assert forall|y: PathElementView| m1.contains_key(y) <==> m0.insert(k, x).contains_key(y) by {
        if has_entry(s, y) {
            let j = entry_index(s, y);
            assert(s1[j].0 == y);
        }
        if has_entry(s1, y) {
            let j = entry_index(s1, y);
            assert(s[j].0 == y);
        }
    }
    assert forall|y: PathElementView| #[trigger] m1.contains_key(y) implies m1[y] == m0.insert(k, x)[y] by {
        let j = entry_index(s1, y);
        lemma_entries_as_map_at(s1, j);
        if j != i {
            lemma_entries_as_map_at(s, j);
            if y == k {
                lemma_key_unique(s1, j, i);
            }
        } else {
            assert(y == k);
        }
    }
    assert(m1 =~= m0.insert(k, x));
}

/// A map from path elements to values, sorted by path element: the keys
/// and the values are held side by side.
pub struct PathElementMap<T> {
    keys: Vec<PathElement>,
    values: Vec<T>,
}

spec fn pairs_view<T>(keys: Seq<PathElement>, values: Seq<T>) -> Seq<(PathElementView, T)> {
    Seq::new(keys.len(), |i: int| (keys[i]@, values[i]))
}

impl<T> View for PathElementMap<T> {
    type V = Seq<(PathElementView, T)>;

    closed spec fn view(&self) -> Seq<(PathElementView, T)> {
        pairs_view(self.keys@, self.values@)
    }
}

/// A map from path elements to values of the library's value type.
pub type PathElementValueMap = PathElementMap<Value>;

impl<T> PathElementMap<T> {
    #[verifier::type_invariant]
    closed spec fn keys_increasing(&self) -> bool {
        &&& self.keys@.len() == self.values@.len()
        &&& sorted(elements_view(self.keys@))
    }

    proof fn lemma_view_sorted(&self)
        requires
            self.keys_increasing(),
        ensures
            entry_keys_sorted(self@),
            self@.len() == self.keys@.len(),
            self@.len() == self.values@.len(),
    {
        let s = self@;
        assert forall|i: int, j: int| 0 <= i < j < s.len() implies element_order(#[trigger] s[i].0, #[trigger] s[j].0) < 0 by {
            assert(s[i].0 == elements_view(self.keys@)[i]);
            assert(s[j].0 == elements_view(self.keys@)[j]);
        }
    }

    /// The map that the entries stand for.
    pub open spec fn as_map(&self) -> Map<PathElementView, T> {
        entries_as_map(self@)
    }

    /// Creates an empty map with room for `capacity` entries.
    pub fn new(capacity: usize) -> (r: PathElementMap<T>)
        ensures
            r@ == Seq::<(PathElementView, T)>::empty(),
    {
        let r = PathElementMap { keys: Vec::with_capacity(capacity), values: Vec::with_capacity(capacity) };
        assert(r@ =~= Seq::<(PathElementView, T)>::empty());
        r
    }

    /// Returns the number of entries; their keys are strictly increasing.
    pub fn len(&self) -> (r: usize)
        ensures
            r == self@.len(),
            entry_keys_sorted(self@),
    {
        proof {
            use_type_invariant(self);
            self.lemma_view_sorted();
        }
        self.keys.len()
    }

    /// Returns true if the map has no entry.
    pub fn is_empty(&self) -> (r: bool)
        ensures
            r == (self@.len() == 0),
    {
        self.keys.len() == 0
    }

    /// Finds the position of `pe`, or the position where it would be
    /// inserted to keep the keys increasing.
    fn search(&self, pe: &PathElement) -> (r: (usize, bool))
        ensures
            entry_keys_sorted(self@),
            r.0 <= self@.len(),
            r.1 ==> r.0 < self@.len() && self@[r.0 as int].0 == pe@,
            forall|j: int| 0 <= j < r.0 ==> element_order(#[trigger] self@[j].0, pe@) < 0,
            !r.1 ==> forall|j: int| r.0 <= j < self@.len() ==> element_order(pe@, #[trigger] self@[j].0) < 0,
    {
        proof {
            use_type_invariant(self);
            self.lemma_view_sorted();
        }
        let ghost s = self@;
        let mut lo: usize = 0;
        let mut hi: usize = self.keys.len();
        while lo < hi
            invariant
                s == self@,
                s.len() == self.keys@.len(),
                self.keys@.len() == self.values@.len(),
                entry_keys_sorted(s),
                lo <= hi <= s.len(),
                forall|j: int| 0 <= j < lo ==> element_order(#[trigger] s[j].0, pe@) < 0,
                forall|j: int| hi <= j < s.len() ==> element_order(pe@, #[trigger] s[j].0) < 0,
            decreases hi - lo,
        {
            let mid = lo + (hi - lo) / 2;
            let c = self.keys[mid].compare(pe);
            proof {
                assert(s[mid as int].0 == self.keys@[mid as int]@);
                lemma_element_order_eq(s[mid as int].0, pe@);
            }
            if c == 0 {
                return (mid, true);
            } else if c < 0 {
                proof {
                    assert forall|j: int| 0 <= j < mid + 1 implies element_order(#[trigger] s[j].0, pe@) < 0 by {
                        if j < mid {
                            lemma_element_order_trans(s[j].0, s[mid as int].0, pe@);
                        }
                    }
                }
                lo = mid + 1;
            } else {
                proof {
                    assert forall|j: int| mid <= j < s.len() implies element_order(pe@, #[trigger] s[j].0) < 0 by {
                        if j > mid {
                            lemma_element_order_trans(pe@, s[mid as int].0, s[j].0);
                        }
                    }
                }
                hi = mid;
            }
        }
        (lo, false)
    }

    /// When the search does not find `pe`, no entry has it as key.
    proof fn lemma_search_absent(s: Seq<(PathElementView, T)>, i: int, pe: PathElementView)
        requires
            0 <= i <= s.len(),
            forall|j: int| 0 <= j < i ==> element_order(#[trigger] s[j].0, pe) < 0,
            forall|j: int| i <= j < s.len() ==> element_order(pe, #[trigger] s[j].0) < 0,
        ensures
            !has_entry(s, pe),
    {
        if has_entry(s, pe) {
            let j = entry_index(s, pe);
            lemma_element_order_eq(pe, pe);
            if j < i {
                assert(element_order(s[j].0, pe) < 0);
            } else {
                assert(element_order(pe, s[j].0) < 0);
            }
        }
    }

    /// Inserts `pe` with `value`; an entry already present for `pe` gets the
    /// new value.
    #[verifier::spinoff_prover]
    #[verifier::rlimit(40)]
    pub fn insert(&mut self, pe: PathElement, value: T)
        ensures
            final(self).as_map() == old(self).as_map().insert(pe@, value),
    {
        proof {
            use_type_invariant(&*self);
            self.lemma_view_sorted();
        }
        let ghost s0 = self@;
        let ghost k = pe@;
        let ghost entry = (pe@, value);
        let (i, found) = self.search(&pe);
        let mut tmp = PathElementMap::new(0);
        std::mem::swap(self, &mut tmp);
        let PathElementMap { mut keys, mut values } = tmp;
        if found {
            keys.set(i, pe);
            values.set(i, value);
        } else {
            keys.insert(i, pe);
            values.insert(i, value);
        }
        proof {
            let s1 = pairs_view(keys@, values@);
            if found {
                assert(s1 =~= s0.update(i as int, entry));
            } else {
                assert(s1 =~= s0.insert(i as int, entry));
                Self::lemma_search_absent(s0, i as int, k);
                assert forall|a: int, b: int| 0 <= a < b < s1.len() implies element_order(#[trigger] s1[a].0, #[trigger] s1[b].0) < 0 by {
                    if a < i && b > i {
                        lemma_element_order_trans(s0[a].0, k, s0[b - 1].0);
                    } else if a > i {
                        assert(s1[a] == s0[a - 1]);
                        assert(s1[b] == s0[b - 1]);
                    } else if b < i {
                        assert(s1[a] == s0[a]);
                        assert(s1[b] == s0[b]);
                    }
                }
            }
            assert(entry_keys_sorted(s1));
            let m0 = entries_as_map(s0);
            let m1 = entries_as_map(s1);
            assert forall|x: PathElementView| m1.contains_key(x) <==> m0.insert(k, value).contains_key(x) by {
                if has_entry(s0, x) {
                    let j = entry_index(s0, x);
                    if found {
                        if j != i {
                            assert(s1[j].0 == x);
                        }
                    } else if j < i {
                        assert(s1[j].0 == x);
                    } else {
                        assert(s1[j + 1].0 == x);
                    }
                }
                if has_entry(s1, x) && x != k {
                    let j = entry_index(s1, x);
                    if found {
                        assert(s0[j].0 == x);
                    } else if j < i {
                        assert(s0[j].0 == x);
                    } else {
                        assert(j != i);
                        assert(s0[j - 1].0 == x);
                    }
                }
                assert(s1[i as int].0 == k);
            }
            assert forall|x: PathElementView| #[trigger] m1.contains_key(x) implies m1[x] == m0.insert(k, value)[x] by {
                let j = entry_index(s1, x);
                lemma_entries_as_map_at(s1, j);
                if x != k {
                    if found {
                        lemma_entries_as_map_at(s0, j);
                    } else if j < i {
                        lemma_entries_as_map_at(s0, j);
                    } else {
                        lemma_entries_as_map_at(s0, j - 1);
                    }
                } else {
                    lemma_key_unique(s1, j, i as int);
                }
            }
            assert(m1 =~= m0.insert(k, value));
            assert forall|a: int, b: int| 0 <= a < b < keys@.len() implies element_order(#[trigger] elements_view(keys@)[a], #[trigger] elements_view(keys@)[b]) < 0 by {
                assert(s1[a].0 == elements_view(keys@)[a]);
                assert(s1[b].0 == elements_view(keys@)[b]);
            }
        }
        *self = PathElementMap { keys, values };
    }

    /// Returns the value of `pe`, if any.
    pub fn get(&self, pe: &PathElement) -> (r: Option<&T>)
        ensures
            r is Some == self.as_map().contains_key(pe@),
            r matches Some(v) ==> *v == self.as_map()[pe@],
    {
        proof {
            use_type_invariant(self);
        }
        let (i, found) = self.search(pe);
        if found {
            proof {
                lemma_entries_as_map_at(self@, i as int);
            }
            Some(&self.values[i])
        } else {
            proof {
                Self::lemma_search_absent(self@, i as int, pe@);
            }
            None
        }
    }

    /// Returns the value of `pe` for modification, if any.
    pub fn get_mut(&mut self, pe: &PathElement) -> (r: Option<&mut T>)
        ensures
            r is Some == old(self).as_map().contains_key(pe@),
            r matches Some(v) ==> *v == old(self).as_map()[pe@] && final(self)@ == old(self)@.update(
                entry_index(old(self)@, pe@),
                (pe@, *final(v)),
            ) && final(self).as_map() == old(self).as_map().insert(pe@, *final(v)),
            r is None ==> final(self)@ == old(self)@,
    {
        proof {
            use_type_invariant(&*self);
            self.lemma_view_sorted();
        }
        let ghost s0 = self@;
        let (i, found) = self.search(pe);
        if found {
            proof {
                lemma_entries_as_map_at(self@, i as int);
            }
            let v = &mut self.values[i];
            proof {
                lemma_update_map(s0, i as int, *final(v));
                assert(entry_index(s0, pe@) == i) by {
                    lemma_key_unique(s0, i as int, entry_index(s0, pe@));
                }
            }
            Some(v)
        } else {
            proof {
                Self::lemma_search_absent(self@, i as int, pe@);
            }
            None
        }
    }

    /// Returns true if the map has an entry for `pe`.
    pub fn contains(&self, pe: &PathElement) -> (r: bool)
        ensures
            r == self.as_map().contains_key(pe@),
    {
        let (i, found) = self.search(pe);
        proof {
            if found {
                lemma_entries_as_map_at(self@, i as int);
            } else {
                Self::lemma_search_absent(self@, i as int, pe@);
            }
        }
        found
    }

    /// Removes the entry of `pe` and returns its value, if it was present.
    pub fn remove(&mut self, pe: &PathElement) -> (r: Option<T>)
        ensures
            r is Some == old(self).as_map().contains_key(pe@),
            r matches Some(v) ==> v == old(self).as_map()[pe@],
            final(self).as_map() == old(self).as_map().remove(pe@),
    {
        proof {
            use_type_invariant(&*self);
            self.lemma_view_sorted();
        }
        let ghost s0 = self@;
        let ghost k = pe@;
        let (i, found) = self.search(pe);
        if found {
            let mut tmp = PathElementMap::new(0);
            std::mem::swap(self, &mut tmp);
            let PathElementMap { mut keys, mut values } = tmp;
            keys.remove(i);
            let removed = values.remove(i);
            proof {
                lemma_entries_as_map_at(s0, i as int);
                let s1 = pairs_view(keys@, values@);
                assert(s1 =~= s0.remove(i as int));
                assert forall|a: int, b: int| 0 <= a < b < s1.len() implies element_order(#[trigger] s1[a].0, #[trigger] s1[b].0) < 0 by {
                    if a < i && b >= i {
                        assert(s1[a] == s0[a]);
                        assert(s1[b] == s0[b + 1]);
                    } else if a >= i {
                        assert(s1[a] == s0[a + 1]);
                        assert(s1[b] == s0[b + 1]);
                    } else {
                        assert(s1[a] == s0[a]);
                        assert(s1[b] == s0[b]);
                    }
                }
                let m0 = entries_as_map(s0);
                let m1 = entries_as_map(s1);
                assert forall|x: PathElementView| m1.contains_key(x) <==> m0.remove(k).contains_key(x) by {
                    if has_entry(s0, x) && x != k {
                        let j = entry_index(s0, x);
                        if j < i {
                            assert(s1[j].0 == x);
                        } else {
                            assert(j != i);
                            assert(s1[j - 1].0 == x);
                        }
                    }
                    if has_entry(s1, x) {
                        let j = entry_index(s1, x);
                        if j < i {
                            assert(s0[j].0 == x);
                            if x == k {
                                lemma_key_unique(s0, j, i as int);
                            }
                        } else {
                            assert(s0[j + 1].0 == x);
                            if x == k {
                                lemma_key_unique(s0, j + 1, i as int);
                            }
                        }
                    }
                }
                assert forall|x: PathElementView| #[trigger] m1.contains_key(x) implies m1[x] == m0.remove(k)[x] by {
                    let j = entry_index(s1, x);
                    lemma_entries_as_map_at(s1, j);
                    if j < i {
                        lemma_entries_as_map_at(s0, j);
                    } else {
                        lemma_entries_as_map_at(s0, j + 1);
                    }
                }
                assert(m1 =~= m0.remove(k));
                assert forall|a: int, b: int| 0 <= a < b < keys@.len() implies element_order(#[trigger] elements_view(keys@)[a], #[trigger] elements_view(keys@)[b]) < 0 by {
                    assert(s1[a].0 == elements_view(keys@)[a]);
                    assert(s1[b].0 == elements_view(keys@)[b]);
                }
            }
            *self = PathElementMap { keys, values };
            Some(removed)
        } else {
            proof {
                Self::lemma_search_absent(s0, i as int, k);
                assert(entries_as_map(s0).remove(k) =~= entries_as_map(s0));
            }
            None
        }
    }

    /// Returns the entries, in increasing order of their keys.
    pub fn iter(&self) -> (r: Vec<(&PathElement, &T)>)
        ensures
            r@.len() == self@.len(),
            forall|i: int| 0 <= i < r@.len() ==> (#[trigger] r@[i]).0@ == self@[i].0 && *r@[i].1 == self@[i].1,
    {
        proof {
            use_type_invariant(self);
            self.lemma_view_sorted();
        }
        let mut r: Vec<(&PathElement, &T)> = Vec::new();
        let mut i: usize = 0;
        while i < self.keys.len()
            invariant
                self.keys@.len() == self.values@.len(),
                i <= self.keys@.len(),
                r@.len() == i,
                forall|j: int| 0 <= j < i ==> (#[trigger] r@[j]).0@ == self@[j].0 && *r@[j].1 == self@[j].1,
            decreases self.keys@.len() - i,
        {
            r.push((&self.keys[i], &self.values[i]));
            i = i + 1;
        }
        r
    }

    /// Returns the keys, in increasing order.
    pub fn keys(&self) -> (r: Vec<&PathElement>)
        ensures
            r@.len() == self@.len(),
            forall|i: int| 0 <= i < r@.len() ==> (#[trigger] r@[i])@ == self@[i].0,
    {
        proof {
            use_type_invariant(self);
            self.lemma_view_sorted();
        }
        let mut r: Vec<&PathElement> = Vec::new();
        let mut i: usize = 0;
        while i < self.keys.len()
            invariant
                self.keys@.len() == self.values@.len(),
                i <= self.keys@.len(),
                r@.len() == i,
                forall|j: int| 0 <= j < i ==> (#[trigger] r@[j])@ == self@[j].0,
            decreases self.keys@.len() - i,
        {
            r.push(&self.keys[i]);
            i = i + 1;
        }
        r
    }

    /// Returns the values, in increasing order of their keys.
    pub fn values(&self) -> (r: Vec<&T>)
        ensures
            r@.len() == self@.len(),
            forall|i: int| 0 <= i < r@.len() ==> *(#[trigger] r@[i]) == self@[i].1,
    {
        proof {
            use_type_invariant(self);
            self.lemma_view_sorted();
        }
        let mut r: Vec<&T> = Vec::new();
        let mut i: usize = 0;
        while i < self.keys.len()
            invariant
                self.keys@.len() == self.values@.len(),
                i <= self.keys@.len(),
                r@.len() == i,
                forall|j: int| 0 <= j < i ==> *(#[trigger] r@[j]) == self@[j].1,
            decreases self.keys@.len() - i,
        {
            r.push(&self.values[i]);
            i = i + 1;
        }
        r
    }
}

impl PathElementMap<Value> {
    /// Creates an empty map of values with room for `capacity` entries.
    pub fn make(capacity: usize) -> (r: PathElementMap<Value>)
        ensures
            r@ == Seq::<(PathElementView, Value)>::empty(),
    {
        PathElementMap::new(capacity)
    }
}

} // verus!
