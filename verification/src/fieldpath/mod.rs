//! Field paths, sets of field paths, and the record of which manager owns
//! which fields.

pub mod path;
pub mod set;
pub mod pathelementmap;
pub mod serialize;
pub mod round_trip;

pub use path::{Path, PathElement, PathElementView};
pub use set::{FieldPathSet, PathElementSet, SetView};
pub use pathelementmap::{PathElementMap, PathElementValueMap};
pub use serialize::{deserialize_path_element, serialize_path_element, SerializeError};

use set::{contains_path, no_paths, same_paths};
use vstd::prelude::*;

verus! {

/// A version string for field ownership.
#[derive(Debug)]
pub struct APIVersion(String);

impl View for APIVersion {
    type V = Seq<char>;

    closed spec fn view(&self) -> Seq<char> {
        self.0@
    }
}

impl APIVersion {
    /// Creates a new APIVersion.
    pub fn new(version: &str) -> (r: APIVersion)
        ensures
            r@ == version@,
    {
        APIVersion(String::from_str(version))
    }

    /// Returns the version string.
    pub fn as_str(&self) -> (r: &str)
        ensures
            r@ == self@,
    {
        self.0.as_str()
    }
}

impl<'a> From<&'a str> for APIVersion {
    /// The version with the given text, as [`APIVersion::new`] makes it.
    fn from(version: &'a str) -> (r: APIVersion)
        ensures
            r@ == version@,
    {
        APIVersion::new(version)
    }
}

/// The conversion is stated by the text it keeps (`r@ == version@` on
/// `from`): a version is a `String`, and two `String`s with the same text
/// are not equal values that Verus can name from the text alone, so no
/// `from_spec` value is promised.
impl<'a> vstd::std_specs::convert::FromSpecImpl<&'a str> for APIVersion {
    open spec fn obeys_from_spec() -> bool {
        false
    }

    open spec fn from_spec(version: &'a str) -> APIVersion {
        arbitrary()
    }
}

impl PartialEq for APIVersion {
    fn eq(&self, other: &APIVersion) -> (r: bool) {
        self.0 == other.0
    }
}

impl vstd::std_specs::cmp::PartialEqSpecImpl for APIVersion {
    open spec fn obeys_eq_spec() -> bool {
        true
    }

    open spec fn eq_spec(&self, other: &APIVersion) -> bool {
        self@ == other@
    }
}

impl Eq for APIVersion {}

impl Clone for APIVersion {
    fn clone(&self) -> (r: APIVersion)
        ensures
            r@ == self@,
    {
        APIVersion(self.0.clone())
    }
}

/// Abstract model of a [`VersionedSet`].
pub struct VersionedSetView {
    pub set: SetView,
    pub api_version: Seq<char>,
    pub applied: bool,
}

/// A set of fields together with the API version it was recorded at and
/// whether it came from an apply (rather than an update).
#[derive(Debug)]
pub struct VersionedSet {
    pub set: FieldPathSet,
    pub api_version: APIVersion,
    pub applied: bool,
}

impl View for VersionedSet {
    type V = VersionedSetView;

    open spec fn view(&self) -> VersionedSetView {
        VersionedSetView { set: self.set@, api_version: self.api_version@, applied: self.applied }
    }
}

/// Two versioned sets are equal when their versions and flags are equal and
/// their sets hold the same paths.
pub open spec fn versioned_equal(a: VersionedSetView, b: VersionedSetView) -> bool {
    &&& a.api_version == b.api_version
    &&& a.applied == b.applied
    &&& same_paths(a.set, b.set)
}

impl VersionedSet {
    /// Creates a new VersionedSet.
    pub fn new(set: FieldPathSet, api_version: APIVersion, applied: bool) -> (r: VersionedSet)
        ensures
            r@ == (VersionedSetView { set: set@, api_version: api_version@, applied }),
    {
        VersionedSet { set, api_version, applied }
    }

    /// Returns the set of fields.
    pub fn set(&self) -> (r: &FieldPathSet)
        ensures
            r@ == self.set@,
    {
        &self.set
    }

    /// Returns the set of fields, for modification.
    pub fn set_mut(&mut self) -> (r: &mut FieldPathSet)
        ensures
            *r == old(self).set,
            final(self).set == *final(r),
            final(self).api_version == old(self).api_version,
            final(self).applied == old(self).applied,
    {
        &mut self.set
    }

    /// Returns the API version.
    pub fn api_version(&self) -> (r: &APIVersion)
        ensures
            r@ == self.api_version@,
    {
        &self.api_version
    }

    /// Returns true if this set was recorded by an apply.
    pub fn applied(&self) -> (r: bool)
        ensures
            r == self.applied,
    {
        self.applied
    }
}

impl PartialEq for VersionedSet {
    fn eq(&self, other: &VersionedSet) -> (r: bool) {
        self.api_version == other.api_version && self.applied == other.applied && self.set.equals(&other.set)
    }
}

impl vstd::std_specs::cmp::PartialEqSpecImpl for VersionedSet {
    open spec fn obeys_eq_spec() -> bool {
        true
    }

    open spec fn eq_spec(&self, other: &VersionedSet) -> bool {
        versioned_equal(self@, other@)
    }
}

impl Eq for VersionedSet {}

impl Clone for VersionedSet {
    fn clone(&self) -> (r: VersionedSet)
        ensures
            r@ == self@,
    {
        VersionedSet { set: self.set.clone(), api_version: self.api_version.clone(), applied: self.applied }
    }
}

/// The names of the entries are pairwise distinct.
pub open spec fn names_distinct(s: Seq<(Seq<char>, VersionedSetView)>) -> bool {
    forall|i: int, j: int| 0 <= i < s.len() && 0 <= j < s.len() && i != j ==> #[trigger] s[i].0 != #[trigger] s[j].0
}

/// Some entry is named `k`.
pub open spec fn has_name(s: Seq<(Seq<char>, VersionedSetView)>, k: Seq<char>) -> bool {
    exists|i: int| 0 <= i < s.len() && #[trigger] s[i].0 == k
}

/// The position of an entry named `k`.
pub open spec fn name_index(s: Seq<(Seq<char>, VersionedSetView)>, k: Seq<char>) -> int {
    choose|i: int| 0 <= i < s.len() && #[trigger] s[i].0 == k
}

/// The map from manager names to versioned sets that the entries stand for.
pub open spec fn managers_map(s: Seq<(Seq<char>, VersionedSetView)>) -> Map<Seq<char>, VersionedSetView> {
    Map::new(|k: Seq<char>| has_name(s, k), |k: Seq<char>| s[name_index(s, k)].1)
}

pub proof fn lemma_managers_map_at(s: Seq<(Seq<char>, VersionedSetView)>, i: int)
    requires
        names_distinct(s),
        0 <= i < s.len(),
    ensures
        managers_map(s).contains_key(s[i].0),
        managers_map(s)[s[i].0] == s[i].1,
{
    assert(has_name(s, s[i].0));
    let j = name_index(s, s[i].0);
    assert(s[j].0 == s[i].0);
}

/// Replacing the set of the `i`-th entry replaces the set of its name.
proof fn lemma_managers_map_update(s: Seq<(Seq<char>, VersionedSetView)>, i: int, x: VersionedSetView)
    requires
        names_distinct(s),
        0 <= i < s.len(),
    ensures
        names_distinct(s.update(i, (s[i].0, x))),
        managers_map(s.update(i, (s[i].0, x))) == managers_map(s).insert(s[i].0, x),
{
    let s1 = s.update(i, (s[i].0, x));
    let k = s[i].0;
    assert forall|a: int, b: int| 0 <= a < s1.len() && 0 <= b < s1.len() && a != b implies #[trigger] s1[a].0 != #[trigger] s1[b].0 by {
        assert(s1[a].0 == s[a].0);
        assert(s1[b].0 == s[b].0);
    }
    let m0 = managers_map(s);
    let m1 = managers_map(s1);
    assert forall|y: Seq<char>| m1.contains_key(y) <==> m0.insert(k, x).contains_key(y) by {
        if has_name(s, y) {
            let j = name_index(s, y);
            assert(s1[j].0 == y);
        }
        if has_name(s1, y) {
            let j = name_index(s1, y);
            assert(s[j].0 == y);
        }
    }
    assert forall|y: Seq<char>| #[trigger] m1.contains_key(y) implies m1[y] == m0.insert(k, x)[y] by {
        let j = name_index(s1, y);
        lemma_managers_map_at(s1, j);
        if j != i {
            lemma_managers_map_at(s, j);
        }
    }
    assert(m1 =~= m0.insert(k, x));
}

/// Which fields each manager owns.
#[derive(Debug)]
pub struct ManagedFields {
    names: Vec<String>,
    sets: Vec<VersionedSet>,
}

/// The entries that the names and sets stand for, position by position.
pub open spec fn pairs_view(names: Seq<String>, sets: Seq<VersionedSet>) -> Seq<(Seq<char>, VersionedSetView)> {
    Seq::new(names.len(), |i: int| (names[i]@, sets[i]@))
}

/// The strings are pairwise distinct.
pub open spec fn strings_distinct(ns: Seq<String>) -> bool {
    forall|i: int, j: int| 0 <= i < ns.len() && 0 <= j < ns.len() && i != j ==> #[trigger] ns[i]@ != #[trigger] ns[j]@
}

/// The entries have distinct names exactly when the names are distinct.
proof fn lemma_pairs_distinct(names: Seq<String>, sets: Seq<VersionedSet>)
    requires
        names.len() == sets.len(),
    ensures
        names_distinct(pairs_view(names, sets)) == strings_distinct(names),
{
    let p = pairs_view(names, sets);
    if strings_distinct(names) {
        assert forall|i: int, j: int| 0 <= i < p.len() && 0 <= j < p.len() && i != j implies #[trigger] p[i].0 != #[trigger] p[j].0 by {
            assert(names[i]@ != names[j]@);
        }
    }
    if names_distinct(p) {
        assert forall|i: int, j: int| 0 <= i < names.len() && 0 <= j < names.len() && i != j implies #[trigger] names[i]@ != #[trigger] names[j]@ by {
            assert(p[i].0 != p[j].0);
        }
    }
}

/// The entries that pairs of a name and a set stand for.
pub open spec fn ref_entries_view<'a>(es: Seq<(&'a String, &'a VersionedSet)>) -> Seq<(Seq<char>, VersionedSetView)> {
    es.map_values(|e: (&'a String, &'a VersionedSet)| (e.0@, e.1@))
}


impl View for ManagedFields {
    type V = Seq<(Seq<char>, VersionedSetView)>;

    closed spec fn view(&self) -> Seq<(Seq<char>, VersionedSetView)> {
        pairs_view(self.names@, self.sets@)
    }
}

/// Whether the difference of two records keeps an entry for manager `k`:
/// a manager on one side only is kept when its set is not empty; a manager
/// on both sides when the versions differ or the sets differ.
pub open spec fn difference_keeps(
    ma: Map<Seq<char>, VersionedSetView>,
    mb: Map<Seq<char>, VersionedSetView>,
    k: Seq<char>,
) -> bool {
    if ma.contains_key(k) && mb.contains_key(k) {
        ma[k].api_version != mb[k].api_version || !same_paths(ma[k].set, mb[k].set)
    } else if ma.contains_key(k) {
        !no_paths(ma[k].set)
    } else if mb.contains_key(k) {
        !no_paths(mb[k].set)
    } else {
        false
    }
}

/// A record differs from itself for no manager: the difference of a record
/// with itself is empty.
pub proof fn lemma_difference_self(m: Map<Seq<char>, VersionedSetView>, k: Seq<char>)
    ensures
        !difference_keeps(m, m, k),
{
}

/// The difference of two records keeps the same managers whichever way it
/// is taken.
pub proof fn lemma_difference_keeps_symmetric(
    ma: Map<Seq<char>, VersionedSetView>,
    mb: Map<Seq<char>, VersionedSetView>,
    k: Seq<char>,
)
    ensures
        difference_keeps(ma, mb, k) == difference_keeps(mb, ma, k),
{
}

/// Equality of records is reflexive and symmetric.
pub proof fn lemma_records_equal(ma: Map<Seq<char>, VersionedSetView>, mb: Map<Seq<char>, VersionedSetView>)
    ensures
        records_equal(ma, ma),
        records_equal(ma, mb) ==> records_equal(mb, ma),
{
    if records_equal(ma, mb) {
        assert forall|k: Seq<char>| #[trigger] mb.contains_key(k) implies versioned_equal(mb[k], ma[k]) by {
            assert(ma.contains_key(k));
        }
    }
}

/// Two records hold the same managers, each with an equal versioned set.
pub open spec fn records_equal(ma: Map<Seq<char>, VersionedSetView>, mb: Map<Seq<char>, VersionedSetView>) -> bool {
    ma.dom() == mb.dom() && forall|k: Seq<char>| #[trigger] ma.contains_key(k) ==> versioned_equal(ma[k], mb[k])
}

/// The entry that the difference of two records holds for manager `k`:
/// the entry of the side that has it when only one side does; the right
/// entry when the versions differ; otherwise the symmetric difference of the
/// two sets, at the right version, not applied.
pub open spec fn difference_entry(
    ma: Map<Seq<char>, VersionedSetView>,
    mb: Map<Seq<char>, VersionedSetView>,
    k: Seq<char>,
    v: VersionedSetView,
) -> bool {
    if ma.contains_key(k) && mb.contains_key(k) {
        if ma[k].api_version != mb[k].api_version {
            v == mb[k]
        } else {
            &&& v.api_version == mb[k].api_version
            &&& !v.applied
            &&& forall|q: Seq<PathElementView>|
                contains_path(v.set, q) == (contains_path(ma[k].set, q) != contains_path(mb[k].set, q))
        }
    } else if ma.contains_key(k) {
        v == ma[k]
    } else {
        v == mb[k]
    }
}

/// A name of the first `i` entries is a name of the first `i + 1` entries,
/// and so is the name of entry `i`; nothing else is.
proof fn lemma_has_name_take(s: Seq<(Seq<char>, VersionedSetView)>, i: int, k: Seq<char>)
    requires
        0 <= i < s.len(),
    ensures
        has_name(s.take(i + 1), k) == (has_name(s.take(i), k) || s[i].0 == k),
{
    if has_name(s.take(i + 1), k) {
        let j = name_index(s.take(i + 1), k);
        if j < i {
            assert(s.take(i)[j].0 == k);
        }
    }
    if has_name(s.take(i), k) {
        let j = name_index(s.take(i), k);
        assert(s.take(i + 1)[j].0 == k);
    }
    if s[i].0 == k {
        assert(s.take(i + 1)[i].0 == k);
    }
}

impl ManagedFields {
    #[verifier::type_invariant]
    closed spec fn distinct(&self) -> bool {
        &&& self.names@.len() == self.sets@.len()
        &&& strings_distinct(self.names@)
    }

    /// Creates an empty ManagedFields.
    pub fn new() -> (r: ManagedFields)
        ensures
            r@ == Seq::<(Seq<char>, VersionedSetView)>::empty(),
    {
        let r = ManagedFields { names: Vec::new(), sets: Vec::new() };
        assert(r@ =~= Seq::<(Seq<char>, VersionedSetView)>::empty());
        r
    }

    /// Returns the number of managers; their names are distinct.
    pub fn len(&self) -> (r: usize)
        ensures
            r == self@.len(),
            names_distinct(self@),
    {
        proof {
            use_type_invariant(self);
            lemma_pairs_distinct(self.names@, self.sets@);
        }
        self.names.len()
    }

    /// Returns true if there are no managers.
    pub fn is_empty(&self) -> (r: bool)
        ensures
            r == (self@.len() == 0),
    {
        self.names.len() == 0
    }

    /// Finds the entry of `manager`.
    fn position(&self, manager: &str) -> (r: Option<usize>)
        ensures
            r matches Some(i) ==> i < self@.len() && self@[i as int].0 == manager@,
            r is None ==> !has_name(self@, manager@),
    {
        let mut i: usize = 0;
        while i < self.names.len()
            invariant
                i <= self.names@.len(),
                forall|j: int| 0 <= j < i ==> #[trigger] self@[j].0 != manager@,
            decreases self.names@.len() - i,
        {
            if crate::value::str_equal(self.names[i].as_str(), manager) {
                return Some(i);
            }
            i = i + 1;
        }
        None
    }

    /// Returns the entry of `manager`, if any.
    pub fn get(&self, manager: &str) -> (r: Option<&VersionedSet>)
        ensures
            r is Some == managers_map(self@).contains_key(manager@),
            r matches Some(vs) ==> vs@ == managers_map(self@)[manager@],
    {
        proof {
            use_type_invariant(self);
            lemma_pairs_distinct(self.names@, self.sets@);
        }
        match self.position(manager) {
            Some(i) => {
                proof {
                    lemma_managers_map_at(self@, i as int);
                }
                Some(&self.sets[i])
            },
            None => None,
        }
    }

    /// Returns true if `manager` has an entry.
    pub fn contains(&self, manager: &str) -> (r: bool)
        ensures
            r == managers_map(self@).contains_key(manager@),
    {
        self.position(manager).is_some()
    }

    /// Inserts or replaces the entry of `manager`.
    pub fn insert(&mut self, manager: &str, vs: VersionedSet)
        ensures
            managers_map(final(self)@) == managers_map(old(self)@).insert(manager@, vs@),
    {
        proof {
            use_type_invariant(&*self);
            lemma_pairs_distinct(self.names@, self.sets@);
        }
        let ghost s0 = self@;
        let ghost entry = (manager@, vs@);
        let pos = self.position(manager);
        let mut tmp = ManagedFields::new();
        std::mem::swap(self, &mut tmp);
        proof {
            use_type_invariant(&tmp);
            lemma_pairs_distinct(tmp.names@, tmp.sets@);
        }
        let ManagedFields { mut names, mut sets } = tmp;
        match pos {
            Some(i) => {
                names.set(i, String::from_str(manager));
                sets.set(i, vs);
            },
            None => {
                names.push(String::from_str(manager));
                sets.push(vs);
            },
        }
        proof {
            let s1 = pairs_view(names@, sets@);
            match pos {
                Some(i) => {
                    assert(s1 =~= s0.update(i as int, entry));
                },
                None => {
                    assert(s1 =~= s0.push(entry));
                },
            }
            let k = manager@;
            assert(names_distinct(s1));
            let m0 = managers_map(s0);
            let m1 = managers_map(s1);
            assert forall|x: Seq<char>| m1.contains_key(x) <==> m0.insert(k, vs@).contains_key(x) by {
                if has_name(s0, x) {
                    let j = name_index(s0, x);
                    if pos is None || j != pos->0 as int {
                        assert(s1[j].0 == x);
                    }
                }
                if has_name(s1, x) && x != k {
                    let j = name_index(s1, x);
                    assert(s0[j].0 == x);
                }
                match pos {
                    Some(i) => assert(s1[i as int].0 == k),
                    None => assert(s1[s0.len() as int].0 == k),
                }
            }
            assert forall|x: Seq<char>| #[trigger] m1.contains_key(x) implies m1[x] == m0.insert(k, vs@)[x] by {
                let j = name_index(s1, x);
                lemma_managers_map_at(s1, j);
                if x != k {
                    lemma_managers_map_at(s0, j);
                }
            }
            assert(m1 =~= m0.insert(k, vs@));
            lemma_pairs_distinct(names@, sets@);
        }
        *self = ManagedFields { names, sets };
    }

    /// Removes the entry of `manager` and returns it.
    pub fn remove(&mut self, manager: &str) -> (r: Option<VersionedSet>)
        ensures
            r is Some == managers_map(old(self)@).contains_key(manager@),
            r matches Some(vs) ==> vs@ == managers_map(old(self)@)[manager@],
            managers_map(final(self)@) == managers_map(old(self)@).remove(manager@),
    {
        proof {
            use_type_invariant(&*self);
            lemma_pairs_distinct(self.names@, self.sets@);
        }
        let ghost s0 = self@;
        match self.position(manager) {
            Some(i) => {
                let mut tmp = ManagedFields::new();
                std::mem::swap(self, &mut tmp);
                proof {
                    use_type_invariant(&tmp);
                    lemma_pairs_distinct(tmp.names@, tmp.sets@);
                }
                let ManagedFields { mut names, mut sets } = tmp;
                let _ = names.remove(i);
                let vs = sets.remove(i);
                proof {
                    lemma_managers_map_at(s0, i as int);
                    let s1 = pairs_view(names@, sets@);
                    assert(s1 =~= s0.remove(i as int));
                    assert(names_distinct(s1));
                    let m0 = managers_map(s0);
                    let m1 = managers_map(s1);
                    let k = manager@;
                    assert forall|x: Seq<char>| m1.contains_key(x) <==> m0.remove(k).contains_key(x) by {
                        if has_name(s0, x) && x != k {
                            let j = name_index(s0, x);
                            if j < i {
                                assert(s1[j].0 == x);
                            } else {
                                assert(s1[j - 1].0 == x);
                            }
                        }
                        if has_name(s1, x) {
                            let j = name_index(s1, x);
                            if j < i {
                                assert(s0[j].0 == x);
                            } else {
                                assert(s0[j + 1].0 == x);
                            }
                        }
                    }
                    assert forall|x: Seq<char>| #[trigger] m1.contains_key(x) implies m1[x] == m0.remove(k)[x] by {
                        let j = name_index(s1, x);
                        lemma_managers_map_at(s1, j);
                        if j < i {
                            lemma_managers_map_at(s0, j);
                        } else {
                            lemma_managers_map_at(s0, j + 1);
                        }
                    }
                    assert(m1 =~= m0.remove(k));
                }
                proof {
                    lemma_pairs_distinct(names@, sets@);
                }
                *self = ManagedFields { names, sets };
                Some(vs)
            },
            None => {
                proof {
                    assert(managers_map(s0).remove(manager@) =~= managers_map(s0));
                }
                None
            },
        }
    }

    /// Returns the entries: each manager with its versioned set.
    pub fn iter(&self) -> (r: Vec<(&String, &VersionedSet)>)
        ensures
            ref_entries_view(r@) == self@,
            names_distinct(self@),
    {
        proof {
            use_type_invariant(self);
            lemma_pairs_distinct(self.names@, self.sets@);
        }
        let mut r: Vec<(&String, &VersionedSet)> = Vec::new();
        let mut i: usize = 0;
        while i < self.names.len()
            invariant
                i <= self.names@.len(),
                self.names@.len() == self.sets@.len(),
                r@.len() == i,
                forall|j: int| 0 <= j < i ==> #[trigger] ref_entries_view(r@)[j] == self@[j],
            decreases self.names@.len() - i,
        {
            let ghost before = r@;
            r.push((&self.names[i], &self.sets[i]));
            proof {
                assert forall|j: int| 0 <= j < i + 1 implies #[trigger] ref_entries_view(r@)[j] == self@[j] by {
                    if j < i {
                        assert(r@[j] == before[j]);
                        assert(ref_entries_view(before)[j] == self@[j]);
                    }
                }
            }
            i = i + 1;
        }
        proof {
            assert(ref_entries_view(r@) =~= self@);
        }
        r
    }

    /// Returns the entry of `manager` for modification, if any.
    pub fn get_mut(&mut self, manager: &str) -> (r: Option<&mut VersionedSet>)
        ensures
            r is Some == managers_map(old(self)@).contains_key(manager@),
            r matches Some(vs) ==> vs@ == managers_map(old(self)@)[manager@] && final(self)@ == old(self)@.update(
                name_index(old(self)@, manager@),
                (manager@, final(vs)@),
            ) && managers_map(final(self)@) == managers_map(old(self)@).insert(manager@, final(vs)@),
            r is None ==> final(self)@ == old(self)@,
    {
        proof {
            use_type_invariant(&*self);
            lemma_pairs_distinct(self.names@, self.sets@);
        }
        let ghost s0 = self@;
        match self.position(manager) {
            Some(i) => {
                proof {
                    lemma_managers_map_at(s0, i as int);
                }
                proof {
                    assert(name_index(s0, manager@) == i) by {
                        let j = name_index(s0, manager@);
                        assert(s0[j].0 == manager@);
                    }
                }
                let vs = &mut self.sets[i];
                proof {
                    lemma_managers_map_update(s0, i as int, final(vs)@);
                }
                Some(vs)
            },
            None => None,
        }
    }

    /// Returns the names of the managers.
    pub fn managers(&self) -> (r: Vec<String>)
        ensures
            r@.len() == self@.len(),
            forall|i: int| 0 <= i < r@.len() ==> #[trigger] r@[i]@ == self@[i].0,
    {
        let mut r: Vec<String> = Vec::new();
        let mut i: usize = 0;
        while i < self.names.len()
            invariant
                i <= self.names@.len(),
                r@.len() == i,
                forall|j: int| 0 <= j < i ==> #[trigger] r@[j]@ == self@[j].0,
            decreases self.names@.len() - i,
        {
            r.push(self.names[i].clone());
            i = i + 1;
        }
        r
    }

    /// Returns true if both record the same managers, each with the same
    /// version, the same flag and the same fields.
    pub fn equals(&self, other: &ManagedFields) -> (r: bool)
        ensures
            r == records_equal(managers_map(self@), managers_map(other@)),
    {
        proof {
            use_type_invariant(self);
            lemma_pairs_distinct(self.names@, self.sets@);
            use_type_invariant(other);
            lemma_pairs_distinct(other.names@, other.sets@);
        }
        let ghost ma = managers_map(self@);
        let ghost mb = managers_map(other@);
        if self.names.len() != other.names.len() {
            proof {
                if ma.dom() == mb.dom() {
                    lemma_dom_len(self@, other@);
                }
            }
            return false;
        }
        let mut i: usize = 0;
        while i < self.names.len()
            invariant
                i <= self.names@.len(),
                self.names@.len() == other.names@.len(),
                self.names@.len() == self.sets@.len(),
                names_distinct(self@),
                names_distinct(other@),
                ma == managers_map(self@),
                mb == managers_map(other@),
                forall|j: int| 0 <= j < i ==> mb.contains_key(#[trigger] self@[j].0) && versioned_equal(
                    self@[j].1,
                    mb[self@[j].0],
                ),
            decreases self.names@.len() - i,
        {
            proof {
                lemma_managers_map_at(self@, i as int);
            }
            match other.get(self.names[i].as_str()) {
                None => {
                    return false;
                },
                Some(right) => {
                    let left = &self.sets[i];
                    if !(left.api_version == right.api_version && left.applied == right.applied
                        && left.set.equals(&right.set)) {
                        return false;
                    }
                },
            }
            i = i + 1;
        }
        proof {
            assert forall|k: Seq<char>| #[trigger] ma.contains_key(k) implies mb.contains_key(k) && versioned_equal(ma[k], mb[k]) by {
                let j = name_index(self@, k);
                lemma_managers_map_at(self@, j);
            }
            lemma_subset_dom(self@, other@);
            assert(ma.dom() =~= mb.dom());
        }
        true
    }

    /// Returns the symmetric difference of two records.
    ///
    /// A manager with version X here and version Y in `other` gets the entry
    /// of `other`; a manager whose difference is empty is left out.
    pub fn difference(&self, other: &ManagedFields) -> (r: ManagedFields)
        ensures
            forall|k: Seq<char>| #[trigger] managers_map(r@).contains_key(k) == difference_keeps(
                managers_map(self@),
                managers_map(other@),
                k,
            ),
            forall|k: Seq<char>| #[trigger] managers_map(r@).contains_key(k) ==> difference_entry(
                managers_map(self@),
                managers_map(other@),
                k,
                managers_map(r@)[k],
            ),
    {
        proof {
            use_type_invariant(self);
            lemma_pairs_distinct(self.names@, self.sets@);
            use_type_invariant(other);
            lemma_pairs_distinct(other.names@, other.sets@);
        }
        let ghost ma = managers_map(self@);
        let ghost mb = managers_map(other@);
        let ghost sa = self@;
        let ghost sb = other@;
        let mut diff = ManagedFields::new();
        let mut i: usize = 0;
        proof {
            assert(managers_map(diff@) =~= Map::<Seq<char>, VersionedSetView>::empty());
        }
        while i < self.names.len()
            invariant
                i <= sa.len(),
                sa == self@,
                sb == other@,
                self.names@.len() == self.sets@.len(),
                names_distinct(sa),
                names_distinct(sb),
                ma == managers_map(sa),
                mb == managers_map(sb),
                forall|k: Seq<char>| #[trigger] managers_map(diff@).contains_key(k) == (has_name(
                    sa.take(i as int),
                    k,
                ) && difference_keeps(ma, mb, k)),
                forall|k: Seq<char>| #[trigger] managers_map(diff@).contains_key(k) ==> difference_entry(
                    ma,
                    mb,
                    k,
                    managers_map(diff@)[k],
                ),
            decreases sa.len() - i,
        {
            let ghost d0 = managers_map(diff@);
            let ghost k0 = sa[i as int].0;
            proof {
                lemma_managers_map_at(sa, i as int);
                assert forall|k: Seq<char>| #[trigger] has_name(sa.take(i as int + 1), k) == (has_name(
                    sa.take(i as int),
                    k,
                ) || k == k0) by {
                    lemma_has_name_take(sa, i as int, k);
                }
                if has_name(sa.take(i as int), k0) {
                    let j = name_index(sa.take(i as int), k0);
                    assert(sa[j].0 == k0);
                }
                assert(!d0.contains_key(k0));
            }
            let name = &self.names[i];
            let left = &self.sets[i];
            match other.get(name.as_str()) {
                None => {
                    if !left.set.empty() {
                        diff.insert(name.as_str(), left.clone());
                    }
                },
                Some(right) => {
                    if !(left.api_version == right.api_version) {
                        diff.insert(name.as_str(), right.clone());
                    } else {
                        let new_set = left.set.difference(&right.set).union(
                            &right.set.difference(&left.set),
                        );
                        let ghost ls = left.set@;
                        let ghost rs = right.set@;
                        proof {
                            assert(no_paths(new_set@) == same_paths(ls, rs)) by {
                                if !same_paths(ls, rs) {
                                    let q = choose|q: Seq<PathElementView>| contains_path(ls, q) != contains_path(rs, q);
                                    assert(contains_path(new_set@, q));
                                }
                            }
                        }
                        if !new_set.empty() {
                            let vs = VersionedSet::new(new_set, right.api_version.clone(), false);
                            diff.insert(name.as_str(), vs);
                        }
                    }
                },
            }
            i = i + 1;
        }
        proof {
            assert(sa.take(sa.len() as int) =~= sa);
        }
        let mut j: usize = 0;
        while j < other.names.len()
            invariant
                j <= sb.len(),
                sa == self@,
                sb == other@,
                other.names@.len() == other.sets@.len(),
                names_distinct(sa),
                names_distinct(sb),
                ma == managers_map(sa),
                mb == managers_map(sb),
                forall|k: Seq<char>| #[trigger] managers_map(diff@).contains_key(k) == ((ma.contains_key(k)
                    || has_name(sb.take(j as int), k)) && difference_keeps(ma, mb, k)),
                forall|k: Seq<char>| #[trigger] managers_map(diff@).contains_key(k) ==> difference_entry(
                    ma,
                    mb,
                    k,
                    managers_map(diff@)[k],
                ),
            decreases sb.len() - j,
        {
            let ghost k0 = sb[j as int].0;
            proof {
                lemma_managers_map_at(sb, j as int);
                assert forall|k: Seq<char>| #[trigger] has_name(sb.take(j as int + 1), k) == (has_name(
                    sb.take(j as int),
                    k,
                ) || k == k0) by {
                    lemma_has_name_take(sb, j as int, k);
                }
            }
            let name = &other.names[j];
            let vs = &other.sets[j];
            if !self.contains(name.as_str()) && !vs.set.empty() {
                diff.insert(name.as_str(), vs.clone());
            }
            j = j + 1;
        }
        proof {
            assert(sb.take(sb.len() as int) =~= sb);
        }
        diff
    }

    /// Returns a copy.
    pub fn copy(&self) -> (r: ManagedFields)
        ensures
            r@ == self@,
    {
        self.clone()
    }

    /// Removes every manager whose set is empty.
    pub fn remove_empty(&mut self)
        ensures
            forall|k: Seq<char>| #[trigger] managers_map(final(self)@).contains_key(k) == (managers_map(old(self)@).contains_key(k)
                && !no_paths(managers_map(old(self)@)[k].set)),
            forall|k: Seq<char>| #[trigger] managers_map(final(self)@).contains_key(k) ==> managers_map(final(self)@)[k]
                == managers_map(old(self)@)[k],
    {
        proof {
            use_type_invariant(&*self);
            lemma_pairs_distinct(self.names@, self.sets@);
        }
        let ghost s0 = self@;
        let mut tmp = ManagedFields::new();
        std::mem::swap(self, &mut tmp);
        proof {
            use_type_invariant(&tmp);
            lemma_pairs_distinct(tmp.names@, tmp.sets@);
        }
        let ManagedFields { names: mut rest_names, sets: mut rest_sets } = tmp;
        let mut kept_names: Vec<String> = Vec::new();
        let mut kept_sets: Vec<VersionedSet> = Vec::new();
        proof {
            assert(pairs_view(rest_names@, rest_sets@) =~= s0.take(rest_names@.len() as int));
        }
        // walk the entries from the back, keeping the non-empty ones
        while rest_names.len() > 0
            invariant
                rest_names@.len() == rest_sets@.len(),
                kept_names@.len() == kept_sets@.len(),
                pairs_view(rest_names@, rest_sets@) =~= s0.take(rest_names@.len() as int),
                rest_names@.len() <= s0.len(),
                names_distinct(s0),
                names_distinct(pairs_view(kept_names@, kept_sets@)),
                forall|x: Seq<char>| #[trigger] has_name(pairs_view(kept_names@, kept_sets@), x) == (exists|j: int|
                    rest_names@.len() <= j < s0.len() && s0[j].0 == x && !no_paths(s0[j].1.set)),
                forall|j: int| 0 <= j < kept_names@.len() ==> exists|l: int|
                    rest_names@.len() <= l < s0.len() && #[trigger] pairs_view(kept_names@, kept_sets@)[j] == s0[l],
            decreases rest_names@.len(),
        {
            let ghost n = rest_names@.len();
            let ghost before = pairs_view(rest_names@, rest_sets@);
            let name = rest_names.pop().unwrap();
            let vs = rest_sets.pop().unwrap();
            proof {
                assert(before[n - 1] == s0.take(n as int)[n - 1]);
                assert(pairs_view(rest_names@, rest_sets@) =~= s0.take(n - 1));
                assert(s0[n - 1] == (name@, vs@));
            }
            if !vs.set.is_empty() {
                let ghost k0 = pairs_view(kept_names@, kept_sets@);
                kept_names.push(name);
                kept_sets.push(vs);
                proof {
                    let k1 = pairs_view(kept_names@, kept_sets@);
                    assert(k1 =~= k0.push(s0[n - 1]));
                    assert forall|a: int, b: int| 0 <= a < k1.len() && 0 <= b < k1.len() && a != b implies #[trigger] k1[a].0 != #[trigger] k1[b].0 by {
                        if a == k0.len() || b == k0.len() {
                            let other = if a == k0.len() { b } else { a };
                            let l = choose|l: int| n <= l < s0.len() && #[trigger] k0[other] == s0[l];
                            assert(k1[other] == k0[other]);
                        }
                    }
                    assert forall|x: Seq<char>| #[trigger] has_name(k1, x) == (exists|j: int|
                        n - 1 <= j < s0.len() && s0[j].0 == x && !no_paths(s0[j].1.set)) by {
                        if has_name(k1, x) {
                            let i = name_index(k1, x);
                            if i < k0.len() {
                                assert(k0[i] == k1[i]);
                                assert(has_name(k0, x));
                            }
                        }
                        if exists|j: int| n - 1 <= j < s0.len() && s0[j].0 == x && !no_paths(s0[j].1.set) {
                            let j = choose|j: int| n - 1 <= j < s0.len() && s0[j].0 == x && !no_paths(s0[j].1.set);
                            if j == n - 1 {
                                assert(k1[k0.len() as int].0 == x);
                            } else {
                                assert(has_name(k0, x));
                                let i = name_index(k0, x);
                                assert(k1[i] == k0[i]);
                            }
                        }
                    }
                    assert forall|j: int| 0 <= j < k1.len() implies exists|l: int|
                        n - 1 <= l < s0.len() && #[trigger] k1[j] == s0[l] by {
                        if j < k0.len() {
                            assert(k1[j] == k0[j]);
                        } else {
                            assert(k1[j] == s0[n - 1]);
                        }
                    }
                }
            } else {
                proof {
                    let k0 = pairs_view(kept_names@, kept_sets@);
                    assert forall|x: Seq<char>| #[trigger] has_name(k0, x) == (exists|j: int|
                        n - 1 <= j < s0.len() && s0[j].0 == x && !no_paths(s0[j].1.set)) by {
                        if exists|j: int| n - 1 <= j < s0.len() && s0[j].0 == x && !no_paths(s0[j].1.set) {
                            let j = choose|j: int| n - 1 <= j < s0.len() && s0[j].0 == x && !no_paths(s0[j].1.set);
                            assert(j != n - 1);
                        }
                    }
                }
            }
        }
        proof {
            let k1 = pairs_view(kept_names@, kept_sets@);
            let m0 = managers_map(s0);
            let m1 = managers_map(k1);
            assert forall|x: Seq<char>| #[trigger] m1.contains_key(x) == (m0.contains_key(x) && !no_paths(m0[x].set)) by {
                if m0.contains_key(x) {
                    let j = name_index(s0, x);
                    lemma_managers_map_at(s0, j);
                }
                if m1.contains_key(x) {
                    let j = choose|j: int| 0 <= j < s0.len() && s0[j].0 == x && !no_paths(s0[j].1.set);
                    lemma_managers_map_at(s0, j);
                }
            }
            assert forall|x: Seq<char>| #[trigger] m1.contains_key(x) implies m1[x] == m0[x] by {
                let i = name_index(k1, x);
                lemma_managers_map_at(k1, i);
                let l = choose|l: int| 0 <= l < s0.len() && #[trigger] k1[i] == s0[l];
                lemma_managers_map_at(s0, l);
            }
        }
        proof {
            lemma_pairs_distinct(kept_names@, kept_sets@);
        }
        *self = ManagedFields { names: kept_names, sets: kept_sets };
    }
}

/// Entries with distinct names and the same domain have the same length.
proof fn lemma_dom_len(a: Seq<(Seq<char>, VersionedSetView)>, b: Seq<(Seq<char>, VersionedSetView)>)
    requires
        names_distinct(a),
        names_distinct(b),
        managers_map(a).dom() == managers_map(b).dom(),
    ensures
        a.len() == b.len(),
{
    let na = a.map_values(|e: (Seq<char>, VersionedSetView)| e.0);
    let nb = b.map_values(|e: (Seq<char>, VersionedSetView)| e.0);
    assert(na.no_duplicates()) by {
        assert forall|i: int, j: int| 0 <= i < na.len() && 0 <= j < na.len() && i != j implies na[i] != na[j] by {
            assert(a[i].0 != a[j].0);
        }
    }
    assert(nb.no_duplicates()) by {
        assert forall|i: int, j: int| 0 <= i < nb.len() && 0 <= j < nb.len() && i != j implies nb[i] != nb[j] by {
            assert(b[i].0 != b[j].0);
        }
    }
    assert(na.to_set() =~= nb.to_set()) by {
        assert forall|x: Seq<char>| na.to_set().contains(x) <==> nb.to_set().contains(x) by {
            if na.contains(x) {
                let i = choose|i: int| 0 <= i < na.len() && na[i] == x;
                assert(has_name(a, x));
                assert(managers_map(a).dom().contains(x));
                assert(has_name(b, x));
                let j = name_index(b, x);
                assert(nb[j] == x);
            }
            if nb.contains(x) {
                let i = choose|i: int| 0 <= i < nb.len() && nb[i] == x;
                assert(has_name(b, x));
                assert(managers_map(b).dom().contains(x));
                assert(has_name(a, x));
                let j = name_index(a, x);
                assert(na[j] == x);
            }
        }
    }
    na.unique_seq_to_set();
    nb.unique_seq_to_set();
}

/// If every name of `a` is a name of `b` and both have the same length and
/// distinct names, then they have the same names.
proof fn lemma_subset_dom(a: Seq<(Seq<char>, VersionedSetView)>, b: Seq<(Seq<char>, VersionedSetView)>)
    requires
        names_distinct(a),
        names_distinct(b),
        a.len() == b.len(),
        forall|k: Seq<char>| #[trigger] managers_map(a).contains_key(k) ==> managers_map(b).contains_key(k),
    ensures
        managers_map(a).dom() == managers_map(b).dom(),
{
    let na = a.map_values(|e: (Seq<char>, VersionedSetView)| e.0);
    let nb = b.map_values(|e: (Seq<char>, VersionedSetView)| e.0);
    assert(na.no_duplicates()) by {
        assert forall|i: int, j: int| 0 <= i < na.len() && 0 <= j < na.len() && i != j implies na[i] != na[j] by {
            assert(a[i].0 != a[j].0);
        }
    }
    assert(nb.no_duplicates()) by {
        assert forall|i: int, j: int| 0 <= i < nb.len() && 0 <= j < nb.len() && i != j implies nb[i] != nb[j] by {
            assert(b[i].0 != b[j].0);
        }
    }
    na.unique_seq_to_set();
    nb.unique_seq_to_set();
    assert(na.to_set().subset_of(nb.to_set())) by {
        assert forall|x: Seq<char>| na.to_set().contains(x) implies nb.to_set().contains(x) by {
            let i = choose|i: int| 0 <= i < na.len() && na[i] == x;
            assert(managers_map(a).contains_key(x)) by {
                assert(a[i].0 == x);
            }
            let j = name_index(b, x);
            assert(nb[j] == x);
        }
    }
    vstd::set_lib::lemma_subset_equality(na.to_set(), nb.to_set());
    assert forall|x: Seq<char>| managers_map(a).dom().contains(x) <==> managers_map(b).dom().contains(x) by {
        if managers_map(b).contains_key(x) {
            let j = name_index(b, x);
            assert(nb[j] == x);
            assert(na.to_set().contains(x));
            let i = choose|i: int| 0 <= i < na.len() && na[i] == x;
            assert(a[i].0 == x);
        }
    }
    assert(managers_map(a).dom() =~= managers_map(b).dom());
}

impl PartialEq for ManagedFields {
    fn eq(&self, other: &ManagedFields) -> (r: bool) {
        self.equals(other)
    }
}

impl vstd::std_specs::cmp::PartialEqSpecImpl for ManagedFields {
    open spec fn obeys_eq_spec() -> bool {
        true
    }

    open spec fn eq_spec(&self, other: &ManagedFields) -> bool {
        records_equal(managers_map(self@), managers_map(other@))
    }
}

impl Clone for ManagedFields {
    fn clone(&self) -> (r: ManagedFields)
        ensures
            r@ == self@,
    {
        proof {
            use_type_invariant(self);
            lemma_pairs_distinct(self.names@, self.sets@);
        }
        let mut names: Vec<String> = Vec::new();
        let mut sets: Vec<VersionedSet> = Vec::new();
        let mut i: usize = 0;
        while i < self.names.len()
            invariant
                i <= self.names@.len(),
                self.names@.len() == self.sets@.len(),
                names@.len() == i,
                sets@.len() == i,
                forall|j: int| 0 <= j < i ==> #[trigger] pairs_view(names@, sets@)[j] == self@[j],
            decreases self.names@.len() - i,
        {
            let ghost before = pairs_view(names@, sets@);
            names.push(self.names[i].clone());
            sets.push(self.sets[i].clone());
            proof {
                assert forall|j: int| 0 <= j < i + 1 implies #[trigger] pairs_view(names@, sets@)[j] == self@[j] by {
                    if j < i {
                        assert(pairs_view(names@, sets@)[j] == before[j]);
                    }
                }
            }
            i = i + 1;
        }
        proof {
            assert(pairs_view(names@, sets@) =~= self@);
            lemma_pairs_distinct(names@, sets@);
            lemma_pairs_distinct(self.names@, self.sets@);
        }
        let r = ManagedFields { names, sets };
        r
    }
}

} // verus!
