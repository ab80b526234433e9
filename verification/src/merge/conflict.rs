//! Conflicts between managers over fields.

use crate::fieldpath::path::{path_display, Path, PathElementView};
use crate::fieldpath::set::{contains_path, listing, paths_view, FieldPathSet, SetView};
use crate::fieldpath::{
    lemma_managers_map_at, managers_map, name_index, names_distinct, ref_entries_view, ManagedFields, VersionedSetView,
};
use crate::text::{push_char, push_str};
use vstd::prelude::*;

verus! {

/// Abstract model of a [`Conflict`].
pub struct ConflictView {
    pub manager: Seq<char>,
    pub path: Seq<PathElementView>,
}

/// A field that another manager owns.
#[derive(Debug)]
pub struct Conflict {
    /// The manager that owns the conflicting field.
    pub manager: String,
    /// The path to the conflicting field.
    pub path: Path,
}

impl View for Conflict {
    type V = ConflictView;

    open spec fn view(&self) -> ConflictView {
        ConflictView { manager: self.manager@, path: self.path@ }
    }
}

/// The display text of a conflict.
pub open spec fn conflict_display(c: ConflictView) -> Seq<char> {
    "conflict with manager '"@ + c.manager + "' at "@ + path_display(c.path)
}

impl Conflict {
    /// Creates a new conflict.
    pub fn new(manager: &str, path: Path) -> (r: Conflict)
        ensures
            r@ == (ConflictView { manager: manager@, path: path@ }),
    {
        Conflict { manager: String::from_str(manager), path }
    }

    /// Returns the display text: `conflict with manager '<manager>' at <path>`.
    pub fn to_string(&self) -> (r: String)
        ensures
            r@ == conflict_display(self@),
    {
        let mut out = String::from_str("conflict with manager '");
        push_str(&mut out, self.manager.as_str());
        push_str(&mut out, "' at ");
        let p = self.path.to_string();
        push_str(&mut out, p.as_str());
        proof {
            assert(out@ =~= conflict_display(self@));
        }
        out
    }
}

impl Clone for Conflict {
    fn clone(&self) -> (r: Conflict)
        ensures
            r@ == self@,
    {
        Conflict { manager: self.manager.clone(), path: self.path.clone() }
    }
}

impl PartialEq for Conflict {
    fn eq(&self, other: &Conflict) -> (r: bool) {
        self.manager == other.manager && self.path == other.path
    }
}

impl vstd::std_specs::cmp::PartialEqSpecImpl for Conflict {
    open spec fn obeys_eq_spec() -> bool {
        true
    }

    open spec fn eq_spec(&self, other: &Conflict) -> bool {
        self@ == other@
    }
}

impl Eq for Conflict {}

/// A collection of conflicts, in the order they were added.
#[derive(Debug)]
pub struct Conflicts {
    conflicts: Vec<Conflict>,
}

impl View for Conflicts {
    type V = Seq<ConflictView>;

    closed spec fn view(&self) -> Seq<ConflictView> {
        self.conflicts@.map_values(|c: Conflict| c@)
    }
}

/// The display text of conflicts: one line each.
pub open spec fn conflicts_display(cs: Seq<ConflictView>) -> Seq<char>
    decreases cs.len(),
{
    if cs.len() == 0 {
        Seq::empty()
    } else if cs.len() == 1 {
        conflict_display(cs[0])
    } else {
        conflicts_display(cs.drop_last()) + seq!['\n'] + conflict_display(cs.last())
    }
}

impl Conflicts {
    /// Creates an empty collection.
    pub fn new() -> (r: Conflicts)
        ensures
            r@ == Seq::<ConflictView>::empty(),
    {
        let r = Conflicts { conflicts: Vec::new() };
        assert(r@ =~= Seq::<ConflictView>::empty());
        r
    }

    /// Adds a conflict at the end.
    pub fn add(&mut self, conflict: Conflict)
        ensures
            final(self)@ == old(self)@.push(conflict@),
    {
        self.conflicts.push(conflict);
        assert(self@ =~= old(self)@.push(conflict@));
    }

    /// Returns true if there are no conflicts.
    pub fn is_empty(&self) -> (r: bool)
        ensures
            r == (self@.len() == 0),
    {
        self.conflicts.len() == 0
    }

    /// Returns the number of conflicts.
    pub fn len(&self) -> (r: usize)
        ensures
            r == self@.len(),
    {
        self.conflicts.len()
    }

    /// Returns the conflicts, in the order they were added.
    pub fn iter(&self) -> (r: &[Conflict])
        ensures
            r@.map_values(|c: Conflict| c@) == self@,
    {
        self.conflicts.as_slice()
    }

    /// Returns the set of the conflicting paths.
    pub fn to_set(&self) -> (r: FieldPathSet)
        ensures
            forall|q: Seq<PathElementView>| contains_path(r@, q) <==> exists|i: int|
                0 <= i < self@.len() && #[trigger] self@[i].path == q,
    {
        let mut set = FieldPathSet::new();
        let ghost cs = self@;
        let mut i: usize = 0;
        while i < self.conflicts.len()
            invariant
                cs == self@,
                cs.len() == self.conflicts@.len(),
                i <= cs.len(),
                forall|q: Seq<PathElementView>| contains_path(set@, q) <==> exists|j: int|
                    0 <= j < i && #[trigger] cs[j].path == q,
            decreases cs.len() - i,
        {
            set.insert(&self.conflicts[i].path);
            proof {
                assert forall|q: Seq<PathElementView>| contains_path(set@, q) <==> exists|j: int|
                    0 <= j < i + 1 && #[trigger] cs[j].path == q by {
                    if q == cs[i as int].path {
                        assert(cs[i as int].path == q);
                    }
                    if exists|j: int| 0 <= j < i + 1 && #[trigger] cs[j].path == q {
                        let j = choose|j: int| 0 <= j < i + 1 && #[trigger] cs[j].path == q;
                        if j < i {
                            assert(exists|j: int| 0 <= j < i && #[trigger] cs[j].path == q);
                        }
                    }
                }
            }
            i = i + 1;
        }
        set
    }

    /// Returns the display text: one line per conflict.
    pub fn to_string(&self) -> (r: String)
        ensures
            r@ == conflicts_display(self@),
    {
        let mut out = String::new();
        let ghost cs = self@;
        proof {
            assert(cs.take(0) =~= Seq::<ConflictView>::empty());
        }
        let mut i: usize = 0;
        while i < self.conflicts.len()
            invariant
                cs == self@,
                cs.len() == self.conflicts@.len(),
                i <= cs.len(),
                out@ == conflicts_display(cs.take(i as int)),
            decreases cs.len() - i,
        {
            if i > 0 {
                push_char(&mut out, '\n');
            }
            let t = self.conflicts[i].to_string();
            push_str(&mut out, t.as_str());
            proof {
                let s = cs.take(i as int + 1);
                assert(s.drop_last() =~= cs.take(i as int));
                assert(s.last() == cs[i as int]);
                assert(out@ =~= conflicts_display(s));
            }
            i = i + 1;
        }
        proof {
            assert(cs.take(cs.len() as int) =~= cs);
        }
        out
    }
}

impl Clone for Conflicts {
    fn clone(&self) -> (r: Conflicts)
        ensures
            r@ == self@,
    {
        let mut conflicts: Vec<Conflict> = Vec::new();
        let mut i: usize = 0;
        while i < self.conflicts.len()
            invariant
                i <= self.conflicts@.len(),
                conflicts@.len() == i,
                forall|j: int| 0 <= j < i ==> #[trigger] conflicts@[j]@ == self.conflicts@[j]@,
            decreases self.conflicts@.len() - i,
        {
            conflicts.push(self.conflicts[i].clone());
            i = i + 1;
        }
        let r = Conflicts { conflicts };
        assert(r@ =~= self@);
        r
    }
}

/// The paths of a set in the order `FieldPathSet::iterate` lists them: the
/// empty path first where the set holds it, then the others.
pub open spec fn set_listing(v: SetView) -> Seq<Seq<PathElementView>> {
    (if v.root { seq![Seq::<PathElementView>::empty()] } else { Seq::empty() }) + listing(v, Seq::empty())
}

/// The conflicts that one entry of a record stands for: its manager at each
/// of its paths.
pub open spec fn entry_conflicts(e: (Seq<char>, VersionedSetView)) -> Seq<ConflictView> {
    set_listing(e.1.set).map_values(|p: Seq<PathElementView>| ConflictView { manager: e.0, path: p })
}

/// The conflicts of every entry of a record, entry by entry.
pub open spec fn record_conflicts(s: Seq<(Seq<char>, VersionedSetView)>) -> Seq<ConflictView>
    decreases s.len(),
{
    if s.len() == 0 {
        Seq::empty()
    } else {
        record_conflicts(s.drop_last()) + entry_conflicts(s.last())
    }
}

/// Extracts the conflicts that a set of managed fields stands for: one for
/// each manager at each path it owns, manager by manager in the record's
/// order and each manager's paths as `FieldPathSet::iterate` lists them.
/// Each such pair occurs once.
pub fn conflicts_from_managers(managers: &ManagedFields) -> (r: Conflicts)
    ensures
        r@ == record_conflicts(managers@),
        forall|cv: ConflictView| #[trigger] r@.contains(cv) <==> managers_map(managers@).contains_key(cv.manager)
            && contains_path(managers_map(managers@)[cv.manager].set, cv.path),
        r@.no_duplicates(),
{
    let entries = managers.iter();
    let ghost s = managers@;
    let mut out = Conflicts::new();
    let mut i: usize = 0;
    proof {
        assert(s.take(0) =~= Seq::<(Seq<char>, VersionedSetView)>::empty());
    }
    while i < entries.len()
        invariant
            i <= entries@.len(),
            ref_entries_view(entries@) == s,
            names_distinct(s),
            out@ == record_conflicts(s.take(i as int)),
            out@.no_duplicates(),
            forall|cv: ConflictView| #[trigger] out@.contains(cv) <==> exists|k: int|
                0 <= k < i && s[k].0 == cv.manager && contains_path(s[k].1.set, cv.path),
        decreases entries@.len() - i,
    {
        let name = entries[i].0;
        let vs = entries[i].1;
        proof {
            assert(s[i as int] == (name@, vs@));
        }
        let paths = vs.set.iterate();
        let ghost before = out@;
        let mut j: usize = 0;
        while j < paths.len()
            invariant
                j <= paths@.len(),
                out@ == before + Seq::new(j as nat, |t: int| ConflictView { manager: name@, path: paths@[t]@ }),
            decreases paths@.len() - j,
        {
            out.add(Conflict::new(name.as_str(), paths[j].clone()));
            proof {
                assert(out@ =~= before + Seq::new((j + 1) as nat, |t: int| ConflictView { manager: name@, path: paths@[t]@ }));
            }
            j = j + 1;
        }
        proof {
            let added = Seq::new(paths@.len(), |t: int| ConflictView { manager: name@, path: paths@[t]@ });
            assert(added =~= entry_conflicts(s[i as int])) by {
                assert forall|t: int| 0 <= t < paths@.len() implies paths_view(paths@)[t] == paths@[t]@ by {}
            }
            assert(s.take(i + 1).drop_last() =~= s.take(i as int));
            assert(s.take(i + 1).last() == s[i as int]);
            assert forall|a: int, b: int| 0 <= a < added.len() && 0 <= b < added.len() && a != b implies added[a] != added[b] by {
                assert(paths_view(paths@)[a] == paths@[a]@);
                assert(paths_view(paths@)[b] == paths@[b]@);
            }
            assert forall|a: int, b: int| 0 <= a < before.len() && 0 <= b < added.len() implies before[a] != added[b] by {
                assert(before.contains(before[a]));
                if before[a] == added[b] {
                    let k = choose|k: int| 0 <= k < i && s[k].0 == before[a].manager && contains_path(s[k].1.set, before[a].path);
                    assert(s[k].0 == s[i as int].0);
                }
            }
            vstd::seq_lib::lemma_no_dup_in_concat(before, added);
            assert forall|cv: ConflictView| #[trigger] out@.contains(cv) <==> exists|k: int|
                0 <= k < i + 1 && s[k].0 == cv.manager && contains_path(s[k].1.set, cv.path) by {
                if out@.contains(cv) {
                    let x = choose|x: int| 0 <= x < out@.len() && out@[x] == cv;
                    if x < before.len() {
                        assert(before.contains(cv));
                    } else {
                        let t = x - before.len();
                        assert(out@[x] == added[t]);
                        assert(contains_path(vs@.set, paths@[t]@));
                    }
                }
                if exists|k: int| 0 <= k < i + 1 && s[k].0 == cv.manager && contains_path(s[k].1.set, cv.path) {
                    let k = choose|k: int| 0 <= k < i + 1 && s[k].0 == cv.manager && contains_path(s[k].1.set, cv.path);
                    if k < i {
                        assert(before.contains(cv));
                        let x = choose|x: int| 0 <= x < before.len() && before[x] == cv;
                        assert(out@[x] == cv);
                    } else {
                        let t = choose|t: int| 0 <= t < paths@.len() && #[trigger] paths@[t]@ == cv.path;
                        assert(out@[before.len() + t] == added[t]);
                    }
                }
            }
        }
        i = i + 1;
    }
    proof {
        assert(s.take(s.len() as int) =~= s);
        assert forall|cv: ConflictView| #[trigger] out@.contains(cv) <==> managers_map(s).contains_key(cv.manager)
            && contains_path(managers_map(s)[cv.manager].set, cv.path) by {
            if exists|k: int| 0 <= k < s.len() && s[k].0 == cv.manager && contains_path(s[k].1.set, cv.path) {
                let k = choose|k: int| 0 <= k < s.len() && s[k].0 == cv.manager && contains_path(s[k].1.set, cv.path);
                lemma_managers_map_at(s, k);
            }
            if managers_map(s).contains_key(cv.manager) {
                let k = name_index(s, cv.manager);
                lemma_managers_map_at(s, k);
            }
        }
    }
    out
}

} // verus!
