//! The result of comparing two typed values.

use crate::fieldpath::path::{path_display, PathElementView};
use crate::fieldpath::set::{contains_path, listing, no_paths, paths_view, FieldPathSet, SetView};
use crate::text::{push_str};
use vstd::prelude::*;

verus! {

/// Abstract model of a [`Comparison`].
pub struct ComparisonView {
    pub removed: SetView,
    pub modified: SetView,
    pub added: SetView,
}

/// The result of comparing two typed values: the fields only on the left,
/// the fields on both sides with different values, and the fields only on
/// the right. When all three are empty, the values were equal.
#[derive(Debug)]
pub struct Comparison {
    /// Fields that were in the left-hand side but not the right-hand side.
    pub removed: FieldPathSet,
    /// Fields that were in both but had different values.
    pub modified: FieldPathSet,
    /// Fields that were in the right-hand side but not the left-hand side.
    pub added: FieldPathSet,
}

impl View for Comparison {
    type V = ComparisonView;

    open spec fn view(&self) -> ComparisonView {
        ComparisonView { removed: self.removed@, modified: self.modified@, added: self.added@ }
    }
}

/// Every path of a set in the order [`FieldPathSet::iterate`] lists them.
pub open spec fn set_paths(v: SetView) -> Seq<Seq<PathElementView>> {
    (if v.root {
        seq![Seq::<PathElementView>::empty()]
    } else {
        Seq::empty()
    }) + listing(v, Seq::empty())
}

/// One line per path: a line break, two spaces and the path's text.
pub open spec fn path_lines(ps: Seq<Seq<PathElementView>>) -> Seq<char>
    decreases ps.len(),
{
    if ps.len() == 0 {
        Seq::empty()
    } else {
        path_lines(ps.drop_last()) + "\n  "@ + path_display(ps.last())
    }
}

/// The display text of a comparison: a section for each non-empty set, in
/// the order modified, added, removed, each a title and the lines of its
/// paths; sections are separated by line breaks.
pub open spec fn comparison_display(c: ComparisonView) -> Seq<char> {
    let m = if no_paths(c.modified) {
        Seq::empty()
    } else {
        "- Modified Fields:"@ + path_lines(set_paths(c.modified))
    };
    let a = if no_paths(c.added) {
        Seq::empty()
    } else {
        (if no_paths(c.modified) {
            Seq::empty()
        } else {
            "\n"@
        }) + "- Added Fields:"@ + path_lines(set_paths(c.added))
    };
    let r = if no_paths(c.removed) {
        Seq::empty()
    } else {
        (if no_paths(c.modified) && no_paths(c.added) {
            Seq::empty()
        } else {
            "\n"@
        }) + "- Removed Fields:"@ + path_lines(set_paths(c.removed))
    };
    m + a + r
}

/// Appends the lines of the paths of a set.
fn write_path_lines(set: &FieldPathSet, out: &mut String)
    ensures
        final(out)@ == old(out)@ + path_lines(set_paths(set@)),
{
    let paths = set.iterate();
    let ghost ps = paths_view(paths@);
    let ghost start = out@;
    proof {
        assert(ps.take(0) =~= Seq::<Seq<PathElementView>>::empty());
    }
    let mut i: usize = 0;
    while i < paths.len()
        invariant
            ps == paths_view(paths@),
            ps.len() == paths@.len(),
            i <= ps.len(),
            out@ == start + path_lines(ps.take(i as int)),
        decreases ps.len() - i,
    {
        push_str(out, "\n  ");
        let t = paths[i].to_string();
        push_str(out, t.as_str());
        proof {
            let s = ps.take(i as int + 1);
            assert(s.drop_last() =~= ps.take(i as int));
            assert(s.last() == paths@[i as int]@);
            assert(out@ =~= start + path_lines(s));
        }
        i = i + 1;
    }
    proof {
        assert(ps.take(ps.len() as int) =~= ps);
    }
}

impl Comparison {
    /// Creates a comparison with no changes.
    pub fn new() -> (r: Comparison)
        ensures
            no_paths(r@.removed),
            no_paths(r@.modified),
            no_paths(r@.added),
    {
        let r = Comparison { removed: FieldPathSet::new(), modified: FieldPathSet::new(), added: FieldPathSet::new() };
        let _ = r.removed.is_empty();
        let _ = r.modified.is_empty();
        let _ = r.added.is_empty();
        r
    }

    /// Returns true if there are no changes.
    pub fn is_same(&self) -> (r: bool)
        ensures
            r == (no_paths(self@.removed) && no_paths(self@.modified) && no_paths(self@.added)),
    {
        self.removed.is_empty() && self.modified.is_empty() && self.added.is_empty()
    }

    /// Drops the given fields from the three sets.
    pub fn exclude_fields(&mut self, fields: &FieldPathSet)
        ensures
            forall|q: Seq<PathElementView>| #[trigger] contains_path(final(self)@.removed, q) == (contains_path(
                old(self)@.removed,
                q,
            ) && !contains_path(fields@, q)),
            forall|q: Seq<PathElementView>| #[trigger] contains_path(final(self)@.modified, q) == (contains_path(
                old(self)@.modified,
                q,
            ) && !contains_path(fields@, q)),
            forall|q: Seq<PathElementView>| #[trigger] contains_path(final(self)@.added, q) == (contains_path(
                old(self)@.added,
                q,
            ) && !contains_path(fields@, q)),
    {
        self.removed = self.removed.difference(fields);
        self.modified = self.modified.difference(fields);
        self.added = self.added.difference(fields);
    }

    /// Keeps only the given fields in the three sets.
    pub fn filter_fields(&mut self, fields: &FieldPathSet)
        ensures
            forall|q: Seq<PathElementView>| #[trigger] contains_path(final(self)@.removed, q) == (contains_path(
                old(self)@.removed,
                q,
            ) && contains_path(fields@, q)),
            forall|q: Seq<PathElementView>| #[trigger] contains_path(final(self)@.modified, q) == (contains_path(
                old(self)@.modified,
                q,
            ) && contains_path(fields@, q)),
            forall|q: Seq<PathElementView>| #[trigger] contains_path(final(self)@.added, q) == (contains_path(
                old(self)@.added,
                q,
            ) && contains_path(fields@, q)),
    {
        self.removed = self.removed.intersection(fields);
        self.modified = self.modified.intersection(fields);
        self.added = self.added.intersection(fields);
    }

    /// Returns true if any fields were removed.
    pub fn has_removed(&self) -> (r: bool)
        ensures
            r == !no_paths(self@.removed),
    {
        !self.removed.is_empty()
    }

    /// Returns true if any fields were modified.
    pub fn has_modified(&self) -> (r: bool)
        ensures
            r == !no_paths(self@.modified),
    {
        !self.modified.is_empty()
    }

    /// Returns true if any fields were added.
    pub fn has_added(&self) -> (r: bool)
        ensures
            r == !no_paths(self@.added),
    {
        !self.added.is_empty()
    }

    /// Returns the display text of the comparison.
    pub fn to_string(&self) -> (r: String)
        ensures
            r@ == comparison_display(self@),
    {
        let mut out = String::new();
        let mut first = true;
        let ghost c = self@;
        if !self.modified.is_empty() {
            first = false;
            push_str(&mut out, "- Modified Fields:");
            write_path_lines(&self.modified, &mut out);
        }
        let ghost after_m = out@;
        if !self.added.is_empty() {
            if !first {
                push_str(&mut out, "\n");
            }
            first = false;
            push_str(&mut out, "- Added Fields:");
            write_path_lines(&self.added, &mut out);
        }
        let ghost after_a = out@;
        if !self.removed.is_empty() {
            if !first {
                push_str(&mut out, "\n");
            }
            push_str(&mut out, "- Removed Fields:");
            write_path_lines(&self.removed, &mut out);
        }
        proof {
            let empty = Seq::<char>::empty();
            let m = if no_paths(c.modified) {
                empty
            } else {
                "- Modified Fields:"@ + path_lines(set_paths(c.modified))
            };
            assert(after_m =~= empty + m);
            assert(out@ =~= comparison_display(c));
        }
        out
    }
}

impl Clone for Comparison {
    fn clone(&self) -> (r: Comparison)
        ensures
            r@ == self@,
    {
        Comparison { removed: self.removed.clone(), modified: self.modified.clone(), added: self.added.clone() }
    }
}

} // verus!
