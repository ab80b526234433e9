//! Applying and updating objects while tracking which manager owns which
//! fields.

use super::conflict::{Conflict, ConflictView, Conflicts};
use crate::fieldpath::set::{contains_path, covers, no_paths, FieldPathSet, SetView};
use crate::fieldpath::{managers_map, APIVersion, ManagedFields, VersionedSet, VersionedSetView};
use crate::fieldpath::path::PathElementView;
use crate::text::push_str;
use crate::typed::comparison::Comparison;
use crate::typed::reconcile_schema::{reconcile_points, reconciled_has};
use crate::typed::typed_value::{differs_at, merged_value, part, removed_value, TypedValue, TypedValueView};
use crate::value::ValueView;
use crate::typed::validation::ValidationErrors;
use crate::value::str_equal;
use vstd::prelude::*;

verus! {

/// An error of version conversion.
#[derive(Debug)]
pub struct ConversionError {
    pub message: String,
    /// The object cannot be converted because the version no longer exists.
    pub is_missing_version: bool,
}

impl ConversionError {
    /// Returns the message.
    pub fn to_string(&self) -> (r: String)
        ensures
            r@ == self.message@,
    {
        self.message.clone()
    }
}

impl Clone for ConversionError {
    fn clone(&self) -> (r: ConversionError)
        ensures
            r.message@ == self.message@,
            r.is_missing_version == self.is_missing_version,
    {
        ConversionError { message: self.message.clone(), is_missing_version: self.is_missing_version }
    }
}

/// Converts objects between API versions; implemented by the users of the
/// updater.
pub trait Converter {
    /// Converts a typed value to the given version.
    fn convert(&self, obj: &TypedValue, version: &APIVersion) -> Result<TypedValue, ConversionError>;

    /// Returns true if the error says that the version no longer exists.
    fn is_missing_version_error(&self, err: &ConversionError) -> bool;
}

/// Filters a set of fields; implemented by the users of the updater.
pub trait Filter {
    /// Returns the filtered set.
    fn filter(&self, set: &FieldPathSet) -> FieldPathSet;
}

/// A filter that takes out a given set of fields.
pub struct ExcludeSetFilter {
    excluded: FieldPathSet,
}

impl ExcludeSetFilter {
    /// The fields that the filter takes out.
    pub closed spec fn excluded(&self) -> SetView {
        self.excluded@
    }

    /// Creates a filter that takes out `excluded`.
    pub fn new(excluded: FieldPathSet) -> (r: ExcludeSetFilter)
        ensures
            r.excluded() == excluded@,
    {
        ExcludeSetFilter { excluded }
    }
}

impl Filter for ExcludeSetFilter {
    fn filter(&self, set: &FieldPathSet) -> (r: FieldPathSet)
        ensures
            forall|q: Seq<PathElementView>| #[trigger] contains_path(r@, q) == (contains_path(set@, q) && !contains_path(
                self.excluded(),
                q,
            )),
    {
        set.difference(&self.excluded)
    }
}

/// An error of an apply.
#[derive(Debug)]
pub enum ApplyError {
    Conflicts(Conflicts),
    ConversionError(ConversionError),
    ValidationError(ValidationErrors),
    NotImplemented,
}

/// An error of an update.
#[derive(Debug)]
pub enum UpdateError {
    Conflicts(Conflicts),
    ConversionError(ConversionError),
    ValidationError(ValidationErrors),
    NotImplemented,
}

impl ApplyError {
    /// Returns the message: the kind of error and its details.
    pub fn to_string(&self) -> (r: String)
        ensures
            match self {
                ApplyError::Conflicts(c) => r@ == "conflicts: "@ + super::conflict::conflicts_display(c@),
                ApplyError::ConversionError(e) => r@ == "conversion error: "@ + e.message@,
                ApplyError::ValidationError(e) => r@ == "validation error: "@
                    + crate::typed::validation::errors_display(e@),
                ApplyError::NotImplemented => r@ == "not implemented"@,
            },
    {
        match self {
            ApplyError::Conflicts(c) => {
                let mut out = String::from_str("conflicts: ");
                let t = c.to_string();
                push_str(&mut out, t.as_str());
                out
            },
            ApplyError::ConversionError(e) => {
                let mut out = String::from_str("conversion error: ");
                push_str(&mut out, e.message.as_str());
                out
            },
            ApplyError::ValidationError(e) => {
                let mut out = String::from_str("validation error: ");
                let t = e.to_string();
                push_str(&mut out, t.as_str());
                out
            },
            ApplyError::NotImplemented => String::from_str("not implemented"),
        }
    }
}

impl UpdateError {
    /// Returns the message: the kind of error and its details.
    pub fn to_string(&self) -> (r: String)
        ensures
            match self {
                UpdateError::Conflicts(c) => r@ == "conflicts: "@ + super::conflict::conflicts_display(c@),
                UpdateError::ConversionError(e) => r@ == "conversion error: "@ + e.message@,
                UpdateError::ValidationError(e) => r@ == "validation error: "@
                    + crate::typed::validation::errors_display(e@),
                UpdateError::NotImplemented => r@ == "not implemented"@,
            },
    {
        match self {
            UpdateError::Conflicts(c) => {
                let mut out = String::from_str("conflicts: ");
                let t = c.to_string();
                push_str(&mut out, t.as_str());
                out
            },
            UpdateError::ConversionError(e) => {
                let mut out = String::from_str("conversion error: ");
                push_str(&mut out, e.message.as_str());
                out
            },
            UpdateError::ValidationError(e) => {
                let mut out = String::from_str("validation error: ");
                let t = e.to_string();
                push_str(&mut out, t.as_str());
                out
            },
            UpdateError::NotImplemented => String::from_str("not implemented"),
        }
    }
}

/// The error of an update that an apply error stands for.
fn update_error(e: ApplyError) -> (r: UpdateError)
    ensures
        match e {
            ApplyError::Conflicts(c) => r matches UpdateError::Conflicts(d) && d@ == c@,
            ApplyError::ConversionError(x) => r matches UpdateError::ConversionError(y) && y.message@ == x.message@,
            ApplyError::ValidationError(x) => r matches UpdateError::ValidationError(y) && y@ == x@,
            ApplyError::NotImplemented => r is NotImplemented,
        },
{
    match e {
        ApplyError::Conflicts(c) => UpdateError::Conflicts(c),
        ApplyError::ConversionError(x) => UpdateError::ConversionError(x),
        ApplyError::ValidationError(x) => UpdateError::ValidationError(x),
        ApplyError::NotImplemented => UpdateError::NotImplemented,
    }
}

/// Builds an [`Updater`].
pub struct UpdaterBuilder {
    converter: Option<Box<dyn Converter>>,
    ignore_filter: Vec<(APIVersion, Box<dyn Filter>)>,
    ignored_fields: Vec<(APIVersion, FieldPathSet)>,
    return_input_on_noop: bool,
}

/// The first set of ignored fields recorded for a version.
pub open spec fn ignored_for(entries: Seq<(APIVersion, FieldPathSet)>, version: Seq<char>) -> Option<SetView>
    decreases entries.len(),
{
    if entries.len() == 0 {
        None
    } else if entries[0].0@ == version {
        Some(entries[0].1@)
    } else {
        ignored_for(entries.drop_first(), version)
    }
}

impl UpdaterBuilder {
    /// Creates a builder with no converter, no filters and no ignored
    /// fields.
    pub fn new() -> (r: UpdaterBuilder)
        ensures
            !r.has_converter(),
            forall|v: Seq<char>| !r.has_filter(v),
            r.ignored_fields_view() == Seq::<(APIVersion, FieldPathSet)>::empty(),
            !r.return_input_on_noop_view(),
    {
        UpdaterBuilder {
            converter: None,
            ignore_filter: Vec::new(),
            ignored_fields: Vec::new(),
            return_input_on_noop: false,
        }
    }

    /// The recorded ignored fields.
    pub closed spec fn ignored_fields_view(&self) -> Seq<(APIVersion, FieldPathSet)> {
        self.ignored_fields@
    }

    /// The recorded no-op flag.
    pub closed spec fn return_input_on_noop_view(&self) -> bool {
        self.return_input_on_noop
    }

    /// Whether a converter is set.
    pub closed spec fn has_converter(&self) -> bool {
        self.converter is Some
    }

    /// Whether a filter is recorded for a version.
    pub closed spec fn has_filter(&self, version: Seq<char>) -> bool {
        exists|i: int| 0 <= i < self.ignore_filter@.len() && #[trigger] self.ignore_filter@[i].0@ == version
    }

    /// Sets the converter.
    pub fn converter(self, converter: Box<dyn Converter>) -> (r: UpdaterBuilder)
        ensures
            r.has_converter(),
            r.ignored_fields_view() == self.ignored_fields_view(),
            r.return_input_on_noop_view() == self.return_input_on_noop_view(),
    {
        UpdaterBuilder {
            converter: Some(converter),
            ignore_filter: self.ignore_filter,
            ignored_fields: self.ignored_fields,
            return_input_on_noop: self.return_input_on_noop,
        }
    }

    /// Sets the filter of a version, replacing any earlier one.
    pub fn ignore_filter(self, version: APIVersion, filter: Box<dyn Filter>) -> (r: UpdaterBuilder)
        ensures
            r.ignored_fields_view() == self.ignored_fields_view(),
            r.return_input_on_noop_view() == self.return_input_on_noop_view(),
    {
        let mut b = self;
        b.ignore_filter.insert(0, (version, filter));
        b
    }

    /// Sets the ignored fields of a version, replacing any earlier ones.
    pub fn ignored_fields(self, version: APIVersion, fields: FieldPathSet) -> (r: UpdaterBuilder)
        ensures
            ignored_for(r.ignored_fields_view(), version@) == Some(fields@),
            forall|v: Seq<char>| v != version@ ==> ignored_for(r.ignored_fields_view(), v) == ignored_for(
                self.ignored_fields_view(),
                v,
            ),
            r.has_converter() == self.has_converter(),
            r.return_input_on_noop_view() == self.return_input_on_noop_view(),
    {
        let mut b = self;
        let ghost e0 = b.ignored_fields@;
        b.ignored_fields.insert(0, (version, fields));
        proof {
            assert(b.ignored_fields@.drop_first() =~= e0);
        }
        b
    }

    /// Sets whether an update that changes nothing returns its input.
    pub fn return_input_on_noop(self, value: bool) -> (r: UpdaterBuilder)
        ensures
            r.has_converter() == self.has_converter(),
            r.ignored_fields_view() == self.ignored_fields_view(),
            r.return_input_on_noop_view() == value,
    {
        let mut b = self;
        b.return_input_on_noop = value;
        b
    }

    /// Builds the updater.
    pub fn build(self) -> (r: Updater)
        ensures
            r.has_converter() == self.has_converter(),
            r.ignored_fields_view() == self.ignored_fields_view(),
            r.return_input_on_noop_view() == self.return_input_on_noop_view(),
    {
        Updater {
            converter: self.converter,
            ignore_filter: self.ignore_filter,
            ignored_fields: self.ignored_fields,
            return_input_on_noop: self.return_input_on_noop,
        }
    }
}

/// Merges changes into objects and keeps the record of which manager owns
/// which fields.
pub struct Updater {
    converter: Option<Box<dyn Converter>>,
    ignore_filter: Vec<(APIVersion, Box<dyn Filter>)>,
    ignored_fields: Vec<(APIVersion, FieldPathSet)>,
    pub return_input_on_noop: bool,
}

/// The entry `a` keeps the API version and the applied flag of `b` (what
/// the set becomes is stated apart, see [`others_updated`]).
pub open spec fn same_owner(a: VersionedSetView, b: VersionedSetView) -> bool {
    a.api_version == b.api_version && a.applied == b.applied
}

impl Updater {
    /// The no-op flag.
    pub closed spec fn return_input_on_noop_view(&self) -> bool {
        self.return_input_on_noop
    }

    /// The recorded ignored fields.
    pub closed spec fn ignored_fields_view(&self) -> Seq<(APIVersion, FieldPathSet)> {
        self.ignored_fields@
    }

    /// Whether a filter is recorded for a version.
    pub closed spec fn has_filter(&self, version: Seq<char>) -> bool {
        exists|i: int| 0 <= i < self.ignore_filter@.len() && #[trigger] self.ignore_filter@[i].0@ == version
    }

    /// Whether a converter is set.
    pub closed spec fn has_converter(&self) -> bool {
        self.converter is Some
    }

    /// Returns a builder.
    pub fn builder() -> (r: UpdaterBuilder)
        ensures
            !r.has_converter(),
            forall|v: Seq<char>| !r.has_filter(v),
            r.ignored_fields_view() == Seq::<(APIVersion, FieldPathSet)>::empty(),
            !r.return_input_on_noop_view(),
    {
        UpdaterBuilder::new()
    }

    fn find_ignored_fields(&self, version: &APIVersion) -> (r: Option<&FieldPathSet>)
        ensures
            match r {
                Some(s) => ignored_for(self.ignored_fields_view(), version@) == Some(s@),
                None => ignored_for(self.ignored_fields_view(), version@) is None,
            },
    {
        let ghost e = self.ignored_fields@;
        let mut i: usize = 0;
        proof {
            assert(e.skip(0) =~= e);
        }
        while i < self.ignored_fields.len()
            invariant
                e == self.ignored_fields@,
                i <= e.len(),
                ignored_for(e, version@) == ignored_for(e.skip(i as int), version@),
            decreases e.len() - i,
        {
            proof {
                assert(e.skip(i as int)[0] == e[i as int]);
                assert(e.skip(i as int).drop_first() =~= e.skip(i as int + 1));
            }
            if self.ignored_fields[i].0 == *version {
                return Some(&self.ignored_fields[i].1);
            }
            i = i + 1;
        }
        None
    }

    fn find_ignore_filter(&self, version: &APIVersion) -> (r: Option<&Box<dyn Filter>>)
        ensures
            r is Some == self.has_filter(version@),
    {
        let mut i: usize = 0;
        while i < self.ignore_filter.len()
            invariant
                i <= self.ignore_filter@.len(),
                forall|j: int| 0 <= j < i ==> #[trigger] self.ignore_filter@[j].0@ != version@,
            decreases self.ignore_filter@.len() - i,
        {
            if self.ignore_filter[i].0 == *version {
                return Some(&self.ignore_filter[i].1);
            }
            i = i + 1;
        }
        None
    }
}

/// What an update keeps of the record of managed fields: no new manager,
/// each kept manager with its version and flag, the manager `workflow`
/// kept exactly when it was there with a non-empty set, and then unchanged.
pub open spec fn keeps_record(m0: Map<Seq<char>, VersionedSetView>, m1: Map<Seq<char>, VersionedSetView>, workflow: Seq<char>) -> bool {
    &&& forall|k: Seq<char>| #[trigger] m1.contains_key(k) ==> m0.contains_key(k) && same_owner(m1[k], m0[k])
    &&& m1.contains_key(workflow) == (m0.contains_key(workflow) && !no_paths(m0[workflow].set))
    &&& m1.contains_key(workflow) ==> m1[workflow] == m0[workflow]
}

impl Updater {
    /// Compares the old and the new object, and takes away from the other
    /// managers the fields that changed: a manager that owns a changed
    /// field is in conflict (an error unless `force`), and loses it;
    /// a manager loses the fields that were removed; a manager whose
    /// version no longer converts is dropped; managers left with no field
    /// are dropped.
    fn update_internal(
        &self,
        old_object: &TypedValue,
        new_object: &TypedValue,
        version: &APIVersion,
        managers: &mut ManagedFields,
        workflow: &str,
        force: bool,
    ) -> (r: Result<Comparison, ApplyError>)
        ensures
            r is Err ==> managers_map(final(managers)@) == managers_map(old(managers)@),
            r is Err && r->Err_0 is Conflicts ==> !force,
            old_object@.type_ref != new_object@.type_ref ==> r is Err && r->Err_0 is ValidationError,
            r matches Ok(c) ==> forall|w: int, q: Seq<PathElementView>|
                0 <= w < 3 ==> #[trigger] contains_path(part(c@, w), q) == differs_at(
                    old_object@.schema,
                    old_object@.type_ref,
                    old_object@.value,
                    new_object@.value,
                    w,
                    q,
                ),
            r is Ok ==> keeps_record(managers_map(old(managers)@), managers_map(final(managers)@), workflow@),
            !self.has_converter() && old_object@.type_ref == new_object@.type_ref && force ==> r is Ok,
            !self.has_converter() && old_object@.type_ref == new_object@.type_ref ==> (r is Err ==> r->Err_0 is Conflicts),
            r matches Err(ApplyError::Conflicts(c)) ==> c@.no_duplicates(),
            r is Ok && !self.has_converter() && (ignored_for(self.ignored_fields_view(), version@) is Some || !self.has_filter(
                version@,
            )) ==> others_updated(
                managers_map(old(managers)@),
                managers_map(final(managers)@),
                workflow@,
                ignored_for(self.ignored_fields_view(), version@),
                old_object@,
                new_object@,
            ),
            !self.has_converter() && old_object@.type_ref == new_object@.type_ref && (ignored_for(
                self.ignored_fields_view(),
                version@,
            ) is Some || !self.has_filter(version@)) ==> (r is Ok <==> (force || !exists|m: Seq<char>, q: Seq<PathElementView>|
                conflict_at(
                    old(managers)@,
                    workflow@,
                    ignored_for(self.ignored_fields_view(), version@),
                    old_object@,
                    new_object@,
                    m,
                    q,
                ))),
            !self.has_converter() && (ignored_for(self.ignored_fields_view(), version@) is Some || !self.has_filter(
                version@,
            )) ==> (r matches Err(ApplyError::Conflicts(c)) ==> forall|cv: ConflictView|
                #[trigger] c@.contains(cv) <==> conflict_at(
                    old(managers)@,
                    workflow@,
                    ignored_for(self.ignored_fields_view(), version@),
                    old_object@,
                    new_object@,
                    cv.manager,
                    cv.path,
                )),
    {
        let ghost m0 = managers_map(managers@);
        let ghost s0 = managers@;
        let ghost ig = ignored_for(self.ignored_fields_view(), version@);
        let ghost exact = !self.has_converter() && (ig is Some || !self.has_filter(version@));
        let compare = match old_object.compare(new_object) {
            Ok(c) => c,
            Err(e) => {
                return Err(ApplyError::ValidationError(e));
            },
        };
        let filtered = match self.find_ignored_fields(version) {
            Some(fields) => {
                let mut c = compare.clone();
                c.exclude_fields(fields);
                c
            },
            None => match self.find_ignore_filter(version) {
                Some(filter) => {
                    let mut c = compare.clone();
                    let empty = FieldPathSet::new();
                    let allowed = filter.filter(&empty);
                    c.filter_fields(&allowed);
                    c
                },
                None => compare.clone(),
            },
        };
        proof {
            if exact {
                assert forall|q: Seq<PathElementView>|
                    (contains_path(filtered@.modified, q) || contains_path(filtered@.added, q)) == #[trigger] counted_change(
                        ig,
                        old_object@,
                        new_object@,
                        q,
                    ) by {
                    assert(contains_path(part(compare@, 1), q) == differs_at(
                        old_object@.schema,
                        old_object@.type_ref,
                        old_object@.value,
                        new_object@.value,
                        1,
                        q,
                    ));
                    assert(contains_path(part(compare@, 2), q) == differs_at(
                        old_object@.schema,
                        old_object@.type_ref,
                        old_object@.value,
                        new_object@.value,
                        2,
                        q,
                    ));
                }
                assert forall|q: Seq<PathElementView>|
                    contains_path(filtered@.removed, q) == #[trigger] counted_removal(ig, old_object@, new_object@, q) by {
                    assert(contains_path(part(compare@, 0), q) == differs_at(
                        old_object@.schema,
                        old_object@.type_ref,
                        old_object@.value,
                        new_object@.value,
                        0,
                        q,
                    ));
                }
            }
        }
        let mut conflicts = Conflicts::new();
        let mut removed_by_manager: Vec<(String, FieldPathSet)> = Vec::new();
        let mut obsolete: Vec<String> = Vec::new();
        let entries = managers.iter();
        let mut i: usize = 0;
        while i < entries.len()
            invariant
                i <= entries@.len(),
                old_object@.type_ref == new_object@.type_ref,
                crate::fieldpath::ref_entries_view(entries@) == s0,
                exact == (!self.has_converter() && (ig is Some || !self.has_filter(version@))),
                exact ==> forall|q: Seq<PathElementView>|
                    (contains_path(filtered@.modified, q) || contains_path(filtered@.added, q)) == #[trigger] counted_change(
                        ig,
                        old_object@,
                        new_object@,
                        q,
                    ),
                exact ==> forall|cv: ConflictView| #[trigger] conflicts@.contains(cv) <==> conflict_before(
                    s0,
                    i as int,
                    workflow@,
                    ig,
                    old_object@,
                    new_object@,
                    cv.manager,
                    cv.path,
                ),
                forall|j: int| 0 <= j < conflicts@.len() ==> (#[trigger] conflicts@[j]).manager != workflow@,
                crate::fieldpath::names_distinct(s0),
                conflicts@.no_duplicates(),
                forall|t: int|
                    #![trigger conflicts@[t]]
                    0 <= t < conflicts@.len() ==> exists|k: int| 0 <= k < i && s0[k].0 == conflicts@[t].manager,
                forall|j: int| 0 <= j < removed_by_manager@.len() ==> (#[trigger] removed_by_manager@[j]).0@ != workflow@,
                forall|j: int| 0 <= j < obsolete@.len() ==> (#[trigger] obsolete@[j])@ != workflow@,
                exact ==> forall|q: Seq<PathElementView>|
                    contains_path(filtered@.removed, q) == #[trigger] counted_removal(ig, old_object@, new_object@, q),
                exact ==> forall|t: int| 0 <= t < removed_by_manager@.len() ==> (#[trigger] removed_by_manager@[t]).1@ == filtered@.removed,
                exact && !no_paths(filtered@.removed) ==> forall|j: int|
                    0 <= j < i && #[trigger] s0[j].0 != workflow@ ==> exists|t: int|
                        0 <= t < removed_by_manager@.len() && #[trigger] removed_by_manager@[t].0@ == s0[j].0,
                !self.has_converter() ==> obsolete@.len() == 0,
            decreases entries@.len() - i,
        {
            let name = entries[i].0;
            let vs = entries[i].1;
            proof {
                assert(s0[i as int] == (name@, vs@));
            }
            if str_equal(name.as_str(), workflow) {
                proof {
                    if exact {
                        assert forall|cv: ConflictView| #[trigger] conflicts@.contains(cv) <==> conflict_before(
                            s0,
                            i + 1,
                            workflow@,
                            ig,
                            old_object@,
                            new_object@,
                            cv.manager,
                            cv.path,
                        ) by {
                            if conflict_before(s0, i + 1, workflow@, ig, old_object@, new_object@, cv.manager, cv.path) {
                                let j = choose|j: int|
                                    0 <= j < i + 1 && #[trigger] s0[j].0 == cv.manager && cv.manager != workflow@
                                        && contains_path(s0[j].1.set, cv.path) && counted_change(
                                        ig,
                                        old_object@,
                                        new_object@,
                                        cv.path,
                                    );
                                assert(j < i);
                            }
                        }
                    }
                }
                i = i + 1;
                continue;
            }
            let mc: Comparison = if vs.api_version == *version {
                filtered.clone()
            } else {
                match &self.converter {
                    Some(conv) => {
                        let vo = match conv.convert(old_object, &vs.api_version) {
                            Ok(v) => v,
                            Err(e) => {
                                if conv.is_missing_version_error(&e) {
                                    obsolete.push(name.clone());
                                    i = i + 1;
                                    continue;
                                }
                                return Err(ApplyError::ConversionError(e));
                            },
                        };
                        let vn = match conv.convert(new_object, &vs.api_version) {
                            Ok(v) => v,
                            Err(e) => {
                                if conv.is_missing_version_error(&e) {
                                    obsolete.push(name.clone());
                                    i = i + 1;
                                    continue;
                                }
                                return Err(ApplyError::ConversionError(e));
                            },
                        };
                        match vo.compare(&vn) {
                            Ok(c) => c,
                            Err(e) => {
                                return Err(ApplyError::ValidationError(e));
                            },
                        }
                    },
                    None => filtered.clone(),
                }
            };
            let changed = mc.modified.union(&mc.added);
            let conflict_set = vs.set.intersection(&changed);
            let ghost cb = conflicts@;
            proof {
                if exact {
                    assert(mc@ == filtered@);
                }
            }
            if !conflict_set.is_empty() {
                let paths = conflict_set.iterate();
                let mut j: usize = 0;
                while j < paths.len()
                    invariant
                        j <= paths@.len(),
                        name@ != workflow@,
                        forall|t: int| 0 <= t < conflicts@.len() ==> (#[trigger] conflicts@[t]).manager != workflow@,
                        conflicts@ == cb + Seq::new(
                            j as nat,
                            |t: int| ConflictView { manager: name@, path: paths@[t]@ },
                        ),
                    decreases paths@.len() - j,
                {
                    conflicts.add(Conflict::new(name.as_str(), paths[j].clone()));
                    proof {
                        assert(conflicts@ =~= cb + Seq::new(
                            (j + 1) as nat,
                            |t: int| ConflictView { manager: name@, path: paths@[t]@ },
                        ));
                    }
                    j = j + 1;
                }
                proof {
                    let added = Seq::new(paths@.len(), |t: int| ConflictView { manager: name@, path: paths@[t]@ });
                    assert(conflicts@ == cb + added);
                    assert forall|a: int, b: int| 0 <= a < added.len() && 0 <= b < added.len() && a != b implies added[a]
                        != added[b] by {
                        assert(crate::fieldpath::set::paths_view(paths@)[a] == paths@[a]@);
                        assert(crate::fieldpath::set::paths_view(paths@)[b] == paths@[b]@);
                    }
                    assert forall|a: int, b: int| 0 <= a < cb.len() && 0 <= b < added.len() implies cb[a] != added[b] by {
                        let k = choose|k: int| 0 <= k < i && s0[k].0 == cb[a].manager;
                        assert(s0[k].0 != s0[i as int].0);
                    }
                    vstd::seq_lib::lemma_no_dup_in_concat(cb, added);
                    assert forall|t: int| #![trigger conflicts@[t]] 0 <= t < conflicts@.len() implies exists|k: int|
                        0 <= k < i + 1 && s0[k].0 == conflicts@[t].manager by {
                        if t < cb.len() {
                            assert(conflicts@[t] == cb[t]);
                            let k = choose|k: int| 0 <= k < i && s0[k].0 == cb[t].manager;
                            assert(0 <= k < i + 1 && s0[k].0 == conflicts@[t].manager);
                        } else {
                            assert(conflicts@[t] == added[t - cb.len()]);
                            assert(s0[i as int].0 == conflicts@[t].manager);
                        }
                    }
                }
                proof {
                    if exact {
                        let added = Seq::new(paths@.len(), |t: int| ConflictView { manager: name@, path: paths@[t]@ });
                        assert forall|cv: ConflictView| #[trigger] conflicts@.contains(cv) <==> conflict_before(
                            s0,
                            i + 1,
                            workflow@,
                            ig,
                            old_object@,
                            new_object@,
                            cv.manager,
                            cv.path,
                        ) by {
                            if conflicts@.contains(cv) {
                                let k = choose|k: int| 0 <= k < conflicts@.len() && conflicts@[k] == cv;
                                if k < cb.len() {
                                    assert(cb.contains(cv));
                                    let jj = choose|jj: int|
                                        0 <= jj < i && #[trigger] s0[jj].0 == cv.manager && cv.manager != workflow@
                                            && contains_path(s0[jj].1.set, cv.path) && counted_change(
                                            ig,
                                            old_object@,
                                            new_object@,
                                            cv.path,
                                        );
                                    assert(s0[jj].0 == cv.manager);
                                } else {
                                    let t = k - cb.len();
                                    assert(conflicts@[k] == added[t]);
                                    assert(contains_path(conflict_set@, paths@[t]@));
                                    assert(s0[i as int].0 == cv.manager);
                                }
                            }
                            if conflict_before(s0, i + 1, workflow@, ig, old_object@, new_object@, cv.manager, cv.path) {
                                let jj = choose|jj: int|
                                    0 <= jj < i + 1 && #[trigger] s0[jj].0 == cv.manager && cv.manager != workflow@
                                        && contains_path(s0[jj].1.set, cv.path) && counted_change(
                                        ig,
                                        old_object@,
                                        new_object@,
                                        cv.path,
                                    );
                                if jj < i {
                                    assert(conflict_before(s0, i as int, workflow@, ig, old_object@, new_object@, cv.manager, cv.path));
                                    assert(cb.contains(cv));
                                    let k = choose|k: int| 0 <= k < cb.len() && cb[k] == cv;
                                    assert(conflicts@[k] == cv);
                                } else {
                                    assert(contains_path(conflict_set@, cv.path));
                                    let t = choose|t: int| 0 <= t < paths@.len() && #[trigger] paths@[t]@ == cv.path;
                                    assert(conflicts@[cb.len() + t] == added[t]);
                                    assert(added[t] == cv);
                                }
                            }
                        }
                    }
                }
            } else {
                proof {
                    if exact {
                        assert forall|cv: ConflictView| #[trigger] conflicts@.contains(cv) <==> conflict_before(
                            s0,
                            i + 1,
                            workflow@,
                            ig,
                            old_object@,
                            new_object@,
                            cv.manager,
                            cv.path,
                        ) by {
                            if conflict_before(s0, i + 1, workflow@, ig, old_object@, new_object@, cv.manager, cv.path) {
                                let jj = choose|jj: int|
                                    0 <= jj < i + 1 && #[trigger] s0[jj].0 == cv.manager && cv.manager != workflow@
                                        && contains_path(s0[jj].1.set, cv.path) && counted_change(
                                        ig,
                                        old_object@,
                                        new_object@,
                                        cv.path,
                                    );
                                if jj < i {
                                    assert(conflict_before(s0, i as int, workflow@, ig, old_object@, new_object@, cv.manager, cv.path));
                                } else {
                                    assert(contains_path(conflict_set@, cv.path));
                                }
                            }
                        }
                    }
                }
            }
            let ghost rb = removed_by_manager@;
            if !mc.removed.is_empty() {
                removed_by_manager.push((name.clone(), mc.removed.clone()));
            }
            proof {
                if exact {
                    assert(mc@ == filtered@);
                    if !no_paths(filtered@.removed) {
                        assert(removed_by_manager@.len() == rb.len() + 1);
                        assert(removed_by_manager@[rb.len() as int].0@ == s0[i as int].0);
                        assert forall|j: int| 0 <= j < i + 1 && #[trigger] s0[j].0 != workflow@ implies exists|t: int|
                            0 <= t < removed_by_manager@.len() && #[trigger] removed_by_manager@[t].0@ == s0[j].0 by {
                            if j < i {
                                let t = choose|t: int| 0 <= t < rb.len() && #[trigger] rb[t].0@ == s0[j].0;
                                assert(removed_by_manager@[t] == rb[t]);
                            } else {
                                assert(removed_by_manager@[rb.len() as int].0@ == s0[j].0);
                            }
                        }
                    }
                }
            }
            i = i + 1;
        }
        proof {
            if exact {
                assert forall|cv: ConflictView| #[trigger] conflicts@.contains(cv) <==> conflict_at(
                    s0,
                    workflow@,
                    ig,
                    old_object@,
                    new_object@,
                    cv.manager,
                    cv.path,
                ) by {
                    lemma_conflict_before_all(s0, workflow@, ig, old_object@, new_object@, cv.manager, cv.path);
                }
                if exists|m: Seq<char>, q: Seq<PathElementView>| conflict_at(s0, workflow@, ig, old_object@, new_object@, m, q) {
                    let (m, q) = choose|m: Seq<char>, q: Seq<PathElementView>|
                        conflict_at(s0, workflow@, ig, old_object@, new_object@, m, q);
                    assert(conflicts@.contains(ConflictView { manager: m, path: q }));
                }
                if conflicts@.len() > 0 {
                    assert(conflicts@.contains(conflicts@[0]));
                }
            }
        }
        if !force && !conflicts.is_empty() {
            return Err(ApplyError::Conflicts(conflicts));
        }
        let mut k: usize = 0;
        while k < obsolete.len()
            invariant
                k <= obsolete@.len(),
                forall|j: int| 0 <= j < obsolete@.len() ==> (#[trigger] obsolete@[j])@ != workflow@,
                forall|x: Seq<char>| #[trigger] managers_map(managers@).contains_key(x) ==> m0.contains_key(x) && same_owner(
                    managers_map(managers@)[x],
                    m0[x],
                ),
                managers_map(managers@).contains_key(workflow@) == m0.contains_key(workflow@),
                managers_map(managers@).contains_key(workflow@) ==> managers_map(managers@)[workflow@] == m0[workflow@],
                obsolete@.len() == 0 ==> managers_map(managers@) == m0,
            decreases obsolete@.len() - k,
        {
            let _ = managers.remove(obsolete[k].as_str());
            k = k + 1;
        }
        let ghost m2 = managers_map(managers@);
        let conflict_paths = conflicts.to_set();
        let list = conflicts.iter();
        let ghost cvl = list@.map_values(|c: Conflict| c@);
        proof {
            assert forall|j: int| 0 <= j < list@.len() implies (#[trigger] list@[j])@.manager != workflow@ by {
                assert(list@.map_values(|c: Conflict| c@)[j] == list@[j]@);
            }
        }
        let mut k: usize = 0;
        while k < list.len()
            invariant
                k <= list@.len(),
                forall|j: int| 0 <= j < list@.len() ==> (#[trigger] list@[j])@.manager != workflow@,
                forall|x: Seq<char>| #[trigger] managers_map(managers@).contains_key(x) ==> m0.contains_key(x) && same_owner(
                    managers_map(managers@)[x],
                    m0[x],
                ),
                managers_map(managers@).contains_key(workflow@) == m0.contains_key(workflow@),
                managers_map(managers@).contains_key(workflow@) ==> managers_map(managers@)[workflow@] == m0[workflow@],
                cvl == list@.map_values(|c: Conflict| c@),
                forall|x: Seq<char>| x != workflow@ ==> (#[trigger] managers_map(managers@).contains_key(x) == m2.contains_key(x)),
                forall|x: Seq<char>, q: Seq<PathElementView>|
                    x != workflow@ && managers_map(managers@).contains_key(x) ==> #[trigger] contains_path(
                        managers_map(managers@)[x].set,
                        q,
                    ) == (contains_path(m2[x].set, q) && !(contains_path(conflict_paths@, q) && listed_before(
                        cvl,
                        k as int,
                        x,
                    ))),
            decreases list@.len() - k,
        {
            let who = list[k].manager.as_str();
            let ghost mb = managers_map(managers@);
            proof {
                assert(list@[k as int]@.manager == who@);
                assert(cvl[k as int] == list@[k as int]@);
            }
            let replacement = match managers.get(who) {
                Some(vs) => Some(
                    VersionedSet::new(vs.set.difference(&conflict_paths), vs.api_version.clone(), vs.applied),
                ),
                None => None,
            };
            let ghost rep = replacement;
            proof {
                if rep is Some {
                    assert(mb.contains_key(who@));
                }
            }
            match replacement {
                Some(nvs) => managers.insert(who, nvs),
                None => {},
            }
            proof {
                assert forall|x: Seq<char>, q: Seq<PathElementView>|
                    x != workflow@ && managers_map(managers@).contains_key(x) implies #[trigger] contains_path(
                        managers_map(managers@)[x].set,
                        q,
                    ) == (contains_path(m2[x].set, q) && !(contains_path(conflict_paths@, q) && listed_before(
                        cvl,
                        k + 1,
                        x,
                    ))) by {
                    if x == who@ {
                        assert(cvl[k as int].manager == x);
                        assert(listed_before(cvl, k + 1, x));
                        assert(rep is Some);
                        assert(managers_map(managers@)[x] == rep->Some_0@);
                        assert(contains_path(mb[x].set, q) == (contains_path(m2[x].set, q) && !(contains_path(
                            conflict_paths@,
                            q,
                        ) && listed_before(cvl, k as int, x))));
                    } else {
                        assert(managers_map(managers@)[x] == mb[x]);
                        if listed_before(cvl, k + 1, x) {
                            let j = choose|j: int| 0 <= j < k + 1 && #[trigger] cvl[j].manager == x;
                            assert(j < k);
                        }
                    }
                }
            }
            k = k + 1;
        }
        let ghost m3 = managers_map(managers@);
        let mut k: usize = 0;
        while k < removed_by_manager.len()
            invariant
                k <= removed_by_manager@.len(),
                forall|j: int| 0 <= j < removed_by_manager@.len() ==> (#[trigger] removed_by_manager@[j]).0@ != workflow@,
                forall|x: Seq<char>| #[trigger] managers_map(managers@).contains_key(x) ==> m0.contains_key(x) && same_owner(
                    managers_map(managers@)[x],
                    m0[x],
                ),
                managers_map(managers@).contains_key(workflow@) == m0.contains_key(workflow@),
                managers_map(managers@).contains_key(workflow@) ==> managers_map(managers@)[workflow@] == m0[workflow@],
                forall|x: Seq<char>| x != workflow@ ==> (#[trigger] managers_map(managers@).contains_key(x) == m3.contains_key(x)),
                forall|x: Seq<char>, q: Seq<PathElementView>|
                    x != workflow@ && managers_map(managers@).contains_key(x) ==> #[trigger] contains_path(
                        managers_map(managers@)[x].set,
                        q,
                    ) == (contains_path(m3[x].set, q) && !removed_before(removed_by_manager@, k as int, x, q)),
            decreases removed_by_manager@.len() - k,
        {
            let who = removed_by_manager[k].0.as_str();
            let ghost mb = managers_map(managers@);
            let replacement = match managers.get(who) {
                Some(vs) => Some(
                    VersionedSet::new(
                        vs.set.difference(&removed_by_manager[k].1),
                        vs.api_version.clone(),
                        vs.applied,
                    ),
                ),
                None => None,
            };
            let ghost rep = replacement;
            proof {
                if rep is Some {
                    assert(mb.contains_key(who@));
                }
            }
            match replacement {
                Some(nvs) => managers.insert(who, nvs),
                None => {},
            }
            proof {
                let rs = removed_by_manager@;
                assert forall|x: Seq<char>, q: Seq<PathElementView>|
                    x != workflow@ && managers_map(managers@).contains_key(x) implies #[trigger] contains_path(
                        managers_map(managers@)[x].set,
                        q,
                    ) == (contains_path(m3[x].set, q) && !removed_before(rs, k + 1, x, q)) by {
                    if x == who@ {
                        assert(rep is Some);
                        assert(managers_map(managers@)[x] == rep->Some_0@);
                        assert(contains_path(mb[x].set, q) == (contains_path(m3[x].set, q) && !removed_before(
                            rs,
                            k as int,
                            x,
                            q,
                        )));
                        assert(rs[k as int].0@ == who@);
                        if removed_before(rs, k + 1, x, q) {
                            let t = choose|t: int| 0 <= t < k + 1 && #[trigger] rs[t].0@ == x && contains_path(rs[t].1@, q);
                            if t < k {
                                assert(removed_before(rs, k as int, x, q));
                            }
                        }
                        if contains_path(rs[k as int].1@, q) {
                            assert(rs[k as int].0@ == x);
                        }
                        if removed_before(rs, k as int, x, q) {
                            let t = choose|t: int| 0 <= t < k && #[trigger] rs[t].0@ == x && contains_path(rs[t].1@, q);
                            assert(0 <= t < k + 1);
                        }
                    } else {
                        assert(managers_map(managers@)[x] == mb[x]);
                        if removed_before(rs, k + 1, x, q) {
                            let t = choose|t: int| 0 <= t < k + 1 && #[trigger] rs[t].0@ == x && contains_path(rs[t].1@, q);
                            assert(t < k);
                        }
                        if removed_before(rs, k as int, x, q) {
                            let t = choose|t: int| 0 <= t < k && #[trigger] rs[t].0@ == x && contains_path(rs[t].1@, q);
                            assert(0 <= t < k + 1);
                        }
                    }
                }
            }
            k = k + 1;
        }
        let ghost m4 = managers_map(managers@);
        managers.remove_empty();
        proof {
            if exact {
                lemma_others_updated_final(
                    s0,
                    m2,
                    m3,
                    m4,
                    managers_map(managers@),
                    cvl,
                    conflicts@,
                    conflict_paths@,
                    removed_by_manager@,
                    filtered@.removed,
                    workflow@,
                    ig,
                    old_object@,
                    new_object@,
                );
            }
        }
        Ok(compare)
    }
}

/// The path `q` changed from `live` to `new` (it was modified or added),
/// and the ignored fields of the version, if any, do not hold it.
pub open spec fn counted_change(ig: Option<SetView>, live: TypedValueView, new: TypedValueView, q: Seq<PathElementView>) -> bool {
    (differs_at(live.schema, live.type_ref, live.value, new.value, 1, q) || differs_at(
        live.schema,
        live.type_ref,
        live.value,
        new.value,
        2,
        q,
    )) && match ig {
        Some(f) => !contains_path(f, q),
        None => true,
    }
}

/// The path `q` was removed from `live` to `new`, and the ignored fields of
/// the version, if any, do not hold it.
pub open spec fn counted_removal(ig: Option<SetView>, live: TypedValueView, new: TypedValueView, q: Seq<PathElementView>) -> bool {
    differs_at(live.schema, live.type_ref, live.value, new.value, 0, q) && match ig {
        Some(f) => !contains_path(f, q),
        None => true,
    }
}

/// Another manager, owning `owned`, keeps the path `q` through an update
/// from `live` to `new`: it owned `q`, and `q` neither changed nor was
/// removed (as far as the ignored fields let them count).
pub open spec fn kept_path(
    owned: SetView,
    ig: Option<SetView>,
    live: TypedValueView,
    new: TypedValueView,
    q: Seq<PathElementView>,
) -> bool {
    contains_path(owned, q) && !counted_change(ig, live, new, q) && !counted_removal(ig, live, new, q)
}

/// The managers other than `workflow` after an update from `live` to
/// `new`: each stays exactly when it keeps some path (see [`kept_path`]),
/// and then owns exactly the paths it keeps.
pub open spec fn others_updated(
    m0: Map<Seq<char>, VersionedSetView>,
    m1: Map<Seq<char>, VersionedSetView>,
    workflow: Seq<char>,
    ig: Option<SetView>,
    live: TypedValueView,
    new: TypedValueView,
) -> bool {
    &&& forall|k: Seq<char>|
        k != workflow ==> (#[trigger] m1.contains_key(k) == (m0.contains_key(k) && exists|q: Seq<PathElementView>|
            kept_path(m0[k].set, ig, live, new, q)))
    &&& forall|k: Seq<char>, q: Seq<PathElementView>|
        k != workflow && m1.contains_key(k) ==> #[trigger] contains_path(m1[k].set, q) == kept_path(
            m0[k].set,
            ig,
            live,
            new,
            q,
        )
}

/// Some conflict among the first `n` names the manager `x`.
spec fn listed_before(cs: Seq<ConflictView>, n: int, x: Seq<char>) -> bool {
    exists|j: int| 0 <= j < n && #[trigger] cs[j].manager == x
}

/// Some entry among the first `n` of `rs` names the manager `x` with a set
/// that holds `q`.
spec fn removed_before(rs: Seq<(String, FieldPathSet)>, n: int, x: Seq<char>, q: Seq<PathElementView>) -> bool {
    exists|t: int| 0 <= t < n && #[trigger] rs[t].0@ == x && contains_path(rs[t].1@, q)
}

/// What the last steps of an update leave of the other managers, put
/// together: the conflicting paths taken away from the managers that own
/// them, the removed paths taken away, and the managers left with nothing
/// dropped.
proof fn lemma_others_updated_final(
    s0: Seq<(Seq<char>, VersionedSetView)>,
    m2: Map<Seq<char>, VersionedSetView>,
    m3: Map<Seq<char>, VersionedSetView>,
    m4: Map<Seq<char>, VersionedSetView>,
    m5: Map<Seq<char>, VersionedSetView>,
    cvl: Seq<ConflictView>,
    cs: Seq<ConflictView>,
    cp: SetView,
    rs: Seq<(String, FieldPathSet)>,
    removed: SetView,
    workflow: Seq<char>,
    ig: Option<SetView>,
    live: TypedValueView,
    new: TypedValueView,
)
    requires
        crate::fieldpath::names_distinct(s0),
        m2 == managers_map(s0),
        cvl == cs,
        forall|cv: ConflictView| #[trigger] cs.contains(cv) <==> conflict_at(s0, workflow, ig, live, new, cv.manager, cv.path),
        forall|q: Seq<PathElementView>| contains_path(cp, q) <==> exists|i: int| 0 <= i < cs.len() && #[trigger] cs[i].path == q,
        forall|x: Seq<char>| x != workflow ==> (#[trigger] m3.contains_key(x) == m2.contains_key(x)),
        forall|x: Seq<char>, q: Seq<PathElementView>|
            x != workflow && m3.contains_key(x) ==> #[trigger] contains_path(m3[x].set, q) == (contains_path(m2[x].set, q)
                && !(contains_path(cp, q) && listed_before(cvl, cvl.len() as int, x))),
        forall|x: Seq<char>| x != workflow ==> (#[trigger] m4.contains_key(x) == m3.contains_key(x)),
        forall|x: Seq<char>, q: Seq<PathElementView>|
            x != workflow && m4.contains_key(x) ==> #[trigger] contains_path(m4[x].set, q) == (contains_path(m3[x].set, q)
                && !removed_before(rs, rs.len() as int, x, q)),
        forall|t: int| 0 <= t < rs.len() ==> (#[trigger] rs[t]).1@ == removed,
        forall|q: Seq<PathElementView>| contains_path(removed, q) == #[trigger] counted_removal(ig, live, new, q),
        !no_paths(removed) ==> forall|j: int|
            0 <= j < s0.len() && #[trigger] s0[j].0 != workflow ==> exists|t: int| 0 <= t < rs.len() && #[trigger] rs[t].0@ == s0[j].0,
        forall|x: Seq<char>| #[trigger] m5.contains_key(x) == (m4.contains_key(x) && !no_paths(m4[x].set)),
        forall|x: Seq<char>| #[trigger] m5.contains_key(x) ==> m5[x] == m4[x],
    ensures
        others_updated(m2, m5, workflow, ig, live, new),
{
    assert forall|x: Seq<char>, q: Seq<PathElementView>| x != workflow && #[trigger] m2.contains_key(x) implies #[trigger] contains_path(
        m4[x].set,
        q,
    ) == kept_path(m2[x].set, ig, live, new, q) by {
        assert(m3.contains_key(x));
        assert(m4.contains_key(x));
        if contains_path(m2[x].set, q) {
            if counted_change(ig, live, new, q) {
                assert(conflict_at(s0, workflow, ig, live, new, x, q));
                let cv = ConflictView { manager: x, path: q };
                assert(cs.contains(cv));
                let i = choose|i: int| 0 <= i < cs.len() && cs[i] == cv;
                assert(cs[i].path == q);
                assert(contains_path(cp, q));
                assert(cvl[i].manager == x);
                assert(listed_before(cvl, cvl.len() as int, x));
            }
            if contains_path(cp, q) && listed_before(cvl, cvl.len() as int, x) {
                let i = choose|i: int| 0 <= i < cs.len() && #[trigger] cs[i].path == q;
                assert(cs.contains(cs[i]));
                assert(conflict_at(s0, workflow, ig, live, new, cs[i].manager, cs[i].path));
            }
            if removed_before(rs, rs.len() as int, x, q) {
                let t = choose|t: int| 0 <= t < rs.len() && #[trigger] rs[t].0@ == x && contains_path(rs[t].1@, q);
                assert(rs[t].1@ == removed);
            }
            if counted_removal(ig, live, new, q) {
                assert(contains_path(removed, q));
                assert(!no_paths(removed));
                let j = crate::fieldpath::name_index(s0, x);
                crate::fieldpath::lemma_managers_map_at(s0, j);
                assert(s0[j].0 == x);
                let t = choose|t: int| 0 <= t < rs.len() && #[trigger] rs[t].0@ == s0[j].0;
                assert(rs[t].1@ == removed);
                assert(removed_before(rs, rs.len() as int, x, q));
            }
        }
    }
    assert forall|k: Seq<char>| k != workflow implies (#[trigger] m5.contains_key(k) == (m2.contains_key(k) && exists|
        q: Seq<PathElementView>,
    | kept_path(m2[k].set, ig, live, new, q))) by {
        if m2.contains_key(k) {
            if exists|q: Seq<PathElementView>| kept_path(m2[k].set, ig, live, new, q) {
                let q = choose|q: Seq<PathElementView>| kept_path(m2[k].set, ig, live, new, q);
                assert(contains_path(m4[k].set, q));
            }
            if !no_paths(m4[k].set) {
                let q = choose|q: Seq<PathElementView>| contains_path(m4[k].set, q);
                assert(kept_path(m2[k].set, ig, live, new, q));
            }
        }
    }
    assert forall|k: Seq<char>, q: Seq<PathElementView>| k != workflow && m5.contains_key(k) implies #[trigger] contains_path(
        m5[k].set,
        q,
    ) == kept_path(m2[k].set, ig, live, new, q) by {
        assert(m5[k] == m4[k]);
        assert(m2.contains_key(k));
        assert(contains_path(m4[k].set, q) == kept_path(m2[k].set, ig, live, new, q));
    }
}

/// [`others_updated`] holds of a record that differs only in the entry of
/// `workflow`, and of a new object with the same value.
proof fn lemma_others_updated_switch(
    m0: Map<Seq<char>, VersionedSetView>,
    m1: Map<Seq<char>, VersionedSetView>,
    fin: Map<Seq<char>, VersionedSetView>,
    workflow: Seq<char>,
    ig: Option<SetView>,
    live: TypedValueView,
    a: TypedValueView,
    b: TypedValueView,
)
    requires
        others_updated(m1, fin, workflow, ig, live, a),
        forall|k: Seq<char>| k != workflow ==> (#[trigger] m1.contains_key(k) == m0.contains_key(k)),
        forall|k: Seq<char>| k != workflow && #[trigger] m0.contains_key(k) ==> m1[k] == m0[k],
        a.value == b.value,
    ensures
        others_updated(m0, fin, workflow, ig, live, b),
{
    assert forall|s: SetView, q: Seq<PathElementView>| #[trigger] kept_path(s, ig, live, a, q) == kept_path(s, ig, live, b, q) by {}
    assert forall|k: Seq<char>| k != workflow implies (#[trigger] fin.contains_key(k) == (m0.contains_key(k) && exists|
        q: Seq<PathElementView>,
    | kept_path(m0[k].set, ig, live, b, q))) by {
        assert(fin.contains_key(k) == (m1.contains_key(k) && exists|q: Seq<PathElementView>| kept_path(m1[k].set, ig, live, a, q)));
        if m0.contains_key(k) {
            if exists|q: Seq<PathElementView>| kept_path(m1[k].set, ig, live, a, q) {
                let q = choose|q: Seq<PathElementView>| kept_path(m1[k].set, ig, live, a, q);
                assert(kept_path(m0[k].set, ig, live, b, q));
            }
            if exists|q: Seq<PathElementView>| kept_path(m0[k].set, ig, live, b, q) {
                let q = choose|q: Seq<PathElementView>| kept_path(m0[k].set, ig, live, b, q);
                assert(kept_path(m1[k].set, ig, live, a, q));
            }
        }
    }
    assert forall|k: Seq<char>, q: Seq<PathElementView>| k != workflow && fin.contains_key(k) implies #[trigger] contains_path(
        fin[k].set,
        q,
    ) == kept_path(m0[k].set, ig, live, b, q) by {
        assert(contains_path(fin[k].set, q) == kept_path(m1[k].set, ig, live, a, q));
        assert(m1.contains_key(k));
        assert(m0.contains_key(k));
    }
}

/// [`others_updated`] is kept by a change to the entry of `workflow` alone.
proof fn lemma_others_updated_fin(
    m0: Map<Seq<char>, VersionedSetView>,
    m1: Map<Seq<char>, VersionedSetView>,
    fin: Map<Seq<char>, VersionedSetView>,
    workflow: Seq<char>,
    ig: Option<SetView>,
    live: TypedValueView,
    new: TypedValueView,
)
    requires
        others_updated(m0, m1, workflow, ig, live, new),
        forall|k: Seq<char>| k != workflow ==> (#[trigger] fin.contains_key(k) == m1.contains_key(k)),
        forall|k: Seq<char>| k != workflow && #[trigger] fin.contains_key(k) ==> fin[k] == m1[k],
    ensures
        others_updated(m0, fin, workflow, ig, live, new),
{
    assert forall|k: Seq<char>, q: Seq<PathElementView>| k != workflow && fin.contains_key(k) implies #[trigger] contains_path(
        fin[k].set,
        q,
    ) == kept_path(m0[k].set, ig, live, new, q) by {
        assert(m1.contains_key(k));
        assert(contains_path(m1[k].set, q) == kept_path(m0[k].set, ig, live, new, q));
    }
}

/// A conflict: manager `m`, other than `workflow`, owns in the record `s`
/// the path `q`, which changed (see [`counted_change`]).
pub open spec fn conflict_at(
    s: Seq<(Seq<char>, VersionedSetView)>,
    workflow: Seq<char>,
    ig: Option<SetView>,
    live: TypedValueView,
    new: TypedValueView,
    m: Seq<char>,
    q: Seq<PathElementView>,
) -> bool {
    m != workflow && managers_map(s).contains_key(m) && contains_path(managers_map(s)[m].set, q) && counted_change(
        ig,
        live,
        new,
        q,
    )
}

/// The same as [`conflict_at`], by the position of the manager among the
/// first `n` entries.
pub open spec fn conflict_before(
    s: Seq<(Seq<char>, VersionedSetView)>,
    n: int,
    workflow: Seq<char>,
    ig: Option<SetView>,
    live: TypedValueView,
    new: TypedValueView,
    m: Seq<char>,
    q: Seq<PathElementView>,
) -> bool {
    exists|j: int|
        0 <= j < n && #[trigger] s[j].0 == m && m != workflow && contains_path(s[j].1.set, q) && counted_change(
            ig,
            live,
            new,
            q,
        )
}

proof fn lemma_conflict_before_all(
    s: Seq<(Seq<char>, VersionedSetView)>,
    workflow: Seq<char>,
    ig: Option<SetView>,
    live: TypedValueView,
    new: TypedValueView,
    m: Seq<char>,
    q: Seq<PathElementView>,
)
    requires
        crate::fieldpath::names_distinct(s),
    ensures
        conflict_before(s, s.len() as int, workflow, ig, live, new, m, q) == conflict_at(s, workflow, ig, live, new, m, q),
{
    if conflict_before(s, s.len() as int, workflow, ig, live, new, m, q) {
        let j = choose|j: int|
            0 <= j < s.len() && #[trigger] s[j].0 == m && m != workflow && contains_path(s[j].1.set, q)
                && counted_change(ig, live, new, q);
        crate::fieldpath::lemma_managers_map_at(s, j);
    }
    if conflict_at(s, workflow, ig, live, new, m, q) {
        let j = crate::fieldpath::name_index(s, m);
        crate::fieldpath::lemma_managers_map_at(s, j);
        assert(s[j].0 == m);
    }
}

/// Changing the entry of `workflow` changes no conflict of `workflow`.
proof fn lemma_conflict_at_insert(
    s0: Seq<(Seq<char>, VersionedSetView)>,
    s1: Seq<(Seq<char>, VersionedSetView)>,
    workflow: Seq<char>,
    x: VersionedSetView,
    ig: Option<SetView>,
    live: TypedValueView,
    new: TypedValueView,
)
    requires
        managers_map(s1) == managers_map(s0).insert(workflow, x),
    ensures
        forall|m: Seq<char>, q: Seq<PathElementView>|
            #![trigger conflict_at(s1, workflow, ig, live, new, m, q)]
            #![trigger conflict_at(s0, workflow, ig, live, new, m, q)]
            conflict_at(s1, workflow, ig, live, new, m, q) == conflict_at(s0, workflow, ig, live, new, m, q),
{
}

/// Another manager than `manager` owns the path `q`.
pub open spec fn owned_by_other(s: Seq<(Seq<char>, VersionedSetView)>, manager: Seq<char>, q: Seq<PathElementView>) -> bool {
    exists|j: int| 0 <= j < s.len() && #[trigger] s[j].0 != manager && contains_path(s[j].1.set, q)
}

/// The fields of a configuration that its applier comes to own: the field
/// set of the configuration, less what the ignored fields of the version
/// cover.
pub open spec fn applied_fields(ignored: Option<SetView>, config: crate::typed::typed_value::TypedValueView, q: Seq<PathElementView>) -> bool {
    crate::typed::typed_value::field_set_contains(config, q) && match ignored {
        Some(ig) => !covers(ig, q),
        None => true,
    }
}

/// The object that an apply returns when it prunes nothing: the
/// configuration merged into the live object.
pub open spec fn merged_object(live: TypedValueView, config: TypedValueView) -> ValueView {
    merged_value(live.schema, live.type_ref, live.value, config.value)
}

/// No manager other than `workflow` owns a changed path (see
/// [`conflict_at`]).
pub open spec fn no_conflict(
    s: Seq<(Seq<char>, VersionedSetView)>,
    workflow: Seq<char>,
    ig: Option<SetView>,
    live: TypedValueView,
    new: TypedValueView,
) -> bool {
    !exists|m: Seq<char>, q: Seq<PathElementView>| #[trigger] conflict_at(s, workflow, ig, live, new, m, q)
}

/// The conflicts `c` are exactly the pairs of [`conflict_at`], each once.
pub open spec fn conflicts_exact(
    c: Conflicts,
    s: Seq<(Seq<char>, VersionedSetView)>,
    workflow: Seq<char>,
    ig: Option<SetView>,
    live: TypedValueView,
    new: TypedValueView,
) -> bool {
    &&& forall|cv: ConflictView| #[trigger] c@.contains(cv) <==> conflict_at(s, workflow, ig, live, new, cv.manager, cv.path)
    &&& c@.no_duplicates()
}

/// The live object with its value replaced by `v`.
pub open spec fn with_value(live: TypedValueView, v: ValueView) -> TypedValueView {
    TypedValueView { value: v, ..live }
}

/// `nv` is the value that an apply of `config` by `manager` on the record
/// `s` produces before conflicts are checked: the merged object, with the
/// paths pruned that `manager` owned, no longer applies, and no other
/// manager owns (see [`prunes_exactly`]).
pub open spec fn applied_value(
    nv: ValueView,
    live: TypedValueView,
    config: TypedValueView,
    ig: Option<SetView>,
    s: Seq<(Seq<char>, VersionedSetView)>,
    manager: Seq<char>,
) -> bool {
    let m0 = managers_map(s);
    if m0.contains_key(manager) && exists|q: Seq<PathElementView>|
        contains_path(m0[manager].set, q) && !applied_fields(ig, config, q) {
        exists|ps: SetView|
            prunes_exactly(ps, m0[manager].set, ig, config, s, manager) && nv == removed_value(
                live.schema,
                live.type_ref,
                merged_object(live, config),
                ps,
                Seq::empty(),
            )
    } else {
        nv == merged_object(live, config)
    }
}

/// The live object with the configuration merged into it.
pub open spec fn merged_view(live: TypedValueView, config: TypedValueView) -> TypedValueView {
    TypedValueView { value: merged_object(live, config), ..live }
}

/// `s` holds exactly the paths that an apply prunes: those that `manager`
/// owned before (`last`), that it no longer applies, and that no other
/// manager owns.
pub open spec fn prunes_exactly(
    s: SetView,
    last: SetView,
    ignored: Option<SetView>,
    config: TypedValueView,
    m0: Seq<(Seq<char>, VersionedSetView)>,
    manager: Seq<char>,
) -> bool {
    forall|q: Seq<PathElementView>| #[trigger] contains_path(s, q) == (contains_path(last, q) && !applied_fields(
        ignored,
        config,
        q,
    ) && !owned_by_other(m0, manager, q))
}

/// `s` holds only paths that `manager` owned before (`last`) and that no
/// other manager owns.
pub open spec fn prunes_within(s: SetView, last: SetView, m0: Seq<(Seq<char>, VersionedSetView)>, manager: Seq<char>) -> bool {
    forall|q: Seq<PathElementView>| #[trigger] contains_path(s, q) ==> contains_path(last, q) && !owned_by_other(m0, manager, q)
}

impl Updater {
    /// Returns the set of fields that the applier of `config` comes to own.
    fn filtered_config_set(&self, config_set: FieldPathSet, version: &APIVersion) -> (r: FieldPathSet)
        ensures
            ignored_for(self.ignored_fields_view(), version@) is Some || !self.has_filter(version@) ==> forall|
                q: Seq<PathElementView>,
            | #[trigger] contains_path(r@, q) == (contains_path(config_set@, q) && match ignored_for(
                self.ignored_fields_view(),
                version@,
            ) {
                Some(ig) => !covers(ig, q),
                None => true,
            }),
    {
        match self.find_ignored_fields(version) {
            Some(fields) => config_set.recursive_difference(fields),
            None => match self.find_ignore_filter(version) {
                Some(filter) => filter.filter(&config_set),
                None => config_set,
            },
        }
    }

    /// The paths that `manager` owned and no longer applies, and that no
    /// other manager owns.
    fn paths_to_prune(
        managers: &ManagedFields,
        manager: &str,
        removed_from_config: &FieldPathSet,
    ) -> (r: FieldPathSet)
        ensures
            forall|q: Seq<PathElementView>| #[trigger] contains_path(r@, q) == (contains_path(removed_from_config@, q)
                && !owned_by_other(managers@, manager@, q)),
    {
        let paths = removed_from_config.iterate();
        let entries = managers.iter();
        let mut to_remove = FieldPathSet::new();
        let mut i: usize = 0;
        while i < paths.len()
            invariant
                i <= paths@.len(),
                crate::fieldpath::ref_entries_view(entries@) == managers@,
                forall|j: int| 0 <= j < paths@.len() ==> contains_path(removed_from_config@, #[trigger] paths@[j]@),
                forall|q: Seq<PathElementView>| #[trigger] contains_path(to_remove@, q) == (exists|j: int|
                    0 <= j < i && #[trigger] paths@[j]@ == q && !owned_by_other(managers@, manager@, q)),
            decreases paths@.len() - i,
        {
            let p = &paths[i];
            let mut owned = false;
            let mut j: usize = 0;
            while j < entries.len()
                invariant
                    j <= entries@.len(),
                    crate::fieldpath::ref_entries_view(entries@) == managers@,
                    owned == (exists|t: int| 0 <= t < j && #[trigger] managers@[t].0 != manager@ && contains_path(
                        managers@[t].1.set,
                        p@,
                    )),
                decreases entries@.len() - j,
            {
                let other = !str_equal(entries[j].0.as_str(), manager) && entries[j].1.set.has(p);
                proof {
                    assert(managers@[j as int] == (entries@[j as int].0@, entries@[j as int].1@));
                    assert(other == (managers@[j as int].0 != manager@ && contains_path(managers@[j as int].1.set, p@)));
                }
                if other {
                    owned = true;
                }
                j = j + 1;
            }
            proof {
                assert(managers@.len() == entries@.len());
                assert(owned == owned_by_other(managers@, manager@, p@));
            }
            if !owned {
                to_remove.insert(p);
            }
            proof {
                assert forall|q: Seq<PathElementView>| #[trigger] contains_path(to_remove@, q) == (exists|j: int|
                    0 <= j < i + 1 && #[trigger] paths@[j]@ == q && !owned_by_other(managers@, manager@, q)) by {
                    if q == paths@[i as int]@ && !owned_by_other(managers@, manager@, q) {
                        assert(paths@[i as int]@ == q);
                    }
                    if exists|j: int| 0 <= j < i + 1 && #[trigger] paths@[j]@ == q && !owned_by_other(managers@, manager@, q) {
                        let j = choose|j: int| 0 <= j < i + 1 && #[trigger] paths@[j]@ == q && !owned_by_other(managers@, manager@, q);
                        if j < i {
                            assert(exists|j: int| 0 <= j < i && #[trigger] paths@[j]@ == q && !owned_by_other(managers@, manager@, q));
                        }
                    }
                }
            }
            i = i + 1;
        }
        proof {
            assert forall|q: Seq<PathElementView>| #[trigger] contains_path(to_remove@, q) == (contains_path(removed_from_config@, q)
                && !owned_by_other(managers@, manager@, q)) by {
                if contains_path(removed_from_config@, q) && !owned_by_other(managers@, manager@, q) {
                    let j = choose|j: int| 0 <= j < paths@.len() && #[trigger] paths@[j]@ == q;
                    assert(paths@[j]@ == q);
                }
            }
        }
        to_remove
    }

    /// The apply proper, on a record already reconciled with the schema:
    /// merges the configuration into the live object, makes `manager` the
    /// owner of exactly the configuration's fields (less the ignored ones),
    /// takes out of the object the fields that `manager` owned before, no
    /// longer applies, and no other manager owns, and then takes the changed
    /// fields away from the other managers (see `update_internal`). A
    /// refused apply leaves the record as it was.
    fn apply_to_reconciled(
        &self,
        live_obj: &TypedValue,
        config_obj: &TypedValue,
        version: &APIVersion,
        managers: &mut ManagedFields,
        manager: &str,
        force: bool,
    ) -> (r: Result<TypedValue, ApplyError>)
        ensures
            r is Err ==> managers_map(final(managers)@) == managers_map(old(managers)@),
            live_obj@.type_ref != config_obj@.type_ref ==> r is Err,
            r is Err && r->Err_0 is Conflicts ==> !force,
            r matches Ok(tv) ==> tv@.type_ref == live_obj@.type_ref && tv@.schema == live_obj@.schema,
            !self.has_converter() && live_obj@.type_ref == config_obj@.type_ref && force ==> r is Ok,
            !self.has_converter() && live_obj@.type_ref == config_obj@.type_ref ==> (r is Err ==> r->Err_0 is Conflicts),
            !self.has_converter() && live_obj@.type_ref == config_obj@.type_ref && (ignored_for(
                self.ignored_fields_view(),
                version@,
            ) is Some || !self.has_filter(version@)) ==> exists|nv: ValueView|
                #[trigger] applied_value(
                    nv,
                    live_obj@,
                    config_obj@,
                    ignored_for(self.ignored_fields_view(), version@),
                    old(managers)@,
                    manager@,
                ) && (r is Ok <==> (force || no_conflict(
                    old(managers)@,
                    manager@,
                    ignored_for(self.ignored_fields_view(), version@),
                    live_obj@,
                    with_value(live_obj@, nv),
                ))) && (r matches Err(ApplyError::Conflicts(c)) ==> conflicts_exact(
                    c,
                    old(managers)@,
                    manager@,
                    ignored_for(self.ignored_fields_view(), version@),
                    live_obj@,
                    with_value(live_obj@, nv),
                )) && (r is Ok ==> others_updated(
                    managers_map(old(managers)@),
                    managers_map(final(managers)@),
                    manager@,
                    ignored_for(self.ignored_fields_view(), version@),
                    live_obj@,
                    with_value(live_obj@, nv),
                )),
            r is Ok && managers_map(final(managers)@).contains_key(manager@) ==> managers_map(final(managers)@)[manager@].api_version
                == version@ && managers_map(final(managers)@)[manager@].applied,
            r is Ok && (ignored_for(self.ignored_fields_view(), version@) is Some || !self.has_filter(version@)) ==> (
            managers_map(final(managers)@).contains_key(manager@) == (exists|q: Seq<PathElementView>|
                applied_fields(ignored_for(self.ignored_fields_view(), version@), config_obj@, q))),
            r is Ok && (ignored_for(self.ignored_fields_view(), version@) is Some || !self.has_filter(version@))
                && managers_map(final(managers)@).contains_key(manager@) ==> forall|q: Seq<PathElementView>|
                #[trigger] contains_path(managers_map(final(managers)@)[manager@].set, q) == applied_fields(
                    ignored_for(self.ignored_fields_view(), version@),
                    config_obj@,
                    q,
                ),
            r is Ok ==> forall|k: Seq<char>|
                k != manager@ && #[trigger] managers_map(final(managers)@).contains_key(k) ==> managers_map(old(managers)@).contains_key(k)
                    && same_owner(managers_map(final(managers)@)[k], managers_map(old(managers)@)[k]),
            r matches Ok(tv) ==> (!managers_map(old(managers)@).contains_key(manager@) ==> tv@.value == merged_object(
                live_obj@,
                config_obj@,
            )),
            r matches Ok(tv) ==> tv@.value == merged_object(live_obj@, config_obj@) || (managers_map(
                old(managers)@,
            ).contains_key(manager@) && exists|s: SetView|
                prunes_within(s, managers_map(old(managers)@)[manager@].set, old(managers)@, manager@) && tv@.value
                    == removed_value(
                    live_obj@.schema,
                    live_obj@.type_ref,
                    merged_object(live_obj@, config_obj@),
                    s,
                    Seq::empty(),
                )),
            r matches Ok(tv) ==> ((ignored_for(self.ignored_fields_view(), version@) is Some || !self.has_filter(version@))
                && managers_map(old(managers)@).contains_key(manager@) && (managers_map(old(managers)@)[manager@].api_version
                == version@ || !self.has_converter()) ==> if exists|q: Seq<PathElementView>|
                contains_path(managers_map(old(managers)@)[manager@].set, q) && !applied_fields(
                    ignored_for(self.ignored_fields_view(), version@),
                    config_obj@,
                    q,
                ) {
                exists|s: SetView|
                    prunes_exactly(
                        s,
                        managers_map(old(managers)@)[manager@].set,
                        ignored_for(self.ignored_fields_view(), version@),
                        config_obj@,
                        old(managers)@,
                        manager@,
                    ) && tv@.value == removed_value(
                        live_obj@.schema,
                        live_obj@.type_ref,
                        merged_object(live_obj@, config_obj@),
                        s,
                        Seq::empty(),
                    )
            } else {
                tv@.value == merged_object(live_obj@, config_obj@)
            }),
    {
        let ghost m0 = managers_map(managers@);
        let ghost s0 = managers@;
        let new_object = match live_obj.merge(config_obj) {
            Ok(v) => v,
            Err(e) => {
                return Err(ApplyError::ValidationError(e));
            },
        };
        let config_set = match config_obj.to_field_set() {
            Ok(s) => s,
            Err(e) => {
                return Err(ApplyError::ValidationError(e));
            },
        };
        let filtered_set = self.filtered_config_set(config_set, version);
        let last_set: Option<VersionedSet> = match managers.get(manager) {
            Some(vs) => Some(vs.clone()),
            None => None,
        };
        let prev_version_obsolete = match &last_set {
            Some(ls) => {
                if ls.api_version == *version {
                    false
                } else {
                    match &self.converter {
                        Some(conv) => match conv.convert(live_obj, &ls.api_version) {
                            Ok(_) => false,
                            Err(e) => conv.is_missing_version_error(&e),
                        },
                        None => false,
                    }
                }
            },
            None => false,
        };
        let ghost merged = new_object@.value;
        let ghost mut pruned: Option<SetView> = None;
        let pruned_object = if !prev_version_obsolete {
            match &last_set {
                Some(ls) => {
                    if !ls.set.is_empty() {
                        let removed_from_config = ls.set.difference(&filtered_set);
                        if !removed_from_config.is_empty() {
                            let to_remove = Self::paths_to_prune(managers, manager, &removed_from_config);
                            proof {
                                pruned = Some(to_remove@);
                            }
                            new_object.remove_items(&to_remove)
                        } else {
                            new_object
                        }
                    } else {
                        new_object
                    }
                },
                None => new_object,
            }
        } else {
            new_object
        };
        let ghost fs = filtered_set@;
        proof {
            assert(merged == merged_object(live_obj@, config_obj@));
            assert(prev_version_obsolete ==> m0[manager@].api_version != version@ && self.has_converter());
            assert(pruned is None ==> pruned_object@.value == merged);
            assert(pruned is None && m0.contains_key(manager@) && !prev_version_obsolete ==> forall|q: Seq<PathElementView>|
                contains_path(m0[manager@].set, q) ==> contains_path(fs, q));
            assert(pruned matches Some(ps) ==> m0.contains_key(manager@) && pruned_object@.value == removed_value(
                live_obj@.schema,
                live_obj@.type_ref,
                merged,
                ps,
                Seq::empty(),
            ) && forall|q: Seq<PathElementView>| #[trigger] contains_path(ps, q) == (contains_path(m0[manager@].set, q)
                && !contains_path(fs, q) && !owned_by_other(s0, manager@, q)));
        }
        let ghost ig = ignored_for(self.ignored_fields_view(), version@);
        let ghost exact = !self.has_converter() && live_obj@.type_ref == config_obj@.type_ref && (ig is Some
            || !self.has_filter(version@));
        proof {
            if exact {
                assert forall|q: Seq<PathElementView>| #[trigger] contains_path(fs, q) == applied_fields(ig, config_obj@, q) by {}
                match pruned {
                    Some(ps) => {
                        assert(prunes_exactly(ps, m0[manager@].set, ig, config_obj@, s0, manager@));
                        assert(applied_value(pruned_object@.value, live_obj@, config_obj@, ig, s0, manager@));
                    },
                    None => {
                        assert(applied_value(pruned_object@.value, live_obj@, config_obj@, ig, s0, manager@));
                    },
                }
            }
        }
        managers.insert(manager, VersionedSet::new(filtered_set, version.clone(), true));
        let ghost m1 = managers_map(managers@);
        let ghost s1 = managers@;
        let result = self.update_internal(live_obj, &pruned_object, version, managers, manager, force);
        proof {
            if exact {
                lemma_conflict_at_insert(s0, s1, manager@, m1[manager@], ig, live_obj@, pruned_object@);
                let w = with_value(live_obj@, pruned_object@.value);
                assert forall|m: Seq<char>, q: Seq<PathElementView>|
                    #[trigger] conflict_at(s0, manager@, ig, live_obj@, w, m, q) == conflict_at(
                        s0,
                        manager@,
                        ig,
                        live_obj@,
                        pruned_object@,
                        m,
                        q,
                    ) by {}
                assert(no_conflict(s0, manager@, ig, live_obj@, w) == !exists|m: Seq<char>, q: Seq<PathElementView>|
                    conflict_at(s1, manager@, ig, live_obj@, pruned_object@, m, q)) by {
                    if !no_conflict(s0, manager@, ig, live_obj@, w) {
                        let (m, q) = choose|m: Seq<char>, q: Seq<PathElementView>| #[trigger] conflict_at(s0, manager@, ig, live_obj@, w, m, q);
                        assert(conflict_at(s1, manager@, ig, live_obj@, pruned_object@, m, q));
                    }
                    if exists|m: Seq<char>, q: Seq<PathElementView>| conflict_at(s1, manager@, ig, live_obj@, pruned_object@, m, q) {
                        let (m, q) = choose|m: Seq<char>, q: Seq<PathElementView>| conflict_at(s1, manager@, ig, live_obj@, pruned_object@, m, q);
                        assert(conflict_at(s0, manager@, ig, live_obj@, w, m, q));
                    }
                }
                match &result {
                    Err(ApplyError::Conflicts(c)) => {
                        assert(conflicts_exact(*c, s0, manager@, ig, live_obj@, w)) by {
                            assert forall|cv: ConflictView| #[trigger] c@.contains(cv) <==> conflict_at(
                                s0,
                                manager@,
                                ig,
                                live_obj@,
                                w,
                                cv.manager,
                                cv.path,
                            ) by {
                                assert(conflict_at(s1, manager@, ig, live_obj@, pruned_object@, cv.manager, cv.path) == conflict_at(
                                    s0,
                                    manager@,
                                    ig,
                                    live_obj@,
                                    w,
                                    cv.manager,
                                    cv.path,
                                ));
                            }
                        }
                    },
                    _ => {},
                }
                assert(applied_value(pruned_object@.value, live_obj@, config_obj@, ig, s0, manager@));
                if result is Ok {
                    lemma_others_updated_switch(m0, m1, managers_map(managers@), manager@, ig, live_obj@, pruned_object@, w);
                }
            }
        }
        match result {
            Err(e) => {
                match last_set {
                    Some(ls) => {
                        managers.insert(manager, ls);
                        proof {
                            assert(managers_map(managers@) =~= m0);
                        }
                    },
                    None => {
                        let _ = managers.remove(manager);
                        proof {
                            assert(managers_map(managers@) =~= m0);
                        }
                    },
                }
                Err(e)
            },
            Ok(_) => {
                proof {
                    assert(m1.contains_key(manager@));
                    assert(m1[manager@].set == fs);
                    if ignored_for(self.ignored_fields_view(), version@) is Some || !self.has_filter(version@) {
                        assert forall|q: Seq<PathElementView>| #[trigger] contains_path(fs, q) == applied_fields(
                            ignored_for(self.ignored_fields_view(), version@),
                            config_obj@,
                            q,
                        ) by {}
                        if exists|q: Seq<PathElementView>| applied_fields(ignored_for(self.ignored_fields_view(), version@), config_obj@, q) {
                            let q = choose|q: Seq<PathElementView>| applied_fields(ignored_for(self.ignored_fields_view(), version@), config_obj@, q);
                            assert(contains_path(fs, q));
                        }
                    }
                    assert forall|k: Seq<char>| k != manager@ && #[trigger] managers_map(managers@).contains_key(k) implies m0.contains_key(k)
                        && same_owner(managers_map(managers@)[k], m0[k]) by {
                        assert(m1.contains_key(k));
                    }
                    match pruned {
                        Some(ps) => {
                            assert(prunes_within(ps, m0[manager@].set, s0, manager@));
                            if ignored_for(self.ignored_fields_view(), version@) is Some || !self.has_filter(version@) {
                                let ig = ignored_for(self.ignored_fields_view(), version@);
                                assert(prunes_exactly(ps, m0[manager@].set, ig, config_obj@, s0, manager@));
                                let q = choose|q: Seq<PathElementView>| contains_path(m0[manager@].set, q) && !contains_path(fs, q);
                                assert(contains_path(m0[manager@].set, q) && !applied_fields(ig, config_obj@, q));
                            }
                        },
                        None => {},
                    }
                }
                Ok(pruned_object)
            },
        }
    }
}

impl Updater {
    /// Reconciles each manager's field set with the live object's schema (at
    /// the manager's version, through the converter when there is one): where
    /// a map or list type became atomic, the fields below it collapse into
    /// it. A manager whose version no longer converts is left as it is. On an
    /// error the record is left as it was.
    fn reconcile_managed_fields_with_schema_changes(&self, live_object: &TypedValue, managers: &mut ManagedFields) -> (r:
        Result<(), ApplyError>)
        ensures
            r is Err ==> managers_map(final(managers)@) == managers_map(old(managers)@),
            r is Ok ==> forall|k: Seq<char>|
                #[trigger] managers_map(final(managers)@).contains_key(k) == managers_map(old(managers)@).contains_key(k),
            r is Ok ==> forall|k: Seq<char>|
                #[trigger] managers_map(final(managers)@).contains_key(k) ==> same_owner(
                    managers_map(final(managers)@)[k],
                    managers_map(old(managers)@)[k],
                ),
            r is Ok && !self.has_converter() ==> forall|k: Seq<char>, q: Seq<PathElementView>|
                #![trigger managers_map(final(managers)@)[k], contains_path(managers_map(old(managers)@)[k].set, q)]
                #![trigger contains_path(managers_map(final(managers)@)[k].set, q)]
                managers_map(old(managers)@).contains_key(k) ==> contains_path(managers_map(final(managers)@)[k].set, q)
                    == reconciled_has(live_object@.schema, live_object@.type_ref, managers_map(old(managers)@)[k].set, q),
            !self.has_converter() ==> (r is Err <==> exists|k: Seq<char>|
                managers_map(old(managers)@).contains_key(k) && #[trigger] reconcile_points(
                    live_object@.schema,
                    live_object@.type_ref,
                    managers_map(old(managers)@)[k].set,
                ) is Err),
            r is Err && !self.has_converter() ==> r->Err_0 is ValidationError,
            r is Err ==> r->Err_0 is ValidationError || r->Err_0 is ConversionError,
    {
        let ghost s0 = managers@;
        let ghost m0 = managers_map(managers@);
        let entries = managers.iter();
        let n = entries.len();
        let mut names: Vec<String> = Vec::new();
        let mut news: Vec<Option<VersionedSet>> = Vec::new();
        let mut i: usize = 0;
        while i < n
            invariant
                i <= n,
                n == entries@.len(),
                crate::fieldpath::ref_entries_view(entries@) == s0,
                crate::fieldpath::names_distinct(s0),
                m0 == managers_map(s0),
                m0 == managers_map(old(managers)@),
                names@.len() == i,
                news@.len() == i,
                forall|j: int| 0 <= j < i ==> #[trigger] names@[j]@ == s0[j].0,
                forall|j: int|
                    0 <= j < i ==> (#[trigger] news@[j] matches Some(vs) ==> vs@.api_version == s0[j].1.api_version
                        && vs@.applied == s0[j].1.applied),
                !self.has_converter() ==> forall|j: int|
                    0 <= j < i ==> #[trigger] reconcile_points(live_object@.schema, live_object@.type_ref, s0[j].1.set) is Ok,
                !self.has_converter() ==> forall|j: int, q: Seq<PathElementView>|
                    #![trigger news@[j], contains_path(s0[j].1.set, q)]
                    0 <= j < i ==> match news@[j] {
                        Some(vs) => contains_path(vs@.set, q) == reconciled_has(
                            live_object@.schema,
                            live_object@.type_ref,
                            s0[j].1.set,
                            q,
                        ),
                        None => reconciled_has(live_object@.schema, live_object@.type_ref, s0[j].1.set, q) == contains_path(
                            s0[j].1.set,
                            q,
                        ),
                    },
            decreases n - i,
        {
            let name = entries[i].0;
            let vs = entries[i].1;
            proof {
                assert(s0[i as int] == (entries@[i as int].0@, entries@[i as int].1@));
            }
            let converted: Option<TypedValue> = match &self.converter {
                Some(conv) => match conv.convert(live_object, &vs.api_version) {
                    Ok(v) => Some(v),
                    Err(e) => {
                        if conv.is_missing_version_error(&e) {
                            None
                        } else {
                            return Err(ApplyError::ConversionError(e));
                        }
                    },
                },
                None => Some(live_object.clone()),
            };
            let next: Option<VersionedSet> = match converted {
                None => None,
                Some(tv) => match crate::typed::reconcile_schema::reconcile_field_set_with_schema(&vs.set, &tv) {
                    Ok(Some(reconciled)) => Some(VersionedSet::new(reconciled, vs.api_version.clone(), vs.applied)),
                    Ok(None) => None,
                    Err(e) => {
                        proof {
                            if !self.has_converter() {
                                crate::fieldpath::lemma_managers_map_at(s0, i as int);
                                assert(m0.contains_key(s0[i as int].0));
                                assert(tv@ == live_object@);
                                assert(reconcile_points(live_object@.schema, live_object@.type_ref, vs.set@) is Err);
                                assert(reconcile_points(
                                    live_object@.schema,
                                    live_object@.type_ref,
                                    m0[s0[i as int].0].set,
                                ) is Err);
                            }
                        }
                        return Err(
                            ApplyError::ValidationError(
                                ValidationErrors::from_error(
                                    crate::typed::validation::ValidationError::schema_error(e.as_str()),
                                ),
                            ),
                        );
                    },
                },
            };
            names.push(name.clone());
            news.push(next);
            i = i + 1;
        }
        let mut k: usize = 0;
        while k < n
            invariant
                k <= n,
                n == s0.len(),
                names@.len() == n,
                news@.len() == n,
                crate::fieldpath::names_distinct(s0),
                m0 == managers_map(s0),
                forall|j: int| 0 <= j < n ==> #[trigger] names@[j]@ == s0[j].0,
                forall|x: Seq<char>| #[trigger] managers_map(managers@).contains_key(x) == m0.contains_key(x),
                forall|j: int|
                    0 <= j < n ==> #[trigger] managers_map(managers@)[s0[j].0] == (if j < k && news@[j] is Some {
                        news@[j]->Some_0@
                    } else {
                        s0[j].1
                    }),
            decreases n - k,
        {
            let ghost before = managers_map(managers@);
            match &news[k] {
                Some(vs) => {
                    managers.insert(names[k].as_str(), vs.clone());
                    proof {
                        assert forall|j: int| 0 <= j < n implies #[trigger] managers_map(managers@)[s0[j].0] == (if j < k + 1
                            && news@[j] is Some {
                            news@[j]->Some_0@
                        } else {
                            s0[j].1
                        }) by {
                            if j != k {
                                assert(s0[j].0 != s0[k as int].0);
                            }
                        }
                        assert forall|x: Seq<char>| #[trigger] managers_map(managers@).contains_key(x) == m0.contains_key(x) by {
                            if x == s0[k as int].0 {
                                crate::fieldpath::lemma_managers_map_at(s0, k as int);
                            }
                        }
                    }
                },
                None => {},
            }
            k = k + 1;
        }
        proof {
            assert forall|x: Seq<char>| #[trigger] managers_map(managers@).contains_key(x) implies same_owner(
                managers_map(managers@)[x],
                m0[x],
            ) by {
                let j = crate::fieldpath::name_index(s0, x);
                crate::fieldpath::lemma_managers_map_at(s0, j);
            }
            if !self.has_converter() {
                assert forall|x: Seq<char>, q: Seq<PathElementView>|
                    #![trigger managers_map(managers@)[x], contains_path(m0[x].set, q)]
                    #![trigger contains_path(managers_map(managers@)[x].set, q)]
                    m0.contains_key(x) implies contains_path(managers_map(managers@)[x].set, q) == reconciled_has(
                        live_object@.schema,
                        live_object@.type_ref,
                        m0[x].set,
                        q,
                    ) by {
                    let j = crate::fieldpath::name_index(s0, x);
                    crate::fieldpath::lemma_managers_map_at(s0, j);
                    assert(news@[j] is Some || news@[j] is None);
                    assert(contains_path(s0[j].1.set, q) == contains_path(m0[x].set, q));
                }
                assert forall|x: Seq<char>| m0.contains_key(x) implies !(#[trigger] reconcile_points(
                    live_object@.schema,
                    live_object@.type_ref,
                    m0[x].set,
                ) is Err) by {
                    let j = crate::fieldpath::name_index(s0, x);
                    crate::fieldpath::lemma_managers_map_at(s0, j);
                }
            }
        }
        Ok(())
    }
}

/// `mr` is the record `m` once each manager's field set is reconciled with
/// the schema of `live`: the same managers with the same versions, and,
/// where no converter takes part, each set collapsed as
/// [`reconciled_has`] says.
pub open spec fn reconciled_record(
    live: TypedValueView,
    m: Map<Seq<char>, VersionedSetView>,
    mr: Seq<(Seq<char>, VersionedSetView)>,
    converted: bool,
) -> bool {
    &&& forall|k: Seq<char>| #[trigger] managers_map(mr).contains_key(k) == m.contains_key(k)
    &&& forall|k: Seq<char>| #[trigger] managers_map(mr).contains_key(k) ==> same_owner(managers_map(mr)[k], m[k])
    &&& !converted ==> forall|k: Seq<char>, q: Seq<PathElementView>|
        #![trigger managers_map(mr)[k], contains_path(m[k].set, q)]
        #![trigger contains_path(managers_map(mr)[k].set, q)]
        m.contains_key(k) ==> contains_path(managers_map(mr)[k].set, q) == reconciled_has(
            live.schema,
            live.type_ref,
            m[k].set,
            q,
        )
}

impl Updater {
    /// What an apply on the reconciled record `mr` ends in: the record `fin`
    /// and the result `r` (see `apply`).
    pub open spec fn apply_outcome(
        &self,
        live: TypedValueView,
        config: TypedValueView,
        version: Seq<char>,
        mr: Seq<(Seq<char>, VersionedSetView)>,
        fin: Seq<(Seq<char>, VersionedSetView)>,
        manager: Seq<char>,
        force: bool,
        r: Result<TypedValue, ApplyError>,
    ) -> bool {
        let ig = ignored_for(self.ignored_fields_view(), version);
        let exact = ig is Some || !self.has_filter(version);
        let plain = !self.has_converter() && live.type_ref == config.type_ref;
        let m0 = managers_map(mr);
        let m1 = managers_map(fin);
        &&& r is Err ==> m1 == m0
        &&& plain && force ==> r is Ok
        &&& plain ==> (r is Err ==> r->Err_0 is Conflicts)
        &&& plain && exact ==> exists|nv: ValueView|
            #[trigger] applied_value(nv, live, config, ig, mr, manager) && (r is Ok <==> (force || no_conflict(
                mr,
                manager,
                ig,
                live,
                with_value(live, nv),
            ))) && (r matches Err(ApplyError::Conflicts(c)) ==> conflicts_exact(
                c,
                mr,
                manager,
                ig,
                live,
                with_value(live, nv),
            )) && (r is Ok ==> others_updated(m0, m1, manager, ig, live, with_value(live, nv)))
        &&& r is Ok && m1.contains_key(manager) ==> m1[manager].api_version == version && m1[manager].applied
        &&& r is Ok && exact ==> (m1.contains_key(manager) == (exists|q: Seq<PathElementView>|
            applied_fields(ig, config, q)))
        &&& r is Ok && exact && m1.contains_key(manager) ==> forall|q: Seq<PathElementView>|
            #[trigger] contains_path(m1[manager].set, q) == applied_fields(ig, config, q)
        &&& r is Ok ==> forall|k: Seq<char>|
            k != manager && #[trigger] m1.contains_key(k) ==> m0.contains_key(k) && same_owner(m1[k], m0[k])
        &&& r matches Ok(tv) ==> (!m0.contains_key(manager) ==> tv@.value == merged_object(live, config))
        &&& r matches Ok(tv) ==> tv@.value == merged_object(live, config) || (m0.contains_key(manager) && exists|
            s: SetView,
        |
            prunes_within(s, m0[manager].set, mr, manager) && tv@.value == removed_value(
                live.schema,
                live.type_ref,
                merged_object(live, config),
                s,
                Seq::empty(),
            ))
        &&& r matches Ok(tv) ==> (exact && m0.contains_key(manager) && (m0[manager].api_version == version
            || !self.has_converter()) ==> if exists|q: Seq<PathElementView>|
            contains_path(m0[manager].set, q) && !applied_fields(ig, config, q) {
            exists|s: SetView|
                prunes_exactly(s, m0[manager].set, ig, config, mr, manager) && tv@.value == removed_value(
                    live.schema,
                    live.type_ref,
                    merged_object(live, config),
                    s,
                    Seq::empty(),
                )
        } else {
            tv@.value == merged_object(live, config)
        })
    }

    /// Applies a configuration. First each manager's field set is
    /// reconciled with the live object's schema (see
    /// `reconcile_managed_fields_with_schema_changes`); an error there is
    /// returned with the record left as it was. Then, on the reconciled
    /// record, the configuration is merged into the live object, `manager`
    /// comes to own exactly the configuration's fields (less the ignored
    /// ones), the fields that `manager` owned before, no longer applies, and
    /// no other manager owns are taken out of the object, and the changed
    /// fields are taken away from the other managers (see
    /// `update_internal`). A refused apply leaves the reconciled record.
    /// Without a converter, on objects of one type whose record reconciles,
    /// the apply fails only on conflicts: each pair of another manager and
    /// a path it owns that the apply changes (see [`conflict_at`]), listed
    /// once; with `force` it succeeds.
    pub fn apply(
        &self,
        live_obj: &TypedValue,
        config_obj: &TypedValue,
        version: &APIVersion,
        managers: &mut ManagedFields,
        manager: &str,
        force: bool,
    ) -> (r: Result<TypedValue, ApplyError>)
        ensures
            live_obj@.type_ref != config_obj@.type_ref ==> r is Err,
            r is Err && r->Err_0 is Conflicts ==> !force,
            r matches Ok(tv) ==> tv@.type_ref == live_obj@.type_ref && tv@.schema == live_obj@.schema,
            !self.has_converter() && (exists|k: Seq<char>|
                managers_map(old(managers)@).contains_key(k) && #[trigger] reconcile_points(
                    live_obj@.schema,
                    live_obj@.type_ref,
                    managers_map(old(managers)@)[k].set,
                ) is Err) ==> r is Err && r->Err_0 is ValidationError && managers_map(final(managers)@) == managers_map(
                old(managers)@,
            ),
            (r is Err && managers_map(final(managers)@) == managers_map(old(managers)@) && (r->Err_0 is ValidationError
                || r->Err_0 is ConversionError) && (!self.has_converter() ==> exists|k: Seq<char>|
                managers_map(old(managers)@).contains_key(k) && #[trigger] reconcile_points(
                    live_obj@.schema,
                    live_obj@.type_ref,
                    managers_map(old(managers)@)[k].set,
                ) is Err)) || exists|mr: Seq<(Seq<char>, VersionedSetView)>|
                #[trigger] reconciled_record(live_obj@, managers_map(old(managers)@), mr, self.has_converter())
                    && self.apply_outcome(
                    live_obj@,
                    config_obj@,
                    version@,
                    mr,
                    final(managers)@,
                    manager@,
                    force,
                    r,
                ),
            !self.has_converter() && live_obj@.type_ref == config_obj@.type_ref && !(exists|k: Seq<char>|
                managers_map(old(managers)@).contains_key(k) && #[trigger] reconcile_points(
                    live_obj@.schema,
                    live_obj@.type_ref,
                    managers_map(old(managers)@)[k].set,
                ) is Err) ==> (force ==> r is Ok) && (r is Err ==> r->Err_0 is Conflicts),
    {
        match self.reconcile_managed_fields_with_schema_changes(live_obj, managers) {
            Ok(()) => {},
            Err(e) => {
                return Err(e);
            },
        }
        let ghost mr = managers@;
        let r = self.apply_to_reconciled(live_obj, config_obj, version, managers, manager, force);
        proof {
            assert(reconciled_record(live_obj@, managers_map(old(managers)@), mr, self.has_converter()));
            assert(self.apply_outcome(live_obj@, config_obj@, version@, mr, managers@, manager@, force, r));
        }
        r
    }
}

/// Whether an update leaves `manager` owning `q` before the ignored fields
/// are taken out: it owned `q` (`owned`) and the update did not remove it,
/// or the update modified or added it.
pub open spec fn updated_fields(owned: bool, live: TypedValueView, new: TypedValueView, q: Seq<PathElementView>) -> bool {
    (owned && !differs_at(live.schema, live.type_ref, live.value, new.value, 0, q)) || differs_at(
        live.schema,
        live.type_ref,
        live.value,
        new.value,
        1,
        q,
    ) || differs_at(live.schema, live.type_ref, live.value, new.value, 2, q)
}

/// A path that is kept unless the ignored fields cover it.
pub open spec fn not_ignored(ignored: Option<SetView>, q: Seq<PathElementView>) -> bool {
    match ignored {
        Some(ig) => !covers(ig, q),
        None => true,
    }
}

/// The path `q` is in `last`, where there is one.
pub open spec fn owned_in(last: Option<SetView>, q: Seq<PathElementView>) -> bool {
    match last {
        Some(s) => contains_path(s, q),
        None => false,
    }
}

/// The entry of `manager` in a record, if it has one.
pub open spec fn entry_set(m: Map<Seq<char>, VersionedSetView>, manager: Seq<char>) -> Option<SetView> {
    if m.contains_key(manager) {
        Some(m[manager].set)
    } else {
        None
    }
}

/// `manager` owns `q` once its field set is reconciled with the schema of
/// `live` (see [`reconciled_has`]).
pub open spec fn reconciled_owned(
    live: TypedValueView,
    m: Map<Seq<char>, VersionedSetView>,
    manager: Seq<char>,
    q: Seq<PathElementView>,
) -> bool {
    m.contains_key(manager) && reconciled_has(live.schema, live.type_ref, m[manager].set, q)
}

impl Updater {
    /// Updates the live object to `new_obj` on behalf of `manager`: the
    /// other managers lose the fields that changed (no conflict is raised),
    /// and `manager` comes to own what it owned, less the removed fields,
    /// plus the modified and added ones (less the ignored fields); with no
    /// field left it leaves the record. Returns the new object.
    pub fn update(
        &self,
        live_obj: &TypedValue,
        new_obj: &TypedValue,
        version: &APIVersion,
        managers: &mut ManagedFields,
        manager: &str,
    ) -> (r: Result<TypedValue, UpdateError>)
        ensures
            live_obj@.type_ref != new_obj@.type_ref ==> r is Err,
            live_obj@.type_ref != new_obj@.type_ref && !self.has_converter() ==> r->Err_0 is ValidationError,
            !self.has_converter() && live_obj@.type_ref == new_obj@.type_ref && !(exists|k: Seq<char>|
                managers_map(old(managers)@).contains_key(k) && #[trigger] reconcile_points(
                    live_obj@.schema,
                    live_obj@.type_ref,
                    managers_map(old(managers)@)[k].set,
                ) is Err) ==> r is Ok,
            !self.has_converter() && r is Err ==> r->Err_0 is ValidationError,
            r is Err ==> !(r->Err_0 is Conflicts),
            r is Err ==> forall|k: Seq<char>|
                #[trigger] managers_map(final(managers)@).contains_key(k) == managers_map(old(managers)@).contains_key(k),
            r is Err ==> forall|k: Seq<char>|
                #[trigger] managers_map(final(managers)@).contains_key(k) ==> same_owner(
                    managers_map(final(managers)@)[k],
                    managers_map(old(managers)@)[k],
                ),
            r matches Ok(tv) ==> tv@ == new_obj@,
            r is Ok ==> forall|k: Seq<char>|
                k != manager@ && #[trigger] managers_map(final(managers)@).contains_key(k) ==> managers_map(old(managers)@).contains_key(k)
                    && same_owner(managers_map(final(managers)@)[k], managers_map(old(managers)@)[k]),
            r is Ok && managers_map(final(managers)@).contains_key(manager@) ==> managers_map(final(managers)@)[manager@].api_version
                == version@ && !managers_map(final(managers)@)[manager@].applied,
            r is Ok && !self.has_converter() && (ignored_for(self.ignored_fields_view(), version@) is Some || !self.has_filter(
                version@,
            )) ==> (managers_map(final(managers)@).contains_key(manager@) == (exists|q: Seq<PathElementView>|
                updated_fields(reconciled_owned(live_obj@, managers_map(old(managers)@), manager@, q), live_obj@, new_obj@, q)
                    && not_ignored(ignored_for(self.ignored_fields_view(), version@), q))),
            r is Ok && !self.has_converter() && (ignored_for(self.ignored_fields_view(), version@) is Some || !self.has_filter(
                version@,
            )) && managers_map(final(managers)@).contains_key(manager@) ==> forall|q: Seq<PathElementView>|
                #[trigger] contains_path(managers_map(final(managers)@)[manager@].set, q) == (updated_fields(
                    reconciled_owned(live_obj@, managers_map(old(managers)@), manager@, q),
                    live_obj@,
                    new_obj@,
                    q,
                ) && not_ignored(ignored_for(self.ignored_fields_view(), version@), q)),
            r is Ok && (ignored_for(self.ignored_fields_view(), version@) is Some || !self.has_filter(version@)) ==> forall|
                q: Seq<PathElementView>,
            | (differs_at(live_obj@.schema, live_obj@.type_ref, live_obj@.value, new_obj@.value, 1, q) || differs_at(
                live_obj@.schema,
                live_obj@.type_ref,
                live_obj@.value,
                new_obj@.value,
                2,
                q,
            )) && not_ignored(ignored_for(self.ignored_fields_view(), version@), q) ==> managers_map(
                final(managers)@,
            ).contains_key(manager@) && #[trigger] contains_path(managers_map(final(managers)@)[manager@].set, q),
            r is Ok && !self.has_converter() && (ignored_for(self.ignored_fields_view(), version@) is Some || !self.has_filter(
                version@,
            )) ==> exists|mr: Seq<(Seq<char>, VersionedSetView)>|
                #[trigger] reconciled_record(live_obj@, managers_map(old(managers)@), mr, false) && others_updated(
                    managers_map(mr),
                    managers_map(final(managers)@),
                    manager@,
                    ignored_for(self.ignored_fields_view(), version@),
                    live_obj@,
                    new_obj@,
                ),
    {
        let ghost m_old = managers_map(managers@);
        match self.reconcile_managed_fields_with_schema_changes(live_obj, managers) {
            Ok(()) => {},
            Err(e) => {
                return Err(update_error(e));
            },
        }
        let ghost m0 = managers_map(managers@);
        let ghost mr = managers@;
        proof {
            if !self.has_converter() {
                assert(reconciled_record(live_obj@, m_old, mr, false));
            }
        }
        let compare = match self.update_internal(live_obj, new_obj, version, managers, manager, true) {
            Ok(c) => c,
            Err(e) => {
                return Err(update_error(e));
            },
        };
        let ghost m1 = managers_map(managers@);
        let current_set = match managers.get(manager) {
            Some(vs) => vs.set.clone(),
            None => FieldPathSet::new(),
        };
        proof {
            assert forall|q: Seq<PathElementView>| #[trigger] contains_path(current_set@, q) == owned_in(entry_set(m0, manager@), q) by {
                if m0.contains_key(manager@) && !m1.contains_key(manager@) {
                    assert(no_paths(m0[manager@].set));
                }
            }
        }
        let new_set = current_set.difference(&compare.removed).union(&compare.modified).union(&compare.added);
        proof {
            assert forall|q: Seq<PathElementView>| #[trigger] contains_path(new_set@, q) == updated_fields(
                owned_in(entry_set(m0, manager@), q),
                live_obj@,
                new_obj@,
                q,
            ) by {
                assert(contains_path(part(compare@, 0), q) == differs_at(
                    live_obj@.schema,
                    live_obj@.type_ref,
                    live_obj@.value,
                    new_obj@.value,
                    0,
                    q,
                ));
                assert(contains_path(part(compare@, 1), q) == differs_at(
                    live_obj@.schema,
                    live_obj@.type_ref,
                    live_obj@.value,
                    new_obj@.value,
                    1,
                    q,
                ));
                assert(contains_path(part(compare@, 2), q) == differs_at(
                    live_obj@.schema,
                    live_obj@.type_ref,
                    live_obj@.value,
                    new_obj@.value,
                    2,
                    q,
                ));
            }
        }
        let filtered = self.filtered_config_set(new_set, version);
        let ghost fs = filtered@;
        if filtered.is_empty() {
            let _ = managers.remove(manager);
        } else {
            managers.insert(manager, VersionedSet::new(filtered, version.clone(), false));
        }
        proof {
            if ignored_for(self.ignored_fields_view(), version@) is Some || !self.has_filter(version@) {
                if exists|q: Seq<PathElementView>|
                    updated_fields(owned_in(entry_set(m0, manager@), q), live_obj@, new_obj@, q) && not_ignored(
                        ignored_for(self.ignored_fields_view(), version@),
                        q,
                    ) {
                    let q = choose|q: Seq<PathElementView>|
                        updated_fields(owned_in(entry_set(m0, manager@), q), live_obj@, new_obj@, q) && not_ignored(
                            ignored_for(self.ignored_fields_view(), version@),
                            q,
                        );
                    assert(contains_path(fs, q));
                }
                if !no_paths(fs) {
                    let q = choose|q: Seq<PathElementView>| contains_path(fs, q);
                    assert(contains_path(new_set@, q));
                    assert(updated_fields(owned_in(entry_set(m0, manager@), q), live_obj@, new_obj@, q) && not_ignored(
                        ignored_for(self.ignored_fields_view(), version@),
                        q,
                    ));
                }
            }
            assert forall|k: Seq<char>| k != manager@ && #[trigger] managers_map(managers@).contains_key(k) implies m_old.contains_key(k)
                && same_owner(managers_map(managers@)[k], m_old[k]) by {
                assert(m1.contains_key(k));
                assert(m0.contains_key(k));
            }
            if !self.has_converter() {
                assert forall|q: Seq<PathElementView>| owned_in(entry_set(m0, manager@), q) == reconciled_owned(
                    live_obj@,
                    m_old,
                    manager@,
                    q,
                ) by {
                    if m0.contains_key(manager@) {
                        assert(contains_path(m0[manager@].set, q) == reconciled_has(
                            live_obj@.schema,
                            live_obj@.type_ref,
                            m_old[manager@].set,
                            q,
                        ));
                    }
                }
            }
            if ignored_for(self.ignored_fields_view(), version@) is Some || !self.has_filter(version@) {
                assert forall|q: Seq<PathElementView>|
                    (differs_at(live_obj@.schema, live_obj@.type_ref, live_obj@.value, new_obj@.value, 1, q) || differs_at(
                        live_obj@.schema,
                        live_obj@.type_ref,
                        live_obj@.value,
                        new_obj@.value,
                        2,
                        q,
                    )) && not_ignored(ignored_for(self.ignored_fields_view(), version@), q) implies managers_map(
                    managers@,
                ).contains_key(manager@) && contains_path(managers_map(managers@)[manager@].set, q) by {
                    assert(contains_path(new_set@, q));
                    assert(contains_path(fs, q));
                }
                if !self.has_converter() {
                    lemma_others_updated_fin(
                        m0,
                        m1,
                        managers_map(managers@),
                        manager@,
                        ignored_for(self.ignored_fields_view(), version@),
                        live_obj@,
                        new_obj@,
                    );
                    assert(reconciled_record(live_obj@, m_old, mr, false));
                }
            }
        }
        Ok(new_obj.clone())
    }

    /// Applies a configuration additively: merges it into the live object
    /// and makes `manager` own what it owned together with the
    /// configuration's fields (less the ignored ones), pruning nothing;
    /// then takes the changed fields away from the other managers (see
    /// `update_internal`). Returns the merged object. An error of that last
    /// step leaves `manager`'s new entry in the record.
    pub fn extract_apply(
        &self,
        live_obj: &TypedValue,
        config_obj: &TypedValue,
        version: &APIVersion,
        managers: &mut ManagedFields,
        manager: &str,
        force: bool,
    ) -> (r: Result<TypedValue, ApplyError>)
        ensures
            live_obj@.type_ref != config_obj@.type_ref ==> r is Err && r->Err_0 is ValidationError
                && managers_map(final(managers)@) == managers_map(old(managers)@),
            r is Err && r->Err_0 is Conflicts ==> !force,
            r matches Ok(tv) ==> tv@ == (TypedValueView { value: merged_object(live_obj@, config_obj@), ..live_obj@ }),
            !self.has_converter() && live_obj@.type_ref == config_obj@.type_ref && force ==> r is Ok,
            !self.has_converter() && live_obj@.type_ref == config_obj@.type_ref && (ignored_for(
                self.ignored_fields_view(),
                version@,
            ) is Some || !self.has_filter(version@)) ==> (r is Ok <==> (force || !exists|m: Seq<char>, q: Seq<PathElementView>|
                #[trigger] conflict_at(
                    old(managers)@,
                    manager@,
                    ignored_for(self.ignored_fields_view(), version@),
                    live_obj@,
                    merged_view(live_obj@, config_obj@),
                    m,
                    q,
                ))),
            !self.has_converter() && (ignored_for(self.ignored_fields_view(), version@) is Some || !self.has_filter(
                version@,
            )) ==> (r matches Err(ApplyError::Conflicts(c)) ==> forall|cv: ConflictView|
                #[trigger] c@.contains(cv) <==> conflict_at(
                    old(managers)@,
                    manager@,
                    ignored_for(self.ignored_fields_view(), version@),
                    live_obj@,
                    merged_view(live_obj@, config_obj@),
                    cv.manager,
                    cv.path,
                )),
            r matches Err(ApplyError::Conflicts(c)) ==> c@.no_duplicates(),
            r is Ok && !self.has_converter() && (ignored_for(self.ignored_fields_view(), version@) is Some || !self.has_filter(
                version@,
            )) ==> others_updated(
                managers_map(old(managers)@),
                managers_map(final(managers)@),
                manager@,
                ignored_for(self.ignored_fields_view(), version@),
                live_obj@,
                merged_view(live_obj@, config_obj@),
            ),
            forall|k: Seq<char>|
                k != manager@ ==> (#[trigger] managers_map(final(managers)@).contains_key(k) ==> managers_map(
                    old(managers)@,
                ).contains_key(k) && same_owner(managers_map(final(managers)@)[k], managers_map(old(managers)@)[k])),
            r is Err ==> forall|k: Seq<char>|
                k != manager@ ==> #[trigger] managers_map(final(managers)@).contains_key(k) == managers_map(
                    old(managers)@,
                ).contains_key(k),
            r is Err ==> forall|k: Seq<char>|
                k != manager@ && #[trigger] managers_map(final(managers)@).contains_key(k) ==> managers_map(final(managers)@)[k]
                    == managers_map(old(managers)@)[k],
            managers_map(final(managers)@).contains_key(manager@) && managers_map(final(managers)@) != managers_map(
                old(managers)@,
            ) ==> managers_map(final(managers)@)[manager@].api_version == version@
                && !managers_map(final(managers)@)[manager@].applied,
            r is Ok && (ignored_for(self.ignored_fields_view(), version@) is Some || !self.has_filter(version@))
                ==> managers_map(final(managers)@).contains_key(manager@) == (exists|q: Seq<PathElementView>|
                owned_in(entry_set(managers_map(old(managers)@), manager@), q) || applied_fields(ignored_for(self.ignored_fields_view(), version@), config_obj@, q)),
            r is Ok && (ignored_for(self.ignored_fields_view(), version@) is Some || !self.has_filter(version@))
                && managers_map(final(managers)@).contains_key(manager@) ==> forall|q: Seq<PathElementView>|
                #[trigger] contains_path(managers_map(final(managers)@)[manager@].set, q) == (owned_in(entry_set(managers_map(old(managers)@), manager@), q) || applied_fields(ignored_for(self.ignored_fields_view(), version@), config_obj@, q)),
    {
        let ghost m0 = managers_map(managers@);
        let new_object = match live_obj.merge(config_obj) {
            Ok(v) => v,
            Err(e) => {
                return Err(ApplyError::ValidationError(e));
            },
        };
        let config_set = match config_obj.to_field_set() {
            Ok(s) => s,
            Err(e) => {
                return Err(ApplyError::ValidationError(e));
            },
        };
        let filtered_set = self.filtered_config_set(config_set, version);
        let ghost fs = filtered_set@;
        let new_manager_set = match managers.get(manager) {
            Some(vs) => vs.set.union(&filtered_set),
            None => filtered_set,
        };
        let ghost ns = new_manager_set@;
        let ghost s0 = managers@;
        managers.insert(manager, VersionedSet::new(new_manager_set, version.clone(), false));
        let ghost m1 = managers_map(managers@);
        let ghost s1 = managers@;
        proof {
            assert(m1.contains_key(manager@) && m1[manager@].set == ns);
            assert forall|q: Seq<PathElementView>| #[trigger] contains_path(ns, q) == (owned_in(entry_set(m0, manager@), q) || contains_path(fs, q)) by {}
            assert(new_object@ == merged_view(live_obj@, config_obj@));
        }
        let inner = self.update_internal(live_obj, &new_object, version, managers, manager, force);
        proof {
            lemma_conflict_at_insert(
                s0,
                s1,
                manager@,
                m1[manager@],
                ignored_for(self.ignored_fields_view(), version@),
                live_obj@,
                new_object@,
            );
        }
        match inner {
            Ok(_) => {},
            Err(e) => {
                proof {
                    assert(managers_map(managers@) == m1);
                }
                return Err(e);
            },
        }
        proof {
            if ignored_for(self.ignored_fields_view(), version@) is Some || !self.has_filter(version@) {
                assert forall|q: Seq<PathElementView>| #[trigger] contains_path(fs, q) == applied_fields(
                    ignored_for(self.ignored_fields_view(), version@),
                    config_obj@,
                    q,
                ) by {}
                if exists|q: Seq<PathElementView>|
                    owned_in(entry_set(m0, manager@), q) || applied_fields(ignored_for(self.ignored_fields_view(), version@), config_obj@, q) {
                    let q = choose|q: Seq<PathElementView>|
                        owned_in(entry_set(m0, manager@), q) || applied_fields(ignored_for(self.ignored_fields_view(), version@), config_obj@, q);
                    assert(contains_path(ns, q));
                }
            }
            assert forall|k: Seq<char>| k != manager@ && #[trigger] managers_map(managers@).contains_key(k) implies m0.contains_key(k)
                && same_owner(managers_map(managers@)[k], m0[k]) by {
                assert(m1.contains_key(k));
            }
            if !self.has_converter() && (ignored_for(self.ignored_fields_view(), version@) is Some || !self.has_filter(
                version@,
            )) {
                lemma_others_updated_switch(
                    m0,
                    m1,
                    managers_map(managers@),
                    manager@,
                    ignored_for(self.ignored_fields_view(), version@),
                    live_obj@,
                    new_object@,
                    merged_view(live_obj@, config_obj@),
                );
            }
        }
        Ok(new_object)
    }
}

} // verus!
