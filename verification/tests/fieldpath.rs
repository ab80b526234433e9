use structured_merge_diff::fieldpath::pathelementmap::{PathElementMap, PathElementValueMap};
use structured_merge_diff::fieldpath::path::{Path, PathElement};
use structured_merge_diff::fieldpath::set::{FieldPathSet, PathElementSet};
use structured_merge_diff::fieldpath::{APIVersion, ManagedFields, VersionedSet};
use structured_merge_diff::value::Value;

fn path_of(names: &[&str]) -> Path {
    Path::from_elements(names.iter().map(|n| PathElement::field_name(n)).collect())
}

// ---------------------------------------------------------------------------
// Paths and path elements.
// ---------------------------------------------------------------------------

#[test]
fn test_path_element_field_name() {
    let pe = PathElement::field_name("foo");
    assert!(pe.is_field_name());
    assert_eq!(pe.as_field_name(), Some("foo"));
}

#[test]
fn test_path_operations() {
    let mut path = Path::new();
    assert!(path.is_empty());

    path.push(PathElement::field_name("metadata"));
    path.push(PathElement::field_name("name"));
    assert_eq!(path.len(), 2);

    assert_eq!(path.last(), Some(&PathElement::FieldName("name".to_string())));

    let popped = path.pop();
    assert_eq!(popped, Some(PathElement::FieldName("name".to_string())));
    assert_eq!(path.len(), 1);
}

#[test]
fn test_path_display() {
    let path = Path::from_elements(vec![PathElement::field_name("metadata"), PathElement::field_name("name")]);
    assert_eq!(path.to_string(), ".metadata.name");
}

#[test]
fn test_path_element_ordering() {
    let a = PathElement::field_name("a");
    let b = PathElement::field_name("b");
    assert!(a < b);

    let idx = PathElement::index(0);
    // Field names come before indices
    assert!(a < idx);
}

#[test]
fn path_element_order_ranks_kinds() {
    let f = PathElement::field_name("z");
    let v = PathElement::value(Value::Int(1));
    let i = PathElement::index(-5);
    assert_eq!(f.compare(&v), -1);
    assert_eq!(v.compare(&i), -1);
    assert_eq!(i.compare(&f), 1);
    assert_eq!(i.compare(&PathElement::index(-5)), 0);
    assert!(PathElement::index(-5) < PathElement::index(3));
}

#[test]
fn path_display_of_each_kind() {
    let path = Path::from_elements(vec![
        PathElement::field_name("spec"),
        PathElement::index(3),
        PathElement::field_name("name"),
    ]);
    assert_eq!(path.to_string(), ".spec[3].name");
    assert_eq!(Path::new().to_string(), "");
}

#[test]
fn path_prefix_suffix_and_with() {
    let path = path_of(&["a", "b", "c"]);
    assert_eq!(path.prefix(2), path_of(&["a", "b"]));
    assert_eq!(path.suffix(1), path_of(&["b", "c"]));
    assert_eq!(path.with(PathElement::field_name("d")).len(), 4);
    assert_eq!(path.len(), 3);
    assert_eq!(path.element_at(1), &PathElement::field_name("b"));
}

// ---------------------------------------------------------------------------
// Maps keyed by path elements.
// ---------------------------------------------------------------------------

#[test]
fn test_path_element_map_insert_and_get() {
    let mut map: PathElementMap<i32> = PathElementMap::new(10);

    map.insert(PathElement::field_name("a"), 1);
    map.insert(PathElement::field_name("b"), 2);
    map.insert(PathElement::field_name("c"), 3);

    assert_eq!(map.get(&PathElement::field_name("a")), Some(&1));
    assert_eq!(map.get(&PathElement::field_name("b")), Some(&2));
    assert_eq!(map.get(&PathElement::field_name("c")), Some(&3));
    assert_eq!(map.get(&PathElement::field_name("d")), None);
}

#[test]
fn test_path_element_map_replace() {
    let mut map: PathElementMap<i32> = PathElementMap::new(10);

    map.insert(PathElement::field_name("a"), 1);
    assert_eq!(map.get(&PathElement::field_name("a")), Some(&1));

    map.insert(PathElement::field_name("a"), 100);
    assert_eq!(map.get(&PathElement::field_name("a")), Some(&100));
    assert_eq!(map.len(), 1);
}

#[test]
fn test_path_element_map_remove() {
    let mut map: PathElementMap<i32> = PathElementMap::new(10);

    map.insert(PathElement::field_name("a"), 1);
    map.insert(PathElement::field_name("b"), 2);

    assert_eq!(map.remove(&PathElement::field_name("a")), Some(1));
    assert_eq!(map.len(), 1);
    assert!(!map.contains(&PathElement::field_name("a")));
}

#[test]
fn test_path_element_value_map() {
    let mut map = PathElementValueMap::make(10);

    map.insert(PathElement::field_name("name"), Value::String("test".into()));
    map.insert(PathElement::field_name("count"), Value::Int(42));

    assert_eq!(map.get(&PathElement::field_name("name")), Some(&Value::String("test".into())));
    assert_eq!(map.get(&PathElement::field_name("count")), Some(&Value::Int(42)));
}

#[test]
fn path_element_map_keeps_keys_sorted() {
    let mut map: PathElementMap<i32> = PathElementMap::new(0);
    map.insert(PathElement::index(2), 20);
    map.insert(PathElement::field_name("b"), 2);
    map.insert(PathElement::field_name("a"), 1);
    let keys = map.keys();
    assert_eq!(keys, vec![&PathElement::field_name("a"), &PathElement::field_name("b"), &PathElement::index(2)]);
    assert_eq!(map.values(), vec![&1, &2, &20]);
    assert_eq!(map.remove(&PathElement::index(7)), None);
    if let Some(v) = map.get_mut(&PathElement::field_name("b")) {
        *v = 5;
    }
    assert_eq!(map.get(&PathElement::field_name("b")), Some(&5));
    assert!(!map.is_empty());
}

// ---------------------------------------------------------------------------
// Sets.
// ---------------------------------------------------------------------------

#[test]
fn test_path_element_set_operations() {
    let mut set1 = PathElementSet::new();
    set1.insert(PathElement::field_name("a"));
    set1.insert(PathElement::field_name("b"));

    let mut set2 = PathElementSet::new();
    set2.insert(PathElement::field_name("b"));
    set2.insert(PathElement::field_name("c"));

    let union = set1.union(&set2);
    assert_eq!(union.len(), 3);
    assert!(union.contains(&PathElement::field_name("a")));
    assert!(union.contains(&PathElement::field_name("b")));
    assert!(union.contains(&PathElement::field_name("c")));

    let intersection = set1.intersection(&set2);
    assert_eq!(intersection.len(), 1);
    assert!(intersection.contains(&PathElement::field_name("b")));

    let difference = set1.difference(&set2);
    assert_eq!(difference.len(), 1);
    assert!(difference.contains(&PathElement::field_name("a")));
}

#[test]
fn test_set_insert_and_has() {
    let mut set = FieldPathSet::new();
    assert!(set.is_empty());

    let path = Path::from_elements(vec![PathElement::field_name("metadata"), PathElement::field_name("name")]);

    set.insert(&path);
    assert!(set.has(&path));

    let partial_path = Path::from_elements(vec![PathElement::field_name("metadata")]);
    assert!(!set.has(&partial_path));
}

#[test]
fn test_set_union() {
    let mut set1 = FieldPathSet::new();
    set1.insert(&Path::from_elements(vec![PathElement::field_name("a"), PathElement::field_name("x")]));

    let mut set2 = FieldPathSet::new();
    set2.insert(&Path::from_elements(vec![PathElement::field_name("a"), PathElement::field_name("y")]));

    let union = set1.union(&set2);
    assert!(union.has(&Path::from_elements(vec![PathElement::field_name("a"), PathElement::field_name("x")])));
    assert!(union.has(&Path::from_elements(vec![PathElement::field_name("a"), PathElement::field_name("y")])));
}

#[test]
fn test_set_iterate() {
    let mut set = FieldPathSet::new();
    set.insert(&Path::from_elements(vec![PathElement::field_name("a")]));
    set.insert(&Path::from_elements(vec![PathElement::field_name("b"), PathElement::field_name("c")]));

    let paths = set.iterate();

    assert_eq!(paths.len(), 2);
}

#[test]
fn set_algebra_on_nested_paths() {
    let mut a = FieldPathSet::new();
    a.insert(&path_of(&["x", "y"]));
    a.insert(&path_of(&["x"]));
    a.insert(&path_of(&["z"]));
    let mut b = FieldPathSet::new();
    b.insert(&path_of(&["x", "y"]));
    b.insert(&path_of(&["w"]));

    let i = a.intersection(&b);
    assert!(i.has(&path_of(&["x", "y"])));
    assert!(!i.has(&path_of(&["x"])));
    assert!(!i.has(&path_of(&["w"])));

    let d = a.difference(&b);
    assert!(d.has(&path_of(&["x"])));
    assert!(d.has(&path_of(&["z"])));
    assert!(!d.has(&path_of(&["x", "y"])));

    // union commutes
    assert!(a.union(&b).equals(&b.union(&a)));
    // a set minus itself is empty
    assert!(a.difference(&a).is_empty());
    assert_eq!(a.size(), 3);
}

#[test]
fn set_root_path_and_recursive_difference() {
    let mut s = FieldPathSet::new();
    s.insert(&Path::new());
    assert!(s.has(&Path::new()));
    assert!(!s.is_empty());

    let mut owned = FieldPathSet::new();
    owned.insert(&path_of(&["spec", "replicas"]));
    owned.insert(&path_of(&["spec"]));
    owned.insert(&path_of(&["status"]));
    let mut ignored = FieldPathSet::new();
    ignored.insert(&path_of(&["spec"]));
    let rest = owned.recursive_difference(&ignored);
    assert!(!rest.has(&path_of(&["spec"])));
    assert!(!rest.has(&path_of(&["spec", "replicas"])));
    assert!(rest.has(&path_of(&["status"])));
    assert!(ignored.covers_path(&path_of(&["spec", "replicas", "x"])));
    assert!(!ignored.covers_path(&path_of(&["status"])));
}

// ---------------------------------------------------------------------------
// Managed fields.
// ---------------------------------------------------------------------------

#[test]
fn test_versioned_set() {
    let mut set = FieldPathSet::new();
    set.insert(&Path::from_elements(vec![PathElement::field_name("name")]));

    let vs = VersionedSet::new(set.clone(), APIVersion::new("v1"), true);

    assert_eq!(vs.api_version(), &APIVersion::new("v1"));
    assert!(vs.applied());
    assert!(vs.set().has(&Path::from_elements(vec![PathElement::field_name("name")])));
}

#[test]
fn test_managed_fields_basic() {
    let mut mf = ManagedFields::new();
    assert!(mf.is_empty());

    let mut set = FieldPathSet::new();
    set.insert(&Path::from_elements(vec![PathElement::field_name("name")]));
    let vs = VersionedSet::new(set, APIVersion::new("v1"), true);

    mf.insert("manager1", vs);
    assert_eq!(mf.len(), 1);
    assert!(mf.contains("manager1"));
    assert!(!mf.contains("manager2"));
}

#[test]
fn test_managed_fields_equals() {
    let mut set1 = FieldPathSet::new();
    set1.insert(&Path::from_elements(vec![PathElement::field_name("name")]));

    let mut mf1 = ManagedFields::new();
    mf1.insert("manager1", VersionedSet::new(set1.clone(), APIVersion::new("v1"), true));

    let mut mf2 = ManagedFields::new();
    mf2.insert("manager1", VersionedSet::new(set1.clone(), APIVersion::new("v1"), true));

    assert!(mf1.equals(&mf2));
    assert_eq!(mf1, mf2);

    // Different applied flag
    let mut mf3 = ManagedFields::new();
    mf3.insert("manager1", VersionedSet::new(set1.clone(), APIVersion::new("v1"), false));
    assert!(!mf1.equals(&mf3));
}

#[test]
fn test_managed_fields_difference() {
    let mut set1 = FieldPathSet::new();
    set1.insert(&Path::from_elements(vec![PathElement::field_name("a")]));
    set1.insert(&Path::from_elements(vec![PathElement::field_name("b")]));

    let mut set2 = FieldPathSet::new();
    set2.insert(&Path::from_elements(vec![PathElement::field_name("b")]));
    set2.insert(&Path::from_elements(vec![PathElement::field_name("c")]));

    let mut mf1 = ManagedFields::new();
    mf1.insert("manager1", VersionedSet::new(set1, APIVersion::new("v1"), true));

    let mut mf2 = ManagedFields::new();
    mf2.insert("manager1", VersionedSet::new(set2, APIVersion::new("v1"), true));

    let diff = mf1.difference(&mf2);
    assert!(diff.contains("manager1"));

    let diff_set = &diff.get("manager1").unwrap().set;
    // Symmetric difference should contain "a" and "c"
    assert!(diff_set.has(&Path::from_elements(vec![PathElement::field_name("a")])));
    assert!(diff_set.has(&Path::from_elements(vec![PathElement::field_name("c")])));
    assert!(!diff_set.has(&Path::from_elements(vec![PathElement::field_name("b")])));
}

#[test]
fn managed_fields_difference_with_itself_is_empty() {
    let mut set1 = FieldPathSet::new();
    set1.insert(&path_of(&["a"]));
    let mut mf = ManagedFields::new();
    mf.insert("m1", VersionedSet::new(set1.clone(), APIVersion::new("v1"), true));
    mf.insert("m2", VersionedSet::new(set1, APIVersion::new("v2"), false));
    assert!(mf.difference(&mf).is_empty());
    assert!(mf.equals(&mf.copy()));
}

#[test]
fn managed_fields_difference_takes_other_version() {
    let mut s1 = FieldPathSet::new();
    s1.insert(&path_of(&["a"]));
    let mut s2 = FieldPathSet::new();
    s2.insert(&path_of(&["b"]));
    let mut left = ManagedFields::new();
    left.insert("m", VersionedSet::new(s1, APIVersion::new("v1"), true));
    let mut right = ManagedFields::new();
    right.insert("m", VersionedSet::new(s2, APIVersion::new("v2"), true));
    let diff = left.difference(&right);
    let vs = diff.get("m").unwrap();
    assert_eq!(vs.api_version().as_str(), "v2");
    assert!(vs.set().has(&path_of(&["b"])));
    assert!(!vs.set().has(&path_of(&["a"])));
}

#[test]
fn managed_fields_remove_and_remove_empty() {
    let mut mf = ManagedFields::new();
    mf.insert("empty", VersionedSet::new(FieldPathSet::new(), APIVersion::new("v1"), false));
    let mut s = FieldPathSet::new();
    s.insert(&path_of(&["a"]));
    mf.insert("full", VersionedSet::new(s, APIVersion::new("v1"), false));
    mf.remove_empty();
    assert!(!mf.contains("empty"));
    assert!(mf.contains("full"));
    assert!(mf.remove("full").is_some());
    assert!(mf.remove("full").is_none());
    assert!(mf.is_empty());
}

#[test]
fn managed_fields_get_mut_changes_the_entry() {
    let mut mf = ManagedFields::new();
    let mut s = FieldPathSet::new();
    s.insert(&Path::from_elements(vec![PathElement::field_name("a")]));
    mf.insert("m1", VersionedSet::new(s, APIVersion::new("v1"), false));
    mf.insert("m2", VersionedSet::new(FieldPathSet::new(), APIVersion::new("v1"), true));

    assert!(mf.get_mut("nobody").is_none());
    {
        let vs = mf.get_mut("m1").unwrap();
        vs.set.insert(&Path::from_elements(vec![PathElement::field_name("b")]));
        vs.applied = true;
    }
    let vs = mf.get("m1").unwrap();
    assert!(vs.set.has(&Path::from_elements(vec![PathElement::field_name("a")])));
    assert!(vs.set.has(&Path::from_elements(vec![PathElement::field_name("b")])));
    assert!(vs.applied);
    assert_eq!(mf.len(), 2);
    assert_eq!(mf.iter().len(), 2);
    assert_eq!(mf.iter()[0].0.as_str(), "m1");
}

#[test]
fn api_version_from_str_is_new() {
    let a = structured_merge_diff::fieldpath::APIVersion::from("apps/v1");
    let b = structured_merge_diff::fieldpath::APIVersion::new("apps/v1");
    assert!(a == b);
    assert_eq!(a.as_str(), "apps/v1");
    assert!(a != structured_merge_diff::fieldpath::APIVersion::new("v1"));
}

#[test]
fn path_element_set_iter_in_order() {
    let mut s = PathElementSet::new();
    s.insert(PathElement::field_name("b"));
    s.insert(PathElement::field_name("a"));
    s.insert(PathElement::field_name("b"));
    let items = s.iter();
    assert_eq!(items.len(), 2);
    assert_eq!(*items[0], PathElement::field_name("a"));
    assert_eq!(*items[1], PathElement::field_name("b"));
}
