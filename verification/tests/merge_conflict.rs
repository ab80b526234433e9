use structured_merge_diff::fieldpath::path::{Path, PathElement};
use structured_merge_diff::fieldpath::set::FieldPathSet;
use structured_merge_diff::fieldpath::{APIVersion, ManagedFields, VersionedSet};
use structured_merge_diff::merge::{conflicts_from_managers, Conflict, Conflicts};

#[test]
fn test_conflict_display() {
    let conflict = Conflict::new("manager1", Path::from_elements(vec![PathElement::field_name("field")]));
    assert!(conflict.to_string().contains("manager1"));
}

#[test]
fn test_conflicts_collection() {
    let mut conflicts = Conflicts::new();
    assert!(conflicts.is_empty());

    conflicts.add(Conflict::new("m1", Path::new()));
    assert!(!conflicts.is_empty());
    assert_eq!(conflicts.len(), 1);
}

#[test]
fn conflict_message_names_manager_and_path() {
    let c = Conflict::new("kubectl", Path::from_elements(vec![PathElement::field_name("spec"), PathElement::field_name("x")]));
    assert_eq!(c.to_string(), "conflict with manager 'kubectl' at .spec.x");
    assert_eq!(c, c.clone());
}

#[test]
fn conflicts_to_set_and_message() {
    let mut cs = Conflicts::new();
    cs.add(Conflict::new("a", Path::from_elements(vec![PathElement::field_name("x")])));
    cs.add(Conflict::new("b", Path::from_elements(vec![PathElement::field_name("y")])));
    let set = cs.to_set();
    assert!(set.has(&Path::from_elements(vec![PathElement::field_name("x")])));
    assert!(set.has(&Path::from_elements(vec![PathElement::field_name("y")])));
    assert!(!set.has(&Path::from_elements(vec![PathElement::field_name("z")])));
    let text = cs.to_string();
    assert_eq!(text, "conflict with manager 'a' at .x\nconflict with manager 'b' at .y");
    assert_eq!(cs.iter().len(), 2);
}

#[test]
fn conflicts_from_managers_lists_each_owned_field() {
    let mut mf = ManagedFields::new();
    let mut s = FieldPathSet::new();
    s.insert(&Path::from_elements(vec![PathElement::field_name("x")]));
    s.insert(&Path::from_elements(vec![PathElement::field_name("y"), PathElement::field_name("z")]));
    mf.insert("m", VersionedSet::new(s, APIVersion::new("v1"), true));
    let mut t = FieldPathSet::new();
    t.insert(&Path::from_elements(vec![PathElement::field_name("w")]));
    mf.insert("n", VersionedSet::new(t, APIVersion::new("v1"), false));
    let cs = conflicts_from_managers(&mf);
    assert_eq!(cs.len(), 3);
    assert_eq!(
        cs.to_string(),
        "conflict with manager 'm' at .x\nconflict with manager 'm' at .y.z\nconflict with manager 'n' at .w"
    );
}

#[test]
fn conflicts_from_managers_of_empty_record() {
    let mf = ManagedFields::new();
    assert!(conflicts_from_managers(&mf).is_empty());
}
