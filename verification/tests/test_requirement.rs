use rer::requirement::{Requirement, RequirementList};

#[test]
fn test_parse_plain() {
    let r = Requirement::parse("foo-1.0");
    assert_eq!(r.name(), "foo");
    assert!(!r.is_conflict());
    assert!(!r.is_weak());
    assert_eq!(r.to_string(), "foo-1.0");
}

#[test]
fn test_parse_unversioned() {
    let r = Requirement::parse("foo");
    assert_eq!(r.name(), "foo");
    assert!(r.range().unwrap().is_any());
    assert_eq!(r.to_string(), "foo");
}

#[test]
fn test_parse_conflict() {
    let r = Requirement::parse("!foo");
    assert_eq!(r.name(), "foo");
    assert!(r.is_conflict());
    assert!(!r.is_weak());
    // `!foo` with no range conflicts with all versions — range is "any".
    assert!(r.range().unwrap().is_any());
    assert_eq!(r.to_string(), "!foo");
}

#[test]
fn test_parse_weak_no_effect() {
    // `~foo` is the no-effect requirement: conflict + weak + None range.
    let r = Requirement::parse("~foo");
    assert!(r.is_conflict());
    assert!(r.is_weak());
    assert!(r.range().is_none());
    assert_eq!(r.to_string(), "~foo");
}

#[test]
fn test_parse_weak_versioned() {
    // `~foo-1` is stored as a conflict over the inverse of `1`.
    let r = Requirement::parse("~foo-1");
    assert!(r.is_conflict());
    assert!(r.is_weak());
    let stored = r.range().unwrap();
    // The stored range excludes the `1` superset.
    assert!(!stored.contains(&"1.2".try_into().unwrap()));
    assert!(stored.contains(&"2.0".try_into().unwrap()));
    // ...but it round-trips back to `~foo-1` for display.
    assert_eq!(r.to_string(), "~foo-1");
}

#[test]
fn test_conflicts_with_disjoint_normals() {
    // `foo-4` and `foo-6` cannot both be satisfied.
    let a = Requirement::parse("foo-4");
    let b = Requirement::parse("foo-6");
    assert!(a.conflicts_with(&b));
    assert!(b.conflicts_with(&a));
    // overlapping ranges do not conflict
    let c = Requirement::parse("foo-4+");
    let d = Requirement::parse("foo-4.5");
    assert!(!c.conflicts_with(&d));
    // different names never conflict
    assert!(!a.conflicts_with(&Requirement::parse("bar-6")));
}

#[test]
fn test_merged_examples() {
    // `foo-3+` and `!foo-5+` == `foo-3+<5`
    let m = Requirement::parse("foo-3+")
        .merged(&Requirement::parse("!foo-5+"))
        .unwrap();
    assert_eq!(m.to_string(), "foo-3+<5");
    assert!(!m.is_conflict());

    // `foo-1` and `foo-1.5` == `foo-1.5`
    let m = Requirement::parse("foo-1")
        .merged(&Requirement::parse("foo-1.5"))
        .unwrap();
    assert_eq!(m.to_string(), "foo-1.5");

    // `!foo-2` and `!foo-5` == `!foo-2|5`
    let m = Requirement::parse("!foo-2")
        .merged(&Requirement::parse("!foo-5"))
        .unwrap();
    assert!(m.is_conflict());
    assert_eq!(m.to_string(), "!foo-2|5");
}

#[test]
fn test_merged_conflict_is_none() {
    // `foo-4` and `foo-6` are irreconcilable.
    assert!(Requirement::parse("foo-4")
        .merged(&Requirement::parse("foo-6"))
        .is_none());
    // different names cannot merge
    assert!(Requirement::parse("foo-1")
        .merged(&Requirement::parse("bar-1"))
        .is_none());
}

#[test]
fn test_requirement_list_merges() {
    let list = RequirementList::new(vec![
        Requirement::parse("foo-1"),
        Requirement::parse("bar-2"),
        Requirement::parse("foo-1.5"),
    ]);
    assert!(list.conflict().is_none());
    // foo and bar, in request order, foo merged to 1.5
    assert_eq!(list.requirements().len(), 2);
    assert_eq!(list.get("foo").unwrap().to_string(), "foo-1.5");
    assert_eq!(list.names(), &["foo".to_string(), "bar".to_string()]);
    assert!(list.conflict_names().is_empty());
}

#[test]
fn test_requirement_list_conflict() {
    let list = RequirementList::new(vec![
        Requirement::parse("foo-4"),
        Requirement::parse("foo-6"),
    ]);
    let (a, b) = list.conflict().expect("should be conflicted");
    assert_eq!(a.to_string(), "foo-4");
    assert_eq!(b.to_string(), "foo-6");
}

#[test]
fn test_requirement_list_partitions_conflict_names() {
    let list = RequirementList::new(vec![
        Requirement::parse("foo-1"),
        Requirement::parse("!bar-2"),
    ]);
    assert!(list.conflict().is_none());
    assert_eq!(list.names(), &["foo".to_string()]);
    assert_eq!(list.conflict_names(), &["bar".to_string()]);
}

#[test]
fn separators_and_operators_in_text() {
    let r = Requirement::parse("foo@1.2");
    assert_eq!(r.name(), "foo");
    assert_eq!(r.to_string(), "foo@1.2");
    let r = Requirement::parse("foo<3");
    assert_eq!(r.name(), "foo");
    assert_eq!(r.to_string(), "foo<3");
    let r = Requirement::parse("foo==2");
    assert_eq!(r.to_string(), "foo==2");
}

#[test]
fn weak_requirements_merge() {
    // `~foo-1` and `~foo-2` together leave no version of foo: `!foo`
    let m = Requirement::parse("~foo-1")
        .merged(&Requirement::parse("~foo-2"))
        .unwrap();
    assert!(!m.is_weak());
    assert!(m.is_conflict());
    assert_eq!(m.to_string(), "!foo");
    let m = Requirement::parse("~foo-1+")
        .merged(&Requirement::parse("~foo-2+"))
        .unwrap();
    assert!(m.is_weak());
    // merging into a weak requirement with no effect keeps the other one
    let m = Requirement::parse("~foo")
        .merged(&Requirement::parse("foo-2"))
        .unwrap();
    assert_eq!(m.to_string(), "foo-2");
}

#[test]
fn requirements_compare_by_text() {
    assert!(Requirement::parse("foo-1") == Requirement::parse("foo-1"));
    assert!(Requirement::parse("foo-1") != Requirement::parse("foo-2"));
}
