use rer::package_id::PackageId;
use std::collections::HashSet;

#[test]
fn test_display_base() {
    let pkg = PackageId::Base("foo".to_string());
    assert_eq!(pkg.to_string(), "foo");
}

#[test]
fn test_display_variant() {
    let pkg = PackageId::Variant("foo".to_string(), 0);
    assert_eq!(pkg.to_string(), "foo[0]");

    let pkg = PackageId::Variant("bar".to_string(), 3);
    assert_eq!(pkg.to_string(), "bar[3]");
}

#[test]
fn test_display_root() {
    let pkg = PackageId::Root;
    assert_eq!(pkg.to_string(), "__root__");
}

#[test]
fn test_name() {
    assert_eq!(PackageId::Base("foo".to_string()).name(), Some("foo"));
    assert_eq!(PackageId::Variant("bar".to_string(), 1).name(), Some("bar"));
    assert_eq!(PackageId::Root.name(), None);
}

#[test]
fn test_is_variant() {
    assert!(!PackageId::Base("foo".to_string()).is_variant());
    assert!(PackageId::Variant("foo".to_string(), 0).is_variant());
    assert!(!PackageId::Root.is_variant());
}

#[test]
fn test_is_root() {
    assert!(!PackageId::Base("foo".to_string()).is_root());
    assert!(!PackageId::Variant("foo".to_string(), 0).is_root());
    assert!(PackageId::Root.is_root());
}

#[test]
fn test_equality() {
    assert_eq!(
        PackageId::Base("foo".to_string()),
        PackageId::Base("foo".to_string())
    );
    assert_ne!(
        PackageId::Base("foo".to_string()),
        PackageId::Base("bar".to_string())
    );
    assert_ne!(
        PackageId::Base("foo".to_string()),
        PackageId::Variant("foo".to_string(), 0)
    );
    assert_eq!(
        PackageId::Variant("foo".to_string(), 0),
        PackageId::Variant("foo".to_string(), 0)
    );
    assert_ne!(
        PackageId::Variant("foo".to_string(), 0),
        PackageId::Variant("foo".to_string(), 1)
    );
    assert_eq!(PackageId::Root, PackageId::Root);
}

#[test]
fn test_hash_set() {
    let mut set = HashSet::new();
    set.insert(PackageId::Base("foo".to_string()));
    set.insert(PackageId::Variant("foo".to_string(), 0));
    set.insert(PackageId::Root);
    assert_eq!(set.len(), 3);

    // Duplicate insertion should not increase size
    set.insert(PackageId::Base("foo".to_string()));
    assert_eq!(set.len(), 3);
}

#[test]
fn test_clone() {
    let pkg = PackageId::Variant("test".to_string(), 2);
    let cloned = pkg.clone();
    assert_eq!(pkg, cloned);
}

#[test]
fn variant_index_in_decimal() {
    assert_eq!(PackageId::Variant("x".to_string(), 120).to_string(), "x[120]");
    assert_eq!(PackageId::Variant("x".to_string(), 10).to_string(), "x[10]");
}
