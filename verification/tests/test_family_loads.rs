use rer::family_loads::{FamilyLoads, FamilyLookup};
use rer::package_data::PackageData;
use rer::range::VersionRange;
use rer::version::RerVersion;

fn entry(name: &str, version: &str) -> (String, String, PackageData) {
    (name.to_string(), version.to_string(), PackageData { requires: vec![], variants: vec![] })
}

fn v(s: &str) -> RerVersion {
    RerVersion::try_from(s).unwrap()
}

#[test]
fn first_lookup_loads_for_the_hint() {
    let loads = FamilyLoads::new();
    assert!(loads.load_error().is_none());
    let hint = VersionRange::parse("1+<2");
    match loads.lookup("foo", Some(&hint)) {
        FamilyLookup::Load(Some(r)) => assert_eq!(r.to_string(), hint.to_string()),
        other => panic!("expected a load for the hint, got {other:?}"),
    }
    assert!(matches!(loads.lookup("foo", None), FamilyLookup::Load(None)));
}

#[test]
fn covered_hint_is_served_without_reload_and_wider_hint_widens() {
    let mut loads = FamilyLoads::new();
    let hint = VersionRange::parse("1+<2");
    loads
        .record_load("foo", Some(hint), vec![entry("foo", "1.5"), entry("bar", "1.0"), entry("foo", "1.2")])
        .unwrap();
    let fam = loads.family("foo").unwrap();
    let versions: Vec<&str> = fam.iter().map(|(ver, _)| ver.as_str()).collect();
    assert_eq!(versions, vec!["1.5", "1.2"]);
    assert!(loads.family("bar").is_none());
    assert!(matches!(loads.lookup("bar", None), FamilyLookup::Load(None)));
    let inner = VersionRange::parse("1.2+<1.8");
    assert!(matches!(loads.lookup("foo", Some(&inner)), FamilyLookup::Held(true)));
    let wider = VersionRange::parse("3");
    match loads.lookup("foo", Some(&wider)) {
        FamilyLookup::Load(Some(r)) => {
            assert!(r.contains(&v("1.5")));
            assert!(r.contains(&v("3")));
            assert!(!r.contains(&v("2.5")));
        }
        other => panic!("expected a widened load, got {other:?}"),
    }
    assert!(matches!(loads.lookup("foo", None), FamilyLookup::Load(None)));
}

#[test]
fn repeated_version_in_a_load_fails_and_marks_the_family_absent() {
    let mut loads = FamilyLoads::new();
    let r = loads.record_load("foo", None, vec![entry("foo", "1.0"), entry("bar", "1.0"), entry("foo", "1.0")]);
    let expected = "load_family(\"foo\") raised: load_family(\"foo\") returned duplicate version \"1.0\"";
    assert_eq!(r.unwrap_err(), expected);
    assert_eq!(loads.load_error().as_deref(), Some(expected));
    assert!(matches!(loads.lookup("foo", None), FamilyLookup::Held(false)));
}

#[test]
fn names_in_the_load_message_are_quoted_with_escapes() {
    let mut loads = FamilyLoads::new();
    let r = loads.record_load("a\"b", None, vec![entry("a\"b", "1.0"), entry("a\"b", "1.0")]);
    assert_eq!(
        r.unwrap_err(),
        "load_family(\"a\\\"b\") raised: load_family(\"a\\\"b\") returned duplicate version \"1.0\""
    );
}

#[test]
fn loads_after_a_failed_load_record_the_family_absent() {
    let mut loads = FamilyLoads::new();
    assert!(loads.record_load("foo", None, vec![entry("foo", "1.0"), entry("foo", "1.0")]).is_err());
    loads.record_load("bar", None, vec![entry("bar", "1.0")]).unwrap();
    assert!(matches!(loads.lookup("bar", None), FamilyLookup::Held(false)));
    assert!(loads.family("bar").is_none());
    assert!(loads.load_error().unwrap().starts_with("load_family(\"foo\") raised: "));
}

#[test]
fn unreadable_version_in_a_load_fails() {
    let mut loads = FamilyLoads::new();
    let r = loads.record_load("foo", None, vec![entry("foo", "1.0"), entry("foo", "not a version")]);
    assert_eq!(r.unwrap_err(), "solver panicked (an invalid request string?)");
    assert!(loads.family("foo").is_none());
}

#[test]
fn empty_load_marks_the_family_absent() {
    let mut loads = FamilyLoads::new();
    loads.record_load("foo", None, vec![entry("bar", "1.0")]).unwrap();
    assert!(matches!(loads.lookup("foo", None), FamilyLookup::Held(false)));
    assert!(loads.family("foo").is_none());
}

#[test]
fn held_families_make_a_repository_for_a_resolve() {
    let mut loads = FamilyLoads::new();
    loads.record_load("foo", None, vec![entry("foo", "1.0"), entry("foo", "2.0")]).unwrap();
    loads.record_load("bar", None, vec![]).unwrap();
    let repo = loads.to_repo();
    assert_eq!(repo.family_count(), 1);
    assert_eq!(repo.get_family("foo").unwrap().len(), 2);
    assert!(repo.get_family("bar").is_none());
}
