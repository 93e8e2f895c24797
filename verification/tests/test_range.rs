use rer::range::VersionRange;
use rer::range_parse::parse_version_range;
use rer::version::RerVersion;

fn v(s: &str) -> RerVersion {
    RerVersion::try_from(s).unwrap()
}

#[test]
fn test_any_and_empty() {
    assert!(VersionRange::any().is_any());
    assert!(!VersionRange::any().is_empty());
    assert!(VersionRange::empty().is_empty());
    assert!(!VersionRange::empty().is_any());
    // The parsed empty-string range is the "any" range, per rez.
    assert!(VersionRange::parse("").is_any());
}

#[test]
fn test_intersection_none_when_disjoint() {
    let a = VersionRange::parse("1+<2");
    let b = VersionRange::parse("3+<4");
    assert!(a.intersection(&b).is_none());
    let c = VersionRange::parse("1.5+<3");
    let hit = a.intersection(&c).unwrap();
    assert!(hit.contains(&v("1.6")));
    assert!(!hit.contains(&v("2.0")));
}

#[test]
fn test_inverse_none_only_for_any() {
    assert!(VersionRange::any().inverse().is_none());
    let inv = VersionRange::parse("2+<3").inverse().unwrap();
    assert!(inv.contains(&v("1.0")));
    assert!(inv.contains(&v("4.0")));
    assert!(!inv.contains(&v("2.5")));
}

#[test]
fn test_difference() {
    // a - b = a & ~b
    let a = VersionRange::parse("1+<5");
    let b = VersionRange::parse("2+<3");
    let diff = a.difference(&b).unwrap();
    assert!(diff.contains(&v("1.5")));
    assert!(!diff.contains(&v("2.5")));
    assert!(diff.contains(&v("3.0")));
    // subtracting "any" yields None
    assert!(a.difference(&VersionRange::any()).is_none());
    // subtracting a superset empties the result -> None
    assert!(b.difference(&a).is_none());
}

#[test]
fn test_superset_subset_intersects() {
    let wide = VersionRange::parse("1+<10");
    let narrow = VersionRange::parse("2+<3");
    assert!(wide.issuperset(&narrow));
    assert!(!narrow.issuperset(&wide));
    assert!(narrow.issubset(&wide));
    assert!(wide.intersects(&narrow));
    assert!(!narrow.intersects(&VersionRange::parse("5+<6")));
}

#[test]
fn test_from_version_superset() {
    // rez: the range `3` is the superset of any `3[.X.X...]`.
    let r = VersionRange::from_version(&v("3"));
    assert!(r.contains(&v("3")));
    assert!(r.contains(&v("3.0")));
    assert!(r.contains(&v("3.1.4")));
    assert!(!r.contains(&v("4")));
}

#[test]
fn test_from_versions_and_to_versions() {
    let r = VersionRange::from_versions(vec![v("3"), v("5.1"), v("4")]);
    let mut versions = r.to_versions().unwrap();
    versions.sort();
    assert_eq!(versions, vec![v("3"), v("4"), v("5.1")]);
    // a non-exact range has no exact versions
    assert!(VersionRange::parse("1+<2").to_versions().is_none());
}

#[test]
fn test_display_rez_format() {
    // Compact rez range syntax, not the underlying segment list.
    assert_eq!(VersionRange::parse("4").to_string(), "4");
    assert_eq!(VersionRange::parse("1.0").to_string(), "1.0");
    assert_eq!(VersionRange::parse("3+<5").to_string(), "3+<5");
    assert_eq!(VersionRange::parse("3+").to_string(), "3+");
    assert_eq!(VersionRange::parse("<3").to_string(), "<3");
    assert_eq!(VersionRange::parse("==1.0.1").to_string(), "==1.0.1");
    assert_eq!(VersionRange::parse("2|5").to_string(), "2|5");
    assert_eq!(VersionRange::any().to_string(), "");
}

#[test]
fn test_span_and_split() {
    let r = VersionRange::parse("2+<4|6+<8");
    let span = r.span();
    assert!(span.contains(&v("5")));
    assert!(span.contains(&v("3")));
    assert!(!span.contains(&v("8")));
    let parts = r.split();
    assert_eq!(parts.len(), 2);
    assert!(parts[0].contains(&v("3")));
    assert!(!parts[0].contains(&v("6")));
    assert!(parts[1].contains(&v("6")));
}

#[test]
fn test_parse_version_range() {
    let a = parse_version_range("");
    assert!(a.is_any());
    let a = parse_version_range("1");
    let one = v("1");
    assert_eq!(a.to_string(), VersionRange::between(&one, &one.bump()).to_string());
    assert!(a.contains(&v("1.0.0")));
    let a = parse_version_range("1.0.0");
    let w = v("1.0.0");
    assert_eq!(a.to_string(), VersionRange::between(&w, &w.bump()).to_string());
    let a = parse_version_range("==1.0.0");
    assert_eq!(a.to_string(), VersionRange::exact(&v("1.0.0")).to_string());
    let a = parse_version_range("1.0.0..2.0.0");
    assert!(a.contains(&v("1.0.0")));
    assert!(a.contains(&v("2.0.0")));
    assert!(!a.contains(&v("2.0.0.1")));
    assert_eq!(a.to_string(), "1.0.0..2.0.0");
    let a = parse_version_range("1.0.0+");
    assert_eq!(a.to_string(), VersionRange::higher_than(&v("1.0.0")).to_string());
    let a = parse_version_range("<=1.0.0");
    assert_eq!(a.to_string(), VersionRange::lower_than(&v("1.0.0")).to_string());
    assert!(a.contains(&v("1.0.0")));
    let a = parse_version_range("<1.0.0");
    assert_eq!(a.to_string(), VersionRange::strictly_lower_than(&v("1.0.0")).to_string());
    assert!(!a.contains(&v("1.0.0")));
    let a = parse_version_range("1.0.0+<2.0.0");
    assert_eq!(a.to_string(), VersionRange::between(&v("1.0.0"), &v("2.0.0")).to_string());
    let a = parse_version_range("<=2.0.0,1.0.0+");
    assert!(a.contains(&v("2.0.0")));
    assert!(a.contains(&v("1.0.0")));
    assert!(!a.contains(&v("0.9")));
    let a = parse_version_range("<2.0.0,1.0.0+");
    assert_eq!(a.to_string(), VersionRange::between(&v("1.0.0"), &v("2.0.0")).to_string());
}

#[test]
fn union_holds_the_versions_of_either() {
    let a = VersionRange::parse("1+<2");
    let b = VersionRange::parse("3+<4");
    let u = a.union(&b);
    assert!(u.contains(&v("1.5")));
    assert!(u.contains(&v("3.5")));
    assert!(!u.contains(&v("2.5")));
    assert_eq!(u.to_string(), "1+<2|3+<4");
    // touching segments merge into one
    let c = VersionRange::parse("2+<3");
    assert_eq!(a.union(&c).to_string(), "1+<3");
    assert_eq!(a.union(&c).split().len(), 1);
}

#[test]
fn complement_holds_the_other_versions() {
    let r = VersionRange::parse("2+<3");
    let c = r.complement();
    assert_eq!(c.to_string(), "<2|3+");
    assert!(VersionRange::empty().complement().is_any());
    assert!(VersionRange::any().complement().is_empty());
    // the complement of the complement gives the range back
    assert_eq!(c.complement().to_string(), r.to_string());
}

#[test]
fn exact_and_inclusive_texts() {
    assert_eq!(VersionRange::parse(">1").to_string(), "1+");
    assert_eq!(VersionRange::parse("1..2").to_string(), "1..2");
    assert_eq!(VersionRange::parse("<=2").to_string(), "<=2");
    assert_eq!(VersionRange::parse("1+<2.0").to_string(), "1+<2.0");
    assert_eq!(VersionRange::exact(&v("1.2")).to_string(), "==1.2");
    // an upper bound below the lower bound holds no version
    assert!(VersionRange::parse("5+<3").is_empty());
}

#[test]
fn disjoint_ranges_have_no_intersection() {
    let a = VersionRange::parse("1");
    let b = VersionRange::parse("2+");
    assert!(a.intersection(&b).is_none());
    let v = RerVersion::try_from("1.5").unwrap();
    assert!(a.contains(&v) && !b.contains(&v));
}

#[test]
fn inverse_of_inverse_holds_the_same_versions() {
    let r = VersionRange::parse("1.2+<2|3");
    let back = r.inverse().unwrap().inverse().unwrap();
    for s in ["1.1", "1.2", "1.9", "2", "2.5", "3", "3.1", "4"] {
        let v = RerVersion::try_from(s).unwrap();
        assert_eq!(back.contains(&v), r.contains(&v), "{s}");
    }
}
