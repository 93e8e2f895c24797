use rer::candidate::{find_best_candidate, CandidateList, PackageOrderConfig, ResolutionMode};
use rer::range::VersionRange;
use rer::version::RerVersion;

#[test]
fn test_candidate_list() {
    let list = CandidateList::from_vec_str(vec!["1.0.0", "1.1.0", "1.2.0"]);
    let v1: RerVersion = "1.0.0".try_into().unwrap();
    let v2: RerVersion = "1.2.0".try_into().unwrap();
    let range = VersionRange::between(&v1, &v2);
    let v3: RerVersion = "1.1.0".try_into().unwrap();
    assert_eq!(
        list.find_candidate(&range, &ResolutionMode::Highest),
        Some(v3)
    );
    let v3: RerVersion = "1.0.0".try_into().unwrap();
    assert_eq!(
        list.find_candidate(&range, &ResolutionMode::Lowest),
        Some(v3)
    );
}

#[test]
fn test_candidates_list() {
    let list = CandidateList::from_vec_str(vec!["1.0.0", "1.1.0", "1.1.1", "1.2.0"]);
    let start: RerVersion = "1.0.0".try_into().unwrap();
    let end: RerVersion = "1.2.0".try_into().unwrap();
    let range = VersionRange::between(&start, &end);
    let v1: RerVersion = "1.0.0".try_into().unwrap();
    let v3: RerVersion = "1.1.0".try_into().unwrap();
    let v4: RerVersion = "1.1.1".try_into().unwrap();
    let mut results = vec![&v1, &v3, &v4];
    results.sort();
    assert_eq!(list.find_candidates(&range), results);
    let list =
        CandidateList::from_vec_str(vec!["4.8.6.m1", "4.8.6.m2", "5.12.6", "5.6.1", "4.8.6.m3"]);
    let v1: RerVersion = "4.8.6".try_into().unwrap();
    let range = VersionRange::between(&v1, &v1.bump());
    let v2: RerVersion = "4.8.6.m3".try_into().unwrap();
    assert_eq!(
        list.find_candidate(&range, &ResolutionMode::Highest),
        Some(v2)
    );
}

#[test]
fn test_version_split_prefers_high_side() {
    // Versions: 1.0.0, 2.0.0, 3.0.0, 4.0.0
    // Pivot at 3.0.0: first=Highest (>=3), second=Highest (<3)
    // Should pick 4.0.0 (highest on the high side)
    let list = CandidateList::from_vec_str(vec!["1.0.0", "2.0.0", "3.0.0", "4.0.0"]);
    let range = VersionRange::any();
    let pivot: RerVersion = "3.0.0".try_into().unwrap();
    let mode = ResolutionMode::VersionSplit {
        pivot,
        first: Box::new(ResolutionMode::Highest),
        second: Box::new(ResolutionMode::Highest),
    };
    assert_eq!(
        list.find_candidate(&range, &mode),
        Some("4.0.0".try_into().unwrap())
    );
}

#[test]
fn candidate_selector_test_version_split_falls_back_to_low_side() {
    // Versions: 1.0.0, 2.0.0
    // Pivot at 3.0.0: first=Highest (>=3, empty), second=Highest (<3)
    // Should fall back to 2.0.0 (highest on the low side)
    let list = CandidateList::from_vec_str(vec!["1.0.0", "2.0.0"]);
    let range = VersionRange::any();
    let pivot: RerVersion = "3.0.0".try_into().unwrap();
    let mode = ResolutionMode::VersionSplit {
        pivot,
        first: Box::new(ResolutionMode::Highest),
        second: Box::new(ResolutionMode::Highest),
    };
    assert_eq!(
        list.find_candidate(&range, &mode),
        Some("2.0.0".try_into().unwrap())
    );
}

#[test]
fn test_version_split_lowest_on_high_side() {
    // Versions: 1.0.0, 2.0.0, 3.0.0, 4.0.0
    // Pivot at 2.5.0: first=Lowest (>=2.5), second=Lowest (<2.5)
    // Should pick 3.0.0 (lowest on the high side)
    let list = CandidateList::from_vec_str(vec!["1.0.0", "2.0.0", "3.0.0", "4.0.0"]);
    let range = VersionRange::any();
    let pivot: RerVersion = "2.5.0".try_into().unwrap();
    let mode = ResolutionMode::VersionSplit {
        pivot: pivot.clone(),
        first: Box::new(ResolutionMode::Lowest),
        second: Box::new(ResolutionMode::Lowest),
    };
    assert_eq!(
        list.find_candidate(&range, &mode),
        Some("3.0.0".try_into().unwrap())
    );
}

#[test]
fn test_package_order_config_default() {
    let config = PackageOrderConfig::new(ResolutionMode::Highest);
    assert!(matches!(
        config.mode_for("anything"),
        ResolutionMode::Highest
    ));
}

#[test]
fn test_package_order_config_per_family() {
    let mut config = PackageOrderConfig::new(ResolutionMode::Highest);
    config.set_family_mode("python".to_string(), ResolutionMode::Lowest);
    assert!(matches!(config.mode_for("python"), ResolutionMode::Lowest));
    assert!(matches!(config.mode_for("maya"), ResolutionMode::Highest));
}

#[test]
fn setting_a_family_twice_keeps_the_last_mode() {
    let mut config = PackageOrderConfig::default();
    config.set_family_mode("python".to_string(), ResolutionMode::Lowest);
    config.set_family_mode("python".to_string(), ResolutionMode::Highest);
    assert!(matches!(config.mode_for("python"), ResolutionMode::Highest));
    assert_eq!(config.per_family.len(), 1);
}

#[test]
fn candidate_lists_are_sorted() {
    // numeric sub-tokens compare by value: `1.9` sorts before `1.10`
    let list = CandidateList::from_vec_str(vec!["2", "1.10", "1.9", "1"]);
    let range = VersionRange::any();
    let found: Vec<String> = list.find_candidates(&range).iter().map(|v| v.to_string()).collect();
    assert_eq!(found, vec!["1", "1.9", "1.10", "2"]);
}

#[test]
fn best_candidate_from_unsorted_versions() {
    let vs: Vec<RerVersion> = ["2.0", "1.0", "3.0", "2.5"]
        .iter()
        .map(|s| (*s).try_into().unwrap())
        .collect();
    let refs: Vec<&RerVersion> = vs.iter().collect();
    let range = VersionRange::parse("1+<3");
    assert_eq!(
        find_best_candidate(&refs, &range, &ResolutionMode::Highest).unwrap().to_string(),
        "2.5"
    );
    assert_eq!(
        find_best_candidate(&refs, &range, &ResolutionMode::Lowest).unwrap().to_string(),
        "1.0"
    );
    let mode = ResolutionMode::VersionSplit {
        pivot: "2.2".try_into().unwrap(),
        first: Box::new(ResolutionMode::Lowest),
        second: Box::new(ResolutionMode::Highest),
    };
    assert_eq!(find_best_candidate(&refs, &range, &mode).unwrap().to_string(), "2.5");
    let empty = VersionRange::parse("7+");
    assert!(find_best_candidate(&refs, &empty, &ResolutionMode::Highest).is_none());
}
