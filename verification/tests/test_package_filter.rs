
use rer::package_filter::{glob_decision, CompiledRegex, glob_to_regex, regex_decision, FilterList, GlobFilter, PackageFilter, RegexFilter, TimestampFilter};
use rer::version::RerVersion;

#[test]
fn test_timestamp_filter_no_timestamp() {
    let filter = TimestampFilter { before: 1700000000 };
    let v: RerVersion = "1.0.0".try_into().unwrap();
    // No timestamp data → not excluded
    assert!(filter.excludes("foo", &v, None).is_none());
}

#[test]
fn test_timestamp_filter_old_package() {
    let filter = TimestampFilter { before: 1700000000 };
    let v: RerVersion = "1.0.0".try_into().unwrap();
    assert!(filter.excludes("foo", &v, Some(1600000000)).is_some());
}

#[test]
fn test_timestamp_filter_new_package() {
    let filter = TimestampFilter { before: 1700000000 };
    let v: RerVersion = "1.0.0".try_into().unwrap();
    assert!(filter.excludes("foo", &v, Some(1800000000)).is_none());
}

#[test]
fn test_filter_list_empty() {
    let filters = FilterList::new();
    let v: RerVersion = "1.0.0".try_into().unwrap();
    assert!(filters.excludes("foo", &v, None).is_none());
    assert!(filters.is_empty());
}

#[test]
fn test_glob_to_regex_conversion() {
    assert_eq!(glob_to_regex("foo"), "^foo$");
    assert_eq!(glob_to_regex("foo*"), "^foo.*$");
    assert_eq!(glob_to_regex("f?o"), "^f.o$");
    assert_eq!(glob_to_regex("foo.bar"), "^foo\\.bar$");
    assert_eq!(glob_to_regex("foo[0]"), "^foo\\[0\\]$");
}

#[test]
fn timestamp_reason_names_the_package() {
    let filter = TimestampFilter { before: 20 };
    let v: RerVersion = "1.0".try_into().unwrap();
    assert_eq!(
        filter.excludes("foo", &v, Some(7)).unwrap(),
        "excluded by timestamp filter: foo/1.0 timestamp 7 < 20"
    );
}

#[test]
fn filter_list_uses_the_first_rule_that_excludes() {
    let mut filters = FilterList::new();
    filters.add(Box::new(TimestampFilter { before: 10 }));
    filters.add(Box::new(TimestampFilter { before: 100 }));
    assert!(!filters.is_empty());
    let v: RerVersion = "1".try_into().unwrap();
    assert!(filters.excludes("foo", &v, Some(50)).unwrap().ends_with("50 < 100"));
    assert!(filters.excludes("foo", &v, Some(5)).unwrap().ends_with("5 < 10"));
    assert!(filters.excludes("foo", &v, Some(500)).is_none());
}

#[test]
fn test_regex_filter_family_only() {
    let filter = RegexFilter {
        family: Some(CompiledRegex::new("^internal_").unwrap()),
        version: None,
    };
    let v: RerVersion = "1.0.0".try_into().unwrap();
    assert!(filter.excludes("internal_tool", &v, None).is_some());
    assert!(filter.excludes("public_tool", &v, None).is_none());
}

#[test]
fn test_regex_filter_version_only() {
    let filter = RegexFilter {
        family: None,
        version: Some(CompiledRegex::new("^0\\.").unwrap()),
    };
    let v_pre: RerVersion = "0.9.0".try_into().unwrap();
    let v_stable: RerVersion = "1.0.0".try_into().unwrap();
    assert!(filter.excludes("foo", &v_pre, None).is_some());
    assert!(filter.excludes("foo", &v_stable, None).is_none());
}

#[test]
fn test_regex_filter_both() {
    let filter = RegexFilter {
        family: Some(CompiledRegex::new("^foo$").unwrap()),
        version: Some(CompiledRegex::new("^1\\.0").unwrap()),
    };
    let v1: RerVersion = "1.0.0".try_into().unwrap();
    let v2: RerVersion = "2.0.0".try_into().unwrap();
    assert!(filter.excludes("foo", &v1, None).is_some());
    assert!(filter.excludes("foo", &v2, None).is_none());
    assert!(filter.excludes("bar", &v1, None).is_none());
}

#[test]
fn test_regex_filter_both_none() {
    let filter = RegexFilter {
        family: None,
        version: None,
    };
    let v: RerVersion = "1.0.0".try_into().unwrap();
    assert!(filter.excludes("anything", &v, None).is_none());
}

#[test]
fn test_glob_filter_star() {
    let filter = GlobFilter::new("test_*").unwrap();
    let v: RerVersion = "1.0.0".try_into().unwrap();
    assert!(filter.excludes("test_foo", &v, None).is_some());
    assert!(filter.excludes("test_", &v, None).is_some());
    assert!(filter.excludes("foo_test", &v, None).is_none());
}

#[test]
fn test_glob_filter_question() {
    let filter = GlobFilter::new("fo?").unwrap();
    let v: RerVersion = "1.0.0".try_into().unwrap();
    assert!(filter.excludes("foo", &v, None).is_some());
    assert!(filter.excludes("fob", &v, None).is_some());
    assert!(filter.excludes("fooo", &v, None).is_none());
    assert!(filter.excludes("fo", &v, None).is_none());
}

#[test]
fn test_glob_filter_exact() {
    let filter = GlobFilter::new("foo").unwrap();
    let v: RerVersion = "1.0.0".try_into().unwrap();
    assert!(filter.excludes("foo", &v, None).is_some());
    assert!(filter.excludes("foobar", &v, None).is_none());
}

#[test]
fn test_glob_filter_special_chars() {
    let filter = GlobFilter::new("foo.bar").unwrap();
    let v: RerVersion = "1.0.0".try_into().unwrap();
    assert!(filter.excludes("foo.bar", &v, None).is_some());
    assert!(filter.excludes("fooXbar", &v, None).is_none());
}

#[test]
fn test_filter_list_single() {
    let mut filters = FilterList::new();
    filters.add(Box::new(GlobFilter::new("test_*").unwrap()));
    let v: RerVersion = "1.0.0".try_into().unwrap();
    assert!(filters.excludes("test_foo", &v, None).is_some());
    assert!(filters.excludes("prod_foo", &v, None).is_none());
}

#[test]
fn test_filter_list_multiple_or_semantics() {
    let mut filters = FilterList::new();
    filters.add(Box::new(GlobFilter::new("test_*").unwrap()));
    filters.add(Box::new(RegexFilter {
        family: Some(CompiledRegex::new("^internal_").unwrap()),
        version: None,
    }));
    let v: RerVersion = "1.0.0".try_into().unwrap();
    assert!(filters.excludes("test_foo", &v, None).is_some());
    assert!(filters.excludes("internal_bar", &v, None).is_some());
    assert!(filters.excludes("public_tool", &v, None).is_none());
}

#[test]
fn glob_reason_names_the_pattern() {
    let filter = GlobFilter::new("test_*").unwrap();
    let v: RerVersion = "1.0.0".try_into().unwrap();
    assert_eq!(
        filter.excludes("test_foo", &v, None).unwrap(),
        "excluded by glob filter: family matches 'test_*'"
    );
    assert_eq!(glob_decision(false, "x"), None);
}

#[test]
fn regex_reason_names_both_patterns() {
    let filter = RegexFilter {
        family: Some(CompiledRegex::new("^foo$").unwrap()),
        version: Some(CompiledRegex::new("^1").unwrap()),
    };
    let v: RerVersion = "1.0.0".try_into().unwrap();
    assert_eq!(
        filter.excludes("foo", &v, None).unwrap(),
        "excluded by regex filter: family=/^foo$/ version=/^1/"
    );
    assert_eq!(regex_decision(None, None, true, true), None);
    assert_eq!(
        regex_decision(None, Some("^2"), false, true),
        None
    );
}

#[test]
fn escaped_glob_compiles() {
    // an unclosed bracket survives escaping only as a literal, so it compiles
    assert!(GlobFilter::new("a[").is_ok());
}
