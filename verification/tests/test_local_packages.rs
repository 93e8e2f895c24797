use rer::local_packages::{merge_versions, LocalPackages};

fn pair(v: &str, p: &str) -> (String, String) {
    (v.to_string(), p.to_string())
}

#[test]
fn later_directory_replaces_an_earlier_one() {
    let merged = merge_versions(vec![
        pair("1.0", "/a/foo/1.0"),
        pair("2.0", "/a/foo/2.0"),
        pair("1.0", "/b/foo/1.0"),
    ]);
    assert_eq!(merged, vec![pair("1.0", "/b/foo/1.0"), pair("2.0", "/a/foo/2.0")]);
}

#[test]
fn versions_are_read_once() {
    let mut lp = LocalPackages::lazy_paths(vec!["/a".to_string()]);
    assert!(!lp.is_cached("foo"));
    let first = lp.get_versions("foo", vec![pair("1.0", "/a/foo/1.0"), pair("1.2", "/a/foo/1.2")]);
    assert_eq!(first, vec!["1.0".to_string(), "1.2".to_string()]);
    assert!(lp.is_cached("foo"));
    // what is found later is not looked at
    let again = lp.get_versions("foo", vec![pair("9.0", "/a/foo/9.0")]);
    assert_eq!(again, first);
    assert_eq!(lp.paths(), &["/a".to_string()]);
}

#[test]
fn known_families_need_no_directory() {
    let mut lp = LocalPackages::from_data(vec![("bar".to_string(), vec![pair("3.0", "/x/bar/3.0")])]);
    assert!(lp.paths().is_empty());
    assert_eq!(lp.get_versions("bar", Vec::new()), vec!["3.0".to_string()]);
    assert_eq!(lp.get_versions("baz", Vec::new()), Vec::<String>::new());
}
