use rer::package_data::PackageData;
use rer::solve_api::{solve_packages, takes_range, uri_of, ParamKind};
use rer::status::VariantSelectMode;

fn pkg(name: &str, version: &str, requires: &[&str], variants: &[&[&str]]) -> (String, String, PackageData) {
    (
        name.to_string(),
        version.to_string(),
        PackageData {
            requires: requires.iter().map(|s| s.to_string()).collect(),
            variants: variants
                .iter()
                .map(|v| v.iter().map(|s| s.to_string()).collect())
                .collect(),
        },
    )
}

#[test]
fn repeated_package_is_an_error() {
    let out = solve_packages(
        vec!["foo".to_string()],
        vec![pkg("foo", "1.0", &[], &[]), pkg("bar", "1.0", &[], &[]), pkg("foo", "1.0", &[], &[])],
        VariantSelectMode::VersionPriority,
    );
    assert_eq!(out.status, "error");
    assert_eq!(out.failure_description.as_deref(), Some("duplicate package: foo-1.0"));
    assert!(out.resolved_packages.is_empty());
}

#[test]
fn solved_resolve_lists_variants_with_uris() {
    let out = solve_packages(
        vec!["app".to_string()],
        vec![
            pkg("app", "1.0", &["lib-2"], &[]),
            pkg("lib", "1.0", &[], &[]),
            pkg("lib", "2.0", &[], &[&["py-3"]]),
            pkg("py", "3.1", &[], &[]),
        ],
        VariantSelectMode::VersionPriority,
    );
    assert_eq!(out.status, "solved");
    assert!(out.failure_description.is_none());
    let mut uris: Vec<String> = out.resolved_packages.iter().map(|v| v.uri.clone()).collect();
    uris.sort();
    assert_eq!(uris, vec!["app/1.0/package.py", "lib/2.0/package.py[0]", "py/3.1/package.py"]);
    assert_eq!(out.resolved.len(), 3);
    let lib = out.resolved_packages.iter().find(|v| v.name == "lib").unwrap();
    assert_eq!(lib.variant_index, Some(0));
    assert_eq!(lib.requires, vec!["py-3".to_string()]);
}

#[test]
fn missing_requested_package_is_an_error_with_its_message() {
    let out = solve_packages(
        vec!["nope".to_string()],
        vec![pkg("foo", "1.0", &[], &[])],
        VariantSelectMode::VersionPriority,
    );
    assert_eq!(out.status, "error");
    assert_eq!(out.failure_description.as_deref(), Some("package family not found: nope"));
}

#[test]
fn conflicting_requests_fail() {
    let out = solve_packages(
        vec!["foo-1".to_string(), "foo-2".to_string()],
        vec![pkg("foo", "1.0", &[], &[]), pkg("foo", "2.0", &[], &[])],
        VariantSelectMode::VersionPriority,
    );
    assert_eq!(out.status, "failed");
    assert!(out.failure_description.is_some());
    assert!(out.resolved.is_empty());
}

#[test]
fn uri_names_the_variant_index() {
    assert_eq!(uri_of("foo", "1.2", Some(12)), "foo/1.2/package.py[12]");
    assert_eq!(uri_of("foo", "1.2", None), "foo/1.2/package.py");
}

fn params(ps: &[(&str, ParamKind)]) -> Vec<(String, ParamKind)> {
    ps.iter().map(|(n, k)| (n.to_string(), *k)).collect()
}

#[test]
fn loader_signatures_that_take_a_range() {
    assert!(!takes_range(&params(&[])));
    assert!(!takes_range(&params(&[("name", ParamKind::Plain)])));
    assert!(takes_range(&params(&[("name", ParamKind::Plain), ("hint", ParamKind::Plain)])));
    assert!(takes_range(&params(&[("name", ParamKind::Plain), ("kw", ParamKind::VarKeyword)])));
    assert!(takes_range(&params(&[("args", ParamKind::VarPositional)])));
    assert!(takes_range(&params(&[("version_range", ParamKind::Plain)])));
}

#[test]
fn keyword_only_parameter_does_not_take_a_range() {
    assert!(!takes_range(&params(&[("name", ParamKind::Plain), ("strict", ParamKind::KeywordOnly)])));
    assert!(takes_range(&params(&[("name", ParamKind::Plain), ("version_range", ParamKind::KeywordOnly)])));
    assert!(takes_range(&params(&[("name", ParamKind::Plain), ("strict", ParamKind::KeywordOnly), ("kw", ParamKind::VarKeyword)])));
}

#[test]
fn unreadable_input_is_an_error() {
    let msg = "solver panicked (an invalid request string?)";
    let out = solve_packages(vec!["foo-1+<".to_string()], vec![pkg("foo", "1.0", &[], &[])], VariantSelectMode::VersionPriority);
    assert_eq!(out.status, "error");
    assert_eq!(out.failure_description.as_deref(), Some(msg));
    let out = solve_packages(vec!["foo".to_string()], vec![pkg("foo", "1 0", &[], &[])], VariantSelectMode::VersionPriority);
    assert_eq!(out.status, "error");
    assert_eq!(out.failure_description.as_deref(), Some(msg));
    let out = solve_packages(vec!["foo".to_string()], vec![pkg("foo", "1.0", &["bar-<<"], &[])], VariantSelectMode::VersionPriority);
    assert_eq!(out.status, "error");
    assert!(out.resolved.is_empty() && out.resolved_ephemerals.is_empty());
}

#[test]
fn readme_resolve_of_app_with_lib_2() {
    let out = solve_packages(
        vec!["app".to_string()],
        vec![pkg("app", "1.0.0", &["lib-2"], &[]), pkg("lib", "1.0.0", &[], &[]), pkg("lib", "2.0.0", &[], &[])],
        VariantSelectMode::VersionPriority,
    );
    assert_eq!(out.status, "solved");
    assert!(out.failure_description.is_none());
    let mut got: Vec<(String, String, Option<usize>, String)> = out
        .resolved_packages
        .iter()
        .map(|v| (v.name.clone(), v.version.clone(), v.variant_index, v.uri.clone()))
        .collect();
    got.sort();
    assert_eq!(
        got,
        vec![
            ("app".to_string(), "1.0.0".to_string(), None, "app/1.0.0/package.py".to_string()),
            ("lib".to_string(), "2.0.0".to_string(), None, "lib/2.0.0/package.py".to_string()),
        ]
    );
    let triples: Vec<(String, String, Option<usize>)> =
        out.resolved_packages.iter().map(|v| (v.name.clone(), v.version.clone(), v.variant_index)).collect();
    assert_eq!(out.resolved, triples);
}
