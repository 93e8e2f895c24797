use rer::family_loads::FamilyLoads;
use rer::lazy_solve::{LazySolve, SolveAction};
use rer::package_data::PackageData;
use rer::range::VersionRange;
use rer::requirement::Requirement;
use rer::solve_api::SolveOutcome;
use rer::status::VariantSelectMode;

fn pkg(requires: &[&str]) -> PackageData {
    PackageData { requires: requires.iter().map(|s| s.to_string()).collect(), variants: vec![] }
}

fn entry(name: &str, version: &str, requires: &[&str]) -> (String, String, PackageData) {
    (name.to_string(), version.to_string(), pkg(requires))
}

/// Runs a lazy resolve, answering each load with `load`, and returns the
/// answer with the loads made (family and hint as text).
fn run(
    requests: &[&str],
    seed: Vec<(&str, Vec<(String, PackageData)>)>,
    load: impl Fn(&str) -> Vec<(String, String, PackageData)>,
) -> (SolveOutcome, Vec<(String, Option<String>)>) {
    let mut loads = FamilyLoads::new();
    for (name, fam) in seed {
        loads.insert_family(name.to_string(), fam);
    }
    let reqs: Vec<Requirement> = requests.iter().map(|s| Requirement::parse(s)).collect();
    let mut lazy = LazySolve::new(reqs, loads, VariantSelectMode::VersionPriority);
    let mut calls: Vec<(String, Option<String>)> = Vec::new();
    loop {
        match lazy.advance() {
            SolveAction::Done => break,
            SolveAction::Load { name, hint } => {
                calls.push((name.clone(), hint.as_ref().map(|h: &VersionRange| h.to_string())));
                assert!(calls.len() < 100, "too many loads");
                let loaded = load(&name);
                let _ = lazy.supply(&name, hint, loaded);
            }
        }
    }
    (lazy.outcome().unwrap(), calls)
}

fn resolved_set(out: &SolveOutcome) -> Vec<(String, String)> {
    let mut v: Vec<(String, String)> = out.resolved.iter().map(|(n, ver, _)| (n.clone(), ver.clone())).collect();
    v.sort();
    v
}

#[test]
fn test_loader_called_only_for_needed_families() {
    let (out, calls) = run(&["app"], vec![], |name| match name {
        "app" => vec![entry("app", "1.0", &["lib-2"])],
        "lib" => vec![entry("lib", "1.0", &[]), entry("lib", "2.0", &[])],
        "unrelated" => vec![entry("unrelated", "1.0", &[])],
        _ => vec![],
    });
    assert_eq!(out.status, "solved");
    assert_eq!(resolved_set(&out), vec![("app".into(), "1.0".into()), ("lib".into(), "2.0".into())]);
    let names: Vec<&str> = calls.iter().map(|(n, _)| n.as_str()).collect();
    assert!(names.contains(&"app"));
    assert!(names.contains(&"lib"));
    assert!(!names.contains(&"unrelated"));
}

#[test]
fn test_loader_called_once_per_family() {
    let (out, calls) = run(&["app"], vec![], |name| match name {
        "app" => vec![entry("app", "1.0", &["lib", "util"])],
        "util" => vec![entry("util", "1.0", &["lib"])],
        "lib" => vec![entry("lib", "1.0", &[])],
        _ => vec![],
    });
    assert_eq!(out.status, "solved");
    let lib_calls = calls.iter().filter(|(n, _)| n == "lib").count();
    assert_eq!(lib_calls, 1, "loader should be called at most once per family");
}

#[test]
fn test_loader_receives_version_range_hint() {
    let (out, calls) = run(&["lib-2+<3"], vec![], |name| match name {
        "lib" => vec![entry("lib", "1.0", &[]), entry("lib", "2.0", &[]), entry("lib", "3.0", &[])],
        _ => vec![],
    });
    assert_eq!(out.status, "solved");
    assert_eq!(calls.len(), 1, "loader called more times than expected");
    let (name, hint) = &calls[0];
    assert_eq!(name, "lib");
    let hint = hint.as_ref().expect("loader should have seen a hint");
    assert_eq!(hint, "2+<3");
    assert_eq!(resolved_set(&out), vec![("lib".into(), "2.0".into())]);
}

#[test]
fn test_loader_eager_seed_no_loader_call() {
    let seed = vec![("lib", vec![("1.0".to_string(), pkg(&[])), ("2.0".to_string(), pkg(&[]))])];
    let (out, calls) = run(&["lib-2"], seed, |_| vec![]);
    assert_eq!(out.status, "solved");
    assert_eq!(calls.len(), 0, "loader must not be called for pre-seeded families");
}

#[test]
fn test_loader_empty_means_missing_family() {
    let (out, _) = run(&["doesnotexist"], vec![], |_| vec![]);
    assert_ne!(out.status, "solved");
    assert_eq!(out.status, "error");
    assert_eq!(out.failure_description.as_deref(), Some("package family not found: doesnotexist"));
}

#[test]
fn wider_request_reloads_with_the_union_of_ranges() {
    let (out, calls) = run(&["lib-1", "app"], vec![], |name| match name {
        "app" => vec![entry("app", "1.0", &["lib-1.5+"])],
        "lib" => vec![entry("lib", "1.0", &[]), entry("lib", "1.7", &[]), entry("lib", "2.0", &[])],
        _ => vec![],
    });
    assert_eq!(out.status, "solved");
    let lib_calls: Vec<&Option<String>> = calls.iter().filter(|(n, _)| n == "lib").map(|(_, h)| h).collect();
    assert_eq!(lib_calls.len(), 2);
    assert_eq!(lib_calls[0].as_deref(), Some("1"));
    assert_eq!(resolved_set(&out), vec![("app".into(), "1.0".into()), ("lib".into(), "1.7".into())]);
}

#[test]
fn failed_load_is_the_answer() {
    let (out, _) = run(&["app"], vec![], |name| match name {
        "app" => vec![entry("app", "1.0", &[]), entry("app", "1.0", &[])],
        _ => vec![],
    });
    assert_eq!(out.status, "error");
    assert_eq!(
        out.failure_description.as_deref(),
        Some("load_family(\"app\") raised: load_family(\"app\") returned duplicate version \"1.0\"")
    );
    assert!(out.resolved.is_empty());
}
