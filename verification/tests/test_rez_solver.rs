use rer::context::{PackageVariantList, SolverContext};
use rer::package_data::PackageData;
use rer::range::VersionRange;
use rer::repo::{build_rank_map, PackageRepo};
use rer::requirement::{Requirement, RequirementList};
use rer::rez_solver::Solver;
use rer::scope::{PackageScope, ScopeError, ScopeIntersect, ScopeReduce};
use rer::status::SolverStatus;
use rer::variant_slice::{SliceIntersect, SliceReduce};
use rer::version::RerVersion;
use std::rc::Rc;

fn pkg(requires: &[&str], variants: &[&[&str]]) -> PackageData {
    PackageData {
        requires: requires.iter().map(|s| s.to_string()).collect(),
        variants: variants
            .iter()
            .map(|v| v.iter().map(|s| s.to_string()).collect())
            .collect(),
    }
}

fn repo(entries: Vec<(&str, Vec<(&str, PackageData)>)>) -> PackageRepo {
    let map: Vec<(String, Vec<(String, PackageData)>)> = entries
        .into_iter()
        .map(|(name, versions)| {
            (
                name.to_string(),
                versions
                    .into_iter()
                    .map(|(v, d)| (v.to_string(), d))
                    .collect(),
            )
        })
        .collect();
    PackageRepo::from_map(map)
}

fn ctx_with(repo: PackageRepo, requests: &[&str]) -> SolverContext {
    let request_list =
        RequirementList::new(requests.iter().map(|s| Requirement::parse(s)).collect());
    SolverContext::new(Rc::new(repo), request_list)
}

fn solve(repo: PackageRepo, requests: &[&str]) -> Solver {
    let reqs = requests.iter().map(|s| Requirement::parse(s)).collect();
    let mut solver = Solver::new(reqs, Rc::new(repo)).expect("solver construction");
    solver.solve();
    solver
}

fn resolved_set(solver: &Solver) -> Vec<(String, String)> {
    let mut out: Vec<(String, String)> = solver
        .resolved_packages()
        .unwrap()
        .iter()
        .map(|v| (v.name().to_string(), v.version().to_string()))
        .collect();
    out.sort();
    out
}

fn rank(m: &[(String, usize)], v: &str) -> usize {
    m.iter().find(|(s, _)| s == v).map(|(_, r)| *r).unwrap()
}

fn ord(strs: &[&str]) -> Vec<String> {
    strs.iter().map(|s| s.to_string()).collect()
}

fn version(s: &str) -> RerVersion {
    RerVersion::parse_from_string(s).unwrap()
}

// --- order of preference -----------------------------------------------

#[test]
fn rank_map_permutation() {
    let m = build_rank_map(&ord(&["1", "2", "3"]), ord(&["3", "1", "2"]));
    assert_eq!(rank(&m, "3"), 0);
    assert_eq!(rank(&m, "1"), 1);
    assert_eq!(rank(&m, "2"), 2);
}

#[test]
fn rank_map_omitted_versions_sink() {
    let m = build_rank_map(&ord(&["1", "2", "3"]), ord(&["2"]));
    assert_eq!(rank(&m, "2"), 0);
    assert_eq!(rank(&m, "1"), 1);
    assert_eq!(rank(&m, "3"), 2);
}

#[test]
fn rank_map_unknown_versions_ignored() {
    let m = build_rank_map(&ord(&["1", "2"]), ord(&["9", "1", "2"]));
    assert_eq!(m.len(), 2);
    assert_eq!(rank(&m, "1"), 0);
    assert_eq!(rank(&m, "2"), 1);
}

#[test]
fn rank_map_duplicate_uses_first_occurrence() {
    let m = build_rank_map(&ord(&["1", "2"]), ord(&["1", "1", "2"]));
    assert_eq!(rank(&m, "1"), 0);
    assert_eq!(rank(&m, "2"), 1);
}

#[test]
fn rank_map_empty_output_keeps_input_order() {
    let m = build_rank_map(&ord(&["1", "2", "3"]), ord(&[]));
    assert_eq!(rank(&m, "1"), 0);
    assert_eq!(rank(&m, "2"), 1);
    assert_eq!(rank(&m, "3"), 2);
}

// --- variants ------------------------------------------------------------

#[test]
fn test_build_variants_no_variants() {
    let r = repo(vec![("foo", vec![("1.0", pkg(&["bar-2"], &[]))])]);
    let ctx = ctx_with(r, &["foo"]);
    let list = PackageVariantList::new(&ctx, "foo").unwrap();
    let entries = list.get_intersection(&VersionRange::any()).unwrap();
    assert_eq!(entries.len(), 1);
    assert_eq!(entries[0].len(), 1);
    let v = &entries[0].variants()[0];
    assert_eq!(v.index(), None);
    assert!(v.request_fams().iter().any(|f| f == "bar"));
}

#[test]
fn test_build_variants_with_variants() {
    let r = repo(vec![(
        "foo",
        vec![("1.0", pkg(&["base-1"], &[&["maya-2024"], &["maya-2025"]]))],
    )]);
    let ctx = ctx_with(r, &["foo"]);
    let list = PackageVariantList::new(&ctx, "foo").unwrap();
    let entries = list.get_intersection(&VersionRange::any()).unwrap();
    assert_eq!(entries[0].len(), 2);
    let v0 = &entries[0].variants()[0];
    assert_eq!(v0.index(), Some(0));
    assert!(v0.request_fams().iter().any(|f| f == "base"));
    assert!(v0.request_fams().iter().any(|f| f == "maya"));
}

#[test]
fn test_get_intersection_filters_by_range() {
    let r = repo(vec![(
        "foo",
        vec![
            ("1.0", pkg(&[], &[])),
            ("2.0", pkg(&[], &[])),
            ("3.0", pkg(&[], &[])),
        ],
    )]);
    let ctx = ctx_with(r, &["foo"]);
    let list = PackageVariantList::new(&ctx, "foo").unwrap();
    let entries = list.get_intersection(&VersionRange::parse("2+")).unwrap();
    let versions: Vec<String> = entries.iter().map(|e| e.version().to_string()).collect();
    assert_eq!(versions, vec!["2.0", "3.0"]);
}

#[test]
fn test_slice_intersect_and_reduce() {
    let r = repo(vec![
        (
            "foo",
            vec![("1.0", pkg(&["bar-1"], &[])), ("2.0", pkg(&["bar-2"], &[]))],
        ),
        ("bar", vec![("1.0", pkg(&[], &[])), ("2.0", pkg(&[], &[]))]),
    ]);
    let ctx = ctx_with(r, &["foo"]);
    let slice = ctx.get_variant_slice("foo", &VersionRange::any()).unwrap();
    assert_eq!(slice.len(), 2);

    match slice.intersect(&VersionRange::parse("2")) {
        SliceIntersect::Narrowed(s) => assert_eq!(s.len(), 1),
        _ => panic!("expected narrowed"),
    }

    let (result, reductions) = slice.reduce_by(&Requirement::parse("!bar-1"));
    match result {
        SliceReduce::Reduced(s) => {
            assert_eq!(s.len(), 1);
            assert_eq!(reductions.len(), 1);
            assert_eq!(reductions[0].version.to_string(), "1.0");
        }
        _ => panic!("expected reduced"),
    }
}

#[test]
fn test_slice_extract_common_dependency() {
    let r = repo(vec![(
        "foo",
        vec![("1.0", pkg(&["bar-1"], &[])), ("2.0", pkg(&["bar-2"], &[]))],
    )]);
    let ctx = ctx_with(r, &["foo"]);
    let slice = ctx.get_variant_slice("foo", &VersionRange::any()).unwrap();
    assert!(slice.extractable());
    let (narrowed, req) = slice.extract().expect("bar is extractable");
    assert_eq!(req.name(), "bar");
    assert!(req.range().unwrap().contains(&version("1.5")));
    assert!(req.range().unwrap().contains(&version("2.5")));
    assert!(!narrowed.extractable());
}

// --- scopes --------------------------------------------------------------

#[test]
fn test_normal_scope_construction_and_request() {
    let r = repo(vec![(
        "foo",
        vec![("1.0", pkg(&[], &[])), ("2.0", pkg(&[], &[]))],
    )]);
    let ctx = ctx_with(r, &["foo"]);
    let scope = PackageScope::new(Requirement::parse("foo"), &ctx).unwrap();
    assert!(!scope.is_conflict());
    assert!(!scope.is_ephemeral());
    assert!(!scope.is_solved());
}

#[test]
fn test_conflict_scope_is_always_solved() {
    let r = repo(vec![("foo", vec![("1.0", pkg(&[], &[]))])]);
    let ctx = ctx_with(r, &["!bar"]);
    let scope = PackageScope::new(Requirement::parse("!bar"), &ctx).unwrap();
    assert!(scope.is_conflict());
    assert!(scope.is_solved());
    assert!(matches!(
        scope.reduce_by(&Requirement::parse("foo-1")).0,
        ScopeReduce::Unchanged
    ));
    assert!(scope.extract().is_none());
    assert!(scope.split(&ctx).is_none());
}

#[test]
fn test_missing_family_and_package() {
    let r = repo(vec![("foo", vec![("1.0", pkg(&[], &[]))])]);
    let ctx = ctx_with(r, &["foo"]);
    match PackageScope::new(Requirement::parse("nope"), &ctx) {
        Err(ScopeError::FamilyNotFound(n)) => assert_eq!(n, "nope"),
        other => panic!("expected FamilyNotFound, got {other:?}"),
    }
    match PackageScope::new(Requirement::parse("foo-9"), &ctx) {
        Err(ScopeError::PackageNotFound(_)) => {}
        other => panic!("expected PackageNotFound, got {other:?}"),
    }
}

#[test]
fn test_intersect_narrows_and_empties() {
    let r = repo(vec![(
        "foo",
        vec![
            ("1.0", pkg(&[], &[])),
            ("2.0", pkg(&[], &[])),
            ("3.0", pkg(&[], &[])),
        ],
    )]);
    let ctx = ctx_with(r, &["foo"]);
    let scope = PackageScope::new(Requirement::parse("foo"), &ctx).unwrap();

    match scope.intersect(&VersionRange::parse("2+"), &ctx) {
        ScopeIntersect::Narrowed(s) => assert!(!s.is_solved()),
        _ => panic!("expected narrowed"),
    }
    match scope.intersect(&VersionRange::parse("2"), &ctx) {
        ScopeIntersect::Narrowed(s) => assert!(s.is_solved()),
        _ => panic!("expected narrowed to a single version"),
    }
    match scope.intersect(&VersionRange::parse("9"), &ctx) {
        ScopeIntersect::Empty => {}
        _ => panic!("expected empty"),
    }
    assert!(matches!(
        scope.intersect(&VersionRange::any(), &ctx),
        ScopeIntersect::Unchanged
    ));
}

#[test]
fn test_conflict_scope_widens_on_intersect() {
    let r = repo(vec![(
        "foo",
        vec![("1.0", pkg(&[], &[])), ("2.0", pkg(&[], &[]))],
    )]);
    let ctx = ctx_with(r, &["!foo-1"]);
    let scope = PackageScope::new(Requirement::parse("!foo-1"), &ctx).unwrap();
    assert!(scope.is_conflict());
    match scope.intersect(&VersionRange::any(), &ctx) {
        ScopeIntersect::Narrowed(widened) => {
            assert!(!widened.is_conflict(), "widened scope is now a normal scope");
            assert!(widened.is_solved(), "only foo-2.0 remains");
        }
        _ => panic!("expected the conflict scope to widen"),
    }
}

#[test]
fn test_solved_variant_extraction() {
    let r = repo(vec![("foo", vec![("1.0", pkg(&["bar-1"], &[]))])]);
    let ctx = ctx_with(r, &["foo"]);
    let scope = PackageScope::new(Requirement::parse("foo"), &ctx).unwrap();
    assert!(!scope.is_solved());
    let (extracted, req) = scope.extract().expect("bar extractable");
    assert_eq!(req.name(), "bar");
    assert!(extracted.is_solved());
    let variant = extracted.get_solved_variant().unwrap();
    assert_eq!(variant.version().to_string(), "1.0");
}

// --- the solver ----------------------------------------------------------

#[test]
fn missing_top_level_family_is_an_error() {
    let reqs = vec![Requirement::parse("doesnotexist")];
    let solver = Solver::new(reqs, Rc::new(PackageRepo::empty()));
    match solver {
        Err(_) => {}
        Ok(mut solver) => {
            solver.solve();
            assert_ne!(solver.status(), SolverStatus::Solved);
        }
    }
}

#[test]
fn test_trivial_single_package() {
    let solver = solve(repo(vec![("foo", vec![("1.0", pkg(&[], &[]))])]), &["foo"]);
    assert_eq!(solver.status(), SolverStatus::Solved);
    assert_eq!(resolved_set(&solver), vec![("foo".into(), "1.0".into())]);
}

#[test]
fn test_picks_highest_version() {
    let solver = solve(
        repo(vec![(
            "foo",
            vec![
                ("1.0", pkg(&[], &[])),
                ("2.0", pkg(&[], &[])),
                ("1.5", pkg(&[], &[])),
            ],
        )]),
        &["foo"],
    );
    assert_eq!(resolved_set(&solver), vec![("foo".into(), "2.0".into())]);
}

#[test]
fn test_transitive_dependency() {
    let solver = solve(
        repo(vec![
            ("app", vec![("1.0", pkg(&["lib-2"], &[]))]),
            (
                "lib",
                vec![("1.0", pkg(&[], &[])), ("2.0", pkg(&["base"], &[]))],
            ),
            ("base", vec![("3.0", pkg(&[], &[]))]),
        ]),
        &["app"],
    );
    assert_eq!(solver.status(), SolverStatus::Solved);
    assert_eq!(
        resolved_set(&solver),
        vec![
            ("app".into(), "1.0".into()),
            ("base".into(), "3.0".into()),
            ("lib".into(), "2.0".into()),
        ]
    );
}

#[test]
fn test_version_constraint_intersection() {
    let solver = solve(
        repo(vec![
            ("app", vec![("1.0", pkg(&["lib-1+<3"], &[]))]),
            ("other", vec![("1.0", pkg(&["lib<2"], &[]))]),
            (
                "lib",
                vec![
                    ("1.0", pkg(&[], &[])),
                    ("2.0", pkg(&[], &[])),
                    ("3.0", pkg(&[], &[])),
                ],
            ),
        ]),
        &["app", "other"],
    );
    assert_eq!(solver.status(), SolverStatus::Solved);
    assert_eq!(
        resolved_set(&solver),
        vec![
            ("app".into(), "1.0".into()),
            ("lib".into(), "1.0".into()),
            ("other".into(), "1.0".into()),
        ]
    );
}

#[test]
fn test_conflict_request_fails() {
    let solver = solve(
        repo(vec![(
            "foo",
            vec![("1.0", pkg(&[], &[])), ("2.0", pkg(&[], &[]))],
        )]),
        &["foo-1", "foo-2"],
    );
    assert_eq!(solver.status(), SolverStatus::Failed);
    assert!(solver.resolved_packages().is_none());
}

#[test]
fn test_unsatisfiable_transitive_fails() {
    let solver = solve(
        repo(vec![
            ("app", vec![("1.0", pkg(&["lib-5"], &[]))]),
            ("lib", vec![("1.0", pkg(&[], &[]))]),
        ]),
        &["app"],
    );
    assert_eq!(solver.status(), SolverStatus::Failed);
}

#[test]
fn test_conflict_requirement_excludes_version() {
    let solver = solve(
        repo(vec![
            ("app", vec![("1.0", pkg(&["lib"], &[]))]),
            ("lib", vec![("1.0", pkg(&[], &[])), ("2.0", pkg(&[], &[]))]),
        ]),
        &["app", "!lib-2"],
    );
    assert_eq!(solver.status(), SolverStatus::Solved);
    assert_eq!(
        resolved_set(&solver),
        vec![("app".into(), "1.0".into()), ("lib".into(), "1.0".into())],
    );
}

#[test]
fn test_weak_reference_does_not_pull_in() {
    let solver = solve(
        repo(vec![
            ("foo", vec![("1.0", pkg(&[], &[]))]),
            ("lib", vec![("1.0", pkg(&[], &[]))]),
        ]),
        &["foo", "~lib-1"],
    );
    assert_eq!(solver.status(), SolverStatus::Solved);
    assert_eq!(resolved_set(&solver), vec![("foo".into(), "1.0".into())]);
}

#[test]
fn test_iter_resolved_packages_matches_vec_form() {
    let solver = solve(
        repo(vec![
            ("app", vec![("1.0", pkg(&["lib-2"], &[]))]),
            ("lib", vec![("1.0", pkg(&[], &[])), ("2.0", pkg(&[], &[]))]),
        ]),
        &["app"],
    );
    let owned: Vec<(String, String)> = solver
        .resolved_packages()
        .unwrap()
        .iter()
        .map(|v| (v.name().to_string(), v.version().to_string()))
        .collect();
    let again: Vec<(String, String)> = solver
        .resolved_packages()
        .unwrap()
        .iter()
        .map(|v| (v.name().to_string(), v.version().to_string()))
        .collect();
    assert_eq!(owned, again);
    let failed = solve(
        repo(vec![(
            "foo",
            vec![("1.0", pkg(&[], &[])), ("2.0", pkg(&[], &[]))],
        )]),
        &["foo-1", "foo-2"],
    );
    assert!(failed.resolved_packages().is_none());
}

#[test]
fn test_iter_resolved_ephemerals_matches_vec_form() {
    let solver = solve(
        repo(vec![("foo", vec![("1.0", pkg(&[], &[]))])]),
        &["foo", ".feature-1+<3", ".feature-2+"],
    );
    let owned: Vec<String> = solver
        .resolved_ephemerals()
        .unwrap()
        .iter()
        .map(|r| r.to_string())
        .collect();
    let eph = solver.resolved_ephemerals().unwrap();
    let by_ref: Vec<&Requirement> = eph.iter().collect();
    assert_eq!(by_ref.len(), 1);
    assert_eq!(by_ref[0].to_string(), ".feature-2+<3");
    assert_eq!(owned, vec![by_ref[0].to_string()]);
}

#[test]
fn test_resolved_ephemerals_intersect_request_only() {
    let solver = solve(
        repo(vec![("foo", vec![("1.0", pkg(&[], &[]))])]),
        &["foo", ".feature-1+<3", ".feature-2+"],
    );
    assert_eq!(solver.status(), SolverStatus::Solved);
    let eph: Vec<String> = solver
        .resolved_ephemerals()
        .expect("solved => Some")
        .iter()
        .map(|r| r.to_string())
        .collect();
    assert_eq!(eph, vec![".feature-2+<3".to_string()]);
}

#[test]
fn test_resolved_ephemerals_from_package_requires() {
    let solver = solve(
        repo(vec![("app", vec![("1.0", pkg(&[".mode-debug"], &[]))])]),
        &["app"],
    );
    assert_eq!(solver.status(), SolverStatus::Solved);
    let eph: Vec<String> = solver
        .resolved_ephemerals()
        .expect("solved => Some")
        .iter()
        .map(|r| r.to_string())
        .collect();
    assert_eq!(eph, vec![".mode-debug".to_string()]);
}

#[test]
fn test_resolved_ephemerals_empty_when_none_in_solve() {
    let solver = solve(repo(vec![("foo", vec![("1.0", pkg(&[], &[]))])]), &["foo"]);
    assert_eq!(solver.status(), SolverStatus::Solved);
    assert_eq!(
        solver.resolved_ephemerals().expect("solved => Some"),
        Vec::<Requirement>::new()
    );
}

#[test]
fn test_resolved_ephemerals_none_when_not_solved() {
    let solver = solve(
        repo(vec![(
            "foo",
            vec![("1.0", pkg(&[], &[])), ("2.0", pkg(&[], &[]))],
        )]),
        &["foo-1", "foo-2"],
    );
    assert_eq!(solver.status(), SolverStatus::Failed);
    assert!(solver.resolved_ephemerals().is_none());
}

#[test]
fn test_variant_selection() {
    let solver = solve(
        repo(vec![
            (
                "foo",
                vec![("1.0", pkg(&[], &[&["maya-2024"], &["maya-2025"]]))],
            ),
            (
                "maya",
                vec![("2024.0", pkg(&[], &[])), ("2025.0", pkg(&[], &[]))],
            ),
        ]),
        &["foo"],
    );
    assert_eq!(solver.status(), SolverStatus::Solved);
    let set = resolved_set(&solver);
    assert!(set.contains(&("foo".into(), "1.0".into())));
    assert_eq!(set.iter().filter(|(n, _)| n == "maya").count(), 1);
}

#[test]
fn test_cycle_detection() {
    let solver = solve(
        repo(vec![
            ("a", vec![("1.0", pkg(&["b"], &[]))]),
            ("b", vec![("1.0", pkg(&["a"], &[]))]),
        ]),
        &["a"],
    );
    assert_eq!(solver.status(), SolverStatus::Failed);
}

// --- more ------------------------------------------------------------------

#[test]
fn cycle_failure_names_the_packages() {
    let solver = solve(
        repo(vec![
            ("a", vec![("1.0", pkg(&["b"], &[]))]),
            ("b", vec![("1.0", pkg(&["a"], &[]))]),
        ]),
        &["a"],
    );
    let text = solver.failure_description().unwrap();
    assert!(text.starts_with("a cyclic dependency was detected:\n"));
    assert!(text.contains("a-1.0"));
    assert!(text.contains("b-1.0"));
}

#[test]
fn conflicting_request_describes_the_pair() {
    let solver = solve(
        repo(vec![(
            "foo",
            vec![("1.0", pkg(&[], &[])), ("2.0", pkg(&[], &[]))],
        )]),
        &["foo-1", "foo-2"],
    );
    assert_eq!(
        solver.failure_description().unwrap(),
        "the following package conflicts occurred:\nfoo-1 <--!--> foo-2"
    );
}

#[test]
fn solved_resolve_has_no_failure_description() {
    let solver = solve(repo(vec![("foo", vec![("1.0", pkg(&[], &[]))])]), &["foo"]);
    assert!(solver.failure_description().is_none());
    assert!(solver.num_solves() >= 1);
    assert_eq!(solver.num_fails(), 0);
}

#[test]
fn dependencies_come_before_their_dependents() {
    let solver = solve(
        repo(vec![
            ("app", vec![("1.0", pkg(&["lib"], &[]))]),
            ("lib", vec![("1.0", pkg(&["base"], &[]))]),
            ("base", vec![("1.0", pkg(&[], &[]))]),
        ]),
        &["app"],
    );
    let order: Vec<String> = solver
        .resolved_packages()
        .unwrap()
        .iter()
        .map(|v| v.name().to_string())
        .collect();
    assert_eq!(order, vec!["base", "lib", "app"]);
}

#[test]
fn older_version_when_the_newest_cannot_be_met() {
    // foo-2 needs bar-2, which does not exist; foo-1 needs bar-1.
    let solver = solve(
        repo(vec![
            (
                "foo",
                vec![("1.0", pkg(&["bar-1"], &[])), ("2.0", pkg(&["bar-2", "baz"], &[]))],
            ),
            ("bar", vec![("1.0", pkg(&[], &[]))]),
            ("baz", vec![("1.0", pkg(&["bar-2"], &[]))]),
        ]),
        &["foo"],
    );
    assert_eq!(solver.status(), SolverStatus::Solved);
    assert_eq!(
        resolved_set(&solver),
        vec![("bar".into(), "1.0".into()), ("foo".into(), "1.0".into())]
    );
}

#[test]
fn insert_family_replaces_a_family() {
    let mut r = repo(vec![("foo", vec![("1.0", pkg(&[], &[]))])]);
    r.insert_family("foo".to_string(), vec![("2.0".to_string(), pkg(&[], &[]))]);
    assert_eq!(r.family_count(), 1);
    let fam = r.get_family("foo").unwrap();
    assert_eq!(fam.len(), 1);
    assert_eq!(fam[0].0, "2.0");
    assert!(r.get_family("bar").is_none());
}

#[test]
fn slice_intersect_twice_by_same_range_is_unchanged() {
    let r = repo(vec![(
        "foo",
        vec![("1.0", pkg(&[], &[])), ("2.0", pkg(&[], &[])), ("3.0", pkg(&[], &[]))],
    )]);
    let ctx = ctx_with(r, &["foo"]);
    let slice = ctx.get_variant_slice("foo", &VersionRange::any()).unwrap();
    let range = VersionRange::parse("2+");
    let narrowed = match slice.intersect(&range) {
        SliceIntersect::Narrowed(s) => s,
        _ => panic!("expected narrowed"),
    };
    assert_eq!(narrowed.len(), 2);
    assert!(matches!(narrowed.intersect(&range), SliceIntersect::Unchanged));
}

#[test]
fn slice_intersect_in_turn_equals_intersect_by_intersection() {
    let r = repo(vec![(
        "foo",
        vec![("1.0", pkg(&[], &[])), ("2.0", pkg(&[], &[])), ("3.0", pkg(&[], &[]))],
    )]);
    let ctx = ctx_with(r, &["foo"]);
    let slice = ctx.get_variant_slice("foo", &VersionRange::any()).unwrap();
    let a = VersionRange::parse("2+");
    let b = VersionRange::parse("<3");
    let in_turn = match slice.intersect(&a) {
        SliceIntersect::Narrowed(s) => match s.intersect(&b) {
            SliceIntersect::Narrowed(t) => t,
            _ => panic!("expected narrowed"),
        },
        _ => panic!("expected narrowed"),
    };
    let both = match slice.intersect(&a.intersection(&b).unwrap()) {
        SliceIntersect::Narrowed(s) => s,
        _ => panic!("expected narrowed"),
    };
    let v1: Vec<String> = in_turn.versions().iter().map(|v| v.to_string()).collect();
    let v2: Vec<String> = both.versions().iter().map(|v| v.to_string()).collect();
    assert_eq!(v1, vec!["2.0"]);
    assert_eq!(v1, v2);
}

#[test]
fn slice_reduce_twice_by_same_request_is_unchanged() {
    let r = repo(vec![
        (
            "foo",
            vec![("1.0", pkg(&["bar-1"], &[])), ("2.0", pkg(&["bar-2"], &[]))],
        ),
        ("bar", vec![("1.0", pkg(&[], &[])), ("2.0", pkg(&[], &[]))]),
    ]);
    let ctx = ctx_with(r, &["foo"]);
    let slice = ctx.get_variant_slice("foo", &VersionRange::any()).unwrap();
    let request = Requirement::parse("!bar-1");
    let reduced = match slice.reduce_by(&request).0 {
        SliceReduce::Reduced(s) => s,
        _ => panic!("expected reduced"),
    };
    let (again, dropped) = reduced.reduce_by(&request);
    assert!(matches!(again, SliceReduce::Unchanged));
    assert!(dropped.is_empty());
}

#[test]
fn readme_app_requires_lib_2() {
    let r = repo(vec![
        ("app", vec![("1.0.0", pkg(&["lib-2"], &[]))]),
        ("lib", vec![("1.0.0", pkg(&[], &[])), ("2.0.0", pkg(&[], &[]))]),
    ]);
    let solver = solve(r, &["app"]);
    assert_eq!(solver.status(), SolverStatus::Solved);
    assert_eq!(
        resolved_set(&solver),
        vec![
            ("app".to_string(), "1.0.0".to_string()),
            ("lib".to_string(), "2.0.0".to_string())
        ]
    );
}

#[test]
fn resolved_version_lies_within_every_request_on_its_package() {
    let r = repo(vec![
        (
            "foo",
            vec![
                ("1.0", pkg(&[], &[])),
                ("1.5", pkg(&[], &[])),
                ("2.0", pkg(&[], &[])),
                ("3.0", pkg(&[], &[])),
            ],
        ),
        ("app", vec![("1.0", pkg(&["foo-1+"], &[]))]),
    ]);
    let solver = solve(r, &["app", "foo<2"]);
    assert_eq!(solver.status(), SolverStatus::Solved);
    let foo = resolved_set(&solver)
        .into_iter()
        .find(|(n, _)| n == "foo")
        .expect("foo is resolved");
    assert_eq!(foo.1, "1.5");
    let v = version(&foo.1);
    assert!(VersionRange::parse("1+").contains(&v));
    assert!(VersionRange::parse("<2").contains(&v));
}

#[test]
fn weak_request_bounds_a_package_pulled_in() {
    let solver = solve(
        repo(vec![
            ("app", vec![("1.0", pkg(&["lib"], &[]))]),
            ("lib", vec![("1.0", pkg(&[], &[])), ("2.0", pkg(&[], &[]))]),
        ]),
        &["app", "~lib-1"],
    );
    assert_eq!(solver.status(), SolverStatus::Solved);
    assert_eq!(
        resolved_set(&solver),
        vec![("app".into(), "1.0".into()), ("lib".into(), "1.0".into())],
    );
}

#[test]
fn scope_errors_read_as_messages() {
    let r = repo(vec![("foo", vec![("1.0", pkg(&[], &[]))])]);
    let ctx = ctx_with(r, &["foo"]);
    match PackageScope::new(Requirement::parse("nope"), &ctx) {
        Err(e) => assert_eq!(e.to_string(), "package family not found: nope"),
        Ok(_) => panic!("expected an error"),
    }
    match PackageScope::new(Requirement::parse("foo-9"), &ctx) {
        Err(e) => assert_eq!(e.to_string(), "package could not be found: foo-9"),
        Ok(_) => panic!("expected an error"),
    }
}

#[test]
fn scopes_and_phases_read_as_text() {
    let r = repo(vec![
        (
            "foo",
            vec![
                ("1.0", pkg(&[], &[])),
                ("2.0", pkg(&[], &[])),
                ("3.0", pkg(&[], &[])),
            ],
        ),
        ("bar", vec![("1.0", pkg(&[], &[]))]),
    ]);
    let ctx = ctx_with(r, &["foo", "bar", "!baz"]);
    let foo = PackageScope::new(Requirement::parse("foo"), &ctx).unwrap();
    assert_eq!(foo.to_string(), "foo[3 variants]");
    let baz = PackageScope::new(Requirement::parse("!baz"), &ctx).unwrap();
    assert_eq!(baz.to_string(), "!baz");
    let phase = rer::phase::ResolvePhase::new(&ctx).unwrap();
    assert_eq!(phase.to_string(), "foo[3 variants] bar[1 variants] !baz");
}

#[test]
fn a_step_counts_one_solve_and_a_finished_resolve_takes_none() {
    let r = repo(vec![("foo", vec![("1.0", pkg(&[], &[]))])]);
    let mut solver = Solver::new(vec![Requirement::parse("foo")], Rc::new(r)).unwrap();
    assert_eq!(solver.num_solves(), 0);
    solver.solve_step();
    assert_eq!(solver.num_solves(), 1);
    assert_eq!(solver.status(), SolverStatus::Solved);
    solver.solve_step();
    solver.solve();
    assert_eq!(solver.num_solves(), 1);
    assert_eq!(solver.num_fails(), 0);
}

#[test]
fn phase_with_missing_dependency_version_fails_on_that_conflict() {
    let r = repo(vec![
        ("app", vec![("1.0", pkg(&["lib-5"], &[]))]),
        ("lib", vec![("1.0", pkg(&[], &[]))]),
    ]);
    let ctx = ctx_with(r, &["app"]);
    let p = rer::phase::ResolvePhase::new(&ctx).unwrap();
    let r = p.solve(&ctx);
    assert_eq!(r.status, SolverStatus::Failed);
    match r.failure_reason() {
        Some(rer::failure::FailureReason::DependencyConflicts(c)) => {
            assert_eq!(c.len(), 1);
            assert_eq!(c[0].dependency.name(), "lib");
            assert_eq!(c[0].conflicting_request.to_string(), "lib-5");
        }
        other => panic!("expected a dependency conflict, got {other:?}"),
    }
}

#[test]
fn phase_with_two_candidate_versions_is_exhausted() {
    let r = repo(vec![("foo", vec![("1.0", pkg(&[], &[])), ("2.0", pkg(&[], &[]))])]);
    let ctx = ctx_with(r, &["foo"]);
    let p = rer::phase::ResolvePhase::new(&ctx).unwrap();
    let r = p.solve(&ctx);
    assert_eq!(r.status, SolverStatus::Exhausted);
    assert!(r.failure_reason().is_none());
    let again = r.solve(&ctx);
    assert_eq!(again.status, SolverStatus::Exhausted);
}

#[test]
fn cyclic_resolve_fails_with_the_cycle() {
    let r = repo(vec![
        ("a", vec![("1.0", pkg(&["b"], &[]))]),
        ("b", vec![("1.0", pkg(&["a"], &[]))]),
    ]);
    let solver = solve(r, &["a"]);
    assert_eq!(solver.status(), SolverStatus::Failed);
    let d = solver.failure_description().unwrap();
    assert!(d.starts_with("a cyclic dependency was detected:"));
}

#[test]
fn conflicting_requests_are_described_by_the_pair() {
    let r = repo(vec![("foo", vec![("1.0", pkg(&[], &[])), ("2.0", pkg(&[], &[]))])]);
    let solver = solve(r, &["foo-1", "foo-2"]);
    assert_eq!(solver.status(), SolverStatus::Failed);
    assert_eq!(
        solver.failure_description().unwrap(),
        "the following package conflicts occurred:\nfoo-1 <--!--> foo-2"
    );
}

#[test]
fn mutual_requirement_is_a_cycle_with_versions() {
    let solver = solve(
        repo(vec![("a", vec![("1.0", pkg(&["b"], &[]))]), ("b", vec![("1.0", pkg(&["a"], &[]))])]),
        &["a"],
    );
    assert_eq!(solver.status(), SolverStatus::Failed);
    let d = solver.failure_description().unwrap();
    assert!(d.starts_with("a cyclic dependency was detected:\n"), "{d}");
    assert!(d == "a cyclic dependency was detected:\na-1.0 --> b-1.0" || d == "a cyclic dependency was detected:\nb-1.0 --> a-1.0", "{d}");
}
