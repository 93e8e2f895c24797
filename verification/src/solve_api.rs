//! A resolve from plain inputs: request texts and a flat list of package
//! versions, answered with a status (`"solved"`, `"failed"` or `"error"`),
//! the resolved variants with their rez-style identifiers, and the reason
//! of a failure.
use vstd::prelude::*;
use std::rc::Rc;
use crate::version::{version_text, version_text_ok};
use crate::requirement::{Requirement, requirement_text, requirement_text_ok, reqs_view, RequirementModel};
use crate::package_data::PackageData;
use crate::package_data::PackageDataModel;
use crate::repo::{PackageRepo, FamilyModel, family_of, family_view, family_ok, data_ok, data_check};
use crate::requirement::fold_requirements;
use crate::rez_solver::fold_conflict;
use crate::phase::first_request_error;
use crate::version::RerVersion;
use crate::package_id::{decimal, decimal_text};
use crate::status::{SolverStatus, VariantSelectMode};
use crate::scope::{ScopeError, scope_error_text};
use crate::variant::{PackageVariant, VariantModel};
use crate::rez_solver::{Solver, solver_status};
use crate::phase::{solved_of, ephemerals_of};
use crate::text::{str_eq, str_concat, string_from_chars};

verus! {

/// The packages as (family, version, data) models.
pub open spec fn packages_view(ps: Seq<(String, String, PackageData)>) -> Seq<(Seq<char>, Seq<char>, PackageDataModel)> {
    ps.map_values(|p: (String, String, PackageData)| (p.0@, p.1@, p.2@))
}

/// The versions of family `n` among the packages, in order.
pub open spec fn family_from(ps: Seq<(Seq<char>, Seq<char>, PackageDataModel)>, n: Seq<char>) -> FamilyModel
    decreases ps.len(),
{
    if ps.len() == 0 {
        Seq::empty()
    } else if ps.last().0 == n {
        family_from(ps.drop_last(), n).push((ps.last().1, ps.last().2))
    } else {
        family_from(ps.drop_last(), n)
    }
}

/// The family `n` of the packages, if any package is of it.
pub open spec fn opt_family(ps: Seq<(Seq<char>, Seq<char>, PackageDataModel)>, n: Seq<char>) -> Option<FamilyModel> {
    if family_from(ps, n).len() == 0 {
        None
    } else {
        Some(family_from(ps, n))
    }
}

/// The package of index `j` repeats the family and version of an earlier
/// one.
pub open spec fn repeats_at(ps: Seq<(Seq<char>, Seq<char>, PackageDataModel)>, j: int) -> bool {
    exists|i: int| 0 <= i < j && ps[i].0 == ps[j].0 && ps[i].1 == ps[j].1
}

/// Some package repeats the family and version of an earlier one.
pub open spec fn has_repeat(ps: Seq<(Seq<char>, Seq<char>, PackageDataModel)>) -> bool {
    exists|j: int| 0 <= j < ps.len() && #[trigger] repeats_at(ps, j)
}

/// The package of index `j` is the first that repeats an earlier one.
pub open spec fn first_repeat(ps: Seq<(Seq<char>, Seq<char>, PackageDataModel)>, j: int) -> bool {
    &&& 0 <= j < ps.len()
    &&& repeats_at(ps, j)
    &&& forall|k: int| 0 <= k < j ==> !#[trigger] repeats_at(ps, k)
}

/// The message of a repeated package: `duplicate package: name-version`.
pub open spec fn duplicate_text(name: Seq<char>, version: Seq<char>) -> Seq<char> {
    "duplicate package: "@ + name + "-"@ + version
}

/// The version `v` is in family `n` of the packages exactly when a package
/// of that family and version is among them.
proof fn lemma_family_from_has(ps: Seq<(Seq<char>, Seq<char>, PackageDataModel)>, n: Seq<char>, v: Seq<char>)
    ensures
        (exists|k: int| 0 <= k < family_from(ps, n).len() && (#[trigger] family_from(ps, n)[k]).0 == v) <==> (exists|i: int|
            0 <= i < ps.len() && (#[trigger] ps[i]).0 == n && ps[i].1 == v),
    decreases ps.len(),
{
    if ps.len() > 0 {
        let p = ps.drop_last();
        lemma_family_from_has(p, n, v);
        let f = family_from(ps, n);
        let fp = family_from(p, n);
        if exists|k: int| 0 <= k < f.len() && (#[trigger] f[k]).0 == v {
            let k = choose|k: int| 0 <= k < f.len() && (#[trigger] f[k]).0 == v;
            if k < fp.len() {
                assert(f[k] == fp[k]);
                let i = choose|i: int| 0 <= i < p.len() && (#[trigger] p[i]).0 == n && p[i].1 == v;
                assert(ps[i] == p[i]);
            } else {
                assert(ps[ps.len() - 1].0 == n);
            }
        }
        if exists|i: int| 0 <= i < ps.len() && (#[trigger] ps[i]).0 == n && ps[i].1 == v {
            let i = choose|i: int| 0 <= i < ps.len() && (#[trigger] ps[i]).0 == n && ps[i].1 == v;
            if i < p.len() {
                assert(p[i] == ps[i]);
                let k = choose|k: int| 0 <= k < fp.len() && (#[trigger] fp[k]).0 == v;
                assert(f[k] == fp[k]);
            } else {
                assert(f[f.len() - 1].0 == v);
            }
        }
    }
}

/// A copy of a family's versions.
pub fn copy_family(f: &Vec<(String, PackageData)>) -> (r: Vec<(String, PackageData)>)
    ensures
        family_view(r@) == family_view(f@),
{
    let mut r: Vec<(String, PackageData)> = Vec::new();
    let mut i: usize = 0;
    while i < f.len()
        invariant
            i <= f@.len(),
            family_view(r@) == family_view(f@).take(i as int),
        decreases f.len() - i,
    {
        let ghost before = family_view(r@);
        r.push((f[i].0.clone(), f[i].1.duplicate()));
        assert(family_view(r@) =~= before.push(family_view(f@)[i as int]));
        i = i + 1;
        assert(family_view(r@) =~= family_view(f@).take(i as int));
    }
    assert(family_view(f@).take(i as int) =~= family_view(f@));
    r
}

/// The repository of the packages, each family holding its versions in
/// the order given; the message of the first package that repeats the
/// family and version of an earlier one, if any does.
pub fn packages_to_repo(packages: &Vec<(String, String, PackageData)>) -> (r: Result<PackageRepo, String>)
    requires
        forall|i: int| 0 <= i < packages@.len() ==> version_text_ok((#[trigger] packages@[i]).1@) && data_ok(packages@[i].2@),
    ensures
        r is Err <==> has_repeat(packages_view(packages@)),
        r matches Err(m) ==> exists|j: int| #[trigger] first_repeat(packages_view(packages@), j) && m@ == duplicate_text(
            packages_view(packages@)[j].0,
            packages_view(packages@)[j].1,
        ),
        r matches Ok(repo) ==> forall|n: Seq<char>| #[trigger] family_of(repo@, n) == opt_family(packages_view(packages@), n),
{
    let ghost pv = packages_view(packages@);
    let mut repo = PackageRepo::empty();
    let mut j: usize = 0;
    while j < packages.len()
        invariant
            j <= packages@.len(),
            pv == packages_view(packages@),
            forall|i: int| 0 <= i < packages@.len() ==> version_text_ok((#[trigger] packages@[i]).1@) && data_ok(packages@[i].2@),
            forall|n: Seq<char>| #[trigger] family_of(repo@, n) == opt_family(pv.take(j as int), n),
            forall|k: int| 0 <= k < j ==> !#[trigger] repeats_at(pv, k),
        decreases packages.len() - j,
    {
        let ghost pj = pv.take(j as int);
        let ghost pn = pv.take(j + 1);
        assert(pn.drop_last() =~= pj);
        assert(pv[j as int] == (packages@[j as int].0@, packages@[j as int].1@, packages@[j as int].2@));
        let name = packages[j].0.as_str();
        let version = packages[j].1.as_str();
        let ghost n = name@;
        let ghost v = version@;
        assert forall|i: int| 0 <= i < pj.len() implies pj[i] == pv[i] by {}
        let mut fam: Vec<(String, PackageData)> = match repo.get_family(name) {
            Some(f) => {
                assert(family_of(repo@, n) == opt_family(pj, n));
                assert(family_view(f@) == family_from(pj, n));
                let mut k: usize = 0;
                while k < f.len()
                    invariant
                        k <= f@.len(),
                        family_view(f@) == family_from(pj, n),
                        pj == pv.take(j as int),
                        j < pv.len(),
                        pv == packages_view(packages@),
                        n == name@,
                        v == version@,
                        forall|k: int| 0 <= k < j ==> !#[trigger] repeats_at(pv, k),
                        pv[j as int] == (packages@[j as int].0@, packages@[j as int].1@, packages@[j as int].2@),
                        name@ == packages@[j as int].0@,
                        version@ == packages@[j as int].1@,
                        forall|t: int| 0 <= t < k ==> (#[trigger] family_view(f@)[t]).0 != v,
                    decreases f.len() - k,
                {
                    assert(family_view(f@)[k as int] == (f@[k as int].0@, f@[k as int].1@));
                    if str_eq(f[k].0.as_str(), version) {
                        proof {
                            lemma_family_from_has(pj, n, v);
                            assert(family_from(pj, n)[k as int].0 == v);
                            let i = choose|i: int| 0 <= i < pj.len() && (#[trigger] pj[i]).0 == n && pj[i].1 == v;
                            assert(pv[i] == pj[i]);
                            assert(repeats_at(pv, j as int));
                            assert(first_repeat(pv, j as int));
                        }
                        let a = str_concat("duplicate package: ", name);
                        let b = str_concat(a.as_str(), "-");
                        return Err(str_concat(b.as_str(), version));
                    }
                    k = k + 1;
                }
                proof {
                    lemma_family_from_has(pj, n, v);
                }
                copy_family(f)
            },
            None => {
                proof {
                    lemma_family_from_has(pj, n, v);
                }
                Vec::new()
            },
        };
        let ghost f0 = family_view(fam@);
        assert(f0 == family_from(pj, n));
        assert(!repeats_at(pv, j as int)) by {
            if repeats_at(pv, j as int) {
                let i = choose|i: int| 0 <= i < j && pv[i].0 == pv[j as int].0 && pv[i].1 == pv[j as int].1;
                assert(pj[i] == pv[i]);
                let k = choose|k: int| 0 <= k < family_from(pj, n).len() && (#[trigger] family_from(pj, n)[k]).0 == v;
            }
        }
        fam.push((packages[j].1.clone(), packages[j].2.duplicate()));
        proof {
            let nf = family_view(fam@);
            assert(nf =~= f0.push((v, packages@[j as int].2@)));
            assert(family_from(pn, n) == nf);
            assert forall|p: int, q: int| 0 <= p < q < nf.len() implies (#[trigger] nf[p]).0 != (#[trigger] nf[q]).0 by {
                if q == nf.len() - 1 {
                    assert(nf[p] == f0[p]);
                    if f0[p].0 == v {
                        assert(exists|k: int| 0 <= k < family_from(pj, n).len() && (#[trigger] family_from(pj, n)[k]).0 == v);
                        let i = choose|i: int| 0 <= i < pj.len() && (#[trigger] pj[i]).0 == n && pj[i].1 == v;
                        assert(pv[i] == pj[i]);
                        assert(repeats_at(pv, j as int));
                    }
                } else {
                    assert(nf[p] == f0[p] && nf[q] == f0[q]);
                }
            }
            assert forall|t: int| 0 <= t < nf.len() implies version_text_ok((#[trigger] nf[t]).0) && data_ok(nf[t].1) by {
                if t < f0.len() {
                    assert(nf[t] == f0[t]);
                    assert(f0[t] == family_from(pj, n)[t]);
                    lemma_family_from_member(pj, n, t);
                    let i = choose|i: int| 0 <= i < pj.len() && (#[trigger] pj[i]).0 == n && pj[i].1 == f0[t].0 && pj[i].2 == f0[t].1;
                    assert(pj[i] == pv[i]);
                    assert(pv[i] == (packages@[i].0@, packages@[i].1@, packages@[i].2@));
                }
            }
        }
        repo.insert_family(packages[j].0.clone(), fam);
        proof {
            assert forall|m: Seq<char>| #[trigger] family_of(repo@, m) == opt_family(pn, m) by {
                if m != n {
                    assert(family_from(pn, m) == family_from(pj, m));
                }
            }
        }
        j = j + 1;
    }
    assert(pv.take(j as int) =~= pv);
    Ok(repo)
}

/// Every version of family `n` of the packages comes from a package of
/// that family.
proof fn lemma_family_from_member(ps: Seq<(Seq<char>, Seq<char>, PackageDataModel)>, n: Seq<char>, t: int)
    requires
        0 <= t < family_from(ps, n).len(),
    ensures
        exists|i: int|
            0 <= i < ps.len() && (#[trigger] ps[i]).0 == n && ps[i].1 == family_from(ps, n)[t].0 && ps[i].2
                == family_from(ps, n)[t].1,
    decreases ps.len(),
{
    let p = ps.drop_last();
    let fp = family_from(p, n);
    if ps.last().0 == n && t == fp.len() {
        assert(ps[ps.len() - 1] == ps.last());
    } else {
        assert(family_from(ps, n)[t] == fp[t]);
        lemma_family_from_member(p, n, t);
        let i = choose|i: int| 0 <= i < p.len() && (#[trigger] p[i]).0 == n && p[i].1 == fp[t].0 && p[i].2 == fp[t].1;
        assert(ps[i] == p[i]);
    }
}

/// One resolved variant: its family, version text, variant index, the
/// texts of its requirements, and its rez-style identifier.
#[derive(Debug)]
pub struct ResolvedVariant {
    pub name: String,
    pub version: String,
    pub variant_index: Option<usize>,
    pub requires: Vec<String>,
    pub uri: String,
}

/// The answer of a resolve.
#[derive(Debug)]
pub struct SolveOutcome {
    /// `"solved"`, `"failed"` (a resolve conflict) or `"error"` (bad
    /// input, a missing requested package, a load that failed).
    pub status: String,
    /// The resolved variants, for a solved resolve.
    pub resolved_packages: Vec<ResolvedVariant>,
    /// The same as (family, version, variant index).
    pub resolved: Vec<(String, String, Option<usize>)>,
    /// Why the resolve failed or was refused.
    pub failure_description: Option<String>,
    /// The number of solve steps run.
    pub num_iterations: u32,
    /// The requests of the resolved ephemerals, as text.
    pub resolved_ephemerals: Vec<String>,
}

/// The rez-style identifier of a variant: `name/version/package.py[idx]`,
/// or `name/version/package.py` for a package without variants.
pub open spec fn uri_text(name: Seq<char>, version: Seq<char>, index: Option<usize>) -> Seq<char> {
    match index {
        Some(k) => name + "/"@ + version + "/package.py["@ + decimal(k as nat) + "]"@,
        None => name + "/"@ + version + "/package.py"@,
    }
}

/// The texts of requirements.
pub open spec fn texts_of(reqs: Seq<RequirementModel>) -> Seq<Seq<char>> {
    reqs.map_values(|q: RequirementModel| requirement_text(q))
}

/// The answer describes the variant `w`.
pub open spec fn describes(a: ResolvedVariant, w: VariantModel) -> bool {
    &&& a.name@ == w.name
    &&& a.version@ == version_text(w.version)
    &&& a.variant_index == w.index
    &&& crate::requirement::strings_view(a.requires@) == texts_of(w.requires.requirements)
    &&& a.uri@ == uri_text(w.name, version_text(w.version), w.index)
}

/// The outcome that the solver `s` gives once run: its status as text,
/// the variants and ephemerals it resolved, and its failure.
pub open spec fn solver_outcome(s: Solver, r: SolveOutcome) -> bool {
    let st = solver_status(s.request_conflict(), s.stack());
    &&& r.num_iterations == s.spec_solve_count() as u32
    &&& (r.status@ == "solved"@ <==> st == SolverStatus::Solved)
    &&& (r.status@ == "failed"@ <==> st == SolverStatus::Failed)
    &&& (r.status@ == "error"@ <==> st != SolverStatus::Solved && st != SolverStatus::Failed)
    &&& (st == SolverStatus::Solved ==> {
        let ws = solved_of(s.stack().last().scopes);
        &&& r.failure_description is None
        &&& r.resolved_packages@.len() == ws.len()
        &&& r.resolved@.len() == ws.len()
        &&& forall|i: int| 0 <= i < ws.len() ==> describes(#[trigger] r.resolved_packages@[i], ws[i]@)
        &&& forall|i: int|
            0 <= i < ws.len() ==> (#[trigger] r.resolved@[i]).0@ == ws[i]@.name && r.resolved@[i].1@ == version_text(
                ws[i]@.version,
            ) && r.resolved@[i].2 == ws[i]@.index
        &&& crate::requirement::strings_view(r.resolved_ephemerals@) == texts_of(ephemerals_of(s.stack().last().scopes))
    })
    &&& (st != SolverStatus::Solved ==> r.resolved_packages@.len() == 0 && r.resolved@.len() == 0
        && r.resolved_ephemerals@.len() == 0 && r.failure_description is Some)
}

/// The outcome of a missing requested package: an error (bad input), with
/// the scope error's message.
pub open spec fn scope_error_outcome(e: ScopeError, r: SolveOutcome) -> bool {
    &&& r.status@ == "error"@
    &&& r.failure_description matches Some(d) && d@ == scope_error_text(e)
    &&& r.resolved_packages@.len() == 0
    &&& r.resolved@.len() == 0
    &&& r.resolved_ephemerals@.len() == 0
    &&& r.num_iterations == 0
}

/// The rez-style identifier of a variant.
pub fn uri_of(name: &str, version: &str, index: Option<usize>) -> (r: String)
    ensures
        r@ == uri_text(name@, version@, index),
{
    let a = str_concat(name, "/");
    let b = str_concat(a.as_str(), version);
    match index {
        Some(k) => {
            let c = str_concat(b.as_str(), "/package.py[");
            let digits = string_from_chars(decimal_text(k as u64).as_slice());
            let d = str_concat(c.as_str(), digits.as_str());
            str_concat(d.as_str(), "]")
        },
        None => str_concat(b.as_str(), "/package.py"),
    }
}

/// The texts of requirements.
fn requirement_texts(reqs: &[Requirement]) -> (r: Vec<String>)
    ensures
        crate::requirement::strings_view(r@) == texts_of(reqs_view(reqs@)),
{
    let mut r: Vec<String> = Vec::new();
    let mut i: usize = 0;
    while i < reqs.len()
        invariant
            i <= reqs@.len(),
            crate::requirement::strings_view(r@) == texts_of(reqs_view(reqs@)).take(i as int),
        decreases reqs.len() - i,
    {
        let ghost before = crate::requirement::strings_view(r@);
        let t = reqs[i].to_string();
        r.push(t);
        assert(crate::requirement::strings_view(r@) =~= before.push(t@));
        i = i + 1;
        assert(crate::requirement::strings_view(r@) =~= texts_of(reqs_view(reqs@)).take(i as int));
    }
    assert(texts_of(reqs_view(reqs@)).take(i as int) =~= texts_of(reqs_view(reqs@)));
    r
}

/// The answer describing a resolved variant.
pub fn describe_variant(v: &PackageVariant) -> (r: ResolvedVariant)
    ensures
        describes(r, v@),
{
    let name = v.name().to_owned();
    let version = v.version().to_string();
    let texts = requirement_texts(v.requires_list().requirements());
    let uri = uri_of(name.as_str(), version.as_str(), v.index());
    ResolvedVariant { name, version, variant_index: v.index(), requires: texts, uri }
}

/// The outcome of a solver that has been run.
pub fn outcome_of(solver: &Solver) -> (r: SolveOutcome)
    ensures
        solver_outcome(*solver, r),
{
    let num_iterations = #[verifier::truncate] (solver.num_solves() as u32);
    let st = solver.status();
    proof {
        reveal_strlit("solved");
        reveal_strlit("failed");
        reveal_strlit("error");
        assert("solved"@[0] != "failed"@[0]);
        assert("solved"@.len() != "error"@.len());
        assert("failed"@.len() != "error"@.len());
    }
    if st == SolverStatus::Solved {
        let vs = match solver.resolved_packages() {
            Some(v) => v,
            None => Vec::new(),
        };
        let ghost ws = solved_of(solver.stack().last().scopes);
        let mut resolved_packages: Vec<ResolvedVariant> = Vec::new();
        let mut resolved: Vec<(String, String, Option<usize>)> = Vec::new();
        let mut i: usize = 0;
        while i < vs.len()
            invariant
                i <= vs@.len(),
                vs@ == ws,
                resolved_packages@.len() == i,
                resolved@.len() == i,
                forall|k: int| 0 <= k < i ==> describes(#[trigger] resolved_packages@[k], ws[k]@),
                forall|k: int|
                    0 <= k < i ==> (#[trigger] resolved@[k]).0@ == ws[k]@.name && resolved@[k].1@ == version_text(
                        ws[k]@.version,
                    ) && resolved@[k].2 == ws[k]@.index,
            decreases vs.len() - i,
        {
            let a = describe_variant(&*vs[i]);
            let t = (a.name.clone(), a.version.clone(), a.variant_index);
            resolved_packages.push(a);
            resolved.push(t);
            i = i + 1;
        }
        let eph = match solver.resolved_ephemerals() {
            Some(e) => e,
            None => Vec::new(),
        };
        let resolved_ephemerals = requirement_texts(eph.as_slice());
        SolveOutcome {
            status: "solved".to_owned(),
            resolved_packages,
            resolved,
            failure_description: None,
            num_iterations,
            resolved_ephemerals,
        }
    } else if st == SolverStatus::Failed {
        SolveOutcome {
            status: "failed".to_owned(),
            resolved_packages: Vec::new(),
            resolved: Vec::new(),
            failure_description: solver.failure_description(),
            num_iterations,
            resolved_ephemerals: Vec::new(),
        }
    } else {
        SolveOutcome {
            status: "error".to_owned(),
            resolved_packages: Vec::new(),
            resolved: Vec::new(),
            failure_description: Some("unexpected solver status".to_owned()),
            num_iterations,
            resolved_ephemerals: Vec::new(),
        }
    }
}

/// The requirements that the texts describe.
fn parse_requests(requests: &Vec<String>) -> (r: Vec<Requirement>)
    requires
        forall|i: int| 0 <= i < requests@.len() ==> requirement_text_ok((#[trigger] requests@[i])@),
    ensures
        r@.len() == requests@.len(),
        forall|i: int| 0 <= i < r@.len() ==> crate::requirement::parses_as_requirement(requests@[i]@, (#[trigger] r@[i])@),
{
    let mut r: Vec<Requirement> = Vec::new();
    let mut i: usize = 0;
    while i < requests.len()
        invariant
            i <= requests@.len(),
            r@.len() == i,
            forall|k: int| 0 <= k < requests@.len() ==> requirement_text_ok((#[trigger] requests@[k])@),
            forall|k: int| 0 <= k < i ==> crate::requirement::parses_as_requirement(requests@[k]@, (#[trigger] r@[k])@),
        decreases requests.len() - i,
    {
        r.push(Requirement::parse(requests[i].as_str()));
        i = i + 1;
    }
    r
}

/// The message of input that cannot be read (a request, a version or a
/// requirement text).
pub open spec fn unreadable_text() -> Seq<char> {
    "solver panicked (an invalid request string?)"@
}

/// An outcome refusing the input with message `m`: an error with no
/// results.
pub open spec fn refused(r: SolveOutcome, m: Seq<char>) -> bool {
    &&& r.status@ == "error"@
    &&& r.failure_description matches Some(d) && d@ == m
    &&& r.resolved_packages@.len() == 0
    &&& r.resolved@.len() == 0
    &&& r.resolved_ephemerals@.len() == 0
    &&& r.num_iterations == 0
}

/// Every package's version and requirement texts can be read.
pub open spec fn packages_ok(ps: Seq<(Seq<char>, Seq<char>, PackageDataModel)>) -> bool {
    forall|i: int| 0 <= i < ps.len() ==> version_text_ok((#[trigger] ps[i]).1) && data_ok(ps[i].2)
}

/// `reqs` are the requirements that the texts describe, in order.
pub open spec fn parsed_requests(texts: Seq<String>, reqs: Seq<RequirementModel>) -> bool {
    &&& texts.len() == reqs.len()
    &&& forall|i: int| 0 <= i < texts.len() ==> crate::requirement::parses_as_requirement(texts[i]@, #[trigger] reqs[i])
}

/// The repository holds, for each family, the versions the packages give
/// it, in order.
pub open spec fn repo_of(repo: Seq<(Seq<char>, FamilyModel)>, ps: Seq<(Seq<char>, Seq<char>, PackageDataModel)>) -> bool {
    forall|n: Seq<char>| #[trigger] family_of(repo, n) == opt_family(ps, n)
}

/// The index of the first package that repeats an earlier one, if any.
fn first_repeat_index(packages: &Vec<(String, String, PackageData)>) -> (r: Option<usize>)
    ensures
        match r {
            Some(j) => first_repeat(packages_view(packages@), j as int),
            None => !has_repeat(packages_view(packages@)),
        },
{
    let ghost pv = packages_view(packages@);
    let mut j: usize = 0;
    while j < packages.len()
        invariant
            j <= packages@.len(),
            pv == packages_view(packages@),
            forall|k: int| 0 <= k < j ==> !#[trigger] repeats_at(pv, k),
        decreases packages.len() - j,
    {
        assert(pv[j as int] == (packages@[j as int].0@, packages@[j as int].1@, packages@[j as int].2@));
        let mut i: usize = 0;
        while i < j
            invariant
                i <= j < packages@.len(),
                pv == packages_view(packages@),
                pv[j as int] == (packages@[j as int].0@, packages@[j as int].1@, packages@[j as int].2@),
                forall|k: int| 0 <= k < i ==> !(pv[k].0 == pv[j as int].0 && pv[k].1 == pv[j as int].1),
                forall|k: int| 0 <= k < j ==> !#[trigger] repeats_at(pv, k),
            decreases j - i,
        {
            assert(pv[i as int] == (packages@[i as int].0@, packages@[i as int].1@, packages@[i as int].2@));
            if str_eq(packages[i].0.as_str(), packages[j].0.as_str()) && str_eq(packages[i].1.as_str(), packages[j].1.as_str()) {
                assert(repeats_at(pv, j as int));
                return Some(j);
            }
            i = i + 1;
        }
        j = j + 1;
    }
    None
}

/// Whether every package's version and requirement texts can be read.
fn packages_check(packages: &Vec<(String, String, PackageData)>) -> (b: bool)
    ensures
        b == packages_ok(packages_view(packages@)),
{
    let ghost pv = packages_view(packages@);
    let mut i: usize = 0;
    while i < packages.len()
        invariant
            i <= packages@.len(),
            pv == packages_view(packages@),
            forall|k: int| 0 <= k < i ==> version_text_ok((#[trigger] pv[k]).1) && data_ok(pv[k].2),
        decreases packages.len() - i,
    {
        assert(pv[i as int] == (packages@[i as int].0@, packages@[i as int].1@, packages@[i as int].2@));
        if RerVersion::parse_from_string(packages[i].1.as_str()).is_err() || !data_check(&packages[i].2) {
            return false;
        }
        i = i + 1;
    }
    true
}

/// Whether every request text can be read.
fn requests_check(requests: &Vec<String>) -> (b: bool)
    ensures
        b == forall|i: int| 0 <= i < requests@.len() ==> requirement_text_ok((#[trigger] requests@[i])@),
{
    let mut i: usize = 0;
    while i < requests.len()
        invariant
            i <= requests@.len(),
            forall|k: int| 0 <= k < i ==> requirement_text_ok((#[trigger] requests@[k])@),
        decreases requests.len() - i,
    {
        if !Requirement::text_check(requests[i].as_str()) {
            return false;
        }
        i = i + 1;
    }
    true
}

/// The answer refusing the input with message `m`.
pub(crate) fn refusal(m: String) -> (r: SolveOutcome)
    ensures
        refused(r, m@),
{
    SolveOutcome {
        status: "error".to_owned(),
        resolved_packages: Vec::new(),
        resolved: Vec::new(),
        failure_description: Some(m),
        num_iterations: 0,
        resolved_ephemerals: Vec::new(),
    }
}

/// Resolves the request texts against the packages (family, version,
/// data), choosing variants by `mode`, and never fails outright:
/// - a package that repeats the family and version of an earlier one is
///   an error (`duplicate package: name-version`, for the first one);
/// - otherwise a request, version or requirement text that cannot be read
///   is an error;
/// - otherwise a requested package that is missing is an error with the
///   message of the first request for which no scope can be made;
/// - otherwise the solver for the merged requests over the repository of
///   the packages runs to the end and its state is the answer.
pub fn solve_packages(requests: Vec<String>, packages: Vec<(String, String, PackageData)>, mode: VariantSelectMode) -> (r:
    SolveOutcome)
    ensures
        has_repeat(packages_view(packages@)) ==> exists|j: int| #[trigger] first_repeat(packages_view(packages@), j)
            && refused(r, duplicate_text(packages_view(packages@)[j].0, packages_view(packages@)[j].1)),
        !has_repeat(packages_view(packages@)) && !(packages_ok(packages_view(packages@)) && forall|i: int|
            0 <= i < requests@.len() ==> requirement_text_ok((#[trigger] requests@[i])@)) ==> refused(r, unreadable_text()),
        !has_repeat(packages_view(packages@)) && packages_ok(packages_view(packages@)) && (forall|i: int|
            0 <= i < requests@.len() ==> requirement_text_ok((#[trigger] requests@[i])@)) ==> exists|
            reqs: Seq<RequirementModel>,
            repo: Seq<(Seq<char>, FamilyModel)>,
        |
            #![trigger parsed_requests(requests@, reqs), repo_of(repo, packages_view(packages@))]
            {
                &&& parsed_requests(requests@, reqs)
                &&& repo_of(repo, packages_view(packages@))
                &&& ((exists|e: ScopeError| #[trigger] scope_error_outcome(e, r) && !fold_conflict(reqs) && first_request_error(
                    repo,
                    fold_requirements(reqs).0,
                    e,
                )) || (exists|s: Solver| #[trigger] solver_outcome(s, r) && s.repo() == repo && s.request_conflict()
                    == fold_conflict(reqs) && (!fold_conflict(reqs) ==> s.requests() == fold_requirements(reqs).0) && (
                solver_status(s.request_conflict(), s.stack()) != SolverStatus::Unsolved || s.spec_solve_count()
                    == usize::MAX)))
            },
{
    proof {
        reveal_strlit("error");
    }
    match first_repeat_index(&packages) {
        Some(j) => {
            let a = str_concat("duplicate package: ", packages[j].0.as_str());
            let b = str_concat(a.as_str(), "-");
            let m = str_concat(b.as_str(), packages[j].1.as_str());
            assert(packages_view(packages@)[j as int] == (packages@[j as int].0@, packages@[j as int].1@, packages@[j as int].2@));
            return refusal(m);
        },
        None => {},
    }
    if !packages_check(&packages) || !requests_check(&requests) {
        return refusal("solver panicked (an invalid request string?)".to_owned());
    }
    assert forall|i: int| 0 <= i < packages@.len() implies version_text_ok((#[trigger] packages@[i]).1@) && data_ok(
        packages@[i].2@,
    ) by {
        assert(packages_view(packages@)[i] == (packages@[i].0@, packages@[i].1@, packages@[i].2@));
    }
    let repo = match packages_to_repo(&packages) {
        Ok(repo) => repo,
        Err(msg) => {
            return refusal(msg);
        },
    };
    let ghost rm = repo@;
    let reqs = parse_requests(&requests);
    let ghost rv = reqs_view(reqs@);
    assert(parsed_requests(requests@, rv));
    match Solver::new_with_options(reqs, Rc::new(repo), mode) {
        Ok(mut solver) => {
            solver.solve();
            let r = outcome_of(&solver);
            assert(solver_outcome(solver, r));
            assert(repo_of(rm, packages_view(packages@)));
            r
        },
        Err(e) => {
            let r = scope_error_answer(&e);
            assert(repo_of(rm, packages_view(packages@)));
            r
        },
    }
}

/// The answer to a resolve whose requested package is missing.
pub(crate) fn scope_error_answer(e: &ScopeError) -> (r: SolveOutcome)
    ensures
        scope_error_outcome(*e, r),
{
    proof {
        reveal_strlit("error");
    }
    SolveOutcome {
        status: "error".to_owned(),
        resolved_packages: Vec::new(),
        resolved: Vec::new(),
        failure_description: Some(e.to_string()),
        num_iterations: 0,
        resolved_ephemerals: Vec::new(),
    }
}

/// The kind of a parameter of a callable, as Python's `inspect` reports
/// it.
#[derive(Debug, Clone, Copy, PartialEq, Eq, Structural)]
pub enum ParamKind {
    /// A positional-only or positional-or-keyword parameter.
    Plain,
    /// A keyword-only parameter.
    KeywordOnly,
    /// `*args`.
    VarPositional,
    /// `**kwargs`.
    VarKeyword,
}

/// Whether a callable with these parameters (name and kind, in order)
/// takes a version range: among the parameters up to the second plain
/// (positional) one, one is named `version_range` or is `*args` or
/// `**kwargs`, or there is a second plain parameter. A keyword-only
/// parameter counts only by its name.
pub open spec fn takes_range_model(params: Seq<(Seq<char>, ParamKind)>) -> bool {
    takes_range_from(params, 0)
}

/// The walk of `takes_range_model` over the parameters, `plain` plain
/// parameters having been seen before them.
pub open spec fn takes_range_from(params: Seq<(Seq<char>, ParamKind)>, plain: nat) -> bool
    decreases params.len(),
{
    if params.len() == 0 {
        false
    } else {
        let p = params[0];
        if p.0 == "version_range"@ || p.1 == ParamKind::VarPositional || p.1 == ParamKind::VarKeyword {
            true
        } else if p.1 == ParamKind::KeywordOnly {
            takes_range_from(params.drop_first(), plain)
        } else if plain + 1 >= 2 {
            true
        } else {
            takes_range_from(params.drop_first(), plain + 1)
        }
    }
}

/// Whether a loader callable with these parameters takes a version range
/// beside the family name (see `takes_range_model`).
pub fn takes_range(params: &[(String, ParamKind)]) -> (r: bool)
    ensures
        r == takes_range_model(params@.map_values(|p: (String, ParamKind)| (p.0@, p.1))),
{
    let ghost pv = params@.map_values(|p: (String, ParamKind)| (p.0@, p.1));
    let mut plain: usize = 0;
    let mut i: usize = 0;
    assert(pv.skip(0) =~= pv);
    while i < params.len()
        invariant
            i <= params@.len(),
            plain <= 1,
            pv == params@.map_values(|p: (String, ParamKind)| (p.0@, p.1)),
            takes_range_model(pv) == takes_range_from(pv.skip(i as int), plain as nat),
        decreases params.len() - i,
    {
        assert(pv.skip(i as int)[0] == pv[i as int]);
        assert(pv.skip(i as int).drop_first() =~= pv.skip(i + 1));
        let kind = params[i].1;
        if str_eq(params[i].0.as_str(), "version_range") || kind == ParamKind::VarPositional || kind
            == ParamKind::VarKeyword {
            return true;
        }
        if kind == ParamKind::Plain {
            if plain + 1 >= 2 {
                return true;
            }
            plain = plain + 1;
        }
        i = i + 1;
    }
    assert(pv.skip(i as int).len() == 0);
    false
}

} // verus!
