//! One phase of a resolve: every package's scope, narrowed by repeating
//! extract, merge, intersect, add and reduce until nothing changes.
use vstd::prelude::*;
use std::rc::Rc;
use crate::requirement::{Requirement, RequirementList, strings_view};
use crate::range::VersionRange;
use crate::status::SolverStatus;
use crate::variant::PackageVariant;
use crate::scope::{
    PackageScope, ScopeModel, ScopeError, ScopeIntersect, ScopeReduce, scope_solved, request_ok, request_error,
    scope_fits, entries_fit, fits, names_normal_request, request_range, scope_wf, variants_outside, scope_text,
};
use crate::laws::satisfies;
use crate::variant_slice::{variants_within, has_variant, flat};
use crate::context::{variants_in, variants_named};
use crate::repo::FamilyModel;
use crate::requirement::{RequirementModel, find_name_from, reqs_view};
use crate::failure::{FailureReason, DependencyConflict, join, same_failure, same_reduction, same_conflict};
use crate::context::SolverContext;
use crate::graph::{DepGraph, names_view, GraphModel, graph_wf, acyclic, is_name_cycle};
use crate::text::str_eq;

verus! {

/// The model of a phase.
pub struct PhaseModel {
    pub scopes: Seq<ScopeModel>,
    pub failed: bool,
    pub status: SolverStatus,
}

pub open spec fn scopes_view(v: Seq<PackageScope>) -> Seq<ScopeModel> {
    v.map_values(|s: PackageScope| s@)
}

/// Some scope is of package `name`.
pub open spec fn has_scope(scopes: Seq<ScopeModel>, name: Seq<char>) -> bool {
    exists|i: int| 0 <= i < scopes.len() && (#[trigger] scopes[i]).package_name == name
}

/// Every scope fits the requests `reqs`.
pub open spec fn scopes_fit(scopes: Seq<ScopeModel>, reqs: Seq<RequirementModel>) -> bool {
    forall|i: int| 0 <= i < scopes.len() ==> scope_fits(#[trigger] scopes[i], reqs)
}

/// Some request of `reqs` before index `j` is on package `name`.
pub open spec fn named_before(reqs: Seq<RequirementModel>, j: int, name: Seq<char>) -> bool {
    exists|j2: int| 0 <= j2 < j && (#[trigger] reqs[j2]).name == name
}

/// Every scope fits the requests `reqs`, and every package that a request
/// names has a scope.
pub open spec fn phase_fits(scopes: Seq<ScopeModel>, reqs: Seq<RequirementModel>) -> bool {
    &&& forall|i: int| 0 <= i < scopes.len() ==> scope_fits(#[trigger] scopes[i], reqs)
    &&& forall|k: int| 0 <= k < reqs.len() ==> has_scope(scopes, (#[trigger] reqs[k]).name)
}

/// Replacing a scope by a fitting one of the same package keeps the
/// scopes fitting.
proof fn lemma_update_fits(scopes: Seq<ScopeModel>, i: int, s: ScopeModel, reqs: Seq<RequirementModel>)
    requires
        phase_fits(scopes, reqs),
        0 <= i < scopes.len(),
        s.package_name == scopes[i].package_name,
        scope_fits(s, reqs),
    ensures
        phase_fits(scopes.update(i, s), reqs),
{
    let u = scopes.update(i, s);
    assert forall|k: int| 0 <= k < reqs.len() implies has_scope(u, (#[trigger] reqs[k]).name) by {
        assert(has_scope(scopes, reqs[k].name));
        let t = choose|t: int| 0 <= t < scopes.len() && (#[trigger] scopes[t]).package_name == reqs[k].name;
        assert(u[t].package_name == reqs[k].name);
    }
    assert forall|t: int| 0 <= t < u.len() implies scope_fits(#[trigger] u[t], reqs) by {
        if t != i {
            assert(u[t] == scopes[t]);
        }
    }
}

/// Adding a fitting scope keeps the scopes fitting.
proof fn lemma_push_fits(scopes: Seq<ScopeModel>, s: ScopeModel, reqs: Seq<RequirementModel>)
    requires
        phase_fits(scopes, reqs),
        scope_fits(s, reqs),
    ensures
        phase_fits(scopes.push(s), reqs),
{
    let u = scopes.push(s);
    assert forall|k: int| 0 <= k < reqs.len() implies has_scope(u, (#[trigger] reqs[k]).name) by {
        assert(has_scope(scopes, reqs[k].name));
        let t = choose|t: int| 0 <= t < scopes.len() && (#[trigger] scopes[t]).package_name == reqs[k].name;
        assert(u[t] == scopes[t]);
    }
    assert forall|t: int| 0 <= t < u.len() implies scope_fits(#[trigger] u[t], reqs) by {
        if t < scopes.len() {
            assert(u[t] == scopes[t]);
        }
    }
}

/// A scope made narrower than a fitting one of the same package fits: its
/// variants are among the old ones, or the old scope was a conflict (no
/// request that is not a conflict names its package) and the new variants
/// are of the package.
proof fn lemma_narrowed_fits(old: ScopeModel, new: ScopeModel, reqs: Seq<RequirementModel>)
    requires
        scope_fits(old, reqs),
        new.package_name == old.package_name,
        !new.package_request.conflict,
        old.slice is Some ==> new.slice is Some && variants_within(
            new.slice.unwrap().entries,
            old.slice.unwrap().entries,
        ),
        old.slice is None ==> new.slice is None || (old.package_request.conflict && variants_named(
            new.slice.unwrap().entries,
            old.package_name,
        ) && (old.package_request.range is Some ==> variants_outside(
            new.slice.unwrap().entries,
            old.package_request.range.unwrap(),
        ))),
    ensures
        scope_fits(new, reqs),
{
    if old.slice is Some {
        crate::scope::lemma_fit_within(
            new.slice.unwrap().entries,
            old.slice.unwrap().entries,
            old.package_name,
            reqs,
        );
    } else if new.slice is Some {
        let es = new.slice.unwrap().entries;
        assert(!names_normal_request(reqs, old.package_name));
        assert forall|i: int, j: int| 0 <= i < es.len() && 0 <= j < es[i].variants.len() implies fits(
            (#[trigger] es[i].variants[j])@,
            new.package_name,
            reqs,
        ) by {
            assert forall|k: int| 0 <= k < reqs.len() && (#[trigger] reqs[k]).name == new.package_name implies satisfies(
                reqs[k],
                es[i].variants[j]@.version,
            ) by {
                assert(reqs[k] == old.package_request);
            }
        }
    }
}

/// A scope of a package that no scope of fitting scopes is of fits, where
/// its variants are of the package.
proof fn lemma_fresh_fits(scopes: Seq<ScopeModel>, s: ScopeModel, reqs: Seq<RequirementModel>)
    requires
        phase_fits(scopes, reqs),
        !has_scope(scopes, s.package_name),
        s.slice is Some ==> variants_named(s.slice.unwrap().entries, s.package_name),
    ensures
        scope_fits(s, reqs),
{
    assert forall|k: int| 0 <= k < reqs.len() implies (#[trigger] reqs[k]).name != s.package_name by {
        assert(has_scope(scopes, reqs[k].name));
    }
    if names_normal_request(reqs, s.package_name) {
        let k = choose|k: int| 0 <= k < reqs.len() && !(#[trigger] reqs[k]).conflict && reqs[k].name == s.package_name;
        assert(reqs[k].name != s.package_name);
    }
}

/// Every scope is resolved.
pub open spec fn all_solved(scopes: Seq<ScopeModel>) -> bool {
    forall|i: int| 0 <= i < scopes.len() ==> scope_solved(#[trigger] scopes[i])
}

/// A copy of a list of scopes.
fn copy_scopes(v: &Vec<PackageScope>) -> (r: Vec<PackageScope>)
    ensures
        scopes_view(r@) == scopes_view(v@),
{
    let mut r: Vec<PackageScope> = Vec::new();
    let mut i: usize = 0;
    while i < v.len()
        invariant
            i <= v@.len(),
            scopes_view(r@) == scopes_view(v@).take(i as int),
        decreases v.len() - i,
    {
        let ghost before = scopes_view(r@);
        r.push(v[i].duplicate());
        assert(scopes_view(r@) =~= before.push(v@[i as int]@));
        i = i + 1;
        assert(scopes_view(r@) =~= scopes_view(v@).take(i as int));
    }
    assert(scopes_view(v@).take(i as int) =~= scopes_view(v@));
    r
}

/// Whether every scope is resolved.
fn are_solved(scopes: &Vec<PackageScope>) -> (b: bool)
    ensures
        b == all_solved(scopes_view(scopes@)),
{
    let mut i: usize = 0;
    while i < scopes.len()
        invariant
            i <= scopes@.len(),
            forall|k: int| 0 <= k < i ==> scope_solved(#[trigger] scopes_view(scopes@)[k]),
        decreases scopes.len() - i,
    {
        if !scopes[i].is_solved() {
            assert(!scope_solved(scopes_view(scopes@)[i as int]));
            return false;
        }
        i = i + 1;
    }
    true
}

/// A conflict between two requirements, as a failure.
fn conflict_failure(dependency: Requirement, conflicting_request: Requirement) -> (f: FailureReason)
    ensures
        f is DependencyConflicts,
        f->DependencyConflicts_0@.len() == 1,
        f->DependencyConflicts_0@[0].dependency@ == dependency@,
        f->DependencyConflicts_0@[0].conflicting_request@ == conflicting_request@,
{
    let mut v: Vec<DependencyConflict> = Vec::new();
    v.push(DependencyConflict { dependency, conflicting_request });
    FailureReason::DependencyConflicts(v)
}

/// A phase of a resolve: one scope per package, the reason it failed if
/// it did, the requirements extracted so far (by scope and package), the
/// scopes changed since the last reduction, and its state.
#[derive(Debug)]
pub struct ResolvePhase {
    scopes: Vec<PackageScope>,
    failure_reason: Option<FailureReason>,
    extractions: Vec<(String, String, Requirement)>,
    changed_scopes_i: Vec<usize>,
    /// The state of the phase.
    pub status: SolverStatus,
}

impl View for ResolvePhase {
    type V = PhaseModel;

    closed spec fn view(&self) -> PhaseModel {
        PhaseModel { scopes: scopes_view(self.scopes@), failed: self.failure_reason is Some, status: self.status }
    }
}

impl ResolvePhase {
    /// Why the phase failed, if it did.
    pub closed spec fn failure(&self) -> Option<FailureReason> {
        self.failure_reason
    }
}

/// The extractions as (scope, package, requirement) models.
pub open spec fn extractions_view(v: Seq<(String, String, Requirement)>) -> Seq<(Seq<char>, Seq<char>, RequirementModel)> {
    v.map_values(|e: (String, String, Requirement)| (e.0@, e.1@, e.2@))
}

/// The extraction is for the given scope and package.
pub open spec fn extraction_of(e: (Seq<char>, Seq<char>, RequirementModel), scope: Seq<char>, name: Seq<char>) -> bool {
    e.0 == scope && e.1 == name
}

/// The extractions after recording `(scope, name, req)`: it takes the
/// place of the first extraction for the same scope and package, or
/// comes last when there is none.
pub open spec fn recorded(
    es: Seq<(Seq<char>, Seq<char>, RequirementModel)>,
    scope: Seq<char>,
    name: Seq<char>,
    req: RequirementModel,
    out: Seq<(Seq<char>, Seq<char>, RequirementModel)>,
) -> bool {
    if exists|i: int| 0 <= i < es.len() && extraction_of(#[trigger] es[i], scope, name) {
        exists|i: int|
            0 <= i < es.len() && extraction_of(#[trigger] es[i], scope, name) && (forall|j: int|
                0 <= j < i ==> !extraction_of(#[trigger] es[j], scope, name)) && out == es.update(i, (scope, name, req))
    } else {
        out == es.push((scope, name, req))
    }
}

/// Records an extraction, in place of an earlier one for the same scope
/// and package.
fn record_extraction(extractions: &mut Vec<(String, String, Requirement)>, scope: &str, name: &str, req: &Requirement)
    ensures
        recorded(extractions_view(old(extractions)@), scope@, name@, req@, extractions_view(final(extractions)@)),
{
    let ghost ov = extractions_view(extractions@);
    let mut i: usize = 0;
    while i < extractions.len()
        invariant
            i <= extractions@.len(),
            ov == extractions_view(extractions@),
            extractions@ == old(extractions)@,
            forall|j: int| 0 <= j < i ==> !extraction_of(#[trigger] ov[j], scope@, name@),
        decreases extractions.len() - i,
    {
        if str_eq(extractions[i].0.as_str(), scope) && str_eq(extractions[i].1.as_str(), name) {
            let e = (scope.to_owned(), name.to_owned(), req.duplicate());
            assert(extraction_of(ov[i as int], scope@, name@));
            extractions.set(i, e);
            assert(extractions_view(extractions@) =~= ov.update(i as int, (scope@, name@, req@)));
            return;
        }
        i = i + 1;
    }
    extractions.push((scope.to_owned(), name.to_owned(), req.duplicate()));
    assert(extractions_view(extractions@) =~= ov.push((scope@, name@, req@)));
}

/// A copy of a list of extractions.
fn copy_extractions(v: &Vec<(String, String, Requirement)>) -> (r: Vec<(String, String, Requirement)>)
    ensures
        r@.len() == v@.len(),
{
    let mut r: Vec<(String, String, Requirement)> = Vec::new();
    let mut i: usize = 0;
    while i < v.len()
        invariant
            i <= v@.len(),
            r@.len() == i,
        decreases v.len() - i,
    {
        r.push((v[i].0.clone(), v[i].1.clone(), v[i].2.duplicate()));
        i = i + 1;
    }
    r
}

/// A copy of a failure.
fn copy_failure(f: &FailureReason) -> (r: FailureReason)
    ensures
        same_failure(r, *f),
{
    match f {
        FailureReason::TotalReduction(rs) => {
            let mut v: Vec<crate::variant::Reduction> = Vec::new();
            let mut i: usize = 0;
            while i < rs.len()
                invariant
                    i <= rs@.len(),
                    v@.len() == i,
                    forall|k: int| 0 <= k < i ==> same_reduction(#[trigger] v@[k], rs@[k]),
                decreases rs.len() - i,
            {
                let r = &rs[i];
                v.push(
                    crate::variant::Reduction {
                        name: r.name.clone(),
                        version: r.version.duplicate(),
                        variant_index: r.variant_index,
                        dependency: r.dependency.duplicate(),
                        conflicting_request: r.conflicting_request.duplicate(),
                    },
                );
                i = i + 1;
            }
            FailureReason::TotalReduction(v)
        },
        FailureReason::DependencyConflicts(cs) => {
            let mut v: Vec<DependencyConflict> = Vec::new();
            let mut i: usize = 0;
            while i < cs.len()
                invariant
                    i <= cs@.len(),
                    v@.len() == i,
                    forall|k: int| 0 <= k < i ==> same_conflict(#[trigger] v@[k], cs@[k]),
                decreases cs.len() - i,
            {
                v.push(
                    DependencyConflict {
                        dependency: cs[i].dependency.duplicate(),
                        conflicting_request: cs[i].conflicting_request.duplicate(),
                    },
                );
                i = i + 1;
            }
            FailureReason::DependencyConflicts(v)
        },
        FailureReason::Cycle(ps) => {
            let mut v: Vec<(String, crate::version::RerVersion)> = Vec::new();
            let mut i: usize = 0;
            while i < ps.len()
                invariant
                    i <= ps@.len(),
                    v@.len() == i,
                    forall|k: int| 0 <= k < i ==> (#[trigger] v@[k]).0@ == ps@[k].0@ && v@[k].1@ == ps@[k].1@,
                decreases ps.len() - i,
            {
                v.push((ps[i].0.clone(), ps[i].1.duplicate()));
                i = i + 1;
            }
            FailureReason::Cycle(v)
        },
    }
}

/// `e` is the error of the request of index `i`, all those before it
/// being requests that scopes can be made for.
pub open spec fn first_error_at(
    repo: Seq<(Seq<char>, FamilyModel)>,
    reqs: Seq<RequirementModel>,
    e: ScopeError,
    i: int,
) -> bool {
    &&& 0 <= i < reqs.len()
    &&& forall|k: int| 0 <= k < i ==> request_ok(repo, #[trigger] reqs[k])
    &&& request_error(repo, reqs[i], e)
}

/// `e` is the error of the first request that no scope can be made for.
pub open spec fn first_request_error(repo: Seq<(Seq<char>, FamilyModel)>, reqs: Seq<RequirementModel>, e: ScopeError) -> bool {
    exists|i: int| #[trigger] first_error_at(repo, reqs, e, i)
}

impl ResolvePhase {
    /// The first phase of a resolve: a scope for each merged request
    /// (every one marked changed, so the first reduction compares all of
    /// them); an error when a request names a missing package or version.
    pub fn new(ctx: &SolverContext) -> (r: Result<ResolvePhase, ScopeError>)
        ensures
            r matches Ok(p) ==> p@.status == SolverStatus::Pending && !p@.failed && p@.scopes.len()
                == ctx.request_list@.requirements.len() && forall|i: int| 0 <= i < p@.scopes.len() ==> (#[trigger] p@.scopes[i]).package_name
                == ctx.request_list@.requirements[i].name,
            r is Ok ==> forall|i: int| 0 <= i < ctx.request_list@.requirements.len() ==> request_ok(
                ctx.repo@,
                #[trigger] ctx.request_list@.requirements[i],
            ),
            r matches Err(e) ==> first_request_error(ctx.repo@, ctx.request_list@.requirements, e),
            r matches Ok(p) ==> phase_fits(p@.scopes, ctx.request_list@.requirements),
    {
        ctx.request_list.check_distinct();
        let ghost rq = ctx.request_list@.requirements;
        let reqs = ctx.request_list.requirements();
        let mut scopes: Vec<PackageScope> = Vec::new();
        let mut i: usize = 0;
        while i < reqs.len()
            invariant
                i <= reqs@.len(),
                crate::requirement::reqs_view(reqs@) == ctx.request_list@.requirements,
                scopes@.len() == i,
                forall|k: int| 0 <= k < i ==> (#[trigger] scopes_view(scopes@)[k]).package_name == ctx.request_list@.requirements[k].name,
                forall|k: int| 0 <= k < i ==> request_ok(ctx.repo@, #[trigger] ctx.request_list@.requirements[k]),
                rq == ctx.request_list@.requirements,
                crate::requirement::names_distinct(rq),
                forall|k: int| 0 <= k < i ==> scope_fits(#[trigger] scopes_view(scopes@)[k], rq),
            decreases reqs.len() - i,
        {
            assert(ctx.request_list@.requirements[i as int] == reqs@[i as int]@);
            let scope = match PackageScope::new(reqs[i].duplicate(), ctx) {
                Ok(s) => s,
                Err(e) => {
                    assert(first_error_at(ctx.repo@, ctx.request_list@.requirements, e, i as int));
                    return Err(e);
                },
            };
            let ghost before = scopes_view(scopes@);
            scope.check_wf();
            proof {
                let sm = scope@;
                assert(sm.package_name == rq[i as int].name);
                if names_normal_request(rq, sm.package_name) {
                    let k = choose|k: int| 0 <= k < rq.len() && !(#[trigger] rq[k]).conflict && rq[k].name == sm.package_name;
                    if k != i {
                        if k < i {
                            assert(rq[k].name != rq[i as int].name);
                        } else {
                            assert(rq[i as int].name != rq[k].name);
                        }
                    }
                    assert(!rq[i as int].conflict);
                    assert(!sm.package_request.conflict);
                }
                if sm.slice is Some {
                    let es = sm.slice.unwrap().entries;
                    assert forall|a: int, b: int| 0 <= a < es.len() && 0 <= b < es[a].variants.len() implies fits(
                        (#[trigger] es[a].variants[b])@,
                        sm.package_name,
                        rq,
                    ) by {
                        assert forall|k: int| 0 <= k < rq.len() && !(#[trigger] rq[k]).conflict && rq[k].name
                            == sm.package_name implies crate::range_model::range_contains(
                            request_range(rq[k]),
                            es[a].variants[b]@.version,
                        ) by {
                            if k != i {
                                if k < i {
                                    assert(rq[k].name != rq[i as int].name);
                                } else {
                                    assert(rq[i as int].name != rq[k].name);
                                }
                            }
                        }
                    }
                }
                assert(scope_fits(sm, rq));
            }
            scopes.push(scope);
            proof {
                assert(scopes_view(scopes@) =~= before.push(scopes@[i as int]@));
                assert forall|k: int| 0 <= k < i + 1 implies scope_fits(#[trigger] scopes_view(scopes@)[k], rq) by {
                    if k < i {
                        assert(scopes_view(scopes@)[k] == before[k]);
                    }
                }
            }
            i = i + 1;
        }
        proof {
            let sv = scopes_view(scopes@);
            assert forall|k: int| 0 <= k < rq.len() implies has_scope(sv, (#[trigger] rq[k]).name) by {
                assert(sv[k].package_name == rq[k].name);
            }
        }
        let n = scopes.len();
        let mut changed: Vec<usize> = Vec::new();
        let mut k: usize = 0;
        while k < n
            invariant
                k <= n,
            decreases n - k,
        {
            changed.push(k);
            k = k + 1;
        }
        Ok(ResolvePhase {
            scopes,
            failure_reason: None,
            extractions: Vec::new(),
            changed_scopes_i: changed,
            status: SolverStatus::Pending,
        })
    }

    /// A phase that failed for `failure_reason`, with no scope.
    pub fn failed(failure_reason: FailureReason) -> (r: ResolvePhase)
        ensures
            r@.status == SolverStatus::Failed,
            r@.failed,
            r@.scopes.len() == 0,
            r.failure() == Some(failure_reason),
    {
        let r = ResolvePhase {
            scopes: Vec::new(),
            failure_reason: Some(failure_reason),
            extractions: Vec::new(),
            changed_scopes_i: Vec::new(),
            status: SolverStatus::Failed,
        };
        assert(scopes_view(r.scopes@) =~= Seq::<ScopeModel>::empty());
        r
    }

    /// The state of the phase.
    pub fn status(&self) -> (r: SolverStatus)
        ensures
            r == self@.status,
    {
        self.status
    }

    /// Why the phase failed, if it did.
    pub fn failure_reason(&self) -> (r: Option<&FailureReason>)
        ensures
            r is Some <==> self@.failed,
            r matches Some(f) ==> self.failure() == Some(*f),
            r is None ==> self.failure() is None,
    {
        match &self.failure_reason {
            Some(f) => Some(f),
            None => None,
        }
    }

    /// The scopes of the phase.
    pub fn scopes(&self) -> (r: &[PackageScope])
        ensures
            scopes_view(r@) == self@.scopes,
    {
        self.scopes.as_slice()
    }

    /// A copy of the phase (the variants are shared).
    pub fn duplicate(&self) -> (r: ResolvePhase)
        ensures
            r@ == self@,
            same_failure_opt(r.failure(), self.failure()),
    {
        let failure_reason = match &self.failure_reason {
            Some(f) => Some(copy_failure(f)),
            None => None,
        };
        ResolvePhase {
            scopes: copy_scopes(&self.scopes),
            failure_reason,
            extractions: copy_extractions(&self.extractions),
            changed_scopes_i: self.changed_scopes_i.clone(),
            status: self.status,
        }
    }

    /// The phase that a resolve step gives: `status`, or when there is
    /// none, solved if every scope is and exhausted otherwise.
    fn make_phase(
        scopes: Vec<PackageScope>,
        failure_reason: Option<FailureReason>,
        extractions: Vec<(String, String, Requirement)>,
        status: Option<SolverStatus>,
    ) -> (r: ResolvePhase)
        ensures
            r@.scopes == scopes_view(scopes@),
            r@.failed == failure_reason is Some,
            r.failure() == failure_reason,
            r@.status == match status {
                Some(s) => s,
                None => if all_solved(scopes_view(scopes@)) {
                    SolverStatus::Solved
                } else {
                    SolverStatus::Exhausted
                },
            },
    {
        let status = match status {
            Some(s) => s,
            None => if are_solved(&scopes) {
                SolverStatus::Solved
            } else {
                SolverStatus::Exhausted
            },
        };
        ResolvePhase { scopes, failure_reason, extractions, changed_scopes_i: Vec::new(), status }
    }
}

/// Whether some flag is set.
fn any_set(flags: &Vec<bool>) -> (b: bool)
    ensures
        b == exists|i: int| 0 <= i < flags@.len() && flags@[i],
{
    let mut i: usize = 0;
    while i < flags.len()
        invariant
            i <= flags@.len(),
            forall|k: int| 0 <= k < i ==> !flags@[k],
        decreases flags.len() - i,
    {
        if flags[i] {
            return true;
        }
        i = i + 1;
    }
    false
}

/// `n` unset flags.
fn unset_flags(n: usize) -> (r: Vec<bool>)
    ensures
        r@.len() == n,
        forall|k: int| 0 <= k < n ==> !#[trigger] r@[k],
{
    let mut r: Vec<bool> = Vec::new();
    let mut i: usize = 0;
    while i < n
        invariant
            i <= n,
            r@.len() == i,
            forall|k: int| 0 <= k < i ==> !#[trigger] r@[k],
        decreases n - i,
    {
        r.push(false);
        i = i + 1;
    }
    r
}

/// The range of a requirement, every version when it has none.
fn range_of(r: &Requirement) -> (x: VersionRange)
    ensures
        x@ == request_range(r@),
{
    match r.range() {
        Some(x) => x.duplicate(),
        None => VersionRange::any(),
    }
}

impl ResolvePhase {
    /// Runs the resolve on a pending phase until nothing changes, and
    /// returns the resulting phase: solved when every scope is resolved,
    /// exhausted when some scope still has several variants (it must be
    /// split), failed on a conflict, a total reduction or a missing
    /// package. A phase that is not pending is returned as it is.
    ///
    /// Each round extracts from every scope the packages all its variants
    /// require; merges those requirements (a conflict fails the phase);
    /// narrows the scopes of those packages (an empty one fails it); adds
    /// scopes for the new packages; then reduces every scope by the
    /// requests of the scopes that changed, until no scope changes. The
    /// resolve gives up, failing the phase, after `u64::MAX` steps.
    pub fn solve(&self, ctx: &SolverContext) -> (r: ResolvePhase)
        ensures
            self@.status != SolverStatus::Pending ==> r@ == self@ && same_failure_opt(r.failure(), self.failure()),
            self@.status == SolverStatus::Pending ==> match r.failure() {
                Some(f) => (f is TotalReduction && f->TotalReduction_0@.len() > 0) || (f is DependencyConflicts
                    && f->DependencyConflicts_0@.len() == 1 && f->DependencyConflicts_0@[0].dependency@.name
                    == f->DependencyConflicts_0@[0].conflicting_request@.name),
                None => true,
            },
            self@.status == SolverStatus::Pending ==> (r@.status == SolverStatus::Solved || r@.status
                == SolverStatus::Exhausted || r@.status == SolverStatus::Failed),
            self@.status == SolverStatus::Pending && r@.status == SolverStatus::Solved ==> all_solved(r@.scopes)
                && !r@.failed,
            self@.status == SolverStatus::Pending && r@.status == SolverStatus::Exhausted ==> !all_solved(r@.scopes)
                && !r@.failed,
            self@.status == SolverStatus::Pending && (r@.status == SolverStatus::Solved || r@.status
                == SolverStatus::Exhausted) ==> none_extractable(r@.scopes),
            self@.status == SolverStatus::Pending ==> scopes_within(r@.scopes, self@.scopes),
            phase_fits(self@.scopes, ctx.request_list@.requirements) ==> phase_fits(r@.scopes, ctx.request_list@.requirements),
    {
        if self.status != SolverStatus::Pending {
            return self.duplicate();
        }
        let mut scopes = copy_scopes(&self.scopes);
        let ghost rq = ctx.request_list@.requirements;
        let mut extractions: Vec<(String, String, Requirement)> = Vec::new();
        let mut changed = unset_flags(scopes.len());
        let mut c: usize = 0;
        while c < self.changed_scopes_i.len()
            invariant
                changed@.len() == scopes@.len(),
                rq == ctx.request_list@.requirements,
                phase_fits(self@.scopes, rq) ==> phase_fits(scopes_view(scopes@), rq),
                scopes_within(scopes_view(scopes@), self@.scopes),
            decreases self.changed_scopes_i.len() - c,
        {
            let k = self.changed_scopes_i[c];
            if k < changed.len() {
                changed.set(k, true);
            }
            c = c + 1;
        }
        let mut steps: u64 = u64::MAX;
        loop
            invariant
                changed@.len() == scopes@.len(),
                self@.status == SolverStatus::Pending,
                rq == ctx.request_list@.requirements,
                phase_fits(self@.scopes, rq) ==> phase_fits(scopes_view(scopes@), rq),
                scopes_within(scopes_view(scopes@), self@.scopes),
            ensures
                self@.status == SolverStatus::Pending,
                phase_fits(self@.scopes, rq) ==> phase_fits(scopes_view(scopes@), rq),
                scopes_within(scopes_view(scopes@), self@.scopes),
                none_extractable(scopes_view(scopes@)),
            decreases steps,
        {
            if steps == 0 {
                return Self::make_phase(scopes, None, extractions, Some(SolverStatus::Failed));
            }
            steps = steps - 1;
            let ghost t1 = steps;
            let prev_num_scopes = scopes.len();
            let mut widened = unset_flags(scopes.len());
            // extract, merge, intersect and add until nothing is extracted
            loop
                invariant
                    changed@.len() == scopes@.len(),
                    widened@.len() == scopes@.len(),
                    prev_num_scopes <= scopes@.len(),
                    self@.status == SolverStatus::Pending,
                    rq == ctx.request_list@.requirements,
                    phase_fits(self@.scopes, rq) ==> phase_fits(scopes_view(scopes@), rq),
                    scopes_within(scopes_view(scopes@), self@.scopes),
                    steps <= t1,
                ensures
                    changed@.len() == scopes@.len(),
                    widened@.len() == scopes@.len(),
                    prev_num_scopes <= scopes@.len(),
                    self@.status == SolverStatus::Pending,
                    rq == ctx.request_list@.requirements,
                    phase_fits(self@.scopes, rq) ==> phase_fits(scopes_view(scopes@), rq),
                    scopes_within(scopes_view(scopes@), self@.scopes),
                    steps <= t1,
                    none_extractable(scopes_view(scopes@)),
                decreases steps,
            {
                if steps == 0 {
                    return Self::make_phase(scopes, None, extractions, Some(SolverStatus::Failed));
                }
                steps = steps - 1;
                let ghost t2 = steps;
                let mut extracted_requests: Vec<Requirement> = Vec::new();
                let mut i: usize = 0;
                while i < scopes.len()
                    invariant
                        i <= scopes@.len(),
                        changed@.len() == scopes@.len(),
                        widened@.len() == scopes@.len(),
                        prev_num_scopes <= scopes@.len(),
                        self@.status == SolverStatus::Pending,
                        rq == ctx.request_list@.requirements,
                        phase_fits(self@.scopes, rq) ==> phase_fits(scopes_view(scopes@), rq),
                        scopes_within(scopes_view(scopes@), self@.scopes),
                        steps <= t2,
                        t2 <= t1,
                        extracted_requests@.len() == 0 ==> forall|t: int|
                            0 <= t < i ==> #[trigger] not_extractable(scopes_view(scopes@)[t]),
                    decreases scopes.len() - i,
                {
                    loop
                        invariant
                            extracted_requests@.len() == 0 ==> forall|t: int|
                                0 <= t < i ==> #[trigger] not_extractable(scopes_view(scopes@)[t]),
                            i < scopes@.len(),
                            changed@.len() == scopes@.len(),
                            widened@.len() == scopes@.len(),
                            prev_num_scopes <= scopes@.len(),
                            self@.status == SolverStatus::Pending,
                            rq == ctx.request_list@.requirements,
                            phase_fits(self@.scopes, rq) ==> phase_fits(scopes_view(scopes@), rq),
                            scopes_within(scopes_view(scopes@), self@.scopes),
                            steps <= t2,
                            t2 <= t1,
                        ensures
                            extracted_requests@.len() == 0 ==> forall|t: int|
                                0 <= t < i + 1 ==> #[trigger] not_extractable(scopes_view(scopes@)[t]),
                            i < scopes@.len(),
                            changed@.len() == scopes@.len(),
                            widened@.len() == scopes@.len(),
                            prev_num_scopes <= scopes@.len(),
                            self@.status == SolverStatus::Pending,
                            rq == ctx.request_list@.requirements,
                            phase_fits(self@.scopes, rq) ==> phase_fits(scopes_view(scopes@), rq),
                            scopes_within(scopes_view(scopes@), self@.scopes),
                            steps <= t2,
                            t2 <= t1,
                        decreases steps,
                    {
                        if steps == 0 {
                            return Self::make_phase(scopes, None, extractions, Some(SolverStatus::Failed));
                        }
                        steps = steps - 1;
                        scopes[i].check_wf();
                        match scopes[i].extract() {
                            Some((scope, req)) => {
                                record_extraction(&mut extractions, scopes[i].package_name(), req.name(), &req);
                                let ghost sv0 = scopes_view(scopes@);
                                let ghost ns = scope@;
                                proof {
                                    crate::variant_slice::lemma_within_refl(sv0[i as int].slice.unwrap().entries);
                                    lemma_within_update(sv0, self@.scopes, i as int, ns);
                                    if phase_fits(self@.scopes, rq) {
                                        lemma_narrowed_fits(sv0[i as int], ns, rq);
                                        lemma_update_fits(sv0, i as int, ns, rq);
                                    }
                                }
                                scopes.set(i, scope);
                                proof {
                                    assert(scopes_view(scopes@) =~= sv0.update(i as int, ns));
                                }
                                extracted_requests.push(req);
                            },
                            None => {
                                proof {
                                    let sv = scopes_view(scopes@);
                                    assert(not_extractable(sv[i as int]));
                                    assert forall|t: int| 0 <= t < i + 1 && extracted_requests@.len() == 0 implies #[trigger] not_extractable(
                                        sv[t],
                                    ) by {}
                                }
                                break;
                            },
                        }
                    }
                    i = i + 1;
                }
                if extracted_requests.len() == 0 {
                    proof {
                        assert forall|t: int| 0 <= t < scopes_view(scopes@).len() implies #[trigger] not_extractable(
                            scopes_view(scopes@)[t],
                        ) by {}
                    }
                    break;
                }
                // merge the extracted requirements
                let ghost xr = reqs_view(extracted_requests@);
                let extracted = RequirementList::new(extracted_requests);
                match extracted.conflict() {
                    Some(pair) => {
                        proof {
                            crate::requirement::lemma_fold_conflict_pair(xr);
                        }
                        let failure = conflict_failure(pair.0.duplicate(), pair.1.duplicate());
                        return Self::make_phase(scopes, Some(failure), extractions, Some(SolverStatus::Failed));
                    },
                    None => {},
                }
                // narrow the scopes of the extracted packages
                let mut req_fams: Vec<String> = Vec::new();
                let mut i: usize = 0;
                let ghost n_before = scopes@.len();
                while i < scopes.len()
                    invariant
                        i <= scopes@.len(),
                        scopes@.len() == n_before,
                        extracted@.conflict is None,
                        forall|t: int| 0 <= t < i ==> (#[trigger] find_name_from(
                            extracted@.by_name,
                            scopes_view(scopes@)[t].package_name,
                            0,
                        )) is Some ==> strings_view(req_fams@).contains(scopes_view(scopes@)[t].package_name),
                        changed@.len() == scopes@.len(),
                        widened@.len() == scopes@.len(),
                        prev_num_scopes <= scopes@.len(),
                        self@.status == SolverStatus::Pending,
                        rq == ctx.request_list@.requirements,
                        phase_fits(self@.scopes, rq) ==> phase_fits(scopes_view(scopes@), rq),
                        scopes_within(scopes_view(scopes@), self@.scopes),
                        steps <= t2,
                        t2 <= t1,
                    decreases scopes.len() - i,
                {
                    let ghost sv_in = scopes_view(scopes@);
                    let ghost fams_in = strings_view(req_fams@);
                    match extracted.get(scopes[i].package_name()) {
                        None => {},
                        Some(req) => {
                            proof {
                                let k = find_name_from(extracted@.by_name, sv_in[i as int].package_name, 0).unwrap();
                                crate::requirement::lemma_find_name_from(extracted@.by_name, sv_in[i as int].package_name, 0);
                                assert(req@.name == sv_in[i as int].package_name);
                            }
                            req_fams.push(req.name().to_owned());
                            proof {
                                assert(strings_view(req_fams@) =~= fams_in.push(sv_in[i as int].package_name));
                                assert forall|x: Seq<char>| fams_in.contains(x) implies strings_view(req_fams@).contains(x) by {
                                    let t = choose|t: int| 0 <= t < fams_in.len() && fams_in[t] == x;
                                    assert(strings_view(req_fams@)[t] == x);
                                }
                                assert(strings_view(req_fams@)[fams_in.len() as int] == sv_in[i as int].package_name);
                            }
                            let was_conflict = scopes[i].is_conflict();
                            let range = range_of(req);
                            scopes[i].check_wf();
                            match scopes[i].intersect(&range, ctx) {
                                ScopeIntersect::Empty => {
                                    let failure = conflict_failure(req.duplicate(), scopes[i].package_request().duplicate());
                                    return Self::make_phase(scopes, Some(failure), extractions, Some(SolverStatus::Failed));
                                },
                                ScopeIntersect::Unchanged => {},
                                ScopeIntersect::Narrowed(scope) => {
                                    let now_conflict = scope.is_conflict();
                                    let ghost sv0 = scopes_view(scopes@);
                                    let ghost ns = scope@;
                                    proof {
                                        lemma_within_update(sv0, self@.scopes, i as int, ns);
                                        if phase_fits(self@.scopes, rq) {
                                            lemma_narrowed_fits(sv0[i as int], ns, rq);
                                            lemma_update_fits(sv0, i as int, ns, rq);
                                        }
                                    }
                                    scopes.set(i, scope);
                                    proof {
                                        assert(scopes_view(scopes@) =~= sv0.update(i as int, ns));
                                    }
                                    changed.set(i, true);
                                    if was_conflict && !now_conflict {
                                        widened.set(i, true);
                                    }
                                },
                            }
                        },
                    }
                    proof {
                        let sv = scopes_view(scopes@);
                        assert(sv[i as int].package_name == sv_in[i as int].package_name);
                        assert forall|t: int| 0 <= t < i + 1 implies (#[trigger] find_name_from(
                            extracted@.by_name,
                            scopes_view(scopes@)[t].package_name,
                            0,
                        )) is Some ==> strings_view(req_fams@).contains(scopes_view(scopes@)[t].package_name) by {
                            if t < i {
                                assert(sv[t] == sv_in[t]);
                                if find_name_from(extracted@.by_name, sv_in[t].package_name, 0) is Some {
                                    assert(fams_in.contains(sv_in[t].package_name));
                                    let u = choose|u: int| 0 <= u < fams_in.len() && fams_in[u] == sv_in[t].package_name;
                                    assert(strings_view(req_fams@)[u] == fams_in[u]);
                                }
                            } else if find_name_from(extracted@.by_name, sv[t].package_name, 0) is Some {
                                assert(strings_view(req_fams@)[strings_view(req_fams@).len() - 1] == sv[t].package_name);
                            }
                        }
                    }
                    i = i + 1;
                }
                // add scopes for the packages that have none
                let reqs = extracted.requirements();
                extracted.check_distinct();
                let ghost n1 = scopes@.len();
                let mut j: usize = 0;
                while j < reqs.len()
                    invariant
                        j <= reqs@.len(),
                        n1 <= scopes@.len(),
                        extracted@.conflict is None,
                        reqs_view(reqs@) == extracted@.requirements,
                        extracted@.requirements == extracted@.by_name,
                        crate::requirement::names_distinct(extracted@.requirements),
                        forall|t: int| 0 <= t < n1 ==> (#[trigger] find_name_from(
                            extracted@.by_name,
                            scopes_view(scopes@)[t].package_name,
                            0,
                        )) is Some ==> strings_view(req_fams@).contains(scopes_view(scopes@)[t].package_name),
                        forall|t: int| n1 <= t < scopes@.len() ==> #[trigger] named_before(
                            extracted@.requirements,
                            j as int,
                            scopes_view(scopes@)[t].package_name,
                        ),
                        changed@.len() == scopes@.len(),
                        widened@.len() == scopes@.len(),
                        prev_num_scopes <= scopes@.len(),
                        self@.status == SolverStatus::Pending,
                        rq == ctx.request_list@.requirements,
                        phase_fits(self@.scopes, rq) ==> phase_fits(scopes_view(scopes@), rq),
                        scopes_within(scopes_view(scopes@), self@.scopes),
                        steps <= t2,
                        t2 <= t1,
                    decreases reqs.len() - j,
                {
                    let ghost sv_in = scopes_view(scopes@);
                    if !crate::variant::holds(req_fams.as_slice(), reqs[j].name()) {
                        match PackageScope::new(reqs[j].duplicate(), ctx) {
                            Ok(scope) => {
                                let ghost ns = scope@;
                                proof {
                                    let er = extracted@.requirements;
                                    let m = er[j as int].name;
                                    assert(reqs@[j as int]@ == er[j as int]);
                                    assert(ns.package_name == m);
                                    assert(!has_scope(sv_in, m)) by {
                                        if has_scope(sv_in, m) {
                                            let t = choose|t: int| 0 <= t < sv_in.len() && (#[trigger] sv_in[t]).package_name == m;
                                            if t < n1 {
                                                crate::requirement::lemma_find_name_from(extracted@.by_name, m, 0);
                                                assert(extracted@.by_name[j as int].name == m);
                                                assert(find_name_from(extracted@.by_name, sv_in[t].package_name, 0) is Some);
                                            } else {
                                                assert(named_before(er, j as int, sv_in[t].package_name));
                                                let j2 = choose|j2: int| 0 <= j2 < j && (#[trigger] er[j2]).name == sv_in[t].package_name;
                                                assert(er[j2].name != er[j as int].name);
                                            }
                                        }
                                    }
                                    if ns.slice is Some {
                                        let es = ns.slice.unwrap().entries;
                                        assert(variants_in(es, m, request_range(er[j as int])));
                                        assert forall|a: int, b: int| 0 <= a < es.len() && 0 <= b < es[a].variants.len() implies (#[trigger] es[a].variants[b])@.name
                                            == ns.package_name by {
                                        }
                                    }
                                    lemma_within_push(sv_in, self@.scopes, ns);
                                    if phase_fits(self@.scopes, rq) {
                                        lemma_fresh_fits(sv_in, ns, rq);
                                        lemma_push_fits(sv_in, ns, rq);
                                    }
                                }
                                scopes.push(scope);
                                proof {
                                    let sv = scopes_view(scopes@);
                                    assert(sv =~= sv_in.push(ns));
                                    assert forall|t: int| n1 <= t < sv.len() implies #[trigger] named_before(
                                        extracted@.requirements,
                                        j + 1,
                                        sv[t].package_name,
                                    ) by {
                                        if t < sv_in.len() {
                                            assert(sv[t] == sv_in[t]);
                                            assert(named_before(extracted@.requirements, j as int, sv_in[t].package_name));
                                            let j2 = choose|j2: int| 0 <= j2 < j && (#[trigger] extracted@.requirements[j2]).name == sv_in[t].package_name;
                                        } else {
                                            assert(extracted@.requirements[j as int].name == sv[t].package_name);
                                        }
                                    }
                                    assert forall|t: int| 0 <= t < n1 implies sv[t] == sv_in[t] by {}
                                }
                                changed.push(false);
                                widened.push(false);
                            },
                            Err(err) => {
                                let failure = match err {
                                    ScopeError::FamilyNotFound(n) => conflict_failure(
                                        Requirement::construct(n.clone(), None),
                                        Requirement::construct(n, None),
                                    ),
                                    ScopeError::PackageNotFound(q) => conflict_failure(
                                        Requirement::construct(q.name().to_owned(), None),
                                        q,
                                    ),
                                };
                                return Self::make_phase(scopes, Some(failure), extractions, Some(SolverStatus::Failed));
                            },
                        }
                    }
                    proof {
                        let sv = scopes_view(scopes@);
                        assert forall|t: int| n1 <= t < sv.len() implies #[trigger] named_before(
                            extracted@.requirements,
                            j + 1,
                            sv[t].package_name,
                        ) by {
                            if t < sv_in.len() {
                                assert(named_before(extracted@.requirements, j as int, sv_in[t].package_name));
                                let j2 = choose|j2: int| 0 <= j2 < j && (#[trigger] extracted@.requirements[j2]).name == sv_in[t].package_name;
                                assert(sv[t] == sv_in[t]);
                            } else {
                                assert(extracted@.requirements[j as int].name == sv[t].package_name);
                            }
                        }
                    }
                    j = j + 1;
                }
            }
            let num_scopes = scopes.len();
            if num_scopes == prev_num_scopes && !any_set(&changed) && !any_set(&widened) {
                break;
            }
            // the pairs (x, y): reduce scope x by the request of scope y
            let mut pending: Vec<(usize, usize)> = Vec::new();
            let mut x: usize = 0;
            while x < num_scopes
                invariant
                    x <= num_scopes,
                    num_scopes == scopes@.len(),
                    changed@.len() == scopes@.len(),
                    widened@.len() == scopes@.len(),
                    forall|k: int| 0 <= k < pending@.len() ==> (#[trigger] pending@[k]).0 < num_scopes && pending@[k].1 < num_scopes,
                    rq == ctx.request_list@.requirements,
                    phase_fits(self@.scopes, rq) ==> phase_fits(scopes_view(scopes@), rq),
                    scopes_within(scopes_view(scopes@), self@.scopes),
                    self@.status == SolverStatus::Pending,
                decreases num_scopes - x,
            {
                let mut y: usize = 0;
                while y < num_scopes
                    invariant
                        x < num_scopes,
                        y <= num_scopes,
                        num_scopes == scopes@.len(),
                        changed@.len() == scopes@.len(),
                        widened@.len() == scopes@.len(),
                        forall|k: int| 0 <= k < pending@.len() ==> (#[trigger] pending@[k]).0 < num_scopes && pending@[k].1 < num_scopes,
                        rq == ctx.request_list@.requirements,
                        phase_fits(self@.scopes, rq) ==> phase_fits(scopes_view(scopes@), rq),
                        scopes_within(scopes_view(scopes@), self@.scopes),
                        self@.status == SolverStatus::Pending,
                    decreases num_scopes - y,
                {
                    let wanted = (x < prev_num_scopes && (changed[y] || y >= prev_num_scopes)) || x >= prev_num_scopes
                        || widened[x];
                    if wanted {
                        pending.push((x, y));
                    }
                    y = y + 1;
                }
                x = x + 1;
            }
            // reduce, latest pair first
            while pending.len() > 0
                invariant
                    num_scopes == scopes@.len(),
                    changed@.len() == scopes@.len(),
                    self@.status == SolverStatus::Pending,
                    rq == ctx.request_list@.requirements,
                    phase_fits(self@.scopes, rq) ==> phase_fits(scopes_view(scopes@), rq),
                    scopes_within(scopes_view(scopes@), self@.scopes),
                    steps <= t1,
                    forall|k: int| 0 <= k < pending@.len() ==> (#[trigger] pending@[k]).0 < num_scopes && pending@[k].1 < num_scopes,
                decreases steps,
            {
                if steps == 0 {
                    return Self::make_phase(scopes, None, extractions, Some(SolverStatus::Failed));
                }
                steps = steps - 1;
                let (x, y) = pending.pop().unwrap();
                assert(x < num_scopes && y < num_scopes);
                if x != y {
                    let request = scopes[y].package_request().duplicate();
                    let (result, reductions) = scopes[x].reduce_by(&request);
                    match result {
                        ScopeReduce::Empty => {
                            let failure = FailureReason::TotalReduction(reductions);
                            return Self::make_phase(scopes, Some(failure), extractions, Some(SolverStatus::Failed));
                        },
                        ScopeReduce::Reduced(scope) => {
                            let ghost sv0 = scopes_view(scopes@);
                            let ghost ns = scope@;
                            proof {
                                lemma_within_update(sv0, self@.scopes, x as int, ns);
                                if phase_fits(self@.scopes, rq) {
                                    lemma_narrowed_fits(sv0[x as int], ns, rq);
                                    lemma_update_fits(sv0, x as int, ns, rq);
                                }
                            }
                            scopes.set(x, scope);
                            proof {
                                assert(scopes_view(scopes@) =~= sv0.update(x as int, ns));
                            }
                            let mut j: usize = 0;
                            while j < num_scopes
                                invariant
                                    j <= num_scopes,
                                    x < num_scopes,
                                    num_scopes == scopes@.len(),
                                    forall|k: int| 0 <= k < pending@.len() ==> (#[trigger] pending@[k]).0 < num_scopes && pending@[k].1 < num_scopes,
                                    rq == ctx.request_list@.requirements,
                                    phase_fits(self@.scopes, rq) ==> phase_fits(scopes_view(scopes@), rq),
                                    scopes_within(scopes_view(scopes@), self@.scopes),
                                decreases num_scopes - j,
                            {
                                if j != x {
                                    pending.push((j, x));
                                }
                                j = j + 1;
                            }
                        },
                        ScopeReduce::Unchanged => {},
                    }
                }
            }
            changed = unset_flags(num_scopes);
        }
        Self::make_phase(scopes, None, extractions, None)
    }
}

/// Each scope of `orig` that holds variants is still there, at the same
/// place, holding some of its variants.
pub open spec fn scopes_within(ss: Seq<ScopeModel>, orig: Seq<ScopeModel>) -> bool {
    &&& orig.len() <= ss.len()
    &&& forall|t: int| 0 <= t < orig.len() && (#[trigger] orig[t]).slice is Some ==> ss[t].slice is Some && variants_within(
        ss[t].slice.unwrap().entries,
        orig[t].slice.unwrap().entries,
    )
}

/// Variants among some that are among others are among those.
proof fn lemma_within_trans(a: Seq<crate::variant_slice::EntryModel>, b: Seq<crate::variant_slice::EntryModel>, c: Seq<crate::variant_slice::EntryModel>)
    requires
        variants_within(a, b),
        variants_within(b, c),
    ensures
        variants_within(a, c),
{
    assert forall|i: int, j: int| 0 <= i < a.len() && 0 <= j < a[i].variants.len() implies has_variant(
        c,
        #[trigger] a[i].variants[j],
    ) by {
        assert(has_variant(b, a[i].variants[j]));
        let (i2, j2) = choose|i2: int, j2: int| 0 <= i2 < b.len() && 0 <= j2 < b[i2].variants.len() && #[trigger] b[i2].variants[j2] == a[i].variants[j];
        assert(has_variant(c, b[i2].variants[j2]));
    }
}

/// Replacing a scope by one holding some of its variants keeps the scopes
/// within the original ones.
proof fn lemma_within_update(ss: Seq<ScopeModel>, orig: Seq<ScopeModel>, k: int, ns: ScopeModel)
    requires
        scopes_within(ss, orig),
        0 <= k < ss.len(),
        ss[k].slice is Some ==> ns.slice is Some && variants_within(ns.slice.unwrap().entries, ss[k].slice.unwrap().entries),
    ensures
        scopes_within(ss.update(k, ns), orig),
{
    let u = ss.update(k, ns);
    assert forall|t: int| 0 <= t < orig.len() && (#[trigger] orig[t]).slice is Some implies u[t].slice is Some && variants_within(
        u[t].slice.unwrap().entries,
        orig[t].slice.unwrap().entries,
    ) by {
        if t == k {
            lemma_within_trans(ns.slice.unwrap().entries, ss[k].slice.unwrap().entries, orig[t].slice.unwrap().entries);
        }
    }
}

/// Adding a scope keeps the scopes within the original ones.
proof fn lemma_within_push(ss: Seq<ScopeModel>, orig: Seq<ScopeModel>, ns: ScopeModel)
    requires
        scopes_within(ss, orig),
    ensures
        scopes_within(ss.push(ns), orig),
{
    let u = ss.push(ns);
    assert forall|t: int| 0 <= t < orig.len() && (#[trigger] orig[t]).slice is Some implies u[t].slice is Some && variants_within(
        u[t].slice.unwrap().entries,
        orig[t].slice.unwrap().entries,
    ) by {
        assert(u[t] == ss[t]);
    }
}

/// The scopes that are not conflicts, in order.
pub open spec fn normal_scopes(scopes: Seq<ScopeModel>) -> Seq<ScopeModel>
    decreases scopes.len(),
{
    if scopes.len() == 0 {
        Seq::empty()
    } else if scopes.last().package_request.conflict {
        normal_scopes(scopes.drop_last())
    } else {
        normal_scopes(scopes.drop_last()).push(scopes.last())
    }
}

/// Some scope is not a conflict and is of package `name`.
pub open spec fn normal_named(scopes: Seq<ScopeModel>, name: Seq<char>) -> bool {
    exists|t: int| 0 <= t < scopes.len() && normal_scope_of(#[trigger] scopes[t], name)
}

/// `rs` are scopes of `ss`, taken at the distinct positions `picked`.
pub open spec fn picks(rs: Seq<ScopeModel>, ss: Seq<ScopeModel>, picked: Seq<int>) -> bool {
    &&& picked.len() == rs.len()
    &&& forall|q: int| 0 <= q < picked.len() ==> 0 <= #[trigger] picked[q] < ss.len() && rs[q] == ss[picked[q]]
    &&& forall|q1: int, q2: int| 0 <= q1 < q2 < picked.len() ==> #[trigger] picked[q1] != #[trigger] picked[q2]
}

/// Two optional failures that are both absent, or the same failure.
pub open spec fn same_failure_opt(a: Option<FailureReason>, b: Option<FailureReason>) -> bool {
    match (a, b) {
        (None, None) => true,
        (Some(x), Some(y)) => same_failure(x, y),
        _ => false,
    }
}

/// The resolved variant of a scope requires package `b`, by a requirement
/// that is not a conflict.
pub open spec fn solved_requires(m: ScopeModel, b: Seq<char>) -> bool {
    match m.slice {
        Some(sl) => scope_solved(m) && exists|k: int|
            0 <= k < flat(sl.entries)[0]@.requires.requirements.len() && !(#[trigger] flat(
                sl.entries,
            )[0]@.requires.requirements[k]).conflict && flat(sl.entries)[0]@.requires.requirements[k].name == b,
        None => false,
    }
}

/// A resolved scope of package `a` that is not a conflict requires `b`.
pub open spec fn requires_edge(scopes: Seq<ScopeModel>, a: Seq<char>, b: Seq<char>) -> bool {
    exists|t: int| 0 <= t < scopes.len() && normal_scope_of(#[trigger] scopes[t], a) && solved_requires(scopes[t], b)
}

/// The graph of the resolved packages: a node for each scope that is not a
/// conflict, and an edge from each such resolved package to each package
/// its variant requires by a requirement that is not a conflict.
pub open spec fn built_from(g: GraphModel, scopes: Seq<ScopeModel>) -> bool {
    &&& forall|t: int| 0 <= t < scopes.len() && !(#[trigger] scopes[t]).package_request.conflict ==> g.has_node(scopes[t].package_name)
    &&& forall|a: Seq<char>, b: Seq<char>| #[trigger] g.has_edge(a, b) == requires_edge(scopes, a, b)
}

/// Taking one more scope adds the edges of that scope.
proof fn lemma_requires_edge_step(scopes: Seq<ScopeModel>, i: int, a: Seq<char>, b: Seq<char>)
    requires
        0 <= i < scopes.len(),
    ensures
        requires_edge(scopes.take(i + 1), a, b) == (requires_edge(scopes.take(i), a, b) || (normal_scope_of(scopes[i], a)
            && solved_requires(scopes[i], b))),
{
    let s1 = scopes.take(i + 1);
    let s0 = scopes.take(i);
    if requires_edge(s1, a, b) {
        let t = choose|t: int| 0 <= t < s1.len() && normal_scope_of(#[trigger] s1[t], a) && solved_requires(s1[t], b);
        if t < i {
            assert(s0[t] == s1[t]);
        }
    }
    if requires_edge(s0, a, b) {
        let t = choose|t: int| 0 <= t < s0.len() && normal_scope_of(#[trigger] s0[t], a) && solved_requires(s0[t], b);
        assert(s1[t] == s0[t]);
    }
    if normal_scope_of(scopes[i], a) && solved_requires(scopes[i], b) {
        assert(s1[i] == scopes[i]);
    }
}

/// A scope with nothing left to extract: a conflict or an ephemeral, or a
/// slice whose variants require no further package in common.
pub open spec fn not_extractable(m: ScopeModel) -> bool {
    m.slice matches Some(sl) ==> !crate::variant_slice::extractable_model(sl)
}

/// No scope has anything left to extract.
pub open spec fn none_extractable(scopes: Seq<ScopeModel>) -> bool {
    forall|t: int| 0 <= t < scopes.len() ==> #[trigger] not_extractable(scopes[t])
}

/// The variants of the resolved normal scopes, in scope order.
pub open spec fn solved_of(scopes: Seq<ScopeModel>) -> Seq<Rc<PackageVariant>>
    decreases scopes.len(),
{
    if scopes.len() == 0 {
        Seq::empty()
    } else {
        let prev = solved_of(scopes.drop_last());
        let s = scopes.last();
        match s.slice {
            Some(sl) => if scope_solved(s) {
                prev.push(crate::variant_slice::flat(sl.entries)[0])
            } else {
                prev
            },
            None => prev,
        }
    }
}

/// The variant meets every request of `reqs` on its package.
pub open spec fn within_requests(w: crate::variant::VariantModel, reqs: Seq<RequirementModel>) -> bool {
    forall|k: int| 0 <= k < reqs.len() && (#[trigger] reqs[k]).name == w.name ==> satisfies(reqs[k], w.version)
}

/// No two scopes are of the same package.
pub open spec fn scope_names_distinct(scopes: Seq<ScopeModel>) -> bool {
    forall|q1: int, q2: int|
        0 <= q1 < q2 < scopes.len() ==> (#[trigger] scopes[q1]).package_name != (#[trigger] scopes[q2]).package_name
}

/// The variants resolved by fitting scopes are of the scopes' packages;
/// where no two scopes are of the same package, no two of those variants
/// are either.
pub proof fn lemma_solved_names(scopes: Seq<ScopeModel>, reqs: Seq<RequirementModel>)
    requires
        scopes_fit(scopes, reqs),
    ensures
        forall|i: int|
            0 <= i < solved_of(scopes).len() ==> exists|t: int|
                0 <= t < scopes.len() && (#[trigger] solved_of(scopes)[i])@.name == scopes[t].package_name,
        scope_names_distinct(scopes) ==> forall|i: int, j: int|
            0 <= i < j < solved_of(scopes).len() ==> (#[trigger] solved_of(scopes)[i])@.name != (#[trigger] solved_of(
                scopes,
            )[j])@.name,
    decreases scopes.len(),
{
    if scopes.len() > 0 {
        let init = scopes.drop_last();
        assert forall|i: int| 0 <= i < init.len() implies scope_fits(#[trigger] init[i], reqs) by {
            assert(init[i] == scopes[i]);
        }
        lemma_solved_names(init, reqs);
        let prev = solved_of(init);
        let sc = scopes.last();
        assert(scope_fits(scopes[scopes.len() - 1], reqs));
        assert forall|i: int| 0 <= i < prev.len() implies exists|t: int|
            0 <= t < scopes.len() && (#[trigger] prev[i])@.name == scopes[t].package_name by {
            let t = choose|t: int| 0 <= t < init.len() && (#[trigger] prev[i])@.name == init[t].package_name;
            assert(init[t] == scopes[t]);
        }
        if scope_names_distinct(scopes) {
            assert forall|q1: int, q2: int| 0 <= q1 < q2 < init.len() implies (#[trigger] init[q1]).package_name != (#[trigger] init[q2]).package_name by {
                assert(init[q1] == scopes[q1] && init[q2] == scopes[q2]);
            }
        }
        if let Some(sl) = sc.slice {
            if scope_solved(sc) {
                let x = crate::variant_slice::flat(sl.entries)[0];
                crate::variant_slice::lemma_has_variant_flat(sl.entries, x);
                assert(crate::variant_slice::flat(sl.entries).contains(x));
                let (a, b) = choose|a: int, b: int| 0 <= a < sl.entries.len() && 0 <= b < sl.entries[a].variants.len()
                    && sl.entries[a].variants[b] == x;
                assert(fits(sl.entries[a].variants[b]@, sc.package_name, reqs));
                let cur = prev.push(x);
                assert(cur == solved_of(scopes));
                assert forall|i: int| 0 <= i < cur.len() implies exists|t: int|
                    0 <= t < scopes.len() && (#[trigger] cur[i])@.name == scopes[t].package_name by {
                    if i < prev.len() {
                        assert(cur[i] == prev[i]);
                    } else {
                        assert(cur[i]@.name == scopes[scopes.len() - 1].package_name);
                    }
                }
                if scope_names_distinct(scopes) {
                    assert forall|i: int, j: int| 0 <= i < j < cur.len() implies (#[trigger] cur[i])@.name != (#[trigger] cur[j])@.name by {
                        assert(cur[i] == prev[i]);
                        if j < prev.len() {
                            assert(cur[j] == prev[j]);
                        } else {
                            let t = choose|t: int| 0 <= t < init.len() && (#[trigger] prev[i])@.name == init[t].package_name;
                            assert(init[t] == scopes[t]);
                            assert(t < scopes.len() - 1);
                        }
                    }
                }
            }
        }
    }
}

/// The variants of the resolved scopes of fitting scopes lie within the
/// requests.
pub proof fn lemma_solved_within(scopes: Seq<ScopeModel>, reqs: Seq<RequirementModel>)
    requires
        scopes_fit(scopes, reqs),
    ensures
        forall|i: int| 0 <= i < solved_of(scopes).len() ==> within_requests(#[trigger] solved_of(scopes)[i]@, reqs),
    decreases scopes.len(),
{
    if scopes.len() > 0 {
        let init = scopes.drop_last();
        assert forall|i: int| 0 <= i < init.len() implies scope_fits(#[trigger] init[i], reqs) by {
            assert(init[i] == scopes[i]);
        }
        lemma_solved_within(init, reqs);
        let prev = solved_of(init);
        let sc = scopes.last();
        assert(scope_fits(scopes[scopes.len() - 1], reqs));
        if let Some(sl) = sc.slice {
            if scope_solved(sc) {
                let x = crate::variant_slice::flat(sl.entries)[0];
                crate::variant_slice::lemma_has_variant_flat(sl.entries, x);
                assert(crate::variant_slice::flat(sl.entries).contains(x));
                let (a, b) = choose|a: int, b: int| 0 <= a < sl.entries.len() && 0 <= b < sl.entries[a].variants.len()
                    && sl.entries[a].variants[b] == x;
                assert(fits(sl.entries[a].variants[b]@, sc.package_name, reqs));
                let cur = prev.push(x);
                assert forall|i: int| 0 <= i < cur.len() implies within_requests(#[trigger] cur[i]@, reqs) by {
                    if i < prev.len() {
                        assert(cur[i] == prev[i]);
                    }
                }
            }
        }
    }
}

/// The requests of the ephemeral scopes that are not conflicts, in scope
/// order.
pub open spec fn ephemerals_of(scopes: Seq<ScopeModel>) -> Seq<crate::requirement::RequirementModel>
    decreases scopes.len(),
{
    if scopes.len() == 0 {
        Seq::empty()
    } else {
        let prev = ephemerals_of(scopes.drop_last());
        let s = scopes.last();
        if s.is_ephemeral && !s.package_request.conflict {
            prev.push(s.package_request)
        } else {
            prev
        }
    }
}

/// The scope is not a conflict and is of package `name`.
pub open spec fn normal_scope_of(m: ScopeModel, name: Seq<char>) -> bool {
    !m.package_request.conflict && m.package_name == name
}

/// Index `t` holds the last scope of package `n` that is not a conflict.
pub open spec fn last_normal_at(scopes: Seq<ScopeModel>, n: Seq<char>, t: int) -> bool {
    &&& 0 <= t < scopes.len()
    &&& normal_scope_of(scopes[t], n)
    &&& forall|j: int| t < j < scopes.len() ==> !normal_scope_of(#[trigger] scopes[j], n)
}

/// The last scope of package `n` that is not a conflict is resolved, to a
/// variant of version `ver`.
pub open spec fn resolved_version_at(scopes: Seq<ScopeModel>, n: Seq<char>, ver: crate::version_order::VersionModel) -> bool {
    exists|t: int|
        #![trigger last_normal_at(scopes, n, t)]
        last_normal_at(scopes, n, t) && scopes[t].slice is Some && scope_solved(scopes[t]) && ver == flat(
            scopes[t].slice.unwrap().entries,
        )[0]@.version
}

/// The last scope of package `n` that is not a conflict is resolved.
pub open spec fn has_resolved_version(scopes: Seq<ScopeModel>, n: Seq<char>) -> bool {
    exists|ver: crate::version_order::VersionModel| #[trigger] resolved_version_at(scopes, n, ver)
}

/// The packages of a cycle, with versions.
pub open spec fn cycle_view(c: Seq<(String, crate::version::RerVersion)>) -> Seq<(Seq<char>, crate::version_order::VersionModel)> {
    c.map_values(|e: (String, crate::version::RerVersion)| (e.0@, e.1@))
}

/// The cycle `c` reports the packages `ns` in order, each with the version
/// its (last, not conflict) scope resolved to, where each of them has one.
pub open spec fn cycle_versions(
    c: Seq<(Seq<char>, crate::version_order::VersionModel)>,
    ns: Seq<Seq<char>>,
    scopes: Seq<ScopeModel>,
) -> bool {
    (forall|i: int| 0 <= i < ns.len() ==> #[trigger] has_resolved_version(scopes, ns[i])) ==> {
        &&& c.len() == ns.len()
        &&& forall|i: int| 0 <= i < c.len() ==> (#[trigger] c[i]).0 == ns[i] && resolved_version_at(scopes, ns[i], c[i].1)
    }
}

/// The last scope that is not a conflict and names `name`.
fn find_scope(scopes: &Vec<PackageScope>, name: &str) -> (r: Option<usize>)
    ensures
        match r {
            Some(k) => {
                &&& k < scopes@.len()
                &&& normal_scope_of(scopes@[k as int]@, name@)
                &&& forall|j: int| k < j < scopes@.len() ==> !normal_scope_of(#[trigger] scopes@[j]@, name@)
            },
            None => forall|j: int| 0 <= j < scopes@.len() ==> !normal_scope_of(#[trigger] scopes@[j]@, name@),
        },
{
    let mut i = scopes.len();
    while i > 0
        invariant
            i <= scopes@.len(),
            forall|j: int| i <= j < scopes@.len() ==> !normal_scope_of(#[trigger] scopes@[j]@, name@),
        decreases i,
    {
        let k = i - 1;
        if !scopes[k].is_conflict() && str_eq(scopes[k].package_name(), name) {
            return Some(k);
        }
        i = k;
    }
    None
}

impl ResolvePhase {
    /// Finishes a solved phase: drops the conflict scopes, reports a
    /// dependency cycle among the resolved packages (the phase is then
    /// cyclic, with the packages of the cycle and their versions), and
    /// otherwise orders the resolved packages after the packages they
    /// depend on, as close to the request's order as that allows.
    pub fn finalise(&self, ctx: &SolverContext) -> (r: ResolvePhase)
        ensures
            (r@.failed && r@.status == SolverStatus::Cyclic) || (!r@.failed && r@.status == self@.status),
            forall|i: int| 0 <= i < r@.scopes.len() ==> !(#[trigger] r@.scopes[i]).package_request.conflict,
            r@.failed ==> r@.scopes == normal_scopes(self@.scopes),
            r@.failed ==> (r.failure() matches Some(f) && f is Cycle),
            r@.failed ==> exists|g: GraphModel, ns: Seq<Seq<char>>|
                #![trigger built_from(g, self@.scopes), is_name_cycle(g, ns)]
                {
                    &&& built_from(g, self@.scopes)
                    &&& ns.len() > 0
                    &&& is_name_cycle(g, ns)
                    &&& ns.no_duplicates()
                    &&& r.failure() matches Some(FailureReason::Cycle(c)) && cycle_versions(cycle_view(c@), ns, self@.scopes)
                },
            !r@.failed ==> r.failure() is None,
            exists|g: GraphModel|
                {
                    &&& #[trigger] built_from(g, self@.scopes)
                    &&& graph_wf(g)
                    &&& r@.failed <==> !acyclic(g.succ)
                    &&& !r@.failed ==> forall|q1: int, q2: int|
                        0 <= q1 < q2 < r@.scopes.len() ==> !g.depends(
                            #[trigger] r@.scopes[q1].package_name,
                            #[trigger] r@.scopes[q2].package_name,
                        )
                },
            !r@.failed ==> exists|picked: Seq<int>| #[trigger] picks(r@.scopes, self@.scopes, picked),
            !r@.failed ==> scope_names_distinct(r@.scopes),
            !r@.failed ==> forall|t: int|
                0 <= t < self@.scopes.len() && !(#[trigger] self@.scopes[t]).package_request.conflict ==> has_scope(
                    r@.scopes,
                    self@.scopes[t].package_name,
                ),
            scopes_fit(self@.scopes, ctx.request_list@.requirements) ==> scopes_fit(
                r@.scopes,
                ctx.request_list@.requirements,
            ),
    {
        let ghost rq = ctx.request_list@.requirements;
        let ghost fit0 = scopes_fit(self@.scopes, rq);
        let scopes = copy_scopes(&self.scopes);
        let mut graph = DepGraph::new();
        let mut i: usize = 0;
        proof {
            assert forall|a: Seq<char>, b: Seq<char>| #[trigger] graph@.has_edge(a, b) == requires_edge(
                self@.scopes.take(0),
                a,
                b,
            ) by {
                if graph@.has_edge(a, b) {
                    let (x, k) = choose|x: int, k: int| #[trigger] graph@.edge_at(x, k) && graph@.names[x] == a && graph@.names[graph@.succ[x][k] as int] == b;
                }
            }
        }
        while i < scopes.len()
            invariant
                i <= scopes@.len(),
                scopes_view(scopes@) == self@.scopes,
                forall|t: int|
                    0 <= t < i && !(#[trigger] self@.scopes[t]).package_request.conflict ==> graph@.has_node(
                        self@.scopes[t].package_name,
                    ),
                forall|a: Seq<char>, b: Seq<char>| #[trigger] graph@.has_edge(a, b) == requires_edge(
                    self@.scopes.take(i as int),
                    a,
                    b,
                ),
            decreases scopes.len() - i,
        {
            assert(scopes@[i as int]@ == self@.scopes[i as int]);
            proof {
                assert forall|a: Seq<char>, b: Seq<char>| requires_edge(self@.scopes.take(i + 1), a, b) == (requires_edge(
                    self@.scopes.take(i as int),
                    a,
                    b,
                ) || (normal_scope_of(self@.scopes[i as int], a) && solved_requires(self@.scopes[i as int], b))) by {
                    lemma_requires_edge_step(self@.scopes, i as int, a, b);
                }
            }
            if !scopes[i].is_conflict() {
                let name = scopes[i].package_name();
                graph.add_node(name);
                match scopes[i].get_solved_variant() {
                    Some(variant) => {
                        let reqs = variant.requires_list().requirements();
                        let ghost w = variant@;
                        let ghost m = self@.scopes[i as int];
                        assert(w == flat(m.slice.unwrap().entries)[0]@);
                        let mut j: usize = 0;
                        while j < reqs.len()
                            invariant
                                j <= reqs@.len(),
                                i < self@.scopes.len(),
                                name@ == self@.scopes[i as int].package_name,
                                m == self@.scopes[i as int],
                                !m.package_request.conflict,
                                scope_solved(m),
                                m.slice is Some,
                                w == flat(m.slice.unwrap().entries)[0]@,
                                reqs_view(reqs@) == w.requires.requirements,
                                graph@.has_node(name@),
                                forall|t: int|
                                    0 <= t < i && !(#[trigger] self@.scopes[t]).package_request.conflict ==> graph@.has_node(
                                        self@.scopes[t].package_name,
                                    ),
                                forall|a: Seq<char>, b: Seq<char>| #[trigger] graph@.has_edge(a, b) == (requires_edge(
                                    self@.scopes.take(i as int),
                                    a,
                                    b,
                                ) || (a == name@ && exists|k: int|
                                    0 <= k < j && !(#[trigger] w.requires.requirements[k]).conflict
                                        && w.requires.requirements[k].name == b)),
                            decreases reqs.len() - j,
                        {
                            assert(reqs@[j as int]@ == w.requires.requirements[j as int]);
                            if !reqs[j].is_conflict() {
                                graph.add_edge(name, reqs[j].name());
                            }
                            proof {
                                assert forall|a: Seq<char>, b: Seq<char>| #[trigger] graph@.has_edge(a, b) == (requires_edge(
                                    self@.scopes.take(i as int),
                                    a,
                                    b,
                                ) || (a == name@ && exists|k: int|
                                    0 <= k < j + 1 && !(#[trigger] w.requires.requirements[k]).conflict
                                        && w.requires.requirements[k].name == b)) by {
                                    if a == name@ && exists|k: int|
                                        0 <= k < j + 1 && !(#[trigger] w.requires.requirements[k]).conflict
                                            && w.requires.requirements[k].name == b {
                                        let k = choose|k: int|
                                            0 <= k < j + 1 && !(#[trigger] w.requires.requirements[k]).conflict
                                                && w.requires.requirements[k].name == b;
                                        if k < j {
                                            assert(exists|k2: int|
                                                0 <= k2 < j && !(#[trigger] w.requires.requirements[k2]).conflict
                                                    && w.requires.requirements[k2].name == b);
                                        }
                                    }
                                }
                            }
                            j = j + 1;
                        }
                        proof {
                            assert forall|a: Seq<char>, b: Seq<char>| #[trigger] graph@.has_edge(a, b) == requires_edge(
                                self@.scopes.take(i + 1),
                                a,
                                b,
                            ) by {
                                lemma_requires_edge_step(self@.scopes, i as int, a, b);
                                assert(j == w.requires.requirements.len());
                                assert(normal_scope_of(m, a) == (a == name@));
                                if a == name@ && solved_requires(m, b) {
                                    let k = choose|k: int|
                                        0 <= k < flat(m.slice.unwrap().entries)[0]@.requires.requirements.len() && !(#[trigger] flat(
                                            m.slice.unwrap().entries,
                                        )[0]@.requires.requirements[k]).conflict
                                            && flat(m.slice.unwrap().entries)[0]@.requires.requirements[k].name == b;
                                    assert(!(w.requires.requirements[k]).conflict);
                                }
                                if a == name@ && exists|k: int|
                                    0 <= k < j && !(#[trigger] w.requires.requirements[k]).conflict
                                        && w.requires.requirements[k].name == b {
                                    let k = choose|k: int|
                                        0 <= k < j && !(#[trigger] w.requires.requirements[k]).conflict
                                            && w.requires.requirements[k].name == b;
                                    assert(solved_requires(m, b));
                                }
                            }
                        }
                    },
                    None => {},
                }
            }
            i = i + 1;
        }
        assert(self@.scopes.take(i as int) =~= self@.scopes);
        graph.check_wf();
        let ghost g = graph@;
        // the resolved packages without the conflicts
        let mut kept: Vec<PackageScope> = Vec::new();
        let mut k: usize = 0;
        while k < scopes.len()
            invariant
                k <= scopes@.len(),
                forall|t: int| 0 <= t < kept@.len() ==> !(#[trigger] scopes_view(kept@)[t]).package_request.conflict,
                scopes_view(scopes@) == self@.scopes,
                scopes_view(kept@) == normal_scopes(self@.scopes.take(k as int)),
                fit0 == scopes_fit(self@.scopes, rq),
                fit0 ==> scopes_fit(scopes_view(kept@), rq),
            decreases scopes.len() - k,
        {
            assert(self@.scopes.take(k + 1).drop_last() =~= self@.scopes.take(k as int));
            assert(scopes@[k as int]@ == self@.scopes[k as int]);
            if !scopes[k].is_conflict() {
                let ghost before = scopes_view(kept@);
                kept.push(scopes[k].duplicate());
                assert(scopes_view(kept@) =~= before.push(scopes@[k as int]@));
                proof {
                    if fit0 {
                        assert(scope_fits(self@.scopes[k as int], rq));
                        assert forall|t: int| 0 <= t < scopes_view(kept@).len() implies scope_fits(
                            #[trigger] scopes_view(kept@)[t],
                            rq,
                        ) by {
                            if t < before.len() {
                                assert(scopes_view(kept@)[t] == before[t]);
                            }
                        }
                    }
                }
            }
            k = k + 1;
        }
        assert(self@.scopes.take(k as int) =~= self@.scopes);
        assert(built_from(g, self@.scopes));
        if graph.has_cycle() {
            let cycle_fams = graph.find_cycle();
            let ghost ns = names_view(cycle_fams@);
            let ghost sc = self@.scopes;
            let mut cycle: Vec<(String, crate::version::RerVersion)> = Vec::new();
            let mut c: usize = 0;
            while c < cycle_fams.len()
                invariant
                    c <= cycle_fams@.len(),
                    ns == names_view(cycle_fams@),
                    sc == self@.scopes,
                    scopes_view(scopes@) == sc,
                    (forall|i: int| 0 <= i < c ==> #[trigger] has_resolved_version(sc, ns[i])) ==> {
                        &&& cycle_view(cycle@).len() == c
                        &&& forall|i: int| 0 <= i < c ==> (#[trigger] cycle_view(cycle@)[i]).0 == ns[i] && resolved_version_at(sc, ns[i], cycle_view(cycle@)[i].1)
                    },
                decreases cycle_fams.len() - c,
            {
                let ghost before = cycle_view(cycle@);
                let ghost n = ns[c as int];
                assert(n == cycle_fams@[c as int]@);
                match find_scope(&scopes, cycle_fams[c].as_str()) {
                    Some(idx) => {
                        assert(scopes@[idx as int]@ == sc[idx as int]);
                        assert(last_normal_at(sc, n, idx as int));
                        match scopes[idx].get_solved_variant() {
                            Some(v) => {
                                cycle.push((cycle_fams[c].clone(), v.version().duplicate()));
                                proof {
                                    let cv = cycle_view(cycle@);
                                    assert(cv =~= before.push((n, v@.version)));
                                    assert(resolved_version_at(sc, n, v@.version));
                                    if forall|i: int| 0 <= i < c + 1 ==> #[trigger] has_resolved_version(sc, ns[i]) {
                                        assert(forall|i: int| 0 <= i < c ==> #[trigger] has_resolved_version(sc, ns[i]));
                                        assert(before.len() == c);
                                        assert forall|i: int| 0 <= i < c + 1 implies (#[trigger] cv[i]).0 == ns[i] && resolved_version_at(sc, ns[i], cv[i].1) by {
                                            if i < c {
                                                assert(cv[i] == before[i]);
                                            }
                                        }
                                    }
                                }
                            },
                            None => {
                                proof {
                                    assert forall|ver: crate::version_order::VersionModel| !#[trigger] resolved_version_at(sc, n, ver) by {
                                        if resolved_version_at(sc, n, ver) {
                                            let t = choose|t: int| #![trigger last_normal_at(sc, n, t)] last_normal_at(sc, n, t) && sc[t].slice is Some && scope_solved(sc[t]) && ver == flat(sc[t].slice.unwrap().entries)[0]@.version;
                                            if t < idx {
                                                assert(!normal_scope_of(sc[idx as int], n));
                                            } else if t > idx {
                                                assert(!normal_scope_of(sc[t], n));
                                            }
                                        }
                                    }
                                    assert(!has_resolved_version(sc, n));
                                }
                            },
                        }
                    },
                    None => {
                        proof {
                            assert forall|ver: crate::version_order::VersionModel| !#[trigger] resolved_version_at(sc, n, ver) by {
                                if resolved_version_at(sc, n, ver) {
                                    let t = choose|t: int| #![trigger last_normal_at(sc, n, t)] last_normal_at(sc, n, t) && sc[t].slice is Some && scope_solved(sc[t]) && ver == flat(sc[t].slice.unwrap().entries)[0]@.version;
                                    assert(scopes@[t]@ == sc[t]);
                                }
                            }
                            assert(!has_resolved_version(sc, n));
                        }
                    },
                }
                c = c + 1;
            }
            proof {
                assert(cycle_versions(cycle_view(cycle@), ns, sc));
                assert(is_name_cycle(g, ns));
            }
            return ResolvePhase {
                scopes: kept,
                failure_reason: Some(FailureReason::Cycle(cycle)),
                extractions: copy_extractions(&self.extractions),
                changed_scopes_i: Vec::new(),
                status: SolverStatus::Cyclic,
            };
        }
        // children before parents, near the request's order
        let reqs = ctx.request_list.requirements();
        let mut request_fams: Vec<String> = Vec::new();
        let mut t: usize = 0;
        while t < reqs.len()
            invariant
                t <= reqs@.len(),
            decreases reqs.len() - t,
        {
            request_fams.push(reqs[t].name().to_owned());
            t = t + 1;
        }
        proof {
            crate::graph::lemma_acyclic_loops_only(graph@.succ);
        }
        let ordered = graph.dependency_order(request_fams.as_slice());
        let mut taken = unset_flags(scopes.len());
        let mut final_scopes: Vec<PackageScope> = Vec::new();
        let ghost mut picked: Seq<int> = Seq::empty();
        let ghost mut fidx: Seq<int> = Seq::empty();
        let mut f: usize = 0;
        while f < ordered.len()
            invariant
                f <= ordered@.len(),
                fidx.len() == final_scopes@.len(),
                forall|q: int| 0 <= q < fidx.len() ==> 0 <= #[trigger] fidx[q] < f && ordered@[fidx[q]]@
                    == scopes_view(final_scopes@)[q].package_name,
                forall|q1: int, q2: int| 0 <= q1 < q2 < fidx.len() ==> #[trigger] fidx[q1] < #[trigger] fidx[q2],
                taken@.len() == scopes@.len(),
                picks(scopes_view(final_scopes@), self@.scopes, picked),
                scopes_view(scopes@) == self@.scopes,
                forall|x: int| 0 <= x < taken@.len() ==> (taken@[x] <==> #[trigger] picked.contains(x)),
                forall|f2: int|
                    0 <= f2 < f && #[trigger] normal_named(self@.scopes, ordered@[f2]@) ==> has_scope(
                        scopes_view(final_scopes@),
                        ordered@[f2]@,
                    ),
                forall|q: int| 0 <= q < final_scopes@.len() ==> !(#[trigger] scopes_view(final_scopes@)[q]).package_request.conflict,
                scopes_view(scopes@) == self@.scopes,
                fit0 == scopes_fit(self@.scopes, rq),
                fit0 ==> scopes_fit(scopes_view(final_scopes@), rq),
            decreases ordered.len() - f,
        {
            let ghost before0 = scopes_view(final_scopes@);
            let ghost picked0 = picked;
            let ghost here = ordered@[f as int]@;
            match find_scope(&scopes, ordered[f].as_str()) {
                Some(idx) => {
                    assert(scopes@[idx as int]@ == self@.scopes[idx as int]);
                    if taken[idx] {
                        proof {
                            assert(picked.contains(idx as int));
                            let q = choose|q: int| 0 <= q < picked.len() && picked[q] == idx;
                            assert(scopes_view(final_scopes@)[q] == self@.scopes[idx as int]);
                            assert(has_scope(scopes_view(final_scopes@), here));
                        }
                    } else {
                        taken.set(idx, true);
                        let ghost before = scopes_view(final_scopes@);
                        final_scopes.push(scopes[idx].duplicate());
                        assert(scopes_view(final_scopes@) =~= before.push(scopes@[idx as int]@));
                        proof {
                            let fidx0 = fidx;
                            fidx = fidx.push(f as int);
                            assert forall|q: int| 0 <= q < fidx.len() implies 0 <= #[trigger] fidx[q] < f + 1 && ordered@[fidx[q]]@
                                == scopes_view(final_scopes@)[q].package_name by {
                                if q < fidx0.len() {
                                    assert(fidx[q] == fidx0[q]);
                                    assert(scopes_view(final_scopes@)[q] == before[q]);
                                } else {
                                    assert(scopes_view(final_scopes@)[q] == self@.scopes[idx as int]);
                                }
                            }
                            assert forall|q1: int, q2: int| 0 <= q1 < q2 < fidx.len() implies #[trigger] fidx[q1] < #[trigger] fidx[q2] by {
                                assert(fidx[q1] == fidx0[q1]);
                                if q2 < fidx0.len() {
                                    assert(fidx[q2] == fidx0[q2]);
                                }
                            }
                            picked = picked.push(idx as int);
                            assert(picked.last() == idx);
                            assert forall|x: int| 0 <= x < taken@.len() implies (taken@[x] <==> #[trigger] picked.contains(x)) by {
                                if x != idx {
                                    if picked.contains(x) {
                                        let q = choose|q: int| 0 <= q < picked.len() && picked[q] == x;
                                        assert(q < picked0.len());
                                        assert(picked0[q] == x);
                                    }
                                    if picked0.contains(x) {
                                        let q = choose|q: int| 0 <= q < picked0.len() && picked0[q] == x;
                                        assert(picked[q] == x);
                                    }
                                }
                            }
                            assert forall|q1: int, q2: int| 0 <= q1 < q2 < picked.len() implies #[trigger] picked[q1] != #[trigger] picked[q2] by {
                                if q2 == picked.len() - 1 {
                                    assert(picked0[q1] == picked[q1]);
                                    assert(picked0.contains(picked[q1]));
                                } else {
                                    assert(picked0[q1] == picked[q1] && picked0[q2] == picked[q2]);
                                }
                            }
                            assert forall|q: int| 0 <= q < picked.len() implies 0 <= #[trigger] picked[q] < self@.scopes.len()
                                && scopes_view(final_scopes@)[q] == self@.scopes[picked[q]] by {
                                if q < picked0.len() {
                                    assert(picked0[q] == picked[q]);
                                    assert(scopes_view(final_scopes@)[q] == before[q]);
                                }
                            }
                            assert(scopes_view(final_scopes@)[before.len() as int] == self@.scopes[idx as int]);
                            assert(has_scope(scopes_view(final_scopes@), here));
                        }
                        proof {
                            if fit0 {
                                assert(scope_fits(self@.scopes[idx as int], rq));
                                assert forall|t: int| 0 <= t < scopes_view(final_scopes@).len() implies scope_fits(
                                    #[trigger] scopes_view(final_scopes@)[t],
                                    rq,
                                ) by {
                                    if t < before.len() {
                                        assert(scopes_view(final_scopes@)[t] == before[t]);
                                    }
                                }
                            }
                        }
                    }
                },
                None => {
                    proof {
                        assert forall|t: int| 0 <= t < self@.scopes.len() implies !normal_scope_of(
                            #[trigger] self@.scopes[t],
                            here,
                        ) by {
                            assert(scopes@[t]@ == self@.scopes[t]);
                        }
                    }
                },
            }
            proof {
                let fv = scopes_view(final_scopes@);
                assert(fv.len() >= before0.len());
                assert forall|q: int| 0 <= q < before0.len() implies fv[q] == before0[q] by {}
                assert forall|f2: int|
                    0 <= f2 < f + 1 && #[trigger] normal_named(self@.scopes, ordered@[f2]@) implies has_scope(
                        fv,
                        ordered@[f2]@,
                    ) by {
                    if f2 < f {
                        let q = choose|q: int| 0 <= q < before0.len() && (#[trigger] before0[q]).package_name == ordered@[f2]@;
                        assert(fv[q] == before0[q]);
                    } else {
                        assert(ordered@[f2]@ == here);
                    }
                }
            }
            f = f + 1;
        }
        proof {
            let fv = scopes_view(final_scopes@);
            assert forall|q1: int, q2: int| 0 <= q1 < q2 < fv.len() implies !g.depends(
                #[trigger] fv[q1].package_name,
                #[trigger] fv[q2].package_name,
            ) by {
                let p1 = fidx[q1];
                let p2 = fidx[q2];
                assert(p1 < p2);
                assert(names_view(ordered@)[p1] == fv[q1].package_name);
                assert(names_view(ordered@)[p2] == fv[q2].package_name);
            }
            assert forall|q1: int, q2: int| 0 <= q1 < q2 < fv.len() implies (#[trigger] fv[q1]).package_name != (#[trigger] fv[q2]).package_name by {
                let p1 = fidx[q1];
                let p2 = fidx[q2];
                assert(p1 < p2);
                assert(ordered@[p1]@ != ordered@[p2]@);
            }
            assert forall|t: int|
                0 <= t < self@.scopes.len() && !(#[trigger] self@.scopes[t]).package_request.conflict implies has_scope(
                    fv,
                    self@.scopes[t].package_name,
                ) by {
                let x = self@.scopes[t].package_name;
                assert(g.has_node(x));
                assert(names_view(ordered@).contains(x));
                let f2 = choose|f2: int| 0 <= f2 < names_view(ordered@).len() && names_view(ordered@)[f2] == x;
                assert(ordered@[f2]@ == x);
                assert(normal_scope_of(self@.scopes[t], x));
                assert(normal_named(self@.scopes, ordered@[f2]@));
            }
        }
        ResolvePhase {
            scopes: final_scopes,
            failure_reason: None,
            extractions: copy_extractions(&self.extractions),
            changed_scopes_i: Vec::new(),
            status: self.status,
        }
    }

    /// Splits an exhausted phase at its first scope that can be split:
    /// the phase with that scope's preferred part, and the phase with the
    /// rest; every other scope is shared by both. Both are pending, with
    /// the split scope marked changed.
    #[verifier::spinoff_prover]
    pub fn split(&self, ctx: &SolverContext) -> (r: (ResolvePhase, ResolvePhase))
        ensures
            r.0@.status == SolverStatus::Pending,
            r.1@.status == SolverStatus::Pending,
            !r.0@.failed,
            !r.1@.failed,
            r.0@.scopes.len() == self@.scopes.len(),
            r.1@.scopes.len() == self@.scopes.len(),
            forall|i: int| 0 <= i < self@.scopes.len() ==> (#[trigger] r.0@.scopes[i]).package_name == self@.scopes[i].package_name
                && r.1@.scopes[i].package_name == self@.scopes[i].package_name,
            phase_fits(self@.scopes, ctx.request_list@.requirements) ==> phase_fits(
                r.0@.scopes,
                ctx.request_list@.requirements,
            ) && phase_fits(r.1@.scopes, ctx.request_list@.requirements),
    {
        let ghost rq = ctx.request_list@.requirements;
        let mut scopes: Vec<PackageScope> = Vec::new();
        let mut next_scopes: Vec<PackageScope> = Vec::new();
        let mut split_i: Option<usize> = None;
        let mut i: usize = 0;
        while i < self.scopes.len()
            invariant
                i <= self@.scopes.len(),
                scopes@.len() == i,
                next_scopes@.len() == i,
                forall|k: int| 0 <= k < i ==> (#[trigger] scopes_view(scopes@)[k]).package_name == self@.scopes[k].package_name
                    && scopes_view(next_scopes@)[k].package_name == self@.scopes[k].package_name,
                rq == ctx.request_list@.requirements,
                scopes_fit(self@.scopes, rq) ==> forall|k: int| 0 <= k < i ==> scope_fits(
                    #[trigger] scopes_view(scopes@)[k],
                    rq,
                ),
                scopes_fit(self@.scopes, rq) ==> forall|k: int| 0 <= k < i ==> scope_fits(
                    #[trigger] scopes_view(next_scopes@)[k],
                    rq,
                ),
            decreases self.scopes.len() - i,
        {
            let ghost b1 = scopes_view(scopes@);
            let ghost b2 = scopes_view(next_scopes@);
            assert(self@.scopes[i as int] == self.scopes@[i as int]@);
            let mut done = false;
            if split_i.is_none() {
                match self.scopes[i].split(ctx) {
                    Some((a, b)) => {
                        proof {
                            if scopes_fit(self@.scopes, rq) {
                                assert(scope_fits(self@.scopes[i as int], rq));
                                lemma_narrowed_fits(self@.scopes[i as int], a@, rq);
                                lemma_narrowed_fits(self@.scopes[i as int], b@, rq);
                            }
                        }
                        scopes.push(a);
                        next_scopes.push(b);
                        split_i = Some(i);
                        done = true;
                    },
                    None => {},
                }
            }
            if !done {
                scopes.push(self.scopes[i].duplicate());
                next_scopes.push(self.scopes[i].duplicate());
            }
            proof {
                assert(scopes_view(scopes@) =~= b1.push(scopes@[i as int]@));
                assert(scopes_view(next_scopes@) =~= b2.push(next_scopes@[i as int]@));
                if scopes_fit(self@.scopes, rq) {
                    assert(scope_fits(self@.scopes[i as int], rq));
                    assert forall|k: int| 0 <= k < i + 1 implies scope_fits(
                        #[trigger] scopes_view(scopes@)[k],
                        rq,
                    ) by {
                        if k < i {
                            assert(scopes_view(scopes@)[k] == b1[k]);
                        }
                    }
                    assert forall|k: int| 0 <= k < i + 1 implies scope_fits(
                        #[trigger] scopes_view(next_scopes@)[k],
                        rq,
                    ) by {
                        if k < i {
                            assert(scopes_view(next_scopes@)[k] == b2[k]);
                        }
                    }
                }
            }
            i = i + 1;
        }
        proof {
            let s0 = self@.scopes;
            let s1 = scopes_view(scopes@);
            let s2 = scopes_view(next_scopes@);
            if phase_fits(s0, rq) {
                assert(scopes_fit(s0, rq));
                assert forall|t: int| 0 <= t < s2.len() implies scope_fits(#[trigger] s2[t], rq) by {
                    assert(scope_fits(s1[t], rq));
                }
                assert forall|k: int| 0 <= k < rq.len() implies has_scope(s1, (#[trigger] rq[k]).name)
                    && has_scope(s2, rq[k].name) by {
                    assert(has_scope(s0, rq[k].name));
                    let t = choose|t: int| 0 <= t < s0.len() && (#[trigger] s0[t]).package_name == rq[k].name;
                    assert(s1[t].package_name == rq[k].name);
                    assert(s2[t].package_name == rq[k].name);
                }
            }
        }
        let mut changed: Vec<usize> = Vec::new();
        match split_i {
            Some(k) => changed.push(k),
            None => {},
        }
        let first = ResolvePhase {
            scopes,
            failure_reason: None,
            extractions: copy_extractions(&self.extractions),
            changed_scopes_i: changed.clone(),
            status: SolverStatus::Pending,
        };
        let second = ResolvePhase {
            scopes: next_scopes,
            failure_reason: None,
            extractions: copy_extractions(&self.extractions),
            changed_scopes_i: changed,
            status: SolverStatus::Pending,
        };
        (first, second)
    }

    /// The variants of the resolved normal scopes, in scope order.
    pub fn solved_variants(&self) -> (r: Vec<Rc<PackageVariant>>)
        ensures
            r@ == solved_of(self@.scopes),
    {
        let ghost sv = self@.scopes;
        let mut out: Vec<Rc<PackageVariant>> = Vec::new();
        let mut i: usize = 0;
        assert(sv.take(0) =~= Seq::<ScopeModel>::empty());
        while i < self.scopes.len()
            invariant
                i <= sv.len(),
                sv == scopes_view(self.scopes@),
                out@ == solved_of(sv.take(i as int)),
            decreases self.scopes.len() - i,
        {
            assert(sv.take(i + 1).drop_last() =~= sv.take(i as int));
            assert(sv[i as int] == self.scopes@[i as int]@);
            match self.scopes[i].get_solved_variant() {
                Some(v) => out.push(v),
                None => {},
            }
            i = i + 1;
        }
        assert(sv.take(i as int) =~= sv);
        out
    }

    /// The requests of the ephemerals that are not conflicts, in scope
    /// order.
    pub fn solved_ephemerals(&self) -> (r: Vec<Requirement>)
        ensures
            crate::requirement::reqs_view(r@) == ephemerals_of(self@.scopes),
    {
        let ghost sv = self@.scopes;
        let mut out: Vec<Requirement> = Vec::new();
        let mut i: usize = 0;
        assert(sv.take(0) =~= Seq::<ScopeModel>::empty());
        assert(crate::requirement::reqs_view(out@) =~= Seq::<crate::requirement::RequirementModel>::empty());
        while i < self.scopes.len()
            invariant
                i <= sv.len(),
                sv == scopes_view(self.scopes@),
                crate::requirement::reqs_view(out@) == ephemerals_of(sv.take(i as int)),
            decreases self.scopes.len() - i,
        {
            assert(sv.take(i + 1).drop_last() =~= sv.take(i as int));
            assert(sv[i as int] == self.scopes@[i as int]@);
            match self.scopes[i].get_solved_ephemeral() {
                Some(q) => {
                    let ghost before = crate::requirement::reqs_view(out@);
                    out.push(q.duplicate());
                    assert(crate::requirement::reqs_view(out@) =~= before.push(q@));
                },
                None => {},
            }
            i = i + 1;
        }
        assert(sv.take(i as int) =~= sv);
        out
    }

    /// The scopes as text, separated by spaces.
    pub fn to_string(&self) -> (s: String)
        ensures
            s@ == join(self@.scopes.map_values(|m: ScopeModel| scope_text(m)), " "@),
    {
        let ghost sv = self@.scopes;
        let mut parts: Vec<String> = Vec::new();
        let mut i: usize = 0;
        while i < self.scopes.len()
            invariant
                i <= self.scopes@.len(),
                sv == scopes_view(self.scopes@),
                parts@.len() == i,
                forall|k: int| 0 <= k < i ==> (#[trigger] parts@[k])@ == scope_text(sv[k]),
            decreases self.scopes.len() - i,
        {
            parts.push(self.scopes[i].to_string());
            i = i + 1;
        }
        let ghost pv = sv.map_values(|m: ScopeModel| scope_text(m));
        let mut out = crate::text::string_from_chars(Vec::<char>::new().as_slice());
        let mut k: usize = 0;
        while k < parts.len()
            invariant
                k <= parts@.len(),
                parts@.len() == pv.len(),
                forall|x: int| 0 <= x < pv.len() ==> (#[trigger] parts@[x])@ == pv[x],
                out@ == join(pv.take(k as int), " "@),
            decreases parts.len() - k,
        {
            if k > 0 {
                out = crate::text::str_concat(out.as_str(), " ");
            }
            out = crate::text::str_concat(out.as_str(), parts[k].as_str());
            assert(pv.take(k + 1).drop_last() =~= pv.take(k as int));
            proof {
                if k == 0 {
                    assert(out@ =~= pv[0]);
                }
            }
            k = k + 1;
        }
        assert(pv.take(k as int) =~= pv);
        out
    }
}

} // verus!
