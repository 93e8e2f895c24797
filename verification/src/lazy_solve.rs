//! A resolve whose families are found one load at a time. The caller
//! drives it: `advance` either says which family to load next (and for
//! which range of versions) or runs the resolve once every lookup it needs
//! is served by what is held; the caller performs the load (a call into its
//! own code) and hands the result to `supply`.
use vstd::prelude::*;
use std::rc::Rc;
use crate::range::VersionRange;
use crate::range_model::SegModel;
use crate::requirement::{Requirement, RequirementModel, reqs_view, fold_requirements};
use crate::package_data::PackageData;
use crate::repo::{FamilyModel, family_of};
use crate::scope::{ScopeError, request_range};
use crate::status::{SolverStatus, VariantSelectMode};
use crate::rez_solver::{Solver, solver_status, fold_conflict};
use crate::phase::first_request_error;
use crate::solve_api::{
    SolveOutcome, packages_view, outcome_of, solver_outcome, scope_error_outcome, refused, refusal, scope_error_answer,
};
use crate::family_loads::{
    FamilyLoads, range_opt_model, lookup_misses, held_for, looked_up, held_family, absent_in_full, load_recorded,
};

verus! {

/// What a lazy resolve asks of its caller next.
#[derive(Debug)]
pub enum SolveAction {
    /// The resolve is over.
    Done,
    /// Family `name` must be loaded for `hint` (`None`: every version).
    Load { name: String, hint: Option<VersionRange> },
}

/// The resolve of `reqs` against the repository `repo` ended in `res`:
/// a missing requested package, or a solver over `repo` for the merged
/// requests that was run until it was no longer in progress.
pub open spec fn ran_over(reqs: Seq<RequirementModel>, repo: Seq<(Seq<char>, FamilyModel)>, res: Result<Solver, ScopeError>) -> bool {
    match res {
        Err(e) => !fold_conflict(reqs) && first_request_error(repo, fold_requirements(reqs).0, e),
        Ok(s) => {
            &&& s.repo() == repo
            &&& s.request_conflict() == fold_conflict(reqs)
            &&& !fold_conflict(reqs) ==> s.requests() == fold_requirements(reqs).0
            &&& solver_status(s.request_conflict(), s.stack()) != SolverStatus::Unsolved || s.spec_solve_count()
                == usize::MAX
        },
    }
}

/// A resolve of requests against families found one load at a time.
pub struct LazySolve {
    requests: Vec<Requirement>,
    mode: VariantSelectMode,
    loads: FamilyLoads,
    outcome: Option<Result<Solver, ScopeError>>,
}

impl LazySolve {
    /// The families loaded so far.
    pub closed spec fn loads(&self) -> FamilyLoads {
        self.loads
    }

    /// The requests of the resolve.
    pub closed spec fn requests(&self) -> Seq<RequirementModel> {
        reqs_view(self.requests@)
    }

    /// How the resolve ended, once it has run.
    pub closed spec fn result(&self) -> Option<Result<Solver, ScopeError>> {
        self.outcome
    }

    /// A resolve of `package_requests` choosing variants by
    /// `variant_select_mode`, starting from the families of `loads` (those
    /// already at hand are held there as loaded in full).
    pub fn new(package_requests: Vec<Requirement>, loads: FamilyLoads, variant_select_mode: VariantSelectMode) -> (r:
        LazySolve)
        ensures
            r.loads() == loads,
            r.requests() == reqs_view(package_requests@),
            r.result() is None,
    {
        LazySolve { requests: package_requests, mode: variant_select_mode, loads, outcome: None }
    }

    /// The next step: once the resolve has run, nothing (`Done`); else the
    /// next load it needs (see `FamilyLoads::first_missing`), leaving the
    /// resolve as it is; else the resolve runs over the families held and
    /// is over (`Done`).
    pub fn advance(&mut self) -> (r: SolveAction)
        ensures
            old(self).result() is Some ==> r is Done && *final(self) == *old(self),
            r is Load ==> *final(self) == *old(self) && old(self).result() is None,
            r matches SolveAction::Load { name, hint } ==> exists|h: Option<Seq<SegModel>>| #[trigger] lookup_misses(
                old(self).loads()@,
                name@,
                h,
                range_opt_model(hint),
            ),
            r is Done ==> final(self).loads() == old(self).loads() && final(self).requests() == old(self).requests()
                && final(self).result() is Some,
            old(self).result() is None && r is Done ==> {
                let es = old(self).loads()@;
                let reqs = old(self).requests();
                &&& forall|i: int| 0 <= i < reqs.len() && looked_up(#[trigger] reqs[i]) ==> held_for(es, reqs[i].name, request_range(reqs[i]))
                &&& forall|n: Seq<char>| #[trigger] absent_in_full(es, n)
                &&& exists|repo: Seq<(Seq<char>, FamilyModel)>| #![trigger ran_over(reqs, repo, final(self).result().unwrap())]
                    (forall|n: Seq<char>| #[trigger] family_of(repo, n) == held_family(es, n)) && ran_over(reqs, repo, final(self).result().unwrap())
            },
    {
        if self.outcome.is_some() {
            return SolveAction::Done;
        }
        match self.loads.first_missing(&self.requests) {
            Some((name, hint)) => {
                let ghost nv = name@;
                let ghost hv = range_opt_model(hint);
                let ghost h = choose|h: Option<Seq<SegModel>>| #[trigger] lookup_misses(self.loads@, nv, h, hv);
                assert(lookup_misses(old(self).loads()@, nv, h, hv));
                let r = SolveAction::Load { name, hint };
                assert(r matches SolveAction::Load { name: n1, hint: h1 } && n1@ == nv && range_opt_model(h1) == hv);
                return r;
            },
            None => {},
        }
        let ghost es = self.loads@;
        let ghost reqs = reqs_view(self.requests@);
        let repo = self.loads.to_repo();
        let ghost rm = repo@;
        let requests = copy_requests(&self.requests);
        let res = match Solver::new_with_options(requests, Rc::new(repo), self.mode) {
            Ok(mut solver) => {
                solver.solve();
                Ok(solver)
            },
            Err(e) => Err(e),
        };
        assert(ran_over(reqs, rm, res));
        self.outcome = Some(res);
        assert(ran_over(reqs, rm, self.outcome.unwrap()));
        assert(forall|n: Seq<char>| #[trigger] family_of(rm, n) == held_family(es, n));
        SolveAction::Done
    }

    /// Records what the load of family `name` for `range` returned (as
    /// (family, version, data) entries), as `FamilyLoads::record_load` does.
    pub fn supply(&mut self, name: &str, range: Option<VersionRange>, loaded: Vec<(String, String, PackageData)>) -> (r:
        Result<(), String>)
        ensures
            load_recorded(old(self).loads(), final(self).loads(), name@, range_opt_model(range), packages_view(loaded@), r),
            final(self).requests() == old(self).requests(),
            final(self).result() == old(self).result(),
    {
        self.loads.record_load(name, range, loaded)
    }

    /// The answer of the resolve once it has run: the message of a load
    /// that failed comes first (an error); then a missing requested
    /// package (an error); else the state of the solver.
    pub fn outcome(&self) -> (r: Option<SolveOutcome>)
        ensures
            self.result() is None <==> r is None,
            r matches Some(o) ==> match self.loads().error_text() {
                Some(m) => refused(o, m),
                None => match self.result().unwrap() {
                    Ok(s) => solver_outcome(s, o),
                    Err(e) => scope_error_outcome(e, o),
                },
            },
    {
        match &self.outcome {
            None => None,
            Some(res) => match self.loads.load_error() {
                Some(m) => Some(refusal(m)),
                None => match res {
                    Ok(s) => Some(outcome_of(s)),
                    Err(e) => Some(scope_error_answer(e)),
                },
            },
        }
    }
}

/// A copy of the requests.
fn copy_requests(v: &Vec<Requirement>) -> (r: Vec<Requirement>)
    ensures
        reqs_view(r@) == reqs_view(v@),
{
    let mut r: Vec<Requirement> = Vec::new();
    let mut i: usize = 0;
    while i < v.len()
        invariant
            i <= v@.len(),
            reqs_view(r@) == reqs_view(v@.take(i as int)),
        decreases v.len() - i,
    {
        let ghost before = r@;
        r.push(v[i].duplicate());
        assert(reqs_view(r@) =~= reqs_view(before).push(v@[i as int]@));
        assert(v@.take(i + 1) =~= v@.take(i as int).push(v@[i as int]));
        assert(reqs_view(v@.take(i + 1)) =~= reqs_view(v@.take(i as int)).push(v@[i as int]@));
        i = i + 1;
    }
    assert(v@.take(i as int) =~= v@);
    r
}

} // verus!
