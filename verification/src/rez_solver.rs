//! The resolve driver: a stack of phases searched depth first. A failed
//! phase on top is set aside and the alternative beneath it (the other
//! part of an earlier split) is resolved next.
use vstd::prelude::*;
use std::rc::Rc;
use crate::requirement::{Requirement, RequirementList, reqs_view, fold_requirements};
use crate::status::{SolverStatus, VariantSelectMode};
use crate::variant::PackageVariant;
use crate::scope::{ScopeError, request_ok};
use crate::failure::{FailureReason, DependencyConflict, description_text};
use crate::phase::{
    ResolvePhase, PhaseModel, solved_of, ephemerals_of, first_request_error, phase_fits, scopes_fit, within_requests,
    lemma_solved_within, scope_names_distinct,
};
use crate::requirement::RequirementModel;
use crate::context::SolverContext;
use crate::repo::PackageRepo;

verus! {

/// The state of a resolve: failed when the request itself is in
/// conflict; otherwise from the phase on top of the stack (a cyclic one
/// fails; with phases left beneath, a solved top is solved and anything
/// else still in progress; alone, a pending or exhausted top is still in
/// progress).
pub open spec fn solver_status(request_conflict: bool, stack: Seq<PhaseModel>) -> SolverStatus {
    if request_conflict {
        SolverStatus::Failed
    } else {
        let st = stack.last().status;
        if st == SolverStatus::Cyclic {
            SolverStatus::Failed
        } else if stack.len() > 1 {
            if st == SolverStatus::Solved {
                SolverStatus::Solved
            } else {
                SolverStatus::Unsolved
            }
        } else if st == SolverStatus::Pending || st == SolverStatus::Exhausted {
            SolverStatus::Unsolved
        } else {
            st
        }
    }
}

pub open spec fn phases_view(v: Seq<ResolvePhase>) -> Seq<PhaseModel> {
    v.map_values(|p: ResolvePhase| p@)
}

/// A non-empty stack whose phases below the top are all pending.
pub open spec fn stack_ok(stack: Seq<PhaseModel>) -> bool {
    stack.len() > 0 && forall|i: int| 0 <= i < stack.len() - 1 ==> (#[trigger] stack[i]).status == SolverStatus::Pending
}

/// The phases below the top fit the requests, and so does the top, or it
/// is finished (solved or cyclic) and its scopes fit; a solved top has one
/// scope per package.
pub open spec fn stack_fits(stack: Seq<PhaseModel>, reqs: Seq<RequirementModel>) -> bool {
    &&& forall|i: int| 0 <= i < stack.len() - 1 ==> phase_fits((#[trigger] stack[i]).scopes, reqs)
    &&& stack.len() > 0 ==> (phase_fits(stack.last().scopes, reqs) || ((stack.last().status == SolverStatus::Solved
        || stack.last().status == SolverStatus::Cyclic) && scopes_fit(stack.last().scopes, reqs)))
    &&& stack.len() > 0 && stack.last().status == SolverStatus::Solved ==> scope_names_distinct(stack.last().scopes)
}

/// The stack after one step of the resolve on stack `s`: a failed top is
/// set aside and the phase beneath it resolved in its place; an exhausted
/// top is split, its second part staying beneath (pending) while the
/// first is resolved; a pending top is resolved. The resolved phase is on
/// top, and it is no longer pending.
pub open spec fn stepped(s: Seq<PhaseModel>, t: Seq<PhaseModel>) -> bool {
    let top = s.last().status;
    &&& t.len() > 0
    &&& t.last().status != SolverStatus::Pending
    &&& if top == SolverStatus::Failed {
        t.len() == s.len() - 1 && t.take(s.len() - 2) == s.take(s.len() - 2)
    } else if top == SolverStatus::Exhausted {
        t.len() == s.len() + 1 && t.take(s.len() - 1) == s.take(s.len() - 1) && t[s.len() - 1].status
            == SolverStatus::Pending
    } else {
        t.len() == s.len() && t.take(s.len() - 1) == s.take(s.len() - 1)
    }
}

/// The package solver.
pub struct Solver {
    ctx: SolverContext,
    phase_stack: Vec<ResolvePhase>,
    failed_phase_list: Vec<ResolvePhase>,
    solve_count: usize,
}

impl Solver {
    #[verifier::type_invariant]
    spec fn inv(self) -> bool {
        &&& stack_ok(phases_view(self.phase_stack@))
        &&& stack_fits(phases_view(self.phase_stack@), self.ctx.request_list@.requirements)
    }

    /// The repository the resolve reads.
    pub closed spec fn repo(&self) -> Seq<(Seq<char>, crate::repo::FamilyModel)> {
        self.ctx.repo@
    }

    /// The merged requests.
    pub closed spec fn requests(&self) -> Seq<RequirementModel> {
        self.ctx.request_list@.requirements
    }

    /// The phases, bottom first.
    pub closed spec fn stack(&self) -> Seq<PhaseModel> {
        phases_view(self.phase_stack@)
    }

    /// Whether the merged request is in conflict.
    pub closed spec fn request_conflict(&self) -> bool {
        self.ctx.request_list@.conflict is Some
    }

    /// The number of solve steps run.
    pub closed spec fn spec_solve_count(&self) -> nat {
        self.solve_count as nat
    }

    /// The number of phases set aside after failing.
    pub closed spec fn spec_set_aside(&self) -> nat {
        self.failed_phase_list@.len()
    }

    /// The failure that the description of a failed resolve shows: that of
    /// the top phase when it failed or is cyclic, else that of the first
    /// phase set aside, else that of the top phase.
    pub closed spec fn shown_failure(&self) -> Option<FailureReason> {
        let top = self.phase_stack@.last();
        if top@.status == SolverStatus::Failed || top@.status == SolverStatus::Cyclic {
            top.failure()
        } else if self.failed_phase_list@.len() > 0 {
            self.failed_phase_list@[0].failure()
        } else {
            top.failure()
        }
    }

    /// The phases set aside after failing, first set aside first.
    pub closed spec fn set_aside_phases(&self) -> Seq<PhaseModel> {
        phases_view(self.failed_phase_list@)
    }

    /// A solver for `package_requests` against `repo`, choosing variants by
    /// version priority.
    pub fn new(package_requests: Vec<Requirement>, repo: Rc<PackageRepo>) -> (r: Result<Solver, ScopeError>)
        ensures
            r matches Ok(s) ==> s.spec_solve_count() == 0 && s.stack().len() == 1 && s.repo() == repo@,
            r matches Ok(s) ==> (s.request_conflict() <==> fold_conflict(reqs_view(package_requests@))),
            r matches Ok(s) ==> (!fold_conflict(reqs_view(package_requests@)) ==> s.requests() == fold_requirements(
                reqs_view(package_requests@),
            ).0),
            fold_conflict(reqs_view(package_requests@)) ==> (r matches Ok(s) && solver_status(
                s.request_conflict(),
                s.stack(),
            ) == SolverStatus::Failed),
            fold_conflict(reqs_view(package_requests@)) ==> (r matches Ok(s) && s.shown_failure() matches Some(f) && (f
                matches FailureReason::DependencyConflicts(cs) && cs@.len() == 1 && cs@[0].dependency@ == fold_requirements(
                reqs_view(package_requests@),
            ).1.unwrap().0 && cs@[0].conflicting_request@ == fold_requirements(reqs_view(package_requests@)).1.unwrap().1)),
            !fold_conflict(reqs_view(package_requests@)) && r is Ok ==> forall|i: int|
                0 <= i < fold_requirements(reqs_view(package_requests@)).0.len() ==> request_ok(
                    repo@,
                    #[trigger] fold_requirements(reqs_view(package_requests@)).0[i],
                ),
            r matches Err(e) ==> !fold_conflict(reqs_view(package_requests@)) && first_request_error(
                repo@,
                fold_requirements(reqs_view(package_requests@)).0,
                e,
            ),
            r matches Ok(s) ==> (!fold_conflict(reqs_view(package_requests@)) ==> solver_status(
                s.request_conflict(),
                s.stack(),
            ) == SolverStatus::Unsolved && s.stack()[0].status == SolverStatus::Pending),
    {
        Self::new_with_options(package_requests, repo, VariantSelectMode::VersionPriority)
    }

    /// A solver for `package_requests` against `repo`, choosing variants
    /// by `variant_select_mode`. A request in conflict gives a solver that
    /// has failed; a request naming a missing package or version is an
    /// error.
    pub fn new_with_options(
        package_requests: Vec<Requirement>,
        repo: Rc<PackageRepo>,
        variant_select_mode: VariantSelectMode,
    ) -> (r: Result<Solver, ScopeError>)
        ensures
            r matches Ok(s) ==> s.spec_solve_count() == 0 && s.stack().len() == 1 && s.repo() == repo@,
            r matches Ok(s) ==> (s.request_conflict() <==> fold_conflict(reqs_view(package_requests@))),
            r matches Ok(s) ==> (!fold_conflict(reqs_view(package_requests@)) ==> s.requests() == fold_requirements(
                reqs_view(package_requests@),
            ).0),
            fold_conflict(reqs_view(package_requests@)) ==> (r matches Ok(s) && solver_status(
                s.request_conflict(),
                s.stack(),
            ) == SolverStatus::Failed),
            fold_conflict(reqs_view(package_requests@)) ==> (r matches Ok(s) && s.shown_failure() matches Some(f) && (f
                matches FailureReason::DependencyConflicts(cs) && cs@.len() == 1 && cs@[0].dependency@ == fold_requirements(
                reqs_view(package_requests@),
            ).1.unwrap().0 && cs@[0].conflicting_request@ == fold_requirements(reqs_view(package_requests@)).1.unwrap().1)),
            !fold_conflict(reqs_view(package_requests@)) && r is Ok ==> forall|i: int|
                0 <= i < fold_requirements(reqs_view(package_requests@)).0.len() ==> request_ok(
                    repo@,
                    #[trigger] fold_requirements(reqs_view(package_requests@)).0[i],
                ),
            r matches Err(e) ==> !fold_conflict(reqs_view(package_requests@)) && first_request_error(
                repo@,
                fold_requirements(reqs_view(package_requests@)).0,
                e,
            ),
            r matches Ok(s) ==> (!fold_conflict(reqs_view(package_requests@)) ==> solver_status(
                s.request_conflict(),
                s.stack(),
            ) == SolverStatus::Unsolved && s.stack()[0].status == SolverStatus::Pending),
    {
        let request_list = RequirementList::new(package_requests);
        let ctx = SolverContext::new(repo, request_list).with_variant_select_mode(variant_select_mode);
        let conflict = match ctx.request_list.conflict() {
            Some(pair) => Some(
                FailureReason::DependencyConflicts(
                    vec![DependencyConflict { dependency: pair.0.duplicate(), conflicting_request: pair.1.duplicate() }],
                ),
            ),
            None => None,
        };
        match conflict {
            Some(failure) => {
                let phase = ResolvePhase::failed(failure);
                let stack = vec![phase];
                assert(phases_view(stack@) =~= seq![stack@[0]@]);
                Ok(Solver { ctx, phase_stack: stack, failed_phase_list: Vec::new(), solve_count: 0 })
            },
            None => {
                let phase = ResolvePhase::new(&ctx)?;
                let stack = vec![phase];
                assert(phases_view(stack@) =~= seq![stack@[0]@]);
                Ok(Solver { ctx, phase_stack: stack, failed_phase_list: Vec::new(), solve_count: 0 })
            },
        }
    }

    /// The state of the resolve.
    pub fn status(&self) -> (r: SolverStatus)
        ensures
            r == solver_status(self.request_conflict(), self.stack()),
    {
        proof {
            use_type_invariant(self);
        }
        if self.ctx.request_list.conflict().is_some() {
            return SolverStatus::Failed;
        }
        let n = self.phase_stack.len();
        assert(self.stack().last() == self.phase_stack@[n - 1]@);
        let st = self.phase_stack[n - 1].status();
        if st == SolverStatus::Cyclic {
            SolverStatus::Failed
        } else if n > 1 {
            if st == SolverStatus::Solved {
                SolverStatus::Solved
            } else {
                SolverStatus::Unsolved
            }
        } else if st == SolverStatus::Pending || st == SolverStatus::Exhausted {
            SolverStatus::Unsolved
        } else {
            st
        }
    }

    /// The number of solve steps run.
    pub fn num_solves(&self) -> (r: usize)
        ensures
            r == self.spec_solve_count(),
    {
        self.solve_count
    }

    /// The number of failed steps: the phases set aside, and the top one
    /// when it failed or is cyclic.
    pub fn num_fails(&self) -> (r: usize)
        ensures
            r == if (self.stack().last().status == SolverStatus::Failed || self.stack().last().status
                == SolverStatus::Cyclic) && self.spec_set_aside() < usize::MAX {
                self.spec_set_aside() + 1
            } else {
                self.spec_set_aside()
            },
    {
        proof {
            use_type_invariant(self);
        }
        let n = self.phase_stack.len();
        let st = self.phase_stack[n - 1].status();
        let extra: usize = if st == SolverStatus::Failed || st == SolverStatus::Cyclic {
            1
        } else {
            0
        };
        if self.failed_phase_list.len() < usize::MAX {
            self.failed_phase_list.len() + extra
        } else {
            self.failed_phase_list.len()
        }
    }

    /// One step of the resolve: sets aside a failed phase on top to resume
    /// the alternative beneath it, splits an exhausted phase (keeping the
    /// rest for later), resolves the phase, and puts the result on top
    /// (finished, when solved). Nothing when the resolve is not in
    /// progress.
    pub fn solve_step(&mut self)
        ensures
            solver_status(old(self).request_conflict(), old(self).stack()) != SolverStatus::Unsolved ==> {
                &&& final(self).stack() == old(self).stack()
                &&& final(self).set_aside_phases() == old(self).set_aside_phases()
                &&& final(self).spec_solve_count() == old(self).spec_solve_count()
            },
            solver_status(old(self).request_conflict(), old(self).stack()) == SolverStatus::Unsolved ==> {
                &&& stepped(old(self).stack(), final(self).stack())
                &&& final(self).set_aside_phases() == if old(self).stack().last().status == SolverStatus::Failed {
                    old(self).set_aside_phases().push(old(self).stack().last())
                } else {
                    old(self).set_aside_phases()
                }
                &&& final(self).spec_solve_count() == if old(self).spec_solve_count() < usize::MAX {
                    old(self).spec_solve_count() + 1
                } else {
                    old(self).spec_solve_count()
                }
            },
            final(self).spec_set_aside() == final(self).set_aside_phases().len(),
            final(self).request_conflict() == old(self).request_conflict(),
            final(self).requests() == old(self).requests(),
            final(self).repo() == old(self).repo(),
    {
        proof {
            use_type_invariant(&*self);
        }
        if self.status() != SolverStatus::Unsolved {
            return;
        }
        let mut taken = Solver::placeholder();
        std::mem::swap(&mut taken, self);
        let Solver { ctx, mut phase_stack, mut failed_phase_list, mut solve_count } = taken;
        let ghost s0 = phases_view(phase_stack@);
        let ghost f0 = phases_view(failed_phase_list@);
        let ghost n = s0.len();
        let mut phase = phase_stack.pop().unwrap();
        proof {
            assert(phases_view(phase_stack@) =~= s0.drop_last());
            assert(phase@ == s0.last());
        }
        if phase.status() == SolverStatus::Failed {
            // the top failed, so phases are left beneath it
            failed_phase_list.push(phase);
            proof {
                assert(phases_view(failed_phase_list@) =~= f0.push(s0.last()));
            }
            let ghost s1 = phases_view(phase_stack@);
            phase = phase_stack.pop().unwrap();
            proof {
                assert(phase@ == s1.last());
                assert(s1.last() == s0[s0.len() - 2]);
                assert(phases_view(phase_stack@) =~= s1.drop_last());
                assert(phases_view(phase_stack@) =~= s0.take(n - 2));
            }
        } else {
            proof {
                assert(phases_view(phase_stack@) =~= s0.take(n - 1));
            }
        }
        if phase.status() == SolverStatus::Exhausted {
            let (first, next) = phase.split(&ctx);
            let ghost s2 = phases_view(phase_stack@);
            phase_stack.push(next);
            proof {
                assert(phases_view(phase_stack@) =~= s2.push(phase_stack@[s2.len() as int]@));
            }
            phase = first;
        }
        let new_phase = phase.solve(&ctx);
        if solve_count < usize::MAX {
            solve_count = solve_count + 1;
        }
        let top = if new_phase.status() == SolverStatus::Solved {
            new_phase.finalise(&ctx)
        } else {
            new_phase
        };
        let ghost s3 = phases_view(phase_stack@);
        phase_stack.push(top);
        proof {
            let nv = phases_view(phase_stack@);
            assert(nv =~= s3.push(phase_stack@[s3.len() as int]@));
            assert forall|i: int| 0 <= i < nv.len() - 1 implies (#[trigger] nv[i]).status == SolverStatus::Pending by {
                assert(nv[i] == s3[i]);
            }
            assert(nv.take(s3.len() as int) =~= s3);
            if s0.last().status == SolverStatus::Failed {
                assert(nv.take(n - 2) =~= s0.take(n - 2));
            } else if s0.last().status == SolverStatus::Exhausted {
                assert(nv.take(n - 1) =~= s0.take(n - 1));
            } else {
                assert(nv.take(n - 1) =~= s0.take(n - 1));
            }
        }
        *self = Solver { ctx, phase_stack, failed_phase_list, solve_count };
    }

    /// A solver with no request, used while a step takes the solver apart:
    /// its one phase has failed (with an empty cycle), and nothing was set
    /// aside or run.
    fn placeholder() -> (r: Solver)
        ensures
            r.stack().len() == 1,
            r.stack()[0].status == SolverStatus::Failed,
            r.stack()[0].failed,
            r.stack()[0].scopes.len() == 0,
            r.requests().len() == 0,
            !r.request_conflict(),
            r.set_aside_phases().len() == 0,
            r.spec_solve_count() == 0,
    {
        let ctx = SolverContext::new(Rc::new(PackageRepo::empty()), RequirementList::new(Vec::new()));
        let phase = ResolvePhase::failed(FailureReason::Cycle(Vec::new()));
        let stack = vec![phase];
        assert(phases_view(stack@) =~= seq![stack@[0]@]);
        Solver { ctx, phase_stack: stack, failed_phase_list: Vec::new(), solve_count: 0 }
    }

    /// Runs the resolve until it is no longer in progress (or gives up
    /// after `u64::MAX` steps).
    pub fn solve(&mut self)
        ensures
            solver_status(final(self).request_conflict(), final(self).stack()) != SolverStatus::Unsolved
                || final(self).spec_solve_count() == usize::MAX,
            solver_status(old(self).request_conflict(), old(self).stack()) != SolverStatus::Unsolved ==> {
                &&& final(self).stack() == old(self).stack()
                &&& final(self).set_aside_phases() == old(self).set_aside_phases()
                &&& final(self).spec_solve_count() == old(self).spec_solve_count()
            },
            final(self).spec_solve_count() >= old(self).spec_solve_count(),
            final(self).request_conflict() == old(self).request_conflict(),
            final(self).requests() == old(self).requests(),
            final(self).repo() == old(self).repo(),
    {
        let mut steps: u64 = u64::MAX;
        let ghost c0 = self.spec_solve_count();
        while self.status() == SolverStatus::Unsolved && steps > 0
            invariant
                self.request_conflict() == old(self).request_conflict(),
                self.requests() == old(self).requests(),
                self.repo() == old(self).repo(),
                c0 == old(self).spec_solve_count(),
                self.spec_solve_count() == if c0 + (u64::MAX - steps) < usize::MAX {
                    c0 + (u64::MAX - steps)
                } else {
                    usize::MAX as int
                },
                steps == u64::MAX ==> {
                    &&& self.stack() == old(self).stack()
                    &&& self.set_aside_phases() == old(self).set_aside_phases()
                },
                solver_status(old(self).request_conflict(), old(self).stack()) != SolverStatus::Unsolved ==> steps
                    == u64::MAX,
            decreases steps,
        {
            self.solve_step();
            steps = steps - 1;
        }
    }

    /// The resolved variants, or nothing when the resolve did not succeed.
    pub fn resolved_packages(&self) -> (r: Option<Vec<Rc<PackageVariant>>>)
        ensures
            r is None <==> solver_status(self.request_conflict(), self.stack()) != SolverStatus::Solved,
            r matches Some(v) ==> v@ == solved_of(self.stack().last().scopes),
            r matches Some(v) ==> forall|i: int| 0 <= i < v@.len() ==> within_requests(#[trigger] v@[i]@, self.requests()),
            r matches Some(v) ==> forall|i: int, j: int| 0 <= i < j < v@.len() ==> (#[trigger] v@[i])@.name != (#[trigger] v@[j])@.name,
    {
        proof {
            use_type_invariant(self);
        }
        if self.status() != SolverStatus::Solved {
            return None;
        }
        proof {
            lemma_solved_within(self.stack().last().scopes, self.requests());
            crate::phase::lemma_solved_names(self.stack().last().scopes, self.requests());
        }
        let n = self.phase_stack.len();
        assert(self.stack().last() == self.phase_stack@[n - 1]@);
        Some(self.phase_stack[n - 1].solved_variants())
    }

    /// The requests of the resolved ephemerals, or nothing when the resolve
    /// did not succeed.
    pub fn resolved_ephemerals(&self) -> (r: Option<Vec<Requirement>>)
        ensures
            r is None <==> solver_status(self.request_conflict(), self.stack()) != SolverStatus::Solved,
            r matches Some(v) ==> reqs_view(v@) == ephemerals_of(self.stack().last().scopes),
    {
        proof {
            use_type_invariant(self);
        }
        if self.status() != SolverStatus::Solved {
            return None;
        }
        let n = self.phase_stack.len();
        assert(self.stack().last() == self.phase_stack@[n - 1]@);
        Some(self.phase_stack[n - 1].solved_ephemerals())
    }

    /// Why the resolve failed, or nothing when it did not fail: the
    /// failure of the top phase when it failed or is cyclic, else of the
    /// first phase set aside.
    pub fn failure_description(&self) -> (r: Option<String>)
        ensures
            r is None <==> solver_status(self.request_conflict(), self.stack()) != SolverStatus::Failed,
            r matches Some(d) ==> d@ == match self.shown_failure() {
                Some(f) => description_text(f),
                None => "solver failed with unknown reason"@,
            },
    {
        proof {
            use_type_invariant(self);
        }
        if self.status() != SolverStatus::Failed {
            return None;
        }
        let n = self.phase_stack.len();
        let top = &self.phase_stack[n - 1];
        let phase = if top.status() == SolverStatus::Failed || top.status() == SolverStatus::Cyclic {
            top
        } else if self.failed_phase_list.len() > 0 {
            &self.failed_phase_list[0]
        } else {
            top
        };
        assert(self.phase_stack@.last() == self.phase_stack@[n - 1]);
        assert(phase.failure() == self.shown_failure());
        match phase.failure_reason() {
            Some(reason) => Some(reason.description()),
            None => Some("solver failed with unknown reason".to_owned()),
        }
    }
}

/// Merging the requirements meets a pair that cannot be merged.
pub open spec fn fold_conflict(reqs: Seq<crate::requirement::RequirementModel>) -> bool {
    crate::requirement::fold_requirements(reqs).1 is Some
}

} // verus!
