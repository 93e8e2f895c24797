//! One package's state during a resolve: a slice of its variants (a
//! normal scope), or a conflict (`!foo`, `~foo`) or ephemeral (`.foo`)
//! requirement that has no variants.
use vstd::prelude::*;
use std::rc::Rc;
use crate::requirement::{Requirement, RequirementModel, requirement_text};
use crate::package_id::decimal;
use crate::range::{VersionRange, any_model};
use crate::range_model::{SegModel, intersect_model, complement_model, range_contains};
use crate::text::{chars_of, str_concat};
use crate::variant::{PackageVariant, Reduction};
use crate::variant_slice::{
    PackageVariantSlice, SliceModel, SliceIntersect, SliceReduce, flat, extractable_model, entries_in,
    reduced_entries, dropped_variants, mentioned, kept_variants, EntryModel, variants_within, has_variant,
    lemma_entries_in_within, lemma_reduced_within,
};
use crate::variant::VariantModel;
use crate::laws::satisfies;
use crate::context::{SolverContext, some_version_in, no_version_in, variants_in, variants_named};
use crate::repo::{family_of, FamilyModel};

verus! {

/// Why a scope could not be made.
#[derive(Debug)]
pub enum ScopeError {
    /// The repository has no such package family.
    FamilyNotFound(String),
    /// The family has no version in the requested range.
    PackageNotFound(Requirement),
}

/// The message of a scope error.
pub open spec fn scope_error_text(e: ScopeError) -> Seq<char> {
    match e {
        ScopeError::FamilyNotFound(name) => "package family not found: "@ + name@,
        ScopeError::PackageNotFound(req) => "package could not be found: "@ + requirement_text(req@),
    }
}

impl ScopeError {
    /// The message of the error.
    pub fn to_string(&self) -> (s: String)
        ensures
            s@ == scope_error_text(*self),
    {
        match self {
            ScopeError::FamilyNotFound(name) => str_concat("package family not found: ", name.as_str()),
            ScopeError::PackageNotFound(req) => str_concat("package could not be found: ", req.to_string().as_str()),
        }
    }
}

/// The model of a scope.
pub struct ScopeModel {
    pub package_name: Seq<char>,
    pub package_request: RequirementModel,
    pub slice: Option<SliceModel>,
    pub is_ephemeral: bool,
}

/// The text of a scope: `name[N variants]` for a slice of `N` variants,
/// otherwise the text of its request.
pub open spec fn scope_text(m: ScopeModel) -> Seq<char> {
    match m.slice {
        Some(s) => s.package_name + "["@ + decimal(flat(s.entries).len()) + " variants]"@,
        None => requirement_text(m.package_request),
    }
}

/// A scope holds variants exactly when it is neither a conflict nor an
/// ephemeral, and its request is on its package.
pub open spec fn scope_wf(m: ScopeModel) -> bool {
    &&& (m.slice is Some) == (!m.package_request.conflict && !m.is_ephemeral)
    &&& m.package_request.name == m.package_name
}

/// The scope is fully resolved: a conflict or an ephemeral, or down to
/// one variant with nothing left to extract.
pub open spec fn scope_solved(m: ScopeModel) -> bool {
    match m.slice {
        Some(s) => flat(s.entries).len() == 1 && !extractable_model(s),
        None => true,
    }
}

/// The number of variants of the scope.
pub open spec fn scope_size(m: ScopeModel) -> nat {
    match m.slice {
        Some(s) => flat(s.entries).len(),
        None => 0,
    }
}

/// A request that a scope can be made for: a conflict, an ephemeral, or
/// a package of the repository with some version in the request's range.
pub open spec fn request_ok(repo: Seq<(Seq<char>, FamilyModel)>, req: RequirementModel) -> bool {
    req.conflict || ephemeral_name(req.name) || (family_of(repo, req.name) matches Some(f) && some_version_in(
        f,
        request_range(req),
    ))
}

/// `e` is the error of making a scope for the request: its family is
/// missing, or none of its versions is in the request's range.
pub open spec fn request_error(repo: Seq<(Seq<char>, FamilyModel)>, req: RequirementModel, e: ScopeError) -> bool {
    &&& !req.conflict
    &&& !ephemeral_name(req.name)
    &&& match e {
        ScopeError::FamilyNotFound(n) => n@ == req.name && family_of(repo, req.name) is None,
        ScopeError::PackageNotFound(q) => q@.name == req.name && q@.range == Some(request_range(req)) && !q@.conflict
            && (family_of(repo, req.name) matches Some(f) && no_version_in(f, request_range(req))),
    }
}

/// The variant is of package `name` and meets every request on that
/// package.
pub open spec fn fits(w: VariantModel, name: Seq<char>, reqs: Seq<RequirementModel>) -> bool {
    &&& w.name == name
    &&& forall|k: int| 0 <= k < reqs.len() && (#[trigger] reqs[k]).name == name ==> satisfies(reqs[k], w.version)
}

/// Every variant of the entries fits the requests on package `name`.
pub open spec fn entries_fit(es: Seq<EntryModel>, name: Seq<char>, reqs: Seq<RequirementModel>) -> bool {
    forall|i: int, j: int| 0 <= i < es.len() && 0 <= j < es[i].variants.len() ==> fits(
        (#[trigger] es[i].variants[j])@,
        name,
        reqs,
    )
}

/// No variant of the entries has a version within `x`.
pub open spec fn variants_outside(es: Seq<EntryModel>, x: Seq<SegModel>) -> bool {
    forall|i: int, j: int| 0 <= i < es.len() && 0 <= j < es[i].variants.len() ==> !range_contains(
        x,
        (#[trigger] es[i].variants[j])@.version,
    )
}

/// Some request on package `name` is not a conflict.
pub open spec fn names_normal_request(reqs: Seq<RequirementModel>, name: Seq<char>) -> bool {
    exists|k: int| 0 <= k < reqs.len() && !(#[trigger] reqs[k]).conflict && reqs[k].name == name
}

/// The scope's variants fit the requests; the scope of a package that a
/// request that is not a conflict names is not a conflict; and a conflict
/// scope holds the request on its package, where there is one.
pub open spec fn scope_fits(s: ScopeModel, reqs: Seq<RequirementModel>) -> bool {
    &&& (s.slice matches Some(sl) ==> entries_fit(sl.entries, s.package_name, reqs))
    &&& (names_normal_request(reqs, s.package_name) ==> !s.package_request.conflict)
    &&& (s.package_request.conflict ==> forall|k: int|
        0 <= k < reqs.len() && (#[trigger] reqs[k]).name == s.package_name ==> reqs[k] == s.package_request)
}

/// Entries whose variants are among fitting ones fit too.
pub proof fn lemma_fit_within(es: Seq<EntryModel>, old: Seq<EntryModel>, name: Seq<char>, reqs: Seq<RequirementModel>)
    requires
        entries_fit(old, name, reqs),
        variants_within(es, old),
    ensures
        entries_fit(es, name, reqs),
{
    assert forall|i: int, j: int| 0 <= i < es.len() && 0 <= j < es[i].variants.len() implies fits(
        (#[trigger] es[i].variants[j])@,
        name,
        reqs,
    ) by {
        assert(has_variant(old, es[i].variants[j]));
        let (a, b) = choose|a: int, b: int| 0 <= a < old.len() && 0 <= b < old[a].variants.len() && old[a].variants[b] == es[i].variants[j];
        assert(fits(old[a].variants[b]@, name, reqs));
    }
}

/// The outcome of narrowing a scope to a range.
pub enum ScopeIntersect {
    /// Nothing changed.
    Unchanged,
    /// The scope was narrowed (or a conflict widened into a normal scope).
    Narrowed(PackageScope),
    /// Nothing is left: a conflict.
    Empty,
}

/// The outcome of reducing a scope by a requirement.
pub enum ScopeReduce {
    /// Nothing changed.
    Unchanged,
    /// Some variants were removed.
    Reduced(PackageScope),
    /// Every variant was removed.
    Empty,
}

/// One package's possible solutions during a resolve.
#[derive(Debug)]
pub struct PackageScope {
    package_name: String,
    package_request: Requirement,
    variant_slice: Option<PackageVariantSlice>,
    is_ephemeral: bool,
}

impl View for PackageScope {
    type V = ScopeModel;

    closed spec fn view(&self) -> ScopeModel {
        ScopeModel {
            package_name: self.package_name@,
            package_request: self.package_request@,
            slice: match self.variant_slice {
                Some(s) => Some(s@),
                None => None,
            },
            is_ephemeral: self.is_ephemeral,
        }
    }
}

/// A name that starts with `.` names an ephemeral.
pub open spec fn ephemeral_name(name: Seq<char>) -> bool {
    name.len() > 0 && name[0] == '.'
}

pub(crate) fn is_ephemeral_name(name: &str) -> (b: bool)
    ensures
        b == ephemeral_name(name@),
{
    let cs = chars_of(name);
    cs.len() > 0 && cs[0] == '.'
}

/// The range a scope's request stands for: its range, or every version
/// for the weak requirement with no range.
pub open spec fn request_range(r: RequirementModel) -> Seq<SegModel> {
    match r.range {
        Some(x) => x,
        None => any_model(),
    }
}

/// The range of a requirement, every version when it has none.
fn range_or_any(r: &Requirement) -> (x: VersionRange)
    ensures
        x@ == request_range(r@),
{
    match r.range() {
        Some(x) => x.duplicate(),
        None => VersionRange::any(),
    }
}

impl PackageScope {
    #[verifier::type_invariant]
    spec fn inv(self) -> bool {
        scope_wf(self@)
    }

    /// Every scope is well formed.
    pub fn check_wf(&self)
        ensures
            scope_wf(self@),
    {
        proof {
            use_type_invariant(self);
        }
    }

    /// A copy of the scope (the variants are shared).
    pub fn duplicate(&self) -> (r: PackageScope)
        ensures
            r@ == self@,
    {
        proof {
            use_type_invariant(self);
        }
        PackageScope {
            package_name: self.package_name.clone(),
            package_request: self.package_request.duplicate(),
            variant_slice: match &self.variant_slice {
                Some(s) => Some(s.duplicate()),
                None => None,
            },
            is_ephemeral: self.is_ephemeral,
        }
    }

    /// The normal scope of `slice`: its request is the package over the
    /// versions of the slice.
    fn from_slice(package_name: String, slice: PackageVariantSlice, is_ephemeral: bool) -> (r: PackageScope)
        requires
            !is_ephemeral,
        ensures
            r@.package_name == package_name@,
            r@.slice == Some(slice@),
            !r@.is_ephemeral,
            r@.package_request.name == package_name@,
            !r@.package_request.conflict,
            crate::range::singletons_of(
                request_range(r@.package_request),
                slice@.entries.map_values(|e: EntryModel| e.version),
            ),
    {
        let range = slice.range();
        let package_request = Requirement::construct(package_name.clone(), Some(range));
        PackageScope { package_name, package_request, variant_slice: Some(slice), is_ephemeral }
    }

    /// The scope of `package_request`: a conflict or an ephemeral holds no
    /// variants; otherwise the variants of the package within the
    /// request's range, and an error when the family or any version in
    /// range is missing.
    pub fn new(package_request: Requirement, ctx: &SolverContext) -> (r: Result<PackageScope, ScopeError>)
        ensures
            (package_request@.conflict || ephemeral_name(package_request@.name)) ==> (r matches Ok(s) && s@ == (
            ScopeModel {
                package_name: package_request@.name,
                package_request: package_request@,
                slice: None,
                is_ephemeral: ephemeral_name(package_request@.name),
            })),
            r matches Ok(s) ==> s@.package_name == package_request@.name,
            r matches Ok(s) ==> (s@.slice is Some ==> s@.package_request.name == package_request@.name
                && !s@.package_request.conflict),
            r matches Err(e) ==> !package_request@.conflict && !ephemeral_name(package_request@.name) && match e {
                ScopeError::FamilyNotFound(n) => n@ == package_request@.name && family_of(ctx.repo@, n@) is None,
                ScopeError::PackageNotFound(q) => q@.name == package_request@.name && q@.range == Some(
                    request_range(package_request@),
                ) && !q@.conflict,
            },
            !package_request@.conflict && !ephemeral_name(package_request@.name) && family_of(
                ctx.repo@,
                package_request@.name,
            ) is None ==> r is Err,
            r matches Err(ScopeError::PackageNotFound(_)) ==> (family_of(ctx.repo@, package_request@.name) matches Some(f)
                && no_version_in(f, request_range(package_request@))),
            r is Ok && !package_request@.conflict && !ephemeral_name(package_request@.name) ==> (family_of(
                ctx.repo@,
                package_request@.name,
            ) matches Some(f) && some_version_in(f, request_range(package_request@))),
            r is Ok ==> request_ok(ctx.repo@, package_request@),
            r matches Ok(s) ==> s@.package_request.conflict == package_request@.conflict,
            r matches Err(e) ==> request_error(ctx.repo@, package_request@, e),
            r matches Ok(s) ==> (s@.slice matches Some(sl) ==> variants_in(
                sl.entries,
                package_request@.name,
                request_range(package_request@),
            )),
    {
        let package_name = package_request.name().to_owned();
        let is_ephemeral = is_ephemeral_name(package_name.as_str());
        if package_request.is_conflict() || is_ephemeral {
            return Ok(PackageScope { package_name, package_request, variant_slice: None, is_ephemeral });
        }
        let range = range_or_any(&package_request);
        match ctx.get_variant_slice(package_name.as_str(), &range) {
            Some(slice) => Ok(PackageScope::from_slice(package_name, slice, false)),
            None => {
                if ctx.family_missing(package_name.as_str()) {
                    Err(ScopeError::FamilyNotFound(package_name))
                } else {
                    Err(ScopeError::PackageNotFound(Requirement::construct(package_name, Some(range))))
                }
            },
        }
    }

    /// The package name.
    pub fn package_name(&self) -> (r: &str)
        ensures
            r@ == self@.package_name,
    {
        self.package_name.as_str()
    }

    /// The scope's request: the defining requirement of a conflict or an
    /// ephemeral, the package over the slice's versions otherwise.
    pub fn package_request(&self) -> (r: &Requirement)
        ensures
            r@ == self@.package_request,
    {
        &self.package_request
    }

    /// The slice of variants of a normal scope.
    pub fn variant_slice(&self) -> (r: Option<&PackageVariantSlice>)
        ensures
            match r {
                Some(s) => self@.slice == Some(s@),
                None => self@.slice is None,
            },
    {
        match &self.variant_slice {
            Some(s) => Some(s),
            None => None,
        }
    }

    /// Whether this is a conflict scope (`!foo`, `~foo`).
    pub fn is_conflict(&self) -> (b: bool)
        ensures
            b == self@.package_request.conflict,
    {
        self.package_request.is_conflict()
    }

    /// Whether this is an ephemeral scope (`.foo`).
    pub fn is_ephemeral(&self) -> (b: bool)
        ensures
            b == self@.is_ephemeral,
    {
        self.is_ephemeral
    }

    /// Narrows the scope to `range`. An ephemeral scope narrows its range
    /// (`range` minus a conflict's range, or within a normal one's); a
    /// conflict scope becomes the normal scope of `range` minus its own
    /// range; a normal scope keeps the versions in range.
    pub fn intersect(&self, range: &VersionRange, ctx: &SolverContext) -> (r: ScopeIntersect)
        ensures
            self@.is_ephemeral ==> ({
                let req = self@.package_request;
                let ir = if req.conflict {
                    intersect_model(range@, complement_model(request_range(req)))
                } else {
                    intersect_model(range@, request_range(req))
                };
                let empty = if req.conflict {
                    request_range(req) == any_model() || ir.len() == 0
                } else {
                    ir.len() == 0
                };
                &&& empty ==> r is Empty
                &&& !empty && ir == request_range(req) ==> r is Unchanged
                &&& !empty && ir != request_range(req) ==> (r matches ScopeIntersect::Narrowed(s) && s@ == (ScopeModel {
                    package_request: RequirementModel {
                        name: self@.package_name,
                        range: Some(ir),
                        negate: false,
                        conflict: false,
                        sep: '-',
                    },
                    ..self@
                }))
            }),
            !self@.is_ephemeral && self@.package_request.conflict ==> (r is Empty || (r matches ScopeIntersect::Narrowed(s)
                && s@.slice is Some && s@.package_name == self@.package_name && !s@.package_request.conflict
                && variants_named(s@.slice.unwrap().entries, self@.package_name))),
            r is Narrowed ==> r->Narrowed_0@.package_name == self@.package_name,
            !self@.is_ephemeral && self@.package_request.conflict && r is Narrowed && self@.package_request.range is Some
                ==> variants_outside(
                r->Narrowed_0@.slice.unwrap().entries,
                self@.package_request.range.unwrap(),
            ),
            self@.slice is Some && r is Narrowed ==> !r->Narrowed_0@.package_request.conflict
                && r->Narrowed_0@.slice is Some && variants_within(
                r->Narrowed_0@.slice.unwrap().entries,
                self@.slice.unwrap().entries,
            ),
            self@.slice matches Some(sl) ==> ({
                let kept = entries_in(sl.entries, range@);
                &&& range@ == any_model() ==> r is Unchanged
                &&& range@ != any_model() && kept.len() == 0 ==> r is Empty
                &&& range@ != any_model() && 0 < kept.len() < sl.entries.len() ==> (r matches ScopeIntersect::Narrowed(s)
                    && s@.package_name == self@.package_name && s@.slice == Some(
                    SliceModel { package_name: sl.package_name, entries: kept, extracted_fams: Seq::empty() },
                ) && !s@.is_ephemeral)
                &&& range@ != any_model() && kept.len() >= sl.entries.len() ==> r is Unchanged
            }),
    {
        proof {
            use_type_invariant(self);
        }
        if self.is_ephemeral {
            return self.intersect_ephemeral(range);
        }
        if self.is_conflict() {
            let new_slice = match self.package_request.range() {
                None => ctx.get_variant_slice(self.package_name.as_str(), range),
                Some(req_range) => match range.difference(req_range) {
                    Some(new_range) => {
                        range.check_wf();
                        req_range.check_wf();
                        let sl = ctx.get_variant_slice(self.package_name.as_str(), &new_range);
                        proof {
                            if sl is Some {
                                let es = sl.unwrap()@.entries;
                                assert forall|i: int, j: int| 0 <= i < es.len() && 0 <= j < es[i].variants.len() implies !range_contains(
                                    req_range@,
                                    (#[trigger] es[i].variants[j])@.version,
                                ) by {
                                    crate::laws::law_difference(range@, req_range@, es[i].variants[j]@.version);
                                }
                            }
                        }
                        sl
                    },
                    None => None,
                },
            };
            return match new_slice {
                None => ScopeIntersect::Empty,
                Some(slice) => ScopeIntersect::Narrowed(PackageScope::from_slice(self.package_name.clone(), slice, false)),
            };
        }
        let slice = self.variant_slice.as_ref().unwrap();
        proof {
            lemma_entries_in_within(slice@.entries, range@);
        }
        match slice.intersect(range) {
            SliceIntersect::Empty => ScopeIntersect::Empty,
            SliceIntersect::Unchanged => ScopeIntersect::Unchanged,
            SliceIntersect::Narrowed(s) => ScopeIntersect::Narrowed(
                PackageScope::from_slice(self.package_name.clone(), s, false),
            ),
        }
    }

    /// An ephemeral scope narrowed to `range`.
    fn intersect_ephemeral(&self, range: &VersionRange) -> (r: ScopeIntersect)
        requires
            self@.is_ephemeral,
        ensures
            ({
                let req = self@.package_request;
                let ir = if req.conflict {
                    intersect_model(range@, complement_model(request_range(req)))
                } else {
                    intersect_model(range@, request_range(req))
                };
                let empty = if req.conflict {
                    request_range(req) == any_model() || ir.len() == 0
                } else {
                    ir.len() == 0
                };
                &&& empty ==> r is Empty
                &&& !empty && ir == request_range(req) ==> r is Unchanged
                &&& !empty && ir != request_range(req) ==> (r matches ScopeIntersect::Narrowed(s) && s@ == (ScopeModel {
                    package_request: RequirementModel {
                        name: self@.package_name,
                        range: Some(ir),
                        negate: false,
                        conflict: false,
                        sep: '-',
                    },
                    ..self@
                }))
            }),
    {
        proof {
            use_type_invariant(self);
        }
        let req_range = range_or_any(&self.package_request);
        let intersect_range = if self.is_conflict() {
            range.difference(&req_range)
        } else {
            range.intersection(&req_range)
        };
        match intersect_range {
            None => ScopeIntersect::Empty,
            Some(ir) => {
                if ir.same_as(&req_range) {
                    ScopeIntersect::Unchanged
                } else {
                    let package_request = Requirement::construct(self.package_name.clone(), Some(ir));
                    ScopeIntersect::Narrowed(
                        PackageScope {
                            package_name: self.package_name.clone(),
                            package_request,
                            variant_slice: None,
                            is_ephemeral: true,
                        },
                    )
                }
            },
        }
    }

    /// Removes the variants whose requirements conflict with
    /// `package_request`; a conflict or ephemeral scope has none.
    pub fn reduce_by(&self, package_request: &Requirement) -> (r: (ScopeReduce, Vec<Reduction>))
        ensures
            self@.slice is None ==> r.0 is Unchanged && r.1@.len() == 0,
            self@.slice matches Some(sl) ==> ({
                let fv = flat(sl.entries);
                let req = package_request@;
                if req.range is None || !mentioned(fv, req.name) {
                    r.0 is Unchanged && r.1@.len() == 0
                } else {
                    let ne = reduced_entries(sl.entries, req);
                    let ds = dropped_variants(fv, req);
                    &&& ne.len() == 0 ==> r.0 is Empty && crate::variant_slice::records_reductions(r.1@, ds, req)
                    &&& ne.len() > 0 && ds.len() > 0 ==> (r.0 matches ScopeReduce::Reduced(s) && s@.package_name
                        == self@.package_name && s@.slice == Some(
                        SliceModel { package_name: sl.package_name, entries: ne, extracted_fams: Seq::empty() },
                    ) && !s@.is_ephemeral && crate::variant_slice::records_reductions(r.1@, ds, req))
                    &&& ne.len() > 0 && ds.len() == 0 ==> r.0 is Unchanged && r.1@.len() == 0
                }
            }),
            r.0 is Empty ==> r.1@.len() > 0,
            r.0 is Reduced ==> r.0->Reduced_0@.package_name == self@.package_name,
            r.0 is Reduced ==> self@.slice is Some && r.0->Reduced_0@.slice is Some && variants_within(
                r.0->Reduced_0@.slice.unwrap().entries,
                self@.slice.unwrap().entries,
            ) && !r.0->Reduced_0@.package_request.conflict,
    {
        proof {
            use_type_invariant(self);
        }
        match &self.variant_slice {
            None => (ScopeReduce::Unchanged, Vec::new()),
            Some(slice) => {
                proof {
                    lemma_reduced_within(slice@.entries, package_request@);
                    lemma_all_reduced(slice@.entries, package_request@);
                }
                let (result, reductions) = slice.reduce_by(package_request);
                match result {
                    SliceReduce::Empty => (ScopeReduce::Empty, reductions),
                    SliceReduce::Reduced(s) => (
                        ScopeReduce::Reduced(PackageScope::from_slice(self.package_name.clone(), s, false)),
                        reductions,
                    ),
                    SliceReduce::Unchanged => (ScopeReduce::Unchanged, Vec::new()),
                }
            },
        }
    }

    /// Extracts a package that every variant requires (see the slice's
    /// `extract`): the scope with its slice marked, and the requirement.
    /// Nothing for a conflict or ephemeral scope.
    pub fn extract(&self) -> (r: Option<(PackageScope, Requirement)>)
        ensures
            self@.slice is None ==> r is None,
            self@.slice matches Some(sl) ==> (r is None <==> !extractable_model(sl)),
            r matches Some(p) ==> self@.slice matches Some(sl) && p.0@.slice matches Some(ns) && ns == (SliceModel {
                extracted_fams: sl.extracted_fams.push(p.1@.name),
                ..sl
            }) && p.0@.package_name == self@.package_name && p.0@.package_request == self@.package_request
                && p.0@.is_ephemeral == self@.is_ephemeral && crate::variant_slice::in_all(flat(sl.entries), p.1@.name)
                && !sl.extracted_fams.contains(p.1@.name) && !p.1@.conflict && p.1@.range == Some(
                match crate::variant_slice::extract_range(flat(sl.entries), p.1@.name) {
                    Some(u) => u,
                    None => any_model(),
                },
            ),
    {
        proof {
            use_type_invariant(self);
        }
        match &self.variant_slice {
            None => None,
            Some(slice) => match slice.extract() {
                None => None,
                Some((new_slice, req)) => Some(
                    (
                        PackageScope {
                            package_name: self.package_name.clone(),
                            package_request: self.package_request.duplicate(),
                            variant_slice: Some(new_slice),
                            is_ephemeral: self.is_ephemeral,
                        },
                        req,
                    ),
                ),
            },
        }
    }

    /// Splits a normal scope of several variants, nothing of which is left
    /// to extract, into a preferred part and the rest (see the slice's
    /// `split`). Nothing for a conflict or ephemeral scope, a scope of one
    /// variant, or one with a package left to extract.
    pub fn split(&self, ctx: &SolverContext) -> (r: Option<(PackageScope, PackageScope)>)
        ensures
            self@.slice is None ==> r is None,
            self@.slice matches Some(sl) ==> (r is None <==> (flat(sl.entries).len() <= 1 || extractable_model(sl))),
            r matches Some(p) ==> p.0@.package_name == self@.package_name && p.1@.package_name == self@.package_name
                && p.0@.slice is Some && p.1@.slice is Some && !p.0@.is_ephemeral && !p.1@.is_ephemeral,
            r is Some ==> self@.slice is Some && variants_within(
                r.unwrap().0@.slice.unwrap().entries,
                self@.slice.unwrap().entries,
            ) && variants_within(r.unwrap().1@.slice.unwrap().entries, self@.slice.unwrap().entries)
                && !r.unwrap().0@.package_request.conflict && !r.unwrap().1@.package_request.conflict,
    {
        proof {
            use_type_invariant(self);
        }
        match &self.variant_slice {
            None => None,
            Some(slice) => {
                if slice.len() <= 1 || slice.extractable() {
                    return None;
                }
                let mut s = slice.duplicate();
                let (a, b) = s.split(&ctx.request_list, ctx.variant_select_mode);
                Some(
                    (
                        PackageScope::from_slice(self.package_name.clone(), a, false),
                        PackageScope::from_slice(self.package_name.clone(), b, false),
                    ),
                )
            },
        }
    }

    /// Whether the scope is fully resolved.
    pub fn is_solved(&self) -> (b: bool)
        ensures
            b == scope_solved(self@),
    {
        match &self.variant_slice {
            None => true,
            Some(slice) => slice.len() == 1 && !slice.extractable(),
        }
    }

    /// The one variant of a resolved normal scope.
    pub fn get_solved_variant(&self) -> (r: Option<Rc<PackageVariant>>)
        ensures
            match r {
                Some(v) => self@.slice matches Some(sl) && scope_solved(self@) && v == flat(sl.entries)[0],
                None => self@.slice is None || !scope_solved(self@),
            },
    {
        match &self.variant_slice {
            Some(slice) => {
                if slice.len() == 1 && !slice.extractable() {
                    let vs = slice.variants();
                    Some(crate::variant::share(&vs[0]))
                } else {
                    None
                }
            },
            None => None,
        }
    }

    /// The request of an ephemeral that is not a conflict.
    pub fn get_solved_ephemeral(&self) -> (r: Option<&Requirement>)
        ensures
            match r {
                Some(q) => self@.is_ephemeral && !self@.package_request.conflict && q@ == self@.package_request,
                None => !(self@.is_ephemeral && !self@.package_request.conflict),
            },
    {
        if self.is_ephemeral && !self.is_conflict() {
            Some(&self.package_request)
        } else {
            None
        }
    }

    /// The scope as text: the slice (`name[N variants]`), or the request.
    pub fn to_string(&self) -> (s: String)
        ensures
            s@ == scope_text(self@),
    {
        match &self.variant_slice {
            Some(slice) => {
                let digits = crate::package_id::decimal_text(slice.len() as u64);
                let count = crate::text::string_from_chars(digits.as_slice());
                let head = str_concat(slice.package_name(), "[");
                let body = str_concat(head.as_str(), count.as_str());
                str_concat(body.as_str(), " variants]")
            },
            None => self.package_request.to_string(),
        }
    }
}

/// A list of variants splits into those a request keeps and those it
/// drops.
proof fn lemma_kept_dropped_len(vs: Seq<Rc<PackageVariant>>, req: RequirementModel)
    ensures
        crate::variant_slice::kept_variants(vs, req).len() + dropped_variants(vs, req).len() == vs.len(),
    decreases vs.len(),
{
    if vs.len() > 0 {
        lemma_kept_dropped_len(vs.drop_last(), req);
    }
}

/// The variants dropped from two lists one after the other are those
/// dropped from each.
proof fn lemma_dropped_append(a: Seq<Rc<PackageVariant>>, b: Seq<Rc<PackageVariant>>, req: RequirementModel)
    ensures
        dropped_variants(a + b, req).len() == dropped_variants(a, req).len() + dropped_variants(b, req).len(),
    decreases b.len(),
{
    if b.len() > 0 {
        lemma_dropped_append(a, b.drop_last(), req);
        assert((a + b).drop_last() =~= a + b.drop_last());
        assert((a + b).last() == b.last());
    } else {
        assert(a + b =~= a);
    }
}

/// A request that leaves no entry of a package's versions drops every one
/// of their variants.
proof fn lemma_all_reduced(es: Seq<EntryModel>, req: RequirementModel)
    ensures
        reduced_entries(es, req).len() == 0 ==> dropped_variants(flat(es), req).len() == flat(es).len(),
    decreases es.len(),
{
    if es.len() > 0 {
        let prev = es.drop_last();
        let e = es.last();
        lemma_all_reduced(prev, req);
        lemma_kept_dropped_len(e.variants, req);
        lemma_dropped_append(flat(prev), e.variants, req);
    }
}

} // verus!
