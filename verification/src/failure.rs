//! Why a resolve phase failed, and the message that says so.
use vstd::prelude::*;
use crate::version::{RerVersion, version_text};
use crate::requirement::{Requirement, requirement_text};
use crate::variant::Reduction;
use crate::package_id::decimal;
use crate::text::{str_concat, string_from_chars};

verus! {

/// Two requirements that cannot both be met.
#[derive(Debug)]
pub struct DependencyConflict {
    /// The requirement of a dependency.
    pub dependency: Requirement,
    /// The request it conflicts with.
    pub conflicting_request: Requirement,
}

/// The text of an optional index (nothing when there is none).
pub open spec fn index_text(i: Option<usize>) -> Seq<char> {
    match i {
        Some(k) => decimal(k as nat),
        None => Seq::empty(),
    }
}

/// The text of a reduction:
/// `name-version[index] requires dependency (conflicts with request)`.
pub open spec fn reduction_text(r: Reduction) -> Seq<char> {
    r.name@ + "-"@ + version_text(r.version@) + "["@ + index_text(r.variant_index) + "] requires "@
        + requirement_text(r.dependency@) + " (conflicts with "@ + requirement_text(r.conflicting_request@) + ")"@
}

/// The text of a conflict: `dependency <--!--> request`.
pub open spec fn conflict_text(c: DependencyConflict) -> Seq<char> {
    requirement_text(c.dependency@) + " <--!--> "@ + requirement_text(c.conflicting_request@)
}

/// The text of a package of a cycle: `name-version`.
pub open spec fn cycle_member_text(p: (String, RerVersion)) -> Seq<char> {
    p.0@ + "-"@ + version_text(p.1@)
}

/// The parts joined with `sep` between neighbours.
pub open spec fn join(parts: Seq<Seq<char>>, sep: Seq<char>) -> Seq<char>
    decreases parts.len(),
{
    if parts.len() == 0 {
        Seq::empty()
    } else if parts.len() == 1 {
        parts[0]
    } else {
        join(parts.drop_last(), sep) + sep + parts.last()
    }
}

impl Reduction {
    /// The reduction as text.
    pub fn to_string(&self) -> (s: String)
        ensures
            s@ == reduction_text(*self),
    {
        let idx = match self.variant_index {
            Some(i) => string_from_chars(crate::package_id::decimal_text(i as u64).as_slice()),
            None => string_from_chars(Vec::<char>::new().as_slice()),
        };
        let s = str_concat(self.name.as_str(), "-");
        let s = str_concat(s.as_str(), self.version.to_string().as_str());
        let s = str_concat(s.as_str(), "[");
        let s = str_concat(s.as_str(), idx.as_str());
        let s = str_concat(s.as_str(), "] requires ");
        let s = str_concat(s.as_str(), self.dependency.to_string().as_str());
        let s = str_concat(s.as_str(), " (conflicts with ");
        let s = str_concat(s.as_str(), self.conflicting_request.to_string().as_str());
        let s = str_concat(s.as_str(), ")");
        s
    }
}

impl DependencyConflict {
    /// The conflict as text.
    pub fn to_string(&self) -> (s: String)
        ensures
            s@ == conflict_text(*self),
    {
        let s = str_concat(self.dependency.to_string().as_str(), " <--!--> ");
        str_concat(s.as_str(), self.conflicting_request.to_string().as_str())
    }
}

/// Why a resolve phase failed.
#[derive(Debug)]
pub enum FailureReason {
    /// A package's variants were all reduced away.
    TotalReduction(Vec<Reduction>),
    /// Requirements that cannot all be met.
    DependencyConflicts(Vec<DependencyConflict>),
    /// A dependency cycle among the resolved packages.
    Cycle(Vec<(String, RerVersion)>),
}

/// Two reductions with the same contents.
pub open spec fn same_reduction(a: Reduction, b: Reduction) -> bool {
    &&& a.name@ == b.name@
    &&& a.version@ == b.version@
    &&& a.variant_index == b.variant_index
    &&& a.dependency@ == b.dependency@
    &&& a.conflicting_request@ == b.conflicting_request@
}

/// Two conflicts between the same requirements.
pub open spec fn same_conflict(a: DependencyConflict, b: DependencyConflict) -> bool {
    a.dependency@ == b.dependency@ && a.conflicting_request@ == b.conflicting_request@
}

/// Two failures of the same kind with the same contents, in order.
pub open spec fn same_failure(a: FailureReason, b: FailureReason) -> bool {
    match (a, b) {
        (FailureReason::TotalReduction(x), FailureReason::TotalReduction(y)) => x@.len() == y@.len() && forall|i: int|
            0 <= i < x@.len() ==> same_reduction(#[trigger] x@[i], y@[i]),
        (FailureReason::DependencyConflicts(x), FailureReason::DependencyConflicts(y)) => x@.len() == y@.len()
            && forall|i: int| 0 <= i < x@.len() ==> same_conflict(#[trigger] x@[i], y@[i]),
        (FailureReason::Cycle(x), FailureReason::Cycle(y)) => x@.len() == y@.len() && forall|i: int|
            0 <= i < x@.len() ==> (#[trigger] x@[i]).0@ == y@[i].0@ && x@[i].1@ == y@[i].1@,
        _ => false,
    }
}

/// The message of a failure.
pub open spec fn description_text(f: FailureReason) -> Seq<char> {
    match f {
        FailureReason::TotalReduction(rs) => "the following package conflicts caused a complete reduction:\n"@ + join(
            rs@.map_values(|r: Reduction| reduction_text(r)),
            "\n"@,
        ),
        FailureReason::DependencyConflicts(cs) => "the following package conflicts occurred:\n"@ + join(
            cs@.map_values(|c: DependencyConflict| conflict_text(c)),
            "\n"@,
        ),
        FailureReason::Cycle(ps) => "a cyclic dependency was detected:\n"@ + join(
            ps@.map_values(|p: (String, RerVersion)| cycle_member_text(p)),
            " --> "@,
        ),
    }
}

/// Joins texts with `sep` between neighbours.
fn join_texts(parts: &Vec<String>, sep: &str) -> (s: String)
    ensures
        s@ == join(parts@.map_values(|p: String| p@), sep@),
{
    let ghost pv = parts@.map_values(|p: String| p@);
    if parts.len() == 0 {
        return string_from_chars(Vec::<char>::new().as_slice());
    }
    let mut s = parts[0].clone();
    let mut i: usize = 1;
    assert(pv.take(1).drop_last() =~= Seq::<Seq<char>>::empty());
    while i < parts.len()
        invariant
            1 <= i <= parts@.len(),
            pv == parts@.map_values(|p: String| p@),
            s@ == join(pv.take(i as int), sep@),
        decreases parts.len() - i,
    {
        let t = str_concat(s.as_str(), sep);
        s = str_concat(t.as_str(), parts[i].as_str());
        assert(pv.take(i + 1).drop_last() =~= pv.take(i as int));
        i = i + 1;
    }
    assert(pv.take(i as int) =~= pv);
    s
}

impl FailureReason {
    /// The message of the failure: a heading, then one line per
    /// reduction or conflict, or the packages of the cycle joined by
    /// ` --> `.
    pub fn description(&self) -> (s: String)
        ensures
            s@ == description_text(*self),
    {
        match self {
            FailureReason::TotalReduction(rs) => {
                let mut parts: Vec<String> = Vec::new();
                let mut i: usize = 0;
                while i < rs.len()
                    invariant
                        i <= rs@.len(),
                        parts@.map_values(|p: String| p@) == rs@.take(i as int).map_values(|r: Reduction| reduction_text(r)),
                    decreases rs.len() - i,
                {
                    let ghost before = parts@.map_values(|p: String| p@);
                    let t = rs[i].to_string();
                    parts.push(t);
                    assert(parts@.map_values(|p: String| p@) =~= before.push(t@));
                    assert(rs@.take(i + 1).map_values(|r: Reduction| reduction_text(r)) =~= rs@.take(i as int).map_values(
                        |r: Reduction| reduction_text(r),
                    ).push(reduction_text(rs@[i as int])));
                    i = i + 1;
                }
                assert(rs@.take(i as int) =~= rs@);
                let body = join_texts(&parts, "\n");
                str_concat("the following package conflicts caused a complete reduction:\n", body.as_str())
            },
            FailureReason::DependencyConflicts(cs) => {
                let mut parts: Vec<String> = Vec::new();
                let mut i: usize = 0;
                while i < cs.len()
                    invariant
                        i <= cs@.len(),
                        parts@.map_values(|p: String| p@) == cs@.take(i as int).map_values(|c: DependencyConflict| conflict_text(c)),
                    decreases cs.len() - i,
                {
                    let ghost before = parts@.map_values(|p: String| p@);
                    let t = cs[i].to_string();
                    parts.push(t);
                    assert(parts@.map_values(|p: String| p@) =~= before.push(t@));
                    assert(cs@.take(i + 1).map_values(|c: DependencyConflict| conflict_text(c)) =~= cs@.take(i as int).map_values(
                        |c: DependencyConflict| conflict_text(c),
                    ).push(conflict_text(cs@[i as int])));
                    i = i + 1;
                }
                assert(cs@.take(i as int) =~= cs@);
                let body = join_texts(&parts, "\n");
                str_concat("the following package conflicts occurred:\n", body.as_str())
            },
            FailureReason::Cycle(ps) => {
                let mut parts: Vec<String> = Vec::new();
                let mut i: usize = 0;
                while i < ps.len()
                    invariant
                        i <= ps@.len(),
                        parts@.map_values(|p: String| p@) == ps@.take(i as int).map_values(|p: (String, RerVersion)| cycle_member_text(p)),
                    decreases ps.len() - i,
                {
                    let ghost before = parts@.map_values(|p: String| p@);
                    let t0 = str_concat(ps[i].0.as_str(), "-");
                    let t = str_concat(t0.as_str(), ps[i].1.to_string().as_str());
                    parts.push(t);
                    assert(parts@.map_values(|p: String| p@) =~= before.push(t@));
                    assert(ps@.take(i + 1).map_values(|p: (String, RerVersion)| cycle_member_text(p)) =~= ps@.take(i as int).map_values(
                        |p: (String, RerVersion)| cycle_member_text(p),
                    ).push(cycle_member_text(ps@[i as int])));
                    i = i + 1;
                }
                assert(ps@.take(i as int) =~= ps@);
                let body = join_texts(&parts, " --> ");
                str_concat("a cyclic dependency was detected:\n", body.as_str())
            },
        }
    }
}

} // verus!
