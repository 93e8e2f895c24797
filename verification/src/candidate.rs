//! Choosing a version among candidates: by highest, by lowest, or split
//! around a pivot version, with per-family choices of strategy.
use vstd::prelude::*;
use crate::version::{RerVersion, is_parsed_version, version_text_ok};
use crate::version_order::{VersionModel, version_wf, version_lt, version_le, lemma_version_total_order};
use crate::range_model::{BoundModel, SegModel, range_contains, intersect_model};
use crate::range::{VersionRange, versions_view};
use crate::text::str_eq;

verus! {

/// The model of a resolution strategy.
pub enum ModeModel {
    Highest,
    Lowest,
    VersionSplit(VersionModel, Box<ModeModel>, Box<ModeModel>),
}

/// A strategy for choosing among the versions of a package.
#[derive(Debug)]
pub enum ResolutionMode {
    /// The highest version in range.
    Highest,
    /// The lowest version in range.
    Lowest,
    /// Versions from `pivot` up are tried first with `first`, then the
    /// versions below `pivot` with `second`.
    VersionSplit { pivot: RerVersion, first: Box<ResolutionMode>, second: Box<ResolutionMode> },
}

/// The model of a strategy.
pub open spec fn mode_model(m: ResolutionMode) -> ModeModel
    decreases m,
{
    match m {
        ResolutionMode::Highest => ModeModel::Highest,
        ResolutionMode::Lowest => ModeModel::Lowest,
        ResolutionMode::VersionSplit { pivot, first, second } => ModeModel::VersionSplit(
            pivot@,
            Box::new(mode_model(*first)),
            Box::new(mode_model(*second)),
        ),
    }
}

impl View for ResolutionMode {
    type V = ModeModel;

    open spec fn view(&self) -> ModeModel {
        mode_model(*self)
    }
}

impl ResolutionMode {
    /// A copy of the strategy.
    pub fn duplicate(&self) -> (r: ResolutionMode)
        ensures
            r@ == self@,
        decreases self,
    {
        match self {
            ResolutionMode::Highest => ResolutionMode::Highest,
            ResolutionMode::Lowest => ResolutionMode::Lowest,
            ResolutionMode::VersionSplit { pivot, first, second } => ResolutionMode::VersionSplit {
                pivot: pivot.duplicate(),
                first: Box::new((**first).duplicate()),
                second: Box::new((**second).duplicate()),
            },
        }
    }
}

impl Clone for ResolutionMode {
    fn clone(&self) -> (r: Self)
        ensures
            r@ == self@,
    {
        self.duplicate()
    }
}

impl Default for ResolutionMode {
    fn default() -> (r: Self)
        ensures
            r@ == ModeModel::Highest,
    {
        ResolutionMode::Highest
    }
}

/// The versions from `p` up.
pub open spec fn from_model(p: VersionModel) -> Seq<SegModel> {
    seq![(BoundModel::Included(p), BoundModel::Unbounded)]
}

/// The versions below `p`.
pub open spec fn below_model(p: VersionModel) -> Seq<SegModel> {
    seq![(BoundModel::Unbounded, BoundModel::Excluded(p))]
}

/// The last version of the list that the range holds.
pub open spec fn last_in(list: Seq<VersionModel>, r: Seq<SegModel>) -> Option<VersionModel>
    decreases list.len(),
{
    if list.len() == 0 {
        None
    } else if range_contains(r, list.last()) {
        Some(list.last())
    } else {
        last_in(list.drop_last(), r)
    }
}

/// The first version of the list that the range holds.
pub open spec fn first_in(list: Seq<VersionModel>, r: Seq<SegModel>) -> Option<VersionModel>
    decreases list.len(),
{
    if list.len() == 0 {
        None
    } else if range_contains(r, list[0]) {
        Some(list[0])
    } else {
        first_in(list.drop_first(), r)
    }
}

/// The candidate a strategy picks from the list, within the range: the
/// last or first one in range; for a split, the pick of `first` among the
/// versions from the pivot up, else the pick of `second` below it.
pub open spec fn candidate_model(list: Seq<VersionModel>, r: Seq<SegModel>, mode: ModeModel) -> Option<
    VersionModel,
>
    decreases mode,
{
    match mode {
        ModeModel::Highest => last_in(list, r),
        ModeModel::Lowest => first_in(list, r),
        ModeModel::VersionSplit(p, first, second) => {
            let high = intersect_model(r, from_model(p));
            let hc = if high.len() > 0 {
                candidate_model(list, high, *first)
            } else {
                None
            };
            if hc is Some {
                hc
            } else {
                let low = intersect_model(r, below_model(p));
                if low.len() > 0 {
                    candidate_model(list, low, *second)
                } else {
                    None
                }
            }
        },
    }
}

/// The versions of the list that the range holds, in order.
pub open spec fn in_range(list: Seq<VersionModel>, r: Seq<SegModel>) -> Seq<VersionModel>
    decreases list.len(),
{
    if list.len() == 0 {
        Seq::empty()
    } else if range_contains(r, list.last()) {
        in_range(list.drop_last(), r).push(list.last())
    } else {
        in_range(list.drop_last(), r)
    }
}

/// A list in non-decreasing version order.
pub open spec fn sorted_le(s: Seq<VersionModel>) -> bool {
    forall|i: int, j: int| 0 <= i < j < s.len() ==> version_le(#[trigger] s[i], #[trigger] s[j])
}

/// Every version of the list is well formed.
pub open spec fn all_wf(s: Seq<VersionModel>) -> bool {
    forall|i: int| 0 <= i < s.len() ==> version_wf(#[trigger] s[i])
}

/// Orders versions from lowest to highest, keeping equal ones in order.
fn sort_versions(v: &mut Vec<RerVersion>)
    ensures
        sorted_le(versions_view(final(v)@)),
        versions_view(final(v)@).to_multiset() == versions_view(old(v)@).to_multiset(),
{
    let mut input: Vec<RerVersion> = Vec::new();
    std::mem::swap(v, &mut input);
    let ghost all = versions_view(input@);
    let mut out: Vec<RerVersion> = Vec::new();
    let mut k: usize = 0;
    assert(versions_view(out@) =~= all.take(0));
    while k < input.len()
        invariant
            k <= input@.len(),
            all == versions_view(input@),
            sorted_le(versions_view(out@)),
            all_wf(versions_view(out@)),
            versions_view(out@).to_multiset() == all.take(k as int).to_multiset(),
        decreases input.len() - k,
    {
        let w = &input[k];
        w.check_wf();
        let ghost ov = versions_view(out@);
        // insert after every version that is not above `w`
        let mut p: usize = 0;
        while p < out.len() && out[p].compare_with(w) <= 0
            invariant
                p <= out@.len(),
                ov == versions_view(out@),
                forall|x: int| 0 <= x < p ==> version_le(#[trigger] ov[x], w@),
            decreases out.len() - p,
        {
            assert(ov[p as int] == out@[p as int]@);
            p = p + 1;
        }
        proof {
            if p < out@.len() {
                assert(ov[p as int] == out@[p as int]@);
                lemma_version_total_order(ov[p as int], w@, w@);
                lemma_version_total_order(w@, ov[p as int], w@);
            }
        }
        out.insert(p, w.duplicate());
        proof {
            let nv = versions_view(out@);
            assert(nv =~= ov.insert(p as int, w@));
            assert forall|x: int| 0 <= x < nv.len() implies version_wf(#[trigger] nv[x]) by {
                if x < p {
                    assert(nv[x] == ov[x]);
                } else if x > p {
                    assert(nv[x] == ov[x - 1]);
                }
            }
            assert forall|x: int, y: int| 0 <= x < y < nv.len() implies version_le(
                #[trigger] nv[x],
                #[trigger] nv[y],
            ) by {
                if y < p {
                    assert(nv[x] == ov[x] && nv[y] == ov[y]);
                } else if y == p {
                    assert(nv[x] == ov[x]);
                } else if x < p {
                    assert(nv[x] == ov[x] && nv[y] == ov[y - 1]);
                    lemma_version_total_order(ov[x], w@, ov[p as int]);
                    lemma_version_total_order(ov[x], ov[p as int], ov[y - 1]);
                } else if x == p {
                    assert(nv[y] == ov[y - 1]);
                    lemma_version_total_order(w@, ov[p as int], ov[y - 1]);
                } else {
                    assert(nv[x] == ov[x - 1] && nv[y] == ov[y - 1]);
                }
            }
            assert(all[k as int] == w@);
            assert(all.take(k + 1) =~= all.take(k as int).push(w@));
            vstd::seq_lib::to_multiset_insert(ov, p as int, w@);
            vstd::seq_lib::to_multiset_build(all.take(k as int), w@);
        }
        k = k + 1;
    }
    assert(all.take(k as int) =~= all);
    *v = out;
}

/// A list of candidate versions, kept in version order.
pub struct CandidateList(Vec<RerVersion>);

impl View for CandidateList {
    type V = Seq<VersionModel>;

    closed spec fn view(&self) -> Seq<VersionModel> {
        versions_view(self.0@)
    }
}

impl CandidateList {
    /// The candidates, in version order.
    pub fn new(candidat_list: Vec<RerVersion>) -> (r: CandidateList)
        ensures
            sorted_le(r@),
            r@.to_multiset() == versions_view(candidat_list@).to_multiset(),
    {
        let mut list = candidat_list;
        sort_versions(&mut list);
        CandidateList(list)
    }

    /// Puts the candidates in version order.
    pub fn sort(&mut self)
        ensures
            sorted_le(final(self)@),
            final(self)@.to_multiset() == old(self)@.to_multiset(),
    {
        sort_versions(&mut self.0);
    }

    /// The candidates read from version strings, in version order.
    pub fn from_vec_str(v: Vec<&str>) -> (r: CandidateList)
        requires
            forall|i: int| 0 <= i < v@.len() ==> version_text_ok(#[trigger] v@[i]@),
        ensures
            sorted_le(r@),
            exists|parsed: Seq<VersionModel>|
                {
                    &&& parsed.len() == v@.len()
                    &&& forall|i: int| 0 <= i < v@.len() ==> is_parsed_version(v@[i]@, #[trigger] parsed[i])
                    &&& r@.to_multiset() == #[trigger] parsed.to_multiset()
                },
    {
        let mut list: Vec<RerVersion> = Vec::new();
        let mut i: usize = 0;
        while i < v.len()
            invariant
                i <= v@.len(),
                list@.len() == i,
                forall|j: int| 0 <= j < v@.len() ==> version_text_ok(#[trigger] v@[j]@),
                forall|j: int| 0 <= j < i ==> is_parsed_version(v@[j]@, #[trigger] list@[j]@),
            decreases v.len() - i,
        {
            match RerVersion::parse_from_string(v[i]) {
                Ok(x) => list.push(x),
                Err(_) => {
                    proof {
                        assert(version_text_ok(v@[i as int]@));
                    }
                    return CandidateList::new(list);
                },
            }
            i = i + 1;
        }
        let ghost parsed = versions_view(list@);
        assert forall|j: int| 0 <= j < v@.len() implies is_parsed_version(v@[j]@, #[trigger] parsed[j]) by {
            assert(parsed[j] == list@[j]@);
        }
        let r = CandidateList::new(list);
        assert(r@.to_multiset() == parsed.to_multiset());
        r
    }

    /// The candidate the strategy picks within the range, if any.
    pub fn find_candidate(&self, range: &VersionRange, strategy_mode: &ResolutionMode) -> (r: Option<
        RerVersion,
    >)
        ensures
            match r {
                Some(v) => candidate_model(self@, range@, strategy_mode@) == Some(v@),
                None => candidate_model(self@, range@, strategy_mode@) is None,
            },
        decreases strategy_mode,
    {
        match strategy_mode {
            ResolutionMode::Highest => {
                let mut i = self.0.len();
                assert(self@.take(i as int) =~= self@);
                while i > 0
                    invariant
                        i <= self.0@.len(),
                        last_in(self@, range@) == last_in(self@.take(i as int), range@),
                        strategy_mode@ == ModeModel::Highest,
                    decreases i,
                {
                    let x = &self.0[i - 1];
                    assert(self@.take(i as int).drop_last() =~= self@.take(i - 1));
                    assert(self@.take(i as int).last() == x@);
                    if range.contains(x) {
                        assert(strategy_mode@ == ModeModel::Highest);
                        assert(last_in(self@.take(i as int), range@) == Some(x@));
                        return Some(x.duplicate());
                    }
                    i = i - 1;
                }
                None
            },
            ResolutionMode::Lowest => {
                let mut i: usize = 0;
                assert(self@.skip(0) =~= self@);
                while i < self.0.len()
                    invariant
                        i <= self.0@.len(),
                        first_in(self@, range@) == first_in(self@.skip(i as int), range@),
                        strategy_mode@ == ModeModel::Lowest,
                    decreases self.0.len() - i,
                {
                    let x = &self.0[i];
                    assert(self@.skip(i as int).drop_first() =~= self@.skip(i + 1));
                    assert(self@.skip(i as int)[0] == x@);
                    if range.contains(x) {
                        assert(strategy_mode@ == ModeModel::Lowest);
                        assert(first_in(self@.skip(i as int), range@) == Some(x@));
                        return Some(x.duplicate());
                    }
                    i = i + 1;
                }
                None
            },
            ResolutionMode::VersionSplit { pivot, first, second } => {
                let high = range.intersection(&VersionRange::higher_than(pivot));
                let high_candidate = match &high {
                    Some(h) => self.find_candidate(h, first),
                    None => None,
                };
                if high_candidate.is_some() {
                    return high_candidate;
                }
                match range.intersection(&VersionRange::strictly_lower_than(pivot)) {
                    Some(l) => self.find_candidate(&l, second),
                    None => None,
                }
            },
        }
    }

    /// The candidates the range holds, in order.
    pub fn find_candidates(&self, range: &VersionRange) -> (r: Vec<&RerVersion>)
        ensures
            r@.map_values(|x: &RerVersion| x@) == in_range(self@, range@),
    {
        let mut out: Vec<&RerVersion> = Vec::new();
        let mut i: usize = 0;
        while i < self.0.len()
            invariant
                i <= self.0@.len(),
                out@.map_values(|x: &RerVersion| x@) == in_range(self@.take(i as int), range@),
            decreases self.0.len() - i,
        {
            let x = &self.0[i];
            assert(self@.take(i + 1).drop_last() =~= self@.take(i as int));
            assert(self@.take(i + 1).last() == x@);
            let ghost before = out@;
            if range.contains(x) {
                out.push(x);
                assert(out@.map_values(|x: &RerVersion| x@) =~= before.map_values(|x: &RerVersion| x@).push(x@));
            }
            i = i + 1;
        }
        assert(self@.take(i as int) =~= self@);
        out
    }
}

/// The highest version of the list that the range holds (the last of
/// equal ones).
pub open spec fn max_in(vs: Seq<VersionModel>, r: Seq<SegModel>) -> Option<VersionModel>
    decreases vs.len(),
{
    if vs.len() == 0 {
        None
    } else {
        let m = max_in(vs.drop_last(), r);
        let x = vs.last();
        if range_contains(r, x) {
            match m {
                Some(y) => if version_lt(x, y) {
                    Some(y)
                } else {
                    Some(x)
                },
                None => Some(x),
            }
        } else {
            m
        }
    }
}

/// The lowest version of the list that the range holds (the first of
/// equal ones).
pub open spec fn min_in(vs: Seq<VersionModel>, r: Seq<SegModel>) -> Option<VersionModel>
    decreases vs.len(),
{
    if vs.len() == 0 {
        None
    } else {
        let m = min_in(vs.drop_last(), r);
        let x = vs.last();
        if range_contains(r, x) {
            match m {
                Some(y) => if version_lt(x, y) {
                    Some(x)
                } else {
                    Some(y)
                },
                None => Some(x),
            }
        } else {
            m
        }
    }
}

/// The version a strategy picks among unordered versions: the highest or
/// lowest in range; for a split, the pick of `first` among those in range
/// from the pivot up, else the pick of `second` among those below it.
pub open spec fn best_model(vs: Seq<VersionModel>, r: Seq<SegModel>, mode: ModeModel) -> Option<VersionModel>
    decreases mode,
{
    match mode {
        ModeModel::Highest => max_in(vs, r),
        ModeModel::Lowest => min_in(vs, r),
        ModeModel::VersionSplit(p, first, second) => {
            let high = intersect_model(r, from_model(p));
            let low = intersect_model(r, below_model(p));
            let matching = in_range(vs, r);
            let hc = if high.len() > 0 {
                best_model(matching, high, *first)
            } else {
                None
            };
            if hc is Some {
                hc
            } else if low.len() > 0 {
                best_model(matching, low, *second)
            } else {
                None
            }
        },
    }
}

/// The models of a list of version references.
pub open spec fn refs_view(v: Seq<&RerVersion>) -> Seq<VersionModel> {
    v.map_values(|x: &RerVersion| x@)
}

/// The version the strategy picks among `versions`, which need not be in
/// order.
pub fn find_best_candidate(versions: &[&RerVersion], range: &VersionRange, mode: &ResolutionMode) -> (r:
    Option<RerVersion>)
    ensures
        match r {
            Some(v) => best_model(refs_view(versions@), range@, mode@) == Some(v@),
            None => best_model(refs_view(versions@), range@, mode@) is None,
        },
    decreases mode,
{
    let ghost vs = refs_view(versions@);
    match mode {
        ResolutionMode::Highest | ResolutionMode::Lowest => {
            let highest = match mode {
                ResolutionMode::Highest => true,
                _ => false,
            };
            let mut best: Option<&RerVersion> = None;
            let mut i: usize = 0;
            while i < versions.len()
                invariant
                    i <= versions@.len(),
                    vs == refs_view(versions@),
                    highest ==> mode@ == ModeModel::Highest,
                    !highest ==> mode@ == ModeModel::Lowest,
                    highest ==> (match best {
                        Some(b) => max_in(vs.take(i as int), range@) == Some(b@),
                        None => max_in(vs.take(i as int), range@) is None,
                    }),
                    !highest ==> (match best {
                        Some(b) => min_in(vs.take(i as int), range@) == Some(b@),
                        None => min_in(vs.take(i as int), range@) is None,
                    }),
                decreases versions.len() - i,
            {
                let x = versions[i];
                assert(vs.take(i + 1).drop_last() =~= vs.take(i as int));
                assert(vs.take(i + 1).last() == x@);
                if range.contains(x) {
                    best = match best {
                        None => Some(x),
                        Some(b) => {
                            let c = x.compare_with(b);
                            if highest {
                                if c < 0 {
                                    Some(b)
                                } else {
                                    Some(x)
                                }
                            } else {
                                if c < 0 {
                                    Some(x)
                                } else {
                                    Some(b)
                                }
                            }
                        },
                    };
                }
                i = i + 1;
            }
            assert(vs.take(i as int) =~= vs);
            match best {
                Some(b) => Some(b.duplicate()),
                None => None,
            }
        },
        ResolutionMode::VersionSplit { pivot, first, second } => {
            let high = range.intersection(&VersionRange::higher_than(pivot));
            let low = range.intersection(&VersionRange::strictly_lower_than(pivot));
            let mut matching: Vec<&RerVersion> = Vec::new();
            let mut i: usize = 0;
            while i < versions.len()
                invariant
                    i <= versions@.len(),
                    vs == refs_view(versions@),
                    refs_view(matching@) == in_range(vs.take(i as int), range@),
                decreases versions.len() - i,
            {
                let x = versions[i];
                assert(vs.take(i + 1).drop_last() =~= vs.take(i as int));
                assert(vs.take(i + 1).last() == x@);
                let ghost before = matching@;
                if range.contains(x) {
                    matching.push(x);
                    assert(refs_view(matching@) =~= refs_view(before).push(x@));
                }
                i = i + 1;
            }
            assert(vs.take(i as int) =~= vs);
            if let Some(h) = &high {
                let c = find_best_candidate(matching.as_slice(), h, first);
                if c.is_some() {
                    return c;
                }
            }
            match &low {
                Some(l) => find_best_candidate(matching.as_slice(), l, second),
                None => None,
            }
        },
    }
}

/// The strategy set for a family, if any: the first entry with its name.
pub open spec fn family_mode(entries: Seq<(String, ResolutionMode)>, name: Seq<char>, i: int) -> Option<ModeModel>
    decreases entries.len() - i,
{
    if i < 0 || i >= entries.len() {
        None
    } else if entries[i].0@ == name {
        Some(entries[i].1@)
    } else {
        family_mode(entries, name, i + 1)
    }
}

/// Strategies per package family, with a default for the others.
#[derive(Debug)]
pub struct PackageOrderConfig {
    /// The strategy for every family without one of its own.
    pub default: ResolutionMode,
    /// The families' own strategies.
    pub per_family: Vec<(String, ResolutionMode)>,
}

/// Setting an entry's strategy, keeping its name, changes only the
/// strategy found for that name.
proof fn lemma_family_mode_set(
    e: Seq<(String, ResolutionMode)>,
    f: Seq<(String, ResolutionMode)>,
    k: int,
    name: Seq<char>,
    i: int,
)
    requires
        0 <= k < e.len(),
        f.len() == e.len(),
        forall|j: int| 0 <= j < e.len() && j != k ==> f[j] == e[j],
        f[k].0@ == e[k].0@,
        0 <= i <= k,
        family_mode(e, e[k].0@, i) == Some(e[k].1@) ==> true,
    ensures
        name != e[k].0@ ==> family_mode(f, name, i) == family_mode(e, name, i),
        (forall|j: int| i <= j < k ==> e[j].0@ != e[k].0@) ==> family_mode(f, e[k].0@, i) == Some(f[k].1@),
    decreases k - i,
{
    if i < k {
        lemma_family_mode_set(e, f, k, name, i + 1);
    } else {
        if name != e[k].0@ {
            lemma_family_mode_same_from(e, f, name, k + 1);
        }
    }
}

/// Lists that agree from `i` on find the same strategies from `i` on.
proof fn lemma_family_mode_same_from(
    e: Seq<(String, ResolutionMode)>,
    f: Seq<(String, ResolutionMode)>,
    name: Seq<char>,
    i: int,
)
    requires
        f.len() == e.len(),
        0 <= i,
        forall|j: int| i <= j < e.len() ==> f[j] == e[j],
    ensures
        family_mode(f, name, i) == family_mode(e, name, i),
    decreases e.len() - i,
{
    if i < e.len() {
        lemma_family_mode_same_from(e, f, name, i + 1);
    }
}

/// Appending an entry changes only what is found for its name, when no
/// entry had that name.
proof fn lemma_family_mode_push(
    e: Seq<(String, ResolutionMode)>,
    x: (String, ResolutionMode),
    name: Seq<char>,
    i: int,
)
    requires
        0 <= i <= e.len(),
    ensures
        family_mode(e, name, i) is Some ==> family_mode(e.push(x), name, i) == family_mode(e, name, i),
        family_mode(e, name, i) is None ==> family_mode(e.push(x), name, i) == (if x.0@ == name {
            Some(x.1@)
        } else {
            None
        }),
    decreases e.len() - i,
{
    if i < e.len() {
        assert(e.push(x)[i] == e[i]);
        lemma_family_mode_push(e, x, name, i + 1);
    } else {
        assert(e.push(x)[i] == x);
        assert(family_mode(e.push(x), name, i + 1) is None);
    }
}

/// The index of the first entry named `name`, from `i` on.
fn find_family(entries: &Vec<(String, ResolutionMode)>, name: &str, i: usize) -> (r: Option<usize>)
    requires
        i <= entries@.len(),
    ensures
        match r {
            Some(k) => i <= k < entries@.len() && entries@[k as int].0@ == name@ && forall|j: int|
                i <= j < k ==> entries@[j].0@ != name@,
            None => forall|j: int| i <= j < entries@.len() ==> entries@[j].0@ != name@,
        },
        r is None <==> family_mode(entries@, name@, i as int) is None,
        r matches Some(k) ==> family_mode(entries@, name@, i as int) == Some(entries@[k as int].1@),
    decreases entries@.len() - i,
{
    if i == entries.len() {
        return None;
    }
    if str_eq(entries[i].0.as_str(), name) {
        Some(i)
    } else {
        find_family(entries, name, i + 1)
    }
}

impl PackageOrderConfig {
    /// The default strategy for every family, with no family of its own.
    pub fn new(default: ResolutionMode) -> (r: PackageOrderConfig)
        ensures
            r.default@ == default@,
            r.per_family@.len() == 0,
    {
        PackageOrderConfig { default, per_family: Vec::new() }
    }

    /// Sets the strategy of one family.
    pub fn set_family_mode(&mut self, family: String, mode: ResolutionMode)
        ensures
            final(self).default@ == old(self).default@,
            family_mode(final(self).per_family@, family@, 0) == Some(mode@),
            forall|n: Seq<char>|
                n != family@ ==> #[trigger] family_mode(final(self).per_family@, n, 0) == family_mode(
                    old(self).per_family@,
                    n,
                    0,
                ),
    {
        match find_family(&self.per_family, family.as_str(), 0) {
            Some(k) => {
                let ghost e = self.per_family@;
                let ghost m = mode@;
                self.per_family.set(k, (family, mode));
                proof {
                    let f = self.per_family@;
                    assert forall|n: Seq<char>| n != e[k as int].0@ implies #[trigger] family_mode(f, n, 0)
                        == family_mode(e, n, 0) by {
                        lemma_family_mode_set(e, f, k as int, n, 0);
                    }
                    lemma_family_mode_set(e, f, k as int, e[k as int].0@, 0);
                }
            },
            None => {
                let ghost e = self.per_family@;
                let ghost x = (family, mode);
                self.per_family.push((family, mode));
                proof {
                    assert(self.per_family@ == e.push(x));
                    assert forall|n: Seq<char>| n != x.0@ implies #[trigger] family_mode(self.per_family@, n, 0)
                        == family_mode(e, n, 0) by {
                        lemma_family_mode_push(e, x, n, 0);
                    }
                    lemma_family_mode_push(e, x, x.0@, 0);
                }
            },
        }
    }

    /// The strategy for a family: its own, or the default.
    pub fn mode_for(&self, family: &str) -> (r: &ResolutionMode)
        ensures
            r@ == match family_mode(self.per_family@, family@, 0) {
                Some(m) => m,
                None => self.default@,
            },
    {
        match find_family(&self.per_family, family, 0) {
            Some(k) => &self.per_family[k].1,
            None => &self.default,
        }
    }
}

impl Default for PackageOrderConfig {
    fn default() -> (r: Self)
        ensures
            r.default@ == ModeModel::Highest,
            r.per_family@.len() == 0,
    {
        PackageOrderConfig { default: ResolutionMode::Highest, per_family: Vec::new() }
    }
}

impl Clone for PackageOrderConfig {
    fn clone(&self) -> (r: Self)
        ensures
            r.default@ == self.default@,
            forall|n: Seq<char>| #[trigger] family_mode(r.per_family@, n, 0) == family_mode(self.per_family@, n, 0),
    {
        let mut per_family: Vec<(String, ResolutionMode)> = Vec::new();
        let mut i: usize = 0;
        while i < self.per_family.len()
            invariant
                i <= self.per_family@.len(),
                per_family@.len() == i,
                forall|j: int| 0 <= j < i ==> (#[trigger] per_family@[j]).0@ == self.per_family@[j].0@
                    && per_family@[j].1@ == self.per_family@[j].1@,
            decreases self.per_family.len() - i,
        {
            let e = &self.per_family[i];
            per_family.push((e.0.clone(), e.1.duplicate()));
            i = i + 1;
        }
        proof {
            assert forall|n: Seq<char>| #[trigger] family_mode(per_family@, n, 0) == family_mode(self.per_family@, n, 0) by {
                lemma_family_mode_agree(per_family@, self.per_family@, n, 0);
            }
        }
        PackageOrderConfig { default: self.default.duplicate(), per_family }
    }
}

/// Lists whose entries have the same names and strategies find the same
/// strategies.
proof fn lemma_family_mode_agree(
    e: Seq<(String, ResolutionMode)>,
    f: Seq<(String, ResolutionMode)>,
    name: Seq<char>,
    i: int,
)
    requires
        f.len() == e.len(),
        0 <= i,
        forall|j: int| 0 <= j < e.len() ==> (#[trigger] e[j]).0@ == f[j].0@ && e[j].1@ == f[j].1@,
    ensures
        family_mode(e, name, i) == family_mode(f, name, i),
    decreases e.len() - i,
{
    if i < e.len() {
        assert(e[i].0@ == f[i].0@);
        lemma_family_mode_agree(e, f, name, i + 1);
    }
}

} // verus!
