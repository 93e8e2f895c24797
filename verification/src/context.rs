//! What a resolve reads: the repository, the request, how variants are
//! chosen and how versions are preferred; and the variants of a family
//! within a range.
use vstd::prelude::*;
use std::rc::Rc;
use crate::version::{RerVersion, version_text_ok, is_parsed_version};
use crate::version_order::{VersionModel, version_le, version_compare, lemma_version_total_order, version_wf};
use crate::requirement::{
    Requirement, RequirementList, RequirementModel, RequirementListModel, requirement_text_ok,
    parses_as_requirement, reqs_view, strings_view, fold_requirements, names_where,
};
use crate::range::VersionRange;
use crate::range_model::range_contains;
use crate::status::VariantSelectMode;
use crate::package_data::{PackageData, PackageDataModel};
use crate::variant::{PackageVariant, VariantModel};
use crate::variant_slice::{PackageEntry, EntryModel, entries_view, entries_ok, PackageVariantSlice, SliceModel};
use crate::repo::{
    PackageRepo, FamilyModel, FamilyOrderer, family_of, family_view, family_ok, data_ok, build_rank_map,
    rank_order,
};
use crate::text::str_eq;

verus! {

// ---------------------------------------------------------------------------
// Variants of a version
// ---------------------------------------------------------------------------

/// `ps` are the requirements the texts `texts` describe, one each.
pub open spec fn parsed_all(texts: Seq<Seq<char>>, ps: Seq<RequirementModel>) -> bool {
    ps.len() == texts.len() && forall|i: int| 0 <= i < texts.len() ==> parses_as_requirement(texts[i], #[trigger] ps[i])
}

/// `m` is the list that merging the requirements `ps` gives.
pub open spec fn list_of(ps: Seq<RequirementModel>, m: RequirementListModel) -> bool {
    &&& m.by_name == fold_requirements(ps).0
    &&& m.conflict == fold_requirements(ps).1
    &&& m.conflict is Some ==> m.requirements.len() == 0 && m.names.len() == 0 && m.conflict_names.len() == 0
    &&& m.conflict is None ==> m.requirements == m.by_name && m.names == names_where(m.by_name, false)
        && m.conflict_names == names_where(m.by_name, true)
}

/// `v` is the variant of `name` at `version` with index `index` whose
/// requirements are read from `texts` and merged.
pub open spec fn variant_from(
    name: Seq<char>,
    version: VersionModel,
    index: Option<usize>,
    texts: Seq<Seq<char>>,
    v: VariantModel,
) -> bool {
    &&& v.name == name
    &&& v.version == version
    &&& v.index == index
    &&& exists|ps: Seq<RequirementModel>| #[trigger] parsed_all(texts, ps) && list_of(ps, v.requires)
}

/// Reads each requirement text and merges the requirements.
pub fn parse_all(texts: &[String]) -> (r: RequirementList)
    requires
        forall|i: int| 0 <= i < texts@.len() ==> requirement_text_ok(#[trigger] texts@[i]@),
    ensures
        exists|ps: Seq<RequirementModel>| #[trigger] parsed_all(strings_view(texts@), ps) && list_of(ps, r@),
{
    let mut reqs: Vec<Requirement> = Vec::new();
    let mut i: usize = 0;
    while i < texts.len()
        invariant
            i <= texts@.len(),
            forall|k: int| 0 <= k < texts@.len() ==> requirement_text_ok(#[trigger] texts@[k]@),
            reqs@.len() == i,
            forall|k: int| 0 <= k < i ==> parses_as_requirement(texts@[k]@, #[trigger] reqs_view(reqs@)[k]),
        decreases texts.len() - i,
    {
        let ghost before = reqs_view(reqs@);
        let r = Requirement::parse(texts[i].as_str());
        reqs.push(r);
        proof {
            assert(reqs_view(reqs@) =~= before.push(r@));
            assert forall|k: int| 0 <= k < i + 1 implies parses_as_requirement(texts@[k]@, #[trigger] reqs_view(reqs@)[k]) by {
                if k < i {
                    assert(reqs_view(reqs@)[k] == before[k]);
                }
            }
        }
        i = i + 1;
    }
    let ghost ps = reqs_view(reqs@);
    let r = RequirementList::new(reqs);
    assert(parsed_all(strings_view(texts@), ps));
    r
}

/// The requirement texts of variant `i` of a package version: the common
/// ones, then the variant's own (the common ones alone for a package
/// without variants).
pub open spec fn variant_texts(d: PackageDataModel, i: int) -> Seq<Seq<char>> {
    if d.variants.len() == 0 {
        d.requires
    } else {
        d.requires + d.variants[i]
    }
}

/// The variants of `name` at `version` that `data` describes: one with no
/// index for a package without variants, else one per variant.
pub fn build_variants(name: &str, version: &RerVersion, data: &PackageData) -> (r: Vec<Rc<PackageVariant>>)
    requires
        data_ok(data@),
    ensures
        r@.len() == (if data@.variants.len() == 0 {
            1
        } else {
            data@.variants.len()
        }),
        forall|i: int|
            0 <= i < r@.len() ==> variant_from(
                name@,
                version@,
                if data@.variants.len() == 0 {
                    None
                } else {
                    Some(i as usize)
                },
                variant_texts(data@, i),
                (#[trigger] r@[i])@,
            ),
{
    let mut out: Vec<Rc<PackageVariant>> = Vec::new();
    if data.variants.len() == 0 {
        assert forall|k: int| 0 <= k < data.requires@.len() implies requirement_text_ok(#[trigger] data.requires@[k]@) by {
            assert(data@.requires[k] == data.requires@[k]@);
        }
        let merged = parse_all(data.requires.as_slice());
        out.push(Rc::new(PackageVariant::new(name.to_owned(), version.duplicate(), None, merged)));
        return out;
    }
    let mut i: usize = 0;
    while i < data.variants.len()
        invariant
            i <= data@.variants.len(),
            data@.variants.len() > 0,
            data_ok(data@),
            out@.len() == i,
            forall|k: int| 0 <= k < i ==> variant_from(name@, version@, Some(k as usize), variant_texts(data@, k), (#[trigger] out@[k])@),
        decreases data.variants.len() - i,
    {
        let mut all = crate::package_data::copy_strings(data.requires.as_slice());
        let extra = crate::package_data::copy_strings(data.variants[i].as_slice());
        let ghost a0 = strings_view(all@);
        let mut j: usize = 0;
        while j < extra.len()
            invariant
                j <= extra@.len(),
                strings_view(all@) == a0 + strings_view(extra@).take(j as int),
            decreases extra.len() - j,
        {
            let ghost b0 = strings_view(all@);
            all.push(extra[j].clone());
            assert(strings_view(all@) =~= b0.push(extra@[j as int]@));
            j = j + 1;
            assert(strings_view(all@) =~= a0 + strings_view(extra@).take(j as int));
        }
        assert(strings_view(extra@).take(j as int) =~= strings_view(extra@));
        assert(data@.variants[i as int] == strings_view(data.variants@[i as int]@));
        assert(strings_view(all@) == variant_texts(data@, i as int));
        proof {
            assert forall|k: int| 0 <= k < all@.len() implies requirement_text_ok(#[trigger] all@[k]@) by {
                assert(strings_view(all@)[k] == all@[k]@);
                if k < data@.requires.len() {
                    assert(strings_view(all@)[k] == data@.requires[k]);
                } else {
                    assert(strings_view(all@)[k] == data@.variants[i as int][k - data@.requires.len()]);
                }
            }
        }
        let merged = parse_all(all.as_slice());
        let ghost before = out@;
        out.push(Rc::new(PackageVariant::new(name.to_owned(), version.duplicate(), Some(i), merged)));
        proof {
            assert forall|k: int| 0 <= k < i + 1 implies variant_from(name@, version@, Some(k as usize), variant_texts(data@, k), (#[trigger] out@[k])@) by {
                if k < i {
                    assert(out@[k] == before[k]);
                }
            }
        }
        i = i + 1;
    }
    out
}

// ---------------------------------------------------------------------------
// The variants of a family
// ---------------------------------------------------------------------------

/// A copy of a family's versions and data.
fn copy_family(f: &Vec<(String, PackageData)>) -> (r: Vec<(String, PackageData)>)
    ensures
        family_view(r@) == family_view(f@),
{
    let mut r: Vec<(String, PackageData)> = Vec::new();
    let mut i: usize = 0;
    while i < f.len()
        invariant
            i <= f@.len(),
            family_view(r@) == family_view(f@).take(i as int),
        decreases f.len() - i,
    {
        let ghost before = family_view(r@);
        r.push((f[i].0.clone(), f[i].1.duplicate()));
        assert(family_view(r@) =~= before.push((f@[i as int].0@, f@[i as int].1@)));
        i = i + 1;
        assert(family_view(r@) =~= family_view(f@).take(i as int));
    }
    assert(family_view(f@).take(i as int) =~= family_view(f@));
    r
}

/// The model of the versions of a family: for each, its version, the
/// index of its data in the family, and its rank of preference.
pub type ListEntryModel = (VersionModel, int, int);

pub open spec fn list_entries_view(v: Seq<(RerVersion, usize, usize)>) -> Seq<ListEntryModel> {
    v.map_values(|e: (RerVersion, usize, usize)| (e.0@, e.1 as int, e.2 as int))
}

/// The model of the variants of a family.
pub struct VariantListModel {
    pub package_name: Seq<char>,
    pub versions: FamilyModel,
    pub entries: Seq<ListEntryModel>,
}

/// Every version of one family, in increasing version order, each with
/// the index of its data and its rank of preference (0 for the most
/// preferred); the variants of a version are built when a range first
/// selects it.
#[derive(Debug)]
pub struct PackageVariantList {
    package_name: String,
    versions: Vec<(String, PackageData)>,
    entries: Vec<(RerVersion, usize, usize)>,
}

/// The versions of the family, each read from its string.
/// Every variant of the entries is of package `name`, with a version
/// within `r`.
pub open spec fn variants_in(es: Seq<EntryModel>, name: Seq<char>, r: Seq<crate::range_model::SegModel>) -> bool {
    forall|i: int, j: int| 0 <= i < es.len() && 0 <= j < es[i].variants.len() ==> {
        &&& (#[trigger] es[i].variants[j])@.name == name
        &&& range_contains(r, es[i].variants[j]@.version)
        &&& version_wf(es[i].variants[j]@.version)
    }
}

/// Every variant of the entries is of package `name`.
pub open spec fn variants_named(es: Seq<EntryModel>, name: Seq<char>) -> bool {
    forall|i: int, j: int| 0 <= i < es.len() && 0 <= j < es[i].variants.len() ==> (#[trigger] es[i].variants[j])@.name
        == name
}

/// Some entry stands for the version of index `j`.
pub open spec fn index_listed(es: Seq<ListEntryModel>, j: int) -> bool {
    exists|x: int| 0 <= x < es.len() && (#[trigger] es[x]).1 == j
}

/// Some version of the family reads as a version within `r`.
pub open spec fn some_version_in(f: FamilyModel, r: Seq<crate::range_model::SegModel>) -> bool {
    exists|j: int, v: VersionModel| 0 <= j < f.len() && #[trigger] is_parsed_version(f[j].0, v) && range_contains(r, v)
}

/// Each version of the family reads as a version outside `r`.
pub open spec fn no_version_in(f: FamilyModel, r: Seq<crate::range_model::SegModel>) -> bool {
    forall|j: int| 0 <= j < f.len() ==> #[trigger] parses_outside(f[j].0, r)
}

/// The text reads as a version outside `r`.
pub open spec fn parses_outside(t: Seq<char>, r: Seq<crate::range_model::SegModel>) -> bool {
    exists|v: VersionModel| #[trigger] is_parsed_version(t, v) && !range_contains(r, v)
}

pub open spec fn list_ok(m: VariantListModel) -> bool {
    &&& family_ok(m.versions)
    &&& m.entries.len() == m.versions.len()
    &&& forall|i: int|
        0 <= i < m.entries.len() ==> 0 <= (#[trigger] m.entries[i]).1 < m.versions.len() && is_parsed_version(
            m.versions[m.entries[i].1].0,
            m.entries[i].0,
        )
    &&& forall|i: int, j: int| 0 <= i < j < m.entries.len() ==> version_le((#[trigger] m.entries[i]).0, (#[trigger] m.entries[j]).0)
    &&& forall|j: int| 0 <= j < m.versions.len() ==> #[trigger] index_listed(m.entries, j)
    &&& forall|i: int| 0 <= i < m.entries.len() ==> version_wf((#[trigger] m.entries[i]).0)
}

impl View for PackageVariantList {
    type V = VariantListModel;

    closed spec fn view(&self) -> VariantListModel {
        VariantListModel {
            package_name: self.package_name@,
            versions: family_view(self.versions@),
            entries: list_entries_view(self.entries@),
        }
    }
}

/// The entries of the list that a range selects, in order.
pub open spec fn list_entries_in(es: Seq<ListEntryModel>, r: Seq<crate::range_model::SegModel>) -> Seq<ListEntryModel>
    decreases es.len(),
{
    if es.len() == 0 {
        Seq::empty()
    } else {
        let prev = list_entries_in(es.drop_last(), r);
        if range_contains(r, es.last().0) {
            prev.push(es.last())
        } else {
            prev
        }
    }
}

impl PackageVariantList {
    /// The versions of the family `package_name` in version order, ranked
    /// by the context's order of preference (highest version first when it
    /// has none); `None` when the repository has no such family.
    pub fn new(ctx: &SolverContext, package_name: &str) -> (r: Option<PackageVariantList>)
        ensures
            r is None <==> family_of(ctx.repo@, package_name@) is None,
            r matches Some(l) ==> {
                &&& l@.package_name == package_name@
                &&& family_of(ctx.repo@, package_name@) == Some(l@.versions)
                &&& list_ok(l@)
                &&& ctx.package_order is None ==> forall|i: int| 0 <= i < l@.entries.len() ==> (#[trigger] l@.entries[i]).2
                    == l@.entries.len() - 1 - i
            },
    {
        let fam = match ctx.repo.get_family(package_name) {
            Some(f) => f,
            None => {
                return None;
            },
        };
        let versions = copy_family(fam);
        let ghost fv = family_view(versions@);
        // read every version, then order them
        let mut entries: Vec<(RerVersion, usize, usize)> = Vec::new();
        let mut i: usize = 0;
        while i < versions.len()
            invariant
                i <= versions@.len(),
                fv == family_view(versions@),
                family_ok(fv),
                forall|k: int| 0 <= k < entries@.len() ==> 0 <= (#[trigger] list_entries_view(entries@)[k]).1 < fv.len()
                    && is_parsed_version(fv[list_entries_view(entries@)[k].1].0, list_entries_view(entries@)[k].0)
                    && crate::version_order::version_wf(list_entries_view(entries@)[k].0),
                forall|p: int, q: int| 0 <= p < q < entries@.len() ==> version_le((#[trigger] list_entries_view(entries@)[p]).0, (#[trigger] list_entries_view(entries@)[q]).0),
                entries@.len() == i,
                forall|j: int| 0 <= j < i ==> #[trigger] index_listed(list_entries_view(entries@), j),
            decreases versions.len() - i,
        {
            assert(fv[i as int].0 == versions@[i as int].0@);
            let v = match RerVersion::parse_from_string(versions[i].0.as_str()) {
                Ok(v) => v,
                Err(_) => {
                    proof {
                        assert(version_text_ok(fv[i as int].0));
                    }
                    return None;
                },
            };
            let ghost ev = list_entries_view(entries@);
            let mut p: usize = 0;
            while p < entries.len() && entries[p].0.compare_with(&v) <= 0
                invariant
                    p <= entries@.len(),
                    ev == list_entries_view(entries@),
                    forall|x: int| 0 <= x < p ==> version_le(#[trigger] ev[x].0, v@),
                decreases entries.len() - p,
            {
                assert(ev[p as int].0 == entries@[p as int].0@);
                p = p + 1;
            }
            proof {
                if p < entries@.len() {
                    assert(ev[p as int].0 == entries@[p as int].0@);
                    lemma_version_total_order(ev[p as int].0, v@, v@);
                    lemma_version_total_order(v@, ev[p as int].0, v@);
                }
            }
            entries.insert(p, (v, i, 0));
            proof {
                let nv = list_entries_view(entries@);
                assert(nv =~= ev.insert(p as int, (v@, i as int, 0)));
                assert forall|x: int| 0 <= x < nv.len() implies 0 <= (#[trigger] nv[x]).1 < fv.len()
                    && is_parsed_version(fv[nv[x].1].0, nv[x].0) && crate::version_order::version_wf(nv[x].0) by {
                    if x < p {
                        assert(nv[x] == ev[x]);
                    } else if x > p {
                        assert(nv[x] == ev[x - 1]);
                    }
                }
                assert forall|j: int| 0 <= j < i + 1 implies #[trigger] index_listed(nv, j) by {
                    if j == i {
                        assert(nv[p as int].1 == j);
                    } else {
                        assert(index_listed(ev, j));
                        let x = choose|x: int| 0 <= x < ev.len() && (#[trigger] ev[x]).1 == j;
                        if x < p {
                            assert(nv[x] == ev[x]);
                        } else {
                            assert(nv[x + 1] == ev[x]);
                        }
                    }
                }
                assert forall|x: int, y: int| 0 <= x < y < nv.len() implies version_le((#[trigger] nv[x]).0, (#[trigger] nv[y]).0) by {
                    if y < p {
                        assert(nv[x] == ev[x] && nv[y] == ev[y]);
                    } else if y == p {
                        assert(nv[x] == ev[x]);
                    } else if x < p {
                        assert(nv[x] == ev[x] && nv[y] == ev[y - 1]);
                        lemma_version_total_order(ev[x].0, v@, ev[p as int].0);
                        lemma_version_total_order(ev[x].0, ev[p as int].0, ev[y - 1].0);
                    } else if x == p {
                        assert(nv[y] == ev[y - 1]);
                        lemma_version_total_order(v@, ev[p as int].0, ev[y - 1].0);
                    } else {
                        assert(nv[x] == ev[x - 1] && nv[y] == ev[y - 1]);
                    }
                }
            }
            i = i + 1;
        }
        // ranks of preference
        let n = entries.len();
        let mut ranks: Vec<usize> = Vec::new();
        match &ctx.package_order {
            None => {
                let mut k: usize = 0;
                while k < n
                    invariant
                        k <= n,
                        ranks@.len() == k,
                        forall|t: int| 0 <= t < k ==> #[trigger] ranks@[t] == n - 1 - t,
                    decreases n - k,
                {
                    ranks.push(n - 1 - k);
                    k = k + 1;
                }
            },
            Some(orderer) => {
                let mut strs: Vec<String> = Vec::new();
                let mut k: usize = 0;
                while k < n
                    invariant
                        k <= n,
                        n == entries@.len(),
                        strs@.len() == k,
                        forall|t: int| 0 <= t < entries@.len() ==> 0 <= (#[trigger] list_entries_view(entries@)[t]).1 < versions@.len(),
                    decreases n - k,
                {
                    assert(list_entries_view(entries@)[k as int].1 == entries@[k as int].1);
                    strs.push(versions[entries[k].1].0.clone());
                    k = k + 1;
                }
                let ordered = orderer.order(package_name, strs.as_slice());
                let map = build_rank_map(strs.as_slice(), ordered);
                let mut k: usize = 0;
                while k < n
                    invariant
                        k <= n,
                        ranks@.len() == k,
                        strs@.len() == n,
                    decreases n - k,
                {
                    let mut rank: usize = map.len();
                    let mut t: usize = 0;
                    while t < map.len()
                        invariant
                            t <= map@.len(),
                            k < strs@.len(),
                        decreases map.len() - t,
                    {
                        if str_eq(map[t].0.as_str(), strs[k].as_str()) {
                            rank = map[t].1;
                            break;
                        }
                        t = t + 1;
                    }
                    ranks.push(rank);
                    k = k + 1;
                }
            },
        }
        let mut ranked: Vec<(RerVersion, usize, usize)> = Vec::new();
        let mut k: usize = 0;
        while k < n
            invariant
                k <= n,
                n == entries@.len(),
                ranks@.len() == n,
                ranked@.len() == k,
                forall|t: int| 0 <= t < k ==> (#[trigger] list_entries_view(ranked@)[t]).0 == list_entries_view(entries@)[t].0
                    && list_entries_view(ranked@)[t].1 == list_entries_view(entries@)[t].1
                    && list_entries_view(ranked@)[t].2 == ranks@[t] as int,
            decreases n - k,
        {
            let ghost before = ranked@;
            ranked.push((entries[k].0.duplicate(), entries[k].1, ranks[k]));
            proof {
                assert(list_entries_view(ranked@)[k as int] == (entries@[k as int].0@, entries@[k as int].1 as int, ranks@[k as int] as int));
                assert forall|t: int| 0 <= t < k + 1 implies (#[trigger] list_entries_view(ranked@)[t]).0 == list_entries_view(entries@)[t].0
                    && list_entries_view(ranked@)[t].1 == list_entries_view(entries@)[t].1
                    && list_entries_view(ranked@)[t].2 == ranks@[t] as int by {
                    if t < k {
                        assert(ranked@[t] == before[t]);
                        assert(list_entries_view(ranked@)[t] == list_entries_view(before)[t]);
                    }
                }
            }
            k = k + 1;
        }
        let r = PackageVariantList { package_name: package_name.to_owned(), versions, entries: ranked };
        proof {
            let m = r@;
            assert forall|x: int| 0 <= x < m.entries.len() implies 0 <= (#[trigger] m.entries[x]).1 < m.versions.len()
                && is_parsed_version(m.versions[m.entries[x].1].0, m.entries[x].0) by {
                assert(m.entries[x].0 == list_entries_view(entries@)[x].0);
            }
            assert forall|x: int, y: int| 0 <= x < y < m.entries.len() implies version_le((#[trigger] m.entries[x]).0, (#[trigger] m.entries[y]).0) by {
                assert(m.entries[x].0 == list_entries_view(entries@)[x].0);
                assert(m.entries[y].0 == list_entries_view(entries@)[y].0);
            }
            assert forall|x: int| 0 <= x < m.entries.len() implies version_wf((#[trigger] m.entries[x]).0) by {
                assert(m.entries[x].0 == list_entries_view(entries@)[x].0);
            }
            assert forall|j: int| 0 <= j < m.versions.len() implies #[trigger] index_listed(m.entries, j) by {
                let ev = list_entries_view(entries@);
                assert(index_listed(ev, j));
                let x = choose|x: int| 0 <= x < ev.len() && (#[trigger] ev[x]).1 == j;
                assert(m.entries[x].1 == ev[x].1);
            }
        }
        Some(r)
    }

    /// The entries of every version within `range`, in version order, each
    /// with its variants built; `None` when no version is in range.
    #[verifier::spinoff_prover]
    pub fn get_intersection(&self, range: &VersionRange) -> (r: Option<Vec<PackageEntry>>)
        requires
            list_ok(self@),
        ensures
            r is None <==> list_entries_in(self@.entries, range@).len() == 0,
            r matches Some(es) ==> {
                &&& entries_ok(entries_view(es@))
                &&& entries_view(es@).len() == list_entries_in(self@.entries, range@).len()
                &&& forall|i: int| 0 <= i < es@.len() ==> {
                    let le = list_entries_in(self@.entries, range@)[i];
                    &&& (#[trigger] entries_view(es@)[i]).version == le.0
                    &&& entries_view(es@)[i].order_rank == le.2
                    &&& entries_view(es@)[i].variants.len() == (if self@.versions[le.1].1.variants.len() == 0 {
                        1
                    } else {
                        self@.versions[le.1].1.variants.len()
                    })
                    &&& forall|j: int| 0 <= j < entries_view(es@)[i].variants.len() ==> variant_from(
                        self@.package_name,
                        le.0,
                        if self@.versions[le.1].1.variants.len() == 0 {
                            None
                        } else {
                            Some(j as usize)
                        },
                        variant_texts(self@.versions[le.1].1, j),
                        (#[trigger] entries_view(es@)[i].variants[j])@,
                    )
                }
            },
    {
        let ghost es = self@.entries;
        let ghost vs = self@.versions;
        let mut out: Vec<PackageEntry> = Vec::new();
        let mut i: usize = 0;
        assert(es.take(0) =~= Seq::<ListEntryModel>::empty());
        while i < self.entries.len()
            invariant
                i <= es.len(),
                es == self@.entries,
                vs == self@.versions,
                list_ok(self@),
                entries_view(out@).len() == list_entries_in(es.take(i as int), range@).len(),
                forall|k: int| 0 <= k < out@.len() ==> {
                    let le = list_entries_in(es.take(i as int), range@)[k];
                    &&& (#[trigger] entries_view(out@)[k]).version == le.0
                    &&& entries_view(out@)[k].order_rank == le.2
                    &&& 0 <= le.1 < vs.len()
                    &&& entries_view(out@)[k].variants.len() == (if vs[le.1].1.variants.len() == 0 {
                        1
                    } else {
                        vs[le.1].1.variants.len()
                    })
                    &&& forall|j: int| 0 <= j < entries_view(out@)[k].variants.len() ==> variant_from(
                        self@.package_name,
                        le.0,
                        if vs[le.1].1.variants.len() == 0 {
                            None
                        } else {
                            Some(j as usize)
                        },
                        variant_texts(vs[le.1].1, j),
                        (#[trigger] entries_view(out@)[k].variants[j])@,
                    )
                },
            decreases self.entries.len() - i,
        {
            let ghost prev = list_entries_in(es.take(i as int), range@);
            assert(es.take(i + 1).drop_last() =~= es.take(i as int));
            assert(es.take(i + 1).last() == es[i as int]);
            let e = &self.entries[i];
            assert(es[i as int] == (e.0@, e.1 as int, e.2 as int));
            if range.contains(&e.0) {
                let idx = e.1;
                assert(0 <= es[i as int].1 < vs.len());
                assert(vs[idx as int].1 == self.versions@[idx as int].1@);
                assert(vs[idx as int].0 == self.versions@[idx as int].0@);
                assert(family_ok(vs));
                assert(data_ok(vs[idx as int].1));
                let variants = build_variants(self.package_name.as_str(), &e.0, &self.versions[idx].1);
                let ghost before = entries_view(out@);
                out.push(PackageEntry::new(e.0.duplicate(), variants, e.2));
                proof {
                    let now = list_entries_in(es.take(i + 1), range@);
                    assert(now == prev.push(es[i as int]));
                    assert forall|k: int| 0 <= k < out@.len() implies {
                        let le = now[k];
                        &&& (#[trigger] entries_view(out@)[k]).version == le.0
                        &&& entries_view(out@)[k].order_rank == le.2
                        &&& 0 <= le.1 < vs.len()
                    } by {
                        if k < before.len() {
                            assert(entries_view(out@)[k] == before[k]);
                            assert(now[k] == prev[k]);
                        }
                    }
                    assert forall|k: int| #![trigger entries_view(out@)[k]] 0 <= k < out@.len() implies {
                        let le = now[k];
                        &&& entries_view(out@)[k].variants.len() == (if vs[le.1].1.variants.len() == 0 {
                            1
                        } else {
                            vs[le.1].1.variants.len()
                        })
                        &&& forall|j: int| 0 <= j < entries_view(out@)[k].variants.len() ==> variant_from(
                            self@.package_name,
                            le.0,
                            if vs[le.1].1.variants.len() == 0 {
                                None
                            } else {
                                Some(j as usize)
                            },
                            variant_texts(vs[le.1].1, j),
                            (#[trigger] entries_view(out@)[k].variants[j])@,
                        )
                    } by {
                        if k < before.len() {
                            assert(entries_view(out@)[k] == before[k]);
                            assert(now[k] == prev[k]);
                        }
                    }
                }
            }
            i = i + 1;
        }
        assert(es.take(i as int) =~= es);
        if out.len() == 0 {
            None
        } else {
            proof {
                assert forall|k: int| 0 <= k < entries_view(out@).len() implies (#[trigger] entries_view(out@)[k]).variants.len() > 0 by {}
            }
            Some(out)
        }
    }
}

// ---------------------------------------------------------------------------
// The context of a resolve
// ---------------------------------------------------------------------------

/// What a resolve reads: the repository, the merged request, how the
/// variant of a package is chosen, and the host's order of preference
/// among versions (highest first when there is none).
pub struct SolverContext {
    /// The repository.
    pub repo: Rc<PackageRepo>,
    /// The merged request.
    pub request_list: RequirementList,
    /// How the variant of a package is chosen.
    pub variant_select_mode: VariantSelectMode,
    /// The host's order of preference among the versions of a family.
    pub package_order: Option<Box<dyn FamilyOrderer>>,
}

impl SolverContext {
    /// The context of a resolve of `request_list` against `repo`, choosing
    /// variants by version priority, highest versions first.
    pub fn new(repo: Rc<PackageRepo>, request_list: RequirementList) -> (r: SolverContext)
        ensures
            r.repo == repo,
            r.request_list@ == request_list@,
            r.variant_select_mode == VariantSelectMode::VersionPriority,
            r.package_order is None,
    {
        SolverContext { repo, request_list, variant_select_mode: VariantSelectMode::VersionPriority, package_order: None }
    }

    /// The same context, choosing variants by `mode`.
    pub fn with_variant_select_mode(self, mode: VariantSelectMode) -> (r: SolverContext)
        ensures
            r.repo == self.repo,
            r.request_list@ == self.request_list@,
            r.variant_select_mode == mode,
            r.package_order is None <==> self.package_order is None,
    {
        SolverContext { variant_select_mode: mode, ..self }
    }

    /// The same context, with the host's order of preference `orderer`
    /// (highest versions first when `None`).
    pub fn with_package_order(self, orderer: Option<Box<dyn FamilyOrderer>>) -> (r: SolverContext)
        ensures
            r.repo == self.repo,
            r.request_list@ == self.request_list@,
            r.variant_select_mode == self.variant_select_mode,
            r.package_order is None <==> orderer is None,
    {
        SolverContext { package_order: orderer, ..self }
    }

    /// The variants of the family `name` whose version is in `range`;
    /// `None` when the repository has no such family or none of its
    /// versions is in range.
    pub fn get_variant_slice(&self, name: &str, range: &VersionRange) -> (r: Option<PackageVariantSlice>)
        ensures
            family_of(self.repo@, name@) is None ==> r is None,
            r is Some ==> (family_of(self.repo@, name@) matches Some(f) && some_version_in(f, range@)),
            r is None && family_of(self.repo@, name@) is Some ==> no_version_in(
                family_of(self.repo@, name@).unwrap(),
                range@,
            ),
            r matches Some(s) ==> variants_in(s@.entries, name@, range@),
            r matches Some(s) ==> s@.package_name == name@ && s@.extracted_fams.len() == 0 && forall|i: int|
                0 <= i < s@.entries.len() ==> range_contains(range@, (#[trigger] s@.entries[i]).version),
    {
        let list = match PackageVariantList::new(self, name) {
            Some(l) => l,
            None => {
                return None;
            },
        };
        match list.get_intersection(range) {
            Some(entries) => {
                proof {
                    let es = list@.entries;
                    assert forall|i: int| 0 <= i < entries_view(entries@).len() implies range_contains(range@, (#[trigger] entries_view(entries@)[i]).version) by {
                        lemma_list_entries_in(es, range@, i);
                    }
                    lemma_list_entries_in(es, range@, 0);
                    lemma_list_entries_in_member(es, range@, 0);
                    let le = list_entries_in(es, range@)[0];
                    let x = choose|x: int| 0 <= x < es.len() && es[x] == le;
                    assert(0 <= es[x].1 < list@.versions.len());
                    assert(is_parsed_version(list@.versions[le.1].0, le.0));
                    let ev = entries_view(entries@);
                    assert forall|i: int, j: int| 0 <= i < ev.len() && 0 <= j < ev[i].variants.len() implies {
                        &&& (#[trigger] ev[i].variants[j])@.name == name@
                        &&& range_contains(range@, ev[i].variants[j]@.version)
                        &&& version_wf(ev[i].variants[j]@.version)
                    } by {
                        lemma_list_entries_in(es, range@, i);
                        lemma_list_entries_in_member(es, range@, i);
                        let x = choose|x: int| 0 <= x < es.len() && es[x] == list_entries_in(es, range@)[i];
                        assert(version_wf(es[x].0));
                    }
                }
                Some(PackageVariantSlice::new(name.to_owned(), entries))
            },
            None => {
                proof {
                    let es = list@.entries;
                    let f = list@.versions;
                    assert forall|j: int| 0 <= j < f.len() implies #[trigger] parses_outside(f[j].0, range@) by {
                        assert(index_listed(es, j));
                        let x = choose|x: int| 0 <= x < es.len() && (#[trigger] es[x]).1 == j;
                        assert(is_parsed_version(f[es[x].1].0, es[x].0));
                        if range_contains(range@, es[x].0) {
                            lemma_list_entries_in_nonempty(es, range@, x);
                        }
                    }
                }
                None
            },
        }
    }

    /// Whether the repository has no family `name`.
    pub fn family_missing(&self, name: &str) -> (b: bool)
        ensures
            b == (family_of(self.repo@, name@) is None),
    {
        self.repo.get_family(name).is_none()
    }
}

/// Every entry a range selects is one of the entries.
proof fn lemma_list_entries_in_member(es: Seq<ListEntryModel>, r: Seq<crate::range_model::SegModel>, i: int)
    requires
        0 <= i < list_entries_in(es, r).len(),
    ensures
        exists|x: int| 0 <= x < es.len() && es[x] == list_entries_in(es, r)[i],
    decreases es.len(),
{
    let prev = list_entries_in(es.drop_last(), r);
    if i < prev.len() {
        lemma_list_entries_in_member(es.drop_last(), r, i);
        let x = choose|x: int| 0 <= x < es.drop_last().len() && es.drop_last()[x] == prev[i];
        assert(es[x] == es.drop_last()[x]);
    } else {
        assert(es[es.len() - 1] == list_entries_in(es, r)[i]);
    }
}

/// A range that holds the version of some entry selects some entry.
proof fn lemma_list_entries_in_nonempty(es: Seq<ListEntryModel>, r: Seq<crate::range_model::SegModel>, x: int)
    requires
        0 <= x < es.len(),
        range_contains(r, es[x].0),
    ensures
        list_entries_in(es, r).len() > 0,
    decreases es.len(),
{
    if x < es.len() - 1 {
        assert(es.drop_last()[x] == es[x]);
        lemma_list_entries_in_nonempty(es.drop_last(), r, x);
    }
}

/// Every entry a range selects lies in the range.
proof fn lemma_list_entries_in(es: Seq<ListEntryModel>, r: Seq<crate::range_model::SegModel>, i: int)
    requires
        0 <= i < list_entries_in(es, r).len(),
    ensures
        range_contains(r, list_entries_in(es, r)[i].0),
    decreases es.len(),
{
    let prev = list_entries_in(es.drop_last(), r);
    if i < prev.len() {
        lemma_list_entries_in(es.drop_last(), r, i);
    }
}

} // verus!
