//! The package repository a resolve works on (`family -> version -> data`),
//! the order of preference of a family's versions, and the variants of a
//! family within a range.
use vstd::prelude::*;
use std::rc::Rc;
use crate::version::{RerVersion, version_text_ok, is_parsed_version};
use crate::version_order::{VersionModel, version_le, version_wf, lemma_version_total_order};
use crate::requirement::{
    Requirement, RequirementList, RequirementModel, requirement_text_ok, parses_as_requirement, reqs_view,
    strings_view, fold_requirements,
};
use crate::range::VersionRange;
use crate::range_model::range_contains;
use crate::package_data::{PackageData, PackageDataModel};
use crate::variant::{PackageVariant, VariantModel};
use crate::variant_slice::{PackageEntry, EntryModel, entries_view, entries_ok, PackageVariantSlice, SliceModel};
use crate::text::str_eq;

verus! {

// ---------------------------------------------------------------------------
// The repository
// ---------------------------------------------------------------------------

/// The model of one family: its versions, each with its data.
pub type FamilyModel = Seq<(Seq<char>, PackageDataModel)>;

/// Every requirement text of the data can be read.
pub open spec fn data_ok(d: PackageDataModel) -> bool {
    &&& forall|i: int| 0 <= i < d.requires.len() ==> requirement_text_ok(#[trigger] d.requires[i])
    &&& forall|i: int, j: int|
        0 <= i < d.variants.len() && 0 <= j < d.variants[i].len() ==> requirement_text_ok(#[trigger] d.variants[i][j])
}

/// Whether every text of a list is a requirement that can be read.
fn texts_check(v: &Vec<String>) -> (b: bool)
    ensures
        b == forall|i: int| 0 <= i < v@.len() ==> requirement_text_ok(#[trigger] v@[i]@),
{
    let mut i: usize = 0;
    while i < v.len()
        invariant
            i <= v@.len(),
            forall|k: int| 0 <= k < i ==> requirement_text_ok(#[trigger] v@[k]@),
        decreases v.len() - i,
    {
        if !Requirement::text_check(v[i].as_str()) {
            return false;
        }
        i = i + 1;
    }
    true
}

/// Whether every requirement text of the data can be read (see
/// `data_ok`).
pub fn data_check(d: &PackageData) -> (b: bool)
    ensures
        b == data_ok(d@),
{
    if !texts_check(&d.requires) {
        proof {
            let k = choose|k: int| 0 <= k < d.requires@.len() && !requirement_text_ok(#[trigger] d.requires@[k]@);
            assert(d@.requires[k] == d.requires@[k]@);
        }
        return false;
    }
    assert forall|k: int| 0 <= k < d@.requires.len() implies requirement_text_ok(#[trigger] d@.requires[k]) by {
        assert(d@.requires[k] == d.requires@[k]@);
    }
    let mut i: usize = 0;
    while i < d.variants.len()
        invariant
            i <= d.variants@.len(),
            forall|a: int, b: int|
                0 <= a < i && 0 <= b < d@.variants[a].len() ==> requirement_text_ok(#[trigger] d@.variants[a][b]),
            forall|k: int| 0 <= k < d@.requires.len() ==> requirement_text_ok(#[trigger] d@.requires[k]),
        decreases d.variants.len() - i,
    {
        assert(d@.variants[i as int] == strings_view(d.variants@[i as int]@));
        if !texts_check(&d.variants[i]) {
            proof {
                let k = choose|k: int| 0 <= k < d.variants@[i as int]@.len() && !requirement_text_ok(#[trigger] d.variants@[i as int]@[k]@);
                assert(d@.variants[i as int][k] == d.variants@[i as int]@[k]@);
            }
            return false;
        }
        proof {
            assert forall|a: int, b: int|
                0 <= a < i + 1 && 0 <= b < d@.variants[a].len() implies requirement_text_ok(#[trigger] d@.variants[a][b]) by {
                if a == i {
                    assert(d@.variants[a][b] == d.variants@[i as int]@[b]@);
                }
            }
        }
        i = i + 1;
    }
    true
}

/// A family whose version strings are distinct and can be read, and whose
/// requirement texts can be read.
pub open spec fn family_ok(f: FamilyModel) -> bool {
    &&& forall|i: int, j: int| 0 <= i < j < f.len() ==> (#[trigger] f[i]).0 != (#[trigger] f[j]).0
    &&& forall|i: int| 0 <= i < f.len() ==> version_text_ok((#[trigger] f[i]).0) && data_ok(f[i].1)
}

/// Distinct family names, and every family well formed.
pub open spec fn repo_ok(r: Seq<(Seq<char>, FamilyModel)>) -> bool {
    &&& forall|i: int, j: int| 0 <= i < j < r.len() ==> (#[trigger] r[i]).0 != (#[trigger] r[j]).0
    &&& forall|i: int| 0 <= i < r.len() ==> family_ok((#[trigger] r[i]).1)
}

/// The family named `name`, if the repository has it.
pub open spec fn family_of(r: Seq<(Seq<char>, FamilyModel)>, name: Seq<char>) -> Option<FamilyModel>
    decreases r.len(),
{
    if r.len() == 0 {
        None
    } else if r.last().0 == name {
        Some(r.last().1)
    } else {
        family_of(r.drop_last(), name)
    }
}

pub open spec fn family_view(v: Seq<(String, PackageData)>) -> FamilyModel {
    v.map_values(|e: (String, PackageData)| (e.0@, e.1@))
}

pub open spec fn families_view(v: Seq<(String, Vec<(String, PackageData)>)>) -> Seq<(Seq<char>, FamilyModel)> {
    v.map_values(|e: (String, Vec<(String, PackageData)>)| (e.0@, family_view(e.1@)))
}

/// The packages a resolve can use: families, each a list of versions
/// with their data. Every version string and requirement text in it can
/// be read.
#[derive(Debug)]
pub struct PackageRepo {
    families: Vec<(String, Vec<(String, PackageData)>)>,
}

impl View for PackageRepo {
    type V = Seq<(Seq<char>, FamilyModel)>;

    closed spec fn view(&self) -> Seq<(Seq<char>, FamilyModel)> {
        families_view(self.families@)
    }
}

impl PackageRepo {
    #[verifier::type_invariant]
    spec fn inv(self) -> bool {
        repo_ok(families_view(self.families@))
    }

    /// Every repository is well formed.
    pub fn check_ok(&self)
        ensures
            repo_ok(self@),
    {
        proof {
            use_type_invariant(self);
        }
    }

    /// The repository with no family.
    pub fn empty() -> (r: PackageRepo)
        ensures
            r@.len() == 0,
    {
        let r = PackageRepo { families: Vec::new() };
        assert(families_view(r.families@) =~= Seq::<(Seq<char>, FamilyModel)>::empty());
        r
    }

    /// The repository of the given families (distinct names).
    pub fn from_map(map: Vec<(String, Vec<(String, PackageData)>)>) -> (r: PackageRepo)
        requires
            repo_ok(families_view(map@)),
        ensures
            r@ == families_view(map@),
    {
        PackageRepo { families: map }
    }

    /// The index of the family `name`, if the repository has it.
    fn family_index(&self, name: &str) -> (r: Option<usize>)
        ensures
            match r {
                Some(k) => k < self@.len() && self@[k as int].0 == name@,
                None => forall|k: int| 0 <= k < self@.len() ==> (#[trigger] self@[k]).0 != name@,
            },
    {
        let mut i: usize = 0;
        while i < self.families.len()
            invariant
                i <= self@.len(),
                forall|k: int| 0 <= k < i ==> (#[trigger] self@[k]).0 != name@,
            decreases self.families.len() - i,
        {
            assert(self@[i as int].0 == self.families@[i as int].0@);
            if str_eq(self.families[i].0.as_str(), name) {
                return Some(i);
            }
            i = i + 1;
        }
        None
    }

    /// Adds the family `name`, in place of any family of that name.
    pub fn insert_family(&mut self, name: String, fam: Vec<(String, PackageData)>)
        requires
            family_ok(family_view(fam@)),
        ensures
            family_of(final(self)@, name@) == Some(family_view(fam@)),
            forall|n: Seq<char>| n != name@ ==> family_of(final(self)@, n) == family_of(old(self)@, n),
    {
        proof {
            use_type_invariant(&*self);
        }
        let ghost old_fams = self@;
        let found = self.family_index(name.as_str());
        let mut taken = PackageRepo::empty();
        std::mem::swap(&mut taken, self);
        let PackageRepo { mut families } = taken;
        let ghost item = (name@, family_view(fam@));
        match found {
            Some(k) => {
                families.set(k, (name, fam));
                proof {
                    let nv = families_view(families@);
                    assert(nv =~= old_fams.update(k as int, item));
                    assert forall|p: int, q: int| 0 <= p < q < nv.len() implies (#[trigger] nv[p]).0 != (#[trigger] nv[q]).0 by {
                        if p != k && q != k {
                            assert(nv[p] == old_fams[p] && nv[q] == old_fams[q]);
                        } else if p == k {
                            assert(nv[q] == old_fams[q]);
                        } else {
                            assert(nv[p] == old_fams[p]);
                        }
                    }
                    assert forall|t: int| 0 <= t < nv.len() implies family_ok((#[trigger] nv[t]).1) by {
                        if t != k {
                            assert(nv[t] == old_fams[t]);
                        }
                    }
                    lemma_family_of_update(old_fams, k as int, item);
                }
            },
            None => {
                families.push((name, fam));
                proof {
                    let nv = families_view(families@);
                    assert(nv =~= old_fams.push(item));
                    assert(nv.drop_last() =~= old_fams);
                    assert forall|p: int, q: int| 0 <= p < q < nv.len() implies (#[trigger] nv[p]).0 != (#[trigger] nv[q]).0 by {
                        assert(nv[p] == old_fams[p]);
                        if q < old_fams.len() {
                            assert(nv[q] == old_fams[q]);
                        }
                    }
                    assert forall|t: int| 0 <= t < nv.len() implies family_ok((#[trigger] nv[t]).1) by {
                        if t < old_fams.len() {
                            assert(nv[t] == old_fams[t]);
                        }
                    }
                }
            },
        }
        *self = PackageRepo { families };
    }

    /// The number of families.
    pub fn family_count(&self) -> (r: usize)
        ensures
            r == self@.len(),
    {
        self.families.len()
    }

    /// The versions of the family `name`, if the repository has it.
    pub fn get_family(&self, name: &str) -> (r: Option<&Vec<(String, PackageData)>>)
        ensures
            match r {
                Some(f) => family_of(self@, name@) == Some(family_view(f@)) && family_ok(family_view(f@)),
                None => family_of(self@, name@) is None,
            },
    {
        proof {
            use_type_invariant(self);
        }
        let ghost all = self@;
        let mut i = self.families.len();
        assert(all.take(i as int) =~= all);
        while i > 0
            invariant
                i <= all.len(),
                all == families_view(self.families@),
                repo_ok(all),
                family_of(all, name@) == family_of(all.take(i as int), name@),
            decreases i,
        {
            let k = i - 1;
            assert(all.take(i as int).drop_last() =~= all.take(k as int));
            assert(all.take(i as int).last() == all[k as int]);
            if str_eq(self.families[k].0.as_str(), name) {
                assert(family_ok(all[k as int].1));
                return Some(&self.families[k].1);
            }
            i = k;
        }
        None
    }
}

/// Replacing the family at `k` by one of the same name changes what that
/// name finds and nothing else (names being distinct).
proof fn lemma_family_of_update(r: Seq<(Seq<char>, FamilyModel)>, k: int, item: (Seq<char>, FamilyModel))
    requires
        0 <= k < r.len(),
        r[k].0 == item.0,
        forall|i: int, j: int| 0 <= i < j < r.len() ==> (#[trigger] r[i]).0 != (#[trigger] r[j]).0,
    ensures
        family_of(r.update(k, item), item.0) == Some(item.1),
        forall|n: Seq<char>| n != item.0 ==> family_of(r.update(k, item), n) == family_of(r, n),
    decreases r.len(),
{
    let u = r.update(k, item);
    if k == r.len() - 1 {
        assert(u.drop_last() =~= r.drop_last());
        assert(u.last() == item);
        assert(r.last() == r[k]);
        assert forall|n: Seq<char>| n != item.0 implies family_of(u, n) == family_of(r, n) by {}
    } else {
        let d = r.drop_last();
        assert forall|i: int, j: int| 0 <= i < j < d.len() implies (#[trigger] d[i]).0 != (#[trigger] d[j]).0 by {
            assert(d[i] == r[i] && d[j] == r[j]);
        }
        lemma_family_of_update(d, k, item);
        assert(u.drop_last() =~= d.update(k, item));
        assert(u.last() == r.last());
        assert(r.last().0 != item.0) by {
            assert(r[r.len() - 1] == r.last());
        }
        assert forall|n: Seq<char>| n != item.0 implies family_of(u, n) == family_of(r, n) by {
            if r.last().0 != n {
                assert(family_of(u, n) == family_of(u.drop_last(), n));
                assert(family_of(r, n) == family_of(d, n));
            }
        }
    }
}

// ---------------------------------------------------------------------------
// Order of preference
// ---------------------------------------------------------------------------

/// A host's order of preference among the versions of a family.
pub trait FamilyOrderer {
    /// The versions of `family`, most preferred first. Versions left out
    /// are least preferred; names that are not versions of the family are
    /// ignored.
    fn order(&self, family: &str, versions: &[String]) -> Vec<String>;
}

/// The names of `ordered` that are in `input`, each once, in the order of
/// `ordered` (first `n` of them).
pub open spec fn named_versions(input: Seq<Seq<char>>, ordered: Seq<Seq<char>>, n: int) -> Seq<Seq<char>>
    decreases n,
{
    if n <= 0 {
        Seq::empty()
    } else {
        let prev = named_versions(input, ordered, n - 1);
        let o = ordered[n - 1];
        if input.contains(o) && !prev.contains(o) {
            prev.push(o)
        } else {
            prev
        }
    }
}

/// `acc` followed by the names of the first `n` of `input` that it does
/// not hold yet, each once, in input order.
pub open spec fn append_missing(acc: Seq<Seq<char>>, input: Seq<Seq<char>>, n: int) -> Seq<Seq<char>>
    decreases n,
{
    if n <= 0 {
        acc
    } else {
        let prev = append_missing(acc, input, n - 1);
        let x = input[n - 1];
        if prev.contains(x) {
            prev
        } else {
            prev.push(x)
        }
    }
}

/// The order of preference that `ordered` gives the versions `input`:
/// the versions it names, in its order, then the versions it left out,
/// in input order.
pub open spec fn rank_order(input: Seq<Seq<char>>, ordered: Seq<Seq<char>>) -> Seq<Seq<char>> {
    append_missing(named_versions(input, ordered, ordered.len() as int), input, input.len() as int)
}

/// Whether `v` holds `x`.
fn holds_string(v: &Vec<String>, x: &str) -> (b: bool)
    ensures
        b == strings_view(v@).contains(x@),
{
    crate::variant::holds(v.as_slice(), x)
}

/// The rank (0 for the most preferred) of each version of `input` in the
/// order `ordered`: the versions `ordered` names keep their first place in
/// it; the ones it leaves out come after, in input order; names that are
/// not in `input` are ignored. Each version appears once, its rank
/// beside it, from rank 0 up.
pub fn build_rank_map(input: &[String], ordered: Vec<String>) -> (r: Vec<(String, usize)>)
    ensures
        r@.len() == rank_order(strings_view(input@), strings_view(ordered@)).len(),
        forall|k: int| 0 <= k < r@.len() ==> (#[trigger] r@[k]).0@ == rank_order(strings_view(input@), strings_view(ordered@))[k]
            && r@[k].1 == k,
{
    let ghost inp = strings_view(input@);
    let ghost ord = strings_view(ordered@);
    let input_vec = crate::package_data::copy_strings(input);
    let mut names: Vec<String> = Vec::new();
    let mut i: usize = 0;
    while i < ordered.len()
        invariant
            i <= ordered@.len(),
            ord == strings_view(ordered@),
            strings_view(input_vec@) == inp,
            strings_view(names@) == named_versions(inp, ord, i as int),
        decreases ordered.len() - i,
    {
        let ghost before = strings_view(names@);
        assert(ord[i as int] == ordered@[i as int]@);
        if holds_string(&input_vec, ordered[i].as_str()) && !holds_string(&names, ordered[i].as_str()) {
            names.push(ordered[i].clone());
            assert(strings_view(names@) =~= before.push(ord[i as int]));
        }
        i = i + 1;
    }
    let ghost named = strings_view(names@);
    let mut j: usize = 0;
    while j < input.len()
        invariant
            j <= input@.len(),
            inp == strings_view(input@),
            strings_view(names@) == append_missing(named, inp, j as int),
        decreases input.len() - j,
    {
        let ghost before = strings_view(names@);
        assert(inp[j as int] == input@[j as int]@);
        if !holds_string(&names, input[j].as_str()) {
            names.push(input[j].clone());
            assert(strings_view(names@) =~= before.push(inp[j as int]));
        }
        j = j + 1;
    }
    let mut out: Vec<(String, usize)> = Vec::new();
    let mut k: usize = 0;
    while k < names.len()
        invariant
            k <= names@.len(),
            out@.len() == k,
            forall|t: int| 0 <= t < k ==> (#[trigger] out@[t]).0@ == strings_view(names@)[t] && out@[t].1 == t,
        decreases names.len() - k,
    {
        out.push((names[k].clone(), k));
        k = k + 1;
    }
    out
}

} // verus!
