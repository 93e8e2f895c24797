//! Families found lazily, one load at a time: what has been loaded of each
//! family and for which range of versions, whether a lookup can be served
//! from what is held or needs a load with a wider range, and the recording
//! of what a load returned. The loading itself (a call into the caller's
//! code) happens outside: the caller asks `lookup`, performs the load it
//! is told to, and hands the result to `record_load`.
use vstd::prelude::*;
use crate::range::VersionRange;
use crate::range_model::{SegModel, intersect_model, union_model};
use crate::package_data::PackageData;
use crate::repo::{FamilyModel, family_view, family_ok, data_ok};
use crate::version::version_text_ok;
use crate::solve_api::{packages_view, family_from, unreadable_text};
use crate::version::RerVersion;
use crate::repo::data_check;
use crate::requirement::{Requirement, RequirementModel, requirement_text_ok};
use crate::scope::{ephemeral_name, request_range, is_ephemeral_name};
use crate::text::{str_eq, str_concat};

verus! {

/// The range a family was loaded for: every version, or a range.
#[derive(Debug)]
pub enum LoadedRange {
    /// Loaded with no range: every version is held.
    Unconstrained,
    /// Loaded for this range.
    Bounded(VersionRange),
}

/// The model of a loaded range: `None` for every version.
pub open spec fn loaded_model(l: LoadedRange) -> Option<Seq<SegModel>> {
    match l {
        LoadedRange::Unconstrained => None,
        LoadedRange::Bounded(r) => Some(r@),
    }
}

/// The model of an optional range: `None` for every version.
pub open spec fn hint_model(h: Option<&VersionRange>) -> Option<Seq<SegModel>> {
    match h {
        Some(r) => Some(r@),
        None => None,
    }
}

/// The model of an optional range: `None` for every version.
pub open spec fn range_opt_model(h: Option<VersionRange>) -> Option<Seq<SegModel>> {
    match h {
        Some(r) => Some(r@),
        None => None,
    }
}

/// What was loaded for `loaded` covers a request for `hint`: everything
/// was loaded, or the hint is a non-empty range within the loaded range.
pub open spec fn covers(loaded: Option<Seq<SegModel>>, hint: Option<Seq<SegModel>>) -> bool {
    match (loaded, hint) {
        (None, _) => true,
        (Some(_), None) => false,
        (Some(l), Some(w)) => w.len() > 0 && intersect_model(l, w) == w,
    }
}

/// The range to load again for: the union of what was loaded and the hint
/// (every version when either is every version).
pub open spec fn widened(loaded: Option<Seq<SegModel>>, hint: Option<Seq<SegModel>>) -> Option<Seq<SegModel>> {
    match (loaded, hint) {
        (Some(l), Some(w)) => Some(union_model(l, w)),
        _ => None,
    }
}

/// The answer of a lookup.
#[derive(Debug)]
pub enum FamilyLookup {
    /// What is held serves the request: whether the family exists.
    Held(bool),
    /// The family must be loaded for this range (`None`: every version).
    Load(Option<VersionRange>),
}

/// The model of an entry: the family, the range it was loaded for, and
/// its versions where it exists.
pub type LoadEntry = (Seq<char>, Option<Seq<SegModel>>, Option<FamilyModel>);

/// The entry of family `name`, if it was loaded.
pub open spec fn entry_of(es: Seq<LoadEntry>, name: Seq<char>) -> Option<(Option<Seq<SegModel>>, Option<FamilyModel>)>
    decreases es.len(),
{
    if es.len() == 0 {
        None
    } else if es.last().0 == name {
        Some((es.last().1, es.last().2))
    } else {
        entry_of(es.drop_last(), name)
    }
}

/// A version of the family repeats an earlier one.
pub open spec fn family_repeats_at(f: FamilyModel, q: int) -> bool {
    exists|p: int| 0 <= p < q && f[p].0 == f[q].0
}

/// The version of index `q` is the first that repeats an earlier one.
pub open spec fn first_family_repeat(f: FamilyModel, q: int) -> bool {
    &&& 0 <= q < f.len()
    &&& family_repeats_at(f, q)
    &&& forall|k: int| 0 <= k < q ==> !#[trigger] family_repeats_at(f, k)
}

/// The text that std's `Debug` gives of a string (what `format!("{:?}", s)`
/// writes): the text in double quotes, with std's escapes.
pub uninterp spec fn str_debug(s: Seq<char>) -> Seq<char>;

/// std's `Debug` for `str`, written by `format!("{:?}", s)`; what it gives
/// is named by `str_debug`, a function of the text alone.
#[verifier::external_body]
fn debug_quoted(s: &str) -> (r: String)
    ensures
        r@ == str_debug(s@),
{
    format!("{:?}", s)
}

/// The message of a load of family `name` that returned `version` twice.
pub open spec fn load_repeat_text(name: Seq<char>, version: Seq<char>) -> Seq<char> {
    "load_family("@ + str_debug(name) + ") raised: load_family("@ + str_debug(name) + ") returned duplicate version "@
        + str_debug(version)
}

/// Every version and data of the family can be read.
pub open spec fn family_readable(f: FamilyModel) -> bool {
    forall|t: int| 0 <= t < f.len() ==> version_text_ok((#[trigger] f[t]).0) && data_ok(f[t].1)
}

/// A load that returned the versions `f` of family `name` is refused:
/// some version comes twice, or a version or data cannot be read.
pub open spec fn load_bad(f: FamilyModel) -> bool {
    (exists|q: int| #[trigger] first_family_repeat(f, q)) || !family_readable(f)
}

/// The message refusing a load that returned the versions `f` of family
/// `name`: the first version that comes twice, else the unreadable text.
pub open spec fn load_refusal(f: FamilyModel, name: Seq<char>, m: Seq<char>) -> bool {
    if exists|q: int| #[trigger] first_family_repeat(f, q) {
        exists|q: int| #[trigger] first_family_repeat(f, q) && m == load_repeat_text(name, f[q].0)
    } else {
        m == unreadable_text()
    }
}

/// What recording a load of family `name` for `range` that returned the
/// packages `pv` does, with answer `r`, from the loads `a` to the loads
/// `b`: the entries of other families stay; once a load has failed, the
/// family is recorded as absent; otherwise a bad load fails with its
/// message, the family recorded as absent, and a good one holds the
/// family's versions in the order returned (absent when there is none).
pub open spec fn load_recorded(
    a: FamilyLoads,
    b: FamilyLoads,
    name: Seq<char>,
    range: Option<Seq<SegModel>>,
    pv: Seq<(Seq<char>, Seq<char>, crate::package_data::PackageDataModel)>,
    r: Result<(), String>,
) -> bool {
    let f = family_from(pv, name);
    &&& forall|n: Seq<char>| n != name ==> #[trigger] entry_of(b@, n) == entry_of(a@, n)
    &&& b.error_text() == (match r {
        Err(m) => Some(m@),
        Ok(_) => a.error_text(),
    })
    &&& a.error_text() is Some ==> r is Ok && entry_of(b@, name) == Some((range, None::<FamilyModel>))
    &&& a.error_text() is None ==> (r is Err <==> load_bad(f))
    &&& a.error_text() is None ==> (r matches Err(m) ==> load_refusal(f, name, m@) && entry_of(b@, name) == Some(
        (range, None::<FamilyModel>),
    ))
    &&& a.error_text() is None && r is Ok ==> entry_of(b@, name) == Some(
        (range, if f.len() == 0 { None } else { Some(f) }),
    )
}

/// The families loaded so far, each with the range it was loaded for and
/// its versions where it exists.
pub struct FamilyLoads {
    entries: Vec<(String, LoadedRange, Option<Vec<(String, PackageData)>>)>,
    error: Option<String>,
}

/// The model of the entries.
pub open spec fn entries_view(v: Seq<(String, LoadedRange, Option<Vec<(String, PackageData)>>)>) -> Seq<LoadEntry> {
    v.map_values(
        |e: (String, LoadedRange, Option<Vec<(String, PackageData)>>)|
            (
                e.0@,
                loaded_model(e.1),
                match e.2 {
                    Some(f) => Some(family_view(f@)),
                    None => None,
                },
            ),
    )
}

/// Distinct families, each held family well formed.
pub open spec fn loads_ok(es: Seq<LoadEntry>) -> bool {
    &&& forall|i: int, j: int| 0 <= i < j < es.len() ==> (#[trigger] es[i]).0 != (#[trigger] es[j]).0
    &&& forall|i: int| 0 <= i < es.len() ==> ((#[trigger] es[i]).2 matches Some(f) ==> family_ok(f))
}

impl View for FamilyLoads {
    type V = Seq<LoadEntry>;

    closed spec fn view(&self) -> Seq<LoadEntry> {
        entries_view(self.entries@)
    }
}

impl FamilyLoads {
    #[verifier::type_invariant]
    spec fn inv(self) -> bool {
        loads_ok(entries_view(self.entries@))
    }

    /// The message of the load that failed, if one did.
    pub closed spec fn error_text(&self) -> Option<Seq<char>> {
        match self.error {
            Some(e) => Some(e@),
            None => None,
        }
    }

    /// Nothing loaded, and no load failed.
    pub fn new() -> (r: FamilyLoads)
        ensures
            r@.len() == 0,
            r.error_text() is None,
    {
        let r = FamilyLoads { entries: Vec::new(), error: None };
        assert(entries_view(r.entries@) =~= Seq::<LoadEntry>::empty());
        r
    }

    /// The index of family `name`'s entry.
    fn index_of(&self, name: &str) -> (r: Option<usize>)
        ensures
            match r {
                Some(k) => k < self@.len() && self@[k as int].0 == name@ && entry_of(self@, name@) == Some(
                    (self@[k as int].1, self@[k as int].2),
                ),
                None => entry_of(self@, name@) is None,
            },
    {
        proof {
            use_type_invariant(self);
        }
        let ghost es = self@;
        let mut i = self.entries.len();
        assert(es.take(i as int) =~= es);
        while i > 0
            invariant
                i <= es.len(),
                es == entries_view(self.entries@),
                loads_ok(es),
                entry_of(es, name@) == entry_of(es.take(i as int), name@),
            decreases i,
        {
            let k = i - 1;
            assert(es.take(i as int).drop_last() =~= es.take(k as int));
            assert(es[k as int].0 == self.entries@[k as int].0@);
            if str_eq(self.entries[k].0.as_str(), name) {
                return Some(k);
            }
            i = k;
        }
        None
    }

    /// Whether a request for family `name` within `hint` (`None`: every
    /// version) can be served from what is held, and whether the family
    /// exists; otherwise the range to load it for: the hint for a family
    /// never loaded, the union of the loaded range and the hint for one
    /// loaded for a range that does not cover the hint.
    pub fn lookup(&self, name: &str, hint: Option<&VersionRange>) -> (r: FamilyLookup)
        ensures
            match entry_of(self@, name@) {
                Some((l, f)) => if covers(l, hint_model(hint)) {
                    r == FamilyLookup::Held(f is Some)
                } else {
                    r matches FamilyLookup::Load(x) && range_opt_model(x) == widened(l, hint_model(hint))
                },
                None => r matches FamilyLookup::Load(x) && range_opt_model(x) == hint_model(hint),
            },
    {
        match self.index_of(name) {
            None => FamilyLookup::Load(
                match hint {
                    Some(h) => Some(h.duplicate()),
                    None => None,
                },
            ),
            Some(k) => {
                let present = self.entries[k].2.is_some();
                match (&self.entries[k].1, hint) {
                    (LoadedRange::Unconstrained, _) => FamilyLookup::Held(present),
                    (LoadedRange::Bounded(_), None) => FamilyLookup::Load(None),
                    (LoadedRange::Bounded(l), Some(w)) => {
                        let covered = match l.intersection(w) {
                            Some(x) => x.same_as(w),
                            None => false,
                        };
                        if covered {
                            FamilyLookup::Held(present)
                        } else {
                            FamilyLookup::Load(Some(l.union(w)))
                        }
                    },
                }
            },
        }
    }

    /// The versions of family `name`, where it was loaded and exists.
    pub fn family(&self, name: &str) -> (r: Option<&Vec<(String, PackageData)>>)
        ensures
            match r {
                Some(f) => entry_of(self@, name@) matches Some((_, Some(g))) && g == family_view(f@) && family_ok(g),
                None => !(entry_of(self@, name@) matches Some((_, Some(_)))),
            },
    {
        proof {
            use_type_invariant(self);
        }
        match self.index_of(name) {
            Some(k) => match &self.entries[k].2 {
                Some(f) => Some(f),
                None => None,
            },
            None => None,
        }
    }

    /// Sets family `name`'s entry, in place of an earlier one.
    fn set_entry(&mut self, e: (String, LoadedRange, Option<Vec<(String, PackageData)>>))
        requires
            e.2 matches Some(f) ==> family_ok(family_view(f@)),
        ensures
            entry_of(final(self)@, e.0@) == Some((entries_view(seq![e])[0].1, entries_view(seq![e])[0].2)),
            forall|n: Seq<char>| n != e.0@ ==> entry_of(final(self)@, n) == entry_of(old(self)@, n),
            final(self).error_text() == old(self).error_text(),
    {
        proof {
            use_type_invariant(&*self);
        }
        let ghost es = self@;
        let ghost item = entries_view(seq![e])[0];
        let found = self.index_of(e.0.as_str());
        let mut taken = FamilyLoads::new();
        std::mem::swap(&mut taken, self);
        let FamilyLoads { mut entries, error } = taken;
        match found {
            Some(k) => {
                entries.set(k, e);
                proof {
                    let nv = entries_view(entries@);
                    assert(nv =~= es.update(k as int, item));
                    assert forall|p: int, q: int| 0 <= p < q < nv.len() implies (#[trigger] nv[p]).0 != (#[trigger] nv[q]).0 by {
                        if p != k && q != k {
                            assert(nv[p] == es[p] && nv[q] == es[q]);
                        } else if p == k {
                            assert(nv[q] == es[q]);
                        } else {
                            assert(nv[p] == es[p]);
                        }
                    }
                    assert forall|t: int| 0 <= t < nv.len() implies ((#[trigger] nv[t]).2 matches Some(f) ==> family_ok(f)) by {
                        if t != k {
                            assert(nv[t] == es[t]);
                        }
                    }
                    lemma_entry_of_update(es, k as int, item);
                }
            },
            None => {
                entries.push(e);
                proof {
                    let nv = entries_view(entries@);
                    assert(nv =~= es.push(item));
                    assert(nv.drop_last() =~= es);
                    assert forall|p: int, q: int| 0 <= p < q < nv.len() implies (#[trigger] nv[p]).0 != (#[trigger] nv[q]).0 by {
                        assert(nv[p] == es[p]);
                        if q < es.len() {
                            assert(nv[q] == es[q]);
                        } else if es[p].0 == item.0 {
                            lemma_entry_of_has(es, p);
                        }
                    }
                    assert forall|t: int| 0 <= t < nv.len() implies ((#[trigger] nv[t]).2 matches Some(f) ==> family_ok(f)) by {
                        if t < es.len() {
                            assert(nv[t] == es[t]);
                        }
                    }
                }
            },
        }
        *self = FamilyLoads { entries, error };
    }

    /// Holds family `name` as loaded in full (every version).
    pub fn insert_family(&mut self, name: String, fam: Vec<(String, PackageData)>)
        requires
            family_ok(family_view(fam@)),
        ensures
            entry_of(final(self)@, name@) == Some((None::<Seq<SegModel>>, Some(family_view(fam@)))),
            forall|n: Seq<char>| n != name@ ==> entry_of(final(self)@, n) == entry_of(old(self)@, n),
            final(self).error_text() == old(self).error_text(),
    {
        self.set_entry((name, LoadedRange::Unconstrained, Some(fam)));
    }

    /// Records what a load of family `name` for `range` (`None`: every
    /// version) returned; entries of other families are dropped. Once a
    /// load has failed, every later load records its family as absent
    /// without looking at what it returned. Otherwise a load in which a
    /// version of the family comes twice, or a version or data cannot be
    /// read, fails: the family is recorded as absent and the failure's
    /// message is kept. Else the family is held with its versions in the
    /// order returned (as absent when none is), loaded for `range`.
    pub fn record_load(&mut self, name: &str, range: Option<VersionRange>, loaded: Vec<(String, String, PackageData)>) -> (r:
        Result<(), String>)
        ensures
            load_recorded(*old(self), *final(self), name@, range_opt_model(range), packages_view(loaded@), r),
    {
        let ghost pv = packages_view(loaded@);
        let ghost n = name@;
        let ghost rm = range_opt_model(range);
        let lr = match range {
            Some(x) => LoadedRange::Bounded(x),
            None => LoadedRange::Unconstrained,
        };
        assert(loaded_model(lr) == rm);
        if self.error.is_some() {
            self.set_entry((name.to_owned(), lr, None));
            return Ok(());
        }
        let mut fam: Vec<(String, PackageData)> = Vec::new();
        let mut i: usize = 0;
        while i < loaded.len()
            invariant
                i <= loaded@.len(),
                pv == packages_view(loaded@),
                n == name@,
                *self == *old(self),
                self.error_text() is None,
                rm == range_opt_model(range),
                loaded_model(lr) == rm,
                family_view(fam@) == family_from(pv.take(i as int), n),
                forall|q: int| 0 <= q < fam@.len() ==> !#[trigger] family_repeats_at(family_view(fam@), q),
            decreases loaded.len() - i,
        {
            let ghost f0 = family_view(fam@);
            assert(pv.take(i + 1).drop_last() =~= pv.take(i as int));
            assert(pv[i as int] == (loaded@[i as int].0@, loaded@[i as int].1@, loaded@[i as int].2@));
            if str_eq(loaded[i].0.as_str(), name) {
                let mut k: usize = 0;
                while k < fam.len()
                    invariant
                        k <= fam@.len(),
                        f0 == family_view(fam@),
                        *self == *old(self),
                        self.error_text() is None,
                        rm == range_opt_model(range),
                        loaded_model(lr) == rm,
                        i < loaded@.len(),
                        loaded@[i as int].0@ == name@,
                        pv == packages_view(loaded@),
                        n == name@,
                        f0 == family_from(pv.take(i as int), n),
                        pv.take(i + 1).drop_last() == pv.take(i as int),
                        pv[i as int] == (loaded@[i as int].0@, loaded@[i as int].1@, loaded@[i as int].2@),
                        forall|q: int| 0 <= q < f0.len() ==> !#[trigger] family_repeats_at(f0, q),
                        forall|t: int| 0 <= t < k ==> (#[trigger] f0[t]).0 != loaded@[i as int].1@,
                    decreases fam.len() - k,
                {
                    assert(f0[k as int] == (fam@[k as int].0@, fam@[k as int].1@));
                    if str_eq(fam[k].0.as_str(), loaded[i].1.as_str()) {
                        proof {
                            let nf = family_from(pv.take(i + 1), n);
                            assert(nf == f0.push((loaded@[i as int].1@, loaded@[i as int].2@)));
                            let fl = family_from(pv, n);
                            lemma_family_from_prefix(pv, n, i + 1);
                            assert forall|t: int| 0 <= t < nf.len() implies fl[t] == nf[t] by {}
                            assert(family_repeats_at(fl, f0.len() as int)) by {
                                assert(fl[k as int].0 == fl[f0.len() as int].0);
                            }
                            assert forall|t: int| 0 <= t < f0.len() implies !#[trigger] family_repeats_at(fl, t) by {
                                if family_repeats_at(fl, t) {
                                    let p = choose|p: int| 0 <= p < t && fl[p].0 == fl[t].0;
                                    assert(family_repeats_at(f0, t));
                                }
                            }
                            assert(first_family_repeat(fl, f0.len() as int));
                            assert(fl[f0.len() as int].0 == loaded@[i as int].1@);
                            lemma_first_repeat_unique(fl, f0.len() as int);
                        }
                        let dn = debug_quoted(name);
                        let dv = debug_quoted(loaded[i].1.as_str());
                        let a = str_concat("load_family(", dn.as_str());
                        let b = str_concat(a.as_str(), ") raised: load_family(");
                        let c = str_concat(b.as_str(), dn.as_str());
                        let d = str_concat(c.as_str(), ") returned duplicate version ");
                        let m = str_concat(d.as_str(), dv.as_str());
                        self.set_entry((name.to_owned(), lr, None));
                        proof {
                            use_type_invariant(&*self);
                        }
                        self.error = Some(m.clone());
                        return Err(m);
                    }
                    k = k + 1;
                }
                fam.push((loaded[i].1.clone(), loaded[i].2.duplicate()));
                proof {
                    let nf = family_view(fam@);
                    assert(nf =~= f0.push((loaded@[i as int].1@, loaded@[i as int].2@)));
                    assert forall|q: int| 0 <= q < nf.len() implies !#[trigger] family_repeats_at(nf, q) by {
                        if family_repeats_at(nf, q) {
                            let p = choose|p: int| 0 <= p < q && nf[p].0 == nf[q].0;
                            if q < f0.len() {
                                assert(nf[p] == f0[p] && nf[q] == f0[q]);
                                assert(family_repeats_at(f0, q));
                            } else {
                                assert(nf[p] == f0[p]);
                            }
                        }
                    }
                }
            }
            i = i + 1;
        }
        assert(pv.take(i as int) =~= pv);
        let ghost f = family_view(fam@);
        proof {
            assert forall|q: int| !#[trigger] first_family_repeat(family_from(pv, n), q) by {}
            assert forall|p: int, q: int| 0 <= p < q < f.len() implies (#[trigger] f[p]).0 != (#[trigger] f[q]).0 by {
                if f[p].0 == f[q].0 {
                    assert(family_repeats_at(f, q));
                }
            }
        }
        if !family_check(&fam) {
            let m = unreadable_message();
            self.set_entry((name.to_owned(), lr, None));
            proof {
                use_type_invariant(&*self);
            }
            self.error = Some(m.clone());
            return Err(m);
        }
        let held = if fam.len() == 0 {
            None
        } else {
            Some(fam)
        };
        self.set_entry((name.to_owned(), lr, held));
        Ok(())
    }

    /// The message of the load that failed, if one did.
    pub fn load_error(&self) -> (r: Option<String>)
        ensures
            r matches Some(m) ==> self.error_text() == Some(m@),
            r is None ==> self.error_text() is None,
    {
        match &self.error {
            Some(m) => Some(m.clone()),
            None => None,
        }
    }
}

/// Whether every version and data of a family can be read.
fn family_check(fam: &Vec<(String, PackageData)>) -> (b: bool)
    ensures
        b == family_readable(family_view(fam@)),
{
    let ghost f = family_view(fam@);
    let mut i: usize = 0;
    while i < fam.len()
        invariant
            i <= fam@.len(),
            f == family_view(fam@),
            forall|k: int| 0 <= k < i ==> version_text_ok((#[trigger] f[k]).0) && data_ok(f[k].1),
        decreases fam.len() - i,
    {
        assert(f[i as int] == (fam@[i as int].0@, fam@[i as int].1@));
        if RerVersion::parse_from_string(fam[i].0.as_str()).is_err() || !data_check(&fam[i].1) {
            return false;
        }
        i = i + 1;
    }
    true
}

/// The message of a load whose versions or data cannot be read.
fn unreadable_message() -> (m: String)
    ensures
        m@ == unreadable_text(),
{
    "solver panicked (an invalid request string?)".to_owned()
}

impl FamilyLoads {
    /// The repository of the families held (those loaded and found), for a
    /// resolve.
    pub fn to_repo(&self) -> (r: crate::repo::PackageRepo)
        ensures
            forall|n: Seq<char>| #[trigger] crate::repo::family_of(r@, n) == match entry_of(self@, n) {
                Some((_, f)) => f,
                None => None,
            },
    {
        proof {
            use_type_invariant(self);
        }
        let ghost es = self@;
        let mut repo = crate::repo::PackageRepo::empty();
        let mut i: usize = 0;
        while i < self.entries.len()
            invariant
                i <= es.len(),
                es == entries_view(self.entries@),
                loads_ok(es),
                forall|n: Seq<char>| #[trigger] crate::repo::family_of(repo@, n) == match entry_of(es.take(i as int), n) {
                    Some((_, f)) => f,
                    None => None,
                },
            decreases self.entries.len() - i,
        {
            let ghost e = es[i as int];
            assert(es.take(i + 1).drop_last() =~= es.take(i as int));
            assert(e.0 == self.entries@[i as int].0@);
            assert(entry_of(es.take(i as int), e.0) is None) by {
                if entry_of(es.take(i as int), e.0) is Some {
                    lemma_entry_of_found(es.take(i as int), e.0);
                    let t = choose|t: int| 0 <= t < i && (#[trigger] es.take(i as int)[t]).0 == e.0;
                    assert(es[t] == es.take(i as int)[t]);
                }
            }
            match &self.entries[i].2 {
                Some(f) => {
                    let name = self.entries[i].0.clone();
                    let fam = crate::solve_api::copy_family(f);
                    repo.insert_family(name, fam);
                },
                None => {},
            }
            i = i + 1;
        }
        assert(es.take(i as int) =~= es);
        repo
    }
}

/// A lookup of family `n` for `h` (`None`: every version) cannot be served
/// from what is held, and asks for a load for `x`.
pub open spec fn lookup_misses(es: Seq<LoadEntry>, n: Seq<char>, h: Option<Seq<SegModel>>, x: Option<Seq<SegModel>>) -> bool {
    match entry_of(es, n) {
        Some((l, _)) => !covers(l, h) && x == widened(l, h),
        None => x == h,
    }
}

/// Family `n` is held for every version of `r`.
pub open spec fn held_for(es: Seq<LoadEntry>, n: Seq<char>, r: Seq<SegModel>) -> bool {
    entry_of(es, n) matches Some((l, _)) && covers(l, Some(r))
}

/// A request that a resolve looks its family up for: neither a conflict
/// nor one on an ephemeral.
pub open spec fn looked_up(q: RequirementModel) -> bool {
    !q.conflict && !ephemeral_name(q.name)
}

/// Family `n`, where held as absent, was loaded for every version.
pub open spec fn absent_in_full(es: Seq<LoadEntry>, n: Seq<char>) -> bool {
    entry_of(es, n) matches Some((l, None)) ==> l is None
}

/// What is held of family `n`: its versions where it was loaded and exists.
pub open spec fn held_family(es: Seq<LoadEntry>, n: Seq<char>) -> Option<FamilyModel> {
    match entry_of(es, n) {
        Some((_, f)) => f,
        None => None,
    }
}

impl FamilyLoads {
    /// Where family `name` is not held for every version of `range`, the
    /// range to load it for.
    fn miss(&self, name: &str, range: &VersionRange) -> (r: Option<Option<VersionRange>>)
        ensures
            r matches Some(x) ==> lookup_misses(self@, name@, Some(range@), range_opt_model(x)),
            r is None ==> held_for(self@, name@, range@),
    {
        match self.lookup(name, Some(range)) {
            FamilyLookup::Held(_) => None,
            FamilyLookup::Load(x) => Some(x),
        }
    }

    /// The next load that a resolve of `requests` over what is held needs:
    /// a family that a request names, for the request's range; a family
    /// held as absent for a range only, for every version; or a family
    /// that a requirement of a held version names, for the requirement's
    /// range (conflicts and ephemerals aside). `None` when every such
    /// lookup is served by what is held.
    pub fn first_missing(&self, requests: &Vec<Requirement>) -> (r: Option<(String, Option<VersionRange>)>)
        ensures
            r matches Some((n, x)) ==> exists|h: Option<Seq<SegModel>>| #[trigger] lookup_misses(self@, n@, h, range_opt_model(x)),
            r is None ==> forall|i: int|
                0 <= i < requests@.len() && looked_up(#[trigger] requests@[i]@) ==> held_for(
                    self@,
                    requests@[i]@.name,
                    request_range(requests@[i]@),
                ),
            r is None ==> forall|n: Seq<char>| #[trigger] absent_in_full(self@, n),
    {
        proof {
            use_type_invariant(self);
        }
        let ghost es = self@;
        let mut i: usize = 0;
        while i < requests.len()
            invariant
                i <= requests@.len(),
                es == self@,
                forall|k: int|
                    0 <= k < i && looked_up(#[trigger] requests@[k]@) ==> held_for(es, requests@[k]@.name, request_range(requests@[k]@)),
            decreases requests.len() - i,
        {
            let q = &requests[i];
            if !q.is_conflict() && !is_ephemeral_name(q.name()) {
                let rng = match q.range() {
                    Some(x) => x.duplicate(),
                    None => VersionRange::any(),
                };
                match self.miss(q.name(), &rng) {
                    Some(x) => {
                        let n = q.name().to_owned();
                        assert(lookup_misses(self@, n@, Some(rng@), range_opt_model(x)));
                        let r = Some((n, x));
                        assert(r matches Some((n1, x1)) && n1@ == n@ && range_opt_model(x1) == range_opt_model(x));
                        return r;
                    },
                    None => {},
                }
            }
            i = i + 1;
        }
        let mut k: usize = 0;
        while k < self.entries.len()
            invariant
                k <= es.len(),
                es == self@,
                es == entries_view(self.entries@),
                loads_ok(es),
                forall|t: int|
                    0 <= t < requests@.len() && looked_up(#[trigger] requests@[t]@) ==> held_for(es, requests@[t]@.name, request_range(requests@[t]@)),
                forall|t: int| 0 <= t < k ==> ((#[trigger] es[t]).2 is None ==> es[t].1 is None),
            decreases self.entries.len() - k,
        {
            let ghost e = es[k as int];
            assert(e.0 == self.entries@[k as int].0@);
            if self.entries[k].2.is_none() {
                match &self.entries[k].1 {
                    LoadedRange::Bounded(_) => {
                        let n = self.entries[k].0.clone();
                        proof {
                            lemma_entry_of_at(es, k as int);
                            assert(lookup_misses(es, n@, None, None));
                        }
                        let r = Some((n, None));
                        assert(r matches Some((n1, x1)) && n1@ == n@ && range_opt_model(x1) == None::<Seq<SegModel>>);
                        return r;
                    },
                    LoadedRange::Unconstrained => {},
                }
            }
            k = k + 1;
        }
        proof {
            assert forall|n: Seq<char>| #[trigger] absent_in_full(es, n) by {
                if entry_of(es, n) is Some {
                lemma_entry_of_found(es, n);
                let t = choose|t: int| 0 <= t < es.len() && (#[trigger] es[t]).0 == n;
                lemma_entry_of_at(es, t);
                }
            }
        }
        let mut k: usize = 0;
        while k < self.entries.len()
            invariant
                k <= es.len(),
                es == self@,
                es == entries_view(self.entries@),
                loads_ok(es),
                forall|t: int|
                    0 <= t < requests@.len() && looked_up(#[trigger] requests@[t]@) ==> held_for(es, requests@[t]@.name, request_range(requests@[t]@)),
                forall|n: Seq<char>| #[trigger] absent_in_full(es, n),
            decreases self.entries.len() - k,
        {
            match &self.entries[k].2 {
                Some(fam) => {
                    let ghost f = family_view(fam@);
                    assert(es[k as int].2 == Some(f));
                    assert(family_ok(f));
                    let mut v: usize = 0;
                    while v < fam.len()
                        invariant
                            v <= fam@.len(),
                            f == family_view(fam@),
                            family_ok(f),
                            es == self@,
                        decreases fam.len() - v,
                    {
                        assert(f[v as int] == (fam@[v as int].0@, fam@[v as int].1@));
                        let d = &fam[v].1;
                        assert(data_ok(d@));
                        assert forall|t: int| 0 <= t < d.requires@.len() implies requirement_text_ok(
                            (#[trigger] d.requires@[t])@,
                        ) by {
                            assert(d@.requires[t] == d.requires@[t]@);
                        }
                        match self.first_missing_text(&d.requires) {
                            Some(m) => {
                                return Some(m);
                            },
                            None => {},
                        }
                        let mut w: usize = 0;
                        while w < d.variants.len()
                            invariant
                                w <= d.variants@.len(),
                                data_ok(d@),
                                es == self@,
                            decreases d.variants.len() - w,
                        {
                            assert forall|t: int| 0 <= t < d.variants@[w as int]@.len() implies requirement_text_ok(
                                (#[trigger] d.variants@[w as int]@[t])@,
                            ) by {
                                assert(d@.variants[w as int][t] == d.variants@[w as int]@[t]@);
                            }
                            match self.first_missing_text(&d.variants[w]) {
                                Some(m) => {
                                    return Some(m);
                                },
                                None => {},
                            }
                            w = w + 1;
                        }
                        v = v + 1;
                    }
                },
                None => {},
            }
            k = k + 1;
        }
        None
    }

    /// The first requirement text of `texts` (conflicts and ephemerals
    /// aside) whose family is not held for its range, with the range to
    /// load that family for.
    fn first_missing_text(&self, texts: &Vec<String>) -> (r: Option<(String, Option<VersionRange>)>)
        requires
            forall|t: int| 0 <= t < texts@.len() ==> requirement_text_ok((#[trigger] texts@[t])@),
        ensures
            r matches Some((n, x)) ==> exists|h: Option<Seq<SegModel>>| #[trigger] lookup_misses(self@, n@, h, range_opt_model(x)),
    {
        let mut t: usize = 0;
        while t < texts.len()
            invariant
                t <= texts@.len(),
                forall|u: int| 0 <= u < texts@.len() ==> requirement_text_ok((#[trigger] texts@[u])@),
            decreases texts.len() - t,
        {
            let q = Requirement::parse(texts[t].as_str());
            if !q.is_conflict() && !is_ephemeral_name(q.name()) {
                let rng = match q.range() {
                    Some(x) => x.duplicate(),
                    None => VersionRange::any(),
                };
                match self.miss(q.name(), &rng) {
                    Some(x) => {
                        let n = q.name().to_owned();
                        assert(lookup_misses(self@, n@, Some(rng@), range_opt_model(x)));
                        let r = Some((n, x));
                        assert(r matches Some((n1, x1)) && n1@ == n@ && range_opt_model(x1) == range_opt_model(x));
                        return r;
                    },
                    None => {},
                }
            }
            t = t + 1;
        }
        None
    }
}

/// With distinct families, the entry found for a family is its own.
proof fn lemma_entry_of_at(es: Seq<LoadEntry>, k: int)
    requires
        0 <= k < es.len(),
        forall|i: int, j: int| 0 <= i < j < es.len() ==> (#[trigger] es[i]).0 != (#[trigger] es[j]).0,
    ensures
        entry_of(es, es[k].0) == Some((es[k].1, es[k].2)),
    decreases es.len(),
{
    if k < es.len() - 1 {
        let d = es.drop_last();
        assert forall|i: int, j: int| 0 <= i < j < d.len() implies (#[trigger] d[i]).0 != (#[trigger] d[j]).0 by {
            assert(d[i] == es[i] && d[j] == es[j]);
        }
        lemma_entry_of_at(d, k);
        assert(d[k] == es[k]);
        assert(es[es.len() - 1] == es.last());
    }
}

/// A family that is found has an entry.
proof fn lemma_entry_of_found(es: Seq<LoadEntry>, n: Seq<char>)
    requires
        entry_of(es, n) is Some,
    ensures
        exists|t: int| 0 <= t < es.len() && (#[trigger] es[t]).0 == n,
    decreases es.len(),
{
    if es.last().0 == n {
        assert(es[es.len() - 1] == es.last());
    } else {
        lemma_entry_of_found(es.drop_last(), n);
        let t = choose|t: int| 0 <= t < es.len() - 1 && (#[trigger] es.drop_last()[t]).0 == n;
        assert(es[t] == es.drop_last()[t]);
    }
}

/// The first repeat of a family is the only first repeat.
proof fn lemma_first_repeat_unique(f: FamilyModel, q: int)
    requires
        first_family_repeat(f, q),
    ensures
        forall|r: int| #[trigger] first_family_repeat(f, r) ==> r == q,
{
}

/// The versions of family `n` among the first `k` packages begin the
/// versions of `n` among all of them.
proof fn lemma_family_from_prefix(ps: Seq<(Seq<char>, Seq<char>, crate::package_data::PackageDataModel)>, n: Seq<char>, k: int)
    requires
        0 <= k <= ps.len(),
    ensures
        family_from(ps.take(k), n).len() <= family_from(ps, n).len(),
        forall|t: int| 0 <= t < family_from(ps.take(k), n).len() ==> family_from(ps, n)[t] == family_from(ps.take(k), n)[t],
    decreases ps.len() - k,
{
    if k < ps.len() {
        lemma_family_from_prefix(ps, n, k + 1);
        assert(ps.take(k + 1).drop_last() =~= ps.take(k));
    } else {
        assert(ps.take(k) =~= ps);
    }
}

/// Setting an entry changes what is found of its family only.
proof fn lemma_entry_of_update(es: Seq<LoadEntry>, k: int, item: LoadEntry)
    requires
        0 <= k < es.len(),
        es[k].0 == item.0,
        forall|i: int, j: int| 0 <= i < j < es.len() ==> (#[trigger] es[i]).0 != (#[trigger] es[j]).0,
    ensures
        entry_of(es.update(k, item), item.0) == Some((item.1, item.2)),
        forall|n: Seq<char>| n != item.0 ==> entry_of(es.update(k, item), n) == entry_of(es, n),
    decreases es.len(),
{
    let u = es.update(k, item);
    if k == es.len() - 1 {
        assert(u.drop_last() =~= es.drop_last());
        assert(u.last() == item);
        assert(es.last() == es[k]);
        assert forall|n: Seq<char>| n != item.0 implies entry_of(u, n) == entry_of(es, n) by {}
    } else {
        let d = es.drop_last();
        assert forall|i: int, j: int| 0 <= i < j < d.len() implies (#[trigger] d[i]).0 != (#[trigger] d[j]).0 by {
            assert(d[i] == es[i] && d[j] == es[j]);
        }
        lemma_entry_of_update(d, k, item);
        assert(u.drop_last() =~= d.update(k, item));
        assert(u.last() == es.last());
        assert(es.last().0 != item.0) by {
            assert(es[es.len() - 1] == es.last());
        }
        assert forall|n: Seq<char>| n != item.0 implies entry_of(u, n) == entry_of(es, n) by {
            if es.last().0 != n {
                assert(entry_of(u, n) == entry_of(u.drop_last(), n));
                assert(entry_of(es, n) == entry_of(d, n));
            }
        }
    }
}

/// A family with an entry is found.
proof fn lemma_entry_of_has(es: Seq<LoadEntry>, p: int)
    requires
        0 <= p < es.len(),
    ensures
        entry_of(es, es[p].0) is Some,
    decreases es.len(),
{
    if p < es.len() - 1 && es.last().0 != es[p].0 {
        lemma_entry_of_has(es.drop_last(), p);
        assert(es.drop_last()[p] == es[p]);
    }
}

} // verus!
