//! The variants of package versions, the keys that order them, and the
//! variants of one package version.
use vstd::prelude::*;
use std::rc::Rc;
use crate::order::{compare_int, lex, is_total_order};
use crate::version::RerVersion;
use crate::version_order::{VersionModel, version_wf};
use crate::requirement::{
    Requirement, RequirementList, RequirementModel, RequirementListModel, find_name_from, reqs_view,
    strings_view,
};
use crate::status::VariantSelectMode;
use crate::variant_key::{
    SegmentKey, SegKeyModel, seg_keys_view, range_key, range_sort_key, compare_range_keys, range_key_dom,
    req_entry_ord, add_entry_ord, variant_key_ord, variant_key_dom, req_entry_dom, add_entry_dom,
    VariantKeyModel, lemma_variant_key_order,
};
use crate::graph::compare_names;
use crate::text::str_eq;

verus! {

/// Another handle on the same shared value.
#[verifier::external_body]
pub(crate) fn share<T>(r: &Rc<T>) -> (s: Rc<T>)
    ensures
        s == *r,
{
    Rc::clone(r)
}

// ---------------------------------------------------------------------------
// PackageVariant
// ---------------------------------------------------------------------------

/// The model of a variant.
pub struct VariantModel {
    pub name: Seq<char>,
    pub version: VersionModel,
    pub index: Option<usize>,
    pub requires: RequirementListModel,
}

/// One variant of one package version: the common requirements of the
/// version and the variant's own, merged.
#[derive(Debug)]
pub struct PackageVariant {
    name: String,
    version: RerVersion,
    index: Option<usize>,
    requires: RequirementList,
}

impl View for PackageVariant {
    type V = VariantModel;

    closed spec fn view(&self) -> VariantModel {
        VariantModel { name: self.name@, version: self.version@, index: self.index, requires: self.requires@ }
    }
}

impl PackageVariant {
    /// A variant of the package `name` at `version`, with its merged
    /// requirements (`index` is `None` for a package without variants).
    pub fn new(name: String, version: RerVersion, index: Option<usize>, requires: RequirementList) -> (r:
        PackageVariant)
        ensures
            r@ == (VariantModel { name: name@, version: version@, index, requires: requires@ }),
    {
        PackageVariant { name, version, index, requires }
    }

    /// The package name.
    pub fn name(&self) -> (r: &str)
        ensures
            r@ == self@.name,
    {
        self.name.as_str()
    }

    /// The version.
    pub fn version(&self) -> (r: &RerVersion)
        ensures
            r@ == self@.version,
    {
        &self.version
    }

    /// The variant index, `None` for a package without variants.
    pub fn index(&self) -> (r: Option<usize>)
        ensures
            r == self@.index,
    {
        self.index
    }

    /// The merged requirements.
    pub fn requires_list(&self) -> (r: &RequirementList)
        ensures
            r@ == self@.requires,
    {
        &self.requires
    }

    /// The variant's requirement on `pkg_name`, if it has one.
    pub fn get(&self, pkg_name: &str) -> (r: Option<&Requirement>)
        ensures
            match r {
                Some(q) => find_name_from(self@.requires.by_name, pkg_name@, 0) matches Some(k)
                    && self@.requires.by_name[k] == q@,
                None => find_name_from(self@.requires.by_name, pkg_name@, 0) is None,
            },
    {
        self.requires.get(pkg_name)
    }

    /// The packages this variant requires (not as conflicts).
    pub fn request_fams(&self) -> (r: &[String])
        ensures
            strings_view(r@) == self@.requires.names,
    {
        self.requires.names()
    }

    /// The packages this variant requires as conflicts.
    pub fn conflict_request_fams(&self) -> (r: &[String])
        ensures
            strings_view(r@) == self@.requires.conflict_names,
    {
        self.requires.conflict_names()
    }

    /// Whether the variant's own requirements contradict each other.
    pub fn has_internal_conflict(&self) -> (b: bool)
        ensures
            b == (self@.requires.conflict is Some),
    {
        self.requires.conflict().is_some()
    }
}

/// A variant removed during a reduction, kept to explain a failure.
#[derive(Debug)]
pub struct Reduction {
    /// The package of the removed variant.
    pub name: String,
    /// Its version.
    pub version: RerVersion,
    /// Its index.
    pub variant_index: Option<usize>,
    /// Its requirement that caused the reduction.
    pub dependency: Requirement,
    /// The request that requirement conflicts with.
    pub conflicting_request: Requirement,
}

// ---------------------------------------------------------------------------
// Variant keys
// ---------------------------------------------------------------------------

/// The keys of the requested packages a variant requires, for the first
/// `n` requests: the request's place and the range the variant asks.
pub open spec fn requested_keys(requests: Seq<RequirementModel>, by_name: Seq<RequirementModel>, n: int) -> Seq<
    (int, Seq<SegKeyModel>),
>
    decreases n,
{
    if n <= 0 {
        Seq::empty()
    } else {
        let prev = requested_keys(requests, by_name, n - 1);
        let r = requests[n - 1];
        match find_name_from(by_name, r.name, 0) {
            Some(k) => if !r.conflict {
                prev.push((n - 1, range_key(by_name[k].range)))
            } else {
                prev
            },
            None => prev,
        }
    }
}

/// The names of the requested packages a variant requires, for the first
/// `n` requests.
pub open spec fn requested_names(requests: Seq<RequirementModel>, by_name: Seq<RequirementModel>, n: int) -> Seq<
    Seq<char>,
>
    decreases n,
{
    if n <= 0 {
        Seq::empty()
    } else {
        let prev = requested_names(requests, by_name, n - 1);
        let r = requests[n - 1];
        match find_name_from(by_name, r.name, 0) {
            Some(k) => if !r.conflict {
                prev.push(by_name[k].name)
            } else {
                prev
            },
            None => prev,
        }
    }
}

/// The keys of the first `n` requirements of a variant that are neither
/// conflicts nor on requested packages: the range, then the name.
pub open spec fn additional_keys(reqs: Seq<RequirementModel>, found: Seq<Seq<char>>, n: int) -> Seq<
    (Seq<SegKeyModel>, Seq<char>),
>
    decreases n,
{
    if n <= 0 {
        Seq::empty()
    } else {
        let prev = additional_keys(reqs, found, n - 1);
        let r = reqs[n - 1];
        if !r.conflict && !found.contains(r.name) {
            prev.push((range_key(r.range), r.name))
        } else {
            prev
        }
    }
}

/// The key of a variant for the request `requests`: variants with greater
/// keys are worth using first.
pub open spec fn variant_key(requests: Seq<RequirementModel>, mode: VariantSelectMode, v: VariantModel) -> VariantKeyModel {
    let rq = requested_keys(requests, v.requires.by_name, requests.len() as int);
    let found = requested_names(requests, v.requires.by_name, requests.len() as int);
    let add = additional_keys(v.requires.requirements, found, v.requires.requirements.len() as int);
    let count = if mode is IntersectionPriority {
        rq.len() as int
    } else {
        0
    };
    (count, (rq, (add.len() as int, (add, v.index))))
}

/// The executable key of a variant.
pub struct VariantKey {
    count: usize,
    requested: Vec<(usize, Vec<SegmentKey>)>,
    additional: Vec<(Vec<SegmentKey>, String)>,
    index: Option<usize>,
}

pub open spec fn req_entries_view(v: Seq<(usize, Vec<SegmentKey>)>) -> Seq<(int, Seq<SegKeyModel>)> {
    v.map_values(|e: (usize, Vec<SegmentKey>)| (e.0 as int, seg_keys_view(e.1@)))
}

pub open spec fn add_entries_view(v: Seq<(Vec<SegmentKey>, String)>) -> Seq<(Seq<SegKeyModel>, Seq<char>)> {
    v.map_values(|e: (Vec<SegmentKey>, String)| (seg_keys_view(e.0@), e.1@))
}

impl View for VariantKey {
    type V = VariantKeyModel;

    closed spec fn view(&self) -> VariantKeyModel {
        (
            self.count as int,
            (
                req_entries_view(self.requested@),
                (self.additional@.len() as int, (add_entries_view(self.additional@), self.index)),
            ),
        )
    }
}

fn compare_usize(a: usize, b: usize) -> (r: i8)
    ensures
        r as int == compare_int(a as int, b as int),
{
    if a < b {
        -1
    } else if a == b {
        0
    } else {
        1
    }
}

fn compare_req_entry(a: &(usize, Vec<SegmentKey>), b: &(usize, Vec<SegmentKey>)) -> (r: i8)
    ensures
        r as int == req_entry_ord()((a.0 as int, seg_keys_view(a.1@)), (b.0 as int, seg_keys_view(b.1@))),
{
    let c = compare_usize(b.0, a.0);
    if c != 0 {
        return c;
    }
    compare_range_keys(&a.1, &b.1)
}

fn compare_add_entry(a: &(Vec<SegmentKey>, String), b: &(Vec<SegmentKey>, String)) -> (r: i8)
    ensures
        r as int == add_entry_ord()((seg_keys_view(a.0@), a.1@), (seg_keys_view(b.0@), b.1@)),
{
    let c = compare_range_keys(&a.0, &b.0);
    if c != 0 {
        return c;
    }
    compare_names(a.1.as_str(), b.1.as_str())
}

fn compare_req_lists(a: &Vec<(usize, Vec<SegmentKey>)>, b: &Vec<(usize, Vec<SegmentKey>)>) -> (r: i8)
    ensures
        r as int == lex(req_entries_view(a@), req_entries_view(b@), req_entry_ord()),
{
    let ghost x = req_entries_view(a@);
    let ghost y = req_entries_view(b@);
    let mut i: usize = 0;
    assert(x.skip(0) =~= x);
    assert(y.skip(0) =~= y);
    while i < a.len() && i < b.len()
        invariant
            i <= a@.len(),
            i <= b@.len(),
            x == req_entries_view(a@),
            y == req_entries_view(b@),
            lex(x, y, req_entry_ord()) == lex(x.skip(i as int), y.skip(i as int), req_entry_ord()),
        decreases a.len() - i,
    {
        let ghost sa = x.skip(i as int);
        let ghost sb = y.skip(i as int);
        assert(sa[0] == x[i as int]);
        assert(sb[0] == y[i as int]);
        let c = compare_req_entry(&a[i], &b[i]);
        if c != 0 {
            return c;
        }
        assert(sa.drop_first() =~= x.skip(i + 1));
        assert(sb.drop_first() =~= y.skip(i + 1));
        i = i + 1;
    }
    if i < a.len() {
        1
    } else if i < b.len() {
        -1
    } else {
        assert(x.skip(i as int).len() == 0 && y.skip(i as int).len() == 0);
        0
    }
}

fn compare_add_lists(a: &Vec<(Vec<SegmentKey>, String)>, b: &Vec<(Vec<SegmentKey>, String)>) -> (r: i8)
    ensures
        r as int == lex(add_entries_view(a@), add_entries_view(b@), add_entry_ord()),
{
    let ghost x = add_entries_view(a@);
    let ghost y = add_entries_view(b@);
    let mut i: usize = 0;
    assert(x.skip(0) =~= x);
    assert(y.skip(0) =~= y);
    while i < a.len() && i < b.len()
        invariant
            i <= a@.len(),
            i <= b@.len(),
            x == add_entries_view(a@),
            y == add_entries_view(b@),
            lex(x, y, add_entry_ord()) == lex(x.skip(i as int), y.skip(i as int), add_entry_ord()),
        decreases a.len() - i,
    {
        let ghost sa = x.skip(i as int);
        let ghost sb = y.skip(i as int);
        assert(sa[0] == x[i as int]);
        assert(sb[0] == y[i as int]);
        let c = compare_add_entry(&a[i], &b[i]);
        if c != 0 {
            return c;
        }
        assert(sa.drop_first() =~= x.skip(i + 1));
        assert(sb.drop_first() =~= y.skip(i + 1));
        i = i + 1;
    }
    if i < a.len() {
        1
    } else if i < b.len() {
        -1
    } else {
        assert(x.skip(i as int).len() == 0 && y.skip(i as int).len() == 0);
        0
    }
}

/// Compares two variant keys field by field.
pub fn compare_variant_keys(a: &VariantKey, b: &VariantKey) -> (r: i8)
    ensures
        r as int == variant_key_ord()(a@, b@),
{
    let c = compare_usize(a.count, b.count);
    if c != 0 {
        return c;
    }
    let c = compare_req_lists(&a.requested, &b.requested);
    if c != 0 {
        return c;
    }
    let c = compare_usize(b.additional.len(), a.additional.len());
    if c != 0 {
        return c;
    }
    let c = compare_add_lists(&a.additional, &b.additional);
    if c != 0 {
        return c;
    }
    match (a.index, b.index) {
        (None, None) => 0,
        (None, Some(_)) => -1,
        (Some(_), None) => 1,
        (Some(x), Some(y)) => compare_usize(x, y),
    }
}

/// Whether `names` holds `name`.
pub fn holds(names: &[String], name: &str) -> (b: bool)
    ensures
        b == strings_view(names@).contains(name@),
{
    let mut i: usize = 0;
    while i < names.len()
        invariant
            i <= names@.len(),
            forall|j: int| 0 <= j < i ==> strings_view(names@)[j] != name@,
        decreases names.len() - i,
    {
        if str_eq(names[i].as_str(), name) {
            assert(strings_view(names@)[i as int] == name@);
            return true;
        }
        i = i + 1;
    }
    false
}

/// The key of a variant for the request `requests`.
pub fn variant_sort_key(variant: &PackageVariant, requests: &RequirementList, mode: VariantSelectMode) -> (r:
    VariantKey)
    ensures
        r@ == variant_key(requests@.requirements, mode, variant@),
        variant_key_dom()(r@),
{
    let reqs = requests.requirements();
    let ghost rs = requests@.requirements;
    let ghost by_name = variant@.requires.by_name;
    let mut requested: Vec<(usize, Vec<SegmentKey>)> = Vec::new();
    let mut names: Vec<String> = Vec::new();
    let mut i: usize = 0;
    while i < reqs.len()
        invariant
            i <= reqs@.len(),
            rs == reqs_view(reqs@),
            by_name == variant@.requires.by_name,
            req_entries_view(requested@) == requested_keys(rs, by_name, i as int),
            strings_view(names@) == requested_names(rs, by_name, i as int),
            forall|k: int| 0 <= k < requested@.len() ==> #[trigger] req_entry_dom()(req_entries_view(requested@)[k]),
        decreases reqs.len() - i,
    {
        let request = &reqs[i];
        assert(rs[i as int] == request@);
        if !request.is_conflict() {
            match variant.get(request.name()) {
                Some(req) => {
                    let ghost before = req_entries_view(requested@);
                    let ghost nbefore = strings_view(names@);
                    let key = range_sort_key(req.range());
                    requested.push((i, key));
                    names.push(req.name().to_owned());
                    assert(req_entries_view(requested@) =~= before.push((i as int, seg_keys_view(key@))));
                    assert(strings_view(names@) =~= nbefore.push(req@.name));
                },
                None => {},
            }
        }
        i = i + 1;
    }
    let vreqs = variant.requires_list().requirements();
    let ghost vr = variant@.requires.requirements;
    let ghost found = strings_view(names@);
    let mut additional: Vec<(Vec<SegmentKey>, String)> = Vec::new();
    let mut j: usize = 0;
    while j < vreqs.len()
        invariant
            j <= vreqs@.len(),
            vr == reqs_view(vreqs@),
            found == strings_view(names@),
            add_entries_view(additional@) == additional_keys(vr, found, j as int),
            forall|k: int| 0 <= k < additional@.len() ==> #[trigger] add_entry_dom()(add_entries_view(additional@)[k]),
        decreases vreqs.len() - j,
    {
        let request = &vreqs[j];
        assert(vr[j as int] == request@);
        if !request.is_conflict() && !holds(&names, request.name()) {
            let ghost before = add_entries_view(additional@);
            let key = range_sort_key(request.range());
            additional.push((key, request.name().to_owned()));
            assert(add_entries_view(additional@) =~= before.push((seg_keys_view(key@), request@.name)));
        }
        j = j + 1;
    }
    let count = match mode {
        VariantSelectMode::VersionPriority => 0,
        VariantSelectMode::IntersectionPriority => requested.len(),
    };
    let r = VariantKey { count, requested, additional, index: variant.index() };
    r
}

// ---------------------------------------------------------------------------
// Ordering the variants of a version
// ---------------------------------------------------------------------------

/// The variants are ordered from the greatest key to the least.
pub open spec fn keys_descending(requests: Seq<RequirementModel>, mode: VariantSelectMode, vs: Seq<Rc<PackageVariant>>) -> bool {
    forall|i: int, j: int|
        0 <= i < j < vs.len() ==> variant_key_ord()(
            variant_key(requests, mode, (#[trigger] vs[i])@),
            variant_key(requests, mode, (#[trigger] vs[j])@),
        ) >= 0
}

/// The models of a list of keys.
pub open spec fn key_views(v: Seq<VariantKey>) -> Seq<VariantKeyModel> {
    v.map_values(|k: VariantKey| k@)
}

/// The keys are in decreasing order.
pub open spec fn descending(ks: Seq<VariantKeyModel>) -> bool {
    forall|i: int, j: int| 0 <= i < j < ks.len() ==> variant_key_ord()(#[trigger] ks[i], #[trigger] ks[j]) >= 0
}

/// Inserting a key after every key not below it and before the first key
/// below it keeps the keys in decreasing order.
proof fn lemma_insert_descending(ko: Seq<VariantKeyModel>, key: VariantKeyModel, p: int)
    requires
        is_total_order(variant_key_ord(), variant_key_dom()),
        forall|i: int| 0 <= i < ko.len() ==> #[trigger] variant_key_dom()(ko[i]),
        variant_key_dom()(key),
        0 <= p <= ko.len(),
        descending(ko),
        forall|x: int| 0 <= x < p ==> variant_key_ord()(#[trigger] ko[x], key) >= 0,
        p < ko.len() ==> variant_key_ord()(ko[p], key) < 0,
    ensures
        descending(ko.insert(p, key)),
        forall|i: int| 0 <= i < ko.len() + 1 ==> #[trigger] variant_key_dom()(ko.insert(p, key)[i]),
{
    let f = variant_key_ord();
    let nk = ko.insert(p, key);
    assert forall|i: int| 0 <= i < ko.len() + 1 implies #[trigger] variant_key_dom()(nk[i]) by {
        if i < p {
            assert(nk[i] == ko[i]);
        } else if i > p {
            assert(nk[i] == ko[i - 1]);
        }
    }
    if p < ko.len() {
        assert(f(key, ko[p]) > 0);
    }
    assert forall|x: int, y: int| 0 <= x < y < nk.len() implies f(#[trigger] nk[x], #[trigger] nk[y]) >= 0 by {
        if y < p {
            assert(nk[x] == ko[x] && nk[y] == ko[y]);
        } else if y == p {
            assert(nk[x] == ko[x]);
        } else if x < p {
            assert(nk[x] == ko[x] && nk[y] == ko[y - 1]);
            assert(f(ko[y - 1], ko[p]) <= 0);
            assert(f(ko[p], key) <= 0);
            assert(f(ko[y - 1], key) <= 0);
            assert(f(key, ko[x]) <= 0);
            assert(f(ko[y - 1], ko[x]) <= 0);
        } else if x == p {
            assert(nk[y] == ko[y - 1]);
            assert(f(ko[y - 1], ko[p]) <= 0);
            assert(f(ko[p], key) <= 0);
            assert(f(ko[y - 1], key) <= 0);
        } else {
            assert(nk[x] == ko[x - 1] && nk[y] == ko[y - 1]);
        }
    }
}

/// Orders variants from the one most worth using to the least.
pub fn sort_variants(variants: &Vec<Rc<PackageVariant>>, requests: &RequirementList, mode: VariantSelectMode) -> (r:
    Vec<Rc<PackageVariant>>)
    ensures
        r@.to_multiset() == variants@.to_multiset(),
        keys_descending(requests@.requirements, mode, r@),
{
    let ghost rs = requests@.requirements;
    proof {
        lemma_variant_key_order();
    }
    let mut keys: Vec<VariantKey> = Vec::new();
    let mut out: Vec<Rc<PackageVariant>> = Vec::new();
    let mut k: usize = 0;
    assert(variants@.take(0) =~= Seq::<Rc<PackageVariant>>::empty());
    while k < variants.len()
        invariant
            k <= variants@.len(),
            rs == requests@.requirements,
            is_total_order(variant_key_ord(), variant_key_dom()),
            keys@.len() == out@.len(),
            forall|i: int| 0 <= i < out@.len() ==> #[trigger] key_views(keys@)[i] == variant_key(rs, mode, out@[i]@),
            forall|i: int| 0 <= i < keys@.len() ==> #[trigger] variant_key_dom()(key_views(keys@)[i]),
            descending(key_views(keys@)),
            out@.to_multiset() == variants@.take(k as int).to_multiset(),
        decreases variants.len() - k,
    {
        let v = share(&variants[k]);
        let key = variant_sort_key(&*v, requests, mode);
        let ghost ko = key_views(keys@);
        let ghost oo = out@;
        let mut p: usize = 0;
        while p < keys.len() && compare_variant_keys(&keys[p], &key) >= 0
            invariant
                p <= keys@.len(),
                ko == key_views(keys@),
                forall|x: int| 0 <= x < p ==> variant_key_ord()(#[trigger] ko[x], key@) >= 0,
            decreases keys.len() - p,
        {
            assert(ko[p as int] == keys@[p as int]@);
            p = p + 1;
        }
        proof {
            if p < keys@.len() {
                assert(ko[p as int] == keys@[p as int]@);
            }
            lemma_insert_descending(ko, key@, p as int);
        }
        keys.insert(p, key);
        out.insert(p, v);
        proof {
            let nk = key_views(keys@);
            assert(nk =~= ko.insert(p as int, key@));
            assert(out@ =~= oo.insert(p as int, v));
            assert forall|i: int| 0 <= i < out@.len() implies #[trigger] nk[i] == variant_key(rs, mode, out@[i]@) by {
                if i < p {
                    assert(nk[i] == ko[i] && out@[i] == oo[i]);
                } else if i > p {
                    assert(nk[i] == ko[i - 1] && out@[i] == oo[i - 1]);
                }
            }
            assert(variants@[k as int] == v);
            assert(variants@.take(k + 1) =~= variants@.take(k as int).push(v));
            vstd::seq_lib::to_multiset_insert(oo, p as int, v);
            vstd::seq_lib::to_multiset_build(variants@.take(k as int), v);
        }
        k = k + 1;
    }
    assert(variants@.take(k as int) =~= variants@);
    proof {
        let kv = key_views(keys@);
        assert forall|i: int, j: int| 0 <= i < j < out@.len() implies variant_key_ord()(
            variant_key(rs, mode, (#[trigger] out@[i])@),
            variant_key(rs, mode, (#[trigger] out@[j])@),
        ) >= 0 by {
            assert(kv[i] == variant_key(rs, mode, out@[i]@));
            assert(kv[j] == variant_key(rs, mode, out@[j]@));
        }
    }
    out
}

} // verus!
