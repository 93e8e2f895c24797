//! The variants of one package version, and the working subset of a
//! package's variants that a resolve narrows step by step.
use vstd::prelude::*;
use std::rc::Rc;
use crate::version::RerVersion;
use crate::version_order::VersionModel;
use crate::requirement::{Requirement, RequirementList, RequirementModel, strings_view, find_name_from, conflicts_model};
use crate::range_model::{SegModel, range_contains, union_model};
use crate::range::any_model;
use crate::graph::{name_compare, compare_names};
use crate::status::VariantSelectMode;
use crate::variant::{PackageVariant, VariantModel, Reduction, share, sort_variants, keys_descending, holds};
use crate::range::{VersionRange, versions_view, singletons_of};

verus! {

/// A copy of a list of shared variants.
pub fn share_all(v: &[Rc<PackageVariant>]) -> (r: Vec<Rc<PackageVariant>>)
    ensures
        r@ == v@,
{
    let mut r: Vec<Rc<PackageVariant>> = Vec::new();
    let mut i: usize = 0;
    while i < v.len()
        invariant
            i <= v@.len(),
            r@ == v@.take(i as int),
        decreases v@.len() - i,
    {
        r.push(share(&v[i]));
        i = i + 1;
        assert(r@ =~= v@.take(i as int));
    }
    assert(v@.take(i as int) =~= v@);
    r
}

/// The model of the variants of one version.
pub struct EntryModel {
    pub version: VersionModel,
    pub variants: Seq<Rc<PackageVariant>>,
    pub order_rank: usize,
}

/// The variants of one package version, with the version's place in the
/// package's order of preference (0 for the most preferred).
#[derive(Debug)]
pub struct PackageEntry {
    version: RerVersion,
    variants: Vec<Rc<PackageVariant>>,
    order_rank: usize,
}

impl View for PackageEntry {
    type V = EntryModel;

    closed spec fn view(&self) -> EntryModel {
        EntryModel { version: self.version@, variants: self.variants@, order_rank: self.order_rank }
    }
}

impl PackageEntry {
    /// The variants of `version`, at place `order_rank` in the order of
    /// preference.
    pub fn new(version: RerVersion, variants: Vec<Rc<PackageVariant>>, order_rank: usize) -> (r: PackageEntry)
        ensures
            r@ == (EntryModel { version: version@, variants: variants@, order_rank }),
    {
        PackageEntry { version, variants, order_rank }
    }

    /// A copy of the entry (the variants are shared).
    pub fn duplicate(&self) -> (r: PackageEntry)
        ensures
            r@ == self@,
    {
        PackageEntry {
            version: self.version.duplicate(),
            variants: share_all(self.variants.as_slice()),
            order_rank: self.order_rank,
        }
    }

    /// The number of variants.
    pub fn len(&self) -> (r: usize)
        ensures
            r == self@.variants.len(),
    {
        self.variants.len()
    }

    /// Whether there is no variant.
    pub fn is_empty(&self) -> (b: bool)
        ensures
            b == (self@.variants.len() == 0),
    {
        self.variants.len() == 0
    }

    /// The package version.
    pub fn version(&self) -> (r: &RerVersion)
        ensures
            r@ == self@.version,
    {
        &self.version
    }

    /// The variants, in their current order.
    pub fn variants(&self) -> (r: &[Rc<PackageVariant>])
        ensures
            r@ == self@.variants,
    {
        self.variants.as_slice()
    }

    /// The version's place in the order of preference.
    pub fn order_rank(&self) -> (r: usize)
        ensures
            r == self@.order_rank,
    {
        self.order_rank
    }

    /// Orders the variants from the one most worth using for the request
    /// `requests` to the least.
    pub fn sort(&mut self, requests: &RequirementList, mode: VariantSelectMode)
        ensures
            final(self)@.version == old(self)@.version,
            final(self)@.order_rank == old(self)@.order_rank,
            final(self)@.variants.to_multiset() == old(self)@.variants.to_multiset(),
            keys_descending(requests@.requirements, mode, final(self)@.variants),
    {
        let sorted = sort_variants(&self.variants, requests, mode);
        self.variants = sorted;
    }

    /// Orders the variants, then splits off the first `nvariants` of them:
    /// the entry of those and the entry of the rest; nothing when
    /// `nvariants` covers the whole entry (and then the entry is left as
    /// it was).
    pub fn split(&mut self, requests: &RequirementList, mode: VariantSelectMode, nvariants: usize) -> (r: Option<
        (PackageEntry, PackageEntry),
    >)
        ensures
            nvariants >= old(self)@.variants.len() ==> r is None && final(self)@ == old(self)@,
            nvariants < old(self)@.variants.len() ==> {
                &&& final(self)@.version == old(self)@.version
                &&& final(self)@.order_rank == old(self)@.order_rank
                &&& final(self)@.variants.to_multiset() == old(self)@.variants.to_multiset()
                &&& keys_descending(requests@.requirements, mode, final(self)@.variants)
                &&& r matches Some(p) && p.0@ == (EntryModel {
                    version: old(self)@.version,
                    variants: final(self)@.variants.take(nvariants as int),
                    order_rank: old(self)@.order_rank,
                }) && p.1@ == (EntryModel {
                    version: old(self)@.version,
                    variants: final(self)@.variants.skip(nvariants as int),
                    order_rank: old(self)@.order_rank,
                })
            },
    {
        if nvariants >= self.variants.len() {
            return None;
        }
        let ghost before = self.variants@;
        self.sort(requests, mode);
        let n = self.variants.len();
        proof {
            vstd::seq_lib::to_multiset_len(before);
            vstd::seq_lib::to_multiset_len(self.variants@);
        }
        let first = share_all(&self.variants.as_slice()[0..nvariants]);
        let rest = share_all(&self.variants.as_slice()[nvariants..n]);
        assert(self.variants@.subrange(0, nvariants as int) =~= self.variants@.take(nvariants as int));
        assert(self.variants@.subrange(nvariants as int, n as int) =~= self.variants@.skip(nvariants as int));
        Some(
            (
                PackageEntry { version: self.version.duplicate(), variants: first, order_rank: self.order_rank },
                PackageEntry { version: self.version.duplicate(), variants: rest, order_rank: self.order_rank },
            ),
        )
    }
}


// ---------------------------------------------------------------------------
// PackageVariantSlice
// ---------------------------------------------------------------------------

/// The variants of a list of entries, entry after entry.
pub open spec fn flat(es: Seq<EntryModel>) -> Seq<Rc<PackageVariant>>
    decreases es.len(),
{
    if es.len() == 0 {
        Seq::empty()
    } else {
        flat(es.drop_last()) + es.last().variants
    }
}

/// The models of a list of entries.
pub open spec fn entries_view(v: Seq<PackageEntry>) -> Seq<EntryModel> {
    v.map_values(|e: PackageEntry| e@)
}

/// The packages a variant requires (not as conflicts).
pub open spec fn fams_of(v: Rc<PackageVariant>) -> Seq<Seq<char>> {
    v@.requires.names
}

/// Every variant of `vs` (and there is one) requires the package `x`.
pub open spec fn in_all(vs: Seq<Rc<PackageVariant>>, x: Seq<char>) -> bool {
    vs.len() > 0 && forall|j: int| 0 <= j < vs.len() ==> #[trigger] fams_of(vs[j]).contains(x)
}

/// Some variant of `vs` requires the package `x`, as a conflict or not.
pub open spec fn mentioned(vs: Seq<Rc<PackageVariant>>, x: Seq<char>) -> bool {
    exists|j: int|
        0 <= j < vs.len() && (fams_of(#[trigger] vs[j]).contains(x) || vs[j]@.requires.conflict_names.contains(x))
}

/// The model of a slice.
pub struct SliceModel {
    pub package_name: Seq<char>,
    pub entries: Seq<EntryModel>,
    pub extracted_fams: Seq<Seq<char>>,
}

/// Some package that every variant requires has not been extracted yet.
pub open spec fn extractable_model(s: SliceModel) -> bool {
    exists|x: Seq<char>| #[trigger] in_all(flat(s.entries), x) && !s.extracted_fams.contains(x)
}

/// Entries that are not empty, and at least one of them.
pub open spec fn entries_ok(es: Seq<EntryModel>) -> bool {
    es.len() > 0 && forall|i: int| 0 <= i < es.len() ==> (#[trigger] es[i]).variants.len() > 0
}

/// A working subset of the variants of one package, and the packages
/// already extracted from it as common requirements.
#[derive(Debug)]
pub struct PackageVariantSlice {
    package_name: String,
    entries: Vec<PackageEntry>,
    extracted_fams: Vec<String>,
}

impl View for PackageVariantSlice {
    type V = SliceModel;

    closed spec fn view(&self) -> SliceModel {
        SliceModel {
            package_name: self.package_name@,
            entries: entries_view(self.entries@),
            extracted_fams: strings_view(self.extracted_fams@),
        }
    }
}

proof fn lemma_flat_take(es: Seq<EntryModel>, i: int)
    requires
        0 <= i < es.len(),
    ensures
        flat(es.take(i + 1)) == flat(es.take(i)) + es[i].variants,
{
    assert(es.take(i + 1).drop_last() =~= es.take(i));
}

/// A copy of a list of entries.
fn copy_entries(v: &[PackageEntry]) -> (r: Vec<PackageEntry>)
    ensures
        entries_view(r@) == entries_view(v@),
{
    let mut r: Vec<PackageEntry> = Vec::new();
    let mut i: usize = 0;
    while i < v.len()
        invariant
            i <= v@.len(),
            entries_view(r@) == entries_view(v@).take(i as int),
        decreases v@.len() - i,
    {
        let ghost before = entries_view(r@);
        r.push(v[i].duplicate());
        assert(entries_view(r@) =~= before.push(v@[i as int]@));
        i = i + 1;
        assert(entries_view(r@) =~= entries_view(v@).take(i as int));
    }
    assert(entries_view(v@).take(i as int) =~= entries_view(v@));
    r
}

impl PackageVariantSlice {
    #[verifier::type_invariant]
    spec fn inv(self) -> bool {
        entries_ok(entries_view(self.entries@))
    }

    /// Every slice has entries, none of them empty.
    pub fn check_ok(&self)
        ensures
            entries_ok(self@.entries),
    {
        proof {
            use_type_invariant(self);
        }
    }

    /// The slice of `package_name` over `entries`, with nothing extracted.
    pub fn new(package_name: String, entries: Vec<PackageEntry>) -> (r: PackageVariantSlice)
        requires
            entries_ok(entries_view(entries@)),
        ensures
            r@ == (SliceModel { package_name: package_name@, entries: entries_view(entries@), extracted_fams: Seq::empty() }),
    {
        let r = PackageVariantSlice { package_name, entries, extracted_fams: Vec::new() };
        assert(strings_view(r.extracted_fams@) =~= Seq::<Seq<char>>::empty());
        r
    }

    /// A copy of the slice (the variants are shared).
    pub fn duplicate(&self) -> (r: PackageVariantSlice)
        ensures
            r@ == self@,
    {
        proof {
            use_type_invariant(self);
        }
        let extracted_fams = crate::package_data::copy_strings(&self.extracted_fams);
        PackageVariantSlice {
            package_name: self.package_name.clone(),
            entries: copy_entries(self.entries.as_slice()),
            extracted_fams,
        }
    }

    /// The package name.
    pub fn package_name(&self) -> (r: &str)
        ensures
            r@ == self@.package_name,
    {
        self.package_name.as_str()
    }

    /// The entries, one per version.
    pub fn entries(&self) -> (r: &[PackageEntry])
        ensures
            entries_view(r@) == self@.entries,
    {
        self.entries.as_slice()
    }

    /// The packages already extracted.
    pub fn extracted_fams(&self) -> (r: &[String])
        ensures
            strings_view(r@) == self@.extracted_fams,
    {
        self.extracted_fams.as_slice()
    }

    /// Every variant of the slice, entry after entry.
    pub fn variants(&self) -> (r: Vec<Rc<PackageVariant>>)
        ensures
            r@ == flat(self@.entries),
    {
        let ghost es = self@.entries;
        let mut out: Vec<Rc<PackageVariant>> = Vec::new();
        let mut i: usize = 0;
        assert(es.take(0) =~= Seq::<EntryModel>::empty());
        while i < self.entries.len()
            invariant
                i <= es.len(),
                es == entries_view(self.entries@),
                out@ == flat(es.take(i as int)),
            decreases self.entries.len() - i,
        {
            let vs = self.entries[i].variants();
            let ghost before = out@;
            let mut j: usize = 0;
            while j < vs.len()
                invariant
                    j <= vs@.len(),
                    out@ == before + vs@.take(j as int),
                decreases vs.len() - j,
            {
                out.push(share(&vs[j]));
                j = j + 1;
                assert(out@ =~= before + vs@.take(j as int));
            }
            assert(vs@.take(j as int) =~= vs@);
            assert(es[i as int] == self.entries@[i as int]@);
            proof {
                lemma_flat_take(es, i as int);
            }
            i = i + 1;
        }
        assert(es.take(i as int) =~= es);
        out
    }

    /// The number of variants.
    pub fn len(&self) -> (r: usize)
        ensures
            r == flat(self@.entries).len(),
    {
        let vs = self.variants();
        vs.len()
    }

    /// Whether the slice has no variant (never: a slice holds variants).
    pub fn is_empty(&self) -> (b: bool)
        ensures
            b == (self@.entries.len() == 0),
            !b,
    {
        proof {
            use_type_invariant(self);
        }
        self.entries.len() == 0
    }

    /// The versions of the slice, entry after entry.
    pub fn versions(&self) -> (r: Vec<RerVersion>)
        ensures
            versions_view(r@) == self@.entries.map_values(|e: EntryModel| e.version),
    {
        let ghost es = self@.entries;
        let mut out: Vec<RerVersion> = Vec::new();
        let mut i: usize = 0;
        while i < self.entries.len()
            invariant
                i <= es.len(),
                es == entries_view(self.entries@),
                versions_view(out@) == es.take(i as int).map_values(|e: EntryModel| e.version),
            decreases self.entries.len() - i,
        {
            let ghost before = versions_view(out@);
            out.push(self.entries[i].version().duplicate());
            assert(es[i as int] == self.entries@[i as int]@);
            assert(versions_view(out@) =~= before.push(es[i as int].version));
            i = i + 1;
            assert(versions_view(out@) =~= es.take(i as int).map_values(|e: EntryModel| e.version));
        }
        assert(es.take(i as int) =~= es);
        out
    }

    /// The range of the slice: its versions, each as a single-version
    /// segment.
    pub fn range(&self) -> (r: VersionRange)
        ensures
            singletons_of(r@, self@.entries.map_values(|e: EntryModel| e.version)),
    {
        VersionRange::from_versions(self.versions())
    }

    /// The packages every variant requires (not as conflicts).
    pub fn common_fams(&self) -> (r: Vec<String>)
        ensures
            forall|x: Seq<char>| strings_view(r@).contains(x) <==> in_all(flat(self@.entries), x),
    {
        proof {
            use_type_invariant(self);
        }
        let vs = self.variants();
        let ghost fv = flat(self@.entries);
        self.check_nonempty();
        let first = vs[0].request_fams();
        let mut out: Vec<String> = Vec::new();
        let mut i: usize = 0;
        while i < first.len()
            invariant
                i <= first@.len(),
                vs@ == fv,
                fv.len() > 0,
                strings_view(first@) == fams_of(fv[0]),
                forall|x: Seq<char>| strings_view(out@).contains(x) ==> in_all(fv, x),
                forall|k: int| 0 <= k < i && in_all(fv, strings_view(first@)[k]) ==> strings_view(out@).contains(
                    #[trigger] strings_view(first@)[k],
                ),
            decreases first.len() - i,
        {
            let name = first[i].as_str();
            let mut all = true;
            let mut j: usize = 0;
            while j < vs.len()
                invariant
                    j <= vs@.len(),
                    all <==> forall|t: int| 0 <= t < j ==> #[trigger] fams_of(vs@[t]).contains(name@),
                decreases vs.len() - j,
            {
                let has = holds(vs[j].request_fams(), name);
                assert(has == fams_of(vs@[j as int]).contains(name@));
                all = all && has;
                j = j + 1;
                assert(all ==> forall|t: int| 0 <= t < j ==> #[trigger] fams_of(vs@[t]).contains(name@));
            }
            let ghost before = strings_view(out@);
            if all {
                out.push(first[i].clone());
                proof {
                    assert(strings_view(out@) =~= before.push(name@));
                    assert forall|x: Seq<char>| strings_view(out@).contains(x) implies in_all(fv, x) by {
                        if x != name@ {
                            let t = choose|t: int| 0 <= t < strings_view(out@).len() && strings_view(out@)[t] == x;
                            assert(before[t] == x);
                        }
                    }
                    assert(strings_view(out@)[before.len() as int] == name@);
                }
            }
            proof {
                assert forall|k: int| 0 <= k < i + 1 && in_all(fv, strings_view(first@)[k]) implies strings_view(
                    out@,
                ).contains(#[trigger] strings_view(first@)[k]) by {
                    if k < i {
                        let t = choose|t: int| 0 <= t < before.len() && before[t] == strings_view(first@)[k];
                        assert(strings_view(out@)[t] == before[t]);
                    } else {
                        assert(strings_view(first@)[k] == name@);
                        assert forall|t: int| 0 <= t < vs@.len() implies #[trigger] fams_of(vs@[t]).contains(name@) by {
                            assert(in_all(fv, name@));
                        }
                        assert(strings_view(out@)[before.len() as int] == name@);
                    }
                }
            }
            i = i + 1;
        }
        proof {
            assert forall|x: Seq<char>| in_all(fv, x) implies strings_view(out@).contains(x) by {
                assert(fams_of(fv[0]).contains(x));
                let k = choose|k: int| 0 <= k < strings_view(first@).len() && strings_view(first@)[k] == x;
            }
        }
        out
    }

    /// Every slice has a variant.
    pub fn check_nonempty(&self)
        ensures
            flat(self@.entries).len() > 0,
    {
        proof {
            use_type_invariant(self);
            let es = self@.entries;
            lemma_flat_len_ge(es, es.len() - 1);
        }
    }

    /// Every package some variant requires, as a conflict or not.
    pub fn fam_requires(&self) -> (r: Vec<String>)
        ensures
            forall|x: Seq<char>| strings_view(r@).contains(x) <==> mentioned(flat(self@.entries), x),
    {
        let vs = self.variants();
        let ghost fv = flat(self@.entries);
        let mut out: Vec<String> = Vec::new();
        let mut j: usize = 0;
        assert(fv.take(0) =~= Seq::<Rc<PackageVariant>>::empty());
        while j < vs.len()
            invariant
                j <= vs@.len(),
                vs@ == fv,
                strings_view(out@) == all_mentions(fv.take(j as int)),
            decreases vs.len() - j,
        {
            push_all(&mut out, vs[j].request_fams());
            push_all(&mut out, vs[j].conflict_request_fams());
            assert(fv.take(j + 1).drop_last() =~= fv.take(j as int));
            j = j + 1;
        }
        assert(fv.take(j as int) =~= fv);
        proof {
            assert forall|x: Seq<char>| strings_view(out@).contains(x) <==> mentioned(fv, x) by {
                lemma_all_mentions(fv, x);
            }
        }
        out
    }

    /// Whether some package that every variant requires remains to be
    /// extracted.
    pub fn extractable(&self) -> (b: bool)
        ensures
            b == extractable_model(self@),
    {
        let common = self.common_fams();
        let mut i: usize = 0;
        while i < common.len()
            invariant
                i <= common@.len(),
                forall|x: Seq<char>| strings_view(common@).contains(x) <==> in_all(flat(self@.entries), x),
                forall|k: int| 0 <= k < i ==> self@.extracted_fams.contains(#[trigger] strings_view(common@)[k]),
            decreases common.len() - i,
        {
            if !holds(self.extracted_fams.as_slice(), common[i].as_str()) {
                assert(strings_view(common@).contains(strings_view(common@)[i as int]));
                assert(in_all(flat(self@.entries), strings_view(common@)[i as int]));
                return true;
            }
            i = i + 1;
        }
        proof {
            if extractable_model(self@) {
                let x = choose|x: Seq<char>| #[trigger] in_all(flat(self@.entries), x) && !self@.extracted_fams.contains(x);
                assert(strings_view(common@).contains(x));
                let k = choose|k: int| 0 <= k < strings_view(common@).len() && strings_view(common@)[k] == x;
            }
        }
        false
    }
}

/// Entries up to `i` hold at least as many variants as the entry `i`.
proof fn lemma_flat_len_ge(es: Seq<EntryModel>, i: int)
    requires
        0 <= i < es.len(),
    ensures
        flat(es).len() >= es[i].variants.len(),
    decreases es.len(),
{
    if i < es.len() - 1 {
        lemma_flat_len_ge(es.drop_last(), i);
    }
}

/// The packages each variant requires, names then conflict names,
/// variant after variant.
pub open spec fn all_mentions(vs: Seq<Rc<PackageVariant>>) -> Seq<Seq<char>>
    decreases vs.len(),
{
    if vs.len() == 0 {
        Seq::empty()
    } else {
        all_mentions(vs.drop_last()) + vs.last()@.requires.names + vs.last()@.requires.conflict_names
    }
}

proof fn lemma_concat_contains(a: Seq<Seq<char>>, b: Seq<Seq<char>>, x: Seq<char>)
    ensures
        (a + b).contains(x) <==> a.contains(x) || b.contains(x),
{
    if (a + b).contains(x) {
        let t = choose|t: int| 0 <= t < (a + b).len() && (a + b)[t] == x;
        if t < a.len() {
            assert(a[t] == x);
        } else {
            assert(b[t - a.len()] == x);
        }
    }
    if a.contains(x) {
        let t = choose|t: int| 0 <= t < a.len() && a[t] == x;
        assert((a + b)[t] == x);
    }
    if b.contains(x) {
        let t = choose|t: int| 0 <= t < b.len() && b[t] == x;
        assert((a + b)[a.len() + t] == x);
    }
}

proof fn lemma_all_mentions(vs: Seq<Rc<PackageVariant>>, x: Seq<char>)
    ensures
        all_mentions(vs).contains(x) <==> mentioned(vs, x),
    decreases vs.len(),
{
    if vs.len() > 0 {
        let p = vs.drop_last();
        lemma_all_mentions(p, x);
        let l = vs.last();
        lemma_concat_contains(all_mentions(p) + l@.requires.names, l@.requires.conflict_names, x);
        lemma_concat_contains(all_mentions(p), l@.requires.names, x);
        if mentioned(vs, x) {
            let t = choose|t: int| 0 <= t < vs.len() && (fams_of(#[trigger] vs[t]).contains(x) || vs[t]@.requires.conflict_names.contains(x));
            if t < vs.len() - 1 {
                assert(p[t] == vs[t]);
            }
        }
        if mentioned(p, x) {
            let t = choose|t: int| 0 <= t < p.len() && (fams_of(#[trigger] p[t]).contains(x) || p[t]@.requires.conflict_names.contains(x));
            assert(vs[t] == p[t]);
        }
        if l@.requires.names.contains(x) || l@.requires.conflict_names.contains(x) {
            assert(vs[vs.len() - 1] == l);
        }
    }
}

/// Appends a copy of every string of `src` to `out`.
fn push_all(out: &mut Vec<String>, src: &[String])
    ensures
        strings_view(final(out)@) == strings_view(old(out)@) + strings_view(src@),
{
    let ghost start = strings_view(out@);
    let mut k: usize = 0;
    while k < src.len()
        invariant
            k <= src@.len(),
            strings_view(out@) == start + strings_view(src@).take(k as int),
        decreases src.len() - k,
    {
        let ghost b0 = strings_view(out@);
        out.push(src[k].clone());
        assert(strings_view(out@) =~= b0.push(src@[k as int]@));
        k = k + 1;
        assert(strings_view(out@) =~= start + strings_view(src@).take(k as int));
    }
    assert(strings_view(src@).take(k as int) =~= strings_view(src@));
}

/// The entries whose version lies in the range `r`, in order.
pub open spec fn entries_in(es: Seq<EntryModel>, r: Seq<SegModel>) -> Seq<EntryModel>
    decreases es.len(),
{
    if es.len() == 0 {
        Seq::empty()
    } else {
        let prev = entries_in(es.drop_last(), r);
        if range_contains(r, es.last().version) {
            prev.push(es.last())
        } else {
            prev
        }
    }
}

/// The variant's requirement on the package of `req` conflicts with
/// `req`.
pub open spec fn variant_conflicts(v: Rc<PackageVariant>, req: RequirementModel) -> bool {
    match find_name_from(v@.requires.by_name, req.name, 0) {
        Some(k) => conflicts_model(v@.requires.by_name[k], req),
        None => false,
    }
}

/// The variants that do not conflict with `req`, in order.
pub open spec fn kept_variants(vs: Seq<Rc<PackageVariant>>, req: RequirementModel) -> Seq<Rc<PackageVariant>>
    decreases vs.len(),
{
    if vs.len() == 0 {
        Seq::empty()
    } else {
        let prev = kept_variants(vs.drop_last(), req);
        if variant_conflicts(vs.last(), req) {
            prev
        } else {
            prev.push(vs.last())
        }
    }
}

/// The variants that conflict with `req`, in order.
pub open spec fn dropped_variants(vs: Seq<Rc<PackageVariant>>, req: RequirementModel) -> Seq<Rc<PackageVariant>>
    decreases vs.len(),
{
    if vs.len() == 0 {
        Seq::empty()
    } else {
        let prev = dropped_variants(vs.drop_last(), req);
        if variant_conflicts(vs.last(), req) {
            prev.push(vs.last())
        } else {
            prev
        }
    }
}

/// The entries left when the variants that conflict with `req` are
/// removed; an entry left with no variant is removed too.
pub open spec fn reduced_entries(es: Seq<EntryModel>, req: RequirementModel) -> Seq<EntryModel>
    decreases es.len(),
{
    if es.len() == 0 {
        Seq::empty()
    } else {
        let prev = reduced_entries(es.drop_last(), req);
        let e = es.last();
        let kv = kept_variants(e.variants, req);
        if kv.len() > 0 {
            prev.push(EntryModel { version: e.version, variants: kv, order_rank: e.order_rank })
        } else {
            prev
        }
    }
}

/// `rs` records the removal of the variants `ds` for conflicting with
/// `req`, one each, in order.
pub open spec fn records_reductions(rs: Seq<Reduction>, ds: Seq<Rc<PackageVariant>>, req: RequirementModel) -> bool {
    &&& rs.len() == ds.len()
    &&& forall|i: int|
        0 <= i < rs.len() ==> {
            let v = (#[trigger] ds[i])@;
            &&& rs[i].name@ == v.name
            &&& rs[i].version@ == v.version
            &&& rs[i].variant_index == v.index
            &&& rs[i].conflicting_request@ == req
            &&& find_name_from(v.requires.by_name, req.name, 0) matches Some(k) && rs[i].dependency@
                == v.requires.by_name[k]
        }
}

/// The union of the ranges that the variants require of the package
/// `fam`, `None` when none does.
pub open spec fn extract_range(vs: Seq<Rc<PackageVariant>>, fam: Seq<char>) -> Option<Seq<SegModel>>
    decreases vs.len(),
{
    if vs.len() == 0 {
        None
    } else {
        let acc = extract_range(vs.drop_last(), fam);
        let v = vs.last();
        match find_name_from(v@.requires.by_name, fam, 0) {
            Some(k) => match v@.requires.by_name[k].range {
                Some(r) => Some(
                    match acc {
                        None => r,
                        Some(a) => union_model(a, r),
                    },
                ),
                None => acc,
            },
            None => acc,
        }
    }
}

/// The outcome of narrowing a slice to a range.
pub enum SliceIntersect {
    /// Nothing was removed.
    Unchanged,
    /// Some versions were removed; the rest remain.
    Narrowed(PackageVariantSlice),
    /// Every version was removed.
    Empty,
}

/// The outcome of reducing a slice by a requirement.
pub enum SliceReduce {
    /// Nothing was removed.
    Unchanged,
    /// Some variants were removed; the rest remain.
    Reduced(PackageVariantSlice),
    /// Every variant was removed.
    Empty,
}

/// The entries are in increasing order of preference rank.
pub open spec fn ranks_ascending(es: Seq<EntryModel>) -> bool {
    forall|i: int, j: int| 0 <= i < j < es.len() ==> (#[trigger] es[i]).order_rank <= (#[trigger] es[j]).order_rank
}

impl PackageVariantSlice {
    /// The first variant of the first entry, once that entry's variants
    /// are ordered from the one most worth using to the least.
    pub fn first_variant(&mut self, requests: &RequirementList, mode: VariantSelectMode) -> (r: Rc<PackageVariant>)
        ensures
            final(self)@.package_name == old(self)@.package_name,
            final(self)@.extracted_fams == old(self)@.extracted_fams,
            final(self)@.entries.len() == old(self)@.entries.len(),
            forall|i: int| 1 <= i < old(self)@.entries.len() ==> #[trigger] final(self)@.entries[i] == old(self)@.entries[i],
            final(self)@.entries[0].version == old(self)@.entries[0].version,
            final(self)@.entries[0].order_rank == old(self)@.entries[0].order_rank,
            final(self)@.entries[0].variants.to_multiset() == old(self)@.entries[0].variants.to_multiset(),
            keys_descending(requests@.requirements, mode, final(self)@.entries[0].variants),
            r == final(self)@.entries[0].variants[0],
    {
        proof {
            use_type_invariant(&*self);
        }
        let mut entries = copy_entries(self.entries.as_slice());
        assert(entries_view(entries@)[0] == entries@[0]@);
        let mut e = entries[0].duplicate();
        let ghost e0 = e@;
        assert(e0.variants.len() > 0);
        e.sort(requests, mode);
        proof {
            vstd::seq_lib::to_multiset_len(e0.variants);
            vstd::seq_lib::to_multiset_len(e@.variants);
        }
        let r = share(&e.variants()[0]);
        let ghost ev = entries_view(entries@);
        entries.set(0, e);
        proof {
            assert(entries_view(entries@) =~= ev.update(0, e@));
            assert forall|i: int| 0 <= i < entries_view(entries@).len() implies (#[trigger] entries_view(entries@)[i]).variants.len() > 0 by {
                if i != 0 {
                    assert(entries_view(entries@)[i] == ev[i]);
                }
            }
        }
        let extracted_fams = crate::package_data::copy_strings(&self.extracted_fams);
        *self = PackageVariantSlice { package_name: self.package_name.clone(), entries, extracted_fams };
        r
    }

    /// Orders the entries by their preference rank, most preferred first
    /// (entries of equal rank keep their order).
    pub fn sort_versions(&mut self)
        ensures
            final(self)@.package_name == old(self)@.package_name,
            final(self)@.extracted_fams == old(self)@.extracted_fams,
            final(self)@.entries.to_multiset() == old(self)@.entries.to_multiset(),
            ranks_ascending(final(self)@.entries),
    {
        proof {
            use_type_invariant(&*self);
        }
        let ghost all = self@.entries;
        let mut out: Vec<PackageEntry> = Vec::new();
        let mut k: usize = 0;
        assert(all.take(0) =~= Seq::<EntryModel>::empty());
        assert(entries_view(out@) =~= Seq::<EntryModel>::empty());
        while k < self.entries.len()
            invariant
                k <= all.len(),
                all == entries_view(self.entries@),
                entries_ok(all),
                ranks_ascending(entries_view(out@)),
                forall|i: int| 0 <= i < out@.len() ==> (#[trigger] entries_view(out@)[i]).variants.len() > 0,
                entries_view(out@).to_multiset() == all.take(k as int).to_multiset(),
            decreases self.entries.len() - k,
        {
            let e = self.entries[k].duplicate();
            let rank = e.order_rank();
            let ghost ov = entries_view(out@);
            let mut p: usize = 0;
            while p < out.len() && out[p].order_rank() <= rank
                invariant
                    p <= out@.len(),
                    ov == entries_view(out@),
                    forall|x: int| 0 <= x < p ==> (#[trigger] ov[x]).order_rank <= rank,
                decreases out.len() - p,
            {
                assert(ov[p as int] == out@[p as int]@);
                p = p + 1;
            }
            proof {
                if p < out@.len() {
                    assert(ov[p as int] == out@[p as int]@);
                }
            }
            let ghost ev = e@;
            out.insert(p, e);
            proof {
                let nv = entries_view(out@);
                assert(nv =~= ov.insert(p as int, ev));
                assert(ev == all[k as int]);
                assert forall|x: int, y: int| 0 <= x < y < nv.len() implies (#[trigger] nv[x]).order_rank <= (#[trigger] nv[y]).order_rank by {
                    if y < p {
                        assert(nv[x] == ov[x] && nv[y] == ov[y]);
                    } else if y == p {
                        assert(nv[x] == ov[x]);
                    } else if x < p {
                        assert(nv[x] == ov[x] && nv[y] == ov[y - 1]);
                    } else if x == p {
                        assert(nv[y] == ov[y - 1]);
                    } else {
                        assert(nv[x] == ov[x - 1] && nv[y] == ov[y - 1]);
                    }
                }
                assert forall|i: int| 0 <= i < nv.len() implies (#[trigger] nv[i]).variants.len() > 0 by {
                    if i < p {
                        assert(nv[i] == ov[i]);
                    } else if i > p {
                        assert(nv[i] == ov[i - 1]);
                    }
                }
                assert(all.take(k + 1) =~= all.take(k as int).push(ev));
                vstd::seq_lib::to_multiset_insert(ov, p as int, ev);
                vstd::seq_lib::to_multiset_build(all.take(k as int), ev);
            }
            k = k + 1;
        }
        assert(all.take(k as int) =~= all);
        proof {
            vstd::seq_lib::to_multiset_len(all);
            vstd::seq_lib::to_multiset_len(entries_view(out@));
        }
        let extracted_fams = crate::package_data::copy_strings(&self.extracted_fams);
        *self = PackageVariantSlice { package_name: self.package_name.clone(), entries: out, extracted_fams };
    }

    /// Removes the versions outside `range`.
    pub fn intersect(&self, range: &VersionRange) -> (r: SliceIntersect)
        ensures
            range@ == any_model() ==> r is Unchanged,
            range@ != any_model() ==> {
                let kept = entries_in(self@.entries, range@);
                &&& kept.len() == 0 ==> r is Empty
                &&& 0 < kept.len() < self@.entries.len() ==> (r matches SliceIntersect::Narrowed(s) && s@ == (
                SliceModel { package_name: self@.package_name, entries: kept, extracted_fams: Seq::empty() }))
                &&& kept.len() >= self@.entries.len() ==> r is Unchanged
            },
    {
        proof {
            use_type_invariant(self);
        }
        if range.is_any() {
            return SliceIntersect::Unchanged;
        }
        let ghost es = self@.entries;
        let mut kept: Vec<PackageEntry> = Vec::new();
        let mut i: usize = 0;
        assert(es.take(0) =~= Seq::<EntryModel>::empty());
        while i < self.entries.len()
            invariant
                i <= es.len(),
                es == entries_view(self.entries@),
                entries_ok(es),
                entries_view(kept@) == entries_in(es.take(i as int), range@),
                forall|k: int| 0 <= k < kept@.len() ==> (#[trigger] entries_view(kept@)[k]).variants.len() > 0,
                entries_view(kept@).len() <= i,
            decreases self.entries.len() - i,
        {
            assert(es.take(i + 1).drop_last() =~= es.take(i as int));
            assert(es[i as int] == self.entries@[i as int]@);
            if range.contains(self.entries[i].version()) {
                let ghost before = entries_view(kept@);
                kept.push(self.entries[i].duplicate());
                assert(entries_view(kept@) =~= before.push(es[i as int]));
            }
            i = i + 1;
        }
        assert(es.take(i as int) =~= es);
        if kept.len() == 0 {
            SliceIntersect::Empty
        } else if kept.len() < self.entries.len() {
            SliceIntersect::Narrowed(PackageVariantSlice::new(self.package_name.clone(), kept))
        } else {
            SliceIntersect::Unchanged
        }
    }

    /// Removes the variants whose requirements conflict with `request`,
    /// and records each removal. Nothing is removed when `request` has no
    /// range, or no variant mentions its package.
    pub fn reduce_by(&self, request: &Requirement) -> (r: (SliceReduce, Vec<Reduction>))
        ensures
            ({
                let fv = flat(self@.entries);
                let req = request@;
                if req.range is None || !mentioned(fv, req.name) {
                    r.0 is Unchanged && r.1@.len() == 0
                } else {
                    let ne = reduced_entries(self@.entries, req);
                    let ds = dropped_variants(fv, req);
                    &&& ne.len() == 0 ==> r.0 is Empty && records_reductions(r.1@, ds, req)
                    &&& ne.len() > 0 && ds.len() > 0 ==> (r.0 matches SliceReduce::Reduced(s) && s@ == (
                    SliceModel { package_name: self@.package_name, entries: ne, extracted_fams: Seq::empty() })
                        && records_reductions(r.1@, ds, req))
                    &&& ne.len() > 0 && ds.len() == 0 ==> r.0 is Unchanged && r.1@.len() == 0
                }
            }),
    {
        proof {
            use_type_invariant(self);
        }
        let ghost fv = flat(self@.entries);
        let ghost req = request@;
        if request.range().is_none() {
            return (SliceReduce::Unchanged, Vec::new());
        }
        let fams = self.fam_requires();
        if !holds(fams.as_slice(), request.name()) {
            return (SliceReduce::Unchanged, Vec::new());
        }
        let ghost es = self@.entries;
        let mut new_entries: Vec<PackageEntry> = Vec::new();
        let mut reductions: Vec<Reduction> = Vec::new();
        let mut i: usize = 0;
        assert(es.take(0) =~= Seq::<EntryModel>::empty());
        while i < self.entries.len()
            invariant
                i <= es.len(),
                es == entries_view(self.entries@),
                req == request@,
                entries_view(new_entries@) == reduced_entries(es.take(i as int), req),
                forall|k: int| 0 <= k < new_entries@.len() ==> (#[trigger] entries_view(new_entries@)[k]).variants.len() > 0,
                records_reductions(reductions@, dropped_variants(flat(es.take(i as int)), req), req),
            decreases self.entries.len() - i,
        {
            let entry = &self.entries[i];
            let vs = entry.variants();
            let mut kept: Vec<Rc<PackageVariant>> = Vec::new();
            let ghost r0 = reductions@;
            let ghost base = flat(es.take(i as int));
            let mut j: usize = 0;
            assert(vs@.take(0) =~= Seq::<Rc<PackageVariant>>::empty());
            assert(base + vs@.take(0) =~= base);
            while j < vs.len()
                invariant
                    j <= vs@.len(),
                    req == request@,
                    kept@ == kept_variants(vs@.take(j as int), req),
                    records_reductions(reductions@, dropped_variants(base + vs@.take(j as int), req), req),
                decreases vs.len() - j,
            {
                let v = &vs[j];
                assert(vs@.take(j + 1).drop_last() =~= vs@.take(j as int));
                assert((base + vs@.take(j + 1)).drop_last() =~= base + vs@.take(j as int));
                assert((base + vs@.take(j + 1)).last() == vs@[j as int]);
                let ghost rb = reductions@;
                let ghost db = dropped_variants(base + vs@.take(j as int), req);
                match v.get(request.name()) {
                    Some(dep) => {
                        if dep.conflicts_with(request) {
                            reductions.push(
                                Reduction {
                                    name: v.name().to_owned(),
                                    version: v.version().duplicate(),
                                    variant_index: v.index(),
                                    dependency: dep.duplicate(),
                                    conflicting_request: request.duplicate(),
                                },
                            );
                            proof {
                                let nd = dropped_variants(base + vs@.take(j + 1), req);
                                assert(nd == db.push(vs@[j as int]));
                                assert forall|t: int| 0 <= t < reductions@.len() implies {
                                    let w = (#[trigger] nd[t])@;
                                    &&& reductions@[t].name@ == w.name
                                    &&& reductions@[t].version@ == w.version
                                    &&& reductions@[t].variant_index == w.index
                                    &&& reductions@[t].conflicting_request@ == req
                                    &&& find_name_from(w.requires.by_name, req.name, 0) matches Some(k)
                                        && reductions@[t].dependency@ == w.requires.by_name[k]
                                } by {
                                    if t < rb.len() {
                                        assert(reductions@[t] == rb[t]);
                                        assert(nd[t] == db[t]);
                                    }
                                }
                            }
                        } else {
                            kept.push(share(v));
                        }
                    },
                    None => {
                        kept.push(share(v));
                    },
                }
                j = j + 1;
            }
            assert(vs@.take(j as int) =~= vs@);
            assert(es[i as int] == entry@);
            proof {
                lemma_flat_take(es, i as int);
            }
            if kept.len() > 0 {
                let ghost before = entries_view(new_entries@);
                new_entries.push(PackageEntry::new(entry.version().duplicate(), kept, entry.order_rank()));
                assert(entries_view(new_entries@) =~= before.push(
                    EntryModel { version: es[i as int].version, variants: kept_variants(es[i as int].variants, req), order_rank: es[i as int].order_rank },
                ));
            }
            assert(es.take(i + 1).drop_last() =~= es.take(i as int));
            i = i + 1;
        }
        assert(es.take(i as int) =~= es);
        proof {
            assert(strings_view(fams@).contains(req.name));
        }
        if new_entries.len() == 0 {
            (SliceReduce::Empty, reductions)
        } else if reductions.len() > 0 {
            (SliceReduce::Reduced(PackageVariantSlice::new(self.package_name.clone(), new_entries)), reductions)
        } else {
            (SliceReduce::Unchanged, Vec::new())
        }
    }

    /// Extracts a package that every variant requires and that was not
    /// extracted yet (the first such name in name order): the slice with
    /// that package marked extracted, and a requirement on it over the
    /// union of the ranges the variants ask. Nothing when there is none.
    pub fn extract(&self) -> (r: Option<(PackageVariantSlice, Requirement)>)
        ensures
            r is None <==> !extractable_model(self@),
            r matches Some(p) ==> {
                let fam = p.1@.name;
                let fv = flat(self@.entries);
                &&& in_all(fv, fam)
                &&& !self@.extracted_fams.contains(fam)
                &&& forall|y: Seq<char>| #[trigger] in_all(fv, y) && !self@.extracted_fams.contains(y) ==> name_compare(fam, y) <= 0
                &&& p.0@ == (SliceModel { extracted_fams: self@.extracted_fams.push(fam), ..self@ })
                &&& p.1@.range == Some(
                    match extract_range(fv, fam) {
                        Some(u) => u,
                        None => any_model(),
                    },
                )
                &&& !p.1@.conflict
                &&& !p.1@.negate
            },
    {
        proof {
            use_type_invariant(self);
        }
        let ghost fv = flat(self@.entries);
        let ghost ex = self@.extracted_fams;
        let common = self.common_fams();
        // the first candidate in name order
        let mut best: Option<usize> = None;
        let mut i: usize = 0;
        while i < common.len()
            invariant
                i <= common@.len(),
                forall|x: Seq<char>| strings_view(common@).contains(x) <==> in_all(fv, x),
                ex == self@.extracted_fams,
                best matches Some(b) ==> b < i && !ex.contains(strings_view(common@)[b as int]),
                best matches Some(b) ==> forall|k: int| 0 <= k < i && !ex.contains(#[trigger] strings_view(common@)[k])
                    ==> name_compare(strings_view(common@)[b as int], strings_view(common@)[k]) <= 0,
                best is None ==> forall|k: int| 0 <= k < i ==> ex.contains(#[trigger] strings_view(common@)[k]),
            decreases common.len() - i,
        {
            if !holds(self.extracted_fams.as_slice(), common[i].as_str()) {
                let ghost ci = strings_view(common@)[i as int];
                proof {
                    crate::graph::lemma_name_order(ci, ci, ci);
                }
                match best {
                    None => {
                        best = Some(i);
                    },
                    Some(b) => {
                        let c = compare_names(common[i].as_str(), common[b].as_str());
                        let ghost cb = strings_view(common@)[b as int];
                        proof {
                            crate::graph::lemma_name_order(ci, cb, cb);
                            if c < 0 {
                                assert forall|k: int| 0 <= k < i && !ex.contains(#[trigger] strings_view(common@)[k]) implies
                                    name_compare(ci, strings_view(common@)[k]) <= 0 by {
                                    crate::graph::lemma_name_order(ci, cb, strings_view(common@)[k]);
                                }
                            }
                        }
                        if c < 0 {
                            best = Some(i);
                        }
                    },
                }
            }
            i = i + 1;
        }
        match best {
            None => {
                proof {
                    if extractable_model(self@) {
                        let x = choose|x: Seq<char>| #[trigger] in_all(fv, x) && !ex.contains(x);
                        assert(strings_view(common@).contains(x));
                        let k = choose|k: int| 0 <= k < strings_view(common@).len() && strings_view(common@)[k] == x;
                    }
                }
                None
            },
            Some(b) => {
                let fam = common[b].clone();
                proof {
                    assert(strings_view(common@).contains(fam@));
                    assert forall|y: Seq<char>| #[trigger] in_all(fv, y) && !ex.contains(y) implies name_compare(fam@, y) <= 0 by {
                        assert(strings_view(common@).contains(y));
                        let k = choose|k: int| 0 <= k < strings_view(common@).len() && strings_view(common@)[k] == y;
                    }
                }
                let vs = self.variants();
                let mut range: Option<VersionRange> = None;
                let mut j: usize = 0;
                assert(fv.take(0) =~= Seq::<Rc<PackageVariant>>::empty());
                while j < vs.len()
                    invariant
                        j <= vs@.len(),
                        vs@ == fv,
                        match range {
                            Some(x) => extract_range(fv.take(j as int), fam@) == Some(x@),
                            None => extract_range(fv.take(j as int), fam@) is None,
                        },
                    decreases vs.len() - j,
                {
                    assert(fv.take(j + 1).drop_last() =~= fv.take(j as int));
                    assert(fv.take(j + 1).last() == vs@[j as int]);
                    match vs[j].get(fam.as_str()) {
                        Some(req) => match req.range() {
                            Some(rr) => {
                                range = Some(
                                    match range {
                                        None => rr.duplicate(),
                                        Some(acc) => acc.union(rr),
                                    },
                                );
                            },
                            None => {},
                        },
                        None => {},
                    }
                    j = j + 1;
                }
                assert(fv.take(j as int) =~= fv);
                let mut extracted = crate::package_data::copy_strings(&self.extracted_fams);
                extracted.push(fam.clone());
                let slice = PackageVariantSlice {
                    package_name: self.package_name.clone(),
                    entries: copy_entries(self.entries.as_slice()),
                    extracted_fams: extracted,
                };
                assert(strings_view(slice.extracted_fams@) =~= ex.push(fam@));
                let req = Requirement::construct(fam, range);
                Some((slice, req))
            },
        }
    }
}

/// The variants of the entries are those before entry `i`, then those
/// from `i` on.
proof fn lemma_flat_split(es: Seq<EntryModel>, i: int)
    requires
        0 <= i <= es.len(),
    ensures
        flat(es) == flat(es.take(i)) + flat(es.skip(i)),
    decreases es.len(),
{
    if i == es.len() {
        assert(es.take(i) =~= es);
        assert(es.skip(i) =~= Seq::<EntryModel>::empty());
        assert(flat(es) + Seq::<Rc<PackageVariant>>::empty() =~= flat(es));
    } else {
        let dl = es.drop_last();
        lemma_flat_split(dl, i);
        assert(dl.take(i) =~= es.take(i));
        assert(es.skip(i).drop_last() =~= dl.skip(i));
        assert(es.skip(i).last() == es.last());
        assert(flat(es) =~= flat(es.take(i)) + flat(es.skip(i)));
    }
}

/// The first variant requires the package `x`, which was not extracted.
pub open spec fn first_fam(vs: Seq<Rc<PackageVariant>>, ex: Seq<Seq<char>>, x: Seq<char>) -> bool {
    vs.len() > 0 && fams_of(vs[0]).contains(x) && !ex.contains(x)
}

/// Some package that the first variant requires and that was not
/// extracted is required by every variant up to the one at `q`.
pub open spec fn shared_upto(vs: Seq<Rc<PackageVariant>>, ex: Seq<Seq<char>>, q: int) -> bool {
    exists|x: Seq<char>|
        #[trigger] first_fam(vs, ex, x) && forall|t: int| 0 <= t <= q ==> #[trigger] fams_of(vs[t]).contains(x)
}

/// Where a slice of the variants `vs` is split: after the first variant
/// when there are at most two variants or the first variant requires no
/// package that was not extracted; otherwise before the first variant
/// that shares none of those packages with all the variants before it.
pub open spec fn is_split_point(vs: Seq<Rc<PackageVariant>>, ex: Seq<Seq<char>>, q: int) -> bool {
    if vs.len() <= 2 || !(exists|x: Seq<char>| #[trigger] first_fam(vs, ex, x)) {
        q == 1
    } else {
        &&& 1 <= q < vs.len()
        &&& !shared_upto(vs, ex, q)
        &&& forall|t: int| 0 <= t < q ==> #[trigger] shared_upto(vs, ex, t)
    }
}

/// Every variant before `r` requires the package `x`.
pub open spec fn all_upto(vs: Seq<Rc<PackageVariant>>, x: Seq<char>, r: int) -> bool {
    forall|t: int| 0 <= t < r ==> #[trigger] fams_of(vs[t]).contains(x)
}

/// How many variants from the first on require the package `name`.
fn reach(vs: &Vec<Rc<PackageVariant>>, name: &str) -> (r: usize)
    ensures
        r <= vs@.len(),
        all_upto(vs@, name@, r as int),
        r < vs@.len() ==> !fams_of(vs@[r as int]).contains(name@),
{
    let mut t: usize = 0;
    while t < vs.len()
        invariant
            t <= vs@.len(),
            all_upto(vs@, name@, t as int),
        decreases vs.len() - t,
    {
        if !holds(vs[t].request_fams(), name) {
            return t;
        }
        t = t + 1;
    }
    t
}

/// Where to split the variants `vs` (see `is_split_point`).
fn find_split(vs: &Vec<Rc<PackageVariant>>, ex: &[String]) -> (q: usize)
    requires
        vs@.len() >= 2,
        !(exists|x: Seq<char>| #[trigger] in_all(vs@, x) && !strings_view(ex@).contains(x)),
    ensures
        is_split_point(vs@, strings_view(ex@), q as int),
        1 <= q < vs@.len(),
{
    let ghost e = strings_view(ex@);
    let ghost v = vs@;
    let n = vs.len();
    let first = vs[0].request_fams();
    let ghost fs = strings_view(first@);
    assert(fs == fams_of(v[0]));
    let mut best: usize = 0;
    let mut found = false;
    if n > 2 {
        let mut i: usize = 0;
        while i < first.len()
            invariant
                i <= first@.len(),
                v == vs@,
                n == v.len(),
                e == strings_view(ex@),
                fs == strings_view(first@),
                fs == fams_of(v[0]),
                best <= n,
                found <==> exists|k: int| 0 <= k < i && !e.contains(#[trigger] fs[k]),
                found ==> exists|k: int| 0 <= k < i && !e.contains(#[trigger] fs[k]) && all_upto(v, fs[k], best as int)
                    && (best < n ==> !fams_of(v[best as int]).contains(fs[k])),
                forall|k: int, t: int| 0 <= k < i && !e.contains(fs[k]) && best < t <= n ==> !#[trigger] all_upto(v, fs[k], t),
            decreases first.len() - i,
        {
            assert(fs[i as int] == first@[i as int]@);
            if !holds(ex, first[i].as_str()) {
                let r = reach(vs, first[i].as_str());
                proof {
                    assert forall|t: int| r < t <= n implies !all_upto(v, fs[i as int], t) by {
                        assert(!fams_of(v[r as int]).contains(fs[i as int]));
                    }
                }
                if !found || r > best {
                    proof {
                        assert forall|k: int, t: int| 0 <= k < i + 1 && !e.contains(fs[k]) && r < t <= n implies !#[trigger] all_upto(v, fs[k], t) by {
                            if k < i {
                                assert(!all_upto(v, fs[k], t)) by {
                                    if best < t {
                                    } else {
                                        assert(!found || r > best);
                                    }
                                }
                            }
                        }
                    }
                    best = r;
                }
                found = true;
            }
            i = i + 1;
        }
    }
    if !found {
        proof {
            if n > 2 && exists|x: Seq<char>| #[trigger] first_fam(v, e, x) {
                let x = choose|x: Seq<char>| #[trigger] first_fam(v, e, x);
                let k = choose|k: int| 0 <= k < fs.len() && fs[k] == x;
                assert(!e.contains(fs[k]));
            }
        }
        return 1;
    }
    proof {
        let k = choose|k: int| 0 <= k < fs.len() && !e.contains(#[trigger] fs[k]) && all_upto(v, fs[k], best as int)
            && (best < n ==> !fams_of(v[best as int]).contains(fs[k]));
        let x = fs[k];
        assert(first_fam(v, e, x));
        assert(fams_of(v[0]).contains(x));
        // the first variant requires x, so it reaches past the first
        if best == 0 {
            assert(!fams_of(v[0]).contains(x));
        }
        if best == n {
            assert forall|t: int| 0 <= t < v.len() implies #[trigger] fams_of(v[t]).contains(x) by {}
            assert(in_all(v, x));
        }
        assert forall|t: int| 0 <= t < best implies #[trigger] shared_upto(v, e, t) by {
            assert forall|u: int| 0 <= u <= t implies #[trigger] fams_of(v[u]).contains(x) by {}
        }
        assert(!shared_upto(v, e, best as int)) by {
            if shared_upto(v, e, best as int) {
                let y = choose|y: Seq<char>| #[trigger] first_fam(v, e, y) && forall|t: int| 0 <= t <= best ==> #[trigger] fams_of(v[t]).contains(y);
                let ky = choose|ky: int| 0 <= ky < fs.len() && fs[ky] == y;
                assert(!e.contains(fs[ky]));
                assert(all_upto(v, fs[ky], best + 1));
            }
        }
    }
    best
}

impl PackageVariantSlice {
    /// Orders the variants of every entry from the one most worth using
    /// to the least.
    fn sort_all_entries(&mut self, requests: &RequirementList, mode: VariantSelectMode)
        ensures
            final(self)@.package_name == old(self)@.package_name,
            final(self)@.extracted_fams == old(self)@.extracted_fams,
            final(self)@.entries.len() == old(self)@.entries.len(),
            forall|i: int| 0 <= i < old(self)@.entries.len() ==> {
                &&& (#[trigger] final(self)@.entries[i]).version == old(self)@.entries[i].version
                &&& final(self)@.entries[i].order_rank == old(self)@.entries[i].order_rank
                &&& final(self)@.entries[i].variants.to_multiset() == old(self)@.entries[i].variants.to_multiset()
                &&& keys_descending(requests@.requirements, mode, final(self)@.entries[i].variants)
            },
    {
        proof {
            use_type_invariant(&*self);
        }
        let ghost es = self@.entries;
        let mut out: Vec<PackageEntry> = Vec::new();
        let mut i: usize = 0;
        while i < self.entries.len()
            invariant
                i <= es.len(),
                es == entries_view(self.entries@),
                entries_ok(es),
                entries_view(out@).len() == i,
                forall|k: int| 0 <= k < i ==> {
                    &&& (#[trigger] entries_view(out@)[k]).version == es[k].version
                    &&& entries_view(out@)[k].order_rank == es[k].order_rank
                    &&& entries_view(out@)[k].variants.to_multiset() == es[k].variants.to_multiset()
                    &&& entries_view(out@)[k].variants.len() > 0
                    &&& keys_descending(requests@.requirements, mode, entries_view(out@)[k].variants)
                },
            decreases self.entries.len() - i,
        {
            let mut d = self.entries[i].duplicate();
            assert(es[i as int] == self.entries@[i as int]@);
            d.sort(requests, mode);
            proof {
                vstd::seq_lib::to_multiset_len(es[i as int].variants);
                vstd::seq_lib::to_multiset_len(d@.variants);
            }
            let ghost before = entries_view(out@);
            out.push(d);
            assert(entries_view(out@) =~= before.push(d@));
            i = i + 1;
        }
        let extracted_fams = crate::package_data::copy_strings(&self.extracted_fams);
        *self = PackageVariantSlice { package_name: self.package_name.clone(), entries: out, extracted_fams };
    }

    /// Splits the slice after its first `q` variants: the slice of those
    /// and the slice of the rest, with nothing extracted.
    fn split_at_variant(&self, q: usize) -> (r: (PackageVariantSlice, PackageVariantSlice))
        requires
            1 <= q < flat(self@.entries).len(),
        ensures
            r.0@.package_name == self@.package_name,
            r.1@.package_name == self@.package_name,
            r.0@.extracted_fams.len() == 0,
            r.1@.extracted_fams.len() == 0,
            flat(r.0@.entries) == flat(self@.entries).take(q as int),
            flat(r.1@.entries) == flat(self@.entries).skip(q as int),
    {
        proof {
            use_type_invariant(self);
        }
        let total = self.len();
        let ghost es = self@.entries;
        let ghost f = flat(es);
        let ghost qi = q as int;
        let mut first: Vec<PackageEntry> = Vec::new();
        let mut second: Vec<PackageEntry> = Vec::new();
        let mut c: usize = 0;
        let mut i: usize = 0;
        assert(es.take(0) =~= Seq::<EntryModel>::empty());
        assert(entries_view(first@) =~= Seq::<EntryModel>::empty());
        assert(entries_view(second@) =~= Seq::<EntryModel>::empty());
        proof {
            lemma_flat_split(es, 0);
        }
        while i < self.entries.len()
            invariant
                i <= es.len(),
                es == entries_view(self.entries@),
                entries_ok(es),
                f == flat(es),
                qi == q as int,
                1 <= qi < f.len(),
                total == f.len(),
                c as int == flat(es.take(i as int)).len(),
                flat(es.take(i as int)) == f.take(c as int),
                c <= q ==> flat(entries_view(first@)) == f.take(c as int) && second@.len() == 0,
                c > q ==> flat(entries_view(first@)) == f.take(qi) && flat(entries_view(second@)) == f.subrange(qi, c as int),
                forall|k: int| 0 <= k < first@.len() ==> (#[trigger] entries_view(first@)[k]).variants.len() > 0,
                forall|k: int| 0 <= k < second@.len() ==> (#[trigger] entries_view(second@)[k]).variants.len() > 0,
            decreases self.entries.len() - i,
        {
            let entry = &self.entries[i];
            let ev = entry.variants();
            let l = ev.len();
            assert(es[i as int] == entry@);
            proof {
                lemma_flat_take(es, i as int);
                lemma_flat_split(es, i + 1);
                assert(f.take(c + l) =~= flat(es.take(i + 1)));
                assert(c + l <= total);
                assert(l > 0);
            }
            let ghost fb = flat(entries_view(first@));
            let ghost sb = flat(entries_view(second@));
            let ghost b1 = entries_view(first@);
            let ghost b2 = entries_view(second@);
            if c + l <= q {
                first.push(entry.duplicate());
                assert(entries_view(first@) =~= b1.push(es[i as int]));
                assert(entries_view(first@)[b1.len() as int] == es[i as int]);
                assert(entries_view(first@).drop_last() =~= b1);
                assert(flat(entries_view(first@)) =~= f.take(c + l));
            } else if c >= q {
                second.push(entry.duplicate());
                assert(entries_view(second@) =~= b2.push(es[i as int]));
                assert(entries_view(second@)[b2.len() as int] == es[i as int]);
                assert(entries_view(second@).drop_last() =~= b2);
                if c == q {
                    assert(b2 =~= Seq::<EntryModel>::empty());
                    assert(flat(b2) =~= Seq::<Rc<PackageVariant>>::empty());
                    assert(f.subrange(qi, c as int) =~= Seq::<Rc<PackageVariant>>::empty());
                }
                assert(flat(entries_view(second@)) =~= f.subrange(qi, c + l));
            } else {
                let k = q - c;
                let head = share_all(&ev[0..k]);
                let tail = share_all(&ev[k..l]);
                let e1 = PackageEntry::new(entry.version().duplicate(), head, entry.order_rank());
                let e2 = PackageEntry::new(entry.version().duplicate(), tail, entry.order_rank());
                first.push(e1);
                second.push(e2);
                assert(entries_view(first@)[b1.len() as int].variants.len() > 0);
                assert(entries_view(second@)[b2.len() as int].variants.len() > 0);
                assert(entries_view(first@).drop_last() =~= b1);
                assert(b2 =~= Seq::<EntryModel>::empty());
                assert(entries_view(second@).drop_last() =~= b2);
                assert(flat(b2) =~= Seq::<Rc<PackageVariant>>::empty());
                assert(flat(entries_view(first@)) =~= f.take(qi));
                assert(flat(entries_view(second@)) =~= f.subrange(qi, c + l));
            }
            proof {
                assert forall|k: int| 0 <= k < first@.len() implies (#[trigger] entries_view(first@)[k]).variants.len() > 0 by {
                    if k < b1.len() {
                        assert(entries_view(first@)[k] == b1[k]);
                    }
                }
                assert forall|k: int| 0 <= k < second@.len() implies (#[trigger] entries_view(second@)[k]).variants.len() > 0 by {
                    if k < b2.len() {
                        assert(entries_view(second@)[k] == b2[k]);
                    }
                }
            }
            c = c + l;
            i = i + 1;
        }
        assert(es.take(i as int) =~= es);
        assert(f.subrange(qi, c as int) =~= f.skip(qi));
        proof {
            if first@.len() == 0 {
                assert(entries_view(first@) =~= Seq::<EntryModel>::empty());
            }
            if second@.len() == 0 {
                assert(entries_view(second@) =~= Seq::<EntryModel>::empty());
            }
        }
        (
            PackageVariantSlice::new(self.package_name.clone(), first),
            PackageVariantSlice::new(self.package_name.clone(), second),
        )
    }

    /// Splits the slice into a preferred part and the rest. The entries
    /// are put in order of preference and the variants of each from the
    /// one most worth using; the cut comes after the first variant when
    /// there are at most two or the first variant requires no package that
    /// was not extracted, otherwise before the first variant that shares
    /// none of those packages with all the variants before it, so that
    /// the preferred part again has a package all its variants require.
    pub fn split(&mut self, requests: &RequirementList, mode: VariantSelectMode) -> (r: (PackageVariantSlice, PackageVariantSlice))
        requires
            flat(old(self)@.entries).len() >= 2,
            !extractable_model(old(self)@),
        ensures
            final(self)@.package_name == old(self)@.package_name,
            final(self)@.extracted_fams == old(self)@.extracted_fams,
            ranks_ascending(final(self)@.entries),
            forall|i: int| 0 <= i < final(self)@.entries.len() ==> keys_descending(requests@.requirements, mode, (#[trigger] final(self)@.entries[i]).variants),
            ({
                let f = flat(final(self)@.entries);
                let q = flat(r.0@.entries).len() as int;
                &&& is_split_point(f, old(self)@.extracted_fams, q)
                &&& flat(r.0@.entries) == f.take(q)
                &&& flat(r.1@.entries) == f.skip(q)
            }),
            r.0@.package_name == old(self)@.package_name,
            r.1@.package_name == old(self)@.package_name,
            r.0@.extracted_fams.len() == 0,
            r.1@.extracted_fams.len() == 0,
            variants_within(r.0@.entries, old(self)@.entries),
            variants_within(r.1@.entries, old(self)@.entries),
    {
        let ghost es0 = self@.entries;
        self.check_ok();
        self.sort_versions();
        let ghost es1 = self@.entries;
        self.check_ok();
        self.sort_all_entries(requests, mode);
        let ghost es2 = self@.entries;
        self.check_ok();
        let vs = self.variants();
        proof {
            // every variant is still there, so the slice still has two and
            // no package left to extract
            vstd::seq_lib::to_multiset_len(es0);
            vstd::seq_lib::to_multiset_len(es1);
            if es0.len() >= 2 {
                lemma_flat_len_entries(es2);
            } else {
                assert(es0.len() == 1);
                lemma_flat_len_ge(es0, 0);
                assert(es0.drop_last() =~= Seq::<EntryModel>::empty());
                assert(flat(es0) == flat(es0.drop_last()) + es0[0].variants);
                assert(flat(es0).len() == es0[0].variants.len());
                vstd::seq_lib::to_multiset_contains(es1, es1[0]);
                vstd::seq_lib::to_multiset_contains(es0, es1[0]);
                assert(es1[0] == es0[0]);
                vstd::seq_lib::to_multiset_len(es1[0].variants);
                vstd::seq_lib::to_multiset_len(es2[0].variants);
                lemma_flat_len_ge(es2, 0);
            }
            assert forall|x: Seq<char>| #[trigger] in_all(vs@, x) && !self@.extracted_fams.contains(x) implies false by {
                lemma_in_all_flat(es2, x);
                lemma_in_all_flat(es0, x);
                lemma_flat_len_entries(es0);
                assert forall|i: int, j: int| 0 <= i < es0.len() && 0 <= j < es0[i].variants.len() implies
                    #[trigger] fams_of(es0[i].variants[j]).contains(x) by {
                    vstd::seq_lib::to_multiset_contains(es0, es0[i]);
                    vstd::seq_lib::to_multiset_contains(es1, es0[i]);
                    let k = choose|k: int| 0 <= k < es1.len() && es1[k] == es0[i];
                    let v = es0[i].variants[j];
                    vstd::seq_lib::to_multiset_contains(es1[k].variants, v);
                    vstd::seq_lib::to_multiset_contains(es2[k].variants, v);
                    let t = choose|t: int| 0 <= t < es2[k].variants.len() && es2[k].variants[t] == v;
                    assert(fams_of(es2[k].variants[t]).contains(x));
                }
                assert(in_all(flat(es0), x));
                assert(extractable_model(old(self)@));
            }
        }
        let q = find_split(&vs, self.extracted_fams.as_slice());
        let r = self.split_at_variant(q);
        proof {
            let f = flat(es2);
            assert(self@.entries == es2);
            assert forall|x: Rc<PackageVariant>| #[trigger] f.contains(x) implies has_variant(es0, x) by {
                lemma_has_variant_flat(es2, x);
                let (k, t) = choose|k: int, t: int| 0 <= k < es2.len() && 0 <= t < es2[k].variants.len() && es2[k].variants[t] == x;
                vstd::seq_lib::to_multiset_contains(es2[k].variants, x);
                vstd::seq_lib::to_multiset_contains(es1[k].variants, x);
                let t1 = choose|t1: int| 0 <= t1 < es1[k].variants.len() && es1[k].variants[t1] == x;
                vstd::seq_lib::to_multiset_contains(es1, es1[k]);
                vstd::seq_lib::to_multiset_contains(es0, es1[k]);
                let k0 = choose|k0: int| 0 <= k0 < es0.len() && es0[k0] == es1[k];
                assert(es0[k0].variants[t1] == x);
            }
            assert forall|i: int, j: int| 0 <= i < r.0@.entries.len() && 0 <= j < r.0@.entries[i].variants.len() implies has_variant(
                es0,
                #[trigger] r.0@.entries[i].variants[j],
            ) by {
                let x = r.0@.entries[i].variants[j];
                assert(has_variant(r.0@.entries, x));
                lemma_has_variant_flat(r.0@.entries, x);
                let t = choose|t: int| 0 <= t < flat(r.0@.entries).len() && flat(r.0@.entries)[t] == x;
                assert(f[t] == x);
                assert(f.contains(x));
            }
            assert forall|i: int, j: int| 0 <= i < r.1@.entries.len() && 0 <= j < r.1@.entries[i].variants.len() implies has_variant(
                es0,
                #[trigger] r.1@.entries[i].variants[j],
            ) by {
                let x = r.1@.entries[i].variants[j];
                assert(has_variant(r.1@.entries, x));
                lemma_has_variant_flat(r.1@.entries, x);
                let t = choose|t: int| 0 <= t < flat(r.1@.entries).len() && flat(r.1@.entries)[t] == x;
                assert(f[t + q] == x);
                assert(f.contains(x));
            }
        }
        r
    }
}

/// `v` is one of the variants of the entries.
pub open spec fn has_variant(es: Seq<EntryModel>, v: Rc<PackageVariant>) -> bool {
    exists|i: int, j: int| 0 <= i < es.len() && 0 <= j < es[i].variants.len() && es[i].variants[j] == v
}

/// Every variant of `es` is one of the variants of `old`.
pub open spec fn variants_within(es: Seq<EntryModel>, old: Seq<EntryModel>) -> bool {
    forall|i: int, j: int| 0 <= i < es.len() && 0 <= j < es[i].variants.len() ==> has_variant(
        old,
        #[trigger] es[i].variants[j],
    )
}

/// The variants of entries are among their own.
pub proof fn lemma_within_refl(es: Seq<EntryModel>)
    ensures
        variants_within(es, es),
{
    assert forall|i: int, j: int| 0 <= i < es.len() && 0 <= j < es[i].variants.len() implies has_variant(
        es,
        #[trigger] es[i].variants[j],
    ) by {
        assert(es[i].variants[j] == es[i].variants[j]);
    }
}

/// The variants of the entries are those of their flattening.
pub proof fn lemma_has_variant_flat(es: Seq<EntryModel>, v: Rc<PackageVariant>)
    ensures
        has_variant(es, v) <==> flat(es).contains(v),
    decreases es.len(),
{
    if es.len() > 0 {
        let dl = es.drop_last();
        lemma_has_variant_flat(dl, v);
        let f = flat(es);
        let fd = flat(dl);
        let lv = es.last().variants;
        assert(f == fd + lv);
        if has_variant(es, v) {
            let (i, j) = choose|i: int, j: int| 0 <= i < es.len() && 0 <= j < es[i].variants.len() && es[i].variants[j] == v;
            if i < es.len() - 1 {
                assert(dl[i] == es[i]);
                assert(has_variant(dl, v));
                let t = choose|t: int| 0 <= t < fd.len() && fd[t] == v;
                assert(f[t] == v);
            } else {
                assert(f[fd.len() + j] == v);
            }
        }
        if f.contains(v) {
            let t = choose|t: int| 0 <= t < f.len() && f[t] == v;
            if t < fd.len() {
                assert(fd[t] == v);
                assert(fd.contains(v));
                let (i, j) = choose|i: int, j: int| 0 <= i < dl.len() && 0 <= j < dl[i].variants.len() && dl[i].variants[j] == v;
                assert(es[i] == dl[i]);
            } else {
                assert(lv[t - fd.len()] == v);
                assert(es[es.len() - 1].variants[t - fd.len()] == v);
            }
        }
    } else {
        assert(flat(es).len() == 0);
    }
}

/// The entries a range selects are among the entries.
pub proof fn lemma_entries_in_within(es: Seq<EntryModel>, r: Seq<SegModel>)
    ensures
        variants_within(entries_in(es, r), es),
    decreases es.len(),
{
    if es.len() > 0 {
        let dl = es.drop_last();
        lemma_entries_in_within(dl, r);
        let prev = entries_in(dl, r);
        let cur = entries_in(es, r);
        assert forall|i: int, j: int| 0 <= i < cur.len() && 0 <= j < cur[i].variants.len() implies has_variant(
            es,
            #[trigger] cur[i].variants[j],
        ) by {
            if i < prev.len() {
                assert(cur[i] == prev[i]);
                let (a, b) = choose|a: int, b: int| 0 <= a < dl.len() && 0 <= b < dl[a].variants.len() && dl[a].variants[b] == prev[i].variants[j];
                assert(es[a] == dl[a]);
            } else {
                assert(cur[i] == es[es.len() - 1]);
            }
        }
    }
}

/// The entries left by a reduction hold only variants of the entries.
pub proof fn lemma_reduced_within(es: Seq<EntryModel>, req: RequirementModel)
    ensures
        variants_within(reduced_entries(es, req), es),
    decreases es.len(),
{
    if es.len() > 0 {
        let dl = es.drop_last();
        lemma_reduced_within(dl, req);
        lemma_kept_within(es.last().variants, req);
        let prev = reduced_entries(dl, req);
        let cur = reduced_entries(es, req);
        assert forall|i: int, j: int| 0 <= i < cur.len() && 0 <= j < cur[i].variants.len() implies has_variant(
            es,
            #[trigger] cur[i].variants[j],
        ) by {
            if i < prev.len() {
                assert(cur[i] == prev[i]);
                let (a, b) = choose|a: int, b: int| 0 <= a < dl.len() && 0 <= b < dl[a].variants.len() && dl[a].variants[b] == prev[i].variants[j];
                assert(es[a] == dl[a]);
            } else {
                let kv = kept_variants(es.last().variants, req);
                assert(cur[i].variants == kv);
                assert(kv.contains(kv[j]));
                let t = choose|t: int| 0 <= t < es.last().variants.len() && es.last().variants[t] == kv[j];
                assert(es[es.len() - 1].variants[t] == kv[j]);
            }
        }
    }
}

/// The variants a request keeps are among the variants.
proof fn lemma_kept_within(vs: Seq<Rc<PackageVariant>>, req: RequirementModel)
    ensures
        forall|k: int| 0 <= k < kept_variants(vs, req).len() ==> vs.contains(#[trigger] kept_variants(vs, req)[k]),
    decreases vs.len(),
{
    if vs.len() > 0 {
        let dl = vs.drop_last();
        lemma_kept_within(dl, req);
        let prev = kept_variants(dl, req);
        let cur = kept_variants(vs, req);
        assert forall|k: int| 0 <= k < cur.len() implies vs.contains(#[trigger] cur[k]) by {
            if k < prev.len() {
                assert(cur[k] == prev[k]);
                let t = choose|t: int| 0 <= t < dl.len() && dl[t] == prev[k];
                assert(vs[t] == dl[t]);
            } else {
                assert(cur[k] == vs[vs.len() - 1]);
            }
        }
    }
}

/// A list of non-empty entries holds at least one variant per entry.
proof fn lemma_flat_len_entries(es: Seq<EntryModel>)
    requires
        forall|i: int| 0 <= i < es.len() ==> (#[trigger] es[i]).variants.len() > 0,
    ensures
        flat(es).len() >= es.len(),
    decreases es.len(),
{
    if es.len() > 0 {
        let dl = es.drop_last();
        assert forall|i: int| 0 <= i < dl.len() implies (#[trigger] dl[i]).variants.len() > 0 by {
            assert(dl[i] == es[i]);
        }
        lemma_flat_len_entries(dl);
        assert(es[es.len() - 1] == es.last());
    }
}

/// Every variant of the entries requires `x` exactly when every variant
/// of every entry does (and there is a variant).
proof fn lemma_in_all_flat(es: Seq<EntryModel>, x: Seq<char>)
    ensures
        in_all(flat(es), x) <==> (flat(es).len() > 0 && forall|i: int, j: int|
            0 <= i < es.len() && 0 <= j < es[i].variants.len() ==> #[trigger] fams_of(es[i].variants[j]).contains(x)),
    decreases es.len(),
{
    if es.len() > 0 {
        let dl = es.drop_last();
        lemma_in_all_flat(dl, x);
        let f = flat(es);
        let fd = flat(dl);
        let lv = es.last().variants;
        assert(f == fd + lv);
        if in_all(f, x) {
            assert forall|i: int, j: int| 0 <= i < es.len() && 0 <= j < es[i].variants.len() implies
                #[trigger] fams_of(es[i].variants[j]).contains(x) by {
                if i < es.len() - 1 {
                    assert(dl[i] == es[i]);
                    if fd.len() > 0 {
                        assert(forall|t: int| 0 <= t < fd.len() ==> #[trigger] fams_of(fd[t]).contains(x)) by {
                            assert forall|t: int| 0 <= t < fd.len() implies #[trigger] fams_of(fd[t]).contains(x) by {
                                assert(f[t] == fd[t]);
                            }
                        }
                    }
                    lemma_flat_len_ge(dl, i);
                    assert(in_all(fd, x)) by {
                        assert forall|t: int| 0 <= t < fd.len() implies #[trigger] fams_of(fd[t]).contains(x) by {
                            assert(f[t] == fd[t]);
                        }
                    }
                } else {
                    assert(f[fd.len() + j] == lv[j]);
                }
            }
        }
        if f.len() > 0 && forall|i: int, j: int|
            0 <= i < es.len() && 0 <= j < es[i].variants.len() ==> #[trigger] fams_of(es[i].variants[j]).contains(x) {
            assert forall|t: int| 0 <= t < f.len() implies #[trigger] fams_of(f[t]).contains(x) by {
                if t < fd.len() {
                    assert(f[t] == fd[t]);
                    assert forall|i: int, j: int| 0 <= i < dl.len() && 0 <= j < dl[i].variants.len() implies
                        #[trigger] fams_of(dl[i].variants[j]).contains(x) by {
                        assert(dl[i] == es[i]);
                    }
                    assert(in_all(fd, x));
                } else {
                    assert(f[t] == lv[t - fd.len()]);
                    assert(es[es.len() - 1] == es.last());
                }
            }
        }
    }
}

} // verus!
