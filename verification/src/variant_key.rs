//! The keys that order the variants of a package version from the one most
//! worth using to the least: built from the version ranges that each
//! variant requires, compared field by field.
use vstd::prelude::*;
use crate::order::{compare_int, lex, lex_fn, is_total_order, all_in, seq_dom, lemma_lex_total_order};
use crate::version::RerVersion;
use crate::version_order::{VersionModel, version_wf, version_compare, lemma_version_total_order, code_compare, any_char_dom, lemma_code_order};
use crate::range_model::{BoundModel, SegModel, range_wf, bound_wf};
use crate::range::{VersionRange, VersionBound, segs_view, seg_view};
use crate::graph::{compare_names, name_compare};

verus! {

// ---------------------------------------------------------------------------
// Orders built from orders
// ---------------------------------------------------------------------------

/// Pairs compared by their first component, then by their second.
pub open spec fn pair_ord<A, B>(f: spec_fn(A, A) -> int, g: spec_fn(B, B) -> int) -> spec_fn((A, B), (A, B)) -> int {
    |x: (A, B), y: (A, B)| if f(x.0, y.0) != 0 {
        f(x.0, y.0)
    } else {
        g(x.1, y.1)
    }
}

/// Pairs whose components are in the given domains.
pub open spec fn pair_dom<A, B>(da: spec_fn(A) -> bool, db: spec_fn(B) -> bool) -> spec_fn((A, B)) -> bool {
    |x: (A, B)| da(x.0) && db(x.1)
}

/// Comparing pairs of ordered values component by component is an order.
pub proof fn lemma_pair_total_order<A, B>(
    f: spec_fn(A, A) -> int,
    da: spec_fn(A) -> bool,
    g: spec_fn(B, B) -> int,
    db: spec_fn(B) -> bool,
)
    requires
        is_total_order(f, da),
        is_total_order(g, db),
    ensures
        is_total_order(pair_ord(f, g), pair_dom(da, db)),
{
    let h = pair_ord(f, g);
    let d = pair_dom(da, db);
    assert forall|x: (A, B), y: (A, B)| d(x) && d(y) implies -1 <= #[trigger] h(x, y) <= 1 && h(x, y) == -h(
        y,
        x,
    ) && (h(x, y) == 0 <==> x == y) by {
        assert(f(x.0, y.0) == -f(y.0, x.0));
        assert(g(x.1, y.1) == -g(y.1, x.1));
        if h(x, y) == 0 {
            assert(f(x.0, y.0) == 0);
            assert(x.0 == y.0);
            assert(x.1 == y.1);
        }
        if x == y {
            assert(f(x.0, y.0) == 0);
            assert(g(x.1, y.1) == 0);
        }
    }
    assert forall|x: (A, B), y: (A, B), z: (A, B)|
        d(x) && d(y) && d(z) && #[trigger] h(x, y) <= 0 && #[trigger] h(y, z) <= 0 implies h(x, z) <= 0 by {
        assert(f(x.0, y.0) <= 0);
        assert(f(y.0, z.0) <= 0);
        assert(f(x.0, z.0) <= 0);
        if f(x.0, z.0) == 0 {
            assert(f(z.0, x.0) == 0);
            assert(x.0 == z.0);
            assert(f(y.0, x.0) == -f(x.0, y.0));
            assert(f(x.0, y.0) == 0);
            assert(x.0 == y.0);
            assert(f(y.0, z.0) == 0);
            assert(g(x.1, y.1) <= 0);
            assert(g(y.1, z.1) <= 0);
        }
    }
}

/// Integers in increasing order.
pub open spec fn int_ord() -> spec_fn(int, int) -> int {
    |a: int, b: int| compare_int(a, b)
}

/// Integers in decreasing order.
pub open spec fn rev_int_ord() -> spec_fn(int, int) -> int {
    |a: int, b: int| compare_int(b, a)
}

/// Every integer.
pub open spec fn int_dom() -> spec_fn(int) -> bool {
    |a: int| true
}

/// A missing index before every index, indices in increasing order.
pub open spec fn opt_ord() -> spec_fn(Option<usize>, Option<usize>) -> int {
    |a: Option<usize>, b: Option<usize>| match (a, b) {
        (None, None) => 0,
        (None, Some(_)) => -1,
        (Some(_), None) => 1,
        (Some(x), Some(y)) => compare_int(x as int, y as int),
    }
}

/// Every optional index.
pub open spec fn opt_dom() -> spec_fn(Option<usize>) -> bool {
    |a: Option<usize>| true
}

proof fn lemma_int_orders()
    ensures
        is_total_order(int_ord(), int_dom()),
        is_total_order(rev_int_ord(), int_dom()),
        is_total_order(opt_ord(), opt_dom()),
{
    assert forall|x: Option<usize>, y: Option<usize>| #[trigger] opt_ord()(x, y) == 0 implies x == y by {
        match (x, y) {
            (Some(a), Some(b)) => {
                assert(a == b);
            },
            _ => {},
        }
    }
}

// ---------------------------------------------------------------------------
// Models of the keys
// ---------------------------------------------------------------------------

/// One end of a segment in a key: below every version, a version, or
/// above every version.
pub enum VersionKeyModel {
    Min,
    V(VersionModel),
    Inf,
}

/// The order of the ends of segments.
pub open spec fn vkey_compare(a: VersionKeyModel, b: VersionKeyModel) -> int {
    match (a, b) {
        (VersionKeyModel::Min, VersionKeyModel::Min) => 0,
        (VersionKeyModel::Min, _) => -1,
        (_, VersionKeyModel::Min) => 1,
        (VersionKeyModel::Inf, VersionKeyModel::Inf) => 0,
        (VersionKeyModel::Inf, _) => 1,
        (_, VersionKeyModel::Inf) => -1,
        (VersionKeyModel::V(x), VersionKeyModel::V(y)) => version_compare(x, y),
    }
}

pub open spec fn vkey_ord() -> spec_fn(VersionKeyModel, VersionKeyModel) -> int {
    |a: VersionKeyModel, b: VersionKeyModel| vkey_compare(a, b)
}

/// An end holding a well-formed version, or none.
pub open spec fn vkey_dom() -> spec_fn(VersionKeyModel) -> bool {
    |a: VersionKeyModel| a matches VersionKeyModel::V(v) ==> version_wf(v)
}

proof fn lemma_vkey_order()
    ensures
        is_total_order(vkey_ord(), vkey_dom()),
{
    let f = vkey_ord();
    let d = vkey_dom();
    assert forall|x: VersionKeyModel, y: VersionKeyModel| d(x) && d(y) implies -1 <= #[trigger] f(x, y) <= 1
        && f(x, y) == -f(y, x) && (f(x, y) == 0 <==> x == y) by {
        if let (VersionKeyModel::V(a), VersionKeyModel::V(b)) = (x, y) {
            lemma_version_total_order(a, b, b);
        }
    }
    assert forall|x: VersionKeyModel, y: VersionKeyModel, z: VersionKeyModel|
        d(x) && d(y) && d(z) && #[trigger] f(x, y) <= 0 && #[trigger] f(y, z) <= 0 implies f(x, z) <= 0 by {
        if let (VersionKeyModel::V(a), VersionKeyModel::V(b), VersionKeyModel::V(c)) = (x, y, z) {
            lemma_version_total_order(a, b, c);
        }
    }
}

/// The key of one segment: lower end and its inclusion mark, upper end
/// and its inclusion mark.
pub type SegKeyModel = ((VersionKeyModel, int), (VersionKeyModel, int));

pub open spec fn end_ord() -> spec_fn((VersionKeyModel, int), (VersionKeyModel, int)) -> int {
    pair_ord(vkey_ord(), int_ord())
}

pub open spec fn end_dom() -> spec_fn((VersionKeyModel, int)) -> bool {
    pair_dom(vkey_dom(), int_dom())
}

pub open spec fn seg_key_ord() -> spec_fn(SegKeyModel, SegKeyModel) -> int {
    pair_ord(end_ord(), end_ord())
}

pub open spec fn seg_key_dom() -> spec_fn(SegKeyModel) -> bool {
    pair_dom(end_dom(), end_dom())
}

/// The key of a range: the keys of its segments in order.
pub open spec fn range_key_ord() -> spec_fn(Seq<SegKeyModel>, Seq<SegKeyModel>) -> int {
    lex_fn(seg_key_ord())
}

pub open spec fn range_key_dom() -> spec_fn(Seq<SegKeyModel>) -> bool {
    seq_dom(seg_key_dom())
}

/// The key of a requested package: its place in the request (earlier
/// places are worth more), and the range the variant asks of it.
pub open spec fn req_entry_ord() -> spec_fn((int, Seq<SegKeyModel>), (int, Seq<SegKeyModel>)) -> int {
    pair_ord(rev_int_ord(), range_key_ord())
}

pub open spec fn req_entry_dom() -> spec_fn((int, Seq<SegKeyModel>)) -> bool {
    pair_dom(int_dom(), range_key_dom())
}

/// The key of another package the variant requires: the range, then the
/// name.
pub open spec fn add_entry_ord() -> spec_fn((Seq<SegKeyModel>, Seq<char>), (Seq<SegKeyModel>, Seq<char>)) -> int {
    pair_ord(range_key_ord(), lex_fn(code_compare()))
}

pub open spec fn add_entry_dom() -> spec_fn((Seq<SegKeyModel>, Seq<char>)) -> bool {
    pair_dom(range_key_dom(), seq_dom(any_char_dom()))
}

/// The key of a variant: how many requested packages it requires, the
/// keys of those, how many other packages it requires (fewer is worth
/// more), the keys of those, and its index.
pub type VariantKeyModel = (
    int,
    (Seq<(int, Seq<SegKeyModel>)>, (int, (Seq<(Seq<SegKeyModel>, Seq<char>)>, Option<usize>))),
);

pub open spec fn variant_key_ord() -> spec_fn(VariantKeyModel, VariantKeyModel) -> int {
    pair_ord(
        int_ord(),
        pair_ord(lex_fn(req_entry_ord()), pair_ord(rev_int_ord(), pair_ord(lex_fn(add_entry_ord()), opt_ord()))),
    )
}

pub open spec fn variant_key_dom() -> spec_fn(VariantKeyModel) -> bool {
    pair_dom(
        int_dom(),
        pair_dom(seq_dom(req_entry_dom()), pair_dom(int_dom(), pair_dom(seq_dom(add_entry_dom()), opt_dom()))),
    )
}

/// The comparison of variant keys is an order.
pub proof fn lemma_variant_key_order()
    ensures
        is_total_order(variant_key_ord(), variant_key_dom()),
        is_total_order(range_key_ord(), range_key_dom()),
{
    lemma_int_orders();
    lemma_vkey_order();
    lemma_code_order();
    lemma_pair_total_order(vkey_ord(), vkey_dom(), int_ord(), int_dom());
    lemma_pair_total_order(end_ord(), end_dom(), end_ord(), end_dom());
    lemma_lex_total_order(seg_key_ord(), seg_key_dom());
    lemma_pair_total_order(rev_int_ord(), int_dom(), range_key_ord(), range_key_dom());
    lemma_lex_total_order(code_compare(), any_char_dom());
    lemma_pair_total_order(range_key_ord(), range_key_dom(), lex_fn(code_compare()), seq_dom(any_char_dom()));
    lemma_lex_total_order(req_entry_ord(), req_entry_dom());
    lemma_lex_total_order(add_entry_ord(), add_entry_dom());
    lemma_pair_total_order(lex_fn(add_entry_ord()), seq_dom(add_entry_dom()), opt_ord(), opt_dom());
    lemma_pair_total_order(
        rev_int_ord(),
        int_dom(),
        pair_ord(lex_fn(add_entry_ord()), opt_ord()),
        pair_dom(seq_dom(add_entry_dom()), opt_dom()),
    );
    lemma_pair_total_order(
        lex_fn(req_entry_ord()),
        seq_dom(req_entry_dom()),
        pair_ord(rev_int_ord(), pair_ord(lex_fn(add_entry_ord()), opt_ord())),
        pair_dom(int_dom(), pair_dom(seq_dom(add_entry_dom()), opt_dom())),
    );
    lemma_pair_total_order(
        int_ord(),
        int_dom(),
        pair_ord(lex_fn(req_entry_ord()), pair_ord(rev_int_ord(), pair_ord(lex_fn(add_entry_ord()), opt_ord()))),
        pair_dom(seq_dom(req_entry_dom()), pair_dom(int_dom(), pair_dom(seq_dom(add_entry_dom()), opt_dom()))),
    );
}

/// The key of the lower end of a segment.
pub open spec fn lower_key(b: BoundModel) -> (VersionKeyModel, int) {
    match b {
        BoundModel::Unbounded => (VersionKeyModel::Min, -2),
        BoundModel::Included(v) => (VersionKeyModel::V(v), -2),
        BoundModel::Excluded(v) => (VersionKeyModel::V(v), -1),
    }
}

/// The key of the upper end of a segment.
pub open spec fn upper_key(b: BoundModel) -> (VersionKeyModel, int) {
    match b {
        BoundModel::Unbounded => (VersionKeyModel::Inf, 2),
        BoundModel::Included(v) => (VersionKeyModel::V(v), 2),
        BoundModel::Excluded(v) => (VersionKeyModel::V(v), 1),
    }
}

/// The key of a segment.
pub open spec fn seg_key(s: SegModel) -> SegKeyModel {
    (lower_key(s.0), upper_key(s.1))
}

/// The key of a range (none for the requirement with no range).
pub open spec fn range_key(r: Option<Seq<SegModel>>) -> Seq<SegKeyModel> {
    match r {
        Some(segs) => segs.map_values(|s: SegModel| seg_key(s)),
        None => Seq::empty(),
    }
}

/// The key of a well-formed range is in the domain of the order.
pub proof fn lemma_range_key_dom(r: Option<Seq<SegModel>>)
    requires
        r matches Some(segs) ==> range_wf(segs),
    ensures
        range_key_dom()(range_key(r)),
{
    if let Some(segs) = r {
        let k = range_key(r);
        assert forall|i: int| 0 <= i < k.len() implies #[trigger] seg_key_dom()(k[i]) by {
            assert(bound_wf(segs[i].0) && bound_wf(segs[i].1));
        }
    }
}

// ---------------------------------------------------------------------------
// Executable keys
// ---------------------------------------------------------------------------

/// One end of a segment in a key.
pub enum VersionKey {
    Min,
    V(RerVersion),
    Inf,
}

impl View for VersionKey {
    type V = VersionKeyModel;

    open spec fn view(&self) -> VersionKeyModel {
        match self {
            VersionKey::Min => VersionKeyModel::Min,
            VersionKey::V(v) => VersionKeyModel::V(v@),
            VersionKey::Inf => VersionKeyModel::Inf,
        }
    }
}

/// The key of one segment.
pub struct SegmentKey {
    pub lower: VersionKey,
    pub lower_mark: i8,
    pub upper: VersionKey,
    pub upper_mark: i8,
}

impl View for SegmentKey {
    type V = SegKeyModel;

    open spec fn view(&self) -> SegKeyModel {
        ((self.lower@, self.lower_mark as int), (self.upper@, self.upper_mark as int))
    }
}

/// The keys of a list of segments.
pub open spec fn seg_keys_view(v: Seq<SegmentKey>) -> Seq<SegKeyModel> {
    v.map_values(|k: SegmentKey| k@)
}

fn compare_vkey(a: &VersionKey, b: &VersionKey) -> (r: i8)
    ensures
        r as int == vkey_compare(a@, b@),
{
    match (a, b) {
        (VersionKey::Min, VersionKey::Min) => 0,
        (VersionKey::Min, _) => -1,
        (_, VersionKey::Min) => 1,
        (VersionKey::Inf, VersionKey::Inf) => 0,
        (VersionKey::Inf, _) => 1,
        (_, VersionKey::Inf) => -1,
        (VersionKey::V(x), VersionKey::V(y)) => x.compare_with(y),
    }
}

fn compare_i8(a: i8, b: i8) -> (r: i8)
    ensures
        r as int == compare_int(a as int, b as int),
{
    if a < b {
        -1
    } else if a == b {
        0
    } else {
        1
    }
}

fn compare_usize(a: usize, b: usize) -> (r: i8)
    ensures
        r as int == compare_int(a as int, b as int),
{
    if a < b {
        -1
    } else if a == b {
        0
    } else {
        1
    }
}

fn compare_seg_key(a: &SegmentKey, b: &SegmentKey) -> (r: i8)
    ensures
        r as int == seg_key_ord()(a@, b@),
{
    let c = compare_vkey(&a.lower, &b.lower);
    if c != 0 {
        return c;
    }
    let c = compare_i8(a.lower_mark, b.lower_mark);
    if c != 0 {
        return c;
    }
    let c = compare_vkey(&a.upper, &b.upper);
    if c != 0 {
        return c;
    }
    compare_i8(a.upper_mark, b.upper_mark)
}

/// Compares two range keys segment by segment.
pub fn compare_range_keys(a: &Vec<SegmentKey>, b: &Vec<SegmentKey>) -> (r: i8)
    ensures
        r as int == range_key_ord()(seg_keys_view(a@), seg_keys_view(b@)),
{
    let ghost x = seg_keys_view(a@);
    let ghost y = seg_keys_view(b@);
    let mut i: usize = 0;
    assert(x.skip(0) =~= x);
    assert(y.skip(0) =~= y);
    while i < a.len() && i < b.len()
        invariant
            i <= a@.len(),
            i <= b@.len(),
            x == seg_keys_view(a@),
            y == seg_keys_view(b@),
            lex(x, y, seg_key_ord()) == lex(x.skip(i as int), y.skip(i as int), seg_key_ord()),
        decreases a.len() - i,
    {
        let ghost sa = x.skip(i as int);
        let ghost sb = y.skip(i as int);
        assert(sa[0] == a@[i as int]@);
        assert(sb[0] == b@[i as int]@);
        let c = compare_seg_key(&a[i], &b[i]);
        if c != 0 {
            return c;
        }
        assert(sa.drop_first() =~= x.skip(i + 1));
        assert(sb.drop_first() =~= y.skip(i + 1));
        i = i + 1;
    }
    if i < a.len() {
        1
    } else if i < b.len() {
        -1
    } else {
        assert(x.skip(i as int).len() == 0 && y.skip(i as int).len() == 0);
        0
    }
}

fn lower_key_of(b: &VersionBound) -> (r: (VersionKey, i8))
    ensures
        (r.0@, r.1 as int) == lower_key(b@),
{
    match b {
        VersionBound::Unbounded => (VersionKey::Min, -2),
        VersionBound::Included(v) => (VersionKey::V(v.duplicate()), -2),
        VersionBound::Excluded(v) => (VersionKey::V(v.duplicate()), -1),
    }
}

fn upper_key_of(b: &VersionBound) -> (r: (VersionKey, i8))
    ensures
        (r.0@, r.1 as int) == upper_key(b@),
{
    match b {
        VersionBound::Unbounded => (VersionKey::Inf, 2),
        VersionBound::Included(v) => (VersionKey::V(v.duplicate()), 2),
        VersionBound::Excluded(v) => (VersionKey::V(v.duplicate()), 1),
    }
}

/// The key of a requirement's range, segment by segment (no segments for
/// the requirement with no range).
pub fn range_sort_key(range: Option<&VersionRange>) -> (r: Vec<SegmentKey>)
    ensures
        seg_keys_view(r@) == range_key(
            match range {
                Some(x) => Some(x@),
                None => None,
            },
        ),
        range_key_dom()(seg_keys_view(r@)),
{
    let mut out: Vec<SegmentKey> = Vec::new();
    match range {
        None => {
            assert(seg_keys_view(out@) =~= Seq::<SegKeyModel>::empty());
        },
        Some(x) => {
            let segs = x.as_ranges();
            let ghost sv = segs_view(segs@);
            let mut i: usize = 0;
            while i < segs.len()
                invariant
                    i <= segs@.len(),
                    sv == segs_view(segs@),
                    sv == x@,
                    seg_keys_view(out@) == sv.take(i as int).map_values(|s: SegModel| seg_key(s)),
                decreases segs.len() - i,
            {
                let ghost before = seg_keys_view(out@);
                let (lower, lower_mark) = lower_key_of(&segs[i].0);
                let (upper, upper_mark) = upper_key_of(&segs[i].1);
                out.push(SegmentKey { lower, lower_mark, upper, upper_mark });
                assert(sv[i as int] == seg_view(segs@[i as int]));
                assert(seg_keys_view(out@) =~= before.push(seg_key(sv[i as int])));
                assert(sv.take(i + 1) =~= sv.take(i as int).push(sv[i as int]));
                i = i + 1;
                assert(seg_keys_view(out@) =~= sv.take(i as int).map_values(|s: SegModel| seg_key(s)));
            }
            assert(sv.take(i as int) =~= sv);
            proof {
                lemma_range_key_dom(Some(x@));
            }
        },
    }
    out
}

} // verus!
