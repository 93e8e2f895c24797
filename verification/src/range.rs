//! Version ranges with rez's semantics: a sorted list of disjoint segments
//! of the version line, with the distinguished "any" range, and operations
//! that answer `None` where rez answers "no range".
use vstd::prelude::*;
use crate::version::{RerVersion, version_text};
use crate::text::{chars_of, string_from_chars};
use crate::version_order::{VersionModel, version_wf, version_lt, lemma_version_total_order};
use crate::range_model::{
    BoundModel, SegModel, Cut, lower_cut, upper_cut, cut_lt, cut_le, cut_below, cut_above, lo, hi,
    seg_contains, range_contains, seg_valid, seg_wf, range_wf, bound_wf, cut_wf, lemma_cut_order,
    lemma_cut_point, lemma_sorted, lemma_bound_cut_wf, flip, gap_piece, first_gap, end_gap,
    complement_model, max_lower, min_upper, meet, meets_upto, intersect_upto, intersect_model,
    union_model, lemma_complement_wf, lemma_intersect_wf, lemma_union_wf, seg_within, range_within,
    span_model, lemma_span, lemma_insert_wf, seg_in,
};
use crate::version_order::{bump_model, lemma_bump_greater};

verus! {

/// One end of a segment.
#[derive(Debug)]
pub enum VersionBound {
    Unbounded,
    Included(RerVersion),
    Excluded(RerVersion),
}

impl View for VersionBound {
    type V = BoundModel;

    open spec fn view(&self) -> BoundModel {
        match self {
            VersionBound::Unbounded => BoundModel::Unbounded,
            VersionBound::Included(v) => BoundModel::Included(v@),
            VersionBound::Excluded(v) => BoundModel::Excluded(v@),
        }
    }
}

impl VersionBound {
    /// A copy of the bound.
    pub fn duplicate(&self) -> (b: VersionBound)
        ensures
            b@ == self@,
    {
        match self {
            VersionBound::Unbounded => VersionBound::Unbounded,
            VersionBound::Included(v) => VersionBound::Included(v.duplicate()),
            VersionBound::Excluded(v) => VersionBound::Excluded(v.duplicate()),
        }
    }

    /// Every bound is well formed.
    pub fn check_wf(&self)
        ensures
            bound_wf(self@),
    {
        match self {
            VersionBound::Unbounded => {},
            VersionBound::Included(v) => v.check_wf(),
            VersionBound::Excluded(v) => v.check_wf(),
        }
    }
}

impl Clone for VersionBound {
    fn clone(&self) -> (b: Self)
        ensures
            b@ == self@,
    {
        self.duplicate()
    }
}

/// The cut a bound makes, as the upper (`true`) or lower end of a segment.
pub open spec fn cut_of(b: BoundModel, upper: bool) -> Cut {
    if upper {
        upper_cut(b)
    } else {
        lower_cut(b)
    }
}

/// Whether the cut of `a` lies strictly below the cut of `b`.
fn cut_less(a: &VersionBound, a_upper: bool, b: &VersionBound, b_upper: bool) -> (r: bool)
    ensures
        r == cut_lt(cut_of(a@, a_upper), cut_of(b@, b_upper)),
{
    match (a, b) {
        (VersionBound::Unbounded, VersionBound::Unbounded) => !a_upper && b_upper,
        (VersionBound::Unbounded, _) => !a_upper,
        (_, VersionBound::Unbounded) => b_upper,
        _ => {
            let (x, p) = match a {
                VersionBound::Included(x) => (x, a_upper),
                VersionBound::Excluded(x) => (x, !a_upper),
                VersionBound::Unbounded => { proof { assert(false); } return false; },
            };
            let (y, q) = match b {
                VersionBound::Included(y) => (y, b_upper),
                VersionBound::Excluded(y) => (y, !b_upper),
                VersionBound::Unbounded => { proof { assert(false); } return false; },
            };
            x.check_wf();
            y.check_wf();
            proof {
                lemma_version_total_order(x@, y@, x@);
            }
            let c = x.compare_with(y);
            c < 0 || (c == 0 && !p && q)
        },
    }
}

/// Whether the cut of `b` lies below version `v`.
fn below(b: &VersionBound, upper: bool, v: &RerVersion) -> (r: bool)
    ensures
        r == cut_below(cut_of(b@, upper), v@),
{
    match b {
        VersionBound::Unbounded => !upper,
        VersionBound::Included(x) => {
            x.check_wf();
            v.check_wf();
            proof {
                lemma_version_total_order(x@, v@, x@);
            }
            let c = x.compare_with(v);
            c < 0 || (c == 0 && !upper)
        },
        VersionBound::Excluded(x) => {
            x.check_wf();
            v.check_wf();
            proof {
                lemma_version_total_order(x@, v@, x@);
            }
            let c = x.compare_with(v);
            c < 0 || (c == 0 && upper)
        },
    }
}

/// Whether the cut of `b` lies above version `v`.
fn above(b: &VersionBound, upper: bool, v: &RerVersion) -> (r: bool)
    ensures
        r == cut_above(cut_of(b@, upper), v@),
{
    match b {
        VersionBound::Unbounded => upper,
        VersionBound::Included(x) => {
            x.check_wf();
            v.check_wf();
            proof {
                lemma_version_total_order(x@, v@, x@);
            }
            let c = v.compare_with(x);
            c < 0 || (c == 0 && upper)
        },
        VersionBound::Excluded(x) => {
            x.check_wf();
            v.check_wf();
            proof {
                lemma_version_total_order(x@, v@, x@);
            }
            let c = v.compare_with(x);
            c < 0 || (c == 0 && !upper)
        },
    }
}

/// The model of a segment.
pub open spec fn seg_view(s: (VersionBound, VersionBound)) -> SegModel {
    (s.0@, s.1@)
}

/// The models of a list of segments.
pub open spec fn segs_view(v: Seq<(VersionBound, VersionBound)>) -> Seq<SegModel> {
    v.map_values(|s: (VersionBound, VersionBound)| seg_view(s))
}

/// The "any" range: one segment unbounded at both ends.
pub open spec fn any_model() -> Seq<SegModel> {
    seq![(BoundModel::Unbounded, BoundModel::Unbounded)]
}

/// A set of versions made of disjoint segments of the version line, listed
/// in increasing order with a version-holding gap between neighbours.
#[derive(Debug)]
pub struct VersionRange {
    segments: Vec<(VersionBound, VersionBound)>,
}

impl View for VersionRange {
    type V = Seq<SegModel>;

    closed spec fn view(&self) -> Seq<SegModel> {
        segs_view(self.segments@)
    }
}

/// Whether two well-formed bounds are the same.
fn same_bound(a: &VersionBound, b: &VersionBound) -> (r: bool)
    requires
        bound_wf(a@),
        bound_wf(b@),
    ensures
        r == (a@ == b@),
{
    match (a, b) {
        (VersionBound::Unbounded, VersionBound::Unbounded) => true,
        (VersionBound::Included(x), VersionBound::Included(y)) => {
            proof {
                lemma_version_total_order(x@, y@, y@);
            }
            x.compare_with(y) == 0
        },
        (VersionBound::Excluded(x), VersionBound::Excluded(y)) => {
            proof {
                lemma_version_total_order(x@, y@, y@);
            }
            x.compare_with(y) == 0
        },
        _ => false,
    }
}

impl VersionRange {
    #[verifier::type_invariant]
    spec fn inv(self) -> bool {
        range_wf(segs_view(self.segments@))
    }

    /// Every range is well formed.
    pub fn check_wf(&self)
        ensures
            range_wf(self@),
    {
        proof {
            use_type_invariant(self);
        }
    }

    /// A copy of the range.
    pub fn duplicate(&self) -> (r: VersionRange)
        ensures
            r@ == self@,
    {
        proof {
            use_type_invariant(self);
        }
        let mut segments: Vec<(VersionBound, VersionBound)> = Vec::new();
        let mut i: usize = 0;
        while i < self.segments.len()
            invariant
                i <= self.segments@.len(),
                segs_view(segments@) == segs_view(self.segments@).take(i as int),
            decreases self.segments.len() - i,
        {
            let ghost before = segments@;
            let seg = &self.segments[i];
            segments.push((seg.0.duplicate(), seg.1.duplicate()));
            assert(segs_view(segments@) =~= segs_view(before).push(seg_view(*seg)));
            i = i + 1;
            assert(segs_view(segments@) =~= segs_view(self.segments@).take(i as int));
        }
        assert(segs_view(self.segments@).take(i as int) =~= segs_view(self.segments@));
        VersionRange { segments }
    }

    /// The segments of the range, in increasing order.
    pub fn as_ranges(&self) -> (r: &[(VersionBound, VersionBound)])
        ensures
            segs_view(r@) == self@,
            range_wf(self@),
    {
        proof {
            use_type_invariant(self);
        }
        self.segments.as_slice()
    }

    /// Whether the two ranges are the same list of segments.
    pub fn same_as(&self, other: &VersionRange) -> (b: bool)
        ensures
            b == (self@ == other@),
    {
        proof {
            use_type_invariant(self);
            use_type_invariant(other);
        }
        let a = &self.segments;
        let c = &other.segments;
        if a.len() != c.len() {
            assert(segs_view(a@).len() != segs_view(c@).len());
            return false;
        }
        let mut i: usize = 0;
        while i < a.len()
            invariant
                i <= a@.len(),
                a@.len() == c@.len(),
                self@ == segs_view(a@),
                other@ == segs_view(c@),
                range_wf(segs_view(a@)),
                range_wf(segs_view(c@)),
                forall|k: int| 0 <= k < i ==> segs_view(a@)[k] == segs_view(c@)[k],
            decreases a.len() - i,
        {
            assert(segs_view(a@)[i as int] == seg_view(a@[i as int]));
            assert(segs_view(c@)[i as int] == seg_view(c@[i as int]));
            assert(seg_wf(segs_view(a@)[i as int]) && seg_wf(segs_view(c@)[i as int]));
            if !same_bound(&a[i].0, &c[i].0) || !same_bound(&a[i].1, &c[i].1) {
                assert(segs_view(a@)[i as int] != segs_view(c@)[i as int]);
                return false;
            }
            i = i + 1;
        }
        assert(segs_view(a@) =~= segs_view(c@));
        true
    }

    /// The range of every version.
    pub fn any() -> (r: VersionRange)
        ensures
            r@ == any_model(),
    {
        let mut segments: Vec<(VersionBound, VersionBound)> = Vec::new();
        segments.push((VersionBound::Unbounded, VersionBound::Unbounded));
        let r = VersionRange { segments };
        assert(r@ =~= any_model());
        r
    }

    /// The range of no version.
    pub fn empty() -> (r: VersionRange)
        ensures
            r@ == Seq::<SegModel>::empty(),
    {
        let r = VersionRange { segments: Vec::new() };
        assert(r@ =~= Seq::<SegModel>::empty());
        r
    }

    /// A range of one segment, or the empty range when the bounds hold no
    /// version between them.
    fn from_bounds(lower: VersionBound, upper: VersionBound) -> (r: VersionRange)
        ensures
            seg_valid((lower@, upper@)) ==> r@ == seq![(lower@, upper@)],
            !seg_valid((lower@, upper@)) ==> r@ == Seq::<SegModel>::empty(),
    {
        lower.check_wf();
        upper.check_wf();
        if cut_less(&lower, false, &upper, true) {
            let ghost s = (lower@, upper@);
            let mut segments: Vec<(VersionBound, VersionBound)> = Vec::new();
            segments.push((lower, upper));
            let r = VersionRange { segments };
            assert(r@ =~= seq![s]);
            r
        } else {
            VersionRange::empty()
        }
    }

    /// The single version `v`.
    pub fn exact(v: &RerVersion) -> (r: VersionRange)
        ensures
            r@ == seq![(BoundModel::Included(v@), BoundModel::Included(v@))],
    {
        v.check_wf();
        proof {
            lemma_version_total_order(v@, v@, v@);
        }
        VersionRange::from_bounds(VersionBound::Included(v.duplicate()), VersionBound::Included(v.duplicate()))
    }

    /// The versions from `a` (included) to `b` (excluded); empty when `b`
    /// does not sort after `a`.
    pub fn between(a: &RerVersion, b: &RerVersion) -> (r: VersionRange)
        ensures
            version_lt(a@, b@) ==> r@ == seq![(BoundModel::Included(a@), BoundModel::Excluded(b@))],
            !version_lt(a@, b@) ==> r@ == Seq::<SegModel>::empty(),
    {
        VersionRange::from_bounds(VersionBound::Included(a.duplicate()), VersionBound::Excluded(b.duplicate()))
    }

    /// The versions from `a` (included) up.
    pub fn higher_than(a: &RerVersion) -> (r: VersionRange)
        ensures
            r@ == seq![(BoundModel::Included(a@), BoundModel::Unbounded)],
    {
        VersionRange::from_bounds(VersionBound::Included(a.duplicate()), VersionBound::Unbounded)
    }

    /// The versions below `b` (excluded).
    pub fn strictly_lower_than(b: &RerVersion) -> (r: VersionRange)
        ensures
            r@ == seq![(BoundModel::Unbounded, BoundModel::Excluded(b@))],
    {
        VersionRange::from_bounds(VersionBound::Unbounded, VersionBound::Excluded(b.duplicate()))
    }

    /// The versions up to `b` (included).
    pub fn lower_than(b: &RerVersion) -> (r: VersionRange)
        ensures
            r@ == seq![(BoundModel::Unbounded, BoundModel::Included(b@))],
    {
        VersionRange::from_bounds(VersionBound::Unbounded, VersionBound::Included(b.duplicate()))
    }

    /// Whether this is the range of every version.
    pub fn is_any(&self) -> (b: bool)
        ensures
            b == (self@ == any_model()),
    {
        let b = self.segments.len() == 1 && match (&self.segments[0].0, &self.segments[0].1) {
            (VersionBound::Unbounded, VersionBound::Unbounded) => true,
            _ => false,
        };
        proof {
            if b {
                assert(self@ =~= any_model());
            }
            if self@ == any_model() {
                assert(self@.len() == 1);
                assert(self@[0] == seg_view(self.segments@[0]));
                assert(self.segments@[0].0@ == BoundModel::Unbounded);
                assert(self.segments@[0].1@ == BoundModel::Unbounded);
            }
        }
        b
    }

    /// Whether the range holds no version.
    pub fn is_empty(&self) -> (b: bool)
        ensures
            b == (self@.len() == 0),
    {
        self.segments.len() == 0
    }

    /// Whether the range holds version `v`.
    pub fn contains(&self, v: &RerVersion) -> (b: bool)
        ensures
            b == range_contains(self@, v@),
    {
        let mut i: usize = 0;
        while i < self.segments.len()
            invariant
                i <= self.segments@.len(),
                self@ == segs_view(self.segments@),
                forall|j: int| 0 <= j < i ==> !seg_contains(#[trigger] self@[j], v@),
            decreases self.segments.len() - i,
        {
            let seg = &self.segments[i];
            assert(self@[i as int] == seg_view(self.segments@[i as int]));
            if below(&seg.0, false, v) && above(&seg.1, true, v) {
                assert(seg_contains(self@[i as int], v@));
                return true;
            }
            i = i + 1;
        }
        false
    }
}

/// The bound that starts where `b` ends, or ends where `b` starts.
fn flip_bound(b: &VersionBound) -> (r: VersionBound)
    ensures
        r@ == flip(b@),
{
    match b {
        VersionBound::Unbounded => VersionBound::Unbounded,
        VersionBound::Included(v) => VersionBound::Excluded(v.duplicate()),
        VersionBound::Excluded(v) => VersionBound::Included(v.duplicate()),
    }
}

impl VersionRange {
    /// The versions this range does not hold: its gaps, in order.
    pub fn complement(&self) -> (r: VersionRange)
        ensures
            r@ == complement_model(self@),
    {
        proof {
            use_type_invariant(self);
            lemma_complement_wf(self@);
        }
        let n = self.segments.len();
        if n == 0 {
            return VersionRange::any();
        }
        let ghost a = self@;
        let first: usize = match &self.segments[0].0 {
            VersionBound::Unbounded => 1,
            _ => 0,
        };
        let last_open = match &self.segments[n - 1].1 {
            VersionBound::Unbounded => true,
            _ => false,
        };
        assert(a[0] == seg_view(self.segments@[0]));
        assert(a[n - 1] == seg_view(self.segments@[n - 1]));
        assert(first == first_gap(a));
        assert(last_open <==> end_gap(a) == n);
        let ghost c = complement_model(a);
        let mut res: Vec<(VersionBound, VersionBound)> = Vec::new();
        let mut m: usize = first;
        while m < n
            invariant
                a == self@,
                a == segs_view(self.segments@),
                n == a.len(),
                n > 0,
                first == first_gap(a),
                first <= 1,
                c == complement_model(a),
                first <= m <= n,
                segs_view(res@) == c.take(m - first),
                end_gap(a) >= n,
                c.len() == end_gap(a) - first,
            decreases n - m,
        {
            let lower = if m == 0 {
                VersionBound::Unbounded
            } else {
                assert(a[m - 1] == seg_view(self.segments@[m - 1]));
                flip_bound(&self.segments[m - 1].1)
            };
            assert(a[m as int] == seg_view(self.segments@[m as int]));
            let upper = flip_bound(&self.segments[m].0);
            let ghost piece = (lower@, upper@);
            assert(piece == gap_piece(a, m as int));
            assert(c[m - first] == gap_piece(a, m as int));
            let ghost before = res@;
            res.push((lower, upper));
            assert(segs_view(res@) =~= segs_view(before).push(piece));
            m = m + 1;
            assert(segs_view(res@) =~= c.take(m - first));
        }
        if !last_open {
            let lower = flip_bound(&self.segments[n - 1].1);
            let upper = VersionBound::Unbounded;
            let ghost piece = (lower@, upper@);
            assert(piece == gap_piece(a, n as int));
            assert(c[n - first] == gap_piece(a, n as int));
            let ghost before = res@;
            res.push((lower, upper));
            assert(segs_view(res@) =~= segs_view(before).push(piece));
            assert(segs_view(res@) =~= c.take(n + 1 - first));
            assert(c.take(n + 1 - first) =~= c);
        } else {
            assert(c.take(n - first) =~= c);
        }
        VersionRange { segments: res }
    }

    /// Every valid overlap of a segment of this range with a segment of
    /// `other`, in order.
    fn overlaps(&self, other: &VersionRange) -> (r: VersionRange)
        ensures
            r@ == intersect_model(self@, other@),
    {
        proof {
            use_type_invariant(self);
            use_type_invariant(other);
            lemma_intersect_wf(self@, other@);
        }
        let ghost a = self@;
        let ghost b = other@;
        let mut res: Vec<(VersionBound, VersionBound)> = Vec::new();
        let mut i: usize = 0;
        while i < self.segments.len()
            invariant
                a == self@,
                b == other@,
                a == segs_view(self.segments@),
                b == segs_view(other.segments@),
                i <= a.len(),
                segs_view(res@) == intersect_upto(a, b, i as int),
            decreases self.segments.len() - i,
        {
            let s = &self.segments[i];
            assert(a[i as int] == seg_view(self.segments@[i as int]));
            let mut j: usize = 0;
            while j < other.segments.len()
                invariant
                    a == segs_view(self.segments@),
                    b == segs_view(other.segments@),
                    i < a.len(),
                    *s == self.segments@[i as int],
                    a[i as int] == seg_view(*s),
                    j <= b.len(),
                    segs_view(res@) == intersect_upto(a, b, i as int) + meets_upto(a[i as int], b, j as int),
                decreases other.segments.len() - j,
            {
                let t = &other.segments[j];
                assert(b[j as int] == seg_view(other.segments@[j as int]));
                let lower = if cut_less(&s.0, false, &t.0, false) {
                    t.0.duplicate()
                } else {
                    s.0.duplicate()
                };
                let upper = if cut_less(&s.1, true, &t.1, true) {
                    s.1.duplicate()
                } else {
                    t.1.duplicate()
                };
                let ghost m = meet(a[i as int], b[j as int]);
                assert((lower@, upper@) == m);
                let ghost before = res@;
                if cut_less(&lower, false, &upper, true) {
                    res.push((lower, upper));
                    assert(segs_view(res@) =~= segs_view(before).push(m));
                }
                j = j + 1;
                assert(segs_view(res@) =~= intersect_upto(a, b, i as int) + meets_upto(a[i as int], b, j as int));
            }
            i = i + 1;
            assert(intersect_upto(a, b, i as int) == intersect_upto(a, b, i - 1) + meets_upto(a[i - 1], b, b.len() as int));
        }
        VersionRange { segments: res }
    }

    /// The versions both ranges hold, or `None` when they share none.
    pub fn intersection(&self, other: &VersionRange) -> (r: Option<VersionRange>)
        ensures
            r is None <==> intersect_model(self@, other@).len() == 0,
            r matches Some(x) ==> x@ == intersect_model(self@, other@),
    {
        let x = self.overlaps(other);
        if x.is_empty() {
            None
        } else {
            Some(x)
        }
    }

    /// The versions either range holds.
    pub fn union(&self, other: &VersionRange) -> (r: VersionRange)
        ensures
            r@ == union_model(self@, other@),
    {
        let ca = self.complement();
        let cb = other.complement();
        ca.overlaps(&cb).complement()
    }

    /// The versions this range does not hold, or `None` for the "any" range
    /// (whose complement is empty).
    pub fn inverse(&self) -> (r: Option<VersionRange>)
        ensures
            r is None <==> self@ == any_model(),
            r matches Some(x) ==> x@ == complement_model(self@),
    {
        if self.is_any() {
            None
        } else {
            Some(self.complement())
        }
    }

    /// The versions this range holds and `other` does not: `None` when
    /// `other` is the "any" range or when no version is left.
    pub fn difference(&self, other: &VersionRange) -> (r: Option<VersionRange>)
        ensures
            r is None <==> other@ == any_model() || intersect_model(self@, complement_model(other@)).len() == 0,
            r matches Some(x) ==> x@ == intersect_model(self@, complement_model(other@)),
    {
        match other.inverse() {
            None => None,
            Some(inv) => self.intersection(&inv),
        }
    }

    /// Whether the ranges share a version.
    pub fn intersects(&self, other: &VersionRange) -> (b: bool)
        ensures
            b == (intersect_model(self@, other@).len() > 0),
    {
        !self.overlaps(other).is_empty()
    }
}

/// The segment holding only version `v`.
pub open spec fn singleton(v: VersionModel) -> SegModel {
    (BoundModel::Included(v), BoundModel::Included(v))
}

/// The versions of the single-version segments of a range, in order.
pub open spec fn exact_versions(r: Seq<SegModel>) -> Seq<VersionModel>
    decreases r.len(),
{
    if r.len() == 0 {
        Seq::empty()
    } else {
        let rest = exact_versions(r.drop_last());
        match r.last() {
            (BoundModel::Included(a), BoundModel::Included(b)) => if a == b {
                rest.push(a)
            } else {
                rest
            },
            _ => rest,
        }
    }
}

/// `r` is made of the single-version segments of the versions `vs`, each
/// once.
pub open spec fn singletons_of(r: Seq<SegModel>, vs: Seq<VersionModel>) -> bool {
    &&& forall|i: int| 0 <= i < r.len() ==> #[trigger] singleton_of_some(r[i], vs)
    &&& forall|j: int| 0 <= j < vs.len() ==> r.contains(singleton(#[trigger] vs[j]))
}

/// `s` is the single-version segment of one of the versions `vs`.
pub open spec fn singleton_of_some(s: SegModel, vs: Seq<VersionModel>) -> bool {
    exists|j: int| 0 <= j < vs.len() && s == singleton(#[trigger] vs[j])
}

/// The models of a list of versions.
pub open spec fn versions_view(v: Seq<RerVersion>) -> Seq<VersionModel> {
    v.map_values(|x: RerVersion| x@)
}

/// `a` sorts before `b` and `b` before `c`, so `a` before `c`; and the
/// strict order is asymmetric.
proof fn lemma_lt_trans(a: VersionModel, b: VersionModel, c: VersionModel)
    requires
        version_wf(a),
        version_wf(b),
        version_wf(c),
    ensures
        version_lt(a, b) && version_lt(b, c) ==> version_lt(a, c),
        version_lt(a, b) ==> !version_lt(b, a) && a != b,
        !version_lt(a, b) && a != b ==> version_lt(b, a),
{
    lemma_version_total_order(a, b, c);
    lemma_version_total_order(b, c, a);
    lemma_version_total_order(a, c, b);
    lemma_version_total_order(c, a, b);
}

/// Whether segment `s` lies within segment `t`.
fn within(s: &(VersionBound, VersionBound), t: &(VersionBound, VersionBound)) -> (b: bool)
    ensures
        b == seg_within(seg_view(*s), seg_view(*t)),
{
    s.0.check_wf();
    s.1.check_wf();
    t.0.check_wf();
    t.1.check_wf();
    proof {
        lemma_bound_cut_wf(s.0@);
        lemma_bound_cut_wf(s.1@);
        lemma_bound_cut_wf(t.0@);
        lemma_bound_cut_wf(t.1@);
        lemma_cut_order(lower_cut(s.0@), lower_cut(t.0@), lower_cut(s.0@));
        lemma_cut_order(upper_cut(s.1@), upper_cut(t.1@), upper_cut(s.1@));
    }
    !cut_less(&s.0, false, &t.0, false) && !cut_less(&t.1, true, &s.1, true)
}

/// A strictly increasing list of well-formed versions.
pub open spec fn sorted_strict(s: Seq<VersionModel>) -> bool {
    &&& forall|x: int| 0 <= x < s.len() ==> version_wf(#[trigger] s[x])
    &&& forall|x: int, y: int| 0 <= x < y < s.len() ==> version_lt(#[trigger] s[x], #[trigger] s[y])
}

/// Inserts `w` into a strictly increasing list, unless it is there already.
fn insert_sorted(vals: &mut Vec<RerVersion>, w: &RerVersion)
    requires
        sorted_strict(versions_view(old(vals)@)),
    ensures
        sorted_strict(versions_view(final(vals)@)),
        versions_view(final(vals)@).contains(w@),
        forall|y: int|
            0 <= y < old(vals)@.len() ==> versions_view(final(vals)@).contains(
                #[trigger] versions_view(old(vals)@)[y],
            ),
        forall|x: int|
            0 <= x < final(vals)@.len() ==> versions_view(final(vals)@)[x] == w@
                || versions_view(old(vals)@).contains(#[trigger] versions_view(final(vals)@)[x]),
{
    w.check_wf();
    let ghost ov = versions_view(vals@);
    let mut p: usize = 0;
    while p < vals.len() && vals[p].compare_with(w) < 0
        invariant
            p <= vals@.len(),
            ov == versions_view(vals@),
            forall|x: int| 0 <= x < p ==> version_lt(#[trigger] ov[x], w@),
        decreases vals.len() - p,
    {
        assert(ov[p as int] == vals@[p as int]@);
        p = p + 1;
    }
    if p < vals.len() && vals[p].compare_with(w) == 0 {
        proof {
            assert(ov[p as int] == vals@[p as int]@);
            lemma_version_total_order(ov[p as int], w@, w@);
            assert(ov.contains(w@));
            assert forall|y: int| 0 <= y < ov.len() implies ov.contains(#[trigger] ov[y]) by {}
        }
        return;
    }
    proof {
        if p < vals@.len() {
            assert(ov[p as int] == vals@[p as int]@);
            lemma_lt_trans(ov[p as int], w@, w@);
            lemma_version_total_order(ov[p as int], w@, w@);
            assert(version_lt(w@, ov[p as int]));
        }
    }
    vals.insert(p, w.duplicate());
    proof {
        let nv = versions_view(vals@);
        assert(nv =~= ov.insert(p as int, w@));
        assert forall|x: int| 0 <= x < nv.len() implies version_wf(#[trigger] nv[x]) by {
            if x < p {
                assert(nv[x] == ov[x]);
            } else if x > p {
                assert(nv[x] == ov[x - 1]);
            }
        }
        assert forall|x: int, y: int| 0 <= x < y < nv.len() implies version_lt(
            #[trigger] nv[x],
            #[trigger] nv[y],
        ) by {
            if y < p {
                assert(nv[x] == ov[x] && nv[y] == ov[y]);
            } else if y == p {
                assert(nv[x] == ov[x]);
            } else if x < p {
                assert(nv[x] == ov[x] && nv[y] == ov[y - 1]);
                lemma_lt_trans(ov[x], w@, ov[p as int]);
                if y - 1 > p {
                    lemma_lt_trans(ov[x], ov[p as int], ov[y - 1]);
                }
            } else if x == p {
                assert(nv[y] == ov[y - 1]);
                if y - 1 > p {
                    lemma_lt_trans(w@, ov[p as int], ov[y - 1]);
                }
            } else {
                assert(nv[x] == ov[x - 1] && nv[y] == ov[y - 1]);
            }
        }
        assert(nv[p as int] == w@);
        assert forall|y: int| 0 <= y < ov.len() implies nv.contains(#[trigger] ov[y]) by {
            if y < p {
                assert(nv[y] == ov[y]);
            } else {
                assert(nv[y + 1] == ov[y]);
            }
        }
        assert forall|x: int| 0 <= x < nv.len() implies nv[x] == w@ || ov.contains(#[trigger] nv[x]) by {
            if x < p {
                assert(nv[x] == ov[x]);
            } else if x > p {
                assert(nv[x] == ov[x - 1]);
            }
        }
    }
}

impl VersionRange {
    /// Whether every segment of `other` lies within a segment of this range.
    pub fn issuperset(&self, other: &VersionRange) -> (b: bool)
        ensures
            b == range_within(other@, self@),
    {
        let mut i: usize = 0;
        while i < other.segments.len()
            invariant
                i <= other@.len(),
                other@ == segs_view(other.segments@),
                self@ == segs_view(self.segments@),
                forall|k: int| 0 <= k < i ==> #[trigger] seg_in(other@[k], self@),
            decreases other.segments.len() - i,
        {
            assert(other@[i as int] == seg_view(other.segments@[i as int]));
            let mut j: usize = 0;
            let mut found = false;
            while j < self.segments.len()
                invariant
                    j <= self@.len(),
                    i < other@.len(),
                    other@ == segs_view(other.segments@),
                    self@ == segs_view(self.segments@),
                    other@[i as int] == seg_view(other.segments@[i as int]),
                    found ==> seg_in(other@[i as int], self@),
                    !found ==> forall|q: int| 0 <= q < j ==> !seg_within(other@[i as int], #[trigger] self@[q]),
                decreases self.segments.len() - j,
            {
                assert(self@[j as int] == seg_view(self.segments@[j as int]));
                if within(&other.segments[i], &self.segments[j]) {
                    found = true;
                }
                j = j + 1;
            }
            if !found {
                assert(!range_within(other@, self@)) by {
                    assert(!seg_in(other@[i as int], self@));
                }
                return false;
            }
            i = i + 1;
        }
        assert(other@.len() == other.segments@.len());
        assert(range_within(other@, self@));
        true
    }

    /// Whether every segment of this range lies within a segment of `other`.
    pub fn issubset(&self, other: &VersionRange) -> (b: bool)
        ensures
            b == range_within(self@, other@),
    {
        other.issuperset(self)
    }

    /// The versions from `v` up to its bump: `v` and every version that
    /// extends it (the range `3` holds `3`, `3.0` and `3.1.4`).
    pub fn from_version(v: &RerVersion) -> (r: VersionRange)
        ensures
            r@ == seq![(BoundModel::Included(v@), BoundModel::Excluded(bump_model(v@)))],
    {
        v.check_wf();
        proof {
            lemma_bump_greater(v@);
        }
        let b = v.bump();
        VersionRange::between(v, &b)
    }

    /// The range holding exactly the given versions, one single-version
    /// segment each.
    pub fn from_versions(versions: Vec<RerVersion>) -> (r: VersionRange)
        ensures
            singletons_of(r@, versions_view(versions@)),
    {
        // `vals` stays strictly increasing and holds the versions seen so far
        let mut vals: Vec<RerVersion> = Vec::new();
        let ghost all = versions_view(versions@);
        let mut k: usize = 0;
        while k < versions.len()
            invariant
                k <= versions@.len(),
                all == versions_view(versions@),
                sorted_strict(versions_view(vals@)),
                forall|x: int|
                    0 <= x < vals@.len() ==> all.take(k as int).contains(#[trigger] versions_view(vals@)[x]),
                forall|j: int| 0 <= j < k ==> versions_view(vals@).contains(#[trigger] all[j]),
            decreases versions.len() - k,
        {
            let ghost old_vals = versions_view(vals@);
            insert_sorted(&mut vals, &versions[k]);
            proof {
                let nv = versions_view(vals@);
                assert forall|x: int| 0 <= x < vals@.len() implies all.take(k + 1).contains(
                    #[trigger] versions_view(vals@)[x],
                ) by {
                    if nv[x] == all[k as int] {
                        assert(all.take(k + 1)[k as int] == all[k as int]);
                    } else {
                        let y = choose|y: int| 0 <= y < old_vals.len() && old_vals[y] == nv[x];
                        assert(all.take(k as int).contains(old_vals[y]));
                        let z = choose|z: int| 0 <= z < k && all.take(k as int)[z] == old_vals[y];
                        assert(all.take(k + 1)[z] == old_vals[y]);
                    }
                }
                assert forall|j: int| 0 <= j < k + 1 implies versions_view(vals@).contains(
                    #[trigger] all[j],
                ) by {
                    if j < k {
                        assert(old_vals.contains(all[j]));
                        let y = choose|y: int| 0 <= y < old_vals.len() && old_vals[y] == all[j];
                        assert(nv.contains(old_vals[y]));
                    }
                }
            }
            k = k + 1;
        }
        let ghost vv = versions_view(vals@);
        assert(all.take(k as int) =~= all);
        // one single-version segment per value, in order
        let mut segments: Vec<(VersionBound, VersionBound)> = Vec::new();
        let mut i: usize = 0;
        while i < vals.len()
            invariant
                i <= vals@.len(),
                vv == versions_view(vals@),
                segments@.len() == i,
                forall|x: int| 0 <= x < i ==> seg_view(#[trigger] segments@[x]) == singleton(vv[x]),
            decreases vals.len() - i,
        {
            segments.push((VersionBound::Included(vals[i].duplicate()), VersionBound::Included(vals[i].duplicate())));
            i = i + 1;
        }
        let ghost sv = segs_view(segments@);
        proof {
            assert forall|x: int| 0 <= x < sv.len() implies seg_wf(#[trigger] sv[x]) by {
                assert(sv[x] == singleton(vv[x]));
                lemma_version_total_order(vv[x], vv[x], vv[x]);
            }
            assert forall|x: int, y: int| 0 <= x < y < sv.len() implies cut_lt(
                hi(#[trigger] sv[x]),
                lo(#[trigger] sv[y]),
            ) by {
                assert(sv[x] == singleton(vv[x]));
                assert(sv[y] == singleton(vv[y]));
            }
            assert forall|x: int| 0 <= x < sv.len() implies #[trigger] singleton_of_some(sv[x], all) by {
                assert(sv[x] == singleton(vv[x]));
                assert(all.contains(vv[x]));
                let j = choose|j: int| 0 <= j < all.len() && all[j] == vv[x];
                assert(sv[x] == singleton(all[j]));
            }
            assert forall|j: int| 0 <= j < all.len() implies sv.contains(singleton(#[trigger] all[j])) by {
                assert(vv.contains(all[j]));
                let x = choose|x: int| 0 <= x < vv.len() && vv[x] == all[j];
                assert(sv[x] == singleton(vv[x]));
            }
            assert(singletons_of(sv, all));
        }
        VersionRange { segments }
    }

    /// The versions of the single-version segments, or `None` when there is
    /// none.
    pub fn to_versions(&self) -> (r: Option<Vec<RerVersion>>)
        ensures
            r is None <==> exact_versions(self@).len() == 0,
            r matches Some(vs) ==> versions_view(vs@) == exact_versions(self@),
    {
        let mut vs: Vec<RerVersion> = Vec::new();
        let mut i: usize = 0;
        while i < self.segments.len()
            invariant
                i <= self@.len(),
                self@ == segs_view(self.segments@),
                versions_view(vs@) == exact_versions(self@.take(i as int)),
            decreases self.segments.len() - i,
        {
            let seg = &self.segments[i];
            assert(self@.take(i + 1).drop_last() =~= self@.take(i as int));
            assert(self@.take(i + 1).last() == seg_view(*seg));
            let ghost before = vs@;
            match (&seg.0, &seg.1) {
                (VersionBound::Included(a), VersionBound::Included(b)) => {
                    if a.same_as(b) {
                        vs.push(a.duplicate());
                        assert(versions_view(vs@) =~= versions_view(before).push(a@));
                    }
                },
                _ => {},
            }
            i = i + 1;
        }
        assert(self@.take(i as int) =~= self@);
        if vs.len() == 0 {
            None
        } else {
            Some(vs)
        }
    }

    /// The smallest single segment covering the range (empty for the empty
    /// range).
    pub fn span(&self) -> (r: VersionRange)
        ensures
            r@ == span_model(self@),
    {
        proof {
            use_type_invariant(self);
            lemma_span(self@, crate::version_order::lowest_model());
        }
        let n = self.segments.len();
        if n == 0 {
            return VersionRange::empty();
        }
        assert(self@[0] == seg_view(self.segments@[0]));
        assert(self@[n - 1] == seg_view(self.segments@[n - 1]));
        let ghost s = span_model(self@);
        assert(seg_wf(s[0]));
        let lower = self.segments[0].0.duplicate();
        let upper = self.segments[n - 1].1.duplicate();
        let mut segments: Vec<(VersionBound, VersionBound)> = Vec::new();
        segments.push((lower, upper));
        let r = VersionRange { segments };
        assert(r@ =~= s);
        r
    }

    /// One range per segment, in order.
    pub fn split(&self) -> (parts: Vec<VersionRange>)
        ensures
            parts@.len() == self@.len(),
            forall|i: int| 0 <= i < parts@.len() ==> #[trigger] parts@[i]@ == seq![self@[i]],
    {
        proof {
            use_type_invariant(self);
        }
        let mut parts: Vec<VersionRange> = Vec::new();
        let mut i: usize = 0;
        while i < self.segments.len()
            invariant
                i <= self@.len(),
                self@ == segs_view(self.segments@),
                range_wf(self@),
                parts@.len() == i,
                forall|x: int| 0 <= x < i ==> #[trigger] parts@[x]@ == seq![self@[x]],
            decreases self.segments.len() - i,
        {
            let seg = &self.segments[i];
            assert(self@[i as int] == seg_view(*seg));
            assert(seg_wf(self@[i as int]));
            let mut segments: Vec<(VersionBound, VersionBound)> = Vec::new();
            segments.push((seg.0.duplicate(), seg.1.duplicate()));
            let part = VersionRange { segments };
            assert(part@ =~= seq![self@[i as int]]);
            parts.push(part);
            i = i + 1;
        }
        parts
    }
}

/// The text of a lower bound: `v+` when included, `>v` when excluded,
/// nothing when unbounded.
pub open spec fn lower_text(b: BoundModel) -> Seq<char> {
    match b {
        BoundModel::Unbounded => Seq::empty(),
        BoundModel::Included(v) => version_text(v).push('+'),
        BoundModel::Excluded(v) => seq!['>'] + version_text(v),
    }
}

/// The text of an upper bound in the general form: `<=v` or `<v`.
pub open spec fn upper_text(u: VersionModel, inclusive: bool) -> Seq<char> {
    if inclusive {
        seq!['<', '='] + version_text(u)
    } else {
        seq!['<'] + version_text(u)
    }
}

/// The text of a segment with the upper bound version `u`: `==v` for a
/// single version, `a..b` when both ends are included, `v` for the
/// versions from `v` to its bump, and otherwise the lower bound's text
/// followed by the upper bound's.
pub open spec fn bounded_text(lower: BoundModel, u: VersionModel, upper_inclusive: bool) -> Seq<char> {
    match lower {
        BoundModel::Unbounded => upper_text(u, upper_inclusive),
        BoundModel::Included(l) => if l == u {
            seq!['=', '='] + version_text(u)
        } else if upper_inclusive {
            version_text(l) + seq!['.', '.'] + version_text(u)
        } else if bump_model(l) == u {
            version_text(l)
        } else {
            lower_text(lower) + upper_text(u, upper_inclusive)
        },
        BoundModel::Excluded(l) => if l == u {
            seq!['=', '='] + version_text(u)
        } else {
            lower_text(lower) + upper_text(u, upper_inclusive)
        },
    }
}

/// The text of a segment in rez's range syntax.
pub open spec fn segment_text(s: SegModel) -> Seq<char> {
    match s.1 {
        BoundModel::Unbounded => lower_text(s.0),
        BoundModel::Included(u) => bounded_text(s.0, u, true),
        BoundModel::Excluded(u) => bounded_text(s.0, u, false),
    }
}

/// The texts of the segments joined by `|`.
pub open spec fn range_text(r: Seq<SegModel>) -> Seq<char>
    decreases r.len(),
{
    if r.len() == 0 {
        Seq::empty()
    } else if r.len() == 1 {
        segment_text(r[0])
    } else {
        range_text(r.drop_last()).push('|') + segment_text(r.last())
    }
}

/// Appends the characters of `s`.
fn push_chars(out: &mut Vec<char>, s: &[char])
    ensures
        final(out)@ == old(out)@ + s@,
{
    let mut i: usize = 0;
    while i < s.len()
        invariant
            i <= s@.len(),
            out@ == old(out)@ + s@.take(i as int),
        decreases s.len() - i,
    {
        out.push(s[i]);
        i = i + 1;
        assert(out@ =~= old(out)@ + s@.take(i as int));
    }
    assert(s@.take(i as int) =~= s@);
}

/// Appends the text of a version.
fn push_version(out: &mut Vec<char>, v: &RerVersion)
    ensures
        final(out)@ == old(out)@ + version_text(v@),
{
    let t = v.to_string();
    let cs = chars_of(t.as_str());
    push_chars(out, cs.as_slice());
}

/// Appends the text of a lower bound.
fn push_lower(out: &mut Vec<char>, b: &VersionBound)
    ensures
        final(out)@ == old(out)@ + lower_text(b@),
{
    match b {
        VersionBound::Unbounded => {
            assert(old(out)@ + lower_text(b@) =~= old(out)@);
        },
        VersionBound::Included(v) => {
            push_version(out, v);
            out.push('+');
            assert(out@ =~= old(out)@ + lower_text(b@));
        },
        VersionBound::Excluded(v) => {
            out.push('>');
            push_version(out, v);
            assert(out@ =~= old(out)@ + lower_text(b@));
        },
    }
}

/// Appends the general text of an upper bound.
fn push_upper(out: &mut Vec<char>, u: &RerVersion, inclusive: bool)
    ensures
        final(out)@ == old(out)@ + upper_text(u@, inclusive),
{
    out.push('<');
    if inclusive {
        out.push('=');
    }
    let ghost mid = out@;
    push_version(out, u);
    assert(out@ =~= old(out)@ + upper_text(u@, inclusive));
}

/// The text of one segment in rez's range syntax (`3+`, `>3`, `<3`,
/// `==3`, `1..2`, `3`, `3+<5`).
fn format_segment(lower: &VersionBound, upper: &VersionBound) -> (s: Vec<char>)
    ensures
        s@ == segment_text((lower@, upper@)),
{
    let mut out: Vec<char> = Vec::new();
    let (u, upper_inclusive) = match upper {
        VersionBound::Unbounded => {
            push_lower(&mut out, lower);
            assert(out@ =~= segment_text((lower@, upper@)));
            return out;
        },
        VersionBound::Included(u) => (u, true),
        VersionBound::Excluded(u) => (u, false),
    };
    assert(segment_text((lower@, upper@)) == bounded_text(lower@, u@, upper_inclusive));
    match lower {
        VersionBound::Unbounded => {
            push_upper(&mut out, u, upper_inclusive);
        },
        VersionBound::Included(l) => {
            if l.same_as(u) {
                out.push('=');
                out.push('=');
                push_version(&mut out, u);
            } else if upper_inclusive {
                push_version(&mut out, l);
                out.push('.');
                out.push('.');
                push_version(&mut out, u);
            } else if l.bump().same_as(u) {
                push_version(&mut out, l);
            } else {
                push_lower(&mut out, lower);
                push_upper(&mut out, u, upper_inclusive);
            }
        },
        VersionBound::Excluded(l) => {
            if l.same_as(u) {
                out.push('=');
                out.push('=');
                push_version(&mut out, u);
            } else {
                push_lower(&mut out, lower);
                push_upper(&mut out, u, upper_inclusive);
            }
        },
    }
    assert(out@ =~= bounded_text(lower@, u@, upper_inclusive));
    out
}

impl VersionRange {
    /// The range in rez's range syntax: its segments' texts joined by `|`
    /// (the "any" range prints as the empty string).
    pub fn to_string(&self) -> (s: String)
        ensures
            s@ == range_text(self@),
    {
        let mut out: Vec<char> = Vec::new();
        let mut i: usize = 0;
        while i < self.segments.len()
            invariant
                i <= self@.len(),
                self@ == segs_view(self.segments@),
                out@ == range_text(self@.take(i as int)),
            decreases self.segments.len() - i,
        {
            let seg = &self.segments[i];
            assert(self@[i as int] == seg_view(*seg));
            assert(self@.take(i + 1).drop_last() =~= self@.take(i as int));
            assert(self@.take(i + 1).last() == self@[i as int]);
            if i > 0 {
                out.push('|');
            }
            let t = format_segment(&seg.0, &seg.1);
            push_chars(&mut out, t.as_slice());
            proof {
                if i == 0 {
                    assert(self@.take(1) =~= seq![self@[0]]);
                }
            }
            i = i + 1;
        }
        assert(self@.take(i as int) =~= self@);
        string_from_chars(out.as_slice())
    }
}

} // verus!
