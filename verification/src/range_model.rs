//! The mathematical model of a version range: a sorted list of segments,
//! each bounded below and above by an unbounded, inclusive or exclusive
//! bound.
//!
//! Every bound is a *cut* of the version line: just before a version, just
//! after it, or at either end. A lower bound `Included(v)` cuts just before
//! `v`, `Excluded(v)` just after; an upper bound `Included(v)` cuts just
//! after `v`, `Excluded(v)` just before. A segment holds the versions
//! between its two cuts; a well-formed range lists its segments with their
//! cuts strictly increasing.
use vstd::prelude::*;
use crate::version_order::{VersionModel, version_wf, version_lt, version_le, lemma_version_total_order, lowest_model};

verus! {

/// A bound of a segment.
pub enum BoundModel {
    Unbounded,
    Included(VersionModel),
    Excluded(VersionModel),
}

/// A segment: lower bound, upper bound.
pub type SegModel = (BoundModel, BoundModel);

/// A cut of the version line: below everything, just before or just after
/// (`true`) a version, or above everything.
pub enum Cut {
    NegInf,
    At(VersionModel, bool),
    PosInf,
}

/// The cut made by a lower bound.
pub open spec fn lower_cut(b: BoundModel) -> Cut {
    match b {
        BoundModel::Unbounded => Cut::NegInf,
        BoundModel::Included(x) => Cut::At(x, false),
        BoundModel::Excluded(x) => Cut::At(x, true),
    }
}

/// The cut made by an upper bound.
pub open spec fn upper_cut(b: BoundModel) -> Cut {
    match b {
        BoundModel::Unbounded => Cut::PosInf,
        BoundModel::Included(x) => Cut::At(x, true),
        BoundModel::Excluded(x) => Cut::At(x, false),
    }
}

/// The bounded version of a cut is well formed.
pub open spec fn cut_wf(c: Cut) -> bool {
    match c {
        Cut::At(x, _) => version_wf(x),
        _ => true,
    }
}

pub open spec fn bound_wf(b: BoundModel) -> bool {
    match b {
        BoundModel::Included(x) => version_wf(x),
        BoundModel::Excluded(x) => version_wf(x),
        BoundModel::Unbounded => true,
    }
}

/// Strict order of cuts.
pub open spec fn cut_lt(a: Cut, b: Cut) -> bool {
    match (a, b) {
        (Cut::NegInf, Cut::NegInf) => false,
        (Cut::NegInf, _) => true,
        (_, Cut::NegInf) => false,
        (Cut::PosInf, _) => false,
        (_, Cut::PosInf) => true,
        (Cut::At(x, p), Cut::At(y, q)) => version_lt(x, y) || (x == y && !p && q),
    }
}

pub open spec fn cut_le(a: Cut, b: Cut) -> bool {
    a == b || cut_lt(a, b)
}

/// The cut lies below version `v`.
pub open spec fn cut_below(c: Cut, v: VersionModel) -> bool {
    match c {
        Cut::NegInf => true,
        Cut::PosInf => false,
        Cut::At(x, after) => version_lt(x, v) || (x == v && !after),
    }
}

/// The cut lies above version `v`.
pub open spec fn cut_above(c: Cut, v: VersionModel) -> bool {
    match c {
        Cut::NegInf => false,
        Cut::PosInf => true,
        Cut::At(x, after) => version_lt(v, x) || (x == v && after),
    }
}

pub open spec fn lo(s: SegModel) -> Cut {
    lower_cut(s.0)
}

pub open spec fn hi(s: SegModel) -> Cut {
    upper_cut(s.1)
}

/// The segment holds version `v`.
pub open spec fn seg_contains(s: SegModel, v: VersionModel) -> bool {
    cut_below(lo(s), v) && cut_above(hi(s), v)
}

/// The range holds version `v`.
pub open spec fn range_contains(r: Seq<SegModel>, v: VersionModel) -> bool {
    exists|i: int| 0 <= i < r.len() && seg_contains(#[trigger] r[i], v)
}

/// A segment whose lower cut lies below its upper cut.
pub open spec fn seg_valid(s: SegModel) -> bool {
    cut_lt(lo(s), hi(s))
}

pub open spec fn seg_wf(s: SegModel) -> bool {
    &&& bound_wf(s.0)
    &&& bound_wf(s.1)
    &&& seg_valid(s)
}

/// A well-formed range: valid segments, each one's upper cut strictly below
/// the next one's lower cut.
pub open spec fn range_wf(r: Seq<SegModel>) -> bool {
    &&& forall|i: int| 0 <= i < r.len() ==> seg_wf(#[trigger] r[i])
    &&& forall|i: int, j: int| 0 <= i < j < r.len() ==> cut_lt(hi(#[trigger] r[i]), lo(#[trigger] r[j]))
}

pub proof fn lemma_bound_cut_wf(b: BoundModel)
    ensures
        bound_wf(b) ==> cut_wf(lower_cut(b)) && cut_wf(upper_cut(b)),
{
}

/// The order of cuts is a strict total order.
pub proof fn lemma_cut_order(a: Cut, b: Cut, c: Cut)
    requires
        cut_wf(a),
        cut_wf(b),
        cut_wf(c),
    ensures
        !cut_lt(a, a),
        cut_lt(a, b) || a == b || cut_lt(b, a),
        !(cut_lt(a, b) && cut_lt(b, a)),
        cut_lt(a, b) && cut_lt(b, c) ==> cut_lt(a, c),
{
    if let (Cut::At(x, p), Cut::At(y, q), Cut::At(z, r)) = (a, b, c) {
        lemma_version_total_order(x, y, z);
        lemma_version_total_order(y, z, x);
        lemma_version_total_order(x, z, y);
        lemma_version_total_order(x, x, x);
    } else if let (Cut::At(x, p), Cut::At(y, q)) = (a, b) {
        lemma_version_total_order(x, y, x);
        lemma_version_total_order(x, x, x);
    } else if let Cut::At(x, p) = a {
        lemma_version_total_order(x, x, x);
    }
}

/// Where a cut lies relative to a version, and how that follows the order
/// of cuts.
pub proof fn lemma_cut_point(a: Cut, b: Cut, v: VersionModel)
    requires
        cut_wf(a),
        cut_wf(b),
        version_wf(v),
    ensures
        cut_below(a, v) != cut_above(a, v),
        cut_le(a, b) && cut_below(b, v) ==> cut_below(a, v),
        cut_le(a, b) && cut_above(a, v) ==> cut_above(b, v),
        cut_below(a, v) && cut_above(b, v) ==> cut_lt(a, b),
{
    if let (Cut::At(x, p), Cut::At(y, q)) = (a, b) {
        lemma_version_total_order(x, y, v);
        lemma_version_total_order(y, v, x);
        lemma_version_total_order(v, x, y);
        lemma_version_total_order(x, v, y);
        lemma_version_total_order(y, x, v);
        lemma_version_total_order(v, y, x);
    } else if let Cut::At(x, p) = a {
        lemma_version_total_order(x, v, x);
    } else if let Cut::At(y, q) = b {
        lemma_version_total_order(y, v, y);
    }
}

/// In a well-formed range the segments' cuts increase: earlier segments
/// lie entirely below later ones.
pub proof fn lemma_sorted(r: Seq<SegModel>, i: int, j: int)
    requires
        range_wf(r),
        0 <= i <= j < r.len(),
    ensures
        cut_le(lo(r[i]), lo(r[j])),
        cut_le(hi(r[i]), hi(r[j])),
        cut_lt(lo(r[i]), hi(r[j])),
        i < j ==> cut_lt(hi(r[i]), lo(r[j])),
        cut_wf(lo(r[i])) && cut_wf(hi(r[i])) && cut_wf(lo(r[j])) && cut_wf(hi(r[j])),
{
    assert(seg_wf(r[i]) && seg_wf(r[j]));
    lemma_bound_cut_wf(r[i].0);
    lemma_bound_cut_wf(r[i].1);
    lemma_bound_cut_wf(r[j].0);
    lemma_bound_cut_wf(r[j].1);
    if i < j {
        assert(cut_lt(hi(r[i]), lo(r[j])));
        lemma_cut_order(lo(r[i]), hi(r[i]), lo(r[j]));
        lemma_cut_order(lo(r[i]), lo(r[j]), hi(r[j]));
        lemma_cut_order(hi(r[i]), lo(r[j]), hi(r[j]));
    } else {
        assert(r[i] == r[j]);
    }
}

/// The first segment of `r` (from `i` on) whose upper cut lies above `v`,
/// or `r.len()` when there is none.
pub proof fn first_above(r: Seq<SegModel>, v: VersionModel, i: int) -> (k: int)
    requires
        0 <= i <= r.len(),
    ensures
        i <= k <= r.len(),
        forall|t: int| i <= t < k ==> !cut_above(hi(#[trigger] r[t]), v),
        k < r.len() ==> cut_above(hi(r[k]), v),
    decreases r.len() - i,
{
    if i == r.len() {
        i
    } else if cut_above(hi(r[i]), v) {
        i
    } else {
        first_above(r, v, i + 1)
    }
}

/// Lower bound turned into the matching upper bound and back.
pub open spec fn flip(b: BoundModel) -> BoundModel {
    match b {
        BoundModel::Unbounded => BoundModel::Unbounded,
        BoundModel::Included(x) => BoundModel::Excluded(x),
        BoundModel::Excluded(x) => BoundModel::Included(x),
    }
}

/// The `m`-th gap of `r`: from the end of segment `m - 1` (or the bottom)
/// to the start of segment `m` (or the top).
pub open spec fn gap_piece(r: Seq<SegModel>, m: int) -> SegModel {
    (
        if m == 0 {
            BoundModel::Unbounded
        } else {
            flip(r[m - 1].1)
        },
        if m == r.len() {
            BoundModel::Unbounded
        } else {
            flip(r[m].0)
        },
    )
}

/// Index of the first gap that is not empty: the gap below the first
/// segment is empty when that segment is unbounded below.
pub open spec fn first_gap(r: Seq<SegModel>) -> int {
    if r[0].0 is Unbounded {
        1
    } else {
        0
    }
}

/// One past the index of the last gap that is not empty.
pub open spec fn end_gap(r: Seq<SegModel>) -> int {
    if r[r.len() - 1].1 is Unbounded {
        r.len() as int
    } else {
        r.len() as int + 1
    }
}

/// The complement of a range: its gaps, in order.
pub open spec fn complement_model(r: Seq<SegModel>) -> Seq<SegModel> {
    if r.len() == 0 {
        seq![(BoundModel::Unbounded, BoundModel::Unbounded)]
    } else {
        Seq::new((end_gap(r) - first_gap(r)) as nat, |k: int| gap_piece(r, k + first_gap(r)))
    }
}

proof fn lemma_flip_cuts(b: BoundModel)
    ensures
        !(b is Unbounded) ==> lower_cut(flip(b)) == upper_cut(b) && upper_cut(flip(b))
            == lower_cut(b),
        bound_wf(b) ==> bound_wf(flip(b)),
{
}

proof fn lemma_gap_piece_cuts(r: Seq<SegModel>, m: int)
    requires
        range_wf(r),
        r.len() > 0,
        first_gap(r) <= m < end_gap(r),
    ensures
        m == 0 ==> lo(gap_piece(r, m)) == Cut::NegInf,
        m > 0 ==> lo(gap_piece(r, m)) == hi(r[m - 1]),
        m == r.len() ==> hi(gap_piece(r, m)) == Cut::PosInf,
        m < r.len() ==> hi(gap_piece(r, m)) == lo(r[m]),
        seg_wf(gap_piece(r, m)),
{
    let n = r.len() as int;
    if m > 0 {
        assert(seg_wf(r[m - 1]));
        lemma_flip_cuts(r[m - 1].1);
        if m - 1 == n - 1 {
            assert(!(r[n - 1].1 is Unbounded));
        } else {
            lemma_sorted(r, m - 1, m);
            assert(!(r[m - 1].1 is Unbounded));
        }
    }
    if m < n {
        assert(seg_wf(r[m]));
        lemma_flip_cuts(r[m].0);
        if m == 0 {
            assert(!(r[0].0 is Unbounded));
        } else {
            lemma_sorted(r, m - 1, m);
        }
    }
    let g = gap_piece(r, m);
    if m > 0 && m < n {
        lemma_sorted(r, m - 1, m);
    }
    if m == 0 && m < n {
        lemma_sorted(r, 0, 0);
    }
    if m > 0 && m == n {
        lemma_sorted(r, m - 1, m - 1);
    }
}

/// The complement of a well-formed range is well formed, and holds exactly
/// the versions that the range does not hold.
pub proof fn lemma_complement(r: Seq<SegModel>, v: VersionModel)
    requires
        range_wf(r),
        version_wf(v),
    ensures
        range_wf(complement_model(r)),
        range_contains(complement_model(r), v) <==> !range_contains(r, v),
{
    let c = complement_model(r);
    let n = r.len() as int;
    if n == 0 {
        assert(seg_contains(c[0], v));
        return;
    }
    let f = first_gap(r);
    // the pieces are well formed and sorted
    assert forall|k: int| 0 <= k < c.len() implies seg_wf(#[trigger] c[k]) by {
        lemma_gap_piece_cuts(r, k + f);
    }
    assert forall|a: int, b: int| 0 <= a < b < c.len() implies cut_lt(
        hi(#[trigger] c[a]),
        lo(#[trigger] c[b]),
    ) by {
        let ma = a + f;
        let mb = b + f;
        lemma_gap_piece_cuts(r, ma);
        lemma_gap_piece_cuts(r, mb);
        // hi(c[a]) == lo(r[ma]) and lo(c[b]) == hi(r[mb - 1]), with ma <= mb - 1
        lemma_sorted(r, ma, mb - 1);
    }
    // membership
    if range_contains(r, v) {
        let i = choose|i: int| 0 <= i < r.len() && seg_contains(#[trigger] r[i], v);
        if range_contains(c, v) {
            let k = choose|k: int| 0 <= k < c.len() && seg_contains(#[trigger] c[k], v);
            let m = k + f;
            lemma_gap_piece_cuts(r, m);
            if i <= m - 1 {
                lemma_sorted(r, i, m - 1);
                lemma_cut_point(hi(r[i]), hi(r[m - 1]), v);
            } else {
                lemma_sorted(r, m, i);
                lemma_cut_point(lo(r[m]), lo(r[i]), v);
            }
        }
    } else {
        let k = first_above(r, v, 0);
        if k < n {
            lemma_sorted(r, k, k);
            lemma_cut_point(lo(r[k]), hi(r[k]), v);
            assert(!seg_contains(r[k], v));
        }
        if k > 0 {
            lemma_sorted(r, k - 1, k - 1);
            lemma_cut_point(hi(r[k - 1]), hi(r[k - 1]), v);
        }
        // gap `k` holds `v`, and it is one of the pieces
        if k == 0 {
            if r[0].0 is Unbounded {
                assert(cut_below(lo(r[0]), v));
                assert(seg_contains(r[0], v));
            }
        }
        if k == n {
            if r[n - 1].1 is Unbounded {
                assert(cut_above(hi(r[n - 1]), v));
            }
        }
        assert(f <= k < end_gap(r));
        lemma_gap_piece_cuts(r, k);
        assert(c[k - f] == gap_piece(r, k));
        assert(seg_contains(c[k - f], v));
    }
}


/// The higher of two lower bounds.
pub open spec fn max_lower(a: BoundModel, b: BoundModel) -> BoundModel {
    if cut_lt(lower_cut(a), lower_cut(b)) {
        b
    } else {
        a
    }
}

/// The lower of two upper bounds.
pub open spec fn min_upper(a: BoundModel, b: BoundModel) -> BoundModel {
    if cut_lt(upper_cut(a), upper_cut(b)) {
        a
    } else {
        b
    }
}

/// The overlap of two segments (possibly not a valid segment).
pub open spec fn meet(s: SegModel, t: SegModel) -> SegModel {
    (max_lower(s.0, t.0), min_upper(s.1, t.1))
}

/// The valid overlaps of `s` with `b[0..j]`, in order.
pub open spec fn meets_upto(s: SegModel, b: Seq<SegModel>, j: int) -> Seq<SegModel>
    decreases j,
{
    if j <= 0 {
        Seq::empty()
    } else if seg_valid(meet(s, b[j - 1])) {
        meets_upto(s, b, j - 1).push(meet(s, b[j - 1]))
    } else {
        meets_upto(s, b, j - 1)
    }
}

/// The valid overlaps of the segments `a[0..i]` with those of `b`, in
/// order.
pub open spec fn intersect_upto(a: Seq<SegModel>, b: Seq<SegModel>, i: int) -> Seq<SegModel>
    decreases i,
{
    if i <= 0 {
        Seq::empty()
    } else {
        intersect_upto(a, b, i - 1) + meets_upto(a[i - 1], b, b.len() as int)
    }
}

/// The intersection of two ranges: every valid overlap of a segment of `a`
/// with a segment of `b`, in order.
pub open spec fn intersect_model(a: Seq<SegModel>, b: Seq<SegModel>) -> Seq<SegModel> {
    intersect_upto(a, b, a.len() as int)
}

pub proof fn lemma_meet(s: SegModel, t: SegModel, v: VersionModel)
    requires
        seg_wf(s),
        seg_wf(t),
        version_wf(v),
    ensures
        seg_contains(meet(s, t), v) <==> seg_contains(s, v) && seg_contains(t, v),
        bound_wf(meet(s, t).0) && bound_wf(meet(s, t).1),
        lo(meet(s, t)) == lo(s) || lo(meet(s, t)) == lo(t),
        hi(meet(s, t)) == hi(s) || hi(meet(s, t)) == hi(t),
        cut_le(lo(s), lo(meet(s, t))) && cut_le(lo(t), lo(meet(s, t))),
        cut_le(hi(meet(s, t)), hi(s)) && cut_le(hi(meet(s, t)), hi(t)),
        !seg_valid(meet(s, t)) ==> !seg_contains(meet(s, t), v),
{
    lemma_bound_cut_wf(s.0);
    lemma_bound_cut_wf(s.1);
    lemma_bound_cut_wf(t.0);
    lemma_bound_cut_wf(t.1);
    lemma_cut_order(lo(s), lo(t), lo(s));
    lemma_cut_order(hi(s), hi(t), hi(s));
    lemma_cut_point(lo(s), lo(t), v);
    lemma_cut_point(lo(t), lo(s), v);
    lemma_cut_point(hi(s), hi(t), v);
    lemma_cut_point(hi(t), hi(s), v);
    let m = meet(s, t);
    lemma_cut_point(lo(m), hi(m), v);
}

proof fn lemma_contains_push(r: Seq<SegModel>, x: SegModel, v: VersionModel)
    ensures
        range_contains(r.push(x), v) <==> range_contains(r, v) || seg_contains(x, v),
{
    let r2 = r.push(x);
    if range_contains(r, v) {
        let i = choose|i: int| 0 <= i < r.len() && seg_contains(#[trigger] r[i], v);
        assert(r2[i] == r[i]);
    }
    if seg_contains(x, v) {
        assert(r2[r.len() as int] == x);
    }
    if range_contains(r2, v) {
        let i = choose|i: int| 0 <= i < r2.len() && seg_contains(#[trigger] r2[i], v);
        if i < r.len() {
            assert(r2[i] == r[i]);
        }
    }
}

proof fn lemma_contains_concat(x: Seq<SegModel>, y: Seq<SegModel>, v: VersionModel)
    ensures
        range_contains(x + y, v) <==> range_contains(x, v) || range_contains(y, v),
{
    let z = x + y;
    if range_contains(x, v) {
        let i = choose|i: int| 0 <= i < x.len() && seg_contains(#[trigger] x[i], v);
        assert(z[i] == x[i]);
    }
    if range_contains(y, v) {
        let i = choose|i: int| 0 <= i < y.len() && seg_contains(#[trigger] y[i], v);
        assert(z[x.len() + i] == y[i]);
    }
    if range_contains(z, v) {
        let i = choose|i: int| 0 <= i < z.len() && seg_contains(#[trigger] z[i], v);
        if i < x.len() {
            assert(z[i] == x[i]);
        } else {
            assert(z[i] == y[i - x.len()]);
        }
    }
}

proof fn lemma_wf_concat(x: Seq<SegModel>, y: Seq<SegModel>)
    requires
        range_wf(x),
        range_wf(y),
        forall|i: int, j: int|
            0 <= i < x.len() && 0 <= j < y.len() ==> cut_lt(hi(#[trigger] x[i]), lo(#[trigger] y[j])),
    ensures
        range_wf(x + y),
{
    let z = x + y;
    assert forall|i: int| 0 <= i < z.len() implies seg_wf(#[trigger] z[i]) by {
        if i < x.len() {
            assert(z[i] == x[i]);
        } else {
            assert(z[i] == y[i - x.len()]);
        }
    }
    assert forall|i: int, j: int| 0 <= i < j < z.len() implies cut_lt(
        hi(#[trigger] z[i]),
        lo(#[trigger] z[j]),
    ) by {
        if j < x.len() {
            assert(z[i] == x[i] && z[j] == x[j]);
        } else if i >= x.len() {
            assert(z[i] == y[i - x.len()] && z[j] == y[j - x.len()]);
        } else {
            assert(z[i] == x[i] && z[j] == y[j - x.len()]);
        }
    }
}

/// The overlaps of one segment with a range.
proof fn lemma_meets_upto(s: SegModel, b: Seq<SegModel>, j: int, v: VersionModel)
    requires
        seg_wf(s),
        range_wf(b),
        0 <= j <= b.len(),
        version_wf(v),
    ensures
        range_wf(meets_upto(s, b, j)),
        forall|k: int|
            0 <= k < meets_upto(s, b, j).len() ==> cut_le(lo(s), lo(#[trigger] meets_upto(s, b, j)[k]))
                && cut_le(hi(meets_upto(s, b, j)[k]), hi(s)),
        j > 0 ==> forall|k: int|
            0 <= k < meets_upto(s, b, j).len() ==> cut_le(
                hi(#[trigger] meets_upto(s, b, j)[k]),
                hi(b[j - 1]),
            ),
        range_contains(meets_upto(s, b, j), v) <==> seg_contains(s, v) && exists|t: int|
            0 <= t < j && seg_contains(#[trigger] b[t], v),
    decreases j,
{
    if j == 0 {
        return;
    }
    lemma_meets_upto(s, b, j - 1, v);
    let prev = meets_upto(s, b, j - 1);
    let t = b[j - 1];
    assert(seg_wf(t));
    let m = meet(s, t);
    lemma_meet(s, t, v);
    lemma_bound_cut_wf(s.0);
    lemma_bound_cut_wf(s.1);
    lemma_bound_cut_wf(t.0);
    lemma_bound_cut_wf(t.1);
    lemma_bound_cut_wf(m.0);
    lemma_bound_cut_wf(m.1);
    let cur = meets_upto(s, b, j);
    // the bound on `hi` moves up to `b[j - 1]`
    if j >= 2 {
        lemma_sorted(b, j - 2, j - 1);
    }
    assert forall|k: int| 0 <= k < prev.len() implies cut_le(hi(#[trigger] prev[k]), hi(b[j - 1]))
        by {
        if j >= 2 {
            assert(seg_wf(prev[k]));
            lemma_bound_cut_wf(prev[k].1);
            lemma_cut_order(hi(prev[k]), hi(b[j - 2]), hi(b[j - 1]));
        }
    }
    if seg_valid(m) {
        assert(cur == prev.push(m));
        // every earlier overlap ends below the start of `b[j - 1]`
        assert forall|k: int| 0 <= k < prev.len() implies cut_lt(hi(#[trigger] prev[k]), lo(m)) by {
            assert(j >= 2);
            assert(seg_wf(prev[k]));
            lemma_bound_cut_wf(prev[k].1);
            lemma_cut_order(hi(prev[k]), hi(b[j - 2]), lo(t));
            lemma_cut_order(hi(prev[k]), lo(t), lo(m));
        }
        assert(range_wf(cur)) by {
            assert forall|k: int| 0 <= k < cur.len() implies seg_wf(#[trigger] cur[k]) by {
                if k < prev.len() {
                    assert(cur[k] == prev[k]);
                }
            }
            assert forall|x: int, y: int| 0 <= x < y < cur.len() implies cut_lt(
                hi(#[trigger] cur[x]),
                lo(#[trigger] cur[y]),
            ) by {
                assert(cur[x] == prev[x]);
                if y < prev.len() {
                    assert(cur[y] == prev[y]);
                }
            }
        }
        assert forall|k: int| 0 <= k < cur.len() implies cut_le(lo(s), lo(#[trigger] cur[k]))
            && cut_le(hi(cur[k]), hi(s)) && cut_le(hi(cur[k]), hi(b[j - 1])) by {
            if k < prev.len() {
                assert(cur[k] == prev[k]);
            }
        }
        lemma_contains_push(prev, m, v);
    } else {
        assert(cur == prev);
    }
    if seg_contains(s, v) && exists|q: int| 0 <= q < j && seg_contains(#[trigger] b[q], v) {
        let q = choose|q: int| 0 <= q < j && seg_contains(#[trigger] b[q], v);
        if q < j - 1 {
            assert(exists|q2: int| 0 <= q2 < j - 1 && seg_contains(#[trigger] b[q2], v));
        }
    }
    if exists|q: int| 0 <= q < j - 1 && seg_contains(#[trigger] b[q], v) {
        let q = choose|q: int| 0 <= q < j - 1 && seg_contains(#[trigger] b[q], v);
        assert(0 <= q < j && seg_contains(b[q], v));
    }
    if seg_contains(t, v) {
        assert(seg_contains(b[j - 1], v));
    }
}

/// The intersection of two well-formed ranges is well formed, and holds
/// exactly the versions that both hold.
pub proof fn lemma_intersect_upto(a: Seq<SegModel>, b: Seq<SegModel>, i: int, v: VersionModel)
    requires
        range_wf(a),
        range_wf(b),
        0 <= i <= a.len(),
        version_wf(v),
    ensures
        range_wf(intersect_upto(a, b, i)),
        i > 0 ==> forall|k: int|
            0 <= k < intersect_upto(a, b, i).len() ==> cut_le(
                hi(#[trigger] intersect_upto(a, b, i)[k]),
                hi(a[i - 1]),
            ),
        range_contains(intersect_upto(a, b, i), v) <==> range_contains(b, v) && exists|t: int|
            0 <= t < i && seg_contains(#[trigger] a[t], v),
    decreases i,
{
    if i == 0 {
        return;
    }
    lemma_intersect_upto(a, b, i - 1, v);
    let x = intersect_upto(a, b, i - 1);
    let s = a[i - 1];
    assert(seg_wf(s));
    let nb = b.len() as int;
    lemma_meets_upto(s, b, nb, v);
    let y = meets_upto(s, b, nb);
    lemma_bound_cut_wf(s.0);
    lemma_bound_cut_wf(s.1);
    if i >= 2 {
        lemma_sorted(a, i - 2, i - 1);
    }
    assert forall|p: int, q: int| 0 <= p < x.len() && 0 <= q < y.len() implies cut_lt(
        hi(#[trigger] x[p]),
        lo(#[trigger] y[q]),
    ) by {
        assert(i >= 2);
        assert(seg_wf(x[p]) && seg_wf(y[q]));
        lemma_bound_cut_wf(x[p].1);
        lemma_bound_cut_wf(y[q].0);
        lemma_cut_order(hi(x[p]), hi(a[i - 2]), lo(s));
        lemma_cut_order(hi(x[p]), lo(s), lo(y[q]));
    }
    lemma_wf_concat(x, y);
    let z = intersect_upto(a, b, i);
    assert(z == x + y);
    assert forall|k: int| 0 <= k < z.len() implies cut_le(hi(#[trigger] z[k]), hi(a[i - 1])) by {
        if k < x.len() {
            assert(z[k] == x[k]);
            if i >= 2 {
                assert(seg_wf(x[k]));
                lemma_bound_cut_wf(x[k].1);
                lemma_cut_order(hi(x[k]), hi(a[i - 2]), hi(a[i - 1]));
            }
        } else {
            assert(z[k] == y[k - x.len()]);
        }
    }
    lemma_contains_concat(x, y, v);
    // membership
    if exists|t: int| 0 <= t < i && seg_contains(#[trigger] a[t], v) {
        let t = choose|t: int| 0 <= t < i && seg_contains(#[trigger] a[t], v);
        if t < i - 1 {
            assert(exists|t2: int| 0 <= t2 < i - 1 && seg_contains(#[trigger] a[t2], v));
        }
    }
    if exists|t: int| 0 <= t < i - 1 && seg_contains(#[trigger] a[t], v) {
        let t = choose|t: int| 0 <= t < i - 1 && seg_contains(#[trigger] a[t], v);
        assert(0 <= t < i && seg_contains(a[t], v));
    }
    if range_contains(b, v) {
        let q = choose|q: int| 0 <= q < b.len() && seg_contains(#[trigger] b[q], v);
        assert(0 <= q < nb && seg_contains(b[q], v));
    }
    if seg_contains(s, v) {
        assert(seg_contains(a[i - 1], v));
    }
}

/// The intersection of two well-formed ranges is well formed and holds
/// exactly the versions that both hold.
pub proof fn lemma_intersect(a: Seq<SegModel>, b: Seq<SegModel>, v: VersionModel)
    requires
        range_wf(a),
        range_wf(b),
        version_wf(v),
    ensures
        range_wf(intersect_model(a, b)),
        range_contains(intersect_model(a, b), v) <==> range_contains(a, v) && range_contains(b, v),
{
    lemma_intersect_upto(a, b, a.len() as int, v);
}

/// Some version is well formed.
proof fn some_version() -> (v: VersionModel)
    ensures
        version_wf(v),
{
    let v = lowest_model();
    assert(version_wf(v)) by {
        assert(v.tokens[0] =~= seq![seq!['_']]);
    }
    v
}

/// The complement of a well-formed range is well formed.
pub proof fn lemma_complement_wf(r: Seq<SegModel>)
    requires
        range_wf(r),
    ensures
        range_wf(complement_model(r)),
{
    let v = some_version();
    lemma_complement(r, v);
}

/// The intersection of two well-formed ranges is well formed.
pub proof fn lemma_intersect_wf(a: Seq<SegModel>, b: Seq<SegModel>)
    requires
        range_wf(a),
        range_wf(b),
    ensures
        range_wf(intersect_model(a, b)),
{
    let v = some_version();
    lemma_intersect(a, b, v);
}

/// The union of two ranges, as the complement of the intersection of their
/// complements.
pub open spec fn union_model(a: Seq<SegModel>, b: Seq<SegModel>) -> Seq<SegModel> {
    complement_model(intersect_model(complement_model(a), complement_model(b)))
}

/// The union of two well-formed ranges is well formed, and holds exactly
/// the versions that either holds.
pub proof fn lemma_union(a: Seq<SegModel>, b: Seq<SegModel>, v: VersionModel)
    requires
        range_wf(a),
        range_wf(b),
        version_wf(v),
    ensures
        range_wf(union_model(a, b)),
        range_contains(union_model(a, b), v) <==> range_contains(a, v) || range_contains(b, v),
{
    lemma_complement(a, v);
    lemma_complement(b, v);
    let ca = complement_model(a);
    let cb = complement_model(b);
    lemma_intersect(ca, cb, v);
    lemma_complement(intersect_model(ca, cb), v);
}

/// The union of two well-formed ranges is well formed.
pub proof fn lemma_union_wf(a: Seq<SegModel>, b: Seq<SegModel>)
    requires
        range_wf(a),
        range_wf(b),
    ensures
        range_wf(union_model(a, b)),
{
    let v = some_version();
    lemma_union(a, b, v);
}

/// Inserting a well-formed segment between the segments it lies between
/// keeps a range well formed.
pub proof fn lemma_insert_wf(r: Seq<SegModel>, p: int, s: SegModel)
    requires
        range_wf(r),
        0 <= p <= r.len(),
        seg_wf(s),
        p > 0 ==> cut_lt(hi(r[p - 1]), lo(s)),
        p < r.len() ==> cut_lt(hi(s), lo(r[p])),
    ensures
        range_wf(r.insert(p, s)),
{
    let z = r.insert(p, s);
    lemma_bound_cut_wf(s.0);
    lemma_bound_cut_wf(s.1);
    assert forall|i: int| 0 <= i < z.len() implies seg_wf(#[trigger] z[i]) by {
        if i < p {
            assert(z[i] == r[i]);
        } else if i > p {
            assert(z[i] == r[i - 1]);
        }
    }
    assert forall|i: int, j: int| 0 <= i < j < z.len() implies cut_lt(
        hi(#[trigger] z[i]),
        lo(#[trigger] z[j]),
    ) by {
        if j < p {
            assert(z[i] == r[i] && z[j] == r[j]);
        } else if j == p {
            assert(z[i] == r[i] && z[j] == s);
            lemma_sorted(r, i, p - 1);
            lemma_cut_order(hi(r[i]), hi(r[p - 1]), lo(s));
        } else if i < p {
            assert(z[i] == r[i] && z[j] == r[j - 1]);
        } else if i == p {
            assert(z[i] == s && z[j] == r[j - 1]);
            lemma_sorted(r, p, j - 1);
            lemma_cut_order(hi(s), lo(r[p]), lo(r[j - 1]));
        } else {
            assert(z[i] == r[i - 1] && z[j] == r[j - 1]);
        }
    }
}

/// Segment `s` lies within some segment of `b`.
pub open spec fn seg_in(s: SegModel, b: Seq<SegModel>) -> bool {
    exists|j: int| 0 <= j < b.len() && #[trigger] seg_within(s, b[j])
}

/// Every segment of `a` lies within a segment of `b`.
pub open spec fn range_within(a: Seq<SegModel>, b: Seq<SegModel>) -> bool {
    forall|i: int| 0 <= i < a.len() ==> #[trigger] seg_in(a[i], b)
}

/// Segment `s` lies within segment `t`.
pub open spec fn seg_within(s: SegModel, t: SegModel) -> bool {
    cut_le(lo(t), lo(s)) && cut_le(hi(s), hi(t))
}

/// A range that lies within another holds none but its versions.
pub proof fn lemma_within_contains(a: Seq<SegModel>, b: Seq<SegModel>, v: VersionModel)
    requires
        range_wf(a),
        range_wf(b),
        version_wf(v),
        range_within(a, b),
    ensures
        range_contains(a, v) ==> range_contains(b, v),
{
    if range_contains(a, v) {
        let i = choose|i: int| 0 <= i < a.len() && seg_contains(#[trigger] a[i], v);
        assert(seg_in(a[i], b));
        let j = choose|j: int| 0 <= j < b.len() && #[trigger] seg_within(a[i], b[j]);
        lemma_sorted(a, i, i);
        lemma_sorted(b, j, j);
        lemma_cut_point(lo(b[j]), lo(a[i]), v);
        lemma_cut_point(hi(a[i]), hi(b[j]), v);
        assert(seg_contains(b[j], v));
    }
}

/// The smallest single segment that covers a range.
pub open spec fn span_model(r: Seq<SegModel>) -> Seq<SegModel> {
    if r.len() == 0 {
        Seq::empty()
    } else {
        seq![(r[0].0, r[r.len() - 1].1)]
    }
}

/// The span of a well-formed range is well formed and covers it.
pub proof fn lemma_span(r: Seq<SegModel>, v: VersionModel)
    requires
        range_wf(r),
        version_wf(v),
    ensures
        range_wf(span_model(r)),
        range_contains(r, v) ==> range_contains(span_model(r), v),
{
    if r.len() > 0 {
        let n = r.len() as int;
        lemma_sorted(r, 0, n - 1);
        assert(seg_wf(r[0]) && seg_wf(r[n - 1]));
        let s = span_model(r);
        assert(seg_wf(s[0]));
        if range_contains(r, v) {
            let i = choose|i: int| 0 <= i < r.len() && seg_contains(#[trigger] r[i], v);
            lemma_sorted(r, 0, i);
            lemma_sorted(r, i, n - 1);
            lemma_cut_point(lo(r[0]), lo(r[i]), v);
            lemma_cut_point(hi(r[i]), hi(r[n - 1]), v);
            assert(seg_contains(s[0], v));
        }
    }
}

} // verus!
