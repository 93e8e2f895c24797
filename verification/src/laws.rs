//! Properties that relate several operations on versions, ranges and
//! requirements.
use vstd::prelude::*;
use crate::version_order::{
    VersionModel, version_wf, bump_model, lemma_extension_below_bump, lemma_version_total_order, lemma_bump_greater,
    version_lt, version_le, version_compare, lowest_model, underscore, token_wf, subtoken_compare, token_compare,
    subtoken_compare_fn, token_compare_fn, rank_compare, number_of, is_digit, char_rank, code_compare,
};
use crate::order::lex;
use crate::range_model::{
    BoundModel, SegModel, range_wf, range_contains, seg_contains, complement_model, intersect_model,
    union_model, lemma_complement, lemma_intersect, lemma_union, lemma_complement_wf, lemma_intersect_wf,
    lemma_union_wf, meet, meets_upto, intersect_upto, seg_valid, seg_wf, lemma_bound_cut_wf, lemma_cut_order,
    max_lower, min_upper, lower_cut, upper_cut, cut_lt, lemma_within_contains,
};
use crate::range::any_model;
use crate::requirement::{
    RequirementModel, merged_model, conflicts_model, difference_model, intersection_model, fold_requirements,
    find_name_from,
};
use crate::variant_slice::{
    EntryModel, entries_in, flat, kept_variants, dropped_variants, reduced_entries, variant_conflicts,
};
use crate::variant::{PackageVariant, VariantModel};
use crate::phase::within_requests;
use std::rc::Rc;

verus! {

/// The versions of `a` without those of `b` are the versions `a` holds and
/// `b` does not.
pub proof fn law_difference(a: Seq<SegModel>, b: Seq<SegModel>, v: VersionModel)
    requires
        range_wf(a),
        range_wf(b),
        version_wf(v),
    ensures
        range_wf(intersect_model(a, complement_model(b))),
        range_contains(intersect_model(a, complement_model(b)), v) <==> range_contains(a, v)
            && !range_contains(b, v),
{
    lemma_complement(b, v);
    lemma_intersect(a, complement_model(b), v);
}

/// Two ranges with no intersection share no version.
pub proof fn law_intersection_none_disjoint(a: Seq<SegModel>, b: Seq<SegModel>, v: VersionModel)
    requires
        range_wf(a),
        range_wf(b),
        version_wf(v),
        intersect_model(a, b).len() == 0,
    ensures
        !(range_contains(a, v) && range_contains(b, v)),
{
    lemma_intersect(a, b, v);
}

/// The inverse of the inverse of a range holds exactly the versions of the
/// range.
pub proof fn law_inverse_round_trip(r: Seq<SegModel>, v: VersionModel)
    requires
        range_wf(r),
        version_wf(v),
    ensures
        range_contains(complement_model(complement_model(r)), v) == range_contains(r, v),
{
    lemma_complement(r, v);
    lemma_complement(complement_model(r), v);
}

/// A version's bump sorts strictly after it.
pub proof fn law_bump_above(v: VersionModel)
    requires
        version_wf(v),
    ensures
        version_lt(v, bump_model(v)),
{
    lemma_bump_greater(v);
}

/// The lowest version (`_`) sorts before every other version, and is
/// equal to itself.
pub proof fn law_lowest_below_all(v: VersionModel)
    requires
        version_wf(v),
    ensures
        version_le(lowest_model(), v),
        v != lowest_model() ==> version_lt(lowest_model(), v),
{
    let l = lowest_model();
    let u = underscore();
    let t0 = v.tokens[0];
    assert(token_wf(t0));
    let s0 = t0[0];
    assert(s0.len() > 0);
    assert(!is_digit(u[0]));
    assert(number_of(u) is None);
    // the first sub-tokens
    let sc = subtoken_compare(u, s0);
    assert(sc <= 0 && (sc == 0 ==> s0 == u)) by {
        if number_of(s0) is None {
            assert(u.drop_first() =~= Seq::<char>::empty());
            assert(char_rank(u[0]) == 0);
            assert(rank_compare()(u[0], s0[0]) <= 0);
            if rank_compare()(u[0], s0[0]) == 0 {
                assert(s0[0] == '_');
                if s0.len() > 1 {
                    assert(lex(u.drop_first(), s0.drop_first(), rank_compare()) == -1);
                } else {
                    assert(s0 =~= u);
                    assert(lex(u.drop_first(), s0.drop_first(), rank_compare()) == 0);
                }
            }
        }
    }
    // the first tokens
    let lt = l.tokens[0];
    assert(lt == seq![u]);
    let tc = token_compare(lt, t0);
    assert(subtoken_compare_fn()(lt[0], t0[0]) == sc);
    assert(lt.drop_first() =~= Seq::<Seq<char>>::empty());
    assert(tc <= 0 && (tc == 0 ==> t0 =~= lt)) by {
        if sc == 0 {
            if t0.len() > 1 {
                assert(lex(lt.drop_first(), t0.drop_first(), subtoken_compare_fn()) == -1);
            } else {
                assert(t0 =~= lt);
                assert(lex(lt.drop_first(), t0.drop_first(), subtoken_compare_fn()) == 0);
            }
        }
    }
    // the versions
    assert(token_compare_fn()(l.tokens[0], v.tokens[0]) == tc);
    assert(l.tokens.drop_first() =~= Seq::<Seq<Seq<char>>>::empty());
    let c = lex(l.tokens, v.tokens, token_compare_fn());
    assert(c <= 0 && (c == 0 ==> v.tokens =~= l.tokens)) by {
        if tc == 0 {
            if v.tokens.len() > 1 {
                assert(lex(l.tokens.drop_first(), v.tokens.drop_first(), token_compare_fn()) == -1);
            } else {
                assert(v.tokens =~= l.tokens);
                assert(lex(l.tokens.drop_first(), v.tokens.drop_first(), token_compare_fn()) == 0);
            }
        }
    }
    if c == 0 {
        if v.seps.len() > 0 {
            assert(lex(l.seps, v.seps, code_compare()) == -1);
        } else {
            assert(v.seps =~= l.seps);
            assert(lex(l.seps, v.seps, code_compare()) == 0);
            assert(v == l);
        }
    }
}

/// The range of a version holds the version and every version whose tokens
/// extend its tokens (the range `3` holds `3.0` and `3.1.4`).
pub proof fn law_version_range_holds_extensions(v: VersionModel, w: VersionModel)
    requires
        version_wf(v),
        version_wf(w),
        w == v || (v.tokens.is_prefix_of(w.tokens) && w.tokens.len() > v.tokens.len()),
    ensures
        range_contains(seq![(BoundModel::Included(v), BoundModel::Excluded(bump_model(v)))], w),
{
    let r = seq![(BoundModel::Included(v), BoundModel::Excluded(bump_model(v)))];
    if w == v {
        assert(v.tokens.is_prefix_of(w.tokens)) by {
            assert(w.tokens.subrange(0, v.tokens.len() as int) =~= v.tokens);
        }
        lemma_extension_below_bump(v, w);
        lemma_version_total_order(v, v, v);
    } else {
        lemma_extension_below_bump(v, w);
    }
    assert(seg_contains(r[0], w));
}

/// The meet of two segments does not depend on their order.
proof fn lemma_meet_symmetric(s: SegModel, t: SegModel)
    requires
        seg_wf(s),
        seg_wf(t),
    ensures
        meet(s, t) == meet(t, s),
{
    lemma_bound_cut_wf(s.0);
    lemma_bound_cut_wf(s.1);
    lemma_bound_cut_wf(t.0);
    lemma_bound_cut_wf(t.1);
    lemma_cut_order(lower_cut(s.0), lower_cut(t.0), lower_cut(s.0));
    lemma_cut_order(upper_cut(s.1), upper_cut(t.1), upper_cut(s.1));
    if lower_cut(s.0) == lower_cut(t.0) {
        assert(s.0 == t.0);
    }
    if upper_cut(s.1) == upper_cut(t.1) {
        assert(s.1 == t.1);
    }
}

/// The overlaps of `s` with `b[0..j]` are empty exactly when no overlap
/// is a valid segment.
proof fn lemma_meets_empty(s: SegModel, b: Seq<SegModel>, j: int)
    requires
        0 <= j <= b.len(),
    ensures
        meets_upto(s, b, j).len() == 0 <==> forall|k: int| 0 <= k < j ==> !seg_valid(#[trigger] meet(s, b[k])),
    decreases j,
{
    if j > 0 {
        lemma_meets_empty(s, b, j - 1);
    }
}

/// The intersection of `a[0..i]` with `b` is empty exactly when no pair of
/// segments overlaps validly.
proof fn lemma_intersect_empty(a: Seq<SegModel>, b: Seq<SegModel>, i: int)
    requires
        0 <= i <= a.len(),
    ensures
        intersect_upto(a, b, i).len() == 0 <==> forall|x: int, k: int|
            0 <= x < i && 0 <= k < b.len() ==> !seg_valid(#[trigger] meet(a[x], b[k])),
    decreases i,
{
    if i > 0 {
        lemma_intersect_empty(a, b, i - 1);
        lemma_meets_empty(a[i - 1], b, b.len() as int);
        if intersect_upto(a, b, i).len() == 0 {
            assert forall|x: int, k: int| 0 <= x < i && 0 <= k < b.len() implies !seg_valid(#[trigger] meet(a[x], b[k])) by {
                if x < i - 1 {
                } else {
                    assert(meet(a[x], b[k]) == meet(a[i - 1], b[k]));
                }
            }
        }
    }
}

/// Whether two ranges share no segment overlap does not depend on their
/// order.
pub proof fn law_disjoint_symmetric(a: Seq<SegModel>, b: Seq<SegModel>)
    requires
        range_wf(a),
        range_wf(b),
    ensures
        (intersect_model(a, b).len() == 0) == (intersect_model(b, a).len() == 0),
{
    lemma_intersect_empty(a, b, a.len() as int);
    lemma_intersect_empty(b, a, b.len() as int);
    assert forall|x: int, k: int| 0 <= x < a.len() && 0 <= k < b.len() implies #[trigger] meet(a[x], b[k]) == meet(b[k], a[x]) by {
        lemma_meet_symmetric(a[x], b[k]);
    }
    if intersect_model(a, b).len() == 0 {
        assert forall|x: int, k: int| 0 <= x < b.len() && 0 <= k < a.len() implies !seg_valid(#[trigger] meet(b[x], a[k])) by {
            assert(meet(a[k], b[x]) == meet(b[x], a[k]));
        }
    }
    if intersect_model(b, a).len() == 0 {
        assert forall|x: int, k: int| 0 <= x < a.len() && 0 <= k < b.len() implies !seg_valid(#[trigger] meet(a[x], b[k])) by {
            assert(meet(b[k], a[x]) == meet(a[x], b[k]));
        }
    }
}

/// The ranges of a requirement are well formed.
pub open spec fn req_wf(r: RequirementModel) -> bool {
    r.range matches Some(x) ==> range_wf(x)
}

/// Version `v` of the package meets the requirement: it lies in the range
/// of a normal requirement, outside the range of a conflict one; the weak
/// requirement with no range is met by every version.
pub open spec fn satisfies(r: RequirementModel, v: VersionModel) -> bool {
    match r.range {
        None => true,
        Some(x) => if r.conflict {
            !range_contains(x, v)
        } else {
            range_contains(x, v)
        },
    }
}

/// Two requirements conflict only when no version meets both of them: a
/// normal requirement conflicts with another normal one only when their
/// ranges share no version, and with a conflict requirement only when its
/// versions all lie in the range that one excludes. Two conflict
/// requirements never conflict, since a version outside both ranges meets
/// both.
pub proof fn law_conflict_means_unsatisfiable(a: RequirementModel, b: RequirementModel, v: VersionModel)
    requires
        req_wf(a),
        req_wf(b),
        version_wf(v),
        conflicts_model(a, b),
    ensures
        !(satisfies(a, v) && satisfies(b, v)),
{
    if let (Some(ra), Some(rb)) = (a.range, b.range) {
        if !a.conflict && !b.conflict {
            lemma_intersect(ra, rb, v);
        } else if a.conflict && !b.conflict {
            lemma_within_contains(rb, ra, v);
        } else if !a.conflict && b.conflict {
            lemma_within_contains(ra, rb, v);
        }
    }
}

/// Two requirements conflict with each other or not regardless of their
/// order.
pub proof fn law_conflicts_symmetric(a: RequirementModel, b: RequirementModel)
    requires
        req_wf(a),
        req_wf(b),
    ensures
        conflicts_model(a, b) == conflicts_model(b, a),
{
    if let (Some(ra), Some(rb)) = (a.range, b.range) {
        law_disjoint_symmetric(ra, rb);
    }
}

/// The merge of two requirements is met by exactly the versions that meet
/// both, and its range is well formed.
pub proof fn law_merged_sound(a: RequirementModel, b: RequirementModel, v: VersionModel)
    requires
        req_wf(a),
        req_wf(b),
        version_wf(v),
        merged_model(a, b) is Some,
    ensures
        req_wf(merged_model(a, b).unwrap()),
        satisfies(merged_model(a, b).unwrap(), v) <==> satisfies(a, v) && satisfies(b, v),
        merged_model(a, b).unwrap().name == a.name,
{
    if let (Some(ra), Some(rb)) = (a.range, b.range) {
        lemma_union(ra, rb, v);
        lemma_intersect(ra, rb, v);
        law_difference(ra, rb, v);
        law_difference(rb, ra, v);
    }
}

/// When two requirements on one package cannot be merged, no version meets
/// both.
pub proof fn law_merged_none(a: RequirementModel, b: RequirementModel, v: VersionModel)
    requires
        req_wf(a),
        req_wf(b),
        version_wf(v),
        a.name == b.name,
        merged_model(a, b) is None,
    ensures
        !(satisfies(a, v) && satisfies(b, v)),
{
    if let (Some(ra), Some(rb)) = (a.range, b.range) {
        law_difference(ra, rb, v);
        law_difference(rb, ra, v);
        lemma_intersect(ra, rb, v);
        if ra == any_model() {
            assert(seg_contains(ra[0], v));
        }
        if rb == any_model() {
            assert(seg_contains(rb[0], v));
        }
    }
}

/// The requirements of `reqs` on the package named `name`.
pub open spec fn meets_all(reqs: Seq<RequirementModel>, name: Seq<char>, v: VersionModel) -> bool {
    forall|i: int| 0 <= i < reqs.len() && (#[trigger] reqs[i]).name == name ==> satisfies(reqs[i], v)
}

/// Merging a list of requirements keeps one requirement per package, each
/// met by exactly the versions that meet every requirement on its package;
/// when a pair cannot be merged, no version of that package meets all the
/// requirements on it.
pub proof fn law_requirement_list(reqs: Seq<RequirementModel>, v: VersionModel)
    requires
        forall|i: int| 0 <= i < reqs.len() ==> req_wf(#[trigger] reqs[i]),
        version_wf(v),
    ensures
        forall|p: int, q: int|
            0 <= p < q < fold_requirements(reqs).0.len() ==> (#[trigger] fold_requirements(reqs).0[p]).name
                != (#[trigger] fold_requirements(reqs).0[q]).name,
        fold_requirements(reqs).1 is None ==> forall|k: int|
            0 <= k < fold_requirements(reqs).0.len() ==> (satisfies(#[trigger] fold_requirements(reqs).0[k], v)
                <==> meets_all(reqs, fold_requirements(reqs).0[k].name, v)),
        fold_requirements(reqs).1 matches Some(pair) ==> !meets_all(reqs, pair.0.name, v),
        forall|k: int| 0 <= k < fold_requirements(reqs).0.len() ==> req_wf(#[trigger] fold_requirements(reqs).0[k]),
    decreases reqs.len(),
{
    if reqs.len() == 0 {
        return;
    }
    let prev = reqs.drop_last();
    assert forall|i: int| 0 <= i < prev.len() implies req_wf(#[trigger] prev[i]) by {
        assert(prev[i] == reqs[i]);
    }
    law_requirement_list(prev, v);
    let (acc, c) = fold_requirements(prev);
    let r = reqs.last();
    assert(req_wf(r));
    assert forall|nm: Seq<char>| meets_all(prev, nm, v) && (r.name == nm ==> satisfies(r, v)) implies #[trigger] meets_all(reqs, nm, v) by {
        assert forall|i: int| 0 <= i < reqs.len() && (#[trigger] reqs[i]).name == nm implies satisfies(reqs[i], v) by {
            if i < prev.len() {
                assert(reqs[i] == prev[i]);
            }
        }
    }
    assert forall|nm: Seq<char>| #[trigger] meets_all(reqs, nm, v) implies meets_all(prev, nm, v) && (r.name == nm ==> satisfies(r, v)) by {
        assert forall|i: int| 0 <= i < prev.len() && (#[trigger] prev[i]).name == nm implies satisfies(prev[i], v) by {
            assert(reqs[i] == prev[i]);
        }
        if r.name == nm {
            assert(reqs[reqs.len() - 1] == r);
        }
    }
    if c is Some {
        let pair = c.unwrap();
        assert(!meets_all(prev, pair.0.name, v));
        return;
    }
    lemma_find_name(acc, r.name, 0);
    match find_name_from(acc, r.name, 0) {
        None => {
            let acc2 = acc.push(r);
            assert forall|p: int, q: int| 0 <= p < q < acc2.len() implies (#[trigger] acc2[p]).name != (#[trigger] acc2[q]).name by {
                if q == acc.len() {
                    assert(acc2[p] == acc[p]);
                } else {
                    assert(acc2[p] == acc[p] && acc2[q] == acc[q]);
                }
            }
            assert forall|k: int| 0 <= k < acc2.len() implies (satisfies(#[trigger] acc2[k], v) <==> meets_all(reqs, acc2[k].name, v)) by {
                if k < acc.len() {
                    assert(acc2[k] == acc[k]);
                    assert(acc[k].name != r.name);
                    assert(meets_all(reqs, acc[k].name, v) == meets_all(prev, acc[k].name, v));
                } else {
                    assert(acc2[k] == r);
                    // no earlier requirement on this package
                    assert(meets_all(prev, r.name, v)) by {
                        assert forall|i: int| 0 <= i < prev.len() && (#[trigger] prev[i]).name == r.name implies satisfies(prev[i], v) by {
                            lemma_name_in_fold(prev, i);
                        }
                    }
                    assert(meets_all(reqs, r.name, v) == (meets_all(prev, r.name, v) && satisfies(r, v)));
                }
            }
            assert forall|k: int| 0 <= k < acc2.len() implies req_wf(#[trigger] acc2[k]) by {
                if k < acc.len() {
                    assert(acc2[k] == acc[k]);
                }
            }
        },
        Some(k0) => {
            law_merged_sound_or_none(acc[k0], r, v);
            match merged_model(acc[k0], r) {
                None => {
                    // the earlier merge of this package and `r` share no version
                    assert(!meets_all(reqs, acc[k0].name, v)) by {
                        if meets_all(reqs, acc[k0].name, v) {
                            assert(meets_all(prev, acc[k0].name, v));
                            assert(satisfies(acc[k0], v));
                            assert(satisfies(r, v));
                        }
                    }
                },
                Some(m) => {
                    let acc2 = acc.update(k0, m);
                    assert forall|p: int, q: int| 0 <= p < q < acc2.len() implies (#[trigger] acc2[p]).name != (#[trigger] acc2[q]).name by {
                        assert(acc2[p].name == acc[p].name && acc2[q].name == acc[q].name);
                    }
                    assert forall|k: int| 0 <= k < acc2.len() implies (satisfies(#[trigger] acc2[k], v) <==> meets_all(reqs, acc2[k].name, v)) by {
                        if k == k0 {
                            assert(acc2[k] == m);
                            assert(meets_all(reqs, m.name, v) == (meets_all(prev, m.name, v) && satisfies(r, v)));
                        } else {
                            assert(acc2[k] == acc[k]);
                            assert(acc[k].name != acc[k0].name);
                            assert(meets_all(reqs, acc[k].name, v) == meets_all(prev, acc[k].name, v));
                        }
                    }
                    assert forall|k: int| 0 <= k < acc2.len() implies req_wf(#[trigger] acc2[k]) by {
                        if k != k0 {
                            assert(acc2[k] == acc[k]);
                        }
                    }
                },
            }
        },
    }
}

/// `law_merged_sound` or `law_merged_none`, whichever applies.
proof fn law_merged_sound_or_none(a: RequirementModel, b: RequirementModel, v: VersionModel)
    requires
        req_wf(a),
        req_wf(b),
        version_wf(v),
        a.name == b.name,
    ensures
        merged_model(a, b) matches Some(m) ==> req_wf(m) && m.name == a.name && (satisfies(m, v) <==> satisfies(a, v) && satisfies(b, v)),
        merged_model(a, b) is None ==> !(satisfies(a, v) && satisfies(b, v)),
{
    if merged_model(a, b) is Some {
        law_merged_sound(a, b, v);
    } else {
        law_merged_none(a, b, v);
    }
}

/// The search by name finds the first requirement with that name.
proof fn lemma_find_name(acc: Seq<RequirementModel>, name: Seq<char>, i: int)
    requires
        0 <= i <= acc.len(),
    ensures
        find_name_from(acc, name, i) matches Some(k) ==> i <= k < acc.len() && acc[k].name == name,
        find_name_from(acc, name, i) is None ==> forall|k: int| i <= k < acc.len() ==> acc[k].name != name,
    decreases acc.len() - i,
{
    if i < acc.len() && acc[i].name != name {
        lemma_find_name(acc, name, i + 1);
    }
}

/// Some requirement of `acc` is on the package named `name`.
pub open spec fn names_package(acc: Seq<RequirementModel>, name: Seq<char>) -> bool {
    exists|k: int| 0 <= k < acc.len() && (#[trigger] acc[k]).name == name
}

/// Every requirement merged without conflict has its package in the list.
proof fn lemma_name_in_fold(reqs: Seq<RequirementModel>, i: int)
    requires
        0 <= i < reqs.len(),
        fold_requirements(reqs).1 is None,
    ensures
        names_package(fold_requirements(reqs).0, reqs[i].name),
    decreases reqs.len(),
{
    let prev = reqs.drop_last();
    let (acc, c) = fold_requirements(prev);
    let r = reqs.last();
    let name = reqs[i].name;
    lemma_find_name(acc, r.name, 0);
    assert(c is None);
    if i < reqs.len() - 1 {
        assert(reqs[i] == prev[i]);
        lemma_name_in_fold(prev, i);
        let k = choose|k: int| 0 <= k < acc.len() && (#[trigger] acc[k]).name == name;
        match find_name_from(acc, r.name, 0) {
            None => {
                let acc2 = acc.push(r);
                assert(fold_requirements(reqs).0 == acc2);
                assert(acc2[k].name == name);
            },
            Some(k0) => {
                let m = merged_model(acc[k0], r).unwrap();
                let acc2 = acc.update(k0, m);
                assert(fold_requirements(reqs).0 == acc2);
                assert(acc2[k].name == name);
            },
        }
    } else {
        assert(name == r.name);
        match find_name_from(acc, r.name, 0) {
            None => {
                let acc2 = acc.push(r);
                assert(fold_requirements(reqs).0 == acc2);
                assert(acc2[acc.len() as int].name == name);
            },
            Some(k0) => {
                let m = merged_model(acc[k0], r).unwrap();
                let acc2 = acc.update(k0, m);
                assert(fold_requirements(reqs).0 == acc2);
                assert(acc2[k0].name == name);
            },
        }
    }
}

/// Intersecting a package's versions by a range a second time keeps
/// every version the first intersection kept.
pub proof fn law_slice_intersect_idempotent(es: Seq<EntryModel>, r: Seq<SegModel>)
    ensures
        entries_in(entries_in(es, r), r) == entries_in(es, r),
    decreases es.len(),
{
    if es.len() > 0 {
        law_slice_intersect_idempotent(es.drop_last(), r);
        let prev = entries_in(es.drop_last(), r);
        if range_contains(r, es.last().version) {
            assert(prev.push(es.last()).drop_last() =~= prev);
        }
    }
}

/// Intersecting a package's versions by `a` and then by `b` keeps the
/// versions that the intersection of the ranges `a` and `b` holds.
pub proof fn law_slice_intersect_composes(es: Seq<EntryModel>, a: Seq<SegModel>, b: Seq<SegModel>)
    requires
        range_wf(a),
        range_wf(b),
        forall|i: int| 0 <= i < es.len() ==> version_wf(#[trigger] es[i].version),
    ensures
        entries_in(entries_in(es, a), b) == entries_in(es, intersect_model(a, b)),
    decreases es.len(),
{
    if es.len() > 0 {
        let init = es.drop_last();
        let e = es.last();
        assert forall|i: int| 0 <= i < init.len() implies version_wf(#[trigger] init[i].version) by {
            assert(init[i] == es[i]);
        }
        law_slice_intersect_composes(init, a, b);
        assert(version_wf(es[es.len() - 1].version));
        lemma_intersect(a, b, e.version);
        let pa = entries_in(init, a);
        if range_contains(a, e.version) {
            assert(pa.push(e).drop_last() =~= pa);
        }
    }
}

/// No variant of `vs` conflicts with `req`.
pub open spec fn clean(vs: Seq<Rc<PackageVariant>>, req: RequirementModel) -> bool {
    forall|i: int| 0 <= i < vs.len() ==> !variant_conflicts(#[trigger] vs[i], req)
}

/// The variants kept by a request do not conflict with it.
proof fn lemma_kept_clean(vs: Seq<Rc<PackageVariant>>, req: RequirementModel)
    ensures
        clean(kept_variants(vs, req), req),
    decreases vs.len(),
{
    if vs.len() > 0 {
        lemma_kept_clean(vs.drop_last(), req);
        let prev = kept_variants(vs.drop_last(), req);
        if !variant_conflicts(vs.last(), req) {
            assert forall|i: int| 0 <= i < prev.len() + 1 implies !variant_conflicts(
                #[trigger] prev.push(vs.last())[i],
                req,
            ) by {
                if i < prev.len() {
                    assert(prev.push(vs.last())[i] == prev[i]);
                }
            }
        }
    }
}

/// A request keeps every variant of a list that does not conflict with
/// it, and drops none.
proof fn lemma_clean_kept(vs: Seq<Rc<PackageVariant>>, req: RequirementModel)
    requires
        clean(vs, req),
    ensures
        kept_variants(vs, req) == vs,
        dropped_variants(vs, req).len() == 0,
    decreases vs.len(),
{
    if vs.len() > 0 {
        let init = vs.drop_last();
        assert forall|i: int| 0 <= i < init.len() implies !variant_conflicts(#[trigger] init[i], req) by {
            assert(init[i] == vs[i]);
        }
        lemma_clean_kept(init, req);
        assert(!variant_conflicts(vs[vs.len() - 1], req));
        assert(init.push(vs.last()) =~= vs);
    }
}

/// The variants of the entries left by a request do not conflict with it,
/// and each entry left keeps a variant.
proof fn lemma_reduced_clean(es: Seq<EntryModel>, req: RequirementModel)
    ensures
        clean(flat(reduced_entries(es, req)), req),
        forall|i: int| 0 <= i < reduced_entries(es, req).len() ==> clean(
            (#[trigger] reduced_entries(es, req)[i]).variants,
            req,
        ) && reduced_entries(es, req)[i].variants.len() > 0,
    decreases es.len(),
{
    if es.len() > 0 {
        lemma_reduced_clean(es.drop_last(), req);
        let prev = reduced_entries(es.drop_last(), req);
        let e = es.last();
        let kv = kept_variants(e.variants, req);
        if kv.len() > 0 {
            lemma_kept_clean(e.variants, req);
            let ne = EntryModel { version: e.version, variants: kv, order_rank: e.order_rank };
            let r = prev.push(ne);
            assert(r.drop_last() =~= prev);
            assert(flat(r) == flat(prev) + kv);
            assert forall|i: int| 0 <= i < flat(r).len() implies !variant_conflicts(#[trigger] flat(r)[i], req) by {
                if i < flat(prev).len() {
                    assert(flat(r)[i] == flat(prev)[i]);
                } else {
                    assert(flat(r)[i] == kv[i - flat(prev).len()]);
                }
            }
            assert forall|i: int| 0 <= i < r.len() implies clean((#[trigger] r[i]).variants, req)
                && r[i].variants.len() > 0 by {
                if i < prev.len() {
                    assert(r[i] == prev[i]);
                }
            }
        }
    }
}

/// Reducing a package's versions by a request a second time removes
/// nothing: every variant the first reduction kept stays, and none is
/// dropped.
pub proof fn law_slice_reduce_idempotent(es: Seq<EntryModel>, req: RequirementModel)
    ensures
        reduced_entries(reduced_entries(es, req), req) == reduced_entries(es, req),
        dropped_variants(flat(reduced_entries(es, req)), req).len() == 0,
    decreases es.len(),
{
    lemma_reduced_clean(es, req);
    lemma_clean_kept(flat(reduced_entries(es, req)), req);
    if es.len() > 0 {
        law_slice_reduce_idempotent(es.drop_last(), req);
        let prev = reduced_entries(es.drop_last(), req);
        let e = es.last();
        let kv = kept_variants(e.variants, req);
        if kv.len() > 0 {
            lemma_kept_clean(e.variants, req);
            lemma_clean_kept(kv, req);
            let ne = EntryModel { version: e.version, variants: kv, order_rank: e.order_rank };
            assert(prev.push(ne).drop_last() =~= prev);
            assert(prev.push(ne).last() == ne);
        }
    }
}

/// A package that a resolve gives meets every request on its package:
/// where it meets the merged request on its package, it lies within the
/// range of each request that is not a conflict and outside that of each
/// conflict.
pub proof fn law_resolved_meets_requests(reqs: Seq<RequirementModel>, w: VariantModel)
    requires
        forall|i: int| 0 <= i < reqs.len() ==> req_wf(#[trigger] reqs[i]),
        version_wf(w.version),
        fold_requirements(reqs).1 is None,
        within_requests(w, fold_requirements(reqs).0),
    ensures
        meets_all(reqs, w.name, w.version),
{
    let m = fold_requirements(reqs).0;
    law_requirement_list(reqs, w.version);
    if names_package(m, w.name) {
        let k = choose|k: int| 0 <= k < m.len() && (#[trigger] m[k]).name == w.name;
        assert(satisfies(m[k], w.version));
    } else {
        assert forall|i: int| 0 <= i < reqs.len() && (#[trigger] reqs[i]).name == w.name implies satisfies(
            reqs[i],
            w.version,
        ) by {
            lemma_name_in_fold(reqs, i);
        }
    }
}

} // verus!
