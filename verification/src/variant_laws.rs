//! What the key of a variant decides: which of two variants of a package
//! version is worth using first, stated over the variants' requirements.
use vstd::prelude::*;
use crate::order::{compare_int, lex};
use crate::version_order::{
    VersionModel, version_wf, version_compare, version_lt, lemma_version_total_order, token_compare,
    token_compare_fn, subtoken_compare, subtoken_compare_fn, rank_compare, code_compare, number_of,
};
use crate::range_model::{BoundModel, SegModel, range_wf, bound_wf};
use crate::requirement::{RequirementModel, find_name_from, lemma_find_name_from};
use crate::status::VariantSelectMode;
use crate::variant::{VariantModel, variant_key, requested_keys, requested_names, additional_keys};
use crate::variant_key::{
    VersionKeyModel, SegKeyModel, VariantKeyModel, variant_key_ord, range_key_ord, seg_key_ord, end_ord, vkey_ord,
    vkey_compare, int_ord, rev_int_ord, opt_ord, req_entry_ord, add_entry_ord, pair_ord, range_key, seg_key,
    lower_key,
};

verus! {

// ---------------------------------------------------------------------------
// Comparisons of equal values
// ---------------------------------------------------------------------------

/// A sequence compares equal to itself when each element does.
proof fn lemma_lex_refl<T>(a: Seq<T>, f: spec_fn(T, T) -> int)
    requires
        forall|i: int| 0 <= i < a.len() ==> f(#[trigger] a[i], a[i]) == 0,
    ensures
        lex(a, a, f) == 0,
    decreases a.len(),
{
    if a.len() > 0 {
        assert(f(a[0], a[0]) == 0);
        assert forall|i: int| 0 <= i < a.drop_first().len() implies f(
            #[trigger] a.drop_first()[i],
            a.drop_first()[i],
        ) == 0 by {
            assert(a.drop_first()[i] == a[i + 1]);
        }
        lemma_lex_refl(a.drop_first(), f);
    }
}

/// Two sequences of one length that agree before index `j`, where the
/// first is greater, compare greater.
proof fn lemma_lex_first_diff<T>(a: Seq<T>, b: Seq<T>, f: spec_fn(T, T) -> int, j: int)
    requires
        a.len() == b.len(),
        0 <= j < a.len(),
        forall|i: int| 0 <= i < j ==> a[i] == b[i] && f(#[trigger] a[i], a[i]) == 0,
        f(a[j], b[j]) > 0,
    ensures
        lex(a, b, f) > 0,
    decreases j,
{
    if j > 0 {
        assert(f(a[0], a[0]) == 0);
        assert(a[0] == b[0]);
        let a1 = a.drop_first();
        let b1 = b.drop_first();
        assert forall|i: int| 0 <= i < j - 1 implies a1[i] == b1[i] && f(#[trigger] a1[i], a1[i]) == 0 by {
            assert(a1[i] == a[i + 1] && b1[i] == b[i + 1]);
            assert(f(a[i + 1], a[i + 1]) == 0);
        }
        assert(a1[j - 1] == a[j] && b1[j - 1] == b[j]);
        lemma_lex_first_diff(a1, b1, f, j - 1);
    }
}

proof fn lemma_subtoken_refl(s: Seq<char>)
    ensures
        subtoken_compare(s, s) == 0,
{
    assert forall|i: int| 0 <= i < s.len() implies rank_compare()(#[trigger] s[i], s[i]) == 0 by {}
    lemma_lex_refl(s, rank_compare());
}

proof fn lemma_token_refl(t: Seq<Seq<char>>)
    ensures
        token_compare(t, t) == 0,
{
    assert forall|i: int| 0 <= i < t.len() implies subtoken_compare_fn()(#[trigger] t[i], t[i]) == 0 by {
        lemma_subtoken_refl(t[i]);
    }
    lemma_lex_refl(t, subtoken_compare_fn());
}

/// Every version compares equal to itself.
proof fn lemma_version_refl(v: VersionModel)
    ensures
        version_compare(v, v) == 0,
{
    assert forall|i: int| 0 <= i < v.tokens.len() implies token_compare_fn()(#[trigger] v.tokens[i], v.tokens[i]) == 0 by {
        lemma_token_refl(v.tokens[i]);
    }
    lemma_lex_refl(v.tokens, token_compare_fn());
    assert forall|i: int| 0 <= i < v.seps.len() implies code_compare()(#[trigger] v.seps[i], v.seps[i]) == 0 by {}
    lemma_lex_refl(v.seps, code_compare());
}

proof fn lemma_seg_key_refl(s: SegKeyModel)
    ensures
        seg_key_ord()(s, s) == 0,
{
    if let VersionKeyModel::V(v) = s.0.0 {
        lemma_version_refl(v);
    }
    if let VersionKeyModel::V(v) = s.1.0 {
        lemma_version_refl(v);
    }
    assert(vkey_ord()(s.0.0, s.0.0) == 0);
    assert(vkey_ord()(s.1.0, s.1.0) == 0);
    assert(end_ord()(s.0, s.0) == 0);
    assert(end_ord()(s.1, s.1) == 0);
}

/// Every range key compares equal to itself.
proof fn lemma_range_key_refl(k: Seq<SegKeyModel>)
    ensures
        range_key_ord()(k, k) == 0,
{
    assert forall|i: int| 0 <= i < k.len() implies seg_key_ord()(#[trigger] k[i], k[i]) == 0 by {
        lemma_seg_key_refl(k[i]);
    }
    lemma_lex_refl(k, seg_key_ord());
}

proof fn lemma_req_entries_refl(a: Seq<(int, Seq<SegKeyModel>)>)
    ensures
        lex(a, a, req_entry_ord()) == 0,
{
    assert forall|i: int| 0 <= i < a.len() implies req_entry_ord()(#[trigger] a[i], a[i]) == 0 by {
        lemma_range_key_refl(a[i].1);
    }
    lemma_lex_refl(a, req_entry_ord());
}

proof fn lemma_add_entry_refl(e: (Seq<SegKeyModel>, Seq<char>))
    ensures
        add_entry_ord()(e, e) == 0,
{
    lemma_range_key_refl(e.0);
    assert forall|i: int| 0 <= i < e.1.len() implies code_compare()(#[trigger] e.1[i], e.1[i]) == 0 by {}
    lemma_lex_refl(e.1, code_compare());
}

proof fn lemma_add_entries_refl(a: Seq<(Seq<SegKeyModel>, Seq<char>)>)
    ensures
        lex(a, a, add_entry_ord()) == 0,
{
    assert forall|i: int| 0 <= i < a.len() implies add_entry_ord()(#[trigger] a[i], a[i]) == 0 by {
        lemma_add_entry_refl(a[i]);
    }
    lemma_lex_refl(a, add_entry_ord());
}

// ---------------------------------------------------------------------------
// Requested packages
// ---------------------------------------------------------------------------

/// The names of a list of requirements.
pub open spec fn names_of(reqs: Seq<RequirementModel>) -> Seq<Seq<char>> {
    reqs.map_values(|r: RequirementModel| r.name)
}

/// How many of the first `n` requests, leaving out conflicts, are on a
/// package named in `names`.
pub open spec fn requests_met(requests: Seq<RequirementModel>, names: Seq<Seq<char>>, n: int) -> int
    decreases n,
{
    if n <= 0 {
        0
    } else {
        requests_met(requests, names, n - 1) + if !requests[n - 1].conflict && names.contains(requests[n - 1].name) {
            1int
        } else {
            0int
        }
    }
}

proof fn lemma_requested_count(requests: Seq<RequirementModel>, by_name: Seq<RequirementModel>, n: int)
    requires
        0 <= n <= requests.len(),
    ensures
        requested_keys(requests, by_name, n).len() == requests_met(requests, names_of(by_name), n),
    decreases n,
{
    if n > 0 {
        lemma_requested_count(requests, by_name, n - 1);
        let x = requests[n - 1].name;
        lemma_find_name_from(by_name, x, 0);
        match find_name_from(by_name, x, 0) {
            Some(k) => {
                assert(names_of(by_name)[k] == x);
            },
            None => {
                if names_of(by_name).contains(x) {
                    let k = choose|k: int| 0 <= k < names_of(by_name).len() && names_of(by_name)[k] == x;
                    assert(by_name[k].name == x);
                }
            },
        }
    }
}

/// In `intersection_priority` mode, a variant that requires more of the
/// requested packages (conflict requests aside) is worth using before one
/// that requires fewer, whatever the ranges they ask.
pub proof fn law_intersection_priority_prefers_more_requests(
    requests: Seq<RequirementModel>,
    v1: VariantModel,
    v2: VariantModel,
)
    requires
        requests_met(requests, names_of(v1.requires.by_name), requests.len() as int) > requests_met(
            requests,
            names_of(v2.requires.by_name),
            requests.len() as int,
        ),
    ensures
        variant_key_ord()(
            variant_key(requests, VariantSelectMode::IntersectionPriority, v1),
            variant_key(requests, VariantSelectMode::IntersectionPriority, v2),
        ) > 0,
{
    lemma_requested_count(requests, v1.requires.by_name, requests.len() as int);
    lemma_requested_count(requests, v2.requires.by_name, requests.len() as int);
    let k1 = variant_key(requests, VariantSelectMode::IntersectionPriority, v1);
    let k2 = variant_key(requests, VariantSelectMode::IntersectionPriority, v2);
    assert(k1.0 > k2.0);
    assert(int_ord()(k1.0, k2.0) == 1);
}

// ---------------------------------------------------------------------------
// Variants that differ in one requirement, or in their index
// ---------------------------------------------------------------------------

/// The requirement lists `a` and `b` name the same packages in the same
/// order, and are equal but at index `p`.
pub open spec fn differ_at(a: Seq<RequirementModel>, b: Seq<RequirementModel>, p: int) -> bool {
    &&& a.len() == b.len()
    &&& 0 <= p < a.len()
    &&& forall|i: int| 0 <= i < a.len() && i != p ==> #[trigger] a[i] == b[i]
    &&& a[p].name == b[p].name
}

/// Range `r1` starts at a higher version than range `r2`: the lower end of
/// its first segment is a greater version, or `r2` is open below and `r1`
/// is not.
pub open spec fn starts_above(r1: Seq<SegModel>, r2: Seq<SegModel>) -> bool {
    &&& r1.len() > 0
    &&& r2.len() > 0
    &&& match (r1[0].0, r2[0].0) {
        (BoundModel::Unbounded, _) => false,
        (_, BoundModel::Unbounded) => true,
        (BoundModel::Included(x), BoundModel::Included(y)) => version_lt(y, x),
        (BoundModel::Included(x), BoundModel::Excluded(y)) => version_lt(y, x),
        (BoundModel::Excluded(x), BoundModel::Included(y)) => version_lt(y, x),
        (BoundModel::Excluded(x), BoundModel::Excluded(y)) => version_lt(y, x),
    }
}

/// Lists that agree on names give the same answer to a search by name.
proof fn lemma_find_same_names(a: Seq<RequirementModel>, b: Seq<RequirementModel>, x: Seq<char>, i: int)
    requires
        a.len() == b.len(),
        forall|k: int| 0 <= k < a.len() ==> (#[trigger] a[k]).name == b[k].name,
    ensures
        find_name_from(a, x, i) == find_name_from(b, x, i),
    decreases a.len() - i,
{
    if 0 <= i < a.len() && a[i].name != x {
        lemma_find_same_names(a, b, x, i + 1);
    }
}

/// Requests that do not name package `d` (conflicts aside) find the same
/// keys and names in two lists that differ only in their requirement on
/// `d`, and never find `d`.
proof fn lemma_requested_same(
    requests: Seq<RequirementModel>,
    a: Seq<RequirementModel>,
    b: Seq<RequirementModel>,
    p: int,
    n: int,
)
    requires
        differ_at(a, b, p),
        0 <= n <= requests.len(),
        forall|k: int| 0 <= k < requests.len() && !(#[trigger] requests[k]).conflict ==> requests[k].name != a[p].name,
    ensures
        requested_keys(requests, a, n) == requested_keys(requests, b, n),
        requested_names(requests, a, n) == requested_names(requests, b, n),
        !requested_names(requests, a, n).contains(a[p].name),
    decreases n,
{
    if n > 0 {
        lemma_requested_same(requests, a, b, p, n - 1);
        let r = requests[n - 1];
        assert forall|k: int| 0 <= k < a.len() implies (#[trigger] a[k]).name == b[k].name by {
            if k != p {
                assert(a[k] == b[k]);
            }
        }
        lemma_find_same_names(a, b, r.name, 0);
        lemma_find_name_from(a, r.name, 0);
        let prev = requested_names(requests, a, n - 1);
        if let Some(k) = find_name_from(a, r.name, 0) {
            if !r.conflict {
                assert(a[k].name == r.name);
                assert(k != p);
                assert(a[k] == b[k]);
                let cur = prev.push(a[k].name);
                assert(cur == requested_names(requests, a, n));
                if cur.contains(a[p].name) {
                    let t = choose|t: int| 0 <= t < cur.len() && cur[t] == a[p].name;
                    if t < prev.len() {
                        assert(prev[t] == cur[t]);
                    }
                }
            }
        }
    }
}

/// The additional keys of two lists that differ only in a requirement at
/// `p` that is not a conflict and not found among the requested names:
/// equal but at one place, where each has the key of its own requirement.
proof fn lemma_additional_differ(
    a: Seq<RequirementModel>,
    b: Seq<RequirementModel>,
    p: int,
    found: Seq<Seq<char>>,
    n: int,
)
    requires
        differ_at(a, b, p),
        !a[p].conflict,
        !b[p].conflict,
        !found.contains(a[p].name),
        0 <= n <= a.len(),
    ensures
        n <= p ==> additional_keys(a, found, n) == additional_keys(b, found, n),
        n > p ==> {
            let x = additional_keys(a, found, n);
            let y = additional_keys(b, found, n);
            let j = additional_keys(a, found, p).len() as int;
            &&& x.len() == y.len()
            &&& 0 <= j < x.len()
            &&& x[j] == (range_key(a[p].range), a[p].name)
            &&& y[j] == (range_key(b[p].range), b[p].name)
            &&& forall|i: int| 0 <= i < x.len() && i != j ==> #[trigger] x[i] == y[i]
        },
    decreases n,
{
    if n > 0 {
        lemma_additional_differ(a, b, p, found, n - 1);
        if n - 1 != p {
            assert(a[n - 1] == b[n - 1]);
        }
        if n - 1 > p {
            let x0 = additional_keys(a, found, n - 1);
            let y0 = additional_keys(b, found, n - 1);
            let x = additional_keys(a, found, n);
            let y = additional_keys(b, found, n);
            let j = additional_keys(a, found, p).len() as int;
            assert forall|i: int| 0 <= i < x.len() && i != j implies #[trigger] x[i] == y[i] by {
                if i < x0.len() {
                    assert(x[i] == x0[i] && y[i] == y0[i]);
                }
            }
        }
    }
}

/// Of two variants of a package version that differ only in the range of
/// one requirement, on a package that no request names (conflict requests
/// aside), the variant whose range starts at a higher version is worth
/// using first: the resolve then takes the higher version of that package.
pub proof fn law_higher_dependency_first(
    requests: Seq<RequirementModel>,
    mode: VariantSelectMode,
    v1: VariantModel,
    v2: VariantModel,
    p: int,
    r1: Seq<SegModel>,
    r2: Seq<SegModel>,
)
    requires
        v1.index == v2.index,
        v1.requires.requirements == v1.requires.by_name,
        v2.requires.requirements == v2.requires.by_name,
        differ_at(v1.requires.by_name, v2.requires.by_name, p),
        !v1.requires.by_name[p].conflict,
        !v2.requires.by_name[p].conflict,
        v1.requires.by_name[p].range == Some(r1),
        v2.requires.by_name[p].range == Some(r2),
        range_wf(r1),
        range_wf(r2),
        starts_above(r1, r2),
        forall|k: int|
            0 <= k < requests.len() && !(#[trigger] requests[k]).conflict ==> requests[k].name
                != v1.requires.by_name[p].name,
    ensures
        variant_key_ord()(variant_key(requests, mode, v1), variant_key(requests, mode, v2)) > 0,
{
    let a = v1.requires.by_name;
    let b = v2.requires.by_name;
    let n = requests.len() as int;
    lemma_requested_same(requests, a, b, p, n);
    let found = requested_names(requests, a, n);
    lemma_additional_differ(a, b, p, found, a.len() as int);
    let x = additional_keys(a, found, a.len() as int);
    let y = additional_keys(b, found, b.len() as int);
    let j = additional_keys(a, found, p).len() as int;
    // the two keys of the requirement at `p`
    let k1 = range_key(Some(r1));
    let k2 = range_key(Some(r2));
    assert(k1[0] == seg_key(r1[0]) && k2[0] == seg_key(r2[0]));
    assert(bound_wf(r1[0].0) && bound_wf(r2[0].0));
    let l1 = lower_key(r1[0].0);
    let l2 = lower_key(r2[0].0);
    assert(vkey_compare(l1.0, l2.0) > 0) by {
        match (r1[0].0, r2[0].0) {
            (BoundModel::Included(u), BoundModel::Included(w)) => {
                lemma_version_total_order(u, w, w);
            },
            (BoundModel::Included(u), BoundModel::Excluded(w)) => {
                lemma_version_total_order(u, w, w);
            },
            (BoundModel::Excluded(u), BoundModel::Included(w)) => {
                lemma_version_total_order(u, w, w);
            },
            (BoundModel::Excluded(u), BoundModel::Excluded(w)) => {
                lemma_version_total_order(u, w, w);
            },
            _ => {},
        }
    }
    assert(end_ord()(l1, l2) > 0);
    assert(seg_key_ord()(k1[0], k2[0]) > 0);
    assert(range_key_ord()(k1, k2) > 0);
    assert(add_entry_ord()(x[j], y[j]) > 0);
    assert forall|i: int| 0 <= i < j implies x[i] == y[i] && add_entry_ord()(#[trigger] x[i], x[i]) == 0 by {
        lemma_add_entry_refl(x[i]);
    }
    lemma_lex_first_diff(x, y, add_entry_ord(), j);
    // everything before the additional keys is equal
    let rq = requested_keys(requests, a, n);
    lemma_req_entries_refl(rq);
    let kv1 = variant_key(requests, mode, v1);
    let kv2 = variant_key(requests, mode, v2);
    assert(kv1.0 == kv2.0);
    assert(kv1.1.0 == kv2.1.0);
    assert(kv1.1.1.0 == kv2.1.1.0);
    assert(int_ord()(kv1.0, kv2.0) == 0);
    assert(rev_int_ord()(kv1.1.1.0, kv2.1.1.0) == 0);
}

/// Names that occur once each.
pub open spec fn distinct_names_of(a: Seq<RequirementModel>) -> bool {
    forall|i: int, j: int| 0 <= i < j < a.len() ==> (#[trigger] a[i]).name != (#[trigger] a[j]).name
}

/// With names that occur once each, the search for the name at `p` finds
/// `p`.
proof fn lemma_find_at(a: Seq<RequirementModel>, p: int)
    requires
        distinct_names_of(a),
        0 <= p < a.len(),
    ensures
        find_name_from(a, a[p].name, 0) == Some(p),
{
    lemma_find_name_from(a, a[p].name, 0);
    if let Some(k) = find_name_from(a, a[p].name, 0) {
        if k < p {
            assert(a[k].name != a[p].name);
        } else if k > p {
            assert(a[p].name != a[k].name);
        }
    }
}

/// The requested keys of two lists that differ only in their requirement
/// on the package of request `q` (the only request on it): equal but at
/// one place, where each has the key of its own requirement; and the same
/// requested names.
proof fn lemma_requested_differ(
    requests: Seq<RequirementModel>,
    a: Seq<RequirementModel>,
    b: Seq<RequirementModel>,
    p: int,
    q: int,
    n: int,
)
    requires
        differ_at(a, b, p),
        distinct_names_of(a),
        distinct_names_of(requests),
        0 <= q < requests.len(),
        !requests[q].conflict,
        requests[q].name == a[p].name,
        0 <= n <= requests.len(),
    ensures
        requested_names(requests, a, n) == requested_names(requests, b, n),
        n > q ==> requested_names(requests, a, n).contains(a[p].name),
        n <= q ==> requested_keys(requests, a, n) == requested_keys(requests, b, n),
        n > q ==> {
            let x = requested_keys(requests, a, n);
            let y = requested_keys(requests, b, n);
            let j = requested_keys(requests, a, q).len() as int;
            &&& x.len() == y.len()
            &&& 0 <= j < x.len()
            &&& x[j] == (q, range_key(a[p].range))
            &&& y[j] == (q, range_key(b[p].range))
            &&& forall|i: int| 0 <= i < x.len() && i != j ==> #[trigger] x[i] == y[i]
        },
    decreases n,
{
    if n > 0 {
        lemma_requested_differ(requests, a, b, p, q, n - 1);
        let r = requests[n - 1];
        assert forall|k: int| 0 <= k < a.len() implies (#[trigger] a[k]).name == b[k].name by {
            if k != p {
                assert(a[k] == b[k]);
            }
        }
        lemma_find_same_names(a, b, r.name, 0);
        lemma_find_name_from(a, r.name, 0);
        if n - 1 == q {
            lemma_find_at(a, p);
            let prev = requested_names(requests, a, n - 1);
            assert(requested_names(requests, a, n) == prev.push(a[p].name));
            assert(requested_names(requests, a, n)[prev.len() as int] == a[p].name);
        } else {
            if n - 1 < q {
                assert(requests[n - 1].name != requests[q].name);
            } else {
                assert(requests[q].name != requests[n - 1].name);
            }
            if let Some(k) = find_name_from(a, r.name, 0) {
                assert(a[k].name == r.name);
                assert(k != p);
                assert(a[k] == b[k]);
            }
            if n - 1 > q {
                let x0 = requested_keys(requests, a, n - 1);
                let y0 = requested_keys(requests, b, n - 1);
                let x = requested_keys(requests, a, n);
                let y = requested_keys(requests, b, n);
                let j = requested_keys(requests, a, q).len() as int;
                assert forall|i: int| 0 <= i < x.len() && i != j implies #[trigger] x[i] == y[i] by {
                    if i < x0.len() {
                        assert(x[i] == x0[i] && y[i] == y0[i]);
                    }
                }
                let f0 = requested_names(requests, a, n - 1);
                let f = requested_names(requests, a, n);
                let t = choose|t: int| 0 <= t < f0.len() && f0[t] == a[p].name;
                assert(f[t] == f0[t]);
            }
        }
    }
}

/// The additional keys of two lists that differ only in a requirement on
/// a package found among the requested names are equal.
proof fn lemma_additional_same(
    a: Seq<RequirementModel>,
    b: Seq<RequirementModel>,
    p: int,
    found: Seq<Seq<char>>,
    n: int,
)
    requires
        differ_at(a, b, p),
        found.contains(a[p].name),
        0 <= n <= a.len(),
    ensures
        additional_keys(a, found, n) == additional_keys(b, found, n),
    decreases n,
{
    if n > 0 {
        lemma_additional_same(a, b, p, found, n - 1);
        if n - 1 != p {
            assert(a[n - 1] == b[n - 1]);
        }
    }
}

/// Of two variants of a package version that differ only in the range of
/// their requirement on a requested package, the variant whose range starts
/// at a higher version is worth using first: the resolve then takes the
/// higher version of the requested package.
pub proof fn law_higher_requested_first(
    requests: Seq<RequirementModel>,
    mode: VariantSelectMode,
    v1: VariantModel,
    v2: VariantModel,
    p: int,
    q: int,
    r1: Seq<SegModel>,
    r2: Seq<SegModel>,
)
    requires
        v1.index == v2.index,
        v1.requires.requirements == v1.requires.by_name,
        v2.requires.requirements == v2.requires.by_name,
        differ_at(v1.requires.by_name, v2.requires.by_name, p),
        distinct_names_of(v1.requires.by_name),
        distinct_names_of(requests),
        v1.requires.by_name[p].range == Some(r1),
        v2.requires.by_name[p].range == Some(r2),
        range_wf(r1),
        range_wf(r2),
        starts_above(r1, r2),
        0 <= q < requests.len(),
        !requests[q].conflict,
        requests[q].name == v1.requires.by_name[p].name,
    ensures
        variant_key_ord()(variant_key(requests, mode, v1), variant_key(requests, mode, v2)) > 0,
{
    let a = v1.requires.by_name;
    let b = v2.requires.by_name;
    let n = requests.len() as int;
    lemma_requested_differ(requests, a, b, p, q, n);
    let found = requested_names(requests, a, n);
    lemma_additional_same(a, b, p, found, a.len() as int);
    let x = requested_keys(requests, a, n);
    let y = requested_keys(requests, b, n);
    let j = requested_keys(requests, a, q).len() as int;
    let k1 = range_key(Some(r1));
    let k2 = range_key(Some(r2));
    assert(k1[0] == seg_key(r1[0]) && k2[0] == seg_key(r2[0]));
    assert(bound_wf(r1[0].0) && bound_wf(r2[0].0));
    let l1 = lower_key(r1[0].0);
    let l2 = lower_key(r2[0].0);
    assert(vkey_compare(l1.0, l2.0) > 0) by {
        match (r1[0].0, r2[0].0) {
            (BoundModel::Included(u), BoundModel::Included(w)) => {
                lemma_version_total_order(u, w, w);
            },
            (BoundModel::Included(u), BoundModel::Excluded(w)) => {
                lemma_version_total_order(u, w, w);
            },
            (BoundModel::Excluded(u), BoundModel::Included(w)) => {
                lemma_version_total_order(u, w, w);
            },
            (BoundModel::Excluded(u), BoundModel::Excluded(w)) => {
                lemma_version_total_order(u, w, w);
            },
            _ => {},
        }
    }
    assert(end_ord()(l1, l2) > 0);
    assert(seg_key_ord()(k1[0], k2[0]) > 0);
    assert(range_key_ord()(k1, k2) > 0);
    assert(rev_int_ord()(x[j].0, y[j].0) == 0);
    assert(req_entry_ord()(x[j], y[j]) > 0);
    assert forall|i: int| 0 <= i < j implies x[i] == y[i] && req_entry_ord()(#[trigger] x[i], x[i]) == 0 by {
        lemma_range_key_refl(x[i].1);
    }
    lemma_lex_first_diff(x, y, req_entry_ord(), j);
    let kv1 = variant_key(requests, mode, v1);
    let kv2 = variant_key(requests, mode, v2);
    assert(kv1.0 == kv2.0);
    assert(int_ord()(kv1.0, kv2.0) == 0);
}

/// A search by a name other than that of `e` finds the same requirement in
/// a list with names that occur once each and in that list with `e` put
/// at `p`.
proof fn lemma_find_insert(a: Seq<RequirementModel>, e: RequirementModel, p: int, x: Seq<char>)
    requires
        0 <= p <= a.len(),
        distinct_names_of(a.insert(p, e)),
        x != e.name,
    ensures
        find_name_from(a, x, 0) is Some <==> find_name_from(a.insert(p, e), x, 0) is Some,
        find_name_from(a, x, 0) is Some ==> a[find_name_from(a, x, 0).unwrap()] == a.insert(p, e)[find_name_from(
            a.insert(p, e),
            x,
            0,
        ).unwrap()],
{
    let b = a.insert(p, e);
    lemma_find_name_from(a, x, 0);
    lemma_find_name_from(b, x, 0);
    match find_name_from(a, x, 0) {
        Some(k) => {
            let kb = if k < p { k } else { k + 1 };
            assert(b[kb] == a[k]);
            let k2 = find_name_from(b, x, 0).unwrap();
            if k2 != kb {
                if k2 < kb {
                    assert(b[k2].name != b[kb].name);
                } else {
                    assert(b[kb].name != b[k2].name);
                }
            }
        },
        None => {
            if let Some(k2) = find_name_from(b, x, 0) {
                if k2 < p {
                    assert(b[k2] == a[k2]);
                } else if k2 > p {
                    assert(b[k2] == a[k2 - 1]);
                }
            }
        },
    }
}

/// Requests that do not name the package of `e` (conflicts aside) find the
/// same keys and names in a list and in that list with `e` put at `p`, and
/// never find `e`'s package.
proof fn lemma_requested_insert(
    requests: Seq<RequirementModel>,
    a: Seq<RequirementModel>,
    e: RequirementModel,
    p: int,
    n: int,
)
    requires
        0 <= p <= a.len(),
        distinct_names_of(a.insert(p, e)),
        0 <= n <= requests.len(),
        forall|k: int| 0 <= k < requests.len() && !(#[trigger] requests[k]).conflict ==> requests[k].name != e.name,
    ensures
        requested_keys(requests, a, n) == requested_keys(requests, a.insert(p, e), n),
        requested_names(requests, a, n) == requested_names(requests, a.insert(p, e), n),
        !requested_names(requests, a, n).contains(e.name),
    decreases n,
{
    if n > 0 {
        lemma_requested_insert(requests, a, e, p, n - 1);
        let r = requests[n - 1];
        let b = a.insert(p, e);
        if !r.conflict {
            lemma_find_insert(a, e, p, r.name);
            lemma_find_name_from(a, r.name, 0);
            let prev = requested_names(requests, a, n - 1);
            if let Some(k) = find_name_from(a, r.name, 0) {
                let cur = prev.push(a[k].name);
                assert(cur == requested_names(requests, a, n));
                if cur.contains(e.name) {
                    let t = choose|t: int| 0 <= t < cur.len() && cur[t] == e.name;
                    if t < prev.len() {
                        assert(prev[t] == cur[t]);
                    }
                }
            }
        }
    }
}

/// With a requirement `e` that is not a conflict and not on a found
/// package put at `p`, a list has one more additional key.
proof fn lemma_additional_insert(
    a: Seq<RequirementModel>,
    e: RequirementModel,
    p: int,
    found: Seq<Seq<char>>,
    n: int,
)
    requires
        0 <= p <= a.len(),
        !e.conflict,
        !found.contains(e.name),
        0 <= n <= a.len(),
    ensures
        n <= p ==> additional_keys(a.insert(p, e), found, n) == additional_keys(a, found, n),
        n >= p ==> additional_keys(a.insert(p, e), found, n + 1).len() == additional_keys(a, found, n).len() + 1,
    decreases n,
{
    let b = a.insert(p, e);
    if n > 0 {
        lemma_additional_insert(a, e, p, found, n - 1);
        if n - 1 < p {
            assert(b[n - 1] == a[n - 1]);
        } else {
            assert(b[n] == a[n - 1]);
        }
    }
    if n == p {
        assert(additional_keys(b, found, n) == additional_keys(a, found, n));
        assert(b[p] == e);
        assert(additional_keys(b, found, n + 1) == additional_keys(b, found, n).push((range_key(e.range), e.name)));
    }
}

/// Of two variants of a package version where the second requires one more
/// package than the first, on a package that is neither requested
/// (conflict requests aside) nor a conflict, the first is worth using
/// first: it pulls in fewer other packages.
pub proof fn law_fewer_additional_first(
    requests: Seq<RequirementModel>,
    mode: VariantSelectMode,
    v1: VariantModel,
    v2: VariantModel,
    p: int,
    e: RequirementModel,
)
    requires
        v1.index == v2.index,
        v1.requires.requirements == v1.requires.by_name,
        v2.requires.requirements == v2.requires.by_name,
        0 <= p <= v1.requires.by_name.len(),
        v2.requires.by_name == v1.requires.by_name.insert(p, e),
        distinct_names_of(v2.requires.by_name),
        !e.conflict,
        forall|k: int| 0 <= k < requests.len() && !(#[trigger] requests[k]).conflict ==> requests[k].name != e.name,
    ensures
        variant_key_ord()(variant_key(requests, mode, v1), variant_key(requests, mode, v2)) > 0,
{
    let a = v1.requires.by_name;
    let n = requests.len() as int;
    lemma_requested_insert(requests, a, e, p, n);
    let found = requested_names(requests, a, n);
    lemma_additional_insert(a, e, p, found, a.len() as int);
    let kv1 = variant_key(requests, mode, v1);
    let kv2 = variant_key(requests, mode, v2);
    lemma_req_entries_refl(kv1.1.0);
    assert(kv1.0 == kv2.0);
    assert(kv1.1.0 == kv2.1.0);
    assert(kv2.1.1.0 == kv1.1.1.0 + 1);
    assert(int_ord()(kv1.0, kv2.0) == 0);
    assert(rev_int_ord()(kv1.1.1.0, kv2.1.1.0) == 1);
}

/// Of two variants of a package version with the same requirements, the
/// one with the greater index is worth using first.
pub proof fn law_greater_index_first(
    requests: Seq<RequirementModel>,
    mode: VariantSelectMode,
    v1: VariantModel,
    v2: VariantModel,
    i1: usize,
    i2: usize,
)
    requires
        v1.requires == v2.requires,
        v1.index == Some(i1),
        v2.index == Some(i2),
        i1 > i2,
    ensures
        variant_key_ord()(variant_key(requests, mode, v1), variant_key(requests, mode, v2)) > 0,
{
    let kv1 = variant_key(requests, mode, v1);
    let kv2 = variant_key(requests, mode, v2);
    lemma_req_entries_refl(kv1.1.0);
    lemma_add_entries_refl(kv1.1.1.1.0);
    assert(kv1.1.0 == kv2.1.0);
    assert(kv1.1.1.1.0 == kv2.1.1.1.0);
    assert(opt_ord()(kv1.1.1.1.1, kv2.1.1.1.1) == 1);
}

} // verus!
