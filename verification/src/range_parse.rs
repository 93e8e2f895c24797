//! Reading version ranges from rez's range syntax.
use vstd::prelude::*;
use crate::version::{RerVersion, is_parsed_version, version_text_ok};
use crate::version_order::{VersionModel, version_lt, bump_model};
use crate::range_model::{BoundModel, SegModel, union_model};
use crate::range_grammar::{ParsedModel, VersionParsed, parse_model, is_range_text, opt_text};
use crate::range::{VersionRange, any_model, singleton};
use crate::text::chars_of;

verus! {

/// The versions from `a` (included) to `b` (excluded), or no version when
/// `b` does not sort after `a`.
pub open spec fn between_model(a: VersionModel, b: VersionModel) -> Seq<SegModel> {
    if version_lt(a, b) {
        seq![(BoundModel::Included(a), BoundModel::Excluded(b))]
    } else {
        Seq::empty()
    }
}

/// The captured form bounds a range (forms 3 to 7).
pub open spec fn is_range_model(m: ParsedModel) -> bool {
    m.inclusive_bound is Some || m.lower_bound is Some || m.upper_bound is Some || m.range_asc is Some
        || m.range_desc is Some
}

/// The kinds of range that the grammar forms describe.
pub enum FormKind {
    /// `==v`: one version.
    Exact,
    /// `v`: a version and every version that extends it.
    Version,
    /// `a..b`: both ends included.
    Inclusive,
    /// `a+`: from a version up.
    Lower,
    /// `<b`, `<=b`: up to a version.
    Upper,
    /// `a+<b`: a lower then an upper bound.
    Ascending,
    /// `<=b,a+`: an upper then a lower bound.
    Descending,
}

/// Which kind of range a parsed form describes.
pub open spec fn form_kind(m: ParsedModel) -> FormKind {
    if !is_range_model(m) {
        if m.exact_version is Some {
            FormKind::Exact
        } else {
            FormKind::Version
        }
    } else if m.inclusive_bound is Some {
        FormKind::Inclusive
    } else if m.lower_bound is Some {
        FormKind::Lower
    } else if m.upper_bound is Some {
        FormKind::Upper
    } else if m.range_asc is Some {
        FormKind::Ascending
    } else {
        FormKind::Descending
    }
}

/// The captures holding the first and the second version of a form.
pub open spec fn first_capture(m: ParsedModel) -> Option<Seq<char>> {
    match form_kind(m) {
        FormKind::Exact => m.exact_version_group,
        FormKind::Version => m.version,
        FormKind::Inclusive => m.inclusive_lower_version,
        FormKind::Lower => m.lower_version,
        FormKind::Upper => None,
        FormKind::Ascending => m.range_lower_asc_version,
        FormKind::Descending => m.range_lower_desc_version,
    }
}

pub open spec fn second_capture(m: ParsedModel) -> Option<Seq<char>> {
    match form_kind(m) {
        FormKind::Inclusive => m.inclusive_upper_version,
        FormKind::Upper => m.upper_version,
        FormKind::Ascending => m.range_upper_asc_version,
        FormKind::Descending => m.range_upper_desc_version,
        _ => None,
    }
}

/// The form reads a first version.
pub open spec fn uses_first(m: ParsedModel) -> bool {
    !(form_kind(m) is Upper)
}

/// The form reads a second version.
pub open spec fn uses_second(m: ParsedModel) -> bool {
    !(form_kind(m) is Exact || form_kind(m) is Version || form_kind(m) is Lower)
}

/// A capture that a version can be read from.
pub open spec fn readable(c: Option<Seq<char>>) -> bool {
    c matches Some(t) && version_text_ok(t)
}

/// The text is the empty string, or matches the grammar with every version
/// that its form reads present and a version text (a token character, no white space).
pub open spec fn range_text_ok(s: Seq<char>) -> bool {
    s.len() == 0 || (parse_model(s) matches Some(m) && (uses_first(m) ==> readable(first_capture(m)))
        && (uses_second(m) ==> readable(second_capture(m))))
}

/// The range of a form, with `a` its first version and `b` its second.
pub open spec fn form_range(m: ParsedModel, a: VersionModel, b: VersionModel) -> Seq<SegModel> {
    match form_kind(m) {
        FormKind::Exact => seq![singleton(a)],
        FormKind::Version => seq![(BoundModel::Included(a), BoundModel::Excluded(bump_model(a)))],
        FormKind::Inclusive => union_model(between_model(a, b), seq![singleton(b)]),
        FormKind::Lower => seq![(BoundModel::Included(a), BoundModel::Unbounded)],
        FormKind::Upper => if m.upper_bound_prefix == Some(seq!['<']) {
            seq![(BoundModel::Unbounded, BoundModel::Excluded(b))]
        } else {
            union_model(seq![(BoundModel::Unbounded, BoundModel::Excluded(b))], seq![singleton(b)])
        },
        FormKind::Ascending => between_model(a, b),
        FormKind::Descending => if m.range_upper_desc_prefix == Some(seq!['<']) {
            between_model(a, b)
        } else {
            union_model(between_model(a, b), seq![singleton(b)])
        },
    }
}

/// `a` and `b` are read from the captures the form reads.
pub open spec fn form_versions(m: ParsedModel, a: VersionModel, b: VersionModel) -> bool {
    &&& uses_first(m) ==> is_parsed_version(first_capture(m).unwrap(), a)
    &&& uses_second(m) ==> is_parsed_version(second_capture(m).unwrap(), b)
}

/// `r` is the range that the text `s` (without `|`) describes: every
/// version for the empty string, otherwise the range of its grammar form
/// over the versions read from the captures.
pub open spec fn parses_as_range(s: Seq<char>, r: Seq<SegModel>) -> bool {
    if s.len() == 0 {
        r == any_model()
    } else {
        exists|a: VersionModel, b: VersionModel|
            form_versions(parse_model(s).unwrap(), a, b) && r == #[trigger] form_range(
                parse_model(s).unwrap(),
                a,
                b,
            )
    }
}

/// Whether an optional slice is exactly `<`.
fn is_strict_prefix(o: Option<&str>) -> (b: bool)
    ensures
        b == (opt_text(o) == Some(seq!['<'])),
{
    match o {
        None => false,
        Some(t) => {
            let cs = chars_of(t);
            let b = cs.len() == 1 && cs[0] == '<';
            assert(b ==> cs@ =~= seq!['<']);
            b
        },
    }
}

/// Whether an optional capture is a version text.
fn readable_exec(c: Option<&str>) -> (b: bool)
    ensures
        b == readable(opt_text(c)),
{
    match c {
        Some(t) => RerVersion::parse_from_string(t).is_ok(),
        None => false,
    }
}

/// Whether a `|`-free text is a range text that can be read (see
/// `range_text_ok`).
pub fn range_text_check(input: &str) -> (b: bool)
    ensures
        b == range_text_ok(input@),
{
    if input.unicode_len() == 0 {
        return true;
    }
    match VersionParsed::try_parse_str(input) {
        None => false,
        Some(p) => {
            let ghost m = p.model();
            let (first, second, uses_1, uses_2) = if !p.is_range() {
                if p.exact_version.is_some() {
                    (p.exact_version_group, None, true, false)
                } else {
                    (p.version, None, true, false)
                }
            } else if p.inclusive_bound.is_some() {
                (p.inclusive_lower_version, p.inclusive_upper_version, true, true)
            } else if p.lower_bound.is_some() {
                (p.lower_version, None, true, false)
            } else if p.upper_bound.is_some() {
                (None, p.upper_version, false, true)
            } else if p.range_asc.is_some() {
                (p.range_lower_asc_version, p.range_upper_asc_version, true, true)
            } else {
                (p.range_lower_desc_version, p.range_upper_desc_version, true, true)
            };
            assert(opt_text(first) == first_capture(m));
            assert(opt_text(second) == second_capture(m));
            assert(uses_1 == uses_first(m));
            assert(uses_2 == uses_second(m));
            (!uses_1 || readable_exec(first)) && (!uses_2 || readable_exec(second))
        },
    }
}

/// Reads a version from a slice that is a version text.
fn read_version(t: &str) -> (v: RerVersion)
    requires
        version_text_ok(t@),
    ensures
        is_parsed_version(t@, v@),
{
    match RerVersion::parse_from_string(t) {
        Ok(v) => v,
        Err(_) => {
            proof {
                assert(false);
            }
            RerVersion::lowest()
        },
    }
}

/// The range that one `|`-free part of a range string describes (rez's
/// forms: `1.0`, `==1.0`, `1..2`, `1+`, `<2`, `<=2`, `1+<2`, `<=2,1+`);
/// the empty string is the range of every version.
pub fn parse_version_range(input: &str) -> (r: VersionRange)
    requires
        range_text_ok(input@),
    ensures
        parses_as_range(input@, r@),
{
    if input.unicode_len() == 0 {
        return VersionRange::any();
    }
    let parsed = VersionParsed::parse_str(input);
    let ghost m = parse_model(input@).unwrap();
    assert(parsed.model() == m);
    if !parsed.is_range() {
        if parsed.exact_version.is_some() {
            let t = parsed.exact_version_group.unwrap();
            let v = read_version(t);
            let r = VersionRange::exact(&v);
            assert(form_versions(m, v@, v@) && r@ == form_range(m, v@, v@));
            return r;
        }
        let t = parsed.version.unwrap();
        let v = read_version(t);
        let r = VersionRange::from_version(&v);
        assert(form_versions(m, v@, v@) && r@ == form_range(m, v@, v@));
        return r;
    }
    if parsed.inclusive_bound.is_some() {
        let start = read_version(parsed.inclusive_lower_version.unwrap());
        let end = read_version(parsed.inclusive_upper_version.unwrap());
        let b = VersionRange::between(&start, &end);
        let r = b.union(&VersionRange::exact(&end));
        assert(form_versions(m, start@, end@) && r@ == form_range(m, start@, end@));
        return r;
    }
    if parsed.lower_bound.is_some() {
        let start = read_version(parsed.lower_version.unwrap());
        let r = VersionRange::higher_than(&start);
        assert(form_versions(m, start@, start@) && r@ == form_range(m, start@, start@));
        return r;
    }
    if parsed.upper_bound.is_some() {
        let end = read_version(parsed.upper_version.unwrap());
        if is_strict_prefix(parsed.upper_bound_prefix) {
            let r = VersionRange::strictly_lower_than(&end);
            assert(form_versions(m, end@, end@) && r@ == form_range(m, end@, end@));
            return r;
        }
        let r = VersionRange::strictly_lower_than(&end).union(&VersionRange::exact(&end));
        assert(form_versions(m, end@, end@) && r@ == form_range(m, end@, end@));
        return r;
    }
    if parsed.range_asc.is_some() {
        let start = read_version(parsed.range_lower_asc_version.unwrap());
        let end = read_version(parsed.range_upper_asc_version.unwrap());
        let r = VersionRange::between(&start, &end);
        assert(form_versions(m, start@, end@) && r@ == form_range(m, start@, end@));
        return r;
    }
    let end = read_version(parsed.range_upper_desc_version.unwrap());
    let start = read_version(parsed.range_lower_desc_version.unwrap());
    if is_strict_prefix(parsed.range_upper_desc_prefix) {
        let r = VersionRange::between(&start, &end);
        assert(form_versions(m, start@, end@) && r@ == form_range(m, start@, end@));
        return r;
    }
    let r = VersionRange::between(&start, &end).union(&VersionRange::exact(&end));
    assert(form_versions(m, start@, end@) && r@ == form_range(m, start@, end@));
    r
}

/// The parts of `s` between `|` characters, in order (one empty part for
/// the empty string).
pub open spec fn split_bar(s: Seq<char>) -> Seq<Seq<char>>
    decreases s.len(),
{
    if s.len() == 0 {
        seq![Seq::empty()]
    } else {
        let prev = split_bar(s.drop_last());
        if s.last() == '|' {
            prev.push(Seq::empty())
        } else {
            prev.update(prev.len() - 1, prev.last().push(s.last()))
        }
    }
}

/// The union of a list of ranges, from the first on; every version for an
/// empty list.
pub open spec fn union_all(rs: Seq<Seq<SegModel>>) -> Seq<SegModel>
    decreases rs.len(),
{
    if rs.len() == 0 {
        any_model()
    } else if rs.len() == 1 {
        rs[0]
    } else {
        union_model(union_all(rs.drop_last()), rs.last())
    }
}

/// Every `|`-separated part of `s` is a range text that can be read.
pub open spec fn ranges_text_ok(s: Seq<char>) -> bool {
    forall|i: int| 0 <= i < split_bar(s).len() ==> range_text_ok(#[trigger] split_bar(s)[i])
}

/// `r` is the union of the ranges that the `|`-separated parts of `s`
/// describe.
pub open spec fn parses_as_ranges(s: Seq<char>, r: Seq<SegModel>) -> bool {
    exists|rs: Seq<Seq<SegModel>>|
        {
            &&& rs.len() == split_bar(s).len()
            &&& forall|i: int| 0 <= i < rs.len() ==> parses_as_range(split_bar(s)[i], #[trigger] rs[i])
            &&& r == #[trigger] union_all(rs)
        }
}

proof fn lemma_split_bar_len(s: Seq<char>)
    ensures
        split_bar(s).len() >= 1,
    decreases s.len(),
{
    if s.len() > 0 {
        lemma_split_bar_len(s.drop_last());
    }
}

/// Extending the text keeps every part but the last one.
proof fn lemma_split_bar_prefix(s: Seq<char>, i: int, j: int)
    requires
        0 <= i <= j <= s.len(),
    ensures
        split_bar(s.take(j)).len() >= split_bar(s.take(i)).len(),
        forall|k: int|
            0 <= k < split_bar(s.take(i)).len() - 1 ==> #[trigger] split_bar(s.take(j))[k]
                == split_bar(s.take(i))[k],
    decreases j - i,
{
    if j > i {
        lemma_split_bar_prefix(s, i, j - 1);
        let t = s.take(j);
        assert(t.drop_last() =~= s.take(j - 1));
        lemma_split_bar_len(s.take(j - 1));
        lemma_split_bar_len(s.take(i));
    }
}

/// Whether every `|`-separated part of a text is a range text that can be
/// read (see `ranges_text_ok`).
pub fn ranges_text_check(s: &str) -> (b: bool)
    ensures
        b == ranges_text_ok(s@),
{
    let cs = chars_of(s);
    let n = cs.len();
    let ghost t = s@;
    let mut start: usize = 0;
    let mut i: usize = 0;
    let ghost mut done: Seq<Seq<char>> = Seq::empty();
    assert(t.take(0) =~= Seq::<char>::empty());
    assert(split_bar(t.take(0)) =~= seq![t.subrange(0, 0)]);
    proof {
        lemma_split_bar_len(t);
    }
    while i < n
        invariant
            t == s@,
            cs@ == t,
            n == t.len(),
            start <= i <= n,
            split_bar(t.take(i as int)) == done.push(t.subrange(start as int, i as int)),
            forall|k: int| 0 <= k < done.len() ==> range_text_ok(#[trigger] done[k]),
            forall|k: int| 0 <= k < done.len() ==> #[trigger] split_bar(t)[k] == done[k],
            split_bar(t).len() > done.len(),
        decreases n - i,
    {
        let ghost before = t.take(i as int);
        assert(t.take(i + 1).drop_last() =~= before);
        assert(t.take(i + 1).last() == cs@[i as int]);
        if cs[i] == '|' {
            let part = s.substring_char(start, i);
            proof {
                lemma_split_bar_prefix(t, i + 1, n as int);
                assert(t.take(n as int) =~= t);
                let k = done.len() as int;
                assert(split_bar(t.take(i + 1)) == done.push(t.subrange(start as int, i as int)).push(Seq::empty()));
                assert(split_bar(t.take(i + 1))[k] == t.subrange(start as int, i as int));
                assert(split_bar(t)[k] == part@);
            }
            if !range_text_check(part) {
                return false;
            }
            let ghost old_done = done;
            proof {
                done = done.push(part@);
                assert forall|k: int| 0 <= k < done.len() implies range_text_ok(#[trigger] done[k]) by {
                    if k < old_done.len() {
                        assert(done[k] == old_done[k]);
                    }
                }
                assert forall|k: int| 0 <= k < done.len() implies #[trigger] split_bar(t)[k] == done[k] by {
                    if k < old_done.len() {
                        assert(done[k] == old_done[k]);
                    }
                }
                lemma_split_bar_len(t.take(n as int));
                assert(split_bar(t.take(i + 1)).len() == done.len() + 1);
                assert(t.subrange(i + 1, i + 1) =~= Seq::<char>::empty());
                assert(split_bar(t.take(i + 1)) =~= done.push(t.subrange(i + 1, i + 1)));
            }
            start = i + 1;
        } else {
            proof {
                assert(t.subrange(start as int, i + 1) =~= t.subrange(start as int, i as int).push(t[i as int]));
                assert(split_bar(t.take(i + 1)) =~= done.push(t.subrange(start as int, i + 1)));
                lemma_split_bar_prefix(t, i + 1, n as int);
                assert(t.take(n as int) =~= t);
            }
        }
        i = i + 1;
    }
    let part = s.substring_char(start, n);
    proof {
        assert(t.take(n as int) =~= t);
        let k = done.len() as int;
        assert(split_bar(t)[k] == part@);
        assert(split_bar(t).len() == k + 1);
    }
    let ok = range_text_check(part);
    proof {
        let k = done.len() as int;
        if ok {
            assert forall|j: int| 0 <= j < split_bar(t).len() implies range_text_ok(#[trigger] split_bar(t)[j]) by {
                if j < k {
                    assert(split_bar(t)[j] == done[j]);
                }
            }
        }
    }
    ok
}

impl VersionRange {
    /// Reads a range in rez's syntax: the union of its `|`-separated parts
    /// (`3`, `1+<2`, `==1.0`, `2|6+`); the empty string is the range of
    /// every version.
    pub fn parse(s: &str) -> (r: VersionRange)
        requires
            ranges_text_ok(s@),
        ensures
            parses_as_ranges(s@, r@),
    {
        let cs = chars_of(s);
        let n = cs.len();
        let ghost t = s@;
        let mut start: usize = 0;
        let mut i: usize = 0;
        let mut acc: Option<VersionRange> = None;
        let ghost mut done: Seq<Seq<char>> = Seq::empty();
        let ghost mut rs: Seq<Seq<SegModel>> = Seq::empty();
        assert(t.take(0) =~= Seq::<char>::empty());
        assert(split_bar(t.take(0)) =~= seq![t.subrange(0, 0)]);
        proof {
            lemma_split_bar_len(t);
        }
        while i < n
            invariant
                t == s@,
                cs@ == t,
                n == t.len(),
                start <= i <= n,
                split_bar(t.take(i as int)) == done.push(t.subrange(start as int, i as int)),
                rs.len() == done.len(),
                forall|k: int| 0 <= k < rs.len() ==> parses_as_range(done[k], #[trigger] rs[k]),
                forall|k: int| 0 <= k < done.len() ==> #[trigger] split_bar(t)[k] == done[k],
                split_bar(t).len() > done.len(),
                ranges_text_ok(t),
                acc is None <==> rs.len() == 0,
                acc matches Some(x) ==> x@ == union_all(rs),
            decreases n - i,
        {
            let ghost before = t.take(i as int);
            assert(t.take(i + 1).drop_last() =~= before);
            assert(t.take(i + 1).last() == cs@[i as int]);
            if cs[i] == '|' {
                let part = s.substring_char(start, i);
                proof {
                    lemma_split_bar_prefix(t, i + 1, n as int);
                    assert(t.take(n as int) =~= t);
                    let k = done.len() as int;
                    assert(split_bar(t.take(i + 1)) == done.push(t.subrange(start as int, i as int)).push(Seq::empty()));
                    assert(split_bar(t.take(i + 1))[k] == t.subrange(start as int, i as int));
                    assert(split_bar(t)[k] == part@);
                    assert(range_text_ok(split_bar(t)[k]));
                }
                let pr = parse_version_range(part);
                let ghost old_rs = rs;
                let ghost old_done = done;
                acc = match acc {
                    None => Some(pr),
                    Some(a) => Some(a.union(&pr)),
                };
                proof {
                    rs = rs.push(pr@);
                    done = done.push(part@);
                    assert(rs.drop_last() =~= old_rs);
                    assert forall|k: int| 0 <= k < rs.len() implies parses_as_range(done[k], #[trigger] rs[k]) by {
                        if k < old_rs.len() {
                            assert(rs[k] == old_rs[k] && done[k] == old_done[k]);
                        }
                    }
                    assert forall|k: int| 0 <= k < done.len() implies #[trigger] split_bar(t)[k] == done[k] by {
                        if k < old_done.len() {
                            assert(done[k] == old_done[k]);
                        }
                    }
                    lemma_split_bar_len(t.take(n as int));
                    assert(split_bar(t.take(i + 1)).len() == done.len() + 1);
                    assert(t.subrange(i + 1, i + 1) =~= Seq::<char>::empty());
                    assert(part@ == t.subrange(start as int, i as int));
                    assert(split_bar(t.take(i + 1)) =~= done.push(t.subrange(i + 1, i + 1)));
                }
                start = i + 1;
            } else {
                proof {
                    assert(t.subrange(start as int, i + 1) =~= t.subrange(start as int, i as int).push(t[i as int]));
                    assert(split_bar(t.take(i + 1)) =~= done.push(t.subrange(start as int, i + 1)));
                    lemma_split_bar_prefix(t, i + 1, n as int);
                    assert(t.take(n as int) =~= t);
                }
            }
            i = i + 1;
        }
        let part = s.substring_char(start, n);
        proof {
            assert(t.take(n as int) =~= t);
            let k = done.len() as int;
            assert(split_bar(t)[k] == part@);
            assert(split_bar(t).len() == k + 1);
        }
        let pr = parse_version_range(part);
        let ghost old_rs = rs;
        let ghost old_done = done;
        let r = match acc {
            None => pr,
            Some(a) => a.union(&pr),
        };
        proof {
            rs = rs.push(pr@);
            done = done.push(part@);
            assert(rs.drop_last() =~= old_rs);
            assert(done =~= split_bar(t)) by {
                assert forall|k: int| 0 <= k < done.len() implies done[k] == split_bar(t)[k] by {
                    if k < old_done.len() {
                        assert(done[k] == old_done[k]);
                    }
                }
            }
            assert forall|k: int| 0 <= k < rs.len() implies parses_as_range(split_bar(t)[k], #[trigger] rs[k]) by {
                if k < old_rs.len() {
                    assert(rs[k] == old_rs[k] && done[k] == old_done[k]);
                }
            }
            assert(r@ == union_all(rs));
        }
        r
    }
}

} // verus!
