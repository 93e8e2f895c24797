//! Requirements on a package, such as `foo-5+`, `!foo` or `~foo-1`, and
//! lists of them merged by package name.
use vstd::prelude::*;
use vstd::std_specs::cmp::PartialEqSpecImpl;
use crate::range_model::{SegModel, range_within, intersect_model, complement_model, union_model};
use crate::range::{VersionRange, any_model, range_text};
use crate::range_parse::{parses_as_ranges, ranges_text_ok};
use crate::text::{chars_of, string_from_chars};

verus! {

/// The model of a requirement.
pub struct RequirementModel {
    pub name: Seq<char>,
    /// `None` only for the requirement `~foo` that has no effect.
    pub range: Option<Seq<SegModel>>,
    /// A weak (`~`) requirement, stored as a conflict over the inverse of
    /// its range.
    pub negate: bool,
    /// A conflict (`!` or `~`) requirement.
    pub conflict: bool,
    /// The character shown between the name and the range.
    pub sep: char,
}

/// A character that ends the name of a requirement.
pub open spec fn is_req_sep(c: char) -> bool {
    c == '-' || c == '@' || c == '#' || c == '=' || c == '<' || c == '>'
}

/// A separator that is not part of the range.
pub open spec fn is_name_sep(c: char) -> bool {
    c == '-' || c == '@' || c == '#'
}

/// The first index at or after `i` of a character that ends a name.
pub open spec fn first_sep_from(s: Seq<char>, i: int) -> Option<int>
    decreases s.len() - i,
{
    if i < 0 || i >= s.len() {
        None
    } else if is_req_sep(s[i]) {
        Some(i)
    } else {
        first_sep_from(s, i + 1)
    }
}

/// The requirement is a conflict: it starts with `!` or `~`.
pub open spec fn text_conflict(s: Seq<char>) -> bool {
    s.len() > 0 && (s[0] == '!' || s[0] == '~')
}

/// The requirement is weak: it starts with `~`.
pub open spec fn text_weak(s: Seq<char>) -> bool {
    s.len() > 0 && s[0] == '~'
}

/// The text after the `!` or `~` prefix.
pub open spec fn req_body(s: Seq<char>) -> Seq<char> {
    if text_conflict(s) {
        s.skip(1)
    } else {
        s
    }
}

/// The range text of a requirement that has one: what follows the name,
/// without a leading `-`, `@` or `#`.
pub open spec fn req_range_text(s: Seq<char>) -> Seq<char> {
    let body = req_body(s);
    let i = first_sep_from(body, 0).unwrap();
    if is_name_sep(body[i]) {
        body.skip(i + 1)
    } else {
        body.skip(i)
    }
}

/// A requirement string whose range part can be read.
pub open spec fn requirement_text_ok(s: Seq<char>) -> bool {
    first_sep_from(req_body(s), 0) is Some ==> ranges_text_ok(req_range_text(s))
}

/// The range a requirement stores for the parsed range `p`: its inverse
/// for a weak requirement (`None` when `p` is every version).
pub open spec fn stored_range(p: Seq<SegModel>, negate: bool) -> Option<Seq<SegModel>> {
    if negate {
        if p == any_model() {
            None
        } else {
            Some(complement_model(p))
        }
    } else {
        Some(p)
    }
}

/// `m` is the requirement that the text `s` describes.
pub open spec fn parses_as_requirement(s: Seq<char>, m: RequirementModel) -> bool {
    let body = req_body(s);
    &&& m.conflict == text_conflict(s)
    &&& m.negate == text_weak(s)
    &&& match first_sep_from(body, 0) {
        Some(i) => {
            &&& m.name == body.take(i)
            &&& m.sep == (if is_name_sep(body[i]) {
                body[i]
            } else {
                '-'
            })
            &&& exists|p: Seq<SegModel>|
                #[trigger] parses_as_ranges(req_range_text(s), p) && m.range == stored_range(
                    p,
                    text_weak(s),
                )
        },
        None => {
            &&& m.name == body
            &&& m.sep == '-'
            &&& m.range == (if text_weak(s) {
                None
            } else {
                Some(any_model())
            })
        },
    }
}

/// The two requirements cannot both be satisfied: same name, and either
/// two normal requirements over disjoint ranges, or a conflict whose range
/// covers the other's range.
pub open spec fn conflicts_model(a: RequirementModel, b: RequirementModel) -> bool {
    if a.name != b.name {
        false
    } else {
        match (a.range, b.range) {
            (Some(ra), Some(rb)) => if a.conflict {
                if b.conflict {
                    false
                } else {
                    range_within(rb, ra)
                }
            } else if b.conflict {
                range_within(ra, rb)
            } else {
                intersect_model(ra, rb).len() == 0
            },
            _ => false,
        }
    }
}

/// The versions of `a` without those of `b`: `None` when `b` is every
/// version or nothing is left.
pub open spec fn difference_model(a: Seq<SegModel>, b: Seq<SegModel>) -> Option<Seq<SegModel>> {
    if b == any_model() {
        None
    } else if intersect_model(a, complement_model(b)).len() == 0 {
        None
    } else {
        Some(intersect_model(a, complement_model(b)))
    }
}

/// The versions both ranges hold, `None` when they share none.
pub open spec fn intersection_model(a: Seq<SegModel>, b: Seq<SegModel>) -> Option<Seq<SegModel>> {
    if intersect_model(a, b).len() == 0 {
        None
    } else {
        Some(intersect_model(a, b))
    }
}

/// The merge of two requirements on the same package, `None` when they
/// are in conflict or name different packages.
pub open spec fn merged_model(a: RequirementModel, b: RequirementModel) -> Option<RequirementModel> {
    if a.name != b.name {
        None
    } else {
        match (a.range, b.range) {
            (None, _) => Some(b),
            (_, None) => Some(a),
            (Some(ra), Some(rb)) => if a.conflict {
                if b.conflict {
                    let u = union_model(ra, rb);
                    Some(
                        RequirementModel {
                            range: Some(u),
                            negate: a.negate && b.negate && u != any_model(),
                            ..a
                        },
                    )
                } else {
                    match difference_model(rb, ra) {
                        None => None,
                        Some(d) => Some(RequirementModel { range: Some(d), ..b }),
                    }
                }
            } else if b.conflict {
                match difference_model(ra, rb) {
                    None => None,
                    Some(d) => Some(RequirementModel { range: Some(d), ..a }),
                }
            } else {
                match intersection_model(ra, rb) {
                    None => None,
                    Some(x) => Some(RequirementModel { range: Some(x), ..a }),
                }
            },
        }
    }
}

/// The range a requirement shows: the stored range, turned back for a
/// weak requirement; every version when there is none.
pub open spec fn shown_range(m: RequirementModel) -> Seq<SegModel> {
    if m.negate {
        match m.range {
            Some(r) => if r == any_model() {
                any_model()
            } else {
                complement_model(r)
            },
            None => any_model(),
        }
    } else {
        match m.range {
            Some(r) => r,
            None => any_model(),
        }
    }
}

/// The range text starts with a comparison character.
pub open spec fn starts_with_op(t: Seq<char>) -> bool {
    t.len() > 0 && (t[0] == '=' || t[0] == '<' || t[0] == '>')
}

/// The text of a requirement: `~` or `!` for a weak or conflict one, the
/// name, then, unless the range is every version, the separator (left out
/// before `=`, `<` or `>`) and the range.
pub open spec fn requirement_text(m: RequirementModel) -> Seq<char> {
    let pre: Seq<char> = if m.negate {
        seq!['~']
    } else if m.conflict {
        seq!['!']
    } else {
        Seq::empty()
    };
    let r = shown_range(m);
    let rt = range_text(r);
    pre + m.name + (if r == any_model() {
        Seq::empty()
    } else if starts_with_op(rt) {
        rt
    } else {
        seq![m.sep] + rt
    })
}

/// A requirement for an object: a name, an optional version range and
/// whether it is a conflict (`!foo`) or weak (`~foo`) requirement.
#[derive(Debug)]
pub struct Requirement {
    name: String,
    range: Option<VersionRange>,
    negate: bool,
    conflict: bool,
    sep: char,
}

impl View for Requirement {
    type V = RequirementModel;

    closed spec fn view(&self) -> RequirementModel {
        RequirementModel {
            name: self.name@,
            range: match self.range {
                Some(r) => Some(r@),
                None => None,
            },
            negate: self.negate,
            conflict: self.conflict,
            sep: self.sep,
        }
    }
}

fn copy_range(r: &Option<VersionRange>) -> (c: Option<VersionRange>)
    ensures
        c matches Some(x) ==> r matches Some(y) && x@ == y@,
        c is None <==> r is None,
{
    match r {
        Some(x) => Some(x.clone()),
        None => None,
    }
}

impl Clone for VersionRange {
    fn clone(&self) -> (r: Self)
        ensures
            r@ == self@,
    {
        self.duplicate()
    }
}

impl Requirement {
    /// A copy of the requirement.
    pub fn duplicate(&self) -> (r: Requirement)
        ensures
            r@ == self@,
    {
        Requirement {
            name: self.name.clone(),
            range: copy_range(&self.range),
            negate: self.negate,
            conflict: self.conflict,
            sep: self.sep,
        }
    }
}

impl Clone for Requirement {
    fn clone(&self) -> (r: Self)
        ensures
            r@ == self@,
    {
        self.duplicate()
    }
}

/// The index of the first character at or after `i` that ends a name.
fn find_sep(cs: &[char], i: usize) -> (r: Option<usize>)
    requires
        i <= cs@.len(),
    ensures
        r matches Some(k) ==> first_sep_from(cs@, i as int) == Some(k as int),
        r is None ==> first_sep_from(cs@, i as int) is None,
    decreases cs@.len() - i,
{
    if i == cs.len() {
        return None;
    }
    let c = cs[i];
    if c == '-' || c == '@' || c == '#' || c == '=' || c == '<' || c == '>' {
        Some(i)
    } else {
        find_sep(cs, i + 1)
    }
}

/// The first separator lies at or after `i`, inside the text.
proof fn lemma_first_sep_bounds(s: Seq<char>, i: int)
    ensures
        first_sep_from(s, i) matches Some(k) ==> i <= k < s.len() && is_req_sep(s[k]),
    decreases s.len() - i,
{
    if 0 <= i < s.len() && !is_req_sep(s[i]) {
        lemma_first_sep_bounds(s, i + 1);
    }
}

/// Searching a suffix finds the same separator, shifted.
proof fn lemma_skip_first_sep(s: Seq<char>, k: int, i: int)
    requires
        0 <= k <= i <= s.len(),
    ensures
        first_sep_from(s.skip(k), i - k) == (match first_sep_from(s, i) {
            Some(j) => Some(j - k),
            None => None,
        }),
    decreases s.len() - i,
{
    if i < s.len() {
        assert(s.skip(k)[i - k] == s[i]);
        lemma_skip_first_sep(s, k, i + 1);
    }
}

impl Requirement {
    /// Reads a requirement such as `foo-1.0`, `foo<3`, `!foo` or `~foo-1`:
    /// a leading `!` makes it a conflict, a leading `~` a weak requirement
    /// (a conflict over the inverse of its range); the name runs up to the
    /// first `-`, `@`, `#`, `=`, `<` or `>`, and the rest (without a leading
    /// `-`, `@` or `#`) is its range.
    pub fn parse(s: &str) -> (r: Requirement)
        requires
            requirement_text_ok(s@),
        ensures
            parses_as_requirement(s@, r@),
    {
        let cs = chars_of(s);
        let n = cs.len();
        let first = if n > 0 { cs[0] } else { ' ' };
        let conflict0 = n > 0 && (first == '!' || first == '~');
        let negate = n > 0 && first == '~';
        let b0: usize = if conflict0 { 1 } else { 0 };
        let body = s.substring_char(b0, n);
        let ghost t = s@;
        assert(body@ =~= req_body(t));
        proof {
            lemma_skip_first_sep(t, b0 as int, b0 as int);
        }
        match find_sep(cs.as_slice(), b0) {
            Some(k) => {
                proof {
                    lemma_first_sep_bounds(t, b0 as int);
                }
                let i = k - b0;
                assert(first_sep_from(req_body(t), 0) == Some(i as int));
                let name = s.substring_char(b0, k).to_owned();
                assert(name@ =~= req_body(t).take(i as int));
                let c = cs[k];
                assert(c == req_body(t)[i as int]);
                let named_sep = c == '-' || c == '@' || c == '#';
                let sep = if named_sep { c } else { '-' };
                let rest_start = if named_sep { k + 1 } else { k };
                let rest = s.substring_char(rest_start, n);
                assert(rest@ =~= req_range_text(t));
                let parsed = VersionRange::parse(rest);
                let range = if negate {
                    parsed.inverse()
                } else {
                    Some(parsed)
                };
                let r = Requirement { name, range, negate, conflict: conflict0, sep };
                assert(parses_as_ranges(req_range_text(t), parsed@) && r@.range == stored_range(parsed@, negate));
                r
            },
            None => {
                assert(first_sep_from(req_body(t), 0) is None);
                let name = body.to_owned();
                let range = if negate {
                    None
                } else {
                    Some(VersionRange::any())
                };
                Requirement { name, range, negate, conflict: conflict0, sep: '-' }
            },
        }
    }

    /// Whether a text is a requirement whose range part can be read (see
    /// `requirement_text_ok`).
    pub fn text_check(s: &str) -> (b: bool)
        ensures
            b == requirement_text_ok(s@),
    {
        let cs = chars_of(s);
        let n = cs.len();
        let first = if n > 0 { cs[0] } else { ' ' };
        let conflict0 = n > 0 && (first == '!' || first == '~');
        let b0: usize = if conflict0 { 1 } else { 0 };
        let body = s.substring_char(b0, n);
        let ghost t = s@;
        assert(body@ =~= req_body(t));
        proof {
            lemma_skip_first_sep(t, b0 as int, b0 as int);
        }
        match find_sep(cs.as_slice(), b0) {
            Some(k) => {
                proof {
                    lemma_first_sep_bounds(t, b0 as int);
                }
                let i = k - b0;
                assert(first_sep_from(req_body(t), 0) == Some(i as int));
                let c = cs[k];
                assert(c == req_body(t)[i as int]);
                let named_sep = c == '-' || c == '@' || c == '#';
                let rest_start = if named_sep { k + 1 } else { k };
                let rest = s.substring_char(rest_start, n);
                assert(rest@ =~= req_range_text(t));
                crate::range_parse::ranges_text_check(rest)
            },
            None => {
                assert(first_sep_from(req_body(t), 0) is None);
                true
            },
        }
    }

    /// A normal requirement on `name` over `range` (every version when
    /// there is none).
    pub fn construct(name: String, range: Option<VersionRange>) -> (r: Requirement)
        ensures
            r@.name == name@,
            r@.range == Some(match range {
                Some(x) => x@,
                None => any_model(),
            }),
            !r@.negate,
            !r@.conflict,
            r@.sep == '-',
    {
        let range = match range {
            Some(x) => x,
            None => VersionRange::any(),
        };
        Requirement { name, range: Some(range), negate: false, conflict: false, sep: '-' }
    }

    /// The name of the required object.
    pub fn name(&self) -> (r: &str)
        ensures
            r@ == self@.name,
    {
        self.name.as_str()
    }

    /// The range, `None` for the weak requirement with no effect (`~foo`).
    pub fn range(&self) -> (r: Option<&VersionRange>)
        ensures
            r matches Some(x) ==> self@.range == Some(x@),
            r is None <==> self@.range is None,
    {
        match &self.range {
            Some(x) => Some(x),
            None => None,
        }
    }

    /// Whether this is a conflict requirement (`!foo`, `~foo-1`).
    pub fn is_conflict(&self) -> (b: bool)
        ensures
            b == self@.conflict,
    {
        self.conflict
    }

    /// Whether this is a weak requirement (`~foo`).
    pub fn is_weak(&self) -> (b: bool)
        ensures
            b == self@.negate,
    {
        self.negate
    }

    /// Whether the two requirements cannot both be satisfied.
    pub fn conflicts_with(&self, other: &Requirement) -> (b: bool)
        ensures
            b == conflicts_model(self@, other@),
    {
        if self.name != other.name {
            return false;
        }
        match (&self.range, &other.range) {
            (Some(a), Some(b)) => {
                if self.conflict {
                    if other.conflict {
                        false
                    } else {
                        a.issuperset(b)
                    }
                } else if other.conflict {
                    b.issuperset(a)
                } else {
                    !a.intersects(b)
                }
            },
            _ => false,
        }
    }

    /// The merge of two requirements for the same object, or `None` when
    /// they cannot both be satisfied (or name different objects).
    pub fn merged(&self, other: &Requirement) -> (r: Option<Requirement>)
        ensures
            match r {
                Some(x) => merged_model(self@, other@) == Some(x@),
                None => merged_model(self@, other@) is None,
            },
    {
        if self.name != other.name {
            return None;
        }
        match (&self.range, &other.range) {
            (None, _) => Some(other.duplicate()),
            (_, None) => Some(self.duplicate()),
            (Some(a), Some(b)) => {
                if self.conflict {
                    if other.conflict {
                        let u = a.union(b);
                        let negate = self.negate && other.negate && !u.is_any();
                        Some(
                            Requirement {
                                name: self.name.clone(),
                                range: Some(u),
                                negate,
                                conflict: self.conflict,
                                sep: self.sep,
                            },
                        )
                    } else {
                        match b.difference(a) {
                            None => None,
                            Some(d) => Some(
                                Requirement {
                                    name: other.name.clone(),
                                    range: Some(d),
                                    negate: other.negate,
                                    conflict: other.conflict,
                                    sep: other.sep,
                                },
                            ),
                        }
                    }
                } else if other.conflict {
                    match a.difference(b) {
                        None => None,
                        Some(d) => Some(
                            Requirement {
                                name: self.name.clone(),
                                range: Some(d),
                                negate: self.negate,
                                conflict: self.conflict,
                                sep: self.sep,
                            },
                        ),
                    }
                } else {
                    match a.intersection(b) {
                        None => None,
                        Some(x) => Some(
                            Requirement {
                                name: self.name.clone(),
                                range: Some(x),
                                negate: self.negate,
                                conflict: self.conflict,
                                sep: self.sep,
                            },
                        ),
                    }
                }
            },
        }
    }

    /// The requirement in rez's syntax (`foo-1.0`, `!foo`, `~foo-1`,
    /// `foo<3`).
    pub fn to_string(&self) -> (s: String)
        ensures
            s@ == requirement_text(self@),
    {
        let mut out: Vec<char> = Vec::new();
        if self.negate {
            out.push('~');
        } else if self.conflict {
            out.push('!');
        }
        let name = chars_of(self.name.as_str());
        let mut i: usize = 0;
        let ghost pre = out@;
        while i < name.len()
            invariant
                i <= name@.len(),
                out@ == pre + name@.take(i as int),
            decreases name.len() - i,
        {
            out.push(name[i]);
            i = i + 1;
            assert(out@ =~= pre + name@.take(i as int));
        }
        assert(name@.take(i as int) =~= name@);
        let range = if self.negate {
            match &self.range {
                Some(r) => match r.inverse() {
                    Some(x) => x,
                    None => VersionRange::any(),
                },
                None => VersionRange::any(),
            }
        } else {
            match &self.range {
                Some(r) => r.duplicate(),
                None => VersionRange::any(),
            }
        };
        assert(range@ == shown_range(self@));
        let ghost head = out@;
        if !range.is_any() {
            let text = range.to_string();
            let tc = chars_of(text.as_str());
            let op = tc.len() > 0 && (tc[0] == '=' || tc[0] == '<' || tc[0] == '>');
            if !op {
                out.push(self.sep);
            }
            let ghost mid = out@;
            let mut j: usize = 0;
            while j < tc.len()
                invariant
                    j <= tc@.len(),
                    out@ == mid + tc@.take(j as int),
                decreases tc.len() - j,
            {
                out.push(tc[j]);
                j = j + 1;
                assert(out@ =~= mid + tc@.take(j as int));
            }
            assert(tc@.take(j as int) =~= tc@);
        }
        assert(out@ =~= requirement_text(self@));
        string_from_chars(out.as_slice())
    }
}

impl PartialEq for Requirement {
    fn eq(&self, other: &Self) -> (r: bool) {
        self.to_string() == other.to_string()
    }
}

// Two requirements are equal when they read the same.
impl PartialEqSpecImpl for Requirement {
    open spec fn obeys_eq_spec() -> bool {
        true
    }

    open spec fn eq_spec(&self, other: &Self) -> bool {
        requirement_text(self@) == requirement_text(other@)
    }
}

impl Eq for Requirement {
}

/// The index of the first requirement named `name`, from index `i` on.
pub open spec fn find_name_from(acc: Seq<RequirementModel>, name: Seq<char>, i: int) -> Option<int>
    decreases acc.len() - i,
{
    if i < 0 || i >= acc.len() {
        None
    } else if acc[i].name == name {
        Some(i)
    } else {
        find_name_from(acc, name, i + 1)
    }
}

/// Requirements merged by name, in the order their names first appear,
/// and the first pair that could not be merged (the requirements after it
/// are not looked at).
pub open spec fn fold_requirements(reqs: Seq<RequirementModel>) -> (
    Seq<RequirementModel>,
    Option<(RequirementModel, RequirementModel)>,
)
    decreases reqs.len(),
{
    if reqs.len() == 0 {
        (Seq::empty(), None)
    } else {
        let (acc, c) = fold_requirements(reqs.drop_last());
        if c is Some {
            (acc, c)
        } else {
            let r = reqs.last();
            match find_name_from(acc, r.name, 0) {
                None => (acc.push(r), None),
                Some(k) => match merged_model(acc[k], r) {
                    None => (acc, Some((acc[k], r))),
                    Some(m) => (acc.update(k, m), None),
                },
            }
        }
    }
}

/// The names of the requirements that are (or are not) conflicts, in
/// order.
pub open spec fn names_where(acc: Seq<RequirementModel>, conflict: bool) -> Seq<Seq<char>>
    decreases acc.len(),
{
    if acc.len() == 0 {
        Seq::empty()
    } else {
        let rest = names_where(acc.drop_last(), conflict);
        if acc.last().conflict == conflict {
            rest.push(acc.last().name)
        } else {
            rest
        }
    }
}

/// The models of a list of requirements.
pub open spec fn reqs_view(v: Seq<Requirement>) -> Seq<RequirementModel> {
    v.map_values(|r: Requirement| r@)
}

/// The texts of a list of strings.
pub open spec fn strings_view(v: Seq<String>) -> Seq<Seq<char>> {
    v.map_values(|s: String| s@)
}

/// The model of a requirement list.
pub struct RequirementListModel {
    pub requirements: Seq<RequirementModel>,
    pub by_name: Seq<RequirementModel>,
    pub conflict: Option<(RequirementModel, RequirementModel)>,
    pub names: Seq<Seq<char>>,
    pub conflict_names: Seq<Seq<char>>,
}

/// A list of requirements reduced to one per object: requirements on the
/// same object are merged, in the order the objects are first requested.
/// When two requirements cannot be merged, the list records that pair and
/// holds no requirement.
#[derive(Debug)]
pub struct RequirementList {
    requirements: Vec<Requirement>,
    by_name: Vec<Requirement>,
    conflict: Option<(Requirement, Requirement)>,
    names: Vec<String>,
    conflict_names: Vec<String>,
}

impl View for RequirementList {
    type V = RequirementListModel;

    closed spec fn view(&self) -> RequirementListModel {
        RequirementListModel {
            requirements: reqs_view(self.requirements@),
            by_name: reqs_view(self.by_name@),
            conflict: match self.conflict {
                Some(p) => Some((p.0@, p.1@)),
                None => None,
            },
            names: strings_view(self.names@),
            conflict_names: strings_view(self.conflict_names@),
        }
    }
}

/// The index of the requirement named `name` in `v`, from `i` on.
fn find_by_name(v: &Vec<Requirement>, name: &String, i: usize) -> (r: Option<usize>)
    requires
        i <= v@.len(),
    ensures
        match r {
            Some(k) => find_name_from(reqs_view(v@), name@, i as int) == Some(k as int) && k < v@.len(),
            None => find_name_from(reqs_view(v@), name@, i as int) is None,
        },
    decreases v@.len() - i,
{
    if i == v.len() {
        return None;
    }
    assert(reqs_view(v@)[i as int] == v@[i as int]@);
    if v[i].name == *name {
        Some(i)
    } else {
        find_by_name(v, name, i + 1)
    }
}

/// No two requirements are on the same package.
pub open spec fn names_distinct(rs: Seq<RequirementModel>) -> bool {
    forall|p: int, q: int| 0 <= p < q < rs.len() ==> (#[trigger] rs[p]).name != (#[trigger] rs[q]).name
}

/// The search by name finds the first requirement with that name.
/// Where merging a list of requirements stops on a pair that cannot be
/// merged, the two are on one package and cannot be merged.
pub proof fn lemma_fold_conflict_pair(reqs: Seq<RequirementModel>)
    ensures
        fold_requirements(reqs).1 matches Some((a, b)) ==> a.name == b.name && merged_model(a, b) is None,
    decreases reqs.len(),
{
    if reqs.len() > 0 {
        lemma_fold_conflict_pair(reqs.drop_last());
        let acc = fold_requirements(reqs.drop_last()).0;
        lemma_find_name_from(acc, reqs.last().name, 0);
    }
}

pub proof fn lemma_find_name_from(acc: Seq<RequirementModel>, name: Seq<char>, i: int)
    requires
        0 <= i <= acc.len(),
    ensures
        find_name_from(acc, name, i) matches Some(k) ==> i <= k < acc.len() && acc[k].name == name,
        find_name_from(acc, name, i) is None ==> forall|k: int| i <= k < acc.len() ==> acc[k].name != name,
    decreases acc.len() - i,
{
    if i < acc.len() && acc[i].name != name {
        lemma_find_name_from(acc, name, i + 1);
    }
}

/// Merging keeps one requirement per package.
pub proof fn lemma_fold_distinct(reqs: Seq<RequirementModel>)
    ensures
        names_distinct(fold_requirements(reqs).0),
    decreases reqs.len(),
{
    if reqs.len() > 0 {
        lemma_fold_distinct(reqs.drop_last());
        let (acc, c) = fold_requirements(reqs.drop_last());
        let r = reqs.last();
        lemma_find_name_from(acc, r.name, 0);
        if c is None {
            match find_name_from(acc, r.name, 0) {
                None => {
                    let a2 = acc.push(r);
                    assert forall|p: int, q: int| 0 <= p < q < a2.len() implies (#[trigger] a2[p]).name
                        != (#[trigger] a2[q]).name by {
                        if q < acc.len() {
                            assert(a2[p] == acc[p] && a2[q] == acc[q]);
                        } else {
                            assert(a2[p] == acc[p]);
                        }
                    }
                },
                Some(k) => {
                    if let Some(m) = merged_model(acc[k], r) {
                        let a2 = acc.update(k, m);
                        assert(m.name == acc[k].name);
                        assert forall|p: int, q: int| 0 <= p < q < a2.len() implies (#[trigger] a2[p]).name
                            != (#[trigger] a2[q]).name by {
                            assert(a2[p].name == acc[p].name);
                            assert(a2[q].name == acc[q].name);
                        }
                    }
                },
            }
        }
    }
}

impl RequirementList {
    #[verifier::type_invariant]
    spec fn inv(self) -> bool {
        names_distinct(reqs_view(self.requirements@))
    }

    /// No two of the merged requirements are on the same package.
    pub fn check_distinct(&self)
        ensures
            names_distinct(self@.requirements),
    {
        proof {
            use_type_invariant(self);
        }
    }

    /// Merges the requirements by object name; on the first pair that
    /// cannot be merged, stops and records it.
    pub fn new(requirements: Vec<Requirement>) -> (r: RequirementList)
        ensures
            r@.by_name == fold_requirements(reqs_view(requirements@)).0,
            r@.conflict == fold_requirements(reqs_view(requirements@)).1,
            r@.conflict is Some ==> r@.requirements.len() == 0 && r@.names.len() == 0
                && r@.conflict_names.len() == 0,
            r@.conflict is None ==> r@.requirements == r@.by_name && r@.names == names_where(
                r@.by_name,
                false,
            ) && r@.conflict_names == names_where(r@.by_name, true),
    {
        let ghost all = reqs_view(requirements@);
        let mut by_name: Vec<Requirement> = Vec::new();
        let mut i: usize = 0;
        while i < requirements.len()
            invariant
                i <= requirements@.len(),
                all == reqs_view(requirements@),
                fold_requirements(all.take(i as int)) == (reqs_view(by_name@), None::<(RequirementModel, RequirementModel)>),
            decreases requirements.len() - i,
        {
            let req = &requirements[i];
            assert(all.take(i + 1).drop_last() =~= all.take(i as int));
            assert(all.take(i + 1).last() == req@);
            match find_by_name(&by_name, &req.name, 0) {
                None => {
                    let ghost before = reqs_view(by_name@);
                    by_name.push(req.duplicate());
                    assert(reqs_view(by_name@) =~= before.push(req@));
                },
                Some(k) => {
                    assert(reqs_view(by_name@)[k as int] == by_name@[k as int]@);
                    match by_name[k].merged(req) {
                        None => {
                            let pair = (by_name[k].duplicate(), req.duplicate());
                            let empty: Vec<Requirement> = Vec::new();
                            assert(reqs_view(empty@) =~= Seq::<RequirementModel>::empty());
                            let r = RequirementList {
                                requirements: empty,
                                by_name,
                                conflict: Some(pair),
                                names: Vec::new(),
                                conflict_names: Vec::new(),
                            };
                            proof {
                                lemma_fold_stops(all, i as int + 1);
                                assert(all.take(requirements@.len() as int) =~= all);
                                assert(r@.requirements =~= Seq::<RequirementModel>::empty());
                                assert(r@.names =~= Seq::<Seq<char>>::empty());
                                assert(r@.conflict_names =~= Seq::<Seq<char>>::empty());
                            }
                            return r;
                        },
                        Some(m) => {
                            let ghost before = reqs_view(by_name@);
                            by_name.set(k, m);
                            assert(reqs_view(by_name@) =~= before.update(k as int, m@));
                        },
                    }
                },
            }
            i = i + 1;
        }
        assert(all.take(i as int) =~= all);
        let mut list: Vec<Requirement> = Vec::new();
        let mut names: Vec<String> = Vec::new();
        let mut conflict_names: Vec<String> = Vec::new();
        let ghost acc = reqs_view(by_name@);
        let mut j: usize = 0;
        while j < by_name.len()
            invariant
                j <= by_name@.len(),
                acc == reqs_view(by_name@),
                reqs_view(list@) == acc.take(j as int),
                strings_view(names@) == names_where(acc.take(j as int), false),
                strings_view(conflict_names@) == names_where(acc.take(j as int), true),
            decreases by_name.len() - j,
        {
            let q = &by_name[j];
            assert(acc[j as int] == q@);
            assert(acc.take(j + 1).drop_last() =~= acc.take(j as int));
            let ghost l0 = reqs_view(list@);
            let ghost n0 = strings_view(names@);
            let ghost c0 = strings_view(conflict_names@);
            if q.conflict {
                conflict_names.push(q.name.clone());
                assert(strings_view(conflict_names@) =~= c0.push(q@.name));
            } else {
                names.push(q.name.clone());
                assert(strings_view(names@) =~= n0.push(q@.name));
            }
            list.push(q.duplicate());
            assert(reqs_view(list@) =~= l0.push(q@));
            j = j + 1;
            assert(reqs_view(list@) =~= acc.take(j as int));
        }
        assert(acc.take(j as int) =~= acc);
        proof {
            lemma_fold_distinct(all);
            assert(reqs_view(list@) =~= acc);
        }
        RequirementList { requirements: list, by_name, conflict: None, names, conflict_names }
    }

    /// The merged requirements, one per object, in request order.
    pub fn requirements(&self) -> (r: &[Requirement])
        ensures
            reqs_view(r@) == self@.requirements,
    {
        self.requirements.as_slice()
    }

    /// The pair of requirements that could not be merged, if any.
    pub fn conflict(&self) -> (r: Option<&(Requirement, Requirement)>)
        ensures
            match r {
                Some(p) => self@.conflict == Some((p.0@, p.1@)),
                None => self@.conflict is None,
            },
    {
        match &self.conflict {
            Some(p) => Some(p),
            None => None,
        }
    }

    /// The names of the normal requirements, in request order.
    pub fn names(&self) -> (r: &[String])
        ensures
            strings_view(r@) == self@.names,
    {
        self.names.as_slice()
    }

    /// The names of the conflict requirements, in request order.
    pub fn conflict_names(&self) -> (r: &[String])
        ensures
            strings_view(r@) == self@.conflict_names,
    {
        self.conflict_names.as_slice()
    }

    /// The merged requirement for `name`, if there is one.
    pub fn get(&self, name: &str) -> (r: Option<&Requirement>)
        ensures
            match r {
                Some(q) => find_name_from(self@.by_name, name@, 0) matches Some(k) && self@.by_name[k]
                    == q@,
                None => find_name_from(self@.by_name, name@, 0) is None,
            },
    {
        let key = name.to_owned();
        match find_by_name(&self.by_name, &key, 0) {
            Some(k) => {
                assert(reqs_view(self.by_name@)[k as int] == self.by_name@[k as int]@);
                Some(&self.by_name[k])
            },
            None => None,
        }
    }
}

/// Once a pair cannot be merged, later requirements change nothing.
proof fn lemma_fold_stops(all: Seq<RequirementModel>, i: int)
    requires
        0 < i <= all.len(),
        fold_requirements(all.take(i)).1 is Some,
    ensures
        fold_requirements(all) == fold_requirements(all.take(i)),
    decreases all.len() - i,
{
    if i < all.len() {
        assert(all.take(i + 1).drop_last() =~= all.take(i));
        lemma_fold_stops(all, i + 1);
    } else {
        assert(all.take(i) =~= all);
    }
}

} // verus!
