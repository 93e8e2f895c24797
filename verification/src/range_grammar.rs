//! The grammar of a single rez version range (no `|`): which of the seven
//! forms a string takes, and which parts of it each named field captures.
//!
//! A *version word* `V` is `[0-9a-zA-Z_]+([.-][0-9a-zA-Z_]+)*`. The forms
//! are tried in order and the first that matches the whole string wins:
//!
//! 1. `V` — a version;
//! 2. `==V?` — an exact version;
//! 3. `V?..V?` — an inclusive bound;
//! 4. `(>|>=)?V?\+?` — a lower bound;
//! 5. `(<|<=)?V?` — an upper bound;
//! 6. `((>|>=)?V?\+?)(,?(<|<=)?V?)` — an ascending range;
//! 7. `((<=?)?V\+?)(,((<|<=|>=?)V\+?))?` — a descending range.
use vstd::prelude::*;
use crate::version_order::is_word_char;
use crate::text::{chars_of, is_word_char_exec};

verus! {

/// `.` or `-`, the characters that join the words of a version word.
pub open spec fn is_joiner(c: char) -> bool {
    c == '.' || c == '-'
}

/// A version word: starts and ends with a token character, and every
/// joiner sits between two token characters.
pub open spec fn is_vword(t: Seq<char>) -> bool {
    &&& t.len() > 0
    &&& is_word_char(t[0])
    &&& is_word_char(t[t.len() - 1])
    &&& forall|i: int|
        0 <= i < t.len() ==> is_word_char(#[trigger] t[i]) || (is_joiner(t[i]) && 0 < i < t.len()
            - 1 && is_word_char(t[i - 1]) && is_word_char(t[i + 1]))
}

/// An optional version word: empty, or a version word.
pub open spec fn is_opt_vword(t: Seq<char>) -> bool {
    t.len() == 0 || is_vword(t)
}

/// The longest `k <= n` such that the first `k` characters form a version
/// word, or `0`.
pub open spec fn vword_prefix_upto(s: Seq<char>, n: int) -> int
    decreases n,
{
    if n <= 0 {
        0
    } else if is_vword(s.take(n)) {
        n
    } else {
        vword_prefix_upto(s, n - 1)
    }
}

/// The length of the longest prefix of `s` that is a version word (`0` if
/// there is none).
pub open spec fn vword_prefix(s: Seq<char>) -> int {
    vword_prefix_upto(s, s.len() as int)
}

/// The position of the first `..` in `s`, searching from `i`.
pub open spec fn first_dotdot_from(s: Seq<char>, i: int) -> Option<int>
    decreases s.len() - i,
{
    if i < 0 || i + 1 >= s.len() {
        None
    } else if s[i] == '.' && s[i + 1] == '.' {
        Some(i)
    } else {
        first_dotdot_from(s, i + 1)
    }
}

/// Length of a leading `>=` or `>` (`>=` when both fit).
pub open spec fn gt_prefix_len(s: Seq<char>) -> int {
    if s.len() >= 2 && s[0] == '>' && s[1] == '=' {
        2
    } else if s.len() >= 1 && s[0] == '>' {
        1
    } else {
        0
    }
}

/// Length of a leading `<=` or `<` (`<=` when both fit).
pub open spec fn lt_prefix_len(s: Seq<char>) -> int {
    if s.len() >= 2 && s[0] == '<' && s[1] == '=' {
        2
    } else if s.len() >= 1 && s[0] == '<' {
        1
    } else {
        0
    }
}

/// Length of a leading `<`, `<=`, `>=` or `>`.
pub open spec fn cmp_prefix_len(s: Seq<char>) -> int {
    if lt_prefix_len(s) > 0 {
        lt_prefix_len(s)
    } else {
        gt_prefix_len(s)
    }
}

/// Length of a leading `+`.
pub open spec fn plus_len(s: Seq<char>) -> int {
    if s.len() >= 1 && s[0] == '+' {
        1
    } else {
        0
    }
}

/// Length of a leading `,`.
pub open spec fn comma_len(s: Seq<char>) -> int {
    if s.len() >= 1 && s[0] == ',' {
        1
    } else {
        0
    }
}

/// `Some(t)` when `t` is not empty.
pub open spec fn some_if_nonempty(t: Seq<char>) -> Option<Seq<char>> {
    if t.len() > 0 {
        Some(t)
    } else {
        None
    }
}

/// The fields captured from a range string: one optional text per named
/// part of the grammar.
pub struct ParsedModel {
    pub version: Option<Seq<char>>,
    pub exact_version: Option<Seq<char>>,
    pub exact_version_group: Option<Seq<char>>,
    pub inclusive_bound: Option<Seq<char>>,
    pub inclusive_lower_version: Option<Seq<char>>,
    pub inclusive_upper_version: Option<Seq<char>>,
    pub lower_bound: Option<Seq<char>>,
    pub lower_bound_prefix: Option<Seq<char>>,
    pub lower_version: Option<Seq<char>>,
    pub upper_bound: Option<Seq<char>>,
    pub upper_bound_prefix: Option<Seq<char>>,
    pub upper_version: Option<Seq<char>>,
    pub range_asc: Option<Seq<char>>,
    pub range_lower_asc: Option<Seq<char>>,
    pub range_lower_asc_prefix: Option<Seq<char>>,
    pub range_lower_asc_version: Option<Seq<char>>,
    pub range_upper_asc: Option<Seq<char>>,
    pub range_upper_asc_prefix: Option<Seq<char>>,
    pub range_upper_asc_version: Option<Seq<char>>,
    pub range_desc: Option<Seq<char>>,
    pub range_upper_desc: Option<Seq<char>>,
    pub range_upper_desc_prefix: Option<Seq<char>>,
    pub range_upper_desc_version: Option<Seq<char>>,
    pub range_lower_desc: Option<Seq<char>>,
    pub range_lower_desc_prefix: Option<Seq<char>>,
    pub range_lower_desc_version: Option<Seq<char>>,
}

/// Nothing captured.
pub open spec fn no_captures() -> ParsedModel {
    ParsedModel {
        version: None,
        exact_version: None,
        exact_version_group: None,
        inclusive_bound: None,
        inclusive_lower_version: None,
        inclusive_upper_version: None,
        lower_bound: None,
        lower_bound_prefix: None,
        lower_version: None,
        upper_bound: None,
        upper_bound_prefix: None,
        upper_version: None,
        range_asc: None,
        range_lower_asc: None,
        range_lower_asc_prefix: None,
        range_lower_asc_version: None,
        range_upper_asc: None,
        range_upper_asc_prefix: None,
        range_upper_asc_version: None,
        range_desc: None,
        range_upper_desc: None,
        range_upper_desc_prefix: None,
        range_upper_desc_version: None,
        range_lower_desc: None,
        range_lower_desc_prefix: None,
        range_lower_desc_version: None,
    }
}

/// Form 1: the whole string is a version word.
pub open spec fn form_version(s: Seq<char>) -> Option<ParsedModel> {
    if is_vword(s) {
        Some(ParsedModel { version: Some(s), ..no_captures() })
    } else {
        None
    }
}

/// Form 2: `==` and an optional version word.
pub open spec fn form_exact(s: Seq<char>) -> Option<ParsedModel> {
    if s.len() >= 2 && s[0] == '=' && s[1] == '=' && is_opt_vword(s.skip(2)) {
        Some(
            ParsedModel {
                exact_version: Some(s),
                exact_version_group: some_if_nonempty(s.skip(2)),
                ..no_captures()
            },
        )
    } else {
        None
    }
}

/// Form 3: optional version words on both sides of the first `..`.
pub open spec fn form_inclusive(s: Seq<char>) -> Option<ParsedModel> {
    match first_dotdot_from(s, 0) {
        Some(p) => if is_opt_vword(s.take(p)) && is_opt_vword(s.skip(p + 2)) {
            Some(
                ParsedModel {
                    inclusive_bound: Some(s),
                    inclusive_lower_version: some_if_nonempty(s.take(p)),
                    inclusive_upper_version: some_if_nonempty(s.skip(p + 2)),
                    ..no_captures()
                },
            )
        } else {
            None
        },
        None => None,
    }
}

/// Form 4: optional `>`/`>=`, optional version word, optional `+`.
pub open spec fn form_lower_bound(s: Seq<char>) -> Option<ParsedModel> {
    let p = gt_prefix_len(s);
    let r = s.skip(p);
    let v = if r.len() > 0 && r[r.len() - 1] == '+' {
        r.drop_last()
    } else {
        r
    };
    if is_opt_vword(v) {
        Some(
            ParsedModel {
                lower_bound: Some(s),
                lower_bound_prefix: some_if_nonempty(s.take(p)),
                lower_version: some_if_nonempty(v),
                ..no_captures()
            },
        )
    } else {
        None
    }
}

/// Form 5: optional `<`/`<=`, optional version word.
pub open spec fn form_upper_bound(s: Seq<char>) -> Option<ParsedModel> {
    let p = lt_prefix_len(s);
    let v = s.skip(p);
    if is_opt_vword(v) {
        Some(
            ParsedModel {
                upper_bound: Some(s),
                upper_bound_prefix: some_if_nonempty(s.take(p)),
                upper_version: some_if_nonempty(v),
                ..no_captures()
            },
        )
    } else {
        None
    }
}

/// Form 6: a lower part (`>`/`>=`, version word, `+`, each optional) then an
/// upper part (`,`, `<`/`<=`, version word, each optional).
pub open spec fn form_range_asc(s: Seq<char>) -> Option<ParsedModel> {
    let p1 = gt_prefix_len(s);
    let v1 = vword_prefix(s.skip(p1));
    let a = p1 + v1;
    let lower_end = a + plus_len(s.skip(a));
    let c = lower_end + comma_len(s.skip(lower_end));
    let p2 = lt_prefix_len(s.skip(c));
    let b = c + p2;
    if is_opt_vword(s.skip(b)) {
        Some(
            ParsedModel {
                range_asc: Some(s),
                range_lower_asc: Some(s.take(lower_end)),
                range_lower_asc_prefix: some_if_nonempty(s.take(p1)),
                range_lower_asc_version: some_if_nonempty(s.subrange(p1, a)),
                range_upper_asc: Some(s.skip(lower_end)),
                range_upper_asc_prefix: some_if_nonempty(s.subrange(c, b)),
                range_upper_asc_version: some_if_nonempty(s.skip(b)),
                ..no_captures()
            },
        )
    } else {
        None
    }
}

/// Form 7: an upper part (`<`/`<=` optional, a version word, `+` optional),
/// then optionally `,` and a lower part (`<`, `<=`, `>` or `>=` optional, a
/// version word, `+` optional).
pub open spec fn form_range_desc(s: Seq<char>) -> Option<ParsedModel> {
    let p1 = lt_prefix_len(s);
    let v1 = vword_prefix(s.skip(p1));
    let a = p1 + v1;
    let upper_end = a + plus_len(s.skip(a));
    if v1 == 0 {
        None
    } else if upper_end == s.len() {
        Some(
            ParsedModel {
                range_desc: Some(s),
                range_upper_desc: Some(s),
                range_upper_desc_prefix: some_if_nonempty(s.take(p1)),
                range_upper_desc_version: Some(s.subrange(p1, a)),
                ..no_captures()
            },
        )
    } else if s[upper_end] != ',' {
        None
    } else {
        let l = upper_end + 1;
        let p2 = cmp_prefix_len(s.skip(l));
        let v2 = vword_prefix(s.skip(l + p2));
        let e = l + p2 + v2;
        if v2 > 0 && e + plus_len(s.skip(e)) == s.len() {
            Some(
                ParsedModel {
                    range_desc: Some(s),
                    range_upper_desc: Some(s.take(upper_end)),
                    range_upper_desc_prefix: some_if_nonempty(s.take(p1)),
                    range_upper_desc_version: Some(s.subrange(p1, a)),
                    range_lower_desc: Some(s.skip(l)),
                    range_lower_desc_prefix: some_if_nonempty(s.subrange(l, l + p2)),
                    range_lower_desc_version: Some(s.subrange(l + p2, e)),
                    ..no_captures()
                },
            )
        } else {
            None
        }
    }
}

/// The captures of the first form that matches `s`, or `None` when no form
/// does.
pub open spec fn parse_model(s: Seq<char>) -> Option<ParsedModel> {
    if form_version(s) is Some {
        form_version(s)
    } else if form_exact(s) is Some {
        form_exact(s)
    } else if form_inclusive(s) is Some {
        form_inclusive(s)
    } else if form_lower_bound(s) is Some {
        form_lower_bound(s)
    } else if form_upper_bound(s) is Some {
        form_upper_bound(s)
    } else if form_range_asc(s) is Some {
        form_range_asc(s)
    } else {
        form_range_desc(s)
    }
}

/// The string is empty or matches one of the forms.
pub open spec fn is_range_text(s: Seq<char>) -> bool {
    s.len() == 0 || parse_model(s) is Some
}

// ---------------------------------------------------------------------------
// Executable scanning
// ---------------------------------------------------------------------------

proof fn lemma_vword_prefix_upto(s: Seq<char>, n: int, k: int)
    requires
        0 <= k <= n <= s.len(),
        k == 0 || is_vword(s.take(k)),
        forall|j: int| k < j <= n ==> !is_vword(#[trigger] s.take(j)),
    ensures
        vword_prefix_upto(s, n) == k,
    decreases n,
{
    if n > k {
        lemma_vword_prefix_upto(s, n - 1, k);
    } else if n > 0 {
        assert(is_vword(s.take(n)));
    }
}

/// The length of the longest version-word prefix of `cs[i..]`.
fn vword_prefix_at(cs: &[char], i: usize) -> (k: usize)
    requires
        i <= cs@.len(),
    ensures
        k as int == vword_prefix(cs@.skip(i as int)),
        i + k <= cs@.len(),
{
    let ghost s = cs@.skip(i as int);
    let n = cs.len();
    if i == n || !is_word_char_exec(cs[i]) {
        proof {
            assert forall|j: int| 0 < j <= s.len() implies !is_vword(#[trigger] s.take(j)) by {
                assert(s.take(j)[0] == s[0]);
            }
            lemma_vword_prefix_upto(s, s.len() as int, 0);
        }
        return 0;
    }
    // `j` scans the run of token characters and joiners, each joiner right
    // after a token character
    let mut j: usize = i + 1;
    while j < n && (is_word_char_exec(cs[j]) || ((cs[j] == '.' || cs[j] == '-')
        && is_word_char_exec(cs[j - 1])))
        invariant
            n == cs@.len(),
            i < j <= n,
            s == cs@.skip(i as int),
            is_word_char(cs@[i as int]),
            forall|t: int|
                i <= t < j ==> is_word_char(#[trigger] cs@[t]) || (is_joiner(cs@[t]) && t > i
                    && is_word_char(cs@[t - 1])),
        decreases n - j,
    {
        j = j + 1;
    }
    // drop a trailing joiner
    let k = if is_word_char_exec(cs[j - 1]) {
        j - i
    } else {
        j - i - 1
    };
    proof {
        let kk = k as int;
        assert(kk > 0);
        let t = s.take(kk);
        assert(is_word_char(t[kk - 1])) by {
            assert(t[kk - 1] == cs@[i + kk - 1]);
            if !is_word_char(cs@[j - 1]) {
                assert(cs@[j - 2] == cs@[i + kk - 1]);
            }
        }
        assert forall|q: int| 0 <= q < t.len() implies is_word_char(#[trigger] t[q]) || (is_joiner(
            t[q],
        ) && 0 < q < t.len() - 1 && is_word_char(t[q - 1]) && is_word_char(t[q + 1])) by {
            assert(t[q] == cs@[i + q]);
            if !is_word_char(t[q]) {
                assert(is_joiner(cs@[i + q]) && i + q > i && is_word_char(cs@[i + q - 1]));
                assert(t[q - 1] == cs@[i + q - 1]);
                // the next character is a token character: a joiner cannot
                // follow a joiner, and the run does not end on a joiner here
                if q + 1 < t.len() {
                    assert(t[q + 1] == cs@[i + q + 1]);
                    if !is_word_char(cs@[i + q + 1]) {
                        assert(is_joiner(cs@[i + q + 1]) && is_word_char(cs@[i + q]));
                    }
                } else {
                    assert(q == kk - 1);
                }
            }
        }
        assert(t[0] == cs@[i as int]);
        assert(is_vword(t));
        // no longer prefix is a version word
        assert forall|q: int| kk < q <= s.len() implies !is_vword(#[trigger] s.take(q)) by {
            let u = s.take(q);
            if is_vword(u) {
                if (j - i) < q {
                    // the character at `j` breaks the run
                    let m = (j - i) as int;
                    assert(u[m] == cs@[j as int]);
                    assert(u[m - 1] == cs@[j - 1]);
                    if is_word_char(u[m]) {
                    } else {
                        assert(is_joiner(u[m]) && is_word_char(u[m - 1]));
                    }
                } else {
                    // q == j - i and the run ends on a joiner
                    assert(q == j - i);
                    assert(u[q - 1] == cs@[j - 1]);
                }
            }
        }
        lemma_vword_prefix_upto(s, s.len() as int, kk);
    }
    k
}

/// Whether `cs[i..]` is empty or a version word.
fn opt_vword_at(cs: &[char], i: usize) -> (b: bool)
    requires
        i <= cs@.len(),
    ensures
        b == is_opt_vword(cs@.skip(i as int)),
{
    let k = vword_prefix_at(cs, i);
    proof {
        let s = cs@.skip(i as int);
        if s.len() > 0 {
            assert(s.take(s.len() as int) =~= s);
            if is_vword(s) {
                lemma_vword_prefix_full(s);
            } else {
                lemma_vword_prefix_bounds(s, s.len() as int);
                if k as int == s.len() {
                    assert(is_vword(s.take(k as int)));
                }
            }
        }
    }
    i == cs.len() || i + k == cs.len()
}

proof fn lemma_vword_prefix_full(s: Seq<char>)
    requires
        is_vword(s),
    ensures
        vword_prefix(s) == s.len(),
{
    assert(s.take(s.len() as int) =~= s);
}

proof fn lemma_vword_prefix_bounds(s: Seq<char>, n: int)
    requires
        0 <= n <= s.len(),
    ensures
        0 <= vword_prefix_upto(s, n) <= n,
        vword_prefix_upto(s, n) > 0 ==> is_vword(s.take(vword_prefix_upto(s, n))),
    decreases n,
{
    if n > 0 && !is_vword(s.take(n)) {
        lemma_vword_prefix_bounds(s, n - 1);
    }
}


fn gt_prefix_at(cs: &[char], i: usize) -> (k: usize)
    requires
        i <= cs@.len(),
    ensures
        k as int == gt_prefix_len(cs@.skip(i as int)),
{
    let ghost s = cs@.skip(i as int);
    if cs.len() - i >= 2 && cs[i] == '>' && cs[i + 1] == '=' {
        assert(s[0] == cs@[i as int] && s[1] == cs@[i + 1]);
        2
    } else if cs.len() - i >= 1 && cs[i] == '>' {
        assert(s[0] == cs@[i as int]);
        proof {
            if s.len() >= 2 {
                assert(s[1] == cs@[i + 1]);
            }
        }
        1
    } else {
        proof {
            if s.len() >= 1 {
                assert(s[0] == cs@[i as int]);
            }
        }
        0
    }
}

fn lt_prefix_at(cs: &[char], i: usize) -> (k: usize)
    requires
        i <= cs@.len(),
    ensures
        k as int == lt_prefix_len(cs@.skip(i as int)),
{
    let ghost s = cs@.skip(i as int);
    if cs.len() - i >= 2 && cs[i] == '<' && cs[i + 1] == '=' {
        assert(s[0] == cs@[i as int] && s[1] == cs@[i + 1]);
        2
    } else if cs.len() - i >= 1 && cs[i] == '<' {
        assert(s[0] == cs@[i as int]);
        proof {
            if s.len() >= 2 {
                assert(s[1] == cs@[i + 1]);
            }
        }
        1
    } else {
        proof {
            if s.len() >= 1 {
                assert(s[0] == cs@[i as int]);
            }
        }
        0
    }
}

fn char_len_at(cs: &[char], i: usize, c: char) -> (k: usize)
    requires
        i <= cs@.len(),
    ensures
        k == 0 || k == 1,
        k == 1 <==> (i < cs@.len() && cs@[i as int] == c),
{
    if i < cs.len() && cs[i] == c {
        1
    } else {
        0
    }
}

fn first_dotdot(cs: &[char]) -> (r: Option<usize>)
    ensures
        r matches Some(p) ==> first_dotdot_from(cs@, 0) == Some(p as int) && p + 2 <= cs@.len()
            && cs@[p as int] == '.' && cs@[p + 1] == '.',
        r is None ==> first_dotdot_from(cs@, 0) is None,
{
    let mut i: usize = 0;
    while i < cs.len() && cs.len() - i > 1
        invariant
            first_dotdot_from(cs@, 0) == first_dotdot_from(cs@, i as int),
        decreases cs.len() - i,
    {
        if cs[i] == '.' && cs[i + 1] == '.' {
            return Some(i);
        }
        i = i + 1;
    }
    None
}

/// What `s` captures for each named part of the range grammar (each
/// `Some` holds a slice of the input).
pub struct VersionParsed<'a> {
    pub version: Option<&'a str>,
    pub exact_version: Option<&'a str>,
    pub exact_version_group: Option<&'a str>,
    pub inclusive_bound: Option<&'a str>,
    pub inclusive_lower_version: Option<&'a str>,
    pub inclusive_upper_version: Option<&'a str>,
    pub lower_bound: Option<&'a str>,
    pub lower_bound_prefix: Option<&'a str>,
    pub lower_version: Option<&'a str>,
    pub upper_bound: Option<&'a str>,
    pub upper_bound_prefix: Option<&'a str>,
    pub upper_version: Option<&'a str>,
    pub range_asc: Option<&'a str>,
    pub range_lower_asc: Option<&'a str>,
    pub range_lower_asc_prefix: Option<&'a str>,
    pub range_lower_asc_version: Option<&'a str>,
    pub range_upper_asc: Option<&'a str>,
    pub range_upper_asc_prefix: Option<&'a str>,
    pub range_upper_asc_version: Option<&'a str>,
    pub range_desc: Option<&'a str>,
    pub range_upper_desc: Option<&'a str>,
    pub range_upper_desc_prefix: Option<&'a str>,
    pub range_upper_desc_version: Option<&'a str>,
    pub range_lower_desc: Option<&'a str>,
    pub range_lower_desc_prefix: Option<&'a str>,
    pub range_lower_desc_version: Option<&'a str>,
}

/// The text of an optional slice.
pub open spec fn opt_text(o: Option<&str>) -> Option<Seq<char>> {
    match o {
        Some(t) => Some(t@),
        None => None,
    }
}

/// A slice of the input for a non-empty span, `None` for an empty one.
fn opt_sub<'a>(input: &'a str, a: usize, b: usize) -> (r: Option<&'a str>)
    requires
        a <= b <= input@.len(),
    ensures
        opt_text(r) == some_if_nonempty(input@.subrange(a as int, b as int)),
{
    if a < b {
        Some(input.substring_char(a, b))
    } else {
        None
    }
}

impl<'a> VersionParsed<'a> {
    /// The captured texts.
    pub open spec fn model(&self) -> ParsedModel {
        ParsedModel {
            version: opt_text(self.version),
            exact_version: opt_text(self.exact_version),
            exact_version_group: opt_text(self.exact_version_group),
            inclusive_bound: opt_text(self.inclusive_bound),
            inclusive_lower_version: opt_text(self.inclusive_lower_version),
            inclusive_upper_version: opt_text(self.inclusive_upper_version),
            lower_bound: opt_text(self.lower_bound),
            lower_bound_prefix: opt_text(self.lower_bound_prefix),
            lower_version: opt_text(self.lower_version),
            upper_bound: opt_text(self.upper_bound),
            upper_bound_prefix: opt_text(self.upper_bound_prefix),
            upper_version: opt_text(self.upper_version),
            range_asc: opt_text(self.range_asc),
            range_lower_asc: opt_text(self.range_lower_asc),
            range_lower_asc_prefix: opt_text(self.range_lower_asc_prefix),
            range_lower_asc_version: opt_text(self.range_lower_asc_version),
            range_upper_asc: opt_text(self.range_upper_asc),
            range_upper_asc_prefix: opt_text(self.range_upper_asc_prefix),
            range_upper_asc_version: opt_text(self.range_upper_asc_version),
            range_desc: opt_text(self.range_desc),
            range_upper_desc: opt_text(self.range_upper_desc),
            range_upper_desc_prefix: opt_text(self.range_upper_desc_prefix),
            range_upper_desc_version: opt_text(self.range_upper_desc_version),
            range_lower_desc: opt_text(self.range_lower_desc),
            range_lower_desc_prefix: opt_text(self.range_lower_desc_prefix),
            range_lower_desc_version: opt_text(self.range_lower_desc_version),
        }
    }

    /// Nothing captured.
    pub fn empty() -> (r: VersionParsed<'a>)
        ensures
            r.model() == no_captures(),
    {
        VersionParsed {
            version: None,
            exact_version: None,
            exact_version_group: None,
            inclusive_bound: None,
            inclusive_lower_version: None,
            inclusive_upper_version: None,
            lower_bound: None,
            lower_bound_prefix: None,
            lower_version: None,
            upper_bound: None,
            upper_bound_prefix: None,
            upper_version: None,
            range_asc: None,
            range_lower_asc: None,
            range_lower_asc_prefix: None,
            range_lower_asc_version: None,
            range_upper_asc: None,
            range_upper_asc_prefix: None,
            range_upper_asc_version: None,
            range_desc: None,
            range_upper_desc: None,
            range_upper_desc_prefix: None,
            range_upper_desc_version: None,
            range_lower_desc: None,
            range_lower_desc_prefix: None,
            range_lower_desc_version: None,
        }
    }

    fn whole(input: &'a str, n: usize) -> (r: &'a str)
        requires
            n == input@.len(),
        ensures
            r@ == input@,
    {
        let r = input.substring_char(0, n);
        assert(input@.subrange(0, n as int) =~= input@);
        r
    }

    fn parse_version_form(input: &'a str, cs: &[char]) -> (r: Option<VersionParsed<'a>>)
        requires
            cs@ == input@,
        ensures
            r is Some <==> form_version(input@) is Some,
            r matches Some(p) ==> p.model() == form_version(input@).unwrap(),
    {
        let n = cs.len();
        assert(input@.skip(0) =~= input@);
        if n > 0 && opt_vword_at(cs, 0) {
            let mut r = Self::empty();
            r.version = Some(Self::whole(input, n));
            Some(r)
        } else {
            None
        }
    }

    fn parse_exact_form(input: &'a str, cs: &[char]) -> (r: Option<VersionParsed<'a>>)
        requires
            cs@ == input@,
        ensures
            r is Some <==> form_exact(input@) is Some,
            r matches Some(p) ==> p.model() == form_exact(input@).unwrap(),
    {
        let n = cs.len();
        let ghost s = input@;
        if n >= 2 && cs[0] == '=' && cs[1] == '=' && opt_vword_at(cs, 2) {
            let mut r = Self::empty();
            r.exact_version = Some(Self::whole(input, n));
            r.exact_version_group = opt_sub(input, 2, n);
            assert(s.subrange(2, n as int) =~= s.skip(2));
            Some(r)
        } else {
            None
        }
    }

    fn parse_inclusive_form(input: &'a str, cs: &[char]) -> (r: Option<VersionParsed<'a>>)
        requires
            cs@ == input@,
        ensures
            r is Some <==> form_inclusive(input@) is Some,
            r matches Some(p) ==> p.model() == form_inclusive(input@).unwrap(),
    {
        let n = cs.len();
        let ghost s = input@;
        match first_dotdot(cs) {
            Some(p) => {
                let lo = p == 0 || vword_prefix_at(cs, 0) == p;
                proof {
                    assert(s.skip(0) =~= s);
                    if p > 0 {
                        lemma_prefix_vword_iff(s, p as int);
                    }
                }
                if lo && opt_vword_at(cs, p + 2) {
                    let mut r = Self::empty();
                    r.inclusive_bound = Some(Self::whole(input, n));
                    r.inclusive_lower_version = opt_sub(input, 0, p);
                    r.inclusive_upper_version = opt_sub(input, p + 2, n);
                    assert(s.subrange(0, p as int) =~= s.take(p as int));
                    assert(s.subrange(p + 2, n as int) =~= s.skip(p + 2));
                    Some(r)
                } else {
                    None
                }
            },
            None => None,
        }
    }

    fn parse_lower_bound_form(input: &'a str, cs: &[char]) -> (r: Option<VersionParsed<'a>>)
        requires
            cs@ == input@,
        ensures
            r is Some <==> form_lower_bound(input@) is Some,
            r matches Some(p) ==> p.model() == form_lower_bound(input@).unwrap(),
    {
        let n = cs.len();
        let ghost s = input@;
        assert(s.skip(0) =~= s);
        let p = gt_prefix_at(cs, 0);
        let has_plus = n > p && cs[n - 1] == '+';
        let vend = if has_plus {
            n - 1
        } else {
            n
        };
        let ghost r0 = s.skip(p as int);
        proof {
            if r0.len() > 0 {
                assert(r0[r0.len() - 1] == s[n - 1]);
            }
        }
        let ok = if vend == p {
            true
        } else {
            vword_prefix_at(cs, p) == vend - p
        };
        proof {
            let v = s.subrange(p as int, vend as int);
            assert(v =~= (if has_plus {
                r0.drop_last()
            } else {
                r0
            }));
            if vend > p {
                let t = s.skip(p as int);
                let q = (vend - p) as int;
                if has_plus {
                    assert(t[q] == s[n - 1]);
                }
                lemma_prefix_vword_iff(t, q);
                assert(t.take(q) =~= v);
            }
        }
        if ok {
            let mut r = Self::empty();
            r.lower_bound = Some(Self::whole(input, n));
            r.lower_bound_prefix = opt_sub(input, 0, p);
            r.lower_version = opt_sub(input, p, vend);
            assert(s.subrange(0, p as int) =~= s.take(p as int));
            Some(r)
        } else {
            None
        }
    }

    fn parse_upper_bound_form(input: &'a str, cs: &[char]) -> (r: Option<VersionParsed<'a>>)
        requires
            cs@ == input@,
        ensures
            r is Some <==> form_upper_bound(input@) is Some,
            r matches Some(p) ==> p.model() == form_upper_bound(input@).unwrap(),
    {
        let n = cs.len();
        let ghost s = input@;
        assert(s.skip(0) =~= s);
        let p = lt_prefix_at(cs, 0);
        if opt_vword_at(cs, p) {
            let mut r = Self::empty();
            r.upper_bound = Some(Self::whole(input, n));
            r.upper_bound_prefix = opt_sub(input, 0, p);
            r.upper_version = opt_sub(input, p, n);
            assert(s.subrange(0, p as int) =~= s.take(p as int));
            assert(s.subrange(p as int, n as int) =~= s.skip(p as int));
            Some(r)
        } else {
            None
        }
    }

    fn parse_range_asc_form(input: &'a str, cs: &[char]) -> (r: Option<VersionParsed<'a>>)
        requires
            cs@ == input@,
        ensures
            r is Some <==> form_range_asc(input@) is Some,
            r matches Some(p) ==> p.model() == form_range_asc(input@).unwrap(),
    {
        let n = cs.len();
        let ghost s = input@;
        assert(s.skip(0) =~= s);
        let p1 = gt_prefix_at(cs, 0);
        let v1 = vword_prefix_at(cs, p1);
        let a = p1 + v1;
        let lower_end = a + char_len_at(cs, a, '+');
        let c = lower_end + char_len_at(cs, lower_end, ',');
        let p2 = lt_prefix_at(cs, c);
        let b = c + p2;
        proof {
            assert(s.skip(a as int).len() >= 1 ==> s.skip(a as int)[0] == s[a as int]);
            assert(s.skip(lower_end as int).len() >= 1 ==> s.skip(lower_end as int)[0]
                == s[lower_end as int]);
        }
        if opt_vword_at(cs, b) {
            let mut r = Self::empty();
            r.range_asc = Some(Self::whole(input, n));
            r.range_lower_asc = Some(input.substring_char(0, lower_end));
            r.range_lower_asc_prefix = opt_sub(input, 0, p1);
            r.range_lower_asc_version = opt_sub(input, p1, a);
            r.range_upper_asc = Some(input.substring_char(lower_end, n));
            r.range_upper_asc_prefix = opt_sub(input, c, b);
            r.range_upper_asc_version = opt_sub(input, b, n);
            assert(s.subrange(0, p1 as int) =~= s.take(p1 as int));
            assert(s.subrange(0, lower_end as int) =~= s.take(lower_end as int));
            assert(s.subrange(lower_end as int, n as int) =~= s.skip(lower_end as int));
            assert(s.subrange(b as int, n as int) =~= s.skip(b as int));
            Some(r)
        } else {
            None
        }
    }

    fn parse_range_desc_form(input: &'a str, cs: &[char]) -> (r: Option<VersionParsed<'a>>)
        requires
            cs@ == input@,
        ensures
            r is Some <==> form_range_desc(input@) is Some,
            r matches Some(p) ==> p.model() == form_range_desc(input@).unwrap(),
    {
        let n = cs.len();
        let ghost s = input@;
        assert(s.skip(0) =~= s);
        let p1 = lt_prefix_at(cs, 0);
        let v1 = vword_prefix_at(cs, p1);
        let a = p1 + v1;
        let upper_end = a + char_len_at(cs, a, '+');
        proof {
            assert(s.skip(a as int).len() >= 1 ==> s.skip(a as int)[0] == s[a as int]);
        }
        if v1 == 0 {
            return None;
        }
        let mut r = Self::empty();
        r.range_desc = Some(Self::whole(input, n));
        r.range_upper_desc_prefix = opt_sub(input, 0, p1);
        r.range_upper_desc_version = Some(input.substring_char(p1, a));
        assert(s.subrange(0, p1 as int) =~= s.take(p1 as int));
        if upper_end == n {
            r.range_upper_desc = Some(Self::whole(input, n));
            return Some(r);
        }
        if cs[upper_end] != ',' {
            return None;
        }
        let l = upper_end + 1;
        let lt = lt_prefix_at(cs, l);
        let p2 = if lt > 0 {
            lt
        } else {
            gt_prefix_at(cs, l)
        };
        let v2 = vword_prefix_at(cs, l + p2);
        let e = l + p2 + v2;
        let pl = char_len_at(cs, e, '+');
        proof {
            assert(s.skip(e as int).len() >= 1 ==> s.skip(e as int)[0] == s[e as int]);
        }
        if v2 > 0 && e + pl == n {
            r.range_upper_desc = Some(input.substring_char(0, upper_end));
            r.range_lower_desc = Some(input.substring_char(l, n));
            r.range_lower_desc_prefix = opt_sub(input, l, l + p2);
            r.range_lower_desc_version = Some(input.substring_char(l + p2, e));
            assert(s.subrange(0, upper_end as int) =~= s.take(upper_end as int));
            assert(s.subrange(l as int, n as int) =~= s.skip(l as int));
            Some(r)
        } else {
            None
        }
    }

    /// Splits a range string into the parts of the first grammar form that
    /// matches it (nothing captured for the empty string).
    pub fn parse_str(input: &'a str) -> (r: VersionParsed<'a>)
        requires
            is_range_text(input@),
        ensures
            input@.len() == 0 ==> r.model() == no_captures(),
            input@.len() > 0 ==> r.model() == parse_model(input@).unwrap(),
    {
        let cs = chars_of(input);
        if cs.len() == 0 {
            return Self::empty();
        }
        if let Some(r) = Self::parse_version_form(input, cs.as_slice()) {
            return r;
        }
        if let Some(r) = Self::parse_exact_form(input, cs.as_slice()) {
            return r;
        }
        if let Some(r) = Self::parse_inclusive_form(input, cs.as_slice()) {
            return r;
        }
        if let Some(r) = Self::parse_lower_bound_form(input, cs.as_slice()) {
            return r;
        }
        if let Some(r) = Self::parse_upper_bound_form(input, cs.as_slice()) {
            return r;
        }
        if let Some(r) = Self::parse_range_asc_form(input, cs.as_slice()) {
            return r;
        }
        match Self::parse_range_desc_form(input, cs.as_slice()) {
            Some(r) => r,
            None => Self::empty(),
        }
    }

    /// Splits a non-empty text into the parts of the first grammar form
    /// that matches it, or `None` where no form does.
    pub fn try_parse_str(input: &'a str) -> (r: Option<VersionParsed<'a>>)
        ensures
            r is Some <==> parse_model(input@) is Some,
            r matches Some(p) ==> p.model() == parse_model(input@).unwrap(),
    {
        let cs = chars_of(input);
        if let Some(r) = Self::parse_version_form(input, cs.as_slice()) {
            return Some(r);
        }
        if let Some(r) = Self::parse_exact_form(input, cs.as_slice()) {
            return Some(r);
        }
        if let Some(r) = Self::parse_inclusive_form(input, cs.as_slice()) {
            return Some(r);
        }
        if let Some(r) = Self::parse_lower_bound_form(input, cs.as_slice()) {
            return Some(r);
        }
        if let Some(r) = Self::parse_upper_bound_form(input, cs.as_slice()) {
            return Some(r);
        }
        if let Some(r) = Self::parse_range_asc_form(input, cs.as_slice()) {
            return Some(r);
        }
        Self::parse_range_desc_form(input, cs.as_slice())
    }

    /// Whether the captured form bounds a range (forms 3 to 7).
    pub fn is_range(&self) -> (b: bool)
        ensures
            b == (self.inclusive_bound is Some || self.lower_bound is Some || self.upper_bound is Some
                || self.range_asc is Some || self.range_desc is Some),
    {
        self.inclusive_bound.is_some() || self.lower_bound.is_some() || self.upper_bound.is_some()
            || self.range_asc.is_some() || self.range_desc.is_some()
    }
}

/// A prefix of length `p > 0` that is followed by the end, a `+` or `..`
/// is a version word exactly when the longest version-word prefix has
/// length `p`.
proof fn lemma_prefix_vword_iff(s: Seq<char>, p: int)
    requires
        0 < p <= s.len(),
        p == s.len() || s[p] == '+' || (s[p] == '.' && p + 1 < s.len() && s[p + 1] == '.'),
    ensures
        is_vword(s.take(p)) <==> vword_prefix(s) == p,
{
    lemma_vword_prefix_bounds(s, s.len() as int);
    if is_vword(s.take(p)) {
        assert forall|j: int| p < j <= s.len() implies !is_vword(#[trigger] s.take(j)) by {
            let u = s.take(j);
            assert(u[p] == s[p]);
            if is_vword(u) {
                if s[p] == '.' {
                    assert(is_joiner(u[p]));
                    if p + 1 < j {
                        assert(u[p + 1] == s[p + 1]);
                    }
                }
            }
        }
        lemma_vword_prefix_upto(s, s.len() as int, p);
    }
}

} // verus!
