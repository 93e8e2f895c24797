//! `RerVersion`, rez's version type: a list of alphanumeric tokens, each a
//! list of numeric and alphabetic sub-tokens, ordered token by token.
use vstd::prelude::*;
use std::cmp::Ordering;
use crate::order::lex;
use crate::version_order::{
    is_word_char, is_digit, is_word_string, is_digit_string, digits_value, number_of,
    char_rank, rank_compare, subtoken_compare, token_compare, VersionModel,
    version_compare, version_wf, token_wf, bump_model, bump_token, lowest_model, underscore,
};
use crate::text::{chars_of, string_from_chars, is_word_char_exec, is_digit_exec, chars_equal};

verus! {

/// `Less`, `Equal` or `Greater` for a three-way comparison result.
pub open spec fn ordering_of(c: int) -> Ordering {
    if c < 0 {
        Ordering::Less
    } else if c == 0 {
        Ordering::Equal
    } else {
        Ordering::Greater
    }
}

proof fn lemma_digits_value_prefix(s: Seq<char>, k: int)
    requires
        0 <= k <= s.len(),
        is_digit_string(s),
    ensures
        digits_value(s) >= digits_value(s.take(k)),
    decreases s.len(),
{
    if k < s.len() {
        let p = s.drop_last();
        assert(is_digit_string(p)) by {
            assert forall|i: int| 0 <= i < p.len() implies is_digit(#[trigger] p[i]) by {
                assert(p[i] == s[i]);
            }
        }
        lemma_digits_value_prefix(p, k);
        assert(p.take(k) =~= s.take(k));
    } else {
        assert(s.take(k) =~= s);
    }
}

/// The value of a digit string when it is one and fits in an `i64`.
fn parse_number(cs: &[char]) -> (r: Option<i64>)
    ensures
        r == number_of(cs@),
{
    if cs.len() == 0 {
        return None;
    }
    let mut v: i64 = 0;
    let mut i: usize = 0;
    while i < cs.len()
        invariant
            i <= cs.len(),
            cs.len() > 0,
            is_digit_string(cs@.take(i as int)),
            v as int == digits_value(cs@.take(i as int)),
        decreases cs.len() - i,
    {
        let c = cs[i];
        if !is_digit_exec(c) {
            assert(!is_digit_string(cs@)) by {
                assert(!is_digit(cs@[i as int]));
            }
            return None;
        }
        let d: i64 = (c as u32 - '0' as u32) as i64;
        assert(cs@.take(i + 1).drop_last() =~= cs@.take(i as int));
        assert(cs@.take(i + 1).last() == c);
        assert(is_digit_string(cs@.take(i + 1))) by {
            assert forall|j: int| 0 <= j < i + 1 implies is_digit(#[trigger] cs@.take(i + 1)[j]) by {
                if j < i {
                    assert(cs@.take(i + 1)[j] == cs@.take(i as int)[j]);
                }
            }
        }
        if v > (i64::MAX - d) / 10 {
            assert(digits_value(cs@.take(i + 1)) > i64::MAX);
            proof {
                if is_digit_string(cs@) {
                    lemma_digits_value_prefix(cs@, i as int + 1);
                }
            }
            return None;
        }
        v = v * 10 + d;
        i = i + 1;
    }
    assert(cs@.take(cs.len() as int) =~= cs@);
    Some(v)
}

/// A sub-token: a maximal run of digits, or of other token characters,
/// within a version token. `n` is its numeric value when it is a number
/// that fits in an `i64`.
#[derive(Debug, Eq, Ord)]
pub struct SubToken {
    s: String,
    n: Option<i64>,
}

impl View for SubToken {
    type V = Seq<char>;

    closed spec fn view(&self) -> Seq<char> {
        self.s@
    }
}

impl Clone for SubToken {
    fn clone(&self) -> (t: Self)
        ensures
            t@ == self@,
    {
        self.duplicate()
    }
}

impl SubToken {
    #[verifier::type_invariant]
    spec fn inv(self) -> bool {
        &&& self.s@.len() > 0
        &&& is_word_string(self.s@)
        &&& self.n == number_of(self.s@)
    }

    /// A sub-token from its text, a non-empty string of token characters.
    pub fn new(s: &str) -> (t: SubToken)
        requires
            s@.len() > 0,
            is_word_string(s@),
        ensures
            t@ == s@,
            t.spec_n() == number_of(s@),
    {
        let cs = chars_of(s);
        let n = parse_number(cs.as_slice());
        SubToken { s: s.to_owned(), n }
    }

    fn from_chars(cs: &[char]) -> (t: SubToken)
        requires
            cs@.len() > 0,
            is_word_string(cs@),
        ensures
            t@ == cs@,
    {
        let n = parse_number(cs);
        SubToken { s: string_from_chars(cs), n }
    }

    /// The sub-token's text.
    pub fn s(&self) -> (r: &str)
        ensures
            r@ == self@,
    {
        self.s.as_str()
    }

    /// The sub-token's numeric value, if it is a number that fits in an
    /// `i64`.
    pub closed spec fn spec_n(&self) -> Option<i64> {
        self.n
    }

    /// The sub-token's numeric value, if it is a number that fits in an
    /// `i64`.
    #[verifier::when_used_as_spec(spec_n)]
    pub fn n(&self) -> (r: Option<i64>)
        ensures
            r == self.spec_n(),
            r == number_of(self@),
    {
        proof {
            use_type_invariant(self);
        }
        self.n
    }

    /// A copy with the same text.
    pub fn duplicate(&self) -> (t: SubToken)
        ensures
            t@ == self@,
            t.spec_n() == self.spec_n(),
    {
        proof {
            use_type_invariant(self);
        }
        SubToken { s: self.s.clone(), n: self.n }
    }

    /// The rank of a character in version-token order.
    pub fn custom_char_order(&self, c: char) -> (r: u8)
        ensures
            r as int == char_rank(c),
    {
        if c == '_' {
            0
        } else if 'a' <= c && c <= 'z' {
            (1 + (c as u32 - 'a' as u32)) as u8
        } else if 'A' <= c && c <= 'Z' {
            (27 + (c as u32 - 'A' as u32)) as u8
        } else if '0' <= c && c <= '9' {
            (53 + (c as u32 - '0' as u32)) as u8
        } else {
            255
        }
    }

    /// Character-rank comparison of two strings of token characters.
    pub fn compare_subtokens(&self, a: &str, b: &str) -> (r: Ordering)
        requires
            is_word_string(a@),
            is_word_string(b@),
        ensures
            r == ordering_of(lex(a@, b@, rank_compare())),
    {
        let ca = chars_of(a);
        let cb = chars_of(b);
        compare_ranked(ca.as_slice(), cb.as_slice())
    }
}

/// The rank of a character, as a free function.
fn rank_of(c: char) -> (r: u8)
    ensures
        r as int == char_rank(c),
{
    if c == '_' {
        0
    } else if 'a' <= c && c <= 'z' {
        (1 + (c as u32 - 'a' as u32)) as u8
    } else if 'A' <= c && c <= 'Z' {
        (27 + (c as u32 - 'A' as u32)) as u8
    } else if '0' <= c && c <= '9' {
        (53 + (c as u32 - '0' as u32)) as u8
    } else {
        255
    }
}

/// Lexicographic comparison of two character sequences by character rank.
fn compare_ranked(a: &[char], b: &[char]) -> (r: Ordering)
    ensures
        r == ordering_of(lex(a@, b@, rank_compare())),
{
    to_ordering(lex_ranked(a, b))
}

/// `Less`, `Equal` or `Greater` for `-1`, `0` or `1`.
pub fn to_ordering(c: i8) -> (r: Ordering)
    ensures
        c < 0 ==> r == Ordering::Less,
        c == 0 ==> r == Ordering::Equal,
        c > 0 ==> r == Ordering::Greater,
{
    if c < 0 {
        Ordering::Less
    } else if c == 0 {
        Ordering::Equal
    } else {
        Ordering::Greater
    }
}

/// Lexicographic comparison of two character sequences by character rank,
/// as `-1`, `0` or `1`.
fn lex_ranked(a: &[char], b: &[char]) -> (r: i8)
    ensures
        r as int == lex(a@, b@, rank_compare()),
{
    let mut i: usize = 0;
    assert(a@.skip(0) =~= a@);
    assert(b@.skip(0) =~= b@);
    while i < a.len() && i < b.len()
        invariant
            i <= a.len(),
            i <= b.len(),
            lex(a@, b@, rank_compare()) == lex(a@.skip(i as int), b@.skip(i as int), rank_compare()),
        decreases a.len() - i,
    {
        let ra = rank_of(a[i]);
        let rb = rank_of(b[i]);
        let ghost sa = a@.skip(i as int);
        let ghost sb = b@.skip(i as int);
        assert(sa[0] == a@[i as int]);
        assert(sb[0] == b@[i as int]);
        if ra < rb {
            return -1;
        } else if ra > rb {
            return 1;
        }
        assert(sa.drop_first() =~= a@.skip(i + 1));
        assert(sb.drop_first() =~= b@.skip(i + 1));
        i = i + 1;
    }
    if a.len() < b.len() {
        -1
    } else if a.len() == b.len() {
        assert(a@.skip(i as int).len() == 0);
        0
    } else {
        1
    }
}


impl SubToken {
    /// The comparison of two sub-tokens, as `-1`, `0` or `1`.
    pub(crate) fn compare_with(&self, other: &SubToken) -> (r: i8)
        ensures
            r as int == subtoken_compare(self@, other@),
    {
        proof {
            use_type_invariant(self);
            use_type_invariant(other);
        }
        let a = chars_of(self.s.as_str());
        let b = chars_of(other.s.as_str());
        match (self.n, other.n) {
            (None, None) => lex_ranked(a.as_slice(), b.as_slice()),
            (None, Some(_)) => -1,
            (Some(_), None) => 1,
            (Some(x), Some(y)) => {
                if x < y {
                    -1
                } else if x > y {
                    1
                } else {
                    lex_ranked(a.as_slice(), b.as_slice())
                }
            },
        }
    }

    /// Whether two sub-tokens have the same text.
    pub(crate) fn same_as(&self, other: &SubToken) -> (r: bool)
        ensures
            r == (self@ == other@),
    {
        self.s == other.s
    }

    /// The sub-token's characters.
    fn chars(&self) -> (v: Vec<char>)
        ensures
            v@ == self@,
            v@.len() > 0,
            is_word_string(v@),
    {
        proof {
            use_type_invariant(self);
        }
        chars_of(self.s.as_str())
    }
}

/// A maximal run of digits, or of non-digits.
pub open spec fn is_run(p: Seq<char>) -> bool {
    &&& p.len() > 0
    &&& forall|i: int| 0 <= i < p.len() ==> is_digit(#[trigger] p[i]) == is_digit(p[0])
}

/// `parts` cuts `t` into its maximal runs of digits and of non-digits, in
/// order.
pub open spec fn is_subtoken_split(t: Seq<char>, parts: Seq<Seq<char>>) -> bool {
    &&& parts.flatten() == t
    &&& forall|i: int| 0 <= i < parts.len() ==> is_run(#[trigger] parts[i])
    &&& forall|i: int, j: int|
        0 <= i && j == i + 1 && j < parts.len() ==> is_digit(#[trigger] parts[i][0]) != is_digit(
            #[trigger] parts[j][0],
        )
}

/// The views of a sequence of sub-tokens.
pub open spec fn subtoken_views(v: Seq<SubToken>) -> Seq<Seq<char>> {
    v.map_values(|t: SubToken| t@)
}

/// Cut a string of token characters into sub-tokens.
fn split_subtokens(cs: &[char]) -> (parts: Vec<SubToken>)
    requires
        is_word_string(cs@),
    ensures
        is_subtoken_split(cs@, subtoken_views(parts@)),
        forall|i: int| 0 <= i < parts@.len() ==> is_word_string(#[trigger] parts@[i]@),
{
    let n = cs.len();
    let mut parts: Vec<SubToken> = Vec::new();
    let mut i: usize = 0;
    assert(subtoken_views(parts@) =~= Seq::<Seq<char>>::empty());
    assert(cs@.take(0) =~= Seq::<char>::empty());
    while i < n
        invariant
            n == cs@.len(),
            i <= n,
            is_word_string(cs@),
            subtoken_views(parts@).flatten() == cs@.take(i as int),
            forall|k: int| 0 <= k < parts@.len() ==> is_run(#[trigger] parts@[k]@),
            forall|k: int| 0 <= k < parts@.len() ==> is_word_string(#[trigger] parts@[k]@),
            forall|k: int, j: int|
                0 <= k && j == k + 1 && j < parts@.len() ==> is_digit(#[trigger] parts@[k]@[0])
                    != is_digit(#[trigger] parts@[j]@[0]),
            parts@.len() > 0 ==> i > 0 && is_digit(parts@.last()@[0]) == is_digit(
                cs@[i as int - 1],
            ),
            parts@.len() == 0 ==> i == 0,
            0 < i < n ==> is_digit(cs@[i as int]) != is_digit(cs@[i as int - 1]),
        decreases n - i,
    {
        let d = is_digit_exec(cs[i]);
        let start = i;
        let mut run: Vec<char> = Vec::new();
        while i < n && is_digit_exec(cs[i]) == d
            invariant
                n == cs@.len(),
                start <= i <= n,
                start < n,
                d == is_digit(cs@[start as int]),
                run@ == cs@.subrange(start as int, i as int),
                forall|k: int| 0 <= k < run@.len() ==> is_digit(#[trigger] run@[k]) == d,
            decreases n - i,
        {
            run.push(cs[i]);
            i = i + 1;
            assert(run@ =~= cs@.subrange(start as int, i as int));
        }
        assert(run@.len() > 0) by {
            assert(i > start);
        }
        assert(is_word_string(run@)) by {
            assert forall|k: int| 0 <= k < run@.len() implies is_word_char(#[trigger] run@[k]) by {
                assert(run@[k] == cs@[start + k]);
            }
        }
        let ghost old_parts = parts@;
        let t = SubToken::from_chars(run.as_slice());
        parts.push(t);
        proof {
            assert(subtoken_views(parts@) =~= subtoken_views(old_parts).push(run@));
            subtoken_views(old_parts).lemma_flatten_push(run@);
            assert(cs@.take(i as int) =~= cs@.take(start as int) + run@);
            assert(is_run(run@));
            assert(parts@.last()@ == run@);
            assert(run@[run@.len() - 1] == cs@[i as int - 1]);
            assert(is_digit(run@[run@.len() - 1]) == d);

            assert forall|k: int, j: int|
                0 <= k && j == k + 1 && j < parts@.len() implies is_digit(
                #[trigger] parts@[k]@[0],
            ) != is_digit(#[trigger] parts@[j]@[0]) by {
                if j == parts@.len() - 1 {
                    assert(parts@[k] == old_parts.last());
                    assert(run@[0] == cs@[start as int]);
                } else {
                    assert(parts@[k] == old_parts[k]);
                    assert(parts@[j] == old_parts[j]);
                }
            }
        }
    }
    assert(cs@.take(n as int) =~= cs@);
    parts
}


/// A version token: a maximal run of token characters, held as its
/// sub-tokens.
#[derive(Debug, Eq, Ord)]
pub struct AlphanumericVersionToken {
    subtokens: Vec<SubToken>,
}

impl View for AlphanumericVersionToken {
    type V = Seq<Seq<char>>;

    closed spec fn view(&self) -> Seq<Seq<char>> {
        subtoken_views(self.subtokens@)
    }
}

impl Clone for AlphanumericVersionToken {
    fn clone(&self) -> (t: Self)
        ensures
            t@ == self@,
    {
        self.duplicate()
    }
}

impl AlphanumericVersionToken {
    #[verifier::type_invariant]
    spec fn inv(self) -> bool {
        token_wf(subtoken_views(self.subtokens@))
    }

    /// Every token is well formed.
    pub fn check_wf(&self)
        ensures
            token_wf(self@),
    {
        proof {
            use_type_invariant(self);
        }
    }

    fn from_chars(cs: &[char]) -> (t: AlphanumericVersionToken)
        requires
            cs@.len() > 0,
            is_word_string(cs@),
        ensures
            is_subtoken_split(cs@, t@),
            token_wf(t@),
    {
        let subtokens = split_subtokens(cs);
        proof {
            let v = subtoken_views(subtokens@);
            if v.len() == 0 {
                assert(v.flatten() =~= Seq::<char>::empty());
            }
            assert forall|i: int| 0 <= i < v.len() implies #[trigger] v[i].len() > 0
                && is_word_string(v[i]) by {
                assert(is_run(v[i]));
                assert(v[i] == subtokens@[i]@);
            }
        }
        AlphanumericVersionToken { subtokens }
    }

    /// A token from its text; fails on a text that is empty or holds a
    /// character other than `[a-zA-Z0-9_]`.
    pub fn new(token: &str) -> (r: Result<Self, &'static str>)
        ensures
            r is Err <==> token@.len() == 0 || !is_word_string(token@),
            r matches Ok(t) ==> is_subtoken_split(token@, t@),
    {
        let cs = chars_of(token);
        let mut i: usize = 0;
        while i < cs.len()
            invariant
                i <= cs@.len(),
                cs@ == token@,
                forall|k: int| 0 <= k < i ==> is_word_char(#[trigger] cs@[k]),
            decreases cs.len() - i,
        {
            if !is_word_char_exec(cs[i]) {
                return Err("Invalid version token");
            }
            i = i + 1;
        }
        if cs.len() == 0 {
            Err("Invalid version token")
        } else {
            Ok(Self::from_chars(cs.as_slice()))
        }
    }

    /// The sub-tokens of a string of token characters: its maximal runs of
    /// digits and of other characters, in order.
    pub fn parse(s: &str) -> (parts: Vec<SubToken>)
        requires
            is_word_string(s@),
        ensures
            is_subtoken_split(s@, subtoken_views(parts@)),
    {
        let cs = chars_of(s);
        split_subtokens(cs.as_slice())
    }

    /// The sub-tokens.
    pub fn subtokens(&self) -> (r: &[SubToken])
        ensures
            subtoken_views(r@) == self@,
    {
        self.subtokens.as_slice()
    }

    /// A copy with the same sub-tokens.
    pub fn duplicate(&self) -> (t: AlphanumericVersionToken)
        ensures
            t@ == self@,
    {
        proof {
            use_type_invariant(self);
        }
        let mut v: Vec<SubToken> = Vec::new();
        let mut i: usize = 0;
        while i < self.subtokens.len()
            invariant
                i <= self.subtokens@.len(),
                subtoken_views(v@) == subtoken_views(self.subtokens@).take(i as int),
            decreases self.subtokens.len() - i,
        {
            let ghost old_v = v@;
            v.push(self.subtokens[i].duplicate());
            assert(subtoken_views(v@) =~= subtoken_views(self.subtokens@).take(i + 1)) by {
                assert(subtoken_views(v@) =~= subtoken_views(old_v).push(self.subtokens@[i as int]@));
            }
            i = i + 1;
        }
        assert(subtoken_views(self.subtokens@).take(i as int) =~= subtoken_views(self.subtokens@));
        AlphanumericVersionToken { subtokens: v }
    }

    /// The lowest token, `_`.
    pub fn lowest() -> (t: AlphanumericVersionToken)
        ensures
            t@ == seq![underscore()],
    {
        let u = vec!['_'];
        assert(u@ =~= underscore());
        let st = SubToken::from_chars(u.as_slice());
        let mut v: Vec<SubToken> = Vec::new();
        v.push(st);
        assert(subtoken_views(v@) =~= seq![underscore()]);
        AlphanumericVersionToken { subtokens: v }
    }

    /// The token right after every token that starts with this one: a
    /// numeric last sub-token gets an extra `_` sub-token, an alphabetic one
    /// gets `_` appended.
    pub fn bump(&self) -> (t: AlphanumericVersionToken)
        ensures
            t@ == bump_token(self@),
    {
        proof {
            use_type_invariant(self);
        }
        let mut next = self.duplicate().subtokens;
        let last = next.pop().unwrap();
        let ghost prefix = next@;
        assert(subtoken_views(prefix) =~= self@.drop_last());
        if last.n().is_some() {
            next.push(last);
            let u = vec!['_'];
            assert(u@ =~= underscore());
            next.push(SubToken::from_chars(u.as_slice()));
            assert(subtoken_views(next@) =~= self@.push(underscore()));
        } else {
            let mut cs = last.chars();
            cs.push('_');
            proof {
                assert(cs@ =~= last@ + underscore());
                assert forall|k: int| 0 <= k < cs@.len() implies is_word_char(#[trigger] cs@[k]) by {
                    if k < cs@.len() - 1 {
                        assert(cs@[k] == last@[k]);
                    }
                }
            }
            next.push(SubToken::from_chars(cs.as_slice()));
            assert(subtoken_views(next@) =~= self@.drop_last().push(self@.last() + underscore()));
        }
        proof {
            let v = subtoken_views(next@);
            assert forall|i: int| 0 <= i < v.len() implies #[trigger] v[i].len() > 0
                && is_word_string(v[i]) by {
                if i < v.len() - 1 {
                    assert(v[i] == self@[i] || v[i] == self@.last());
                } else {
                    let lt = self@.last();
                    assert(lt.len() > 0 && is_word_string(lt));
                    if v[i] != underscore() {
                        assert(v[i] == lt + underscore() || v[i] == lt);
                        assert forall|k: int| 0 <= k < v[i].len() implies is_word_char(
                            #[trigger] v[i][k],
                        ) by {
                            if k < lt.len() {
                                assert(v[i][k] == lt[k]);
                            }
                        }
                    }
                }
            }
        }
        AlphanumericVersionToken { subtokens: next }
    }

    /// The comparison of two tokens, as `-1`, `0` or `1`.
    pub(crate) fn compare_with(&self, other: &AlphanumericVersionToken) -> (r: i8)
        ensures
            r as int == token_compare(self@, other@),
    {
        let a = &self.subtokens;
        let b = &other.subtokens;
        let mut i: usize = 0;
        assert(self@.skip(0) =~= self@);
        assert(other@.skip(0) =~= other@);
        while i < a.len() && i < b.len()
            invariant
                a@.len() == self@.len(),
                b@.len() == other@.len(),
                self@ == subtoken_views(a@),
                other@ == subtoken_views(b@),
                i <= a.len(),
                i <= b.len(),
                token_compare(self@, other@) == lex(
                    self@.skip(i as int),
                    other@.skip(i as int),
                    crate::version_order::subtoken_compare_fn(),
                ),
            decreases a.len() - i,
        {
            let c = a[i].compare_with(&b[i]);
            let ghost sa = self@.skip(i as int);
            let ghost sb = other@.skip(i as int);
            assert(sa[0] == a@[i as int]@);
            assert(sb[0] == b@[i as int]@);
            if c != 0 {
                return c;
            }
            assert(sa.drop_first() =~= self@.skip(i + 1));
            assert(sb.drop_first() =~= other@.skip(i + 1));
            i = i + 1;
        }
        if a.len() < b.len() {
            -1
        } else if a.len() == b.len() {
            assert(self@.skip(i as int).len() == 0);
            0
        } else {
            1
        }
    }

    /// Whether two tokens have the same sub-tokens.
    pub(crate) fn same_as(&self, other: &AlphanumericVersionToken) -> (r: bool)
        ensures
            r == (self@ == other@),
    {
        let a = &self.subtokens;
        let b = &other.subtokens;
        if a.len() != b.len() {
            assert(self@.len() != other@.len());
            return false;
        }
        let mut i: usize = 0;
        while i < a.len()
            invariant
                a@.len() == b@.len(),
                self@ == subtoken_views(a@),
                other@ == subtoken_views(b@),
                i <= a.len(),
                forall|j: int| 0 <= j < i ==> self@[j] == other@[j],
            decreases a.len() - i,
        {
            if !a[i].same_as(&b[i]) {
                assert(self@[i as int] == a@[i as int]@);
                assert(other@[i as int] == b@[i as int]@);
                return false;
            }
            i = i + 1;
        }
        assert(self@ =~= other@);
        true
    }

    /// The token's text: its sub-tokens' texts, in order.
    fn text(&self) -> (v: Vec<char>)
        ensures
            v@ == self@.flatten(),
    {
        let mut v: Vec<char> = Vec::new();
        let mut i: usize = 0;
        assert(self@.take(0) =~= Seq::<Seq<char>>::empty());
        while i < self.subtokens.len()
            invariant
                self@ == subtoken_views(self.subtokens@),
                i <= self.subtokens@.len(),
                v@ == self@.take(i as int).flatten(),
            decreases self.subtokens.len() - i,
        {
            let cs = self.subtokens[i].chars();
            let ghost old_v = v@;
            let mut j: usize = 0;
            while j < cs.len()
                invariant
                    j <= cs@.len(),
                    v@ == old_v + cs@.take(j as int),
                decreases cs.len() - j,
            {
                v.push(cs[j]);
                j = j + 1;
                assert(v@ =~= old_v + cs@.take(j as int));
            }
            proof {
                assert(cs@.take(j as int) =~= cs@);
                assert(self@.take(i + 1) =~= self@.take(i as int).push(self@[i as int]));
                self@.take(i as int).lemma_flatten_push(self@[i as int]);
            }
            i = i + 1;
        }
        assert(self@.take(i as int) =~= self@);
        v
    }

    /// Comparison with another token.
    pub fn compare(&self, other: &Self) -> (r: Ordering)
        ensures
            r == ordering_of(token_compare(self@, other@)),
    {
        to_ordering(self.compare_with(other))
    }
}


/// The views of a sequence of tokens.
pub open spec fn token_views(v: Seq<AlphanumericVersionToken>) -> Seq<Seq<Seq<char>>> {
    v.map_values(|t: AlphanumericVersionToken| t@)
}

/// The text made of `gaps[j] + toks[j]` for every token `j`, in order.
pub open spec fn pairs_text(gaps: Seq<Seq<char>>, toks: Seq<Seq<char>>) -> Seq<char> {
    Seq::new(toks.len(), |j: int| gaps[j] + toks[j]).flatten()
}

/// No character of `s` is a token character.
pub open spec fn no_word_char(s: Seq<char>) -> bool {
    forall|i: int| 0 <= i < s.len() ==> !is_word_char(#[trigger] s[i])
}

/// `s` is `gaps[0] toks[0] gaps[1] ... toks[k-1] gaps[k]`, where the tokens
/// are the maximal runs of token characters and the gaps hold the other
/// characters (only the first and last gaps may be empty).
pub open spec fn is_version_split(s: Seq<char>, toks: Seq<Seq<char>>, gaps: Seq<Seq<char>>) -> bool {
    &&& gaps.len() == toks.len() + 1
    &&& pairs_text(gaps, toks) + gaps.last() == s
    &&& forall|j: int| 0 <= j < toks.len() ==> #[trigger] toks[j].len() > 0 && is_word_string(toks[j])
    &&& forall|j: int| 0 <= j < gaps.len() ==> no_word_char(#[trigger] gaps[j])
    &&& forall|j: int| 0 < j < toks.len() ==> #[trigger] gaps[j].len() > 0
}

/// The separators recorded for the first `k` tokens: the first character of
/// each non-empty gap in front of a token.
pub open spec fn seps_of(gaps: Seq<Seq<char>>, k: int) -> Seq<char>
    decreases k,
{
    if k <= 0 {
        Seq::empty()
    } else if gaps[k - 1].len() > 0 {
        seps_of(gaps, k - 1).push(gaps[k - 1][0])
    } else {
        seps_of(gaps, k - 1)
    }
}

/// The version parsed from `s`: the sub-token splits of its tokens, and the
/// separators in front of them.
pub open spec fn is_parsed_version(s: Seq<char>, v: VersionModel) -> bool {
    exists|toks: Seq<Seq<char>>, gaps: Seq<Seq<char>>|
        {
            &&& #[trigger] is_version_split(s, toks, gaps)
            &&& v.seps == seps_of(gaps, toks.len() as int)
            &&& v.tokens.len() == toks.len()
            &&& forall|j: int|
                0 <= j < toks.len() ==> is_subtoken_split(#[trigger] toks[j], v.tokens[j])
        }
}

/// Whether `s` holds at least one token character.
pub open spec fn has_word_char(s: Seq<char>) -> bool {
    exists|i: int| 0 <= i < s.len() && is_word_char(#[trigger] s[i])
}

/// A white-space character (Unicode's `White_Space`, as
/// `char::is_whitespace` has it).
pub open spec fn is_space(c: char) -> bool {
    c == ' ' || ('\u{9}' <= c && c <= '\u{D}') || c == '\u{85}' || c == '\u{A0}' || c == '\u{1680}' || (
    '\u{2000}' <= c && c <= '\u{200A}') || c == '\u{2028}' || c == '\u{2029}' || c == '\u{202F}' || c
        == '\u{205F}' || c == '\u{3000}'
}

/// Whether `s` holds a white-space character.
pub open spec fn has_space(s: Seq<char>) -> bool {
    exists|i: int| 0 <= i < s.len() && is_space(#[trigger] s[i])
}

/// A version text: at least one token character, and no white space.
pub open spec fn version_text_ok(s: Seq<char>) -> bool {
    has_word_char(s) && !has_space(s)
}

/// Whether a character is white space.
pub fn is_space_exec(c: char) -> (b: bool)
    ensures
        b == is_space(c),
{
    c == ' ' || ('\u{9}' <= c && c <= '\u{D}') || c == '\u{85}' || c == '\u{A0}' || c == '\u{1680}' || (
    '\u{2000}' <= c && c <= '\u{200A}') || c == '\u{2028}' || c == '\u{2029}' || c == '\u{202F}' || c
        == '\u{205F}' || c == '\u{3000}'
}

/// The text of a version: each token's text followed by the separator of
/// the same index, when there is one.
pub open spec fn version_text(v: VersionModel) -> Seq<char> {
    Seq::new(
        v.tokens.len(),
        |i: int|
            v.tokens[i].flatten() + (if i < v.seps.len() {
                seq![v.seps[i]]
            } else {
                Seq::empty()
            }),
    ).flatten()
}

proof fn lemma_pairs_text_push(
    gaps: Seq<Seq<char>>,
    toks: Seq<Seq<char>>,
    g: Seq<char>,
    t: Seq<char>,
)
    requires
        gaps.len() == toks.len(),
    ensures
        pairs_text(gaps.push(g), toks.push(t)) == pairs_text(gaps, toks) + (g + t),
{
    let f1 = |j: int| gaps[j] + toks[j];
    let g2 = gaps.push(g);
    let t2 = toks.push(t);
    let f2 = |j: int| g2[j] + t2[j];
    assert(Seq::new(t2.len(), f2) =~= Seq::new(toks.len(), f1).push(g + t));
    Seq::new(toks.len(), f1).lemma_flatten_push(g + t);
}

proof fn lemma_pairs_text_extra_gap(gaps: Seq<Seq<char>>, toks: Seq<Seq<char>>, g: Seq<char>)
    requires
        gaps.len() == toks.len(),
    ensures
        pairs_text(gaps.push(g), toks) == pairs_text(gaps, toks),
{
    let g2 = gaps.push(g);
    assert(Seq::new(toks.len(), |j: int| g2[j] + toks[j]) =~= Seq::new(
        toks.len(),
        |j: int| gaps[j] + toks[j],
    ));
}

proof fn lemma_seps_of_prefix(gaps: Seq<Seq<char>>, g: Seq<char>, k: int)
    requires
        0 <= k <= gaps.len(),
    ensures
        seps_of(gaps.push(g), k) == seps_of(gaps, k),
    decreases k,
{
    if k > 0 {
        lemma_seps_of_prefix(gaps, g, k - 1);
        assert(gaps.push(g)[k - 1] == gaps[k - 1]);
    }
}

/// A version: tokens separated by separator characters, ordered token by
/// token in rez's version order.
#[derive(Debug, Eq, Ord)]
pub struct RerVersion {
    tokens: Vec<AlphanumericVersionToken>,
    seps: Vec<char>,
}

impl View for RerVersion {
    type V = VersionModel;

    closed spec fn view(&self) -> VersionModel {
        VersionModel { tokens: token_views(self.tokens@), seps: self.seps@ }
    }
}

impl Clone for RerVersion {
    fn clone(&self) -> (v: Self)
        ensures
            v@ == self@,
    {
        self.duplicate()
    }
}

impl RerVersion {
    #[verifier::type_invariant]
    spec fn inv(self) -> bool {
        version_wf(VersionModel { tokens: token_views(self.tokens@), seps: self.seps@ })
    }

    /// Every version is well formed.
    pub fn check_wf(&self)
        ensures
            version_wf(self@),
    {
        proof {
            use_type_invariant(self);
        }
    }

    /// Parses a version string: its tokens are the maximal runs of
    /// `[a-zA-Z0-9_]` characters, and the first character in front of each
    /// token (after the leading text) is kept as a separator. Fails when the
    /// string holds no token character.
    pub fn parse_from_string(s: &str) -> (r: Result<Self, &'static str>)
        ensures
            r is Err <==> !version_text_ok(s@),
            r matches Ok(v) ==> is_parsed_version(s@, v@) && version_wf(v@),
    {
        let cs = chars_of(s);
        let n = cs.len();
        let mut w: usize = 0;
        while w < n
            invariant
                n == cs@.len(),
                cs@ == s@,
                w <= n,
                forall|j: int| 0 <= j < w ==> !is_space(#[trigger] cs@[j]),
            decreases n - w,
        {
            if is_space_exec(cs[w]) {
                assert(has_space(s@)) by {
                    assert(is_space(s@[w as int]));
                }
                return Err("Invalid version token");
            }
            w = w + 1;
        }
        assert(!has_space(s@));
        let mut i: usize = 0;
        let mut tokens: Vec<AlphanumericVersionToken> = Vec::new();
        let mut seps: Vec<char> = Vec::new();
        let ghost mut toks: Seq<Seq<char>> = Seq::empty();
        let ghost mut gaps: Seq<Seq<char>> = Seq::empty();
        proof {
            assert(pairs_text(gaps, toks) =~= cs@.take(0));
        }
        loop
            invariant_except_break
                n == cs@.len(),
                i <= n,
                gaps.len() == toks.len(),
                tokens@.len() == toks.len(),
                pairs_text(gaps, toks) == cs@.take(i as int),
                forall|j: int|
                    0 <= j < toks.len() ==> #[trigger] toks[j].len() > 0 && is_word_string(toks[j]),
                forall|j: int| 0 <= j < gaps.len() ==> no_word_char(#[trigger] gaps[j]),
                forall|j: int| 0 < j < toks.len() ==> #[trigger] gaps[j].len() > 0,
                forall|j: int|
                    0 <= j < toks.len() ==> is_subtoken_split(
                        #[trigger] toks[j],
                        token_views(tokens@)[j],
                    ),
                forall|j: int| 0 <= j < toks.len() ==> token_wf(#[trigger] token_views(tokens@)[j]),
                seps@ == seps_of(gaps, toks.len() as int),
                toks.len() > 0 ==> (i == n || !is_word_char(cs@[i as int])),
                toks.len() == 0 ==> no_word_char(cs@.take(i as int)),
            ensures
                is_version_split(cs@, toks, gaps),
                tokens@.len() == toks.len(),
                forall|j: int|
                    0 <= j < toks.len() ==> is_subtoken_split(
                        #[trigger] toks[j],
                        token_views(tokens@)[j],
                    ),
                forall|j: int| 0 <= j < toks.len() ==> token_wf(#[trigger] token_views(tokens@)[j]),
                seps@ == seps_of(gaps, toks.len() as int),
                toks.len() == 0 ==> no_word_char(cs@),
            decreases n - i,
        {
            let gstart = i;
            while i < n && !is_word_char_exec(cs[i])
                invariant
                    n == cs@.len(),
                    gstart <= i <= n,
                    no_word_char(cs@.subrange(gstart as int, i as int)),
                decreases n - i,
            {
                i = i + 1;
                assert forall|k: int| 0 <= k < i - gstart implies !is_word_char(
                    #[trigger] cs@.subrange(gstart as int, i as int)[k],
                ) by {
                    if k < i - 1 - gstart {
                        assert(cs@.subrange(gstart as int, i as int)[k] == cs@.subrange(
                            gstart as int,
                            i - 1,
                        )[k]);
                    }
                }
            }
            let ghost g = cs@.subrange(gstart as int, i as int);
            if i == n {
                proof {
                    lemma_pairs_text_extra_gap(gaps, toks, g);
                    lemma_seps_of_prefix(gaps, g, toks.len() as int);
                    assert(cs@.take(gstart as int) + g =~= cs@);
                    if toks.len() == 0 {
                        assert forall|k: int| 0 <= k < cs@.len() implies !is_word_char(
                            #[trigger] cs@[k],
                        ) by {
                            if k < gstart {
                                assert(cs@[k] == cs@.take(gstart as int)[k]);
                            } else {
                                assert(cs@[k] == g[k - gstart]);
                            }
                        }
                    }
                    gaps = gaps.push(g);
                    assert(gaps.last() == g);
                }
                break;
            }
            let ghost gaps_before = gaps;
            if i > gstart {
                seps.push(cs[gstart]);
            }
            proof {
                assert(toks.len() > 0 ==> g.len() > 0);
                let k = toks.len() as int;
                lemma_seps_of_prefix(gaps, g, k);
                let gaps2 = gaps.push(g);
                assert(gaps2[k] == g);
                if g.len() > 0 {
                    assert(g[0] == cs@[gstart as int]);
                }
                assert(seps_of(gaps2, k + 1) == seps@);
                gaps = gaps2;
            }
            let tstart = i;
            let mut tok: Vec<char> = Vec::new();
            while i < n && is_word_char_exec(cs[i])
                invariant
                    n == cs@.len(),
                    tstart <= i <= n,
                    tok@ == cs@.subrange(tstart as int, i as int),
                    is_word_string(tok@),
                decreases n - i,
            {
                tok.push(cs[i]);
                i = i + 1;
                assert(tok@ =~= cs@.subrange(tstart as int, i as int));
            }
            assert(tok@.len() > 0) by {
                assert(is_word_char(cs@[tstart as int]));
            }
            let t = AlphanumericVersionToken::from_chars(tok.as_slice());
            let ghost old_tokens = tokens@;
            let ghost gaps0 = gaps;
            tokens.push(t);
            proof {
                assert(gaps_before.push(g) == gaps0);
                lemma_pairs_text_push(gaps_before, toks, g, tok@);
                assert(cs@.take(i as int) =~= cs@.take(gstart as int) + (g + tok@));
                assert(token_views(tokens@) =~= token_views(old_tokens).push(t@));
                let ot = toks;
                toks = toks.push(tok@);
                assert forall|j: int| 0 < j < toks.len() implies #[trigger] gaps[j].len() > 0 by {
                    if j == toks.len() - 1 {
                        assert(gaps[j] == g);
                    }
                }
                assert forall|j: int|
                    0 <= j < toks.len() implies is_subtoken_split(
                    #[trigger] toks[j],
                    token_views(tokens@)[j],
                ) by {
                    if j < ot.len() {
                        assert(toks[j] == ot[j]);
                        assert(token_views(tokens@)[j] == token_views(old_tokens)[j]);
                    }
                }
                assert forall|j: int| 0 <= j < toks.len() implies token_wf(
                    #[trigger] token_views(tokens@)[j],
                ) by {
                    if j < ot.len() {
                        assert(token_views(tokens@)[j] == token_views(old_tokens)[j]);
                    }
                }
                assert(seps_of(gaps, toks.len() as int) == seps@);
            }
        }
        if tokens.len() == 0 {
            assert(!has_word_char(s@));
            return Err("Invalid version token");
        }
        proof {
            assert(has_word_char(s@)) by {
                assert(toks[0].len() > 0);
                assert(is_word_char(toks[0][0]));
                assert(cs@ == pairs_text(gaps, toks) + gaps.last());
                let f = |j: int| gaps[j] + toks[j];
                let ps = Seq::new(toks.len(), f);
                assert(ps[0] == gaps[0] + toks[0]);
                assert(ps =~= seq![ps[0]] + ps.drop_first());
                crate::text::lemma_flatten_cons(ps);
                assert(cs@[gaps[0].len() as int] == toks[0][0]);
            }
        }
        let v = RerVersion { tokens, seps };
        assert(is_parsed_version(s@, v@));
        Ok(v)
    }
}


impl RerVersion {
    /// A copy with the same tokens and separators.
    pub fn duplicate(&self) -> (v: RerVersion)
        ensures
            v@ == self@,
    {
        proof {
            use_type_invariant(self);
        }
        let mut tokens: Vec<AlphanumericVersionToken> = Vec::new();
        let mut i: usize = 0;
        while i < self.tokens.len()
            invariant
                i <= self.tokens@.len(),
                token_views(tokens@) == token_views(self.tokens@).take(i as int),
            decreases self.tokens.len() - i,
        {
            let ghost old = tokens@;
            tokens.push(self.tokens[i].duplicate());
            assert(token_views(tokens@) =~= token_views(self.tokens@).take(i + 1)) by {
                assert(token_views(tokens@) =~= token_views(old).push(self.tokens@[i as int]@));
            }
            i = i + 1;
        }
        assert(token_views(self.tokens@).take(i as int) =~= token_views(self.tokens@));
        let mut seps: Vec<char> = Vec::new();
        let mut j: usize = 0;
        while j < self.seps.len()
            invariant
                j <= self.seps@.len(),
                seps@ == self.seps@.take(j as int),
            decreases self.seps.len() - j,
        {
            seps.push(self.seps[j]);
            j = j + 1;
            assert(seps@ =~= self.seps@.take(j as int));
        }
        assert(self.seps@.take(j as int) =~= self.seps@);
        RerVersion { tokens, seps }
    }

    /// The lowest version, `_`: it sorts before every other version.
    pub fn lowest() -> (v: RerVersion)
        ensures
            v@ == lowest_model(),
    {
        let mut tokens: Vec<AlphanumericVersionToken> = Vec::new();
        tokens.push(AlphanumericVersionToken::lowest());
        let v = RerVersion { tokens, seps: Vec::new() };
        assert(v@.tokens =~= lowest_model().tokens);
        assert(v@.seps =~= lowest_model().seps);
        v
    }

    /// The version right after every version that extends this one: its last
    /// token bumped (`1.2.3` becomes `1.2.3_`, `1.a` becomes `1.a_`).
    pub fn bump(&self) -> (v: RerVersion)
        ensures
            v@ == bump_model(self@),
    {
        proof {
            use_type_invariant(self);
        }
        let copy = self.duplicate();
        let mut next_tokens = copy.tokens;
        let seps = copy.seps;
        let last = next_tokens.pop().unwrap();
        let ghost prefix = next_tokens@;
        assert(token_views(prefix) =~= self@.tokens.drop_last());
        last.check_wf();
        let b = last.bump();
        next_tokens.push(b);
        assert(token_views(next_tokens@) =~= self@.tokens.drop_last().push(bump_token(self@.tokens.last())));
        proof {
            let tv = token_views(next_tokens@);
            let lt = self@.tokens.last();
            assert(token_wf(lt));
            assert(token_wf(bump_token(lt))) by {
                crate::version_order::lemma_bump_token_wf(lt);
            }
            assert forall|i: int| 0 <= i < tv.len() implies token_wf(#[trigger] tv[i]) by {
                if i < tv.len() - 1 {
                    assert(tv[i] == self@.tokens[i]);
                }
            }
        }
        RerVersion { tokens: next_tokens, seps }
    }

    /// The comparison of two versions, as `-1`, `0` or `1`.
    pub(crate) fn compare_with(&self, other: &RerVersion) -> (r: i8)
        ensures
            r as int == version_compare(self@, other@),
    {
        let a = &self.tokens;
        let b = &other.tokens;
        let ghost ta = self@.tokens;
        let ghost tb = other@.tokens;
        let mut i: usize = 0;
        assert(ta.skip(0) =~= ta);
        assert(tb.skip(0) =~= tb);
        while i < a.len() && i < b.len()
            invariant
                a@.len() == ta.len(),
                b@.len() == tb.len(),
                ta == token_views(a@),
                tb == token_views(b@),
                ta == self@.tokens,
                tb == other@.tokens,
                i <= a.len(),
                i <= b.len(),
                lex(ta, tb, crate::version_order::token_compare_fn()) == lex(ta.skip(i as int), tb.skip(i as int), crate::version_order::token_compare_fn()),
            decreases a.len() - i,
        {
            let ci = a[i].compare_with(&b[i]);
            let ghost sa = ta.skip(i as int);
            let ghost sb = tb.skip(i as int);
            assert(sa[0] == a@[i as int]@);
            assert(sb[0] == b@[i as int]@);
            if ci != 0 {
                assert(crate::version_order::token_compare_fn()(sa[0], sb[0]) == ci as int);
                assert(lex(sa, sb, crate::version_order::token_compare_fn()) == ci as int);
                assert(lex(ta, tb, crate::version_order::token_compare_fn()) == ci as int);
                assert(version_compare(self@, other@) == ci as int);
                return ci;
            }
            assert(sa.drop_first() =~= ta.skip(i + 1));
            assert(sb.drop_first() =~= tb.skip(i + 1));
            i = i + 1;
        }
        if a.len() < b.len() {
            return -1;
        } else if a.len() > b.len() {
            return 1;
        }
        assert(ta.skip(i as int).len() == 0);
        assert(tb.skip(i as int).len() == 0);
        // tokens equal: compare the separators by code point
        let sa = &self.seps;
        let sb = &other.seps;
        let mut j: usize = 0;
        assert(sa@.skip(0) =~= sa@);
        assert(sb@.skip(0) =~= sb@);
        while j < sa.len() && j < sb.len()
            invariant
                sa@ == self@.seps,
                sb@ == other@.seps,
                lex(self@.tokens, other@.tokens, crate::version_order::token_compare_fn()) == 0,
                j <= sa.len(),
                j <= sb.len(),
                lex(sa@, sb@, crate::version_order::code_compare()) == lex(sa@.skip(j as int), sb@.skip(j as int), crate::version_order::code_compare()),
            decreases sa.len() - j,
        {
            let x = sa[j];
            let y = sb[j];
            let ghost qa = sa@.skip(j as int);
            let ghost qb = sb@.skip(j as int);
            assert(qa[0] == x);
            assert(qb[0] == y);
            if x < y {
                assert((x as int) < (y as int));
                assert(crate::version_order::code_compare()(qa[0], qb[0]) == -1);
                assert(lex(qa, qb, crate::version_order::code_compare()) == -1);
                assert(lex(self@.tokens, other@.tokens, crate::version_order::token_compare_fn()) == 0);
                return -1;
            } else if x > y {
                assert((x as int) > (y as int));
                assert(crate::version_order::code_compare()(qa[0], qb[0]) == 1);
                assert(lex(qa, qb, crate::version_order::code_compare()) == 1);
                assert(lex(self@.tokens, other@.tokens, crate::version_order::token_compare_fn()) == 0);
                return 1;
            }
            assert(qa.drop_first() =~= sa@.skip(j + 1));
            assert(qb.drop_first() =~= sb@.skip(j + 1));
            j = j + 1;
        }
        if sa.len() < sb.len() {
            -1
        } else if sa.len() == sb.len() {
            assert(sa@.skip(j as int).len() == 0);
            0
        } else {
            1
        }
    }

    /// Whether two versions have the same tokens and separators.
    pub(crate) fn same_as(&self, other: &RerVersion) -> (r: bool)
        ensures
            r == (self@ == other@),
    {
        let a = &self.tokens;
        let b = &other.tokens;
        if a.len() != b.len() {
            assert(self@.tokens.len() != other@.tokens.len());
            return false;
        }
        let mut i: usize = 0;
        while i < a.len()
            invariant
                a@.len() == b@.len(),
                self@.tokens == token_views(a@),
                other@.tokens == token_views(b@),
                i <= a.len(),
                forall|j: int| 0 <= j < i ==> self@.tokens[j] == other@.tokens[j],
            decreases a.len() - i,
        {
            if !a[i].same_as(&b[i]) {
                assert(self@.tokens[i as int] == a@[i as int]@);
                assert(other@.tokens[i as int] == b@[i as int]@);
                return false;
            }
            i = i + 1;
        }
        assert(self@.tokens =~= other@.tokens);
        chars_equal(self.seps.as_slice(), other.seps.as_slice())
    }

    /// The version's text: each token followed by the separator of the same
    /// index, when there is one.
    pub fn to_string(&self) -> (s: String)
        ensures
            s@ == version_text(self@),
    {
        let mut v: Vec<char> = Vec::new();
        let ghost parts = Seq::new(
            self@.tokens.len(),
            |i: int|
                self@.tokens[i].flatten() + (if i < self@.seps.len() {
                    seq![self@.seps[i]]
                } else {
                    Seq::empty()
                }),
        );
        let mut i: usize = 0;
        assert(parts.take(0) =~= Seq::<Seq<char>>::empty());
        while i < self.tokens.len()
            invariant
                self@.tokens == token_views(self.tokens@),
                self@.seps == self.seps@,
                parts.len() == self.tokens@.len(),
                parts == Seq::new(
                    self@.tokens.len(),
                    |i: int|
                        self@.tokens[i].flatten() + (if i < self@.seps.len() {
                            seq![self@.seps[i]]
                        } else {
                            Seq::empty()
                        }),
                ),
                i <= self.tokens@.len(),
                v@ == parts.take(i as int).flatten(),
            decreases self.tokens.len() - i,
        {
            let ghost old_v = v@;
            let t = self.tokens[i].text();
            let mut j: usize = 0;
            while j < t.len()
                invariant
                    j <= t@.len(),
                    v@ == old_v + t@.take(j as int),
                decreases t.len() - j,
            {
                v.push(t[j]);
                j = j + 1;
                assert(v@ =~= old_v + t@.take(j as int));
            }
            assert(t@.take(j as int) =~= t@);
            if i < self.seps.len() {
                v.push(self.seps[i]);
            }
            proof {
                assert(t@ == self@.tokens[i as int].flatten());
                assert(v@ =~= old_v + parts[i as int]);
                assert(parts.take(i + 1) =~= parts.take(i as int).push(parts[i as int]));
                parts.take(i as int).lemma_flatten_push(parts[i as int]);
            }
            i = i + 1;
        }
        assert(parts.take(i as int) =~= parts);
        string_from_chars(v.as_slice())
    }

    /// The tokens.
    pub fn tokens(&self) -> (r: &[AlphanumericVersionToken])
        ensures
            token_views(r@) == self@.tokens,
    {
        self.tokens.as_slice()
    }

    /// The separators.
    pub fn seps(&self) -> (r: &[char])
        ensures
            r@ == self@.seps,
    {
        self.seps.as_slice()
    }
}

} // verus!
