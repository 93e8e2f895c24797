//! The rez version-token order as a mathematical model, and the proof that
//! it is a total order on well-formed versions.
//!
//! A version is modelled as its tokens (each a sequence of sub-token
//! strings) and its separator characters. Sub-tokens are compared by
//! [`subtoken_compare`], tokens lexicographically by sub-token, versions
//! lexicographically by token and then by separator.
use vstd::prelude::*;
use crate::order::{compare_int, lex, is_total_order, all_in, seq_dom, lex_fn, lemma_lex_total_order};

verus! {

/// Characters that may appear in a version token: `[a-zA-Z0-9_]`.
pub open spec fn is_word_char(c: char) -> bool {
    ('a' <= c && c <= 'z') || ('A' <= c && c <= 'Z') || ('0' <= c && c <= '9') || c == '_'
}

/// A decimal digit.
pub open spec fn is_digit(c: char) -> bool {
    '0' <= c && c <= '9'
}

/// The rank of a character in version-token order: `_` lowest, then the
/// lower-case letters, the upper-case letters and the digits; any other
/// character ranks above all of them.
pub open spec fn char_rank(c: char) -> int {
    if c == '_' {
        0
    } else if 'a' <= c && c <= 'z' {
        1 + (c as int - 'a' as int)
    } else if 'A' <= c && c <= 'Z' {
        27 + (c as int - 'A' as int)
    } else if '0' <= c && c <= '9' {
        53 + (c as int - '0' as int)
    } else {
        255
    }
}

/// Comparison of two characters by rank.
pub open spec fn rank_compare() -> spec_fn(char, char) -> int {
    |x: char, y: char| compare_int(char_rank(x), char_rank(y))
}

/// Comparison of two characters by code point.
pub open spec fn code_compare() -> spec_fn(char, char) -> int {
    |x: char, y: char| compare_int(x as int, y as int)
}

pub open spec fn word_char_dom() -> spec_fn(char) -> bool {
    |c: char| is_word_char(c)
}

pub open spec fn any_char_dom() -> spec_fn(char) -> bool {
    |c: char| true
}

/// A string made only of version-token characters.
pub open spec fn is_word_string(s: Seq<char>) -> bool {
    forall|i: int| 0 <= i < s.len() ==> is_word_char(#[trigger] s[i])
}

pub open spec fn word_string_dom() -> spec_fn(Seq<char>) -> bool {
    |s: Seq<char>| is_word_string(s)
}

/// Every character is a digit.
pub open spec fn is_digit_string(s: Seq<char>) -> bool {
    forall|i: int| 0 <= i < s.len() ==> is_digit(#[trigger] s[i])
}

/// The value of a string of decimal digits.
pub open spec fn digits_value(s: Seq<char>) -> nat
    decreases s.len(),
{
    if s.len() == 0 {
        0
    } else {
        digits_value(s.drop_last()) * 10 + ((s.last() as int - '0' as int) as nat)
    }
}

/// What `str::parse::<i64>` gives for a string of version-token
/// characters: its value when it is a non-empty string of digits whose
/// value fits in an `i64`.
pub open spec fn number_of(s: Seq<char>) -> Option<i64> {
    if s.len() > 0 && is_digit_string(s) && digits_value(s) <= i64::MAX {
        Some(digits_value(s) as i64)
    } else {
        None
    }
}

/// Comparison of two sub-tokens: alphabetic sub-tokens sort before numeric
/// ones; two alphabetic sub-tokens compare by character rank; two numeric
/// ones compare by value and then by the character ranks of their text
/// (`01` before `1`).
pub open spec fn subtoken_compare(a: Seq<char>, b: Seq<char>) -> int {
    let na = number_of(a) is Some;
    let nb = number_of(b) is Some;
    if !na && !nb {
        lex(a, b, rank_compare())
    } else if !na {
        -1
    } else if !nb {
        1
    } else {
        let c = compare_int(digits_value(a) as int, digits_value(b) as int);
        if c != 0 {
            c
        } else {
            lex(a, b, rank_compare())
        }
    }
}

pub open spec fn subtoken_compare_fn() -> spec_fn(Seq<char>, Seq<char>) -> int {
    |a: Seq<char>, b: Seq<char>| subtoken_compare(a, b)
}

/// Comparison of two tokens: lexicographic by sub-token.
pub open spec fn token_compare(a: Seq<Seq<char>>, b: Seq<Seq<char>>) -> int {
    lex(a, b, subtoken_compare_fn())
}

pub open spec fn token_compare_fn() -> spec_fn(Seq<Seq<char>>, Seq<Seq<char>>) -> int {
    |a: Seq<Seq<char>>, b: Seq<Seq<char>>| token_compare(a, b)
}

/// A token is well formed when it has at least one sub-token and every
/// sub-token is a non-empty string of token characters.
pub open spec fn token_wf(t: Seq<Seq<char>>) -> bool {
    &&& t.len() > 0
    &&& forall|i: int| 0 <= i < t.len() ==> #[trigger] t[i].len() > 0 && is_word_string(t[i])
}

/// The mathematical value of a version: its tokens and its separators.
pub struct VersionModel {
    pub tokens: Seq<Seq<Seq<char>>>,
    pub seps: Seq<char>,
}

/// A version is well formed when it has at least one token and every token
/// is well formed.
pub open spec fn version_wf(v: VersionModel) -> bool {
    &&& v.tokens.len() > 0
    &&& forall|i: int| 0 <= i < v.tokens.len() ==> token_wf(#[trigger] v.tokens[i])
}

/// Comparison of two versions: lexicographic by token, then by separator
/// code point.
pub open spec fn version_compare(a: VersionModel, b: VersionModel) -> int {
    let c = lex(a.tokens, b.tokens, token_compare_fn());
    if c != 0 {
        c
    } else {
        lex(a.seps, b.seps, code_compare())
    }
}

/// `a` sorts strictly before `b`.
pub open spec fn version_lt(a: VersionModel, b: VersionModel) -> bool {
    version_compare(a, b) < 0
}

/// `a` sorts before `b` or equals it.
pub open spec fn version_le(a: VersionModel, b: VersionModel) -> bool {
    version_compare(a, b) <= 0
}

proof fn lemma_rank_order()
    ensures
        is_total_order(rank_compare(), word_char_dom()),
{
    let f = rank_compare();
    let d = word_char_dom();
    assert forall|x: char, y: char| d(x) && d(y) implies (#[trigger] f(x, y) == 0 <==> x == y) by {
        if char_rank(x) == char_rank(y) {
            assert(x as int == y as int);
        }
    }
}

pub proof fn lemma_code_order()
    ensures
        is_total_order(code_compare(), any_char_dom()),
{
    let f = code_compare();
    let d = any_char_dom();
    assert forall|x: char, y: char| d(x) && d(y) implies (#[trigger] f(x, y) == 0 <==> x == y) by {
        if x as int == y as int {
            assert(x == y);
        }
    }
}

pub proof fn lemma_subtoken_order()
    ensures
        is_total_order(subtoken_compare_fn(), word_string_dom()),
{
    lemma_rank_order();
    lemma_lex_total_order(rank_compare(), word_char_dom());
    let g = lex_fn(rank_compare());
    let wd = seq_dom(word_char_dom());
    let f = subtoken_compare_fn();
    let d = word_string_dom();
    assert forall|x: Seq<char>| #[trigger] d(x) implies wd(x) by {}
    assert forall|x: Seq<char>, y: Seq<char>| d(x) && d(y) implies -1 <= #[trigger] f(x, y) <= 1
        && f(x, y) == -f(y, x) && (f(x, y) == 0 <==> x == y) by {
        assert(wd(x) && wd(y));
        assert(g(x, y) == lex(x, y, rank_compare()));
    }
    assert forall|x: Seq<char>, y: Seq<char>, z: Seq<char>|
        d(x) && d(y) && d(z) && #[trigger] f(x, y) <= 0 && #[trigger] f(y, z) <= 0 implies f(
        x,
        z,
    ) <= 0 by {
        assert(wd(x) && wd(y) && wd(z));
        assert(g(x, y) == lex(x, y, rank_compare()));
        assert(g(y, z) == lex(y, z, rank_compare()));
        assert(g(x, z) == lex(x, z, rank_compare()));
        assert(g(y, x) == lex(y, x, rank_compare()));
        assert(g(z, y) == lex(z, y, rank_compare()));
        assert(g(z, x) == lex(z, x, rank_compare()));
    }
}

/// Comparing tokens is a total order on well-formed tokens.
pub proof fn lemma_token_order()
    ensures
        is_total_order(token_compare_fn(), seq_dom(word_string_dom())),
{
    lemma_subtoken_order();
    lemma_lex_total_order(subtoken_compare_fn(), word_string_dom());
    let f = token_compare_fn();
    let g = lex_fn(subtoken_compare_fn());
    assert forall|x: Seq<Seq<char>>, y: Seq<Seq<char>>| #[trigger] f(x, y) == g(x, y) by {}
}

pub open spec fn token_dom() -> spec_fn(Seq<Seq<char>>) -> bool {
    seq_dom(word_string_dom())
}

pub proof fn lemma_version_tokens_in_dom(v: VersionModel)
    requires
        version_wf(v),
    ensures
        all_in(v.tokens, token_dom()),
{
    assert forall|i: int| 0 <= i < v.tokens.len() implies #[trigger] token_dom()(v.tokens[i]) by {
        assert(token_wf(v.tokens[i]));
        let t = v.tokens[i];
        assert forall|j: int| 0 <= j < t.len() implies #[trigger] word_string_dom()(t[j]) by {
            assert(t[j].len() > 0 && is_word_string(t[j]));
        }
    }
}

/// Comparing versions is a total order on well-formed versions: the result
/// is `-1`, `0` or `1`; swapping the arguments negates it; it is `0` exactly
/// on equal versions; and `<=` is transitive.
pub proof fn lemma_version_total_order(a: VersionModel, b: VersionModel, c: VersionModel)
    requires
        version_wf(a),
        version_wf(b),
        version_wf(c),
    ensures
        -1 <= version_compare(a, b) <= 1,
        version_compare(a, b) == -version_compare(b, a),
        version_compare(a, b) == 0 <==> a == b,
        version_le(a, b) && version_le(b, c) ==> version_le(a, c),
{
    lemma_token_order();
    lemma_lex_total_order(token_compare_fn(), token_dom());
    lemma_code_order();
    lemma_lex_total_order(code_compare(), any_char_dom());
    lemma_version_tokens_in_dom(a);
    lemma_version_tokens_in_dom(b);
    lemma_version_tokens_in_dom(c);
    let tf = lex_fn(token_compare_fn());
    let td = seq_dom(token_dom());
    let sf = lex_fn(code_compare());
    let sd = seq_dom(any_char_dom());
    assert(td(a.tokens) && td(b.tokens) && td(c.tokens));
    assert(sd(a.seps) && sd(b.seps) && sd(c.seps));
    assert(tf(a.tokens, b.tokens) == lex(a.tokens, b.tokens, token_compare_fn()));
    assert(tf(b.tokens, a.tokens) == lex(b.tokens, a.tokens, token_compare_fn()));
    assert(tf(b.tokens, c.tokens) == lex(b.tokens, c.tokens, token_compare_fn()));
    assert(tf(a.tokens, c.tokens) == lex(a.tokens, c.tokens, token_compare_fn()));
    assert(tf(c.tokens, b.tokens) == lex(c.tokens, b.tokens, token_compare_fn()));
    assert(sf(a.seps, b.seps) == lex(a.seps, b.seps, code_compare()));
    assert(sf(b.seps, a.seps) == lex(b.seps, a.seps, code_compare()));
    assert(sf(b.seps, c.seps) == lex(b.seps, c.seps, code_compare()));
    assert(sf(a.seps, c.seps) == lex(a.seps, c.seps, code_compare()));
    assert(sf(c.seps, b.seps) == lex(c.seps, b.seps, code_compare()));
    if version_compare(a, b) == 0 {
        assert(a.tokens == b.tokens && a.seps == b.seps);
    }
}


/// The sub-token that ends every bumped token, and that makes up the
/// lowest version.
pub open spec fn underscore() -> Seq<char> {
    seq!['_']
}

/// The token that follows every version starting with `t`: a numeric last
/// sub-token gets an extra `_` sub-token, an alphabetic one gets `_`
/// appended.
pub open spec fn bump_token(t: Seq<Seq<char>>) -> Seq<Seq<char>> {
    if number_of(t.last()) is Some {
        t.push(underscore())
    } else {
        t.drop_last().push(t.last() + underscore())
    }
}

/// The version right after every version that extends `v`: its last token
/// is bumped.
pub open spec fn bump_model(v: VersionModel) -> VersionModel {
    VersionModel {
        tokens: v.tokens.drop_last().push(bump_token(v.tokens.last())),
        seps: v.seps,
    }
}

/// The lowest version, `_`.
pub open spec fn lowest_model() -> VersionModel {
    VersionModel { tokens: seq![seq![underscore()]], seps: Seq::empty() }
}

proof fn lemma_lex_shared_prefix<T>(p: Seq<T>, x: Seq<T>, y: Seq<T>, f: spec_fn(T, T) -> int)
    requires
        forall|i: int| 0 <= i < p.len() ==> f(#[trigger] p[i], p[i]) == 0,
    ensures
        lex(p + x, p + y, f) == lex(x, y, f),
    decreases p.len(),
{
    if p.len() > 0 {
        let p1 = p.drop_first();
        assert((p + x).drop_first() =~= p1 + x);
        assert((p + y).drop_first() =~= p1 + y);
        assert((p + x)[0] == p[0]);
        assert((p + y)[0] == p[0]);
        assert forall|i: int| 0 <= i < p1.len() implies f(#[trigger] p1[i], p1[i]) == 0 by {
            assert(p1[i] == p[i + 1]);
        }
        lemma_lex_shared_prefix(p1, x, y, f);
    } else {
        assert(p + x =~= x);
        assert(p + y =~= y);
    }
}

proof fn lemma_lex_proper_prefix<T>(p: Seq<T>, x: Seq<T>, f: spec_fn(T, T) -> int)
    requires
        forall|i: int| 0 <= i < p.len() ==> f(#[trigger] p[i], p[i]) == 0,
        x.len() > 0,
    ensures
        lex(p, p + x, f) == -1,
{
    let e: Seq<T> = Seq::empty();
    assert(p + e =~= p);
    lemma_lex_shared_prefix(p, e, x, f);
}

proof fn lemma_token_refl(t: Seq<Seq<char>>)
    requires
        token_wf(t),
    ensures
        forall|i: int| 0 <= i < t.len() ==> subtoken_compare_fn()(#[trigger] t[i], t[i]) == 0,
{
    lemma_subtoken_order();
    assert forall|i: int| 0 <= i < t.len() implies subtoken_compare_fn()(#[trigger] t[i], t[i])
        == 0 by {
        assert(word_string_dom()(t[i]));
    }
}

proof fn lemma_tokens_refl(v: VersionModel)
    requires
        version_wf(v),
    ensures
        forall|i: int|
            0 <= i < v.tokens.len() ==> token_compare_fn()(#[trigger] v.tokens[i], v.tokens[i])
                == 0,
{
    lemma_token_order();
    lemma_version_tokens_in_dom(v);
    assert forall|i: int| 0 <= i < v.tokens.len() implies token_compare_fn()(
        #[trigger] v.tokens[i],
        v.tokens[i],
    ) == 0 by {
        assert(token_dom()(v.tokens[i]));
    }
}

proof fn lemma_bump_token_greater(t: Seq<Seq<char>>)
    requires
        token_wf(t),
    ensures
        token_compare(t, bump_token(t)) == -1,
{
    lemma_token_refl(t);
    let b = bump_token(t);
    if number_of(t.last()) is Some {
        assert(b =~= t + seq![underscore()]);
        lemma_lex_proper_prefix(t, seq![underscore()], subtoken_compare_fn());
    } else {
        let p = t.drop_last();
        let s = t.last();
        assert(t =~= p + seq![s]);
        assert(b =~= p + seq![s + underscore()]);
        assert forall|i: int| 0 <= i < p.len() implies subtoken_compare_fn()(#[trigger] p[i], p[i])
            == 0 by {
            assert(p[i] == t[i]);
        }
        lemma_lex_shared_prefix(p, seq![s], seq![s + underscore()], subtoken_compare_fn());
        // the last sub-token is alphabetic, and so is it with `_` appended
        let s2 = s + underscore();
        assert(!is_digit(s2[s2.len() - 1]));
        assert(number_of(s2) is None);
        lemma_rank_order();
        assert forall|i: int| 0 <= i < s.len() implies rank_compare()(#[trigger] s[i], s[i])
            == 0 by {}
        lemma_lex_proper_prefix(s, underscore(), rank_compare());
        assert(subtoken_compare(s, s2) == -1);
        assert(seq![s][0] == s);
        assert(seq![s2][0] == s2);
        assert(seq![s].drop_first() =~= Seq::<Seq<char>>::empty());
        assert(seq![s2].drop_first() =~= Seq::<Seq<char>>::empty());
        assert(subtoken_compare_fn()(s, s2) == -1);
        assert(lex(seq![s], seq![s2], subtoken_compare_fn()) == -1);
    }
}

/// Every well-formed version sorts strictly before its bump.
pub proof fn lemma_bump_greater(v: VersionModel)
    requires
        version_wf(v),
    ensures
        version_lt(v, bump_model(v)),
{
    lemma_extension_below_bump(v, v);
}

/// The range from a version to its bump holds every version that extends
/// it: a version whose tokens begin with all of `v`'s tokens sorts before
/// `v`'s bump, and after `v` itself when it has more tokens.
pub proof fn lemma_extension_below_bump(v: VersionModel, w: VersionModel)
    requires
        version_wf(v),
        v.tokens.is_prefix_of(w.tokens),
    ensures
        version_lt(w, bump_model(v)),
        w.tokens.len() > v.tokens.len() ==> version_lt(v, w),
{
    lemma_tokens_refl(v);
    let n = v.tokens.len() as int;
    let p = v.tokens.drop_last();
    let t = v.tokens.last();
    assert(token_wf(t)) by {
        assert(token_wf(v.tokens[n - 1]));
    }
    lemma_bump_token_greater(t);
    let rest = w.tokens.skip(n - 1);
    assert(w.tokens =~= p + rest) by {
        assert forall|i: int| 0 <= i < p.len() implies w.tokens[i] == p[i] by {
            assert(w.tokens[i] == v.tokens[i]);
        }
    }
    assert(rest[0] == t);
    let bt = bump_model(v).tokens;
    assert(bt =~= p + seq![bump_token(t)]);
    assert forall|i: int| 0 <= i < p.len() implies token_compare_fn()(#[trigger] p[i], p[i])
        == 0 by {
        assert(p[i] == v.tokens[i]);
    }
    lemma_lex_shared_prefix(p, rest, seq![bump_token(t)], token_compare_fn());
    assert(token_compare_fn()(rest[0], seq![bump_token(t)][0]) == -1);
    assert(lex(rest, seq![bump_token(t)], token_compare_fn()) == -1);
    if w.tokens.len() > n {
        let x = w.tokens.skip(n as int);
        assert(w.tokens =~= v.tokens + x) by {
            assert forall|i: int| 0 <= i < n implies w.tokens[i] == v.tokens[i] by {}
        }
        lemma_lex_proper_prefix(v.tokens, x, token_compare_fn());
    }
}

/// The lowest version sorts before (or equals) every well-formed version.
pub proof fn lemma_lowest_is_minimum(w: VersionModel)
    requires
        version_wf(w),
    ensures
        version_le(lowest_model(), w),
{
    let l = lowest_model();
    let t0 = w.tokens[0];
    assert(token_wf(t0));
    let s0 = t0[0];
    assert(s0.len() > 0 && is_word_string(s0));
    // `_` ranks lowest among token characters
    let u = underscore();
    assert(number_of(u) is None);
    let rc = lex(u, s0, rank_compare());
    assert(u[0] == '_');
    assert(is_word_char(s0[0]));
    assert(char_rank(s0[0]) >= 0);
    assert(rank_compare()(u[0], s0[0]) <= 0);
    if rank_compare()(u[0], s0[0]) == 0 {
        assert(u.drop_first().len() == 0);
        assert(lex(u.drop_first(), s0.drop_first(), rank_compare()) <= 0);
        assert(rc == lex(u.drop_first(), s0.drop_first(), rank_compare()));
    } else {
        assert(rc == rank_compare()(u[0], s0[0]));
    }
    assert(rc <= 0);
    let sc = subtoken_compare(u, s0);
    assert(sc <= 0);
    let su = seq![u];
    let tc = token_compare(su, t0);
    assert(su[0] == u);
    assert(subtoken_compare_fn()(su[0], t0[0]) == sc);
    if sc == 0 {
        assert(su.drop_first().len() == 0);
        assert(lex(su.drop_first(), t0.drop_first(), subtoken_compare_fn()) <= 0);
        assert(tc == lex(su.drop_first(), t0.drop_first(), subtoken_compare_fn()));
    } else {
        assert(tc == sc);
    }
    assert(tc <= 0);
    assert(l.tokens[0] == su);
    assert(token_compare_fn()(l.tokens[0], w.tokens[0]) == tc);
    let c = lex(l.tokens, w.tokens, token_compare_fn());
    if tc == 0 {
        assert(l.tokens.drop_first().len() == 0);
        assert(c == lex(l.tokens.drop_first(), w.tokens.drop_first(), token_compare_fn()));
        assert(c <= 0);
        if c == 0 {
            assert(l.seps.len() == 0);
            assert(lex(l.seps, w.seps, code_compare()) <= 0);
        }
    } else {
        assert(c == tc);
    }
}

/// Bumping a well-formed token gives a well-formed token.
pub proof fn lemma_bump_token_wf(t: Seq<Seq<char>>)
    requires
        token_wf(t),
    ensures
        token_wf(bump_token(t)),
{
    let b = bump_token(t);
    let lt = t.last();
    assert(token_wf(t) ==> lt.len() > 0 && is_word_string(lt)) by {
        assert(t[t.len() - 1] == lt);
    }
    assert forall|i: int| 0 <= i < b.len() implies #[trigger] b[i].len() > 0 && is_word_string(
        b[i],
    ) by {
        if i < t.len() - 1 {
            assert(b[i] == t[i]);
        } else if number_of(lt) is Some {
            if i == t.len() - 1 {
                assert(b[i] == t[i]);
            } else {
                assert(b[i] == underscore());
            }
        } else {
            assert(b[i] == lt + underscore());
            assert forall|k: int| 0 <= k < b[i].len() implies is_word_char(#[trigger] b[i][k]) by {
                if k < lt.len() {
                    assert(b[i][k] == lt[k]);
                }
            }
        }
    }
}

} // verus!
