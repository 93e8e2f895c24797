//! Three-way comparisons as integers (`-1`, `0`, `1`) and the lexicographic
//! extension of a comparison from elements to sequences, with the lemmas
//! that carry the order laws from the elements to the sequences.
use vstd::prelude::*;

verus! {

/// Three-way comparison of two integers.
pub open spec fn compare_int(a: int, b: int) -> int {
    if a < b {
        -1
    } else if a == b {
        0
    } else {
        1
    }
}

/// Lexicographic extension of `f`: the first position where the elements
/// differ decides; when one sequence is a prefix of the other, the shorter
/// one is smaller.
pub open spec fn lex<T>(a: Seq<T>, b: Seq<T>, f: spec_fn(T, T) -> int) -> int
    decreases a.len(),
{
    if a.len() == 0 {
        if b.len() == 0 {
            0
        } else {
            -1
        }
    } else if b.len() == 0 {
        1
    } else if f(a[0], b[0]) != 0 {
        f(a[0], b[0])
    } else {
        lex(a.drop_first(), b.drop_first(), f)
    }
}

/// `f` is a total order on the values that satisfy `dom`: its results are
/// `-1`, `0` or `1`, swapping the arguments negates it, it is `0` exactly on
/// equal values, and `<=` is transitive.
pub open spec fn is_total_order<T>(f: spec_fn(T, T) -> int, dom: spec_fn(T) -> bool) -> bool {
    &&& forall|x: T, y: T| dom(x) && dom(y) ==> -1 <= #[trigger] f(x, y) <= 1
    &&& forall|x: T, y: T| dom(x) && dom(y) ==> #[trigger] f(x, y) == -f(y, x)
    &&& forall|x: T, y: T| dom(x) && dom(y) ==> (#[trigger] f(x, y) == 0 <==> x == y)
    &&& forall|x: T, y: T, z: T|
        dom(x) && dom(y) && dom(z) && #[trigger] f(x, y) <= 0 && #[trigger] f(y, z) <= 0 ==> f(
            x,
            z,
        ) <= 0
}

/// Every element of `s` satisfies `dom`.
pub open spec fn all_in<T>(s: Seq<T>, dom: spec_fn(T) -> bool) -> bool {
    forall|i: int| 0 <= i < s.len() ==> #[trigger] dom(s[i])
}

/// The sequences whose elements all satisfy `dom`.
pub open spec fn seq_dom<T>(dom: spec_fn(T) -> bool) -> spec_fn(Seq<T>) -> bool {
    |s: Seq<T>| all_in(s, dom)
}

/// The lexicographic extension of `f` as a comparison of sequences.
pub open spec fn lex_fn<T>(f: spec_fn(T, T) -> int) -> spec_fn(Seq<T>, Seq<T>) -> int {
    |a: Seq<T>, b: Seq<T>| lex(a, b, f)
}

proof fn lemma_lex_range<T>(a: Seq<T>, b: Seq<T>, f: spec_fn(T, T) -> int, dom: spec_fn(T) -> bool)
    requires
        is_total_order(f, dom),
        all_in(a, dom),
        all_in(b, dom),
    ensures
        -1 <= lex(a, b, f) <= 1,
        lex(a, b, f) == -lex(b, a, f),
        lex(a, b, f) == 0 <==> a == b,
    decreases a.len(),
{
    if a.len() > 0 && b.len() > 0 {
        assert(dom(a[0]) && dom(b[0]));
        let c = f(a[0], b[0]);
        assert(c == -f(b[0], a[0]));
        if c == 0 {
            assert(a[0] == b[0]);
            let a1 = a.drop_first();
            let b1 = b.drop_first();
            assert(all_in(a1, dom)) by {
                assert forall|i: int| 0 <= i < a1.len() implies #[trigger] dom(a1[i]) by {
                    assert(a1[i] == a[i + 1]);
                }
            }
            assert(all_in(b1, dom)) by {
                assert forall|i: int| 0 <= i < b1.len() implies #[trigger] dom(b1[i]) by {
                    assert(b1[i] == b[i + 1]);
                }
            }
            lemma_lex_range(a1, b1, f, dom);
            if a1 == b1 {
                assert(a =~= seq![a[0]] + a1);
                assert(b =~= seq![b[0]] + b1);
            }
            if a == b {
                assert(a1 =~= b1);
            }
        } else {
            if a == b {
                assert(a[0] == b[0]);
            }
        }
    } else if a.len() == 0 && b.len() == 0 {
        assert(a =~= b);
    }
}

proof fn lemma_lex_trans<T>(
    a: Seq<T>,
    b: Seq<T>,
    c: Seq<T>,
    f: spec_fn(T, T) -> int,
    dom: spec_fn(T) -> bool,
)
    requires
        is_total_order(f, dom),
        all_in(a, dom),
        all_in(b, dom),
        all_in(c, dom),
        lex(a, b, f) <= 0,
        lex(b, c, f) <= 0,
    ensures
        lex(a, c, f) <= 0,
    decreases a.len(),
{
    if a.len() > 0 && b.len() > 0 && c.len() > 0 {
        assert(dom(a[0]) && dom(b[0]) && dom(c[0]));
        let x = a[0];
        let y = b[0];
        let z = c[0];
        assert(f(x, y) <= 0);
        assert(f(y, z) <= 0);
        assert(f(x, z) <= 0);
        if f(x, y) == 0 && f(y, z) == 0 {
            assert(x == y && y == z);
            let a1 = a.drop_first();
            let b1 = b.drop_first();
            let c1 = c.drop_first();
            assert(all_in(a1, dom)) by {
                assert forall|i: int| 0 <= i < a1.len() implies #[trigger] dom(a1[i]) by {
                    assert(a1[i] == a[i + 1]);
                }
            }
            assert(all_in(b1, dom)) by {
                assert forall|i: int| 0 <= i < b1.len() implies #[trigger] dom(b1[i]) by {
                    assert(b1[i] == b[i + 1]);
                }
            }
            assert(all_in(c1, dom)) by {
                assert forall|i: int| 0 <= i < c1.len() implies #[trigger] dom(c1[i]) by {
                    assert(c1[i] == c[i + 1]);
                }
            }
            lemma_lex_trans(a1, b1, c1, f, dom);
            assert(f(x, z) == 0);
        } else if f(x, z) == 0 {
            // x == z, so f(x, y) <= 0 and f(y, x) <= 0 force x == y == z
            assert(x == z);
            assert(f(y, x) == -f(x, y));
            assert(f(x, y) == 0);
            assert(f(y, z) == 0);
        }
    }
}

/// The lexicographic extension of a total order is a total order on the
/// sequences of its values.
pub proof fn lemma_lex_total_order<T>(f: spec_fn(T, T) -> int, dom: spec_fn(T) -> bool)
    requires
        is_total_order(f, dom),
    ensures
        is_total_order(lex_fn(f), seq_dom(dom)),
{
    let g = lex_fn(f);
    let d = seq_dom(dom);
    assert forall|x: Seq<T>, y: Seq<T>| d(x) && d(y) implies -1 <= #[trigger] g(x, y) <= 1 && g(
        x,
        y,
    ) == -g(y, x) && (g(x, y) == 0 <==> x == y) by {
        lemma_lex_range(x, y, f, dom);
    }
    assert forall|x: Seq<T>, y: Seq<T>, z: Seq<T>|
        d(x) && d(y) && d(z) && #[trigger] g(x, y) <= 0 && #[trigger] g(y, z) <= 0 implies g(
        x,
        z,
    ) <= 0 by {
        lemma_lex_trans(x, y, z, f, dom);
    }
}

} // verus!
