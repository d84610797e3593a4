//! Laws of the determinant: it changes its sign when two neighboring
//! columns change places, vanishes when two columns are equal, and is
//! linear in the last column.

use super::matrix::{det, expansion, is_square, minor, term};
use vstd::prelude::*;

verus! {

/// `m` with the columns `j` and `j + 1` exchanged.
pub open spec fn swap_columns(m: Seq<Seq<int>>, j: int) -> Seq<Seq<int>> {
    Seq::new(
        m.len(),
        |i: int|
            Seq::new(
                m[i].len(),
                |c: int|
                    if c == j {
                        m[i][j + 1]
                    } else if c == j + 1 {
                        m[i][j]
                    } else {
                        m[i][c]
                    },
            ),
    )
}

/// The minors of a square matrix are square.
pub proof fn lemma_minor_is_square(m: Seq<Seq<int>>, k: int)
    requires
        is_square(m),
        0 <= k < m.len(),
    ensures
        is_square(minor(m, k)),
        minor(m, k).len() == m.len() - 1,
{
    let sub = minor(m, k);
    assert forall|i: int| 0 <= i < sub.len() implies (#[trigger] sub[i]).len() == sub.len() by {
        assert(m[i + 1].len() == m.len());
    }
}

/// One step of the expansion along the first row.
pub proof fn lemma_expansion_step(m: Seq<Seq<int>>, k: int)
    requires
        0 <= k < m.len(),
    ensures
        expansion(m, k + 1) == expansion(m, k) + term(m, k),
{
}

/// The term of entry `k`, written out.
pub proof fn lemma_term(m: Seq<Seq<int>>, k: int)
    requires
        m.len() > 0,
    ensures
        term(m, k) == if k % 2 == 0 {
            m[0][k] * det(minor(m, k))
        } else {
            -(m[0][k] * det(minor(m, k)))
        },
{
}

/// Exchanging two neighboring columns negates every term but those of the
/// two columns, which change places and sign.
pub proof fn lemma_swap_terms(m: Seq<Seq<int>>, j: int, k: int)
    requires
        is_square(m),
        0 <= j,
        j + 1 < m.len(),
        0 <= k < m.len(),
        forall|c: int|
            0 <= c < m.len() && c != j && c != j + 1 ==> det(
                #[trigger] minor(swap_columns(m, j), c),
            ) == -det(minor(m, c)),
    ensures
        term(swap_columns(m, j), k) == if k == j {
            -term(m, j + 1)
        } else if k == j + 1 {
            -term(m, j)
        } else {
            -term(m, k)
        },
{
    let s = swap_columns(m, j);
    let n = m.len() as int;
    lemma_term(s, k);
    assert(m[0].len() == n);
    if k == j {
        lemma_term(m, j + 1);
        assert(minor(s, j) =~~= minor(m, j + 1)) by {
            assert forall|r: int| 0 <= r < n - 1 implies #[trigger] minor(s, j)[r] =~= minor(
                m,
                j + 1,
            )[r] by {
                assert(m[r + 1].len() == n);
            }
        }
        assert(s[0][j] == m[0][j + 1]);
    } else if k == j + 1 {
        lemma_term(m, j);
        assert(minor(s, j + 1) =~~= minor(m, j)) by {
            assert forall|r: int| 0 <= r < n - 1 implies #[trigger] minor(s, j + 1)[r] =~= minor(
                m,
                j,
            )[r] by {
                assert(m[r + 1].len() == n);
            }
        }
        assert(s[0][j + 1] == m[0][j]);
    } else {
        lemma_term(m, k);
        assert(s[0][k] == m[0][k]);
        assert(det(minor(s, k)) == -det(minor(m, k)));
        let e = m[0][k];
        let d = det(minor(m, k));
        assert(e * (-d) == -(e * d)) by (nonlinear_arith);
    }
}

/// The sums of terms of a matrix and of the matrix with two neighboring
/// columns exchanged, given how their terms relate.
pub proof fn lemma_swap_expansion(m: Seq<Seq<int>>, j: int, k: int)
    requires
        0 <= j,
        j + 1 < m.len(),
        0 <= k <= m.len(),
        forall|c: int|
            0 <= c < m.len() ==> #[trigger] term(swap_columns(m, j), c) == if c == j {
                -term(m, j + 1)
            } else if c == j + 1 {
                -term(m, j)
            } else {
                -term(m, c)
            },
    ensures
        expansion(swap_columns(m, j), k) == if k == j + 1 {
            -expansion(m, j) - term(m, j + 1)
        } else {
            -expansion(m, k)
        },
    decreases k,
{
    let s = swap_columns(m, j);
    if k > 0 {
        lemma_swap_expansion(m, j, k - 1);
        lemma_expansion_step(s, k - 1);
        lemma_expansion_step(m, k - 1);
        assert(term(s, k - 1) == if k - 1 == j {
            -term(m, j + 1)
        } else if k - 1 == j + 1 {
            -term(m, j)
        } else {
            -term(m, k - 1)
        });
        if k == j + 2 {
            lemma_expansion_step(m, j);
        }
    }
}

/// Exchanging two neighboring columns of a square matrix changes the sign
/// of its determinant.
pub proof fn lemma_swap_negates(m: Seq<Seq<int>>, j: int)
    requires
        is_square(m),
        0 <= j,
        j + 1 < m.len(),
    ensures
        det(swap_columns(m, j)) == -det(m),
    decreases m.len(),
{
    let s = swap_columns(m, j);
    let n = m.len() as int;
    assert forall|c: int| 0 <= c < n && c != j && c != j + 1 implies det(
        #[trigger] minor(s, c),
    ) == -det(minor(m, c)) by {
        lemma_minor_is_square(m, c);
        let inner = if c < j {
            j - 1
        } else {
            j
        };
        assert(minor(s, c) =~~= swap_columns(minor(m, c), inner)) by {
            assert forall|r: int| 0 <= r < n - 1 implies #[trigger] minor(s, c)[r]
                =~= swap_columns(minor(m, c), inner)[r] by {
                assert(m[r + 1].len() == n);
            }
        }
        lemma_swap_negates(minor(m, c), inner);
    }
    assert forall|c: int| 0 <= c < n implies #[trigger] term(s, c) == if c == j {
        -term(m, j + 1)
    } else if c == j + 1 {
        -term(m, j)
    } else {
        -term(m, c)
    } by {
        lemma_swap_terms(m, j, c);
    }
    lemma_swap_expansion(m, j, n);
}

/// A square matrix with two equal columns has determinant 0.
pub proof fn lemma_equal_columns(m: Seq<Seq<int>>, a: int, b: int)
    requires
        is_square(m),
        0 <= a < b < m.len(),
        forall|i: int| 0 <= i < m.len() ==> (#[trigger] m[i])[a] == m[i][b],
    ensures
        det(m) == 0,
    decreases b - a,
{
    let n = m.len() as int;
    if b == a + 1 {
        assert(swap_columns(m, a) =~~= m) by {
            assert forall|i: int| 0 <= i < n implies #[trigger] swap_columns(m, a)[i] =~= m[i] by {
                assert(m[i].len() == n);
                assert(m[i][a] == m[i][b]);
            }
        }
        lemma_swap_negates(m, a);
    } else {
        let s = swap_columns(m, b - 1);
        assert(is_square(s)) by {
            assert forall|i: int| 0 <= i < s.len() implies (#[trigger] s[i]).len() == s.len() by {
                assert(m[i].len() == n);
            }
        }
        assert forall|i: int| 0 <= i < s.len() implies (#[trigger] s[i])[a] == s[i][b - 1] by {
            assert(m[i].len() == n);
            assert(m[i][a] == m[i][b]);
        }
        lemma_equal_columns(s, a, b - 1);
        lemma_swap_negates(m, b - 1);
    }
}

/// The rows of `x`, each with the entry of `last` for that row added at
/// its end.
pub open spec fn with_last(x: Seq<Seq<int>>, last: Seq<int>) -> Seq<Seq<int>> {
    Seq::new(x.len(), |i: int| x[i].push(last[i]))
}

/// `alpha * a + beta * b`, entry by entry.
pub open spec fn blend(alpha: int, a: Seq<int>, beta: int, b: Seq<int>) -> Seq<int> {
    Seq::new(a.len(), |i: int| alpha * a[i] + beta * b[i])
}

/// Every row of `x` has one entry less than `x` has rows, so that one
/// more column makes it square.
pub open spec fn is_tall(x: Seq<Seq<int>>) -> bool {
    forall|i: int| 0 <= i < x.len() ==> (#[trigger] x[i]).len() == x.len() - 1
}

/// `x` without its first row and without column `k`.
pub open spec fn trimmed(x: Seq<Seq<int>>, k: int) -> Seq<Seq<int>> {
    Seq::new((x.len() - 1) as nat, |r: int| x[r + 1].remove(k))
}

/// The minors of a matrix with an added last column: those of the other
/// columns keep the added column, without its first entry.
pub proof fn lemma_minor_with_last(x: Seq<Seq<int>>, last: Seq<int>, k: int)
    requires
        is_tall(x),
        last.len() == x.len(),
        0 <= k < x.len(),
    ensures
        is_square(with_last(x, last)),
        k < x.len() - 1 ==> minor(with_last(x, last), k) == with_last(
            trimmed(x, k),
            last.drop_first(),
        ) && is_tall(trimmed(x, k)),
        k == x.len() - 1 ==> minor(with_last(x, last), k) == x.drop_first(),
{
    let m = with_last(x, last);
    let n = x.len() as int;
    assert forall|i: int| 0 <= i < m.len() implies (#[trigger] m[i]).len() == m.len() by {
        assert(x[i].len() == n - 1);
    }
    if k < n - 1 {
        let sub = trimmed(x, k);
        assert forall|r: int| 0 <= r < sub.len() implies (#[trigger] sub[r]).len() == sub.len()
            - 1 by {
            assert(x[r + 1].len() == n - 1);
        }
        assert(minor(m, k) =~~= with_last(sub, last.drop_first())) by {
            assert forall|r: int| 0 <= r < n - 1 implies #[trigger] minor(m, k)[r] =~= with_last(
                sub,
                last.drop_first(),
            )[r] by {
                assert(x[r + 1].len() == n - 1);
            }
        }
    } else {
        assert(minor(m, k) =~~= x.drop_first()) by {
            assert forall|r: int| 0 <= r < n - 1 implies #[trigger] minor(m, k)[r]
                =~= x.drop_first()[r] by {
                assert(x[r + 1].len() == n - 1);
            }
        }
    }
}

/// Sums of terms that are blended term by term are blended.
pub proof fn lemma_blend_expansion(
    c: Seq<Seq<int>>,
    alpha: int,
    a: Seq<Seq<int>>,
    beta: int,
    b: Seq<Seq<int>>,
    k: int,
)
    requires
        a.len() == c.len(),
        b.len() == c.len(),
        0 <= k <= c.len(),
        forall|j: int|
            0 <= j < c.len() ==> #[trigger] term(c, j) == alpha * term(a, j) + beta * term(b, j),
    ensures
        expansion(c, k) == alpha * expansion(a, k) + beta * expansion(b, k),
    decreases k,
{
    if k > 0 {
        lemma_blend_expansion(c, alpha, a, beta, b, k - 1);
        lemma_expansion_step(c, k - 1);
        lemma_expansion_step(a, k - 1);
        lemma_expansion_step(b, k - 1);
        let ea = expansion(a, k - 1);
        let eb = expansion(b, k - 1);
        let ta = term(a, k - 1);
        let tb = term(b, k - 1);
        assert(term(c, k - 1) == alpha * ta + beta * tb);
        assert(alpha * (ea + ta) + beta * (eb + tb) == (alpha * ea + beta * eb) + (alpha * ta
            + beta * tb)) by (nonlinear_arith);
    } else {
        assert(alpha * 0 + beta * 0 == 0);
    }
}

/// The determinant is linear in the last column.
pub proof fn lemma_linear_in_last(x: Seq<Seq<int>>, alpha: int, a: Seq<int>, beta: int, b: Seq<int>)
    requires
        is_tall(x),
        x.len() >= 1,
        a.len() == x.len(),
        b.len() == x.len(),
    ensures
        det(with_last(x, blend(alpha, a, beta, b))) == alpha * det(with_last(x, a)) + beta * det(
            with_last(x, b),
        ),
    decreases x.len(),
{
    let n = x.len() as int;
    let mixed = blend(alpha, a, beta, b);
    let mc = with_last(x, mixed);
    let ma = with_last(x, a);
    let mb = with_last(x, b);
    assert forall|j: int| 0 <= j < n implies #[trigger] term(mc, j) == alpha * term(ma, j) + beta
        * term(mb, j) by {
        lemma_minor_with_last(x, mixed, j);
        lemma_minor_with_last(x, a, j);
        lemma_minor_with_last(x, b, j);
        lemma_term(mc, j);
        lemma_term(ma, j);
        lemma_term(mb, j);
        assert(x[0].len() == n - 1);
        if j < n - 1 {
            let sub = trimmed(x, j);
            assert(mixed.drop_first() =~= blend(alpha, a.drop_first(), beta, b.drop_first()));
            lemma_linear_in_last(sub, alpha, a.drop_first(), beta, b.drop_first());
            let e = x[0][j];
            assert(mc[0][j] == e && ma[0][j] == e && mb[0][j] == e);
            let da = det(minor(ma, j));
            let db = det(minor(mb, j));
            assert(det(minor(mc, j)) == alpha * da + beta * db);
            assert(e * (alpha * da + beta * db) == alpha * (e * da) + beta * (e * db))
                by (nonlinear_arith);
            assert(-(e * (alpha * da + beta * db)) == alpha * (-(e * da)) + beta * (-(e * db)))
                by (nonlinear_arith);
        } else {
            let d = det(x.drop_first());
            let ea = a[j];
            let eb = b[j];
            assert(mc[0][j] == alpha * a[0] + beta * b[0]);
            assert(ma[0][j] == a[0] && mb[0][j] == b[0]);
            let fa = a[0];
            let fb = b[0];
            assert((alpha * fa + beta * fb) * d == alpha * (fa * d) + beta * (fb * d))
                by (nonlinear_arith);
            assert(-((alpha * fa + beta * fb) * d) == alpha * (-(fa * d)) + beta * (-(fb * d)))
                by (nonlinear_arith);
        }
    }
    lemma_blend_expansion(mc, alpha, ma, beta, mb, n);
}

} // verus!
