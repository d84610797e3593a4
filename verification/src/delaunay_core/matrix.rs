//! Exact determinants of small integer matrices.
//!
//! A matrix is a sequence of rows. The determinant is defined by expansion
//! along the first row and evaluated the same way, in 128-bit arithmetic,
//! whenever a simple bound on its magnitude shows that nothing overflows.

use vstd::prelude::*;

verus! {

/// The entries of a matrix as mathematical integers.
pub open spec fn matrix_view(m: Seq<Vec<i128>>) -> Seq<Seq<int>> {
    Seq::new(m.len(), |i: int| Seq::new(m[i]@.len(), |j: int| m[i]@[j] as int))
}

/// Every row is as long as the matrix has rows.
pub open spec fn is_square(m: Seq<Seq<int>>) -> bool {
    forall|i: int| 0 <= i < m.len() ==> (#[trigger] m[i]).len() == m.len()
}

/// The matrix without its first row and without column `j`.
pub open spec fn minor(m: Seq<Seq<int>>, j: int) -> Seq<Seq<int>> {
    Seq::new((m.len() - 1) as nat, |r: int| m[r + 1].remove(j))
}

/// The determinant, by expansion along the first row. The empty matrix has
/// determinant 1.
pub open spec fn det(m: Seq<Seq<int>>) -> int
    decreases m.len(), 2int, 0int,
{
    if m.len() == 0 {
        1
    } else {
        expansion(m, m.len() as int)
    }
}

/// The sum of the first `k` terms of the expansion along the first row.
pub open spec fn expansion(m: Seq<Seq<int>>, k: int) -> int
    decreases m.len(), 1int, k,
{
    if k <= 0 || m.len() == 0 {
        0
    } else {
        expansion(m, k - 1) + term(m, k - 1)
    }
}

/// Term `j` of the expansion along the first row: the entry, times the
/// determinant of its minor, with alternating sign.
pub open spec fn term(m: Seq<Seq<int>>, j: int) -> int
    decreases m.len(), 0int, 0int,
{
    if m.len() == 0 {
        0
    } else if j % 2 == 0 {
        m[0][j] * det(minor(m, j))
    } else {
        -(m[0][j] * det(minor(m, j)))
    }
}

/// The absolute value.
pub open spec fn magnitude(x: int) -> int {
    if x < 0 {
        -x
    } else {
        x
    }
}

/// The largest magnitude in column `j`, and at least 1.
pub open spec fn column_bound(m: Seq<Seq<int>>, j: int) -> int
    decreases m.len(),
{
    if m.len() == 0 {
        1
    } else {
        let above = column_bound(m.drop_last(), j);
        let here = magnitude(m.last()[j]);
        if here > above {
            here
        } else {
            above
        }
    }
}

/// The bound of each column, in order.
pub open spec fn column_bounds(m: Seq<Seq<int>>) -> Seq<int> {
    Seq::new(m.len(), |j: int| column_bound(m, j))
}

/// The product of the numbers of `s`.
pub open spec fn product(s: Seq<int>) -> int
    decreases s.len(),
{
    if s.len() == 0 {
        1
    } else {
        product(s.drop_last()) * s.last()
    }
}

/// `n!`
pub open spec fn factorial(n: nat) -> int
    decreases n,
{
    if n == 0 {
        1
    } else {
        n * factorial((n - 1) as nat)
    }
}

/// A bound on the magnitude of the determinant of an `n` by `n` matrix:
/// `n!` times the product of the column bounds. Each of the `n!` products
/// that make up the determinant takes one entry from each column.
pub open spec fn det_bound(m: Seq<Seq<int>>) -> int {
    factorial(m.len()) * product(column_bounds(m))
}

/// Every entry of `m` is bounded in magnitude by the bound of its column.
pub open spec fn bounded_by(m: Seq<Seq<int>>, bounds: Seq<int>) -> bool {
    forall|i: int, j: int|
        0 <= i < m.len() && 0 <= j < m[i].len() ==> magnitude(#[trigger] m[i][j]) <= bounds[j]
}

/// The column bound is at least 1 and bounds every entry of its column.
pub proof fn lemma_column_bound(m: Seq<Seq<int>>, j: int)
    ensures
        column_bound(m, j) >= 1,
        forall|i: int| 0 <= i < m.len() ==> magnitude(#[trigger] m[i][j]) <= column_bound(m, j),
    decreases m.len(),
{
    if m.len() > 0 {
        lemma_column_bound(m.drop_last(), j);
        assert forall|i: int| 0 <= i < m.len() implies magnitude(#[trigger] m[i][j])
            <= column_bound(m, j) by {
            if i < m.len() - 1 {
                assert(m.drop_last()[i] == m[i]);
            }
        }
    }
}

/// A square matrix is bounded by its column bounds, and each is at least 1.
pub proof fn lemma_column_bounds(m: Seq<Seq<int>>)
    requires
        is_square(m),
    ensures
        bounded_by(m, column_bounds(m)),
        forall|j: int| 0 <= j < m.len() ==> #[trigger] column_bounds(m)[j] >= 1,
{
    assert forall|i: int, j: int| 0 <= i < m.len() && 0 <= j < m[i].len() implies magnitude(
        #[trigger] m[i][j],
    ) <= column_bounds(m)[j] by {
        lemma_column_bound(m, j);
    }
    assert forall|j: int| 0 <= j < m.len() implies #[trigger] column_bounds(m)[j] >= 1 by {
        lemma_column_bound(m, j);
    }
}

/// A product of numbers that are at least 1 is at least 1, and no smaller
/// than the product of any of its prefixes.
pub proof fn lemma_product_grows(s: Seq<int>, k: int)
    requires
        forall|j: int| 0 <= j < s.len() ==> #[trigger] s[j] >= 1,
        0 <= k <= s.len(),
    ensures
        1 <= product(s.take(k)) <= product(s),
    decreases s.len() - k,
{
    if k == s.len() {
        assert(s.take(k) =~= s);
        lemma_product_at_least_one(s);
    } else {
        lemma_product_grows(s, k + 1);
        assert(s.take(k + 1).drop_last() =~= s.take(k));
        let p = product(s.take(k));
        let x = s[k];
        assert(product(s.take(k + 1)) == p * x);
        lemma_product_at_least_one(s.take(k));
        assert(p <= p * x) by (nonlinear_arith)
            requires
                p >= 1,
                x >= 1,
        ;
    }
}

/// A product of numbers that are at least 1 is at least 1.
pub proof fn lemma_product_at_least_one(s: Seq<int>)
    requires
        forall|j: int| 0 <= j < s.len() ==> #[trigger] s[j] >= 1,
    ensures
        product(s) >= 1,
    decreases s.len(),
{
    if s.len() > 0 {
        lemma_product_at_least_one(s.drop_last());
        let p = product(s.drop_last());
        let x = s.last();
        assert(p * x >= 1) by (nonlinear_arith)
            requires
                p >= 1,
                x >= 1,
        ;
    }
}

/// Taking one factor out of a product.
pub proof fn lemma_product_remove(s: Seq<int>, j: int)
    requires
        0 <= j < s.len(),
    ensures
        product(s) == s[j] * product(s.remove(j)),
    decreases s.len(),
{
    if j == s.len() - 1 {
        assert(s.remove(j) =~= s.drop_last());
        let p = product(s.drop_last());
        let x = s.last();
        assert(p * x == x * p) by (nonlinear_arith);
    } else {
        let front = s.drop_last();
        lemma_product_remove(front, j);
        assert(s.remove(j).drop_last() =~= front.remove(j));
        assert(s.remove(j).last() == s.last());
        let q = product(front.remove(j));
        let x = s[j];
        let y = s.last();
        assert(front[j] == x);
        assert(product(s) == (x * q) * y);
        assert(product(s.remove(j)) == q * y);
        assert((x * q) * y == x * (q * y)) by (nonlinear_arith);
    }
}

/// `n!` is at least 1.
pub proof fn lemma_factorial_positive(n: nat)
    ensures
        factorial(n) >= 1,
    decreases n,
{
    if n > 0 {
        lemma_factorial_positive((n - 1) as nat);
        let f = factorial((n - 1) as nat);
        assert(n * f >= 1) by (nonlinear_arith)
            requires
                n >= 1,
                f >= 1,
        ;
    }
}

/// The factorial does not decrease.
pub proof fn lemma_factorial_grows(k: nat, n: nat)
    requires
        k <= n,
    ensures
        factorial(k) <= factorial(n),
    decreases n - k,
{
    if k < n {
        lemma_factorial_grows(k, (n - 1) as nat);
        lemma_factorial_positive((n - 1) as nat);
        let f = factorial((n - 1) as nat);
        assert(f <= n * f) by (nonlinear_arith)
            requires
                n >= 1,
                f >= 1,
        ;
    }
}

/// The magnitude of a product is bounded by the product of the bounds.
pub proof fn lemma_magnitude_of_product(a: int, b: int, bound_a: int, bound_b: int)
    requires
        magnitude(a) <= bound_a,
        magnitude(b) <= bound_b,
    ensures
        magnitude(a * b) <= bound_a * bound_b,
{
    assert(magnitude(a * b) <= bound_a * bound_b) by (nonlinear_arith)
        requires
            -bound_a <= a <= bound_a,
            -bound_b <= b <= bound_b,
            magnitude(a * b) == if a * b < 0 {
                -(a * b)
            } else {
                a * b
            },
    ;
}

/// Row `r` of `m` holds nothing but zeros.
pub open spec fn is_zero_row(m: Seq<Seq<int>>, r: int) -> bool {
    forall|j: int| 0 <= j < m[r].len() ==> #[trigger] m[r][j] == 0
}

/// A square matrix with a row of zeros has determinant 0.
pub proof fn lemma_det_zero_row(m: Seq<Seq<int>>, r: int)
    requires
        is_square(m),
        0 <= r < m.len(),
        is_zero_row(m, r),
    ensures
        det(m) == 0,
    decreases m.len(),
{
    let n = m.len() as int;
    assert forall|j: int| 0 <= j < n implies #[trigger] term(m, j) == 0 by {
        assert(m[0].len() == n);
        if r == 0 {
            assert(m[0][j] == 0);
            assert(m[0][j] * det(minor(m, j)) == 0) by (nonlinear_arith)
                requires
                    m[0][j] == 0,
            ;
        } else {
            let sub = minor(m, j);
            assert(is_square(sub)) by {
                assert forall|i: int| 0 <= i < sub.len() implies (#[trigger] sub[i]).len()
                    == sub.len() by {
                    assert(m[i + 1].len() == n);
                }
            }
            assert(is_zero_row(sub, r - 1)) by {
                assert(m[r].len() == n);
                assert forall|c: int| 0 <= c < sub[r - 1].len() implies #[trigger] sub[r - 1][c]
                    == 0 by {
                    if c < j {
                        assert(sub[r - 1][c] == m[r][c]);
                    } else {
                        assert(sub[r - 1][c] == m[r][c + 1]);
                    }
                }
            }
            lemma_det_zero_row(sub, r - 1);
            assert(m[0][j] * det(sub) == 0) by (nonlinear_arith)
                requires
                    det(sub) == 0,
            ;
        }
    }
    lemma_expansion_of_zero_terms(m, n);
}

/// Where every term is 0, so is every sum of terms.
pub proof fn lemma_expansion_of_zero_terms(m: Seq<Seq<int>>, k: int)
    requires
        0 <= k <= m.len(),
        forall|j: int| 0 <= j < m.len() ==> #[trigger] term(m, j) == 0,
    ensures
        expansion(m, k) == 0,
    decreases k,
{
    if k > 0 {
        lemma_expansion_of_zero_terms(m, k - 1);
        assert(term(m, k - 1) == 0);
        assert(expansion(m, k) == expansion(m, k - 1) + term(m, k - 1));
    }
}

/// The bound on the determinant of a square matrix bounds every entry.
pub proof fn lemma_det_bound_dominates(m: Seq<Seq<int>>, i: int, j: int)
    requires
        is_square(m),
        0 <= i < m.len(),
        0 <= j < m.len(),
    ensures
        magnitude(m[i][j]) <= det_bound(m),
{
    let bounds = column_bounds(m);
    lemma_column_bounds(m);
    lemma_product_remove(bounds, j);
    lemma_product_at_least_one(bounds.remove(j));
    lemma_factorial_positive(m.len());
    let f = factorial(m.len());
    let b = bounds[j];
    let q = product(bounds.remove(j));
    assert(b <= f * (b * q)) by (nonlinear_arith)
        requires
            f >= 1,
            b >= 1,
            q >= 1,
    ;
}

/// The copy of `row` without entry `j`.
fn row_without(row: &Vec<i128>, j: usize) -> (out: Vec<i128>)
    requires
        j < row.len(),
    ensures
        out@ == row@.remove(j as int),
{
    let mut out: Vec<i128> = Vec::new();
    let mut c: usize = 0;
    while c < row.len()
        invariant
            j < row.len(),
            c <= row.len(),
            out.len() == if c <= j {
                c as int
            } else {
                c - 1
            },
            forall|k: int|
                0 <= k < out.len() ==> out[k] == if k < j {
                    row[k]
                } else {
                    row[k + 1]
                },
        decreases row.len() - c,
    {
        if c != j {
            out.push(row[c]);
        }
        c += 1;
    }
    assert(out@ =~= row@.remove(j as int));
    out
}

/// The matrix without its first row and without column `j`.
fn minor_of(m: &Vec<Vec<i128>>, j: usize) -> (sub: Vec<Vec<i128>>)
    requires
        is_square(matrix_view(m@)),
        j < m.len(),
    ensures
        matrix_view(sub@) == minor(matrix_view(m@), j as int),
        sub.len() == m.len() - 1,
{
    let mut sub: Vec<Vec<i128>> = Vec::new();
    let mut r: usize = 1;
    while r < m.len()
        invariant
            is_square(matrix_view(m@)),
            j < m.len(),
            1 <= r <= m.len(),
            sub.len() == r - 1,
            forall|k: int| 0 <= k < sub.len() ==> (#[trigger] sub[k])@ == m[k + 1]@.remove(j as int),
        decreases m.len() - r,
    {
        assert(matrix_view(m@)[r as int].len() == m.len());
        let row = row_without(&m[r], j);
        sub.push(row);
        r += 1;
    }
    assert(matrix_view(sub@) =~~= minor(matrix_view(m@), j as int)) by {
        assert forall|k: int| 0 <= k < sub.len() implies #[trigger] matrix_view(sub@)[k] =~= minor(
            matrix_view(m@),
            j as int,
        )[k] by {
            assert(sub[k]@ == m[k + 1]@.remove(j as int));
            assert(matrix_view(m@)[k + 1].len() == m.len());
        }
    }
    sub
}

/// The determinant of a square matrix whose bound fits 128 bits.
fn det_rec(m: &Vec<Vec<i128>>, Ghost(bounds): Ghost<Seq<int>>) -> (d: i128)
    requires
        is_square(matrix_view(m@)),
        bounds.len() == m.len(),
        bounded_by(matrix_view(m@), bounds),
        forall|j: int| 0 <= j < bounds.len() ==> #[trigger] bounds[j] >= 1,
        factorial(m.len() as nat) * product(bounds) <= i128::MAX,
    ensures
        d == det(matrix_view(m@)),
        magnitude(d as int) <= factorial(m.len() as nat) * product(bounds),
    decreases m.len(),
{
    let n: usize = m.len();
    let ghost mv = matrix_view(m@);
    if n == 0 {
        return 1;
    }
    let ghost f1 = factorial((n - 1) as nat);
    let ghost p = product(bounds);
    proof {
        lemma_factorial_positive((n - 1) as nat);
        lemma_product_at_least_one(bounds);
        assert(factorial(n as nat) == n * f1);
    }
    let mut acc: i128 = 0;
    let mut j: usize = 0;
    while j < n
        invariant
            n == m.len(),
            n >= 1,
            mv == matrix_view(m@),
            is_square(mv),
            bounds.len() == n,
            bounded_by(mv, bounds),
            forall|k: int| 0 <= k < bounds.len() ==> #[trigger] bounds[k] >= 1,
            f1 == factorial((n - 1) as nat),
            p == product(bounds),
            f1 >= 1,
            p >= 1,
            n * f1 * p <= i128::MAX,
            j <= n,
            acc == expansion(mv, j as int),
            magnitude(acc as int) <= j * (f1 * p),
        decreases n - j,
    {
        let sub = minor_of(m, j);
        let ghost rest = bounds.remove(j as int);
        let ghost q = product(rest);
        proof {
            let sv = matrix_view(sub@);
            assert(sv == minor(mv, j as int));
            assert(is_square(sv)) by {
                assert forall|i: int| 0 <= i < sv.len() implies (#[trigger] sv[i]).len()
                    == sv.len() by {
                    assert(mv[i + 1].len() == n);
                }
            }
            assert(bounded_by(sv, rest)) by {
                assert forall|i: int, c: int| 0 <= i < sv.len() && 0 <= c < sv[i].len() implies magnitude(
                 #[trigger] sv[i][c]) <= rest[c] by {
                    assert(mv[i + 1].len() == n);
                    if c < j {
                        assert(sv[i][c] == mv[i + 1][c]);
                    } else {
                        assert(sv[i][c] == mv[i + 1][c + 1]);
                    }
                }
            }
            lemma_product_remove(bounds, j as int);
            lemma_product_at_least_one(rest);
            let b = bounds[j as int];
            assert(p == b * q);
            assert(f1 * q <= n * f1 * p && f1 * p == b * (f1 * q) && f1 * p <= n * f1 * p)
                by (nonlinear_arith)
                requires
                    p == b * q,
                    b >= 1,
                    q >= 1,
                    f1 >= 1,
                    n >= 1,
            ;
        }
        let d: i128 = det_rec(&sub, Ghost(rest));
        assert(mv[0].len() == n);
        let e: i128 = m[0][j];
        proof {
            assert(e == mv[0][j as int]);
            lemma_magnitude_of_product(e as int, d as int, bounds[j as int], f1 * q);
            assert(bounds[j as int] * (f1 * q) == f1 * p);
            assert(j * (f1 * p) + f1 * p <= n * f1 * p) by (nonlinear_arith)
                requires
                    j < n,
                    f1 * p >= 0,
            ;
            assert((j + 1) * (f1 * p) == j * (f1 * p) + f1 * p) by (nonlinear_arith);
        }
        let t: i128 = e * d;
        proof {
            assert(expansion(mv, j + 1) == expansion(mv, j as int) + term(mv, j as int));
            assert(term(mv, j as int) == if j % 2 == 0 {
                e * d
            } else {
                -(e * d)
            });
        }
        if j % 2 == 0 {
            acc = acc + t;
        } else {
            acc = acc - t;
        }
        j += 1;
    }
    proof {
        assert(n * (f1 * p) == n * f1 * p) by (nonlinear_arith);
    }
    acc
}

/// The determinant of `m` can be evaluated in 128 bits: the matrix is
/// square and the bound on its determinant fits.
pub open spec fn evaluable(m: Seq<Seq<int>>) -> bool {
    is_square(m) && det_bound(m) <= i128::MAX
}

/// Whether every row is as long as the matrix has rows.
fn square_check(m: &Vec<Vec<i128>>) -> (square: bool)
    ensures
        square == is_square(matrix_view(m@)),
{
    let mut i: usize = 0;
    while i < m.len()
        invariant
            i <= m.len(),
            forall|k: int| 0 <= k < i ==> (#[trigger] matrix_view(m@)[k]).len() == m.len(),
        decreases m.len() - i,
    {
        if m[i].len() != m.len() {
            assert(matrix_view(m@)[i as int].len() != m.len());
            return false;
        }
        i += 1;
    }
    true
}

/// The bound of column `j`, where it fits 128 bits.
fn column_bound_of(m: &Vec<Vec<i128>>, j: usize) -> (bound: Option<i128>)
    requires
        is_square(matrix_view(m@)),
        j < m.len(),
    ensures
        bound is Some <==> column_bound(matrix_view(m@), j as int) <= i128::MAX,
        bound is Some ==> bound.unwrap() == column_bound(matrix_view(m@), j as int),
{
    let ghost mv = matrix_view(m@);
    let mut bound: i128 = 1;
    let mut i: usize = 0;
    assert(mv.take(0) =~= Seq::<Seq<int>>::empty());
    while i < m.len()
        invariant
            mv == matrix_view(m@),
            is_square(mv),
            j < m.len(),
            i <= m.len(),
            bound == column_bound(mv.take(i as int), j as int),
        decreases m.len() - i,
    {
        assert(mv[i as int].len() == m.len());
        let x: i128 = m[i][j];
        assert(mv.take(i + 1).drop_last() =~= mv.take(i as int));
        assert(mv.take(i + 1).last() == mv[i as int]);
        if x == i128::MIN {
            proof {
                lemma_column_bound(mv, j as int);
                assert(magnitude(mv[i as int][j as int]) > i128::MAX);
            }
            return None;
        }
        let here: i128 = if x < 0 { -x } else { x };
        if here > bound {
            bound = here;
        }
        i += 1;
    }
    assert(mv.take(i as int) =~= mv);
    Some(bound)
}

/// Whether the bound on the determinant fits 128 bits.
fn bound_fits(m: &Vec<Vec<i128>>) -> (fits: bool)
    requires
        is_square(matrix_view(m@)),
    ensures
        fits == (det_bound(matrix_view(m@)) <= i128::MAX),
{
    let ghost mv = matrix_view(m@);
    let ghost bounds = column_bounds(mv);
    let n: usize = m.len();
    proof {
        lemma_column_bounds(mv);
        lemma_factorial_positive(n as nat);
        lemma_product_at_least_one(bounds);
        assert(bounds.take(0) =~= Seq::<int>::empty());
    }
    let ghost total = product(bounds);
    let ghost fact = factorial(n as nat);
    let mut acc: i128 = 1;
    let mut j: usize = 0;
    while j < n
        invariant
            n == m.len(),
            mv == matrix_view(m@),
            is_square(mv),
            bounds == column_bounds(mv),
            forall|k: int| 0 <= k < bounds.len() ==> #[trigger] bounds[k] >= 1,
            total == product(bounds),
            fact == factorial(n as nat),
            fact >= 1,
            total >= 1,
            j <= n,
            acc == product(bounds.take(j as int)),
        decreases n - j,
    {
        proof {
            lemma_product_grows(bounds, j + 1);
            assert(bounds.take(j + 1).drop_last() =~= bounds.take(j as int));
            assert(total <= fact * total) by (nonlinear_arith)
                requires
                    fact >= 1,
                    total >= 1,
            ;
            lemma_product_grows(bounds, j as int);
            let a = product(bounds.take(j as int));
            let b = bounds[j as int];
            assert(b <= a * b) by (nonlinear_arith)
                requires
                    a >= 1,
                    b >= 1,
            ;
        }
        let bound = column_bound_of(m, j);
        match bound {
            None => {
                return false;
            },
            Some(b) => {
                match acc.checked_mul(b) {
                    None => {
                        return false;
                    },
                    Some(next) => {
                        acc = next;
                    },
                }
            },
        }
        j += 1;
    }
    assert(bounds.take(j as int) =~= bounds);
    let mut f: i128 = 1;
    let mut k: usize = 0;
    while k < n
        invariant
            k <= n,
            f == factorial(k as nat),
            fact == factorial(n as nat),
            fact >= 1,
            total >= 1,
            acc == total,
            det_bound(matrix_view(m@)) == fact * total,
        decreases n - k,
    {
        proof {
            lemma_factorial_grows((k + 1) as nat, n as nat);
            lemma_factorial_positive((k + 1) as nat);
            assert(fact <= fact * total) by (nonlinear_arith)
                requires
                    fact >= 1,
                    total >= 1,
            ;
        }
        match f.checked_mul((k + 1) as i128) {
            None => {
                assert(factorial((k + 1) as nat) == f * (k + 1)) by {
                    assert(factorial((k + 1) as nat) == (k + 1) * factorial(k as nat));
                    assert((k + 1) * f == f * (k + 1)) by (nonlinear_arith);
                }
                return false;
            },
            Some(next) => {
                assert(factorial((k + 1) as nat) == f * (k + 1)) by {
                    assert(factorial((k + 1) as nat) == (k + 1) * factorial(k as nat));
                    assert((k + 1) * f == f * (k + 1)) by (nonlinear_arith);
                }
                f = next;
            },
        }
        k += 1;
    }
    match f.checked_mul(acc) {
        None => false,
        Some(_) => true,
    }
}

/// The determinant of `m`, where the matrix is square and the bound on
/// the determinant fits 128 bits; otherwise nothing.
pub fn determinant(m: &Vec<Vec<i128>>) -> (d: Option<i128>)
    ensures
        d is Some <==> evaluable(matrix_view(m@)),
        d is Some ==> d.unwrap() == det(matrix_view(m@)),
{
    if !square_check(m) {
        return None;
    }
    if !bound_fits(m) {
        return None;
    }
    proof {
        lemma_column_bounds(matrix_view(m@));
    }
    Some(det_rec(m, Ghost(column_bounds(matrix_view(m@)))))
}

} // verus!
