//! The circumsphere test: whether a point lies strictly inside the sphere
//! through the corners of a simplex, decided by the signs of two exact
//! determinants, and what that sign test means.

use super::cell::coordinates;
use super::error::TriangulationError;
use super::linear::{blend, is_tall, lemma_equal_columns, lemma_linear_in_last, with_last};
use super::matrix::{
    det, determinant, evaluable, is_square, is_zero_row, lemma_det_bound_dominates,
    lemma_det_zero_row, matrix_view,
};
use super::point::Point;
use super::vertex::Vertex;
use vstd::prelude::*;

verus! {

/// `a - b`, coordinate by coordinate.
pub open spec fn difference(a: Seq<int>, b: Seq<int>) -> Seq<int> {
    Seq::new(a.len(), |k: int| a[k] - b[k])
}

/// The sum of the squares of the coordinates.
pub open spec fn squared_norm(v: Seq<int>) -> int
    decreases v.len(),
{
    if v.len() == 0 {
        0
    } else {
        squared_norm(v.drop_last()) + v.last() * v.last()
    }
}

/// Row `i` holds the offset of corner `i` from `q`, then the squared length
/// of that offset.
pub open spec fn sphere_matrix(simplex: Seq<Seq<int>>, q: Seq<int>) -> Seq<Seq<int>> {
    Seq::new(
        simplex.len(),
        |i: int| difference(simplex[i], q).push(squared_norm(difference(simplex[i], q))),
    )
}

/// Row `i` holds the offset of corner `i` from `q`, then 1. Its
/// determinant is the orientation of the simplex, wherever `q` lies.
pub open spec fn orientation_matrix(simplex: Seq<Seq<int>>, q: Seq<int>) -> Seq<Seq<int>> {
    Seq::new(simplex.len(), |i: int| difference(simplex[i], q).push(1))
}

/// `q` lies strictly inside the sphere through the corners of the simplex:
/// the determinant of the sphere matrix has the sign of the orientation.
/// A point on the sphere is not inside, and a flat simplex has no inside.
pub open spec fn in_circumsphere(simplex: Seq<Seq<int>>, q: Seq<int>) -> bool {
    det(sphere_matrix(simplex, q)) * det(orientation_matrix(simplex, q)) > 0
}

/// Both determinants of the circumsphere test can be evaluated in 128 bits.
pub open spec fn decidable(simplex: Seq<Seq<int>>, q: Seq<int>) -> bool {
    evaluable(sphere_matrix(simplex, q)) && evaluable(orientation_matrix(simplex, q))
}

/// What the circumsphere test of the simplex on `vertices` answers for
/// `vertex`: whether the vertex lies strictly inside, or why that cannot
/// be said.
pub open spec fn sphere_test<U, const D: usize>(
    vertices: Seq<Vertex<U, D>>,
    vertex: Vertex<U, D>,
) -> Result<bool, TriangulationError> {
    if vertices.len() != D + 1 {
        Err(TriangulationError::UndefinedCircumsphere)
    } else if !decidable(coordinates(vertices), vertex.point@) {
        Err(TriangulationError::ArithmeticOverflow)
    } else {
        Ok(in_circumsphere(coordinates(vertices), vertex.point@))
    }
}

/// A vertex of a simplex does not lie strictly inside its circumsphere:
/// the test for a point at one of the `D + 1` corners does not answer yes.
pub proof fn lemma_corner_is_not_inside<U, const D: usize>(
    vertices: Seq<Vertex<U, D>>,
    vertex: Vertex<U, D>,
    r: int,
)
    requires
        0 <= r < vertices.len(),
        vertices[r].point@ == vertex.point@,
    ensures
        sphere_test(vertices, vertex) != Ok::<bool, TriangulationError>(true),
{
    if vertices.len() == D + 1 {
        let simplex = coordinates(vertices);
        let q = vertex.point@;
        let m = sphere_matrix(simplex, q);
        let offset = difference(simplex[r], q);
        assert(is_square(m));
        assert(is_zero_row(m, r)) by {
            lemma_squared_norm_of_zero(offset);
            assert forall|j: int| 0 <= j < m[r].len() implies #[trigger] m[r][j] == 0 by {
                if j < D {
                    assert(m[r][j] == offset[j]);
                }
            }
        }
        lemma_det_zero_row(m, r);
        let turned = det(orientation_matrix(simplex, q));
        assert(det(m) * turned == 0) by (nonlinear_arith)
            requires
                det(m) == 0,
        ;
    }
}

/// A vector of zeros has squared norm 0.
pub proof fn lemma_squared_norm_of_zero(v: Seq<int>)
    requires
        forall|k: int| 0 <= k < v.len() ==> #[trigger] v[k] == 0,
    ensures
        squared_norm(v) == 0,
    decreases v.len(),
{
    if v.len() > 0 {
        lemma_squared_norm_of_zero(v.drop_last());
        assert(v.last() * v.last() == 0) by (nonlinear_arith)
            requires
                v.last() == 0,
        ;
    }
}

/// The numbers of `v` as mathematical integers.
pub open spec fn ints(v: Seq<i128>) -> Seq<int> {
    Seq::new(v.len(), |k: int| v[k] as int)
}

/// The squared norm is not negative and bounds each of its prefixes.
pub proof fn lemma_squared_norm_grows(v: Seq<int>, k: int)
    requires
        0 <= k <= v.len(),
    ensures
        0 <= squared_norm(v.take(k)) <= squared_norm(v),
    decreases v.len() - k,
{
    if k == v.len() {
        assert(v.take(k) =~= v);
        lemma_squared_norm_positive(v);
    } else {
        lemma_squared_norm_grows(v, k + 1);
        assert(v.take(k + 1).drop_last() =~= v.take(k));
        lemma_squared_norm_positive(v.take(k));
        let x = v[k];
        assert(x * x >= 0) by (nonlinear_arith);
    }
}

/// The squared norm is not negative.
pub proof fn lemma_squared_norm_positive(v: Seq<int>)
    ensures
        squared_norm(v) >= 0,
    decreases v.len(),
{
    if v.len() > 0 {
        lemma_squared_norm_positive(v.drop_last());
        let x = v.last();
        assert(x * x >= 0) by (nonlinear_arith);
    }
}

/// `p - q`, coordinate by coordinate.
fn difference_of<const D: usize>(p: &Point<D>, q: &Point<D>) -> (out: Vec<i128>)
    ensures
        ints(out@) == difference(p@, q@),
{
    let mut out: Vec<i128> = Vec::new();
    let mut k: usize = 0;
    while k < D
        invariant
            k <= D,
            out.len() == k,
            forall|c: int| 0 <= c < k ==> out[c] == p@[c] - q@[c],
        decreases D - k,
    {
        let a: i128 = p.coords[k] as i128;
        let b: i128 = q.coords[k] as i128;
        out.push(a - b);
        k += 1;
    }
    assert(ints(out@) =~= difference(p@, q@));
    out
}

/// The squared norm of `v`, where it fits 128 bits.
fn squared_norm_of(v: &Vec<i128>) -> (norm: Option<i128>)
    ensures
        norm is Some <==> squared_norm(ints(v@)) <= i128::MAX,
        norm is Some ==> norm.unwrap() == squared_norm(ints(v@)),
{
    let ghost iv = ints(v@);
    let mut acc: i128 = 0;
    let mut k: usize = 0;
    assert(iv.take(0) =~= Seq::<int>::empty());
    while k < v.len()
        invariant
            iv == ints(v@),
            k <= v.len(),
            acc == squared_norm(iv.take(k as int)),
            acc >= 0,
        decreases v.len() - k,
    {
        let x: i128 = v[k];
        proof {
            assert(iv.take(k + 1).drop_last() =~= iv.take(k as int));
            assert(iv.take(k + 1).last() == x);
            lemma_squared_norm_grows(iv, k + 1);
            assert(x * x >= 0) by (nonlinear_arith);
        }
        match x.checked_mul(x) {
            None => {
                return None;
            },
            Some(square) => {
                match acc.checked_add(square) {
                    None => {
                        return None;
                    },
                    Some(next) => {
                        acc = next;
                    },
                }
            },
        }
        k += 1;
    }
    assert(iv.take(k as int) =~= iv);
    Some(acc)
}

/// Whether `vertex` lies strictly inside the sphere through `vertices`.
/// Only `D + 1` vertices have such a sphere, and the answer needs
/// coordinates small enough for both determinants to be evaluated.
pub fn sphere_contains<U: Copy, const D: usize>(
    vertices: &Vec<Vertex<U, D>>,
    vertex: Vertex<U, D>,
) -> (inside: Result<bool, TriangulationError>)
    ensures
        inside == sphere_test(vertices@, vertex),
{
    let n: usize = vertices.len();
    if D == usize::MAX || n != D + 1 {
        return Err(TriangulationError::UndefinedCircumsphere);
    }
    let ghost simplex = coordinates(vertices@);
    let ghost q = vertex.point@;
    let ghost sm = sphere_matrix(simplex, q);
    let ghost om = orientation_matrix(simplex, q);
    assert(is_square(sm) && is_square(om));
    let mut sphere: Vec<Vec<i128>> = Vec::new();
    let mut orient: Vec<Vec<i128>> = Vec::new();
    let mut i: usize = 0;
    while i < n
        invariant
            n == vertices.len(),
            n == D + 1,
            simplex == coordinates(vertices@),
            q == vertex.point@,
            sm == sphere_matrix(simplex, q),
            om == orientation_matrix(simplex, q),
            is_square(sm),
            i <= n,
            sphere.len() == i,
            orient.len() == i,
            forall|k: int| 0 <= k < i ==> ints((#[trigger] sphere[k])@) == sm[k],
            forall|k: int| 0 <= k < i ==> ints((#[trigger] orient[k])@) == om[k],
        decreases n - i,
    {
        let mut row: Vec<i128> = difference_of(&vertices[i].point, &vertex.point);
        let mut flat: Vec<i128> = difference_of(&vertices[i].point, &vertex.point);
        let ghost offset = difference(simplex[i as int], q);
        assert(ints(row@) == offset);
        match squared_norm_of(&row) {
            None => {
                proof {
                    lemma_det_bound_dominates(sm, i as int, D as int);
                    assert(sm[i as int][D as int] == squared_norm(offset));
                }
                return Err(TriangulationError::ArithmeticOverflow);
            },
            Some(norm) => {
                row.push(norm);
                assert(ints(row@) =~= sm[i as int]);
            },
        }
        flat.push(1);
        assert(ints(flat@) =~= om[i as int]);
        sphere.push(row);
        orient.push(flat);
        i += 1;
    }
    assert(matrix_view(sphere@) =~~= sm) by {
        assert forall|k: int| 0 <= k < n implies #[trigger] matrix_view(sphere@)[k] =~= sm[k] by {
            assert(ints(sphere[k]@) == sm[k]);
        }
    }
    assert(matrix_view(orient@) =~~= om) by {
        assert forall|k: int| 0 <= k < n implies #[trigger] matrix_view(orient@)[k] =~= om[k] by {
            assert(ints(orient[k]@) == om[k]);
        }
    }
    let lifted = determinant(&sphere);
    let turned = determinant(&orient);
    match (lifted, turned) {
        (Some(a), Some(b)) => {
            assert((a * b > 0) <==> ((a > 0 && b > 0) || (a < 0 && b < 0)))
                by (nonlinear_arith);
            Ok((a > 0 && b > 0) || (a < 0 && b < 0))
        },
        _ => Err(TriangulationError::ArithmeticOverflow),
    }
}

/// `w * p - centre`, coordinate by coordinate: where a sphere has its
/// centre at `centre / w`, this is `w` times the offset of `p` from it.
pub open spec fn scaled_offset(p: Seq<int>, centre: Seq<int>, w: int) -> Seq<int> {
    Seq::new(p.len(), |j: int| w * p[j] - centre[j])
}

/// `w * y + e`, coordinate by coordinate.
pub open spec fn shifted(y: Seq<int>, e: Seq<int>, w: int) -> Seq<int> {
    Seq::new(y.len(), |j: int| w * y[j] + e[j])
}

/// The sum of the products of the coordinates of `a` and `b`.
pub open spec fn dot(a: Seq<int>, b: Seq<int>) -> int
    decreases a.len(),
{
    if a.len() == 0 {
        0
    } else {
        dot(a.drop_last(), b.drop_last()) + a.last() * b.last()
    }
}

/// `|w y + e|^2 = w^2 |y|^2 + 2 w (e . y) + |e|^2`
pub proof fn lemma_norm_of_shifted(y: Seq<int>, e: Seq<int>, w: int)
    requires
        e.len() == y.len(),
    ensures
        squared_norm(shifted(y, e, w)) == w * w * squared_norm(y) + 2 * w * dot(e, y)
            + squared_norm(e),
    decreases y.len(),
{
    if y.len() > 0 {
        let v = shifted(y, e, w);
        assert(v.drop_last() =~= shifted(y.drop_last(), e.drop_last(), w));
        lemma_norm_of_shifted(y.drop_last(), e.drop_last(), w);
        let a = y.last();
        let b = e.last();
        let ny = squared_norm(y.drop_last());
        let ne = squared_norm(e.drop_last());
        let de = dot(e.drop_last(), y.drop_last());
        assert(v.last() == w * a + b);
        assert(w * w * ny + 2 * w * de + ne + (w * a + b) * (w * a + b) == w * w * (ny + a * a) + 2
            * w * (de + b * a) + (ne + b * b)) by (nonlinear_arith);
    } else {
        assert(w * w * 0 + 2 * w * 0 + 0 == 0) by (nonlinear_arith);
    }
}

/// Column `j` of `x`.
pub open spec fn column(x: Seq<Seq<int>>, j: int) -> Seq<int> {
    Seq::new(x.len(), |i: int| x[i][j])
}

/// For each row `y` of `x`: `k - 2 w (e . y)`, with the products of the
/// first `j` coordinates only.
pub open spec fn partly(x: Seq<Seq<int>>, e: Seq<int>, w: int, k: int, j: int) -> Seq<int> {
    Seq::new(x.len(), |i: int| k - 2 * w * dot(e.take(j), x[i].take(j)))
}

/// A last column that is a multiple of ones, less multiples of the other
/// columns, gives the same determinant as the multiple of ones alone.
pub proof fn lemma_other_columns_vanish(x: Seq<Seq<int>>, e: Seq<int>, w: int, k: int, j: int)
    requires
        is_tall(x),
        x.len() >= 1,
        e.len() == x.len() - 1,
        0 <= j <= e.len(),
    ensures
        det(with_last(x, partly(x, e, w, k, j))) == k * det(
            with_last(x, Seq::new(x.len(), |i: int| 1int)),
        ),
    decreases j,
{
    let n = x.len();
    let ones = Seq::new(n, |i: int| 1int);
    if j == 0 {
        assert(partly(x, e, w, k, 0) =~= blend(k, ones, 0, ones)) by {
            assert forall|i: int| 0 <= i < n implies partly(x, e, w, k, 0)[i] == blend(
                k,
                ones,
                0,
                ones,
            )[i] by {
                assert(e.take(0).len() == 0);
                assert(2 * w * 0 == 0);
            }
        }
        lemma_linear_in_last(x, k, ones, 0, ones);
    } else {
        lemma_other_columns_vanish(x, e, w, k, j - 1);
        let before = partly(x, e, w, k, j - 1);
        let side = column(x, j - 1);
        let factor = -(2 * w * e[j - 1]);
        assert(partly(x, e, w, k, j) =~= blend(1, before, factor, side)) by {
            assert forall|i: int| 0 <= i < n implies partly(x, e, w, k, j)[i] == blend(
                1,
                before,
                factor,
                side,
            )[i] by {
                assert(x[i].len() == n - 1);
                assert(e.take(j).drop_last() =~= e.take(j - 1));
                assert(x[i].take(j).drop_last() =~= x[i].take(j - 1));
                let sum = dot(e.take(j - 1), x[i].take(j - 1));
                let a = e[j - 1];
                let b = x[i][j - 1];
                assert(dot(e.take(j), x[i].take(j)) == sum + a * b);
                assert(k - 2 * w * (sum + a * b) == 1 * (k - 2 * w * sum) + (-(2 * w * a)) * b)
                    by (nonlinear_arith);
            }
        }
        lemma_linear_in_last(x, 1, before, factor, side);
        let doubled = with_last(x, side);
        assert(is_square(doubled)) by {
            assert forall|i: int| 0 <= i < doubled.len() implies (#[trigger] doubled[i]).len()
                == doubled.len() by {
                assert(x[i].len() == n - 1);
            }
        }
        assert forall|i: int| 0 <= i < doubled.len() implies (#[trigger] doubled[i])[j - 1]
            == doubled[i][n - 1] by {
            assert(x[i].len() == n - 1);
        }
        lemma_equal_columns(doubled, j - 1, n - 1);
        assert(factor * 0 == 0);
    }
}

/// The circumsphere test is geometric. Let the corners of a simplex that
/// is not flat all lie at the same distance from a centre, which is given
/// by its coordinates times `w` so that it need not be a point of the
/// grid. Then the test answers yes for a point exactly where the point
/// is nearer to the centre than the corners. All distances are measured
/// in `w`-ths and squared.
pub proof fn law_circumsphere_test_is_geometric(
    simplex: Seq<Seq<int>>,
    q: Seq<int>,
    centre: Seq<int>,
    w: int,
    radius: int,
)
    requires
        simplex.len() == q.len() + 1,
        centre.len() == q.len(),
        forall|i: int| 0 <= i < simplex.len() ==> (#[trigger] simplex[i]).len() == q.len(),
        w != 0,
        forall|i: int|
            0 <= i < simplex.len() ==> squared_norm(
                scaled_offset(#[trigger] simplex[i], centre, w),
            ) == radius,
        det(orientation_matrix(simplex, q)) != 0,
    ensures
        in_circumsphere(simplex, q) <==> squared_norm(scaled_offset(q, centre, w)) < radius,
{
    let n = simplex.len();
    let d = q.len();
    let x = Seq::new(n, |i: int| difference(simplex[i], q));
    let norms = Seq::new(n, |i: int| squared_norm(x[i]));
    let ones = Seq::new(n, |i: int| 1int);
    let e = scaled_offset(q, centre, w);
    let k = radius - squared_norm(e);
    assert(is_tall(x));
    assert(sphere_matrix(simplex, q) =~~= with_last(x, norms));
    assert(orientation_matrix(simplex, q) =~~= with_last(x, ones));
    let lifted = det(with_last(x, norms));
    let turned = det(with_last(x, ones));
    let scaled = blend(w * w, norms, 0, norms);
    lemma_linear_in_last(x, w * w, norms, 0, norms);
    assert(scaled =~= partly(x, e, w, k, d as int)) by {
        assert forall|i: int| 0 <= i < n implies scaled[i] == partly(x, e, w, k, d as int)[i] by {
            assert(scaled_offset(simplex[i], centre, w) =~= shifted(x[i], e, w)) by {
                assert forall|j: int| 0 <= j < d implies scaled_offset(simplex[i], centre, w)[j]
                    == shifted(x[i], e, w)[j] by {
                    let a = simplex[i][j];
                    let b = q[j];
                    assert(w * a - centre[j] == w * (a - b) + (w * b - centre[j]))
                        by (nonlinear_arith);
                }
            }
            lemma_norm_of_shifted(x[i], e, w);
            assert(e.take(d as int) =~= e);
            assert(x[i].take(d as int) =~= x[i]);
        }
    }
    lemma_other_columns_vanish(x, e, w, k, d as int);
    assert(w * w * lifted + 0 * lifted == k * turned);
    assert((lifted * turned > 0) <==> k > 0) by (nonlinear_arith)
        requires
            w * w * lifted == k * turned,
            w != 0,
            turned != 0,
    ;
}

} // verus!
