//! The incremental construction: one vertex at a time, the cells whose
//! circumsphere holds the vertex are replaced by the cone from the vertex
//! to the boundary of the hole they leave.
//!
//! A simplex is the sequence of its vertices. The working set is a sequence
//! of simplices, and every step is a function from sequences to sequences,
//! so that the same vertices in the same order give the same cells.

use super::cell::{simplices_of, views_of, Cell};
use super::error::TriangulationError;
use super::facet::{facet_lies_on, facet_of, facets, lemma_facet_tokens, lies_on};
use super::sphere::{lemma_corner_is_not_inside, sphere_contains, sphere_test};
use super::utilities::{lemma_filter_none, lemma_filter_step};
use super::vertex::{contains_token, copy_vertices, has_token, uuids_of, Vertex};
use vstd::prelude::*;

verus! {

/// The simplices held in `cells`, in order.
pub open spec fn simplices<U, const D: usize>(cells: Seq<Vec<Vertex<U, D>>>) -> Seq<
    Seq<Vertex<U, D>>,
> {
    Seq::new(cells.len(), |i: int| cells[i]@)
}

/// Every simplex has `D + 1` vertices.
pub open spec fn all_maximal<U, const D: usize>(cells: Seq<Seq<Vertex<U, D>>>) -> bool {
    forall|i: int| 0 <= i < cells.len() ==> (#[trigger] cells[i]).len() == D + 1
}

/// Every simplex has `D + 1` vertices, whose tokens differ.
pub open spec fn well_shaped<U, const D: usize>(cells: Seq<Seq<Vertex<U, D>>>) -> bool {
    forall|c: int|
        0 <= c < cells.len() ==> (#[trigger] cells[c]).len() == D + 1 && uuids_of(
            cells[c],
        ).no_duplicates()
}

/// Every vertex of every simplex is one of `pool`.
pub open spec fn drawn_from<U, const D: usize>(
    cells: Seq<Seq<Vertex<U, D>>>,
    pool: Seq<Vertex<U, D>>,
) -> bool {
    forall|c: int, k: int|
        0 <= c < cells.len() && 0 <= k < cells[c].len() ==> pool.contains(#[trigger] cells[c][k])
}

/// The simplices whose circumsphere holds `vertex` strictly inside.
pub open spec fn is_bad<U, const D: usize>(vertex: Vertex<U, D>) -> spec_fn(
    Seq<Vertex<U, D>>,
) -> bool {
    |s: Seq<Vertex<U, D>>| sphere_test(s, vertex) == Ok::<bool, TriangulationError>(true)
}

/// The simplices whose circumsphere does not hold `vertex` strictly inside.
pub open spec fn is_kept<U, const D: usize>(vertex: Vertex<U, D>) -> spec_fn(
    Seq<Vertex<U, D>>,
) -> bool {
    |s: Seq<Vertex<U, D>>| sphere_test(s, vertex) != Ok::<bool, TriangulationError>(true)
}

/// The circumsphere test of every simplex can be decided for `vertex`.
pub open spec fn testable<U, const D: usize>(
    cells: Seq<Seq<Vertex<U, D>>>,
    vertex: Vertex<U, D>,
) -> bool {
    forall|i: int| 0 <= i < cells.len() ==> sphere_test(#[trigger] cells[i], vertex) is Ok
}

/// `facet`, taken from simplex `i` of `bad`, also lies on another simplex
/// of `bad`.
pub open spec fn shared<U, const D: usize>(
    bad: Seq<Seq<Vertex<U, D>>>,
    i: int,
    facet: Seq<Vertex<U, D>>,
) -> bool {
    exists|j: int| 0 <= j < bad.len() && j != i && lies_on(facet, #[trigger] bad[j])
}

/// The facets, taken from simplex `i` of `bad`, that lie on no other
/// simplex of `bad`.
pub open spec fn is_open<U, const D: usize>(bad: Seq<Seq<Vertex<U, D>>>, i: int) -> spec_fn(
    Seq<Vertex<U, D>>,
) -> bool {
    |f: Seq<Vertex<U, D>>| !shared(bad, i, f)
}

/// The facets of simplex `i` of `bad` that lie on no other simplex of
/// `bad`, in the order of the vertices they lie opposite to.
pub open spec fn open_facets<U, const D: usize>(bad: Seq<Seq<Vertex<U, D>>>, i: int) -> Seq<
    Seq<Vertex<U, D>>,
> {
    facets(bad[i]).filter(is_open(bad, i))
}

/// The open facets of the first `n` simplices of `bad`, simplex by simplex.
pub open spec fn boundary<U, const D: usize>(bad: Seq<Seq<Vertex<U, D>>>, n: nat) -> Seq<
    Seq<Vertex<U, D>>,
>
    decreases n,
{
    if n == 0 {
        Seq::empty()
    } else {
        boundary(bad, (n - 1) as nat) + open_facets(bad, n - 1)
    }
}

/// Each facet with `vertex` as its last vertex.
pub open spec fn cone<U, const D: usize>(
    facets: Seq<Seq<Vertex<U, D>>>,
    vertex: Vertex<U, D>,
) -> Seq<Seq<Vertex<U, D>>> {
    Seq::new(facets.len(), |i: int| facets[i].push(vertex))
}

/// The working set after `vertex` is inserted: the simplices that are not
/// bad, then the cone from `vertex` to the boundary of the bad ones.
pub open spec fn inserted<U, const D: usize>(
    cells: Seq<Seq<Vertex<U, D>>>,
    vertex: Vertex<U, D>,
) -> Seq<Seq<Vertex<U, D>>> {
    let bad = cells.filter(is_bad(vertex));
    cells.filter(is_kept(vertex)) + cone(boundary(bad, bad.len()), vertex)
}

/// The working set after the first `n` of `vertices` are inserted into
/// `cells` one after the other, or nothing where a circumsphere test on
/// the way cannot be decided.
pub open spec fn grown<U, const D: usize>(
    cells: Seq<Seq<Vertex<U, D>>>,
    vertices: Seq<Vertex<U, D>>,
    n: nat,
) -> Option<Seq<Seq<Vertex<U, D>>>>
    decreases n,
{
    if n == 0 {
        Some(cells)
    } else {
        match grown(cells, vertices, (n - 1) as nat) {
            Some(before) => if testable(before, vertices[n - 1]) {
                Some(inserted(before, vertices[n - 1]))
            } else {
                None
            },
            None => None,
        }
    }
}

/// `simplex` has a vertex of `scaffold`.
pub open spec fn touches<U, const D: usize>(
    simplex: Seq<Vertex<U, D>>,
    scaffold: Seq<Vertex<U, D>>,
) -> bool {
    exists|k: int| 0 <= k < simplex.len() && has_token(scaffold, (#[trigger] simplex[k]).uuid)
}

/// The simplices that have no vertex of `scaffold`.
pub open spec fn is_clear<U, const D: usize>(scaffold: Seq<Vertex<U, D>>) -> spec_fn(
    Seq<Vertex<U, D>>,
) -> bool {
    |s: Seq<Vertex<U, D>>| !touches(s, scaffold)
}

/// The cells of the triangulation of `vertices` that is grown from the
/// simplex `scaffold`: every vertex is inserted in turn, and the simplices
/// that still have a vertex of the scaffold are dropped at the end.
pub open spec fn triangulated<U, const D: usize>(
    vertices: Seq<Vertex<U, D>>,
    scaffold: Seq<Vertex<U, D>>,
) -> Option<Seq<Seq<Vertex<U, D>>>> {
    match grown(seq![scaffold], vertices, vertices.len()) {
        Some(cells) => Some(cells.filter(is_clear(scaffold))),
        None => None,
    }
}

/// For every simplex and every vertex that is not one of its own, the
/// circumsphere test can be decided.
pub open spec fn decided<U, const D: usize>(
    cells: Seq<Seq<Vertex<U, D>>>,
    vertices: Seq<Vertex<U, D>>,
) -> bool {
    forall|c: int, v: int|
        0 <= c < cells.len() && 0 <= v < vertices.len() && !has_token(cells[c], vertices[v].uuid)
            ==> #[trigger] sphere_test(cells[c], vertices[v]) is Ok
}

/// The empty-circumsphere property: no vertex lies strictly inside the
/// circumsphere of a simplex that it is not a vertex of.
pub open spec fn delaunay<U, const D: usize>(
    cells: Seq<Seq<Vertex<U, D>>>,
    vertices: Seq<Vertex<U, D>>,
) -> bool {
    forall|c: int, v: int|
        0 <= c < cells.len() && 0 <= v < vertices.len() && !has_token(cells[c], vertices[v].uuid)
            ==> #[trigger] sphere_test(cells[c], vertices[v]) != Ok::<bool, TriangulationError>(
            true,
        )
}

/// Whether `cells` have the empty-circumsphere property for `vertices`,
/// where every test that this takes can be decided; otherwise nothing.
pub fn check_delaunay<U: Copy, V: Copy, const D: usize>(
    cells: &Vec<Cell<U, V, D>>,
    vertices: &Vec<Vertex<U, D>>,
) -> (holds: Option<bool>)
    ensures
        holds == if decided(simplices_of(views_of(cells@)), vertices@) {
            Some(delaunay(simplices_of(views_of(cells@)), vertices@))
        } else {
            None
        },
{
    let ghost model = simplices_of(views_of(cells@));
    let mut empty: bool = true;
    let mut c: usize = 0;
    while c < cells.len()
        invariant
            model == simplices_of(views_of(cells@)),
            c <= cells.len(),
            forall|x: int, v: int|
                0 <= x < c && 0 <= v < vertices.len() && !has_token(model[x], vertices[v].uuid)
                    ==> #[trigger] sphere_test(model[x], vertices[v]) is Ok,
            empty <==> forall|x: int, v: int|
                0 <= x < c && 0 <= v < vertices.len() && !has_token(model[x], vertices[v].uuid)
                    ==> #[trigger] sphere_test(model[x], vertices[v]) != Ok::<
                    bool,
                    TriangulationError,
                >(true),
        decreases cells.len() - c,
    {
        let ghost empty_before = empty;
        let mut clear: bool = true;
        let mut v: usize = 0;
        assert(model[c as int] == cells[c as int].vertices@);
        while v < vertices.len()
            invariant
                model == simplices_of(views_of(cells@)),
                c < cells.len(),
                model[c as int] == cells[c as int].vertices@,
                v <= vertices.len(),
                forall|y: int|
                    0 <= y < v && !has_token(model[c as int], vertices[y].uuid)
                        ==> #[trigger] sphere_test(model[c as int], vertices[y]) is Ok,
                clear <==> forall|y: int|
                    0 <= y < v && !has_token(model[c as int], vertices[y].uuid)
                        ==> #[trigger] sphere_test(model[c as int], vertices[y]) != Ok::<
                        bool,
                        TriangulationError,
                    >(true),
            decreases vertices.len() - v,
        {
            if !contains_token(&cells[c].vertices, vertices[v].uuid) {
                match sphere_contains(&cells[c].vertices, vertices[v]) {
                    Ok(inside) => {
                        if inside {
                            clear = false;
                        }
                    },
                    Err(_) => {
                        assert(!(sphere_test(model[c as int], vertices[v as int]) is Ok));
                        return None;
                    },
                }
            }
            v += 1;
        }
        if !clear {
            empty = false;
        }
        c += 1;
    }
    Some(empty)
}

/// The bad simplices of `cells` for `vertex` and the others, each in the
/// order of `cells`.
pub fn split_cells<U: Copy, const D: usize>(
    cells: &Vec<Vec<Vertex<U, D>>>,
    vertex: Vertex<U, D>,
) -> (split: Result<(Vec<Vec<Vertex<U, D>>>, Vec<Vec<Vertex<U, D>>>), TriangulationError>)
    requires
        all_maximal(simplices(cells@)),
    ensures
        match split {
            Ok((bad, kept)) => {
                &&& testable(simplices(cells@), vertex)
                &&& simplices(bad@) == simplices(cells@).filter(is_bad(vertex))
                &&& simplices(kept@) == simplices(cells@).filter(is_kept(vertex))
                &&& all_maximal(simplices(bad@))
                &&& all_maximal(simplices(kept@))
            },
            Err(e) => e == TriangulationError::ArithmeticOverflow && !testable(
                simplices(cells@),
                vertex,
            ),
        },
{
    let ghost model = simplices(cells@);
    let mut bad: Vec<Vec<Vertex<U, D>>> = Vec::new();
    let mut kept: Vec<Vec<Vertex<U, D>>> = Vec::new();
    let mut i: usize = 0;
    proof {
        lemma_filter_none(model, is_bad(vertex));
        lemma_filter_none(model, is_kept(vertex));
        assert(simplices(bad@) =~= model.take(0).filter(is_bad(vertex)));
        assert(simplices(kept@) =~= model.take(0).filter(is_kept(vertex)));
    }
    while i < cells.len()
        invariant
            model == simplices(cells@),
            all_maximal(model),
            i <= cells.len(),
            forall|k: int| 0 <= k < i ==> sphere_test(#[trigger] model[k], vertex) is Ok,
            simplices(bad@) == model.take(i as int).filter(is_bad(vertex)),
            simplices(kept@) == model.take(i as int).filter(is_kept(vertex)),
            all_maximal(simplices(bad@)),
            all_maximal(simplices(kept@)),
        decreases cells.len() - i,
    {
        let ghost bad_before = simplices(bad@);
        let ghost kept_before = simplices(kept@);
        proof {
            lemma_filter_step(model, is_bad(vertex), i as int);
            lemma_filter_step(model, is_kept(vertex), i as int);
            assert(model[i as int] == cells[i as int]@);
            assert(model[i as int].len() == D + 1);
        }
        match sphere_contains(&cells[i], vertex) {
            Ok(inside) => {
                let copy = copy_vertices(&cells[i]);
                if inside {
                    bad.push(copy);
                    assert(simplices(bad@) =~= bad_before.push(model[i as int]));
                } else {
                    kept.push(copy);
                    assert(simplices(kept@) =~= kept_before.push(model[i as int]));
                }
            },
            Err(e) => {
                return Err(e);
            },
        }
        i += 1;
    }
    assert(model.take(i as int) =~= model);
    Ok((bad, kept))
}

/// Whether `facet`, taken from simplex `i` of `bad`, also lies on another
/// simplex of `bad`.
pub fn is_shared<U: Copy, const D: usize>(
    bad: &Vec<Vec<Vertex<U, D>>>,
    i: usize,
    facet: &Vec<Vertex<U, D>>,
) -> (found: bool)
    ensures
        found == shared(simplices(bad@), i as int, facet@),
{
    let ghost model = simplices(bad@);
    let mut j: usize = 0;
    while j < bad.len()
        invariant
            model == simplices(bad@),
            j <= bad.len(),
            forall|k: int| 0 <= k < j && k != i ==> !lies_on(facet@, #[trigger] model[k]),
        decreases bad.len() - j,
    {
        if j != i && facet_lies_on(facet, &bad[j]) {
            assert(lies_on(facet@, model[j as int]));
            return true;
        }
        j += 1;
    }
    false
}

/// The boundary of the hole that the simplices of `bad` leave: their
/// facets that lie on one of them only.
pub fn boundary_of<U: Copy, const D: usize>(bad: &Vec<Vec<Vertex<U, D>>>) -> (open: Vec<
    Vec<Vertex<U, D>>,
>)
    requires
        all_maximal(simplices(bad@)),
    ensures
        simplices(open@) == boundary(simplices(bad@), bad.len() as nat),
        forall|i: int| 0 <= i < open.len() ==> (#[trigger] open[i]).len() == D,
{
    let ghost model = simplices(bad@);
    let mut open: Vec<Vec<Vertex<U, D>>> = Vec::new();
    let mut i: usize = 0;
    assert(simplices(open@) =~= boundary(model, 0));
    while i < bad.len()
        invariant
            model == simplices(bad@),
            all_maximal(model),
            i <= bad.len(),
            simplices(open@) == boundary(model, i as nat),
            forall|r: int| 0 <= r < open.len() ==> (#[trigger] open[r]).len() == D,
        decreases bad.len() - i,
    {
        let ghost sides = facets(model[i as int]);
        let ghost pred = is_open(model, i as int);
        let ghost before = simplices(open@);
        let mut k: usize = 0;
        proof {
            assert(model[i as int] == bad[i as int]@);
            assert(model[i as int].len() == D + 1);
            lemma_filter_none(sides, pred);
            assert(before + sides.take(0).filter(pred) =~= before);
        }
        while k < bad[i].len()
            invariant
                model == simplices(bad@),
                i < bad.len(),
                model[i as int] == bad[i as int]@,
                bad[i as int]@.len() == D + 1,
                sides == facets(model[i as int]),
                pred == is_open(model, i as int),
                before == boundary(model, i as nat),
                k <= bad[i as int].len(),
                simplices(open@) == before + sides.take(k as int).filter(pred),
                forall|r: int| 0 <= r < open.len() ==> (#[trigger] open[r]).len() == D,
            decreases bad[i as int].len() - k,
        {
            let facet = facet_of(&bad[i], k);
            let ghost so_far = simplices(open@);
            proof {
                lemma_filter_step(sides, pred, k as int);
                assert(sides[k as int] == facet@);
            }
            if !is_shared(bad, i, &facet) {
                open.push(facet);
                assert(simplices(open@) =~= so_far.push(sides[k as int]));
                assert(so_far.push(sides[k as int]) =~= before + sides.take(k as int).filter(
                    pred,
                ).push(sides[k as int]));
            }
            k += 1;
        }
        proof {
            assert(sides.take(k as int) =~= sides);
        }
        i += 1;
    }
    open
}

/// The working set after `vertex` is inserted into `cells`.
pub fn insert_vertex<U: Copy, const D: usize>(
    cells: &Vec<Vec<Vertex<U, D>>>,
    vertex: Vertex<U, D>,
) -> (after: Result<Vec<Vec<Vertex<U, D>>>, TriangulationError>)
    requires
        all_maximal(simplices(cells@)),
    ensures
        match after {
            Ok(next) => {
                &&& testable(simplices(cells@), vertex)
                &&& simplices(next@) == inserted(simplices(cells@), vertex)
                &&& all_maximal(simplices(next@))
            },
            Err(e) => e == TriangulationError::ArithmeticOverflow && !testable(
                simplices(cells@),
                vertex,
            ),
        },
{
    let (bad, kept) = match split_cells(cells, vertex) {
        Ok(split) => split,
        Err(e) => {
            return Err(e);
        },
    };
    let open = boundary_of(&bad);
    let ghost rim = simplices(open@);
    let ghost stay = simplices(kept@);
    let mut next = kept;
    let mut i: usize = 0;
    assert(simplices(next@) =~= stay + cone(rim, vertex).take(0));
    while i < open.len()
        invariant
            i <= open.len(),
            rim == simplices(open@),
            forall|r: int| 0 <= r < open.len() ==> (#[trigger] open[r]).len() == D,
            simplices(next@) == stay + cone(rim, vertex).take(i as int),
            all_maximal(simplices(next@)),
        decreases open.len() - i,
    {
        let ghost so_far = simplices(next@);
        let mut simplex = copy_vertices(&open[i]);
        simplex.push(vertex);
        next.push(simplex);
        proof {
            assert(simplices(next@) =~= so_far.push(rim[i as int].push(vertex)));
            assert(cone(rim, vertex).take(i + 1) =~= cone(rim, vertex).take(i as int).push(
                rim[i as int].push(vertex),
            ));
            assert(so_far.push(rim[i as int].push(vertex)) =~= stay + cone(rim, vertex).take(
                i + 1,
            ));
        }
        i += 1;
    }
    assert(cone(rim, vertex).take(i as int) =~= cone(rim, vertex));
    Ok(next)
}

/// Whether `simplex` has a vertex of `scaffold`.
pub fn touches_scaffold<U: Copy, const D: usize>(
    simplex: &Vec<Vertex<U, D>>,
    scaffold: &Vec<Vertex<U, D>>,
) -> (found: bool)
    ensures
        found == touches(simplex@, scaffold@),
{
    let mut k: usize = 0;
    while k < simplex.len()
        invariant
            k <= simplex.len(),
            forall|c: int| 0 <= c < k ==> !has_token(scaffold@, (#[trigger] simplex[c]).uuid),
        decreases simplex.len() - k,
    {
        if contains_token(scaffold, simplex[k].uuid) {
            return true;
        }
        k += 1;
    }
    false
}

/// The cells of the triangulation of `vertices` that is grown from the
/// simplex `scaffold`, in the order in which the construction leaves them.
/// It fails where a circumsphere test on the way cannot be decided.
pub fn triangulate<U: Copy, const D: usize>(
    vertices: &Vec<Vertex<U, D>>,
    scaffold: &Vec<Vertex<U, D>>,
) -> (built: Result<Vec<Vec<Vertex<U, D>>>, TriangulationError>)
    requires
        scaffold.len() == D + 1,
    ensures
        match built {
            Ok(cells) => triangulated(vertices@, scaffold@) == Some(simplices(cells@))
                && all_maximal(simplices(cells@)),
            Err(e) => e == TriangulationError::ArithmeticOverflow && triangulated(
                vertices@,
                scaffold@,
            ) is None,
        },
{
    let mut cells: Vec<Vec<Vertex<U, D>>> = Vec::new();
    cells.push(copy_vertices(scaffold));
    assert(simplices(cells@) =~= seq![scaffold@]);
    let mut i: usize = 0;
    while i < vertices.len()
        invariant
            i <= vertices.len(),
            grown(seq![scaffold@], vertices@, i as nat) == Some(simplices(cells@)),
            all_maximal(simplices(cells@)),
        decreases vertices.len() - i,
    {
        match insert_vertex(&cells, vertices[i]) {
            Ok(next) => {
                cells = next;
            },
            Err(e) => {
                proof {
                    lemma_grown_stays_none(seq![scaffold@], vertices@, (i + 1) as nat);
                }
                return Err(e);
            },
        }
        i += 1;
    }
    let ghost full = simplices(cells@);
    let ghost pred = is_clear(scaffold@);
    let mut built: Vec<Vec<Vertex<U, D>>> = Vec::new();
    let mut j: usize = 0;
    proof {
        lemma_filter_none(full, pred);
        assert(simplices(built@) =~= full.take(0).filter(pred));
    }
    while j < cells.len()
        invariant
            j <= cells.len(),
            full == simplices(cells@),
            all_maximal(full),
            pred == is_clear(scaffold@),
            simplices(built@) == full.take(j as int).filter(pred),
            all_maximal(simplices(built@)),
        decreases cells.len() - j,
    {
        let ghost so_far = simplices(built@);
        proof {
            lemma_filter_step(full, pred, j as int);
            assert(full[j as int] == cells[j as int]@);
            assert(full[j as int].len() == D + 1);
        }
        if !touches_scaffold(&cells[j], scaffold) {
            built.push(copy_vertices(&cells[j]));
            assert(simplices(built@) =~= so_far.push(full[j as int]));
        }
        j += 1;
    }
    assert(full.take(j as int) =~= full);
    Ok(built)
}

/// A vertex that has just been inserted lies strictly inside no
/// circumsphere of the working set: not of a simplex that was kept, and
/// not of a new one, of which it is a corner.
pub proof fn law_inserted_vertex_is_in_no_circumsphere<U, const D: usize>(
    cells: Seq<Seq<Vertex<U, D>>>,
    vertex: Vertex<U, D>,
    i: int,
)
    requires
        0 <= i < inserted(cells, vertex).len(),
    ensures
        sphere_test(inserted(cells, vertex)[i], vertex) != Ok::<bool, TriangulationError>(true),
{
    let kept = cells.filter(is_kept(vertex));
    let bad = cells.filter(is_bad(vertex));
    let rim = boundary(bad, bad.len());
    if i < kept.len() {
        cells.lemma_filter_pred(is_kept(vertex), i);
        assert(is_kept(vertex)(kept[i]));
    } else {
        let facet = rim[i - kept.len()];
        let simplex = facet.push(vertex);
        assert(inserted(cells, vertex)[i] == simplex);
        lemma_corner_is_not_inside(simplex, vertex, facet.len() as int);
    }
}

/// Every facet on the boundary of the first `n` simplices of `bad` lies
/// opposite a vertex of one of them.
pub proof fn lemma_boundary_facets<U, const D: usize>(
    bad: Seq<Seq<Vertex<U, D>>>,
    n: nat,
    x: int,
) -> (place: (int, int))
    requires
        n <= bad.len(),
        0 <= x < boundary(bad, n).len(),
    ensures
        0 <= place.0 < n,
        0 <= place.1 < bad[place.0].len(),
        boundary(bad, n)[x] == bad[place.0].remove(place.1),
    decreases n,
{
    let before = boundary(bad, (n - 1) as nat);
    if x < before.len() {
        lemma_boundary_facets(bad, (n - 1) as nat, x)
    } else {
        let sides = facets(bad[n - 1]);
        let open = sides.filter(is_open(bad, n - 1));
        let facet = open[x - before.len()];
        assert(open.contains(facet));
        sides.lemma_filter_contains_rev(is_open(bad, n - 1), facet);
        let k = choose|k: int| 0 <= k < sides.len() && sides[k] == facet;
        (n - 1, k)
    }
}

/// Inserting a vertex with a new token keeps the shape of the working
/// set: simplices of `D + 1` vertices with tokens that differ, all drawn
/// from the pool of vertices, to which the new one is added.
pub proof fn lemma_inserted_keeps_shape<U, const D: usize>(
    cells: Seq<Seq<Vertex<U, D>>>,
    vertex: Vertex<U, D>,
    pool: Seq<Vertex<U, D>>,
)
    requires
        well_shaped(cells),
        drawn_from(cells, pool),
        !has_token(pool, vertex.uuid),
    ensures
        well_shaped(inserted(cells, vertex)),
        drawn_from(inserted(cells, vertex), pool.push(vertex)),
{
    let kept = cells.filter(is_kept(vertex));
    let bad = cells.filter(is_bad(vertex));
    let rim = boundary(bad, bad.len());
    let after = inserted(cells, vertex);
    let wider = pool.push(vertex);
    assert forall|c: int| 0 <= c < after.len() implies (#[trigger] after[c]).len() == D + 1
        && uuids_of(after[c]).no_duplicates() && forall|k: int|
        0 <= k < after[c].len() ==> wider.contains(#[trigger] after[c][k]) by {
        if c < kept.len() {
            assert(kept.contains(kept[c]));
            cells.lemma_filter_contains_rev(is_kept(vertex), kept[c]);
            let from = choose|from: int| 0 <= from < cells.len() && cells[from] == kept[c];
            assert forall|k: int| 0 <= k < after[c].len() implies wider.contains(
                #[trigger] after[c][k],
            ) by {
                assert(pool.contains(cells[from][k]));
                let at = choose|at: int| 0 <= at < pool.len() && pool[at] == cells[from][k];
                assert(wider[at] == after[c][k]);
            }
        } else {
            let x = c - kept.len();
            let (i, side) = lemma_boundary_facets(bad, bad.len(), x);
            assert(bad.contains(bad[i]));
            cells.lemma_filter_contains_rev(is_bad(vertex), bad[i]);
            let from = choose|from: int| 0 <= from < cells.len() && cells[from] == bad[i];
            let facet = rim[x];
            let simplex = facet.push(vertex);
            assert(after[c] == simplex);
            lemma_facet_tokens(cells[from], side);
            assert forall|k: int| 0 <= k < facet.len() implies pool.contains(
                #[trigger] facet[k],
            ) by {
                let origin = if k < side {
                    k
                } else {
                    k + 1
                };
                assert(facet[k] == cells[from][origin]);
            }
            assert forall|a: int, b: int|
                0 <= a < simplex.len() && 0 <= b < simplex.len() && a != b implies uuids_of(
                simplex,
            )[a] != uuids_of(simplex)[b] by {
                if a < facet.len() && b < facet.len() {
                    assert(uuids_of(facet)[a] != uuids_of(facet)[b]);
                } else {
                    let inner = if a < facet.len() {
                        a
                    } else {
                        b
                    };
                    assert(pool.contains(facet[inner]));
                    let at = choose|at: int| 0 <= at < pool.len() && pool[at] == facet[inner];
                    assert(pool[at].uuid != vertex.uuid);
                }
            }
            assert forall|k: int| 0 <= k < simplex.len() implies wider.contains(
                #[trigger] simplex[k],
            ) by {
                if k < facet.len() {
                    assert(pool.contains(facet[k]));
                    let at = choose|at: int| 0 <= at < pool.len() && pool[at] == facet[k];
                    assert(wider[at] == simplex[k]);
                } else {
                    assert(wider[pool.len() as int] == simplex[k]);
                }
            }
        }
    }
}

/// While the working set grows from a scaffold of `D + 1` vertices, its
/// simplices keep their shape and are drawn from the scaffold and the
/// vertices inserted so far, where all their tokens differ.
pub proof fn lemma_grown_keeps_shape<U, const D: usize>(
    scaffold: Seq<Vertex<U, D>>,
    vertices: Seq<Vertex<U, D>>,
    n: nat,
)
    requires
        scaffold.len() == D + 1,
        uuids_of(scaffold + vertices).no_duplicates(),
        n <= vertices.len(),
        grown(seq![scaffold], vertices, n) is Some,
    ensures
        well_shaped(grown(seq![scaffold], vertices, n).unwrap()),
        drawn_from(grown(seq![scaffold], vertices, n).unwrap(), scaffold + vertices.take(n as int)),
    decreases n,
{
    let all = scaffold + vertices;
    if n == 0 {
        let start = seq![scaffold];
        assert(scaffold + vertices.take(0) =~= scaffold);
        assert forall|x: int, y: int|
            0 <= x < scaffold.len() && 0 <= y < scaffold.len() && x != y implies uuids_of(
            scaffold,
        )[x] != uuids_of(scaffold)[y] by {
            assert(uuids_of(all)[x] != uuids_of(all)[y]);
        }
        assert forall|c: int, k: int| 0 <= c < start.len() && 0 <= k < start[c].len() implies scaffold.contains(
         #[trigger] start[c][k]) by {
            assert(scaffold[k] == start[c][k]);
        }
    } else {
        lemma_grown_keeps_shape(scaffold, vertices, (n - 1) as nat);
        let before = grown(seq![scaffold], vertices, (n - 1) as nat).unwrap();
        let pool = scaffold + vertices.take(n - 1);
        let vertex = vertices[n - 1];
        assert(!has_token(pool, vertex.uuid)) by {
            if has_token(pool, vertex.uuid) {
                let x = choose|x: int| 0 <= x < pool.len() && (#[trigger] pool[x]).uuid == vertex.uuid;
                assert(all[x] == pool[x]);
                assert(all[scaffold.len() + n - 1] == vertex);
                assert(uuids_of(all)[x] == uuids_of(all)[scaffold.len() + n - 1]);
            }
        }
        lemma_inserted_keeps_shape(before, vertex, pool);
        assert(pool.push(vertex) =~= scaffold + vertices.take(n as int));
    }
}

/// The cells are simplices on the vertices. Where the tokens of the
/// scaffold and of the vertices all differ, every cell of the
/// triangulation has `D + 1` vertices with tokens that differ, and each of
/// them is one of the vertices that were inserted.
pub proof fn law_cells_are_simplices_on_the_vertices<U, const D: usize>(
    vertices: Seq<Vertex<U, D>>,
    scaffold: Seq<Vertex<U, D>>,
)
    requires
        scaffold.len() == D + 1,
        uuids_of(scaffold + vertices).no_duplicates(),
        triangulated(vertices, scaffold) is Some,
    ensures
        well_shaped(triangulated(vertices, scaffold).unwrap()),
        drawn_from(triangulated(vertices, scaffold).unwrap(), vertices),
{
    lemma_grown_keeps_shape(scaffold, vertices, vertices.len());
    assert(vertices.take(vertices.len() as int) =~= vertices);
    let full = grown(seq![scaffold], vertices, vertices.len()).unwrap();
    let cells = full.filter(is_clear(scaffold));
    let all = scaffold + vertices;
    assert forall|c: int| 0 <= c < cells.len() implies (#[trigger] cells[c]).len() == D + 1
        && uuids_of(cells[c]).no_duplicates() && forall|k: int|
        0 <= k < cells[c].len() ==> vertices.contains(#[trigger] cells[c][k]) by {
        assert(cells.contains(cells[c]));
        full.lemma_filter_contains_rev(is_clear(scaffold), cells[c]);
        full.lemma_filter_pred(is_clear(scaffold), c);
        let from = choose|from: int| 0 <= from < full.len() && full[from] == cells[c];
        assert(!touches(cells[c], scaffold));
        assert forall|k: int| 0 <= k < cells[c].len() implies vertices.contains(
            #[trigger] cells[c][k],
        ) by {
            assert(all.contains(full[from][k]));
            let at = choose|at: int| 0 <= at < all.len() && all[at] == full[from][k];
            if at < scaffold.len() {
                assert(scaffold[at].uuid == cells[c][k].uuid);
                assert(has_token(scaffold, cells[c][k].uuid));
            } else {
                assert(vertices[at - scaffold.len()] == cells[c][k]);
            }
        }
    }
}

/// Once the growth has failed, it has failed for good.
pub proof fn lemma_grown_stays_none<U, const D: usize>(
    cells: Seq<Seq<Vertex<U, D>>>,
    vertices: Seq<Vertex<U, D>>,
    n: nat,
)
    requires
        grown(cells, vertices, n) is None,
    ensures
        forall|m: nat| m >= n ==> #[trigger] grown(cells, vertices, m) is None,
{
    assert forall|m: nat| m >= n implies #[trigger] grown(cells, vertices, m) is None by {
        lemma_grown_none_at(cells, vertices, n, m);
    }
}

/// A growth that has failed after `n` vertices has failed after `m >= n`.
pub proof fn lemma_grown_none_at<U, const D: usize>(
    cells: Seq<Seq<Vertex<U, D>>>,
    vertices: Seq<Vertex<U, D>>,
    n: nat,
    m: nat,
)
    requires
        grown(cells, vertices, n) is None,
        m >= n,
    ensures
        grown(cells, vertices, m) is None,
    decreases m - n,
{
    if m > n {
        lemma_grown_none_at(cells, vertices, n, (m - 1) as nat);
    }
}

} // verus!
