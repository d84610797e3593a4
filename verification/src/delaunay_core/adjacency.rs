//! Neighbors and incident cells: who lies across each facet of a cell, and
//! which cell a vertex can be reached through.

use super::cell::{simplices_of, tokens_of, views_of, Cell, CellView};
use super::facet::{facet_lies_on, facet_of, lemma_apex, lemma_facet_tokens, lies_on};
use super::insertion::well_shaped;
use super::utilities::{first_such, lemma_first_such, lemma_first_such_stays};
use super::vertex::{contains_token, has_token, Vertex};
use vstd::prelude::*;

verus! {

/// Simplex `b` lies across facet `i` of simplex `a`: it is another simplex
/// that has every vertex of that facet, and has not the vertex opposite.
pub open spec fn across<U, const D: usize>(
    cells: Seq<Seq<Vertex<U, D>>>,
    a: int,
    i: int,
    b: int,
) -> bool {
    &&& b != a
    &&& lies_on(cells[a].remove(i), cells[b])
    &&& !has_token(cells[b], cells[a][i].uuid)
}

/// The simplices that lie across facet `i` of simplex `a`, by their index.
pub open spec fn lies_across<U, const D: usize>(
    cells: Seq<Seq<Vertex<U, D>>>,
    a: int,
    i: int,
) -> spec_fn(int) -> bool {
    |b: int| across(cells, a, i, b)
}

/// For each facet of simplex `a`, the token of the first simplex in order
/// that lies across it, if there is one.
pub open spec fn neighbor_list<U, const D: usize>(
    cells: Seq<Seq<Vertex<U, D>>>,
    tokens: Seq<u128>,
    a: int,
) -> Seq<Option<u128>> {
    Seq::new(
        cells[a].len(),
        |i: int|
            match first_such(lies_across(cells, a, i), cells.len()) {
                Some(b) => Some(tokens[b]),
                None => None,
            },
    )
}

/// Some entry of `list` names a neighbor.
pub open spec fn names_one(list: Seq<Option<u128>>) -> bool {
    exists|i: int| 0 <= i < list.len() && #[trigger] list[i] is Some
}

/// The neighbors that simplex `a` records: its neighbor list where that
/// names a neighbor, nothing where no facet has one.
pub open spec fn neighbors_of<U, const D: usize>(
    cells: Seq<Seq<Vertex<U, D>>>,
    tokens: Seq<u128>,
    a: int,
) -> Option<Seq<Option<u128>>> {
    let list = neighbor_list(cells, tokens, a);
    if names_one(list) {
        Some(list)
    } else {
        None
    }
}

/// The cells with their neighbors assigned among themselves.
pub open spec fn linked<U, V, const D: usize>(cells: Seq<CellView<U, V, D>>) -> Seq<
    CellView<U, V, D>,
> {
    Seq::new(
        cells.len(),
        |a: int|
            CellView {
                vertices: cells[a].vertices,
                uuid: cells[a].uuid,
                neighbors: neighbors_of(simplices_of(cells), tokens_of(cells), a),
                data: cells[a].data,
            },
    )
}

/// The simplices that have a vertex with the token `id`, by their index.
pub open spec fn holds_token<U, const D: usize>(cells: Seq<Seq<Vertex<U, D>>>, id: u128) -> spec_fn(
    int,
) -> bool {
    |b: int| has_token(cells[b], id)
}

/// The token of the first cell in order that has a vertex with the token
/// `id`, if there is one.
pub open spec fn incident<U, V, const D: usize>(cells: Seq<CellView<U, V, D>>, id: u128) -> Option<
    u128,
> {
    match first_such(holds_token(simplices_of(cells), id), cells.len()) {
        Some(b) => Some(cells[b].uuid),
        None => None,
    }
}

/// No facet lies on more than two simplices: besides the simplex that a
/// facet is taken from, at most one other holds it.
pub open spec fn facets_pair_up<U, const D: usize>(cells: Seq<Seq<Vertex<U, D>>>) -> bool {
    forall|a: int, i: int, b: int, c: int|
        0 <= a < cells.len() && 0 <= i < cells[a].len() && 0 <= b < cells.len() && 0 <= c
            < cells.len() && b != a && c != a && #[trigger] lies_on(cells[a].remove(i), cells[b])
            && #[trigger] lies_on(cells[a].remove(i), cells[c]) ==> b == c
}

/// Where the first simplex across facet `i` of simplex `a` is `b`, there
/// is a facet `j` of `b` across which the first simplex is `a`, and
/// vertex `j` of `b` is no vertex of `a`.
pub proof fn lemma_across_is_mutual<U, const D: usize>(
    cells: Seq<Seq<Vertex<U, D>>>,
    a: int,
    i: int,
    b: int,
) -> (j: int)
    requires
        well_shaped(cells),
        facets_pair_up(cells),
        0 <= a < cells.len(),
        0 <= i < cells[a].len(),
        first_such(lies_across(cells, a, i), cells.len()) == Some(b),
    ensures
        0 <= j < cells[b].len(),
        first_such(lies_across(cells, b, j), cells.len()) == Some(a),
        !has_token(cells[a], cells[b][j].uuid),
{
    let n = cells.len();
    lemma_first_such(lies_across(cells, a, i), n);
    assert(across(cells, a, i, b));
    let facet = cells[a].remove(i);
    lemma_facet_tokens(cells[a], i);
    let j = lemma_apex(facet, cells[b]);
    let back = cells[b].remove(j);
    lemma_facet_tokens(cells[b], j);
    assert(has_token(cells[b], cells[b][j].uuid));
    assert(lies_on(back, cells[a])) by {
        assert forall|k: int| 0 <= k < back.len() implies has_token(
            cells[a],
            (#[trigger] back[k]).uuid,
        ) by {
            let from_k = if k < j {
                k
            } else {
                k + 1
            };
            assert(back[k] == cells[b][from_k]);
            assert(has_token(facet, cells[b][from_k].uuid));
        }
    }
    assert(across(cells, b, j, a));
    let pred = lies_across(cells, b, j);
    assert(pred(a));
    lemma_first_such(pred, n);
    let c = first_such(pred, n).unwrap();
    assert(across(cells, b, j, c));
    if c != a {
        assert(lies_on(cells[b].remove(j), cells[a]));
        assert(lies_on(cells[b].remove(j), cells[c]));
        assert(false);
    }
    j
}

/// Neighbors are mutual. Among cells with `D + 1` vertices each, whose
/// tokens differ, and of which no more than two share a facet: where cell
/// `a` records cell `b` as its neighbor opposite vertex `i`, cell `b`
/// records cell `a` as its neighbor opposite a vertex that `a` has not.
pub proof fn law_neighbors_are_mutual<U, V, const D: usize>(
    cells: Seq<CellView<U, V, D>>,
    a: int,
    i: int,
    b: int,
)
    requires
        tokens_of(cells).no_duplicates(),
        well_shaped(simplices_of(cells)),
        facets_pair_up(simplices_of(cells)),
        0 <= a < cells.len(),
        0 <= i < cells[a].vertices.len(),
        0 <= b < cells.len(),
        linked(cells)[a].neighbors is Some,
        linked(cells)[a].neighbors.unwrap()[i] == Some(cells[b].uuid),
    ensures
        exists|j: int|
            0 <= j < cells[b].vertices.len() && linked(cells)[b].neighbors is Some && (
            #[trigger] linked(cells)[b].neighbors.unwrap()[j]) == Some(cells[a].uuid) && !has_token(
                cells[a].vertices,
                cells[b].vertices[j].uuid,
            ),
{
    let model = simplices_of(cells);
    let tokens = tokens_of(cells);
    let n = cells.len();
    let list = neighbor_list(model, tokens, a);
    assert(list[i] == Some(cells[b].uuid));
    lemma_first_such(lies_across(model, a, i), n);
    let found = first_such(lies_across(model, a, i), n).unwrap();
    assert(tokens[found] == tokens[b]);
    assert(found == b);
    let j = lemma_across_is_mutual(model, a, i, b);
    let back = neighbor_list(model, tokens, b);
    assert(back[j] == Some(tokens[a]));
    assert(names_one(back));
    assert(linked(cells)[b].neighbors == Some(back));
    assert(model[a] == cells[a].vertices && model[b] == cells[b].vertices);
    assert(0 <= j < cells[b].vertices.len() && linked(cells)[b].neighbors.unwrap()[j] == Some(
        cells[a].uuid,
    ) && !has_token(cells[a].vertices, cells[b].vertices[j].uuid));
}

/// The index of the first cell that lies across facet `i` of cell `a`.
pub fn find_across<U: Copy, V: Copy, const D: usize>(
    cells: &Vec<Cell<U, V, D>>,
    a: usize,
    i: usize,
) -> (found: Option<usize>)
    requires
        a < cells.len(),
        i < cells[a as int].vertices.len(),
    ensures
        match found {
            Some(b) => b < cells.len() && first_such(
                lies_across(simplices_of(views_of(cells@)), a as int, i as int),
                cells.len() as nat,
            ) == Some(b as int),
            None => first_such(
                lies_across(simplices_of(views_of(cells@)), a as int, i as int),
                cells.len() as nat,
            ) is None,
        },
{
    let ghost model = simplices_of(views_of(cells@));
    let ghost pred = lies_across(model, a as int, i as int);
    let facet = facet_of(&cells[a].vertices, i);
    let opposite: u128 = cells[a].vertices[i].uuid;
    let mut b: usize = 0;
    while b < cells.len()
        invariant
            model == simplices_of(views_of(cells@)),
            pred == lies_across(model, a as int, i as int),
            a < cells.len(),
            i < cells[a as int].vertices.len(),
            facet@ == model[a as int].remove(i as int),
            opposite == model[a as int][i as int].uuid,
            b <= cells.len(),
            first_such(pred, b as nat) is None,
        decreases cells.len() - b,
    {
        assert(model[b as int] == cells[b as int].vertices@);
        if b != a && facet_lies_on(&facet, &cells[b].vertices) && !contains_token(
            &cells[b].vertices,
            opposite,
        ) {
            proof {
                assert(pred(b as int));
                assert(first_such(pred, (b + 1) as nat) == Some(b as int));
                lemma_first_such_stays(pred, (b + 1) as nat, cells.len() as nat);
            }
            return Some(b);
        }
        assert(!pred(b as int));
        b += 1;
    }
    None
}

/// The neighbors that cell `a` records among `cells`.
pub fn neighbors_for<U: Copy, V: Copy, const D: usize>(cells: &Vec<Cell<U, V, D>>, a: usize) -> (found:
    Option<Vec<Option<u128>>>)
    requires
        a < cells.len(),
    ensures
        match found {
            Some(list) => Some(list@),
            None => None,
        } == neighbors_of(
            simplices_of(views_of(cells@)),
            tokens_of(views_of(cells@)),
            a as int,
        ),
{
    let ghost model = simplices_of(views_of(cells@));
    let ghost tokens = tokens_of(views_of(cells@));
    let ghost expected = neighbor_list(model, tokens, a as int);
    let mut list: Vec<Option<u128>> = Vec::new();
    let mut any: bool = false;
    let mut i: usize = 0;
    while i < cells[a].vertices.len()
        invariant
            model == simplices_of(views_of(cells@)),
            tokens == tokens_of(views_of(cells@)),
            expected == neighbor_list(model, tokens, a as int),
            a < cells.len(),
            i <= cells[a as int].vertices.len(),
            list.len() == i,
            forall|k: int| 0 <= k < i ==> list[k] == expected[k],
            any <==> exists|k: int| 0 <= k < i && #[trigger] expected[k] is Some,
        decreases cells[a as int].vertices.len() - i,
    {
        assert(model[a as int] == cells[a as int].vertices@);
        let entry: Option<u128> = match find_across(cells, a, i) {
            Some(b) => {
                assert(tokens[b as int] == cells[b as int].uuid);
                Some(cells[b].uuid)
            },
            None => None,
        };
        assert(entry == expected[i as int]);
        if entry.is_some() {
            any = true;
        }
        list.push(entry);
        i += 1;
    }
    assert(model[a as int] == cells[a as int].vertices@);
    assert(list@ =~= expected);
    if any {
        Some(list)
    } else {
        None
    }
}

/// The token of the first of `cells` that has a vertex with the token `id`.
pub fn incident_cell_of<U: Copy, V: Copy, const D: usize>(
    cells: &Vec<Cell<U, V, D>>,
    id: u128,
) -> (found: Option<u128>)
    ensures
        found == incident(views_of(cells@), id),
{
    let ghost model = simplices_of(views_of(cells@));
    let ghost pred = holds_token(model, id);
    let mut b: usize = 0;
    while b < cells.len()
        invariant
            model == simplices_of(views_of(cells@)),
            pred == holds_token(model, id),
            b <= cells.len(),
            first_such(pred, b as nat) is None,
        decreases cells.len() - b,
    {
        assert(model[b as int] == cells[b as int].vertices@);
        if contains_token(&cells[b].vertices, id) {
            proof {
                assert(pred(b as int));
                assert(first_such(pred, (b + 1) as nat) == Some(b as int));
                lemma_first_such_stays(pred, (b + 1) as nat, cells.len() as nat);
            }
            return Some(cells[b].uuid);
        }
        assert(!pred(b as int));
        b += 1;
    }
    None
}

} // verus!
