//! Facets: what is left of a simplex when one vertex is taken away.

use super::cell::Cell;
use super::utilities::{lemma_filter_none, lemma_filter_step};
use super::vertex::{contains_token, has_token, uuids_of, Vertex};
use vstd::prelude::*;

verus! {

/// A facet of a cell, given by the cell and the vertex that the facet lies
/// opposite to. It is a way to look at a cell, and holds a copy of it.
#[derive(Debug)]
pub struct Facet<U, V, const D: usize> {
    /// The cell that the facet belongs to.
    pub cell: Cell<U, V, D>,
    /// The vertex of the cell that is not on the facet.
    pub vertex: Vertex<U, D>,
}

/// The vertices that have another identity token than `id`.
pub open spec fn is_other<U, const D: usize>(id: u128) -> spec_fn(Vertex<U, D>) -> bool {
    |v: Vertex<U, D>| v.uuid != id
}

impl<U: Copy, V: Copy, const D: usize> Facet<U, V, D> {
    /// The facet of `cell` opposite `vertex`.
    pub fn new(cell: Cell<U, V, D>, vertex: Vertex<U, D>) -> (facet: Self)
        ensures
            facet.cell == cell,
            facet.vertex == vertex,
    {
        Facet { cell, vertex }
    }

    /// The vertices of the facet: those of the cell but the opposite one,
    /// in the order of the cell.
    pub fn vertices(&self) -> (on: Vec<Vertex<U, D>>)
        ensures
            on@ == self.cell.vertices@.filter(is_other(self.vertex.uuid)),
    {
        let ghost all = self.cell.vertices@;
        let ghost pred = is_other::<U, D>(self.vertex.uuid);
        let mut on: Vec<Vertex<U, D>> = Vec::new();
        let mut i: usize = 0;
        proof {
            lemma_filter_none(all, pred);
        }
        while i < self.cell.vertices.len()
            invariant
                all == self.cell.vertices@,
                pred == is_other::<U, D>(self.vertex.uuid),
                i <= self.cell.vertices.len(),
                on@ == all.take(i as int).filter(pred),
            decreases self.cell.vertices.len() - i,
        {
            proof {
                lemma_filter_step(all, pred, i as int);
            }
            if self.cell.vertices[i].uuid != self.vertex.uuid {
                on.push(self.cell.vertices[i]);
            }
            i += 1;
        }
        assert(all.take(i as int) =~= all);
        on
    }
}

/// The facets of `simplex`: facet `k` lies opposite vertex `k` and holds
/// the other vertices in their order.
pub open spec fn facets<U, const D: usize>(simplex: Seq<Vertex<U, D>>) -> Seq<Seq<Vertex<U, D>>> {
    Seq::new(simplex.len(), |k: int| simplex.remove(k))
}

/// Every vertex of `facet` is, by its identity token, a vertex of `simplex`.
pub open spec fn lies_on<U, const D: usize>(
    facet: Seq<Vertex<U, D>>,
    simplex: Seq<Vertex<U, D>>,
) -> bool {
    forall|k: int| 0 <= k < facet.len() ==> has_token(simplex, (#[trigger] facet[k]).uuid)
}

/// The vertices of the facet opposite vertex `k` are the vertices of the
/// simplex but that one, and their tokens differ where those of the simplex do.
pub proof fn lemma_facet_tokens<U, const D: usize>(simplex: Seq<Vertex<U, D>>, k: int)
    requires
        0 <= k < simplex.len(),
        uuids_of(simplex).no_duplicates(),
    ensures
        uuids_of(simplex.remove(k)).no_duplicates(),
        !has_token(simplex.remove(k), simplex[k].uuid),
        forall|id: u128|
            has_token(simplex, id) <==> has_token(simplex.remove(k), id) || id == simplex[k].uuid,
{
    let facet = simplex.remove(k);
    let ids = uuids_of(simplex);
    assert forall|x: int, y: int|
        0 <= x < facet.len() && 0 <= y < facet.len() && x != y implies uuids_of(facet)[x]
        != uuids_of(facet)[y] by {
        let from_x = if x < k {
            x
        } else {
            x + 1
        };
        let from_y = if y < k {
            y
        } else {
            y + 1
        };
        assert(ids[from_x] != ids[from_y]);
    }
    if has_token(facet, simplex[k].uuid) {
        let x = choose|x: int| 0 <= x < facet.len() && (#[trigger] facet[x]).uuid == simplex[k].uuid;
        let from_x = if x < k {
            x
        } else {
            x + 1
        };
        assert(ids[from_x] != ids[k]);
    }
    assert forall|id: u128|
        has_token(simplex, id) <==> has_token(facet, id) || id == simplex[k].uuid by {
        if has_token(facet, id) {
            let x = choose|x: int| 0 <= x < facet.len() && (#[trigger] facet[x]).uuid == id;
            let from_x = if x < k {
                x
            } else {
                x + 1
            };
            assert(simplex[from_x].uuid == id);
        }
        if has_token(simplex, id) && id != simplex[k].uuid {
            let x = choose|x: int| 0 <= x < simplex.len() && (#[trigger] simplex[x]).uuid == id;
            let to_x = if x < k {
                x
            } else {
                x - 1
            };
            assert(facet[to_x].uuid == id);
        }
    }
}

/// A simplex that holds a facet, and has one vertex more, has exactly one
/// vertex that is not on the facet: its apex over the facet.
pub proof fn lemma_apex<U, const D: usize>(facet: Seq<Vertex<U, D>>, simplex: Seq<Vertex<U, D>>) -> (j:
    int)
    requires
        uuids_of(facet).no_duplicates(),
        uuids_of(simplex).no_duplicates(),
        simplex.len() == facet.len() + 1,
        lies_on(facet, simplex),
    ensures
        0 <= j < simplex.len(),
        !has_token(facet, simplex[j].uuid),
        forall|k: int| 0 <= k < simplex.len() && k != j ==> has_token(facet, (#[trigger] simplex[k]).uuid),
{
    let low = uuids_of(facet).to_set();
    let high = uuids_of(simplex).to_set();
    uuids_of(facet).unique_seq_to_set();
    uuids_of(simplex).unique_seq_to_set();
    assert(low.subset_of(high)) by {
        assert forall|id: u128| low.contains(id) implies high.contains(id) by {
            let x = choose|x: int| 0 <= x < facet.len() && uuids_of(facet)[x] == id;
            assert(has_token(simplex, facet[x].uuid));
            let y = choose|y: int| 0 <= y < simplex.len() && (#[trigger] simplex[y]).uuid == id;
            assert(uuids_of(simplex)[y] == id);
        }
    }
    assert(high.intersect(low) =~= low);
    vstd::set_lib::lemma_set_difference_len(high, low);
    let rest = high.difference(low);
    assert(rest.len() == 1);
    vstd::set_lib::lemma_len_difference(high, low);
    Set::lemma_is_singleton(rest);
    let apex = rest.choose();
    assert(rest.contains(apex));
    let j = choose|j: int| 0 <= j < simplex.len() && uuids_of(simplex)[j] == apex;
    if has_token(facet, simplex[j].uuid) {
        let x = choose|x: int| 0 <= x < facet.len() && (#[trigger] facet[x]).uuid == apex;
        assert(uuids_of(facet)[x] == apex);
    }
    assert forall|k: int| 0 <= k < simplex.len() && k != j implies has_token(
        facet,
        (#[trigger] simplex[k]).uuid,
    ) by {
        let id = simplex[k].uuid;
        assert(uuids_of(simplex)[k] == id);
        assert(uuids_of(simplex)[j] != uuids_of(simplex)[k]);
        if !low.contains(id) {
            assert(rest.contains(id));
        }
        let x = choose|x: int| 0 <= x < facet.len() && uuids_of(facet)[x] == id;
        assert(facet[x].uuid == id);
    }
    j
}

/// The facet of `simplex` opposite vertex `k`.
pub fn facet_of<U: Copy, const D: usize>(simplex: &Vec<Vertex<U, D>>, k: usize) -> (facet: Vec<
    Vertex<U, D>,
>)
    requires
        k < simplex.len(),
    ensures
        facet@ == simplex@.remove(k as int),
{
    let mut facet: Vec<Vertex<U, D>> = Vec::new();
    let mut c: usize = 0;
    while c < simplex.len()
        invariant
            k < simplex.len(),
            c <= simplex.len(),
            facet.len() == if c <= k {
                c as int
            } else {
                c - 1
            },
            forall|i: int|
                0 <= i < facet.len() ==> facet[i] == if i < k {
                    simplex[i]
                } else {
                    simplex[i + 1]
                },
        decreases simplex.len() - c,
    {
        if c != k {
            facet.push(simplex[c]);
        }
        c += 1;
    }
    assert(facet@ =~= simplex@.remove(k as int));
    facet
}

/// Whether every vertex of `facet` is a vertex of `simplex`.
pub fn facet_lies_on<U: Copy, const D: usize>(
    facet: &Vec<Vertex<U, D>>,
    simplex: &Vec<Vertex<U, D>>,
) -> (on: bool)
    ensures
        on == lies_on(facet@, simplex@),
{
    let mut k: usize = 0;
    while k < facet.len()
        invariant
            k <= facet.len(),
            forall|c: int| 0 <= c < k ==> has_token(simplex@, (#[trigger] facet[c]).uuid),
        decreases facet.len() - k,
    {
        if !contains_token(simplex, facet[k].uuid) {
            return false;
        }
        k += 1;
    }
    true
}

} // verus!
