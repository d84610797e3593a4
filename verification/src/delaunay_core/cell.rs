//! Cells: the simplices of a triangulation.

use super::error::TriangulationError;
use super::sphere::{sphere_contains, sphere_test};
use super::utilities::{fresh_uuid, is_random_uuid, make_uuid};
use super::vertex::{copy_vertices, Vertex};
use std::collections::HashMap;
use vstd::prelude::*;

verus! {

/// A simplex: up to `D + 1` vertices, an identity token, the tokens of the
/// cells across its facets once they are assigned, and the caller's data.
#[derive(Debug)]
pub struct Cell<U, V, const D: usize> {
    /// The vertices of the simplex.
    pub vertices: Vec<Vertex<U, D>>,
    /// The identity token by which registries and neighbors refer to the cell.
    pub uuid: u128,
    /// Where present, entry `i` names the cell across the facet opposite
    /// vertex `i`, or is empty where that facet has no other cell. Absent
    /// while the cell has no neighbor at all.
    pub neighbors: Option<Vec<Option<u128>>>,
    /// The caller's data.
    pub data: Option<V>,
}

/// What a cell holds, with its lists as mathematical sequences.
pub struct CellView<U, V, const D: usize> {
    /// The vertices of the simplex.
    pub vertices: Seq<Vertex<U, D>>,
    /// The identity token.
    pub uuid: u128,
    /// The neighbors across the facets, where they are assigned.
    pub neighbors: Option<Seq<Option<u128>>>,
    /// The caller's data.
    pub data: Option<V>,
}

impl<U, V, const D: usize> View for Cell<U, V, D> {
    type V = CellView<U, V, D>;

    open spec fn view(&self) -> CellView<U, V, D> {
        CellView {
            vertices: self.vertices@,
            uuid: self.uuid,
            neighbors: match self.neighbors {
                Some(list) => Some(list@),
                None => None,
            },
            data: self.data,
        }
    }
}

impl<U: Copy, V: Copy, const D: usize> Clone for Cell<U, V, D> {
    /// A cell that holds the same as this one.
    fn clone(&self) -> (copy: Self)
        ensures
            copy@ == self@,
    {
        let neighbors: Option<Vec<Option<u128>>> = match &self.neighbors {
            Some(list) => {
                let mut copied: Vec<Option<u128>> = Vec::new();
                let mut i: usize = 0;
                while i < list.len()
                    invariant
                        i <= list.len(),
                        copied@ == list@.take(i as int),
                    decreases list.len() - i,
                {
                    copied.push(list[i]);
                    assert(list@.take(i + 1) =~= list@.take(i as int).push(list[i as int]));
                    i += 1;
                }
                assert(list@.take(i as int) =~= list@);
                Some(copied)
            },
            None => None,
        };
        Cell {
            vertices: copy_vertices(&self.vertices),
            uuid: self.uuid,
            neighbors,
            data: self.data,
        }
    }
}

/// The simplices of `cells`, in order.
pub open spec fn simplices_of<U, V, const D: usize>(cells: Seq<CellView<U, V, D>>) -> Seq<
    Seq<Vertex<U, D>>,
> {
    Seq::new(cells.len(), |i: int| cells[i].vertices)
}

/// The identity tokens of `cells`, in order.
pub open spec fn tokens_of<U, V, const D: usize>(cells: Seq<CellView<U, V, D>>) -> Seq<u128> {
    Seq::new(cells.len(), |i: int| cells[i].uuid)
}

/// What each of `cells` holds, in order.
pub open spec fn views_of<U, V, const D: usize>(cells: Seq<Cell<U, V, D>>) -> Seq<
    CellView<U, V, D>,
> {
    Seq::new(cells.len(), |i: int| cells[i]@)
}

/// The coordinates of each vertex, in order.
pub open spec fn coordinates<U, const D: usize>(vertices: Seq<Vertex<U, D>>) -> Seq<Seq<int>> {
    Seq::new(vertices.len(), |i: int| vertices[i].point@)
}

/// One cell on each of `simplices`, in their order, without neighbors or
/// data. The identity tokens differ from one another, whatever the random
/// source gives.
pub fn cells_on<U: Copy, V: Copy, const D: usize>(simplices: &Vec<Vec<Vertex<U, D>>>) -> (cells: Vec<
    Cell<U, V, D>,
>)
    ensures
        cells.len() == simplices.len(),
        forall|i: int| 0 <= i < cells.len() ==> (#[trigger] cells[i]).vertices@ == simplices[i]@,
        forall|i: int|
            0 <= i < cells.len() ==> (#[trigger] cells[i]).neighbors is None && cells[i].data is None,
        tokens_of(views_of(cells@)).no_duplicates(),
{
    broadcast use vstd::std_specs::hash::group_hash_axioms;

    let mut cells: Vec<Cell<U, V, D>> = Vec::new();
    let mut taken: HashMap<u128, usize> = HashMap::new();
    let mut i: usize = 0;
    while i < simplices.len()
        invariant
            i <= simplices.len(),
            cells.len() == i,
            forall|k: int| 0 <= k < i ==> (#[trigger] cells[k]).vertices@ == simplices[k]@,
            forall|k: int|
                0 <= k < i ==> (#[trigger] cells[k]).neighbors is None && cells[k].data is None,
            forall|k: int| 0 <= k < i ==> taken@.contains_key((#[trigger] cells[k]).uuid),
            forall|k: int, l: int|
                0 <= k < l < i ==> (#[trigger] cells[k]).uuid != (#[trigger] cells[l]).uuid,
        decreases simplices.len() - i,
    {
        let uuid: u128 = fresh_uuid(&taken);
        taken.insert(uuid, i);
        cells.push(
            Cell { vertices: copy_vertices(&simplices[i]), uuid, neighbors: None, data: None },
        );
        i += 1;
    }
    cells
}

impl<U: Copy, V: Copy, const D: usize> Cell<U, V, D> {
    /// The coordinates of the vertices, in order.
    pub open spec fn points(&self) -> Seq<Seq<int>> {
        coordinates(self.vertices@)
    }

    /// A cell on the given vertices, with a random identity token, no
    /// neighbors and no data. More than `D + 1` vertices are refused.
    pub fn new(vertices: Vec<Vertex<U, D>>) -> (made: Result<Self, TriangulationError>)
        ensures
            vertices.len() > D + 1 ==> made == Err::<Self, TriangulationError>(
                TriangulationError::TooManyVertices,
            ),
            vertices.len() <= D + 1 ==> made is Ok && made.unwrap().vertices == vertices
                && is_random_uuid(made.unwrap().uuid) && made.unwrap().neighbors is None
                && made.unwrap().data is None,
    {
        if vertices.len() > D && vertices.len() - 1 > D {
            return Err(TriangulationError::TooManyVertices);
        }
        Ok(Cell { vertices, uuid: make_uuid(), neighbors: None, data: None })
    }

    /// A cell on the given vertices that carries `data`, with a random
    /// identity token and no neighbors. More than `D + 1` vertices are refused.
    pub fn new_with_data(vertices: Vec<Vertex<U, D>>, data: V) -> (made: Result<
        Self,
        TriangulationError,
    >)
        ensures
            vertices.len() > D + 1 ==> made == Err::<Self, TriangulationError>(
                TriangulationError::TooManyVertices,
            ),
            vertices.len() <= D + 1 ==> made is Ok && made.unwrap().vertices == vertices
                && is_random_uuid(made.unwrap().uuid) && made.unwrap().neighbors is None
                && made.unwrap().data == Some(data),
    {
        if vertices.len() > D && vertices.len() - 1 > D {
            return Err(TriangulationError::TooManyVertices);
        }
        Ok(Cell { vertices, uuid: make_uuid(), neighbors: None, data: Some(data) })
    }

    /// Whether `vertex` lies strictly inside the sphere through the
    /// vertices of this cell. Only a cell with `D + 1` vertices has such a
    /// sphere, and the answer needs coordinates small enough for both
    /// determinants to be evaluated.
    pub fn circumsphere_contains(&self, vertex: Vertex<U, D>) -> (inside: Result<
        bool,
        TriangulationError,
    >)
        ensures
            inside == sphere_test(self.vertices@, vertex),
    {
        sphere_contains(&self.vertices, vertex)
    }

    /// The number of vertices.
    pub fn number_of_vertices(&self) -> (n: usize)
        ensures
            n == self.vertices.len(),
    {
        self.vertices.len()
    }

    /// The dimension of the simplex: one less than its number of vertices.
    pub fn dim(&self) -> (d: usize)
        requires
            self.vertices.len() >= 1,
        ensures
            d == self.vertices.len() - 1,
    {
        self.vertices.len() - 1
    }
}

} // verus!
