//! Vertices: a point, an identity token and the caller's data.

use super::point::Point;
use super::utilities::{fresh_uuid, is_random_uuid, make_uuid};
use std::collections::HashMap;
use vstd::prelude::*;

verus! {

/// A point with an identity token, an optional payload and, once the
/// triangulation is built, the token of one cell that contains it.
#[derive(Copy, Debug)]
pub struct Vertex<U, const D: usize> {
    /// Where the vertex lies.
    pub point: Point<D>,
    /// The identity token by which cells and registries refer to the vertex.
    pub uuid: u128,
    /// The token of one cell that has this vertex, if one is recorded.
    pub incident_cell: Option<u128>,
    /// The caller's data.
    pub data: Option<U>,
}

impl<U: Copy, const D: usize> Clone for Vertex<U, D> {
    /// The same vertex, token and all.
    fn clone(&self) -> (copy: Self)
        ensures
            copy == *self,
    {
        *self
    }
}

/// The identity tokens of a run of vertices, in order.
pub open spec fn uuids_of<U, const D: usize>(vertices: Seq<Vertex<U, D>>) -> Seq<u128> {
    Seq::new(vertices.len(), |i: int| vertices[i].uuid)
}

/// Some vertex of `vertices` has the identity token `id`.
pub open spec fn has_token<U, const D: usize>(vertices: Seq<Vertex<U, D>>, id: u128) -> bool {
    exists|i: int| 0 <= i < vertices.len() && (#[trigger] vertices[i]).uuid == id
}

/// The points of a run of vertices, in order.
pub open spec fn points_of<U, const D: usize>(vertices: Seq<Vertex<U, D>>) -> Seq<Point<D>> {
    Seq::new(vertices.len(), |i: int| vertices[i].point)
}

impl<U: Copy, const D: usize> Vertex<U, D> {
    /// A vertex at `point` with a random identity token and no data.
    pub fn new(point: Point<D>) -> (vertex: Self)
        ensures
            vertex.point == point,
            is_random_uuid(vertex.uuid),
            vertex.incident_cell is None,
            vertex.data is None,
    {
        Vertex { point, uuid: make_uuid(), incident_cell: None, data: None }
    }

    /// A vertex at `point` with a random identity token that carries `data`.
    pub fn new_with_data(point: Point<D>, data: U) -> (vertex: Self)
        ensures
            vertex.point == point,
            is_random_uuid(vertex.uuid),
            vertex.incident_cell is None,
            vertex.data == Some(data),
    {
        Vertex { point, uuid: make_uuid(), incident_cell: None, data: Some(data) }
    }

    /// One vertex for each point, in the order of the points. The identity
    /// tokens differ from one another, whatever the random source gives.
    pub fn from_points(points: Vec<Point<D>>) -> (vertices: Vec<Self>)
        ensures
            points_of(vertices@) == points@,
            uuids_of(vertices@).no_duplicates(),
            forall|i: int|
                0 <= i < vertices.len() ==> (#[trigger] vertices[i]).data is None
                    && vertices[i].incident_cell is None,
    {
        let mut taken: HashMap<u128, usize> = HashMap::new();
        Self::from_points_avoiding(points, &mut taken)
    }

    /// One vertex for each point, in the order of the points, with identity
    /// tokens that differ from one another and from every key of `taken`.
    /// The new tokens are added to `taken`.
    pub fn from_points_avoiding(points: Vec<Point<D>>, taken: &mut HashMap<u128, usize>) -> (vertices:
        Vec<Self>)
        ensures
            points_of(vertices@) == points@,
            uuids_of(vertices@).no_duplicates(),
            forall|i: int|
                0 <= i < vertices.len() ==> (#[trigger] vertices[i]).data is None
                    && vertices[i].incident_cell is None,
            forall|i: int|
                0 <= i < vertices.len() ==> !old(taken)@.contains_key((#[trigger] vertices[i]).uuid),
            forall|id: u128|
                final(taken)@.contains_key(id) <==> old(taken)@.contains_key(id) || uuids_of(
                    vertices@,
                ).contains(id),
    {
        broadcast use vstd::std_specs::hash::group_hash_axioms;

        let mut vertices: Vec<Self> = Vec::new();
        let mut i: usize = 0;
        while i < points.len()
            invariant
                i <= points.len(),
                vertices.len() == i,
                forall|k: int| 0 <= k < i ==> (#[trigger] vertices[k]).point == points[k],
                forall|k: int|
                    0 <= k < i ==> (#[trigger] vertices[k]).data is None
                        && vertices[k].incident_cell is None,
                forall|k: int| 0 <= k < i ==> !old(taken)@.contains_key((#[trigger] vertices[k]).uuid),
                forall|id: u128|
                    taken@.contains_key(id) <==> old(taken)@.contains_key(id) || exists|k: int|
                        0 <= k < i && (#[trigger] vertices[k]).uuid == id,
                forall|k: int, l: int|
                    0 <= k < l < i ==> (#[trigger] vertices[k]).uuid != (#[trigger] vertices[l]).uuid,
            decreases points.len() - i,
        {
            let uuid: u128 = fresh_uuid(taken);
            let ghost before = vertices@;
            taken.insert(uuid, i);
            vertices.push(Vertex { point: points[i], uuid, incident_cell: None, data: None });
            proof {
                assert forall|id: u128|
                    taken@.contains_key(id) <==> old(taken)@.contains_key(id) || exists|k: int|
                        0 <= k < i + 1 && (#[trigger] vertices[k]).uuid == id by {
                    if id == uuid {
                        assert(vertices[i as int].uuid == id);
                    } else {
                        if exists|k: int| 0 <= k < i && (#[trigger] before[k]).uuid == id {
                            let k = choose|k: int| 0 <= k < i && (#[trigger] before[k]).uuid == id;
                            assert(vertices[k].uuid == id);
                        }
                        if exists|k: int| 0 <= k < i + 1 && (#[trigger] vertices[k]).uuid == id {
                            let k = choose|k: int|
                                0 <= k < i + 1 && (#[trigger] vertices[k]).uuid == id;
                            assert(before[k].uuid == id);
                        }
                    }
                }
                assert forall|k: int, l: int| 0 <= k < l < i + 1 implies (#[trigger] vertices[k]).uuid
                    != (#[trigger] vertices[l]).uuid by {
                    if l == i {
                        assert(before[k] == vertices[k]);
                    }
                }
            }
            i += 1;
        }
        proof {
            assert(points_of(vertices@) =~= points@);
            assert forall|id: u128|
                taken@.contains_key(id) <==> old(taken)@.contains_key(id) || uuids_of(
                    vertices@,
                ).contains(id) by {
                if uuids_of(vertices@).contains(id) {
                    let k = choose|k: int|
                        0 <= k < uuids_of(vertices@).len() && uuids_of(vertices@)[k] == id;
                    assert(vertices[k].uuid == id);
                }
                if exists|k: int| 0 <= k < i && (#[trigger] vertices[k]).uuid == id {
                    let k = choose|k: int| 0 <= k < i && (#[trigger] vertices[k]).uuid == id;
                    assert(uuids_of(vertices@)[k] == id);
                }
            }
        }
        vertices
    }

    /// The vertices keyed by their identity tokens. Where two vertices have
    /// the same token, the later one stays.
    pub fn into_hashmap(vertices: Vec<Self>) -> (map: HashMap<u128, Self>)
        ensures
            map@ == keyed(vertices@),
    {
        broadcast use vstd::std_specs::hash::group_hash_axioms;

        let mut map: HashMap<u128, Self> = HashMap::new();
        let mut i: usize = 0;
        assert(vertices@.take(0) =~= Seq::<Self>::empty());
        while i < vertices.len()
            invariant
                i <= vertices.len(),
                map@ == keyed(vertices@.take(i as int)),
            decreases vertices.len() - i,
        {
            map.insert(vertices[i].uuid, vertices[i]);
            assert(vertices@.take(i + 1).drop_last() =~= vertices@.take(i as int));
            i += 1;
        }
        assert(vertices@.take(i as int) =~= vertices@);
        map
    }
}

/// Whether some vertex of `vertices` has the identity token `id`.
pub fn contains_token<U: Copy, const D: usize>(vertices: &Vec<Vertex<U, D>>, id: u128) -> (found:
    bool)
    ensures
        found == has_token(vertices@, id),
{
    let mut i: usize = 0;
    while i < vertices.len()
        invariant
            i <= vertices.len(),
            forall|k: int| 0 <= k < i ==> (#[trigger] vertices[k]).uuid != id,
        decreases vertices.len() - i,
    {
        if vertices[i].uuid == id {
            return true;
        }
        i += 1;
    }
    false
}

/// A copy of `vertices`.
pub fn copy_vertices<U: Copy, const D: usize>(vertices: &Vec<Vertex<U, D>>) -> (copy: Vec<
    Vertex<U, D>,
>)
    ensures
        copy@ == vertices@,
{
    let mut copy: Vec<Vertex<U, D>> = Vec::new();
    let mut i: usize = 0;
    while i < vertices.len()
        invariant
            i <= vertices.len(),
            copy@ == vertices@.take(i as int),
        decreases vertices.len() - i,
    {
        copy.push(vertices[i]);
        assert(vertices@.take(i + 1) =~= vertices@.take(i as int).push(vertices[i as int]));
        i += 1;
    }
    assert(vertices@.take(i as int) =~= vertices@);
    copy
}

/// The map from identity token to vertex that holds each of `vertices`;
/// of two with the same token it holds the later one.
pub open spec fn keyed<U, const D: usize>(vertices: Seq<Vertex<U, D>>) -> Map<u128, Vertex<U, D>>
    decreases vertices.len(),
{
    if vertices.len() == 0 {
        Map::empty()
    } else {
        keyed(vertices.drop_last()).insert(vertices.last().uuid, vertices.last())
    }
}

/// Where the tokens differ from one another, the keyed map has one entry
/// for each vertex, under its own token.
pub proof fn lemma_keyed_distinct<U, const D: usize>(vertices: Seq<Vertex<U, D>>)
    requires
        uuids_of(vertices).no_duplicates(),
    ensures
        keyed(vertices).dom() == uuids_of(vertices).to_set(),
        keyed(vertices).dom().finite(),
        keyed(vertices).dom().len() == vertices.len(),
        forall|i: int|
            0 <= i < vertices.len() ==> keyed(vertices)[(#[trigger] vertices[i]).uuid]
                == vertices[i],
    decreases vertices.len(),
{
    let ids = uuids_of(vertices);
    if vertices.len() == 0 {
        assert(keyed(vertices).dom() =~= ids.to_set());
    } else {
        let front = vertices.drop_last();
        assert(uuids_of(front) =~= ids.drop_last());
        assert(uuids_of(front).no_duplicates()) by {
            assert forall|i: int, j: int|
                0 <= i < front.len() && 0 <= j < front.len() && i != j implies uuids_of(front)[i]
                != uuids_of(front)[j] by {
                assert(ids[i] != ids[j]);
            }
        }
        lemma_keyed_distinct(front);
        assert(keyed(vertices).dom() =~= ids.to_set()) by {
            assert forall|x: u128| ids.to_set().contains(x) implies keyed(vertices).dom().contains(
                x,
            ) by {
                let j = choose|j: int| 0 <= j < ids.len() && ids[j] == x;
                if j < front.len() {
                    assert(uuids_of(front)[j] == x);
                    assert(uuids_of(front).to_set().contains(x));
                }
            }
            assert forall|x: u128| keyed(vertices).dom().contains(x) implies ids.to_set().contains(
                x,
            ) by {
                if x == vertices.last().uuid {
                    assert(ids[ids.len() - 1] == x);
                } else {
                    assert(uuids_of(front).to_set().contains(x));
                    let j = choose|j: int| 0 <= j < front.len() && uuids_of(front)[j] == x;
                    assert(ids[j] == x);
                }
            }
        }
        ids.unique_seq_to_set();
        assert forall|i: int| 0 <= i < vertices.len() implies keyed(vertices)[(
        #[trigger] vertices[i]).uuid] == vertices[i] by {
            if i < front.len() {
                assert(front[i] == vertices[i]);
                assert(ids[i] != ids[ids.len() - 1]);
            }
        }
    }
}

} // verus!
