//! The triangulation data structure: the registry of vertices and cells,
//! the bounding supercell and the incremental construction.

use super::adjacency::{
    incident, incident_cell_of, linked, neighbors_for, neighbors_of,
};
use super::cell::{
    cells_on, coordinates, simplices_of, tokens_of, views_of, Cell, CellView,
};
use super::error::TriangulationError;
use super::insertion::{
    check_delaunay, decided, delaunay, drawn_from, law_cells_are_simplices_on_the_vertices,
    simplices, triangulate, triangulated, well_shaped,
};
use super::point::Point;
use super::reproducible::{law_cells_do_not_depend_on_tokens, places};
use super::utilities::{find_extreme_coordinates, highest, lemma_extremes, lowest};
use super::vertex::{
    copy_vertices, has_token, keyed, lemma_keyed_distinct, points_of, uuids_of, Vertex,
};
use std::collections::HashMap;
use vstd::prelude::*;

verus! {

/// The registry of a triangulation. Vertices and cells are held under their
/// identity tokens; the two order lists say in which order they were
/// registered, which is the order in which every operation walks them.
#[derive(Debug)]
pub struct Tds<U, V, const D: usize> {
    /// The vertices, each under its identity token.
    pub vertices: HashMap<u128, Vertex<U, D>>,
    /// The maximal cells, each under its identity token.
    pub cells: HashMap<u128, Cell<U, V, D>>,
    /// The tokens of the vertices in the order of their registration.
    pub vertex_order: Vec<u128>,
    /// The tokens of the cells in the order of their registration.
    pub cell_order: Vec<u128>,
}

/// A copy of `tokens`.
fn copy_tokens(tokens: &Vec<u128>) -> (copy: Vec<u128>)
    ensures
        copy@ == tokens@,
{
    let mut copy: Vec<u128> = Vec::new();
    let mut i: usize = 0;
    while i < tokens.len()
        invariant
            i <= tokens.len(),
            copy@ == tokens@.take(i as int),
        decreases tokens.len() - i,
    {
        copy.push(tokens[i]);
        assert(tokens@.take(i + 1) =~= tokens@.take(i as int).push(tokens[i as int]));
        i += 1;
    }
    assert(tokens@.take(i as int) =~= tokens@);
    copy
}

impl<U: Copy, V: Copy, const D: usize> Clone for Tds<U, V, D> {
    /// A registry that holds the same vertices and cells in the same order.
    fn clone(&self) -> (copy: Self)
        ensures
            copy.vertices@ == self.vertices@,
            copy.cells@ == self.cells@,
            copy.vertex_order@ == self.vertex_order@,
            copy.cell_order@ == self.cell_order@,
    {
        Tds {
            vertices: self.vertices.clone(),
            cells: self.cells.clone(),
            vertex_order: copy_tokens(&self.vertex_order),
            cell_order: copy_tokens(&self.cell_order),
        }
    }
}

impl<U: Copy, V: Copy, const D: usize> Default for Tds<U, V, D> {
    /// The registry without vertices and cells.
    fn default() -> (tds: Self)
        ensures
            tds.wf(),
            tds.vertices@.len() == 0,
            tds.cells@.len() == 0,
            tds.vertex_order@.len() == 0,
            tds.cell_order@.len() == 0,
    {
        broadcast use vstd::std_specs::hash::group_hash_axioms;

        Tds {
            vertices: HashMap::new(),
            cells: HashMap::new(),
            vertex_order: Vec::new(),
            cell_order: Vec::new(),
        }
    }
}

/// Some vertex of `registered` has the coordinates `p`.
pub open spec fn has_coordinates<U, const D: usize>(
    registered: Seq<Vertex<U, D>>,
    p: Seq<int>,
) -> bool {
    exists|i: int| 0 <= i < registered.len() && (#[trigger] registered[i]).point@ == p
}

/// What registering `vertex` next to `registered` answers: coordinates
/// that are already there are refused first, then a token that is in use.
pub open spec fn add_outcome<U, const D: usize>(
    registered: Seq<Vertex<U, D>>,
    vertex: Vertex<U, D>,
) -> Result<(), TriangulationError> {
    if has_coordinates(registered, vertex.point@) {
        Err(TriangulationError::DuplicateCoordinates)
    } else if has_token(registered, vertex.uuid) {
        Err(TriangulationError::IdentityCollision)
    } else {
        Ok(())
    }
}

/// The registered vertices after `vertex` was offered: one more where it
/// was accepted, the same where it was refused.
pub open spec fn added<U, const D: usize>(
    registered: Seq<Vertex<U, D>>,
    vertex: Vertex<U, D>,
) -> Seq<Vertex<U, D>> {
    if add_outcome(registered, vertex) is Ok {
        registered.push(vertex)
    } else {
        registered
    }
}

/// The registered vertices after the first `n` of `vertices` were offered
/// one after the other.
pub open spec fn added_all<U, const D: usize>(
    registered: Seq<Vertex<U, D>>,
    vertices: Seq<Vertex<U, D>>,
    n: nat,
) -> Seq<Vertex<U, D>>
    decreases n,
{
    if n == 0 {
        registered
    } else {
        added(added_all(registered, vertices, (n - 1) as nat), vertices[n - 1])
    }
}

/// Offering the first `n` of `vertices` to an empty registry leaves
/// vertices with coordinates that differ, one for each of the coordinates
/// offered, and each of them one of those offered.
pub proof fn lemma_added_all<U, const D: usize>(vertices: Seq<Vertex<U, D>>, n: nat)
    requires
        uuids_of(vertices).no_duplicates(),
        n <= vertices.len(),
    ensures
        coordinates(added_all(Seq::empty(), vertices, n)).no_duplicates(),
        forall|p: Seq<int>|
            has_coordinates(added_all(Seq::empty(), vertices, n), p) <==> has_coordinates(
                vertices.take(n as int),
                p,
            ),
        forall|x: int|
            0 <= x < added_all(Seq::empty(), vertices, n).len() ==> exists|k: int|
                0 <= k < n && #[trigger] added_all(Seq::empty(), vertices, n)[x] == vertices[k],
    decreases n,
{
    let now = added_all(Seq::<Vertex<U, D>>::empty(), vertices, n);
    if n == 0 {
        assert(now.len() == 0);
    } else {
        let before = added_all(Seq::<Vertex<U, D>>::empty(), vertices, (n - 1) as nat);
        let vertex = vertices[n - 1];
        lemma_added_all(vertices, (n - 1) as nat);
        let shorter = vertices.take(n - 1);
        let longer = vertices.take(n as int);
        assert(!has_token(before, vertex.uuid)) by {
            if has_token(before, vertex.uuid) {
                let x = choose|x: int| 0 <= x < before.len() && (#[trigger] before[x]).uuid == vertex.uuid;
                let k = choose|k: int| 0 <= k < n - 1 && before[x] == vertices[k];
                assert(uuids_of(vertices)[k] == uuids_of(vertices)[n - 1]);
            }
        }
        assert forall|p: Seq<int>| has_coordinates(longer, p) <==> (has_coordinates(shorter, p)
            || p == vertex.point@) by {
            if has_coordinates(shorter, p) {
                let k = choose|k: int| 0 <= k < shorter.len() && (#[trigger] shorter[k]).point@ == p;
                assert(longer[k].point@ == p);
            }
            if p == vertex.point@ {
                assert(longer[n - 1].point@ == p);
            }
            if has_coordinates(longer, p) && p != vertex.point@ {
                let k = choose|k: int| 0 <= k < longer.len() && (#[trigger] longer[k]).point@ == p;
                assert(shorter[k].point@ == p);
            }
        }
        if has_coordinates(before, vertex.point@) {
            assert(now == before);
            assert forall|x: int| 0 <= x < now.len() implies exists|k: int|
                0 <= k < n && #[trigger] now[x] == vertices[k] by {
                let k = choose|k: int| 0 <= k < n - 1 && before[x] == vertices[k];
                assert(now[x] == vertices[k]);
            }
        } else {
            assert(now == before.push(vertex));
            assert forall|p: Seq<int>| has_coordinates(now, p) <==> (has_coordinates(before, p)
                || p == vertex.point@) by {
                if has_coordinates(before, p) {
                    let k = choose|k: int| 0 <= k < before.len() && (#[trigger] before[k]).point@ == p;
                    assert(now[k].point@ == p);
                }
                if p == vertex.point@ {
                    assert(now[now.len() - 1].point@ == p);
                }
                if has_coordinates(now, p) && p != vertex.point@ {
                    let k = choose|k: int| 0 <= k < now.len() && (#[trigger] now[k]).point@ == p;
                    assert(before[k].point@ == p);
                }
            }
            assert forall|x: int, y: int|
                0 <= x < now.len() && 0 <= y < now.len() && x != y implies coordinates(now)[x]
                != coordinates(now)[y] by {
                if x < before.len() && y < before.len() {
                    assert(coordinates(before)[x] != coordinates(before)[y]);
                } else if x < before.len() {
                    assert(before[x].point@ == coordinates(now)[x]);
                } else {
                    assert(before[y].point@ == coordinates(now)[y]);
                }
            }
            assert forall|x: int| 0 <= x < now.len() implies exists|k: int|
                0 <= k < n && #[trigger] now[x] == vertices[k] by {
                if x < before.len() {
                    let k = choose|k: int| 0 <= k < n - 1 && before[x] == vertices[k];
                    assert(now[x] == vertices[k]);
                } else {
                    assert(now[x] == vertices[n - 1]);
                }
            }
        }
    }
}

/// Registration counts the distinct points. Where vertices with tokens
/// that differ are offered to an empty registry one after the other, the
/// registry ends with as many vertices as there are different coordinates
/// among those offered.
pub proof fn law_registration_counts_distinct_points<U, const D: usize>(vertices: Seq<Vertex<U, D>>)
    requires
        uuids_of(vertices).no_duplicates(),
    ensures
        added_all(Seq::empty(), vertices, vertices.len()).len() == coordinates(
            vertices,
        ).to_set().len(),
{
    let kept = added_all(Seq::<Vertex<U, D>>::empty(), vertices, vertices.len());
    lemma_added_all(vertices, vertices.len());
    assert(vertices.take(vertices.len() as int) =~= vertices);
    coordinates(kept).unique_seq_to_set();
    assert(coordinates(kept).to_set() =~= coordinates(vertices).to_set()) by {
        assert forall|p: Seq<int>| coordinates(kept).to_set().contains(p) <==> coordinates(
            vertices,
        ).to_set().contains(p) by {
            if coordinates(kept).contains(p) {
                let k = choose|k: int| 0 <= k < kept.len() && coordinates(kept)[k] == p;
                assert(kept[k].point@ == p);
                assert(has_coordinates(vertices, p));
                let m = choose|m: int| 0 <= m < vertices.len() && (#[trigger] vertices[m]).point@ == p;
                assert(coordinates(vertices)[m] == p);
            }
            if coordinates(vertices).contains(p) {
                let k = choose|k: int| 0 <= k < vertices.len() && coordinates(vertices)[k] == p;
                assert(vertices[k].point@ == p);
                assert(has_coordinates(vertices, p));
                assert(has_coordinates(vertices.take(vertices.len() as int), p));
                assert(has_coordinates(kept, p));
                let m = choose|m: int| 0 <= m < kept.len() && (#[trigger] kept[m]).point@ == p;
                assert(coordinates(kept)[m] == p);
            }
        }
    }
}

/// How far the supercell reaches beyond the registered vertices on every
/// axis, in both directions.
pub const MARGIN: i64 = 10;

/// The bounding box of `points` can be widened by the margin on each of
/// the `d` axes without leaving the range of a coordinate.
pub open spec fn paddable(points: Seq<Seq<int>>, d: int) -> bool {
    forall|k: int| 0 <= k < d ==> #[trigger] axis_paddable(points, k)
}

/// The extent of `points` on axis `k` can be widened by the margin.
pub open spec fn axis_paddable(points: Seq<Seq<int>>, k: int) -> bool {
    i64::MIN <= lowest(points, k) - MARGIN && highest(points, k) + MARGIN <= i64::MAX
}

/// On axis `k` the point `p` keeps the margin from corner 0 of the
/// simplex below it and from corner `k + 1` above it.
pub open spec fn within_margin(corners: Seq<Seq<int>>, p: Seq<int>, k: int) -> bool {
    corners[0][k] + MARGIN <= p[k] <= corners[k + 1][k] - MARGIN
}

/// On axis `k` the coordinate of corner `r` lies the margin or more below
/// every one of `points`, or the margin or more above every one.
pub open spec fn beyond_margin(
    corners: Seq<Seq<int>>,
    points: Seq<Seq<int>>,
    r: int,
    k: int,
) -> bool {
    corners[r][k] <= lowest(points, k) - MARGIN || corners[r][k] >= highest(points, k) + MARGIN
}

/// The corners of the supercell of `points` in `d` dimensions. Corner 0 is
/// the least corner of the widened bounding box; corner `k + 1` differs
/// from it on axis `k` alone, where it has the greatest widened coordinate.
pub open spec fn supercell_points(points: Seq<Seq<int>>, d: nat) -> Seq<Seq<int>> {
    Seq::new(
        d + 1,
        |i: int|
            Seq::new(
                d,
                |k: int|
                    if i == k + 1 {
                        highest(points, k) + MARGIN
                    } else {
                        lowest(points, k) - MARGIN
                    },
            ),
    )
}

/// The supercell keeps the margin. On every axis, corner 0 lies the margin
/// or more below every point and the far corner of that axis the margin
/// or more above, and no corner has a coordinate nearer than the margin
/// to the extent of the points.
pub proof fn law_supercell_keeps_the_margin(points: Seq<Seq<int>>, d: nat)
    requires
        points.len() > 0,
    ensures
        forall|i: int, k: int|
            0 <= i < points.len() && 0 <= k < d ==> #[trigger] within_margin(
                supercell_points(points, d),
                points[i],
                k,
            ),
        forall|r: int, k: int|
            0 <= r <= d && 0 <= k < d ==> #[trigger] beyond_margin(
                supercell_points(points, d),
                points,
                r,
                k,
            ),
{
    let corners = supercell_points(points, d);
    assert forall|i: int, k: int| 0 <= i < points.len() && 0 <= k < d implies #[trigger] within_margin(
     corners, points[i], k) by {
        lemma_extremes(points, k);
        assert(corners[0][k] == lowest(points, k) - MARGIN);
        assert(corners[k + 1][k] == highest(points, k) + MARGIN);
    }
    assert forall|r: int, k: int| 0 <= r <= d && 0 <= k < d implies #[trigger] beyond_margin(
        corners,
        points,
        r,
        k,
    ) by {
        assert(corners[r][k] == if r == k + 1 {
            highest(points, k) + MARGIN
        } else {
            lowest(points, k) - MARGIN
        });
    }
}

/// `scaffold` can serve as the supercell of `registered`: its vertices lie
/// at the corners of the supercell, carry nothing, and have identity tokens
/// that differ from one another and from every registered one.
pub open spec fn is_supercell<U, const D: usize>(
    scaffold: Seq<Vertex<U, D>>,
    registered: Seq<Vertex<U, D>>,
) -> bool {
    &&& coordinates(scaffold) == supercell_points(coordinates(registered), D as nat)
    &&& uuids_of(scaffold).no_duplicates()
    &&& forall|i: int| 0 <= i < scaffold.len() ==> !has_token(registered, #[trigger] scaffold[i].uuid)
    &&& forall|i: int|
        0 <= i < scaffold.len() ==> (#[trigger] scaffold[i]).data is None
            && scaffold[i].incident_cell is None
}

/// `cells` are what the construction leaves of `registered`: grown from a
/// supercell of theirs, with every vertex inserted in turn.
pub open spec fn raised_from<U, const D: usize>(
    registered: Seq<Vertex<U, D>>,
    cells: Seq<Seq<Vertex<U, D>>>,
) -> bool {
    exists|scaffold: Seq<Vertex<U, D>>|
        is_supercell(scaffold, registered) && #[trigger] triangulated(registered, scaffold) == Some(
            cells,
        )
}

/// Whatever supercell of `registered` the construction starts from, it
/// ends with cells at the places `at`.
pub open spec fn always_raises<U, const D: usize>(
    registered: Seq<Vertex<U, D>>,
    at: Seq<Seq<Seq<int>>>,
) -> bool {
    forall|frame: Seq<Vertex<U, D>>| #[trigger]
        is_supercell(frame, registered) ==> triangulated(registered, frame) is Some && places(
            triangulated(registered, frame).unwrap(),
        ) == at
}

/// Whatever supercell of `registered` the construction starts from, a
/// circumsphere test on the way cannot be decided.
pub open spec fn never_raises<U, const D: usize>(registered: Seq<Vertex<U, D>>) -> bool {
    forall|frame: Seq<Vertex<U, D>>| #[trigger]
        is_supercell(frame, registered) ==> triangulated(registered, frame) is None
}

/// Any supercell will do. Two scaffolds that can serve as the supercell of
/// the same vertices, whose tokens differ, lead to cells at the same
/// places, or fail alike.
pub proof fn lemma_any_supercell_will_do<U, const D: usize>(
    registered: Seq<Vertex<U, D>>,
    scaffold: Seq<Vertex<U, D>>,
    frame: Seq<Vertex<U, D>>,
)
    requires
        uuids_of(registered).no_duplicates(),
        is_supercell(scaffold, registered),
        is_supercell(frame, registered),
    ensures
        triangulated(registered, scaffold) is Some == triangulated(registered, frame) is Some,
        triangulated(registered, scaffold) is Some ==> places(
            triangulated(registered, scaffold).unwrap(),
        ) == places(triangulated(registered, frame).unwrap()),
{
    lemma_supercell_tokens(registered, scaffold);
    lemma_supercell_tokens(registered, frame);
    let p = scaffold + registered;
    let q = frame + registered;
    assert(coordinates(scaffold).len() == coordinates(frame).len());
    assert forall|i: int| 0 <= i < p.len() implies (#[trigger] p[i]).point@ == q[i].point@ by {
        if i < scaffold.len() {
            assert(coordinates(scaffold)[i] == coordinates(frame)[i]);
        }
    }
    law_cells_do_not_depend_on_tokens(registered, scaffold, registered, frame);
}

/// The tokens of a supercell and of the vertices that it is made for all
/// differ, where those of the vertices do.
pub proof fn lemma_supercell_tokens<U, const D: usize>(
    registered: Seq<Vertex<U, D>>,
    scaffold: Seq<Vertex<U, D>>,
)
    requires
        uuids_of(registered).no_duplicates(),
        is_supercell(scaffold, registered),
    ensures
        uuids_of(scaffold + registered).no_duplicates(),
        scaffold.len() == D + 1,
{
    let all = scaffold + registered;
    assert(coordinates(scaffold).len() == D + 1);
    assert forall|x: int, y: int|
        0 <= x < all.len() && 0 <= y < all.len() && x != y implies uuids_of(all)[x] != uuids_of(
        all,
    )[y] by {
        if x < scaffold.len() && y < scaffold.len() {
            assert(uuids_of(scaffold)[x] != uuids_of(scaffold)[y]);
        } else if x >= scaffold.len() && y >= scaffold.len() {
            assert(uuids_of(registered)[x - scaffold.len()] != uuids_of(registered)[y
                - scaffold.len()]);
        } else {
            let inner = if x < scaffold.len() {
                x
            } else {
                y
            };
            let outer = if x < scaffold.len() {
                y
            } else {
                x
            };
            assert(!has_token(registered, scaffold[inner].uuid));
            assert(registered[outer - scaffold.len()].uuid == all[outer].uuid);
        }
    }
}

/// `vertex` with its incident cell set to `cell`, where `listed` asks for
/// it; otherwise `vertex` as it is.
pub open spec fn refreshed<U, const D: usize>(
    vertex: Vertex<U, D>,
    listed: bool,
    cell: Option<u128>,
) -> Vertex<U, D> {
    if listed {
        Vertex { point: vertex.point, uuid: vertex.uuid, incident_cell: cell, data: vertex.data }
    } else {
        vertex
    }
}

/// Every vertex with its incident cell taken from `cells`.
pub open spec fn marked<U, V, const D: usize>(
    registered: Seq<Vertex<U, D>>,
    cells: Seq<CellView<U, V, D>>,
) -> Seq<Vertex<U, D>> {
    Seq::new(
        registered.len(),
        |i: int| refreshed(registered[i], true, incident(cells, registered[i].uuid)),
    )
}

/// Every cell records the neighbors that it has among `cells`, and carries
/// no data.
pub open spec fn is_linked<U, V, const D: usize>(cells: Seq<CellView<U, V, D>>) -> bool {
    forall|a: int|
        0 <= a < cells.len() ==> (#[trigger] cells[a]).neighbors == neighbors_of(
            simplices_of(cells),
            tokens_of(cells),
            a,
        ) && cells[a].data is None
}

/// `min(n - 1, d)`: the dimension of a triangulation of `n` vertices in
/// `d`-dimensional space.
pub open spec fn dimension(n: int, d: int) -> int {
    if n - 1 < d {
        n - 1
    } else {
        d
    }
}

impl<U: Copy, V: Copy, const D: usize> Tds<U, V, D> {
    /// The order lists name each key of their registry once, and each entry
    /// is held under its own token.
    pub open spec fn wf(&self) -> bool {
        &&& self.vertex_order@.no_duplicates()
        &&& forall|id: u128| self.vertices@.contains_key(id) <==> self.vertex_order@.contains(id)
        &&& forall|id: u128|
            self.vertices@.contains_key(id) ==> (#[trigger] self.vertices@[id]).uuid == id
        &&& self.cell_order@.no_duplicates()
        &&& forall|id: u128| self.cells@.contains_key(id) <==> self.cell_order@.contains(id)
        &&& forall|id: u128| self.cells@.contains_key(id) ==> (#[trigger] self.cells@[id]).uuid == id
    }

    /// The vertices in the order of their registration.
    pub open spec fn registered(&self) -> Seq<Vertex<U, D>> {
        Seq::new(self.vertex_order@.len(), |i: int| self.vertices@[self.vertex_order@[i]])
    }

    /// What the cells hold, in the order of their registration.
    pub open spec fn registered_cells(&self) -> Seq<CellView<U, V, D>> {
        Seq::new(self.cell_order@.len(), |i: int| self.cells@[self.cell_order@[i]]@)
    }

    /// In a well-formed registry the number of entries is the length of
    /// the order list.
    pub proof fn lemma_counts(&self)
        requires
            self.wf(),
        ensures
            self.vertices@.dom().finite(),
            self.vertices@.len() == self.vertex_order@.len(),
            self.cells@.dom().finite(),
            self.cells@.len() == self.cell_order@.len(),
    {
        self.vertex_order@.unique_seq_to_set();
        assert(self.vertices@.dom() =~= self.vertex_order@.to_set());
        self.cell_order@.unique_seq_to_set();
        assert(self.cells@.dom() =~= self.cell_order@.to_set());
    }

    /// In a well-formed registry every registered vertex is held under its
    /// token, and the tokens differ.
    pub proof fn lemma_registered_tokens(&self)
        requires
            self.wf(),
        ensures
            uuids_of(self.registered()) == self.vertex_order@,
            uuids_of(self.registered()).no_duplicates(),
    {
        assert(uuids_of(self.registered()) =~= self.vertex_order@) by {
            assert forall|i: int| 0 <= i < self.vertex_order@.len() implies uuids_of(
                self.registered(),
            )[i] == self.vertex_order@[i] by {
                assert(self.vertex_order@.contains(self.vertex_order@[i]));
            }
        }
    }

    /// A registry with one vertex for each of `points`, in their order, and
    /// no cells. Points that occur twice are registered twice.
    pub fn new(points: Vec<Point<D>>) -> (tds: Self)
        ensures
            tds.wf(),
            points_of(tds.registered()) == points@,
            tds.vertices@.len() == points.len(),
            tds.cells@.len() == 0,
            tds.cell_order@.len() == 0,
            forall|i: int|
                0 <= i < points.len() ==> (#[trigger] tds.registered()[i]).data is None
                    && tds.registered()[i].incident_cell is None,
    {
        broadcast use vstd::std_specs::hash::group_hash_axioms;

        let listed = Vertex::from_points(points);
        let mut vertex_order: Vec<u128> = Vec::new();
        let mut i: usize = 0;
        while i < listed.len()
            invariant
                i <= listed.len(),
                vertex_order.len() == i,
                forall|k: int| 0 <= k < i ==> vertex_order[k] == (#[trigger] listed[k]).uuid,
            decreases listed.len() - i,
        {
            vertex_order.push(listed[i].uuid);
            i += 1;
        }
        let ghost all = listed@;
        let vertices = Vertex::into_hashmap(listed);
        let tds = Tds { vertices, cells: HashMap::new(), vertex_order, cell_order: Vec::new() };
        proof {
            lemma_keyed_distinct(all);
            assert(tds.vertex_order@ =~= uuids_of(all));
            assert(tds.registered() =~= all) by {
                assert forall|k: int| 0 <= k < all.len() implies tds.registered()[k] == all[k] by {
                    assert(keyed(all)[all[k].uuid] == all[k]);
                }
            }
            assert forall|id: u128| tds.vertices@.contains_key(id) implies (
            #[trigger] tds.vertices@[id]).uuid == id by {
                assert(uuids_of(all).to_set().contains(id));
                let k = choose|k: int| 0 <= k < all.len() && uuids_of(all)[k] == id;
                assert(keyed(all)[all[k].uuid] == all[k]);
            }
            assert forall|id: u128|
                tds.vertices@.contains_key(id) <==> tds.vertex_order@.contains(id) by {
                assert(uuids_of(all).to_set().contains(id) <==> uuids_of(all).contains(id));
            }
        }
        tds
    }

    /// The number of registered vertices.
    pub fn number_of_vertices(&self) -> (n: usize)
        ensures
            n == self.vertices@.len(),
            self.wf() ==> n == self.registered().len(),
    {
        broadcast use vstd::std_specs::hash::group_hash_axioms;

        proof {
            if self.wf() {
                self.lemma_counts();
            }
        }
        self.vertices.len()
    }

    /// The number of registered cells.
    pub fn number_of_cells(&self) -> (n: usize)
        ensures
            n == self.cells@.len(),
            self.wf() ==> n == self.registered_cells().len(),
    {
        broadcast use vstd::std_specs::hash::group_hash_axioms;

        proof {
            if self.wf() {
                self.lemma_counts();
            }
        }
        self.cells.len()
    }

    /// The dimension of the triangulation: one less than the number of
    /// vertices, but no more than `D`. An empty registry has dimension -1.
    pub fn dim(&self) -> (d: i32)
        requires
            D <= i32::MAX,
        ensures
            d == dimension(self.vertices@.len() as int, D as int),
    {
        let n: usize = self.number_of_vertices();
        if n == 0 {
            -1
        } else if n - 1 < D {
            (n - 1) as i32
        } else {
            D as i32
        }
    }

    /// The registered vertices in the order of their registration.
    pub fn registered_vertices(&self) -> (listed: Vec<Vertex<U, D>>)
        requires
            self.wf(),
        ensures
            listed@ == self.registered(),
    {
        broadcast use vstd::std_specs::hash::group_hash_axioms;

        let mut listed: Vec<Vertex<U, D>> = Vec::new();
        let mut i: usize = 0;
        while i < self.vertex_order.len()
            invariant
                self.wf(),
                i <= self.vertex_order.len(),
                listed.len() == i,
                forall|k: int| 0 <= k < i ==> listed[k] == self.registered()[k],
            decreases self.vertex_order.len() - i,
        {
            let id: u128 = self.vertex_order[i];
            assert(self.vertex_order@.contains(id));
            match self.vertices.get(&id) {
                Some(vertex) => {
                    listed.push(*vertex);
                },
                None => {},
            }
            i += 1;
        }
        assert(listed@ =~= self.registered());
        listed
    }

    /// The supercell of the registered vertices: the simplex on the corners
    /// given by [`supercell_points`], which keep the margin from every
    /// vertex on every axis. There must be a vertex to bound, and room for
    /// the margin in the coordinates.
    #[verifier::loop_isolation(false)]
    pub fn supercell(&self) -> (made: Result<Cell<U, V, D>, TriangulationError>)
        requires
            self.wf(),
            D < usize::MAX,
        ensures
            match made {
                Ok(cell) => {
                    &&& self.registered().len() > 0
                    &&& paddable(coordinates(self.registered()), D as int)
                    &&& is_supercell(cell.vertices@, self.registered())
                    &&& cell.neighbors is None
                    &&& cell.data is None
                },
                Err(e) => if self.registered().len() == 0 {
                    e == TriangulationError::DegenerateInput
                } else {
                    e == TriangulationError::ArithmeticOverflow && !paddable(
                        coordinates(self.registered()),
                        D as int,
                    )
                },
            },
            made is Ok ==> forall|i: int, k: int|
                0 <= i < self.registered().len() && 0 <= k < D ==> #[trigger] within_margin(
                    made.unwrap().points(),
                    self.registered()[i].point@,
                    k,
                ),
            made is Ok ==> forall|r: int, k: int|
                0 <= r <= D && 0 <= k < D ==> #[trigger] beyond_margin(
                    made.unwrap().points(),
                    coordinates(self.registered()),
                    r,
                    k,
                ),
    {
        broadcast use vstd::std_specs::hash::group_hash_axioms;

        let listed = self.registered_vertices();
        let ghost points = coordinates(listed@);
        let mut low: [i64; D] = match find_extreme_coordinates(&listed, false) {
            Ok(found) => found,
            Err(e) => {
                return Err(e);
            },
        };
        let mut high: [i64; D] = match find_extreme_coordinates(&listed, true) {
            Ok(found) => found,
            Err(e) => {
                return Err(e);
            },
        };
        let mut k: usize = 0;
        while k < D
            invariant
                k <= D,
                forall|c: int| 0 <= c < k ==> #[trigger] low[c] == lowest(points, c) - MARGIN,
                forall|c: int| k <= c < D ==> #[trigger] low[c] == lowest(points, c),
                forall|c: int| 0 <= c < k ==> #[trigger] high[c] == highest(points, c) + MARGIN,
                forall|c: int| k <= c < D ==> #[trigger] high[c] == highest(points, c),
            decreases D - k,
        {
            match (low[k].checked_sub(MARGIN), high[k].checked_add(MARGIN)) {
                (Some(below), Some(above)) => {
                    low[k] = below;
                    high[k] = above;
                },
                _ => {
                    assert(!axis_paddable(points, k as int));
                    return Err(TriangulationError::ArithmeticOverflow);
                },
            }
            k += 1;
        }
        let mut corners: Vec<Point<D>> = Vec::new();
        corners.push(Point::new(low));
        let mut i: usize = 0;
        while i < D
            invariant
                i <= D,
                D < usize::MAX,
                corners.len() == i + 1,
                forall|c: int| 0 <= c < D ==> #[trigger] low[c] == lowest(points, c) - MARGIN,
                forall|c: int| 0 <= c < D ==> #[trigger] high[c] == highest(points, c) + MARGIN,
                forall|r: int|
                    0 <= r < corners.len() ==> (#[trigger] corners[r])@ =~= supercell_points(
                        points,
                        D as nat,
                    )[r],
            decreases D - i,
        {
            let mut corner: [i64; D] = low;
            corner[i] = high[i];
            corners.push(Point::new(corner));
            i += 1;
        }
        let mut taken: HashMap<u128, usize> = HashMap::new();
        let mut j: usize = 0;
        while j < self.vertex_order.len()
            invariant
                j <= self.vertex_order.len(),
                forall|r: int| 0 <= r < j ==> taken@.contains_key(#[trigger] self.vertex_order@[r]),
            decreases self.vertex_order.len() - j,
        {
            taken.insert(self.vertex_order[j], j);
            j += 1;
        }
        let ghost placed = corners@;
        let vertices = Vertex::from_points_avoiding(corners, &mut taken);
        proof {
            let registered = self.registered();
            assert(paddable(points, D as int)) by {
                assert forall|c: int| 0 <= c < D implies #[trigger] axis_paddable(points, c) by {
                    assert(low[c] == lowest(points, c) - MARGIN);
                    assert(high[c] == highest(points, c) + MARGIN);
                }
            }
            assert(coordinates(vertices@) =~= supercell_points(points, D as nat)) by {
                assert forall|r: int| 0 <= r < vertices.len() implies #[trigger] coordinates(
                    vertices@,
                )[r] == supercell_points(points, D as nat)[r] by {
                    assert(points_of(vertices@)[r] == placed[r]);
                }
            }
            assert forall|r: int| 0 <= r < vertices.len() implies !has_token(
                registered,
                #[trigger] vertices[r].uuid,
            ) by {
                if has_token(registered, vertices[r].uuid) {
                    let t = choose|t: int|
                        0 <= t < registered.len() && (#[trigger] registered[t]).uuid
                            == vertices[r].uuid;
                    assert(self.vertex_order@.contains(self.vertex_order@[t]));
                    assert(taken@.contains_key(self.vertex_order@[t]));
                }
            }
            law_supercell_keeps_the_margin(points, D as nat);
            assert forall|r: int, c: int|
                0 <= r < registered.len() && 0 <= c < D implies #[trigger] within_margin(
                coordinates(vertices@),
                registered[r].point@,
                c,
            ) by {
                assert(points[r] == registered[r].point@);
            }
        }
        Cell::new(vertices)
    }

    /// Registers `vertex`, unless a registered vertex has its coordinates
    /// or its identity token. A refused vertex leaves the registry as it was.
    pub fn add(&mut self, vertex: Vertex<U, D>) -> (outcome: Result<(), TriangulationError>)
        requires
            old(self).wf(),
        ensures
            final(self).wf(),
            outcome == add_outcome(old(self).registered(), vertex),
            final(self).registered() == added(old(self).registered(), vertex),
            outcome is Ok ==> final(self).vertices@ == old(self).vertices@.insert(
                vertex.uuid,
                vertex,
            ),
            outcome is Err ==> final(self).vertices@ == old(self).vertices@,
            final(self).cells@ == old(self).cells@,
            final(self).cell_order@ == old(self).cell_order@,
    {
        broadcast use vstd::std_specs::hash::group_hash_axioms;

        let ghost before = self.registered();
        let mut i: usize = 0;
        while i < self.vertex_order.len()
            invariant
                self.wf(),
                *self == *old(self),
                before == self.registered(),
                i <= self.vertex_order.len(),
                forall|k: int| 0 <= k < i ==> (#[trigger] before[k]).point@ != vertex.point@,
            decreases self.vertex_order.len() - i,
        {
            let id: u128 = self.vertex_order[i];
            assert(self.vertex_order@.contains(id));
            let held = self.vertices.get(&id);
            match held {
                Some(other) => {
                    assert(*other == before[i as int]);
                    if other.point.same_coordinates(&vertex.point) {
                        return Err(TriangulationError::DuplicateCoordinates);
                    }
                },
                None => {},
            }
            i += 1;
        }
        if self.vertices.contains_key(&vertex.uuid) {
            proof {
                assert(self.vertices@.contains_key(vertex.uuid));
                assert(self.vertex_order@.contains(vertex.uuid));
                let j = choose|j: int|
                    0 <= j < self.vertex_order@.len() && self.vertex_order@[j] == vertex.uuid;
                assert(before[j].uuid == vertex.uuid);
            }
            return Err(TriangulationError::IdentityCollision);
        }
        proof {
            if has_token(before, vertex.uuid) {
                let j = choose|j: int| 0 <= j < before.len() && (#[trigger] before[j]).uuid == vertex.uuid;
                assert(self.vertex_order@.contains(self.vertex_order@[j]));
            }
        }
        self.vertices.insert(vertex.uuid, vertex);
        self.vertex_order.push(vertex.uuid);
        proof {
            assert(self.registered() =~= before.push(vertex)) by {
                assert forall|k: int| 0 <= k < before.len() implies self.registered()[k]
                    == before[k] by {
                    assert(old(self).vertex_order@.contains(old(self).vertex_order@[k]));
                }
            }
            assert forall|id: u128|
                self.vertices@.contains_key(id) <==> self.vertex_order@.contains(id) by {
                if id == vertex.uuid {
                    assert(self.vertex_order@[old(self).vertex_order@.len() as int] == id);
                } else {
                    if old(self).vertex_order@.contains(id) {
                        let j = choose|j: int|
                            0 <= j < old(self).vertex_order@.len() && old(self).vertex_order@[j]
                                == id;
                        assert(self.vertex_order@[j] == id);
                    }
                    if self.vertex_order@.contains(id) {
                        let j = choose|j: int|
                            0 <= j < self.vertex_order@.len() && self.vertex_order@[j] == id;
                        assert(old(self).vertex_order@[j] == id);
                    }
                }
            }
            assert(self.vertex_order@.no_duplicates()) by {
                assert forall|a: int, b: int|
                    0 <= a < self.vertex_order@.len() && 0 <= b < self.vertex_order@.len() && a
                        != b implies self.vertex_order@[a] != self.vertex_order@[b] by {
                    if a < old(self).vertex_order@.len() {
                        assert(old(self).vertex_order@.contains(old(self).vertex_order@[a]));
                    }
                    if b < old(self).vertex_order@.len() {
                        assert(old(self).vertex_order@.contains(old(self).vertex_order@[b]));
                    }
                }
            }
        }
        Ok(())
    }

    /// Copies of the registered cells in the order of their registration.
    pub fn registered_cell_list(&self) -> (listed: Vec<Cell<U, V, D>>)
        requires
            self.wf(),
        ensures
            views_of(listed@) == self.registered_cells(),
    {
        broadcast use vstd::std_specs::hash::group_hash_axioms;

        let mut listed: Vec<Cell<U, V, D>> = Vec::new();
        let mut i: usize = 0;
        while i < self.cell_order.len()
            invariant
                self.wf(),
                i <= self.cell_order.len(),
                listed.len() == i,
                forall|k: int| 0 <= k < i ==> (#[trigger] listed[k])@ == self.registered_cells()[k],
            decreases self.cell_order.len() - i,
        {
            let id: u128 = self.cell_order[i];
            assert(self.cell_order@.contains(id));
            match self.cells.get(&id) {
                Some(cell) => {
                    listed.push(cell.clone());
                },
                None => {},
            }
            i += 1;
        }
        assert(views_of(listed@) =~= self.registered_cells());
        listed
    }

    /// Replaces the registered cells by `cells`, in their order, each with
    /// the neighbors that it has among them: across every facet the first
    /// cell in order that shares the facet and not the opposite vertex.
    /// Cells of which two have the same identity token are refused.
    pub fn assign_neighbors(&mut self, cells: Vec<Cell<U, V, D>>) -> (outcome: Result<
        (),
        TriangulationError,
    >)
        requires
            old(self).wf(),
        ensures
            final(self).wf(),
            final(self).vertices@ == old(self).vertices@,
            final(self).vertex_order@ == old(self).vertex_order@,
            match outcome {
                Ok(()) => tokens_of(views_of(cells@)).no_duplicates()
                    && final(self).registered_cells() == linked(views_of(cells@)),
                Err(e) => e == TriangulationError::IdentityCollision && !tokens_of(
                    views_of(cells@),
                ).no_duplicates() && final(self).cells@ == old(self).cells@
                    && final(self).cell_order@ == old(self).cell_order@,
            },
    {
        broadcast use vstd::std_specs::hash::group_hash_axioms;

        let ghost given = views_of(cells@);
        let ghost tokens = tokens_of(given);
        let mut seen: HashMap<u128, usize> = HashMap::new();
        let mut i: usize = 0;
        while i < cells.len()
            invariant
                *self == *old(self),
                self.wf(),
                given == views_of(cells@),
                tokens == tokens_of(given),
                i <= cells.len(),
                forall|k: int| 0 <= k < i ==> seen@.contains_key(#[trigger] tokens[k]),
                forall|id: u128|
                    seen@.contains_key(id) ==> exists|k: int| 0 <= k < i && #[trigger] tokens[k] == id,
                forall|k: int, l: int| 0 <= k < l < i ==> tokens[k] != tokens[l],
            decreases cells.len() - i,
        {
            let id: u128 = cells[i].uuid;
            assert(tokens[i as int] == id);
            if seen.contains_key(&id) {
                proof {
                    let k = choose|k: int| 0 <= k < i && #[trigger] tokens[k] == id;
                    assert(tokens[k] == tokens[i as int] && k != i);
                }
                return Err(TriangulationError::IdentityCollision);
            }
            seen.insert(id, i);
            i += 1;
        }
        let ghost expected = linked(given);
        let mut registry: HashMap<u128, Cell<U, V, D>> = HashMap::new();
        let mut order: Vec<u128> = Vec::new();
        let mut a: usize = 0;
        while a < cells.len()
            invariant
                given == views_of(cells@),
                tokens == tokens_of(given),
                expected == linked(given),
                tokens.no_duplicates(),
                a <= cells.len(),
                order@ == tokens.take(a as int),
                forall|k: int|
                    0 <= k < a ==> registry@.contains_key(#[trigger] tokens[k])
                        && registry@[tokens[k]]@ == expected[k],
                forall|id: u128|
                    registry@.contains_key(id) ==> exists|k: int| 0 <= k < a && #[trigger] tokens[k] == id,
            decreases cells.len() - a,
        {
            let neighbors = neighbors_for(&cells, a);
            let cell = Cell {
                vertices: copy_vertices(&cells[a].vertices),
                uuid: cells[a].uuid,
                neighbors,
                data: cells[a].data,
            };
            assert(cell@ == expected[a as int]);
            assert(tokens[a as int] == cell.uuid);
            let ghost before = registry@;
            registry.insert(cell.uuid, cell);
            order.push(cells[a].uuid);
            proof {
                assert(order@ =~= tokens.take(a + 1));
                assert forall|k: int| 0 <= k < a + 1 implies registry@.contains_key(
                    #[trigger] tokens[k],
                ) && registry@[tokens[k]]@ == expected[k] by {
                    if k < a {
                        assert(tokens[k] != tokens[a as int]);
                        assert(before.contains_key(tokens[k]));
                    }
                }
                assert forall|id: u128| registry@.contains_key(id) implies exists|k: int|
                    0 <= k < a + 1 && #[trigger] tokens[k] == id by {
                    if id == tokens[a as int] {
                    } else {
                        assert(before.contains_key(id));
                        let k = choose|k: int| 0 <= k < a && #[trigger] tokens[k] == id;
                        assert(tokens[k] == id);
                    }
                }
            }
            a += 1;
        }
        self.cells = registry;
        self.cell_order = order;
        proof {
            assert(tokens.take(a as int) =~= tokens);
            assert(self.registered_cells() =~= expected);
            assert forall|id: u128| self.cells@.contains_key(id) <==> self.cell_order@.contains(id) by {
                if self.cell_order@.contains(id) {
                    let k = choose|k: int| 0 <= k < tokens.len() && tokens[k] == id;
                    assert(self.cells@.contains_key(tokens[k]));
                }
            }
            assert forall|id: u128| self.cells@.contains_key(id) implies (
            #[trigger] self.cells@[id]).uuid == id by {
                let k = choose|k: int| 0 <= k < a && #[trigger] tokens[k] == id;
                assert(self.cells@[tokens[k]]@ == expected[k]);
            }
        }
        Ok(())
    }

    /// Records with each registered vertex that `vertices` names by its
    /// token the first registered cell in order that has it, or that no
    /// cell has it. Vertices that are not registered are passed over.
    pub fn assign_incident_cells(&mut self, vertices: Vec<Vertex<U, D>>) -> (outcome: Result<
        (),
        TriangulationError,
    >)
        requires
            old(self).wf(),
        ensures
            final(self).wf(),
            outcome is Ok,
            final(self).cells@ == old(self).cells@,
            final(self).cell_order@ == old(self).cell_order@,
            final(self).vertex_order@ == old(self).vertex_order@,
            forall|i: int|
                0 <= i < old(self).registered().len() ==> #[trigger] final(self).registered()[i]
                    == refreshed(
                    old(self).registered()[i],
                    has_token(vertices@, old(self).registered()[i].uuid),
                    incident(old(self).registered_cells(), old(self).registered()[i].uuid),
                ),
    {
        broadcast use vstd::std_specs::hash::group_hash_axioms;

        let cells = self.registered_cell_list();
        let ghost held = self.registered_cells();
        let mut i: usize = 0;
        while i < vertices.len()
            invariant
                self.wf(),
                self.cells@ == old(self).cells@,
                self.cell_order@ == old(self).cell_order@,
                self.vertex_order@ == old(self).vertex_order@,
                views_of(cells@) == held,
                held == old(self).registered_cells(),
                i <= vertices.len(),
                forall|id: u128| self.vertices@.contains_key(id) <==> old(self).vertices@.contains_key(id),
                forall|id: u128|
                    old(self).vertices@.contains_key(id) ==> #[trigger] self.vertices@[id]
                        == refreshed(
                        old(self).vertices@[id],
                        has_token(vertices@.take(i as int), id),
                        incident(held, id),
                    ),
            decreases vertices.len() - i,
        {
            let id: u128 = vertices[i].uuid;
            let found: Option<Vertex<U, D>> = match self.vertices.get(&id) {
                Some(vertex) => Some(*vertex),
                None => None,
            };
            let ghost before = self.vertices@;
            match found {
                Some(vertex) => {
                    let updated = Vertex {
                        point: vertex.point,
                        uuid: vertex.uuid,
                        incident_cell: incident_cell_of(&cells, id),
                        data: vertex.data,
                    };
                    self.vertices.insert(id, updated);
                },
                None => {},
            }
            proof {
                let shorter = vertices@.take(i as int);
                let longer = vertices@.take(i + 1);
                assert(longer[i as int].uuid == id);
                assert forall|key: u128| has_token(longer, key) <==> (key == id || has_token(
                    shorter,
                    key,
                )) by {
                    if has_token(shorter, key) {
                        let k = choose|k: int|
                            0 <= k < shorter.len() && (#[trigger] shorter[k]).uuid == key;
                        assert(longer[k].uuid == key);
                    }
                    if has_token(longer, key) && key != id {
                        let k = choose|k: int|
                            0 <= k < longer.len() && (#[trigger] longer[k]).uuid == key;
                        assert(shorter[k].uuid == key);
                    }
                }
                assert forall|key: u128| old(self).vertices@.contains_key(key) implies (
                #[trigger] self.vertices@[key]) == refreshed(
                    old(self).vertices@[key],
                    has_token(longer, key),
                    incident(held, key),
                ) by {
                    assert(before[key] == refreshed(
                        old(self).vertices@[key],
                        has_token(shorter, key),
                        incident(held, key),
                    ));
                    assert(old(self).vertices@[key].uuid == key);
                }
                assert forall|key: u128| self.vertices@.contains_key(key) implies (
                #[trigger] self.vertices@[key]).uuid == key by {
                    assert(old(self).vertices@[key].uuid == key);
                }
            }
            i += 1;
        }
        proof {
            assert(vertices@.take(i as int) =~= vertices@);
            assert forall|k: int| 0 <= k < old(self).registered().len() implies (
            #[trigger] self.registered()[k]) == refreshed(
                old(self).registered()[k],
                has_token(vertices@, old(self).registered()[k].uuid),
                incident(old(self).registered_cells(), old(self).registered()[k].uuid),
            ) by {
                let id = old(self).vertex_order@[k];
                assert(old(self).vertex_order@.contains(id));
                assert(old(self).vertices@[id].uuid == id);
            }
        }
        Ok(())
    }

    /// Builds the triangulation of the registered vertices and returns its
    /// cells. With at least `D + 1` vertices, the vertices are inserted in
    /// the order of their registration into the supercell, and the cells
    /// that keep a vertex of the supercell are dropped; with fewer there
    /// are no cells. The cells replace the registered ones, each with its
    /// neighbors, and each vertex records an incident cell. A failure
    /// leaves the registry as it was.
    pub fn bowyer_watson(&mut self) -> (built: Result<Vec<Cell<U, V, D>>, TriangulationError>)
        requires
            old(self).wf(),
            D < usize::MAX,
        ensures
            final(self).wf(),
            final(self).vertex_order@ == old(self).vertex_order@,
            match built {
                Ok(cells) => {
                    &&& views_of(cells@) == final(self).registered_cells()
                    &&& well_shaped(simplices_of(final(self).registered_cells()))
                    &&& drawn_from(
                        simplices_of(final(self).registered_cells()),
                        old(self).registered(),
                    )
                    &&& is_linked(final(self).registered_cells())
                    &&& final(self).registered() == marked(
                        old(self).registered(),
                        final(self).registered_cells(),
                    )
                    &&& if old(self).registered().len() <= D {
                        cells.len() == 0
                    } else {
                        &&& paddable(coordinates(old(self).registered()), D as int)
                        &&& raised_from(
                            old(self).registered(),
                            simplices_of(final(self).registered_cells()),
                        )
                        &&& always_raises(
                            old(self).registered(),
                            places(simplices_of(final(self).registered_cells())),
                        )
                    }
                },
                Err(e) => {
                    &&& e == TriangulationError::ArithmeticOverflow
                    &&& old(self).registered().len() > D
                    &&& !paddable(coordinates(old(self).registered()), D as int) || never_raises(
                        old(self).registered(),
                    )
                    &&& final(self).vertices@ == old(self).vertices@
                    &&& final(self).cells@ == old(self).cells@
                    &&& final(self).cell_order@ == old(self).cell_order@
                },
            },
    {
        let listed = self.registered_vertices();
        let ghost registered = self.registered();
        let built: Vec<Vec<Vertex<U, D>>> = if listed.len() <= D {
            Vec::new()
        } else {
            let scaffold = match self.supercell() {
                Ok(cell) => cell,
                Err(e) => {
                    return Err(e);
                },
            };
            assert(coordinates(scaffold.vertices@).len() == D + 1);
            match triangulate(&listed, &scaffold.vertices) {
                Ok(found) => {
                    proof {
                        self.lemma_registered_tokens();
                        lemma_supercell_tokens(registered, scaffold.vertices@);
                        law_cells_are_simplices_on_the_vertices(registered, scaffold.vertices@);
                        assert(raised_from(registered, simplices(found@)));
                        assert(always_raises(registered, places(simplices(found@)))) by {
                            assert forall|frame: Seq<Vertex<U, D>>| #[trigger]
                                is_supercell(frame, registered) implies triangulated(
                                registered,
                                frame,
                            ) is Some && places(triangulated(registered, frame).unwrap())
                                == places(simplices(found@)) by {
                                lemma_any_supercell_will_do(registered, scaffold.vertices@, frame);
                            }
                        }
                    }
                    found
                },
                Err(e) => {
                    proof {
                        self.lemma_registered_tokens();
                        assert(never_raises(registered)) by {
                            assert forall|frame: Seq<Vertex<U, D>>| #[trigger]
                                is_supercell(frame, registered) implies triangulated(
                                registered,
                                frame,
                            ) is None by {
                                lemma_any_supercell_will_do(registered, scaffold.vertices@, frame);
                            }
                        }
                    }
                    return Err(e);
                },
            }
        };
        assert(well_shaped(simplices(built@)) && drawn_from(simplices(built@), registered));
        assert(listed.len() > D ==> raised_from(registered, simplices(built@)) && always_raises(
            registered,
            places(simplices(built@)),
        ));
        let raw: Vec<Cell<U, V, D>> = cells_on(&built);
        let ghost given = views_of(raw@);
        match self.assign_neighbors(raw) {
            Ok(()) => {},
            Err(e) => {
                assert(false);
                return Err(e);
            },
        }
        let ghost linked_cells = self.registered_cells();
        proof {
            assert(simplices_of(linked_cells) =~= simplices_of(given));
            assert(tokens_of(linked_cells) =~= tokens_of(given));
            assert(simplices_of(given) =~= simplices(built@));
        }
        let _ = self.assign_incident_cells(listed);
        proof {
            assert(self.registered_cells() =~= linked_cells);
            assert(self.registered() =~= marked(registered, linked_cells)) by {
                assert forall|i: int| 0 <= i < registered.len() implies self.registered()[i]
                    == marked(registered, linked_cells)[i] by {
                    assert(has_token(listed@, registered[i].uuid)) by {
                        assert(listed@[i].uuid == registered[i].uuid);
                    }
                }
            }
        }
        Ok(self.registered_cell_list())
    }

    /// Whether the registered cells have the empty-circumsphere property
    /// for the registered vertices: no vertex lies strictly inside the
    /// circumsphere of a cell that it is not a vertex of. There is no
    /// answer where one of these tests cannot be decided.
    pub fn is_delaunay(&self) -> (holds: Option<bool>)
        requires
            self.wf(),
        ensures
            holds == if decided(simplices_of(self.registered_cells()), self.registered()) {
                Some(delaunay(simplices_of(self.registered_cells()), self.registered()))
            } else {
                None
            },
    {
        let cells = self.registered_cell_list();
        let vertices = self.registered_vertices();
        check_delaunay(&cells, &vertices)
    }
}

} // verus!
