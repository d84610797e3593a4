use d_delaunay::delaunay_core::cell::{cells_on, Cell};
use d_delaunay::delaunay_core::error::TriangulationError;
use d_delaunay::delaunay_core::insertion::triangulate;
use d_delaunay::delaunay_core::point::Point;
use d_delaunay::delaunay_core::triangulation_data_structure::Tds;
use d_delaunay::delaunay_core::vertex::Vertex;
use std::collections::HashMap;

/// The corners of a simplex that holds the whole box from `low` to `high`
/// on every axis.
fn wide_corners<const D: usize>(low: i64, high: i64) -> Vec<Point<D>> {
    let mut corners = vec![Point::new([low; D])];
    for k in 0..D {
        let mut corner = [low; D];
        corner[k] = low + (D as i64) * (high - low);
        corners.push(Point::new(corner));
    }
    corners
}

/// Grows the cells of the registered vertices from a scaffold on the given
/// corners, and registers them with their neighbors and incident cells.
fn raise<const D: usize>(
    tds: &mut Tds<usize, usize, D>,
    corners: Vec<Point<D>>,
) -> Vec<Cell<usize, usize, D>> {
    let listed = tds.registered_vertices();
    let mut taken: HashMap<u128, usize> = HashMap::new();
    for (i, vertex) in listed.iter().enumerate() {
        taken.insert(vertex.uuid, i);
    }
    let scaffold = Vertex::from_points_avoiding(corners, &mut taken);
    let simplices = triangulate(&listed, &scaffold).unwrap();
    assert_eq!(tds.assign_neighbors(cells_on(&simplices)), Ok(()));
    assert_eq!(tds.assign_incident_cells(listed), Ok(()));
    tds.registered_cell_list()
}

#[test]
fn tds_new() {
    let points = vec![
        Point::new([1, 2, 3]),
        Point::new([4, 5, 6]),
        Point::new([7, 8, 9]),
        Point::new([10, 11, 12]),
    ];

    let tds: Tds<usize, usize, 3> = Tds::new(points);

    assert_eq!(tds.number_of_vertices(), 4);
    assert_eq!(tds.number_of_cells(), 0);
    assert_eq!(tds.dim(), 3);

    // Human readable output for cargo test -- --nocapture
    println!("{:?}", tds);
}

#[test]
fn tds_add_dim() {
    let points: Vec<Point<3>> = Vec::new();

    let mut tds: Tds<usize, usize, 3> = Tds::new(points);

    assert_eq!(tds.number_of_vertices(), 0);
    assert_eq!(tds.number_of_cells(), 0);
    assert_eq!(tds.dim(), -1);

    let new_vertex1: Vertex<usize, 3> = Vertex::new(Point::new([1, 2, 3]));
    let _ = tds.add(new_vertex1);
    assert_eq!(tds.number_of_vertices(), 1);
    assert_eq!(tds.dim(), 0);

    let new_vertex2: Vertex<usize, 3> = Vertex::new(Point::new([4, 5, 6]));
    let _ = tds.add(new_vertex2);
    assert_eq!(tds.number_of_vertices(), 2);
    assert_eq!(tds.dim(), 1);

    let new_vertex3: Vertex<usize, 3> = Vertex::new(Point::new([7, 8, 9]));
    let _ = tds.add(new_vertex3);
    assert_eq!(tds.number_of_vertices(), 3);
    assert_eq!(tds.dim(), 2);

    let new_vertex4: Vertex<usize, 3> = Vertex::new(Point::new([10, 11, 12]));
    let _ = tds.add(new_vertex4);
    assert_eq!(tds.number_of_vertices(), 4);
    assert_eq!(tds.dim(), 3);

    let new_vertex5: Vertex<usize, 3> = Vertex::new(Point::new([13, 14, 15]));
    let _ = tds.add(new_vertex5);
    assert_eq!(tds.number_of_vertices(), 5);
    assert_eq!(tds.dim(), 3);
}

#[test]
fn tds_no_add() {
    let points = vec![
        Point::new([1, 2, 3]),
        Point::new([4, 5, 6]),
        Point::new([7, 8, 9]),
        Point::new([10, 11, 12]),
    ];

    let mut tds: Tds<usize, usize, 3> = Tds::new(points);

    assert_eq!(tds.number_of_vertices(), 4);
    assert_eq!(tds.cells.len(), 0);
    assert_eq!(tds.dim(), 3);

    let new_vertex1: Vertex<usize, 3> = Vertex::new(Point::new([1, 2, 3]));
    let result = tds.add(new_vertex1);
    assert_eq!(tds.number_of_vertices(), 4);
    assert_eq!(tds.dim(), 3);

    assert!(result.is_err());
}

#[test]
fn tds_supercell() {
    let points = vec![
        Point::new([1, 2, 3]),
        Point::new([4, 5, 6]),
        Point::new([7, 8, 9]),
        Point::new([10, 11, 12]),
    ];

    let tds: Tds<usize, usize, 3> = Tds::new(points);

    let supercell = tds.supercell();
    let unwrapped_supercell =
        supercell.unwrap_or_else(|err| panic!("Error creating supercell: {:?}", err));

    assert_eq!(unwrapped_supercell.vertices.len(), 4);
    assert!(unwrapped_supercell
        .vertices
        .iter()
        .any(|v| { v.point.coords == [-9, -8, -7] }));

    // Human readable output for cargo test -- --nocapture
    println!("{:?}", unwrapped_supercell);
}

#[test]
fn tds_bowyer_watson() {
    let points = vec![
        Point::new([1, 2, 3]),
        Point::new([4, 5, 6]),
        Point::new([7, 8, 9]),
        Point::new([10, 11, 12]),
    ];

    let mut tds: Tds<usize, usize, 3> = Tds::new(points);

    let cells = tds.bowyer_watson();
    let unwrapped_cells = cells.unwrap_or_else(|err| panic!("Error creating cells: {:?}", err));

    assert_eq!(unwrapped_cells.len(), 0);

    // Human readable output for cargo test -- --nocapture
    println!("{:?}", unwrapped_cells);
}

#[test]
fn regular_tetrahedron_is_one_isolated_cell() {
    let points = vec![
        Point::new([0, 0, 1]),
        Point::new([0, 1, 0]),
        Point::new([1, 0, 0]),
        Point::new([1, 1, 1]),
    ];
    let mut tds: Tds<usize, usize, 3> = Tds::new(points);
    let cells: Vec<Cell<usize, usize, 3>> = raise(&mut tds, wide_corners(-10, 11));
    assert_eq!(cells.len(), 1);
    assert_eq!(tds.number_of_vertices(), 4);
    assert_eq!(tds.number_of_cells(), 1);
    assert_eq!(tds.dim(), 3);
    assert_eq!(cells[0].number_of_vertices(), 4);
    assert_eq!(cells[0].dim(), 3);
    assert!(cells[0].neighbors.is_none());
    assert_eq!(tds.is_delaunay(), Some(true));
    for vertex in tds.vertices.values() {
        assert_eq!(vertex.incident_cell, Some(cells[0].uuid));
        assert!(cells[0].vertices.iter().any(|v| v.uuid == vertex.uuid));
    }
}

#[test]
fn regular_tetrahedron_lies_outside_its_supercell() {
    let points = vec![
        Point::new([0, 0, 1]),
        Point::new([0, 1, 0]),
        Point::new([1, 0, 0]),
        Point::new([1, 1, 1]),
    ];
    let mut tds: Tds<usize, usize, 3> = Tds::new(points);
    let corners: Vec<[i64; 3]> = tds
        .supercell()
        .unwrap()
        .vertices
        .iter()
        .map(|v| v.point.coords)
        .collect();
    assert_eq!(
        corners,
        vec![[-10, -10, -10], [11, -10, -10], [-10, 11, -10], [-10, -10, 11]]
    );
    // The corners span the part of space with x + y + z <= -9.
    for vertex in tds.vertices.values() {
        let c = vertex.point.coords;
        assert!(c[0] + c[1] + c[2] > -9);
    }
    let cells = tds.bowyer_watson().unwrap();
    assert_eq!(cells.len(), 0);
    assert_eq!(tds.number_of_cells(), 0);
    assert_eq!(tds.dim(), 3);
}

#[test]
fn a_vertex_can_lie_in_a_circumsphere_of_the_result() {
    let mut tds: Tds<usize, usize, 2> = Tds::new(vec![
        Point::new([5, 8]),
        Point::new([7, 0]),
        Point::new([7, 8]),
        Point::new([2, 11]),
    ]);
    let cells = tds.bowyer_watson().unwrap();
    let corners: Vec<Vec<[i64; 2]>> = cells
        .iter()
        .map(|c| c.vertices.iter().map(|v| v.point.coords).collect())
        .collect();
    assert_eq!(corners, vec![vec![[7, 0], [7, 8], [2, 11]]]);
    let listed = tds.registered_vertices();
    assert_eq!(cells[0].circumsphere_contains(listed[0]), Ok(true));
    assert_eq!(tds.is_delaunay(), Some(false));

    let grown = raise(&mut tds, wide_corners(-10, 21));
    assert_eq!(grown.len(), 3);
    assert_eq!(tds.is_delaunay(), Some(true));
}

#[test]
fn bowyer_watson_overflow_is_reported() {
    let points = vec![
        Point::new([i64::MAX, 0]),
        Point::new([0, 1]),
        Point::new([1, 0]),
    ];
    let mut tds: Tds<usize, usize, 2> = Tds::new(points);
    assert_eq!(
        tds.bowyer_watson().err(),
        Some(TriangulationError::ArithmeticOverflow)
    );
    assert_eq!(tds.number_of_cells(), 0);
}

fn pseudo_random(state: &mut u64, below: u64) -> i64 {
    *state = state
        .wrapping_mul(6364136223846793005)
        .wrapping_add(1442695040888963407);
    ((*state >> 33) % below) as i64
}

fn neighbors_are_mutual<const D: usize>(tds: &Tds<usize, usize, D>) -> bool {
    for cell in tds.cells.values() {
        if let Some(list) = &cell.neighbors {
            for (i, entry) in list.iter().enumerate() {
                if let Some(other) = entry {
                    let back = &tds.cells[other];
                    let found = match &back.neighbors {
                        Some(theirs) => theirs.iter().enumerate().any(|(j, e)| {
                            *e == Some(cell.uuid)
                                && !cell.vertices.iter().any(|v| v.uuid == back.vertices[j].uuid)
                        }),
                        None => false,
                    };
                    if !found || back.vertices.iter().any(|v| v.uuid == cell.vertices[i].uuid) {
                        return false;
                    }
                }
            }
        }
    }
    true
}

#[test]
fn collinear_points_register_without_cells() {
    let points = vec![
        Point::new([1, 2, 3]),
        Point::new([4, 5, 6]),
        Point::new([7, 8, 9]),
        Point::new([10, 11, 12]),
    ];
    let mut tds: Tds<usize, usize, 3> = Tds::new(points);
    assert_eq!(tds.number_of_vertices(), 4);
    assert_eq!(tds.dim(), 3);
    assert_eq!(tds.number_of_cells(), 0);
    let cells = tds.bowyer_watson().unwrap();
    assert_eq!(cells.len(), 0);
    assert_eq!(tds.number_of_cells(), 0);
    assert_eq!(tds.is_delaunay(), Some(true));
}

#[test]
fn dimension_follows_the_number_of_vertices() {
    let mut tds: Tds<usize, usize, 2> = Tds::new(Vec::new());
    let expected = [-1, 0, 1, 2, 2, 2];
    assert_eq!(tds.dim(), expected[0]);
    for n in 1..6 {
        let vertex: Vertex<usize, 2> = Vertex::new(Point::new([n as i64, 0]));
        assert_eq!(tds.add(vertex), Ok(()));
        assert_eq!(tds.number_of_vertices(), n);
        assert_eq!(tds.dim(), expected[n]);
    }
}

#[test]
fn registration_counts_distinct_points() {
    let offered = [[1, 1], [2, 2], [1, 1], [3, 3], [2, 2], [1, 1]];
    let mut tds: Tds<usize, usize, 2> = Tds::new(Vec::new());
    let mut refused = 0;
    for p in offered.iter() {
        let vertex: Vertex<usize, 2> = Vertex::new(Point::new(*p));
        match tds.add(vertex) {
            Ok(()) => {}
            Err(e) => {
                assert_eq!(e, TriangulationError::DuplicateCoordinates);
                refused += 1;
            }
        }
    }
    assert_eq!(tds.number_of_vertices(), 3);
    assert_eq!(refused, 3);
    assert_eq!(tds.vertex_order.len(), 3);
}

#[test]
fn construction_keeps_points_that_occur_twice() {
    let tds: Tds<usize, usize, 2> =
        Tds::new(vec![Point::new([1, 1]), Point::new([1, 1]), Point::new([2, 2])]);
    assert_eq!(tds.number_of_vertices(), 3);
    let listed = tds.registered_vertices();
    assert_eq!(listed[0].point.coords, [1, 1]);
    assert_eq!(listed[1].point.coords, [1, 1]);
    assert_eq!(listed[2].point.coords, [2, 2]);
}

#[test]
fn add_refuses_a_token_in_use() {
    let mut tds: Tds<usize, usize, 2> = Tds::new(vec![Point::new([1, 1])]);
    let held = tds.registered_vertices()[0];
    let mut twin: Vertex<usize, 2> = Vertex::new(Point::new([5, 5]));
    twin.uuid = held.uuid;
    assert_eq!(tds.add(twin), Err(TriangulationError::IdentityCollision));
    assert_eq!(tds.number_of_vertices(), 1);
    assert_eq!(tds.vertices[&held.uuid].point.coords, [1, 1]);
    twin.point = Point::new([1, 1]);
    assert_eq!(tds.add(twin), Err(TriangulationError::DuplicateCoordinates));
}

#[test]
fn supercell_corners() {
    let points = vec![
        Point::new([1, 2, 3]),
        Point::new([4, 5, 6]),
        Point::new([7, 8, 9]),
        Point::new([10, 11, 12]),
    ];
    let tds: Tds<usize, usize, 3> = Tds::new(points);
    let supercell = tds.supercell().unwrap();
    let corners: Vec<[i64; 3]> = supercell.vertices.iter().map(|v| v.point.coords).collect();
    assert_eq!(
        corners,
        vec![[-9, -8, -7], [20, -8, -7], [-9, 21, -7], [-9, -8, 22]]
    );
    assert!(supercell.neighbors.is_none());
    assert!(supercell.data.is_none());
    for vertex in tds.vertices.values() {
        assert!(!supercell.vertices.iter().any(|v| v.uuid == vertex.uuid));
        for k in 0..3 {
            assert!(corners[0][k] + 10 <= vertex.point.coords[k]);
            assert!(vertex.point.coords[k] + 10 <= corners[k + 1][k]);
        }
    }
    let low = [1, 2, 3];
    let high = [10, 11, 12];
    for corner in corners.iter() {
        for k in 0..3 {
            assert!(corner[k] <= low[k] - 10 || corner[k] >= high[k] + 10);
        }
    }
}

#[test]
fn supercell_of_two_points_in_the_plane() {
    let tds: Tds<usize, usize, 2> = Tds::new(vec![Point::new([-5, -5]), Point::new([5, 5])]);
    let corners: Vec<[i64; 2]> = tds
        .supercell()
        .unwrap()
        .vertices
        .iter()
        .map(|v| v.point.coords)
        .collect();
    assert_eq!(corners, vec![[-15, -15], [15, -15], [-15, 15]]);
}

#[test]
fn supercell_of_nothing_is_refused() {
    let tds: Tds<usize, usize, 3> = Tds::new(Vec::new());
    assert_eq!(tds.supercell().err(), Some(TriangulationError::DegenerateInput));
}

#[test]
fn supercell_needs_room_in_the_coordinates() {
    let low: Tds<usize, usize, 2> = Tds::new(vec![Point::new([i64::MIN + 9, 0])]);
    assert_eq!(low.supercell().err(), Some(TriangulationError::ArithmeticOverflow));
    let high: Tds<usize, usize, 2> = Tds::new(vec![Point::new([0, i64::MAX - 9])]);
    assert_eq!(high.supercell().err(), Some(TriangulationError::ArithmeticOverflow));
    let near: Tds<usize, usize, 2> = Tds::new(vec![Point::new([0, i64::MAX - 29])]);
    assert!(near.supercell().is_ok());
    let fits: Tds<usize, usize, 2> = Tds::new(vec![Point::new([i64::MIN + 10, i64::MAX - 10])]);
    let corners: Vec<[i64; 2]> = fits
        .supercell()
        .unwrap()
        .vertices
        .iter()
        .map(|v| v.point.coords)
        .collect();
    assert_eq!(
        corners,
        vec![
            [i64::MIN, i64::MAX - 20],
            [i64::MIN + 20, i64::MAX - 20],
            [i64::MIN, i64::MAX]
        ]
    );
}

#[test]
fn too_few_vertices_give_no_cells() {
    let mut tds: Tds<usize, usize, 3> =
        Tds::new(vec![Point::new([0, 0, 0]), Point::new([1, 0, 0]), Point::new([0, 1, 0])]);
    assert_eq!(tds.bowyer_watson().unwrap().len(), 0);
    let mut empty: Tds<usize, usize, 3> = Tds::new(Vec::new());
    assert_eq!(empty.bowyer_watson().unwrap().len(), 0);
    assert_eq!(empty.number_of_cells(), 0);
}

#[test]
fn square_gives_two_triangles_that_are_neighbors() {
    let points = vec![
        Point::new([0, 0]),
        Point::new([10, 0]),
        Point::new([0, 10]),
        Point::new([11, 11]),
    ];
    let mut tds: Tds<usize, usize, 2> = Tds::new(points);
    let cells = tds.bowyer_watson().unwrap();
    assert_eq!(cells.len(), 2);
    assert_eq!(tds.number_of_cells(), 2);
    assert_ne!(cells[0].uuid, cells[1].uuid);
    for (mine, other) in [(0, 1), (1, 0)] {
        let list = cells[mine].neighbors.clone().unwrap();
        assert_eq!(list.len(), 3);
        let named: Vec<usize> = (0..3).filter(|i| list[*i].is_some()).collect();
        assert_eq!(named.len(), 1);
        assert_eq!(list[named[0]], Some(cells[other].uuid));
        let opposite = cells[mine].vertices[named[0]].uuid;
        assert!(!cells[other].vertices.iter().any(|v| v.uuid == opposite));
    }
    assert!(neighbors_are_mutual(&tds));
    assert_eq!(tds.is_delaunay(), Some(true));
    let listed = tds.registered_vertices();
    for vertex in listed.iter() {
        let first = cells
            .iter()
            .find(|c| c.vertices.iter().any(|v| v.uuid == vertex.uuid))
            .map(|c| c.uuid);
        assert_eq!(vertex.incident_cell, first);
        assert!(first.is_some());
    }
    assert_eq!(tds.cell_order, vec![cells[0].uuid, cells[1].uuid]);
}

#[test]
fn the_same_points_give_the_same_cells() {
    let raw = [[0, 0], [7, 1], [3, 9], [8, 8], [4, 4], [1, 6]];
    let mut seen: Vec<Vec<Vec<[i64; 2]>>> = Vec::new();
    for _ in 0..3 {
        let mut tds: Tds<usize, usize, 2> = Tds::new(raw.iter().map(|p| Point::new(*p)).collect());
        let cells = tds.bowyer_watson().unwrap();
        seen.push(
            cells
                .iter()
                .map(|c| c.vertices.iter().map(|v| v.point.coords).collect())
                .collect(),
        );
    }
    assert_eq!(seen[0].len(), 3);
    assert_eq!(seen[0], seen[1]);
    assert_eq!(seen[0], seen[2]);
}

#[test]
fn triangulations_of_the_plane_are_delaunay() {
    let mut state: u64 = 12345;
    for round in 0..200 {
        let n = 3 + (round % 6);
        let points: Vec<Point<2>> = (0..n)
            .map(|_| Point::new([pseudo_random(&mut state, 5), pseudo_random(&mut state, 5)]))
            .collect();
        let mut tds: Tds<usize, usize, 2> = Tds::new(points);
        let cells = raise(&mut tds, wide_corners(-10, 14));
        assert_eq!(tds.number_of_cells(), cells.len());
        assert!(cells.iter().all(|c| c.number_of_vertices() == 3));
        assert_eq!(tds.is_delaunay(), Some(true));
        assert!(neighbors_are_mutual(&tds));
    }
}

#[test]
fn triangulations_of_space_are_delaunay() {
    let mut state: u64 = 777;
    for round in 0..60 {
        let n = 4 + (round % 5);
        let points: Vec<Point<3>> = (0..n)
            .map(|_| {
                Point::new([
                    pseudo_random(&mut state, 50),
                    pseudo_random(&mut state, 50),
                    pseudo_random(&mut state, 50),
                ])
            })
            .collect();
        let mut tds: Tds<usize, usize, 3> = Tds::new(points);
        let cells = raise(&mut tds, wide_corners(-10, 59));
        assert!(cells.iter().all(|c| c.number_of_vertices() == 4));
        assert_eq!(tds.is_delaunay(), Some(true));
        assert!(neighbors_are_mutual(&tds));
    }
}

#[test]
fn a_crossing_diagonal_is_not_delaunay() {
    let mut tds: Tds<usize, usize, 2> = Tds::new(vec![
        Point::new([0, 0]),
        Point::new([10, 0]),
        Point::new([0, 10]),
        Point::new([6, 6]),
    ]);
    let listed = tds.registered_vertices();
    let wide: Cell<usize, usize, 2> = Cell::new(vec![listed[0], listed[1], listed[2]]).unwrap();
    assert_eq!(tds.assign_neighbors(vec![wide]), Ok(()));
    assert_eq!(tds.number_of_cells(), 1);
    assert_eq!(tds.is_delaunay(), Some(false));
    let cells = raise(&mut tds, wide_corners(-10, 20));
    assert_eq!(cells.len(), 2);
    assert_eq!(tds.is_delaunay(), Some(true));
}

#[test]
fn assign_neighbors_refuses_cells_with_one_token() {
    let mut tds: Tds<usize, usize, 1> = Tds::new(vec![Point::new([0]), Point::new([1])]);
    let listed = tds.registered_vertices();
    let first: Cell<usize, usize, 1> = Cell::new(vec![listed[0], listed[1]]).unwrap();
    let mut second: Cell<usize, usize, 1> = Cell::new(vec![listed[1], listed[0]]).unwrap();
    second.uuid = first.uuid;
    assert_eq!(
        tds.assign_neighbors(vec![first, second]),
        Err(TriangulationError::IdentityCollision)
    );
    assert_eq!(tds.number_of_cells(), 0);
}

#[test]
fn three_cells_on_one_facet_are_not_mutual() {
    let mut tds: Tds<usize, usize, 2> = Tds::new(vec![
        Point::new([0, 0]),
        Point::new([4, 0]),
        Point::new([2, 3]),
        Point::new([2, -3]),
        Point::new([2, 5]),
    ]);
    let v = tds.registered_vertices();
    let a: Cell<usize, usize, 2> = Cell::new(vec![v[0], v[1], v[2]]).unwrap();
    let b: Cell<usize, usize, 2> = Cell::new(vec![v[0], v[1], v[3]]).unwrap();
    let c: Cell<usize, usize, 2> = Cell::new(vec![v[0], v[1], v[4]]).unwrap();
    let (ia, ib, ic) = (a.uuid, b.uuid, c.uuid);
    assert_eq!(tds.assign_neighbors(vec![a, b, c]), Ok(()));
    assert_eq!(tds.cells[&ia].neighbors, Some(vec![None, None, Some(ib)]));
    assert_eq!(tds.cells[&ib].neighbors, Some(vec![None, None, Some(ia)]));
    assert_eq!(tds.cells[&ic].neighbors, Some(vec![None, None, Some(ia)]));
    assert!(!neighbors_are_mutual(&tds));
}

#[test]
fn incident_cells_of_the_named_vertices_only() {
    let mut tds: Tds<usize, usize, 1> =
        Tds::new(vec![Point::new([0]), Point::new([1]), Point::new([2])]);
    let v = tds.registered_vertices();
    let left: Cell<usize, usize, 1> = Cell::new(vec![v[0], v[1]]).unwrap();
    let right: Cell<usize, usize, 1> = Cell::new(vec![v[1], v[2]]).unwrap();
    let (il, ir) = (left.uuid, right.uuid);
    assert_eq!(tds.assign_neighbors(vec![left, right]), Ok(()));
    assert_eq!(tds.cells[&il].neighbors, Some(vec![Some(ir), None]));
    assert_eq!(tds.cells[&ir].neighbors, Some(vec![None, Some(il)]));
    let stranger: Vertex<usize, 1> = Vertex::new(Point::new([9]));
    assert_eq!(tds.assign_incident_cells(vec![v[1], v[2], stranger]), Ok(()));
    assert_eq!(tds.vertices[&v[0].uuid].incident_cell, None);
    assert_eq!(tds.vertices[&v[1].uuid].incident_cell, Some(il));
    assert_eq!(tds.vertices[&v[2].uuid].incident_cell, Some(ir));
    assert_eq!(tds.number_of_vertices(), 3);
    let copies = tds.registered_cell_list();
    assert_eq!(copies.len(), 2);
    assert_eq!(copies[0].uuid, il);
    assert_eq!(copies[1].uuid, ir);
}

#[test]
fn triangulations_of_the_line_are_delaunay() {
    let mut tds: Tds<usize, usize, 1> = Tds::new(vec![
        Point::new([5]),
        Point::new([-3]),
        Point::new([9]),
        Point::new([0]),
    ]);
    let cells = tds.bowyer_watson().unwrap();
    let mut spans: Vec<[i64; 2]> = cells
        .iter()
        .map(|c| {
            let a = c.vertices[0].point.coords[0];
            let b = c.vertices[1].point.coords[0];
            [a.min(b), a.max(b)]
        })
        .collect();
    spans.sort();
    assert_eq!(spans, vec![[-3, 0], [0, 5], [5, 9]]);
    assert_eq!(tds.is_delaunay(), Some(true));
    assert!(neighbors_are_mutual(&tds));
}

#[test]
fn triangulations_of_four_dimensions_are_delaunay() {
    let mut state: u64 = 4242;
    for round in 0..8 {
        let n = 5 + (round % 3);
        let points: Vec<Point<4>> = (0..n)
            .map(|_| {
                Point::new([
                    pseudo_random(&mut state, 30),
                    pseudo_random(&mut state, 30),
                    pseudo_random(&mut state, 30),
                    pseudo_random(&mut state, 30),
                ])
            })
            .collect();
        let mut tds: Tds<usize, usize, 4> = Tds::new(points);
        let cells = raise(&mut tds, wide_corners(-10, 39));
        assert!(cells.iter().all(|c| c.number_of_vertices() == 5));
        assert_eq!(tds.dim(), 4);
        assert_eq!(tds.is_delaunay(), Some(true));
        assert!(neighbors_are_mutual(&tds));
    }
}

#[test]
fn neighbors_of_the_result_need_not_be_mutual() {
    let raw = [[10, 2], [9, 1], [2, 10], [8, 10], [11, 13], [13, 2], [1, 7]];
    let mut tds: Tds<usize, usize, 2> = Tds::new(raw.iter().map(|p| Point::new(*p)).collect());
    let cells = tds.bowyer_watson().unwrap();
    let on_one_edge = cells
        .iter()
        .filter(|c| {
            c.vertices.iter().any(|v| v.point.coords == [8, 10])
                && c.vertices.iter().any(|v| v.point.coords == [1, 7])
        })
        .count();
    assert_eq!(cells.len(), 7);
    assert_eq!(on_one_edge, 3);
    assert!(!neighbors_are_mutual(&tds));

    let grown = raise(&mut tds, wide_corners(-10, 23));
    assert!(grown.len() >= 5);
    assert_eq!(tds.is_delaunay(), Some(true));
    assert!(neighbors_are_mutual(&tds));
}

#[test]
fn registry_default_and_clone() {
    let empty: Tds<usize, usize, 2> = Tds::default();
    assert_eq!(empty.number_of_vertices(), 0);
    assert_eq!(empty.number_of_cells(), 0);
    assert_eq!(empty.dim(), -1);

    let mut tds: Tds<usize, usize, 2> = Tds::new(vec![
        Point::new([0, 0]),
        Point::new([10, 0]),
        Point::new([0, 10]),
        Point::new([11, 11]),
    ]);
    let cells = tds.bowyer_watson().unwrap();
    let copy = tds.clone();
    assert_eq!(copy.vertex_order, tds.vertex_order);
    assert_eq!(copy.cell_order, tds.cell_order);
    assert_eq!(copy.number_of_vertices(), 4);
    assert_eq!(copy.number_of_cells(), cells.len());
    for (token, cell) in tds.cells.iter() {
        let other = &copy.cells[token];
        assert_eq!(other.uuid, cell.uuid);
        assert_eq!(other.neighbors, cell.neighbors);
        assert_eq!(other.vertices.len(), cell.vertices.len());
    }
    for (token, vertex) in tds.vertices.iter() {
        assert_eq!(copy.vertices[token].point.coords, vertex.point.coords);
        assert_eq!(copy.vertices[token].incident_cell, vertex.incident_cell);
    }
}
