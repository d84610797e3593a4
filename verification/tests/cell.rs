use d_delaunay::delaunay_core::cell::{cells_on, Cell};
use d_delaunay::delaunay_core::error::TriangulationError;
use d_delaunay::delaunay_core::facet::Facet;
use d_delaunay::delaunay_core::point::Point;
use d_delaunay::delaunay_core::vertex::Vertex;

#[test]
fn make_cell_with_data() {
    let vertex1 = Vertex::new_with_data(Point::new([1, 2, 3]), "3D");
    let cell = Cell::new_with_data(vec![vertex1], 10).unwrap();

    assert_eq!(cell.vertices[0].point.coords[0], 1);
    assert_eq!(cell.vertices[0].point.coords[1], 2);
    assert_eq!(cell.vertices[0].point.coords[2], 3);
    assert_eq!(cell.vertices[0].data.unwrap(), "3D");
    assert_eq!(cell.dim(), 0);
    assert_eq!(cell.number_of_vertices(), 1);
    assert!(cell.neighbors.is_none());
    assert!(cell.data.is_some());
    assert_eq!(cell.data.unwrap(), 10);

    // Human readable output for cargo test -- --nocapture
    println!("Cell: {:?}", cell);
}

#[test]
fn make_cell_without_data() {
    let vertex1 = Vertex::new_with_data(Point::new([1, 2, 3]), "3D");
    let cell: Cell<&str, Option<()>, 3> = Cell::new(vec![vertex1]).unwrap();

    assert_eq!(cell.vertices[0].point.coords[0], 1);
    assert_eq!(cell.vertices[0].point.coords[1], 2);
    assert_eq!(cell.vertices[0].point.coords[2], 3);
    assert_eq!(cell.vertices[0].data.unwrap(), "3D");
    assert_eq!(cell.dim(), 0);
    assert_eq!(cell.number_of_vertices(), 1);
    assert!(cell.neighbors.is_none());
    assert!(cell.data.is_none());

    // Human readable output for cargo test -- --nocapture
    println!("Cell: {:?}", cell);
}

#[test]
fn cell_dimension_is_one_less_than_its_vertices() {
    let corners: Vec<Vertex<usize, 3>> = Vertex::from_points(vec![
        Point::new([0, 0, 0]),
        Point::new([1, 0, 0]),
        Point::new([0, 1, 0]),
        Point::new([0, 0, 1]),
    ]);
    let cell: Cell<usize, usize, 3> = Cell::new(corners).unwrap();
    assert_eq!(cell.number_of_vertices(), 4);
    assert_eq!(cell.dim(), 3);
    assert_eq!(
        cell.uuid & 0xF000_C000_0000_0000_0000u128,
        0x4000_8000_0000_0000_0000u128
    );
}

#[test]
fn cell_with_too_many_vertices_is_refused() {
    let corners: Vec<Vertex<usize, 2>> = Vertex::from_points(vec![
        Point::new([0, 0]),
        Point::new([1, 0]),
        Point::new([0, 1]),
        Point::new([1, 1]),
    ]);
    let plain: Result<Cell<usize, usize, 2>, TriangulationError> = Cell::new(corners.clone());
    assert_eq!(plain.err(), Some(TriangulationError::TooManyVertices));
    let with_data: Result<Cell<usize, usize, 2>, TriangulationError> =
        Cell::new_with_data(corners, 7);
    assert_eq!(with_data.err(), Some(TriangulationError::TooManyVertices));
}

#[test]
fn cell_with_no_vertices_is_accepted() {
    let cell: Cell<usize, usize, 2> = Cell::new(Vec::new()).unwrap();
    assert_eq!(cell.number_of_vertices(), 0);
}

#[test]
fn cell_clone_holds_the_same() {
    let corners: Vec<Vertex<usize, 2>> =
        Vertex::from_points(vec![Point::new([0, 0]), Point::new([1, 0]), Point::new([0, 1])]);
    let mut cell: Cell<usize, usize, 2> = Cell::new_with_data(corners, 5).unwrap();
    cell.neighbors = Some(vec![Some(3), None, Some(9)]);
    let copy = cell.clone();
    assert_eq!(copy.uuid, cell.uuid);
    assert_eq!(copy.neighbors, Some(vec![Some(3), None, Some(9)]));
    assert_eq!(copy.data, Some(5));
    assert_eq!(copy.vertices.len(), 3);
    for i in 0..3 {
        assert_eq!(copy.vertices[i].uuid, cell.vertices[i].uuid);
        assert_eq!(copy.vertices[i].point.coords, cell.vertices[i].point.coords);
    }
}

#[test]
fn cells_on_simplices_have_different_tokens() {
    let a: Vec<Vertex<usize, 1>> = Vertex::from_points(vec![Point::new([0]), Point::new([1])]);
    let b: Vec<Vertex<usize, 1>> = Vertex::from_points(vec![Point::new([1]), Point::new([2])]);
    let cells: Vec<Cell<usize, usize, 1>> = cells_on(&vec![a, b]);
    assert_eq!(cells.len(), 2);
    assert_ne!(cells[0].uuid, cells[1].uuid);
    assert_eq!(cells[0].vertices[1].point.coords, [1]);
    assert_eq!(cells[1].vertices[1].point.coords, [2]);
    assert!(cells[0].neighbors.is_none() && cells[0].data.is_none());
}

#[test]
fn facet_lists_the_other_vertices() {
    let corners: Vec<Vertex<usize, 2>> =
        Vertex::from_points(vec![Point::new([0, 0]), Point::new([1, 0]), Point::new([0, 1])]);
    let opposite = corners[1];
    let cell: Cell<usize, usize, 2> = Cell::new(corners).unwrap();
    let facet = Facet::new(cell, opposite);
    let on = facet.vertices();
    assert_eq!(on.len(), 2);
    assert_eq!(on[0].point.coords, [0, 0]);
    assert_eq!(on[1].point.coords, [0, 1]);
}

#[test]
fn error_messages() {
    assert_eq!(TriangulationError::DuplicateCoordinates.message(), "Vertex already exists");
    assert_eq!(TriangulationError::IdentityCollision.message(), "Uuid already exists");
    assert_eq!(
        TriangulationError::TooManyVertices.message(),
        "Too many vertices for the dimension"
    );
    assert_eq!(
        TriangulationError::UndefinedCircumsphere.message(),
        "Circumsphere of a non-maximal cell"
    );
    assert_eq!(TriangulationError::DegenerateInput.message(), "No vertices to bound");
    assert_eq!(TriangulationError::ArithmeticOverflow.message(), "Coordinates too large");
}
