use d_delaunay::delaunay_core::cell::Cell;
use d_delaunay::delaunay_core::error::TriangulationError;
use d_delaunay::delaunay_core::insertion::triangulate;
use d_delaunay::delaunay_core::matrix::determinant;
use d_delaunay::delaunay_core::point::Point;
use d_delaunay::delaunay_core::vertex::Vertex;

#[test]
fn determinant_of_small_matrices() {
    assert_eq!(determinant(&vec![]), Some(1));
    assert_eq!(determinant(&vec![vec![7]]), Some(7));
    assert_eq!(determinant(&vec![vec![1, 2], vec![3, 4]]), Some(-2));
    assert_eq!(
        determinant(&vec![vec![2, 0, 1], vec![1, 3, 2], vec![1, 1, 1]]),
        Some(0)
    );
    assert_eq!(
        determinant(&vec![vec![-1, -1, 2], vec![3, -1, 10], vec![-1, 3, 10]]),
        Some(96)
    );
}

#[test]
fn determinant_refuses_what_is_not_square_or_too_large() {
    assert_eq!(determinant(&vec![vec![1, 2], vec![3]]), None);
    assert_eq!(determinant(&vec![vec![i128::MAX, 1], vec![1, 2]]), None);
    assert_eq!(determinant(&vec![vec![i128::MIN]]), None);
    assert_eq!(determinant(&vec![vec![i128::MAX]]), Some(i128::MAX));
}

#[test]
fn determinant_goes_by_the_bound_on_its_magnitude() {
    let fits = vec![vec![1i128 << 62, 0], vec![0, 1i128 << 63]];
    assert_eq!(determinant(&fits), Some(1i128 << 125));
    let too_large = vec![vec![1i128 << 63, 0], vec![0, 1i128 << 63]];
    assert_eq!(determinant(&too_large), None);
    let zeros = vec![vec![0, 0, 0], vec![0, 0, 0], vec![0, 0, 0]];
    assert_eq!(determinant(&zeros), Some(0));
    let swapped = vec![vec![0, 1, 0], vec![1, 0, 0], vec![0, 0, 1]];
    assert_eq!(determinant(&swapped), Some(-1));
}

#[test]
fn circumsphere_of_a_triangle() {
    let a: Vertex<usize, 2> = Vertex::new(Point::new([0, 0]));
    let b: Vertex<usize, 2> = Vertex::new(Point::new([4, 0]));
    let c: Vertex<usize, 2> = Vertex::new(Point::new([0, 4]));
    let cell: Cell<usize, usize, 2> = Cell::new(vec![a, b, c]).unwrap();
    let inside: Vertex<usize, 2> = Vertex::new(Point::new([1, 1]));
    let on: Vertex<usize, 2> = Vertex::new(Point::new([4, 4]));
    let outside: Vertex<usize, 2> = Vertex::new(Point::new([5, 5]));
    assert_eq!(cell.circumsphere_contains(inside), Ok(true));
    assert_eq!(cell.circumsphere_contains(on), Ok(false));
    assert_eq!(cell.circumsphere_contains(outside), Ok(false));
    let turned: Cell<usize, usize, 2> = Cell::new(vec![a, c, b]).unwrap();
    assert_eq!(turned.circumsphere_contains(inside), Ok(true));
    assert_eq!(turned.circumsphere_contains(outside), Ok(false));
    let edge: Cell<usize, usize, 2> = Cell::new(vec![a, b]).unwrap();
    assert_eq!(
        edge.circumsphere_contains(inside),
        Err(TriangulationError::UndefinedCircumsphere)
    );
}

#[test]
fn triangulate_a_square() {
    let scaffold: Vec<Vertex<usize, 2>> = Vertex::from_points(vec![
        Point::new([-100, -100]),
        Point::new([300, -100]),
        Point::new([-100, 300]),
    ]);
    let vertices: Vec<Vertex<usize, 2>> = Vertex::from_points(vec![
        Point::new([0, 0]),
        Point::new([10, 0]),
        Point::new([0, 10]),
        Point::new([11, 11]),
    ]);
    let cells = triangulate(&vertices, &scaffold).unwrap();
    let corners: Vec<Vec<[i64; 2]>> = cells
        .iter()
        .map(|cell| cell.iter().map(|v| v.point.coords).collect())
        .collect();
    assert_eq!(cells.len(), 2);
    assert!(corners.iter().all(|c| c.len() == 3));
    let with_last: Vec<&Vec<[i64; 2]>> =
        corners.iter().filter(|c| c.contains(&[11, 11])).collect();
    assert_eq!(with_last.len(), 1);
    assert_eq!(with_last[0][2], [11, 11]);
    assert!(with_last[0].contains(&[10, 0]) && with_last[0].contains(&[0, 10]));
}

#[test]
fn circumsphere_of_a_tetrahedron() {
    let corners: Vec<Vertex<usize, 3>> = Vertex::from_points(vec![
        Point::new([0, 0, 1]),
        Point::new([0, 1, 0]),
        Point::new([1, 0, 0]),
        Point::new([1, 1, 1]),
    ]);
    let cell: Cell<usize, usize, 3> = Cell::new(corners.clone()).unwrap();
    let corner = corners[2];
    let far: Vertex<usize, 3> = Vertex::new(Point::new([2, 2, 2]));
    let on: Vertex<usize, 3> = Vertex::new(Point::new([0, 0, 0]));
    assert_eq!(cell.circumsphere_contains(corner), Ok(false));
    assert_eq!(cell.circumsphere_contains(far), Ok(false));
    assert_eq!(cell.circumsphere_contains(on), Ok(false));
    let wide: Cell<usize, usize, 3> = Cell::new(Vertex::from_points(vec![
        Point::new([0, 0, 0]),
        Point::new([4, 0, 0]),
        Point::new([0, 4, 0]),
        Point::new([0, 0, 4]),
    ]))
    .unwrap();
    let inside: Vertex<usize, 3> = Vertex::new(Point::new([1, 1, 1]));
    assert_eq!(wide.circumsphere_contains(inside), Ok(true));
}

#[test]
fn circumsphere_of_a_flat_cell_holds_nothing() {
    let cell: Cell<usize, usize, 2> = Cell::new(Vertex::from_points(vec![
        Point::new([0, 0]),
        Point::new([1, 1]),
        Point::new([2, 2]),
    ]))
    .unwrap();
    let near: Vertex<usize, 2> = Vertex::new(Point::new([1, 0]));
    assert_eq!(cell.circumsphere_contains(near), Ok(false));
}

#[test]
fn circumsphere_needs_coordinates_that_fit() {
    let cell: Cell<usize, usize, 2> = Cell::new(Vertex::from_points(vec![
        Point::new([0, 0]),
        Point::new([i64::MAX, 0]),
        Point::new([0, i64::MAX]),
    ]))
    .unwrap();
    let probe: Vertex<usize, 2> = Vertex::new(Point::new([1, 1]));
    assert_eq!(
        cell.circumsphere_contains(probe),
        Err(TriangulationError::ArithmeticOverflow)
    );
}

#[test]
fn triangulate_reports_what_it_cannot_decide() {
    let scaffold: Vec<Vertex<usize, 2>> = Vertex::from_points(vec![
        Point::new([i64::MIN, i64::MIN]),
        Point::new([i64::MAX, i64::MIN]),
        Point::new([i64::MIN, i64::MAX]),
    ]);
    let vertices: Vec<Vertex<usize, 2>> = Vertex::from_points(vec![Point::new([0, 0])]);
    assert_eq!(
        triangulate(&vertices, &scaffold).err(),
        Some(TriangulationError::ArithmeticOverflow)
    );
}
