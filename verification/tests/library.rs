use d_delaunay::delaunay_core::cell::Cell;
use d_delaunay::delaunay_core::facet::Facet;
use d_delaunay::delaunay_core::point::Point;
use d_delaunay::delaunay_core::triangulation_data_structure::Tds;
use d_delaunay::delaunay_core::utilities::{find_extreme_coordinates, fresh_uuid};
use d_delaunay::delaunay_core::vertex::{contains_token, copy_vertices, Vertex};
use d_delaunay::delaunay_core::error::TriangulationError;
use d_delaunay::is_normal;
use std::collections::HashMap;

#[test]
fn normal_types() {
    assert!(is_normal::<Point<3>>());
    assert!(is_normal::<Point<4>>());
    assert!(is_normal::<Vertex<Option<()>, 3>>());
    assert!(is_normal::<Facet<Option<()>, Option<()>, 3>>());
    assert!(is_normal::<Cell<Option<()>, Option<()>, 4>>());
    assert!(is_normal::<Tds<Option<()>, Option<()>, 4>>());
}

#[test]
fn point_holds_its_coordinates() {
    let point = Point::new([1, -2, 3, 4]);
    assert_eq!(point.coords, [1, -2, 3, 4]);
    assert_eq!(point.dim(), 4);
    assert!(point.same_coordinates(&Point::new([1, -2, 3, 4])));
    assert!(!point.same_coordinates(&Point::new([1, -2, 3, 5])));
    assert!(!point.same_coordinates(&Point::new([0, -2, 3, 4])));
    assert!(point == Point::new([1, -2, 3, 4]));
    assert!(point != Point::new([1, -2, 3, 5]));
}

#[test]
fn vertex_tokens_are_version_four_uuids() {
    let a: Vertex<usize, 2> = Vertex::new(Point::new([0, 0]));
    let b: Vertex<usize, 2> = Vertex::new_with_data(Point::new([0, 0]), 3);
    assert_eq!(a.uuid & 0xF000_C000_0000_0000_0000u128, 0x4000_8000_0000_0000_0000u128);
    assert_eq!(b.uuid & 0xF000_C000_0000_0000_0000u128, 0x4000_8000_0000_0000_0000u128);
    assert_ne!(a.uuid, b.uuid);
    assert_eq!(a.data, None);
    assert_eq!(b.data, Some(3));
    assert_eq!(a.incident_cell, None);
}

#[test]
fn fresh_token_avoids_the_taken_ones() {
    let mut taken: HashMap<u128, usize> = HashMap::new();
    for i in 0..200 {
        let id = fresh_uuid(&taken);
        assert!(!taken.contains_key(&id));
        taken.insert(id, i);
    }
    assert_eq!(taken.len(), 200);
}

#[test]
fn vertices_from_points_keep_the_order() {
    let vertices: Vec<Vertex<usize, 2>> =
        Vertex::from_points(vec![Point::new([5, 6]), Point::new([5, 6]), Point::new([7, 8])]);
    assert_eq!(vertices.len(), 3);
    assert_eq!(vertices[0].point.coords, [5, 6]);
    assert_eq!(vertices[1].point.coords, [5, 6]);
    assert_eq!(vertices[2].point.coords, [7, 8]);
    assert_ne!(vertices[0].uuid, vertices[1].uuid);
    assert_ne!(vertices[0].uuid, vertices[2].uuid);
    assert_ne!(vertices[1].uuid, vertices[2].uuid);
    let map = Vertex::into_hashmap(vertices.clone());
    assert_eq!(map.len(), 3);
    assert_eq!(map[&vertices[2].uuid].point.coords, [7, 8]);
    assert!(contains_token(&vertices, vertices[1].uuid));
    let copy = copy_vertices(&vertices);
    assert_eq!(copy.len(), 3);
    assert_eq!(copy[1].uuid, vertices[1].uuid);
}

#[test]
fn vertices_avoid_the_tokens_that_are_taken() {
    let first: Vec<Vertex<usize, 1>> = Vertex::from_points(vec![Point::new([1]), Point::new([2])]);
    let mut taken: HashMap<u128, usize> = HashMap::new();
    taken.insert(first[0].uuid, 0);
    taken.insert(first[1].uuid, 1);
    let second: Vec<Vertex<usize, 1>> =
        Vertex::from_points_avoiding(vec![Point::new([3])], &mut taken);
    assert_ne!(second[0].uuid, first[0].uuid);
    assert_ne!(second[0].uuid, first[1].uuid);
    assert_eq!(taken.len(), 3);
    assert!(taken.contains_key(&second[0].uuid));
}

#[test]
fn later_vertex_stays_under_a_shared_token() {
    let mut pair: Vec<Vertex<usize, 1>> = Vertex::from_points(vec![Point::new([1]), Point::new([2])]);
    pair[1].uuid = pair[0].uuid;
    let map = Vertex::into_hashmap(pair.clone());
    assert_eq!(map.len(), 1);
    assert_eq!(map[&pair[0].uuid].point.coords, [2]);
}

#[test]
fn extreme_coordinates() {
    let vertices: Vec<Vertex<usize, 3>> = Vertex::from_points(vec![
        Point::new([1, 20, -3]),
        Point::new([-4, 5, 6]),
        Point::new([7, 8, -9]),
    ]);
    assert_eq!(find_extreme_coordinates(&vertices, false), Ok([-4, 5, -9]));
    assert_eq!(find_extreme_coordinates(&vertices, true), Ok([7, 20, 6]));
    let none: Vec<Vertex<usize, 3>> = Vec::new();
    assert_eq!(
        find_extreme_coordinates(&none, false),
        Err(TriangulationError::DegenerateInput)
    );
    assert_eq!(
        find_extreme_coordinates(&none, true),
        Err(TriangulationError::DegenerateInput)
    );
}
