//! The triangulation data structure and the types it is built from.

pub mod adjacency;
pub mod cell;
pub mod error;
pub mod facet;
pub mod insertion;
pub mod linear;
pub mod matrix;
pub mod point;
pub mod reproducible;
pub mod sphere;
pub mod triangulation_data_structure;
pub mod utilities;
pub mod vertex;

pub use cell::Cell;
pub use error::TriangulationError;
pub use facet::Facet;
pub use point::Point;
pub use triangulation_data_structure::Tds;
pub use vertex::Vertex;
