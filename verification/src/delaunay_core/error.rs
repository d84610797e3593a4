//! The conditions that the triangulation reports to its caller.

use vstd::prelude::*;

verus! {

/// What can go wrong while a triangulation is built. Every condition is
/// handed back to the immediate caller as a value.
#[derive(Clone, Copy, Debug, PartialEq, Eq, Structural)]
pub enum TriangulationError {
    /// A cell was given more vertices than a simplex of its dimension has.
    TooManyVertices,
    /// The circumsphere was asked of a cell that is not maximal.
    UndefinedCircumsphere,
    /// A vertex with the same coordinates is already registered.
    DuplicateCoordinates,
    /// An identity token is already in use.
    IdentityCollision,
    /// An extremum was asked of an empty vertex set.
    DegenerateInput,
    /// The coordinates are too large for the exact arithmetic to decide.
    ArithmeticOverflow,
}

impl TriangulationError {
    /// The text that describes the condition.
    pub fn message(&self) -> (text: &'static str)
        ensures
            text@ == self.message_text(),
    {
        match self {
            TriangulationError::TooManyVertices => "Too many vertices for the dimension",
            TriangulationError::UndefinedCircumsphere => "Circumsphere of a non-maximal cell",
            TriangulationError::DuplicateCoordinates => "Vertex already exists",
            TriangulationError::IdentityCollision => "Uuid already exists",
            TriangulationError::DegenerateInput => "No vertices to bound",
            TriangulationError::ArithmeticOverflow => "Coordinates too large",
        }
    }

    /// The characters of [`Self::message`].
    pub open spec fn message_text(&self) -> Seq<char> {
        match self {
            TriangulationError::TooManyVertices => "Too many vertices for the dimension"@,
            TriangulationError::UndefinedCircumsphere => "Circumsphere of a non-maximal cell"@,
            TriangulationError::DuplicateCoordinates => "Vertex already exists"@,
            TriangulationError::IdentityCollision => "Uuid already exists"@,
            TriangulationError::DegenerateInput => "No vertices to bound"@,
            TriangulationError::ArithmeticOverflow => "Coordinates too large"@,
        }
    }
}

} // verus!
