//! Small value types shared across the kernel.

use vstd::prelude::*;

verus! {

/// How two offset segments are joined at an outside corner of a buffer.
#[derive(Debug, Clone, Copy, PartialEq, Eq, Structural)]
pub enum JoinStyle {
    Round,
    Mitre,
    Bevel,
}

/// How the ends of a buffered line are closed.
#[derive(Debug, Clone, Copy, PartialEq, Eq, Structural)]
pub enum CapStyle {
    Round,
    Flat,
    Square,
}

/// Which implementation computes the geometry operations.
#[derive(Debug, Clone, Copy, PartialEq, Eq, Structural)]
pub enum KernelBackend {
    PureRust,
    GeosReference,
}

/// Where a point lies relative to a ring or polygon.
#[derive(Debug, Clone, Copy, PartialEq, Eq, Structural)]
pub enum PointLocation {
    Exterior,
    Boundary,
    Interior,
}

/// The side of a directed segment on which an offset curve is generated.
#[derive(Debug, Clone, Copy, PartialEq, Eq, Structural)]
pub enum Position {
    Left,
    Right,
}

/// The side opposite to `p`, as a spec function.
pub open spec fn opposite_side(p: Position) -> Position {
    match p {
        Position::Left => Position::Right,
        Position::Right => Position::Left,
    }
}

impl Position {
    /// The other side of the segment.
    pub fn opposite(self) -> (r: Position)
        ensures
            r == opposite_side(self),
            r != self,
    {
        match self {
            Position::Left => Position::Right,
            Position::Right => Position::Left,
        }
    }
}

/// Taking the opposite side twice gives back the side one started from.
pub proof fn lemma_opposite_involution(p: Position)
    ensures
        opposite_side(opposite_side(p)) == p,
        opposite_side(p) != p,
{
}

} // verus!
