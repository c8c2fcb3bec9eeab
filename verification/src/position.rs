//! Grid cell references and ship orientations.

use vstd::prelude::*;

verus! {

/// Number of rows and of columns of the grid; valid coordinates are
/// `0..GRID_SIZE` on both axes.
pub const GRID_SIZE: u8 = 10;

/// A cell reference on the grid. A `Position` may lie outside the grid:
/// placement generates candidate cells first and validates them afterwards,
/// so everything that reads a board checks `in_bounds` (or requires it).
#[derive(Clone, Copy, Debug, PartialEq, Eq, Structural)]
pub struct Position {
    pub x: u8,
    pub y: u8,
}

impl Position {
    /// True when the position lies on the 10 x 10 grid.
    pub open spec fn in_bounds(self) -> bool {
        self.x < GRID_SIZE && self.y < GRID_SIZE
    }

    /// A position drawn uniformly from the grid; both axes already match the
    /// grid bounds, so no retry is needed.
    pub fn random() -> (p: Position)
        ensures
            p.in_bounds(),
    {
        Position { x: crate::rng::random_axis(), y: crate::rng::random_axis() }
    }

    /// Whether this position occurs in `positions`.
    pub fn overlaps(&self, positions: &Vec<Position>) -> (r: bool)
        ensures
            r == positions@.contains(*self),
    {
        let mut i: usize = 0;
        while i < positions.len()
            invariant
                i <= positions@.len(),
                forall|k: int| 0 <= k < i ==> positions@[k] != *self,
            decreases positions@.len() - i,
        {
            if positions[i].x == self.x && positions[i].y == self.y {
                return true;
            }
            i = i + 1;
        }
        false
    }
}

/// The axis along which a ship extends from its anchor.
#[derive(Clone, Copy, Debug, PartialEq, Eq, Structural)]
pub enum ShipOrientation {
    Horizontal,
    Vertical,
}

impl ShipOrientation {
    /// An orientation drawn by a fair coin flip.
    pub fn random() -> ShipOrientation {
        if crate::rng::random_flip() {
            ShipOrientation::Horizontal
        } else {
            ShipOrientation::Vertical
        }
    }

    /// The other orientation; placement retries may toggle between the two.
    pub fn toggled(self) -> (r: ShipOrientation)
        ensures
            r != self,
    {
        match self {
            ShipOrientation::Horizontal => ShipOrientation::Vertical,
            ShipOrientation::Vertical => ShipOrientation::Horizontal,
        }
    }
}

} // verus!
