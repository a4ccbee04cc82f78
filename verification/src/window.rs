//! Window geometry as it is kept between runs.

use vstd::prelude::*;

verus! {

/// Where a window's outer corner stands, in physical pixels.
#[derive(Debug, Clone, Copy, PartialEq, Eq, Structural)]
pub struct Position {
    pub x: i32,
    pub y: i32,
}

/// A window's outer size, in physical pixels.
#[derive(Debug, Clone, Copy, PartialEq, Eq, Structural)]
pub struct Size {
    pub width: u32,
    pub height: u32,
}

/// Position and size of a window, as stored.
#[derive(Debug, Clone, Copy, PartialEq, Eq, Structural)]
pub struct PosSize {
    pub x: i32,
    pub y: i32,
    pub width: u32,
    pub height: u32,
}

impl Default for PosSize {
    /// A window at the origin, of no size.
    fn default() -> (r: PosSize)
        ensures
            r == (PosSize { x: 0, y: 0, width: 0, height: 0 }),
    {
        PosSize { x: 0, y: 0, width: 0, height: 0 }
    }
}

impl PosSize {
    /// Joins a position and a size.
    pub fn new(position: Position, size: Size) -> (r: PosSize)
        ensures
            r == (PosSize { x: position.x, y: position.y, width: size.width, height: size.height }),
    {
        PosSize { x: position.x, y: position.y, width: size.width, height: size.height }
    }

    /// The stored position.
    pub fn to_physical_position(&self) -> (r: Position)
        ensures
            r == (Position { x: self.x, y: self.y }),
    {
        Position { x: self.x, y: self.y }
    }

    /// The stored size.
    pub fn to_physical_size(&self) -> (r: Size)
        ensures
            r == (Size { width: self.width, height: self.height }),
    {
        Size { width: self.width, height: self.height }
    }
}

} // verus!
