//! Where a figure stands: its cell coordinates and which rotation face it shows.

use vstd::prelude::*;

verus! {

use crate::movement::Movement;

/// A figure's placement: the board column and row of its face's upper-left
/// corner, and the index of the rotation face it currently shows.
///
/// The face index is kept normalized: `0 <= dir < faces` for the face count
/// of the figure the position belongs to.
#[derive(Clone, Copy, Debug, PartialEq, Eq, Structural)]
pub struct Position {
    pub x: i32,
    pub y: i32,
    pub dir: i32,
}

/// The position reached by one movement, for a figure with `faces` rotation
/// faces.  Rotations stay within `0 <= dir < faces`; steps move one cell.
pub open spec fn apply_move_spec(p: Position, movement: Movement, faces: int) -> Position {
    match movement {
        Movement::MoveLeft => Position { x: (p.x - 1) as i32, y: p.y, dir: p.dir },
        Movement::MoveRight => Position { x: (p.x + 1) as i32, y: p.y, dir: p.dir },
        Movement::MoveDown => Position { x: p.x, y: (p.y + 1) as i32, dir: p.dir },
        Movement::MoveUp => Position { x: p.x, y: (p.y - 1) as i32, dir: p.dir },
        Movement::RotateCW => Position {
            x: p.x,
            y: p.y,
            dir: if p.dir + 1 == faces { 0 } else { (p.dir + 1) as i32 },
        },
        Movement::RotateCCW => Position {
            x: p.x,
            y: p.y,
            dir: if p.dir == 0 { (faces - 1) as i32 } else { (p.dir - 1) as i32 },
        },
    }
}

impl Position {
    /// True when the coordinates are far from the `i32` limits, so that a
    /// single movement can be computed without overflow.
    pub open spec fn in_safe_range(&self) -> bool {
        &&& -1000000 <= self.x <= 1000000
        &&& -1000000 <= self.y <= 1000000
    }

    pub fn new(pos: (i32, i32, i32)) -> (r: Position)
        ensures
            r.x == pos.0,
            r.y == pos.1,
            r.dir == pos.2,
    {
        Position { x: pos.0, y: pos.1, dir: pos.2 }
    }

    pub fn x(&self) -> (r: i32)
        ensures
            r == self.x,
    {
        self.x
    }

    pub fn y(&self) -> (r: i32)
        ensures
            r == self.y,
    {
        self.y
    }

    pub fn dir(&self) -> (r: i32)
        ensures
            r == self.dir,
    {
        self.dir
    }

    /// The position after one movement, for a figure with `faces` rotation faces.
    pub fn apply_move(&self, movement: Movement, faces: i32) -> (r: Position)
        requires
            self.in_safe_range(),
            1 <= faces,
            0 <= self.dir < faces,
        ensures
            r == apply_move_spec(*self, movement, faces as int),
            0 <= r.dir < faces,
    {
        match movement {
            Movement::MoveLeft => Position { x: self.x - 1, y: self.y, dir: self.dir },
            Movement::MoveRight => Position { x: self.x + 1, y: self.y, dir: self.dir },
            Movement::MoveDown => Position { x: self.x, y: self.y + 1, dir: self.dir },
            Movement::MoveUp => Position { x: self.x, y: self.y - 1, dir: self.dir },
            Movement::RotateCW => Position {
                x: self.x,
                y: self.y,
                dir: if self.dir + 1 == faces { 0 } else { self.dir + 1 },
            },
            Movement::RotateCCW => Position {
                x: self.x,
                y: self.y,
                dir: if self.dir == 0 { faces - 1 } else { self.dir - 1 },
            },
        }
    }
}

} // verus!
