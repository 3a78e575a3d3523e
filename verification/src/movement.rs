//! The six inputs a falling figure understands.

use vstd::prelude::*;

verus! {

/// One input applied to the falling figure: a horizontal or vertical step,
/// or a rotation by a quarter turn.
#[derive(Clone, Copy, Debug, PartialEq, Eq, Structural)]
pub enum Movement {
    MoveLeft,
    MoveRight,
    MoveDown,
    MoveUp,
    RotateCW,
    RotateCCW,
}

} // verus!
