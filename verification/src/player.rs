//! The player: position in fixed-point tile units, heading and field of
//! view in fixed-point radians.

use vstd::prelude::*;
use crate::maze::Grid;

verus! {

/// Position `(x, y)` in tile space, heading `a` (0 along positive x,
/// growing clockwise in screen convention), field of view `fov`; all in
/// the `FP_ONE` scale.
pub struct Player {
    pub x: i64,
    pub y: i64,
    pub a: i64,
    pub fov: i64,
}

impl Player {
    /// Heading normalized to one turn, field of view positive and at
    /// most a half turn.
    pub open spec fn wf(self) -> bool {
        &&& 0 <= self.a < 411776
        &&& 1 <= self.fov <= 205888
    }

    /// The position lies inside the grid's rectangle.
    pub open spec fn in_grid(self, g: Grid) -> bool {
        &&& 0 <= self.x < g.spec_width() * 65536
        &&& 0 <= self.y < g.spec_height() * 65536
    }
}

} // verus!
