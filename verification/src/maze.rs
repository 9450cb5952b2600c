//! The tile map: a rectangular, row-major grid of cell characters.
//!
//! Cell meanings: `' '` open floor, `'|'` vertical-wall texture, `'-'`
//! horizontal-wall texture, `'+'` corner wall, `'p'` player spawn
//! (traversable), `'g'` goal marker.

use vstd::prelude::*;

verus! {

/// Why a maze cannot be loaded.
#[derive(Debug, PartialEq, Eq, Structural)]
pub enum MapError {
    /// The grid is empty, too large, or not rectangular.
    InvalidMap,
}

/// True for the cells a player may stand in: open floor and the spawn.
pub open spec fn spec_is_space(c: char) -> bool {
    c == ' ' || c == 'p'
}

/// Executable mirror of `spec_is_space`.
pub fn is_space(c: char) -> (r: bool)
    ensures
        r == spec_is_space(c),
{
    c == ' ' || c == 'p'
}

/// A validated rectangular tile map.
pub struct Grid {
    pub cells: Vec<Vec<char>>,
}

impl Grid {
    /// A usable map: nonempty, bounded, and rectangular.
    pub open spec fn wf(self) -> bool {
        &&& 1 <= self.cells@.len() <= 4096
        &&& 1 <= self.cells@[0]@.len() <= 4096
        &&& forall|r: int|
            0 <= r < self.cells@.len() ==> (#[trigger] self.cells@[r]@.len())
                == self.cells@[0]@.len()
    }

    /// Number of rows.
    pub open spec fn spec_height(self) -> int {
        self.cells@.len() as int
    }

    /// Number of columns.
    pub open spec fn spec_width(self) -> int {
        self.cells@[0]@.len() as int
    }

    /// The cell character at column `x`, row `y`.
    pub open spec fn cell(self, x: int, y: int) -> char
        recommends
            self.wf(),
            0 <= x < self.spec_width(),
            0 <= y < self.spec_height(),
    {
        self.cells@[y]@[x]
    }

    /// Number of columns.
    pub fn width(&self) -> (w: usize)
        requires
            self.wf(),
        ensures
            w == self.spec_width(),
            1 <= w <= 4096,
    {
        self.cells[0].len()
    }

    /// Number of rows.
    pub fn height(&self) -> (h: usize)
        requires
            self.wf(),
        ensures
            h == self.spec_height(),
            1 <= h <= 4096,
    {
        self.cells.len()
    }

    /// The cell character at column `x`, row `y`.
    pub fn at(&self, x: usize, y: usize) -> (c: char)
        requires
            self.wf(),
            x < self.spec_width(),
            y < self.spec_height(),
        ensures
            c == self.cell(x as int, y as int),
    {
        self.cells[y][x]
    }
}

/// Validates a grid of rows as a maze.  Succeeds exactly when the grid
/// is nonempty, within bounds, and rectangular; the rows are kept as
/// given.
pub fn load_maze(rows: Vec<Vec<char>>) -> (r: Result<Grid, MapError>)
    ensures
        r is Ok <==> {
            &&& 1 <= rows@.len() <= 4096
            &&& 1 <= rows@[0]@.len() <= 4096
            &&& forall|i: int|
                0 <= i < rows@.len() ==> (#[trigger] rows@[i]@.len()) == rows@[0]@.len()
        },
        r matches Ok(g) ==> g.cells@ == rows@ && g.wf(),
        r matches Err(e) ==> e == MapError::InvalidMap,
{
    let n = rows.len();
    if n < 1 || n > 4096 {
        return Err(MapError::InvalidMap);
    }
    let w = rows[0].len();
    if w < 1 || w > 4096 {
        return Err(MapError::InvalidMap);
    }
    let mut i: usize = 1;
    while i < n
        invariant
            1 <= i <= n,
            n == rows@.len(),
            w == rows@[0]@.len(),
            forall|j: int| 0 <= j < i ==> (#[trigger] rows@[j]@.len()) == w,
        decreases n - i,
    {
        if rows[i].len() != w {
            return Err(MapError::InvalidMap);
        }
        i = i + 1;
    }
    Ok(Grid { cells: rows })
}

} // verus!
