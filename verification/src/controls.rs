//! Input handling: one tick of rotation, translation and wall collision.

use vstd::prelude::*;
use crate::fixed::spec_fp_mul;
use crate::fixed::fp_mul;
use crate::fixed::fp_cell;
use crate::fixed::fp_fract;
use crate::maze::Grid;
use crate::maze::spec_is_space;
use crate::maze::is_space;
use crate::player::Player;
use crate::trig::spec_cos_fp;
use crate::trig::spec_sin_fp;
use crate::trig::cos_fp;
use crate::trig::sin_fp;

verus! {

/// Tiles advanced per forward tick: 0.1 in fixed point.
pub const MOVE_SPEED: i64 = 6554;

/// Radians turned per rotation tick: pi/30 in fixed point.
pub const ROTATION_SPEED: i64 = 6863;

/// The movement keys held during one tick.
#[derive(Clone, Copy)]
pub struct KeyState {
    pub forward: bool,
    pub backward: bool,
    pub turn_left: bool,
    pub turn_right: bool,
}

/// The heading after one tick: left turn subtracts, right turn adds,
/// and the result is wrapped back into one turn.
pub open spec fn spec_new_heading(p: Player, k: KeyState) -> int {
    let a1 = p.a - (if k.turn_left {
        6863int
    } else {
        0int
    }) + (if k.turn_right {
        6863int
    } else {
        0int
    });
    if a1 < 0 {
        a1 + 411776
    } else if a1 >= 411776 {
        a1 - 411776
    } else {
        a1
    }
}

/// Signed translation step along one axis for the held keys, where
/// `dir` is the fixed-point cosine or sine of the new heading.
pub open spec fn spec_step(dir: int, k: KeyState) -> int {
    (if k.forward {
        spec_fp_mul(dir, 6554)
    } else {
        0int
    }) - (if k.backward {
        spec_fp_mul(dir, 6554)
    } else {
        0int
    })
}

/// Candidate x position of one tick, before the collision test.
pub open spec fn spec_candidate_x(p: Player, k: KeyState) -> int {
    p.x + spec_step(spec_cos_fp(spec_new_heading(p, k)), k)
}

/// Candidate y position of one tick, before the collision test.
pub open spec fn spec_candidate_y(p: Player, k: KeyState) -> int {
    p.y + spec_step(spec_sin_fp(spec_new_heading(p, k)), k)
}

/// A candidate position is accepted exactly when its cell lies in the
/// grid and is traversable.
pub open spec fn spec_move_allowed(g: Grid, nx: int, ny: int) -> bool {
    &&& 0 <= nx
    &&& 0 <= ny
    &&& nx / 65536 < g.spec_width()
    &&& ny / 65536 < g.spec_height()
    &&& spec_is_space(g.cell(nx / 65536, ny / 65536))
}

/// One input tick: turns the player, then advances it along its heading
/// unless the destination cell is out of the grid or not traversable,
/// in which case the whole translation is discarded.  Returns whether a
/// movement key was held, which drives the footstep sound.
pub fn process_events(keys: &KeyState, player: &mut Player, maze: &Grid) -> (moved: bool)
    requires
        maze.wf(),
        old(player).wf(),
        old(player).in_grid(*maze),
    ensures
        final(player).wf(),
        final(player).fov == old(player).fov,
        final(player).a == spec_new_heading(*old(player), *keys),
        moved == (keys.forward || keys.backward),
        ({
            let nx = spec_candidate_x(*old(player), *keys);
            let ny = spec_candidate_y(*old(player), *keys);
            if spec_move_allowed(*maze, nx, ny) {
                final(player).x == nx && final(player).y == ny
            } else {
                final(player).x == old(player).x && final(player).y == old(player).y
            }
        }),
        final(player).in_grid(*maze),
{
    let mut a: i64 = player.a;
    if keys.turn_left {
        a = a - ROTATION_SPEED;
    }
    if keys.turn_right {
        a = a + ROTATION_SPEED;
    }
    if a < 0 {
        a = a + 411776;
    } else if a >= 411776 {
        a = a - 411776;
    }
    player.a = a;

    let mut moved = false;
    let mut nx: i64 = player.x;
    let mut ny: i64 = player.y;
    let cos_a: i64 = cos_fp(a);
    let sin_a: i64 = sin_fp(a);
    let step_x: i64 = fp_mul(cos_a, MOVE_SPEED);
    let step_y: i64 = fp_mul(sin_a, MOVE_SPEED);
    if keys.forward {
        nx = nx + step_x;
        ny = ny + step_y;
        moved = true;
    }
    if keys.backward {
        nx = nx - step_x;
        ny = ny - step_y;
        moved = true;
    }

    if nx >= 0 && ny >= 0 {
        let cx: i64 = fp_cell(nx);
        let cy: i64 = fp_cell(ny);
        let w: usize = maze.width();
        let h: usize = maze.height();
        if cx < w as i64 && cy < h as i64 {
            if is_space(maze.at(cx as usize, cy as usize)) {
                player.x = nx;
                player.y = ny;
            }
        }
    }
    moved
}

/// A tick without movement keys computes the identity update: the
/// candidate position is the current one, and without rotation keys the
/// heading too is kept, so the player state is left unchanged.
pub proof fn lemma_idle_tick_is_identity(p: Player, k: KeyState)
    requires
        p.wf(),
        !k.forward,
        !k.backward,
    ensures
        spec_candidate_x(p, k) == p.x,
        spec_candidate_y(p, k) == p.y,
        (!k.turn_left && !k.turn_right) ==> spec_new_heading(p, k) == p.a,
{
}

/// Whether a position stands inside a wall cell or within `threshold`
/// fixed-point units of that cell's border.
pub open spec fn spec_is_colliding(g: Grid, x: int, y: int, threshold: int) -> bool {
    if x < 0 || y < 0 {
        true
    } else if x / 65536 >= g.spec_width() || y / 65536 >= g.spec_height() {
        true
    } else if g.cell(x / 65536, y / 65536) != ' ' {
        ||| x % 65536 < threshold
        ||| x % 65536 > 65536 - threshold
        ||| y % 65536 < threshold
        ||| y % 65536 > 65536 - threshold
    } else {
        false
    }
}

/// Reports whether a position is inside or too close to a wall cell;
/// positions outside the grid count as colliding.
pub fn is_colliding(x: i64, y: i64, maze: &Grid, threshold: i64) -> (r: bool)
    requires
        maze.wf(),
        -0x1000_0000_0000 <= x <= 0x1000_0000_0000,
        -0x1000_0000_0000 <= y <= 0x1000_0000_0000,
        0 <= threshold <= 65536,
    ensures
        r == spec_is_colliding(*maze, x as int, y as int, threshold as int),
{
    if x < 0 || y < 0 {
        return true;
    }
    let cx: i64 = fp_cell(x);
    let cy: i64 = fp_cell(y);
    let w: usize = maze.width();
    let h: usize = maze.height();
    if cx >= w as i64 || cy >= h as i64 {
        return true;
    }
    let cell = maze.at(cx as usize, cy as usize);
    if cell != ' ' {
        let dx: i64 = fp_fract(x);
        let dy: i64 = fp_fract(y);
        dx < threshold || dx > 65536 - threshold || dy < threshold || dy > 65536 - threshold
    } else {
        false
    }
}

} // verus!
