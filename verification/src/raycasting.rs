//! The raycaster: a DDA grid traversal from the player through the maze.
//!
//! One ray is cast per screen column.  The traversal steps one cell at a
//! time along whichever axis has the nearer upcoming gridline crossing
//! and stops at the first non-traversable cell, or when it leaves the
//! grid (reported as no hit, `wall_type == ' '` and `distance == 0`).
//! The executable walk is proved equal to the recursive model
//! `spec_cast_ray`.

use vstd::prelude::*;
use crate::fixed::iabs;
use crate::fixed::spec_fp_mul;
use crate::fixed::spec_fp_div;
use crate::fixed::fp_div;
use crate::fixed::fp_mul_wide;
use crate::fixed::fp_cell;
use crate::maze::Grid;
use crate::maze::spec_is_space;
use crate::maze::is_space;
use crate::player::Player;
use crate::trig::spec_cos_fp;
use crate::trig::spec_sin_fp;
use crate::trig::cos_fp;
use crate::trig::sin_fp;
use vstd::arithmetic::div_mod::lemma_fundamental_div_mod;
use vstd::arithmetic::div_mod::lemma_div_is_ordered;
use vstd::arithmetic::div_mod::lemma_div_by_multiple;
use vstd::arithmetic::div_mod::lemma_div_is_ordered_by_denominator;

verus! {

/// Side distances at or above this sentinel stand for "never", the
/// crossing distance of a ray parallel to an axis.
pub const RAY_INF: i64 = 0x4000_0000_0000_0000;

/// What a ray reports: distance along the ray, world coordinates of the
/// intersection, the tile character struck (`' '` for no hit), and
/// whether the hit face lies on a vertical gridline.
pub struct RayHit {
    pub distance: i64,
    pub hit_x: i64,
    pub hit_y: i64,
    pub wall_type: char,
    pub is_vertical: bool,
}

/// Mathematical image of a ray result.
pub struct SpecRayHit {
    pub distance: int,
    pub hit_x: int,
    pub hit_y: int,
    pub wall_type: char,
    pub is_vertical: bool,
}

/// Where a traversal stopped.
pub struct SpecDdaStop {
    pub hit: bool,
    pub mx: int,
    pub my: int,
    pub vertical: bool,
}

/// Gridline-crossing stride along one axis: `FP_ONE / |c|` in fixed
/// point, or the sentinel for a ray parallel to the axis.
pub open spec fn spec_delta(c: int) -> int {
    if c == 0 {
        0x4000_0000_0000_0000
    } else {
        4294967296int / iabs(c)
    }
}

/// Initial side distance: stride scaled by the fraction of the starting
/// cell that the ray crosses first along this axis.
pub open spec fn spec_side0(p: int, c: int, dd: int) -> int {
    if c == 0 {
        0x4000_0000_0000_0000
    } else {
        let m0 = p / 65536;
        let f = if c >= 0 {
            (m0 + 1) * 65536 - p
        } else {
            p - m0 * 65536
        };
        (f * dd) / 65536
    }
}

/// One-step-at-a-time DDA walk: advance the axis with the smaller side
/// distance, then stop outside the grid or at a non-traversable cell.
pub open spec fn spec_dda(
    g: Grid,
    mx: int,
    my: int,
    sdx: int,
    sdy: int,
    ddx: int,
    ddy: int,
    sx: int,
    sy: int,
    vert: bool,
    fuel: nat,
) -> SpecDdaStop
    decreases fuel,
{
    if fuel == 0 {
        SpecDdaStop { hit: false, mx, my, vertical: vert }
    } else {
        let step_x = sdx < sdy;
        let mx2 = if step_x { mx + sx } else { mx };
        let my2 = if step_x { my } else { my + sy };
        let sdx2 = if step_x { sdx + ddx } else { sdx };
        let sdy2 = if step_x { sdy } else { sdy + ddy };
        let vert2 = step_x;
        if mx2 < 0 || mx2 >= g.spec_width() || my2 < 0 || my2 >= g.spec_height() {
            SpecDdaStop { hit: false, mx: mx2, my: my2, vertical: vert2 }
        } else if !spec_is_space(g.cell(mx2, my2)) {
            SpecDdaStop { hit: true, mx: mx2, my: my2, vertical: vert2 }
        } else {
            spec_dda(g, mx2, my2, sdx2, sdy2, ddx, ddy, sx, sy, vert2, (fuel - 1) as nat)
        }
    }
}

/// The ray that `cast_ray` returns, as a function of the maze, the
/// player position and the ray angle.
pub open spec fn spec_cast_ray(g: Grid, px: int, py: int, angle: int) -> SpecRayHit {
    let cos = spec_cos_fp(angle);
    let sin = spec_sin_fp(angle);
    if cos == 0 && sin == 0 {
        SpecRayHit { distance: 0, hit_x: 0, hit_y: 0, wall_type: ' ', is_vertical: false }
    } else {
        let sx: int = if cos >= 0 { 1 } else { -1 };
        let sy: int = if sin >= 0 { 1 } else { -1 };
        let st = spec_dda(
            g,
            px / 65536,
            py / 65536,
            spec_side0(px, cos, spec_delta(cos)),
            spec_side0(py, sin, spec_delta(sin)),
            spec_delta(cos),
            spec_delta(sin),
            sx,
            sy,
            false,
            (g.spec_width() + g.spec_height() + 4) as nat,
        );
        if !st.hit {
            SpecRayHit { distance: 0, hit_x: 0, hit_y: 0, wall_type: ' ', is_vertical: st.vertical }
        } else if st.vertical {
            let num = st.mx * 65536 - px + (if sx < 0 { 65536int } else { 0int });
            let dist = spec_fp_div(num, cos);
            SpecRayHit {
                distance: dist,
                hit_x: st.mx * 65536,
                hit_y: py + spec_fp_mul(dist, sin),
                wall_type: g.cell(st.mx, st.my),
                is_vertical: true,
            }
        } else {
            let num = st.my * 65536 - py + (if sy < 0 { 65536int } else { 0int });
            let dist = spec_fp_div(num, sin);
            SpecRayHit {
                distance: dist,
                hit_x: px + spec_fp_mul(dist, cos),
                hit_y: st.my * 65536,
                wall_type: g.cell(st.mx, st.my),
                is_vertical: false,
            }
        }
    }
}

/// Round trip through the projection: for any struck wall, dividing
/// the hit point's gridline offset from the player by the ray's
/// direction component reproduces the reported distance.
pub proof fn lemma_ray_round_trip(g: Grid, px: int, py: int, angle: int)
    requires
        spec_cast_ray(g, px, py, angle).wall_type != ' ',
    ensures
        spec_cast_ray(g, px, py, angle).is_vertical ==> spec_cast_ray(g, px, py, angle).distance
            == spec_fp_div(
            spec_cast_ray(g, px, py, angle).hit_x - px + (if spec_cos_fp(angle) < 0 {
                65536int
            } else {
                0int
            }),
            spec_cos_fp(angle),
        ),
        !spec_cast_ray(g, px, py, angle).is_vertical ==> spec_cast_ray(g, px, py, angle).distance
            == spec_fp_div(
            spec_cast_ray(g, px, py, angle).hit_y - py + (if spec_sin_fp(angle) < 0 {
                65536int
            } else {
                0int
            }),
            spec_sin_fp(angle),
        ),
{
}

/// Casts one ray from the player at the given fixed-point angle and
/// returns the first wall face it strikes, or a no-hit record when the
/// ray leaves the grid.  The result equals the `spec_cast_ray` model.
pub fn cast_ray(maze: &Grid, player: &Player, angle: i64) -> (hit: RayHit)
    requires
        maze.wf(),
        player.in_grid(*maze),
        -0x800_0000_0000_0000 <= angle <= 0x800_0000_0000_0000,
    ensures
        ({
            let s = spec_cast_ray(*maze, player.x as int, player.y as int, angle as int);
            &&& hit.distance == s.distance
            &&& hit.hit_x == s.hit_x
            &&& hit.hit_y == s.hit_y
            &&& hit.wall_type == s.wall_type
            &&& hit.is_vertical == s.is_vertical
        }),
        0 <= hit.distance <= 0x2000_0000_0000,
        -0x2100_0000_0000 <= hit.hit_x <= 0x2100_0000_0000,
        -0x2100_0000_0000 <= hit.hit_y <= 0x2100_0000_0000,
        hit.wall_type == ' ' ==> hit.distance == 0,
        hit.wall_type != ' ' ==> !spec_is_space(hit.wall_type),
{
    let px: i64 = player.x;
    let py: i64 = player.y;
    let cos_a: i64 = cos_fp(angle);
    let sin_a: i64 = sin_fp(angle);
    if cos_a == 0 && sin_a == 0 {
        return RayHit { distance: 0, hit_x: 0, hit_y: 0, wall_type: ' ', is_vertical: false };
    }
    let w: usize = maze.width();
    let h: usize = maze.height();
    let mx0: i64 = fp_cell(px);
    let my0: i64 = fp_cell(py);
    proof {
        lemma_fundamental_div_mod(px as int, 65536);
        lemma_fundamental_div_mod(py as int, 65536);
        assert(mx0 < w as i64) by {
            if mx0 as int >= w as int {
                assert(65536 * (mx0 as int) >= 65536 * (w as int)) by (nonlinear_arith)
                    requires mx0 as int >= w as int;
            }
        }
        assert(my0 < h as i64) by {
            if my0 as int >= h as int {
                assert(65536 * (my0 as int) >= 65536 * (h as int)) by (nonlinear_arith)
                    requires my0 as int >= h as int;
            }
        }
    }
    let sx: i64 = if cos_a >= 0 { 1 } else { -1 };
    let sy: i64 = if sin_a >= 0 { 1 } else { -1 };
    let abs_cos: i64 = if cos_a < 0 { -cos_a } else { cos_a };
    let abs_sin: i64 = if sin_a < 0 { -sin_a } else { sin_a };
    let ddx: i64 = if cos_a == 0 {
        RAY_INF
    } else {
        (4294967296u64 / (abs_cos as u64)) as i64
    };
    let ddy: i64 = if sin_a == 0 {
        RAY_INF
    } else {
        (4294967296u64 / (abs_sin as u64)) as i64
    };
    proof {
        assert(ddx == spec_delta(cos_a as int));
        assert(ddy == spec_delta(sin_a as int));
        if cos_a != 0 {
            assert(65536 <= ddx <= 0x1_0000_0000) by {
                lemma_div_is_ordered_by_denominator(4294967296int, iabs(cos_a as int), 65536);
                assert(4294967296int / 65536 == 65536);
                lemma_div_is_ordered_by_denominator(4294967296int, 1, iabs(cos_a as int));
                assert(4294967296int / 1 == 4294967296);
            }
        }
        if sin_a != 0 {
            assert(65536 <= ddy <= 0x1_0000_0000) by {
                lemma_div_is_ordered_by_denominator(4294967296int, iabs(sin_a as int), 65536);
                assert(4294967296int / 65536 == 65536);
                lemma_div_is_ordered_by_denominator(4294967296int, 1, iabs(sin_a as int));
                assert(4294967296int / 1 == 4294967296);
            }
        }
    }
    let sdx_init: i64 = if cos_a == 0 {
        RAY_INF
    } else {
        let f: i64 = if cos_a >= 0 { (mx0 + 1) * 65536 - px } else { px - mx0 * 65536 };
        proof {
            assert(0 <= f <= 65536);
            assert((f as int) * (ddx as int) <= 65536 * 0x1_0000_0000) by (nonlinear_arith)
                requires 0 <= f as int <= 65536 && 0 <= ddx as int <= 0x1_0000_0000;
            assert((f as int) * (ddx as int) <= 65536 * (ddx as int)) by (nonlinear_arith)
                requires 0 <= f as int <= 65536 && 0 <= ddx as int;
            lemma_div_is_ordered((f as int) * (ddx as int), 65536 * (ddx as int), 65536);
            lemma_div_by_multiple(ddx as int, 65536);
        }
        (((f as u64) * (ddx as u64)) / 65536) as i64
    };
    let sdy_init: i64 = if sin_a == 0 {
        RAY_INF
    } else {
        let f: i64 = if sin_a >= 0 { (my0 + 1) * 65536 - py } else { py - my0 * 65536 };
        proof {
            assert(0 <= f <= 65536);
            assert((f as int) * (ddy as int) <= 65536 * 0x1_0000_0000) by (nonlinear_arith)
                requires 0 <= f as int <= 65536 && 0 <= ddy as int <= 0x1_0000_0000;
            assert((f as int) * (ddy as int) <= 65536 * (ddy as int)) by (nonlinear_arith)
                requires 0 <= f as int <= 65536 && 0 <= ddy as int;
            lemma_div_is_ordered((f as int) * (ddy as int), 65536 * (ddy as int), 65536);
            lemma_div_by_multiple(ddy as int, 65536);
        }
        (((f as u64) * (ddy as u64)) / 65536) as i64
    };
    proof {
        assert(sdx_init == spec_side0(px as int, cos_a as int, ddx as int));
        assert(sdy_init == spec_side0(py as int, sin_a as int, ddy as int));
    }

    proof {
        assert(iabs(mx0 as int - mx0 as int) == 0);
        assert(iabs(my0 as int - my0 as int) == 0);
        if cos_a != 0 {
            assert((iabs(mx0 as int - mx0 as int) + 1) * (ddx as int) == ddx as int)
                by (nonlinear_arith)
                requires iabs(mx0 as int - mx0 as int) == 0;
        }
        if sin_a != 0 {
            assert((iabs(my0 as int - my0 as int) + 1) * (ddy as int) == ddy as int)
                by (nonlinear_arith)
                requires iabs(my0 as int - my0 as int) == 0;
        }
    }
    let mut mx: i64 = mx0;
    let mut my: i64 = my0;
    let mut sdx: i64 = sdx_init;
    let mut sdy: i64 = sdy_init;
    let mut vert: bool = false;
    let ghost fuel0: int = w as int + h as int + 4;
    let ghost mut steps: int = 0;

    loop
        invariant
            maze.wf(),
            1 <= w <= 4096,
            1 <= h <= 4096,
            w == maze.spec_width(),
            h == maze.spec_height(),
            0 <= mx0 < w,
            0 <= my0 < h,
            0 <= mx < w,
            0 <= my < h,
            sx == 1 || sx == -1,
            sy == 1 || sy == -1,
            sx == 1 ==> mx >= mx0,
            sx == -1 ==> mx <= mx0,
            sy == 1 ==> my >= my0,
            sy == -1 ==> my <= my0,
            steps == iabs(mx as int - mx0 as int) + iabs(my as int - my0 as int),
            fuel0 == w as int + h as int + 4,
            !(ddx == RAY_INF && ddy == RAY_INF),
            ddx == RAY_INF ==> sdx == RAY_INF,
            ddy == RAY_INF ==> sdy == RAY_INF,
            ddx != RAY_INF ==> 65536 <= ddx <= 0x1_0000_0000 && 0 <= sdx <= (iabs(
                mx as int - mx0 as int,
            ) + 1) * ddx,
            ddy != RAY_INF ==> 65536 <= ddy <= 0x1_0000_0000 && 0 <= sdy <= (iabs(
                my as int - my0 as int,
            ) + 1) * ddy,
            ddx == RAY_INF <==> cos_a == 0,
            ddy == RAY_INF <==> sin_a == 0,
            spec_dda(
                *maze,
                mx as int,
                my as int,
                sdx as int,
                sdy as int,
                ddx as int,
                ddy as int,
                sx as int,
                sy as int,
                vert,
                (fuel0 - steps) as nat,
            ) == spec_dda(
                *maze,
                mx0 as int,
                my0 as int,
                sdx_init as int,
                sdy_init as int,
                ddx as int,
                ddy as int,
                sx as int,
                sy as int,
                false,
                fuel0 as nat,
            ),
        decreases fuel0 - steps,
    {
        let ghost gmx = mx;
        let ghost gmy = my;
        let ghost gsdx = sdx;
        let ghost gsdy = sdy;
        let ghost gvert = vert;
        let ghost gsteps = steps;
        proof {
            assert(fuel0 - steps >= 4);
        }
        if sdx < sdy {
            proof {
                if ddx == RAY_INF {
                    assert(sdx == RAY_INF);
                    assert(ddy != RAY_INF);
                    assert(sdy <= 4097 * 0x1_0000_0000) by (nonlinear_arith)
                        requires
                            0 <= sdy as int,
                            sdy as int <= (iabs(my as int - my0 as int) + 1) * (ddy as int),
                            0 <= iabs(my as int - my0 as int) + 1 <= 4097,
                            0 <= ddy as int <= 0x1_0000_0000;
                    assert(false);
                }
                assert(ddx != RAY_INF);
                assert((iabs(mx as int - mx0 as int) + 1) * (ddx as int) <= 4097 * 0x1_0000_0000)
                    by (nonlinear_arith)
                    requires
                        0 <= iabs(mx as int - mx0 as int) + 1 <= 4097,
                        0 <= ddx as int <= 0x1_0000_0000;
            }
            sdx = sdx + ddx;
            mx = mx + sx;
            vert = true;
        } else {
            proof {
                if ddy == RAY_INF {
                    assert(sdy == RAY_INF);
                    assert(ddx != RAY_INF);
                    assert(sdx <= 4097 * 0x1_0000_0000) by (nonlinear_arith)
                        requires
                            0 <= sdx as int,
                            sdx as int <= (iabs(mx as int - mx0 as int) + 1) * (ddx as int),
                            0 <= iabs(mx as int - mx0 as int) + 1 <= 4097,
                            0 <= ddx as int <= 0x1_0000_0000;
                    assert(false);
                }
                assert((iabs(my as int - my0 as int) + 1) * (ddy as int) <= 4097 * 0x1_0000_0000)
                    by (nonlinear_arith)
                    requires
                        0 <= iabs(my as int - my0 as int) + 1 <= 4097,
                        0 <= ddy as int <= 0x1_0000_0000;
            }
            sdy = sdy + ddy;
            my = my + sy;
            vert = false;
        }
        proof {
            steps = steps + 1;
        }
        if mx < 0 || mx >= w as i64 || my < 0 || my >= h as i64 {
            proof {
                assert(spec_dda(
                    *maze,
                    gmx as int,
                    gmy as int,
                    gsdx as int,
                    gsdy as int,
                    ddx as int,
                    ddy as int,
                    sx as int,
                    sy as int,
                    gvert,
                    (fuel0 - gsteps) as nat,
                ) == SpecDdaStop { hit: false, mx: mx as int, my: my as int, vertical: vert });
            }
            return RayHit { distance: 0, hit_x: 0, hit_y: 0, wall_type: ' ', is_vertical: vert };
        }
        let c = maze.at(mx as usize, my as usize);
        if !is_space(c) {
            proof {
                assert(spec_dda(
                    *maze,
                    gmx as int,
                    gmy as int,
                    gsdx as int,
                    gsdy as int,
                    ddx as int,
                    ddy as int,
                    sx as int,
                    sy as int,
                    gvert,
                    (fuel0 - gsteps) as nat,
                ) == SpecDdaStop { hit: true, mx: mx as int, my: my as int, vertical: vert });
            }
            if vert {
                proof {
                    assert(cos_a != 0);
                    if sx == 1 {
                        assert(mx >= mx0 + 1);
                    } else {
                        assert(mx <= mx0 - 1);
                    }
                }
                let num: i64 = mx * 65536 - px + (if sx < 0 { 65536 } else { 0 });
                let dist: i64 = fp_div(num, cos_a);
                proof {
                    assert(iabs(num as int) <= 4097 * 65536);
                    assert(iabs(num as int) * 65536 <= 4097 * 65536 * 65536) by (nonlinear_arith)
                        requires iabs(num as int) <= 4097 * 65536;
                    assert(dist >= 0);
                }
                let off: i64 = fp_mul_wide(dist, sin_a);
                return RayHit {
                    distance: dist,
                    hit_x: mx * 65536,
                    hit_y: py + off,
                    wall_type: c,
                    is_vertical: true,
                };
            } else {
                proof {
                    assert(sin_a != 0);
                    if sy == 1 {
                        assert(my >= my0 + 1);
                    } else {
                        assert(my <= my0 - 1);
                    }
                }
                let num: i64 = my * 65536 - py + (if sy < 0 { 65536 } else { 0 });
                let dist: i64 = fp_div(num, sin_a);
                proof {
                    assert(iabs(num as int) <= 4097 * 65536);
                    assert(iabs(num as int) * 65536 <= 4097 * 65536 * 65536) by (nonlinear_arith)
                        requires iabs(num as int) <= 4097 * 65536;
                    assert(dist >= 0);
                }
                let off: i64 = fp_mul_wide(dist, cos_a);
                return RayHit {
                    distance: dist,
                    hit_x: px + off,
                    hit_y: my * 65536,
                    wall_type: c,
                    is_vertical: false,
                };
            }
        }
        proof {
            assert(spec_dda(
                *maze,
                gmx as int,
                gmy as int,
                gsdx as int,
                gsdy as int,
                ddx as int,
                ddy as int,
                sx as int,
                sy as int,
                gvert,
                (fuel0 - gsteps) as nat,
            ) == spec_dda(
                *maze,
                mx as int,
                my as int,
                sdx as int,
                sdy as int,
                ddx as int,
                ddy as int,
                sx as int,
                sy as int,
                vert,
                (fuel0 - steps) as nat,
            ));
            if sdx != gsdx {
                assert(sdx as int == gsdx + ddx);
                assert((iabs(gmx as int - mx0 as int) + 2) * (ddx as int) == (iabs(
                    gmx as int - mx0 as int,
                ) + 1) * (ddx as int) + ddx) by (nonlinear_arith);
            }
            if sdy != gsdy {
                assert((iabs(gmy as int - my0 as int) + 2) * (ddy as int) == (iabs(
                    gmy as int - my0 as int,
                ) + 1) * (ddy as int) + ddy) by (nonlinear_arith);
            }
        }
    }
}

} // verus!
