use raycaster::controls::{
    is_colliding, process_events, KeyState, MOVE_SPEED, ROTATION_SPEED,
};
use raycaster::fixed::fp_from_milli;
use raycaster::maze::{load_maze, Grid};
use raycaster::player::Player;
use raycaster::raycasting::cast_ray;
use raycaster::trig::{FP_HALF_PI, FP_PI, FP_TAU};

fn rows(strs: &[&str]) -> Vec<Vec<char>> {
    strs.iter().map(|s| s.chars().collect()).collect()
}

fn small_maze() -> Grid {
    load_maze(rows(&["+-+", "| |", "+-+"])).unwrap()
}

fn fov() -> i64 {
    FP_PI / 3
}

fn keys(forward: bool, backward: bool, left: bool, right: bool) -> KeyState {
    KeyState { forward, backward, turn_left: left, turn_right: right }
}

#[test]
fn idle_tick_leaves_player_unchanged() {
    let maze = small_maze();
    let mut p = Player { x: fp_from_milli(1500), y: fp_from_milli(1500), a: 12345, fov: fov() };
    let moved = process_events(&keys(false, false, false, false), &mut p, &maze);
    assert!(!moved);
    assert_eq!(p.x, fp_from_milli(1500));
    assert_eq!(p.y, fp_from_milli(1500));
    assert_eq!(p.a, 12345);
    assert_eq!(p.fov, fov());
}

#[test]
fn rotation_only_changes_heading() {
    let maze = small_maze();
    let mut p = Player { x: fp_from_milli(1500), y: fp_from_milli(1500), a: 0, fov: fov() };
    let moved = process_events(&keys(false, false, false, true), &mut p, &maze);
    assert!(!moved);
    assert_eq!(p.a, ROTATION_SPEED);
    assert_eq!(p.x, fp_from_milli(1500));
    assert_eq!(p.y, fp_from_milli(1500));
    let moved2 = process_events(&keys(false, false, true, false), &mut p, &maze);
    assert!(!moved2);
    assert_eq!(p.a, 0);
    // turning left from zero wraps below one turn
    let moved3 = process_events(&keys(false, false, true, false), &mut p, &maze);
    assert!(!moved3);
    assert_eq!(p.a, FP_TAU - ROTATION_SPEED);
}

#[test]
fn free_move_advances_by_move_speed() {
    let maze = small_maze();
    let mut p = Player { x: fp_from_milli(1500), y: fp_from_milli(1500), a: 0, fov: fov() };
    let moved = process_events(&keys(true, false, false, false), &mut p, &maze);
    assert!(moved);
    // moved east by exactly MOVE_SPEED: 1.5 + 0.1 = 1.6 tiles
    assert_eq!(p.x, fp_from_milli(1500) + MOVE_SPEED);
    assert_eq!(p.y, fp_from_milli(1500));
    let expected = 1.6f64 * 65536.0;
    assert!((p.x as f64 - expected).abs() < 3.0);
}

#[test]
fn wall_blocked_move_keeps_position() {
    let maze = small_maze();
    // facing west from (1.1, 1.5): the step lands in the wall column
    let mut p = Player { x: fp_from_milli(1100), y: fp_from_milli(1500), a: FP_PI, fov: fov() };
    let moved = process_events(&keys(true, false, false, false), &mut p, &maze);
    assert!(moved);
    assert_eq!(p.x, fp_from_milli(1100));
    assert_eq!(p.y, fp_from_milli(1500));
}

#[test]
fn blocked_translation_is_discarded_entirely() {
    let maze = small_maze();
    // heading north-east from near the east wall: the x step lands in
    // the wall column, so the y movement is discarded with it
    let mut p = Player {
        x: fp_from_milli(1950),
        y: fp_from_milli(1500),
        a: FP_PI / 4,
        fov: fov(),
    };
    process_events(&keys(true, false, false, false), &mut p, &maze);
    assert_eq!(p.x, fp_from_milli(1950));
    assert_eq!(p.y, fp_from_milli(1500));
}

#[test]
fn forward_and_backward_cancel() {
    let maze = small_maze();
    let mut p = Player { x: fp_from_milli(1500), y: fp_from_milli(1500), a: 0, fov: fov() };
    let moved = process_events(&keys(true, true, false, false), &mut p, &maze);
    assert!(moved);
    assert_eq!(p.x, fp_from_milli(1500));
    assert_eq!(p.y, fp_from_milli(1500));
}

#[test]
fn colliding_inside_and_outside() {
    let maze = small_maze();
    let t = fp_from_milli(100);
    // inside the open middle cell
    assert!(!is_colliding(fp_from_milli(1500), fp_from_milli(1500), &maze, t));
    // in a wall cell near its border
    assert!(is_colliding(fp_from_milli(50), fp_from_milli(500), &maze, t));
    assert!(is_colliding(fp_from_milli(500), fp_from_milli(980), &maze, t));
    // dead center of a wall cell is farther than the threshold from
    // every border, which this test does not flag
    assert!(!is_colliding(fp_from_milli(500), fp_from_milli(500), &maze, t));
    // outside the grid
    assert!(is_colliding(-1, fp_from_milli(1500), &maze, t));
    assert!(is_colliding(fp_from_milli(9500), fp_from_milli(1500), &maze, t));
}

#[test]
fn straight_ahead_wall_hit() {
    let maze = small_maze();
    let p = Player { x: fp_from_milli(1500), y: fp_from_milli(1500), a: 0, fov: fov() };
    let hit = cast_ray(&maze, &p, 0);
    assert_eq!(hit.wall_type, '|');
    assert!(hit.is_vertical);
    assert_eq!(hit.distance, 32768); // exactly half a tile
    assert_eq!(hit.hit_x, 2 * 65536); // east gridline
    assert_eq!(hit.hit_y, fp_from_milli(1500));
}

#[test]
fn fisheye_raw_distance_grows_with_angle() {
    let maze = small_maze();
    let p = Player { x: fp_from_milli(1500), y: fp_from_milli(1500), a: 0, fov: fov() };
    let theta = fov() / 2;
    let hit = cast_ray(&maze, &p, theta);
    assert_eq!(hit.wall_type, '|');
    assert!(hit.is_vertical);
    // raw distance is about 0.5 / cos(pi/6)
    let expected = 0.5f64 / (std::f64::consts::PI / 6.0).cos() * 65536.0;
    assert!(
        (hit.distance as f64 - expected).abs() < 200.0,
        "raw distance {} expected {}",
        hit.distance,
        expected
    );
}

#[test]
fn ray_that_leaves_the_grid_reports_no_wall() {
    let maze = load_maze(rows(&[" "])).unwrap();
    let p = Player { x: 32768, y: 32768, a: 0, fov: fov() };
    let hit = cast_ray(&maze, &p, 0);
    assert_eq!(hit.wall_type, ' ');
    assert_eq!(hit.distance, 0);
}

#[test]
fn ray_through_open_cells_stops_at_first_wall() {
    let maze = load_maze(rows(&["+---+", "|   |", "+---+"])).unwrap();
    let p = Player { x: fp_from_milli(1500), y: fp_from_milli(1500), a: 0, fov: fov() };
    let hit = cast_ray(&maze, &p, 0);
    assert_eq!(hit.wall_type, '|');
    assert_eq!(hit.distance, 2 * 65536 + 32768); // 2.5 tiles to the east wall
    assert_eq!(hit.hit_x, 4 * 65536);
}

#[test]
fn downward_ray_hits_a_horizontal_wall() {
    let maze = small_maze();
    let p = Player { x: fp_from_milli(1500), y: fp_from_milli(1500), a: 0, fov: fov() };
    let hit = cast_ray(&maze, &p, FP_HALF_PI);
    assert_eq!(hit.wall_type, '-');
    assert!(!hit.is_vertical);
    assert_eq!(hit.distance, 32768);
    assert_eq!(hit.hit_y, 2 * 65536); // south gridline
    assert_eq!(hit.hit_x, fp_from_milli(1500));
}
