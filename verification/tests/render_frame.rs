use raycaster::fixed::fp_from_milli;
use raycaster::maze::{load_maze, Grid};
use raycaster::player::Player;
use raycaster::render::{
    clear_z_buffer, correct_fisheye, count_digits, default_enemy_positions, draw_cell,
    draw_fps_box, draw_wall_strip, frame_index, render2d, render3d, render_enemies, render_enemy,
    render_floor, render_minimap, render_sky, render_walls, sprite_distance, wall_strip_height,
    Assets, Framebuffer, Sprite, Z_INF,
};
use raycaster::textures::Texture;
use raycaster::trig::FP_PI;

fn rows(strs: &[&str]) -> Vec<Vec<char>> {
    strs.iter().map(|s| s.chars().collect()).collect()
}

fn small_maze() -> Grid {
    load_maze(rows(&["+-+", "| |", "+-+"])).unwrap()
}

fn solid_texture(color: u32) -> Texture {
    let rgba: Vec<u8> = vec![
        ((color >> 16) & 0xFF) as u8,
        ((color >> 8) & 0xFF) as u8,
        (color & 0xFF) as u8,
        0xFF,
    ];
    Texture::from_rgba(1, 1, &rgba).unwrap()
}

fn assets() -> Assets {
    Assets {
        wall1: solid_texture(0x101010),
        wall2: solid_texture(0x202020),
        floor: solid_texture(0x303030),
        sky: solid_texture(0x404040),
        enemy_frames: vec![solid_texture(0xFFFFFF)],
    }
}

fn fov() -> i64 {
    FP_PI / 3
}

fn center_player() -> Player {
    Player { x: fp_from_milli(1500), y: fp_from_milli(1500), a: 0, fov: fov() }
}

#[test]
fn z_buffer_reset_to_infinity() {
    let mut z: Vec<i64> = vec![7, -3, 0, 123];
    clear_z_buffer(&mut z);
    assert_eq!(z, vec![Z_INF, Z_INF, Z_INF, Z_INF]);
}

#[test]
fn fisheye_correction_identity_straight_ahead() {
    assert_eq!(correct_fisheye(32768, 0), 32768);
    assert_eq!(correct_fisheye(65536, 0), 65536);
}

#[test]
fn fisheye_correction_shrinks_with_angle() {
    // raw distance of the 30-degree ray to a wall half a tile away
    let raw = 37890;
    let corrected = correct_fisheye(raw, fov() / 2);
    assert!(
        (corrected - 32768).abs() < 120,
        "corrected {} expected about 32768",
        corrected
    );
}

#[test]
fn fisheye_correction_clamps_to_one_step() {
    // a sideways ray: cosine zero, the product collapses to the floor value
    assert_eq!(correct_fisheye(65536, raycaster::trig::FP_HALF_PI), 1);
}

#[test]
fn equal_strip_heights_for_straight_and_oblique_rays() {
    let maze = small_maze();
    let p = center_player();
    let straight = cast(&maze, &p, 0);
    let oblique = cast(&maze, &p, fov() / 2);
    let c1 = correct_fisheye(straight, 0);
    let c2 = correct_fisheye(oblique, fov() / 2);
    assert_eq!(wall_strip_height(400, c1), wall_strip_height(400, c2));
    assert_eq!(wall_strip_height(400, c1), 800);
}

fn cast(maze: &Grid, p: &Player, angle: i64) -> i64 {
    raycaster::raycasting::cast_ray(maze, p, angle).distance
}

#[test]
fn wall_pass_fills_every_column_of_an_enclosed_maze() {
    let maze = small_maze();
    let p = center_player();
    let mut fb = Framebuffer::new(64, 64);
    let mut z: Vec<i64> = vec![0; 64];
    let a = assets();
    render_walls(&mut fb, &maze, &p, &mut z, &a);
    for (i, d) in z.iter().enumerate() {
        assert!(*d > 0, "column {} depth {}", i, d);
        assert!(*d < Z_INF, "column {} saw no wall", i);
        // every wall of this maze is between 0.5 and 1.5 tiles away
        assert!(*d <= 98304 + 2000, "column {} depth {}", i, d);
        assert!(*d >= 32768 - 2000, "column {} depth {}", i, d);
    }
    // the wall strips cover the middle row with the wall texture
    for x in 0..64usize {
        assert_eq!(fb.data[32 * 64 + x], 0x101010, "column {}", x);
    }
}

#[test]
fn wall_pass_leaves_open_columns_at_infinity() {
    let maze = load_maze(rows(&[" "])).unwrap();
    let p = Player { x: 32768, y: 32768, a: 0, fov: fov() };
    let mut fb = Framebuffer::new(32, 32);
    let mut z: Vec<i64> = vec![5; 32];
    let a = assets();
    render_walls(&mut fb, &maze, &p, &mut z, &a);
    for d in z.iter() {
        assert_eq!(*d, Z_INF);
    }
}

#[test]
fn sprite_animation_frame_advances_at_ten_hertz() {
    assert_eq!(frame_index(250, 4), 2);
    assert_eq!(frame_index(300, 4), 3);
    assert_eq!(frame_index(250, 3), 2);
    assert_eq!(frame_index(300, 3), 0);
    assert_eq!(frame_index(0, 3), 0);
    assert_eq!(frame_index(99, 3), 0);
    assert_eq!(frame_index(100, 3), 1);
}

#[test]
fn sprite_distance_is_euclidean() {
    let p = Player { x: 0, y: 0, a: 0, fov: fov() };
    let s = Sprite { x: 3 * 65536, y: 4 * 65536 };
    assert_eq!(sprite_distance(&p, &s), 5 * 65536);
}

#[test]
fn occluded_sprite_is_not_drawn() {
    let maze = small_maze();
    let p = center_player();
    let mut fb = Framebuffer::new(64, 64);
    let mut z: Vec<i64> = vec![0; 64];
    let a = assets();
    render_walls(&mut fb, &maze, &p, &mut z, &a);
    let fb_before = fb.data.clone();
    let z_before = z.clone();
    // a sprite far behind the east wall
    let sp = Sprite { x: 5 * 65536, y: fp_from_milli(1500) };
    render_enemy(&mut fb, &p, &sp, &mut z, 0, &a);
    assert_eq!(fb.data, fb_before);
    assert_eq!(z, z_before);
}

#[test]
fn visible_sprite_is_drawn_and_recorded() {
    let maze = load_maze(rows(&["+---+", "|   |", "+---+"])).unwrap();
    let p = center_player();
    let mut fb = Framebuffer::new(64, 64);
    let mut z: Vec<i64> = vec![0; 64];
    let a = assets();
    render_walls(&mut fb, &maze, &p, &mut z, &a);
    // two tiles ahead, in the open
    let sp = Sprite { x: fp_from_milli(3500), y: fp_from_milli(1500) };
    render_enemy(&mut fb, &p, &sp, &mut z, 0, &a);
    assert_eq!(z[32], 2 * 65536);
    // the billboard center is white, from the frame texture
    assert_eq!(fb.data[32 * 64 + 32], 0xFFFFFF);
}

#[test]
fn too_close_sprite_is_culled() {
    let maze = small_maze();
    let p = center_player();
    let mut fb = Framebuffer::new(64, 64);
    let mut z: Vec<i64> = vec![Z_INF; 64];
    let a = assets();
    let fb_before = fb.data.clone();
    let sp = Sprite { x: p.x + 65536 / 4, y: p.y };
    render_enemy(&mut fb, &p, &sp, &mut z, 0, &a);
    assert_eq!(fb.data, fb_before);
    assert_eq!(z, vec![Z_INF; 64]);
}

#[test]
fn default_enemies_match_the_scene() {
    let v = default_enemy_positions();
    assert_eq!(v.len(), 5);
    assert_eq!((v[0].x, v[0].y), (2 * 65536, 5 * 65536));
    assert_eq!((v[1].x, v[1].y), (11 * 65536, 3 * 65536 + 32768));
    assert_eq!((v[4].x, v[4].y), (7 * 65536, 2 * 65536));
}

#[test]
fn sky_covers_top_half_only() {
    let mut fb = Framebuffer::new(8, 8);
    let sky = solid_texture(0x404040);
    render_sky(&mut fb, &sky);
    for y in 0..4usize {
        for x in 0..8usize {
            assert_eq!(fb.data[y * 8 + x], 0x404040);
        }
    }
    for y in 4..8usize {
        for x in 0..8usize {
            assert_eq!(fb.data[y * 8 + x], 0);
        }
    }
}

#[test]
fn floor_covers_bottom_half_only() {
    let mut fb = Framebuffer::new(8, 8);
    let tex = solid_texture(0x303030);
    render_floor(&mut fb, &tex);
    for y in 0..4usize {
        for x in 0..8usize {
            assert_eq!(fb.data[y * 8 + x], 0);
        }
    }
    for y in 4..8usize {
        for x in 0..8usize {
            assert_eq!(fb.data[y * 8 + x], 0x303030);
        }
    }
}

#[test]
fn draw_cell_paints_a_clipped_block() {
    let mut fb = Framebuffer::new(8, 8);
    draw_cell(&mut fb, 6, 6, 4, '|');
    for y in 0..8usize {
        for x in 0..8usize {
            let expect = if x >= 6 && y >= 6 { 0xFFFFFF } else { 0 };
            assert_eq!(fb.data[y * 8 + x], expect);
        }
    }
    let mut fb2 = Framebuffer::new(8, 8);
    draw_cell(&mut fb2, 0, 0, 2, 'g');
    assert_eq!(fb2.data[0], 0x00FF00);
    assert_eq!(fb2.data[1 * 8 + 1], 0x00FF00);
    assert_eq!(fb2.data[2 * 8 + 2], 0);
}

#[test]
fn fps_box_draws_box_and_text_markers() {
    let mut fb = Framebuffer::new(256, 64);
    draw_fps_box(&mut fb, 60);
    // "FPS: 60" has seven characters, one marker pixel each
    assert_eq!(count_digits(60), 2);
    for i in 0..7usize {
        assert_eq!(fb.data[10 * 256 + 10 + 8 * i], 0x000000);
    }
    // the rest of the box is white, the outside untouched
    assert_eq!(fb.data[5 * 256 + 5], 0xFFFFFF);
    assert_eq!(fb.data[10 * 256 + 11], 0xFFFFFF);
    assert_eq!(fb.data[10 * 256 + 10 + 8 * 7], 0xFFFFFF);
    assert_eq!(fb.data[40 * 256 + 5], 0);
    assert_eq!(fb.data[5 * 256 + 120], 0);
}

#[test]
fn digit_counts() {
    assert_eq!(count_digits(0), 1);
    assert_eq!(count_digits(9), 1);
    assert_eq!(count_digits(10), 2);
    assert_eq!(count_digits(12345), 5);
    assert_eq!(count_digits(u32::MAX), 10);
}

#[test]
fn top_down_view_paints_tiles_and_player() {
    let maze = small_maze();
    let p = center_player();
    let mut fb = Framebuffer::new(64, 64);
    render2d(&mut fb, &maze, 8, &p);
    // tile (0,0) is a corner wall: white
    assert_eq!(fb.data[2 * 64 + 2], 0xFFFFFF);
    // tile (1,1) is open floor: black
    assert_eq!(fb.data[9 * 64 + 9], 0x000000);
    // the player marker: a red square of side 2 at (12, 12)
    assert_eq!(fb.data[12 * 64 + 12], 0xFF0000);
    assert_eq!(fb.data[13 * 64 + 13], 0xFF0000);
    assert_eq!(fb.data[14 * 64 + 14], 0x000000);
    // outside the painted region nothing changed
    assert_eq!(fb.data[30 * 64 + 30], 0);
}

#[test]
fn minimap_paints_tiles_and_player() {
    let maze = small_maze();
    let p = center_player();
    let mut fb = Framebuffer::new(128, 128);
    render_minimap(&mut fb, &maze, &p);
    // tile (0,0) starts at pixel (10,10) and is a wall: white
    assert_eq!(fb.data[11 * 128 + 11], 0xFFFFFF);
    // the middle tile is floor: black
    assert_eq!(fb.data[35 * 128 + 35], 0x000000);
    // the player marker starts at 10 + 30 = 40
    assert_eq!(fb.data[40 * 128 + 40], 0xFF0000);
    assert_eq!(fb.data[47 * 128 + 47], 0xFF0000);
    // before the minimap offset nothing changed
    assert_eq!(fb.data[5 * 128 + 5], 0);
}

#[test]
fn wall_strip_paints_one_column_with_its_texture() {
    let a = assets();
    let mut fb = Framebuffer::new(8, 8);
    draw_wall_strip(&mut fb, &a, '|', true, 0, 3, 2, 6);
    for y in 0..8usize {
        for x in 0..8usize {
            let expect = if x == 3 && (2..6).contains(&y) { 0x101010 } else { 0 };
            assert_eq!(fb.data[y * 8 + x], expect, "pixel {} {}", x, y);
        }
    }
    // a horizontal wall takes the other texture
    let mut fb2 = Framebuffer::new(8, 8);
    draw_wall_strip(&mut fb2, &a, '-', false, 0, 0, 0, 8);
    assert_eq!(fb2.data[4 * 8], 0x202020);
}

#[test]
fn full_frame_leaves_positive_depths() {
    let maze = small_maze();
    let p = center_player();
    let mut fb = Framebuffer::new(64, 64);
    let mut z: Vec<i64> = vec![-5; 64];
    let a = assets();
    let sprites = vec![Sprite { x: fp_from_milli(1500), y: fp_from_milli(1500) }];
    render3d(&mut fb, &maze, &p, &mut z, &sprites, 123, &a);
    for d in z.iter() {
        assert!(*d > 0 && *d <= Z_INF);
    }
    // left of the minimap: the full-height wall strip shows the wall
    // texture, but its bottom is clamped to the next-to-last row, so
    // the last row keeps the floor
    assert_eq!(fb.data[5 * 64 + 5], 0x101010);
    assert_eq!(fb.data[63 * 64 + 5], 0x303030);
    // the minimap player marker
    assert_eq!(fb.data[40 * 64 + 40], 0xFF0000);
}

#[test]
fn enemies_pass_keeps_or_records_depths() {
    let maze = load_maze(rows(&["+---+", "|   |", "+---+"])).unwrap();
    let p = center_player();
    let mut fb = Framebuffer::new(64, 64);
    let mut z: Vec<i64> = vec![0; 64];
    let a = assets();
    render_walls(&mut fb, &maze, &p, &mut z, &a);
    let before = z.clone();
    let sprites = vec![Sprite { x: fp_from_milli(3500), y: fp_from_milli(1500) }];
    render_enemies(&mut fb, &p, &sprites, &mut z, 0, &a);
    for i in 0..64usize {
        assert!(z[i] == before[i] || z[i] >= 32768);
        assert!(z[i] <= before[i], "depth grew at column {}", i);
    }
    assert_eq!(z[32], 2 * 65536);
}

#[test]
fn sky_mapping_stretches_horizontally() {
    // a texture two texels wide: the left half of the screen shows the
    // first, the right half the second
    let rgba: Vec<u8> = vec![0x11, 0, 0, 255, 0x22, 0, 0, 255];
    let sky = Texture::from_rgba(2, 1, &rgba).unwrap();
    let mut fb = Framebuffer::new(8, 8);
    render_sky(&mut fb, &sky);
    for x in 0..4usize {
        assert_eq!(fb.data[x], 0x110000);
    }
    for x in 4..8usize {
        assert_eq!(fb.data[x], 0x220000);
    }
}

#[test]
fn floor_mapping_stretches_vertically() {
    // a texture two texels tall: the third quarter of the screen shows
    // the first, the bottom quarter the second
    let rgba: Vec<u8> = vec![0x33, 0, 0, 255, 0x44, 0, 0, 255];
    let tex = Texture::from_rgba(1, 2, &rgba).unwrap();
    let mut fb = Framebuffer::new(8, 8);
    render_floor(&mut fb, &tex);
    for y in 4..6usize {
        assert_eq!(fb.data[y * 8], 0x330000);
    }
    for y in 6..8usize {
        assert_eq!(fb.data[y * 8], 0x440000);
    }
}

#[test]
fn goal_is_green_on_the_map_but_dark_on_the_minimap() {
    let maze = load_maze(rows(&["+-+", "|g|", "+-+"])).unwrap();
    let p = Player { x: fp_from_milli(1500), y: fp_from_milli(1500), a: 0, fov: fov() };
    let mut fb = Framebuffer::new(128, 128);
    render2d(&mut fb, &maze, 8, &p);
    assert_eq!(fb.data[9 * 128 + 9], 0x00FF00);
    let mut fb2 = Framebuffer::new(128, 128);
    render_minimap(&mut fb2, &maze, &p);
    assert_eq!(fb2.data[35 * 128 + 35], 0x000000);
}

#[test]
fn black_texels_are_transparent() {
    let maze = load_maze(rows(&["+---+", "|   |", "+---+"])).unwrap();
    let p = center_player();
    let mut fb = Framebuffer::new(64, 64);
    let mut z: Vec<i64> = vec![0; 64];
    let mut a = assets();
    // an all-black frame: every texel is the transparency key
    a.enemy_frames = vec![solid_texture(0x000000)];
    render_walls(&mut fb, &maze, &p, &mut z, &a);
    let fb_before = fb.data.clone();
    let sp = Sprite { x: fp_from_milli(3500), y: fp_from_milli(1500) };
    render_enemy(&mut fb, &p, &sp, &mut z, 0, &a);
    // nothing was painted, but the depth was still recorded
    assert_eq!(fb.data, fb_before);
    assert_eq!(z[32], 2 * 65536);
}
