use raycaster::maze::{is_space, load_maze, Grid, MapError};
use raycaster::textures::Texture;

fn rows(strs: &[&str]) -> Vec<Vec<char>> {
    strs.iter().map(|s| s.chars().collect()).collect()
}

#[test]
fn from_rgba_packs_and_strips_alpha() {
    // 2 wide, 1 tall, row-major RGBA
    let rgba: Vec<u8> = vec![0x12, 0x34, 0x56, 0xFF, 0xAB, 0xCD, 0xEF, 0x00];
    let t = Texture::from_rgba(2, 1, &rgba).unwrap();
    assert_eq!(t.width, 2);
    assert_eq!(t.height, 1);
    assert_eq!(t.get_pixel_color(0, 0), 0x123456);
    assert_eq!(t.get_pixel_color(1, 0), 0xABCDEF);
}

#[test]
fn from_rgba_rejects_bad_sizes() {
    let rgba: Vec<u8> = vec![0; 8];
    assert!(Texture::from_rgba(0, 1, &rgba).is_none());
    assert!(Texture::from_rgba(3, 1, &rgba).is_none());
    assert!(Texture::from_rgba(2, 1, &vec![0; 7]).is_none());
    assert!(Texture::from_rgba(5000, 1, &rgba).is_none());
}

#[test]
fn sampling_is_toroidal() {
    let rgba: Vec<u8> = vec![
        1, 0, 0, 255, 2, 0, 0, 255, // row 0
        3, 0, 0, 255, 4, 0, 0, 255, // row 1
    ];
    let t = Texture::from_rgba(2, 2, &rgba).unwrap();
    for x in 0..2u32 {
        for y in 0..2u32 {
            let base = t.get_pixel_color(x, y);
            for k in 0..4u32 {
                for m in 0..4u32 {
                    assert_eq!(t.get_pixel_color(x + k * 2, y + m * 2), base);
                }
            }
        }
    }
    // the four texels really differ, so wrap-around is observable
    assert_eq!(t.get_pixel_color(0, 0), 0x010000);
    assert_eq!(t.get_pixel_color(1, 0), 0x020000);
    assert_eq!(t.get_pixel_color(0, 1), 0x030000);
    assert_eq!(t.get_pixel_color(1, 1), 0x040000);
}

/// A two-pixel 24-bit BMP file: red then green on one row.
fn tiny_bmp() -> Vec<u8> {
    let mut b: Vec<u8> = Vec::new();
    // file header
    b.extend_from_slice(&[0x42, 0x4D]); // "BM"
    b.extend_from_slice(&62u32.to_le_bytes()); // file size
    b.extend_from_slice(&[0, 0, 0, 0]); // reserved
    b.extend_from_slice(&54u32.to_le_bytes()); // pixel data offset
    // info header
    b.extend_from_slice(&40u32.to_le_bytes()); // header size
    b.extend_from_slice(&2i32.to_le_bytes()); // width
    b.extend_from_slice(&1i32.to_le_bytes()); // height
    b.extend_from_slice(&1u16.to_le_bytes()); // planes
    b.extend_from_slice(&24u16.to_le_bytes()); // bits per pixel
    b.extend_from_slice(&0u32.to_le_bytes()); // no compression
    b.extend_from_slice(&8u32.to_le_bytes()); // image size
    b.extend_from_slice(&2835i32.to_le_bytes()); // x pixels per meter
    b.extend_from_slice(&2835i32.to_le_bytes()); // y pixels per meter
    b.extend_from_slice(&0u32.to_le_bytes()); // palette colors
    b.extend_from_slice(&0u32.to_le_bytes()); // important colors
    // one row, BGR, padded to four bytes
    b.extend_from_slice(&[0x00, 0x00, 0xFF]); // red pixel
    b.extend_from_slice(&[0x00, 0xFF, 0x00]); // green pixel
    b.extend_from_slice(&[0x00, 0x00]); // padding
    b
}

#[test]
fn new_decodes_an_encoded_image() {
    let t = Texture::new(&tiny_bmp()).unwrap();
    assert_eq!(t.width, 2);
    assert_eq!(t.height, 1);
    assert_eq!(t.get_pixel_color(0, 0), 0xFF0000);
    assert_eq!(t.get_pixel_color(1, 0), 0x00FF00);
}

/// A 24-bit BMP file of the given width, one row tall, all black.
fn wide_bmp(width: u32) -> Vec<u8> {
    let row = ((width * 3 + 3) / 4) * 4;
    let size = 54 + row;
    let mut b: Vec<u8> = Vec::new();
    b.extend_from_slice(&[0x42, 0x4D]);
    b.extend_from_slice(&size.to_le_bytes());
    b.extend_from_slice(&[0, 0, 0, 0]);
    b.extend_from_slice(&54u32.to_le_bytes());
    b.extend_from_slice(&40u32.to_le_bytes());
    b.extend_from_slice(&(width as i32).to_le_bytes());
    b.extend_from_slice(&1i32.to_le_bytes());
    b.extend_from_slice(&1u16.to_le_bytes());
    b.extend_from_slice(&24u16.to_le_bytes());
    b.extend_from_slice(&0u32.to_le_bytes());
    b.extend_from_slice(&row.to_le_bytes());
    b.extend_from_slice(&2835i32.to_le_bytes());
    b.extend_from_slice(&2835i32.to_le_bytes());
    b.extend_from_slice(&0u32.to_le_bytes());
    b.extend_from_slice(&0u32.to_le_bytes());
    for _ in 0..row {
        b.push(0);
    }
    b
}

#[test]
fn new_rejects_images_beyond_the_size_cap() {
    // decodable, but wider than a texture may be
    assert!(Texture::new(&wide_bmp(5000)).is_none());
    // the same file at an accepted width decodes
    assert!(Texture::new(&wide_bmp(4096)).is_some());
}

#[test]
fn new_rejects_garbage() {
    assert!(Texture::new(&vec![1, 2, 3, 4, 5]).is_none());
    assert!(Texture::new(&Vec::new()).is_none());
}

#[test]
fn load_maze_accepts_rectangles() {
    let g: Grid = load_maze(rows(&["+-+", "| |", "+-+"])).unwrap();
    assert_eq!(g.width(), 3);
    assert_eq!(g.height(), 3);
    assert_eq!(g.at(0, 0), '+');
    assert_eq!(g.at(1, 1), ' ');
    assert_eq!(g.at(2, 1), '|');
    assert_eq!(g.at(1, 2), '-');
}

fn expect_invalid(r: Result<Grid, MapError>) {
    match r {
        Ok(_) => panic!("expected an invalid maze"),
        Err(e) => assert_eq!(e, MapError::InvalidMap),
    }
}

#[test]
fn load_maze_rejects_empty() {
    expect_invalid(load_maze(Vec::new()));
    expect_invalid(load_maze(rows(&[""])));
}

#[test]
fn load_maze_rejects_ragged() {
    expect_invalid(load_maze(rows(&["+-+", "| ", "+-+"])));
}

#[test]
fn spawn_counts_as_space() {
    assert!(is_space(' '));
    assert!(is_space('p'));
    assert!(!is_space('|'));
    assert!(!is_space('-'));
    assert!(!is_space('+'));
    assert!(!is_space('g'));
}
