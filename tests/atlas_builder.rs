use voxel_atlas::atlas::{AtlasBuilder, AtlasError, Placement};
use voxel_atlas::pixel::{PixelBuffer, Rgba};

fn solid(w: u32, h: u32, v: u8) -> PixelBuffer {
    PixelBuffer::from_pixels(w, h, vec![Rgba { r: v, g: v, b: v, a: v }; (w * h) as usize]).unwrap()
}

fn builder() -> AtlasBuilder {
    AtlasBuilder::new("tiles".to_string(), 16, 16)
}

fn at(p: Placement) -> (u32, u32) {
    (p.x, p.y)
}

#[test]
fn new_builder_has_four_by_four_units() {
    let b = AtlasBuilder::new("tiles".to_string(), 16, 8);
    assert_eq!(b.path(), "tiles");
    assert_eq!((b.unit_width(), b.unit_height()), (16, 8));
    let c = b.complete();
    assert_eq!((c.width(), c.height()), (64, 32));
    assert!(c.pixels().iter().all(|p| p.a == 0));
}

#[test]
fn first_tiles_follow_the_rings() {
    let mut b = builder();
    let want = [(0, 0), (0, 16), (16, 0), (16, 16), (0, 32), (16, 32), (32, 0), (32, 16), (32, 32)];
    for (i, w) in want.iter().enumerate() {
        let p = b.load(&format!("t{}", i), &solid(16, 16, i as u8 + 1)).unwrap();
        assert_eq!(at(p), *w);
        assert_eq!(p.ignored_frames, 0);
    }
    let c = b.complete();
    assert_eq!((c.width(), c.height()), (64, 64));
}

#[test]
fn loading_twice_gives_the_same_position() {
    let mut b = builder();
    b.load("a", &solid(16, 16, 1)).unwrap();
    let p = b.load("b", &solid(16, 16, 2)).unwrap();
    let q = b.load("b", &solid(16, 16, 99)).unwrap();
    assert_eq!(at(p), at(q));
    assert_eq!(b.position_of("b"), Some(at(p)));
    assert_eq!(b.position_of("c"), None);
    let c = b.complete();
    assert_eq!(c.get_pixel(at(p).0, at(p).1).a, 2);
}

#[test]
fn seventeenth_tile_doubles_the_canvas() {
    let mut b = builder();
    for i in 0..16u32 {
        b.load(&format!("t{}", i), &solid(16, 16, i as u8 + 1)).unwrap();
    }
    let firsts: Vec<(u32, u32)> = (0..16).map(|i| b.position_of(&format!("t{}", i)).unwrap()).collect();
    let p = b.load("t16", &solid(16, 16, 17)).unwrap();
    assert_eq!(at(p), (0, 64));
    let c = b.complete();
    assert_eq!((c.width(), c.height()), (128, 128));
    for (i, (x, y)) in firsts.iter().enumerate() {
        for dy in 0..16 {
            for dx in 0..16 {
                assert_eq!(c.get_pixel(x + dx, y + dy).a, i as u8 + 1);
            }
        }
    }
    assert_eq!(c.get_pixel(127, 127).a, 0);
}

#[test]
fn extra_frames_are_counted_and_left_out() {
    let mut b = builder();
    let mut pixels = vec![Rgba { r: 1, g: 1, b: 1, a: 200 }; 16 * 16];
    pixels.extend(vec![Rgba { r: 2, g: 2, b: 2, a: 100 }; 16 * 32]);
    let tile = PixelBuffer::from_pixels(16, 48, pixels).unwrap();
    let p = b.load("anim", &tile).unwrap();
    assert_eq!(p, Placement { x: 0, y: 0, ignored_frames: 2 });
    assert_eq!(b.min_alpha([0, 0, 16, 16]), 200);
    assert_eq!(b.min_alpha([0, 0, 16, 17]), 0);
}

#[test]
fn wrong_width_is_refused() {
    let mut b = builder();
    match b.load("w", &solid(8, 16, 1)) {
        Err(AtlasError::TileWidthMismatch { name, expected, found }) => {
            assert_eq!((name.as_str(), expected, found), ("w", 16, 8));
        }
        other => panic!("unexpected {:?}", other),
    }
    assert_eq!(b.position_of("w"), None);
    assert_eq!(at(b.load("x", &solid(16, 16, 1)).unwrap()), (0, 0));
}

#[test]
fn wrong_height_is_refused() {
    let mut b = builder();
    match b.load("h", &solid(16, 24, 1)) {
        Err(AtlasError::TileHeightMismatch { name, unit, found }) => {
            assert_eq!((name.as_str(), unit, found), ("h", 16, 24));
        }
        other => panic!("unexpected {:?}", other),
    }
    assert!(matches!(b.load("z", &solid(16, 0, 1)), Err(AtlasError::TileHeightMismatch { found: 0, .. })));
}

#[test]
fn min_alpha_scans_then_caches() {
    let mut b = builder();
    let mut pixels = vec![Rgba { r: 0, g: 0, b: 0, a: 255 }; 256];
    pixels[5 * 16 + 7].a = 40;
    let tile = PixelBuffer::from_pixels(16, 16, pixels).unwrap();
    b.load("t", &tile).unwrap();
    assert_eq!(b.min_alpha([0, 0, 16, 16]), 40);
    assert_eq!(b.min_alpha([0, 0, 16, 16]), 40);
    assert_eq!(b.min_alpha([8, 0, 8, 16]), 255);
    assert_eq!(b.min_alpha([3, 3, 0, 5]), 0);
    b.load("u", &solid(16, 16, 9)).unwrap();
    assert_eq!(b.min_alpha([0, 0, 16, 16]), 40);
    assert_eq!(b.min_alpha([0, 16, 16, 16]), 9);
}
