use voxel_atlas::pixel::{PixelBuffer, Rgba};

fn px(r: u8, g: u8, b: u8, a: u8) -> Rgba {
    Rgba { r, g, b, a }
}

fn numbered(w: u32, h: u32) -> PixelBuffer {
    let mut v = Vec::new();
    for y in 0..h {
        for x in 0..w {
            v.push(px(x as u8, y as u8, 7, (10 * y + x) as u8));
        }
    }
    PixelBuffer::from_pixels(w, h, v).unwrap()
}

#[test]
fn new_buffer_is_transparent_black() {
    let b = PixelBuffer::new(3, 2);
    assert_eq!(b.width(), 3);
    assert_eq!(b.height(), 2);
    assert_eq!(b.pixels().len(), 6);
    assert!(b.pixels().iter().all(|p| *p == px(0, 0, 0, 0)));
}

#[test]
fn from_pixels_needs_one_pixel_per_cell() {
    assert!(PixelBuffer::from_pixels(2, 2, vec![px(1, 2, 3, 4); 3]).is_none());
    assert!(PixelBuffer::from_pixels(2, 2, vec![px(1, 2, 3, 4); 4]).is_some());
}

#[test]
fn get_pixel_is_row_major() {
    let b = numbered(3, 2);
    assert_eq!(b.get_pixel(2, 1), px(2, 1, 7, 12));
    assert_eq!(b.pixels()[5], px(2, 1, 7, 12));
}

#[test]
fn enlarged_keeps_coordinates_and_pads_blank() {
    let b = numbered(3, 2);
    let e = b.enlarged(6, 4);
    assert_eq!((e.width(), e.height()), (6, 4));
    for y in 0..4 {
        for x in 0..6 {
            let want = if x < 3 && y < 2 { b.get_pixel(x, y) } else { px(0, 0, 0, 0) };
            assert_eq!(e.get_pixel(x, y), want);
        }
    }
}

#[test]
fn copy_region_writes_only_the_rectangle() {
    let mut dst = PixelBuffer::new(5, 5);
    let tile = numbered(3, 3);
    dst.copy_region(&tile, 1, 2, 2, 3);
    for y in 0..5 {
        for x in 0..5 {
            let inside = (1..3).contains(&x) && (2..5).contains(&y);
            let want = if inside { tile.get_pixel(x - 1, y - 2) } else { px(0, 0, 0, 0) };
            assert_eq!(dst.get_pixel(x, y), want);
        }
    }
}

#[test]
fn min_alpha_in_scans_the_rectangle() {
    let b = numbered(4, 4);
    assert_eq!(b.min_alpha_in(1, 1, 2, 2), 11);
    assert_eq!(b.min_alpha_in(3, 2, 1, 2), 23);
    assert_eq!(b.min_alpha_in(0, 0, 0, 4), 0);
    assert_eq!(b.min_alpha_in(2, 2, 2, 0), 0);
}
