use voxel_atlas::texture::{to_rgba8, ColorLayout, ColorMap, ImageError, RawImage};
use voxel_atlas::pixel::Rgba;

fn raw(layout: ColorLayout, width: u32, height: u32, bytes: Vec<u8>) -> RawImage {
    RawImage { layout, width, height, bytes }
}

#[test]
fn rgb_gets_opaque_alpha() {
    let b = to_rgba8("a.png", raw(ColorLayout::Rgb8, 2, 1, vec![1, 2, 3, 4, 5, 6])).unwrap();
    assert_eq!(b.pixels().clone(), vec![Rgba { r: 1, g: 2, b: 3, a: 255 }, Rgba { r: 4, g: 5, b: 6, a: 255 }]);
}

#[test]
fn rgba_is_taken_as_it_is() {
    let b = to_rgba8("a.png", raw(ColorLayout::Rgba8, 1, 2, vec![1, 2, 3, 4, 5, 6, 7, 8])).unwrap();
    assert_eq!((b.width(), b.height()), (1, 2));
    assert_eq!(b.get_pixel(0, 1), Rgba { r: 5, g: 6, b: 7, a: 8 });
}

#[test]
fn grayscale_is_an_unsupported_layout() {
    let e = to_rgba8("tiles/grass.png", raw(ColorLayout::Other("L8".to_string()), 1, 1, vec![9])).unwrap_err();
    match e {
        ImageError::UnsupportedColorLayout { layout, source } => {
            assert_eq!(layout, "L8");
            assert_eq!(source, "tiles/grass.png");
        }
        other => panic!("unexpected {:?}", other),
    }
}

#[test]
fn short_pixel_data_is_a_decode_failure() {
    let e = to_rgba8("b.png", raw(ColorLayout::Rgb8, 2, 2, vec![0; 11])).unwrap_err();
    assert!(matches!(e, ImageError::DecodeFailure { ref source, .. } if source == "b.png"));
}

fn gradient_map_bytes() -> Vec<u8> {
    let mut v = Vec::new();
    for y in 0..256u32 {
        for x in 0..256u32 {
            v.extend_from_slice(&[x as u8, y as u8, (x ^ y) as u8]);
        }
    }
    v
}

#[test]
fn color_map_reads_corners() {
    let m = ColorMap::from_path("map.png", raw(ColorLayout::Rgb8, 256, 256, gradient_map_bytes())).unwrap();
    assert_eq!(m.rgb_at(255, 255), [255, 255, 0]);
    assert_eq!(m.rgb_at(0, 0), [0, 0, 0]);
    assert_eq!(m.rgb_at(3, 200), [3, 200, 3 ^ 200]);
}

#[test]
fn color_map_must_be_256_square() {
    let e = ColorMap::from_path("map.png", raw(ColorLayout::Rgba8, 2, 3, vec![0; 24])).err().unwrap();
    match e {
        ImageError::DimensionMismatch { source, expected_width, expected_height, found_width, found_height } => {
            assert_eq!(source, "map.png");
            assert_eq!((expected_width, expected_height, found_width, found_height), (256, 256, 2, 3));
        }
        other => panic!("unexpected {:?}", other),
    }
}

#[test]
fn color_map_passes_on_conversion_errors() {
    let e = ColorMap::from_path("g.png", raw(ColorLayout::Other("La8".to_string()), 256, 256, vec![])).err().unwrap();
    assert!(matches!(e, ImageError::UnsupportedColorLayout { .. }));
}
