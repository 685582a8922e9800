//! Turning decoded images into RGBA buffers, the reference color map, and the
//! atlas builder.

use vstd::prelude::*;
use crate::pixel::{Image, PixelBuffer, Rgba};

verus! {

/// Channel layout of a decoded image.
#[derive(Debug)]
pub enum ColorLayout {
    /// Three bytes per pixel: red, green, blue.
    Rgb8,
    /// Four bytes per pixel: red, green, blue, alpha.
    Rgba8,
    /// Any other layout, by its name.
    Other(String),
}

/// An image as a decoder hands it over: its layout, size and raw bytes, row by row.
#[derive(Debug)]
pub struct RawImage {
    pub layout: ColorLayout,
    pub width: u32,
    pub height: u32,
    pub bytes: Vec<u8>,
}

/// Why an image could not be used.
#[derive(Debug)]
pub enum ImageError {
    /// The image has a channel layout other than RGB or RGBA.
    UnsupportedColorLayout { layout: String, source: String },
    /// The source could not be read or decoded.
    DecodeFailure { source: String, cause: String },
    /// The image does not have the size that its use requires.
    DimensionMismatch {
        source: String,
        expected_width: u32,
        expected_height: u32,
        found_width: u32,
        found_height: u32,
    },
}

/// Bytes per pixel of a supported layout.
pub open spec fn bytes_per_pixel(layout: ColorLayout) -> nat {
    match layout {
        ColorLayout::Rgb8 => 3,
        _ => 4,
    }
}

/// The `n` pixels that `bytes` holds in the given layout; RGB pixels get an
/// opaque alpha.
pub open spec fn pixels_of(layout: ColorLayout, bytes: Seq<u8>, n: nat) -> Seq<Rgba> {
    match layout {
        ColorLayout::Rgb8 => Seq::new(
            n,
            |i: int| Rgba { r: bytes[3 * i], g: bytes[3 * i + 1], b: bytes[3 * i + 2], a: 255 },
        ),
        _ => Seq::new(
            n,
            |i: int| Rgba { r: bytes[4 * i], g: bytes[4 * i + 1], b: bytes[4 * i + 2], a: bytes[4 * i + 3] },
        ),
    }
}

/// The RGBA image that `raw` stands for, if its layout is supported and its
/// bytes match its size.
pub open spec fn rgba_image(raw: RawImage) -> Option<Image> {
    if raw.layout is Other {
        None
    } else if raw.bytes@.len() != raw.width * raw.height * bytes_per_pixel(raw.layout) {
        None
    } else {
        Some(
            Image {
                width: raw.width as nat,
                height: raw.height as nat,
                pixels: pixels_of(raw.layout, raw.bytes@, (raw.width * raw.height) as nat),
            },
        )
    }
}

/// Whether `e` is the error that converting `raw`, read from `source`, gives
/// when `rgba_image(raw)` is `None`.
pub open spec fn is_conversion_error(raw: RawImage, source: Seq<char>, e: ImageError) -> bool {
    match raw.layout {
        ColorLayout::Other(name) => e matches ImageError::UnsupportedColorLayout { layout, source: s }
            && layout@ == name@ && s@ == source,
        _ => e matches ImageError::DecodeFailure { source: s, .. } && s@ == source,
    }
}

/// Converts a decoded image to RGBA: RGBA is taken as it is, RGB gets an opaque
/// alpha channel, any other layout is refused.
pub fn to_rgba8(source: &str, raw: RawImage) -> (r: Result<PixelBuffer, ImageError>)
    ensures
        rgba_image(raw) matches Some(img) ==> r matches Ok(b) && b.wf() && b@ == img,
        rgba_image(raw) is None ==> (r matches Err(e) && is_conversion_error(raw, source@, e)),
{
    let ghost raw0 = raw;
    let RawImage { layout, width, height, bytes } = raw;
    let per: u128 = match &layout {
        ColorLayout::Rgb8 => 3,
        ColorLayout::Rgba8 => 4,
        ColorLayout::Other(name) => {
            return Err(
                ImageError::UnsupportedColorLayout { layout: name.clone(), source: source.to_owned() },
            );
        },
    };
    proof {
        crate::pixel::lemma_u32_product(width, height);
    }
    let n128: u128 = (width as u128) * (height as u128);
    if (bytes.len() as u128) != n128 * per {
        return Err(
            ImageError::DecodeFailure {
                source: source.to_owned(),
                cause: "the pixel data does not match the image size".to_owned(),
            },
        );
    }
    let n: usize = n128 as usize;
    let len: usize = bytes.len();
    let ghost want = pixels_of(layout, bytes@, n as nat);
    let mut pixels: Vec<Rgba> = Vec::new();
    let mut i: usize = 0;
    while i < n
        invariant
            i <= n,
            bytes@.len() == n * per,
            len == bytes@.len(),
            per == bytes_per_pixel(layout),
            !(layout is Other),
            want == pixels_of(layout, bytes@, n as nat),
            pixels@.len() == i,
            forall|k: int| 0 <= k < i ==> pixels@[k] == want[k],
        decreases n - i,
    {
        proof {
            assert((i + 1) * per <= n * per) by (nonlinear_arith)
                requires i + 1 <= n, 0 <= per;
            assert((i + 1) * per == i * per + per) by (nonlinear_arith);
            assert(per == 3 ==> i * per == 3 * i);
            assert(per == 4 ==> i * per == 4 * i);
        }
        let p = if per == 3 {
            Rgba { r: bytes[3 * i], g: bytes[3 * i + 1], b: bytes[3 * i + 2], a: 255 }
        } else {
            Rgba { r: bytes[4 * i], g: bytes[4 * i + 1], b: bytes[4 * i + 2], a: bytes[4 * i + 3] }
        };
        pixels.push(p);
        i = i + 1;
    }
    proof {
        assert(pixels@ =~= want);
    }
    match PixelBuffer::from_pixels(width, height, pixels) {
        Some(b) => Ok(b),
        None => Err(
            ImageError::DecodeFailure {
                source: source.to_owned(),
                cause: "the pixel data does not match the image size".to_owned(),
            },
        ),
    }
}

/// A 256x256 image that gives colors for pairs of parameters.
pub struct ColorMap {
    image: PixelBuffer,
}

impl View for ColorMap {
    type V = Image;

    closed spec fn view(&self) -> Image {
        self.image@
    }
}

impl ColorMap {
    /// Holds a well-formed 256x256 image.
    pub closed spec fn wf(&self) -> bool {
        &&& self.image.wf()
        &&& self@.width == 256
        &&& self@.height == 256
    }

    /// Builds the map from the image decoded from `path`, which must be 256x256.
    pub fn from_path(path: &str, raw: RawImage) -> (r: Result<ColorMap, ImageError>)
        ensures
            rgba_image(raw) is None ==> (r matches Err(e) && is_conversion_error(raw, path@, e)),
            rgba_image(raw) matches Some(img) ==> if img.width == 256 && img.height == 256 {
                r matches Ok(m) && m.wf() && m@ == img
            } else {
                r matches Err(ImageError::DimensionMismatch {
                    source,
                    expected_width,
                    expected_height,
                    found_width,
                    found_height,
                }) && source@ == path@ && expected_width == 256 && expected_height == 256
                    && found_width == img.width && found_height == img.height
            },
    {
        let image = match to_rgba8(path, raw) {
            Ok(b) => b,
            Err(e) => {
                return Err(e);
            },
        };
        let w = image.width();
        let h = image.height();
        if w == 256 && h == 256 {
            Ok(ColorMap { image })
        } else {
            Err(
                ImageError::DimensionMismatch {
                    source: path.to_owned(),
                    expected_width: 256,
                    expected_height: 256,
                    found_width: w,
                    found_height: h,
                },
            )
        }
    }

    /// Red, green and blue of the pixel in column `x` of row `y`; every byte
    /// pair is a valid position.
    pub fn rgb_at(&self, x: u8, y: u8) -> (r: [u8; 3])
        requires
            self.wf(),
        ensures
            r@ == seq![
                self@.at(x as int, y as int).r,
                self@.at(x as int, y as int).g,
                self@.at(x as int, y as int).b,
            ],
    {
        let p = self.image.get_pixel(x as u32, y as u32);
        [p.r, p.g, p.b]
    }
}

} // verus!
