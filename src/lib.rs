//! Packing of uniform square tiles into one growable RGBA atlas, and a
//! two-parameter color lookup into a 256x256 reference image.

pub mod atlas;
pub mod packing;
pub mod pixel;
pub mod texture;
