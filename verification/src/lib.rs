//! Packed-pixel image library.
//!
//! An image is a rectangular grid of 32-bit words, each packing four 8-bit
//! channels: three color channels (carrying either RGB or HSV values,
//! depending on the image's color-space tag) and a mask channel used for
//! region bookkeeping.  The library provides the bit-exact pixel codec,
//! integer-only RGB<->HSV conversion, pixel traversal primitives, and
//! sentinel-based mask erosion and dilation.

pub mod codec;
pub mod convert;
pub mod erode_dilate;
pub mod image;
pub mod types;

pub use codec::{pack, unpack};
pub use convert::{hsv_to_rgb, rgb_to_hsv};
pub use erode_dilate::{check_adjacent, dilate, erode, TMP_MASK};
pub use types::{ColorSpace, Image, Pixel};
pub use types::{BYTE_MASK, H_OFFSET, M_OFFSET, S_OFFSET, V_OFFSET};
