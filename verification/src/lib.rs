//! A library for encoding and decoding images in the XBM (X BitMap) format,
//! the text-based monochrome image format of the X Window System.
//!
//! An XBM document is a fragment of C source code: two or four `#define`
//! lines giving the image's dimensions and an optional hotspot, followed by
//! a `static` array of hexadecimal byte literals holding the pixels, one bit
//! per pixel, least-significant bit first, with every row padded to a whole
//! number of bytes.
//!
//! [`Decoder`] parses such a document into its header fields and a buffer of
//! `0`/`1` pixel bytes; [`Encoder`] performs the inverse transformation.

pub mod decode;
pub mod encode;
mod num;
pub mod roundtrip;
mod text;

pub use crate::decode::Decoder;
pub use crate::encode::Encoder;
