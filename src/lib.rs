//! Decoding and encoding of Netpbm images (bitmap, graymap and pixmap, each as text or
//! in binary), with the checks and window sampling that a convolution kernel needs.
//!
//! `decode::decode_spec` and `encode::encode_spec` state what the two directions do on
//! bytes; `laws` proves how they fit together.

pub mod decode;
pub mod encode;
pub mod image;
pub mod kernel;
pub mod laws;
pub mod number;
pub mod text;

pub use image::{Color8, Encoding, Error, Format, Image, ImageData};
