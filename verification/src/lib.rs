//! A small image IO library: Netpbm (PBM, PGM, PPM, PAM) and BMP codecs over
//! in-memory byte buffers, with every decoder and encoder stated and proved
//! against a mathematical model of its format.

pub mod error;
pub mod io;
pub mod image;
pub mod text;
pub mod codecs;
pub mod format;

pub use error::{ImageError, IoErrorKind};
pub use image::{Image, ImageView, PixelFormat};
pub use format::decode;

