//! The BAV2 movie format, the Braille renderer that plays it, and the
//! helpers that turn still images into packed frames.
pub mod braille_text;
pub mod codec;
pub mod delta;
pub mod format;
pub mod laws;
pub mod patch;
pub mod pgm;
pub mod raster;
pub mod records;
pub mod writer;

pub use format::{Error, Metadata, Movie};
pub use writer::encode;
