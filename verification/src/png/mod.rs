//! PNG images: an ordered sequence of chunks behind the signature.

pub mod chunk;
pub mod image;
pub mod laws;

pub use self::chunk::{PngChunk, PngChunkView};
pub use self::image::Png;
