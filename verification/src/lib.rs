//! Low level reading and writing of the containers of JPEG, PNG and
//! RIFF/WebP images.
//!
//! An image is read from a buffer into its parts, the segments of a
//! [`Jpeg`][jpeg::Jpeg] or the chunks of a [`Png`][png::Png] or a
//! [`WebP`][webp::WebP], without a look at its pixels. The parts can be
//! changed; the ICC profile and the EXIF metadata are read and replaced
//! through [`ImageICC`] and [`ImageEXIF`]. The image is written as a
//! sequence of fragments that share the memory of what was read: an
//! [`ImageEncoder`] yields them one by one, and an image that was not
//! changed is written as the bytes it was read from.
//!
//! [`DynImage`] picks the format by the signature of the file.
//!
//! The functions are verified against what they are stated to do: each
//! module says what a file holds (`parse_jpeg`, `parse_png`,
//! `parse_webp`), how a container stands in a file (`jpeg_wire`,
//! `png_wire`, `chunk_wire`), and what reading, writing and changing do
//! in these terms; the modules `laws` hold what follows for reading what
//! was written, for files that are cut short and for metadata that is set
//! and got.

pub mod buf;
pub mod common;
pub mod encoder;
pub mod error;
pub mod jpeg;
pub mod png;
pub mod riff;
pub mod seqs;
pub mod traits;
pub mod util;
pub mod vp8;
pub mod webp;

pub use bytes::Bytes;
pub use common::DynImage;
pub use encoder::{EncodeAt, ImageEncoder, ImageEncoderReader, Pieces};
pub use error::Error;
pub use traits::{ImageEXIF, ImageICC};
