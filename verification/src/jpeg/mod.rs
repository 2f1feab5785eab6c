//! JPEG images: an ordered sequence of segments behind the start-of-image
//! marker.

pub mod entropy;
pub mod image;
pub mod laws;
pub mod markers;
pub mod segment;

pub use self::entropy::{stuff, unstuff, Entropy, EntropyScanner};
pub use self::image::Jpeg;
pub use self::segment::{JpegSegment, JpegSegmentView};

use vstd::prelude::*;

verus! {

/// Sniff the signature of a JPEG file: more than 4 bytes that open with
/// the start-of-image marker and the first byte of another marker.
pub open spec fn spec_is_jpeg(buf: Seq<u8>) -> bool {
    buf.len() > 4 && buf[0] == markers::P && buf[1] == markers::SOI && buf[2] == markers::P
}

/// Whether `buf` opens as a JPEG file does.
pub fn is_jpeg(buf: &[u8]) -> (r: bool)
    ensures
        r == spec_is_jpeg(buf@),
{
    buf.len() > 4 && buf[0] == markers::P && buf[1] == markers::SOI && buf[2] == markers::P
}

} // verus!
