//! The flags of an extended WebP image.

use super::{has_chunk_of, WebP, CHUNK_EXIF, CHUNK_ICCP};
use vstd::prelude::*;

verus! {

/// The bit that says that an image has an ICC profile.
pub const FLAG_ICC: u8 = 0x20;

/// The bit that says that an image has EXIF metadata.
pub const FLAG_EXIF: u8 = 0x08;

/// The first four bytes of the `VP8X` chunk: one byte of flags and three
/// reserved bytes.
#[derive(Debug, Copy, Clone, PartialEq, Eq)]
pub struct WebPFlags(pub [u8; 4]);

/// The flags of an image with or without an ICC profile and EXIF
/// metadata: bit 5 for the first, bit 3 for the second.
pub open spec fn flags_byte(icc: bool, exif: bool) -> u8 {
    ((if icc { FLAG_ICC } else { 0u8 }) + (if exif { FLAG_EXIF } else { 0u8 })) as u8
}

impl Default for WebPFlags {
    fn default() -> (f: WebPFlags)
        ensures
            f.0@ == seq![0u8, 0u8, 0u8, 0u8],
    {
        let f = WebPFlags([0, 0, 0, 0]);
        assert(f.0@ =~= seq![0u8, 0u8, 0u8, 0u8]);
        f
    }
}

impl WebPFlags {
    /// The flags that say which metadata `webp` has.
    pub fn from_webp(webp: &WebP) -> (f: WebPFlags)
        ensures
            f.0@ == seq![
                flags_byte(has_chunk_of(webp@, CHUNK_ICCP@), has_chunk_of(webp@, CHUNK_EXIF@)),
                0u8,
                0u8,
                0u8,
            ],
    {
        let mut flags: u8 = 0;
        if webp.has_chunk(CHUNK_ICCP) {
            flags = flags + FLAG_ICC;
        }
        if webp.has_chunk(CHUNK_EXIF) {
            flags = flags + FLAG_EXIF;
        }
        let f = WebPFlags([flags, 0, 0, 0]);
        assert(f.0@ =~= seq![flags, 0u8, 0u8, 0u8]);
        f
    }
}

} // verus!
