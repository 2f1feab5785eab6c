//! The kinds of WebP images, and the frame header of the lossy one.

use crate::buf::u16_from_le;
use crate::util::u24_from_le_bytes;
use vstd::prelude::*;

verus! {

/// The kind of a WebP image.
#[derive(Debug, Copy, Clone, PartialEq, Eq, Structural)]
pub enum VP8Kind {
    /// A WebP image in Simple File Format (Lossy)
    VP8,
    /// A WebP image in Simple File Format (Lossless)
    VP8L,
    /// A WebP image in Extended File format
    VP8X,
}

/// Whether `b` opens with the header of a key frame: ten bytes of which
/// the first has its lowest bit clear, and the fourth to sixth are the
/// start code `9d 01 2a`.
pub open spec fn is_keyframe_header(b: Seq<u8>) -> bool {
    &&& b.len() >= 10
    &&& b[0] % 2 == 0
    &&& b[3] == 0x9d
    &&& b[4] == 0x01
    &&& b[5] == 0x2a
}

/// The width and the height that the header of a key frame gives: the low
/// 14 bits of the little-endian numbers at the bytes 6 and 8.
pub open spec fn keyframe_size(b: Seq<u8>) -> (u16, u16) {
    (
        (u16_from_le(b.subrange(6, 8)) % 0x4000) as u16,
        (u16_from_le(b.subrange(8, 10)) % 0x4000) as u16,
    )
}

/// Whether `b` opens with the header of a key frame.
pub fn has_keyframe_header(b: &[u8]) -> (r: bool)
    ensures
        r == is_keyframe_header(b@),
{
    if b.len() < 10 {
        return false;
    }
    let tag = u24_from_le_bytes([b[0], b[1], b[2]]);
    tag % 2 == 0 && b[3] == 0x9d && b[4] == 0x01 && b[5] == 0x2a
}

/// Read the width and the height of a lossy image from the header of its
/// key frame, which the first 10 bytes of `b` are.
pub fn size_from_vp8_header(b: &[u8]) -> (r: (u16, u16))
    requires
        is_keyframe_header(b@),
    ensures
        r == keyframe_size(b@),
{
    let width: u16 = b[6] as u16 + (b[7] as u16) * 0x100;
    let height: u16 = b[8] as u16 + (b[9] as u16) * 0x100;
    (width % 0x4000, height % 0x4000)
}

} // verus!
