//! One chunk of a PNG image: its type, its contents and the checksum of
//! both.

use crate::buf::{be32, octets, put_u32, u32_from_be, written};
use crate::encoder::{EncodeAt, ImageEncoder};
use crate::error::Error;
use crate::util::{read_u32, read_u8_len4_array, same_id, split_to_checked};
use bytes::{Bytes, BytesMut};
use crc32fast::Hasher;
use vstd::prelude::*;

verus! {

/// `crc32fast::Hasher`: a CRC-32 computation in progress.
#[verifier::external_type_specification]
#[verifier::external_body]
pub struct ExHasher(Hasher);

/// The bytes that a `Hasher` has processed, first to last.
pub uninterp spec fn hashed(h: Hasher) -> Seq<u8>;

/// The CRC-32 (IEEE) checksum of `data`: what a `Hasher` that has
/// processed `data` gives.
pub uninterp spec fn crc32(data: Seq<u8>) -> u32;

/// `Hasher::new`: a computation that has processed nothing yet.
pub assume_specification[ Hasher::new ]() -> (h: Hasher)
    ensures
        hashed(h) == Seq::<u8>::empty(),
;

/// `Hasher::update`: processes the bytes of `buf`.
pub assume_specification[ Hasher::update ](h: &mut Hasher, buf: &[u8])
    ensures
        hashed(*final(h)) == hashed(*old(h)) + buf@,
;

/// `Hasher::finalize`: the checksum of all bytes processed.
pub assume_specification[ Hasher::finalize ](h: Hasher) -> (crc: u32)
    ensures
        crc == crc32(hashed(h)),
;

/// The representation of a chunk making up a [`Png`][super::Png]
#[derive(Debug, Clone, PartialEq, Eq)]
pub struct PngChunk {
    kind: [u8; 4],
    contents: Bytes,
    crc: [u8; 4],
}

/// What a chunk holds.
pub struct PngChunkView {
    /// The four bytes of the type.
    pub kind: Seq<u8>,
    /// The contents.
    pub contents: Seq<u8>,
    /// The four bytes of the checksum.
    pub crc: Seq<u8>,
}

/// The checksum of a chunk: the CRC-32 of its type and its contents, as
/// four bytes, most significant first.
pub open spec fn chunk_crc(kind: Seq<u8>, contents: Seq<u8>) -> Seq<u8> {
    be32(crc32(kind + contents) as int)
}

/// The chunk of the type `kind` that holds `contents`, with its checksum.
pub open spec fn checked_chunk(kind: Seq<u8>, contents: Seq<u8>) -> PngChunkView {
    PngChunkView { kind, contents, crc: chunk_crc(kind, contents) }
}

/// The length of the contents and the type, which open a chunk in a file.
pub open spec fn chunk_header(c: PngChunkView) -> Seq<u8> {
    be32(c.contents.len() as int) + c.kind
}

/// A chunk as it stands in a file: the length of its contents as a
/// big-endian number, its type, its contents and its checksum.
pub open spec fn png_chunk_wire(c: PngChunkView) -> Seq<u8> {
    chunk_header(c) + c.contents + c.crc
}

/// The fragments of a chunk: its header, its contents and its checksum.
pub open spec fn png_chunk_fragments(c: PngChunkView) -> Seq<Seq<u8>> {
    seq![chunk_header(c), c.contents, c.crc]
}

/// The size of a chunk once it is encoded: the length (4 bytes), the type
/// (4 bytes), the contents and the checksum (4 bytes).
pub open spec fn png_chunk_len(c: PngChunkView) -> nat {
    4 + 4 + c.contents.len() + 4
}

/// Whether a chunk is as a chunk of this library is: its type and its
/// checksum have four bytes.
pub open spec fn png_chunk_shaped(c: PngChunkView) -> bool {
    c.kind.len() == 4 && c.crc.len() == 4
}

/// Whether a chunk can be written: the length of its contents fits the
/// four bytes that carry it, and its size can be counted.
pub open spec fn png_chunk_encodable(c: PngChunkView) -> bool {
    c.contents.len() <= u32::MAX && png_chunk_len(c) <= usize::MAX
}

/// What reading one chunk from the front of `s` gives: the chunk and the
/// number of bytes read. A chunk that `s` ends in is truncated; one whose
/// checksum is not that of its type and contents has a bad CRC.
pub open spec fn parse_png_chunk(s: Seq<u8>) -> Result<(PngChunkView, int), Error> {
    if s.len() < 8 {
        Err(Error::Truncated)
    } else if s.len() - 8 < u32_from_be(s) {
        Err(Error::Truncated)
    } else if s.len() - 8 - u32_from_be(s) < 4 {
        Err(Error::Truncated)
    } else {
        let size = u32_from_be(s);
        let kind = s.subrange(4, 8);
        let contents = s.subrange(8, 8 + size);
        let crc = s.subrange(8 + size, 12 + size);
        if crc != chunk_crc(kind, contents) {
            Err(Error::BadCRC)
        } else {
            Ok((PngChunkView { kind, contents, crc }, 12 + size))
        }
    }
}

/// What reading one chunk from the front of `s` leaves of `s`, whether or
/// not it fails: what follows the last part of the chunk that `s` holds
/// whole, of its length, its type, its contents and its checksum.
pub open spec fn png_chunk_rest(s: Seq<u8>) -> Seq<u8> {
    if s.len() < 4 {
        s
    } else if s.len() < 8 {
        s.skip(4)
    } else if s.len() - 8 < u32_from_be(s) {
        s.skip(8)
    } else if s.len() - 8 - u32_from_be(s) < 4 {
        s.skip(8 + u32_from_be(s))
    } else {
        s.skip(12 + u32_from_be(s))
    }
}

impl View for PngChunk {
    type V = PngChunkView;

    closed spec fn view(&self) -> PngChunkView {
        PngChunkView { kind: self.kind@, contents: octets(self.contents), crc: self.crc@ }
    }
}

/// Compute the checksum of a chunk of the type `kind` that holds
/// `contents`.
pub fn compute_crc(kind: [u8; 4], contents: &[u8]) -> (crc: [u8; 4])
    ensures
        crc@ == chunk_crc(kind@, contents@),
{
    let mut hasher = Hasher::new();
    hasher.update(kind.as_slice());
    hasher.update(contents);
    let crc = hasher.finalize();
    assert(Seq::<u8>::empty() + kind@ + contents@ =~= kind@ + contents@);
    let bytes: [u8; 4] = [
        ((crc / 0x100_0000) % 0x100) as u8,
        ((crc / 0x1_0000) % 0x100) as u8,
        ((crc / 0x100) % 0x100) as u8,
        (crc % 0x100) as u8,
    ];
    assert(bytes@ =~= be32(crc as int)) by {
        reveal(be32);
    }
    bytes
}

impl PngChunk {
    /// Construct a new `PngChunk`
    pub fn new(kind: [u8; 4], contents: Bytes) -> (c: PngChunk)
        ensures
            c@ == checked_chunk(kind@, octets(contents)),
    {
        let crc = compute_crc(kind, crate::buf::as_slice(&contents));
        PngChunk { kind, contents, crc }
    }

    /// Create a `PngChunk` from `Bytes`
    ///
    /// # Errors
    ///
    /// This method fails if the chunk is corrupted or truncated.
    pub fn from_bytes(b: &mut Bytes) -> (r: Result<PngChunk, Error>)
        ensures
            match r {
                Ok(c) => {
                    &&& parse_png_chunk(octets(*old(b))) == Ok::<(PngChunkView, int), Error>(
                        (c@, 12 + c@.contents.len() as int),
                    )
                    &&& octets(*final(b)) == octets(*old(b)).skip(12 + c@.contents.len() as int)
                },
                Err(e) => parse_png_chunk(octets(*old(b))) == Err::<(PngChunkView, int), Error>(e),
            },
            octets(*final(b)) == png_chunk_rest(octets(*old(b))),
    {
        let ghost start = octets(*b);
        let size = match read_u32(b) {
            Ok(size) => size,
            Err(e) => { return Err(e); },
        };
        let kind = match read_u8_len4_array(b) {
            Ok(kind) => kind,
            Err(e) => { return Err(e); },
        };
        assert(octets(*b) =~= start.skip(8));
        let contents = match split_to_checked(b, size as usize) {
            Ok(contents) => contents,
            Err(e) => { return Err(e); },
        };
        assert(octets(*b) =~= start.skip(8 + size));
        let crc = match read_u8_len4_array(b) {
            Ok(crc) => crc,
            Err(e) => { return Err(e); },
        };
        proof {
            assert(kind@ =~= start.subrange(4, 8));
            assert(octets(contents) =~= start.subrange(8, 8 + size));
            assert(crc@ =~= start.subrange(8 + size, 12 + size));
            assert(octets(*b) =~= start.skip(12 + size));
        }
        let expected = compute_crc(kind, crate::buf::as_slice(&contents));
        if !same_id(&crc, &expected) {
            return Err(Error::BadCRC);
        }
        Ok(PngChunk { kind, contents, crc })
    }

    /// Get the size of this `PngChunk` once it is encoded
    ///
    /// The size is the sum of:
    ///
    /// - The length (4 bytes).
    /// - The type (4 bytes)
    /// - The size of the content
    /// - The crc (4 bytes)
    pub fn len(&self) -> (n: usize)
        requires
            png_chunk_len(self@) <= usize::MAX,
        ensures
            n == png_chunk_len(self@),
    {
        4 + 4 + self.contents.len() + 4
    }

    /// Get the type of this `PngChunk`
    pub fn kind(&self) -> (k: [u8; 4])
        ensures
            k@ == self@.kind,
    {
        self.kind
    }

    /// Get the content of this `PngChunk`
    pub fn contents(&self) -> (c: &Bytes)
        ensures
            octets(*c) == self@.contents,
    {
        &self.contents
    }

    /// Get the checksum of this `PngChunk`
    pub fn crc(&self) -> (c: [u8; 4])
        ensures
            c@ == self@.crc,
    {
        self.crc
    }

    /// Create an [encoder][crate::ImageEncoder] for this `PngChunk`
    pub fn encoder(self) -> (e: ImageEncoder<PngChunk>)
        requires
            png_chunk_encodable(self@),
        ensures
            e.remaining() == png_chunk_fragments(self@),
    {
        ImageEncoder::new(self)
    }
}

/// What a chunk holds is shaped: its type and its checksum have four
/// bytes.
pub proof fn lemma_png_chunk_shaped(c: PngChunk)
    ensures
        png_chunk_shaped(c@),
{
}

/// The fragments of a chunk make up the chunk as it stands in a file, and
/// its size is the length of that.
pub proof fn lemma_png_chunk_fragments(c: PngChunkView)
    requires
        png_chunk_shaped(c),
    ensures
        png_chunk_fragments(c).flatten() == png_chunk_wire(c),
        png_chunk_wire(c).len() == png_chunk_len(c),
        png_chunk_fragments(c).len() == 3,
{
    let f = png_chunk_fragments(c);
    crate::buf::lemma_be32(0, Seq::empty());
    assert(be32(c.contents.len() as int).len() == 4) by {
        crate::buf::lemma_be32(c.contents.len() as int, Seq::empty());
    }
    assert(f =~= seq![chunk_header(c)] + seq![c.contents] + seq![c.crc]);
    vstd::seq_lib::lemma_flatten_concat(seq![chunk_header(c)], seq![c.contents]);
    vstd::seq_lib::lemma_flatten_concat(seq![chunk_header(c)] + seq![c.contents], seq![c.crc]);
    seq![chunk_header(c)].lemma_flatten_one_element();
    seq![c.contents].lemma_flatten_one_element();
    seq![c.crc].lemma_flatten_one_element();
}

impl EncodeAt for PngChunk {
    open spec fn fragments(&self) -> Seq<Seq<u8>> {
        png_chunk_fragments(self@)
    }

    open spec fn encodable(&self) -> bool {
        png_chunk_encodable(self@)
    }

    proof fn lemma_encodable_bounds(&self) {
        lemma_png_chunk_shaped(*self);
        lemma_png_chunk_fragments(self@);
    }

    fn encode_at(&self, pos: &mut usize) -> (r: Option<Bytes>) {
        if *pos == 0 {
            let mut header = BytesMut::with_capacity(8);
            put_u32(&mut header, self.contents.len() as u32);
            header.extend_from_slice(self.kind.as_slice());
            assert(written(header) =~= chunk_header(self@));
            Some(header.freeze())
        } else if *pos == 1 {
            Some(self.contents.clone())
        } else if *pos == 2 {
            Some(Bytes::copy_from_slice(self.crc.as_slice()))
        } else {
            *pos = *pos - 3;
            None
        }
    }

    fn is_encodable(&self) -> (r: bool) {
        let n = self.contents.len();
        n <= 0xFFFF_FFFF && n <= usize::MAX - 12
    }

    fn encoded_len(&self) -> (n: usize) {
        proof {
            lemma_png_chunk_shaped(*self);
            lemma_png_chunk_fragments(self@);
        }
        self.len()
    }
}

} // verus!
