//! WebP images: a `RIFF` chunk of the kind `WEBP`, as the sequence of the
//! chunks inside it.

pub mod flags;
pub mod laws;

use self::flags::{flags_byte, WebPFlags};
use crate::buf::{as_slice, le24, octets, put_u32_le, slice, u24_from_le, written};
use crate::encoder::{encode_at_each, fragments_of_each, EncodeAt, ImageEncoder};
use crate::error::Error;
use crate::jpeg::segment::EXIF_DATA_PREFIX;
use crate::riff::{
    chunk_fragments, chunk_len, chunk_views, chunks_fragments, chunks_len, lemma_chunk_fragments,
    lemma_chunk_views, lemma_chunk_views_insert, lemma_chunk_views_remove, lemma_chunks_fragments,
    lemma_chunks_front, lemma_chunks_shaped, lemma_chunks_step, parse_riff, RiffChunk,
    RiffChunkView, RiffContent, RiffContentView, SIGNATURE,
};
use crate::seqs::{
    lemma_filter_step, lemma_position, lemma_position_is, lemma_position_none, position,
    starts_with,
};
use crate::traits::{opt_octets, ImageEXIF, ImageICC};
use crate::util::{same_id, u24_from_le_bytes, u24_to_le_bytes};
use crate::vp8::{
    has_keyframe_header, is_keyframe_header, keyframe_size, size_from_vp8_header, VP8Kind,
};
use bytes::{Bytes, BytesMut};
use vstd::prelude::*;

verus! {

/// The kind of the `RIFF` chunk that a WebP image is: `WEBP`.
pub const KIND_WEBP: [u8; 4] = [0x57, 0x45, 0x42, 0x50];

/// `ALPH`
pub const CHUNK_ALPH: [u8; 4] = [0x41, 0x4C, 0x50, 0x48];

/// `ANIM`
pub const CHUNK_ANIM: [u8; 4] = [0x41, 0x4E, 0x49, 0x4D];

/// `ANMF`
pub const CHUNK_ANMF: [u8; 4] = [0x41, 0x4E, 0x4D, 0x46];

/// `EXIF`
pub const CHUNK_EXIF: [u8; 4] = [0x45, 0x58, 0x49, 0x46];

/// `ICCP`
pub const CHUNK_ICCP: [u8; 4] = [0x49, 0x43, 0x43, 0x50];

/// `VP8 `
pub const CHUNK_VP8: [u8; 4] = [0x56, 0x50, 0x38, 0x20];

/// `VP8L`
pub const CHUNK_VP8L: [u8; 4] = [0x56, 0x50, 0x38, 0x4C];

/// `VP8X`
pub const CHUNK_VP8X: [u8; 4] = [0x56, 0x50, 0x38, 0x58];

/// `XMP `
pub const CHUNK_XMP: [u8; 4] = [0x58, 0x4D, 0x50, 0x20];

/// The representation of a WebP image
#[derive(Debug, PartialEq)]
pub struct WebP {
    chunks: Vec<RiffChunk>,
}

/// Sniff the signature of a WebP file: more than 12 bytes that open with
/// `RIFF`, four bytes of size and `WEBP`.
pub open spec fn spec_is_webp(buf: Seq<u8>) -> bool {
    buf.len() > 12 && buf.subrange(0, 4) == SIGNATURE@ && buf.subrange(8, 12) == KIND_WEBP@
}

/// Whether `buf` opens as a WebP file does.
pub fn is_webp(buf: &[u8]) -> (r: bool)
    ensures
        r == spec_is_webp(buf@),
{
    if buf.len() <= 12 {
        return false;
    }
    let r = buf[0] == SIGNATURE[0] && buf[1] == SIGNATURE[1] && buf[2] == SIGNATURE[2] && buf[3]
        == SIGNATURE[3] && buf[8] == KIND_WEBP[0] && buf[9] == KIND_WEBP[1] && buf[10]
        == KIND_WEBP[2] && buf[11] == KIND_WEBP[3];
    assert(r == (buf@.subrange(0, 4) =~= SIGNATURE@ && buf@.subrange(8, 12) =~= KIND_WEBP@)) by {
        if buf@.subrange(0, 4) =~= SIGNATURE@ && buf@.subrange(8, 12) =~= KIND_WEBP@ {
            assert(buf@.subrange(0, 4)[0] == SIGNATURE@[0]);
            assert(buf@.subrange(0, 4)[1] == SIGNATURE@[1]);
            assert(buf@.subrange(0, 4)[2] == SIGNATURE@[2]);
            assert(buf@.subrange(0, 4)[3] == SIGNATURE@[3]);
            assert(buf@.subrange(8, 12)[0] == KIND_WEBP@[0]);
            assert(buf@.subrange(8, 12)[1] == KIND_WEBP@[1]);
            assert(buf@.subrange(8, 12)[2] == KIND_WEBP@[2]);
            assert(buf@.subrange(8, 12)[3] == KIND_WEBP@[3]);
        }
    }
    r
}

/// The `RIFF` chunk that a WebP image of these chunks is.
pub open spec fn webp_riff(chunks: Seq<RiffChunkView>) -> RiffChunkView {
    RiffChunkView {
        id: SIGNATURE@,
        content: RiffContentView::List { kind: Some(KIND_WEBP@), subchunks: chunks },
    }
}

/// The chunks of the WebP image that the chunk `riff` is; a chunk that is
/// not a `RIFF` list of the kind `WEBP` has the wrong signature.
pub open spec fn as_webp(riff: RiffChunkView) -> Result<Seq<RiffChunkView>, Error> {
    match riff.content {
        RiffContentView::List { kind: Some(kind), subchunks } => if riff.id == SIGNATURE@ && kind
            == KIND_WEBP@ {
            Ok(subchunks)
        } else {
            Err(Error::WrongSignature)
        },
        _ => Err(Error::WrongSignature),
    }
}

/// The chunks of the WebP file `s`, or the error that reading it ends in.
pub open spec fn parse_webp(s: Seq<u8>) -> Result<Seq<RiffChunkView>, Error> {
    match parse_riff(s) {
        Ok(riff) => as_webp(riff),
        Err(e) => Err(e),
    }
}

/// The condition by which chunks are found by their id.
pub open spec fn has_id(id: Seq<u8>) -> spec_fn(RiffChunkView) -> bool {
    |c: RiffChunkView| c.id == id
}

/// The condition that keeps every chunk but those of one id.
pub open spec fn has_other_id(id: Seq<u8>) -> spec_fn(RiffChunkView) -> bool {
    |c: RiffChunkView| c.id != id
}

/// Whether one of the chunks has the id `id`.
pub open spec fn has_chunk_of(chunks: Seq<RiffChunkView>, id: Seq<u8>) -> bool {
    position(chunks, has_id(id)) is Some
}

/// The index of the first chunk that meets `p`, or 0 where none does.
pub open spec fn position_or_start(chunks: Seq<RiffChunkView>, p: spec_fn(RiffChunkView) -> bool)
    -> int {
    match position(chunks, p) {
        Some(i) => i,
        None => 0,
    }
}

/// The data of the first chunk of the id `id`, where there is such a chunk
/// and it holds data.
pub open spec fn data_of(chunks: Seq<RiffChunkView>, id: Seq<u8>) -> Option<Seq<u8>> {
    match position(chunks, has_id(id)) {
        Some(i) => match chunks[i].content {
            RiffContentView::Data(data) => Some(data),
            RiffContentView::List { .. } => None,
        },
        None => None,
    }
}

/// The chunk of the id `id` that holds `data`.
pub open spec fn data_chunk(id: Seq<u8>, data: Seq<u8>) -> RiffChunkView {
    RiffChunkView { id, content: RiffContentView::Data(data) }
}

/// The kind of an image: extended where it has a `VP8X` chunk, else
/// lossless where it has a `VP8L` chunk, else lossy.
pub open spec fn webp_kind(chunks: Seq<RiffChunkView>) -> VP8Kind {
    if has_chunk_of(chunks, CHUNK_VP8X@) {
        VP8Kind::VP8X
    } else if has_chunk_of(chunks, CHUNK_VP8L@) {
        VP8Kind::VP8L
    } else {
        VP8Kind::VP8
    }
}

/// The kind that an image should have: extended where it has an ICC
/// profile or EXIF metadata, else lossy.
pub open spec fn inferred_kind(chunks: Seq<RiffChunkView>) -> VP8Kind {
    if has_chunk_of(chunks, CHUNK_ICCP@) || has_chunk_of(chunks, CHUNK_EXIF@) {
        VP8Kind::VP8X
    } else {
        VP8Kind::VP8
    }
}

/// The size of the canvas that the data of a `VP8X` chunk gives: behind
/// the four bytes of the flags, width and height as 24-bit numbers, each
/// one less than what it stands for.
pub open spec fn canvas_size(data: Seq<u8>) -> Option<(u32, u32)> {
    if data.len() >= 10 {
        Some(
            (
                (u24_from_le(data.subrange(4, 7)) + 1) as u32,
                (u24_from_le(data.subrange(7, 10)) + 1) as u32,
            ),
        )
    } else {
        None
    }
}

/// The size of the frame that the data of a `VP8 ` chunk gives, where it
/// opens with the header of a key frame.
pub open spec fn frame_size(data: Seq<u8>) -> Option<(u32, u32)> {
    if is_keyframe_header(data) {
        Some((keyframe_size(data).0 as u32, keyframe_size(data).1 as u32))
    } else {
        None
    }
}

/// The width and the height of an image: the size of the canvas where the
/// image has a `VP8X` chunk that gives it, else the size of the frame of
/// its `VP8 ` chunk.
pub open spec fn webp_dimensions(chunks: Seq<RiffChunkView>) -> Option<(u32, u32)> {
    let canvas = match data_of(chunks, CHUNK_VP8X@) {
        Some(data) => canvas_size(data),
        None => None,
    };
    if canvas is Some {
        canvas
    } else {
        match data_of(chunks, CHUNK_VP8@) {
            Some(data) => frame_size(data),
            None => None,
        }
    }
}

/// The `VP8X` chunk of an image with these flags and this size.
pub open spec fn vp8x_chunk(flags: u8, width: u32, height: u32) -> RiffChunkView {
    data_chunk(
        CHUNK_VP8X@,
        seq![flags, 0u8, 0u8, 0u8] + le24(width as int - 1) + le24(height as int - 1),
    )
}

/// Whether an image can be given the kind it should have: one that is to
/// become extended has a width and a height, both at least 1.
pub open spec fn can_infer_kind(chunks: Seq<RiffChunkView>) -> bool {
    webp_kind(chunks) != VP8Kind::VP8X && inferred_kind(chunks) == VP8Kind::VP8X ==> {
        &&& webp_dimensions(chunks) is Some
        &&& webp_dimensions(chunks).unwrap().0 >= 1
        &&& webp_dimensions(chunks).unwrap().1 >= 1
    }
}

/// The chunks of an image once it has the kind it should have. An image
/// that is to be lossy loses its `VP8X` chunks. One that is to become
/// extended gets a `VP8X` chunk with its flags and its size, before its
/// ICC profile or, without one, as its first chunk.
pub open spec fn with_inferred_kind(chunks: Seq<RiffChunkView>) -> Seq<RiffChunkView> {
    if webp_kind(chunks) == inferred_kind(chunks) {
        chunks
    } else if inferred_kind(chunks) == VP8Kind::VP8 {
        chunks.filter(has_other_id(CHUNK_VP8X@))
    } else {
        chunks.insert(
            position_or_start(chunks, has_id(CHUNK_ICCP@)),
            vp8x_chunk(
                flags_byte(has_chunk_of(chunks, CHUNK_ICCP@), has_chunk_of(chunks, CHUNK_EXIF@)),
                webp_dimensions(chunks).unwrap().0,
                webp_dimensions(chunks).unwrap().1,
            ),
        )
    }
}

/// The ICC profile of an image: the data of its first `ICCP` chunk.
pub open spec fn webp_icc(chunks: Seq<RiffChunkView>) -> Option<Seq<u8>> {
    data_of(chunks, CHUNK_ICCP@)
}

/// The place of a new chunk of metadata among the chunks that were kept.
/// In an image with a `VP8X` chunk it is right behind the first `VP8X`
/// chunk. In an image without one it is, where the chunks hold other
/// metadata, right behind the first `VP8L` chunk, else before the first
/// `VP8 ` chunk; and the first place where there is no such chunk.
pub open spec fn metadata_position(kept: Seq<RiffChunkView>) -> int {
    match position(kept, has_id(CHUNK_VP8X@)) {
        Some(i) => i + 1,
        None => if inferred_kind(kept) == VP8Kind::VP8 {
            position_or_start(kept, has_id(CHUNK_VP8@))
        } else {
            match position(kept, has_id(CHUNK_VP8L@)) {
                Some(i) => i + 1,
                None => 0,
            }
        },
    }
}

/// The chunks of an image after its `ICCP` chunks have been replaced, its
/// kind left as it was.
pub open spec fn with_icc_chunk(chunks: Seq<RiffChunkView>, profile: Option<Seq<u8>>) -> Seq<
    RiffChunkView,
> {
    let kept = chunks.filter(has_other_id(CHUNK_ICCP@));
    match profile {
        None => kept,
        Some(p) => kept.insert(metadata_position(kept), data_chunk(CHUNK_ICCP@, p)),
    }
}

/// The EXIF metadata of an image: what follows the EXIF bytes in the data
/// of its first `EXIF` chunk.
pub open spec fn webp_exif(chunks: Seq<RiffChunkView>) -> Option<Seq<u8>> {
    match data_of(chunks, CHUNK_EXIF@) {
        Some(data) => if EXIF_DATA_PREFIX@.is_prefix_of(data) {
            Some(data.skip(6))
        } else {
            None
        },
        None => None,
    }
}

/// The chunks of an image after its `EXIF` chunks have been replaced, its
/// kind left as it was.
pub open spec fn with_exif_chunk(chunks: Seq<RiffChunkView>, exif: Option<Seq<u8>>) -> Seq<
    RiffChunkView,
> {
    let kept = chunks.filter(has_other_id(CHUNK_EXIF@));
    match exif {
        None => kept,
        Some(e) => kept.insert(
            metadata_position(kept),
            data_chunk(CHUNK_EXIF@, EXIF_DATA_PREFIX@ + e),
        ),
    }
}

impl View for WebP {
    type V = Seq<RiffChunkView>;

    closed spec fn view(&self) -> Seq<RiffChunkView> {
        chunk_views(self.chunks@)
    }
}

impl WebP {
    /// Construct a new `WebP` image from a [`RiffChunk`][crate::riff::RiffChunk].
    ///
    /// # Errors
    ///
    /// This method returns [`Error::WrongSignature`] if the id of the
    /// chunk isn't `RIFF`, if its content isn't a `List` or if the list's
    /// kind isn't `WEBP`.
    pub fn new(riff: RiffChunk) -> (r: Result<WebP, Error>)
        ensures
            match r {
                Ok(webp) => as_webp(riff@) == Ok::<Seq<RiffChunkView>, Error>(webp@),
                Err(e) => as_webp(riff@) == Err::<Seq<RiffChunkView>, Error>(e),
            },
    {
        let (id, content) = riff.into_parts();
        match content {
            RiffContent::List { kind: Some(kind), subchunks } => {
                if same_id(&id, &SIGNATURE) && same_id(&kind, &KIND_WEBP) {
                    Ok(WebP { chunks: subchunks })
                } else {
                    Err(Error::WrongSignature)
                }
            },
            _ => Err(Error::WrongSignature),
        }
    }

    /// Create a new `WebP` image from the bytes of a file.
    ///
    /// # Errors
    ///
    /// This method fails if the file signature doesn't match or if
    /// it is corrupted or truncated.
    pub fn from_bytes(b: Bytes) -> (r: Result<WebP, Error>)
        ensures
            match r {
                Ok(webp) => parse_webp(octets(b)) == Ok::<Seq<RiffChunkView>, Error>(webp@)
                    && chunk_len(webp_riff(webp@)) <= octets(b).len(),
                Err(e) => parse_webp(octets(b)) == Err::<Seq<RiffChunkView>, Error>(e),
            },
    {
        proof {
            if parse_webp(octets(b)) is Ok {
                self::laws::lemma_webp_read(octets(b));
            }
        }
        match RiffChunk::from_bytes(b) {
            Ok(riff) => WebP::new(riff),
            Err(e) => Err(e),
        }
    }

    /// The index of the first chunk with an id of `id`.
    fn find(&self, id: &[u8; 4]) -> (r: Option<usize>)
        ensures
            match r {
                Some(i) => position(self@, has_id(id@)) == Some(i as int) && i
                    < self.chunks@.len() && i < usize::MAX && self.chunks@[i as int]@
                    == self@[i as int],
                None => position(self@, has_id(id@)) is None,
            },
    {
        proof {
            lemma_chunk_views(self.chunks@);
        }
        let mut i: usize = 0;
        while i < self.chunks.len()
            invariant
                i <= self.chunks.len(),
                self@.len() == self.chunks@.len(),
                forall|j: int| 0 <= j < self.chunks@.len() ==> self@[j] == (#[trigger] self.chunks@[j])@,
                forall|j: int| 0 <= j < i ==> !has_id(id@)(#[trigger] self@[j]),
            decreases self.chunks.len() - i,
        {
            let this = self.chunks[i].id();
            if same_id(&this, id) {
                proof {
                    lemma_position_is(self@, has_id(id@), i as int);
                }
                return Some(i);
            }
            i += 1;
        }
        proof {
            lemma_position_none(self@, has_id(id@));
        }
        None
    }

    /// The data of the first chunk with an id of `id`, if that chunk
    /// holds data.
    fn data_by_id(&self, id: &[u8; 4]) -> (r: Option<&Bytes>)
        ensures
            match r {
                Some(data) => data_of(self@, id@) == Some(octets(*data)),
                None => data_of(self@, id@) is None,
            },
    {
        match self.find(id) {
            Some(i) => self.chunks[i].content().data(),
            None => None,
        }
    }

    /// Get the `VP8Kind` of this `WebP`.
    pub fn kind(&self) -> (k: VP8Kind)
        ensures
            k == webp_kind(self@),
    {
        if self.has_chunk(CHUNK_VP8X) {
            VP8Kind::VP8X
        } else if self.has_chunk(CHUNK_VP8L) {
            VP8Kind::VP8L
        } else {
            VP8Kind::VP8
        }
    }

    /// The kind that this `WebP` should have.
    fn infer_kind(&self) -> (k: VP8Kind)
        ensures
            k == inferred_kind(self@),
    {
        if self.has_chunk(CHUNK_ICCP) || self.has_chunk(CHUNK_EXIF) {
            VP8Kind::VP8X
        } else {
            VP8Kind::VP8
        }
    }

    /// The place at which a new chunk of metadata is to stand.
    fn place_for_metadata(&self) -> (pos: usize)
        ensures
            pos == metadata_position(self@),
            pos <= self.chunks@.len(),
    {
        proof {
            lemma_position(self@, has_id(CHUNK_VP8X@));
            lemma_position(self@, has_id(CHUNK_VP8L@));
            lemma_position(self@, has_id(CHUNK_VP8@));
            lemma_chunk_views(self.chunks@);
        }
        if let Some(pos) = self.find(&CHUNK_VP8X) {
            return pos + 1;
        }
        match self.infer_kind() {
            VP8Kind::VP8 => match self.find(&CHUNK_VP8) {
                Some(pos) => pos,
                None => 0,
            },
            _ => match self.find(&CHUNK_VP8L) {
                Some(pos) => pos + 1,
                None => 0,
            },
        }
    }

    /// Whether this `WebP` can be given the kind it should have once it
    /// has metadata or, where `metadata` is not set, once it has the EXIF
    /// metadata or the ICC profile that `other` is the id of.
    fn can_convert(&self, metadata: bool, other: &[u8; 4]) -> (r: bool)
        ensures
            r == ((metadata || has_chunk_of(self@, other@)) && !has_chunk_of(self@, CHUNK_VP8X@)
                ==> {
                &&& webp_dimensions(self@) is Some
                &&& webp_dimensions(self@).unwrap().0 >= 1
                &&& webp_dimensions(self@).unwrap().1 >= 1
            }),
    {
        if (metadata || self.has_chunk(*other)) && !self.has_chunk(CHUNK_VP8X) {
            match self.dimensions() {
                Some((width, height)) => width >= 1 && height >= 1,
                None => false,
            }
        } else {
            true
        }
    }

    /// Give this `WebP` the kind it should have.
    fn convert_into_infered_kind(&mut self)
        requires
            can_infer_kind(old(self)@),
        ensures
            final(self)@ == with_inferred_kind(old(self)@),
    {
        let current_kind = self.kind();
        let correct_kind = self.infer_kind();
        if current_kind == correct_kind {
        } else if correct_kind == VP8Kind::VP8 {
            self.remove_chunks_by_id(CHUNK_VP8X);
        } else {
            let pos = match self.find(&CHUNK_ICCP) {
                Some(pos) => pos,
                None => 0,
            };
            proof {
                lemma_position(self@, has_id(CHUNK_ICCP@));
                lemma_chunk_views(self.chunks@);
            }
            let (width, height) = self.dimensions().unwrap();
            let flags = WebPFlags::from_webp(self);
            let mut content = BytesMut::with_capacity(10);
            content.extend_from_slice(flags.0.as_slice());
            let buf = u24_to_le_bytes(width - 1);
            content.extend_from_slice(buf.as_slice());
            let buf = u24_to_le_bytes(height - 1);
            content.extend_from_slice(buf.as_slice());
            let chunk = RiffChunk::new(CHUNK_VP8X, RiffContent::Data(content.freeze()));
            let ghost before = self.chunks@;
            self.chunks.insert(pos, chunk);
            proof {
                lemma_chunk_views_insert(before, pos as int, chunk);
            }
        }
    }

    /// Get the width and height of this `WebP`.
    ///
    /// If this `WebP` has a `VP8X` chunk the dimension is the canvas size.
    ///
    /// Otherwise the dimension is read from the VP8 bitstream header.
    pub fn dimensions(&self) -> (r: Option<(u32, u32)>)
        ensures
            r == webp_dimensions(self@),
    {
        if let Some(data) = self.data_by_id(&CHUNK_VP8X) {
            if data.len() >= 10 {
                let d = as_slice(data);
                let width = u24_from_le_bytes([d[4], d[5], d[6]]) + 1;
                let height = u24_from_le_bytes([d[7], d[8], d[9]]) + 1;
                assert(d@.subrange(4, 7) =~= seq![d@[4], d@[5], d@[6]]);
                assert(d@.subrange(7, 10) =~= seq![d@[7], d@[8], d@[9]]);
                return Some((width, height));
            }
        }
        if let Some(data) = self.data_by_id(&CHUNK_VP8) {
            let d = as_slice(data);
            if has_keyframe_header(d) {
                let (width, height) = size_from_vp8_header(d);
                return Some((width as u32, height as u32));
            }
        }
        None
    }

    /// Get the chunks of this `WebP`.
    pub fn chunks(&self) -> (r: &Vec<RiffChunk>)
        ensures
            chunk_views(r@) == self@,
    {
        &self.chunks
    }

    /// Get a mutable reference to the chunks of this `WebP`.
    pub fn chunks_mut(&mut self) -> (r: &mut Vec<RiffChunk>)
        ensures
            chunk_views(r@) == old(self)@,
            final(self)@ == chunk_views(final(r)@),
    {
        &mut self.chunks
    }

    /// Check if there's a chunk with an id of `id`.
    pub fn has_chunk(&self, id: [u8; 4]) -> (r: bool)
        ensures
            r == has_chunk_of(self@, id@),
    {
        self.find(&id).is_some()
    }

    /// Get the first chunk with an id of `id`.
    pub fn chunk_by_id(&self, id: [u8; 4]) -> (r: Option<&RiffChunk>)
        ensures
            match position(self@, has_id(id@)) {
                Some(i) => r is Some && r.unwrap()@ == self@[i],
                None => r is None,
            },
    {
        match self.find(&id) {
            Some(i) => Some(&self.chunks[i]),
            None => None,
        }
    }

    /// Get every chunk with an id of `id`.
    pub fn chunks_by_id(&self, id: [u8; 4]) -> (r: Vec<&RiffChunk>)
        ensures
            r@.map_values(|c: &RiffChunk| c@) == self@.filter(has_id(id@)),
    {
        let mut found: Vec<&RiffChunk> = Vec::new();
        let mut i: usize = 0;
        proof {
            lemma_chunk_views(self.chunks@);
            assert(self@.take(0).filter(has_id(id@)) =~= Seq::<RiffChunkView>::empty()) by {
                reveal(Seq::filter);
            }
        }
        while i < self.chunks.len()
            invariant
                i <= self.chunks.len(),
                self@.len() == self.chunks@.len(),
                forall|j: int| 0 <= j < self.chunks@.len() ==> self@[j] == (#[trigger] self.chunks@[j])@,
                found@.map_values(|c: &RiffChunk| c@) =~= self@.take(i as int).filter(has_id(id@)),
            decreases self.chunks.len() - i,
        {
            proof {
                lemma_filter_step(self@, has_id(id@), i as int);
            }
            let this = self.chunks[i].id();
            if same_id(&this, &id) {
                found.push(&self.chunks[i]);
            }
            i += 1;
        }
        assert(self@.take(i as int) == self@);
        found
    }

    /// Remove every chunk with an id of `id`
    pub fn remove_chunks_by_id(&mut self, id: [u8; 4])
        ensures
            final(self)@ == old(self)@.filter(has_other_id(id@)),
    {
        let ghost keep = has_other_id(id@);
        let mut i: usize = 0;
        let ghost mut seen: int = 0;
        proof {
            lemma_chunk_views(self.chunks@);
            assert(old(self)@.take(0).filter(keep) =~= Seq::<RiffChunkView>::empty()) by {
                reveal(Seq::filter);
            }
        }
        while i < self.chunks.len()
            invariant
                i <= self.chunks.len(),
                i <= seen <= old(self)@.len(),
                keep == has_other_id(id@),
                self@.len() == self.chunks@.len(),
                forall|j: int| 0 <= j < self.chunks@.len() ==> self@[j] == (#[trigger] self.chunks@[j])@,
                self@.len() - i == old(self)@.len() - seen,
                self@.take(i as int) =~= old(self)@.take(seen).filter(keep),
                self@.skip(i as int) =~= old(self)@.skip(seen),
            decreases self.chunks.len() - i,
        {
            let this = self.chunks[i].id();
            let gone = same_id(&this, &id);
            let ghost before = self@;
            let ghost chunks_before = self.chunks@;
            proof {
                lemma_filter_step(old(self)@, keep, seen);
                assert(before[i as int] == before.skip(i as int)[0]);
            }
            if gone {
                self.chunks.remove(i);
                proof {
                    lemma_chunk_views(self.chunks@);
                    lemma_chunk_views_remove(chunks_before, i as int);
                    assert(self@ =~= before.remove(i as int));
                    assert(self@.take(i as int) =~= before.take(i as int));
                    assert(self@.skip(i as int) =~= before.skip(i as int).skip(1));
                    assert(old(self)@.skip(seen).skip(1) =~= old(self)@.skip(seen + 1));
                }
            } else {
                i += 1;
                proof {
                    assert(self@.take(i as int) =~= before.take(i as int - 1).push(
                        before[i as int - 1],
                    ));
                    assert(self@.skip(i as int) =~= before.skip(i as int - 1).skip(1));
                    assert(old(self)@.skip(seen).skip(1) =~= old(self)@.skip(seen + 1));
                }
            }
            proof {
                seen = seen + 1;
            }
        }
        assert(self@.take(i as int) == self@);
        assert(old(self)@.take(seen) == old(self)@);
    }

    /// Get the total size of the `WebP` once it is encoded: that of the
    /// `RIFF` chunk that holds its chunks.
    pub fn len(&self) -> (n: u32)
        requires
            chunk_len(webp_riff(self@)) <= u32::MAX,
        ensures
            n == chunk_len(webp_riff(self@)),
    {
        let mut n: u32 = 12;
        let mut i: usize = 0;
        proof {
            lemma_chunk_views(self.chunks@);
            lemma_chunks_shaped(self.chunks@);
            lemma_chunks_fragments(self@);
        }
        while i < self.chunks.len()
            invariant
                i <= self.chunks.len(),
                self@.len() == self.chunks@.len(),
                forall|j: int| 0 <= j < self.chunks@.len() ==> self@[j] == (#[trigger] self.chunks@[j])@,
                12 + chunks_len(self@) <= u32::MAX,
                n == 12 + chunks_len(self@.take(i as int)),
            decreases self.chunks.len() - i,
        {
            proof {
                lemma_chunks_step(self@, i as int);
                lemma_chunks_front(self@, i as int + 1);
            }
            n = n + self.chunks[i].len();
            i += 1;
        }
        assert(self@.take(i as int) == self@);
        n
    }

    /// Get the total size of the `WebP` once it is encoded, where 32 bits
    /// can count it.
    pub fn checked_len(&self) -> (r: Option<u32>)
        ensures
            r is Some <==> chunk_len(webp_riff(self@)) <= u32::MAX,
            r is Some ==> r.unwrap() == chunk_len(webp_riff(self@)),
    {
        let mut n: u32 = 12;
        let mut i: usize = 0;
        proof {
            lemma_chunk_views(self.chunks@);
            lemma_chunks_shaped(self.chunks@);
            lemma_chunks_fragments(self@);
        }
        while i < self.chunks.len()
            invariant
                i <= self.chunks.len(),
                self@.len() == self.chunks@.len(),
                forall|j: int| 0 <= j < self.chunks@.len() ==> self@[j] == (#[trigger] self.chunks@[j])@,
                chunks_len(self@) % 2 == 0,
                n == 12 + chunks_len(self@.take(i as int)),
            decreases self.chunks.len() - i,
        {
            proof {
                lemma_chunks_step(self@, i as int);
                lemma_chunks_front(self@, i as int + 1);
            }
            let next = match self.chunks[i].checked_len() {
                Some(next) => next,
                None => { return None; },
            };
            n = match n.checked_add(next) {
                Some(n) => n,
                None => { return None; },
            };
            i += 1;
        }
        assert(self@.take(i as int) == self@);
        Some(n)
    }

    /// The `RIFF` chunk that holds copies of the chunks of this `WebP`.
    fn clone_riff(&self) -> (riff: RiffChunk)
        ensures
            riff@ == webp_riff(self@),
    {
        let mut copies: Vec<RiffChunk> = Vec::with_capacity(self.chunks.len());
        let mut i: usize = 0;
        while i < self.chunks.len()
            invariant
                i <= self.chunks.len(),
                chunk_views(copies@) == chunk_views(self.chunks@.take(i as int)),
            decreases self.chunks.len() - i,
        {
            proof {
                crate::riff::lemma_chunk_views_take(self.chunks@, i as int);
            }
            let ghost before = copies@;
            copies.push(self.chunks[i].clone());
            proof {
                assert(copies@.drop_last() == before);
            }
            i += 1;
        }
        proof {
            assert(self.chunks@.take(i as int) == self.chunks@);
        }
        RiffChunk::new(SIGNATURE, RiffContent::List { kind: Some(KIND_WEBP), subchunks: copies })
    }

    /// Turn this `WebP` into the `RIFF` chunk that holds its chunks.
    pub fn into_riff(self) -> (riff: RiffChunk)
        ensures
            riff@ == webp_riff(self@),
    {
        RiffChunk::new(
            SIGNATURE,
            RiffContent::List { kind: Some(KIND_WEBP), subchunks: self.chunks },
        )
    }

    /// Create an [encoder][crate::ImageEncoder] for this `WebP`: one for
    /// the `RIFF` chunk that holds its chunks.
    pub fn encoder(self) -> (e: ImageEncoder<RiffChunk>)
        requires
            chunk_len(webp_riff(self@)) <= u32::MAX,
        ensures
            e.remaining() == chunk_fragments(webp_riff(self@)),
    {
        self.into_riff().encoder()
    }
}

/// The fragments of chunks as the encoder takes them are those of what
/// the chunks hold.
pub proof fn lemma_fragments_of_chunks(s: Seq<RiffChunk>)
    ensures
        fragments_of_each(s) == chunks_fragments(chunk_views(s)),
    decreases s.len(),
{
    let each = s.map_values(|t: RiffChunk| t.fragments());
    if s.len() == 0 {
        assert(each.flatten() =~= Seq::<Seq<u8>>::empty());
    } else {
        lemma_fragments_of_chunks(s.drop_last());
        assert(each.drop_last() =~= s.drop_last().map_values(|t: RiffChunk| t.fragments()));
        assert(each =~= each.drop_last().push(each.last()));
        each.drop_last().lemma_flatten_push(each.last());
        let v = chunk_views(s);
        assert(v.drop_last() =~= chunk_views(s.drop_last()));
        assert(v.last() == s.last()@);
        assert(each.last() == chunk_fragments(s.last()@));
    }
}

/// Chunks that are together no larger than 32 bits can count can each be
/// written.
proof fn lemma_each_encodable(s: Seq<RiffChunk>)
    requires
        chunks_len(chunk_views(s)) <= u32::MAX,
    ensures
        forall|i: int| 0 <= i < s.len() ==> (#[trigger] s[i]).encodable(),
{
    let v = chunk_views(s);
    lemma_chunk_views(s);
    assert forall|i: int| 0 <= i < s.len() implies (#[trigger] s[i]).encodable() by {
        lemma_chunks_step(v, i);
        lemma_chunks_front(v, i + 1);
        assert(v[i] == s[i]@);
    }
}

impl Clone for WebP {
    fn clone(&self) -> (copy: WebP)
        ensures
            copy@ == self@,
    {
        let (_, content) = self.clone_riff().into_parts();
        match content {
            RiffContent::List { subchunks, .. } => WebP { chunks: subchunks },
            RiffContent::Data(_) => WebP { chunks: Vec::new() },
        }
    }
}

impl EncodeAt for WebP {
    open spec fn fragments(&self) -> Seq<Seq<u8>> {
        chunk_fragments(webp_riff(self@))
    }

    open spec fn encodable(&self) -> bool {
        chunk_len(webp_riff(self@)) <= u32::MAX
    }

    proof fn lemma_encodable_bounds(&self) {
        lemma_chunks_shaped(self.chunks@);
        lemma_chunk_fragments(webp_riff(self@));
    }

    fn encode_at(&self, pos: &mut usize) -> (r: Option<Bytes>) {
        proof {
            lemma_chunks_shaped(self.chunks@);
            lemma_chunks_fragments(self@);
            lemma_fragments_of_chunks(self.chunks@);
            lemma_each_encodable(self.chunks@);
        }
        if *pos == 0 {
            let mut header = BytesMut::with_capacity(8);
            header.extend_from_slice(SIGNATURE.as_slice());
            put_u32_le(&mut header, self.len() - 8);
            Some(header.freeze())
        } else if *pos == 1 {
            Some(Bytes::copy_from_slice(KIND_WEBP.as_slice()))
        } else {
            let mut p: usize = *pos - 2;
            let r = encode_at_each(&self.chunks, &mut p);
            if r.is_none() {
                *pos = p;
            }
            r
        }
    }

    fn is_encodable(&self) -> (r: bool) {
        self.checked_len().is_some()
    }

    fn encoded_len(&self) -> (n: usize) {
        proof {
            lemma_chunks_shaped(self.chunks@);
            lemma_chunk_fragments(webp_riff(self@));
        }
        self.len() as usize
    }
}

impl ImageICC for WebP {
    open spec fn spec_icc_profile(&self) -> Option<Seq<u8>> {
        webp_icc(self@)
    }

    open spec fn accepts_icc_profile(&self, profile: Option<Seq<u8>>) -> bool {
        can_infer_kind(with_icc_chunk(self@, profile))
    }

    open spec fn icc_profile_replaced(&self, profile: Option<Seq<u8>>, after: &Self) -> bool {
        after@ == with_inferred_kind(with_icc_chunk(self@, profile))
    }

    fn can_set_icc_profile(&self, profile: &Option<Bytes>) -> (r: bool) {
        proof {
            self::laws::lemma_icc_chunk_kinds(self@, opt_octets(*profile));
        }
        self.can_convert(profile.is_some(), &CHUNK_EXIF)
    }

    fn icc_profile(&self) -> (r: Option<Bytes>) {
        match self.data_by_id(&CHUNK_ICCP) {
            Some(data) => Some(data.clone()),
            None => None,
        }
    }

    fn set_icc_profile(&mut self, profile: Option<Bytes>) {
        self.remove_chunks_by_id(CHUNK_ICCP);
        if let Some(profile) = profile {
            let pos = self.place_for_metadata();
            let chunk = RiffChunk::new(CHUNK_ICCP, RiffContent::Data(profile));
            let ghost before = self.chunks@;
            self.chunks.insert(pos, chunk);
            proof {
                lemma_chunk_views_insert(before, pos as int, chunk);
            }
        }
        self.convert_into_infered_kind();
    }
}

impl ImageEXIF for WebP {
    open spec fn spec_exif(&self) -> Option<Seq<u8>> {
        webp_exif(self@)
    }

    open spec fn accepts_exif(&self, exif: Option<Seq<u8>>) -> bool {
        can_infer_kind(with_exif_chunk(self@, exif))
    }

    open spec fn exif_replaced(&self, exif: Option<Seq<u8>>, after: &Self) -> bool {
        after@ == with_inferred_kind(with_exif_chunk(self@, exif))
    }

    fn can_set_exif(&self, exif: &Option<Bytes>) -> (r: bool) {
        proof {
            self::laws::lemma_exif_chunk_kinds(self@, opt_octets(*exif));
        }
        self.can_convert(exif.is_some(), &CHUNK_ICCP)
    }

    fn exif(&self) -> (r: Option<Bytes>) {
        match self.data_by_id(&CHUNK_EXIF) {
            Some(data) => {
                if starts_with(as_slice(data), EXIF_DATA_PREFIX.as_slice()) {
                    Some(slice(data, 6, data.len()))
                } else {
                    None
                }
            },
            None => None,
        }
    }

    fn set_exif(&mut self, exif: Option<Bytes>) {
        self.remove_chunks_by_id(CHUNK_EXIF);
        if let Some(exif) = exif {
            let n = exif.len();
            let mut contents = BytesMut::with_capacity(if n <= usize::MAX - 6 {
                n + 6
            } else {
                n
            });
            contents.extend_from_slice(EXIF_DATA_PREFIX.as_slice());
            contents.extend_from_slice(as_slice(&exif));
            let pos = self.place_for_metadata();
            let chunk = RiffChunk::new(CHUNK_EXIF, RiffContent::Data(contents.freeze()));
            let ghost before = self.chunks@;
            self.chunks.insert(pos, chunk);
            proof {
                lemma_chunk_views_insert(before, pos as int, chunk);
            }
        }
        self.convert_into_infered_kind();
    }
}

} // verus!
