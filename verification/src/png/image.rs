//! A PNG image as the sequence of its chunks.

use super::chunk::{
    checked_chunk, lemma_png_chunk_fragments, lemma_png_chunk_shaped, parse_png_chunk,
    png_chunk_encodable, png_chunk_fragments, png_chunk_len, png_chunk_shaped, png_chunk_wire,
    PngChunk, PngChunkView,
};
use crate::buf::{as_slice, from_vec, octets, put_u8, slice, written};
use crate::encoder::{encode_at_each, encoded_len_each, EncodeAt, ImageEncoder};
use crate::error::Error;
use crate::seqs::{
    lemma_filter_step, lemma_flatten_len, lemma_flatten_len_le, lemma_flatten_twice,
    lemma_position_is, lemma_position_none, lemma_total_take_le, lemma_total_take_step, position,
    starts_with, total, views,
};
use crate::traits::{ImageEXIF, ImageICC};
use crate::util::{read_u8_len8_array, same_id};
use bytes::{Bytes, BytesMut};
use miniz_oxide::deflate::compress_to_vec_zlib;
use miniz_oxide::inflate::decompress_to_vec_zlib;
use vstd::prelude::*;

verus! {

/// What deflating `data` at the compression level `level` gives, in a
/// zlib wrapper.
pub uninterp spec fn zlib_deflated(data: Seq<u8>, level: u8) -> Seq<u8>;

/// What inflating the zlib stream `data` gives, where `data` is one that
/// can be inflated.
pub uninterp spec fn zlib_inflated(data: Seq<u8>) -> Option<Seq<u8>>;

/// `miniz_oxide::deflate::compress_to_vec_zlib`: compresses `data` at the
/// compression level `level`, in a zlib wrapper.
#[verifier::external_body]
fn deflate(data: &[u8], level: u8) -> (r: Vec<u8>)
    ensures
        r@ == zlib_deflated(data@, level),
{
    compress_to_vec_zlib(data, level)
}

/// `miniz_oxide::inflate::decompress_to_vec_zlib`: decompresses `data`,
/// or fails where `data` is no zlib stream that can be inflated.
#[verifier::external_body]
fn inflate(data: &[u8]) -> (r: Option<Vec<u8>>)
    ensures
        match r {
            Some(v) => zlib_inflated(data@) == Some(v@),
            None => zlib_inflated(data@) is None,
        },
{
    decompress_to_vec_zlib(data).ok()
}

/// The 8 bytes that open every PNG file.
pub const SIGNATURE: [u8; 8] = [0x89, 0x50, 0x4e, 0x47, 0x0d, 0x0a, 0x1a, 0x0a];

/// The type of the chunk that holds an ICC profile: `iCCP`.
pub const CHUNK_ICCP: [u8; 4] = [0x69, 0x43, 0x43, 0x50];

/// The type of the chunk that holds EXIF metadata: `eXIf`.
pub const CHUNK_EXIF: [u8; 4] = [0x65, 0x58, 0x49, 0x66];

/// The name under which an ICC profile is stored: `icc`.
pub const ICC_PROFILE_NAME: [u8; 3] = [0x69, 0x63, 0x63];

/// The compression level at which an ICC profile is stored.
pub const ICC_COMPRESSION_LEVEL: u8 = 10;

/// The representation of a Png image
#[derive(Debug, Clone, PartialEq)]
pub struct Png {
    chunks: Vec<PngChunk>,
}

/// Whether `buf` opens as a PNG file does: with the signature.
pub fn is_png(buf: &[u8]) -> (r: bool)
    ensures
        r == SIGNATURE@.is_prefix_of(buf@),
{
    starts_with(buf, SIGNATURE.as_slice())
}

/// An image as it stands in a file: the signature and every chunk.
pub open spec fn png_wire(chunks: Seq<PngChunkView>) -> Seq<u8> {
    SIGNATURE@ + chunks.map_values(|c: PngChunkView| png_chunk_wire(c)).flatten()
}

/// The fragments of an image: the signature, then those of every chunk.
pub open spec fn png_fragments(chunks: Seq<PngChunkView>) -> Seq<Seq<u8>> {
    seq![SIGNATURE@] + chunks.map_values(|c: PngChunkView| png_chunk_fragments(c)).flatten()
}

/// The size of each chunk once it is encoded.
pub open spec fn chunk_sizes(chunks: Seq<PngChunkView>) -> Seq<nat> {
    chunks.map_values(|c: PngChunkView| png_chunk_len(c))
}

/// The total size of an image once it is encoded: the signature (8
/// bytes) and the size of every chunk.
pub open spec fn png_len(chunks: Seq<PngChunkView>) -> nat {
    8 + total(chunk_sizes(chunks))
}

/// Whether an image can be written: each chunk can, and the total size
/// can be counted.
pub open spec fn png_encodable(chunks: Seq<PngChunkView>) -> bool {
    &&& forall|i: int| 0 <= i < chunks.len() ==> png_chunk_encodable(#[trigger] chunks[i])
    &&& png_len(chunks) <= usize::MAX
}

/// Whether every chunk has a type and a checksum of four bytes.
pub open spec fn png_shaped(chunks: Seq<PngChunkView>) -> bool {
    forall|i: int| 0 <= i < chunks.len() ==> png_chunk_shaped(#[trigger] chunks[i])
}

/// What reading chunks from `s` until nothing is left gives.
pub open spec fn parse_png_chunks(s: Seq<u8>) -> Result<Seq<PngChunkView>, Error>
    decreases s.len(),
{
    if s.len() == 0 {
        Ok(Seq::empty())
    } else {
        match parse_png_chunk(s) {
            Err(e) => Err(e),
            Ok((chunk, n)) => if 0 < n <= s.len() {
                chunks_after(seq![chunk], parse_png_chunks(s.skip(n)))
            } else {
                Err(Error::Truncated)
            },
        }
    }
}

/// The chunks `head` followed by those of `tail`, where `tail` is no
/// error.
pub open spec fn chunks_after(head: Seq<PngChunkView>, tail: Result<Seq<PngChunkView>, Error>)
    -> Result<Seq<PngChunkView>, Error> {
    match tail {
        Ok(v) => Ok(head + v),
        Err(e) => Err(e),
    }
}

/// The chunks of the PNG file `s`, or the error that reading it ends in:
/// a file of fewer than 8 bytes is truncated, one that does not open with
/// the signature has the wrong signature.
pub open spec fn parse_png(s: Seq<u8>) -> Result<Seq<PngChunkView>, Error> {
    if s.len() < 8 {
        Err(Error::Truncated)
    } else if s.take(8) != SIGNATURE@ {
        Err(Error::WrongSignature)
    } else {
        parse_png_chunks(s.skip(8))
    }
}

/// The condition by which chunks are found by their type.
pub open spec fn has_type(kind: Seq<u8>) -> spec_fn(PngChunkView) -> bool {
    |c: PngChunkView| c.kind == kind
}

/// The condition that keeps every chunk but those of one type.
pub open spec fn has_other_type(kind: Seq<u8>) -> spec_fn(PngChunkView) -> bool {
    |c: PngChunkView| c.kind != kind
}

/// The condition by which the end of a name is found: a zero byte.
pub open spec fn is_zero() -> spec_fn(u8) -> bool {
    |b: u8| b == 0
}

/// The ICC profile that the contents of an `iCCP` chunk hold: behind the
/// name, its zero byte and the zero byte of the compression method, a
/// zlib stream, inflated. There is none where one of these is missing.
pub open spec fn iccp_profile(contents: Seq<u8>) -> Option<Seq<u8>> {
    match position(contents, is_zero()) {
        None => None,
        Some(end) => if contents.len() < end + 2 || contents[end + 1] != 0 {
            None
        } else {
            zlib_inflated(contents.skip(end + 2))
        },
    }
}

/// The contents of the `iCCP` chunk for a profile: the name, the zero
/// byte that ends it, the compression method 0, and the profile deflated.
pub open spec fn iccp_contents(profile: Seq<u8>) -> Seq<u8> {
    ICC_PROFILE_NAME@ + seq![0u8, 0u8] + zlib_deflated(profile, ICC_COMPRESSION_LEVEL)
}

/// The ICC profile of an image: that of its first `iCCP` chunk.
pub open spec fn png_icc(chunks: Seq<PngChunkView>) -> Option<Seq<u8>> {
    match position(chunks, has_type(CHUNK_ICCP@)) {
        Some(i) => iccp_profile(chunks[i].contents),
        None => None,
    }
}

/// The chunks of an image after its ICC profile has been replaced: every
/// `iCCP` chunk is gone, and the new one stands behind the first chunk
/// that is left.
pub open spec fn png_with_icc(chunks: Seq<PngChunkView>, profile: Option<Seq<u8>>) -> Seq<
    PngChunkView,
> {
    let kept = chunks.filter(has_other_type(CHUNK_ICCP@));
    match profile {
        None => kept,
        Some(p) => kept.insert(1, checked_chunk(CHUNK_ICCP@, iccp_contents(p))),
    }
}

/// The EXIF metadata of an image: the contents of its first `eXIf` chunk.
pub open spec fn png_exif(chunks: Seq<PngChunkView>) -> Option<Seq<u8>> {
    match position(chunks, has_type(CHUNK_EXIF@)) {
        Some(i) => Some(chunks[i].contents),
        None => None,
    }
}

/// The chunks of an image after its EXIF metadata has been replaced:
/// every `eXIf` chunk is gone, and the new one stands before the last
/// chunk that is left.
pub open spec fn png_with_exif(chunks: Seq<PngChunkView>, exif: Option<Seq<u8>>) -> Seq<
    PngChunkView,
> {
    let kept = chunks.filter(has_other_type(CHUNK_EXIF@));
    match exif {
        None => kept,
        Some(e) => kept.insert(kept.len() - 1, checked_chunk(CHUNK_EXIF@, e)),
    }
}

impl View for Png {
    type V = Seq<PngChunkView>;

    closed spec fn view(&self) -> Seq<PngChunkView> {
        views(self.chunks@)
    }
}

impl Png {
    /// Create a `Png` from `Bytes`
    ///
    /// # Errors
    ///
    /// This method fails if the file signature doesn't match or if
    /// it is corrupted or truncated.
    pub fn from_bytes(b: Bytes) -> (r: Result<Png, Error>)
        ensures
            match r {
                Ok(png) => parse_png(octets(b)) == Ok::<Seq<PngChunkView>, Error>(png@)
                    && png_encodable(png@),
                Err(e) => parse_png(octets(b)) == Err::<Seq<PngChunkView>, Error>(e),
            },
    {
        let ghost input = octets(b);
        let mut buf = b;
        let signature = match read_u8_len8_array(&mut buf) {
            Ok(signature) => signature,
            Err(e) => { return Err(e); },
        };
        proof {
            if parse_png(input) is Ok {
                super::laws::lemma_png_round_trip(input);
            }
        }
        let same = starts_with(signature.as_slice(), SIGNATURE.as_slice());
        assert(same == (signature@ == SIGNATURE@)) by {
            assert(signature@.subrange(0, 8) =~= signature@);
        }
        if !same {
            return Err(Error::WrongSignature);
        }
        let mut chunks: Vec<PngChunk> = Vec::with_capacity(8);
        assert(views(chunks@) =~= Seq::<PngChunkView>::empty());
        while buf.len() > 0
            invariant
                input == octets(b),
                parse_png(input) is Ok ==> png_encodable(parse_png(input).unwrap()),
                parse_png(input) == chunks_after(views(chunks@), parse_png_chunks(octets(buf))),
            decreases octets(buf).len(),
        {
            let ghost done = views(chunks@);
            let chunk = match PngChunk::from_bytes(&mut buf) {
                Ok(chunk) => chunk,
                Err(e) => { return Err(e); },
            };
            chunks.push(chunk);
            proof {
                assert(views(chunks@) =~= done + seq![chunk@]);
                match parse_png_chunks(octets(buf)) {
                    Ok(v) => {
                        assert(done + (seq![chunk@] + v) =~= (done + seq![chunk@]) + v);
                    },
                    Err(_) => {},
                }
            }
        }
        assert(views(chunks@) + Seq::<PngChunkView>::empty() =~= views(chunks@));
        Ok(Png { chunks })
    }

    /// Get the chunks of this `Png`
    pub fn chunks(&self) -> (r: &Vec<PngChunk>)
        ensures
            views(r@) == self@,
    {
        &self.chunks
    }

    /// Get a mutable reference to the chunks of this `Png`
    pub fn chunks_mut(&mut self) -> (r: &mut Vec<PngChunk>)
        ensures
            views(r@) == old(self)@,
            final(self)@ == views(final(r)@),
    {
        &mut self.chunks
    }

    /// The index of the first chunk with a type of `kind`.
    fn find(&self, kind: &[u8; 4]) -> (r: Option<usize>)
        ensures
            match r {
                Some(i) => position(self@, has_type(kind@)) == Some(i as int) && i
                    < self.chunks@.len() && self.chunks@[i as int]@ == self@[i as int],
                None => position(self@, has_type(kind@)) is None,
            },
    {
        let mut i: usize = 0;
        while i < self.chunks.len()
            invariant
                i <= self.chunks.len(),
                forall|j: int| 0 <= j < i ==> !has_type(kind@)(#[trigger] self@[j]),
            decreases self.chunks.len() - i,
        {
            let this = self.chunks[i].kind();
            if same_id(&this, kind) {
                proof {
                    lemma_position_is(self@, has_type(kind@), i as int);
                }
                return Some(i);
            }
            i += 1;
        }
        proof {
            lemma_position_none(self@, has_type(kind@));
        }
        None
    }

    /// Get the first chunk with a type of `kind`
    pub fn chunk_by_type(&self, kind: [u8; 4]) -> (r: Option<&PngChunk>)
        ensures
            match position(self@, has_type(kind@)) {
                Some(i) => r is Some && r.unwrap()@ == self@[i],
                None => r is None,
            },
    {
        match self.find(&kind) {
            Some(i) => Some(&self.chunks[i]),
            None => None,
        }
    }

    /// Get every chunk with a type of `kind`
    pub fn chunks_by_type(&self, kind: [u8; 4]) -> (r: Vec<&PngChunk>)
        ensures
            r@.map_values(|c: &PngChunk| c@) == self@.filter(has_type(kind@)),
    {
        let mut found: Vec<&PngChunk> = Vec::new();
        let mut i: usize = 0;
        assert(self@.take(0).filter(has_type(kind@)) =~= Seq::<PngChunkView>::empty()) by {
            reveal(Seq::filter);
        }
        while i < self.chunks.len()
            invariant
                i <= self.chunks.len(),
                found@.map_values(|c: &PngChunk| c@) =~= self@.take(i as int).filter(
                    has_type(kind@),
                ),
            decreases self.chunks.len() - i,
        {
            proof {
                lemma_filter_step(self@, has_type(kind@), i as int);
            }
            let this = self.chunks[i].kind();
            if same_id(&this, &kind) {
                found.push(&self.chunks[i]);
            }
            i += 1;
        }
        assert(self@.take(i as int) == self@);
        found
    }

    /// Whether there is a chunk of another type than `kind`.
    fn has_other_chunk(&self, kind: &[u8; 4]) -> (r: bool)
        ensures
            r == (self@.filter(has_other_type(kind@)).len() >= 1),
    {
        let ghost keep = has_other_type(kind@);
        let mut i: usize = 0;
        assert(self@.take(0).filter(keep) =~= Seq::<PngChunkView>::empty()) by {
            reveal(Seq::filter);
        }
        while i < self.chunks.len()
            invariant
                i <= self.chunks.len(),
                keep == has_other_type(kind@),
                self@.take(i as int).filter(keep).len() == 0,
            decreases self.chunks.len() - i,
        {
            let this = self.chunks[i].kind();
            proof {
                lemma_filter_step(self@, keep, i as int);
                assert(self.chunks@[i as int]@ == self@[i as int]);
            }
            if !same_id(&this, kind) {
                proof {
                    let rest = self@.skip(i as int + 1);
                    assert(self@ =~= self@.take(i as int + 1) + rest);
                    Seq::filter_distributes_over_add(self@.take(i as int + 1), rest, keep);
                }
                return true;
            }
            i += 1;
        }
        assert(self@.take(i as int) == self@);
        false
    }

    /// Remove every chunk with a type of `kind`
    pub fn remove_chunks_by_type(&mut self, kind: [u8; 4])
        ensures
            final(self)@ == old(self)@.filter(has_other_type(kind@)),
    {
        let ghost keep = has_other_type(kind@);
        let mut i: usize = 0;
        let ghost mut seen: int = 0;
        assert(old(self)@.take(0).filter(keep) =~= Seq::<PngChunkView>::empty()) by {
            reveal(Seq::filter);
        }
        while i < self.chunks.len()
            invariant
                i <= self.chunks.len(),
                i <= seen <= old(self)@.len(),
                keep == has_other_type(kind@),
                self@.len() - i == old(self)@.len() - seen,
                self@.take(i as int) =~= old(self)@.take(seen).filter(keep),
                self@.skip(i as int) =~= old(self)@.skip(seen),
            decreases self.chunks.len() - i,
        {
            let this = self.chunks[i].kind();
            let gone = same_id(&this, &kind);
            let ghost before = self@;
            proof {
                lemma_filter_step(old(self)@, keep, seen);
                assert(before[i as int] == before.skip(i as int)[0]);
                assert(self.chunks@[i as int]@ == before[i as int]);
            }
            if gone {
                self.chunks.remove(i);
                proof {
                    assert(self@ =~= before.remove(i as int));
                    assert(self@.take(i as int) =~= before.take(i as int));
                    assert(self@.skip(i as int) =~= before.skip(i as int).skip(1));
                    assert(old(self)@.skip(seen).skip(1) =~= old(self)@.skip(seen + 1));
                }
            } else {
                i += 1;
                proof {
                    assert(self@.take(i as int) =~= before.take(i as int - 1).push(
                        before[i as int - 1],
                    ));
                    assert(self@.skip(i as int) =~= before.skip(i as int - 1).skip(1));
                    assert(old(self)@.skip(seen).skip(1) =~= old(self)@.skip(seen + 1));
                }
            }
            proof {
                seen = seen + 1;
            }
        }
        assert(self@.take(i as int) == self@);
        assert(old(self)@.take(seen) == old(self)@);
    }

    /// Get the total size of the `Png` once it is encoded.
    ///
    /// The size is the sum of:
    ///
    /// - The signature (8 bytes).
    /// - The size of every chunk.
    pub fn len(&self) -> (n: usize)
        requires
            png_len(self@) <= usize::MAX,
        ensures
            n == png_len(self@),
    {
        let ghost sizes = chunk_sizes(self@);
        let mut n: usize = 8;
        let mut i: usize = 0;
        while i < self.chunks.len()
            invariant
                i <= self.chunks.len(),
                sizes == chunk_sizes(self@),
                8 + total(sizes) <= usize::MAX,
                n == 8 + total(sizes.take(i as int)),
            decreases self.chunks.len() - i,
        {
            proof {
                lemma_total_take_step(sizes, i as int);
                lemma_total_take_le(sizes, i as int + 1);
            }
            n = n + self.chunks[i].len();
            i += 1;
        }
        assert(sizes.take(i as int) == sizes);
        n
    }

    /// Create an [encoder][crate::ImageEncoder] for this `Png`
    pub fn encoder(self) -> (e: ImageEncoder<Png>)
        requires
            png_encodable(self@),
        ensures
            e.remaining() == png_fragments(self@),
    {
        ImageEncoder::new(self)
    }
}

/// What the chunks of an image hold is shaped: types and checksums have
/// four bytes.
pub proof fn lemma_png_shaped(png: Png)
    ensures
        png_shaped(png@),
{
    assert forall|i: int| 0 <= i < png@.len() implies png_chunk_shaped(#[trigger] png@[i]) by {
        assert(png@[i] == png.chunks@[i]@);
        lemma_png_chunk_shaped(png.chunks@[i]);
    }
}

/// The fragments of an image make up the image as it stands in a file;
/// its size is the length of that, and it has no more fragments than
/// bytes.
pub proof fn lemma_png_fragments(chunks: Seq<PngChunkView>)
    requires
        png_shaped(chunks),
    ensures
        png_fragments(chunks).flatten() == png_wire(chunks),
        png_wire(chunks).len() == png_len(chunks),
        png_fragments(chunks).len() <= png_len(chunks),
{
    let frags = chunks.map_values(|c: PngChunkView| png_chunk_fragments(c));
    let wires = chunks.map_values(|c: PngChunkView| png_chunk_wire(c));
    assert(frags.map_values(|x: Seq<Seq<u8>>| x.flatten()) =~= wires) by {
        assert forall|i: int| 0 <= i < chunks.len() implies frags[i].flatten() == wires[i] by {
            lemma_png_chunk_fragments(chunks[i]);
        }
    }
    lemma_flatten_twice(frags);
    vstd::seq_lib::lemma_flatten_concat(seq![SIGNATURE@], frags.flatten());
    seq![SIGNATURE@].lemma_flatten_one_element();
    lemma_flatten_len(wires);
    assert(wires.map_values(|x: Seq<u8>| x.len()) =~= chunk_sizes(chunks)) by {
        assert forall|i: int| 0 <= i < chunks.len() implies wires[i].len() == chunk_sizes(
            chunks,
        )[i] by {
            lemma_png_chunk_fragments(chunks[i]);
        }
    }
    assert forall|i: int| 0 <= i < frags.len() implies (#[trigger] frags[i]).len() <= wires[i].len() by {
        lemma_png_chunk_fragments(chunks[i]);
    }
    lemma_flatten_len_le(frags, wires);
}

impl EncodeAt for Png {
    open spec fn fragments(&self) -> Seq<Seq<u8>> {
        png_fragments(self@)
    }

    open spec fn encodable(&self) -> bool {
        png_encodable(self@)
    }

    proof fn lemma_encodable_bounds(&self) {
        lemma_png_shaped(*self);
        lemma_png_fragments(self@);
    }

    fn encode_at(&self, pos: &mut usize) -> (r: Option<Bytes>) {
        proof {
            assert(self.chunks@.map_values(|t: PngChunk| t.fragments()) =~= self@.map_values(
                |c: PngChunkView| png_chunk_fragments(c),
            ));
            assert forall|i: int| 0 <= i < self.chunks@.len() implies (
            #[trigger] self.chunks@[i]).encodable() by {
                assert(self.chunks@[i]@ == self@[i]);
            }
        }
        if *pos == 0 {
            Some(Bytes::copy_from_slice(SIGNATURE.as_slice()))
        } else {
            let mut p: usize = *pos - 1;
            let r = encode_at_each(&self.chunks, &mut p);
            if r.is_none() {
                *pos = p;
            }
            r
        }
    }

    fn is_encodable(&self) -> (r: bool) {
        proof {
            let each = self.chunks@.map_values(|t: PngChunk| t.fragments());
            assert(each =~= self@.map_values(|c: PngChunkView| png_chunk_fragments(c)));
            lemma_png_shaped(*self);
            lemma_png_fragments(self@);
            vstd::seq_lib::lemma_flatten_concat(seq![SIGNATURE@], each.flatten());
            seq![SIGNATURE@].lemma_flatten_one_element();
            assert forall|i: int| 0 <= i < self.chunks@.len() implies (
            #[trigger] self.chunks@[i]).encodable() == png_chunk_encodable(self@[i]) by {
                assert(self.chunks@[i]@ == self@[i]);
            }
        }
        encoded_len_each(&self.chunks, 8).is_some()
    }

    fn encoded_len(&self) -> (n: usize) {
        proof {
            lemma_png_shaped(*self);
            lemma_png_fragments(self@);
        }
        self.len()
    }
}

impl ImageICC for Png {
    open spec fn spec_icc_profile(&self) -> Option<Seq<u8>> {
        png_icc(self@)
    }

    open spec fn accepts_icc_profile(&self, profile: Option<Seq<u8>>) -> bool {
        profile is Some ==> self@.filter(has_other_type(CHUNK_ICCP@)).len() >= 1
    }

    open spec fn icc_profile_replaced(&self, profile: Option<Seq<u8>>, after: &Self) -> bool {
        after@ == png_with_icc(self@, profile)
    }

    fn can_set_icc_profile(&self, profile: &Option<Bytes>) -> (r: bool) {
        profile.is_none() || self.has_other_chunk(&CHUNK_ICCP)
    }

    fn icc_profile(&self) -> (r: Option<Bytes>) {
        let contents = match self.find(&CHUNK_ICCP) {
            Some(i) => self.chunks[i].contents(),
            None => { return None; },
        };
        let data = as_slice(contents);
        // skip profile name and null separator
        let mut end: usize = 0;
        while end < data.len() && data[end] != 0
            invariant
                end <= data.len(),
                forall|j: int| 0 <= j < end ==> !is_zero()(#[trigger] data@[j]),
            decreases data.len() - end,
        {
            end += 1;
        }
        if end >= data.len() {
            proof {
                lemma_position_none(data@, is_zero());
            }
            return None;
        }
        proof {
            lemma_position_is(data@, is_zero(), end as int);
        }
        // check that the compression method is zlib
        if data.len() - end < 2 || data[end + 1] != 0 {
            return None;
        }
        let stream = slice(contents, end + 2, contents.len());
        match inflate(as_slice(&stream)) {
            Some(profile) => Some(from_vec(profile)),
            None => None,
        }
    }

    fn set_icc_profile(&mut self, profile: Option<Bytes>) {
        self.remove_chunks_by_type(CHUNK_ICCP);
        if let Some(profile) = profile {
            let mut contents = BytesMut::with_capacity(profile.len());
            // profile name
            contents.extend_from_slice(ICC_PROFILE_NAME.as_slice());
            // null separator
            put_u8(&mut contents, 0);
            // compression method
            put_u8(&mut contents, 0);
            // compressed profile
            let compressed = deflate(as_slice(&profile), ICC_COMPRESSION_LEVEL);
            contents.extend_from_slice(compressed.as_slice());
            assert(written(contents) =~= iccp_contents(octets(profile)));
            let chunk = PngChunk::new(CHUNK_ICCP, contents.freeze());
            let ghost before = self@;
            assert(self.chunks@.len() == before.len());
            self.chunks.insert(1, chunk);
            assert(self@ =~= before.insert(1, chunk@));
        }
    }
}

impl ImageEXIF for Png {
    open spec fn spec_exif(&self) -> Option<Seq<u8>> {
        png_exif(self@)
    }

    open spec fn accepts_exif(&self, exif: Option<Seq<u8>>) -> bool {
        exif is Some ==> self@.filter(has_other_type(CHUNK_EXIF@)).len() >= 1
    }

    open spec fn exif_replaced(&self, exif: Option<Seq<u8>>, after: &Self) -> bool {
        after@ == png_with_exif(self@, exif)
    }

    fn can_set_exif(&self, exif: &Option<Bytes>) -> (r: bool) {
        exif.is_none() || self.has_other_chunk(&CHUNK_EXIF)
    }

    fn exif(&self) -> (r: Option<Bytes>) {
        match self.find(&CHUNK_EXIF) {
            Some(i) => Some(self.chunks[i].contents().clone()),
            None => None,
        }
    }

    fn set_exif(&mut self, exif: Option<Bytes>) {
        self.remove_chunks_by_type(CHUNK_EXIF);
        if let Some(exif) = exif {
            let chunk = PngChunk::new(CHUNK_EXIF, exif);
            let ghost before = self@;
            assert(self.chunks@.len() == before.len());
            let at = self.chunks.len() - 1;
            self.chunks.insert(at, chunk);
            assert(self@ =~= before.insert(at as int, chunk@));
        }
    }
}

} // verus!
