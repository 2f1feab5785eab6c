//! One type for the images of all formats that this library reads.

use crate::buf::{as_slice, octets};
use crate::encoder::{EncodeAt, ImageEncoder};
use crate::error::Error;
use crate::jpeg::image::{
    jpeg_encodable, jpeg_fragments, jpeg_len, jpeg_wire, parse_jpeg, segment_sizes,
};
use crate::jpeg::laws::{
    cut_short, jpeg_complete, lemma_jpeg_round_trip, lemma_jpeg_truncated, lemma_segments_first,
    segment_readable, segments_wire,
};
use crate::jpeg::{is_jpeg, spec_is_jpeg, Jpeg, JpegSegmentView};
use crate::png::image::{
    is_png, parse_png, png_encodable, png_fragments, png_len, png_wire, SIGNATURE,
};
use crate::png::laws::{lemma_png_truncated, lemma_png_written, png_sound};
use crate::png::{Png, PngChunkView};
use crate::riff::laws::{chunks_readable, lemma_chunks_first};
use crate::riff::{chunk_fragments, chunk_len, chunk_wire, chunks_len, RiffChunkView};
use crate::traits::{ImageEXIF, ImageICC};
use crate::webp::laws::{lemma_webp_round_trip, lemma_webp_truncated};
use crate::webp::{is_webp, parse_webp, spec_is_webp, webp_riff, WebP, KIND_WEBP};
use bytes::Bytes;
use vstd::prelude::*;
use vstd::std_specs::convert::FromSpecImpl;

verus! {

/// An enum wrapping the common functions shared by the different image formats
#[derive(Debug, PartialEq)]
pub enum DynImage {
    Jpeg(Jpeg),
    Png(Png),
    WebP(WebP),
}

/// What an image of one of the formats holds.
pub enum DynImageView {
    /// The segments of a JPEG image.
    Jpeg(Seq<JpegSegmentView>),
    /// The chunks of a PNG image.
    Png(Seq<PngChunkView>),
    /// The chunks of a WebP image.
    WebP(Seq<RiffChunkView>),
}

/// The image that the file `s` holds, by the signature it opens with:
/// the formats are tried in the order JPEG, PNG, WebP. A file that opens
/// with none of the signatures holds no image of a supported format,
/// which is no error.
pub open spec fn parse_image(s: Seq<u8>) -> Result<Option<DynImageView>, Error> {
    if spec_is_jpeg(s) {
        match parse_jpeg(s) {
            Ok(segments) => Ok(Some(DynImageView::Jpeg(segments))),
            Err(e) => Err(e),
        }
    } else if SIGNATURE@.is_prefix_of(s) {
        match parse_png(s) {
            Ok(chunks) => Ok(Some(DynImageView::Png(chunks))),
            Err(e) => Err(e),
        }
    } else if spec_is_webp(s) {
        match parse_webp(s) {
            Ok(chunks) => Ok(Some(DynImageView::WebP(chunks))),
            Err(e) => Err(e),
        }
    } else {
        Ok(None)
    }
}

/// The fragments of an image.
pub open spec fn image_fragments(v: DynImageView) -> Seq<Seq<u8>> {
    match v {
        DynImageView::Jpeg(segments) => jpeg_fragments(segments),
        DynImageView::Png(chunks) => png_fragments(chunks),
        DynImageView::WebP(chunks) => chunk_fragments(webp_riff(chunks)),
    }
}

/// The total size of an image once it is encoded.
pub open spec fn image_len(v: DynImageView) -> nat {
    match v {
        DynImageView::Jpeg(segments) => jpeg_len(segments),
        DynImageView::Png(chunks) => png_len(chunks),
        DynImageView::WebP(chunks) => chunk_len(webp_riff(chunks)),
    }
}

/// Whether the total size of an image can be counted: that of a WebP
/// image in 32 bits, that of the others in a `usize`.
pub open spec fn image_len_fits(v: DynImageView) -> bool {
    match v {
        DynImageView::Jpeg(segments) => jpeg_len(segments) <= usize::MAX,
        DynImageView::Png(chunks) => png_len(chunks) <= usize::MAX,
        DynImageView::WebP(chunks) => chunk_len(webp_riff(chunks)) <= u32::MAX,
    }
}

/// Whether an image can be written.
pub open spec fn image_encodable(v: DynImageView) -> bool {
    match v {
        DynImageView::Jpeg(segments) => jpeg_encodable(segments),
        DynImageView::Png(chunks) => png_encodable(chunks),
        DynImageView::WebP(chunks) => chunk_len(webp_riff(chunks)) <= u32::MAX,
    }
}

impl View for DynImage {
    type V = DynImageView;

    open spec fn view(&self) -> DynImageView {
        match self {
            DynImage::Jpeg(jpeg) => DynImageView::Jpeg(jpeg@),
            DynImage::Png(png) => DynImageView::Png(png@),
            DynImage::WebP(webp) => DynImageView::WebP(webp@),
        }
    }
}

impl DynImage {
    /// Tries to infer the file type from the file signature and calls
    /// the `from_bytes` method for the inferred format
    ///
    /// Returns `Ok(None)` if the format isn't supported.
    ///
    /// # Errors
    ///
    /// This method fails if the file is corrupted or truncated.
    pub fn from_bytes(b: Bytes) -> (r: Result<Option<DynImage>, Error>)
        ensures
            match r {
                Ok(Some(image)) => parse_image(octets(b)) == Ok::<Option<DynImageView>, Error>(
                    Some(image@),
                ),
                Ok(None) => parse_image(octets(b)) == Ok::<Option<DynImageView>, Error>(None),
                Err(e) => parse_image(octets(b)) == Err::<Option<DynImageView>, Error>(e),
            },
    {
        if is_jpeg(as_slice(&b)) {
            match Jpeg::from_bytes(b) {
                Ok(jpeg) => Ok(Some(DynImage::Jpeg(jpeg))),
                Err(e) => Err(e),
            }
        } else if is_png(as_slice(&b)) {
            match Png::from_bytes(b) {
                Ok(png) => Ok(Some(DynImage::Png(png))),
                Err(e) => Err(e),
            }
        } else if is_webp(as_slice(&b)) {
            match WebP::from_bytes(b) {
                Ok(webp) => Ok(Some(DynImage::WebP(webp))),
                Err(e) => Err(e),
            }
        } else {
            Ok(None)
        }
    }

    /// Get the total size of the inner image once it is encoded
    pub fn len(&self) -> (n: usize)
        requires
            image_len_fits(self@),
        ensures
            n == image_len(self@),
    {
        match self {
            DynImage::Jpeg(jpeg) => jpeg.len(),
            DynImage::Png(png) => png.len(),
            DynImage::WebP(webp) => webp.len() as usize,
        }
    }

    /// Create an [encoder][crate::ImageEncoder] for the inner image
    pub fn encoder(self) -> (e: ImageEncoder<DynImage>)
        requires
            image_encodable(self@),
        ensures
            e.remaining() == image_fragments(self@),
    {
        ImageEncoder::new(self)
    }
}

impl EncodeAt for DynImage {
    open spec fn fragments(&self) -> Seq<Seq<u8>> {
        image_fragments(self@)
    }

    open spec fn encodable(&self) -> bool {
        image_encodable(self@)
    }

    proof fn lemma_encodable_bounds(&self) {
        match self {
            DynImage::Jpeg(jpeg) => jpeg.lemma_encodable_bounds(),
            DynImage::Png(png) => png.lemma_encodable_bounds(),
            DynImage::WebP(webp) => webp.lemma_encodable_bounds(),
        }
    }

    fn encode_at(&self, pos: &mut usize) -> (r: Option<Bytes>) {
        match self {
            DynImage::Jpeg(jpeg) => jpeg.encode_at(pos),
            DynImage::Png(png) => png.encode_at(pos),
            DynImage::WebP(webp) => webp.encode_at(pos),
        }
    }

    fn is_encodable(&self) -> (r: bool) {
        match self {
            DynImage::Jpeg(jpeg) => jpeg.is_encodable(),
            DynImage::Png(png) => png.is_encodable(),
            DynImage::WebP(webp) => webp.is_encodable(),
        }
    }

    fn encoded_len(&self) -> (n: usize) {
        match self {
            DynImage::Jpeg(jpeg) => jpeg.encoded_len(),
            DynImage::Png(png) => png.encoded_len(),
            DynImage::WebP(webp) => webp.encoded_len(),
        }
    }
}

impl ImageICC for DynImage {
    open spec fn spec_icc_profile(&self) -> Option<Seq<u8>> {
        match self {
            DynImage::Jpeg(jpeg) => jpeg.spec_icc_profile(),
            DynImage::Png(png) => png.spec_icc_profile(),
            DynImage::WebP(webp) => webp.spec_icc_profile(),
        }
    }

    open spec fn accepts_icc_profile(&self, profile: Option<Seq<u8>>) -> bool {
        match self {
            DynImage::Jpeg(jpeg) => jpeg.accepts_icc_profile(profile),
            DynImage::Png(png) => png.accepts_icc_profile(profile),
            DynImage::WebP(webp) => webp.accepts_icc_profile(profile),
        }
    }

    open spec fn icc_profile_replaced(&self, profile: Option<Seq<u8>>, after: &Self) -> bool {
        match (self, after) {
            (DynImage::Jpeg(before), DynImage::Jpeg(after)) => before.icc_profile_replaced(
                profile,
                after,
            ),
            (DynImage::Png(before), DynImage::Png(after)) => before.icc_profile_replaced(
                profile,
                after,
            ),
            (DynImage::WebP(before), DynImage::WebP(after)) => before.icc_profile_replaced(
                profile,
                after,
            ),
            _ => false,
        }
    }

    fn can_set_icc_profile(&self, profile: &Option<Bytes>) -> (r: bool) {
        match self {
            DynImage::Jpeg(jpeg) => jpeg.can_set_icc_profile(profile),
            DynImage::Png(png) => png.can_set_icc_profile(profile),
            DynImage::WebP(webp) => webp.can_set_icc_profile(profile),
        }
    }

    fn icc_profile(&self) -> (r: Option<Bytes>) {
        match self {
            DynImage::Jpeg(jpeg) => jpeg.icc_profile(),
            DynImage::Png(png) => png.icc_profile(),
            DynImage::WebP(webp) => webp.icc_profile(),
        }
    }

    fn set_icc_profile(&mut self, profile: Option<Bytes>) {
        match self {
            DynImage::Jpeg(jpeg) => jpeg.set_icc_profile(profile),
            DynImage::Png(png) => png.set_icc_profile(profile),
            DynImage::WebP(webp) => webp.set_icc_profile(profile),
        }
    }
}

impl ImageEXIF for DynImage {
    open spec fn spec_exif(&self) -> Option<Seq<u8>> {
        match self {
            DynImage::Jpeg(jpeg) => jpeg.spec_exif(),
            DynImage::Png(png) => png.spec_exif(),
            DynImage::WebP(webp) => webp.spec_exif(),
        }
    }

    open spec fn accepts_exif(&self, exif: Option<Seq<u8>>) -> bool {
        match self {
            DynImage::Jpeg(jpeg) => jpeg.accepts_exif(exif),
            DynImage::Png(png) => png.accepts_exif(exif),
            DynImage::WebP(webp) => webp.accepts_exif(exif),
        }
    }

    open spec fn exif_replaced(&self, exif: Option<Seq<u8>>, after: &Self) -> bool {
        match (self, after) {
            (DynImage::Jpeg(before), DynImage::Jpeg(after)) => before.exif_replaced(exif, after),
            (DynImage::Png(before), DynImage::Png(after)) => before.exif_replaced(exif, after),
            (DynImage::WebP(before), DynImage::WebP(after)) => before.exif_replaced(exif, after),
            _ => false,
        }
    }

    fn can_set_exif(&self, exif: &Option<Bytes>) -> (r: bool) {
        match self {
            DynImage::Jpeg(jpeg) => jpeg.can_set_exif(exif),
            DynImage::Png(png) => png.can_set_exif(exif),
            DynImage::WebP(webp) => webp.can_set_exif(exif),
        }
    }

    fn exif(&self) -> (r: Option<Bytes>) {
        match self {
            DynImage::Jpeg(jpeg) => jpeg.exif(),
            DynImage::Png(png) => png.exif(),
            DynImage::WebP(webp) => webp.exif(),
        }
    }

    fn set_exif(&mut self, exif: Option<Bytes>) {
        match self {
            DynImage::Jpeg(jpeg) => jpeg.set_exif(exif),
            DynImage::Png(png) => png.set_exif(exif),
            DynImage::WebP(webp) => webp.set_exif(exif),
        }
    }
}

impl From<Jpeg> for DynImage {
    fn from(jpeg: Jpeg) -> (image: DynImage) {
        DynImage::Jpeg(jpeg)
    }
}

impl FromSpecImpl<Jpeg> for DynImage {
    open spec fn obeys_from_spec() -> bool {
        true
    }

    open spec fn from_spec(jpeg: Jpeg) -> DynImage {
        DynImage::Jpeg(jpeg)
    }
}

impl From<Png> for DynImage {
    fn from(png: Png) -> (image: DynImage) {
        DynImage::Png(png)
    }
}

impl FromSpecImpl<Png> for DynImage {
    open spec fn obeys_from_spec() -> bool {
        true
    }

    open spec fn from_spec(png: Png) -> DynImage {
        DynImage::Png(png)
    }
}

impl From<WebP> for DynImage {
    fn from(webp: WebP) -> (image: DynImage) {
        DynImage::WebP(webp)
    }
}

impl FromSpecImpl<WebP> for DynImage {
    open spec fn obeys_from_spec() -> bool {
        true
    }

    open spec fn from_spec(webp: WebP) -> DynImage {
        DynImage::WebP(webp)
    }
}

/// An image as it stands in a file.
pub open spec fn image_wire(v: DynImageView) -> Seq<u8> {
    match v {
        DynImageView::Jpeg(segments) => jpeg_wire(segments),
        DynImageView::Png(chunks) => png_wire(chunks),
        DynImageView::WebP(chunks) => chunk_wire(webp_riff(chunks)),
    }
}

/// Whether an image is a whole image such as reading gives: a JPEG image
/// that ends in a scan header, a PNG image of sound chunks, or a WebP
/// image of at least one chunk, all readable, whose size fits in 32 bits.
pub open spec fn image_complete(v: DynImageView) -> bool {
    match v {
        DynImageView::Jpeg(segments) => jpeg_complete(segments),
        DynImageView::Png(chunks) => png_sound(chunks),
        DynImageView::WebP(chunks) => chunks.len() >= 1 && chunks_readable(chunks) && chunk_len(
            webp_riff(chunks),
        ) <= u32::MAX,
    }
}

/// The file of a whole JPEG image opens with the signature of its
/// format.
proof fn lemma_jpeg_sniffed(segments: Seq<JpegSegmentView>)
    requires
        jpeg_complete(segments),
    ensures
        spec_is_jpeg(jpeg_wire(segments)),
{
    let first = segments[0];
    let rest = segments.skip(1);
    assert(segments =~= seq![first] + rest);
    lemma_segments_first(first, rest);
    lemma_jpeg_round_trip(segments);
    let sizes = segment_sizes(segments);
    let last = segments.len() - 1;
    crate::seqs::lemma_total_take_step(sizes, last);
    assert(sizes.take(last + 1) == sizes);
    assert(segment_readable(segments[last]));
    assert(segment_readable(first));
    crate::buf::lemma_be16(first.contents.len() as int + 2, Seq::empty());
    assert(segments_wire(segments)[0] == crate::jpeg::markers::P);
    assert(jpeg_wire(segments)[2] == segments_wire(segments)[0]);
}

/// The file of a WebP image of at least one chunk opens with the
/// signature of its format.
proof fn lemma_webp_sniffed(chunks: Seq<RiffChunkView>)
    requires
        chunks.len() >= 1,
        chunks_readable(chunks),
    ensures
        spec_is_webp(chunk_wire(webp_riff(chunks))),
        chunk_wire(webp_riff(chunks))[0] == 0x52,
{
    let wire = chunk_wire(webp_riff(chunks));
    lemma_chunks_first(chunks);
    crate::riff::laws::lemma_chunks_readable_shaped(chunks);
    crate::riff::lemma_chunks_fragments(chunks);
    crate::buf::lemma_le32(4 + chunks_len(chunks) as int, Seq::empty());
    assert(wire.subrange(0, 4) =~= crate::riff::SIGNATURE@);
    assert(wire.subrange(8, 12) =~= KIND_WEBP@);
    assert(crate::riff::SIGNATURE@[0] == 0x52);
}

/// Writing an image and reading what was written gives the image, in the
/// format it has: the file of a whole image is read as that image.
pub proof fn lemma_image_round_trip(v: DynImageView)
    requires
        image_complete(v),
    ensures
        parse_image(image_wire(v)) == Ok::<Option<DynImageView>, Error>(Some(v)),
        image_len(v) == image_wire(v).len(),
{
    match v {
        DynImageView::Jpeg(segments) => {
            lemma_jpeg_sniffed(segments);
            lemma_jpeg_round_trip(segments);
        },
        DynImageView::Png(chunks) => {
            let wire = png_wire(chunks);
            assert(wire.subrange(0, 8) =~= SIGNATURE@);
            assert(wire[0] == SIGNATURE@[0]);
            lemma_png_written(chunks);
            crate::png::laws::lemma_png_len(chunks);
        },
        DynImageView::WebP(chunks) => {
            lemma_webp_sniffed(chunks);
            lemma_webp_round_trip(chunks);
            let wire = chunk_wire(webp_riff(chunks));
            if SIGNATURE@.is_prefix_of(wire) {
                assert(wire.subrange(0, 8)[0] == SIGNATURE@[0]);
            }
        },
    }
}

/// Whether the image `short` is what a front part of the file of the
/// image `full` is read as: a JPEG image of the same segments with the
/// entropy data cut short, a PNG image of a front part of the chunks, or
/// the same WebP image.
pub open spec fn image_cut_short(short: DynImageView, full: DynImageView) -> bool {
    match (short, full) {
        (DynImageView::Jpeg(short), DynImageView::Jpeg(full)) => cut_short(short, full),
        (DynImageView::Png(short), DynImageView::Png(full)) => short.is_prefix_of(full),
        (DynImageView::WebP(short), DynImageView::WebP(full)) => short == full,
        _ => false,
    }
}

/// A file that is cut short is read without a failure other than
/// truncation: of a file `s` that holds an image, every front part is
/// read as that image cut short, or found truncated; only a front part of
/// no more than 12 bytes, too short for its signature, is read as of no
/// supported format.
pub proof fn lemma_image_truncated(s: Seq<u8>, k: int)
    requires
        parse_image(s) is Ok,
        parse_image(s).unwrap() is Some,
        0 <= k <= s.len(),
    ensures
        match parse_image(s.take(k)) {
            Ok(Some(short)) => image_cut_short(short, parse_image(s).unwrap().unwrap()),
            Ok(None) => k <= 12,
            Err(e) => e == Error::Truncated,
        },
{
    let t = s.take(k);
    if spec_is_jpeg(s) {
        if spec_is_jpeg(t) {
            lemma_jpeg_truncated(s, k);
        } else if SIGNATURE@.is_prefix_of(t) {
            assert(t.subrange(0, 8)[0] == SIGNATURE@[0]);
        } else if spec_is_webp(t) {
            assert(t.subrange(0, 4)[0] == crate::riff::SIGNATURE@[0]);
        }
    } else if SIGNATURE@.is_prefix_of(s) {
        assert(s.subrange(0, 8)[0] == SIGNATURE@[0]);
        if k >= 8 {
            assert(t.subrange(0, 8) =~= s.subrange(0, 8));
            lemma_png_truncated(s, k);
        } else if spec_is_webp(t) {
            assert(t.subrange(0, 4)[0] == crate::riff::SIGNATURE@[0]);
        }
    } else {
        assert(s.subrange(0, 4)[0] == crate::riff::SIGNATURE@[0]);
        if SIGNATURE@.is_prefix_of(t) {
            assert(t.subrange(0, 8) =~= s.subrange(0, 8));
        } else if k > 12 {
            assert(t.subrange(0, 4) =~= s.subrange(0, 4));
            assert(t.subrange(8, 12) =~= s.subrange(8, 12));
            lemma_webp_truncated(s, k);
        }
    }
}

} // verus!
