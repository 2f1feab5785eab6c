//! A JPEG image as the sequence of its segments.

use super::markers;
use super::markers::has_length;
use super::segment::{
    is_exif, is_icc, parse_segment, segment_encodable, segment_fragments, segment_len, segment_wire,
    JpegSegment, JpegSegmentView, EXIF_DATA_PREFIX, ICC_DATA_PREFIX,
};
use crate::buf::{as_slice, octets, slice, written};
use crate::encoder::{encode_at_each, encoded_len_each, EncodeAt, ImageEncoder};
use crate::error::Error;
use crate::seqs::{
    lemma_filter_step, lemma_flatten_len, lemma_flatten_len_le, lemma_flatten_twice,
    lemma_position_is, lemma_position_none, lemma_total_take_le, lemma_total_take_step, position,
    total, views,
};
use crate::traits::{ImageEXIF, ImageICC};
use crate::util::read_u8;
use bytes::{Bytes, BytesMut};
use vstd::prelude::*;

verus! {

/// The bytes that an ICC segment takes besides its part of the profile:
/// its length (2 bytes) and what precedes the part in its contents (14
/// bytes).
pub const ICC_PREFIX_SIZE: usize = 16;

/// The most bytes of a profile that one segment can carry.
pub const ICC_SEGMENT_MAX_SIZE: usize = 65519;

/// The representation of a Jpeg image.
#[derive(Debug, Clone, PartialEq)]
pub struct Jpeg {
    segments: Vec<JpegSegment>,
}

/// The start-of-image marker that opens every JPEG file.
pub open spec fn soi() -> Seq<u8> {
    seq![markers::P, markers::SOI]
}

/// An image as it stands in a file: the start-of-image marker and every
/// segment with its entropy data.
pub open spec fn jpeg_wire(segs: Seq<JpegSegmentView>) -> Seq<u8> {
    soi() + segs.map_values(|s: JpegSegmentView| segment_wire(s)).flatten()
}

/// The fragments of an image: the start-of-image marker, then those of
/// every segment.
pub open spec fn jpeg_fragments(segs: Seq<JpegSegmentView>) -> Seq<Seq<u8>> {
    seq![soi()] + segs.map_values(|s: JpegSegmentView| segment_fragments(s)).flatten()
}

/// The size of each segment once it is encoded, entropy included.
pub open spec fn segment_sizes(segs: Seq<JpegSegmentView>) -> Seq<nat> {
    segs.map_values(|s: JpegSegmentView| segment_len(s) + s.entropy.len())
}

/// The total size of an image once it is encoded: the start-of-image
/// marker (2 bytes) and the size of every segment, entropy included.
pub open spec fn jpeg_len(segs: Seq<JpegSegmentView>) -> nat {
    2 + total(segment_sizes(segs))
}

/// Whether an image can be written: each segment can, and the total size
/// can be counted.
pub open spec fn jpeg_encodable(segs: Seq<JpegSegmentView>) -> bool {
    &&& forall|i: int| 0 <= i < segs.len() ==> segment_encodable(#[trigger] segs[i])
    &&& jpeg_len(segs) <= usize::MAX
}

/// The segments `head` followed by those of `tail`, where `tail` is no
/// error.
pub open spec fn followed_by(head: Seq<JpegSegmentView>, tail: Result<Seq<JpegSegmentView>, Error>)
    -> Result<Seq<JpegSegmentView>, Error> {
    match tail {
        Ok(v) => Ok(head + v),
        Err(e) => Err(e),
    }
}

/// The segments that `s` holds, where `s` stands behind the first byte of
/// a marker: further such bytes are passed over, the end-of-image marker
/// ends the image, a marker without a length is a segment by itself, and
/// any other is read with its length and contents. A scan header that
/// other bytes follow takes them all and ends the image.
pub open spec fn parse_marker(s: Seq<u8>) -> Result<Seq<JpegSegmentView>, Error>
    decreases s.len(), 0nat,
{
    if s.len() == 0 {
        Err(Error::Truncated)
    } else if s[0] == markers::P {
        parse_marker(s.skip(1))
    } else if s[0] == markers::EOI {
        Ok(Seq::empty())
    } else if !has_length(s[0]) {
        followed_by(
            seq![JpegSegmentView { marker: s[0], contents: Seq::empty(), entropy: Seq::empty() }],
            parse_segments(s.skip(1)),
        )
    } else {
        match parse_segment(s[0], s.skip(1)) {
            Err(e) => Err(e),
            Ok((segment, size)) => if segment.entropy.len() > 0 {
                Ok(seq![segment])
            } else if 2 <= size <= s.len() - 1 {
                followed_by(seq![segment], parse_segments(s.skip(1 + size)))
            } else {
                Err(Error::Truncated)
            },
        }
    }
}

/// The segments that `s` holds, where `s` stands between segments: bytes
/// before the first byte of a marker are passed over.
pub open spec fn parse_segments(s: Seq<u8>) -> Result<Seq<JpegSegmentView>, Error>
    decreases s.len(), 1nat,
{
    if s.len() == 0 {
        Err(Error::Truncated)
    } else if s[0] != markers::P {
        parse_segments(s.skip(1))
    } else {
        parse_marker(s.skip(1))
    }
}

/// The segments of the JPEG file `s`, or the error that reading it ends
/// in: a file of fewer than two bytes is truncated, one that does not
/// open with the start-of-image marker has the wrong signature.
pub open spec fn parse_jpeg(s: Seq<u8>) -> Result<Seq<JpegSegmentView>, Error> {
    if s.len() < 2 {
        Err(Error::Truncated)
    } else if s[0] != markers::P || s[1] != markers::SOI {
        Err(Error::WrongSignature)
    } else {
        parse_segments(s.skip(2))
    }
}

/// The condition by which segments are found by their marker.
pub open spec fn has_marker(marker: u8) -> spec_fn(JpegSegmentView) -> bool {
    |s: JpegSegmentView| s.marker == marker
}

/// The condition that keeps every segment but those of one marker.
pub open spec fn has_other_marker(marker: u8) -> spec_fn(JpegSegmentView) -> bool {
    |s: JpegSegmentView| s.marker != marker
}

/// The condition by which the segments of an ICC profile are found.
pub open spec fn carries_icc() -> spec_fn(JpegSegmentView) -> bool {
    |s: JpegSegmentView| is_icc(s)
}

/// The condition that keeps every segment but those of an ICC profile.
pub open spec fn carries_no_icc() -> spec_fn(JpegSegmentView) -> bool {
    |s: JpegSegmentView| !is_icc(s)
}

/// The condition by which the segment with EXIF metadata is found.
pub open spec fn carries_exif() -> spec_fn(JpegSegmentView) -> bool {
    |s: JpegSegmentView| is_exif(s)
}

/// The condition that keeps every segment but those with EXIF metadata.
pub open spec fn carries_no_exif() -> spec_fn(JpegSegmentView) -> bool {
    |s: JpegSegmentView| !is_exif(s)
}

/// One part of an ICC profile, as a segment carries it.
pub struct IccPart {
    /// The place of the part among the parts, counted from 1.
    pub seqno: u8,
    /// The bytes of the part.
    pub data: Seq<u8>,
}

/// The part of an ICC profile that a segment carries.
pub open spec fn icc_part(s: JpegSegmentView) -> IccPart {
    IccPart { seqno: s.contents[12], data: s.contents.skip(14) }
}

/// The parts of an ICC profile that the segments carry, in the order of
/// the segments.
pub open spec fn icc_parts(segs: Seq<JpegSegmentView>) -> Seq<IccPart> {
    segs.filter(carries_icc()).map_values(|s: JpegSegmentView| icc_part(s))
}

/// The data of the parts that have the sequence number `seqno`, in the
/// order of `parts`.
pub open spec fn with_seqno(parts: Seq<IccPart>, seqno: int) -> Seq<u8>
    decreases parts.len(),
{
    if parts.len() == 0 {
        Seq::empty()
    } else {
        with_seqno(parts.drop_last(), seqno) + (if parts.last().seqno == seqno {
            parts.last().data
        } else {
            Seq::empty()
        })
    }
}

/// The data of the parts with a sequence number below `limit`, by
/// ascending sequence number; parts of one number keep the order of
/// `parts`.
pub open spec fn by_seqno(parts: Seq<IccPart>, limit: int) -> Seq<u8>
    decreases limit,
{
    if limit <= 0 {
        Seq::empty()
    } else {
        by_seqno(parts, limit - 1) + with_seqno(parts, limit - 1)
    }
}

/// The order in which parts of one sequence number are joined: the first
/// two parts of the file come last.
pub open spec fn joining_order(parts: Seq<IccPart>) -> Seq<IccPart> {
    parts.skip(2) + parts.take(2)
}

/// The ICC profile of an image: none where no segment carries a part; the
/// data of the one part where there is one; else the data of all parts by
/// ascending sequence number.
pub open spec fn jpeg_icc(segs: Seq<JpegSegmentView>) -> Option<Seq<u8>> {
    let parts = icc_parts(segs);
    if parts.len() == 0 {
        None
    } else if parts.len() == 1 {
        Some(parts[0].data)
    } else {
        Some(by_seqno(joining_order(parts), 256))
    }
}

/// The segment that carries part `seqno` of `num` of an ICC profile.
pub open spec fn icc_segment(seqno: int, num: int, data: Seq<u8>) -> JpegSegmentView {
    JpegSegmentView {
        marker: markers::APP2,
        contents: ICC_DATA_PREFIX@ + seq![seqno as u8, num as u8] + data,
        entropy: Seq::empty(),
    }
}

/// The number of segments that a profile of `len` bytes is split into:
/// one more than the number of full segments.
pub open spec fn icc_segment_count(len: nat) -> int {
    len as int / ICC_SEGMENT_MAX_SIZE as int + 1
}

/// Whether a profile of `len` bytes is split into no more segments than
/// the one byte that counts them can hold: at most 255.
pub open spec fn icc_fits(len: nat) -> bool {
    icc_segment_count(len) <= 255
}

/// Part `i` of a profile, counted from 0: at most `ICC_SEGMENT_MAX_SIZE`
/// bytes.
pub open spec fn icc_chunk(profile: Seq<u8>, i: int) -> Seq<u8> {
    profile.subrange(
        ICC_SEGMENT_MAX_SIZE * i,
        if profile.len() < ICC_SEGMENT_MAX_SIZE * (i + 1) {
            profile.len() as int
        } else {
            ICC_SEGMENT_MAX_SIZE * (i + 1)
        },
    )
}

/// The segments of the first `made` parts of a profile as they stand in
/// an image: each new one before those made earlier.
pub open spec fn icc_run(profile: Seq<u8>, made: int) -> Seq<JpegSegmentView> {
    Seq::new(
        made as nat,
        |t: int| icc_segment(made - t, icc_segment_count(profile.len()), icc_chunk(profile, made - t - 1)),
    )
}

/// The segments of an image after its ICC profile has been replaced:
/// every segment of the old profile is gone, and those of the new one
/// stand behind the first three segments that are left.
pub open spec fn with_icc(segs: Seq<JpegSegmentView>, profile: Option<Seq<u8>>) -> Seq<JpegSegmentView> {
    let kept = segs.filter(carries_no_icc());
    match profile {
        None => kept,
        Some(p) => kept.take(3) + icc_run(p, icc_segment_count(p.len())) + kept.skip(3),
    }
}

/// The EXIF metadata of an image: what follows the EXIF bytes in the
/// first segment that carries them.
pub open spec fn jpeg_exif(segs: Seq<JpegSegmentView>) -> Option<Seq<u8>> {
    match position(segs, carries_exif()) {
        Some(i) => Some(segs[i].contents.skip(6)),
        None => None,
    }
}

/// The segment that carries the EXIF metadata `data`.
pub open spec fn exif_segment(data: Seq<u8>) -> JpegSegmentView {
    JpegSegmentView {
        marker: markers::APP1,
        contents: EXIF_DATA_PREFIX@ + data,
        entropy: Seq::empty(),
    }
}

/// The segments of an image after its EXIF metadata has been replaced:
/// every segment with EXIF metadata is gone, and the new one stands behind
/// the first three segments that are left.
pub open spec fn with_exif(segs: Seq<JpegSegmentView>, exif: Option<Seq<u8>>) -> Seq<JpegSegmentView> {
    let kept = segs.filter(carries_no_exif());
    match exif {
        None => kept,
        Some(e) => kept.insert(3, exif_segment(e)),
    }
}

/// Which segments to remove.
enum Removal {
    /// Those of one marker.
    Marker(u8),
    /// Those of an ICC profile.
    Icc,
    /// Those with EXIF metadata.
    Exif,
}

/// Whether a removal takes the segment `s`.
spec fn removes(what: Removal, s: JpegSegmentView) -> bool {
    match what {
        Removal::Marker(marker) => s.marker == marker,
        Removal::Icc => is_icc(s),
        Removal::Exif => is_exif(s),
    }
}

/// The parts that were collected from segments, as what they hold.
spec fn collected(found: Seq<(u8, Bytes)>) -> Seq<IccPart> {
    found.map_values(|f: (u8, Bytes)| IccPart { seqno: f.0, data: octets(f.1) })
}

impl View for Jpeg {
    type V = Seq<JpegSegmentView>;

    closed spec fn view(&self) -> Seq<JpegSegmentView> {
        views(self.segments@)
    }
}

impl Jpeg {
    /// Create a `Jpeg` from `Bytes`
    ///
    /// # Errors
    ///
    /// This method fails if the file signature doesn't match or if
    /// it is corrupted or truncated.
    pub fn from_bytes(b: Bytes) -> (r: Result<Jpeg, Error>)
        ensures
            match r {
                Ok(jpeg) => parse_jpeg(octets(b)) == Ok::<Seq<JpegSegmentView>, Error>(jpeg@)
                    && jpeg_encodable(jpeg@),
                Err(e) => parse_jpeg(octets(b)) == Err::<Seq<JpegSegmentView>, Error>(e),
            },
    {
        let ghost input = octets(b);
        let mut buf = b;
        let b0 = match read_u8(&mut buf) {
            Ok(v) => v,
            Err(e) => { return Err(e); },
        };
        proof {
            if parse_jpeg(input) is Ok {
                super::laws::lemma_jpeg_read(input);
            }
        }
        let b1 = match read_u8(&mut buf) {
            Ok(v) => v,
            Err(e) => { return Err(e); },
        };
        if b0 != markers::P || b1 != markers::SOI {
            return Err(Error::WrongSignature);
        }
        assert(octets(buf) =~= input.skip(2));
        let mut segments: Vec<JpegSegment> = Vec::with_capacity(8);
        assert(views(segments@) =~= Seq::<JpegSegmentView>::empty());
        loop
            invariant
                input == octets(b),
                parse_jpeg(input) is Ok ==> jpeg_encodable(parse_jpeg(input).unwrap()),
                parse_jpeg(input) == followed_by(views(segments@), parse_segments(octets(buf))),
            decreases octets(buf).len(),
        {
            let ghost at_start = octets(buf).len();
            let fmb = match read_u8(&mut buf) {
                Ok(v) => v,
                Err(e) => { return Err(e); },
            };
            if fmb == markers::P {
                let mut marker = markers::P;
                while marker == markers::P
                    invariant
                        input == octets(b),
                        parse_jpeg(input) is Ok ==> jpeg_encodable(parse_jpeg(input).unwrap()),
                        parse_jpeg(input) == followed_by(
                            views(segments@),
                            if marker == markers::P {
                                parse_marker(octets(buf))
                            } else {
                                parse_marker(seq![marker] + octets(buf))
                            },
                        ),
                        octets(buf).len() < at_start,
                    decreases octets(buf).len() + (if marker == markers::P { 1nat } else { 0nat }),
                {
                    let ghost before = octets(buf);
                    marker = match read_u8(&mut buf) {
                        Ok(v) => v,
                        Err(e) => { return Err(e); },
                    };
                    assert(seq![marker] + octets(buf) =~= before);
                }
                let ghost at_marker = seq![marker] + octets(buf);
                assert(at_marker.skip(1) =~= octets(buf));
                if marker == markers::EOI {
                    assert(views(segments@) + Seq::<JpegSegmentView>::empty() =~= views(segments@));
                    return Ok(Jpeg { segments });
                }
                let ghost done = views(segments@);
                if !has_length(marker) {
                    let segment = JpegSegment::new(marker);
                    segments.push(segment);
                    proof {
                        assert(views(segments@) =~= done + seq![segment@]);
                        lemma_followed_by(done, seq![segment@], parse_segments(octets(buf)));
                    }
                } else {
                    let ghost before = octets(buf);
                    let segment = match JpegSegment::from_bytes(marker, &mut buf) {
                        Ok(v) => v,
                        Err(e) => { return Err(e); },
                    };
                    let has_entropy = segment.has_entropy();
                    segments.push(segment);
                    proof {
                        assert(views(segments@) =~= done + seq![segment@]);
                        assert(at_marker.skip(1 + crate::buf::u16_from_be(before)) =~= octets(buf));
                        lemma_followed_by(done, seq![segment@], parse_segments(octets(buf)));
                    }
                    if has_entropy {
                        return Ok(Jpeg { segments });
                    }
                }
            }
        }
    }

    /// Get the segments of this `Jpeg`
    pub fn segments(&self) -> (r: &Vec<JpegSegment>)
        ensures
            views(r@) == self@,
    {
        &self.segments
    }

    /// Get a mutable reference to the segments of this `Jpeg`
    pub fn segments_mut(&mut self) -> (r: &mut Vec<JpegSegment>)
        ensures
            views(r@) == old(self)@,
            final(self)@ == views(final(r)@),
    {
        &mut self.segments
    }

    /// Get the first segment with a marker of `marker`
    pub fn segment_by_marker(&self, marker: u8) -> (r: Option<&JpegSegment>)
        ensures
            match position(self@, has_marker(marker)) {
                Some(i) => r is Some && r.unwrap()@ == self@[i],
                None => r is None,
            },
    {
        let mut i: usize = 0;
        while i < self.segments.len()
            invariant
                i <= self.segments.len(),
                forall|j: int| 0 <= j < i ==> !has_marker(marker)(#[trigger] self@[j]),
            decreases self.segments.len() - i,
        {
            if self.segments[i].marker() == marker {
                proof {
                    lemma_position_is(self@, has_marker(marker), i as int);
                }
                return Some(&self.segments[i]);
            }
            i += 1;
        }
        proof {
            lemma_position_none(self@, has_marker(marker));
        }
        None
    }

    /// Get every segment with a marker of `marker`
    pub fn segments_by_marker(&self, marker: u8) -> (r: Vec<&JpegSegment>)
        ensures
            r@.map_values(|s: &JpegSegment| s@) == self@.filter(has_marker(marker)),
    {
        let mut found: Vec<&JpegSegment> = Vec::new();
        let mut i: usize = 0;
        assert(self@.take(0).filter(has_marker(marker)) =~= Seq::<JpegSegmentView>::empty()) by {
            reveal(Seq::filter);
        }
        while i < self.segments.len()
            invariant
                i <= self.segments.len(),
                found@.map_values(|s: &JpegSegment| s@) =~= self@.take(i as int).filter(
                    has_marker(marker),
                ),
            decreases self.segments.len() - i,
        {
            proof {
                lemma_filter_step(self@, has_marker(marker), i as int);
            }
            if self.segments[i].marker() == marker {
                found.push(&self.segments[i]);
            }
            i += 1;
        }
        assert(self@.take(i as int) == self@);
        found
    }

    /// Remove every segment that `what` names.
    fn remove_segments(&mut self, what: Removal, Ghost(keep): Ghost<spec_fn(JpegSegmentView) -> bool>)
        requires
            forall|s: JpegSegmentView| keep(s) == !removes(what, s),
        ensures
            final(self)@ == old(self)@.filter(keep),
    {
        let mut i: usize = 0;
        let ghost mut seen: int = 0;
        assert(old(self)@.take(0).filter(keep) =~= Seq::<JpegSegmentView>::empty()) by {
            reveal(Seq::filter);
        }
        while i < self.segments.len()
            invariant
                i <= self.segments.len(),
                i <= seen <= old(self)@.len(),
                self@.len() - i == old(self)@.len() - seen,
                forall|s: JpegSegmentView| keep(s) == !removes(what, s),
                self@.take(i as int) =~= old(self)@.take(seen).filter(keep),
                self@.skip(i as int) =~= old(self)@.skip(seen),
            decreases self.segments.len() - i,
        {
            let gone = match what {
                Removal::Marker(marker) => self.segments[i].marker() == marker,
                Removal::Icc => self.segments[i].icc().is_some(),
                Removal::Exif => self.segments[i].exif().is_some(),
            };
            let ghost before = self@;
            proof {
                lemma_filter_step(old(self)@, keep, seen);
                assert(before[i as int] == before.skip(i as int)[0]);
                assert(self.segments@[i as int]@ == before[i as int]);
                assert(gone == removes(what, before[i as int]));
            }
            if gone {
                self.segments.remove(i);
                proof {
                    assert(self@ =~= before.remove(i as int));
                    assert(self@.take(i as int) =~= before.take(i as int));
                    assert(self@.skip(i as int) =~= before.skip(i as int).skip(1));
                    assert(old(self)@.skip(seen).skip(1) =~= old(self)@.skip(seen + 1));
                }
            } else {
                i += 1;
                proof {
                    assert(self@.take(i as int) =~= before.take(i as int - 1).push(
                        before[i as int - 1],
                    ));
                    assert(self@.skip(i as int) =~= before.skip(i as int - 1).skip(1));
                    assert(old(self)@.skip(seen).skip(1) =~= old(self)@.skip(seen + 1));
                }
            }
            proof {
                seen = seen + 1;
            }
        }
        assert(self@.take(i as int) == self@);
        assert(old(self)@.take(seen) == old(self)@);
    }

    /// The number of segments that `what` does not name.
    fn count_kept(&self, what: Removal, Ghost(keep): Ghost<spec_fn(JpegSegmentView) -> bool>) -> (n:
        usize)
        requires
            forall|s: JpegSegmentView| keep(s) == !removes(what, s),
        ensures
            n == self@.filter(keep).len(),
    {
        let mut n: usize = 0;
        let mut i: usize = 0;
        assert(self@.take(0).filter(keep) =~= Seq::<JpegSegmentView>::empty()) by {
            reveal(Seq::filter);
        }
        while i < self.segments.len()
            invariant
                i <= self.segments.len(),
                n <= i,
                forall|s: JpegSegmentView| keep(s) == !removes(what, s),
                n == self@.take(i as int).filter(keep).len(),
            decreases self.segments.len() - i,
        {
            let gone = match what {
                Removal::Marker(marker) => self.segments[i].marker() == marker,
                Removal::Icc => self.segments[i].icc().is_some(),
                Removal::Exif => self.segments[i].exif().is_some(),
            };
            proof {
                lemma_filter_step(self@, keep, i as int);
                assert(self.segments@[i as int]@ == self@[i as int]);
                assert(gone == removes(what, self@[i as int]));
                assert(keep(self@[i as int]) == !gone);
            }
            if !gone {
                n += 1;
            }
            i += 1;
        }
        assert(self@.take(i as int) == self@);
        n
    }

    /// Remove every segment with a marker of `marker`
    pub fn remove_segments_by_marker(&mut self, marker: u8)
        ensures
            final(self)@ == old(self)@.filter(has_other_marker(marker)),
    {
        self.remove_segments(Removal::Marker(marker), Ghost(has_other_marker(marker)));
    }

    /// Get the total size of the `Jpeg` once it is encoded
    ///
    /// The size is the sum of:
    ///
    /// - The SOI marker (2 bytes).
    /// - The size of every segment including the size of the encoded entropy.
    pub fn len(&self) -> (n: usize)
        requires
            jpeg_len(self@) <= usize::MAX,
        ensures
            n == jpeg_len(self@),
    {
        let ghost sizes = segment_sizes(self@);
        let mut n: usize = 2;
        let mut i: usize = 0;
        while i < self.segments.len()
            invariant
                i <= self.segments.len(),
                sizes == segment_sizes(self@),
                2 + total(sizes) <= usize::MAX,
                n == 2 + total(sizes.take(i as int)),
            decreases self.segments.len() - i,
        {
            proof {
                lemma_total_take_step(sizes, i as int);
                lemma_total_take_le(sizes, i as int + 1);
            }
            n = n + self.segments[i].len_with_entropy();
            i += 1;
        }
        assert(sizes.take(i as int) == sizes);
        n
    }

    /// Create an [encoder][crate::ImageEncoder] for this `Jpeg`
    pub fn encoder(self) -> (e: ImageEncoder<Jpeg>)
        requires
            jpeg_encodable(self@),
        ensures
            e.remaining() == jpeg_fragments(self@),
    {
        ImageEncoder::new(self)
    }
}

/// Segments read one after the other follow those read before.
proof fn lemma_followed_by(
    done: Seq<JpegSegmentView>,
    next: Seq<JpegSegmentView>,
    rest: Result<Seq<JpegSegmentView>, Error>,
)
    ensures
        followed_by(done, followed_by(next, rest)) == followed_by(done + next, rest),
{
    match rest {
        Ok(v) => {
            assert(done + (next + v) =~= (done + next) + v);
        },
        Err(_) => {},
    }
}

/// The fragments of an image make up the image as it stands in a file;
/// its size is the length of that, and it has no more fragments than
/// bytes.
pub proof fn lemma_jpeg_fragments(segs: Seq<JpegSegmentView>)
    ensures
        jpeg_fragments(segs).flatten() == jpeg_wire(segs),
        jpeg_wire(segs).len() == jpeg_len(segs),
        jpeg_fragments(segs).len() <= jpeg_len(segs),
{
    let frags = segs.map_values(|s: JpegSegmentView| segment_fragments(s));
    let wires = segs.map_values(|s: JpegSegmentView| segment_wire(s));
    assert(frags.map_values(|x: Seq<Seq<u8>>| x.flatten()) =~= wires) by {
        assert forall|i: int| 0 <= i < segs.len() implies frags[i].flatten() == wires[i] by {
            super::segment::lemma_segment_fragments(segs[i]);
        }
    }
    lemma_flatten_twice(frags);
    vstd::seq_lib::lemma_flatten_concat(seq![soi()], frags.flatten());
    seq![soi()].lemma_flatten_one_element();
    lemma_flatten_len(wires);
    assert(wires.map_values(|x: Seq<u8>| x.len()) =~= segment_sizes(segs)) by {
        assert forall|i: int| 0 <= i < segs.len() implies wires[i].len() == segment_sizes(segs)[i] by {
            super::segment::lemma_segment_fragments(segs[i]);
        }
    }
    assert forall|i: int| 0 <= i < frags.len() implies (#[trigger] frags[i]).len() <= wires[i].len() by {
        super::segment::lemma_segment_fragments(segs[i]);
    }
    lemma_flatten_len_le(frags, wires);
}

impl EncodeAt for Jpeg {
    open spec fn fragments(&self) -> Seq<Seq<u8>> {
        jpeg_fragments(self@)
    }

    open spec fn encodable(&self) -> bool {
        jpeg_encodable(self@)
    }

    proof fn lemma_encodable_bounds(&self) {
        lemma_jpeg_fragments(self@);
    }

    fn encode_at(&self, pos: &mut usize) -> (r: Option<Bytes>) {
        proof {
            assert(self.segments@.map_values(|t: JpegSegment| t.fragments()) =~= self@.map_values(
                |s: JpegSegmentView| segment_fragments(s),
            ));
            assert forall|i: int| 0 <= i < self.segments@.len() implies (
            #[trigger] self.segments@[i]).encodable() by {
                assert(self.segments@[i]@ == self@[i]);
            }
        }
        if *pos == 0 {
            let start: [u8; 2] = [markers::P, markers::SOI];
            let b = Bytes::copy_from_slice(start.as_slice());
            assert(octets(b) =~= soi());
            Some(b)
        } else {
            let mut p: usize = *pos - 1;
            let r = encode_at_each(&self.segments, &mut p);
            if r.is_none() {
                *pos = p;
            }
            r
        }
    }

    fn is_encodable(&self) -> (r: bool) {
        proof {
            let each = self.segments@.map_values(|t: JpegSegment| t.fragments());
            assert(each =~= self@.map_values(|s: JpegSegmentView| segment_fragments(s)));
            lemma_jpeg_fragments(self@);
            vstd::seq_lib::lemma_flatten_concat(seq![soi()], each.flatten());
            seq![soi()].lemma_flatten_one_element();
            assert forall|i: int| 0 <= i < self.segments@.len() implies (
            #[trigger] self.segments@[i]).encodable() == segment_encodable(self@[i]) by {
                assert(self.segments@[i]@ == self@[i]);
            }
        }
        encoded_len_each(&self.segments, 2).is_some()
    }

    fn encoded_len(&self) -> (n: usize) {
        proof {
            lemma_jpeg_fragments(self@);
        }
        self.len()
    }
}

impl ImageICC for Jpeg {
    open spec fn spec_icc_profile(&self) -> Option<Seq<u8>> {
        jpeg_icc(self@)
    }

    open spec fn accepts_icc_profile(&self, profile: Option<Seq<u8>>) -> bool {
        profile is Some ==> {
            &&& self@.filter(carries_no_icc()).len() >= 3
            &&& icc_fits(profile.unwrap().len())
        }
    }

    open spec fn icc_profile_replaced(&self, profile: Option<Seq<u8>>, after: &Self) -> bool {
        after@ == with_icc(self@, profile)
    }

    fn can_set_icc_profile(&self, profile: &Option<Bytes>) -> (r: bool) {
        match profile {
            Some(profile) => profile.len() / ICC_SEGMENT_MAX_SIZE < 255 && self.count_kept(
                Removal::Icc,
                Ghost(carries_no_icc()),
            ) >= 3,
            None => true,
        }
    }

    fn icc_profile(&self) -> (r: Option<Bytes>) {
        let mut found: Vec<(u8, Bytes)> = Vec::new();
        let mut i: usize = 0;
        assert(self@.take(0).filter(carries_icc()) =~= Seq::<JpegSegmentView>::empty()) by {
            reveal(Seq::filter);
        }
        while i < self.segments.len()
            invariant
                i <= self.segments.len(),
                collected(found@) =~= icc_parts(self@.take(i as int)),
            decreases self.segments.len() - i,
        {
            let ghost before = collected(found@);
            proof {
                lemma_filter_step(self@, carries_icc(), i as int);
                assert(self.segments@[i as int]@ == self@[i as int]);
            }
            match self.segments[i].icc() {
                Some((seqno, _, data)) => {
                    found.push((seqno, data));
                    proof {
                        let part = icc_part(self@[i as int]);
                        assert(collected(found@) =~= before.push(part));
                        assert(icc_parts(self@.take(i as int + 1)) =~= icc_parts(
                            self@.take(i as int),
                        ).push(part));
                    }
                },
                None => {},
            }
            i += 1;
        }
        assert(self@.take(i as int) == self@);
        let n = found.len();
        if n == 0 {
            return None;
        }
        if n == 1 {
            return Some(found[0].1.clone());
        }
        let ghost order = joining_order(collected(found@));
        let mut sequence = BytesMut::with_capacity(0);
        let mut seqno: usize = 0;
        while seqno < 256
            invariant
                seqno <= 256,
                n == found@.len(),
                n >= 2,
                order == joining_order(collected(found@)),
                written(sequence) == by_seqno(order, seqno as int),
            decreases 256 - seqno,
        {
            let mut t: usize = 0;
            assert(with_seqno(order.take(0), seqno as int) =~= Seq::<u8>::empty());
            while t < n
                invariant
                    t <= n,
                    seqno < 256,
                    n == found@.len(),
                    n >= 2,
                    order == joining_order(collected(found@)),
                    written(sequence) == by_seqno(order, seqno as int) + with_seqno(
                        order.take(t as int),
                        seqno as int,
                    ),
                decreases n - t,
            {
                let j: usize = if t < n - 2 {
                    t + 2
                } else {
                    t - (n - 2)
                };
                proof {
                    assert(order.take(t as int + 1).drop_last() == order.take(t as int));
                    assert(order.take(t as int + 1).last() == collected(found@)[j as int]);
                }
                if found[j].0 as usize == seqno {
                    sequence.extend_from_slice(as_slice(&found[j].1));
                    assert(written(sequence) =~= by_seqno(order, seqno as int) + with_seqno(
                        order.take(t as int + 1),
                        seqno as int,
                    ));
                } else {
                    assert(written(sequence) =~= by_seqno(order, seqno as int) + with_seqno(
                        order.take(t as int + 1),
                        seqno as int,
                    ));
                }
                t += 1;
            }
            assert(order.take(t as int) == order);
            seqno += 1;
        }
        Some(sequence.freeze())
    }

    fn set_icc_profile(&mut self, profile: Option<Bytes>) {
        self.remove_segments(Removal::Icc, Ghost(carries_no_icc()));
        let ghost kept = self@;
        if let Some(profile) = profile {
            let len = profile.len();
            let segments_n: u8 = (len / ICC_SEGMENT_MAX_SIZE + 1) as u8;
            let mut i: u8 = 0;
            assert(kept =~= kept.take(3) + icc_run(octets(profile), 0) + kept.skip(3));
            while i < segments_n
                invariant
                    i <= segments_n,
                    len == octets(profile).len(),
                    segments_n == icc_segment_count(octets(profile).len()),
                    kept.len() >= 3,
                    self@ == kept.take(3) + icc_run(octets(profile), i as int) + kept.skip(3),
                decreases segments_n - i,
            {
                let start: usize = ICC_SEGMENT_MAX_SIZE * (i as usize);
                let end: usize = if len - start < ICC_SEGMENT_MAX_SIZE {
                    len
                } else {
                    start + ICC_SEGMENT_MAX_SIZE
                };
                let segment = JpegSegment::new_icc(i + 1, segments_n, slice(&profile, start, end));
                let ghost before = self@;
                assert(self.segments@.len() == before.len());
                self.segments.insert(3, segment);
                proof {
                    assert(segment@ == icc_segment(
                        i as int + 1,
                        segments_n as int,
                        icc_chunk(octets(profile), i as int),
                    ));
                    assert(self@ =~= before.insert(3, segment@));
                    assert(before.insert(3, segment@) =~= kept.take(3) + icc_run(
                        octets(profile),
                        i as int + 1,
                    ) + kept.skip(3));
                }
                i += 1;
            }
        }
    }
}

impl ImageEXIF for Jpeg {
    open spec fn spec_exif(&self) -> Option<Seq<u8>> {
        jpeg_exif(self@)
    }

    open spec fn accepts_exif(&self, exif: Option<Seq<u8>>) -> bool {
        exif is Some ==> self@.filter(carries_no_exif()).len() >= 3
    }

    open spec fn exif_replaced(&self, exif: Option<Seq<u8>>, after: &Self) -> bool {
        after@ == with_exif(self@, exif)
    }

    fn can_set_exif(&self, exif: &Option<Bytes>) -> (r: bool) {
        exif.is_none() || self.count_kept(Removal::Exif, Ghost(carries_no_exif())) >= 3
    }

    fn exif(&self) -> (r: Option<Bytes>) {
        let mut i: usize = 0;
        while i < self.segments.len()
            invariant
                i <= self.segments.len(),
                forall|j: int| 0 <= j < i ==> !carries_exif()(#[trigger] self@[j]),
            decreases self.segments.len() - i,
        {
            let found = self.segments[i].exif();
            if found.is_some() {
                proof {
                    lemma_position_is(self@, carries_exif(), i as int);
                }
                return found;
            }
            i += 1;
        }
        proof {
            lemma_position_none(self@, carries_exif());
        }
        None
    }

    fn set_exif(&mut self, exif: Option<Bytes>) {
        self.remove_segments(Removal::Exif, Ghost(carries_no_exif()));
        if let Some(exif) = exif {
            let segment = JpegSegment::new_exif(exif);
            let ghost before = self@;
            assert(self.segments@.len() == before.len());
            self.segments.insert(3, segment);
            assert(self@ =~= before.insert(3, segment@));
        }
    }
}

} // verus!
