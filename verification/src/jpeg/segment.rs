//! One segment of a JPEG image: a marker, its contents, and for the scan
//! header the entropy-coded data that follows.

use super::markers;
use super::markers::{has_entropy, has_length};
use crate::buf::{as_slice, be16, octets, put_u16, put_u8, slice, u16_from_be, written};
use crate::encoder::{EncodeAt, ImageEncoder};
use crate::error::Error;
use crate::seqs::starts_with;
use crate::util::{read_u16, split_to_checked};
use bytes::{Bytes, BytesMut};
use vstd::prelude::*;

verus! {

/// The bytes that open the contents of a segment that carries a part of
/// an ICC profile: `ICC_PROFILE` and a zero byte.
pub const ICC_DATA_PREFIX: [u8; 12] = [0x49, 0x43, 0x43, 0x5F, 0x50, 0x52, 0x4F, 0x46, 0x49, 0x4C, 0x45, 0x00];

/// The bytes that open the contents of a segment that carries EXIF
/// metadata: `Exif` and two zero bytes.
pub const EXIF_DATA_PREFIX: [u8; 6] = [0x45, 0x78, 0x69, 0x66, 0x00, 0x00];

/// The representation of a segment making up a [`Jpeg`][super::Jpeg]
#[derive(Debug, Clone, PartialEq, Eq)]
pub struct JpegSegment {
    marker: u8,
    contents: Bytes,
    entropy: Bytes,
}

/// What a segment holds.
pub struct JpegSegmentView {
    /// The second byte of the marker.
    pub marker: u8,
    /// The contents, without the length that precedes them in a file.
    pub contents: Seq<u8>,
    /// The bytes that follow the contents of a scan header, to the end of
    /// the file; empty for every other segment.
    pub entropy: Seq<u8>,
}

/// The marker and, where the marker has one, the length that open a
/// segment in a file. The length counts its own two bytes.
pub open spec fn segment_header(s: JpegSegmentView) -> Seq<u8> {
    if has_length(s.marker) {
        seq![markers::P, s.marker] + be16(s.contents.len() as int + 2)
    } else {
        seq![markers::P, s.marker]
    }
}

/// A segment as it stands in a file.
pub open spec fn segment_wire(s: JpegSegmentView) -> Seq<u8> {
    segment_header(s) + s.contents + s.entropy
}

/// The fragments of a segment: its header, its contents and its entropy
/// data, the last two only where they are not empty.
pub open spec fn segment_fragments(s: JpegSegmentView) -> Seq<Seq<u8>> {
    seq![segment_header(s)] + (if s.contents.len() > 0 {
        seq![s.contents]
    } else {
        seq![]
    }) + (if s.entropy.len() > 0 {
        seq![s.entropy]
    } else {
        seq![]
    })
}

/// The size of an encoded segment, entropy excluded.
pub open spec fn segment_len(s: JpegSegmentView) -> nat {
    if has_length(s.marker) {
        4 + s.contents.len()
    } else {
        2 + s.contents.len()
    }
}

/// Whether a segment can be written: its length fits the two bytes that
/// carry it, and its size can be counted.
pub open spec fn segment_encodable(s: JpegSegmentView) -> bool {
    &&& has_length(s.marker) ==> s.contents.len() + 2 <= 0xFFFF
    &&& segment_len(s) + s.entropy.len() <= usize::MAX
}

/// Whether a segment carries a part of an ICC profile.
pub open spec fn is_icc(s: JpegSegmentView) -> bool {
    &&& s.marker == markers::APP2
    &&& ICC_DATA_PREFIX@.is_prefix_of(s.contents)
    &&& s.contents.len() >= 14
}

/// Whether a segment carries EXIF metadata.
pub open spec fn is_exif(s: JpegSegmentView) -> bool {
    &&& s.marker == markers::APP1
    &&& EXIF_DATA_PREFIX@.is_prefix_of(s.contents)
}

/// What reading a segment's length and contents from `s` gives: the
/// segment and the number of bytes read; for a scan header that other
/// bytes follow, the segment takes all of them as its entropy data.
pub open spec fn parse_segment(marker: u8, s: Seq<u8>) -> Result<(JpegSegmentView, int), Error> {
    if s.len() < 2 {
        Err(Error::Truncated)
    } else if u16_from_be(s) < 2 {
        Err(Error::Truncated)
    } else if s.len() < u16_from_be(s) {
        Err(Error::Truncated)
    } else {
        let size = u16_from_be(s);
        let contents = s.subrange(2, size);
        if has_entropy(marker) {
            Ok((JpegSegmentView { marker, contents, entropy: s.skip(size) }, size))
        } else {
            Ok((JpegSegmentView { marker, contents, entropy: Seq::empty() }, size))
        }
    }
}

/// What reading a segment's length and contents from `s` leaves of `s`,
/// whether or not it fails: all of `s` where the length cannot be read,
/// what follows the length where the length or `s` is too short for the
/// contents, else what follows the contents.
pub open spec fn segment_rest(s: Seq<u8>) -> Seq<u8> {
    if s.len() < 2 {
        s
    } else if u16_from_be(s) < 2 || s.len() < u16_from_be(s) {
        s.skip(2)
    } else {
        s.skip(u16_from_be(s))
    }
}

/// Where the entropy-coded data at the front of `s` ends, looking on from
/// the index `i`: at the next marker, which is a byte `P` that a byte
/// other than `Z` follows, or at the end of `s`. A byte `P` that `Z`
/// follows is a stuffed byte of the data.
pub open spec fn coded_end(s: Seq<u8>, i: int) -> int
    decreases s.len() - i,
{
    if i < 0 || i >= s.len() {
        s.len() as int
    } else if s[i] == markers::P && i + 1 < s.len() && s[i + 1] != markers::Z {
        i
    } else {
        coded_end(s, i + 1)
    }
}

impl View for JpegSegment {
    type V = JpegSegmentView;

    closed spec fn view(&self) -> JpegSegmentView {
        JpegSegmentView {
            marker: self.marker,
            contents: octets(self.contents),
            entropy: octets(self.entropy),
        }
    }
}

impl JpegSegment {
    /// Construct an empty `JpegSegment`
    pub fn new(marker: u8) -> (s: JpegSegment)
        ensures
            s@ == (JpegSegmentView { marker, contents: Seq::empty(), entropy: Seq::empty() }),
    {
        JpegSegment { marker, contents: Bytes::new(), entropy: Bytes::new() }
    }

    /// Construct a `JpegSegment` with `contents`
    pub fn new_with_contents(marker: u8, contents: Bytes) -> (s: JpegSegment)
        ensures
            s@ == (JpegSegmentView { marker, contents: octets(contents), entropy: Seq::empty() }),
    {
        JpegSegment { marker, contents, entropy: Bytes::new() }
    }

    /// Construct a `JpegSegment` with `contents` and `entropy`
    pub fn new_with_entropy(marker: u8, contents: Bytes, entropy: Bytes) -> (s: JpegSegment)
        ensures
            s@ == (JpegSegmentView {
                marker,
                contents: octets(contents),
                entropy: octets(entropy),
            }),
    {
        JpegSegment { marker, contents, entropy }
    }

    /// Creates the segment that carries part `seqno` of `num` of an ICC
    /// profile.
    pub fn new_icc(seqno: u8, num: u8, buf: Bytes) -> (s: JpegSegment)
        ensures
            s@ == (JpegSegmentView {
                marker: markers::APP2,
                contents: ICC_DATA_PREFIX@ + seq![seqno, num] + octets(buf),
                entropy: Seq::empty(),
            }),
    {
        let n = buf.len();
        let mut contents = BytesMut::with_capacity(if n <= usize::MAX - 14 {
            n + 14
        } else {
            n
        });
        contents.extend_from_slice(ICC_DATA_PREFIX.as_slice());
        put_u8(&mut contents, seqno);
        put_u8(&mut contents, num);
        contents.extend_from_slice(as_slice(&buf));
        assert(written(contents) =~= ICC_DATA_PREFIX@ + seq![seqno, num] + octets(buf));
        JpegSegment::new_with_contents(markers::APP2, contents.freeze())
    }

    /// Creates the segment that carries EXIF metadata.
    pub fn new_exif(buf: Bytes) -> (s: JpegSegment)
        ensures
            s@ == (JpegSegmentView {
                marker: markers::APP1,
                contents: EXIF_DATA_PREFIX@ + octets(buf),
                entropy: Seq::empty(),
            }),
    {
        let n = buf.len();
        let mut contents = BytesMut::with_capacity(if n <= usize::MAX - 6 {
            n + 6
        } else {
            n
        });
        contents.extend_from_slice(EXIF_DATA_PREFIX.as_slice());
        contents.extend_from_slice(as_slice(&buf));
        JpegSegment::new_with_contents(markers::APP1, contents.freeze())
    }

    /// Read the length and the contents of the segment of `marker` from
    /// the front of `b`.
    ///
    /// The entropy data of a scan header is all that follows its contents;
    /// it is left in `b` as well.
    ///
    /// # Errors
    ///
    /// Fails with [`Error::Truncated`] if `b` ends before the contents do,
    /// or if the length is less than the two bytes it takes itself.
    pub fn from_bytes(marker: u8, b: &mut Bytes) -> (r: Result<JpegSegment, Error>)
        ensures
            match r {
                Ok(s) => parse_segment(marker, octets(*old(b))) == Ok::<
                    (JpegSegmentView, int),
                    Error,
                >((s@, u16_from_be(octets(*old(b))))),
                Err(e) => parse_segment(marker, octets(*old(b))) == Err::<
                    (JpegSegmentView, int),
                    Error,
                >(e),
            },
            octets(*final(b)) == segment_rest(octets(*old(b))),
    {
        let size = match read_u16(b) {
            Ok(size) => size,
            Err(e) => { return Err(e); },
        };
        if size < 2 {
            return Err(Error::Truncated);
        }
        let contents = match split_to_checked(b, (size - 2) as usize) {
            Ok(contents) => contents,
            Err(e) => { return Err(e); },
        };
        proof {
            let s = octets(*old(b));
            assert(octets(contents) =~= s.subrange(2, size as int));
            assert(octets(*b) =~= s.skip(size as int));
        }
        if !has_entropy(marker) {
            Ok(JpegSegment::new_with_contents(marker, contents))
        } else {
            Ok(JpegSegment::new_with_entropy(marker, contents, b.clone()))
        }
    }

    /// Get the size of this `JpegSegment` once it is encoded, entropy
    /// excluded.
    ///
    /// The size is the sum of:
    ///
    /// - The marker (2 bytes).
    /// - The length (2 bytes) if this marker has a length.
    /// - The size of the content.
    pub fn len(&self) -> (n: usize)
        requires
            segment_len(self@) <= usize::MAX,
        ensures
            n == segment_len(self@),
    {
        if has_length(self.marker) {
            2 + 2 + self.contents.len()
        } else {
            2 + self.contents.len()
        }
    }

    /// Get the size of this `JpegSegment` once it is encoded, including
    /// the entropy data.
    pub fn len_with_entropy(&self) -> (n: usize)
        requires
            segment_len(self@) + self@.entropy.len() <= usize::MAX,
        ensures
            n == segment_len(self@) + self@.entropy.len(),
            n == segment_wire(self@).len(),
    {
        proof {
            lemma_segment_fragments(self@);
        }
        self.len() + self.entropy.len()
    }

    /// Get the second byte of the marker of this `JpegSegment`
    pub fn marker(&self) -> (m: u8)
        ensures
            m == self@.marker,
    {
        self.marker
    }

    /// Get the content of this `JpegSegment`
    pub fn contents(&self) -> (c: &Bytes)
        ensures
            octets(*c) == self@.contents,
    {
        &self.contents
    }

    /// Get the bytes that follow the contents of this `JpegSegment` in the
    /// file: for a scan header the entropy-coded data, the marker that
    /// ends it and all that follows.
    pub fn entropy(&self) -> (e: &Bytes)
        ensures
            octets(*e) == self@.entropy,
    {
        &self.entropy
    }

    /// Get the entropy-coded data of this `JpegSegment`, with its stuffed
    /// bytes: the bytes that follow the contents, up to the next marker.
    pub fn entropy_data(&self) -> (data: Bytes)
        ensures
            octets(data) == self@.entropy.take(coded_end(self@.entropy, 0)),
    {
        let bytes = as_slice(&self.entropy);
        let mut i: usize = 0;
        while i < bytes.len() && !(bytes[i] == markers::P && bytes.len() - i > 1 && bytes[i + 1]
            != markers::Z)
            invariant
                i <= bytes.len(),
                coded_end(bytes@, 0) == coded_end(bytes@, i as int),
            decreases bytes.len() - i,
        {
            i += 1;
        }
        slice(&self.entropy, 0, i)
    }

    /// Check if this `JpegSegment` has entropy
    pub fn has_entropy(&self) -> (r: bool)
        ensures
            r == (self@.entropy.len() > 0),
    {
        self.entropy.len() > 0
    }

    /// Returns the sequence number, the number of parts and the data of
    /// the part if this `JpegSegment` carries a part of an ICC profile.
    pub fn icc(&self) -> (r: Option<(u8, u8, Bytes)>)
        ensures
            r is Some <==> is_icc(self@),
            r is Some ==> r.unwrap().0 == self@.contents[12] && r.unwrap().1 == self@.contents[13]
                && octets(r.unwrap().2) == self@.contents.skip(14),
    {
        if self.marker != markers::APP2 || self.contents.len() < 14 || !starts_with(
            as_slice(&self.contents),
            ICC_DATA_PREFIX.as_slice(),
        ) {
            return None;
        }
        let data = as_slice(&self.contents);
        let seqno = data[12];
        let num = data[13];
        let b = slice(&self.contents, 14, self.contents.len());
        Some((seqno, num, b))
    }

    /// Returns the EXIF metadata if this `JpegSegment` carries some.
    pub fn exif(&self) -> (r: Option<Bytes>)
        ensures
            r is Some <==> is_exif(self@),
            r is Some ==> octets(r.unwrap()) == self@.contents.skip(6),
    {
        if self.marker == markers::APP1 && starts_with(
            as_slice(&self.contents),
            EXIF_DATA_PREFIX.as_slice(),
        ) {
            Some(slice(&self.contents, 6, self.contents.len()))
        } else {
            None
        }
    }

    /// Create an [encoder][crate::ImageEncoder] for this `JpegSegment`
    pub fn encoder(self) -> (e: ImageEncoder<JpegSegment>)
        requires
            segment_encodable(self@),
        ensures
            e.remaining() == segment_fragments(self@),
    {
        ImageEncoder::new(self)
    }
}

impl EncodeAt for JpegSegment {
    open spec fn fragments(&self) -> Seq<Seq<u8>> {
        segment_fragments(self@)
    }

    open spec fn encodable(&self) -> bool {
        segment_encodable(self@)
    }

    proof fn lemma_encodable_bounds(&self) {
        lemma_segment_fragments(self@);
    }

    fn encode_at(&self, pos: &mut usize) -> (r: Option<Bytes>) {
        let has_contents = self.contents.len() > 0;
        let has_tail = self.entropy.len() > 0;
        if *pos == 0 {
            let mut header = BytesMut::with_capacity(4);
            put_u8(&mut header, markers::P);
            put_u8(&mut header, self.marker);
            if has_length(self.marker) {
                put_u16(&mut header, (self.contents.len() + 2) as u16);
            }
            assert(written(header) =~= segment_header(self@));
            Some(header.freeze())
        } else if *pos == 1 && has_contents {
            Some(self.contents.clone())
        } else if *pos == 1 && has_tail {
            Some(self.entropy.clone())
        } else if *pos == 2 && has_contents && has_tail {
            Some(self.entropy.clone())
        } else {
            let count: usize = 1 + (if has_contents { 1usize } else { 0 }) + (if has_tail { 1usize } else { 0 });
            *pos = *pos - count;
            None
        }
    }

    fn is_encodable(&self) -> (r: bool) {
        let with_length = has_length(self.marker);
        if with_length && self.contents.len() > 0xFFFF - 2 {
            return false;
        }
        let framing: usize = if with_length { 4 } else { 2 };
        match framing.checked_add(self.contents.len()) {
            Some(n) => n.checked_add(self.entropy.len()).is_some(),
            None => false,
        }
    }

    fn encoded_len(&self) -> (n: usize) {
        proof {
            lemma_segment_fragments(self@);
        }
        self.len_with_entropy()
    }
}

/// The fragments of a segment make up the segment as it stands in a file,
/// and are no more than its bytes.
pub proof fn lemma_segment_fragments(s: JpegSegmentView)
    ensures
        segment_fragments(s).flatten() == segment_wire(s),
        segment_wire(s).len() == segment_len(s) + s.entropy.len(),
        1 <= segment_fragments(s).len() <= 3,
        segment_fragments(s).len() <= segment_wire(s).len(),
{
    let h = seq![segment_header(s)];
    crate::buf::lemma_be16(s.contents.len() as int + 2, Seq::empty());
    let c: Seq<Seq<u8>> = if s.contents.len() > 0 { seq![s.contents] } else { seq![] };
    let e: Seq<Seq<u8>> = if s.entropy.len() > 0 { seq![s.entropy] } else { seq![] };
    vstd::seq_lib::lemma_flatten_concat(h, c);
    vstd::seq_lib::lemma_flatten_concat(h + c, e);
    h.lemma_flatten_one_element();
    if s.contents.len() > 0 {
        c.lemma_flatten_one_element();
    }
    if s.entropy.len() > 0 {
        e.lemma_flatten_one_element();
    }
    assert(c.flatten() =~= s.contents);
    assert(e.flatten() =~= s.entropy);
}

} // verus!
