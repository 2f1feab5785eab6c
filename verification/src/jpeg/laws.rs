//! What holds of reading and writing JPEG images.

use super::image::{
    by_seqno, carries_exif, carries_icc, carries_no_exif, carries_no_icc, exif_segment, followed_by,
    icc_chunk, icc_fits, icc_part, icc_run, icc_segment, icc_segment_count, joining_order,
    jpeg_encodable, jpeg_exif, jpeg_icc, jpeg_len, jpeg_wire, parse_jpeg, parse_marker,
    parse_segments, segment_sizes, with_exif, with_icc, with_seqno, IccPart, ICC_SEGMENT_MAX_SIZE,
};
use super::markers;
use super::markers::{has_entropy, has_length};
use super::segment::{
    is_icc, parse_segment, segment_encodable, segment_len, segment_wire, JpegSegmentView,
    EXIF_DATA_PREFIX, ICC_DATA_PREFIX,
};
use crate::buf::{be16, lemma_be16, u16_from_be};
use crate::error::Error;
use crate::seqs::{lemma_filter_all, lemma_filter_kept, lemma_position_is, lemma_total_first, total};
use vstd::prelude::*;

verus! {

/// The segments of `segs` as they stand in a file, one after the other.
pub open spec fn segments_wire(segs: Seq<JpegSegmentView>) -> Seq<u8> {
    segs.map_values(|s: JpegSegmentView| segment_wire(s)).flatten()
}

/// Whether a segment is one that reading gives: its marker is neither
/// the first byte of a marker nor the end of the image; its contents fit
/// the length that carries them, or are empty where the marker has none;
/// and it has entropy data if and only if it is a scan header.
pub open spec fn segment_readable(s: JpegSegmentView) -> bool {
    &&& s.marker != markers::P
    &&& s.marker != markers::EOI
    &&& if has_length(s.marker) {
        s.contents.len() + 2 <= 0xFFFF
    } else {
        s.contents.len() == 0
    }
    &&& s.entropy.len() > 0 <==> has_entropy(s.marker)
}

/// Whether segments are such as reading gives: each is readable, and no
/// segment follows a scan header. So at most one segment has entropy
/// data, and that one is the last.
pub open spec fn jpeg_readable(segs: Seq<JpegSegmentView>) -> bool {
    &&& forall|i: int| 0 <= i < segs.len() ==> segment_readable(#[trigger] segs[i])
    &&& forall|i: int| 0 <= i < segs.len() - 1 ==> !has_entropy((#[trigger] segs[i]).marker)
}

/// Whether segments are those of a whole image: such as reading gives,
/// with a scan header as the last.
pub open spec fn jpeg_complete(segs: Seq<JpegSegmentView>) -> bool {
    &&& jpeg_readable(segs)
    &&& segs.len() >= 1
    &&& has_entropy(segs.last().marker)
}

/// Whether the segments `short` are the segments `full` with the entropy
/// data cut short: as many segments with the same markers and contents,
/// the entropy data of each a front part of that in `full`.
pub open spec fn cut_short(short: Seq<JpegSegmentView>, full: Seq<JpegSegmentView>) -> bool {
    &&& short.len() == full.len()
    &&& forall|i: int|
        0 <= i < short.len() ==> {
            &&& (#[trigger] short[i]).marker == full[i].marker
            &&& short[i].contents == full[i].contents
            &&& short[i].entropy.is_prefix_of(full[i].entropy)
        }
}

/// Segments with one more segment before them stand in a file with that
/// segment before them, and are larger by its size.
pub proof fn lemma_segments_first(first: JpegSegmentView, rest: Seq<JpegSegmentView>)
    ensures
        segments_wire(seq![first] + rest) == segment_wire(first) + segments_wire(rest),
        total(segment_sizes(seq![first] + rest)) == segment_len(first) + first.entropy.len()
            + total(segment_sizes(rest)),
{
    let all = seq![first] + rest;
    let wires = all.map_values(|s: JpegSegmentView| segment_wire(s));
    assert(wires.drop_first() =~= rest.map_values(|s: JpegSegmentView| segment_wire(s)));
    assert(segment_sizes(all) =~= seq![segment_len(first) + first.entropy.len()] + segment_sizes(
        rest,
    ));
    lemma_total_first(segment_len(first) + first.entropy.len(), segment_sizes(rest));
}

/// The segments of a whole image, written one after the other, are read
/// as they are.
pub proof fn lemma_segments_written(segs: Seq<JpegSegmentView>)
    requires
        jpeg_complete(segs),
    ensures
        parse_segments(segments_wire(segs)) == Ok::<Seq<JpegSegmentView>, Error>(segs),
    decreases segs.len(),
{
    let first = segs[0];
    let rest = segs.skip(1);
    assert(segs =~= seq![first] + rest);
    lemma_segments_first(first, rest);
    let s = segments_wire(segs);
    let after = segments_wire(rest);
    let body = s.skip(1);
    assert(segment_readable(first));
    if segs.len() > 1 {
        assert forall|i: int| 0 <= i < rest.len() implies segment_readable(#[trigger] rest[i]) by {
            assert(rest[i] == segs[i + 1]);
        }
        assert forall|i: int| 0 <= i < rest.len() - 1 implies !has_entropy(
            (#[trigger] rest[i]).marker,
        ) by {
            assert(rest[i] == segs[i + 1]);
        }
        assert(rest.last() == segs.last());
        lemma_segments_written(rest);
        assert(!has_entropy(first.marker));
        assert(first.entropy =~= Seq::<u8>::empty());
    } else {
        assert(first == segs.last());
        assert(after =~= Seq::<u8>::empty()) by {
            assert(rest.map_values(|s: JpegSegmentView| segment_wire(s)) =~= Seq::<Seq<u8>>::empty());
        }
    }
    if has_length(first.marker) {
        let size = first.contents.len() as int + 2;
        lemma_be16(size, Seq::empty());
        assert(s =~= seq![markers::P, first.marker] + be16(size) + first.contents + first.entropy
            + after);
        assert(s[0] == markers::P);
        assert(body[0] == first.marker);
        let tail = body.skip(1);
        assert(tail.take(2) =~= be16(size));
        assert(u16_from_be(tail) == u16_from_be(be16(size)));
        assert(tail.subrange(2, size) =~= first.contents);
        assert(tail.skip(size) =~= first.entropy + after);
        assert(body.skip(1 + size) =~= first.entropy + after);
        let (read, n) = parse_segment(first.marker, tail).unwrap();
        assert(n == size);
        if segs.len() == 1 {
            assert(first.entropy + after =~= first.entropy);
            assert(read == first);
            assert(parse_marker(body) == Ok::<Seq<JpegSegmentView>, Error>(seq![first]));
            assert(segs =~= seq![first]);
        } else {
            assert(first.entropy + after =~= after);
            assert(read == first);
            assert(parse_marker(body) == followed_by(seq![first], parse_segments(after)));
        }
    } else {
        assert(first.contents =~= Seq::<u8>::empty());
        assert(s =~= seq![markers::P, first.marker] + after);
        assert(s[0] == markers::P);
        assert(body[0] == first.marker);
        assert(body.skip(1) =~= after);
        assert(first == (JpegSegmentView {
            marker: first.marker,
            contents: Seq::empty(),
            entropy: Seq::empty(),
        }));
        assert(parse_marker(body) == followed_by(seq![first], parse_segments(after)));
    }
}

/// Writing an image and reading what was written gives the image: the
/// segments of a whole image, written behind the start-of-image marker,
/// are read as they are, and their total size is the length of what was
/// written. So every file that is a whole image as this library writes
/// it is read and written back byte for byte.
pub proof fn lemma_jpeg_round_trip(segs: Seq<JpegSegmentView>)
    requires
        jpeg_complete(segs),
    ensures
        parse_jpeg(jpeg_wire(segs)) == Ok::<Seq<JpegSegmentView>, Error>(segs),
        jpeg_len(segs) == jpeg_wire(segs).len(),
{
    let s = jpeg_wire(segs);
    lemma_segments_written(segs);
    assert(s.skip(2) =~= segments_wire(segs));
    super::image::lemma_jpeg_fragments(segs);
}

/// What was read behind the first byte of a marker is such as reading
/// gives, and no larger than what it was read from with that byte.
pub proof fn lemma_marker_read(s: Seq<u8>)
    requires
        parse_marker(s) is Ok,
    ensures
        jpeg_readable(parse_marker(s).unwrap()),
        total(segment_sizes(parse_marker(s).unwrap())) <= s.len() + 1,
    decreases s.len(), 0nat,
{
    if s[0] == markers::P {
        lemma_marker_read(s.skip(1));
    } else if s[0] == markers::EOI {
    } else if !has_length(s[0]) {
        let first = JpegSegmentView { marker: s[0], contents: Seq::empty(), entropy: Seq::empty() };
        lemma_segments_read(s.skip(1));
        let rest = parse_segments(s.skip(1)).unwrap();
        lemma_segments_first(first, rest);
        lemma_readable_first(first, rest);
    } else {
        let (first, size) = parse_segment(s[0], s.skip(1)).unwrap();
        lemma_be16(0, s.skip(1));
        if first.entropy.len() > 0 {
            lemma_segments_first(first, Seq::empty());
            assert(seq![first] + Seq::<JpegSegmentView>::empty() =~= seq![first]);
            assert(total(segment_sizes(Seq::<JpegSegmentView>::empty())) == 0);
        } else {
            lemma_segments_read(s.skip(1 + size));
            let rest = parse_segments(s.skip(1 + size)).unwrap();
            lemma_segments_first(first, rest);
            if has_entropy(first.marker) {
                assert(s.skip(1).skip(size) =~= s.skip(1 + size));
            }
            lemma_readable_first(first, rest);
        }
    }
}

/// What was read between segments is such as reading gives, and no larger
/// than what it was read from.
pub proof fn lemma_segments_read(s: Seq<u8>)
    requires
        parse_segments(s) is Ok,
    ensures
        jpeg_readable(parse_segments(s).unwrap()),
        total(segment_sizes(parse_segments(s).unwrap())) <= s.len(),
    decreases s.len(), 1nat,
{
    if s[0] != markers::P {
        lemma_segments_read(s.skip(1));
    } else {
        lemma_marker_read(s.skip(1));
    }
}

/// A readable segment that is no scan header, before segments such as
/// reading gives, makes segments such as reading gives.
proof fn lemma_readable_first(first: JpegSegmentView, rest: Seq<JpegSegmentView>)
    requires
        segment_readable(first),
        !has_entropy(first.marker),
        jpeg_readable(rest),
    ensures
        jpeg_readable(seq![first] + rest),
{
    let all = seq![first] + rest;
    assert forall|i: int| 0 <= i < all.len() implies segment_readable(#[trigger] all[i]) by {
        if i > 0 {
            assert(all[i] == rest[i - 1]);
        }
    }
    assert forall|i: int| 0 <= i < all.len() - 1 implies !has_entropy((#[trigger] all[i]).marker) by {
        if i > 0 {
            assert(all[i] == rest[i - 1]);
        }
    }
}

/// The segments that were read from a file are such as reading gives: at
/// most one has entropy data, and that one is the last. They are no
/// larger than the file, and can be written where the file fits in
/// memory.
pub proof fn lemma_jpeg_read(s: Seq<u8>)
    requires
        parse_jpeg(s) is Ok,
    ensures
        jpeg_readable(parse_jpeg(s).unwrap()),
        jpeg_len(parse_jpeg(s).unwrap()) <= s.len(),
        s.len() <= usize::MAX ==> jpeg_encodable(parse_jpeg(s).unwrap()),
{
    lemma_segments_read(s.skip(2));
    let segs = parse_jpeg(s).unwrap();
    assert forall|i: int| 0 <= i < segs.len() implies segment_len(#[trigger] segs[i])
        + segs[i].entropy.len() <= total(segment_sizes(segs)) by {
        let sizes = segment_sizes(segs);
        crate::seqs::lemma_total_take_step(sizes, i);
        crate::seqs::lemma_total_take_le(sizes, i + 1);
    }
    if s.len() <= usize::MAX {
        assert forall|i: int| 0 <= i < segs.len() implies segment_encodable(#[trigger] segs[i]) by {
            assert(segment_readable(segs[i]));
        }
    }
}

/// Segments whose first is the same, and whose others are cut short, are
/// cut short.
proof fn lemma_cut_short_first(
    first: JpegSegmentView,
    short: Seq<JpegSegmentView>,
    full: Seq<JpegSegmentView>,
)
    requires
        cut_short(short, full),
    ensures
        cut_short(seq![first] + short, seq![first] + full),
{
    let a = seq![first] + short;
    let b = seq![first] + full;
    assert forall|i: int| 0 <= i < a.len() implies {
        &&& (#[trigger] a[i]).marker == b[i].marker
        &&& a[i].contents == b[i].contents
        &&& a[i].entropy.is_prefix_of(b[i].entropy)
    } by {
        if i > 0 {
            assert(a[i] == short[i - 1]);
            assert(b[i] == full[i - 1]);
        }
    }
}

/// Of bytes behind the first byte of a marker that are read without
/// error, every front part is either read as the same segments with the
/// entropy data cut short, or found truncated.
pub proof fn lemma_marker_truncated(s: Seq<u8>, k: int)
    requires
        parse_marker(s) is Ok,
        0 <= k <= s.len(),
    ensures
        match parse_marker(s.take(k)) {
            Ok(short) => cut_short(short, parse_marker(s).unwrap()),
            Err(e) => e == Error::Truncated,
        },
    decreases s.len(), 0nat,
{
    let t = s.take(k);
    if k == 0 {
    } else if s[0] == markers::P {
        assert(t.skip(1) =~= s.skip(1).take(k - 1));
        lemma_marker_truncated(s.skip(1), k - 1);
    } else if s[0] == markers::EOI {
    } else if !has_length(s[0]) {
        let first = JpegSegmentView { marker: s[0], contents: Seq::empty(), entropy: Seq::empty() };
        assert(t.skip(1) =~= s.skip(1).take(k - 1));
        lemma_segments_truncated(s.skip(1), k - 1);
        match parse_segments(t.skip(1)) {
            Ok(short) => {
                lemma_cut_short_first(first, short, parse_segments(s.skip(1)).unwrap());
            },
            Err(_) => {},
        }
    } else {
        let body = s.skip(1);
        let cut = t.skip(1);
        assert(cut =~= body.take(k - 1));
        let (first, size) = parse_segment(s[0], body).unwrap();
        if cut.len() >= 2 {
            assert(u16_from_be(cut) == size);
        }
        if cut.len() >= 2 && cut.len() >= size {
            let (mine, _) = parse_segment(s[0], cut).unwrap();
            assert(cut.subrange(2, size) =~= body.subrange(2, size));
            assert(cut.skip(size) =~= body.skip(size).take(k - 1 - size));
            assert(t.skip(1 + size) =~= s.skip(1 + size).take(k - 1 - size));
            if first.entropy.len() > 0 {
                assert(mine.entropy =~= first.entropy.subrange(0, mine.entropy.len() as int));
                if mine.entropy.len() > 0 {
                    assert(cut_short(seq![mine], seq![first]));
                } else {
                    assert(t.skip(1 + size).len() == 0);
                }
            } else {
                lemma_segments_truncated(s.skip(1 + size), k - 1 - size);
                if has_entropy(s[0]) {
                    assert(body.skip(size) =~= s.skip(1 + size));
                }
                match parse_segments(t.skip(1 + size)) {
                    Ok(short) => {
                        lemma_cut_short_first(
                            first,
                            short,
                            parse_segments(s.skip(1 + size)).unwrap(),
                        );
                    },
                    Err(_) => {},
                }
            }
        }
    }
}

/// Of bytes between segments that are read without error, every front
/// part is either read as the same segments with the entropy data cut
/// short, or found truncated.
pub proof fn lemma_segments_truncated(s: Seq<u8>, k: int)
    requires
        parse_segments(s) is Ok,
        0 <= k <= s.len(),
    ensures
        match parse_segments(s.take(k)) {
            Ok(short) => cut_short(short, parse_segments(s).unwrap()),
            Err(e) => e == Error::Truncated,
        },
    decreases s.len(), 1nat,
{
    let t = s.take(k);
    if k > 0 {
        assert(t.skip(1) =~= s.skip(1).take(k - 1));
        if s[0] != markers::P {
            lemma_segments_truncated(s.skip(1), k - 1);
        } else {
            lemma_marker_truncated(s.skip(1), k - 1);
        }
    }
}

/// A file that is cut short is read without a failure other than
/// truncation: of a file `s` that is read without error, every front part
/// is either read as the segments of `s` with the entropy data cut short,
/// or found truncated.
pub proof fn lemma_jpeg_truncated(s: Seq<u8>, k: int)
    requires
        parse_jpeg(s) is Ok,
        0 <= k <= s.len(),
    ensures
        match parse_jpeg(s.take(k)) {
            Ok(short) => cut_short(short, parse_jpeg(s).unwrap()),
            Err(e) => e == Error::Truncated,
        },
{
    if k >= 2 {
        assert(s.take(k).skip(2) =~= s.skip(2).take(k - 2));
        lemma_segments_truncated(s.skip(2), k - 2);
    }
}

/// The segment of a part of a profile carries a part of a profile: that
/// part, under its sequence number.
pub proof fn lemma_icc_segment(seqno: int, num: int, data: Seq<u8>)
    ensures
        is_icc(icc_segment(seqno, num, data)),
        icc_part(icc_segment(seqno, num, data)) == (IccPart { seqno: seqno as u8, data }),
{
    let s = icc_segment(seqno, num, data);
    assert(s.contents.subrange(0, 12) =~= ICC_DATA_PREFIX@);
    assert(s.contents.skip(14) =~= data);
}

/// The data of the parts of one sequence number is that of the one part
/// which has it, and nothing where no part has it.
pub proof fn lemma_with_seqno(parts: Seq<IccPart>, seqno: int, j: int)
    requires
        forall|i: int| 0 <= i < parts.len() && i != j ==> (#[trigger] parts[i]).seqno != seqno,
    ensures
        with_seqno(parts, seqno) == if 0 <= j < parts.len() && parts[j].seqno == seqno {
            parts[j].data
        } else {
            Seq::empty()
        },
    decreases parts.len(),
{
    if parts.len() > 0 {
        let front = parts.drop_last();
        assert forall|i: int| 0 <= i < front.len() && i != j implies (#[trigger] front[i]).seqno
            != seqno by {
            assert(front[i] == parts[i]);
        }
        lemma_with_seqno(front, seqno, j);
        let last = parts.len() - 1;
        if j == last {
            assert(!(0 <= j < front.len()));
            assert(with_seqno(front, seqno) =~= Seq::<u8>::empty());
            assert(with_seqno(parts, seqno) =~= if parts[j].seqno == seqno {
                parts[j].data
            } else {
                Seq::empty()
            });
        } else {
            assert(parts[last].seqno != seqno);
            if 0 <= j < front.len() {
                assert(front[j] == parts[j]);
            }
            assert(with_seqno(parts, seqno) =~= with_seqno(front, seqno));
        }
    }
}

/// The parts of a profile that has been split into `n` parts, in the
/// order in which they are joined, give back the profile: joined up to
/// the sequence number `limit`, they are the profile up to the end of the
/// part before that number.
proof fn lemma_by_seqno(profile: Seq<u8>, order: Seq<IccPart>, n: int, limit: int)
    requires
        2 <= n <= 255,
        n == profile.len() as int / ICC_SEGMENT_MAX_SIZE as int + 1,
        order.len() == n,
        1 <= limit <= 256,
        forall|t: int|
            0 <= t < n ==> (#[trigger] order[t]).seqno == (if t < n - 2 {
                n - t - 2
            } else if t == n - 2 {
                n
            } else {
                n - 1
            }),
        forall|t: int|
            0 <= t < n ==> (#[trigger] order[t]).data == icc_chunk(profile, order[t].seqno - 1),
    ensures
        by_seqno(order, limit) == profile.subrange(
            0,
            if limit - 1 >= n {
                profile.len() as int
            } else {
                ICC_SEGMENT_MAX_SIZE * (limit - 1)
            },
        ),
    decreases limit,
{
    let len = profile.len() as int;
    assert(ICC_SEGMENT_MAX_SIZE * (n - 1) <= len < ICC_SEGMENT_MAX_SIZE * n);
    if limit == 1 {
        lemma_with_seqno(order, 0, -1);
        assert(by_seqno(order, 0) =~= Seq::<u8>::empty());
        assert(by_seqno(order, 1) =~= profile.subrange(0, 0));
    } else {
        lemma_by_seqno(profile, order, n, limit - 1);
        let k = limit - 1;
        if k <= n {
            let j = if k == n {
                n - 2
            } else if k == n - 1 {
                n - 1
            } else {
                n - k - 2
            };
            assert(order[j].seqno == k);
            lemma_with_seqno(order, k, j);
            let start = ICC_SEGMENT_MAX_SIZE * (k - 1);
            assert(by_seqno(order, limit) =~= profile.subrange(0, start) + icc_chunk(
                profile,
                k - 1,
            ));
        } else {
            lemma_with_seqno(order, k, -1);
            assert(by_seqno(order, limit) =~= by_seqno(order, limit - 1));
        }
    }
}

/// Every segment of a profile that has been split carries a part of a
/// profile.
proof fn lemma_icc_run(profile: Seq<u8>, n: int)
    requires
        0 <= n,
    ensures
        icc_run(profile, n).len() == n,
        forall|i: int| 0 <= i < n ==> carries_icc()(#[trigger] icc_run(profile, n)[i]),
        forall|i: int| 0 <= i < n ==> !carries_no_icc()(#[trigger] icc_run(profile, n)[i]),
{
    let count = icc_segment_count(profile.len());
    assert forall|i: int| 0 <= i < n implies is_icc(#[trigger] icc_run(profile, n)[i]) by {
        lemma_icc_segment(n - i, count, icc_chunk(profile, n - i - 1));
    }
}

/// The condition that a segment carries no part of a profile, as the
/// negation of the condition that it carries one.
spec fn not_carries_icc() -> spec_fn(JpegSegmentView) -> bool {
    |s: JpegSegmentView| !carries_icc()(s)
}

/// The condition that a segment carries a part of a profile, as the
/// negation of the condition that it carries none.
spec fn not_carries_no_icc() -> spec_fn(JpegSegmentView) -> bool {
    |s: JpegSegmentView| !carries_no_icc()(s)
}

/// The segments of a new profile among the segments that were kept: only
/// they carry parts of a profile.
proof fn lemma_with_icc_run(kept: Seq<JpegSegmentView>, run: Seq<JpegSegmentView>)
    requires
        kept.len() >= 3,
        forall|i: int| 0 <= i < kept.len() ==> not_carries_icc()(#[trigger] kept[i]),
        forall|i: int| 0 <= i < run.len() ==> carries_icc()(#[trigger] run[i]),
    ensures
        (kept.take(3) + run + kept.skip(3)).filter(carries_icc()) == run,
{
    crate::seqs::lemma_all_split(kept, 3, not_carries_icc());
    let head = kept.take(3);
    let tail = kept.skip(3);
    assert forall|i: int| 0 <= i < head.len() implies !carries_icc()(#[trigger] head[i]) by {
        assert(not_carries_icc()(head[i]));
    }
    assert forall|i: int| 0 <= i < tail.len() implies !carries_icc()(#[trigger] tail[i]) by {
        assert(not_carries_icc()(tail[i]));
    }
    crate::seqs::lemma_filter_middle(head, run, tail, carries_icc());
}

/// The segments of a new profile among the segments that were kept:
/// without them, the segments that were kept are left.
proof fn lemma_with_icc_kept(kept: Seq<JpegSegmentView>, run: Seq<JpegSegmentView>)
    requires
        kept.len() >= 3,
        forall|i: int| 0 <= i < kept.len() ==> carries_no_icc()(#[trigger] kept[i]),
        forall|i: int| 0 <= i < run.len() ==> not_carries_no_icc()(#[trigger] run[i]),
    ensures
        (kept.take(3) + run + kept.skip(3)).filter(carries_no_icc()) == kept,
{
    crate::seqs::lemma_all_split(kept, 3, carries_no_icc());
    assert forall|i: int| 0 <= i < run.len() implies !carries_no_icc()(#[trigger] run[i]) by {
        assert(not_carries_no_icc()(run[i]));
    }
    crate::seqs::lemma_filter_around(kept.take(3), run, kept.skip(3), carries_no_icc());
}

/// The segments of an image after its ICC profile has been set: those it
/// had without a part of a profile, and the segments of the new profile.
proof fn lemma_with_icc_parts(segs: Seq<JpegSegmentView>, profile: Seq<u8>)
    requires
        segs.filter(carries_no_icc()).len() >= 3,
    ensures
        with_icc(segs, Some(profile)).filter(carries_icc()) == icc_run(
            profile,
            icc_segment_count(profile.len()),
        ),
        with_icc(segs, Some(profile)).filter(carries_no_icc()) == segs.filter(carries_no_icc()),
{
    let kept = segs.filter(carries_no_icc());
    let n = icc_segment_count(profile.len());
    let run = icc_run(profile, n);
    assert(with_icc(segs, Some(profile)) == kept.take(3) + run + kept.skip(3));
    assert(forall|i: int| 0 <= i < kept.len() ==> not_carries_icc()(#[trigger] kept[i])) by {
        lemma_filter_kept(segs, carries_no_icc());
        assert forall|i: int| 0 <= i < kept.len() implies not_carries_icc()(#[trigger] kept[i]) by {
            lemma_icc_conditions(kept[i]);
        }
    }
    assert(forall|i: int| 0 <= i < kept.len() ==> carries_no_icc()(#[trigger] kept[i])) by {
        lemma_filter_kept(segs, carries_no_icc());
    }
    assert(forall|i: int| 0 <= i < run.len() ==> not_carries_no_icc()(#[trigger] run[i])) by {
        lemma_icc_run(profile, n);
        assert forall|i: int| 0 <= i < run.len() implies not_carries_no_icc()(
            #[trigger] run[i],
        ) by {
            lemma_icc_conditions(run[i]);
        }
    }
    assert(forall|i: int| 0 <= i < run.len() ==> carries_icc()(#[trigger] run[i])) by {
        lemma_icc_run(profile, n);
    }
    lemma_with_icc_run(kept, run);
    lemma_with_icc_kept(kept, run);
}

/// A segment meets one of the two conditions on parts of a profile, and
/// not the other.
proof fn lemma_icc_conditions(s: JpegSegmentView)
    ensures
        carries_no_icc()(s) == !carries_icc()(s),
        not_carries_icc()(s) == !carries_icc()(s),
        not_carries_no_icc()(s) == carries_icc()(s),
{
}

/// A profile that is split into no more parts than can be counted is
/// split into between 1 and 255 parts, of which all but the last are
/// full.
proof fn lemma_icc_count(len: nat)
    requires
        icc_fits(len),
    ensures
        1 <= icc_segment_count(len) <= 255,
        ICC_SEGMENT_MAX_SIZE * (icc_segment_count(len) - 1) <= len,
        len < ICC_SEGMENT_MAX_SIZE * icc_segment_count(len),
{
}

/// The parts that the segments of the first `n` parts of a profile
/// carry.
pub open spec fn icc_run_parts(profile: Seq<u8>, n: int) -> Seq<IccPart> {
    icc_run(profile, n).map_values(|s: JpegSegmentView| icc_part(s))
}

/// The parts that the segments of a split profile carry: the part `t` has
/// the sequence number `n - t` and the data of that place.
proof fn lemma_icc_run_parts(profile: Seq<u8>, n: int)
    requires
        0 <= n <= 255,
    ensures
        icc_run_parts(profile, n).len() == n,
        forall|t: int|
            0 <= t < n ==> (#[trigger] icc_run_parts(profile, n)[t]) == (IccPart {
                seqno: (n - t) as u8,
                data: icc_chunk(profile, n - t - 1),
            }),
{
    let count = icc_segment_count(profile.len());
    let parts = icc_run_parts(profile, n);
    assert forall|t: int| 0 <= t < n implies (#[trigger] parts[t]) == (IccPart {
        seqno: (n - t) as u8,
        data: icc_chunk(profile, n - t - 1),
    }) by {
        lemma_icc_segment(n - t, count, icc_chunk(profile, n - t - 1));
    }
}

/// The parts of a split profile in the order in which they are joined.
proof fn lemma_joining_order(profile: Seq<u8>, parts: Seq<IccPart>, n: int)
    requires
        2 <= n <= 255,
        parts.len() == n,
        forall|t: int|
            0 <= t < n ==> (#[trigger] parts[t]) == (IccPart {
                seqno: (n - t) as u8,
                data: icc_chunk(profile, n - t - 1),
            }),
    ensures
        joining_order(parts).len() == n,
        forall|t: int|
            0 <= t < n ==> (#[trigger] joining_order(parts)[t]).seqno == (if t < n - 2 {
                n - t - 2
            } else if t == n - 2 {
                n
            } else {
                n - 1
            }),
        forall|t: int|
            0 <= t < n ==> (#[trigger] joining_order(parts)[t]).data == icc_chunk(
                profile,
                joining_order(parts)[t].seqno - 1,
            ),
{
    let order = joining_order(parts);
    assert forall|t: int| 0 <= t < n implies (#[trigger] order[t]).seqno == (if t < n - 2 {
        n - t - 2
    } else if t == n - 2 {
        n
    } else {
        n - 1
    }) && order[t].data == icc_chunk(profile, order[t].seqno - 1) by {
        if t < n - 2 {
            assert(order[t] == parts[t + 2]);
        } else if t == n - 2 {
            assert(order[t] == parts[0]);
        } else {
            assert(order[t] == parts[1]);
        }
    }
}

/// The parts of a split profile, joined, are the profile.
proof fn lemma_parts_joined(profile: Seq<u8>)
    requires
        icc_fits(profile.len()),
    ensures
        icc_run_parts(profile, icc_segment_count(profile.len())).len() >= 1,
        profile == if icc_run_parts(profile, icc_segment_count(profile.len())).len() == 1 {
            icc_run_parts(profile, icc_segment_count(profile.len()))[0].data
        } else {
            by_seqno(
                joining_order(icc_run_parts(profile, icc_segment_count(profile.len()))),
                256,
            )
        },
{
    let n = icc_segment_count(profile.len());
    let len = profile.len() as int;
    lemma_icc_count(profile.len());
    lemma_icc_run_parts(profile, n);
    let parts = icc_run_parts(profile, n);
    if n == 1 {
        assert(parts[0].data == icc_chunk(profile, 0));
        assert(icc_chunk(profile, 0) =~= profile);
    } else {
        lemma_joining_order(profile, parts, n);
        lemma_by_seqno(profile, joining_order(parts), n, 256);
        assert(profile.subrange(0, len) =~= profile);
    }
}

/// A profile that has been set is the profile that is got: where a
/// profile is split into no more parts than can be counted, the image
/// that it was given to has it as its profile, whatever the image held
/// before.
pub proof fn lemma_jpeg_icc_set_get(segs: Seq<JpegSegmentView>, profile: Seq<u8>)
    requires
        segs.filter(carries_no_icc()).len() >= 3,
        icc_fits(profile.len()),
    ensures
        jpeg_icc(with_icc(segs, Some(profile))) == Some(profile),
{
    lemma_with_icc_parts(segs, profile);
    lemma_parts_joined(profile);
}

/// Setting a profile twice is setting it once: an image that has been
/// given a profile is left as it is when it is given the same profile
/// again.
pub proof fn lemma_jpeg_icc_set_twice(segs: Seq<JpegSegmentView>, profile: Option<Seq<u8>>)
    requires
        profile is Some ==> segs.filter(carries_no_icc()).len() >= 3,
    ensures
        with_icc(with_icc(segs, profile), profile) == with_icc(segs, profile),
{
    let kept = segs.filter(carries_no_icc());
    match profile {
        Some(p) => {
            lemma_with_icc_parts(segs, p);
        },
        None => {
            lemma_filter_kept(segs, carries_no_icc());
            lemma_filter_all(kept, carries_no_icc());
        },
    }
}

/// An image keeps its bytes when it is given its own profile: an image
/// that this library has given a profile, of no more parts than can be
/// counted, is left as it is when the profile that is got from it is set
/// again.
pub proof fn lemma_jpeg_icc_own_profile(segs: Seq<JpegSegmentView>, profile: Seq<u8>)
    requires
        segs.filter(carries_no_icc()).len() >= 3,
        icc_fits(profile.len()),
    ensures
        with_icc(with_icc(segs, Some(profile)), jpeg_icc(with_icc(segs, Some(profile))))
            == with_icc(segs, Some(profile)),
{
    lemma_jpeg_icc_set_get(segs, profile);
    lemma_jpeg_icc_set_twice(segs, Some(profile));
}

/// EXIF metadata that has been set is the metadata that is got, whatever
/// the image held before.
pub proof fn lemma_jpeg_exif_set_get(segs: Seq<JpegSegmentView>, exif: Seq<u8>)
    requires
        segs.filter(carries_no_exif()).len() >= 3,
    ensures
        jpeg_exif(with_exif(segs, Some(exif))) == Some(exif),
{
    let kept = segs.filter(carries_no_exif());
    let after = with_exif(segs, Some(exif));
    let new = exif_segment(exif);
    lemma_filter_kept(segs, carries_no_exif());
    assert(new.contents.subrange(0, 6) =~= EXIF_DATA_PREFIX@);
    assert(new.contents.skip(6) =~= exif);
    assert(after[3] == new);
    assert forall|j: int| 0 <= j < 3 implies !carries_exif()(#[trigger] after[j]) by {
        assert(after[j] == kept[j]);
    }
    lemma_position_is(after, carries_exif(), 3);
}

} // verus!
