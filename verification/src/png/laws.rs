//! What holds of reading and writing PNG images.

use super::chunk::{
    chunk_crc, parse_png_chunk, png_chunk_len, png_chunk_shaped, png_chunk_wire, PngChunkView,
};
use super::chunk::checked_chunk;
use super::image::{
    chunk_sizes, chunks_after, has_other_type, has_type, iccp_contents, iccp_profile, is_zero,
    parse_png, parse_png_chunks, png_encodable, png_exif, png_icc, png_len, png_shaped, png_wire,
    png_with_exif, png_with_icc, zlib_deflated, zlib_inflated, CHUNK_EXIF, CHUNK_ICCP,
    ICC_COMPRESSION_LEVEL, SIGNATURE,
};
use crate::buf::{be32, lemma_be32, u32_from_be};
use crate::error::Error;
use crate::seqs::{
    lemma_all_split, lemma_filter_all, lemma_filter_around, lemma_filter_kept, lemma_position_is,
    position,
};
use vstd::prelude::*;

verus! {

/// The chunks of `chunks` as they stand in a file, one after the other.
pub open spec fn png_chunks_wire(chunks: Seq<PngChunkView>) -> Seq<u8> {
    chunks.map_values(|c: PngChunkView| png_chunk_wire(c)).flatten()
}

/// Whether a chunk is one that reading gives: its type and checksum have
/// four bytes, the length of its contents fits in 32 bits, and its
/// checksum is that of its type and contents.
pub open spec fn png_chunk_sound(c: PngChunkView) -> bool {
    &&& png_chunk_shaped(c)
    &&& c.contents.len() <= u32::MAX
    &&& c.crc == chunk_crc(c.kind, c.contents)
}

/// Whether every chunk is one that reading gives.
pub open spec fn png_sound(chunks: Seq<PngChunkView>) -> bool {
    forall|i: int| 0 <= i < chunks.len() ==> png_chunk_sound(#[trigger] chunks[i])
}

/// A chunk that was read is sound, and stands in the file as it is
/// written.
pub proof fn lemma_png_chunk_read(s: Seq<u8>)
    requires
        parse_png_chunk(s) is Ok,
    ensures
        png_chunk_sound(parse_png_chunk(s).unwrap().0),
        parse_png_chunk(s).unwrap().1 == png_chunk_len(parse_png_chunk(s).unwrap().0),
        12 <= parse_png_chunk(s).unwrap().1 <= s.len(),
        png_chunk_wire(parse_png_chunk(s).unwrap().0) == s.take(parse_png_chunk(s).unwrap().1),
{
    let (c, n) = parse_png_chunk(s).unwrap();
    lemma_be32(0, s);
    assert(s.take(4) + c.kind + c.contents + c.crc =~= s.take(n));
}

/// Chunks with one more chunk before them stand in a file with that chunk
/// before them.
pub proof fn lemma_png_chunks_wire_first(first: PngChunkView, rest: Seq<PngChunkView>)
    ensures
        png_chunks_wire(seq![first] + rest) == png_chunk_wire(first) + png_chunks_wire(rest),
{
    let all = seq![first] + rest;
    let wires = all.map_values(|c: PngChunkView| png_chunk_wire(c));
    assert(wires.drop_first() =~= rest.map_values(|c: PngChunkView| png_chunk_wire(c)));
}

/// A sound chunk before sound chunks makes sound chunks.
proof fn lemma_png_sound_first(first: PngChunkView, rest: Seq<PngChunkView>)
    requires
        png_chunk_sound(first),
        png_sound(rest),
    ensures
        png_sound(seq![first] + rest),
{
    let all = seq![first] + rest;
    assert forall|i: int| 0 <= i < all.len() implies png_chunk_sound(#[trigger] all[i]) by {
        if i > 0 {
            assert(all[i] == rest[i - 1]);
        }
    }
}

/// Of sound chunks, the first is sound and the others are.
proof fn lemma_png_sound_rest(chunks: Seq<PngChunkView>)
    requires
        png_sound(chunks),
        chunks.len() > 0,
    ensures
        png_chunk_sound(chunks[0]),
        png_sound(chunks.skip(1)),
        chunks == seq![chunks[0]] + chunks.skip(1),
{
    let rest = chunks.skip(1);
    assert forall|i: int| 0 <= i < rest.len() implies png_chunk_sound(#[trigger] rest[i]) by {
        assert(rest[i] == chunks[i + 1]);
    }
    assert(chunks =~= seq![chunks[0]] + rest);
}

/// The chunks that were read from `s` are sound, and written one after
/// the other they are `s`.
pub proof fn lemma_png_chunks_read(s: Seq<u8>)
    requires
        parse_png_chunks(s) is Ok,
    ensures
        png_sound(parse_png_chunks(s).unwrap()),
        png_chunks_wire(parse_png_chunks(s).unwrap()) == s,
    decreases s.len(),
{
    if s.len() == 0 {
        assert(png_chunks_wire(Seq::<PngChunkView>::empty()) =~= s);
    } else {
        let c = parse_png_chunk(s).unwrap().0;
        let n = parse_png_chunk(s).unwrap().1;
        lemma_png_chunk_read(s);
        lemma_png_chunks_read(s.skip(n));
        let rest = parse_png_chunks(s.skip(n)).unwrap();
        assert(parse_png_chunks(s).unwrap() == seq![c] + rest);
        lemma_png_chunks_wire_first(c, rest);
        lemma_png_sound_first(c, rest);
        assert(s.take(n) + s.skip(n) =~= s);
    }
}

/// Reading a file and writing what was read gives the file: for every
/// file `s` that is read without error, the chunks read, written behind
/// the signature, are `s` byte for byte, and their total size is the
/// length of `s`. An image that was read from a file that fits in memory
/// can be written.
pub proof fn lemma_png_round_trip(s: Seq<u8>)
    requires
        parse_png(s) is Ok,
    ensures
        png_wire(parse_png(s).unwrap()) == s,
        png_len(parse_png(s).unwrap()) == s.len(),
        png_sound(parse_png(s).unwrap()),
        s.len() <= usize::MAX ==> png_encodable(parse_png(s).unwrap()),
{
    let chunks = parse_png(s).unwrap();
    lemma_png_chunks_read(s.skip(8));
    assert(s.take(8) + s.skip(8) =~= s);
    lemma_png_len(chunks);
}

/// The total size of an image of sound chunks is the length of what is
/// written for it, and no chunk is larger than the whole.
pub proof fn lemma_png_len(chunks: Seq<PngChunkView>)
    requires
        png_sound(chunks),
    ensures
        png_wire(chunks).len() == png_len(chunks),
        forall|i: int| 0 <= i < chunks.len() ==> png_chunk_len(#[trigger] chunks[i]) <= png_len(chunks),
{
    assert(png_shaped(chunks));
    super::image::lemma_png_fragments(chunks);
    assert forall|i: int| 0 <= i < chunks.len() implies png_chunk_len(#[trigger] chunks[i])
        <= png_len(chunks) by {
        let sizes = chunk_sizes(chunks);
        crate::seqs::lemma_total_take_step(sizes, i);
        crate::seqs::lemma_total_take_le(sizes, i + 1);
    }
}

/// Writing chunks and reading what was written gives the chunks: sound
/// chunks, written one after the other with any bytes `rest` behind them,
/// are read as these chunks, followed by what is read from `rest`.
pub proof fn lemma_png_chunks_written(chunks: Seq<PngChunkView>, rest: Seq<u8>)
    requires
        png_sound(chunks),
    ensures
        parse_png_chunks(png_chunks_wire(chunks) + rest) == chunks_after(
            chunks,
            parse_png_chunks(rest),
        ),
    decreases chunks.len(),
{
    if chunks.len() == 0 {
        assert(png_chunks_wire(chunks) + rest =~= rest);
        match parse_png_chunks(rest) {
            Ok(v) => {
                assert(chunks + v =~= v);
            },
            Err(_) => {},
        }
    } else {
        let c = chunks[0];
        let tail = chunks.skip(1);
        lemma_png_sound_rest(chunks);
        lemma_png_chunks_wire_first(c, tail);
        let s = png_chunks_wire(chunks) + rest;
        let after = png_chunks_wire(tail) + rest;
        assert(s =~= png_chunk_wire(c) + after);
        lemma_png_chunk_written(c, after);
        lemma_png_chunk_size(c);
        assert(s.skip(png_chunk_len(c) as int) =~= after);
        lemma_png_chunks_written(tail, rest);
        assert(parse_png_chunks(s) == chunks_after(seq![c], parse_png_chunks(after)));
        match parse_png_chunks(rest) {
            Ok(v) => {
                assert(seq![c] + (tail + v) =~= chunks + v);
            },
            Err(_) => {},
        }
    }
}

/// A sound chunk stands in a file in as many bytes as its size, which
/// are at least 12.
proof fn lemma_png_chunk_size(c: PngChunkView)
    requires
        png_chunk_sound(c),
    ensures
        png_chunk_wire(c).len() == png_chunk_len(c),
        png_chunk_len(c) >= 12,
{
    lemma_be32(c.contents.len() as int, Seq::empty());
}

/// A sound chunk, written with any bytes behind it, is read as it is.
pub proof fn lemma_png_chunk_written(c: PngChunkView, rest: Seq<u8>)
    requires
        png_chunk_sound(c),
    ensures
        parse_png_chunk(png_chunk_wire(c) + rest) == Ok::<(PngChunkView, int), Error>(
            (c, png_chunk_len(c) as int),
        ),
{
    let s = png_chunk_wire(c) + rest;
    let n = c.contents.len() as int;
    lemma_be32(n, s);
    assert(s.take(4) =~= be32(n));
    assert(u32_from_be(s) == u32_from_be(be32(n)));
    assert(s.subrange(4, 8) =~= c.kind);
    assert(s.subrange(8, 8 + n) =~= c.contents);
    assert(s.subrange(8 + n, 12 + n) =~= c.crc);
}

/// Writing an image and reading what was written gives the image, for
/// every image of sound chunks.
pub proof fn lemma_png_written(chunks: Seq<PngChunkView>)
    requires
        png_sound(chunks),
    ensures
        parse_png(png_wire(chunks)) == Ok::<Seq<PngChunkView>, Error>(chunks),
{
    let s = png_wire(chunks);
    assert(s.take(8) =~= SIGNATURE@);
    assert(s.skip(8) =~= png_chunks_wire(chunks) + Seq::<u8>::empty());
    lemma_png_chunks_written(chunks, Seq::empty());
    assert(chunks + Seq::<PngChunkView>::empty() =~= chunks);
}

/// A chunk whose checksum is not that of its type and contents makes
/// reading fail with a bad CRC, wherever it stands in a file: behind the
/// signature and any sound chunks, and before any bytes. So a change of
/// the type or the contents of a chunk that leaves its checksum as it was
/// is found, unless both have the same CRC-32.
pub proof fn lemma_png_bad_crc(before: Seq<PngChunkView>, c: PngChunkView, rest: Seq<u8>)
    requires
        png_sound(before),
        png_chunk_shaped(c),
        c.contents.len() <= u32::MAX,
        c.crc != chunk_crc(c.kind, c.contents),
    ensures
        parse_png(SIGNATURE@ + png_chunks_wire(before) + png_chunk_wire(c) + rest) == Err::<
            Seq<PngChunkView>,
            Error,
        >(Error::BadCRC),
{
    let s = SIGNATURE@ + png_chunks_wire(before) + png_chunk_wire(c) + rest;
    let bad = png_chunk_wire(c) + rest;
    assert(s.take(8) =~= SIGNATURE@);
    assert(s.skip(8) =~= png_chunks_wire(before) + bad);
    lemma_png_chunks_written(before, bad);
    let n = c.contents.len() as int;
    lemma_be32(n, bad);
    assert(bad.take(4) =~= be32(n));
    assert(u32_from_be(bad) == u32_from_be(be32(n)));
    assert(bad.subrange(4, 8) =~= c.kind);
    assert(bad.subrange(8, 8 + n) =~= c.contents);
    assert(bad.subrange(8 + n, 12 + n) =~= c.crc);
}

/// A file that is cut short is read without a failure other than
/// truncation: of a file `s` that is read without error, every front part
/// is either read as a front part of the chunks of `s`, or found
/// truncated.
pub proof fn lemma_png_truncated(s: Seq<u8>, k: int)
    requires
        parse_png(s) is Ok,
        0 <= k <= s.len(),
    ensures
        match parse_png(s.take(k)) {
            Ok(chunks) => chunks.is_prefix_of(parse_png(s).unwrap()),
            Err(e) => e == Error::Truncated,
        },
{
    if k >= 8 {
        assert(s.take(k).take(8) =~= s.take(8));
        assert(s.take(k).skip(8) =~= s.skip(8).take(k - 8));
        lemma_png_chunks_truncated(s.skip(8), k - 8);
    }
}

/// Of bytes that open with a chunk, a front part that holds the whole
/// chunk opens with that chunk, and a shorter one is found truncated.
pub proof fn lemma_png_chunk_truncated(s: Seq<u8>, k: int)
    requires
        parse_png_chunk(s) is Ok,
        0 <= k <= s.len(),
    ensures
        k >= parse_png_chunk(s).unwrap().1 ==> parse_png_chunk(s.take(k)) == parse_png_chunk(s),
        k < parse_png_chunk(s).unwrap().1 ==> parse_png_chunk(s.take(k)) == Err::<
            (PngChunkView, int),
            Error,
        >(Error::Truncated),
{
    let t = s.take(k);
    let n = parse_png_chunk(s).unwrap().1;
    let size = u32_from_be(s);
    if k >= 8 {
        assert(u32_from_be(t) == size);
    }
    if k >= n {
        assert(t.subrange(4, 8) =~= s.subrange(4, 8));
        assert(t.subrange(8, 8 + size) =~= s.subrange(8, 8 + size));
        assert(t.subrange(8 + size, 12 + size) =~= s.subrange(8 + size, 12 + size));
    }
}

/// Of bytes that are read as chunks without error, every front part is
/// either read as a front part of these chunks, or found truncated.
pub proof fn lemma_png_chunks_truncated(s: Seq<u8>, k: int)
    requires
        parse_png_chunks(s) is Ok,
        0 <= k <= s.len(),
    ensures
        match parse_png_chunks(s.take(k)) {
            Ok(chunks) => chunks.is_prefix_of(parse_png_chunks(s).unwrap()),
            Err(e) => e == Error::Truncated,
        },
    decreases s.len(),
{
    let t = s.take(k);
    if k == 0 {
        assert(Seq::<PngChunkView>::empty().is_prefix_of(parse_png_chunks(s).unwrap()));
    } else {
        let (c, n) = parse_png_chunk(s).unwrap();
        lemma_png_chunk_read(s);
        lemma_png_chunk_truncated(s, k);
        let all = parse_png_chunks(s).unwrap();
        let rest = parse_png_chunks(s.skip(n)).unwrap();
        if k >= n {
            assert(t.skip(n) =~= s.skip(n).take(k - n));
            lemma_png_chunks_truncated(s.skip(n), k - n);
            match parse_png_chunks(t.skip(n)) {
                Ok(v) => {
                    assert(v =~= rest.subrange(0, v.len() as int));
                    assert(seq![c] + v =~= all.subrange(0, v.len() as int + 1));
                },
                Err(_) => {},
            }
        }
    }
}

/// A chunk of one type, put among chunks of other types, is the first of
/// its type, and without it the other chunks are left.
proof fn lemma_png_inserted(kept: Seq<PngChunkView>, at: int, new: PngChunkView)
    requires
        0 <= at <= kept.len(),
        forall|i: int| 0 <= i < kept.len() ==> has_other_type(new.kind)(#[trigger] kept[i]),
    ensures
        position(kept.insert(at, new), has_type(new.kind)) == Some(at),
        kept.insert(at, new).filter(has_other_type(new.kind)) == kept,
{
    let after = kept.insert(at, new);
    assert forall|j: int| 0 <= j < at implies !has_type(new.kind)(#[trigger] after[j]) by {
        assert(after[j] == kept[j]);
        assert(has_other_type(new.kind)(kept[j]));
    }
    lemma_position_is(after, has_type(new.kind), at);
    lemma_all_split(kept, at, has_other_type(new.kind));
    assert(after =~= kept.take(at) + seq![new] + kept.skip(at));
    assert forall|i: int| 0 <= i < seq![new].len() implies !has_other_type(new.kind)(
        #[trigger] seq![new][i],
    ) by {}
    lemma_filter_around(kept.take(at), seq![new], kept.skip(at), has_other_type(new.kind));
}

/// The profile that the contents written for a profile hold: what
/// inflating gives of what deflating gave.
pub proof fn lemma_iccp_contents(profile: Seq<u8>)
    ensures
        iccp_profile(iccp_contents(profile)) == zlib_inflated(
            zlib_deflated(profile, ICC_COMPRESSION_LEVEL),
        ),
{
    let contents = iccp_contents(profile);
    assert(contents[0] == 0x69 && contents[1] == 0x63 && contents[2] == 0x63);
    assert(contents[3] == 0 && contents[4] == 0);
    assert forall|j: int| 0 <= j < 3 implies !is_zero()(#[trigger] contents[j]) by {}
    lemma_position_is(contents, is_zero(), 3);
    assert(contents.skip(5) =~= zlib_deflated(profile, ICC_COMPRESSION_LEVEL));
}

/// The profile that is got from an image that was given a profile is
/// what inflating gives of what deflating the profile gave, whatever the
/// image held before. So where inflating undoes deflating, the profile
/// that has been set is the profile that is got.
pub proof fn lemma_png_icc_set_get(chunks: Seq<PngChunkView>, profile: Seq<u8>)
    requires
        chunks.filter(has_other_type(CHUNK_ICCP@)).len() >= 1,
    ensures
        png_icc(png_with_icc(chunks, Some(profile))) == zlib_inflated(
            zlib_deflated(profile, ICC_COMPRESSION_LEVEL),
        ),
{
    let kept = chunks.filter(has_other_type(CHUNK_ICCP@));
    let new = checked_chunk(CHUNK_ICCP@, iccp_contents(profile));
    lemma_filter_kept(chunks, has_other_type(CHUNK_ICCP@));
    lemma_png_inserted(kept, 1, new);
    lemma_iccp_contents(profile);
}

/// Setting a profile twice is setting it once: an image that has been
/// given a profile is left as it is when it is given the same profile
/// again.
pub proof fn lemma_png_icc_set_twice(chunks: Seq<PngChunkView>, profile: Option<Seq<u8>>)
    requires
        profile is Some ==> chunks.filter(has_other_type(CHUNK_ICCP@)).len() >= 1,
    ensures
        png_with_icc(png_with_icc(chunks, profile), profile) == png_with_icc(chunks, profile),
{
    let kept = chunks.filter(has_other_type(CHUNK_ICCP@));
    lemma_filter_kept(chunks, has_other_type(CHUNK_ICCP@));
    match profile {
        Some(p) => {
            lemma_png_inserted(kept, 1, checked_chunk(CHUNK_ICCP@, iccp_contents(p)));
        },
        None => {
            lemma_filter_all(kept, has_other_type(CHUNK_ICCP@));
        },
    }
}

/// An image keeps its bytes when it is given its own profile: an image
/// that this library has given a profile is left as it is when the
/// profile that is got from it is set again, where inflating undoes the
/// deflating of that profile.
pub proof fn lemma_png_icc_own_profile(chunks: Seq<PngChunkView>, profile: Seq<u8>)
    requires
        chunks.filter(has_other_type(CHUNK_ICCP@)).len() >= 1,
        zlib_inflated(zlib_deflated(profile, ICC_COMPRESSION_LEVEL)) == Some(profile),
    ensures
        png_with_icc(
            png_with_icc(chunks, Some(profile)),
            png_icc(png_with_icc(chunks, Some(profile))),
        ) == png_with_icc(chunks, Some(profile)),
{
    lemma_png_icc_set_get(chunks, profile);
    lemma_png_icc_set_twice(chunks, Some(profile));
}

/// EXIF metadata that has been set is the metadata that is got, whatever
/// the image held before.
pub proof fn lemma_png_exif_set_get(chunks: Seq<PngChunkView>, exif: Seq<u8>)
    requires
        chunks.filter(has_other_type(CHUNK_EXIF@)).len() >= 1,
    ensures
        png_exif(png_with_exif(chunks, Some(exif))) == Some(exif),
{
    let kept = chunks.filter(has_other_type(CHUNK_EXIF@));
    lemma_filter_kept(chunks, has_other_type(CHUNK_EXIF@));
    lemma_png_inserted(kept, kept.len() - 1, checked_chunk(CHUNK_EXIF@, exif));
}

} // verus!
