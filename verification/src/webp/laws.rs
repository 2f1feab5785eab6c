//! What holds of reading, writing and changing WebP images.

use super::flags::{flags_byte, FLAG_ICC};
use super::{
    can_infer_kind, canvas_size, data_chunk, data_of, has_chunk_of, has_id,
    has_other_id, metadata_position, inferred_kind, parse_webp, position_or_start, vp8x_chunk,
    webp_dimensions, webp_exif, webp_icc, webp_kind, webp_riff, with_exif_chunk, with_icc_chunk,
    with_inferred_kind, CHUNK_EXIF, CHUNK_ICCP, CHUNK_VP8, CHUNK_VP8L, CHUNK_VP8X,
};
use crate::buf::{le24, lemma_le24};
use crate::error::Error;
use crate::jpeg::segment::EXIF_DATA_PREFIX;
use crate::riff::laws::{
    chunk_readable, chunks_readable, lemma_riff_read, lemma_riff_round_trip, lemma_riff_truncated,
};
use crate::riff::{chunk_len, chunk_wire, content_len, parse_riff, RiffChunkView, RiffContentView};
use crate::seqs::{
    lemma_all_split, lemma_filter_around, lemma_position, lemma_position_filter,
    lemma_position_filter_gone, lemma_position_insert_hit, lemma_position_insert_miss,
    lemma_position_is, position,
};
use crate::vp8::VP8Kind;
use vstd::prelude::*;

verus! {

/// Writing an image and reading what was written gives the image: the
/// readable chunks of an image whose size fits in 32 bits are read as
/// they are from the file that is written for them, and the size of the
/// image is the length of that file.
pub proof fn lemma_webp_round_trip(chunks: Seq<RiffChunkView>)
    requires
        chunks_readable(chunks),
        chunk_len(webp_riff(chunks)) <= u32::MAX,
    ensures
        parse_webp(chunk_wire(webp_riff(chunks))) == Ok::<Seq<RiffChunkView>, Error>(chunks),
        chunk_len(webp_riff(chunks)) == chunk_wire(webp_riff(chunks)).len(),
{
    let riff = webp_riff(chunks);
    assert(content_len(riff.content) <= u32::MAX);
    assert(chunk_readable(riff));
    lemma_riff_round_trip(riff);
}

/// The chunks that were read from a file are readable, and the image is
/// no larger than the file.
pub proof fn lemma_webp_read(s: Seq<u8>)
    requires
        parse_webp(s) is Ok,
    ensures
        chunks_readable(parse_webp(s).unwrap()),
        chunk_len(webp_riff(parse_webp(s).unwrap())) <= s.len(),
{
    lemma_riff_read(s);
    let riff = parse_riff(s).unwrap();
    assert(riff.content == webp_riff(parse_webp(s).unwrap()).content);
}

/// A file that is cut short is read without a failure other than
/// truncation: of a file `s` that is read without error, every front part
/// is either read as the same image, or found truncated.
pub proof fn lemma_webp_truncated(s: Seq<u8>, k: int)
    requires
        parse_webp(s) is Ok,
        0 <= k <= s.len(),
    ensures
        parse_webp(s.take(k)) == parse_webp(s) || parse_webp(s.take(k)) == Err::<
            Seq<RiffChunkView>,
            Error,
        >(Error::Truncated),
{
    lemma_riff_truncated(s, k);
}

/// The place of a new chunk of metadata is a place among the chunks or
/// behind them.
pub proof fn lemma_metadata_position(kept: Seq<RiffChunkView>)
    ensures
        0 <= metadata_position(kept) <= kept.len(),
{
    lemma_position(kept, has_id(CHUNK_VP8X@));
    lemma_position(kept, has_id(CHUNK_VP8L@));
    lemma_position(kept, has_id(CHUNK_VP8@));
}

/// A chunk put among others leaves the chunks of every other id as they
/// were found: whether there is one, and the data of the first.
pub proof fn lemma_insert_other(chunks: Seq<RiffChunkView>, at: int, new: RiffChunkView, id: Seq<u8>)
    requires
        0 <= at <= chunks.len(),
        new.id != id,
    ensures
        has_chunk_of(chunks.insert(at, new), id) == has_chunk_of(chunks, id),
        data_of(chunks.insert(at, new), id) == data_of(chunks, id),
{
    lemma_position_insert_miss(chunks, at, new, has_id(id));
}

/// A chunk put where no chunk of its id stands before it is the first of
/// its id.
pub proof fn lemma_insert_first(chunks: Seq<RiffChunkView>, at: int, new: RiffChunkView)
    requires
        0 <= at <= chunks.len(),
        forall|j: int| 0 <= j < at ==> (#[trigger] chunks[j]).id != new.id,
    ensures
        position(chunks.insert(at, new), has_id(new.id)) == Some(at),
        has_chunk_of(chunks.insert(at, new), new.id),
        data_of(chunks.insert(at, new), new.id) == match new.content {
            RiffContentView::Data(data) => Some(data),
            RiffContentView::List { .. } => None,
        },
{
    assert forall|j: int| 0 <= j < at implies !has_id(new.id)(#[trigger] chunks[j]) by {}
    lemma_position_insert_hit(chunks, at, new, has_id(new.id));
}

/// Where no chunk has an id, no chunk at any place has it.
pub proof fn lemma_no_chunk_of(chunks: Seq<RiffChunkView>, id: Seq<u8>)
    requires
        !has_chunk_of(chunks, id),
    ensures
        forall|j: int| 0 <= j < chunks.len() ==> (#[trigger] chunks[j]).id != id,
{
    lemma_position(chunks, has_id(id));
    assert forall|j: int| 0 <= j < chunks.len() implies (#[trigger] chunks[j]).id != id by {
        assert(!has_id(id)(chunks[j]));
    }
}

/// Removing the chunks of one id leaves none of that id, and leaves the
/// chunks of every other id as they were found.
pub proof fn lemma_remove_id(chunks: Seq<RiffChunkView>, gone: Seq<u8>, id: Seq<u8>)
    ensures
        !has_chunk_of(chunks.filter(has_other_id(gone)), gone),
        id != gone ==> has_chunk_of(chunks.filter(has_other_id(gone)), id) == has_chunk_of(
            chunks,
            id,
        ),
        id != gone ==> data_of(chunks.filter(has_other_id(gone)), id) == data_of(chunks, id),
{
    lemma_position_filter_gone(chunks, has_other_id(gone), has_id(gone));
    if id != gone {
        lemma_position_filter(chunks, has_other_id(gone), has_id(id));
    }
}

/// Giving an image the kind it should have leaves the chunks of every id
/// but `VP8X` as they were found.
pub proof fn lemma_inferred_kind_other(chunks: Seq<RiffChunkView>, id: Seq<u8>)
    requires
        id != CHUNK_VP8X@,
    ensures
        has_chunk_of(with_inferred_kind(chunks), id) == has_chunk_of(chunks, id),
        data_of(with_inferred_kind(chunks), id) == data_of(chunks, id),
{
    if webp_kind(chunks) == inferred_kind(chunks) {
    } else if inferred_kind(chunks) == VP8Kind::VP8 {
        lemma_remove_id(chunks, CHUNK_VP8X@, id);
    } else {
        let at = position_or_start(chunks, has_id(CHUNK_ICCP@));
        lemma_position(chunks, has_id(CHUNK_ICCP@));
        let new = vp8x_chunk(
            flags_byte(has_chunk_of(chunks, CHUNK_ICCP@), has_chunk_of(chunks, CHUNK_EXIF@)),
            webp_dimensions(chunks).unwrap().0,
            webp_dimensions(chunks).unwrap().1,
        );
        lemma_insert_other(chunks, at, new, id);
    }
}

/// The ids of the chunks that this library knows differ from one
/// another.
pub proof fn lemma_ids_differ()
    ensures
        CHUNK_ICCP@ != CHUNK_VP8X@,
        CHUNK_ICCP@ != CHUNK_VP8L@,
        CHUNK_ICCP@ != CHUNK_VP8@,
        CHUNK_ICCP@ != CHUNK_EXIF@,
        CHUNK_EXIF@ != CHUNK_VP8X@,
        CHUNK_EXIF@ != CHUNK_VP8L@,
        CHUNK_EXIF@ != CHUNK_VP8@,
        CHUNK_VP8X@ != CHUNK_VP8L@,
        CHUNK_VP8X@ != CHUNK_VP8@,
        CHUNK_VP8L@ != CHUNK_VP8@,
{
    assert(CHUNK_ICCP@[0] == 0x49 && CHUNK_EXIF@[0] == 0x45 && CHUNK_VP8X@[0] == 0x56);
    assert(CHUNK_VP8L@[0] == 0x56 && CHUNK_VP8@[0] == 0x56);
    assert(CHUNK_VP8X@[3] == 0x58 && CHUNK_VP8L@[3] == 0x4C && CHUNK_VP8@[3] == 0x20);
}

/// Replacing the `ICCP` chunks of an image leaves its kind, its size and
/// its EXIF metadata as they were, and gives it a profile if and only if
/// one is set.
pub proof fn lemma_icc_chunk_kinds(chunks: Seq<RiffChunkView>, profile: Option<Seq<u8>>)
    ensures
        webp_kind(with_icc_chunk(chunks, profile)) == webp_kind(chunks),
        webp_dimensions(with_icc_chunk(chunks, profile)) == webp_dimensions(chunks),
        has_chunk_of(with_icc_chunk(chunks, profile), CHUNK_EXIF@) == has_chunk_of(
            chunks,
            CHUNK_EXIF@,
        ),
        has_chunk_of(with_icc_chunk(chunks, profile), CHUNK_VP8X@) == has_chunk_of(
            chunks,
            CHUNK_VP8X@,
        ),
        has_chunk_of(with_icc_chunk(chunks, profile), CHUNK_ICCP@) == (profile is Some),
{
    lemma_ids_differ();
    let kept = chunks.filter(has_other_id(CHUNK_ICCP@));
    lemma_remove_id(chunks, CHUNK_ICCP@, CHUNK_VP8X@);
    lemma_remove_id(chunks, CHUNK_ICCP@, CHUNK_VP8L@);
    lemma_remove_id(chunks, CHUNK_ICCP@, CHUNK_VP8@);
    lemma_remove_id(chunks, CHUNK_ICCP@, CHUNK_EXIF@);
    match profile {
        Some(p) => {
            let at = metadata_position(kept);
            let icc = data_chunk(CHUNK_ICCP@, p);
            lemma_metadata_position(kept);
            lemma_insert_other(kept, at, icc, CHUNK_VP8X@);
            lemma_insert_other(kept, at, icc, CHUNK_VP8L@);
            lemma_insert_other(kept, at, icc, CHUNK_VP8@);
            lemma_insert_other(kept, at, icc, CHUNK_EXIF@);
            lemma_no_chunk_of(kept, CHUNK_ICCP@);
            lemma_insert_first(kept, at, icc);
        },
        None => {},
    }
}

/// Replacing the `EXIF` chunks of an image leaves its kind, its size and
/// its ICC profile as they were, and gives it EXIF metadata if and only
/// if some is set.
pub proof fn lemma_exif_chunk_kinds(chunks: Seq<RiffChunkView>, exif: Option<Seq<u8>>)
    ensures
        webp_kind(with_exif_chunk(chunks, exif)) == webp_kind(chunks),
        webp_dimensions(with_exif_chunk(chunks, exif)) == webp_dimensions(chunks),
        has_chunk_of(with_exif_chunk(chunks, exif), CHUNK_ICCP@) == has_chunk_of(
            chunks,
            CHUNK_ICCP@,
        ),
        has_chunk_of(with_exif_chunk(chunks, exif), CHUNK_VP8X@) == has_chunk_of(
            chunks,
            CHUNK_VP8X@,
        ),
        has_chunk_of(with_exif_chunk(chunks, exif), CHUNK_EXIF@) == (exif is Some),
{
    lemma_ids_differ();
    let kept = chunks.filter(has_other_id(CHUNK_EXIF@));
    lemma_remove_id(chunks, CHUNK_EXIF@, CHUNK_VP8X@);
    lemma_remove_id(chunks, CHUNK_EXIF@, CHUNK_VP8L@);
    lemma_remove_id(chunks, CHUNK_EXIF@, CHUNK_VP8@);
    lemma_remove_id(chunks, CHUNK_EXIF@, CHUNK_ICCP@);
    match exif {
        Some(e) => {
            let new = data_chunk(CHUNK_EXIF@, EXIF_DATA_PREFIX@ + e);
            let at = metadata_position(kept);
            lemma_metadata_position(kept);
            lemma_insert_other(kept, at, new, CHUNK_VP8X@);
            lemma_insert_other(kept, at, new, CHUNK_VP8L@);
            lemma_insert_other(kept, at, new, CHUNK_VP8@);
            lemma_insert_other(kept, at, new, CHUNK_ICCP@);
            lemma_no_chunk_of(kept, CHUNK_EXIF@);
            lemma_insert_first(kept, at, new);
        },
        None => {},
    }
}

/// A profile that has been set is the profile that is got, and a profile
/// that has been removed is gone, whatever the image held before.
pub proof fn lemma_webp_icc_set_get(chunks: Seq<RiffChunkView>, profile: Option<Seq<u8>>)
    ensures
        webp_icc(with_inferred_kind(with_icc_chunk(chunks, profile))) == profile,
{
    lemma_ids_differ();
    let kept = chunks.filter(has_other_id(CHUNK_ICCP@));
    lemma_remove_id(chunks, CHUNK_ICCP@, CHUNK_ICCP@);
    let changed = with_icc_chunk(chunks, profile);
    lemma_inferred_kind_other(changed, CHUNK_ICCP@);
    match profile {
        Some(p) => {
            let at = metadata_position(kept);
            lemma_metadata_position(kept);
            lemma_no_chunk_of(kept, CHUNK_ICCP@);
            lemma_insert_first(kept, at, data_chunk(CHUNK_ICCP@, p));
        },
        None => {},
    }
}

/// EXIF metadata that has been set is the metadata that is got, and
/// metadata that has been removed is gone, whatever the image held
/// before.
pub proof fn lemma_webp_exif_set_get(chunks: Seq<RiffChunkView>, exif: Option<Seq<u8>>)
    ensures
        webp_exif(with_inferred_kind(with_exif_chunk(chunks, exif))) == exif,
{
    lemma_ids_differ();
    let kept = chunks.filter(has_other_id(CHUNK_EXIF@));
    lemma_remove_id(chunks, CHUNK_EXIF@, CHUNK_EXIF@);
    let changed = with_exif_chunk(chunks, exif);
    lemma_inferred_kind_other(changed, CHUNK_EXIF@);
    match exif {
        Some(e) => {
            let new = data_chunk(CHUNK_EXIF@, EXIF_DATA_PREFIX@ + e);
            let at = metadata_position(kept);
            lemma_metadata_position(kept);
            lemma_no_chunk_of(kept, CHUNK_EXIF@);
            lemma_insert_first(kept, at, new);
            let data = EXIF_DATA_PREFIX@ + e;
            assert(data.subrange(0, 6) =~= EXIF_DATA_PREFIX@);
            assert(data.skip(6) =~= e);
        },
        None => {},
    }
}

/// A lossy image in the simple format that is given an ICC profile
/// becomes an image in the extended format: the image has the profile, a
/// `VP8X` chunk whose flags have the bit of the profile set, and as the
/// size of its canvas the size of its frame.
pub proof fn lemma_webp_promotion(chunks: Seq<RiffChunkView>, profile: Seq<u8>)
    requires
        webp_kind(chunks) == VP8Kind::VP8,
        !has_chunk_of(chunks, CHUNK_EXIF@),
        webp_dimensions(chunks) is Some,
        webp_dimensions(chunks).unwrap().0 >= 1,
        webp_dimensions(chunks).unwrap().1 >= 1,
    ensures
        can_infer_kind(with_icc_chunk(chunks, Some(profile))),
        webp_kind(with_inferred_kind(with_icc_chunk(chunks, Some(profile)))) == VP8Kind::VP8X,
        webp_icc(with_inferred_kind(with_icc_chunk(chunks, Some(profile)))) == Some(profile),
        webp_dimensions(with_inferred_kind(with_icc_chunk(chunks, Some(profile))))
            == webp_dimensions(chunks),
        data_of(with_inferred_kind(with_icc_chunk(chunks, Some(profile))), CHUNK_VP8X@) is Some,
        data_of(
            with_inferred_kind(with_icc_chunk(chunks, Some(profile))),
            CHUNK_VP8X@,
        ).unwrap()[0] == FLAG_ICC,
{
    lemma_ids_differ();
    lemma_webp_icc_set_get(chunks, Some(profile));
    let kept = chunks.filter(has_other_id(CHUNK_ICCP@));
    lemma_remove_id(chunks, CHUNK_ICCP@, CHUNK_VP8X@);
    lemma_remove_id(chunks, CHUNK_ICCP@, CHUNK_VP8L@);
    lemma_remove_id(chunks, CHUNK_ICCP@, CHUNK_VP8@);
    lemma_remove_id(chunks, CHUNK_ICCP@, CHUNK_EXIF@);
    let at = metadata_position(kept);
    lemma_metadata_position(kept);
    let icc = data_chunk(CHUNK_ICCP@, profile);
    let changed = kept.insert(at, icc);
    assert(changed == with_icc_chunk(chunks, Some(profile)));
    lemma_no_chunk_of(kept, CHUNK_ICCP@);
    lemma_insert_first(kept, at, icc);
    lemma_insert_other(kept, at, icc, CHUNK_VP8X@);
    lemma_insert_other(kept, at, icc, CHUNK_VP8L@);
    lemma_insert_other(kept, at, icc, CHUNK_VP8@);
    lemma_insert_other(kept, at, icc, CHUNK_EXIF@);
    assert(webp_kind(changed) == VP8Kind::VP8);
    assert(inferred_kind(changed) == VP8Kind::VP8X);
    assert(webp_dimensions(changed) == webp_dimensions(chunks));
    let (width, height) = webp_dimensions(chunks).unwrap();
    let new = vp8x_chunk(flags_byte(true, false), width, height);
    let after = changed.insert(at, new);
    assert(after == with_inferred_kind(changed));
    lemma_no_chunk_of(changed, CHUNK_VP8X@);
    lemma_insert_first(changed, at, new);
    lemma_vp8x_canvas(flags_byte(true, false), width, height);
}

/// The size of the canvas that a `VP8X` chunk gives is the size that the
/// chunk was made for, where that size is one that a frame can have.
pub proof fn lemma_vp8x_canvas(flags: u8, width: u32, height: u32)
    requires
        1 <= width <= 0x100_0000,
        1 <= height <= 0x100_0000,
    ensures
        vp8x_chunk(flags, width, height).content is Data,
        canvas_size(vp8x_chunk(flags, width, height).content->Data_0) == Some((width, height)),
        vp8x_chunk(flags, width, height).content->Data_0[0] == flags,
{
    let data = seq![flags, 0u8, 0u8, 0u8] + le24(width as int - 1) + le24(height as int - 1);
    lemma_le24(width as int - 1);
    lemma_le24(height as int - 1);
    assert(data.subrange(4, 7) =~= le24(width as int - 1));
    assert(data.subrange(7, 10) =~= le24(height as int - 1));
}

/// Without a chunk that was put among chunks of other ids, these chunks
/// are left.
pub proof fn lemma_insert_removed(kept: Seq<RiffChunkView>, at: int, new: RiffChunkView)
    requires
        0 <= at <= kept.len(),
        forall|i: int| 0 <= i < kept.len() ==> has_other_id(new.id)(#[trigger] kept[i]),
    ensures
        kept.insert(at, new).filter(has_other_id(new.id)) == kept,
{
    lemma_all_split(kept, at, has_other_id(new.id));
    assert(kept.insert(at, new) =~= kept.take(at) + seq![new] + kept.skip(at));
    assert forall|i: int| 0 <= i < seq![new].len() implies !has_other_id(new.id)(
        #[trigger] seq![new][i],
    ) by {}
    lemma_filter_around(kept.take(at), seq![new], kept.skip(at), has_other_id(new.id));
}

/// Whether an image carries its ICC profile in its place: it has a
/// `VP8X` chunk, the chunk right behind the first `VP8X` chunk is an
/// `ICCP` chunk that holds data, and no other chunk is an `ICCP` chunk.
pub open spec fn profile_in_place(chunks: Seq<RiffChunkView>) -> bool {
    match position(chunks, has_id(CHUNK_VP8X@)) {
        Some(i) => {
            &&& i + 1 < chunks.len()
            &&& chunks[i + 1].id == CHUNK_ICCP@
            &&& chunks[i + 1].content is Data
            &&& forall|j: int|
                0 <= j < chunks.len() && j != i + 1 ==> (#[trigger] chunks[j]).id != CHUNK_ICCP@
        },
        None => false,
    }
}

/// An image keeps its bytes when it is given its own profile: an
/// extended image that carries its profile in its place is left as it
/// is, chunk for chunk, when the profile that is got from it is set
/// again.
pub proof fn lemma_webp_icc_own_profile(chunks: Seq<RiffChunkView>)
    requires
        profile_in_place(chunks),
    ensures
        webp_icc(chunks) is Some,
        can_infer_kind(with_icc_chunk(chunks, webp_icc(chunks))),
        with_inferred_kind(with_icc_chunk(chunks, webp_icc(chunks))) == chunks,
{
    lemma_ids_differ();
    lemma_position(chunks, has_id(CHUNK_VP8X@));
    let i = position(chunks, has_id(CHUNK_VP8X@)).unwrap();
    let icc = chunks[i + 1];
    let profile = icc.content->Data_0;
    assert(icc == data_chunk(CHUNK_ICCP@, profile));
    // the profile of the image is the data of that chunk
    assert forall|j: int| 0 <= j < i + 1 implies !has_id(CHUNK_ICCP@)(#[trigger] chunks[j]) by {}
    lemma_position_is(chunks, has_id(CHUNK_ICCP@), i + 1);
    assert(webp_icc(chunks) == Some(profile));
    // without it, the other chunks are left, the `VP8X` chunk where it was
    let kept = chunks.remove(i + 1);
    assert(chunks =~= kept.insert(i + 1, icc));
    assert forall|j: int| 0 <= j < kept.len() implies has_other_id(CHUNK_ICCP@)(
        #[trigger] kept[j],
    ) by {
        if j < i + 1 {
            assert(kept[j] == chunks[j]);
        } else {
            assert(kept[j] == chunks[j + 1]);
        }
    }
    lemma_insert_removed(kept, i + 1, icc);
    assert(chunks.filter(has_other_id(CHUNK_ICCP@)) == kept);
    assert forall|j: int| 0 <= j < i implies !has_id(CHUNK_VP8X@)(#[trigger] kept[j]) by {
        assert(kept[j] == chunks[j]);
    }
    assert(kept[i] == chunks[i]);
    lemma_position_is(kept, has_id(CHUNK_VP8X@), i);
    assert(metadata_position(kept) == i + 1);
    assert(with_icc_chunk(chunks, Some(profile)) == chunks);
}

/// An image that has been given a profile carries it in its place,
/// whatever the image held before: right behind its first `VP8X` chunk,
/// which is a new one where the image had none.
pub proof fn lemma_webp_icc_set_in_place(chunks: Seq<RiffChunkView>, profile: Seq<u8>)
    requires
        can_infer_kind(with_icc_chunk(chunks, Some(profile))),
    ensures
        profile_in_place(with_inferred_kind(with_icc_chunk(chunks, Some(profile)))),
{
    lemma_ids_differ();
    let kept = chunks.filter(has_other_id(CHUNK_ICCP@));
    lemma_remove_id(chunks, CHUNK_ICCP@, CHUNK_ICCP@);
    lemma_no_chunk_of(kept, CHUNK_ICCP@);
    lemma_metadata_position(kept);
    lemma_position(kept, has_id(CHUNK_VP8X@));
    let at = metadata_position(kept);
    let icc = data_chunk(CHUNK_ICCP@, profile);
    let changed = kept.insert(at, icc);
    assert(changed == with_icc_chunk(chunks, Some(profile)));
    lemma_insert_first(kept, at, icc);
    lemma_insert_other(kept, at, icc, CHUNK_VP8X@);
    lemma_position_insert_miss(kept, at, icc, has_id(CHUNK_VP8X@));
    assert(inferred_kind(changed) == VP8Kind::VP8X);
    match position(kept, has_id(CHUNK_VP8X@)) {
        Some(i) => {
            assert(webp_kind(changed) == VP8Kind::VP8X);
            assert(with_inferred_kind(changed) == changed);
            assert(position(changed, has_id(CHUNK_VP8X@)) == Some(i));
            assert(changed[i + 1] == icc);
            assert forall|j: int| 0 <= j < changed.len() && j != i + 1 implies (
            #[trigger] changed[j]).id != CHUNK_ICCP@ by {
                if j < i + 1 {
                    assert(changed[j] == kept[j]);
                } else {
                    assert(changed[j] == kept[j - 1]);
                }
            }
        },
        None => {
            assert(webp_kind(changed) != VP8Kind::VP8X);
            let extended = vp8x_chunk(
                flags_byte(has_chunk_of(changed, CHUNK_ICCP@), has_chunk_of(changed, CHUNK_EXIF@)),
                webp_dimensions(changed).unwrap().0,
                webp_dimensions(changed).unwrap().1,
            );
            let after = changed.insert(at, extended);
            assert(after == with_inferred_kind(changed));
            lemma_no_chunk_of(changed, CHUNK_VP8X@);
            lemma_insert_first(changed, at, extended);
            assert(after[at + 1] == icc);
            assert forall|j: int| 0 <= j < after.len() && j != at + 1 implies (
            #[trigger] after[j]).id != CHUNK_ICCP@ by {
                if j < at {
                    assert(after[j] == kept[j]);
                } else if j > at + 1 {
                    assert(after[j] == kept[j - 2]);
                }
            }
        },
    }
}

/// An image that this library has given a profile keeps its bytes when
/// the profile that is got from it is set again.
pub proof fn lemma_webp_icc_set_own_profile(chunks: Seq<RiffChunkView>, profile: Seq<u8>)
    requires
        can_infer_kind(with_icc_chunk(chunks, Some(profile))),
    ensures
        with_inferred_kind(
            with_icc_chunk(
                with_inferred_kind(with_icc_chunk(chunks, Some(profile))),
                webp_icc(with_inferred_kind(with_icc_chunk(chunks, Some(profile)))),
            ),
        ) == with_inferred_kind(with_icc_chunk(chunks, Some(profile))),
{
    lemma_webp_icc_set_in_place(chunks, profile);
    lemma_webp_icc_own_profile(with_inferred_kind(with_icc_chunk(chunks, Some(profile))));
}

} // verus!
