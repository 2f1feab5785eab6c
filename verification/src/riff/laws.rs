//! What holds of reading and writing RIFF chunks.

use super::{
    chunk_len, chunk_shaped, chunk_wire, chunks_len, chunks_shaped, chunks_wire, content_len,
    content_wire, lemma_chunk_fragments, lemma_chunks_fragments, lemma_content_fragments,
    parse_chunk, parse_chunks, parse_riff, spec_has_kind, spec_has_subchunks, RiffChunkView,
    RiffContentView, SIGNATURE,
};
use crate::buf::{le32, lemma_le32, u32_from_le};
use crate::error::Error;
use vstd::prelude::*;

verus! {

/// Whether a chunk is one that reading gives: its id has four bytes, its
/// content is a list if and only if its id is one of a chunk that holds
/// chunks, the list has a kind of four bytes if and only if its id is one
/// with a kind, the size of its content fits in 32 bits, and every chunk
/// inside it is such a chunk.
pub open spec fn chunk_readable(c: RiffChunkView) -> bool
    decreases c,
{
    &&& c.id.len() == 4
    &&& content_len(c.content) <= u32::MAX
    &&& match c.content {
        RiffContentView::List { kind, subchunks } => {
            &&& spec_has_subchunks(c.id)
            &&& kind is Some <==> spec_has_kind(c.id)
            &&& kind is Some ==> kind.unwrap().len() == 4
            &&& chunks_readable(subchunks)
        },
        RiffContentView::Data(_) => !spec_has_subchunks(c.id),
    }
}

/// Whether every chunk of `s` is one that reading gives.
pub open spec fn chunks_readable(s: Seq<RiffChunkView>) -> bool
    decreases s,
{
    s.len() > 0 ==> chunks_readable(s.drop_last()) && chunk_readable(s.last())
}

/// Chunks are taken apart at the front as they are at the back: they
/// stand in a file with the first before the others, are as large as the
/// first and the others together, and all are readable if and only if the
/// first and the others are.
pub proof fn lemma_chunks_first(s: Seq<RiffChunkView>)
    requires
        s.len() > 0,
    ensures
        chunks_wire(s) == chunk_wire(s[0]) + chunks_wire(s.skip(1)),
        chunks_len(s) == chunk_len(s[0]) + chunks_len(s.skip(1)),
        chunks_readable(s) == (chunk_readable(s[0]) && chunks_readable(s.skip(1))),
    decreases s.len(),
{
    if s.len() == 1 {
        assert(s.drop_last() =~= s.skip(1));
        assert(s.last() == s[0]);
        assert(chunks_wire(s.skip(1)) =~= Seq::<u8>::empty());
        assert(chunks_wire(s) =~= chunk_wire(s[0]));
    } else {
        lemma_chunks_first(s.drop_last());
        assert(s.drop_last().skip(1) =~= s.skip(1).drop_last());
        assert(s.drop_last()[0] == s[0]);
        assert(s.skip(1).last() == s.last());
        assert(chunks_wire(s) =~= chunk_wire(s[0]) + chunks_wire(s.skip(1)));
    }
}

/// Chunks with one more chunk before them are readable where that chunk
/// and the others are.
pub proof fn lemma_chunks_readable_first(first: RiffChunkView, rest: Seq<RiffChunkView>)
    ensures
        chunks_readable(seq![first] + rest) == (chunk_readable(first) && chunks_readable(rest)),
        chunks_len(seq![first] + rest) == chunk_len(first) + chunks_len(rest),
        chunks_wire(seq![first] + rest) == chunk_wire(first) + chunks_wire(rest),
{
    let all = seq![first] + rest;
    lemma_chunks_first(all);
    assert(all.skip(1) =~= rest);
}

/// A readable chunk is shaped.
pub proof fn lemma_readable_shaped(c: RiffChunkView)
    requires
        chunk_readable(c),
    ensures
        chunk_shaped(c),
    decreases c,
{
    match c.content {
        RiffContentView::List { kind, subchunks } => {
            lemma_chunks_readable_shaped(subchunks);
        },
        RiffContentView::Data(_) => {},
    }
}

/// Readable chunks are shaped.
pub proof fn lemma_chunks_readable_shaped(s: Seq<RiffChunkView>)
    requires
        chunks_readable(s),
    ensures
        chunks_shaped(s),
    decreases s,
{
    if s.len() > 0 {
        lemma_chunks_readable_shaped(s.drop_last());
        lemma_readable_shaped(s.last());
    }
}

/// A readable chunk, written with any bytes behind it, is read as it is.
/// Where the id is checked, this holds of a chunk of the id `RIFF`.
pub proof fn lemma_chunk_written(c: RiffChunkView, rest: Seq<u8>, check_riff_id: bool)
    requires
        chunk_readable(c),
        check_riff_id ==> c.id == SIGNATURE@,
    ensures
        parse_chunk(chunk_wire(c) + rest, check_riff_id) == Ok::<(RiffChunkView, int), Error>(
            (c, chunk_len(c) as int),
        ),
    decreases c,
{
    let s = chunk_wire(c) + rest;
    let len = content_len(c.content) as int;
    lemma_readable_shaped(c);
    lemma_content_fragments(c.content);
    lemma_le32(len, Seq::empty());
    let body = s.skip(4);
    assert(s.take(4) =~= c.id);
    assert(body =~= le32(len) + content_wire(c.content) + rest);
    assert(body.take(4) =~= le32(len));
    assert(u32_from_le(body) == u32_from_le(le32(len)));
    let content = body.subrange(4, 4 + len);
    match c.content {
        RiffContentView::List { kind, subchunks } => {
            lemma_chunks_fragments(subchunks);
            assert(content =~= content_wire(c.content));
            lemma_chunks_written(subchunks);
            match kind {
                Some(k) => {
                    assert(content.take(4) =~= k);
                    assert(content.skip(4) =~= chunks_wire(subchunks));
                },
                None => {
                    assert(content =~= chunks_wire(subchunks));
                },
            }
        },
        RiffContentView::Data(data) => {
            assert(content =~= data);
            if len % 2 != 0 {
                assert(content_wire(c.content).len() == len + 1);
            }
        },
    }
}

/// Readable chunks, written one after the other, are read as they are.
pub proof fn lemma_chunks_written(s: Seq<RiffChunkView>)
    requires
        chunks_readable(s),
    ensures
        parse_chunks(chunks_wire(s)) == Ok::<Seq<RiffChunkView>, Error>(s),
    decreases s,
{
    if s.len() == 0 {
        assert(s =~= Seq::<RiffChunkView>::empty());
    } else {
        lemma_chunks_first(s);
        let first = s[0];
        let rest = s.skip(1);
        lemma_chunk_written(first, chunks_wire(rest), false);
        lemma_chunks_written(rest);
        lemma_readable_shaped(first);
        lemma_chunk_fragments(first);
        let w = chunks_wire(s);
        assert(w.skip(chunk_len(first) as int) =~= chunks_wire(rest));
        assert(seq![first] + rest =~= s);
    }
}

/// Writing a chunk and reading what was written gives the chunk: a
/// readable chunk of the id `RIFF` is read as it is from the file that is
/// written for it, and its size is the length of that file.
pub proof fn lemma_riff_round_trip(c: RiffChunkView)
    requires
        chunk_readable(c),
        c.id == SIGNATURE@,
    ensures
        parse_riff(chunk_wire(c)) == Ok::<RiffChunkView, Error>(c),
        chunk_len(c) == chunk_wire(c).len(),
{
    lemma_chunk_written(c, Seq::empty(), true);
    assert(chunk_wire(c) + Seq::<u8>::empty() =~= chunk_wire(c));
    lemma_readable_shaped(c);
    lemma_chunk_fragments(c);
}

/// A chunk that was read is readable, and as large as the bytes that were
/// read for it.
pub proof fn lemma_chunk_read(s: Seq<u8>, check_riff_id: bool)
    requires
        parse_chunk(s, check_riff_id) is Ok,
    ensures
        chunk_readable(parse_chunk(s, check_riff_id).unwrap().0),
        chunk_len(parse_chunk(s, check_riff_id).unwrap().0) == parse_chunk(
            s,
            check_riff_id,
        ).unwrap().1,
        8 <= parse_chunk(s, check_riff_id).unwrap().1 <= s.len(),
        parse_chunk(s, check_riff_id).unwrap().1 % 2 == 0,
    decreases s.len(), 1nat,
{
    let body = s.skip(4);
    let id = s.take(4);
    let len = u32_from_le(body);
    lemma_le32(0, body);
    let content = body.subrange(4, 4 + len);
    super::lemma_padded_even(len as nat);
    if spec_has_subchunks(id) {
        if spec_has_kind(id) {
            lemma_chunks_read(content.skip(4));
        } else {
            lemma_chunks_read(content);
        }
    }
}

/// Chunks that were read are readable, and together as large as the bytes
/// that they were read from.
pub proof fn lemma_chunks_read(s: Seq<u8>)
    requires
        parse_chunks(s) is Ok,
    ensures
        chunks_readable(parse_chunks(s).unwrap()),
        chunks_len(parse_chunks(s).unwrap()) == s.len(),
        s.len() % 2 == 0,
    decreases s.len(), 2nat,
{
    if s.len() > 0 {
        let (first, n) = parse_chunk(s, false).unwrap();
        lemma_chunk_read(s, false);
        lemma_chunks_read(s.skip(n));
        lemma_chunks_readable_first(first, parse_chunks(s.skip(n)).unwrap());
    }
}

/// The chunk that was read from a file is readable and no larger than the
/// file, so that it can be written where the file is no larger than 32
/// bits can count.
pub proof fn lemma_riff_read(s: Seq<u8>)
    requires
        parse_riff(s) is Ok,
    ensures
        chunk_readable(parse_riff(s).unwrap()),
        parse_riff(s).unwrap().id == SIGNATURE@,
        chunk_len(parse_riff(s).unwrap()) <= s.len(),
{
    lemma_chunk_read(s, true);
}

/// A file that is cut short is read without a failure other than
/// truncation: of a file `s` that is read without error, every front part
/// is either read as the same chunk, or found truncated.
pub proof fn lemma_riff_truncated(s: Seq<u8>, k: int)
    requires
        parse_riff(s) is Ok,
        0 <= k <= s.len(),
    ensures
        parse_riff(s.take(k)) == parse_riff(s) || parse_riff(s.take(k)) == Err::<
            RiffChunkView,
            Error,
        >(Error::Truncated),
{
    let t = s.take(k);
    let n = parse_chunk(s, true).unwrap().1;
    let len = u32_from_le(s.skip(4));
    if k >= 4 {
        assert(t.take(4) =~= s.take(4));
    }
    if k >= 8 {
        assert(u32_from_le(t.skip(4)) == len);
    }
    if k >= 8 + len {
        assert(t.skip(4).subrange(4, 4 + len) =~= s.skip(4).subrange(4, 4 + len));
    }
}

} // verus!
