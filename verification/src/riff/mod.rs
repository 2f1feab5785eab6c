//! RIFF containers: chunks that hold either raw data or a list of further
//! chunks.

pub mod laws;

use crate::buf::{as_slice, le32, octets, put_u32_le, u32_from_le};
use crate::encoder::{EncodeAt, ImageEncoder};
use crate::error::Error;
use crate::util::{read_u32_le, read_u8, read_u8_len4_array, same_id, split_to_checked};
use bytes::{Bytes, BytesMut};
use vstd::prelude::*;

verus! {

/// The id of the chunk that a RIFF file is: `RIFF`.
pub const SIGNATURE: [u8; 4] = [0x52, 0x49, 0x46, 0x46];

/// The id of a chunk that holds a list of chunks: `LIST`.
pub const CHUNK_LIST: [u8; 4] = [0x4C, 0x49, 0x53, 0x54];

/// The id of a chunk that holds a sequence of chunks without a kind:
/// `seqt`.
pub const CHUNK_SEQT: [u8; 4] = [0x73, 0x65, 0x71, 0x74];

/// The representation of a RIFF chunk
#[derive(Debug, PartialEq)]
pub struct RiffChunk {
    id: [u8; 4],
    content: RiffContent,
}

/// The contents of a RIFF chunk
#[derive(Debug, PartialEq)]
pub enum RiffContent {
    List { kind: Option<[u8; 4]>, subchunks: Vec<RiffChunk> },
    Data(Bytes),
}

/// What a chunk holds.
pub struct RiffChunkView {
    /// The four bytes of the id.
    pub id: Seq<u8>,
    /// The content.
    pub content: RiffContentView,
}

/// What the content of a chunk holds.
pub enum RiffContentView {
    /// A list of chunks, behind the four bytes of its kind where it has
    /// one.
    List { kind: Option<Seq<u8>>, subchunks: Seq<RiffChunkView> },
    /// Raw data, without the padding byte that follows it in a file where
    /// its length is odd.
    Data(Seq<u8>),
}

/// Whether a chunk of this id holds chunks.
pub open spec fn spec_has_subchunks(id: Seq<u8>) -> bool {
    id == SIGNATURE@ || id == CHUNK_LIST@ || id == CHUNK_SEQT@
}

/// Whether a chunk of this id holds a kind before its chunks.
pub open spec fn spec_has_kind(id: Seq<u8>) -> bool {
    id == SIGNATURE@ || id == CHUNK_LIST@
}

/// Whether a chunk of this id holds chunks: `RIFF`, `LIST` and `seqt` do.
pub fn has_subchunks(id: [u8; 4]) -> (r: bool)
    ensures
        r == spec_has_subchunks(id@),
{
    same_id(&id, &SIGNATURE) || same_id(&id, &CHUNK_LIST) || same_id(&id, &CHUNK_SEQT)
}

/// Whether a chunk of this id holds a kind before its chunks: `RIFF` and
/// `LIST` do.
pub fn has_kind(id: [u8; 4]) -> (r: bool)
    ensures
        r == spec_has_kind(id@),
{
    same_id(&id, &SIGNATURE) || same_id(&id, &CHUNK_LIST)
}

/// The zero byte that follows data of odd length in a file.
pub open spec fn padding(len: nat) -> Seq<u8> {
    if len % 2 == 1 {
        seq![0u8]
    } else {
        Seq::empty()
    }
}

/// The size of a content once it is encoded, padding excluded: for a list
/// the kind (4 bytes) where it has one and the size of every chunk; for
/// data its length.
pub open spec fn content_len(c: RiffContentView) -> nat
    decreases c,
{
    match c {
        RiffContentView::List { kind, subchunks } => (if kind is Some {
            4nat
        } else {
            0nat
        }) + chunks_len(subchunks),
        RiffContentView::Data(data) => data.len(),
    }
}

/// The size of a chunk once it is encoded: the id (4 bytes), the size
/// field (4 bytes) and the content, with a padding byte where the size of
/// the content is odd.
pub open spec fn chunk_len(c: RiffChunkView) -> nat
    decreases c,
{
    8 + content_len(c.content) + content_len(c.content) % 2
}

/// The size of all chunks of `s` once they are encoded.
pub open spec fn chunks_len(s: Seq<RiffChunkView>) -> nat
    decreases s,
{
    if s.len() == 0 {
        0
    } else {
        chunks_len(s.drop_last()) + chunk_len(s.last())
    }
}

/// A content as it stands in a file: a list as its kind and its chunks,
/// data with its padding.
pub open spec fn content_wire(c: RiffContentView) -> Seq<u8>
    decreases c,
{
    match c {
        RiffContentView::List { kind, subchunks } => (match kind {
            Some(k) => k,
            None => Seq::empty(),
        }) + chunks_wire(subchunks),
        RiffContentView::Data(data) => data + padding(data.len()),
    }
}

/// A chunk as it stands in a file: its id, the size of its content as a
/// little-endian number, and its content.
pub open spec fn chunk_wire(c: RiffChunkView) -> Seq<u8>
    decreases c,
{
    c.id + le32(content_len(c.content) as int) + content_wire(c.content)
}

/// The chunks of `s` as they stand in a file, one after the other.
pub open spec fn chunks_wire(s: Seq<RiffChunkView>) -> Seq<u8>
    decreases s,
{
    if s.len() == 0 {
        Seq::empty()
    } else {
        chunks_wire(s.drop_last()) + chunk_wire(s.last())
    }
}

/// The fragments of a content: for a list its kind, then those of its
/// chunks; for data the data, then its padding.
pub open spec fn content_fragments(c: RiffContentView) -> Seq<Seq<u8>>
    decreases c,
{
    match c {
        RiffContentView::List { kind, subchunks } => (match kind {
            Some(k) => seq![k],
            None => Seq::empty(),
        }) + chunks_fragments(subchunks),
        RiffContentView::Data(data) => if data.len() % 2 == 1 {
            seq![data, seq![0u8]]
        } else {
            seq![data]
        },
    }
}

/// The fragments of a chunk: its id with the size of its content, then
/// those of its content.
pub open spec fn chunk_fragments(c: RiffChunkView) -> Seq<Seq<u8>>
    decreases c,
{
    seq![c.id + le32(content_len(c.content) as int)] + content_fragments(c.content)
}

/// The fragments of the chunks of `s`, one chunk after the other.
pub open spec fn chunks_fragments(s: Seq<RiffChunkView>) -> Seq<Seq<u8>>
    decreases s,
{
    if s.len() == 0 {
        Seq::empty()
    } else {
        chunks_fragments(s.drop_last()) + chunk_fragments(s.last())
    }
}

/// Whether a chunk is as an encodable one is: its id has four bytes, as
/// has every kind and every id inside it.
pub open spec fn chunk_shaped(c: RiffChunkView) -> bool
    decreases c,
{
    c.id.len() == 4 && content_shaped(c.content)
}

/// Whether a content is as an encodable one is: a kind has four bytes,
/// and every id and kind inside it.
pub open spec fn content_shaped(c: RiffContentView) -> bool
    decreases c,
{
    match c {
        RiffContentView::List { kind, subchunks } => (kind is Some ==> kind.unwrap().len() == 4)
            && chunks_shaped(subchunks),
        RiffContentView::Data(_) => true,
    }
}

/// Whether every chunk of `s` is shaped.
pub open spec fn chunks_shaped(s: Seq<RiffChunkView>) -> bool
    decreases s,
{
    s.len() > 0 ==> chunks_shaped(s.drop_last()) && chunk_shaped(s.last())
}

/// What reading one chunk from the front of `s` gives: the chunk and the
/// number of bytes read. Where `check_riff_id` is set, an id other than
/// `RIFF` has the wrong signature.
pub open spec fn parse_chunk(s: Seq<u8>, check_riff_id: bool) -> Result<(RiffChunkView, int), Error>
    decreases s.len(), 1nat,
{
    if s.len() < 4 {
        Err(Error::Truncated)
    } else if check_riff_id && s.take(4) != SIGNATURE@ {
        Err(Error::WrongSignature)
    } else {
        match parse_content(s.skip(4), s.take(4)) {
            Err(e) => Err(e),
            Ok((content, n)) => Ok((RiffChunkView { id: s.take(4), content }, 4 + n)),
        }
    }
}

/// What reading the content of a chunk of the id `id` from the front of
/// `s` gives: the content and the number of bytes read. The content is
/// preceded by its size; a list is read from exactly the bytes the size
/// gives, and data of odd size is followed by one byte of padding.
pub open spec fn parse_content(s: Seq<u8>, id: Seq<u8>) -> Result<(RiffContentView, int), Error>
    decreases s.len(), 0nat,
{
    if s.len() < 4 {
        Err(Error::Truncated)
    } else if s.len() - 4 < u32_from_le(s) {
        Err(Error::Truncated)
    } else {
        let len = u32_from_le(s);
        let content = s.subrange(4, 4 + len);
        if spec_has_subchunks(id) {
            if !spec_has_kind(id) {
                match parse_chunks(content) {
                    Err(e) => Err(e),
                    Ok(subchunks) => Ok((RiffContentView::List { kind: None, subchunks }, 4 + len)),
                }
            } else if len < 4 {
                Err(Error::Truncated)
            } else {
                match parse_chunks(content.skip(4)) {
                    Err(e) => Err(e),
                    Ok(subchunks) => Ok(
                        (RiffContentView::List { kind: Some(content.take(4)), subchunks }, 4 + len),
                    ),
                }
            }
        } else if len % 2 != 0 {
            if s.len() - 4 - len < 1 {
                Err(Error::Truncated)
            } else {
                Ok((RiffContentView::Data(content), 4 + len + 1))
            }
        } else {
            Ok((RiffContentView::Data(content), 4 + len))
        }
    }
}

/// What reading the content of a chunk of the id `id` from the front of
/// `s` leaves of `s`, whether or not it fails: all of `s` where the size
/// cannot be read, what follows the size where `s` ends before the
/// content does, else what follows the content, and its padding where the
/// content is data of odd size that a byte follows.
pub open spec fn content_rest(s: Seq<u8>, id: Seq<u8>) -> Seq<u8> {
    if s.len() < 4 {
        s
    } else if s.len() - 4 < u32_from_le(s) {
        s.skip(4)
    } else if !spec_has_subchunks(id) && u32_from_le(s) % 2 != 0 && s.len() - 4 - u32_from_le(s)
        >= 1 {
        s.skip(4 + u32_from_le(s) + 1)
    } else {
        s.skip(4 + u32_from_le(s))
    }
}

/// What reading one chunk from the front of `s` leaves of `s`, whether or
/// not it fails: all of `s` where the id cannot be read, what follows the
/// id where the id is not the one that is asked for, else what reading
/// the content leaves.
pub open spec fn chunk_rest(s: Seq<u8>, check_riff_id: bool) -> Seq<u8> {
    if s.len() < 4 {
        s
    } else if check_riff_id && s.take(4) != SIGNATURE@ {
        s.skip(4)
    } else {
        content_rest(s.skip(4), s.take(4))
    }
}

/// What reading chunks from `s` until nothing is left gives.
pub open spec fn parse_chunks(s: Seq<u8>) -> Result<Seq<RiffChunkView>, Error>
    decreases s.len(), 2nat,
{
    if s.len() == 0 {
        Ok(Seq::empty())
    } else {
        match parse_chunk(s, false) {
            Err(e) => Err(e),
            Ok((chunk, n)) => if 0 < n <= s.len() {
                match parse_chunks(s.skip(n)) {
                    Err(e) => Err(e),
                    Ok(chunks) => Ok(seq![chunk] + chunks),
                }
            } else {
                Err(Error::Truncated)
            },
        }
    }
}

/// The chunk that the RIFF file `s` is, or the error that reading it ends
/// in. What follows the chunk in `s` is left aside.
pub open spec fn parse_riff(s: Seq<u8>) -> Result<RiffChunkView, Error> {
    match parse_chunk(s, true) {
        Ok((chunk, _)) => Ok(chunk),
        Err(e) => Err(e),
    }
}

/// The chunks `head` followed by those of `tail`, where `tail` is no
/// error.
pub open spec fn chunks_then(head: Seq<RiffChunkView>, tail: Result<Seq<RiffChunkView>, Error>)
    -> Result<Seq<RiffChunkView>, Error> {
    match tail {
        Ok(v) => Ok(head + v),
        Err(e) => Err(e),
    }
}

/// What a kind that may be absent holds.
pub open spec fn kind_view(kind: Option<[u8; 4]>) -> Option<Seq<u8>> {
    match kind {
        Some(k) => Some(k@),
        None => None,
    }
}

/// What the chunk `c` holds.
pub closed spec fn chunk_view(c: RiffChunk) -> RiffChunkView
    decreases c,
{
    RiffChunkView { id: c.id@, content: content_view(c.content) }
}

/// What the content `c` holds.
pub open spec fn content_view(c: RiffContent) -> RiffContentView
    decreases c,
{
    match c {
        RiffContent::List { kind, subchunks } => RiffContentView::List {
            kind: kind_view(kind),
            subchunks: chunk_views(subchunks@),
        },
        RiffContent::Data(data) => RiffContentView::Data(octets(data)),
    }
}

/// What the chunks of `s` hold, in order.
pub open spec fn chunk_views(s: Seq<RiffChunk>) -> Seq<RiffChunkView>
    decreases s,
{
    if s.len() == 0 {
        Seq::empty()
    } else {
        chunk_views(s.drop_last()).push(chunk_view(s.last()))
    }
}

impl View for RiffChunk {
    type V = RiffChunkView;

    open spec fn view(&self) -> RiffChunkView {
        chunk_view(*self)
    }
}

impl View for RiffContent {
    type V = RiffContentView;

    open spec fn view(&self) -> RiffContentView {
        content_view(*self)
    }
}

/// The views of chunks are those of each chunk, in order.
pub proof fn lemma_chunk_views(s: Seq<RiffChunk>)
    ensures
        chunk_views(s).len() == s.len(),
        forall|i: int| 0 <= i < s.len() ==> chunk_views(s)[i] == (#[trigger] s[i])@,
    decreases s.len(),
{
    if s.len() > 0 {
        lemma_chunk_views(s.drop_last());
        assert forall|i: int| 0 <= i < s.len() implies chunk_views(s)[i] == (#[trigger] s[i])@ by {
            if i < s.len() - 1 {
                assert(s.drop_last()[i] == s[i]);
            }
        }
    }
}

/// The views of a front part of chunks are the front part of their
/// views, and one chunk more is one view more.
pub proof fn lemma_chunk_views_take(s: Seq<RiffChunk>, i: int)
    requires
        0 <= i <= s.len(),
    ensures
        chunk_views(s.take(i)) == chunk_views(s).take(i),
        i < s.len() ==> chunk_views(s.take(i + 1)) == chunk_views(s.take(i)).push(s[i]@),
{
    lemma_chunk_views(s);
    lemma_chunk_views(s.take(i));
    assert forall|j: int| 0 <= j < i implies chunk_views(s.take(i))[j] == chunk_views(s).take(i)[j] by {
        assert(s.take(i)[j] == s[j]);
    }
    assert(chunk_views(s.take(i)) =~= chunk_views(s).take(i));
    if i < s.len() {
        assert(s.take(i + 1).drop_last() == s.take(i));
    }
}

/// The views of chunks without the chunk at `i` are their views without
/// the view at `i`.
pub proof fn lemma_chunk_views_remove(s: Seq<RiffChunk>, i: int)
    requires
        0 <= i < s.len(),
    ensures
        chunk_views(s.remove(i)) == chunk_views(s).remove(i),
{
    let t = s.remove(i);
    lemma_chunk_views(s);
    lemma_chunk_views(t);
    assert forall|j: int| 0 <= j < t.len() implies chunk_views(t)[j] == chunk_views(s).remove(i)[j] by {
        assert(chunk_views(t)[j] == t[j]@);
        if j < i {
            assert(t[j] == s[j]);
        } else {
            assert(t[j] == s[j + 1]);
        }
    }
    assert(chunk_views(t) =~= chunk_views(s).remove(i));
}

/// The views of chunks with a chunk more at `i` are their views with its
/// view more at `i`.
pub proof fn lemma_chunk_views_insert(s: Seq<RiffChunk>, i: int, c: RiffChunk)
    requires
        0 <= i <= s.len(),
    ensures
        chunk_views(s.insert(i, c)) == chunk_views(s).insert(i, c@),
{
    let t = s.insert(i, c);
    lemma_chunk_views(s);
    lemma_chunk_views(t);
    assert forall|j: int| 0 <= j < t.len() implies chunk_views(t)[j] == chunk_views(s).insert(
        i,
        c@,
    )[j] by {
        assert(chunk_views(t)[j] == t[j]@);
        if j < i {
            assert(t[j] == s[j]);
        } else if j > i {
            assert(t[j] == s[j - 1]);
        }
    }
    assert(chunk_views(t) =~= chunk_views(s).insert(i, c@));
}

/// The chunks of `s` with one chunk more.
pub proof fn lemma_chunks_step(s: Seq<RiffChunkView>, i: int)
    requires
        0 <= i < s.len(),
    ensures
        chunks_len(s.take(i + 1)) == chunks_len(s.take(i)) + chunk_len(s[i]),
        chunks_wire(s.take(i + 1)) == chunks_wire(s.take(i)) + chunk_wire(s[i]),
        chunks_fragments(s.take(i + 1)) == chunks_fragments(s.take(i)) + chunk_fragments(s[i]),
        chunks_shaped(s.take(i + 1)) == (chunks_shaped(s.take(i)) && chunk_shaped(s[i])),
{
    assert(s.take(i + 1).drop_last() == s.take(i));
}

/// A front part of chunks is no larger than the whole, its fragments
/// open the fragments of the whole, and it is shaped where the whole is.
pub proof fn lemma_chunks_front(s: Seq<RiffChunkView>, i: int)
    requires
        0 <= i <= s.len(),
    ensures
        chunks_len(s.take(i)) <= chunks_len(s),
        chunks_fragments(s.take(i)).is_prefix_of(chunks_fragments(s)),
        chunks_shaped(s) ==> chunks_shaped(s.take(i)),
        i < s.len() && chunks_shaped(s) ==> chunk_shaped(s[i]),
    decreases s.len() - i,
{
    if i < s.len() {
        lemma_chunks_step(s, i);
        lemma_chunks_front(s, i + 1);
        assert(chunks_fragments(s.take(i)) =~= chunks_fragments(s.take(i + 1)).subrange(
            0,
            chunks_fragments(s.take(i)).len() as int,
        ));
    } else {
        assert(s.take(i) == s);
    }
}

/// The fragments of a chunk make up the chunk as it stands in a file; its
/// size is the length of that and even, and it has no more fragments than
/// bytes.
pub proof fn lemma_chunk_fragments(c: RiffChunkView)
    requires
        chunk_shaped(c),
    ensures
        chunk_fragments(c).flatten() == chunk_wire(c),
        chunk_wire(c).len() == chunk_len(c),
        chunk_len(c) % 2 == 0,
        chunk_fragments(c).len() <= chunk_len(c),
    decreases c,
{
    lemma_content_fragments(c.content);
    let len = content_len(c.content);
    let head = seq![c.id + le32(len as int)];
    vstd::seq_lib::lemma_flatten_concat(head, content_fragments(c.content));
    head.lemma_flatten_one_element();
    assert(le32(len as int).len() == 4) by {
        crate::buf::lemma_le32(len as int, Seq::empty());
    }
    assert(head.flatten() == c.id + le32(len as int));
    lemma_padded_even(len);
}

/// A size with its padding is even.
pub proof fn lemma_padded_even(len: nat)
    ensures
        (len + len % 2) % 2 == 0,
        (8 + len + len % 2) % 2 == 0,
{
}

/// The fragments of a content make up the content as it stands in a
/// file, padding included.
pub proof fn lemma_content_fragments(c: RiffContentView)
    requires
        content_shaped(c),
    ensures
        content_fragments(c).flatten() == content_wire(c),
        content_wire(c).len() == content_len(c) + content_len(c) % 2,
        content_fragments(c).len() <= content_len(c) + 1,
        content_fragments(c).len() <= 2 || content_fragments(c).len() <= content_len(c),
    decreases c,
{
    match c {
        RiffContentView::List { kind, subchunks } => {
            lemma_chunks_fragments(subchunks);
            let head: Seq<Seq<u8>> = match kind {
                Some(k) => seq![k],
                None => Seq::empty(),
            };
            vstd::seq_lib::lemma_flatten_concat(head, chunks_fragments(subchunks));
            if kind is Some {
                head.lemma_flatten_one_element();
            } else {
                assert(head.flatten() =~= Seq::<u8>::empty());
            }
        },
        RiffContentView::Data(data) => {
            if data.len() % 2 == 1 {
                let both = seq![data, seq![0u8]];
                assert(both =~= seq![data] + seq![seq![0u8]]);
                vstd::seq_lib::lemma_flatten_concat(seq![data], seq![seq![0u8]]);
                seq![data].lemma_flatten_one_element();
                seq![seq![0u8]].lemma_flatten_one_element();
            } else {
                seq![data].lemma_flatten_one_element();
                assert(data + padding(data.len()) =~= data);
            }
        },
    }
}

/// The fragments of chunks make up the chunks as they stand in a file.
pub proof fn lemma_chunks_fragments(s: Seq<RiffChunkView>)
    requires
        chunks_shaped(s),
    ensures
        chunks_fragments(s).flatten() == chunks_wire(s),
        chunks_wire(s).len() == chunks_len(s),
        chunks_len(s) % 2 == 0,
        chunks_fragments(s).len() <= chunks_len(s),
    decreases s,
{
    if s.len() == 0 {
        assert(chunks_fragments(s).flatten() =~= Seq::<u8>::empty());
    } else {
        let c = s.last();
        assert(chunks_shaped(s.drop_last()) && chunk_shaped(c));
        lemma_chunks_fragments(s.drop_last());
        lemma_chunk_fragments(c);
        vstd::seq_lib::lemma_flatten_concat(chunks_fragments(s.drop_last()), chunk_fragments(c));
    }
}

/// What a chunk holds is shaped: ids and kinds have four bytes.
pub proof fn lemma_chunk_shaped(c: RiffChunk)
    ensures
        chunk_shaped(c@),
    decreases c,
{
    reveal(chunk_view);
    lemma_content_shaped(c.content);
}

/// What a content holds is shaped.
pub proof fn lemma_content_shaped(c: RiffContent)
    ensures
        content_shaped(c@),
    decreases c,
{
    match c {
        RiffContent::List { kind, subchunks } => {
            lemma_chunks_shaped(subchunks@);
        },
        RiffContent::Data(_) => {},
    }
}

/// What chunks hold is shaped.
pub proof fn lemma_chunks_shaped(s: Seq<RiffChunk>)
    ensures
        chunks_shaped(chunk_views(s)),
    decreases s,
{
    if s.len() > 0 {
        lemma_chunks_shaped(s.drop_last());
        lemma_chunk_shaped(s.last());
        assert(chunk_views(s).drop_last() =~= chunk_views(s.drop_last()));
    }
}

/// Reading a chunk takes at least the eight bytes of its id and size, and
/// no more bytes than there are.
pub proof fn lemma_parse_chunk_bounds(s: Seq<u8>, check_riff_id: bool)
    ensures
        parse_chunk(s, check_riff_id) is Ok ==> 8 <= parse_chunk(s, check_riff_id).unwrap().1
            <= s.len(),
{
    if s.len() >= 4 {
        lemma_parse_content_bounds(s.skip(4), s.take(4));
    }
}

/// Reading a content takes at least the four bytes of its size, and no
/// more bytes than there are.
pub proof fn lemma_parse_content_bounds(s: Seq<u8>, id: Seq<u8>)
    ensures
        parse_content(s, id) is Ok ==> 4 <= parse_content(s, id).unwrap().1 <= s.len(),
{
}

impl RiffChunk {
    /// Construct a new RIFF chunk.
    pub fn new(id: [u8; 4], content: RiffContent) -> (c: RiffChunk)
        ensures
            c@ == (RiffChunkView { id: id@, content: content@ }),
    {
        RiffChunk { id, content }
    }

    /// Create a new `RiffChunk` from the bytes of a file.
    ///
    /// # Errors
    ///
    /// This method fails if the file signature doesn't match or one
    /// of the chunks is corrupted or truncated.
    pub fn from_bytes(b: Bytes) -> (r: Result<RiffChunk, Error>)
        ensures
            match r {
                Ok(c) => parse_riff(octets(b)) == Ok::<RiffChunkView, Error>(c@) && chunk_len(c@)
                    <= octets(b).len(),
                Err(e) => parse_riff(octets(b)) == Err::<RiffChunkView, Error>(e),
            },
    {
        proof {
            if parse_riff(octets(b)) is Ok {
                self::laws::lemma_riff_read(octets(b));
            }
        }
        let mut buf = b;
        RiffChunk::from_bytes_impl(&mut buf, true)
    }

    /// Read one chunk from the front of `b`.
    ///
    /// # Errors
    ///
    /// This method fails if the chunk or one inside it is truncated, or,
    /// where `check_riff_id` is set, if its id is not `RIFF`.
    pub fn from_bytes_impl(b: &mut Bytes, check_riff_id: bool) -> (r: Result<RiffChunk, Error>)
        ensures
            match r {
                Ok(c) => {
                    &&& parse_chunk(octets(*old(b)), check_riff_id) is Ok
                    &&& parse_chunk(octets(*old(b)), check_riff_id).unwrap().0 == c@
                    &&& octets(*final(b)) == octets(*old(b)).skip(
                        parse_chunk(octets(*old(b)), check_riff_id).unwrap().1,
                    )
                },
                Err(e) => parse_chunk(octets(*old(b)), check_riff_id) == Err::<
                    (RiffChunkView, int),
                    Error,
                >(e),
            },
            octets(*final(b)) == chunk_rest(octets(*old(b)), check_riff_id),
        decreases octets(*old(b)).len(),
    {
        let ghost start = octets(*b);
        let id = match read_u8_len4_array(b) {
            Ok(id) => id,
            Err(e) => { return Err(e); },
        };
        if check_riff_id && !same_id(&id, &SIGNATURE) {
            return Err(Error::WrongSignature);
        }
        let content = match RiffContent::from_bytes(b, id) {
            Ok(content) => content,
            Err(e) => { return Err(e); },
        };
        proof {
            let n = parse_content(start.skip(4), id@).unwrap().1;
            assert(start.skip(4).skip(n) =~= start.skip(4 + n));
        }
        Ok(RiffChunk::new(id, content))
    }

    /// Get the id of this `RiffChunk`
    pub fn id(&self) -> (id: [u8; 4])
        ensures
            id@ == self@.id,
    {
        self.id
    }

    /// Get the content of this `RiffChunk`
    pub fn content(&self) -> (c: &RiffContent)
        ensures
            c@ == self@.content,
    {
        &self.content
    }

    /// Get a mutable reference to the content of this `RiffChunk`
    pub fn content_mut(&mut self) -> (c: &mut RiffContent)
        ensures
            c@ == old(self)@.content,
            final(self)@ == (RiffChunkView { id: old(self)@.id, content: final(c)@ }),
    {
        &mut self.content
    }

    /// Take this `RiffChunk` apart into its id and its content.
    pub fn into_parts(self) -> (r: ([u8; 4], RiffContent))
        ensures
            r.0@ == self@.id,
            r.1@ == self@.content,
    {
        (self.id, self.content)
    }

    /// Get the total size of this `RiffChunk` once it is encoded.
    ///
    /// The size is the sum of:
    ///
    /// - The chunk id (4 bytes).
    /// - The size field (4 bytes).
    /// - The size of the content + a single padding byte if the size is odd.
    pub fn len(&self) -> (n: u32)
        requires
            chunk_len(self@) <= u32::MAX,
        ensures
            n == chunk_len(self@),
        decreases self,
    {
        let c = self.content.len();
        8 + c + c % 2
    }

    /// Returns an encoder for this `RiffChunk`
    pub fn encoder(self) -> (e: ImageEncoder<RiffChunk>)
        requires
            chunk_len(self@) <= u32::MAX,
        ensures
            e.remaining() == chunk_fragments(self@),
    {
        ImageEncoder::new(self)
    }

    /// Get the fragment at index `pos` of this chunk.
    fn fragment_at(&self, pos: &mut usize) -> (r: Option<Bytes>)
        requires
            content_len(self@.content) <= u32::MAX,
        ensures
            *old(pos) < chunk_fragments(self@).len() ==> r is Some && octets(r.unwrap())
                == chunk_fragments(self@)[*old(pos) as int] && *final(pos) == *old(pos),
            *old(pos) >= chunk_fragments(self@).len() ==> r is None && *final(pos) == *old(pos)
                - chunk_fragments(self@).len(),
        decreases self,
    {
        if *pos == 0 {
            let mut header = BytesMut::with_capacity(8);
            header.extend_from_slice(self.id.as_slice());
            put_u32_le(&mut header, self.content.len());
            Some(header.freeze())
        } else {
            let mut p: usize = *pos - 1;
            let r = self.content.fragment_at(&mut p);
            if r.is_none() {
                *pos = p;
            }
            r
        }
    }
}

impl RiffContent {
    /// Read the content of a chunk of the id `id` from the front of `b`:
    /// its size, then a list of chunks or raw data.
    ///
    /// # Errors
    ///
    /// This method fails if `b` ends before the content does, or if a
    /// chunk inside it is truncated.
    pub fn from_bytes(b: &mut Bytes, id: [u8; 4]) -> (r: Result<RiffContent, Error>)
        ensures
            match r {
                Ok(c) => {
                    &&& parse_content(octets(*old(b)), id@) is Ok
                    &&& parse_content(octets(*old(b)), id@).unwrap().0 == c@
                    &&& octets(*final(b)) == octets(*old(b)).skip(
                        parse_content(octets(*old(b)), id@).unwrap().1,
                    )
                },
                Err(e) => parse_content(octets(*old(b)), id@) == Err::<
                    (RiffContentView, int),
                    Error,
                >(e),
            },
            octets(*final(b)) == content_rest(octets(*old(b)), id@),
        decreases octets(*old(b)).len(),
    {
        let ghost start = octets(*b);
        let len = match read_u32_le(b) {
            Ok(len) => len,
            Err(e) => { return Err(e); },
        };
        let mut content = match split_to_checked(b, len as usize) {
            Ok(content) => content,
            Err(e) => { return Err(e); },
        };
        proof {
            assert(octets(content) =~= start.subrange(4, 4 + len));
            assert(octets(*b) =~= start.skip(4 + len));
        }
        if has_subchunks(id) {
            let kind = if has_kind(id) {
                let ghost whole = octets(content);
                match read_u8_len4_array(&mut content) {
                    Ok(kind) => {
                        assert(octets(content) == whole.skip(4));
                        Some(kind)
                    },
                    Err(e) => { return Err(e); },
                }
            } else {
                None
            };
            let ghost inner = octets(content);
            let ghost target = parse_content(start, id@);
            let mut subchunks: Vec<RiffChunk> = Vec::with_capacity(8);
            while content.len() > 0
                invariant
                    octets(content).len() < start.len(),
                    start == octets(*old(b)),
                    octets(*b) == content_rest(start, id@),
                    target == parse_content(start, id@),
                    match parse_chunks(inner) {
                        Ok(v) => target == Ok::<(RiffContentView, int), Error>(
                            (RiffContentView::List { kind: kind_view(kind), subchunks: v }, 4 + len),
                        ),
                        Err(e) => target == Err::<(RiffContentView, int), Error>(e),
                    },
                    parse_chunks(inner) == chunks_then(
                        chunk_views(subchunks@),
                        parse_chunks(octets(content)),
                    ),
                decreases octets(content).len(),
            {
                let ghost before = octets(content);
                let ghost done = subchunks@;
                proof {
                    lemma_parse_chunk_bounds(before, false);
                }
                let subchunk = match RiffChunk::from_bytes_impl(&mut content, false) {
                    Ok(subchunk) => subchunk,
                    Err(e) => { return Err(e); },
                };
                subchunks.push(subchunk);
                proof {
                    assert(subchunks@.drop_last() == done);
                    let rest = parse_chunks(octets(content));
                    match rest {
                        Ok(v) => {
                            assert(chunk_views(done) + (seq![subchunk@] + v) =~= chunk_views(
                                subchunks@,
                            ) + v);
                        },
                        Err(_) => {},
                    }
                }
            }
            proof {
                assert(chunk_views(subchunks@) + Seq::<RiffChunkView>::empty() =~= chunk_views(
                    subchunks@,
                ));
            }
            Ok(RiffContent::List { kind, subchunks })
        } else {
            if len % 2 != 0 {
                match read_u8(b) {
                    Ok(_) => {
                        assert(octets(*b) =~= start.skip(4 + len + 1));
                    },
                    Err(e) => { return Err(e); },
                }
            }
            Ok(RiffContent::Data(content))
        }
    }

    /// Get the total size of this `RiffContent` once it is encoded.
    ///
    /// If this `RiffContent` is a `List` the size is the sum of:
    ///
    /// - The kind (4 bytes) if this `List` has a kind.
    /// - The sum of the size of every `subchunk`.
    ///
    /// If this `RiffContent` is `Data` the size is the length of the data.
    pub fn len(&self) -> (n: u32)
        requires
            content_len(self@) <= u32::MAX,
        ensures
            n == content_len(self@),
        decreases self,
    {
        match self {
            RiffContent::List { kind, subchunks } => {
                let mut len: u32 = 0;
                if kind.is_some() {
                    len += 4;
                }
                let ghost all = chunk_views(subchunks@);
                let mut i: usize = 0;
                while i < subchunks.len()
                    invariant
                        i <= subchunks.len(),
                        all == chunk_views(subchunks@),
                        content_len(self@) <= u32::MAX,
                        self@ == (RiffContentView::List { kind: kind_view(*kind), subchunks: all }),
                        *self == (RiffContent::List { kind: *kind, subchunks: *subchunks }),
                        len == (if kind is Some { 4nat } else { 0nat }) + chunks_len(all.take(i as int)),
                    decreases subchunks.len() - i,
                {
                    proof {
                        lemma_chunk_views(subchunks@);
                        lemma_chunks_step(all, i as int);
                        lemma_chunks_front(all, i as int + 1);
                        assert(self->subchunks == *subchunks);
                        vstd::std_specs::vec::axiom_vec_index_decreases(*subchunks, i as int);
                    }
                    len += subchunks[i].len();
                    i += 1;
                }
                proof {
                    lemma_chunk_views(subchunks@);
                    assert(all.take(i as int) == all);
                }
                len
            },
            RiffContent::Data(data) => data.len() as u32,
        }
    }

    /// Get `kind` and `subchunks` of this `RiffContent` if it is a `List`.
    ///
    /// Returns `None` if it is `Data`.
    pub fn list(&self) -> (r: Option<(Option<[u8; 4]>, &Vec<RiffChunk>)>)
        ensures
            match *self {
                RiffContent::List { kind, subchunks } => r == Some((kind, &subchunks)),
                RiffContent::Data(_) => r is None,
            },
    {
        match self {
            RiffContent::List { kind, subchunks } => Some((*kind, subchunks)),
            RiffContent::Data(_) => None,
        }
    }

    /// Get the `data` of this `RiffContent` if it is `Data`.
    ///
    /// Returns `None` if it is a `List`.
    pub fn data(&self) -> (r: Option<&Bytes>)
        ensures
            match *self {
                RiffContent::List { .. } => r is None,
                RiffContent::Data(data) => r == Some(&data),
            },
    {
        match self {
            RiffContent::List { .. } => None,
            RiffContent::Data(data) => Some(data),
        }
    }

    /// Returns an encoder for this `RiffContent`
    pub fn encoder(self) -> (e: ImageEncoder<RiffContent>)
        requires
            content_len(self@) + content_len(self@) % 2 <= u32::MAX,
        ensures
            e.remaining() == content_fragments(self@),
    {
        ImageEncoder::new(self)
    }

    /// Get the fragment at index `pos` of this content.
    fn fragment_at(&self, pos: &mut usize) -> (r: Option<Bytes>)
        requires
            content_len(self@) <= u32::MAX,
        ensures
            *old(pos) < content_fragments(self@).len() ==> r is Some && octets(r.unwrap())
                == content_fragments(self@)[*old(pos) as int] && *final(pos) == *old(pos),
            *old(pos) >= content_fragments(self@).len() ==> r is None && *final(pos) == *old(pos)
                - content_fragments(self@).len(),
        decreases self,
    {
        match self {
            RiffContent::List { kind, subchunks } => {
                let mut p: usize = *pos;
                if let Some(kind) = kind {
                    if p == 0 {
                        return Some(Bytes::copy_from_slice(kind.as_slice()));
                    }
                    p = p - 1;
                }
                let ghost all = chunk_views(subchunks@);
                let ghost lead: nat = if kind is Some { 1 } else { 0 };
                let mut i: usize = 0;
                while i < subchunks.len()
                    invariant
                        i <= subchunks.len(),
                        all == chunk_views(subchunks@),
                        content_len(self@) <= u32::MAX,
                        self@ == (RiffContentView::List { kind: kind_view(*kind), subchunks: all }),
                        lead == (if kind is Some { 1nat } else { 0nat }),
                        *self == (RiffContent::List { kind: *kind, subchunks: *subchunks }),
                        p + lead + chunks_fragments(all.take(i as int)).len() == *old(pos),
                        *pos == *old(pos),
                    decreases subchunks.len() - i,
                {
                    let ghost at = p;
                    proof {
                        lemma_chunk_views(subchunks@);
                        lemma_chunks_step(all, i as int);
                        lemma_chunks_front(all, i as int + 1);
                        assert(self->subchunks == *subchunks);
                        vstd::std_specs::vec::axiom_vec_index_decreases(*subchunks, i as int);
                    }
                    let r = subchunks[i].fragment_at(&mut p);
                    if r.is_some() {
                        proof {
                            let whole = chunks_fragments(all);
                            let front = chunks_fragments(all.take(i as int));
                            let more = chunks_fragments(all.take(i as int + 1));
                            assert(more == whole.subrange(0, more.len() as int));
                            assert(whole[front.len() + at] == more[front.len() + at]);
                            assert(more[front.len() + at] == chunk_fragments(all[i as int])[at as int]);
                        }
                        return r;
                    }
                    i += 1;
                }
                proof {
                    lemma_chunk_views(subchunks@);
                    assert(all.take(i as int) == all);
                }
                *pos = p;
                None
            },
            RiffContent::Data(data) => {
                let odd = data.len() % 2 == 1;
                if *pos == 0 {
                    Some(data.clone())
                } else if *pos == 1 && odd {
                    let zero: [u8; 1] = [0];
                    let b = Bytes::copy_from_slice(zero.as_slice());
                    assert(octets(b) =~= seq![0u8]);
                    Some(b)
                } else {
                    *pos = *pos - (if odd { 2usize } else { 1usize });
                    None
                }
            },
        }
    }
}

impl RiffChunk {
    /// Another chunk that holds what this chunk holds.
    fn copy(&self) -> (copy: RiffChunk)
        ensures
            copy@ == self@,
        decreases self,
    {
        RiffChunk { id: self.id, content: self.content.copy() }
    }
}

impl RiffContent {
    /// Another content that holds what this content holds.
    fn copy(&self) -> (copy: RiffContent)
        ensures
            copy@ == self@,
        decreases self,
    {
        match self {
            RiffContent::List { kind, subchunks } => {
                let mut copies: Vec<RiffChunk> = Vec::with_capacity(subchunks.len());
                let mut i: usize = 0;
                while i < subchunks.len()
                    invariant
                        i <= subchunks.len(),
                        *self == (RiffContent::List { kind: *kind, subchunks: *subchunks }),
                        chunk_views(copies@) == chunk_views(subchunks@.take(i as int)),
                    decreases subchunks.len() - i,
                {
                    proof {
                        lemma_chunk_views_take(subchunks@, i as int);
                        assert(self->subchunks == *subchunks);
                        vstd::std_specs::vec::axiom_vec_index_decreases(*subchunks, i as int);
                    }
                    let ghost before = copies@;
                    let copy = subchunks[i].copy();
                    copies.push(copy);
                    proof {
                        assert(copies@.drop_last() == before);
                    }
                    i += 1;
                }
                proof {
                    assert(subchunks@.take(i as int) == subchunks@);
                }
                RiffContent::List { kind: *kind, subchunks: copies }
            },
            RiffContent::Data(data) => RiffContent::Data(data.clone()),
        }
    }
}

/// The size of the chunks of `chunks` once they are encoded, where 32
/// bits can count it.
fn checked_chunks_len(chunks: &Vec<RiffChunk>) -> (r: Option<u32>)
    ensures
        r is Some <==> chunks_len(chunk_views(chunks@)) <= u32::MAX,
        r is Some ==> r.unwrap() == chunks_len(chunk_views(chunks@)),
    decreases chunks,
{
    let ghost all = chunk_views(chunks@);
    let mut len: u32 = 0;
    let mut i: usize = 0;
    while i < chunks.len()
        invariant
            i <= chunks.len(),
            all == chunk_views(chunks@),
            len == chunks_len(all.take(i as int)),
        decreases chunks.len() - i,
    {
        proof {
            lemma_chunk_views(chunks@);
            lemma_chunks_step(all, i as int);
            lemma_chunks_front(all, i as int + 1);
            vstd::std_specs::vec::axiom_vec_index_decreases(*chunks, i as int);
        }
        let next = match chunks[i].checked_len() {
            Some(next) => next,
            None => { return None; },
        };
        len = match len.checked_add(next) {
            Some(len) => len,
            None => { return None; },
        };
        i += 1;
    }
    proof {
        lemma_chunk_views(chunks@);
        assert(all.take(i as int) == all);
    }
    Some(len)
}

impl RiffChunk {
    /// The size of this chunk once it is encoded, where 32 bits can count
    /// it.
    pub fn checked_len(&self) -> (r: Option<u32>)
        ensures
            r is Some <==> chunk_len(self@) <= u32::MAX,
            r is Some ==> r.unwrap() == chunk_len(self@),
        decreases self,
    {
        match self.content.checked_len() {
            Some(c) => match c.checked_add(8) {
                Some(n) => n.checked_add(c % 2),
                None => None,
            },
            None => None,
        }
    }
}

impl RiffContent {
    /// The size of this content once it is encoded, where 32 bits can
    /// count it.
    pub fn checked_len(&self) -> (r: Option<u32>)
        ensures
            r is Some <==> content_len(self@) <= u32::MAX,
            r is Some ==> r.unwrap() == content_len(self@),
        decreases self,
    {
        match self {
            RiffContent::List { kind, subchunks } => {
                proof {
                    assert(self->subchunks == *subchunks);
                }
                match checked_chunks_len(subchunks) {
                    Some(n) => if kind.is_some() {
                        n.checked_add(4)
                    } else {
                        Some(n)
                    },
                    None => None,
                }
            },
            RiffContent::Data(data) => {
                let n = data.len();
                if n <= 0xFFFF_FFFF {
                    Some(n as u32)
                } else {
                    None
                }
            },
        }
    }
}

impl Clone for RiffChunk {
    fn clone(&self) -> (copy: RiffChunk)
        ensures
            copy@ == self@,
    {
        self.copy()
    }
}

impl Clone for RiffContent {
    fn clone(&self) -> (copy: RiffContent)
        ensures
            copy@ == self@,
    {
        self.copy()
    }
}

impl EncodeAt for RiffChunk {
    open spec fn fragments(&self) -> Seq<Seq<u8>> {
        chunk_fragments(self@)
    }

    open spec fn encodable(&self) -> bool {
        chunk_len(self@) <= u32::MAX
    }

    proof fn lemma_encodable_bounds(&self) {
        lemma_chunk_shaped(*self);
        lemma_chunk_fragments(self@);
    }

    fn encode_at(&self, pos: &mut usize) -> (r: Option<Bytes>) {
        self.fragment_at(pos)
    }

    fn is_encodable(&self) -> (r: bool) {
        self.checked_len().is_some()
    }

    fn encoded_len(&self) -> (n: usize) {
        proof {
            lemma_chunk_shaped(*self);
            lemma_chunk_fragments(self@);
        }
        self.len() as usize
    }
}

impl EncodeAt for RiffContent {
    open spec fn fragments(&self) -> Seq<Seq<u8>> {
        content_fragments(self@)
    }

    open spec fn encodable(&self) -> bool {
        content_len(self@) + content_len(self@) % 2 <= u32::MAX
    }

    proof fn lemma_encodable_bounds(&self) {
        lemma_content_shaped(*self);
        lemma_content_fragments(self@);
    }

    fn encode_at(&self, pos: &mut usize) -> (r: Option<Bytes>) {
        self.fragment_at(pos)
    }

    fn is_encodable(&self) -> (r: bool) {
        match self.checked_len() {
            Some(n) => n.checked_add(n % 2).is_some(),
            None => false,
        }
    }

    fn encoded_len(&self) -> (n: usize) {
        proof {
            lemma_content_shaped(*self);
            lemma_content_fragments(self@);
        }
        let n = self.len();
        (n + n % 2) as usize
    }
}

} // verus!
