//! Writing a container as a sequence of byte fragments.
//!
//! A container is made of pieces that lie in separate places in memory.
//! [`EncodeAt`] hands them out one by one, by index, without copying;
//! [`ImageEncoder`] walks them in order.

pub mod read;

pub use self::read::ImageEncoderReader;

use crate::buf::{as_slice, octets, written};
use crate::error::Error;
use bytes::{Bytes, BytesMut};
use crate::seqs::{
    lemma_flatten_len, lemma_flatten_split, lemma_flatten_take_step, lemma_flatten_twice,
    lemma_total_take_le, lemma_total_take_step, total,
};
use vstd::prelude::*;

verus! {

/// A value that is written as a sequence of byte fragments.
pub trait EncodeAt {
    /// The fragments that make up the encoded value, in order.
    spec fn fragments(&self) -> Seq<Seq<u8>>;

    /// Whether the value can be written: every length fits the field that
    /// carries it, and the whole fits in memory.
    spec fn encodable(&self) -> bool;

    /// An encodable value has no more fragments, and no more bytes, than
    /// can be counted.
    proof fn lemma_encodable_bounds(&self)
        requires
            self.encodable(),
        ensures
            self.fragments().len() <= usize::MAX,
            self.fragments().flatten().len() <= usize::MAX,
    ;

    /// Get the fragment at index `pos`.
    ///
    /// Past the last fragment the result is `None`, and `pos` is lowered by
    /// the number of fragments of this value, so that it indexes what
    /// follows this value in a larger one.
    fn encode_at(&self, pos: &mut usize) -> (r: Option<Bytes>)
        requires
            self.encodable(),
        ensures
            *old(pos) < self.fragments().len() ==> r is Some && octets(r.unwrap())
                == self.fragments()[*old(pos) as int] && *final(pos) == *old(pos),
            *old(pos) >= self.fragments().len() ==> r is None && *final(pos) == *old(pos)
                - self.fragments().len(),
    ;

    /// Whether the value can be written.
    fn is_encodable(&self) -> (r: bool)
        ensures
            r == self.encodable(),
    ;

    /// The number of bytes of all fragments together.
    fn encoded_len(&self) -> (n: usize)
        requires
            self.encodable(),
        ensures
            n == self.fragments().flatten().len(),
    ;
}

/// The fragments of each item of `items`, one item after the other.
pub open spec fn fragments_of_each<T: EncodeAt>(items: Seq<T>) -> Seq<Seq<u8>> {
    items.map_values(|t: T| t.fragments()).flatten()
}

/// Get the fragment at index `pos` of the items of `items`, taken one
/// after the other.
///
/// Past the last fragment the result is `None`, and `pos` is lowered by
/// the number of fragments of all items.
pub fn encode_at_each<T: EncodeAt>(items: &Vec<T>, pos: &mut usize) -> (r: Option<Bytes>)
    requires
        forall|i: int| 0 <= i < items@.len() ==> (#[trigger] items@[i]).encodable(),
    ensures
        *old(pos) < fragments_of_each(items@).len() ==> r is Some && octets(r.unwrap())
            == fragments_of_each(items@)[*old(pos) as int] && *final(pos) == *old(pos),
        *old(pos) >= fragments_of_each(items@).len() ==> r is None && *final(pos) == *old(pos)
            - fragments_of_each(items@).len(),
{
    let ghost each = items@.map_values(|t: T| t.fragments());
    let mut p = *pos;
    let mut i: usize = 0;
    proof {
        assert(each.take(0).flatten() =~= Seq::<Seq<u8>>::empty());
    }
    while i < items.len()
        invariant
            i <= items.len(),
            each == items@.map_values(|t: T| t.fragments()),
            forall|i: int| 0 <= i < items@.len() ==> (#[trigger] items@[i]).encodable(),
            p + each.take(i as int).flatten().len() == *old(pos),
            *pos == *old(pos),
        decreases items.len() - i,
    {
        let ghost before = p;
        let r = items[i].encode_at(&mut p);
        proof {
            lemma_flatten_take_step(each, i as int);
            lemma_flatten_split(each, i as int + 1);
        }
        if r.is_some() {
            return r;
        }
        i += 1;
    }
    proof {
        assert(each.take(i as int) == each);
    }
    *pos = p;
    None
}

/// The number of bytes of `before` bytes and all fragments of all items
/// of `items` together, where every item can be written and that number
/// can be counted.
pub fn encoded_len_each<T: EncodeAt>(items: &Vec<T>, before: usize) -> (r: Option<usize>)
    ensures
        r is Some <==> {
            &&& forall|i: int| 0 <= i < items@.len() ==> (#[trigger] items@[i]).encodable()
            &&& before + fragments_of_each(items@).flatten().len() <= usize::MAX
        },
        r is Some ==> r.unwrap() == before + fragments_of_each(items@).flatten().len(),
{
    let ghost each = items@.map_values(|t: T| t.fragments());
    let ghost lens = each.map_values(|x: Seq<Seq<u8>>| x.flatten()).map_values(
        |x: Seq<u8>| x.len(),
    );
    let mut n: usize = before;
    let mut i: usize = 0;
    proof {
        lemma_flatten_twice(each);
        lemma_flatten_len(each.map_values(|x: Seq<Seq<u8>>| x.flatten()));
    }
    while i < items.len()
        invariant
            i <= items.len(),
            each == items@.map_values(|t: T| t.fragments()),
            lens == each.map_values(|x: Seq<Seq<u8>>| x.flatten()).map_values(
                |x: Seq<u8>| x.len(),
            ),
            fragments_of_each(items@).flatten().len() == total(lens),
            forall|j: int| 0 <= j < i ==> (#[trigger] items@[j]).encodable(),
            n == before + total(lens.take(i as int)),
        decreases items.len() - i,
    {
        proof {
            lemma_total_take_step(lens, i as int);
            lemma_total_take_le(lens, i as int + 1);
        }
        if !items[i].is_encodable() {
            return None;
        }
        n = match n.checked_add(items[i].encoded_len()) {
            Some(n) => n,
            None => { return None; },
        };
        i += 1;
    }
    proof {
        assert(lens.take(i as int) == lens);
    }
    Some(n)
}

/// A value that is written as the pieces it is made of, one fragment for
/// each piece.
#[derive(Debug, Clone, PartialEq)]
pub struct Pieces {
    pieces: Vec<Bytes>,
}

/// The lengths of the pieces of `pieces`.
pub open spec fn piece_lens(pieces: Seq<Seq<u8>>) -> Seq<nat> {
    pieces.map_values(|piece: Seq<u8>| piece.len())
}

impl View for Pieces {
    type V = Seq<Seq<u8>>;

    closed spec fn view(&self) -> Seq<Seq<u8>> {
        self.pieces@.map_values(|piece: Bytes| octets(piece))
    }
}

impl Pieces {
    /// A value made of these pieces.
    pub fn new(pieces: Vec<Bytes>) -> (p: Pieces)
        ensures
            p@ == pieces@.map_values(|piece: Bytes| octets(piece)),
    {
        Pieces { pieces }
    }

    /// Create an [encoder][ImageEncoder] for these pieces
    pub fn encoder(self) -> (e: ImageEncoder<Pieces>)
        requires
            self@.flatten().len() <= usize::MAX,
        ensures
            e.remaining() == self@,
    {
        ImageEncoder::new(self)
    }
}

impl EncodeAt for Pieces {
    open spec fn fragments(&self) -> Seq<Seq<u8>> {
        self@
    }

    open spec fn encodable(&self) -> bool {
        self@.flatten().len() <= usize::MAX
    }

    proof fn lemma_encodable_bounds(&self) {
        broadcast use vstd::std_specs::vec::axiom_spec_len;

        assert(self.pieces.len() == self@.len());
    }

    fn encode_at(&self, pos: &mut usize) -> (r: Option<Bytes>) {
        if *pos < self.pieces.len() {
            Some(self.pieces[*pos].clone())
        } else {
            *pos = *pos - self.pieces.len();
            None
        }
    }

    fn is_encodable(&self) -> (r: bool) {
        let ghost lens = piece_lens(self@);
        let mut n: usize = 0;
        let mut i: usize = 0;
        proof {
            lemma_flatten_len(self@);
        }
        while i < self.pieces.len()
            invariant
                i <= self.pieces.len(),
                lens == piece_lens(self@),
                self@.flatten().len() == total(lens),
                n == total(lens.take(i as int)),
            decreases self.pieces.len() - i,
        {
            proof {
                lemma_total_take_step(lens, i as int);
                lemma_total_take_le(lens, i as int + 1);
            }
            n = match n.checked_add(self.pieces[i].len()) {
                Some(n) => n,
                None => { return false; },
            };
            i += 1;
        }
        assert(lens.take(i as int) == lens);
        true
    }

    fn encoded_len(&self) -> (n: usize) {
        let ghost lens = piece_lens(self@);
        let mut n: usize = 0;
        let mut i: usize = 0;
        proof {
            lemma_flatten_len(self@);
        }
        while i < self.pieces.len()
            invariant
                i <= self.pieces.len(),
                lens == piece_lens(self@),
                total(lens) <= usize::MAX,
                n == total(lens.take(i as int)),
            decreases self.pieces.len() - i,
        {
            proof {
                lemma_total_take_step(lens, i as int);
                lemma_total_take_le(lens, i as int + 1);
            }
            n = n + self.pieces[i].len();
            i += 1;
        }
        assert(lens.take(i as int) == lens);
        n
    }
}

/// An encoder for the binary representation of an image: it yields the
/// fragments of the inner value one after the other.
#[derive(Debug)]
#[must_use]
pub struct ImageEncoder<I: EncodeAt> {
    inner: I,
    pos: usize,
}

impl<I: EncodeAt> ImageEncoder<I> {
    #[verifier::type_invariant]
    spec fn inv(self) -> bool {
        self.inner.encodable() && self.pos <= self.inner.fragments().len()
    }

    /// The fragments that have not been yielded yet.
    pub closed spec fn remaining(&self) -> Seq<Seq<u8>> {
        self.inner.fragments().skip(self.pos as int)
    }

    /// Start encoding `inner` at its first fragment.
    pub fn new(inner: I) -> (e: Self)
        requires
            inner.encodable(),
        ensures
            e.remaining() == inner.fragments(),
    {
        ImageEncoder { inner, pos: 0 }
    }

    /// Yield the next fragment, or `None` once all have been yielded.
    pub fn next(&mut self) -> (r: Option<Bytes>)
        ensures
            old(self).remaining().len() == 0 ==> r is None && final(self).remaining() == old(
                self,
            ).remaining(),
            old(self).remaining().len() > 0 ==> r is Some && octets(r.unwrap()) == old(
                self,
            ).remaining()[0] && final(self).remaining() == old(self).remaining().skip(1),
    {
        proof {
            use_type_invariant(&*self);
            self.inner.lemma_encodable_bounds();
        }
        let mut pos = self.pos;
        let item = self.inner.encode_at(&mut pos);
        if item.is_some() {
            self.pos += 1;
            assert(final(self).remaining() =~= old(self).remaining().skip(1));
        }
        item
    }

    /// Turns this `ImageEncoder` into a reader that never fails
    pub fn read(self) -> (r: ImageEncoderReader<I>)
        ensures
            r.buffered() == Seq::<u8>::empty(),
            r.remaining() == self.remaining(),
    {
        ImageEncoderReader::new(self)
    }

    /// Copy the fragments that are left into one linear piece of memory.
    ///
    /// If possible [`write_to`][Self::write_to] should be used instead,
    /// since it avoids a second copy of the image in memory.
    pub fn bytes(self) -> (b: Bytes)
        ensures
            octets(b) == self.remaining().flatten(),
    {
        proof {
            use_type_invariant(&self);
        }
        let mut this = self;
        let mut out = BytesMut::with_capacity(this.inner.encoded_len());
        loop
            invariant
                written(out) + this.remaining().flatten() == self.remaining().flatten(),
            ensures
                written(out) == self.remaining().flatten(),
            decreases this.remaining().len(),
        {
            let ghost before = this.remaining();
            match this.next() {
                Some(piece) => {
                    out.extend_from_slice(as_slice(&piece));
                    assert(before.flatten() == before[0] + before.skip(1).flatten()) by {
                        assert(before.drop_first() == before.skip(1));
                    }
                },
                None => {
                    assert(this.remaining().flatten() =~= Seq::<u8>::empty());
                    break ;
                },
            }
        }
        out.freeze()
    }

    /// Append the fragments that are left to `writer`.
    ///
    /// Returns the number of bytes written.
    pub fn write_to(self, writer: &mut Vec<u8>) -> (r: Result<u64, Error>)
        ensures
            final(writer)@ == old(writer)@ + self.remaining().flatten(),
            r == Ok::<u64, Error>(self.remaining().flatten().len() as u64),
    {
        let mut this = self;
        let start = writer.len();
        loop
            invariant
                writer@ + this.remaining().flatten() == old(writer)@ + self.remaining().flatten(),
                start == old(writer)@.len(),
            ensures
                writer@ == old(writer)@ + self.remaining().flatten(),
                start == old(writer)@.len(),
            decreases this.remaining().len(),
        {
            let ghost before = this.remaining();
            match this.next() {
                Some(piece) => {
                    writer.extend_from_slice(as_slice(&piece));
                    assert(before.flatten() == before[0] + before.skip(1).flatten()) by {
                        assert(before.drop_first() == before.skip(1));
                    }
                },
                None => {
                    assert(this.remaining().flatten() =~= Seq::<u8>::empty());
                    break ;
                },
            }
        }
        Ok((writer.len() - start) as u64)
    }
}

} // verus!
