//! Reading the encoded image into buffers of any size.

use super::{EncodeAt, ImageEncoder};
use crate::buf::{as_slice, octets};
use crate::error::Error;
use bytes::Bytes;
use vstd::prelude::*;

verus! {

/// A reader for `ImageEncoder` that never fails: it hands out the bytes
/// of one fragment after the other.
///
/// This struct is created by the [`read`][ImageEncoder::read] method on
/// [`ImageEncoder`][ImageEncoder]
#[derive(Debug)]
pub struct ImageEncoderReader<I: EncodeAt> {
    inner: ImageEncoder<I>,
    buf: Bytes,
}

/// The bytes that a read draws on: what is left of the fragment that was
/// read last or, where nothing is left of it and bytes are asked for, the
/// next fragment, if there is one.
pub open spec fn read_source(buffered: Seq<u8>, remaining: Seq<Seq<u8>>, asked: nat) -> Seq<u8> {
    if buffered.len() > 0 || asked == 0 || remaining.len() == 0 {
        buffered
    } else {
        remaining[0]
    }
}

/// The fragments that are left after a read.
pub open spec fn read_remaining(buffered: Seq<u8>, remaining: Seq<Seq<u8>>, asked: nat) -> Seq<
    Seq<u8>,
> {
    if buffered.len() > 0 || asked == 0 || remaining.len() == 0 {
        remaining
    } else {
        remaining.skip(1)
    }
}

/// The number of bytes that a read hands out: as many as are asked for,
/// but no more than its source holds.
pub open spec fn read_count(source: Seq<u8>, asked: nat) -> nat {
    if asked > source.len() {
        source.len()
    } else {
        asked
    }
}

impl<I: EncodeAt> ImageEncoderReader<I> {
    /// What is left of the fragment that was read last.
    pub closed spec fn buffered(&self) -> Seq<u8> {
        octets(self.buf)
    }

    /// The fragments that have not been read yet.
    pub closed spec fn remaining(&self) -> Seq<Seq<u8>> {
        self.inner.remaining()
    }

    /// A reader of the fragments that `encoder` has left.
    pub fn new(encoder: ImageEncoder<I>) -> (r: Self)
        ensures
            r.buffered() == Seq::<u8>::empty(),
            r.remaining() == encoder.remaining(),
    {
        ImageEncoderReader { inner: encoder, buf: Bytes::new() }
    }

    /// Read bytes into the front of `buf`, and return their number.
    ///
    /// The bytes come from one fragment: from what is left of the one
    /// that was read last, else from the next. Nothing is read into an
    /// empty `buf`, nor once all fragments have been read.
    pub fn read(&mut self, buf: &mut [u8]) -> (r: Result<usize, Error>)
        ensures
            r == Ok::<usize, Error>(
                read_count(
                    read_source(old(self).buffered(), old(self).remaining(), old(buf)@.len()),
                    old(buf)@.len(),
                ) as usize,
            ),
            final(buf)@ == read_source(
                old(self).buffered(),
                old(self).remaining(),
                old(buf)@.len(),
            ).take(r.unwrap() as int) + old(buf)@.skip(r.unwrap() as int),
            final(self).buffered() == read_source(
                old(self).buffered(),
                old(self).remaining(),
                old(buf)@.len(),
            ).skip(r.unwrap() as int),
            final(self).remaining() == read_remaining(
                old(self).buffered(),
                old(self).remaining(),
                old(buf)@.len(),
            ),
    {
        let ghost source = read_source(old(self).buffered(), old(self).remaining(), old(buf)@.len());
        if buf.len() == 0 {
            assert(source.take(0) + buf@.skip(0) =~= buf@);
            assert(source.skip(0) =~= source);
            return Ok(0);
        }
        if self.buf.len() == 0 {
            match self.inner.next() {
                Some(next) => {
                    self.buf = next;
                },
                None => {
                    assert(source.take(0) + buf@.skip(0) =~= buf@);
                    assert(source.skip(0) =~= source);
                    return Ok(0);
                },
            }
        }
        let len = if buf.len() > self.buf.len() {
            self.buf.len()
        } else {
            buf.len()
        };
        let to_read = self.buf.split_to(len);
        let bytes = as_slice(&to_read);
        let mut i: usize = 0;
        while i < len
            invariant
                i <= len,
                len == bytes@.len(),
                len <= buf@.len(),
                buf@.len() == old(buf)@.len(),
                buf@ =~= bytes@.take(i as int) + old(buf)@.skip(i as int),
            decreases len - i,
        {
            buf[i] = bytes[i];
            i += 1;
        }
        Ok(len)
    }
}

} // verus!
