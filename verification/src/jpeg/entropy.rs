//! The entropy-coded data of a scan, up to the end-of-image marker.

use super::markers;
use crate::error::Error;
use vstd::prelude::*;

verus! {

/// The entropy-coded data that follows a scan header, without the
/// end-of-image marker that ends it.
#[derive(Debug, Clone, PartialEq)]
pub struct Entropy {
    raw: Vec<u8>,
}

/// Where the entropy-coded data that is read from `s` ends, reading on
/// from the index `i`: at the first byte `P` that the end-of-image marker
/// follows. A byte `P` that another byte follows is data together with
/// that byte. There is no end where `s` ends first.
pub open spec fn entropy_end(s: Seq<u8>, i: int) -> Option<int>
    decreases s.len() - i,
{
    if i < 0 || i >= s.len() {
        None
    } else if s[i] != markers::P {
        entropy_end(s, i + 1)
    } else if i + 1 >= s.len() {
        None
    } else if s[i + 1] == markers::EOI {
        Some(i)
    } else {
        entropy_end(s, i + 2)
    }
}

/// Reads entropy-coded data byte by byte, as the bytes come in.
///
/// The scanner collects the data; a byte `P` is held back until the next
/// byte shows whether the two are the end-of-image marker or data.
#[derive(Debug, Clone, PartialEq)]
pub struct EntropyScanner {
    raw: Vec<u8>,
    held: bool,
}

impl EntropyScanner {
    /// The data that has been collected.
    pub closed spec fn collected(&self) -> Seq<u8> {
        self.raw@
    }

    /// Whether a byte `P` is held back.
    pub closed spec fn holds_marker(&self) -> bool {
        self.held
    }

    /// A scanner that has been fed nothing.
    pub fn new() -> (s: EntropyScanner)
        ensures
            s.collected() == Seq::<u8>::empty(),
            !s.holds_marker(),
    {
        EntropyScanner { raw: Vec::new(), held: false }
    }

    /// Feed the next byte, and learn whether the data has ended with it.
    ///
    /// A byte other than `P` is data. A byte `P` is held back: the
    /// end-of-image marker behind it ends the data, and any other byte is
    /// data together with it.
    pub fn feed(&mut self, byte: u8) -> (done: bool)
        ensures
            done == (old(self).holds_marker() && byte == markers::EOI),
            final(self).holds_marker() == (!old(self).holds_marker() && byte == markers::P),
            final(self).collected() == if old(self).holds_marker() {
                if byte == markers::EOI {
                    old(self).collected()
                } else {
                    old(self).collected().push(markers::P).push(byte)
                }
            } else if byte == markers::P {
                old(self).collected()
            } else {
                old(self).collected().push(byte)
            },
    {
        if self.held {
            self.held = false;
            if byte == markers::EOI {
                return true;
            }
            self.raw.push(markers::P);
            self.raw.push(byte);
        } else if byte == markers::P {
            self.held = true;
        } else {
            self.raw.push(byte);
        }
        false
    }

    /// The data that has been collected.
    pub fn finish(self) -> (e: Entropy)
        ensures
            e@ == self.collected(),
    {
        Entropy { raw: self.raw }
    }
}

impl View for Entropy {
    type V = Seq<u8>;

    closed spec fn view(&self) -> Seq<u8> {
        self.raw@
    }
}

impl Entropy {
    /// Entropy-coded data of these bytes.
    pub fn new(raw: Vec<u8>) -> (e: Entropy)
        ensures
            e@ == raw@,
    {
        Entropy { raw }
    }

    /// Read entropy-coded data from the front of `input`, up to the
    /// end-of-image marker.
    ///
    /// # Errors
    ///
    /// Fails with [`Error::Truncated`] if `input` ends before the data
    /// does.
    pub fn read(input: &[u8]) -> (r: Result<Entropy, Error>)
        ensures
            match entropy_end(input@, 0) {
                Some(end) => r is Ok && r.unwrap()@ == input@.take(end),
                None => r == Err::<Entropy, Error>(Error::Truncated),
            },
    {
        let mut scanner = EntropyScanner::new();
        let mut i: usize = 0;
        assert(input@.take(0) =~= Seq::<u8>::empty());
        while i < input.len()
            invariant
                i <= input.len(),
                scanner.holds_marker() ==> i >= 1 && input@[i - 1] == markers::P,
                scanner.collected() == input@.take(
                    if scanner.holds_marker() {
                        i - 1
                    } else {
                        i as int
                    },
                ),
                entropy_end(input@, 0) == entropy_end(
                    input@,
                    if scanner.holds_marker() {
                        i - 1
                    } else {
                        i as int
                    },
                ),
            decreases input.len() - i,
        {
            let ghost before = scanner.collected();
            let ghost held = scanner.holds_marker();
            let done = scanner.feed(input[i]);
            if done {
                return Ok(scanner.finish());
            }
            i += 1;
            proof {
                if held {
                    assert(input@.take(i as int) =~= before.push(markers::P).push(input@[i - 1]));
                } else if input@[i - 1] != markers::P {
                    assert(input@.take(i as int) =~= before.push(input@[i - 1]));
                }
            }
        }
        Err(Error::Truncated)
    }

    /// Get the bytes of the data.
    pub fn raw(&self) -> (r: &Vec<u8>)
        ensures
            r@ == self@,
    {
        &self.raw
    }

    /// Get the size of the data once it is encoded: its bytes and the
    /// end-of-image marker (2 bytes).
    pub fn len(&self) -> (n: usize)
        requires
            self@.len() + 2 <= usize::MAX,
        ensures
            n == self@.len() + 2,
    {
        self.raw.len() + 2
    }

    /// Append the data and the end-of-image marker to `w`.
    pub fn write_to(&self, w: &mut Vec<u8>) -> (r: Result<(), Error>)
        ensures
            r is Ok,
            final(w)@ == old(w)@ + self@ + seq![markers::P, markers::EOI],
    {
        w.extend_from_slice(self.raw.as_slice());
        w.push(markers::P);
        w.push(markers::EOI);
        assert(w@ =~= old(w)@ + self@ + seq![markers::P, markers::EOI]);
        Ok(())
    }
}

/// Entropy-coded data with its bytes stuffed: behind every byte `P` of
/// the data stands a byte `Z`, so that no marker is found in it.
pub open spec fn stuffed(data: Seq<u8>) -> Seq<u8>
    decreases data.len(),
{
    if data.len() == 0 {
        Seq::empty()
    } else if data.last() == markers::P {
        stuffed(data.drop_last()).push(markers::P).push(markers::Z)
    } else {
        stuffed(data.drop_last()).push(data.last())
    }
}

/// Stuffed data without its stuffing, read on from the index `i`: a byte
/// `Z` behind a byte `P` is left out.
pub open spec fn unstuffed(s: Seq<u8>, i: int) -> Seq<u8>
    decreases s.len() - i,
{
    if i < 0 || i >= s.len() {
        Seq::empty()
    } else if s[i] == markers::P && i + 1 < s.len() && s[i + 1] == markers::Z {
        seq![markers::P] + unstuffed(s, i + 2)
    } else {
        seq![s[i]] + unstuffed(s, i + 1)
    }
}

/// Stuff the bytes of entropy-coded data: put a byte `Z` behind every
/// byte `P`.
pub fn stuff(data: &[u8]) -> (s: Vec<u8>)
    ensures
        s@ == stuffed(data@),
{
    let mut s: Vec<u8> = Vec::with_capacity(data.len());
    let mut i: usize = 0;
    assert(data@.take(0) =~= Seq::<u8>::empty());
    while i < data.len()
        invariant
            i <= data.len(),
            s@ == stuffed(data@.take(i as int)),
        decreases data.len() - i,
    {
        proof {
            assert(data@.take(i as int + 1).drop_last() == data@.take(i as int));
        }
        s.push(data[i]);
        if data[i] == markers::P {
            s.push(markers::Z);
        }
        i += 1;
    }
    assert(data@.take(i as int) == data@);
    s
}

/// Take the stuffing out of entropy-coded data: leave out every byte `Z`
/// that stands behind a byte `P`.
pub fn unstuff(s: &[u8]) -> (data: Vec<u8>)
    ensures
        data@ == unstuffed(s@, 0),
{
    let mut data: Vec<u8> = Vec::with_capacity(s.len());
    let mut i: usize = 0;
    while i < s.len()
        invariant
            i <= s.len(),
            data@ + unstuffed(s@, i as int) == unstuffed(s@, 0),
        decreases s.len() - i,
    {
        let ghost before = data@;
        data.push(s[i]);
        if s[i] == markers::P && s.len() - i > 1 && s[i + 1] == markers::Z {
            proof {
                assert(before.push(markers::P) + unstuffed(s@, i as int + 2) =~= before + unstuffed(
                    s@,
                    i as int,
                ));
            }
            i += 2;
        } else {
            proof {
                assert(before.push(s@[i as int]) + unstuffed(s@, i as int + 1) =~= before
                    + unstuffed(s@, i as int));
            }
            i += 1;
        }
    }
    assert(data@ + Seq::<u8>::empty() =~= data@);
    data
}

/// Stuffing is undone by unstuffing: data that was stuffed is, without
/// its stuffing, the data.
pub proof fn lemma_unstuff_stuffed(data: Seq<u8>)
    ensures
        unstuffed(stuffed(data), 0) == data,
{
    lemma_unstuffed_behind(data, Seq::empty());
    assert(stuffed(data) + Seq::<u8>::empty() =~= stuffed(data));
    assert(data + Seq::<u8>::empty() =~= data);
}

/// Stuffed data with bytes behind it is, without its stuffing, the data
/// and what these bytes are without theirs.
proof fn lemma_unstuffed_behind(data: Seq<u8>, rest: Seq<u8>)
    ensures
        unstuffed(stuffed(data) + rest, 0) == data + unstuffed(rest, 0),
    decreases data.len(),
{
    if data.len() == 0 {
        assert(stuffed(data) + rest =~= rest);
        assert(data + unstuffed(rest, 0) =~= unstuffed(rest, 0));
    } else {
        let front = data.drop_last();
        let last = data.last();
        let tail = if last == markers::P {
            seq![markers::P, markers::Z] + rest
        } else {
            seq![last] + rest
        };
        assert(stuffed(data) + rest =~= stuffed(front) + tail);
        lemma_unstuffed_behind(front, tail);
        lemma_unstuffed_from(rest, 0, 0);
        if last == markers::P {
            lemma_unstuffed_from(tail, 2, 0);
            assert(tail.skip(2) =~= rest);
        } else {
            lemma_unstuffed_from(tail, 1, 0);
            assert(tail.skip(1) =~= rest);
        }
        assert(unstuffed(tail, 0) =~= seq![last] + unstuffed(rest, 0));
        assert(front + (seq![last] + unstuffed(rest, 0)) =~= data + unstuffed(rest, 0));
    }
}

/// What bytes are without their stuffing from an index on is what the
/// bytes from that index are without theirs.
proof fn lemma_unstuffed_from(s: Seq<u8>, at: int, i: int)
    requires
        0 <= at <= s.len(),
        0 <= i,
    ensures
        unstuffed(s, at + i) == unstuffed(s.skip(at), i),
    decreases s.len() - at - i,
{
    let t = s.skip(at);
    if at + i < s.len() {
        assert(t[i] == s[at + i]);
        if i + 1 < t.len() {
            assert(t[i + 1] == s[at + i + 1]);
        }
        if s[at + i] == markers::P && at + i + 1 < s.len() && s[at + i + 1] == markers::Z {
            lemma_unstuffed_from(s, at, i + 2);
        } else {
            lemma_unstuffed_from(s, at, i + 1);
        }
    }
}

/// Data that holds no byte `P` is read back as it was written, whatever
/// follows the end-of-image marker.
pub proof fn lemma_entropy_round_trip(data: Seq<u8>, rest: Seq<u8>)
    requires
        forall|i: int| 0 <= i < data.len() ==> data[i] != markers::P,
    ensures
        entropy_end(data + seq![markers::P, markers::EOI] + rest, 0) == Some(data.len() as int),
{
    lemma_entropy_end_from(data, rest, 0);
}

/// Reading on from any place inside data that holds no byte `P` ends at
/// the end of the data.
proof fn lemma_entropy_end_from(data: Seq<u8>, rest: Seq<u8>, i: int)
    requires
        0 <= i <= data.len(),
        forall|i: int| 0 <= i < data.len() ==> data[i] != markers::P,
    ensures
        entropy_end(data + seq![markers::P, markers::EOI] + rest, i) == Some(data.len() as int),
    decreases data.len() - i,
{
    let s = data + seq![markers::P, markers::EOI] + rest;
    if i < data.len() {
        assert(s[i] == data[i]);
        lemma_entropy_end_from(data, rest, i + 1);
    } else {
        assert(s[i] == markers::P);
        assert(s[i + 1] == markers::EOI);
    }
}

} // verus!
