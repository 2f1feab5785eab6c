//! The shared byte buffers that every container is made of, and the
//! contracts under which this library calls them.
//!
//! `Bytes` and `BytesMut` come from the `bytes` crate. The contracts of
//! their functions are not proved here: each restates what that crate
//! documents of the function it is written for. What the library proves
//! of the numbers that bytes spell stands beside them.

use bytes::{Buf, BufMut, Bytes, BytesMut};
use vstd::prelude::*;

verus! {

/// `bytes::Bytes`: a shared, immutable buffer of bytes. Nothing is known
/// of a value but what the functions below say of it.
#[verifier::external_type_specification]
#[verifier::external_body]
pub struct ExBytes(Bytes);

/// `bytes::BytesMut`: a buffer of bytes that grows as bytes are written
/// to it.
#[verifier::external_type_specification]
#[verifier::external_body]
pub struct ExBytesMut(BytesMut);

/// The bytes that a `Bytes` holds, first to last.
pub uninterp spec fn octets(b: Bytes) -> Seq<u8>;

/// The bytes that a `BytesMut` holds, first to last.
pub uninterp spec fn written(b: BytesMut) -> Seq<u8>;

/// The number that two bytes spell, most significant byte first.
pub open spec fn u16_from_be(s: Seq<u8>) -> int {
    s[0] as int * 0x100 + s[1] as int
}

/// The number that two bytes spell, least significant byte first.
pub open spec fn u16_from_le(s: Seq<u8>) -> int {
    s[0] as int + s[1] as int * 0x100
}

/// The number that three bytes spell, least significant byte first.
pub open spec fn u24_from_le(s: Seq<u8>) -> int {
    s[0] as int + s[1] as int * 0x100 + s[2] as int * 0x1_0000
}

/// The number that four bytes spell, most significant byte first.
pub open spec fn u32_from_be(s: Seq<u8>) -> int {
    s[0] as int * 0x100_0000 + s[1] as int * 0x1_0000 + s[2] as int * 0x100 + s[3] as int
}

/// The number that four bytes spell, least significant byte first.
pub open spec fn u32_from_le(s: Seq<u8>) -> int {
    s[0] as int + s[1] as int * 0x100 + s[2] as int * 0x1_0000 + s[3] as int * 0x100_0000
}

/// The two bytes of `n`, most significant first.
#[verifier::opaque]
pub open spec fn be16(n: int) -> Seq<u8> {
    seq![((n / 0x100) % 0x100) as u8, (n % 0x100) as u8]
}

/// The three low bytes of `n`, least significant first.
#[verifier::opaque]
pub open spec fn le24(n: int) -> Seq<u8> {
    seq![(n % 0x100) as u8, ((n / 0x100) % 0x100) as u8, ((n / 0x1_0000) % 0x100) as u8]
}

/// The four bytes of `n`, most significant first.
#[verifier::opaque]
pub open spec fn be32(n: int) -> Seq<u8> {
    seq![
        ((n / 0x100_0000) % 0x100) as u8,
        ((n / 0x1_0000) % 0x100) as u8,
        ((n / 0x100) % 0x100) as u8,
        (n % 0x100) as u8,
    ]
}

/// The four bytes of `n`, least significant first.
#[verifier::opaque]
pub open spec fn le32(n: int) -> Seq<u8> {
    seq![
        (n % 0x100) as u8,
        ((n / 0x100) % 0x100) as u8,
        ((n / 0x1_0000) % 0x100) as u8,
        ((n / 0x100_0000) % 0x100) as u8,
    ]
}

/// A number below 2^32 is the sum of its four bytes, each at its place.
proof fn lemma_four_bytes_of(n: u64)
    requires
        n < 0x1_0000_0000,
    ensures
        n == (n % 0x100) + 0x100 * ((n / 0x100) % 0x100) + 0x1_0000 * ((n / 0x1_0000) % 0x100)
            + 0x100_0000 * ((n / 0x100_0000) % 0x100),
{
    assert(n < 0x1_0000_0000 ==> n == (n % 0x100) + 0x100 * ((n / 0x100) % 0x100) + 0x1_0000 * ((n
        / 0x1_0000) % 0x100) + 0x100_0000 * ((n / 0x100_0000) % 0x100)) by (bit_vector);
}

/// The four bytes of a sum of four bytes, each at its place, are these
/// bytes.
proof fn lemma_four_bytes_at(a: u64, b: u64, c: u64, d: u64)
    requires
        a < 0x100,
        b < 0x100,
        c < 0x100,
        d < 0x100,
    ensures
        (a + 0x100 * b + 0x1_0000 * c + 0x100_0000 * d) % 0x100 == a,
        ((a + 0x100 * b + 0x1_0000 * c + 0x100_0000 * d) / 0x100) % 0x100 == b,
        ((a + 0x100 * b + 0x1_0000 * c + 0x100_0000 * d) / 0x1_0000) % 0x100 == c,
        ((a + 0x100 * b + 0x1_0000 * c + 0x100_0000 * d) / 0x100_0000) % 0x100 == d,
        a + 0x100 * b + 0x1_0000 * c + 0x100_0000 * d < 0x1_0000_0000,
{
    assert(a < 0x100 && b < 0x100 && c < 0x100 && d < 0x100 ==> {
        &&& (a + 0x100 * b + 0x1_0000 * c + 0x100_0000 * d) % 0x100 == a
        &&& ((a + 0x100 * b + 0x1_0000 * c + 0x100_0000 * d) / 0x100) % 0x100 == b
        &&& ((a + 0x100 * b + 0x1_0000 * c + 0x100_0000 * d) / 0x1_0000) % 0x100 == c
        &&& ((a + 0x100 * b + 0x1_0000 * c + 0x100_0000 * d) / 0x100_0000) % 0x100 == d
        &&& a + 0x100 * b + 0x1_0000 * c + 0x100_0000 * d < 0x1_0000_0000
    }) by (bit_vector);
}

/// The two bytes of a number spell that number, and the number that two
/// bytes spell has those bytes.
pub proof fn lemma_be16(n: int, s: Seq<u8>)
    ensures
        be16(n).len() == 2,
        0 <= n < 0x1_0000 ==> u16_from_be(be16(n)) == n,
        s.len() >= 2 ==> 0 <= u16_from_be(s) < 0x1_0000 && be16(u16_from_be(s)) == s.take(2),
{
    reveal(be16);
    if 0 <= n < 0x1_0000 {
        lemma_four_bytes_of(n as u64);
    }
    if s.len() >= 2 {
        lemma_four_bytes_at(s[1] as u64, s[0] as u64, 0, 0);
        assert(be16(u16_from_be(s)) =~= s.take(2));
    }
}

/// The four bytes of a number, most significant first, spell that number,
/// and the number that four bytes spell has those bytes.
pub proof fn lemma_be32(n: int, s: Seq<u8>)
    ensures
        be32(n).len() == 4,
        0 <= n < 0x1_0000_0000 ==> u32_from_be(be32(n)) == n,
        s.len() >= 4 ==> 0 <= u32_from_be(s) < 0x1_0000_0000 && be32(u32_from_be(s)) == s.take(4),
{
    reveal(be32);
    if 0 <= n < 0x1_0000_0000 {
        lemma_four_bytes_of(n as u64);
    }
    if s.len() >= 4 {
        lemma_four_bytes_at(s[3] as u64, s[2] as u64, s[1] as u64, s[0] as u64);
        assert(be32(u32_from_be(s)) =~= s.take(4));
    }
}

/// The four bytes of a number, least significant first, spell that
/// number, and the number that four bytes spell has those bytes.
pub proof fn lemma_le32(n: int, s: Seq<u8>)
    ensures
        le32(n).len() == 4,
        0 <= n < 0x1_0000_0000 ==> u32_from_le(le32(n)) == n,
        s.len() >= 4 ==> 0 <= u32_from_le(s) < 0x1_0000_0000 && le32(u32_from_le(s)) == s.take(4),
{
    reveal(le32);
    if 0 <= n < 0x1_0000_0000 {
        lemma_four_bytes_of(n as u64);
    }
    if s.len() >= 4 {
        lemma_four_bytes_at(s[0] as u64, s[1] as u64, s[2] as u64, s[3] as u64);
        assert(le32(u32_from_le(s)) =~= s.take(4));
    }
}

/// The three low bytes of a number below 2^24 spell that number.
pub proof fn lemma_le24(n: int)
    ensures
        le24(n).len() == 3,
        0 <= n < 0x100_0000 ==> u24_from_le(le24(n)) == n,
{
    reveal(le24);
    if 0 <= n < 0x100_0000 {
        lemma_four_bytes_of(n as u64);
        assert((n as u64 / 0x100_0000) % 0x100 == 0);
    }
}

/// `Bytes::new`: an empty buffer.
pub assume_specification[ Bytes::new ]() -> (b: Bytes)
    ensures
        octets(b) == Seq::<u8>::empty(),
;

/// `Bytes::len`: the number of bytes held.
pub assume_specification[ Bytes::len ](b: &Bytes) -> (n: usize)
    ensures
        n == octets(*b).len(),
;

/// `Bytes::clone`: another handle on the same bytes.
pub assume_specification[ <Bytes as Clone>::clone ](b: &Bytes) -> (r: Bytes)
    ensures
        octets(r) == octets(*b),
;

/// `Bytes::split_to`: hands out the first `at` bytes and keeps the rest.
/// The crate panics when `at` exceeds the length.
pub assume_specification[ Bytes::split_to ](b: &mut Bytes, at: usize) -> (head: Bytes)
    requires
        at <= octets(*old(b)).len(),
    ensures
        octets(head) == octets(*old(b)).take(at as int),
        octets(*final(b)) == octets(*old(b)).skip(at as int),
;

/// `Bytes::copy_from_slice`: a new buffer with a copy of `data`.
pub assume_specification[ Bytes::copy_from_slice ](data: &[u8]) -> (b: Bytes)
    ensures
        octets(b) == data@,
;

/// `Bytes::from` on a `Vec<u8>`: a buffer that holds the vector's bytes.
#[verifier::external_body]
pub(crate) fn from_vec(v: Vec<u8>) -> (b: Bytes)
    ensures
        octets(b) == v@,
{
    Bytes::from(v)
}

/// `Bytes::as_ref`: the bytes held, as a slice.
#[verifier::external_body]
pub(crate) fn as_slice(b: &Bytes) -> (s: &[u8])
    ensures
        s@ == octets(*b),
{
    b.as_ref()
}

/// `Bytes::slice` on the range `start..end`: a handle on that part of the
/// buffer. The crate panics unless `start <= end <= len`.
#[verifier::external_body]
pub(crate) fn slice(b: &Bytes, start: usize, end: usize) -> (r: Bytes)
    requires
        start <= end <= octets(*b).len(),
    ensures
        octets(r) == octets(*b).subrange(start as int, end as int),
{
    b.slice(start..end)
}

/// `Buf::get_u8` on a `Bytes`: takes the first byte off the buffer. The
/// crate panics on an empty buffer.
#[verifier::external_body]
pub(crate) fn get_u8(b: &mut Bytes) -> (v: u8)
    requires
        octets(*old(b)).len() >= 1,
    ensures
        v == octets(*old(b))[0],
        octets(*final(b)) == octets(*old(b)).skip(1),
{
    b.get_u8()
}

/// `Buf::get_u16` on a `Bytes`: takes two bytes off the buffer and reads
/// them as a big-endian number. The crate panics on fewer than two bytes.
#[verifier::external_body]
pub(crate) fn get_u16(b: &mut Bytes) -> (v: u16)
    requires
        octets(*old(b)).len() >= 2,
    ensures
        v == u16_from_be(octets(*old(b))),
        octets(*final(b)) == octets(*old(b)).skip(2),
{
    b.get_u16()
}

/// `Buf::get_u32` on a `Bytes`: takes four bytes off the buffer and reads
/// them as a big-endian number. The crate panics on fewer than four bytes.
#[verifier::external_body]
pub(crate) fn get_u32(b: &mut Bytes) -> (v: u32)
    requires
        octets(*old(b)).len() >= 4,
    ensures
        v == u32_from_be(octets(*old(b))),
        octets(*final(b)) == octets(*old(b)).skip(4),
{
    b.get_u32()
}

/// `Buf::get_u32_le` on a `Bytes`: takes four bytes off the buffer and
/// reads them as a little-endian number. The crate panics on fewer than
/// four bytes.
#[verifier::external_body]
pub(crate) fn get_u32_le(b: &mut Bytes) -> (v: u32)
    requires
        octets(*old(b)).len() >= 4,
    ensures
        v == u32_from_le(octets(*old(b))),
        octets(*final(b)) == octets(*old(b)).skip(4),
{
    b.get_u32_le()
}

/// `Buf::copy_to_slice` on a `Bytes`, into a fresh array: takes `N` bytes
/// off the buffer. The crate panics on fewer than `N` bytes.
#[verifier::external_body]
pub(crate) fn get_array<const N: usize>(b: &mut Bytes) -> (a: [u8; N])
    requires
        octets(*old(b)).len() >= N,
    ensures
        a@ == octets(*old(b)).take(N as int),
        octets(*final(b)) == octets(*old(b)).skip(N as int),
{
    let mut a = [0u8; N];
    b.copy_to_slice(&mut a);
    a
}

/// `BytesMut::with_capacity`: an empty buffer.
pub assume_specification[ BytesMut::with_capacity ](capacity: usize) -> (b: BytesMut)
    ensures
        written(b) == Seq::<u8>::empty(),
;

/// `BytesMut::extend_from_slice`: appends the bytes of `extend`.
pub assume_specification[ BytesMut::extend_from_slice ](b: &mut BytesMut, extend: &[u8])
    ensures
        written(*final(b)) == written(*old(b)) + extend@,
;

/// `BytesMut::freeze`: the bytes written, as an immutable buffer.
pub assume_specification[ BytesMut::freeze ](b: BytesMut) -> (r: Bytes)
    ensures
        octets(r) == written(b),
;

/// `BufMut::put_u8` on a `BytesMut`: appends one byte.
#[verifier::external_body]
pub(crate) fn put_u8(b: &mut BytesMut, n: u8)
    ensures
        written(*final(b)) == written(*old(b)).push(n),
{
    b.put_u8(n)
}

/// `BufMut::put_u16` on a `BytesMut`: appends the two bytes of `n`, most
/// significant first.
#[verifier::external_body]
pub(crate) fn put_u16(b: &mut BytesMut, n: u16)
    ensures
        written(*final(b)) == written(*old(b)) + be16(n as int),
{
    b.put_u16(n)
}

/// `BufMut::put_u32` on a `BytesMut`: appends the four bytes of `n`, most
/// significant first.
#[verifier::external_body]
pub(crate) fn put_u32(b: &mut BytesMut, n: u32)
    ensures
        written(*final(b)) == written(*old(b)) + be32(n as int),
{
    b.put_u32(n)
}

/// `BufMut::put_u32_le` on a `BytesMut`: appends the four bytes of `n`,
/// least significant first.
#[verifier::external_body]
pub(crate) fn put_u32_le(b: &mut BytesMut, n: u32)
    ensures
        written(*final(b)) == written(*old(b)) + le32(n as int),
{
    b.put_u32_le(n)
}

} // verus!
