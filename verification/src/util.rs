//! Checked reads from the front of a buffer, and the 24-bit numbers of
//! the WebP headers.
//!
//! None of the reads panics: a buffer that is too short is left as it is
//! and the read fails with [`Error::Truncated`].

use crate::buf::{
    get_array, get_u16, get_u32, get_u32_le, get_u8, le24, octets, u16_from_be, u24_from_le,
    u32_from_be, u32_from_le,
};
use crate::error::Error;
use bytes::Bytes;
use vstd::prelude::*;

verus! {

/// What a checked read of `n` bytes leaves in the buffer: the bytes behind
/// the first `n` where there are that many, else all of them.
pub open spec fn after_read(before: Seq<u8>, n: int) -> Seq<u8> {
    if before.len() >= n {
        before.skip(n)
    } else {
        before
    }
}

/// Read a 24-bit little-endian number.
pub fn u24_from_le_bytes(b: [u8; 3]) -> (n: u32)
    ensures
        n == u24_from_le(b@),
{
    b[0] as u32 + (b[1] as u32) * 0x100 + (b[2] as u32) * 0x1_0000
}

/// Write the three low bytes of `n`, least significant first.
pub fn u24_to_le_bytes(n: u32) -> (b: [u8; 3])
    ensures
        b@ == le24(n as int),
{
    let b: [u8; 3] = [(n % 0x100) as u8, ((n / 0x100) % 0x100) as u8, ((n / 0x1_0000) % 0x100) as u8];
    assert(b@ =~= le24(n as int)) by {
        reveal(le24);
    }
    b
}

/// Whether two ids of four bytes are the same.
pub fn same_id(a: &[u8; 4], b: &[u8; 4]) -> (r: bool)
    ensures
        r == (a@ == b@),
{
    let r = a[0] == b[0] && a[1] == b[1] && a[2] == b[2] && a[3] == b[3];
    assert(r == (a@ =~= b@));
    r
}

/// Take one byte off the front of `buf`.
///
/// # Errors
///
/// Fails with [`Error::Truncated`] on an empty buffer.
pub fn read_u8(buf: &mut Bytes) -> (r: Result<u8, Error>)
    ensures
        octets(*old(buf)).len() <= usize::MAX,
        octets(*final(buf)) == after_read(octets(*old(buf)), 1),
        octets(*old(buf)).len() >= 1 ==> r == Ok::<u8, Error>(octets(*old(buf))[0]),
        octets(*old(buf)).len() < 1 ==> r == Err::<u8, Error>(Error::Truncated),
{
    if buf.len() < 1 {
        return Err(Error::Truncated);
    }
    Ok(get_u8(buf))
}

/// Take a big-endian 16-bit number off the front of `buf`.
///
/// # Errors
///
/// Fails with [`Error::Truncated`] if fewer than two bytes are left.
pub fn read_u16(buf: &mut Bytes) -> (r: Result<u16, Error>)
    ensures
        octets(*old(buf)).len() <= usize::MAX,
        octets(*final(buf)) == after_read(octets(*old(buf)), 2),
        octets(*old(buf)).len() >= 2 ==> r is Ok && r.unwrap() == u16_from_be(octets(*old(buf))),
        octets(*old(buf)).len() < 2 ==> r == Err::<u16, Error>(Error::Truncated),
{
    if buf.len() < 2 {
        return Err(Error::Truncated);
    }
    Ok(get_u16(buf))
}

/// Take a big-endian 32-bit number off the front of `buf`.
///
/// # Errors
///
/// Fails with [`Error::Truncated`] if fewer than four bytes are left.
pub fn read_u32(buf: &mut Bytes) -> (r: Result<u32, Error>)
    ensures
        octets(*old(buf)).len() <= usize::MAX,
        octets(*final(buf)) == after_read(octets(*old(buf)), 4),
        octets(*old(buf)).len() >= 4 ==> r is Ok && r.unwrap() == u32_from_be(octets(*old(buf))),
        octets(*old(buf)).len() < 4 ==> r == Err::<u32, Error>(Error::Truncated),
{
    if buf.len() < 4 {
        return Err(Error::Truncated);
    }
    Ok(get_u32(buf))
}

/// Take a little-endian 32-bit number off the front of `buf`.
///
/// # Errors
///
/// Fails with [`Error::Truncated`] if fewer than four bytes are left.
pub fn read_u32_le(buf: &mut Bytes) -> (r: Result<u32, Error>)
    ensures
        octets(*old(buf)).len() <= usize::MAX,
        octets(*final(buf)) == after_read(octets(*old(buf)), 4),
        octets(*old(buf)).len() >= 4 ==> r is Ok && r.unwrap() == u32_from_le(octets(*old(buf))),
        octets(*old(buf)).len() < 4 ==> r == Err::<u32, Error>(Error::Truncated),
{
    if buf.len() < 4 {
        return Err(Error::Truncated);
    }
    Ok(get_u32_le(buf))
}

/// Take four bytes off the front of `buf`.
///
/// # Errors
///
/// Fails with [`Error::Truncated`] if fewer than four bytes are left.
pub fn read_u8_len4_array(buf: &mut Bytes) -> (r: Result<[u8; 4], Error>)
    ensures
        octets(*old(buf)).len() <= usize::MAX,
        octets(*final(buf)) == after_read(octets(*old(buf)), 4),
        octets(*old(buf)).len() >= 4 ==> r is Ok && r.unwrap()@ == octets(*old(buf)).take(4),
        octets(*old(buf)).len() < 4 ==> r == Err::<[u8; 4], Error>(Error::Truncated),
{
    if buf.len() < 4 {
        return Err(Error::Truncated);
    }
    Ok(get_array::<4>(buf))
}

/// Take eight bytes off the front of `buf`.
///
/// # Errors
///
/// Fails with [`Error::Truncated`] if fewer than eight bytes are left.
pub fn read_u8_len8_array(buf: &mut Bytes) -> (r: Result<[u8; 8], Error>)
    ensures
        octets(*old(buf)).len() <= usize::MAX,
        octets(*final(buf)) == after_read(octets(*old(buf)), 8),
        octets(*old(buf)).len() >= 8 ==> r is Ok && r.unwrap()@ == octets(*old(buf)).take(8),
        octets(*old(buf)).len() < 8 ==> r == Err::<[u8; 8], Error>(Error::Truncated),
{
    if buf.len() < 8 {
        return Err(Error::Truncated);
    }
    Ok(get_array::<8>(buf))
}

/// Split the first `at` bytes off `buf`.
///
/// # Errors
///
/// Fails with [`Error::Truncated`] if fewer than `at` bytes are left.
pub fn split_to_checked(buf: &mut Bytes, at: usize) -> (r: Result<Bytes, Error>)
    ensures
        octets(*old(buf)).len() <= usize::MAX,
        octets(*final(buf)) == after_read(octets(*old(buf)), at as int),
        octets(*old(buf)).len() >= at ==> r is Ok && octets(r.unwrap()) == octets(*old(buf)).take(
            at as int,
        ),
        octets(*old(buf)).len() < at ==> r is Err && r.unwrap_err() == Error::Truncated,
{
    if at > buf.len() {
        return Err(Error::Truncated);
    }
    Ok(buf.split_to(at))
}

} // verus!
