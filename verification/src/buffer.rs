//! The byte buffers of the `bytes` crate, and what the library relies on of them.
//!
//! Every function here on a buffer is a call into that crate. Its contract is stated over the
//! contents of the buffers, which [`contents`] and [`contents_mut`] name.

use bytes::{Buf, BufMut, Bytes, BytesMut};
use vstd::prelude::*;

verus! {

/// A reference-counted view of immutable bytes.
#[verifier::external_type_specification]
#[verifier::external_body]
pub struct ExBytes(bytes::Bytes);

/// A growable buffer of bytes.
#[verifier::external_type_specification]
#[verifier::external_body]
pub struct ExBytesMut(bytes::BytesMut);

/// The bytes that a [`Bytes`] gives access to, first to last.
pub uninterp spec fn contents(b: Bytes) -> Seq<u8>;

/// The bytes that a [`BytesMut`] holds, first to last.
pub uninterp spec fn contents_mut(b: BytesMut) -> Seq<u8>;

/// The two bytes of a big-endian 16 bit integer.
pub open spec fn be16(n: u16) -> Seq<u8> {
    seq![(n / 0x100) as u8, (n % 0x100) as u8]
}

/// The four bytes of a big-endian 32 bit integer.
pub open spec fn be32(n: u32) -> Seq<u8> {
    seq![
        (n / 0x100_0000) as u8,
        (n / 0x1_0000 % 0x100) as u8,
        (n / 0x100 % 0x100) as u8,
        (n % 0x100) as u8,
    ]
}

/// The integer whose big-endian bytes are the two at `at`.
pub open spec fn read16(s: Seq<u8>, at: int) -> int {
    s[at] * 0x100 + s[at + 1]
}

/// The integer whose big-endian bytes are the four at `at`.
pub open spec fn read32(s: Seq<u8>, at: int) -> int {
    s[at] * 0x100_0000 + s[at + 1] * 0x1_0000 + s[at + 2] * 0x100 + s[at + 3]
}

/// The number of bytes up to which a buffer can grow for sure. An allocation has `isize::MAX`
/// bytes at most, and that of a growing buffer may be up to four times as large as what the
/// buffer holds.
pub open spec fn buffer_limit() -> int {
    isize::MAX / 4
}

/// The number of bytes up to which a buffer can grow for sure.
pub fn growth_limit() -> (limit: usize)
    ensures
        limit == buffer_limit(),
{
    isize::MAX as usize / 4
}

/// `Bytes::new`: a buffer without any byte.
#[verifier::external_body]
pub(crate) fn empty() -> (b: Bytes)
    ensures
        contents(b) == Seq::<u8>::empty(),
{
    Bytes::new()
}

/// `Bytes::copy_from_slice`: a new buffer with the bytes of the slice.
#[verifier::external_body]
pub(crate) fn copy_from_slice(data: &[u8]) -> (b: Bytes)
    ensures
        contents(b) == data@,
{
    Bytes::copy_from_slice(data)
}

/// `Bytes::clone`: another handle on the same bytes.
pub assume_specification[ <bytes::Bytes as Clone>::clone ](b: &bytes::Bytes) -> (r: bytes::Bytes)
    ensures
        contents(r) == contents(*b),
;

/// `Bytes::len`: the number of bytes.
#[verifier::external_body]
pub(crate) fn len(b: &Bytes) -> (n: usize)
    ensures
        n == contents(*b).len(),
{
    b.len()
}

/// `Bytes::as_ref`: the bytes as a slice.
#[verifier::external_body]
pub(crate) fn as_slice(b: &Bytes) -> (s: &[u8])
    ensures
        s@ == contents(*b),
{
    b.as_ref()
}

/// `Buf::get_u8` on [`Bytes`]: takes the first byte off the buffer. It panics on an empty one.
#[verifier::external_body]
pub(crate) fn get_u8(b: &mut Bytes) -> (n: u8)
    requires
        contents(*old(b)).len() >= 1,
    ensures
        n == contents(*old(b))[0],
        contents(*final(b)) == contents(*old(b)).skip(1),
{
    b.get_u8()
}

/// `Buf::get_u16` on [`Bytes`]: takes a big-endian integer off the front of the buffer. It
/// panics where fewer than two bytes are left.
#[verifier::external_body]
pub(crate) fn get_u16(b: &mut Bytes) -> (n: u16)
    requires
        contents(*old(b)).len() >= 2,
    ensures
        n == read16(contents(*old(b)), 0),
        contents(*final(b)) == contents(*old(b)).skip(2),
{
    b.get_u16()
}

/// `Buf::get_u32` on [`Bytes`]: takes a big-endian integer off the front of the buffer. It
/// panics where fewer than four bytes are left.
#[verifier::external_body]
pub(crate) fn get_u32(b: &mut Bytes) -> (n: u32)
    requires
        contents(*old(b)).len() >= 4,
    ensures
        n == read32(contents(*old(b)), 0),
        contents(*final(b)) == contents(*old(b)).skip(4),
{
    b.get_u32()
}

/// `Bytes::split_to`: takes the first `at` bytes off the buffer. It panics where there are
/// fewer.
#[verifier::external_body]
pub(crate) fn split_to(b: &mut Bytes, at: usize) -> (front: Bytes)
    requires
        at <= contents(*old(b)).len(),
    ensures
        contents(front) == contents(*old(b)).take(at as int),
        contents(*final(b)) == contents(*old(b)).skip(at as int),
{
    b.split_to(at)
}

/// `BytesMut::with_capacity`: a buffer without any byte. It panics where the capacity is over
/// the limit of an allocation.
#[verifier::external_body]
pub(crate) fn with_capacity(capacity: usize) -> (b: BytesMut)
    requires
        capacity <= isize::MAX,
    ensures
        contents_mut(b) == Seq::<u8>::empty(),
{
    BytesMut::with_capacity(capacity)
}

/// `BytesMut::len`: the number of bytes.
#[verifier::external_body]
pub(crate) fn len_mut(b: &BytesMut) -> (n: usize)
    ensures
        n == contents_mut(*b).len(),
{
    b.len()
}

/// `BufMut::put_u8` on [`BytesMut`]: appends one byte. It panics where the allocation
/// would outgrow its limit.
#[verifier::external_body]
pub(crate) fn put_u8(b: &mut BytesMut, n: u8)
    requires
        contents_mut(*old(b)).len() + 1 <= buffer_limit(),
    ensures
        contents_mut(*final(b)) == contents_mut(*old(b)).push(n),
{
    b.put_u8(n)
}

/// `BufMut::put_u16` on [`BytesMut`]: appends the big-endian bytes of an integer. It panics
/// where the allocation would outgrow its limit.
#[verifier::external_body]
pub(crate) fn put_u16(b: &mut BytesMut, n: u16)
    requires
        contents_mut(*old(b)).len() + 2 <= buffer_limit(),
    ensures
        contents_mut(*final(b)) == contents_mut(*old(b)) + be16(n),
{
    b.put_u16(n)
}

/// `BufMut::put_u32` on [`BytesMut`]: appends the big-endian bytes of an integer. It panics
/// where the allocation would outgrow its limit.
#[verifier::external_body]
pub(crate) fn put_u32(b: &mut BytesMut, n: u32)
    requires
        contents_mut(*old(b)).len() + 4 <= buffer_limit(),
    ensures
        contents_mut(*final(b)) == contents_mut(*old(b)) + be32(n),
{
    b.put_u32(n)
}

/// `BytesMut::extend_from_slice`: appends the bytes of the slice. It panics where the
/// allocation would outgrow its limit.
#[verifier::external_body]
pub(crate) fn extend_from_slice(b: &mut BytesMut, data: &[u8])
    requires
        contents_mut(*old(b)).len() + data@.len() <= buffer_limit(),
    ensures
        contents_mut(*final(b)) == contents_mut(*old(b)) + data@,
{
    b.extend_from_slice(data)
}

/// `BytesMut::split_to`: takes the first `at` bytes off the buffer. It panics where there are
/// fewer.
#[verifier::external_body]
pub(crate) fn split_to_mut(b: &mut BytesMut, at: usize) -> (front: BytesMut)
    requires
        at <= contents_mut(*old(b)).len(),
    ensures
        contents_mut(front) == contents_mut(*old(b)).take(at as int),
        contents_mut(*final(b)) == contents_mut(*old(b)).skip(at as int),
{
    b.split_to(at)
}

/// `BytesMut::split`: takes all bytes off the buffer.
#[verifier::external_body]
pub(crate) fn split_mut(b: &mut BytesMut) -> (all: BytesMut)
    ensures
        contents_mut(all) == contents_mut(*old(b)),
        contents_mut(*final(b)) == Seq::<u8>::empty(),
{
    b.split()
}

/// `BytesMut::freeze`: the same bytes in an immutable buffer.
#[verifier::external_body]
pub(crate) fn freeze(b: BytesMut) -> (r: Bytes)
    ensures
        contents(r) == contents_mut(b),
{
    b.freeze()
}

/// Two bytes are the big-endian bytes of the integer that they spell.
pub proof fn lemma_be16_read16(s: Seq<u8>, at: int)
    requires
        0 <= at <= s.len() - 2,
    ensures
        0 <= read16(s, at) <= u16::MAX,
        be16(read16(s, at) as u16) == s.subrange(at, at + 2),
{
    assert(be16(read16(s, at) as u16) =~= s.subrange(at, at + 2));
}

/// Four bytes are the big-endian bytes of the integer that they spell.
#[verifier::rlimit(30)]
pub proof fn lemma_be32_read32(s: Seq<u8>, at: int)
    requires
        0 <= at <= s.len() - 4,
    ensures
        0 <= read32(s, at) <= u32::MAX,
        be32(read32(s, at) as u32) == s.subrange(at, at + 4),
{
    lemma_digits(s[at], s[at + 1], s[at + 2], s[at + 3]);
    assert(be32(read32(s, at) as u32) =~= s.subrange(at, at + 4));
}

/// The bytes of an integer are its digits to the base 256.
proof fn lemma_digits(a: u8, b: u8, c: u8, d: u8)
    ensures
        ({
            let n = a * 0x100_0000 + b * 0x1_0000 + c * 0x100 + d;
            &&& 0 <= n <= u32::MAX
            &&& n / 0x100_0000 == a
            &&& n / 0x1_0000 % 0x100 == b
            &&& n / 0x100 % 0x100 == c
            &&& n % 0x100 == d
        }),
{
    let n = a * 0x100_0000 + b * 0x1_0000 + c * 0x100 + d;
    assert(n / 0x100 == a * 0x1_0000 + b * 0x100 + c);
    assert(n / 0x1_0000 == a * 0x100 + b);
}

/// The integer read where its big-endian bytes stand.
pub proof fn lemma_read16_slice(s: Seq<u8>, at: int, n: u16)
    requires
        0 <= at <= s.len() - 2,
        s.subrange(at, at + 2) == be16(n),
    ensures
        read16(s, at) == n,
{
    assert(s[at] == be16(n)[0]);
    assert(s[at + 1] == be16(n)[1]);
}

/// The integer read where its big-endian bytes stand.
pub proof fn lemma_read32_slice(s: Seq<u8>, at: int, n: u32)
    requires
        0 <= at <= s.len() - 4,
        s.subrange(at, at + 4) == be32(n),
    ensures
        read32(s, at) == n,
{
    assert(s[at] == be32(n)[0]);
    assert(s[at + 1] == be32(n)[1]);
    assert(s[at + 2] == be32(n)[2]);
    assert(s[at + 3] == be32(n)[3]);
}

/// A buffer can grow to a quarter of the largest allocation. Integers are stored with their
/// highest byte first.
pub proof fn law_byte_order(n: u16, m: u32, s: Seq<u8>)
    ensures
        buffer_limit() == isize::MAX / 4,
        be16(n).len() == 2,
        be16(n)[0] * 0x100 + be16(n)[1] == n,
        be32(m).len() == 4,
        be32(m)[0] * 0x100_0000 + be32(m)[1] * 0x1_0000 + be32(m)[2] * 0x100 + be32(m)[3] == m,
        s.len() >= 2 ==> read16(s, 0) == s[0] * 0x100 + s[1],
        s.len() >= 4 ==> read32(s, 0) == s[0] * 0x100_0000 + s[1] * 0x1_0000 + s[2] * 0x100 + s[3],
{
}

} // verus!
