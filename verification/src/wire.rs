//! Fixed-width little-endian integers in byte buffers.
//!
//! The bytes are written and read by the `bytes` crate; the functions here
//! state what those calls do to a buffer.

use vstd::prelude::*;

verus! {

/// The two bytes of `n`, low byte first.
pub open spec fn u16_le(n: u16) -> Seq<u8> {
    seq![(n % 256) as u8, (n / 256) as u8]
}

/// The four bytes of `n`, low byte first.
pub open spec fn u32_le(n: u32) -> Seq<u8> {
    seq![
        (n % 256) as u8,
        ((n / 256) % 256) as u8,
        ((n / 65536) % 256) as u8,
        (n / 16777216) as u8,
    ]
}

/// The number that the two bytes of `s` at index `i` stand for, low byte first.
pub open spec fn le16(s: Seq<u8>, i: int) -> int {
    s[i] as int + 256 * (s[i + 1] as int)
}

/// The number that the four bytes of `s` at index `i` stand for, low byte first.
pub open spec fn le32(s: Seq<u8>, i: int) -> int {
    s[i] as int + 256 * (s[i + 1] as int) + 65536 * (s[i + 2] as int) + 16777216 * (s[i + 3] as int)
}

/// Reading back what `u16_le` wrote gives the number again.
pub proof fn lemma_le16_of_u16_le(s: Seq<u8>, i: int, n: u16)
    requires
        0 <= i,
        i + 2 <= s.len(),
        s.subrange(i, i + 2) == u16_le(n),
    ensures
        le16(s, i) == n,
{
    let t = s.subrange(i, i + 2);
    assert(t[0] == s[i] && t[1] == s[i + 1]);
}

/// Reading back what `u32_le` wrote gives the number again.
pub proof fn lemma_le32_of_u32_le(s: Seq<u8>, i: int, n: u32)
    requires
        0 <= i,
        i + 4 <= s.len(),
        s.subrange(i, i + 4) == u32_le(n),
    ensures
        le32(s, i) == n,
{
    let t = s.subrange(i, i + 4);
    assert(t[0] == s[i] && t[1] == s[i + 1] && t[2] == s[i + 2] && t[3] == s[i + 3]);
}

/// Two bytes are the `u16_le` of the number they stand for.
pub proof fn lemma_u16_le_of_le16(s: Seq<u8>, i: int)
    requires
        0 <= i,
        i + 2 <= s.len(),
    ensures
        0 <= le16(s, i) <= u16::MAX,
        u16_le(le16(s, i) as u16) == s.subrange(i, i + 2),
{
    let a = s[i] as int;
    let b = s[i + 1] as int;
    let n = a + 256 * b;
    assert(n % 256 == a && n / 256 == b) by (nonlinear_arith)
        requires
            n == a + 256 * b,
            0 <= a < 256,
            0 <= b < 256,
    ;
    assert(u16_le(le16(s, i) as u16) =~= s.subrange(i, i + 2));
}

/// Appends the two bytes of `n` to `buf`, low byte first, by
/// `bytes::BufMut::put_u16_le`: the buffer keeps what it held and grows by
/// exactly those two bytes.
#[verifier::external_body]
pub(crate) fn put_u16_le(buf: &mut Vec<u8>, n: u16)
    ensures
        final(buf)@ == old(buf)@ + u16_le(n),
{
    bytes::BufMut::put_u16_le(buf, n)
}

/// Appends the four bytes of `n` to `buf`, low byte first, by
/// `bytes::BufMut::put_u32_le`: the buffer keeps what it held and grows by
/// exactly those four bytes.
#[verifier::external_body]
pub(crate) fn put_u32_le(buf: &mut Vec<u8>, n: u32)
    ensures
        final(buf)@ == old(buf)@ + u32_le(n),
{
    bytes::BufMut::put_u32_le(buf, n)
}

/// Appends `src` to `buf` by `bytes::BufMut::put`, with the slice as the
/// source buffer: the buffer keeps what it held and grows by all of `src`.
#[verifier::external_body]
pub(crate) fn put_slice(buf: &mut Vec<u8>, src: &[u8])
    ensures
        final(buf)@ == old(buf)@ + src@,
{
    bytes::BufMut::put(buf, src)
}

/// Reads the first two bytes of `src` as a number, low byte first, by
/// `bytes::Buf::get_u16_le`. That call panics on fewer than two bytes, which
/// the precondition rules out.
#[verifier::external_body]
pub(crate) fn get_u16_le(src: &[u8]) -> (n: u16)
    requires
        src@.len() >= 2,
    ensures
        n == le16(src@, 0),
{
    let mut cursor = src;
    bytes::Buf::get_u16_le(&mut cursor)
}

/// Reads the first four bytes of `src` as a number, low byte first, by
/// `bytes::Buf::get_u32_le`. That call panics on fewer than four bytes, which
/// the precondition rules out.
#[verifier::external_body]
pub(crate) fn get_u32_le(src: &[u8]) -> (n: u32)
    requires
        src@.len() >= 4,
    ensures
        n == le32(src@, 0),
{
    let mut cursor = src;
    bytes::Buf::get_u32_le(&mut cursor)
}

/// An immutable, cheaply cloned byte buffer of the `bytes` crate.
#[verifier::external_type_specification]
#[verifier::external_body]
pub struct ExBytes(bytes::Bytes);

/// The bytes that a `bytes::Bytes` holds.
pub uninterp spec fn bytes_view(b: bytes::Bytes) -> Seq<u8>;

/// Copies `data` into a new buffer by `bytes::Bytes::copy_from_slice`: the
/// buffer holds exactly the bytes of `data`.
#[verifier::external_body]
pub(crate) fn bytes_copy_from_slice(data: &[u8]) -> (b: bytes::Bytes)
    ensures
        bytes_view(b) == data@,
{
    bytes::Bytes::copy_from_slice(data)
}

/// The contents of `b` as a slice, by the `AsRef<[u8]>` impl of
/// `bytes::Bytes`: the slice holds exactly the bytes of the buffer.
#[verifier::external_body]
pub(crate) fn bytes_as_slice(b: &bytes::Bytes) -> (s: &[u8])
    ensures
        s@ == bytes_view(*b),
{
    b.as_ref()
}

} // verus!
