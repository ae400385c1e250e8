//! Byte-level helpers shared by the journal and the bidirectional entries:
//! little-endian integers (through `byteorder`) and the IEEE CRC-32
//! (through `crc`).
use byteorder::{BigEndian, ByteOrder, LittleEndian};
use vstd::bytes::*;
use vstd::prelude::*;

verus! {

/// The reflected IEEE polynomial.
pub const CRC32_POLY: u32 = 0xEDB8_8320;

/// `n` steps of the bit-serial CRC register: shift right, folding in the
/// polynomial when the bit shifted out is set.
pub open spec fn crc32_shift(r: u32, n: nat) -> u32
    decreases n,
{
    if n == 0 {
        r
    } else {
        crc32_shift(
            if r & 1 == 1 {
                (r >> 1) ^ CRC32_POLY
            } else {
                r >> 1
            },
            (n - 1) as nat,
        )
    }
}

/// The CRC register after the bytes: it starts with every bit set, and each
/// byte is folded into its low bits and shifted through.
pub open spec fn crc32_register(bytes: Seq<u8>) -> u32
    decreases bytes.len(),
{
    if bytes.len() == 0 {
        0xFFFF_FFFF
    } else {
        crc32_shift(crc32_register(bytes.drop_last()) ^ (bytes.last() as u32), 8)
    }
}

/// The IEEE CRC-32 of a byte sequence (reflected, initial value and final
/// value inverted): the complement of the register after the bytes.
pub closed spec fn crc32_ieee(bytes: Seq<u8>) -> u32 {
    !crc32_register(bytes)
}

/// Calls `crc::crc32::checksum_ieee`. Trusted: the result is the IEEE CRC-32
/// of the bytes, which the crate computes a byte at a time from a table of
/// the eight register steps for each byte value.
#[verifier::external_body]
pub(crate) fn checksum_ieee(bytes: &[u8]) -> (r: u32)
    ensures
        r == crc32_ieee(bytes@),
{
    crc::crc32::checksum_ieee(bytes)
}

/// Calls `<byteorder::LittleEndian as ByteOrder>::read_u32`. Trusted: the
/// result is the little-endian value of the first four bytes; the crate
/// panics on shorter input, which `requires` rules out.
#[verifier::external_body]
pub(crate) fn read_u32_le(buf: &[u8]) -> (r: u32)
    requires
        buf@.len() >= 4,
    ensures
        r == spec_u32_from_le_bytes(buf@.subrange(0, 4)),
{
    LittleEndian::read_u32(buf)
}

/// Calls `<byteorder::LittleEndian as ByteOrder>::write_u32` on a four byte
/// buffer. Trusted: the buffer then holds the little-endian bytes of `n`.
#[verifier::external_body]
pub(crate) fn u32_le_bytes(n: u32) -> (r: Vec<u8>)
    ensures
        r@ == spec_u32_to_le_bytes(n),
        r@.len() == 4,
{
    let mut buf = vec![0u8; 4];
    LittleEndian::write_u32(&mut buf, n);
    buf
}

/// Calls `<byteorder::LittleEndian as ByteOrder>::write_u64` on an eight byte
/// buffer. Trusted: the buffer then holds the little-endian bytes of `n`.
#[verifier::external_body]
pub(crate) fn u64_le_bytes(n: u64) -> (r: Vec<u8>)
    ensures
        r@ == spec_u64_to_le_bytes(n),
        r@.len() == 8,
{
    let mut buf = vec![0u8; 8];
    LittleEndian::write_u64(&mut buf, n);
    buf
}

/// Little-endian encoding of a `u32`, read back by `read_u32_le`.
pub proof fn lemma_u32_le_roundtrip(n: u32)
    ensures
        spec_u32_to_le_bytes(n).len() == 4,
        spec_u32_from_le_bytes(spec_u32_to_le_bytes(n)) == n,
{
    lemma_auto_spec_u32_to_from_le_bytes();
    assert(spec_u32_to_le_bytes(n).len() == 4);
}

/// Calls `<byteorder::LittleEndian as ByteOrder>::read_u64`. Trusted: the
/// result is the little-endian value of the first eight bytes; the crate
/// panics on shorter input, which `requires` rules out.
#[verifier::external_body]
pub(crate) fn read_u64_le(buf: &[u8]) -> (r: u64)
    requires
        buf@.len() >= 8,
    ensures
        r == spec_u64_from_le_bytes(buf@.subrange(0, 8)),
{
    LittleEndian::read_u64(buf)
}

/// Little-endian encoding of a `u64`, read back by `read_u64_le`.
pub proof fn lemma_u64_le_roundtrip(n: u64)
    ensures
        spec_u64_to_le_bytes(n).len() == 8,
        spec_u64_from_le_bytes(spec_u64_to_le_bytes(n)) == n,
{
    lemma_auto_spec_u64_to_from_le_bytes();
    assert(spec_u64_to_le_bytes(n).len() == 8);
}

/// Calls `<byteorder::BigEndian as ByteOrder>::write_u32` on a four byte
/// buffer. Trusted: the buffer then holds the bytes of `n`, most significant
/// first, which are the little-endian bytes in reverse.
#[verifier::external_body]
pub(crate) fn u32_be_bytes(n: u32) -> (r: Vec<u8>)
    ensures
        r@ == spec_u32_to_le_bytes(n).reverse(),
        r@.len() == 4,
{
    let mut buf = vec![0u8; 4];
    BigEndian::write_u32(&mut buf, n);
    buf
}

/// Calls `<byteorder::BigEndian as ByteOrder>::read_u32`. Trusted: the result
/// is the value of the first four bytes read most significant first; the
/// crate panics on shorter input, which `requires` rules out.
#[verifier::external_body]
pub(crate) fn read_u32_be(buf: &[u8]) -> (r: u32)
    requires
        buf@.len() >= 4,
    ensures
        r == spec_u32_from_le_bytes(buf@.subrange(0, 4).reverse()),
{
    BigEndian::read_u32(buf)
}

/// Big-endian encoding of a `u32`, read back by `read_u32_be`.
pub proof fn lemma_u32_be_roundtrip(n: u32)
    ensures
        spec_u32_to_le_bytes(n).reverse().len() == 4,
        spec_u32_from_le_bytes(spec_u32_to_le_bytes(n).reverse().subrange(0, 4).reverse()) == n,
{
    lemma_u32_le_roundtrip(n);
    assert(spec_u32_to_le_bytes(n).reverse().subrange(0, 4).reverse() =~= spec_u32_to_le_bytes(n));
}

} // verus!
