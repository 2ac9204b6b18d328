//! Little-endian encoding of 64-bit numbers, which the byte formats of this
//! crate are made of.

use byteorder::ByteOrder;
use byteorder::LittleEndian;
use vstd::bytes::lemma_auto_spec_u64_to_from_le_bytes;
use vstd::bytes::spec_u64_from_le_bytes;
use vstd::bytes::spec_u64_to_le_bytes;
use vstd::prelude::*;
use vstd::slice::slice_subrange;

verus! {

/// The number whose little-endian encoding are the eight bytes of `bytes`
/// from `at` on.
pub open spec fn le_at(bytes: Seq<u8>, at: int) -> u64 {
    spec_u64_from_le_bytes(bytes.subrange(at, at + 8))
}

/// Trusted: `byteorder::LittleEndian::write_u64`, called on a buffer of
/// eight bytes, fills it with the little-endian encoding of `n`, least
/// significant byte first.
#[verifier::external_body]
fn u64_to_le(n: u64) -> (r: [u8; 8])
    ensures
        r@ == spec_u64_to_le_bytes(n),
{
    let mut buf = [0u8; 8];
    LittleEndian::write_u64(&mut buf, n);
    buf
}

/// Trusted: `byteorder::LittleEndian::read_u64` returns the number whose
/// little-endian encoding are the first eight bytes of `buf`. It panics on a
/// shorter buffer, which the precondition rules out.
#[verifier::external_body]
fn u64_from_le(buf: &[u8]) -> (r: u64)
    requires
        buf@.len() >= 8,
    ensures
        r == spec_u64_from_le_bytes(buf@.subrange(0, 8)),
{
    LittleEndian::read_u64(buf)
}

/// Appends the little-endian encoding of `n` to `out`.
pub fn put_u64(out: &mut Vec<u8>, n: u64)
    ensures
        final(out)@ == old(out)@ + spec_u64_to_le_bytes(n),
{
    let buf: [u8; 8] = u64_to_le(n);
    let mut i: usize = 0;
    proof {
        lemma_auto_spec_u64_to_from_le_bytes();
    }
    while i < 8
        invariant
            i <= 8,
            buf@ == spec_u64_to_le_bytes(n),
            buf@.len() == 8,
            out@ == old(out)@ + buf@.subrange(0, i as int),
        decreases 8 - i,
    {
        out.push(buf[i]);
        i = i + 1;
        assert(out@ =~= old(out)@ + buf@.subrange(0, i as int));
    }
    assert(buf@.subrange(0, 8) =~= buf@);
}

/// Reads the number encoded by the eight bytes of `bytes` from `at` on.
pub fn get_u64(bytes: &[u8], at: usize) -> (r: u64)
    requires
        at + 8 <= bytes@.len(),
    ensures
        r == le_at(bytes@, at as int),
{
    let total: usize = bytes.len();
    let field: &[u8] = slice_subrange(bytes, at, at + 8);
    assert(field@.subrange(0, 8) =~= bytes@.subrange(at as int, at + 8));
    u64_from_le(field)
}

} // verus!
