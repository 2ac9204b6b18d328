//! The byte formats of a bit vector and of a compact vector, as functions on
//! sequences, and the proof that decoding undoes encoding.
//!
//! A bit vector is written as the number of its words, the words, and the
//! number of its bits. A compact vector is written as its bit vector, the
//! number of its elements and its width. Every number takes eight bytes,
//! least significant byte first.

use crate::bits::bits_value;
use crate::bits::lemma_bits_value_bits;
use crate::bits::lemma_low_bits_value;
use crate::bits::lemma_low_mask;
use crate::bits::lemma_mask_clears;
use crate::bits::low_bits;
use crate::bits::word_bit;
use crate::bits::words_bit;
use crate::endian::le_at;
use crate::error::Error;
use crate::util::spec_words_for;
use vstd::arithmetic::div_mod::lemma_fundamental_div_mod_converse;
use vstd::arithmetic::div_mod::lemma_small_mod;
use vstd::arithmetic::power2::lemma2_to64;
use vstd::arithmetic::power2::pow2;
use vstd::bytes::lemma_auto_spec_u64_to_from_le_bytes;
use vstd::bytes::spec_u64_to_le_bytes;
use vstd::prelude::*;

verus! {

/// Word `j` of the words that `bits` are packed into: 64 bits from `64 * j`
/// on, or as many as are left, the first of them lowest.
pub open spec fn packed_word(bits: Seq<bool>, j: int) -> u64 {
    let end: int = if 64 * j + 64 <= bits.len() {
        64 * j + 64
    } else {
        bits.len() as int
    };
    bits_value(bits.subrange(64 * j, end)) as u64
}

/// The words that `bits` are packed into.
pub open spec fn packed_words(bits: Seq<bool>) -> Seq<u64> {
    Seq::new(spec_words_for(bits.len() as int) as nat, |j: int| packed_word(bits, j))
}

/// The encodings of `words`, one after the other.
pub open spec fn words_bytes(words: Seq<u64>) -> Seq<u8> {
    Seq::new(8 * words.len(), |i: int| spec_u64_to_le_bytes(words[i / 8])[i % 8])
}

/// The bytes that a sequence of bits is written as.
pub open spec fn encode_bits(bits: Seq<bool>) -> Seq<u8> {
    spec_u64_to_le_bytes(packed_words(bits).len() as u64) + words_bytes(packed_words(bits))
        + spec_u64_to_le_bytes(bits.len() as u64)
}

/// The number of bytes that `len` bits are written as.
pub open spec fn encoded_bits_len(len: nat) -> nat {
    (8 * spec_words_for(len as int) + 16) as nat
}

/// The `n` numbers encoded in `bytes` from `at` on.
pub open spec fn words_at(bytes: Seq<u8>, at: int, n: nat) -> Seq<u64> {
    Seq::new(n, |j: int| le_at(bytes, at + 8 * j))
}

/// The bits that `bytes` begin with the encoding of, or why they do not.
///
/// The bytes are cut short where they end before the word count, or before
/// the words and the bit count that the word count announces. They are
/// malformed where the bit count does not fit in `usize`, needs another
/// number of words than there are, or leaves a set bit unused in the last
/// word. Bytes after the encoding are not looked at.
pub open spec fn decode_bits(bytes: Seq<u8>) -> Result<Seq<bool>, Error> {
    if bytes.len() < 8 {
        Err(Error::UnexpectedEof)
    } else {
        let n: int = le_at(bytes, 0) as int;
        if bytes.len() < 8 * n + 16 {
            Err(Error::UnexpectedEof)
        } else {
            let words: Seq<u64> = words_at(bytes, 8, n as nat);
            let len: int = le_at(bytes, 8 + 8 * n) as int;
            if len > usize::MAX || n != spec_words_for(len) || exists|i: int|
                len <= i < 64 * n && #[trigger] words_bit(words, i) {
                Err(Error::MalformedData)
            } else {
                Ok(Seq::new(len as nat, |i: int| words_bit(words, i)))
            }
        }
    }
}

/// The bits of slot `i` where each slot takes `width` bits.
pub open spec fn slot(bits: Seq<bool>, width: nat, i: int) -> Seq<bool> {
    bits.subrange(i * width, i * width + width)
}

/// The `len` numbers that `bits` hold in slots of `width` bits each.
pub open spec fn unpack(bits: Seq<bool>, len: nat, width: nat) -> Seq<usize> {
    Seq::new(len, |i: int| bits_value(slot(bits, width, i)) as usize)
}

/// The bits of `elems`, `width` of each, one element after the other and
/// the lowest bit of each first.
pub open spec fn pack(elems: Seq<usize>, width: nat) -> Seq<bool> {
    Seq::new(
        elems.len() * width,
        |b: int| word_bit(elems[b / width as int] as u64, b % width as int),
    )
}

/// The bytes that a vector of the elements `elems`, of `width` bits each, is
/// written as.
pub open spec fn encode(elems: Seq<usize>, width: nat) -> Seq<u8> {
    encode_bits(pack(elems, width)) + spec_u64_to_le_bytes(elems.len() as u64)
        + spec_u64_to_le_bytes(width as u64)
}

/// The elements and the width of the vector that `bytes` begin with the
/// encoding of, or why they do not.
///
/// The bit vector comes first and is refused as `decode_bits` says. After
/// it, the bytes are cut short where they end before the count and the
/// width. They are malformed where the width is more than that of `usize`,
/// the count does not fit in `usize`, or count times width is not the
/// number of bits. Bytes after the encoding are not looked at.
pub open spec fn decode(bytes: Seq<u8>) -> Result<(Seq<usize>, usize), Error> {
    match decode_bits(bytes) {
        Err(e) => Err(e),
        Ok(bits) => {
            let at: int = encoded_bits_len(bits.len()) as int;
            if bytes.len() < at + 16 {
                Err(Error::UnexpectedEof)
            } else {
                let len: int = le_at(bytes, at) as int;
                let width: int = le_at(bytes, at + 8) as int;
                if width > usize::BITS || len > usize::MAX || len * width != bits.len() {
                    Err(Error::MalformedData)
                } else {
                    Ok((unpack(bits, len as nat, width as nat), width as usize))
                }
            }
        }
    }
}

/// The number of bytes that the encoding of a vector takes, as the word
/// count in the first eight bytes of `bytes` announces it.
pub open spec fn announced_len(bytes: Seq<u8>) -> int {
    8 * le_at(bytes, 0) + 32
}

/// A number written between two runs of bytes is read back from where the
/// first run ends.
pub proof fn lemma_le_at_between(before: Seq<u8>, x: u64, after: Seq<u8>)
    ensures
        spec_u64_to_le_bytes(x).len() == 8,
        le_at(before + spec_u64_to_le_bytes(x) + after, before.len() as int) == x,
{
    lemma_auto_spec_u64_to_from_le_bytes();
    let all: Seq<u8> = before + spec_u64_to_le_bytes(x) + after;
    assert(all.subrange(before.len() as int, before.len() as int + 8) =~= spec_u64_to_le_bytes(x));
}

/// The words that bits are packed into hold those bits, in order, and no
/// others.
pub proof fn lemma_packed_bits(bits: Seq<bool>, i: int)
    requires
        0 <= i < 64 * spec_words_for(bits.len() as int),
    ensures
        words_bit(packed_words(bits), i) == (i < bits.len() && bits[i]),
{
    let j: int = i / 64;
    let k: int = i % 64;
    let end: int = if 64 * j + 64 <= bits.len() {
        64 * j + 64
    } else {
        bits.len() as int
    };
    let chunk: Seq<bool> = bits.subrange(64 * j, end);
    let m: nat = chunk.len();
    lemma_bits_value_bits(chunk);
    let w: u64 = packed_word(bits, j);
    if k < m {
        assert(low_bits(w, m)[k] == chunk[k]);
    } else {
        lemma_low_mask(m as u64);
        lemma_mask_clears(w, m as u64, k as u64);
    }
}

/// Decoding undoes encoding: from the encoding of `bits`, whatever bytes
/// follow it, `bits` are read back.
pub proof fn lemma_decode_encode_bits(bits: Seq<bool>, rest: Seq<u8>)
    requires
        bits.len() <= usize::MAX,
    ensures
        encode_bits(bits).len() == encoded_bits_len(bits.len()),
        decode_bits(encode_bits(bits) + rest) == Ok::<Seq<bool>, Error>(bits),
{
    let words: Seq<u64> = packed_words(bits);
    let n: int = words.len() as int;
    let head: Seq<u8> = spec_u64_to_le_bytes(n as u64);
    let body: Seq<u8> = words_bytes(words);
    let tail: Seq<u8> = spec_u64_to_le_bytes(bits.len() as u64);
    let all: Seq<u8> = encode_bits(bits) + rest;
    lemma_auto_spec_u64_to_from_le_bytes();
    assert(all =~= Seq::<u8>::empty() + head + (body + tail + rest));
    lemma_le_at_between(Seq::<u8>::empty(), n as u64, body + tail + rest);
    assert(all =~= (head + body) + tail + rest);
    lemma_le_at_between(head + body, bits.len() as u64, rest);
    assert forall|j: int| 0 <= j < n implies words_at(all, 8, n as nat)[j] == words[j] by {
        assert(all.subrange(8 + 8 * j, 8 + 8 * j + 8) =~= spec_u64_to_le_bytes(words[j]));
    }
    assert(words_at(all, 8, n as nat) =~= words);
    assert forall|i: int| 0 <= i < 64 * n implies words_bit(words, i) == (i < bits.len()
        && bits[i]) by {
        lemma_packed_bits(bits, i);
    }
    assert(Seq::new(bits.len(), |i: int| words_bit(words, i)) =~= bits);
}

/// Bit `k` of slot `i` lies within the bits of `len` slots.
proof fn lemma_slot_index(i: int, k: int, width: int, len: int)
    by (nonlinear_arith)
    requires
        0 <= i < len,
        0 <= k < width,
    ensures
        0 <= i * width + k < len * width,
        i * width + width <= len * width,
{
}

/// Slot `i` of the packed bits of `elems` holds the low bits of element `i`.
pub proof fn lemma_slot_of_pack(elems: Seq<usize>, width: nat, i: int)
    requires
        0 <= i < elems.len(),
    ensures
        slot(pack(elems, width), width, i) == low_bits(elems[i] as u64, width),
{
    assert forall|k: int| 0 <= k < width implies slot(pack(elems, width), width, i)[k] == low_bits(
        elems[i] as u64,
        width,
    )[k] by {
        lemma_slot_index(i, k, width as int, elems.len() as int);
        lemma_fundamental_div_mod_converse(i * width + k, width as int, i, k);
    }
    if width > 0 {
        lemma_slot_index(i, 0, width as int, elems.len() as int);
    }
    assert(slot(pack(elems, width), width, i) =~= low_bits(elems[i] as u64, width));
}

/// Bits that are all zero from position `n` on stand for the same number as
/// the first `n` of them.
proof fn lemma_high_zeros(s: Seq<bool>, n: nat)
    requires
        n <= s.len(),
        forall|i: int| n <= i < s.len() ==> !s[i],
    ensures
        bits_value(s) == bits_value(s.subrange(0, n as int)),
    decreases s.len(),
{
    if n == 0 {
        assert(s.subrange(0, 0) =~= Seq::<bool>::empty());
        if s.len() > 0 {
            lemma_high_zeros(s.drop_first(), 0);
            assert(s.drop_first().subrange(0, 0) =~= Seq::<bool>::empty());
        }
    } else {
        lemma_high_zeros(s.drop_first(), (n - 1) as nat);
        assert(s.subrange(0, n as int).drop_first() =~= s.drop_first().subrange(0, n - 1));
    }
}

/// The `width` lowest bits of a number below `2^width` stand for the number.
proof fn lemma_bits_fit(value: usize, width: nat)
    requires
        value < pow2(width),
    ensures
        bits_value(low_bits(value as u64, width)) == value,
{
    if width <= 64 {
        lemma_low_bits_value(value as u64, width);
        lemma_small_mod(value as nat, pow2(width));
    } else {
        let low: Seq<bool> = low_bits(value as u64, 64);
        let all: Seq<bool> = low_bits(value as u64, width);
        lemma_low_bits_value(value as u64, 64);
        lemma2_to64();
        lemma_small_mod(value as nat, pow2(64));
        lemma_high_zeros(all, 64);
        assert(all.subrange(0, 64) =~= low);
    }
}

/// Unpacking undoes packing: elements that fit in `width` bits each are
/// read back from their packed bits, each at its position.
pub proof fn lemma_unpack_pack(elems: Seq<usize>, width: nat)
    requires
        forall|i: int| 0 <= i < elems.len() ==> elems[i] < pow2(width),
    ensures
        unpack(pack(elems, width), elems.len(), width) == elems,
{
    let bits: Seq<bool> = pack(elems, width);
    assert forall|i: int| 0 <= i < elems.len() implies unpack(bits, elems.len(), width)[i]
        == elems[i] by {
        lemma_slot_of_pack(elems, width, i);
        lemma_bits_fit(elems[i], width);
    }
    assert(unpack(bits, elems.len(), width) =~= elems);
}

/// Decoding undoes encoding: from the encoding of a vector whose elements
/// fit in its width, whatever bytes follow it, the elements and the width
/// are read back.
pub proof fn lemma_decode_encode(elems: Seq<usize>, width: nat, rest: Seq<u8>)
    requires
        width <= usize::BITS,
        elems.len() <= usize::MAX,
        elems.len() * width <= usize::MAX,
        forall|i: int| 0 <= i < elems.len() ==> elems[i] < pow2(width),
    ensures
        decode(encode(elems, width) + rest) == Ok::<(Seq<usize>, usize), Error>(
            (elems, width as usize),
        ),
{
    let bits: Seq<bool> = pack(elems, width);
    let count: Seq<u8> = spec_u64_to_le_bytes(elems.len() as u64);
    let wide: Seq<u8> = spec_u64_to_le_bytes(width as u64);
    let all: Seq<u8> = encode(elems, width) + rest;
    lemma_auto_spec_u64_to_from_le_bytes();
    assert(all =~= encode_bits(bits) + (count + wide + rest));
    lemma_decode_encode_bits(bits, count + wide + rest);
    assert(all =~= encode_bits(bits) + count + (wide + rest));
    lemma_le_at_between(encode_bits(bits), elems.len() as u64, wide + rest);
    assert(all =~= (encode_bits(bits) + count) + wide + rest);
    lemma_le_at_between(encode_bits(bits) + count, width as u64, rest);
    lemma_unpack_pack(elems, width);
}

/// Bytes that a vector is read from hold its whole encoding, which is as
/// long as their first eight bytes announce.
pub proof fn lemma_decode_frame(bytes: Seq<u8>)
    requires
        decode(bytes) is Ok,
    ensures
        bytes.len() >= 8,
        announced_len(bytes) <= bytes.len(),
        encode(decode(bytes)->Ok_0.0, decode(bytes)->Ok_0.1 as nat).len() == announced_len(bytes),
{
    lemma_auto_spec_u64_to_from_le_bytes();
}

/// Only the encoding is looked at: bytes that agree with `bytes` as far as
/// the encoding of a vector goes are read as the same vector.
pub proof fn lemma_decode_prefix(bytes: Seq<u8>, other: Seq<u8>)
    requires
        decode(bytes) is Ok,
        announced_len(bytes) <= other.len(),
        other.subrange(0, announced_len(bytes)) == bytes.subrange(0, announced_len(bytes)),
    ensures
        decode(other) == decode(bytes),
{
    let frame: int = announced_len(bytes);
    let n: int = le_at(bytes, 0) as int;
    assert forall|at: int| 0 <= at && at + 8 <= frame implies le_at(other, at) == le_at(
        bytes,
        at,
    ) by {
        assert(other.subrange(at, at + 8) =~= other.subrange(0, frame).subrange(at, at + 8));
        assert(bytes.subrange(at, at + 8) =~= bytes.subrange(0, frame).subrange(at, at + 8));
    }
    assert(le_at(other, 0) == le_at(bytes, 0));
    let theirs: Seq<u64> = words_at(other, 8, n as nat);
    let ours: Seq<u64> = words_at(bytes, 8, n as nat);
    assert forall|j: int| 0 <= j < n implies #[trigger] theirs[j] == ours[j] by {
        assert(le_at(other, 8 + 8 * j) == le_at(bytes, 8 + 8 * j));
    }
    assert(theirs =~= ours);
    assert(le_at(other, 8 + 8 * n) == le_at(bytes, 8 + 8 * n));
    assert(decode_bits(other) == decode_bits(bytes));
    assert(le_at(other, 16 + 8 * n) == le_at(bytes, 16 + 8 * n));
    assert(le_at(other, 24 + 8 * n) == le_at(bytes, 24 + 8 * n));
}

} // verus!
