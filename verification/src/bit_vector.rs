//! A growable sequence of bits, packed into 64-bit words.

use crate::bits::bit_at;
use crate::bits::bits_value;
use crate::bits::lemma_clear_above;
use crate::bits::lemma_mask_clears;
use crate::bits::lemma_read_one;
use crate::bits::lemma_read_two;
use crate::bits::lemma_shift_clear;
use crate::bits::lemma_small_word_value;
use crate::bits::lemma_write_next;
use crate::bits::lemma_write_one;
use crate::bits::lemma_zero_word;
use crate::bits::low_bits;
use crate::bits::low_mask;
use crate::bits::splice;
use crate::bits::word_bit;
use crate::bits::words_bit;
use crate::endian::get_u64;
use crate::endian::put_u64;
use crate::error::Error;
use crate::format::decode_bits;
use crate::format::encode_bits;
use crate::format::encoded_bits_len;
use crate::format::lemma_decode_encode_bits;
use crate::format::packed_word;
use crate::format::packed_words;
use crate::format::words_at;
use crate::format::words_bytes;
use crate::util::spec_words_for;
use crate::util::words_for;
use vstd::bytes::lemma_auto_spec_u64_to_from_le_bytes;
use vstd::prelude::*;
use vstd::std_specs::cmp::PartialEqSpec;

verus! {

/// Returns the word whose `n` lowest bits are set.
fn mask_of(n: u64) -> (m: u64)
    requires
        n <= 64,
    ensures
        m == low_mask(n),
{
    if n >= 64 {
        u64::MAX
    } else {
        assert(1u64 << n >= 1) by (bit_vector)
            requires
                n < 64,
        ;
        (1u64 << n) - 1
    }
}

/// A sequence of bits. Its view is the sequence itself, `Seq<bool>`.
///
/// The bits are packed into words, bit `i` at position `i % 64` of word
/// `i / 64`. There are exactly as many words as the length needs, and the
/// unused high bits of the last word are zero.
#[derive(Debug, Eq)]
pub struct BitVector {
    words: Vec<u64>,
    len: usize,
}

impl PartialEq for BitVector {
    /// Compares the lengths and the words.
    fn eq(&self, other: &Self) -> (r: bool) {
        let same: bool = self.len == other.len && self.words == other.words;
        proof {
            if same {
                assert(self.words@ =~= other.words@);
            }
        }
        same
    }
}

impl vstd::std_specs::cmp::PartialEqSpecImpl for BitVector {
    open spec fn obeys_eq_spec() -> bool {
        true
    }

    open spec fn eq_spec(&self, other: &Self) -> bool {
        self.same_words(other)
    }
}

impl View for BitVector {
    type V = Seq<bool>;

    closed spec fn view(&self) -> Seq<bool> {
        Seq::new(self.len as nat, |i: int| words_bit(self.words@, i))
    }
}

impl BitVector {
    /// The representation invariant: the word count matches the length and
    /// no bit is set beyond the length.
    pub closed spec fn wf(&self) -> bool {
        &&& self.words@.len() == spec_words_for(self.len as int)
        &&& forall|i: int|
            self.len <= i < 64 * self.words@.len() ==> !#[trigger] words_bit(self.words@, i)
    }

    /// Creates an empty bit vector.
    pub fn new() -> (r: Self)
        ensures
            r.wf(),
            r@ == Seq::<bool>::empty(),
    {
        let r = BitVector { words: Vec::new(), len: 0 };
        assert(r@ =~= Seq::<bool>::empty());
        r
    }

    /// Creates an empty bit vector with room for `capa` bits.
    pub fn with_capacity(capa: usize) -> (r: Self)
        ensures
            r.wf(),
            r@ == Seq::<bool>::empty(),
    {
        let r = BitVector { words: Vec::with_capacity(words_for(capa)), len: 0 };
        assert(r@ =~= Seq::<bool>::empty());
        r
    }

    /// Creates a bit vector of `len` bits, all zero.
    pub fn with_len(len: usize) -> (r: Self)
        ensures
            r.wf(),
            r@ == Seq::new(len as nat, |i: int| false),
    {
        let count: usize = words_for(len);
        let mut words: Vec<u64> = Vec::with_capacity(count);
        while words.len() < count
            invariant
                words@.len() <= count,
                forall|j: int| 0 <= j < words@.len() ==> words@[j] == 0,
            decreases count - words@.len(),
        {
            words.push(0);
        }
        let r = BitVector { words, len };
        proof {
            assert forall|i: int| 0 <= i < 64 * count implies !words_bit(r.words@, i) by {
                lemma_zero_word((i % 64) as u64);
            }
            assert(r@ =~= Seq::new(len as nat, |i: int| false));
        }
        r
    }

    /// Returns the number of bits.
    pub fn len(&self) -> (r: usize)
        ensures
            r == self@.len(),
    {
        self.len
    }

    /// Reads the `n` bits that start at `pos` as a number, the bit at `pos`
    /// being the least significant.
    pub fn get_bits(&self, pos: usize, n: usize) -> (r: u64)
        requires
            self.wf(),
            n <= 64,
            pos + n <= self@.len(),
        ensures
            r == bits_value(self@.subrange(pos as int, pos + n)),
    {
        if n == 0 {
            assert(self@.subrange(pos as int, pos + n) =~= Seq::<bool>::empty());
            return 0;
        }
        let block: usize = pos / 64;
        let shift: u64 = (pos % 64) as u64;
        let width: u64 = n as u64;
        let mask: u64 = mask_of(width);
        let w0: u64 = self.words[block];
        if shift + width <= 64 {
            let r: u64 = (w0 >> shift) & mask;
            proof {
                lemma_read_one(w0, shift, width, 0);
                assert forall|k: int| 0 <= k < n implies low_bits(r, n as nat)[k] == self@.subrange(
                    pos as int,
                    pos + n,
                )[k] by {
                    lemma_read_one(w0, shift, width, k as u64);
                }
                assert(low_bits(r, n as nat) =~= self@.subrange(pos as int, pos + n));
                lemma_small_word_value(r, n as nat);
            }
            r
        } else {
            let w1: u64 = self.words[block + 1];
            let r: u64 = (w0 >> shift) | ((w1 << (64 - shift)) & mask);
            proof {
                lemma_read_two(w0, w1, shift, width, 0);
                assert forall|k: int| 0 <= k < n implies low_bits(r, n as nat)[k] == self@.subrange(
                    pos as int,
                    pos + n,
                )[k] by {
                    lemma_read_two(w0, w1, shift, width, k as u64);
                }
                assert(low_bits(r, n as nat) =~= self@.subrange(pos as int, pos + n));
                lemma_small_word_value(r, n as nat);
            }
            r
        }
    }

    /// Overwrites the `n` bits that start at `pos` with the `n` lowest bits
    /// of `value`, the lowest going to `pos`. The higher bits of `value` are
    /// ignored.
    pub fn set_bits(&mut self, pos: usize, value: u64, n: usize)
        requires
            old(self).wf(),
            n <= 64,
            pos + n <= old(self)@.len(),
        ensures
            final(self).wf(),
            final(self)@ == splice(old(self)@, pos as int, low_bits(value, n as nat)),
    {
        if n == 0 {
            assert(self@ =~= splice(self@, pos as int, low_bits(value, n as nat)));
            return ;
        }
        let block: usize = pos / 64;
        let shift: u64 = (pos % 64) as u64;
        let width: u64 = n as u64;
        let mask: u64 = mask_of(width);
        let field: u64 = value & mask;
        let w0: u64 = self.words[block];
        let new0: u64 = (w0 & !(mask << shift)) | (field << shift);
        self.words.set(block, new0);
        let stored: u64 = 64 - shift;
        if stored < width {
            let w1: u64 = self.words[block + 1];
            let new1: u64 = (w1 & !(mask >> stored)) | (field >> stored);
            self.words.set(block + 1, new1);
        }
        proof {
            let before: Seq<u64> = old(self).words@;
            let after: Seq<u64> = self.words@;
            assert forall|i: int| 0 <= i < 64 * before.len() implies words_bit(after, i) == if pos
                <= i < pos + n {
                word_bit(value, i - pos)
            } else {
                words_bit(before, i)
            } by {
                let k: u64 = (i % 64) as u64;
                if i / 64 == block {
                    lemma_write_one(w0, value, shift, width, k);
                } else if i / 64 == block + 1 && stored < width {
                    lemma_write_next(before[block + 1], value, stored, width, k);
                }
            }
            assert(self@ =~= splice(old(self)@, pos as int, low_bits(value, n as nat)));
        }
    }

    /// Appends the `n` lowest bits of `value`, the lowest first. The higher
    /// bits of `value` are ignored.
    pub fn push_bits(&mut self, value: u64, n: usize)
        requires
            old(self).wf(),
            n <= 64,
            old(self)@.len() + n <= usize::MAX,
        ensures
            final(self).wf(),
            final(self)@ == old(self)@ + low_bits(value, n as nat),
    {
        let pos: usize = self.len;
        let new_len: usize = pos + n;
        if self.words.len() < words_for(new_len) {
            self.words.push(0);
        }
        self.len = new_len;
        proof {
            assert forall|i: int| pos <= i < 64 * self.words@.len() implies !words_bit(
                self.words@,
                i,
            ) by {
                if i < 64 * old(self).words@.len() {
                    assert(!words_bit(old(self).words@, i));
                } else {
                    lemma_zero_word((i % 64) as u64);
                }
            }
            assert(self@ =~= old(self)@ + Seq::new(n as nat, |i: int| false));
        }
        self.set_bits(pos, value, n);
        assert(self@ =~= old(self)@ + low_bits(value, n as nat));
    }

    /// Returns the number of bytes that `serialize_into` writes.
    pub fn size_in_bytes(&self) -> (r: usize)
        requires
            self.wf(),
        ensures
            r == encode_bits(self@).len(),
            r == encoded_bits_len(self@.len()),
    {
        proof {
            self.lemma_words_packed();
            lemma_auto_spec_u64_to_from_le_bytes();
        }
        8 * self.words.len() + 16
    }

    /// Appends the encoding of the bits to `out` and returns the number of
    /// bytes appended.
    pub fn serialize_into(&self, out: &mut Vec<u8>) -> (r: usize)
        requires
            self.wf(),
        ensures
            final(out)@ == old(out)@ + encode_bits(self@),
            r == encode_bits(self@).len(),
            r == encoded_bits_len(self@.len()),
    {
        let count: usize = self.words.len();
        proof {
            self.lemma_words_packed();
            lemma_auto_spec_u64_to_from_le_bytes();
        }
        put_u64(out, count as u64);
        let ghost head: Seq<u8> = out@;
        let mut j: usize = 0;
        while j < count
            invariant
                j <= count,
                count == self.words@.len(),
                out@ == head + words_bytes(self.words@.subrange(0, j as int)),
            decreases count - j,
        {
            put_u64(out, self.words[j]);
            j = j + 1;
            proof {
                lemma_auto_spec_u64_to_from_le_bytes();
                assert(out@ =~= head + words_bytes(self.words@.subrange(0, j as int)));
            }
        }
        assert(self.words@.subrange(0, count as int) =~= self.words@);
        put_u64(out, self.len as u64);
        assert(out@ =~= old(out)@ + encode_bits(self@));
        8 * count + 16
    }

    /// Reads a bit vector from the encoding that `bytes` begin with; what
    /// follows the encoding is not looked at. The bytes are refused where
    /// they end too early, and where what they announce does not fit
    /// together: nothing is built from them then.
    pub fn deserialize_from(bytes: &[u8]) -> (r: Result<Self, Error>)
        ensures
            match decode_bits(bytes@) {
                Ok(bits) => r is Ok && r->Ok_0.wf() && r->Ok_0@ == bits,
                Err(e) => r == Err::<Self, Error>(e),
            },
    {
        let total: usize = bytes.len();
        if total < 16 {
            return Err(Error::UnexpectedEof);
        }
        let announced: u64 = get_u64(bytes, 0);
        if announced > ((total - 16) / 8) as u64 {
            return Err(Error::UnexpectedEof);
        }
        let count: usize = announced as usize;
        let bit_count: u64 = get_u64(bytes, 8 + 8 * count);
        if bit_count > usize::MAX as u64 {
            return Err(Error::MalformedData);
        }
        let len: usize = bit_count as usize;
        if count != words_for(len) {
            return Err(Error::MalformedData);
        }
        let ghost coded: Seq<u64> = words_at(bytes@, 8, count as nat);
        let mut words: Vec<u64> = Vec::with_capacity(count);
        let mut j: usize = 0;
        while j < count
            invariant
                j <= count,
                8 * count + 16 <= total,
                total == bytes@.len(),
                coded == words_at(bytes@, 8, count as nat),
                words@ == coded.subrange(0, j as int),
            decreases count - j,
        {
            words.push(get_u64(bytes, 8 + 8 * j));
            j = j + 1;
            assert(words@ =~= coded.subrange(0, j as int));
        }
        assert(words@ =~= coded);
        let used: usize = len % 64;
        if used != 0 {
            let last: u64 = words[count - 1];
            proof {
                lemma_shift_clear(last, used as u64);
            }
            if last >> (used as u64) != 0 {
                proof {
                    if forall|i: int| len <= i < 64 * count ==> !#[trigger] words_bit(coded, i) {
                        assert forall|k: u64| used <= k < 64 implies !bit_at(last, k) by {
                            assert(!words_bit(coded, 64 * (count - 1) + k));
                        }
                        lemma_clear_above(last, used as u64);
                    }
                }
                return Err(Error::MalformedData);
            }
            proof {
                assert forall|i: int| len <= i < 64 * count implies !#[trigger] words_bit(
                    coded,
                    i,
                ) by {
                    lemma_mask_clears(last, used as u64, (i % 64) as u64);
                }
            }
        }
        let r = BitVector { words, len };
        assert(r@ =~= Seq::new(len as nat, |i: int| words_bit(coded, i)));
        Ok(r)
    }

    /// Whether the two are stored alike: the same length and the same
    /// words. This is what `==` tests.
    pub closed spec fn same_words(&self, other: &Self) -> bool {
        self.len == other.len && self.words@ == other.words@
    }

    /// What is written of a well-formed bit vector is read back as the same
    /// bits, whatever bytes follow it.
    pub proof fn lemma_round_trip(&self, rest: Seq<u8>)
        requires
            self.wf(),
        ensures
            decode_bits(encode_bits(self@) + rest) == Ok::<Seq<bool>, Error>(self@),
    {
        lemma_decode_encode_bits(self@, rest);
    }

    /// Well-formed bit vectors are stored alike exactly if they hold the
    /// same bits: `==` is equality of the views.
    pub proof fn lemma_eq_is_view_eq(&self, other: &Self)
        requires
            self.wf(),
            other.wf(),
        ensures
            self.eq_spec(other) <==> self@ == other@,
    {
        if self@ == other@ {
            assert(self.len == other.len) by {
                assert(self@.len() == other@.len());
            }
            self.lemma_words_packed();
            other.lemma_words_packed();
        }
        if self.same_words(other) {
            assert(self@ =~= other@);
        }
    }

    /// The words of a well-formed bit vector are the words that its bits
    /// are packed into.
    proof fn lemma_words_packed(&self)
        requires
            self.wf(),
        ensures
            self.words@ == packed_words(self@),
    {
        assert forall|j: int| 0 <= j < self.words@.len() implies self.words@[j] == packed_word(
            self@,
            j,
        ) by {
            let w: u64 = self.words@[j];
            let end: int = if 64 * j + 64 <= self.len {
                64 * j + 64
            } else {
                self.len as int
            };
            let m: nat = (end - 64 * j) as nat;
            assert(self@.subrange(64 * j, end) =~= low_bits(w, m));
            assert forall|k: u64| m <= k < 64 implies !bit_at(w, k) by {
                assert(!words_bit(self.words@, 64 * j + k));
            }
            lemma_clear_above(w, m as u64);
            lemma_small_word_value(w, m);
        }
        assert(self.words@ =~= packed_words(self@));
    }
}

impl Default for BitVector {
    /// An empty bit vector.
    fn default() -> (r: Self)
        ensures
            r.wf(),
            r@ == Seq::<bool>::empty(),
    {
        BitVector::new()
    }
}

} // verus!
