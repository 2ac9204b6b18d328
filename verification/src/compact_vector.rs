//! A vector of unsigned integers that takes the same number of bits for each.

use crate::bit_vector::BitVector;
use crate::bits::bits_value;
use crate::bits::lemma_bits_value_bits;
use crate::bits::lemma_low_bits_value;
use crate::bits::lemma_zero_word;
use crate::bits::low_bits;
use crate::endian::get_u64;
use crate::endian::put_u64;
use crate::error::Error;
use crate::format::announced_len;
use crate::format::decode;
use crate::format::encode;
use crate::format::lemma_decode_encode;
use crate::format::pack;
use crate::format::slot;
use crate::format::unpack;
use crate::util::fits_in;
use crate::util::lemma_needed_bits_is_least;
use crate::util::lemma_pow2_increases;
use crate::util::lemma_seq_max;
use crate::util::lemma_usize_max;
use crate::util::max_of;
use crate::util::needed_bits;
use crate::util::seq_max;
use crate::util::spec_needed_bits;
use vstd::arithmetic::div_mod::lemma_fundamental_div_mod;
use vstd::arithmetic::div_mod::lemma_fundamental_div_mod_converse;
use vstd::arithmetic::div_mod::lemma_multiply_divide_lt;
use vstd::arithmetic::div_mod::lemma_small_mod;
use vstd::arithmetic::mul::lemma_mul_is_commutative;
use vstd::arithmetic::power2::lemma_pow2_pos;
use vstd::arithmetic::power2::pow2;
use vstd::bytes::lemma_auto_spec_u64_to_from_le_bytes;
use vstd::prelude::*;
use vstd::std_specs::cmp::PartialEqSpec;

verus! {

/// `value` cut down to its `width` lowest bits, which is `value` itself where
/// it is below `2^width`.
pub open spec fn spec_truncate(value: usize, width: nat) -> usize {
    (value as nat % pow2(width)) as usize
}

/// Slot `i` begins at or after the end of every slot before it.
proof fn lemma_slot_order(i: int, j: int, width: int)
    by (nonlinear_arith)
    requires
        0 <= i < j,
        0 <= width,
    ensures
        0 <= i * width,
        i * width + width <= j * width,
{
}

/// Slot `i + 1` begins where slot `i` ends.
proof fn lemma_next_slot(i: int, width: int)
    by (nonlinear_arith)
    ensures
        (i + 1) * width == i * width + width,
{
}

/// Whether `value` may be stored at `pos` in a vector of `len` elements of
/// `width` bits each, and if not, why: a position that is not below the
/// length is reported before a value that does not fit.
pub open spec fn spec_try_set(len: nat, width: nat, pos: usize, value: usize) -> Result<(), Error> {
    if pos >= len {
        Err(Error::OutOfBounds)
    } else if value >= pow2(width) {
        Err(Error::ValueOverflow)
    } else {
        Ok(())
    }
}

/// A value below `2^width` is left as it is by truncation.
pub proof fn lemma_truncate_small(value: usize, width: nat)
    requires
        value < pow2(width),
    ensures
        spec_truncate(value, width) == value,
{
    lemma_small_mod(value as nat, pow2(width));
}

/// A vector of integers of `width` bits each. Its view is the sequence of
/// its elements, `Seq<usize>`; the width is `self.width()`.
///
/// The elements are packed into a bit vector without gaps: element `i`
/// takes the bits from `i * width` to `i * width + width`, lowest bit first.
/// The width is set when the vector is made and stays.
#[derive(Debug, Eq)]
pub struct CompactVector {
    chunks: BitVector,
    len: usize,
    width: usize,
}

impl PartialEq for CompactVector {
    /// Compares the lengths, the widths and the bits.
    fn eq(&self, other: &Self) -> (r: bool) {
        self.len == other.len && self.width == other.width && self.chunks == other.chunks
    }
}

impl vstd::std_specs::cmp::PartialEqSpecImpl for CompactVector {
    open spec fn obeys_eq_spec() -> bool {
        true
    }

    open spec fn eq_spec(&self, other: &Self) -> bool {
        self.same_parts(other)
    }
}

impl View for CompactVector {
    type V = Seq<usize>;

    closed spec fn view(&self) -> Seq<usize> {
        unpack(self.chunks@, self.len as nat, self.width as nat)
    }
}

impl CompactVector {
    /// The number of bits of each element.
    pub closed spec fn spec_width(&self) -> usize {
        self.width
    }

    /// The representation invariant: the width is at most that of `usize`,
    /// and the bit vector holds exactly `width` bits for each element.
    pub closed spec fn wf(&self) -> bool {
        &&& self.chunks.wf()
        &&& self.width <= usize::BITS
        &&& self.len * self.width <= usize::MAX
        &&& self.chunks@.len() == self.len * self.width
    }

    /// Creates an empty vector of the given width.
    pub fn new(width: usize) -> (r: Self)
        requires
            width <= usize::BITS,
        ensures
            r.wf(),
            r@ == Seq::<usize>::empty(),
            r.width() == width,
    {
        let r = CompactVector { chunks: BitVector::new(), len: 0, width };
        assert(r@ =~= Seq::<usize>::empty());
        r
    }

    /// Creates an empty vector of the given width with room for `capa`
    /// elements. The room is a hint: nothing that the vector reports
    /// depends on it.
    pub fn with_capacity(capa: usize, width: usize) -> (r: Self)
        requires
            width <= usize::BITS,
            capa * width <= usize::MAX,
        ensures
            r.wf(),
            r@ == Seq::<usize>::empty(),
            r.width() == width,
    {
        let r = CompactVector { chunks: BitVector::with_capacity(capa * width), len: 0, width };
        assert(r@ =~= Seq::<usize>::empty());
        r
    }

    /// Creates a vector of `len` elements of the given width, all zero.
    pub fn with_len(len: usize, width: usize) -> (r: Self)
        requires
            width <= usize::BITS,
            len * width <= usize::MAX,
        ensures
            r.wf(),
            r@ == Seq::new(len as nat, |i: int| 0usize),
            r.width() == width,
    {
        let r = CompactVector { chunks: BitVector::with_len(len * width), len, width };
        proof {
            assert forall|i: int| 0 <= i < len implies r@[i] == 0 by {
                r.lemma_slot_value(i);
                assert(slot(r.chunks@, width as nat, i) =~= low_bits(0, width as nat)) by {
                    assert forall|k: int| 0 <= k < width implies !low_bits(0, width as nat)[k] by {
                        lemma_zero_word(k as u64);
                    }
                }
                lemma_low_bits_value(0, width as nat);
                lemma_pow2_pos(width as nat);
                lemma_small_mod(0, pow2(width as nat));
            }
            assert(r@ =~= Seq::new(len as nat, |i: int| 0usize));
        }
        r
    }

    /// Creates a vector that holds `ints`, in the least width that is enough
    /// for the largest of them (zero takes one bit). From no values no width
    /// can be chosen: that is an error.
    pub fn from_slice(ints: &[usize]) -> (r: Result<Self, Error>)
        requires
            ints@.len() * spec_needed_bits(seq_max(ints@) as nat) <= usize::MAX,
        ensures
            ints@.len() == 0 ==> r == Err::<Self, Error>(Error::EmptyInput),
            ints@.len() > 0 ==> r is Ok,
            r is Ok ==> {
                let v = r->Ok_0;
                &&& v.wf()
                &&& v@ == ints@
                &&& v.width() == spec_needed_bits(seq_max(ints@) as nat)
                &&& seq_max(ints@) < pow2(v.width() as nat)
                &&& seq_max(ints@) > 0 ==> pow2((v.width() - 1) as nat) <= seq_max(ints@)
            },
    {
        if ints.len() == 0 {
            return Err(Error::EmptyInput);
        }
        let width: usize = needed_bits(max_of(ints));
        let mut cv = Self::with_len(ints.len(), width);
        let mut i: usize = 0;
        proof {
            lemma_needed_bits_is_least(seq_max(ints@) as nat);
            lemma_seq_max(ints@);
        }
        while i < ints.len()
            invariant
                i <= ints@.len(),
                cv.wf(),
                cv.width() == width,
                cv@.len() == ints@.len(),
                forall|j: int| 0 <= j < i ==> cv@[j] == ints@[j],
                forall|j: int| 0 <= j < ints@.len() ==> ints@[j] < pow2(width as nat),
            decreases ints@.len() - i,
        {
            proof {
                lemma_truncate_small(ints@[i as int], width as nat);
            }
            cv.set(i, ints[i]);
            i = i + 1;
        }
        assert(cv@ =~= ints@);
        Ok(cv)
    }

    /// Returns the number of elements.
    pub fn len(&self) -> (r: usize)
        ensures
            r == self@.len(),
    {
        self.len
    }

    /// Returns whether the vector has no element.
    pub fn is_empty(&self) -> (r: bool)
        ensures
            r == (self@.len() == 0),
    {
        self.len == 0
    }

    /// Returns the number of bits of each element.
    #[verifier::when_used_as_spec(spec_width)]
    pub fn width(&self) -> (r: usize)
        ensures
            r == self.width(),
    {
        self.width
    }

    /// Returns the element at `pos`, which the caller knows to be below the
    /// length; `try_get` is for a position that may not be.
    pub fn get(&self, pos: usize) -> (r: usize)
        requires
            self.wf(),
            pos < self@.len(),
        ensures
            r == self@[pos as int],
    {
        proof {
            self.lemma_slot_value(pos as int);
        }
        let bits: u64 = self.chunks.get_bits(pos * self.width, self.width);
        bits as usize
    }

    /// Overwrites the element at `pos`, which the caller knows to be below
    /// the length, with the `width` lowest bits of `value`: a value that
    /// does not fit is cut down, not refused. `try_set` is for a position
    /// that may be out of bounds and a value that may not fit.
    pub fn set(&mut self, pos: usize, value: usize)
        requires
            old(self).wf(),
            pos < old(self)@.len(),
        ensures
            final(self).wf(),
            final(self).width() == old(self).width(),
            final(self)@ == old(self)@.update(
                pos as int,
                spec_truncate(value, old(self).width() as nat),
            ),
    {
        proof {
            self.lemma_slot_value(pos as int);
        }
        self.chunks.set_bits(pos * self.width, value as u64, self.width);
        proof {
            let w: nat = self.width as nat;
            let field: Seq<bool> = low_bits(value as u64, w);
            assert forall|i: int| 0 <= i < self.len implies self@[i] == old(self)@.update(
                pos as int,
                spec_truncate(value, w),
            )[i] by {
                self.lemma_slot_value(i);
                old(self).lemma_slot_value(i);
                if i < pos {
                    lemma_slot_order(i, pos as int, w as int);
                    assert(slot(self.chunks@, w, i) =~= slot(old(self).chunks@, w, i));
                } else if i > pos {
                    lemma_slot_order(pos as int, i, w as int);
                    assert(slot(self.chunks@, w, i) =~= slot(old(self).chunks@, w, i));
                } else {
                    assert(slot(self.chunks@, w, i) =~= field);
                    lemma_low_bits_value(value as u64, w);
                }
            }
            assert(self@ =~= old(self)@.update(pos as int, spec_truncate(value, w)));
        }
    }

    /// Appends the `width` lowest bits of `value` as a new last element: a
    /// value that does not fit is cut down, not refused. `try_push` is for
    /// a value that may not fit.
    pub fn push(&mut self, value: usize)
        requires
            old(self).wf(),
            old(self)@.len() < usize::MAX,
            (old(self)@.len() + 1) * old(self).width() <= usize::MAX,
        ensures
            final(self).wf(),
            final(self).width() == old(self).width(),
            final(self)@ == old(self)@.push(spec_truncate(value, old(self).width() as nat)),
    {
        proof {
            lemma_next_slot(self.len as int, self.width as int);
        }
        self.chunks.push_bits(value as u64, self.width);
        self.len = self.len + 1;
        proof {
            let w: nat = self.width as nat;
            let field: Seq<bool> = low_bits(value as u64, w);
            assert forall|i: int| 0 <= i < self.len implies self@[i] == old(self)@.push(
                spec_truncate(value, w),
            )[i] by {
                self.lemma_slot_value(i);
                if i < old(self).len {
                    old(self).lemma_slot_value(i);
                    assert(slot(self.chunks@, w, i) =~= slot(old(self).chunks@, w, i));
                } else {
                    assert(slot(self.chunks@, w, i) =~= field);
                    lemma_low_bits_value(value as u64, w);
                }
            }
            assert(self@ =~= old(self)@.push(spec_truncate(value, w)));
        }
    }

    /// Returns the element at `pos`, or an error where there is none.
    pub fn try_get(&self, pos: usize) -> (r: Result<usize, Error>)
        requires
            self.wf(),
        ensures
            r == if pos < self@.len() {
                Ok::<usize, Error>(self@[pos as int])
            } else {
                Err::<usize, Error>(Error::OutOfBounds)
            },
    {
        if pos < self.len {
            Ok(self.get(pos))
        } else {
            Err(Error::OutOfBounds)
        }
    }

    /// Overwrites the element at `pos` with `value`. Where there is no such
    /// element, or `value` does not fit in the width, the vector is left as
    /// it is and the error says which; a bad position is reported first.
    pub fn try_set(&mut self, pos: usize, value: usize) -> (r: Result<(), Error>)
        requires
            old(self).wf(),
        ensures
            final(self).wf(),
            final(self).width() == old(self).width(),
            r == spec_try_set(old(self)@.len(), old(self).width() as nat, pos, value),
            r is Ok ==> final(self)@ == old(self)@.update(pos as int, value),
            r is Err ==> *final(self) == *old(self),
    {
        if pos >= self.len {
            return Err(Error::OutOfBounds);
        }
        if !fits_in(value, self.width) {
            return Err(Error::ValueOverflow);
        }
        proof {
            lemma_truncate_small(value, self.width as nat);
        }
        self.set(pos, value);
        Ok(())
    }

    /// Appends `value` as a new last element. Where `value` does not fit in
    /// the width, the vector is left as it is and that is the error.
    pub fn try_push(&mut self, value: usize) -> (r: Result<(), Error>)
        requires
            old(self).wf(),
            old(self)@.len() < usize::MAX,
            (old(self)@.len() + 1) * old(self).width() <= usize::MAX,
        ensures
            final(self).wf(),
            final(self).width() == old(self).width(),
            r == if value < pow2(old(self).width() as nat) {
                Ok::<(), Error>(())
            } else {
                Err::<(), Error>(Error::ValueOverflow)
            },
            r is Ok ==> final(self)@ == old(self)@.push(value),
            r is Err ==> *final(self) == *old(self),
    {
        if !fits_in(value, self.width) {
            return Err(Error::ValueOverflow);
        }
        proof {
            lemma_truncate_small(value, self.width as nat);
        }
        self.push(value);
        Ok(())
    }

    /// Returns the elements, in order.
    pub fn to_vec(&self) -> (r: Vec<usize>)
        requires
            self.wf(),
        ensures
            r@ == self@,
    {
        let mut ints: Vec<usize> = Vec::with_capacity(self.len);
        let mut i: usize = 0;
        while i < self.len
            invariant
                self.wf(),
                i <= self@.len(),
                self@.len() == self.len,
                ints@ == self@.subrange(0, i as int),
            decreases self.len - i,
        {
            ints.push(self.get(i));
            i = i + 1;
            assert(ints@ =~= self@.subrange(0, i as int));
        }
        assert(ints@ =~= self@);
        ints
    }

    /// Returns the number of bytes that `serialize_into` writes.
    pub fn size_in_bytes(&self) -> (r: usize)
        requires
            self.wf(),
        ensures
            r == encode(self@, self.width() as nat).len(),
    {
        proof {
            self.lemma_chunks_packed();
            lemma_auto_spec_u64_to_from_le_bytes();
        }
        self.chunks.size_in_bytes() + 16
    }

    /// Appends the encoding of the vector to `out` and returns the number
    /// of bytes appended.
    pub fn serialize_into(&self, out: &mut Vec<u8>) -> (r: usize)
        requires
            self.wf(),
        ensures
            final(out)@ == old(out)@ + encode(self@, self.width() as nat),
            r == encode(self@, self.width() as nat).len(),
    {
        proof {
            self.lemma_chunks_packed();
            lemma_auto_spec_u64_to_from_le_bytes();
        }
        let mem: usize = self.chunks.serialize_into(out);
        put_u64(out, self.len as u64);
        put_u64(out, self.width as u64);
        assert(out@ =~= old(out)@ + encode(self@, self.width as nat));
        mem + 16
    }

    /// Returns the number of bytes that the encoding of a vector takes, as
    /// the first eight bytes of `header` announce it. A reader that has
    /// those eight bytes learns from it how many to fetch. Where `header`
    /// is shorter, or announces more bytes than can be held, there cannot
    /// be enough of them.
    pub fn frame_len(header: &[u8]) -> (r: Result<usize, Error>)
        ensures
            header@.len() >= 8 && announced_len(header@) <= usize::MAX ==> r == Ok::<usize, Error>(
                announced_len(header@) as usize,
            ),
            header@.len() < 8 || announced_len(header@) > usize::MAX ==> r == Err::<usize, Error>(
                Error::UnexpectedEof,
            ),
    {
        if header.len() < 8 {
            return Err(Error::UnexpectedEof);
        }
        let announced: u64 = get_u64(header, 0);
        if announced > ((usize::MAX - 32) / 8) as u64 {
            return Err(Error::UnexpectedEof);
        }
        Ok(8 * (announced as usize) + 32)
    }

    /// Reads a vector from the encoding that `bytes` begin with; what
    /// follows the encoding is not looked at. The bytes are refused where
    /// they end too early, and where what they announce does not fit
    /// together: nothing is built from them then.
    pub fn deserialize_from(bytes: &[u8]) -> (r: Result<Self, Error>)
        ensures
            match decode(bytes@) {
                Ok((elems, width)) => {
                    &&& r is Ok
                    &&& r->Ok_0.wf()
                    &&& r->Ok_0@ == elems
                    &&& r->Ok_0.width() == width
                },
                Err(e) => r == Err::<Self, Error>(e),
            },
    {
        let chunks: BitVector = match BitVector::deserialize_from(bytes) {
            Ok(chunks) => chunks,
            Err(e) => {
                return Err(e);
            },
        };
        let at: usize = chunks.size_in_bytes();
        let total: usize = bytes.len();
        if total - at < 16 {
            return Err(Error::UnexpectedEof);
        }
        let count: u64 = get_u64(bytes, at);
        let wide: u64 = get_u64(bytes, at + 8);
        if wide > usize::BITS as u64 || count > usize::MAX as u64 {
            return Err(Error::MalformedData);
        }
        let len: usize = count as usize;
        let width: usize = wide as usize;
        let bit_count: usize = chunks.len();
        let fitting: bool = if width == 0 {
            bit_count == 0
        } else {
            bit_count % width == 0 && bit_count / width == len
        };
        proof {
            if width > 0 {
                lemma_fundamental_div_mod(bit_count as int, width as int);
                lemma_mul_is_commutative(width as int, bit_count as int / width as int);
                if len * width == bit_count {
                    lemma_fundamental_div_mod_converse(
                        bit_count as int,
                        width as int,
                        len as int,
                        0,
                    );
                }
            }
        }
        if !fitting {
            return Err(Error::MalformedData);
        }
        Ok(CompactVector { chunks, len, width })
    }

    /// Whether the two are stored alike: the same length, the same width
    /// and bit vectors that are equal under `==`. This is what `==` tests.
    pub closed spec fn same_parts(&self, other: &Self) -> bool {
        self.len == other.len && self.width == other.width && self.chunks.eq_spec(&other.chunks)
    }

    /// Every element of a well-formed vector is below `2^width`.
    pub proof fn lemma_elements_fit(&self)
        requires
            self.wf(),
        ensures
            forall|i: int| 0 <= i < self@.len() ==> #[trigger] self@[i] < pow2(self.width() as nat),
    {
        assert forall|i: int| 0 <= i < self@.len() implies #[trigger] self@[i] < pow2(
            self.width() as nat,
        ) by {
            self.lemma_slot_value(i);
        }
    }

    /// What is written of a well-formed vector is read back as the same
    /// elements and the same width, whatever bytes follow it.
    pub proof fn lemma_round_trip(&self, rest: Seq<u8>)
        requires
            self.wf(),
        ensures
            decode(encode(self@, self.width() as nat) + rest) == Ok::<(Seq<usize>, usize), Error>(
                (self@, self.width()),
            ),
    {
        self.lemma_elements_fit();
        lemma_decode_encode(self@, self.width as nat, rest);
    }

    /// Well-formed vectors are stored alike exactly if they have the same
    /// elements and the same width: `==` is equality of what the vectors
    /// report, and nothing else about how a vector came to be, such as the
    /// room it was made with, can show in it.
    pub proof fn lemma_eq_is_view_eq(&self, other: &Self)
        requires
            self.wf(),
            other.wf(),
        ensures
            self.eq_spec(other) <==> (self@ == other@ && self.width() == other.width()),
    {
        self.chunks.lemma_eq_is_view_eq(&other.chunks);
        if self@ == other@ && self.width == other.width {
            assert(self.len == other.len) by {
                assert(self@.len() == other@.len());
            }
            self.lemma_chunks_packed();
            other.lemma_chunks_packed();
        }
    }

    /// The bits of slot `i` stand for a number that fits in `usize`.
    proof fn lemma_slot_value(&self, i: int)
        requires
            self.wf(),
            0 <= i < self.len,
        ensures
            0 <= i * self.width,
            i * self.width + self.width <= self.len * self.width,
            self@[i] == bits_value(slot(self.chunks@, self.width as nat, i)),
            self@[i] < pow2(self.width as nat),
    {
        lemma_slot_order(i, self.len as int, self.width as int);
        lemma_bits_value_bits(slot(self.chunks@, self.width as nat, i));
        lemma_pow2_increases(self.width as nat, usize::BITS as nat);
        lemma_usize_max();
    }

    /// The bits of a well-formed vector are the packed bits of its
    /// elements.
    proof fn lemma_chunks_packed(&self)
        requires
            self.wf(),
        ensures
            self.chunks@ == pack(self@, self.width as nat),
    {
        let w: nat = self.width as nat;
        assert forall|b: int| 0 <= b < self.len * self.width implies self.chunks@[b] == pack(
            self@,
            w,
        )[b] by {
            let i: int = b / w as int;
            let k: int = b % w as int;
            lemma_fundamental_div_mod(b, w as int);
            lemma_mul_is_commutative(w as int, i);
            lemma_mul_is_commutative(w as int, self.len as int);
            lemma_multiply_divide_lt(b, w as int, self.len as int);
            self.lemma_slot_value(i);
            lemma_bits_value_bits(slot(self.chunks@, w, i));
            assert(low_bits(self@[i] as u64, w)[k] == slot(self.chunks@, w, i)[k]);
        }
        assert(self.chunks@ =~= pack(self@, w));
    }
}

impl Default for CompactVector {
    /// An empty vector of width zero.
    fn default() -> (r: Self)
        ensures
            r.wf(),
            r@ == Seq::<usize>::empty(),
            r.width() == 0,
    {
        CompactVector::new(0)
    }
}

} // verus!
