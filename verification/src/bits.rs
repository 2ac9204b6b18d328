//! Bits of a machine word and sequences of bits, with the arithmetic that
//! connects the two.

use vstd::arithmetic::div_mod::lemma_breakdown;
use vstd::arithmetic::div_mod::lemma_small_mod;
use vstd::arithmetic::power2::lemma2_to64;
use vstd::arithmetic::power2::lemma_pow2_pos;
use vstd::arithmetic::power2::lemma_pow2_strictly_increases;
use vstd::arithmetic::power2::lemma_pow2_unfold;
use vstd::arithmetic::power2::pow2;
use vstd::bits::lemma_u64_shl_is_mul;
use vstd::prelude::*;

verus! {

/// Whether bit `k` of `w` is set; bit 0 is the least significant one.
pub open spec fn bit_at(w: u64, k: u64) -> bool {
    (w >> k) & 1 == 1
}

/// Whether bit `k` of `w` is set, for an index of any size: there is no bit
/// outside `0..64`.
pub open spec fn word_bit(w: u64, k: int) -> bool {
    0 <= k < 64 && bit_at(w, k as u64)
}

/// The `n` lowest bits of `w`, least significant first.
pub open spec fn low_bits(w: u64, n: nat) -> Seq<bool> {
    Seq::new(n, |k: int| word_bit(w, k))
}

/// The number that a sequence of bits stands for, least significant bit first.
pub open spec fn bits_value(s: Seq<bool>) -> nat
    decreases s.len(),
{
    if s.len() == 0 {
        0
    } else {
        (if s[0] { 1nat } else { 0nat }) + 2 * bits_value(s.drop_first())
    }
}

/// The word whose `n` lowest bits are set and no others.
pub open spec fn low_mask(n: u64) -> u64 {
    if n >= 64 {
        u64::MAX
    } else {
        ((1u64 << n) - 1) as u64
    }
}

/// The sequence `s` with the bits of `t` written over it from position `pos`.
pub open spec fn splice(s: Seq<bool>, pos: int, t: Seq<bool>) -> Seq<bool> {
    Seq::new(
        s.len(),
        |i: int|
            if pos <= i < pos + t.len() {
                t[i - pos]
            } else {
                s[i]
            },
    )
}

/// Bit `i` of a sequence of words, counting from the lowest bit of the first
/// word.
pub open spec fn words_bit(words: Seq<u64>, i: int) -> bool {
    word_bit(words[i / 64], i % 64)
}

/// Shifting a word down by one bit halves it, drops its lowest bit, which
/// says whether the word is odd, and moves every other bit down by one.
proof fn lemma_halve(w: u64)
    ensures
        w >> 1 == w / 2,
        bit_at(w, 0) == (w % 2 == 1),
        forall|k: u64| k < 63 ==> bit_at(w >> 1, k) == #[trigger] bit_at(w, (k + 1) as u64),
{
    assert(w >> 1 == w / 2) by (bit_vector);
    assert(bit_at(w, 0) == (w % 2 == 1)) by (bit_vector);
    assert forall|k: u64| k < 63 implies bit_at(w >> 1, k) == #[trigger] bit_at(
        w,
        (k + 1) as u64,
    ) by {
        assert(k < 63 ==> ((w >> 1) >> k) & 1 == (w >> ((k + 1) as u64)) & 1) by (bit_vector);
    }
}

/// The `n` lowest bits of a word stand for the word reduced modulo `2^n`.
pub proof fn lemma_low_bits_value(w: u64, n: nat)
    requires
        n <= 64,
    ensures
        bits_value(low_bits(w, n)) == (w as nat) % pow2(n),
    decreases n,
{
    if n == 0 {
        lemma2_to64();
    } else {
        let h: u64 = w >> 1;
        let m: nat = (n - 1) as nat;
        lemma_halve(w);
        assert(low_bits(w, n).drop_first() =~= low_bits(h, m)) by {
            assert forall|k: int| 0 <= k < m implies low_bits(w, n).drop_first()[k] == low_bits(
                h,
                m,
            )[k] by {
                assert(bit_at(h, k as u64) == bit_at(w, ((k as u64) + 1) as u64));
            }
        }
        lemma_low_bits_value(h, m);
        lemma_pow2_unfold(n);
        lemma_pow2_pos(m);
        lemma_breakdown(w as int, 2, pow2(m) as int);
    }
}

/// `2^n` fits in 65 bits for `n <= 64`.
pub proof fn lemma_pow2_le_64(n: nat)
    requires
        n <= 64,
    ensures
        0 < pow2(n) <= 0x1_0000_0000_0000_0000,
        n < 64 ==> pow2(n) <= 0x8000_0000_0000_0000,
{
    lemma2_to64();
    lemma_pow2_pos(n);
    lemma_pow2_unfold(64);
    if n < 63 {
        lemma_pow2_strictly_increases(n, 63);
    }
}

/// A sequence of at most 64 bits stands for a number below `2^len`, and the
/// low bits of that number are the sequence again.
pub proof fn lemma_bits_value_bits(s: Seq<bool>)
    requires
        s.len() <= 64,
    ensures
        bits_value(s) < pow2(s.len()),
        bits_value(s) <= u64::MAX,
        low_bits(bits_value(s) as u64, s.len()) == s,
    decreases s.len(),
{
    let n: nat = s.len();
    lemma_pow2_le_64(n);
    if n > 0 {
        let t: Seq<bool> = s.drop_first();
        let m: nat = (n - 1) as nat;
        lemma_bits_value_bits(t);
        lemma_pow2_unfold(n);
        let x: u64 = bits_value(s) as u64;
        let h: u64 = bits_value(t) as u64;
        lemma_halve(x);
        assert(x >> 1 == h);
        assert forall|k: int| 0 <= k < n implies low_bits(x, n)[k] == s[k] by {
            if k > 0 {
                assert(bit_at(h, (k - 1) as u64) == bit_at(x, (((k - 1) as u64) + 1) as u64));
                assert(low_bits(h, m)[k - 1] == t[k - 1]);
            }
        }
    }
    assert(low_bits(bits_value(s) as u64, n) =~= s);
}

/// The mask of the `n` lowest bits is `2^n - 1`.
pub proof fn lemma_low_mask(n: u64)
    requires
        n <= 64,
    ensures
        low_mask(n) + 1 == pow2(n as nat),
{
    lemma2_to64();
    if n < 64 {
        lemma_pow2_le_64(n as nat);
        lemma_u64_shl_is_mul(1, n);
        assert(1u64 << n >= 1) by (bit_vector)
            requires
                n < 64,
        ;
    }
}

/// A word below `2^n` is the number that its `n` lowest bits stand for.
pub proof fn lemma_small_word_value(w: u64, n: nat)
    requires
        n <= 64,
        w <= low_mask(n as u64),
    ensures
        bits_value(low_bits(w, n)) == w,
{
    lemma_low_mask(n as u64);
    lemma_low_bits_value(w, n);
    lemma_small_mod(w as nat, pow2(n));
}

/// Reading `n` bits at offset `shift` of one word: shift down and mask.
pub proof fn lemma_read_one(w: u64, shift: u64, n: u64, k: u64)
    by (bit_vector)
    requires
        shift < 64,
        n <= 64,
        shift + n <= 64,
        k < 64,
    ensures
        bit_at((w >> shift) & low_mask(n), k) == (k < n && bit_at(w, (shift + k) as u64)),
        (w >> shift) & low_mask(n) <= low_mask(n),
{
}

/// Reading `n` bits that start at offset `shift` of `w0` and run on into `w1`.
pub proof fn lemma_read_two(w0: u64, w1: u64, shift: u64, n: u64, k: u64)
    by (bit_vector)
    requires
        0 < shift < 64,
        n <= 64,
        shift + n > 64,
        k < 64,
    ensures
        bit_at((w0 >> shift) | ((w1 << ((64 - shift) as u64)) & low_mask(n)), k) == (k < n && if shift
            + k < 64 {
            bit_at(w0, (shift + k) as u64)
        } else {
            bit_at(w1, (shift + k - 64) as u64)
        }),
        (w0 >> shift) | ((w1 << ((64 - shift) as u64)) & low_mask(n)) <= low_mask(n),
{
}

/// Writing the `n` lowest bits of `value` at offset `shift` of one word:
/// clear the field, then set it. Bits that do not fit in the word are lost.
pub proof fn lemma_write_one(w: u64, value: u64, shift: u64, n: u64, k: u64)
    by (bit_vector)
    requires
        shift < 64,
        n <= 64,
        k < 64,
    ensures
        bit_at((w & !(low_mask(n) << shift)) | ((value & low_mask(n)) << shift), k) == if shift <= k
            && k - shift < n {
            bit_at(value, (k - shift) as u64)
        } else {
            bit_at(w, k)
        },
{
}

/// Writing into the next word those of the `n` lowest bits of `value` that
/// the first word had no room for, `stored` bits having gone there.
pub proof fn lemma_write_next(w: u64, value: u64, stored: u64, n: u64, k: u64)
    by (bit_vector)
    requires
        0 < stored < 64,
        stored < n <= 64,
        k < 64,
    ensures
        bit_at((w & !(low_mask(n) >> stored)) | ((value & low_mask(n)) >> stored), k) == if k
            + stored < n {
            bit_at(value, (k + stored) as u64)
        } else {
            bit_at(w, k)
        },
{
}

/// No bit of zero is set.
pub proof fn lemma_zero_word(k: u64)
    by (bit_vector)
    ensures
        !bit_at(0, k),
{
}

/// A word within the mask of the `n` lowest bits has no bit set above them.
pub proof fn lemma_mask_clears(w: u64, n: u64, k: u64)
    by (bit_vector)
    requires
        w <= low_mask(n),
        n <= k < 64,
    ensures
        !bit_at(w, k),
{
}

/// A word within the mask of the `n + 1` lowest bits whose bit `n` is not
/// set is within the mask of the `n` lowest bits.
proof fn lemma_clear_step(w: u64, n: u64)
    by (bit_vector)
    requires
        n < 64,
        w <= low_mask((n + 1) as u64),
        !bit_at(w, n),
    ensures
        w <= low_mask(n),
{
}

/// A word with no bit set from bit `n` on is within the mask of the `n`
/// lowest bits.
pub proof fn lemma_clear_above(w: u64, n: u64)
    requires
        n <= 64,
        forall|k: u64| n <= k < 64 ==> !bit_at(w, k),
    ensures
        w <= low_mask(n),
    decreases 64 - n,
{
    if n < 64 {
        lemma_clear_above(w, (n + 1) as u64);
        lemma_clear_step(w, n);
    }
}

/// A word is within the mask of the `n` lowest bits exactly if shifting it
/// down by `n` leaves nothing.
pub proof fn lemma_shift_clear(w: u64, n: u64)
    by (bit_vector)
    requires
        n < 64,
    ensures
        (w >> n == 0) == (w <= low_mask(n)),
{
}

} // verus!
