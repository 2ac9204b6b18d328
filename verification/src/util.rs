//! How many bits a number needs, how many words a number of bits needs, and
//! the largest of some numbers.

use vstd::arithmetic::div_mod::lemma_basic_div;
use vstd::arithmetic::div_mod::lemma_div_non_zero;
use vstd::arithmetic::power2::lemma2_to64;
use vstd::arithmetic::power2::lemma_pow2_pos;
use vstd::arithmetic::power2::lemma_pow2_strictly_increases;
use vstd::arithmetic::power2::lemma_pow2_unfold;
use vstd::arithmetic::power2::pow2;
use vstd::bits::lemma_u64_shr_is_div;
use vstd::prelude::*;

verus! {

/// The number of bits needed to write `x` in binary, where zero still takes
/// one bit.
pub open spec fn spec_needed_bits(x: nat) -> nat
    decreases x,
{
    if x <= 1 {
        1
    } else {
        1 + spec_needed_bits(x / 2)
    }
}

/// Returns the number of bits needed to write `x` in binary; zero takes one bit.
pub fn needed_bits(x: usize) -> (r: usize)
    ensures
        r == spec_needed_bits(x as nat),
        1 <= r <= usize::BITS,
{
    proof {
        lemma_usize_max();
        lemma_needed_bits_bound(x as nat, usize::BITS as nat);
    }
    if x == 0 {
        return 1;
    }
    let mut y: usize = x;
    let mut n: usize = 0;
    while y != 0
        invariant
            spec_needed_bits(x as nat) <= usize::BITS,
            y != 0 ==> n + spec_needed_bits(y as nat) == spec_needed_bits(x as nat),
            y == 0 ==> n == spec_needed_bits(x as nat),
        decreases y,
    {
        y = y / 2;
        n = n + 1;
    }
    n
}

/// Returns whether `value` can be written in `width` bits.
pub fn fits_in(value: usize, width: usize) -> (r: bool)
    ensures
        r == (value < pow2(width as nat)),
{
    if width >= 64 {
        proof {
            lemma2_to64();
            lemma_pow2_increases(64, width as nat);
        }
        true
    } else {
        let v: u64 = value as u64;
        let w: u64 = width as u64;
        proof {
            lemma_u64_shr_is_div(v, w);
            lemma_pow2_pos(w as nat);
            if v < pow2(w as nat) {
                lemma_basic_div(v as int, pow2(w as nat) as int);
            } else {
                lemma_div_non_zero(v as int, pow2(w as nat) as int);
            }
        }
        v >> w == 0
    }
}

/// The largest element of `s`, or zero where `s` is empty.
pub open spec fn seq_max(s: Seq<usize>) -> usize
    decreases s.len(),
{
    if s.len() == 0 {
        0
    } else if s.last() > seq_max(s.drop_last()) {
        s.last()
    } else {
        seq_max(s.drop_last())
    }
}

/// Returns the largest of `values`, or zero where there is none.
pub fn max_of(values: &[usize]) -> (r: usize)
    ensures
        r == seq_max(values@),
{
    let mut best: usize = 0;
    let mut i: usize = 0;
    while i < values.len()
        invariant
            i <= values@.len(),
            best == seq_max(values@.subrange(0, i as int)),
        decreases values@.len() - i,
    {
        assert(values@.subrange(0, i + 1).drop_last() =~= values@.subrange(0, i as int));
        if values[i] > best {
            best = values[i];
        }
        i = i + 1;
    }
    assert(values@.subrange(0, i as int) =~= values@);
    best
}

/// The number of 64-bit words needed to hold `bits` bits.
pub open spec fn spec_words_for(bits: int) -> int {
    (bits + 63) / 64
}

/// Returns the number of 64-bit words needed to hold `bits` bits.
pub fn words_for(bits: usize) -> (r: usize)
    ensures
        r == spec_words_for(bits as int),
{
    if bits % 64 == 0 {
        bits / 64
    } else {
        bits / 64 + 1
    }
}

/// `spec_needed_bits(x)` bits are enough for `x`, and one bit fewer is not,
/// unless `x` is zero and the one bit is kept for it.
pub proof fn lemma_needed_bits_is_least(x: nat)
    ensures
        1 <= spec_needed_bits(x),
        x < pow2(spec_needed_bits(x)),
        x > 0 ==> pow2((spec_needed_bits(x) - 1) as nat) <= x,
    decreases x,
{
    lemma2_to64();
    if x > 1 {
        lemma_needed_bits_is_least(x / 2);
        lemma_pow2_unfold(spec_needed_bits(x));
        lemma_pow2_unfold(spec_needed_bits(x / 2));
    }
}

/// A number below `2^n` needs at most `n` bits, for `n >= 1`.
pub proof fn lemma_needed_bits_bound(x: nat, n: nat)
    requires
        n >= 1,
        x < pow2(n),
    ensures
        spec_needed_bits(x) <= n,
{
    lemma_needed_bits_is_least(x);
    if spec_needed_bits(x) > n {
        if spec_needed_bits(x) - 1 > n {
            lemma_pow2_strictly_increases(n, (spec_needed_bits(x) - 1) as nat);
        }
    }
}

/// `2^a <= 2^b` for `a <= b`.
pub proof fn lemma_pow2_increases(a: nat, b: nat)
    requires
        a <= b,
    ensures
        pow2(a) <= pow2(b),
{
    if a < b {
        lemma_pow2_strictly_increases(a, b);
    }
}

/// The largest value of `usize` is `2^usize::BITS - 1`.
pub proof fn lemma_usize_max()
    ensures
        usize::MAX + 1 == pow2(usize::BITS as nat),
        usize::BITS == 32 || usize::BITS == 64,
{
    lemma2_to64();
}

/// `seq_max(s)` is an upper bound of `s`, and an element of it unless `s` is
/// empty.
pub proof fn lemma_seq_max(s: Seq<usize>)
    ensures
        forall|i: int| 0 <= i < s.len() ==> s[i] <= seq_max(s),
        s.len() > 0 ==> s.contains(seq_max(s)),
    decreases s.len(),
{
    if s.len() > 0 {
        let t: Seq<usize> = s.drop_last();
        lemma_seq_max(t);
        assert forall|i: int| 0 <= i < s.len() implies s[i] <= seq_max(s) by {
            if i < t.len() {
                assert(t[i] == s[i]);
            }
        }
        if s.last() > seq_max(t) || t.len() == 0 {
            assert(s[s.len() - 1] == seq_max(s));
        } else {
            let j: int = choose|j: int| 0 <= j < t.len() && t[j] == seq_max(t);
            assert(s[j] == seq_max(s));
        }
    }
}

} // verus!
