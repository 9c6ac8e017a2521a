//! Bit reversal and the split-order key encoding.
use vstd::prelude::*;
use vstd::arithmetic::power2::{pow2, lemma_pow2_pos};
use vstd::bits::{low_bits_mask, lemma_u64_low_bits_mask_is_mod};

verus! {

/// Bit reversal of a 64-bit word, as a network of swaps of ever wider
/// groups (bits, pairs, nibbles, bytes, half-words, words).
pub open spec fn rev(x: u64) -> u64 {
    let a = ((x >> 1u64) & 0x5555555555555555u64) | ((x & 0x5555555555555555u64) << 1u64);
    let b = ((a >> 2u64) & 0x3333333333333333u64) | ((a & 0x3333333333333333u64) << 2u64);
    let c = ((b >> 4u64) & 0x0F0F0F0F0F0F0F0Fu64) | ((b & 0x0F0F0F0F0F0F0F0Fu64) << 4u64);
    let d = ((c >> 8u64) & 0x00FF00FF00FF00FFu64) | ((c & 0x00FF00FF00FF00FFu64) << 8u64);
    let e = ((d >> 16u64) & 0x0000FFFF0000FFFFu64) | ((d & 0x0000FFFF0000FFFFu64) << 16u64);
    (e >> 32u64) | (e << 32u64)
}

/// Bit `i` of the reversal of `x` is bit `63 - i` of `x`.
pub proof fn lemma_rev_bit(x: u64, i: u64)
    requires
        i < 64,
    ensures
        (rev(x) >> i) & 1 == (x >> (63 - i) as u64) & 1,
{
    let r = rev(x);
    assert((r >> i) & 1 == (x >> (63 - i) as u64) & 1) by (bit_vector)
        requires
            r == ({
                let a = ((x >> 1u64) & 0x5555555555555555u64) | ((x & 0x5555555555555555u64) << 1u64);
                let b = ((a >> 2u64) & 0x3333333333333333u64) | ((a & 0x3333333333333333u64) << 2u64);
                let c = ((b >> 4u64) & 0x0F0F0F0F0F0F0F0Fu64) | ((b & 0x0F0F0F0F0F0F0F0Fu64) << 4u64);
                let d = ((c >> 8u64) & 0x00FF00FF00FF00FFu64) | ((c & 0x00FF00FF00FF00FFu64) << 8u64);
                let e = ((d >> 16u64) & 0x0000FFFF0000FFFFu64) | ((d & 0x0000FFFF0000FFFFu64) << 16u64);
                (e >> 32u64) | (e << 32u64)
            }),
            i < 64,
    ;
}

/// Reversing twice gives the word back.
pub proof fn lemma_rev_involutive(x: u64)
    ensures
        rev(rev(x)) == x,
{
    let r = rev(x);
    let q = rev(r);
    assert(q == x) by (bit_vector)
        requires
            r == ({
                let a = ((x >> 1u64) & 0x5555555555555555u64) | ((x & 0x5555555555555555u64) << 1u64);
                let b = ((a >> 2u64) & 0x3333333333333333u64) | ((a & 0x3333333333333333u64) << 2u64);
                let c = ((b >> 4u64) & 0x0F0F0F0F0F0F0F0Fu64) | ((b & 0x0F0F0F0F0F0F0F0Fu64) << 4u64);
                let d = ((c >> 8u64) & 0x00FF00FF00FF00FFu64) | ((c & 0x00FF00FF00FF00FFu64) << 8u64);
                let e = ((d >> 16u64) & 0x0000FFFF0000FFFFu64) | ((d & 0x0000FFFF0000FFFFu64) << 16u64);
                (e >> 32u64) | (e << 32u64)
            }),
            q == ({
                let a = ((r >> 1u64) & 0x5555555555555555u64) | ((r & 0x5555555555555555u64) << 1u64);
                let b = ((a >> 2u64) & 0x3333333333333333u64) | ((a & 0x3333333333333333u64) << 2u64);
                let c = ((b >> 4u64) & 0x0F0F0F0F0F0F0F0Fu64) | ((b & 0x0F0F0F0F0F0F0F0Fu64) << 4u64);
                let d = ((c >> 8u64) & 0x00FF00FF00FF00FFu64) | ((c & 0x00FF00FF00FF00FFu64) << 8u64);
                let e = ((d >> 16u64) & 0x0000FFFF0000FFFFu64) | ((d & 0x0000FFFF0000FFFFu64) << 16u64);
                (e >> 32u64) | (e << 32u64)
            }),
    ;
}

/// Reversal keeps the order of two words of which one is a sub-mask of the other.
pub proof fn lemma_rev_submask(p: u64, b: u64)
    requires
        p & b == p,
    ensures
        rev(p) <= rev(b),
{
    let rp = rev(p);
    let rb = rev(b);
    assert(rp <= rb) by (bit_vector)
        requires
            p & b == p,
            rp == ({
                let a = ((p >> 1u64) & 0x5555555555555555u64) | ((p & 0x5555555555555555u64) << 1u64);
                let b = ((a >> 2u64) & 0x3333333333333333u64) | ((a & 0x3333333333333333u64) << 2u64);
                let c = ((b >> 4u64) & 0x0F0F0F0F0F0F0F0Fu64) | ((b & 0x0F0F0F0F0F0F0F0Fu64) << 4u64);
                let d = ((c >> 8u64) & 0x00FF00FF00FF00FFu64) | ((c & 0x00FF00FF00FF00FFu64) << 8u64);
                let e = ((d >> 16u64) & 0x0000FFFF0000FFFFu64) | ((d & 0x0000FFFF0000FFFFu64) << 16u64);
                (e >> 32u64) | (e << 32u64)
            }),
            rb == ({
                let a = ((b >> 1u64) & 0x5555555555555555u64) | ((b & 0x5555555555555555u64) << 1u64);
                let b = ((a >> 2u64) & 0x3333333333333333u64) | ((a & 0x3333333333333333u64) << 2u64);
                let c = ((b >> 4u64) & 0x0F0F0F0F0F0F0F0Fu64) | ((b & 0x0F0F0F0F0F0F0F0Fu64) << 4u64);
                let d = ((c >> 8u64) & 0x00FF00FF00FF00FFu64) | ((c & 0x00FF00FF00FF00FFu64) << 8u64);
                let e = ((d >> 16u64) & 0x0000FFFF0000FFFFu64) | ((d & 0x0000FFFF0000FFFFu64) << 16u64);
                (e >> 32u64) | (e << 32u64)
            }),
    ;
}

/// The top bit of a word is the lowest bit of its reversal.
pub proof fn lemma_rev_low_bit(x: u64)
    ensures
        (rev(x) & 1 == 1) == (x >= 0x8000000000000000u64),
{
    let r = rev(x);
    assert((r & 1 == 1) == (x >= 0x8000000000000000u64)) by (bit_vector)
        requires
            r == ({
                let a = ((x >> 1u64) & 0x5555555555555555u64) | ((x & 0x5555555555555555u64) << 1u64);
                let b = ((a >> 2u64) & 0x3333333333333333u64) | ((a & 0x3333333333333333u64) << 2u64);
                let c = ((b >> 4u64) & 0x0F0F0F0F0F0F0F0Fu64) | ((b & 0x0F0F0F0F0F0F0F0Fu64) << 4u64);
                let d = ((c >> 8u64) & 0x00FF00FF00FF00FFu64) | ((c & 0x00FF00FF00FF00FFu64) << 8u64);
                let e = ((d >> 16u64) & 0x0000FFFF0000FFFFu64) | ((d & 0x0000FFFF0000FFFFu64) << 16u64);
                (e >> 32u64) | (e << 32u64)
            }),
    ;
}

/// In split order, the bucket of a key (its residue modulo a power of two)
/// comes strictly before the key with its top bit forced.
pub proof fn lemma_rev_bucket_before_key(k: u64, size: u64, e: nat)
    requires
        k < 0x8000000000000000u64,
        e < 64,
        size == pow2(e),
    ensures
        rev(k % size) < rev(k | 0x8000000000000000u64),
{
    let m = k % size;
    let o = k | 0x8000000000000000u64;
    lemma_mod_pow2_is_mask(k, size, e);
    assert(m & o == m && m != o) by (bit_vector)
        requires
            m == k & ((size - 1) as u64),
            o == k | 0x8000000000000000u64,
            k < 0x8000000000000000u64,
    ;
    lemma_rev_submask(m, o);
    lemma_rev_involutive(m);
    lemma_rev_involutive(o);
}

/// Modulo a power of two keeps the bits below it; in particular a power
/// of two shares no bit with its predecessor.
pub proof fn lemma_mod_pow2_is_mask(k: u64, size: u64, e: nat)
    requires
        e < 64,
        size == pow2(e),
    ensures
        size != 0,
        k % size == k & ((size - 1) as u64),
        size & ((size - 1) as u64) == 0,
{
    lemma_pow2_pos(e);
    lemma_u64_low_bits_mask_is_mod(k, e);
    lemma_u64_low_bits_mask_is_mod(size, e);
    assert(low_bits_mask(e) == size - 1);
}

/// The reversal of zero is zero.
pub proof fn lemma_rev_zero()
    ensures
        rev(0) == 0,
{
    let r = rev(0);
    assert(r == 0) by (bit_vector)
        requires
            r == ({
                let a = ((0u64 >> 1u64) & 0x5555555555555555u64) | ((0u64 & 0x5555555555555555u64) << 1u64);
                let b = ((a >> 2u64) & 0x3333333333333333u64) | ((a & 0x3333333333333333u64) << 2u64);
                let c = ((b >> 4u64) & 0x0F0F0F0F0F0F0F0Fu64) | ((b & 0x0F0F0F0F0F0F0F0Fu64) << 4u64);
                let d = ((c >> 8u64) & 0x00FF00FF00FF00FFu64) | ((c & 0x00FF00FF00FF00FFu64) << 8u64);
                let e = ((d >> 16u64) & 0x0000FFFF0000FFFFu64) | ((d & 0x0000FFFF0000FFFFu64) << 16u64);
                (e >> 32u64) | (e << 32u64)
            }),
    ;
}

/// Reverses the bits of `x`: bit `i` of the result is bit `63 - i` of `x`.
pub fn reverse_bits(x: u64) -> (r: u64)
    ensures
        forall|i: u64| i < 64 ==> (#[trigger] (r >> i)) & 1 == (x >> (63 - i) as u64) & 1,
        r == rev(x),
{
    let a = ((x >> 1u64) & 0x5555555555555555u64) | ((x & 0x5555555555555555u64) << 1u64);
    let b = ((a >> 2u64) & 0x3333333333333333u64) | ((a & 0x3333333333333333u64) << 2u64);
    let c = ((b >> 4u64) & 0x0F0F0F0F0F0F0F0Fu64) | ((b & 0x0F0F0F0F0F0F0F0Fu64) << 4u64);
    let d = ((c >> 8u64) & 0x00FF00FF00FF00FFu64) | ((c & 0x00FF00FF00FF00FFu64) << 8u64);
    let e = ((d >> 16u64) & 0x0000FFFF0000FFFFu64) | ((d & 0x0000FFFF0000FFFFu64) << 16u64);
    let r = (e >> 32u64) | (e << 32u64);
    proof {
        assert forall|i: u64| i < 64 implies (#[trigger] (r >> i)) & 1 == (x >> (63 - i) as u64) & 1 by {
            lemma_rev_bit(x, i);
        }
    }
    r
}

} // verus!
