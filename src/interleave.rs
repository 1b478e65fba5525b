//! Bit interleaving of two 32-bit values into one 64-bit word: the bits of
//! the first value go to the even positions, those of the second to the odd
//! positions, least significant first.

use vstd::arithmetic::power2::{lemma2_to64, lemma2_to64_rest, lemma_pow2_unfold, pow2};
use vstd::prelude::*;

verus! {

/// The number whose base-4 digits are the lowest `n` bits of `x`: bit `i`
/// of `x` lands on bit `2 * i`, the odd bits stay clear.
pub open spec fn spread(x: nat, n: nat) -> nat
    decreases n,
{
    if n == 0 {
        0
    } else {
        spread(x / 2, (n - 1) as nat) * 4 + x % 2
    }
}

/// The number whose bit `i` is bit `2 * i` of `x`, for `i < n`.
pub open spec fn gather(x: nat, n: nat) -> nat
    decreases n,
{
    if n == 0 {
        0
    } else {
        gather(x / 4, (n - 1) as nat) * 2 + x % 2
    }
}

/// Bits of `even` on the even positions, bits of `odd` on the odd positions.
pub open spec fn interleave(even: nat, odd: nat) -> nat {
    spread(even, 32) + 2 * spread(odd, 32)
}

/// The value held on the even bit positions of a word.
pub open spec fn even_part(x: nat) -> nat {
    gather(x, 32)
}

/// The value held on the odd bit positions of a word.
pub open spec fn odd_part(x: nat) -> nat {
    gather(x / 2, 32)
}

/// The spreading network on machine words (valid for inputs below 2^32).
pub open spec fn spread_word(x: u64) -> u64 {
    let a = (x | (x << 16u64)) & 0x0000FFFF0000FFFFu64;
    let b = (a | (a << 8u64)) & 0x00FF00FF00FF00FFu64;
    let c = (b | (b << 4u64)) & 0x0F0F0F0F0F0F0F0Fu64;
    let d = (c | (c << 2u64)) & 0x3333333333333333u64;
    (d | (d << 1u64)) & 0x5555555555555555u64
}

/// The gathering network on machine words: collects the even bits.
pub open spec fn gather_word(x: u64) -> u64 {
    let a = x & 0x5555555555555555u64;
    let b = (a | (a >> 1u64)) & 0x3333333333333333u64;
    let c = (b | (b >> 2u64)) & 0x0F0F0F0F0F0F0F0Fu64;
    let d = (c | (c >> 4u64)) & 0x00FF00FF00FF00FFu64;
    let e = (d | (d >> 8u64)) & 0x0000FFFF0000FFFFu64;
    (e | (e >> 16u64)) & 0x00000000FFFFFFFFu64
}

proof fn lemma_spread_word_step(x: u64)
    by (bit_vector)
    requires
        x < 0x1_0000_0000u64,
    ensures
        spread_word(x) == spread_word(x >> 1u64) * 4 + (x & 1u64),
        spread_word(x) & 0xAAAAAAAAAAAAAAAAu64 == 0,
{
}

proof fn lemma_gather_word_step(x: u64)
    by (bit_vector)
    ensures
        gather_word(x) == gather_word(x >> 2u64) * 2 + (x & 1u64),
        gather_word(x) < 0x1_0000_0000u64,
{
}

/// The spreading network computes `spread`.
pub proof fn lemma_spread_word(x: u64, n: nat)
    requires
        n <= 32,
        x < pow2(n),
    ensures
        spread_word(x) == spread(x as nat, n),
    decreases n,
{
    lemma2_to64();
    if n == 0 {
        assert(spread_word(0) == 0) by (bit_vector);
    } else {
        lemma_pow2_unfold(n);
        let h = x >> 1u64;
        assert(h == x / 2 && x & 1u64 == x % 2) by (bit_vector)
            requires
                h == x >> 1u64,
        ;
        lemma_spread_word(h, (n - 1) as nat);
        lemma_spread_word_step(x);
    }
}

/// The gathering network computes `gather` over all 32 even positions.
pub proof fn lemma_gather_word(x: u64, n: nat)
    requires
        n <= 32,
        n == 32 || x < pow2(2 * n),
    ensures
        gather_word(x) == gather(x as nat, n),
    decreases n,
{
    lemma2_to64();
    if n == 0 {
        assert(gather_word(0) == 0) by (bit_vector);
    } else {
        let h = x >> 2u64;
        assert(h == x / 4 && x & 1u64 == x % 2) by (bit_vector)
            requires
                h == x >> 2u64,
        ;
        if n < 32 {
            lemma_pow2_unfold((2 * n) as nat);
            lemma_pow2_unfold((2 * n - 1) as nat);
        } else {
            assert(h < 0x4000_0000_0000_0000u64) by (bit_vector)
                requires
                    h == x >> 2u64,
            ;
            lemma2_to64_rest();
        }
        lemma_gather_word(h, (n - 1) as nat);
        lemma_gather_word_step(x);
    }
}

/// Interleaving two 32-bit values gives a word whose even and odd parts are
/// those values again.
pub proof fn lemma_deinterleave_interleave(even: u32, odd: u32)
    ensures
        interleave(even as nat, odd as nat) <= u64::MAX,
        even_part(interleave(even as nat, odd as nat)) == even,
        odd_part(interleave(even as nat, odd as nat)) == odd,
{
    let w = lemma_word_of(even, odd);
    let h = w >> 1u64;
    assert(gather_word(w) == even as u64 && gather_word(h) == odd as u64) by (bit_vector)
        requires
            w == spread_word(even as u64) | (spread_word(odd as u64) << 1u64),
            h == w >> 1u64,
    ;
    assert(h == w / 2) by (bit_vector)
        requires
            h == w >> 1u64,
    ;
    lemma_gather_word(w, 32);
    lemma_gather_word(h, 32);
}

/// Every word is the interleaving of its even and odd parts.
pub proof fn lemma_interleave_deinterleave(x: u64)
    ensures
        even_part(x as nat) <= u32::MAX,
        odd_part(x as nat) <= u32::MAX,
        interleave(even_part(x as nat), odd_part(x as nat)) == x,
{
    let h = x >> 1u64;
    assert(h == x / 2) by (bit_vector)
        requires
            h == x >> 1u64,
    ;
    lemma_gather_word(x, 32);
    lemma_gather_word(h, 32);
    let e = gather_word(x);
    let o = gather_word(h);
    assert(e < 0x1_0000_0000u64 && o < 0x1_0000_0000u64) by (bit_vector)
        requires
            e == gather_word(x),
            o == gather_word(h),
    ;
    assert(spread_word(e) | (spread_word(o) << 1u64) == x) by (bit_vector)
        requires
            e == gather_word(x),
            o == gather_word(h),
            h == x >> 1u64,
    ;
    let w = lemma_word_of(e as u32, o as u32);
}

/// The interleaving of two 32-bit values as a machine word: the networks
/// compute `interleave`.
pub proof fn lemma_word_of(even: u32, odd: u32) -> (w: u64)
    ensures
        w == spread_word(even as u64) | (spread_word(odd as u64) << 1u64),
        w as nat == interleave(even as nat, odd as nat),
{
    lemma2_to64();
    let e = even as u64;
    let o = odd as u64;
    lemma_spread_word(e, 32);
    lemma_spread_word(o, 32);
    let w = spread_word(e) | (spread_word(o) << 1u64);
    assert(w == spread_word(e) + 2 * spread_word(o)) by (bit_vector)
        requires
            e < 0x1_0000_0000u64,
            o < 0x1_0000_0000u64,
            w == spread_word(e) | (spread_word(o) << 1u64),
    ;
    w
}

/// Interleaves two 32-bit values: `even_bits` on the even bit positions,
/// `odd_bits` on the odd ones.
pub fn interleave_bits(even_bits: u32, odd_bits: u32) -> (r: u64)
    ensures
        r == interleave(even_bits as nat, odd_bits as nat),
        even_part(r as nat) == even_bits,
        odd_part(r as nat) == odd_bits,
{
    let mut e = even_bits as u64;
    let mut o = odd_bits as u64;

    e = (e | (e << 16)) & 0x0000FFFF0000FFFF;
    o = (o | (o << 16)) & 0x0000FFFF0000FFFF;

    e = (e | (e << 8)) & 0x00FF00FF00FF00FF;
    o = (o | (o << 8)) & 0x00FF00FF00FF00FF;

    e = (e | (e << 4)) & 0x0F0F0F0F0F0F0F0F;
    o = (o | (o << 4)) & 0x0F0F0F0F0F0F0F0F;

    e = (e | (e << 2)) & 0x3333333333333333;
    o = (o | (o << 2)) & 0x3333333333333333;

    e = (e | (e << 1)) & 0x5555555555555555;
    o = (o | (o << 1)) & 0x5555555555555555;

    proof {
        let _ = lemma_word_of(even_bits, odd_bits);
        lemma_deinterleave_interleave(even_bits, odd_bits);
    }
    e | (o << 1)
}

/// Splits a word into the values held on its even and on its odd bit
/// positions.
pub fn deinterleave_bits(interleaved: u64) -> (r: (u32, u32))
    ensures
        r.0 == even_part(interleaved as nat),
        r.1 == odd_part(interleaved as nat),
        interleave(r.0 as nat, r.1 as nat) == interleaved,
{
    let mut e = interleaved & 0x5555555555555555;
    let mut o = (interleaved >> 1) & 0x5555555555555555;

    e = (e | (e >> 1)) & 0x3333333333333333;
    o = (o | (o >> 1)) & 0x3333333333333333;

    e = (e | (e >> 2)) & 0x0F0F0F0F0F0F0F0F;
    o = (o | (o >> 2)) & 0x0F0F0F0F0F0F0F0F;

    e = (e | (e >> 4)) & 0x00FF00FF00FF00FF;
    o = (o | (o >> 4)) & 0x00FF00FF00FF00FF;

    e = (e | (e >> 8)) & 0x0000FFFF0000FFFF;
    o = (o | (o >> 8)) & 0x0000FFFF0000FFFF;

    e = (e | (e >> 16)) & 0x00000000FFFFFFFF;
    o = (o | (o >> 16)) & 0x00000000FFFFFFFF;

    proof {
        let h = interleaved >> 1u64;
        assert(h == interleaved / 2) by (bit_vector)
            requires
                h == interleaved >> 1u64,
        ;
        lemma_gather_word(interleaved, 32);
        lemma_gather_word(h, 32);
        lemma_interleave_deinterleave(interleaved);
    }
    (e as u32, o as u32)
}

} // verus!
