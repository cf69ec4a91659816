//! The integer side of Taylor R. Campbell's correctly rounded uniform
//! doubles.
//!
//! The construction draws one word `u` for the significand and one word `m`
//! for the exponent: the number of trailing zeros of `m` is geometrically
//! distributed and picks the binade, while `u`, forced odd, is a
//! round-to-odd representative of a uniform real in [2^63, 2^64]. If `m`
//! is zero (probability 2^-64) the scale drops by another 2^-64 and a third
//! word takes its place. The floating-point scaling that combines these
//! integers is left to the caller; this module computes the integers.

use crate::sources::{yields_chain, WordSource};
use vstd::arithmetic::power2::*;
use vstd::bits::*;
use vstd::prelude::*;
use vstd::std_specs::bits::*;

verus! {

/// Isolating the lowest set bit of a non-zero word.
proof fn lemma_lowest_set_bit(x: u64, t: u64)
    by (bit_vector)
    requires
        t < 64,
        (x >> t) & 1u64 == 1u64,
        x << ((64 - t) as u64) == 0u64,
    ensures
        x != 0u64,
        !x < u64::MAX,
        x & (((!x) + 1u64) as u64) == (1u64 << t),
{
}

/// The divisor of `fastdet`: the largest power of two that divides `m`,
/// with bit 63 forced as a backstop against an all-zero word, so that the
/// divisor is `2^trailing_zeros(m | 2^63)`, at most 2^63.
pub fn geometric_divisor(m: u64) -> (d: u64)
    ensures
        d as nat == pow2(u64_trailing_zeros(m | 0x8000_0000_0000_0000u64) as nat),
        u64_trailing_zeros(m | 0x8000_0000_0000_0000u64) < 64,
        m != 0 ==> u64_trailing_zeros(m | 0x8000_0000_0000_0000u64) == u64_trailing_zeros(m),
{
    let x = m | (1u64 << 63);
    let ghost t = u64_trailing_zeros(x);
    proof {
        assert((1u64 << 63u64) == 0x8000_0000_0000_0000u64) by (bit_vector);
        assert(x != 0) by (bit_vector)
            requires
                x == m | 0x8000_0000_0000_0000u64,
        ;
        axiom_u64_trailing_zeros(x);
        lemma_lowest_set_bit(x, t as u64);
        lemma_u64_pow2_no_overflow(t as nat);
        lemma_u64_shl_is_mul(1u64, t as u64);
        if m != 0 {
            axiom_u64_trailing_zeros(m);
            let tm = u64_trailing_zeros(m);
            // the forced top bit changes neither the lowest set bit nor
            // the zeros below it
            assert((x >> tm as u64) & 1u64 == 1u64) by (bit_vector)
                requires
                    x == m | 0x8000_0000_0000_0000u64,
                    tm < 64,
                    (m >> tm as u64) & 1u64 == 1u64,
            ;
            assert(x << ((64 - tm) as u64) == 0u64) by (bit_vector)
                requires
                    x == m | 0x8000_0000_0000_0000u64,
                    tm < 64,
                    m << ((64 - tm) as u64) == 0u64,
            ;
            assert(tm < 64) by {
                if tm >= 64 {
                    assert(tm == 64);
                }
            }
            lemma_lowest_set_bit(x, tm as u64);
            assert((1u64 << tm as u64) == (1u64 << t as u64));
            assert(tm == t) by (bit_vector)
                requires
                    tm < 64,
                    t < 64,
                    (1u64 << tm as u64) == (1u64 << t as u64),
            ;
        }
    }
    x & (!x + 1)
}

/// The significand word of `fastdet`: `u` with its top and bottom bits
/// forced, an odd integer in (2^63, 2^64) that a round-to-nearest
/// conversion can never see as a tie.
pub fn odd_significand(u: u64) -> (s: u64)
    ensures
        s == u | 0x8000_0000_0000_0001u64,
        s % 2 == 1,
        s >= 0x8000_0000_0000_0001u64,
{
    proof {
        assert((u | 0x8000_0000_0000_0001u64) % 2 == 1 && (u | 0x8000_0000_0000_0001u64)
            >= 0x8000_0000_0000_0001u64) by (bit_vector);
        assert(((u | (1u64 << 63u64)) | 1u64) == u | 0x8000_0000_0000_0001u64) by (bit_vector);
    }
    u | (1 << 63) | 1
}

/// The flag `t` of `consttime_smear`, computed without branching: every
/// set bit of `m` is smeared down to bit 0, so that `t` is 1 exactly when
/// `m` is not zero.
pub fn nonzero_flag_smear(m: u64) -> (t: u64)
    ensures
        t == (if m == 0 { 0u64 } else { 1u64 }),
{
    let mut t = m;
    t |= t >> 1;
    let ghost t1 = t;
    t |= t >> 2;
    let ghost t2 = t;
    t |= t >> 4;
    let ghost t3 = t;
    t |= t >> 8;
    let ghost t4 = t;
    t |= t >> 16;
    let ghost t5 = t;
    t |= t >> 32;
    let ghost t6 = t;
    t &= 1;
    proof {
        lemma_smear(m, t1, t2, t3, t4, t5, t6);
    }
    t
}

/// Or-ing every word into its shifts by 1, 2, 4, ..., 32 sets bit 0
/// exactly when some bit was set.
proof fn lemma_smear(m: u64, t1: u64, t2: u64, t3: u64, t4: u64, t5: u64, t6: u64)
    by (bit_vector)
    requires
        t1 == m | (m >> 1u64),
        t2 == t1 | (t1 >> 2u64),
        t3 == t2 | (t2 >> 4u64),
        t4 == t3 | (t3 >> 8u64),
        t5 == t4 | (t4 >> 16u64),
        t6 == t5 | (t5 >> 32u64),
    ensures
        t6 & 1u64 == (if m == 0 { 0u64 } else { 1u64 }),
{
}

/// The exponent word of the const-time variants, chosen without
/// branching: `m` with the bits of `m2` under the mask `t - 1` (modulo
/// 2^64) or-ed in. Given the flag `t` (1 exactly when `m` is not zero),
/// this is `m` itself, or the replacement word `m2` where `m` is zero.
pub fn substitute_zero_word(t: u64, m: u64, m2: u64) -> (r: u64)
    ensures
        r == m | (m2 & (if t == 0 { u64::MAX } else { (t - 1) as u64 })),
        t == 1 ==> r == m,
        t == 0 ==> r == m | m2,
        t == (if m == 0 { 0u64 } else { 1u64 }) ==> r == (if m == 0 { m2 } else { m }),
{
    let mask = t.wrapping_sub(1);
    proof {
        if t == 0 {
            assert(mask == 0xFFFF_FFFF_FFFF_FFFFu64);
            assert(m | (m2 & 0xFFFF_FFFF_FFFF_FFFFu64) == m | m2) by (bit_vector);
            assert(0u64 | m2 == m2) by (bit_vector);
        } else if t == 1 {
            assert(mask == 0);
            assert(m | (m2 & 0u64) == m) by (bit_vector);
        }
    }
    m | (m2 & mask)
}

/// The words of the branching variant: a significand word, then an
/// exponent word, drawn in turn from `bits`. Where the exponent word is zero
/// (probability 2^-64) a third word takes its place, and the flag `r.2`
/// says that the scale drops by another 2^-64. Two words are drawn, three
/// when the second is zero.
pub fn fast_words<S: WordSource>(bits: &mut S) -> (r: (u64, u64, bool))
    ensures
        exists|ws: Seq<u64>, states: Seq<S>|
            {
                &&& #[trigger] yields_chain(states, ws)
                &&& states[0] == *old(bits)
                &&& states.last() == *final(bits)
                &&& ws.len() >= 2
                &&& ws.len() == (if ws[1] == 0 { 3int } else { 2int })
                &&& r.0 == ws[0]
                &&& r.2 == (ws[1] == 0)
                &&& r.1 == (if ws[1] != 0 { ws[1] } else { ws[2] })
            },
{
    let ghost st0 = *bits;
    let u = bits.next_word();
    let ghost st1 = *bits;
    let mut m = bits.next_word();
    let ghost st2 = *bits;
    let ghost w1 = m;
    let mut low_scale = false;
    if m == 0 {
        // unlikely
        low_scale = true;
        m = bits.next_word();
        proof {
            let ws = seq![u, w1, m];
            let states = seq![st0, st1, st2, *bits];
            assert(yields_chain(states, ws)) by {
                assert forall|i: int| 0 <= i < ws.len() implies #[trigger] states[i].yields(
                    ws[i],
                    &states[i + 1],
                ) by {
                    if i == 0 {
                    } else if i == 1 {
                    } else {
                    }
                }
            }
            assert(states.last() == *bits);
        }
    } else {
        proof {
            let ws = seq![u, w1];
            let states = seq![st0, st1, st2];
            assert(yields_chain(states, ws)) by {
                assert forall|i: int| 0 <= i < ws.len() implies #[trigger] states[i].yields(
                    ws[i],
                    &states[i + 1],
                ) by {
                    if i == 0 {
                    } else {
                    }
                }
            }
            assert(states.last() == *bits);
        }
    }
    (u, m, low_scale)
}

} // verus!
