//! pekkizen's leading-zeros technique.
//!
//! One 64-bit word is read as a uniform 64-bit fixed-point real in [0, 1):
//! its count of leading zeros picks the binade, and the bits after its
//! leading one are shifted into the mantissa. The result is that real
//! rounded down to a binary64: every binary64 in [2^-12, 1) is reachable,
//! and below 2^-12 the value is the word times 2^-64 exactly.

use crate::float_bits::{float_units, lemma_ilog2_unique, lemma_leading_zeros_bounds, lemma_round_down_is_largest_below, lemma_round_down_of_units, round_down_bits, round_down_exponent};
use vstd::arithmetic::div_mod::*;
use vstd::arithmetic::mul::*;
use vstd::arithmetic::power2::*;
use vstd::bits::*;
use vstd::prelude::*;
use vstd::std_specs::bits::*;

verus! {

/// Shifting out the top bit of a word whose top bit is set.
proof fn lemma_shl_drops_top(y: u64)
    by (bit_vector)
    requires
        y >= 0x8000_0000_0000_0000u64,
    ensures
        (y << 1u64) == (((y - 0x8000_0000_0000_0000u64) as u64) << 1u64),
        ((y - 0x8000_0000_0000_0000u64) as u64) < 0x8000_0000_0000_0000u64,
{
}

/// Two disjoint bit fields of a binary64 combine by addition.
proof fn lemma_join_exponent(e: u64, m: u64)
    by (bit_vector)
    requires
        e < 2048,
        m < 0x10_0000_0000_0000u64,
    ensures
        (e << 52u64) | m == ((e << 52u64) + m) as u64,
        (e << 52u64) + m <= u64::MAX,
{
}

/// The encoding of the word `u` read as the fixed-point real `u * 2^-64`
/// (that is `u * 2^1010` units of 2^-1074) rounded down to a binary64.
///
/// The shift by `z`, the number of leading zeros plus one, may be 64, which
/// a 64-bit shift does not allow: it is split as `(u << (z - 1)) << 1`
/// (`z >= 1` always), which shifts the leading one out.
pub fn f64_64_bits(u: u64) -> (r: u64)
    ensures
        r == round_down_bits(u as nat * pow2(1010), 52),
        r < 0x3FF0_0000_0000_0000,
        (u as nat) < pow2(53) ==> float_units(r as nat, 52) == u as nat * pow2(1010),
{
    proof {
        lemma2_to64();
        lemma2_to64_rest();
        lemma_pow2_pos(1010);
        lemma_pow2_pos(52);
    }
    if u == 0 {
        proof {
            assert(u as nat * pow2(1010) == 0);
            lemma_round_down_is_largest_below(0, 52);
        }
        return 0;
    }
    let lz = u.leading_zeros();
    proof {
        lemma_leading_zeros_bounds(u);
    }
    let z: u64 = lz as u64 + 1;
    let ghost l: nat = (64 - z) as nat;
    let ghost v: nat = u as nat * pow2(1010);
    proof {
        // u * 2^1010 lies in [2^(l + 1010), 2^(l + 1011))
        lemma_pow2_adds(l, 1010);
        lemma_pow2_adds(l + 1, 1010);
        lemma_mul_inequality(pow2(l) as int, u as int, pow2(1010) as int);
        lemma_mul_strict_inequality(u as int, pow2(l + 1) as int, pow2(1010) as int);
        lemma_ilog2_unique(v, l + 1010);
        lemma_pow2_strictly_increases(52, l + 1010);
        assert(round_down_exponent(v, 52) == 1023 - z);
    }
    let w1 = u << (z - 1);
    proof {
        lemma_pow2_adds(l + 1, (z - 1) as nat);
        lemma_mul_strict_inequality(u as int, pow2(l + 1) as int, pow2((z - 1) as nat) as int);
        lemma_mul_inequality(pow2(l) as int, u as int, pow2((z - 1) as nat) as int);
        lemma_pow2_adds(l, (z - 1) as nat);
        lemma_u64_shl_is_mul(u, (z - 1) as u64);
        assert(w1 >= 0x8000_0000_0000_0000);
        lemma_shl_drops_top(w1);
        lemma_u64_shl_is_mul((w1 - 0x8000_0000_0000_0000u64) as u64, 1);
    }
    let w2 = w1 << 1;
    let mant = w2 >> 12;
    proof {
        // w2 == u * 2^z - 2^64, and mant == (u * 2^z) / 2^12 - 2^52
        lemma_pow2_adds((z - 1) as nat, 1);
        lemma_mul_is_associative(u as int, pow2((z - 1) as nat) as int, 2);
        assert(w2 == u * pow2(z as nat) - 0x1_0000_0000_0000_0000);
        lemma_u64_shr_is_div(w2, 12);
        lemma_fundamental_div_mod(w2 as int, 4096);
        lemma_mod_bound(w2 as int, 4096);
        let q = (u as nat * pow2(z as nat)) / pow2(12);
        lemma_fundamental_div_mod_converse(
            (u * pow2(z as nat)) as int,
            4096,
            mant + 0x10_0000_0000_0000,
            (w2 % 4096) as int,
        );
        assert(mant == q - 0x10_0000_0000_0000);
        // v / 2^(e - 1) == (u * 2^z) / 2^12, with e - 1 == 1022 - z
        let d = (1010 - z) as nat;
        lemma_pow2_adds(z as nat, d);
        lemma_pow2_adds(12, d);
        lemma_pow2_pos(d);
        lemma_pow2_pos(z as nat);
        lemma_mul_is_associative(u as int, pow2(z as nat) as int, pow2(d) as int);
        lemma_div_denominator((u * pow2(z as nat) * pow2(d)) as int, pow2(d) as int, pow2(12) as int);
        lemma_div_by_multiple((u * pow2(z as nat)) as int, pow2(d) as int);
        lemma_mul_is_commutative(pow2(d) as int, pow2(12) as int);
        assert(v / pow2((1022 - z) as nat) == q);
        assert(mant < 0x10_0000_0000_0000) by {
            lemma_div_is_ordered(w2 as int, u64::MAX as int, 4096);
        }
        lemma_u64_shl_is_mul((1023 - z) as u64, 52);
        lemma_join_exponent((1023 - z) as u64, mant);
    }
    let r = ((1023 - z) << 52) | mant;
    proof {
        if (u as nat) < pow2(53) {
            assert(l <= 52) by {
                if l > 52 {
                    if 53 < l {
                        lemma_pow2_strictly_increases(53, l);
                    }
                }
            }
            let s = (1022 - z) as nat;
            lemma_pow2_adds(s, (1010 - s) as nat);
            lemma_mul_is_associative(u as int, pow2((1010 - s) as nat) as int, pow2(s) as int);
            lemma_mul_is_commutative(pow2(s) as int, pow2((1010 - s) as nat) as int);
            assert(s + (1010 - s) == 1010);
            lemma_mod_multiples_basic((u * pow2((1010 - s) as nat)) as int, pow2(s) as int);
            lemma_round_down_is_largest_below(v, 52);
        }
    }
    r
}

/// Every binary64 in [2^-12, 1) is the result for some word.
pub proof fn lemma_reaches_top_binades(y: nat)
    requires
        1011 * pow2(52) <= y < 1023 * pow2(52),
    ensures
        exists|u: u64| #[trigger] round_down_bits(u as nat * pow2(1010), 52) == y,
{
    lemma_pow2_pos(52);
    let e = y / pow2(52);
    let m = y % pow2(52);
    lemma_fundamental_div_mod(y as int, pow2(52) as int);
    lemma_mod_bound(y as int, pow2(52) as int);
    assert(1011 <= e < 1023) by {
        lemma_mul_is_commutative(pow2(52) as int, e as int);
        if e < 1011 {
            lemma_mul_inequality(e as int + 1, 1011, pow2(52) as int);
            lemma_mul_is_distributive_add(pow2(52) as int, e as int, 1);
            lemma_mul_is_commutative(pow2(52) as int, e as int + 1);
        }
        if e >= 1023 {
            lemma_mul_inequality(1023, e as int, pow2(52) as int);
        }
    }
    let k = (e - 1011) as nat;
    let u_nat = (pow2(52) + m) * pow2(k);
    lemma_pow2_adds(1010, k);
    lemma_pow2_adds(53, k);
    lemma_pow2_unfold(53);
    lemma_pow2_pos(k);
    lemma_mul_strict_inequality((pow2(52) + m) as int, pow2(53) as int, pow2(k) as int);
    assert(u_nat < pow2(64)) by {
        if k < 11 {
            lemma_pow2_strictly_increases(53 + k, 64);
        }
    }
    lemma2_to64_rest();
    let u = u_nat as u64;
    assert(float_units(y, 52) == (pow2(52) + m) * pow2((e - 1) as nat));
    assert((e - 1) as nat == k + 1010);
    lemma_mul_is_associative((pow2(52) + m) as int, pow2(k) as int, pow2(1010) as int);
    lemma_mul_is_commutative(pow2(k) as int, pow2(1010) as int);
    lemma_round_down_of_units(y, 52);
    assert(round_down_bits(u as nat * pow2(1010), 52) == y);
}

} // verus!
