//! IEEE 754 bit patterns of non-negative finite floats, seen as integers.
//!
//! A float format is described by its number `mb` of explicit mantissa
//! bits (52 for binary64, 23 for binary32). Values are counted in *units*
//! of the smallest subnormal (2^-1074 for binary64, 2^-149 for binary32),
//! so that every non-negative finite float is a natural number of units:
//! an encoding with exponent field `e` and mantissa field `m` stands for
//! `m` units when `e == 0` and for `(2^mb + m) * 2^(e - 1)` units otherwise.

use vstd::arithmetic::div_mod::*;
use vstd::arithmetic::mul::*;
use vstd::arithmetic::power2::*;
use vstd::bits::*;
use vstd::prelude::*;
use vstd::std_specs::bits::*;

verus! {

/// `floor(log2(v))` for `v >= 1` (and 0 for `v == 0`).
pub open spec fn ilog2(v: nat) -> nat
    decreases v,
{
    if v < 2 {
        0
    } else {
        1 + ilog2(v / 2)
    }
}

/// The number of units a float encoding stands for.
pub open spec fn float_units(bits: nat, mb: nat) -> nat {
    let e = bits / pow2(mb);
    let m = bits % pow2(mb);
    if e == 0 {
        m
    } else {
        (pow2(mb) + m) * pow2((e - 1) as nat)
    }
}

/// The distance, in units, from a float to the next one up.
pub open spec fn float_ulp(bits: nat, mb: nat) -> nat {
    let e = bits / pow2(mb);
    if e == 0 {
        1
    } else {
        pow2((e - 1) as nat)
    }
}

/// The exponent field of the largest float not above `v` units.
pub open spec fn round_down_exponent(v: nat, mb: nat) -> nat {
    if v < pow2(mb) {
        0
    } else {
        (ilog2(v) + 1 - mb) as nat
    }
}

/// The encoding of the largest float not above `v` units: `v` rounded
/// toward zero to the format. Where `v` is representable, this is the
/// encoding of `v` itself.
pub open spec fn round_down_bits(v: nat, mb: nat) -> nat {
    let e = round_down_exponent(v, mb);
    if e == 0 {
        v
    } else {
        e * pow2(mb) + (v / pow2((e - 1) as nat) - pow2(mb)) as nat
    }
}

/// `floor(log2(v))` brackets `v` between consecutive powers of two.
pub proof fn lemma_ilog2_bounds(v: nat)
    requires
        v >= 1,
    ensures
        pow2(ilog2(v)) <= v < pow2(ilog2(v) + 1),
    decreases v,
{
    if v < 2 {
        lemma2_to64();
    } else {
        lemma_ilog2_bounds(v / 2);
        let k = ilog2(v / 2);
        lemma_pow2_unfold(k + 1);
        lemma_pow2_unfold(k + 2);
        assert(v == 2 * (v / 2) + v % 2);
    }
}

/// A power-of-two bracket determines `floor(log2(v))`.
pub proof fn lemma_ilog2_unique(v: nat, k: nat)
    requires
        pow2(k) <= v < pow2(k + 1),
    ensures
        ilog2(v) == k,
{
    lemma_pow2_pos(k);
    lemma_ilog2_bounds(v);
    let j = ilog2(v);
    if j < k {
        if j + 1 < k {
            lemma_pow2_strictly_increases(j + 1, k);
        }
    } else if j > k {
        if k + 1 < j {
            lemma_pow2_strictly_increases(k + 1, j);
        }
    }
}

/// Rounding down gives the largest float not above `v`: its value is at
/// most `v`, and the next float up lies above `v`.
pub proof fn lemma_round_down_is_largest_below(v: nat, mb: nat)
    requires
        mb >= 1,
    ensures
        float_units(round_down_bits(v, mb), mb) <= v,
        v < float_units(round_down_bits(v, mb), mb) + float_ulp(round_down_bits(v, mb), mb),
        round_down_bits(v, mb) / pow2(mb) == round_down_exponent(v, mb),
        (round_down_exponent(v, mb) == 0 || v % pow2((round_down_exponent(v, mb) - 1) as nat) == 0)
            ==> float_units(round_down_bits(v, mb), mb) == v,
{
    lemma_pow2_pos(mb);
    let p = pow2(mb);
    let e = round_down_exponent(v, mb);
    let r = round_down_bits(v, mb);
    if v < p {
        lemma_small_div_converse_nat(v, p);
        lemma_small_mod(v, p);
    } else {
        lemma_ilog2_bounds(v);
        let l = ilog2(v);
        assert(l >= mb) by {
            if l < mb {
                if l + 1 < mb {
                    lemma_pow2_strictly_increases(l + 1, mb);
                }
            }
        }
        let s = (e - 1) as nat;
        assert(l == s + mb);
        lemma_pow2_adds(s, mb);
        lemma_pow2_adds(s, mb + 1);
        lemma_pow2_unfold(mb + 1);
        lemma_pow2_pos(s);
        let q = v / pow2(s);
        let rem = v % pow2(s);
        lemma_fundamental_div_mod(v as int, pow2(s) as int);
        lemma_mod_bound(v as int, pow2(s) as int);
        // p <= q < 2p
        assert(p <= q) by {
            if q < p {
                lemma_mul_inequality(q as int + 1, p as int, pow2(s) as int);
                lemma_mul_is_commutative(pow2(s) as int, q as int);
                lemma_mul_is_distributive_add(pow2(s) as int, q as int, 1);
            }
        }
        assert(q < 2 * p) by {
            if q >= 2 * p {
                lemma_mul_inequality(2 * p as int, q as int, pow2(s) as int);
                lemma_mul_is_commutative(pow2(s) as int, q as int);
                lemma_mul_is_commutative(2 * p as int, pow2(s) as int);
            }
        }
        let m = (q - p) as nat;
        assert(r == e * p + m);
        lemma_fundamental_div_mod_converse(r as int, p as int, e as int, m as int);
        lemma_mul_is_commutative(e as int, p as int);
        assert(float_units(r, mb) == q * pow2(s));
        lemma_mul_is_commutative(q as int, pow2(s) as int);
    }
}

/// Every float is its own rounding: reading an encoding as a number of
/// units and rounding that number down gives the encoding back.
pub proof fn lemma_round_down_of_units(y: nat, mb: nat)
    ensures
        round_down_bits(float_units(y, mb), mb) == y,
{
    lemma_pow2_pos(mb);
    let p = pow2(mb);
    let e = y / p;
    let m = y % p;
    lemma_fundamental_div_mod(y as int, p as int);
    lemma_mod_bound(y as int, p as int);
    let v = float_units(y, mb);
    if e == 0 {
        assert(v == m);
        assert(y == m) by {
            lemma_mul_basics(p as int);
        }
    } else {
        let s = (e - 1) as nat;
        lemma_pow2_pos(s);
        lemma_pow2_adds(mb, s);
        lemma_pow2_adds(mb + 1, s);
        lemma_pow2_unfold(mb + 1);
        lemma_mul_inequality(p as int, (p + m) as int, pow2(s) as int);
        lemma_mul_strict_inequality((p + m) as int, 2 * p as int, pow2(s) as int);
        assert(pow2(mb + 1) == 2 * p);
        lemma_ilog2_unique(v, mb + s);
        assert(round_down_exponent(v, mb) == e) by {
            if v < p {
                if mb < mb + s {
                    lemma_pow2_strictly_increases(mb, mb + s);
                }
            }
        }
        lemma_div_by_multiple((p + m) as int, pow2(s) as int);
        lemma_mul_is_commutative(e as int, p as int);
    }
}

/// In a normal binade, the encoding of `mant * 2^(e - 1)` units (with
/// `mant` a non-zero field of at most `mb` bits) has exponent field `ex <=
/// e` and mantissa field `mant * 2^(e - ex) - 2^mb`: `mant` shifted up to
/// the implicit bit, which drops.
pub proof fn lemma_round_down_normal_fields(mant: nat, e: nat, mb: nat)
    requires
        1 <= mant < pow2(mb),
        e >= 1,
        round_down_exponent(mant * pow2((e - 1) as nat), mb) >= 1,
    ensures
        ({
            let ex = round_down_exponent(mant * pow2((e - 1) as nat), mb);
            &&& 1 <= e - ex <= mb
            &&& pow2(mb) <= mant * pow2((e - ex) as nat) < 2 * pow2(mb)
            &&& round_down_bits(mant * pow2((e - 1) as nat), mb) == ex * pow2(mb) + (mant * pow2(
                (e - ex) as nat,
            ) - pow2(mb)) as nat
        }),
{
    let v = mant * pow2((e - 1) as nat);
    lemma_ilog2_bounds(mant);
    let l = ilog2(mant);
    assert(l < mb) by {
        if l >= mb {
            if l > mb {
                lemma_pow2_strictly_increases(mb, l);
            }
        }
    }
    lemma_pow2_pos((e - 1) as nat);
    lemma_pow2_adds(l, (e - 1) as nat);
    lemma_pow2_adds(l + 1, (e - 1) as nat);
    lemma_mul_inequality(pow2(l) as int, mant as int, pow2((e - 1) as nat) as int);
    lemma_mul_strict_inequality(mant as int, pow2(l + 1) as int, pow2((e - 1) as nat) as int);
    assert(l + 1 + (e - 1) == l + e);
    lemma_ilog2_unique(v, (l + e - 1) as nat);
    lemma_pow2_pos(mb);
    assert(v >= pow2(mb));
    let ex = round_down_exponent(v, mb);
    assert(ilog2(v) == l + e - 1);
    assert(!(v < pow2(mb)));
    assert(ex == (ilog2(v) + 1 - mb) as nat);
    assert(l + e - mb >= 1) by {
        if l + e < mb {
            lemma_pow2_strictly_increases((l + e) as nat, mb);
        }
    }
    assert(ex == l + e - mb);
    let sh = (mb - l) as nat;
    let s1 = (ex - 1) as nat;
    assert((e - 1) as nat == sh + s1);
    lemma_pow2_adds(sh, s1);
    lemma_pow2_pos(s1);
    lemma_pow2_pos(sh);
    lemma_mul_is_associative(mant as int, pow2(sh) as int, pow2(s1) as int);
    lemma_div_by_multiple((mant * pow2(sh)) as int, pow2(s1) as int);
    lemma_pow2_adds(l, sh);
    lemma_pow2_adds(l + 1, sh);
    lemma_pow2_unfold(mb + 1);
    lemma_mul_inequality(pow2(l) as int, mant as int, pow2(sh) as int);
    lemma_mul_strict_inequality(mant as int, pow2(l + 1) as int, pow2(sh) as int);
    assert(l + sh == mb);
}

proof fn lemma_small_div_converse_nat(v: nat, p: nat)
    requires
        v < p,
    ensures
        v / p == 0,
{
    lemma_basic_div(v as int, p as int);
}

/// For `x != 0`, `x` lies in `[2^t, 2^(t+1))` where `t == 63 - leading_zeros(x)`.
pub proof fn lemma_leading_zeros_bounds(x: u64)
    requires
        x != 0,
    ensures
        0 <= u64_leading_zeros(x) < 64,
        pow2((63 - u64_leading_zeros(x)) as nat) <= x,
        (x as nat) < pow2((64 - u64_leading_zeros(x)) as nat),
{
    axiom_u64_leading_zeros(x);
    let lz = u64_leading_zeros(x);
    let t = (63 - lz) as u64;
    assert(x >> t >= 1) by (bit_vector)
        requires
            (x >> t) & 1u64 != 0u64,
    ;
    lemma_u64_shr_is_div(x, t);
    lemma_pow2_pos(t as nat);
    assert(x as nat >= pow2(t as nat)) by {
        if (x as nat) < pow2(t as nat) {
            lemma_basic_div(x as int, pow2(t as nat) as int);
        }
    }
    if lz == 0 {
        lemma2_to64();
    } else {
        let u = (64 - lz) as u64;
        assert(x >> u == 0);
        lemma_u64_shr_is_div(x, u);
        lemma_pow2_pos(u as nat);
        lemma_fundamental_div_mod(x as int, pow2(u as nat) as int);
        lemma_mod_bound(x as int, pow2(u as nat) as int);
    }
}

/// Two disjoint bit fields combine by addition.
proof fn lemma_field_join(e: u64, m: u64, mb: u64)
    by (bit_vector)
    requires
        1 <= mb < 64,
        m < (1u64 << mb),
        e < (1u64 << (64 - mb) as u64),
    ensures
        (e << mb) | m == ((e << mb) + m) as u64,
        (e << mb) + m <= u64::MAX,
{
}

/// The encoding of the exact difference `from_bits((e << mb) + mant) -
/// from_bits(e << mb)` of two floats with the same exponent field `e`,
/// that is of `mant * 2^(e - 1)` units, renormalized where its leading bit
/// falls below the implicit bit. Such a difference is always representable,
/// so floating-point subtraction computes it exactly.
pub fn exact_difference(mant: u64, e: u64, mb: u64) -> (r: u64)
    requires
        1 <= mb <= 52,
        mant < pow2(mb as nat),
        1 <= e < 2048,
    ensures
        r == round_down_bits(mant as nat * pow2((e - 1) as nat), mb as nat),
        float_units(r as nat, mb as nat) == mant * pow2((e - 1) as nat),
        r as nat / pow2(mb as nat) < e,
        mant != 0 ==> e <= mb + r as nat / pow2(mb as nat),
        r as nat / pow2(mb as nat) >= 1 ==> r as nat % pow2(mb as nat) + pow2(
            (e - r as nat / pow2(mb as nat)) as nat,
        ) <= pow2(mb as nat),
{
    let ghost v: nat = mant as nat * pow2((e - 1) as nat);
    proof {
        lemma_pow2_pos((e - 1) as nat);
        lemma_pow2_pos(mb as nat);
    }
    if mant == 0 {
        proof {
            assert(v == 0);
            lemma_round_down_is_largest_below(v, mb as nat);
            lemma_basic_div(0, pow2(mb as nat) as int);
        }
        return 0;
    }
    let lz = mant.leading_zeros();
    proof {
        lemma_leading_zeros_bounds(mant);
    }
    let top: u64 = 63 - lz as u64;
    let ghost t: nat = top as nat;
    proof {
        // top < mb
        if t >= mb {
            if t > mb {
                lemma_pow2_strictly_increases(mb as nat, t);
            }
        }
        lemma_pow2_adds(t, (e - 1) as nat);
        lemma_pow2_adds(t + 1, (e - 1) as nat);
        lemma_mul_inequality(pow2(t) as int, mant as int, pow2((e - 1) as nat) as int);
        lemma_mul_strict_inequality(mant as int, pow2(t + 1) as int, pow2((e - 1) as nat) as int);
        assert(t + 1 + (e - 1) == t + e);
        lemma_ilog2_unique(v, (t + e - 1) as nat);
    }
    if top + e > mb {
        let ex: u64 = top + e - mb;
        let sh: u64 = mb - top;
        proof {
            assert(pow2(mb as nat) <= v) by {
                if mb as nat <= (t + e - 1) as nat {
                    if (mb as nat) < (t + e - 1) as nat {
                        lemma_pow2_strictly_increases(mb as nat, (t + e - 1) as nat);
                    }
                }
            }
            assert(round_down_exponent(v, mb as nat) == ex);
            lemma_pow2_adds(t, sh as nat);
            lemma_pow2_adds(t + 1, sh as nat);
            lemma_pow2_pos(sh as nat);
            lemma_mul_inequality(pow2(t) as int, mant as int, pow2(sh as nat) as int);
            lemma_mul_strict_inequality(mant as int, pow2(t + 1) as int, pow2(sh as nat) as int);
            lemma_pow2_unfold(mb as nat + 1);
            lemma_u64_pow2_no_overflow(mb as nat + 1);
            lemma_u64_shl_is_mul(mant, sh);
        }
        let full: u64 = mant << sh;
        proof {
            lemma_u64_shl_is_mul(1u64, mb);
        }
        let low_mask: u64 = (1u64 << mb) - 1;
        let sig: u64 = full & low_mask;
        proof {
            // full == mant * 2^(mb - top), in [2^mb, 2^(mb+1))
            assert(full as nat == mant * pow2(sh as nat));
            assert(pow2(mb as nat) <= full < 2 * pow2(mb as nat));
            lemma_u64_shl_is_mul(1u64, mb);
            assert(low_mask == low_bits_mask(mb as nat)) by {
                reveal(low_bits_mask);
            }
            lemma_u64_low_bits_mask_is_mod(full, mb as nat);
            lemma_fundamental_div_mod_converse(
                full as int,
                pow2(mb as nat) as int,
                1,
                full - pow2(mb as nat),
            );
            assert(sig == full - pow2(mb as nat));
            // v / 2^(ex - 1) == full
            let s = (ex - 1) as nat;
            assert((e - 1) as nat == s + sh);
            lemma_pow2_adds(s, sh as nat);
            lemma_pow2_pos(s);
            lemma_mul_is_associative(mant as int, pow2(sh as nat) as int, pow2(s) as int);
            lemma_mul_is_commutative(pow2(sh as nat) as int, pow2(s) as int);
            lemma_div_by_multiple(full as int, pow2(s) as int);
            assert(v / pow2(s) == full);
            // the joined fields
            lemma_u64_pow2_no_overflow((64 - mb) as nat);
            lemma_u64_shl_is_mul(1u64, (64 - mb) as u64);
            assert(ex < 2048);
            assert(ex < (1u64 << (64 - mb) as u64)) by {
                lemma2_to64();
                if (64 - mb) as nat > 11 {
                    lemma_pow2_strictly_increases(11, (64 - mb) as nat);
                }
            }
            assert(sig < (1u64 << mb)) by {
                lemma_u64_shl_is_mul(1u64, mb);
            }
            lemma_field_join(ex, sig, mb);
            lemma_u64_pow2_no_overflow(mb as nat);
            lemma_mul_is_commutative(ex as int, pow2(mb as nat) as int);
            assert(ex * pow2(mb as nat) <= u64::MAX) by {
                lemma_pow2_adds(mb as nat, (64 - mb) as nat);
                lemma_mul_strict_inequality(ex as int, pow2((64 - mb) as nat) as int, pow2(mb as nat) as int);
                lemma2_to64_rest();
            }
            lemma_u64_shl_is_mul(ex, mb);
            lemma_round_down_is_largest_below(v, mb as nat);
            lemma_fundamental_div_mod_converse(
                (ex * pow2(mb as nat) + sig) as int,
                pow2(mb as nat) as int,
                ex as int,
                sig as int,
            );
            assert(sig + pow2(sh as nat) <= pow2(mb as nat)) by {
                lemma_mul_inequality(mant as int + 1, pow2(t + 1) as int, pow2(sh as nat) as int);
                lemma_mul_is_distributive_add(pow2(sh as nat) as int, mant as int, 1);
                lemma_mul_is_commutative(pow2(sh as nat) as int, mant as int);
                lemma_mul_is_commutative(pow2(sh as nat) as int, mant as int + 1);
                assert(t + 1 + sh == mb + 1);
            }
        }
        (ex << mb) | sig
    } else {
        let sh: u64 = e - 1;
        proof {
            assert(t + e <= mb);
            assert(v < pow2(mb as nat)) by {
                if t + e < mb {
                    lemma_pow2_strictly_increases((t + e) as nat, mb as nat);
                }
            }
            assert(round_down_exponent(v, mb as nat) == 0);
            lemma_u64_pow2_no_overflow(mb as nat);
            lemma_u64_shl_is_mul(mant, sh);
            lemma_small_div_converse_nat(v, pow2(mb as nat));
            lemma_small_mod(v, pow2(mb as nat));
        }
        mant << sh
    }
}

} // verus!
