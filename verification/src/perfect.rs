//! The "perfect" round-down generator of the fp-rand algorithm.
//!
//! The generator returns the bit pattern of a float distributed as a
//! uniform real in (0, 1) rounded **down** to a representable value. It
//! reads its random bits from an [`EntropyPool`], which hands out the words
//! of a [`WordSource`] as one continuous little-endian bit stream, so that
//! the common case consumes a single word per call.
//!
//! Generation happens in two stages:
//!
//! 1. **Seek.** Draw `p` mantissa bits (`p = 52` for binary64). While they
//!    are all zero, descend one `p`-binade-wide window and redraw, until
//!    the window at the bottom of the exponent range is reached (there only
//!    `EBIAS mod p` bits are drawn, aligned at the top). The bits are placed
//!    in the current window: the partial result is the exact difference of
//!    the floats `base + bits` and `base`, and the drop of its spacing
//!    exponent (its exponent field, or 1 for a subnormal) below that of
//!    `base` counts the vacant trailing significand bits.
//! 2. **Finalize.** The vacant trailing bits are backfilled with fresh
//!    random bits.
//!
//! Every contract is stated over the bit stream that the pool has drawn,
//! and the drawn words are tied to the source by its
//! [`WordSource::yields`] relation: the results are exact functions of the
//! words the source handed out. [`lemma_down_result_distribution`] and
//! [`lemma_down_result_count`] state the round-down distribution over that
//! stream, and [`lemma_vacant_bits_zero`] that the backfill never carries.

use crate::float_bits::{exact_difference, float_ulp, ilog2, lemma_ilog2_bounds, lemma_ilog2_unique, lemma_round_down_is_largest_below, lemma_round_down_normal_fields, round_down_bits, round_down_exponent};
use crate::sources::{yields_chain, WordSource};
use vstd::arithmetic::div_mod::*;
use vstd::arithmetic::mul::*;
use vstd::arithmetic::power2::*;
use vstd::bits::*;
use vstd::prelude::*;

verus! {

/// Number of explicit mantissa bits of an IEEE 754 binary64.
pub const F64_MBITS: u32 = 52;

/// Exponent bias of an IEEE 754 binary64.
pub const F64_EBIAS: u32 = 1023;

/// Number of explicit mantissa bits of an IEEE 754 binary32.
pub const F32_MBITS: u32 = 23;

/// Exponent bias of an IEEE 754 binary32.
pub const F32_EBIAS: u32 = 127;

/// The encoding of the binary64 1.0.
pub const ONE_F64_BITS: u64 = 0x3FF0_0000_0000_0000;

/// The encoding of the binary32 1.0.
pub const ONE_F32_BITS: u32 = 0x3F80_0000;

/// The words of a sequence read as one little-endian bit stream: word `i`
/// supplies bits `64 i .. 64 i + 64`.
pub open spec fn stream_value(ws: Seq<u64>) -> nat
    decreases ws.len(),
{
    if ws.len() == 0 {
        0
    } else {
        stream_value(ws.drop_last()) + ws.last() as nat * pow2((64 * (ws.len() - 1)) as nat)
    }
}

/// The `n` bits of `x` that start at bit `start`, as an integer.
pub open spec fn bit_field(x: nat, start: nat, n: nat) -> nat {
    (x / pow2(start)) % pow2(n)
}

/// The index of the first window of `mb` stream bits, from window `k` on
/// and below window `count`, that is not all zeros; `count` if all are.
pub open spec fn first_nonzero_window(x: nat, mb: nat, k: nat, count: nat) -> nat
    decreases count - k,
{
    if k >= count {
        count
    } else if bit_field(x, mb * k, mb) != 0 {
        k
    } else {
        first_nonzero_window(x, mb, k + 1, count)
    }
}

/// The exponent field that sets the spacing of the floats at the encoding
/// `p`: its own exponent field, or 1 for a subnormal, which is spaced as
/// the lowest normal binade. The spacing is `2^(scale_exponent - 1)` units.
pub open spec fn scale_exponent(p: nat, mb: nat) -> nat {
    if p / pow2(mb) == 0 {
        1
    } else {
        p / pow2(mb)
    }
}

/// The seek stage on the stream `x`, for a format with `mb` mantissa bits
/// and exponent bias `bias`: the encoding of the partial result, the
/// number of its vacant trailing bits, and the number of stream bits read.
///
/// Window `k` holds stream bits `mb k .. mb (k + 1)` and stands at exponent
/// field `bias - mb k`; there are `bias / mb` full windows. The first
/// non-zero window is placed at its exponent. If all are zero, the bottom
/// window at exponent field `bias % mb` follows: only `bias % mb` stream
/// bits are drawn there, placed at the top of the mantissa. The vacant bits
/// are those below the partial result's spacing, down to the smallest
/// subnormal's.
pub open spec fn seek_result(x: nat, mb: nat, bias: nat) -> (nat, nat, nat) {
    let count = bias / mb;
    let k = first_nonzero_window(x, mb, 0, count);
    if k < count {
        let e = (bias - mb * k) as nat;
        let p = round_down_bits(bit_field(x, mb * k, mb) * pow2((e - 1) as nat), mb);
        (p, (e - scale_exponent(p, mb)) as nat, mb * (k + 1))
    } else {
        let e = bias % mb;
        let mant = bit_field(x, mb * count, e) * pow2((mb - e) as nat);
        let p = round_down_bits(mant * pow2((e - 1) as nat), mb);
        (p, (mb - scale_exponent(p, mb)) as nat, mb * count + e)
    }
}

/// The whole generator on the stream `x`: the partial result with its
/// vacant trailing bits filled from the stream bits that follow the seek,
/// and the number of stream bits read in all.
pub open spec fn down_result(x: nat, mb: nat, bias: nat) -> (nat, nat) {
    let (p, nb, c) = seek_result(x, mb, bias);
    (p + bit_field(x, c, nb), c + nb)
}

/// A stream of `k` words holds fewer than `64 k` significant bits.
pub proof fn lemma_stream_value_bound(ws: Seq<u64>)
    ensures
        stream_value(ws) < pow2((64 * ws.len()) as nat),
    decreases ws.len(),
{
    if ws.len() == 0 {
        lemma2_to64();
    } else {
        let k = (ws.len() - 1) as nat;
        lemma_stream_value_bound(ws.drop_last());
        lemma_pow2_adds(64 * k, 64);
        lemma2_to64_rest();
        lemma_pow2_pos(64 * k);
        lemma_mul_inequality(ws.last() as int, 0xFFFF_FFFF_FFFF_FFFF, pow2(64 * k) as int);
        assert((64 * k + 64) as nat == (64 * ws.len()) as nat);
    }
}

/// Handing out `a` bits and then `b` more hands out the same `a + b` bits
/// as one request.
pub proof fn lemma_bit_fields_concatenate(x: nat, start: nat, a: nat, b: nat)
    ensures
        bit_field(x, start, a + b) == bit_field(x, start, a) + bit_field(x, start + a, b) * pow2(a),
{
    let y = x / pow2(start);
    lemma_pow2_pos(start);
    lemma_pow2_pos(a);
    lemma_pow2_pos(b);
    lemma_pow2_adds(start, a);
    lemma_pow2_adds(a, b);
    lemma_div_denominator(x as int, pow2(start) as int, pow2(a) as int);
    // y == (y / 2^a) * 2^a + y % 2^a
    let hi = y / pow2(a);
    let lo = y % pow2(a);
    lemma_fundamental_div_mod(y as int, pow2(a) as int);
    lemma_mod_bound(y as int, pow2(a) as int);
    // y % 2^(a+b) == lo + (hi % 2^b) * 2^a
    let q = hi / pow2(b);
    let r = hi % pow2(b);
    lemma_fundamental_div_mod(hi as int, pow2(b) as int);
    lemma_mod_bound(hi as int, pow2(b) as int);
    assert(y == q * pow2(a + b) + (lo + r * pow2(a))) by {
        lemma_mul_is_distributive_add(pow2(a) as int, (pow2(b) * q) as int, r as int);
        lemma_mul_is_associative(pow2(a) as int, pow2(b) as int, q as int);
        lemma_mul_is_commutative(pow2(a) as int, hi as int);
        lemma_mul_is_commutative(pow2(a) as int, r as int);
        lemma_mul_is_commutative((pow2(a) * pow2(b)) as int, q as int);
    }
    assert(lo + r * pow2(a) < pow2(a + b)) by {
        lemma_mul_inequality(r as int, pow2(b) - 1, pow2(a) as int);
        lemma_mul_is_distributive_sub(pow2(a) as int, pow2(b) as int, 1);
        lemma_mul_is_commutative(pow2(a) as int, (pow2(b) - 1) as int);
        lemma_mul_is_commutative(pow2(a) as int, pow2(b) as int);
    }
    lemma_fundamental_div_mod_converse(y as int, pow2(a + b) as int, q as int, (lo + r * pow2(a)) as int);
}

/// Appending `w` below `b`'s `k` buffered bits and splitting the result at
/// bit `n > k`.
proof fn lemma_split_refilled(b: nat, w: nat, k: nat, n: nat)
    requires
        k < n,
        b < pow2(k),
    ensures
        (b + w * pow2(k)) % pow2(n) == b + (w % pow2((n - k) as nat)) * pow2(k),
        (b + w * pow2(k)) / pow2(n) == w / pow2((n - k) as nat),
{
    let d = (n - k) as nat;
    lemma_pow2_pos(k);
    lemma_pow2_pos(d);
    lemma_pow2_adds(d, k);
    assert(d + k == n);
    let q = w / pow2(d);
    let r = w % pow2(d);
    lemma_fundamental_div_mod(w as int, pow2(d) as int);
    lemma_mod_bound(w as int, pow2(d) as int);
    assert(w * pow2(k) == q * pow2(n) + r * pow2(k)) by {
        lemma_mul_is_distributive_add(pow2(k) as int, (pow2(d) * q) as int, r as int);
        lemma_mul_is_associative(pow2(k) as int, pow2(d) as int, q as int);
        lemma_mul_is_commutative(pow2(k) as int, w as int);
        lemma_mul_is_commutative(pow2(k) as int, r as int);
        lemma_mul_is_commutative(pow2(k) as int, pow2(d) as int);
        lemma_mul_is_commutative((pow2(d) * pow2(k)) as int, q as int);
    }
    assert(b + r * pow2(k) < pow2(n)) by {
        lemma_mul_inequality(r as int, pow2(d) - 1, pow2(k) as int);
        lemma_mul_is_distributive_sub(pow2(k) as int, pow2(d) as int, 1);
        lemma_mul_is_commutative(pow2(k) as int, (pow2(d) - 1) as int);
        lemma_mul_is_commutative(pow2(k) as int, pow2(d) as int);
    }
    lemma_fundamental_div_mod_converse(
        (b + w * pow2(k)) as int,
        pow2(n) as int,
        q as int,
        (b + r * pow2(k)) as int,
    );
}

/// Bits below those a word sequence already holds do not change when a
/// word is appended.
pub proof fn lemma_append_keeps_bits(ws: Seq<u64>, w: u64, start: nat, n: nat)
    requires
        start + n <= 64 * ws.len(),
    ensures
        bit_field(stream_value(ws.push(w)), start, n) == bit_field(stream_value(ws), start, n),
{
    let m = (64 * ws.len()) as nat;
    let ws2 = ws.push(w);
    assert(ws2.drop_last() =~= ws);
    let x = stream_value(ws);
    let x2 = stream_value(ws2);
    assert(x2 == x + w as nat * pow2(m));
    let d = (m - start) as nat;
    lemma_pow2_pos(start);
    lemma_pow2_pos(n);
    lemma_pow2_adds(start, d);
    lemma_pow2_adds(n, (d - n) as nat);
    lemma_fundamental_div_mod(x as int, pow2(start) as int);
    lemma_mod_bound(x as int, pow2(start) as int);
    let q = x / pow2(start);
    assert(x2 == pow2(start) * (q + w as nat * pow2(d)) + x % pow2(start)) by {
        lemma_mul_is_distributive_add(pow2(start) as int, q as int, (w as nat * pow2(d)) as int);
        lemma_mul_is_associative(pow2(start) as int, w as int, pow2(d) as int);
        lemma_mul_is_commutative(pow2(start) as int, w as int);
        lemma_mul_is_associative(w as int, pow2(start) as int, pow2(d) as int);
    }
    lemma_mul_is_commutative(pow2(start) as int, (q + w as nat * pow2(d)) as int);
    lemma_fundamental_div_mod_converse(
        x2 as int,
        pow2(start) as int,
        (q + w as nat * pow2(d)) as int,
        (x % pow2(start)) as int,
    );
    assert(w as nat * pow2(d) == pow2(n) * (w as nat * pow2((d - n) as nat))) by {
        lemma_mul_is_associative(w as int, pow2(n) as int, pow2((d - n) as nat) as int);
        lemma_mul_is_commutative(w as int, pow2(n) as int);
        lemma_mul_is_associative(pow2(n) as int, w as int, pow2((d - n) as nat) as int);
    }
    lemma_mod_multiples_vanish((w as nat * pow2((d - n) as nat)) as int, q as int, pow2(n) as int);
}

/// Reading from bit `t + s` of `x` is reading from bit `s` of `x` with its
/// lowest `t` bits dropped.
pub proof fn lemma_bit_field_shift(x: nat, t: nat, s: nat, n: nat)
    ensures
        bit_field(x, t + s, n) == bit_field(x / pow2(t), s, n),
{
    lemma_pow2_pos(t);
    lemma_pow2_pos(s);
    lemma_pow2_adds(t, s);
    lemma_div_denominator(x as int, pow2(t) as int, pow2(s) as int);
}

/// The first non-zero window is the one after a run of zero windows.
pub proof fn lemma_first_nonzero_window(x: nat, mb: nat, j: nat, k: nat, count: nat)
    requires
        j <= k <= count,
        forall|i: nat| j <= i < k ==> #[trigger] bit_field(x, mb * i, mb) == 0,
        k < count ==> bit_field(x, mb * k, mb) != 0,
    ensures
        first_nonzero_window(x, mb, j, count) == k,
    decreases k - j,
{
    if j < k {
        assert(bit_field(x, mb * j, mb) == 0);
        lemma_first_nonzero_window(x, mb, j + 1, k, count);
    }
}

/// The seek stage reads only the stream bits it counts as read: appending
/// a word beyond them changes nothing.
pub proof fn lemma_seek_result_append(ws: Seq<u64>, w: u64, mb: nat, bias: nat)
    requires
        mb > 0,
        seek_result(stream_value(ws), mb, bias).2 <= 64 * ws.len(),
    ensures
        seek_result(stream_value(ws.push(w)), mb, bias) == seek_result(stream_value(ws), mb, bias),
{
    let x = stream_value(ws);
    let x2 = stream_value(ws.push(w));
    let count = bias / mb;
    let k = first_nonzero_window(x, mb, 0, count);
    lemma_first_nonzero_window_bounds(x, mb, 0, count);
    assert forall|i: nat| 0 <= i < k implies #[trigger] bit_field(x2, mb * i, mb) == 0 by {
        lemma_first_nonzero_window_skips(x, mb, 0, count, i);
        lemma_mul_inequality(i as int + 1, k as int, mb as int);
        lemma_mul_inequality(k as int, count as int, mb as int);
        lemma_mul_is_distributive_add(mb as int, i as int, 1);
        lemma_mul_is_commutative(mb as int, i as int + 1);
        lemma_mul_is_commutative(mb as int, k as int);
        lemma_mul_is_commutative(mb as int, count as int);
        lemma_mul_is_distributive_add(mb as int, k as int, 1);
        lemma_append_keeps_bits(ws, w, mb * i, mb);
    }
    if k < count {
        lemma_mul_is_distributive_add(mb as int, k as int, 1);
        lemma_append_keeps_bits(ws, w, mb * k, mb);
    } else {
        lemma_append_keeps_bits(ws, w, mb * count, bias % mb);
    }
    lemma_first_nonzero_window(x2, mb, 0, k, count);
}

/// The first non-zero window index lies in `j ..= count`.
pub proof fn lemma_first_nonzero_window_bounds(x: nat, mb: nat, j: nat, count: nat)
    requires
        j <= count,
    ensures
        j <= first_nonzero_window(x, mb, j, count) <= count,
        first_nonzero_window(x, mb, j, count) < count ==> bit_field(
            x,
            mb * first_nonzero_window(x, mb, j, count),
            mb,
        ) != 0,
    decreases count - j,
{
    if j < count && bit_field(x, mb * j, mb) == 0 {
        lemma_first_nonzero_window_bounds(x, mb, j + 1, count);
    }
}

/// Every window before the first non-zero one is zero.
pub proof fn lemma_first_nonzero_window_skips(x: nat, mb: nat, j: nat, count: nat, i: nat)
    requires
        j <= i < first_nonzero_window(x, mb, j, count),
        j <= count,
    ensures
        bit_field(x, mb * i, mb) == 0,
    decreases count - j,
{
    if j < count && bit_field(x, mb * j, mb) == 0 && j < i {
        lemma_first_nonzero_window_skips(x, mb, j + 1, count, i);
    }
}

/// A prefix stays a prefix when the longer sequence grows.
proof fn lemma_prefix_of_push<A>(a: Seq<A>, b: Seq<A>, x: A)
    requires
        a.is_prefix_of(b),
    ensures
        a.is_prefix_of(b.push(x)),
{
    assert(b.push(x).subrange(0, a.len() as int) =~= b.subrange(0, a.len() as int));
}

/// Zero windows of the stream stay zero when a word is appended.
proof fn lemma_zero_windows_kept(before: Seq<u64>, after: Seq<u64>, t0: nat, mb: nat, k: nat)
    requires
        after == before || (after.len() == before.len() + 1 && after.drop_last() == before),
        t0 + mb * k <= 64 * before.len(),
        forall|j: nat| j < k ==> #[trigger] bit_field(stream_value(before), t0 + mb * j, mb) == 0,
    ensures
        forall|j: nat| j < k ==> #[trigger] bit_field(stream_value(after), t0 + mb * j, mb) == 0,
{
    if after != before {
        assert(after =~= before.push(after.last()));
        assert forall|j: nat| j < k implies #[trigger] bit_field(stream_value(after), t0 + mb * j, mb) == 0 by {
            lemma_mul_inequality(j as int + 1, k as int, mb as int);
            lemma_mul_is_distributive_add(mb as int, j as int, 1);
            lemma_mul_is_commutative(mb as int, j as int + 1);
            lemma_mul_is_commutative(mb as int, k as int);
            assert(bit_field(stream_value(before), t0 + mb * j, mb) == 0);
            lemma_append_keeps_bits(before, after.last(), t0 + mb * j, mb);
        }
    }
}

/// The bit-level form of a refill: the old bits below, the new word's low
/// bits above them.
proof fn lemma_refill_bits(pool: u64, w: u64, k: u64, n: u64)
    by (bit_vector)
    requires
        k < n < 64,
        pool < (1u64 << k),
    ensures
        (pool | (w << k)) & (((1u64 << n) - 1) as u64) == pool + ((w & (((1u64 << ((n - k) as u64)) - 1) as u64)) << k),
        pool + ((w & (((1u64 << ((n - k) as u64)) - 1) as u64)) << k) <= u64::MAX,
        (w & (((1u64 << ((n - k) as u64)) - 1) as u64)) < (1u64 << ((n - k) as u64)),
{
}

/// `(1 << n) - 1` is the mask of the low `n` bits.
proof fn lemma_low_mask(n: u64)
    requires
        n < 64,
    ensures
        (1u64 << n) == pow2(n as nat),
        ((1u64 << n) - 1) as nat == low_bits_mask(n as nat),
{
    lemma_u64_pow2_no_overflow(n as nat);
    lemma_u64_shl_is_mul(1u64, n);
    reveal(low_bits_mask);
}

/// The buffered bits of an [`EntropyPool`], kept apart from its source.
///
/// [`get_bits`](Self::get_bits) hands out `n` bits at a time, drawing a new
/// 64-bit word from the source it is given only when the buffered bits run
/// out; the remainder of each draw is kept for later requests. The buffer
/// keeps, as ghost state, every word it has drawn, the states the source
/// went through, and the number of bits it has handed out: the drawn words
/// are those the source handed out, and the bits handed out are the stream
/// of drawn words, in order, with none skipped or repeated.
pub struct BitBuffer<S> {
    pool: u64,
    nbits: u32,
    drawn: Ghost<Seq<u64>>,
    states: Ghost<Seq<S>>,
    taken: Ghost<nat>,
}

impl<S: WordSource> BitBuffer<S> {
    /// The words drawn from the source so far, in order.
    pub closed spec fn drawn(&self) -> Seq<u64> {
        self.drawn@
    }

    /// The states the source went through: its state when the buffer was
    /// made, then its state after each draw.
    pub closed spec fn source_states(&self) -> Seq<S> {
        self.states@
    }

    /// The number of stream bits handed out so far.
    pub closed spec fn taken(&self) -> nat {
        self.taken@
    }

    /// The number of drawn bits not yet handed out.
    pub open spec fn buffered(&self) -> int {
        64 * self.drawn().len() - self.taken()
    }

    /// The buffer's invariant over the source in state `src`: it buffers
    /// exactly the drawn bits that were not handed out yet, fewer than 64
    /// of them, and `src` is the state after the last draw.
    pub closed spec fn wf(&self, src: S) -> bool {
        &&& self.nbits < 64
        &&& self.taken@ + self.nbits == 64 * self.drawn@.len()
        &&& self.pool as nat == stream_value(self.drawn@) / pow2(self.taken@)
        &&& yields_chain(self.states@, self.drawn@)
        &&& self.states@.last() == src
    }

    /// The drawn words are those the source handed out, from its first
    /// state to its current one, and fewer than 64 bits are buffered.
    pub proof fn lemma_drawn_from_source(&self, src: S)
        requires
            self.wf(src),
        ensures
            yields_chain(self.source_states(), self.drawn()),
            self.source_states().last() == src,
            0 <= self.buffered() < 64,
    {
    }

    /// An empty buffer over the source in state `src`.
    pub fn new(src: &S) -> (b: Self)
        ensures
            b.wf(*src),
            b.buffered() == 0,
            b.drawn() == Seq::<u64>::empty(),
            b.taken() == 0,
            b.source_states() == seq![*src],
    {
        proof {
            lemma2_to64();
        }
        let ghost states = seq![*src];
        Self { pool: 0, nbits: 0, drawn: Ghost(Seq::empty()), states: Ghost(states), taken: Ghost(0) }
    }

    /// Returns the next `n` (< 64) bits of the stream in the low bits of
    /// the result, drawing one word from the source exactly when fewer than
    /// `n` bits are buffered.
    pub fn get_bits(&mut self, src: &mut S, n: u32) -> (r: u64)
        requires
            old(self).wf(*old(src)),
            n < 64,
        ensures
            final(self).wf(*final(src)),
            final(self).taken() == old(self).taken() + n,
            old(self).buffered() >= n ==> {
                &&& final(self).drawn() == old(self).drawn()
                &&& *final(src) == *old(src)
                &&& final(self).source_states() == old(self).source_states()
            },
            old(self).buffered() < n ==> {
                &&& final(self).drawn().len() == old(self).drawn().len() + 1
                &&& final(self).drawn().drop_last() == old(self).drawn()
                &&& (*old(src)).yields(final(self).drawn().last(), &*final(src))
                &&& final(self).source_states() == old(self).source_states().push(*final(src))
            },
            r == bit_field(stream_value(final(self).drawn()), old(self).taken(), n as nat),
            0 <= final(self).buffered() < 64,
    {
        let ghost x = stream_value(self.drawn@);
        let ghost t = self.taken@;
        let ghost k = self.nbits as nat;
        proof {
            lemma_low_mask(n as u64);
            lemma_pow2_pos(t);
            lemma_pow2_pos(n as nat);
            lemma_pow2_adds(t, n as nat);
            lemma_pow2_adds(t, k);
            lemma_stream_value_bound(self.drawn@);
            // the buffered value fits in nbits bits
            assert(self.pool < pow2(k)) by {
                if self.pool >= pow2(k) {
                    lemma_mul_inequality(pow2(k) as int, self.pool as int, pow2(t) as int);
                    lemma_fundamental_div_mod(x as int, pow2(t) as int);
                    lemma_mod_bound(x as int, pow2(t) as int);
                    lemma_mul_is_commutative(pow2(k) as int, pow2(t) as int);
                    lemma_mul_is_commutative(self.pool as int, pow2(t) as int);
                }
            }
        }
        let mut result = self.pool;
        if self.nbits < n {
            let needed = n - self.nbits;
            let ghost s0 = *src;
            let w = src.next_word();
            let ghost b = self.pool as nat;
            self.pool = w;
            proof {
                lemma_low_mask(k as u64);
                lemma_low_mask(needed as u64);
                lemma_refill_bits(result, w, k as u64, n as u64);
                lemma_u64_low_bits_mask_is_mod(w, needed as nat);
                lemma_pow2_pos(needed as nat);
                lemma_mul_inequality((w as nat % pow2(needed as nat)) as int, pow2(needed as nat) - 1, pow2(k) as int);
                lemma_pow2_adds(needed as nat, k);
                lemma_u64_pow2_no_overflow(n as nat);
                let masked = w & (((1u64 << (needed as u64)) - 1) as u64);
                assert(masked as nat == w as nat % pow2(needed as nat));
                assert(masked * pow2(k) <= u64::MAX) by {
                    lemma_mul_inequality(masked as int, pow2(needed as nat) - 1, pow2(k) as int);
                    lemma_mul_is_distributive_sub(pow2(k) as int, pow2(needed as nat) as int, 1);
                    lemma_mul_is_commutative(pow2(k) as int, pow2(needed as nat) as int);
                    lemma_mul_is_commutative(pow2(k) as int, (pow2(needed as nat) - 1) as int);
                    assert(needed as nat + k == n as nat);
                }
                lemma_u64_shl_is_mul(masked, k as u64);
                lemma_split_refilled(b, w as nat, k, n as nat);
                lemma_u64_shr_is_div(w, needed as u64);
                // the stream after the draw, seen from bit t
                let d2 = self.drawn@.push(w);
                assert(d2.drop_last() =~= self.drawn@);
                let x2 = stream_value(d2);
                assert(x2 == x + w as nat * pow2(t + k));
                lemma_fundamental_div_mod(x as int, pow2(t) as int);
                lemma_mod_bound(x as int, pow2(t) as int);
                assert(x2 == pow2(t) * (b + w as nat * pow2(k)) + x % pow2(t)) by {
                    lemma_mul_is_distributive_add(pow2(t) as int, b as int, (w as nat * pow2(k)) as int);
                    lemma_mul_is_associative(pow2(t) as int, w as int, pow2(k) as int);
                    lemma_mul_is_commutative(pow2(t) as int, w as int);
                    lemma_mul_is_associative(w as int, pow2(t) as int, pow2(k) as int);
                }
                lemma_mul_is_commutative(pow2(t) as int, (b + w as nat * pow2(k)) as int);
                lemma_fundamental_div_mod_converse(
                    x2 as int,
                    pow2(t) as int,
                    (b + w as nat * pow2(k)) as int,
                    (x % pow2(t)) as int,
                );
                lemma_div_denominator(x2 as int, pow2(t) as int, pow2(n as nat) as int);
                self.drawn = Ghost(d2);
                let st2 = self.states@.push(*src);
                assert forall|i: int| 0 <= i < d2.len() implies #[trigger] st2[i].yields(d2[i], &st2[i + 1]) by {
                    if i < d2.len() - 1 {
                        assert(st2[i] == self.states@[i] && st2[i + 1] == self.states@[i + 1]);
                    }
                }
                self.states = Ghost(st2);
            }
            result |= self.pool << self.nbits;
            self.pool >>= needed;
            self.nbits = 64 - needed;
        } else {
            proof {
                lemma_u64_shr_is_div(self.pool, n as u64);
                lemma_div_denominator(x as int, pow2(t) as int, pow2(n as nat) as int);
                lemma_u64_low_bits_mask_is_mod(self.pool, n as nat);
            }
            self.nbits -= n;
            self.pool >>= n;
        }
        proof {
            self.taken = Ghost(t + n as nat);
        }
        result & ((1u64 << n) - 1)
    }
}


/// A buffer of random bits drawn from a [`WordSource`] that it owns.
///
/// [`get_bits`](Self::get_bits) hands out `n` bits at a time, drawing a new
/// 64-bit word from the source only when the buffered bits run out; the
/// remainder of each draw is kept for later requests. The drawn words are
/// those the source handed out, and the bits handed out are the stream of
/// drawn words, in order, with none skipped or repeated.
pub struct EntropyPool<S> {
    src: S,
    buf: BitBuffer<S>,
}

impl<S: WordSource> EntropyPool<S> {
    /// The words drawn from the source so far, in order.
    pub closed spec fn drawn(&self) -> Seq<u64> {
        self.buf.drawn()
    }

    /// The source, in its current state.
    pub closed spec fn source(&self) -> S {
        self.src
    }

    /// The states the source went through: its state when the pool was
    /// made, then its state after each draw.
    pub closed spec fn source_states(&self) -> Seq<S> {
        self.buf.source_states()
    }

    /// The number of stream bits handed out so far.
    pub closed spec fn taken(&self) -> nat {
        self.buf.taken()
    }

    /// The number of drawn bits not yet handed out.
    pub open spec fn buffered(&self) -> int {
        64 * self.drawn().len() - self.taken()
    }

    /// The pool's invariant: it buffers exactly the drawn bits that were
    /// not handed out yet, fewer than 64 of them.
    pub closed spec fn wf(&self) -> bool {
        self.buf.wf(self.src)
    }

    /// The drawn words are those the source handed out, from its first
    /// state to its current one, and fewer than 64 bits are buffered.
    pub proof fn lemma_drawn_from_source(&self)
        requires
            self.wf(),
        ensures
            yields_chain(self.source_states(), self.drawn()),
            self.source_states().last() == self.source(),
            0 <= self.buffered() < 64,
    {
        self.buf.lemma_drawn_from_source(self.src);
    }

    /// `next` is this pool after handing out `r`, the next `n` bits of the
    /// stream: a word is drawn from the source exactly when fewer than `n`
    /// bits are buffered.
    pub open spec fn hands_out(&self, n: nat, next: &Self, r: u64) -> bool {
        &&& next.taken() == self.taken() + n
        &&& self.buffered() >= n ==> {
            &&& next.drawn() == self.drawn()
            &&& next.source() == self.source()
            &&& next.source_states() == self.source_states()
        }
        &&& self.buffered() < n ==> {
            &&& next.drawn().len() == self.drawn().len() + 1
            &&& next.drawn().drop_last() == self.drawn()
            &&& self.source().yields(next.drawn().last(), &next.source())
            &&& next.source_states() == self.source_states().push(next.source())
        }
        &&& r == bit_field(stream_value(next.drawn()), self.taken(), n)
        &&& 0 <= next.buffered() < 64
    }

    /// An empty pool over `src`.
    pub fn new(src: S) -> (p: Self)
        ensures
            p.wf(),
            p.buffered() == 0,
            p.drawn() == Seq::<u64>::empty(),
            p.taken() == 0,
            p.source() == src,
            p.source_states() == seq![src],
    {
        let buf = BitBuffer::new(&src);
        Self { src, buf }
    }

    /// Returns the next `n` (< 64) bits of the stream in the low bits of
    /// the result, drawing one word from the source exactly when fewer than
    /// `n` bits are buffered.
    pub fn get_bits(&mut self, n: u32) -> (r: u64)
        requires
            old(self).wf(),
            n < 64,
        ensures
            final(self).wf(),
            old(self).hands_out(n as nat, &*final(self), r),
    {
        self.buf.get_bits(&mut self.src, n)
    }
}

/// Stage 1 for the format with `mb` explicit mantissa bits and exponent
/// bias `bias`: locates the result's binade and produces the partial
/// result. Returns the encoding of the partial result and the number of
/// vacant trailing significand bits that stage 2 must backfill.
/// Two requests hand out what one request of their summed width does.
/// Pools in the same state, over a source that hands out its words
/// deterministically, hand out `a` and then `b` bits as the `a + b` bits of
/// one request, and end in the same state, having drawn the same words.
pub proof fn lemma_two_requests_are_one<S: WordSource>(
    p0: EntropyPool<S>,
    p1: EntropyPool<S>,
    p2: EntropyPool<S>,
    q0: EntropyPool<S>,
    q1: EntropyPool<S>,
    a: nat,
    b: nat,
    x: u64,
    y: u64,
    z: u64,
)
    requires
        p0.wf(),
        a + b < 64,
        p0.drawn() == q0.drawn(),
        p0.taken() == q0.taken(),
        p0.source() == q0.source(),
        p0.source_states() == q0.source_states(),
        forall|s: S, w1: u64, s1: S, w2: u64, s2: S|
            #[trigger] s.yields(w1, &s1) && #[trigger] s.yields(w2, &s2) ==> w1 == w2 && s1 == s2,
        p0.hands_out(a, &p1, x),
        p1.hands_out(b, &p2, y),
        q0.hands_out(a + b, &q1, z),
    ensures
        z == x + y * pow2(a),
        p2.drawn() == q1.drawn(),
        p2.taken() == q1.taken(),
        p2.source() == q1.source(),
        p2.source_states() == q1.source_states(),
{
    p0.lemma_drawn_from_source();
    let t = p0.taken();
    let d = p0.drawn();
    lemma_bit_fields_concatenate(stream_value(p2.drawn()), t, a, b);
    if p0.buffered() >= a + b {
        assert(p2.drawn() == d);
    } else {
        // exactly one word is drawn on each side, the same one
        let w = q1.drawn().last();
        assert(q1.drawn() =~= d.push(w));
        if p0.buffered() >= a {
            assert(p1.drawn() == d && p1.source() == p0.source());
            assert(p2.drawn() =~= d.push(p2.drawn().last()));
            assert(p0.source().yields(p2.drawn().last(), &p2.source()));
            assert(p0.source().yields(w, &q1.source()));
            lemma_append_keeps_bits(d, w, t, a);
        } else {
            assert(p1.drawn() =~= d.push(p1.drawn().last()));
            assert(p0.source().yields(p1.drawn().last(), &p1.source()));
            assert(p0.source().yields(w, &q1.source()));
            assert(p2.drawn() == p1.drawn());
        }
    }
}

/// An encoding `d` whose low `nb <= m` bits are zero, in a binade below
/// `bias`, leaves room for `2^nb` more units below `bias 2^m`.
proof fn lemma_room_above(d: nat, nb: nat, m: nat, bias: nat)
    requires
        d % pow2(nb) == 0,
        nb <= m,
        d / pow2(m) < bias,
    ensures
        d + pow2(nb) <= bias * pow2(m),
{
    let q = pow2(nb);
    let r = pow2((m - nb) as nat);
    let pm = pow2(m);
    lemma_pow2_pos(nb);
    lemma_pow2_pos(m);
    lemma_pow2_pos((m - nb) as nat);
    lemma_pow2_adds(nb, (m - nb) as nat);
    assert(pm == q * r);
    let hi = d / pm;
    let lo = d % pm;
    lemma_fundamental_div_mod(d as int, pm as int);
    lemma_mod_bound(d as int, pm as int);
    // lo is a multiple of q
    assert(d == (hi * r) * q + lo) by {
        lemma_mul_is_associative(hi as int, r as int, q as int);
        lemma_mul_is_commutative(q as int, r as int);
        lemma_mul_is_commutative(pm as int, hi as int);
    }
    lemma_mul_is_commutative((hi * r) as int, q as int);
    lemma_mod_multiples_vanish((hi * r) as int, lo as int, q as int);
    let j = lo / q;
    lemma_fundamental_div_mod(lo as int, q as int);
    assert(lo == q * j);
    assert(j < r) by {
        if j >= r {
            lemma_mul_inequality(r as int, j as int, q as int);
            lemma_mul_is_commutative(q as int, j as int);
            lemma_mul_is_commutative(q as int, r as int);
        }
    }
    assert(lo + q <= pm) by {
        lemma_mul_inequality(j as int + 1, r as int, q as int);
        lemma_mul_is_distributive_add_other_way(q as int, j as int, 1);
        lemma_mul_is_commutative(q as int, j as int);
        lemma_mul_is_commutative(q as int, r as int);
    }
    lemma_mul_inequality(hi as int + 1, bias as int, pm as int);
    lemma_mul_is_distributive_add_other_way(pm as int, hi as int, 1);
    lemma_mul_is_commutative(pm as int, hi as int);
}

#[verifier::spinoff_prover]
#[verifier::rlimit(40)]
pub fn seek_bits<S: WordSource>(buf: &mut BitBuffer<S>, src: &mut S, mb: u32, bias: u32) -> (r: (u64, u32))
    requires
        old(buf).wf(*old(src)),
        is_float_format(mb as nat, bias as nat),
    ensures
        final(buf).wf(*final(src)),
        old(buf).drawn().is_prefix_of(final(buf).drawn()),
        old(buf).source_states().is_prefix_of(final(buf).source_states()),
        ({
            let (p, nb, c) = seek_result(
                stream_value(final(buf).drawn()) / pow2(old(buf).taken()),
                mb as nat,
                bias as nat,
            );
            &&& r.0 == p
            &&& r.1 == nb
            &&& final(buf).taken() == old(buf).taken() + c
        }),
        r.1 <= mb,
        r.0 as nat % pow2(r.1 as nat) == 0,
        0 <= final(buf).buffered() < 64,
        r.0 + pow2(r.1 as nat) <= bias * pow2(mb as nat),
{
    let ghost t0 = buf.taken();
    let ghost d0 = buf.drawn();
    let ghost s0 = buf.source_states();
    let ghost m = mb as nat;
    let ghost count = bias as nat / m;
    let ghost bb = bias as nat % m;
    let ghost pm = pow2(m);
    proof {
        lemma_format_facts(m, bias as nat);
        lemma_pow2_pos(m);
        lemma2_to64();
        lemma2_to64_rest();
        assert(bias * pm <= u64::MAX && mb * pm <= u64::MAX) by {
            if mb == 52 {
                assert(pm == 0x10_0000_0000_0000);
            } else {
                assert(pm == 0x80_0000);
            }
        }
    }
    let first = buf.get_bits(src, mb);
    proof {
        lemma_pow2_pos(t0);
        lemma_mod_bound((stream_value(buf.drawn()) / pow2(t0)) as int, pm as int);
        assert(d0.is_prefix_of(buf.drawn())) by {
            if buf.drawn() != d0 {
                assert(buf.drawn() =~= d0.push(buf.drawn().last()));
                lemma_prefix_of_push(d0, d0, buf.drawn().last());
            }
        }
        assert(s0.is_prefix_of(buf.source_states())) by {
            if buf.source_states() != s0 {
                lemma_prefix_of_push(s0, s0, *src);
            }
        }
        lemma_u64_shl_is_mul(bias as u64, mb as u64);
        lemma_u64_shl_is_mul(mb as u64, mb as u64);
        assert(m * 0nat == 0);
    }
    let bottom = bias % mb;
    let step = (mb as u64) << mb;
    let mut a = first;
    let mut base: u64 = (bias as u64) << mb;
    let mut nb: u32 = 0;
    let ghost mut k: nat = 0;
    while a == 0
        invariant_except_break
            nb == 0,
            k < count,
            buf.taken() == t0 + m * (k + 1),
            a == bit_field(stream_value(buf.drawn()), t0 + m * k, m),
        invariant
            buf.wf(*src),
            d0.is_prefix_of(buf.drawn()),
            s0.is_prefix_of(buf.source_states()),
            is_float_format(m, bias as nat),
            m == mb,
            count == bias / mb,
            bb == bias % mb,
            bottom == bb,
            pm == pow2(m),
            pm > 0,
            step == m * pm,
            bias == m * count + bb,
            2 <= bb < m <= 52,
            k <= count,
            base == (bias - m * k) * pm,
            forall|j: nat| j < k ==> #[trigger] bit_field(stream_value(buf.drawn()), t0 + m * j, m) == 0,
        ensures
            buf.wf(*src),
            d0.is_prefix_of(buf.drawn()),
            s0.is_prefix_of(buf.source_states()),
            k <= count,
            base == (bias - m * k) * pm,
            forall|j: nat| j < k ==> #[trigger] bit_field(stream_value(buf.drawn()), t0 + m * j, m) == 0,
            (nb == 0 && a != 0 && k < count && buf.taken() == t0 + m * (k + 1) && a == bit_field(
                stream_value(buf.drawn()),
                t0 + m * k,
                m,
            )) || (nb == m - bb && k == count && buf.taken() == t0 + m * count + bb && a == bit_field(
                stream_value(buf.drawn()),
                t0 + m * count,
                bb,
            ) * pow2((m - bb) as nat)),
        decreases count - k,
    {
        let ghost before = buf.drawn();
        let ghost sbefore = buf.source_states();
        proof {
            assert(bit_field(stream_value(before), t0 + m * k, m) == 0);
            // the current window lies at least one window above the bottom
            lemma_mul_inequality(k as int + 1, count as int, m as int);
            lemma_mul_is_distributive_add_other_way(m as int, k as int, 1);
            lemma_mul_is_commutative(m as int, count as int);
            lemma_mul_inequality(m as int, (bias - m * k) as int, pm as int);
            lemma_mul_is_distributive_sub_other_way(pm as int, (bias - m * k) as int, m as int);
            k = k + 1;
            assert(bias - m * (k - 1) - m == bias - m * k) by {
                lemma_mul_is_distributive_sub(m as int, k as int, 1);
            }
        }
        // Descend one window.
        base -= step;
        if base < step {
            proof {
                if k < count {
                    lemma_mul_inequality(k as int + 1, count as int, m as int);
                    lemma_mul_is_distributive_add_other_way(m as int, k as int, 1);
                    lemma_mul_inequality(m as int, (bias - m * k) as int, pm as int);
                }
            }
            // The bottom window, reaching the subnormals: only `bias mod mb`
            // bits remain, drawn aligned to the top of the mantissa.
            nb = mb - bottom;
            let low = buf.get_bits(src, bottom);
            proof {
                lemma_pow2_pos(bb);
                lemma_pow2_pos((m - bb) as nat);
                lemma_pow2_pos(t0 + m * count);
                lemma_mod_bound((stream_value(buf.drawn()) / pow2(t0 + m * count)) as int, pow2(bb) as int);
                lemma_pow2_adds(bb, (m - bb) as nat);
                lemma_mul_strict_inequality(low as int, pow2(bb) as int, pow2((m - bb) as nat) as int);
                assert(low * pow2((m - bb) as nat) < pm);
                assert(pm <= step) by {
                    lemma_mul_inequality(1, m as int, pm as int);
                }
                lemma_u64_shl_is_mul(low, (m - bb) as u64);
                lemma_zero_windows_kept(before, buf.drawn(), t0, m, k);
                if buf.drawn() != before {
                    assert(buf.drawn() =~= before.push(buf.drawn().last()));
                    lemma_prefix_of_push(d0, before, buf.drawn().last());
                    lemma_prefix_of_push(s0, sbefore, *src);
                }
            }
            a = low << nb;
            break;
        }
        let next = buf.get_bits(src, mb);
        proof {
            if k >= count {
                lemma_mul_strict_inequality(bb as int, m as int, pm as int);
            }
            lemma_pow2_pos(t0 + m * k);
            lemma_mod_bound((stream_value(buf.drawn()) / pow2(t0 + m * k)) as int, pm as int);
            lemma_mul_is_distributive_add(m as int, k as int, 1);
            lemma_zero_windows_kept(before, buf.drawn(), t0, m, k);
            if buf.drawn() != before {
                assert(buf.drawn() =~= before.push(buf.drawn().last()));
                lemma_prefix_of_push(d0, before, buf.drawn().last());
                lemma_prefix_of_push(s0, sbefore, *src);
            }
        }
        a = next;
    }
    let ghost x = stream_value(buf.drawn());
    let ghost rest = x / pow2(t0);
    proof {
        lemma_u64_shr_is_div(base, mb as u64);
        lemma_pow2_pos(bb);
        lemma_pow2_pos(t0 + m * k);
        lemma_pow2_pos(t0 + m * count);
        lemma_div_by_multiple((bias - m * k) as int, pm as int);
        lemma_mod_bound((x / pow2(t0 + m * k)) as int, pm as int);
        lemma_mod_bound((x / pow2(t0 + m * count)) as int, pow2(bb) as int);
        assert(a < pm) by {
            if nb != 0 {
                lemma_pow2_adds(bb, (m - bb) as nat);
                lemma_mul_strict_inequality(
                    bit_field(x, t0 + m * count, bb) as int,
                    pow2(bb) as int,
                    pow2((m - bb) as nat) as int,
                );
            }
        }
        assert forall|j: nat| j < k implies #[trigger] bit_field(rest, m * j, m) == 0 by {
            lemma_bit_field_shift(x, t0, m * j, m);
        }
        lemma_bit_field_shift(x, t0, m * k, m);
        lemma_bit_field_shift(x, t0, m * count, bb);
        if k < count {
            lemma_mul_inequality(k as int + 1, count as int, m as int);
            lemma_mul_is_distributive_add_other_way(m as int, k as int, 1);
        }
    }
    let e = base >> mb;
    // The difference `from_bits(base + a) - from_bits(base)`, computed
    // exactly: the bits placed in the current window, renormalized.
    let diff = exact_difference(a, e, mb as u64);
    proof {
        lemma_u64_shr_is_div(diff, mb as u64);
        if nb == 0 {
            lemma_first_nonzero_window(rest, m, 0, k, count);
        } else {
            lemma_first_nonzero_window(rest, m, 0, count, count);
        }
    }
    let field = diff >> mb;
    // A subnormal is spaced as the lowest normal binade.
    let scale = if field == 0 { 1 } else { field };
    nb += (e - scale) as u32;
    proof {
        let ex = diff as nat / pm;
        lemma_fundamental_div_mod(diff as int, pm as int);
        lemma_mod_bound(diff as int, pm as int);
        if nb as nat <= m {
            if nb < m {
                lemma_pow2_strictly_increases(nb as nat, m);
            }
        }
        if ex == bias - 1 {
            assert(k == 0);
        } else {
            lemma_mul_inequality(ex as int, bias - 2, pm as int);
        }
        lemma_mul_is_commutative(pm as int, ex as int);
        lemma_vacant_bits_zero(stream_value(buf.drawn()) / pow2(t0), m, bias as nat);
        assert(diff as nat % pow2(nb as nat) == 0);
        lemma_room_above(diff as nat, nb as nat, m, bias as nat);
    }
    (diff, nb)
}

/// Stage 1 for binary64: [`seek_bits`] with 52 mantissa bits and bias 1023.
pub fn seek64<S: WordSource>(pool: &mut EntropyPool<S>) -> (r: (u64, u32))
    requires
        old(pool).wf(),
    ensures
        final(pool).wf(),
        old(pool).drawn().is_prefix_of(final(pool).drawn()),
        old(pool).source_states().is_prefix_of(final(pool).source_states()),
        ({
            let (p, nb, c) = seek_result(
                stream_value(final(pool).drawn()) / pow2(old(pool).taken()),
                52,
                1023,
            );
            &&& r.0 == p
            &&& r.1 == nb
            &&& final(pool).taken() == old(pool).taken() + c
        }),
        r.1 <= 52,
        r.0 as nat % pow2(r.1 as nat) == 0,
        0 <= final(pool).buffered() < 64,
        r.0 + pow2(r.1 as nat) <= 1023 * pow2(52),
{
    seek_bits(&mut pool.buf, &mut pool.src, F64_MBITS, F64_EBIAS)
}

/// Stage 1 for binary32: [`seek_bits`] with 23 mantissa bits and bias 127,
/// the partial result encoded as a binary32.
pub fn seek32<S: WordSource>(pool: &mut EntropyPool<S>) -> (r: (u32, u32))
    requires
        old(pool).wf(),
    ensures
        final(pool).wf(),
        old(pool).drawn().is_prefix_of(final(pool).drawn()),
        old(pool).source_states().is_prefix_of(final(pool).source_states()),
        ({
            let (p, nb, c) = seek_result(
                stream_value(final(pool).drawn()) / pow2(old(pool).taken()),
                23,
                127,
            );
            &&& r.0 == p
            &&& r.1 == nb
            &&& final(pool).taken() == old(pool).taken() + c
        }),
        r.1 <= 23,
        r.0 as nat % pow2(r.1 as nat) == 0,
        0 <= final(pool).buffered() < 64,
        r.0 + pow2(r.1 as nat) <= 127 * pow2(23),
{
    let (p, nb) = seek_bits(&mut pool.buf, &mut pool.src, F32_MBITS, F32_EBIAS);
    proof {
        lemma2_to64();
        lemma_pow2_pos(nb as nat);
    }
    (p as u32, nb)
}

/// The round-down generator for the format with `mb` explicit mantissa
/// bits and exponent bias `bias`, on the words of `bits`: the encoding of
/// [`down_result`] on the words drawn, below the encoding of 1.0. The words
/// drawn are exactly those the bits read need, and `bits` is left in the
/// state after the last of them: leftover bits of the last word are
/// dropped, so a later call starts on a fresh word.
pub fn down_bits<S: WordSource>(bits: &mut S, mb: u32, bias: u32) -> (r: u64)
    requires
        is_float_format(mb as nat, bias as nat),
    ensures
        r < bias * pow2(mb as nat),
        exists|ws: Seq<u64>, states: Seq<S>|
            {
                let (v, used) = down_result(stream_value(ws), mb as nat, bias as nat);
                &&& #[trigger] yields_chain(states, ws)
                &&& states[0] == *old(bits)
                &&& states.last() == *final(bits)
                &&& r == v
                &&& 64 * ws.len() - 64 < used <= 64 * ws.len()
            },
{
    let ghost src = *bits;
    let mut buf = BitBuffer::new(&*bits);
    let (partial, nb) = seek_bits(&mut buf, bits, mb, bias);
    let ghost d1 = buf.drawn();
    let ghost c = buf.taken();
    let fill = buf.get_bits(bits, nb);
    proof {
        let d2 = buf.drawn();
        lemma2_to64();
        lemma2_to64_rest();
        assert(stream_value(d1) / pow2(0) == stream_value(d1));
        if d2 != d1 {
            assert(d2 =~= d1.push(d2.last()));
            lemma_seek_result_append(d1, d2.last(), mb as nat, bias as nat);
        }
        lemma_pow2_pos(nb as nat);
        lemma_mod_bound((stream_value(d2) / pow2(c)) as int, pow2(nb as nat) as int);
        assert(bias * pow2(mb as nat) <= u64::MAX) by {
            if mb == 52 {
                assert(pow2(52) == 0x10_0000_0000_0000);
            } else {
                assert(pow2(23) == 0x80_0000);
            }
        }
        assert(down_result(stream_value(d2), mb as nat, bias as nat).0 == partial + fill);
        buf.lemma_drawn_from_source(*bits);
        assert(buf.source_states()[0] == src) by {
            assert(seq![src].is_prefix_of(buf.source_states()));
            assert(buf.source_states().subrange(0, 1)[0] == buf.source_states()[0]);
        }
        assert(yields_chain(buf.source_states(), d2));
    }
    // Round down: backfill the vacant trailing bits with random bits.
    fill + partial
}

/// Returns the encoding of a random binary64 distributed as a uniform real
/// in (0, 1) rounded **down** (toward -inf) to a representable value.
///
/// The value lies in [0, 1). The result is [`down_result`] on the words
/// that `bits` hands out, as its [`WordSource::yields`] relation states
/// them. Exactly as many words are drawn as the bits read need, and `bits`
/// is left after the last of them, so that successive calls read
/// successive words and leftover bits are dropped. Where the words
/// are independent and uniform, [`lemma_down_result_distribution`] gives
/// each binary64 below 1.0, subnormals and 0 included, the probability of
/// its spacing: that of a uniform real rounded down.
pub fn f64_down_bits<S: WordSource>(bits: &mut S) -> (r: u64)
    ensures
        r < ONE_F64_BITS,
        exists|ws: Seq<u64>, states: Seq<S>|
            {
                let (v, used) = down_result(stream_value(ws), 52, 1023);
                &&& #[trigger] yields_chain(states, ws)
                &&& states[0] == *old(bits)
                &&& states.last() == *final(bits)
                &&& r == v
                &&& 64 * ws.len() - 64 < used <= 64 * ws.len()
            },
{
    proof {
        lemma2_to64_rest();
    }
    down_bits(bits, F64_MBITS, F64_EBIAS)
}

/// Returns the encoding of a random binary32 distributed as a uniform real
/// in (0, 1) rounded **down** to a representable value: the binary32
/// counterpart of [`f64_down_bits`], with the same contract and the same
/// distribution law over binary32.
pub fn f32_down_bits<S: WordSource>(bits: &mut S) -> (r: u32)
    ensures
        r < ONE_F32_BITS,
        exists|ws: Seq<u64>, states: Seq<S>|
            {
                let (v, used) = down_result(stream_value(ws), 23, 127);
                &&& #[trigger] yields_chain(states, ws)
                &&& states[0] == *old(bits)
                &&& states.last() == *final(bits)
                &&& r == v
                &&& 64 * ws.len() - 64 < used <= 64 * ws.len()
            },
{
    proof {
        lemma2_to64();
    }
    down_bits(bits, F32_MBITS, F32_EBIAS) as u32
}

/// A binary64 draws a single word exactly when the first 52 stream bits
/// are at least 2^40, that is except with probability 2^-12.
pub proof fn lemma_one_word_f64(x: nat)
    ensures
        down_result(x, 52, 1023).1 <= 64 <==> bit_field(x, 0, 52) >= pow2(40),
{
    let a = bit_field(x, 0, 52);
    assert(1023nat / 52 == 19);
    lemma_first_nonzero_window_bounds(x, 52, 0, 19);
    let k = first_nonzero_window(x, 52, 0, 19);
    assert(52 * 0nat == 0);
    if a != 0 {
        lemma_first_nonzero_window(x, 52, 0, 0, 19);
        assert(k == 0);
        let v = a * pow2(1022);
        lemma_ilog2_bounds(a);
        let l = ilog2(a);
        lemma_pow2_adds(l, 1022);
        lemma_pow2_adds(l + 1, 1022);
        lemma_pow2_pos(1022);
        lemma_mul_inequality(pow2(l) as int, a as int, pow2(1022) as int);
        lemma_mul_strict_inequality(a as int, pow2(l + 1) as int, pow2(1022) as int);
        lemma_ilog2_unique(v, l + 1022);
        lemma_pow2_strictly_increases(52, l + 1022);
        assert(round_down_exponent(v, 52) == l + 971);
        lemma_round_down_is_largest_below(v, 52);
        assert(a < pow2(52)) by {
            lemma_pow2_pos(52);
            lemma_mod_bound((x / pow2(0)) as int, pow2(52) as int);
        }
        assert(l < 52) by {
            if l >= 52 {
                if l > 52 {
                    lemma_pow2_strictly_increases(52, l);
                }
            }
        }
        assert(down_result(x, 52, 1023).1 == 104 - l);
        if l >= 40 {
            if l > 40 {
                lemma_pow2_strictly_increases(40, l);
            }
        } else {
            if l + 1 < 40 {
                lemma_pow2_strictly_increases(l + 1, 40);
            }
        }
    } else {
        lemma_pow2_pos(40);
        assert(k != 0);
        if k < 19 {
            assert(52 * (k + 1) >= 104);
        }
        assert(seek_result(x, 52, 1023).2 >= 104);
    }
}

/// The bits of `m * 2^s` below bit `s` are zero.
pub proof fn lemma_bit_field_below_scaled(m: nat, s: nat, start: nat, n: nat)
    requires
        start + n <= s,
    ensures
        bit_field(m * pow2(s), start, n) == 0,
{
    let d = (s - start - n) as nat;
    lemma_pow2_pos(start);
    lemma_pow2_pos(n);
    lemma_pow2_adds(d, n);
    lemma_pow2_adds(d + n, start);
    assert(d + n + start == s);
    lemma_mul_is_associative(m as int, pow2(d + n) as int, pow2(start) as int);
    lemma_div_by_multiple((m * pow2(d + n)) as int, pow2(start) as int);
    lemma_mul_is_associative(m as int, pow2(d) as int, pow2(n) as int);
    lemma_mod_multiples_basic((m * pow2(d)) as int, pow2(n) as int);
}

/// The bits of `m * 2^s` from bit `s` on are those of `m`.
pub proof fn lemma_bit_field_at_scaled(m: nat, s: nat, n: nat)
    ensures
        bit_field(m * pow2(s), s, n) == m % pow2(n),
{
    lemma_pow2_pos(s);
    lemma_div_by_multiple(m as int, pow2(s) as int);
}

/// The formats the generator is stated for: binary64 and binary32.
pub open spec fn is_float_format(mb: nat, bias: nat) -> bool {
    (mb == 52 && bias == 1023) || (mb == 23 && bias == 127)
}

/// The number of stream bits that decide the result `y`: `bias + mb - 1`
/// (the depth of the smallest subnormal) less the binary logarithm of the
/// spacing of the floats at `y`.
pub open spec fn decided_bits(y: nat, mb: nat, bias: nat) -> nat {
    (bias + mb - scale_exponent(y, mb)) as nat
}

/// The stream bits that give the result `y`, as an integer: zero windows,
/// then the top bits of `y`'s significand in its window (or in the bottom
/// window), then its remaining bits as the fill.
pub open spec fn decided_prefix(y: nat, mb: nat, bias: nat) -> nat {
    let s = scale_exponent(y, mb);
    let sig = (y - (s - 1) * pow2(mb)) as nat;
    if s >= bias % mb {
        let k = ((bias - 1 - s) / mb as int) as nat;
        let sh = (bias - mb * k - s) as nat;
        (sig / pow2(sh)) * pow2(mb * k) + (sig % pow2(sh)) * pow2(mb * (k + 1))
    } else {
        let sh = (mb - s) as nat;
        (sig / pow2(sh)) * pow2(mb * (bias / mb)) + (sig % pow2(sh)) * pow2(bias)
    }
}

proof fn lemma_format_facts(mb: nat, bias: nat)
    requires
        is_float_format(mb, bias),
    ensures
        2 <= mb <= 52,
        2 <= bias % mb < mb,
        bias / mb >= 1,
        bias == mb * (bias / mb) + bias % mb,
        bias + mb <= 1075,
{
}

/// The bits of `x` inside its first `t` bits are those of `x mod 2^t`.
proof fn lemma_bit_field_in_prefix(x: nat, t: nat, s: nat, n: nat)
    requires
        s + n <= t,
    ensures
        bit_field(x, s, n) == bit_field(bit_field(x, 0, t), s, n),
{
    let d = (t - s) as nat;
    lemma_pow2_pos(t);
    lemma_pow2_pos(s);
    lemma_pow2_pos(n);
    lemma_pow2_pos(d);
    lemma2_to64();
    assert(x / pow2(0) == x);
    let r = x % pow2(t);
    let q = x / pow2(t);
    lemma_fundamental_div_mod(x as int, pow2(t) as int);
    lemma_mod_bound(x as int, pow2(t) as int);
    lemma_pow2_adds(s, d);
    lemma_fundamental_div_mod(r as int, pow2(s) as int);
    lemma_mod_bound(r as int, pow2(s) as int);
    lemma_pow2_adds(n, (d - n) as nat);
    assert(x == pow2(s) * (q * pow2(d) + r / pow2(s)) + r % pow2(s)) by {
        lemma_mul_is_distributive_add(pow2(s) as int, (q * pow2(d)) as int, (r / pow2(s)) as int);
        lemma_mul_is_associative(pow2(s) as int, q as int, pow2(d) as int);
        lemma_mul_is_commutative(pow2(s) as int, q as int);
        lemma_mul_is_associative(q as int, pow2(s) as int, pow2(d) as int);
        lemma_mul_is_commutative(pow2(t) as int, q as int);
    }
    lemma_mul_is_commutative(pow2(s) as int, (q * pow2(d) + r / pow2(s)) as int);
    lemma_fundamental_div_mod_converse(x as int, pow2(s) as int, (q * pow2(d) + r / pow2(s)) as int, (r % pow2(s)) as int);
    assert(q * pow2(d) == pow2(n) * (q * pow2((d - n) as nat))) by {
        lemma_mul_is_associative(q as int, pow2(n) as int, pow2((d - n) as nat) as int);
        lemma_mul_is_commutative(q as int, pow2(n) as int);
        lemma_mul_is_associative(pow2(n) as int, q as int, pow2((d - n) as nat) as int);
    }
    lemma_mod_multiples_vanish((q * pow2((d - n) as nat)) as int, (r / pow2(s)) as int, pow2(n) as int);
}

/// The bit fields of `(lo + hi * 2^w) * 2^s` with `lo < 2^w`: zeros below
/// bit `s`, `lo` in the `w` bits from `s`, and `hi` above them.
proof fn lemma_fields_of_pair(lo: nat, hi: nat, w: nat, s: nat, n: nat)
    requires
        lo < pow2(w),
    ensures
        bit_field((lo + hi * pow2(w)) * pow2(s), s, w) == lo,
        bit_field((lo + hi * pow2(w)) * pow2(s), s + w, n) == hi % pow2(n),
{
    let m = lo + hi * pow2(w);
    lemma_pow2_pos(w);
    lemma_pow2_pos(s);
    lemma_bit_field_at_scaled(m, s, w);
    lemma_mul_is_commutative(hi as int, pow2(w) as int);
    lemma_mod_multiples_vanish(hi as int, lo as int, pow2(w) as int);
    lemma_small_mod(lo, pow2(w));
    lemma_bit_field_shift(m * pow2(s), s, w, n);
    lemma_div_by_multiple(m as int, pow2(s) as int);
    lemma_div_multiples_vanish_fancy(hi as int, lo as int, pow2(w) as int);
}

/// A float `y` as its spacing exponent `s` and its significand `sig`
/// (with the implicit bit where `y` is normal): `y == (s - 1) 2^mb + sig`.
proof fn lemma_significand(y: nat, mb: nat)
    ensures
        scale_exponent(y, mb) >= 1,
        y == (scale_exponent(y, mb) - 1) * pow2(mb) + (y - (scale_exponent(y, mb) - 1) * pow2(mb)),
        y / pow2(mb) >= 1 ==> {
            &&& scale_exponent(y, mb) == y / pow2(mb)
            &&& pow2(mb) <= y - (scale_exponent(y, mb) - 1) * pow2(mb) < 2 * pow2(mb)
        },
        y / pow2(mb) == 0 ==> scale_exponent(y, mb) == 1 && y < pow2(mb),
{
    lemma_pow2_pos(mb);
    lemma_fundamental_div_mod(y as int, pow2(mb) as int);
    lemma_mod_bound(y as int, pow2(mb) as int);
    let e = y / pow2(mb);
    if e >= 1 {
        lemma_mul_is_distributive_sub(pow2(mb) as int, e as int, 1);
        lemma_mul_is_commutative(pow2(mb) as int, (e - 1) as int);
    } else {
        lemma_mul_basics(pow2(mb) as int);
    }
}

/// `a * 2^t` lies in `[2^mb, 2^(mb+1))` for exactly one `t` when `a` lies
/// in `[2^l, 2^(l+1))`: `t == mb - l`.
proof fn lemma_normalizing_shift(a: nat, l: nat, t: nat, mb: nat)
    requires
        pow2(l) <= a < pow2(l + 1),
        pow2(mb) <= a * pow2(t) < 2 * pow2(mb),
    ensures
        l + t == mb,
{
    lemma_pow2_pos(t);
    lemma_pow2_adds(l, t);
    lemma_pow2_adds(l + 1, t);
    lemma_pow2_unfold(mb + 1);
    lemma_mul_inequality(pow2(l) as int, a as int, pow2(t) as int);
    lemma_mul_strict_inequality(a as int, pow2(l + 1) as int, pow2(t) as int);
    if l + t < mb {
        if l + t + 1 < mb {
            lemma_pow2_strictly_increases(l + t + 1, mb);
        }
    } else if l + t > mb {
        if l + t > mb + 1 {
            lemma_pow2_strictly_increases(mb + 1, l + t);
        }
    }
}

/// `a * 2^sh + f` splits `sig` at bit `sh`, with `a` in `[2^l, 2^(l+1))`
/// where `sig` lies in `[2^(l+sh), 2^(l+sh+1))`.
proof fn lemma_split_significand(sig: nat, l: nat, sh: nat)
    requires
        pow2(l + sh) <= sig < pow2(l + sh + 1),
    ensures
        sig == (sig / pow2(sh)) * pow2(sh) + sig % pow2(sh),
        sig % pow2(sh) < pow2(sh),
        pow2(l) <= sig / pow2(sh) < pow2(l + 1),
{
    lemma_pow2_pos(sh);
    lemma_pow2_adds(l, sh);
    lemma_pow2_adds(l + 1, sh);
    lemma_fundamental_div_mod(sig as int, pow2(sh) as int);
    lemma_mod_bound(sig as int, pow2(sh) as int);
    lemma_mul_is_commutative(pow2(sh) as int, (sig / pow2(sh)) as int);
    let a = sig / pow2(sh);
    if a < pow2(l) {
        lemma_mul_inequality(a as int + 1, pow2(l) as int, pow2(sh) as int);
        lemma_mul_is_distributive_add_other_way(pow2(sh) as int, a as int, 1);
    }
    if a >= pow2(l + 1) {
        lemma_mul_inequality(pow2(l + 1) as int, a as int, pow2(sh) as int);
    }
}

/// `lo` in `w` bits and `hi` in `n` bits above it, shifted up by `base`,
/// fit in `base + w + n` bits.
proof fn lemma_pair_bound(lo: nat, hi: nat, w: nat, n: nat, base: nat)
    requires
        lo < pow2(w),
        hi < pow2(n),
    ensures
        (lo + hi * pow2(w)) * pow2(base) < pow2(base + w + n),
{
    lemma_pow2_pos(w);
    lemma_pow2_pos(base);
    lemma_pow2_adds(w, n);
    lemma_pow2_adds(base, w + n);
    lemma_mul_inequality(hi as int, pow2(n) - 1, pow2(w) as int);
    lemma_mul_is_distributive_sub_other_way(pow2(w) as int, pow2(n) as int, 1);
    lemma_mul_is_commutative(pow2(w) as int, pow2(n) as int);
    lemma_mul_strict_inequality((lo + hi * pow2(w)) as int, pow2(w + n) as int, pow2(base) as int);
    lemma_mul_is_commutative(pow2(base) as int, pow2(w + n) as int);
    assert(base + (w + n) == base + w + n);
}

/// A stream whose first bits are the decided prefix of a result `y` in a
/// full window gives `y`.
proof fn lemma_result_of_prefix_window(x: nat, y: nat, mb: nat, bias: nat)
    requires
        is_float_format(mb, bias),
        y < bias * pow2(mb),
        scale_exponent(y, mb) >= bias % mb,
        bit_field(x, 0, decided_bits(y, mb, bias)) == decided_prefix(y, mb, bias) % pow2(
            decided_bits(y, mb, bias),
        ),
    ensures
        down_result(x, mb, bias).0 == y,
        decided_prefix(y, mb, bias) < pow2(decided_bits(y, mb, bias)),
{
    lemma_format_facts(mb, bias);
    lemma_significand(y, mb);
    let pm = pow2(mb);
    lemma_pow2_pos(mb);
    let s = scale_exponent(y, mb);
    let sig = (y - (s - 1) * pm) as nat;
    let count = bias / mb;
    let bb = bias % mb;
    assert(y / pm >= 1);
    assert(s <= bias - 1) by {
        if s >= bias {
            lemma_mul_inequality(bias as int, s as int, pm as int);
            lemma_fundamental_div_mod(y as int, pm as int);
            lemma_mul_is_commutative(pm as int, s as int);
        }
    }
    let q = (bias - 1 - s) as nat;
    let k = q / mb;
    let rem = q % mb;
    lemma_fundamental_div_mod(q as int, mb as int);
    lemma_mod_bound(q as int, mb as int);
    let e = (bias - mb * k) as nat;
    let sh = (e - s) as nat;
    assert(sh == rem + 1);
    assert(k < count) by {
        if k >= count {
            lemma_mul_inequality(count as int, k as int, mb as int);
            lemma_mul_is_commutative(mb as int, k as int);
            lemma_mul_is_commutative(mb as int, count as int);
        }
    }
    let l = (mb - sh) as nat;
    assert(l + sh == mb);
    lemma_pow2_unfold(mb + 1);
    lemma_split_significand(sig, l, sh);
    let a = sig / pow2(sh);
    let f = sig % pow2(sh);
    assert(a < pm) by {
        if l + 1 < mb {
            lemma_pow2_strictly_increases(l + 1, mb);
        }
    }
    // the decided prefix is (a + f 2^mb) 2^(mb k)
    let t = decided_bits(y, mb, bias);
    let pp = decided_prefix(y, mb, bias);
    assert(t == mb * k + mb + sh);
    lemma_pow2_adds(mb * k, mb);
    assert(mb * (k + 1) == mb * k + mb) by {
        lemma_mul_is_distributive_add(mb as int, k as int, 1);
    }
    assert(pp == a * pow2(mb * k) + f * pow2(mb * (k + 1)));
    assert(pp == (a + f * pm) * pow2(mb * k)) by {
        lemma_mul_is_distributive_add_other_way(pow2(mb * k) as int, a as int, (f * pm) as int);
        lemma_mul_is_associative(f as int, pm as int, pow2(mb * k) as int);
        lemma_mul_is_commutative(pm as int, pow2(mb * k) as int);
        assert(pow2(mb * (k + 1)) == pow2(mb * k) * pm);
        let big = pow2(mb * k);
        assert(f * (big * pm) == (f * pm) * big) by (nonlinear_arith);
        assert(f * pow2(mb * (k + 1)) == (f * pm) * pow2(mb * k));
    }
    lemma_pow2_pos(sh);
    lemma_pair_bound(a, f, mb, sh, mb * k);
    lemma_small_mod(pp, pow2(t));
    // the windows and the fill of x
    assert forall|j: nat| 0 <= j < k implies #[trigger] bit_field(x, mb * j, mb) == 0 by {
        lemma_mul_inequality(j as int + 1, k as int, mb as int);
        lemma_mul_is_distributive_add(mb as int, j as int, 1);
        lemma_mul_is_commutative(mb as int, j as int + 1);
        lemma_mul_is_commutative(mb as int, k as int);
        lemma_bit_field_in_prefix(x, t, mb * j, mb);
        lemma_bit_field_below_scaled(a + f * pm, mb * k, mb * j, mb);
    }
    lemma_bit_field_in_prefix(x, t, mb * k, mb);
    lemma_bit_field_in_prefix(x, t, mb * k + mb, sh);
    lemma_fields_of_pair(a, f, mb, mb * k, sh);
    lemma_pow2_pos(sh);
    lemma_small_mod(f, pow2(sh));
    assert(bit_field(x, mb * k, mb) == a);
    assert(bit_field(x, mb * (k + 1), sh) == f);
    assert(a != 0) by {
        lemma_pow2_pos(l);
    }
    lemma_first_nonzero_window(x, mb, 0, k, count);
    // the partial result
    let v = a * pow2((e - 1) as nat);
    lemma_pow2_pos((e - 1) as nat);
    lemma_pow2_adds(l, (e - 1) as nat);
    lemma_mul_inequality(pow2(l) as int, a as int, pow2((e - 1) as nat) as int);
    lemma_pow2_pos((l + (e - 1)) as nat);
    assert(v >= pow2((l + (e - 1)) as nat));
    lemma_ilog2_bounds(v);
    assert(l + (e - 1) >= mb);
    assert(round_down_exponent(v, mb) >= 1) by {
        if ilog2(v) < mb {
            if ilog2(v) + 1 < l + (e - 1) {
                lemma_pow2_strictly_increases(ilog2(v) + 1, (l + (e - 1)) as nat);
            }
        }
        if l + (e - 1) > mb {
            lemma_pow2_strictly_increases(mb, (l + (e - 1)) as nat);
        }
    }
    lemma_round_down_normal_fields(a, e, mb);
    let ex = round_down_exponent(v, mb);
    lemma_normalizing_shift(a, l, (e - ex) as nat, mb);
    assert(ex == s);
    let p = round_down_bits(v, mb);
    assert(p == s * pm + (a * pow2(sh) - pm) as nat);
    lemma_fundamental_div_mod_converse(p as int, pm as int, s as int, (a * pow2(sh) - pm) as int);
    lemma_mul_is_commutative(s as int, pm as int);
    assert(scale_exponent(p, mb) == s);
    assert(seek_result(x, mb, bias) == (p, sh, mb * (k + 1)));
    lemma_mul_is_distributive_sub(pm as int, s as int, 1);
    lemma_mul_is_commutative(pm as int, s as int);
    lemma_mul_is_commutative(pm as int, (s - 1) as int);
}

/// A stream whose first bits are the decided prefix of a result `y` below
/// the full windows gives `y`.
proof fn lemma_result_of_prefix_bottom(x: nat, y: nat, mb: nat, bias: nat)
    requires
        is_float_format(mb, bias),
        y < bias * pow2(mb),
        scale_exponent(y, mb) < bias % mb,
        bit_field(x, 0, decided_bits(y, mb, bias)) == decided_prefix(y, mb, bias) % pow2(
            decided_bits(y, mb, bias),
        ),
    ensures
        down_result(x, mb, bias).0 == y,
        decided_prefix(y, mb, bias) < pow2(decided_bits(y, mb, bias)),
{
    lemma_format_facts(mb, bias);
    lemma_significand(y, mb);
    let pm = pow2(mb);
    lemma_pow2_pos(mb);
    let s = scale_exponent(y, mb);
    let sig = (y - (s - 1) * pm) as nat;
    let count = bias / mb;
    let bb = bias % mb;
    let sh = (mb - s) as nat;
    lemma_pow2_pos(sh);
    lemma_pow2_pos(bb);
    lemma_pow2_unfold(mb + 1);
    let r = sig / pow2(sh);
    let f = sig % pow2(sh);
    lemma_fundamental_div_mod(sig as int, pow2(sh) as int);
    lemma_mod_bound(sig as int, pow2(sh) as int);
    lemma_mul_is_commutative(pow2(sh) as int, r as int);
    // r < 2^(s + 1) <= 2^bb
    lemma_pow2_adds(s + 1, sh);
    assert(s + 1 + sh == mb + 1);
    assert(sig < pow2(mb + 1)) by {
        if y / pm == 0 {
            lemma_mul_basics(pm as int);
        }
    }
    assert(r < pow2(s + 1)) by {
        if r >= pow2(s + 1) {
            lemma_mul_inequality(pow2(s + 1) as int, r as int, pow2(sh) as int);
        }
    }
    assert(r < pow2(bb)) by {
        if s + 1 < bb {
            lemma_pow2_strictly_increases(s + 1, bb);
        }
    }
    // the decided prefix is (r + f 2^bb) 2^(mb count)
    let t = decided_bits(y, mb, bias);
    let pp = decided_prefix(y, mb, bias);
    assert(t == bias + sh);
    assert(pp == r * pow2(mb * count) + f * pow2(bias));
    lemma_pow2_adds(mb * count, bb);
    assert(pp == (r + f * pow2(bb)) * pow2(mb * count)) by {
        let big = pow2(mb * count);
        lemma_mul_is_distributive_add_other_way(big as int, r as int, (f * pow2(bb)) as int);
        assert(f * (big * pow2(bb)) == (f * pow2(bb)) * big) by (nonlinear_arith);
    }
    lemma_pair_bound(r, f, bb, sh, mb * count);
    lemma_small_mod(pp, pow2(t));
    // the windows, the bottom bits and the fill of x
    assert forall|j: nat| 0 <= j < count implies #[trigger] bit_field(x, mb * j, mb) == 0 by {
        lemma_mul_inequality(j as int + 1, count as int, mb as int);
        lemma_mul_is_distributive_add(mb as int, j as int, 1);
        lemma_mul_is_commutative(mb as int, j as int + 1);
        lemma_mul_is_commutative(mb as int, count as int);
        lemma_bit_field_in_prefix(x, t, mb * j, mb);
        lemma_bit_field_below_scaled(r + f * pow2(bb), mb * count, mb * j, mb);
    }
    lemma_first_nonzero_window(x, mb, 0, count, count);
    lemma_bit_field_in_prefix(x, t, mb * count, bb);
    lemma_bit_field_in_prefix(x, t, mb * count + bb, sh);
    lemma_fields_of_pair(r, f, bb, mb * count, sh);
    lemma_small_mod(f, pow2(sh));
    assert(bit_field(x, mb * count, bb) == r);
    assert(bit_field(x, bias, sh) == f);
    // the partial result
    let mant = r * pow2((mb - bb) as nat);
    let v = mant * pow2((bb - 1) as nat);
    lemma_pow2_adds((mb - bb) as nat, (bb - 1) as nat);
    assert(v == r * pow2((mb - 1) as nat)) by {
        lemma_mul_is_associative(r as int, pow2((mb - bb) as nat) as int, pow2((bb - 1) as nat) as int);
    }
    lemma_pow2_adds(bb, (mb - bb) as nat);
    lemma_pow2_pos((mb - bb) as nat);
    assert(mant < pm) by {
        lemma_mul_strict_inequality(r as int, pow2(bb) as int, pow2((mb - bb) as nat) as int);
    }
    lemma_pow2_unfold(mb);
    assert(sh >= 1);
    if y / pm >= 1 {
        // a normal result: r has its top bit at s
        lemma_split_significand(sig, s, sh);
        let p = round_down_bits(v, mb);
        lemma_pow2_pos(s);
        assert(mant >= 1) by {
            lemma_mul_basics(pow2((mb - bb) as nat) as int);
            lemma_mul_inequality(1, r as int, pow2((mb - bb) as nat) as int);
        }
        let sm = (s + (mb - 1)) as nat;
        lemma_pow2_adds(s, (mb - 1) as nat);
        lemma_mul_inequality(pow2(s) as int, r as int, pow2((mb - 1) as nat) as int);
        lemma_pow2_pos(sm);
        lemma_ilog2_bounds(v);
        assert(round_down_exponent(v, mb) >= 1) by {
            assert(v >= pow2(sm));
            if sm > mb {
                lemma_pow2_strictly_increases(mb, sm);
            }
            if ilog2(v) < mb {
                if ilog2(v) + 1 < sm {
                    lemma_pow2_strictly_increases(ilog2(v) + 1, sm);
                }
            }
        }
        lemma_round_down_normal_fields(mant, bb, mb);
        let ex = round_down_exponent(v, mb);
        let tt = (bb - ex) as nat;
        lemma_pow2_adds((mb - bb) as nat, tt);
        assert(mant * pow2(tt) == r * pow2((mb - bb + tt) as nat)) by {
            lemma_mul_is_associative(r as int, pow2((mb - bb) as nat) as int, pow2(tt) as int);
        }
        lemma_normalizing_shift(r, s, (mb - bb + tt) as nat, mb);
        assert(ex == s);
        assert(p == s * pm + (r * pow2(sh) - pm) as nat);
        lemma_fundamental_div_mod_converse(p as int, pm as int, s as int, (r * pow2(sh) - pm) as int);
        lemma_mul_is_commutative(s as int, pm as int);
        assert(scale_exponent(p, mb) == s);
        assert(seek_result(x, mb, bias) == (p, sh, bias));
        lemma_mul_is_distributive_sub(pm as int, s as int, 1);
        lemma_mul_is_commutative(pm as int, s as int);
        lemma_mul_is_commutative(pm as int, (s - 1) as int);
    } else {
        // a subnormal result: r is 0 or 1
        lemma_mul_basics(pm as int);
        assert(s == 1 && sig == y);
        assert(sh == mb - 1);
        assert(r < 2) by {
            if r >= 2 {
                lemma_mul_inequality(2, r as int, pow2(sh) as int);
            }
        }
        if r == 0 {
            lemma_mul_basics(pow2((mb - 1) as nat) as int);
            assert(v == 0);
            assert(round_down_bits(0, mb) == 0);
            lemma_basic_div(0, pm as int);
            assert(seek_result(x, mb, bias) == (0nat, sh, bias));
        } else {
            lemma_mul_basics(pow2((mb - 1) as nat) as int);
            assert(v == pow2(sh));
            lemma_pow2_strictly_increases(sh, mb);
            assert(round_down_exponent(v, mb) == 0);
            assert(round_down_bits(v, mb) == pow2(sh));
            lemma_basic_div(pow2(sh) as int, pm as int);
            assert(seek_result(x, mb, bias) == (pow2(sh), sh, bias));
        }
    }
}

/// Where the stream's first bits are the decided prefix of `y`, the
/// result is `y`.
proof fn lemma_result_of_prefix(x: nat, y: nat, mb: nat, bias: nat)
    requires
        is_float_format(mb, bias),
        y < bias * pow2(mb),
        bit_field(x, 0, decided_bits(y, mb, bias)) == decided_prefix(y, mb, bias) % pow2(
            decided_bits(y, mb, bias),
        ),
    ensures
        down_result(x, mb, bias).0 == y,
        decided_prefix(y, mb, bias) < pow2(decided_bits(y, mb, bias)),
{
    if scale_exponent(y, mb) >= bias % mb {
        lemma_result_of_prefix_window(x, y, mb, bias);
    } else {
        lemma_result_of_prefix_bottom(x, y, mb, bias);
    }
}


/// Where the first `k` windows are zero, so are the first `mb k` bits.
proof fn lemma_zero_windows_prefix(x: nat, mb: nat, k: nat)
    requires
        forall|j: nat| j < k ==> #[trigger] bit_field(x, mb * j, mb) == 0,
    ensures
        bit_field(x, 0, mb * k) == 0,
    decreases k,
{
    if k == 0 {
        lemma2_to64();
        assert(mb * 0nat == 0);
        assert(x % 1 == 0);
    } else {
        let j = (k - 1) as nat;
        assert(bit_field(x, mb * j, mb) == 0);
        lemma_zero_windows_prefix(x, mb, j);
        lemma_bit_fields_concatenate(x, 0, mb * j, mb);
        lemma_mul_is_distributive_add(mb as int, j as int, 1);
        lemma_mul_basics(pow2(mb * j) as int);
    }
}

/// The first `base + w + n` bits of a stream whose first `base` bits are
/// zero, followed by `lo` in `w` bits and `hi` in `n` bits.
proof fn lemma_prefix_layout(x: nat, base: nat, w: nat, n: nat, lo: nat, hi: nat)
    requires
        bit_field(x, 0, base) == 0,
        bit_field(x, base, w) == lo,
        bit_field(x, base + w, n) == hi,
    ensures
        bit_field(x, 0, base + w + n) == lo * pow2(base) + hi * pow2(base + w),
{
    lemma_bit_fields_concatenate(x, 0, base, w + n);
    lemma_bit_fields_concatenate(x, base, w, n);
    lemma_pow2_adds(w, base);
    lemma_mul_is_distributive_add_other_way(pow2(base) as int, lo as int, (hi * pow2(w)) as int);
    lemma_mul_is_associative(hi as int, pow2(w) as int, pow2(base) as int);
    assert(base + (w + n) == base + w + n);
}

/// A normal partial result `s 2^mb + (mant 2^sh - 2^mb)` with its `sh`
/// vacant bits zero, filled with `f < 2^sh`: the sum stays in binade `s`,
/// and its significand splits at bit `sh` into `mant` and `f`.
proof fn lemma_normal_result(mant: nat, sh: nat, s: nat, f: nat, mb: nat)
    requires
        pow2(mb) <= mant * pow2(sh) < 2 * pow2(mb),
        sh <= mb,
        s >= 1,
        f < pow2(sh),
    ensures
        ({
            let p = (s * pow2(mb) + (mant * pow2(sh) - pow2(mb))) as nat;
            let y = p + f;
            &&& p % pow2(sh) == 0
            &&& scale_exponent(y, mb) == s
            &&& y < (s + 1) * pow2(mb)
            &&& (y - (s - 1) * pow2(mb)) as nat / pow2(sh) == mant
            &&& (y - (s - 1) * pow2(mb)) as nat % pow2(sh) == f
        }),
{
    let pm = pow2(mb);
    let ps = pow2(sh);
    let d = (mb - sh) as nat;
    lemma_pow2_pos(mb);
    lemma_pow2_pos(sh);
    lemma_pow2_pos(d);
    lemma_pow2_adds(d, sh);
    lemma_pow2_unfold(mb + 1);
    lemma_pow2_adds(d + 1, sh);
    let big = mant * ps;
    // mant < 2^(d + 1), so big + f < 2^(mb + 1)
    assert(mant < pow2(d + 1)) by {
        if mant >= pow2(d + 1) {
            lemma_mul_inequality(pow2(d + 1) as int, mant as int, ps as int);
        }
    }
    assert(big + f < 2 * pm) by {
        lemma_mul_inequality(mant as int + 1, pow2(d + 1) as int, ps as int);
        lemma_mul_is_distributive_add_other_way(ps as int, mant as int, 1);
    }
    let p = (s * pm + (big - pm)) as nat;
    let y = p + f;
    let m = (big + f - pm) as nat;
    assert(y == s * pm + m);
    lemma_mul_is_commutative(s as int, pm as int);
    lemma_fundamental_div_mod_converse(y as int, pm as int, s as int, m as int);
    assert(scale_exponent(y, mb) == s);
    assert(y < (s + 1) * pm) by {
        lemma_mul_is_distributive_add_other_way(pm as int, s as int, 1);
    }
    // y - (s - 1) 2^mb == big + f
    assert(y - (s - 1) * pm == big + f) by {
        lemma_mul_is_distributive_sub_other_way(pm as int, s as int, 1);
    }
    lemma_mul_is_commutative(mant as int, ps as int);
    lemma_fundamental_div_mod_converse((big + f) as int, ps as int, mant as int, f as int);
    // p == ((s - 1) 2^d + mant) 2^sh
    assert(p == ((s - 1) * pow2(d) + mant) * ps) by {
        lemma_mul_is_distributive_add_other_way(ps as int, ((s - 1) * pow2(d)) as int, mant as int);
        lemma_mul_is_associative((s - 1) as int, pow2(d) as int, ps as int);
        lemma_mul_is_distributive_sub_other_way(pm as int, s as int, 1);
    }
    lemma_mod_multiples_basic(((s - 1) * pow2(d) + mant) as int, ps as int);
}

/// The seek stage leaves its partial result's vacant bits zero, the
/// result lies below 1.0, and the stream's first bits are the decided
/// prefix of the result it gives.
proof fn lemma_prefix_of_result(x: nat, mb: nat, bias: nat)
    requires
        is_float_format(mb, bias),
    ensures
        seek_result(x, mb, bias).0 % pow2(seek_result(x, mb, bias).1) == 0,
        down_result(x, mb, bias).0 < bias * pow2(mb),
        bit_field(x, 0, decided_bits(down_result(x, mb, bias).0, mb, bias)) == decided_prefix(
            down_result(x, mb, bias).0,
            mb,
            bias,
        ),
        down_result(x, mb, bias).1 == decided_bits(down_result(x, mb, bias).0, mb, bias),
{
    lemma_format_facts(mb, bias);
    let pm = pow2(mb);
    lemma_pow2_pos(mb);
    let count = bias / mb;
    let bb = bias % mb;
    lemma_first_nonzero_window_bounds(x, mb, 0, count);
    let k = first_nonzero_window(x, mb, 0, count);
    assert forall|j: nat| j < k implies #[trigger] bit_field(x, mb * j, mb) == 0 by {
        lemma_first_nonzero_window_skips(x, mb, 0, count, j);
    }
    lemma_zero_windows_prefix(x, mb, k);
    let (p, nb, c) = seek_result(x, mb, bias);
    let y = down_result(x, mb, bias).0;
    if k < count {
        let e = (bias - mb * k) as nat;
        let a = bit_field(x, mb * k, mb);
        lemma_mod_bound((x / pow2(mb * k)) as int, pm as int);
        assert(mb * k + mb <= mb * count) by {
            lemma_mul_inequality(k as int + 1, count as int, mb as int);
            lemma_mul_is_distributive_add(mb as int, k as int, 1);
            lemma_mul_is_commutative(mb as int, k as int + 1);
            lemma_mul_is_commutative(mb as int, count as int);
        }
        assert(e >= mb + bb);
        let v = a * pow2((e - 1) as nat);
        lemma_pow2_pos((e - 1) as nat);
        lemma_mul_basics(pow2((e - 1) as nat) as int);
        lemma_mul_inequality(1, a as int, pow2((e - 1) as nat) as int);
        lemma_pow2_strictly_increases(mb, (e - 1) as nat);
        lemma_ilog2_bounds(v);
        assert(round_down_exponent(v, mb) >= 1) by {
            if ilog2(v) < mb {
                if ilog2(v) + 1 < mb {
                    lemma_pow2_strictly_increases(ilog2(v) + 1, mb);
                }
            }
        }
        lemma_round_down_normal_fields(a, e, mb);
        let ex = round_down_exponent(v, mb);
        let sh = (e - ex) as nat;
        let big = a * pow2(sh);
        assert(p == ex * pm + (big - pm) as nat);
        lemma_mul_is_commutative(ex as int, pm as int);
        lemma_fundamental_div_mod_converse(p as int, pm as int, ex as int, (big - pm) as int);
        assert(scale_exponent(p, mb) == ex);
        assert(nb == sh);
        assert(c == mb * (k + 1)) by {
            lemma_mul_is_distributive_add(mb as int, k as int, 1);
        }
        let f = bit_field(x, c, sh);
        lemma_pow2_pos(sh);
        lemma_mod_bound((x / pow2(c)) as int, pow2(sh) as int);
        lemma_normal_result(a, sh, ex, f, mb);
        assert(y == p + f);
        // y is decided in window k
        let q = (bias - 1 - ex) as nat;
        assert(q == mb * k + (sh - 1));
        lemma_mul_is_commutative(k as int, mb as int);
        lemma_fundamental_div_mod_converse(q as int, mb as int, k as int, (sh - 1) as int);
        assert(decided_prefix(y, mb, bias) == a * pow2(mb * k) + f * pow2(mb * (k + 1)));
        assert(decided_bits(y, mb, bias) == mb * k + mb + sh);
        lemma_prefix_layout(x, mb * k, mb, sh, a, f);
        assert(y < bias * pm) by {
            lemma_mul_inequality(ex as int + 1, bias as int, pm as int);
        }
    } else {
        let r = bit_field(x, mb * count, bb);
        lemma_pow2_pos(bb);
        lemma_mod_bound((x / pow2(mb * count)) as int, pow2(bb) as int);
        let mant = r * pow2((mb - bb) as nat);
        let v = mant * pow2((bb - 1) as nat);
        lemma_pow2_adds((mb - bb) as nat, (bb - 1) as nat);
        assert(v == r * pow2((mb - 1) as nat)) by {
            lemma_mul_is_associative(r as int, pow2((mb - bb) as nat) as int, pow2((bb - 1) as nat) as int);
        }
        assert(c == bias);
        lemma_pow2_unfold(mb);
        lemma_pow2_pos((mb - 1) as nat);
        assert(bias + mb - 1 == mb * count + bb + (mb - 1));
        if r < 2 {
            // a subnormal partial result: 0 or 2^(mb - 1)
            lemma_mul_basics(pow2((mb - 1) as nat) as int);
            assert(v == r * pow2((mb - 1) as nat));
            assert(v < pm);
            assert(p == v);
            lemma_basic_div(v as int, pm as int);
            assert(scale_exponent(p, mb) == 1);
            assert(nb == mb - 1);
            let f = bit_field(x, bias, (mb - 1) as nat);
            lemma_mod_bound((x / pow2(bias)) as int, pow2((mb - 1) as nat) as int);
            assert(y == v + f);
            assert(y < pm);
            lemma_basic_div(y as int, pm as int);
            assert(scale_exponent(y, mb) == 1);
            assert(y - (1 - 1) * pm == y);
            lemma_mul_is_commutative(r as int, pow2((mb - 1) as nat) as int);
            lemma_fundamental_div_mod_converse(y as int, pow2((mb - 1) as nat) as int, r as int, f as int);
            assert(decided_prefix(y, mb, bias) == r * pow2(mb * count) + f * pow2(bias));
            assert(decided_bits(y, mb, bias) == mb * count + bb + (mb - 1));
            lemma_prefix_layout(x, mb * count, bb, (mb - 1) as nat, r, f);
            if r == 0 {
                lemma_small_mod(0, pow2(nb));
            } else {
                lemma_mod_self_0(pow2(nb) as int);
            }
            lemma_mul_inequality(1, bias as int, pm as int);
        } else {
            // a normal partial result in binade ilog2(r)
            lemma_ilog2_bounds(r);
            let l = ilog2(r);
            assert(l >= 1) by {
                if l == 0 {
                    lemma2_to64();
                }
            }
            assert(l < bb) by {
                if l >= bb {
                    if l > bb {
                        lemma_pow2_strictly_increases(bb, l);
                    }
                }
            }
            lemma_pow2_pos((mb - bb) as nat);
            lemma_pow2_adds(bb, (mb - bb) as nat);
            assert(1 <= mant < pm) by {
                lemma_mul_strict_inequality(r as int, pow2(bb) as int, pow2((mb - bb) as nat) as int);
                lemma_mul_basics(pow2((mb - bb) as nat) as int);
                lemma_mul_inequality(1, r as int, pow2((mb - bb) as nat) as int);
            }
            let sm = (l + (mb - 1)) as nat;
            lemma_pow2_adds(l, (mb - 1) as nat);
            lemma_mul_inequality(pow2(l) as int, r as int, pow2((mb - 1) as nat) as int);
            lemma_pow2_pos(sm);
            lemma_ilog2_bounds(v);
            assert(round_down_exponent(v, mb) >= 1) by {
                if sm > mb {
                    lemma_pow2_strictly_increases(mb, sm);
                }
                if ilog2(v) < mb {
                    if ilog2(v) + 1 < sm {
                        lemma_pow2_strictly_increases(ilog2(v) + 1, sm);
                    }
                }
            }
            lemma_round_down_normal_fields(mant, bb, mb);
            let ex = round_down_exponent(v, mb);
            let tt = (bb - ex) as nat;
            lemma_pow2_adds((mb - bb) as nat, tt);
            assert(mant * pow2(tt) == r * pow2((mb - bb + tt) as nat)) by {
                lemma_mul_is_associative(r as int, pow2((mb - bb) as nat) as int, pow2(tt) as int);
            }
            lemma_normalizing_shift(r, l, (mb - bb + tt) as nat, mb);
            assert(ex == l);
            let sh = (mb - l) as nat;
            assert((mb - bb + tt) as nat == sh);
            let big = r * pow2(sh);
            assert(p == ex * pm + (big - pm) as nat);
            lemma_mul_is_commutative(ex as int, pm as int);
            lemma_fundamental_div_mod_converse(p as int, pm as int, ex as int, (big - pm) as int);
            assert(scale_exponent(p, mb) == ex);
            assert(nb == sh);
            let f = bit_field(x, bias, sh);
            lemma_pow2_pos(sh);
            lemma_mod_bound((x / pow2(bias)) as int, pow2(sh) as int);
            lemma_normal_result(r, sh, l, f, mb);
            assert(y == p + f);
            assert(decided_prefix(y, mb, bias) == r * pow2(mb * count) + f * pow2(bias));
            assert(decided_bits(y, mb, bias) == mb * count + bb + sh);
            lemma_prefix_layout(x, mb * count, bb, sh, r, f);
            assert(y < bias * pm) by {
                lemma_mul_inequality(l as int + 1, bias as int, pm as int);
            }
        }
    }
}

/// The generator rounds a uniform real down. The streams that give the
/// float `y` (any encoding below 1.0) are exactly those whose first
/// `decided_bits(y)` bits spell `decided_prefix(y)`, so a stream of
/// uniform random bits gives `y` with probability `2^-decided_bits(y)`.
/// That probability is `y`'s spacing `float_ulp(y)` over the
/// `2^(bias + mb - 1)` units of the unit interval: the length of
/// `[y, y + ulp(y))`, the chance that a uniform real in (0, 1), rounded
/// down, lands on `y`.
pub proof fn lemma_down_result_distribution(y: nat, mb: nat, bias: nat)
    requires
        is_float_format(mb, bias),
        y < bias * pow2(mb),
    ensures
        forall|x: nat|
            #[trigger] down_result(x, mb, bias).0 == y <==> bit_field(x, 0, decided_bits(y, mb, bias))
                == decided_prefix(y, mb, bias),
        decided_prefix(y, mb, bias) < pow2(decided_bits(y, mb, bias)),
        pow2(decided_bits(y, mb, bias)) * float_ulp(y, mb) == pow2((bias + mb - 1) as nat),
{
    let t = decided_bits(y, mb, bias);
    let pp = decided_prefix(y, mb, bias);
    lemma2_to64();
    assert(pp / pow2(0) == pp);
    lemma_result_of_prefix(pp, y, mb, bias);
    lemma_small_mod(pp, pow2(t));
    assert forall|x: nat| #[trigger] down_result(x, mb, bias).0 == y <==> bit_field(x, 0, t) == pp by {
        if down_result(x, mb, bias).0 == y {
            lemma_prefix_of_result(x, mb, bias);
        }
        if bit_field(x, 0, t) == pp {
            lemma_result_of_prefix(x, y, mb, bias);
        }
    }
    // the mass of y
    lemma_significand(y, mb);
    let s = scale_exponent(y, mb);
    lemma_pow2_pos(mb);
    lemma_scale_below_bias(y, mb, bias);
    assert(float_ulp(y, mb) == pow2((s - 1) as nat));
    lemma_pow2_adds(t, (s - 1) as nat);
}

/// The seek stage's partial result has its vacant trailing bits zero, so
/// backfilling them never carries: the result agrees with the partial
/// result above those bits. The result lies below 1.0.
pub proof fn lemma_vacant_bits_zero(x: nat, mb: nat, bias: nat)
    requires
        is_float_format(mb, bias),
    ensures
        seek_result(x, mb, bias).0 % pow2(seek_result(x, mb, bias).1) == 0,
        down_result(x, mb, bias).0 / pow2(seek_result(x, mb, bias).1) == seek_result(x, mb, bias).0
            / pow2(seek_result(x, mb, bias).1),
        down_result(x, mb, bias).0 < bias * pow2(mb),
{
    lemma_prefix_of_result(x, mb, bias);
    let (p, nb, c) = seek_result(x, mb, bias);
    let f = bit_field(x, c, nb);
    lemma_pow2_pos(nb);
    lemma_mod_bound((x / pow2(c)) as int, pow2(nb) as int);
    lemma_fundamental_div_mod(p as int, pow2(nb) as int);
    lemma_mul_is_commutative(pow2(nb) as int, (p / pow2(nb)) as int);
    lemma_fundamental_div_mod_converse((p + f) as int, pow2(nb) as int, (p / pow2(nb)) as int, f as int);
}

/// The streams of `n` bits that give the float `y`.
pub open spec fn streams_giving(y: nat, mb: nat, bias: nat, n: nat) -> Set<int> {
    Set::new(|x: int| 0 <= x < pow2(n) && down_result(x as nat, mb, bias).0 == y)
}

/// Counted over the `2^n` streams of `n >= bias + mb - 1` bits, the float
/// `y` below 1.0 is given by `float_ulp(y) * 2^(n - (bias + mb - 1))` of
/// them: its spacing, in units of the smallest subnormal, times the
/// streams per unit. Each float's share of the streams is its spacing
/// over the unit interval, as for a uniform real rounded down.
pub proof fn lemma_down_result_count(y: nat, mb: nat, bias: nat, n: nat)
    requires
        is_float_format(mb, bias),
        y < bias * pow2(mb),
        n >= bias + mb - 1,
    ensures
        streams_giving(y, mb, bias, n).finite(),
        streams_giving(y, mb, bias, n).len() == float_ulp(y, mb) * pow2((n - (bias + mb - 1)) as nat),
{
    lemma_down_result_distribution(y, mb, bias);
    lemma_format_facts(mb, bias);
    let t = decided_bits(y, mb, bias);
    let pp = decided_prefix(y, mb, bias);
    lemma_significand(y, mb);
    let s = scale_exponent(y, mb);
    lemma_pow2_pos(mb);
    lemma_scale_below_bias(y, mb, bias);
    assert(t == bias + mb - s);
    assert(t <= n);
    let d = (n - t) as nat;
    let pt = pow2(t);
    lemma_pow2_pos(t);
    lemma_pow2_pos(d);
    lemma_pow2_adds(d, t);
    lemma2_to64();
    let zs = vstd::set_lib::set_int_range(0, pow2(d) as int);
    let f = |z: int| pp + z * pt;
    let target = streams_giving(y, mb, bias, n);
    assert forall|z: int| zs.contains(z) implies #[trigger] target.contains(f(z)) by {
        let x = pp + z * pt;
        lemma_mul_inequality(z, pow2(d) - 1, pt as int);
        lemma_mul_is_distributive_sub_other_way(pt as int, pow2(d) as int, 1);
        lemma_mod_multiples_vanish(z, pp as int, pt as int);
        lemma_mul_is_commutative(z, pt as int);
        lemma_small_mod(pp, pt);
        assert((x as nat) / pow2(0) == x as nat);
        assert(bit_field(x as nat, 0, t) == pp);
        assert(down_result(x as nat, mb, bias).0 == y);
    }
    assert forall|x: int| target.contains(x) implies #[trigger] zs.map(f).contains(x) by {
        let xn = x as nat;
        assert(xn / pow2(0) == xn);
        assert(bit_field(xn, 0, t) == pp);
        let z = x / pt as int;
        lemma_fundamental_div_mod(x, pt as int);
        lemma_mul_is_commutative(z, pt as int);
        lemma_div_pos_is_pos(x, pt as int);
        assert(z < pow2(d)) by {
            if z >= pow2(d) {
                lemma_mul_inequality(pow2(d) as int, z, pt as int);
            }
        }
        assert(zs.contains(z) && f(z) == x);
    }
    assert(zs.map(f) =~= target);
    assert(vstd::relations::injective_on(f, zs)) by {
        assert forall|z1: int, z2: int| zs.contains(z1) && zs.contains(z2) && #[trigger] f(z1) == #[trigger] f(
            z2,
        ) implies z1 == z2 by {
            if z1 < z2 {
                lemma_mul_strict_inequality(z1, z2, pt as int);
            } else if z2 < z1 {
                lemma_mul_strict_inequality(z2, z1, pt as int);
            }
        }
    }
    vstd::set_lib::lemma_int_range(0, pow2(d) as int);
    vstd::set_lib::lemma_map_size(zs, target, f);
    // 2^(n - t) == 2^(s - 1) 2^(n - (bias + mb - 1))
    assert(float_ulp(y, mb) == pow2((s - 1) as nat));
    lemma_pow2_adds((s - 1) as nat, (n - (bias + mb - 1)) as nat);
    assert((s - 1) as nat + (n - (bias + mb - 1)) as nat == d);
}

/// A float below 1.0 has a spacing exponent between 1 and `bias`.
proof fn lemma_scale_below_bias(y: nat, mb: nat, bias: nat)
    requires
        bias >= 1,
        y < bias * pow2(mb),
    ensures
        1 <= scale_exponent(y, mb) <= bias,
{
    lemma_significand(y, mb);
    lemma_pow2_pos(mb);
    let s = scale_exponent(y, mb);
    if s > bias {
        lemma_mul_inequality(bias as int, s as int, pow2(mb) as int);
        lemma_fundamental_div_mod(y as int, pow2(mb) as int);
        lemma_mul_is_commutative(pow2(mb) as int, s as int);
    }
}

/// The generator reads exactly the stream bits that decide its result,
/// and never more than `bias + mb - 1` of them (1074 bits, 17 words, for
/// binary64; 149 bits, 3 words, for binary32).
pub proof fn lemma_bits_read(x: nat, mb: nat, bias: nat)
    requires
        is_float_format(mb, bias),
    ensures
        down_result(x, mb, bias).1 == decided_bits(down_result(x, mb, bias).0, mb, bias),
        down_result(x, mb, bias).1 <= bias + mb - 1,
{
    lemma_prefix_of_result(x, mb, bias);
    lemma_format_facts(mb, bias);
    lemma_scale_below_bias(down_result(x, mb, bias).0, mb, bias);
}

} // verus!
