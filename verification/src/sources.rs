//! Deterministic 64-bit generators: the additive Weyl sequence and
//! Vigna's SplitMix64.

use vstd::prelude::*;

verus! {

/// The golden-ratio increment shared by both generators.
pub const GOLDEN_GAMMA: u64 = 0x9E3779B97F4A7C15;

/// The first multiplier of the SplitMix64 finalizer.
pub const MIX_MUL_1: u64 = 0xBF58476D1CE4E5B9;

/// The second multiplier of the SplitMix64 finalizer.
pub const MIX_MUL_2: u64 = 0x94D049BB133111EB;

/// One step of the Weyl sequence: the state advanced by the golden-ratio
/// increment, modulo 2^64.
pub open spec fn weyl_step(state: u64) -> u64 {
    ((state as nat + GOLDEN_GAMMA as nat) % 0x1_0000_0000_0000_0000) as u64
}

/// The SplitMix64 finalizer: two xor-shift-multiply rounds and a final
/// xor-shift, all multiplications taken modulo 2^64.
pub open spec fn splitmix_finalize(z: u64) -> u64 {
    let z1 = (((z ^ (z >> 30u64)) as nat * MIX_MUL_1 as nat) % 0x1_0000_0000_0000_0000) as u64;
    let z2 = (((z1 ^ (z1 >> 27u64)) as nat * MIX_MUL_2 as nat) % 0x1_0000_0000_0000_0000) as u64;
    z2 ^ (z2 >> 31u64)
}

/// The state after `n` steps of the Weyl sequence from `state`.
pub open spec fn weyl_steps(state: u64, n: nat) -> u64
    decreases n,
{
    if n == 0 {
        state
    } else {
        weyl_step(weyl_steps(state, (n - 1) as nat))
    }
}

/// After `n` steps from the seed, the Weyl state is the seed plus `n`
/// golden-ratio increments, modulo 2^64.
pub proof fn lemma_weyl_steps(seed: u64, n: nat)
    ensures
        weyl_steps(seed, n) as nat == (seed as nat + n * GOLDEN_GAMMA as nat) % 0x1_0000_0000_0000_0000,
    decreases n,
{
    if n > 0 {
        lemma_weyl_steps(seed, (n - 1) as nat);
        let m: int = 0x1_0000_0000_0000_0000;
        let a = seed as nat + (n - 1) * GOLDEN_GAMMA as nat;
        vstd::arithmetic::div_mod::lemma_add_mod_noop(a as int, GOLDEN_GAMMA as int, m);
        vstd::arithmetic::div_mod::lemma_mod_twice(GOLDEN_GAMMA as int, m);
        vstd::arithmetic::div_mod::lemma_small_mod(GOLDEN_GAMMA as nat, m as nat);
        vstd::arithmetic::div_mod::lemma_mod_bound(a as int, m);
        vstd::arithmetic::mul::lemma_mul_is_distributive_add_other_way(GOLDEN_GAMMA as int, (n - 1) as int, 1);
    }
}

/// The inverse of [`MIX_MUL_1`] modulo 2^64.
pub const MIX_MUL_1_INV: u64 = 0x96DE1B173F119089;

/// The inverse of [`MIX_MUL_2`] modulo 2^64.
pub const MIX_MUL_2_INV: u64 = 0x319642B2D24D8EC3;

/// The inverse of the SplitMix64 finalizer: each xor-shift and each
/// multiplication undone in reverse order.
pub open spec fn splitmix_unfinalize(r: u64) -> u64 {
    let z2 = r ^ (r >> 31u64) ^ (r >> 62u64);
    let y2 = ((z2 as nat * MIX_MUL_2_INV as nat) % 0x1_0000_0000_0000_0000) as u64;
    let z1 = y2 ^ (y2 >> 27u64) ^ (y2 >> 54u64);
    let y1 = ((z1 as nat * MIX_MUL_1_INV as nat) % 0x1_0000_0000_0000_0000) as u64;
    y1 ^ (y1 >> 30u64) ^ (y1 >> 60u64)
}

/// An xor-shift by at least a third of the width is undone by xor-ing in
/// the first two shifts of the result.
proof fn lemma_xorshift_inverse(x: u64)
    by (bit_vector)
    ensures
        (x ^ (x >> 30u64)) ^ ((x ^ (x >> 30u64)) >> 30u64) ^ ((x ^ (x >> 30u64)) >> 60u64) == x,
        (x ^ (x >> 27u64)) ^ ((x ^ (x >> 27u64)) >> 27u64) ^ ((x ^ (x >> 27u64)) >> 54u64) == x,
        (x ^ (x >> 31u64)) ^ ((x ^ (x >> 31u64)) >> 31u64) ^ ((x ^ (x >> 31u64)) >> 62u64) == x,
{
}

/// Multiplying by an inverse modulo 2^64 undoes a multiplication.
proof fn lemma_mul_inverse(x: u64, c: u64, cinv: u64)
    requires
        (c as nat * cinv as nat) % 0x1_0000_0000_0000_0000 == 1,
    ensures
        (((x as nat * c as nat) % 0x1_0000_0000_0000_0000) as u64 as nat * cinv as nat)
            % 0x1_0000_0000_0000_0000 == x,
{
    let m: int = 0x1_0000_0000_0000_0000;
    vstd::arithmetic::div_mod::lemma_mod_bound(x as int * c as int, m);
    vstd::arithmetic::div_mod::lemma_mul_mod_noop_left(x as int * c as int, cinv as int, m);
    vstd::arithmetic::mul::lemma_mul_is_associative(x as int, c as int, cinv as int);
    vstd::arithmetic::div_mod::lemma_mul_mod_noop_right(x as int, c as int * cinv as int, m);
    vstd::arithmetic::div_mod::lemma_small_mod(x as nat, m as nat);
}

/// The SplitMix64 finalizer is a bijection of the 64-bit words: it has an
/// inverse, so that distinct states give distinct outputs and, over the
/// 2^64 states of one period of the Weyl sequence, every word comes out
/// exactly once.
pub proof fn lemma_splitmix_finalize_invertible(z: u64)
    ensures
        splitmix_unfinalize(splitmix_finalize(z)) == z,
{
    assert((MIX_MUL_1 as nat * MIX_MUL_1_INV as nat) % 0x1_0000_0000_0000_0000 == 1);
    assert((MIX_MUL_2 as nat * MIX_MUL_2_INV as nat) % 0x1_0000_0000_0000_0000 == 1);
    let z1 = (((z ^ (z >> 30u64)) as nat * MIX_MUL_1 as nat) % 0x1_0000_0000_0000_0000) as u64;
    lemma_xorshift_inverse(z);
    lemma_mul_inverse(z ^ (z >> 30u64), MIX_MUL_1, MIX_MUL_1_INV);
    lemma_xorshift_inverse(z1);
    let z2 = (((z1 ^ (z1 >> 27u64)) as nat * MIX_MUL_2 as nat) % 0x1_0000_0000_0000_0000) as u64;
    lemma_mul_inverse(z1 ^ (z1 >> 27u64), MIX_MUL_2, MIX_MUL_2_INV);
    lemma_xorshift_inverse(z2);
}

/// The Weyl step is a bijection of the 64-bit words: the increment is odd,
/// and stepping back undoes a step.
pub proof fn lemma_weyl_step_invertible(state: u64)
    ensures
        ((weyl_step(state) as nat + 0x1_0000_0000_0000_0000 - GOLDEN_GAMMA as nat)
            % 0x1_0000_0000_0000_0000) == state,
{
    let m: int = 0x1_0000_0000_0000_0000;
    let t = state as int + GOLDEN_GAMMA as int;
    if t < m {
        vstd::arithmetic::div_mod::lemma_small_mod(t as nat, m as nat);
        vstd::arithmetic::div_mod::lemma_mod_multiples_vanish(1, state as int, m);
        vstd::arithmetic::div_mod::lemma_small_mod(state as nat, m as nat);
    } else {
        vstd::arithmetic::div_mod::lemma_fundamental_div_mod_converse(t, m, 1, t - m);
        vstd::arithmetic::div_mod::lemma_small_mod(state as nat, m as nat);
    }
}

/// The additive Weyl sequence: the state advances by [`GOLDEN_GAMMA`] and
/// is returned as is. The public field is the current state.
pub struct Weyl(pub u64);

impl Weyl {
    /// Returns the next 64-bit word of the sequence.
    pub fn next_u64(&mut self) -> (r: u64)
        ensures
            final(self).0 == weyl_step(old(self).0),
            r == final(self).0,
    {
        self.0 = self.0.wrapping_add(GOLDEN_GAMMA);
        self.0
    }
}

/// SplitMix64: a Weyl sequence passed through a two-round
/// xor-shift-multiply finalizer. The public field is the current state.
pub struct SplitMix64(pub u64);

impl SplitMix64 {
    /// Returns the next 64-bit word of the sequence.
    pub fn next_u64(&mut self) -> (r: u64)
        ensures
            final(self).0 == weyl_step(old(self).0),
            r == splitmix_finalize(final(self).0),
    {
        self.0 = self.0.wrapping_add(GOLDEN_GAMMA);
        let mut z = self.0;
        z = (z ^ (z >> 30)).wrapping_mul(MIX_MUL_1);
        z = (z ^ (z >> 27)).wrapping_mul(MIX_MUL_2);
        z ^ (z >> 31)
    }
}

/// A source of uniform random 64-bit words.
///
/// Nothing is assumed of the words a source hands out: the generators of
/// this crate are proved correct for every word sequence. A source may
/// say which words it hands out by overriding [`WordSource::yields`].
pub trait WordSource: Sized {
    /// Whether a source in state `self` may hand out the word `w` and move
    /// to state `next`. Unless a source says more, any word and any next
    /// state may come.
    open spec fn yields(&self, w: u64, next: &Self) -> bool {
        true
    }

    /// Returns the next word of the source.
    fn next_word(&mut self) -> (r: u64)
        ensures
            (*old(self)).yields(r, &*final(self)),
    ;
}

impl WordSource for Weyl {
    /// The state advances by one Weyl step and is handed out.
    open spec fn yields(&self, w: u64, next: &Self) -> bool {
        next.0 == weyl_step(self.0) && w == next.0
    }

    fn next_word(&mut self) -> (r: u64)
        ensures
            final(self).0 == weyl_step(old(self).0),
            r == final(self).0,
    {
        self.next_u64()
    }
}

impl WordSource for SplitMix64 {
    /// The state advances by one Weyl step and is handed out finalized.
    open spec fn yields(&self, w: u64, next: &Self) -> bool {
        next.0 == weyl_step(self.0) && w == splitmix_finalize(next.0)
    }

    fn next_word(&mut self) -> (r: u64)
        ensures
            final(self).0 == weyl_step(old(self).0),
            r == splitmix_finalize(final(self).0),
    {
        self.next_u64()
    }
}

impl<'a, S: WordSource> WordSource for &'a mut S {
    /// A borrowed source hands out what the source it borrows hands out.
    open spec fn yields(&self, w: u64, next: &Self) -> bool {
        (**self).yields(w, &**next)
    }

    fn next_word(&mut self) -> (r: u64)
        ensures
            (**old(self)).yields(r, &**final(self)),
    {
        (**self).next_word()
    }
}

/// A Weyl state hands out one word and moves to one state.
pub proof fn lemma_weyl_yields_determined()
    ensures
        forall|s: Weyl, w1: u64, s1: Weyl, w2: u64, s2: Weyl|
            #[trigger] s.yields(w1, &s1) && #[trigger] s.yields(w2, &s2) ==> w1 == w2 && s1 == s2,
{
}

/// A SplitMix64 state hands out one word and moves to one state.
pub proof fn lemma_splitmix_yields_determined()
    ensures
        forall|s: SplitMix64, w1: u64, s1: SplitMix64, w2: u64, s2: SplitMix64|
            #[trigger] s.yields(w1, &s1) && #[trigger] s.yields(w2, &s2) ==> w1 == w2 && s1 == s2,
{
}

/// The source states `states` hand out the words `ws` in turn: state `i`
/// may hand out word `i` and move to state `i + 1`.
pub open spec fn yields_chain<S: WordSource>(states: Seq<S>, ws: Seq<u64>) -> bool {
    &&& states.len() == ws.len() + 1
    &&& forall|i: int| 0 <= i < ws.len() ==> #[trigger] states[i].yields(ws[i], &states[i + 1])
}

} // verus!
