use rand_float_rs::perfect::{f32_down_bits, f64_down_bits, seek32, seek64, EntropyPool};
use rand_float_rs::sources::{SplitMix64, WordSource};

/// A source that replays a fixed sequence of words, then panics.
struct Replay<'a> {
    words: &'a [u64],
    pos: usize,
}

impl WordSource for Replay<'_> {
    fn next_word(&mut self) -> u64 {
        let w = *self.words.get(self.pos).expect("source exhausted");
        self.pos += 1;
        w
    }
}

fn replay(words: &[u64]) -> Replay<'_> {
    Replay { words, pos: 0 }
}

/// A source that calls a closure for each word.
struct FromFn<F>(F);

impl<F: FnMut() -> u64> WordSource for FromFn<F> {
    fn next_word(&mut self) -> u64 {
        (self.0)()
    }
}

fn f64_down(mut src: impl WordSource) -> f64 {
    f64::from_bits(f64_down_bits(&mut src))
}

fn f32_down(mut src: impl WordSource) -> f32 {
    f32::from_bits(f32_down_bits(&mut src))
}

#[test]
fn known_values_f64() {
    // Mantissa 2^51 -> partial 0.5, one vacant bit, backfilled with the
    // leftover bit 52 of the same word.
    assert_eq!(f64_down(replay(&[1 << 51])), 0.5);
    assert_eq!(
        f64_down(replay(&[(1 << 51) | (1 << 52)])),
        f64::from_bits(0.5f64.to_bits() + 1)
    );
    // Full mantissa: partial is 1 - 2^-52, the largest f64 below 1 with one
    // vacant bit, which is bit 52 of the word.
    assert_eq!(
        f64_down(replay(&[(1 << 52) - 1])),
        f64::from_bits(1.0f64.to_bits() - 2)
    );
    assert_eq!(
        f64_down(replay(&[(1 << 53) - 1])),
        f64::from_bits(1.0f64.to_bits() - 1)
    );
    // Mantissa 1: partial 2^-52, 52 vacant bits backfilled from the 12
    // leftover bits plus 40 bits of a second word.
    assert_eq!(f64_down(replay(&[1, 0])), f64::from_bits(0x3CB0000000000000));
}

#[test]
fn all_zeros_terminates_and_yields_zero() {
    // A broken all-zero source must walk down all exponent windows and
    // come out with exactly 0.0 (and must not loop forever).
    let mut n_calls = 0u32;
    let zero_src = || {
        n_calls += 1;
        assert!(n_calls < 64, "zoom loop does not terminate");
        0u64
    };
    assert_eq!(f64_down(FromFn(zero_src)), 0.0);
}

#[test]
fn all_zeros_terminates_and_yields_zero_f32() {
    assert_eq!(f32_down(replay(&[0, 0, 0])), 0.0);
}

#[test]
fn all_ones_source() {
    let x = f64_down(replay(&[!0u64]));
    assert_eq!(x, f64::from_bits(1.0f64.to_bits() - 1));
}

#[test]
fn range_and_moments_f64() {
    let mut src = SplitMix64(0xDEADBEEF);
    let n = 1_000_000;
    let mut sum = 0.0;
    let mut top_binade = 0u32;
    for _ in 0..n {
        let x = f64_down(&mut src);
        assert!((0.0..1.0).contains(&x), "out of range: {x}");
        sum += x;
        if x >= 0.5 {
            top_binade += 1;
        }
    }
    let mean = sum / n as f64;
    // Standard error of the mean is ~2.9e-4; 5 sigma.
    assert!((mean - 0.5).abs() < 1.5e-3, "mean {mean}");
    // P(x >= 1/2) = 1/2; 5 sigma is ~2.5e-3.
    let frac = top_binade as f64 / n as f64;
    assert!((frac - 0.5).abs() < 2.5e-3, "top-binade fraction {frac}");
}

#[test]
fn range_and_moments_f32() {
    let mut src = SplitMix64(0xC0FFEE);
    let n = 1_000_000;
    let mut sum = 0.0f64;
    for _ in 0..n {
        let x = f32_down(&mut src);
        assert!((0.0..1.0).contains(&x), "out of range: {x}");
        sum += x as f64;
    }
    let mean = sum / n as f64;
    assert!((mean - 0.5).abs() < 1.5e-3, "mean {mean}");
}

#[test]
fn low_binades_are_reachable_and_correctly_distributed() {
    // With 10^6 samples, P(x < 2^-10) should be ~2^-10 (~977 hits).
    let mut src = SplitMix64(42);
    let n = 1_000_000;
    let threshold = 1.0 / 1024.0;
    let mut hits = 0u32;
    for _ in 0..n {
        if f64_down(&mut src) < threshold {
            hits += 1;
        }
    }
    // Binomial(10^6, 2^-10): mean ~977, sigma ~31; allow 5 sigma.
    assert!((820..1140).contains(&hits), "hits {hits}");
}

#[test]
fn entropy_pool_bit_accounting() {
    // 64 bits requested 8 at a time must reproduce the word exactly.
    let word = 0x0123_4567_89AB_CDEFu64;
    let words = [word];
    let mut pool = EntropyPool::new(replay(&words));
    for i in 0..8 {
        assert_eq!(pool.get_bits(8), (word >> (8 * i)) & 0xFF);
    }
    // Zero-width requests are free.
    assert_eq!(pool.get_bits(0), 0);
}

#[test]
fn pool_requests_straddle_words() {
    // 40 + 40 bits: the second request takes 24 leftover bits of the
    // first word below 16 bits of the second.
    let words = [0xFFEE_DDCC_BBAA_9988u64, 0x7766_5544_3322_1100u64];
    let mut pool = EntropyPool::new(replay(&words));
    assert_eq!(pool.get_bits(40), 0xCC_BBAA_9988);
    assert_eq!(pool.get_bits(40), 0x1100_FFEE_DD);
    assert_eq!(pool.get_bits(48), 0x7766_5544_3322);
}

#[test]
fn pool_draws_only_when_empty() {
    // A single word serves requests totalling 64 bits; the next request
    // draws the second word.
    let words = [u64::MAX, 0];
    let mut pool = EntropyPool::new(replay(&words));
    assert_eq!(pool.get_bits(63), (1u64 << 63) - 1);
    assert_eq!(pool.get_bits(1), 1);
    assert_eq!(pool.get_bits(0), 0);
    assert_eq!(pool.get_bits(5), 0);
}

#[test]
fn seek_partial_matches_float_subtraction() {
    // The partial result is from_bits(base + a) - from_bits(base) for the
    // window that holds the first non-zero bits.
    for &a in &[1u64, 2, 3, 0x1234_5678_9ABC, (1 << 52) - 1, 1 << 51, 1 << 40] {
        let mut pool = EntropyPool::new(replay(std::slice::from_ref(&a)));
        let (partial, nb) = seek64(&mut pool);
        let base = 1.0f64.to_bits();
        let b = f64::from_bits(base + a) - f64::from_bits(base);
        assert_eq!(partial, b.to_bits());
        assert_eq!(nb, (base >> 52) as u32 - (b.to_bits() >> 52) as u32);
    }
    // Second window: the first 52 bits are zero.
    let words = [0u64, 0x5_0000_0000];
    let mut pool = EntropyPool::new(replay(&words));
    let (partial, _) = seek64(&mut pool);
    let a = (0x5_0000_0000u64 << 12) & ((1 << 52) - 1);
    let base = (1023 - 52) << 52;
    let b = f64::from_bits(base + a) - f64::from_bits(base);
    assert_eq!(partial, b.to_bits());
}

#[test]
fn seek_partial_matches_float_subtraction_f32() {
    for &a in &[1u64, 2, 0x55_5555, (1 << 23) - 1, 1 << 22] {
        let mut pool = EntropyPool::new(replay(std::slice::from_ref(&a)));
        let (partial, nb) = seek32(&mut pool);
        let base = 1.0f32.to_bits();
        let b = f32::from_bits(base + a as u32) - f32::from_bits(base);
        assert_eq!(partial, b.to_bits());
        assert_eq!(nb, (base >> 23) - (b.to_bits() >> 23));
    }
}

#[test]
fn one_word_unless_first_bits_are_small() {
    // First 52 bits at least 2^40: one word suffices.
    let mut calls = 0;
    let x = f64_down(FromFn(|| {
        calls += 1;
        1 << 40
    }));
    assert_eq!(calls, 1);
    assert_eq!(x, f64::from_bits(0x3FF0_0000_0000_0000 - (12 << 52)));
    // First 52 bits below 2^40: a second word is needed.
    let mut calls = 0;
    let _ = f64_down(FromFn(|| {
        calls += 1;
        (1 << 40) - 1
    }));
    assert_eq!(calls, 2);
}

#[test]
fn subnormals_are_reachable() {
    // Nineteen zero windows and zero bottom bits leave 51 vacant bits below
    // the spacing of the subnormals: the fill is returned as a subnormal.
    let fill = 0x5u64 | (0x7 << 25);
    let mut words = vec![0u64; 15];
    words.push((fill & 1) << 63);
    words.push(fill >> 1);
    let x = f64_down(replay(&words));
    assert_eq!(x.to_bits(), fill);
    assert!(x > 0.0 && x < f64::MIN_POSITIVE);
}

#[test]
fn fill_lands_in_vacant_bits_of_normal_partials() {
    // Mantissa 3 in the first window: partial 3 * 2^-52 with 51 vacant
    // bits, filled from bits 52.. of the stream without carrying.
    let words = [3 | (0xABC << 52), 0x12_3456_789A];
    let x = f64_down(replay(&words));
    let partial = 3.0 * f64::from_bits((1023 - 52) << 52);
    assert_eq!(x.to_bits() >> 52, partial.to_bits() >> 52);
    let fill = 0xABC | ((0x12_3456_789Au64 & ((1 << 39) - 1)) << 12);
    assert_eq!(x.to_bits(), partial.to_bits() | fill);
}

#[test]
fn bottom_window_fills_below_its_partial() {
    // Nineteen zero windows, then 1 in the 35 bottom bits: the partial is
    // the subnormal 2^51 * 2^-1074, with 51 vacant bits; an all-ones fill
    // reaches the largest subnormal without carrying.
    let mut words = vec![0u64; 15];
    words.push((1 << 28) | (1 << 63));
    words.push((1 << 50) - 1);
    let x = f64_down(replay(&words));
    assert_eq!(x.to_bits(), (1u64 << 52) - 1);
}

#[test]
fn seek_second_window_and_leftover_bits() {
    let words = [0u64, 1 << 39];
    let mut pool = EntropyPool::new(replay(&words));
    assert_eq!(seek64(&mut pool), (0x3CA0_0000_0000_0000, 1));
    // 104 bits read from two words leave 24 buffered.
    assert_eq!(pool.get_bits(24), 0);
    let words = [1u64, 0];
    let mut pool = EntropyPool::new(replay(&words));
    assert_eq!(seek64(&mut pool), (0x3CB0_0000_0000_0000, 52));
    // Only the first word was drawn: 12 bits are left of it.
    assert_eq!(pool.get_bits(12), 0);
}

#[test]
fn all_zero_source_draws_1074_bits() {
    // The zoom reads 19 * 52 + 35 bits and fills 51 more: 17 words.
    let mut n_calls = 0u32;
    let x = f64_down(FromFn(|| {
        n_calls += 1;
        0
    }));
    assert_eq!(x, 0.0);
    assert_eq!(n_calls, 17);
    // binary32: 5 * 23 + 12 + 22 = 149 bits, 3 words.
    let mut n_calls = 0u32;
    let y = f32_down(FromFn(|| {
        n_calls += 1;
        0
    }));
    assert_eq!(y, 0.0);
    assert_eq!(n_calls, 3);
}

#[test]
fn largest_float_below_one_is_reachable_f32() {
    let x = f32_down(replay(&[(1 << 24) - 1]));
    assert_eq!(x, f32::from_bits(1.0f32.to_bits() - 1));
    assert_eq!(f32_down(replay(&[1 << 22])), 0.5);
}

#[test]
fn partial_results_leave_their_vacant_bits_zero() {
    // Nineteen zero windows, then 1 in the bottom bits: the subnormal
    // partial 2^51 with 51 vacant bits.
    let mut words = vec![0u64; 15];
    words.push(1 << 28);
    words.push(0);
    let mut pool = EntropyPool::new(replay(&words));
    assert_eq!(seek64(&mut pool), (1 << 51, 51));
    // binary32: five zero windows, then 1 in the 12 bottom bits.
    let words = [0u64, 1 << 51, 0];
    let mut pool = EntropyPool::new(replay(&words));
    assert_eq!(seek32(&mut pool), (1 << 22, 22));
    // Over pseudo-random streams, with sparse words mixed in.
    let mut gen = SplitMix64(7);
    for i in 0..2000u64 {
        let w = gen.next_u64();
        let sparse = [w >> (i % 64), w & 0xFFFF, w];
        let mut pool = EntropyPool::new(replay(&sparse));
        let (p, nb) = seek64(&mut pool);
        assert_eq!(p & ((1u64 << nb) - 1), 0);
        let mut pool = EntropyPool::new(replay(&sparse));
        let (p, nb) = seek32(&mut pool);
        assert_eq!(p & ((1u32 << nb) - 1), 0);
    }
}

#[test]
fn streams_with_the_decided_prefix_give_the_float() {
    // 0.5 is decided by the first 53 stream bits: 2^51 in the first
    // window and a zero fill bit. The bits above do not matter.
    let mut gen = SplitMix64(11);
    for _ in 0..100 {
        let high = gen.next_u64() << 53;
        assert_eq!(f64_down(replay(&[(1 << 51) | high])), 0.5);
    }
    // 0.75 - 2^-53, the float just below 0.75, is decided by 53 bits too.
    let below = f64::from_bits(0.75f64.to_bits() - 1);
    for _ in 0..100 {
        let high = gen.next_u64() << 53;
        let prefix = ((1u64 << 51) + (1 << 50) - 1) | (1 << 52);
        assert_eq!(f64_down(replay(&[prefix | high])), below);
    }
}

#[test]
fn two_requests_hand_out_what_one_does() {
    for &(a, b) in &[(3u32, 5u32), (40, 20), (63, 0), (0, 63), (31, 32)] {
        let mut p = EntropyPool::new(SplitMix64(5));
        let mut q = EntropyPool::new(SplitMix64(5));
        // Offset both pools by the same amount first.
        assert_eq!(p.get_bits(50), q.get_bits(50));
        let x = p.get_bits(a);
        let y = p.get_bits(b);
        assert_eq!(x | (y << a), q.get_bits(a + b));
        assert_eq!(p.get_bits(60), q.get_bits(60));
    }
}

#[test]
fn successive_calls_start_on_fresh_words() {
    let mut gen = SplitMix64(21);
    let words: Vec<u64> = (0..64).map(|i| if i % 5 == 1 { 0 } else { gen.next_u64() >> (i % 13) }).collect();
    let mut src = replay(&words);
    let mut start = 0;
    while start + 20 < words.len() {
        let x = f64_down_bits(&mut src);
        let used = src.pos - start;
        assert!(used >= 1);
        // The same words, replayed on their own, give the same result.
        let mut alone = replay(&words[start..start + used]);
        assert_eq!(f64_down_bits(&mut alone), x);
        assert_eq!(alone.pos, used);
        start = src.pos;
    }
}

#[test]
fn word_counts_per_call() {
    let mut gen = SplitMix64(3);
    for i in 0..3000u32 {
        let w0 = gen.next_u64() >> (i % 20);
        let words = [w0, gen.next_u64(), gen.next_u64(), gen.next_u64()];
        let mut src = replay(&words);
        f64_down_bits(&mut src);
        let one = w0 & 0x000F_FF00_0000_0000 != 0;
        assert_eq!(src.pos == 1, one);
        assert!(src.pos <= 17);
        let mut src = replay(&words);
        f32_down_bits(&mut src);
        assert!(src.pos <= 3);
        if w0 & 0x7F_FFFF != 0 {
            assert_eq!(src.pos, 1);
        }
    }
}
