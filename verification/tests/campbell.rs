use rand_float_rs::campbell::{fast_words, geometric_divisor, nonzero_flag_smear, odd_significand, substitute_zero_word};
use rand_float_rs::sources::{Weyl, WordSource};

#[test]
fn smear_flag_matches_comparison() {
    let mut rng = Weyl(0xDEAD_BEEF);
    for _ in 0..100_000 {
        let m = rng.next_u64() >> (rng.next_u64() % 64);
        assert_eq!(nonzero_flag_smear(m), (m != 0) as u64);
    }
    assert_eq!(nonzero_flag_smear(0), 0);
    assert_eq!(nonzero_flag_smear(1), 1);
    assert_eq!(nonzero_flag_smear(1 << 63), 1);
}

#[test]
fn geometric_divisor_is_lowest_set_bit() {
    assert_eq!(geometric_divisor(0), 1 << 63);
    assert_eq!(geometric_divisor(1), 1);
    assert_eq!(geometric_divisor(12), 4);
    assert_eq!(geometric_divisor(3 << 40), 1 << 40);
    let mut rng = Weyl(1);
    for _ in 0..10_000 {
        let m = rng.next_u64();
        assert_eq!(geometric_divisor(m), 1 << (m | (1 << 63)).trailing_zeros());
    }
}

#[test]
fn odd_significand_forces_both_ends() {
    assert_eq!(odd_significand(0), 0x8000_0000_0000_0001);
    assert_eq!(odd_significand(u64::MAX), u64::MAX);
    assert_eq!(odd_significand(0x0123_4567_89AB_CDEE), 0x8123_4567_89AB_CDEF);
}

#[test]
fn zero_word_is_replaced() {
    // With m = 0 the replacement word takes its place; otherwise it is
    // ignored.
    let m2 = 0x8000_0000_0000_0000u64;
    assert_eq!(substitute_zero_word(nonzero_flag_smear(0), 0, m2), m2);
    assert_eq!(substitute_zero_word(nonzero_flag_smear(3), 3, m2), 3);
    assert_eq!(substitute_zero_word(1, 0x55, 0xAA), 0x55);
    assert_eq!(substitute_zero_word(0, 0x55, 0xAA), 0xFF);
}

struct Replay<'a> {
    words: &'a [u64],
    pos: usize,
}

impl WordSource for Replay<'_> {
    fn next_word(&mut self) -> u64 {
        let w = *self.words.get(self.pos).expect("source exhausted");
        self.pos += 1;
        w
    }
}

#[test]
fn fast_words_replace_a_zero_exponent_word() {
    let mut src = Replay { words: &[7, 3, 9], pos: 0 };
    assert_eq!(fast_words(&mut src), (7, 3, false));
    assert_eq!(src.pos, 2);
    let mut src = Replay { words: &[7, 0, 9], pos: 0 };
    assert_eq!(fast_words(&mut src), (7, 9, true));
    assert_eq!(src.pos, 3);
}
