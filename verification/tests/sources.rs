use rand_float_rs::sources::{SplitMix64, Weyl, WordSource};

#[test]
fn weyl_adds_the_golden_increment() {
    let mut w = Weyl(42);
    assert_eq!(w.next_u64(), 42 + 0x9E3779B97F4A7C15);
    assert_eq!(w.0, 42 + 0x9E3779B97F4A7C15);
    let mut w = Weyl(u64::MAX);
    assert_eq!(w.next_u64(), 0x9E3779B97F4A7C14);
    let mut w = Weyl(5);
    for _ in 0..1000 {
        w.next_u64();
    }
    assert_eq!(w.0, 5u64.wrapping_add(0x9E3779B97F4A7C15u64.wrapping_mul(1000)));
}

#[test]
fn splitmix64_reference_values() {
    // Reference outputs of SplitMix64 from seed 0.
    let mut s = SplitMix64(0);
    assert_eq!(s.next_u64(), 0xE220A8397B1DCDAF);
    assert_eq!(s.next_u64(), 0x6E789E6AA1B965F4);
    assert_eq!(s.next_u64(), 0x06C45D188009454F);
    assert_eq!(s.0, 0x9E3779B97F4A7C15u64.wrapping_mul(3));
}

#[test]
fn splitmix64_state_follows_weyl() {
    let mut s = SplitMix64(0x1234);
    let mut w = Weyl(0x1234);
    for _ in 0..100 {
        s.next_u64();
        w.next_u64();
        assert_eq!(s.0, w.0);
    }
}

#[test]
fn word_source_through_a_reference() {
    let mut s = SplitMix64(7);
    let mut t = SplitMix64(7);
    let a = (&mut s).next_word();
    assert_eq!(a, t.next_u64());
    assert_eq!(s.next_word(), t.next_u64());
}

#[test]
fn splitmix64_finalizer_is_invertible() {
    // Undo the finalizer with the modular inverses of its multipliers.
    let unfinalize = |r: u64| {
        let z2 = r ^ (r >> 31) ^ (r >> 62);
        let y2 = z2.wrapping_mul(0x319642B2D24D8EC3);
        let z1 = y2 ^ (y2 >> 27) ^ (y2 >> 54);
        let y1 = z1.wrapping_mul(0x96DE1B173F119089);
        y1 ^ (y1 >> 30) ^ (y1 >> 60)
    };
    let mut s = SplitMix64(0xFEED);
    for _ in 0..10_000 {
        let out = s.next_u64();
        assert_eq!(unfinalize(out), s.0);
    }
}
