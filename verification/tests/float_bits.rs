use rand_float_rs::float_bits::exact_difference;
use rand_float_rs::sources::SplitMix64;

#[test]
fn exact_difference_matches_f64_subtraction() {
    let mut rng = SplitMix64(99);
    for _ in 0..200_000 {
        let w = rng.next_u64();
        let mant = (w >> 12) >> (w % 52);
        let e = 1 + (rng.next_u64() % 1023);
        let base = e << 52;
        let b = f64::from_bits(base + mant) - f64::from_bits(base);
        assert_eq!(exact_difference(mant, e, 52), b.to_bits(), "mant {mant:#x} e {e}");
    }
}

#[test]
fn exact_difference_matches_f32_subtraction() {
    let mut rng = SplitMix64(7);
    for _ in 0..200_000 {
        let w = rng.next_u64();
        let mant = ((w >> 41) >> (w % 23)) as u32;
        let e = (1 + (rng.next_u64() % 127)) as u32;
        let base = e << 23;
        let b = f32::from_bits(base + mant) - f32::from_bits(base);
        assert_eq!(exact_difference(mant as u64, e as u64, 23), b.to_bits() as u64);
    }
}

#[test]
fn exact_difference_edge_values() {
    // Zero difference, a subnormal result and the top of the binade.
    assert_eq!(exact_difference(0, 1023, 52), 0);
    assert_eq!(exact_difference(1, 1, 52), 1);
    assert_eq!(exact_difference((1 << 52) - 1, 1023, 52), 0x3FEF_FFFF_FFFF_FFFE);
    assert_eq!(exact_difference(1 << 51, 1023, 52), 0.5f64.to_bits());
}
