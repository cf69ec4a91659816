use rand_float_rs::pekkizen::f64_64_bits;
use rand_float_rs::sources::Weyl;

fn f64_64(u: u64) -> f64 {
    f64::from_bits(f64_64_bits(u))
}

/// The bit-building form must agree with the division form,
/// `float64(u << z >> 11) / 2^53 / 2^z` with z = leadingZeros(u).
#[test]
fn matches_reference_division_form() {
    let division_form = |u: u64| {
        let z = u.leading_zeros();
        let m = ((u << z) >> 11) as f64;
        m / (1u64 << 53) as f64 / (1u64 << z) as f64
    };
    let mut rng = Weyl(7);
    for _ in 0..100_000 {
        let u = rng.0.wrapping_add(0x9E3779B97F4A7C15);
        assert_eq!(f64_64(rng.next_u64()), division_form(u));
    }
}

#[test]
fn range() {
    let mut rng = Weyl(42);
    for _ in 0..100_000 {
        let x = f64_64(rng.next_u64());
        assert!((0.0..1.0).contains(&x), "f64_64: {x}");
    }
}

/// Extremes of the leading-zeros count.
#[test]
fn edge_cases() {
    assert_eq!(f64_64(1 << 63), 0.5);
    assert_eq!(f64_64(u64::MAX), f64::from_bits(1.0f64.to_bits() - 1));
    assert_eq!(f64_64(1), f64::from_bits((1023 - 64) << 52)); // 2^-64
    assert_eq!(f64_64(0), 0.0);
}

#[test]
fn small_words_are_exact() {
    // Below 2^53 the word times 2^-64 is representable and returned as is.
    let two_m64 = f64::from_bits((1023 - 64) << 52);
    for &u in &[1u64, 3, 12345, (1 << 52) + 1, (1 << 53) - 1] {
        assert_eq!(f64_64(u), u as f64 * two_m64);
    }
}

#[test]
fn large_words_round_down() {
    // Above 2^53 the low bits are dropped: the result never exceeds the
    // real u * 2^-64, and the next float up does.
    let two_m64 = f64::from_bits((1023 - 64) << 52);
    let u = (1u64 << 63) | 0x7FF;
    let x = f64_64(u);
    assert_eq!(x, ((1u64 << 63) as f64) * two_m64);
    assert_eq!(f64_64(u | 0x800), f64::from_bits(x.to_bits() + 1));
}
