use convergence::bits::{F64_NAN_BITS, abs_bits, halving_steps, is_zero};

#[test]
fn abs_clears_the_sign_bit() {
    assert_eq!(abs_bits((-3.5f64).to_bits()), 3.5f64.to_bits());
    assert_eq!(abs_bits(3.5f64.to_bits()), 3.5f64.to_bits());
    assert_eq!(abs_bits((-0.0f64).to_bits()), 0.0f64.to_bits());
    assert_eq!(
        f64::from_bits(abs_bits(f64::NEG_INFINITY.to_bits())),
        f64::INFINITY
    );
}

#[test]
fn zero_test_covers_both_zeros_and_nothing_else() {
    assert!(is_zero(0.0f64.to_bits()));
    assert!(is_zero((-0.0f64).to_bits()));
    assert!(!is_zero(1e-300f64.to_bits()));
    assert!(!is_zero(f64::NAN.to_bits()));
}

#[test]
fn nan_pattern_is_a_nan() {
    assert!(f64::from_bits(F64_NAN_BITS).is_nan());
    assert_eq!(F64_NAN_BITS, f64::NAN.to_bits());
}

#[test]
fn halving_steps_match_real_halving() {
    let steps = halving_steps(0.5f64.to_bits(), 12);
    assert_eq!(steps.len(), 12);
    let mut h = 0.5f64;
    for b in &steps {
        assert_eq!(*b, h.to_bits());
        h /= 2.0;
    }
}

#[test]
fn halving_steps_from_other_starts() {
    let steps = halving_steps(1024.0f64.to_bits(), 5);
    let expect: Vec<u64> = [1024.0f64, 512.0, 256.0, 128.0, 64.0]
        .iter()
        .map(|x| x.to_bits())
        .collect();
    assert_eq!(steps, expect);
}
