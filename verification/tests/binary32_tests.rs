use convergence::binary32::{find_smallest_unrepresentable_n, is_f32_exact};

#[test]
fn smallest_unrepresentable_is_two_to_24_plus_1() {
    assert_eq!(find_smallest_unrepresentable_n(), 16_777_217);
}

#[test]
fn representability_matches_a_real_round_trip() {
    // The verified predicate agrees with an actual cast through f32.
    let samples: [u64; 12] = [
        0,
        1,
        2,
        3,
        16_777_215,
        16_777_216,
        16_777_217,
        16_777_218,
        16_777_219,
        33_554_432,
        33_554_433,
        100_000_001,
    ];
    for n in samples {
        let round_trip = (n as f32) as u64 == n;
        assert_eq!(is_f32_exact(n), round_trip, "disagreement at {}", n);
    }
}

#[test]
fn every_smaller_integer_survives_the_round_trip() {
    let n = find_smallest_unrepresentable_n();
    for k in (n - 1000)..n {
        assert_eq!((k as f32) as u64, k);
    }
    assert_ne!((n as f32) as u64, n);
}
