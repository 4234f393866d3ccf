use gadget_decomposition::ciphertext_modulus::CiphertextModulus;
use gadget_decomposition::error::ConfigurationError;
use gadget_decomposition::non_native::SignedDecomposerNonNative;
use gadget_decomposition::parameters::{
    DecompositionBaseLog, DecompositionLevel, DecompositionLevelCount,
};

const SOLINAS: u128 = (1 << 64) - (1 << 32) + 1;

fn circular_distance(a: u128, b: u128, q: u128) -> u128 {
    let forward = (a + q - b) % q;
    let backward = (b + q - a) % q;
    forward.min(backward)
}

#[test]
fn summand_of_two_to_the_sixty_modulo_solinas_prime() {
    let decomposer = SignedDecomposerNonNative::<u64>::new(
        DecompositionBaseLog(16),
        DecompositionLevelCount(1),
        CiphertextModulus::try_new(SOLINAS).unwrap(),
    )
    .unwrap();
    let mut terms = decomposer.decompose(2u64.pow(60));
    let term = terms.next_term().unwrap();
    assert_eq!(term.to_recomposition_summand(), 1152921504338411520);
    assert_eq!(term.value(), 4096);
    assert_eq!(term.level(), DecompositionLevel(1));
    assert!(terms.next_term().is_none());
}

#[test]
fn value_of_two_to_the_nineteen_modulo_two_to_the_thirty_two() {
    let decomposer = SignedDecomposerNonNative::<u64>::new(
        DecompositionBaseLog(16),
        DecompositionLevelCount(1),
        CiphertextModulus::try_new(1 << 32).unwrap(),
    )
    .unwrap();
    let term = decomposer.decompose(2u64.pow(19)).next_term().unwrap();
    assert_eq!(term.value(), 8);
}

#[test]
fn first_level_modulo_two_to_the_thirty_two() {
    let decomposer = SignedDecomposerNonNative::<u64>::new(
        DecompositionBaseLog(4),
        DecompositionLevelCount(3),
        CiphertextModulus::try_new(1 << 32).unwrap(),
    )
    .unwrap();
    let output = decomposer.decompose(2u64.pow(19)).next_term().unwrap();
    assert_eq!(output.level(), DecompositionLevel(3));
}

#[test]
fn non_native_configuration_errors() {
    let q = CiphertextModulus::<u64>::try_new(SOLINAS).unwrap();
    assert_eq!(
        SignedDecomposerNonNative::new(DecompositionBaseLog(0), DecompositionLevelCount(3), q)
            .unwrap_err(),
        ConfigurationError::ZeroBaseLog
    );
    assert_eq!(
        SignedDecomposerNonNative::new(DecompositionBaseLog(4), DecompositionLevelCount(0), q)
            .unwrap_err(),
        ConfigurationError::ZeroLevelCount
    );
    assert_eq!(
        SignedDecomposerNonNative::new(DecompositionBaseLog(0), DecompositionLevelCount(0), q)
            .unwrap_err(),
        ConfigurationError::ZeroBaseLog
    );
    // 2^64 exceeds the modulus, 2^63 does not.
    assert_eq!(
        SignedDecomposerNonNative::new(DecompositionBaseLog(16), DecompositionLevelCount(4), q)
            .unwrap_err(),
        ConfigurationError::IncompatibleModulus
    );
    assert!(
        SignedDecomposerNonNative::new(DecompositionBaseLog(9), DecompositionLevelCount(7), q)
            .is_ok()
    );
    assert_eq!(
        SignedDecomposerNonNative::new(
            DecompositionBaseLog(usize::MAX),
            DecompositionLevelCount(usize::MAX),
            q
        )
        .unwrap_err(),
        ConfigurationError::IncompatibleModulus
    );
    let small = CiphertextModulus::<u8>::try_new(7).unwrap();
    assert_eq!(
        SignedDecomposerNonNative::new(DecompositionBaseLog(1), DecompositionLevelCount(3), small)
            .unwrap_err(),
        ConfigurationError::IncompatibleModulus
    );
    assert!(
        SignedDecomposerNonNative::new(DecompositionBaseLog(1), DecompositionLevelCount(2), small)
            .is_ok()
    );
}

#[test]
fn modulus_errors() {
    assert_eq!(
        CiphertextModulus::<u64>::try_new(0).unwrap_err(),
        ConfigurationError::ModulusTooSmall
    );
    assert_eq!(
        CiphertextModulus::<u64>::try_new(1).unwrap_err(),
        ConfigurationError::ModulusTooSmall
    );
    assert_eq!(
        CiphertextModulus::<u64>::try_new(1 << 64).unwrap_err(),
        ConfigurationError::ModulusTooLarge
    );
    assert_eq!(
        CiphertextModulus::<u8>::try_new(256).unwrap_err(),
        ConfigurationError::ModulusTooLarge
    );
    assert_eq!(CiphertextModulus::<u8>::try_new(255).unwrap().get_custom_modulus(), 255);
    assert_eq!(
        CiphertextModulus::<u64>::try_new(u64::MAX as u128).unwrap().get_custom_modulus(),
        u64::MAX as u128
    );
    assert_eq!(CiphertextModulus::<u128>::try_new(u128::MAX).unwrap().get_custom_modulus(), u128::MAX);
    assert_eq!(CiphertextModulus::<u32>::try_new(2).unwrap().get_custom_modulus(), 2);
}

#[test]
fn non_native_digits_are_balanced_and_counted() {
    let q: u128 = 251;
    let decomposer = SignedDecomposerNonNative::<u8>::new(
        DecompositionBaseLog(2),
        DecompositionLevelCount(3),
        CiphertextModulus::try_new(q).unwrap(),
    )
    .unwrap();
    for theta in 0..=255u8 {
        let mut terms = decomposer.decompose(theta);
        let mut count = 0;
        let mut expected_level = 3;
        while let Some(term) = terms.next_term() {
            let stored = term.value() as u128;
            assert!(stored < q);
            let signed: i128 = if 2 * stored >= q { stored as i128 - q as i128 } else { stored as i128 };
            assert!((-2..=1).contains(&signed), "theta {theta} digit {signed}");
            assert_eq!(term.level(), DecompositionLevel(expected_level));
            expected_level -= 1;
            count += 1;
        }
        assert_eq!(count, 3);
    }
}

#[test]
fn non_native_round_trip_with_exact_weights() {
    // 192 is a multiple of 2^6: every weight 192 / 4^i is a whole number.
    let q: u128 = 192;
    let decomposer = SignedDecomposerNonNative::<u8>::new(
        DecompositionBaseLog(2),
        DecompositionLevelCount(3),
        CiphertextModulus::try_new(q).unwrap(),
    )
    .unwrap();
    for theta in 0..=255u8 {
        let recomposed = decomposer.recompose(decomposer.decompose(theta)) as u128;
        let distance = circular_distance(recomposed, theta as u128 % q, q);
        assert!(2 * 64 * distance <= q, "theta {theta} recomposed {recomposed}");
    }
}

#[test]
fn non_native_round_trip_with_rounded_weights() {
    for q in [7u128, 97, 200, 251, 255] {
        for (base_log, level_count) in [(1usize, 1usize), (1, 2), (2, 1), (2, 3), (3, 2), (1, 6)] {
            let big = 1u128 << (base_log * level_count);
            let built = SignedDecomposerNonNative::<u8>::new(
                DecompositionBaseLog(base_log),
                DecompositionLevelCount(level_count),
                CiphertextModulus::try_new(q).unwrap(),
            );
            if big > q {
                assert_eq!(built.unwrap_err(), ConfigurationError::IncompatibleModulus);
                continue;
            }
            let decomposer = built.unwrap();
            for theta in 0..=255u8 {
                let recomposed = decomposer.recompose(decomposer.decompose(theta)) as u128;
                assert!(recomposed < q);
                let distance = circular_distance(recomposed, theta as u128 % q, q);
                assert!(
                    4 * big * distance <= 2 * q + level_count as u128 * (1 << base_log) * big,
                    "q {q} theta {theta} recomposed {recomposed}"
                );
            }
        }
    }
}

#[test]
fn rounded_weights_can_miss_half_a_step() {
    // q = 7, B = 2, one level: the weight round(7 / 2) is 4, and 5 decomposes
    // to the digit -1, which recomposes to 3.
    let decomposer = SignedDecomposerNonNative::<u8>::new(
        DecompositionBaseLog(1),
        DecompositionLevelCount(1),
        CiphertextModulus::try_new(7).unwrap(),
    )
    .unwrap();
    let mut terms = decomposer.decompose(5);
    let term = terms.next_term().unwrap();
    assert_eq!(term.value(), 6);
    assert_eq!(term.to_recomposition_summand(), 3);
    assert_eq!(decomposer.recompose(decomposer.decompose(5)), 3);
}

#[test]
fn non_native_zero_decomposes_to_zeros() {
    let decomposer = SignedDecomposerNonNative::<u64>::new(
        DecompositionBaseLog(7),
        DecompositionLevelCount(5),
        CiphertextModulus::try_new(SOLINAS).unwrap(),
    )
    .unwrap();
    let mut terms = decomposer.decompose(0);
    let mut count = 0;
    while let Some(term) = terms.next_term() {
        assert_eq!(term.value(), 0);
        assert_eq!(term.to_recomposition_summand(), 0);
        count += 1;
    }
    assert_eq!(count, 5);
    assert_eq!(decomposer.recompose(decomposer.decompose(0)), 0);
    // A multiple of the modulus is zero modulo the modulus.
    let small = SignedDecomposerNonNative::<u8>::new(
        DecompositionBaseLog(2),
        DecompositionLevelCount(2),
        CiphertextModulus::try_new(100).unwrap(),
    )
    .unwrap();
    assert_eq!(small.recompose(small.decompose(200)), 0);
}

#[test]
fn non_native_near_the_top_of_the_range() {
    // The modulus is one below 2^64 and the digits take 63 bits: the scaled
    // value takes 127 bits of the scratch type.
    let q = u64::MAX as u128;
    let decomposer = SignedDecomposerNonNative::<u64>::new(
        DecompositionBaseLog(9),
        DecompositionLevelCount(7),
        CiphertextModulus::try_new(q).unwrap(),
    )
    .unwrap();
    for theta in [u64::MAX, u64::MAX - 1, u64::MAX - 2, 1 << 63, (1 << 63) - 1, 1, 0] {
        let mut terms = decomposer.decompose(theta);
        let mut count = 0;
        while let Some(term) = terms.next_term() {
            let stored = term.value() as u128;
            let signed: i128 = if 2 * stored >= q { stored as i128 - q as i128 } else { stored as i128 };
            assert!((-256..=255).contains(&signed));
            count += 1;
        }
        assert_eq!(count, 7);
        let recomposed = decomposer.recompose(decomposer.decompose(theta)) as u128;
        let distance = circular_distance(recomposed, theta as u128 % q, q);
        assert!(4 * (1u128 << 63) * distance <= 2 * q + 7 * 512 * (1u128 << 63));
    }
    let solinas = SignedDecomposerNonNative::<u64>::new(
        DecompositionBaseLog(21),
        DecompositionLevelCount(3),
        CiphertextModulus::try_new(SOLINAS).unwrap(),
    )
    .unwrap();
    let theta = (SOLINAS - 1) as u64;
    let recomposed = solinas.recompose(solinas.decompose(theta)) as u128;
    assert!(circular_distance(recomposed, theta as u128, SOLINAS) <= 2);
}

#[test]
fn non_native_decomposition_is_deterministic() {
    let decomposer = SignedDecomposerNonNative::<u64>::new(
        DecompositionBaseLog(8),
        DecompositionLevelCount(4),
        CiphertextModulus::try_new(SOLINAS).unwrap(),
    )
    .unwrap();
    let mut first = decomposer.decompose(0x0123_4567_89ab_cdef);
    let mut second = decomposer.clone().decompose(0x0123_4567_89ab_cdef);
    assert_eq!(first, second);
    loop {
        let a = first.next_term();
        let b = second.next_term();
        assert_eq!(a, b);
        if a.is_none() {
            break;
        }
    }
}

#[test]
fn non_native_getters() {
    let q = CiphertextModulus::<u32>::try_new(1_000_003).unwrap();
    let decomposer =
        SignedDecomposerNonNative::new(DecompositionBaseLog(3), DecompositionLevelCount(5), q)
            .unwrap();
    assert_eq!(decomposer.base_log(), DecompositionBaseLog(3));
    assert_eq!(decomposer.level_count(), DecompositionLevelCount(5));
    assert_eq!(decomposer.ciphertext_modulus(), q);
    assert_eq!(decomposer.ciphertext_modulus().get_custom_modulus(), 1_000_003);
}
