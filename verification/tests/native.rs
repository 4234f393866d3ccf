use gadget_decomposition::error::ConfigurationError;
use gadget_decomposition::native::SignedDecomposer;
use gadget_decomposition::numeric::UnsignedInteger;
use gadget_decomposition::parameters::{
    DecompositionBaseLog, DecompositionLevel, DecompositionLevelCount,
};

fn decomposer_u8(base_log: usize, level_count: usize) -> SignedDecomposer<u8> {
    SignedDecomposer::new(DecompositionBaseLog(base_log), DecompositionLevelCount(level_count))
        .unwrap()
}

fn digits_u8(decomposer: &SignedDecomposer<u8>, theta: u8) -> Vec<i8> {
    let mut terms = decomposer.decompose(theta);
    let mut digits = Vec::new();
    while let Some(term) = terms.next_term() {
        digits.push(term.value() as i8);
    }
    digits
}

#[test]
fn first_term_of_two_to_the_nineteen() {
    let decomposer =
        SignedDecomposer::<u32>::new(DecompositionBaseLog(4), DecompositionLevelCount(3)).unwrap();
    let output = decomposer.decompose(2u32.pow(19)).next_term().unwrap();
    assert_eq!(output.to_recomposition_summand(), 1048576);
    assert_eq!(output.value(), 1);
    assert_eq!(output.level(), DecompositionLevel(3));
    assert_eq!(output.base_log(), DecompositionBaseLog(4));
}

#[test]
fn all_terms_of_two_to_the_nineteen() {
    let decomposer =
        SignedDecomposer::<u32>::new(DecompositionBaseLog(4), DecompositionLevelCount(3)).unwrap();
    let mut terms = decomposer.decompose(2u32.pow(19));
    let third = terms.next_term().unwrap();
    let second = terms.next_term().unwrap();
    let first = terms.next_term().unwrap();
    assert!(terms.next_term().is_none());
    assert!(terms.next_term().is_none());
    assert_eq!((third.level(), third.value()), (DecompositionLevel(3), 1));
    assert_eq!((second.level(), second.value()), (DecompositionLevel(2), 0));
    assert_eq!((first.level(), first.value()), (DecompositionLevel(1), 0));
    assert_eq!(second.to_recomposition_summand(), 0);
    assert_eq!(decomposer.closest_representable(2u32.pow(19)), 1 << 20);
    assert_eq!(decomposer.recompose(decomposer.decompose(2u32.pow(19))), 1 << 20);
}

#[test]
fn native_configuration_errors() {
    assert_eq!(
        SignedDecomposer::<u32>::new(DecompositionBaseLog(0), DecompositionLevelCount(3))
            .unwrap_err(),
        ConfigurationError::ZeroBaseLog
    );
    assert_eq!(
        SignedDecomposer::<u32>::new(DecompositionBaseLog(0), DecompositionLevelCount(0))
            .unwrap_err(),
        ConfigurationError::ZeroBaseLog
    );
    assert_eq!(
        SignedDecomposer::<u32>::new(DecompositionBaseLog(4), DecompositionLevelCount(0))
            .unwrap_err(),
        ConfigurationError::ZeroLevelCount
    );
    assert_eq!(
        SignedDecomposer::<u32>::new(DecompositionBaseLog(4), DecompositionLevelCount(9))
            .unwrap_err(),
        ConfigurationError::TooManyBits
    );
    assert_eq!(
        SignedDecomposer::<u32>::new(DecompositionBaseLog(33), DecompositionLevelCount(1))
            .unwrap_err(),
        ConfigurationError::TooManyBits
    );
    assert_eq!(
        SignedDecomposer::<u64>::new(
            DecompositionBaseLog(usize::MAX),
            DecompositionLevelCount(usize::MAX)
        )
        .unwrap_err(),
        ConfigurationError::TooManyBits
    );
    assert!(
        SignedDecomposer::<u32>::new(DecompositionBaseLog(4), DecompositionLevelCount(8)).is_ok()
    );
    assert!(
        SignedDecomposer::<u32>::new(DecompositionBaseLog(32), DecompositionLevelCount(1)).is_ok()
    );
    assert!(
        SignedDecomposer::<u128>::new(DecompositionBaseLog(16), DecompositionLevelCount(8)).is_ok()
    );
    assert_eq!(
        SignedDecomposer::<u128>::new(DecompositionBaseLog(43), DecompositionLevelCount(3))
            .unwrap_err(),
        ConfigurationError::TooManyBits
    );
}

#[test]
fn native_getters() {
    let decomposer =
        SignedDecomposer::<u64>::new(DecompositionBaseLog(7), DecompositionLevelCount(4)).unwrap();
    assert_eq!(decomposer.base_log(), DecompositionBaseLog(7));
    assert_eq!(decomposer.level_count(), DecompositionLevelCount(4));
    assert_eq!(decomposer.clone(), decomposer);
}

#[test]
fn native_digits_by_hand() {
    // B = 4, two levels over eight bits: the step is 16.
    let decomposer = decomposer_u8(2, 2);
    // 0 rounds to 0: digits 0, 0.
    assert_eq!(digits_u8(&decomposer, 0), vec![0, 0]);
    // 16 is one step: digits 1, 0.
    assert_eq!(digits_u8(&decomposer, 16), vec![1, 0]);
    // 32 is two steps: the chunk 2 is B/2, so the digit is -2 and one is carried.
    assert_eq!(digits_u8(&decomposer, 32), vec![-2, 1]);
    // 48 is three steps: digit -1, carry.
    assert_eq!(digits_u8(&decomposer, 48), vec![-1, 1]);
    // 96 is six steps: chunk 2 gives -2 and a carry into the chunk 1, which
    // becomes 2, that is -2, and a carry that leaves the modulus.
    assert_eq!(digits_u8(&decomposer, 96), vec![-2, -2]);
    // 8 is the midpoint between 0 and 16: it rounds upwards.
    assert_eq!(digits_u8(&decomposer, 8), vec![1, 0]);
    assert_eq!(digits_u8(&decomposer, 7), vec![0, 0]);
    // 248 rounds up to 256, which is 0 modulo 2^8.
    assert_eq!(digits_u8(&decomposer, 248), vec![0, 0]);
    assert_eq!(decomposer.closest_representable(248), 0);
    assert_eq!(digits_u8(&decomposer, 247), vec![-1, 0]);
    assert_eq!(decomposer.closest_representable(247), 240);
}

#[test]
fn native_summands_by_hand() {
    let decomposer = decomposer_u8(2, 2);
    let mut terms = decomposer.decompose(96);
    let low = terms.next_term().unwrap();
    let high = terms.next_term().unwrap();
    // The digit -2 is stored as 254; at the level 2 it is shifted by 4 bits,
    // at the level 1 by 6 bits.
    assert_eq!(low.value(), 254);
    assert_eq!(low.to_recomposition_summand(), 224);
    assert_eq!(high.value(), 254);
    assert_eq!(high.to_recomposition_summand(), 128);
    assert_eq!(decomposer.recompose(decomposer.decompose(96)), 96);
}

#[test]
fn native_digits_are_balanced_and_counted() {
    for (base_log, level_count) in [(1, 1), (1, 8), (2, 4), (2, 3), (3, 2), (4, 2), (4, 1), (8, 1), (7, 1)] {
        let decomposer = decomposer_u8(base_log, level_count);
        let half = 1i16 << (base_log - 1);
        for theta in 0..=255u8 {
            let digits = digits_u8(&decomposer, theta);
            assert_eq!(digits.len(), level_count);
            for digit in digits {
                assert!(-half <= digit as i16 && digit as i16 <= half - 1);
            }
        }
    }
}

#[test]
fn native_levels_count_down() {
    let decomposer = decomposer_u8(2, 4);
    for theta in 0..=255u8 {
        let mut terms = decomposer.decompose(theta);
        for level in [4, 3, 2, 1] {
            assert_eq!(terms.next_term().unwrap().level(), DecompositionLevel(level));
        }
        assert!(terms.next_term().is_none());
    }
}

#[test]
fn native_round_trip_is_within_half_a_step() {
    for (base_log, level_count) in [(1, 1), (1, 8), (2, 4), (2, 3), (3, 2), (4, 2), (4, 1), (8, 1), (5, 1)] {
        let decomposer = decomposer_u8(base_log, level_count);
        let step = 1u16 << (8 - base_log * level_count);
        for theta in 0..=255u8 {
            let recomposed = decomposer.recompose(decomposer.decompose(theta));
            assert_eq!(recomposed, decomposer.closest_representable(theta));
            let forward = recomposed.wrapping_sub(theta) as u16;
            let backward = theta.wrapping_sub(recomposed) as u16;
            assert!(2 * forward.min(backward) <= step);
            assert_eq!(recomposed as u16 % step, 0);
        }
    }
}

#[test]
fn native_recomposition_is_the_sum_of_the_summands() {
    let decomposer =
        SignedDecomposer::<u64>::new(DecompositionBaseLog(5), DecompositionLevelCount(6)).unwrap();
    for theta in [0u64, 1, 0xdead_beef_cafe_f00d, u64::MAX, 1 << 63, (1 << 33) - 1, (1 << 33), 0x8000_0001_0000_0000] {
        let mut terms = decomposer.decompose(theta);
        let mut sum = 0u64;
        while let Some(term) = terms.next_term() {
            sum = sum.wrapping_add(term.to_recomposition_summand());
        }
        assert_eq!(sum, decomposer.recompose(decomposer.decompose(theta)));
        assert_eq!(sum, decomposer.closest_representable(theta));
    }
}

#[test]
fn native_recomposition_of_what_is_left() {
    let decomposer = decomposer_u8(2, 4);
    let mut terms = decomposer.decompose(0b0110_1101);
    let fourth = terms.next_term().unwrap();
    let rest = decomposer.recompose(terms);
    assert_eq!(
        rest.wrapping_add(fourth.to_recomposition_summand()),
        decomposer.recompose(decomposer.decompose(0b0110_1101))
    );
}

#[test]
fn native_zero_decomposes_to_zeros() {
    let decomposer =
        SignedDecomposer::<u128>::new(DecompositionBaseLog(9), DecompositionLevelCount(11))
            .unwrap();
    let mut terms = decomposer.decompose(0);
    let mut count = 0;
    while let Some(term) = terms.next_term() {
        assert_eq!(term.value(), 0);
        assert_eq!(term.to_recomposition_summand(), 0);
        count += 1;
    }
    assert_eq!(count, 11);
    assert_eq!(decomposer.closest_representable(0), 0);
}

#[test]
fn native_midpoint_carries() {
    let decomposer =
        SignedDecomposer::<u32>::new(DecompositionBaseLog(4), DecompositionLevelCount(3)).unwrap();
    // Half a step below 2^31 + 2^27 + 2^23: the rounding carries into the
    // lowest chunk, whose value 8 is B/2, and the carry runs through all
    // three chunks.
    let theta = 0x8880_0000u32 - (1 << 19);
    assert_eq!(decomposer.closest_representable(theta), 0x8880_0000);
    let mut terms = decomposer.decompose(theta);
    let values: Vec<u32> = [
        terms.next_term().unwrap().value(),
        terms.next_term().unwrap().value(),
        terms.next_term().unwrap().value(),
    ]
    .to_vec();
    assert_eq!(values, vec![(-8i32) as u32, (-7i32) as u32, (-7i32) as u32]);
    assert_eq!(decomposer.recompose(decomposer.decompose(theta)), 0x8880_0000);
}

#[test]
fn native_top_of_the_range_wraps() {
    let decomposer =
        SignedDecomposer::<u64>::new(DecompositionBaseLog(8), DecompositionLevelCount(4)).unwrap();
    // The largest value rounds up to 2^64, which is zero.
    assert_eq!(decomposer.closest_representable(u64::MAX), 0);
    assert_eq!(decomposer.recompose(decomposer.decompose(u64::MAX)), 0);
    let mut terms = decomposer.decompose(u64::MAX);
    while let Some(term) = terms.next_term() {
        assert_eq!(term.value(), 0);
    }
    // Just below the last midpoint the digits are -1, 0, 0, 0.
    let theta = u64::MAX - (1 << 31);
    assert_eq!(decomposer.closest_representable(theta), 0u64.wrapping_sub(1 << 32));
    let first = decomposer.decompose(theta).next_term().unwrap();
    assert_eq!(first.value(), u64::MAX);
    assert_eq!(first.to_recomposition_summand(), 0u64.wrapping_sub(1 << 32));
}

#[test]
fn native_full_width_decomposition_is_exact() {
    let decomposer =
        SignedDecomposer::<u32>::new(DecompositionBaseLog(8), DecompositionLevelCount(4)).unwrap();
    for theta in [0u32, 1, 0x7f, 0x80, 0xff, 0x1234_5678, 0x8080_8080, 0x7fff_ffff, u32::MAX] {
        assert_eq!(decomposer.closest_representable(theta), theta);
        assert_eq!(decomposer.recompose(decomposer.decompose(theta)), theta);
    }
    let whole =
        SignedDecomposer::<u16>::new(DecompositionBaseLog(16), DecompositionLevelCount(1)).unwrap();
    for theta in [0u16, 1, 0x7fff, 0x8000, 0xffff] {
        let term = whole.decompose(theta).next_term().unwrap();
        assert_eq!(term.value(), theta);
        assert_eq!(term.to_recomposition_summand(), theta);
    }
}

#[test]
fn native_decomposition_is_deterministic() {
    let decomposer =
        SignedDecomposer::<u64>::new(DecompositionBaseLog(6), DecompositionLevelCount(7)).unwrap();
    let mut first = decomposer.decompose(0xfeed_face_0bad_cafe);
    let mut second = decomposer.clone().decompose(0xfeed_face_0bad_cafe);
    assert_eq!(first, second);
    loop {
        let a = first.next_term();
        let b = second.next_term();
        assert_eq!(a, b);
        if a.is_none() {
            break;
        }
    }
}

#[test]
fn native_wide_integers() {
    let decomposer =
        SignedDecomposer::<u128>::new(DecompositionBaseLog(32), DecompositionLevelCount(4))
            .unwrap();
    let theta = 0x0000_0001_8000_0000_ffff_ffff_7fff_ffffu128;
    assert_eq!(decomposer.recompose(decomposer.decompose(theta)), theta);
    let mut terms = decomposer.decompose(theta);
    let values = [
        terms.next_term().unwrap().value(),
        terms.next_term().unwrap().value(),
        terms.next_term().unwrap().value(),
        terms.next_term().unwrap().value(),
    ];
    assert_eq!(values, [0x7fff_ffff, u128::MAX, 0u128.wrapping_sub(0x7fff_ffff), 2]);
}

#[test]
fn primitive_integers_wrap_and_shift() {
    assert_eq!(<u8 as UnsignedInteger>::bits(), 8);
    assert_eq!(<u16 as UnsignedInteger>::bits(), 16);
    assert_eq!(<u32 as UnsignedInteger>::bits(), 32);
    assert_eq!(<u64 as UnsignedInteger>::bits(), 64);
    assert_eq!(<u128 as UnsignedInteger>::bits(), 128);
    assert_eq!(<u32 as UnsignedInteger>::zero(), 0);
    assert_eq!(UnsignedInteger::wrapping_add(250u8, 10u8), 4);
    assert_eq!(UnsignedInteger::wrapping_sub(3u8, 10u8), 249);
    assert_eq!(UnsignedInteger::shift_left(0x81u8, 1), 2);
    assert_eq!(UnsignedInteger::shift_left(0x81u8, 8), 0);
    assert_eq!(UnsignedInteger::shift_left(0x81u8, 0), 0x81);
    assert_eq!(UnsignedInteger::shift_right(0x81u8, 7), 1);
    assert_eq!(UnsignedInteger::shift_right(0x81u8, 8), 0);
    assert_eq!(UnsignedInteger::shift_left(1u128, 127), 1 << 127);
    assert_eq!(UnsignedInteger::shift_left(3u128, 127), 1 << 127);
    assert_eq!(UnsignedInteger::shift_right(u128::MAX, 128), 0);
    assert_eq!(UnsignedInteger::shift_left(u64::MAX, 64), 0);
    assert_eq!(UnsignedInteger::shift_right(u64::MAX, 63), 1);
}
