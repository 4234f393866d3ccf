use gadget_decomposition::numeric::ScratchInteger;
use gadget_decomposition::rounding::divide_round;

#[test]
fn quotients_round_to_nearest() {
    assert_eq!(divide_round(0, 1), 0);
    assert_eq!(divide_round(7, 1), 7);
    assert_eq!(divide_round(7, 2), 4);
    assert_eq!(divide_round(6, 4), 2);
    assert_eq!(divide_round(5, 4), 1);
    assert_eq!(divide_round(7, 3), 2);
    assert_eq!(divide_round(8, 3), 3);
    assert_eq!(divide_round(4, 3), 1);
    assert_eq!(divide_round(1, 3), 0);
    assert_eq!(divide_round(2, 3), 1);
    assert_eq!(divide_round(u128::MAX, 1), u128::MAX);
    assert_eq!(divide_round(u128::MAX, 2), 1 << 127);
    assert_eq!(divide_round(u128::MAX, u128::MAX), 1);
    assert_eq!(divide_round(u128::MAX - 1, u128::MAX), 1);
    assert_eq!(divide_round(1 << 126, u128::MAX), 0);
    assert_eq!(divide_round((1 << 64) - (1 << 32) + 1, 1 << 16), (1 << 48) - (1 << 16));
}

#[test]
fn scratch_casts() {
    assert_eq!(0xabu8.to_scratch(), 0xab);
    assert_eq!(u64::MAX.to_scratch(), u64::MAX as u128);
    assert_eq!(<u8 as ScratchInteger>::from_scratch(0x1ff), 0xff);
    assert_eq!(<u16 as ScratchInteger>::from_scratch(0x1_2345), 0x2345);
    assert_eq!(<u32 as ScratchInteger>::from_scratch(u128::MAX), u32::MAX);
    assert_eq!(<u64 as ScratchInteger>::from_scratch(1 << 64), 0);
    assert_eq!(<u64 as ScratchInteger>::from_scratch(77), 77);
}
