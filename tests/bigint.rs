use collatz_range::bigint::{bigint_mult, BigInt};

fn value(b: BigInt) -> u128 {
    ((b.high as u128) << 64) | b.low as u128
}

#[test]
fn add_carries_into_high_word() {
    let b = BigInt { low: u64::MAX, high: 0 };
    assert_eq!(b.checked_add(1), Some(BigInt { low: 0, high: 1 }));
}

#[test]
fn add_overflows_at_top() {
    let b = BigInt { low: u64::MAX, high: u64::MAX };
    assert_eq!(b.checked_add(1), None);
}

#[test]
fn add_without_carry() {
    let b = BigInt { low: 5, high: 7 };
    assert_eq!(b.checked_add(10), Some(BigInt { low: 15, high: 7 }));
}

#[test]
fn add_large_operand_with_carry() {
    let b = BigInt { low: u64::MAX - 2, high: 9 };
    let r = b.checked_add(u32::MAX).unwrap();
    assert_eq!(value(r), value(b) + u32::MAX as u128);
}

#[test]
fn mul_small_values() {
    let b = BigInt { low: 12345, high: 0 };
    assert_eq!(b.checked_mul(3), Some(BigInt { low: 37035, high: 0 }));
}

#[test]
fn mul_carries_out_of_low_word() {
    let b = BigInt { low: u64::MAX, high: 2 };
    let r = b.checked_mul(81).unwrap();
    assert_eq!(value(r), value(b) * 81);
}

#[test]
fn mul_by_largest_operand() {
    let b = BigInt { low: 0xdead_beef_cafe_f00d, high: 0x1234 };
    let r = b.checked_mul(u32::MAX).unwrap();
    assert_eq!(value(r), value(b) * u32::MAX as u128);
}

#[test]
fn mul_overflows_in_high_word() {
    let b = BigInt { low: 0, high: u64::MAX / 2 };
    assert_eq!(b.checked_mul(3), None);
}

#[test]
fn mul_overflows_through_carry() {
    let b = BigInt { low: u64::MAX, high: u64::MAX / 3 };
    assert_eq!(b.checked_mul(3), None);
}

#[test]
fn mul_by_zero() {
    let b = BigInt { low: 77, high: 99 };
    assert_eq!(b.checked_mul(0), Some(BigInt { low: 0, high: 0 }));
}

#[test]
fn shift_moves_high_bits_down() {
    let mut b = BigInt { low: 0x10, high: 0b101 };
    b.shr_assign(4);
    assert_eq!(b, BigInt { low: 0x5000_0000_0000_0001, high: 0 });
}

#[test]
fn shift_by_zero_keeps_value() {
    let mut b = BigInt { low: 3, high: 4 };
    b.shr_assign(0);
    assert_eq!(b, BigInt { low: 3, high: 4 });
}

#[test]
fn shift_by_63() {
    let mut b = BigInt { low: u64::MAX, high: u64::MAX };
    b.shr_assign(63);
    assert_eq!(value(b), u128::MAX >> 63);
}

#[test]
fn trailing_zeros_removed_from_low_word() {
    let b = BigInt { low: 0b1011_0000, high: 1 };
    let r = b.remove_trailing_zeros();
    assert_eq!(value(r), value(b) >> 4);
    assert_eq!(r.low % 2, 1);
}

#[test]
fn trailing_zeros_across_the_word_boundary() {
    let b = BigInt { low: 0, high: 0b1100 };
    let r = b.remove_trailing_zeros();
    assert_eq!(r, BigInt { low: 0b11, high: 0 });
}

#[test]
fn trailing_zeros_of_odd_and_zero_values() {
    let odd = BigInt { low: 7, high: 3 };
    assert_eq!(odd.remove_trailing_zeros(), odd);
    let zero = BigInt { low: 0, high: 0 };
    assert_eq!(zero.remove_trailing_zeros(), zero);
}

#[test]
fn remove_trailing_zeros_twice_is_no_op() {
    let b = BigInt { low: 0x8000_0000_0000_0000, high: 0x40 };
    let once = b.remove_trailing_zeros();
    let twice = once.remove_trailing_zeros();
    assert_eq!(once, twice);
    assert_eq!(value(once), value(b) >> value(b).trailing_zeros());
}

#[test]
fn wide_multiply_gives_both_words() {
    let (high, low) = bigint_mult(u64::MAX, u64::MAX);
    assert_eq!(((high as u128) << 64) | low as u128, u64::MAX as u128 * u64::MAX as u128);
    let (high, low) = bigint_mult(0x1_0000_0001, 0xffff_ffff_0000_0003);
    assert_eq!(
        ((high as u128) << 64) | low as u128,
        0x1_0000_0001u128 * 0xffff_ffff_0000_0003u128
    );
    assert_eq!(bigint_mult(0, 12), (0, 0));
}
