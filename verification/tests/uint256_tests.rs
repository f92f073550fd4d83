use chainstate::uint256::{u256, u256_to_bytes, u256_to_hex, U256};

fn word(l0: u64, l1: u64, l2: u64, l3: u64) -> U256 {
    U256 { l0, l1, l2, l3 }
}

#[test]
fn u256_keeps_the_value() {
    assert_eq!(u256(0), word(0, 0, 0, 0));
    assert_eq!(u256(5), word(5, 0, 0, 0));
    assert_eq!(u256(1 << 64), word(0, 1, 0, 0));
    assert_eq!(u256(u128::MAX), word(u64::MAX, u64::MAX, 0, 0));
}

#[test]
fn zero_and_max_value() {
    assert_eq!(U256::zero(), word(0, 0, 0, 0));
    assert_eq!(U256::max_value(), word(u64::MAX, u64::MAX, u64::MAX, u64::MAX));
}

#[test]
fn u256_to_bytes_is_big_endian() {
    let bytes = u256_to_bytes(u256(0x0102));
    let mut expected = vec![0u8; 32];
    expected[30] = 1;
    expected[31] = 2;
    assert_eq!(bytes, expected);
    let high = u256_to_bytes(word(0, 0, 0, 0xab00_0000_0000_0000));
    assert_eq!(high[0], 0xab);
    assert_eq!(high[1..], [0u8; 31]);
    assert_eq!(u256_to_bytes(word(0x11, 0x22, 0x33, 0x44))[7], 0x44);
    assert_eq!(u256_to_bytes(word(0x11, 0x22, 0x33, 0x44))[15], 0x33);
    assert_eq!(u256_to_bytes(word(0x11, 0x22, 0x33, 0x44))[23], 0x22);
    assert_eq!(u256_to_bytes(word(0x11, 0x22, 0x33, 0x44))[31], 0x11);
}

#[test]
fn u256_to_hex_has_sixty_four_digits() {
    let text = u256_to_hex(u256(255));
    assert_eq!(text.len(), 64);
    assert_eq!(text, format!("{}ff", "0".repeat(62)));
    assert_eq!(u256_to_hex(U256::max_value()), "f".repeat(64));
    assert_eq!(
        u256_to_hex(word(0x0123_4567_89ab_cdef, 0, 0, 0x1000_0000_0000_0000)),
        format!("1{}0123456789abcdef", "0".repeat(47))
    );
}

#[test]
fn checked_add_carries_and_overflows() {
    assert_eq!(u256(2).checked_add(u256(3)), Some(u256(5)));
    assert_eq!(word(u64::MAX, 0, 0, 0).checked_add(u256(1)), Some(word(0, 1, 0, 0)));
    assert_eq!(
        word(u64::MAX, u64::MAX, u64::MAX, 0).checked_add(u256(1)),
        Some(word(0, 0, 0, 1))
    );
    assert_eq!(U256::max_value().checked_add(u256(1)), None);
    assert_eq!(U256::max_value().checked_add(u256(0)), Some(U256::max_value()));
}

#[test]
fn checked_sub_borrows_and_underflows() {
    assert_eq!(u256(5).checked_sub(u256(3)), Some(u256(2)));
    assert_eq!(word(0, 1, 0, 0).checked_sub(u256(1)), Some(word(u64::MAX, 0, 0, 0)));
    assert_eq!(u256(3).checked_sub(u256(5)), None);
    assert_eq!(u256(3).checked_sub(u256(3)), Some(u256(0)));
}

#[test]
fn checked_div_rounds_down_and_refuses_zero() {
    assert_eq!(u256(7).checked_div(u256(2)), Some(u256(3)));
    assert_eq!(word(0, 0, 0, 1).checked_div(word(0, 1, 0, 0)), Some(word(0, 0, 1, 0)));
    assert_eq!(u256(7).checked_div(u256(0)), None);
    assert_eq!(u256(1).checked_div(u256(2)), Some(u256(0)));
}

#[test]
fn gt_orders_words_as_numbers() {
    assert!(word(0, 0, 0, 1).gt(word(u64::MAX, u64::MAX, u64::MAX, 0)));
    assert!(!word(u64::MAX, u64::MAX, u64::MAX, 0).gt(word(0, 0, 0, 1)));
    assert!(u256(2).gt(u256(1)));
    assert!(!u256(1).gt(u256(1)));
    assert!(!u256(1).gt(u256(2)));
}

#[test]
fn from_le_bytes_reads_least_significant_first() {
    assert_eq!(U256::from_le_bytes(&[1, 2]), Some(u256(0x0201)));
    assert_eq!(U256::from_le_bytes(&[]), Some(u256(0)));
    assert_eq!(U256::from_le_bytes(&[255; 32]), Some(U256::max_value()));
    let mut bytes = [0u8; 32];
    bytes[8] = 7;
    bytes[31] = 9;
    assert_eq!(U256::from_le_bytes(&bytes), Some(word(0, 7, 0, 9 << 56)));
}

#[test]
fn from_le_bytes_refuses_more_than_a_word() {
    assert_eq!(U256::from_le_bytes(&[0; 33]), None);
}

#[test]
fn words_agree_with_primitive_types() {
    let a = word(0x1111, 0x2222, 0x3333, 0x4444);
    let b = word(u64::MAX, 7, 0, 1);
    let x = primitive_types::U256([a.l0, a.l1, a.l2, a.l3]);
    let y = primitive_types::U256([b.l0, b.l1, b.l2, b.l3]);
    let sum = a.checked_add(b).unwrap();
    assert_eq!(primitive_types::U256([sum.l0, sum.l1, sum.l2, sum.l3]), x + y);
    let quotient = a.checked_div(b).unwrap();
    assert_eq!(primitive_types::U256([quotient.l0, quotient.l1, quotient.l2, quotient.l3]), x / y);
    assert_eq!(a.gt(b), x > y);
}
