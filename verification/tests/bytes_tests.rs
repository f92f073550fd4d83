use chainstate::bytes::{u128_to_bytes, u128s_to_u8s, u64_to_bytes, u8s_to_u128s, U128_SIZE};

#[test]
fn u64_to_bytes_is_little_endian() {
    assert_eq!(u64_to_bytes(0x0102030405060708), vec![8, 7, 6, 5, 4, 3, 2, 1]);
    assert_eq!(u64_to_bytes(0), vec![0; 8]);
    assert_eq!(u64_to_bytes(u64::MAX), vec![255; 8]);
    assert_eq!(u64_to_bytes(258), vec![2, 1, 0, 0, 0, 0, 0, 0]);
}

#[test]
fn u64_to_bytes_agrees_with_std() {
    for value in [0u64, 1, 255, 256, 0xdead_beef, u64::MAX - 1] {
        assert_eq!(u64_to_bytes(value), value.to_le_bytes().to_vec());
    }
}

#[test]
fn u128_to_bytes_is_little_endian() {
    let mut expected = vec![0u8; 16];
    expected[0] = 0x10;
    expected[15] = 0x01;
    assert_eq!(u128_to_bytes(0x0100_0000_0000_0000_0000_0000_0000_0010), expected);
    assert_eq!(u128_to_bytes(u128::MAX), vec![255; 16]);
    assert_eq!(u128_to_bytes(0x0203).len(), U128_SIZE);
}

#[test]
fn u128_to_bytes_agrees_with_std() {
    for value in [0u128, 1, 1 << 64, 0x0123_4567_89ab_cdef_0011_2233_4455_6677, u128::MAX] {
        assert_eq!(u128_to_bytes(value), value.to_le_bytes().to_vec());
    }
}

#[test]
fn u128s_to_u8s_concatenates_words() {
    let bytes = u128s_to_u8s(&[1, 0x0302]);
    let mut expected = vec![0u8; 32];
    expected[0] = 1;
    expected[16] = 2;
    expected[17] = 3;
    assert_eq!(bytes, expected);
    assert_eq!(u128s_to_u8s(&[]), Vec::<u8>::new());
}

#[test]
fn u8s_to_u128s_pads_last_word() {
    assert_eq!(u8s_to_u128s(&[1, 2, 3]), vec![0x030201]);
    let mut seventeen = vec![0u8; 17];
    seventeen[0] = 5;
    seventeen[16] = 9;
    assert_eq!(u8s_to_u128s(&seventeen), vec![5, 9]);
    assert_eq!(u8s_to_u128s(&[255; 16]), vec![u128::MAX]);
}

#[test]
fn u8s_to_u128s_of_nothing_is_nothing() {
    assert_eq!(u8s_to_u128s(&[]), Vec::<u128>::new());
}

#[test]
fn words_round_trip_through_bytes() {
    let words = vec![0u128, 1, u128::MAX, 0x0123_4567_89ab_cdef_0011_2233_4455_6677];
    assert_eq!(u8s_to_u128s(&u128s_to_u8s(&words)), words);
}
