use buffer_utils::buffer_utils::ManagedBufferUtils;
use buffer_utils::u64_utils::UtilsU64;

#[test]
fn to_hex_values() {
    assert_eq!(255u64.to_hex(), b"ff".to_vec());
    assert_eq!(0u64.to_hex(), b"00".to_vec());
    assert_eq!(1u64.to_hex(), b"01".to_vec());
    assert_eq!(0xabcu64.to_hex(), b"0abc".to_vec());
    assert_eq!(u64::MAX.to_hex(), b"ffffffffffffffff".to_vec());
}

#[test]
fn to_ascii_values() {
    assert_eq!(0u64.to_ascii(), b"0".to_vec());
    assert_eq!(7u64.to_ascii(), b"7".to_vec());
    assert_eq!(1234u64.to_ascii(), b"1234".to_vec());
    assert_eq!(u64::MAX.to_ascii(), b"18446744073709551615".to_vec());
}

#[test]
fn ascii_round_trip() {
    for n in [0u64, 1, 9, 10, 42, 1000, 987654321, u64::MAX - 1, u64::MAX] {
        assert_eq!(n.to_ascii().ascii_to_u64(), Ok(Some(n)));
    }
}

#[test]
fn hex_round_trip_and_shape() {
    for n in [0u64, 1, 15, 16, 255, 256, 0xdead_beef, u64::MAX] {
        let h = n.to_hex();
        assert_eq!(h.len() % 2, 0);
        assert!(h.iter().all(|c| c.is_ascii_digit() || (b'a'..=b'f').contains(c)));
        assert_eq!(h.hex_to_u64(), Ok(Some(n)));
    }
}
