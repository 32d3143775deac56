use pretty_bytes_typed::{pretty_bytes, pretty_bytes_signed, ByteValues};

#[test]
fn test_pretty_bytes() {
    // Test '0'
    assert_eq!(pretty_bytes(0, None).to_string(), "0 B");

    assert_eq!(pretty_bytes(5_430, None).to_string(), "5.43 KB");

    // Test all unit values
    assert_eq!(pretty_bytes(1000_u64.pow(0), None).to_string(), "1 B");
    assert_eq!(pretty_bytes(1000_u64.pow(1), None).to_string(), "1 KB");
    assert_eq!(pretty_bytes(1000_u64.pow(2), None).to_string(), "1 MB");
    assert_eq!(pretty_bytes(1000_u64.pow(3), None).to_string(), "1 GB");
    assert_eq!(pretty_bytes(1000_u64.pow(4), None).to_string(), "1 TB");
    assert_eq!(pretty_bytes(1000_u64.pow(5), None).to_string(), "1 PB");
    assert_eq!(pretty_bytes(1000_u64.pow(6), None).to_string(), "1 EB");

    // Test extra large values (near u64::MAX)
    assert_eq!(pretty_bytes(18_000_000_000_000_000_000, None).to_string(), "18 EB");

    // Various other tests
    assert_eq!(pretty_bytes(50060, None).to_string(), "50.06 KB");
    assert_eq!(pretty_bytes(736_532_432, None).to_string(), "736.532432 MB");

    // Test rounding
    assert_eq!(pretty_bytes(5003, Some(2)).to_string(), "5 KB");
    assert_eq!(pretty_bytes(8_452_020, Some(2)).to_string(), "8.45 MB");
    assert_eq!(pretty_bytes(55_700, Some(0)).to_string(), "56 KB");
}

#[test]
fn suffix_is_exposed_and_comparable() {
    assert_eq!(pretty_bytes(5_430, None).suffix, ByteValues::KB);
    assert_eq!(pretty_bytes(999, None).suffix, ByteValues::B);
    assert_eq!(pretty_bytes(1_000_000, None).suffix, ByteValues::MB);
}

#[test]
fn unit_is_monotonic_in_the_count() {
    let counts: [u64; 9] = [
        0,
        999,
        1_000,
        999_999,
        1_000_000,
        1_000_000_000,
        1_000_000_000_000,
        1_000_000_000_000_000,
        1_000_000_000_000_000_000,
    ];
    let expected: [ByteValues; 9] = [
        ByteValues::B,
        ByteValues::B,
        ByteValues::KB,
        ByteValues::KB,
        ByteValues::MB,
        ByteValues::GB,
        ByteValues::TB,
        ByteValues::PB,
        ByteValues::EB,
    ];
    for i in 0..counts.len() {
        assert_eq!(pretty_bytes(counts[i], None).suffix, expected[i]);
    }
}

#[test]
fn zero_ignores_the_rounding_argument() {
    assert_eq!(pretty_bytes(0, Some(0)).to_string(), "0 B");
    assert_eq!(pretty_bytes(0, Some(3)).to_string(), "0 B");
    assert_eq!(pretty_bytes(0, Some(255)).to_string(), "0 B");
}

#[test]
fn huge_rounding_argument_is_a_no_op() {
    assert_eq!(pretty_bytes(5_430, Some(255)).to_string(), "5.43 KB");
    assert_eq!(pretty_bytes_signed(-5_430, Some(200)).to_string(), "-5.43 KB");
}

#[test]
fn rounding_to_zero_places_rounds_half_up() {
    assert_eq!(pretty_bytes(1_500, Some(0)).to_string(), "2 KB");
    assert_eq!(pretty_bytes(1_499, Some(0)).to_string(), "1 KB");
    assert_eq!(pretty_bytes(999_999, Some(0)).to_string(), "1000 KB");
}

#[test]
fn signed_decimal_formatting() {
    assert_eq!(pretty_bytes_signed(-2_000_000, None).to_string(), "-2 MB");
    assert_eq!(pretty_bytes_signed(2_000_000, None).to_string(), "2 MB");
    assert_eq!(pretty_bytes_signed(0, None).to_string(), "0 B");
    assert_eq!(pretty_bytes_signed(-1, None).to_string(), "-1 B");
    assert_eq!(pretty_bytes_signed(i64::MIN, None).to_string(), "-9.223372036854775808 EB");
    assert_eq!(pretty_bytes_signed(i64::MAX, None).to_string(), "9.223372036854775807 EB");
}

#[test]
fn signed_symmetry_on_samples() {
    let samples: [i64; 5] = [1, 999, 5_430, 736_532_432, 1_000_000_000_000_000_000];
    for i in 0..samples.len() {
        let n = samples[i];
        let pos = pretty_bytes_signed(n, Some(3));
        let neg = pretty_bytes_signed(-n, Some(3));
        assert_eq!(pos.suffix, neg.suffix);
        assert_eq!(format!("-{}", pos.to_string()), neg.to_string());
    }
}
