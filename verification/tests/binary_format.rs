use pretty_bytes_typed::{pretty_bytes_binary, pretty_bytes_signed_binary, ByteValuesBinary};

#[test]
fn test_pretty_bytes_binary() {
    // Test '0'
    assert_eq!(pretty_bytes_binary(0, None).to_string(), "0 B");

    // Test all unit values
    assert_eq!(pretty_bytes_binary(1024_u64.pow(0), None).to_string(), "1 B");
    assert_eq!(pretty_bytes_binary(1024_u64.pow(1), None).to_string(), "1 KiB");
    assert_eq!(pretty_bytes_binary(1024_u64.pow(2), None).to_string(), "1 MiB");
    assert_eq!(pretty_bytes_binary(1024_u64.pow(3), None).to_string(), "1 GiB");
    assert_eq!(pretty_bytes_binary(1024_u64.pow(4), None).to_string(), "1 TiB");
    assert_eq!(pretty_bytes_binary(1024_u64.pow(5), None).to_string(), "1 PiB");
    assert_eq!(pretty_bytes_binary(1024_u64.pow(6), None).to_string(), "1 EiB");

    // Test rounding
    assert_eq!(pretty_bytes_binary(5014, Some(2)).to_string(), "4.9 KiB");
}

#[test]
fn binary_exact_expansion() {
    // 5014 / 1024 has a terminating decimal expansion, kept exactly
    assert_eq!(pretty_bytes_binary(5014, None).to_string(), "4.896484375 KiB");
    assert_eq!(pretty_bytes_binary(3_195_498, Some(2)).to_string(), "3.05 MiB");
}

#[test]
fn binary_suffix_values() {
    assert_eq!(pretty_bytes_binary(1_048_576, None).suffix, ByteValuesBinary::MiB);
    assert_eq!(pretty_bytes_binary(1023, None).suffix, ByteValuesBinary::B);
    assert_eq!(pretty_bytes_binary(u64::MAX, None).suffix, ByteValuesBinary::EiB);
}

#[test]
fn signed_binary_formatting() {
    assert_eq!(pretty_bytes_signed_binary(-1_048_576, None).to_string(), "-1 MiB");
    assert_eq!(pretty_bytes_signed_binary(1_048_576, None).to_string(), "1 MiB");
    assert_eq!(pretty_bytes_signed_binary(0, Some(4)).to_string(), "0 B");
    assert_eq!(pretty_bytes_signed_binary(-5014, Some(2)).to_string(), "-4.9 KiB");
}

#[test]
fn magnitude_can_be_rounded_again() {
    let p = pretty_bytes_binary(5014, None);
    // 4.896484375 rounded to ever fewer places, half away from zero
    assert_eq!(p.num.round_to(4).rendered(), "4.8965");
    assert_eq!(p.num.round_to(2).rendered(), "4.9");
    assert_eq!(p.num.round_to(1).rendered(), "4.9");
    assert_eq!(p.num.round_to(0).rendered(), "5");
    // rounding an already-rounded value to the same or more places is a no-op
    let once = p.num.round_to(2);
    assert_eq!(once.round_to(2).rendered(), "4.9");
    assert_eq!(once.round_to(7).rendered(), "4.9");
}

#[test]
fn rounding_carries_through_nines() {
    // 1023.999 KiB-style carry: 1048575 / 1024 = 1023.9990234375
    assert_eq!(pretty_bytes_binary(1_048_575, Some(3)).to_string(), "1023.999 KiB");
    assert_eq!(pretty_bytes_binary(1_048_575, Some(2)).to_string(), "1024 KiB");
}
