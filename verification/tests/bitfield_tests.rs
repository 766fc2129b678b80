use beacon_chain_indexer::bitfield::calculate_missed_attestations;
use beacon_chain_indexer::errors::DecodeError;

#[test]
fn all_ones_bitfield_has_no_missed_attestations() {
    // 0xff -> 11111111: every committee member attested
    assert_eq!(calculate_missed_attestations("0xff"), Ok(0));
}

#[test]
fn all_zero_bitfield_collapses_to_single_zero_bit() {
    // the big-integer rendering of zero is "0": one zero bit survives
    assert_eq!(calculate_missed_attestations("0x00"), Ok(1));
}

#[test]
fn mixed_bitfield_counts_zero_bits() {
    // 0x8f -> 10001111: three zero bits
    assert_eq!(calculate_missed_attestations("0x8f"), Ok(3));
}

#[test]
fn leading_zero_bits_of_top_digit_are_lost() {
    // 0x01 has value 1 -> "1": the seven leading zero bits vanish
    assert_eq!(calculate_missed_attestations("0x01"), Ok(0));
    // 0x0a has value 10 -> "1010": two zero bits remain
    assert_eq!(calculate_missed_attestations("0x0a"), Ok(2));
}

#[test]
fn prefix_is_optional() {
    assert_eq!(calculate_missed_attestations("ff"), Ok(0));
    assert_eq!(calculate_missed_attestations("8f"), Ok(3));
}

#[test]
fn upper_case_digits_decode() {
    assert_eq!(calculate_missed_attestations("0xFF"), Ok(0));
    assert_eq!(calculate_missed_attestations("0xA0"), Ok(6));
}

#[test]
fn long_bitfield_decodes() {
    // 0xfff...f (32 f's): 128 one bits, no zeros
    let s = format!("0x{}", "f".repeat(32));
    assert_eq!(calculate_missed_attestations(&s), Ok(0));
    // 0x8000...0 (31 zeros after the 8): 1000...0 in binary, 127 zero bits
    let s = format!("0x8{}", "0".repeat(31));
    assert_eq!(calculate_missed_attestations(&s), Ok(127));
}

#[test]
fn malformed_hex_fails_with_decode_error() {
    assert_eq!(calculate_missed_attestations("0xzz"), Err(DecodeError));
    assert_eq!(calculate_missed_attestations("12g4"), Err(DecodeError));
    assert_eq!(calculate_missed_attestations(""), Err(DecodeError));
    assert_eq!(calculate_missed_attestations("0x"), Err(DecodeError));
    // the lenient big-integer parser would accept these; the decoder does not
    assert_eq!(calculate_missed_attestations("+ff"), Err(DecodeError));
    assert_eq!(calculate_missed_attestations("f_f"), Err(DecodeError));
}
