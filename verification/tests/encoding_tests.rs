use cryptopals::encoding::{from_b64_string, from_hex_string, mylog2, to_base, B64_MAP, BIN_MAP, HEX_MAP};

#[test]
fn hex_to_base64_known_answer() {
    let hex = "49276d206b696c6c696e6720796f757220627261696e206c696b65206120706f69736f6e6f7573206d757368726f6f6d".to_string();
    let b64 = to_base(&from_hex_string(&hex), &B64_MAP);
    assert_eq!(b64, "SSdtIGtpbGxpbmcgeW91ciBicmFpbiBsaWtlIGEgcG9pc29ub3VzIG11c2hyb29t");
}

#[test]
fn from_hex_string_reads_pairs() {
    assert_eq!(from_hex_string(&"ff00A1".to_string()), vec![0xff, 0x00, 0xa1]);
    assert_eq!(from_hex_string(&"".to_string()), Vec::<u8>::new());
}

#[test]
fn from_hex_string_odd_length_gets_leading_zero() {
    assert_eq!(from_hex_string(&"abc".to_string()), vec![0x0a, 0xbc]);
    assert_eq!(from_hex_string(&"f".to_string()), vec![0x0f]);
}

#[test]
fn from_hex_string_non_digits_count_as_zero() {
    assert_eq!(from_hex_string(&"zz1g".to_string()), vec![0x00, 0x10]);
}

#[test]
fn to_base_hex_and_binary() {
    let ff = from_hex_string(&"FFFFFFFFFFFFFFFFFF".to_string());
    assert_eq!(to_base(&ff, &HEX_MAP), "ffffffffffffffffff");
    assert_eq!(to_base(&ff, &BIN_MAP), "1".repeat(72));
    assert_eq!(to_base(&ff, &B64_MAP), "////////////");
    assert_eq!(to_base(&vec![0x05], &HEX_MAP), "05");
}

#[test]
fn to_base_pads_front_with_zero_bits() {
    assert_eq!(to_base(&vec![0xff], &B64_MAP), "D/");
    assert_eq!(to_base(&vec![0x00, 0x01], &B64_MAP), "AAB");
    assert_eq!(to_base(&Vec::new(), &B64_MAP), "");
}

#[test]
fn from_b64_string_reads_a_number() {
    assert_eq!(from_b64_string(&"TWFu".to_string()), b"Man".to_vec());
    assert_eq!(from_b64_string(&"/w==".to_string()), vec![0xff, 0x00, 0x00]);
}

#[test]
fn from_b64_string_drops_leading_zero_bytes() {
    assert_eq!(from_b64_string(&"AAE".to_string()), vec![0x04]);
    assert_eq!(from_b64_string(&"AAAA".to_string()), Vec::<u8>::new());
}

#[test]
fn hex_roundtrip_through_to_base() {
    let bin = vec![0x00, 0x12, 0xab, 0xff, 0x7f];
    assert_eq!(from_hex_string(&to_base(&bin, &HEX_MAP)), bin);
}

#[test]
fn base64_roundtrip_through_to_base_strips_leading_zeros() {
    let bin = vec![0x00, 0x00, 0x12, 0xab, 0xff, 0x7f, 0x01];
    assert_eq!(from_b64_string(&to_base(&bin, &B64_MAP)), vec![0x12, 0xab, 0xff, 0x7f, 0x01]);
}

#[test]
fn mylog2_values() {
    assert_eq!(mylog2(0), 0);
    assert_eq!(mylog2(1), 0);
    assert_eq!(mylog2(2), 1);
    assert_eq!(mylog2(3), 1);
    assert_eq!(mylog2(16), 4);
    assert_eq!(mylog2(64), 6);
    assert_eq!(mylog2(127), 6);
}

#[test]
fn base64_of_concatenation_with_whole_groups() {
    assert_eq!(to_base(&vec![0x01], &B64_MAP), "AB");
    assert_eq!(to_base(&b"Man".to_vec(), &B64_MAP), "TWFu");
    assert_eq!(to_base(&b"\x01Man".to_vec(), &B64_MAP), "ABTWFu");
    let a = b"Hi!!".to_vec();
    let b = b"Man".to_vec();
    let mut ab = a.clone();
    ab.extend_from_slice(&b);
    assert_eq!(to_base(&ab, &B64_MAP), to_base(&a, &B64_MAP) + &to_base(&b, &B64_MAP));
    assert_eq!(to_base(&ab, &B64_MAP), "BIaSEhTWFu");
}
