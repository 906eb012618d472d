use cryptopals::aes::{ecb_decrypt, ecb_encrypt};
use cryptopals::blocks::{byte_repeats_exist, pad_to};
use cryptopals::cbc::{cbc_decrypt, cbc_encrypt};
use cryptopals::encoding::{from_hex_string, to_base, HEX_MAP};

fn hex(s: &str) -> Vec<u8> {
    from_hex_string(&s.to_string())
}

#[test]
fn pad_to_appends_count_bytes() {
    let mut x = b"YELLOW SUBMARINE".to_vec();
    pad_to(&mut x, 20);
    assert_eq!(x, b"YELLOW SUBMARINE\x04\x04\x04\x04".to_vec());
}

#[test]
fn pad_to_block_15() {
    let mut x = b"YELLOW SUBMARINE".to_vec();
    pad_to(&mut x, 15);
    let mut expected = b"YELLOW SUBMARINE".to_vec();
    expected.extend(vec![14u8; 14]);
    assert_eq!(x, expected);
}

#[test]
fn pad_to_aligned_adds_nothing() {
    let mut x = b"YELLOW SUBMARINE".to_vec();
    pad_to(&mut x, 16);
    assert_eq!(x, b"YELLOW SUBMARINE".to_vec());
    let mut e: Vec<u8> = Vec::new();
    pad_to(&mut e, 8);
    assert!(e.is_empty());
}

#[test]
fn pad_to_count_taken_modulo_256() {
    let mut x = vec![1u8];
    pad_to(&mut x, 258);
    assert_eq!(x.len(), 258);
    assert_eq!(x[1], 1);
}

#[test]
fn byte_repeats_exist_finds_equal_blocks() {
    assert!(byte_repeats_exist(&b"abcdXXXXabcd".to_vec(), 4));
    assert!(!byte_repeats_exist(&b"abcdXXXXabce".to_vec(), 4));
    assert!(!byte_repeats_exist(&b"abcdabc".to_vec(), 4));
    assert!(byte_repeats_exist(&b"aa".to_vec(), 1));
}

#[test]
fn ecb_encrypt_fips197_vector() {
    let key = hex("000102030405060708090a0b0c0d0e0f");
    let plain = hex("00112233445566778899aabbccddeeff");
    let mut out = vec![0u8; 16];
    ecb_encrypt(&plain, &mut out, &key);
    assert_eq!(to_base(&out, &HEX_MAP), "69c4e0d86a7b0430d8cdb78070b4c55a");
    let mut back = vec![0u8; 16];
    ecb_decrypt(&out, &mut back, &key);
    assert_eq!(back, plain);
}

#[test]
fn ecb_encrypt_leaves_partial_block() {
    let key = hex("000102030405060708090a0b0c0d0e0f");
    let mut plain = hex("00112233445566778899aabbccddeeff");
    plain.extend(vec![1u8, 2, 3]);
    let mut out = vec![7u8; 19];
    ecb_encrypt(&plain, &mut out, &key);
    assert_eq!(to_base(&out[..16].to_vec(), &HEX_MAP), "69c4e0d86a7b0430d8cdb78070b4c55a");
    assert_eq!(&out[16..], &[7u8, 7, 7]);
}

#[test]
fn cbc_roundtrip_pads() {
    let key = b"YELLOW SUBMARINE".to_vec();
    let iv = vec![0u8; 16];
    let mut bin = b"Hello, CBC mode! This is a test.".to_vec();
    bin.push(b'!');
    let before = bin.clone();
    let c = cbc_encrypt(&mut bin, &iv, &key);
    assert_eq!(bin.len(), 48);
    assert_eq!(&bin[..33], &before[..]);
    assert_eq!(&bin[33..], &[15u8; 15]);
    assert_eq!(c.len(), 48);
    assert_eq!(cbc_decrypt(&c, &iv, &key), bin);
}

#[test]
fn cbc_first_block_is_ecb_of_plain_xor_iv() {
    let key = hex("000102030405060708090a0b0c0d0e0f");
    let iv = vec![0u8; 16];
    let mut bin = hex("00112233445566778899aabbccddeeff");
    let c = cbc_encrypt(&mut bin, &iv, &key);
    assert_eq!(to_base(&c, &HEX_MAP), "69c4e0d86a7b0430d8cdb78070b4c55a");
}

#[test]
fn cbc_decrypt_zero_fills_partial_chunk() {
    let key = b"YELLOW SUBMARINE".to_vec();
    let iv = vec![3u8; 16];
    let mut bin = b"sixteen bytes!!!".to_vec();
    let mut c = cbc_encrypt(&mut bin, &iv, &key);
    c.extend(vec![9u8, 9]);
    let p = cbc_decrypt(&c, &iv, &key);
    assert_eq!(&p[..16], b"sixteen bytes!!!");
    assert_eq!(&p[16..], &[0u8, 0]);
}

#[test]
fn cbc_prefix_depends_only_on_prefix() {
    let key = b"YELLOW SUBMARINE".to_vec();
    let iv = b"0123456789abcdef".to_vec();
    let mut p1 = b"The same first block, then one ending".to_vec();
    let mut p2 = b"The same first bQQQQQQQQQQQQQQQQQQQQQQQQQQQQQQQQQQQQQQQQQQQQ".to_vec();
    let c1 = cbc_encrypt(&mut p1, &iv, &key);
    let c2 = cbc_encrypt(&mut p2, &iv, &key);
    assert_eq!(&c1[..16], &c2[..16]);
    assert_ne!(&c1[16..32], &c2[16..32]);
}
