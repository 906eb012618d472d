use cryptopals::blocks::byte_repeats_exist;
use cryptopals::cbc::cbc_decrypt;
use cryptopals::oracle::{ecb_or_cbc_oracle, encrypt_ecb_or_cbc, oracle_plaintext, rand_encrypt_ecb_or_cbc};

#[test]
fn oracle_plaintext_is_he_repeated() {
    let t = oracle_plaintext();
    assert_eq!(t.len(), 272);
    assert_eq!(&t[..4], b"HEHE");
}

#[test]
fn encrypt_ecb_or_cbc_builds_plaintext() {
    let key = b"YELLOW SUBMARINE".to_vec();
    let iv = vec![1u8; 16];
    let mut bin = b"abc".to_vec();
    let c = encrypt_ecb_or_cbc(&mut bin, &key, &iv, &vec![1, 2], &vec![9], false);
    let mut expected = vec![2u8, 1, b'a', b'b', b'c', 9];
    expected.extend(vec![10u8; 10]);
    assert_eq!(bin, expected);
    assert_eq!(cbc_decrypt(&c, &iv, &key), expected);
}

#[test]
fn ecb_oracle_output_repeats_blocks() {
    let key = b"YELLOW SUBMARINE".to_vec();
    let mut bin = oracle_plaintext();
    let c = encrypt_ecb_or_cbc(&mut bin, &key, &vec![0u8; 16], &vec![7u8; 5], &vec![8u8; 6], true);
    assert_eq!(c.len(), bin.len());
    assert!(byte_repeats_exist(&c, 16));
}

#[test]
fn ecb_or_cbc_oracle_detects_ecb() {
    assert_eq!(ecb_or_cbc_oracle(5, 9, true), Some(true));
    assert_eq!(ecb_or_cbc_oracle(7, 5, false), Some(false));
}

#[test]
fn rand_encrypt_lengths() {
    let mut bin = b"0123456789".to_vec();
    let c = rand_encrypt_ecb_or_cbc(&mut bin, 5, 6, true).unwrap();
    assert_eq!(bin.len(), 32);
    assert_eq!(&bin[5..15], b"0123456789");
    assert_eq!(c.len(), 32);
}
