use cryptopals::analysis::{
    best_single_byte_xor_line, break_repeating_key_xor, decode_hex_single_byte_xor, ham_d,
    hamming_distance, keysize_distance,
};
use cryptopals::serial::{bin_from_b64_lines, decode_hex, repeating_key_xor_hex, DecodeError};

#[test]
fn repeating_key_xor_hex_known_answer() {
    let plain = b"Burning 'em, if you ain't quick and nimble\nI go crazy when I hear a cymbal";
    assert_eq!(repeating_key_xor_hex(plain, b"ICE"),
        "0b3637272a2b2e63622c2e69692a23693a2a3c6324202d623d63343c2a26226324272765272a282b2f20430a652e2c652a3124333a653e2b2027630c692b20283165286326302e27282f");
}

#[test]
fn decode_hex_skips_spaces_and_rejects_bad_text() {
    assert_eq!(decode_hex("0a 0B\n"), Ok(vec![10, 11]));
    assert_eq!(decode_hex("zz"), Err(DecodeError::InvalidHex));
    assert_eq!(decode_hex("abc"), Err(DecodeError::InvalidHex));
}

#[test]
fn bin_from_b64_lines_joins_and_decodes() {
    let lines = vec!["SGVsbG8s".to_string(), "IFdvcmxk".to_string()];
    assert_eq!(bin_from_b64_lines(&lines), Ok(b"Hello, World".to_vec()));
    let bad = vec!["SGV*".to_string()];
    assert_eq!(bin_from_b64_lines(&bad), Err(DecodeError::InvalidBase64));
}

#[test]
fn decode_hex_single_byte_xor_known_answer() {
    let r = decode_hex_single_byte_xor("1b37373331363f78151b7f2b783431333d78397828372d363c78373e783a393b3736");
    assert_eq!(r, Ok((b"Cooking MC's like a pound of bacon".to_vec(), 88, 19)));
    assert_eq!(decode_hex_single_byte_xor("xyz"), Err(DecodeError::InvalidHex));
}

#[test]
fn best_single_byte_xor_line_picks_best() {
    let lines = vec![
        "0000".to_string(),
        "1b37373331363f78151b7f2b783431333d78397828372d363c78373e783a393b3736".to_string(),
    ];
    let (line, score, decoded) = best_single_byte_xor_line(&lines).unwrap();
    assert_eq!(line, lines[1]);
    assert_eq!(score, 19);
    assert_eq!(decoded, b"Cooking MC's like a pound of bacon".to_vec());
    let bad = vec!["00".to_string(), "q".to_string()];
    assert_eq!(best_single_byte_xor_line(&bad), Err(DecodeError::InvalidHex));
    let none: Vec<String> = Vec::new();
    assert_eq!(best_single_byte_xor_line(&none), Ok((String::new(), 0, Vec::new())));
}

#[test]
fn hamming_distance_known_answer() {
    assert_eq!(hamming_distance(b"this is a test", b"wokka wokka!!!"), 37);
    assert_eq!(ham_d(0, 255), 8);
    assert_eq!(ham_d(0b1010, 0b0110), 2);
}

#[test]
fn break_repeating_key_xor_recovers_ice() {
    let text = b"Burning 'em, if you ain't quick and nimble\nI go crazy when I hear a cymbal. We are all made of stardust and the ocean is deep and wide; that is what the teacher said to the class of eager students.".to_vec();
    let key = b"ICE";
    let enc: Vec<u8> = text.iter().enumerate().map(|(i, c)| key[i % 3] ^ c).collect();
    assert_eq!(keysize_distance(&enc, 3), 36);
    let (k, plain) = break_repeating_key_xor(&enc, 3);
    assert_eq!(k, b"ICE".to_vec());
    assert_eq!(plain, text);
}
