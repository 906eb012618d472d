use cryptopals::encoding::{from_hex_string, to_base, HEX_MAP};
use cryptopals::xor::{repeating_char_xor, repeating_seq_xor, set_vec, set_xor_slice, xor_vecs};

#[test]
fn fixed_xor_known_answer() {
    let a = from_hex_string(&"1c0111001f010100061a024b53535009181c".to_string());
    let b = from_hex_string(&"686974207468652062756c6c277320657965".to_string());
    let x = xor_vecs(&a[..], &b[..]);
    assert_eq!(to_base(&x, &HEX_MAP), "746865206b696420646f6e277420706c6179");
}

#[test]
fn xor_vecs_truncates_to_shorter() {
    assert_eq!(xor_vecs(&[1, 2, 3], &[1, 1]), vec![0, 3]);
}

#[test]
fn set_xor_slice_leaves_tail() {
    let mut into = [9u8, 9, 9, 9];
    set_xor_slice(&[1, 2], &[3, 3, 3], &mut into);
    assert_eq!(into, [2, 1, 9, 9]);
}

#[test]
fn repeating_seq_xor_ice() {
    let plain = b"Burning 'em, if you ain't quick and nimble\nI go crazy when I hear a cymbal";
    let mut out = vec![0u8; plain.len()];
    repeating_seq_xor(plain, &mut out, b"ICE");
    assert_eq!(to_base(&out, &HEX_MAP),
        "0b3637272a2b2e63622c2e69692a23693a2a3c6324202d623d63343c2a26226324272765272a282b2f20430a652e2c652a3124333a653e2b2027630c692b20283165286326302e27282f");
    let mut back = vec![0u8; plain.len()];
    repeating_seq_xor(&out, &mut back, b"ICE");
    assert_eq!(back, plain.to_vec());
}

#[test]
fn repeating_char_xor_twice_is_identity() {
    let v = vec![1u8, 2, 250];
    let mut r = vec![0u8; 4];
    repeating_char_xor(&v, &mut r, &7);
    assert_eq!(r, vec![6, 5, 253, 0]);
    let mut r2 = vec![0u8; 3];
    repeating_char_xor(&r[..3].to_vec(), &mut r2, &7);
    assert_eq!(r2, v);
}

#[test]
fn set_vec_copies_front() {
    let mut d = vec![0u8; 4];
    set_vec(&vec![5, 6], &mut d);
    assert_eq!(d, vec![5, 6, 0, 0]);
}
