use cryptopals::freq::{calc_freqs, decode_repeating_char_xor, score_freqs};

#[test]
fn calc_freqs_counts_letters_and_other() {
    let mut f = vec![7u32; 30];
    calc_freqs(&b"Hello, World".to_vec(), &mut f);
    let mut expected = vec![0u32; 30];
    expected[3] = 1;
    expected[4] = 1;
    expected[7] = 1;
    expected[11] = 3;
    expected[14] = 2;
    expected[17] = 1;
    expected[22] = 1;
    assert_eq!(f, expected);
    let mut g = vec![0u32; 27];
    calc_freqs(&b"a1!".to_vec(), &mut g);
    assert_eq!(g[0], 1);
    assert_eq!(g[26], 2);
}

#[test]
fn score_freqs_empty_table_scores_first_round_as_a() {
    assert_eq!(score_freqs(&vec![0u32; 27]), 8);
}

#[test]
fn score_freqs_ties_alternate() {
    let mut f = vec![0u32; 27];
    f[4] = 5;
    f[19] = 5;
    assert_eq!(score_freqs(&f), 54);
    f[26] = 2;
    assert_eq!(score_freqs(&f), 44);
}

#[test]
fn score_freqs_hello_world() {
    let mut f = vec![0u32; 27];
    calc_freqs(&b"Hello, World".to_vec(), &mut f);
    assert_eq!(score_freqs(&f), 31);
}

#[test]
fn decode_single_byte_xor_known_answer() {
    let enc = cryptopals::encoding::from_hex_string(
        &"1b37373331363f78151b7f2b783431333d78397828372d363c78373e783a393b3736".to_string());
    let (dec, key, score) = decode_repeating_char_xor(&enc);
    assert_eq!(dec, b"Cooking MC's like a pound of bacon".to_vec());
    assert_eq!(key, 88);
    assert_eq!(score, 19);
}

#[test]
fn decode_hello_world_picks_first_best() {
    let (dec, key, score) = decode_repeating_char_xor(&b"Hello, World".to_vec());
    assert_eq!(dec, b"hELLO\x0c\x00wORLD".to_vec());
    assert_eq!(key, 32);
    assert_eq!(score, 21);
}

#[test]
fn calc_freqs_letters_only_fit_in_26_slots() {
    let mut f = vec![9u32; 26];
    calc_freqs(&b"ab B, a.".to_vec(), &mut f);
    let mut expected = vec![0u32; 26];
    expected[0] = 2;
    expected[1] = 2;
    assert_eq!(f, expected);
}

#[test]
fn score_freqs_unchanged_by_scaling_letter_counts() {
    let mut f = vec![0u32; 27];
    f[4] = 5;
    f[19] = 3;
    f[0] = 3;
    f[25] = 1;
    f[26] = 2;
    let mut g = f.clone();
    for j in 0..26 {
        g[j] = f[j] * 7;
    }
    g.push(99);
    assert_eq!(score_freqs(&f), 36);
    assert_eq!(score_freqs(&g), score_freqs(&f));
}
