//! Recovering XOR keys: the best single-byte key of hexadecimal texts, and a
//! repeating key of known length broken column by column; Hamming distances
//! that rank key lengths.

use vstd::prelude::*;
use crate::freq::{
    best_candidate, candidate_score, decodable, decode_repeating_char_xor, key_candidates,
};
use crate::serial::{decode_hex, hex_decode_strict, DecodeError};
use crate::xor::{repeating_key_xor, repeating_seq_xor, single_byte_xor};

verus! {

/// The key byte that `decode_repeating_char_xor` picks for `data`.
pub open spec fn best_key(data: Seq<u8>) -> u8 {
    key_candidates()[best_candidate(data, key_candidates().len() as int)]
}

/// The score of `data` decoded with its best key.
pub open spec fn best_score(data: Seq<u8>) -> int {
    candidate_score(data, best_key(data))
}

/// The bytes of a line of hexadecimal text, if it is valid.
pub open spec fn line_bytes(line: String) -> Option<Seq<u8>> {
    hex_decode_strict(vstd::utf8::encode_utf8(line@))
}

/// Every line is valid hexadecimal.
pub open spec fn all_hex(lines: Seq<String>) -> bool {
    forall|k: int| 0 <= k < lines.len() ==> (#[trigger] line_bytes(lines[k])) is Some
}

/// Every valid line can be scored without overflow.
pub open spec fn lines_decodable(lines: Seq<String>) -> bool {
    forall|k: int|
        0 <= k < lines.len() ==> match #[trigger] line_bytes(lines[k]) {
            Some(v) => decodable(v),
            None => true,
        }
}

/// The best score of a valid line.
pub open spec fn line_score(line: String) -> int {
    best_score(line_bytes(line).unwrap())
}

/// Among the first `n` lines, the first one whose score beats every earlier
/// line and zero, if any does.
pub open spec fn best_line(lines: Seq<String>, n: int) -> Option<int>
    decreases n,
{
    if n <= 0 {
        None
    } else {
        let b = best_line(lines, n - 1);
        let m = match b {
            None => 0,
            Some(k) => line_score(lines[k]),
        };
        if line_score(lines[n - 1]) > m {
            Some(n - 1)
        } else {
            b
        }
    }
}

proof fn lemma_best_line_range(lines: Seq<String>, n: int)
    ensures
        best_line(lines, n) matches Some(k) ==> 0 <= k < n,
    decreases n,
{
    if n > 0 {
        lemma_best_line_range(lines, n - 1);
    }
}

/// `best_line` is the first line with the highest score, when that score is
/// above zero: no line among the first `n` scores more than it does, every
/// line before it scores less, and when there is none, no line scores above
/// zero.
pub proof fn law_best_line_is_first_max(lines: Seq<String>, n: int)
    requires
        0 <= n,
    ensures
        match best_line(lines, n) {
            None => forall|k: int| 0 <= k < n ==> #[trigger] line_score(lines[k]) <= 0,
            Some(b) => {
                &&& 0 <= b < n
                &&& line_score(lines[b]) > 0
                &&& forall|k: int| 0 <= k < n ==> #[trigger] line_score(lines[k]) <= line_score(lines[b])
                &&& forall|k: int| 0 <= k < b ==> #[trigger] line_score(lines[k]) < line_score(lines[b])
            },
        },
    decreases n,
{
    if n > 0 {
        law_best_line_is_first_max(lines, n - 1);
    }
}

/// Decodes a hexadecimal text and recovers its single-byte XOR key: returns
/// the decoding, the key and its score, or `InvalidHex`.
pub fn decode_hex_single_byte_xor(hex: &str) -> (r: Result<(Vec<u8>, u8, i32), DecodeError>)
    requires
        hex_decode_strict(vstd::utf8::encode_utf8(hex@)) matches Some(v) ==> decodable(v),
    ensures
        match hex_decode_strict(vstd::utf8::encode_utf8(hex@)) {
            None => r == Err::<(Vec<u8>, u8, i32), DecodeError>(DecodeError::InvalidHex),
            Some(v) => r matches Ok(t) && t.0@ == single_byte_xor(v, best_key(v)) && t.1 == best_key(v)
                && t.2 == best_score(v),
        },
{
    let encoded_bytes: Vec<u8> = decode_hex(hex)?;
    Ok(decode_repeating_char_xor(&encoded_bytes))
}

/// Finds, among lines of hexadecimal text, the one whose single-byte XOR
/// decoding scores best (above zero; the first of equal scores), and returns
/// that line, its score and its decoding; an empty line, zero and nothing
/// when no line scores above zero. Fails with `InvalidHex` when a line is not
/// valid hexadecimal.
pub fn best_single_byte_xor_line(lines: &Vec<String>) -> (r: Result<(String, i32, Vec<u8>), DecodeError>)
    requires
        lines_decodable(lines@),
    ensures
        !all_hex(lines@) ==> r == Err::<(String, i32, Vec<u8>), DecodeError>(DecodeError::InvalidHex),
        all_hex(lines@) ==> (r matches Ok(t) && match best_line(lines@, lines@.len() as int) {
            None => t.0@ == Seq::<char>::empty() && t.1 == 0 && t.2@ == Seq::<u8>::empty(),
            Some(k) => t.0@ == lines@[k]@ && t.1 == line_score(lines@[k])
                && t.2@ == single_byte_xor(line_bytes(lines@[k]).unwrap(), best_key(line_bytes(lines@[k]).unwrap())),
        }),
        all_hex(lines@) ==> (r matches Ok(t) && 0 <= t.1 && forall|k: int|
            0 <= k < lines@.len() ==> #[trigger] line_score(lines@[k]) <= t.1),
{
    let mut max_score: i32 = 0;
    let mut best_line_str: String = String::new();
    let mut best_decode: Vec<u8> = Vec::new();
    let mut i: usize = 0;
    while i < lines.len()
        invariant
            lines_decodable(lines@),
            i <= lines@.len(),
            forall|k: int| 0 <= k < i ==> (#[trigger] line_bytes(lines@[k])) is Some,
            match best_line(lines@, i as int) {
                None => best_line_str@ == Seq::<char>::empty() && max_score == 0 && best_decode@ == Seq::<u8>::empty(),
                Some(k) => best_line_str@ == lines@[k]@ && max_score == line_score(lines@[k])
                    && best_decode@ == single_byte_xor(line_bytes(lines@[k]).unwrap(), best_key(line_bytes(lines@[k]).unwrap())),
            },
        decreases lines@.len() - i,
    {
        let line_str: &String = &lines[i];
        let ghost lb = line_bytes(lines@[i as int]);
        let bytes: Vec<u8> = match decode_hex(line_str.as_str()) {
            Ok(v) => v,
            Err(e) => {
                proof {
                    assert(line_bytes(lines@[i as int]) is None);
                }
                return Err(e);
            },
        };
        proof {
            assert(lb == Some(bytes@));
            assert(decodable(bytes@));
            lemma_best_line_range(lines@, i as int);
        }
        let (decoded_line, _, score) = decode_repeating_char_xor(&bytes);
        if score > max_score {
            max_score = score;
            best_line_str = line_str.clone();
            best_decode = decoded_line;
        }
        i += 1;
    }
    proof {
        law_best_line_is_first_max(lines@, lines@.len() as int);
    }
    Ok((best_line_str, max_score, best_decode))
}


/// Bit `k` of `a` and bit `k` of `b` differ.
pub open spec fn bit_differs(a: u8, b: u8, k: u8) -> bool {
    (a >> k) & 1u8 != (b >> k) & 1u8
}

/// How many of the bit positions `k..8` differ between `a` and `b`.
pub open spec fn bits_differing_from(a: u8, b: u8, k: u8) -> nat
    decreases 8 - k,
{
    if k >= 8 {
        0
    } else {
        bits_differing_from(a, b, (k + 1) as u8) + if bit_differs(a, b, k) { 1nat } else { 0nat }
    }
}

/// The number of bit positions in which `a` and `b` differ.
pub open spec fn bit_distance(a: u8, b: u8) -> nat {
    bits_differing_from(a, b, 0)
}

/// The sum of the bit distances of the bytes of `v1` and the bytes at the
/// same positions of `v2`.
pub open spec fn hamming(v1: Seq<u8>, v2: Seq<u8>) -> nat
    decreases v1.len(),
{
    if v1.len() == 0 {
        0
    } else {
        hamming(v1.drop_last(), v2) + bit_distance(v1.last(), v2[v1.len() - 1])
    }
}

proof fn lemma_bits_differing_bound(a: u8, b: u8, k: u8)
    requires
        k <= 8,
    ensures
        bits_differing_from(a, b, k) <= 8 - k,
    decreases 8 - k,
{
    if k < 8 {
        lemma_bits_differing_bound(a, b, (k + 1) as u8);
    }
}

proof fn lemma_hamming_bound(v1: Seq<u8>, v2: Seq<u8>)
    ensures
        hamming(v1, v2) <= 8 * v1.len(),
    decreases v1.len(),
{
    if v1.len() > 0 {
        lemma_hamming_bound(v1.drop_last(), v2);
        lemma_bits_differing_bound(v1.last(), v2[v1.len() - 1], 0);
    }
}

proof fn lemma_bits_differing_symmetric(a: u8, b: u8, k: u8)
    ensures
        bits_differing_from(a, b, k) == bits_differing_from(b, a, k),
        bits_differing_from(a, a, k) == 0,
    decreases 8 - k,
{
    if k < 8 {
        lemma_bits_differing_symmetric(a, b, (k + 1) as u8);
    }
}

/// The Hamming distance is symmetric, and zero from a buffer to itself.
pub proof fn law_hamming_symmetric(v1: Seq<u8>, v2: Seq<u8>)
    requires
        v1.len() == v2.len(),
    ensures
        hamming(v1, v2) == hamming(v2, v1),
        hamming(v1, v1) == 0,
    decreases v1.len(),
{
    if v1.len() > 0 {
        let n = v1.len() - 1;
        law_hamming_symmetric(v1.drop_last(), v2.drop_last());
        lemma_hamming_prefix(v1.drop_last(), v2);
        lemma_hamming_prefix(v2.drop_last(), v1);
        lemma_hamming_prefix(v1.drop_last(), v1);
        lemma_bits_differing_symmetric(v1[n], v2[n], 0);
    }
}

/// The Hamming distance only looks at the front of its second argument.
proof fn lemma_hamming_prefix(v1: Seq<u8>, v2: Seq<u8>)
    requires
        v2.len() >= v1.len(),
    ensures
        hamming(v1, v2) == hamming(v1, v2.take(v1.len() as int)),
    decreases v1.len(),
{
    if v1.len() > 0 {
        lemma_hamming_prefix(v1.drop_last(), v2);
        lemma_hamming_prefix(v1.drop_last(), v2.take(v1.len() as int));
        assert(v2.take(v1.len() as int).take(v1.drop_last().len() as int) =~= v2.take(v1.drop_last().len() as int));
    }
}

/// The number of bit positions in which two bytes differ.
pub fn ham_d(a: u8, b: u8) -> (score: u32)
    ensures
        score == bit_distance(a, b),
{
    let mut mask: u8 = 128;
    let ghost mut k: u8 = 8;
    let mut score: u32 = 0;
    proof {
        assert(128u8 == 1u8 << 7u8) by (bit_vector);
    }
    while mask > 0
        invariant
            k <= 8,
            k > 0 ==> mask == 1u8 << (k - 1) as u8,
            k == 0 ==> mask == 0,
            score == bits_differing_from(a, b, k),
            score <= 8 - k,
        decreases k,
    {
        proof {
            if k == 0 {
                assert(false);
            }
            let kk: u8 = (k - 1) as u8;
            assert((mask & a != mask & b) == bit_differs(a, b, kk)) by (bit_vector)
                requires
                    kk < 8,
                    mask == 1u8 << kk,
            ;
            assert(mask >> 1u8 == if kk == 0 { 0u8 } else { 1u8 << (kk - 1) as u8 }) by (bit_vector)
                requires
                    kk < 8,
                    mask == 1u8 << kk,
            ;
            lemma_bits_differing_bound(a, b, kk);
        }
        if mask & a != mask & b {
            score += 1;
        }
        mask = mask >> 1;
        proof {
            k = (k - 1) as u8;
        }
    }
    proof {
        if k > 0 {
            let kk: u8 = (k - 1) as u8;
            assert(1u8 << kk != 0) by (bit_vector)
                requires
                    kk < 8,
            ;
        }
    }
    score
}

/// The Hamming distance of `v1` and the front of `v2`: the number of bit
/// positions in which they differ.
pub fn hamming_distance(v1: &[u8], v2: &[u8]) -> (d: u128)
    requires
        v2@.len() >= v1@.len(),
    ensures
        d == hamming(v1@, v2@),
{
    let mut d: u128 = 0;
    let mut i: usize = 0;
    proof {
        assert(v1@.take(0) =~= Seq::<u8>::empty());
    }
    while i < v1.len()
        invariant
            v2@.len() >= v1@.len(),
            i <= v1@.len(),
            d == hamming(v1@.take(i as int), v2@),
        decreases v1@.len() - i,
    {
        proof {
            assert(v1@.take(i + 1).drop_last() =~= v1@.take(i as int));
            lemma_hamming_bound(v1@.take(i + 1), v2@);
            assert(v1@.take(i + 1).len() == i + 1);
            assert(8 * (i + 1) <= u128::MAX);
        }
        d += ham_d(v1[i], v2[i]) as u128;
        i += 1;
    }
    proof {
        assert(v1@.take(v1@.len() as int) =~= v1@);
    }
    d
}

/// The sum of the Hamming distances between the first four blocks of
/// `keysize` bytes of `bin`, taken in a ring (first to second, ..., fourth
/// to first); smaller totals suggest the length of a repeating XOR key.
pub fn keysize_distance(bin: &Vec<u8>, keysize: usize) -> (total: u128)
    requires
        4 * keysize <= bin@.len(),
    ensures
        ({
            let b = |k: int| bin@.subrange(k * keysize, (k + 1) * keysize);
            total == hamming(b(0), b(1)) + hamming(b(1), b(2)) + hamming(b(2), b(3)) + hamming(b(3), b(0))
        }),
{
    let len: usize = bin.len();
    let i: usize = keysize;
    let b0: &[u8] = &bin.as_slice()[0..i];
    let b1: &[u8] = &bin.as_slice()[i..2 * i];
    let b2: &[u8] = &bin.as_slice()[2 * i..3 * i];
    let b3: &[u8] = &bin.as_slice()[3 * i..4 * i];
    proof {
        lemma_hamming_bound(b0@, b1@);
        lemma_hamming_bound(b1@, b2@);
        lemma_hamming_bound(b2@, b3@);
        lemma_hamming_bound(b3@, b0@);
    }
    let mut ham_dist: u128 = hamming_distance(b0, b1);
    ham_dist += hamming_distance(b1, b2);
    ham_dist += hamming_distance(b2, b3);
    ham_dist += hamming_distance(b3, b0);
    ham_dist
}

/// How many positions `i, i + ks, i + 2 ks, ...` lie below `len`.
pub open spec fn column_len(len: nat, ks: nat, i: nat) -> nat {
    if i >= len {
        0
    } else {
        ((len - i - 1) as nat / ks + 1) as nat
    }
}

/// The bytes of `s` at positions `i, i + ks, i + 2 ks, ...`: those that a
/// repeating key of length `ks` XORs with its byte `i`.
pub open spec fn column(s: Seq<u8>, ks: nat, i: nat) -> Seq<u8> {
    Seq::new(column_len(s.len(), ks, i), |t: int| s[i + t * ks])
}

fn column_of(bin: &Vec<u8>, ks: usize, i: usize) -> (col: Vec<u8>)
    requires
        ks > 0,
    ensures
        col@ == column(bin@, ks as nat, i as nat),
{
    let len: usize = bin.len();
    let mut col: Vec<u8> = Vec::new();
    if i >= len {
        proof {
            assert(col@ =~= column(bin@, ks as nat, i as nat));
        }
        return col;
    }
    let mut j: usize = i;
    let ghost mut t: int = 0;
    loop
        invariant
            len == bin@.len(),
            ks > 0,
            i < len,
            0 <= t,
            j == i + t * ks,
            j < len,
            col@ == Seq::new(t as nat, |u: int| bin@[i + u * ks]),
        decreases len - j,
    {
        col.push(bin[j]);
        proof {
            assert(col@ =~= Seq::new((t + 1) as nat, |u: int| bin@[i + u * ks]));
        }
        if len - j <= ks {
            proof {
                let q = (len - i - 1) as int / ks as int;
                vstd::arithmetic::div_mod::lemma_fundamental_div_mod((len - i - 1) as int, ks as int);
                assert(q == t) by (nonlinear_arith)
                    requires
                        len - i - 1 == ks * q + (len - i - 1) as int % ks as int,
                        0 <= (len - i - 1) as int % (ks as int),
                        (len - i - 1) as int % (ks as int) < ks,
                        j == i + t * ks,
                        j < len,
                        len - j <= ks,
                        ks > 0,
                ;
                t = t + 1;
                assert(col@ =~= column(bin@, ks as nat, i as nat));
            }
            return col;
        }
        j += ks;
        proof {
            t = t + 1;
            assert(j == i + t * ks) by (nonlinear_arith)
                requires
                    j == i + (t - 1) * ks + ks,
            ;
        }
    }
}

/// The key bytes that breaking a repeating XOR of key length `ks` finds:
/// for each key position, the best single-byte key of its column.
pub open spec fn repeating_key_guess(s: Seq<u8>, ks: nat) -> Seq<u8> {
    Seq::new(ks, |i: int| best_key(column(s, ks, i as nat)))
}

/// Every column can be scored without overflow.
pub open spec fn columns_decodable(s: Seq<u8>, ks: nat) -> bool {
    forall|i: int| 0 <= i < ks ==> decodable(#[trigger] column(s, ks, i as nat))
}

/// Breaks a repeating-key XOR of key length `keysize`: recovers each key
/// byte as the best single-byte key of its column, and returns the key and
/// `bin` decoded with it.
pub fn break_repeating_key_xor(bin: &Vec<u8>, keysize: usize) -> (r: (Vec<u8>, Vec<u8>))
    requires
        keysize > 0,
        columns_decodable(bin@, keysize as nat),
    ensures
        r.0@ == repeating_key_guess(bin@, keysize as nat),
        r.1@ == repeating_key_xor(bin@, r.0@),
{
    let mut seq: Vec<u8> = Vec::new();
    let mut i: usize = 0;
    while i < keysize
        invariant
            keysize > 0,
            columns_decodable(bin@, keysize as nat),
            i <= keysize,
            seq@ == repeating_key_guess(bin@, keysize as nat).take(i as int),
        decreases keysize - i,
    {
        let block: Vec<u8> = column_of(bin, keysize, i);
        proof {
            let ii: int = i as int;
            assert(decodable(column(bin@, keysize as nat, ii as nat)));
        }
        let (_, best_key_byte, _) = decode_repeating_char_xor(&block);
        seq.push(best_key_byte);
        i += 1;
        proof {
            assert(seq@ =~= repeating_key_guess(bin@, keysize as nat).take(i as int));
        }
    }
    proof {
        assert(seq@ =~= repeating_key_guess(bin@, keysize as nat));
    }
    let mut result: Vec<u8> = vec![0; bin.len()];
    repeating_seq_xor(bin.as_slice(), &mut result, seq.as_slice());
    proof {
        assert(result@ =~= repeating_key_xor(bin@, seq@));
    }
    (seq, result)
}
} // verus!
