//! Letter-frequency scoring of text and recovery of a single-byte XOR key.

use vstd::prelude::*;
use crate::xor::{single_byte_xor, repeating_char_xor, set_vec};

verus! {

/// The counter that a byte goes to: `0..=25` for the letters of either case,
/// `27` for a space, apostrophe, period or comma (not counted), and `26` for
/// anything else.
pub open spec fn letter_class(b: u8) -> int {
    if 97 <= b <= 122 {
        b - 97
    } else if 65 <= b <= 90 {
        b - 65
    } else if b == 32 || b == 39 || b == 46 || b == 44 {
        27
    } else {
        26
    }
}

/// How many bytes of `s` go to counter `j`.
pub open spec fn class_count(s: Seq<u8>, j: int) -> nat
    decreases s.len(),
{
    if s.len() == 0 {
        0
    } else {
        class_count(s.drop_last(), j) + if letter_class(s.last()) == j { 1nat } else { 0nat }
    }
}

/// Every counter of `s` fits in a `u32`.
pub open spec fn counts_fit(s: Seq<u8>) -> bool {
    forall|j: int| 0 <= j < 27 ==> #[trigger] class_count(s, j) <= u32::MAX
}

/// The 27 counters of `s`: one per letter, then the count of other bytes.
pub open spec fn freq_table(s: Seq<u8>) -> Seq<u32> {
    Seq::new(27, |j: int| class_count(s, j) as u32)
}

/// The points a letter earns when it is among the most frequent:
/// e, t, a, o, i, n, s, h, r, d, l.
pub open spec fn letter_weight(j: int) -> int {
    if j == 4 {
        12
    } else if j == 19 {
        9
    } else if j == 0 {
        8
    } else if j == 14 || j == 8 {
        7
    } else if j == 13 || j == 18 || j == 7 || j == 17 {
        6
    } else if j == 3 || j == 11 {
        4
    } else {
        0
    }
}

/// Letter `j` may be picked in a round whose previous pick was `pl` with
/// count `pm`: it occurs, at most `pm` times, and is not `pl` itself.
pub open spec fn eligible(f: Seq<u32>, pm: u32, pl: u32, j: int) -> bool {
    0 < f[j] && f[j] <= pm && j != pl as int
}

/// Among letters `0..n`, the first eligible one with the highest count.
pub open spec fn first_max(f: Seq<u32>, pm: u32, pl: u32, n: int) -> Option<int>
    decreases n,
{
    if n <= 0 {
        None
    } else {
        let b = first_max(f, pm, pl, n - 1);
        if eligible(f, pm, pl, n - 1) && (b is None || f[n - 1] > f[b.unwrap()]) {
            Some(n - 1)
        } else {
            b
        }
    }
}

/// One round of picking: the count and letter picked (when no letter is
/// eligible, count 0 and letter 0 in the first round, `u32::MAX` later).
pub open spec fn round_pick(f: Seq<u32>, pm: u32, pl: u32, first: bool) -> (u32, u32) {
    match first_max(f, pm, pl, 26) {
        Some(j) => (f[j], j as u32),
        None => (0u32, if first { 0u32 } else { u32::MAX }),
    }
}

/// Count, letter and points after `k` rounds.
pub open spec fn rounds(f: Seq<u32>, k: nat) -> (u32, u32, int)
    decreases k,
{
    if k == 0 {
        (u32::MAX, u32::MAX, 0)
    } else {
        let prev = rounds(f, (k - 1) as nat);
        let pick = round_pick(f, prev.0, prev.1, k == 1);
        (pick.0, pick.1, prev.2 + letter_weight(pick.1 as int))
    }
}

/// The points of five rounds of picking the most frequent letters.
pub open spec fn letter_score(f: Seq<u32>) -> int {
    rounds(f, 5).2
}

/// The score of a frequency table: the letter points minus five for each
/// byte that is neither a letter nor space or common punctuation, that count
/// taken as an `i32`.
pub open spec fn freq_score(f: Seq<u32>) -> int {
    letter_score(f) - (f[26] as i32) * 5
}

/// The score of a table can be computed without leaving the `i32` range.
pub open spec fn score_fits(f: Seq<u32>) -> bool {
    let x = f[26] as i32 as int;
    &&& i32::MIN <= x * 5 <= i32::MAX
    &&& i32::MIN <= letter_score(f) - x * 5 <= i32::MAX
}

proof fn lemma_class_count_prefix(s: Seq<u8>, i: int, n: int, j: int)
    requires
        0 <= i <= n <= s.len(),
    ensures
        class_count(s.take(i), j) <= class_count(s.take(n), j),
    decreases n - i,
{
    if i < n {
        lemma_class_count_prefix(s, i, n - 1, j);
        assert(s.take(n).drop_last() =~= s.take(n - 1));
    }
}

/// Counts the letters of `chars` (either case), ignores spaces, apostrophes,
/// periods and commas, and counts every other byte in slot 26; the other
/// slots of `letter_freqs` are set to zero. The table needs a slot for each
/// counter that a byte of `chars` goes to.
pub fn calc_freqs(chars: &Vec<u8>, letter_freqs: &mut Vec<u32>)
    requires
        forall|i: int|
            0 <= i < chars@.len() ==> letter_class(#[trigger] chars@[i]) == 27
                || letter_class(chars@[i]) < old(letter_freqs)@.len(),
        counts_fit(chars@),
    ensures
        final(letter_freqs)@.len() == old(letter_freqs)@.len(),
        forall|j: int|
            0 <= j < final(letter_freqs)@.len() ==> #[trigger] final(letter_freqs)@[j] == if j < 27 {
                class_count(chars@, j)
            } else {
                0
            },
{
    let n: usize = letter_freqs.len();
    let mut i: usize = 0;
    while i < letter_freqs.len()
        invariant
            letter_freqs@.len() == n,
            i <= n,
            forall|j: int| 0 <= j < i ==> letter_freqs@[j] == 0,
        decreases n - i,
    {
        letter_freqs[i] = 0;
        i += 1;
    }
    proof {
        assert(chars@.take(0) =~= Seq::<u8>::empty());
    }
    let mut k: usize = 0;
    while k < chars.len()
        invariant
            letter_freqs@.len() == n,
            forall|i: int|
                0 <= i < chars@.len() ==> letter_class(#[trigger] chars@[i]) == 27
                    || letter_class(chars@[i]) < n,
            counts_fit(chars@),
            k <= chars@.len(),
            forall|j: int|
                0 <= j < n ==> #[trigger] letter_freqs@[j] == if j < 27 {
                    class_count(chars@.take(k as int), j)
                } else {
                    0
                },
        decreases chars@.len() - k,
    {
        let c: u8 = chars[k];
        proof {
            assert(chars@.take(k + 1).drop_last() =~= chars@.take(k as int));
            assert(chars@.take(k + 1).last() == c);
            assert forall|j: int| 0 <= j < 27 implies #[trigger] class_count(chars@.take(k + 1), j) <= u32::MAX by {
                lemma_class_count_prefix(chars@, k + 1, chars@.len() as int, j);
                assert(chars@.take(chars@.len() as int) =~= chars@);
                assert(class_count(chars@, j) <= u32::MAX);
            }
        }
        if 97 <= c && c <= 122 {
            let idx: usize = (c - 97) as usize;
            proof {
                assert(class_count(chars@.take(k + 1), idx as int) <= u32::MAX);
            }
            letter_freqs[idx] = letter_freqs[idx] + 1;
        } else if 65 <= c && c <= 90 {
            let idx: usize = (c - 65) as usize;
            proof {
                assert(class_count(chars@.take(k + 1), idx as int) <= u32::MAX);
            }
            letter_freqs[idx] = letter_freqs[idx] + 1;
        } else if c == 32 || c == 39 || c == 46 || c == 44 {
        } else {
            proof {
                assert(class_count(chars@.take(k + 1), 26) <= u32::MAX);
            }
            letter_freqs[26] = letter_freqs[26] + 1;
        }
        k += 1;
    }
    proof {
        assert(chars@.take(chars@.len() as int) =~= chars@);
    }
}

proof fn lemma_weight_bounds(j: int)
    ensures
        0 <= letter_weight(j) <= 12,
{
}

proof fn lemma_rounds_bounds(f: Seq<u32>, k: nat)
    ensures
        0 <= rounds(f, k).2 <= 12 * k,
    decreases k,
{
    if k > 0 {
        lemma_rounds_bounds(f, (k - 1) as nat);
        let prev = rounds(f, (k - 1) as nat);
        let pick = round_pick(f, prev.0, prev.1, k == 1);
        lemma_weight_bounds(pick.1 as int);
    }
}

fn weight_of(j: u32) -> (w: i32)
    ensures
        w == letter_weight(j as int),
{
    match j {
        4 => 12,
        19 => 9,
        0 => 8,
        14 => 7,
        8 => 7,
        13 => 6,
        18 => 6,
        7 => 6,
        17 => 6,
        3 => 4,
        11 => 4,
        _ => 0,
    }
}

/// Scores a frequency table by how English-like it is (see `freq_score`):
/// five rounds each pick the letter with the highest count that is not above
/// the count picked in the round before and is not the letter picked then,
/// and earn points for common letters; bytes in slot 26 cost five points each.
pub fn score_freqs(freqs: &Vec<u32>) -> (score: i32)
    requires
        freqs@.len() >= 27,
        score_fits(freqs@),
    ensures
        score == freq_score(freqs@),
{
    let ghost f: Seq<u32> = freqs@;
    let mut prev_max: u32 = u32::MAX;
    let mut cur_max: u32 = 0;
    let mut prev_let: u32 = u32::MAX;
    let mut cur_let: u32 = 0;
    let mut score: i32 = 0;
    let mut i: u32 = 0;
    while i < 5
        invariant
            f == freqs@,
            f.len() >= 27,
            i <= 5,
            rounds(f, i as nat) == (prev_max, prev_let, score as int),
            cur_max == 0,
            cur_let == (if i == 0 { 0u32 } else { u32::MAX }),
            0 <= score <= 12 * i,
        decreases 5 - i,
    {
        let ghost init_let: u32 = cur_let;
        let mut j: u32 = 0;
        while j < 26
            invariant
                f == freqs@,
                f.len() >= 27,
                j <= 26,
                (cur_max, cur_let) == (match first_max(f, prev_max, prev_let, j as int) {
                    Some(b) => (f[b], b as u32),
                    None => (0u32, init_let),
                }),
            decreases 26 - j,
        {
            let fj: u32 = freqs[j as usize];
            if fj > cur_max && fj <= prev_max && j != prev_let {
                cur_max = fj;
                cur_let = j;
            }
            j += 1;
        }
        proof {
            lemma_rounds_bounds(f, (i + 1) as nat);
        }
        score += weight_of(cur_let);
        prev_max = cur_max;
        cur_max = 0;
        prev_let = cur_let;
        cur_let = u32::MAX;
        i += 1;
    }
    let x: i32 = freqs[26] as i32;
    score - x * 5
}

proof fn lemma_first_max_range(f: Seq<u32>, pm: u32, pl: u32, n: int)
    ensures
        first_max(f, pm, pl, n) matches Some(j) ==> 0 <= j < n,
    decreases n,
{
    if n > 0 {
        lemma_first_max_range(f, pm, pl, n - 1);
    }
}

/// The count picked in a round of `g` is `k` times the one picked in the
/// same round of `f`, or both are the initial `u32::MAX`.
spec fn scaled_count(pg: u32, pf: u32, k: int) -> bool {
    pg as int == k * pf as int || (pg == u32::MAX && pf == u32::MAX)
}

proof fn lemma_scaled_order(k: int, a: int, c: int)
    requires
        k >= 1,
    ensures
        (k * a <= k * c) == (a <= c),
        (k * a > k * c) == (a > c),
        (0 < k * a) == (0 < a),
{
    assert((k * a <= k * c) == (a <= c)) by (nonlinear_arith)
        requires
            k >= 1,
    ;
    assert((0 < k * a) == (0 < a)) by (nonlinear_arith)
        requires
            k >= 1,
    ;
}

proof fn lemma_first_max_scaled(f: Seq<u32>, g: Seq<u32>, k: int, pmf: u32, pmg: u32, pl: u32, n: int)
    requires
        f.len() >= 27,
        g.len() >= 27,
        k >= 1,
        forall|j: int| 0 <= j < 26 ==> #[trigger] g[j] as int == k * f[j] as int,
        scaled_count(pmg, pmf, k),
        0 <= n <= 26,
    ensures
        first_max(g, pmg, pl, n) == first_max(f, pmf, pl, n),
    decreases n,
{
    if n > 0 {
        let j = n - 1;
        lemma_first_max_scaled(f, g, k, pmf, pmg, pl, j);
        lemma_first_max_range(f, pmf, pl, j);
        lemma_scaled_order(k, f[j] as int, pmf as int);
        assert(g[j] as int == k * f[j] as int);
        assert(eligible(g, pmg, pl, j) == eligible(f, pmf, pl, j));
        let b = first_max(f, pmf, pl, j);
        if b is Some {
            let bi = b.unwrap();
            lemma_scaled_order(k, f[j] as int, f[bi] as int);
            assert(g[bi] as int == k * f[bi] as int);
        }
    }
}

proof fn lemma_rounds_scaled(f: Seq<u32>, g: Seq<u32>, k: int, i: nat)
    requires
        f.len() >= 27,
        g.len() >= 27,
        k >= 1,
        forall|j: int| 0 <= j < 26 ==> #[trigger] g[j] as int == k * f[j] as int,
    ensures
        rounds(g, i).1 == rounds(f, i).1,
        rounds(g, i).2 == rounds(f, i).2,
        scaled_count(rounds(g, i).0, rounds(f, i).0, k),
    decreases i,
{
    if i > 0 {
        let m = (i - 1) as nat;
        lemma_rounds_scaled(f, g, k, m);
        let pf = rounds(f, m);
        let pg = rounds(g, m);
        lemma_first_max_scaled(f, g, k, pf.0, pg.0, pf.1, 26);
        lemma_first_max_range(f, pf.0, pf.1, 26);
        match first_max(f, pf.0, pf.1, 26) {
            Some(j) => {
                assert(g[j] as int == k * f[j] as int);
            },
            None => {
                assert(k * 0 == 0);
            },
        }
    }
}

/// Multiplying every letter count by the same factor `k >= 1` leaves the
/// score unchanged: only the order of the letter counts, which of them are
/// non-zero, and the count in slot 26 matter (slots past 26 are not read).
pub proof fn law_score_scale_invariant(f: Seq<u32>, g: Seq<u32>, k: int)
    requires
        f.len() >= 27,
        g.len() >= 27,
        k >= 1,
        forall|j: int| 0 <= j < 26 ==> #[trigger] g[j] as int == k * f[j] as int,
        g[26] == f[26],
    ensures
        freq_score(g) == freq_score(f),
        score_fits(g) == score_fits(f),
{
    lemma_rounds_scaled(f, g, k, 5);
}

/// The bytes tried as the key, in the order they are tried.
pub open spec fn key_candidates() -> Seq<u8> {
    seq![65u8, 66u8, 67u8, 68u8, 69u8, 70u8, 71u8, 72u8, 73u8, 74u8, 75u8, 76u8, 77u8, 78u8, 79u8, 80u8, 81u8, 82u8, 83u8, 84u8, 85u8, 86u8, 87u8, 88u8, 89u8, 90u8, 97u8, 98u8, 99u8, 100u8, 101u8, 102u8, 103u8, 104u8, 105u8, 106u8, 107u8, 108u8, 109u8, 110u8, 111u8, 112u8, 107u8, 114u8, 115u8, 116u8, 117u8, 118u8, 119u8, 120u8, 121u8, 122u8, 48u8, 49u8, 50u8, 51u8, 52u8, 53u8, 54u8, 55u8, 56u8, 57u8, 32u8, 39u8, 34u8, 46u8, 44u8, 58u8]
}

/// The score of `data` XORed with `c`.
pub open spec fn candidate_score(data: Seq<u8>, c: u8) -> int {
    freq_score(freq_table(single_byte_xor(data, c)))
}

/// Scoring `data` XORed with each candidate key stays within `u32` counts
/// and `i32` scores.
pub open spec fn decodable(data: Seq<u8>) -> bool {
    forall|k: int|
        0 <= k < key_candidates().len() ==> counts_fit(single_byte_xor(data, #[trigger] key_candidates()[k]))
            && score_fits(freq_table(single_byte_xor(data, key_candidates()[k])))
}

/// Index of the first candidate, among the first `n`, with the highest score.
pub open spec fn best_candidate(data: Seq<u8>, n: int) -> int
    decreases n,
{
    if n <= 1 {
        0
    } else {
        let k = best_candidate(data, n - 1);
        if candidate_score(data, key_candidates()[n - 1]) > candidate_score(data, key_candidates()[k]) {
            n - 1
        } else {
            k
        }
    }
}

proof fn lemma_best_candidate_range(data: Seq<u8>, n: int)
    requires
        1 <= n,
    ensures
        0 <= best_candidate(data, n) < n,
    decreases n,
{
    if n > 1 {
        lemma_best_candidate_range(data, n - 1);
    }
}

/// `best_candidate` is the first candidate with the highest score: among
/// the first `n` candidates, none scores more than it does, and every one
/// before it scores less.
pub proof fn law_best_candidate_is_first_max(data: Seq<u8>, n: int)
    requires
        1 <= n,
    ensures
        0 <= best_candidate(data, n) < n,
        forall|k: int|
            0 <= k < n ==> #[trigger] candidate_score(data, key_candidates()[k])
                <= candidate_score(data, key_candidates()[best_candidate(data, n)]),
        forall|k: int|
            0 <= k < best_candidate(data, n) ==> #[trigger] candidate_score(data, key_candidates()[k])
                < candidate_score(data, key_candidates()[best_candidate(data, n)]),
    decreases n,
{
    if n > 1 {
        law_best_candidate_is_first_max(data, n - 1);
    }
}

fn candidates() -> (v: Vec<u8>)
    ensures
        v@ == key_candidates(),
{
    let v: Vec<u8> = vec![65u8, 66u8, 67u8, 68u8, 69u8, 70u8, 71u8, 72u8, 73u8, 74u8, 75u8, 76u8, 77u8, 78u8, 79u8, 80u8, 81u8, 82u8, 83u8, 84u8, 85u8, 86u8, 87u8, 88u8, 89u8, 90u8, 97u8, 98u8, 99u8, 100u8, 101u8, 102u8, 103u8, 104u8, 105u8, 106u8, 107u8, 108u8, 109u8, 110u8, 111u8, 112u8, 107u8, 114u8, 115u8, 116u8, 117u8, 118u8, 119u8, 120u8, 121u8, 122u8, 48u8, 49u8, 50u8, 51u8, 52u8, 53u8, 54u8, 55u8, 56u8, 57u8, 32u8, 39u8, 34u8, 46u8, 44u8, 58u8];
    proof {
        assert(v@ =~= key_candidates());
    }
    v
}

/// Tries each candidate key byte on `encoded_bytes` and keeps the decoding
/// with the best letter-frequency score; of equal scores the first tried
/// wins. Returns that decoding, its key and its score.
pub fn decode_repeating_char_xor(encoded_bytes: &Vec<u8>) -> (res: (Vec<u8>, u8, i32))
    requires
        decodable(encoded_bytes@),
    ensures
        ({
            let k = best_candidate(encoded_bytes@, key_candidates().len() as int);
            &&& res.0@ == single_byte_xor(encoded_bytes@, key_candidates()[k])
            &&& res.1 == key_candidates()[k]
            &&& res.2 == candidate_score(encoded_bytes@, key_candidates()[k])
        }),
        forall|k: int|
            0 <= k < key_candidates().len() ==> #[trigger] candidate_score(encoded_bytes@, key_candidates()[k])
                <= res.2,
{
    let ghost data: Seq<u8> = encoded_bytes@;
    let mut xored_bytes: Vec<u8> = vec![0; encoded_bytes.len()];
    let mut best_decode: Vec<u8> = vec![0; encoded_bytes.len()];
    let mut letter_freqs: Vec<u32> = vec![0; 27];
    let mut max_score: i32 = i32::MIN;
    let mut best_key: u8 = 0;
    let mut score: i32;
    let char_set_bytes: Vec<u8> = candidates();
    let mut idx: usize = 0;
    while idx < char_set_bytes.len()
        invariant
            data == encoded_bytes@,
            decodable(data),
            char_set_bytes@ == key_candidates(),
            idx <= char_set_bytes@.len(),
            xored_bytes@.len() == data.len(),
            best_decode@.len() == data.len(),
            letter_freqs@.len() == 27,
            idx == 0 ==> max_score == i32::MIN,
            idx > 0 ==> ({
                let k = best_candidate(data, idx as int);
                &&& best_decode@ == single_byte_xor(data, key_candidates()[k])
                &&& best_key == key_candidates()[k]
                &&& max_score == candidate_score(data, key_candidates()[k])
            }),
        decreases char_set_bytes@.len() - idx,
    {
        let c: u8 = char_set_bytes[idx];
        let ghost xs: Seq<u8> = single_byte_xor(data, c);
        repeating_char_xor(encoded_bytes, &mut xored_bytes, &c);
        proof {
            assert(xored_bytes@ =~= xs);
            assert(counts_fit(xs) && score_fits(freq_table(xs)));
        }
        calc_freqs(&xored_bytes, &mut letter_freqs);
        proof {
            assert(letter_freqs@ =~= freq_table(xs));
            lemma_rounds_bounds(freq_table(xs), 5);
        }
        score = score_freqs(&letter_freqs);
        proof {
            if idx > 0 {
                lemma_best_candidate_range(data, idx as int);
            }
        }
        if score > max_score {
            max_score = score;
            set_vec(&xored_bytes, &mut best_decode);
            proof {
                assert(best_decode@ =~= xs);
            }
            best_key = c;
        }
        idx += 1;
    }
    proof {
        law_best_candidate_is_first_max(data, key_candidates().len() as int);
    }
    (best_decode, best_key, max_score)
}

} // verus!
