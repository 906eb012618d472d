//! Conversions between bytes and hexadecimal, base-64 or other power-of-two
//! alphabets.

use vstd::prelude::*;
use vstd::arithmetic::logarithm::log;
use vstd::arithmetic::power2::{pow2, lemma_pow2_pos, lemma_pow2_adds, lemma2_to64};
use vstd::arithmetic::div_mod::{lemma_fundamental_div_mod, lemma_mod_bound};
use crate::bits::{be_value, to_digits, digits_value, lemma_u8_bit_facts, lemma_u8_shl_or, lemma_to_digits_unique, lemma_aligned_remainder_zero, min_be_bytes, strip_leading_zeros, lemma_strip_push, lemma_strip_is_min_bytes};

verus! {

/// The binary alphabet.
pub const BIN_MAP: [char; 2] = ['0', '1'];

/// The lower-case hexadecimal alphabet.
pub const HEX_MAP: [char; 16] = [
    '0', '1', '2', '3', '4', '5', '6', '7', '8', '9', 'a', 'b', 'c', 'd', 'e', 'f',
];

/// The standard base-64 alphabet.
pub const B64_MAP: [char; 64] = [
    'A', 'B', 'C', 'D', 'E', 'F', 'G', 'H', 'I', 'J', 'K', 'L', 'M', 'N', 'O', 'P', 'Q', 'R',
    'S', 'T', 'U', 'V', 'W', 'X', 'Y', 'Z', 'a', 'b', 'c', 'd', 'e', 'f', 'g', 'h', 'i', 'j',
    'k', 'l', 'm', 'n', 'o', 'p', 'q', 'r', 's', 't', 'u', 'v', 'w', 'x', 'y', 'z', '0', '1',
    '2', '3', '4', '5', '6', '7', '8', '9', '+', '/',
];

/// Integer base-2 logarithm of a small byte value: the largest `c` with
/// `2^(c + 1) <= n + 1`, i.e. `floor(log2(n))` for `n >= 1`, and `0` for `n < 2`.
pub fn mylog2(n: u8) -> (c: u8)
    requires
        n < 128,
    ensures
        c == log(2, n as int),
        1 <= n ==> pow2(c as nat) <= n < pow2((c + 1) as nat),
        2 <= n ==> 1 <= c <= 6,
{
    let mut x: u8 = 2;
    let mut c: u8 = 0;
    let ghost mut p: int = 1;
    assert(n as int / 1 == n as int);
    proof { lemma2_to64(); }
    while x <= n
        invariant
            n < 128,
            p >= 1,
            x == 2 * p,
            (x == 2 && c == 0) || (x == 4 && c == 1) || (x == 8 && c == 2) || (x == 16 && c == 3)
                || (x == 32 && c == 4) || (x == 64 && c == 5) || (x == 128 && c == 6),
            log(2, n as int) == c + log(2, n as int / p),
            p == pow2(c as nat),
            c > 0 ==> p <= n,
        decreases 256 - x,
    {
        proof {
            assert(n as int / p >= 2) by {
                vstd::arithmetic::div_mod::lemma_div_is_ordered(2 * p, n as int, p);
                vstd::arithmetic::div_mod::lemma_div_multiples_vanish(2, p);
            }
            vstd::arithmetic::div_mod::lemma_div_denominator(n as int, p, 2);
            reveal(log);
            assert(log(2, n as int / p) == 1 + log(2, (n as int / p) / 2));
            p = 2 * p;
            lemma2_to64();
        }
        x = x * 2;
        c = c + 1;
    }
    proof {
        lemma2_to64();
        assert(n as int / p < 2) by {
            vstd::arithmetic::div_mod::lemma_multiply_divide_lt(n as int, p, 2);
        }
        reveal(log);
        vstd::arithmetic::div_mod::lemma_div_pos_is_pos(n as int, p);
    }
    c
}


/// Appends a character to a string, calling std's `String::push`.
///
/// Trusted: the contract says that the characters of the string afterwards
/// are those before followed by `c`, as std documents `push`.
#[verifier::external_body]
fn string_push(s: &mut String, c: char)
    ensures
        final(s)@ == old(s)@.push(c),
{
    s.push(c);
}

/// Number of bits that one character of an alphabet of `map_len` characters
/// stands for: the base-2 logarithm of the alphabet size taken as a byte.
pub open spec fn bits_per_char(map_len: nat) -> nat {
    log(2, (map_len % 256) as int) as nat
}

/// The characters that `to_base` writes for `bin` over the alphabet `map`:
/// the value of `bin`, read as a big-endian number, written with just enough
/// digits of `bits_per_char` bits to hold all `8 * |bin|` bits, each digit
/// replaced by the character at that index of `map`.
pub open spec fn base_encode(bin: Seq<u8>, map: Seq<char>) -> Seq<char> {
    let w = bits_per_char(map.len());
    let n = ((8 * bin.len() + w - 1) / (w as int)) as nat;
    to_digits(be_value(bin), n, w).map_values(|d: nat| map[d as int])
}

/// The alphabets that `to_base` accepts: the size, taken as a byte, is at
/// least 2 and below 128.
pub open spec fn valid_alphabet(map_len: nat) -> bool {
    2 <= map_len % 256 < 128
}

proof fn lemma_first_digit(v: int, dv: int, lo: int, b: int, po: int, pk: int, ps: int, pb: int, q: int, r: int)
    by (nonlinear_arith)
    requires
        v == dv * po + lo,
        0 <= lo < po,
        pb == po * pk,
        ps * pk == 256,
        0 <= b < 256,
        ps * q + r == b,
        0 <= r < ps,
        0 <= q,
        0 < pk,
        0 < ps,
    ensures
        v * 256 + b == (dv * pb + (lo * pk + q)) * ps + r,
        lo * pk + q < pb,
        q < pk,
{
}

proof fn lemma_next_digit(v: int, dv: int, lo: int, po: int, pb: int, pr: int, q: int, r: int)
    by (nonlinear_arith)
    requires
        v == dv * po + lo,
        0 <= lo < po,
        po == pb * pr,
        pr * q + r == lo,
        0 <= r < pr,
        0 <= q,
        0 < pr,
    ensures
        v == (dv * pb + q) * pr + r,
        q < pb,
{
}

/// Writes `bin` as a big-endian number in the alphabet `char_map`, whose size
/// (taken as a byte) fixes the number of bits per character; the bit string
/// is padded with zero bits at the front to a whole number of characters.
pub fn to_base(bin: &Vec<u8>, char_map: &[char]) -> (out: String)
    requires
        valid_alphabet(char_map@.len()),
        bin@.len() * 8 <= u32::MAX,
    ensures
        out@ == base_encode(bin@, char_map@),
{
    let len: usize = char_map.len();
    let base: u8 = #[verifier::truncate] (char_map.len() as u8);
    proof {
        assert(base as nat == len % 256) by (bit_vector)
            requires
                base == len as u8,
        ;
    }
    let bpc: u8 = mylog2(base);
    proof {
        lemma2_to64();
    }
    let mut vb64: String = String::new();
    let mut buf: u8;
    let mut leftover: u8 = 0;
    let mut offset: u8 = (bpc - (((bin.len() as u32) * 8 % (bpc as u32)) as u8)) % bpc;
    let mut byte_mask: u8;
    let ghost off0: nat = offset as nat;
    let ghost w: nat = bpc as nat;
    let ghost mut ds: Seq<nat> = Seq::empty();
    proof {
        assert((off0 + 8 * bin@.len()) % w == 0) by {
            if bpc == 1 {} else if bpc == 2 {} else if bpc == 3 {} else if bpc == 4 {} else if bpc == 5 {} else {}
        }
        assert(bin@.take(0) =~= Seq::<u8>::empty());
        assert(be_value(bin@.take(0)) == 0);
        assert(digits_value(ds, w) == 0);
        assert(0 * pow2(offset as nat) == 0);
        assert(vb64@ =~= ds.map_values(|d: nat| char_map@[d as int]));
    }
    let mut i: usize = 0;
    while i < bin.len()
        invariant
            bin@.len() * 8 <= u32::MAX,
            1 <= bpc <= 6,
            w == bpc,
            pow2(w) <= len,
            len == char_map@.len(),
            i <= bin@.len(),
            offset < bpc,
            leftover < pow2(offset as nat),
            off0 + 8 * i == ds.len() * w + offset,
            (off0 + 8 * bin@.len()) % w == 0,
            be_value(bin@.take(i as int)) == digits_value(ds, w) * pow2(offset as nat) + leftover,
            forall|k: int| 0 <= k < ds.len() ==> ds[k] < pow2(w),
            vb64@ =~= ds.map_values(|d: nat| char_map@[d as int]),
        decreases bin.len() - i,
    {
        let byte: u8 = bin[i];
        let ghost v_prev: nat = be_value(bin@.take(i as int));
        let ghost dv: nat = digits_value(ds, w);
        let shift: u8 = offset + (8 - bpc);
        let k: u8 = bpc - offset;
        byte_mask = 255 << shift;
        proof {
            lemma2_to64();
            lemma_pow2_pos(offset as nat);
            lemma_pow2_pos(k as nat);
            lemma_pow2_pos(shift as nat);
            lemma_pow2_adds(offset as nat, k as nat);
            lemma_pow2_adds(shift as nat, k as nat);
            lemma_u8_bit_facts(byte, shift);
            lemma_fundamental_div_mod(byte as int, pow2(shift as nat) as int);
            lemma_mod_bound(byte as int, pow2(shift as nat) as int);
            lemma_first_digit(
                v_prev as int, dv as int, leftover as int, byte as int,
                pow2(offset as nat) as int, pow2(k as nat) as int, pow2(shift as nat) as int,
                pow2(w) as int,
                byte as int / pow2(shift as nat) as int, byte as int % pow2(shift as nat) as int,
            );
            assert(leftover * pow2(k as nat) <= 255) by (nonlinear_arith)
                requires
                    leftover < pow2(offset as nat),
                    pow2(offset as nat) * pow2(k as nat) == pow2(w),
                    pow2(w) <= 64,
            ;
            lemma_u8_shl_or(leftover, k, (byte as nat / pow2(shift as nat)) as u8);
        }
        buf = leftover << k;
        buf |= (byte_mask & byte) >> shift;
        proof {
            assert(buf == leftover * pow2(k as nat) + byte as nat / pow2(shift as nat));
            assert(buf < pow2(w));
        }
        offset += 8 - bpc;
        leftover = (255 ^ byte_mask) & byte;
        string_push(&mut vb64, char_map[buf as usize]);
        proof {
            assert(bin@.take(i + 1).drop_last() =~= bin@.take(i as int));
            assert(bin@.take(i + 1).last() == byte);
            assert(be_value(bin@.take(i + 1)) == v_prev * 256 + byte);
            assert(ds.push(buf as nat).drop_last() =~= ds);
            assert(digits_value(ds.push(buf as nat), w) == dv * pow2(w) + buf);
            assert((ds.len() + 1) * w == ds.len() * w + w) by (nonlinear_arith);
            ds = ds.push(buf as nat);
            assert(vb64@ =~= ds.map_values(|d: nat| char_map@[d as int]));
        }
        while offset >= bpc
            invariant
                bin@.len() * 8 <= u32::MAX,
                1 <= bpc <= 6,
                w == bpc,
                pow2(w) <= len,
                len == char_map@.len(),
                i < bin@.len(),
                offset < 8,
                leftover < pow2(offset as nat),
                off0 + 8 * (i + 1) == ds.len() * w + offset,
                (off0 + 8 * bin@.len()) % w == 0,
                be_value(bin@.take(i + 1)) == digits_value(ds, w) * pow2(offset as nat) + leftover,
                forall|k: int| 0 <= k < ds.len() ==> ds[k] < pow2(w),
                vb64@ =~= ds.map_values(|d: nat| char_map@[d as int]),
            decreases offset,
        {
            let ghost v: nat = be_value(bin@.take(i + 1));
            let ghost dv: nat = digits_value(ds, w);
            let r: u8 = offset - bpc;
            proof {
                lemma2_to64();
                lemma_pow2_pos(r as nat);
                lemma_pow2_adds(w, r as nat);
                lemma_u8_bit_facts(leftover, r);
                lemma_fundamental_div_mod(leftover as int, pow2(r as nat) as int);
                lemma_mod_bound(leftover as int, pow2(r as nat) as int);
                lemma_next_digit(
                    v as int, dv as int, leftover as int, pow2(offset as nat) as int,
                    pow2(w) as int, pow2(r as nat) as int,
                    leftover as int / pow2(r as nat) as int, leftover as int % pow2(r as nat) as int,
                );
            }
            buf = leftover >> r;
            offset -= bpc;
            if offset > 0 {
                leftover = (255 >> (8 - offset)) & leftover;
            } else {
                leftover = 0;
            }
            string_push(&mut vb64, char_map[buf as usize]);
            proof {
                assert(ds.push(buf as nat).drop_last() =~= ds);
                assert(digits_value(ds.push(buf as nat), w) == dv * pow2(w) + buf);
                assert((ds.len() + 1) * w == ds.len() * w + w) by (nonlinear_arith);
                if offset == 0 {
                    assert(leftover as int % pow2(r as nat) as int == 0);
                }
                ds = ds.push(buf as nat);
                assert(vb64@ =~= ds.map_values(|d: nat| char_map@[d as int]));
            }
        }
        i += 1;
    }
    proof {
        assert(bin@.take(bin@.len() as int) =~= bin@);
        lemma_aligned_remainder_zero(ds.len() as int, w as int, offset as int);
        lemma2_to64();
        assert(ds.len() == ((8 * bin@.len() + w - 1) / (w as int)) as nat) by {
            if bpc == 1 {} else if bpc == 2 {} else if bpc == 3 {} else if bpc == 4 {} else if bpc == 5 {} else {}
        }
        lemma_to_digits_unique(ds, w);
        assert(bits_per_char(char_map@.len()) == w);
        assert(pow2(0) == 1);
        assert(leftover == 0);
        assert(digits_value(ds, w) * 1 == digits_value(ds, w));
        assert(be_value(bin@) == digits_value(ds, w));
        assert(to_digits(be_value(bin@), ds.len(), w) == ds);
    }
    vb64
}

/// The bytes of a string: its UTF-8 encoding.
pub open spec fn string_bytes(s: &String) -> Seq<u8> {
    vstd::utf8::encode_utf8(s@)
}

/// The value of a hexadecimal digit; any other byte counts as zero.
pub open spec fn hex_nibble(b: u8) -> nat {
    if 48 <= b <= 57 {
        (b - 48) as nat
    } else if 65 <= b <= 70 {
        (b - 55) as nat
    } else if 97 <= b <= 102 {
        (b - 87) as nat
    } else {
        0
    }
}

/// `s` with a leading `'0'` added when its length is odd.
pub open spec fn hex_even(s: Seq<u8>) -> Seq<u8> {
    if s.len() % 2 == 1 {
        seq![48u8] + s
    } else {
        s
    }
}

/// The bytes that `from_hex_string` reads from `s`: the digits, taken in pairs
/// after a `'0'` is put in front of an odd-length text, each pair giving the
/// high and the low half of one byte; a byte that is not a hexadecimal digit
/// counts as the digit zero.
pub open spec fn hex_decode(s: Seq<u8>) -> Seq<u8> {
    let p = hex_even(s);
    Seq::new(p.len() / 2, |k: int| (hex_nibble(p[2 * k]) * 16 + hex_nibble(p[2 * k + 1])) as u8)
}

fn nibble_of(byte: u8) -> (n: u8)
    ensures
        n == hex_nibble(byte),
        n < 16,
{
    if 48 <= byte && byte <= 57 {
        byte - 48
    } else if 65 <= byte && byte <= 70 {
        byte - 55
    } else if 97 <= byte && byte <= 102 {
        byte - 87
    } else {
        0
    }
}

/// Reads pairs of hexadecimal digits as bytes (see `hex_decode`).
pub fn from_hex_string(hex: &String) -> (bin: Vec<u8>)
    ensures
        bin@ == hex_decode(string_bytes(hex)),
{
    let bytes: &[u8] = hex.as_str().as_bytes();
    let ghost s: Seq<u8> = bytes@;
    let ghost p: Seq<u8> = hex_even(s);
    let ghost pad: int = if s.len() % 2 == 1 { 1 } else { 0 };
    let mut bin: Vec<u8> = Vec::new();
    let mut modulus: i32 = if bytes.len() % 2 == 0 { 0 } else { 1 };
    let mut buf: u8 = 0;
    proof {
        assert(p.len() == s.len() + pad);
        assert(forall|j: int| 0 <= j < s.len() ==> p[j + pad] == s[j]);
        assert(pad == 1 ==> p[0] == 48u8);
    }
    let mut i: usize = 0;
    while i < bytes.len()
        invariant
            bytes@ == s,
            p == hex_even(s),
            p.len() == s.len() + pad,
            pad == (if s.len() % 2 == 1 { 1int } else { 0int }),
            forall|j: int| 0 <= j < s.len() ==> p[j + pad] == s[j],
            pad == 1 ==> p[0] == 48u8,
            i <= s.len(),
            modulus == (i + pad) % 2,
            bin@.len() == (i + pad) / 2,
            forall|k: int| 0 <= k < bin@.len() ==> bin@[k] == (hex_nibble(p[2 * k]) * 16 + hex_nibble(p[2 * k + 1])) as u8,
            modulus == 0 ==> buf == 0,
            modulus == 1 ==> buf == hex_nibble(p[i + pad - 1]) * 16,
        decreases s.len() - i,
    {
        let byte: u8 = bytes[i];
        let n: u8 = nibble_of(byte);
        proof {
            if modulus == 0 {
                assert(0u8 | n == n) by (bit_vector);
            } else {
                lemma2_to64();
                assert(buf as nat % pow2(4) == 0);
                crate::bits::lemma_u8_or_low(buf, n, 4);
            }
        }
        buf |= n;
        if modulus == 0 {
            proof {
                lemma2_to64();
                vstd::bits::lemma_u8_shl_is_mul(buf, 4);
            }
            buf <<= 4;
            modulus = 1;
        } else {
            bin.push(buf);
            buf = 0;
            modulus = 0;
        }
        i += 1;
    }
    proof {
        assert(bin@ =~= hex_decode(s));
    }
    bin
}

/// The value of a base-64 character (`A-Z`, `a-z`, `0-9`, `+`, `/`); any
/// other byte counts as zero.
pub open spec fn b64_sextet(b: u8) -> nat {
    if 65 <= b <= 90 {
        (b - 65) as nat
    } else if 97 <= b <= 122 {
        (b - 71) as nat
    } else if 48 <= b <= 57 {
        (b + 4) as nat
    } else if b == 43 {
        62
    } else if b == 47 {
        63
    } else {
        0
    }
}

/// The number whose big-endian base-64 digits are the characters of `s`.
pub open spec fn b64_value(s: Seq<u8>) -> nat
    decreases s.len(),
{
    if s.len() == 0 {
        0
    } else {
        b64_value(s.drop_last()) * 64 + b64_sextet(s.last())
    }
}

/// The bytes that `from_b64_string` reads from `s`: the number that the
/// base-64 characters spell, written in as few big-endian bytes as it needs,
/// so that leading zero bytes are dropped.
pub open spec fn b64_decode(s: Seq<u8>) -> Seq<u8> {
    min_be_bytes(b64_value(s))
}

fn sextet_of(byte: u8) -> (n: u8)
    ensures
        n == b64_sextet(byte),
        n < 64,
{
    if 65 <= byte && byte <= 90 {
        byte - 65
    } else if 97 <= byte && byte <= 122 {
        byte - 71
    } else if 48 <= byte && byte <= 57 {
        byte + 4
    } else if byte == 43 {
        62
    } else if byte == 47 {
        63
    } else {
        0
    }
}

/// `2^f` for the even bit counts that base-64 decoding leaves free in a byte.
spec fn free_pow(f: u8) -> int {
    if f == 2 {
        4
    } else if f == 4 {
        16
    } else if f == 6 {
        64
    } else {
        256
    }
}

/// A character that fits entirely in an empty byte (8 free bits).
proof fn lemma_b64_fill(w: int, cv: int, wb: u8, buf: u8)
    requires
        buf < 64,
        wb as int % 256 == 0,
        cv * 256 + wb == w * 256,
    ensures
        (wb | (buf << 2u8)) as int % 4 == 0,
        cv * 256 + (wb | (buf << 2u8)) == (w * 64 + buf) * 4,
{
    assert(wb == 0);
    assert((0u8 | (buf << 2u8)) == buf * 4) by (bit_vector)
        requires
            buf < 64,
    ;
}

/// A character that completes a byte with `free` bits left to fill.
proof fn lemma_b64_flush(w: int, cv: int, wb: u8, buf: u8, free: u8)
    requires
        free == 2 || free == 4 || free == 6,
        buf < 64,
        wb as int % free_pow(free) == 0,
        cv * 256 + wb == w * free_pow(free),
    ensures
        ({
            let k = (6 - free) as u8;
            let full = wb | (buf >> k);
            let low = (255u8 ^ (255u8 << k)) & buf;
            let nw = if free != 6 { low << ((8 - 6 + free) as u8) } else { low };
            &&& (cv * 256 + full) * 256 + nw == (w * 64 + buf) * free_pow((free + 2) as u8)
            &&& nw as int % free_pow((free + 2) as u8) == 0
        }),
{
    if free == 2 {
        assert((wb | (buf >> 4u8)) == wb + buf / 16) by (bit_vector)
            requires
                wb % 4 == 0,
                buf < 64,
        ;
        assert(((255u8 ^ (255u8 << 4u8)) & buf) << 4u8 == (buf % 16) * 16) by (bit_vector)
            requires
                buf < 64,
        ;
    } else if free == 4 {
        assert((wb | (buf >> 2u8)) == wb + buf / 4) by (bit_vector)
            requires
                wb % 16 == 0,
                buf < 64,
        ;
        assert(((255u8 ^ (255u8 << 2u8)) & buf) << 6u8 == (buf % 4) * 64) by (bit_vector)
            requires
                buf < 64,
        ;
    } else {
        assert((wb | (buf >> 0u8)) == wb + buf) by (bit_vector)
            requires
                wb % 64 == 0,
                buf < 64,
        ;
        assert((255u8 ^ (255u8 << 0u8)) & buf == 0) by (bit_vector);
    }
}

/// Reads base-64 characters as one big-endian number and returns its bytes
/// without leading zeros (see `b64_decode`).
pub fn from_b64_string(b64_str: &String) -> (bin: Vec<u8>)
    requires
        string_bytes(b64_str).len() * 6 <= usize::MAX,
    ensures
        bin@ == b64_decode(string_bytes(b64_str)),
{
    let bytes: &[u8] = b64_str.as_str().as_bytes();
    let ghost s: Seq<u8> = bytes@;
    let mut bin: Vec<u8> = Vec::new();
    let bpc: u8 = 6;
    let mut buf: u8;
    let mut working_byte: u8 = 0;
    let mut free_bits: u8 = (bytes.len() * 6 % 8) as u8;
    let mut first: bool = true;
    if free_bits == 0 {
        free_bits = 8
    };
    let ghost r0: int = free_bits as int;
    let ghost mut cs: Seq<u8> = Seq::empty();
    proof {
        assert(s.take(0) =~= Seq::<u8>::empty());
        assert(b64_value(s.take(0)) == 0);
        assert(be_value(cs) == 0);
        assert(strip_leading_zeros(cs) == cs);
    }
    let mut i: usize = 0;
    while i < bytes.len()
        invariant
            bytes@ == s,
            s.len() * 6 <= usize::MAX,
            bpc == 6,
            i <= s.len(),
            free_bits == 2 || free_bits == 4 || free_bits == 6 || free_bits == 8,
            r0 == (if (s.len() * 6) % 8 == 0 { 8 } else { (s.len() * 6) % 8 }),
            6 * i + free_bits == 8 * cs.len() + r0,
            working_byte as int % free_pow(free_bits) == 0,
            be_value(cs) * 256 + working_byte == b64_value(s.take(i as int)) * free_pow(free_bits),
            bin@ == strip_leading_zeros(cs),
            first == (bin@.len() == 0),
        decreases s.len() - i,
    {
        let byte: u8 = bytes[i];
        buf = sextet_of(byte);
        let ghost w: nat = b64_value(s.take(i as int));
        proof {
            assert(s.take(i + 1).drop_last() =~= s.take(i as int));
            assert(s.take(i + 1).last() == byte);
            assert(b64_value(s.take(i + 1)) == w * 64 + buf);
        }
        if free_bits <= bpc {
            let ghost cs0: Seq<u8> = cs;
            proof {
                lemma_b64_flush(w as int, be_value(cs0) as int, working_byte, buf, free_bits);
            }
            working_byte |= buf >> (bpc - free_bits);
            proof {
                lemma_strip_push(cs, working_byte);
                assert(cs.push(working_byte).drop_last() =~= cs);
                assert(be_value(cs.push(working_byte)) == be_value(cs) * 256 + working_byte);
                cs = cs.push(working_byte);
            }
            if !first || (first && working_byte != 0) {
                bin.push(working_byte);
                first = false;
            }
            working_byte = (255 ^ (255 << (bpc - free_bits))) & buf;
            if free_bits != bpc {
                working_byte <<= 8 - bpc + free_bits;
            }
            free_bits = 8 - bpc + free_bits;
        } else {
            proof {
                lemma_b64_fill(w as int, be_value(cs) as int, working_byte, buf);
            }
            working_byte |= buf << (free_bits - bpc);
            free_bits = free_bits - bpc;
        }
        i += 1;
    }
    proof {
        assert(s.take(s.len() as int) =~= s);
        assert(free_bits == 8);
        assert(working_byte == 0);
        assert(be_value(cs) == b64_value(s));
        lemma_strip_is_min_bytes(cs);
    }
    bin
}


/// Each character of the hexadecimal alphabet is ASCII and is the digit of
/// its own index.
pub proof fn lemma_hex_map_digits()
    ensures
        forall|d: int|
            0 <= d < 16 ==> (#[trigger] HEX_MAP@[d] as u32) < 128 && hex_nibble(HEX_MAP@[d] as u8) == d,
{
    assert forall|d: int|
        0 <= d < 16 implies (#[trigger] HEX_MAP@[d] as u32) < 128 && hex_nibble(HEX_MAP@[d] as u8) == d by {
        if d == 0 {} else if d == 1 {} else if d == 2 {} else if d == 3 {} else if d == 4 {} else if d == 5 {} else if d == 6 {} else if d == 7 {} else if d == 8 {} else if d == 9 {} else if d == 10 {} else if d == 11 {} else if d == 12 {} else if d == 13 {} else if d == 14 {} else if d == 15 {}
    }
}

/// Each character of the base-64 alphabet is ASCII and is the base-64 digit
/// of its own index.
pub proof fn lemma_b64_map_digits()
    ensures
        forall|d: int|
            0 <= d < 64 ==> (#[trigger] B64_MAP@[d] as u32) < 128 && b64_sextet(B64_MAP@[d] as u8) == d,
{
    assert forall|d: int|
        0 <= d < 64 implies (#[trigger] B64_MAP@[d] as u32) < 128 && b64_sextet(B64_MAP@[d] as u8) == d by {
        if d == 0 {} else if d == 1 {} else if d == 2 {} else if d == 3 {} else if d == 4 {} else if d == 5 {} else if d == 6 {} else if d == 7 {} else if d == 8 {} else if d == 9 {} else if d == 10 {} else if d == 11 {} else if d == 12 {} else if d == 13 {} else if d == 14 {} else if d == 15 {} else if d == 16 {} else if d == 17 {} else if d == 18 {} else if d == 19 {} else if d == 20 {} else if d == 21 {} else if d == 22 {} else if d == 23 {} else if d == 24 {} else if d == 25 {} else if d == 26 {} else if d == 27 {} else if d == 28 {} else if d == 29 {} else if d == 30 {} else if d == 31 {} else if d == 32 {} else if d == 33 {} else if d == 34 {} else if d == 35 {} else if d == 36 {} else if d == 37 {} else if d == 38 {} else if d == 39 {} else if d == 40 {} else if d == 41 {} else if d == 42 {} else if d == 43 {} else if d == 44 {} else if d == 45 {} else if d == 46 {} else if d == 47 {} else if d == 48 {} else if d == 49 {} else if d == 50 {} else if d == 51 {} else if d == 52 {} else if d == 53 {} else if d == 54 {} else if d == 55 {} else if d == 56 {} else if d == 57 {} else if d == 58 {} else if d == 59 {} else if d == 60 {} else if d == 61 {} else if d == 62 {} else if d == 63 {}
    }
}


proof fn lemma_log2_small()
    ensures
        log(2, 16) == 4,
        log(2, 64) == 6,
        log(2, 2) == 1,
{
    reveal(log);
    assert(log(2, 1) == 0);
    assert(log(2, 2) == 1);
    assert(log(2, 4) == 2);
    assert(log(2, 8) == 3);
    assert(log(2, 16) == 4);
    assert(log(2, 32) == 5);
    assert(log(2, 64) == 6);
}

/// Writing bytes with `to_base` in the hexadecimal alphabet and reading the
/// text back with `from_hex_string` gives the same bytes.
pub proof fn law_hex_roundtrip(bin: Seq<u8>)
    ensures
        hex_decode(vstd::utf8::encode_utf8(base_encode(bin, HEX_MAP@))) == bin,
{
    lemma_log2_small();
    lemma_hex_map_digits();
    let w = bits_per_char(HEX_MAP@.len());
    assert(w == 4);
    let n = 2 * bin.len();
    assert(((8 * bin.len() + w - 1) / (w as int)) as nat == n);
    crate::bits::lemma_hex_digits(bin);
    let ds = to_digits(be_value(bin), n, 4);
    let cs = base_encode(bin, HEX_MAP@);
    assert(cs == ds.map_values(|d: nat| HEX_MAP@[d as int]));
    crate::bits::lemma_to_digits_len(be_value(bin), n, 4);
    vstd::arithmetic::power2::lemma2_to64();
    assert(vstd::utf8::is_ascii_chars(cs)) by {
        assert forall|i: int| 0 <= i < cs.len() implies '\0' <= #[trigger] cs[i] <= '\u{7f}' by {
            assert(cs[i] == HEX_MAP@[ds[i] as int]);
            assert(ds[i] < 16);
            assert((HEX_MAP@[ds[i] as int] as u32) < 128);
        }
    }
    vstd::utf8::is_ascii_chars_encode_utf8(cs);
    let bytes = vstd::utf8::encode_utf8(cs);
    assert(hex_even(bytes) == bytes);
    let out = hex_decode(bytes);
    assert forall|k: int| 0 <= k < bin.len() implies out[k] == bin[k] by {
        assert(bytes[2 * k] == cs[2 * k] as u8);
        assert(bytes[2 * k + 1] == cs[2 * k + 1] as u8);
        assert(cs[2 * k] == HEX_MAP@[ds[2 * k] as int]);
        assert(cs[2 * k + 1] == HEX_MAP@[ds[2 * k + 1] as int]);
        assert(hex_nibble(bytes[2 * k]) == bin[k] / 16);
        assert(hex_nibble(bytes[2 * k + 1]) == bin[k] % 16);
    }
    assert(out =~= bin);
}


proof fn lemma_b64_value_digits(bytes: Seq<u8>, ds: Seq<nat>)
    requires
        bytes.len() == ds.len(),
        forall|i: int| 0 <= i < ds.len() ==> b64_sextet(bytes[i]) == ds[i],
    ensures
        b64_value(bytes) == digits_value(ds, 6),
    decreases bytes.len(),
{
    if bytes.len() > 0 {
        lemma_b64_value_digits(bytes.drop_last(), ds.drop_last());
        lemma2_to64();
    }
}

/// Writing bytes with `to_base` in the base-64 alphabet and reading the text
/// back with `from_b64_string` gives the same bytes without their leading zeros.
pub proof fn law_b64_roundtrip(bin: Seq<u8>)
    ensures
        b64_decode(vstd::utf8::encode_utf8(base_encode(bin, B64_MAP@))) == strip_leading_zeros(bin),
{
    lemma_log2_small();
    lemma_b64_map_digits();
    let w = bits_per_char(B64_MAP@.len());
    assert(w == 6);
    let n: nat = ((8 * bin.len() + 5) / 6) as nat;
    assert(((8 * bin.len() + w - 1) / (w as int)) as nat == n);
    let v = be_value(bin);
    let ds = to_digits(v, n, 6);
    let cs = base_encode(bin, B64_MAP@);
    assert(cs == ds.map_values(|d: nat| B64_MAP@[d as int]));
    crate::bits::lemma_to_digits_len(v, n, 6);
    lemma2_to64();
    assert(vstd::utf8::is_ascii_chars(cs)) by {
        assert forall|i: int| 0 <= i < cs.len() implies '\0' <= #[trigger] cs[i] <= '\u{7f}' by {
            assert(cs[i] == B64_MAP@[ds[i] as int]);
            assert((B64_MAP@[ds[i] as int] as u32) < 128);
        }
    }
    vstd::utf8::is_ascii_chars_encode_utf8(cs);
    let bytes = vstd::utf8::encode_utf8(cs);
    assert forall|i: int| 0 <= i < ds.len() implies b64_sextet(bytes[i]) == ds[i] by {
        assert(bytes[i] == cs[i] as u8);
        assert(cs[i] == B64_MAP@[ds[i] as int]);
    }
    lemma_b64_value_digits(bytes, ds);
    crate::bits::lemma_to_digits_value(v, n, 6);
    crate::bits::lemma_be_value_bound(bin);
    assert(8 * bin.len() <= n * 6);
    if 8 * bin.len() < n * 6 {
        vstd::arithmetic::power2::lemma_pow2_strictly_increases(8 * bin.len(), n * 6);
    }
    vstd::arithmetic::div_mod::lemma_small_mod(v, pow2(n * 6));
    crate::bits::lemma_strip_is_min_bytes(bin);
}

/// Base-64 text is built from the back: when the second part is a whole
/// number of 3-byte groups, encoding two byte strings one after the other
/// gives the two encodings one after the other (the zero bits that fill the
/// first character all stand at the front).
pub proof fn law_b64_concat(a: Seq<u8>, b: Seq<u8>)
    requires
        b.len() % 3 == 0,
    ensures
        base_encode(a + b, B64_MAP@) == base_encode(a, B64_MAP@) + base_encode(b, B64_MAP@),
{
    lemma_log2_small();
    let w = bits_per_char(B64_MAP@.len());
    assert(w == 6);
    let t = b.len() / 3;
    let m: nat = 4 * t;
    assert(8 * b.len() == m * 6);
    let na: nat = ((8 * a.len() + 5) / 6) as nat;
    assert(((8 * (a + b).len() + w - 1) / (w as int)) as nat == na + m);
    assert(((8 * b.len() + w - 1) / (w as int)) as nat == m);
    assert(((8 * a.len() + w - 1) / (w as int)) as nat == na);
    let pp = pow2(m * 6);
    lemma_pow2_pos(m * 6);
    crate::bits::lemma_be_value_concat(a, b);
    crate::bits::lemma_be_value_bound(b);
    let va = be_value(a);
    let vb = be_value(b);
    let v = be_value(a + b);
    assert(v == va * pp + vb);
    vstd::arithmetic::div_mod::lemma_fundamental_div_mod_converse_div(v as int, pp as int, va as int, vb as int);
    vstd::arithmetic::div_mod::lemma_fundamental_div_mod_converse_mod(v as int, pp as int, va as int, vb as int);
    crate::bits::lemma_to_digits_split(v, na, m, 6);
    crate::bits::lemma_to_digits_mod(v, m, 6);
    assert(na + m == (na + m) as nat);
    let hi = to_digits(va, na, 6);
    let lo = to_digits(vb, m, 6);
    assert(to_digits(v, na + m, 6) == hi + lo);
    let f = |d: nat| B64_MAP@[d as int];
    assert((hi + lo).map_values(f) =~= hi.map_values(f) + lo.map_values(f));
}

} // verus!



