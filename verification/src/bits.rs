//! Mathematical model of byte strings as big-endian numbers, and of numbers as
//! fixed-width digit strings, with the lemmas that connect them.

use vstd::prelude::*;
use vstd::arithmetic::power2::{pow2, lemma_pow2_pos, lemma_pow2_adds, lemma2_to64};
use vstd::arithmetic::div_mod::{lemma_fundamental_div_mod, lemma_mod_bound};

verus! {

/// The number whose big-endian base-256 digits are `bytes`.
pub open spec fn be_value(bytes: Seq<u8>) -> nat
    decreases bytes.len(),
{
    if bytes.len() == 0 {
        0
    } else {
        be_value(bytes.drop_last()) * 256 + bytes.last() as nat
    }
}

/// The number whose big-endian digits, each of `width` bits, are `ds`.
pub open spec fn digits_value(ds: Seq<nat>, width: nat) -> nat
    decreases ds.len(),
{
    if ds.len() == 0 {
        0
    } else {
        digits_value(ds.drop_last(), width) * pow2(width) + ds.last()
    }
}

/// The lowest `n` digits of `v`, each of `width` bits, most significant first.
pub open spec fn to_digits(v: nat, n: nat, width: nat) -> Seq<nat>
    decreases n,
{
    if n == 0 {
        Seq::empty()
    } else {
        to_digits(v / pow2(width), (n - 1) as nat, width).push(v % pow2(width))
    }
}

/// The shortest big-endian byte string whose value is `v` (empty for zero).
pub open spec fn min_be_bytes(v: nat) -> Seq<u8>
    decreases v,
{
    if v == 0 {
        Seq::empty()
    } else {
        min_be_bytes(v / 256).push((v % 256) as u8)
    }
}

/// `s` without its leading zero bytes.
pub open spec fn strip_leading_zeros(s: Seq<u8>) -> Seq<u8>
    decreases s.len(),
{
    if s.len() == 0 {
        s
    } else if s[0] == 0 {
        strip_leading_zeros(s.drop_first())
    } else {
        s
    }
}

/// Appending a byte to a string commutes with stripping its leading zeros,
/// except that a zero appended to an all-zero string is stripped too.
pub proof fn lemma_strip_push(s: Seq<u8>, b: u8)
    ensures
        strip_leading_zeros(s.push(b)) == (if strip_leading_zeros(s).len() == 0 && b == 0 {
            Seq::<u8>::empty()
        } else {
            strip_leading_zeros(s).push(b)
        }),
    decreases s.len(),
{
    if s.len() == 0 {
        assert(s.push(b).drop_first() =~= Seq::<u8>::empty());
        assert(s.push(b)[0] == b);
        assert(strip_leading_zeros(Seq::<u8>::empty()) == Seq::<u8>::empty());
        assert(s =~= Seq::<u8>::empty());
    } else {
        assert(s.push(b)[0] == s[0]);
        assert(s.push(b).drop_first() =~= s.drop_first().push(b));
        if s[0] == 0 {
            lemma_strip_push(s.drop_first(), b);
        }
    }
}

/// A byte string has value zero exactly when stripping its leading zeros
/// leaves nothing, and the stripped string is the shortest encoding of its value.
pub proof fn lemma_strip_is_min_bytes(s: Seq<u8>)
    ensures
        strip_leading_zeros(s) == min_be_bytes(be_value(s)),
    decreases s.len(),
{
    if s.len() > 0 {
        let init = s.drop_last();
        let b = s.last();
        lemma_strip_is_min_bytes(init);
        lemma_strip_push(init, b);
        assert(init.push(b) =~= s);
        let v = be_value(s);
        assert(v == be_value(init) * 256 + b as nat);
        assert(v / 256 == be_value(init) && v % 256 == b as nat) by {
            lemma_fundamental_div_mod(v as int, 256);
            lemma_mod_bound(v as int, 256);
            let q = v as int / 256;
            let r = v as int % 256;
            assert(be_value(init) * 256 + b == q * 256 + r);
            assert(q == be_value(init) as int && r == b as int) by (nonlinear_arith)
                requires
                    be_value(init) * 256 + b == q * 256 + r,
                    0 <= r < 256,
                    0 <= b < 256,
            ;
        }
        if v == 0 {
            assert(be_value(init) == 0 && b == 0);
            lemma_zero_value_strips(init);
        } else {
            if be_value(init) == 0 {
                lemma_zero_value_strips(init);
            }
        }
    }
}

/// A string of value zero strips to nothing.
pub proof fn lemma_zero_value_strips(s: Seq<u8>)
    requires
        be_value(s) == 0,
    ensures
        strip_leading_zeros(s).len() == 0,
    decreases s.len(),
{
    if s.len() > 0 {
        let init = s.drop_last();
        assert(be_value(init) * 256 + s.last() as nat == 0);
        assert(be_value(init) == 0 && s.last() == 0);
        lemma_zero_value_strips(init);
        lemma_strip_push(init, s.last());
        assert(init.push(s.last()) =~= s);
    }
}

/// Digits below `2^width` are recovered from their value.
pub proof fn lemma_to_digits_unique(ds: Seq<nat>, width: nat)
    requires
        forall|k: int| 0 <= k < ds.len() ==> ds[k] < pow2(width),
    ensures
        to_digits(digits_value(ds, width), ds.len(), width) == ds,
    decreases ds.len(),
{
    if ds.len() > 0 {
        let init = ds.drop_last();
        let d = ds.last();
        let p = pow2(width);
        lemma_pow2_pos(width);
        lemma_to_digits_unique(init, width);
        let v = digits_value(ds, width);
        assert(v == digits_value(init, width) * p + d);
        assert(v / p == digits_value(init, width) && v % p == d) by {
            lemma_fundamental_div_mod(v as int, p as int);
            lemma_mod_bound(v as int, p as int);
            let q = v as int / p as int;
            let r = v as int % p as int;
            let w = digits_value(init, width) as int;
            assert(q == w && r == d as int) by (nonlinear_arith)
                requires
                    w * p + d == q * p + r,
                    0 <= r < p,
                    0 <= d < p,
            ;
        }
        assert(to_digits(v, ds.len(), width) =~= ds);
    }
}

} // verus!

verus! {

/// `1 << k` on a byte is `2^k`, for `k < 8`.
pub proof fn lemma_u8_one_shl(k: u8)
    requires
        k < 8,
    ensures
        (1u8 << k) as nat == pow2(k as nat),
        pow2(k as nat) <= 128,
{
    vstd::bits::lemma_u8_pow2_no_overflow(k as nat);
    lemma_pow2_pos(k as nat);
    vstd::bits::lemma_u8_shl_is_mul(1u8, k);
    if k < 7 {
        vstd::arithmetic::power2::lemma_pow2_strictly_increases(k as nat, 7);
    }
    lemma2_to64();
}

/// Facts about shifts and masks on a byte, as divisions and remainders by
/// powers of two.
pub proof fn lemma_u8_bit_facts(x: u8, s: u8)
    requires
        s < 8,
    ensures
        x >> s == x as nat / pow2(s as nat),
        ((255u8 << s) & x) >> s == x as nat / pow2(s as nat),
        (255u8 ^ (255u8 << s)) & x == x as nat % pow2(s as nat),
        1 <= s ==> (255u8 >> (8 - s) as u8) & x == x as nat % pow2(s as nat),
{
    lemma_u8_one_shl(s);
    vstd::bits::lemma_u8_shr_is_div(x, s);
    assert(((255u8 << s) & x) >> s == x >> s) by (bit_vector)
        requires
            s < 8,
    ;
    assert((255u8 ^ (255u8 << s)) & x == x % (1u8 << s)) by (bit_vector)
        requires
            s < 8,
    ;
    if 1 <= s {
        assert((255u8 >> (8 - s) as u8) & x == x % (1u8 << s)) by (bit_vector)
            requires
                1 <= s < 8,
        ;
    }
}

/// Or-ing a small value into the cleared low bits of a shifted byte adds it.
pub proof fn lemma_u8_shl_or(x: u8, k: u8, y: u8)
    requires
        k < 8,
        y < pow2(k as nat),
        x * pow2(k as nat) <= 255,
    ensures
        (x << k) | y == x * pow2(k as nat) + y,
{
    lemma_u8_one_shl(k);
    vstd::bits::lemma_u8_shl_is_mul(x, k);
    assert((x << k) | y == (x << k) + y) by (bit_vector)
        requires
            k < 8,
            y < (1u8 << k),
    ;
}


/// A multiple of `w` plus a remainder below `w` is a multiple of `w` only
/// when the remainder is zero.
pub proof fn lemma_aligned_remainder_zero(a: int, w: int, o: int)
    requires
        0 < w,
        0 <= o < w,
        0 <= a,
        (a * w + o) % w == 0,
    ensures
        o == 0,
{
    lemma_fundamental_div_mod(a * w + o, w);
    let q = (a * w + o) / w;
    assert(o == 0) by (nonlinear_arith)
        requires
            a * w + o == w * q,
            0 <= o < w,
    ;
}


/// Or-ing a value below `2^f` into a byte whose low `f` bits are clear adds it.
pub proof fn lemma_u8_or_low(x: u8, y: u8, f: u8)
    requires
        f <= 8,
        x as nat % pow2(f as nat) == 0,
        y < pow2(f as nat),
    ensures
        x | y == x + y,
{
    lemma2_to64();
    if f == 8 {
        assert(pow2(f as nat) == 256);
        assert(x as nat % 256 == 0);
        assert(x == 0);
        assert(0u8 | y == y) by (bit_vector);
    } else {
        lemma_u8_one_shl(f);
        assert(x | y == x + y) by (bit_vector)
            requires
                f < 8,
                x % (1u8 << f) == 0,
                y < (1u8 << f),
        ;
    }
}


/// `to_digits` yields exactly the number of digits asked for, each below `2^width`.
pub proof fn lemma_to_digits_len(v: nat, n: nat, width: nat)
    ensures
        to_digits(v, n, width).len() == n,
        forall|k: int| 0 <= k < n ==> #[trigger] to_digits(v, n, width)[k] < pow2(width),
    decreases n,
{
    lemma_pow2_pos(width);
    if n > 0 {
        lemma_to_digits_len(v / pow2(width), (n - 1) as nat, width);
        lemma_mod_bound(v as int, pow2(width) as int);
    }
}

/// Reading back the `n` lowest digits of `v` gives `v` modulo `2^(n * width)`.
pub proof fn lemma_to_digits_value(v: nat, n: nat, width: nat)
    ensures
        digits_value(to_digits(v, n, width), width) == v % pow2(n * width),
    decreases n,
{
    let p = pow2(width);
    lemma_pow2_pos(width);
    if n == 0 {
        assert(pow2(0) == 1) by { lemma2_to64(); }
        assert(n * width == 0);
    } else {
        let m = (n - 1) as nat;
        lemma_to_digits_value(v / p, m, width);
        let ds = to_digits(v, n, width);
        assert(ds.drop_last() =~= to_digits(v / p, m, width));
        let q = pow2(m * width);
        lemma_pow2_pos(m * width);
        lemma_pow2_adds(width, m * width);
        assert(width + m * width == n * width) by (nonlinear_arith)
            requires
                m + 1 == n,
        ;
        vstd::arithmetic::div_mod::lemma_mod_breakdown(v as int, p as int, q as int);
        assert(digits_value(ds, width) == ((v / p) % q) * p + v % p);
        assert(((v / p) % q) * p + v % p == p * ((v / p) % q) + v % p) by (nonlinear_arith);
    }
}

/// A big-endian byte string of length `n` has value below `2^(8 * n)`.
pub proof fn lemma_be_value_bound(s: Seq<u8>)
    ensures
        be_value(s) < pow2(8 * s.len()),
    decreases s.len(),
{
    if s.len() == 0 {
        assert(pow2(0) == 1) by { lemma2_to64(); }
    } else {
        let init = s.drop_last();
        lemma_be_value_bound(init);
        lemma_pow2_adds(8 * init.len(), 8);
        lemma2_to64();
        let q = pow2(8 * init.len());
        assert(be_value(init) * 256 + s.last() < q * 256) by (nonlinear_arith)
            requires
                be_value(init) < q,
                s.last() < 256,
        ;
    }
}

/// Writing a byte string as `2n` hexadecimal digits puts the high and low
/// half of byte `k` at positions `2k` and `2k + 1`.
pub proof fn lemma_hex_digits(bin: Seq<u8>)
    ensures
        to_digits(be_value(bin), 2 * bin.len(), 4).len() == 2 * bin.len(),
        forall|k: int|
            0 <= k < bin.len() ==> to_digits(be_value(bin), 2 * bin.len(), 4)[2 * k] == bin[k] / 16
                && to_digits(be_value(bin), 2 * bin.len(), 4)[2 * k + 1] == bin[k] % 16,
    decreases bin.len(),
{
    lemma_to_digits_len(be_value(bin), 2 * bin.len(), 4);
    if bin.len() > 0 {
        let init = bin.drop_last();
        let b = bin.last();
        lemma_hex_digits(init);
        lemma2_to64();
        let v = be_value(bin);
        let n = 2 * bin.len();
        assert(v == be_value(init) * 256 + b);
        assert(v / 16 == be_value(init) * 16 + b / 16);
        assert(v % 16 == b % 16);
        assert((v / 16) / 16 == be_value(init));
        assert((v / 16) % 16 == b / 16);
        let d = to_digits(v, n as nat, 4);
        let d1 = to_digits(v / 16, (n - 1) as nat, 4);
        let d0 = to_digits(be_value(init), (n - 2) as nat, 4);
        assert(d == d1.push(v % 16));
        assert(d1 == d0.push((v / 16) % 16));
        assert(n - 2 == 2 * init.len());
        assert forall|k: int| 0 <= k < bin.len() implies d[2 * k] == bin[k] / 16
            && d[2 * k + 1] == bin[k] % 16 by {
            if k < init.len() {
                assert(bin[k] == init[k]);
            }
        }
    }
}

/// The value of two byte strings one after the other.
pub proof fn lemma_be_value_concat(a: Seq<u8>, b: Seq<u8>)
    ensures
        be_value(a + b) == be_value(a) * pow2(8 * b.len()) + be_value(b),
    decreases b.len(),
{
    if b.len() == 0 {
        assert(a + b =~= a);
        assert(pow2(0) == 1) by { lemma2_to64(); }
        assert(8 * b.len() == 0);
        assert(be_value(a) * 1 == be_value(a));
    } else {
        let bi = b.drop_last();
        lemma_be_value_concat(a, bi);
        assert((a + b).drop_last() =~= a + bi);
        assert((a + b).last() == b.last());
        lemma_pow2_adds(8 * bi.len(), 8);
        lemma2_to64();
        assert(8 * bi.len() + 8 == 8 * b.len());
        let x = be_value(a);
        let q = pow2(8 * bi.len());
        assert((x * q + be_value(bi)) * 256 + b.last() as nat == x * (q * 256) + (be_value(bi) * 256 + b.last() as nat))
            by (nonlinear_arith);
        assert(be_value(b) == be_value(bi) * 256 + b.last() as nat);
        assert(pow2(8 * b.len()) == q * 256);
    }
}

/// The lowest `n + m` digits of `v` are the lowest `n` digits of what is
/// left once the lowest `m` digits are shifted out, followed by those `m`.
pub proof fn lemma_to_digits_split(v: nat, n: nat, m: nat, width: nat)
    ensures
        to_digits(v, n + m, width) == to_digits(v / pow2(m * width), n, width) + to_digits(v, m, width),
    decreases m,
{
    let p = pow2(width);
    lemma_pow2_pos(width);
    if m == 0 {
        assert(pow2(0) == 1) by { lemma2_to64(); }
        assert(m * width == 0) by (nonlinear_arith)
            requires
                m == 0,
        ;
        assert(v / 1 == v);
        assert(to_digits(v / pow2(m * width), n, width) + Seq::<nat>::empty() =~= to_digits(v, n, width));
    } else {
        let k = (m - 1) as nat;
        lemma_to_digits_split(v / p, n, k, width);
        assert(to_digits(v, n + m, width) == to_digits(v / p, (n + k) as nat, width).push(v % p));
        lemma_pow2_adds(width, k * width);
        assert(width + k * width == m * width) by (nonlinear_arith)
            requires
                k + 1 == m,
        ;
        lemma_pow2_pos(k * width);
        vstd::arithmetic::div_mod::lemma_div_denominator(v as int, p as int, pow2(k * width) as int);
        assert((v / p) / pow2(k * width) == v / pow2(m * width));
        let hi = to_digits(v / pow2(m * width), n, width);
        let lo = to_digits(v / p, k, width);
        assert((hi + lo).push(v % p) =~= hi + lo.push(v % p));
    }
}

/// The lowest `m` digits of `v` depend on `v` modulo `2^(m * width)` alone.
pub proof fn lemma_to_digits_mod(v: nat, m: nat, width: nat)
    ensures
        to_digits(v, m, width) == to_digits(v % pow2(m * width), m, width),
{
    let ds = to_digits(v, m, width);
    lemma_to_digits_len(v, m, width);
    lemma_to_digits_value(v, m, width);
    lemma_to_digits_unique(ds, width);
}

} // verus!
