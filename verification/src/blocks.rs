//! Block padding and detection of repeated fixed-size blocks.

use vstd::prelude::*;

verus! {

/// How many bytes `pad_to` appends to a buffer of length `len`.
pub open spec fn pad_len(len: nat, block_size: nat) -> nat {
    ((block_size - len % block_size) % (block_size as int)) as nat
}

/// `data` followed by `pad_len` copies of the byte `pad_len` (taken modulo 256).
pub open spec fn padded(data: Seq<u8>, block_size: nat) -> Seq<u8> {
    let p = pad_len(data.len(), block_size);
    data + Seq::new(p, |i: int| p as u8)
}

/// Pads `to_pad` up to the next multiple of `block_size` by appending
/// `k` bytes of value `k` (modulo 256); nothing is added when the length is
/// already a multiple.
pub fn pad_to(to_pad: &mut Vec<u8>, block_size: usize)
    requires
        block_size > 0,
    ensures
        final(to_pad)@ == padded(old(to_pad)@, block_size as nat),
{
    let to_append: usize = (block_size - (to_pad.len() % block_size)) % block_size;
    let ghost start: Seq<u8> = to_pad@;
    let b: u8 = #[verifier::truncate] (to_append as u8);
    let mut i: usize = 0;
    while i < to_append
        invariant
            to_append == pad_len(start.len(), block_size as nat),
            b == to_append as u8,
            i <= to_append,
            to_pad@ == start + Seq::new(i as nat, |k: int| b),
        decreases to_append - i,
    {
        to_pad.push(b);
        i += 1;
        proof {
            assert(to_pad@ =~= start + Seq::new(i as nat, |k: int| b));
        }
    }
    proof {
        assert(to_pad@ =~= padded(start, block_size as nat));
    }
}

/// Padding makes the length the least multiple of the block size that is
/// not below the length before, and padding again adds nothing.
pub proof fn law_pad_to_block_multiple(data: Seq<u8>, block_size: nat)
    requires
        block_size > 0,
    ensures
        padded(data, block_size).len() % block_size == 0,
        data.len() <= padded(data, block_size).len() < data.len() + block_size,
        padded(padded(data, block_size), block_size) == padded(data, block_size),
        padded(data, block_size).subrange(0, data.len() as int) == data,
{
    let l = data.len();
    let r = l % block_size;
    let p = pad_len(l, block_size);
    vstd::arithmetic::div_mod::lemma_mod_self_0(block_size as int);
    if r == 0 {
        assert(p == 0);
    } else {
        vstd::arithmetic::div_mod::lemma_small_mod((block_size - r) as nat, block_size);
        assert(p == block_size - r);
        assert(((l + (block_size - r)) as int) % (block_size as int) == 0) by {
            vstd::arithmetic::div_mod::lemma_fundamental_div_mod(l as int, block_size as int);
            let q = l as int / block_size as int;
            assert(l + (block_size - r) == (q + 1) * block_size) by (nonlinear_arith)
                requires
                    l == block_size * q + r,
            ;
            vstd::arithmetic::div_mod::lemma_mod_multiples_basic(q + 1, block_size as int);
        }
    }
    let d2 = padded(data, block_size);
    assert(d2.len() % block_size == 0);
    assert(pad_len(d2.len(), block_size) == 0);
    assert(padded(d2, block_size) =~= d2);
    assert(d2.subrange(0, l as int) =~= data);
}

/// Block `i` of `data`, blocks being `n` bytes long.
pub open spec fn block(data: Seq<u8>, n: nat, i: int) -> Seq<u8> {
    data.subrange(i * n, i * n + n)
}

/// Two of the complete `n`-byte blocks of `data` are equal.
pub open spec fn has_repeated_block(data: Seq<u8>, n: nat) -> bool {
    exists|i: int, j: int|
        0 <= i < j < (data.len() as int) / (n as int) && #[trigger] block(data, n, i) == #[trigger] block(data, n, j)
}

proof fn lemma_block_in_range(len: nat, n: nat, i: int)
    requires
        n > 0,
        0 <= i < (len as int) / (n as int),
    ensures
        0 <= i * n,
        i * n + n <= len,
{
    vstd::arithmetic::div_mod::lemma_fundamental_div_mod(len as int, n as int);
    let q = len as int / n as int;
    assert(0 <= i * n && i * n + n <= len) by (nonlinear_arith)
        requires
            0 <= i < q,
            len == n * q + len as int % n as int,
            len as int % n as int >= 0,
            n > 0,
    ;
}

fn same_bytes(data: &Vec<u8>, a: usize, b: usize, n: usize) -> (r: bool)
    requires
        a + n <= data@.len(),
        b + n <= data@.len(),
    ensures
        r == (data@.subrange(a as int, a + n) == data@.subrange(b as int, b + n)),
{
    let len: usize = data.len();
    let mut k: usize = 0;
    while k < n
        invariant
            len == data@.len(),
            a + n <= data@.len(),
            b + n <= data@.len(),
            k <= n,
            forall|t: int| 0 <= t < k ==> #[trigger] data@.subrange(a as int, a + n)[t] == data@.subrange(b as int, b + n)[t],
        decreases n - k,
    {
        if data[a + k] != data[b + k] {
            proof {
                assert(data@.subrange(a as int, a + n)[k as int] != data@.subrange(b as int, b + n)[k as int]);
            }
            return false;
        }
        k += 1;
    }
    proof {
        assert(data@.subrange(a as int, a + n) =~= data@.subrange(b as int, b + n));
    }
    true
}

/// Whether two of the complete `n`-byte blocks of `data` are equal (a
/// trailing partial block is not looked at).
// The blocks are compared pairwise. With an ordered map keyed by the blocks
// (`BTreeMap<&[u8], u32>`, vstd's specified BTreeMap), Verus accepts the
// calls, but vstd's ordering laws do not cover slice keys, and not even the
// map's length after one `insert` could be proved.
pub fn byte_repeats_exist(data: &Vec<u8>, n: usize) -> (r: bool)
    requires
        n > 0,
    ensures
        r == has_repeated_block(data@, n as nat),
{
    let len: usize = data.len();
    let m: usize = data.len() / n;
    let mut j: usize = 0;
    while j < m
        invariant
            len == data@.len(),
            n > 0,
            m == (data@.len() as int) / (n as int),
            j <= m,
            forall|i1: int, j1: int|
                0 <= i1 < j1 < j ==> #[trigger] block(data@, n as nat, i1) != #[trigger] block(data@, n as nat, j1),
        decreases m - j,
    {
        proof {
            lemma_block_in_range(data@.len(), n as nat, j as int);
        }
        let bj: usize = j * n;
        let mut i: usize = 0;
        while i < j
            invariant
                len == data@.len(),
                n > 0,
                m == (data@.len() as int) / (n as int),
                j < m,
                i <= j,
                bj == j * n,
                bj + n <= data@.len(),
                forall|i1: int, j1: int|
                    0 <= i1 < j1 < j ==> #[trigger] block(data@, n as nat, i1) != #[trigger] block(data@, n as nat, j1),
                forall|i1: int| 0 <= i1 < i ==> #[trigger] block(data@, n as nat, i1) != block(data@, n as nat, j as int),
            decreases j - i,
        {
            proof {
                lemma_block_in_range(data@.len(), n as nat, i as int);
            }
            let bi: usize = i * n;
            if same_bytes(data, bi, bj, n) {
                proof {
                    assert(block(data@, n as nat, i as int) == block(data@, n as nat, j as int));
                }
                return true;
            }
            i += 1;
        }
        j += 1;
    }
    false
}

} // verus!
