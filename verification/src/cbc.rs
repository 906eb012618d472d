//! CBC mode built from the ECB primitives, chunk by chunk, with the chunk
//! size given by the length of the initialisation vector.

use vstd::prelude::*;
use crate::aes::{aes_block, aes128_decrypt_block, ecb_apply, ecb_decrypt, ecb_encrypt};
use crate::blocks::{pad_to, padded};
use crate::xor::{xor_bytes, xor_vecs};

verus! {

/// Chunk `i` of `s`, chunks being `cs` bytes long.
pub open spec fn chunk(s: Seq<u8>, cs: nat, i: int) -> Seq<u8> {
    s.subrange(i * cs, i * cs + cs)
}

/// `n` zero bytes.
pub open spec fn zeros(n: nat) -> Seq<u8> {
    Seq::new(n, |i: int| 0u8)
}

/// ECB encryption of a chunk into a zeroed buffer of the same length.
pub open spec fn encrypt_chunk(key: Seq<u8>, x: Seq<u8>) -> Seq<u8> {
    ecb_apply(key, x, zeros(x.len()), true)
}

/// ECB decryption of a chunk into a zeroed buffer of the same length.
pub open spec fn decrypt_chunk(key: Seq<u8>, x: Seq<u8>) -> Seq<u8> {
    ecb_apply(key, x, zeros(x.len()), false)
}

/// The first `n` ciphertext chunks of CBC over `p`: each plaintext chunk is
/// XORed with the previous ciphertext chunk (the first with `iv`) and then
/// encrypted; chunks are `iv.len()` bytes long.
pub open spec fn cbc_enc_chunks(p: Seq<u8>, iv: Seq<u8>, key: Seq<u8>, n: nat) -> Seq<u8>
    decreases n,
{
    if n == 0 {
        Seq::empty()
    } else {
        let prev = cbc_enc_chunks(p, iv, key, (n - 1) as nat);
        let chain = if n == 1 { iv } else { chunk(prev, iv.len(), n - 2) };
        prev + encrypt_chunk(key, xor_bytes(chunk(p, iv.len(), n - 1), chain))
    }
}

/// The first `n` plaintext chunks of CBC decryption of `c`: each chunk is
/// decrypted and XORed with the previous ciphertext chunk (the first with `iv`).
pub open spec fn cbc_dec_chunks(c: Seq<u8>, iv: Seq<u8>, key: Seq<u8>, n: nat) -> Seq<u8>
    decreases n,
{
    if n == 0 {
        Seq::empty()
    } else {
        let prev = cbc_dec_chunks(c, iv, key, (n - 1) as nat);
        let chain = if n == 1 { iv } else { chunk(c, iv.len(), n - 2) };
        prev + xor_bytes(chain, decrypt_chunk(key, chunk(c, iv.len(), n - 1)))
    }
}

/// CBC encryption of the complete chunks of `p`.
pub open spec fn cbc_encrypt_spec(p: Seq<u8>, iv: Seq<u8>, key: Seq<u8>) -> Seq<u8> {
    cbc_enc_chunks(p, iv, key, p.len() / iv.len())
}

/// CBC decryption of the complete chunks of `c`, followed by a zero byte for
/// each byte of a trailing partial chunk.
pub open spec fn cbc_decrypt_spec(c: Seq<u8>, iv: Seq<u8>, key: Seq<u8>) -> Seq<u8> {
    cbc_dec_chunks(c, iv, key, c.len() / iv.len()) + zeros(c.len() % iv.len())
}

proof fn lemma_chunk_bounds(len: nat, cs: nat, i: int)
    requires
        cs > 0,
        0 <= i < (len / cs) as int,
    ensures
        0 <= i * cs,
        i * cs + cs <= len,
        (i + 1) * cs == i * cs + cs,
{
    vstd::arithmetic::div_mod::lemma_fundamental_div_mod(len as int, cs as int);
    let q = (len / cs) as int;
    assert(0 <= i * cs && i * cs + cs <= len && (i + 1) * cs == i * cs + cs) by (nonlinear_arith)
        requires
            0 <= i < q,
            len == cs * q + len as int % cs as int,
            len as int % cs as int >= 0,
            cs > 0,
    ;
}

proof fn lemma_mul_div(i: int, cs: int)
    requires
        cs > 0,
    ensures
        (i * cs) / cs == i,
{
    vstd::arithmetic::div_mod::lemma_div_multiples_vanish(i, cs);
    assert(i * cs == cs * i) by (nonlinear_arith);
}

/// The chunk that chunk `k` of a CBC ciphertext `c` is chained with.
pub open spec fn cbc_chain(c: Seq<u8>, iv: Seq<u8>, k: int) -> Seq<u8> {
    if k == 0 { iv } else { chunk(c, iv.len(), k - 1) }
}

/// When each 16-byte block of `c` decrypts to the matching block of `x`,
/// decrypting the chunk `c` gives `x`.
proof fn lemma_ecb_inverse(key: Seq<u8>, x: Seq<u8>, c: Seq<u8>)
    requires
        x.len() == c.len(),
        x.len() % 16 == 0,
        forall|i: int|
            0 <= i && 16 * i + 16 <= x.len() && 16 * i + 16 <= c.len()
                ==> aes128_decrypt_block(key, #[trigger] aes_block(c, i)) == aes_block(x, i),
    ensures
        decrypt_chunk(key, c) == x,
{
    assert forall|j: int| 0 <= j < x.len() implies #[trigger] decrypt_chunk(key, c)[j] == x[j] by {
        let i = j / 16;
        assert(16 * i + 16 <= x.len());
        assert(aes128_decrypt_block(key, aes_block(c, i)) == aes_block(x, i));
        assert(aes_block(x, i)[j % 16] == x[16 * i + j % 16]);
    }
    assert(decrypt_chunk(key, c) =~= x);
}

/// Appending a chunk that decrypts to its plaintext chunk XORed with its
/// chain keeps every chunk of the ciphertext so far in that relation.
proof fn lemma_extend_inverse(p: Seq<u8>, out: Seq<u8>, c: Seq<u8>, iv: Seq<u8>, key: Seq<u8>, i: nat)
    requires
        iv.len() > 0,
        out.len() == i * iv.len(),
        c.len() == iv.len(),
        forall|k: int|
            0 <= k < i ==> decrypt_chunk(key, #[trigger] chunk(out, iv.len(), k))
                == xor_bytes(chunk(p, iv.len(), k), cbc_chain(out, iv, k)),
        decrypt_chunk(key, c) == xor_bytes(chunk(p, iv.len(), i as int), cbc_chain(out, iv, i as int)),
    ensures
        forall|k: int|
            0 <= k < i + 1 ==> decrypt_chunk(key, #[trigger] chunk(out + c, iv.len(), k))
                == xor_bytes(chunk(p, iv.len(), k), cbc_chain(out + c, iv, k)),
{
    let cs = iv.len();
    let n = out + c;
    lemma_mul_div(i as int, cs as int);
    assert(chunk(n, cs, i as int) =~= c);
    assert forall|k: int| 0 <= k < i implies #[trigger] chunk(n, cs, k) == chunk(out, cs, k) by {
        lemma_chunk_bounds(out.len(), cs, k);
        assert(chunk(n, cs, k) =~= chunk(out, cs, k));
    }
    assert forall|k: int|
        0 <= k < i + 1 implies decrypt_chunk(key, #[trigger] chunk(n, cs, k))
            == xor_bytes(chunk(p, cs, k), cbc_chain(n, iv, k)) by {
        if k > 0 {
            assert(chunk(n, cs, k - 1) == chunk(out, cs, k - 1));
        }
        if k < i {
            assert(chunk(n, cs, k) == chunk(out, cs, k));
        }
    }
}

/// When each ciphertext chunk decrypts to the plaintext chunk XORed with its
/// chain, CBC decryption of the first `n` chunks gives back the plaintext.
proof fn lemma_cbc_roundtrip(p: Seq<u8>, c: Seq<u8>, iv: Seq<u8>, key: Seq<u8>, n: nat)
    requires
        iv.len() > 0,
        c.len() >= n * iv.len(),
        p.len() >= n * iv.len(),
        forall|k: int|
            0 <= k < n ==> decrypt_chunk(key, #[trigger] chunk(c, iv.len(), k))
                == xor_bytes(chunk(p, iv.len(), k), cbc_chain(c, iv, k)),
    ensures
        cbc_dec_chunks(c, iv, key, n) == p.subrange(0, (n * iv.len()) as int),
    decreases n,
{
    let cs = iv.len();
    if n == 0 {
        assert(n * cs == 0) by (nonlinear_arith)
            requires
                n == 0,
        ;
        assert(p.subrange(0, 0) =~= Seq::<u8>::empty());
    } else {
        let m = (n - 1) as nat;
        assert(m * cs + cs == n * cs) by (nonlinear_arith)
            requires
                m + 1 == n,
        ;
        assert(0 <= m * cs) by (nonlinear_arith);
        lemma_cbc_roundtrip(p, c, iv, key, m);
        let ch = cbc_chain(c, iv, m as int);
        if m > 0 {
            assert((m - 1) * cs + cs == m * cs) by (nonlinear_arith);
            assert(0 <= (m - 1) * cs) by (nonlinear_arith)
                requires
                    m >= 1,
            ;
        }
        assert(ch.len() == cs);
        let pc = chunk(p, cs, m as int);
        let d = decrypt_chunk(key, chunk(c, cs, m as int));
        assert(d == xor_bytes(pc, ch));
        let y = xor_bytes(ch, d);
        assert forall|j: int| 0 <= j < cs implies y[j] == pc[j] by {
            let a = ch[j];
            let b = pc[j];
            assert(a ^ (b ^ a) == b) by (bit_vector);
        }
        assert(y =~= pc);
        assert(cbc_dec_chunks(c, iv, key, n) == cbc_dec_chunks(c, iv, key, m) + y);
        assert(p.subrange(0, (n * cs) as int) =~= p.subrange(0, (m * cs) as int) + pc);
    }
}

proof fn lemma_cbc_enc_len(p: Seq<u8>, iv: Seq<u8>, key: Seq<u8>, n: nat)
    requires
        iv.len() > 0,
        p.len() >= n * iv.len(),
    ensures
        cbc_enc_chunks(p, iv, key, n).len() == n * iv.len(),
    decreases n,
{
    let cs = iv.len();
    if n > 0 {
        let m = (n - 1) as nat;
        assert(m * cs + cs == n * cs && 0 <= m * cs) by (nonlinear_arith)
            requires
                m + 1 == n,
        ;
        lemma_cbc_enc_len(p, iv, key, m);
        let prev = cbc_enc_chunks(p, iv, key, m);
        if n > 1 {
            assert((m - 1) * cs + cs == m * cs && 0 <= (m - 1) * cs) by (nonlinear_arith)
                requires
                    m >= 1,
            ;
        }
        let chain = if n == 1 { iv } else { chunk(prev, cs, n - 2) };
        assert(chain.len() == cs);
        let x = xor_bytes(chunk(p, cs, m as int), chain);
        assert(x.len() == cs);
        assert(encrypt_chunk(key, x).len() == cs);
        assert(cbc_enc_chunks(p, iv, key, n) == prev + encrypt_chunk(key, x));
    } else {
        assert(n * cs == 0) by (nonlinear_arith)
            requires
                n == 0,
        ;
    }
}

proof fn lemma_cbc_enc_extends(p: Seq<u8>, iv: Seq<u8>, key: Seq<u8>, n: nat, m: nat)
    requires
        iv.len() > 0,
        n <= m,
        p.len() >= m * iv.len(),
    ensures
        cbc_enc_chunks(p, iv, key, m).take((n * iv.len() as int)) == cbc_enc_chunks(p, iv, key, n),
    decreases m,
{
    let cs = iv.len();
    lemma_cbc_enc_len(p, iv, key, m);
    if n == m {
        assert(cbc_enc_chunks(p, iv, key, m).take((n * cs) as int) =~= cbc_enc_chunks(p, iv, key, m));
    } else {
        let k = (m - 1) as nat;
        assert(n * cs <= k * cs && k * cs <= m * cs) by (nonlinear_arith)
            requires
                n <= k,
                k + 1 == m,
        ;
        lemma_cbc_enc_len(p, iv, key, k);
        lemma_cbc_enc_extends(p, iv, key, n, k);
        let prev = cbc_enc_chunks(p, iv, key, k);
        assert(cbc_enc_chunks(p, iv, key, m).take((n * cs) as int) =~= prev.take((n * cs) as int));
    }
}

proof fn lemma_cbc_enc_same_prefix(p1: Seq<u8>, p2: Seq<u8>, iv: Seq<u8>, key: Seq<u8>, n: nat)
    requires
        iv.len() > 0,
        p1.len() >= n * iv.len(),
        p2.len() >= n * iv.len(),
        p1.take((n * iv.len() as int)) == p2.take((n * iv.len() as int)),
    ensures
        cbc_enc_chunks(p1, iv, key, n) == cbc_enc_chunks(p2, iv, key, n),
    decreases n,
{
    let cs = iv.len();
    if n > 0 {
        let m = (n - 1) as nat;
        assert(m * cs + cs == n * cs && 0 <= m * cs) by (nonlinear_arith)
            requires
                m + 1 == n,
        ;
        assert(p1.take((m * cs) as int) =~= p1.take((n * cs) as int).take((m * cs) as int));
        assert(p2.take((m * cs) as int) =~= p2.take((n * cs) as int).take((m * cs) as int));
        lemma_cbc_enc_same_prefix(p1, p2, iv, key, m);
        assert forall|j: int| 0 <= j < cs implies #[trigger] chunk(p1, cs, m as int)[j] == chunk(p2, cs, m as int)[j] by {
            assert(p1.take((n * cs) as int)[m * cs + j] == p2.take((n * cs) as int)[m * cs + j]);
        }
        assert(chunk(p1, cs, m as int) =~= chunk(p2, cs, m as int));
    }
}

/// CBC is a chained mode that only looks back: the first `k` ciphertext
/// chunks of `cbc_encrypt` depend on the IV, the key and the first `k`
/// plaintext chunks alone, whatever follows them.
pub proof fn law_cbc_prefix(p1: Seq<u8>, p2: Seq<u8>, iv: Seq<u8>, key: Seq<u8>, k: nat)
    requires
        iv.len() > 0,
        k * iv.len() <= p1.len(),
        k * iv.len() <= p2.len(),
        p1.take((k * iv.len() as int)) == p2.take((k * iv.len() as int)),
    ensures
        cbc_encrypt_spec(padded(p1, iv.len()), iv, key).take((k * iv.len() as int))
            == cbc_encrypt_spec(padded(p2, iv.len()), iv, key).take((k * iv.len() as int)),
{
    let cs = iv.len();
    let q1 = padded(p1, cs);
    let q2 = padded(p2, cs);
    crate::blocks::law_pad_to_block_multiple(p1, cs);
    crate::blocks::law_pad_to_block_multiple(p2, cs);
    let n1 = q1.len() / cs;
    let n2 = q2.len() / cs;
    vstd::arithmetic::div_mod::lemma_fundamental_div_mod(q1.len() as int, cs as int);
    vstd::arithmetic::div_mod::lemma_fundamental_div_mod(q2.len() as int, cs as int);
    assert(k <= n1 && q1.len() == n1 * cs) by (nonlinear_arith)
        requires
            q1.len() == cs * n1 + q1.len() % cs,
            q1.len() % cs == 0,
            k * cs <= q1.len(),
            cs > 0,
    ;
    assert(k <= n2 && q2.len() == n2 * cs) by (nonlinear_arith)
        requires
            q2.len() == cs * n2 + q2.len() % cs,
            q2.len() % cs == 0,
            k * cs <= q2.len(),
            cs > 0,
    ;
    lemma_cbc_enc_extends(q1, iv, key, k, n1);
    lemma_cbc_enc_extends(q2, iv, key, k, n2);
    assert(q1.take((k * cs) as int) =~= p1.take((k * cs) as int)) by {
        assert(q1.subrange(0, p1.len() as int) == p1);
        assert forall|j: int| 0 <= j < k * cs implies q1[j] == p1[j] by {
            assert(q1.subrange(0, p1.len() as int)[j] == q1[j]);
        }
    }
    assert(q2.take((k * cs) as int) =~= p2.take((k * cs) as int)) by {
        assert(q2.subrange(0, p2.len() as int) == p2);
        assert forall|j: int| 0 <= j < k * cs implies q2[j] == p2[j] by {
            assert(q2.subrange(0, p2.len() as int)[j] == q2[j]);
        }
    }
    assert(k * cs <= q1.len() && k * cs <= q2.len());
    lemma_cbc_enc_same_prefix(q1, q2, iv, key, k);
}

/// Encrypts `bin` in CBC mode: pads it (in place) to a multiple of the
/// length of `iv`, then XORs each chunk with the previous ciphertext chunk
/// (the first with `iv`) and encrypts it with AES-128 in ECB mode.
/// When the chunk length is a multiple of the AES block size, decrypting the
/// result with `cbc_decrypt` gives back the padded input.
pub fn cbc_encrypt(bin: &mut Vec<u8>, iv: &Vec<u8>, key: &Vec<u8>) -> (vec_out: Vec<u8>)
    requires
        iv@.len() > 0,
        old(bin)@.len() > 0,
        key@.len() == 16,
    ensures
        final(bin)@ == padded(old(bin)@, iv@.len()),
        vec_out@ == cbc_encrypt_spec(final(bin)@, iv@, key@),
        iv@.len() % 16 == 0 ==> cbc_decrypt_spec(vec_out@, iv@, key@) == final(bin)@,
{
    let chunksize: usize = iv.len();
    pad_to(bin, chunksize);
    proof {
        crate::blocks::law_pad_to_block_multiple(old(bin)@, chunksize as nat);
    }
    let l: usize = bin.len();
    let nchunks: usize = l / chunksize;
    let ghost p: Seq<u8> = bin@;
    let mut vec_out: Vec<u8> = Vec::new();
    let mut i: usize = 0;
    while i < nchunks
        invariant
            p == bin@,
            l == p.len(),
            chunksize == iv@.len(),
            chunksize > 0,
            key@.len() == 16,
            nchunks == p.len() / chunksize as nat,
            i <= nchunks,
            vec_out@ == cbc_enc_chunks(p, iv@, key@, i as nat),
            vec_out@.len() == i * chunksize,
            chunksize % 16 == 0 ==> forall|k: int|
                0 <= k < i ==> decrypt_chunk(key@, #[trigger] chunk(vec_out@, chunksize as nat, k))
                    == xor_bytes(chunk(p, chunksize as nat, k), cbc_chain(vec_out@, iv@, k)),
        decreases nchunks - i,
    {
        let ghost old_out: Seq<u8> = vec_out@;
        proof {
            lemma_chunk_bounds(p.len(), chunksize as nat, i as int);
        }
        let start: usize = i * chunksize;
        let end: usize = start + chunksize;
        let plain: &[u8] = &bin.as_slice()[start..end];
        let x: Vec<u8> = if i == 0 {
            xor_vecs(plain, iv.as_slice())
        } else {
            proof {
                lemma_mul_div(i as int, chunksize as int);
                lemma_chunk_bounds(vec_out@.len(), chunksize as nat, (i - 1) as int);
            }
            xor_vecs(plain, &vec_out.as_slice()[start - chunksize..start])
        };
        let mut c: Vec<u8> = vec![0; chunksize];
        ecb_encrypt(x.as_slice(), c.as_mut_slice(), key.as_slice());
        proof {
            assert(c@ =~= crate::cbc::encrypt_chunk(key@, x@));
            let cs = chunksize as nat;
            assert(x@ == xor_bytes(chunk(p, cs, i as int), cbc_chain(old_out, iv@, i as int)));
            if chunksize % 16 == 0 {
                lemma_ecb_inverse(key@, x@, c@);
                lemma_extend_inverse(p, old_out, c@, iv@, key@, i as nat);
            }
        }
        vec_out.append(&mut c);
        i += 1;
        proof {
            assert((i - 1) * chunksize + chunksize == i * chunksize) by (nonlinear_arith);
        }
    }
    proof {
        let cs = chunksize as nat;
        lemma_mul_div(nchunks as int, cs as int);
        vstd::arithmetic::div_mod::lemma_fundamental_div_mod(p.len() as int, cs as int);
        assert(p.len() == nchunks * cs);
        if chunksize % 16 == 0 {
            lemma_cbc_roundtrip(p, vec_out@, iv@, key@, nchunks as nat);
            assert(vec_out@.len() % cs == 0) by {
                vstd::arithmetic::div_mod::lemma_mod_multiples_basic(nchunks as int, cs as int);
            }
            assert(zeros(0) =~= Seq::<u8>::empty());
            assert(p.subrange(0, p.len() as int) =~= p);
        }
    }
    vec_out
}


/// Decrypts `bin` in CBC mode: each complete chunk (as long as `iv`) is
/// decrypted with AES-128 in ECB mode and XORed with the previous ciphertext
/// chunk (the first with `iv`); a trailing partial chunk comes out as zeros.
pub fn cbc_decrypt(bin: &Vec<u8>, iv: &Vec<u8>, key: &Vec<u8>) -> (vec_out2: Vec<u8>)
    requires
        iv@.len() > 0,
        bin@.len() >= iv@.len() ==> key@.len() == 16,
    ensures
        vec_out2@ == cbc_decrypt_spec(bin@, iv@, key@),
{
    let chunksize: usize = iv.len();
    let l: usize = bin.len();
    let nchunks: usize = l / chunksize;
    let ghost c: Seq<u8> = bin@;
    proof {
        if nchunks > 0 {
            vstd::arithmetic::div_mod::lemma_fundamental_div_mod(c.len() as int, chunksize as int);
            assert(c.len() >= chunksize) by (nonlinear_arith)
                requires
                    c.len() == chunksize * (c.len() as int / chunksize as int) + c.len() as int % chunksize as int,
                    c.len() as int / chunksize as int >= 1,
                    c.len() as int % chunksize as int >= 0,
                    chunksize > 0,
            ;
        }
    }
    let mut vec_out2: Vec<u8> = Vec::new();
    let mut i: usize = 0;
    while i < nchunks
        invariant
            c == bin@,
            l == c.len(),
            chunksize == iv@.len(),
            chunksize > 0,
            nchunks == c.len() / chunksize as nat,
            nchunks > 0 ==> key@.len() == 16,
            i <= nchunks,
            vec_out2@ == cbc_dec_chunks(c, iv@, key@, i as nat),
            vec_out2@.len() == i * chunksize,
        decreases nchunks - i,
    {
        proof {
            lemma_chunk_bounds(c.len(), chunksize as nat, i as int);
        }
        let start: usize = i * chunksize;
        let end: usize = start + chunksize;
        let cipher: &[u8] = &bin.as_slice()[start..end];
        let mut d: Vec<u8> = vec![0; chunksize];
        ecb_decrypt(cipher, d.as_mut_slice(), key.as_slice());
        proof {
            assert(d@ =~= decrypt_chunk(key@, cipher@));
        }
        let mut plain: Vec<u8> = if i == 0 {
            xor_vecs(iv.as_slice(), d.as_slice())
        } else {
            proof {
                lemma_chunk_bounds(c.len(), chunksize as nat, (i - 1) as int);
            }
            xor_vecs(&bin.as_slice()[start - chunksize..start], d.as_slice())
        };
        vec_out2.append(&mut plain);
        i += 1;
        proof {
            assert((i - 1) * chunksize + chunksize == i * chunksize) by (nonlinear_arith);
        }
    }
    let tail: usize = l % chunksize;
    let ghost body: Seq<u8> = vec_out2@;
    let mut k: usize = 0;
    while k < tail
        invariant
            k <= tail,
            vec_out2@ == body + zeros(k as nat),
        decreases tail - k,
    {
        vec_out2.push(0);
        k += 1;
        proof {
            assert(vec_out2@ =~= body + zeros(k as nat));
        }
    }
    vec_out2
}
} // verus!
