//! An encryption oracle that picks ECB or CBC, and the test that tells ECB
//! apart by its repeated ciphertext blocks.

use vstd::prelude::*;
use rand::{OsRng, Rng};
use crate::aes::{aes_block, aes128_decrypt_block, ecb_apply, ecb_encrypt};
use crate::blocks::{block, byte_repeats_exist, has_repeated_block, pad_to, padded};
use crate::cbc::{cbc_decrypt_spec, cbc_encrypt, cbc_encrypt_spec, zeros};

verus! {

/// `n` bytes from the operating system's random number generator, calling
/// `rand`'s `OsRng::new` and taking `n` items of its `gen_iter::<u8>`.
///
/// Trusted: the contract only says that a result, when there is one, has
/// `n` bytes; the bytes are random, and `None` stands for the generator not
/// being available when it is opened. Should the operating system's source
/// fail after it was opened, `rand` panics while filling the bytes; that is
/// a fault of the machine, not of any input, and is not excluded here.
#[verifier::external_body]
fn random_bytes(n: usize) -> (r: Option<Vec<u8>>)
    ensures
        r matches Some(v) ==> v@.len() == n,
{
    match OsRng::new() {
        Ok(mut g) => Some(g.gen_iter::<u8>().take(n).collect()),
        Err(_) => None,
    }
}

/// The text that the oracle is fed: `"HE"` repeated 136 times.
pub open spec fn oracle_text() -> Seq<u8> {
    Seq::new(272, |i: int| if i % 2 == 0 { 72u8 } else { 69u8 })
}

/// The text that the oracle is fed.
pub fn oracle_plaintext() -> (t: Vec<u8>)
    ensures
        t@ == oracle_text(),
{
    let mut t: Vec<u8> = Vec::new();
    let mut i: usize = 0;
    while i < 136
        invariant
            i <= 136,
            t@ == Seq::new(2 * i as nat, |j: int| if j % 2 == 0 { 72u8 } else { 69u8 }),
        decreases 136 - i,
    {
        t.push(72);
        t.push(69);
        i += 1;
        proof {
            assert(t@ =~= Seq::new(2 * i as nat, |j: int| if j % 2 == 0 { 72u8 } else { 69u8 }));
        }
    }
    t
}

/// The plaintext that the oracle encrypts: the bytes of `prepend` in reverse
/// order, then `bin`, then `append`, padded to a multiple of 16.
pub open spec fn oracle_input(bin: Seq<u8>, prepend: Seq<u8>, append: Seq<u8>) -> Seq<u8> {
    padded(prepend.reverse() + bin + append, 16)
}

/// What the oracle returns for the plaintext `x` and its choices.
#[verifier::opaque]
pub open spec fn oracle_output(x: Seq<u8>, key: Seq<u8>, iv: Seq<u8>, do_ecb: bool) -> Seq<u8> {
    if do_ecb {
        ecb_apply(key, x, zeros(x.len()), true)
    } else {
        cbc_encrypt_spec(padded(x, iv.len()), iv, key)
    }
}

/// ECB encryption of a text with two equal 16-byte blocks has two equal
/// ciphertext blocks.
pub proof fn law_ecb_keeps_repeated_blocks(key: Seq<u8>, x: Seq<u8>)
    requires
        x.len() % 16 == 0,
        has_repeated_block(x, 16),
    ensures
        has_repeated_block(ecb_apply(key, x, zeros(x.len()), true), 16),
{
    let c = ecb_apply(key, x, zeros(x.len()), true);
    let (i, j) = choose|i: int, j: int|
        0 <= i < j < (x.len() as int) / 16 && #[trigger] block(x, 16, i) == #[trigger] block(x, 16, j);
    assert(aes_block(x, i) == block(x, 16, i));
    assert(aes_block(x, j) == block(x, 16, j));
    assert forall|t: int| 0 <= t < 16 implies #[trigger] block(c, 16, i)[t] == block(c, 16, j)[t] by {
        assert((i * 16 + t) / 16 == i);
        assert((i * 16 + t) % 16 == t);
        assert((j * 16 + t) / 16 == j);
        assert((j * 16 + t) % 16 == t);
    }
    assert(block(c, 16, i) =~= block(c, 16, j));
}

/// Encrypts `bin` after putting `prepend` (reversed, as its bytes are
/// inserted one by one at the front) before it and `append` after it and
/// padding it to a multiple of 16: with AES-128 in ECB mode when `do_ecb`,
/// else in CBC mode with `iv`. `bin` is left holding the plaintext.
pub fn encrypt_ecb_or_cbc(
    bin: &mut Vec<u8>,
    key: &Vec<u8>,
    iv: &Vec<u8>,
    prepend: &Vec<u8>,
    append: &Vec<u8>,
    do_ecb: bool,
) -> (result: Vec<u8>)
    requires
        key@.len() == 16,
        !do_ecb ==> iv@.len() > 0 && old(bin)@.len() + prepend@.len() + append@.len() > 0,
    ensures
        ({
            let x = oracle_input(old(bin)@, prepend@, append@);
            &&& final(bin)@ == if do_ecb { x } else { padded(x, iv@.len()) }
            &&& result@ == oracle_output(x, key@, iv@, do_ecb)
            &&& do_ecb ==> (has_repeated_block(x, 16) ==> has_repeated_block(result@, 16))
            &&& do_ecb ==> result@.len() == x.len() && forall|i: int|
                0 <= i < x.len() / 16 ==> aes128_decrypt_block(key@, #[trigger] aes_block(result@, i))
                    == aes_block(x, i)
            &&& !do_ecb && iv@.len() % 16 == 0 ==> cbc_decrypt_spec(result@, iv@, key@) == final(bin)@
        }),
{
    let ghost start: Seq<u8> = bin@;
    let mut k: usize = 0;
    while k < append.len()
        invariant
            k <= append@.len(),
            bin@ == start + append@.take(k as int),
        decreases append@.len() - k,
    {
        bin.push(append[k]);
        k += 1;
        proof {
            assert(bin@ =~= start + append@.take(k as int));
        }
    }
    let ghost mid: Seq<u8> = bin@;
    proof {
        assert(append@.take(append@.len() as int) =~= append@);
        assert(prepend@.take(0).reverse() + mid =~= mid);
    }
    let mut e: usize = 0;
    while e < prepend.len()
        invariant
            e <= prepend@.len(),
            bin@ == prepend@.take(e as int).reverse() + mid,
        decreases prepend@.len() - e,
    {
        bin.insert(0, prepend[e]);
        e += 1;
        proof {
            assert(bin@ =~= prepend@.take(e as int).reverse() + mid);
        }
    }
    proof {
        assert(prepend@.take(prepend@.len() as int) =~= prepend@);
        assert(bin@ =~= prepend@.reverse() + start + append@);
    }
    pad_to(bin, 16);
    let ghost x: Seq<u8> = bin@;
    proof {
        crate::blocks::law_pad_to_block_multiple(prepend@.reverse() + start + append@, 16);
    }
    proof {
        reveal(oracle_output);
    }
    if do_ecb {
        let mut result: Vec<u8> = vec![0; bin.len()];
        ecb_encrypt(bin.as_slice(), result.as_mut_slice(), key.as_slice());
        proof {
            assert(result@ =~= ecb_apply(key@, x, zeros(x.len()), true));
            assert forall|i: int| 0 <= i < x.len() / 16 implies aes128_decrypt_block(key@, #[trigger] aes_block(result@, i))
                == aes_block(x, i) by {
                assert(16 * i + 16 <= x.len());
            }
            if has_repeated_block(x, 16) {
                law_ecb_keeps_repeated_blocks(key@, x);
            }
        }
        result
    } else {
        cbc_encrypt(bin, iv, key)
    }
}

/// Encrypts `bin` like `encrypt_ecb_or_cbc` with a fresh random key and IV
/// of 16 bytes and random bytes to put in front (`p` of them) and behind
/// (`a` of them). Gives `None`, with `bin` untouched, when the random
/// generator is not available.
pub fn rand_encrypt_ecb_or_cbc(bin: &mut Vec<u8>, p: usize, a: usize, do_ecb: bool) -> (r: Option<Vec<u8>>)
    requires
        !do_ecb ==> old(bin)@.len() + p + a > 0,
    ensures
        r is None ==> final(bin)@ == old(bin)@,
        r matches Some(result) ==> exists|key: Seq<u8>, iv: Seq<u8>, pre: Seq<u8>, app: Seq<u8>|
            key.len() == 16 && iv.len() == 16 && pre.len() == p && app.len() == a && {
                let x = oracle_input(old(bin)@, pre, app);
                &&& final(bin)@ == x
                &&& result@ == oracle_output(x, key, iv, do_ecb)
                &&& do_ecb ==> (has_repeated_block(x, 16) ==> has_repeated_block(result@, 16))
                &&& do_ecb ==> result@.len() == x.len() && forall|i: int|
                    0 <= i < x.len() / 16 ==> aes128_decrypt_block(key, #[trigger] aes_block(result@, i))
                        == aes_block(x, i)
                &&& !do_ecb ==> cbc_decrypt_spec(result@, iv, key) == x
            },
{
    let key: Vec<u8> = random_bytes(16)?;
    let iv: Vec<u8> = random_bytes(16)?;
    let prepend: Vec<u8> = random_bytes(p)?;
    let append: Vec<u8> = random_bytes(a)?;
    let ghost old_bin: Seq<u8> = bin@;
    let result: Vec<u8> = encrypt_ecb_or_cbc(bin, &key, &iv, &prepend, &append, do_ecb);
    proof {
        let x = oracle_input(old_bin, prepend@, append@);
        if !do_ecb {
            crate::blocks::law_pad_to_block_multiple(prepend@.reverse() + old_bin + append@, 16);
            assert(x.len() % 16 == 0);
            assert(crate::blocks::pad_len(x.len(), 16) == 0);
            assert(padded(x, 16) =~= x);
        }
        assert(bin@ == x);
        assert(!do_ecb ==> cbc_decrypt_spec(result@, iv@, key@) == x);
        assert(key@.len() == 16 && iv@.len() == 16 && prepend@.len() == p && append@.len() == a);
        let kk = key@;
        let ii = iv@;
        let pp = prepend@;
        let aa = append@;
        assert({
            let x = oracle_input(old_bin, pp, aa);
            &&& bin@ == x
            &&& result@ == oracle_output(x, kk, ii, do_ecb)
            &&& do_ecb ==> (has_repeated_block(x, 16) ==> has_repeated_block(result@, 16))
            &&& do_ecb ==> result@.len() == x.len() && forall|i: int|
                0 <= i < x.len() / 16 ==> aes128_decrypt_block(kk, #[trigger] aes_block(result@, i))
                    == aes_block(x, i)
            &&& !do_ecb ==> cbc_decrypt_spec(result@, ii, kk) == x
        });
    }
    Some(result)
}

/// The oracle text, with any bytes before and after it, has two equal
/// 16-byte blocks once padded.
pub proof fn law_oracle_text_repeats(pre: Seq<u8>, app: Seq<u8>)
    ensures
        has_repeated_block(oracle_input(oracle_text(), pre, app), 16),
{
    let t = oracle_text();
    let y = pre.reverse() + t + app;
    let x = oracle_input(t, pre, app);
    crate::blocks::law_pad_to_block_multiple(y, 16);
    let p = pre.len() as int;
    let k1 = (p + 15) / 16;
    let k2 = k1 + 1;
    assert(p <= 16 * k1 <= p + 15);
    assert(16 * k2 + 16 <= p + 272);
    assert(x.len() >= y.len());
    assert forall|s: int| 0 <= s < 16 implies #[trigger] block(x, 16, k1)[s] == block(x, 16, k2)[s] by {
        let i1 = k1 * 16 + s;
        let i2 = k2 * 16 + s;
        assert(x[i1] == y[i1]);
        assert(x[i2] == y[i2]);
        assert(y[i1] == t[i1 - p]);
        assert(y[i2] == t[i2 - p]);
        assert((i2 - p) % 2 == (i1 - p) % 2);
    }
    assert(block(x, 16, k1) =~= block(x, 16, k2));
    assert(k2 < (x.len() as int) / 16);
}

/// Feeds the oracle text to `rand_encrypt_ecb_or_cbc` and says whether the
/// ciphertext has two equal 16-byte blocks, the mark of ECB; `None` when the
/// random generator is not available. Whenever ECB was used, it says so.
pub fn ecb_or_cbc_oracle(p: usize, a: usize, do_ecb: bool) -> (r: Option<bool>)
    ensures
        r matches Some(detected) ==> (do_ecb ==> detected),
        r matches Some(detected) ==> exists|key: Seq<u8>, iv: Seq<u8>, pre: Seq<u8>, app: Seq<u8>|
            key.len() == 16 && iv.len() == 16 && pre.len() == p && app.len() == a
                && detected == has_repeated_block(
                    oracle_output(oracle_input(oracle_text(), pre, app), key, iv, do_ecb),
                    16,
                ),
{
    let mut bin: Vec<u8> = oracle_plaintext();
    let encrypted: Vec<u8> = rand_encrypt_ecb_or_cbc(&mut bin, p, a, do_ecb)?;
    let detected: bool = byte_repeats_exist(&encrypted, 16);
    proof {
        let (key, iv, pre, app) = choose|key: Seq<u8>, iv: Seq<u8>, pre: Seq<u8>, app: Seq<u8>|
            key.len() == 16 && iv.len() == 16 && pre.len() == p && app.len() == a && {
                let x = oracle_input(oracle_text(), pre, app);
                &&& bin@ == x
                &&& encrypted@ == oracle_output(x, key, iv, do_ecb)
                &&& do_ecb ==> (has_repeated_block(x, 16) ==> has_repeated_block(encrypted@, 16))
            };
        let x = oracle_input(oracle_text(), pre, app);
        if do_ecb {
            law_oracle_text_repeats(pre, app);
        }
        assert(detected == has_repeated_block(oracle_output(x, key, iv, do_ecb), 16));
    }
    Some(detected)
}

} // verus!
