//! AES-128 in ECB mode without padding, through the `rust-crypto` crate.

use vstd::prelude::*;
use crypto::aes::{ecb_decryptor, ecb_encryptor, KeySize};
use crypto::blockmodes::NoPadding;
use crypto::buffer::{RefReadBuffer, RefWriteBuffer};

verus! {

/// AES-128 encryption of the 16-byte block `block` under the 16-byte `key`,
/// as `rust-crypto` computes it.
pub uninterp spec fn aes128_encrypt_block(key: Seq<u8>, block: Seq<u8>) -> Seq<u8>;

/// AES-128 decryption of the 16-byte block `block` under the 16-byte `key`,
/// as `rust-crypto` computes it.
pub uninterp spec fn aes128_decrypt_block(key: Seq<u8>, block: Seq<u8>) -> Seq<u8>;

/// Block `i` (16 bytes) of `s`.
pub open spec fn aes_block(s: Seq<u8>, i: int) -> Seq<u8> {
    s.subrange(16 * i, 16 * i + 16)
}

/// What one ECB pass over `input` leaves in an output buffer that held `out`:
/// each byte that lies in a complete 16-byte block of the input and inside
/// the buffer becomes the matching byte of that block encrypted (or
/// decrypted); the other bytes of the buffer keep their value.
pub open spec fn ecb_apply(key: Seq<u8>, input: Seq<u8>, out: Seq<u8>, encrypt: bool) -> Seq<u8> {
    Seq::new(
        out.len(),
        |j: int|
            if j < 16 * (input.len() / 16) {
                if encrypt {
                    aes128_encrypt_block(key, aes_block(input, j / 16))[j % 16]
                } else {
                    aes128_decrypt_block(key, aes_block(input, j / 16))[j % 16]
                }
            } else {
                out[j]
            },
    )
}

/// Encrypts `slice_in` with AES-128 in ECB mode without padding into
/// `slice_out`, calling `rust-crypto`'s `aes::ecb_encryptor(KeySize128, key,
/// NoPadding)` and its `encrypt` with `eof` set.
///
/// Trusted: the contract says that each complete 16-byte block of the input
/// that fits in the output is replaced by its AES-128 encryption (named, not
/// defined, by `aes128_encrypt_block`) and that the rest of the output is left
/// alone, which is what the crate's block engine does in one call with
/// `NoPadding` (a trailing partial block ends the call with an
/// `InvalidLength` error, which is dropped here).
/// It also says that AES-128 decryption under the same key turns each written
/// ciphertext block back into its plaintext block. A key that is not 16 bytes
/// long makes the crate panic, so it is excluded.
#[verifier::external_body]
pub fn ecb_encrypt(slice_in: &[u8], slice_out: &mut [u8], key: &[u8])
    requires
        key@.len() == 16,
    ensures
        final(slice_out)@.len() == old(slice_out)@.len(),
        forall|j: int|
            0 <= j < old(slice_out)@.len() ==> #[trigger] final(slice_out)@[j] == if j < 16 * (slice_in@.len() / 16) {
                aes128_encrypt_block(key@, aes_block(slice_in@, j / 16))[j % 16]
            } else {
                old(slice_out)@[j]
            },
        forall|i: int|
            0 <= i && 16 * i + 16 <= slice_in@.len() && 16 * i + 16 <= old(slice_out)@.len()
                ==> aes128_decrypt_block(key@, #[trigger] aes_block(final(slice_out)@, i)) == aes_block(slice_in@, i),
{
    let mut boxed_enc = ecb_encryptor(KeySize::KeySize128, key, NoPadding);
    let mut buff_in = RefReadBuffer::new(slice_in);
    let mut buff_out = RefWriteBuffer::new(slice_out);
    let _ = boxed_enc.encrypt(&mut buff_in, &mut buff_out, true);
}

/// Decrypts `slice_in` with AES-128 in ECB mode without padding into
/// `slice_out`, calling `rust-crypto`'s `aes::ecb_decryptor(KeySize128, key,
/// NoPadding)` and its `decrypt` with `eof` set.
///
/// Trusted: the contract says that each complete 16-byte block of the input
/// that fits in the output is replaced by its AES-128 decryption (named, not
/// defined, by `aes128_decrypt_block`) and that the rest of the output is left
/// alone, as the crate's block engine does in one call with `NoPadding`. A key
/// that is not 16 bytes long makes the crate panic, so it is excluded.
#[verifier::external_body]
pub fn ecb_decrypt(slice_in: &[u8], slice_out: &mut [u8], key: &[u8])
    requires
        key@.len() == 16,
    ensures
        final(slice_out)@.len() == old(slice_out)@.len(),
        forall|j: int|
            0 <= j < old(slice_out)@.len() ==> #[trigger] final(slice_out)@[j] == if j < 16 * (slice_in@.len() / 16) {
                aes128_decrypt_block(key@, aes_block(slice_in@, j / 16))[j % 16]
            } else {
                old(slice_out)@[j]
            },
{
    let mut boxed_dec = ecb_decryptor(KeySize::KeySize128, key, NoPadding);
    let mut buff_in = RefReadBuffer::new(slice_in);
    let mut buff_out = RefWriteBuffer::new(slice_out);
    let _ = boxed_dec.decrypt(&mut buff_in, &mut buff_out, true);
}

} // verus!
