# cryptopals

Solutions to the first two sets of the Cryptopals challenges, written as a
Verus library whose functions carry verified contracts.

- `src/encoding.rs`: hexadecimal and base-64 conversions (`from_hex_string`,
  `from_b64_string`, `to_base`), with round-trip laws.
- `src/xor.rs`: fixed, single-byte and repeating-key XOR.
- `src/freq.rs`: letter-frequency scoring and single-byte key recovery.
- `src/blocks.rs`: padding and repeated-block detection.
- `src/aes.rs`: AES-128 ECB through `rust-crypto` (trusted wrappers).
- `src/cbc.rs`: CBC mode on top of ECB, with the decrypt-after-encrypt law.
- `src/serial.rs`: hexadecimal and base-64 text through `rustc-serialize`.
- `src/analysis.rs`: breaking single-byte and repeating-key XOR, Hamming distances.
- `src/oracle.rs`: the ECB/CBC encryption oracle and its detection.
- `src/bits.rs`: the model of byte strings as numbers.
- `app/main.rs`: the command-line driver that reads files and prints results.
