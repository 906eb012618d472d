//! Byte encodings, single- and repeating-key XOR analysis, block padding and
//! AES-128 ECB/CBC modes, each with a verified contract.

pub mod bits;
pub mod encoding;
pub mod xor;
pub mod freq;
pub mod blocks;
pub mod aes;
pub mod cbc;
pub mod serial;
pub mod analysis;
pub mod oracle;
