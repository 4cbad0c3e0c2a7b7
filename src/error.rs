use vstd::prelude::*;

verus! {

/// The size in bytes of one cipher block, and of a key.
pub const BLOCK_SIZE: usize = 16;

/// What can go wrong when encrypting or decrypting.
#[derive(Debug, Clone, Copy, PartialEq, Eq, Structural)]
pub enum ModeError {
    /// The key is not exactly one block long.
    InvalidKeyLength,
    /// The ciphertext is not a positive multiple of the block size.
    InvalidCiphertextLength,
    /// The ciphertext cannot hold its IV or nonce block and at least one data block.
    CiphertextTooShort,
    /// The trailing pad bytes are out of range or inconsistent.
    InvalidPadding,
}

} // verus!
