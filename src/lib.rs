//! Block-cipher modes of operation (ECB, CBC and CTR) over a 16-byte block
//! cipher, with the reversible padding that lets them take data of any length.
//!
//! ECB is included to show its weakness: identical plaintext blocks give
//! identical ciphertext blocks. It is not safe for real use.

mod error;
mod primitive;
mod padding;
mod blocks;
mod counter;
mod ecb;
mod cbc;
mod ctr;

pub use error::{ModeError, BLOCK_SIZE};
pub use primitive::{aes_dec, aes_enc};
pub use padding::{
    bytes_of, lemma_pad_unpad, lemma_unpad_rejects_out_of_range, pad, pad_len, pad_spec, un_pad,
    unpad_spec, valid_padding,
};
pub use blocks::{
    all_blocks, block_at, blocks_of, blocks_view, flat, group, lemma_block_at_flat, lemma_block_index,
    lemma_blocks_of_flat, lemma_flat_blocks_of, lemma_xor_cancel, un_group, xor_arrays, xor_spec,
};
pub use counter::{
    be_value, concat_arrays, counter_at, incr, increment_counter, lemma_be_value_bound,
    lemma_counter_len, lemma_counter_value, lemma_incr_len, lemma_incr_value, lemma_pow256_8,
    lemma_zeros_value, pow256, zeros,
};
pub use ecb::{
    ecb_blocks_dec, ecb_blocks_enc, ecb_dec_spec, ecb_decrypt, ecb_enc_spec, ecb_encrypt,
    lemma_ecb_equal_blocks, lemma_ecb_length_checked,
};
pub use cbc::{
    cbc_blocks_dec, cbc_dec_spec, cbc_decrypt, cbc_encrypt, cbc_encrypt_with_iv, is_cbc_encryption,
    lemma_cbc_short_rejected,
};
pub use ctr::{
    ctr_blocks_dec, ctr_dec_spec, ctr_decrypt, ctr_encrypt, ctr_encrypt_with_nonce,
    is_ctr_encryption, keystream, lemma_ctr_malleable, lemma_ctr_round_trip,
};
