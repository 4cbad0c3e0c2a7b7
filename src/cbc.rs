use vstd::prelude::*;

use crate::blocks::{
    all_blocks, block_at, blocks_of, blocks_view, flat, group, lemma_block_at_flat,
    lemma_blocks_of_flat, lemma_flat_blocks_of, lemma_xor_cancel, un_group, xor_arrays, xor_spec,
};
use crate::error::ModeError;
use crate::padding::{bytes_of, lemma_pad_unpad, pad, pad_spec, un_pad, unpad_spec};
use crate::primitive::{aes_dec, aes_decrypt, aes_enc, aes_encrypt, key_block, random_block};

verus! {

/// `cipher` is a CBC encryption of `plain` under `key`: one block of IV, then
/// for each block of the padded plaintext the encryption of that block
/// exclusive-or'ed with the ciphertext block before it.
pub open spec fn is_cbc_encryption(cipher: Seq<u8>, plain: Seq<u8>, key: Seq<u8>) -> bool {
    let pb = blocks_of(pad_spec(plain));
    &&& cipher.len() == 16 * (pb.len() + 1)
    &&& forall|i: int|
        0 <= i < pb.len() ==> #[trigger] block_at(cipher, i + 1) == aes_enc(
            xor_spec(pb[i], block_at(cipher, i)),
            key,
        )
}

/// CBC decryption of blocks whose first is the IV: each later block decrypted
/// and exclusive-or'ed with the ciphertext block before it.
pub open spec fn cbc_blocks_dec(cs: Seq<Seq<u8>>, key: Seq<u8>) -> Seq<Seq<u8>> {
    Seq::new((cs.len() - 1) as nat, |i: int| xor_spec(aes_dec(cs[i + 1], key), cs[i]))
}

/// What CBC decryption of `cipher` under `key` gives: an error for a bad key,
/// a ciphertext shorter than two blocks, or one that is not a multiple of the
/// block size; else the unpadded chained decryption.
pub open spec fn cbc_dec_spec(cipher: Seq<u8>, key: Seq<u8>) -> Result<Seq<u8>, ModeError> {
    if key.len() != 16 {
        Err(ModeError::InvalidKeyLength)
    } else if cipher.len() < 32 {
        Err(ModeError::CiphertextTooShort)
    } else if cipher.len() % 16 != 0 {
        Err(ModeError::InvalidCiphertextLength)
    } else {
        unpad_spec(flat(cbc_blocks_dec(blocks_of(cipher), key)))
    }
}

/// Encrypts `plain_text` in CBC mode with the given IV, which becomes the
/// first block of the result. Decrypting the result gives `plain_text` back.
pub fn cbc_encrypt_with_iv(plain_text: Vec<u8>, key: &[u8], iv: [u8; 16]) -> (r: Result<
    Vec<u8>,
    ModeError,
>)
    requires
        plain_text@.len() + 32 <= usize::MAX,
    ensures
        key@.len() != 16 <==> r is Err,
        r matches Err(e) ==> e == ModeError::InvalidKeyLength,
        r matches Ok(c) ==> block_at(c@, 0) == iv@ && is_cbc_encryption(
            c@,
            plain_text@,
            key@,
        ),
        r matches Ok(c) ==> cbc_dec_spec(c@, key@) == Ok::<Seq<u8>, ModeError>(plain_text@),
{
    let k = match key_block(key) {
        Some(k) => k,
        None => return Err(ModeError::InvalidKeyLength),
    };
    let ghost plain = plain_text@;
    let padded = pad(plain_text);
    let blocks = match group(padded.as_slice()) {
        Ok(b) => b,
        Err(e) => return Err(e),
    };
    let ghost pb = blocks_view(blocks@);
    proof {
        lemma_flat_blocks_of(padded@);
    }
    let mut ciphers: Vec<[u8; 16]> = Vec::new();
    ciphers.push(iv);
    let mut previous: [u8; 16] = iv;
    let mut i: usize = 0;
    while i < blocks.len()
        invariant
            pb == blocks_view(blocks@),
            pb == blocks_of(pad_spec(plain)),
            16 * pb.len() == padded@.len(),
            padded@.len() + 16 <= usize::MAX,
            0 <= i <= blocks@.len(),
            ciphers@.len() == i + 1,
            ciphers@[0] == iv,
            previous == ciphers@[i as int],
            forall|j: int|
                0 <= j < i ==> (#[trigger] ciphers@[j + 1])@ == aes_enc(
                    xor_spec(pb[j], ciphers@[j]@),
                    k@,
                ) && aes_dec(ciphers@[j + 1]@, k@) == xor_spec(pb[j], ciphers@[j]@),
        decreases blocks@.len() - i,
    {
        let c = aes_encrypt(xor_arrays(blocks[i], previous), &k);
        ciphers.push(c);
        previous = c;
        i = i + 1;
    }
    let out = un_group(&ciphers);
    proof {
        let cb = blocks_view(ciphers@);
        assert(all_blocks(cb));
        lemma_blocks_of_flat(cb);
        assert forall|j: int| 0 <= j <= pb.len() implies #[trigger] block_at(out@, j) == cb[j] by {
            lemma_block_at_flat(cb, j);
        }
        assert forall|j: int| 0 <= j < pb.len() implies #[trigger] block_at(out@, j + 1)
            == aes_enc(xor_spec(pb[j], block_at(out@, j)), k@) by {
            assert(block_at(out@, j + 1) == cb[j + 1]);
            assert(block_at(out@, j) == cb[j]);
        }
        let dec = cbc_blocks_dec(cb, k@);
        assert forall|j: int| 0 <= j < pb.len() implies #[trigger] dec[j] == pb[j] by {
            lemma_xor_cancel(pb[j], cb[j]);
        }
        assert(dec =~= pb);
        lemma_pad_unpad(plain);
    }
    Ok(out)
}

/// Encrypts `plain_text` in CBC mode under a fresh random IV, which becomes
/// the first block of the result. Decrypting the result gives `plain_text` back.
pub fn cbc_encrypt(plain_text: Vec<u8>, key: &[u8]) -> (r: Result<Vec<u8>, ModeError>)
    requires
        plain_text@.len() + 32 <= usize::MAX,
    ensures
        key@.len() != 16 <==> r is Err,
        r matches Err(e) ==> e == ModeError::InvalidKeyLength,
        r matches Ok(c) ==> is_cbc_encryption(c@, plain_text@, key@),
        r matches Ok(c) ==> cbc_dec_spec(c@, key@) == Ok::<Seq<u8>, ModeError>(plain_text@),
{
    let iv = random_block();
    cbc_encrypt_with_iv(plain_text, key, iv)
}

/// Decrypts a CBC ciphertext whose first block is the IV, then unpads.
pub fn cbc_decrypt(cipher_text: Vec<u8>, key: &[u8]) -> (r: Result<Vec<u8>, ModeError>)
    ensures
        bytes_of(r) == cbc_dec_spec(cipher_text@, key@),
{
    let k = match key_block(key) {
        Some(k) => k,
        None => return Err(ModeError::InvalidKeyLength),
    };
    if cipher_text.len() < 32 {
        return Err(ModeError::CiphertextTooShort);
    }
    if cipher_text.len() % 16 != 0 {
        return Err(ModeError::InvalidCiphertextLength);
    }
    let ciphers = match group(cipher_text.as_slice()) {
        Ok(b) => b,
        Err(e) => return Err(e),
    };
    let ghost cb = blocks_view(ciphers@);
    proof {
        lemma_flat_blocks_of(cipher_text@);
    }
    let mut blocks: Vec<[u8; 16]> = Vec::new();
    let mut i: usize = 1;
    while i < ciphers.len()
        invariant
            cb == blocks_view(ciphers@),
            cb == blocks_of(cipher_text@),
            16 * cb.len() == cipher_text@.len(),
            1 <= i <= ciphers@.len(),
            blocks@.len() == i - 1,
            forall|j: int|
                0 <= j < i - 1 ==> (#[trigger] blocks@[j])@ == xor_spec(
                    aes_dec(cb[j + 1], k@),
                    cb[j],
                ),
        decreases ciphers@.len() - i,
    {
        let b = xor_arrays(aes_decrypt(ciphers[i], &k), ciphers[i - 1]);
        blocks.push(b);
        i = i + 1;
    }
    proof {
        assert(blocks_view(blocks@) =~= cbc_blocks_dec(cb, k@));
    }
    un_pad(un_group(&blocks))
}

/// Under a valid key, a CBC ciphertext shorter than two blocks is rejected as
/// too short.
pub proof fn lemma_cbc_short_rejected(cipher: Seq<u8>, key: Seq<u8>)
    requires
        key.len() == 16,
        cipher.len() < 32,
    ensures
        cbc_dec_spec(cipher, key) == Err::<Seq<u8>, ModeError>(ModeError::CiphertextTooShort),
{
}

} // verus!
