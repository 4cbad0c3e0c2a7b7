use vstd::prelude::*;

use crate::blocks::{
    all_blocks, block_at, blocks_of, blocks_view, flat, group, lemma_block_index,
    lemma_blocks_of_flat, lemma_flat_blocks_of, un_group,
};
use crate::error::ModeError;
use crate::padding::{bytes_of, lemma_pad_unpad, pad, pad_spec, un_pad, unpad_spec};
use crate::primitive::{aes_dec, aes_decrypt, aes_enc, aes_encrypt, key_block};

verus! {

/// Each block encrypted on its own under `key`.
pub open spec fn ecb_blocks_enc(bs: Seq<Seq<u8>>, key: Seq<u8>) -> Seq<Seq<u8>> {
    bs.map_values(|b: Seq<u8>| aes_enc(b, key))
}

/// Each block decrypted on its own under `key`.
pub open spec fn ecb_blocks_dec(bs: Seq<Seq<u8>>, key: Seq<u8>) -> Seq<Seq<u8>> {
    bs.map_values(|b: Seq<u8>| aes_dec(b, key))
}

/// The ECB ciphertext of `plain` under `key`: the padded plaintext, each
/// block encrypted independently.
pub open spec fn ecb_enc_spec(plain: Seq<u8>, key: Seq<u8>) -> Seq<u8> {
    flat(ecb_blocks_enc(blocks_of(pad_spec(plain)), key))
}

/// What ECB decryption of `cipher` under `key` gives: an error for a key that
/// is not one block long or a ciphertext that is not a positive multiple of
/// the block size, else the unpadded block-wise decryption.
pub open spec fn ecb_dec_spec(cipher: Seq<u8>, key: Seq<u8>) -> Result<Seq<u8>, ModeError> {
    if key.len() != 16 {
        Err(ModeError::InvalidKeyLength)
    } else if cipher.len() == 0 || cipher.len() % 16 != 0 {
        Err(ModeError::InvalidCiphertextLength)
    } else {
        unpad_spec(flat(ecb_blocks_dec(blocks_of(cipher), key)))
    }
}

/// Encrypts `plain_text` in ECB mode: pad, then encrypt every block on its own.
/// Decrypting the result under the same key gives `plain_text` back.
pub fn ecb_encrypt(plain_text: Vec<u8>, key: &[u8]) -> (r: Result<Vec<u8>, ModeError>)
    requires
        plain_text@.len() + 16 <= usize::MAX,
    ensures
        key@.len() != 16 <==> r is Err,
        r matches Err(e) ==> e == ModeError::InvalidKeyLength,
        r matches Ok(c) ==> c@ == ecb_enc_spec(plain_text@, key@),
        r matches Ok(c) ==> ecb_dec_spec(c@, key@) == Ok::<Seq<u8>, ModeError>(plain_text@),
{
    let k = match key_block(key) {
        Some(k) => k,
        None => return Err(ModeError::InvalidKeyLength),
    };
    let ghost plain = plain_text@;
    let padded = pad(plain_text);
    let blocks = match group(padded.as_slice()) {
        Ok(b) => b,
        Err(e) => return Err(e),
    };
    let ghost pb = blocks_view(blocks@);
    let mut ciphers: Vec<[u8; 16]> = Vec::new();
    let mut i: usize = 0;
    while i < blocks.len()
        invariant
            pb == blocks_view(blocks@),
            pb == blocks_of(pad_spec(plain)),
            0 <= i <= blocks@.len(),
            ciphers@.len() == i,
            forall|j: int|
                0 <= j < i ==> (#[trigger] ciphers@[j])@ == aes_enc(pb[j], k@) && aes_dec(
                    ciphers@[j]@,
                    k@,
                ) == pb[j],
        decreases blocks@.len() - i,
    {
        let c = aes_encrypt(blocks[i], &k);
        ciphers.push(c);
        i = i + 1;
    }
    proof {
        assert(16 * pb.len() == padded@.len()) by {
            lemma_flat_blocks_of(padded@);
        }
    }
    let out = un_group(&ciphers);
    proof {
        let cb = blocks_view(ciphers@);
        assert(cb =~= ecb_blocks_enc(pb, k@));
        assert(all_blocks(cb));
        lemma_blocks_of_flat(cb);
        assert(ecb_blocks_dec(cb, k@) =~= pb);
        lemma_flat_blocks_of(padded@);
        lemma_pad_unpad(plain);
        assert(out@.len() == 16 * cb.len());
    }
    Ok(out)
}

/// Decrypts an ECB ciphertext: every block on its own, then unpad.
pub fn ecb_decrypt(cipher_text: Vec<u8>, key: &[u8]) -> (r: Result<Vec<u8>, ModeError>)
    ensures
        bytes_of(r) == ecb_dec_spec(cipher_text@, key@),
{
    let k = match key_block(key) {
        Some(k) => k,
        None => return Err(ModeError::InvalidKeyLength),
    };
    if cipher_text.len() == 0 || cipher_text.len() % 16 != 0 {
        return Err(ModeError::InvalidCiphertextLength);
    }
    let ciphers = match group(cipher_text.as_slice()) {
        Ok(b) => b,
        Err(e) => return Err(e),
    };
    let ghost cb = blocks_view(ciphers@);
    let mut blocks: Vec<[u8; 16]> = Vec::new();
    let mut i: usize = 0;
    while i < ciphers.len()
        invariant
            cb == blocks_view(ciphers@),
            cb == blocks_of(cipher_text@),
            0 <= i <= ciphers@.len(),
            blocks@.len() == i,
            forall|j: int| 0 <= j < i ==> (#[trigger] blocks@[j])@ == aes_dec(cb[j], k@),
        decreases ciphers@.len() - i,
    {
        let b = aes_decrypt(ciphers[i], &k);
        blocks.push(b);
        i = i + 1;
    }
    proof {
        assert(16 * cb.len() == cipher_text@.len()) by {
            lemma_flat_blocks_of(cipher_text@);
        }
        assert(blocks_view(blocks@) =~= ecb_blocks_dec(cb, k@));
    }
    un_pad(un_group(&blocks))
}

/// ECB leaks patterns: two equal blocks of the padded plaintext give two
/// equal blocks of ciphertext.
pub proof fn lemma_ecb_equal_blocks(plain: Seq<u8>, key: Seq<u8>, i: int, j: int)
    requires
        0 <= i < blocks_of(pad_spec(plain)).len(),
        0 <= j < blocks_of(pad_spec(plain)).len(),
        blocks_of(pad_spec(plain))[i] == blocks_of(pad_spec(plain))[j],
    ensures
        block_at(ecb_enc_spec(plain, key), i) == block_at(ecb_enc_spec(plain, key), j),
{
    let bs = ecb_blocks_enc(blocks_of(pad_spec(plain)), key);
    let c = ecb_enc_spec(plain, key);
    assert forall|m: int| 0 <= m < 16 implies block_at(c, i)[m] == block_at(c, j)[m] by {
        lemma_block_index(i, m);
        lemma_block_index(j, m);
        assert(16 * i + m < 16 * bs.len() && 16 * j + m < 16 * bs.len()) by (nonlinear_arith)
            requires
                0 <= i < bs.len(),
                0 <= j < bs.len(),
                0 <= m < 16,
        ;
    }
    assert(block_at(c, i) =~= block_at(c, j));
}

/// Under a valid key, an ECB ciphertext whose length is not a multiple of the
/// block size is rejected for its length.
pub proof fn lemma_ecb_length_checked(cipher: Seq<u8>, key: Seq<u8>)
    requires
        key.len() == 16,
        cipher.len() % 16 != 0,
    ensures
        ecb_dec_spec(cipher, key) == Err::<Seq<u8>, ModeError>(ModeError::InvalidCiphertextLength),
{
}

} // verus!
