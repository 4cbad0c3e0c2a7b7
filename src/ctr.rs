use vstd::prelude::*;

use crate::blocks::{
    all_blocks, block_at, blocks_of, blocks_view, flat, group, lemma_block_at_flat,
    lemma_blocks_of_flat, lemma_flat_blocks_of, lemma_xor_cancel, un_group,
    xor_arrays, xor_spec,
};
use crate::counter::{concat_arrays, counter_at, increment_counter, zeros};
use crate::error::ModeError;
use crate::padding::{bytes_of, lemma_pad_unpad, pad, pad_spec, un_pad, unpad_spec};
use crate::primitive::{aes_enc, aes_encrypt, key_block, random_block};

verus! {

/// The keystream block `i` for a message whose first block is `nonce_block`:
/// the encryption of its eight nonce bytes followed by the counter of block `i`.
pub open spec fn keystream(nonce_block: Seq<u8>, key: Seq<u8>, i: nat) -> Seq<u8> {
    aes_enc(nonce_block.subrange(0, 8) + counter_at(i), key)
}

/// `cipher` is a CTR encryption of `plain` under `key`: a nonce block (eight
/// nonce bytes, eight zero bytes), then each block of the padded plaintext
/// exclusive-or'ed with its keystream block.
pub open spec fn is_ctr_encryption(cipher: Seq<u8>, plain: Seq<u8>, key: Seq<u8>) -> bool {
    let pb = blocks_of(pad_spec(plain));
    &&& cipher.len() == 16 * (pb.len() + 1)
    &&& cipher.subrange(8, 16) == zeros(8)
    &&& forall|i: int|
        0 <= i < pb.len() ==> #[trigger] block_at(cipher, i + 1) == xor_spec(
            pb[i],
            keystream(block_at(cipher, 0), key, i as nat),
        )
}

/// CTR decryption of blocks whose first is the nonce block: each later block
/// exclusive-or'ed with its keystream block.
pub open spec fn ctr_blocks_dec(cs: Seq<Seq<u8>>, key: Seq<u8>) -> Seq<Seq<u8>> {
    Seq::new((cs.len() - 1) as nat, |i: int| xor_spec(cs[i + 1], keystream(cs[0], key, i as nat)))
}

/// What CTR decryption of `cipher` under `key` gives: an error for a bad key,
/// a ciphertext shorter than a nonce block and one data block, or one that is
/// not a multiple of the block size; else the unpadded decryption.
pub open spec fn ctr_dec_spec(cipher: Seq<u8>, key: Seq<u8>) -> Result<Seq<u8>, ModeError> {
    if key.len() != 16 {
        Err(ModeError::InvalidKeyLength)
    } else if cipher.len() < 32 {
        Err(ModeError::CiphertextTooShort)
    } else if cipher.len() % 16 != 0 {
        Err(ModeError::InvalidCiphertextLength)
    } else {
        unpad_spec(flat(ctr_blocks_dec(blocks_of(cipher), key)))
    }
}

/// CTR decryption undoes CTR encryption, for every plaintext, key and nonce.
pub proof fn lemma_ctr_round_trip(cipher: Seq<u8>, plain: Seq<u8>, key: Seq<u8>)
    requires
        key.len() == 16,
        is_ctr_encryption(cipher, plain, key),
    ensures
        ctr_dec_spec(cipher, key) == Ok::<Seq<u8>, ModeError>(plain),
{
    let padded = pad_spec(plain);
    let pb = blocks_of(padded);
    lemma_pad_unpad(plain);
    lemma_flat_blocks_of(padded);
    assert(16 * pb.len() == padded.len());
    assert(cipher.len() / 16 == pb.len() + 1) by (nonlinear_arith)
        requires
            cipher.len() == 16 * (pb.len() + 1),
    ;
    assert(cipher.len() % 16 == 0) by (nonlinear_arith)
        requires
            cipher.len() == 16 * (pb.len() + 1),
    ;
    let cs = blocks_of(cipher);
    let dec = ctr_blocks_dec(cs, key);
    assert forall|i: int| 0 <= i < pb.len() implies #[trigger] dec[i] == pb[i] by {
        assert(cs[i + 1] == block_at(cipher, i + 1));
        lemma_xor_cancel(pb[i], keystream(block_at(cipher, 0), key, i as nat));
        assert(pb[i].len() == 16);
        assert(xor_spec(pb[i], keystream(block_at(cipher, 0), key, i as nat)).len() == 16);
    }
    assert(dec =~= pb);
}

/// CTR is malleable: changing bits of a ciphertext byte after the nonce block
/// changes the same bits of the same byte of the decrypted padded plaintext,
/// and nothing else.
pub proof fn lemma_ctr_malleable(cipher: Seq<u8>, key: Seq<u8>, pos: int, mask: u8)
    requires
        cipher.len() >= 32,
        cipher.len() % 16 == 0,
        16 <= pos < cipher.len(),
    ensures
        ({
            let raw = flat(ctr_blocks_dec(blocks_of(cipher), key));
            let forged = cipher.update(pos, cipher[pos] ^ mask);
            flat(ctr_blocks_dec(blocks_of(forged), key)) == raw.update(
                pos - 16,
                raw[pos - 16] ^ mask,
            )
        }),
{
    let forged = cipher.update(pos, cipher[pos] ^ mask);
    let cs = blocks_of(cipher);
    let fs = blocks_of(forged);
    let raw = flat(ctr_blocks_dec(cs, key));
    let fraw = flat(ctr_blocks_dec(fs, key));
    assert(fs[0] =~= cs[0]);
    assert(cs.len() >= 2) by (nonlinear_arith)
        requires
            cipher.len() >= 32,
            cs.len() == cipher.len() / 16,
    ;
    assert(raw.len() == cipher.len() - 16);
    assert forall|p: int| 0 <= p < raw.len() implies #[trigger] fraw[p] == (if p == pos - 16 {
        raw[p] ^ mask
    } else {
        raw[p]
    }) by {
        let b = p / 16;
        let m = p % 16;
        assert(16 * b + m == p && 0 <= m < 16 && 0 <= b) by (nonlinear_arith)
            requires
                b == p / 16,
                m == p % 16,
                0 <= p,
        ;
        assert(b + 1 < cs.len()) by (nonlinear_arith)
            requires
                16 * b + m == p,
                0 <= m,
                p < raw.len(),
                raw.len() == 16 * (cs.len() - 1),
        ;
        let ks = keystream(cs[0], key, b as nat);
        assert(fraw[p] == forged[16 * (b + 1) + m] ^ ks[m]);
        assert(raw[p] == cipher[16 * (b + 1) + m] ^ ks[m]);
        if p == pos - 16 {
            let x = cipher[pos];
            let y = ks[m];
            assert((x ^ mask) ^ y == (x ^ y) ^ mask) by (bit_vector);
        }
    }
    assert(fraw =~= raw.update(pos - 16, raw[pos - 16] ^ mask));
}

/// Encrypts `plain_text` in CTR mode, with the first eight bytes of `nonce` as
/// the nonce; the result starts with those eight bytes and eight zero bytes.
/// Decrypting the result gives `plain_text` back.
pub fn ctr_encrypt_with_nonce(plain_text: Vec<u8>, key: &[u8], nonce: [u8; 16]) -> (r: Result<
    Vec<u8>,
    ModeError,
>)
    requires
        plain_text@.len() + 32 <= usize::MAX,
    ensures
        key@.len() != 16 <==> r is Err,
        r matches Err(e) ==> e == ModeError::InvalidKeyLength,
        r matches Ok(c) ==> c@.subrange(0, 8) == nonce@.subrange(0, 8) && is_ctr_encryption(
            c@,
            plain_text@,
            key@,
        ),
        r matches Ok(c) ==> ctr_dec_spec(c@, key@) == Ok::<Seq<u8>, ModeError>(plain_text@),
{
    let k = match key_block(key) {
        Some(k) => k,
        None => return Err(ModeError::InvalidKeyLength),
    };
    let ghost plain = plain_text@;
    let padded = pad(plain_text);
    let blocks = match group(padded.as_slice()) {
        Ok(b) => b,
        Err(e) => return Err(e),
    };
    let ghost pb = blocks_view(blocks@);
    proof {
        lemma_flat_blocks_of(padded@);
    }
    let zero: [u8; 8] = [0u8; 8];
    let nonce_block = concat_arrays(nonce, zero);
    let mut counter: [u8; 8] = [0u8; 8];
    assert(counter@ =~= counter_at(0));
    let mut ciphers: Vec<[u8; 16]> = Vec::new();
    ciphers.push(nonce_block);
    let mut i: usize = 0;
    while i < blocks.len()
        invariant
            pb == blocks_view(blocks@),
            pb == blocks_of(pad_spec(plain)),
            16 * pb.len() == padded@.len(),
            padded@.len() + 16 <= usize::MAX,
            0 <= i <= blocks@.len(),
            ciphers@.len() == i + 1,
            ciphers@[0] == nonce_block,
            counter@ == counter_at(i as nat),
            forall|j: int|
                0 <= j < i ==> (#[trigger] ciphers@[j + 1])@ == xor_spec(
                    pb[j],
                    keystream(nonce_block@, k@, j as nat),
                ),
        decreases blocks@.len() - i,
    {
        let v = concat_arrays(nonce_block, counter);
        assert(v@ =~= nonce_block@.subrange(0, 8) + counter_at(i as nat));
        let c = xor_arrays(blocks[i], aes_encrypt(v, &k));
        ciphers.push(c);
        increment_counter(&mut counter);
        i = i + 1;
    }
    let out = un_group(&ciphers);
    proof {
        let cb = blocks_view(ciphers@);
        assert(all_blocks(cb));
        lemma_blocks_of_flat(cb);
        assert forall|j: int| 0 <= j <= pb.len() implies #[trigger] block_at(out@, j) == cb[j] by {
            lemma_block_at_flat(cb, j);
        }
        assert(block_at(out@, 0) == nonce_block@);
        assert forall|j: int| 0 <= j < 8 implies #[trigger] out@[j] == nonce_block@[j] && out@[j
            + 8] == nonce_block@[j + 8] by {
            assert(block_at(out@, 0)[j] == out@[j]);
            assert(block_at(out@, 0)[j + 8] == out@[j + 8]);
        }
        assert(out@.subrange(8, 16) =~= zeros(8));
        assert(out@.subrange(0, 8) =~= nonce@.subrange(0, 8));
        assert forall|j: int| 0 <= j < pb.len() implies #[trigger] block_at(out@, j + 1)
            == xor_spec(pb[j], keystream(block_at(out@, 0), k@, j as nat)) by {
            assert(block_at(out@, j + 1) == cb[j + 1]);
        }
        assert(is_ctr_encryption(out@, plain, k@));
        lemma_ctr_round_trip(out@, plain, k@);
    }
    Ok(out)
}

/// Encrypts `plain_text` in CTR mode under a fresh random nonce, carried in
/// the first block of the result. Decrypting the result gives `plain_text` back.
pub fn ctr_encrypt(plain_text: Vec<u8>, key: &[u8]) -> (r: Result<Vec<u8>, ModeError>)
    requires
        plain_text@.len() + 32 <= usize::MAX,
    ensures
        key@.len() != 16 <==> r is Err,
        r matches Err(e) ==> e == ModeError::InvalidKeyLength,
        r matches Ok(c) ==> is_ctr_encryption(c@, plain_text@, key@),
        r matches Ok(c) ==> ctr_dec_spec(c@, key@) == Ok::<Seq<u8>, ModeError>(plain_text@),
{
    let nonce = random_block();
    ctr_encrypt_with_nonce(plain_text, key, nonce)
}

/// Decrypts a CTR ciphertext whose first block carries the nonce: every later
/// block is exclusive-or'ed with the encryption of nonce and counter, then
/// the result is unpadded.
pub fn ctr_decrypt(cipher_text: Vec<u8>, key: &[u8]) -> (r: Result<Vec<u8>, ModeError>)
    ensures
        bytes_of(r) == ctr_dec_spec(cipher_text@, key@),
{
    let k = match key_block(key) {
        Some(k) => k,
        None => return Err(ModeError::InvalidKeyLength),
    };
    if cipher_text.len() < 32 {
        return Err(ModeError::CiphertextTooShort);
    }
    if cipher_text.len() % 16 != 0 {
        return Err(ModeError::InvalidCiphertextLength);
    }
    let ciphers = match group(cipher_text.as_slice()) {
        Ok(b) => b,
        Err(e) => return Err(e),
    };
    let ghost cb = blocks_view(ciphers@);
    proof {
        lemma_flat_blocks_of(cipher_text@);
    }
    let nonce_block: [u8; 16] = ciphers[0];
    let mut counter: [u8; 8] = [0u8; 8];
    assert(counter@ =~= counter_at(0));
    let mut blocks: Vec<[u8; 16]> = Vec::new();
    let mut i: usize = 1;
    while i < ciphers.len()
        invariant
            cb == blocks_view(ciphers@),
            cb == blocks_of(cipher_text@),
            16 * cb.len() == cipher_text@.len(),
            nonce_block@ == cb[0],
            1 <= i <= ciphers@.len(),
            blocks@.len() == i - 1,
            counter@ == counter_at((i - 1) as nat),
            forall|j: int|
                0 <= j < i - 1 ==> (#[trigger] blocks@[j])@ == xor_spec(
                    cb[j + 1],
                    keystream(cb[0], k@, j as nat),
                ),
        decreases ciphers@.len() - i,
    {
        let v = concat_arrays(nonce_block, counter);
        assert(v@ =~= cb[0].subrange(0, 8) + counter_at((i - 1) as nat));
        let b = xor_arrays(ciphers[i], aes_encrypt(v, &k));
        blocks.push(b);
        increment_counter(&mut counter);
        i = i + 1;
    }
    proof {
        assert(blocks_view(blocks@) =~= ctr_blocks_dec(cb, k@));
    }
    un_pad(un_group(&blocks))
}

} // verus!
