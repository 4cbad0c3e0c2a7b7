use vstd::prelude::*;

use aes::cipher::generic_array::GenericArray;
use aes::cipher::{BlockDecrypt, BlockEncrypt, KeyInit};

verus! {

/// The AES-128 encryption of a 16-byte block under a 16-byte key.
pub uninterp spec fn aes_enc(block: Seq<u8>, key: Seq<u8>) -> Seq<u8>;

/// The AES-128 decryption of a 16-byte block under a 16-byte key.
pub uninterp spec fn aes_dec(block: Seq<u8>, key: Seq<u8>) -> Seq<u8>;

/// Relies on `aes::Aes128::new` and `BlockEncrypt::encrypt_block`: the result
/// depends on the block and the key alone, and `BlockDecrypt::decrypt_block`
/// under the same key gives the block back (AES is a permutation of blocks).
#[verifier::external_body]
pub(crate) fn aes_encrypt(data: [u8; 16], key: &[u8; 16]) -> (r: [u8; 16])
    ensures
        r@ == aes_enc(data@, key@),
        aes_dec(r@, key@) == data@,
{
    let mut block = GenericArray::from(data);
    let cipher = aes::Aes128::new(&GenericArray::from(*key));
    cipher.encrypt_block(&mut block);
    block.into()
}

/// Relies on `aes::Aes128::new` and `BlockDecrypt::decrypt_block`: the result
/// depends on the block and the key alone.
#[verifier::external_body]
pub(crate) fn aes_decrypt(data: [u8; 16], key: &[u8; 16]) -> (r: [u8; 16])
    ensures
        r@ == aes_dec(data@, key@),
{
    let mut block = GenericArray::from(data);
    let cipher = aes::Aes128::new(&GenericArray::from(*key));
    cipher.decrypt_block(&mut block);
    block.into()
}

/// Relies on `rand::random`: a block drawn from the thread-local
/// cryptographically secure generator. Nothing is known of its value.
#[verifier::external_body]
pub(crate) fn random_block() -> (r: [u8; 16]) {
    rand::random()
}

/// A key given as a byte slice, checked to be exactly one block long.
pub(crate) fn key_block(key: &[u8]) -> (r: Option<[u8; 16]>)
    ensures
        key@.len() != 16 <==> r is None,
        r matches Some(k) ==> k@ == key@,
{
    if key.len() != 16 {
        return None;
    }
    let mut k: [u8; 16] = [0u8; 16];
    let mut i: usize = 0;
    while i < 16
        invariant
            key@.len() == 16,
            0 <= i <= 16,
            forall|j: int| 0 <= j < i ==> k@[j] == key@[j],
        decreases 16 - i,
    {
        k[i] = key[i];
        i = i + 1;
    }
    assert(k@ =~= key@);
    Some(k)
}

} // verus!
