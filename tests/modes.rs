use block_modes::{
    cbc_decrypt, cbc_encrypt, cbc_encrypt_with_iv, concat_arrays, ctr_decrypt, ctr_encrypt,
    ctr_encrypt_with_nonce, ecb_decrypt, ecb_encrypt, group, increment_counter, pad, un_group,
    un_pad, xor_arrays, ModeError, BLOCK_SIZE,
};

fn fips_key() -> Vec<u8> {
    (0u8..16).collect()
}

fn fips_plain() -> Vec<u8> {
    vec![
        0x00, 0x11, 0x22, 0x33, 0x44, 0x55, 0x66, 0x77, 0x88, 0x99, 0xaa, 0xbb, 0xcc, 0xdd, 0xee,
        0xff,
    ]
}

fn fips_cipher() -> Vec<u8> {
    vec![
        0x69, 0xc4, 0xe0, 0xd8, 0x6a, 0x7b, 0x04, 0x30, 0xd8, 0xcd, 0xb7, 0x80, 0x70, 0xb4, 0xc5,
        0x5a,
    ]
}

fn pattern(len: usize, kind: u8) -> Vec<u8> {
    let mut state: u32 = 0x1234_5678;
    (0..len)
        .map(|i| match kind {
            0 => 0x00,
            1 => 0xff,
            _ => {
                state = state.wrapping_mul(1_103_515_245).wrapping_add(12_345 + i as u32);
                (state >> 16) as u8
            }
        })
        .collect()
}

#[test]
fn round_trip_all_modes_all_lengths() {
    let key = vec![7u8; 16];
    for len in 0..=1000 {
        for kind in 0..3u8 {
            let plain = pattern(len, kind);
            let c = ecb_encrypt(plain.clone(), &key).unwrap();
            assert_eq!(ecb_decrypt(c, &key).unwrap(), plain);
            let c = cbc_encrypt(plain.clone(), &key).unwrap();
            assert_eq!(cbc_decrypt(c, &key).unwrap(), plain);
            let c = ctr_encrypt(plain.clone(), &key).unwrap();
            assert_eq!(ctr_decrypt(c, &key).unwrap(), plain);
        }
    }
}

#[test]
fn ciphertext_lengths() {
    let key = vec![1u8; 16];
    for len in [0usize, 1, 15, 16, 17, 31, 32, 100] {
        let padded = (len / 16 + 1) * 16;
        assert_eq!(ecb_encrypt(vec![3; len], &key).unwrap().len(), padded);
        assert_eq!(cbc_encrypt(vec![3; len], &key).unwrap().len(), padded + 16);
        assert_eq!(ctr_encrypt(vec![3; len], &key).unwrap().len(), padded + 16);
    }
}

#[test]
fn padding_lengths_and_reversal() {
    for len in 0..100usize {
        let x = pattern(len, 2);
        let p = pad(x.clone());
        assert_eq!(p.len() % BLOCK_SIZE, 0);
        assert!(p.len() > x.len() && p.len() <= x.len() + 16);
        assert_eq!(un_pad(p).unwrap(), x);
    }
}

#[test]
fn padding_values() {
    assert_eq!(pad(vec![]), vec![16u8; 16]);
    let mut expected = vec![9u8; 13];
    expected.extend_from_slice(&[3, 3, 3]);
    assert_eq!(pad(vec![9u8; 13]), expected);
}

#[test]
fn exact_block_gets_full_pad_block() {
    let x = vec![0x61u8; 16];
    let p = pad(x.clone());
    assert_eq!(p.len(), 32);
    assert_eq!(&p[..16], &x[..]);
    assert!(p[16..].iter().all(|&b| b == 0x10));
}

#[test]
fn unpad_rejects_bad_padding() {
    assert_eq!(un_pad(vec![]), Err(ModeError::InvalidPadding));
    assert_eq!(un_pad(vec![1, 2, 0]), Err(ModeError::InvalidPadding));
    assert_eq!(un_pad(vec![17u8; 32]), Err(ModeError::InvalidPadding));
    assert_eq!(un_pad(vec![5, 5]), Err(ModeError::InvalidPadding));
    assert_eq!(un_pad(vec![1, 2, 3, 3, 2, 3]), Err(ModeError::InvalidPadding));
    assert_eq!(un_pad(vec![1, 2, 3, 3, 3, 3]), Ok(vec![1, 2, 3]));
}

#[test]
fn corrupted_padding_detected() {
    let key = vec![2u8; 16];
    let c = ecb_encrypt(b"some message".to_vec(), &key).unwrap();
    let plain = ecb_decrypt(c, &key).unwrap();
    let mut forged = pad(plain);
    let last = forged.len() - 1;
    forged[last] = 0;
    assert_eq!(un_pad(forged.clone()), Err(ModeError::InvalidPadding));
    forged[last] = 200;
    assert_eq!(un_pad(forged), Err(ModeError::InvalidPadding));
}

#[test]
fn ecb_known_answer() {
    let c = ecb_encrypt(fips_plain(), &fips_key()).unwrap();
    assert_eq!(c.len(), 32);
    assert_eq!(&c[..16], &fips_cipher()[..]);
    assert_eq!(ecb_decrypt(c, &fips_key()).unwrap(), fips_plain());
}

#[test]
fn ecb_identical_blocks_leak() {
    let key = vec![0u8; 16];
    let c = ecb_encrypt(vec![0x41u8; 32], &key).unwrap();
    assert_eq!(c.len(), 48);
    assert_eq!(&c[0..16], &c[16..32]);
    assert_ne!(&c[16..32], &c[32..48]);
}

#[test]
fn cbc_and_ctr_are_randomised() {
    let key = vec![0u8; 16];
    let plain = vec![0x41u8; 32];
    let a = cbc_encrypt(plain.clone(), &key).unwrap();
    let b = cbc_encrypt(plain.clone(), &key).unwrap();
    assert_ne!(a, b);
    assert_ne!(&a[16..32], &a[32..48]);
    let a = ctr_encrypt(plain.clone(), &key).unwrap();
    let b = ctr_encrypt(plain, &key).unwrap();
    assert_ne!(a, b);
    assert_ne!(&a[16..32], &a[32..48]);
}

#[test]
fn cbc_with_given_iv() {
    let iv = [0x5au8; 16];
    let c = cbc_encrypt_with_iv(fips_plain(), &fips_key(), iv).unwrap();
    assert_eq!(c.len(), 48);
    assert_eq!(&c[..16], &iv[..]);
    let mut first = [0u8; 16];
    for i in 0..16 {
        first[i] = fips_plain()[i] ^ 0x5a;
    }
    let expected = ecb_encrypt(first.to_vec(), &fips_key()).unwrap();
    assert_eq!(&c[16..32], &expected[..16]);
    assert_eq!(cbc_decrypt(c, &fips_key()).unwrap(), fips_plain());
}

#[test]
fn ctr_with_given_nonce() {
    let mut nonce = [0xabu8; 16];
    nonce[0] = 1;
    let c = ctr_encrypt_with_nonce(vec![0u8; 16], &fips_key(), nonce).unwrap();
    assert_eq!(c.len(), 48);
    assert_eq!(&c[..8], &nonce[..8]);
    assert_eq!(&c[8..16], &[0u8; 8]);
    let mut v = [0u8; 16];
    v[..8].copy_from_slice(&nonce[..8]);
    let keystream = ecb_encrypt(v.to_vec(), &fips_key()).unwrap();
    assert_eq!(&c[16..32], &keystream[..16]);
    assert_eq!(ctr_decrypt(c, &fips_key()).unwrap(), vec![0u8; 16]);
}

#[test]
fn ctr_bit_flip_changes_one_bit() {
    let key = vec![9u8; 16];
    let plain = pattern(40, 2);
    let mut c = ctr_encrypt(plain.clone(), &key).unwrap();
    c[16 + 16 + 3] ^= 0x04;
    let got = ctr_decrypt(c, &key).unwrap();
    let mut expected = plain;
    expected[16 + 3] ^= 0x04;
    assert_eq!(got, expected);
}

#[test]
fn length_validation() {
    let key = vec![0u8; 16];
    assert_eq!(ecb_decrypt(vec![0u8; 17], &key), Err(ModeError::InvalidCiphertextLength));
    assert_eq!(ecb_decrypt(vec![], &key), Err(ModeError::InvalidCiphertextLength));
    assert_eq!(cbc_decrypt(vec![0u8; 31], &key), Err(ModeError::CiphertextTooShort));
    assert_eq!(cbc_decrypt(vec![0u8; 16], &key), Err(ModeError::CiphertextTooShort));
    assert_eq!(cbc_decrypt(vec![0u8; 33], &key), Err(ModeError::InvalidCiphertextLength));
    assert_eq!(ctr_decrypt(vec![0u8; 8], &key), Err(ModeError::CiphertextTooShort));
    assert_eq!(ctr_decrypt(vec![0u8; 16], &key), Err(ModeError::CiphertextTooShort));
    assert_eq!(ctr_decrypt(vec![0u8; 40], &key), Err(ModeError::InvalidCiphertextLength));
}

#[test]
fn key_length_validation() {
    let short = vec![0u8; 15];
    assert_eq!(ecb_encrypt(vec![1], &short), Err(ModeError::InvalidKeyLength));
    assert_eq!(ecb_decrypt(vec![0; 16], &short), Err(ModeError::InvalidKeyLength));
    assert_eq!(cbc_encrypt(vec![1], &short), Err(ModeError::InvalidKeyLength));
    assert_eq!(cbc_decrypt(vec![0; 32], &vec![0u8; 17]), Err(ModeError::InvalidKeyLength));
    assert_eq!(ctr_encrypt(vec![1], &short), Err(ModeError::InvalidKeyLength));
    assert_eq!(ctr_decrypt(vec![0; 32], &short), Err(ModeError::InvalidKeyLength));
}

#[test]
fn wrong_key_gives_bad_padding_or_other_text() {
    let c = ecb_encrypt(fips_plain(), &fips_key()).unwrap();
    match ecb_decrypt(c, &[1u8; 16]) {
        Ok(p) => assert_ne!(p, fips_plain()),
        Err(e) => assert_eq!(e, ModeError::InvalidPadding),
    }
}

#[test]
fn group_and_un_group() {
    let data = pattern(48, 2);
    let blocks = group(&data).unwrap();
    assert_eq!(blocks.len(), 3);
    assert_eq!(&blocks[1][..], &data[16..32]);
    assert_eq!(un_group(&blocks), data);
    assert_eq!(group(&data[..20]), Err(ModeError::InvalidCiphertextLength));
    assert_eq!(group(&[]).unwrap().len(), 0);
}

#[test]
fn xor_and_concat() {
    let a = [0xf0u8; 16];
    let mut b = [0x0fu8; 16];
    b[3] = 0xf0;
    let r = xor_arrays(a, b);
    assert_eq!(r[0], 0xff);
    assert_eq!(r[3], 0x00);
    let mut n = [0u8; 16];
    for i in 0..16 {
        n[i] = i as u8;
    }
    let r = concat_arrays(n, [9u8; 8]);
    assert_eq!(&r[..8], &n[..8]);
    assert_eq!(&r[8..], &[9u8; 8]);
}

#[test]
fn counter_increments_with_carry_and_wraps() {
    let mut c = [0u8; 8];
    increment_counter(&mut c);
    assert_eq!(c, [0, 0, 0, 0, 0, 0, 0, 1]);
    let mut c = [0, 0, 0, 0, 0, 0, 0x01, 0xff];
    increment_counter(&mut c);
    assert_eq!(c, [0, 0, 0, 0, 0, 0, 0x02, 0x00]);
    let mut c = [0xffu8; 8];
    increment_counter(&mut c);
    assert_eq!(c, [0u8; 8]);
    let mut c = [0x12, 0x34, 0x56, 0x78, 0x9a, 0xbc, 0xde, 0xf0];
    let before = u64::from_be_bytes(c);
    increment_counter(&mut c);
    assert_eq!(u64::from_be_bytes(c), before + 1);
}
