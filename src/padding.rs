use vstd::prelude::*;

use crate::error::ModeError;

verus! {

/// The number of pad bytes for data of length `n`: always in `1..=16`, and a
/// full block when `n` is already a multiple of the block size.
pub open spec fn pad_len(n: nat) -> nat {
    (16 - n % 16) as nat
}

/// `x` followed by `k` bytes each holding `k`, where `k == pad_len(x.len())`.
pub open spec fn pad_spec(x: Seq<u8>) -> Seq<u8> {
    let k = pad_len(x.len());
    x + Seq::new(k, |i: int| k as u8)
}

/// The last byte `k` of `x` is in `1..=16`, `x` has at least `k` bytes, and
/// each of its last `k` bytes holds `k`.
pub open spec fn valid_padding(x: Seq<u8>) -> bool {
    &&& x.len() > 0
    &&& 1 <= x.last() <= 16
    &&& x.last() <= x.len()
    &&& forall|i: int| x.len() - x.last() <= i < x.len() ==> x[i] == x.last()
}

/// `x` without its padding, or `InvalidPadding` where the padding is not valid.
pub open spec fn unpad_spec(x: Seq<u8>) -> Result<Seq<u8>, ModeError> {
    if valid_padding(x) {
        Ok(x.subrange(0, x.len() - x.last()))
    } else {
        Err(ModeError::InvalidPadding)
    }
}

/// The bytes held in a result, with its error unchanged.
pub open spec fn bytes_of(r: Result<Vec<u8>, ModeError>) -> Result<Seq<u8>, ModeError> {
    match r {
        Ok(v) => Ok(v@),
        Err(e) => Err(e),
    }
}

/// Extends `data` to a multiple of the block size with bytes that each hold
/// the number of bytes added.
pub fn pad(data: Vec<u8>) -> (r: Vec<u8>)
    requires
        data@.len() + 16 <= usize::MAX,
    ensures
        r@ == pad_spec(data@),
        r@.len() % 16 == 0,
        data@.len() < r@.len() <= data@.len() + 16,
{
    let mut data = data;
    let ghost orig = data@;
    let number_pad_bytes: usize = 16 - data.len() % 16;
    let mut i: usize = 0;
    while i < number_pad_bytes
        invariant
            number_pad_bytes == pad_len(orig.len()),
            1 <= number_pad_bytes <= 16,
            0 <= i <= number_pad_bytes,
            data@ == orig + Seq::new(i as nat, |j: int| number_pad_bytes as u8),
        decreases number_pad_bytes - i,
    {
        data.push(number_pad_bytes as u8);
        i = i + 1;
        assert(data@ =~= orig + Seq::new(i as nat, |j: int| number_pad_bytes as u8));
    }
    data
}

/// Removes the padding that `pad` added, after checking every pad byte.
pub fn un_pad(data: Vec<u8>) -> (r: Result<Vec<u8>, ModeError>)
    ensures
        bytes_of(r) == unpad_spec(data@),
{
    let n = data.len();
    if n == 0 {
        return Err(ModeError::InvalidPadding);
    }
    let k = data[n - 1];
    if k == 0 || k > 16 || k as usize > n {
        return Err(ModeError::InvalidPadding);
    }
    let start: usize = n - k as usize;
    let mut i: usize = start;
    while i < n
        invariant
            n == data@.len(),
            start <= i <= n,
            k == data@.last(),
            start == n - k,
            forall|j: int| start <= j < i ==> data@[j] == k,
        decreases n - i,
    {
        if data[i] != k {
            assert(data@.len() - data@.last() <= i < data@.len() && data@[i as int] != data@.last());
            return Err(ModeError::InvalidPadding);
        }
        i = i + 1;
    }
    let mut out = data;
    out.truncate(start);
    Ok(out)
}

/// Padding is undone by unpadding, for every input; the padded length is a
/// multiple of the block size, longer by one to sixteen bytes.
pub proof fn lemma_pad_unpad(x: Seq<u8>)
    ensures
        pad_spec(x).len() % 16 == 0,
        x.len() < pad_spec(x).len() <= x.len() + 16,
        unpad_spec(pad_spec(x)) == Ok::<Seq<u8>, ModeError>(x),
{
    let p = pad_spec(x);
    let k = pad_len(x.len());
    assert(p.last() == k as u8);
    assert(p.subrange(0, p.len() - p.last()) =~= x);
}

/// Data whose last byte is zero or above the block size never unpads.
pub proof fn lemma_unpad_rejects_out_of_range(x: Seq<u8>)
    requires
        x.len() > 0,
        x.last() == 0 || x.last() > 16,
    ensures
        unpad_spec(x) == Err::<Seq<u8>, ModeError>(ModeError::InvalidPadding),
{
}

} // verus!
