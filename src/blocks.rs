use vstd::prelude::*;

use crate::error::ModeError;

verus! {

/// Block `i` of `s`: its bytes `16 * i .. 16 * i + 16`.
pub open spec fn block_at(s: Seq<u8>, i: int) -> Seq<u8> {
    s.subrange(16 * i, 16 * i + 16)
}

/// `s` split into consecutive 16-byte blocks (a trailing partial block is dropped).
pub open spec fn blocks_of(s: Seq<u8>) -> Seq<Seq<u8>> {
    Seq::new(s.len() / 16, |i: int| block_at(s, i))
}

/// The 16-byte blocks `bs` laid end to end.
pub open spec fn flat(bs: Seq<Seq<u8>>) -> Seq<u8> {
    Seq::new(16 * bs.len(), |j: int| bs[j / 16][j % 16])
}

/// The byte sequences held by a sequence of blocks.
pub open spec fn blocks_view(bs: Seq<[u8; 16]>) -> Seq<Seq<u8>> {
    bs.map_values(|b: [u8; 16]| b@)
}

/// Every element of `bs` is one block long.
pub open spec fn all_blocks(bs: Seq<Seq<u8>>) -> bool {
    forall|i: int| 0 <= i < bs.len() ==> (#[trigger] bs[i]).len() == 16
}

/// Byte-wise exclusive or of `a` and `b`.
pub open spec fn xor_spec(a: Seq<u8>, b: Seq<u8>) -> Seq<u8> {
    Seq::new(a.len(), |i: int| a[i] ^ b[i])
}

/// Byte `16 * i + j` of a block-aligned sequence is byte `j` of block `i`.
pub proof fn lemma_block_index(i: int, j: int)
    requires
        0 <= i,
        0 <= j < 16,
    ensures
        (16 * i + j) / 16 == i,
        (16 * i + j) % 16 == j,
{
    assert((16 * i + j) / 16 == i && (16 * i + j) % 16 == j) by (nonlinear_arith)
        requires
            0 <= i,
            0 <= j < 16,
    ;
}

/// Splitting block-aligned bytes and laying the blocks end to end gives the
/// bytes back.
pub proof fn lemma_flat_blocks_of(s: Seq<u8>)
    requires
        s.len() % 16 == 0,
    ensures
        flat(blocks_of(s)) == s,
{
    assert forall|j: int| 0 <= j < s.len() implies #[trigger] flat(blocks_of(s))[j] == s[j] by {
        assert(j / 16 < s.len() / 16) by (nonlinear_arith)
            requires
                0 <= j < s.len(),
                s.len() % 16 == 0,
        ;
        assert(16 * (j / 16) + j % 16 == j) by (nonlinear_arith);
    }
    assert(flat(blocks_of(s)) =~= s);
}

/// Laying blocks end to end and splitting the result gives the blocks back.
pub proof fn lemma_blocks_of_flat(bs: Seq<Seq<u8>>)
    requires
        all_blocks(bs),
    ensures
        blocks_of(flat(bs)) == bs,
{
    let f = flat(bs);
    assert(f.len() / 16 == bs.len()) by (nonlinear_arith)
        requires
            f.len() == 16 * bs.len(),
    ;
    assert forall|i: int| 0 <= i < bs.len() implies #[trigger] blocks_of(f)[i] == bs[i] by {
        assert forall|j: int| 0 <= j < 16 implies block_at(f, i)[j] == bs[i][j] by {
            lemma_block_index(i, j);
            assert(16 * i + j < 16 * bs.len()) by (nonlinear_arith)
                requires
                    0 <= i < bs.len(),
                    0 <= j < 16,
            ;
        }
        assert(block_at(f, i) =~= bs[i]);
    }
    assert(blocks_of(f) =~= bs);
}

/// Splits `data` into 16-byte blocks, in order. Fails with
/// `InvalidCiphertextLength` where `data` is not a multiple of the block size.
pub fn group(data: &[u8]) -> (r: Result<Vec<[u8; 16]>, ModeError>)
    ensures
        data@.len() % 16 != 0 <==> r is Err,
        r matches Err(e) ==> e == ModeError::InvalidCiphertextLength,
        r matches Ok(v) ==> blocks_view(v@) == blocks_of(data@),
{
    if data.len() % 16 != 0 {
        return Err(ModeError::InvalidCiphertextLength);
    }
    let n: usize = data.len() / 16;
    let mut blocks: Vec<[u8; 16]> = Vec::new();
    let mut i: usize = 0;
    while i < n
        invariant
            n == data@.len() / 16,
            data@.len() % 16 == 0,
            0 <= i <= n,
            blocks@.len() == i,
            forall|b: int| 0 <= b < i ==> (#[trigger] blocks@[b])@ == block_at(data@, b),
        decreases n - i,
    {
        assert(16 * i + 16 <= data@.len()) by (nonlinear_arith)
            requires
                i < n,
                n == data@.len() / 16,
        ;
        let mut block: [u8; 16] = [0u8; 16];
        let mut j: usize = 0;
        while j < 16
            invariant
                16 * i + 16 <= data@.len(),
                data@.len() == data.len(),
                0 <= j <= 16,
                forall|m: int| 0 <= m < j ==> block@[m] == data@[16 * i + m],
            decreases 16 - j,
        {
            block[j] = data[16 * i + j];
            j = j + 1;
        }
        assert(block@ =~= block_at(data@, i as int));
        blocks.push(block);
        i = i + 1;
    }
    assert(blocks_view(blocks@) =~= blocks_of(data@));
    Ok(blocks)
}

/// Lays the blocks end to end, in order.
pub fn un_group(blocks: &Vec<[u8; 16]>) -> (r: Vec<u8>)
    requires
        16 * blocks@.len() <= usize::MAX,
    ensures
        r@ == flat(blocks_view(blocks@)),
{
    let ghost bs = blocks_view(blocks@);
    let mut out: Vec<u8> = Vec::new();
    let mut i: usize = 0;
    while i < blocks.len()
        invariant
            bs == blocks_view(blocks@),
            16 * blocks@.len() <= usize::MAX,
            0 <= i <= blocks@.len(),
            out@.len() == 16 * i,
            forall|p: int| 0 <= p < out@.len() ==> #[trigger] out@[p] == bs[p / 16][p % 16],
        decreases blocks@.len() - i,
    {
        let block: [u8; 16] = blocks[i];
        let mut j: usize = 0;
        while j < 16
            invariant
                bs == blocks_view(blocks@),
                0 <= i < blocks@.len(),
                block@ == bs[i as int],
                0 <= j <= 16,
                out@.len() == 16 * i + j,
                forall|p: int| 0 <= p < out@.len() ==> #[trigger] out@[p] == bs[p / 16][p % 16],
            decreases 16 - j,
        {
            proof {
                lemma_block_index(i as int, j as int);
            }
            out.push(block[j]);
            j = j + 1;
        }
        i = i + 1;
    }
    assert(out@ =~= flat(bs));
    out
}

/// Byte-wise exclusive or of two blocks.
pub fn xor_arrays(array1: [u8; 16], array2: [u8; 16]) -> (r: [u8; 16])
    ensures
        r@ == xor_spec(array1@, array2@),
{
    let mut result: [u8; 16] = [0u8; 16];
    let mut i: usize = 0;
    while i < 16
        invariant
            0 <= i <= 16,
            forall|j: int| 0 <= j < i ==> result@[j] == array1@[j] ^ array2@[j],
        decreases 16 - i,
    {
        result[i] = array1[i] ^ array2[i];
        i = i + 1;
    }
    assert(result@ =~= xor_spec(array1@, array2@));
    result
}

} // verus!

verus! {

/// Exclusive or with the same block twice is the identity.
pub proof fn lemma_xor_cancel(a: Seq<u8>, b: Seq<u8>)
    ensures
        xor_spec(xor_spec(a, b), b) == a,
{
    assert forall|i: int| 0 <= i < a.len() implies #[trigger] xor_spec(xor_spec(a, b), b)[i]
        == a[i] by {
        let x = a[i];
        let y = b[i];
        assert((x ^ y) ^ y == x) by (bit_vector);
    }
    assert(xor_spec(xor_spec(a, b), b) =~= a);
}

/// Block `i` of laid-out blocks is block `i` of the sequence.
pub proof fn lemma_block_at_flat(bs: Seq<Seq<u8>>, i: int)
    requires
        all_blocks(bs),
        0 <= i < bs.len(),
    ensures
        block_at(flat(bs), i) == bs[i],
{
    lemma_blocks_of_flat(bs);
    assert(blocks_of(flat(bs))[i] == block_at(flat(bs), i));
}

} // verus!
