use vstd::prelude::*;

use vstd::arithmetic::div_mod::{lemma_add_mod_noop, lemma_mod_self_0, lemma_small_mod};

verus! {

/// `n` zero bytes.
pub open spec fn zeros(n: nat) -> Seq<u8> {
    Seq::new(n, |i: int| 0u8)
}

/// Big-endian increment by one: the last byte goes up by one, or becomes zero
/// and carries into the bytes before it. All `0xFF` bytes wrap to all zero.
pub open spec fn incr(s: Seq<u8>) -> Seq<u8>
    decreases s.len(),
{
    if s.len() == 0 {
        s
    } else if s.last() == 255 {
        incr(s.drop_last()).push(0u8)
    } else {
        s.drop_last().push((s.last() + 1) as u8)
    }
}

/// The 8-byte counter of block `i` of a message: zero, incremented `i` times.
pub open spec fn counter_at(i: nat) -> Seq<u8>
    decreases i,
{
    if i == 0 {
        zeros(8)
    } else {
        incr(counter_at((i - 1) as nat))
    }
}

/// Increment keeps the length.
pub proof fn lemma_incr_len(s: Seq<u8>)
    ensures
        incr(s).len() == s.len(),
    decreases s.len(),
{
    if s.len() > 0 && s.last() == 255 {
        lemma_incr_len(s.drop_last());
    }
}

/// Every counter is eight bytes long.
pub proof fn lemma_counter_len(i: nat)
    ensures
        counter_at(i).len() == 8,
    decreases i,
{
    if i > 0 {
        lemma_counter_len((i - 1) as nat);
        lemma_incr_len(counter_at((i - 1) as nat));
    }
}

/// The number that `s` spells in base 256, most significant byte first.
pub open spec fn be_value(s: Seq<u8>) -> nat
    decreases s.len(),
{
    if s.len() == 0 {
        0
    } else {
        (be_value(s.drop_last()) * 256 + s.last()) as nat
    }
}

/// `256` to the power `n`.
pub open spec fn pow256(n: nat) -> nat
    decreases n,
{
    if n == 0 {
        1
    } else {
        256 * pow256((n - 1) as nat)
    }
}

/// A value of `n` bytes is below `256` to the power `n`.
pub proof fn lemma_be_value_bound(s: Seq<u8>)
    ensures
        be_value(s) < pow256(s.len()),
    decreases s.len(),
{
    if s.len() > 0 {
        lemma_be_value_bound(s.drop_last());
        let d = be_value(s.drop_last());
        let p = pow256((s.len() - 1) as nat);
        assert(d * 256 + s.last() < 256 * p) by (nonlinear_arith)
            requires
                d < p,
                s.last() < 256,
        ;
    }
}

/// Increment adds one to the big-endian value, modulo `256` to the power of
/// the length.
pub proof fn lemma_incr_value(s: Seq<u8>)
    ensures
        be_value(incr(s)) == (be_value(s) + 1) % pow256(s.len()),
    decreases s.len(),
{
    if s.len() == 0 {
        lemma_mod_self_0(1);
    } else {
        let d = s.drop_last();
        let dv = be_value(d);
        let p = pow256(d.len());
        lemma_be_value_bound(d);
        if s.last() == 255 {
            lemma_incr_value(d);
            assert(incr(s).drop_last() =~= incr(d));
            if dv + 1 < p {
                lemma_small_mod((dv + 1) as nat, p);
                assert((dv + 1) * 256 < 256 * p) by (nonlinear_arith)
                    requires
                        dv + 1 < p,
                ;
                lemma_small_mod(((dv + 1) * 256) as nat, 256 * p);
            } else {
                lemma_mod_self_0(p as int);
                lemma_mod_self_0(256 * p as int);
            }
            assert(be_value(s) + 1 == (dv + 1) * 256) by (nonlinear_arith)
                requires
                    be_value(s) == dv * 256 + 255,
            ;
        } else {
            assert(incr(s).drop_last() =~= d);
            assert(dv * 256 + s.last() + 1 < 256 * p) by (nonlinear_arith)
                requires
                    dv < p,
                    s.last() < 255,
            ;
            lemma_small_mod((be_value(s) + 1) as nat, 256 * p);
        }
    }
}

/// Zero bytes spell zero.
pub proof fn lemma_zeros_value(n: nat)
    ensures
        be_value(zeros(n)) == 0,
    decreases n,
{
    if n > 0 {
        assert(zeros(n).drop_last() =~= zeros((n - 1) as nat));
        lemma_zeros_value((n - 1) as nat);
    }
}

/// `256` to the power eight is `2^64`.
pub proof fn lemma_pow256_8()
    ensures
        pow256(8) == 0x1_0000_0000_0000_0000,
{
    reveal_with_fuel(pow256, 9);
}

/// The counter of block `i` spells `i` modulo `2^64`, big-endian.
pub proof fn lemma_counter_value(i: nat)
    ensures
        be_value(counter_at(i)) == i % pow256(8),
    decreases i,
{
    lemma_counter_len(i);
    let m = pow256(8);
    lemma_pow256_8();
    if i == 0 {
        lemma_zeros_value(8);
    } else {
        lemma_counter_value((i - 1) as nat);
        lemma_counter_len((i - 1) as nat);
        lemma_incr_value(counter_at((i - 1) as nat));
        lemma_add_mod_noop((i - 1) as int, 1, m as int);
        lemma_small_mod(1, m);
        vstd::arithmetic::div_mod::lemma_mod_twice((i - 1) as int, m as int);
    }
}

/// Increments an 8-byte big-endian counter by one, wrapping to zero.
pub fn increment_counter(counter: &mut [u8; 8])
    ensures
        final(counter)@ == incr(old(counter)@),
        be_value(final(counter)@) == (be_value(old(counter)@) + 1) % 0x1_0000_0000_0000_0000,
{
    proof {
        lemma_incr_value(counter@);
        lemma_pow256_8();
    }
    let ghost start = counter@;
    let mut i: usize = 8;
    assert(start.subrange(0, 8) =~= start);
    assert(counter@ =~= start.subrange(0, 8) + zeros(0));
    assert(incr(start) =~= incr(start.subrange(0, 8)) + zeros(0));
    while i > 0
        invariant
            0 <= i <= 8,
            start == old(counter)@,
            start.len() == 8,
            be_value(incr(start)) == (be_value(start) + 1) % 0x1_0000_0000_0000_0000,
            counter@ == start.subrange(0, i as int) + zeros((8 - i) as nat),
            incr(start) == incr(start.subrange(0, i as int)) + zeros((8 - i) as nat),
        decreases i,
    {
        if counter[i - 1] == 255 {
            counter[i - 1] = 0;
            proof {
                let pre = start.subrange(0, i as int);
                assert(pre.drop_last() =~= start.subrange(0, i - 1));
                assert(incr(pre) == incr(start.subrange(0, i - 1)).push(0u8));
                assert(incr(start.subrange(0, i - 1)) + zeros((8 - (i - 1)) as nat) =~= incr(
                    start.subrange(0, i - 1),
                ).push(0u8) + zeros((8 - i) as nat));
            }
            i = i - 1;
            assert(counter@ =~= start.subrange(0, i as int) + zeros((8 - i) as nat));
        } else {
            counter[i - 1] = counter[i - 1] + 1;
            proof {
                let pre = start.subrange(0, i as int);
                assert(pre.drop_last() =~= start.subrange(0, i - 1));
                assert(incr(pre) =~= start.subrange(0, i - 1).push((start[i - 1] + 1) as u8));
                assert(counter@ =~= incr(pre) + zeros((8 - i) as nat));
                assert(counter@ == incr(start));
            }
            return;
        }
    }
    assert(start.subrange(0, 0) =~= Seq::<u8>::empty());
    assert(counter@ =~= incr(start));
}

/// The first eight bytes of `arr1` followed by the eight bytes of `arr2`.
pub fn concat_arrays(arr1: [u8; 16], arr2: [u8; 8]) -> (r: [u8; 16])
    ensures
        r@ == arr1@.subrange(0, 8) + arr2@,
{
    let mut result: [u8; 16] = [0u8; 16];
    let mut i: usize = 0;
    while i < 8
        invariant
            0 <= i <= 8,
            forall|j: int| 0 <= j < i ==> result@[j] == arr1@[j],
        decreases 8 - i,
    {
        result[i] = arr1[i];
        i = i + 1;
    }
    let mut i: usize = 0;
    while i < 8
        invariant
            0 <= i <= 8,
            forall|j: int| 0 <= j < 8 ==> result@[j] == arr1@[j],
            forall|j: int| 0 <= j < i ==> result@[j + 8] == arr2@[j],
        decreases 8 - i,
    {
        result[i + 8] = arr2[i];
        i = i + 1;
    }
    assert(result@ =~= arr1@.subrange(0, 8) + arr2@);
    result
}

} // verus!
