//! The 26-bit letter-mask model: a word is abstracted as a `u32` whose bit
//! `i` is set iff letter `i` (`a` = 0 .. `z` = 25) occurs in it. Two words
//! are letter-disjoint iff the bitwise AND of their masks is zero.

use vstd::prelude::*;

verus! {

/// Bit `i` of `m` is set.
pub open spec fn bit(m: u32, i: u32) -> bool {
    i < 32 && m & (1u32 << i) != 0
}

/// `m` uses only the 26 letter bits.
pub open spec fn mask26(m: u32) -> bool {
    m < 0x400_0000
}

/// Two masks share no letter.
pub open spec fn disjoint(a: u32, b: u32) -> bool {
    a & b == 0
}

/// Number of set bits among bits `0 .. n` of `m`.
pub open spec fn count_upto(m: u32, n: u32) -> nat
    decreases n,
{
    if n == 0 {
        0
    } else {
        count_upto(m, (n - 1) as u32) + (if bit(m, (n - 1) as u32) {
            1nat
        } else {
            0nat
        })
    }
}

/// Number of set bits of `m`.
pub open spec fn popcount(m: u32) -> nat {
    count_upto(m, 32)
}

/// The position of the lowest set bit of `m` at or above `i`; 32 if none.
pub open spec fn first_set(m: u32, i: u32) -> u32
    decreases 32 - i,
{
    if i >= 32 {
        32
    } else if bit(m, i) {
        i
    } else {
        first_set(m, (i + 1) as u32)
    }
}

/// The smallest rank at or above `i` whose bit is unset in `m`, capped at 26:
/// the rank from which a partial combination resumes its search.
pub open spec fn next_free(m: u32, i: u32) -> u32
    decreases 32 - i,
{
    if i >= 26 {
        26
    } else if !bit(m, i) {
        i
    } else {
        next_free(m, (i + 1) as u32)
    }
}

/// Bitwise OR of all masks of `s`, the cumulative mask of a combination.
pub open spec fn or_fold(s: Seq<u32>) -> u32
    decreases s.len(),
{
    if s.len() == 0 {
        0u32
    } else {
        or_fold(s.drop_last()) | s.last()
    }
}

/// Every two distinct masks of `s` are letter-disjoint.
pub open spec fn pairwise_disjoint(s: Seq<u32>) -> bool {
    forall|i: int, j: int| 0 <= i < j < s.len() ==> disjoint(s[i], s[j])
}

pub proof fn lemma_or_bit(a: u32, b: u32, i: u32)
    by (bit_vector)
    ensures
        bit(a | b, i) <==> (bit(a, i) || bit(b, i)),
{
}

pub proof fn lemma_zero_bit(j: u32)
    by (bit_vector)
    ensures
        !bit(0u32, j),
{
}

proof fn lemma_count_zero(n: u32)
    ensures
        count_upto(0u32, n) == 0,
    decreases n,
{
    if n > 0 {
        lemma_count_zero((n - 1) as u32);
        lemma_zero_bit((n - 1) as u32);
    }
}

/// The empty mask has no letters.
pub proof fn lemma_popcount_zero()
    ensures
        popcount(0u32) == 0,
{
    lemma_count_zero(32);
}

pub proof fn lemma_and_bit(a: u32, b: u32, i: u32)
    by (bit_vector)
    ensures
        bit(a & b, i) <==> (bit(a, i) && bit(b, i)),
{
}

pub proof fn lemma_single_bit(i: u32, j: u32)
    by (bit_vector)
    ensures
        i < 32 ==> (bit(1u32 << i, j) <==> i == j),
{
}

pub proof fn lemma_single_mask26(i: u32)
    by (bit_vector)
    ensures
        i < 26 ==> (1u32 << i) < 0x400_0000,
{
}

proof fn lemma_count_single(i: u32, n: u32)
    requires
        i < 32,
    ensures
        count_upto(1u32 << i, n) == if i < n {
            1nat
        } else {
            0nat
        },
    decreases n,
{
    if n > 0 {
        lemma_count_single(i, (n - 1) as u32);
        lemma_single_bit(i, (n - 1) as u32);
    }
}

/// A mask with a single set bit has popcount one.
pub proof fn lemma_popcount_single(i: u32)
    requires
        i < 32,
    ensures
        popcount(1u32 << i) == 1,
{
    lemma_count_single(i, 32);
}

pub proof fn lemma_disjoint_not_both(a: u32, b: u32, i: u32)
    by (bit_vector)
    ensures
        a & b == 0 ==> !(bit(a, i) && bit(b, i)),
{
}

pub proof fn lemma_disjoint_or_split(a: u32, b: u32, c: u32)
    by (bit_vector)
    ensures
        (a & (b | c) == 0) <==> (a & b == 0 && a & c == 0),
{
}

pub proof fn lemma_disjoint_comm(a: u32, b: u32)
    by (bit_vector)
    ensures
        (a & b == 0) <==> (b & a == 0),
{
}

pub proof fn lemma_mask26_bit(m: u32, i: u32)
    by (bit_vector)
    ensures
        m < 0x400_0000 && i >= 26 ==> !bit(m, i),
{
}

pub proof fn lemma_or_mask26(a: u32, b: u32)
    by (bit_vector)
    ensures
        a < 0x400_0000 && b < 0x400_0000 ==> (a | b) < 0x400_0000,
{
}

/// A nonzero mask has a set bit.
pub proof fn lemma_nonzero_has_bit(m: u32)
    requires
        m != 0,
    ensures
        exists|j: u32| j < 32 && bit(m, j),
{
    vstd::std_specs::bits::axiom_u32_trailing_zeros(m);
    let j = vstd::std_specs::bits::u32_trailing_zeros(m);
    assert((m >> j as u32) & 1u32 == 1u32 ==> m & (1u32 << j as u32) != 0) by (bit_vector);
    assert(j < 32 && bit(m, j as u32));
}

/// Two masks with a common set bit are not disjoint.
pub proof fn lemma_common_bit_not_disjoint(a: u32, b: u32, i: u32)
    by (bit_vector)
    ensures
        bit(a, i) && bit(b, i) ==> a & b != 0,
{
}

/// A positive bit count below `n` exhibits a set bit below `n`.
pub proof fn lemma_count_pos_has_bit(m: u32, n: u32)
    requires
        count_upto(m, n) > 0,
    ensures
        exists|j: u32| j < n && bit(m, j),
    decreases n,
{
    if n > 0 {
        if bit(m, (n - 1) as u32) {
            assert(((n - 1) as u32) < n && bit(m, (n - 1) as u32));
        } else {
            lemma_count_pos_has_bit(m, (n - 1) as u32);
        }
    }
}

/// Disjoint masks contribute their set bits independently.
pub proof fn lemma_count_disjoint(a: u32, b: u32, n: u32)
    requires
        disjoint(a, b),
    ensures
        count_upto(a | b, n) == count_upto(a, n) + count_upto(b, n),
    decreases n,
{
    if n > 0 {
        lemma_count_disjoint(a, b, (n - 1) as u32);
        lemma_or_bit(a, b, (n - 1) as u32);
        lemma_disjoint_not_both(a, b, (n - 1) as u32);
    }
}

/// Popcount of the union of two disjoint masks is the sum of their popcounts.
pub proof fn lemma_popcount_disjoint(a: u32, b: u32)
    requires
        disjoint(a, b),
    ensures
        popcount(a | b) == popcount(a) + popcount(b),
{
    lemma_count_disjoint(a, b, 32);
}

pub proof fn lemma_first_set_ge(m: u32, i: u32)
    requires
        i <= 32,
    ensures
        first_set(m, i) >= i,
    decreases 32 - i,
{
    if i < 32 && !bit(m, i) {
        lemma_first_set_ge(m, (i + 1) as u32);
    }
}

pub proof fn lemma_first_set_is_set(m: u32, i: u32)
    requires
        first_set(m, i) < 32,
    ensures
        bit(m, first_set(m, i)),
    decreases 32 - i,
{
    if i < 32 && !bit(m, i) {
        lemma_first_set_is_set(m, (i + 1) as u32);
    }
}

pub proof fn lemma_first_set_min(m: u32, i: u32, j: u32)
    requires
        i <= j < first_set(m, i),
    ensures
        !bit(m, j),
    decreases 32 - i,
{
    if i < 32 && !bit(m, i) && j > i {
        lemma_first_set_min(m, (i + 1) as u32, j);
    }
}

/// A 26-bit mask with at least one set bit has its lowest set bit among the
/// 26 letter bits.
pub proof fn lemma_first_set_in_range(m: u32)
    requires
        popcount(m) >= 1,
        mask26(m),
    ensures
        first_set(m, 0) < 26,
{
    lemma_count_upto_26(m);
    lemma_count_pos_has_bit(m, 26);
    let j = choose|j: u32| j < 26 && bit(m, j);
    if first_set(m, 0) >= 26 {
        lemma_first_set_min(m, 0, j);
    }
}

pub proof fn lemma_next_free_ge(m: u32, i: u32)
    ensures
        next_free(m, i) >= i || next_free(m, i) == 26,
    decreases 32 - i,
{
    if i < 26 && bit(m, i) {
        lemma_next_free_ge(m, (i + 1) as u32);
    }
}

pub proof fn lemma_next_free_le(m: u32, i: u32)
    requires
        i <= 26,
    ensures
        i <= next_free(m, i) <= 26,
    decreases 32 - i,
{
    if i < 26 && bit(m, i) {
        lemma_next_free_le(m, (i + 1) as u32);
    }
}

pub proof fn lemma_next_free_le_any(m: u32, i: u32)
    ensures
        next_free(m, i) <= 26,
{
    if i <= 26 {
        lemma_next_free_le(m, i);
    }
}

pub proof fn lemma_next_free_unset(m: u32, i: u32)
    requires
        next_free(m, i) < 26,
    ensures
        !bit(m, next_free(m, i)),
    decreases 32 - i,
{
    if i < 26 && bit(m, i) {
        lemma_next_free_unset(m, (i + 1) as u32);
    }
}

pub proof fn lemma_next_free_skipped_set(m: u32, i: u32, j: u32)
    requires
        i <= j < next_free(m, i),
        j < 26,
    ensures
        bit(m, j),
    decreases 32 - i,
{
    if j > i {
        lemma_next_free_skipped_set(m, (i + 1) as u32, j);
    }
}

/// Popcount of bits `0 .. 26` equals the full popcount for a 26-bit mask.
pub proof fn lemma_count_upto_26(m: u32)
    requires
        mask26(m),
    ensures
        count_upto(m, 26) == popcount(m),
{
    lemma_count_high(m, 32);
}

proof fn lemma_count_high(m: u32, n: u32)
    requires
        mask26(m),
        26 <= n <= 32,
    ensures
        count_upto(m, n) == count_upto(m, 26),
    decreases n,
{
    if n > 26 {
        lemma_count_high(m, (n - 1) as u32);
        lemma_mask26_bit(m, (n - 1) as u32);
    }
}


pub proof fn lemma_or_zero(m: u32)
    by (bit_vector)
    ensures
        0u32 | m == m,
{
}

/// A mask disjoint from a union is disjoint from every part of it.
pub proof fn lemma_or_fold_disjoint(s: Seq<u32>, c: u32)
    requires
        or_fold(s) & c == 0,
    ensures
        forall|k: int| 0 <= k < s.len() ==> (#[trigger] s[k]) & c == 0,
    decreases s.len(),
{
    if s.len() > 0 {
        lemma_disjoint_comm(or_fold(s), c);
        lemma_disjoint_or_split(c, or_fold(s.drop_last()), s.last());
        lemma_disjoint_comm(c, or_fold(s.drop_last()));
        lemma_disjoint_comm(c, s.last());
        lemma_or_fold_disjoint(s.drop_last(), c);
        assert forall|k: int| 0 <= k < s.len() implies (#[trigger] s[k]) & c == 0 by {
            if k < s.len() - 1 {
                assert(s[k] == s.drop_last()[k]);
            }
        }
    }
}
/// Count the set bits of a mask.
pub fn popcount_exec(m: u32) -> (r: usize)
    ensures
        r == popcount(m),
        r <= 32,
{
    let mut i: u32 = 0;
    let mut c: usize = 0;
    while i < 32
        invariant
            i <= 32,
            c == count_upto(m, i),
            c <= i,
        decreases 32 - i,
    {
        if m & (1u32 << i) != 0 {
            c += 1;
        }
        i += 1;
    }
    c
}

/// Position of the lowest set bit of a nonzero 26-bit mask: the rarest rank
/// present, which selects the bucket a mask files into.
pub fn lowest_set_bit(m: u32) -> (r: usize)
    requires
        popcount(m) >= 1,
        mask26(m),
    ensures
        r == first_set(m, 0),
        r < 26,
{
    proof {
        lemma_first_set_in_range(m);
    }
    let mut i: u32 = 0;
    while i < 26
        invariant
            i <= 26,
            first_set(m, 0) == first_set(m, i),
        decreases 26 - i,
    {
        if m & (1u32 << i) != 0 {
            return i as usize;
        }
        i += 1;
    }
    proof {
        lemma_first_set_ge(m, 26);
        assert(false);
    }
    0
}

} // verus!
