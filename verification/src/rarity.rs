//! The rarity ranker and the mask relocation. Each letter's rank is its
//! position when the 26 letters are sorted ascending by occurrence count,
//! ties broken by letter identity: rank 0 is the rarest. A word's letter
//! mask is then relocated into rank space, bit `t[c]` standing for letter
//! `c`.

use vstd::prelude::*;
use crate::bits::{
    bit, mask26, lemma_zero_bit, lemma_popcount_zero, disjoint, popcount, count_upto, lemma_or_bit, lemma_and_bit, lemma_single_bit,
    lemma_single_mask26, lemma_popcount_single, lemma_popcount_disjoint, lemma_or_mask26,
    lemma_count_upto_26, lemma_nonzero_has_bit, lemma_mask26_bit, lemma_common_bit_not_disjoint,
};

verus! {

/// The letter `c` sorts strictly before `d`: fewer occurrences, or equal
/// occurrences and the smaller letter.
pub open spec fn key_lt(f: Seq<u64>, c: int, d: int) -> bool {
    f[c] < f[d] || (f[c] == f[d] && c < d)
}

pub open spec fn rank_upto(f: Seq<u64>, c: int, n: int) -> nat
    decreases n,
{
    if n <= 0 {
        0
    } else {
        rank_upto(f, c, n - 1) + if key_lt(f, n - 1, c) {
            1nat
        } else {
            0nat
        }
    }
}

/// The rarity rank of letter `c`: how many letters sort strictly before it.
pub open spec fn rank_of(f: Seq<u64>, c: int) -> nat {
    rank_upto(f, c, 26)
}

/// A well-formed rank table: 26 in-range, pairwise distinct ranks.
pub open spec fn table_ok(t: Seq<usize>) -> bool {
    &&& t.len() == 26
    &&& forall|c: int| 0 <= c < 26 ==> (#[trigger] t[c]) < 26
    &&& forall|c: int, d: int| 0 <= c < d < 26 ==> t[c] != t[d]
}

/// The rank table derived from the occurrence counts `f`.
pub open spec fn spec_ranks(f: Seq<u64>) -> Seq<usize> {
    Seq::new(26, |c: int| rank_of(f, c) as usize)
}

proof fn lemma_rank_step_le(f: Seq<u64>, c: int, d: int, n: int)
    requires
        0 <= c < 26,
        0 <= d < 26,
        key_lt(f, c, d),
        0 <= n <= 26,
    ensures
        rank_upto(f, c, n) + (if c < n {
            1int
        } else {
            0int
        }) <= rank_upto(f, d, n),
    decreases n,
{
    if n > 0 {
        lemma_rank_step_le(f, c, d, n - 1);
    }
}

/// Strict order of sort keys gives strict order of ranks.
pub proof fn lemma_rank_strict(f: Seq<u64>, c: int, d: int)
    requires
        0 <= c < 26,
        0 <= d < 26,
        key_lt(f, c, d),
    ensures
        rank_of(f, c) < rank_of(f, d),
{
    lemma_rank_step_le(f, c, d, 26);
}

proof fn lemma_rank_upto_bound(f: Seq<u64>, c: int, n: int)
    requires
        0 <= n <= 26,
    ensures
        rank_upto(f, c, n) <= n,
        0 <= c < n ==> rank_upto(f, c, n) < n,
    decreases n,
{
    if n > 0 {
        lemma_rank_upto_bound(f, c, n - 1);
    }
}

/// Ranks are a bijection of the 26 letters: in range and pairwise distinct.
pub proof fn lemma_ranks_table_ok(f: Seq<u64>)
    ensures
        table_ok(spec_ranks(f)),
{
    assert forall|c: int| 0 <= c < 26 implies (#[trigger] spec_ranks(f)[c]) < 26 by {
        lemma_rank_upto_bound(f, c, 26);
    }
    assert forall|c: int, d: int| 0 <= c < d < 26 implies spec_ranks(f)[c] != spec_ranks(f)[d] by {
        lemma_rank_upto_bound(f, c, 26);
        lemma_rank_upto_bound(f, d, 26);
        if key_lt(f, c, d) {
            lemma_rank_strict(f, c, d);
        } else {
            assert(key_lt(f, d, c));
            lemma_rank_strict(f, d, c);
        }
    }
}

/// The rank table: `table[c]` counts the letters that sort strictly before
/// `c`, which is exactly `c`'s position in the sorted order.
pub fn compute_ranks(freq: &Vec<u64>) -> (table: Vec<usize>)
    requires
        freq@.len() == 26,
    ensures
        table@ == spec_ranks(freq@),
        table_ok(table@),
{
    let mut table: Vec<usize> = Vec::new();
    let mut c: usize = 0;
    while c < 26
        invariant
            freq@.len() == 26,
            c <= 26,
            table@.len() == c,
            forall|i: int| 0 <= i < c ==> table@[i] == rank_of(freq@, i),
        decreases 26 - c,
    {
        let mut cnt: usize = 0;
        let mut d: usize = 0;
        while d < 26
            invariant
                freq@.len() == 26,
                c < 26,
                d <= 26,
                cnt == rank_upto(freq@, c as int, d as int),
                cnt <= d,
            decreases 26 - d,
        {
            if freq[d] < freq[c] || (freq[d] == freq[c] && d < c) {
                cnt += 1;
            }
            d += 1;
        }
        table.push(cnt);
        c += 1;
    }
    proof {
        assert(table@ =~= spec_ranks(freq@));
        lemma_ranks_table_ok(freq@);
    }
    table
}

pub open spec fn rarity_mask_upto(m: u32, t: Seq<usize>, n: int) -> u32
    decreases n,
{
    if n <= 0 {
        0u32
    } else {
        let prev = rarity_mask_upto(m, t, n - 1);
        if bit(m, (n - 1) as u32) {
            prev | (1u32 << (t[n - 1] as u32))
        } else {
            prev
        }
    }
}

/// The letter mask `m` relocated into rank space by the table `t`.
pub open spec fn rarity_mask_of(m: u32, t: Seq<usize>) -> u32 {
    rarity_mask_upto(m, t, 26)
}

/// Bit `j` of the relocated mask stands for the letter whose rank is `j`.
pub proof fn lemma_rarity_mask_bit(m: u32, t: Seq<usize>, n: int, j: u32)
    requires
        table_ok(t),
        0 <= n <= 26,
    ensures
        bit(rarity_mask_upto(m, t, n), j) <==> exists|c: int|
            0 <= c < n && bit(m, c as u32) && (t[c] as u32) == j,
    decreases n,
{
    if n <= 0 {
        lemma_zero_bit(j);
    } else {
        lemma_rarity_mask_bit(m, t, n - 1, j);
        let prev = rarity_mask_upto(m, t, n - 1);
        let cur = rarity_mask_upto(m, t, n);
        if bit(m, (n - 1) as u32) {
            lemma_or_bit(prev, 1u32 << (t[n - 1] as u32), j);
            lemma_single_bit(t[n - 1] as u32, j);
            if bit(cur, j) {
                if bit(prev, j) {
                    let c = choose|c: int|
                        0 <= c < n - 1 && bit(m, c as u32) && (t[c] as u32) == j;
                    assert(0 <= c < n && bit(m, c as u32) && (t[c] as u32) == j);
                } else {
                    assert(0 <= n - 1 < n && bit(m, (n - 1) as u32) && (t[n - 1] as u32) == j);
                }
            }
            if exists|c: int| 0 <= c < n && bit(m, c as u32) && (t[c] as u32) == j {
                let c = choose|c: int| 0 <= c < n && bit(m, c as u32) && (t[c] as u32) == j;
                if c < n - 1 {
                    assert(bit(prev, j));
                }
                assert(bit(cur, j));
            }
        } else {
            if bit(cur, j) {
                let c = choose|c: int| 0 <= c < n - 1 && bit(m, c as u32) && (t[c] as u32) == j;
                assert(0 <= c < n && bit(m, c as u32) && (t[c] as u32) == j);
            }
            if exists|c: int| 0 <= c < n && bit(m, c as u32) && (t[c] as u32) == j {
                let c = choose|c: int| 0 <= c < n && bit(m, c as u32) && (t[c] as u32) == j;
                assert(c != n - 1);
                assert(0 <= c < n - 1 && bit(m, c as u32) && (t[c] as u32) == j);
                assert(bit(prev, j));
            }
        }
    }
}

/// Relocation keeps masks within the 26 rank bits.
pub proof fn lemma_rarity_mask_mask26(m: u32, t: Seq<usize>, n: int)
    requires
        table_ok(t),
        0 <= n <= 26,
    ensures
        mask26(rarity_mask_upto(m, t, n)),
    decreases n,
{
    if n > 0 {
        lemma_rarity_mask_mask26(m, t, n - 1);
        if bit(m, (n - 1) as u32) {
            lemma_single_mask26(t[n - 1] as u32);
            lemma_or_mask26(rarity_mask_upto(m, t, n - 1), 1u32 << (t[n - 1] as u32));
        }
    }
}

/// Relocation by a bijective table preserves the number of letters.
pub proof fn lemma_rarity_mask_popcount(m: u32, t: Seq<usize>, n: int)
    requires
        table_ok(t),
        0 <= n <= 26,
    ensures
        popcount(rarity_mask_upto(m, t, n)) == count_upto(m, n as u32),
    decreases n,
{
    if n <= 0 {
        lemma_popcount_zero();
    } else {
        lemma_rarity_mask_popcount(m, t, n - 1);
        let prev = rarity_mask_upto(m, t, n - 1);
        if bit(m, (n - 1) as u32) {
            let i = t[n - 1] as u32;
            lemma_rarity_mask_bit(m, t, n - 1, i);
            if bit(prev, i) {
                let c = choose|c: int| 0 <= c < n - 1 && bit(m, c as u32) && (t[c] as u32) == i;
                assert(t[c] != t[n - 1]);
                assert(false);
            }
            assert(!bit(prev, i));
            assert(disjoint(prev, 1u32 << i));
            lemma_popcount_disjoint(prev, 1u32 << i);
            lemma_popcount_single(i);
        }
    }
}

/// Popcount is preserved outright for a 26-bit letter mask.
pub proof fn lemma_rarity_mask_popcount_full(m: u32, t: Seq<usize>)
    requires
        table_ok(t),
        mask26(m),
    ensures
        popcount(rarity_mask_of(m, t)) == popcount(m),
{
    lemma_rarity_mask_popcount(m, t, 26);
    lemma_count_upto_26(m);
}

/// Words whose rarity masks share no rank share no letter.
pub proof fn lemma_rarity_disjoint_to_letters(m1: u32, m2: u32, t: Seq<usize>)
    requires
        table_ok(t),
        mask26(m1),
        mask26(m2),
        disjoint(rarity_mask_of(m1, t), rarity_mask_of(m2, t)),
    ensures
        disjoint(m1, m2),
{
    if m1 & m2 != 0 {
        lemma_nonzero_has_bit(m1 & m2);
        let j = choose|j: u32| j < 32 && bit(m1 & m2, j);
        lemma_and_bit(m1, m2, j);
        lemma_mask26_bit(m1, j);
        assert(j < 26);
        let r = t[j as int] as u32;
        lemma_rarity_mask_bit(m1, t, 26, r);
        lemma_rarity_mask_bit(m2, t, 26, r);
        assert(bit(rarity_mask_of(m1, t), r));
        assert(bit(rarity_mask_of(m2, t), r));
        lemma_common_bit_not_disjoint(rarity_mask_of(m1, t), rarity_mask_of(m2, t), r);
    }
}

/// Relocate a letter mask into rarity-rank space.
pub fn bitmask_to_raritymask(bitmask: &u32, char_index_rarity: &Vec<usize>) -> (r: u32)
    requires
        char_index_rarity@.len() == 26,
        forall|c: int| 0 <= c < 26 ==> (#[trigger] char_index_rarity@[c]) < 26,
    ensures
        r == rarity_mask_of(*bitmask, char_index_rarity@),
{
    let mut raritymask: u32 = 0;
    let mut c: usize = 0;
    while c < 26
        invariant
            char_index_rarity@.len() == 26,
            forall|i: int| 0 <= i < 26 ==> (#[trigger] char_index_rarity@[i]) < 26,
            c <= 26,
            raritymask == rarity_mask_upto(*bitmask, char_index_rarity@, c as int),
        decreases 26 - c,
    {
        if *bitmask & (1u32 << (c as u32)) != 0 {
            raritymask = raritymask | (1u32 << (char_index_rarity[c] as u32));
        }
        c += 1;
    }
    raritymask
}

} // verus!
