//! The result assembler: each terminal entry's rarity masks are resolved
//! back to canonical-word indices through the relocation table, and the
//! anagram substitutions it stands for are counted.

use vstd::prelude::*;
use crate::entry::{Entry, EntryModel};
use crate::corpus::sat_inc_u64;
use crate::search::{entries_view, state_view};

verus! {

/// One reported solution: the canonical-word indices, the cumulative rarity
/// mask, the ranks skipped, and how many further solutions anagram
/// substitution yields.
pub struct Combination {
    pub word_indices: Vec<usize>,
    pub rarity_mask: u32,
    pub skipped: usize,
    pub extras: u64,
}

/// The canonical-word index of each rarity mask, resolved through the
/// relocation table; a mask the table does not hold resolves to nothing.
pub open spec fn resolve(table: Seq<u32>, ms: Seq<u32>) -> Seq<usize>
    decreases ms.len(),
{
    if ms.len() == 0 {
        Seq::empty()
    } else {
        let pre = resolve(table, ms.drop_last());
        match table.index_of_first(ms.last()) {
            Some(i) => pre.push(i as usize),
            None => pre,
        }
    }
}

/// A product capped at the counter's width.
pub open spec fn sat_mul64(a: u64, b: u64) -> u64 {
    if a * b > u64::MAX {
        u64::MAX
    } else {
        (a * b) as u64
    }
}

/// The number of word choices over the resolved slots: the product of
/// (1 + group size); an index out of range contributes nothing.
pub open spec fn combo_product(sizes: Seq<usize>, idxs: Seq<usize>) -> u64
    decreases idxs.len(),
{
    if idxs.len() == 0 {
        1u64
    } else {
        let f = if (idxs.last() as int) < sizes.len() {
            sat_inc_u64(sizes[idxs.last() as int] as u64)
        } else {
            1u64
        };
        sat_mul64(combo_product(sizes, idxs.drop_last()), f)
    }
}

proof fn lemma_combo_product_pos(sizes: Seq<usize>, idxs: Seq<usize>)
    ensures
        combo_product(sizes, idxs) >= 1,
    decreases idxs.len(),
{
    if idxs.len() > 0 {
        lemma_combo_product_pos(sizes, idxs.drop_last());
        let a = combo_product(sizes, idxs.drop_last());
        let f = if (idxs.last() as int) < sizes.len() {
            sat_inc_u64(sizes[idxs.last() as int] as u64)
        } else {
            1u64
        };
        assert(a >= 1 && f >= 1);
        assert(a * f >= 1) by (nonlinear_arith)
            requires
                a >= 1 && f >= 1,
        ;
    }
}

/// The anagram extras of one entry: the product over its resolved words of
/// (1 + group size), minus the all-canonical solution itself.
pub open spec fn extras_of(sizes: Seq<usize>, table: Seq<u32>, e: EntryModel) -> u64 {
    (combo_product(sizes, resolve(table, e.masks)) - 1) as u64
}

/// `cs` reports exactly the entries `es`, in order.
pub open spec fn combos_match(
    cs: Seq<Combination>,
    es: Seq<EntryModel>,
    table: Seq<u32>,
    sizes: Seq<usize>,
) -> bool {
    &&& cs.len() == es.len()
    &&& forall|j: int|
        0 <= j < es.len() ==> {
            &&& (#[trigger] cs[j]).word_indices@ == resolve(table, es[j].masks)
            &&& cs[j].rarity_mask == es[j].mask
            &&& cs[j].skipped == es[j].skipped
            &&& cs[j].extras == extras_of(sizes, table, es[j])
        }
}

/// The terminal entries of the state, bucket after bucket.
pub open spec fn flat_entries(st: Seq<Seq<EntryModel>>) -> Seq<EntryModel>
    decreases st.len(),
{
    if st.len() == 0 {
        Seq::empty()
    } else {
        flat_entries(st.drop_last()) + st.last()
    }
}

fn find_mask(table: &Vec<u32>, m: u32) -> (r: Option<usize>)
    ensures
        match r {
            Some(i) => table@.index_of_first(m) == Some(i as int),
            None => table@.index_of_first(m) is None,
        },
{
    let mut i: usize = 0;
    while i < table.len()
        invariant
            i <= table@.len(),
            forall|j: int| 0 <= j < i ==> table@[j] != m,
        decreases table@.len() - i,
    {
        if table[i] == m {
            proof {
                table@.index_of_first_ensures(m);
                assert(table@.contains(m));
            }
            return Some(i);
        }
        i += 1;
    }
    proof {
        if table@.contains(m) {
            let j = choose|j: int| 0 <= j < table@.len() && table@[j] == m;
            assert(table@[j] != m);
        }
        table@.index_of_first_ensures(m);
        if table@.index_of_first(m) is Some {
            assert(table@.contains(m));
        }
    }
    None
}

/// Assemble one terminal entry into a reported combination.
fn assemble_one(e: &Entry, table: &Vec<u32>, sizes: &Vec<usize>) -> (c: Combination)
    ensures
        c.word_indices@ == resolve(table@, e@.masks),
        c.rarity_mask == e@.mask,
        c.skipped == e@.skipped,
        c.extras == extras_of(sizes@, table@, e@),
{
    let mut idxs: Vec<usize> = Vec::new();
    let mut k: usize = 0;
    let n = e.rarity_mask_list.len();
    while k < n
        invariant
            n == e.rarity_mask_list@.len(),
            k <= n,
            idxs@ == resolve(table@, e@.masks.take(k as int)),
        decreases n - k,
    {
        proof {
            assert(e@.masks.take(k + 1).drop_last() =~= e@.masks.take(k as int));
            assert(e@.masks.take(k + 1).last() == e@.masks[k as int]);
        }
        match find_mask(table, e.rarity_mask_list[k]) {
            Some(i) => {
                idxs.push(i);
            },
            None => {},
        }
        k += 1;
    }
    proof {
        assert(e@.masks.take(e@.masks.len() as int) =~= e@.masks);
    }
    let mut prod: u64 = 1;
    let mut j: usize = 0;
    proof {
        assert(resolve(table@, e@.masks).take(0) =~= Seq::<usize>::empty());
    }
    while j < idxs.len()
        invariant
            idxs@ == resolve(table@, e@.masks),
            j <= idxs@.len(),
            prod == combo_product(sizes@, idxs@.take(j as int)),
            prod >= 1,
        decreases idxs@.len() - j,
    {
        proof {
            assert(idxs@.take(j + 1).drop_last() =~= idxs@.take(j as int));
            assert(idxs@.take(j + 1).last() == idxs@[j as int]);
        }
        let idx = idxs[j];
        let f: u64 = if idx < sizes.len() {
            let g = sizes[idx];
            if g as u64 == u64::MAX {
                u64::MAX
            } else {
                g as u64 + 1
            }
        } else {
            1
        };
        proof {
            assert((prod as int) * (f as int) <= (u64::MAX as int) * (u64::MAX as int))
                by (nonlinear_arith)
                requires
                    0 <= prod <= u64::MAX,
                    0 <= f <= u64::MAX,
            ;
            assert((prod as int) * (f as int) >= 1) by (nonlinear_arith)
                requires
                    prod >= 1,
                    f >= 1,
            ;
        }
        let wide: u128 = (prod as u128) * (f as u128);
        prod = if wide > u64::MAX as u128 {
            u64::MAX
        } else {
            wide as u64
        };
        j += 1;
    }
    proof {
        assert(idxs@.take(idxs@.len() as int) =~= idxs@);
    }
    Combination {
        word_indices: idxs,
        rarity_mask: e.rarity_mask,
        skipped: e.skipped,
        extras: prod - 1,
    }
}

/// Assemble every terminal entry, bucket after bucket in state order.
pub fn assemble(st: &Vec<Vec<Entry>>, table: &Vec<u32>, sizes: &Vec<usize>) -> (out: Vec<
    Combination,
>)
    ensures
        combos_match(out@, flat_entries(state_view(st@)), table@, sizes@),
{
    let ghost stv = state_view(st@);
    let mut out: Vec<Combination> = Vec::new();
    let mut b: usize = 0;
    proof {
        assert(flat_entries(stv.take(0)) =~= Seq::<EntryModel>::empty());
    }
    while b < st.len()
        invariant
            stv == state_view(st@),
            b <= st@.len(),
            combos_match(out@, flat_entries(stv.take(b as int)), table@, sizes@),
        decreases st@.len() - b,
    {
        let ghost before = flat_entries(stv.take(b as int));
        let mut k: usize = 0;
        while k < st[b].len()
            invariant
                stv == state_view(st@),
                b < st@.len(),
                k <= st@[b as int]@.len(),
                stv[b as int].len() == st@[b as int]@.len(),
                before == flat_entries(stv.take(b as int)),
                combos_match(out@, before + stv[b as int].take(k as int), table@, sizes@),
            decreases st@[b as int]@.len() - k,
        {
            proof {
                assert(stv[b as int][k as int] == st@[b as int]@[k as int]@);
            }
            let c = assemble_one(&st[b][k], table, sizes);
            out.push(c);
            proof {
                assert(before + stv[b as int].take(k + 1) =~= (before + stv[b as int].take(
                    k as int,
                )).push(stv[b as int][k as int]));
            }
            k += 1;
        }
        proof {
            assert(stv.take(b + 1).drop_last() =~= stv.take(b as int));
            assert(stv.take(b + 1).last() == stv[b as int]);
            assert(stv[b as int].take(stv[b as int].len() as int) =~= stv[b as int]);
            assert(flat_entries(stv.take(b + 1)) =~= before + stv[b as int]);
        }
        b += 1;
    }
    proof {
        assert(stv.take(stv.len() as int) =~= stv);
    }
    out
}

/// The saturating sum of the extras over all reported combinations.
pub open spec fn extras_total(cs: Seq<Combination>) -> u64
    decreases cs.len(),
{
    if cs.len() == 0 {
        0u64
    } else {
        let prev = extras_total(cs.drop_last());
        if prev + cs.last().extras > u64::MAX {
            u64::MAX
        } else {
            (prev + cs.last().extras) as u64
        }
    }
}

/// Sum the extras of the reported combinations, capped at the counter.
pub fn sum_extras(cs: &Vec<Combination>) -> (t: u64)
    ensures
        t == extras_total(cs@),
{
    let mut t: u64 = 0;
    let mut j: usize = 0;
    while j < cs.len()
        invariant
            j <= cs@.len(),
            t == extras_total(cs@.take(j as int)),
        decreases cs@.len() - j,
    {
        proof {
            assert(cs@.take(j + 1).drop_last() =~= cs@.take(j as int));
            assert(cs@.take(j + 1).last() == cs@[j as int]);
        }
        let e = cs[j].extras;
        t = if t > u64::MAX - e {
            u64::MAX
        } else {
            t + e
        };
        j += 1;
    }
    proof {
        assert(cs@.take(cs@.len() as int) =~= cs@);
    }
    t
}

} // verus!
