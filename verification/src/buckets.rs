//! The rarity-mask bucketer: every unique letter mask is relocated into
//! rank space and filed into the bucket of its rarest rank, with a parallel
//! reverse table recording which letter mask produced each entry.

use vstd::prelude::*;
use crate::bits::first_set;
use crate::rarity::{rarity_mask_of, table_ok, bitmask_to_raritymask};
use crate::search::buckets_view;

verus! {

pub open spec fn empty_buckets() -> Seq<Seq<u32>> {
    Seq::new(26, |b: int| Seq::<u32>::empty())
}

/// Buckets after filing the first `n` masks: each relocated mask joins the
/// bucket of its rarest rank. A mask with no rank bit (an empty word) has no
/// rarest rank and is not filed.
pub open spec fn spec_buckets(masks: Seq<u32>, t: Seq<usize>, n: int) -> Seq<Seq<u32>>
    decreases n,
{
    if n <= 0 {
        empty_buckets()
    } else {
        let prev = spec_buckets(masks, t, n - 1);
        let rm = rarity_mask_of(masks[n - 1], t);
        let b = first_set(rm, 0) as int;
        if b < 26 {
            prev.update(b, prev[b].push(rm))
        } else {
            prev
        }
    }
}

/// The reverse lookup: the letter mask that produced each bucketed rarity
/// mask, bucket by bucket in the same order.
pub open spec fn spec_origins(masks: Seq<u32>, t: Seq<usize>, n: int) -> Seq<Seq<u32>>
    decreases n,
{
    if n <= 0 {
        empty_buckets()
    } else {
        let prev = spec_origins(masks, t, n - 1);
        let rm = rarity_mask_of(masks[n - 1], t);
        let b = first_set(rm, 0) as int;
        if b < 26 {
            prev.update(b, prev[b].push(masks[n - 1]))
        } else {
            prev
        }
    }
}

/// The rarest rank present in `rm`, or 26 when `rm` has no rank bit.
fn first_rank(rm: u32) -> (b: usize)
    ensures
        b == if first_set(rm, 0) < 26 {
            first_set(rm, 0) as int
        } else {
            26int
        },
{
    let mut i: u32 = 0;
    while i < 26
        invariant
            i <= 26,
            first_set(rm, 0) == first_set(rm, i),
        decreases 26 - i,
    {
        if rm & (1u32 << i) != 0 {
            return i as usize;
        }
        i += 1;
    }
    proof {
        crate::bits::lemma_first_set_ge(rm, 26);
    }
    26
}

/// File every mask into the bucket of its rarest rank, keeping the reverse
/// lookup in step.
pub fn build_buckets(masks: &Vec<u32>, table: &Vec<usize>) -> (r: (Vec<Vec<u32>>, Vec<Vec<u32>>))
    requires
        table_ok(table@),
    ensures
        r.0@.len() == 26,
        r.1@.len() == 26,
        buckets_view(r.0@) == spec_buckets(masks@, table@, masks@.len() as int),
        buckets_view(r.1@) == spec_origins(masks@, table@, masks@.len() as int),
{
    let mut buckets: Vec<Vec<u32>> = Vec::new();
    let mut origins: Vec<Vec<u32>> = Vec::new();
    let mut b: usize = 0;
    while b < 26
        invariant
            b <= 26,
            buckets@.len() == b,
            origins@.len() == b,
            forall|i: int| 0 <= i < b ==> (#[trigger] buckets@[i])@.len() == 0,
            forall|i: int| 0 <= i < b ==> (#[trigger] origins@[i])@.len() == 0,
        decreases 26 - b,
    {
        buckets.push(Vec::new());
        origins.push(Vec::new());
        b += 1;
    }
    proof {
        assert(buckets_view(buckets@) =~~= empty_buckets());
        assert(buckets_view(origins@) =~~= empty_buckets());
    }
    let mut i: usize = 0;
    while i < masks.len()
        invariant
            table_ok(table@),
            i <= masks@.len(),
            buckets@.len() == 26,
            origins@.len() == 26,
            buckets_view(buckets@) == spec_buckets(masks@, table@, i as int),
            buckets_view(origins@) == spec_origins(masks@, table@, i as int),
        decreases masks@.len() - i,
    {
        let rm = bitmask_to_raritymask(&masks[i], table);
        let b = first_rank(rm);
        if b < 26 {
            buckets[b].push(rm);
            origins[b].push(masks[i]);
            proof {
                assert(buckets_view(buckets@) =~= spec_buckets(masks@, table@, i + 1));
                assert(buckets_view(origins@) =~= spec_origins(masks@, table@, i + 1));
            }
        }
        i += 1;
    }
    (buckets, origins)
}

} // verus!
