//! A partial combination under construction: the rarity masks combined so
//! far, their cumulative mask, the rank from which the next extension
//! resumes, and the number of ranks skipped.

use vstd::prelude::*;
use crate::bits::{bit, next_free, or_fold, pairwise_disjoint, disjoint, popcount, mask26};

verus! {

pub struct Entry {
    /// The rarity masks combined so far, in the order they were consumed.
    pub rarity_mask_list: Vec<u32>,
    /// Bitwise OR of `rarity_mask_list`.
    pub rarity_mask: u32,
    /// The rank from which the next extension attempt resumes.
    pub next_unset: usize,
    /// Ranks bypassed so far without consuming a word.
    pub skipped: usize,
}

/// The mathematical value of an `Entry`.
pub ghost struct EntryModel {
    pub masks: Seq<u32>,
    pub mask: u32,
    pub next_unset: int,
    pub skipped: int,
}

impl View for Entry {
    type V = EntryModel;

    open spec fn view(&self) -> EntryModel {
        EntryModel {
            masks: self.rarity_mask_list@,
            mask: self.rarity_mask,
            next_unset: self.next_unset as int,
            skipped: self.skipped as int,
        }
    }
}

/// The model of a fresh entry seeded from `m` at rank `r`.
pub open spec fn em_new(m: u32, r: int) -> EntryModel {
    EntryModel {
        masks: seq![m],
        mask: m,
        next_unset: next_free(m, (r + 1) as u32) as int,
        skipped: r,
    }
}

/// The model of `e` extended with the compatible mask `c` consumed at rank
/// `e.next_unset`.
pub open spec fn em_extend(e: EntryModel, c: u32) -> EntryModel {
    EntryModel {
        masks: e.masks.push(c),
        mask: e.mask | c,
        next_unset: next_free(e.mask | c, (e.next_unset + 1) as u32) as int,
        skipped: e.skipped,
    }
}

/// The model of `e` after bypassing rank `e.next_unset`.
pub open spec fn em_skip(e: EntryModel) -> EntryModel {
    EntryModel {
        masks: e.masks,
        mask: e.mask,
        next_unset: next_free(e.mask, (e.next_unset + 1) as u32) as int,
        skipped: e.skipped + 1,
    }
}

fn clone_masks(v: &Vec<u32>) -> (r: Vec<u32>)
    ensures
        r@ == v@,
{
    let mut r: Vec<u32> = Vec::new();
    let mut i: usize = 0;
    while i < v.len()
        invariant
            i <= v@.len(),
            r@ == v@.take(i as int),
        decreases v@.len() - i,
    {
        r.push(v[i]);
        proof {
            assert(r@ =~= v@.take(i + 1));
        }
        i += 1;
    }
    proof {
        assert(r@ =~= v@);
    }
    r
}

impl Entry {
    /// Seed a one-word combination from a rarity mask whose rarest rank is
    /// `rarity`: the ranks below `rarity` count as already skipped.
    pub fn new(bitmask: u32, rarity: usize) -> (e: Entry)
        requires
            rarity < 26,
        ensures
            e@ == em_new(bitmask, rarity as int),
    {
        let mut entry = Entry {
            rarity_mask_list: vec![bitmask],
            rarity_mask: bitmask,
            next_unset: rarity,
            skipped: rarity,
        };
        entry.update_unset();
        proof {
            assert(entry@.masks =~= seq![bitmask]);
        }
        entry
    }

    /// Advance the resume rank to the smallest rank above the current one
    /// whose bit is unset in the cumulative mask.
    pub fn update_unset(&mut self)
        requires
            old(self).next_unset < 26,
        ensures
            final(self).next_unset == next_free(
                old(self).rarity_mask,
                (old(self).next_unset + 1) as u32,
            ),
            final(self).rarity_mask == old(self).rarity_mask,
            final(self).rarity_mask_list == old(self).rarity_mask_list,
            final(self).skipped == old(self).skipped,
    {
        let m: u32 = self.rarity_mask;
        let start: usize = self.next_unset + 1;
        let mut i: usize = start;
        while i < 26 && (m & (1u32 << (i as u32))) != 0
            invariant
                start <= i <= 26,
            next_free(m, start as u32) == next_free(m, i as u32),
            decreases 26 - i,
        {
            i += 1;
        }
        self.next_unset = i;
    }

    /// An exact copy: the extension walk advances a copy of the drained
    /// entry while the parent's bucket slot is never revisited.
    pub fn duplicate(&self) -> (r: Entry)
        ensures
            r@ == self@,
    {
        Entry {
            rarity_mask_list: clone_masks(&self.rarity_mask_list),
            rarity_mask: self.rarity_mask,
            next_unset: self.next_unset,
            skipped: self.skipped,
        }
    }

    /// Extend with a mask already known to be compatible: the caller has
    /// checked that `rarity_mask` is disjoint from the cumulative mask and
    /// supplies their union as `new_rarity_mask`.
    pub fn extend_unchecked(&self, rarity_mask: u32, new_rarity_mask: u32) -> (e: Entry)
        requires
            self.next_unset < 26,
            new_rarity_mask == self.rarity_mask | rarity_mask,
        ensures
            e@ == em_extend(self@, rarity_mask),
    {
        let mut new_entry = Entry {
            rarity_mask_list: clone_masks(&self.rarity_mask_list),
            rarity_mask: new_rarity_mask,
            next_unset: self.next_unset,
            skipped: self.skipped,
        };
        new_entry.rarity_mask_list.push(rarity_mask);
        new_entry.update_unset();
        new_entry
    }
}

} // verus!
