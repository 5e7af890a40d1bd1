use wordset::bits::popcount_exec;
use wordset::entry::Entry;
use wordset::rarity::{compute_ranks, bitmask_to_raritymask};

#[test]
fn popcount_counts_letters() {
    assert_eq!(popcount_exec(0b11111), 5);
    assert_eq!(popcount_exec(0), 0);
    assert_eq!(popcount_exec(1 << 25), 1);
}

#[test]
fn entry_seed_and_extend() {
    let e = Entry::new(0b11111, 0);
    assert_eq!(e.rarity_mask, 0b11111);
    assert_eq!(e.skipped, 0);
    assert_eq!(e.next_unset, 5);
    let c = e.extend_unchecked(0b11111 << 5, (0b11111 << 5) | 0b11111);
    assert_eq!(c.next_unset, 10);
    assert_eq!(c.rarity_mask_list.len(), 2);
}

#[test]
fn ranks_are_a_bijection_sorted_by_count() {
    let mut freq: Vec<u64> = vec![0; 26];
    freq[0] = 7; // 'a' commonest
    let table = compute_ranks(&freq);
    assert_eq!(table.len(), 26);
    assert_eq!(table[0], 25); // 'a' gets the highest rank
    assert_eq!(table[1], 0); // 'b' is rarest by tie-break
    let m = bitmask_to_raritymask(&0b1u32, &table);
    assert_eq!(m, 1 << 25);
}
