//! The word loader and deduplicator: split the raw byte stream into
//! records, keep those of the configured length whose letters are all
//! distinct lowercase letters, group exact anagrams under the first-seen
//! canonical word, and accumulate per-letter occurrence counts over the
//! canonical words only.

use vstd::prelude::*;
use crate::bits::{bit, popcount};

verus! {

pub open spec fn is_break(b: u8) -> bool {
    b == 10 || b == 13
}

pub open spec fn is_lower(b: u8) -> bool {
    97 <= b && b <= 122
}

pub open spec fn letter_bit(b: u8) -> u32 {
    if is_lower(b) {
        1u32 << ((b - 97) as u32)
    } else {
        0u32
    }
}

/// The letter mask of a record: bit `c` set iff letter `c` occurs.
pub open spec fn word_mask(w: Seq<u8>) -> u32
    decreases w.len(),
{
    if w.len() == 0 {
        0u32
    } else {
        word_mask(w.drop_last()) | letter_bit(w.last())
    }
}

pub open spec fn all_lower(w: Seq<u8>) -> bool {
    forall|i: int| 0 <= i < w.len() ==> is_lower(#[trigger] w[i])
}

/// A record survives the filter: right length, lowercase letters only, and
/// no repeated letter (as many distinct letters as bytes).
pub open spec fn valid_record(w: Seq<u8>, l: nat) -> bool {
    &&& w.len() == l
    &&& all_lower(w)
    &&& popcount(word_mask(w)) == l
}

/// The terminated records of the byte stream, scanning from `i` with the
/// current record starting at `start`. A trailing fragment without a line
/// break is not a record.
pub open spec fn records_from(s: Seq<u8>, i: int, start: int) -> Seq<Seq<u8>>
    decreases s.len() - i,
{
    if i < 0 || i >= s.len() {
        Seq::empty()
    } else if is_break(s[i]) {
        seq![s.subrange(start, i)] + records_from(s, i + 1, i + 1)
    } else {
        records_from(s, i + 1, start)
    }
}

pub open spec fn records(s: Seq<u8>) -> Seq<Seq<u8>> {
    records_from(s, 0, 0)
}

pub open spec fn recs_view(s: Seq<Vec<u8>>) -> Seq<Seq<u8>> {
    s.map_values(|v: Vec<u8>| v@)
}

/// A counter bumped by one, capped at its width (unreachable on real input).
pub open spec fn sat_inc_usize(x: usize) -> usize {
    if x == usize::MAX {
        x
    } else {
        (x + 1) as usize
    }
}

pub open spec fn sat_inc_u64(x: u64) -> u64 {
    if x == u64::MAX {
        x
    } else {
        (x + 1) as u64
    }
}

/// The unique letter masks after the first `n` records, first-seen order.
pub open spec fn masks_pre(rs: Seq<Seq<u8>>, l: nat, n: int) -> Seq<u32>
    decreases n,
{
    if n <= 0 {
        Seq::empty()
    } else {
        let prev = masks_pre(rs, l, n - 1);
        let w = rs[n - 1];
        if valid_record(w, l) && !prev.contains(word_mask(w)) {
            prev.push(word_mask(w))
        } else {
            prev
        }
    }
}

/// The canonical words after the first `n` records, parallel to the masks.
pub open spec fn words_pre(rs: Seq<Seq<u8>>, l: nat, n: int) -> Seq<Seq<u8>>
    decreases n,
{
    if n <= 0 {
        Seq::empty()
    } else {
        let prev = words_pre(rs, l, n - 1);
        let w = rs[n - 1];
        if valid_record(w, l) && !masks_pre(rs, l, n - 1).contains(word_mask(w)) {
            prev.push(w)
        } else {
            prev
        }
    }
}

/// Per-canonical-word anagram-group sizes (the group excludes the canonical
/// word itself) after the first `n` records.
pub open spec fn groups_pre(rs: Seq<Seq<u8>>, l: nat, n: int) -> Seq<usize>
    decreases n,
{
    if n <= 0 {
        Seq::empty()
    } else {
        let prev = groups_pre(rs, l, n - 1);
        let w = rs[n - 1];
        if valid_record(w, l) {
            match masks_pre(rs, l, n - 1).index_of_first(word_mask(w)) {
                Some(i) => prev.update(i, sat_inc_usize(prev[i])),
                None => prev.push(0),
            }
        } else {
            prev
        }
    }
}

/// One canonical word's letters added to the occurrence counts: one count
/// per set bit of its mask.
pub open spec fn freq_bump(f: Seq<u64>, m: u32) -> Seq<u64> {
    Seq::new(f.len(), |c: int| if bit(m, c as u32) { sat_inc_u64(f[c]) } else { f[c] })
}

/// Per-letter occurrence counts over canonical words after `n` records.
pub open spec fn freqs_pre(rs: Seq<Seq<u8>>, l: nat, n: int) -> Seq<u64>
    decreases n,
{
    if n <= 0 {
        Seq::new(26, |c: int| 0u64)
    } else {
        let prev = freqs_pre(rs, l, n - 1);
        let w = rs[n - 1];
        if valid_record(w, l) && !masks_pre(rs, l, n - 1).contains(word_mask(w)) {
            freq_bump(prev, word_mask(w))
        } else {
            prev
        }
    }
}

pub struct Corpus {
    /// Unique letter masks, in first-seen order.
    pub masks: Vec<u32>,
    /// The canonical word of each mask.
    pub words: Vec<Vec<u8>>,
    /// The anagram-group size of each mask, excluding the canonical word.
    pub group_sizes: Vec<usize>,
    /// Per-letter occurrence counts over canonical words.
    pub freq: Vec<u64>,
}

/// The corpus is exactly the deduplication of the given records.
pub open spec fn corpus_matches(c: Corpus, rs: Seq<Seq<u8>>, l: nat) -> bool {
    let n = rs.len() as int;
    &&& c.masks@ == masks_pre(rs, l, n)
    &&& recs_view(c.words@) == words_pre(rs, l, n)
    &&& c.group_sizes@ == groups_pre(rs, l, n)
    &&& c.freq@ == freqs_pre(rs, l, n)
}

fn copy_range(data: &[u8], a: usize, b: usize) -> (r: Vec<u8>)
    requires
        a <= b <= data@.len(),
    ensures
        r@ == data@.subrange(a as int, b as int),
{
    let mut r: Vec<u8> = Vec::new();
    let mut j: usize = a;
    while j < b
        invariant
            a <= j <= b <= data@.len(),
            r@ == data@.subrange(a as int, j as int),
        decreases b - j,
    {
        r.push(data[j]);
        proof {
            assert(r@ =~= data@.subrange(a as int, j + 1));
        }
        j += 1;
    }
    r
}

/// Split the byte stream into its terminated records.
pub fn split_records(data: &[u8]) -> (out: Vec<Vec<u8>>)
    ensures
        recs_view(out@) == records(data@),
{
    let mut out: Vec<Vec<u8>> = Vec::new();
    let mut start: usize = 0;
    let mut i: usize = 0;
    proof {
        assert(recs_view(out@) + records_from(data@, 0, 0) =~= records(data@));
    }
    while i < data.len()
        invariant
            start <= i <= data@.len(),
            records(data@) == recs_view(out@) + records_from(data@, i as int, start as int),
        decreases data@.len() - i,
    {
        let b = data[i];
        if b == 10 || b == 13 {
            let w = copy_range(data, start, i);
            proof {
                assert(recs_view(out@.push(w)) =~= recs_view(out@).push(w@));
                assert(recs_view(out@).push(w@) + records_from(data@, i + 1, i + 1) =~= recs_view(
                    out@,
                ) + (seq![data@.subrange(start as int, i as int)] + records_from(
                    data@,
                    i + 1,
                    i + 1,
                )));
            }
            out.push(w);
            start = i + 1;
        }
        i += 1;
    }
    proof {
        assert(records_from(data@, data@.len() as int, start as int) =~= Seq::<Seq<u8>>::empty());
        assert(recs_view(out@) + Seq::<Seq<u8>>::empty() =~= recs_view(out@));
    }
    out
}

/// The letter mask of one record, and whether every byte is a lowercase
/// letter.
fn record_mask(w: &Vec<u8>) -> (r: (bool, u32))
    ensures
        r.0 == all_lower(w@),
        r.0 ==> r.1 == word_mask(w@),
{
    let mut mask: u32 = 0;
    let mut j: usize = 0;
    while j < w.len()
        invariant
            j <= w@.len(),
            forall|i: int| 0 <= i < j ==> is_lower(#[trigger] w@[i]),
            mask == word_mask(w@.take(j as int)),
        decreases w@.len() - j,
    {
        let b = w[j];
        if b < 97 || b > 122 {
            return (false, 0);
        }
        proof {
            assert(w@.take(j + 1).drop_last() =~= w@.take(j as int));
            assert(w@.take(j + 1).last() == b);
        }
        mask = mask | (1u32 << ((b - 97) as u32));
        j += 1;
    }
    proof {
        assert(w@.take(w@.len() as int) =~= w@);
    }
    (true, mask)
}

/// The first index holding `m`, scanning left to right.
fn find_mask(masks: &Vec<u32>, m: u32) -> (r: Option<usize>)
    ensures
        match r {
            Some(i) => masks@.index_of_first(m) == Some(i as int),
            None => masks@.index_of_first(m) is None && !masks@.contains(m),
        },
{
    let mut i: usize = 0;
    while i < masks.len()
        invariant
            i <= masks@.len(),
            forall|j: int| 0 <= j < i ==> masks@[j] != m,
        decreases masks@.len() - i,
    {
        if masks[i] == m {
            proof {
                masks@.index_of_first_ensures(m);
                assert(masks@.contains(m));
                if masks@.index_of_first(m) is Some {
                    let io = masks@.index_of_first(m).unwrap();
                    assert(io <= i as int && i as int <= io);
                }
            }
            return Some(i);
        }
        i += 1;
    }
    proof {
        if masks@.contains(m) {
            let j = choose|j: int| 0 <= j < masks@.len() && masks@[j] == m;
            assert(masks@[j] != m);
        }
        masks@.index_of_first_ensures(m);
        if masks@.index_of_first(m) is Some {
            assert(masks@.contains(m));
        }
    }
    None
}

fn bump_freq(freq: &mut Vec<u64>, mask: u32)
    requires
        old(freq)@.len() == 26,
    ensures
        final(freq)@ == freq_bump(old(freq)@, mask),
{
    let ghost f0 = freq@;
    let mut out: Vec<u64> = Vec::new();
    let mut c: usize = 0;
    while c < 26
        invariant
            f0.len() == 26,
            f0 == freq@,
            c <= 26,
            out@ == freq_bump(f0, mask).take(c as int),
        decreases 26 - c,
    {
        let cur = freq[c];
        let next: u64 = if mask & (1u32 << (c as u32)) != 0 {
            if cur == u64::MAX {
                cur
            } else {
                cur + 1
            }
        } else {
            cur
        };
        out.push(next);
        proof {
            assert(out@ =~= freq_bump(f0, mask).take(c + 1));
        }
        c += 1;
    }
    proof {
        assert(freq_bump(f0, mask).take(26) =~= freq_bump(f0, mask));
    }
    *freq = out;
}

/// Deduplicate the records: the first occurrence of a mask becomes its
/// canonical word; every later occurrence enlarges that mask's anagram
/// group; letter counts accumulate over canonical words only.
pub fn build_corpus(rs: &Vec<Vec<u8>>, l: usize) -> (c: Corpus)
    ensures
        corpus_matches(c, recs_view(rs@), l as nat),
{
    let ghost rv = recs_view(rs@);
    let mut masks: Vec<u32> = Vec::new();
    let mut words: Vec<Vec<u8>> = Vec::new();
    let mut group_sizes: Vec<usize> = Vec::new();
    let mut freq: Vec<u64> = Vec::new();
    let mut c: usize = 0;
    while c < 26
        invariant
            c <= 26,
            freq@.len() == c,
            forall|i: int| 0 <= i < c ==> #[trigger] freq@[i] == 0u64,
        decreases 26 - c,
    {
        freq.push(0);
        c += 1;
    }
    proof {
        assert(freq@ =~= freqs_pre(rv, l as nat, 0));
        assert(masks@ =~= masks_pre(rv, l as nat, 0));
        assert(recs_view(words@) =~= words_pre(rv, l as nat, 0));
        assert(group_sizes@ =~= groups_pre(rv, l as nat, 0));
    }
    let mut k: usize = 0;
    while k < rs.len()
        invariant
            k <= rs@.len(),
            rv == recs_view(rs@),
            rv.len() == rs@.len(),
            masks@ == masks_pre(rv, l as nat, k as int),
            recs_view(words@) == words_pre(rv, l as nat, k as int),
            group_sizes@ == groups_pre(rv, l as nat, k as int),
            freq@.len() == 26,
            freq@ == freqs_pre(rv, l as nat, k as int),
        decreases rs@.len() - k,
    {
        let ghost n1 = k as int + 1;
        proof {
            assert(rv[k as int] == rs@[k as int]@);
        }
        let w: &Vec<u8> = &rs[k];
        let (clean, mask) = record_mask(w);
        let pc = crate::bits::popcount_exec(mask);
        if clean && w.len() == l && pc == l {
            proof {
                assert(valid_record(rv[k as int], l as nat));
            }
            match find_mask(&masks, mask) {
                Some(idx) => {
                    proof {
                        masks@.index_of_first_ensures(mask);
                        assert(0 <= idx < masks@.len());
                        assert(group_sizes@.len() == masks@.len()) by {
                            lemma_tables_aligned(rv, l as nat, k as int);
                        }
                    }
                    let cur = group_sizes[idx];
                    let next: usize = if cur == usize::MAX {
                        cur
                    } else {
                        cur + 1
                    };
                    group_sizes[idx] = next;
                    proof {
                        assert(masks@.contains(mask));
                        assert(group_sizes@ =~= groups_pre(rv, l as nat, n1));
                        assert(recs_view(words@) =~= words_pre(rv, l as nat, n1));
                        assert(masks@ =~= masks_pre(rv, l as nat, n1));
                        assert(freq@ =~= freqs_pre(rv, l as nat, n1));
                    }
                },
                None => {
                    masks.push(mask);
                    let wc = copy_range(w.as_slice(), 0, w.len());
                    proof {
                        assert(wc@ =~= rv[k as int]);
                    }
                    words.push(wc);
                    group_sizes.push(0);
                    bump_freq(&mut freq, mask);
                    proof {
                        assert(masks@ =~= masks_pre(rv, l as nat, n1));
                        assert(recs_view(words@) =~= words_pre(rv, l as nat, n1));
                        assert(group_sizes@ =~= groups_pre(rv, l as nat, n1));
                        assert(freq@ =~= freqs_pre(rv, l as nat, n1));
                    }
                },
            }
        } else {
            proof {
                if valid_record(rv[k as int], l as nat) {
                    assert(clean && w@.len() == l && popcount(word_mask(w@)) == l);
                }
            }
        }
        k += 1;
    }
    Corpus { masks, words, group_sizes, freq }
}

/// The parallel tables stay aligned record by record.
pub proof fn lemma_tables_aligned(rs: Seq<Seq<u8>>, l: nat, n: int)
    ensures
        masks_pre(rs, l, n).len() == words_pre(rs, l, n).len(),
        masks_pre(rs, l, n).len() == groups_pre(rs, l, n).len(),
        freqs_pre(rs, l, n).len() == 26,
    decreases n,
{
    if n > 0 {
        lemma_tables_aligned(rs, l, n - 1);
        let w = rs[n - 1];
        if valid_record(w, l) {
            masks_pre(rs, l, n - 1).index_of_first_ensures(word_mask(w));
        }
    }
}

/// Load a corpus from a raw byte region: split into records, filter, and
/// deduplicate.
pub fn load_corpus(data: &[u8], word_length: usize) -> (c: Corpus)
    ensures
        corpus_matches(c, records(data@), word_length as nat),
{
    let rs = split_records(data);
    build_corpus(&rs, word_length)
}

} // verus!
