//! The engine: validate the configuration, load and deduplicate the corpus,
//! rank the letters, bucket the relocated masks, run the extension rounds,
//! and assemble the report. Every stage's result equals a spec function of
//! the input bytes and the configuration alone, so two runs on the same
//! corpus and configuration report the same combinations.

use vstd::prelude::*;
use crate::assemble::{assemble, combos_match, extras_total, flat_entries, sum_extras, Combination};
use crate::buckets::{build_buckets, spec_buckets, spec_origins};
use crate::corpus::{load_corpus, masks_pre, freqs_pre, groups_pre, records};
use crate::rarity::{compute_ranks, spec_ranks};
use crate::search::{search, sat_u64, spec_search, state_total};

verus! {

/// The one fatal error: a word length and count whose product is not a
/// positive number of letters within the alphabet.
#[derive(Debug, PartialEq, Eq)]
pub enum ConfigError {
    InvalidCounts,
}

/// The skip budget of a valid configuration: the alphabet letters left over
/// once every word has claimed its own.
pub fn allowed_skips(word_length: usize, word_count: usize) -> (r: Option<usize>)
    ensures
        r == if 1 <= word_length * word_count <= 26 {
            Some((26 - word_length * word_count) as usize)
        } else {
            None::<usize>
        },
{
    if word_length == 0 || word_count == 0 || word_length > 26 || word_count > 26 {
        proof {
            if word_length >= 1 && word_count >= 1 {
                assert(word_length * word_count >= word_length) by (nonlinear_arith)
                    requires
                        word_count >= 1,
                        word_length >= 0,
                ;
                assert(word_length * word_count >= word_count) by (nonlinear_arith)
                    requires
                        word_length >= 1,
                        word_count >= 0,
                ;
            }
        }
        None
    } else {
        proof {
            assert(word_length * word_count <= 676) by (nonlinear_arith)
                requires
                    word_length <= 26,
                    word_count <= 26,
            ;
            assert(word_length * word_count >= 1) by (nonlinear_arith)
                requires
                    word_length >= 1,
                    word_count >= 1,
            ;
        }
        let t = word_length * word_count;
        if t > 26 {
            None
        } else {
            Some(26 - t)
        }
    }
}

pub struct RunResult {
    /// The terminal combinations, bucket after bucket.
    pub combinations: Vec<Combination>,
    /// The canonical words of the corpus, for reporting.
    pub words: Vec<Vec<u8>>,
    /// Entry counts after seeding and after each extension round.
    pub depth_matches: Vec<u64>,
    /// Anagram-substitution solutions beyond the terminal combinations.
    pub extras_total: u64,
    /// Terminal combinations plus anagram extras, capped at the counter.
    pub total_matches: u64,
}

/// The deduplicated masks of the byte stream.
pub open spec fn spec_corpus_masks(data: Seq<u8>, l: nat) -> Seq<u32> {
    masks_pre(records(data), l, records(data).len() as int)
}

/// The rank table of the byte stream's corpus.
pub open spec fn spec_corpus_table(data: Seq<u8>, l: nat) -> Seq<usize> {
    spec_ranks(freqs_pre(records(data), l, records(data).len() as int))
}

/// The search state over the byte stream after seeding and `d` rounds.
pub open spec fn spec_state_at(data: Seq<u8>, l: nat, allowed: int, d: nat) -> Seq<
    Seq<crate::entry::EntryModel>,
> {
    spec_search(
        spec_buckets(
            spec_corpus_masks(data, l),
            spec_corpus_table(data, l),
            spec_corpus_masks(data, l).len() as int,
        ),
        allowed,
        d,
    )
}

/// Run the whole engine. The configuration is fatal iff the words cannot
/// claim between one and all twenty-six letters; everything else about the
/// result is a function of the byte stream and the configuration.
pub fn run(data: &[u8], word_count: usize, word_length: usize) -> (r: Result<
    RunResult,
    ConfigError,
>)
    ensures
        r is Err <==> !(1 <= word_length * word_count <= 26),
        r matches Ok(res) ==> {
            let l = word_length as nat;
            let allowed = 26 - word_length * word_count;
            let rs = records(data@);
            let st = spec_state_at(data@, l, allowed as int, (word_count - 1) as nat);
            &&& combos_match(
                res.combinations@,
                flat_entries(st),
                spec_origins_flat(data@, l),
                groups_pre(rs, l, rs.len() as int),
            )
            &&& crate::corpus::recs_view(res.words@) == crate::corpus::words_pre(
                rs,
                l,
                rs.len() as int,
            )
            &&& res.depth_matches@.len() == word_count
            &&& forall|d: int|
                0 <= d < word_count ==> res.depth_matches@[d] == sat_u64(
                    state_total(spec_state_at(data@, l, allowed as int, d as nat)),
                )
            &&& res.extras_total == extras_total(res.combinations@)
            &&& res.total_matches == if res.extras_total + res.combinations@.len() > u64::MAX {
                u64::MAX
            } else {
                (res.extras_total + res.combinations@.len()) as u64
            }
        },
{
    let allowed = match allowed_skips(word_length, word_count) {
        Some(a) => a,
        None => {
            return Err(ConfigError::InvalidCounts);
        },
    };
    proof {
        if word_count == 0 {
            assert(word_length * word_count == 0);
        }
        crate::corpus::lemma_tables_aligned(
            records(data@),
            word_length as nat,
            records(data@).len() as int,
        );
    }
    let corpus = load_corpus(data, word_length);
    let table = compute_ranks(&corpus.freq);
    let (buckets, _origins) = build_buckets(&corpus.masks, &table);
    let rarity_table = relocate_all(&corpus.masks, &table);
    let (st, stats) = search(&buckets, allowed, word_count - 1);
    let combinations = assemble(&st, &rarity_table, &corpus.group_sizes);
    let extras = sum_extras(&combinations);
    let terminal = combinations.len() as u64;
    let total: u64 = if extras > u64::MAX - terminal {
        u64::MAX
    } else {
        extras + terminal
    };
    Ok(
        RunResult {
            combinations,
            words: corpus.words,
            depth_matches: stats,
            extras_total: extras,
            total_matches: total,
        },
    )
}

/// Each corpus mask relocated into rank space, in corpus order: the reverse
/// lookup used by the assembler.
pub open spec fn spec_origins_flat(data: Seq<u8>, l: nat) -> Seq<u32> {
    spec_corpus_masks(data, l).map_values(
        |m: u32| crate::rarity::rarity_mask_of(m, spec_corpus_table(data, l)),
    )
}

fn relocate_all(masks: &Vec<u32>, table: &Vec<usize>) -> (r: Vec<u32>)
    requires
        table@.len() == 26,
        forall|c: int| 0 <= c < 26 ==> (#[trigger] table@[c]) < 26,
    ensures
        r@ == masks@.map_values(|m: u32| crate::rarity::rarity_mask_of(m, table@)),
{
    let mut r: Vec<u32> = Vec::new();
    let mut i: usize = 0;
    while i < masks.len()
        invariant
            table@.len() == 26,
            forall|c: int| 0 <= c < 26 ==> (#[trigger] table@[c]) < 26,
            i <= masks@.len(),
            r@ == masks@.take(i as int).map_values(
                |m: u32| crate::rarity::rarity_mask_of(m, table@),
            ),
        decreases masks@.len() - i,
    {
        let rm = crate::rarity::bitmask_to_raritymask(&masks[i], table);
        r.push(rm);
        proof {
            assert(r@ =~= masks@.take(i + 1).map_values(
                |m: u32| crate::rarity::rarity_mask_of(m, table@),
            ));
        }
        i += 1;
    }
    proof {
        assert(masks@.take(masks@.len() as int) =~= masks@);
    }
    r
}

} // verus!
