//! A verified engine for the classic disjoint-letter word-set puzzle: find
//! every combination of `n` words of length `l` drawn from a word list such
//! that no letter occurs in more than one word of the combination.
//!
//! The pipeline: split a raw byte stream into records, keep the words of the
//! right length with no repeated letter, group exact anagrams under one
//! canonical word, rank the 26 letters from rarest to commonest over the
//! deduplicated corpus, relocate every word's letter mask into rarity-rank
//! space, bucket the masks by their rarest rank, and extend partial
//! combinations bucket by bucket so that each unordered combination is built
//! along exactly one ordered path.

pub mod assemble;
pub mod bits;
pub mod buckets;
pub mod corpus;
pub mod engine;
pub mod entry;
pub mod rarity;
pub mod search;
