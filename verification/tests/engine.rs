use wordset::engine::{allowed_skips, run, ConfigError};
use wordset::corpus::load_corpus;

const FIVE: &[u8] = b"abcde\nfghij\nklmno\npqrst\nuvwxy\n";

#[test]
fn five_disjoint_words_one_combination() {
    let r = run(FIVE, 5, 5).unwrap();
    assert_eq!(r.combinations.len(), 1);
    let c = &r.combinations[0];
    assert_eq!(c.skipped, 1); // the letter z is never covered
    assert_eq!(c.extras, 0);
    assert_eq!(c.word_indices, vec![0, 1, 2, 3, 4]);
    assert_eq!(c.rarity_mask.count_ones(), 25);
    assert_eq!(r.extras_total, 0);
    assert_eq!(r.total_matches, 1);
    assert_eq!(r.depth_matches.len(), 5);
    assert_eq!(r.depth_matches[4], 1);
}

#[test]
fn anagram_substitution_counts_one_extra() {
    let data = b"abcde\nbdcae\nfghij\nklmno\npqrst\nuvwxy\n";
    let r = run(data, 5, 5).unwrap();
    assert_eq!(r.combinations.len(), 1);
    assert_eq!(r.combinations[0].extras, 1); // two choices for one slot: 2 - 1
    assert_eq!(r.extras_total, 1);
    assert_eq!(r.total_matches, 2);
}

#[test]
fn repeated_letter_word_is_excluded() {
    let data = b"hello\nabcde\nfghij\nklmno\npqrst\nuvwxy\n";
    let corpus = load_corpus(data, 5);
    assert_eq!(corpus.masks.len(), 5); // "hello" never enters the corpus
    assert!(corpus.words.iter().all(|w| w != b"hello"));
    let r = run(data, 5, 5).unwrap();
    assert_eq!(r.combinations.len(), 1);
    for c in &r.combinations {
        for &idx in &c.word_indices {
            assert_ne!(&r.words[idx], b"hello");
        }
    }
}

#[test]
fn zero_skip_budget_means_zero_skips() {
    let data = b"abcdefghijklm\nnopqrstuvwxyz\n";
    let r = run(data, 2, 13).unwrap();
    assert_eq!(r.combinations.len(), 1);
    assert_eq!(r.combinations[0].skipped, 0);
    assert_eq!(r.combinations[0].rarity_mask.count_ones(), 26);
}

#[test]
fn invalid_configuration_is_fatal() {
    assert!(matches!(run(FIVE, 0, 5), Err(ConfigError::InvalidCounts)));
    assert!(matches!(run(FIVE, 5, 0), Err(ConfigError::InvalidCounts)));
    assert!(matches!(run(FIVE, 6, 5), Err(ConfigError::InvalidCounts)));
    assert_eq!(allowed_skips(5, 5), Some(1));
    assert_eq!(allowed_skips(13, 2), Some(0));
    assert_eq!(allowed_skips(9, 3), None);
    assert_eq!(allowed_skips(0, 7), None);
}

#[test]
fn identical_runs_report_identical_combinations() {
    let a = run(FIVE, 5, 5).unwrap();
    let b = run(FIVE, 5, 5).unwrap();
    assert_eq!(a.combinations.len(), b.combinations.len());
    for (x, y) in a.combinations.iter().zip(b.combinations.iter()) {
        assert_eq!(x.word_indices, y.word_indices);
        assert_eq!(x.skipped, y.skipped);
        assert_eq!(x.extras, y.extras);
    }
}

#[test]
fn unterminated_trailing_fragment_is_not_a_record() {
    let corpus = load_corpus(b"abcde\nfghij", 5);
    assert_eq!(corpus.masks.len(), 1);
}
