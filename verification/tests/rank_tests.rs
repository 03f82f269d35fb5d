use searchlight::fuzzy::{lcs_length, overlap_sizes};
use searchlight::rank::{matched_term_count, min_token_distance, phrase_windows};
use searchlight::{tokenize, InvertedIndex};

#[test]
fn phrase_windows_count_consecutive_occurrences() {
    let tokens = tokenize("rust web rust web rust");
    let phrase = vec!["rust".to_string(), "web".to_string()];
    assert_eq!(phrase_windows(&tokens, &phrase), 2);
    assert_eq!(phrase_windows(&tokens, &[]), 0);
    let long: Vec<String> = (0..9).map(|i| format!("w{}", i)).collect();
    assert_eq!(phrase_windows(&tokens, &long), 0);
}

#[test]
fn token_distances() {
    let tokens = tokenize("hello and then after a long while world hello");
    assert_eq!(min_token_distance(&tokens, &"hello".to_string(), &"world".to_string()), Some(1));
    assert_eq!(min_token_distance(&tokens, &"hello".to_string(), &"missing".to_string()), None);
    assert_eq!(min_token_distance(&tokens, &"then".to_string(), &"then".to_string()), Some(0));
}

#[test]
fn matched_terms_are_counted() {
    let mut index = InvertedIndex::new();
    index.add_document("rust python go");
    index.add_document("rust only");
    let terms = vec!["rust".to_string(), "python".to_string()];
    assert_eq!(matched_term_count(&index, 0, &terms), 2);
    assert_eq!(matched_term_count(&index, 1, &terms), 1);
    assert_eq!(matched_term_count(&index, 9, &terms), 0);
}

#[test]
fn common_subsequence_and_overlap() {
    assert_eq!(lcs_length("abcde", "ace"), 3);
    assert_eq!(lcs_length("", "abc"), 0);
    assert_eq!(lcs_length("你好世界", "世界你好"), 2);
    let a = vec!["a".to_string(), "b".to_string(), "c".to_string()];
    let b = vec!["b".to_string(), "c".to_string(), "d".to_string()];
    assert_eq!(overlap_sizes(&a, &b), (2, 4));
    assert_eq!(overlap_sizes(&[], &[]), (0, 0));
}
