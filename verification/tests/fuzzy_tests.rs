use searchlight::{damerau_levenshtein, fuzzy_match_candidates, is_fuzzy_match, levenshtein_distance};

#[test]
fn test_levenshtein_identical() {
    assert_eq!(levenshtein_distance("hello", "hello"), 0);
}

#[test]
fn test_levenshtein_single_edit() {
    assert_eq!(levenshtein_distance("hello", "hallo"), 1);
    assert_eq!(levenshtein_distance("hello", "hell"), 1);
    assert_eq!(levenshtein_distance("hello", "helloo"), 1);
}

#[test]
fn test_levenshtein_chinese() {
    assert_eq!(levenshtein_distance("你好世界", "你好"), 2);
    assert_eq!(levenshtein_distance("你好", "你好"), 0);
}

#[test]
fn levenshtein_is_symmetric_on_examples() {
    assert_eq!(levenshtein_distance("kitten", "sitting"), 3);
    assert_eq!(levenshtein_distance("sitting", "kitten"), 3);
    assert_eq!(levenshtein_distance("", "abc"), 3);
    assert_eq!(levenshtein_distance("abc", ""), 3);
}

#[test]
fn damerau_counts_a_transposition_once() {
    assert_eq!(damerau_levenshtein("ab", "ba"), 1);
    assert_eq!(levenshtein_distance("ab", "ba"), 2);
    assert_eq!(damerau_levenshtein("ca", "abc"), 2);
}

#[test]
fn fuzzy_match_respects_the_distance() {
    assert!(is_fuzzy_match("hello", "hallo", 1));
    assert!(!is_fuzzy_match("hello", "world", 2));
    assert!(is_fuzzy_match("hello", "hello", 0));
}

#[test]
fn fuzzy_candidates_rank_the_exact_match_first() {
    let candidates = vec![
        "hallo".to_string(),
        "help".to_string(),
        "hello".to_string(),
        "world".to_string(),
    ];
    let matches = fuzzy_match_candidates("hello", &candidates, 2, 10);
    assert!(!matches.is_empty());
    assert_eq!(matches[0].term, "hello");
    assert_eq!(matches[0].distance, 0);
    assert!(matches.iter().all(|m| m.term != "world"));
    let limited = fuzzy_match_candidates("hello", &candidates, 2, 1);
    assert_eq!(limited.len(), 1);
}

#[test]
fn levenshtein_obeys_the_triangle_inequality() {
    let words = ["kitten", "sitting", "mitten", "", "sit"];
    for a in words {
        for b in words {
            for c in words {
                assert!(
                    levenshtein_distance(a, c) <= levenshtein_distance(a, b) + levenshtein_distance(b, c)
                );
            }
        }
    }
}

#[test]
fn damerau_is_bounded_by_levenshtein() {
    assert_eq!(damerau_levenshtein("ab", "ba"), 1);
    assert_eq!(levenshtein_distance("ab", "ba"), 2);
    assert_eq!(damerau_levenshtein("same", "same"), 0);
    assert!(damerau_levenshtein("kitten", "sitting") <= levenshtein_distance("kitten", "sitting"));
    assert!(damerau_levenshtein("abc", "abd") > 0);
}

#[test]
fn fuzzy_candidates_limit_and_completeness() {
    let cands: Vec<String> = ["hello", "hallo", "help", "world", "hell"].iter().map(|s| s.to_string()).collect();
    let all = fuzzy_match_candidates("hello", &cands, 2, 10);
    let names: Vec<&str> = all.iter().map(|c| c.term.as_str()).collect();
    assert_eq!(names.len(), 4);
    assert_eq!(names[0], "hello");
    assert!(!names.contains(&"world"));
    let two = fuzzy_match_candidates("hello", &cands, 2, 2);
    assert_eq!(two.len(), 2);
    assert_eq!(two[0].term, "hello");
}

#[test]
fn damerau_is_symmetric() {
    let words = ["ab", "ba", "abc", "cab", "", "kitten", "sitting"];
    for a in words {
        for b in words {
            assert_eq!(damerau_levenshtein(a, b), damerau_levenshtein(b, a));
        }
    }
}

#[test]
fn damerau_is_at_least_the_length_difference() {
    assert_eq!(damerau_levenshtein("", "abc"), 3);
    assert!(damerau_levenshtein("a", "abcd") >= 3);
    assert!(damerau_levenshtein("abcdef", "ab") >= 4);
}

#[test]
fn fuzzy_candidates_all_kept_when_few_are_accepted() {
    let cands: Vec<String> = ["hello", "hallo", "world", "hallo"].iter().map(|s| s.to_string()).collect();
    let r = fuzzy_match_candidates("hello", &cands, 1, 3);
    assert_eq!(r.len(), 3);
    assert_eq!(r.iter().filter(|c| c.term == "hallo").count(), 2);
}
