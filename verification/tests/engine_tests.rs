use searchlight::{is_related_suggestion_term, SearchEngine, SearchOptions, SearchlightError};

#[test]
fn test_autocomplete() {
    let mut engine = SearchEngine::new();
    engine.index("programming in Rust");
    engine.index("programming in Python");
    engine.index("Rust language");

    let suggestions = engine.suggest("pro");
    assert!(suggestions.contains(&"programming".to_string()));
}

#[test]
fn test_index_batch() {
    let mut engine = SearchEngine::new();
    let ids = engine.index_batch(&["hello world", "foo bar", "baz qux hello"]);
    assert_eq!(ids.len(), 3);
    assert_eq!(engine.doc_count(), 3);
}

#[test]
fn lib_test_remove_document() {
    let mut engine = SearchEngine::new();
    let id = engine.index("temporary document");
    assert!(engine.remove(id));
    let retrieval = engine.retrieve("temporary", &SearchOptions::default()).unwrap().unwrap();
    assert!(retrieval.candidates.is_empty());
}

#[test]
fn test_query_too_long_error() {
    let engine = SearchEngine::new();
    let long_query = "a".repeat(600);
    let err = engine.retrieve(&long_query, &SearchOptions::default()).err().unwrap();
    assert!(matches!(err, SearchlightError::QueryTooLong { .. }));
}

#[test]
fn test_statistics() {
    let mut engine = SearchEngine::new();
    engine.index("hello world hello");
    engine.index("hello foo");

    let stats = engine.term_statistics("hello");
    assert!(stats.is_some());
    let (df, tf) = stats.unwrap();
    assert_eq!(df, 2); // appears in 2 docs
    assert_eq!(tf, 3); // total 3 times
}

#[test]
fn query_length_error_carries_the_lengths() {
    let engine = SearchEngine::new();
    let err = engine.retrieve(&"a".repeat(513), &SearchOptions::default()).err().unwrap();
    assert_eq!(err, SearchlightError::QueryTooLong { max: 512, actual: 513 });
    assert_eq!(err.message(), "query exceeds maximum length of 512 characters (got 513)");
    assert!(engine.retrieve(&"a".repeat(512), &SearchOptions::default()).is_ok());
}

#[test]
fn too_many_terms_is_refused() {
    let engine = SearchEngine::new();
    let query: Vec<String> = (0..65).map(|i| format!("t{}", i)).collect();
    let err = engine.retrieve(&query.join(" "), &SearchOptions::default()).err().unwrap();
    assert_eq!(err, SearchlightError::TooManyTerms { max: 64 });
    assert_eq!(err.message(), "query contains too many terms (max 64)");
    let ok: Vec<String> = (0..64).map(|i| format!("t{}", i)).collect();
    assert!(engine.retrieve(&ok.join(" "), &SearchOptions::default()).is_ok());
}

#[test]
fn error_messages() {
    assert_eq!(SearchlightError::DocumentNotFound { doc_id: 7 }.message(), "document 7 not found in index");
    assert_eq!(SearchlightError::IndexEmpty.message(), "index is empty");
    assert_eq!(SearchlightError::InvalidOptions("x".to_string()).message(), "invalid search options: x");
}

#[test]
fn nothing_to_look_for_retrieves_nothing() {
    let mut engine = SearchEngine::new();
    engine.index("hello");
    assert!(engine.retrieve("   ", &SearchOptions::default()).unwrap().is_none());
    assert!(engine.retrieve("-hello", &SearchOptions::default()).unwrap().is_none());
}

#[test]
fn retrieval_gathers_candidates_and_terms() {
    let mut engine = SearchEngine::new();
    engine.index("Rust and Python are great languages");
    engine.index("Python is easy to learn");
    engine.index("Rust is memory safe");
    let r = engine.retrieve("Rust AND Python", &SearchOptions::default()).unwrap().unwrap();
    assert_eq!(r.candidates, vec![0]);
    assert_eq!(r.include_terms, vec!["python".to_string(), "rust".to_string()]);
    assert_eq!(r.scoring_terms, r.include_terms);
    let phrase = engine.retrieve("\"memory safe\" rust", &SearchOptions::default()).unwrap().unwrap();
    assert_eq!(phrase.phrases, vec![vec!["memory".to_string(), "safe".to_string()]]);
    assert_eq!(phrase.candidates, vec![2]);
}

#[test]
fn fuzzy_retrieval_adds_expansions_to_the_scoring_terms() {
    let mut engine = SearchEngine::new();
    engine.index("programming in Rust");
    engine.index("writing Python code");
    let options = SearchOptions { fuzzy: true, max_edit_distance: 2, ..SearchOptions::default() };
    let r = engine.retrieve("programing", &options).unwrap().unwrap();
    assert_eq!(r.candidates, vec![0]);
    assert_eq!(r.scoring_terms, vec!["programing".to_string(), "programming".to_string()]);
    let (terms, positions) = engine.match_info(0, &r.scoring_terms, &options);
    assert_eq!(terms, vec!["programming".to_string()]);
    assert_eq!(positions, vec![(0, 11)]);
}

#[test]
fn pinyin_retrieval_finds_chinese_documents() {
    let mut engine = SearchEngine::new();
    engine.index("编程语言 Rust 很强大");
    engine.index("Python 数据分析");
    let options = SearchOptions { use_pinyin: true, ..SearchOptions::default() };
    let r = engine.retrieve("biancheng", &options).unwrap().unwrap();
    assert!(r.use_pinyin);
    assert_eq!(r.candidates, vec![0]);
    let reasons = engine.match_reasons(&r, "biancheng", &options, 0);
    assert!(reasons.iter().any(|x| x.code == "pinyin"));
}

#[test]
fn snippets_and_match_info() {
    let mut engine = SearchEngine::new();
    engine.index("Rust 是一门现代系统编程语言，注重内存安全");
    let terms = vec!["编程语言".to_string()];
    let snippet = engine.snippet(0, &terms).unwrap();
    assert!(snippet.contains("<em>编程语言</em>"));
    let (matched, positions) = engine.match_info(0, &terms, &SearchOptions::default());
    assert_eq!(matched, terms);
    assert_eq!(positions.len(), 1);
    assert!(engine.snippet(0, &["missing".to_string()]).is_none());
}

#[test]
fn suggestions_prefer_frequent_terms() {
    let mut engine = SearchEngine::new();
    engine.index("prompt");
    engine.index("program program");
    engine.index("program");
    assert_eq!(engine.suggest("PRO"), vec!["program".to_string(), "prompt".to_string()]);
    assert!(engine.suggest("zzz").is_empty());
}

#[test]
fn pinyin_suggestions_are_merged_and_sorted() {
    let mut engine = SearchEngine::new();
    engine.index("北京 beijing bj");
    let s = engine.suggest_with_pinyin("bj");
    assert!(s.contains(&"北京".to_string()));
    assert!(s.contains(&"bj".to_string()));
    let mut sorted = s.clone();
    sorted.sort();
    sorted.dedup();
    assert_eq!(s, sorted);
}

#[test]
fn ids_stay_stable_across_removals() {
    let mut engine = SearchEngine::new();
    let a = engine.index("first");
    let b = engine.index("second");
    let g = engine.generation();
    assert!(engine.remove(a));
    assert_ne!(engine.generation(), g);
    assert_eq!(engine.get_document(b), Some("second"));
    assert!(engine.get_document(a).is_none());
    assert_eq!(engine.doc_ids(), vec![b]);
    let g2 = engine.generation();
    assert!(!engine.remove(a));
    assert_eq!(engine.generation(), g2);
    assert_eq!(engine.index("third"), 2);
    engine.clear();
    assert_eq!(engine.doc_count(), 0);
    assert_eq!(engine.next_id(), 0);
}

#[test]
fn related_terms_filter() {
    assert!(is_related_suggestion_term("worker"));
    assert!(!is_related_suggestion_term("  "));
    assert!(!is_related_suggestion_term("a"));
    assert!(!is_related_suggestion_term("!?"));
    assert!(is_related_suggestion_term("中"));
    let mut engine = SearchEngine::new();
    engine.index("react search");
    let ex = engine.related_exclusions("react search");
    assert!(ex.contains(&"react".to_string()));
    assert!(ex.contains(&"search".to_string()));
}

#[test]
fn pinyin_prefix_in_the_query_turns_on_pinyin_search() {
    let mut engine = SearchEngine::new();
    engine.index("北京是中国的首都");
    engine.index("hello world");
    let options = SearchOptions::default();
    let r = engine.retrieve("pinyin:beijing", &options).unwrap().unwrap();
    assert!(r.use_pinyin);
    assert_eq!(r.pinyin_query, "beijing");
    assert_eq!(r.candidates, vec![0]);
    let reasons = engine.match_reasons(&r, "pinyin:beijing", &options, 0);
    assert!(reasons.iter().any(|x| x.code == "pinyin"));
    let r = engine.retrieve("py:beijing", &options).unwrap().unwrap();
    assert_eq!(r.pinyin_query, "beijing");
    assert_eq!(r.candidates, vec![0]);
    // Initials match the document's text, though candidates come from full spellings.
    let r = engine.retrieve("py:bj", &options).unwrap().unwrap();
    assert_eq!(r.pinyin_query, "bj");
    assert!(r.use_pinyin);
    let reasons = engine.match_reasons(&r, "py:bj", &options, 0);
    assert!(reasons.iter().any(|x| x.code == "pinyin"));
}

fn retrieval_fixture() -> SearchEngine {
    let mut engine = SearchEngine::new();
    engine.index("rust programming");
    engine.index("python programming");
    engine.index("rust web");
    engine
}

fn candidates(engine: &SearchEngine, query: &str) -> Vec<usize> {
    match engine.retrieve(query, &SearchOptions::default()).unwrap() {
        Some(r) => r.candidates,
        None => vec![],
    }
}

#[test]
fn retrieval_of_boolean_queries() {
    let engine = retrieval_fixture();
    assert_eq!(candidates(&engine, "rust AND web"), vec![2]);
    assert_eq!(candidates(&engine, "+rust +web"), vec![2]);
    assert_eq!(candidates(&engine, "rust OR python"), vec![0, 1, 2]);
    assert_eq!(candidates(&engine, "rust programming"), vec![0]);
}

#[test]
fn retrieval_of_exclusions() {
    let engine = retrieval_fixture();
    assert_eq!(candidates(&engine, "programming -python"), vec![0]);
    assert_eq!(candidates(&engine, "programming NOT python"), vec![0]);
    assert_eq!(candidates(&engine, "rust -web"), vec![0]);
}

#[test]
fn retrieval_of_phrases() {
    let engine = retrieval_fixture();
    let r = engine.retrieve("\"rust programming\"", &SearchOptions::default()).unwrap().unwrap();
    assert_eq!(r.candidates, vec![0]);
    assert_eq!(r.phrases, vec![vec!["rust".to_string(), "programming".to_string()]]);
    assert_eq!(candidates(&engine, "\"programming rust\""), Vec::<usize>::new());
}

#[test]
fn related_terms_leave_out_excluded_and_trivial_terms() {
    let mut engine = SearchEngine::new();
    engine.index("rust rust web , x framework");
    let excluded = vec!["web".to_string()];
    let terms = engine.related_terms_of(0, &excluded).unwrap();
    assert_eq!(terms, vec![("rust".to_string(), 2), ("framework".to_string(), 1)]);
    assert!(engine.related_terms_of(7, &excluded).is_none());
}

#[test]
fn source_documents_are_kept_once_and_at_most_five() {
    let mut ids: Vec<usize> = Vec::new();
    for id in [3, 1, 3, 4, 5, 6, 7, 8] {
        searchlight::add_source_doc(&mut ids, id);
    }
    assert_eq!(ids, vec![3, 1, 4, 5, 6]);
}
