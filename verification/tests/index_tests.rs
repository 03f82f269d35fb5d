use searchlight::InvertedIndex;
use std::collections::HashSet;

#[test]
fn test_add_and_search() {
    let mut idx = InvertedIndex::new();
    idx.add_document("Rust是一门现代编程语言");
    idx.add_document("Go语言也很流行");
    idx.add_document("Python是一门易学的语言");

    assert_eq!(idx.doc_count(), 3);

    // The low-memory Chinese n-gram tokenizer can find "语言" inside "编程语言".
    let postings = idx.posting_list("语言").unwrap();
    let doc_ids: HashSet<usize> = postings.iter().map(|p| p.doc_id).collect();
    assert_eq!(doc_ids.len(), 3);
}

#[test]
fn index_test_remove_document() {
    let mut idx = InvertedIndex::new();
    let id = idx.add_document("hello world");
    assert!(idx.remove_document(id));
    assert_eq!(idx.doc_count(), 0);
    assert!(idx.posting_list("hello").is_none());
}

#[test]
fn test_prefix_search() {
    let mut idx = InvertedIndex::new();
    idx.add_document("programming in Rust");
    idx.add_document("programming in Go");
    idx.add_document("python development");

    let terms = idx.terms_with_prefix("pro");
    assert!(terms.contains(&"programming".to_string()));
}

#[test]
fn test_batch_add() {
    let mut idx = InvertedIndex::new();
    let ids = idx.add_documents(&["hello world", "foo bar", "baz qux"]);
    assert_eq!(ids.len(), 3);
    assert_eq!(idx.doc_count(), 3);
}

#[test]
fn removing_a_fresh_document_restores_the_index() {
    let mut idx = InvertedIndex::new();
    idx.add_document("alpha beta");
    let terms_before = idx.terms_with_prefix("");
    let id = idx.add_document("gamma alpha");
    assert_eq!(idx.term_count(), 3);
    assert!(idx.remove_document(id));
    assert_eq!(idx.terms_with_prefix(""), terms_before);
    assert_eq!(idx.doc_count(), 1);
    assert!(idx.posting_list("gamma").is_none());
    assert!(!idx.remove_document(id));
    // ids are never reused
    assert_eq!(idx.add_document("delta"), 2);
}

#[test]
fn term_statistics_count_documents_and_occurrences() {
    let mut idx = InvertedIndex::new();
    idx.add_document("hello world hello");
    idx.add_document("hello foo");
    let st = idx.term_stats("hello").unwrap();
    assert_eq!(st.doc_frequency, 2);
    assert_eq!(st.total_frequency, 3);
    assert!(idx.term_stats("missing").is_none());
    let postings = idx.posting_list("hello").unwrap();
    assert_eq!(postings.len(), 3);
    assert_eq!((postings[0].doc_id, postings[0].start, postings[0].end), (0, 0, 5));
    assert_eq!((postings[2].doc_id, postings[2].start), (1, 0));
}

#[test]
fn documents_are_read_back_by_id() {
    let mut idx = InvertedIndex::new();
    let a = idx.add_document("first doc");
    let b = idx.add_document("second doc here");
    assert_eq!(idx.document(a), Some("first doc"));
    assert_eq!(idx.document(b), Some("second doc here"));
    assert_eq!(idx.doc_length(b), 3);
    assert_eq!(idx.doc_length(99), 0);
    assert!(idx.document(99).is_none());
    assert_eq!(idx.term_freq_in_doc("doc", b), 1);
    assert_eq!(idx.term_freq_in_doc("doc", 99), 0);
    assert_eq!(idx.doc_ids(), vec![0, 1]);
    assert_eq!(idx.total_tokens(), 5);
    let freqs = idx.document_term_frequencies(b).unwrap();
    assert_eq!(freqs, vec![("second".to_string(), 1), ("doc".to_string(), 1), ("here".to_string(), 1)]);
    assert_eq!(idx.document_tokens(a).unwrap().len(), 2);
}

#[test]
fn prefix_listing_can_be_limited() {
    let mut idx = InvertedIndex::new();
    idx.add_document("prog progress program");
    assert_eq!(idx.terms_with_prefix_limited("pro", 2).len(), 2);
    assert!(idx.terms_with_prefix_limited("pro", 0).is_empty());
    assert_eq!(idx.terms_with_prefix("pro").len(), 3);
}
