use searchlight::highlighter::merge_spans;
use searchlight::{Highlighter, HighlighterConfig, InvertedIndex};

#[test]
fn test_highlight_basic() {
    let mut index = InvertedIndex::new();
    index.add_document("Rust是一门现代系统编程语言，安全且高效");

    let highlighter = Highlighter::new();
    let snippet = highlighter
        .highlight(&index, 0, &["rust".to_string(), "编程语言".to_string()])
        .unwrap();

    assert!(snippet.highlighted.contains("<em>"));
    assert!(snippet.highlighted.contains("Rust"));
    assert!(snippet.highlighted.contains("编程语言"));
}

#[test]
fn test_merge_spans() {
    let spans = vec![(0, 5), (3, 8), (10, 15)];
    let merged = merge_spans(&spans);
    assert_eq!(merged, vec![(0, 8), (10, 15)]);
}

#[test]
fn test_highlight_chinese() {
    let mut index = InvertedIndex::new();
    index.add_document("我爱北京天安门，天安门上太阳升");

    let highlighter = Highlighter::new();
    let snippet = highlighter
        .highlight(&index, 0, &["北京".to_string(), "天安门".to_string()])
        .unwrap();

    assert!(snippet.highlighted.contains("<em>北京</em>"));
}

#[test]
fn highlight_marks_every_occurrence_in_place() {
    let mut index = InvertedIndex::new();
    index.add_document("Hello world, hello Rust");
    let snippet = Highlighter::new().highlight(&index, 0, &["hello".to_string()]).unwrap();
    assert_eq!(snippet.highlighted, "<em>Hello</em> world, <em>hello</em> Rust");
    assert_eq!(snippet.original, "Hello world, hello Rust");
    assert_eq!((snippet.start, snippet.end), (0, 18));
    assert_eq!(snippet.doc_id, 0);
}

#[test]
fn highlight_uses_the_configured_markers() {
    let mut index = InvertedIndex::new();
    index.add_document("alpha beta");
    let config = HighlighterConfig {
        context_before: 10,
        context_after: 10,
        max_snippet_len: 100,
        highlight_open: "[".to_string(),
        highlight_close: "]".to_string(),
    };
    let snippet = Highlighter::with_config(config).highlight(&index, 0, &["beta".to_string()]).unwrap();
    assert_eq!(snippet.highlighted, "alpha [beta]");
}

#[test]
fn no_snippet_without_a_match_or_a_document() {
    let mut index = InvertedIndex::new();
    index.add_document("alpha beta");
    let h = Highlighter::new();
    assert!(h.highlight(&index, 0, &["gamma".to_string()]).is_none());
    assert!(h.highlight(&index, 7, &["alpha".to_string()]).is_none());
    let many = h.highlight_many(&index, &[0, 7], &["alpha".to_string()]);
    assert_eq!(many.len(), 1);
}

#[test]
fn merge_keeps_disjoint_and_nested_spans_apart() {
    assert_eq!(merge_spans(&[]), vec![]);
    assert_eq!(merge_spans(&[(0, 10), (2, 4)]), vec![(0, 10)]);
    assert_eq!(merge_spans(&[(0, 2), (2, 4)]), vec![(0, 2), (2, 4)]);
}
