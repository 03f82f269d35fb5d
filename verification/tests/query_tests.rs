use searchlight::{QueryOp, QueryParser};

#[test]
fn test_simple_term() {
    let parser = QueryParser::new();
    let q = parser.parse("hello");
    assert_eq!(q.root, QueryOp::Term("hello".to_string()));
}

#[test]
fn test_and_query() {
    let parser = QueryParser::new();
    let q = parser.parse("hello AND world");
    assert!(matches!(q.root, QueryOp::And(_)));
    if let QueryOp::And(ops) = &q.root {
        assert_eq!(ops.len(), 2);
    }
}

#[test]
fn test_or_query() {
    let parser = QueryParser::new();
    let q = parser.parse("hello OR world");
    assert!(matches!(q.root, QueryOp::Or(_)));
}

#[test]
fn test_not_query() {
    let parser = QueryParser::new();
    let q = parser.parse("hello -world");
    assert!(matches!(q.root, QueryOp::And(_)));
    if let QueryOp::And(ops) = &q.root {
        assert!(ops.iter().any(|op| matches!(op, QueryOp::Not(_))));
    }
}

#[test]
fn test_phrase_query() {
    let parser = QueryParser::new();
    let q = parser.parse("\"hello world\"");
    assert!(matches!(q.root, QueryOp::Phrase(_)));
}

#[test]
fn test_fuzzy_query() {
    let parser = QueryParser::new();
    let q = parser.parse("hello~");
    assert!(matches!(q.root, QueryOp::Fuzzy(_, _)));
}

#[test]
fn test_fuzzy_with_distance() {
    let parser = QueryParser::new();
    let q = parser.parse("hello~2");
    if let QueryOp::Fuzzy(_, d) = &q.root {
        assert_eq!(*d, 2);
    } else {
        panic!("Expected Fuzzy query");
    }
}

#[test]
fn test_prefix_query() {
    let parser = QueryParser::new();
    let q = parser.parse("prog*");
    assert!(matches!(q.root, QueryOp::Prefix(_)));
}

#[test]
fn test_pinyin_mode() {
    let parser = QueryParser::new();
    let q = parser.parse("pinyin:ni hao");
    assert!(q.use_pinyin);
}

#[test]
fn parsed_query_keeps_the_original_text() {
    let parser = QueryParser::with_fuzzy_distance(1);
    let q = parser.parse("  Rust AND Go ");
    assert_eq!(q.original, "  Rust AND Go ");
    assert_eq!(q.max_edit_distance, 1);
    assert!(!q.use_pinyin);
}

#[test]
fn default_fuzzy_distance_applies_to_bare_tilde() {
    let q = QueryParser::with_fuzzy_distance(3).parse("hello~");
    assert_eq!(q.root, QueryOp::Fuzzy("hello".to_string(), 3));
}

#[test]
fn empty_query_is_an_empty_and() {
    let q = QueryParser::new().parse("   ");
    assert_eq!(q.root, QueryOp::And(vec![]));
}

#[test]
fn not_word_excludes_like_a_dash() {
    let parser = QueryParser::new();
    let expected = QueryOp::And(vec![
        QueryOp::Term("hello".into()),
        QueryOp::Not(Box::new(QueryOp::Term("world".into()))),
    ]);
    assert_eq!(parser.parse("hello NOT world").root, expected);
    assert_eq!(parser.parse("hello -world").root, expected);
    assert_eq!(
        parser.parse("NOT world").root,
        QueryOp::Not(Box::new(QueryOp::Term("world".into())))
    );
    // Lower-case "not" is an ordinary word.
    assert_eq!(
        parser.parse("do not").root,
        QueryOp::And(vec![QueryOp::Term("do".into()), QueryOp::Term("not".into())])
    );
}

#[test]
fn plus_marks_required_terms() {
    let parser = QueryParser::new();
    assert_eq!(
        parser.parse("+hello +world").root,
        QueryOp::And(vec![QueryOp::Term("hello".into()), QueryOp::Term("world".into())])
    );
    assert_eq!(parser.parse("+hello").root, QueryOp::Term("hello".into()));
}

#[test]
fn split_at_marked_operator_words() {
    let w = searchlight::operator_windows("a or b", "OR");
    assert_eq!(w, vec![false, false, true, false, false, false]);
    assert_eq!(searchlight::split_marked("a or b", 2, &w), vec!["a".to_string(), "b".to_string()]);
    // A mark inside a word or inside quotes does not split.
    let w2 = vec![false, true, false, false];
    assert_eq!(searchlight::split_marked("corn", 2, &w2), vec!["corn".to_string()]);
    let w3 = searchlight::operator_windows("\"a or b\"", "OR");
    assert_eq!(searchlight::split_marked("\"a or b\"", 2, &w3), vec!["\"a or b\"".to_string()]);
}
