use searchlight::{
    explain_document, ExecutorContext, ExecutorLimits, InvertedIndex, MatchReason, PinyinIndex, QueryParser,
    SearchOptions,
};

fn explain(query: &str, doc_id: usize) -> Vec<MatchReason> {
    let mut index = InvertedIndex::new();
    index.add_document("Rust and Python are great");
    index.add_document("Python only");

    let parser = QueryParser::new();
    let parsed = parser.parse(query);
    let options = SearchOptions::default();
    let pinyin_index = PinyinIndex::new();
    let ctx = ExecutorContext {
        index: &index,
        pinyin_index: &pinyin_index,
        index_generation: 0,
        options: &options,
        parsed: &parsed,
        query,
        limits: ExecutorLimits::default(),
    };
    explain_document(&ctx, &parsed.root, doc_id)
}

#[test]
fn test_explain_and() {
    let reasons = explain("Rust AND Python", 0);
    assert!(reasons.iter().any(|r| r.code == "and"));
    assert!(reasons.iter().any(|r| r.code == "term"));
}

#[test]
fn test_explain_phrase() {
    let mut index = InvertedIndex::new();
    index.add_document("I love rust programming");
    let parser = QueryParser::new();
    let parsed = parser.parse("\"rust programming\"");
    let options = SearchOptions::default();
    let pinyin_index = PinyinIndex::new();
    let ctx = ExecutorContext {
        index: &index,
        pinyin_index: &pinyin_index,
        index_generation: 0,
        options: &options,
        parsed: &parsed,
        query: "\"rust programming\"",
        limits: ExecutorLimits::default(),
    };
    let reasons = explain_document(&ctx, &parsed.root, 0);
    assert!(reasons.iter().any(|r| r.code == "phrase"));
}

#[test]
fn explain_lists_reasons_in_query_order() {
    let reasons = explain("Rust AND Python", 0);
    let codes: Vec<&str> = reasons.iter().map(|r| r.code.as_str()).collect();
    assert_eq!(codes, vec!["and", "term", "term"]);
    assert_eq!(reasons[0].message, "document satisfies AND of 2 clauses");
    assert_eq!(reasons[1].message, "document contains term 'rust'");
    assert_eq!(reasons[2].terms, vec!["python".to_string()]);
}

#[test]
fn explain_reports_exclusions() {
    let reasons = explain("python -rust", 1);
    let codes: Vec<&str> = reasons.iter().map(|r| r.code.as_str()).collect();
    assert_eq!(codes, vec!["and", "term", "not"]);
    assert_eq!(reasons[2].message, "document does not match excluded terms: rust");
}

#[test]
fn no_reasons_for_a_document_that_does_not_match() {
    assert!(explain("Rust AND Python", 1).is_empty());
    assert!(explain("Rust", 5).is_empty());
}

#[test]
fn reason_builders_write_their_messages() {
    assert_eq!(MatchReason::term("x").message, "document contains term 'x'");
    let f = MatchReason::fuzzy("helo", "hello");
    assert_eq!(f.code, "fuzzy");
    assert_eq!(f.message, "fuzzy match: 'helo' matched index term 'hello'");
    let p = MatchReason::phrase(&["a".to_string(), "b".to_string()]);
    assert_eq!(p.message, "document contains consecutive phrase 'a b'");
    assert_eq!(MatchReason::prefix("pro", &["program".to_string()]).message, "document matches prefix 'pro'");
    let c = MatchReason::char_match(&['中', '文']);
    assert_eq!(c.message, "document contains characters: 中, 文");
    assert_eq!(c.terms, vec!["中".to_string(), "文".to_string()]);
    assert_eq!(MatchReason::and_clause(12).message, "document satisfies AND of 12 clauses");
    assert_eq!(MatchReason::or_clause().message, "document satisfies at least one OR branch");
    assert_eq!(
        MatchReason::not_excluded(&["a".to_string(), "b".to_string()]).message,
        "document does not match excluded terms: a, b"
    );
    assert_eq!(MatchReason::pinyin("bj").message, "document matched pinyin input 'bj'");
    let n = MatchReason::new("c".to_string(), "m".to_string(), vec![]);
    assert_eq!((n.code.as_str(), n.message.as_str()), ("c", "m"));
}

#[test]
fn reasons_exactly_for_matching_documents_each_once() {
    assert!(explain("Rust", 1).is_empty());
    assert!(explain("Rust", 9).is_empty());
    for q in ["Rust", "Python", "Rust OR Python", "python NOT rust", "pyth*", "Rust Rust"] {
        for id in [0, 1] {
            let reasons = explain(q, id);
            for (i, a) in reasons.iter().enumerate() {
                for b in &reasons[i + 1..] {
                    assert!(!(a.code == b.code && a.message == b.message), "{} {}", q, id);
                }
            }
        }
    }
    assert!(!explain("Rust OR Python", 1).is_empty());
    assert!(!explain("python NOT rust", 1).is_empty());
    assert!(explain("python NOT rust", 0).is_empty());
}
