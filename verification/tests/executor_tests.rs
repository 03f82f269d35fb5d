use searchlight::{
    ExecutorContext, ExecutorLimits, InvertedIndex, PinyinIndex, QueryExecutor, QueryParser, SearchOptions,
};

struct Fixture {
    index: InvertedIndex,
    pinyin_index: PinyinIndex,
}

impl Fixture {
    fn new() -> Self {
        Fixture { index: InvertedIndex::new(), pinyin_index: PinyinIndex::new() }
    }

    fn index(&mut self, text: &str) {
        self.index.add_document(text);
    }

    fn eval(&self, query: &str, options: SearchOptions) -> Vec<usize> {
        let parser = QueryParser::new();
        let parsed = parser.parse(query);
        let ctx = ExecutorContext {
            index: &self.index,
            pinyin_index: &self.pinyin_index,
            index_generation: 0,
            options: &options,
            parsed: &parsed,
            query,
            limits: ExecutorLimits::default(),
        };
        QueryExecutor::evaluate(&ctx, &parsed.root).candidates
    }
}

#[test]
fn test_and_intersection() {
    let mut fx = Fixture::new();
    fx.index("Rust and Python are great");
    fx.index("Python is easy");
    fx.index("Rust is memory safe");

    assert_eq!(fx.eval("Rust AND Python", SearchOptions::default()).len(), 1);
}

#[test]
fn test_or_union() {
    let mut fx = Fixture::new();
    fx.index("only rust here");
    fx.index("only python here");

    assert_eq!(fx.eval("rust OR python", SearchOptions::default()).len(), 2);
}

#[test]
fn test_not_exclusion() {
    let mut fx = Fixture::new();
    fx.index("rust programming");
    fx.index("python programming");

    assert_eq!(fx.eval("programming -python", SearchOptions::default()).len(), 1);
}

#[test]
fn test_phrase_consecutive() {
    let mut fx = Fixture::new();
    fx.index("I love rust programming");
    fx.index("rust is great for programming");

    assert_eq!(fx.eval("\"rust programming\"", SearchOptions::default()).len(), 1);
}

#[test]
fn test_implicit_and_multi_term() {
    let mut fx = Fixture::new();
    fx.index("hello world");
    fx.index("hello there");
    fx.index("world alone");

    assert_eq!(fx.eval("hello world", SearchOptions::default()).len(), 1);
}

#[test]
fn candidates_are_ascending_ids() {
    let mut fx = Fixture::new();
    fx.index("rust one");
    fx.index("nothing");
    fx.index("rust two");
    assert_eq!(fx.eval("rust", SearchOptions::default()), vec![0, 2]);
    assert_eq!(fx.eval("NOT rust", SearchOptions::default()), Vec::<usize>::new());
}

#[test]
fn fuzzy_terms_expand_to_index_terms() {
    let mut fx = Fixture::new();
    fx.index("programming in Rust");
    fx.index("writing Python code");
    let options = SearchOptions { fuzzy: true, ..SearchOptions::default() };
    let parser = QueryParser::new();
    let parsed = parser.parse("programing");
    let ctx = ExecutorContext {
        index: &fx.index,
        pinyin_index: &fx.pinyin_index,
        index_generation: 0,
        options: &options,
        parsed: &parsed,
        query: "programing",
        limits: ExecutorLimits::default(),
    };
    let evaluation = QueryExecutor::evaluate(&ctx, &parsed.root);
    assert_eq!(evaluation.candidates, vec![0]);
    assert_eq!(evaluation.fuzzy_terms, vec!["programming".to_string()]);
    assert!(QueryExecutor::document_matches(&ctx, &parsed.root, 0));
    assert!(!QueryExecutor::document_matches(&ctx, &parsed.root, 1));
    // without fuzzy matching the misspelling finds nothing
    assert!(fx.eval("programing", SearchOptions::default()).is_empty());
}

#[test]
fn prefix_and_limits() {
    let mut fx = Fixture::new();
    for i in 0..5 {
        fx.index(&format!("programming item{}", i));
    }
    assert_eq!(fx.eval("prog*", SearchOptions::default()).len(), 5);
    let parser = QueryParser::new();
    let parsed = parser.parse("programming");
    let options = SearchOptions::default();
    let limits = ExecutorLimits { max_candidates: 2, ..ExecutorLimits::default() };
    let ctx = ExecutorContext {
        index: &fx.index,
        pinyin_index: &fx.pinyin_index,
        index_generation: 0,
        options: &options,
        parsed: &parsed,
        query: "programming",
        limits,
    };
    assert_eq!(QueryExecutor::evaluate(&ctx, &parsed.root).candidates, vec![0, 1]);
}

#[test]
fn pinyin_candidates_follow_the_dictionary() {
    let mut fx = Fixture::new();
    fx.index("我爱北京");
    fx.index("上海");
    fx.pinyin_index.add_term("北京");
    let options = SearchOptions::default();
    let parser = QueryParser::new();
    let parsed = parser.parse("beijing");
    let ctx = ExecutorContext {
        index: &fx.index,
        pinyin_index: &fx.pinyin_index,
        index_generation: 0,
        options: &options,
        parsed: &parsed,
        query: "beijing",
        limits: ExecutorLimits::default(),
    };
    assert_eq!(QueryExecutor::pinyin_candidates(&ctx, "beijing"), vec![0]);
}

#[test]
fn no_fuzzy_terms_without_fuzzy_matching() {
    let mut fx = Fixture::new();
    fx.index("programming in Rust");
    let options = SearchOptions::default();
    let parser = QueryParser::new();
    let parsed = parser.parse("programing OR rust NOT python");
    let ctx = ExecutorContext {
        index: &fx.index,
        pinyin_index: &fx.pinyin_index,
        index_generation: 0,
        options: &options,
        parsed: &parsed,
        query: "programing OR rust NOT python",
        limits: ExecutorLimits::default(),
    };
    let ev = QueryExecutor::evaluate(&ctx, &parsed.root);
    assert!(ev.fuzzy_terms.is_empty());
    assert_eq!(ev.candidates, vec![0]);
}

#[test]
fn evaluation_follows_the_set_laws() {
    let mut fx = Fixture::new();
    fx.index("rust web");
    fx.index("python web");
    fx.index("rust cli");
    let o = SearchOptions::default();
    assert_eq!(fx.eval("rust", o.clone()), vec![0, 2]);
    assert_eq!(fx.eval("web", o.clone()), vec![0, 1]);
    assert_eq!(fx.eval("rust AND web", o.clone()), vec![0]);
    assert_eq!(fx.eval("rust OR python", o.clone()), vec![0, 1, 2]);
    assert_eq!(fx.eval("web -rust", o.clone()), vec![1]);
    assert_eq!(fx.eval("-rust", o.clone()), Vec::<usize>::new());
}
