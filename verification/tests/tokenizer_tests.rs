use searchlight::{contains_chinese, tokenize, tokenize_chars, TokenKind};

#[test]
fn test_tokenize_chinese() {
    let text = "我爱北京天安门";
    let tokens = tokenize(text);
    let words: Vec<&str> = tokens.iter().map(|t| t.text.as_str()).collect();
    assert!(words.contains(&"北京"));
    assert!(words.contains(&"天安门"));
}

#[test]
fn test_tokenize_english() {
    let text = "Hello world from Rust";
    let tokens = tokenize(text);
    let words: Vec<&str> = tokens.iter().map(|t| t.text.as_str()).collect();
    assert_eq!(words, vec!["hello", "world", "from", "rust"]);
}

#[test]
fn test_tokenize_mixed() {
    let text = "Rust是一门现代编程语言";
    let tokens = tokenize(text);
    let words: Vec<&str> = tokens.iter().map(|t| t.text.as_str()).collect();
    assert!(words.contains(&"rust"));
    assert!(words.contains(&"编程语言"));
}

#[test]
fn test_contains_chinese() {
    assert!(contains_chinese("你好"));
    assert!(!contains_chinese("hello"));
    assert!(contains_chinese("hello你好"));
}

#[test]
fn tokens_carry_byte_offsets() {
    let text = "Rust 2024 编程";
    let tokens = tokenize(text);
    let rust = tokens.iter().find(|t| t.text == "rust").unwrap();
    assert_eq!((rust.start, rust.end), (0, 4));
    assert_eq!(rust.kind, TokenKind::English);
    let number = tokens.iter().find(|t| t.text == "2024").unwrap();
    assert_eq!((number.start, number.end), (5, 9));
    assert_eq!(number.kind, TokenKind::Number);
    let chinese = tokens.iter().find(|t| t.text == "编程").unwrap();
    assert_eq!(&text[chinese.start..chinese.end], "编程");
    assert_eq!(chinese.kind, TokenKind::Chinese);
}

#[test]
fn empty_and_blank_texts_have_no_tokens() {
    assert!(tokenize("").is_empty());
    assert!(tokenize("   \t\n").is_empty());
}

#[test]
fn char_tokens_are_one_per_character() {
    let tokens = tokenize_chars("Ab 中");
    let words: Vec<&str> = tokens.iter().map(|t| t.text.as_str()).collect();
    assert_eq!(words, vec!["a", "b", "中"]);
}

#[test]
fn ngrams_join_neighbouring_tokens() {
    let tokens = searchlight::tokenize_ngrams("rust web worker", 2);
    let words: Vec<&str> = tokens.iter().map(|t| t.text.as_str()).collect();
    assert_eq!(words, vec!["rust", "rustweb", "web", "webworker", "worker"]);
    assert!(searchlight::tokenize_ngrams("rust web", 0).is_empty());
}

#[test]
fn ngram_sizes_zero_and_above_eight() {
    let text = "a b c d e f g h i j k";
    assert!(searchlight::tokenize_ngrams(text, 0).is_empty());
    let eight: Vec<(usize, usize, String)> =
        searchlight::tokenize_ngrams(text, 8).into_iter().map(|t| (t.start, t.end, t.text)).collect();
    let twelve: Vec<(usize, usize, String)> =
        searchlight::tokenize_ngrams(text, 12).into_iter().map(|t| (t.start, t.end, t.text)).collect();
    assert_eq!(eight, twelve);
    for w in eight.windows(2) {
        assert!(w[0] < w[1]);
    }
}

#[test]
fn ngrams_of_size_one_are_the_tokens_and_counts_stay_linear() {
    let text = "Rust 北京是中国的首都 v2 !";
    let plain: Vec<(usize, usize, String)> = tokenize(text).into_iter().map(|t| (t.start, t.end, t.text)).collect();
    let ones: Vec<(usize, usize, String)> =
        searchlight::tokenize_ngrams(text, 1).into_iter().map(|t| (t.start, t.end, t.text)).collect();
    assert_eq!(plain, ones);
    assert!(plain.len() <= 5 * text.chars().count());
    for w in plain.windows(2) {
        assert!((w[0].0, w[0].1) < (w[1].0, w[1].1));
    }
    for (s, e, t) in &plain {
        assert!(s < e && *e <= text.len());
        assert!(!t.chars().any(char::is_whitespace));
    }
}

#[test]
fn ngrams_keep_every_plain_token() {
    let text = "rust web 北京是首都 42";
    let grams: Vec<(usize, usize, String)> =
        searchlight::tokenize_ngrams(text, 3).into_iter().map(|t| (t.start, t.end, t.text)).collect();
    for t in tokenize(text) {
        assert!(grams.contains(&(t.start, t.end, t.text.clone())));
    }
}

#[test]
fn maximal_runs_give_their_ngrams_and_every_character_is_covered() {
    let text = "ab北京是首都x";
    let toks = tokenize(text);
    // The run 北京是首都 spans bytes 2..17.
    let in_run: Vec<String> =
        toks.iter().filter(|t| t.start >= 2 && t.end <= 17).map(|t| t.text.clone()).collect();
    let run: Vec<char> = "北京是首都".chars().collect();
    let mut expected: Vec<String> = vec!["北京是首都".to_string()];
    for q in 0..run.len() {
        for r in q + 1..=run.len().min(q + 4) {
            expected.push(run[q..r].iter().collect());
        }
    }
    let mut got = in_run.clone();
    got.sort();
    expected.sort();
    assert_eq!(got, expected);
    for (i, c) in text.char_indices() {
        if !c.is_whitespace() {
            assert!(toks.iter().any(|t| t.start <= i && i + c.len_utf8() <= t.end));
        }
    }
}
