use searchlight::{pinyin_matches, PinyinConverter, PinyinIndex};

#[test]
fn test_to_plain_pinyin() {
    let pinyin = PinyinConverter::to_plain_pinyin("你好");
    assert!(!pinyin.is_empty());
    assert!(pinyin.contains("ni") || pinyin.contains("hao"));
}

#[test]
fn test_to_first_letters() {
    let initials = PinyinConverter::to_first_letters("北京");
    assert_eq!(initials, "bj");
}

#[test]
fn test_pinyin_index_search() {
    let mut idx = PinyinIndex::new();
    idx.add_term("北京");
    idx.add_term("背景");
    idx.add_term("上海");

    // Search by full pinyin
    let results = idx.search_by_pinyin("beijing");
    assert!(results.contains(&"北京".to_string()));
}

#[test]
fn test_pinyin_index_initials() {
    let mut idx = PinyinIndex::new();
    idx.add_term("北京");
    idx.add_term("背景");

    // Search by initials only
    let results = idx.search_by_pinyin("bj");
    assert!(results.contains(&"北京".to_string()));
    assert!(results.contains(&"背景".to_string()));
}

#[test]
fn test_pinyin_matches() {
    assert!(pinyin_matches("bei", "北京"));
    assert!(!pinyin_matches("shang", "北京"));
}

#[test]
fn plain_pinyin_separates_syllables_with_spaces() {
    assert_eq!(PinyinConverter::to_plain_pinyin("北京"), "bei jing");
    assert_eq!(PinyinConverter::to_plain_pinyin("abc"), "a b c");
}

#[test]
fn search_results_are_sorted_and_unique() {
    let mut idx = PinyinIndex::new();
    idx.add_term("背景");
    idx.add_term("北京");
    idx.add_term("北京");
    let results = idx.search_by_pinyin("bj");
    let mut sorted = results.clone();
    sorted.sort();
    sorted.dedup();
    assert_eq!(results, sorted);
    assert_eq!(results.len(), 2);
}

#[test]
fn empty_pinyin_query_finds_nothing() {
    let mut idx = PinyinIndex::new();
    idx.add_term("北京");
    assert!(idx.search_by_pinyin("   ").is_empty());
    assert!(!pinyin_matches("", "北京"));
}

#[test]
fn converter_gives_each_character_its_readings() {
    let tokens = PinyinConverter::to_pinyin("北京a");
    assert_eq!(tokens.len(), 3);
    assert_eq!(tokens[0].plain, "bei");
    assert_eq!(tokens[0].full, "bei3");
    assert_eq!(tokens[0].initial, "b");
    assert_eq!(tokens[1].plain, "jing");
    assert_eq!(tokens[1].full, "jing1");
    assert_eq!(tokens[2].plain, "a");
    assert_eq!(tokens[2].full, "a");
    assert_eq!(tokens[2].initial, "a");
    assert_eq!(PinyinConverter::to_full_pinyin("北京"), "bei3 jing1");
}

#[test]
fn converter_keeps_text_that_is_not_chinese() {
    assert_eq!(PinyinConverter::to_pinyin("abc").len(), 3);
    assert!(PinyinConverter::to_pinyin("ab北").len() > PinyinConverter::to_pinyin("北").len());
    assert_eq!(PinyinConverter::to_plain_pinyin("北京 ok"), "bei jing o k");
    assert_eq!(PinyinConverter::to_first_letters("北京 ok"), "bjok");
    assert!(PinyinConverter::to_pinyin(" \t").is_empty());
}

#[test]
fn build_from_terms_adds_every_term() {
    let mut idx = PinyinIndex::new();
    idx.build_from_terms(&["北京".to_string(), "上海".to_string()]);
    assert!(idx.search_by_pinyin("shanghai").contains(&"上海".to_string()));
    assert!(idx.search_by_pinyin("beijing").contains(&"北京".to_string()));
}

#[test]
fn detailed_search_reports_the_matched_spelling() {
    let mut idx = PinyinIndex::new();
    idx.add_term("北京");
    let detailed = idx.search_by_pinyin_detailed("bei");
    assert_eq!(detailed, vec![("北京".to_string(), "beijing".to_string())]);
    assert!(idx.search_by_pinyin_detailed("").is_empty());
}

#[test]
fn adding_a_term_twice_changes_nothing_and_it_is_found() {
    let mut once = PinyinIndex::new();
    once.add_term("北京");
    let mut twice = PinyinIndex::new();
    twice.add_term("北京");
    twice.add_term("北京");
    for q in ["bei", "beijing", "bj", "b", "BeiJing", "bei jing"] {
        assert_eq!(once.search_by_pinyin(q), twice.search_by_pinyin(q));
        assert!(once.search_by_pinyin(q).contains(&"北京".to_string()), "{}", q);
    }
}

#[test]
fn detailed_search_names_each_term_once_with_a_matching_spelling() {
    let mut idx = PinyinIndex::new();
    for t in ["北京", "背景", "北京市", "上海"] {
        idx.add_term(t);
    }
    let d = idx.search_by_pinyin_detailed("jing");
    assert!(!d.is_empty());
    for (i, (term, spelling)) in d.iter().enumerate() {
        assert!(spelling.contains("jing"));
        assert!(d[i + 1..].iter().all(|(t, _)| t != term));
    }
}

#[test]
fn normalized_search_finds_exactly_the_added_terms_that_start_with_it() {
    let mut idx = PinyinIndex::new();
    for t in ["北京", "背景", "上海", "北京"] {
        idx.add_term(t);
    }
    assert_eq!(idx.search_normalized("bj"), vec!["北京".to_string(), "背景".to_string()]);
    assert_eq!(idx.search_normalized("beijing"), vec!["北京".to_string(), "背景".to_string()]);
    assert_eq!(idx.search_normalized("shang"), vec!["上海".to_string()]);
    assert!(idx.search_normalized("").is_empty());
    assert_eq!(idx.search_by_pinyin("Bei Jing"), idx.search_normalized("beijing"));
    let plain: String = PinyinConverter::to_plain_pinyin("上海").replace(' ', "");
    assert!(idx.search_normalized(&plain).contains(&"上海".to_string()));
    let d = idx.search_normalized_detailed("jing");
    assert_eq!(d, vec![("北京".to_string(), "beijing".to_string()), ("背景".to_string(), "beijing".to_string())]);
}
