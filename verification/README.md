# searchlight

Full-text search over mixed Chinese and English documents, written in Verus.

The library under `src/` is verified: every public function states its result in
`ensures` over mathematical models (`Seq`, `Set`, `int`), and Verus proves each body
against its contract.

| module | what it holds |
| --- | --- |
| `tokenizer` | Chinese n-gram / English / number / symbol tokenizer with byte offsets |
| `index` | inverted index: documents in id order, term dictionary, posting lists, statistics |
| `query` | the query language (`AND`, `+term`, `OR`, `NOT`, `-term`, `"phrases"`, `term~2`, `prefix*`, `pinyin:`) |
| `executor` | boolean evaluation of a query tree over the documents |
| `fuzzy` | Levenshtein and Damerau–Levenshtein distances, ranked fuzzy candidates |
| `pinyin` | pinyin conversion (through the `pinyin` crate) and a pinyin-to-term dictionary |
| `highlighter` | merging match spans and marking them in the document text |
| `explain` | the reasons a document matches a query |
| `engine` | the search engine: indexing, retrieval of candidates, suggestions |
| `rank` | the counts relevance ranking is computed from |
| `text`, `error` | string helpers; error values |

Laws that span several operations are public proof functions, for example
`index::lemma_remove_after_add`, `index::lemma_read_after_add`,
`executor::lemma_boolean_semantics`, `executor::lemma_evaluation_sets`,
`executor::lemma_candidates_without_truncation`,
`tokenizer::lemma_tokens_cut_from_text`, `tokenizer::lemma_tokens_ordered`,
`tokenizer::lemma_tokenize_runs`, `tokenizer::lemma_tokens_cover_text`,
`tokenizer::lemma_chinese_run_tokens`, `tokenizer::lemma_token_texts_without_whitespace`,
`tokenizer::lemma_token_count_linear`, `tokenizer::lemma_ngram_laws`,
`tokenizer::lemma_ngrams_of_size_one`, `tokenizer::lemma_ngrams_keep_tokens`,
`explain::lemma_explain_laws`, `query::lemma_split_operator_marked`,
`fuzzy::lemma_lev_triangle`, `fuzzy::lemma_damerau_laws`, `fuzzy::lemma_damerau_symmetric`,
`fuzzy::lemma_damerau_len_diff`, `fuzzy::lemma_fuzzy_candidates_laws`,
`pinyin::lemma_add_term_idempotent`, `pinyin::lemma_add_term_laws`,
`pinyin::lemma_search_after_adds`, `pinyin::lemma_search_by_pinyin_after_adds`,
`pinyin::lemma_detailed_after_adds`, `pinyin::lemma_detailed_search`,
`pinyin::lemma_sorted_unique` and `engine::lemma_suggestions`.

`app/` holds what Verus does not check: floating-point relevance scoring (BM25 and its
bonuses), the LRU result caches, the search entry points that rank and cache results, the
`Display` of errors (thiserror) and the WebAssembly bindings (wasm-bindgen, serde).
