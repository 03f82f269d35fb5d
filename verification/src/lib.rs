//! Searchlight: full-text search over mixed Chinese and English documents.
//!
//! Tokenizing, the inverted index, the query language, boolean evaluation, fuzzy and
//! pinyin matching, highlighting and match explanations, each with its specification.
pub mod engine;
pub mod error;
pub mod executor;
pub mod explain;
pub mod fuzzy;
pub mod highlighter;
pub mod index;
pub mod pinyin;
pub mod query;
pub mod rank;
pub mod text;
pub mod tokenizer;

pub use engine::{add_source_doc, is_related_suggestion_term, Retrieval, SearchEngine, SearchOptions};
pub use error::SearchlightError;
pub use executor::{ExecutorContext, ExecutorLimits, QueryEvaluation, QueryExecutor};
pub use explain::{explain_document, MatchReason};
pub use fuzzy::{damerau_levenshtein, fuzzy_match_candidates, is_fuzzy_match, levenshtein_distance, FuzzyCandidate};
pub use highlighter::{Highlighter, HighlighterConfig, Snippet};
pub use index::{InvertedIndex, TermPosition, TermStats};
pub use pinyin::{pinyin_matches, PinyinConverter, PinyinIndex, PinyinToken};
pub use query::{operator_windows, split_marked, ParsedQuery, QueryOp, QueryParser};
pub use rank::{Hit, ScoringInput};
pub use tokenizer::{contains_chinese, tokenize, tokenize_chars, tokenize_ngrams, Token, TokenKind};
