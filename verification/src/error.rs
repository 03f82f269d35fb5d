//! The errors of the search engine.
use vstd::prelude::*;

verus! {

/// Unified error type for searchlight operations.
#[derive(Debug, Clone, PartialEq, Eq)]
pub enum SearchlightError {
    /// The query has more characters than allowed.
    QueryTooLong { max: usize, actual: usize },
    /// The query names more terms than allowed.
    TooManyTerms { max: usize },
    /// No document has the given id.
    DocumentNotFound { doc_id: usize },
    /// The index holds no document.
    IndexEmpty,
    /// The search options are not usable.
    InvalidOptions(String),
}

impl SearchlightError {
    /// The message of the error, as its `Display` shows it.
    pub fn message(&self) -> (r: String)
        ensures
            match self {
                SearchlightError::QueryTooLong { max, actual } => r@ == "query exceeds maximum length of "@
                    + crate::text::decimal_spec(*max as nat) + " characters (got "@ + crate::text::decimal_spec(
                    *actual as nat,
                ) + ")"@,
                SearchlightError::TooManyTerms { max } => r@ == "query contains too many terms (max "@
                    + crate::text::decimal_spec(*max as nat) + ")"@,
                SearchlightError::DocumentNotFound { doc_id } => r@ == "document "@ + crate::text::decimal_spec(
                    *doc_id as nat,
                ) + " not found in index"@,
                SearchlightError::IndexEmpty => r@ == "index is empty"@,
                SearchlightError::InvalidOptions(s) => r@ == "invalid search options: "@ + s@,
            },
    {
        match self {
            SearchlightError::QueryTooLong { max, actual } => {
                let mut r = "query exceeds maximum length of ".to_owned();
                crate::text::push_decimal(&mut r, *max);
                r.append(" characters (got ");
                crate::text::push_decimal(&mut r, *actual);
                r.append(")");
                r
            },
            SearchlightError::TooManyTerms { max } => {
                let mut r = "query contains too many terms (max ".to_owned();
                crate::text::push_decimal(&mut r, *max);
                r.append(")");
                r
            },
            SearchlightError::DocumentNotFound { doc_id } => {
                let mut r = "document ".to_owned();
                crate::text::push_decimal(&mut r, *doc_id);
                r.append(" not found in index");
                r
            },
            SearchlightError::IndexEmpty => "index is empty".to_owned(),
            SearchlightError::InvalidOptions(s) => {
                let mut r = "invalid search options: ".to_owned();
                r.append(s.as_str());
                r
            },
        }
    }
}

} // verus!
