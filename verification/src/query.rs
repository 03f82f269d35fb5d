//! Query language: parsing a query string into an operation tree.
use vstd::prelude::*;

use crate::text::{
    all_ascii_digits, decimal_value, trim_start_seq, unsigned_digits, chars_of, find_char, first_index_of, last_index_of, parse_usize_chars, parse_usize_spec,
    rfind_char, slice_chars, starts_with_seq, str_to_uppercase, string_from_chars, string_from_range, strings_view, trim_range,
    trim_seq, trim_str, unicode_uppercase,
};
use crate::tokenizer::{
    chinese_code_point, is_chinese_char, is_whitespace_char, tokenize, tokenize_spec, Token,
    TokenModel, whitespace_code_point,
};

verus! {

/// Represents different types of query operations
#[derive(Debug, PartialEq)]
pub enum QueryOp {
    /// Match a single term exactly
    Term(String),
    /// Match a phrase (sequence of terms in order)
    Phrase(Vec<String>),
    /// Fuzzy match with edit distance tolerance
    Fuzzy(String, usize),
    /// Prefix match (autocomplete style)
    Prefix(String),
    /// Match Chinese characters (individual char matching)
    CharMatch(Vec<char>),
    /// AND of multiple query ops
    And(Vec<QueryOp>),
    /// OR of multiple query ops
    Or(Vec<QueryOp>),
    /// NOT (exclude) a query op
    Not(Box<QueryOp>),
}

/// The mathematical value of a query operation.
pub enum QueryModel {
    Term(Seq<char>),
    Phrase(Seq<Seq<char>>),
    Fuzzy(Seq<char>, int),
    Prefix(Seq<char>),
    CharMatch(Seq<char>),
    And(Seq<QueryModel>),
    Or(Seq<QueryModel>),
    Not(Box<QueryModel>),
}

impl QueryOp {
    pub open spec fn model(self) -> QueryModel
        decreases self,
    {
        match self {
            QueryOp::Term(t) => QueryModel::Term(t@),
            QueryOp::Phrase(ts) => QueryModel::Phrase(strings_view(ts@)),
            QueryOp::Fuzzy(t, d) => QueryModel::Fuzzy(t@, d as int),
            QueryOp::Prefix(t) => QueryModel::Prefix(t@),
            QueryOp::CharMatch(cs) => QueryModel::CharMatch(cs@),
            QueryOp::And(cs) => QueryModel::And(
                Seq::new(cs@.len(), |i: int| if 0 <= i < cs@.len() { cs@[i].model() } else { QueryModel::And(Seq::empty()) }),
            ),
            QueryOp::Or(cs) => QueryModel::Or(
                Seq::new(cs@.len(), |i: int| if 0 <= i < cs@.len() { cs@[i].model() } else { QueryModel::And(Seq::empty()) }),
            ),
            QueryOp::Not(b) => QueryModel::Not(Box::new((*b).model())),
        }
    }
}


pub open spec fn models(v: Seq<QueryOp>) -> Seq<QueryModel> {
    v.map_values(|o: QueryOp| o.model())
}

pub proof fn lemma_and_model(v: Vec<QueryOp>)
    ensures
        QueryOp::And(v).model() == QueryModel::And(models(v@)),
        QueryOp::Or(v).model() == QueryModel::Or(models(v@)),
{
    assert(QueryOp::And(v).model()->And_0 =~= models(v@));
    assert(QueryOp::Or(v).model()->Or_0 =~= models(v@));
}

/// Parsed query with associated metadata
#[derive(Debug)]
pub struct ParsedQuery {
    /// The root query operation
    pub root: QueryOp,
    /// Original query string
    pub original: String,
    /// Whether pinyin matching is requested
    pub use_pinyin: bool,
    /// Maximum edit distance for fuzzy matches
    pub max_edit_distance: usize,
}

/// Query parser for the search engine.
/// Supports:
/// - Simple term queries: `hello world`
/// - Phrase queries: `"exact phrase"`
/// - Boolean AND: `hello AND world` or `+hello +world`
/// - Boolean OR: `hello OR world`
/// - Boolean NOT: `-exclude` or `NOT exclude`
/// - Fuzzy queries: `term~` or `term~2`
/// - Prefix queries: `prefix*`
/// - Pinyin flag: `pinyin:ni hao` or `py:你好`
pub struct QueryParser {
    default_fuzzy_distance: usize,
}

// ==================== the query language ====================

pub open spec fn empty_and() -> QueryModel {
    QueryModel::And(Seq::<QueryModel>::empty())
}

/// The token texts of `s`.
#[verifier::opaque]
pub open spec fn token_texts(s: Seq<char>) -> Seq<Seq<char>> {
    tokenize_spec(s).map_values(|t: TokenModel| t.text)
}

pub open spec fn term_ops(ts: Seq<Seq<char>>) -> Seq<QueryModel> {
    ts.map_values(|t: Seq<char>| QueryModel::Term(t))
}

pub open spec fn fuzzy_ops(ts: Seq<Seq<char>>, d: int) -> Seq<QueryModel> {
    ts.map_values(|t: Seq<char>| QueryModel::Fuzzy(t, d))
}

pub open spec fn prefix_ops(ts: Seq<Seq<char>>) -> Seq<QueryModel> {
    ts.map_values(|t: Seq<char>| QueryModel::Prefix(t))
}

/// `s` without its whitespace.
pub open spec fn non_whitespace(s: Seq<char>) -> Seq<char>
    decreases s.len(),
{
    if s.len() == 0 {
        s
    } else if whitespace_code_point(s.last()) {
        non_whitespace(s.drop_last())
    } else {
        non_whitespace(s.drop_last()).push(s.last())
    }
}

/// `term~` / `term~N` (with `t` trimmed and `idx` its last `~`): fuzzy terms at the given
/// distance (capped at 3), the default distance when none or no number is given.
#[verifier::opaque]
pub open spec fn fuzzy_term_model(t: Seq<char>, idx: int, default_distance: int) -> QueryModel {
    let digits = t.skip(idx + 1);
    let d = if digits.len() == 0 {
        default_distance
    } else {
        match parse_usize_spec(digits) {
            Some(v) => v,
            None => default_distance,
        }
    };
    let dm = if d < 3 {
        d
    } else {
        3
    };
    let toks = token_texts(t.take(idx));
    if toks.len() == 1 {
        QueryModel::Fuzzy(toks[0], dm)
    } else {
        QueryModel::And(fuzzy_ops(toks, dm))
    }
}

/// `prefix*`: prefix terms.
#[verifier::opaque]
pub open spec fn prefix_term_model(p: Seq<char>) -> QueryModel {
    let toks = token_texts(p);
    if toks.len() == 1 {
        QueryModel::Prefix(toks[0])
    } else {
        QueryModel::And(prefix_ops(toks))
    }
}

/// Plain words: one term, the AND of the terms, or, for Chinese text of two or more tokens,
/// the OR of that AND and a match of all its non-space characters.
#[verifier::opaque]
pub open spec fn word_term_model(t: Seq<char>) -> QueryModel {
    let toks = token_texts(t);
    let has_chinese = exists|k: int| 0 <= k < t.len() && chinese_code_point(#[trigger] t[k]);
    if has_chinese && toks.len() >= 2 && non_whitespace(t).len() >= 2 {
        QueryModel::Or(seq![QueryModel::And(term_ops(toks)), QueryModel::CharMatch(non_whitespace(t))])
    } else if toks.len() == 1 {
        QueryModel::Term(toks[0])
    } else {
        QueryModel::And(term_ops(toks))
    }
}

/// A single term with its modifiers (`~`, `~N`, `*`).
#[verifier::opaque]
pub open spec fn parse_term_spec(input: Seq<char>, default_distance: int) -> QueryModel {
    let t = trim_seq(input);
    if t.len() == 0 {
        empty_and()
    } else if last_index_of(t, '~') is Some && last_index_of(t, '~')->0 > 0 {
        fuzzy_term_model(t, last_index_of(t, '~')->0, default_distance)
    } else if t.last() == '*' && t.len() > 1 {
        prefix_term_model(t.drop_last())
    } else {
        word_term_model(t)
    }
}

/// The end of the current part when an operator or the end of the input is reached.
pub open spec fn finish_part(parts: Seq<Seq<char>>, current: Seq<char>) -> Seq<Seq<char>> {
    if trim_seq(current).len() > 0 {
        parts.push(trim_seq(current))
    } else {
        parts
    }
}

/// Whether the operator word `op` (any case) stands alone at `s[i..]`.
pub open spec fn operator_at(s: Seq<char>, i: int, op: Seq<char>) -> bool {
    &&& i + op.len() <= s.len()
    &&& unicode_uppercase(s.subrange(i, i + op.len())) == unicode_uppercase(op)
    &&& (i == 0 || whitespace_code_point(s[i - 1]))
    &&& (i + op.len() >= s.len() || whitespace_code_point(s[i + op.len()]))
}

/// Splitting `s[i..]` at the operator word `op`, outside double quotes, given the part read so
/// far and the parts already cut.
pub open spec fn split_scan(
    s: Seq<char>,
    op: Seq<char>,
    i: int,
    in_quote: bool,
    current: Seq<char>,
    parts: Seq<Seq<char>>,
) -> Seq<Seq<char>>
    decreases s.len() - i,
{
    if i < 0 || i >= s.len() || op.len() == 0 {
        finish_part(parts, current)
    } else if s[i] == '"' {
        split_scan(s, op, i + 1, !in_quote, current.push(s[i]), parts)
    } else if !in_quote && operator_at(s, i, op) {
        split_scan(s, op, i + op.len(), in_quote, Seq::<char>::empty(), finish_part(parts, current))
    } else {
        split_scan(s, op, i + 1, in_quote, current.push(s[i]), parts)
    }
}

/// The trimmed, non-empty parts of `s` between occurrences of `op`; all of `s` when there is
/// no such part.
#[verifier::opaque]
pub open spec fn split_operator_spec(s: Seq<char>, op: Seq<char>) -> Seq<Seq<char>> {
    let parts = split_scan(s, op, 0, false, Seq::<char>::empty(), Seq::<Seq<char>>::empty());
    if parts.len() == 0 {
        seq![s]
    } else {
        parts
    }
}

/// For each position of `s`, whether the window of `op.len()` characters there, upper-cased,
/// equals `op` upper-cased.
pub open spec fn op_windows(s: Seq<char>, op: Seq<char>) -> Seq<bool> {
    Seq::new(
        s.len(),
        |i: int| i + op.len() <= s.len() && unicode_uppercase(s.subrange(i, i + op.len())) == unicode_uppercase(op),
    )
}

/// Whether an operator word of `n` characters stands alone at `s[i..]`, where `w` marks the
/// positions whose window equals the operator.
pub open spec fn marked_operator_at(s: Seq<char>, n: int, w: Seq<bool>, i: int) -> bool {
    &&& 0 <= i < w.len()
    &&& w[i]
    &&& i + n <= s.len()
    &&& (i == 0 || whitespace_code_point(s[i - 1]))
    &&& (i + n >= s.len() || whitespace_code_point(s[i + n]))
}

/// Splitting `s[i..]` at the operator words of `n` characters that `w` marks, outside double
/// quotes, given the part read so far and the parts already cut.
pub open spec fn split_scan_marked(
    s: Seq<char>,
    n: int,
    w: Seq<bool>,
    i: int,
    in_quote: bool,
    current: Seq<char>,
    parts: Seq<Seq<char>>,
) -> Seq<Seq<char>>
    decreases s.len() - i,
{
    if i < 0 || i >= s.len() || n <= 0 {
        finish_part(parts, current)
    } else if s[i] == '"' {
        split_scan_marked(s, n, w, i + 1, !in_quote, current.push(s[i]), parts)
    } else if !in_quote && marked_operator_at(s, n, w, i) {
        split_scan_marked(s, n, w, i + n, in_quote, Seq::<char>::empty(), finish_part(parts, current))
    } else {
        split_scan_marked(s, n, w, i + 1, in_quote, current.push(s[i]), parts)
    }
}

/// The trimmed, non-empty parts of `s` between the marked operator words of `n` characters
/// that stand alone outside double quotes; all of `s` when there is no such part.
pub open spec fn split_marked_spec(s: Seq<char>, n: int, w: Seq<bool>) -> Seq<Seq<char>> {
    let parts = split_scan_marked(s, n, w, 0, false, Seq::<char>::empty(), Seq::<Seq<char>>::empty());
    if parts.len() == 0 {
        seq![s]
    } else {
        parts
    }
}

proof fn lemma_split_scan_marked(
    s: Seq<char>,
    op: Seq<char>,
    i: int,
    in_quote: bool,
    current: Seq<char>,
    parts: Seq<Seq<char>>,
)
    ensures
        split_scan(s, op, i, in_quote, current, parts) == split_scan_marked(
            s,
            op.len() as int,
            op_windows(s, op),
            i,
            in_quote,
            current,
            parts,
        ),
    decreases s.len() - i,
{
    if 0 <= i < s.len() && op.len() > 0 {
        assert(operator_at(s, i, op) == marked_operator_at(s, op.len() as int, op_windows(s, op), i));
        if s[i] == '"' {
            lemma_split_scan_marked(s, op, i + 1, !in_quote, current.push(s[i]), parts);
        } else if !in_quote && operator_at(s, i, op) {
            lemma_split_scan_marked(s, op, i + op.len(), in_quote, Seq::<char>::empty(), finish_part(parts, current));
        } else {
            lemma_split_scan_marked(s, op, i + 1, in_quote, current.push(s[i]), parts);
        }
    }
}

/// Splitting at an operator word is splitting at the marks of its upper-cased windows.
pub proof fn lemma_split_operator_marked(s: Seq<char>, op: Seq<char>)
    ensures
        split_operator_spec(s, op) == split_marked_spec(s, op.len() as int, op_windows(s, op)),
{
    reveal(split_operator_spec);
    lemma_split_scan_marked(s, op, 0, false, Seq::<char>::empty(), Seq::<Seq<char>>::empty());
}

pub open spec fn space_dash_at(s: Seq<char>, k: int) -> bool {
    0 <= k && k + 1 < s.len() && s[k] == ' ' && s[k + 1] == '-'
}

/// Index of the first ` -` in `s`, if any.
pub open spec fn first_space_dash(s: Seq<char>) -> Option<int> {
    if exists|k: int| #[trigger] space_dash_at(s, k) {
        Some(
            choose|k: int|
                #[trigger] space_dash_at(s, k) && forall|j: int| 0 <= j < k ==> !space_dash_at(s, j),
        )
    } else {
        None
    }
}

/// Whether a word starts at `s[i]`: at the start of `s` or after whitespace.
pub open spec fn word_start(s: Seq<char>, i: int) -> bool {
    i == 0 || (0 < i <= s.len() && whitespace_code_point(s[i - 1]))
}

/// Whether the word `NOT`, with whitespace after it, stands at `s[i]`.
pub open spec fn not_word_at(s: Seq<char>, i: int) -> bool {
    &&& word_start(s, i)
    &&& 0 <= i && i + 3 < s.len()
    &&& s[i] == 'N' && s[i + 1] == 'O' && s[i + 2] == 'T'
    &&& whitespace_code_point(s[i + 3])
}

/// `s[i..]` with its prefix operators written in the form the AND-part reader takes: a `+`
/// that starts a word (a required term) is dropped, since every term of an AND-part is
/// required, and the word `NOT` becomes ` -` (an exclusion, as `-term`).
pub open spec fn mark_operators(s: Seq<char>, i: int) -> Seq<char>
    decreases s.len() - i,
{
    if i < 0 || i >= s.len() {
        Seq::empty()
    } else if s[i] == '+' && word_start(s, i) {
        mark_operators(s, i + 1)
    } else if not_word_at(s, i) {
        seq![' ', '-'] + mark_operators(s, i + 3)
    } else {
        seq![s[i]] + mark_operators(s, i + 1)
    }
}

/// An AND-part as it is read: trimmed, prefix operators written out, trimmed again.
pub open spec fn and_part_text(p: Seq<char>) -> Seq<char> {
    trim_seq(mark_operators(trim_seq(p), 0))
}

/// The included and the excluded terms of AND-parts.
pub open spec fn and_parts(parts: Seq<Seq<char>>, dd: int) -> (Seq<QueryModel>, Seq<QueryModel>)
    decreases parts.len(),
{
    if parts.len() == 0 {
        (Seq::<QueryModel>::empty(), Seq::<QueryModel>::empty())
    } else {
        let (inc, exc) = and_parts(parts.drop_last(), dd);
        let t = and_part_text(parts.last());
        if t.len() == 0 {
            (inc, exc)
        } else if t[0] == '-' {
            (inc, exc.push(parse_term_spec(trim_seq(t.drop_first()), dd)))
        } else {
            match first_space_dash(t) {
                Some(pos) => {
                    let ip = trim_seq(t.take(pos));
                    let ep = trim_seq(t.skip(pos + 2));
                    (
                        if ip.len() > 0 {
                            inc.push(parse_term_spec(ip, dd))
                        } else {
                            inc
                        },
                        if ep.len() > 0 {
                            exc.push(parse_term_spec(ep, dd))
                        } else {
                            exc
                        },
                    )
                },
                None => (inc.push(parse_term_spec(t, dd)), exc),
            }
        }
    }
}

pub open spec fn not_ops(v: Seq<QueryModel>) -> Seq<QueryModel> {
    v.map_values(|m: QueryModel| QueryModel::Not(Box::new(m)))
}

pub open spec fn and_word() -> Seq<char> {
    seq!['A', 'N', 'D']
}

pub open spec fn or_word() -> Seq<char> {
    seq!['O', 'R']
}

/// AND-connected terms: the included terms, then each excluded term under NOT.
#[verifier::opaque]
pub open spec fn parse_and_spec(input: Seq<char>, dd: int) -> QueryModel {
    let (inc, exc) = and_parts(split_operator_spec(input, and_word()), dd);
    let all = inc + not_ops(exc);
    if all.len() == 0 {
        empty_and()
    } else if all.len() == 1 {
        all[0]
    } else {
        QueryModel::And(all)
    }
}

/// `"..."` at the start: the phrase of the tokens up to the closing quote.
#[verifier::opaque]
pub open spec fn try_phrase_spec(input: Seq<char>) -> Option<QueryModel> {
    let t = trim_seq(input);
    if t.len() > 0 && t[0] == '"' {
        match first_index_of(t.drop_first(), '"') {
            Some(k) => {
                let terms = token_texts(t.subrange(1, k + 1));
                if terms.len() > 0 {
                    Some(QueryModel::Phrase(terms))
                } else {
                    None
                }
            },
            None => None,
        }
    } else {
        None
    }
}

/// OR-branches without the empty ones.
pub open spec fn drop_empty_ands(v: Seq<QueryModel>) -> Seq<QueryModel>
    decreases v.len(),
{
    if v.len() == 0 {
        v
    } else if v.last() == empty_and() {
        drop_empty_ands(v.drop_last())
    } else {
        drop_empty_ands(v.drop_last()).push(v.last())
    }
}

pub open spec fn or_branches(parts: Seq<Seq<char>>, dd: int) -> Seq<QueryModel> {
    parts.map_values(|p: Seq<char>| parse_and_spec(trim_seq(p), dd))
}

/// A whole expression: a phrase, an OR of AND-expressions, or an AND-expression.
#[verifier::opaque]
pub open spec fn parse_expression_spec(input: Seq<char>, dd: int) -> QueryModel {
    match try_phrase_spec(input) {
        Some(p) => p,
        None => {
            let ors = split_operator_spec(input, or_word());
            if ors.len() > 1 {
                let ops = drop_empty_ands(or_branches(ors, dd));
                if ops.len() == 1 {
                    ops[0]
                } else {
                    QueryModel::Or(ops)
                }
            } else {
                parse_and_spec(input, dd)
            }
        },
    }
}

/// Whether the (trimmed) query asks for pinyin matching with `pinyin:` or `py:`.
pub open spec fn pinyin_flagged(t: Seq<char>) -> bool {
    starts_with_seq(t, seq!['p', 'i', 'n', 'y', 'i', 'n', ':']) || starts_with_seq(
        t,
        seq!['p', 'y', ':'],
    )
}

/// The query text once the pinyin flag is taken off.
pub open spec fn query_body(input: Seq<char>) -> Seq<char> {
    let t = trim_seq(input);
    if pinyin_flagged(t) {
        trim_seq(t.skip(first_index_of(t, ':')->0 + 1))
    } else {
        t
    }
}

/// The operation tree of a whole query.
#[verifier::opaque]
pub open spec fn parse_root_spec(input: Seq<char>, dd: int) -> QueryModel {
    let q = query_body(input);
    if q.len() == 0 {
        empty_and()
    } else {
        parse_expression_spec(q, dd)
    }
}

// ==================== the parser ====================

pub open spec fn char_vecs_model(v: Seq<Vec<char>>) -> Seq<Seq<char>> {
    v.map_values(|c: Vec<char>| c@)
}

/// The token texts of `s`.
fn token_text_list(s: &Vec<char>) -> (r: Vec<String>)
    ensures
        strings_view(r@) == token_texts(s@),
{
    proof {
        reveal(token_texts);
    }
    let text = string_from_chars(s);
    let tokens = tokenize(text.as_str());
    let ghost tv = crate::tokenizer::token_views(tokens@);
    let mut r: Vec<String> = Vec::new();
    let mut k: usize = 0;
    while k < tokens.len()
        invariant
            k <= tokens@.len(),
            tv == crate::tokenizer::token_views(tokens@),
            tv == tokenize_spec(s@),
            r@.len() == k,
            strings_view(r@) == token_texts(s@).take(k as int),
        decreases tokens@.len() - k,
    {
        let c = crate::text::copy_string(&tokens[k].text);
        r.push(c);
        proof {
            reveal(token_texts);
            assert(r@[k as int] == c);
            assert(tv[k as int] == tokens@[k as int]@);
            assert(token_texts(s@)[k as int] == tv[k as int].text);
            assert(strings_view(r@) =~= token_texts(s@).take(k + 1));
        }
        k += 1;
    }
    proof {
        assert(token_texts(s@).take(k as int) =~= token_texts(s@));
    }
    r
}

fn fuzzy_op_list(toks: &Vec<String>, d: usize) -> (r: Vec<QueryOp>)
    ensures
        models(r@) == fuzzy_ops(strings_view(toks@), d as int),
{
    let mut r: Vec<QueryOp> = Vec::new();
    let mut k: usize = 0;
    while k < toks.len()
        invariant
            k <= toks@.len(),
            r@.len() == k,
            models(r@) == fuzzy_ops(strings_view(toks@), d as int).take(k as int),
        decreases toks@.len() - k,
    {
        let op = QueryOp::Fuzzy(crate::text::copy_string(&toks[k]), d);
        r.push(op);
        proof {
            assert(r@[k as int] == op);
            assert(fuzzy_ops(strings_view(toks@), d as int)[k as int] == QueryModel::Fuzzy(toks@[k as int]@, d as int));
            assert(r@[k as int].model() == QueryModel::Fuzzy(toks@[k as int]@, d as int));
            assert(models(r@) =~= fuzzy_ops(strings_view(toks@), d as int).take(k + 1));
        }
        k += 1;
    }
    proof {
        assert(fuzzy_ops(strings_view(toks@), d as int).take(k as int) =~= fuzzy_ops(
            strings_view(toks@),
            d as int,
        ));
    }
    r
}

fn prefix_op_list(toks: &Vec<String>) -> (r: Vec<QueryOp>)
    ensures
        models(r@) == prefix_ops(strings_view(toks@)),
{
    let mut r: Vec<QueryOp> = Vec::new();
    let mut k: usize = 0;
    while k < toks.len()
        invariant
            k <= toks@.len(),
            r@.len() == k,
            models(r@) == prefix_ops(strings_view(toks@)).take(k as int),
        decreases toks@.len() - k,
    {
        let op = QueryOp::Prefix(crate::text::copy_string(&toks[k]));
        r.push(op);
        proof {
            assert(r@[k as int] == op);
            assert(prefix_ops(strings_view(toks@))[k as int] == QueryModel::Prefix(toks@[k as int]@));
            assert(r@[k as int].model() == QueryModel::Prefix(toks@[k as int]@));
            assert(models(r@) =~= prefix_ops(strings_view(toks@)).take(k + 1));
        }
        k += 1;
    }
    proof {
        assert(prefix_ops(strings_view(toks@)).take(k as int) =~= prefix_ops(strings_view(toks@)));
    }
    r
}

fn term_op_list(toks: &Vec<String>) -> (r: Vec<QueryOp>)
    ensures
        models(r@) == term_ops(strings_view(toks@)),
{
    let mut r: Vec<QueryOp> = Vec::new();
    let mut k: usize = 0;
    while k < toks.len()
        invariant
            k <= toks@.len(),
            r@.len() == k,
            models(r@) == term_ops(strings_view(toks@)).take(k as int),
        decreases toks@.len() - k,
    {
        let op = QueryOp::Term(crate::text::copy_string(&toks[k]));
        r.push(op);
        proof {
            assert(r@[k as int] == op);
            assert(term_ops(strings_view(toks@))[k as int] == QueryModel::Term(toks@[k as int]@));
            assert(r@[k as int].model() == QueryModel::Term(toks@[k as int]@));
            assert(models(r@) =~= term_ops(strings_view(toks@)).take(k + 1));
        }
        k += 1;
    }
    proof {
        assert(term_ops(strings_view(toks@)).take(k as int) =~= term_ops(strings_view(toks@)));
    }
    r
}

fn non_whitespace_chars(t: &Vec<char>) -> (r: Vec<char>)
    ensures
        r@ == non_whitespace(t@),
{
    let mut r: Vec<char> = Vec::new();
    let mut k: usize = 0;
    while k < t.len()
        invariant
            k <= t@.len(),
            r@ == non_whitespace(t@.take(k as int)),
        decreases t@.len() - k,
    {
        proof {
            assert(t@.take(k + 1).drop_last() =~= t@.take(k as int));
            assert(t@.take(k + 1).last() == t@[k as int]);
        }
        if !is_whitespace_char(t[k]) {
            r.push(t[k]);
        }
        k += 1;
    }
    proof {
        assert(t@.take(k as int) =~= t@);
    }
    r
}

fn has_chinese(t: &Vec<char>) -> (r: bool)
    ensures
        r == exists|k: int| 0 <= k < t@.len() && chinese_code_point(#[trigger] t@[k]),
{
    let mut k: usize = 0;
    while k < t.len()
        invariant
            k <= t@.len(),
            forall|j: int| 0 <= j < k ==> !chinese_code_point(#[trigger] t@[j]),
        decreases t@.len() - k,
    {
        if is_chinese_char(t[k]) {
            return true;
        }
        k += 1;
    }
    false
}

proof fn lemma_first_space_dash(s: Seq<char>, k: int)
    requires
        space_dash_at(s, k),
        forall|j: int| 0 <= j < k ==> !space_dash_at(s, j),
    ensures
        first_space_dash(s) == Some(k),
{
    let w = choose|w: int|
        #[trigger] space_dash_at(s, w) && forall|j: int| 0 <= j < w ==> !space_dash_at(s, j);
    assert(space_dash_at(s, w) && forall|j: int| 0 <= j < w ==> !space_dash_at(s, j));
    if w < k {
        assert(!space_dash_at(s, w));
    }
    if k < w {
        assert(!space_dash_at(s, k));
    }
}

fn first_space_dash_index(t: &Vec<char>) -> (r: Option<usize>)
    ensures
        r matches Some(k) ==> first_space_dash(t@) == Some(k as int) && k + 1 < t@.len(),
        r is None ==> first_space_dash(t@) is None,
{
    let mut k: usize = 0;
    while k < t.len() && k + 1 < t.len()
        invariant
            k <= t@.len(),
            forall|j: int| 0 <= j < k ==> !space_dash_at(t@, j),
        decreases t@.len() - k,
    {
        if t[k] == ' ' && t[k + 1] == '-' {
            proof {
                lemma_first_space_dash(t@, k as int);
            }
            return Some(k);
        }
        k += 1;
    }
    proof {
        assert forall|j: int| !space_dash_at(t@, j) by {
            if 0 <= j < k {
            }
        }
    }
    None
}

impl QueryParser {
    /// The fuzzy distance used when a query gives none.
    pub closed spec fn fuzzy_distance(&self) -> usize {
        self.default_fuzzy_distance
    }

    pub fn new() -> (p: Self)
        ensures
            p.fuzzy_distance() == 2,
    {
        QueryParser { default_fuzzy_distance: 2 }
    }

    pub fn with_fuzzy_distance(distance: usize) -> (p: Self)
        ensures
            p.fuzzy_distance() == distance,
    {
        QueryParser { default_fuzzy_distance: distance }
    }

    /// Parse a single term with possible modifiers
    fn parse_term(&self, input: &Vec<char>) -> (op: QueryOp)
        ensures
            op.model() == parse_term_spec(input@, self.fuzzy_distance() as int),
    {
        proof {
            reveal(parse_term_spec);
        }
        let dd = self.default_fuzzy_distance;
        let t = trim_range(input, 0, input.len());
        proof {
            assert(input@.subrange(0, input@.len() as int) =~= input@);
        }
        if t.len() == 0 {
            let op = QueryOp::And(Vec::new());
            proof {
                assert(op.model()->And_0 =~= Seq::<QueryModel>::empty());
            }
            return op;
        }
        // Fuzzy match: term~ or term~2
        match rfind_char(&t, '~') {
            Some(idx) => {
                if idx > 0 {
                    return fuzzy_term(&t, idx, dd);
                }
            },
            None => {},
        }
        // Prefix match: term*
        let n = t.len();
        if t[n - 1] == '*' && n > 1 {
            let prefix = slice_chars(&t, 0, n - 1);
            proof {
                assert(t@.subrange(0, n - 1) =~= t@.drop_last());
            }
            return prefix_term(&prefix);
        }
        word_term(&t)
    }
}

fn fuzzy_term(t: &Vec<char>, idx: usize, dd: usize) -> (op: QueryOp)
    requires
        0 < idx < t@.len(),
    ensures
        op.model() == fuzzy_term_model(t@, idx as int, dd as int),
{
    proof {
        reveal(fuzzy_term_model);
    }
    let tl = t.len();
    let term = slice_chars(t, 0, idx);
    let digits = slice_chars(t, idx + 1, tl);
    proof {
        assert(t@.subrange(0, idx as int) =~= t@.take(idx as int));
        assert(t@.subrange(idx + 1, t@.len() as int) =~= t@.skip(idx + 1));
    }
    let distance = if digits.len() == 0 {
        dd
    } else {
        match parse_usize_chars(&digits) {
            Some(v) => v,
            None => dd,
        }
    };
    let dm = if distance < 3 {
        distance
    } else {
        3
    };
    let toks = token_text_list(&term);
    if toks.len() == 1 {
        QueryOp::Fuzzy(crate::text::copy_string(&toks[0]), dm)
    } else {
        let ops = fuzzy_op_list(&toks, dm);
        proof {
            lemma_and_model(ops);
        }
        QueryOp::And(ops)
    }
}

fn prefix_term(p: &Vec<char>) -> (op: QueryOp)
    ensures
        op.model() == prefix_term_model(p@),
{
    proof {
        reveal(prefix_term_model);
    }
    let toks = token_text_list(p);
    if toks.len() == 1 {
        QueryOp::Prefix(crate::text::copy_string(&toks[0]))
    } else {
        let ops = prefix_op_list(&toks);
        proof {
            lemma_and_model(ops);
        }
        QueryOp::And(ops)
    }
}

fn word_term(t: &Vec<char>) -> (op: QueryOp)
    ensures
        op.model() == word_term_model(t@),
{
    proof {
        reveal(word_term_model);
    }
    let toks = token_text_list(t);
    let chinese = has_chinese(t);
    if chinese && toks.len() >= 2 {
        let chars = non_whitespace_chars(t);
        if chars.len() >= 2 {
            let terms = term_op_list(&toks);
            proof {
                lemma_and_model(terms);
            }
            let mut branches: Vec<QueryOp> = Vec::new();
            branches.push(QueryOp::And(terms));
            branches.push(QueryOp::CharMatch(chars));
            proof {
                lemma_and_model(branches);
                assert(models(branches@) =~= seq![
                    QueryModel::And(term_ops(token_texts(t@))),
                    QueryModel::CharMatch(non_whitespace(t@)),
                ]);
            }
            return QueryOp::Or(branches);
        }
    }
    if toks.len() == 1 {
        QueryOp::Term(crate::text::copy_string(&toks[0]))
    } else {
        let ops = term_op_list(&toks);
        proof {
            lemma_and_model(ops);
        }
        QueryOp::And(ops)
    }
}

fn finish_part_exec(parts: &mut Vec<Vec<char>>, current: &Vec<char>)
    ensures
        char_vecs_model(final(parts)@) == finish_part(char_vecs_model(old(parts)@), current@),
{
    let t = trim_range(current, 0, current.len());
    proof {
        assert(current@.subrange(0, current@.len() as int) =~= current@);
    }
    if t.len() > 0 {
        let ghost before = char_vecs_model(parts@);
        parts.push(t);
        proof {
            assert(char_vecs_model(parts@) =~= before.push(t@));
        }
    }
}

/// For each position of `input`, whether the window of `operator`'s length there, upper-cased,
/// equals `operator` upper-cased.
pub fn operator_windows(input: &str, operator: &str) -> (w: Vec<bool>)
    ensures
        w@ == op_windows(input@, operator@),
{
    let chars = chars_of(input);
    operator_windows_chars(&chars, operator)
}

fn operator_windows_chars(input: &Vec<char>, operator: &str) -> (w: Vec<bool>)
    ensures
        w@ == op_windows(input@, operator@),
{
    let op = chars_of(operator);
    let oplen = op.len();
    let op_upper = str_to_uppercase(operator);
    let n = input.len();
    let mut w: Vec<bool> = Vec::new();
    let mut i: usize = 0;
    while i < n
        invariant
            n == input@.len(),
            oplen == operator@.len(),
            op_upper@ == unicode_uppercase(operator@),
            i <= n,
            w@.len() == i,
            forall|k: int| 0 <= k < i ==> #[trigger] w@[k] == op_windows(input@, operator@)[k],
        decreases n - i,
    {
        let mut m = false;
        if oplen <= n - i {
            let slice = string_from_range(input, i, i + oplen);
            let up = str_to_uppercase(slice.as_str());
            m = crate::text::same_text(&up, &op_upper);
        }
        w.push(m);
        i += 1;
    }
    proof {
        assert(w@ =~= op_windows(input@, operator@));
    }
    w
}

/// Split `input` at the operator words of `operator_len` characters that `windows` marks
/// (standing alone between whitespace or the ends, outside double quotes): the trimmed,
/// non-empty parts between them, or the whole input when there is none.
pub fn split_marked(input: &str, operator_len: usize, windows: &Vec<bool>) -> (parts: Vec<String>)
    requires
        windows@.len() == input@.len(),
    ensures
        strings_view(parts@) == split_marked_spec(input@, operator_len as int, windows@),
{
    let chars = chars_of(input);
    let cparts = split_marked_chars(&chars, operator_len, windows);
    let mut out: Vec<String> = Vec::new();
    let mut k: usize = 0;
    while k < cparts.len()
        invariant
            k <= cparts@.len(),
            strings_view(out@) == char_vecs_model(cparts@).take(k as int),
        decreases cparts@.len() - k,
    {
        let st = string_from_chars(&cparts[k]);
        let ghost before = strings_view(out@);
        out.push(st);
        proof {
            assert(strings_view(out@) =~= before.push(st@));
            assert(char_vecs_model(cparts@).take(k + 1) =~= char_vecs_model(cparts@).take(k as int).push(cparts@[k as int]@));
        }
        k += 1;
    }
    proof {
        assert(char_vecs_model(cparts@).take(k as int) =~= char_vecs_model(cparts@));
    }
    out
}

fn split_marked_chars(input: &Vec<char>, oplen: usize, w: &Vec<bool>) -> (parts: Vec<Vec<char>>)
    requires
        w@.len() == input@.len(),
    ensures
        char_vecs_model(parts@) == split_marked_spec(input@, oplen as int, w@),
{
    let ghost s = input@;
    let n = input.len();
    let mut parts: Vec<Vec<char>> = Vec::new();
    let mut in_quote = false;
    let mut current: Vec<char> = Vec::new();
    let mut i: usize = 0;
    proof {
        assert(char_vecs_model(parts@) =~= Seq::<Seq<char>>::empty());
        assert(current@ =~= Seq::<char>::empty());
    }
    if oplen > 0 {
        while i < n
            invariant
                s == input@,
                n == s.len(),
                w@.len() == n,
                oplen > 0,
                i <= n,
                split_scan_marked(s, oplen as int, w@, 0, false, Seq::<char>::empty(), Seq::<Seq<char>>::empty())
                    == split_scan_marked(s, oplen as int, w@, i as int, in_quote, current@, char_vecs_model(parts@)),
            decreases n - i,
        {
            let c = input[i];
            if c == '"' {
                in_quote = !in_quote;
                current.push(c);
                i += 1;
            } else {
                let mut matched = false;
                if !in_quote && w[i] && oplen <= n - i {
                    let prev_boundary = i == 0 || is_whitespace_char(input[i - 1]);
                    let next_boundary = oplen >= n - i || is_whitespace_char(input[i + oplen]);
                    if prev_boundary && next_boundary {
                        matched = true;
                    }
                }
                proof {
                    assert(matched == (!in_quote && marked_operator_at(s, oplen as int, w@, i as int)));
                }
                if matched {
                    finish_part_exec(&mut parts, &current);
                    current = Vec::new();
                    proof {
                        assert(current@ =~= Seq::<char>::empty());
                    }
                    i += oplen;
                } else {
                    current.push(c);
                    i += 1;
                }
            }
        }
    }
    finish_part_exec(&mut parts, &current);
    if parts.len() == 0 {
        let mut whole: Vec<Vec<char>> = Vec::new();
        whole.push(slice_chars(input, 0, n));
        proof {
            assert(s.subrange(0, n as int) =~= s);
            assert(char_vecs_model(whole@) =~= seq![s]);
        }
        whole
    } else {
        parts
    }
}

/// Split input by an operator word (any case, standing alone), respecting quoted sections.
fn split_operator(input: &Vec<char>, operator: &str) -> (parts: Vec<Vec<char>>)
    requires
        operator@.len() > 0,
    ensures
        char_vecs_model(parts@) == split_operator_spec(input@, operator@),
{
    let op = chars_of(operator);
    let oplen = op.len();
    let w = operator_windows_chars(input, operator);
    let parts = split_marked_chars(input, oplen, &w);
    proof {
        lemma_split_operator_marked(input@, operator@);
    }
    parts
}

/// Whether `op` is the empty AND.
fn is_empty_and(op: &QueryOp) -> (r: bool)
    ensures
        r == (op.model() == empty_and()),
{
    match op {
        QueryOp::And(v) => {
            proof {
                lemma_and_model(*v);
                if v@.len() == 0 {
                    assert(models(v@) =~= Seq::<QueryModel>::empty());
                } else {
                    assert(models(v@).len() != Seq::<QueryModel>::empty().len());
                }
            }
            v.len() == 0
        },
        _ => false,
    }
}

/// Writes out the prefix operators of `s` (see [`mark_operators`]).
fn mark_operators_exec(s: &Vec<char>) -> (r: Vec<char>)
    ensures
        r@ == mark_operators(s@, 0),
{
    let n = s.len();
    let mut out: Vec<char> = Vec::new();
    let mut i: usize = 0;
    while i < n
        invariant
            n == s@.len(),
            i <= n,
            out@ + mark_operators(s@, i as int) == mark_operators(s@, 0),
        decreases n - i,
    {
        let ws = i == 0 || is_whitespace_char(s[i - 1]);
        let ghost before = out@;
        if s[i] == '+' && ws {
            i += 1;
        } else if ws && n - i > 3 && s[i] == 'N' && s[i + 1] == 'O' && s[i + 2] == 'T'
            && is_whitespace_char(s[i + 3]) {
            out.push(' ');
            out.push('-');
            proof {
                assert(out@ =~= before + seq![' ', '-']);
                assert(before + (seq![' ', '-'] + mark_operators(s@, i + 3)) =~= out@
                    + mark_operators(s@, i + 3));
            }
            i += 3;
        } else {
            let c = s[i];
            out.push(c);
            proof {
                assert(before + (seq![c] + mark_operators(s@, i + 1)) =~= out@ + mark_operators(
                    s@,
                    i + 1,
                ));
            }
            i += 1;
        }
    }
    proof {
        assert(out@ + Seq::<char>::empty() =~= out@);
    }
    out
}

/// Whether `input` carries the pinyin flag, and the query text after it.
fn flag_and_body(input: &str) -> (r: (bool, Vec<char>))
    ensures
        r.0 == pinyin_flagged(trim_seq(input@)),
        r.1@ == query_body(input@),
{
    let t = trim_str(input);
    let n = t.len();
    let long_flag = n >= 7 && t[0] == 'p' && t[1] == 'i' && t[2] == 'n' && t[3] == 'y' && t[4]
        == 'i' && t[5] == 'n' && t[6] == ':';
    let short_flag = n >= 3 && t[0] == 'p' && t[1] == 'y' && t[2] == ':';
    proof {
        assert(long_flag == starts_with_seq(t@, seq!['p', 'i', 'n', 'y', 'i', 'n', ':'])) by {
            if n >= 7 {
                if long_flag {
                    assert(t@.take(7) =~= seq!['p', 'i', 'n', 'y', 'i', 'n', ':']);
                } else {
                    if t@.take(7) == seq!['p', 'i', 'n', 'y', 'i', 'n', ':'] {
                        assert(t@[0] == t@.take(7)[0]);
                        assert(t@[1] == t@.take(7)[1]);
                        assert(t@[2] == t@.take(7)[2]);
                        assert(t@[3] == t@.take(7)[3]);
                        assert(t@[4] == t@.take(7)[4]);
                        assert(t@[5] == t@.take(7)[5]);
                        assert(t@[6] == t@.take(7)[6]);
                    }
                }
            }
        }
        assert(short_flag == starts_with_seq(t@, seq!['p', 'y', ':'])) by {
            if n >= 3 {
                if short_flag {
                    assert(t@.take(3) =~= seq!['p', 'y', ':']);
                } else {
                    if t@.take(3) == seq!['p', 'y', ':'] {
                        assert(t@[0] == t@.take(3)[0]);
                        assert(t@[1] == t@.take(3)[1]);
                        assert(t@[2] == t@.take(3)[2]);
                    }
                }
            }
        }
    }
    let use_pinyin = long_flag || short_flag;
    let q = if use_pinyin {
        match find_char(&t, ':') {
            Some(c) => trim_range(&t, c + 1, n),
            None => {
                proof {
                    if long_flag {
                        assert(t@[6] == ':');
                    } else {
                        assert(t@[2] == ':');
                    }
                    assert(false);
                }
                Vec::new()
            },
        }
    } else {
        t
    };
    proof {
        if use_pinyin {
            let c = first_index_of(trim_seq(input@), ':')->0;
            assert(trim_seq(input@).subrange(c + 1, n as int) =~= trim_seq(input@).skip(c + 1));
        }
    }
    (use_pinyin, q)
}

/// The text that pinyin matching reads: the query body after a `pinyin:` / `py:` flag, or
/// the whole query when there is no flag.
pub open spec fn pinyin_text(input: Seq<char>) -> Seq<char> {
    if pinyin_flagged(trim_seq(input)) {
        query_body(input)
    } else {
        input
    }
}

/// The text that pinyin matching reads for the query `input` (see [`pinyin_text`]).
pub fn pinyin_query_text(input: &str) -> (r: String)
    ensures
        r@ == pinyin_text(input@),
{
    let (flagged, body) = flag_and_body(input);
    if flagged {
        string_from_chars(&body)
    } else {
        let chars = chars_of(input);
        string_from_chars(&chars)
    }
}

impl QueryParser {
    /// Parse AND-connected terms
    #[verifier::rlimit(40)]
    fn parse_and(&self, input: &Vec<char>) -> (op: QueryOp)
        ensures
            op.model() == parse_and_spec(input@, self.fuzzy_distance() as int),
    {
        proof {
            reveal(parse_and_spec);
        }
        let ghost dd = self.fuzzy_distance() as int;
        proof {
            reveal_strlit("AND");
            assert("AND"@ =~= and_word());
        }
        let parts = split_operator(input, "AND");
        let ghost ps = char_vecs_model(parts@);
        let mut inc: Vec<QueryOp> = Vec::new();
        let mut excn: Vec<QueryOp> = Vec::new();
        let mut k: usize = 0;
        proof {
            assert(ps.take(0) =~= Seq::<Seq<char>>::empty());
            assert(models(inc@) =~= Seq::<QueryModel>::empty());
            assert(models(excn@) =~= not_ops(Seq::<QueryModel>::empty()));
        }
        while k < parts.len()
            invariant
                ps == char_vecs_model(parts@),
                dd == self.fuzzy_distance() as int,
                k <= parts@.len(),
                models(inc@) == and_parts(ps.take(k as int), dd).0,
                models(excn@) == not_ops(and_parts(ps.take(k as int), dd).1),
            decreases parts@.len() - k,
        {
            let part = &parts[k];
            let t0 = trim_range(part, 0, part.len());
            let marked = mark_operators_exec(&t0);
            let t = trim_range(&marked, 0, marked.len());
            proof {
                assert(part@.subrange(0, part@.len() as int) =~= part@);
                assert(marked@.subrange(0, marked@.len() as int) =~= marked@);
                assert(ps.take(k + 1).drop_last() =~= ps.take(k as int));
                assert(ps.take(k + 1).last() == part@);
            }
            let ghost inc0 = and_parts(ps.take(k as int), dd).0;
            let ghost exc0 = and_parts(ps.take(k as int), dd).1;
            if t.len() == 0 {
            } else if t[0] == '-' {
                let rest = trim_range(&t, 1, t.len());
                proof {
                    assert(t@.subrange(1, t@.len() as int) =~= t@.drop_first());
                }
                let ex = self.parse_term(&rest);
                let ghost exm = ex.model();
                let nop = QueryOp::Not(Box::new(ex));
                let ghost before = excn@;
                excn.push(nop);
                proof {
                    assert(nop.model() == QueryModel::Not(Box::new(exm)));
                    assert(excn@ == before.push(nop));
                    assert(models(excn@) =~= models(before).push(nop.model()));
                    assert(not_ops(exc0.push(exm)) =~= not_ops(exc0).push(QueryModel::Not(Box::new(exm))));
                }
            } else {
                match first_space_dash_index(&t) {
                    Some(pos) => {
                        let tl = t.len();
                        let ip = trim_range(&t, 0, pos);
                        let ep = trim_range(&t, pos + 2, tl);
                        proof {
                            assert(t@.subrange(0, pos as int) =~= t@.take(pos as int));
                            assert(t@.subrange(pos + 2, tl as int) =~= t@.skip(pos + 2));
                        }
                        if ip.len() > 0 {
                            let op = self.parse_term(&ip);
                            inc.push(op);
                            proof {
                                assert(models(inc@) =~= inc0.push(op.model()));
                            }
                        }
                        if ep.len() > 0 {
                            let ex = self.parse_term(&ep);
                            let ghost exm = ex.model();
                            let nop = QueryOp::Not(Box::new(ex));
                            let ghost before = excn@;
                            excn.push(nop);
                            proof {
                                assert(nop.model() == QueryModel::Not(Box::new(exm)));
                                assert(excn@ == before.push(nop));
                                assert(models(excn@) =~= models(before).push(nop.model()));
                    assert(not_ops(exc0.push(exm)) =~= not_ops(exc0).push(QueryModel::Not(Box::new(exm))));
                            }
                        }
                    },
                    None => {
                        let op = self.parse_term(&t);
                        inc.push(op);
                        proof {
                            assert(models(inc@) =~= inc0.push(op.model()));
                        }
                    },
                }
            }
            k += 1;
        }
        proof {
            assert(ps.take(k as int) =~= ps);
        }
        let ghost all = models(inc@) + models(excn@);
        inc.append(&mut excn);
        proof {
            assert(models(inc@) =~= all);
        }
        if inc.len() == 0 {
            let op = QueryOp::And(Vec::new());
            proof {
                assert(op.model()->And_0 =~= Seq::<QueryModel>::empty());
            }
            op
        } else if inc.len() == 1 {
            let ghost m0 = inc@[0].model();
            let op = inc.pop().unwrap();
            proof {
                assert(all[0] == m0);
            }
            op
        } else {
            proof {
                lemma_and_model(inc);
            }
            QueryOp::And(inc)
        }
    }

    /// Try to parse a quoted phrase
    #[verifier::rlimit(40)]
    fn try_parse_phrase(&self, input: &Vec<char>) -> (r: Option<QueryOp>)
        ensures
            r matches Some(op) ==> try_phrase_spec(input@) == Some(op.model()),
            r is None ==> try_phrase_spec(input@) is None,
    {
        proof {
            reveal(try_phrase_spec);
        }
        let t = trim_range(input, 0, input.len());
        proof {
            assert(input@.subrange(0, input@.len() as int) =~= input@);
        }
        if t.len() > 0 && t[0] == '"' {
            let tl = t.len();
            let rest = slice_chars(&t, 1, tl);
            proof {
                assert(t@.subrange(1, tl as int) =~= t@.drop_first());
            }
            match find_char(&rest, '"') {
                Some(k) => {
                    let phrase = slice_chars(&t, 1, k + 1);
                    let terms = token_text_list(&phrase);
                    if terms.len() > 0 {
                        let op = QueryOp::Phrase(terms);
                        proof {
                            assert(op.model() == QueryModel::Phrase(token_texts(t@.subrange(1, k + 1))));
                        }
                        Some(op)
                    } else {
                        None
                    }
                },
                None => None,
            }
        } else {
            None
        }
    }

    /// Parse a query expression, handling OR at the top level
    fn parse_expression(&self, input: &Vec<char>) -> (op: QueryOp)
        ensures
            op.model() == parse_expression_spec(input@, self.fuzzy_distance() as int),
    {
        proof {
            reveal(parse_expression_spec);
        }
        let ghost dd = self.fuzzy_distance() as int;
        match self.try_parse_phrase(input) {
            Some(p) => {
                return p;
            },
            None => {},
        }
        proof {
            reveal_strlit("OR");
            assert("OR"@ =~= or_word());
        }
        let ors = split_operator(input, "OR");
        let ghost os = char_vecs_model(ors@);
        if ors.len() > 1 {
            let ghost branches = or_branches(os, dd);
            let mut ops: Vec<QueryOp> = Vec::new();
            let mut k: usize = 0;
            proof {
                assert(branches.take(0) =~= Seq::<QueryModel>::empty());
                assert(models(ops@) =~= drop_empty_ands(branches.take(0)));
            }
            while k < ors.len()
                invariant
                    os == char_vecs_model(ors@),
                    branches == or_branches(os, dd),
                    dd == self.fuzzy_distance() as int,
                    k <= ors@.len(),
                    models(ops@) == drop_empty_ands(branches.take(k as int)),
                decreases ors@.len() - k,
            {
                let part = &ors[k];
                let tp = trim_range(part, 0, part.len());
                proof {
                    assert(part@.subrange(0, part@.len() as int) =~= part@);
                }
                let op = self.parse_and(&tp);
                proof {
                    assert(branches[k as int] == op.model());
                    assert(branches.take(k + 1).drop_last() =~= branches.take(k as int));
                    assert(branches.take(k + 1).last() == op.model());
                }
                if !is_empty_and(&op) {
                    let ghost before = models(ops@);
                    ops.push(op);
                    proof {
                        assert(models(ops@) =~= before.push(op.model()));
                    }
                }
                k += 1;
            }
            proof {
                assert(branches.take(k as int) =~= branches);
            }
            if ops.len() == 1 {
                let ghost m0 = ops@[0].model();
                let op = ops.pop().unwrap();
                proof {
                    assert(models(ops@).len() == 0 || true);
                }
                op
            } else {
                proof {
                    lemma_and_model(ops);
                }
                QueryOp::Or(ops)
            }
        } else {
            self.parse_and(input)
        }
    }

    /// Parse a query string into a ParsedQuery
    pub fn parse(&self, input: &str) -> (q: ParsedQuery)
        ensures
            q.root.model() == parse_root_spec(input@, self.fuzzy_distance() as int),
            q.original@ == input@,
            q.use_pinyin == pinyin_flagged(trim_seq(input@)),
            q.max_edit_distance == self.fuzzy_distance(),
    {
        proof {
            reveal(parse_root_spec);
        }
        let chars = chars_of(input);
        let original = string_from_chars(&chars);
        let (use_pinyin, q) = flag_and_body(input);
        let root = if q.len() == 0 {
            let op = QueryOp::And(Vec::new());
            proof {
                assert(op.model()->And_0 =~= Seq::<QueryModel>::empty());
            }
            op
        } else {
            self.parse_expression(&q)
        };
        ParsedQuery {
            root,
            original,
            use_pinyin,
            max_edit_distance: self.default_fuzzy_distance,
        }
    }
}

impl Default for QueryParser {
    fn default() -> (p: Self)
        ensures
            p.fuzzy_distance() == 2,
    {
        Self::new()
    }
}


/// `s` holds no whitespace.
pub open spec fn no_space_in(s: Seq<char>) -> bool {
    forall|k: int| 0 <= k < s.len() ==> !whitespace_code_point(#[trigger] s[k])
}

proof fn lemma_trim_plain(s: Seq<char>)
    requires
        no_space_in(s),
    ensures
        trim_seq(s) == s,
{
    if s.len() > 0 {
        assert(!whitespace_code_point(s[0]));
        assert(trim_start_seq(s) == s);
        assert(!whitespace_code_point(s.last()));
    }
}

proof fn lemma_split_scan_plain(
    s: Seq<char>,
    op: Seq<char>,
    i: int,
    in_quote: bool,
    current: Seq<char>,
    parts: Seq<Seq<char>>,
)
    requires
        no_space_in(s),
        0 <= i <= s.len(),
        s.len() > op.len() > 0,
    ensures
        split_scan(s, op, i, in_quote, current, parts) == finish_part(parts, current + s.skip(i)),
    decreases s.len() - i,
{
    if i < s.len() {
        assert(!operator_at(s, i, op)) by {
            if i > 0 {
                assert(!whitespace_code_point(s[i - 1]));
            } else {
                assert(!whitespace_code_point(s[op.len() as int]));
            }
        }
        lemma_split_scan_plain(s, op, i + 1, if s[i] == '"' { !in_quote } else { in_quote }, current.push(s[i]), parts);
        assert(current.push(s[i]) + s.skip(i + 1) =~= current + s.skip(i));
    } else {
        assert(current + s.skip(i) =~= current);
    }
}

proof fn lemma_split_plain(s: Seq<char>, op: Seq<char>)
    requires
        no_space_in(s),
        s.len() > op.len() > 0,
    ensures
        split_operator_spec(s, op) == seq![s],
{
    reveal(split_operator_spec);
    lemma_split_scan_plain(s, op, 0, false, Seq::<char>::empty(), Seq::<Seq<char>>::empty());
    lemma_trim_plain(s);
    assert(Seq::<char>::empty() + s.skip(0) =~= s);
    assert(finish_part(Seq::<Seq<char>>::empty(), s) =~= seq![s]);
}

proof fn lemma_mark_plain(s: Seq<char>, i: int)
    requires
        no_space_in(s),
        0 <= i <= s.len(),
        s.len() > 0 && s[0] != '+',
    ensures
        mark_operators(s, i) == s.skip(i),
    decreases s.len() - i,
{
    if i < s.len() {
        lemma_mark_plain(s, i + 1);
        if i > 0 {
            assert(!whitespace_code_point(s[i - 1]));
        }
        if i + 3 < s.len() {
            assert(!whitespace_code_point(s[i + 3]));
        }
        assert(seq![s[i]] + s.skip(i + 1) =~= s.skip(i));
    } else {
        assert(s.skip(i) =~= Seq::<char>::empty());
    }
}

/// The operation of a query `t~` / `t~N` written as one word: fuzzy terms for the tokens of
/// `t`, at distance `N` capped at 3, or the parser's default distance (capped) when no digits
/// follow the `~`.
pub open spec fn fuzzy_word_result(w: Seq<char>, ds: Seq<char>, default_distance: int) -> QueryModel {
    let n = if ds.len() == 0 { default_distance } else { decimal_value(ds) };
    let d = if n < 3 { n } else { 3 };
    if token_texts(w).len() == 1 {
        QueryModel::Fuzzy(token_texts(w)[0], d)
    } else {
        QueryModel::And(token_texts(w).map_values(|x: Seq<char>| QueryModel::Fuzzy(x, d)))
    }
}

proof fn lemma_root_is_term(s: Seq<char>, dd: int)
    requires
        s.len() > 3,
        forall|k: int| 0 <= k < s.len() ==> {
            let c = #[trigger] s[k];
            !whitespace_code_point(c) && c != '"' && c != ':'
        },
        s[0] != '+' && s[0] != '-',
    ensures
        parse_root_spec(s, dd) == parse_term_spec(s, dd),
{
    assert(no_space_in(s));
    lemma_trim_plain(s);
    assert(!pinyin_flagged(s)) by {
        if starts_with_seq(s, seq!['p', 'i', 'n', 'y', 'i', 'n', ':']) {
            assert(s.take(7)[6] == ':');
            assert(s[6] == ':');
        }
        if starts_with_seq(s, seq!['p', 'y', ':']) {
            assert(s.take(3)[2] == ':');
            assert(s[2] == ':');
        }
    }
    assert(query_body(s) == s);
    reveal(parse_root_spec);
    reveal(parse_expression_spec);
    reveal(try_phrase_spec);
    reveal(parse_and_spec);
    assert(try_phrase_spec(s) is None);
    lemma_split_plain(s, or_word());
    lemma_split_plain(s, and_word());
    lemma_mark_plain(s, 0);
    assert(s.skip(0) =~= s);
    assert(and_part_text(s) == s);
    assert(first_space_dash(s) is None) by {
        if exists|k: int| #[trigger] space_dash_at(s, k) {
            let k = choose|k: int| #[trigger] space_dash_at(s, k);
            assert(!whitespace_code_point(s[k]));
        }
    }
    let ps = seq![s];
    assert(ps.drop_last() =~= Seq::<Seq<char>>::empty());
    assert(ps.last() == s);
    let e = Seq::<Seq<char>>::empty();
    assert(and_parts(e, dd) == (Seq::<QueryModel>::empty(), Seq::<QueryModel>::empty()));
    assert(and_parts(ps.drop_last(), dd) == (Seq::<QueryModel>::empty(), Seq::<QueryModel>::empty()));
    assert(and_part_text(ps.last()) == s);
    assert(and_parts(ps, dd) == (Seq::<QueryModel>::empty().push(parse_term_spec(s, dd)), Seq::<QueryModel>::empty()));
    assert(parse_and_spec(s, dd) == parse_term_spec(s, dd)) by {
        let (inc, exc) = and_parts(ps, dd);
        assert(inc + not_ops(exc) =~= seq![parse_term_spec(s, dd)]);
    }
    assert(parse_expression_spec(s, dd) == parse_and_spec(s, dd));
}

proof fn lemma_fuzzy_term_of_word(w: Seq<char>, ds: Seq<char>, dd: int)
    requires
        w.len() > 0,
        forall|k: int| 0 <= k < w.len() ==> {
            let c = #[trigger] w[k];
            !whitespace_code_point(c) && c != '~'
        },
        forall|k: int| 0 <= k < ds.len() ==> crate::tokenizer::ascii_digit(#[trigger] ds[k]),
        decimal_value(ds) <= usize::MAX,
    ensures
        parse_term_spec(w + seq!['~'] + ds, dd) == fuzzy_word_result(w, ds, dd),
{
    let s = w + seq!['~'] + ds;
    let idx = w.len() as int;
    assert forall|k: int| 0 <= k < s.len() implies !whitespace_code_point(#[trigger] s[k]) by {
        if k < w.len() {
            assert(s[k] == w[k]);
        } else if k == w.len() {
            assert(s[k] == '~');
        } else {
            assert(s[k] == ds[k - w.len() - 1]);
        }
    }
    lemma_trim_plain(s);
    reveal(parse_term_spec);
    assert(s[idx] == '~');
    assert forall|j: int| idx < j < s.len() implies s[j] != '~' by {
        assert(s[j] == ds[j - idx - 1]);
    }
    crate::text::lemma_last_index_unique(s, '~', idx);
    assert(s.take(idx) =~= w);
    assert(s.skip(idx + 1) =~= ds);
    if ds.len() > 0 {
        assert(unsigned_digits(ds) == ds);
        assert(parse_usize_spec(ds) == Some(decimal_value(ds)));
    }
    let n = if ds.len() == 0 { dd } else { decimal_value(ds) };
    let d = if n < 3 { n } else { 3 };
    assert(fuzzy_ops(token_texts(w), d) =~= token_texts(w).map_values(|x: Seq<char>| QueryModel::Fuzzy(x, d)));
    assert(parse_term_spec(s, dd) == fuzzy_term_model(s, idx, dd));
    let digits = s.skip(idx + 1);
    assert(digits == ds);
    let d0 = if digits.len() == 0 {
        dd
    } else {
        match parse_usize_spec(digits) {
            Some(v) => v,
            None => dd,
        }
    };
    assert(d0 == n);
    let toks = token_texts(s.take(idx));
    assert(toks == token_texts(w));
    reveal(fuzzy_term_model);
    if toks.len() == 1 {
        assert(fuzzy_term_model(s, idx, dd) == QueryModel::Fuzzy(toks[0], d));
    } else {
        assert(fuzzy_term_model(s, idx, dd) == QueryModel::And(fuzzy_ops(toks, d)));
    }
}

/// A one-word query `w~N` (N written in decimal digits) parses to fuzzy terms at distance
/// `min(N, 3)`; `w~` with nothing after the `~` takes the parser's default distance, capped
/// at 3. Here `w` is a word without whitespace, quotes, colons or `~` that does not start with
/// `+` or `-`, and the whole query is at least four characters long.
pub proof fn lemma_fuzzy_distance_law(w: Seq<char>, ds: Seq<char>, dd: int)
    requires
        w.len() > 0,
        forall|k: int| 0 <= k < w.len() ==> {
            let c = #[trigger] w[k];
            !whitespace_code_point(c) && c != '~' && c != '"' && c != ':'
        },
        w[0] != '+' && w[0] != '-',
        forall|k: int| 0 <= k < ds.len() ==> crate::tokenizer::ascii_digit(#[trigger] ds[k]),
        decimal_value(ds) <= usize::MAX,
        w.len() + 1 + ds.len() > 3,
    ensures
        parse_root_spec(w + seq!['~'] + ds, dd) == fuzzy_word_result(w, ds, dd),
{
    let s = w + seq!['~'] + ds;
    assert forall|k: int| 0 <= k < s.len() implies {
        let c = #[trigger] s[k];
        !whitespace_code_point(c) && c != '"' && c != ':'
    } by {
        if k < w.len() {
            assert(s[k] == w[k]);
        } else if k == w.len() {
            assert(s[k] == '~');
        } else {
            assert(s[k] == ds[k - w.len() - 1]);
        }
    }
    assert(s[0] == w[0]);
    lemma_root_is_term(s, dd);
    lemma_fuzzy_term_of_word(w, ds, dd);
}

} // verus!
