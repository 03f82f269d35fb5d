//! The search engine: documents, the pinyin dictionary, and query retrieval.
use vstd::prelude::*;

use crate::highlighter::{
    posting_spans, snippet_spec, sort_by_start, sort_spans, span_views, Highlighter, HighlighterConfig,
};
use crate::index::{
    add_doc_spec, add_docs_spec, doc_frequency_spec, has_id, index_of_id, remove_doc_spec, str_views,
    total_frequency_spec, capped, IndexModel, InvertedIndex,
};
use crate::pinyin::{add_term_spec, add_terms_spec, PinyinIndex, PinyinIndexModel};
use crate::explain::char_terms;
use crate::error::SearchlightError;
use crate::executor::{
    expansion_spec, extend_strings, filled, first_n, fuzzy_expansion, ids_view, is_not, mask_ids, op_fuzzy_terms, op_hit, pinyin_hit,
    selected_ids, ExecutorContext, ExecutorLimits, QueryExecutor,
};
use crate::index::{append_new, distinct_terms, lemma_append_new, DocModel};
use crate::pinyin::{sort_dedup_strings, sorted_unique};
use crate::query::{parse_root_spec, pinyin_flagged, pinyin_query_text, pinyin_text, ParsedQuery};
use crate::text::{trim_seq, trim_str, str_to_lowercase, unicode_lowercase_str};
use crate::explain::{explain_document, explain_spec, pinyin_reason, reason_views, MatchReason, ReasonModel};
use crate::pinyin::{insert_sorted, pinyin_matches, pinyin_matches_spec, search_by_pinyin_spec};
use crate::index::prefixed_terms;
use crate::query::{lemma_and_model, models, QueryModel, QueryOp, QueryParser};
use crate::text::{copy_string, strings_view};
use crate::tokenizer::{tokenize, tokenize_spec, token_views, TokenKind, TokenModel};

verus! {

/// Search options for fine-grained control
#[derive(Debug, Clone, Copy, PartialEq, Eq, Structural)]
pub struct SearchOptions {
    /// Enable fuzzy matching
    pub fuzzy: bool,
    /// Maximum edit distance for fuzzy matching
    pub max_edit_distance: usize,
    /// Enable pinyin search (for Chinese content)
    pub use_pinyin: bool,
    /// Generate highlighted snippets
    pub highlight: bool,
    /// Maximum number of results to return
    pub limit: usize,
    /// Use the result cache for repeated identical searches
    pub enable_cache: bool,
    /// Include per-component score breakdown in each result
    pub explain: bool,
}

impl Default for SearchOptions {
    fn default() -> (r: Self)
        ensures
            r == (SearchOptions {
                fuzzy: false,
                max_edit_distance: 2,
                use_pinyin: false,
                highlight: false,
                limit: 20,
                enable_cache: true,
                explain: false,
            }),
    {
        SearchOptions {
            fuzzy: false,
            max_edit_distance: 2,
            use_pinyin: false,
            highlight: false,
            limit: 20,
            enable_cache: true,
            explain: false,
        }
    }
}

/// The main search engine: the document index, the pinyin dictionary of its Chinese
/// terms, the query parser and the highlighter.
pub struct SearchEngine {
    index: InvertedIndex,
    query_parser: QueryParser,
    highlighter: Highlighter,
    pinyin_index: PinyinIndex,
    index_generation: u64,
}

/// The mathematical value of an engine.
pub struct EngineModel {
    pub index: IndexModel,
    pub pinyin: PinyinIndexModel,
    pub generation: int,
}

impl View for SearchEngine {
    type V = EngineModel;

    closed spec fn view(&self) -> EngineModel {
        EngineModel { index: self.index@, pinyin: self.pinyin_index@, generation: self.index_generation as int }
    }
}

/// The texts of the Chinese tokens of `toks`, in order.
pub open spec fn chinese_terms(toks: Seq<TokenModel>) -> Seq<Seq<char>>
    decreases toks.len(),
{
    if toks.len() == 0 {
        Seq::empty()
    } else {
        chinese_terms(toks.drop_last()) + if toks.last().kind == TokenKind::Chinese {
            seq![toks.last().text]
        } else {
            Seq::empty()
        }
    }
}

/// The pinyin dictionary after adding the Chinese terms of `texts`, text by text.
pub open spec fn batch_pinyin_spec(pm: PinyinIndexModel, texts: Seq<Seq<char>>) -> PinyinIndexModel
    decreases texts.len(),
{
    if texts.len() == 0 {
        pm
    } else {
        add_terms_spec(batch_pinyin_spec(pm, texts.drop_last()), chinese_terms(tokenize_spec(texts.last())))
    }
}

/// The generation after a change: one more, wrapping around.
pub open spec fn next_generation(g: int) -> int {
    if g == u64::MAX {
        0
    } else {
        g + 1
    }
}

impl SearchEngine {
    /// The engine is well formed: its index is, and its parser uses the default distance.
    pub closed spec fn wf(&self) -> bool {
        &&& self.index.wf()
        &&& self.query_parser.fuzzy_distance() == 2
    }

    /// The highlighter's configuration.
    pub closed spec fn highlighter_config(&self) -> HighlighterConfig {
        self.highlighter.config_spec()
    }

    /// Create a new search engine
    pub fn new() -> (r: Self)
        ensures
            r.wf(),
            r@.index == (IndexModel { docs: Seq::empty(), terms: Seq::empty(), next_id: 0 }),
            r@.pinyin.plain.len() == 0,
            r@.pinyin.initials.len() == 0,
            r@.generation == 0,
            r.highlighter_config().is_default(),
    {
        SearchEngine {
            index: InvertedIndex::new(),
            query_parser: QueryParser::new(),
            highlighter: Highlighter::new(),
            pinyin_index: PinyinIndex::new(),
            index_generation: 0,
        }
    }

    /// Create a new engine with custom highlighter config
    pub fn with_highlighter_config(config: HighlighterConfig) -> (r: Self)
        ensures
            r.wf(),
            r@.index == (IndexModel { docs: Seq::empty(), terms: Seq::empty(), next_id: 0 }),
            r@.pinyin.plain.len() == 0,
            r@.pinyin.initials.len() == 0,
            r@.generation == 0,
            r.highlighter_config() == config,
    {
        SearchEngine {
            index: InvertedIndex::new(),
            query_parser: QueryParser::new(),
            highlighter: Highlighter::with_config(config),
            pinyin_index: PinyinIndex::new(),
            index_generation: 0,
        }
    }

    fn invalidate_caches(&mut self)
        ensures
            final(self).index == old(self).index,
            final(self).pinyin_index == old(self).pinyin_index,
            final(self).query_parser == old(self).query_parser,
            final(self).highlighter == old(self).highlighter,
            final(self).index_generation as int == next_generation(old(self).index_generation as int),
    {
        self.index_generation = self.index_generation.wrapping_add(1);
        proof {
            if old(self).index_generation == u64::MAX {
                assert(self.index_generation == 0);
            }
        }
    }

    fn index_document(&mut self, text: &str) -> (id: usize)
        requires
            old(self).wf(),
            old(self)@.index.next_id < usize::MAX,
        ensures
            final(self).wf(),
            id == old(self)@.index.next_id,
            final(self)@.index == add_doc_spec(old(self)@.index, text@),
            final(self)@.pinyin == add_terms_spec(old(self)@.pinyin, chinese_terms(tokenize_spec(text@))),
            final(self)@.generation == old(self)@.generation,
            final(self).highlighter == old(self).highlighter,
    {
        let tokens = tokenize(text);
        let ghost tv = token_views(tokens@);
        let ghost pm0 = self.pinyin_index@;
        let mut k: usize = 0;
        proof {
            assert(tv.take(0) =~= Seq::<TokenModel>::empty());
        }
        while k < tokens.len()
            invariant
                k <= tokens@.len(),
                tv == token_views(tokens@),
                self.index == old(self).index,
                self.query_parser == old(self).query_parser,
                self.highlighter == old(self).highlighter,
                self.index_generation == old(self).index_generation,
                pm0 == old(self).pinyin_index@,
                self.pinyin_index@ == add_terms_spec(pm0, chinese_terms(tv.take(k as int))),
            decreases tokens@.len() - k,
        {
            proof {
                assert(tv.take(k + 1).drop_last() =~= tv.take(k as int));
                assert(tv.take(k + 1).last() == tokens@[k as int]@);
            }
            let ghost ct = chinese_terms(tv.take(k as int));
            if tokens[k].kind == TokenKind::Chinese {
                self.pinyin_index.add_term(tokens[k].text.as_str());
                proof {
                    assert(chinese_terms(tv.take(k + 1)) =~= ct.push(tokens@[k as int].text@));
                    assert(ct.push(tokens@[k as int].text@).drop_last() =~= ct);
                }
            } else {
                proof {
                    assert(chinese_terms(tv.take(k + 1)) =~= ct);
                }
            }
            k += 1;
        }
        proof {
            assert(tv.take(tv.len() as int) =~= tv);
        }
        self.index.add_document(text)
    }

    /// Index a single document. Returns the assigned document ID.
    pub fn index(&mut self, text: &str) -> (id: usize)
        requires
            old(self).wf(),
            old(self)@.index.next_id < usize::MAX,
        ensures
            final(self).wf(),
            id == old(self)@.index.next_id,
            final(self)@.index == add_doc_spec(old(self)@.index, text@),
            final(self)@.pinyin == add_terms_spec(old(self)@.pinyin, chinese_terms(tokenize_spec(text@))),
            final(self)@.generation == next_generation(old(self)@.generation),
            final(self).highlighter_config() == old(self).highlighter_config(),
    {
        let doc_id = self.index_document(text);
        self.invalidate_caches();
        doc_id
    }

    /// Batch index multiple documents. Returns assigned document IDs.
    pub fn index_batch(&mut self, texts: &[&str]) -> (ids: Vec<usize>)
        requires
            old(self).wf(),
            old(self)@.index.next_id + texts@.len() <= usize::MAX,
        ensures
            final(self).wf(),
            ids@.len() == texts@.len(),
            forall|k: int| 0 <= k < ids@.len() ==> ids@[k] == old(self)@.index.next_id + k,
            final(self)@.index == add_docs_spec(old(self)@.index, str_views(texts@)),
            final(self)@.pinyin == batch_pinyin_spec(old(self)@.pinyin, str_views(texts@)),
            final(self)@.generation == if texts@.len() > 0 {
                next_generation(old(self)@.generation)
            } else {
                old(self)@.generation
            },
            final(self).highlighter_config() == old(self).highlighter_config(),
    {
        let ghost vs = str_views(texts@);
        let mut ids: Vec<usize> = Vec::new();
        let mut k: usize = 0;
        while k < texts.len()
            invariant
                k <= texts@.len(),
                vs == str_views(texts@),
                self.wf(),
                self@.index == add_docs_spec(old(self)@.index, vs.take(k as int)),
                self@.pinyin == batch_pinyin_spec(old(self)@.pinyin, vs.take(k as int)),
                self@.generation == old(self)@.generation,
                self.highlighter == old(self).highlighter,
                self@.index.next_id == old(self)@.index.next_id + k,
                old(self)@.index.next_id + texts@.len() <= usize::MAX,
                ids@.len() == k,
                forall|j: int| 0 <= j < k ==> ids@[j] == old(self)@.index.next_id + j,
            decreases texts@.len() - k,
        {
            proof {
                assert(vs.take(k + 1).drop_last() =~= vs.take(k as int));
                assert(vs.take(k + 1).last() == texts@[k as int]@);
            }
            let id = self.index_document(texts[k]);
            ids.push(id);
            k += 1;
        }
        proof {
            assert(vs.take(vs.len() as int) =~= vs);
        }
        if ids.len() > 0 {
            self.invalidate_caches();
        }
        ids
    }

    /// Remove a document from the index
    pub fn remove(&mut self, doc_id: usize) -> (removed: bool)
        requires
            old(self).wf(),
        ensures
            final(self).wf(),
            removed == has_id(old(self)@.index.docs, doc_id as int),
            final(self)@.index == remove_doc_spec(old(self)@.index, doc_id as int),
            final(self)@.pinyin == old(self)@.pinyin,
            final(self)@.generation == if removed {
                next_generation(old(self)@.generation)
            } else {
                old(self)@.generation
            },
            final(self).highlighter_config() == old(self).highlighter_config(),
    {
        let removed = self.index.remove_document(doc_id);
        if removed {
            self.invalidate_caches();
        }
        removed
    }

    /// Get the total number of documents in the index
    pub fn doc_count(&self) -> (n: usize)
        ensures
            n == self@.index.docs.len(),
    {
        self.index.doc_count()
    }

    /// The id the next document will get.
    pub fn next_id(&self) -> (n: usize)
        ensures
            n == self@.index.next_id,
    {
        self.index.next_doc_id()
    }

    /// The generation of the index: it changes whenever the documents do.
    pub fn generation(&self) -> (g: u64)
        ensures
            g == self@.generation,
    {
        self.index_generation
    }

    /// Read access to the document index.
    pub fn inverted_index(&self) -> (r: &InvertedIndex)
        requires
            self.wf(),
        ensures
            r.wf(),
            r@ == self@.index,
    {
        &self.index
    }

    /// Get a document by ID
    pub fn get_document(&self, doc_id: usize) -> (r: Option<&str>)
        requires
            self.wf(),
        ensures
            match r {
                Some(s) => has_id(self@.index.docs, doc_id as int) && s@ == self@.index.docs[index_of_id(
                    self@.index.docs,
                    doc_id as int,
                )].text,
                None => !has_id(self@.index.docs, doc_id as int),
            },
    {
        self.index.document(doc_id)
    }

    /// Get all document IDs in the index, ascending.
    pub fn doc_ids(&self) -> (r: Vec<usize>)
        ensures
            r@.len() == self@.index.docs.len(),
            forall|k: int| 0 <= k < r@.len() ==> r@[k] as int == (#[trigger] self@.index.docs[k]).id,
    {
        self.index.doc_ids()
    }

    /// Clear the entire index
    pub fn clear(&mut self)
        requires
            old(self).wf(),
        ensures
            final(self).wf(),
            final(self)@.index == (IndexModel { docs: Seq::empty(), terms: Seq::empty(), next_id: 0 }),
            final(self)@.pinyin.plain.len() == 0,
            final(self)@.pinyin.initials.len() == 0,
            final(self)@.generation == next_generation(old(self)@.generation),
            final(self).highlighter_config() == old(self).highlighter_config(),
    {
        self.index = InvertedIndex::new();
        self.pinyin_index = PinyinIndex::new();
        self.invalidate_caches();
    }

    /// Get term frequency statistics: (documents containing it, occurrences).
    pub fn term_statistics(&self, term: &str) -> (r: Option<(usize, usize)>)
        requires
            self.wf(),
        ensures
            match r {
                Some(st) => doc_frequency_spec(self@.index.docs, term@) > 0 && st.0 == doc_frequency_spec(
                    self@.index.docs,
                    term@,
                ) && st.1 == capped(total_frequency_spec(self@.index.docs, term@)),
                None => doc_frequency_spec(self@.index.docs, term@) == 0,
            },
    {
        match self.index.term_stats(term) {
            Some(st) => Some((st.doc_frequency, st.total_frequency)),
            None => None,
        }
    }
}

// ==================== the terms a query names ====================

/// The terms a query includes: every term outside a negation (prefixes expanded over the
/// dictionary `terms`).
pub open spec fn include_terms_of(terms: Seq<Seq<char>>, q: QueryModel) -> Seq<Seq<char>>
    decreases q, 1int,
{
    match q {
        QueryModel::Term(t) => seq![t],
        QueryModel::Phrase(ts) => ts,
        QueryModel::Fuzzy(t, _) => seq![t],
        QueryModel::Prefix(p) => prefixed_terms(terms, p),
        QueryModel::CharMatch(cs) => char_terms(cs),
        QueryModel::And(cs) => list_include_terms(terms, cs, cs.len() as int),
        QueryModel::Or(cs) => list_include_terms(terms, cs, cs.len() as int),
        QueryModel::Not(_) => Seq::empty(),
    }
}

pub open spec fn list_include_terms(terms: Seq<Seq<char>>, cs: Seq<QueryModel>, n: int) -> Seq<Seq<char>>
    decreases cs, n,
{
    if n <= 0 || n > cs.len() {
        Seq::empty()
    } else {
        proof {
            assert(decreases_to!(cs => cs[n - 1]));
        }
        list_include_terms(terms, cs, n - 1) + if is_not(cs[n - 1]) {
            Seq::empty()
        } else {
            include_terms_of(terms, cs[n - 1])
        }
    }
}

/// The terms under a negation, as the exclusion list collects them.
pub open spec fn not_child_terms(terms: Seq<Seq<char>>, q: QueryModel) -> Seq<Seq<char>>
    decreases q, 1int,
{
    match q {
        QueryModel::Term(t) => seq![t],
        QueryModel::Phrase(ts) => ts,
        QueryModel::Fuzzy(t, _) => seq![t],
        QueryModel::Prefix(p) => prefixed_terms(terms, p),
        QueryModel::CharMatch(_) => Seq::empty(),
        QueryModel::And(cs) => list_not_child_terms(terms, cs, cs.len() as int),
        QueryModel::Or(cs) => list_not_child_terms(terms, cs, cs.len() as int),
        QueryModel::Not(c) => not_child_terms(terms, *c),
    }
}

pub open spec fn list_not_child_terms(terms: Seq<Seq<char>>, cs: Seq<QueryModel>, n: int) -> Seq<Seq<char>>
    decreases cs, n,
{
    if n <= 0 || n > cs.len() {
        Seq::empty()
    } else {
        proof {
            assert(decreases_to!(cs => cs[n - 1]));
        }
        list_not_child_terms(terms, cs, n - 1) + not_child_terms(terms, cs[n - 1])
    }
}

/// The terms a query excludes: those under each negation.
pub open spec fn exclude_terms_of(terms: Seq<Seq<char>>, q: QueryModel) -> Seq<Seq<char>>
    decreases q, 1int,
{
    match q {
        QueryModel::Not(c) => not_child_terms(terms, *c),
        QueryModel::And(cs) => list_exclude_terms(terms, cs, cs.len() as int),
        QueryModel::Or(cs) => list_exclude_terms(terms, cs, cs.len() as int),
        _ => Seq::empty(),
    }
}

pub open spec fn list_exclude_terms(terms: Seq<Seq<char>>, cs: Seq<QueryModel>, n: int) -> Seq<Seq<char>>
    decreases cs, n,
{
    if n <= 0 || n > cs.len() {
        Seq::empty()
    } else {
        proof {
            assert(decreases_to!(cs => cs[n - 1]));
        }
        list_exclude_terms(terms, cs, n - 1) + exclude_terms_of(terms, cs[n - 1])
    }
}

/// The phrases of two or more terms in a query, negated ones too.
pub open spec fn phrases_of(q: QueryModel) -> Seq<Seq<Seq<char>>>
    decreases q, 1int,
{
    match q {
        QueryModel::Phrase(ts) => if ts.len() >= 2 {
            seq![ts]
        } else {
            Seq::empty()
        },
        QueryModel::And(cs) => list_phrases(cs, cs.len() as int),
        QueryModel::Or(cs) => list_phrases(cs, cs.len() as int),
        QueryModel::Not(c) => phrases_of(*c),
        _ => Seq::empty(),
    }
}

pub open spec fn list_phrases(cs: Seq<QueryModel>, n: int) -> Seq<Seq<Seq<char>>>
    decreases cs, n,
{
    if n <= 0 || n > cs.len() {
        Seq::empty()
    } else {
        proof {
            assert(decreases_to!(cs => cs[n - 1]));
        }
        list_phrases(cs, n - 1) + phrases_of(cs[n - 1])
    }
}

proof fn lemma_collect_unfold(terms: Seq<Seq<char>>, q: QueryModel)
    ensures
        q matches QueryModel::Term(t) ==> include_terms_of(terms, q) == seq![t] && not_child_terms(terms, q) == seq![t]
            && exclude_terms_of(terms, q) == Seq::<Seq<char>>::empty() && phrases_of(q) == Seq::<Seq<Seq<char>>>::empty(),
        q matches QueryModel::Fuzzy(t, _) ==> include_terms_of(terms, q) == seq![t] && not_child_terms(terms, q) == seq![t]
            && exclude_terms_of(terms, q) == Seq::<Seq<char>>::empty() && phrases_of(q) == Seq::<Seq<Seq<char>>>::empty(),
        q matches QueryModel::Phrase(ts) ==> include_terms_of(terms, q) == ts && not_child_terms(terms, q) == ts
            && exclude_terms_of(terms, q) == Seq::<Seq<char>>::empty() && phrases_of(q) == (if ts.len() >= 2 {
            seq![ts]
        } else {
            Seq::<Seq<Seq<char>>>::empty()
        }),
        q matches QueryModel::Prefix(p) ==> include_terms_of(terms, q) == prefixed_terms(terms, p) && not_child_terms(terms, q)
            == prefixed_terms(terms, p) && exclude_terms_of(terms, q) == Seq::<Seq<char>>::empty() && phrases_of(q)
            == Seq::<Seq<Seq<char>>>::empty(),
        q matches QueryModel::CharMatch(cs) ==> include_terms_of(terms, q) == char_terms(cs) && not_child_terms(terms, q)
            == Seq::<Seq<char>>::empty() && exclude_terms_of(terms, q) == Seq::<Seq<char>>::empty() && phrases_of(q)
            == Seq::<Seq<Seq<char>>>::empty(),
        q matches QueryModel::And(cs) ==> include_terms_of(terms, q) == list_include_terms(terms, cs, cs.len() as int)
            && not_child_terms(terms, q) == list_not_child_terms(terms, cs, cs.len() as int) && exclude_terms_of(terms, q)
            == list_exclude_terms(terms, cs, cs.len() as int) && phrases_of(q) == list_phrases(cs, cs.len() as int),
        q matches QueryModel::Or(cs) ==> include_terms_of(terms, q) == list_include_terms(terms, cs, cs.len() as int)
            && not_child_terms(terms, q) == list_not_child_terms(terms, cs, cs.len() as int) && exclude_terms_of(terms, q)
            == list_exclude_terms(terms, cs, cs.len() as int) && phrases_of(q) == list_phrases(cs, cs.len() as int),
        q matches QueryModel::Not(c) ==> include_terms_of(terms, q) == Seq::<Seq<char>>::empty() && not_child_terms(terms, q)
            == not_child_terms(terms, *c) && exclude_terms_of(terms, q) == not_child_terms(terms, *c) && phrases_of(q)
            == phrases_of(*c),
{
}

proof fn lemma_collect_lists_step(terms: Seq<Seq<char>>, cs: Seq<QueryModel>, n: int)
    requires
        0 <= n < cs.len(),
    ensures
        list_include_terms(terms, cs, n + 1) == list_include_terms(terms, cs, n) + if is_not(cs[n]) {
            Seq::<Seq<char>>::empty()
        } else {
            include_terms_of(terms, cs[n])
        },
        list_not_child_terms(terms, cs, n + 1) == list_not_child_terms(terms, cs, n) + not_child_terms(terms, cs[n]),
        list_exclude_terms(terms, cs, n + 1) == list_exclude_terms(terms, cs, n) + exclude_terms_of(terms, cs[n]),
        list_phrases(cs, n + 1) == list_phrases(cs, n) + phrases_of(cs[n]),
{
}

proof fn lemma_collect_lists_base(terms: Seq<Seq<char>>, cs: Seq<QueryModel>)
    ensures
        list_include_terms(terms, cs, 0) == Seq::<Seq<char>>::empty(),
        list_not_child_terms(terms, cs, 0) == Seq::<Seq<char>>::empty(),
        list_exclude_terms(terms, cs, 0) == Seq::<Seq<char>>::empty(),
        list_phrases(cs, 0) == Seq::<Seq<Seq<char>>>::empty(),
{
}

/// Which of the term collections a traversal gathers.
#[derive(Clone, Copy, PartialEq, Eq, Structural)]
enum Collect {
    Include,
    NotChild,
    Exclude,
}

spec fn collect_spec(terms: Seq<Seq<char>>, mode: Collect, q: QueryModel) -> Seq<Seq<char>> {
    match mode {
        Collect::Include => include_terms_of(terms, q),
        Collect::NotChild => not_child_terms(terms, q),
        Collect::Exclude => exclude_terms_of(terms, q),
    }
}

/// Appends the terms of `op` that `mode` gathers to `out`.
fn collect_terms(index: &InvertedIndex, op: &QueryOp, mode: Collect, out: &mut Vec<String>)
    requires
        index.wf(),
    ensures
        strings_view(final(out)@) == strings_view(old(out)@) + collect_spec(index@.terms, mode, op.model()),
    decreases op,
{
    let ghost terms = index@.terms;
    let ghost o0 = strings_view(out@);
    proof {
        lemma_collect_unfold(terms, op.model());
        assert(o0 + Seq::<Seq<char>>::empty() =~= o0);
    }
    match op {
        QueryOp::Term(t) | QueryOp::Fuzzy(t, _) => {
            if mode != Collect::Exclude {
                out.push(copy_string(t));
                proof {
                    assert(strings_view(out@) =~= o0 + seq![t@]);
                }
            }
        },
        QueryOp::Phrase(ts) => {
            if mode != Collect::Exclude {
                extend_strings(out, ts);
            }
        },
        QueryOp::Prefix(p) => {
            if mode != Collect::Exclude {
                let pt = index.terms_with_prefix(p.as_str());
                extend_strings(out, &pt);
            }
        },
        QueryOp::CharMatch(cs) => {
            if mode == Collect::Include {
                let r = crate::explain::MatchReason::char_match(cs.as_slice());
                extend_strings(out, &r.terms);
            }
        },
        QueryOp::Not(c) => {
            if mode != Collect::Include {
                proof {
                    assert(decreases_to!(*op => (*op)->Not_0));
                }
                collect_terms(index, c, Collect::NotChild, out);
            }
        },
        QueryOp::And(children) | QueryOp::Or(children) => {
            let ghost cs = models(children@);
            proof {
                lemma_and_model(*children);
                lemma_collect_lists_base(terms, cs);
            }
            let mut j: usize = 0;
            while j < children.len()
                invariant
                    index.wf(),
                    terms == index@.terms,
                    cs == models(children@),
                    *op == QueryOp::And(*children) || *op == QueryOp::Or(*children),
                    j <= children@.len(),
                    mode == Collect::Include ==> strings_view(out@) == o0 + list_include_terms(terms, cs, j as int),
                    mode == Collect::NotChild ==> strings_view(out@) == o0 + list_not_child_terms(terms, cs, j as int),
                    mode == Collect::Exclude ==> strings_view(out@) == o0 + list_exclude_terms(terms, cs, j as int),
                decreases children@.len() - j,
            {
                proof {
                    lemma_collect_lists_step(terms, cs, j as int);
                    assert(cs[j as int] == children@[j as int].model());
                    vstd::std_specs::vec::axiom_vec_index_decreases(*children, j as int);
                    if *op == QueryOp::And(*children) {
                        assert(decreases_to!(*op => (*op)->And_0));
                    } else {
                        assert(decreases_to!(*op => (*op)->Or_0));
                    }
                }
                let ghost before = strings_view(out@);
                let skip = match &children[j] {
                    QueryOp::Not(_) => mode == Collect::Include,
                    _ => false,
                };
                if !skip {
                    collect_terms(index, &children[j], mode, out);
                } else {
                    proof {
                        assert(before + Seq::<Seq<char>>::empty() =~= before);
                    }
                }
                proof {
                    if mode == Collect::Include {
                        assert(strings_view(out@) =~= o0 + list_include_terms(terms, cs, j + 1));
                    } else if mode == Collect::NotChild {
                        assert(strings_view(out@) =~= o0 + list_not_child_terms(terms, cs, j + 1));
                    } else {
                        assert(strings_view(out@) =~= o0 + list_exclude_terms(terms, cs, j + 1));
                    }
                }
                j += 1;
            }
        },
    }
}

pub open spec fn phrase_views(v: Seq<Vec<String>>) -> Seq<Seq<Seq<char>>> {
    v.map_values(|p: Vec<String>| strings_view(p@))
}

/// Appends the phrases of two or more terms in `op` to `out`.
fn collect_phrases(op: &QueryOp, out: &mut Vec<Vec<String>>)
    ensures
        phrase_views(final(out)@) == phrase_views(old(out)@) + phrases_of(op.model()),
    decreases op,
{
    let ghost o0 = phrase_views(out@);
    proof {
        lemma_collect_unfold(Seq::empty(), op.model());
        assert(o0 + Seq::<Seq<Seq<char>>>::empty() =~= o0);
    }
    match op {
        QueryOp::Phrase(ts) => {
            if ts.len() >= 2 {
                let mut copy: Vec<String> = Vec::new();
                extend_strings(&mut copy, ts);
                out.push(copy);
                proof {
                    assert(strings_view(copy@) =~= strings_view(ts@));
                    assert(phrase_views(out@) =~= o0 + seq![strings_view(ts@)]);
                }
            }
        },
        QueryOp::Not(c) => {
            proof {
                assert(decreases_to!(*op => (*op)->Not_0));
            }
            collect_phrases(c, out);
        },
        QueryOp::And(children) | QueryOp::Or(children) => {
            let ghost cs = models(children@);
            proof {
                lemma_and_model(*children);
                lemma_collect_lists_base(Seq::empty(), cs);
            }
            let mut j: usize = 0;
            while j < children.len()
                invariant
                    cs == models(children@),
                    *op == QueryOp::And(*children) || *op == QueryOp::Or(*children),
                    j <= children@.len(),
                    phrase_views(out@) == o0 + list_phrases(cs, j as int),
                decreases children@.len() - j,
            {
                proof {
                    lemma_collect_lists_step(Seq::empty(), cs, j as int);
                    assert(cs[j as int] == children@[j as int].model());
                    vstd::std_specs::vec::axiom_vec_index_decreases(*children, j as int);
                    if *op == QueryOp::And(*children) {
                        assert(decreases_to!(*op => (*op)->And_0));
                    } else {
                        assert(decreases_to!(*op => (*op)->Or_0));
                    }
                }
                collect_phrases(&children[j], out);
                proof {
                    assert(phrase_views(out@) =~= o0 + list_phrases(cs, j + 1));
                }
                j += 1;
            }
        },
        _ => {},
    }
}

// ==================== retrieval ====================

/// The longest query accepted, in characters.
pub const MAX_QUERY_CHARS: usize = 512;

/// The most terms a query may name, included or excluded.
pub const MAX_QUERY_TERMS: usize = 64;

/// The limits searches evaluate with.
pub open spec fn default_limits() -> ExecutorLimits {
    ExecutorLimits { max_candidates: 10_000, max_fuzzy_terms_scan: 5_000, max_fuzzy_results_per_term: 32 }
}

/// The operation tree of a query.
pub open spec fn root_of(query: Seq<char>) -> QueryModel {
    parse_root_spec(query, 2)
}

/// The included terms of a query, sorted, each once.
pub open spec fn include_spec(m: IndexModel, query: Seq<char>) -> Seq<Seq<char>> {
    sorted_unique(include_terms_of(m.terms, root_of(query)))
}

/// The excluded terms of a query, sorted, each once.
pub open spec fn exclude_spec(m: IndexModel, query: Seq<char>) -> Seq<Seq<char>> {
    sorted_unique(exclude_terms_of(m.terms, root_of(query)))
}

/// Whether a search of `query` with `o` matches through pinyin.
pub open spec fn pinyin_requested(o: SearchOptions, query: Seq<char>) -> bool {
    o.use_pinyin || pinyin_flagged(trim_seq(query))
}

/// What a search retrieves before ranking: the parsed query, the terms to score and
/// highlight, and the candidate documents.
pub struct Retrieval {
    pub parsed: ParsedQuery,
    /// The included terms, sorted, each once.
    pub include_terms: Vec<String>,
    /// The terms results are scored and highlighted with.
    pub scoring_terms: Vec<String>,
    /// The phrases of two or more terms.
    pub phrases: Vec<Vec<String>>,
    /// The documents that satisfy the query tree, ascending.
    pub ast_candidates: Vec<usize>,
    /// The documents found through pinyin, ascending.
    pub pinyin_candidates: Vec<usize>,
    /// All candidate documents, ascending.
    pub candidates: Vec<usize>,
    /// Whether pinyin matching is in use.
    pub use_pinyin: bool,
    /// The text that pinyin matching reads: the query without its `pinyin:` / `py:` flag.
    pub pinyin_query: String,
}

/// For each document, whether its id is in `ids`.
fn ids_mask(index: &InvertedIndex, ids: &Vec<usize>) -> (mask: Vec<bool>)
    requires
        index.wf(),
    ensures
        mask@.len() == index@.docs.len(),
        forall|k: int| 0 <= k < mask@.len() ==> #[trigger] mask@[k] == ids_view(ids@).contains(index@.docs[k].id),
{
    let ghost docs = index@.docs;
    let n = index.doc_count();
    let mut mask = filled(n, false);
    let mut j: usize = 0;
    proof {
        index.lemma_wf();
    }
    while j < ids.len()
        invariant
            index.wf(),
            crate::index::index_wf(index@),
            docs == index@.docs,
            n == docs.len(),
            j <= ids@.len(),
            mask@.len() == n,
            forall|k: int| 0 <= k < n ==> #[trigger] mask@[k] == ids_view(ids@.take(j as int)).contains(docs[k].id),
        decreases ids@.len() - j,
    {
        let ghost before = mask@;
        let ghost pre = ids_view(ids@.take(j as int));
        let ghost cur = ids_view(ids@.take(j + 1));
        proof {
            assert(cur =~= pre.push(ids@[j as int] as int));
        }
        match index.position_of(ids[j]) {
            Some(p) => {
                mask.set(p, true);
                proof {
                    assert forall|k: int| 0 <= k < n implies #[trigger] mask@[k] == cur.contains(docs[k].id) by {
                        if k == p {
                            assert(cur[pre.len() as int] == docs[k].id);
                        } else {
                            if cur.contains(docs[k].id) && !pre.contains(docs[k].id) {
                                let t = choose|t: int| 0 <= t < cur.len() && cur[t] == docs[k].id;
                                if t < pre.len() {
                                    assert(pre[t] == docs[k].id);
                                } else {
                                    assert(docs[k].id == ids@[j as int] as int);
                                    crate::index::lemma_index_of_id(docs, k);
                                }
                            }
                            if pre.contains(docs[k].id) {
                                let t = choose|t: int| 0 <= t < pre.len() && pre[t] == docs[k].id;
                                assert(cur[t] == docs[k].id);
                            }
                        }
                    }
                }
            },
            None => {
                proof {
                    assert forall|k: int| 0 <= k < n implies #[trigger] mask@[k] == cur.contains(docs[k].id) by {
                        if cur.contains(docs[k].id) && !pre.contains(docs[k].id) {
                            let t = choose|t: int| 0 <= t < cur.len() && cur[t] == docs[k].id;
                            if t < pre.len() {
                                assert(pre[t] == docs[k].id);
                            } else {
                                assert(crate::index::has_id(docs, docs[k].id));
                            }
                        }
                        if pre.contains(docs[k].id) {
                            let t = choose|t: int| 0 <= t < pre.len() && pre[t] == docs[k].id;
                            assert(cur[t] == docs[k].id);
                        }
                    }
                }
            },
        }
        j += 1;
    }
    proof {
        assert(ids@.take(ids@.len() as int) =~= ids@);
    }
    mask
}

proof fn lemma_selected_len(docs: Seq<DocModel>, p: spec_fn(DocModel) -> bool)
    ensures
        selected_ids(docs, p).len() <= docs.len(),
    decreases docs.len(),
{
    if docs.len() > 0 {
        lemma_selected_len(docs.drop_last(), p);
    }
}

/// The ids of the documents whose id is in `a` or in `b`, ascending.
pub open spec fn union_ids(docs: Seq<DocModel>, a: Seq<int>, b: Seq<int>) -> Seq<int> {
    selected_ids(docs, |d: DocModel| a.contains(d.id) || b.contains(d.id))
}

/// The terms results are scored with: the included terms, plus the fuzzy expansions when
/// fuzzy matching is on.
pub open spec fn scoring_spec(m: IndexModel, o: SearchOptions, query: Seq<char>) -> Seq<Seq<char>> {
    if o.fuzzy {
        append_new(include_spec(m, query), distinct_terms(op_fuzzy_terms(m, o, default_limits(), root_of(query))))
    } else {
        include_spec(m, query)
    }
}

/// `acc` followed by the strings of `more` that it does not hold yet.
pub(crate) fn append_new_strings(acc: &mut Vec<String>, more: &Vec<String>)
    ensures
        strings_view(final(acc)@) == append_new(strings_view(old(acc)@), strings_view(more@)),
{
    let ghost a0 = strings_view(acc@);
    let ghost mv = strings_view(more@);
    let mut k: usize = 0;
    proof {
        assert(mv.take(0) =~= Seq::<Seq<char>>::empty());
    }
    while k < more.len()
        invariant
            k <= more@.len(),
            mv == strings_view(more@),
            strings_view(acc@) == append_new(a0, mv.take(k as int)),
        decreases more@.len() - k,
    {
        proof {
            assert(mv.take(k + 1).drop_last() =~= mv.take(k as int));
            assert(mv.take(k + 1).last() == more@[k as int]@);
        }
        match crate::text::find_string(acc, &more[k]) {
            Some(j) => {
                proof {
                    assert(strings_view(acc@)[j as int] == more@[k as int]@);
                }
            },
            None => {
                let ghost before = strings_view(acc@);
                acc.push(copy_string(&more[k]));
                proof {
                    assert(strings_view(acc@) =~= before.push(more@[k as int]@));
                }
            },
        }
        k += 1;
    }
    proof {
        assert(mv.take(mv.len() as int) =~= mv);
    }
}

impl SearchEngine {
    /// Everything a search does before ranking: checks the query's length and number of
    /// terms, parses it, and gathers the candidate documents and the terms to score with.
    /// `Ok(None)` means the query names nothing to look for.
    pub fn retrieve(&self, query: &str, options: &SearchOptions) -> (r: Result<Option<Retrieval>, SearchlightError>)
        requires
            self.wf(),
        ensures
            ({
                let m = self@.index;
                let inc = include_spec(m, query@);
                let exc = exclude_spec(m, query@);
                let too_long = query@.len() > MAX_QUERY_CHARS;
                let too_many = inc.len() > MAX_QUERY_TERMS || exc.len() > MAX_QUERY_TERMS;
                match r {
                    Err(e) => (too_long && e == SearchlightError::QueryTooLong {
                        max: MAX_QUERY_CHARS,
                        actual: query@.len() as usize,
                    }) || (!too_long && too_many && e == SearchlightError::TooManyTerms { max: MAX_QUERY_TERMS }),
                    Ok(None) => !too_long && !too_many && inc.len() == 0 && !pinyin_requested(*options, query@),
                    Ok(Some(x)) => {
                        &&& !too_long && !too_many
                        &&& (inc.len() > 0 || pinyin_requested(*options, query@))
                        &&& x.parsed.root.model() == root_of(query@)
                        &&& x.parsed.original@ == query@
                        &&& x.use_pinyin == pinyin_requested(*options, query@)
                        &&& x.pinyin_query@ == pinyin_text(query@)
                        &&& strings_view(x.include_terms@) == inc
                        &&& strings_view(x.scoring_terms@) == scoring_spec(m, *options, query@)
                        &&& phrase_views(x.phrases@) == phrases_of(root_of(query@))
                        &&& ids_view(x.ast_candidates@) == first_n(
                            selected_ids(m.docs, |d: DocModel| op_hit(m, *options, default_limits(), root_of(query@), d)),
                            10_000,
                        )
                        &&& ids_view(x.pinyin_candidates@) == if pinyin_requested(*options, query@) {
                            first_n(selected_ids(m.docs, |d: DocModel| pinyin_hit(self@.pinyin, pinyin_text(query@), d)), 10_000)
                        } else {
                            Seq::<int>::empty()
                        }
                        &&& ids_view(x.candidates@) == union_ids(m.docs, ids_view(x.ast_candidates@), ids_view(x.pinyin_candidates@))
                    },
                }
            }),
    {
        let query_len = crate::fuzzy::char_count(query);
        if query_len > MAX_QUERY_CHARS {
            return Err(SearchlightError::QueryTooLong { max: MAX_QUERY_CHARS, actual: query_len });
        }
        let parsed = self.query_parser.parse(query);
        let mut inc_raw: Vec<String> = Vec::new();
        collect_terms(&self.index, &parsed.root, Collect::Include, &mut inc_raw);
        let included = sort_dedup_strings(&inc_raw);
        let mut exc_raw: Vec<String> = Vec::new();
        collect_terms(&self.index, &parsed.root, Collect::Exclude, &mut exc_raw);
        let excluded = sort_dedup_strings(&exc_raw);
        proof {
            assert(strings_view(inc_raw@) =~= include_terms_of(self@.index.terms, root_of(query@)));
            assert(strings_view(exc_raw@) =~= exclude_terms_of(self@.index.terms, root_of(query@)));
        }
        if included.len() > MAX_QUERY_TERMS || excluded.len() > MAX_QUERY_TERMS {
            return Err(SearchlightError::TooManyTerms { max: MAX_QUERY_TERMS });
        }
        let use_pinyin = options.use_pinyin || parsed.use_pinyin;
        if included.len() == 0 && !use_pinyin {
            return Ok(None);
        }
        let mut phrases: Vec<Vec<String>> = Vec::new();
        collect_phrases(&parsed.root, &mut phrases);
        proof {
            assert(phrase_views(phrases@) =~= phrases_of(root_of(query@)));
        }
        let ctx = ExecutorContext {
            index: &self.index,
            pinyin_index: &self.pinyin_index,
            index_generation: self.index_generation,
            options,
            parsed: &parsed,
            query,
            limits: ExecutorLimits::default(),
        };
        let evaluation = QueryExecutor::evaluate(&ctx, &parsed.root);
        let pinyin_query = pinyin_query_text(query);
        let pinyin_candidates = if use_pinyin {
            QueryExecutor::pinyin_candidates(&ctx, pinyin_query.as_str())
        } else {
            let v: Vec<usize> = Vec::new();
            proof {
                assert(ids_view(v@) =~= Seq::<int>::empty());
            }
            v
        };
        let mut mask = ids_mask(&self.index, &evaluation.candidates);
        let pmask = ids_mask(&self.index, &pinyin_candidates);
        crate::executor::or_into(&mut mask, &pmask);
        let ghost a = ids_view(evaluation.candidates@);
        let ghost b = ids_view(pinyin_candidates@);
        let ghost pred = |d: DocModel| a.contains(d.id) || b.contains(d.id);
        let candidates = mask_ids(&self.index, &mask, usize::MAX, Ghost(pred));
        let n = self.index.doc_count();
        proof {
            lemma_selected_len(self@.index.docs, pred);
        }
        let mut scoring_terms: Vec<String> = Vec::new();
        extend_strings(&mut scoring_terms, &included);
        proof {
            assert(strings_view(scoring_terms@) =~= strings_view(included@));
        }
        if options.fuzzy {
            append_new_strings(&mut scoring_terms, &evaluation.fuzzy_terms);
        }
        Ok(
            Some(
                Retrieval {
                    parsed,
                    include_terms: included,
                    scoring_terms,
                    phrases,
                    ast_candidates: evaluation.candidates,
                    pinyin_candidates,
                    candidates,
                    use_pinyin,
                    pinyin_query,
                },
            ),
        )
    }
}

// ==================== match information ====================

/// The spans of the occurrences of `t` in document `id`.
pub open spec fn doc_positions(docs: Seq<DocModel>, id: int, t: Seq<char>) -> Seq<(int, int)> {
    posting_spans(crate::index::postings_spec(docs, t), id)
}

/// `t`, `n` times.
pub open spec fn repeat_term(t: Seq<char>, n: nat) -> Seq<Seq<char>> {
    Seq::new(n, |i: int| t)
}

/// For fuzzy matches `fms`: each match once per occurrence in document `id`, and those
/// occurrences.
pub open spec fn fuzzy_info(docs: Seq<DocModel>, id: int, fms: Seq<Seq<char>>) -> (Seq<Seq<char>>, Seq<(int, int)>)
    decreases fms.len(),
{
    if fms.len() == 0 {
        (Seq::empty(), Seq::empty())
    } else {
        let prev = fuzzy_info(docs, id, fms.drop_last());
        let sp = doc_positions(docs, id, fms.last());
        (prev.0 + repeat_term(fms.last(), sp.len()), prev.1 + sp)
    }
}

/// The matched terms and spans of `terms` in document `id`, before sorting: a term found
/// as it is counts with its occurrences; one that is not, under fuzzy matching, counts
/// through its expansions.
pub open spec fn match_acc(m: IndexModel, o: SearchOptions, id: int, terms: Seq<Seq<char>>) -> (Seq<Seq<char>>, Seq<(int, int)>)
    decreases terms.len(),
{
    if terms.len() == 0 {
        (Seq::empty(), Seq::empty())
    } else {
        let prev = match_acc(m, o, id, terms.drop_last());
        let t = terms.last();
        let exact = doc_positions(m.docs, id, t);
        let found = exact.len() > 0;
        let fz = if !found && o.fuzzy {
            fuzzy_info(m.docs, id, expansion_spec(m, default_limits(), t, o.max_edit_distance as int))
        } else {
            (Seq::empty(), Seq::empty())
        };
        (prev.0 + fz.0 + if found {
            seq![t]
        } else {
            Seq::empty()
        }, prev.1 + exact + fz.1)
    }
}

/// `s` without elements equal to the one before them.
pub open spec fn dedup_adjacent(s: Seq<(int, int)>) -> Seq<(int, int)>
    decreases s.len(),
{
    if s.len() == 0 {
        Seq::empty()
    } else {
        let d = dedup_adjacent(s.drop_last());
        if s.len() >= 2 && s[s.len() - 2] == s.last() {
            d
        } else {
            d.push(s.last())
        }
    }
}

/// The matched terms (sorted, each once) and match spans (sorted by start, repeats
/// dropped) of `terms` in document `id`.
pub open spec fn match_info_spec(m: IndexModel, o: SearchOptions, id: int, terms: Seq<Seq<char>>) -> (Seq<Seq<char>>, Seq<(int, int)>) {
    let acc = match_acc(m, o, id, terms);
    (sorted_unique(acc.0), dedup_adjacent(sort_by_start(acc.1)))
}

/// Appends the spans of the occurrences of `t` in document `doc_id` to `out`; `count`
/// copies of `t` go to `names` when asked.
fn push_doc_positions(index: &InvertedIndex, doc_id: usize, t: &String, out: &mut Vec<(usize, usize)>, names: &mut Vec<String>, name_each: bool)
    requires
        index.wf(),
    ensures
        span_views(final(out)@) == span_views(old(out)@) + doc_positions(index@.docs, doc_id as int, t@),
        strings_view(final(names)@) == strings_view(old(names)@) + if name_each {
            repeat_term(t@, doc_positions(index@.docs, doc_id as int, t@).len())
        } else {
            Seq::<Seq<char>>::empty()
        },
{
    let ghost o0 = span_views(out@);
    let ghost n0 = strings_view(names@);
    let ghost ps_all = crate::index::postings_spec(index@.docs, t@);
    match index.posting_list(t.as_str()) {
        Some(ps) => {
            let mut j: usize = 0;
            proof {
                assert(ps_all.take(0) =~= Seq::<crate::index::TermPositionModel>::empty());
                assert(o0 + Seq::<(int, int)>::empty() =~= o0);
                assert(n0 + repeat_term(t@, 0) =~= n0);
                assert(n0 + Seq::<Seq<char>>::empty() =~= n0);
            }
            while j < ps.len()
                invariant
                    j <= ps@.len(),
                    crate::index::position_views(ps@) == ps_all,
                    span_views(out@) == o0 + posting_spans(ps_all.take(j as int), doc_id as int),
                    strings_view(names@) == n0 + if name_each {
                        repeat_term(t@, posting_spans(ps_all.take(j as int), doc_id as int).len())
                    } else {
                        Seq::<Seq<char>>::empty()
                    },
                decreases ps@.len() - j,
            {
                let ghost before = out@;
                let ghost nb = strings_view(names@);
                proof {
                    assert(ps_all.take(j + 1).drop_last() =~= ps_all.take(j as int));
                    assert(ps_all.take(j + 1).last() == ps@[j as int]@);
                }
                if ps[j].doc_id == doc_id {
                    out.push((ps[j].start, ps[j].end));
                    proof {
                        assert(span_views(out@) =~= span_views(before).push((ps@[j as int].start as int, ps@[j as int].end as int)));
                    }
                    if name_each {
                        names.push(copy_string(t));
                        proof {
                            let k = posting_spans(ps_all.take(j as int), doc_id as int).len();
                            assert(strings_view(names@) =~= nb.push(t@));
                            assert(repeat_term(t@, k + 1) =~= repeat_term(t@, k).push(t@));
                        }
                    }
                }
                j += 1;
            }
            proof {
                assert(ps_all.take(ps_all.len() as int) =~= ps_all);
            }
        },
        None => {
            proof {
                assert(posting_spans(ps_all, doc_id as int) =~= Seq::<(int, int)>::empty());
                assert(o0 + Seq::<(int, int)>::empty() =~= o0);
                assert(repeat_term(t@, 0) =~= Seq::<Seq<char>>::empty());
                assert(n0 + Seq::<Seq<char>>::empty() =~= n0);
            }
        },
    }
}

/// `v` without elements equal to the one before them.
fn dedup_adjacent_spans(v: &Vec<(usize, usize)>) -> (r: Vec<(usize, usize)>)
    ensures
        span_views(r@) == dedup_adjacent(span_views(v@)),
{
    let ghost sv = span_views(v@);
    let mut r: Vec<(usize, usize)> = Vec::new();
    let mut k: usize = 0;
    proof {
        assert(sv.take(0) =~= Seq::<(int, int)>::empty());
    }
    while k < v.len()
        invariant
            k <= v@.len(),
            sv == span_views(v@),
            span_views(r@) == dedup_adjacent(sv.take(k as int)),
        decreases v@.len() - k,
    {
        let ghost cur = sv.take(k + 1);
        proof {
            assert(cur.drop_last() =~= sv.take(k as int));
            assert(cur.last() == sv[k as int]);
            if k >= 1 {
                assert(cur[cur.len() - 2] == sv[k - 1]);
            }
        }
        let ghost before = r@;
        if k == 0 || v[k - 1].0 != v[k].0 || v[k - 1].1 != v[k].1 {
            r.push(v[k]);
            proof {
                assert(span_views(r@) =~= span_views(before).push(sv[k as int]));
            }
        }
        k += 1;
    }
    proof {
        assert(sv.take(sv.len() as int) =~= sv);
    }
    r
}

proof fn lemma_match_acc_step(m: IndexModel, o: SearchOptions, id: int, terms: Seq<Seq<char>>)
    requires
        terms.len() > 0,
    ensures
        match_acc(m, o, id, terms) == ({
            let prev = match_acc(m, o, id, terms.drop_last());
            let t = terms.last();
            let exact = doc_positions(m.docs, id, t);
            let found = exact.len() > 0;
            let fz = if !found && o.fuzzy {
                fuzzy_info(m.docs, id, expansion_spec(m, default_limits(), t, o.max_edit_distance as int))
            } else {
                (Seq::<Seq<char>>::empty(), Seq::<(int, int)>::empty())
            };
            (prev.0 + fz.0 + if found {
                seq![t]
            } else {
                Seq::<Seq<char>>::empty()
            }, prev.1 + exact + fz.1)
        }),
{
}

impl SearchEngine {
    /// The matched terms and the match spans of `query_terms` in document `doc_id`.
    pub fn match_info(&self, doc_id: usize, query_terms: &[String], options: &SearchOptions) -> (r: (Vec<String>, Vec<(usize, usize)>))
        requires
            self.wf(),
        ensures
            strings_view(r.0@) == match_info_spec(self@.index, *options, doc_id as int, strings_view(query_terms@)).0,
            span_views(r.1@) == match_info_spec(self@.index, *options, doc_id as int, strings_view(query_terms@)).1,
    {
        let ghost m = self@.index;
        let ghost terms = strings_view(query_terms@);
        let mut matched: Vec<String> = Vec::new();
        let mut positions: Vec<(usize, usize)> = Vec::new();
        let mut k: usize = 0;
        proof {
            assert(terms.take(0) =~= Seq::<Seq<char>>::empty());
            assert(strings_view(matched@) =~= Seq::<Seq<char>>::empty());
            assert(span_views(positions@) =~= Seq::<(int, int)>::empty());
        }
        let limits = ExecutorLimits::default();
        let ctx_options = *options;
        while k < query_terms.len()
            invariant
                self.wf(),
                m == self@.index,
                terms == strings_view(query_terms@),
                k <= query_terms@.len(),
                limits == default_limits(),
                ctx_options == *options,
                strings_view(matched@) == match_acc(m, *options, doc_id as int, terms.take(k as int)).0,
                span_views(positions@) == match_acc(m, *options, doc_id as int, terms.take(k as int)).1,
            decreases query_terms@.len() - k,
        {
            let ghost cur = terms.take(k + 1);
            proof {
                assert(cur.drop_last() =~= terms.take(k as int));
                assert(cur.last() == query_terms@[k as int]@);
                lemma_match_acc_step(m, *options, doc_id as int, cur);
            }
            let ghost m0 = strings_view(matched@);
            let ghost p0 = span_views(positions@);
            let t = &query_terms[k];
            let mut exact: Vec<(usize, usize)> = Vec::new();
            let mut unused: Vec<String> = Vec::new();
            push_doc_positions(&self.index, doc_id, t, &mut exact, &mut unused, false);
            proof {
                assert(span_views(exact@) =~= doc_positions(m.docs, doc_id as int, t@));
            }
            let found = exact.len() > 0;
            let mut k2: usize = 0;
            while k2 < exact.len()
                invariant
                    k2 <= exact@.len(),
                    span_views(positions@) == p0 + span_views(exact@).take(k2 as int),
                decreases exact@.len() - k2,
            {
                let ghost before = span_views(positions@);
                positions.push(exact[k2]);
                proof {
                    assert(span_views(positions@) =~= before.push(span_views(exact@)[k2 as int]));
                    assert(span_views(exact@).take(k2 + 1) =~= span_views(exact@).take(k2 as int).push(span_views(exact@)[k2 as int]));
                }
                k2 += 1;
            }
            proof {
                assert(span_views(exact@).take(exact@.len() as int) =~= span_views(exact@));
            }
            let ghost p1 = span_views(positions@);
            let ghost mm1 = strings_view(matched@);
            if !found && options.fuzzy {
                let parsed = ParsedQuery {
                    root: QueryOp::And(Vec::new()),
                    original: String::new(),
                    use_pinyin: false,
                    max_edit_distance: options.max_edit_distance,
                };
                let ctx = ExecutorContext {
                    index: &self.index,
                    pinyin_index: &self.pinyin_index,
                    index_generation: self.index_generation,
                    options: &ctx_options,
                    parsed: &parsed,
                    query: "",
                    limits,
                };
                let fms = fuzzy_expansion(&ctx, t.as_str(), options.max_edit_distance);
                let ghost es = strings_view(fms@);
                let mut j: usize = 0;
                proof {
                    assert(es.take(0) =~= Seq::<Seq<char>>::empty());
                    assert(mm1 + fuzzy_info(m.docs, doc_id as int, es.take(0)).0 =~= mm1);
                    assert(p1 + fuzzy_info(m.docs, doc_id as int, es.take(0)).1 =~= p1);
                }
                while j < fms.len()
                    invariant
                        self.wf(),
                        m == self@.index,
                        j <= fms@.len(),
                        es == strings_view(fms@),
                        strings_view(matched@) == mm1 + fuzzy_info(m.docs, doc_id as int, es.take(j as int)).0,
                        span_views(positions@) == p1 + fuzzy_info(m.docs, doc_id as int, es.take(j as int)).1,
                    decreases fms@.len() - j,
                {
                    proof {
                        assert(es.take(j + 1).drop_last() =~= es.take(j as int));
                        assert(es.take(j + 1).last() == fms@[j as int]@);
                    }
                    let ghost ma = strings_view(matched@);
                    let ghost pa = span_views(positions@);
                    push_doc_positions(&self.index, doc_id, &fms[j], &mut positions, &mut matched, true);
                    proof {
                        assert(strings_view(matched@) =~= mm1 + fuzzy_info(m.docs, doc_id as int, es.take(j + 1)).0);
                        assert(span_views(positions@) =~= p1 + fuzzy_info(m.docs, doc_id as int, es.take(j + 1)).1);
                    }
                    j += 1;
                }
                proof {
                    assert(es.take(es.len() as int) =~= es);
                }
            } else {
                proof {
                    assert(mm1 + Seq::<Seq<char>>::empty() =~= mm1);
                    assert(p1 + Seq::<(int, int)>::empty() =~= p1);
                }
            }
            if found {
                let ghost mb = strings_view(matched@);
                matched.push(copy_string(t));
                proof {
                    assert(strings_view(matched@) =~= mb + seq![t@]);
                }
            } else {
                proof {
                    assert(strings_view(matched@) + Seq::<Seq<char>>::empty() =~= strings_view(matched@));
                }
            }
            proof {
                assert(strings_view(matched@) =~= match_acc(m, *options, doc_id as int, cur).0);
                assert(span_views(positions@) =~= match_acc(m, *options, doc_id as int, cur).1);
            }
            k += 1;
        }
        proof {
            assert(terms.take(terms.len() as int) =~= terms);
        }
        let names = sort_dedup_strings(&matched);
        let sorted = sort_spans(&positions);
        let spans = dedup_adjacent_spans(&sorted);
        (names, spans)
    }
}

// ==================== per-result details ====================

/// The pinyin reason a result gets: when only pinyin found it, or when its text matches the
/// pinyin reading of the query.
pub open spec fn pinyin_reasons(
    use_pinyin: bool,
    in_pinyin: bool,
    in_ast: bool,
    query: Seq<char>,
    text: Seq<char>,
) -> Seq<ReasonModel> {
    if (in_pinyin && !in_ast) || (use_pinyin && pinyin_matches_spec(query, text)) {
        seq![pinyin_reason(query)]
    } else {
        Seq::empty()
    }
}

/// The text of document `id`, or nothing when there is none.
pub open spec fn text_or_empty(m: IndexModel, id: int) -> Seq<char> {
    if has_id(m.docs, id) {
        m.docs[index_of_id(m.docs, id)].text
    } else {
        Seq::empty()
    }
}

fn contains_id(v: &Vec<usize>, id: usize) -> (r: bool)
    ensures
        r == ids_view(v@).contains(id as int),
{
    let mut k: usize = 0;
    while k < v.len()
        invariant
            k <= v@.len(),
            forall|j: int| 0 <= j < k ==> v@[j] != id,
        decreases v@.len() - k,
    {
        if v[k] == id {
            proof {
                assert(ids_view(v@)[k as int] == id as int);
            }
            return true;
        }
        k += 1;
    }
    proof {
        if ids_view(v@).contains(id as int) {
            let j = choose|j: int| 0 <= j < ids_view(v@).len() && ids_view(v@)[j] == id as int;
            assert(v@[j] == id);
        }
    }
    false
}

/// Stable descending order by document frequency: `t` goes after every term that is at
/// least as frequent.
pub open spec fn insert_by_df(docs: Seq<DocModel>, acc: Seq<Seq<char>>, t: Seq<char>) -> Seq<Seq<char>>
    decreases acc.len(),
{
    if acc.len() == 0 {
        seq![t]
    } else if doc_frequency_spec(docs, acc.last()) >= doc_frequency_spec(docs, t) {
        acc.push(t)
    } else {
        insert_by_df(docs, acc.drop_last(), t).push(acc.last())
    }
}

/// `ts` stably sorted by document frequency, most frequent first.
pub open spec fn sort_by_df(docs: Seq<DocModel>, ts: Seq<Seq<char>>) -> Seq<Seq<char>>
    decreases ts.len(),
{
    if ts.len() == 0 {
        Seq::empty()
    } else {
        insert_by_df(docs, sort_by_df(docs, ts.drop_last()), ts.last())
    }
}

/// At most `n` elements of `s`, from the front.
pub open spec fn at_most(s: Seq<Seq<char>>, n: int) -> Seq<Seq<char>> {
    if n <= s.len() {
        s.take(n)
    } else {
        s
    }
}

/// The autocomplete suggestions for `prefix`: dictionary terms starting with its lower case,
/// most frequent first, at most ten.
pub open spec fn suggest_spec(m: IndexModel, prefix: Seq<char>) -> Seq<Seq<char>> {
    at_most(sort_by_df(m.docs, prefixed_terms(m.terms, unicode_lowercase_str(prefix))), 10)
}

/// ASCII punctuation.
pub open spec fn ascii_punctuation(c: char) -> bool {
    ||| '!' <= c <= '/'
    ||| ':' <= c <= '@'
    ||| '[' <= c <= '`'
    ||| '{' <= c <= '~'
}

/// Whether a term is worth suggesting as related: something besides whitespace and ASCII
/// punctuation, and not a single ASCII character.
pub open spec fn related_term_ok(t: Seq<char>) -> bool {
    let s = trim_seq(t);
    &&& s.len() > 0
    &&& !(forall|i: int| 0 <= i < s.len() ==> ascii_punctuation(#[trigger] s[i]) || crate::tokenizer::whitespace_code_point(s[i]))
    &&& !(s.len() == 1 && (s[0] as u32) < 128)
}

/// Whether a term is worth suggesting as related to a query.
pub fn is_related_suggestion_term(term: &str) -> (r: bool)
    ensures
        r == related_term_ok(term@),
{
    let s = trim_str(term);
    if s.len() == 0 {
        return false;
    }
    let mut all_punct = true;
    let mut i: usize = 0;
    while i < s.len()
        invariant
            i <= s@.len(),
            all_punct == forall|j: int| 0 <= j < i ==> ascii_punctuation(#[trigger] s@[j]) || crate::tokenizer::whitespace_code_point(s@[j]),
        decreases s@.len() - i,
    {
        let c = s[i];
        let p = ('!' <= c && c <= '/') || (':' <= c && c <= '@') || ('[' <= c && c <= '`') || ('{' <= c && c <= '~');
        if !(p || crate::tokenizer::is_whitespace_char(c)) {
            all_punct = false;
        }
        proof {
            if !all_punct && forall|j: int| 0 <= j < i + 1 ==> ascii_punctuation(#[trigger] s@[j]) || crate::tokenizer::whitespace_code_point(s@[j]) {
                assert(ascii_punctuation(s@[i as int]) || crate::tokenizer::whitespace_code_point(s@[i as int]));
                assert forall|j: int| 0 <= j < i implies ascii_punctuation(#[trigger] s@[j]) || crate::tokenizer::whitespace_code_point(s@[j]) by {
                    assert(0 <= j < i + 1);
                }
            }
        }
        i += 1;
    }
    if all_punct {
        return false;
    }
    if s.len() == 1 && (s[0] as u32) < 128 {
        return false;
    }
    true
}

/// The pairs of `ps` whose term is not in `excluded` and is worth suggesting as related.
pub open spec fn related_pairs(ps: Seq<(Seq<char>, nat)>, excluded: Seq<Seq<char>>) -> Seq<(Seq<char>, nat)>
    decreases ps.len(),
{
    if ps.len() == 0 {
        Seq::empty()
    } else {
        let r = related_pairs(ps.drop_last(), excluded);
        if !excluded.contains(ps.last().0) && related_term_ok(ps.last().0) {
            r.push(ps.last())
        } else {
            r
        }
    }
}

/// `ids` after noting `doc_id` as a source: added at the end unless already there or five
/// are noted.
pub open spec fn add_source_spec(ids: Seq<usize>, doc_id: usize) -> Seq<usize> {
    if !ids.contains(doc_id) && ids.len() < 5 {
        ids.push(doc_id)
    } else {
        ids
    }
}

/// Notes `doc_id` as a source document of a related suggestion: at most five are kept, each
/// once, in the order they were noted.
pub fn add_source_doc(ids: &mut Vec<usize>, doc_id: usize)
    ensures
        final(ids)@ == add_source_spec(old(ids)@, doc_id),
{
    let mut k: usize = 0;
    let mut found = false;
    while k < ids.len()
        invariant
            k <= ids@.len(),
            found <==> exists|j: int| 0 <= j < k && ids@[j] == doc_id,
        decreases ids@.len() - k,
    {
        if ids[k] == doc_id {
            found = true;
        }
        k += 1;
    }
    proof {
        if ids@.contains(doc_id) {
            let j = choose|j: int| 0 <= j < ids@.len() && ids@[j] == doc_id;
        }
        if found {
            let j = choose|j: int| 0 <= j < k && ids@[j] == doc_id;
            assert(ids@.contains(doc_id));
        }
    }
    if !found && ids.len() < 5 {
        ids.push(doc_id);
    }
}

impl SearchEngine {
    /// The terms of document `doc_id` that related suggestions may offer, with their
    /// frequency in it, in first-occurrence order: those not in `excluded` and worth
    /// suggesting. `None` when there is no such document.
    pub fn related_terms_of(&self, doc_id: usize, excluded: &Vec<String>) -> (r: Option<Vec<(String, usize)>>)
        requires
            self.wf(),
        ensures
            match r {
                Some(v) => has_id(self@.index.docs, doc_id as int) && crate::index::pair_views(v@) == related_pairs(
                    crate::index::freq_list(
                        crate::index::texts_of(self@.index.docs[index_of_id(self@.index.docs, doc_id as int)].tokens),
                    ),
                    strings_view(excluded@),
                ),
                None => !has_id(self@.index.docs, doc_id as int),
            },
    {
        match self.index.document_term_frequencies(doc_id) {
            None => None,
            Some(pairs) => {
                let ghost ps = crate::index::pair_views(pairs@);
                let mut out: Vec<(String, usize)> = Vec::new();
                let mut k: usize = 0;
                while k < pairs.len()
                    invariant
                        k <= pairs@.len(),
                        ps == crate::index::pair_views(pairs@),
                        crate::index::pair_views(out@) == related_pairs(ps.take(k as int), strings_view(excluded@)),
                    decreases pairs@.len() - k,
                {
                    let term = &pairs[k].0;
                    let count = pairs[k].1;
                    proof {
                        assert(ps.take(k + 1).drop_last() =~= ps.take(k as int));
                        assert(ps.take(k + 1).last() == ps[k as int]);
                        assert(ps[k as int] == (term@, count as nat));
                    }
                    let keep = match crate::text::find_string(excluded, term) {
                        Some(j) => {
                            proof {
                                assert(strings_view(excluded@)[j as int] == term@);
                            }
                            false
                        },
                        None => is_related_suggestion_term(term.as_str()),
                    };
                    if keep {
                        let ghost before = crate::index::pair_views(out@);
                        out.push((copy_string(term), count));
                        proof {
                            assert(crate::index::pair_views(out@) =~= before.push((term@, count as nat)));
                        }
                    }
                    k += 1;
                }
                proof {
                    assert(ps.take(pairs@.len() as int) =~= ps);
                }
                Some(out)
            },
        }
    }
}

impl SearchEngine {
    /// The highlighted text of document `doc_id` for `terms`, if it has any of them.
    pub fn snippet(&self, doc_id: usize, terms: &[String]) -> (r: Option<String>)
        requires
            self.wf(),
        ensures
            match snippet_spec(
                self@.index.docs,
                doc_id as int,
                strings_view(terms@),
                self.highlighter_config().highlight_open@,
                self.highlighter_config().highlight_close@,
            ) {
                Some(x) => r.is_some() && r.unwrap()@ == x.highlighted,
                None => r.is_none(),
            },
    {
        match self.highlighter.highlight(&self.index, doc_id, terms) {
            Some(sn) => Some(sn.highlighted),
            None => None,
        }
    }

    /// The retrieval-level reasons why document `doc_id` is a result of `retrieval`.
    pub fn match_reasons(&self, retrieval: &Retrieval, query: &str, options: &SearchOptions, doc_id: usize) -> (r: Vec<MatchReason>)
        requires
            self.wf(),
        ensures
            reason_views(r@) == explain_spec(
                self@.index,
                *options,
                default_limits(),
                retrieval.parsed.root.model(),
                doc_id as int,
            ) + pinyin_reasons(
                retrieval.use_pinyin,
                ids_view(retrieval.pinyin_candidates@).contains(doc_id as int),
                ids_view(retrieval.ast_candidates@).contains(doc_id as int),
                retrieval.pinyin_query@,
                text_or_empty(self@.index, doc_id as int),
            ),
    {
        let ctx = ExecutorContext {
            index: &self.index,
            pinyin_index: &self.pinyin_index,
            index_generation: self.index_generation,
            options,
            parsed: &retrieval.parsed,
            query,
            limits: ExecutorLimits::default(),
        };
        let mut reasons = explain_document(&ctx, &retrieval.parsed.root, doc_id);
        let ghost r0 = reason_views(reasons@);
        let in_pinyin = contains_id(&retrieval.pinyin_candidates, doc_id);
        let in_ast = contains_id(&retrieval.ast_candidates, doc_id);
        let text: &str = match self.index.document(doc_id) {
            Some(t) => t,
            None => "",
        };
        proof {
            reveal_strlit("");
            assert(text@ == text_or_empty(self@.index, doc_id as int));
        }
        let pq = retrieval.pinyin_query.as_str();
        if (in_pinyin && !in_ast) || (retrieval.use_pinyin && pinyin_matches(pq, text)) {
            reasons.push(MatchReason::pinyin(pq));
            proof {
                assert(reason_views(reasons@) =~= r0 + seq![pinyin_reason(pq@)]);
            }
        } else {
            proof {
                assert(r0 + Seq::<ReasonModel>::empty() =~= r0);
            }
        }
        reasons
    }

    /// Get autocomplete suggestions based on a prefix: dictionary terms that start with it
    /// (in lower case), most frequent first, at most ten.
    pub fn suggest(&self, prefix: &str) -> (r: Vec<String>)
        requires
            self.wf(),
        ensures
            strings_view(r@) == suggest_spec(self@.index, prefix@),
    {
        let ghost docs = self@.index.docs;
        let lower = str_to_lowercase(prefix);
        let terms = self.index.terms_with_prefix(lower.as_str());
        let ghost tv = strings_view(terms@);
        // the document frequency of each term
        let mut sorted: Vec<String> = Vec::new();
        let mut dfs: Vec<usize> = Vec::new();
        let mut k: usize = 0;
        proof {
            assert(tv.take(0) =~= Seq::<Seq<char>>::empty());
        }
        while k < terms.len()
            invariant
                self.wf(),
                docs == self@.index.docs,
                tv == strings_view(terms@),
                k <= terms@.len(),
                sorted@.len() == dfs@.len(),
                strings_view(sorted@) == sort_by_df(docs, tv.take(k as int)),
                forall|j: int| 0 <= j < dfs@.len() ==> #[trigger] dfs@[j] == doc_frequency_spec(docs, sorted@[j]@),
            decreases terms@.len() - k,
        {
            proof {
                assert(tv.take(k + 1).drop_last() =~= tv.take(k as int));
                assert(tv.take(k + 1).last() == terms@[k as int]@);
            }
            let df = match self.index.term_stats(terms[k].as_str()) {
                Some(st) => st.doc_frequency,
                None => 0,
            };
            insert_by_frequency(&mut sorted, &mut dfs, copy_string(&terms[k]), df, Ghost(docs));
            k += 1;
        }
        proof {
            assert(tv.take(tv.len() as int) =~= tv);
        }
        let ghost full = strings_view(sorted@);
        sorted.truncate(10);
        proof {
            if 10 <= full.len() {
                assert(strings_view(sorted@) =~= full.take(10));
            }
        }
        sorted
    }

    /// Get search suggestions including pinyin matches for Chinese text: sorted, each once,
    /// at most ten.
    pub fn suggest_with_pinyin(&self, prefix: &str) -> (r: Vec<String>)
        requires
            self.wf(),
        ensures
            strings_view(r@) == at_most(
                sorted_unique(suggest_spec(self@.index, prefix@) + search_by_pinyin_spec(self@.pinyin, prefix@)),
                10,
            ),
    {
        let mut suggestions = self.suggest(prefix);
        let pinyin_results = self.pinyin_index.search_by_pinyin(prefix);
        extend_strings(&mut suggestions, &pinyin_results);
        let mut r = sort_dedup_strings(&suggestions);
        let ghost full = strings_view(r@);
        r.truncate(10);
        proof {
            if 10 <= full.len() {
                assert(strings_view(r@) =~= full.take(10));
            }
        }
        r
    }

    /// The terms that related suggestions for `query` leave out: its included terms and
    /// the texts of its tokens.
    pub fn related_exclusions(&self, query: &str) -> (r: Vec<String>)
        requires
            self.wf(),
        ensures
            strings_view(r@) == append_new(
                include_spec(self@.index, query@),
                crate::index::texts_of(tokenize_spec(query@)),
            ),
    {
        let parsed = self.query_parser.parse(query);
        let mut raw: Vec<String> = Vec::new();
        collect_terms(&self.index, &parsed.root, Collect::Include, &mut raw);
        proof {
            assert(strings_view(raw@) =~= include_terms_of(self@.index.terms, root_of(query@)));
        }
        let mut r = sort_dedup_strings(&raw);
        let tokens = tokenize(query);
        let mut texts: Vec<String> = Vec::new();
        let mut k: usize = 0;
        while k < tokens.len()
            invariant
                k <= tokens@.len(),
                strings_view(texts@) == crate::index::texts_of(token_views(tokens@)).take(k as int),
            decreases tokens@.len() - k,
        {
            let ghost before = strings_view(texts@);
            texts.push(copy_string(&tokens[k].text));
            proof {
                let tt = crate::index::texts_of(token_views(tokens@));
                assert(tt[k as int] == tokens@[k as int].text@);
                assert(strings_view(texts@) =~= before.push(tokens@[k as int].text@));
                assert(strings_view(texts@) =~= tt.take(k + 1));
            }
            k += 1;
        }
        proof {
            let tt = crate::index::texts_of(token_views(tokens@));
            assert(tt.take(tt.len() as int) =~= tt);
        }
        append_new_strings(&mut r, &texts);
        r
    }
}

/// Inserts `t`, of document frequency `df`, into `sorted` (most frequent first) after every
/// term that is at least as frequent.
fn insert_by_frequency(sorted: &mut Vec<String>, dfs: &mut Vec<usize>, t: String, df: usize, Ghost(docs): Ghost<Seq<DocModel>>)
    requires
        old(sorted)@.len() == old(dfs)@.len(),
        forall|j: int| 0 <= j < old(dfs)@.len() ==> #[trigger] old(dfs)@[j] == doc_frequency_spec(docs, old(sorted)@[j]@),
        df == doc_frequency_spec(docs, t@),
    ensures
        final(sorted)@.len() == final(dfs)@.len(),
        forall|j: int| 0 <= j < final(dfs)@.len() ==> #[trigger] final(dfs)@[j] == doc_frequency_spec(docs, final(sorted)@[j]@),
        strings_view(final(sorted)@) == insert_by_df(docs, strings_view(old(sorted)@), t@),
{
    let ghost orig = strings_view(sorted@);
    let mut p: usize = sorted.len();
    proof {
        assert(orig.take(p as int) =~= orig);
        assert(insert_by_df(docs, orig, t@) + orig.skip(p as int) =~= insert_by_df(docs, orig, t@));
    }
    while p > 0 && dfs[p - 1] < df
        invariant
            p <= sorted@.len(),
            sorted@.len() == dfs@.len(),
            orig == strings_view(sorted@),
            sorted@ == old(sorted)@,
            dfs@ == old(dfs)@,
            forall|j: int| 0 <= j < dfs@.len() ==> #[trigger] dfs@[j] == doc_frequency_spec(docs, sorted@[j]@),
            df == doc_frequency_spec(docs, t@),
            insert_by_df(docs, orig, t@) == insert_by_df(docs, orig.take(p as int), t@) + orig.skip(p as int),
        decreases p,
    {
        proof {
            let tk = orig.take(p as int);
            assert(tk.last() == orig[p - 1]);
            assert(orig[p - 1] == sorted@[p - 1]@);
            assert(tk.len() == p);
            assert(!(doc_frequency_spec(docs, tk.last()) >= doc_frequency_spec(docs, t@)));
            assert(tk.drop_last() =~= orig.take(p - 1));
            assert(insert_by_df(docs, tk, t@) == insert_by_df(docs, tk.drop_last(), t@).push(tk.last()));
            assert(orig.skip(p - 1) =~= seq![orig[p - 1]] + orig.skip(p as int));
            assert(insert_by_df(docs, orig.take(p - 1), t@).push(orig[p - 1]) + orig.skip(p as int)
                =~= insert_by_df(docs, orig.take(p - 1), t@) + orig.skip(p - 1));
        }
        p -= 1;
    }
    proof {
        let tk = orig.take(p as int);
        if p > 0 {
            assert(tk.last() == orig[p - 1]);
            assert(orig[p - 1] == sorted@[p - 1]@);
            assert(insert_by_df(docs, tk, t@) == tk.push(t@));
        } else {
            assert(insert_by_df(docs, tk, t@) =~= seq![t@]);
        }
    }
    let ghost tv = t@;
    sorted.insert(p, t);
    dfs.insert(p, df);
    proof {
        assert(strings_view(sorted@) =~= orig.take(p as int).push(tv) + orig.skip(p as int));
        assert forall|j: int| 0 <= j < dfs@.len() implies #[trigger] dfs@[j] == doc_frequency_spec(docs, sorted@[j]@) by {
            if j < p {
                assert(dfs@[j] == old(dfs)@[j]);
                assert(sorted@[j] == old(sorted)@[j]);
            } else if j > p {
                assert(dfs@[j] == old(dfs)@[j - 1]);
                assert(sorted@[j] == old(sorted)@[j - 1]);
            }
        }
    }
}

impl Default for SearchEngine {
    fn default() -> (r: Self)
        ensures
            r.wf(),
            r@.index == (IndexModel { docs: Seq::empty(), terms: Seq::empty(), next_id: 0 }),
            r@.pinyin.plain.len() == 0,
            r@.pinyin.initials.len() == 0,
            r@.generation == 0,
            r.highlighter_config().is_default(),
    {
        Self::new()
    }
}

// ==================== laws ====================

/// `ts` is in non-increasing order of document frequency.
pub open spec fn by_frequency(docs: Seq<DocModel>, ts: Seq<Seq<char>>) -> bool {
    forall|i: int, j: int| 0 <= i < j < ts.len() ==> doc_frequency_spec(docs, #[trigger] ts[i]) >= doc_frequency_spec(docs, #[trigger] ts[j])
}

proof fn lemma_insert_by_df(docs: Seq<DocModel>, acc: Seq<Seq<char>>, t: Seq<char>)
    requires
        by_frequency(docs, acc),
    ensures
        by_frequency(docs, insert_by_df(docs, acc, t)),
        forall|x: Seq<char>| #[trigger] insert_by_df(docs, acc, t).contains(x) <==> (acc.contains(x) || x == t),
        insert_by_df(docs, acc, t).len() == acc.len() + 1,
    decreases acc.len(),
{
    let r = insert_by_df(docs, acc, t);
    if acc.len() == 0 {
        assert forall|x: Seq<char>| #[trigger] r.contains(x) <==> (acc.contains(x) || x == t) by {
            if r.contains(x) {
                let k = choose|k: int| 0 <= k < r.len() && r[k] == x;
                assert(k == 0);
            }
            if x == t {
                assert(r[0] == t);
            }
        }
    } else if doc_frequency_spec(docs, acc.last()) >= doc_frequency_spec(docs, t) {
        assert forall|i: int, j: int| 0 <= i < j < r.len() implies doc_frequency_spec(docs, #[trigger] r[i]) >= doc_frequency_spec(docs, #[trigger] r[j]) by {
            if j == acc.len() {
                assert(r[i] == acc[i]);
                if i < acc.len() - 1 {
                    assert(doc_frequency_spec(docs, acc[i]) >= doc_frequency_spec(docs, acc[acc.len() - 1]));
                }
            } else {
                assert(r[i] == acc[i] && r[j] == acc[j]);
            }
        }
        assert forall|x: Seq<char>| #[trigger] r.contains(x) <==> (acc.contains(x) || x == t) by {
            crate::index::lemma_push_contains(acc, t, x);
        }
    } else {
        let init = acc.drop_last();
        assert(by_frequency(docs, init)) by {
            assert forall|i: int, j: int| 0 <= i < j < init.len() implies doc_frequency_spec(docs, #[trigger] init[i]) >= doc_frequency_spec(docs, #[trigger] init[j]) by {
                assert(init[i] == acc[i] && init[j] == acc[j]);
            }
        }
        lemma_insert_by_df(docs, init, t);
        let ri = insert_by_df(docs, init, t);
        assert forall|k: int| 0 <= k < ri.len() implies doc_frequency_spec(docs, #[trigger] ri[k]) >= doc_frequency_spec(docs, acc.last()) by {
            assert(ri.contains(ri[k]));
            if ri[k] != t {
                assert(init.contains(ri[k]));
                let m = choose|m: int| 0 <= m < init.len() && init[m] == ri[k];
                assert(acc[m] == ri[k]);
                assert(doc_frequency_spec(docs, acc[m]) >= doc_frequency_spec(docs, acc[acc.len() - 1]));
            }
        }
        assert forall|i: int, j: int| 0 <= i < j < r.len() implies doc_frequency_spec(docs, #[trigger] r[i]) >= doc_frequency_spec(docs, #[trigger] r[j]) by {
            if j == ri.len() {
                assert(r[i] == ri[i]);
                assert(r[j] == acc.last());
            } else {
                assert(r[i] == ri[i] && r[j] == ri[j]);
            }
        }
        assert forall|x: Seq<char>| #[trigger] r.contains(x) <==> (acc.contains(x) || x == t) by {
            crate::index::lemma_push_contains(ri, acc.last(), x);
            crate::index::lemma_push_contains(init, acc.last(), x);
            assert(init.push(acc.last()) =~= acc);
        }
    }
}

proof fn lemma_sort_by_df(docs: Seq<DocModel>, ts: Seq<Seq<char>>)
    ensures
        by_frequency(docs, sort_by_df(docs, ts)),
        forall|x: Seq<char>| #[trigger] sort_by_df(docs, ts).contains(x) <==> ts.contains(x),
        sort_by_df(docs, ts).len() == ts.len(),
    decreases ts.len(),
{
    if ts.len() > 0 {
        lemma_sort_by_df(docs, ts.drop_last());
        lemma_insert_by_df(docs, sort_by_df(docs, ts.drop_last()), ts.last());
        assert forall|x: Seq<char>| #[trigger] sort_by_df(docs, ts).contains(x) <==> ts.contains(x) by {
            crate::index::lemma_push_contains(ts.drop_last(), ts.last(), x);
            assert(ts.drop_last().push(ts.last()) =~= ts);
        }
    }
}

proof fn lemma_prefixed_members(terms: Seq<Seq<char>>, p: Seq<char>, x: Seq<char>)
    ensures
        prefixed_terms(terms, p).contains(x) <==> (terms.contains(x) && crate::text::starts_with_seq(x, p)),
    decreases terms.len(),
{
    if terms.len() > 0 {
        lemma_prefixed_members(terms.drop_last(), p, x);
        crate::index::lemma_push_contains(prefixed_terms(terms.drop_last(), p), terms.last(), x);
        crate::index::lemma_push_contains(terms.drop_last(), terms.last(), x);
        assert(terms.drop_last().push(terms.last()) =~= terms);
    }
}

proof fn lemma_insert_by_df_distinct(docs: Seq<DocModel>, acc: Seq<Seq<char>>, t: Seq<char>)
    requires
        by_frequency(docs, acc),
        acc.no_duplicates(),
        !acc.contains(t),
    ensures
        insert_by_df(docs, acc, t).no_duplicates(),
    decreases acc.len(),
{
    let r = insert_by_df(docs, acc, t);
    lemma_insert_by_df(docs, acc, t);
    if acc.len() == 0 {
    } else if doc_frequency_spec(docs, acc.last()) >= doc_frequency_spec(docs, t) {
        assert forall|i: int, j: int| 0 <= i < j < r.len() implies r[i] != r[j] by {
            if j == acc.len() {
                assert(r[i] == acc[i]);
                assert(acc.contains(acc[i]));
            } else {
                assert(r[i] == acc[i] && r[j] == acc[j]);
            }
        }
    } else {
        let init = acc.drop_last();
        assert(by_frequency(docs, init)) by {
            assert forall|i: int, j: int| 0 <= i < j < init.len() implies doc_frequency_spec(docs, #[trigger] init[i]) >= doc_frequency_spec(docs, #[trigger] init[j]) by {
                assert(init[i] == acc[i] && init[j] == acc[j]);
            }
        }
        assert(init.no_duplicates()) by {
            assert forall|i: int, j: int| 0 <= i < j < init.len() implies init[i] != init[j] by {
                assert(init[i] == acc[i] && init[j] == acc[j]);
            }
        }
        assert(!init.contains(t)) by {
            if init.contains(t) {
                let k = choose|k: int| 0 <= k < init.len() && init[k] == t;
                assert(acc[k] == t);
            }
        }
        lemma_insert_by_df_distinct(docs, init, t);
        lemma_insert_by_df(docs, init, t);
        let ri = insert_by_df(docs, init, t);
        assert(!ri.contains(acc.last())) by {
            if init.contains(acc.last()) {
                let k = choose|k: int| 0 <= k < init.len() && init[k] == acc.last();
                assert(acc[k] == acc[acc.len() - 1]);
            }
            assert(acc.contains(acc.last()));
        }
        assert forall|i: int, j: int| 0 <= i < j < r.len() implies r[i] != r[j] by {
            if j == ri.len() {
                assert(r[i] == ri[i]);
                assert(ri.contains(ri[i]));
            } else {
                assert(r[i] == ri[i] && r[j] == ri[j]);
            }
        }
    }
}

proof fn lemma_sort_by_df_distinct(docs: Seq<DocModel>, ts: Seq<Seq<char>>)
    requires
        ts.no_duplicates(),
    ensures
        sort_by_df(docs, ts).no_duplicates(),
    decreases ts.len(),
{
    if ts.len() > 0 {
        let init = ts.drop_last();
        assert(init.no_duplicates()) by {
            assert forall|i: int, j: int| 0 <= i < j < init.len() implies init[i] != init[j] by {
                assert(init[i] == ts[i] && init[j] == ts[j]);
            }
        }
        lemma_sort_by_df_distinct(docs, init);
        lemma_sort_by_df(docs, init);
        assert(!init.contains(ts.last())) by {
            if init.contains(ts.last()) {
                let k = choose|k: int| 0 <= k < init.len() && init[k] == ts.last();
                assert(ts[k] == ts[ts.len() - 1]);
            }
        }
        lemma_insert_by_df_distinct(docs, sort_by_df(docs, init), ts.last());
    }
}

proof fn lemma_prefixed_distinct(terms: Seq<Seq<char>>, p: Seq<char>)
    requires
        terms.no_duplicates(),
    ensures
        prefixed_terms(terms, p).no_duplicates(),
    decreases terms.len(),
{
    if terms.len() > 0 {
        let init = terms.drop_last();
        assert(init.no_duplicates()) by {
            assert forall|i: int, j: int| 0 <= i < j < init.len() implies init[i] != init[j] by {
                assert(init[i] == terms[i] && init[j] == terms[j]);
            }
        }
        lemma_prefixed_distinct(init, p);
        let r0 = prefixed_terms(init, p);
        if crate::text::starts_with_seq(terms.last(), p) {
            lemma_prefixed_members(init, p, terms.last());
            assert(!init.contains(terms.last())) by {
                if init.contains(terms.last()) {
                    let k = choose|k: int| 0 <= k < init.len() && init[k] == terms.last();
                    assert(terms[k] == terms[terms.len() - 1]);
                }
            }
            let r = r0.push(terms.last());
            assert forall|i: int, j: int| 0 <= i < j < r.len() implies r[i] != r[j] by {
                if j == r0.len() {
                    assert(r[i] == r0[i]);
                    assert(r0.contains(r0[i]));
                } else {
                    assert(r[i] == r0[i] && r[j] == r0[j]);
                }
            }
        }
    }
}

/// Autocomplete suggestions are a top ten of the indexed terms that start with the lower-cased
/// prefix, by document frequency: each suggested term is such a term, each one once; there
/// are as many as such terms, up to ten; they come most frequent first; and no such term
/// left out is more frequent than the last one suggested.
pub proof fn lemma_suggestions(m: IndexModel, prefix: Seq<char>)
    requires
        crate::index::index_wf(m),
    ensures
        suggest_spec(m, prefix).len() == if prefixed_terms(m.terms, unicode_lowercase_str(prefix)).len() < 10 {
            prefixed_terms(m.terms, unicode_lowercase_str(prefix)).len()
        } else {
            10
        },
        suggest_spec(m, prefix).no_duplicates(),
        forall|x: Seq<char>| #[trigger] suggest_spec(m, prefix).contains(x) ==> m.terms.contains(x) && crate::text::starts_with_seq(
            x,
            unicode_lowercase_str(prefix),
        ),
        by_frequency(m.docs, suggest_spec(m, prefix)),
        forall|t: Seq<char>|
            m.terms.contains(t) && crate::text::starts_with_seq(t, unicode_lowercase_str(prefix)) && !(#[trigger] suggest_spec(m, prefix).contains(t))
                ==> doc_frequency_spec(m.docs, t) <= doc_frequency_spec(m.docs, suggest_spec(m, prefix).last()),
{
    let lp = unicode_lowercase_str(prefix);
    let pt = prefixed_terms(m.terms, lp);
    let sorted = sort_by_df(m.docs, pt);
    lemma_sort_by_df(m.docs, pt);
    lemma_prefixed_distinct(m.terms, lp);
    lemma_sort_by_df_distinct(m.docs, pt);
    let r = suggest_spec(m, prefix);
    assert forall|x: Seq<char>| #[trigger] r.contains(x) implies m.terms.contains(x) && crate::text::starts_with_seq(x, lp) by {
        let k = choose|k: int| 0 <= k < r.len() && r[k] == x;
        assert(sorted[k] == x);
        assert(sorted.contains(x));
        lemma_prefixed_members(m.terms, lp, x);
    }
    assert forall|i: int, j: int| 0 <= i < j < r.len() implies doc_frequency_spec(m.docs, #[trigger] r[i]) >= doc_frequency_spec(m.docs, #[trigger] r[j]) by {
        assert(r[i] == sorted[i] && r[j] == sorted[j]);
    }
    assert(r.no_duplicates()) by {
        assert forall|i: int, j: int| 0 <= i < j < r.len() implies r[i] != r[j] by {
            assert(r[i] == sorted[i] && r[j] == sorted[j]);
        }
    }
    assert forall|t: Seq<char>|
        m.terms.contains(t) && crate::text::starts_with_seq(t, lp) && !(#[trigger] r.contains(t))
            implies doc_frequency_spec(m.docs, t) <= doc_frequency_spec(m.docs, r.last()) by {
        lemma_prefixed_members(m.terms, lp, t);
        assert(sorted.contains(t));
        let k = choose|k: int| 0 <= k < sorted.len() && sorted[k] == t;
        if k < r.len() {
            assert(r[k] == t);
        }
        assert(r.len() == 10);
        assert(r.last() == sorted[9]);
    }
}

} // verus!
