//! The inverted index: documents, their tokens, and the term dictionary.
//!
//! Documents are kept in the order they were added (which is the order of their ids);
//! posting lists and term statistics are read off the stored tokens.
use vstd::prelude::*;

use crate::text::{chars_of, copy_string, find_string, starts_with_chars, starts_with_seq, strings_view};
use crate::tokenizer::{tokenize, tokenize_spec, token_views, Token, TokenKind, TokenModel};

verus! {

// ==================== public records ====================

/// Position information for a term in a document
#[derive(Debug, Clone, Copy, PartialEq, Eq, Structural)]
pub struct TermPosition {
    pub doc_id: usize,
    pub start: usize,
    pub end: usize,
    pub kind: TokenKind,
}

/// The mathematical value of a term position.
pub struct TermPositionModel {
    pub doc_id: int,
    pub start: int,
    pub end: int,
    pub kind: TokenKind,
}

impl View for TermPosition {
    type V = TermPositionModel;

    open spec fn view(&self) -> TermPositionModel {
        TermPositionModel {
            doc_id: self.doc_id as int,
            start: self.start as int,
            end: self.end as int,
            kind: self.kind,
        }
    }
}

pub open spec fn position_views(v: Seq<TermPosition>) -> Seq<TermPositionModel> {
    v.map_values(|p: TermPosition| p@)
}

/// Statistics for a term across all documents
#[derive(Debug, Clone, Copy, PartialEq, Eq, Structural)]
pub struct TermStats {
    /// Number of documents containing this term
    pub doc_frequency: usize,
    /// Total term frequency across all docs
    pub total_frequency: usize,
}

// ==================== the model ====================

/// The mathematical value of a stored document.
pub struct DocModel {
    pub id: int,
    pub text: Seq<char>,
    pub tokens: Seq<TokenModel>,
}

/// The mathematical value of an index: its documents in id order, the term dictionary in
/// the order terms first appeared, and the id the next document will get.
pub struct IndexModel {
    pub docs: Seq<DocModel>,
    pub terms: Seq<Seq<char>>,
    pub next_id: int,
}

/// The texts of a token sequence.
pub open spec fn texts_of(toks: Seq<TokenModel>) -> Seq<Seq<char>> {
    toks.map_values(|t: TokenModel| t.text)
}

/// How often `t` occurs in `ts`.
pub open spec fn count_in(ts: Seq<Seq<char>>, t: Seq<char>) -> nat
    decreases ts.len(),
{
    if ts.len() == 0 {
        0
    } else {
        count_in(ts.drop_last(), t) + if ts.last() == t { 1nat } else { 0nat }
    }
}

/// The distinct elements of `ts`, in the order they first occur.
pub open spec fn distinct_terms(ts: Seq<Seq<char>>) -> Seq<Seq<char>>
    decreases ts.len(),
{
    if ts.len() == 0 {
        Seq::empty()
    } else {
        let d = distinct_terms(ts.drop_last());
        if d.contains(ts.last()) {
            d
        } else {
            d.push(ts.last())
        }
    }
}

/// Each distinct term of `ts` with the number of its occurrences, in first-occurrence order.
pub open spec fn freq_list(ts: Seq<Seq<char>>) -> Seq<(Seq<char>, nat)> {
    distinct_terms(ts).map_values(|t: Seq<char>| (t, count_in(ts, t)))
}

/// How often `t` occurs in document `d`.
pub open spec fn doc_count_of(d: DocModel, t: Seq<char>) -> nat {
    count_in(texts_of(d.tokens), t)
}

/// Whether some document of `docs` contains `t`.
pub open spec fn in_some_doc(docs: Seq<DocModel>, t: Seq<char>) -> bool {
    exists|i: int| 0 <= i < docs.len() && doc_count_of(#[trigger] docs[i], t) > 0
}

/// Whether some document of `docs` has id `id`.
pub open spec fn has_id(docs: Seq<DocModel>, id: int) -> bool {
    exists|i: int| 0 <= i < docs.len() && (#[trigger] docs[i]).id == id
}

/// The position of the document with id `id` (meaningful when there is one).
pub open spec fn index_of_id(docs: Seq<DocModel>, id: int) -> int {
    choose|i: int| 0 <= i < docs.len() && (#[trigger] docs[i]).id == id
}

/// The positions at which document `id`'s tokens `toks` hold `t`.
pub open spec fn token_postings(id: int, toks: Seq<TokenModel>, t: Seq<char>) -> Seq<TermPositionModel>
    decreases toks.len(),
{
    if toks.len() == 0 {
        Seq::empty()
    } else {
        let p = token_postings(id, toks.drop_last(), t);
        let last = toks.last();
        if last.text == t {
            p.push(TermPositionModel { doc_id: id, start: last.start, end: last.end, kind: last.kind })
        } else {
            p
        }
    }
}

/// The posting list of `t`: its positions document by document, in id order.
pub open spec fn postings_spec(docs: Seq<DocModel>, t: Seq<char>) -> Seq<TermPositionModel>
    decreases docs.len(),
{
    if docs.len() == 0 {
        Seq::empty()
    } else {
        postings_spec(docs.drop_last(), t) + token_postings(docs.last().id, docs.last().tokens, t)
    }
}

/// The number of documents that contain `t`.
pub open spec fn doc_frequency_spec(docs: Seq<DocModel>, t: Seq<char>) -> nat
    decreases docs.len(),
{
    if docs.len() == 0 {
        0
    } else {
        doc_frequency_spec(docs.drop_last(), t) + if doc_count_of(docs.last(), t) > 0 {
            1nat
        } else {
            0nat
        }
    }
}

/// The number of occurrences of `t` over all documents.
pub open spec fn total_frequency_spec(docs: Seq<DocModel>, t: Seq<char>) -> nat
    decreases docs.len(),
{
    if docs.len() == 0 {
        0
    } else {
        total_frequency_spec(docs.drop_last(), t) + doc_count_of(docs.last(), t)
    }
}

/// The number of tokens over all documents.
pub open spec fn token_total(docs: Seq<DocModel>) -> nat
    decreases docs.len(),
{
    if docs.len() == 0 {
        0
    } else {
        token_total(docs.drop_last()) + docs.last().tokens.len()
    }
}

/// `n` capped at the largest `usize`.
pub open spec fn capped(n: nat) -> int {
    if n <= usize::MAX {
        n as int
    } else {
        usize::MAX as int
    }
}

/// `acc` followed by the elements of `ts` that it does not hold yet.
pub open spec fn append_new(acc: Seq<Seq<char>>, ts: Seq<Seq<char>>) -> Seq<Seq<char>>
    decreases ts.len(),
{
    if ts.len() == 0 {
        acc
    } else {
        let a = append_new(acc, ts.drop_last());
        if a.contains(ts.last()) {
            a
        } else {
            a.push(ts.last())
        }
    }
}

/// The elements of `terms` that some document of `docs` contains, in order.
pub open spec fn terms_in_docs(terms: Seq<Seq<char>>, docs: Seq<DocModel>) -> Seq<Seq<char>>
    decreases terms.len(),
{
    if terms.len() == 0 {
        Seq::empty()
    } else {
        let r = terms_in_docs(terms.drop_last(), docs);
        if in_some_doc(docs, terms.last()) {
            r.push(terms.last())
        } else {
            r
        }
    }
}

/// The elements of `terms` that start with `p`, in order.
pub open spec fn prefixed_terms(terms: Seq<Seq<char>>, p: Seq<char>) -> Seq<Seq<char>>
    decreases terms.len(),
{
    if terms.len() == 0 {
        Seq::empty()
    } else {
        let r = prefixed_terms(terms.drop_last(), p);
        if starts_with_seq(terms.last(), p) {
            r.push(terms.last())
        } else {
            r
        }
    }
}

/// The document a text becomes under id `id`.
pub open spec fn new_doc(id: int, text: Seq<char>) -> DocModel {
    DocModel { id, text, tokens: tokenize_spec(text) }
}

/// The index after adding `text`.
pub open spec fn add_doc_spec(m: IndexModel, text: Seq<char>) -> IndexModel {
    IndexModel {
        docs: m.docs.push(new_doc(m.next_id, text)),
        terms: append_new(m.terms, texts_of(tokenize_spec(text))),
        next_id: m.next_id + 1,
    }
}

/// The index after adding `texts` one after another.
pub open spec fn add_docs_spec(m: IndexModel, texts: Seq<Seq<char>>) -> IndexModel
    decreases texts.len(),
{
    if texts.len() == 0 {
        m
    } else {
        add_doc_spec(add_docs_spec(m, texts.drop_last()), texts.last())
    }
}

/// The index after removing the document with id `id`, if there is one.
pub open spec fn remove_doc_spec(m: IndexModel, id: int) -> IndexModel {
    if has_id(m.docs, id) {
        let docs = m.docs.remove(index_of_id(m.docs, id));
        IndexModel { docs, terms: terms_in_docs(m.terms, docs), next_id: m.next_id }
    } else {
        m
    }
}

/// The ids of the documents, in order.
pub open spec fn ids_of(docs: Seq<DocModel>) -> Seq<int> {
    docs.map_values(|d: DocModel| d.id)
}

/// The model is well formed: ids increase and stay below `next_id`, each document holds
/// the tokens of its text, and the dictionary holds each term of the documents once.
pub open spec fn index_wf(m: IndexModel) -> bool {
    &&& 0 <= m.next_id
    &&& forall|i: int, j: int| 0 <= i < j < m.docs.len() ==> m.docs[i].id < m.docs[j].id
    &&& forall|i: int| 0 <= i < m.docs.len() ==> 0 <= #[trigger] m.docs[i].id < m.next_id
    &&& forall|i: int| 0 <= i < m.docs.len() ==> (#[trigger] m.docs[i]).tokens == tokenize_spec(m.docs[i].text)
    &&& m.terms.no_duplicates()
    &&& forall|t: Seq<char>| m.terms.contains(t) <==> in_some_doc(m.docs, t)
}

// ==================== lemmas on counting ====================

pub proof fn lemma_push_contains(s: Seq<Seq<char>>, x: Seq<char>, t: Seq<char>)
    ensures
        s.push(x).contains(t) <==> (s.contains(t) || t == x),
{
    if s.push(x).contains(t) {
        let k = choose|k: int| 0 <= k < s.push(x).len() && s.push(x)[k] == t;
        if k < s.len() {
            assert(s[k] == t);
        }
    }
    if s.contains(t) {
        let k = choose|k: int| 0 <= k < s.len() && s[k] == t;
        assert(s.push(x)[k] == t);
    }
    if t == x {
        assert(s.push(x)[s.len() as int] == t);
    }
}

pub proof fn lemma_count_positive(ts: Seq<Seq<char>>, t: Seq<char>)
    ensures
        count_in(ts, t) > 0 <==> ts.contains(t),
        count_in(ts, t) <= ts.len(),
    decreases ts.len(),
{
    if ts.len() > 0 {
        lemma_count_positive(ts.drop_last(), t);
        if ts.drop_last().contains(t) {
            let k = choose|k: int| 0 <= k < ts.drop_last().len() && ts.drop_last()[k] == t;
            assert(ts[k] == t);
        }
        if ts.contains(t) && ts.last() != t {
            let k = choose|k: int| 0 <= k < ts.len() && ts[k] == t;
            assert(ts.drop_last()[k] == t);
        }
        if ts.last() == t {
            assert(ts[ts.len() - 1] == t);
        }
    }
}

pub proof fn lemma_distinct_terms(ts: Seq<Seq<char>>)
    ensures
        distinct_terms(ts).no_duplicates(),
        forall|t: Seq<char>| distinct_terms(ts).contains(t) <==> ts.contains(t),
        distinct_terms(ts).len() <= ts.len(),
    decreases ts.len(),
{
    if ts.len() > 0 {
        lemma_distinct_terms(ts.drop_last());
        assert forall|t: Seq<char>| distinct_terms(ts).contains(t) <==> ts.contains(t) by {
            lemma_push_contains(distinct_terms(ts.drop_last()), ts.last(), t);
            if ts.contains(t) {
                let k = choose|k: int| 0 <= k < ts.len() && ts[k] == t;
                if k < ts.len() - 1 {
                    assert(ts.drop_last()[k] == t);
                }
            }
            if ts.drop_last().contains(t) {
                let k = choose|k: int| 0 <= k < ts.drop_last().len() && ts.drop_last()[k] == t;
                assert(ts[k] == t);
            }
            if t == ts.last() {
                assert(ts[ts.len() - 1] == t);
            }
        }
    }
}

pub proof fn lemma_append_new(acc: Seq<Seq<char>>, ts: Seq<Seq<char>>)
    requires
        acc.no_duplicates(),
    ensures
        append_new(acc, ts).no_duplicates(),
        forall|t: Seq<char>| append_new(acc, ts).contains(t) <==> (acc.contains(t) || ts.contains(t)),
    decreases ts.len(),
{
    if ts.len() > 0 {
        lemma_append_new(acc, ts.drop_last());
        assert forall|t: Seq<char>| append_new(acc, ts).contains(t) <==> (acc.contains(t) || ts.contains(t)) by {
            lemma_push_contains(append_new(acc, ts.drop_last()), ts.last(), t);
            if ts.contains(t) {
                let k = choose|k: int| 0 <= k < ts.len() && ts[k] == t;
                if k < ts.len() - 1 {
                    assert(ts.drop_last()[k] == t);
                }
            }
            if ts.drop_last().contains(t) {
                let k = choose|k: int| 0 <= k < ts.drop_last().len() && ts.drop_last()[k] == t;
                assert(ts[k] == t);
            }
            if t == ts.last() {
                assert(ts[ts.len() - 1] == t);
            }
        }
    }
}

pub proof fn lemma_terms_in_docs(terms: Seq<Seq<char>>, docs: Seq<DocModel>)
    requires
        terms.no_duplicates(),
    ensures
        terms_in_docs(terms, docs).no_duplicates(),
        forall|t: Seq<char>| terms_in_docs(terms, docs).contains(t) <==> (terms.contains(t) && in_some_doc(docs, t)),
    decreases terms.len(),
{
    if terms.len() > 0 {
        let init = terms.drop_last();
        assert(init.no_duplicates());
        lemma_terms_in_docs(init, docs);
        assert(!init.contains(terms.last())) by {
            if init.contains(terms.last()) {
                let k = choose|k: int| 0 <= k < init.len() && init[k] == terms.last();
                assert(terms[k] == terms[terms.len() - 1]);
            }
        }
        assert forall|t: Seq<char>| terms_in_docs(terms, docs).contains(t) <==> (terms.contains(t) && in_some_doc(docs, t)) by {
            lemma_push_contains(terms_in_docs(init, docs), terms.last(), t);
            if terms.contains(t) {
                let k = choose|k: int| 0 <= k < terms.len() && terms[k] == t;
                if k < terms.len() - 1 {
                    assert(init[k] == t);
                }
            }
            if init.contains(t) {
                let k = choose|k: int| 0 <= k < init.len() && init[k] == t;
                assert(terms[k] == t);
            }
            if t == terms.last() {
                assert(terms[terms.len() - 1] == t);
            }
        }
    }
}

// ==================== the stored index ====================

/// A stored document: its text, its tokens, and its distinct terms with their counts.
struct StoredDoc {
    id: usize,
    text: String,
    tokens: Vec<Token>,
    terms: Vec<String>,
    counts: Vec<usize>,
}

impl View for StoredDoc {
    type V = DocModel;

    closed spec fn view(&self) -> DocModel {
        DocModel { id: self.id as int, text: self.text@, tokens: token_views(self.tokens@) }
    }
}

/// The distinct terms and counts of a stored document agree with its tokens.
spec fn stored_wf(d: StoredDoc) -> bool {
    &&& d.terms@.len() == d.counts@.len()
    &&& strings_view(d.terms@) == distinct_terms(texts_of(d@.tokens))
    &&& forall|k: int| 0 <= k < d.counts@.len() ==> #[trigger] d.counts@[k] == count_in(texts_of(d@.tokens), d.terms@[k]@)
}

spec fn doc_views(v: Seq<StoredDoc>) -> Seq<DocModel> {
    v.map_values(|d: StoredDoc| d@)
}

/// The inverted index: term -> list of (document_id, positions)
pub struct InvertedIndex {
    docs: Vec<StoredDoc>,
    terms: Vec<String>,
    next_id: usize,
}

impl View for InvertedIndex {
    type V = IndexModel;

    closed spec fn view(&self) -> IndexModel {
        IndexModel { docs: doc_views(self.docs@), terms: strings_view(self.terms@), next_id: self.next_id as int }
    }
}

/// The distinct terms of `tokens` and how often each occurs.
fn count_terms(tokens: &Vec<Token>) -> (r: (Vec<String>, Vec<usize>))
    ensures
        r.0@.len() == r.1@.len(),
        strings_view(r.0@) == distinct_terms(texts_of(token_views(tokens@))),
        forall|k: int| 0 <= k < r.1@.len() ==> #[trigger] r.1@[k] == count_in(texts_of(token_views(tokens@)), r.0@[k]@),
{
    let ghost ts = texts_of(token_views(tokens@));
    let mut terms: Vec<String> = Vec::new();
    let mut counts: Vec<usize> = Vec::new();
    let mut k: usize = 0;
    while k < tokens.len()
        invariant
            k <= tokens@.len(),
            ts == texts_of(token_views(tokens@)),
            terms@.len() == counts@.len(),
            strings_view(terms@) == distinct_terms(ts.take(k as int)),
            forall|j: int| 0 <= j < counts@.len() ==> #[trigger] counts@[j] == count_in(ts.take(k as int), terms@[j]@),
        decreases tokens@.len() - k,
    {
        let ghost pre = ts.take(k as int);
        let ghost cur = ts.take(k + 1);
        proof {
            assert(cur.drop_last() =~= pre);
            assert(cur.last() == tokens@[k as int].text@);
            lemma_distinct_terms(pre);
            lemma_count_positive(pre, cur.last());
        }
        match find_string(&terms, &tokens[k].text) {
            Some(j) => {
                proof {
                    assert(strings_view(terms@)[j as int] == cur.last());
                    assert(distinct_terms(pre).contains(cur.last()));
                    lemma_count_positive(pre, terms@[j as int]@);
                }
                let c = counts[j] + 1;
                counts.set(j, c);
                proof {
                    assert forall|i: int| 0 <= i < counts@.len() implies #[trigger] counts@[i] == count_in(cur, terms@[i]@) by {
                        if i != j {
                            assert(strings_view(terms@)[i] == terms@[i]@);
                            assert(terms@[i]@ != cur.last());
                        }
                    }
                }
            },
            None => {
                let t = copy_string(&tokens[k].text);
                terms.push(t);
                counts.push(1);
                proof {
                    assert(strings_view(terms@) =~= distinct_terms(pre).push(cur.last()));
                    assert forall|i: int| 0 <= i < counts@.len() implies #[trigger] counts@[i] == count_in(cur, terms@[i]@) by {
                        if i < counts@.len() - 1 {
                            assert(strings_view(terms@)[i] == terms@[i]@);
                            assert(distinct_terms(pre).contains(terms@[i]@));
                        }
                    }
                }
            },
        }
        k += 1;
    }
    proof {
        assert(ts.take(tokens@.len() as int) =~= ts);
    }
    (terms, counts)
}

/// Whether stored document `d` contains `t`, and how often.
fn stored_count(d: &StoredDoc, t: &String) -> (c: usize)
    requires
        stored_wf(*d),
    ensures
        c == doc_count_of(d@, t@),
{
    let ghost ts = texts_of(d@.tokens);
    proof {
        lemma_distinct_terms(ts);
        lemma_count_positive(ts, t@);
    }
    match find_string(&d.terms, t) {
        Some(j) => d.counts[j],
        None => 0,
    }
}

impl InvertedIndex {
    /// The index is well formed, and each stored document agrees with its own tokens.
    pub closed spec fn wf(&self) -> bool {
        &&& index_wf(self@)
        &&& forall|i: int| 0 <= i < self.docs@.len() ==> stored_wf(#[trigger] self.docs@[i])
    }

    pub fn new() -> (r: Self)
        ensures
            r.wf(),
            r@ == (IndexModel { docs: Seq::empty(), terms: Seq::empty(), next_id: 0 }),
    {
        let r = InvertedIndex { docs: Vec::new(), terms: Vec::new(), next_id: 0 };
        proof {
            assert(doc_views(r.docs@) =~= Seq::<DocModel>::empty());
            assert(strings_view(r.terms@) =~= Seq::<Seq<char>>::empty());
        }
        r
    }

    /// Add a document to the index
    pub fn add_document(&mut self, text: &str) -> (id: usize)
        requires
            old(self).wf(),
            old(self)@.next_id < usize::MAX,
        ensures
            final(self).wf(),
            id == old(self)@.next_id,
            final(self)@ == add_doc_spec(old(self)@, text@),
    {
        let ghost m = self@;
        let doc_id = self.next_id;
        let tokens = tokenize(text);
        let ghost ts = texts_of(token_views(tokens@));
        let mut k: usize = 0;
        while k < tokens.len()
            invariant
                k <= tokens@.len(),
                ts == texts_of(token_views(tokens@)),
                self.docs@ == old(self).docs@,
                self.next_id == old(self).next_id,
                m == old(self)@,
                m.terms.no_duplicates(),
                strings_view(self.terms@) == append_new(m.terms, ts.take(k as int)),
            decreases tokens@.len() - k,
        {
            let ghost pre = ts.take(k as int);
            let ghost cur = ts.take(k + 1);
            proof {
                assert(cur.drop_last() =~= pre);
                assert(cur.last() == tokens@[k as int].text@);
            }
            match find_string(&self.terms, &tokens[k].text) {
                Some(j) => {
                    proof {
                        assert(strings_view(self.terms@)[j as int] == cur.last());
                    }
                },
                None => {
                    let t = copy_string(&tokens[k].text);
                    self.terms.push(t);
                    proof {
                        assert(strings_view(self.terms@) =~= append_new(m.terms, pre).push(cur.last()));
                    }
                },
            }
            k += 1;
        }
        proof {
            assert(ts.take(tokens@.len() as int) =~= ts);
        }
        let (dterms, counts) = count_terms(&tokens);
        let d = StoredDoc { id: doc_id, text: text.to_owned(), tokens, terms: dterms, counts };
        let ghost nd = d@;
        self.docs.push(d);
        self.next_id = doc_id + 1;
        proof {
            let m2 = self@;
            assert(nd == new_doc(m.next_id, text@));
            assert(m2.docs =~= m.docs.push(nd));
            lemma_append_new(m.terms, ts);
            assert forall|t: Seq<char>| m2.terms.contains(t) <==> in_some_doc(m2.docs, t) by {
                lemma_count_positive(ts, t);
                if in_some_doc(m2.docs, t) {
                    let i = choose|i: int| 0 <= i < m2.docs.len() && doc_count_of(#[trigger] m2.docs[i], t) > 0;
                    if i < m.docs.len() {
                        assert(m.docs[i] == m2.docs[i]);
                    }
                }
                if in_some_doc(m.docs, t) {
                    let i = choose|i: int| 0 <= i < m.docs.len() && doc_count_of(#[trigger] m.docs[i], t) > 0;
                    assert(m.docs[i] == m2.docs[i]);
                }
                if ts.contains(t) {
                    assert(m2.docs[m.docs.len() as int] == nd);
                }
            }
            assert forall|i: int| 0 <= i < self.docs@.len() implies stored_wf(#[trigger] self.docs@[i]) by {
                if i < old(self).docs@.len() {
                    assert(self.docs@[i] == old(self).docs@[i]);
                }
            }
        }
        doc_id
    }

    /// The position of the document with id `doc_id` in id order, if there is one.
    pub fn position_of(&self, doc_id: usize) -> (r: Option<usize>)
        requires
            self.wf(),
        ensures
            match r {
                Some(i) => i < self@.docs.len() && has_id(self@.docs, doc_id as int) && index_of_id(
                    self@.docs,
                    doc_id as int,
                ) == i,
                None => !has_id(self@.docs, doc_id as int),
            },
    {
        // binary search: ids increase along the documents
        let ghost docs = self@.docs;
        let mut lo: usize = 0;
        let mut hi: usize = self.docs.len();
        while lo < hi
            invariant
                self.wf(),
                lo <= hi <= self.docs@.len(),
                docs == self@.docs,
                docs.len() == self.docs@.len(),
                forall|j: int| 0 <= j < lo ==> docs[j].id < doc_id,
                forall|j: int| hi <= j < docs.len() ==> docs[j].id > doc_id,
            decreases hi - lo,
        {
            let mid = lo + (hi - lo) / 2;
            proof {
                assert(docs[mid as int] == self.docs@[mid as int]@);
            }
            let id = self.docs[mid].id;
            if id == doc_id {
                proof {
                    lemma_index_of_id(docs, mid as int);
                }
                return Some(mid);
            } else if id < doc_id {
                proof {
                    assert forall|j: int| 0 <= j < mid + 1 implies docs[j].id < doc_id by {
                        if j < mid {
                            assert(docs[j].id < docs[mid as int].id);
                        }
                    }
                }
                lo = mid + 1;
            } else {
                proof {
                    assert forall|j: int| mid <= j < docs.len() implies docs[j].id > doc_id by {
                        if j > mid {
                            assert(docs[mid as int].id < docs[j].id);
                        }
                    }
                }
                hi = mid;
            }
        }
        proof {
            if has_id(docs, doc_id as int) {
                let k = choose|k: int| 0 <= k < docs.len() && (#[trigger] docs[k]).id == doc_id;
                if k < lo {
                    assert(docs[k].id < doc_id);
                } else {
                    assert(docs[k].id > doc_id);
                }
            }
        }
        None
    }

    /// Remove a document from the index
    pub fn remove_document(&mut self, doc_id: usize) -> (r: bool)
        requires
            old(self).wf(),
        ensures
            final(self).wf(),
            r == has_id(old(self)@.docs, doc_id as int),
            final(self)@ == remove_doc_spec(old(self)@, doc_id as int),
    {
        let ghost m = self@;
        match self.position_of(doc_id) {
            None => false,
            Some(i) => {
                let _ = self.docs.remove(i);
                let ghost docs2 = doc_views(self.docs@);
                proof {
                    assert(docs2 =~= m.docs.remove(i as int));
                    assert forall|j: int| 0 <= j < self.docs@.len() implies stored_wf(#[trigger] self.docs@[j]) by {
                        if j < i {
                            assert(self.docs@[j] == old(self).docs@[j]);
                        } else {
                            assert(self.docs@[j] == old(self).docs@[j + 1]);
                        }
                    }
                }
                let mut kept: Vec<String> = Vec::new();
                let mut k: usize = 0;
                while k < self.terms.len()
                    invariant
                        k <= self.terms@.len(),
                        m.terms == strings_view(self.terms@),
                        docs2 == doc_views(self.docs@),
                        forall|j: int| 0 <= j < self.docs@.len() ==> stored_wf(#[trigger] self.docs@[j]),
                        strings_view(kept@) == terms_in_docs(m.terms.take(k as int), docs2),
                    decreases self.terms@.len() - k,
                {
                    let ghost pre = m.terms.take(k as int);
                    let ghost cur = m.terms.take(k + 1);
                    proof {
                        assert(cur.drop_last() =~= pre);
                        assert(cur.last() == self.terms@[k as int]@);
                    }
                    let (df, _tf) = term_totals(&self.docs, &self.terms[k]);
                    proof {
                        lemma_doc_frequency_positive(docs2, cur.last());
                    }
                    if df > 0 {
                        let t = copy_string(&self.terms[k]);
                        kept.push(t);
                        proof {
                            assert(strings_view(kept@) =~= terms_in_docs(pre, docs2).push(cur.last()));
                        }
                    }
                    k += 1;
                }
                self.terms = kept;
                proof {
                    assert(m.terms.take(m.terms.len() as int) =~= m.terms);
                    lemma_terms_in_docs(m.terms, docs2);
                    let m2 = self@;
                    assert(m2.docs == docs2);
                    assert forall|t: Seq<char>| m2.terms.contains(t) <==> in_some_doc(m2.docs, t) by {
                        if in_some_doc(docs2, t) {
                            let j = choose|j: int| 0 <= j < docs2.len() && doc_count_of(#[trigger] docs2[j], t) > 0;
                            if j < i {
                                assert(m.docs[j] == docs2[j]);
                            } else {
                                assert(m.docs[j + 1] == docs2[j]);
                            }
                        }
                    }
                    assert forall|a: int, b: int| 0 <= a < b < m2.docs.len() implies m2.docs[a].id < m2.docs[b].id by {
                        let a2 = if a < i { a } else { a + 1 };
                        let b2 = if b < i { b } else { b + 1 };
                        assert(m2.docs[a] == m.docs[a2]);
                        assert(m2.docs[b] == m.docs[b2]);
                    }
                    assert forall|a: int| 0 <= a < m2.docs.len() implies 0 <= #[trigger] m2.docs[a].id < m2.next_id && m2.docs[a].tokens == tokenize_spec(m2.docs[a].text) by {
                        let a2 = if a < i { a } else { a + 1 };
                        assert(m2.docs[a] == m.docs[a2]);
                    }
                }
                true
            },
        }
    }

    /// Get term statistics
    pub fn term_stats(&self, term: &str) -> (r: Option<TermStats>)
        requires
            self.wf(),
        ensures
            match r {
                Some(st) => doc_frequency_spec(self@.docs, term@) > 0 && st.doc_frequency
                    == doc_frequency_spec(self@.docs, term@) && st.total_frequency == capped(
                    total_frequency_spec(self@.docs, term@),
                ),
                None => doc_frequency_spec(self@.docs, term@) == 0,
            },
    {
        let key = term.to_owned();
        let (df, tf) = term_totals(&self.docs, &key);
        if df > 0 {
            Some(TermStats { doc_frequency: df, total_frequency: tf })
        } else {
            None
        }
    }

    /// Get posting list for a term
    pub fn posting_list(&self, term: &str) -> (r: Option<Vec<TermPosition>>)
        requires
            self.wf(),
        ensures
            match r {
                Some(v) => position_views(v@) == postings_spec(self@.docs, term@) && v@.len() > 0,
                None => postings_spec(self@.docs, term@).len() == 0,
            },
    {
        let key = term.to_owned();
        let ghost docs = self@.docs;
        let mut out: Vec<TermPosition> = Vec::new();
        let mut i: usize = 0;
        while i < self.docs.len()
            invariant
                i <= self.docs@.len(),
                docs == self@.docs,
                docs.len() == self.docs@.len(),
                key@ == term@,
                position_views(out@) == postings_spec(docs.take(i as int), term@),
            decreases self.docs@.len() - i,
        {
            let d = &self.docs[i];
            let ghost dm = docs[i as int];
            proof {
                assert(dm == d@);
            }
            let mut j: usize = 0;
            while j < d.tokens.len()
                invariant
                    j <= d.tokens@.len(),
                    dm == d@,
                    key@ == term@,
                    dm.tokens == token_views(d.tokens@),
                    position_views(out@) == postings_spec(docs.take(i as int), term@) + token_postings(
                        dm.id,
                        dm.tokens.take(j as int),
                        term@,
                    ),
                decreases d.tokens@.len() - j,
            {
                let ghost before = out@;
                let tok = &d.tokens[j];
                proof {
                    assert(dm.tokens.take(j + 1).drop_last() =~= dm.tokens.take(j as int));
                    assert(dm.tokens.take(j + 1).last() == tok@);
                }
                if tok.text.eq(&key) {
                    let p = TermPosition { doc_id: d.id, start: tok.start, end: tok.end, kind: tok.kind };
                    out.push(p);
                    proof {
                        assert(position_views(out@) =~= position_views(before).push(p@));
                    }
                }
                j += 1;
            }
            proof {
                assert(dm.tokens.take(dm.tokens.len() as int) =~= dm.tokens);
                assert(docs.take(i + 1).drop_last() =~= docs.take(i as int));
            }
            i += 1;
        }
        proof {
            assert(docs.take(docs.len() as int) =~= docs);
        }
        if out.len() == 0 {
            None
        } else {
            Some(out)
        }
    }

    /// Get all terms that start with a prefix (for autocomplete)
    pub fn terms_with_prefix(&self, prefix: &str) -> (r: Vec<String>)
        requires
            self.wf(),
        ensures
            strings_view(r@) == prefixed_terms(self@.terms, prefix@),
    {
        let n = self.terms.len();
        proof {
            lemma_prefixed_len(self@.terms, prefix@);
            assert(self@.terms.len() == n);
        }
        self.terms_with_prefix_limited(prefix, usize::MAX)
    }

    /// Get terms with prefix but cap result size to avoid accidental memory spikes.
    pub fn terms_with_prefix_limited(&self, prefix: &str, limit: usize) -> (r: Vec<String>)
        requires
            self.wf(),
        ensures
            strings_view(r@) == (if limit <= prefixed_terms(self@.terms, prefix@).len() {
                prefixed_terms(self@.terms, prefix@).take(limit as int)
            } else {
                prefixed_terms(self@.terms, prefix@)
            }),
    {
        let p = chars_of(prefix);
        let ghost terms = self@.terms;
        let mut out: Vec<String> = Vec::new();
        let mut k: usize = 0;
        while k < self.terms.len()
            invariant
                k <= self.terms@.len(),
                terms == strings_view(self.terms@),
                p@ == prefix@,
                strings_view(out@) == prefixed_terms(terms.take(k as int), prefix@),
            decreases self.terms@.len() - k,
        {
            proof {
                assert(terms.take(k + 1).drop_last() =~= terms.take(k as int));
                assert(terms.take(k + 1).last() == self.terms@[k as int]@);
            }
            let tc = chars_of(self.terms[k].as_str());
            if starts_with_chars(&tc, &p) {
                let t = copy_string(&self.terms[k]);
                let ghost before = out@;
                out.push(t);
                proof {
                    assert(strings_view(out@) =~= strings_view(before).push(self.terms@[k as int]@));
                }
            }
            k += 1;
        }
        proof {
            assert(terms.take(terms.len() as int) =~= terms);
        }
        let ghost full = out@;
        out.truncate(limit);
        proof {
            if limit <= full.len() {
                assert(strings_view(out@) =~= strings_view(full).take(limit as int));
            }
        }
        out
    }

    /// Get document text by ID
    pub fn document(&self, doc_id: usize) -> (r: Option<&str>)
        requires
            self.wf(),
        ensures
            match r {
                Some(s) => has_id(self@.docs, doc_id as int) && s@ == self@.docs[index_of_id(
                    self@.docs,
                    doc_id as int,
                )].text,
                None => !has_id(self@.docs, doc_id as int),
            },
    {
        match self.position_of(doc_id) {
            Some(i) => {
                proof {
                    assert(self@.docs[i as int] == self.docs@[i as int]@);
                }
                Some(self.docs[i].text.as_str())
            },
            None => None,
        }
    }

    /// Get tokens for a document
    pub fn document_tokens(&self, doc_id: usize) -> (r: Option<&Vec<Token>>)
        requires
            self.wf(),
        ensures
            match r {
                Some(v) => has_id(self@.docs, doc_id as int) && token_views(v@) == self@.docs[index_of_id(
                    self@.docs,
                    doc_id as int,
                )].tokens,
                None => !has_id(self@.docs, doc_id as int),
            },
    {
        match self.position_of(doc_id) {
            Some(i) => {
                proof {
                    assert(self@.docs[i as int] == self.docs@[i as int]@);
                }
                Some(&self.docs[i].tokens)
            },
            None => None,
        }
    }

    /// Get document length in tokens
    pub fn doc_length(&self, doc_id: usize) -> (n: usize)
        requires
            self.wf(),
        ensures
            n == (if has_id(self@.docs, doc_id as int) {
                self@.docs[index_of_id(self@.docs, doc_id as int)].tokens.len() as int
            } else {
                0
            }),
    {
        match self.position_of(doc_id) {
            Some(i) => {
                proof {
                    assert(self@.docs[i as int] == self.docs@[i as int]@);
                }
                self.docs[i].tokens.len()
            },
            None => 0,
        }
    }

    /// Number of documents in the index
    pub fn doc_count(&self) -> (n: usize)
        ensures
            n == self@.docs.len(),
    {
        self.docs.len()
    }

    /// The id the next document will get.
    pub fn next_doc_id(&self) -> (n: usize)
        ensures
            n == self@.next_id,
    {
        self.next_id
    }

    /// Total number of unique terms
    pub fn term_count(&self) -> (n: usize)
        ensures
            n == self@.terms.len(),
    {
        self.terms.len()
    }

    /// The number of tokens over all documents (capped at the largest `usize`).
    pub fn total_tokens(&self) -> (n: usize)
        ensures
            n == capped(token_total(self@.docs)),
    {
        let ghost docs = self@.docs;
        let mut n: usize = 0;
        let mut i: usize = 0;
        while i < self.docs.len()
            invariant
                i <= self.docs@.len(),
                docs == self@.docs,
                docs.len() == self.docs@.len(),
                n == capped(token_total(docs.take(i as int))),
            decreases self.docs@.len() - i,
        {
            proof {
                assert(docs.take(i + 1).drop_last() =~= docs.take(i as int));
                assert(docs.take(i + 1).last() == self.docs@[i as int]@);
            }
            n = n.saturating_add(self.docs[i].tokens.len());
            i += 1;
        }
        proof {
            assert(docs.take(docs.len() as int) =~= docs);
        }
        n
    }

    /// Get all document IDs
    pub fn doc_ids(&self) -> (r: Vec<usize>)
        ensures
            r@.len() == self@.docs.len(),
            forall|k: int| 0 <= k < r@.len() ==> r@[k] as int == (#[trigger] self@.docs[k]).id,
    {
        let mut r: Vec<usize> = Vec::new();
        let mut i: usize = 0;
        while i < self.docs.len()
            invariant
                i <= self.docs@.len(),
                r@.len() == i,
                forall|k: int| 0 <= k < i ==> r@[k] as int == (#[trigger] self@.docs[k]).id,
            decreases self.docs@.len() - i,
        {
            proof {
                assert(self@.docs[i as int] == self.docs@[i as int]@);
            }
            r.push(self.docs[i].id);
            i += 1;
        }
        r
    }

    /// Get term frequency in a specific document
    pub fn term_freq_in_doc(&self, term: &str, doc_id: usize) -> (n: usize)
        requires
            self.wf(),
        ensures
            n == (if has_id(self@.docs, doc_id as int) {
                doc_count_of(self@.docs[index_of_id(self@.docs, doc_id as int)], term@) as int
            } else {
                0
            }),
    {
        match self.position_of(doc_id) {
            Some(i) => {
                proof {
                    assert(self@.docs[i as int] == self.docs@[i as int]@);
                }
                let key = term.to_owned();
                stored_count(&self.docs[i], &key)
            },
            None => 0,
        }
    }

    /// Get all term frequencies for a specific document, in first-occurrence order.
    pub fn document_term_frequencies(&self, doc_id: usize) -> (r: Option<Vec<(String, usize)>>)
        requires
            self.wf(),
        ensures
            match r {
                Some(v) => has_id(self@.docs, doc_id as int) && pair_views(v@) == freq_list(
                    texts_of(self@.docs[index_of_id(self@.docs, doc_id as int)].tokens),
                ),
                None => !has_id(self@.docs, doc_id as int),
            },
    {
        match self.position_of(doc_id) {
            Some(i) => {
                let d = &self.docs[i];
                let ghost ts = texts_of(d@.tokens);
                proof {
                    assert(self@.docs[i as int] == d@);
                    assert(stored_wf(*d));
                }
                let mut out: Vec<(String, usize)> = Vec::new();
                let mut k: usize = 0;
                while k < d.terms.len()
                    invariant
                        k <= d.terms@.len(),
                        stored_wf(*d),
                        ts == texts_of(d@.tokens),
                        pair_views(out@) == freq_list(ts).take(k as int),
                    decreases d.terms@.len() - k,
                {
                    let ghost before = out@;
                    let t = copy_string(&d.terms[k]);
                    let c = d.counts[k];
                    proof {
                        assert(strings_view(d.terms@)[k as int] == d.terms@[k as int]@);
                        assert(c == count_in(ts, d.terms@[k as int]@));
                        assert(freq_list(ts)[k as int] == (d.terms@[k as int]@, c as nat));
                    }
                    out.push((t, c));
                    proof {
                        assert(freq_list(ts).len() == d.terms@.len());
                        assert(pair_views(out@) =~= pair_views(before).push((d.terms@[k as int]@, c as nat)));
                        assert(pair_views(out@) =~= freq_list(ts).take(k + 1));
                    }
                    k += 1;
                }
                proof {
                    assert(freq_list(ts).len() == d.terms@.len());
                    assert(freq_list(ts).take(freq_list(ts).len() as int) =~= freq_list(ts));
                }
                Some(out)
            },
            None => None,
        }
    }

    /// The model of a well-formed index is well formed.
    pub proof fn lemma_wf(&self)
        requires
            self.wf(),
        ensures
            index_wf(self@),
    {
    }

    /// For each document, in order, whether it contains `term`.
    pub fn term_presence(&self, term: &str) -> (r: Vec<bool>)
        requires
            self.wf(),
        ensures
            r@.len() == self@.docs.len(),
            forall|k: int| 0 <= k < r@.len() ==> #[trigger] r@[k] == (doc_count_of(self@.docs[k], term@) > 0),
    {
        let key = term.to_owned();
        let mut r: Vec<bool> = Vec::new();
        let mut i: usize = 0;
        while i < self.docs.len()
            invariant
                self.wf(),
                i <= self.docs@.len(),
                key@ == term@,
                r@.len() == i,
                forall|k: int| 0 <= k < i ==> #[trigger] r@[k] == (doc_count_of(self@.docs[k], term@) > 0),
            decreases self.docs@.len() - i,
        {
            proof {
                assert(self@.docs[i as int] == self.docs@[i as int]@);
            }
            let c = stored_count(&self.docs[i], &key);
            r.push(c > 0);
            i += 1;
        }
        r
    }

    /// The tokens of the document at position `pos`.
    pub fn tokens_at(&self, pos: usize) -> (r: &Vec<Token>)
        requires
            pos < self@.docs.len(),
        ensures
            token_views(r@) == self@.docs[pos as int].tokens,
    {
        proof {
            assert(self@.docs[pos as int] == self.docs@[pos as int]@);
        }
        &self.docs[pos].tokens
    }

    /// Batch add documents
    pub fn add_documents(&mut self, texts: &[&str]) -> (ids: Vec<usize>)
        requires
            old(self).wf(),
            old(self)@.next_id + texts@.len() <= usize::MAX,
        ensures
            final(self).wf(),
            final(self)@ == add_docs_spec(old(self)@, str_views(texts@)),
            ids@.len() == texts@.len(),
            forall|k: int| 0 <= k < ids@.len() ==> ids@[k] == old(self)@.next_id + k,
    {
        let ghost vs = str_views(texts@);
        let mut ids: Vec<usize> = Vec::new();
        let mut k: usize = 0;
        while k < texts.len()
            invariant
                k <= texts@.len(),
                vs == str_views(texts@),
                self.wf(),
                self@ == add_docs_spec(old(self)@, vs.take(k as int)),
                self@.next_id == old(self)@.next_id + k,
                old(self)@.next_id + texts@.len() <= usize::MAX,
                ids@.len() == k,
                forall|j: int| 0 <= j < k ==> ids@[j] == old(self)@.next_id + j,
            decreases texts@.len() - k,
        {
            proof {
                assert(vs.take(k + 1).drop_last() =~= vs.take(k as int));
                assert(vs.take(k + 1).last() == texts@[k as int]@);
            }
            let id = self.add_document(texts[k]);
            ids.push(id);
            k += 1;
        }
        proof {
            assert(vs.take(vs.len() as int) =~= vs);
        }
        ids
    }
}

/// The character sequences of a list of string slices.
pub open spec fn str_views(v: Seq<&str>) -> Seq<Seq<char>> {
    v.map_values(|s: &str| s@)
}

/// The character sequences and counts of a list of (term, count) pairs.
pub open spec fn pair_views(v: Seq<(String, usize)>) -> Seq<(Seq<char>, nat)> {
    v.map_values(|p: (String, usize)| (p.0@, p.1 as nat))
}

/// How many documents of `docs` contain `t`, and how often it occurs over them (capped).
fn term_totals(docs: &Vec<StoredDoc>, t: &String) -> (r: (usize, usize))
    requires
        forall|j: int| 0 <= j < docs@.len() ==> stored_wf(#[trigger] docs@[j]),
    ensures
        r.0 == doc_frequency_spec(doc_views(docs@), t@),
        r.1 == capped(total_frequency_spec(doc_views(docs@), t@)),
{
    let ghost ds = doc_views(docs@);
    let mut df: usize = 0;
    let mut tf: usize = 0;
    let mut i: usize = 0;
    while i < docs.len()
        invariant
            i <= docs@.len(),
            ds == doc_views(docs@),
            forall|j: int| 0 <= j < docs@.len() ==> stored_wf(#[trigger] docs@[j]),
            df == doc_frequency_spec(ds.take(i as int), t@),
            df <= i,
            tf == capped(total_frequency_spec(ds.take(i as int), t@)),
        decreases docs@.len() - i,
    {
        proof {
            assert(ds.take(i + 1).drop_last() =~= ds.take(i as int));
            assert(ds.take(i + 1).last() == docs@[i as int]@);
        }
        let c = stored_count(&docs[i], t);
        if c > 0 {
            df += 1;
        }
        tf = tf.saturating_add(c);
        i += 1;
    }
    proof {
        assert(ds.take(ds.len() as int) =~= ds);
    }
    (df, tf)
}

pub proof fn lemma_index_of_id(docs: Seq<DocModel>, i: int)
    requires
        0 <= i < docs.len(),
        forall|a: int, b: int| 0 <= a < b < docs.len() ==> docs[a].id < docs[b].id,
    ensures
        has_id(docs, docs[i].id),
        index_of_id(docs, docs[i].id) == i,
{
    assert(docs[i].id == docs[i].id);
    let j = index_of_id(docs, docs[i].id);
    assert(0 <= j < docs.len() && docs[j].id == docs[i].id);
    if j < i {
        assert(docs[j].id < docs[i].id);
    } else if j > i {
        assert(docs[i].id < docs[j].id);
    }
}

pub proof fn lemma_doc_frequency_positive(docs: Seq<DocModel>, t: Seq<char>)
    ensures
        doc_frequency_spec(docs, t) > 0 <==> in_some_doc(docs, t),
        doc_frequency_spec(docs, t) <= docs.len(),
    decreases docs.len(),
{
    if docs.len() > 0 {
        let init = docs.drop_last();
        lemma_doc_frequency_positive(init, t);
        if in_some_doc(init, t) {
            let j = choose|j: int| 0 <= j < init.len() && doc_count_of(#[trigger] init[j], t) > 0;
            assert(docs[j] == init[j]);
        }
        if in_some_doc(docs, t) && doc_count_of(docs.last(), t) == 0 {
            let j = choose|j: int| 0 <= j < docs.len() && doc_count_of(#[trigger] docs[j], t) > 0;
            assert(docs[j] == init[j]);
        }
        if doc_count_of(docs.last(), t) > 0 {
            assert(docs[docs.len() - 1] == docs.last());
        }
    }
}

pub proof fn lemma_prefixed_len(terms: Seq<Seq<char>>, p: Seq<char>)
    ensures
        prefixed_terms(terms, p).len() <= terms.len(),
    decreases terms.len(),
{
    if terms.len() > 0 {
        lemma_prefixed_len(terms.drop_last(), p);
    }
}

// ==================== laws ====================

proof fn lemma_append_new_extends(acc: Seq<Seq<char>>, ts: Seq<Seq<char>>)
    ensures
        append_new(acc, ts).len() >= acc.len(),
        append_new(acc, ts).take(acc.len() as int) == acc,
        forall|k: int|
            acc.len() <= k < append_new(acc, ts).len() ==> !acc.contains(#[trigger] append_new(acc, ts)[k])
                && ts.contains(append_new(acc, ts)[k]),
    decreases ts.len(),
{
    if ts.len() > 0 {
        let init = ts.drop_last();
        lemma_append_new_extends(acc, init);
        let a = append_new(acc, init);
        assert forall|k: int| acc.len() <= k < append_new(acc, ts).len() implies !acc.contains(
            #[trigger] append_new(acc, ts)[k],
        ) && ts.contains(append_new(acc, ts)[k]) by {
            if k < a.len() {
                assert(append_new(acc, ts)[k] == a[k]);
                let j = choose|j: int| 0 <= j < init.len() && init[j] == a[k];
                assert(ts[j] == a[k]);
            } else {
                assert(append_new(acc, ts)[k] == ts.last());
                assert(!a.contains(ts.last()));
                assert(ts[ts.len() - 1] == ts.last());
                if acc.contains(ts.last()) {
                    let j = choose|j: int| 0 <= j < acc.len() && acc[j] == ts.last();
                    assert(a.take(acc.len() as int)[j] == ts.last());
                    assert(a[j] == ts.last());
                }
            }
        }
        assert(append_new(acc, ts).take(acc.len() as int) =~= acc);
    } else {
        assert(acc.take(acc.len() as int) =~= acc);
    }
}

proof fn lemma_terms_in_docs_split(terms: Seq<Seq<char>>, n: int, docs: Seq<DocModel>)
    requires
        0 <= n <= terms.len(),
        forall|k: int| 0 <= k < n ==> in_some_doc(docs, #[trigger] terms[k]),
        forall|k: int| n <= k < terms.len() ==> !in_some_doc(docs, #[trigger] terms[k]),
    ensures
        terms_in_docs(terms, docs) == terms.take(n),
    decreases terms.len(),
{
    if terms.len() > 0 {
        let init = terms.drop_last();
        if terms.len() > n {
            assert(!in_some_doc(docs, terms[terms.len() - 1]));
            lemma_terms_in_docs_split(init, n, docs);
            assert(init.take(n) =~= terms.take(n));
        } else {
            assert(in_some_doc(docs, terms[terms.len() - 1]));
            lemma_terms_in_docs_split(init, n - 1, docs);
            assert(init.take(n - 1).push(terms.last()) =~= terms.take(n));
        }
    }
}

/// Removing the document that was just added finds it under its new id and gives back the
/// index as it was, except that ids keep counting up (no id is used twice); afterwards the
/// id names no document, so a second removal fails.
pub proof fn lemma_remove_after_add(m: IndexModel, text: Seq<char>)
    requires
        index_wf(m),
    ensures
        has_id(add_doc_spec(m, text).docs, m.next_id),
        !has_id(remove_doc_spec(add_doc_spec(m, text), m.next_id).docs, m.next_id),
        remove_doc_spec(add_doc_spec(m, text), m.next_id) == (IndexModel {
            docs: m.docs,
            terms: m.terms,
            next_id: m.next_id + 1,
        }),
{
    let a = add_doc_spec(m, text);
    let n = m.docs.len() as int;
    assert(a.docs[n].id == m.next_id);
    assert forall|i: int, j: int| 0 <= i < j < a.docs.len() implies a.docs[i].id < a.docs[j].id by {
        if j == n {
            assert(m.docs[i].id < m.next_id);
        } else {
            assert(m.docs[i] == a.docs[i] && m.docs[j] == a.docs[j]);
        }
    }
    lemma_index_of_id(a.docs, n);
    assert(a.docs.remove(n) =~= m.docs);
    let ts = texts_of(tokenize_spec(text));
    lemma_append_new_extends(m.terms, ts);
    let at = append_new(m.terms, ts);
    assert forall|k: int| 0 <= k < m.terms.len() implies in_some_doc(m.docs, #[trigger] at[k]) by {
        assert(at.take(m.terms.len() as int)[k] == m.terms[k]);
        assert(m.terms.contains(m.terms[k]));
    }
    assert forall|k: int| m.terms.len() <= k < at.len() implies !in_some_doc(m.docs, #[trigger] at[k]) by {
        assert(!m.terms.contains(at[k]));
    }
    lemma_terms_in_docs_split(at, m.terms.len() as int, m.docs);
}

proof fn lemma_token_postings_len(id: int, toks: Seq<TokenModel>, t: Seq<char>)
    ensures
        token_postings(id, toks, t).len() == count_in(texts_of(toks), t),
    decreases toks.len(),
{
    if toks.len() > 0 {
        lemma_token_postings_len(id, toks.drop_last(), t);
        assert(texts_of(toks).drop_last() =~= texts_of(toks.drop_last()));
    }
}

/// A posting list is as long as the term's total frequency, and it is non-empty exactly
/// when the term is in the dictionary.
pub proof fn lemma_postings_match_stats(m: IndexModel, t: Seq<char>)
    requires
        index_wf(m),
    ensures
        postings_spec(m.docs, t).len() == total_frequency_spec(m.docs, t),
        postings_spec(m.docs, t).len() > 0 <==> m.terms.contains(t),
        doc_frequency_spec(m.docs, t) > 0 <==> m.terms.contains(t),
        doc_frequency_spec(m.docs, t) <= total_frequency_spec(m.docs, t),
        doc_frequency_spec(m.docs, t) <= m.docs.len(),
{
    lemma_postings_len(m.docs, t);
    lemma_doc_frequency_positive(m.docs, t);
}

proof fn lemma_postings_len(docs: Seq<DocModel>, t: Seq<char>)
    ensures
        postings_spec(docs, t).len() == total_frequency_spec(docs, t),
        doc_frequency_spec(docs, t) <= total_frequency_spec(docs, t),
        total_frequency_spec(docs, t) > 0 ==> doc_frequency_spec(docs, t) > 0,
    decreases docs.len(),
{
    if docs.len() > 0 {
        lemma_postings_len(docs.drop_last(), t);
        lemma_token_postings_len(docs.last().id, docs.last().tokens, t);
    }
}

/// Adding a document appends its own occurrences to the end of every posting list.
pub proof fn lemma_add_appends_postings(m: IndexModel, text: Seq<char>, t: Seq<char>)
    ensures
        postings_spec(add_doc_spec(m, text).docs, t) == postings_spec(m.docs, t) + token_postings(
            m.next_id,
            tokenize_spec(text),
            t,
        ),
        doc_frequency_spec(add_doc_spec(m, text).docs, t) == doc_frequency_spec(m.docs, t) + if count_in(
            texts_of(tokenize_spec(text)),
            t,
        ) > 0 {
            1nat
        } else {
            0nat
        },
{
    assert(add_doc_spec(m, text).docs.drop_last() =~= m.docs);
}

/// A document can be read back as soon as it is added: under the id it was given, with its
/// text and tokens; every other document keeps its id, text and tokens.
pub proof fn lemma_read_after_add(m: IndexModel, text: Seq<char>, id: int)
    requires
        index_wf(m),
    ensures
        has_id(add_doc_spec(m, text).docs, m.next_id),
        add_doc_spec(m, text).docs[index_of_id(add_doc_spec(m, text).docs, m.next_id)] == new_doc(m.next_id, text),
        index_wf(add_doc_spec(m, text)) ==> (has_id(m.docs, id) ==> has_id(add_doc_spec(m, text).docs, id)
            && add_doc_spec(m, text).docs[index_of_id(add_doc_spec(m, text).docs, id)] == m.docs[index_of_id(m.docs, id)]),
{
    let a = add_doc_spec(m, text);
    let n = m.docs.len() as int;
    assert forall|i: int, j: int| 0 <= i < j < a.docs.len() implies a.docs[i].id < a.docs[j].id by {
        if j == n {
            assert(m.docs[i].id < m.next_id);
        } else {
            assert(m.docs[i] == a.docs[i] && m.docs[j] == a.docs[j]);
        }
    }
    lemma_index_of_id(a.docs, n);
    if has_id(m.docs, id) {
        let i = index_of_id(m.docs, id);
        lemma_index_of_id(m.docs, i);
        assert(a.docs[i] == m.docs[i]);
        lemma_index_of_id(a.docs, i);
    }
}

/// Ids are stable: removing one document takes it out for good and leaves every other
/// document under its id with its text and tokens.
pub proof fn lemma_remove_keeps_others(m: IndexModel, id: int, other: int)
    requires
        index_wf(m),
        other != id,
        has_id(m.docs, other),
    ensures
        !has_id(remove_doc_spec(m, id).docs, id),
        has_id(remove_doc_spec(m, id).docs, other),
        remove_doc_spec(m, id).docs[index_of_id(remove_doc_spec(m, id).docs, other)] == m.docs[index_of_id(m.docs, other)],
        remove_doc_spec(m, id).docs.len() == if has_id(m.docs, id) { m.docs.len() - 1 } else { m.docs.len() as int },
{
    let j = index_of_id(m.docs, other);
    lemma_index_of_id(m.docs, j);
    if has_id(m.docs, id) {
        let i = index_of_id(m.docs, id);
        lemma_index_of_id(m.docs, i);
        let d = m.docs.remove(i);
        assert forall|a: int, b: int| 0 <= a < b < d.len() implies d[a].id < d[b].id by {
            let a2 = if a < i { a } else { a + 1 };
            let b2 = if b < i { b } else { b + 1 };
            assert(d[a] == m.docs[a2]);
            assert(d[b] == m.docs[b2]);
        }
        let j2 = if j < i { j } else { j - 1 };
        assert(d[j2] == m.docs[j]);
        lemma_index_of_id(d, j2);
        if has_id(d, id) {
            let k = choose|k: int| 0 <= k < d.len() && (#[trigger] d[k]).id == id;
            let k2 = if k < i { k } else { k + 1 };
            assert(d[k] == m.docs[k2]);
            assert(k2 != i);
            if k2 < i {
                assert(m.docs[k2].id < m.docs[i].id);
            } else {
                assert(m.docs[i].id < m.docs[k2].id);
            }
        }
    }
}

impl Default for TermStats {
    fn default() -> (r: Self)
        ensures
            r.doc_frequency == 0 && r.total_frequency == 0,
    {
        TermStats { doc_frequency: 0, total_frequency: 0 }
    }
}

impl Default for InvertedIndex {
    fn default() -> (r: Self)
        ensures
            r.wf(),
            r@ == (IndexModel { docs: Seq::empty(), terms: Seq::empty(), next_id: 0 }),
    {
        Self::new()
    }
}

} // verus!
