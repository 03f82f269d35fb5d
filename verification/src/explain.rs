//! Why a document matched a query: retrieval-level reasons, following the query tree.
use vstd::prelude::*;

use crate::executor::{
    char_string, doc_has, expansion_spec, fuzzy_distance_of, fuzzy_expansion, is_not, op_hit, phrase_hit, phrase_matches,
    term_distance, ExecutorContext, QueryExecutor,
};
use crate::index::{has_id, index_of_id, prefixed_terms, DocModel, IndexModel};
use crate::query::{lemma_and_model, models, QueryModel, QueryOp};
use crate::engine::SearchOptions;
use crate::executor::ExecutorLimits;
use crate::text::{copy_string, join_strings, join_with, push_char, push_decimal, decimal_spec, strings_view};

verus! {

/// Why a document matched the query (retrieval-level explain for agents).
#[derive(Debug, Clone, PartialEq)]
pub struct MatchReason {
    /// Machine-readable reason code, e.g. `term`, `fuzzy`, `phrase`, `and`, `or`, `not`, `pinyin`
    pub code: String,
    /// Human-readable explanation
    pub message: String,
    /// Related query/index terms
    pub terms: Vec<String>,
}

/// The mathematical value of a reason.
pub struct ReasonModel {
    pub code: Seq<char>,
    pub message: Seq<char>,
    pub terms: Seq<Seq<char>>,
}

impl View for MatchReason {
    type V = ReasonModel;

    open spec fn view(&self) -> ReasonModel {
        ReasonModel { code: self.code@, message: self.message@, terms: strings_view(self.terms@) }
    }
}

pub open spec fn reason_views(v: Seq<MatchReason>) -> Seq<ReasonModel> {
    v.map_values(|r: MatchReason| r@)
}

// ==================== the reasons ====================

pub open spec fn term_reason(t: Seq<char>) -> ReasonModel {
    ReasonModel { code: "term"@, message: "document contains term '"@ + t + "'"@, terms: seq![t] }
}

pub open spec fn fuzzy_reason(q: Seq<char>, matched: Seq<char>) -> ReasonModel {
    ReasonModel {
        code: "fuzzy"@,
        message: "fuzzy match: '"@ + q + "' matched index term '"@ + matched + "'"@,
        terms: seq![q, matched],
    }
}

pub open spec fn phrase_reason(ts: Seq<Seq<char>>) -> ReasonModel {
    ReasonModel {
        code: "phrase"@,
        message: "document contains consecutive phrase '"@ + join_with(ts, " "@) + "'"@,
        terms: ts,
    }
}

pub open spec fn prefix_reason(p: Seq<char>, matched: Seq<Seq<char>>) -> ReasonModel {
    ReasonModel { code: "prefix"@, message: "document matches prefix '"@ + p + "'"@, terms: matched }
}

/// The one-character strings of `cs`.
pub open spec fn char_terms(cs: Seq<char>) -> Seq<Seq<char>> {
    cs.map_values(|c: char| seq![c])
}

pub open spec fn char_reason(cs: Seq<char>) -> ReasonModel {
    ReasonModel {
        code: "char"@,
        message: "document contains characters: "@ + join_with(char_terms(cs), ", "@),
        terms: char_terms(cs),
    }
}

pub open spec fn and_reason(n: nat) -> ReasonModel {
    ReasonModel {
        code: "and"@,
        message: "document satisfies AND of "@ + decimal_spec(n) + " clauses"@,
        terms: Seq::empty(),
    }
}

pub open spec fn or_reason() -> ReasonModel {
    ReasonModel { code: "or"@, message: "document satisfies at least one OR branch"@, terms: Seq::empty() }
}

pub open spec fn not_reason(ts: Seq<Seq<char>>) -> ReasonModel {
    ReasonModel {
        code: "not"@,
        message: "document does not match excluded terms: "@ + join_with(ts, ", "@),
        terms: ts,
    }
}

pub open spec fn pinyin_reason(q: Seq<char>) -> ReasonModel {
    ReasonModel { code: "pinyin"@, message: "document matched pinyin input '"@ + q + "'"@, terms: seq![q] }
}

fn lit(s: &str) -> (r: String)
    ensures
        r@ == s@,
{
    s.to_owned()
}

impl MatchReason {
    pub fn new(code: String, message: String, terms: Vec<String>) -> (r: Self)
        ensures
            r.code@ == code@,
            r.message@ == message@,
            r.terms@ == terms@,
    {
        MatchReason { code, message, terms }
    }

    pub fn term(term: &str) -> (r: Self)
        ensures
            r@ == term_reason(term@),
    {
        let mut message = lit("document contains term '");
        message.append(term);
        message.append("'");
        let mut terms: Vec<String> = Vec::new();
        terms.push(term.to_owned());
        proof {
            assert(strings_view(terms@) =~= seq![term@]);
        }
        MatchReason { code: lit("term"), message, terms }
    }

    pub fn fuzzy(query: &str, matched: &str) -> (r: Self)
        ensures
            r@ == fuzzy_reason(query@, matched@),
    {
        let mut message = lit("fuzzy match: '");
        message.append(query);
        message.append("' matched index term '");
        message.append(matched);
        message.append("'");
        let mut terms: Vec<String> = Vec::new();
        terms.push(query.to_owned());
        terms.push(matched.to_owned());
        proof {
            assert(strings_view(terms@) =~= seq![query@, matched@]);
        }
        MatchReason { code: lit("fuzzy"), message, terms }
    }

    pub fn phrase(terms: &[String]) -> (r: Self)
        ensures
            r@ == phrase_reason(strings_view(terms@)),
    {
        let v = copy_strings(terms);
        let joined = join_strings(&v, " ");
        let mut message = lit("document contains consecutive phrase '");
        message.append(joined.as_str());
        message.append("'");
        proof {
            assert(v@.map_values(|p: String| p@) =~= strings_view(terms@));
        }
        MatchReason { code: lit("phrase"), message, terms: v }
    }

    pub fn prefix(prefix: &str, matched_terms: &[String]) -> (r: Self)
        ensures
            r@ == prefix_reason(prefix@, strings_view(matched_terms@)),
    {
        let mut message = lit("document matches prefix '");
        message.append(prefix);
        message.append("'");
        MatchReason { code: lit("prefix"), message, terms: copy_strings(matched_terms) }
    }

    pub fn char_match(chars: &[char]) -> (r: Self)
        ensures
            r@ == char_reason(chars@),
    {
        let mut terms: Vec<String> = Vec::new();
        let mut k: usize = 0;
        while k < chars.len()
            invariant
                k <= chars@.len(),
                strings_view(terms@) == char_terms(chars@).take(k as int),
            decreases chars@.len() - k,
        {
            let mut s = String::new();
            push_char(&mut s, chars[k]);
            let ghost before = terms@;
            proof {
                assert(s@ =~= seq![chars@[k as int]]);
            }
            terms.push(s);
            proof {
                assert(strings_view(terms@) =~= strings_view(before).push(seq![chars@[k as int]]));
                assert(strings_view(terms@) =~= char_terms(chars@).take(k + 1));
            }
            k += 1;
        }
        proof {
            assert(char_terms(chars@).take(chars@.len() as int) =~= char_terms(chars@));
        }
        let joined = join_strings(&terms, ", ");
        let mut message = lit("document contains characters: ");
        message.append(joined.as_str());
        proof {
            assert(terms@.map_values(|p: String| p@) =~= strings_view(terms@));
        }
        MatchReason { code: lit("char"), message, terms }
    }

    pub fn and_clause(child_count: usize) -> (r: Self)
        ensures
            r@ == and_reason(child_count as nat),
    {
        let mut message = lit("document satisfies AND of ");
        push_decimal(&mut message, child_count);
        message.append(" clauses");
        let terms: Vec<String> = Vec::new();
        proof {
            assert(strings_view(terms@) =~= Seq::<Seq<char>>::empty());
        }
        MatchReason { code: lit("and"), message, terms }
    }

    pub fn or_clause() -> (r: Self)
        ensures
            r@ == or_reason(),
    {
        let terms: Vec<String> = Vec::new();
        proof {
            assert(strings_view(terms@) =~= Seq::<Seq<char>>::empty());
        }
        MatchReason { code: lit("or"), message: lit("document satisfies at least one OR branch"), terms }
    }

    pub fn not_excluded(terms: &[String]) -> (r: Self)
        ensures
            r@ == not_reason(strings_view(terms@)),
    {
        let v = copy_strings(terms);
        let joined = join_strings(&v, ", ");
        let mut message = lit("document does not match excluded terms: ");
        message.append(joined.as_str());
        proof {
            assert(v@.map_values(|p: String| p@) =~= strings_view(terms@));
        }
        MatchReason { code: lit("not"), message, terms: v }
    }

    pub fn pinyin(query: &str) -> (r: Self)
        ensures
            r@ == pinyin_reason(query@),
    {
        let mut message = lit("document matched pinyin input '");
        message.append(query);
        message.append("'");
        let mut terms: Vec<String> = Vec::new();
        terms.push(query.to_owned());
        proof {
            assert(strings_view(terms@) =~= seq![query@]);
        }
        MatchReason { code: lit("pinyin"), message, terms }
    }
}

/// A copy of a list of strings.
pub(crate) fn copy_strings(v: &[String]) -> (r: Vec<String>)
    ensures
        strings_view(r@) == strings_view(v@),
{
    let mut r: Vec<String> = Vec::new();
    let mut k: usize = 0;
    while k < v.len()
        invariant
            k <= v@.len(),
            strings_view(r@) == strings_view(v@).take(k as int),
        decreases v@.len() - k,
    {
        let ghost before = r@;
        let c = copy_string(&v[k]);
        r.push(c);
        proof {
            assert(strings_view(r@) =~= strings_view(before).push(v@[k as int]@));
            assert(strings_view(r@) =~= strings_view(v@).take(k + 1));
        }
        k += 1;
    }
    proof {
        assert(strings_view(v@).take(v@.len() as int) =~= strings_view(v@));
    }
    r
}

// ==================== explaining a document ====================

/// The reasons for term `t` at distance `dist`: the term itself, else each expansion of it
/// that the document contains.
pub open spec fn term_reasons(m: IndexModel, l: ExecutorLimits, d: DocModel, t: Seq<char>, dist: int) -> Seq<ReasonModel> {
    if doc_has(d, t) {
        seq![term_reason(t)]
    } else if dist <= 0 {
        Seq::empty()
    } else {
        fuzzy_reasons(t, expansion_spec(m, l, t, dist), d)
    }
}

pub open spec fn fuzzy_reasons(t: Seq<char>, es: Seq<Seq<char>>, d: DocModel) -> Seq<ReasonModel>
    decreases es.len(),
{
    if es.len() == 0 {
        Seq::empty()
    } else {
        fuzzy_reasons(t, es.drop_last(), d) + if doc_has(d, es.last()) {
            seq![fuzzy_reason(t, es.last())]
        } else {
            Seq::empty()
        }
    }
}

/// The terms of `ts` that document `d` contains, in order.
pub open spec fn terms_in_doc(d: DocModel, ts: Seq<Seq<char>>) -> Seq<Seq<char>>
    decreases ts.len(),
{
    if ts.len() == 0 {
        Seq::empty()
    } else {
        terms_in_doc(d, ts.drop_last()) + if doc_has(d, ts.last()) {
            seq![ts.last()]
        } else {
            Seq::empty()
        }
    }
}

/// The query terms that an operation names (a prefix with `*` after it).
pub open spec fn op_terms(q: QueryModel) -> Seq<Seq<char>>
    decreases q, 1int,
{
    match q {
        QueryModel::Term(t) => seq![t],
        QueryModel::Fuzzy(t, _) => seq![t],
        QueryModel::Phrase(ts) => ts,
        QueryModel::Prefix(p) => seq![p + "*"@],
        QueryModel::CharMatch(cs) => char_terms(cs),
        QueryModel::And(cs) => list_op_terms(cs, cs.len() as int),
        QueryModel::Or(cs) => list_op_terms(cs, cs.len() as int),
        QueryModel::Not(inner) => op_terms(*inner),
    }
}

pub open spec fn list_op_terms(cs: Seq<QueryModel>, n: int) -> Seq<Seq<char>>
    decreases cs, n,
{
    if n <= 0 || n > cs.len() {
        Seq::empty()
    } else {
        proof {
            assert(decreases_to!(cs => cs[n - 1]));
        }
        list_op_terms(cs, n - 1) + op_terms(cs[n - 1])
    }
}

/// The number of positive children among the first `n` of `cs`.
pub open spec fn include_count(cs: Seq<QueryModel>, n: int) -> nat
    decreases n,
{
    if n <= 0 || n > cs.len() {
        0
    } else {
        include_count(cs, n - 1) + if is_not(cs[n - 1]) { 0nat } else { 1nat }
    }
}

/// The reasons why document `d` matches `q`, following the query tree.
pub open spec fn op_reasons(m: IndexModel, o: SearchOptions, l: ExecutorLimits, q: QueryModel, d: DocModel) -> Seq<ReasonModel>
    decreases q, 1int,
{
    match q {
        QueryModel::Term(t) => term_reasons(m, l, d, t, term_distance(o)),
        QueryModel::Fuzzy(t, n) => term_reasons(m, l, d, t, fuzzy_distance_of(n)),
        QueryModel::Phrase(ts) => if phrase_hit(d, ts) {
            seq![phrase_reason(ts)]
        } else {
            Seq::empty()
        },
        QueryModel::Prefix(p) => if terms_in_doc(d, prefixed_terms(m.terms, p)).len() > 0 {
            seq![prefix_reason(p, terms_in_doc(d, prefixed_terms(m.terms, p)))]
        } else {
            Seq::empty()
        },
        QueryModel::CharMatch(cs) => if forall|k: int| 0 <= k < cs.len() ==> doc_has(d, seq![#[trigger] cs[k]]) {
            seq![char_reason(cs)]
        } else {
            Seq::empty()
        },
        QueryModel::And(cs) => (if include_count(cs, cs.len() as int) > 0 {
            seq![and_reason(include_count(cs, cs.len() as int))] + include_reasons(m, o, l, cs, cs.len() as int, d)
        } else {
            Seq::empty()
        }) + exclude_reasons(m, o, l, cs, cs.len() as int, d),
        QueryModel::Or(cs) => if op_hit(m, o, l, q, d) {
            seq![or_reason()] + or_reasons(m, o, l, cs, cs.len() as int, d)
        } else {
            Seq::empty()
        },
        QueryModel::Not(_) => Seq::empty(),
    }
}

/// The reasons of the positive children among the first `n` of an AND.
pub open spec fn include_reasons(m: IndexModel, o: SearchOptions, l: ExecutorLimits, cs: Seq<QueryModel>, n: int, d: DocModel) -> Seq<ReasonModel>
    decreases cs, n,
{
    if n <= 0 || n > cs.len() {
        Seq::empty()
    } else {
        proof {
            assert(decreases_to!(cs => cs[n - 1]));
        }
        include_reasons(m, o, l, cs, n - 1, d) + if is_not(cs[n - 1]) {
            Seq::empty()
        } else {
            op_reasons(m, o, l, cs[n - 1], d)
        }
    }
}

/// The reasons of the matching positive children among the first `n` of an OR.
pub open spec fn or_reasons(m: IndexModel, o: SearchOptions, l: ExecutorLimits, cs: Seq<QueryModel>, n: int, d: DocModel) -> Seq<ReasonModel>
    decreases cs, n,
{
    if n <= 0 || n > cs.len() {
        Seq::empty()
    } else {
        proof {
            assert(decreases_to!(cs => cs[n - 1]));
        }
        or_reasons(m, o, l, cs, n - 1, d) + if !is_not(cs[n - 1]) && op_hit(m, o, l, cs[n - 1], d) {
            op_reasons(m, o, l, cs[n - 1], d)
        } else {
            Seq::empty()
        }
    }
}

/// One reason for each negated child among the first `n` of an AND whose operand the
/// document misses.
pub open spec fn exclude_reasons(m: IndexModel, o: SearchOptions, l: ExecutorLimits, cs: Seq<QueryModel>, n: int, d: DocModel) -> Seq<ReasonModel>
    decreases n,
{
    if n <= 0 || n > cs.len() {
        Seq::empty()
    } else {
        exclude_reasons(m, o, l, cs, n - 1, d) + match cs[n - 1] {
            QueryModel::Not(inner) => if !op_hit(m, o, l, *inner, d) {
                seq![not_reason(op_terms(*inner))]
            } else {
                Seq::empty()
            },
            _ => Seq::empty(),
        }
    }
}

/// Whether two reasons have the same code and message.
pub open spec fn same_key(a: ReasonModel, b: ReasonModel) -> bool {
    a.code == b.code && a.message == b.message
}

/// `rs` keeping only the first reason of each code and message.
pub open spec fn dedup_reasons_spec(rs: Seq<ReasonModel>) -> Seq<ReasonModel>
    decreases rs.len(),
{
    if rs.len() == 0 {
        Seq::empty()
    } else {
        let d = dedup_reasons_spec(rs.drop_last());
        if exists|k: int| 0 <= k < d.len() && same_key(#[trigger] d[k], rs.last()) {
            d
        } else {
            d.push(rs.last())
        }
    }
}

/// The reasons for document `id` under `q`: none unless it matches.
pub open spec fn explain_spec(m: IndexModel, o: SearchOptions, l: ExecutorLimits, q: QueryModel, id: int) -> Seq<ReasonModel> {
    if has_id(m.docs, id) && op_hit(m, o, l, q, m.docs[index_of_id(m.docs, id)]) {
        dedup_reasons_spec(op_reasons(m, o, l, q, m.docs[index_of_id(m.docs, id)]))
    } else {
        Seq::empty()
    }
}

proof fn lemma_fuzzy_reasons_nonempty(t: Seq<char>, es: Seq<Seq<char>>, d: DocModel, k: int)
    requires
        0 <= k < es.len(),
        doc_has(d, es[k]),
    ensures
        fuzzy_reasons(t, es, d).len() > 0,
    decreases es.len(),
{
    if k < es.len() - 1 {
        assert(es.drop_last()[k] == es[k]);
        lemma_fuzzy_reasons_nonempty(t, es.drop_last(), d, k);
    }
}

proof fn lemma_terms_in_doc_nonempty(d: DocModel, ts: Seq<Seq<char>>, k: int)
    requires
        0 <= k < ts.len(),
        doc_has(d, ts[k]),
    ensures
        terms_in_doc(d, ts).len() > 0,
    decreases ts.len(),
{
    if k < ts.len() - 1 {
        assert(ts.drop_last()[k] == ts[k]);
        lemma_terms_in_doc_nonempty(d, ts.drop_last(), k);
    }
}

proof fn lemma_include_count_positive(cs: Seq<QueryModel>, n: int, k: int)
    requires
        0 <= k < n <= cs.len(),
        !is_not(cs[k]),
    ensures
        include_count(cs, n) > 0,
    decreases n,
{
    if k < n - 1 {
        lemma_include_count_positive(cs, n - 1, k);
    }
}

proof fn lemma_op_reasons_nonempty(m: IndexModel, o: SearchOptions, l: ExecutorLimits, q: QueryModel, d: DocModel)
    requires
        op_hit(m, o, l, q, d),
    ensures
        op_reasons(m, o, l, q, d).len() > 0,
{
    match q {
        QueryModel::Term(t) => {
            if !doc_has(d, t) {
                let es = expansion_spec(m, l, t, term_distance(o));
                let k = choose|k: int| 0 <= k < es.len() && doc_has(d, #[trigger] es[k]);
                lemma_fuzzy_reasons_nonempty(t, es, d, k);
            }
        },
        QueryModel::Fuzzy(t, n) => {
            if !doc_has(d, t) {
                let es = expansion_spec(m, l, t, fuzzy_distance_of(n));
                let k = choose|k: int| 0 <= k < es.len() && doc_has(d, #[trigger] es[k]);
                lemma_fuzzy_reasons_nonempty(t, es, d, k);
            }
        },
        QueryModel::Prefix(p) => {
            let ts = prefixed_terms(m.terms, p);
            let k = choose|k: int| 0 <= k < ts.len() && doc_has(d, #[trigger] ts[k]);
            lemma_terms_in_doc_nonempty(d, ts, k);
        },
        QueryModel::And(cs) => {
            let k = choose|k: int| 0 <= k < cs.len() && !is_not(#[trigger] cs[k]);
            lemma_include_count_positive(cs, cs.len() as int, k);
        },
        _ => {},
    }
}

proof fn lemma_dedup_reasons(rs: Seq<ReasonModel>)
    ensures
        rs.len() > 0 ==> dedup_reasons_spec(rs).len() > 0,
        dedup_reasons_spec(rs).len() <= rs.len(),
        forall|i: int, j: int|
            0 <= i < j < dedup_reasons_spec(rs).len() ==> !same_key(#[trigger] dedup_reasons_spec(rs)[i], #[trigger] dedup_reasons_spec(rs)[j]),
    decreases rs.len(),
{
    if rs.len() > 0 {
        let init = rs.drop_last();
        lemma_dedup_reasons(init);
        let d = dedup_reasons_spec(init);
        let r = dedup_reasons_spec(rs);
        if !(exists|k: int| 0 <= k < d.len() && same_key(#[trigger] d[k], rs.last())) {
            assert forall|i: int, j: int| 0 <= i < j < r.len() implies !same_key(#[trigger] r[i], #[trigger] r[j]) by {
                if j == d.len() {
                    assert(r[i] == d[i]);
                    assert(r[j] == rs.last());
                } else {
                    assert(r[i] == d[i] && r[j] == d[j]);
                }
            }
        }
    }
}

/// A document gets reasons exactly when it is in the index and matches the query, and no
/// two of its reasons share a code and a message.
pub proof fn lemma_explain_laws(m: IndexModel, o: SearchOptions, l: ExecutorLimits, q: QueryModel, id: int)
    ensures
        explain_spec(m, o, l, q, id).len() > 0 <==> (has_id(m.docs, id) && op_hit(m, o, l, q, m.docs[index_of_id(m.docs, id)])),
        forall|i: int, j: int|
            0 <= i < j < explain_spec(m, o, l, q, id).len() ==> !same_key(#[trigger] explain_spec(m, o, l, q, id)[i], #[trigger] explain_spec(m, o, l, q, id)[j]),
{
    if has_id(m.docs, id) && op_hit(m, o, l, q, m.docs[index_of_id(m.docs, id)]) {
        let d = m.docs[index_of_id(m.docs, id)];
        lemma_op_reasons_nonempty(m, o, l, q, d);
        lemma_dedup_reasons(op_reasons(m, o, l, q, d));
    }
}

proof fn lemma_op_terms_unfold(q: QueryModel)
    ensures
        q matches QueryModel::Term(t) ==> op_terms(q) == seq![t],
        q matches QueryModel::Fuzzy(t, _) ==> op_terms(q) == seq![t],
        q matches QueryModel::Phrase(ts) ==> op_terms(q) == ts,
        q matches QueryModel::Prefix(p) ==> op_terms(q) == seq![p + "*"@],
        q matches QueryModel::CharMatch(cs) ==> op_terms(q) == char_terms(cs),
        q matches QueryModel::And(cs) ==> op_terms(q) == list_op_terms(cs, cs.len() as int),
        q matches QueryModel::Or(cs) ==> op_terms(q) == list_op_terms(cs, cs.len() as int),
        q matches QueryModel::Not(inner) ==> op_terms(q) == op_terms(*inner),
{
}

proof fn lemma_list_op_terms_step(cs: Seq<QueryModel>, n: int)
    requires
        0 <= n < cs.len(),
    ensures
        list_op_terms(cs, n + 1) == list_op_terms(cs, n) + op_terms(cs[n]),
{
}

proof fn lemma_list_op_terms_base(cs: Seq<QueryModel>)
    ensures
        list_op_terms(cs, 0) == Seq::<Seq<char>>::empty(),
{
}

/// The query terms an operation names.
pub fn collect_op_terms(op: &QueryOp) -> (r: Vec<String>)
    ensures
        strings_view(r@) == op_terms(op.model()),
    decreases op,
{
    proof {
        lemma_op_terms_unfold(op.model());
    }
    match op {
        QueryOp::Term(t) => {
            let mut r: Vec<String> = Vec::new();
            r.push(copy_string(t));
            proof {
                assert(strings_view(r@) =~= seq![t@]);
            }
            r
        },
        QueryOp::Fuzzy(t, _) => {
            let mut r: Vec<String> = Vec::new();
            r.push(copy_string(t));
            proof {
                assert(strings_view(r@) =~= seq![t@]);
            }
            r
        },
        QueryOp::Phrase(ts) => copy_strings(ts.as_slice()),
        QueryOp::Prefix(p) => {
            let mut s = copy_string(p);
            s.append("*");
            let mut r: Vec<String> = Vec::new();
            r.push(s);
            proof {
                assert(strings_view(r@) =~= seq![p@ + "*"@]);
            }
            r
        },
        QueryOp::CharMatch(cs) => {
            let reason = MatchReason::char_match(cs.as_slice());
            reason.terms
        },
        QueryOp::Not(inner) => {
            proof {
                assert(decreases_to!(*op => (*op)->Not_0));
            }
            collect_op_terms(inner)
        },
        QueryOp::And(children) | QueryOp::Or(children) => {
            let ghost cs = models(children@);
            proof {
                lemma_and_model(*children);
                lemma_list_op_terms_base(cs);
            }
            let mut r: Vec<String> = Vec::new();
            let mut j: usize = 0;
            while j < children.len()
                invariant
                    cs == models(children@),
                    *op == QueryOp::And(*children) || *op == QueryOp::Or(*children),
                    j <= children@.len(),
                    strings_view(r@) == list_op_terms(cs, j as int),
                decreases children@.len() - j,
            {
                proof {
                    vstd::std_specs::vec::axiom_vec_index_decreases(*children, j as int);
                    if *op == QueryOp::And(*children) {
                        assert(decreases_to!(*op => (*op)->And_0));
                    } else {
                        assert(decreases_to!(*op => (*op)->Or_0));
                    }
                    lemma_list_op_terms_step(cs, j as int);
                    assert(cs[j as int] == children@[j as int].model());
                }
                let sub = collect_op_terms(&children[j]);
                let ghost before = r@;
                let mut k: usize = 0;
                while k < sub.len()
                    invariant
                        k <= sub@.len(),
                        strings_view(r@) == strings_view(before) + strings_view(sub@).take(k as int),
                    decreases sub@.len() - k,
                {
                    let ghost b2 = r@;
                    r.push(copy_string(&sub[k]));
                    proof {
                        assert(strings_view(r@) =~= strings_view(b2).push(sub@[k as int]@));
                        assert(strings_view(sub@).take(k + 1) =~= strings_view(sub@).take(k as int).push(sub@[k as int]@));
                    }
                    k += 1;
                }
                proof {
                    assert(strings_view(sub@).take(sub@.len() as int) =~= strings_view(sub@));
                }
                j += 1;
            }
            r
        },
    }
}

/// The document a context explains: the one with id `doc_id`.
pub open spec fn doc_of(ctx: &ExecutorContext, doc_id: usize) -> DocModel {
    ctx.index@.docs[index_of_id(ctx.index@.docs, doc_id as int)]
}

fn explain_term(ctx: &ExecutorContext, doc_id: usize, term: &str, max_distance: usize, reasons: &mut Vec<MatchReason>)
    requires
        ctx.valid(),
        has_id(ctx.index@.docs, doc_id as int),
    ensures
        reason_views(final(reasons)@) == reason_views(old(reasons)@) + term_reasons(
            ctx.index@,
            ctx.limits,
            doc_of(ctx, doc_id),
            term@,
            max_distance as int,
        ),
{
    let ghost d = doc_of(ctx, doc_id);
    let ghost r0 = reason_views(reasons@);
    if ctx.index.term_freq_in_doc(term, doc_id) > 0 {
        let r = MatchReason::term(term);
        reasons.push(r);
        proof {
            assert(reason_views(reasons@) =~= r0 + seq![term_reason(term@)]);
        }
        return;
    }
    if max_distance == 0 {
        proof {
            assert(r0 + Seq::<ReasonModel>::empty() =~= r0);
        }
        return;
    }
    let exp = fuzzy_expansion(ctx, term, max_distance);
    let ghost es = strings_view(exp@);
    let mut k: usize = 0;
    proof {
        assert(es.take(0) =~= Seq::<Seq<char>>::empty());
        assert(r0 + Seq::<ReasonModel>::empty() =~= r0);
    }
    while k < exp.len()
        invariant
            ctx.valid(),
            has_id(ctx.index@.docs, doc_id as int),
            d == doc_of(ctx, doc_id),
            es == strings_view(exp@),
            k <= exp@.len(),
            reason_views(reasons@) == r0 + fuzzy_reasons(term@, es.take(k as int), d),
        decreases exp@.len() - k,
    {
        proof {
            assert(es.take(k + 1).drop_last() =~= es.take(k as int));
            assert(es.take(k + 1).last() == exp@[k as int]@);
        }
        let ghost before = reason_views(reasons@);
        if ctx.index.term_freq_in_doc(exp[k].as_str(), doc_id) > 0 {
            let r = MatchReason::fuzzy(term, exp[k].as_str());
            reasons.push(r);
            proof {
                assert(reason_views(reasons@) =~= before + seq![fuzzy_reason(term@, exp@[k as int]@)]);
            }
        } else {
            proof {
                assert(before + Seq::<ReasonModel>::empty() =~= before);
            }
        }
        k += 1;
    }
    proof {
        assert(es.take(es.len() as int) =~= es);
    }
}

proof fn lemma_reasons_unfold(m: IndexModel, o: SearchOptions, l: ExecutorLimits, q: QueryModel, d: DocModel)
    ensures
        q matches QueryModel::Term(t) ==> op_reasons(m, o, l, q, d) == term_reasons(m, l, d, t, term_distance(o)),
        q matches QueryModel::Fuzzy(t, n) ==> op_reasons(m, o, l, q, d) == term_reasons(m, l, d, t, fuzzy_distance_of(n)),
        q matches QueryModel::Phrase(ts) ==> op_reasons(m, o, l, q, d) == if phrase_hit(d, ts) {
            seq![phrase_reason(ts)]
        } else {
            Seq::<ReasonModel>::empty()
        },
        q matches QueryModel::Prefix(p) ==> op_reasons(m, o, l, q, d) == if terms_in_doc(d, prefixed_terms(m.terms, p)).len() > 0 {
            seq![prefix_reason(p, terms_in_doc(d, prefixed_terms(m.terms, p)))]
        } else {
            Seq::<ReasonModel>::empty()
        },
        q matches QueryModel::CharMatch(cs) ==> op_reasons(m, o, l, q, d) == if forall|k: int|
            0 <= k < cs.len() ==> doc_has(d, seq![#[trigger] cs[k]]) {
            seq![char_reason(cs)]
        } else {
            Seq::<ReasonModel>::empty()
        },
        q matches QueryModel::And(cs) ==> op_reasons(m, o, l, q, d) == (if include_count(cs, cs.len() as int) > 0 {
            seq![and_reason(include_count(cs, cs.len() as int))] + include_reasons(m, o, l, cs, cs.len() as int, d)
        } else {
            Seq::<ReasonModel>::empty()
        }) + exclude_reasons(m, o, l, cs, cs.len() as int, d),
        q matches QueryModel::Or(cs) ==> op_reasons(m, o, l, q, d) == if op_hit(m, o, l, q, d) {
            seq![or_reason()] + or_reasons(m, o, l, cs, cs.len() as int, d)
        } else {
            Seq::<ReasonModel>::empty()
        },
        q is Not ==> op_reasons(m, o, l, q, d) == Seq::<ReasonModel>::empty(),
{
}

proof fn lemma_child_lists_step(m: IndexModel, o: SearchOptions, l: ExecutorLimits, cs: Seq<QueryModel>, n: int, d: DocModel)
    requires
        0 <= n < cs.len(),
    ensures
        include_reasons(m, o, l, cs, n + 1, d) == include_reasons(m, o, l, cs, n, d) + if is_not(cs[n]) {
            Seq::<ReasonModel>::empty()
        } else {
            op_reasons(m, o, l, cs[n], d)
        },
        or_reasons(m, o, l, cs, n + 1, d) == or_reasons(m, o, l, cs, n, d) + if !is_not(cs[n]) && op_hit(m, o, l, cs[n], d) {
            op_reasons(m, o, l, cs[n], d)
        } else {
            Seq::<ReasonModel>::empty()
        },
        exclude_reasons(m, o, l, cs, n + 1, d) == exclude_reasons(m, o, l, cs, n, d) + match cs[n] {
            QueryModel::Not(inner) => if !op_hit(m, o, l, *inner, d) {
                seq![not_reason(op_terms(*inner))]
            } else {
                Seq::<ReasonModel>::empty()
            },
            _ => Seq::<ReasonModel>::empty(),
        },
        include_count(cs, n + 1) == include_count(cs, n) + if is_not(cs[n]) { 0nat } else { 1nat },
{
}

proof fn lemma_child_lists_base(m: IndexModel, o: SearchOptions, l: ExecutorLimits, cs: Seq<QueryModel>, d: DocModel)
    ensures
        include_reasons(m, o, l, cs, 0, d) == Seq::<ReasonModel>::empty(),
        or_reasons(m, o, l, cs, 0, d) == Seq::<ReasonModel>::empty(),
        exclude_reasons(m, o, l, cs, 0, d) == Seq::<ReasonModel>::empty(),
        include_count(cs, 0) == 0,
{
}

fn collect_reasons(ctx: &ExecutorContext, op: &QueryOp, doc_id: usize, reasons: &mut Vec<MatchReason>)
    requires
        ctx.valid(),
        has_id(ctx.index@.docs, doc_id as int),
    ensures
        reason_views(final(reasons)@) == reason_views(old(reasons)@) + op_reasons(
            ctx.index@,
            *ctx.options,
            ctx.limits,
            op.model(),
            doc_of(ctx, doc_id),
        ),
    decreases op,
{
    let ghost m = ctx.index@;
    let ghost o = *ctx.options;
    let ghost l = ctx.limits;
    let ghost d = doc_of(ctx, doc_id);
    let ghost r0 = reason_views(reasons@);
    proof {
        lemma_reasons_unfold(m, o, l, op.model(), d);
        assert(r0 + Seq::<ReasonModel>::empty() =~= r0);
    }
    match op {
        QueryOp::Term(t) => {
            let dist = if ctx.options.fuzzy { ctx.options.max_edit_distance } else { 0 };
            explain_term(ctx, doc_id, t.as_str(), dist, reasons);
        },
        QueryOp::Fuzzy(t, n) => {
            let dist = if *n < 3 { *n } else { 3 };
            explain_term(ctx, doc_id, t.as_str(), dist, reasons);
        },
        QueryOp::Phrase(ts) => {
            if phrase_matches(ctx.index, doc_id, ts) {
                reasons.push(MatchReason::phrase(ts.as_slice()));
                proof {
                    assert(reason_views(reasons@) =~= r0 + seq![phrase_reason(strings_view(ts@))]);
                }
            }
        },
        QueryOp::Prefix(p) => {
            let pt = ctx.index.terms_with_prefix(p.as_str());
            let ghost ps = prefixed_terms(m.terms, p@);
            let mut matched: Vec<String> = Vec::new();
            let mut k: usize = 0;
            proof {
                assert(ps.take(0) =~= Seq::<Seq<char>>::empty());
            }
            while k < pt.len()
                invariant
                    ctx.valid(),
                    m == ctx.index@,
                    has_id(ctx.index@.docs, doc_id as int),
                    d == doc_of(ctx, doc_id),
                    strings_view(pt@) == ps,
                    k <= pt@.len(),
                    strings_view(matched@) == terms_in_doc(d, ps.take(k as int)),
                decreases pt@.len() - k,
            {
                proof {
                    assert(ps.take(k + 1).drop_last() =~= ps.take(k as int));
                    assert(ps.take(k + 1).last() == pt@[k as int]@);
                }
                let ghost before = strings_view(matched@);
                if ctx.index.term_freq_in_doc(pt[k].as_str(), doc_id) > 0 {
                    matched.push(copy_string(&pt[k]));
                    proof {
                        assert(strings_view(matched@) =~= before + seq![pt@[k as int]@]);
                    }
                } else {
                    proof {
                        assert(before + Seq::<Seq<char>>::empty() =~= before);
                    }
                }
                k += 1;
            }
            proof {
                assert(ps.take(ps.len() as int) =~= ps);
            }
            if matched.len() > 0 {
                reasons.push(MatchReason::prefix(p.as_str(), matched.as_slice()));
                proof {
                    assert(reason_views(reasons@) =~= r0 + seq![prefix_reason(p@, strings_view(matched@))]);
                }
            }
        },
        QueryOp::CharMatch(cs) => {
            let mut all = true;
            let mut k: usize = 0;
            while k < cs.len()
                invariant
                    ctx.valid(),
                    has_id(ctx.index@.docs, doc_id as int),
                    d == doc_of(ctx, doc_id),
                    k <= cs@.len(),
                    all == forall|j: int| 0 <= j < k ==> doc_has(d, seq![#[trigger] cs@[j]]),
                decreases cs@.len() - k,
            {
                let t = char_string(cs[k]);
                if ctx.index.term_freq_in_doc(t.as_str(), doc_id) == 0 {
                    all = false;
                }
                proof {
                    if all {
                        assert forall|j: int| 0 <= j < k + 1 implies doc_has(d, seq![#[trigger] cs@[j]]) by {}
                    } else {
                        if forall|j: int| 0 <= j < k + 1 ==> doc_has(d, seq![#[trigger] cs@[j]]) {
                            assert(doc_has(d, seq![cs@[k as int]]));
                            assert forall|j: int| 0 <= j < k implies doc_has(d, seq![#[trigger] cs@[j]]) by {
                                assert(0 <= j < k + 1);
                            }
                        }
                    }
                }
                k += 1;
            }
            if all {
                reasons.push(MatchReason::char_match(cs.as_slice()));
                proof {
                    assert(reason_views(reasons@) =~= r0 + seq![char_reason(cs@)]);
                }
            }
        },
        QueryOp::Not(_) => {},
        QueryOp::And(children) => {
            let ghost cs = models(children@);
            proof {
                lemma_and_model(*children);
                lemma_child_lists_base(m, o, l, cs, d);
            }
            let mut cnt: usize = 0;
            let mut j: usize = 0;
            while j < children.len()
                invariant
                    cs == models(children@),
                    j <= children@.len(),
                    cnt == include_count(cs, j as int),
                    cnt <= j,
                decreases children@.len() - j,
            {
                proof {
                    lemma_child_lists_step(m, o, l, cs, j as int, d);
                    assert(cs[j as int] == children@[j as int].model());
                }
                match &children[j] {
                    QueryOp::Not(_) => {},
                    _ => {
                        cnt += 1;
                    },
                }
                j += 1;
            }
            if cnt > 0 {
                reasons.push(MatchReason::and_clause(cnt));
                let ghost r1 = reason_views(reasons@);
                proof {
                    assert(r1 =~= r0 + seq![and_reason(cnt as nat)]);
                    assert(r1 + Seq::<ReasonModel>::empty() =~= r1);
                }
                let mut j: usize = 0;
                while j < children.len()
                    invariant
                        ctx.valid(),
                        has_id(ctx.index@.docs, doc_id as int),
                        m == ctx.index@,
                        o == *ctx.options,
                        l == ctx.limits,
                        d == doc_of(ctx, doc_id),
                        cs == models(children@),
                        *op == QueryOp::And(*children),
                        j <= children@.len(),
                        reason_views(reasons@) == r1 + include_reasons(m, o, l, cs, j as int, d),
                    decreases children@.len() - j,
                {
                    proof {
                        lemma_child_lists_step(m, o, l, cs, j as int, d);
                        assert(cs[j as int] == children@[j as int].model());
                        vstd::std_specs::vec::axiom_vec_index_decreases(*children, j as int);
                        assert(decreases_to!(*op => (*op)->And_0));
                    }
                    let ghost before = reason_views(reasons@);
                    match &children[j] {
                        QueryOp::Not(_) => {
                            proof {
                                assert(before + Seq::<ReasonModel>::empty() =~= before);
                            }
                        },
                        _ => {
                            collect_reasons(ctx, &children[j], doc_id, reasons);
                        },
                    }
                    proof {
                        assert(reason_views(reasons@) =~= r1 + include_reasons(m, o, l, cs, j + 1, d));
                    }
                    j += 1;
                }
            }
            let ghost r2 = reason_views(reasons@);
            proof {
                assert(r2 + Seq::<ReasonModel>::empty() =~= r2);
            }
            let mut j: usize = 0;
            while j < children.len()
                invariant
                    ctx.valid(),
                    has_id(ctx.index@.docs, doc_id as int),
                    m == ctx.index@,
                    o == *ctx.options,
                    l == ctx.limits,
                    d == doc_of(ctx, doc_id),
                    cs == models(children@),
                    j <= children@.len(),
                    reason_views(reasons@) == r2 + exclude_reasons(m, o, l, cs, j as int, d),
                decreases children@.len() - j,
            {
                proof {
                    lemma_child_lists_step(m, o, l, cs, j as int, d);
                    assert(cs[j as int] == children@[j as int].model());
                }
                let ghost before = reason_views(reasons@);
                match &children[j] {
                    QueryOp::Not(inner) => {
                        if !QueryExecutor::document_matches(ctx, inner, doc_id) {
                            let ts = collect_op_terms(inner);
                            reasons.push(MatchReason::not_excluded(ts.as_slice()));
                            proof {
                                assert(reason_views(reasons@) =~= before + seq![not_reason(op_terms(inner.model()))]);
                            }
                        } else {
                            proof {
                                assert(before + Seq::<ReasonModel>::empty() =~= before);
                            }
                        }
                    },
                    _ => {
                        proof {
                            assert(before + Seq::<ReasonModel>::empty() =~= before);
                        }
                    },
                }
                proof {
                    assert(reason_views(reasons@) =~= r2 + exclude_reasons(m, o, l, cs, j + 1, d));
                }
                j += 1;
            }
            proof {
                if cnt > 0 {
                    assert(reason_views(reasons@) =~= r0 + ((seq![and_reason(cnt as nat)] + include_reasons(m, o, l, cs, cs.len() as int, d))
                        + exclude_reasons(m, o, l, cs, cs.len() as int, d)));
                } else {
                    assert(reason_views(reasons@) =~= r0 + (Seq::<ReasonModel>::empty() + exclude_reasons(m, o, l, cs, cs.len() as int, d)));
                }
            }
        },
        QueryOp::Or(children) => {
            let ghost cs = models(children@);
            proof {
                lemma_and_model(*children);
                lemma_child_lists_base(m, o, l, cs, d);
            }
            if QueryExecutor::document_matches(ctx, op, doc_id) {
                reasons.push(MatchReason::or_clause());
                let ghost r1 = reason_views(reasons@);
                proof {
                    assert(r1 =~= r0 + seq![or_reason()]);
                    assert(r1 + Seq::<ReasonModel>::empty() =~= r1);
                }
                let mut j: usize = 0;
                while j < children.len()
                    invariant
                        ctx.valid(),
                        has_id(ctx.index@.docs, doc_id as int),
                        m == ctx.index@,
                        o == *ctx.options,
                        l == ctx.limits,
                        d == doc_of(ctx, doc_id),
                        cs == models(children@),
                        *op == QueryOp::Or(*children),
                        j <= children@.len(),
                        reason_views(reasons@) == r1 + or_reasons(m, o, l, cs, j as int, d),
                    decreases children@.len() - j,
                {
                    proof {
                        lemma_child_lists_step(m, o, l, cs, j as int, d);
                        assert(cs[j as int] == children@[j as int].model());
                        vstd::std_specs::vec::axiom_vec_index_decreases(*children, j as int);
                        assert(decreases_to!(*op => (*op)->Or_0));
                    }
                    let ghost before = reason_views(reasons@);
                    match &children[j] {
                        QueryOp::Not(_) => {
                            proof {
                                assert(before + Seq::<ReasonModel>::empty() =~= before);
                            }
                        },
                        _ => {
                            if QueryExecutor::document_matches(ctx, &children[j], doc_id) {
                                collect_reasons(ctx, &children[j], doc_id, reasons);
                            } else {
                                proof {
                                    assert(before + Seq::<ReasonModel>::empty() =~= before);
                                }
                            }
                        },
                    }
                    proof {
                        assert(reason_views(reasons@) =~= r1 + or_reasons(m, o, l, cs, j + 1, d));
                    }
                    j += 1;
                }
                proof {
                    assert(reason_views(reasons@) =~= r0 + (seq![or_reason()] + or_reasons(m, o, l, cs, cs.len() as int, d)));
                }
            }
        },
    }
}

/// `reasons` keeping only the first reason of each code and message.
fn dedup_reasons(reasons: Vec<MatchReason>) -> (r: Vec<MatchReason>)
    ensures
        reason_views(r@) == dedup_reasons_spec(reason_views(reasons@)),
{
    let ghost rv = reason_views(reasons@);
    let mut src = reasons;
    let mut out: Vec<MatchReason> = Vec::new();
    let n = src.len();
    let mut k: usize = 0;
    // take the reasons from the back so each removal is cheap, then look at them in order
    let mut rev: Vec<MatchReason> = Vec::new();
    while k < n
        invariant
            k <= n,
            n == rv.len(),
            src@.len() == n - k,
            reason_views(src@) == rv.take(n - k),
            rev@.len() == k,
            forall|j: int| 0 <= j < k ==> (#[trigger] rev@[j])@ == rv[n - 1 - j],
        decreases n - k,
    {
        let ghost pre = src@;
        let x = src.pop().unwrap();
        proof {
            assert(pre.len() == n - k);
            assert(x == pre[n - k - 1]);
            assert(reason_views(pre)[n - k - 1] == rv.take(n - k)[n - k - 1]);
            assert(x@ == rv[n - 1 - k]);
            assert(reason_views(src@) =~= rv.take(n - k - 1));
        }
        rev.push(x);
        k += 1;
    }
    let mut i: usize = 0;
    proof {
        assert(rv.take(0) =~= Seq::<ReasonModel>::empty());
    }
    while i < n
        invariant
            i <= n,
            n == rv.len(),
            rev@.len() == n - i,
            forall|j: int| 0 <= j < n - i ==> (#[trigger] rev@[j])@ == rv[n - 1 - j],
            reason_views(out@) == dedup_reasons_spec(rv.take(i as int)),
        decreases n - i,
    {
        let x = rev.pop().unwrap();
        proof {
            assert(x@ == rv[i as int]);
            assert(rv.take(i + 1).drop_last() =~= rv.take(i as int));
            assert(rv.take(i + 1).last() == rv[i as int]);
        }
        let ghost dv = reason_views(out@);
        let mut seen = false;
        let mut j: usize = 0;
        while j < out.len()
            invariant
                j <= out@.len(),
                dv == reason_views(out@),
                seen == exists|t: int| 0 <= t < j && same_key(#[trigger] dv[t], x@),
            decreases out@.len() - j,
        {
            if out[j].code.eq(&x.code) && out[j].message.eq(&x.message) {
                seen = true;
            }
            proof {
                if seen && !(exists|t: int| 0 <= t < j && same_key(#[trigger] dv[t], x@)) {
                    assert(same_key(dv[j as int], x@));
                }
                if exists|t: int| 0 <= t < j + 1 && same_key(#[trigger] dv[t], x@) {
                    let t = choose|t: int| 0 <= t < j + 1 && same_key(#[trigger] dv[t], x@);
                    if t < j {
                        assert(0 <= t < j);
                    }
                }
            }
            j += 1;
        }
        if !seen {
            out.push(x);
            proof {
                assert(reason_views(out@) =~= dv.push(rv[i as int]));
            }
        }
        i += 1;
    }
    proof {
        assert(rv.take(n as int) =~= rv);
    }
    out
}

/// Collect retrieval-level match reasons for a document against a query AST.
pub fn explain_document(ctx: &ExecutorContext, op: &QueryOp, doc_id: usize) -> (r: Vec<MatchReason>)
    requires
        ctx.valid(),
    ensures
        reason_views(r@) == explain_spec(ctx.index@, *ctx.options, ctx.limits, op.model(), doc_id as int),
{
    if !QueryExecutor::document_matches(ctx, op, doc_id) {
        let r: Vec<MatchReason> = Vec::new();
        proof {
            assert(reason_views(r@) =~= Seq::<ReasonModel>::empty());
        }
        return r;
    }
    let mut reasons: Vec<MatchReason> = Vec::new();
    collect_reasons(ctx, op, doc_id, &mut reasons);
    proof {
        assert(reason_views(reasons@) =~= op_reasons(ctx.index@, *ctx.options, ctx.limits, op.model(), doc_of(ctx, doc_id)));
    }
    dedup_reasons(reasons)
}

} // verus!
