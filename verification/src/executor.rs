//! Evaluation of a query operation tree against the index, with boolean semantics.
//!
//! Each operation is evaluated to a mask over the documents (in id order): entry `k`
//! says whether document `k` satisfies the operation.
use vstd::prelude::*;

use crate::engine::SearchOptions;
use crate::fuzzy::{fuzzy_match_candidates, fuzzy_matches_spec, FuzzyCandidate};
use crate::index::{
    doc_count_of, has_id, index_of_id, prefixed_terms, texts_of, DocModel, IndexModel,
    InvertedIndex,
};
use crate::pinyin::{search_detailed_spec, PinyinIndex};
use crate::query::{lemma_and_model, models, ParsedQuery, QueryModel, QueryOp};
use crate::text::{copy_string, push_char, strings_view};
use crate::tokenizer::{token_views, Token};

verus! {

/// Limits applied during query evaluation.
#[derive(Debug, Clone, Copy, PartialEq, Eq, Structural)]
pub struct ExecutorLimits {
    pub max_candidates: usize,
    pub max_fuzzy_terms_scan: usize,
    pub max_fuzzy_results_per_term: usize,
}

impl Default for ExecutorLimits {
    fn default() -> (r: Self)
        ensures
            r == (ExecutorLimits {
                max_candidates: 10_000,
                max_fuzzy_terms_scan: 5_000,
                max_fuzzy_results_per_term: 32,
            }),
    {
        ExecutorLimits { max_candidates: 10_000, max_fuzzy_terms_scan: 5_000, max_fuzzy_results_per_term: 32 }
    }
}

/// Context passed to the query executor.
pub struct ExecutorContext<'a> {
    pub index: &'a InvertedIndex,
    pub pinyin_index: &'a PinyinIndex,
    pub index_generation: u64,
    pub options: &'a SearchOptions,
    pub parsed: &'a ParsedQuery,
    pub query: &'a str,
    pub limits: ExecutorLimits,
}

/// Result of evaluating a query AST against the index.
#[derive(Debug)]
pub struct QueryEvaluation {
    /// Ids of the matching documents, ascending.
    pub candidates: Vec<usize>,
    /// Index terms that fuzzy expansion added, each once.
    pub fuzzy_terms: Vec<String>,
}

/// Evaluates `QueryOp` AST with correct boolean semantics.
pub struct QueryExecutor;

// ==================== semantics ====================

/// Whether document `d` contains `t`.
pub open spec fn doc_has(d: DocModel, t: Seq<char>) -> bool {
    doc_count_of(d, t) > 0
}

/// The index terms that fuzzy expansion scans: the first ones of the dictionary.
pub open spec fn scan_terms(m: IndexModel, l: ExecutorLimits) -> Seq<Seq<char>> {
    let pt = prefixed_terms(m.terms, Seq::empty());
    if l.max_fuzzy_terms_scan <= pt.len() {
        pt.take(l.max_fuzzy_terms_scan as int)
    } else {
        pt
    }
}

/// The index terms that `t` expands to under fuzzy matching with distance `dist`.
pub open spec fn expansion_spec(m: IndexModel, l: ExecutorLimits, t: Seq<char>, dist: int) -> Seq<Seq<char>> {
    fuzzy_matches_spec(t, scan_terms(m, l), dist, l.max_fuzzy_results_per_term as int).map_values(
        |c: (Seq<char>, int)| c.0,
    )
}

/// The edit distance a plain term is matched with.
pub open spec fn term_distance(o: SearchOptions) -> int {
    if o.fuzzy {
        o.max_edit_distance as int
    } else {
        0
    }
}

/// The edit distance of an explicit fuzzy term (at most 3).
pub open spec fn fuzzy_distance_of(n: int) -> int {
    if n < 3 {
        n
    } else {
        3
    }
}

/// Whether `d` matches term `t` at distance `dist`: it contains `t` or one of its expansions.
pub open spec fn term_hit(m: IndexModel, l: ExecutorLimits, d: DocModel, t: Seq<char>, dist: int) -> bool {
    ||| doc_has(d, t)
    ||| (dist > 0 && exists|k: int|
        0 <= k < expansion_spec(m, l, t, dist).len() && doc_has(d, #[trigger] expansion_spec(m, l, t, dist)[k]))
}

/// Whether `p` occurs in `ts` starting at `i`.
pub open spec fn window_at(ts: Seq<Seq<char>>, p: Seq<Seq<char>>, i: int) -> bool {
    0 <= i && i + p.len() <= ts.len() && ts.subrange(i, i + p.len()) == p
}

/// Whether `d` contains the phrase `p`: a single term anywhere, longer phrases as
/// consecutive tokens.
pub open spec fn phrase_hit(d: DocModel, p: Seq<Seq<char>>) -> bool {
    if p.len() < 2 {
        p.len() == 1 && doc_has(d, p[0])
    } else {
        exists|i: int| window_at(texts_of(d.tokens), p, i)
    }
}

/// Whether a child of an AND/OR is a negation.
pub open spec fn is_not(q: QueryModel) -> bool {
    q is Not
}

/// Whether document `d` satisfies operation `q`.
pub open spec fn op_hit(m: IndexModel, o: SearchOptions, l: ExecutorLimits, q: QueryModel, d: DocModel) -> bool
    decreases q,
{
    match q {
        QueryModel::Term(t) => term_hit(m, l, d, t, term_distance(o)),
        QueryModel::Phrase(p) => p.len() > 0 && (forall|k: int| 0 <= k < p.len() ==> doc_has(d, #[trigger] p[k]))
            && phrase_hit(d, p),
        QueryModel::Fuzzy(t, n) => term_hit(m, l, d, t, fuzzy_distance_of(n)),
        QueryModel::Prefix(p) => exists|k: int|
            0 <= k < prefixed_terms(m.terms, p).len() && doc_has(d, #[trigger] prefixed_terms(m.terms, p)[k]),
        QueryModel::CharMatch(cs) => cs.len() > 0 && forall|k: int| 0 <= k < cs.len() ==> doc_has(d, seq![#[trigger] cs[k]]),
        QueryModel::And(cs) => (exists|k: int| 0 <= k < cs.len() && !is_not(#[trigger] cs[k])) && forall|k: int|
            0 <= k < cs.len() ==> match #[trigger] cs[k] {
                QueryModel::Not(inner) => !op_hit(m, o, l, *inner, d),
                _ => op_hit(m, o, l, cs[k], d),
            },
        QueryModel::Or(cs) => exists|k: int| 0 <= k < cs.len() && !is_not(#[trigger] cs[k]) && op_hit(m, o, l, cs[k], d),
        QueryModel::Not(_) => false,
    }
}

/// The expansions fuzzy matching adds while `q` is evaluated, in evaluation order.
pub open spec fn op_fuzzy_terms(m: IndexModel, o: SearchOptions, l: ExecutorLimits, q: QueryModel) -> Seq<Seq<char>>
    decreases q, 1int,
{
    match q {
        QueryModel::Term(t) => if term_distance(o) > 0 {
            expansion_spec(m, l, t, term_distance(o))
        } else {
            Seq::empty()
        },
        QueryModel::Fuzzy(t, n) => if fuzzy_distance_of(n) > 0 {
            expansion_spec(m, l, t, fuzzy_distance_of(n))
        } else {
            Seq::empty()
        },
        QueryModel::And(cs) => list_fuzzy_terms(m, o, l, cs, cs.len() as int, true),
        QueryModel::Or(cs) => list_fuzzy_terms(m, o, l, cs, cs.len() as int, false),
        _ => Seq::empty(),
    }
}

/// The expansions that evaluating the first `n` children `cs` of an AND (`in_and`) or an
/// OR adds: a negated child's operand is evaluated under AND and skipped under OR.
pub open spec fn list_fuzzy_terms(
    m: IndexModel,
    o: SearchOptions,
    l: ExecutorLimits,
    cs: Seq<QueryModel>,
    n: int,
    in_and: bool,
) -> Seq<Seq<char>>
    decreases cs, n,
{
    if n <= 0 || n > cs.len() {
        Seq::empty()
    } else {
        let c = cs[n - 1];
        proof {
            assert(decreases_to!(cs => cs[n - 1]));
        }
        list_fuzzy_terms(m, o, l, cs, n - 1, in_and) + match c {
            QueryModel::Not(inner) => if in_and {
                op_fuzzy_terms(m, o, l, *inner)
            } else {
                Seq::empty()
            },
            _ => op_fuzzy_terms(m, o, l, c),
        }
    }
}

/// The ids of the documents of `docs` that satisfy `p`, in order.
pub open spec fn selected_ids(docs: Seq<DocModel>, p: spec_fn(DocModel) -> bool) -> Seq<int>
    decreases docs.len(),
{
    if docs.len() == 0 {
        Seq::empty()
    } else {
        let r = selected_ids(docs.drop_last(), p);
        if p(docs.last()) {
            r.push(docs.last().id)
        } else {
            r
        }
    }
}

/// At most `n` of the elements of `s`, from the front.
pub open spec fn first_n(s: Seq<int>, n: int) -> Seq<int> {
    if n <= s.len() {
        s.take(n)
    } else {
        s
    }
}

/// Whether `d` holds a Chinese term that the pinyin query `q` stands for.
pub open spec fn pinyin_hit(pm: crate::pinyin::PinyinIndexModel, q: Seq<char>, d: DocModel) -> bool {
    exists|k: int|
        0 <= k < search_detailed_spec(pm, q).len() && doc_has(d, (#[trigger] search_detailed_spec(pm, q)[k]).0)
}

// ==================== masks ====================

pub(crate) fn filled(n: usize, v: bool) -> (r: Vec<bool>)
    ensures
        r@.len() == n,
        forall|k: int| 0 <= k < n ==> #[trigger] r@[k] == v,
{
    let mut r: Vec<bool> = Vec::new();
    let mut i: usize = 0;
    while i < n
        invariant
            i <= n,
            r@.len() == i,
            forall|k: int| 0 <= k < i ==> #[trigger] r@[k] == v,
        decreases n - i,
    {
        r.push(v);
        i += 1;
    }
    r
}

pub(crate) fn or_into(acc: &mut Vec<bool>, b: &Vec<bool>)
    requires
        old(acc)@.len() == b@.len(),
    ensures
        final(acc)@.len() == b@.len(),
        forall|k: int| 0 <= k < b@.len() ==> #[trigger] final(acc)@[k] == (old(acc)@[k] || b@[k]),
{
    let mut i: usize = 0;
    while i < b.len()
        invariant
            i <= b@.len(),
            acc@.len() == b@.len(),
            old(acc)@.len() == b@.len(),
            forall|k: int| 0 <= k < i ==> #[trigger] acc@[k] == (old(acc)@[k] || b@[k]),
            forall|k: int| i <= k < b@.len() ==> #[trigger] acc@[k] == old(acc)@[k],
        decreases b@.len() - i,
    {
        let v = acc[i] || b[i];
        acc.set(i, v);
        i += 1;
    }
}

fn and_into(acc: &mut Vec<bool>, b: &Vec<bool>, negate: bool)
    requires
        old(acc)@.len() == b@.len(),
    ensures
        final(acc)@.len() == b@.len(),
        forall|k: int| 0 <= k < b@.len() ==> #[trigger] final(acc)@[k] == (old(acc)@[k] && (b@[k] != negate)),
{
    let mut i: usize = 0;
    while i < b.len()
        invariant
            i <= b@.len(),
            acc@.len() == b@.len(),
            old(acc)@.len() == b@.len(),
            forall|k: int| 0 <= k < i ==> #[trigger] acc@[k] == (old(acc)@[k] && (b@[k] != negate)),
            forall|k: int| i <= k < b@.len() ==> #[trigger] acc@[k] == old(acc)@[k],
        decreases b@.len() - i,
    {
        let v = acc[i] && (b[i] != negate);
        acc.set(i, v);
        i += 1;
    }
}

/// Appends the strings of `src` to `dst`.
pub(crate) fn extend_strings(dst: &mut Vec<String>, src: &Vec<String>)
    ensures
        strings_view(final(dst)@) == strings_view(old(dst)@) + strings_view(src@),
{
    let mut i: usize = 0;
    while i < src.len()
        invariant
            i <= src@.len(),
            strings_view(dst@) == strings_view(old(dst)@) + strings_view(src@).take(i as int),
        decreases src@.len() - i,
    {
        let ghost before = dst@;
        dst.push(copy_string(&src[i]));
        proof {
            assert(strings_view(dst@) =~= strings_view(before).push(src@[i as int]@));
            assert(strings_view(src@).take(i + 1) =~= strings_view(src@).take(i as int).push(src@[i as int]@));
        }
        i += 1;
    }
    proof {
        assert(strings_view(src@).take(src@.len() as int) =~= strings_view(src@));
    }
}

// ==================== evaluation ====================

/// Whether the tokens `ts` hold `phrase` starting at `i`.
fn window_matches(ts: &Vec<Token>, phrase: &Vec<String>, i: usize) -> (r: bool)
    requires
        i + phrase@.len() <= ts@.len(),
    ensures
        r == window_at(texts_of(token_views(ts@)), strings_view(phrase@), i as int),
{
    let ghost tt = texts_of(token_views(ts@));
    let ghost p = strings_view(phrase@);
    let n = ts.len();
    let mut j: usize = 0;
    while j < phrase.len()
        invariant
            n == ts@.len(),
            i + phrase@.len() <= ts@.len(),
            j <= phrase@.len(),
            tt == texts_of(token_views(ts@)),
            p == strings_view(phrase@),
            forall|k: int| 0 <= k < j ==> tt[i + k] == p[k],
        decreases phrase@.len() - j,
    {
        if !ts[i + j].text.eq(&phrase[j]) {
            proof {
                assert(tt.subrange(i as int, i + p.len())[j as int] != p[j as int]);
            }
            return false;
        }
        j += 1;
    }
    proof {
        assert(tt.subrange(i as int, i + p.len()) =~= p);
    }
    true
}

/// Whether the tokens `ts` hold `phrase` (of at least two terms) consecutively.
fn tokens_contain_phrase(ts: &Vec<Token>, phrase: &Vec<String>) -> (r: bool)
    requires
        phrase@.len() > 0,
    ensures
        r == exists|i: int| window_at(texts_of(token_views(ts@)), strings_view(phrase@), i),
{
    let ghost tt = texts_of(token_views(ts@));
    let ghost p = strings_view(phrase@);
    if phrase.len() > ts.len() {
        return false;
    }
    let n = ts.len();
    let last = n - phrase.len();
    let mut i: usize = 0;
    while i <= last
        invariant
            n == ts@.len(),
            phrase@.len() > 0,
            last == ts@.len() - phrase@.len(),
            i <= last + 1,
            tt == texts_of(token_views(ts@)),
            p == strings_view(phrase@),
            forall|k: int| 0 <= k < i ==> !window_at(tt, p, k),
        decreases last + 1 - i,
    {
        if window_matches(ts, phrase, i) {
            return true;
        }
        i += 1;
    }
    false
}

/// The string of one character.
pub(crate) fn char_string(c: char) -> (s: String)
    ensures
        s@ == seq![c],
{
    let mut s = String::new();
    push_char(&mut s, c);
    proof {
        assert(s@ =~= seq![c]);
    }
    s
}

impl<'a> ExecutorContext<'a> {
    /// The context is usable: its index is well formed.
    pub open spec fn valid(&self) -> bool {
        self.index.wf()
    }
}

/// The index terms that `term` expands to under fuzzy matching with distance `max_distance`.
pub fn fuzzy_expansion(ctx: &ExecutorContext, term: &str, max_distance: usize) -> (r: Vec<String>)
    requires
        ctx.valid(),
    ensures
        strings_view(r@) == expansion_spec(ctx.index@, ctx.limits, term@, max_distance as int),
{
    proof {
        reveal_strlit("");
    }
    let all_terms = ctx.index.terms_with_prefix_limited("", ctx.limits.max_fuzzy_terms_scan);
    proof {
        assert(""@ =~= Seq::<char>::empty());
    }
    let matches = fuzzy_match_candidates(
        term,
        all_terms.as_slice(),
        max_distance,
        ctx.limits.max_fuzzy_results_per_term,
    );
    let ghost spec_matches = fuzzy_matches_spec(term@, scan_terms(ctx.index@, ctx.limits), max_distance as int, ctx.limits.max_fuzzy_results_per_term as int);
    let mut r: Vec<String> = Vec::new();
    let mut i: usize = 0;
    while i < matches.len()
        invariant
            i <= matches@.len(),
            crate::fuzzy::candidate_views(matches@) == spec_matches,
            strings_view(r@) == spec_matches.map_values(|c: (Seq<char>, int)| c.0).take(i as int),
        decreases matches@.len() - i,
    {
        let ghost before = r@;
        r.push(copy_string(&matches[i].term));
        proof {
            assert(spec_matches[i as int].0 == matches@[i as int].term@);
            assert(strings_view(r@) =~= strings_view(before).push(matches@[i as int].term@));
            assert(strings_view(r@) =~= spec_matches.map_values(|c: (Seq<char>, int)| c.0).take(i + 1));
        }
        i += 1;
    }
    proof {
        let all = spec_matches.map_values(|c: (Seq<char>, int)| c.0);
        assert(all.take(all.len() as int) =~= all);
    }
    r
}

/// For each document, whether it matches `term` at distance `dist`; the expansions used are
/// appended to `fz`.
fn term_mask(ctx: &ExecutorContext, term: &str, dist: usize, fz: &mut Vec<String>) -> (mask: Vec<bool>)
    requires
        ctx.valid(),
    ensures
        mask@.len() == ctx.index@.docs.len(),
        forall|k: int|
            0 <= k < mask@.len() ==> #[trigger] mask@[k] == term_hit(
                ctx.index@,
                ctx.limits,
                ctx.index@.docs[k],
                term@,
                dist as int,
            ),
        strings_view(final(fz)@) == strings_view(old(fz)@) + if dist > 0 {
            expansion_spec(ctx.index@, ctx.limits, term@, dist as int)
        } else {
            Seq::<Seq<char>>::empty()
        },
{
    let ghost m = ctx.index@;
    let mut mask = ctx.index.term_presence(term);
    if dist > 0 {
        let exp = fuzzy_expansion(ctx, term, dist);
        let ghost es = expansion_spec(m, ctx.limits, term@, dist as int);
        let mut i: usize = 0;
        while i < exp.len()
            invariant
                ctx.valid(),
                m == ctx.index@,
                i <= exp@.len(),
                strings_view(exp@) == es,
                mask@.len() == m.docs.len(),
                forall|k: int|
                    0 <= k < mask@.len() ==> #[trigger] mask@[k] == (doc_has(m.docs[k], term@) || exists|j: int|
                        0 <= j < i && doc_has(m.docs[k], #[trigger] es[j])),
            decreases exp@.len() - i,
        {
            let pm = ctx.index.term_presence(exp[i].as_str());
            let ghost before = mask@;
            or_into(&mut mask, &pm);
            proof {
                assert(es[i as int] == exp@[i as int]@);
                assert forall|k: int| 0 <= k < mask@.len() implies #[trigger] mask@[k] == (doc_has(m.docs[k], term@) || exists|j: int|
                    0 <= j < i + 1 && doc_has(m.docs[k], #[trigger] es[j])) by {
                    if mask@[k] && !doc_has(m.docs[k], term@) {
                        if !pm@[k] {
                            let j = choose|j: int| 0 <= j < i && doc_has(m.docs[k], #[trigger] es[j]);
                            assert(0 <= j < i + 1 && doc_has(m.docs[k], es[j]));
                        } else {
                            assert(doc_has(m.docs[k], es[i as int]));
                        }
                    }
                    if exists|j: int| 0 <= j < i + 1 && doc_has(m.docs[k], #[trigger] es[j]) {
                        let j = choose|j: int| 0 <= j < i + 1 && doc_has(m.docs[k], #[trigger] es[j]);
                        if j < i {
                            assert(before[k]);
                        } else {
                            assert(pm@[k]);
                        }
                    }
                }
            }
            i += 1;
        }
        extend_strings(fz, &exp);
    } else {
        proof {
            assert(strings_view(fz@) + Seq::<Seq<char>>::empty() =~= strings_view(fz@));
        }
    }
    mask
}

/// For each document, whether it matches the phrase `terms`.
fn phrase_mask(ctx: &ExecutorContext, terms: &Vec<String>) -> (mask: Vec<bool>)
    requires
        ctx.valid(),
    ensures
        mask@.len() == ctx.index@.docs.len(),
        forall|k: int|
            0 <= k < mask@.len() ==> #[trigger] mask@[k] == op_hit(
                ctx.index@,
                *ctx.options,
                ctx.limits,
                QueryModel::Phrase(strings_view(terms@)),
                ctx.index@.docs[k],
            ),
{
    let ghost m = ctx.index@;
    let ghost p = strings_view(terms@);
    let n = ctx.index.doc_count();
    if terms.len() == 0 {
        return filled(n, false);
    }
    let mut mask = filled(n, true);
    let mut i: usize = 0;
    while i < terms.len()
        invariant
            ctx.valid(),
            m == ctx.index@,
            n == m.docs.len(),
            i <= terms@.len(),
            p == strings_view(terms@),
            mask@.len() == n,
            forall|k: int|
                0 <= k < n ==> #[trigger] mask@[k] == forall|j: int| 0 <= j < i ==> doc_has(m.docs[k], #[trigger] p[j]),
        decreases terms@.len() - i,
    {
        let pm = ctx.index.term_presence(terms[i].as_str());
        let ghost before = mask@;
        and_into(&mut mask, &pm, false);
        proof {
            assert(p[i as int] == terms@[i as int]@);
            assert forall|k: int| 0 <= k < n implies #[trigger] mask@[k] == forall|j: int|
                0 <= j < i + 1 ==> doc_has(m.docs[k], #[trigger] p[j]) by {
                if mask@[k] {
                    assert forall|j: int| 0 <= j < i + 1 implies doc_has(m.docs[k], #[trigger] p[j]) by {
                        if j < i {
                            assert(before[k]);
                        }
                    }
                }
                if forall|j: int| 0 <= j < i + 1 ==> doc_has(m.docs[k], #[trigger] p[j]) {
                    assert(doc_has(m.docs[k], p[i as int]));
                    assert forall|j: int| 0 <= j < i implies doc_has(m.docs[k], #[trigger] p[j]) by {
                        assert(0 <= j < i + 1);
                    }
                }
            }
        }
        i += 1;
    }
    if terms.len() >= 2 {
        let mut k: usize = 0;
        while k < n
            invariant
                ctx.valid(),
                m == ctx.index@,
                n == m.docs.len(),
                p == strings_view(terms@),
                p.len() >= 2,
                k <= n,
                mask@.len() == n,
                forall|x: int|
                    0 <= x < k ==> #[trigger] mask@[x] == ((forall|j: int| 0 <= j < p.len() ==> doc_has(m.docs[x], #[trigger] p[j])) && phrase_hit(m.docs[x], p)),
                forall|x: int|
                    k <= x < n ==> #[trigger] mask@[x] == forall|j: int| 0 <= j < p.len() ==> doc_has(m.docs[x], #[trigger] p[j]),
            decreases n - k,
        {
            if mask[k] {
                let ts = ctx.index.tokens_at(k);
                let hit = tokens_contain_phrase(ts, terms);
                mask.set(k, hit);
            }
            k += 1;
        }
    }
    mask
}

/// For each document, whether it holds a dictionary term that starts with `prefix`.
fn prefix_mask(ctx: &ExecutorContext, prefix: &str) -> (mask: Vec<bool>)
    requires
        ctx.valid(),
    ensures
        mask@.len() == ctx.index@.docs.len(),
        forall|k: int|
            0 <= k < mask@.len() ==> #[trigger] mask@[k] == op_hit(
                ctx.index@,
                *ctx.options,
                ctx.limits,
                QueryModel::Prefix(prefix@),
                ctx.index@.docs[k],
            ),
{
    let ghost m = ctx.index@;
    let pt = ctx.index.terms_with_prefix(prefix);
    let ghost ps = prefixed_terms(m.terms, prefix@);
    let n = ctx.index.doc_count();
    let mut mask = filled(n, false);
    let mut i: usize = 0;
    while i < pt.len()
        invariant
            ctx.valid(),
            m == ctx.index@,
            n == m.docs.len(),
            i <= pt@.len(),
            strings_view(pt@) == ps,
            mask@.len() == n,
            forall|k: int|
                0 <= k < n ==> #[trigger] mask@[k] == exists|j: int| 0 <= j < i && doc_has(m.docs[k], #[trigger] ps[j]),
        decreases pt@.len() - i,
    {
        let pm = ctx.index.term_presence(pt[i].as_str());
        let ghost before = mask@;
        or_into(&mut mask, &pm);
        proof {
            assert(ps[i as int] == pt@[i as int]@);
            assert forall|k: int| 0 <= k < n implies #[trigger] mask@[k] == exists|j: int|
                0 <= j < i + 1 && doc_has(m.docs[k], #[trigger] ps[j]) by {
                if mask@[k] {
                    if pm@[k] {
                        assert(doc_has(m.docs[k], ps[i as int]));
                    } else {
                        let j = choose|j: int| 0 <= j < i && doc_has(m.docs[k], #[trigger] ps[j]);
                        assert(0 <= j < i + 1 && doc_has(m.docs[k], ps[j]));
                    }
                }
                if exists|j: int| 0 <= j < i + 1 && doc_has(m.docs[k], #[trigger] ps[j]) {
                    let j = choose|j: int| 0 <= j < i + 1 && doc_has(m.docs[k], #[trigger] ps[j]);
                    if j < i {
                        assert(before[k]);
                    } else {
                        assert(pm@[k]);
                    }
                }
            }
        }
        i += 1;
    }
    proof {
        assert(ps.len() == pt@.len());
        assert forall|k: int| 0 <= k < n implies #[trigger] mask@[k] == op_hit(
            m,
            *ctx.options,
            ctx.limits,
            QueryModel::Prefix(prefix@),
            m.docs[k],
        ) by {
            lemma_prefix_hit(m, *ctx.options, ctx.limits, prefix@, m.docs[k]);
        }
    }
    mask
}

/// For each document, whether it holds every character of `cs` as a term.
fn char_mask(ctx: &ExecutorContext, cs: &Vec<char>) -> (mask: Vec<bool>)
    requires
        ctx.valid(),
    ensures
        mask@.len() == ctx.index@.docs.len(),
        forall|k: int|
            0 <= k < mask@.len() ==> #[trigger] mask@[k] == op_hit(
                ctx.index@,
                *ctx.options,
                ctx.limits,
                QueryModel::CharMatch(cs@),
                ctx.index@.docs[k],
            ),
{
    let ghost m = ctx.index@;
    let n = ctx.index.doc_count();
    if cs.len() == 0 {
        return filled(n, false);
    }
    let mut mask = filled(n, true);
    let mut i: usize = 0;
    while i < cs.len()
        invariant
            ctx.valid(),
            m == ctx.index@,
            n == m.docs.len(),
            i <= cs@.len(),
            mask@.len() == n,
            forall|k: int|
                0 <= k < n ==> #[trigger] mask@[k] == forall|j: int| 0 <= j < i ==> doc_has(m.docs[k], seq![#[trigger] cs@[j]]),
        decreases cs@.len() - i,
    {
        let t = char_string(cs[i]);
        let pm = ctx.index.term_presence(t.as_str());
        let ghost before = mask@;
        and_into(&mut mask, &pm, false);
        proof {
            assert forall|k: int| 0 <= k < n implies #[trigger] mask@[k] == forall|j: int|
                0 <= j < i + 1 ==> doc_has(m.docs[k], seq![#[trigger] cs@[j]]) by {
                if mask@[k] {
                    assert forall|j: int| 0 <= j < i + 1 implies doc_has(m.docs[k], seq![#[trigger] cs@[j]]) by {
                        if j < i {
                            assert(before[k]);
                        }
                    }
                }
                if forall|j: int| 0 <= j < i + 1 ==> doc_has(m.docs[k], seq![#[trigger] cs@[j]]) {
                    assert(doc_has(m.docs[k], seq![cs@[i as int]]));
                    assert forall|j: int| 0 <= j < i implies doc_has(m.docs[k], seq![#[trigger] cs@[j]]) by {
                        assert(0 <= j < i + 1);
                    }
                }
            }
        }
        i += 1;
    }
    proof {
        assert forall|k: int| 0 <= k < n implies #[trigger] mask@[k] == op_hit(
            m,
            *ctx.options,
            ctx.limits,
            QueryModel::CharMatch(cs@),
            m.docs[k],
        ) by {
            if op_hit(m, *ctx.options, ctx.limits, QueryModel::CharMatch(cs@), m.docs[k]) {
                assert forall|j: int| 0 <= j < cs@.len() implies doc_has(m.docs[k], seq![#[trigger] cs@[j]]) by {}
            }
        }
    }
    mask
}

proof fn lemma_prefix_hit(m: IndexModel, o: SearchOptions, l: ExecutorLimits, p: Seq<char>, d: DocModel)
    ensures
        op_hit(m, o, l, QueryModel::Prefix(p), d) == exists|j: int|
            0 <= j < prefixed_terms(m.terms, p).len() && doc_has(d, #[trigger] prefixed_terms(m.terms, p)[j]),
{
}

/// Whether `d` passes child `c` of an AND: it matches a positive child and misses the
/// operand of a negated one.
pub open spec fn and_ok(m: IndexModel, o: SearchOptions, l: ExecutorLimits, c: QueryModel, d: DocModel) -> bool {
    match c {
        QueryModel::Not(inner) => !op_hit(m, o, l, *inner, d),
        _ => op_hit(m, o, l, c, d),
    }
}

/// Whether `d` passes child `c` of an OR: a positive child that it matches.
pub open spec fn or_ok(m: IndexModel, o: SearchOptions, l: ExecutorLimits, c: QueryModel, d: DocModel) -> bool {
    !is_not(c) && op_hit(m, o, l, c, d)
}

proof fn lemma_leaf_ops(m: IndexModel, o: SearchOptions, l: ExecutorLimits, q: QueryModel, d: DocModel)
    ensures
        q matches QueryModel::Term(t) ==> op_hit(m, o, l, q, d) == term_hit(m, l, d, t, term_distance(o))
            && op_fuzzy_terms(m, o, l, q) == (if term_distance(o) > 0 {
            expansion_spec(m, l, t, term_distance(o))
        } else {
            Seq::<Seq<char>>::empty()
        }),
        q matches QueryModel::Fuzzy(t, n) ==> op_hit(m, o, l, q, d) == term_hit(m, l, d, t, fuzzy_distance_of(n))
            && op_fuzzy_terms(m, o, l, q) == (if fuzzy_distance_of(n) > 0 {
            expansion_spec(m, l, t, fuzzy_distance_of(n))
        } else {
            Seq::<Seq<char>>::empty()
        }),
        q is Phrase || q is Prefix || q is CharMatch || q is Not ==> op_fuzzy_terms(m, o, l, q) == Seq::<Seq<char>>::empty(),
        q is Not ==> !op_hit(m, o, l, q, d),
{
}

proof fn lemma_and_op(m: IndexModel, o: SearchOptions, l: ExecutorLimits, cs: Seq<QueryModel>, d: DocModel)
    ensures
        op_hit(m, o, l, QueryModel::And(cs), d) == ((exists|k: int| 0 <= k < cs.len() && !is_not(#[trigger] cs[k]))
            && forall|k: int| 0 <= k < cs.len() ==> and_ok(m, o, l, #[trigger] cs[k], d)),
        op_fuzzy_terms(m, o, l, QueryModel::And(cs)) == list_fuzzy_terms(m, o, l, cs, cs.len() as int, true),
{
}

proof fn lemma_or_op(m: IndexModel, o: SearchOptions, l: ExecutorLimits, cs: Seq<QueryModel>, d: DocModel)
    ensures
        op_hit(m, o, l, QueryModel::Or(cs), d) == exists|k: int| 0 <= k < cs.len() && or_ok(m, o, l, #[trigger] cs[k], d),
        op_fuzzy_terms(m, o, l, QueryModel::Or(cs)) == list_fuzzy_terms(m, o, l, cs, cs.len() as int, false),
{
}

proof fn lemma_list_fuzzy_step(m: IndexModel, o: SearchOptions, l: ExecutorLimits, cs: Seq<QueryModel>, n: int, in_and: bool)
    requires
        0 <= n < cs.len(),
    ensures
        list_fuzzy_terms(m, o, l, cs, n + 1, in_and) == list_fuzzy_terms(m, o, l, cs, n, in_and) + match cs[n] {
            QueryModel::Not(inner) => if in_and {
                op_fuzzy_terms(m, o, l, *inner)
            } else {
                Seq::<Seq<char>>::empty()
            },
            _ => op_fuzzy_terms(m, o, l, cs[n]),
        },
{
}

proof fn lemma_list_fuzzy_base(m: IndexModel, o: SearchOptions, l: ExecutorLimits, cs: Seq<QueryModel>, in_and: bool)
    ensures
        list_fuzzy_terms(m, o, l, cs, 0, in_and) == Seq::<Seq<char>>::empty(),
{
}

/// For each document, whether it satisfies `op`; the fuzzy expansions used are appended
/// to `fz`.
fn eval_op(ctx: &ExecutorContext, op: &QueryOp, fz: &mut Vec<String>) -> (mask: Vec<bool>)
    requires
        ctx.valid(),
    ensures
        mask@.len() == ctx.index@.docs.len(),
        forall|k: int|
            0 <= k < mask@.len() ==> #[trigger] mask@[k] == op_hit(
                ctx.index@,
                *ctx.options,
                ctx.limits,
                op.model(),
                ctx.index@.docs[k],
            ),
        strings_view(final(fz)@) == strings_view(old(fz)@) + op_fuzzy_terms(
            ctx.index@,
            *ctx.options,
            ctx.limits,
            op.model(),
        ),
    decreases op,
{
    let ghost m = ctx.index@;
    let ghost o = *ctx.options;
    let ghost l = ctx.limits;
    let ghost fz0 = fz@;
    let n = ctx.index.doc_count();
    proof {
        assert(strings_view(fz0) + Seq::<Seq<char>>::empty() =~= strings_view(fz0));
    }
    match op {
        QueryOp::Term(t) => {
            let dist = if ctx.options.fuzzy { ctx.options.max_edit_distance } else { 0 };
            let mask = term_mask(ctx, t.as_str(), dist, fz);
            proof {
                assert forall|k: int| 0 <= k < n implies #[trigger] mask@[k] == op_hit(m, o, l, op.model(), m.docs[k]) by {
                    lemma_leaf_ops(m, o, l, op.model(), m.docs[k]);
                }
                lemma_leaf_ops(m, o, l, op.model(), m.docs[0]);
            }
            mask
        },
        QueryOp::Fuzzy(t, d) => {
            let dist = if *d < 3 { *d } else { 3 };
            let mask = term_mask(ctx, t.as_str(), dist, fz);
            proof {
                assert forall|k: int| 0 <= k < n implies #[trigger] mask@[k] == op_hit(m, o, l, op.model(), m.docs[k]) by {
                    lemma_leaf_ops(m, o, l, op.model(), m.docs[k]);
                }
                lemma_leaf_ops(m, o, l, op.model(), m.docs[0]);
            }
            mask
        },
        QueryOp::Phrase(ts) => {
            proof {
                lemma_leaf_ops(m, o, l, op.model(), m.docs[0]);
            }
            phrase_mask(ctx, ts)
        },
        QueryOp::Prefix(p) => {
            proof {
                lemma_leaf_ops(m, o, l, op.model(), m.docs[0]);
            }
            prefix_mask(ctx, p.as_str())
        },
        QueryOp::CharMatch(cs) => {
            proof {
                lemma_leaf_ops(m, o, l, op.model(), m.docs[0]);
            }
            char_mask(ctx, cs)
        },
        QueryOp::Not(_) => {
            proof {
                lemma_leaf_ops(m, o, l, op.model(), m.docs[0]);
                assert forall|k: int| 0 <= k < n implies !op_hit(m, o, l, op.model(), m.docs[k]) by {
                    lemma_leaf_ops(m, o, l, op.model(), m.docs[k]);
                }
            }
            filled(n, false)
        },
        QueryOp::And(children) => {
            let ghost cs = models(children@);
            proof {
                lemma_and_model(*children);
            }
            let mut mask = filled(n, true);
            let mut has_inc = false;
            proof {
                lemma_list_fuzzy_base(m, o, l, cs, true);
                lemma_list_fuzzy_base(m, o, l, cs, false);
            }
            let mut j: usize = 0;
            while j < children.len()
                invariant
                    ctx.valid(),
                    m == ctx.index@,
                    o == *ctx.options,
                    l == ctx.limits,
                    n == m.docs.len(),
                    cs == models(children@),
                    *op == QueryOp::And(*children),
                    j <= children@.len(),
                    mask@.len() == n,
                    has_inc == exists|c: int| 0 <= c < j && !is_not(#[trigger] cs[c]),
                    forall|k: int|
                        0 <= k < n ==> #[trigger] mask@[k] == forall|c: int|
                            0 <= c < j ==> and_ok(m, o, l, #[trigger] cs[c], m.docs[k]),
                    strings_view(fz@) == strings_view(fz0) + list_fuzzy_terms(m, o, l, cs, j as int, true),
                decreases children@.len() - j,
            {
                let ghost before = mask@;
                let ghost cj = cs[j as int];
                proof {
                    assert(cj == children@[j as int].model());
                }
                proof {
                    vstd::std_specs::vec::axiom_vec_index_decreases(*children, j as int);
                    assert(decreases_to!(*op => (*op)->And_0));
                }
                match &children[j] {
                    QueryOp::Not(inner) => {
                        proof {
                            assert(decreases_to!(children[j as int] => **inner));
                        }
                        let ex = eval_op(ctx, inner, fz);
                        and_into(&mut mask, &ex, true);
                    },
                    _ => {
                        let inc = eval_op(ctx, &children[j], fz);
                        and_into(&mut mask, &inc, false);
                        has_inc = true;
                    },
                }
                proof {
                    lemma_list_fuzzy_step(m, o, l, cs, j as int, true);
                    assert forall|k: int| 0 <= k < n implies #[trigger] mask@[k] == forall|c: int|
                        0 <= c < j + 1 ==> and_ok(m, o, l, #[trigger] cs[c], m.docs[k]) by {
                        if mask@[k] {
                            assert forall|c: int| 0 <= c < j + 1 implies and_ok(m, o, l, #[trigger] cs[c], m.docs[k]) by {
                                if c < j {
                                    assert(before[k]);
                                }
                            }
                        }
                        if forall|c: int| 0 <= c < j + 1 ==> and_ok(m, o, l, #[trigger] cs[c], m.docs[k]) {
                            assert(and_ok(m, o, l, cs[j as int], m.docs[k]));
                            assert forall|c: int| 0 <= c < j implies and_ok(m, o, l, #[trigger] cs[c], m.docs[k]) by {
                                assert(0 <= c < j + 1);
                            }
                        }
                    }
                }
                j += 1;
            }
            if !has_inc {
                mask = filled(n, false);
            }
            proof {
                assert forall|k: int| 0 <= k < n implies #[trigger] mask@[k] == op_hit(m, o, l, op.model(), m.docs[k]) by {
                    lemma_and_op(m, o, l, cs, m.docs[k]);
                }
                lemma_and_op(m, o, l, cs, m.docs[0]);
            }
            mask
        },
        QueryOp::Or(children) => {
            let ghost cs = models(children@);
            proof {
                lemma_and_model(*children);
            }
            let mut mask = filled(n, false);
            proof {
                lemma_list_fuzzy_base(m, o, l, cs, true);
                lemma_list_fuzzy_base(m, o, l, cs, false);
            }
            let mut j: usize = 0;
            while j < children.len()
                invariant
                    ctx.valid(),
                    m == ctx.index@,
                    o == *ctx.options,
                    l == ctx.limits,
                    n == m.docs.len(),
                    cs == models(children@),
                    *op == QueryOp::Or(*children),
                    j <= children@.len(),
                    mask@.len() == n,
                    forall|k: int|
                        0 <= k < n ==> #[trigger] mask@[k] == exists|c: int|
                            0 <= c < j && or_ok(m, o, l, #[trigger] cs[c], m.docs[k]),
                    strings_view(fz@) == strings_view(fz0) + list_fuzzy_terms(m, o, l, cs, j as int, false),
                decreases children@.len() - j,
            {
                let ghost before = mask@;
                let ghost cj = cs[j as int];
                proof {
                    assert(cj == children@[j as int].model());
                }
                proof {
                    vstd::std_specs::vec::axiom_vec_index_decreases(*children, j as int);
                    assert(decreases_to!(*op => (*op)->Or_0));
                }
                match &children[j] {
                    QueryOp::Not(_) => {
                        proof {
                            assert(is_not(cj));
                            assert(strings_view(fz@) + Seq::<Seq<char>>::empty() =~= strings_view(fz@));
                        }
                    },
                    _ => {
                        let inc = eval_op(ctx, &children[j], fz);
                        or_into(&mut mask, &inc);
                    },
                }
                proof {
                    lemma_list_fuzzy_step(m, o, l, cs, j as int, false);
                    assert forall|k: int| 0 <= k < n implies #[trigger] mask@[k] == exists|c: int|
                        0 <= c < j + 1 && or_ok(m, o, l, #[trigger] cs[c], m.docs[k]) by {
                        if mask@[k] {
                            if before[k] {
                                let c = choose|c: int| 0 <= c < j && or_ok(m, o, l, #[trigger] cs[c], m.docs[k]);
                                assert(0 <= c < j + 1);
                            } else {
                                assert(or_ok(m, o, l, cs[j as int], m.docs[k]));
                            }
                        }
                        if exists|c: int| 0 <= c < j + 1 && or_ok(m, o, l, #[trigger] cs[c], m.docs[k]) {
                            let c = choose|c: int| 0 <= c < j + 1 && or_ok(m, o, l, #[trigger] cs[c], m.docs[k]);
                            if c < j {
                                assert(before[k]);
                            }
                        }
                    }
                }
                j += 1;
            }
            proof {
                assert forall|k: int| 0 <= k < n implies #[trigger] mask@[k] == op_hit(m, o, l, op.model(), m.docs[k]) by {
                    lemma_or_op(m, o, l, cs, m.docs[k]);
                }
                lemma_or_op(m, o, l, cs, m.docs[0]);
            }
            mask
        },
    }
}

/// The integer values of a list of ids.
pub open spec fn ids_view(v: Seq<usize>) -> Seq<int> {
    v.map_values(|x: usize| x as int)
}

/// The ids of the documents whose mask entry is set, at most `max` of them, in order.
pub(crate) fn mask_ids(index: &InvertedIndex, mask: &Vec<bool>, max: usize, Ghost(p): Ghost<spec_fn(DocModel) -> bool>) -> (r: Vec<usize>)
    requires
        index.wf(),
        mask@.len() == index@.docs.len(),
        forall|k: int| 0 <= k < mask@.len() ==> #[trigger] mask@[k] == p(index@.docs[k]),
    ensures
        ids_view(r@) == first_n(selected_ids(index@.docs, p), max as int),
{
    let ghost docs = index@.docs;
    let ids = index.doc_ids();
    let mut r: Vec<usize> = Vec::new();
    let mut k: usize = 0;
    while k < mask.len()
        invariant
            docs == index@.docs,
            mask@.len() == docs.len(),
            ids@.len() == docs.len(),
            forall|j: int| 0 <= j < ids@.len() ==> ids@[j] as int == (#[trigger] docs[j]).id,
            forall|j: int| 0 <= j < mask@.len() ==> #[trigger] mask@[j] == p(docs[j]),
            k <= mask@.len(),
            ids_view(r@) == selected_ids(docs.take(k as int), p),
        decreases mask@.len() - k,
    {
        let ghost before = r@;
        proof {
            assert(docs.take(k + 1).drop_last() =~= docs.take(k as int));
            assert(docs.take(k + 1).last() == docs[k as int]);
        }
        if mask[k] {
            r.push(ids[k]);
            proof {
                assert(ids_view(r@) =~= ids_view(before).push(docs[k as int].id));
            }
        }
        k += 1;
    }
    proof {
        assert(docs.take(docs.len() as int) =~= docs);
    }
    let ghost full = r@;
    r.truncate(max);
    proof {
        if max <= full.len() {
            assert(ids_view(r@) =~= ids_view(full).take(max as int));
        }
    }
    r
}

/// The strings of `v`, each once, in first-occurrence order.
pub(crate) fn dedupe_strings(v: &Vec<String>) -> (r: Vec<String>)
    ensures
        strings_view(r@) == crate::index::distinct_terms(strings_view(v@)),
{
    let ghost sv = strings_view(v@);
    let mut r: Vec<String> = Vec::new();
    let mut k: usize = 0;
    while k < v.len()
        invariant
            k <= v@.len(),
            sv == strings_view(v@),
            strings_view(r@) == crate::index::distinct_terms(sv.take(k as int)),
        decreases v@.len() - k,
    {
        proof {
            assert(sv.take(k + 1).drop_last() =~= sv.take(k as int));
            assert(sv.take(k + 1).last() == v@[k as int]@);
        }
        match crate::text::find_string(&r, &v[k]) {
            Some(j) => {
                proof {
                    assert(strings_view(r@)[j as int] == v@[k as int]@);
                }
            },
            None => {
                let ghost before = r@;
                r.push(copy_string(&v[k]));
                proof {
                    assert(strings_view(r@) =~= strings_view(before).push(v@[k as int]@));
                }
            },
        }
        k += 1;
    }
    proof {
        assert(sv.take(sv.len() as int) =~= sv);
    }
    r
}

impl QueryExecutor {
    /// Evaluates `op`: the matching documents (at most `max_candidates`, lowest ids first)
    /// and the index terms fuzzy expansion added.
    pub fn evaluate(ctx: &ExecutorContext, op: &QueryOp) -> (r: QueryEvaluation)
        requires
            ctx.valid(),
        ensures
            ids_view(r.candidates@) == first_n(
                selected_ids(
                    ctx.index@.docs,
                    |d: DocModel| op_hit(ctx.index@, *ctx.options, ctx.limits, op.model(), d),
                ),
                ctx.limits.max_candidates as int,
            ),
            strings_view(r.fuzzy_terms@) == crate::index::distinct_terms(
                op_fuzzy_terms(ctx.index@, *ctx.options, ctx.limits, op.model()),
            ),
    {
        let mut fz: Vec<String> = Vec::new();
        let mask = eval_op(ctx, op, &mut fz);
        let ghost p = |d: DocModel| op_hit(ctx.index@, *ctx.options, ctx.limits, op.model(), d);
        let candidates = mask_ids(ctx.index, &mask, ctx.limits.max_candidates, Ghost(p));
        proof {
            assert(strings_view(fz@) =~= op_fuzzy_terms(ctx.index@, *ctx.options, ctx.limits, op.model()));
        }
        let fuzzy_terms = dedupe_strings(&fz);
        QueryEvaluation { candidates, fuzzy_terms }
    }

    /// Whether a single document satisfies the query AST.
    pub fn document_matches(ctx: &ExecutorContext, op: &QueryOp, doc_id: usize) -> (r: bool)
        requires
            ctx.valid(),
        ensures
            r == (has_id(ctx.index@.docs, doc_id as int) && op_hit(
                ctx.index@,
                *ctx.options,
                ctx.limits,
                op.model(),
                ctx.index@.docs[index_of_id(ctx.index@.docs, doc_id as int)],
            )),
    {
        match ctx.index.position_of(doc_id) {
            Some(i) => {
                let mut fz: Vec<String> = Vec::new();
                let mask = eval_op(ctx, op, &mut fz);
                mask[i]
            },
            None => false,
        }
    }

    /// Collect document IDs that match a pinyin query string.
    pub fn pinyin_candidates(ctx: &ExecutorContext, query: &str) -> (r: Vec<usize>)
        requires
            ctx.valid(),
        ensures
            ids_view(r@) == first_n(
                selected_ids(ctx.index@.docs, |d: DocModel| pinyin_hit(ctx.pinyin_index@, query@, d)),
                ctx.limits.max_candidates as int,
            ),
    {
        let ghost m = ctx.index@;
        let ghost pairs = search_detailed_spec(ctx.pinyin_index@, query@);
        let results = ctx.pinyin_index.search_by_pinyin_detailed(query);
        let n = ctx.index.doc_count();
        let mut mask = filled(n, false);
        let mut i: usize = 0;
        while i < results.len()
            invariant
                ctx.valid(),
                m == ctx.index@,
                n == m.docs.len(),
                i <= results@.len(),
                crate::pinyin::pairs_view(results@) == pairs,
                mask@.len() == n,
                forall|k: int|
                    0 <= k < n ==> #[trigger] mask@[k] == exists|j: int| 0 <= j < i && doc_has(m.docs[k], (#[trigger] pairs[j]).0),
            decreases results@.len() - i,
        {
            let pm = ctx.index.term_presence(results[i].0.as_str());
            let ghost before = mask@;
            or_into(&mut mask, &pm);
            proof {
                assert(pairs[i as int].0 == results@[i as int].0@);
                assert forall|k: int| 0 <= k < n implies #[trigger] mask@[k] == exists|j: int|
                    0 <= j < i + 1 && doc_has(m.docs[k], (#[trigger] pairs[j]).0) by {
                    if mask@[k] {
                        if pm@[k] {
                            assert(doc_has(m.docs[k], pairs[i as int].0));
                        } else {
                            let j = choose|j: int| 0 <= j < i && doc_has(m.docs[k], (#[trigger] pairs[j]).0);
                            assert(0 <= j < i + 1);
                        }
                    }
                    if exists|j: int| 0 <= j < i + 1 && doc_has(m.docs[k], (#[trigger] pairs[j]).0) {
                        let j = choose|j: int| 0 <= j < i + 1 && doc_has(m.docs[k], (#[trigger] pairs[j]).0);
                        if j < i {
                            assert(before[k]);
                        } else {
                            assert(pm@[k]);
                        }
                    }
                }
            }
            i += 1;
        }
        let ghost p = |d: DocModel| pinyin_hit(ctx.pinyin_index@, query@, d);
        proof {
            assert(pairs.len() == results@.len());
        }
        mask_ids(ctx.index, &mask, ctx.limits.max_candidates, Ghost(p))
    }
}

/// Whether document `doc_id` contains `phrase`: a single term anywhere, longer phrases as
/// consecutive tokens.
pub fn phrase_matches(index: &InvertedIndex, doc_id: usize, phrase: &Vec<String>) -> (r: bool)
    requires
        index.wf(),
    ensures
        r == (has_id(index@.docs, doc_id as int) && phrase_hit(
            index@.docs[index_of_id(index@.docs, doc_id as int)],
            strings_view(phrase@),
        )),
{
    match index.position_of(doc_id) {
        None => false,
        Some(i) => {
            if phrase.len() == 0 {
                false
            } else if phrase.len() < 2 {
                let pm = index.term_presence(phrase[0].as_str());
                proof {
                    assert(strings_view(phrase@)[0] == phrase@[0]@);
                }
                pm[i]
            } else {
                tokens_contain_phrase(index.tokens_at(i), phrase)
            }
        },
    }
}

/// Whether `q` holds no explicit fuzzy term (`term~`).
pub open spec fn fuzzy_free(q: QueryModel) -> bool
    decreases q,
{
    match q {
        QueryModel::Fuzzy(_, _) => false,
        QueryModel::And(cs) => forall|k: int| 0 <= k < cs.len() ==> fuzzy_free(#[trigger] cs[k]),
        QueryModel::Or(cs) => forall|k: int| 0 <= k < cs.len() ==> fuzzy_free(#[trigger] cs[k]),
        QueryModel::Not(inner) => fuzzy_free(*inner),
        _ => true,
    }
}

proof fn lemma_op_fuzzy_free(m: IndexModel, o: SearchOptions, l: ExecutorLimits, q: QueryModel)
    requires
        !o.fuzzy,
        fuzzy_free(q),
    ensures
        op_fuzzy_terms(m, o, l, q) == Seq::<Seq<char>>::empty(),
    decreases q, 1int,
{
    match q {
        QueryModel::And(cs) => {
            lemma_list_fuzzy_free(m, o, l, cs, cs.len() as int, true);
        },
        QueryModel::Or(cs) => {
            lemma_list_fuzzy_free(m, o, l, cs, cs.len() as int, false);
        },
        _ => {},
    }
}

proof fn lemma_list_fuzzy_free(m: IndexModel, o: SearchOptions, l: ExecutorLimits, cs: Seq<QueryModel>, n: int, in_and: bool)
    requires
        !o.fuzzy,
        forall|k: int| 0 <= k < cs.len() ==> fuzzy_free(#[trigger] cs[k]),
    ensures
        list_fuzzy_terms(m, o, l, cs, n, in_and) == Seq::<Seq<char>>::empty(),
    decreases cs, n,
{
    if 0 < n <= cs.len() {
        assert(decreases_to!(cs => cs[n - 1]));
        lemma_list_fuzzy_free(m, o, l, cs, n - 1, in_and);
        assert(fuzzy_free(cs[n - 1]));
        match cs[n - 1] {
            QueryModel::Not(inner) => {
                assert(decreases_to!(cs[n - 1] => *inner));
                lemma_op_fuzzy_free(m, o, l, *inner);
            },
            _ => {
                lemma_op_fuzzy_free(m, o, l, cs[n - 1]);
            },
        }
        assert(list_fuzzy_terms(m, o, l, cs, n, in_and) =~= Seq::<Seq<char>>::empty());
    }
}

/// Without fuzzy matching, a query with no explicit fuzzy term expands to no fuzzy terms:
/// evaluation reports none.
pub proof fn lemma_no_fuzzy_terms_without_fuzzy(m: IndexModel, o: SearchOptions, l: ExecutorLimits, q: QueryModel)
    requires
        !o.fuzzy,
        fuzzy_free(q),
    ensures
        op_fuzzy_terms(m, o, l, q) == Seq::<Seq<char>>::empty(),
        crate::index::distinct_terms(op_fuzzy_terms(m, o, l, q)) == Seq::<Seq<char>>::empty(),
{
    lemma_op_fuzzy_free(m, o, l, q);
}

proof fn lemma_selected_ids_len(docs: Seq<DocModel>, p: spec_fn(DocModel) -> bool)
    ensures
        selected_ids(docs, p).len() <= docs.len(),
    decreases docs.len(),
{
    if docs.len() > 0 {
        lemma_selected_ids_len(docs.drop_last(), p);
    }
}

proof fn lemma_selected_ids_members(docs: Seq<DocModel>, p: spec_fn(DocModel) -> bool, id: int)
    ensures
        selected_ids(docs, p).contains(id) <==> exists|k: int| 0 <= k < docs.len() && (#[trigger] docs[k]).id == id && p(docs[k]),
    decreases docs.len(),
{
    if docs.len() > 0 {
        let init = docs.drop_last();
        lemma_selected_ids_members(init, p, id);
        let r0 = selected_ids(init, p);
        if exists|k: int| 0 <= k < docs.len() && (#[trigger] docs[k]).id == id && p(docs[k]) {
            let k = choose|k: int| 0 <= k < docs.len() && (#[trigger] docs[k]).id == id && p(docs[k]);
            if k < init.len() {
                assert(init[k] == docs[k]);
                let j = choose|j: int| 0 <= j < r0.len() && r0[j] == id;
                if p(docs.last()) {
                    assert(r0.push(docs.last().id)[j] == id);
                }
            } else {
                assert(r0.push(docs.last().id)[r0.len() as int] == id);
            }
        }
        if selected_ids(docs, p).contains(id) {
            let r = selected_ids(docs, p);
            let j = choose|j: int| 0 <= j < r.len() && r[j] == id;
            if p(docs.last()) && j == r0.len() {
                assert(docs[docs.len() - 1].id == id);
            } else {
                assert(r0[j] == id);
                let k = choose|k: int| 0 <= k < init.len() && (#[trigger] init[k]).id == id && p(init[k]);
                assert(docs[k] == init[k]);
            }
        }
    }
}

/// When the index holds no more documents than the candidate limit, evaluation truncates
/// nothing: the candidates are exactly the ids of the documents that satisfy the query, in
/// index order, and a document is a candidate exactly when it satisfies the query.
pub proof fn lemma_candidates_without_truncation(m: IndexModel, o: SearchOptions, l: ExecutorLimits, q: QueryModel, id: int)
    requires
        m.docs.len() <= l.max_candidates,
    ensures
        first_n(selected_ids(m.docs, |d: DocModel| op_hit(m, o, l, q, d)), l.max_candidates as int)
            == selected_ids(m.docs, |d: DocModel| op_hit(m, o, l, q, d)),
        first_n(selected_ids(m.docs, |d: DocModel| op_hit(m, o, l, q, d)), l.max_candidates as int).contains(id)
            <==> exists|k: int| 0 <= k < m.docs.len() && (#[trigger] m.docs[k]).id == id && op_hit(m, o, l, q, m.docs[k]),
{
    let p = |d: DocModel| op_hit(m, o, l, q, d);
    lemma_selected_ids_len(m.docs, p);
    lemma_selected_ids_members(m.docs, p, id);
    let s = selected_ids(m.docs, p);
    assert(first_n(s, l.max_candidates as int) == s);
    if s.contains(id) {
        let k = choose|k: int| 0 <= k < m.docs.len() && (#[trigger] m.docs[k]).id == id && p(m.docs[k]);
        assert(op_hit(m, o, l, q, m.docs[k]));
    }
    if exists|k: int| 0 <= k < m.docs.len() && (#[trigger] m.docs[k]).id == id && op_hit(m, o, l, q, m.docs[k]) {
        let k = choose|k: int| 0 <= k < m.docs.len() && (#[trigger] m.docs[k]).id == id && op_hit(m, o, l, q, m.docs[k]);
        assert(p(m.docs[k]));
    }
}

/// The ids `evaluate` returns for `q`.
pub open spec fn evaluation(m: IndexModel, o: SearchOptions, l: ExecutorLimits, q: QueryModel) -> Seq<int> {
    first_n(selected_ids(m.docs, |d: DocModel| op_hit(m, o, l, q, d)), l.max_candidates as int)
}

/// Whether the index holds a document with id `id`.
pub open spec fn id_in(m: IndexModel, id: int) -> bool {
    exists|k: int| 0 <= k < m.docs.len() && (#[trigger] m.docs[k]).id == id
}

/// Whether the document with id `id` contains the term `t`.
pub open spec fn id_has(m: IndexModel, id: int, t: Seq<char>) -> bool {
    exists|k: int| 0 <= k < m.docs.len() && (#[trigger] m.docs[k]).id == id && doc_has(m.docs[k], t)
}

proof fn lemma_ids_unique(m: IndexModel, a: int, b: int)
    requires
        crate::index::index_wf(m),
        0 <= a < m.docs.len(),
        0 <= b < m.docs.len(),
        m.docs[a].id == m.docs[b].id,
    ensures
        a == b,
{
    if a < b {
        assert(m.docs[a].id < m.docs[b].id);
    } else if b < a {
        assert(m.docs[b].id < m.docs[a].id);
    }
}

proof fn lemma_evaluation_member(m: IndexModel, o: SearchOptions, l: ExecutorLimits, q: QueryModel, k: int)
    requires
        crate::index::index_wf(m),
        m.docs.len() <= l.max_candidates,
        0 <= k < m.docs.len(),
    ensures
        evaluation(m, o, l, q).contains(m.docs[k].id) <==> op_hit(m, o, l, q, m.docs[k]),
{
    lemma_candidates_without_truncation(m, o, l, q, m.docs[k].id);
    if evaluation(m, o, l, q).contains(m.docs[k].id) {
        let j = choose|j: int| 0 <= j < m.docs.len() && (#[trigger] m.docs[j]).id == m.docs[k].id && op_hit(m, o, l, q, m.docs[j]);
        lemma_ids_unique(m, j, k);
    }
}

/// Set laws of evaluation without fuzzy matching, when the index holds no more documents than
/// the candidate limit: a term selects the documents that contain it; a character match
/// those that contain every one of its (at least one) characters; an AND those in every
/// positive child (there must be one) and in no negated child's operand; an OR those in some
/// positive child; a NOT alone nothing; and no fuzzy terms come back for a query without
/// `term~`.
pub proof fn lemma_evaluation_sets(
    m: IndexModel,
    o: SearchOptions,
    l: ExecutorLimits,
    t: Seq<char>,
    chars: Seq<char>,
    cs: Seq<QueryModel>,
    q: QueryModel,
    id: int,
)
    requires
        crate::index::index_wf(m),
        !o.fuzzy,
        m.docs.len() <= l.max_candidates,
    ensures
        evaluation(m, o, l, QueryModel::Term(t)).contains(id) <==> id_has(m, id, t),
        evaluation(m, o, l, QueryModel::CharMatch(chars)).contains(id) <==> (chars.len() > 0 && id_in(m, id)
            && forall|k: int| 0 <= k < chars.len() ==> id_has(m, id, seq![#[trigger] chars[k]])),
        evaluation(m, o, l, QueryModel::And(cs)).contains(id) <==> (id_in(m, id) && (exists|k: int|
            0 <= k < cs.len() && !is_not(#[trigger] cs[k])) && (forall|k: int|
            0 <= k < cs.len() && !is_not(cs[k]) ==> evaluation(m, o, l, #[trigger] cs[k]).contains(id)) && (forall|k: int|
            0 <= k < cs.len() && is_not(cs[k]) ==> !evaluation(m, o, l, *(#[trigger] cs[k])->Not_0).contains(id))),
        evaluation(m, o, l, QueryModel::Or(cs)).contains(id) <==> exists|k: int|
            0 <= k < cs.len() && !is_not(#[trigger] cs[k]) && evaluation(m, o, l, cs[k]).contains(id),
        !evaluation(m, o, l, QueryModel::Not(Box::new(q))).contains(id),
        fuzzy_free(q) ==> crate::index::distinct_terms(op_fuzzy_terms(m, o, l, q)) == Seq::<Seq<char>>::empty(),
{
    if fuzzy_free(q) {
        lemma_no_fuzzy_terms_without_fuzzy(m, o, l, q);
    }
    if id_in(m, id) {
        let k = choose|k: int| 0 <= k < m.docs.len() && (#[trigger] m.docs[k]).id == id;
        let d = m.docs[k];
        lemma_boolean_semantics(m, o, l, cs, d);
        lemma_evaluation_member(m, o, l, QueryModel::Term(t), k);
        lemma_evaluation_member(m, o, l, QueryModel::CharMatch(chars), k);
        lemma_evaluation_member(m, o, l, QueryModel::And(cs), k);
        lemma_evaluation_member(m, o, l, QueryModel::Or(cs), k);
        lemma_evaluation_member(m, o, l, QueryModel::Not(Box::new(q)), k);
        lemma_leaf_ops(m, o, l, QueryModel::Term(t), d);
        lemma_leaf_ops(m, o, l, QueryModel::CharMatch(chars), d);
        lemma_leaf_ops(m, o, l, QueryModel::Not(Box::new(q)), d);
        assert(id_has(m, id, t) <==> doc_has(d, t)) by {
            if id_has(m, id, t) {
                let j = choose|j: int| 0 <= j < m.docs.len() && (#[trigger] m.docs[j]).id == id && doc_has(m.docs[j], t);
                lemma_ids_unique(m, j, k);
            }
        }
        assert forall|c: int| 0 <= c < chars.len() implies (id_has(m, id, seq![#[trigger] chars[c]]) <==> doc_has(d, seq![chars[c]])) by {
            if id_has(m, id, seq![chars[c]]) {
                let j = choose|j: int| 0 <= j < m.docs.len() && (#[trigger] m.docs[j]).id == id && doc_has(m.docs[j], seq![chars[c]]);
                lemma_ids_unique(m, j, k);
            }
        }
        assert forall|c: int| 0 <= c < cs.len() implies (evaluation(m, o, l, #[trigger] cs[c]).contains(id) <==> op_hit(m, o, l, cs[c], d)) by {
            lemma_evaluation_member(m, o, l, cs[c], k);
        }
        assert forall|c: int| 0 <= c < cs.len() && is_not(cs[c]) implies (evaluation(m, o, l, *(#[trigger] cs[c])->Not_0).contains(id) <==> op_hit(m, o, l, *cs[c]->Not_0, d)) by {
            lemma_evaluation_member(m, o, l, *cs[c]->Not_0, k);
        }
    } else {
        lemma_candidates_without_truncation(m, o, l, QueryModel::Term(t), id);
        lemma_candidates_without_truncation(m, o, l, QueryModel::CharMatch(chars), id);
        lemma_candidates_without_truncation(m, o, l, QueryModel::And(cs), id);
        lemma_candidates_without_truncation(m, o, l, QueryModel::Or(cs), id);
        lemma_candidates_without_truncation(m, o, l, QueryModel::Not(Box::new(q)), id);
        assert forall|c: int| 0 <= c < cs.len() implies !evaluation(m, o, l, #[trigger] cs[c]).contains(id) by {
            lemma_candidates_without_truncation(m, o, l, cs[c], id);
        }
    }
}

/// The tokens `toks[i..i + p.len()]` carry the texts of `p`, term by term.
pub open spec fn tokens_spell(toks: Seq<crate::tokenizer::TokenModel>, p: Seq<Seq<char>>, i: int) -> bool {
    &&& 0 <= i
    &&& i + p.len() <= toks.len()
    &&& forall|k: int| 0 <= k < p.len() ==> (#[trigger] toks[i + k]).text == p[k]
}

/// A phrase of two or more terms selects a document exactly when the phrase occurs there as
/// consecutive tokens: some run of its tokens spells the phrase, term by term.
pub proof fn lemma_phrase_law(m: IndexModel, o: SearchOptions, l: ExecutorLimits, p: Seq<Seq<char>>, d: DocModel)
    requires
        p.len() >= 2,
    ensures
        op_hit(m, o, l, QueryModel::Phrase(p), d) <==> exists|i: int| #[trigger] tokens_spell(d.tokens, p, i),
        phrase_hit(d, p) <==> exists|i: int| #[trigger] tokens_spell(d.tokens, p, i),
{
    let ts = crate::index::texts_of(d.tokens);
    if exists|i: int| #[trigger] tokens_spell(d.tokens, p, i) {
        let i = choose|i: int| #[trigger] tokens_spell(d.tokens, p, i);
        assert(ts.subrange(i, i + p.len()) =~= p) by {
            assert forall|k: int| 0 <= k < p.len() implies ts.subrange(i, i + p.len())[k] == p[k] by {
                assert(d.tokens[i + k].text == p[k]);
            }
        }
        assert(window_at(ts, p, i));
        assert forall|k: int| 0 <= k < p.len() implies doc_has(d, #[trigger] p[k]) by {
            assert(d.tokens[i + k].text == p[k]);
            assert(ts[i + k] == p[k]);
            crate::index::lemma_count_positive(ts, p[k]);
        }
    }
    if phrase_hit(d, p) {
        let i = choose|i: int| window_at(ts, p, i);
        assert forall|k: int| 0 <= k < p.len() implies (#[trigger] d.tokens[i + k]).text == p[k] by {
            assert(ts.subrange(i, i + p.len())[k] == p[k]);
        }
        assert(tokens_spell(d.tokens, p, i));
    }
}

/// With no more documents than the candidate limit, evaluating a phrase of two or more terms
/// gives exactly the ids of the documents in which the phrase occurs as consecutive tokens.
pub proof fn lemma_phrase_evaluation(m: IndexModel, o: SearchOptions, l: ExecutorLimits, p: Seq<Seq<char>>, id: int)
    requires
        crate::index::index_wf(m),
        m.docs.len() <= l.max_candidates,
        p.len() >= 2,
    ensures
        evaluation(m, o, l, QueryModel::Phrase(p)).contains(id) <==> exists|j: int, i: int|
            0 <= j < m.docs.len() && (#[trigger] m.docs[j]).id == id && #[trigger] tokens_spell(m.docs[j].tokens, p, i),
{
    lemma_candidates_without_truncation(m, o, l, QueryModel::Phrase(p), id);
    if evaluation(m, o, l, QueryModel::Phrase(p)).contains(id) {
        let j = choose|j: int| 0 <= j < m.docs.len() && (#[trigger] m.docs[j]).id == id && op_hit(m, o, l, QueryModel::Phrase(p), m.docs[j]);
        lemma_phrase_law(m, o, l, p, m.docs[j]);
        let i = choose|i: int| #[trigger] tokens_spell(m.docs[j].tokens, p, i);
        assert(0 <= j < m.docs.len() && m.docs[j].id == id && tokens_spell(m.docs[j].tokens, p, i));
    }
    if exists|j: int, i: int| 0 <= j < m.docs.len() && (#[trigger] m.docs[j]).id == id && #[trigger] tokens_spell(m.docs[j].tokens, p, i) {
        let (j, i) = choose|j: int, i: int|
            0 <= j < m.docs.len() && (#[trigger] m.docs[j]).id == id && #[trigger] tokens_spell(m.docs[j].tokens, p, i);
        lemma_phrase_law(m, o, l, p, m.docs[j]);
        assert(op_hit(m, o, l, QueryModel::Phrase(p), m.docs[j]));
    }
}


/// Boolean semantics: a document satisfies an AND exactly when it satisfies each positive
/// child and none of the negated ones (and there is a positive child); an OR when it
/// satisfies a positive child; a bare negation matches nothing.
pub proof fn lemma_boolean_semantics(m: IndexModel, o: SearchOptions, l: ExecutorLimits, cs: Seq<QueryModel>, d: DocModel)
    ensures
        op_hit(m, o, l, QueryModel::And(cs), d) <==> ((exists|k: int| 0 <= k < cs.len() && !is_not(#[trigger] cs[k]))
            && (forall|k: int| 0 <= k < cs.len() && !is_not(cs[k]) ==> op_hit(m, o, l, #[trigger] cs[k], d))
            && (forall|k: int| 0 <= k < cs.len() && is_not(cs[k]) ==> !op_hit(m, o, l, *(#[trigger] cs[k])->Not_0, d))),
        op_hit(m, o, l, QueryModel::Or(cs), d) <==> exists|k: int|
            0 <= k < cs.len() && !is_not(#[trigger] cs[k]) && op_hit(m, o, l, cs[k], d),
        forall|q: QueryModel| !op_hit(m, o, l, QueryModel::Not(Box::new(q)), d),
{
    lemma_and_op(m, o, l, cs, d);
    lemma_or_op(m, o, l, cs, d);
    assert forall|q: QueryModel| !op_hit(m, o, l, QueryModel::Not(Box::new(q)), d) by {
        lemma_leaf_ops(m, o, l, QueryModel::Not(Box::new(q)), d);
    }
}

impl Default for QueryEvaluation {
    fn default() -> (r: Self)
        ensures
            r.candidates@.len() == 0,
            r.fuzzy_terms@.len() == 0,
    {
        QueryEvaluation { candidates: Vec::new(), fuzzy_terms: Vec::new() }
    }
}

} // verus!
