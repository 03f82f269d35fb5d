//! Inputs of relevance ranking, and the counting that ranking rests on.
use vstd::prelude::*;

use crate::executor::window_at;
use crate::index::{doc_count_of, has_id, index_of_id, texts_of, DocModel, InvertedIndex};
use crate::text::strings_view;
use crate::tokenizer::{token_views, Token};

verus! {

/// A single search hit for ranking purposes
#[derive(Debug, Clone)]
pub struct Hit {
    pub doc_id: usize,
    pub term: String,
    pub term_freq: usize,
}

/// Input for the combined scoring pipeline.
pub struct ScoringInput<'a> {
    pub query_terms: &'a [String],
    pub phrases: &'a [Vec<String>],
    pub pinyin_query: Option<&'a str>,
    pub use_pinyin: bool,
}

/// The number of starts `i < n` at which `p` occurs in `ts`.
pub open spec fn window_count(ts: Seq<Seq<char>>, p: Seq<Seq<char>>, n: int) -> nat
    decreases n,
{
    if n <= 0 {
        0
    } else {
        window_count(ts, p, n - 1) + if window_at(ts, p, n - 1) { 1nat } else { 0nat }
    }
}

/// The number of places where the tokens hold `phrase` consecutively (none for an empty
/// phrase).
pub open spec fn phrase_windows_spec(ts: Seq<Seq<char>>, p: Seq<Seq<char>>) -> nat {
    if p.len() == 0 || ts.len() < p.len() {
        0
    } else {
        window_count(ts, p, ts.len() - p.len() + 1)
    }
}

/// How many times `phrase` occurs as consecutive tokens of `tokens`.
pub fn phrase_windows(tokens: &Vec<Token>, phrase: &[String]) -> (n: usize)
    ensures
        n == phrase_windows_spec(texts_of(token_views(tokens@)), strings_view(phrase@)),
{
    let ghost ts = texts_of(token_views(tokens@));
    let ghost p = strings_view(phrase@);
    let len = tokens.len();
    let w = phrase.len();
    if w == 0 || len < w {
        return 0;
    }
    let last = len - w;
    let mut count: usize = 0;
    let mut start: usize = 0;
    while start <= last
        invariant
            len == tokens@.len(),
            w == phrase@.len(),
            w > 0,
            last == len - w,
            start <= last + 1,
            ts == texts_of(token_views(tokens@)),
            p == strings_view(phrase@),
            count == window_count(ts, p, start as int),
            count <= start,
        decreases last + 1 - start,
    {
        let mut j: usize = 0;
        let mut same = true;
        while j < w
            invariant
                j <= w,
                w == phrase@.len(),
                start + w <= len,
                len == tokens@.len(),
                ts == texts_of(token_views(tokens@)),
                p == strings_view(phrase@),
                same == forall|k: int| 0 <= k < j ==> ts[start + k] == p[k],
            decreases w - j,
        {
            if !tokens[start + j].text.eq(&phrase[j]) {
                same = false;
            }
            proof {
                assert(ts[start + j] == tokens@[start + j]@.text);
                assert(p[j as int] == phrase@[j as int]@);
                if same {
                    assert forall|k: int| 0 <= k < j + 1 implies ts[start + k] == p[k] by {}
                }
            }
            j += 1;
        }
        proof {
            if same {
                assert(ts.subrange(start as int, start + p.len()) =~= p);
            } else {
                let k = choose|k: int| 0 <= k < w && ts[start + k] != p[k];
                assert(ts.subrange(start as int, start + p.len())[k] != p[k]);
            }
        }
        if same {
            count += 1;
        }
        start += 1;
    }
    count
}

/// The number of terms of `terms` that document `d` contains.
pub open spec fn matched_count(d: DocModel, terms: Seq<Seq<char>>) -> nat
    decreases terms.len(),
{
    if terms.len() == 0 {
        0
    } else {
        matched_count(d, terms.drop_last()) + if doc_count_of(d, terms.last()) > 0 { 1nat } else { 0nat }
    }
}

/// How many of `terms` document `doc_id` contains (none when there is no such document).
pub fn matched_term_count(index: &InvertedIndex, doc_id: usize, terms: &[String]) -> (n: usize)
    requires
        index.wf(),
    ensures
        n == if has_id(index@.docs, doc_id as int) {
            matched_count(index@.docs[index_of_id(index@.docs, doc_id as int)], strings_view(terms@)) as int
        } else {
            0
        },
{
    let ghost tv = strings_view(terms@);
    let mut n: usize = 0;
    let mut k: usize = 0;
    while k < terms.len()
        invariant
            index.wf(),
            k <= terms@.len(),
            tv == strings_view(terms@),
            n <= k,
            n == if has_id(index@.docs, doc_id as int) {
                matched_count(index@.docs[index_of_id(index@.docs, doc_id as int)], tv.take(k as int)) as int
            } else {
                0
            },
        decreases terms@.len() - k,
    {
        proof {
            assert(tv.take(k + 1).drop_last() =~= tv.take(k as int));
            assert(tv.take(k + 1).last() == terms@[k as int]@);
        }
        if index.term_freq_in_doc(terms[k].as_str(), doc_id) > 0 {
            n += 1;
        }
        k += 1;
    }
    proof {
        assert(tv.take(tv.len() as int) =~= tv);
    }
    n
}

/// The distance between two token positions.
pub open spec fn gap(i: int, j: int) -> int {
    if i <= j {
        j - i
    } else {
        i - j
    }
}

/// The least distance, in tokens, between an occurrence of `a` and one of `b` in `tokens`;
/// `None` when either does not occur.
pub fn min_token_distance(tokens: &Vec<Token>, a: &String, b: &String) -> (r: Option<usize>)
    ensures
        ({
            let ts = texts_of(token_views(tokens@));
            match r {
                Some(d) => (exists|i: int, j: int|
                    0 <= i < ts.len() && 0 <= j < ts.len() && ts[i] == a@ && ts[j] == b@ && gap(i, j) == d) && (forall|i: int, j: int|
                    0 <= i < ts.len() && 0 <= j < ts.len() && ts[i] == a@ && ts[j] == b@ ==> d <= #[trigger] gap(i, j)),
                None => !(exists|i: int, j: int| 0 <= i < ts.len() && 0 <= j < ts.len() && ts[i] == a@ && ts[j] == b@),
            }
        }),
{
    let ghost ts = texts_of(token_views(tokens@));
    let n = tokens.len();
    let mut best: Option<usize> = None;
    let mut i: usize = 0;
    while i < n
        invariant
            n == tokens@.len(),
            ts == texts_of(token_views(tokens@)),
            i <= n,
            match best {
                Some(d) => (exists|x: int, y: int|
                    0 <= x < i && 0 <= y < n && ts[x] == a@ && ts[y] == b@ && gap(x, y) == d) && (forall|x: int, y: int|
                    0 <= x < i && 0 <= y < n && ts[x] == a@ && ts[y] == b@ ==> d <= #[trigger] gap(x, y)),
                None => forall|x: int, y: int| 0 <= x < i && 0 <= y < n && ts[x] == a@ ==> ts[y] != b@,
            },
        decreases n - i,
    {
        proof {
            assert(ts[i as int] == tokens@[i as int]@.text);
        }
        if tokens[i].text.eq(a) {
            let mut j: usize = 0;
            while j < n
                invariant
                    n == tokens@.len(),
                    ts == texts_of(token_views(tokens@)),
                    i < n,
                    j <= n,
                    ts[i as int] == a@,
                    match best {
                        Some(d) => (exists|x: int, y: int|
                            0 <= x < i + 1 && 0 <= y < n && ts[x] == a@ && ts[y] == b@ && gap(x, y) == d) && (forall|x: int, y: int|
                            (0 <= x < i && 0 <= y < n || x == i && 0 <= y < j) && ts[x] == a@ && ts[y] == b@ ==> d <= #[trigger] gap(x, y)),
                        None => forall|x: int, y: int| (0 <= x < i && 0 <= y < n || x == i && 0 <= y < j) && ts[x] == a@ ==> ts[y] != b@,
                    },
                decreases n - j,
            {
                proof {
                    assert(ts[j as int] == tokens@[j as int]@.text);
                }
                if tokens[j].text.eq(b) {
                    let dist = if i <= j { j - i } else { i - j };
                    let better = match best {
                        Some(d) => dist < d,
                        None => true,
                    };
                    if better {
                        best = Some(dist);
                        proof {
                            assert(gap(i as int, j as int) == dist);
                        }
                    }
                }
                j += 1;
            }
        }
        i += 1;
    }
    proof {
        if best is None {
            if exists|x: int, y: int| 0 <= x < ts.len() && 0 <= y < ts.len() && ts[x] == a@ && ts[y] == b@ {
                let (x, y) = choose|x: int, y: int| 0 <= x < ts.len() && 0 <= y < ts.len() && ts[x] == a@ && ts[y] == b@;
                assert(ts[y] != b@);
            }
        }
    }
    best
}

} // verus!
