//! Highlighting: marking the occurrences of query terms in a document.
//!
//! Match spans come from the index in byte offsets; they are sorted by start, merged
//! where they overlap, and then rendered over the document's characters.
use vstd::prelude::*;

use crate::index::{has_id, index_of_id, postings_spec, InvertedIndex, TermPositionModel};
use crate::text::{chars_of, copy_string, push_char, strings_view};
use crate::tokenizer::{byte_offsets, byte_pos};

verus! {

/// A highlighted snippet from a document
#[derive(Debug, Clone)]
pub struct Snippet {
    pub doc_id: usize,
    pub highlighted: String,
    pub start: usize,
    pub end: usize,
    pub original: String,
}

#[derive(Debug, Clone)]
pub struct HighlighterConfig {
    pub context_before: usize,
    pub context_after: usize,
    pub max_snippet_len: usize,
    pub highlight_open: String,
    pub highlight_close: String,
}

impl HighlighterConfig {
    /// The default markers: `<em>` and `</em>`.
    pub open spec fn is_default(&self) -> bool {
        &&& self.context_before == 50
        &&& self.context_after == 50
        &&& self.max_snippet_len == 200
        &&& self.highlight_open@ == seq!['<', 'e', 'm', '>']
        &&& self.highlight_close@ == seq!['<', '/', 'e', 'm', '>']
    }
}

impl Default for HighlighterConfig {
    fn default() -> (r: Self)
        ensures
            r.is_default(),
    {
        let mut open = String::new();
        push_char(&mut open, '<');
        push_char(&mut open, 'e');
        push_char(&mut open, 'm');
        push_char(&mut open, '>');
        let mut close = String::new();
        push_char(&mut close, '<');
        push_char(&mut close, '/');
        push_char(&mut close, 'e');
        push_char(&mut close, 'm');
        push_char(&mut close, '>');
        let r = HighlighterConfig {
            context_before: 50,
            context_after: 50,
            max_snippet_len: 200,
            highlight_open: open,
            highlight_close: close,
        };
        proof {
            assert(r.highlight_open@ =~= seq!['<', 'e', 'm', '>']);
            assert(r.highlight_close@ =~= seq!['<', '/', 'e', 'm', '>']);
        }
        r
    }
}

pub struct Highlighter {
    config: HighlighterConfig,
}

// ==================== spans ====================

pub open spec fn span_views(v: Seq<(usize, usize)>) -> Seq<(int, int)> {
    v.map_values(|p: (usize, usize)| (p.0 as int, p.1 as int))
}

/// `acc` (sorted by start) with `x` inserted after every span that starts no later.
pub open spec fn insert_by_start(acc: Seq<(int, int)>, x: (int, int)) -> Seq<(int, int)>
    decreases acc.len(),
{
    if acc.len() == 0 {
        seq![x]
    } else if acc.last().0 <= x.0 {
        acc.push(x)
    } else {
        insert_by_start(acc.drop_last(), x).push(acc.last())
    }
}

/// `spans` stably sorted by start.
pub open spec fn sort_by_start(spans: Seq<(int, int)>) -> Seq<(int, int)>
    decreases spans.len(),
{
    if spans.len() == 0 {
        Seq::empty()
    } else {
        insert_by_start(sort_by_start(spans.drop_last()), spans.last())
    }
}

/// Spans merged left to right: a span that starts before the end of the last merged one
/// extends it.
pub open spec fn merge_spec(spans: Seq<(int, int)>) -> Seq<(int, int)>
    decreases spans.len(),
{
    if spans.len() == 0 {
        Seq::empty()
    } else {
        let m = merge_spec(spans.drop_last());
        let x = spans.last();
        if m.len() > 0 && x.0 < m.last().1 {
            m.update(m.len() - 1, (m.last().0, if m.last().1 < x.1 { x.1 } else { m.last().1 }))
        } else {
            m.push(x)
        }
    }
}

/// The spans of the positions `ps` that lie in document `id`, in order.
pub open spec fn posting_spans(ps: Seq<TermPositionModel>, id: int) -> Seq<(int, int)>
    decreases ps.len(),
{
    if ps.len() == 0 {
        Seq::empty()
    } else {
        let r = posting_spans(ps.drop_last(), id);
        if ps.last().doc_id == id {
            r.push((ps.last().start, ps.last().end))
        } else {
            r
        }
    }
}

/// The spans of all occurrences of `terms` in document `id`: term by term, in posting order.
pub open spec fn doc_spans(docs: Seq<crate::index::DocModel>, id: int, terms: Seq<Seq<char>>) -> Seq<(int, int)>
    decreases terms.len(),
{
    if terms.len() == 0 {
        Seq::empty()
    } else {
        doc_spans(docs, id, terms.drop_last()) + posting_spans(postings_spec(docs, terms.last()), id)
    }
}

// ==================== rendering ====================

/// The first character index `i >= from` at which `s` has byte offset `b`, if any.
pub open spec fn boundary_from(s: Seq<char>, b: int, from: int) -> Option<int>
    decreases s.len() + 1 - from,
{
    if from < 0 || from > s.len() {
        None
    } else if byte_pos(s, from) == b {
        Some(from)
    } else {
        boundary_from(s, b, from + 1)
    }
}

/// The byte spans that fall on character boundaries, as character spans.
pub open spec fn char_spans(s: Seq<char>, spans: Seq<(int, int)>) -> Seq<(int, int)>
    decreases spans.len(),
{
    if spans.len() == 0 {
        Seq::empty()
    } else {
        let r = char_spans(s, spans.drop_last());
        let x = spans.last();
        match (boundary_from(s, x.0, 0), boundary_from(s, x.1, 0)) {
            (Some(a), Some(b)) => if a <= b {
                r.push((a, b))
            } else {
                r
            },
            _ => r,
        }
    }
}

/// Where the text after the first `k` spans resumes.
pub open spec fn cursor_after(cs: Seq<(int, int)>, k: int) -> int {
    if k <= 0 {
        0
    } else {
        cs[k - 1].1
    }
}

/// The characters before the first `k` spans end: plain text between spans, each span
/// wrapped in `open` and `close`.
pub open spec fn render_upto(s: Seq<char>, cs: Seq<(int, int)>, k: int, open: Seq<char>, close: Seq<char>) -> Seq<char>
    decreases k,
{
    if k <= 0 {
        Seq::empty()
    } else {
        let cur = cursor_after(cs, k - 1);
        let (a, b) = cs[k - 1];
        render_upto(s, cs, k - 1, open, close) + (if cur < a {
            s.subrange(cur, a)
        } else {
            Seq::empty()
        }) + open + s.subrange(a, b) + close
    }
}

/// The whole text with every span marked.
pub open spec fn render(s: Seq<char>, cs: Seq<(int, int)>, open: Seq<char>, close: Seq<char>) -> Seq<char> {
    let cur = cursor_after(cs, cs.len() as int);
    render_upto(s, cs, cs.len() as int, open, close) + if cur < s.len() {
        s.subrange(cur, s.len() as int)
    } else {
        Seq::empty()
    }
}

/// Merge overlapping byte-offset spans
pub fn merge_spans(spans: &[(usize, usize)]) -> (merged: Vec<(usize, usize)>)
    ensures
        span_views(merged@) == merge_spec(span_views(spans@)),
{
    let ghost sv = span_views(spans@);
    let mut merged: Vec<(usize, usize)> = Vec::new();
    let mut k: usize = 0;
    while k < spans.len()
        invariant
            k <= spans@.len(),
            sv == span_views(spans@),
            span_views(merged@) == merge_spec(sv.take(k as int)),
        decreases spans@.len() - k,
    {
        let ghost before = merged@;
        proof {
            assert(sv.take(k + 1).drop_last() =~= sv.take(k as int));
            assert(sv.take(k + 1).last() == sv[k as int]);
        }
        let (start, end) = spans[k];
        let n = merged.len();
        if n > 0 && start < merged[n - 1].1 {
            let (ls, le) = merged[n - 1];
            let ne = if le < end { end } else { le };
            merged.set(n - 1, (ls, ne));
            proof {
                assert(span_views(merged@) =~= span_views(before).update(n - 1, (ls as int, ne as int)));
            }
        } else {
            merged.push((start, end));
            proof {
                assert(span_views(merged@) =~= span_views(before).push((start as int, end as int)));
            }
        }
        k += 1;
    }
    proof {
        assert(sv.take(sv.len() as int) =~= sv);
    }
    merged
}

/// `spans` stably sorted by start.
pub fn sort_spans(spans: &Vec<(usize, usize)>) -> (r: Vec<(usize, usize)>)
    ensures
        span_views(r@) == sort_by_start(span_views(spans@)),
{
    let ghost sv = span_views(spans@);
    let mut r: Vec<(usize, usize)> = Vec::new();
    let mut k: usize = 0;
    while k < spans.len()
        invariant
            k <= spans@.len(),
            sv == span_views(spans@),
            span_views(r@) == sort_by_start(sv.take(k as int)),
        decreases spans@.len() - k,
    {
        proof {
            assert(sv.take(k + 1).drop_last() =~= sv.take(k as int));
            assert(sv.take(k + 1).last() == sv[k as int]);
        }
        insert_span(&mut r, spans[k]);
        k += 1;
    }
    proof {
        assert(sv.take(sv.len() as int) =~= sv);
    }
    r
}

fn insert_span(r: &mut Vec<(usize, usize)>, x: (usize, usize))
    ensures
        span_views(final(r)@) == insert_by_start(span_views(old(r)@), (x.0 as int, x.1 as int)),
{
    let ghost xv = (x.0 as int, x.1 as int);
    let ghost orig = span_views(r@);
    // find the insertion point: after the last span that starts no later than x
    let mut p: usize = r.len();
    proof {
        assert(orig.take(p as int) =~= orig);
        assert(insert_by_start(orig, xv) + orig.skip(p as int) =~= insert_by_start(orig, xv));
    }
    while p > 0 && r[p - 1].0 > x.0
        invariant
            p <= r@.len(),
            xv == (x.0 as int, x.1 as int),
            orig == span_views(r@),
            insert_by_start(orig, xv) == insert_by_start(orig.take(p as int), xv) + orig.skip(p as int),
        decreases p,
    {
        proof {
            let t = orig.take(p as int);
            assert(t.last() == orig[p - 1]);
            assert(orig[p - 1].0 == r@[p - 1].0 as int);
            assert(r@[p - 1].0 > x.0);
            assert(t.len() == p);
            assert(!(t.last().0 <= xv.0));
            assert(t.drop_last() =~= orig.take(p - 1));
            assert(insert_by_start(t, xv) == insert_by_start(t.drop_last(), xv).push(t.last()));
            assert(orig.skip(p - 1) =~= seq![orig[p - 1]] + orig.skip(p as int));
            assert(insert_by_start(orig.take(p - 1), xv).push(orig[p - 1]) + orig.skip(p as int)
                =~= insert_by_start(orig.take(p - 1), xv) + orig.skip(p - 1));
        }
        p -= 1;
    }
    proof {
        let t = orig.take(p as int);
        if p > 0 {
            assert(t.last() == orig[p - 1]);
            assert(insert_by_start(t, xv) == t.push(xv));
        } else {
            assert(insert_by_start(t, xv) =~= seq![xv]);
        }
    }
    r.insert(p, x);
    proof {
        assert(span_views(r@) =~= orig.take(p as int).push(xv) + orig.skip(p as int));
    }
}

/// Spans with starts in non-decreasing order.
pub open spec fn starts_sorted(sp: Seq<(int, int)>) -> bool {
    forall|i: int, j: int| 0 <= i < j < sp.len() ==> (#[trigger] sp[i]).0 <= (#[trigger] sp[j]).0
}

/// Every span of `sp` is non-empty.
pub open spec fn spans_nonempty(sp: Seq<(int, int)>) -> bool {
    forall|k: int| 0 <= k < sp.len() ==> (#[trigger] sp[k]).0 < sp[k].1
}

/// Some span of `marks` contains the span `x`.
pub open spec fn covered(marks: Seq<(int, int)>, x: (int, int)) -> bool {
    exists|j: int| 0 <= j < marks.len() && (#[trigger] marks[j]).0 <= x.0 && x.1 <= marks[j].1
}

proof fn lemma_push_contains_span(s: Seq<(int, int)>, x: (int, int), y: (int, int))
    ensures
        s.push(x).contains(y) <==> (s.contains(y) || y == x),
{
    if s.push(x).contains(y) {
        let k = choose|k: int| 0 <= k < s.push(x).len() && s.push(x)[k] == y;
        if k < s.len() {
            assert(s[k] == y);
        }
    }
    if s.contains(y) {
        let k = choose|k: int| 0 <= k < s.len() && s[k] == y;
        assert(s.push(x)[k] == y);
    }
    if y == x {
        assert(s.push(x)[s.len() as int] == y);
    }
}

proof fn lemma_insert_by_start_props(acc: Seq<(int, int)>, x: (int, int))
    requires
        starts_sorted(acc),
    ensures
        starts_sorted(insert_by_start(acc, x)),
        insert_by_start(acc, x).len() == acc.len() + 1,
        forall|y: (int, int)| #[trigger] insert_by_start(acc, x).contains(y) <==> (acc.contains(y) || y == x),
    decreases acc.len(),
{
    let r = insert_by_start(acc, x);
    if acc.len() == 0 {
        assert forall|y: (int, int)| #[trigger] r.contains(y) <==> (acc.contains(y) || y == x) by {
            lemma_push_contains_span(acc, x, y);
            assert(r =~= acc.push(x));
        }
    } else if acc.last().0 <= x.0 {
        assert forall|i: int, j: int| 0 <= i < j < r.len() implies (#[trigger] r[i]).0 <= (#[trigger] r[j]).0 by {
            if j == acc.len() {
                assert(r[i] == acc[i]);
                if i < acc.len() - 1 {
                    assert(acc[i].0 <= acc[acc.len() - 1].0);
                }
            } else {
                assert(r[i] == acc[i] && r[j] == acc[j]);
            }
        }
        assert forall|y: (int, int)| #[trigger] r.contains(y) <==> (acc.contains(y) || y == x) by {
            lemma_push_contains_span(acc, x, y);
        }
    } else {
        let init = acc.drop_last();
        assert(starts_sorted(init)) by {
            assert forall|i: int, j: int| 0 <= i < j < init.len() implies (#[trigger] init[i]).0 <= (#[trigger] init[j]).0 by {
                assert(init[i] == acc[i] && init[j] == acc[j]);
            }
        }
        lemma_insert_by_start_props(init, x);
        let ri = insert_by_start(init, x);
        assert forall|k: int| 0 <= k < ri.len() implies (#[trigger] ri[k]).0 <= acc.last().0 by {
            assert(ri.contains(ri[k]));
            if ri[k] != x {
                assert(init.contains(ri[k]));
                let m = choose|m: int| 0 <= m < init.len() && init[m] == ri[k];
                assert(acc[m] == ri[k]);
                assert(acc[m].0 <= acc[acc.len() - 1].0);
            }
        }
        assert forall|i: int, j: int| 0 <= i < j < r.len() implies (#[trigger] r[i]).0 <= (#[trigger] r[j]).0 by {
            if j == ri.len() {
                assert(r[i] == ri[i]);
            } else {
                assert(r[i] == ri[i] && r[j] == ri[j]);
            }
        }
        assert forall|y: (int, int)| #[trigger] r.contains(y) <==> (acc.contains(y) || y == x) by {
            lemma_push_contains_span(ri, acc.last(), y);
            lemma_push_contains_span(init, acc.last(), y);
            assert(init.push(acc.last()) =~= acc);
        }
    }
}

proof fn lemma_sort_by_start_props(sp: Seq<(int, int)>)
    ensures
        starts_sorted(sort_by_start(sp)),
        sort_by_start(sp).len() == sp.len(),
        forall|y: (int, int)| #[trigger] sort_by_start(sp).contains(y) <==> sp.contains(y),
    decreases sp.len(),
{
    if sp.len() > 0 {
        lemma_sort_by_start_props(sp.drop_last());
        lemma_insert_by_start_props(sort_by_start(sp.drop_last()), sp.last());
        assert forall|y: (int, int)| #[trigger] sort_by_start(sp).contains(y) <==> sp.contains(y) by {
            lemma_push_contains_span(sp.drop_last(), sp.last(), y);
            assert(sp.drop_last().push(sp.last()) =~= sp);
        }
    }
}

proof fn lemma_merge_props(sp: Seq<(int, int)>)
    requires
        starts_sorted(sp),
        spans_nonempty(sp),
    ensures
        forall|k: int| 0 <= k < sp.len() ==> covered(merge_spec(sp), #[trigger] sp[k]),
        spans_nonempty(merge_spec(sp)),
        forall|i: int, j: int| 0 <= i < j < merge_spec(sp).len() ==> (#[trigger] merge_spec(sp)[i]).1 <= (#[trigger] merge_spec(sp)[j]).0,
        sp.len() > 0 ==> merge_spec(sp).len() > 0 && merge_spec(sp)[0].0 == sp[0].0,
        forall|k: int| 0 <= k < sp.len() ==> (#[trigger] sp[k]).1 <= merge_spec(sp).last().1,
        sp.len() > 0 ==> exists|k: int| 0 <= k < sp.len() && (#[trigger] sp[k]).1 == merge_spec(sp).last().1,
        forall|j: int| 0 <= j < merge_spec(sp).len() ==> sp[0].0 <= (#[trigger] merge_spec(sp)[j]).0,
    decreases sp.len(),
{
    if sp.len() > 0 {
        let init = sp.drop_last();
        let x = sp.last();
        assert(starts_sorted(init)) by {
            assert forall|i: int, j: int| 0 <= i < j < init.len() implies (#[trigger] init[i]).0 <= (#[trigger] init[j]).0 by {
                assert(init[i] == sp[i] && init[j] == sp[j]);
            }
        }
        assert(spans_nonempty(init)) by {
            assert forall|k: int| 0 <= k < init.len() implies (#[trigger] init[k]).0 < init[k].1 by {
                assert(init[k] == sp[k]);
            }
        }
        lemma_merge_props(init);
        let m = merge_spec(init);
        let r = merge_spec(sp);
        assert(x.0 < x.1) by {
            assert(sp[sp.len() - 1] == x);
        }
        if init.len() > 0 {
            assert forall|j: int| 0 <= j < m.len() implies (#[trigger] m[j]).0 <= x.0 by {
                assert(init[0] == sp[0]);
                assert(sp[0].0 <= sp[sp.len() - 1].0);
                if j < m.len() - 1 {
                    assert(m[j].1 <= m[m.len() - 1].0);
                }
                let k = choose|k: int| 0 <= k < init.len() && (#[trigger] init[k]).1 == m.last().1;
                assert(init[k] == sp[k]);
                assert(sp[k].0 <= sp[sp.len() - 1].0);
            }
        }
        if m.len() > 0 && x.0 < m.last().1 {
            let ne = if m.last().1 < x.1 { x.1 } else { m.last().1 };
            assert(r == m.update(m.len() - 1, (m.last().0, ne)));
            assert forall|k: int| 0 <= k < sp.len() implies covered(r, #[trigger] sp[k]) by {
                if k < init.len() {
                    assert(init[k] == sp[k]);
                    assert(covered(m, init[k]));
                    let j = choose|j: int| 0 <= j < m.len() && (#[trigger] m[j]).0 <= init[k].0 && init[k].1 <= m[j].1;
                    assert(r[j].0 <= sp[k].0 && sp[k].1 <= r[j].1);
                } else {
                    assert(sp[k] == x);
                    assert(r[m.len() - 1].0 <= x.0 && x.1 <= r[m.len() - 1].1);
                }
            }
            assert forall|i: int, j: int| 0 <= i < j < r.len() implies (#[trigger] r[i]).1 <= (#[trigger] r[j]).0 by {
                assert(r[i] == m[i]);
                assert(r[j].0 == m[j].0);
            }
            assert forall|k: int| 0 <= k < sp.len() implies (#[trigger] sp[k]).1 <= r.last().1 by {
                if k < init.len() {
                    assert(init[k] == sp[k]);
                }
            }
            if init.len() > 0 {
                if m.last().1 < x.1 {
                    assert(sp[sp.len() - 1].1 == r.last().1);
                } else {
                    let k = choose|k: int| 0 <= k < init.len() && (#[trigger] init[k]).1 == m.last().1;
                    assert(sp[k] == init[k]);
                }
                assert(init[0] == sp[0]);
            }
            assert forall|j: int| 0 <= j < r.len() implies sp[0].0 <= (#[trigger] r[j]).0 by {
                assert(r[j].0 == m[j].0);
                assert(init[0] == sp[0]);
            }
        } else {
            assert(r == m.push(x));
            assert forall|k: int| 0 <= k < sp.len() implies covered(r, #[trigger] sp[k]) by {
                if k < init.len() {
                    assert(init[k] == sp[k]);
                    assert(covered(m, init[k]));
                    let j = choose|j: int| 0 <= j < m.len() && (#[trigger] m[j]).0 <= init[k].0 && init[k].1 <= m[j].1;
                    assert(r[j] == m[j]);
                } else {
                    assert(r[m.len() as int] == x);
                }
            }
            assert forall|i: int, j: int| 0 <= i < j < r.len() implies (#[trigger] r[i]).1 <= (#[trigger] r[j]).0 by {
                assert(r[i] == m[i]);
                if j < m.len() {
                    assert(r[j] == m[j]);
                } else {
                    assert(r[j] == x);
                    if i < m.len() - 1 {
                        assert(m[i].1 <= m[m.len() - 1].0);
                    }
                }
            }
            assert forall|k: int| 0 <= k < sp.len() implies (#[trigger] sp[k]).1 <= r.last().1 by {
                if k < init.len() {
                    assert(init[k] == sp[k]);
                }
            }
            assert(sp[sp.len() - 1].1 == r.last().1);
            if init.len() > 0 {
                assert(init[0] == sp[0]);
            }
            assert forall|j: int| 0 <= j < r.len() implies sp[0].0 <= (#[trigger] r[j]).0 by {
                if j < m.len() {
                    assert(r[j] == m[j]);
                    assert(init[0] == sp[0]);
                } else {
                    assert(sp[0].0 <= sp[sp.len() - 1].0);
                }
            }
        }
    }
}

/// Merging the spans sorted by start, whatever order they come in: every span lies inside a
/// merged span; the merged spans are non-empty, in increasing order and do not overlap; the
/// first starts where the earliest span starts and the last ends where the latest span ends.
pub proof fn lemma_sorted_merge(sp: Seq<(int, int)>)
    requires
        spans_nonempty(sp),
    ensures
        forall|k: int| 0 <= k < sp.len() ==> covered(merge_spec(sort_by_start(sp)), #[trigger] sp[k]),
        spans_nonempty(merge_spec(sort_by_start(sp))),
        forall|i: int, j: int|
            0 <= i < j < merge_spec(sort_by_start(sp)).len() ==> (#[trigger] merge_spec(sort_by_start(sp))[i]).1
                <= (#[trigger] merge_spec(sort_by_start(sp))[j]).0,
        sp.len() > 0 ==> merge_spec(sort_by_start(sp)).len() > 0,
        forall|k: int| 0 <= k < sp.len() ==> merge_spec(sort_by_start(sp))[0].0 <= (#[trigger] sp[k]).0
            && sp[k].1 <= merge_spec(sort_by_start(sp)).last().1,
        sp.len() > 0 ==> exists|k: int| 0 <= k < sp.len() && (#[trigger] sp[k]).0 == merge_spec(sort_by_start(sp))[0].0,
        sp.len() > 0 ==> exists|k: int| 0 <= k < sp.len() && (#[trigger] sp[k]).1 == merge_spec(sort_by_start(sp)).last().1,
{
    let ss = sort_by_start(sp);
    lemma_sort_by_start_props(sp);
    assert(spans_nonempty(ss)) by {
        assert forall|k: int| 0 <= k < ss.len() implies (#[trigger] ss[k]).0 < ss[k].1 by {
            assert(ss.contains(ss[k]));
            let j = choose|j: int| 0 <= j < sp.len() && sp[j] == ss[k];
        }
    }
    lemma_merge_props(ss);
    let mm = merge_spec(ss);
    assert forall|k: int| 0 <= k < sp.len() implies covered(mm, #[trigger] sp[k]) by {
        assert(ss.contains(sp[k]));
        let j = choose|j: int| 0 <= j < ss.len() && ss[j] == sp[k];
        assert(covered(mm, ss[j]));
    }
    assert forall|k: int| 0 <= k < sp.len() implies mm[0].0 <= (#[trigger] sp[k]).0 && sp[k].1 <= mm.last().1 by {
        assert(ss.contains(sp[k]));
        let j = choose|j: int| 0 <= j < ss.len() && ss[j] == sp[k];
        if j > 0 {
            assert(ss[0].0 <= ss[j].0);
        }
    }
    if sp.len() > 0 {
        assert(ss.contains(ss[0]));
        let k = choose|k: int| 0 <= k < sp.len() && sp[k] == ss[0];
        assert(sp[k].0 == mm[0].0);
        let q = choose|q: int| 0 <= q < ss.len() && (#[trigger] ss[q]).1 == mm.last().1;
        assert(ss.contains(ss[q]));
        let k2 = choose|k2: int| 0 <= k2 < sp.len() && sp[k2] == ss[q];
        assert(sp[k2].1 == mm.last().1);
    }
}

// ==================== snippets ====================

/// The mathematical value of a snippet.
pub struct SnippetModel {
    pub doc_id: int,
    pub highlighted: Seq<char>,
    pub start: int,
    pub end: int,
    pub original: Seq<char>,
}

impl View for Snippet {
    type V = SnippetModel;

    open spec fn view(&self) -> SnippetModel {
        SnippetModel {
            doc_id: self.doc_id as int,
            highlighted: self.highlighted@,
            start: self.start as int,
            end: self.end as int,
            original: self.original@,
        }
    }
}

pub open spec fn snippet_views(v: Seq<Snippet>) -> Seq<SnippetModel> {
    v.map_values(|x: Snippet| x@)
}

/// The snippet of document `id` for `terms`: none when the document is missing or holds
/// none of them; else its text with the merged spans of all occurrences marked.
pub open spec fn snippet_spec(
    docs: Seq<crate::index::DocModel>,
    id: int,
    terms: Seq<Seq<char>>,
    open: Seq<char>,
    close: Seq<char>,
) -> Option<SnippetModel> {
    let spans = doc_spans(docs, id, terms);
    if !has_id(docs, id) || spans.len() == 0 {
        None
    } else {
        let text = docs[index_of_id(docs, id)].text;
        let merged = merge_spec(sort_by_start(spans));
        Some(
            SnippetModel {
                doc_id: id,
                highlighted: render(text, char_spans(text, merged), open, close),
                start: merged[0].0,
                end: merged.last().1,
                original: text,
            },
        )
    }
}

/// The snippets of the documents `ids` that have one, in order.
pub open spec fn snippets_spec(
    docs: Seq<crate::index::DocModel>,
    ids: Seq<int>,
    terms: Seq<Seq<char>>,
    open: Seq<char>,
    close: Seq<char>,
) -> Seq<SnippetModel>
    decreases ids.len(),
{
    if ids.len() == 0 {
        Seq::empty()
    } else {
        let r = snippets_spec(docs, ids.drop_last(), terms, open, close);
        match snippet_spec(docs, ids.last(), terms, open, close) {
            Some(x) => r.push(x),
            None => r,
        }
    }
}

proof fn lemma_render_prefix(s: Seq<char>, cs: Seq<(int, int)>, x: (int, int), k: int, open: Seq<char>, close: Seq<char>)
    requires
        0 <= k <= cs.len(),
    ensures
        render_upto(s, cs.push(x), k, open, close) == render_upto(s, cs, k, open, close),
        cursor_after(cs.push(x), k) == cursor_after(cs, k),
    decreases k,
{
    if k > 0 {
        lemma_render_prefix(s, cs, x, k - 1, open, close);
        assert(cs.push(x)[k - 1] == cs[k - 1]);
    }
}

/// The first character index at which `s` has byte offset `b`, given the offsets `offs`.
fn find_boundary(offs: &Vec<usize>, Ghost(s): Ghost<Seq<char>>, b: usize) -> (r: Option<usize>)
    requires
        offs@.len() == s.len() + 1,
        forall|k: int| 0 <= k <= s.len() ==> offs@[k] == byte_pos(s, k),
    ensures
        match r {
            Some(i) => boundary_from(s, b as int, 0) == Some(i as int) && i <= s.len(),
            None => boundary_from(s, b as int, 0) is None,
        },
{
    let mut i: usize = 0;
    while i < offs.len()
        invariant
            offs@.len() == s.len() + 1,
            forall|k: int| 0 <= k <= s.len() ==> offs@[k] == byte_pos(s, k),
            i <= offs@.len(),
            boundary_from(s, b as int, 0) == boundary_from(s, b as int, i as int),
        decreases offs@.len() - i,
    {
        if offs[i] == b {
            return Some(i);
        }
        i += 1;
    }
    None
}

/// Appends `chars[from..to]` to `out`.
fn push_range(out: &mut String, chars: &Vec<char>, from: usize, to: usize)
    requires
        from <= to <= chars@.len(),
    ensures
        final(out)@ == old(out)@ + chars@.subrange(from as int, to as int),
{
    let mut k = from;
    while k < to
        invariant
            from <= k <= to <= chars@.len(),
            out@ == old(out)@ + chars@.subrange(from as int, k as int),
        decreases to - k,
    {
        push_char(out, chars[k]);
        proof {
            assert(chars@.subrange(from as int, k + 1) =~= chars@.subrange(from as int, k as int).push(chars@[k as int]));
        }
        k += 1;
    }
}

impl Highlighter {
    /// The configuration in use.
    pub closed spec fn config_spec(&self) -> HighlighterConfig {
        self.config
    }

    pub fn new() -> (h: Self)
        ensures
            h.config_spec().is_default(),
    {
        Highlighter { config: HighlighterConfig::default() }
    }

    pub fn with_config(config: HighlighterConfig) -> (h: Self)
        ensures
            h.config_spec() == config,
    {
        Highlighter { config }
    }

    /// Generate a highlighted snippet for a document.
    /// Spans from the inverted index use byte offsets; rendering goes by characters.
    pub fn highlight(&self, index: &InvertedIndex, doc_id: usize, query_terms: &[String]) -> (r: Option<Snippet>)
        requires
            index.wf(),
        ensures
            match r {
                Some(x) => snippet_spec(
                    index@.docs,
                    doc_id as int,
                    strings_view(query_terms@),
                    self.config_spec().highlight_open@,
                    self.config_spec().highlight_close@,
                ) == Some(x@),
                None => snippet_spec(
                    index@.docs,
                    doc_id as int,
                    strings_view(query_terms@),
                    self.config_spec().highlight_open@,
                    self.config_spec().highlight_close@,
                ) is None,
            },
    {
        let ghost docs = index@.docs;
        let ghost terms = strings_view(query_terms@);
        let text = match index.document(doc_id) {
            Some(t) => t,
            None => return None,
        };
        let ghost s = text@;
        // collect byte-offset match spans
        let mut spans: Vec<(usize, usize)> = Vec::new();
        let mut k: usize = 0;
        while k < query_terms.len()
            invariant
                index.wf(),
                docs == index@.docs,
                terms == strings_view(query_terms@),
                k <= query_terms@.len(),
                span_views(spans@) == doc_spans(docs, doc_id as int, terms.take(k as int)),
            decreases query_terms@.len() - k,
        {
            proof {
                assert(terms.take(k + 1).drop_last() =~= terms.take(k as int));
                assert(terms.take(k + 1).last() == query_terms@[k as int]@);
            }
            let ghost base = span_views(spans@);
            let ghost ps_all = postings_spec(docs, query_terms@[k as int]@);
            match index.posting_list(query_terms[k].as_str()) {
                Some(ps) => {
                    let mut j: usize = 0;
                    while j < ps.len()
                        invariant
                            j <= ps@.len(),
                            crate::index::position_views(ps@) == ps_all,
                            span_views(spans@) == base + posting_spans(ps_all.take(j as int), doc_id as int),
                        decreases ps@.len() - j,
                    {
                        let ghost before = spans@;
                        proof {
                            assert(ps_all.take(j + 1).drop_last() =~= ps_all.take(j as int));
                            assert(ps_all.take(j + 1).last() == ps@[j as int]@);
                        }
                        if ps[j].doc_id == doc_id {
                            spans.push((ps[j].start, ps[j].end));
                            proof {
                                assert(span_views(spans@) =~= span_views(before).push((ps@[j as int].start as int, ps@[j as int].end as int)));
                            }
                        }
                        j += 1;
                    }
                    proof {
                        assert(ps_all.take(ps_all.len() as int) =~= ps_all);
                    }
                },
                None => {
                    proof {
                        assert(posting_spans(ps_all, doc_id as int) =~= Seq::<(int, int)>::empty());
                        assert(base + Seq::<(int, int)>::empty() =~= base);
                    }
                },
            }
            k += 1;
        }
        proof {
            assert(terms.take(terms.len() as int) =~= terms);
        }
        if spans.len() == 0 {
            return None;
        }
        let sorted = sort_spans(&spans);
        let merged = merge_spans(sorted.as_slice());
        let ghost mv = span_views(merged@);
        proof {
            lemma_merge_nonempty(sort_by_start(span_views(spans@)));
            lemma_sort_len(span_views(spans@));
        }
        // render over the characters of the text
        let chars = chars_of(text);
        let bytes = text.as_bytes();
        let total = bytes.len();
        let offs = byte_offsets(&chars, total);
        let open = self.config.highlight_open.as_str();
        let close = self.config.highlight_close.as_str();
        let mut out = String::new();
        let mut cursor: usize = 0;
        let mut i: usize = 0;
        while i < merged.len()
            invariant
                s == chars@,
                offs@.len() == s.len() + 1,
                forall|x: int| 0 <= x <= s.len() ==> offs@[x] == byte_pos(s, x),
                mv == span_views(merged@),
                i <= merged@.len(),
                open@ == self.config.highlight_open@,
                close@ == self.config.highlight_close@,
                cursor as int == cursor_after(char_spans(s, mv.take(i as int)), char_spans(s, mv.take(i as int)).len() as int),
                cursor <= s.len(),
                out@ == render_upto(s, char_spans(s, mv.take(i as int)), char_spans(s, mv.take(i as int)).len() as int, open@, close@),
            decreases merged@.len() - i,
        {
            let ghost cs = char_spans(s, mv.take(i as int));
            proof {
                assert(mv.take(i + 1).drop_last() =~= mv.take(i as int));
                assert(mv.take(i + 1).last() == mv[i as int]);
            }
            let (bs, be) = merged[i];
            let fa = find_boundary(&offs, Ghost(s), bs);
            let fb = find_boundary(&offs, Ghost(s), be);
            match (fa, fb) {
                (Some(a), Some(b)) => {
                    if a <= b {
                        if cursor < a {
                            push_range(&mut out, &chars, cursor, a);
                        }
                        out.append(open);
                        push_range(&mut out, &chars, a, b);
                        out.append(close);
                        proof {
                            let cs2 = cs.push((a as int, b as int));
                            assert(char_spans(s, mv.take(i + 1)) == cs2);
                            lemma_render_prefix(s, cs, (a as int, b as int), cs.len() as int, open@, close@);
                            assert(cs2[cs.len() as int] == (a as int, b as int));
                            if cursor < a {
                                assert(out@ =~= render_upto(s, cs2, cs2.len() as int, open@, close@));
                            } else {
                                assert(out@ =~= render_upto(s, cs2, cs2.len() as int, open@, close@));
                            }
                        }
                        cursor = b;
                    } else {
                        proof {
                            assert(char_spans(s, mv.take(i + 1)) == cs);
                        }
                    }
                },
                _ => {
                    proof {
                        assert(char_spans(s, mv.take(i + 1)) == cs);
                    }
                },
            }
            i += 1;
        }
        let ghost csf = char_spans(s, mv);
        proof {
            assert(mv.take(mv.len() as int) =~= mv);
        }
        if cursor < chars.len() {
            push_range(&mut out, &chars, cursor, chars.len());
        } else {
            proof {
                assert(out@ + Seq::<char>::empty() =~= out@);
            }
        }
        let start = merged[0].0;
        let end = merged[merged.len() - 1].1;
        let sn = Snippet { doc_id, highlighted: out, start, end, original: text.to_owned() };
        Some(sn)
    }

    /// Generate snippets for multiple documents
    pub fn highlight_many(&self, index: &InvertedIndex, doc_ids: &[usize], query_terms: &[String]) -> (r: Vec<Snippet>)
        requires
            index.wf(),
        ensures
            snippet_views(r@) == snippets_spec(
                index@.docs,
                doc_ids@.map_values(|x: usize| x as int),
                strings_view(query_terms@),
                self.config_spec().highlight_open@,
                self.config_spec().highlight_close@,
            ),
    {
        let ghost ids = doc_ids@.map_values(|x: usize| x as int);
        let ghost terms = strings_view(query_terms@);
        let ghost open = self.config_spec().highlight_open@;
        let ghost close = self.config_spec().highlight_close@;
        let mut r: Vec<Snippet> = Vec::new();
        let mut k: usize = 0;
        while k < doc_ids.len()
            invariant
                index.wf(),
                k <= doc_ids@.len(),
                ids == doc_ids@.map_values(|x: usize| x as int),
                terms == strings_view(query_terms@),
                open == self.config_spec().highlight_open@,
                close == self.config_spec().highlight_close@,
                snippet_views(r@) == snippets_spec(index@.docs, ids.take(k as int), terms, open, close),
            decreases doc_ids@.len() - k,
        {
            proof {
                assert(ids.take(k + 1).drop_last() =~= ids.take(k as int));
                assert(ids.take(k + 1).last() == doc_ids@[k as int] as int);
            }
            let ghost before = r@;
            match self.highlight(index, doc_ids[k], query_terms) {
                Some(x) => {
                    r.push(x);
                    proof {
                        assert(snippet_views(r@) =~= snippet_views(before).push(x@));
                    }
                },
                None => {},
            }
            k += 1;
        }
        proof {
            assert(ids.take(ids.len() as int) =~= ids);
        }
        r
    }
}

proof fn lemma_insert_len(acc: Seq<(int, int)>, x: (int, int))
    ensures
        insert_by_start(acc, x).len() == acc.len() + 1,
    decreases acc.len(),
{
    if acc.len() > 0 && acc.last().0 > x.0 {
        lemma_insert_len(acc.drop_last(), x);
    }
}

proof fn lemma_sort_len(spans: Seq<(int, int)>)
    ensures
        sort_by_start(spans).len() == spans.len(),
    decreases spans.len(),
{
    if spans.len() > 0 {
        lemma_sort_len(spans.drop_last());
        lemma_insert_len(sort_by_start(spans.drop_last()), spans.last());
    }
}

proof fn lemma_merge_nonempty(spans: Seq<(int, int)>)
    ensures
        spans.len() > 0 ==> merge_spec(spans).len() > 0,
        merge_spec(spans).len() <= spans.len(),
    decreases spans.len(),
{
    if spans.len() > 0 {
        lemma_merge_nonempty(spans.drop_last());
    }
}

/// Merged spans do not overlap: each starts no earlier than the one before it ends; and a
/// merged span covers each span that went into it.
pub proof fn lemma_merge_disjoint(spans: Seq<(int, int)>)
    ensures
        forall|k: int| 0 <= k < merge_spec(spans).len() - 1 ==> #[trigger] merge_spec(spans)[k].1 <= merge_spec(spans)[k + 1].0,
        merge_spec(spans).len() <= spans.len(),
    decreases spans.len(),
{
    lemma_merge_nonempty(spans);
    if spans.len() > 0 {
        lemma_merge_disjoint(spans.drop_last());
        let m = merge_spec(spans.drop_last());
        let x = spans.last();
        if m.len() > 0 && x.0 < m.last().1 {
            let nm = merge_spec(spans);
            assert forall|k: int| 0 <= k < nm.len() - 1 implies #[trigger] nm[k].1 <= nm[k + 1].0 by {
                assert(nm[k] == m[k]);
                if k + 1 < m.len() - 1 {
                    assert(nm[k + 1] == m[k + 1]);
                } else {
                    assert(nm[k + 1].0 == m[k + 1].0);
                }
            }
        } else {
            let nm = merge_spec(spans);
            assert forall|k: int| 0 <= k < nm.len() - 1 implies #[trigger] nm[k].1 <= nm[k + 1].0 by {
                assert(nm[k] == m[k]);
                if k + 1 < m.len() {
                    assert(nm[k + 1] == m[k + 1]);
                }
            }
        }
    }
}

impl Default for Highlighter {
    fn default() -> (h: Self)
        ensures
            h.config_spec().is_default(),
    {
        Self::new()
    }
}


proof fn lemma_token_postings_facts(id: int, toks: Seq<crate::tokenizer::TokenModel>, t: Seq<char>, q: int)
    requires
        forall|k: int| 0 <= k < toks.len() ==> (#[trigger] toks[k]).start < toks[k].end,
    ensures
        forall|k: int| 0 <= k < crate::index::token_postings(id, toks, t).len() ==> (#[trigger] crate::index::token_postings(id, toks, t)[k]).start
            < crate::index::token_postings(id, toks, t)[k].end && crate::index::token_postings(id, toks, t)[k].doc_id == id,
        0 <= q < toks.len() && toks[q].text == t ==> crate::index::token_postings(id, toks, t).contains(
            TermPositionModel { doc_id: id, start: toks[q].start, end: toks[q].end, kind: toks[q].kind },
        ),
    decreases toks.len(),
{
    if toks.len() > 0 {
        let init = toks.drop_last();
        assert forall|k: int| 0 <= k < init.len() implies (#[trigger] init[k]).start < init[k].end by {
            assert(init[k] == toks[k]);
        }
        lemma_token_postings_facts(id, init, t, q);
        let p = crate::index::token_postings(id, init, t);
        let r = crate::index::token_postings(id, toks, t);
        let last = toks.last();
        let pos = TermPositionModel { doc_id: id, start: last.start, end: last.end, kind: last.kind };
        assert(last.start < last.end) by {
            assert(toks[toks.len() - 1] == last);
        }
        if last.text == t {
            assert(r == p.push(pos));
            assert forall|k: int| 0 <= k < r.len() implies (#[trigger] r[k]).start < r[k].end && r[k].doc_id == id by {
                if k < p.len() {
                    assert(r[k] == p[k]);
                }
            }
        }
        if 0 <= q < toks.len() && toks[q].text == t {
            let want = TermPositionModel { doc_id: id, start: toks[q].start, end: toks[q].end, kind: toks[q].kind };
            if q < init.len() {
                assert(init[q] == toks[q]);
                let k = choose|k: int| 0 <= k < p.len() && p[k] == want;
                if last.text == t {
                    assert(r[k] == want);
                } else {
                    assert(r[k] == want);
                }
            } else {
                assert(toks[q] == last);
                assert(r[p.len() as int] == want);
            }
        }
    }
}

proof fn lemma_postings_facts(docs: Seq<crate::index::DocModel>, t: Seq<char>, i: int, q: int)
    requires
        forall|k: int| 0 <= k < docs.len() ==> (#[trigger] docs[k]).tokens == crate::tokenizer::tokenize_spec(docs[k].text),
    ensures
        forall|k: int| 0 <= k < postings_spec(docs, t).len() ==> (#[trigger] postings_spec(docs, t)[k]).start < postings_spec(
            docs,
            t,
        )[k].end,
        0 <= i < docs.len() && 0 <= q < docs[i].tokens.len() && docs[i].tokens[q].text == t ==> postings_spec(docs, t).contains(
            TermPositionModel {
                doc_id: docs[i].id,
                start: docs[i].tokens[q].start,
                end: docs[i].tokens[q].end,
                kind: docs[i].tokens[q].kind,
            },
        ),
    decreases docs.len(),
{
    if docs.len() > 0 {
        let init = docs.drop_last();
        let d = docs.last();
        assert forall|k: int| 0 <= k < init.len() implies (#[trigger] init[k]).tokens == crate::tokenizer::tokenize_spec(init[k].text) by {
            assert(init[k] == docs[k]);
        }
        lemma_postings_facts(init, t, i, q);
        assert(d.tokens == crate::tokenizer::tokenize_spec(d.text)) by {
            assert(docs[docs.len() - 1] == d);
        }
        crate::tokenizer::lemma_tokens_ordered(d.text);
        assert forall|k: int| 0 <= k < d.tokens.len() implies (#[trigger] d.tokens[k]).start < d.tokens[k].end by {
        }
        lemma_token_postings_facts(d.id, d.tokens, t, q);
        let a = postings_spec(init, t);
        let b = crate::index::token_postings(d.id, d.tokens, t);
        assert(postings_spec(docs, t) == a + b);
        assert forall|k: int| 0 <= k < (a + b).len() implies (#[trigger] (a + b)[k]).start < (a + b)[k].end by {
            if k < a.len() {
                assert((a + b)[k] == a[k]);
            } else {
                assert((a + b)[k] == b[k - a.len()]);
            }
        }
        if 0 <= i < docs.len() && 0 <= q < docs[i].tokens.len() && docs[i].tokens[q].text == t {
            let want = TermPositionModel {
                doc_id: docs[i].id,
                start: docs[i].tokens[q].start,
                end: docs[i].tokens[q].end,
                kind: docs[i].tokens[q].kind,
            };
            if i < init.len() {
                assert(init[i] == docs[i]);
                let k = choose|k: int| 0 <= k < a.len() && a[k] == want;
                assert((a + b)[k] == want);
            } else {
                assert(docs[i] == d);
                let k = choose|k: int| 0 <= k < b.len() && b[k] == want;
                assert((a + b)[a.len() + k] == want);
            }
        }
    }
}

proof fn lemma_posting_spans_facts(ps: Seq<TermPositionModel>, id: int, x: TermPositionModel)
    requires
        forall|k: int| 0 <= k < ps.len() ==> (#[trigger] ps[k]).start < ps[k].end,
    ensures
        spans_nonempty(posting_spans(ps, id)),
        ps.contains(x) && x.doc_id == id ==> posting_spans(ps, id).contains((x.start, x.end)),
    decreases ps.len(),
{
    if ps.len() > 0 {
        let init = ps.drop_last();
        assert forall|k: int| 0 <= k < init.len() implies (#[trigger] init[k]).start < init[k].end by {
            assert(init[k] == ps[k]);
        }
        lemma_posting_spans_facts(init, id, x);
        let r0 = posting_spans(init, id);
        let r = posting_spans(ps, id);
        assert(ps.last().start < ps.last().end) by {
            assert(ps[ps.len() - 1] == ps.last());
        }
        if ps.last().doc_id == id {
            assert(r == r0.push((ps.last().start, ps.last().end)));
            assert forall|k: int| 0 <= k < r.len() implies (#[trigger] r[k]).0 < r[k].1 by {
                if k < r0.len() {
                    assert(r[k] == r0[k]);
                }
            }
        }
        if ps.contains(x) && x.doc_id == id {
            let k = choose|k: int| 0 <= k < ps.len() && ps[k] == x;
            if k < init.len() {
                assert(init[k] == x);
                let j = choose|j: int| 0 <= j < r0.len() && r0[j] == (x.start, x.end);
                assert(r[j] == (x.start, x.end));
            } else {
                assert(r[r0.len() as int] == (x.start, x.end));
            }
        }
    }
}

proof fn lemma_doc_spans_facts(docs: Seq<crate::index::DocModel>, id: int, terms: Seq<Seq<char>>, i: int, j: int, q: int)
    requires
        forall|k: int| 0 <= k < docs.len() ==> (#[trigger] docs[k]).tokens == crate::tokenizer::tokenize_spec(docs[k].text),
    ensures
        spans_nonempty(doc_spans(docs, id, terms)),
        0 <= i < docs.len() && docs[i].id == id && 0 <= j < terms.len() && 0 <= q < docs[i].tokens.len()
            && docs[i].tokens[q].text == terms[j] ==> doc_spans(docs, id, terms).contains(
            (docs[i].tokens[q].start, docs[i].tokens[q].end),
        ),
    decreases terms.len(),
{
    if terms.len() > 0 {
        let init = terms.drop_last();
        let t = terms.last();
        lemma_doc_spans_facts(docs, id, init, i, j, q);
        lemma_postings_facts(docs, t, i, q);
        let ps = postings_spec(docs, t);
        let want = if 0 <= i < docs.len() && 0 <= q < docs[i].tokens.len() {
            TermPositionModel {
                doc_id: docs[i].id,
                start: docs[i].tokens[q].start,
                end: docs[i].tokens[q].end,
                kind: docs[i].tokens[q].kind,
            }
        } else {
            TermPositionModel { doc_id: 0, start: 0, end: 0, kind: crate::tokenizer::TokenKind::Symbol }
        };
        lemma_posting_spans_facts(ps, id, want);
        let a = doc_spans(docs, id, init);
        let b = posting_spans(ps, id);
        assert(doc_spans(docs, id, terms) == a + b);
        assert forall|k: int| 0 <= k < (a + b).len() implies (#[trigger] (a + b)[k]).0 < (a + b)[k].1 by {
            if k < a.len() {
                assert((a + b)[k] == a[k]);
            } else {
                assert((a + b)[k] == b[k - a.len()]);
            }
        }
        if 0 <= i < docs.len() && docs[i].id == id && 0 <= j < terms.len() && 0 <= q < docs[i].tokens.len()
            && docs[i].tokens[q].text == terms[j] {
            let sp = (docs[i].tokens[q].start, docs[i].tokens[q].end);
            if j < init.len() {
                assert(init[j] == terms[j]);
                let k = choose|k: int| 0 <= k < a.len() && a[k] == sp;
                assert((a + b)[k] == sp);
            } else {
                assert(terms[j] == t);
                let k = choose|k: int| 0 <= k < b.len() && b[k] == sp;
                assert((a + b)[a.len() + k] == sp);
            }
        }
    }
}

/// Highlighting marks every occurrence: for each query term (in whatever order the terms
/// come) and each token of the document with that term's text, some marked span contains
/// the token's bytes. The marked spans are non-empty, in increasing order, and do not
/// overlap; the snippet starts at the earliest occurrence and ends with the latest, and there
/// is a snippet exactly when the document exists and some query term occurs in it.
pub proof fn lemma_highlight_law(m: crate::index::IndexModel, id: int, terms: Seq<Seq<char>>, open: Seq<char>, close: Seq<char>)
    requires
        crate::index::index_wf(m),
    ensures
        ({
            let spans = doc_spans(m.docs, id, terms);
            let marks = merge_spec(sort_by_start(spans));
            &&& forall|i: int, j: int, q: int|
                0 <= i < m.docs.len() && (#[trigger] m.docs[i]).id == id && 0 <= j < terms.len() && 0 <= q < m.docs[i].tokens.len()
                    && #[trigger] m.docs[i].tokens[q].text == #[trigger] terms[j] ==> covered(
                    marks,
                    (m.docs[i].tokens[q].start, m.docs[i].tokens[q].end),
                )
            &&& spans_nonempty(marks)
            &&& forall|a: int, b: int| 0 <= a < b < marks.len() ==> (#[trigger] marks[a]).1 <= (#[trigger] marks[b]).0
            &&& match snippet_spec(m.docs, id, terms, open, close) {
                Some(x) => {
                    &&& forall|k: int| 0 <= k < spans.len() ==> x.start <= (#[trigger] spans[k]).0 && spans[k].1 <= x.end
                    &&& exists|k: int| 0 <= k < spans.len() && (#[trigger] spans[k]).0 == x.start
                    &&& exists|k: int| 0 <= k < spans.len() && (#[trigger] spans[k]).1 == x.end
                },
                None => !has_id(m.docs, id) || spans.len() == 0,
            }
        }),
{
    let spans = doc_spans(m.docs, id, terms);
    let marks = merge_spec(sort_by_start(spans));
    lemma_doc_spans_facts(m.docs, id, terms, 0, 0, 0);
    lemma_sorted_merge(spans);
    assert forall|i: int, j: int, q: int|
        0 <= i < m.docs.len() && (#[trigger] m.docs[i]).id == id && 0 <= j < terms.len() && 0 <= q < m.docs[i].tokens.len()
            && #[trigger] m.docs[i].tokens[q].text == #[trigger] terms[j] implies covered(
            marks,
            (m.docs[i].tokens[q].start, m.docs[i].tokens[q].end),
        ) by {
        lemma_doc_spans_facts(m.docs, id, terms, i, j, q);
        let sp = (m.docs[i].tokens[q].start, m.docs[i].tokens[q].end);
        let k = choose|k: int| 0 <= k < spans.len() && spans[k] == sp;
        assert(covered(marks, spans[k]));
    }
}

} // verus!
