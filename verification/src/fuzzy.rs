//! Edit distances and typo-tolerant term matching.
use vstd::prelude::*;

use crate::text::{chars_of, copy_string, strings_view};

verus! {

pub open spec fn min2(x: int, y: int) -> int {
    if x <= y {
        x
    } else {
        y
    }
}

pub open spec fn max2(x: int, y: int) -> int {
    if x >= y {
        x
    } else {
        y
    }
}

// ==================== Levenshtein ====================

/// Levenshtein distance: the least number of single-character insertions, deletions and
/// substitutions that turn `a` into `b`.
pub open spec fn lev(a: Seq<char>, b: Seq<char>) -> int
    decreases a.len() + b.len(),
{
    if a.len() == 0 {
        b.len() as int
    } else if b.len() == 0 {
        a.len() as int
    } else {
        let cost: int = if a.last() == b.last() {
            0
        } else {
            1
        };
        min2(
            lev(a, b.drop_last()) + 1,
            min2(lev(a.drop_last(), b) + 1, lev(a.drop_last(), b.drop_last()) + cost),
        )
    }
}

pub proof fn lemma_lev_bounds(a: Seq<char>, b: Seq<char>)
    ensures
        0 <= lev(a, b) <= max2(a.len() as int, b.len() as int),
    decreases a.len() + b.len(),
{
    if a.len() > 0 && b.len() > 0 {
        lemma_lev_bounds(a, b.drop_last());
        lemma_lev_bounds(a.drop_last(), b);
        lemma_lev_bounds(a.drop_last(), b.drop_last());
    }
}

/// The difference of two lengths is a lower bound of the distance.
pub proof fn lemma_lev_len_diff(a: Seq<char>, b: Seq<char>)
    ensures
        lev(a, b) >= a.len() - b.len(),
        lev(a, b) >= b.len() - a.len(),
    decreases a.len() + b.len(),
{
    if a.len() > 0 && b.len() > 0 {
        lemma_lev_len_diff(a, b.drop_last());
        lemma_lev_len_diff(a.drop_last(), b);
        lemma_lev_len_diff(a.drop_last(), b.drop_last());
    }
}

/// The distance does not depend on the order of the two strings.
pub proof fn lemma_lev_symmetric(a: Seq<char>, b: Seq<char>)
    ensures
        lev(a, b) == lev(b, a),
    decreases a.len() + b.len(),
{
    if a.len() > 0 && b.len() > 0 {
        lemma_lev_symmetric(a, b.drop_last());
        lemma_lev_symmetric(a.drop_last(), b);
        lemma_lev_symmetric(a.drop_last(), b.drop_last());
    }
}

/// The triangle inequality: going from `a` to `c` by way of `b` is never shorter than going
/// straight.
pub proof fn lemma_lev_triangle(a: Seq<char>, b: Seq<char>, c: Seq<char>)
    ensures
        lev(a, c) <= lev(a, b) + lev(b, c),
    decreases a.len() + b.len() + c.len(),
{
    lemma_lev_bounds(a, b);
    lemma_lev_bounds(b, c);
    lemma_lev_bounds(a, c);
    lemma_lev_len_diff(a, b);
    lemma_lev_len_diff(b, c);
    if a.len() > 0 && b.len() > 0 && c.len() > 0 {
        let a1 = a.drop_last();
        let b1 = b.drop_last();
        let c1 = c.drop_last();
        lemma_lev_triangle(a1, b, c);
        lemma_lev_triangle(a, b, c1);
        lemma_lev_triangle(a, b1, c);
        lemma_lev_triangle(a, b1, c1);
        lemma_lev_triangle(a1, b1, c);
        lemma_lev_triangle(a1, b1, c1);
    }
}

proof fn lemma_lev_self(a: Seq<char>)
    ensures
        lev(a, a) == 0,
    decreases a.len(),
{
    if a.len() > 0 {
        lemma_lev_self(a.drop_last());
        lemma_lev_bounds(a, a);
    }
}

/// A string is at distance zero from itself, and only from itself.
pub proof fn lemma_lev_zero(a: Seq<char>, b: Seq<char>)
    ensures
        lev(a, a) == 0,
        lev(a, b) == 0 ==> a == b,
    decreases a.len() + b.len(),
{
    lemma_lev_self(a);
    if a.len() > 0 && b.len() > 0 {
        lemma_lev_zero(a.drop_last(), b.drop_last());
        lemma_lev_bounds(a, b.drop_last());
        lemma_lev_bounds(a.drop_last(), b);
        lemma_lev_bounds(a.drop_last(), b.drop_last());
        if lev(a, b) == 0 {
            assert(a.drop_last() == b.drop_last());
            assert(a.last() == b.last());
            assert(a =~= a.drop_last().push(a.last()));
            assert(b =~= b.drop_last().push(b.last()));
        }
    } else if lev(a, b) == 0 {
        assert(a =~= b);
    }
}

fn min_usize(x: usize, y: usize) -> (r: usize)
    ensures
        r == min2(x as int, y as int),
{
    if x <= y {
        x
    } else {
        y
    }
}

/// Levenshtein distance between two strings, counted in characters.
pub fn levenshtein_distance(a: &str, b: &str) -> (d: usize)
    ensures
        d == lev(a@, b@),
{
    let a_chars = chars_of(a);
    let b_chars = chars_of(b);
    let ghost sa = a@;
    let ghost sb = b@;
    let a_len = a_chars.len();
    let b_len = b_chars.len();
    if a_len == 0 {
        return b_len;
    }
    if b_len == 0 {
        return a_len;
    }
    // prev[j] = lev(a[..i], b[..j])
    let mut prev: Vec<usize> = Vec::new();
    let mut j: usize = 0;
    while j < b_len
        invariant
            j <= b_len == sb.len(),
            prev@.len() == j,
            forall|k: int| 0 <= k < j ==> prev@[k] == lev(sa.take(0), sb.take(k)),
        decreases b_len - j,
    {
        proof {
            assert(sa.take(0).len() == 0);
        }
        prev.push(j);
        j += 1;
    }
    proof {
        assert(sa.take(0).len() == 0);
    }
    prev.push(b_len);
    let plen = prev.len();
    assert(plen == b_len + 1);
    let mut i: usize = 0;
    while i < a_len
        invariant
            a_chars@ == sa,
            b_chars@ == sb,
            a_len == sa.len(),
            b_len == sb.len(),
            b_len < usize::MAX,
            a_len > 0,
            b_len > 0,
            i <= a_len,
            prev@.len() == b_len + 1,
            forall|k: int| 0 <= k <= b_len ==> prev@[k] == lev(sa.take(i as int), sb.take(k)),
        decreases a_len - i,
    {
        let mut cur: Vec<usize> = Vec::new();
        proof {
            assert(sb.take(0).len() == 0);
            assert(sa.take(i + 1).len() == i + 1);
        }
        cur.push(i + 1);
        let mut j: usize = 1;
        while j <= b_len
            invariant
                a_chars@ == sa,
                b_chars@ == sb,
                a_len == sa.len(),
                b_len == sb.len(),
                b_len < usize::MAX,
                i < a_len,
                1 <= j <= b_len + 1,
                prev@.len() == b_len + 1,
                cur@.len() == j,
                forall|k: int| 0 <= k <= b_len ==> prev@[k] == lev(sa.take(i as int), sb.take(k)),
                forall|k: int| 0 <= k < j ==> cur@[k] == lev(sa.take(i + 1), sb.take(k)),
            decreases b_len + 1 - j,
        {
            let ghost x = sa.take(i + 1);
            let ghost y = sb.take(j as int);
            proof {
                assert(x.drop_last() =~= sa.take(i as int));
                assert(y.drop_last() =~= sb.take(j - 1));
                assert(x.last() == sa[i as int]);
                assert(y.last() == sb[j - 1]);
                lemma_lev_bounds(x, y.drop_last());
                lemma_lev_bounds(x.drop_last(), y);
                lemma_lev_bounds(x.drop_last(), y.drop_last());
                lemma_lev_bounds(x, y);
            }
            let cost: usize = if a_chars[i] == b_chars[j - 1] {
                0
            } else {
                1
            };
            let ins = cur[j - 1].saturating_add(1);
            let del = prev[j].saturating_add(1);
            let sub = prev[j - 1].saturating_add(cost);
            let v = min_usize(ins, min_usize(del, sub));
            proof {
                assert(v == lev(x, y));
            }
            cur.push(v);
            j += 1;
        }
        prev = cur;
        i += 1;
    }
    proof {
        assert(sa.take(a_len as int) =~= sa);
        assert(sb.take(b_len as int) =~= sb);
    }
    prev[b_len]
}

/// Check if two strings are a fuzzy match within tolerance.
pub fn is_fuzzy_match(query: &str, target: &str, max_distance: usize) -> (r: bool)
    ensures
        r == (lev(query@, target@) <= max_distance),
{
    levenshtein_distance(query, target) <= max_distance
}

// ==================== Damerau-Levenshtein ====================

/// The largest `r` in `1..=k` with `s[r - 1] == ch`, or 0 when there is none.
pub open spec fn last_match(s: Seq<char>, ch: char, k: int) -> int
    decreases k,
{
    if k <= 0 {
        0
    } else if s[k - 1] == ch {
        k
    } else {
        last_match(s, ch, k - 1)
    }
}

pub proof fn lemma_last_match_bounds(s: Seq<char>, ch: char, k: int)
    ensures
        k >= 0 ==> 0 <= last_match(s, ch, k) <= k,
    decreases k,
{
    if k > 0 {
        lemma_last_match_bounds(s, ch, k - 1);
    }
}

/// Cell `(r, c)` of the table of the unrestricted Damerau-Levenshtein distance (with adjacent
/// transpositions), in the layout with a sentinel row and column: row and column 0 hold
/// `|a| + |b|`, cell `(r, 1)` is `r - 1` and cell `(1, c)` is `c - 1`; every other cell is the
/// cheapest of a substitution, an insertion, a deletion and a transposition from the last rows
/// and columns where the two characters occurred.
pub open spec fn dl_cell(a: Seq<char>, b: Seq<char>, r: int, c: int) -> int
    decreases r + c,
{
    let maxd: int = (a.len() + b.len()) as int;
    if r <= 0 || c <= 0 {
        maxd
    } else if r == 1 {
        c - 1
    } else if c == 1 {
        r - 1
    } else {
        let i = r - 1;
        let j = c - 1;
        let cost: int = if a[i - 1] == b[j - 1] {
            0
        } else {
            1
        };
        let i1 = last_match(a, b[j - 1], i - 1);
        let j1 = last_match(b, a[i - 1], j - 1);
        let trans = if 0 <= i1 < r && 0 <= j1 < c {
            dl_cell(a, b, i1, j1) + (i - i1 - 1) + 1 + (j - j1 - 1)
        } else {
            maxd
        };
        min2(
            dl_cell(a, b, i, j) + cost,
            min2(dl_cell(a, b, r, j) + 1, min2(dl_cell(a, b, i, c) + 1, trans)),
        )
    }
}

/// Damerau-Levenshtein distance of two character sequences.
pub open spec fn damerau(a: Seq<char>, b: Seq<char>) -> int {
    dl_cell(a, b, a.len() + 1 as int, b.len() + 1 as int)
}

pub proof fn lemma_dl_cell_bounds(a: Seq<char>, b: Seq<char>, r: int, c: int)
    requires
        0 <= r <= a.len() + 1,
        0 <= c <= b.len() + 1,
    ensures
        0 <= dl_cell(a, b, r, c) <= a.len() + b.len(),
    decreases r + c,
{
    if r > 1 && c > 1 {
        lemma_dl_cell_bounds(a, b, r - 1, c - 1);
        lemma_dl_cell_bounds(a, b, r, c - 1);
        lemma_dl_cell_bounds(a, b, r - 1, c);
        let i = r - 1;
        let j = c - 1;
        lemma_last_match_bounds(a, b[j - 1], i - 1);
        lemma_last_match_bounds(b, a[i - 1], j - 1);
        let i1 = last_match(a, b[j - 1], i - 1);
        let j1 = last_match(b, a[i - 1], j - 1);
        lemma_dl_cell_bounds(a, b, i1, j1);
        lemma_dl_cell_max(a, b, r - 1, c - 1);
    }
}

proof fn lemma_dl_cell_max(a: Seq<char>, b: Seq<char>, r: int, c: int)
    requires
        1 <= r <= a.len() + 1,
        1 <= c <= b.len() + 1,
    ensures
        dl_cell(a, b, r, c) <= max2(r - 1, c - 1),
    decreases r + c,
{
    if r > 1 && c > 1 {
        lemma_dl_cell_max(a, b, r - 1, c - 1);
    }
}

proof fn lemma_dl_cell_le_lev(a: Seq<char>, b: Seq<char>, r: int, c: int)
    requires
        1 <= r <= a.len() + 1,
        1 <= c <= b.len() + 1,
    ensures
        dl_cell(a, b, r, c) <= lev(a.take(r - 1), b.take(c - 1)),
    decreases r + c,
{
    let x = a.take(r - 1);
    let y = b.take(c - 1);
    if r == 1 {
        assert(x.len() == 0);
    } else if c == 1 {
        assert(y.len() == 0);
    } else {
        let i = r - 1;
        let j = c - 1;
        lemma_dl_cell_le_lev(a, b, i, j);
        lemma_dl_cell_le_lev(a, b, r, j);
        lemma_dl_cell_le_lev(a, b, i, c);
        assert(x.drop_last() =~= a.take(i - 1));
        assert(y.drop_last() =~= b.take(j - 1));
        assert(x.last() == a[i - 1]);
        assert(y.last() == b[j - 1]);
    }
}

proof fn lemma_dl_cell_zero(a: Seq<char>, b: Seq<char>, r: int, c: int)
    requires
        1 <= r <= a.len() + 1,
        1 <= c <= b.len() + 1,
        dl_cell(a, b, r, c) == 0,
    ensures
        a.take(r - 1) == b.take(c - 1),
    decreases r + c,
{
    if r == 1 {
        assert(c == 1);
        assert(a.take(0) =~= b.take(0));
    } else if c == 1 {
        assert(r == 1);
    } else {
        let i = r - 1;
        let j = c - 1;
        lemma_dl_cell_bounds(a, b, i, j);
        lemma_dl_cell_bounds(a, b, r, j);
        lemma_dl_cell_bounds(a, b, i, c);
        lemma_last_match_bounds(a, b[j - 1], i - 1);
        lemma_last_match_bounds(b, a[i - 1], j - 1);
        let i1 = last_match(a, b[j - 1], i - 1);
        let j1 = last_match(b, a[i - 1], j - 1);
        lemma_dl_cell_bounds(a, b, i1, j1);
        assert(dl_cell(a, b, i, j) == 0 && a[i - 1] == b[j - 1]);
        lemma_dl_cell_zero(a, b, i, j);
        assert(a.take(r - 1) =~= a.take(i - 1).push(a[i - 1]));
        assert(b.take(c - 1) =~= b.take(j - 1).push(b[j - 1]));
    }
}

/// The Damerau-Levenshtein distance never exceeds the Levenshtein distance, is zero from a
/// string to itself, and is zero only between equal strings.
pub proof fn lemma_damerau_laws(a: Seq<char>, b: Seq<char>)
    ensures
        0 <= damerau(a, b) <= lev(a, b),
        damerau(a, a) == 0,
        damerau(a, b) == 0 ==> a == b,
{
    let la = a.len() + 1int;
    let lb = b.len() + 1int;
    lemma_dl_cell_bounds(a, b, la, lb);
    lemma_dl_cell_bounds(a, a, la, la);
    lemma_dl_cell_le_lev(a, b, la, lb);
    lemma_dl_cell_le_lev(a, a, la, la);
    assert(a.take(a.len() as int) =~= a);
    assert(b.take(b.len() as int) =~= b);
    lemma_lev_self(a);
    if damerau(a, b) == 0 {
        lemma_dl_cell_zero(a, b, la, lb);
    }
}

proof fn lemma_dl_cell_symmetric(a: Seq<char>, b: Seq<char>, r: int, c: int)
    ensures
        dl_cell(a, b, r, c) == dl_cell(b, a, c, r),
    decreases r + c,
{
    if r > 1 && c > 1 {
        let i = r - 1;
        let j = c - 1;
        lemma_dl_cell_symmetric(a, b, i, j);
        lemma_dl_cell_symmetric(a, b, r, j);
        lemma_dl_cell_symmetric(a, b, i, c);
        let i1 = last_match(a, b[j - 1], i - 1);
        let j1 = last_match(b, a[i - 1], j - 1);
        if 0 <= i1 < r && 0 <= j1 < c {
            lemma_dl_cell_symmetric(a, b, i1, j1);
        }
    }
}

/// The Damerau-Levenshtein distance does not depend on the order of the two strings.
pub proof fn lemma_damerau_symmetric(a: Seq<char>, b: Seq<char>)
    ensures
        damerau(a, b) == damerau(b, a),
{
    lemma_dl_cell_symmetric(a, b, a.len() + 1int, b.len() + 1int);
}

proof fn lemma_dl_cell_len_diff(a: Seq<char>, b: Seq<char>, r: int, c: int)
    requires
        1 <= r <= a.len() + 1,
        1 <= c <= b.len() + 1,
    ensures
        dl_cell(a, b, r, c) >= r - c,
        dl_cell(a, b, r, c) >= c - r,
    decreases r + c,
{
    if r > 1 && c > 1 {
        let i = r - 1;
        let j = c - 1;
        lemma_dl_cell_len_diff(a, b, i, j);
        lemma_dl_cell_len_diff(a, b, r, j);
        lemma_dl_cell_len_diff(a, b, i, c);
        lemma_last_match_bounds(a, b[j - 1], i - 1);
        lemma_last_match_bounds(b, a[i - 1], j - 1);
        let i1 = last_match(a, b[j - 1], i - 1);
        let j1 = last_match(b, a[i - 1], j - 1);
        let maxd: int = (a.len() + b.len()) as int;
        if 1 <= i1 && 1 <= j1 {
            lemma_dl_cell_len_diff(a, b, i1, j1);
        } else {
            assert(dl_cell(a, b, i1, j1) == maxd);
        }
        let trans = if 0 <= i1 < r && 0 <= j1 < c {
            dl_cell(a, b, i1, j1) + (i - i1 - 1) + 1 + (j - j1 - 1)
        } else {
            maxd
        };
        assert(trans >= r - c && trans >= c - r);
        assert(dl_cell(a, b, r, c) == min2(
            dl_cell(a, b, i, j) + (if a[i - 1] == b[j - 1] { 0int } else { 1int }),
            min2(dl_cell(a, b, r, j) + 1, min2(dl_cell(a, b, i, c) + 1, trans)),
        ));
    }
}

/// The Damerau-Levenshtein distance is at least the difference of the lengths, and from the
/// empty string it is the other string's length.
pub proof fn lemma_damerau_len_diff(a: Seq<char>, b: Seq<char>)
    ensures
        damerau(a, b) >= a.len() - b.len(),
        damerau(a, b) >= b.len() - a.len(),
        damerau(Seq::<char>::empty(), b) == b.len(),
{
    lemma_dl_cell_len_diff(a, b, a.len() + 1int, b.len() + 1int);
}

/// Whether `a` can be turned into `b` with edits of total cost at most `k`, working from the
/// ends of the strings: keeping an equal last character (free), deleting the last character
/// of `a`, inserting the last character of `b`, substituting one last character for the
/// other (each costs 1), or a transposition: when `a` ends `x g y` and `b` ends `y h x`,
/// swapping `x` and `y` across the gaps costs the gap in `a` plus the gap in `b` plus one.
pub open spec fn edits_within(a: Seq<char>, b: Seq<char>, k: int) -> bool
    decreases a.len() + b.len(),
{
    ||| (a == b && k >= 0)
    ||| (k >= 1 && a.len() > 0 && edits_within(a.drop_last(), b, k - 1))
    ||| (k >= 1 && b.len() > 0 && edits_within(a, b.drop_last(), k - 1))
    ||| (k >= 1 && a.len() > 0 && b.len() > 0 && edits_within(a.drop_last(), b.drop_last(), k - 1))
    ||| (a.len() > 0 && b.len() > 0 && a.last() == b.last() && edits_within(a.drop_last(), b.drop_last(), k))
    ||| exists|p: int, q: int|
        #![trigger a[p], b[q]]
        0 <= p < a.len() - 1 && 0 <= q < b.len() - 1 && a[p] == b.last() && b[q] == a.last() && edits_within(
            a.take(p),
            b.take(q),
            k - (a.len() - p - 2) - (b.len() - q - 2) - 1,
        )
}

proof fn lemma_last_match_hit(s: Seq<char>, ch: char, k: int)
    requires
        k <= s.len(),
    ensures
        last_match(s, ch, k) >= 1 ==> s[last_match(s, ch, k) - 1] == ch,
    decreases k,
{
    if k > 0 && s[k - 1] != ch {
        lemma_last_match_hit(s, ch, k - 1);
    }
}

proof fn lemma_edits_insert_all(b: Seq<char>)
    ensures
        edits_within(Seq::<char>::empty(), b, b.len() as int),
    decreases b.len(),
{
    if b.len() > 0 {
        lemma_edits_insert_all(b.drop_last());
    } else {
        assert(Seq::<char>::empty() == b);
    }
}

proof fn lemma_edits_delete_all(a: Seq<char>)
    ensures
        edits_within(a, Seq::<char>::empty(), a.len() as int),
    decreases a.len(),
{
    if a.len() > 0 {
        lemma_edits_delete_all(a.drop_last());
    } else {
        assert(a == Seq::<char>::empty());
    }
}

proof fn lemma_dl_cell_achievable(a: Seq<char>, b: Seq<char>, r: int, c: int)
    requires
        1 <= r <= a.len() + 1,
        1 <= c <= b.len() + 1,
    ensures
        edits_within(a.take(r - 1), b.take(c - 1), dl_cell(a, b, r, c)),
    decreases r + c,
{
    let x = a.take(r - 1);
    let y = b.take(c - 1);
    if r == 1 {
        assert(x =~= Seq::<char>::empty());
        lemma_edits_insert_all(y);
        assert(edits_within(x, y, dl_cell(a, b, r, c)));
    } else if c == 1 {
        assert(y =~= Seq::<char>::empty());
        lemma_edits_delete_all(x);
        assert(edits_within(x, y, dl_cell(a, b, r, c)));
    } else {
        let i = r - 1;
        let j = c - 1;
        let maxd: int = (a.len() + b.len()) as int;
        lemma_dl_cell_max(a, b, r, c);
        lemma_dl_cell_bounds(a, b, i, j);
        lemma_dl_cell_bounds(a, b, r, j);
        lemma_dl_cell_bounds(a, b, i, c);
        lemma_dl_cell_achievable(a, b, i, j);
        lemma_dl_cell_achievable(a, b, r, j);
        lemma_dl_cell_achievable(a, b, i, c);
        assert(x.drop_last() =~= a.take(i - 1));
        assert(y.drop_last() =~= b.take(j - 1));
        assert(x.last() == a[i - 1]);
        assert(y.last() == b[j - 1]);
        let cost: int = if a[i - 1] == b[j - 1] { 0 } else { 1 };
        lemma_last_match_bounds(a, b[j - 1], i - 1);
        lemma_last_match_bounds(b, a[i - 1], j - 1);
        lemma_last_match_hit(a, b[j - 1], i - 1);
        lemma_last_match_hit(b, a[i - 1], j - 1);
        let i1 = last_match(a, b[j - 1], i - 1);
        let j1 = last_match(b, a[i - 1], j - 1);
        let v = dl_cell(a, b, r, c);
        if v == dl_cell(a, b, i, j) + cost {
            if cost == 0 {
                assert(x.len() > 0 && y.len() > 0 && x.last() == y.last() && edits_within(x.drop_last(), y.drop_last(), v));
                assert(edits_within(x, y, v));
            } else {
                assert(v >= 1 && x.len() > 0 && y.len() > 0 && edits_within(x.drop_last(), y.drop_last(), v - 1));
                assert(edits_within(x, y, v));
            }
        } else if v == dl_cell(a, b, r, j) + 1 {
            assert(b.take(j - 1) =~= y.drop_last());
            assert(v >= 1 && y.len() > 0 && edits_within(x, y.drop_last(), v - 1));
            assert(edits_within(x, y, v));
        } else if v == dl_cell(a, b, i, c) + 1 {
            assert(v >= 1 && x.len() > 0 && edits_within(x.drop_last(), y, v - 1));
            assert(edits_within(x, y, v));
        } else {
            if i1 >= 1 && j1 >= 1 {
                lemma_dl_cell_achievable(a, b, i1, j1);
                let p = i1 - 1;
                let q = j1 - 1;
                assert(x[p] == a[i1 - 1]);
                assert(y[q] == b[j1 - 1]);
                assert(x.take(p) =~= a.take(i1 - 1));
                assert(y.take(q) =~= b.take(j1 - 1));
                assert(edits_within(x.take(p), y.take(q), v - (x.len() - p - 2) - (y.len() - q - 2) - 1));
                assert(0 <= p < x.len() - 1);
                assert(0 <= q < y.len() - 1);
                assert(x[p] == y.last());
                assert(y[q] == x.last());
                assert(edits_within(x, y, v));
            } else {
                if i1 < 1 {
                    assert(dl_cell(a, b, i1, j1) == maxd);
                } else {
                    assert(dl_cell(a, b, i1, j1) == maxd);
                }
                assert(false);
            }
        }
    }
}

/// The Damerau-Levenshtein distance is a cost that some sequence of edits actually achieves:
/// `a` turns into `b` by insertions, deletions and substitutions (one each) and
/// transpositions across gaps (the two gaps plus one) costing `damerau(a, b)` in all, so the
/// distance is never smaller than the cheapest such sequence.
pub proof fn lemma_damerau_achievable(a: Seq<char>, b: Seq<char>)
    ensures
        edits_within(a, b, damerau(a, b)),
{
    lemma_dl_cell_achievable(a, b, a.len() + 1int, b.len() + 1int);
    assert(a.take(a.len() as int) =~= a);
    assert(b.take(b.len() as int) =~= b);
}

/// Compute Damerau-Levenshtein distance (includes transpositions).
pub fn damerau_levenshtein(a: &str, b: &str) -> (d: usize)
    requires
        (a@.len() + 2) * (b@.len() + 2) <= usize::MAX,
    ensures
        d == damerau(a@, b@),
{
    let a_chars = chars_of(a);
    let b_chars = chars_of(b);
    let ghost sa = a@;
    let ghost sb = b@;
    let m = a_chars.len();
    let n = b_chars.len();
    proof {
        assert((m + 2) * (n + 2) == m * n + 2 * m + 2 * n + 4) by (nonlinear_arith);
        assert(m * n >= 0) by (nonlinear_arith);
        assert(2 * m + 2 * n + 4 <= usize::MAX);
    }
    let maxd = m + n;
    let mut rows: Vec<Vec<usize>> = Vec::new();
    let mut row0: Vec<usize> = Vec::new();
    let mut c: usize = 0;
    while c < n + 2
        invariant
            c <= n + 2,
            maxd == sa.len() + sb.len(),
            row0@.len() == c,
            forall|k: int| 0 <= k < c ==> row0@[k] == dl_cell(sa, sb, 0, k),
            m + n + 4 <= usize::MAX,
        decreases n + 2 - c,
    {
        row0.push(maxd);
        c += 1;
    }
    let mut row1: Vec<usize> = Vec::new();
    row1.push(maxd);
    let mut c: usize = 1;
    while c < n + 2
        invariant
            1 <= c <= n + 2,
            maxd == sa.len() + sb.len(),
            row1@.len() == c,
            forall|k: int| 0 <= k < c ==> row1@[k] == dl_cell(sa, sb, 1, k),
            m + n + 4 <= usize::MAX,
        decreases n + 2 - c,
    {
        row1.push(c - 1);
        c += 1;
    }
    rows.push(row0);
    rows.push(row1);
    // lastr[j] = last row (among those already computed) whose character equals b[j - 1]
    let mut lastr: Vec<usize> = Vec::new();
    let mut j: usize = 0;
    while j < n + 1
        invariant
            j <= n + 1,
            lastr@.len() == j,
            forall|k: int| 0 <= k < j ==> lastr@[k] == 0,
            m + n + 4 <= usize::MAX,
        decreases n + 1 - j,
    {
        lastr.push(0);
        j += 1;
    }
    let mut i: usize = 1;
    while i <= m
        invariant
            a_chars@ == sa,
            b_chars@ == sb,
            m == sa.len(),
            n == sb.len(),
            maxd == m + n,
            2 * m + 2 * n + 4 <= usize::MAX,
            1 <= i <= m + 1,
            rows@.len() == i + 1,
            forall|r: int| 0 <= r <= i ==> (#[trigger] rows@[r])@.len() == n + 2,
            forall|r: int, k: int|
                0 <= r <= i && 0 <= k < n + 2 ==> #[trigger] rows@[r]@[k] == dl_cell(
                    sa,
                    sb,
                    r,
                    k,
                ),
            lastr@.len() == n + 1,
            forall|k: int| 1 <= k <= n ==> #[trigger] lastr@[k] == last_match(sa, sb[k - 1], i - 1),
        decreases m + 1 - i,
    {
        let mut cur: Vec<usize> = Vec::new();
        cur.push(maxd);
        cur.push(i);
        let mut db: usize = 0;
        let mut j: usize = 1;
        while j <= n
            invariant
                a_chars@ == sa,
                b_chars@ == sb,
                m == sa.len(),
                n == sb.len(),
                maxd == m + n,
                2 * m + 2 * n + 4 <= usize::MAX,
                1 <= i <= m,
                1 <= j <= n + 1,
                rows@.len() == i + 1,
                forall|r: int| 0 <= r <= i ==> (#[trigger] rows@[r])@.len() == n + 2,
                forall|r: int, k: int|
                    0 <= r <= i && 0 <= k < n + 2 ==> #[trigger] rows@[r]@[k] == dl_cell(
                        sa,
                        sb,
                        r,
                        k,
                    ),
                lastr@.len() == n + 1,
                forall|k: int|
                    1 <= k <= n ==> #[trigger] lastr@[k] == last_match(sa, sb[k - 1], i - 1),
                cur@.len() == j + 1,
                forall|k: int| 0 <= k <= j ==> cur@[k] == dl_cell(sa, sb, i + 1, k),
                db == last_match(sb, sa[i - 1], j - 1),
            decreases n + 1 - j,
        {
            let i1 = lastr[j];
            let j1 = db;
            proof {
                assert(lastr@[j as int] == last_match(sa, sb[j - 1], i - 1));
                lemma_last_match_bounds(sa, sb[j - 1], i - 1);
                lemma_last_match_bounds(sb, sa[i - 1], j - 1);
                lemma_dl_cell_bounds(sa, sb, i as int, j as int);
                lemma_dl_cell_bounds(sa, sb, i + 1, j as int);
                lemma_dl_cell_bounds(sa, sb, i as int, j + 1);
                lemma_dl_cell_bounds(sa, sb, i1 as int, j1 as int);
                assert(rows@[i1 as int]@.len() == n + 2);
                assert(rows@[i1 as int]@[j1 as int] == dl_cell(sa, sb, i1 as int, j1 as int));
            }
            let cost: usize = if a_chars[i - 1] == b_chars[j - 1] {
                db = j;
                0
            } else {
                1
            };
            let sub = rows[i][j] + cost;
            let ins = cur[j] + 1;
            let del = rows[i][j + 1] + 1;
            let trans = rows[i1][j1] + (i - i1 - 1) + 1 + (j - j1 - 1);
            let v = min_usize(sub, min_usize(ins, min_usize(del, trans)));
            proof {
                assert(v == dl_cell(sa, sb, i + 1, j + 1));
            }
            cur.push(v);
            j += 1;
        }
        rows.push(cur);
        let mut k: usize = 1;
        while k <= n
            invariant
                a_chars@ == sa,
                b_chars@ == sb,
                m == sa.len(),
                n == sb.len(),
                1 <= i <= m,
                1 <= k <= n + 1,
                m + n + 4 <= usize::MAX,
                lastr@.len() == n + 1,
                forall|q: int| 1 <= q < k ==> #[trigger] lastr@[q] == last_match(sa, sb[q - 1], i as int),
                forall|q: int|
                    k <= q <= n ==> #[trigger] lastr@[q] == last_match(sa, sb[q - 1], i - 1),
            decreases n + 1 - k,
        {
            if b_chars[k - 1] == a_chars[i - 1] {
                lastr.set(k, i);
            }
            k += 1;
        }
        i += 1;
    }
    let d = rows[m + 1][n + 1];
    d
}

// ==================== ranked fuzzy matching ====================

/// A term within the edit distance of a query term.
#[derive(Debug, Clone, PartialEq, Eq)]
pub struct FuzzyCandidate {
    /// The matched term
    pub term: String,
    /// Edit distance from the query term
    pub distance: usize,
}

/// The edit distance that fuzzy matching uses: the requested one, capped at 3.
pub open spec fn effective_distance(max_distance: int) -> int {
    min2(max_distance, 3)
}

/// Whether `c` is a fuzzy match of `t`: both the length difference and the edit distance are
/// within the (capped) distance.
pub open spec fn fuzzy_accepts(t: Seq<char>, c: Seq<char>, max_distance: int) -> bool {
    let m = effective_distance(max_distance);
    &&& t.len() - c.len() <= m
    &&& c.len() - t.len() <= m
    &&& lev(t, c) <= m
}

/// Relevance of a match of `c` at distance `d`, as the exact fraction
/// `0.7 * (1 - d / max(m, 1)) + 0.3 * min(|t|, |c|) / max(|t|, |c|, 1)`;
/// its numerator over the common factor `10 * max(m, 1)` is
/// `7 * (m' - d) * mx + 3 * m' * mn`, and its denominator is `mx`.
pub open spec fn score_numerator(tlen: int, clen: int, d: int, m: int) -> int {
    let mp = max2(m, 1);
    let mx = max2(max2(tlen, clen), 1);
    let mn = min2(tlen, clen);
    7 * (mp - d) * mx + 3 * mp * mn
}

pub open spec fn score_denominator(tlen: int, clen: int) -> int {
    max2(max2(tlen, clen), 1)
}

/// Whether match `x` scores strictly higher than match `y` (both against `t`).
pub open spec fn scores_above(t: Seq<char>, x: (Seq<char>, int), y: (Seq<char>, int), m: int) -> bool {
    score_numerator(t.len() as int, x.0.len() as int, x.1, m) * score_denominator(
        t.len() as int,
        y.0.len() as int,
    ) > score_numerator(t.len() as int, y.0.len() as int, y.1, m) * score_denominator(
        t.len() as int,
        x.0.len() as int,
    )
}

/// Stable insertion by descending score: `x` goes before the first entry it outscores.
pub open spec fn insert_ranked(t: Seq<char>, m: int, acc: Seq<(Seq<char>, int)>, x: (Seq<char>, int)) -> Seq<
    (Seq<char>, int),
>
    decreases acc.len(),
{
    if acc.len() == 0 {
        seq![x]
    } else if scores_above(t, x, acc[0], m) {
        seq![x] + acc
    } else {
        seq![acc[0]] + insert_ranked(t, m, acc.drop_first(), x)
    }
}

/// All fuzzy matches of `t` among `cands` with their distances, best score first; matches of
/// equal score keep the order of `cands`.
pub open spec fn fuzzy_ranked(t: Seq<char>, cands: Seq<Seq<char>>, max_distance: int) -> Seq<
    (Seq<char>, int),
>
    decreases cands.len(),
{
    if cands.len() == 0 {
        Seq::<(Seq<char>, int)>::empty()
    } else {
        let acc = fuzzy_ranked(t, cands.drop_last(), max_distance);
        let c = cands.last();
        if fuzzy_accepts(t, c, max_distance) {
            insert_ranked(t, effective_distance(max_distance), acc, (c, lev(t, c)))
        } else {
            acc
        }
    }
}


/// Matches in ranked order: none scores above one before it.
pub open spec fn ranked_order(t: Seq<char>, m: int, r: Seq<(Seq<char>, int)>) -> bool {
    forall|i: int, j: int| 0 <= i < j < r.len() ==> !scores_above(t, #[trigger] r[j], #[trigger] r[i], m)
}

proof fn lemma_fraction_order(nx: int, dx: int, ny: int, dy: int, nz: int, dz: int)
    requires
        dx > 0,
        dy > 0,
        dz > 0,
        nx * dy > ny * dx,
        ny * dz > nz * dy,
    ensures
        nx * dz > nz * dx,
{
    assert(nx * dy * dz > ny * dx * dz) by (nonlinear_arith)
        requires
            nx * dy > ny * dx,
            dz > 0,
    ;
    assert(ny * dz * dx > nz * dy * dx) by (nonlinear_arith)
        requires
            ny * dz > nz * dy,
            dx > 0,
    ;
    assert(nx * dz * dy > nz * dx * dy) by (nonlinear_arith)
        requires
            nx * dy * dz > ny * dx * dz,
            ny * dz * dx > nz * dy * dx,
    ;
    assert(nx * dz > nz * dx) by (nonlinear_arith)
        requires
            nx * dz * dy > nz * dx * dy,
            dy > 0,
    ;
}

proof fn lemma_scores_above_transitive(t: Seq<char>, x: (Seq<char>, int), y: (Seq<char>, int), z: (Seq<char>, int), m: int)
    requires
        scores_above(t, x, y, m),
        scores_above(t, y, z, m),
    ensures
        scores_above(t, x, z, m),
{
    let tl = t.len() as int;
    lemma_fraction_order(
        score_numerator(tl, x.0.len() as int, x.1, m),
        score_denominator(tl, x.0.len() as int),
        score_numerator(tl, y.0.len() as int, y.1, m),
        score_denominator(tl, y.0.len() as int),
        score_numerator(tl, z.0.len() as int, z.1, m),
        score_denominator(tl, z.0.len() as int),
    );
}

proof fn lemma_insert_ranked(t: Seq<char>, m: int, acc: Seq<(Seq<char>, int)>, x: (Seq<char>, int))
    requires
        ranked_order(t, m, acc),
    ensures
        ranked_order(t, m, insert_ranked(t, m, acc, x)),
        forall|y: (Seq<char>, int)| #[trigger] insert_ranked(t, m, acc, x).contains(y) <==> (acc.contains(y) || y == x),
        insert_ranked(t, m, acc, x).len() == acc.len() + 1,
    decreases acc.len(),
{
    let r = insert_ranked(t, m, acc, x);
    if acc.len() == 0 {
        assert forall|y: (Seq<char>, int)| #[trigger] r.contains(y) <==> (acc.contains(y) || y == x) by {
            if r.contains(y) {
                let k = choose|k: int| 0 <= k < r.len() && r[k] == y;
                assert(k == 0);
            }
            if y == x {
                assert(r[0] == x);
            }
        }
    } else if scores_above(t, x, acc[0], m) {
        assert forall|i: int, j: int| 0 <= i < j < r.len() implies !scores_above(t, #[trigger] r[j], #[trigger] r[i], m) by {
            if i == 0 {
                assert(r[j] == acc[j - 1]);
                if scores_above(t, acc[j - 1], x, m) {
                    lemma_scores_above_transitive(t, acc[j - 1], x, acc[0], m);
                    if j - 1 > 0 {
                        assert(!scores_above(t, acc[j - 1], acc[0], m));
                    }
                    assert(false);
                }
            } else {
                assert(r[i] == acc[i - 1] && r[j] == acc[j - 1]);
            }
        }
        assert forall|y: (Seq<char>, int)| #[trigger] r.contains(y) <==> (acc.contains(y) || y == x) by {
            if r.contains(y) {
                let k = choose|k: int| 0 <= k < r.len() && r[k] == y;
                if k > 0 {
                    assert(acc[k - 1] == y);
                }
            }
            if acc.contains(y) {
                let k = choose|k: int| 0 <= k < acc.len() && acc[k] == y;
                assert(r[k + 1] == y);
            }
            if y == x {
                assert(r[0] == x);
            }
        }
    } else {
        let tail = acc.drop_first();
        assert(ranked_order(t, m, tail)) by {
            assert forall|i: int, j: int| 0 <= i < j < tail.len() implies !scores_above(t, #[trigger] tail[j], #[trigger] tail[i], m) by {
                assert(tail[i] == acc[i + 1] && tail[j] == acc[j + 1]);
            }
        }
        lemma_insert_ranked(t, m, tail, x);
        let rt = insert_ranked(t, m, tail, x);
        assert forall|i: int, j: int| 0 <= i < j < r.len() implies !scores_above(t, #[trigger] r[j], #[trigger] r[i], m) by {
            if i == 0 {
                assert(r[j] == rt[j - 1]);
                assert(rt.contains(rt[j - 1]));
                if rt[j - 1] != x {
                    assert(tail.contains(rt[j - 1]));
                    let k = choose|k: int| 0 <= k < tail.len() && tail[k] == rt[j - 1];
                    assert(acc[k + 1] == rt[j - 1]);
                }
            } else {
                assert(r[i] == rt[i - 1] && r[j] == rt[j - 1]);
            }
        }
        assert forall|y: (Seq<char>, int)| #[trigger] r.contains(y) <==> (acc.contains(y) || y == x) by {
            if r.contains(y) {
                let k = choose|k: int| 0 <= k < r.len() && r[k] == y;
                if k > 0 {
                    assert(rt[k - 1] == y);
                    assert(rt.contains(y));
                    if tail.contains(y) {
                        let q = choose|q: int| 0 <= q < tail.len() && tail[q] == y;
                        assert(acc[q + 1] == y);
                    }
                } else {
                    assert(acc[0] == y);
                }
            }
            if acc.contains(y) {
                let k = choose|k: int| 0 <= k < acc.len() && acc[k] == y;
                if k == 0 {
                    assert(r[0] == y);
                } else {
                    assert(tail[k - 1] == y);
                    assert(tail.contains(y));
                    assert(rt.contains(y));
                    let q = choose|q: int| 0 <= q < rt.len() && rt[q] == y;
                    assert(r[q + 1] == y);
                }
            }
            if y == x {
                assert(rt.contains(x));
                let q = choose|q: int| 0 <= q < rt.len() && rt[q] == x;
                assert(r[q + 1] == x);
            }
        }
    }
}

/// How many entries of `cands` (counted with repetition) are fuzzy matches of `t`.
pub open spec fn accepted_count(t: Seq<char>, cands: Seq<Seq<char>>, max_distance: int) -> nat
    decreases cands.len(),
{
    if cands.len() == 0 {
        0
    } else {
        accepted_count(t, cands.drop_last(), max_distance) + if fuzzy_accepts(t, cands.last(), max_distance) {
            1nat
        } else {
            0nat
        }
    }
}

proof fn lemma_fuzzy_ranked(t: Seq<char>, cands: Seq<Seq<char>>, max_distance: int)
    ensures
        fuzzy_ranked(t, cands, max_distance).len() == accepted_count(t, cands, max_distance),
        ranked_order(t, effective_distance(max_distance), fuzzy_ranked(t, cands, max_distance)),
        forall|y: (Seq<char>, int)| #[trigger] fuzzy_ranked(t, cands, max_distance).contains(y) <==> (cands.contains(y.0)
            && fuzzy_accepts(t, y.0, max_distance) && y.1 == lev(t, y.0)),
    decreases cands.len(),
{
    if cands.len() > 0 {
        let init = cands.drop_last();
        let c = cands.last();
        lemma_fuzzy_ranked(t, init, max_distance);
        let acc = fuzzy_ranked(t, init, max_distance);
        if fuzzy_accepts(t, c, max_distance) {
            lemma_insert_ranked(t, effective_distance(max_distance), acc, (c, lev(t, c)));
        }
        assert forall|y: (Seq<char>, int)| #[trigger] fuzzy_ranked(t, cands, max_distance).contains(y) <==> (cands.contains(y.0)
            && fuzzy_accepts(t, y.0, max_distance) && y.1 == lev(t, y.0)) by {
            if init.contains(y.0) {
                let k = choose|k: int| 0 <= k < init.len() && init[k] == y.0;
                assert(cands[k] == y.0);
            }
            if cands.contains(y.0) && y.0 != c {
                let k = choose|k: int| 0 <= k < cands.len() && cands[k] == y.0;
                assert(init[k] == y.0);
            }
            if y.0 == c {
                assert(cands[cands.len() - 1] == c);
            }
        }
    }
}

/// Fuzzy candidates are the accepted matches of the term, each with its edit distance, best
/// score first, at most `limit` of them; and when fewer than `limit` come back, or when at
/// most `limit` candidates are accepted, every accepted candidate is among them (then one
/// match per accepted entry).
pub proof fn lemma_fuzzy_candidates_laws(t: Seq<char>, cands: Seq<Seq<char>>, max_distance: int, limit: int)
    requires
        limit >= 0,
    ensures
        fuzzy_matches_spec(t, cands, max_distance, limit).len() <= limit,
        ranked_order(t, effective_distance(max_distance), fuzzy_matches_spec(t, cands, max_distance, limit)),
        forall|k: int| 0 <= k < fuzzy_matches_spec(t, cands, max_distance, limit).len() ==> {
            let y = #[trigger] fuzzy_matches_spec(t, cands, max_distance, limit)[k];
            cands.contains(y.0) && fuzzy_accepts(t, y.0, max_distance) && y.1 == lev(t, y.0)
        },
        t.len() > 0 && fuzzy_matches_spec(t, cands, max_distance, limit).len() < limit ==> forall|c: Seq<char>|
            cands.contains(c) && fuzzy_accepts(t, c, max_distance) ==> #[trigger] fuzzy_matches_spec(t, cands, max_distance, limit).contains(
                (c, lev(t, c)),
            ),
        t.len() > 0 && limit > 0 && accepted_count(t, cands, max_distance) <= limit ==> {
            &&& fuzzy_matches_spec(t, cands, max_distance, limit).len() == accepted_count(t, cands, max_distance)
            &&& forall|c: Seq<char>|
                cands.contains(c) && fuzzy_accepts(t, c, max_distance) ==> #[trigger] fuzzy_matches_spec(t, cands, max_distance, limit).contains(
                    (c, lev(t, c)),
                )
        },
{
    lemma_fuzzy_ranked(t, cands, max_distance);
    let all = fuzzy_ranked(t, cands, max_distance);
    let r = fuzzy_matches_spec(t, cands, max_distance, limit);
    let m = effective_distance(max_distance);
    if t.len() > 0 && limit > 0 {
        assert forall|i: int, j: int| 0 <= i < j < r.len() implies !scores_above(t, #[trigger] r[j], #[trigger] r[i], m) by {
            assert(r[i] == all[i] && r[j] == all[j]);
        }
        assert forall|k: int| 0 <= k < r.len() implies {
            let y = #[trigger] r[k];
            cands.contains(y.0) && fuzzy_accepts(t, y.0, max_distance) && y.1 == lev(t, y.0)
        } by {
            assert(r[k] == all[k]);
            assert(all.contains(all[k]));
        }
        if all.len() <= limit {
            assert(r == all);
            assert forall|c: Seq<char>| cands.contains(c) && fuzzy_accepts(t, c, max_distance) implies #[trigger] r.contains((c, lev(t, c))) by {
                assert(all.contains((c, lev(t, c))));
            }
        }
        if r.len() < limit {
            assert(r == all);
            assert forall|c: Seq<char>| cands.contains(c) && fuzzy_accepts(t, c, max_distance) implies #[trigger] r.contains((c, lev(t, c))) by {
                assert(all.contains((c, lev(t, c))));
            }
        }
    }
}

pub open spec fn candidate_views(v: Seq<FuzzyCandidate>) -> Seq<(Seq<char>, int)> {
    v.map_values(|c: FuzzyCandidate| (c.term@, c.distance as int))
}

/// The matches that `fuzzy_match_limited` keeps: none for an empty term or a zero limit,
/// else the best `limit` of `fuzzy_ranked`.
pub open spec fn fuzzy_matches_spec(t: Seq<char>, cands: Seq<Seq<char>>, max_distance: int, limit: int) -> Seq<
    (Seq<char>, int),
> {
    if t.len() == 0 || limit == 0 {
        Seq::<(Seq<char>, int)>::empty()
    } else {
        let all = fuzzy_ranked(t, cands, max_distance);
        if all.len() <= limit {
            all
        } else {
            all.take(limit)
        }
    }
}

/// Exact comparison of two match scores.
fn ranks_above(tlen: usize, xlen: usize, xd: usize, ylen: usize, yd: usize, m: usize) -> (r: bool)
    requires
        tlen >= 1,
        m <= 3,
        xd <= m,
        yd <= m,
        tlen - xlen <= m,
        xlen - tlen <= m,
        tlen - ylen <= m,
        ylen - tlen <= m,
    ensures
        r == (score_numerator(tlen as int, xlen as int, xd as int, m as int) * score_denominator(
            tlen as int,
            ylen as int,
        ) > score_numerator(tlen as int, ylen as int, yd as int, m as int) * score_denominator(
            tlen as int,
            xlen as int,
        )),
{
    let mp: u128 = if m >= 1 {
        m as u128
    } else {
        1
    };
    let mxx: u128 = if xlen > tlen {
        xlen as u128
    } else {
        tlen as u128
    };
    let mxy: u128 = if ylen > tlen {
        ylen as u128
    } else {
        tlen as u128
    };
    let mnx: u128 = if xlen < tlen {
        xlen as u128
    } else {
        tlen as u128
    };
    let mny: u128 = if ylen < tlen {
        ylen as u128
    } else {
        tlen as u128
    };
    // mx - mn is at most 3 for both matches
    let kx: u128 = mxx - mnx;
    let ky: u128 = mxy - mny;
    let ghost nx = score_numerator(tlen as int, xlen as int, xd as int, m as int);
    let ghost ny = score_numerator(tlen as int, ylen as int, yd as int, m as int);
    let ghost dx = score_denominator(tlen as int, xlen as int);
    let ghost dy = score_denominator(tlen as int, ylen as int);
    proof {
        assert(dx == mxx);
        assert(dy == mxy);
        assert(kx <= 3 && ky <= 3);
        // the difference of the cross products
        assert(nx * dy - ny * dx == 7 * (yd - xd) * mxx * mxy + 3 * mp * (ky * mxx - kx * mxy))
            by (nonlinear_arith)
            requires
                nx == 7 * (mp - xd) * mxx + 3 * mp * mnx,
                ny == 7 * (mp - yd) * mxy + 3 * mp * mny,
                dx == mxx,
                dy == mxy,
                kx == mxx - mnx,
                ky == mxy - mny,
        ;
    }
    if xd == yd {
        // only the length ratio differs
        proof {
            assert(ky * mxx <= 3 * mxx) by (nonlinear_arith)
                requires
                    ky <= 3,
            ;
            assert(kx * mxy <= 3 * mxy) by (nonlinear_arith)
                requires
                    kx <= 3,
            ;
        }
        let lhs: u128 = ky * mxx;
        let rhs: u128 = kx * mxy;
        proof {
            assert(nx * dy - ny * dx == 3 * mp * (ky * mxx - kx * mxy)) by (nonlinear_arith)
                requires
                    nx * dy - ny * dx == 7 * (yd - xd) * mxx * mxy + 3 * mp * (ky * mxx - kx
                        * mxy),
                    xd == yd,
            ;
            assert((3 * mp * (ky * mxx - kx * mxy) > 0) == (ky * mxx > kx * mxy)) by (nonlinear_arith)
                requires
                    mp >= 1,
            ;
        }
        lhs > rhs
    } else if mxx < 0x100_0000_0000 && mxy < 0x100_0000_0000 {
        // small lengths: evaluate the difference exactly
        let sx: i128 = mxx as i128;
        let sy: i128 = mxy as i128;
        let dd: i128 = (yd as i128) - (xd as i128);
        proof {
            assert(0 <= sx * sy <= 0x100_0000_0000 * 0x100_0000_0000) by (nonlinear_arith)
                requires
                    0 <= sx < 0x100_0000_0000,
                    0 <= sy < 0x100_0000_0000,
            ;
            assert(0 <= (ky as i128) * sx <= 3 * 0x100_0000_0000) by (nonlinear_arith)
                requires
                    0 <= sx < 0x100_0000_0000,
                    0 <= ky <= 3,
            ;
            assert(0 <= (kx as i128) * sy <= 3 * 0x100_0000_0000) by (nonlinear_arith)
                requires
                    0 <= sy < 0x100_0000_0000,
                    0 <= kx <= 3,
            ;
        }
        let prod: i128 = sx * sy;
        proof {
            assert(-21 * prod <= 7 * dd * prod <= 21 * prod) by (nonlinear_arith)
                requires
                    -3 <= dd <= 3,
                    prod >= 0,
            ;
        }
        let a: i128 = 7 * dd * prod;
        let kk: i128 = (ky as i128) * sx - (kx as i128) * sy;
        proof {
            assert(-9 * 0x400_0000_0000 <= 3 * (mp as i128) * kk <= 9 * 0x400_0000_0000)
                by (nonlinear_arith)
                requires
                    1 <= mp <= 3,
                    -3 * 0x100_0000_0000 <= kk <= 3 * 0x100_0000_0000,
            ;
        }
        let b: i128 = 3 * (mp as i128) * kk;
        proof {
            assert(a + b == 7 * (yd - xd) * mxx * mxy + 3 * mp * (ky * mxx - kx * mxy))
                by (nonlinear_arith)
                requires
                    a == 7 * dd * prod,
                    prod == sx * sy,
                    sx == mxx,
                    sy == mxy,
                    dd == yd - xd,
                    b == 3 * mp * kk,
                    kk == ky * sx - kx * sy,
            ;
        }
        a + b > 0
    } else {
        // long terms: the length ratios differ by far less than one distance step
        proof {
            assert(mxx >= 0x100_0000_0000 - 3 && mxy >= 0x100_0000_0000 - 3);
            assert(ky * mxx <= 3 * mxx) by (nonlinear_arith)
                requires
                    ky <= 3,
            ;
            assert(kx * mxy <= 3 * mxy) by (nonlinear_arith)
                requires
                    kx <= 3,
            ;
            if yd > xd {
                assert(7 * (yd - xd) * mxx * mxy + 3 * mp * (ky * mxx - kx * mxy) > 0)
                    by (nonlinear_arith)
                    requires
                        yd - xd >= 1,
                        mxx >= 0x100_0000_0000 - 3,
                        mxy >= 0x100_0000_0000 - 3,
                        mxy <= mxx + 6,
                        mxx <= mxy + 6,
                        kx * mxy <= 3 * mxy,
                        ky >= 0,
                        mp <= 3,
                        mp >= 1,
                ;
            } else {
                assert(7 * (yd - xd) * mxx * mxy + 3 * mp * (ky * mxx - kx * mxy) < 0)
                    by (nonlinear_arith)
                    requires
                        xd - yd >= 1,
                        mxx >= 0x100_0000_0000 - 3,
                        mxy >= 0x100_0000_0000 - 3,
                        mxy <= mxx + 6,
                        mxx <= mxy + 6,
                        ky * mxx <= 3 * mxx,
                        kx >= 0,
                        mp <= 3,
                        mp >= 1,
                ;
            }
        }
        xd < yd
    }
}

/// Counts the characters of a string.
pub fn char_count(s: &str) -> (n: usize)
    ensures
        n == s@.len(),
{
    let v = chars_of(s);
    v.len()
}

fn insert_candidate(
    acc: &mut Vec<FuzzyCandidate>,
    x: FuzzyCandidate,
    Ghost(t): Ghost<Seq<char>>,
    tlen: usize,
    m: usize,
)
    requires
        tlen == t.len(),
        tlen >= 1,
        m <= 3,
        x.distance <= m,
        tlen - x.term@.len() <= m,
        x.term@.len() - tlen <= m,
        forall|k: int|
            0 <= k < old(acc)@.len() ==> {
                &&& (#[trigger] old(acc)@[k]).distance <= m
                &&& tlen - old(acc)@[k].term@.len() <= m
                &&& old(acc)@[k].term@.len() - tlen <= m
            },
    ensures
        candidate_views(final(acc)@) == insert_ranked(
            t,
            m as int,
            candidate_views(old(acc)@),
            (x.term@, x.distance as int),
        ),
        forall|k: int|
            0 <= k < final(acc)@.len() ==> {
                &&& (#[trigger] final(acc)@[k]).distance <= m
                &&& tlen - final(acc)@[k].term@.len() <= m
                &&& final(acc)@[k].term@.len() - tlen <= m
            },
{
    let ghost a0 = candidate_views(acc@);
    let ghost xv = (x.term@, x.distance as int);
    let xlen = char_count(x.term.as_str());
    let mut p: usize = 0;
    proof {
        assert(a0.skip(0) =~= a0);
        assert(a0.take(0) + insert_ranked(t, m as int, a0, xv) =~= insert_ranked(t, m as int, a0, xv));
    }
    while p < acc.len() && !ranks_above(
        tlen,
        xlen,
        x.distance,
        char_count(acc[p].term.as_str()),
        acc[p].distance,
        m,
    )
        invariant
            p <= acc@.len(),
            a0 == candidate_views(acc@),
            tlen == t.len(),
            tlen >= 1,
            m <= 3,
            xlen == x.term@.len(),
            x.distance <= m,
            tlen - x.term@.len() <= m,
            x.term@.len() - tlen <= m,
            xv == (x.term@, x.distance as int),
            forall|k: int|
                0 <= k < acc@.len() ==> {
                    &&& (#[trigger] acc@[k]).distance <= m
                    &&& tlen - acc@[k].term@.len() <= m
                    &&& acc@[k].term@.len() - tlen <= m
                },
            insert_ranked(t, m as int, a0, xv) == a0.take(p as int) + insert_ranked(
                t,
                m as int,
                a0.skip(p as int),
                xv,
            ),
        decreases acc@.len() - p,
    {
        proof {
            assert(a0.skip(p as int)[0] == a0[p as int]);
            assert(a0.skip(p as int).drop_first() =~= a0.skip(p + 1));
            assert(a0.take(p + 1) =~= a0.take(p as int) + seq![a0[p as int]]);
            assert(a0.take(p as int) + insert_ranked(t, m as int, a0.skip(p as int), xv)
                =~= a0.take(p + 1) + insert_ranked(t, m as int, a0.skip(p + 1), xv));
        }
        p += 1;
    }
    proof {
        if p < a0.len() {
            assert(a0.skip(p as int)[0] == a0[p as int]);
        } else {
            assert(a0.skip(p as int) =~= Seq::<(Seq<char>, int)>::empty());
        }
    }
    acc.insert(p, x);
    proof {
        assert(candidate_views(acc@) =~= a0.take(p as int) + seq![xv] + a0.skip(p as int));
        assert(insert_ranked(t, m as int, a0, xv) =~= candidate_views(acc@));
    }
}

/// Fuzzy matches of `term` among `candidates` with their distances, best first, at most
/// `limit` of them. Distances above 3 are treated as 3.
pub fn fuzzy_match_candidates(
    term: &str,
    candidates: &[String],
    max_distance: usize,
    limit: usize,
) -> (r: Vec<FuzzyCandidate>)
    ensures
        candidate_views(r@) == fuzzy_matches_spec(
            term@,
            strings_view(candidates@),
            max_distance as int,
            limit as int,
        ),
{
    let ghost cs = strings_view(candidates@);
    let tlen = char_count(term);
    if tlen == 0 || limit == 0 {
        let empty: Vec<FuzzyCandidate> = Vec::new();
        proof {
            assert(candidate_views(empty@) =~= Seq::<(Seq<char>, int)>::empty());
        }
        return empty;
    }
    let m = min_usize(max_distance, 3);
    let mut acc: Vec<FuzzyCandidate> = Vec::new();
    let mut i: usize = 0;
    proof {
        assert(cs.take(0) =~= Seq::<Seq<char>>::empty());
        assert(candidate_views(acc@) =~= fuzzy_ranked(term@, cs.take(0), max_distance as int));
    }
    while i < candidates.len()
        invariant
            cs == strings_view(candidates@),
            i <= candidates@.len(),
            tlen == term@.len(),
            tlen >= 1,
            m as int == effective_distance(max_distance as int),
            m <= 3,
            candidate_views(acc@) == fuzzy_ranked(term@, cs.take(i as int), max_distance as int),
            forall|k: int|
                0 <= k < acc@.len() ==> {
                    &&& (#[trigger] acc@[k]).distance <= m
                    &&& tlen - acc@[k].term@.len() <= m
                    &&& acc@[k].term@.len() - tlen <= m
                },
        decreases candidates@.len() - i,
    {
        let c = &candidates[i];
        let clen = char_count(c.as_str());
        proof {
            assert(cs.take(i + 1).drop_last() =~= cs.take(i as int));
            assert(cs.take(i + 1).last() == c@);
        }
        let diff = if tlen >= clen {
            tlen - clen
        } else {
            clen - tlen
        };
        if diff <= m {
            let d = levenshtein_distance(term, c.as_str());
            if d <= m {
                let cand = FuzzyCandidate { term: copy_string(c), distance: d };
                insert_candidate(&mut acc, cand, Ghost(term@), tlen, m);
            }
        } else {
            proof {
                lemma_lev_len_diff(term@, c@);
            }
        }
        i += 1;
    }
    proof {
        assert(cs.take(candidates@.len() as int) =~= cs);
    }
    if acc.len() > limit {
        acc.truncate(limit);
        proof {
            assert(candidate_views(acc@) =~= fuzzy_ranked(term@, cs, max_distance as int).take(
                limit as int,
            ));
        }
    }
    acc
}

// ==================== longest common subsequence ====================

/// The length of a longest common subsequence of `a` and `b`.
pub open spec fn lcs(a: Seq<char>, b: Seq<char>) -> int
    decreases a.len() + b.len(),
{
    if a.len() == 0 || b.len() == 0 {
        0
    } else if a.last() == b.last() {
        lcs(a.drop_last(), b.drop_last()) + 1
    } else {
        max2(lcs(a.drop_last(), b), lcs(a, b.drop_last()))
    }
}

pub proof fn lemma_lcs_bounds(a: Seq<char>, b: Seq<char>)
    ensures
        0 <= lcs(a, b) <= a.len(),
        lcs(a, b) <= b.len(),
    decreases a.len() + b.len(),
{
    if a.len() > 0 && b.len() > 0 {
        lemma_lcs_bounds(a.drop_last(), b.drop_last());
        lemma_lcs_bounds(a.drop_last(), b);
        lemma_lcs_bounds(a, b.drop_last());
    }
}

/// The length, in characters, of a longest common subsequence of two strings.
pub fn lcs_length(a: &str, b: &str) -> (n: usize)
    ensures
        n == lcs(a@, b@),
{
    let a_chars = chars_of(a);
    let b_chars = chars_of(b);
    let ghost sa = a@;
    let ghost sb = b@;
    let a_len = a_chars.len();
    let b_len = b_chars.len();
    // prev[j] = lcs(a[..i], b[..j])
    let mut prev: Vec<usize> = Vec::new();
    let mut j: usize = 0;
    while j < b_len
        invariant
            b_len == sb.len(),
            j <= b_len,
            prev@.len() == j,
            forall|k: int| 0 <= k < j ==> prev@[k] == lcs(sa.take(0), sb.take(k)),
        decreases b_len - j,
    {
        prev.push(0);
        j += 1;
    }
    prev.push(0);
    let plen = prev.len();
    assert(plen == b_len + 1);
    let mut i: usize = 0;
    while i < a_len
        invariant
            a_chars@ == sa,
            b_chars@ == sb,
            a_len == sa.len(),
            b_len == sb.len(),
            b_len < usize::MAX,
            i <= a_len,
            prev@.len() == b_len + 1,
            forall|k: int| 0 <= k <= b_len ==> prev@[k] == lcs(sa.take(i as int), sb.take(k)),
        decreases a_len - i,
    {
        let mut cur: Vec<usize> = Vec::new();
        cur.push(0);
        let mut j: usize = 1;
        while j <= b_len
            invariant
                a_chars@ == sa,
                b_chars@ == sb,
                a_len == sa.len(),
                b_len == sb.len(),
                b_len < usize::MAX,
                i < a_len,
                1 <= j <= b_len + 1,
                prev@.len() == b_len + 1,
                cur@.len() == j,
                forall|k: int| 0 <= k <= b_len ==> prev@[k] == lcs(sa.take(i as int), sb.take(k)),
                forall|k: int| 0 <= k < j ==> cur@[k] == lcs(sa.take(i + 1), sb.take(k)),
            decreases b_len + 1 - j,
        {
            let ghost x = sa.take(i + 1);
            let ghost y = sb.take(j as int);
            proof {
                assert(x.drop_last() =~= sa.take(i as int));
                assert(y.drop_last() =~= sb.take(j - 1));
                assert(x.last() == sa[i as int]);
                assert(y.last() == sb[j - 1]);
                lemma_lcs_bounds(x.drop_last(), y.drop_last());
                lemma_lcs_bounds(x, y);
            }
            let v = if a_chars[i] == b_chars[j - 1] {
                prev[j - 1] + 1
            } else if prev[j] >= cur[j - 1] {
                prev[j]
            } else {
                cur[j - 1]
            };
            proof {
                assert(v == lcs(x, y));
            }
            cur.push(v);
            j += 1;
        }
        prev = cur;
        i += 1;
    }
    proof {
        assert(sa.take(a_len as int) =~= sa);
        assert(sb.take(b_len as int) =~= sb);
    }
    prev[b_len]
}

// ==================== set overlap ====================

/// The elements of `ts` that occur in `b`, in order.
pub open spec fn common_terms(ts: Seq<Seq<char>>, b: Seq<Seq<char>>) -> Seq<Seq<char>>
    decreases ts.len(),
{
    if ts.len() == 0 {
        Seq::empty()
    } else {
        common_terms(ts.drop_last(), b) + if b.contains(ts.last()) {
            seq![ts.last()]
        } else {
            Seq::empty()
        }
    }
}

/// The number of distinct strings of `a` that also occur in `b`, and the number of
/// distinct strings in either.
pub open spec fn overlap_counts(a: Seq<Seq<char>>, b: Seq<Seq<char>>) -> (int, int) {
    let da = crate::index::distinct_terms(a);
    (common_terms(da, b).len() as int, crate::index::append_new(da, b).len() as int)
}

/// The sizes of the intersection and of the union of the sets of strings `a` and `b`.
pub fn overlap_sizes(a: &[String], b: &[String]) -> (r: (usize, usize))
    ensures
        r.0 == overlap_counts(strings_view(a@), strings_view(b@)).0,
        r.1 == overlap_counts(strings_view(a@), strings_view(b@)).1,
{
    let av: Vec<String> = crate::explain::copy_strings(a);
    let bv: Vec<String> = crate::explain::copy_strings(b);
    let da = crate::executor::dedupe_strings(&av);
    let mut inter: usize = 0;
    let ghost dv = strings_view(da@);
    let mut k: usize = 0;
    while k < da.len()
        invariant
            k <= da@.len(),
            dv == strings_view(da@),
            inter <= k,
            inter == common_terms(dv.take(k as int), strings_view(bv@)).len(),
        decreases da@.len() - k,
    {
        proof {
            assert(dv.take(k + 1).drop_last() =~= dv.take(k as int));
            assert(dv.take(k + 1).last() == da@[k as int]@);
        }
        match crate::text::find_string(&bv, &da[k]) {
            Some(j) => {
                proof {
                    assert(strings_view(bv@)[j as int] == da@[k as int]@);
                }
                inter += 1;
            },
            None => {},
        }
        k += 1;
    }
    proof {
        assert(dv.take(dv.len() as int) =~= dv);
    }
    let mut union = da;
    crate::engine::append_new_strings(&mut union, &bv);
    proof {
        assert(strings_view(av@) == strings_view(a@));
        assert(strings_view(bv@) == strings_view(b@));
    }
    (inter, union.len())
}

} // verus!
