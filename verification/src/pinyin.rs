//! Pinyin conversion of Chinese text and a pinyin-to-term index.
use vstd::prelude::*;

use pinyin::ToPinyin;

use crate::text::{
    chars_of, contains_chars, contains_seq, copy_string, push_char, remove_spaces,
    same_text, join_strings, join_with, starts_with_chars, starts_with_seq, str_to_lowercase, string_from_chars, strings_view, text_less,
    text_lt, unicode_lowercase_str, without_spaces,
};
use crate::tokenizer::{chinese_code_point, is_chinese_char, is_whitespace_char, whitespace_code_point};
use crate::executor::char_string;

verus! {

// ==================== conversion ====================

/// The pinyin of one character as the `pinyin` crate's tables give it: the spelling with the
/// tone as a digit at its end (`with_tone_num_end`) and the plain spelling; `None` for a
/// character the tables do not hold.
pub uninterp spec fn char_pinyin(c: char) -> Option<(Seq<char>, Seq<char>)>;

/// Looks `c` up with `pinyin::ToPinyin::to_pinyin` and reads `Pinyin::with_tone_num_end`,
/// `Pinyin::plain` and `Pinyin::first_letter`. The contract claims: the result is `None`
/// exactly when the table has no entry; otherwise the first two strings are the entry's
/// spellings, and the third is the first character of the plain spelling (which is not empty,
/// since `first_letter` takes its first character).
#[verifier::external_body]
fn lookup_pinyin(c: char) -> (r: Option<(String, String, String)>)
    ensures
        match r {
            Some((full, plain, initial)) => {
                &&& char_pinyin(c) == Some((full@, plain@))
                &&& plain@.len() > 0
                &&& initial@ == plain@.take(1)
            },
            None => char_pinyin(c) is None,
        },
{
    match c.to_pinyin() {
        Some(p) => Some((p.with_tone_num_end().to_string(), p.plain().to_string(), p.first_letter().to_string())),
        None => None,
    }
}

/// Pinyin representation options for a Chinese character
#[derive(Debug, Clone)]
pub struct PinyinToken {
    /// Full pinyin with tone number (e.g., "ni3")
    pub full: String,
    /// Pinyin without tone (e.g., "ni")
    pub plain: String,
    /// Initial letter (e.g., "n")
    pub initial: String,
}

pub struct PinyinTokenModel {
    pub full: Seq<char>,
    pub plain: Seq<char>,
    pub initial: Seq<char>,
}

pub open spec fn pinyin_token_views(v: Seq<PinyinToken>) -> Seq<PinyinTokenModel> {
    v.map_values(|t: PinyinToken| PinyinTokenModel { full: t.full@, plain: t.plain@, initial: t.initial@ })
}

/// The token of a character that is not Chinese: the character itself in every form.
pub open spec fn kept_char_token(c: char) -> PinyinTokenModel {
    PinyinTokenModel { full: seq![c], plain: seq![c], initial: seq![c] }
}

/// The pinyin tokens of `s`, in order: each Chinese character that has a reading gives its
/// reading, each other character that is not whitespace is kept as a token of its own, and
/// whitespace (and Chinese characters without a reading) give none.
pub open spec fn pinyin_of(s: Seq<char>) -> Seq<PinyinTokenModel>
    decreases s.len(),
{
    if s.len() == 0 {
        Seq::<PinyinTokenModel>::empty()
    } else {
        let rest = pinyin_of(s.drop_last());
        let c = s.last();
        if chinese_code_point(c) {
            if char_pinyin(c) is Some {
                let (full, plain) = char_pinyin(c)->0;
                rest.push(PinyinTokenModel { full, plain, initial: plain.take(1) })
            } else {
                rest
            }
        } else if whitespace_code_point(c) {
            rest
        } else {
            rest.push(kept_char_token(c))
        }
    }
}

pub open spec fn plain_pinyin_spec(s: Seq<char>) -> Seq<char> {
    join_with(pinyin_of(s).map_values(|t: PinyinTokenModel| t.plain), seq![' '])
}

pub open spec fn first_letters_spec(s: Seq<char>) -> Seq<char> {
    join_with(pinyin_of(s).map_values(|t: PinyinTokenModel| t.initial), Seq::<char>::empty())
}

pub open spec fn full_pinyin_spec(s: Seq<char>) -> Seq<char> {
    join_with(pinyin_of(s).map_values(|t: PinyinTokenModel| t.full), seq![' '])
}

/// Convert Chinese text to pinyin tokens
pub struct PinyinConverter;


impl PinyinConverter {
    /// Convert a string to pinyin tokens, preserving non-Chinese text: every character that
    /// is neither Chinese nor whitespace becomes a token of its own, the character itself in
    /// every form; Chinese characters the tables do not hold are skipped.
    pub fn to_pinyin(text: &str) -> (r: Vec<PinyinToken>)
        ensures
            pinyin_token_views(r@) == pinyin_of(text@),
    {
        let chars = chars_of(text);
        let mut results: Vec<PinyinToken> = Vec::new();
        let mut k: usize = 0;
        proof {
            assert(text@.take(0) =~= Seq::<char>::empty());
        }
        while k < chars.len()
            invariant
                chars@ == text@,
                k <= chars@.len(),
                pinyin_token_views(results@) == pinyin_of(text@.take(k as int)),
            decreases chars@.len() - k,
        {
            let ch = chars[k];
            proof {
                assert(text@.take(k + 1).drop_last() =~= text@.take(k as int));
                assert(text@.take(k + 1).last() == ch);
            }
            if is_chinese_char(ch) {
                match lookup_pinyin(ch) {
                    Some((full, plain, initial)) => {
                        let ghost before = results@;
                        let t = PinyinToken { full, plain, initial };
                        results.push(t);
                        proof {
                            assert(pinyin_token_views(results@) =~= pinyin_token_views(before).push(
                                PinyinTokenModel { full: t.full@, plain: t.plain@, initial: t.initial@ },
                            ));
                        }
                    },
                    None => {},
                }
            } else if !is_whitespace_char(ch) {
                let ghost before = results@;
                let t = PinyinToken { full: char_string(ch), plain: char_string(ch), initial: char_string(ch) };
                results.push(t);
                proof {
                    assert(pinyin_token_views(results@) =~= pinyin_token_views(before).push(kept_char_token(ch)));
                }
            }
            k += 1;
        }
        proof {
            assert(text@.take(k as int) =~= text@);
        }
        results
    }

    /// Get plain pinyin (without tones) for text, syllables separated by spaces
    pub fn to_plain_pinyin(text: &str) -> (r: String)
        ensures
            r@ == plain_pinyin_spec(text@),
    {
        let tokens = Self::to_pinyin(text);
        let mut parts: Vec<String> = Vec::new();
        let mut k: usize = 0;
        while k < tokens.len()
            invariant
                k <= tokens@.len(),
                parts@.len() == k,
                parts@.map_values(|p: String| p@) == pinyin_token_views(tokens@).map_values(
                    |t: PinyinTokenModel| t.plain,
                ).take(k as int),
            decreases tokens@.len() - k,
        {
            let c = copy_string(&tokens[k].plain);
            parts.push(c);
            proof {
                assert(parts@[k as int] == c);
                assert(pinyin_token_views(tokens@)[k as int].plain == tokens@[k as int].plain@);
                assert(parts@.map_values(|p: String| p@) =~= pinyin_token_views(tokens@).map_values(
                    |t: PinyinTokenModel| t.plain,
                ).take(k + 1));
            }
            k += 1;
        }
        proof {
            assert(pinyin_token_views(tokens@).map_values(|t: PinyinTokenModel| t.plain).take(
                k as int,
            ) =~= pinyin_token_views(tokens@).map_values(|t: PinyinTokenModel| t.plain));
            reveal_strlit(" ");
            assert(" "@ =~= seq![' ']);
        }
        join_strings(&parts, " ")
    }

    /// Get first letters only (for acronym matching, e.g., "bj" for "北京")
    pub fn to_first_letters(text: &str) -> (r: String)
        ensures
            r@ == first_letters_spec(text@),
    {
        let tokens = Self::to_pinyin(text);
        let mut parts: Vec<String> = Vec::new();
        let mut k: usize = 0;
        while k < tokens.len()
            invariant
                k <= tokens@.len(),
                parts@.len() == k,
                parts@.map_values(|p: String| p@) == pinyin_token_views(tokens@).map_values(
                    |t: PinyinTokenModel| t.initial,
                ).take(k as int),
            decreases tokens@.len() - k,
        {
            let c = copy_string(&tokens[k].initial);
            parts.push(c);
            proof {
                assert(parts@[k as int] == c);
                assert(pinyin_token_views(tokens@)[k as int].initial == tokens@[k as int].initial@);
                assert(parts@.map_values(|p: String| p@) =~= pinyin_token_views(tokens@).map_values(
                    |t: PinyinTokenModel| t.initial,
                ).take(k + 1));
            }
            k += 1;
        }
        proof {
            assert(pinyin_token_views(tokens@).map_values(|t: PinyinTokenModel| t.initial).take(
                k as int,
            ) =~= pinyin_token_views(tokens@).map_values(|t: PinyinTokenModel| t.initial));
            reveal_strlit("");
            assert(""@ =~= Seq::<char>::empty());
        }
        join_strings(&parts, "")
    }

    /// Get full pinyin with tone numbers, syllables separated by spaces
    pub fn to_full_pinyin(text: &str) -> (r: String)
        ensures
            r@ == full_pinyin_spec(text@),
    {
        let tokens = Self::to_pinyin(text);
        let mut parts: Vec<String> = Vec::new();
        let mut k: usize = 0;
        while k < tokens.len()
            invariant
                k <= tokens@.len(),
                parts@.len() == k,
                parts@.map_values(|p: String| p@) == pinyin_token_views(tokens@).map_values(
                    |t: PinyinTokenModel| t.full,
                ).take(k as int),
            decreases tokens@.len() - k,
        {
            let c = copy_string(&tokens[k].full);
            parts.push(c);
            proof {
                assert(parts@[k as int] == c);
                assert(pinyin_token_views(tokens@)[k as int].full == tokens@[k as int].full@);
                assert(parts@.map_values(|p: String| p@) =~= pinyin_token_views(tokens@).map_values(
                    |t: PinyinTokenModel| t.full,
                ).take(k + 1));
            }
            k += 1;
        }
        proof {
            assert(pinyin_token_views(tokens@).map_values(|t: PinyinTokenModel| t.full).take(
                k as int,
            ) =~= pinyin_token_views(tokens@).map_values(|t: PinyinTokenModel| t.full));
            reveal_strlit(" ");
            assert(" "@ =~= seq![' ']);
        }
        join_strings(&parts, " ")
    }
}

// ==================== the pinyin index ====================

/// Pinyin index: maps pinyin spellings and initials to the Chinese terms they spell.
/// Each list of entries holds every key once, with its terms in insertion order, each once.
#[derive(Debug, Clone)]
pub struct PinyinIndex {
    /// plain pinyin (syllables separated by spaces) -> original Chinese terms
    pinyin_to_terms: Vec<(String, Vec<String>)>,
    /// first letters -> original Chinese terms
    initial_to_terms: Vec<(String, Vec<String>)>,
}

pub struct PinyinIndexModel {
    pub plain: Seq<(Seq<char>, Seq<Seq<char>>)>,
    pub initials: Seq<(Seq<char>, Seq<Seq<char>>)>,
}

pub open spec fn entries_view(v: Seq<(String, Vec<String>)>) -> Seq<(Seq<char>, Seq<Seq<char>>)> {
    v.map_values(|e: (String, Vec<String>)| (e.0@, strings_view(e.1@)))
}

impl View for PinyinIndex {
    type V = PinyinIndexModel;

    closed spec fn view(&self) -> PinyinIndexModel {
        PinyinIndexModel {
            plain: entries_view(self.pinyin_to_terms@),
            initials: entries_view(self.initial_to_terms@),
        }
    }
}

/// Adds `term` under `key`: to the key's entry unless it is there already, or as a new entry
/// at the end.
pub open spec fn add_entry(es: Seq<(Seq<char>, Seq<Seq<char>>)>, key: Seq<char>, term: Seq<char>) -> Seq<
    (Seq<char>, Seq<Seq<char>>),
>
    decreases es.len(),
{
    if es.len() == 0 {
        seq![(key, seq![term])]
    } else if es[0].0 == key {
        seq![(key, if es[0].1.contains(term) { es[0].1 } else { es[0].1.push(term) })] + es.drop_first()
    } else {
        seq![es[0]] + add_entry(es.drop_first(), key, term)
    }
}

/// The index after `add_term(term)`: terms longer than 32 characters are not indexed; others
/// are added under their plain pinyin and under their first letters, when those are not empty.
pub open spec fn add_term_spec(m: PinyinIndexModel, term: Seq<char>) -> PinyinIndexModel {
    if term.len() > 32 {
        m
    } else {
        let plain = plain_pinyin_spec(term);
        let initials = first_letters_spec(term);
        PinyinIndexModel {
            plain: if plain.len() > 0 {
                add_entry(m.plain, plain, term)
            } else {
                m.plain
            },
            initials: if initials.len() > 0 {
                add_entry(m.initials, initials, term)
            } else {
                m.initials
            },
        }
    }
}

/// The terms of the first entry whose key is `key`, if any.
pub open spec fn lookup_terms(es: Seq<(Seq<char>, Seq<Seq<char>>)>, key: Seq<char>) -> Seq<Seq<char>>
    decreases es.len(),
{
    if es.len() == 0 {
        Seq::<Seq<char>>::empty()
    } else if es[0].0 == key {
        es[0].1
    } else {
        lookup_terms(es.drop_first(), key)
    }
}

/// The terms, entry after entry, of the entries whose key (spaces removed when `strip`)
/// starts with `q`.
pub open spec fn prefix_terms(es: Seq<(Seq<char>, Seq<Seq<char>>)>, q: Seq<char>, strip: bool) -> Seq<
    Seq<char>,
>
    decreases es.len(),
{
    if es.len() == 0 {
        Seq::<Seq<char>>::empty()
    } else {
        let key = if strip {
            without_spaces(es[0].0)
        } else {
            es[0].0
        };
        (if starts_with_seq(key, q) {
            es[0].1
        } else {
            Seq::<Seq<char>>::empty()
        }) + prefix_terms(es.drop_first(), q, strip)
    }
}

/// Inserts `t` into a sorted list unless it is there already.
pub open spec fn insert_sorted(acc: Seq<Seq<char>>, t: Seq<char>) -> Seq<Seq<char>>
    decreases acc.len(),
{
    if acc.len() == 0 {
        seq![t]
    } else if acc[0] == t {
        acc
    } else if text_lt(t, acc[0]) {
        seq![t] + acc
    } else {
        seq![acc[0]] + insert_sorted(acc.drop_first(), t)
    }
}

/// The strings of `all`, sorted and without repetitions.
pub open spec fn sorted_unique(all: Seq<Seq<char>>) -> Seq<Seq<char>>
    decreases all.len(),
{
    if all.len() == 0 {
        Seq::<Seq<char>>::empty()
    } else {
        insert_sorted(sorted_unique(all.drop_last()), all.last())
    }
}

/// The normalized pinyin query: lower-cased, ASCII spaces removed.
pub open spec fn normalized_query(q: Seq<char>) -> Seq<char> {
    without_spaces(unicode_lowercase_str(q))
}

/// Terms found for a normalized pinyin query `qp`: those whose plain pinyin or whose initials
/// equal it, then those whose plain pinyin (spaces removed) or initials start with it; sorted,
/// each once. An empty query finds nothing.
pub open spec fn search_normalized_spec(m: PinyinIndexModel, qp: Seq<char>) -> Seq<Seq<char>> {
    if qp.len() == 0 {
        Seq::<Seq<char>>::empty()
    } else {
        sorted_unique(
            lookup_terms(m.plain, qp) + lookup_terms(m.initials, qp) + prefix_terms(m.plain, qp, true)
                + prefix_terms(m.initials, qp, false),
        )
    }
}

/// Terms found for a pinyin query: the search for its normalized form.
pub open spec fn search_by_pinyin_spec(m: PinyinIndexModel, q: Seq<char>) -> Seq<Seq<char>> {
    search_normalized_spec(m, normalized_query(q))
}

/// Adds `(term, value)` unless `term` is a key already.
pub open spec fn add_if_absent(acc: Seq<(Seq<char>, Seq<char>)>, term: Seq<char>, value: Seq<char>) -> Seq<
    (Seq<char>, Seq<char>),
> {
    if exists|k: int| 0 <= k < acc.len() && (#[trigger] acc[k]).0 == term {
        acc
    } else {
        acc.push((term, value))
    }
}

pub open spec fn add_all_absent(acc: Seq<(Seq<char>, Seq<char>)>, terms: Seq<Seq<char>>, value: Seq<char>) -> Seq<
    (Seq<char>, Seq<char>),
>
    decreases terms.len(),
{
    if terms.len() == 0 {
        acc
    } else {
        add_if_absent(add_all_absent(acc, terms.drop_last(), value), terms.last(), value)
    }
}

/// For every entry (in order) whose plain pinyin without spaces contains `qp`, its terms that are
/// not yet present, paired with that pinyin.
pub open spec fn detailed_scan(es: Seq<(Seq<char>, Seq<Seq<char>>)>, qp: Seq<char>) -> Seq<(Seq<char>, Seq<char>)>
    decreases es.len(),
{
    if es.len() == 0 {
        Seq::<(Seq<char>, Seq<char>)>::empty()
    } else {
        let acc = detailed_scan(es.drop_last(), qp);
        let key = without_spaces(es.last().0);
        if contains_seq(key, qp) {
            add_all_absent(acc, es.last().1, key)
        } else {
            acc
        }
    }
}

/// The detailed search for a normalized pinyin query `qp`.
pub open spec fn detailed_normalized_spec(m: PinyinIndexModel, qp: Seq<char>) -> Seq<(Seq<char>, Seq<char>)> {
    if qp.len() == 0 {
        Seq::<(Seq<char>, Seq<char>)>::empty()
    } else {
        detailed_scan(m.plain, qp)
    }
}

pub open spec fn search_detailed_spec(m: PinyinIndexModel, q: Seq<char>) -> Seq<(Seq<char>, Seq<char>)> {
    detailed_normalized_spec(m, normalized_query(q))
}

/// Whether the pinyin query matches the text: its normalized form occurs in the text's plain
/// pinyin (spaces removed) or in its first letters.
pub open spec fn pinyin_matches_spec(q: Seq<char>, text: Seq<char>) -> bool {
    let ql = normalized_query(q);
    ql.len() > 0 && (contains_seq(without_spaces(plain_pinyin_spec(text)), ql) || contains_seq(
        first_letters_spec(text),
        ql,
    ))
}

fn list_contains(list: &Vec<String>, t: &String) -> (r: bool)
    ensures
        r == strings_view(list@).contains(t@),
{
    let mut k: usize = 0;
    while k < list.len()
        invariant
            k <= list@.len(),
            forall|j: int| 0 <= j < k ==> list@[j]@ != t@,
        decreases list@.len() - k,
    {
        if same_text(&list[k], t) {
            proof {
                assert(strings_view(list@)[k as int] == t@);
            }
            return true;
        }
        k += 1;
    }
    proof {
        if strings_view(list@).contains(t@) {
            let j = choose|j: int| 0 <= j < list@.len() && strings_view(list@)[j] == t@;
            assert(list@[j]@ == t@);
        }
    }
    false
}

fn add_to_entries(entries: &mut Vec<(String, Vec<String>)>, key: String, term: &String)
    ensures
        entries_view(final(entries)@) == add_entry(entries_view(old(entries)@), key@, term@),
{
    let ghost e0 = entries_view(entries@);
    let mut i: usize = 0;
    proof {
        assert(e0.skip(0) =~= e0);
        assert(e0.take(0) + add_entry(e0, key@, term@) =~= add_entry(e0, key@, term@));
    }
    while i < entries.len() && !same_text(&entries[i].0, &key)
        invariant
            i <= entries@.len(),
            e0 == entries_view(entries@),
            add_entry(e0, key@, term@) == e0.take(i as int) + add_entry(e0.skip(i as int), key@, term@),
        decreases entries@.len() - i,
    {
        proof {
            assert(e0.skip(i as int)[0] == e0[i as int]);
            assert(e0.skip(i as int).drop_first() =~= e0.skip(i + 1));
            assert(e0.take(i + 1) =~= e0.take(i as int) + seq![e0[i as int]]);
            assert(e0.take(i as int) + add_entry(e0.skip(i as int), key@, term@) =~= e0.take(i + 1)
                + add_entry(e0.skip(i + 1), key@, term@));
        }
        i += 1;
    }
    if i < entries.len() {
        proof {
            assert(e0.skip(i as int)[0] == e0[i as int]);
            assert(e0.skip(i as int).drop_first() =~= e0.skip(i + 1));
        }
        let (k, mut list) = entries.remove(i);
        let ghost l0 = strings_view(list@);
        if !list_contains(&list, term) {
            list.push(copy_string(term));
            proof {
                assert(strings_view(list@) =~= l0.push(term@));
            }
        }
        entries.insert(i, (k, list));
        proof {
            assert(entries_view(entries@) =~= e0.take(i as int) + seq![(key@, strings_view(list@))] + e0.skip(i + 1));
            assert(add_entry(e0.skip(i as int), key@, term@) =~= seq![(key@, strings_view(list@))] + e0.skip(i + 1));
        }
    } else {
        let mut list: Vec<String> = Vec::new();
        list.push(copy_string(term));
        let ghost kv = key@;
        entries.push((key, list));
        proof {
            assert(e0.skip(i as int) =~= Seq::<(Seq<char>, Seq<Seq<char>>)>::empty());
            assert(strings_view(list@) =~= seq![term@]);
            assert(entries_view(entries@) =~= e0.take(i as int) + seq![(kv, seq![term@])]);
        }
    }
}

pub(crate) fn insert_sorted_exec(acc: &mut Vec<String>, t: String)
    ensures
        strings_view(final(acc)@) == insert_sorted(strings_view(old(acc)@), t@),
{
    let ghost a0 = strings_view(acc@);
    let mut p: usize = 0;
    proof {
        assert(a0.skip(0) =~= a0);
        assert(a0.take(0) + insert_sorted(a0, t@) =~= insert_sorted(a0, t@));
    }
    while p < acc.len() && !same_text(&acc[p], &t) && !text_less(t.as_str(), acc[p].as_str())
        invariant
            p <= acc@.len(),
            a0 == strings_view(acc@),
            insert_sorted(a0, t@) == a0.take(p as int) + insert_sorted(a0.skip(p as int), t@),
        decreases acc@.len() - p,
    {
        proof {
            assert(a0.skip(p as int)[0] == a0[p as int]);
            assert(a0.skip(p as int).drop_first() =~= a0.skip(p + 1));
            assert(a0.take(p + 1) =~= a0.take(p as int) + seq![a0[p as int]]);
            assert(a0.take(p as int) + insert_sorted(a0.skip(p as int), t@) =~= a0.take(p + 1)
                + insert_sorted(a0.skip(p + 1), t@));
        }
        p += 1;
    }
    if p < acc.len() && same_text(&acc[p], &t) {
        proof {
            assert(a0.skip(p as int)[0] == a0[p as int]);
            assert(a0.take(p as int) + a0.skip(p as int) =~= a0);
        }
    } else {
        proof {
            if p < a0.len() {
                assert(a0.skip(p as int)[0] == a0[p as int]);
            } else {
                assert(a0.skip(p as int) =~= Seq::<Seq<char>>::empty());
            }
        }
        let ghost tv = t@;
        acc.insert(p, t);
        proof {
            assert(strings_view(acc@) =~= a0.take(p as int) + seq![tv] + a0.skip(p as int));
            assert(insert_sorted(a0, tv) =~= strings_view(acc@));
        }
    }
}

/// Appends copies of `terms` to `all`.
fn append_copies(all: &mut Vec<String>, terms: &Vec<String>)
    ensures
        strings_view(final(all)@) == strings_view(old(all)@) + strings_view(terms@),
{
    let ghost a0 = strings_view(all@);
    let mut k: usize = 0;
    while k < terms.len()
        invariant
            k <= terms@.len(),
            strings_view(all@) == a0 + strings_view(terms@).take(k as int),
        decreases terms@.len() - k,
    {
        let ghost before = all@;
        let c = copy_string(&terms[k]);
        all.push(c);
        proof {
            assert(all@ == before.push(c));
            assert(strings_view(all@) =~= strings_view(before).push(c@));
            assert(strings_view(terms@).take(k + 1) =~= strings_view(terms@).take(k as int).push(terms@[k as int]@));
            assert(strings_view(all@) =~= a0 + strings_view(terms@).take(k + 1));
        }
        k += 1;
    }
    proof {
        assert(strings_view(terms@).take(k as int) =~= strings_view(terms@));
    }
}

fn lookup_entry(entries: &Vec<(String, Vec<String>)>, key: &String) -> (r: Vec<String>)
    ensures
        strings_view(r@) == lookup_terms(entries_view(entries@), key@),
{
    let ghost e0 = entries_view(entries@);
    let mut i: usize = 0;
    proof {
        assert(e0.skip(0) =~= e0);
    }
    while i < entries.len()
        invariant
            i <= entries@.len(),
            e0 == entries_view(entries@),
            lookup_terms(e0, key@) == lookup_terms(e0.skip(i as int), key@),
        decreases entries@.len() - i,
    {
        proof {
            assert(e0.skip(i as int)[0] == e0[i as int]);
            assert(e0.skip(i as int).drop_first() =~= e0.skip(i + 1));
        }
        if same_text(&entries[i].0, key) {
            let mut r: Vec<String> = Vec::new();
            append_copies(&mut r, &entries[i].1);
            proof {
                assert(strings_view(r@) =~= strings_view(entries@[i as int].1@));
            }
            return r;
        }
        i += 1;
    }
    proof {
        assert(e0.skip(i as int) =~= Seq::<(Seq<char>, Seq<Seq<char>>)>::empty());
    }
    let r: Vec<String> = Vec::new();
    proof {
        assert(strings_view(r@) =~= Seq::<Seq<char>>::empty());
    }
    r
}

fn collect_prefix_terms(entries: &Vec<(String, Vec<String>)>, q: &Vec<char>, strip: bool, all: &mut Vec<String>)
    ensures
        strings_view(final(all)@) == strings_view(old(all)@) + prefix_terms(entries_view(entries@), q@, strip),
{
    let ghost e0 = entries_view(entries@);
    let ghost a0 = strings_view(all@);
    let mut i: usize = 0;
    proof {
        assert(e0.skip(0) =~= e0);
        assert(a0 + prefix_terms(e0, q@, strip) =~= strings_view(all@) + prefix_terms(e0.skip(0), q@, strip));
    }
    while i < entries.len()
        invariant
            i <= entries@.len(),
            e0 == entries_view(entries@),
            a0 + prefix_terms(e0, q@, strip) == strings_view(all@) + prefix_terms(e0.skip(i as int), q@, strip),
        decreases entries@.len() - i,
    {
        proof {
            assert(e0.skip(i as int)[0] == e0[i as int]);
            assert(e0.skip(i as int).drop_first() =~= e0.skip(i + 1));
        }
        let key_chars = chars_of(entries[i].0.as_str());
        let key = if strip {
            remove_spaces(&key_chars)
        } else {
            key_chars
        };
        let ghost before = strings_view(all@);
        if starts_with_chars(&key, q) {
            append_copies(all, &entries[i].1);
            proof {
                assert(before + prefix_terms(e0.skip(i as int), q@, strip) =~= strings_view(all@) + prefix_terms(e0.skip(i + 1), q@, strip));
            }
        } else {
            proof {
                assert(before + prefix_terms(e0.skip(i as int), q@, strip) =~= strings_view(all@) + prefix_terms(e0.skip(i + 1), q@, strip));
            }
        }
        i += 1;
    }
    proof {
        assert(e0.skip(i as int) =~= Seq::<(Seq<char>, Seq<Seq<char>>)>::empty());
        assert(strings_view(all@) + Seq::<Seq<char>>::empty() =~= strings_view(all@));
    }
}

fn normalize_query(q: &str) -> (r: Vec<char>)
    ensures
        r@ == normalized_query(q@),
{
    let lower = str_to_lowercase(q);
    let chars = chars_of(lower.as_str());
    remove_spaces(&chars)
}

impl PinyinIndex {
    pub fn new() -> (r: Self)
        ensures
            r@.plain == Seq::<(Seq<char>, Seq<Seq<char>>)>::empty(),
            r@.initials == Seq::<(Seq<char>, Seq<Seq<char>>)>::empty(),
    {
        let r = PinyinIndex { pinyin_to_terms: Vec::new(), initial_to_terms: Vec::new() };
        proof {
            assert(r@.plain =~= Seq::<(Seq<char>, Seq<Seq<char>>)>::empty());
            assert(r@.initials =~= Seq::<(Seq<char>, Seq<Seq<char>>)>::empty());
        }
        r
    }

    /// Add a Chinese term's pinyin mapping
    pub fn add_term(&mut self, chinese_term: &str)
        ensures
            final(self)@ == add_term_spec(old(self)@, chinese_term@),
    {
        // Long terms are not indexed: this bounds the number of keys a huge paragraph adds.
        let chars = chars_of(chinese_term);
        if chars.len() > 32 {
            return;
        }
        let plain = PinyinConverter::to_plain_pinyin(chinese_term);
        let initials = PinyinConverter::to_first_letters(chinese_term);
        let term = string_from_chars(&chars);
        if !plain.as_str().is_empty() {
            add_to_entries(&mut self.pinyin_to_terms, plain, &term);
        }
        if !initials.as_str().is_empty() {
            add_to_entries(&mut self.initial_to_terms, initials, &term);
        }
    }

    /// Build pinyin index from a list of Chinese terms
    pub fn build_from_terms(&mut self, terms: &[String])
        ensures
            final(self)@ == add_terms_spec(old(self)@, strings_view(terms@)),
    {
        let ghost m0 = self@;
        let mut k: usize = 0;
        while k < terms.len()
            invariant
                k <= terms@.len(),
                self@ == add_terms_spec(m0, strings_view(terms@).take(k as int)),
            decreases terms@.len() - k,
        {
            self.add_term(terms[k].as_str());
            proof {
                assert(strings_view(terms@).take(k + 1).drop_last() =~= strings_view(terms@).take(k as int));
            }
            k += 1;
        }
        proof {
            assert(strings_view(terms@).take(k as int) =~= strings_view(terms@));
        }
    }

    /// Search by pinyin: given a pinyin query, find matching Chinese terms
    pub fn search_by_pinyin(&self, pinyin_query: &str) -> (r: Vec<String>)
        ensures
            strings_view(r@) == search_by_pinyin_spec(self@, pinyin_query@),
    {
        let qp = normalize_query(pinyin_query);
        let q = string_from_chars(&qp);
        self.search_normalized(q.as_str())
    }

    /// Search by an already normalized pinyin query (lower-cased, spaces removed): the terms
    /// whose plain pinyin (spaces removed) or first letters equal it or start with it, sorted,
    /// each once.
    pub fn search_normalized(&self, query: &str) -> (r: Vec<String>)
        ensures
            strings_view(r@) == search_normalized_spec(self@, query@),
    {
        let qp = chars_of(query);
        if qp.len() == 0 {
            let r: Vec<String> = Vec::new();
            proof {
                assert(strings_view(r@) =~= Seq::<Seq<char>>::empty());
            }
            return r;
        }
        let key = string_from_chars(&qp);
        let mut all = lookup_entry(&self.pinyin_to_terms, &key);
        let more = lookup_entry(&self.initial_to_terms, &key);
        append_copies(&mut all, &more);
        collect_prefix_terms(&self.pinyin_to_terms, &qp, true, &mut all);
        collect_prefix_terms(&self.initial_to_terms, &qp, false, &mut all);
        let ghost av = strings_view(all@);
        let mut results: Vec<String> = Vec::new();
        let mut k: usize = 0;
        proof {
            assert(av.take(0) =~= Seq::<Seq<char>>::empty());
            assert(strings_view(results@) =~= Seq::<Seq<char>>::empty());
        }
        while k < all.len()
            invariant
                k <= all@.len(),
                av == strings_view(all@),
                strings_view(results@) == sorted_unique(av.take(k as int)),
            decreases all@.len() - k,
        {
            insert_sorted_exec(&mut results, copy_string(&all[k]));
            proof {
                assert(av.take(k + 1).drop_last() =~= av.take(k as int));
                assert(av.take(k + 1).last() == all@[k as int]@);
            }
            k += 1;
        }
        proof {
            assert(av.take(k as int) =~= av);
        }
        results
    }

    /// Search by pinyin, returning matched original terms with the (space-free) pinyin
    /// that matched them
    pub fn search_by_pinyin_detailed(&self, pinyin_query: &str) -> (r: Vec<(String, String)>)
        ensures
            pairs_view(r@) == search_detailed_spec(self@, pinyin_query@),
    {
        let qp = normalize_query(pinyin_query);
        let q = string_from_chars(&qp);
        self.search_normalized_detailed(q.as_str())
    }

    /// The detailed search for an already normalized pinyin query: each term whose plain
    /// pinyin (spaces removed) contains it, once, with that spelling.
    pub fn search_normalized_detailed(&self, query: &str) -> (r: Vec<(String, String)>)
        ensures
            pairs_view(r@) == detailed_normalized_spec(self@, query@),
    {
        let qp = chars_of(query);
        let mut results: Vec<(String, String)> = Vec::new();
        if qp.len() == 0 {
            proof {
                assert(pairs_view(results@) =~= Seq::<(Seq<char>, Seq<char>)>::empty());
            }
            return results;
        }
        let ghost e0 = entries_view(self.pinyin_to_terms@);
        let mut i: usize = 0;
        proof {
            assert(e0.take(0) =~= Seq::<(Seq<char>, Seq<Seq<char>>)>::empty());
            assert(pairs_view(results@) =~= Seq::<(Seq<char>, Seq<char>)>::empty());
        }
        while i < self.pinyin_to_terms.len()
            invariant
                i <= self.pinyin_to_terms@.len(),
                e0 == entries_view(self.pinyin_to_terms@),
                pairs_view(results@) == detailed_scan(e0.take(i as int), qp@),
            decreases self.pinyin_to_terms@.len() - i,
        {
            let entry = &self.pinyin_to_terms[i];
            let key_chars = chars_of(entry.0.as_str());
            let key = remove_spaces(&key_chars);
            proof {
                assert(e0.take(i + 1).drop_last() =~= e0.take(i as int));
                assert(e0.take(i + 1).last() == e0[i as int]);
            }
            if contains_chars(&key, &qp) {
                let key_str = string_from_chars(&key);
                add_pairs_absent(&mut results, &entry.1, &key_str);
            }
            i += 1;
        }
        proof {
            assert(e0.take(i as int) =~= e0);
        }
        results
    }
}

pub open spec fn pairs_view(v: Seq<(String, String)>) -> Seq<(Seq<char>, Seq<char>)> {
    v.map_values(|p: (String, String)| (p.0@, p.1@))
}

pub open spec fn add_terms_spec(m: PinyinIndexModel, terms: Seq<Seq<char>>) -> PinyinIndexModel
    decreases terms.len(),
{
    if terms.len() == 0 {
        m
    } else {
        add_term_spec(add_terms_spec(m, terms.drop_last()), terms.last())
    }
}

fn add_pairs_absent(results: &mut Vec<(String, String)>, terms: &Vec<String>, value: &String)
    ensures
        pairs_view(final(results)@) == add_all_absent(pairs_view(old(results)@), strings_view(terms@), value@),
{
    let ghost r0 = pairs_view(results@);
    let mut k: usize = 0;
    proof {
        assert(strings_view(terms@).take(0) =~= Seq::<Seq<char>>::empty());
    }
    while k < terms.len()
        invariant
            k <= terms@.len(),
            pairs_view(results@) == add_all_absent(r0, strings_view(terms@).take(k as int), value@),
        decreases terms@.len() - k,
    {
        proof {
            assert(strings_view(terms@).take(k + 1).drop_last() =~= strings_view(terms@).take(k as int));
            assert(strings_view(terms@).take(k + 1).last() == terms@[k as int]@);
        }
        let t = &terms[k];
        let mut found = false;
        let mut j: usize = 0;
        while j < results.len()
            invariant
                j <= results@.len(),
                found == exists|m: int| 0 <= m < j && (#[trigger] pairs_view(results@)[m]).0 == t@,
            decreases results@.len() - j,
        {
            if same_text(&results[j].0, t) {
                found = true;
            }
            proof {
                assert(pairs_view(results@)[j as int].0 == results@[j as int].0@);
            }
            j += 1;
        }
        if !found {
            let ghost before = pairs_view(results@);
            results.push((copy_string(t), copy_string(value)));
            proof {
                assert(pairs_view(results@) =~= before.push((t@, value@)));
            }
        }
        k += 1;
    }
    proof {
        assert(strings_view(terms@).take(k as int) =~= strings_view(terms@));
    }
}

/// Check if a pinyin query matches Chinese text
pub fn pinyin_matches(query_pinyin: &str, chinese_text: &str) -> (r: bool)
    ensures
        r == pinyin_matches_spec(query_pinyin@, chinese_text@),
{
    let ql = normalize_query(query_pinyin);
    if ql.len() == 0 {
        return false;
    }
    let plain = PinyinConverter::to_plain_pinyin(chinese_text);
    let plain_chars = chars_of(plain.as_str());
    let plain_compact = remove_spaces(&plain_chars);
    let initials = PinyinConverter::to_first_letters(chinese_text);
    let initial_chars = chars_of(initials.as_str());
    contains_chars(&plain_compact, &ql) || contains_chars(&initial_chars, &ql)
}

/// The strings of `v` sorted, each once.
pub fn sort_dedup_strings(v: &Vec<String>) -> (r: Vec<String>)
    ensures
        strings_view(r@) == sorted_unique(strings_view(v@)),
{
    let ghost av = strings_view(v@);
    let mut r: Vec<String> = Vec::new();
    let mut k: usize = 0;
    proof {
        assert(av.take(0) =~= Seq::<Seq<char>>::empty());
        assert(strings_view(r@) =~= Seq::<Seq<char>>::empty());
    }
    while k < v.len()
        invariant
            k <= v@.len(),
            av == strings_view(v@),
            strings_view(r@) == sorted_unique(av.take(k as int)),
        decreases v@.len() - k,
    {
        proof {
            assert(av.take(k + 1).drop_last() =~= av.take(k as int));
            assert(av.take(k + 1).last() == v@[k as int]@);
        }
        insert_sorted_exec(&mut r, copy_string(&v[k]));
        k += 1;
    }
    proof {
        assert(av.take(av.len() as int) =~= av);
    }
    r
}

impl Default for PinyinIndex {
    fn default() -> (r: Self)
        ensures
            r@.plain == Seq::<(Seq<char>, Seq<Seq<char>>)>::empty(),
            r@.initials == Seq::<(Seq<char>, Seq<Seq<char>>)>::empty(),
    {
        Self::new()
    }
}

/// `acc` is strictly increasing in text order.
pub open spec fn strictly_sorted(acc: Seq<Seq<char>>) -> bool {
    forall|i: int, j: int| 0 <= i < j < acc.len() ==> text_lt(#[trigger] acc[i], #[trigger] acc[j])
}

proof fn lemma_insert_sorted(acc: Seq<Seq<char>>, t: Seq<char>)
    requires
        strictly_sorted(acc),
    ensures
        strictly_sorted(insert_sorted(acc, t)),
        forall|x: Seq<char>| #[trigger] insert_sorted(acc, t).contains(x) <==> (acc.contains(x) || x == t),
    decreases acc.len(),
{
    let r = insert_sorted(acc, t);
    if acc.len() == 0 {
        assert forall|x: Seq<char>| r.contains(x) <==> (acc.contains(x) || x == t) by {
            if r.contains(x) {
                let k = choose|k: int| 0 <= k < r.len() && r[k] == x;
                assert(k == 0);
            }
            if x == t {
                assert(r[0] == t);
            }
        }
    } else if acc[0] == t {
        assert forall|x: Seq<char>| r.contains(x) <==> (acc.contains(x) || x == t) by {
            if x == t {
                assert(acc[0] == t);
            }
        }
    } else if text_lt(t, acc[0]) {
        assert forall|i: int, j: int| 0 <= i < j < r.len() implies text_lt(#[trigger] r[i], #[trigger] r[j]) by {
            if i == 0 {
                assert(r[j] == acc[j - 1]);
                if j - 1 > 0 {
                    assert(text_lt(acc[0], acc[j - 1]));
                    crate::text::lemma_text_lt_transitive(t, acc[0], acc[j - 1]);
                }
            } else {
                assert(r[i] == acc[i - 1] && r[j] == acc[j - 1]);
            }
        }
        assert forall|x: Seq<char>| r.contains(x) <==> (acc.contains(x) || x == t) by {
            if r.contains(x) {
                let k = choose|k: int| 0 <= k < r.len() && r[k] == x;
                if k > 0 {
                    assert(acc[k - 1] == x);
                }
            }
            if acc.contains(x) {
                let k = choose|k: int| 0 <= k < acc.len() && acc[k] == x;
                assert(r[k + 1] == x);
            }
            if x == t {
                assert(r[0] == t);
            }
        }
    } else {
        let tail = acc.drop_first();
        assert(strictly_sorted(tail)) by {
            assert forall|i: int, j: int| 0 <= i < j < tail.len() implies text_lt(#[trigger] tail[i], #[trigger] tail[j]) by {
                assert(tail[i] == acc[i + 1] && tail[j] == acc[j + 1]);
            }
        }
        lemma_insert_sorted(tail, t);
        let rt = insert_sorted(tail, t);
        crate::text::lemma_text_lt_total(t, acc[0]);
        assert forall|k: int| 0 <= k < rt.len() implies text_lt(acc[0], #[trigger] rt[k]) by {
            assert(rt.contains(rt[k]));
            if rt[k] == t {
            } else {
                assert(tail.contains(rt[k]));
                let m = choose|m: int| 0 <= m < tail.len() && tail[m] == rt[k];
                assert(tail[m] == acc[m + 1]);
                assert(acc[m + 1] == rt[k]);
                assert(text_lt(acc[0], acc[m + 1]));
            }
        }
        assert forall|i: int, j: int| 0 <= i < j < r.len() implies text_lt(#[trigger] r[i], #[trigger] r[j]) by {
            if i == 0 {
                assert(r[j] == rt[j - 1]);
            } else {
                assert(r[i] == rt[i - 1] && r[j] == rt[j - 1]);
            }
        }
        assert forall|x: Seq<char>| r.contains(x) <==> (acc.contains(x) || x == t) by {
            if r.contains(x) {
                let k = choose|k: int| 0 <= k < r.len() && r[k] == x;
                if k > 0 {
                    assert(rt[k - 1] == x);
                    assert(rt.contains(x));
                    if tail.contains(x) {
                        let m = choose|m: int| 0 <= m < tail.len() && tail[m] == x;
                        assert(acc[m + 1] == x);
                    }
                } else {
                    assert(acc[0] == x);
                }
            }
            if acc.contains(x) {
                let k = choose|k: int| 0 <= k < acc.len() && acc[k] == x;
                if k == 0 {
                    assert(r[0] == x);
                } else {
                    assert(tail[k - 1] == x);
                    assert(tail.contains(x));
                    assert(rt.contains(x));
                    let m = choose|m: int| 0 <= m < rt.len() && rt[m] == x;
                    assert(r[m + 1] == x);
                }
            }
            if x == t {
                assert(rt.contains(t));
                let m = choose|m: int| 0 <= m < rt.len() && rt[m] == t;
                assert(r[m + 1] == t);
            }
        }
    }
}

/// Sorting with duplicates removed gives a strictly increasing list of exactly the
/// elements given: pinyin search results and merged suggestions come out sorted, each once.
pub proof fn lemma_sorted_unique(all: Seq<Seq<char>>)
    ensures
        strictly_sorted(sorted_unique(all)),
        sorted_unique(all).no_duplicates(),
        forall|x: Seq<char>| sorted_unique(all).contains(x) <==> all.contains(x),
    decreases all.len(),
{
    if all.len() > 0 {
        lemma_sorted_unique(all.drop_last());
        lemma_insert_sorted(sorted_unique(all.drop_last()), all.last());
        assert forall|x: Seq<char>| sorted_unique(all).contains(x) <==> all.contains(x) by {
            if all.drop_last().contains(x) {
                let k = choose|k: int| 0 <= k < all.drop_last().len() && all.drop_last()[k] == x;
                assert(all[k] == x);
            }
            if all.contains(x) && x != all.last() {
                let k = choose|k: int| 0 <= k < all.len() && all[k] == x;
                assert(all.drop_last()[k] == x);
            }
            if x == all.last() {
                assert(all[all.len() - 1] == x);
            }
        }
    }
    let r = sorted_unique(all);
    assert forall|i: int, j: int| 0 <= i < r.len() && 0 <= j < r.len() && i != j implies r[i] != r[j] by {
        if i < j {
            assert(text_lt(r[i], r[j]));
        } else {
            assert(text_lt(r[j], r[i]));
        }
        if r[i] == r[j] {
            crate::text::lemma_text_lt_irreflexive(r[i]);
        }
    }
}


proof fn lemma_add_entry_idempotent(es: Seq<(Seq<char>, Seq<Seq<char>>)>, key: Seq<char>, term: Seq<char>)
    ensures
        add_entry(add_entry(es, key, term), key, term) == add_entry(es, key, term),
    decreases es.len(),
{
    let r = add_entry(es, key, term);
    if es.len() == 0 {
        assert(r[0].1.contains(term)) by {
            assert(r[0].1[0] == term);
        }
        assert(add_entry(r, key, term) =~= r);
    } else if es[0].0 == key {
        assert(r[0].1.contains(term)) by {
            if !es[0].1.contains(term) {
                assert(es[0].1.push(term)[es[0].1.len() as int] == term);
            }
        }
        assert(r.drop_first() =~= es.drop_first());
        assert(add_entry(r, key, term) =~= r);
    } else {
        lemma_add_entry_idempotent(es.drop_first(), key, term);
        assert(r.drop_first() =~= add_entry(es.drop_first(), key, term));
        assert(add_entry(r, key, term) =~= r);
    }
}

proof fn lemma_add_entry_has(es: Seq<(Seq<char>, Seq<Seq<char>>)>, key: Seq<char>, term: Seq<char>)
    ensures
        exists|i: int|
            0 <= i < add_entry(es, key, term).len() && (#[trigger] add_entry(es, key, term)[i]).0 == key
                && add_entry(es, key, term)[i].1.contains(term),
    decreases es.len(),
{
    let r = add_entry(es, key, term);
    if es.len() == 0 {
        assert(r[0].1[0] == term);
        assert(r[0].0 == key && r[0].1.contains(term));
    } else if es[0].0 == key {
        if !es[0].1.contains(term) {
            assert(es[0].1.push(term)[es[0].1.len() as int] == term);
        }
        assert(r[0].0 == key && r[0].1.contains(term));
    } else {
        lemma_add_entry_has(es.drop_first(), key, term);
        let rest = add_entry(es.drop_first(), key, term);
        let i = choose|i: int| 0 <= i < rest.len() && (#[trigger] rest[i]).0 == key && rest[i].1.contains(term);
        assert(r[i + 1] == rest[i]);
    }
}

proof fn lemma_prefix_terms_has(
    es: Seq<(Seq<char>, Seq<Seq<char>>)>,
    q: Seq<char>,
    strip: bool,
    i: int,
    term: Seq<char>,
)
    requires
        0 <= i < es.len(),
        starts_with_seq(if strip { without_spaces(es[i].0) } else { es[i].0 }, q),
        es[i].1.contains(term),
    ensures
        prefix_terms(es, q, strip).contains(term),
    decreases i,
{
    let head = if starts_with_seq(if strip { without_spaces(es[0].0) } else { es[0].0 }, q) {
        es[0].1
    } else {
        Seq::<Seq<char>>::empty()
    };
    let rest = prefix_terms(es.drop_first(), q, strip);
    if i == 0 {
        let k = choose|k: int| 0 <= k < es[0].1.len() && es[0].1[k] == term;
        assert((head + rest)[k] == term);
    } else {
        assert(es.drop_first()[i - 1] == es[i]);
        lemma_prefix_terms_has(es.drop_first(), q, strip, i - 1, term);
        let k = choose|k: int| 0 <= k < rest.len() && rest[k] == term;
        assert((head + rest)[head.len() + k] == term);
    }
}

/// Adding a term to the pinyin index twice is the same as adding it once.
pub proof fn lemma_add_term_idempotent(m: PinyinIndexModel, term: Seq<char>)
    ensures
        add_term_spec(add_term_spec(m, term), term) == add_term_spec(m, term),
{
    let plain = plain_pinyin_spec(term);
    let initials = first_letters_spec(term);
    if term.len() <= 32 {
        if plain.len() > 0 {
            lemma_add_entry_idempotent(m.plain, plain, term);
        }
        if initials.len() > 0 {
            lemma_add_entry_idempotent(m.initials, initials, term);
        }
    }
}

/// A term added to the pinyin index is found again by every normalized pinyin query that
/// begins the term's plain pinyin (spaces removed), or its first letters.
pub proof fn lemma_added_term_found_normalized(m: PinyinIndexModel, term: Seq<char>, qp: Seq<char>)
    requires
        term.len() <= 32,
        qp.len() > 0,
        (plain_pinyin_spec(term).len() > 0 && starts_with_seq(without_spaces(plain_pinyin_spec(term)), qp))
            || (first_letters_spec(term).len() > 0 && starts_with_seq(first_letters_spec(term), qp)),
    ensures
        search_normalized_spec(add_term_spec(m, term), qp).contains(term),
{
    let m2 = add_term_spec(m, term);
    let plain = plain_pinyin_spec(term);
    let initials = first_letters_spec(term);
    let a = lookup_terms(m2.plain, qp);
    let b = lookup_terms(m2.initials, qp);
    let c = prefix_terms(m2.plain, qp, true);
    let d = prefix_terms(m2.initials, qp, false);
    let all = a + b + c + d;
    if plain.len() > 0 && starts_with_seq(without_spaces(plain), qp) {
        lemma_add_entry_has(m.plain, plain, term);
        let i = choose|i: int| 0 <= i < m2.plain.len() && (#[trigger] m2.plain[i]).0 == plain && m2.plain[i].1.contains(term);
        lemma_prefix_terms_has(m2.plain, qp, true, i, term);
        let k = choose|k: int| 0 <= k < c.len() && c[k] == term;
        assert(all[a.len() + b.len() + k] == term);
    } else {
        lemma_add_entry_has(m.initials, initials, term);
        let i = choose|i: int| 0 <= i < m2.initials.len() && (#[trigger] m2.initials[i]).0 == initials && m2.initials[i].1.contains(term);
        lemma_prefix_terms_has(m2.initials, qp, false, i, term);
        let k = choose|k: int| 0 <= k < d.len() && d[k] == term;
        assert(all[a.len() + b.len() + c.len() + k] == term);
    }
    assert(all.contains(term));
    lemma_sorted_unique(all);
    assert(search_normalized_spec(m2, qp) == sorted_unique(all));
}

/// A term added to the pinyin index is found again by every pinyin query that normalizes to
/// a beginning of the term's plain pinyin (spaces removed), or of its first letters.
pub proof fn lemma_added_term_found(m: PinyinIndexModel, term: Seq<char>, q: Seq<char>)
    requires
        term.len() <= 32,
        normalized_query(q).len() > 0,
        (plain_pinyin_spec(term).len() > 0 && starts_with_seq(without_spaces(plain_pinyin_spec(term)), normalized_query(q)))
            || (first_letters_spec(term).len() > 0 && starts_with_seq(first_letters_spec(term), normalized_query(q))),
    ensures
        search_by_pinyin_spec(add_term_spec(m, term), q).contains(term),
{
    lemma_added_term_found_normalized(m, term, normalized_query(q));
}

proof fn lemma_starts_with_self(x: Seq<char>)
    ensures
        starts_with_seq(x, x),
{
    assert(x.take(x.len() as int) =~= x);
}

/// What `add_term` does: a term longer than 32 characters, or one with no pinyin tokens,
/// leaves the index as it is; otherwise the term is found again by its own plain pinyin
/// (spaces removed) and by its first letters, whenever those are not empty.
pub proof fn lemma_add_term_laws(m: PinyinIndexModel, term: Seq<char>)
    ensures
        term.len() > 32 || pinyin_of(term).len() == 0 ==> add_term_spec(m, term) == m,
        term.len() <= 32 && without_spaces(plain_pinyin_spec(term)).len() > 0 ==> search_normalized_spec(
            add_term_spec(m, term),
            without_spaces(plain_pinyin_spec(term)),
        ).contains(term),
        term.len() <= 32 && first_letters_spec(term).len() > 0 ==> search_normalized_spec(
            add_term_spec(m, term),
            first_letters_spec(term),
        ).contains(term),
{
    let plain = plain_pinyin_spec(term);
    let initials = first_letters_spec(term);
    if pinyin_of(term).len() == 0 {
        assert(pinyin_of(term).map_values(|t: PinyinTokenModel| t.plain).len() == 0);
        assert(pinyin_of(term).map_values(|t: PinyinTokenModel| t.initial).len() == 0);
        assert(plain.len() == 0);
        assert(initials.len() == 0);
    }
    if term.len() <= 32 && without_spaces(plain).len() > 0 {
        lemma_starts_with_self(without_spaces(plain));
        assert(plain.len() > 0) by {
            if plain.len() == 0 {
                assert(without_spaces(plain) =~= plain);
            }
        }
        lemma_added_term_found_normalized(m, term, without_spaces(plain));
    }
    if term.len() <= 32 && initials.len() > 0 {
        lemma_starts_with_self(initials);
        lemma_added_term_found_normalized(m, term, initials);
    }
}


/// Each term of `ps` once, each paired with a spelling that contains `qp`.
pub open spec fn detailed_ok(ps: Seq<(Seq<char>, Seq<char>)>, qp: Seq<char>) -> bool {
    &&& forall|i: int, j: int| 0 <= i < j < ps.len() ==> (#[trigger] ps[i]).0 != (#[trigger] ps[j]).0
    &&& forall|i: int| 0 <= i < ps.len() ==> contains_seq((#[trigger] ps[i]).1, qp)
}

proof fn lemma_add_all_absent_ok(acc: Seq<(Seq<char>, Seq<char>)>, terms: Seq<Seq<char>>, value: Seq<char>, qp: Seq<char>)
    requires
        detailed_ok(acc, qp),
        contains_seq(value, qp),
    ensures
        detailed_ok(add_all_absent(acc, terms, value), qp),
    decreases terms.len(),
{
    if terms.len() > 0 {
        lemma_add_all_absent_ok(acc, terms.drop_last(), value, qp);
        let a = add_all_absent(acc, terms.drop_last(), value);
        let t = terms.last();
        if !(exists|k: int| 0 <= k < a.len() && (#[trigger] a[k]).0 == t) {
            let r = a.push((t, value));
            assert forall|i: int, j: int| 0 <= i < j < r.len() implies (#[trigger] r[i]).0 != (#[trigger] r[j]).0 by {
                if j == a.len() {
                    assert(r[i] == a[i]);
                } else {
                    assert(r[i] == a[i] && r[j] == a[j]);
                }
            }
            assert forall|i: int| 0 <= i < r.len() implies contains_seq((#[trigger] r[i]).1, qp) by {
                if i < a.len() {
                    assert(r[i] == a[i]);
                }
            }
        }
    }
}

proof fn lemma_detailed_scan_ok(es: Seq<(Seq<char>, Seq<Seq<char>>)>, qp: Seq<char>)
    ensures
        detailed_ok(detailed_scan(es, qp), qp),
    decreases es.len(),
{
    if es.len() > 0 {
        lemma_detailed_scan_ok(es.drop_last(), qp);
        let key = without_spaces(es.last().0);
        if contains_seq(key, qp) {
            lemma_add_all_absent_ok(detailed_scan(es.drop_last(), qp), es.last().1, key, qp);
        }
    }
}

/// The detailed pinyin search names each term once, each with a spelling (spaces removed)
/// that contains the normalized query.
pub proof fn lemma_detailed_search(m: PinyinIndexModel, q: Seq<char>)
    ensures
        detailed_ok(search_detailed_spec(m, q), normalized_query(q)),
{
    if normalized_query(q).len() > 0 {
        lemma_detailed_scan_ok(m.plain, normalized_query(q));
    }
}


/// Whether some entry of `es` with key `k` lists `x`.
pub open spec fn entry_has(es: Seq<(Seq<char>, Seq<Seq<char>>)>, k: Seq<char>, x: Seq<char>) -> bool {
    exists|i: int| 0 <= i < es.len() && (#[trigger] es[i]).0 == k && es[i].1.contains(x)
}

proof fn lemma_add_entry_entry_has(es: Seq<(Seq<char>, Seq<Seq<char>>)>, key: Seq<char>, term: Seq<char>, k: Seq<char>, x: Seq<char>)
    ensures
        entry_has(add_entry(es, key, term), k, x) <==> (entry_has(es, k, x) || (k == key && x == term)),
    decreases es.len(),
{
    let r = add_entry(es, key, term);
    if es.len() == 0 {
        if k == key && x == term {
            assert(r[0].1[0] == term);
            assert(r[0].0 == k && r[0].1.contains(x));
        }
        if entry_has(r, k, x) {
            let i = choose|i: int| 0 <= i < r.len() && (#[trigger] r[i]).0 == k && r[i].1.contains(x);
            assert(i == 0);
            let j = choose|j: int| 0 <= j < r[0].1.len() && r[0].1[j] == x;
            assert(j == 0);
        }
    } else if es[0].0 == key {
        let l0 = es[0].1;
        let l1 = if l0.contains(term) { l0 } else { l0.push(term) };
        assert(l1.contains(x) <==> (l0.contains(x) || x == term)) by {
            if !l0.contains(term) {
                if l1.contains(x) {
                    let j = choose|j: int| 0 <= j < l1.len() && l1[j] == x;
                    if j < l0.len() {
                        assert(l0[j] == x);
                    }
                }
                if l0.contains(x) {
                    let j = choose|j: int| 0 <= j < l0.len() && l0[j] == x;
                    assert(l1[j] == x);
                }
                if x == term {
                    assert(l1[l0.len() as int] == x);
                }
            }
        }
        if entry_has(r, k, x) {
            let i = choose|i: int| 0 <= i < r.len() && (#[trigger] r[i]).0 == k && r[i].1.contains(x);
            if i > 0 {
                assert(r[i] == es[i]);
            } else if !l0.contains(x) {
                assert(x == term && k == key);
            }
        }
        if entry_has(es, k, x) {
            let i = choose|i: int| 0 <= i < es.len() && (#[trigger] es[i]).0 == k && es[i].1.contains(x);
            if i > 0 {
                assert(r[i] == es[i]);
            } else {
                assert(r[0].0 == k && r[0].1.contains(x));
            }
        }
        if k == key && x == term {
            assert(r[0].0 == k && r[0].1.contains(x));
        }
    } else {
        let rest = es.drop_first();
        lemma_add_entry_entry_has(rest, key, term, k, x);
        let rr = add_entry(rest, key, term);
        if entry_has(r, k, x) {
            let i = choose|i: int| 0 <= i < r.len() && (#[trigger] r[i]).0 == k && r[i].1.contains(x);
            if i == 0 {
                assert(es[0].0 == k && es[0].1.contains(x));
            } else {
                assert(r[i] == rr[i - 1]);
                assert(entry_has(rr, k, x));
                if entry_has(rest, k, x) {
                    let j = choose|j: int| 0 <= j < rest.len() && (#[trigger] rest[j]).0 == k && rest[j].1.contains(x);
                    assert(es[j + 1] == rest[j]);
                }
            }
        }
        if entry_has(es, k, x) {
            let i = choose|i: int| 0 <= i < es.len() && (#[trigger] es[i]).0 == k && es[i].1.contains(x);
            if i == 0 {
                assert(r[0] == es[0]);
            } else {
                assert(rest[i - 1] == es[i]);
                assert(entry_has(rest, k, x));
                let j = choose|j: int| 0 <= j < rr.len() && (#[trigger] rr[j]).0 == k && rr[j].1.contains(x);
                assert(r[j + 1] == rr[j]);
            }
        }
        if k == key && x == term {
            let j = choose|j: int| 0 <= j < rr.len() && (#[trigger] rr[j]).0 == k && rr[j].1.contains(x);
            assert(r[j + 1] == rr[j]);
        }
    }
}

/// The key under which `strip`-style searches compare an entry.
pub open spec fn search_key(k: Seq<char>, strip: bool) -> Seq<char> {
    if strip {
        without_spaces(k)
    } else {
        k
    }
}

proof fn lemma_prefix_terms_members(es: Seq<(Seq<char>, Seq<Seq<char>>)>, qp: Seq<char>, strip: bool, x: Seq<char>)
    ensures
        prefix_terms(es, qp, strip).contains(x) <==> exists|i: int|
            0 <= i < es.len() && starts_with_seq(search_key((#[trigger] es[i]).0, strip), qp) && es[i].1.contains(x),
    decreases es.len(),
{
    if es.len() > 0 {
        let rest = es.drop_first();
        lemma_prefix_terms_members(rest, qp, strip, x);
        let head = if starts_with_seq(search_key(es[0].0, strip), qp) { es[0].1 } else { Seq::<Seq<char>>::empty() };
        let pr = prefix_terms(rest, qp, strip);
        let all = head + pr;
        assert(prefix_terms(es, qp, strip) == all);
        if all.contains(x) {
            let k = choose|k: int| 0 <= k < all.len() && all[k] == x;
            if k < head.len() {
                assert(head[k] == x);
                assert(es[0].1.contains(x));
            } else {
                assert(pr[k - head.len()] == x);
                assert(pr.contains(x));
                let i = choose|i: int| 0 <= i < rest.len() && starts_with_seq(search_key((#[trigger] rest[i]).0, strip), qp) && rest[i].1.contains(x);
                assert(es[i + 1] == rest[i]);
            }
        }
        if exists|i: int| 0 <= i < es.len() && starts_with_seq(search_key((#[trigger] es[i]).0, strip), qp) && es[i].1.contains(x) {
            let i = choose|i: int| 0 <= i < es.len() && starts_with_seq(search_key((#[trigger] es[i]).0, strip), qp) && es[i].1.contains(x);
            if i == 0 {
                let k = choose|k: int| 0 <= k < es[0].1.len() && es[0].1[k] == x;
                assert(all[k] == x);
            } else {
                assert(rest[i - 1] == es[i]);
                assert(pr.contains(x));
                let k = choose|k: int| 0 <= k < pr.len() && pr[k] == x;
                assert(all[head.len() + k] == x);
            }
        }
    }
}

proof fn lemma_lookup_terms_members(es: Seq<(Seq<char>, Seq<Seq<char>>)>, key: Seq<char>, x: Seq<char>)
    ensures
        lookup_terms(es, key).contains(x) ==> entry_has(es, key, x),
    decreases es.len(),
{
    if es.len() > 0 && es[0].0 != key {
        lemma_lookup_terms_members(es.drop_first(), key, x);
        if entry_has(es.drop_first(), key, x) {
            let i = choose|i: int| 0 <= i < es.drop_first().len() && (#[trigger] es.drop_first()[i]).0 == key && es.drop_first()[i].1.contains(x);
            assert(es[i + 1] == es.drop_first()[i]);
        }
    }
}

/// The empty pinyin index.
pub open spec fn empty_pinyin_index() -> PinyinIndexModel {
    PinyinIndexModel { plain: Seq::empty(), initials: Seq::empty() }
}

/// Whether `x` of `terms` is indexed under its plain pinyin by `add_term`.
pub open spec fn indexed_plain(terms: Seq<Seq<char>>, x: Seq<char>) -> bool {
    terms.contains(x) && x.len() <= 32 && plain_pinyin_spec(x).len() > 0
}

/// Whether `x` of `terms` is indexed under its first letters by `add_term`.
pub open spec fn indexed_initials(terms: Seq<Seq<char>>, x: Seq<char>) -> bool {
    terms.contains(x) && x.len() <= 32 && first_letters_spec(x).len() > 0
}

proof fn lemma_built_entries(terms: Seq<Seq<char>>, k: Seq<char>, x: Seq<char>)
    ensures
        entry_has(add_terms_spec(empty_pinyin_index(), terms).plain, k, x) <==> (indexed_plain(terms, x) && plain_pinyin_spec(x) == k),
        entry_has(add_terms_spec(empty_pinyin_index(), terms).initials, k, x) <==> (indexed_initials(terms, x) && first_letters_spec(x) == k),
    decreases terms.len(),
{
    if terms.len() > 0 {
        let init = terms.drop_last();
        let t = terms.last();
        lemma_built_entries(init, k, x);
        let m0 = add_terms_spec(empty_pinyin_index(), init);
        lemma_add_entry_entry_has(m0.plain, plain_pinyin_spec(t), t, k, x);
        lemma_add_entry_entry_has(m0.initials, first_letters_spec(t), t, k, x);
        lemma_push_contains_str(init, t, x);
        assert(init.push(t) =~= terms);
    } else {
        assert(!entry_has(Seq::<(Seq<char>, Seq<Seq<char>>)>::empty(), k, x));
    }
}

proof fn lemma_push_contains_str(s: Seq<Seq<char>>, t: Seq<char>, x: Seq<char>)
    ensures
        s.push(t).contains(x) <==> (s.contains(x) || x == t),
{
    if s.push(t).contains(x) {
        let k = choose|k: int| 0 <= k < s.push(t).len() && s.push(t)[k] == x;
        if k < s.len() {
            assert(s[k] == x);
        }
    }
    if s.contains(x) {
        let k = choose|k: int| 0 <= k < s.len() && s[k] == x;
        assert(s.push(t)[k] == x);
    }
    if x == t {
        assert(s.push(t)[s.len() as int] == x);
    }
}

/// Whether `x` is a term the pinyin search for the normalized query `qp` should find: its
/// plain pinyin (spaces removed) or its first letters, where the index holds them, start
/// with `qp`.
pub open spec fn pinyin_found(terms: Seq<Seq<char>>, qp: Seq<char>, x: Seq<char>) -> bool {
    ||| indexed_plain(terms, x) && starts_with_seq(without_spaces(plain_pinyin_spec(x)), qp)
    ||| indexed_initials(terms, x) && starts_with_seq(first_letters_spec(x), qp)
}

/// Over an index built by adding `terms` one by one, the search for a normalized query (not
/// empty, without spaces) gives, sorted and each once, exactly the added terms whose plain
/// pinyin or first letters start with it.
pub proof fn lemma_search_after_adds(terms: Seq<Seq<char>>, qp: Seq<char>)
    requires
        qp.len() > 0,
        without_spaces(qp) == qp,
    ensures
        strictly_sorted(search_normalized_spec(add_terms_spec(empty_pinyin_index(), terms), qp)),
        forall|x: Seq<char>| #[trigger] search_normalized_spec(add_terms_spec(empty_pinyin_index(), terms), qp).contains(x)
            <==> pinyin_found(terms, qp, x),
{
    let m = add_terms_spec(empty_pinyin_index(), terms);
    let a = lookup_terms(m.plain, qp);
    let b = lookup_terms(m.initials, qp);
    let c = prefix_terms(m.plain, qp, true);
    let d = prefix_terms(m.initials, qp, false);
    let all = a + b + c + d;
    lemma_sorted_unique(all);
    lemma_starts_with_self(qp);
    assert forall|x: Seq<char>| #[trigger] all.contains(x) <==> pinyin_found(terms, qp, x) by {
        lemma_lookup_terms_members(m.plain, qp, x);
        lemma_lookup_terms_members(m.initials, qp, x);
        lemma_prefix_terms_members(m.plain, qp, true, x);
        lemma_prefix_terms_members(m.initials, qp, false, x);
        lemma_built_entries(terms, qp, x);
        lemma_built_entries(terms, plain_pinyin_spec(x), x);
        lemma_built_entries(terms, first_letters_spec(x), x);
        if all.contains(x) {
            let k = choose|k: int| 0 <= k < all.len() && all[k] == x;
            if k < a.len() {
                assert(a[k] == x && a.contains(x));
            } else if k < a.len() + b.len() {
                assert(b[k - a.len()] == x && b.contains(x));
            } else if k < a.len() + b.len() + c.len() {
                assert(c[k - a.len() - b.len()] == x && c.contains(x));
                let i = choose|i: int| 0 <= i < m.plain.len() && starts_with_seq(search_key((#[trigger] m.plain[i]).0, true), qp) && m.plain[i].1.contains(x);
                lemma_built_entries(terms, m.plain[i].0, x);
            } else {
                assert(d[k - a.len() - b.len() - c.len()] == x && d.contains(x));
                let i = choose|i: int| 0 <= i < m.initials.len() && starts_with_seq(search_key((#[trigger] m.initials[i]).0, false), qp) && m.initials[i].1.contains(x);
                lemma_built_entries(terms, m.initials[i].0, x);
            }
        }
        if pinyin_found(terms, qp, x) {
            if indexed_plain(terms, x) && starts_with_seq(without_spaces(plain_pinyin_spec(x)), qp) {
                let i = choose|i: int| 0 <= i < m.plain.len() && (#[trigger] m.plain[i]).0 == plain_pinyin_spec(x) && m.plain[i].1.contains(x);
                assert(starts_with_seq(search_key(m.plain[i].0, true), qp));
                let k = choose|k: int| 0 <= k < c.len() && c[k] == x;
                assert(all[a.len() + b.len() + k] == x);
            } else {
                let i = choose|i: int| 0 <= i < m.initials.len() && (#[trigger] m.initials[i]).0 == first_letters_spec(x) && m.initials[i].1.contains(x);
                assert(starts_with_seq(search_key(m.initials[i].0, false), qp));
                let k = choose|k: int| 0 <= k < d.len() && d[k] == x;
                assert(all[a.len() + b.len() + c.len() + k] == x);
            }
        }
    }
    assert(search_normalized_spec(m, qp) == sorted_unique(all));
    assert forall|x: Seq<char>| #[trigger] search_normalized_spec(m, qp).contains(x) <==> pinyin_found(terms, qp, x) by {
        assert(sorted_unique(all).contains(x) <==> all.contains(x));
        assert(all.contains(x) <==> pinyin_found(terms, qp, x));
    }
}


proof fn lemma_without_spaces_idempotent(s: Seq<char>)
    ensures
        without_spaces(without_spaces(s)) == without_spaces(s),
    decreases s.len(),
{
    if s.len() > 0 {
        lemma_without_spaces_idempotent(s.drop_last());
        let w = without_spaces(s.drop_last());
        if s.last() != ' ' {
            assert(w.push(s.last()).drop_last() =~= w);
        }
    }
}

/// Over an index built by adding `terms` one by one, `search_by_pinyin(q)` gives nothing for
/// a query that normalizes to nothing, and otherwise, sorted and each once, exactly the added
/// terms whose plain pinyin (spaces removed) or first letters start with the normalized query.
pub proof fn lemma_search_by_pinyin_after_adds(terms: Seq<Seq<char>>, q: Seq<char>)
    ensures
        normalized_query(q).len() == 0 ==> search_by_pinyin_spec(add_terms_spec(empty_pinyin_index(), terms), q)
            == Seq::<Seq<char>>::empty(),
        strictly_sorted(search_by_pinyin_spec(add_terms_spec(empty_pinyin_index(), terms), q)),
        normalized_query(q).len() > 0 ==> forall|x: Seq<char>|
            #[trigger] search_by_pinyin_spec(add_terms_spec(empty_pinyin_index(), terms), q).contains(x) <==> pinyin_found(
                terms,
                normalized_query(q),
                x,
            ),
{
    lemma_without_spaces_idempotent(unicode_lowercase_str(q));
    if normalized_query(q).len() > 0 {
        lemma_search_after_adds(terms, normalized_query(q));
    }
}

/// Whether some pair of `ps` has `x` as its term.
pub open spec fn has_term(ps: Seq<(Seq<char>, Seq<char>)>, x: Seq<char>) -> bool {
    exists|i: int| 0 <= i < ps.len() && (#[trigger] ps[i]).0 == x
}

proof fn lemma_add_all_absent_members(acc: Seq<(Seq<char>, Seq<char>)>, terms: Seq<Seq<char>>, value: Seq<char>, x: Seq<char>)
    ensures
        has_term(add_all_absent(acc, terms, value), x) <==> (has_term(acc, x) || terms.contains(x)),
        forall|i: int| 0 <= i < add_all_absent(acc, terms, value).len() ==> {
            let p = #[trigger] add_all_absent(acc, terms, value)[i];
            acc.contains(p) || (p.1 == value && terms.contains(p.0))
        },
    decreases terms.len(),
{
    if terms.len() > 0 {
        let init = terms.drop_last();
        let t = terms.last();
        lemma_add_all_absent_members(acc, init, value, x);
        lemma_push_contains_str(init, t, x);
        assert(init.push(t) =~= terms);
        let a = add_all_absent(acc, init, value);
        let r = add_all_absent(acc, terms, value);
        if !(exists|k: int| 0 <= k < a.len() && (#[trigger] a[k]).0 == t) {
            assert(r == a.push((t, value)));
            if has_term(r, x) {
                let i = choose|i: int| 0 <= i < r.len() && (#[trigger] r[i]).0 == x;
                if i < a.len() {
                    assert(r[i] == a[i]);
                }
            }
            if has_term(a, x) {
                let i = choose|i: int| 0 <= i < a.len() && (#[trigger] a[i]).0 == x;
                assert(r[i] == a[i]);
            }
            if x == t {
                assert(r[a.len() as int].0 == x);
            }
            assert forall|i: int| 0 <= i < r.len() implies {
                let p = #[trigger] r[i];
                acc.contains(p) || (p.1 == value && terms.contains(p.0))
            } by {
                if i < a.len() {
                    assert(r[i] == a[i]);
                    if !acc.contains(a[i]) {
                        lemma_push_contains_str(init, t, a[i].0);
                    }
                } else {
                    lemma_push_contains_str(init, t, t);
                }
            }
        } else {
            if x == t {
                let k = choose|k: int| 0 <= k < a.len() && (#[trigger] a[k]).0 == t;
            }
            assert forall|i: int| 0 <= i < r.len() implies {
                let p = #[trigger] r[i];
                acc.contains(p) || (p.1 == value && terms.contains(p.0))
            } by {
                if !acc.contains(r[i]) {
                    lemma_push_contains_str(init, t, r[i].0);
                }
            }
        }
    }
}

proof fn lemma_detailed_scan_members(es: Seq<(Seq<char>, Seq<Seq<char>>)>, qp: Seq<char>, x: Seq<char>)
    ensures
        has_term(detailed_scan(es, qp), x) <==> exists|i: int|
            0 <= i < es.len() && contains_seq(without_spaces((#[trigger] es[i]).0), qp) && es[i].1.contains(x),
        forall|k: int| #![trigger detailed_scan(es, qp)[k]] 0 <= k < detailed_scan(es, qp).len() ==> exists|i: int|
            0 <= i < es.len() && (#[trigger] es[i]).1.contains(detailed_scan(es, qp)[k].0)
                && detailed_scan(es, qp)[k].1 == without_spaces(es[i].0),
    decreases es.len(),
{
    if es.len() > 0 {
        let init = es.drop_last();
        let e = es.last();
        lemma_detailed_scan_members(init, qp, x);
        let acc = detailed_scan(init, qp);
        let key = without_spaces(e.0);
        let r = detailed_scan(es, qp);
        if contains_seq(key, qp) {
            lemma_add_all_absent_members(acc, e.1, key, x);
            assert forall|k: int| #![trigger r[k]] 0 <= k < r.len() implies exists|i: int|
                0 <= i < es.len() && (#[trigger] es[i]).1.contains(r[k].0) && r[k].1 == without_spaces(es[i].0) by {
                lemma_add_all_absent_members(acc, e.1, key, r[k].0);
                if acc.contains(r[k]) {
                    let j = choose|j: int| 0 <= j < acc.len() && acc[j] == r[k];
                    let i = choose|i: int| 0 <= i < init.len() && (#[trigger] init[i]).1.contains(acc[j].0) && acc[j].1 == without_spaces(init[i].0);
                    assert(es[i] == init[i]);
                } else {
                    assert(es[es.len() - 1] == e);
                }
            }
        } else {
            assert forall|k: int| #![trigger r[k]] 0 <= k < r.len() implies exists|i: int|
                0 <= i < es.len() && (#[trigger] es[i]).1.contains(r[k].0) && r[k].1 == without_spaces(es[i].0) by {
                let i = choose|i: int| 0 <= i < init.len() && (#[trigger] init[i]).1.contains(acc[k].0) && acc[k].1 == without_spaces(init[i].0);
                assert(es[i] == init[i]);
            }
        }
        if exists|i: int| 0 <= i < es.len() && contains_seq(without_spaces((#[trigger] es[i]).0), qp) && es[i].1.contains(x) {
            let i = choose|i: int| 0 <= i < es.len() && contains_seq(without_spaces((#[trigger] es[i]).0), qp) && es[i].1.contains(x);
            if i < init.len() {
                assert(init[i] == es[i]);
            }
        }
        if exists|i: int| 0 <= i < init.len() && contains_seq(without_spaces((#[trigger] init[i]).0), qp) && init[i].1.contains(x) {
            let i = choose|i: int| 0 <= i < init.len() && contains_seq(without_spaces((#[trigger] init[i]).0), qp) && init[i].1.contains(x);
            assert(es[i] == init[i]);
        }
    }
}

/// Over an index built by adding `terms` one by one, the detailed search for a normalized
/// query (not empty) names exactly the added terms (indexed under their plain pinyin) whose
/// plain pinyin, spaces removed, contains it, each with that spelling; first letters are not
/// consulted.
pub proof fn lemma_detailed_after_adds(terms: Seq<Seq<char>>, qp: Seq<char>, x: Seq<char>)
    requires
        qp.len() > 0,
    ensures
        has_term(detailed_normalized_spec(add_terms_spec(empty_pinyin_index(), terms), qp), x) <==> (indexed_plain(terms, x)
            && contains_seq(without_spaces(plain_pinyin_spec(x)), qp)),
        forall|k: int|
            0 <= k < detailed_normalized_spec(add_terms_spec(empty_pinyin_index(), terms), qp).len() ==> (#[trigger] detailed_normalized_spec(
                add_terms_spec(empty_pinyin_index(), terms),
                qp,
            )[k]).1 == without_spaces(plain_pinyin_spec(detailed_normalized_spec(add_terms_spec(empty_pinyin_index(), terms), qp)[k].0)),
{
    let m = add_terms_spec(empty_pinyin_index(), terms);
    let r = detailed_scan(m.plain, qp);
    lemma_detailed_scan_members(m.plain, qp, x);
    lemma_built_entries(terms, plain_pinyin_spec(x), x);
    if has_term(r, x) {
        let i = choose|i: int| 0 <= i < m.plain.len() && contains_seq(without_spaces((#[trigger] m.plain[i]).0), qp) && m.plain[i].1.contains(x);
        lemma_built_entries(terms, m.plain[i].0, x);
    }
    if indexed_plain(terms, x) && contains_seq(without_spaces(plain_pinyin_spec(x)), qp) {
        let i = choose|i: int| 0 <= i < m.plain.len() && (#[trigger] m.plain[i]).0 == plain_pinyin_spec(x) && m.plain[i].1.contains(x);
        assert(contains_seq(without_spaces(m.plain[i].0), qp));
    }
    assert forall|k: int| 0 <= k < r.len() implies (#[trigger] r[k]).1 == without_spaces(plain_pinyin_spec(r[k].0)) by {
        let i = choose|i: int| 0 <= i < m.plain.len() && (#[trigger] m.plain[i]).1.contains(r[k].0) && r[k].1 == without_spaces(m.plain[i].0);
        lemma_built_entries(terms, m.plain[i].0, r[k].0);
        assert(entry_has(m.plain, m.plain[i].0, r[k].0));
    }
}

} // verus!
