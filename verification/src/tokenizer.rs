use vstd::prelude::*;
use vstd::utf8::{encode_scalar, encode_utf8};

use crate::text::{chars_of, copy_string, push_char, string_from_range, text_less, text_lt};

verus! {

broadcast use vstd::utf8::char_is_scalar;

// ==================== character classes ====================

/// Whether `c` lies in one of the CJK ideograph blocks the tokenizer treats as Chinese.
pub open spec fn chinese_code_point(c: char) -> bool {
    let u = c as u32;
    ||| 0x4E00 <= u <= 0x9FFF
    ||| 0x3400 <= u <= 0x4DBF
    ||| 0xF900 <= u <= 0xFAFF
    ||| 0x2F800 <= u <= 0x2FA1F
}

/// Unicode `White_Space`, the property that `char::is_whitespace` tests.
pub open spec fn whitespace_code_point(c: char) -> bool {
    let u = c as u32;
    ||| 0x09 <= u <= 0x0D
    ||| u == 0x20
    ||| u == 0x85
    ||| u == 0xA0
    ||| u == 0x1680
    ||| 0x2000 <= u <= 0x200A
    ||| u == 0x2028
    ||| u == 0x2029
    ||| u == 0x202F
    ||| u == 0x205F
    ||| u == 0x3000
}

pub open spec fn ascii_upper(c: char) -> bool {
    'A' <= c <= 'Z'
}

pub open spec fn ascii_lower(c: char) -> bool {
    'a' <= c <= 'z'
}

pub open spec fn ascii_alpha(c: char) -> bool {
    ascii_upper(c) || ascii_lower(c)
}

pub open spec fn ascii_digit(c: char) -> bool {
    '0' <= c <= '9'
}

/// Characters that continue an English word once it has started.
pub open spec fn word_char(c: char) -> bool {
    ascii_alpha(c) || ascii_digit(c) || c == '_' || c == '-'
}

/// ASCII lower-casing of one character; every other character is kept.
pub open spec fn to_ascii_lower(c: char) -> char {
    if ascii_upper(c) {
        ((c as u32) + 32) as char
    } else {
        c
    }
}

pub open spec fn lower_seq(s: Seq<char>) -> Seq<char> {
    s.map_values(|c: char| to_ascii_lower(c))
}

/// Number of UTF-8 bytes of one character.
pub open spec fn utf8_width(c: char) -> nat {
    encode_scalar(c as u32).len()
}

/// Byte offset, in the UTF-8 encoding of `s`, of the character at index `i`.
pub open spec fn byte_pos(s: Seq<char>, i: int) -> int {
    encode_utf8(s.take(i)).len() as int
}

// ==================== tokens ====================

/// The kind of text a token was cut from.
#[derive(Debug, Clone, Copy, PartialEq, Eq, Hash, Structural)]
pub enum TokenKind {
    Chinese,
    English,
    Number,
    Symbol,
}

/// A token of a text: its (normalized) text and the byte range it was cut from.
#[derive(Debug, Clone, PartialEq, Eq, Hash)]
pub struct Token {
    pub text: String,
    pub start: usize,
    pub end: usize,
    pub kind: TokenKind,
}

/// The mathematical value of a token.
pub struct TokenModel {
    pub text: Seq<char>,
    pub start: int,
    pub end: int,
    pub kind: TokenKind,
}

impl View for Token {
    type V = TokenModel;

    open spec fn view(&self) -> TokenModel {
        TokenModel { text: self.text@, start: self.start as int, end: self.end as int, kind: self.kind }
    }
}

pub open spec fn token_views(v: Seq<Token>) -> Seq<TokenModel> {
    v.map_values(|t: Token| t@)
}

impl Token {
    pub fn new(text: String, start: usize, end: usize, kind: TokenKind) -> (t: Token)
        ensures
            t.text == text,
            t.start == start,
            t.end == end,
            t.kind == kind,
    {
        Token { text, start, end, kind }
    }

    /// A copy of this token.
    pub fn duplicate(&self) -> (t: Token)
        ensures
            t@ == self@,
    {
        Token { text: self.text.clone(), start: self.start, end: self.end, kind: self.kind }
    }
}

// ==================== the tokenizer's definition ====================

/// Index just past the run of Chinese characters that starts at `i`.
pub open spec fn chinese_run_end(s: Seq<char>, i: int) -> int
    decreases s.len() - i,
{
    if 0 <= i < s.len() && chinese_code_point(s[i]) {
        chinese_run_end(s, i + 1)
    } else {
        i
    }
}

/// Index just past the word characters that start at `i`.
pub open spec fn word_end(s: Seq<char>, i: int) -> int
    decreases s.len() - i,
{
    if 0 <= i < s.len() && word_char(s[i]) {
        word_end(s, i + 1)
    } else {
        i
    }
}

/// Index just past the ASCII digits that start at `i`.
pub open spec fn digit_end(s: Seq<char>, i: int) -> int
    decreases s.len() - i,
{
    if 0 <= i < s.len() && ascii_digit(s[i]) {
        digit_end(s, i + 1)
    } else {
        i
    }
}

pub proof fn lemma_chinese_run_end_bounds(s: Seq<char>, i: int)
    requires
        0 <= i <= s.len(),
    ensures
        i <= chinese_run_end(s, i) <= s.len(),
        forall|k: int| i <= k < chinese_run_end(s, i) ==> chinese_code_point(#[trigger] s[k]),
    decreases s.len() - i,
{
    if i < s.len() && chinese_code_point(s[i]) {
        lemma_chinese_run_end_bounds(s, i + 1);
    }
}

pub proof fn lemma_word_end_bounds(s: Seq<char>, i: int)
    requires
        0 <= i <= s.len(),
    ensures
        i <= word_end(s, i) <= s.len(),
        forall|k: int| i <= k < word_end(s, i) ==> word_char(#[trigger] s[k]),
    decreases s.len() - i,
{
    if i < s.len() && word_char(s[i]) {
        lemma_word_end_bounds(s, i + 1);
    }
}

pub proof fn lemma_digit_end_bounds(s: Seq<char>, i: int)
    requires
        0 <= i <= s.len(),
    ensures
        i <= digit_end(s, i) <= s.len(),
        forall|k: int| i <= k < digit_end(s, i) ==> ascii_digit(#[trigger] s[k]),
    decreases s.len() - i,
{
    if i < s.len() && ascii_digit(s[i]) {
        lemma_digit_end_bounds(s, i + 1);
    }
}

/// The token for `s[p..q]` of a run of Chinese characters.
pub open spec fn chinese_token(s: Seq<char>, p: int, q: int) -> TokenModel {
    TokenModel {
        text: s.subrange(p, q),
        start: byte_pos(s, p),
        end: byte_pos(s, q),
        kind: TokenKind::Chinese,
    }
}

/// Tokens of a Chinese run `s[a..b]` that start at `p`: the 1..4 character n-grams
/// starting there, by increasing end, and, at the first position of a run longer than
/// four characters, the whole run last.
pub open spec fn chinese_group(s: Seq<char>, a: int, b: int, p: int) -> Seq<TokenModel> {
    let n = if b - p < 4 { b - p } else { 4 };
    Seq::new(n as nat, |k: int| chinese_token(s, p, p + k + 1)) + if p == a && b - a > 4 {
        seq![chinese_token(s, a, b)]
    } else {
        Seq::<TokenModel>::empty()
    }
}

/// Tokens of the Chinese run `s[a..b]` that start at `p` or later, ordered by start then end.
pub open spec fn chinese_run_tokens(s: Seq<char>, a: int, b: int, p: int) -> Seq<TokenModel>
    decreases b - p,
{
    if p < b {
        chinese_group(s, a, b, p) + chinese_run_tokens(s, a, b, p + 1)
    } else {
        Seq::<TokenModel>::empty()
    }
}

/// The tokens of `s` from character index `i` on.
///
/// Whitespace separates tokens. A run of Chinese characters yields all its 1..4 character
/// n-grams and the whole run. An English word starts at an ASCII letter and goes on over
/// ASCII letters, digits, `_` and `-`; its text is ASCII lower-cased. A run of ASCII digits is a
/// number. Any other character is a symbol token of its own.
pub open spec fn lex(s: Seq<char>, i: int) -> Seq<TokenModel>
    decreases s.len() - i,
{
    if i < 0 || i >= s.len() {
        Seq::<TokenModel>::empty()
    } else if whitespace_code_point(s[i]) {
        lex(s, i + 1)
    } else if chinese_code_point(s[i]) {
        let j = chinese_run_end(s, i + 1);
        if j <= i || j > s.len() {
            Seq::<TokenModel>::empty()
        } else {
            chinese_run_tokens(s, i, j, i) + lex(s, j)
        }
    } else if ascii_alpha(s[i]) {
        let j = word_end(s, i + 1);
        if j <= i || j > s.len() {
            Seq::<TokenModel>::empty()
        } else {
            seq![
                TokenModel {
                    text: lower_seq(s.subrange(i, j)),
                    start: byte_pos(s, i),
                    end: byte_pos(s, j),
                    kind: TokenKind::English,
                },
            ] + lex(s, j)
        }
    } else if ascii_digit(s[i]) {
        let j = digit_end(s, i + 1);
        if j <= i || j > s.len() {
            Seq::<TokenModel>::empty()
        } else {
            seq![
                TokenModel {
                    text: s.subrange(i, j),
                    start: byte_pos(s, i),
                    end: byte_pos(s, j),
                    kind: TokenKind::Number,
                },
            ] + lex(s, j)
        }
    } else {
        seq![
            TokenModel {
                text: seq![s[i]],
                start: byte_pos(s, i),
                end: byte_pos(s, i + 1),
                kind: TokenKind::Symbol,
            },
        ] + lex(s, i + 1)
    }
}

/// The tokens of a whole text.
pub open spec fn tokenize_spec(s: Seq<char>) -> Seq<TokenModel> {
    lex(s, 0)
}

/// Detect if a character is a Chinese character (CJK Unified Ideographs).
pub fn is_chinese_char(ch: char) -> (r: bool)
    ensures
        r == chinese_code_point(ch),
{
    let u = ch as u32;
    (0x4E00 <= u && u <= 0x9FFF) || (0x3400 <= u && u <= 0x4DBF) || (0xF900 <= u && u <= 0xFAFF)
        || (0x2F800 <= u && u <= 0x2FA1F)
}

/// Unicode whitespace test (the `White_Space` property).
pub fn is_whitespace_char(ch: char) -> (r: bool)
    ensures
        r == whitespace_code_point(ch),
{
    let u = ch as u32;
    (0x09 <= u && u <= 0x0D) || u == 0x20 || u == 0x85 || u == 0xA0 || u == 0x1680 || (0x2000 <= u
        && u <= 0x200A) || u == 0x2028 || u == 0x2029 || u == 0x202F || u == 0x205F || u == 0x3000
}

fn is_word_char(ch: char) -> (r: bool)
    ensures
        r == word_char(ch),
{
    ('a' <= ch && ch <= 'z') || ('A' <= ch && ch <= 'Z') || ('0' <= ch && ch <= '9') || ch == '_'
        || ch == '-'
}

pub fn ascii_lowercase_char(ch: char) -> (r: char)
    ensures
        r == to_ascii_lower(ch),
{
    if 'A' <= ch && ch <= 'Z' {
        let u = ch as u32;
        let l = (u + 32) as u8;
        l as char
    } else {
        ch
    }
}

fn char_width(ch: char) -> (w: usize)
    ensures
        w == utf8_width(ch),
        1 <= w <= 4,
{
    let u = ch as u32;
    if u <= 0x7F {
        1
    } else if u <= 0x7FF {
        2
    } else if u <= 0xFFFF {
        3
    } else {
        4
    }
}

// ==================== byte offsets ====================

pub proof fn lemma_encode_concat(a: Seq<char>, b: Seq<char>)
    ensures
        encode_utf8(a + b) == encode_utf8(a) + encode_utf8(b),
    decreases a.len(),
{
    if a.len() == 0 {
        assert(a + b =~= b);
        assert(encode_utf8(a) =~= Seq::<u8>::empty());
        assert(encode_utf8(a) + encode_utf8(b) =~= encode_utf8(b));
    } else {
        assert((a + b).drop_first() =~= a.drop_first() + b);
        assert((a + b)[0] == a[0]);
        lemma_encode_concat(a.drop_first(), b);
        assert(encode_utf8(a + b) =~= encode_utf8(a) + encode_utf8(b));
    }
}

pub proof fn lemma_byte_pos_step(s: Seq<char>, i: int)
    requires
        0 <= i < s.len(),
    ensures
        byte_pos(s, i + 1) == byte_pos(s, i) + utf8_width(s[i]),
{
    assert(s.take(i + 1) =~= s.take(i) + seq![s[i]]);
    lemma_encode_concat(s.take(i), seq![s[i]]);
    assert(seq![s[i]].drop_first() =~= Seq::<char>::empty());
    assert(encode_utf8(seq![s[i]]) =~= encode_scalar(s[i] as u32) + encode_utf8(
        Seq::<char>::empty(),
    ));
}

pub proof fn lemma_byte_pos_mono(s: Seq<char>, i: int, j: int)
    requires
        0 <= i <= j <= s.len(),
    ensures
        byte_pos(s, i) <= byte_pos(s, j),
{
    assert(s.take(j) =~= s.take(i) + s.subrange(i, j));
    lemma_encode_concat(s.take(i), s.subrange(i, j));
}

proof fn lemma_byte_pos_total(s: Seq<char>)
    ensures
        byte_pos(s, s.len() as int) == encode_utf8(s).len(),
{
    assert(s.take(s.len() as int) =~= s);
}

/// Byte offsets of every character boundary of `chars` (one more entry than characters).
pub(crate) fn byte_offsets(chars: &Vec<char>, total: usize) -> (offs: Vec<usize>)
    requires
        encode_utf8(chars@).len() == total,
    ensures
        offs@.len() == chars@.len() + 1,
        forall|k: int| 0 <= k <= chars@.len() ==> offs@[k] == byte_pos(chars@, k),
{
    let mut offs: Vec<usize> = Vec::new();
    let mut pos: usize = 0;
    offs.push(0);
    proof {
        assert(chars@.take(0) =~= Seq::<char>::empty());
    }
    let mut k: usize = 0;
    while k < chars.len()
        invariant
            encode_utf8(chars@).len() == total,
            k <= chars@.len(),
            offs@.len() == k + 1,
            pos == byte_pos(chars@, k as int),
            forall|m: int| 0 <= m <= k ==> offs@[m] == byte_pos(chars@, m),
        decreases chars@.len() - k,
    {
        proof {
            lemma_byte_pos_step(chars@, k as int);
            lemma_byte_pos_mono(chars@, k + 1, chars@.len() as int);
            lemma_byte_pos_total(chars@);
        }
        let w = char_width(chars[k]);
        pos = pos + w;
        offs.push(pos);
        k += 1;
    }
    offs
}


// ==================== the tokenizer ====================

proof fn lemma_views_push(v: Seq<Token>, t: Token)
    ensures
        token_views(v.push(t)) == token_views(v).push(t@),
{
    assert(token_views(v.push(t)) =~= token_views(v).push(t@));
}

fn chinese_token_at(chars: &Vec<char>, offs: &Vec<usize>, p: usize, q: usize) -> (t: Token)
    requires
        p <= q <= chars@.len(),
        offs@.len() == chars@.len() + 1,
        forall|k: int| 0 <= k <= chars@.len() ==> offs@[k] == byte_pos(chars@, k),
    ensures
        t@ == chinese_token(chars@, p as int, q as int),
{
    let text = string_from_range(chars, p, q);
    Token::new(text, offs[p], offs[q], TokenKind::Chinese)
}

/// Appends the tokens of the Chinese run `chars[a..b]`.
fn push_chinese_run(chars: &Vec<char>, offs: &Vec<usize>, a: usize, b: usize, tokens: &mut Vec<Token>)
    requires
        a < b <= chars@.len(),
        offs@.len() == chars@.len() + 1,
        forall|k: int| 0 <= k <= chars@.len() ==> offs@[k] == byte_pos(chars@, k),
    ensures
        token_views(final(tokens)@) == token_views(old(tokens)@) + chinese_run_tokens(
            chars@,
            a as int,
            b as int,
            a as int,
        ),
{
    let ghost s = chars@;
    let ghost base = token_views(tokens@);
    let mut p = a;
    while p < b
        invariant
            s == chars@,
            a <= p <= b <= chars@.len(),
            offs@.len() == chars@.len() + 1,
            forall|k: int| 0 <= k <= chars@.len() ==> offs@[k] == byte_pos(chars@, k),
            token_views(tokens@) + chinese_run_tokens(s, a as int, b as int, p as int) == base
                + chinese_run_tokens(s, a as int, b as int, a as int),
        decreases b - p,
    {
        let ghost before = token_views(tokens@);
        let n: usize = if b - p < 4 {
            b - p
        } else {
            4
        };
        let mut k: usize = 0;
        while k < n
            invariant
                s == chars@,
                a <= p < b <= chars@.len(),
                n == (if b - p < 4 { b - p } else { 4 }),
                k <= n,
                offs@.len() == chars@.len() + 1,
                forall|m: int| 0 <= m <= chars@.len() ==> offs@[m] == byte_pos(chars@, m),
                token_views(tokens@) == before + Seq::new(
                    k as nat,
                    |m: int| chinese_token(s, p as int, p + m + 1),
                ),
            decreases n - k,
        {
            let t = chinese_token_at(chars, offs, p, p + k + 1);
            proof {
                lemma_views_push(tokens@, t);
            }
            tokens.push(t);
            proof {
                assert(Seq::new((k + 1) as nat, |m: int| chinese_token(s, p as int, p + m + 1))
                    =~= Seq::new(k as nat, |m: int| chinese_token(s, p as int, p + m + 1)).push(
                    chinese_token(s, p as int, p + k + 1),
                ));
            }
            k += 1;
        }
        let ghost grams = Seq::new(n as nat, |m: int| chinese_token(s, p as int, p + m + 1));
        if p == a && b - a > 4 {
            let t = chinese_token_at(chars, offs, a, b);
            proof {
                lemma_views_push(tokens@, t);
            }
            tokens.push(t);
            proof {
                assert(token_views(tokens@) =~= before + chinese_group(s, a as int, b as int, p as int));
            }
        } else {
            proof {
                assert(token_views(tokens@) =~= before + chinese_group(s, a as int, b as int, p as int));
            }
        }
        proof {
            assert(chinese_run_tokens(s, a as int, b as int, p as int) == chinese_group(s, a as int, b as int, p as int)
                + chinese_run_tokens(s, a as int, b as int, p + 1));
            assert(before + chinese_run_tokens(s, a as int, b as int, p as int) =~= token_views(tokens@)
                + chinese_run_tokens(s, a as int, b as int, p + 1));
        }
        p += 1;
    }
    proof {
        assert(chinese_run_tokens(s, a as int, b as int, b as int) =~= Seq::<TokenModel>::empty());
        assert(token_views(tokens@) + Seq::<TokenModel>::empty() =~= token_views(tokens@));
    }
}

/// Low-memory tokenizer for mixed Chinese / English text (see `lex` for the rules).
pub fn tokenize(text: &str) -> (tokens: Vec<Token>)
    ensures
        token_views(tokens@) == tokenize_spec(text@),
{
    let chars = chars_of(text);
    let bytes = text.as_bytes();
    let total = bytes.len();
    let offs = byte_offsets(&chars, total);
    let ghost s = chars@;
    let len = chars.len();
    let mut tokens: Vec<Token> = Vec::new();
    let mut i: usize = 0;
    proof {
        assert(token_views(tokens@) + lex(s, 0) =~= lex(s, 0));
    }
    while i < len
        invariant
            s == chars@,
            len == chars@.len(),
            i <= len,
            offs@.len() == chars@.len() + 1,
            forall|k: int| 0 <= k <= chars@.len() ==> offs@[k] == byte_pos(chars@, k),
            token_views(tokens@) + lex(s, i as int) == lex(s, 0),
        decreases len - i,
    {
        let ghost before = token_views(tokens@);
        let ch = chars[i];
        if is_whitespace_char(ch) {
            i += 1;
        } else if is_chinese_char(ch) {
            let mut j = i + 1;
            while j < len && is_chinese_char(chars[j])
                invariant
                    s == chars@,
                    len == chars@.len(),
                    i < j <= len,
                    chinese_run_end(s, i + 1) == chinese_run_end(s, j as int),
                decreases len - j,
            {
                j += 1;
            }
            proof {
                lemma_chinese_run_end_bounds(s, i + 1);
            }
            push_chinese_run(&chars, &offs, i, j, &mut tokens);
            proof {
                assert(before + lex(s, i as int) =~= token_views(tokens@) + lex(s, j as int));
            }
            i = j;
        } else if ('a' <= ch && ch <= 'z') || ('A' <= ch && ch <= 'Z') {
            let mut j = i + 1;
            while j < len && is_word_char(chars[j])
                invariant
                    s == chars@,
                    len == chars@.len(),
                    i < j <= len,
                    word_end(s, i + 1) == word_end(s, j as int),
                decreases len - j,
            {
                j += 1;
            }
            proof {
                lemma_word_end_bounds(s, i + 1);
            }
            let mut word = String::new();
            let mut k = i;
            while k < j
                invariant
                    s == chars@,
                    i <= k <= j <= len == chars@.len(),
                    word@ == lower_seq(s.subrange(i as int, k as int)),
                decreases j - k,
            {
                push_char(&mut word, ascii_lowercase_char(chars[k]));
                proof {
                    assert(lower_seq(s.subrange(i as int, k + 1)) =~= lower_seq(
                        s.subrange(i as int, k as int),
                    ).push(to_ascii_lower(s[k as int])));
                }
                k += 1;
            }
            let t = Token::new(word, offs[i], offs[j], TokenKind::English);
            proof {
                lemma_views_push(tokens@, t);
            }
            tokens.push(t);
            proof {
                assert(before + lex(s, i as int) =~= token_views(tokens@) + lex(s, j as int));
            }
            i = j;
        } else if '0' <= ch && ch <= '9' {
            let mut j = i + 1;
            while j < len && '0' <= chars[j] && chars[j] <= '9'
                invariant
                    s == chars@,
                    len == chars@.len(),
                    i < j <= len,
                    digit_end(s, i + 1) == digit_end(s, j as int),
                decreases len - j,
            {
                j += 1;
            }
            proof {
                lemma_digit_end_bounds(s, i + 1);
            }
            let number = string_from_range(&chars, i, j);
            let t = Token::new(number, offs[i], offs[j], TokenKind::Number);
            proof {
                lemma_views_push(tokens@, t);
            }
            tokens.push(t);
            proof {
                assert(before + lex(s, i as int) =~= token_views(tokens@) + lex(s, j as int));
            }
            i = j;
        } else {
            let symbol = string_from_range(&chars, i, i + 1);
            proof {
                assert(s.subrange(i as int, i + 1) =~= seq![s[i as int]]);
            }
            let t = Token::new(symbol, offs[i], offs[i + 1], TokenKind::Symbol);
            proof {
                lemma_views_push(tokens@, t);
            }
            tokens.push(t);
            proof {
                assert(before + lex(s, i as int) =~= token_views(tokens@) + lex(s, i + 1));
            }
            i = i + 1;
        }
    }
    proof {
        assert(token_views(tokens@) + lex(s, len as int) =~= token_views(tokens@));
        assert(text@ == s);
    }
    tokens
}

/// Whether `text` contains at least one Chinese character.
pub fn contains_chinese(text: &str) -> (r: bool)
    ensures
        r == exists|i: int| 0 <= i < text@.len() && chinese_code_point(#[trigger] text@[i]),
{
    let chars = chars_of(text);
    let mut i: usize = 0;
    while i < chars.len()
        invariant
            chars@ == text@,
            i <= chars.len(),
            forall|k: int| 0 <= k < i ==> !chinese_code_point(#[trigger] text@[k]),
        decreases chars.len() - i,
    {
        if is_chinese_char(chars[i]) {
            return true;
        }
        i += 1;
    }
    false
}

// ==================== n-gram tokens ====================

/// Concatenated texts of a sequence of tokens.
pub open spec fn joined_text(ts: Seq<TokenModel>) -> Seq<char>
    decreases ts.len(),
{
    if ts.len() == 0 {
        Seq::<char>::empty()
    } else {
        joined_text(ts.drop_last()) + ts.last().text
    }
}

/// The token made of `n` consecutive base tokens from index `start`.
pub open spec fn combined_token(base: Seq<TokenModel>, start: int, n: int) -> TokenModel {
    TokenModel {
        text: joined_text(base.subrange(start, start + n)),
        start: base[start].start,
        end: base[start + n - 1].end,
        kind: base[start].kind,
    }
}

/// Number of multi-token n-grams (2..=cap tokens) starting at `start`.
pub open spec fn ngram_count(len: int, cap: int, start: int) -> int {
    let longest = if len - start < cap { len - start } else { cap };
    if longest < 2 { 0 } else { longest - 1 }
}

/// Multi-token n-grams of `base` starting at `start` or later, by start then length.
pub open spec fn ngrams_from(base: Seq<TokenModel>, cap: int, start: int) -> Seq<TokenModel>
    decreases base.len() - start,
{
    if 0 <= start < base.len() {
        Seq::new(
            ngram_count(base.len() as int, cap, start) as nat,
            |m: int| combined_token(base, start, m + 2),
        ) + ngrams_from(base, cap, start + 1)
    } else {
        Seq::<TokenModel>::empty()
    }
}

/// Token order: by start, then end, then text.
pub open spec fn token_key_lt(x: TokenModel, y: TokenModel) -> bool {
    ||| x.start < y.start
    ||| x.start == y.start && x.end < y.end
    ||| x.start == y.start && x.end == y.end && text_lt(x.text, y.text)
}

pub open spec fn token_key_eq(x: TokenModel, y: TokenModel) -> bool {
    x.start == y.start && x.end == y.end && x.text == y.text
}

/// Inserts `t` into a sorted sequence after everything not greater than it, unless a token
/// with the same start, end and text is already there.
pub open spec fn insert_unique(acc: Seq<TokenModel>, t: TokenModel) -> Seq<TokenModel>
    decreases acc.len(),
{
    if acc.len() == 0 {
        seq![t]
    } else if token_key_lt(t, acc[0]) {
        seq![t] + acc
    } else if token_key_eq(acc[0], t) {
        acc
    } else {
        seq![acc[0]] + insert_unique(acc.drop_first(), t)
    }
}

/// Stable sort by (start, end, text) that keeps the first of tokens with equal keys.
pub open spec fn sort_unique(all: Seq<TokenModel>) -> Seq<TokenModel>
    decreases all.len(),
{
    if all.len() == 0 {
        Seq::<TokenModel>::empty()
    } else {
        insert_unique(sort_unique(all.drop_last()), all.last())
    }
}

/// The n-gram tokenization: the base tokens plus every run of 2..=min(max_ngram, 8)
/// consecutive base tokens joined together, sorted and without repeated spans.
pub open spec fn ngram_tokens_spec(s: Seq<char>, max_ngram: int) -> Seq<TokenModel> {
    if max_ngram == 0 {
        Seq::<TokenModel>::empty()
    } else {
        let base = tokenize_spec(s);
        let cap = if max_ngram < 8 { max_ngram } else { 8 };
        sort_unique(base + ngrams_from(base, cap, 0))
    }
}

fn token_less(x: &Token, y: &Token) -> (r: bool)
    ensures
        r == token_key_lt(x@, y@),
{
    if x.start < y.start {
        true
    } else if x.start == y.start && x.end < y.end {
        true
    } else if x.start == y.start && x.end == y.end {
        text_less(x.text.as_str(), y.text.as_str())
    } else {
        false
    }
}

fn token_same_key(x: &Token, y: &Token) -> (r: bool)
    ensures
        r == token_key_eq(x@, y@),
{
    x.start == y.start && x.end == y.end && crate::text::same_text(&x.text, &y.text)
}

proof fn lemma_sort_unique_step(all: Seq<TokenModel>, k: int)
    requires
        0 <= k < all.len(),
    ensures
        sort_unique(all.take(k + 1)) == insert_unique(sort_unique(all.take(k)), all[k]),
{
    assert(all.take(k + 1).drop_last() =~= all.take(k));
    assert(all.take(k + 1).last() == all[k]);
}

fn insert_token_unique(acc: &mut Vec<Token>, t: Token)
    ensures
        token_views(final(acc)@) == insert_unique(token_views(old(acc)@), t@),
{
    let ghost a0 = token_views(acc@);
    let mut p: usize = 0;
    proof {
        assert(a0.skip(0) =~= a0);
        assert(a0.take(0) + insert_unique(a0, t@) =~= insert_unique(a0, t@));
    }
    while p < acc.len() && !token_less(&t, &acc[p]) && !token_same_key(&acc[p], &t)
        invariant
            p <= acc@.len(),
            a0 == token_views(acc@),
            insert_unique(a0, t@) == a0.take(p as int) + insert_unique(a0.skip(p as int), t@),
        decreases acc@.len() - p,
    {
        proof {
            assert(a0.skip(p as int)[0] == a0[p as int]);
            assert(a0.skip(p as int).drop_first() =~= a0.skip(p + 1));
            assert(a0.take(p + 1) =~= a0.take(p as int) + seq![a0[p as int]]);
            assert(a0.take(p as int) + insert_unique(a0.skip(p as int), t@) =~= a0.take(p + 1)
                + insert_unique(a0.skip(p + 1), t@));
        }
        p += 1;
    }
    if p < acc.len() && token_same_key(&acc[p], &t) {
        proof {
            assert(a0.skip(p as int)[0] == a0[p as int]);
            crate::text::lemma_text_lt_irreflexive(t@.text);
            assert(!token_key_lt(t@, a0[p as int]));
            assert(a0.take(p as int) + a0.skip(p as int) =~= a0);
        }
    } else {
        proof {
            if p < a0.len() {
                assert(a0.skip(p as int)[0] == a0[p as int]);
            } else {
                assert(a0.skip(p as int) =~= Seq::<TokenModel>::empty());
            }
        }
        acc.insert(p, t);
        proof {
            assert(token_views(acc@) =~= a0.take(p as int) + seq![t@] + a0.skip(p as int));
            assert(insert_unique(a0, t@) =~= token_views(acc@));
        }
    }
}

fn combined_at(base: &Vec<Token>, start: usize, n: usize) -> (t: Token)
    requires
        2 <= n,
        start + n <= base@.len(),
    ensures
        t@ == combined_token(token_views(base@), start as int, n as int),
{
    let ghost bv = token_views(base@);
    let mut text = String::new();
    let mut k: usize = start;
    proof {
        assert(bv.subrange(start as int, start as int) =~= Seq::<TokenModel>::empty());
        assert(joined_text(Seq::<TokenModel>::empty()) =~= Seq::<char>::empty());
    }
    let blen = base.len();
    assert(start + n <= blen);
    let stop = start + n;
    while k < stop
        invariant
            stop == start + n,
            bv == token_views(base@),
            start + n <= base@.len(),
            start <= k <= start + n <= base@.len(),
            text@ == joined_text(bv.subrange(start as int, k as int)),
        decreases start + n - k,
    {
        text.append(base[k].text.as_str());
        proof {
            let sub = bv.subrange(start as int, k + 1);
            assert(sub.drop_last() =~= bv.subrange(start as int, k as int));
            assert(sub.last() == bv[k as int]);
        }
        k += 1;
    }
    Token::new(text, base[start].start, base[start + n - 1].end, base[start].kind)
}

/// Tokens plus joined runs of up to `max_ngram` (at most 8) consecutive tokens,
/// sorted by position and without repeated spans.
pub fn tokenize_ngrams(text: &str, max_ngram: usize) -> (result: Vec<Token>)
    ensures
        token_views(result@) == ngram_tokens_spec(text@, max_ngram as int),
{
    if max_ngram == 0 {
        let empty: Vec<Token> = Vec::new();
        proof {
            assert(token_views(empty@) =~= Seq::<TokenModel>::empty());
        }
        return empty;
    }
    let base = tokenize(text);
    let ghost bv = token_views(base@);
    let cap: usize = if max_ngram < 8 {
        max_ngram
    } else {
        8
    };
    let ghost all = bv + ngrams_from(bv, cap as int, 0);
    let mut result: Vec<Token> = Vec::new();
    // the base tokens, in order
    let mut i: usize = 0;
    proof {
        assert(token_views(result@) =~= sort_unique(all.take(0)));
    }
    while i < base.len()
        invariant
            bv == token_views(base@),
            all == bv + ngrams_from(bv, cap as int, 0),
            i <= base@.len(),
            token_views(result@) == sort_unique(all.take(i as int)),
        decreases base@.len() - i,
    {
        let t = base[i].duplicate();
        insert_token_unique(&mut result, t);
        proof {
            assert(all.take(i + 1).drop_last() =~= all.take(i as int));
            assert(all.take(i + 1).last() == bv[i as int]);
        }
        i += 1;
    }
    // then the joined runs, by start then length
    let ghost mut done: int = bv.len() as int;
    let mut start: usize = 0;
    proof {
        assert(all.take(done) + ngrams_from(bv, cap as int, 0) =~= all);
    }
    while start < base.len()
        invariant
            bv == token_views(base@),
            all == bv + ngrams_from(bv, cap as int, 0),
            1 <= cap <= 8,
            start <= base@.len(),
            0 <= done <= all.len(),
            all.take(done) + ngrams_from(bv, cap as int, start as int) == all,
            token_views(result@) == sort_unique(all.take(done)),
        decreases base@.len() - start,
    {
        let ghost group = Seq::new(
            ngram_count(bv.len() as int, cap as int, start as int) as nat,
            |m: int| combined_token(bv, start as int, m + 2),
        );
        let ghost next = ngrams_from(bv, cap as int, start + 1);
        proof {
            assert(ngrams_from(bv, cap as int, start as int) == group + next);
            assert(all.take(done) + group + next =~= all);
        }
        let mut n: usize = 2;
        while n <= cap && n <= base.len() - start
            invariant
                bv == token_views(base@),
                2 <= n <= cap + 1,
                start < base@.len(),
                cap <= 8,
                0 <= done <= all.len(),
                all.take(done) + group + next == all,
                group == Seq::new(
                    ngram_count(bv.len() as int, cap as int, start as int) as nat,
                    |m: int| combined_token(bv, start as int, m + 2),
                ),
                n - 2 <= group.len(),
                (n <= cap && n <= base@.len() - start) ==> n - 2 < group.len(),
                !(n <= cap && n <= base@.len() - start) ==> n - 2 == group.len(),
                token_views(result@) == sort_unique(all.take(done + n - 2)),
            decreases cap + 1 - n,
        {
            let t = combined_at(&base, start, n);
            proof {
                let k = done + n - 2;
                assert(all.take(done).len() == done);
                assert((all.take(done) + group + next).len() == all.len());
                assert(all[k] == (all.take(done) + group + next)[k]);
                assert(all[k] == group[n - 2]);
                lemma_sort_unique_step(all, k);
            }
            insert_token_unique(&mut result, t);
            n += 1;
        }
        proof {
            done = done + group.len();
            assert(all.take(done) + next =~= all);
        }
        start += 1;
    }
    proof {
        assert(ngrams_from(bv, cap as int, base@.len() as int) =~= Seq::<TokenModel>::empty());
        assert(all.take(done) =~= all);
    }
    result
}

// ==================== character tokens ====================

/// Unicode `Alphabetic` property, as `char::is_alphabetic` tests it.
pub uninterp spec fn unicode_alphabetic(c: char) -> bool;

/// Unicode numeric general categories, as `char::is_numeric` tests them.
pub uninterp spec fn unicode_numeric(c: char) -> bool;

/// The Unicode lower-case mapping of one character, as `char::to_lowercase` yields it.
pub uninterp spec fn unicode_lowercase(c: char) -> Seq<char>;

/// Wraps `char::is_alphabetic`.
#[verifier::external_body]
fn char_is_alphabetic(c: char) -> (r: bool)
    ensures
        r == unicode_alphabetic(c),
{
    c.is_alphabetic()
}

/// Wraps `char::is_numeric`.
#[verifier::external_body]
fn char_is_numeric(c: char) -> (r: bool)
    ensures
        r == unicode_numeric(c),
{
    c.is_numeric()
}

/// Wraps `char::to_lowercase`, collecting the characters it yields.
#[verifier::external_body]
fn char_lowercase(c: char) -> (r: String)
    ensures
        r@ == unicode_lowercase(c),
{
    c.to_lowercase().collect::<String>()
}

/// The kind `tokenize_chars` gives one character.
pub open spec fn char_kind(c: char) -> TokenKind {
    if chinese_code_point(c) {
        TokenKind::Chinese
    } else if unicode_alphabetic(c) {
        TokenKind::English
    } else if unicode_numeric(c) {
        TokenKind::Number
    } else {
        TokenKind::Symbol
    }
}

/// The character tokens of `s[i..]`: one per non-whitespace character, letters lower-cased.
pub open spec fn char_tokens_from(s: Seq<char>, i: int) -> Seq<TokenModel>
    decreases s.len() - i,
{
    if i < 0 || i >= s.len() {
        Seq::<TokenModel>::empty()
    } else if whitespace_code_point(s[i]) {
        char_tokens_from(s, i + 1)
    } else {
        seq![
            TokenModel {
                text: if char_kind(s[i]) == TokenKind::English {
                    unicode_lowercase(s[i])
                } else {
                    seq![s[i]]
                },
                start: byte_pos(s, i),
                end: byte_pos(s, i + 1),
                kind: char_kind(s[i]),
            },
        ] + char_tokens_from(s, i + 1)
    }
}

/// One token per non-whitespace character.
pub fn tokenize_chars(text: &str) -> (tokens: Vec<Token>)
    ensures
        token_views(tokens@) == char_tokens_from(text@, 0),
{
    let chars = chars_of(text);
    let bytes = text.as_bytes();
    let total = bytes.len();
    let offs = byte_offsets(&chars, total);
    let ghost s = chars@;
    let mut tokens: Vec<Token> = Vec::new();
    let mut i: usize = 0;
    proof {
        assert(token_views(tokens@) + char_tokens_from(s, 0) =~= char_tokens_from(s, 0));
    }
    while i < chars.len()
        invariant
            s == chars@,
            i <= chars@.len(),
            offs@.len() == chars@.len() + 1,
            forall|k: int| 0 <= k <= chars@.len() ==> offs@[k] == byte_pos(chars@, k),
            token_views(tokens@) + char_tokens_from(s, i as int) == char_tokens_from(s, 0),
        decreases chars@.len() - i,
    {
        let c = chars[i];
        if !is_whitespace_char(c) {
            let ghost before = token_views(tokens@);
            let kind = if is_chinese_char(c) {
                TokenKind::Chinese
            } else if char_is_alphabetic(c) {
                TokenKind::English
            } else if char_is_numeric(c) {
                TokenKind::Number
            } else {
                TokenKind::Symbol
            };
            let text_str = if kind == TokenKind::English {
                char_lowercase(c)
            } else {
                let mut one = String::new();
                push_char(&mut one, c);
                proof {
                    assert(one@ =~= seq![c]);
                }
                one
            };
            let t = Token::new(text_str, offs[i], offs[i + 1], kind);
            proof {
                lemma_views_push(tokens@, t);
            }
            tokens.push(t);
            proof {
                assert(before + char_tokens_from(s, i as int) =~= token_views(tokens@)
                    + char_tokens_from(s, i + 1));
            }
        }
        i += 1;
    }
    proof {
        assert(token_views(tokens@) + char_tokens_from(s, chars@.len() as int) =~= token_views(tokens@));
    }
    tokens
}

// ==================== laws ====================

/// Token `t` is cut from the characters `s[i..j]`, a non-empty stretch of `s`: its byte
/// range is theirs, and its text is theirs (ASCII lower-cased for an English word).
pub open spec fn cut_from(s: Seq<char>, t: TokenModel, i: int, j: int) -> bool {
    &&& 0 <= i < j <= s.len()
    &&& t.start == byte_pos(s, i)
    &&& t.end == byte_pos(s, j)
    &&& t.text == if t.kind == TokenKind::English {
        lower_seq(s.subrange(i, j))
    } else {
        s.subrange(i, j)
    }
}

/// Whether `t` is cut from some stretch of `s` at or after character `from`.
pub open spec fn cut_after(s: Seq<char>, t: TokenModel, from: int) -> bool {
    exists|i: int, j: int| from <= i && cut_from(s, t, i, j)
}

proof fn lemma_run_tokens_cut(s: Seq<char>, a: int, b: int, p: int)
    requires
        0 <= a <= p,
        b <= s.len(),
    ensures
        forall|k: int| 0 <= k < chinese_run_tokens(s, a, b, p).len() ==> cut_after(s, #[trigger] chinese_run_tokens(s, a, b, p)[k], a),
    decreases b - p,
{
    if p < b {
        lemma_run_tokens_cut(s, a, b, p + 1);
        let g = chinese_group(s, a, b, p);
        let rest = chinese_run_tokens(s, a, b, p + 1);
        let n = if b - p < 4 { b - p } else { 4 };
        assert forall|k: int| 0 <= k < g.len() implies cut_after(s, #[trigger] g[k], a) by {
            if k < n {
                assert(g[k] == chinese_token(s, p, p + k + 1));
                assert(cut_from(s, g[k], p, p + k + 1));
            } else {
                assert(g[k] == chinese_token(s, a, b));
                assert(cut_from(s, g[k], a, b));
            }
        }
        assert forall|k: int| 0 <= k < (g + rest).len() implies cut_after(s, #[trigger] (g + rest)[k], a) by {
            if k < g.len() {
                assert((g + rest)[k] == g[k]);
            } else {
                assert((g + rest)[k] == rest[k - g.len()]);
            }
        }
    }
}

proof fn lemma_lex_cut(s: Seq<char>, i: int)
    requires
        0 <= i,
    ensures
        forall|k: int| 0 <= k < lex(s, i).len() ==> cut_after(s, #[trigger] lex(s, i)[k], i),
    decreases s.len() - i,
{
    if i < s.len() {
        if whitespace_code_point(s[i]) {
            lemma_lex_cut(s, i + 1);
            assert(lex(s, i) == lex(s, i + 1));
            assert forall|k: int| 0 <= k < lex(s, i).len() implies cut_after(s, #[trigger] lex(s, i)[k], i) by {
                let t = lex(s, i)[k];
                assert(cut_after(s, lex(s, i + 1)[k], i + 1));
                let (x, y) = choose|x: int, y: int| i + 1 <= x && cut_from(s, t, x, y);
                assert(i <= x && cut_from(s, t, x, y));
            }
        } else if chinese_code_point(s[i]) {
            let j = chinese_run_end(s, i + 1);
            lemma_chinese_run_end_bounds(s, i + 1);
            lemma_run_tokens_cut(s, i, j, i);
            lemma_lex_cut(s, j);
            let run = chinese_run_tokens(s, i, j, i);
            let rest = lex(s, j);
            assert forall|k: int| 0 <= k < (run + rest).len() implies cut_after(s, #[trigger] (run + rest)[k], i) by {
                if k < run.len() {
                    assert((run + rest)[k] == run[k]);
                } else {
                    assert((run + rest)[k] == rest[k - run.len()]);
                    let t = rest[k - run.len()];
                    let (x, y) = choose|x: int, y: int| j <= x && cut_from(s, t, x, y);
                    assert(i <= x && cut_from(s, t, x, y));
                }
            }
        } else if ascii_alpha(s[i]) {
            let j = word_end(s, i + 1);
            lemma_word_end_bounds(s, i + 1);
            lemma_lex_cut(s, j);
            let head = seq![
                TokenModel {
                    text: lower_seq(s.subrange(i, j)),
                    start: byte_pos(s, i),
                    end: byte_pos(s, j),
                    kind: TokenKind::English,
                },
            ];
            let rest = lex(s, j);
            assert(cut_from(s, head[0], i, j));
            assert forall|k: int| 0 <= k < (head + rest).len() implies cut_after(s, #[trigger] (head + rest)[k], i) by {
                if k < 1 {
                    assert((head + rest)[k] == head[0]);
                } else {
                    assert((head + rest)[k] == rest[k - 1]);
                    let t = rest[k - 1];
                    let (x, y) = choose|x: int, y: int| j <= x && cut_from(s, t, x, y);
                    assert(i <= x && cut_from(s, t, x, y));
                }
            }
        } else if ascii_digit(s[i]) {
            let j = digit_end(s, i + 1);
            lemma_digit_end_bounds(s, i + 1);
            lemma_lex_cut(s, j);
            let head = seq![
                TokenModel {
                    text: s.subrange(i, j),
                    start: byte_pos(s, i),
                    end: byte_pos(s, j),
                    kind: TokenKind::Number,
                },
            ];
            let rest = lex(s, j);
            assert(cut_from(s, head[0], i, j));
            assert forall|k: int| 0 <= k < (head + rest).len() implies cut_after(s, #[trigger] (head + rest)[k], i) by {
                if k < 1 {
                    assert((head + rest)[k] == head[0]);
                } else {
                    assert((head + rest)[k] == rest[k - 1]);
                    let t = rest[k - 1];
                    let (x, y) = choose|x: int, y: int| j <= x && cut_from(s, t, x, y);
                    assert(i <= x && cut_from(s, t, x, y));
                }
            }
        } else {
            lemma_lex_cut(s, i + 1);
            let head = seq![
                TokenModel {
                    text: seq![s[i]],
                    start: byte_pos(s, i),
                    end: byte_pos(s, i + 1),
                    kind: TokenKind::Symbol,
                },
            ];
            let rest = lex(s, i + 1);
            assert(s.subrange(i, i + 1) =~= seq![s[i]]);
            assert(cut_from(s, head[0], i, i + 1));
            assert forall|k: int| 0 <= k < (head + rest).len() implies cut_after(s, #[trigger] (head + rest)[k], i) by {
                if k < 1 {
                    assert((head + rest)[k] == head[0]);
                } else {
                    assert((head + rest)[k] == rest[k - 1]);
                    let t = rest[k - 1];
                    let (x, y) = choose|x: int, y: int| i + 1 <= x && cut_from(s, t, x, y);
                    assert(i <= x && cut_from(s, t, x, y));
                }
            }
        }
    }
}

/// Every token is cut from a non-empty stretch of the text: its byte offsets are the
/// boundaries of that stretch, and its text is the stretch's characters (lower-cased for an
/// English word).
pub proof fn lemma_tokens_cut_from_text(s: Seq<char>, k: int)
    requires
        0 <= k < tokenize_spec(s).len(),
    ensures
        exists|i: int, j: int| cut_from(s, tokenize_spec(s)[k], i, j),
{
    lemma_lex_cut(s, 0);
    assert(cut_after(s, tokenize_spec(s)[k], 0));
}


/// Tokens in strictly increasing (start, end, text) order.
pub open spec fn tokens_increasing(ts: Seq<TokenModel>) -> bool {
    forall|i: int, j: int| 0 <= i < j < ts.len() ==> token_key_lt(#[trigger] ts[i], #[trigger] ts[j])
}

proof fn lemma_token_key_lt_transitive(x: TokenModel, y: TokenModel, z: TokenModel)
    requires
        token_key_lt(x, y),
        token_key_lt(y, z),
    ensures
        token_key_lt(x, z),
{
    if x.start == y.start && x.end == y.end && y.start == z.start && y.end == z.end {
        crate::text::lemma_text_lt_transitive(x.text, y.text, z.text);
    }
}

proof fn lemma_token_key_total(x: TokenModel, y: TokenModel)
    ensures
        token_key_lt(x, y) || token_key_lt(y, x) || token_key_eq(x, y),
{
    crate::text::lemma_text_lt_total(x.text, y.text);
}

proof fn lemma_insert_unique_members(acc: Seq<TokenModel>, t: TokenModel, x: TokenModel)
    ensures
        insert_unique(acc, t).contains(x) ==> acc.contains(x) || x == t,
    decreases acc.len(),
{
    let r = insert_unique(acc, t);
    if acc.len() > 0 && r.contains(x) {
        let k = choose|k: int| 0 <= k < r.len() && r[k] == x;
        if token_key_lt(t, acc[0]) {
            if k > 0 {
                assert(acc[k - 1] == x);
            }
        } else if token_key_eq(acc[0], t) {
        } else {
            if k == 0 {
                assert(acc[0] == x);
            } else {
                let rest = insert_unique(acc.drop_first(), t);
                assert(rest[k - 1] == x);
                assert(rest.contains(x));
                lemma_insert_unique_members(acc.drop_first(), t, x);
                if acc.drop_first().contains(x) {
                    let m = choose|m: int| 0 <= m < acc.drop_first().len() && acc.drop_first()[m] == x;
                    assert(acc[m + 1] == x);
                }
            }
        }
    }
}

proof fn lemma_insert_unique_increasing(acc: Seq<TokenModel>, t: TokenModel)
    requires
        tokens_increasing(acc),
    ensures
        tokens_increasing(insert_unique(acc, t)),
    decreases acc.len(),
{
    let r = insert_unique(acc, t);
    if acc.len() == 0 {
    } else if token_key_lt(t, acc[0]) {
        assert forall|i: int, j: int| 0 <= i < j < r.len() implies token_key_lt(#[trigger] r[i], #[trigger] r[j]) by {
            if i == 0 {
                assert(r[j] == acc[j - 1]);
                if j - 1 > 0 {
                    lemma_token_key_lt_transitive(t, acc[0], acc[j - 1]);
                }
            } else {
                assert(r[i] == acc[i - 1] && r[j] == acc[j - 1]);
            }
        }
    } else if token_key_eq(acc[0], t) {
    } else {
        lemma_token_key_total(t, acc[0]);
        let rest = acc.drop_first();
        assert(tokens_increasing(rest)) by {
            assert forall|i: int, j: int| 0 <= i < j < rest.len() implies token_key_lt(#[trigger] rest[i], #[trigger] rest[j]) by {
                assert(rest[i] == acc[i + 1] && rest[j] == acc[j + 1]);
            }
        }
        lemma_insert_unique_increasing(rest, t);
        let ri = insert_unique(rest, t);
        assert forall|i: int, j: int| 0 <= i < j < r.len() implies token_key_lt(#[trigger] r[i], #[trigger] r[j]) by {
            if i == 0 {
                assert(r[j] == ri[j - 1]);
                assert(ri.contains(ri[j - 1]));
                lemma_insert_unique_members(rest, t, ri[j - 1]);
                if rest.contains(ri[j - 1]) {
                    let m = choose|m: int| 0 <= m < rest.len() && rest[m] == ri[j - 1];
                    assert(acc[m + 1] == ri[j - 1]);
                }
            } else {
                assert(r[i] == ri[i - 1] && r[j] == ri[j - 1]);
            }
        }
    }
}

proof fn lemma_sort_unique_increasing(all: Seq<TokenModel>)
    ensures
        tokens_increasing(sort_unique(all)),
    decreases all.len(),
{
    if all.len() > 0 {
        lemma_sort_unique_increasing(all.drop_last());
        lemma_insert_unique_increasing(sort_unique(all.drop_last()), all.last());
    }
}

/// The n-gram tokenization gives no tokens for size 0, the same tokens for every size from
/// 8 up, and its tokens in strictly increasing (start, end, text) order, so without a repeat.
pub proof fn lemma_ngram_laws(s: Seq<char>, n: int)
    requires
        n >= 0,
    ensures
        ngram_tokens_spec(s, 0) == Seq::<TokenModel>::empty(),
        n >= 8 ==> ngram_tokens_spec(s, n) == ngram_tokens_spec(s, 8),
        tokens_increasing(ngram_tokens_spec(s, n)),
{
    if n > 0 {
        let base = tokenize_spec(s);
        let cap = if n < 8 { n } else { 8 };
        lemma_sort_unique_increasing(base + ngrams_from(base, cap, 0));
    }
}


/// `x` comes before `y` by start, then by end.
pub open spec fn span_lt(x: TokenModel, y: TokenModel) -> bool {
    x.start < y.start || (x.start == y.start && x.end < y.end)
}

/// Tokens strictly increasing by (start, end): sorted, with no span twice.
pub open spec fn spans_increasing(ts: Seq<TokenModel>) -> bool {
    forall|i: int, j: int| 0 <= i < j < ts.len() ==> span_lt(#[trigger] ts[i], #[trigger] ts[j])
}

/// Every token of `ts` is a non-empty byte range within `[lo, hi]`.
pub open spec fn spans_within(ts: Seq<TokenModel>, lo: int, hi: int) -> bool {
    forall|k: int| 0 <= k < ts.len() ==> lo <= (#[trigger] ts[k]).start < ts[k].end <= hi
}

proof fn lemma_byte_pos_strict(s: Seq<char>, i: int, j: int)
    requires
        0 <= i < j <= s.len(),
    ensures
        byte_pos(s, i) < byte_pos(s, j),
{
    lemma_byte_pos_step(s, i);
    lemma_byte_pos_mono(s, i + 1, j);
    assert(utf8_width(s[i]) >= 1);
}

proof fn lemma_concat_increasing(a: Seq<TokenModel>, b: Seq<TokenModel>, lo: int, mid: int, hi: int)
    requires
        spans_increasing(a),
        spans_increasing(b),
        spans_within(a, lo, hi),
        spans_within(b, mid, hi),
        forall|k: int| 0 <= k < a.len() ==> (#[trigger] a[k]).start < mid,
        lo <= mid,
    ensures
        spans_increasing(a + b),
        spans_within(a + b, lo, hi),
{
    let r = a + b;
    assert forall|i: int, j: int| 0 <= i < j < r.len() implies span_lt(#[trigger] r[i], #[trigger] r[j]) by {
        if j < a.len() {
            assert(r[i] == a[i] && r[j] == a[j]);
        } else if i < a.len() {
            assert(r[i] == a[i] && r[j] == b[j - a.len()]);
        } else {
            assert(r[i] == b[i - a.len()] && r[j] == b[j - a.len()]);
        }
    }
    assert forall|k: int| 0 <= k < r.len() implies lo <= (#[trigger] r[k]).start < r[k].end <= hi by {
        if k < a.len() {
            assert(r[k] == a[k]);
        } else {
            assert(r[k] == b[k - a.len()]);
        }
    }
}

proof fn lemma_run_tokens_increasing(s: Seq<char>, a: int, b: int, p: int)
    requires
        0 <= a <= p <= b <= s.len(),
    ensures
        spans_increasing(chinese_run_tokens(s, a, b, p)),
        spans_within(chinese_run_tokens(s, a, b, p), byte_pos(s, p), byte_pos(s, b)),
        forall|k: int| 0 <= k < chinese_run_tokens(s, a, b, p).len() ==> (#[trigger] chinese_run_tokens(s, a, b, p)[k]).start
            < byte_pos(s, b),
    decreases b - p,
{
    if p < b {
        lemma_run_tokens_increasing(s, a, b, p + 1);
        let g = chinese_group(s, a, b, p);
        let rest = chinese_run_tokens(s, a, b, p + 1);
        let n = if b - p < 4 { b - p } else { 4 };
        lemma_byte_pos_strict(s, p, p + 1);
        lemma_byte_pos_mono(s, p + 1, b);
        assert forall|k: int| 0 <= k < g.len() implies (#[trigger] g[k]).start == byte_pos(s, p) && byte_pos(s, p) < g[k].end
            <= byte_pos(s, b) && g[k].end == (if k < n { byte_pos(s, p + k + 1) } else { byte_pos(s, b) }) by {
            if k < n {
                assert(g[k] == chinese_token(s, p, p + k + 1));
                lemma_byte_pos_strict(s, p, p + k + 1);
                lemma_byte_pos_mono(s, p + k + 1, b);
            } else {
                assert(g[k] == chinese_token(s, a, b));
                lemma_byte_pos_strict(s, p, b);
            }
        }
        assert(spans_increasing(g)) by {
            assert forall|i: int, j: int| 0 <= i < j < g.len() implies span_lt(#[trigger] g[i], #[trigger] g[j]) by {
                if j < n {
                    lemma_byte_pos_strict(s, p + i + 1, p + j + 1);
                } else {
                    lemma_byte_pos_strict(s, p + i + 1, b);
                }
            }
        }
        lemma_concat_increasing(g, rest, byte_pos(s, p), byte_pos(s, p + 1), byte_pos(s, b));
        assert forall|k: int| 0 <= k < (g + rest).len() implies (#[trigger] (g + rest)[k]).start < byte_pos(s, b) by {
            if k < g.len() {
                assert((g + rest)[k] == g[k]);
                lemma_byte_pos_strict(s, p, b);
            } else {
                assert((g + rest)[k] == rest[k - g.len()]);
            }
        }
    }
}

proof fn lemma_lex_increasing(s: Seq<char>, i: int)
    requires
        0 <= i <= s.len(),
    ensures
        spans_increasing(lex(s, i)),
        spans_within(lex(s, i), byte_pos(s, i), byte_pos(s, s.len() as int)),
    decreases s.len() - i,
{
    let n = s.len() as int;
    if i < n {
        if whitespace_code_point(s[i]) {
            lemma_lex_increasing(s, i + 1);
            lemma_byte_pos_mono(s, i, i + 1);
        } else if chinese_code_point(s[i]) {
            lemma_chinese_run_end_bounds(s, i + 1);
            let j = chinese_run_end(s, i + 1);
            lemma_lex_increasing(s, j);
            lemma_run_tokens_increasing(s, i, j, i);
            lemma_byte_pos_mono(s, i, j);
            lemma_byte_pos_mono(s, j, n);
            lemma_concat_increasing(chinese_run_tokens(s, i, j, i), lex(s, j), byte_pos(s, i), byte_pos(s, j), byte_pos(s, n));
        } else {
            let j = if ascii_alpha(s[i]) {
                word_end(s, i + 1)
            } else if ascii_digit(s[i]) {
                digit_end(s, i + 1)
            } else {
                i + 1
            };
            if ascii_alpha(s[i]) {
                lemma_word_end_bounds(s, i + 1);
            } else if ascii_digit(s[i]) {
                lemma_digit_end_bounds(s, i + 1);
            }
            lemma_lex_increasing(s, j);
            lemma_byte_pos_strict(s, i, j);
            lemma_byte_pos_mono(s, j, n);
            let one = seq![lex(s, i)[0]];
            assert(lex(s, i) == one + lex(s, j));
            lemma_concat_increasing(one, lex(s, j), byte_pos(s, i), byte_pos(s, j), byte_pos(s, n));
        }
    }
}

/// The tokens of a text come in strictly increasing (start, end) order, so no span twice,
/// and each is a non-empty byte range inside the text.
pub proof fn lemma_tokens_ordered(s: Seq<char>)
    ensures
        spans_increasing(tokenize_spec(s)),
        spans_within(tokenize_spec(s), 0, encode_utf8(s).len() as int),
{
    lemma_lex_increasing(s, 0);
    lemma_byte_pos_total(s);
    assert(s.take(0) =~= Seq::<char>::empty());
}


/// Whether `s[q..r]` is a token of the Chinese run `s[a..b]` starting at `p` or later: an
/// n-gram of one to four characters, or the whole run.
pub open spec fn run_piece(a: int, b: int, p: int, q: int, r: int) -> bool {
    p <= q < r <= b && (r - q <= 4 || (q == a && r == b))
}

proof fn lemma_run_tokens_members(s: Seq<char>, a: int, b: int, p: int, x: TokenModel)
    requires
        0 <= a <= p <= b <= s.len(),
    ensures
        chinese_run_tokens(s, a, b, p).contains(x) <==> exists|q: int, r: int|
            run_piece(a, b, p, q, r) && x == #[trigger] chinese_token(s, q, r),
    decreases b - p,
{
    if p < b {
        lemma_run_tokens_members(s, a, b, p + 1, x);
        let g = chinese_group(s, a, b, p);
        let rest = chinese_run_tokens(s, a, b, p + 1);
        let all = g + rest;
        let n = if b - p < 4 { b - p } else { 4 };
        if all.contains(x) {
            let k = choose|k: int| 0 <= k < all.len() && all[k] == x;
            if k < g.len() {
                assert(all[k] == g[k]);
                if k < n {
                    assert(g[k] == chinese_token(s, p, p + k + 1));
                    assert(run_piece(a, b, p, p, p + k + 1));
                } else {
                    assert(g[k] == chinese_token(s, a, b));
                    assert(run_piece(a, b, p, a, b));
                }
            } else {
                assert(all[k] == rest[k - g.len()]);
                assert(rest.contains(x));
                let (q, r) = choose|q: int, r: int| run_piece(a, b, p + 1, q, r) && x == #[trigger] chinese_token(s, q, r);
                assert(run_piece(a, b, p, q, r));
            }
        }
        if exists|q: int, r: int| run_piece(a, b, p, q, r) && x == #[trigger] chinese_token(s, q, r) {
            let (q, r) = choose|q: int, r: int| run_piece(a, b, p, q, r) && x == #[trigger] chinese_token(s, q, r);
            if q == p {
                if r - q <= 4 {
                    let k = r - p - 1;
                    assert(g[k] == chinese_token(s, p, p + k + 1));
                    assert(all[k] == x);
                } else {
                    assert(p == a && b - a > 4);
                    assert(g[n] == chinese_token(s, a, b));
                    assert(all[n] == x);
                }
            } else {
                assert(run_piece(a, b, p + 1, q, r));
                assert(rest.contains(x));
                let k = choose|k: int| 0 <= k < rest.len() && rest[k] == x;
                assert(all[g.len() + k] == x);
            }
        }
    }
}

/// A run of Chinese characters `s[a..b]` yields exactly its n-grams of one to four
/// characters and the run itself, each a token of kind Chinese cut from the text: the
/// tokens the tokenizer gives a run are its whole text plus bounded n-grams.
pub proof fn lemma_chinese_run_tokens(s: Seq<char>, a: int, b: int, x: TokenModel)
    requires
        0 <= a <= b <= s.len(),
    ensures
        chinese_run_tokens(s, a, b, a).contains(x) <==> exists|q: int, r: int|
            a <= q < r <= b && (r - q <= 4 || (q == a && r == b)) && x == #[trigger] chinese_token(s, q, r),
{
    lemma_run_tokens_members(s, a, b, a, x);
    if exists|q: int, r: int| a <= q < r <= b && (r - q <= 4 || (q == a && r == b)) && x == #[trigger] chinese_token(s, q, r) {
        let (q, r) = choose|q: int, r: int| a <= q < r <= b && (r - q <= 4 || (q == a && r == b)) && x == #[trigger] chinese_token(s, q, r);
        assert(run_piece(a, b, a, q, r));
    }
    if chinese_run_tokens(s, a, b, a).contains(x) {
        let (q, r) = choose|q: int, r: int| run_piece(a, b, a, q, r) && x == #[trigger] chinese_token(s, q, r);
        assert(a <= q < r <= b && (r - q <= 4 || (q == a && r == b)) && x == chinese_token(s, q, r));
    }
}


proof fn lemma_insert_unique_last(acc: Seq<TokenModel>, t: TokenModel)
    requires
        forall|k: int| 0 <= k < acc.len() ==> token_key_lt(#[trigger] acc[k], t),
    ensures
        insert_unique(acc, t) == acc.push(t),
    decreases acc.len(),
{
    if acc.len() > 0 {
        let x = acc[0];
        assert(token_key_lt(x, t));
        crate::text::lemma_text_lt_total(x.text, t.text);
        crate::text::lemma_text_lt_irreflexive(x.text);
        assert(!token_key_lt(t, x));
        assert(!token_key_eq(x, t));
        let rest = acc.drop_first();
        assert forall|k: int| 0 <= k < rest.len() implies token_key_lt(#[trigger] rest[k], t) by {
            assert(rest[k] == acc[k + 1]);
        }
        lemma_insert_unique_last(rest, t);
        assert(seq![x] + rest.push(t) =~= acc.push(t));
    }
}

proof fn lemma_sort_unique_of_increasing(all: Seq<TokenModel>)
    requires
        spans_increasing(all),
    ensures
        sort_unique(all) == all,
    decreases all.len(),
{
    if all.len() > 0 {
        let init = all.drop_last();
        assert(spans_increasing(init)) by {
            assert forall|i: int, j: int| 0 <= i < j < init.len() implies span_lt(#[trigger] init[i], #[trigger] init[j]) by {
                assert(init[i] == all[i] && init[j] == all[j]);
            }
        }
        lemma_sort_unique_of_increasing(init);
        assert forall|k: int| 0 <= k < init.len() implies token_key_lt(#[trigger] init[k], all.last()) by {
            assert(init[k] == all[k]);
            assert(span_lt(all[k], all[all.len() - 1]));
        }
        lemma_insert_unique_last(init, all.last());
        assert(init.push(all.last()) =~= all);
    }
}

proof fn lemma_ngrams_cap_one(base: Seq<TokenModel>, start: int)
    requires
        0 <= start,
    ensures
        ngrams_from(base, 1, start) == Seq::<TokenModel>::empty(),
    decreases base.len() - start,
{
    if start < base.len() {
        lemma_ngrams_cap_one(base, start + 1);
        assert(ngrams_from(base, 1, start) =~= Seq::<TokenModel>::empty());
    }
}

/// N-grams of size 1 are the plain tokens: `tokenize_ngrams(text, 1)` is `tokenize(text)`.
pub proof fn lemma_ngrams_of_size_one(s: Seq<char>)
    ensures
        ngram_tokens_spec(s, 1) == tokenize_spec(s),
{
    let base = tokenize_spec(s);
    lemma_ngrams_cap_one(base, 0);
    assert(base + ngrams_from(base, 1, 0) =~= base);
    lemma_tokens_ordered(s);
    lemma_sort_unique_of_increasing(base);
}


proof fn lemma_run_tokens_count(s: Seq<char>, a: int, b: int, p: int)
    requires
        0 <= a <= p <= b <= s.len(),
    ensures
        chinese_run_tokens(s, a, b, p).len() <= 4 * (b - p) + (if p == a && b > a { 1int } else { 0int }),
    decreases b - p,
{
    if p < b {
        lemma_run_tokens_count(s, a, b, p + 1);
    }
}

proof fn lemma_lex_count(s: Seq<char>, i: int)
    requires
        0 <= i <= s.len(),
    ensures
        lex(s, i).len() <= 5 * (s.len() - i),
    decreases s.len() - i,
{
    if i < s.len() {
        if whitespace_code_point(s[i]) {
            lemma_lex_count(s, i + 1);
        } else if chinese_code_point(s[i]) {
            lemma_chinese_run_end_bounds(s, i + 1);
            let j = chinese_run_end(s, i + 1);
            lemma_lex_count(s, j);
            lemma_run_tokens_count(s, i, j, i);
        } else if ascii_alpha(s[i]) {
            lemma_word_end_bounds(s, i + 1);
            lemma_lex_count(s, word_end(s, i + 1));
        } else if ascii_digit(s[i]) {
            lemma_digit_end_bounds(s, i + 1);
            lemma_lex_count(s, digit_end(s, i + 1));
        } else {
            lemma_lex_count(s, i + 1);
        }
    }
}

/// The tokenizer's output grows linearly: at most five tokens per character.
pub proof fn lemma_token_count_linear(s: Seq<char>)
    ensures
        tokenize_spec(s).len() <= 5 * s.len(),
{
    lemma_lex_count(s, 0);
}


/// No character of `t` is whitespace.
pub open spec fn no_whitespace(t: Seq<char>) -> bool {
    forall|k: int| 0 <= k < t.len() ==> !whitespace_code_point(#[trigger] t[k])
}

proof fn lemma_lower_not_whitespace(c: char)
    requires
        word_char(c),
    ensures
        !whitespace_code_point(to_ascii_lower(c)),
{
    if ascii_upper(c) {
        let u = (c as u32) + 32;
        assert(0x61 <= u <= 0x7A);
        vstd::utf8::char_u32_cast(to_ascii_lower(c), to_ascii_lower(c) as u32);
    }
}

proof fn lemma_run_tokens_text(s: Seq<char>, a: int, b: int, p: int)
    requires
        0 <= a <= p <= b <= s.len(),
        forall|k: int| a <= k < b ==> chinese_code_point(#[trigger] s[k]),
    ensures
        forall|k: int| 0 <= k < chinese_run_tokens(s, a, b, p).len() ==> no_whitespace(
            (#[trigger] chinese_run_tokens(s, a, b, p)[k]).text,
        ),
    decreases b - p,
{
    if p < b {
        lemma_run_tokens_text(s, a, b, p + 1);
        let g = chinese_group(s, a, b, p);
        let rest = chinese_run_tokens(s, a, b, p + 1);
        let n = if b - p < 4 { b - p } else { 4 };
        assert forall|k: int| 0 <= k < (g + rest).len() implies no_whitespace((#[trigger] (g + rest)[k]).text) by {
            if k < g.len() {
                assert((g + rest)[k] == g[k]);
                let (q, r) = if k < n { (p, p + k + 1) } else { (a, b) };
                assert(g[k] == chinese_token(s, q, r));
                assert forall|x: int| 0 <= x < g[k].text.len() implies !whitespace_code_point(#[trigger] g[k].text[x]) by {
                    assert(g[k].text[x] == s[q + x]);
                    assert(chinese_code_point(s[q + x]));
                }
            } else {
                assert((g + rest)[k] == rest[k - g.len()]);
            }
        }
    }
}

proof fn lemma_lex_text(s: Seq<char>, i: int)
    requires
        0 <= i <= s.len(),
    ensures
        forall|k: int| 0 <= k < lex(s, i).len() ==> no_whitespace((#[trigger] lex(s, i)[k]).text),
    decreases s.len() - i,
{
    if i < s.len() {
        if whitespace_code_point(s[i]) {
            lemma_lex_text(s, i + 1);
        } else if chinese_code_point(s[i]) {
            lemma_chinese_run_end_bounds(s, i + 1);
            let j = chinese_run_end(s, i + 1);
            lemma_lex_text(s, j);
            lemma_run_tokens_text(s, i, j, i);
            let x = chinese_run_tokens(s, i, j, i);
            let y = lex(s, j);
            assert forall|k: int| 0 <= k < (x + y).len() implies no_whitespace((#[trigger] (x + y)[k]).text) by {
                if k < x.len() {
                    assert((x + y)[k] == x[k]);
                } else {
                    assert((x + y)[k] == y[k - x.len()]);
                }
            }
        } else {
            let j = if ascii_alpha(s[i]) {
                word_end(s, i + 1)
            } else if ascii_digit(s[i]) {
                digit_end(s, i + 1)
            } else {
                i + 1
            };
            if ascii_alpha(s[i]) {
                lemma_word_end_bounds(s, i + 1);
            } else if ascii_digit(s[i]) {
                lemma_digit_end_bounds(s, i + 1);
            }
            lemma_lex_text(s, j);
            let t = lex(s, i)[0];
            assert(no_whitespace(t.text)) by {
                assert forall|x: int| 0 <= x < t.text.len() implies !whitespace_code_point(#[trigger] t.text[x]) by {
                    if ascii_alpha(s[i]) {
                        assert(word_char(s[i + x]));
                        assert(t.text[x] == to_ascii_lower(s[i + x]));
                        lemma_lower_not_whitespace(s[i + x]);
                    } else if ascii_digit(s[i]) {
                        assert(ascii_digit(s[i + x]));
                        assert(t.text[x] == s[i + x]);
                    } else {
                        assert(t.text[x] == s[i]);
                    }
                }
            }
            let one = seq![t];
            assert(lex(s, i) == one + lex(s, j));
            assert forall|k: int| 0 <= k < lex(s, i).len() implies no_whitespace((#[trigger] lex(s, i)[k]).text) by {
                if k > 0 {
                    assert(lex(s, i)[k] == lex(s, j)[k - 1]);
                }
            }
        }
    }
}

/// No token's text holds whitespace.
pub proof fn lemma_token_texts_without_whitespace(s: Seq<char>)
    ensures
        forall|k: int| 0 <= k < tokenize_spec(s).len() ==> no_whitespace((#[trigger] tokenize_spec(s)[k]).text),
{
    lemma_lex_text(s, 0);
}


proof fn lemma_insert_unique_keeps(acc: Seq<TokenModel>, t: TokenModel, x: TokenModel)
    ensures
        acc.contains(x) ==> insert_unique(acc, t).contains(x),
        (forall|k: int| 0 <= k < acc.len() ==> !token_key_eq(#[trigger] acc[k], t)) ==> insert_unique(acc, t).contains(t),
    decreases acc.len(),
{
    let r = insert_unique(acc, t);
    if acc.len() == 0 {
        assert(r[0] == t);
    } else if token_key_lt(t, acc[0]) {
        assert(r[0] == t);
        if acc.contains(x) {
            let k = choose|k: int| 0 <= k < acc.len() && acc[k] == x;
            assert(r[k + 1] == x);
        }
    } else if token_key_eq(acc[0], t) {
    } else {
        let rest = acc.drop_first();
        lemma_insert_unique_keeps(rest, t, x);
        let ri = insert_unique(rest, t);
        if acc.contains(x) {
            let k = choose|k: int| 0 <= k < acc.len() && acc[k] == x;
            if k == 0 {
                assert(r[0] == x);
            } else {
                assert(rest[k - 1] == x);
                let m = choose|m: int| 0 <= m < ri.len() && ri[m] == x;
                assert(r[m + 1] == x);
            }
        }
        if forall|k: int| 0 <= k < acc.len() ==> !token_key_eq(#[trigger] acc[k], t) {
            assert forall|k: int| 0 <= k < rest.len() implies !token_key_eq(#[trigger] rest[k], t) by {
                assert(rest[k] == acc[k + 1]);
            }
            let m = choose|m: int| 0 <= m < ri.len() && ri[m] == t;
            assert(r[m + 1] == t);
        }
    }
}

proof fn lemma_sort_unique_keeps_first(all: Seq<TokenModel>, k: int)
    requires
        0 <= k < all.len(),
        forall|j: int| 0 <= j < k ==> !token_key_eq(#[trigger] all[j], all[k]),
    ensures
        sort_unique(all).contains(all[k]),
    decreases all.len(),
{
    let init = all.drop_last();
    let si = sort_unique(init);
    if k < all.len() - 1 {
        assert forall|j: int| 0 <= j < k implies !token_key_eq(#[trigger] init[j], init[k]) by {
            assert(init[j] == all[j]);
        }
        lemma_sort_unique_keeps_first(init, k);
        assert(init[k] == all[k]);
        lemma_insert_unique_keeps(si, all.last(), all[k]);
    } else {
        assert forall|m: int| 0 <= m < si.len() implies !token_key_eq(#[trigger] si[m], all.last()) by {
            lemma_sort_unique_members(init, si[m]);
            assert(si.contains(si[m]));
            let j = choose|j: int| 0 <= j < init.len() && init[j] == si[m];
            assert(init[j] == all[j]);
        }
        lemma_insert_unique_keeps(si, all.last(), all[k]);
    }
}

proof fn lemma_sort_unique_members(all: Seq<TokenModel>, x: TokenModel)
    ensures
        sort_unique(all).contains(x) ==> all.contains(x),
    decreases all.len(),
{
    if all.len() > 0 {
        let init = all.drop_last();
        lemma_sort_unique_members(init, x);
        lemma_insert_unique_members(sort_unique(init), all.last(), x);
        if init.contains(x) {
            let j = choose|j: int| 0 <= j < init.len() && init[j] == x;
            assert(all[j] == x);
        }
        if x == all.last() {
            assert(all[all.len() - 1] == x);
        }
    }
}

/// Every token of `tokenize` is among the n-gram tokens of any size from 1 up.
pub proof fn lemma_ngrams_keep_tokens(s: Seq<char>, n: int, k: int)
    requires
        n >= 1,
        0 <= k < tokenize_spec(s).len(),
    ensures
        ngram_tokens_spec(s, n).contains(tokenize_spec(s)[k]),
{
    let base = tokenize_spec(s);
    let cap = if n < 8 { n } else { 8 };
    let all = base + ngrams_from(base, cap, 0);
    lemma_tokens_ordered(s);
    assert forall|j: int| 0 <= j < k implies !token_key_eq(#[trigger] all[j], all[k]) by {
        assert(all[j] == base[j] && all[k] == base[k]);
        assert(span_lt(base[j], base[k]));
    }
    assert(all[k] == base[k]);
    lemma_sort_unique_keeps_first(all, k);
}


/// `s[a..b]` is a maximal run of Chinese characters: not empty, all Chinese, and with no
/// Chinese character just before or just after it.
pub open spec fn maximal_chinese_run(s: Seq<char>, a: int, b: int) -> bool {
    &&& 0 <= a < b <= s.len()
    &&& forall|k: int| a <= k < b ==> chinese_code_point(#[trigger] s[k])
    &&& (a == 0 || !chinese_code_point(s[a - 1]))
    &&& (b == s.len() || !chinese_code_point(s[b]))
}

/// The lexer, started at `j`, passes through position `a`, a Chinese character that does not
/// follow another: what it yields before `a` ends at or before `a`'s byte offset.
proof fn lemma_lex_reaches(s: Seq<char>, j: int, a: int)
    requires
        0 <= j <= a < s.len(),
        chinese_code_point(s[a]),
        a == 0 || !chinese_code_point(s[a - 1]),
    ensures
        exists|pre: Seq<TokenModel>|
            lex(s, j) == pre + lex(s, a) && (forall|k: int| 0 <= k < pre.len() ==> (#[trigger] pre[k]).start < pre[k].end
                <= byte_pos(s, a)),
    decreases a - j,
{
    if j == a {
        let pre = Seq::<TokenModel>::empty();
        assert(lex(s, j) == pre + lex(s, a));
    } else {
        let e = if whitespace_code_point(s[j]) {
            j + 1
        } else if chinese_code_point(s[j]) {
            chinese_run_end(s, j + 1)
        } else if ascii_alpha(s[j]) {
            word_end(s, j + 1)
        } else if ascii_digit(s[j]) {
            digit_end(s, j + 1)
        } else {
            j + 1
        };
        if whitespace_code_point(s[j]) {
        } else if chinese_code_point(s[j]) {
            lemma_chinese_run_end_bounds(s, j + 1);
            if e > a - 1 {
                assert(chinese_code_point(s[a - 1]));
            }
        } else if ascii_alpha(s[j]) {
            lemma_word_end_bounds(s, j + 1);
            if e > a {
                assert(word_char(s[a]));
            }
        } else if ascii_digit(s[j]) {
            lemma_digit_end_bounds(s, j + 1);
            if e > a {
                assert(ascii_digit(s[a]));
            }
        }
        assert(j < e <= a);
        lemma_lex_reaches(s, e, a);
        let pre1 = choose|pre: Seq<TokenModel>|
            lex(s, e) == pre + lex(s, a) && (forall|k: int| 0 <= k < pre.len() ==> (#[trigger] pre[k]).start < pre[k].end
                <= byte_pos(s, a));
        lemma_byte_pos_mono(s, e, a);
        let head: Seq<TokenModel> = if whitespace_code_point(s[j]) {
            Seq::empty()
        } else if chinese_code_point(s[j]) {
            chinese_run_tokens(s, j, e, j)
        } else {
            seq![lex(s, j)[0]]
        };
        if chinese_code_point(s[j]) && !whitespace_code_point(s[j]) {
            lemma_run_tokens_increasing(s, j, e, j);
        } else if !whitespace_code_point(s[j]) {
            lemma_byte_pos_strict(s, j, e);
        }
        assert(lex(s, j) == head + lex(s, e));
        let pre = head + pre1;
        assert(lex(s, j) == pre + lex(s, a));
        assert forall|k: int| 0 <= k < pre.len() implies (#[trigger] pre[k]).start < pre[k].end <= byte_pos(s, a) by {
            if k < head.len() {
                assert(pre[k] == head[k]);
            } else {
                assert(pre[k] == pre1[k - head.len()]);
            }
        }
    }
}

/// For every maximal run of Chinese characters `s[a..b]`, the tokens of `s` that lie within
/// the run's bytes are exactly its n-grams of one to four characters and the whole run.
pub proof fn lemma_tokenize_runs(s: Seq<char>, a: int, b: int, x: TokenModel)
    requires
        maximal_chinese_run(s, a, b),
    ensures
        (tokenize_spec(s).contains(x) && byte_pos(s, a) <= x.start && x.end <= byte_pos(s, b)) <==> exists|q: int, r: int|
            a <= q < r <= b && (r - q <= 4 || (q == a && r == b)) && x == #[trigger] chinese_token(s, q, r),
{
    lemma_lex_reaches(s, 0, a);
    let pre = choose|pre: Seq<TokenModel>|
        lex(s, 0) == pre + lex(s, a) && (forall|k: int| 0 <= k < pre.len() ==> (#[trigger] pre[k]).start < pre[k].end
            <= byte_pos(s, a));
    lemma_chinese_run_end_bounds(s, a + 1);
    let e = chinese_run_end(s, a + 1);
    lemma_chinese_run_end_stops(s, a + 1);
    assert(e == b) by {
        if e < b {
            assert(chinese_code_point(s[e]));
        }
        if e > b {
            assert(chinese_code_point(s[b]));
        }
    }
    let run = chinese_run_tokens(s, a, b, a);
    let post = lex(s, b);
    assert(lex(s, a) == run + post);
    lemma_run_tokens_increasing(s, a, b, a);
    lemma_lex_increasing(s, b);
    lemma_chinese_run_tokens(s, a, b, x);
    let all = pre + (run + post);
    assert(tokenize_spec(s) == all);
    if all.contains(x) && byte_pos(s, a) <= x.start && x.end <= byte_pos(s, b) {
        let k = choose|k: int| 0 <= k < all.len() && all[k] == x;
        if k < pre.len() {
            assert(all[k] == pre[k]);
            assert(false);
        } else if k < pre.len() + run.len() {
            assert(all[k] == run[k - pre.len()]);
            assert(run.contains(x));
        } else {
            assert(all[k] == post[k - pre.len() - run.len()]);
            assert(false);
        }
    }
    if run.contains(x) {
        let k = choose|k: int| 0 <= k < run.len() && run[k] == x;
        assert(all[pre.len() + k] == x);
    }
}

/// Every character of `s` that is not whitespace lies inside the byte span of some token.
pub proof fn lemma_tokens_cover_text(s: Seq<char>, i: int)
    requires
        0 <= i < s.len(),
        !whitespace_code_point(s[i]),
    ensures
        exists|k: int|
            0 <= k < tokenize_spec(s).len() && (#[trigger] tokenize_spec(s)[k]).start <= byte_pos(s, i) && byte_pos(s, i + 1)
                <= tokenize_spec(s)[k].end,
{
    lemma_lex_covers(s, 0, i);
    assert(tokenize_spec(s) == lex(s, 0));
    let k = choose|k: int|
        0 <= k < lex(s, 0).len() && (#[trigger] lex(s, 0)[k]).start <= byte_pos(s, i) && byte_pos(s, i + 1) <= lex(s, 0)[k].end;
    assert(tokenize_spec(s)[k] == lex(s, 0)[k]);
}

proof fn lemma_chinese_run_end_stops(s: Seq<char>, i: int)
    requires
        0 <= i <= s.len(),
    ensures
        chinese_run_end(s, i) < s.len() ==> !chinese_code_point(s[chinese_run_end(s, i)]),
    decreases s.len() - i,
{
    if i < s.len() && chinese_code_point(s[i]) {
        lemma_chinese_run_end_stops(s, i + 1);
    }
}

proof fn lemma_lex_covers(s: Seq<char>, j: int, i: int)
    requires
        0 <= j <= i < s.len(),
        !whitespace_code_point(s[i]),
    ensures
        exists|k: int|
            0 <= k < lex(s, j).len() && (#[trigger] lex(s, j)[k]).start <= byte_pos(s, i) && byte_pos(s, i + 1) <= lex(s, j)[k].end,
    decreases i - j,
{
    let t = lex(s, j);
    if whitespace_code_point(s[j]) {
        lemma_lex_covers(s, j + 1, i);
    } else {
        let e = if chinese_code_point(s[j]) {
            chinese_run_end(s, j + 1)
        } else if ascii_alpha(s[j]) {
            word_end(s, j + 1)
        } else if ascii_digit(s[j]) {
            digit_end(s, j + 1)
        } else {
            j + 1
        };
        if chinese_code_point(s[j]) {
            lemma_chinese_run_end_bounds(s, j + 1);
        } else if ascii_alpha(s[j]) {
            lemma_word_end_bounds(s, j + 1);
        } else if ascii_digit(s[j]) {
            lemma_digit_end_bounds(s, j + 1);
        }
        let head: Seq<TokenModel> = if chinese_code_point(s[j]) {
            chinese_run_tokens(s, j, e, j)
        } else {
            seq![t[0]]
        };
        assert(t == head + lex(s, e));
        if i < e {
            if chinese_code_point(s[j]) {
                let x = chinese_token(s, i, i + 1);
                assert(run_piece(j, e, j, i, i + 1));
                lemma_run_tokens_members(s, j, e, j, x);
                let k = choose|k: int| 0 <= k < head.len() && head[k] == x;
                assert(t[k] == x);
            } else {
                lemma_byte_pos_mono(s, j, i);
                lemma_byte_pos_mono(s, i + 1, e);
                assert(t[0] == head[0]);
            }
        } else {
            lemma_lex_covers(s, e, i);
            let t2 = lex(s, e);
            let k = choose|k: int|
                0 <= k < t2.len() && (#[trigger] t2[k]).start <= byte_pos(s, i) && byte_pos(s, i + 1) <= t2[k].end;
            assert(t[head.len() + k] == t2[k]);
        }
    }
}

} // verus!
