//! Splitting SQL text into tokens.

use vstd::prelude::*;
use crate::text::{lower_ch, lower_char, lower_seq, is_digit, digits_value, digit_value};

verus! {

/// Punctuation and operator symbols.
#[derive(Debug, Clone, Copy, PartialEq, Eq, Structural)]
pub enum Sym {
    LParen,
    RParen,
    Comma,
    Semicolon,
    Dot,
    Star,
    Plus,
    Minus,
    Slash,
    Percent,
    Eq,
    Ne,
    Lt,
    Le,
    Gt,
    Ge,
    Concat,
    Amp,
    Pipe,
    Caret,
    Shl,
    Shr,
    Tilde,
}

/// Tokens of SQL text.
#[derive(Debug)]
pub enum Token {
    /// A keyword or unquoted identifier, lower-cased.
    Word(Vec<char>),
    /// A double-quoted or back-quoted identifier, as written.
    Quoted(Vec<char>),
    /// A single-quoted string literal with `''` unescaped.
    Str(Vec<char>),
    /// An integer literal.
    Int(i64),
    /// A decimal literal such as `3.14`, by its whole part; the digits after
    /// the point are read and dropped, as only a cast to INTEGER uses it.
    Decimal(i64),
    /// A `X'..'` blob literal.
    Blob(Vec<u8>),
    Sym(Sym),
}

pub open spec fn is_word_start(c: char) -> bool {
    ('a' <= c && c <= 'z') || ('A' <= c && c <= 'Z') || c == '_'
}

pub open spec fn is_word_char(c: char) -> bool {
    is_word_start(c) || is_digit(c) || c == '$'
}


/// A token as values.
pub enum TokV {
    Word(Seq<char>),
    Quoted(Seq<char>),
    Str(Seq<char>),
    Int(int),
    Decimal(int),
    Blob(Seq<u8>),
    Sym(Sym),
}

/// The value of a token.
pub open spec fn tok_view(t: Token) -> TokV {
    match t {
        Token::Word(w) => TokV::Word(w@),
        Token::Quoted(w) => TokV::Quoted(w@),
        Token::Str(w) => TokV::Str(w@),
        Token::Int(v) => TokV::Int(v as int),
        Token::Decimal(v) => TokV::Decimal(v as int),
        Token::Blob(b) => TokV::Blob(b@),
        Token::Sym(x) => TokV::Sym(x),
    }
}

/// The values of the tokens.
pub open spec fn toks_view(ts: Seq<Token>) -> Seq<TokV> {
    ts.map_values(|t: Token| tok_view(t))
}

/// Where a `--` comment whose text starts at `j` ends: at the next newline,
/// or at the end of the text.
pub open spec fn comment_end(s: Seq<char>, j: int) -> int
    decreases s.len() - j,
{
    if j < 0 || j >= s.len() || s[j] == '\n' { j } else { comment_end(s, j + 1) }
}

/// Where the run of word characters from `j` on ends.
pub open spec fn word_end(s: Seq<char>, j: int) -> int
    decreases s.len() - j,
{
    if j < 0 || j >= s.len() || !is_word_char(s[j]) { j } else { word_end(s, j + 1) }
}

/// Where the run of decimal digits from `j` on ends.
pub open spec fn digit_end(s: Seq<char>, j: int) -> int
    decreases s.len() - j,
{
    if j < 0 || j >= s.len() || !is_digit(s[j]) { j } else { digit_end(s, j + 1) }
}

proof fn lemma_comment_end(s: Seq<char>, j: int, i: int)
    requires 0 <= j <= i <= s.len(), forall|k: int| j <= k < i ==> #[trigger] s[k] != '\n', i == s.len() || s[i] == '\n',
    ensures comment_end(s, j) == i,
    decreases i - j,
{
    if j < i { lemma_comment_end(s, j + 1, i); }
}

proof fn lemma_word_end(s: Seq<char>, j: int, i: int)
    requires 0 <= j <= i <= s.len(), forall|k: int| j <= k < i ==> is_word_char(#[trigger] s[k]), i == s.len() || !is_word_char(s[i]),
    ensures word_end(s, j) == i,
    decreases i - j,
{
    if j < i { lemma_word_end(s, j + 1, i); }
}

proof fn lemma_digit_end(s: Seq<char>, j: int, i: int)
    requires 0 <= j <= i <= s.len(), forall|k: int| j <= k < i ==> is_digit(#[trigger] s[k]), i == s.len() || !is_digit(s[i]),
    ensures digit_end(s, j) == i,
    decreases i - j,
{
    if j < i { lemma_digit_end(s, j + 1, i); }
}

/// The bytes of pairs of hex digits from position `k` on, after `acc`;
/// `None` where a character is not a hex digit or one is left over.
pub open spec fn hex_from(h: Seq<char>, k: int, acc: Seq<u8>) -> Option<Seq<u8>>
    decreases h.len() - k,
{
    if k < 0 || k >= h.len() {
        Some(acc)
    } else if k + 1 >= h.len() {
        None
    } else {
        match (hex_digit(h[k]), hex_digit(h[k + 1])) {
            (Some(a), Some(b)) => hex_from(h, k + 2, acc.push((a * 16 + b) as u8)),
            _ => None,
        }
    }
}

/// The tokens of the text from position `i` on, after those in `acc`; `None`
/// where the text holds something that is no token: an unterminated quote,
/// a malformed blob, a number followed by a dot or a letter, an integer out
/// of range, or an unknown character. Blanks and `--` comments separate
/// tokens.
pub open spec fn lex_from(s: Seq<char>, i: int, acc: Seq<TokV>) -> Option<Seq<TokV>>
    decreases s.len() - i,
{
    if i < 0 || i >= s.len() {
        Some(acc)
    } else {
        let c = s[i];
        if c == ' ' || c == '\t' || c == '\n' || c == '\r' {
            lex_from(s, i + 1, acc)
        } else if c == '-' && i + 1 < s.len() && s[i + 1] == '-' {
            let j = comment_end(s, i + 2);
            if i < j <= s.len() { lex_from(s, j, acc) } else { None }
        } else if (c == 'x' || c == 'X') && i + 1 < s.len() && s[i + 1] == '\'' {
            match quoted_from(s, i + 2, '\'') {
                None => None,
                Some((hex, e)) => if hex.len() % 2 != 0 {
                    None
                } else {
                    match hex_from(hex, 0, Seq::empty()) {
                        Some(bs) => if i < e <= s.len() { lex_from(s, e, acc.push(TokV::Blob(bs))) } else { None },
                        None => None,
                    }
                },
            }
        } else if is_word_start(c) {
            let j = word_end(s, i + 1);
            if i < j <= s.len() { lex_from(s, j, acc.push(TokV::Word(lower_seq(s.subrange(i, j))))) } else { None }
        } else if is_digit(c) {
            let j = digit_end(s, i + 1);
            if j + 1 < s.len() && s[j] == '.' && is_digit(s[j + 1]) {
                let k = digit_end(s, j + 1);
                if k < s.len() && (s[k] == '.' || is_word_start(s[k])) {
                    None
                } else if digits_value(s.subrange(i, j)) > i64::MAX {
                    None
                } else if i < k <= s.len() {
                    lex_from(s, k, acc.push(TokV::Decimal(digits_value(s.subrange(i, j)))))
                } else {
                    None
                }
            } else if j < s.len() && (s[j] == '.' || is_word_start(s[j])) {
                None
            } else if digits_value(s.subrange(i, j)) > i64::MAX {
                None
            } else if i < j <= s.len() {
                lex_from(s, j, acc.push(TokV::Int(digits_value(s.subrange(i, j)))))
            } else {
                None
            }
        } else if c == '\'' || c == '"' || c == '`' {
            match quoted_from(s, i + 1, c) {
                None => None,
                Some((t, e)) => if i < e <= s.len() {
                    lex_from(s, e, acc.push(if c == '\'' { TokV::Str(t) } else { TokV::Quoted(t) }))
                } else { None },
            }
        } else if i + 1 < s.len() && two_char_spec(c, s[i + 1]) is Some {
            lex_from(s, i + 2, acc.push(TokV::Sym(two_char_spec(c, s[i + 1]).unwrap())))
        } else {
            match one_char_spec(c) {
                Some(x) => lex_from(s, i + 1, acc.push(TokV::Sym(x))),
                None => None,
            }
        }
    }
}

/// Well-formed tokens: words are non-empty runs of lower-case word characters.
pub open spec fn token_wf(t: Token) -> bool {
    match t {
        Token::Word(w) => w@.len() > 0 && forall|k: int| 0 <= k < w@.len() ==> is_word_char(#[trigger] w@[k]) && w@[k] == lower_char(w@[k]),
        _ => true,
    }
}

fn is_word_start_ch(c: char) -> (r: bool)
    ensures r == is_word_start(c),
{
    ('a' <= c && c <= 'z') || ('A' <= c && c <= 'Z') || c == '_'
}

fn is_word_ch(c: char) -> (r: bool)
    ensures r == is_word_char(c),
{
    is_word_start_ch(c) || ('0' <= c && c <= '9') || c == '$'
}

/// The value of a hexadecimal digit.
pub open spec fn hex_digit(c: char) -> Option<u8> {
    if '0' <= c && c <= '9' {
        Some(((c as u8) - 48) as u8)
    } else if 'a' <= c && c <= 'f' {
        Some(((c as u8) - 87) as u8)
    } else if 'A' <= c && c <= 'F' {
        Some(((c as u8) - 55) as u8)
    } else {
        None
    }
}

fn hex_value(c: char) -> (r: Option<u8>)
    ensures r matches Some(v) ==> v < 16, r == hex_digit(c),
{
    if '0' <= c && c <= '9' {
        Some((c as u8) - 48u8)
    } else if 'a' <= c && c <= 'f' {
        Some((c as u8) - 87u8)
    } else if 'A' <= c && c <= 'F' {
        Some((c as u8) - 55u8)
    } else {
        None
    }
}

/// Reads a quoted run starting after the opening quote `q`; a doubled quote
/// stands for one quote character. Returns the text and the position after
/// the closing quote.
fn read_quoted(s: &Vec<char>, start: usize, q: char) -> (r: Option<(Vec<char>, usize)>)
    requires start <= s.len(),
    ensures
        r matches Some((_, e)) ==> start < e <= s.len(),
        match quoted_from(s@, start as int, q) {
            Some((t, e)) => r matches Some((x, f)) && x@ == t && f == e,
            None => r is None,
        },
{
    let mut out: Vec<char> = Vec::new();
    let mut i = start;
    while i < s.len()
        invariant start <= i <= s.len(),
            quoted_from(s@, start as int, q) == (match quoted_from(s@, i as int, q) {
                Some((t, e)) => Some((out@ + t, e)),
                None => None,
            }),
        decreases s.len() - i,
    {
        let c = s[i];
        let ghost before = out@;
        if c == q {
            if i + 1 < s.len() && s[i + 1] == q {
                out.push(q);
                proof {
                    lemma_quoted_bounds(s@, i + 2, q);
                    assert forall|t: Seq<char>| #[trigger] (out@ + t) == before + (seq![q] + t) by {
                        assert(out@ + t =~= before + (seq![q] + t));
                    }
                }
                i += 2;
            } else {
                assert(out@ + Seq::<char>::empty() =~= out@);
                return Some((out, i + 1));
            }
        } else {
            out.push(c);
            proof {
                lemma_quoted_bounds(s@, i + 1, q);
                assert forall|t: Seq<char>| #[trigger] (out@ + t) == before + (seq![c] + t) by {
                    assert(out@ + t =~= before + (seq![c] + t));
                }
            }
            i += 1;
        }
    }
    None
}

/// The text of a quoted run from position `i` (after the opening quote `q`)
/// and the position after its closing quote; a doubled quote stands for one.
pub open spec fn quoted_from(s: Seq<char>, i: int, q: char) -> Option<(Seq<char>, int)>
    decreases s.len() - i,
{
    if i < 0 || i >= s.len() {
        None
    } else if s[i] == q {
        if i + 1 < s.len() && s[i + 1] == q {
            match quoted_from(s, i + 2, q) {
                Some((t, e)) => Some((seq![q] + t, e)),
                None => None,
            }
        } else {
            Some((Seq::empty(), i + 1))
        }
    } else {
        match quoted_from(s, i + 1, q) {
            Some((t, e)) => Some((seq![s[i]] + t, e)),
            None => None,
        }
    }
}

/// A quoted run from `i` ends after `i`, within the text.
proof fn lemma_quoted_bounds(s: Seq<char>, i: int, q: char)
    ensures quoted_from(s, i, q) matches Some((_, e)) ==> i < e <= s.len(),
    decreases s.len() - i,
{
    if 0 <= i < s.len() {
        lemma_quoted_bounds(s, i + 1, q);
        if i + 1 < s.len() {
            lemma_quoted_bounds(s, i + 2, q);
        }
    }
}

/// Value of the decimal digits `s[b..e]`.
fn read_int(s: &Vec<char>, b: usize, e: usize) -> (r: Option<i64>)
    requires b <= e <= s.len(), forall|k: int| b <= k < e ==> is_digit(#[trigger] s@[k]),
    ensures
        r matches Some(v) ==> v as int == digits_value(s@.subrange(b as int, e as int)),
        r is None <==> digits_value(s@.subrange(b as int, e as int)) > i64::MAX,
{
    let mut acc: i64 = 0;
    let mut i = b;
    while i < e
        invariant b <= i <= e, e <= s.len(), forall|k: int| b <= k < e ==> is_digit(#[trigger] s@[k]),
            acc as int == digits_value(s@.subrange(b as int, i as int)),
        decreases e - i,
    {
        let d = (s[i] as u32 - 48u32) as i64;
        assert(s@.subrange(b as int, i + 1).drop_last() =~= s@.subrange(b as int, i as int));
        assert(is_digit(s@[i as int]));
        match acc.checked_mul(10) {
            Some(m) => match m.checked_add(d) {
                Some(v) => { acc = v; },
                None => {
                    proof { lemma_digits_grow(s@.subrange(b as int, e as int), i + 1 - b); }
                    assert(s@.subrange(b as int, e as int).take(i + 1 - b) =~= s@.subrange(b as int, i + 1));
                    return None;
                },
            },
            None => {
                proof { lemma_digits_grow(s@.subrange(b as int, e as int), i + 1 - b); }
                assert(s@.subrange(b as int, e as int).take(i + 1 - b) =~= s@.subrange(b as int, i + 1));
                return None;
            },
        }
        i += 1;
    }
    Some(acc)
}

/// The symbol two characters spell.
pub open spec fn two_char_spec(c: char, d: char) -> Option<Sym> {
    if c == '<' && d == '=' { Some(Sym::Le) }
    else if c == '>' && d == '=' { Some(Sym::Ge) }
    else if c == '<' && d == '>' { Some(Sym::Ne) }
    else if c == '!' && d == '=' { Some(Sym::Ne) }
    else if c == '=' && d == '=' { Some(Sym::Eq) }
    else if c == '|' && d == '|' { Some(Sym::Concat) }
    else if c == '<' && d == '<' { Some(Sym::Shl) }
    else if c == '>' && d == '>' { Some(Sym::Shr) }
    else { None }
}

/// The symbol one character spells.
pub open spec fn one_char_spec(c: char) -> Option<Sym> {
    if c == '(' { Some(Sym::LParen) }
    else if c == ')' { Some(Sym::RParen) }
    else if c == ',' { Some(Sym::Comma) }
    else if c == ';' { Some(Sym::Semicolon) }
    else if c == '.' { Some(Sym::Dot) }
    else if c == '*' { Some(Sym::Star) }
    else if c == '+' { Some(Sym::Plus) }
    else if c == '-' { Some(Sym::Minus) }
    else if c == '/' { Some(Sym::Slash) }
    else if c == '%' { Some(Sym::Percent) }
    else if c == '=' { Some(Sym::Eq) }
    else if c == '<' { Some(Sym::Lt) }
    else if c == '>' { Some(Sym::Gt) }
    else if c == '&' { Some(Sym::Amp) }
    else if c == '|' { Some(Sym::Pipe) }
    else if c == '^' { Some(Sym::Caret) }
    else if c == '~' { Some(Sym::Tilde) }
    else { None }
}

/// The value of a run of digits is at least that of each of its prefixes.
proof fn lemma_digits_grow(s: Seq<char>, k: int)
    requires 0 <= k <= s.len(), forall|j: int| 0 <= j < s.len() ==> is_digit(#[trigger] s[j]),
    ensures 0 <= digits_value(s.take(k)) <= digits_value(s),
    decreases s.len(),
{
    if s.len() > 0 {
        if k < s.len() {
            assert forall|j: int| 0 <= j < s.drop_last().len() implies is_digit(#[trigger] s.drop_last()[j]) by {
                assert(s.drop_last()[j] == s[j]);
            }
            lemma_digits_grow(s.drop_last(), k);
            assert(s.drop_last().take(k) =~= s.take(k));
            assert(is_digit(s.last()));
        } else {
            assert(s.take(k) =~= s);
            assert forall|j: int| 0 <= j < s.drop_last().len() implies is_digit(#[trigger] s.drop_last()[j]) by {
                assert(s.drop_last()[j] == s[j]);
            }
            lemma_digits_grow(s.drop_last(), 0);
            assert(is_digit(s.last()));
        }
    } else {
        assert(s.take(k) =~= s);
    }
}

fn two_char_sym(c: char, d: char) -> (r: Option<Sym>)
    ensures r == two_char_spec(c, d),
{
    if c == '<' && d == '=' { Some(Sym::Le) }
    else if c == '>' && d == '=' { Some(Sym::Ge) }
    else if c == '<' && d == '>' { Some(Sym::Ne) }
    else if c == '!' && d == '=' { Some(Sym::Ne) }
    else if c == '=' && d == '=' { Some(Sym::Eq) }
    else if c == '|' && d == '|' { Some(Sym::Concat) }
    else if c == '<' && d == '<' { Some(Sym::Shl) }
    else if c == '>' && d == '>' { Some(Sym::Shr) }
    else { None }
}

fn one_char_sym(c: char) -> (r: Option<Sym>)
    ensures r == one_char_spec(c),
{
    if c == '(' { Some(Sym::LParen) }
    else if c == ')' { Some(Sym::RParen) }
    else if c == ',' { Some(Sym::Comma) }
    else if c == ';' { Some(Sym::Semicolon) }
    else if c == '.' { Some(Sym::Dot) }
    else if c == '*' { Some(Sym::Star) }
    else if c == '+' { Some(Sym::Plus) }
    else if c == '-' { Some(Sym::Minus) }
    else if c == '/' { Some(Sym::Slash) }
    else if c == '%' { Some(Sym::Percent) }
    else if c == '=' { Some(Sym::Eq) }
    else if c == '<' { Some(Sym::Lt) }
    else if c == '>' { Some(Sym::Gt) }
    else if c == '&' { Some(Sym::Amp) }
    else if c == '|' { Some(Sym::Pipe) }
    else if c == '^' { Some(Sym::Caret) }
    else if c == '~' { Some(Sym::Tilde) }
    else { None }
}

/// Splits SQL text into tokens; `Err` carries a message for text that is not
/// a token: an unterminated quote, a bad blob literal, an integer literal that
/// does not fit in 64 bits, a number with a fractional part, or a stray character.
#[verifier::rlimit(60)]
pub fn tokenize(s: &Vec<char>) -> (r: Result<Vec<Token>, Vec<char>>)
    ensures r matches Ok(toks) ==> forall|k: int| 0 <= k < toks@.len() ==> token_wf(#[trigger] toks@[k]),
        match lex_from(s@, 0, Seq::empty()) {
            Some(ts) => r matches Ok(toks) && toks_view(toks@) == ts,
            None => r is Err,
        },
{
    let mut toks: Vec<Token> = Vec::new();
    let n = s.len();
    let mut i: usize = 0;
    assert(toks_view(toks@) =~= Seq::<TokV>::empty());
    while i < n
        invariant i <= n, n == s.len(), forall|k: int| 0 <= k < toks@.len() ==> token_wf(#[trigger] toks@[k]),
            lex_from(s@, 0, Seq::empty()) == lex_from(s@, i as int, toks_view(toks@)),
        decreases n - i,
    {
        let c = s[i];
        let ghost i0: int = i as int;
        let ghost acc = toks_view(toks@);
        if c == ' ' || c == '\t' || c == '\n' || c == '\r' {
            i += 1;
        } else if c == '-' && i + 1 < n && s[i + 1] == '-' {
            let b = i;
            i += 2;
            while i < n && s[i] != '\n'
                invariant b < i <= n, n == s.len(), i >= b + 2,
                    forall|k: int| b + 2 <= k < i ==> #[trigger] s@[k] != '\n',
                decreases n - i,
            {
                i += 1;
            }
            proof { lemma_comment_end(s@, b + 2, i as int); }
        } else if (c == 'x' || c == 'X') && i + 1 < n && s[i + 1] == '\'' {
            proof { lemma_quoted_bounds(s@, i0 + 2, '\''); }
            match read_quoted(s, i + 2, '\'') {
                None => { return Err(crate::types::str_chars("unterminated blob literal")); },
                Some((hex, e)) => {
                    if hex.len() % 2 != 0 {
                        return Err(crate::types::str_chars("malformed blob literal"));
                    }
                    let mut bytes: Vec<u8> = Vec::new();
                    let mut k: usize = 0;
                    while k < hex.len()
                        invariant k <= hex.len() + 1,
                            hex_from(hex@, 0, Seq::empty()) == hex_from(hex@, k as int, bytes@),
                            lex_from(s@, 0, Seq::empty()) == lex_from(s@, i as int, toks_view(toks@)),
                            i + 1 < n, n == s.len(), c == s@[i as int], c == 'x' || c == 'X', s@[i + 1] == '\'',
                            quoted_from(s@, i + 2, '\'') == Some((hex@, e as int)), hex@.len() % 2 == 0,
                        decreases hex.len() - k,
                    {
                        if k + 1 >= hex.len() {
                            return Err(crate::types::str_chars("malformed blob literal"));
                        }
                        match (hex_value(hex[k]), hex_value(hex[k + 1])) {
                            (Some(h), Some(l)) => { bytes.push(h * 16 + l); },
                            _ => { return Err(crate::types::str_chars("malformed blob literal")); },
                        }
                        k += 2;
                    }
                    let ghost bs = bytes@;
                    proof { assert(hex_from(hex@, k as int, bytes@) == Some(bytes@)); }
                    toks.push(Token::Blob(bytes));
                    proof { assert(toks_view(toks@) =~= acc.push(TokV::Blob(bs))); }
                    i = e;
                },
            }
        } else if is_word_start_ch(c) {
            let mut w: Vec<char> = Vec::new();
            let b = i;
            w.push(lower_ch(c));
            i += 1;
            assert(w@ =~= lower_seq(s@.subrange(b as int, i as int)));
            while i < n && is_word_ch(s[i])
                invariant b < i <= n, n == s.len(), w@.len() == i - b,
                    forall|k: int| 0 <= k < w@.len() ==> is_word_char(#[trigger] w@[k]) && w@[k] == lower_char(w@[k]),
                    w@ == lower_seq(s@.subrange(b as int, i as int)),
                    forall|k: int| b + 1 <= k < i ==> is_word_char(#[trigger] s@[k]),
                decreases n - i,
            {
                let lc = lower_ch(s[i]);
                w.push(lc);
                i += 1;
                assert(w@ =~= lower_seq(s@.subrange(b as int, i as int)));
            }
            proof { lemma_word_end(s@, b + 1, i as int); }
            let ghost wv = w@;
            toks.push(Token::Word(w));
            proof { assert(toks_view(toks@) =~= acc.push(TokV::Word(wv))); }
        } else if '0' <= c && c <= '9' {
            let b = i;
            i += 1;
            while i < n && '0' <= s[i] && s[i] <= '9'
                invariant b < i <= n, n == s.len(), forall|k: int| b <= k < i ==> is_digit(#[trigger] s@[k]),
                decreases n - i,
            {
                i += 1;
            }
            proof { lemma_digit_end(s@, b + 1, i as int); }
            if i < n && n - i > 1 && s[i] == '.' && '0' <= s[i + 1] && s[i + 1] <= '9' {
                let dot = i;
                i += 2;
                while i < n && '0' <= s[i] && s[i] <= '9'
                    invariant dot + 2 <= i <= n, n == s.len(), b < dot, forall|k: int| dot + 1 <= k < i ==> is_digit(#[trigger] s@[k]),
                        forall|k: int| b <= k < dot ==> is_digit(#[trigger] s@[k]),
                    decreases n - i,
                {
                    i += 1;
                }
                proof { lemma_digit_end(s@, dot + 1, i as int); }
                if i < n && (s[i] == '.' || is_word_start_ch(s[i])) {
                    return Err(crate::types::str_chars("unsupported numeric literal"));
                }
                match read_int(s, b, dot) {
                    Some(v) => {
                        toks.push(Token::Decimal(v));
                        proof { assert(toks_view(toks@) =~= acc.push(TokV::Decimal(v as int))); }
                    },
                    None => { return Err(crate::types::str_chars("integer literal out of range")); },
                }
            } else {
            if i < n && (s[i] == '.' || is_word_start_ch(s[i])) {
                return Err(crate::types::str_chars("unsupported numeric literal"));
            }
            match read_int(s, b, i) {
                Some(v) => {
                    toks.push(Token::Int(v));
                    proof { assert(toks_view(toks@) =~= acc.push(TokV::Int(v as int))); }
                },
                None => { return Err(crate::types::str_chars("integer literal out of range")); },
            }
            }
        } else if c == '\'' {
            proof { lemma_quoted_bounds(s@, i0 + 1, '\''); }
            match read_quoted(s, i + 1, '\'') {
                None => { return Err(crate::types::str_chars("unterminated string literal")); },
                Some((t, e)) => {
                    let ghost tv = t@;
                    toks.push(Token::Str(t));
                    proof { assert(toks_view(toks@) =~= acc.push(TokV::Str(tv))); }
                    i = e;
                },
            }
        } else if c == '"' || c == '`' {
            proof { lemma_quoted_bounds(s@, i0 + 1, c); }
            match read_quoted(s, i + 1, c) {
                None => { return Err(crate::types::str_chars("unterminated quoted identifier")); },
                Some((t, e)) => {
                    let ghost tv = t@;
                    toks.push(Token::Quoted(t));
                    proof { assert(toks_view(toks@) =~= acc.push(TokV::Quoted(tv))); }
                    i = e;
                },
            }
        } else {
            let mut done = false;
            if i + 1 < n {
                match two_char_sym(c, s[i + 1]) {
                    Some(sym) => {
                        toks.push(Token::Sym(sym));
                        proof { assert(toks_view(toks@) =~= acc.push(TokV::Sym(sym))); }
                        i += 2;
                        done = true;
                    },
                    None => {},
                }
            }
            if !done {
                match one_char_sym(c) {
                    Some(sym) => {
                        toks.push(Token::Sym(sym));
                        proof { assert(toks_view(toks@) =~= acc.push(TokV::Sym(sym))); }
                        i += 1;
                    },
                    None => { return Err(crate::types::str_chars("unexpected character in SQL text")); },
                }
            }
        }
    }
    Ok(toks)
}

} // verus!
