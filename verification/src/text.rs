//! Character-level rules of the SQL dialect: case folding, LIKE, full-text
//! matching, substrings, replacement, trimming and decimal conversion.

use vstd::prelude::*;

verus! {

/// ASCII lower-casing of one character.
pub open spec fn lower_char(c: char) -> char {
    if 'A' <= c && c <= 'Z' { ((c as u8) + 32u8) as char } else { c }
}

/// ASCII upper-casing of one character.
pub open spec fn upper_char(c: char) -> char {
    if 'a' <= c && c <= 'z' { ((c as u8) - 32u8) as char } else { c }
}

pub open spec fn lower_seq(s: Seq<char>) -> Seq<char> {
    Seq::new(s.len(), |i: int| lower_char(s[i]))
}

pub open spec fn upper_seq(s: Seq<char>) -> Seq<char> {
    Seq::new(s.len(), |i: int| upper_char(s[i]))
}

pub fn lower_ch(c: char) -> (r: char)
    ensures r == lower_char(c),
{
    if 'A' <= c && c <= 'Z' { ((c as u8) + 32u8) as char } else { c }
}

pub fn upper_ch(c: char) -> (r: char)
    ensures r == upper_char(c),
{
    if 'a' <= c && c <= 'z' { ((c as u8) - 32u8) as char } else { c }
}

/// ASCII lower-casing of a string (`LOWER`).
pub fn to_lower(s: &Vec<char>) -> (r: Vec<char>)
    ensures r@ == lower_seq(s@),
{
    let mut out: Vec<char> = Vec::new();
    let mut i: usize = 0;
    while i < s.len()
        invariant i <= s.len(), out@ == lower_seq(s@).take(i as int),
        decreases s.len() - i,
    {
        out.push(lower_ch(s[i]));
        i += 1;
        assert(out@ =~= lower_seq(s@).take(i as int));
    }
    assert(lower_seq(s@).take(s.len() as int) =~= lower_seq(s@));
    out
}

/// ASCII upper-casing of a string (`UPPER`).
pub fn to_upper(s: &Vec<char>) -> (r: Vec<char>)
    ensures r@ == upper_seq(s@),
{
    let mut out: Vec<char> = Vec::new();
    let mut i: usize = 0;
    while i < s.len()
        invariant i <= s.len(), out@ == upper_seq(s@).take(i as int),
        decreases s.len() - i,
    {
        out.push(upper_ch(s[i]));
        i += 1;
        assert(out@ =~= upper_seq(s@).take(i as int));
    }
    assert(upper_seq(s@).take(s.len() as int) =~= upper_seq(s@));
    out
}

/// Whether two character vectors hold the same characters.
pub fn chars_eq(a: &Vec<char>, b: &Vec<char>) -> (r: bool)
    ensures r == (a@ == b@),
{
    if a.len() != b.len() {
        return false;
    }
    let mut i: usize = 0;
    while i < a.len()
        invariant a.len() == b.len(), i <= a.len(), forall|k: int| 0 <= k < i ==> a@[k] == b@[k],
        decreases a.len() - i,
    {
        if a[i] != b[i] {
            return false;
        }
        i += 1;
    }
    assert(a@ =~= b@);
    true
}

/// Whether two character vectors are equal ignoring ASCII case.
pub fn chars_eq_ci(a: &Vec<char>, b: &Vec<char>) -> (r: bool)
    ensures r == (lower_seq(a@) == lower_seq(b@)),
{
    let la = to_lower(a);
    let lb = to_lower(b);
    chars_eq(&la, &lb)
}

/// Whether `s` equals the ASCII string `lit` ignoring case; `lit` is given in lower case.
pub fn eq_word(s: &Vec<char>, lit: &str) -> (r: bool)
    ensures r == (lower_seq(s@) == lit@),
{
    let l = crate::types::str_chars(lit);
    let ls = to_lower(s);
    chars_eq(&ls, &l)
}

// ───────────────────────────── LIKE ─────────────────────────────

/// One pattern character against one string character: `_` matches any
/// character, other characters match ignoring ASCII case.
pub open spec fn like_char(p: char, c: char) -> bool {
    p == '_' || lower_char(p) == lower_char(c)
}

/// `s LIKE p`: `%` matches any run of characters, `_` any single one.
pub open spec fn like_spec(s: Seq<char>, p: Seq<char>) -> bool
    decreases s.len() + p.len(),
{
    if p.len() == 0 {
        s.len() == 0
    } else if p[0] == '%' {
        like_spec(s, p.drop_first()) || (s.len() > 0 && like_spec(s.drop_first(), p))
    } else {
        s.len() > 0 && like_char(p[0], s[0]) && like_spec(s.drop_first(), p.drop_first())
    }
}

proof fn lemma_skip_drop<A>(s: Seq<A>, i: int)
    requires 0 <= i < s.len(),
    ensures s.skip(i).drop_first() == s.skip(i + 1), s.skip(i)[0] == s[i], s.skip(i).len() == s.len() - i,
{
    assert(s.skip(i).drop_first() =~= s.skip(i + 1));
}

/// Evaluates `s LIKE p` by dynamic programming over suffixes.
pub fn like_match(s: &Vec<char>, p: &Vec<char>) -> (r: bool)
    ensures r == like_spec(s@, p@),
{
    let n = s.len();
    let m = p.len();
    // column for pattern suffix j = m
    let mut next: Vec<bool> = Vec::new();
    let mut k: usize = 0;
    assert(p@.skip(m as int).len() == 0);
    while k < n
        invariant k <= n, n == s@.len(), m == p@.len(), next@.len() == k,
            forall|q: int| 0 <= q < k ==> #[trigger] next@[q] == like_spec(s@.skip(q), p@.skip(m as int)),
        decreases n - k,
    {
        next.push(false);
        k += 1;
    }
    next.push(true);
    assert(s@.skip(n as int).len() == 0);
    let mut j: usize = m;
    while j > 0
        invariant j <= m, n == s@.len(), m == p@.len(), next@.len() == n + 1,
            forall|q: int| 0 <= q <= n ==> #[trigger] next@[q] == like_spec(s@.skip(q), p@.skip(j as int)),
        decreases j,
    {
        let jj = j - 1;
        let pc = p[jj];
        proof { lemma_skip_drop(p@, jj as int); }
        let mut cur: Vec<bool> = Vec::new();
        let mut t: usize = 0;
        while t < n
            invariant t <= n, cur@.len() == t,
            decreases n - t,
        {
            cur.push(false);
            t += 1;
        }
        cur.push(false);
        let mut i: usize = next.len();
        while i > 0
            invariant i <= n + 1, n == s@.len(), m == p@.len(), jj < m, pc == p@[jj as int],
                cur@.len() == n + 1, next@.len() == n + 1,
                p@.skip(jj as int).drop_first() == p@.skip(jj + 1),
                p@.skip(jj as int)[0] == pc, p@.skip(jj as int).len() == m - jj,
                forall|q: int| 0 <= q <= n ==> #[trigger] next@[q] == like_spec(s@.skip(q), p@.skip(jj + 1)),
                forall|q: int| i <= q <= n ==> #[trigger] cur@[q] == like_spec(s@.skip(q), p@.skip(jj as int)),
            decreases i,
        {
            let ii = i - 1;
            let val: bool;
            if pc == '%' {
                if ii < n {
                    proof { lemma_skip_drop(s@, ii as int); }
                    val = next[ii] || cur[ii + 1];
                } else {
                    val = next[ii];
                }
            } else {
                if ii < n {
                    proof { lemma_skip_drop(s@, ii as int); }
                    let c = s[ii];
                    val = (pc == '_' || lower_ch(pc) == lower_ch(c)) && next[ii + 1];
                } else {
                    assert(s@.skip(ii as int).len() == 0);
                    val = false;
                }
            }
            cur.set(ii, val);
            i = ii;
        }
        next = cur;
        j = jj;
    }
    assert(s@.skip(0) =~= s@);
    assert(p@.skip(0) =~= p@);
    next[0]
}

// ─────────────────────────── full-text ───────────────────────────

pub open spec fn is_space(c: char) -> bool {
    c == ' ' || c == '\t' || c == '\n' || c == '\r'
}

/// The words seen so far and the word being read, after the first `n`
/// characters of `s`; words are lower-cased maximal runs of non-space characters.
pub open spec fn word_scan(s: Seq<char>, n: nat) -> (Seq<Seq<char>>, Seq<char>)
    decreases n,
{
    if n == 0 || n > s.len() {
        (Seq::empty(), Seq::empty())
    } else {
        let (done, cur) = word_scan(s, (n - 1) as nat);
        let c = s[n - 1];
        if is_space(c) {
            if cur.len() > 0 { (done.push(cur), Seq::empty()) } else { (done, cur) }
        } else {
            (done, cur.push(lower_char(c)))
        }
    }
}

/// The lower-cased words of `s`.
pub open spec fn words(s: Seq<char>) -> Seq<Seq<char>> {
    let (done, cur) = word_scan(s, s.len());
    if cur.len() > 0 { done.push(cur) } else { done }
}

/// `text MATCH pattern`: the pattern has at least one word and each of its
/// words is a word of the text.
pub open spec fn fts_spec(text: Seq<char>, pattern: Seq<char>) -> bool {
    words(pattern).len() > 0 && forall|k: int| 0 <= k < words(pattern).len() ==> words(text).contains(#[trigger] words(pattern)[k])
}

pub fn split_words(s: &Vec<char>) -> (r: Vec<Vec<char>>)
    ensures r@.len() == words(s@).len(), forall|k: int| 0 <= k < r@.len() ==> #[trigger] r@[k]@ == words(s@)[k],
{
    let mut done: Vec<Vec<char>> = Vec::new();
    let mut cur: Vec<char> = Vec::new();
    let mut i: usize = 0;
    while i < s.len()
        invariant i <= s.len(),
            done@.len() == word_scan(s@, i as nat).0.len(),
            forall|k: int| 0 <= k < done@.len() ==> #[trigger] done@[k]@ == word_scan(s@, i as nat).0[k],
            cur@ == word_scan(s@, i as nat).1,
        decreases s.len() - i,
    {
        let c = s[i];
        if c == ' ' || c == '\t' || c == '\n' || c == '\r' {
            if cur.len() > 0 {
                let w = cur;
                done.push(w);
                cur = Vec::new();
            }
        } else {
            cur.push(lower_ch(c));
        }
        i += 1;
    }
    if cur.len() > 0 {
        done.push(cur);
    }
    done
}

fn contains_word(ws: &Vec<Vec<char>>, w: &Vec<char>) -> (r: bool)
    ensures r == exists|k: int| 0 <= k < ws@.len() && #[trigger] ws@[k]@ == w@,
{
    let mut i: usize = 0;
    while i < ws.len()
        invariant i <= ws.len(), forall|k: int| 0 <= k < i ==> #[trigger] ws@[k]@ != w@,
        decreases ws.len() - i,
    {
        if chars_eq(&ws[i], w) {
            return true;
        }
        i += 1;
    }
    false
}

/// Evaluates `text MATCH pattern`.
pub fn fts_match(text: &Vec<char>, pattern: &Vec<char>) -> (r: bool)
    ensures r == fts_spec(text@, pattern@),
{
    let tw = split_words(text);
    let pw = split_words(pattern);
    let ghost wt = words(text@);
    let ghost wp = words(pattern@);
    if pw.len() == 0 {
        return false;
    }
    let mut i: usize = 0;
    while i < pw.len()
        invariant i <= pw@.len(), pw@.len() == wp.len(), tw@.len() == wt.len(),
            wt == words(text@), wp == words(pattern@),
            forall|k: int| 0 <= k < pw@.len() ==> #[trigger] pw@[k]@ == wp[k],
            forall|k: int| 0 <= k < tw@.len() ==> #[trigger] tw@[k]@ == wt[k],
            forall|k: int| 0 <= k < i ==> wt.contains(#[trigger] wp[k]),
        decreases pw.len() - i,
    {
        let found = contains_word(&tw, &pw[i]);
        if !found {
            assert(!wt.contains(wp[i as int])) by {
                if wt.contains(wp[i as int]) {
                    let k = choose|k: int| 0 <= k < wt.len() && wt[k] == wp[i as int];
                    assert(tw@[k]@ == pw@[i as int]@);
                }
            }
            return false;
        }
        proof {
            let k = choose|k: int| 0 <= k < tw@.len() && #[trigger] tw@[k]@ == pw@[i as int]@;
            assert(wt[k] == wp[i as int]);
        }
        i += 1;
    }
    true
}

// ─────────────────────────── substrings ───────────────────────────

pub open spec fn max_int(a: int, b: int) -> int { if a >= b { a } else { b } }
pub open spec fn min_int(a: int, b: int) -> int { if a <= b { a } else { b } }

/// `SUBSTR(s, start, len)` with 1-based `start`: the characters at positions
/// `start .. start + len - 1` that exist.
pub open spec fn substr_spec(s: Seq<char>, start: int, len: int) -> Seq<char> {
    let b = max_int(start - 1, 0);
    let e = min_int(max_int(start - 1 + len, 0), s.len() as int);
    if b >= e { Seq::empty() } else { s.subrange(b, e) }
}

pub fn substr(s: &Vec<char>, start: i64, len: i64) -> (r: Vec<char>)
    ensures r@ == substr_spec(s@, start as int, len as int),
{
    let n = s.len() as i128;
    let st = start as i128;
    let ln = len as i128;
    let b: i128 = if st - 1 >= 0 { st - 1 } else { 0 };
    let e0: i128 = if st - 1 + ln >= 0 { st - 1 + ln } else { 0 };
    let e: i128 = if e0 <= n { e0 } else { n };
    let mut out: Vec<char> = Vec::new();
    if b >= e {
        return out;
    }
    let bu = b as usize;
    let eu = e as usize;
    let mut i: usize = bu;
    while i < eu
        invariant bu <= i <= eu, eu <= s.len(), out@ == s@.subrange(bu as int, i as int),
        decreases eu - i,
    {
        out.push(s[i]);
        i += 1;
        assert(out@ =~= s@.subrange(bu as int, i as int));
    }
    out
}

/// `s` with every non-overlapping occurrence of `f`, scanned left to right,
/// replaced by `t`; an empty `f` leaves `s` unchanged.
pub open spec fn replace_spec(s: Seq<char>, f: Seq<char>, t: Seq<char>) -> Seq<char>
    decreases s.len(),
{
    if f.len() == 0 || s.len() == 0 {
        s
    } else if f.len() <= s.len() && s.take(f.len() as int) == f {
        t + replace_spec(s.skip(f.len() as int), f, t)
    } else {
        seq![s[0]] + replace_spec(s.drop_first(), f, t)
    }
}

fn matches_at(s: &Vec<char>, i: usize, f: &Vec<char>) -> (r: bool)
    requires i <= s.len(),
    ensures r == (f.len() <= s.len() - i && s@.skip(i as int).take(f.len() as int) == f@),
{
    if f.len() > s.len() - i {
        return false;
    }
    let mut k: usize = 0;
    while k < f.len()
        invariant k <= f.len(), f.len() <= s.len() - i, forall|q: int| 0 <= q < k ==> s@[i + q] == f@[q],
        decreases f.len() - k,
    {
        if s[i + k] != f[k] {
            assert(s@.skip(i as int).take(f.len() as int)[k as int] != f@[k as int]);
            return false;
        }
        k += 1;
    }
    assert(s@.skip(i as int).take(f.len() as int) =~= f@);
    true
}

/// `REPLACE(s, f, t)`.
pub fn replace_all(s: &Vec<char>, f: &Vec<char>, t: &Vec<char>) -> (r: Vec<char>)
    ensures r@ == replace_spec(s@, f@, t@),
{
    if f.len() == 0 {
        return crate::types::copy_chars(s);
    }
    let mut out: Vec<char> = Vec::new();
    let mut i: usize = 0;
    assert(s@.skip(0) =~= s@);
    while i < s.len()
        invariant i <= s.len(), f@.len() > 0,
            out@ + replace_spec(s@.skip(i as int), f@, t@) == replace_spec(s@, f@, t@),
        decreases s.len() - i,
    {
        let ghost rest = s@.skip(i as int);
        if matches_at(s, i, f) {
            let mut k: usize = 0;
            let ghost before = out@;
            while k < t.len()
                invariant k <= t.len(), out@ == before + t@.take(k as int),
                decreases t.len() - k,
            {
                out.push(t[k]);
                k += 1;
                assert(out@ =~= before + t@.take(k as int));
            }
            assert(t@.take(t.len() as int) =~= t@);
            assert(rest.skip(f.len() as int) =~= s@.skip(i + f.len()));
            assert(out@ + replace_spec(s@.skip(i + f.len()), f@, t@) =~= before + replace_spec(rest, f@, t@));
            i = i + f.len();
        } else {
            let ghost before = out@;
            out.push(s[i]);
            assert(rest.drop_first() =~= s@.skip(i + 1));
            assert(rest[0] == s@[i as int]);
            assert(out@ + replace_spec(s@.skip(i + 1), f@, t@) =~= before + replace_spec(rest, f@, t@));
            i += 1;
        }
    }
    assert(s@.skip(s.len() as int) =~= Seq::<char>::empty());
    assert(out@ + Seq::<char>::empty() =~= out@);
    out
}

/// `s` without leading spaces.
pub open spec fn ltrim_spec(s: Seq<char>) -> Seq<char>
    decreases s.len(),
{
    if s.len() > 0 && s[0] == ' ' { ltrim_spec(s.drop_first()) } else { s }
}

/// `s` without trailing spaces.
pub open spec fn rtrim_spec(s: Seq<char>) -> Seq<char>
    decreases s.len(),
{
    if s.len() > 0 && s.last() == ' ' { rtrim_spec(s.drop_last()) } else { s }
}

/// `TRIM(s)`: `s` without leading and trailing spaces.
pub open spec fn trim_spec(s: Seq<char>) -> Seq<char> {
    rtrim_spec(ltrim_spec(s))
}

fn leading_spaces(s: &Vec<char>) -> (b: usize)
    ensures b <= s.len(), ltrim_spec(s@) == s@.skip(b as int),
{
    let n = s.len();
    let mut b: usize = 0;
    assert(s@.skip(0) =~= s@);
    while b < n && s[b] == ' '
        invariant b <= n, n == s.len(), ltrim_spec(s@) == ltrim_spec(s@.skip(b as int)),
        decreases n - b,
    {
        proof { lemma_skip_drop(s@, b as int); }
        b += 1;
    }
    b
}

fn trailing_end(s: &Vec<char>, b: usize) -> (e: usize)
    requires b <= s.len(),
    ensures b <= e <= s.len(), rtrim_spec(s@.skip(b as int)) == s@.subrange(b as int, e as int),
{
    let n = s.len();
    let ghost l = s@.skip(b as int);
    let mut e: usize = n;
    assert(l.take(l.len() as int) =~= l);
    while e > b && s[e - 1] == ' '
        invariant b <= e <= n, n == s.len(), l == s@.skip(b as int),
            rtrim_spec(l) == rtrim_spec(l.take(e - b)),
        decreases e,
    {
        assert(l.take(e - b).drop_last() =~= l.take(e - 1 - b));
        assert(l.take(e - b).last() == s@[e - 1]);
        e -= 1;
    }
    let ghost t = l.take(e - b);
    assert(t =~= s@.subrange(b as int, e as int));
    if e > b {
        assert(t.last() == s@[e - 1]);
    }
    e
}

pub fn trim(s: &Vec<char>) -> (r: Vec<char>)
    ensures r@ == trim_spec(s@),
{
    let b = leading_spaces(s);
    let e = trailing_end(s, b);
    let mut out: Vec<char> = Vec::new();
    let mut i: usize = b;
    while i < e
        invariant b <= i <= e, e <= s.len(), out@ == s@.subrange(b as int, i as int),
        decreases e - i,
    {
        out.push(s[i]);
        i += 1;
        assert(out@ =~= s@.subrange(b as int, i as int));
    }
    out
}

// ─────────────────────────── decimal text ───────────────────────────

pub open spec fn digit_char(d: int) -> char {
    ((d + 48) as u8) as char
}

pub open spec fn is_digit(c: char) -> bool {
    '0' <= c && c <= '9'
}

pub open spec fn digit_value(c: char) -> int {
    (c as int) - 48
}

/// Decimal digits of a natural number, most significant first.
pub open spec fn nat_text(n: nat) -> Seq<char>
    decreases n,
{
    if n < 10 { seq![digit_char(n as int)] } else { nat_text(n / 10).push(digit_char((n % 10) as int)) }
}

/// Decimal text of an integer: a `-` sign for negatives, then the digits.
pub open spec fn int_text(i: int) -> Seq<char> {
    if i < 0 { seq!['-'] + nat_text((-i) as nat) } else { nat_text(i as nat) }
}

fn push_nat_text(n: u64, out: &mut Vec<char>)
    ensures final(out)@ == old(out)@ + nat_text(n as nat),
    decreases n,
{
    if n < 10 {
        out.push(((n as u8) + 48u8) as char);
    } else {
        push_nat_text(n / 10, out);
        let d = (n % 10) as u8;
        out.push((d + 48u8) as char);
        proof {
            assert(nat_text(n as nat) == nat_text((n / 10) as nat).push(digit_char((n % 10) as int)));
        }
    }
}

/// Decimal text of an integer.
pub fn int_to_text(i: i64) -> (r: Vec<char>)
    ensures r@ == int_text(i as int),
{
    let mut out: Vec<char> = Vec::new();
    if i < 0 {
        out.push('-');
        let m: u64 = (-(i as i128)) as u64;
        push_nat_text(m, &mut out);
    } else {
        push_nat_text(i as u64, &mut out);
    }
    out
}

/// Value of a sequence of decimal digits.
pub open spec fn digits_value(s: Seq<char>) -> int
    decreases s.len(),
{
    if s.len() == 0 { 0 } else { digits_value(s.drop_last()) * 10 + digit_value(s.last()) }
}

/// Number of leading decimal digits of `s` from position `i`.
pub open spec fn digit_run(s: Seq<char>, i: int) -> int
    decreases s.len() - i,
{
    if 0 <= i < s.len() && is_digit(s[i]) { 1 + digit_run(s, i + 1) } else { 0 }
}

/// The integer denoted by the leading part of a text value, after optional
/// spaces and an optional sign; 0 when no digit follows.
pub open spec fn text_int_value(s: Seq<char>) -> int {
    let t = ltrim_spec(s);
    let neg = t.len() > 0 && t[0] == '-';
    let start: int = if t.len() > 0 && (t[0] == '-' || t[0] == '+') { 1 } else { 0 };
    let v = digits_value(t.subrange(start, start + digit_run(t, start)));
    if neg { -v } else { v }
}

proof fn lemma_digit_run_bounds(s: Seq<char>, i: int)
    requires 0 <= i <= s.len(),
    ensures 0 <= digit_run(s, i) <= s.len() - i,
        forall|k: int| i <= k < i + digit_run(s, i) ==> is_digit(#[trigger] s[k]),
        i + digit_run(s, i) < s.len() ==> !is_digit(s[i + digit_run(s, i)]),
    decreases s.len() - i,
{
    if i < s.len() && is_digit(s[i]) {
        lemma_digit_run_bounds(s, i + 1);
    }
}

/// Reads the integer at the start of a text (as `text_int_value`); `None`
/// when it does not fit in 64 bits.
pub fn parse_text_int(s: &Vec<char>) -> (r: Option<i64>)
    ensures
        r matches Some(v) ==> v as int == text_int_value(s@),
        r is None ==> !(i64::MIN <= text_int_value(s@) <= i64::MAX),
{
    let n = s.len();
    let mut b: usize = 0;
    assert(s@.skip(0) =~= s@);
    while b < n && s[b] == ' '
        invariant b <= n, n == s.len(), ltrim_spec(s@) == ltrim_spec(s@.skip(b as int)),
        decreases n - b,
    {
        proof { lemma_skip_drop(s@, b as int); }
        b += 1;
    }
    let ghost t = s@.skip(b as int);
    assert(ltrim_spec(s@) == t);
    let mut i: usize = b;
    let mut neg = false;
    if i < n && (s[i] == '-' || s[i] == '+') {
        neg = s[i] == '-';
        i += 1;
    }
    let ghost start: int = (i - b) as int;
    proof {
        if b < n {
            assert(t[0] == s@[b as int]);
        }
        assert(start == (if t.len() > 0 && (t[0] == '-' || t[0] == '+') { 1int } else { 0int }));
        assert(neg == (t.len() > 0 && t[0] == '-'));
    }
    proof { lemma_digit_run_bounds(t, start); }
    let ghost run = digit_run(t, start);
    // accumulate magnitude as a non-positive number to reach i64::MIN
    let mut acc: i128 = 0;
    while i < n && '0' <= s[i] && s[i] <= '9'
        invariant b <= i <= n, n == s.len(), t == s@.skip(b as int), start + b <= i, 0 <= start <= t.len(), t.len() == n - b,
            i - b <= start + run,
            0 <= run <= t.len() - start,
            forall|k: int| start <= k < start + run ==> is_digit(#[trigger] t[k]),
            start + run < t.len() ==> !is_digit(t[start + run]),
            acc == digits_value(t.subrange(start, (i - b) as int)),
            0 <= acc <= 0x8000_0000_0000_0000i128,
            ltrim_spec(s@) == t, run == digit_run(t, start),
            start == (if t.len() > 0 && (t[0] == '-' || t[0] == '+') { 1int } else { 0int }),
            neg == (t.len() > 0 && t[0] == '-'),
        decreases n - i,
    {
        let d = (s[i] as u32 - 48u32) as i128;
        proof {
            assert(t[(i - b) as int] == s@[i as int]);
            let sub = t.subrange(start, (i - b) as int);
            let sub2 = t.subrange(start, (i + 1 - b) as int);
            assert(sub2.drop_last() =~= sub);
            assert(sub2.last() == s@[i as int]);
        }
        let next = acc * 10 + d;
        if next > 0x8000_0000_0000_0000i128 {
            // the magnitude only grows with further digits
            proof {
                lemma_digits_grow(t, start, (i + 1 - b) as int, start + run);
                assert(digits_value(t.subrange(start, (i + 1 - b) as int)) == next);
            }
            return None;
        }
        acc = next;
        i += 1;
    }
    if i < n {
        assert(t[(i - b) as int] == s@[i as int]);
    }
    assert((i - b) as int == start + run);
    if neg {
        Some((-acc) as i64)
    } else if acc > 0x7fff_ffff_ffff_ffffi128 {
        None
    } else {
        Some(acc as i64)
    }
}

proof fn lemma_digits_grow(t: Seq<char>, start: int, mid: int, end: int)
    requires 0 <= start <= mid <= end <= t.len(),
        forall|k: int| start <= k < end ==> is_digit(#[trigger] t[k]),
    ensures digits_value(t.subrange(start, end)) >= digits_value(t.subrange(start, mid)),
        digits_value(t.subrange(start, mid)) >= 0,
    decreases end - mid,
{
    lemma_digits_nonneg(t.subrange(start, mid));
    if end > mid {
        lemma_digits_grow(t, start, mid, end - 1);
        assert(t.subrange(start, end).drop_last() =~= t.subrange(start, end - 1));
        assert(is_digit(t[end - 1]));
    }
}

proof fn lemma_digits_nonneg(s: Seq<char>)
    requires forall|k: int| 0 <= k < s.len() ==> is_digit(#[trigger] s[k]),
    ensures digits_value(s) >= 0,
    decreases s.len(),
{
    if s.len() > 0 {
        lemma_digits_nonneg(s.drop_last());
        assert(is_digit(s[s.len() - 1]));
    }
}

} // verus!
