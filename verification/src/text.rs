//! Tokenization and normalization.
//!
//! A raw document text is split on whitespace into tokens; each token is
//! trimmed of surrounding whitespace, lower-cased, and stripped of any
//! leading or trailing run of `.` or `,`. The resulting strings are the
//! terms the index is keyed by. Everything here is a pure function of the
//! input text.

use vstd::prelude::*;

verus! {

/// The whitespace characters a document text is split on.
pub open spec fn is_ws_char(c: char) -> bool {
    c == ' ' || c == '\t' || c == '\n' || c == '\r' || c == '\u{b}' || c == '\u{c}'
}

/// The punctuation characters stripped from the ends of a token.
pub open spec fn is_punct_char(c: char) -> bool {
    c == '.' || c == ','
}

/// Lower-casing of a single character: the letters `A`..`Z` map to their
/// lower-case forms, every other character is unchanged.
pub open spec fn lower_char(c: char) -> char {
    if c == 'A' {
        'a'
    } else if c == 'B' {
        'b'
    } else if c == 'C' {
        'c'
    } else if c == 'D' {
        'd'
    } else if c == 'E' {
        'e'
    } else if c == 'F' {
        'f'
    } else if c == 'G' {
        'g'
    } else if c == 'H' {
        'h'
    } else if c == 'I' {
        'i'
    } else if c == 'J' {
        'j'
    } else if c == 'K' {
        'k'
    } else if c == 'L' {
        'l'
    } else if c == 'M' {
        'm'
    } else if c == 'N' {
        'n'
    } else if c == 'O' {
        'o'
    } else if c == 'P' {
        'p'
    } else if c == 'Q' {
        'q'
    } else if c == 'R' {
        'r'
    } else if c == 'S' {
        's'
    } else if c == 'T' {
        't'
    } else if c == 'U' {
        'u'
    } else if c == 'V' {
        'v'
    } else if c == 'W' {
        'w'
    } else if c == 'X' {
        'x'
    } else if c == 'Y' {
        'y'
    } else if c == 'Z' {
        'z'
    } else {
        c
    }
}

/// Lower-casing of a character sequence, character by character.
pub open spec fn lower_seq(s: Seq<char>) -> Seq<char> {
    s.map_values(|c: char| lower_char(c))
}

/// Drops the longest prefix of characters satisfying `p`.
pub open spec fn drop_leading(s: Seq<char>, p: spec_fn(char) -> bool) -> Seq<char>
    decreases s.len(),
{
    if s.len() > 0 && p(s[0]) {
        drop_leading(s.drop_first(), p)
    } else {
        s
    }
}

/// Drops the longest suffix of characters satisfying `p`.
pub open spec fn drop_trailing(s: Seq<char>, p: spec_fn(char) -> bool) -> Seq<char>
    decreases s.len(),
{
    if s.len() > 0 && p(s.last()) {
        drop_trailing(s.drop_last(), p)
    } else {
        s
    }
}

/// Drops the longest prefix and suffix of characters satisfying `p`.
pub open spec fn trim_ends(s: Seq<char>, p: spec_fn(char) -> bool) -> Seq<char> {
    drop_trailing(drop_leading(s, p), p)
}

/// The whitespace predicate as a function value, so that every use names
/// the same function.
pub open spec fn ws_pred() -> spec_fn(char) -> bool {
    |c: char| is_ws_char(c)
}

/// The end-punctuation predicate as a function value.
pub open spec fn punct_pred() -> spec_fn(char) -> bool {
    |c: char| is_punct_char(c)
}

/// Normalization of one raw token: trim surrounding whitespace, lower-case,
/// then strip leading and trailing runs of `.` or `,`.
pub open spec fn norm_token(s: Seq<char>) -> Seq<char> {
    trim_ends(lower_seq(trim_ends(s, ws_pred())), punct_pred())
}

/// Whitespace splitting, written as a left-to-right accumulation: `cur` is
/// the token being collected and `acc` the tokens already finished.
pub open spec fn split_ws_acc(s: Seq<char>, cur: Seq<char>, acc: Seq<Seq<char>>) -> Seq<Seq<char>>
    decreases s.len(),
{
    if s.len() == 0 {
        if cur.len() == 0 {
            acc
        } else {
            acc.push(cur)
        }
    } else if is_ws_char(s[0]) {
        if cur.len() == 0 {
            split_ws_acc(s.drop_first(), cur, acc)
        } else {
            split_ws_acc(s.drop_first(), Seq::empty(), acc.push(cur))
        }
    } else {
        split_ws_acc(s.drop_first(), cur.push(s[0]), acc)
    }
}

/// The sequence of raw (non-empty) tokens of a text, in order.
pub open spec fn tokens_of(s: Seq<char>) -> Seq<Seq<char>> {
    split_ws_acc(s, Seq::empty(), Seq::empty())
}

/// The normalized term sequence of a text: every raw token, normalized,
/// in order, duplicates kept.
pub open spec fn normalized_terms(s: Seq<char>) -> Seq<Seq<char>> {
    tokens_of(s).map_values(|t: Seq<char>| norm_token(t))
}

/// How many entries of `ts` equal `t`.
pub open spec fn term_count(ts: Seq<Seq<char>>, t: Seq<char>) -> nat
    decreases ts.len(),
{
    if ts.len() == 0 {
        0
    } else {
        term_count(ts.drop_last(), t) + if ts.last() == t {
            1nat
        } else {
            0nat
        }
    }
}

/// A term cannot occur more often than the sequence is long.
pub proof fn lemma_term_count_le_len(ts: Seq<Seq<char>>, t: Seq<char>)
    ensures
        term_count(ts, t) <= ts.len(),
    decreases ts.len(),
{
    if ts.len() > 0 {
        lemma_term_count_le_len(ts.drop_last(), t);
    }
}

/// Appending one entry raises the count of that entry by one and keeps
/// every other count.
pub proof fn lemma_term_count_push(ts: Seq<Seq<char>>, x: Seq<char>, t: Seq<char>)
    ensures
        term_count(ts.push(x), t) == term_count(ts, t) + if x == t {
            1nat
        } else {
            0nat
        },
{
    assert(ts.push(x).drop_last() =~= ts);
    assert(ts.push(x).last() == x);
}

/// The accumulator form of splitting yields at most one token per input
/// character, plus the tokens already finished.
proof fn lemma_split_ws_acc_len(s: Seq<char>, cur: Seq<char>, acc: Seq<Seq<char>>)
    ensures
        split_ws_acc(s, cur, acc).len() <= acc.len() + s.len() + if cur.len() > 0 {
            1int
        } else {
            0int
        },
    decreases s.len(),
{
    if s.len() > 0 {
        if is_ws_char(s[0]) {
            if cur.len() == 0 {
                lemma_split_ws_acc_len(s.drop_first(), cur, acc);
            } else {
                lemma_split_ws_acc_len(s.drop_first(), Seq::empty(), acc.push(cur));
            }
        } else {
            lemma_split_ws_acc_len(s.drop_first(), cur.push(s[0]), acc);
        }
    }
}

/// A text has at most as many tokens as characters.
pub proof fn lemma_tokens_len(s: Seq<char>)
    ensures
        tokens_of(s).len() <= s.len(),
{
    lemma_split_ws_acc_len(s, Seq::empty(), Seq::empty());
}

/// If the first `i` characters satisfy `p` and character `i` (if any) does
/// not, dropping the leading run means skipping exactly `i` characters.
proof fn lemma_drop_leading_skip(s: Seq<char>, p: spec_fn(char) -> bool, i: int)
    requires
        0 <= i <= s.len(),
        forall|k: int| 0 <= k < i ==> p(s[k]),
        i == s.len() || !p(s[i]),
    ensures
        drop_leading(s, p) == s.skip(i),
    decreases i,
{
    if i == 0 {
        assert(s.skip(0) =~= s);
    } else {
        lemma_drop_leading_skip(s.drop_first(), p, i - 1);
        assert(s.drop_first().skip(i - 1) =~= s.skip(i));
    }
}

/// If the characters from `j` on satisfy `p` and character `j - 1` (if any)
/// does not, dropping the trailing run means keeping exactly `j` characters.
proof fn lemma_drop_trailing_take(s: Seq<char>, p: spec_fn(char) -> bool, j: int)
    requires
        0 <= j <= s.len(),
        forall|k: int| j <= k < s.len() ==> p(s[k]),
        j == 0 || !p(s[j - 1]),
    ensures
        drop_trailing(s, p) == s.take(j),
    decreases s.len() - j,
{
    if j == s.len() {
        assert(s.take(j) =~= s);
    } else {
        lemma_drop_trailing_take(s.drop_last(), p, j);
        assert(s.drop_last().take(j) =~= s.take(j));
    }
}

/// Relies on `String::push`: appends the given character to the end of the
/// string.
#[verifier::external_body]
fn push_char(s: &mut String, c: char)
    ensures
        final (s)@ == old(s)@.push(c),
{
    s.push(c);
}

/// Whether `c` is one of the whitespace characters a text is split on.
fn is_ws(c: char) -> (b: bool)
    ensures
        b == is_ws_char(c),
{
    c == ' ' || c == '\t' || c == '\n' || c == '\r' || c == '\u{b}' || c == '\u{c}'
}

/// Whether `c` is stripped from the ends of a token.
fn is_punct(c: char) -> (b: bool)
    ensures
        b == is_punct_char(c),
{
    c == '.' || c == ','
}

/// Lower-cases one character.
fn to_lower(c: char) -> (r: char)
    ensures
        r == lower_char(c),
{
    match c {
        'A' => 'a',
        'B' => 'b',
        'C' => 'c',
        'D' => 'd',
        'E' => 'e',
        'F' => 'f',
        'G' => 'g',
        'H' => 'h',
        'I' => 'i',
        'J' => 'j',
        'K' => 'k',
        'L' => 'l',
        'M' => 'm',
        'N' => 'n',
        'O' => 'o',
        'P' => 'p',
        'Q' => 'q',
        'R' => 'r',
        'S' => 's',
        'T' => 't',
        'U' => 'u',
        'V' => 'v',
        'W' => 'w',
        'X' => 'x',
        'Y' => 'y',
        'Z' => 'z',
        _ => c,
    }
}

/// Normalizes one raw token: trims surrounding whitespace, lower-cases it,
/// and strips any leading or trailing run of `.` or `,`.
pub fn normalize_token(tok: &str) -> (r: String)
    ensures
        r@ == norm_token(tok@),
{
    let n = tok.unicode_len();
    let mut i: usize = 0;
    while i < n && is_ws(tok.get_char(i))
        invariant
            0 <= i <= n,
            n == tok@.len(),
            forall|k: int| 0 <= k < i ==> is_ws_char(tok@[k]),
        decreases n - i,
    {
        i += 1;
    }
    let mut j: usize = n;
    while j > i && is_ws(tok.get_char(j - 1))
        invariant
            i <= j <= n,
            n == tok@.len(),
            forall|k: int| j <= k < n ==> is_ws_char(tok@[k]),
        decreases j,
    {
        j -= 1;
    }
    proof {
        lemma_drop_leading_skip(tok@, ws_pred(), i as int);
        lemma_drop_trailing_take(tok@.skip(i as int), ws_pred(), j - i);
        assert(tok@.skip(i as int).take(j - i) =~= tok@.subrange(i as int, j as int));
        assert(trim_ends(tok@, ws_pred()) == tok@.subrange(i as int, j as int));
    }
    let mut low = String::new();
    let mut k: usize = i;
    while k < j
        invariant
            i <= k <= j <= n,
            n == tok@.len(),
            low@.len() == k - i,
            forall|m: int| 0 <= m < k - i ==> low@[m] == lower_char(tok@[i + m]),
        decreases j - k,
    {
        push_char(&mut low, to_lower(tok.get_char(k)));
        k += 1;
    }
    proof {
        assert(low@ =~= lower_seq(tok@.subrange(i as int, j as int)));
    }
    let m = j - i;
    let mut a: usize = 0;
    while a < m && is_punct(low.as_str().get_char(a))
        invariant
            0 <= a <= m,
            m == low@.len(),
            forall|k2: int| 0 <= k2 < a ==> is_punct_char(low@[k2]),
        decreases m - a,
    {
        a += 1;
    }
    let mut b: usize = m;
    while b > a && is_punct(low.as_str().get_char(b - 1))
        invariant
            a <= b <= m,
            m == low@.len(),
            forall|k2: int| b <= k2 < m ==> is_punct_char(low@[k2]),
        decreases b,
    {
        b -= 1;
    }
    proof {
        lemma_drop_leading_skip(low@, punct_pred(), a as int);
        lemma_drop_trailing_take(low@.skip(a as int), punct_pred(), b - a);
        assert(low@.skip(a as int).take(b - a) =~= low@.subrange(a as int, b as int));
        assert(norm_token(tok@) == low@.subrange(a as int, b as int));
    }
    String::from_str(low.as_str().substring_char(a, b))
}

/// Splits a text on whitespace into its sequence of raw tokens.
pub fn tokenize(text: &str) -> (r: Vec<String>)
    ensures
        r.deep_view() == tokens_of(text@),
{
    let n = text.unicode_len();
    let mut toks: Vec<String> = Vec::new();
    let mut cur = String::new();
    let mut i: usize = 0;
    proof {
        assert(toks.deep_view() =~= Seq::<Seq<char>>::empty());
        assert(text@.skip(0) =~= text@);
    }
    while i < n
        invariant
            0 <= i <= n,
            n == text@.len(),
            split_ws_acc(text@.skip(i as int), cur@, toks.deep_view()) == tokens_of(text@),
        decreases n - i,
    {
        let ghost prev = text@.skip(i as int);
        let ghost prev_toks = toks.deep_view();
        let c = text.get_char(i);
        proof {
            assert(prev[0] == text@[i as int]);
            assert(prev.drop_first() =~= text@.skip(i as int + 1));
        }
        if is_ws(c) {
            if !cur.as_str().is_empty() {
                let finished = cur;
                cur = String::new();
                toks.push(finished);
                proof {
                    assert(toks.deep_view() =~= prev_toks.push(finished@));
                }
            }
        } else {
            push_char(&mut cur, c);
        }
        i += 1;
    }
    proof {
        assert(text@.skip(n as int) =~= Seq::<char>::empty());
    }
    if !cur.as_str().is_empty() {
        let ghost prev_toks = toks.deep_view();
        let finished = cur;
        toks.push(finished);
        proof {
            assert(toks.deep_view() =~= prev_toks.push(finished@));
        }
    }
    toks
}

/// Splits a text on whitespace and normalizes every token, preserving the
/// token order and keeping duplicates.
pub fn normalize(text: &str) -> (r: Vec<String>)
    ensures
        r.deep_view() == normalized_terms(text@),
{
    let toks = tokenize(text);
    let mut out: Vec<String> = Vec::new();
    let mut k: usize = 0;
    while k < toks.len()
        invariant
            0 <= k <= toks.len(),
            toks.deep_view() == tokens_of(text@),
            out.deep_view().len() == k,
            forall|j: int| 0 <= j < k ==> out.deep_view()[j] == norm_token(toks.deep_view()[j]),
        decreases toks.len() - k,
    {
        let ghost prev_out = out.deep_view();
        let t = normalize_token(toks[k].as_str());
        out.push(t);
        proof {
            assert(out.deep_view() =~= prev_out.push(t@));
        }
        k += 1;
    }
    proof {
        assert(out.deep_view() =~= normalized_terms(text@));
    }
    out
}

} // verus!
