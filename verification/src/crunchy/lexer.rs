//! A byte-oriented lexer over a whole MCNP file. Every byte of the input is
//! covered by exactly one token, which is what makes the tree lossless.

use vstd::prelude::*;
use crate::crunchy::syntax_kind::SyntaxKind;

verus! {

/// One token: its kind and its byte span `[start, start + len)`.
#[derive(Debug, Clone, Copy, PartialEq, Eq, Structural)]
pub struct Lexeme {
    pub kind: SyntaxKind,
    pub start: u32,
    pub len: u32,
}

pub open spec fn is_ws(b: u8) -> bool {
    b == 32u8 || b == 9u8
}

pub open spec fn is_eol(b: u8) -> bool {
    b == 10u8 || b == 13u8
}

/// Single-character tokens that always end a word.
pub open spec fn is_special(b: u8) -> bool {
    b == 40u8 || b == 41u8 || b == 58u8 || b == 35u8 || b == 38u8 || b == 61u8 || b == 42u8
}

pub open spec fn ends_word(b: u8) -> bool {
    is_ws(b) || is_eol(b) || b == 36u8 || is_special(b)
}

pub open spec fn is_digit(b: u8) -> bool {
    48u8 <= b <= 57u8
}

/// End of the run of blanks starting at `i`.
pub open spec fn ws_end(s: Seq<u8>, i: int) -> int
    decreases s.len() - i,
{
    if 0 <= i < s.len() && is_ws(s[i]) {
        ws_end(s, i + 1)
    } else {
        i
    }
}

/// End of the line's text from `i`: the next `\n` / `\r`, or the end.
pub open spec fn eol_end(s: Seq<u8>, i: int) -> int
    decreases s.len() - i,
{
    if 0 <= i < s.len() && !is_eol(s[i]) {
        eol_end(s, i + 1)
    } else {
        i
    }
}

/// End of the word starting at `i`.
pub open spec fn word_end(s: Seq<u8>, i: int) -> int
    decreases s.len() - i,
{
    if 0 <= i < s.len() && !ends_word(s[i]) {
        word_end(s, i + 1)
    } else {
        i
    }
}

pub proof fn lemma_ends(s: Seq<u8>, i: int)
    requires
        0 <= i <= s.len(),
    ensures
        i <= ws_end(s, i) <= s.len(),
        i <= eol_end(s, i) <= s.len(),
        i <= word_end(s, i) <= s.len(),
    decreases s.len() - i,
{
    if i < s.len() {
        lemma_ends(s, i + 1);
    }
}

/// A `c` / `C` at `i` followed by a blank, a line end, or the end of input
/// starts a comment card.
pub open spec fn comment_head(s: Seq<u8>, i: int) -> bool {
    0 <= i < s.len() && (s[i] == 99u8 || s[i] == 67u8) && (i + 1 >= s.len() || is_ws(s[i + 1])
        || is_eol(s[i + 1]))
}

/// A word is a number when it starts like one: a digit, or a sign or `.`
/// with a digit somewhere in the word.
pub open spec fn classify_word(w: Seq<u8>) -> SyntaxKind {
    if w.len() > 0 && is_digit(w[0]) {
        SyntaxKind::NUMBER
    } else if w.len() > 0 && (w[0] == 43u8 || w[0] == 45u8 || w[0] == 46u8) {
        if exists|k: int| 0 <= k < w.len() && is_digit(#[trigger] w[k]) {
            SyntaxKind::NUMBER
        } else {
            SyntaxKind::IDENT
        }
    } else {
        SyntaxKind::IDENT
    }
}

pub open spec fn single_kind(b: u8) -> SyntaxKind {
    if b == 40u8 {
        SyntaxKind::L_PAREN
    } else if b == 41u8 {
        SyntaxKind::R_PAREN
    } else if b == 58u8 {
        SyntaxKind::COLON
    } else if b == 35u8 {
        SyntaxKind::HASH
    } else if b == 38u8 {
        SyntaxKind::AMP
    } else if b == 61u8 {
        SyntaxKind::EQ
    } else {
        SyntaxKind::STAR
    }
}

pub open spec fn lx(kind: SyntaxKind, start: int, end: int) -> Lexeme {
    Lexeme { kind, start: start as u32, len: (end - start) as u32 }
}

/// The tokens of `s` from byte `i` on; `ls` says whether `i` starts a line,
/// which is where a comment card may begin (after at most four blanks).
pub open spec fn lex_from(s: Seq<u8>, i: int, ls: bool) -> Seq<Lexeme>
    decreases s.len() - i,
{
    if i < 0 || i >= s.len() {
        Seq::empty()
    } else {
        let b = s[i];
        if b == 10u8 {
            seq![lx(SyntaxKind::NEWLINE, i, i + 1)] + lex_from(s, i + 1, true)
        } else if b == 13u8 {
            let e = if i + 1 < s.len() && s[i + 1] == 10u8 {
                i + 2
            } else {
                i + 1
            };
            seq![lx(SyntaxKind::NEWLINE, i, e)] + lex_from(s, e, true)
        } else if is_ws(b) {
            let e = ws_end(s, i);
            if e <= i || e > s.len() {
                Seq::empty()
            } else if ls && e - i <= 4 && e < s.len() && comment_head(s, e) {
                let ce = eol_end(s, e);
                if ce <= e || ce > s.len() {
                    Seq::empty()
                } else {
                    seq![lx(SyntaxKind::WHITESPACE, i, e), lx(SyntaxKind::COMMENT_LINE, e, ce)]
                        + lex_from(s, ce, false)
                }
            } else {
                seq![lx(SyntaxKind::WHITESPACE, i, e)] + lex_from(s, e, false)
            }
        } else if ls && comment_head(s, i) {
            let ce = eol_end(s, i);
            if ce <= i || ce > s.len() {
                Seq::empty()
            } else {
                seq![lx(SyntaxKind::COMMENT_LINE, i, ce)] + lex_from(s, ce, false)
            }
        } else if b == 36u8 {
            let ce = eol_end(s, i);
            if ce <= i || ce > s.len() {
                Seq::empty()
            } else {
                seq![lx(SyntaxKind::DOLLAR_COMMENT, i, ce)] + lex_from(s, ce, false)
            }
        } else if is_special(b) {
            seq![lx(single_kind(b), i, i + 1)] + lex_from(s, i + 1, false)
        } else {
            let e = word_end(s, i);
            if e <= i || e > s.len() {
                Seq::empty()
            } else {
                seq![lx(classify_word(s.subrange(i, e)), i, e)] + lex_from(s, e, false)
            }
        }
    }
}

/// The tokens of a whole file: a byte-order mark first if there is one.
pub open spec fn spec_lex(s: Seq<u8>) -> Seq<Lexeme> {
    if s.len() >= 3 && s[0] == 0xEFu8 && s[1] == 0xBBu8 && s[2] == 0xBFu8 {
        seq![lx(SyntaxKind::BOM, 0, 3)] + lex_from(s, 3, true)
    } else {
        lex_from(s, 0, true)
    }
}

/// Tokens `ts` tile the bytes `[i, n)`: each starts where the previous one
/// ended, none is empty, and the last ends at `n`.
pub open spec fn tiles(ts: Seq<Lexeme>, i: int, n: int) -> bool
    decreases ts.len(),
{
    if ts.len() == 0 {
        i == n
    } else {
        ts[0].start == i && ts[0].len > 0 && tiles(ts.drop_first(), i + ts[0].len, n)
    }
}

pub proof fn lemma_tiles_concat(a: Seq<Lexeme>, b: Seq<Lexeme>, i: int, m: int, n: int)
    requires
        tiles(a, i, m),
        tiles(b, m, n),
    ensures
        tiles(a + b, i, n),
    decreases a.len(),
{
    if a.len() > 0 {
        assert((a + b).drop_first() =~= a.drop_first() + b);
        lemma_tiles_concat(a.drop_first(), b, i + a[0].len, m, n);
    } else {
        assert(a + b =~= b);
    }
}

proof fn lemma_tiles_one(k: SyntaxKind, a: int, b: int)
    requires
        0 <= a < b <= u32::MAX,
    ensures
        tiles(seq![lx(k, a, b)], a, b),
{
    let t = seq![lx(k, a, b)];
    assert(t.drop_first() =~= Seq::<Lexeme>::empty());
    assert(t[0].start == a && t[0].len == b - a);
    reveal_with_fuel(tiles, 2);
}

proof fn lemma_lex_from_tiles(s: Seq<u8>, i: int, ls: bool)
    requires
        0 <= i <= s.len(),
        s.len() <= u32::MAX,
    ensures
        tiles(lex_from(s, i, ls), i, s.len() as int),
    decreases s.len() - i,
{
    if i < s.len() {
        lemma_ends(s, i);
        let b = s[i];
        if b == 10u8 {
            lemma_lex_from_tiles(s, i + 1, true);
            lemma_tiles_one(SyntaxKind::NEWLINE, i, i + 1);
            lemma_tiles_concat(seq![lx(SyntaxKind::NEWLINE, i, i + 1)], lex_from(s, i + 1, true), i, i + 1, s.len() as int);
        } else if b == 13u8 {
            let e = if i + 1 < s.len() && s[i + 1] == 10u8 {
                i + 2
            } else {
                i + 1
            };
            lemma_lex_from_tiles(s, e, true);
            lemma_tiles_one(SyntaxKind::NEWLINE, i, e);
            lemma_tiles_concat(seq![lx(SyntaxKind::NEWLINE, i, e)], lex_from(s, e, true), i, e, s.len() as int);
        } else if is_ws(b) {
            let e = ws_end(s, i);
            assert(e > i) by {
                assert(ws_end(s, i) == ws_end(s, i + 1));
                lemma_ends(s, i + 1);
            }
            if ls && e - i <= 4 && e < s.len() && comment_head(s, e) {
                lemma_ends(s, e);
                let ce = eol_end(s, e);
                assert(ce > e) by {
                    assert(eol_end(s, e) == eol_end(s, e + 1));
                    lemma_ends(s, e + 1);
                }
                lemma_lex_from_tiles(s, ce, false);
                let head = seq![lx(SyntaxKind::WHITESPACE, i, e), lx(SyntaxKind::COMMENT_LINE, e, ce)];
                lemma_tiles_one(SyntaxKind::COMMENT_LINE, e, ce);
                assert(head.drop_first() =~= seq![lx(SyntaxKind::COMMENT_LINE, e, ce)]);
                assert(tiles(head.drop_first(), e, ce));
                lemma_tiles_concat(head, lex_from(s, ce, false), i, ce, s.len() as int);
            } else {
                lemma_lex_from_tiles(s, e, false);
                lemma_tiles_one(SyntaxKind::WHITESPACE, i, e);
            lemma_tiles_concat(seq![lx(SyntaxKind::WHITESPACE, i, e)], lex_from(s, e, false), i, e, s.len() as int);
            }
        } else if (ls && comment_head(s, i)) || b == 36u8 {
            let ce = eol_end(s, i);
            assert(ce > i) by {
                assert(eol_end(s, i) == eol_end(s, i + 1));
                lemma_ends(s, i + 1);
            }
            lemma_lex_from_tiles(s, ce, false);
            let k = if ls && comment_head(s, i) {
                SyntaxKind::COMMENT_LINE
            } else {
                SyntaxKind::DOLLAR_COMMENT
            };
            lemma_tiles_one(k, i, ce);
            lemma_tiles_concat(seq![lx(k, i, ce)], lex_from(s, ce, false), i, ce, s.len() as int);
        } else if is_special(b) {
            lemma_lex_from_tiles(s, i + 1, false);
            lemma_tiles_one(single_kind(b), i, i + 1);
            lemma_tiles_concat(seq![lx(single_kind(b), i, i + 1)], lex_from(s, i + 1, false), i, i + 1, s.len() as int);
        } else {
            let e = word_end(s, i);
            assert(e > i) by {
                assert(word_end(s, i) == word_end(s, i + 1));
                lemma_ends(s, i + 1);
            }
            lemma_lex_from_tiles(s, e, false);
            lemma_tiles_one(classify_word(s.subrange(i, e)), i, e);
            lemma_tiles_concat(seq![lx(classify_word(s.subrange(i, e)), i, e)], lex_from(s, e, false), i, e, s.len() as int);
        }
    }
}

/// The tokens of any input that fits the 32-bit offsets tile it exactly:
/// every byte is covered by one non-empty token, in order.
pub proof fn law_lex_tiles_input(s: Seq<u8>)
    requires
        s.len() <= u32::MAX,
    ensures
        tiles(spec_lex(s), 0, s.len() as int),
{
    if s.len() >= 3 && s[0] == 0xEFu8 && s[1] == 0xBBu8 && s[2] == 0xBFu8 {
        lemma_lex_from_tiles(s, 3, true);
        lemma_tiles_one(SyntaxKind::BOM, 0, 3);
            lemma_tiles_concat(seq![lx(SyntaxKind::BOM, 0, 3)], lex_from(s, 3, true), 0, 3, s.len() as int);
    } else {
        lemma_lex_from_tiles(s, 0, true);
    }
}

fn ws_end_at(s: &[u8], i: usize) -> (r: usize)
    requires
        i <= s@.len(),
    ensures
        r == ws_end(s@, i as int),
{
    let mut k = i;
    while k < s.len() && (s[k] == 32u8 || s[k] == 9u8)
        invariant
            i <= k <= s@.len(),
            ws_end(s@, i as int) == ws_end(s@, k as int),
        decreases s@.len() - k,
    {
        k = k + 1;
    }
    k
}

fn eol_end_at(s: &[u8], i: usize) -> (r: usize)
    requires
        i <= s@.len(),
    ensures
        r == eol_end(s@, i as int),
{
    let mut k = i;
    while k < s.len() && !(s[k] == 10u8 || s[k] == 13u8)
        invariant
            i <= k <= s@.len(),
            eol_end(s@, i as int) == eol_end(s@, k as int),
        decreases s@.len() - k,
    {
        k = k + 1;
    }
    k
}

fn stops_word(b: u8) -> (r: bool)
    ensures
        r == ends_word(b),
{
    b == 32u8 || b == 9u8 || b == 10u8 || b == 13u8 || b == 36u8 || b == 40u8 || b == 41u8 || b
        == 58u8 || b == 35u8 || b == 38u8 || b == 61u8 || b == 42u8
}

fn word_end_at(s: &[u8], i: usize) -> (r: usize)
    requires
        i <= s@.len(),
    ensures
        r == word_end(s@, i as int),
{
    let mut k = i;
    while k < s.len() && !stops_word(s[k])
        invariant
            i <= k <= s@.len(),
            word_end(s@, i as int) == word_end(s@, k as int),
        decreases s@.len() - k,
    {
        k = k + 1;
    }
    k
}

fn is_comment_head(s: &[u8], i: usize) -> (r: bool)
    requires
        i <= s@.len(),
    ensures
        r == comment_head(s@, i as int),
{
    if i >= s.len() {
        return false;
    }
    let b = s[i];
    if b != 99u8 && b != 67u8 {
        return false;
    }
    if i + 1 >= s.len() {
        return true;
    }
    let nx = s[i + 1];
    nx == 32u8 || nx == 9u8 || nx == 10u8 || nx == 13u8
}

/// Classify the word `s[from..to]` as a number or an identifier.
fn classify(s: &[u8], from: usize, to: usize) -> (r: SyntaxKind)
    requires
        from < to <= s@.len(),
    ensures
        r == classify_word(s@.subrange(from as int, to as int)),
{
    let ghost w = s@.subrange(from as int, to as int);
    let c = s[from];
    assert(w[0] == c);
    if 48u8 <= c && c <= 57u8 {
        return SyntaxKind::NUMBER;
    }
    if c == 43u8 || c == 45u8 || c == 46u8 {
        let mut k = from;
        while k < to
            invariant
                from <= k <= to <= s@.len(),
                w == s@.subrange(from as int, to as int),
                w.len() > 0,
                w[0] == 43u8 || w[0] == 45u8 || w[0] == 46u8,
                forall|m: int| 0 <= m < k - from ==> !is_digit(#[trigger] w[m]),
            decreases to - k,
        {
            if 48u8 <= s[k] && s[k] <= 57u8 {
                assert(w[k - from] == s@[k as int]);
                assert(is_digit(w[k - from]));
                return SyntaxKind::NUMBER;
            }
            k = k + 1;
        }
        return SyntaxKind::IDENT;
    }
    SyntaxKind::IDENT
}

fn single(b: u8) -> (r: Option<SyntaxKind>)
    ensures
        r == (if is_special(b) {
            Some(single_kind(b))
        } else {
            None::<SyntaxKind>
        }),
{
    if b == 40u8 {
        Some(SyntaxKind::L_PAREN)
    } else if b == 41u8 {
        Some(SyntaxKind::R_PAREN)
    } else if b == 58u8 {
        Some(SyntaxKind::COLON)
    } else if b == 35u8 {
        Some(SyntaxKind::HASH)
    } else if b == 38u8 {
        Some(SyntaxKind::AMP)
    } else if b == 61u8 {
        Some(SyntaxKind::EQ)
    } else if b == 42u8 {
        Some(SyntaxKind::STAR)
    } else {
        None
    }
}

fn mk(kind: SyntaxKind, start: usize, end: usize) -> (r: Lexeme)
    requires
        start <= end <= u32::MAX,
    ensures
        r == lx(kind, start as int, end as int),
{
    Lexeme { kind, start: start as u32, len: (end - start) as u32 }
}

/// The tokens one step of the lexer emits at byte `i`.
pub open spec fn step_tokens(t0: Lexeme, t1: Option<Lexeme>) -> Seq<Lexeme> {
    match t1 {
        Some(t) => seq![t0, t],
        None => seq![t0],
    }
}

/// One step of the lexer at byte `i`: one token (two for a comment card
/// after leading blanks), and where lexing resumes.
fn lex_step(src: &[u8], i: usize, ls: bool) -> (r: (Lexeme, Option<Lexeme>, usize))
    requires
        i < src@.len() <= u32::MAX,
    ensures
        i < r.2 <= src@.len(),
        step_tokens(r.0, r.1) + lex_from(src@, r.2 as int, r.0.kind == SyntaxKind::NEWLINE)
            == lex_from(src@, i as int, ls),
{
    let ghost s = src@;
    let n = src.len();
    proof {
        lemma_ends(s, i as int);
        lemma_ends(s, i + 1);
    }
    let b = src[i];
    if b == 10u8 {
        let t = mk(SyntaxKind::NEWLINE, i, i + 1);
        proof {
            assert(step_tokens(t, None) + lex_from(s, i + 1, true) =~= lex_from(s, i as int, ls));
        }
        (t, None, i + 1)
    } else if b == 13u8 {
        let e = if i + 1 < n && src[i + 1] == 10u8 {
            i + 2
        } else {
            i + 1
        };
        let t = mk(SyntaxKind::NEWLINE, i, e);
        proof {
            assert(step_tokens(t, None) + lex_from(s, e as int, true) =~= lex_from(s, i as int, ls));
        }
        (t, None, e)
    } else if b == 32u8 || b == 9u8 {
        let e = ws_end_at(src, i);
        proof {
            assert(ws_end(s, i as int) == ws_end(s, i + 1));
        }
        if ls && e - i <= 4 && e < n && is_comment_head(src, e) {
            let ce = eol_end_at(src, e);
            proof {
                lemma_ends(s, e + 1);
                assert(eol_end(s, e as int) == eol_end(s, e + 1));
            }
            let t0 = mk(SyntaxKind::WHITESPACE, i, e);
            let t1 = mk(SyntaxKind::COMMENT_LINE, e, ce);
            proof {
                assert(step_tokens(t0, Some(t1)) + lex_from(s, ce as int, false) =~= lex_from(
                    s,
                    i as int,
                    ls,
                ));
            }
            (t0, Some(t1), ce)
        } else {
            let t = mk(SyntaxKind::WHITESPACE, i, e);
            proof {
                assert(step_tokens(t, None) + lex_from(s, e as int, false) =~= lex_from(
                    s,
                    i as int,
                    ls,
                ));
            }
            (t, None, e)
        }
    } else if (ls && is_comment_head(src, i)) || b == 36u8 {
        let ce = eol_end_at(src, i);
        proof {
            assert(eol_end(s, i as int) == eol_end(s, i + 1));
        }
        let k = if ls && is_comment_head(src, i) {
            SyntaxKind::COMMENT_LINE
        } else {
            SyntaxKind::DOLLAR_COMMENT
        };
        let t = mk(k, i, ce);
        proof {
            assert(step_tokens(t, None) + lex_from(s, ce as int, false) =~= lex_from(s, i as int, ls));
        }
        (t, None, ce)
    } else {
        match single(b) {
            Some(k) => {
                let t = mk(k, i, i + 1);
                proof {
                    assert(step_tokens(t, None) + lex_from(s, i + 1, false) =~= lex_from(
                        s,
                        i as int,
                        ls,
                    ));
                }
                (t, None, i + 1)
            },
            None => {
                let e = word_end_at(src, i);
                proof {
                    assert(word_end(s, i as int) == word_end(s, i + 1));
                }
                let t = mk(classify(src, i, e), i, e);
                proof {
                    assert(step_tokens(t, None) + lex_from(s, e as int, false) =~= lex_from(
                        s,
                        i as int,
                        ls,
                    ));
                }
                (t, None, e)
            },
        }
    }
}

/// Lex a whole file. Offsets are byte offsets, so the input must be under
/// 4 GiB.
pub fn lex(src: &[u8]) -> (r: Vec<Lexeme>)
    requires
        src@.len() <= u32::MAX,
    ensures
        r@ == spec_lex(src@),
{
    let ghost s = src@;
    let n = src.len();
    let mut out: Vec<Lexeme> = Vec::new();
    let mut i: usize = 0;
    if n >= 3 && src[0] == 0xEFu8 && src[1] == 0xBBu8 && src[2] == 0xBFu8 {
        out.push(mk(SyntaxKind::BOM, 0, 3));
        i = 3;
    }
    let ghost full = spec_lex(s);
    let mut ls = true;
    proof {
        assert(out@ + lex_from(s, i as int, ls) =~= full);
    }
    while i < n
        invariant
            s == src@,
            n == s.len(),
            n <= u32::MAX,
            i <= n,
            out@ + lex_from(s, i as int, ls) == full,
        decreases n - i,
    {
        let ghost before = out@;
        let (t0, t1, e) = lex_step(src, i, ls);
        out.push(t0);
        match t1 {
            Some(t) => {
                out.push(t);
            },
            None => {},
        }
        proof {
            assert(out@ =~= before + step_tokens(t0, t1));
            assert(out@ + lex_from(s, e as int, t0.kind == SyntaxKind::NEWLINE) =~= before + (
            step_tokens(t0, t1) + lex_from(s, e as int, t0.kind == SyntaxKind::NEWLINE)));
        }
        ls = t0.kind == SyntaxKind::NEWLINE;
        i = e;
    }
    proof {
        assert(out@ + Seq::<Lexeme>::empty() =~= out@);
    }
    out
}

} // verus!
