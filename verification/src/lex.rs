//! The per-card tokenizer. Lexing is scoped to one card, which is what keeps
//! every edit local: a card is re-lexed after it is spliced, and nothing else.

use vstd::prelude::*;
use crate::kind::{CardKind, SyntaxKind};
use crate::lines::{
    is_comment_line, is_space, line_end, lemma_line_end, spec_is_comment_line,
    spec_is_space, spec_line_end, spec_strip_len, strip_eol,
};
use crate::token::{Token, tokens_within, tokens_wf, lemma_tokens_within_concat};
use vstd::string::StringSliceAdditionalSpecFns;

verus! {

/// Bytes that end a word; all but whitespace and `$` are one-byte tokens.
pub open spec fn spec_is_delimiter(b: u8) -> bool {
    b == 32u8 || b == 9u8 || b == 13u8 || b == 10u8 || b == 40u8 || b == 41u8 || b == 58u8
        || b == 61u8 || b == 36u8 || b == 38u8 || b == 35u8 || b == 42u8
}

fn is_delimiter(b: u8) -> (r: bool)
    ensures
        r == spec_is_delimiter(b),
{
    b == 32u8 || b == 9u8 || b == 13u8 || b == 10u8 || b == 40u8 || b == 41u8 || b == 58u8
        || b == 61u8 || b == 36u8 || b == 38u8 || b == 35u8 || b == 42u8
}

pub open spec fn spec_is_digit(b: u8) -> bool {
    48u8 <= b <= 57u8
}

pub open spec fn spec_is_alpha(b: u8) -> bool {
    (65u8 <= b <= 90u8) || (97u8 <= b <= 122u8)
}

/// A word starting with a digit is a number, and so is one starting with a sign
/// or `.` when a digit follows somewhere in it; a word starting with a letter or
/// `_` is an identifier; anything else is unknown.
pub open spec fn spec_classify_word(w: Seq<u8>) -> SyntaxKind {
    if w.len() == 0 {
        SyntaxKind::Unknown
    } else if spec_is_digit(w[0]) {
        SyntaxKind::Number
    } else if w[0] == 43u8 || w[0] == 45u8 || w[0] == 46u8 {
        if exists|k: int| 0 <= k < w.len() && spec_is_digit(#[trigger] w[k]) {
            SyntaxKind::Number
        } else {
            SyntaxKind::Unknown
        }
    } else if spec_is_alpha(w[0]) || w[0] == 95u8 {
        SyntaxKind::Ident
    } else {
        SyntaxKind::Unknown
    }
}

/// Classify the word `src[from..to]`.
fn classify_word(src: &[u8], from: usize, to: usize) -> (r: SyntaxKind)
    requires
        from < to <= src@.len(),
    ensures
        r == spec_classify_word(src@.subrange(from as int, to as int)),
{
    let ghost w = src@.subrange(from as int, to as int);
    let b = src[from];
    assert(w[0] == b);
    if 48u8 <= b && b <= 57u8 {
        SyntaxKind::Number
    } else if b == 43u8 || b == 45u8 || b == 46u8 {
        let mut k = from;
        while k < to
            invariant
                from <= k <= to <= src@.len(),
                w == src@.subrange(from as int, to as int),
                w.len() > 0,
                w[0] == 43u8 || w[0] == 45u8 || w[0] == 46u8,
                forall|m: int| 0 <= m < k - from ==> !spec_is_digit(#[trigger] w[m]),
            decreases to - k,
        {
            if 48u8 <= src[k] && src[k] <= 57u8 {
                assert(w[k - from] == src@[k as int]);
                assert(spec_is_digit(w[k - from]));
                assert(exists|m: int| 0 <= m < w.len() && spec_is_digit(#[trigger] w[m]));
                return SyntaxKind::Number;
            }
            assert(w[k - from] == src@[k as int]);
            k = k + 1;
        }
        SyntaxKind::Unknown
    } else if (65u8 <= b && b <= 90u8) || (97u8 <= b && b <= 122u8) || b == 95u8 {
        SyntaxKind::Ident
    } else {
        SyntaxKind::Unknown
    }
}

/// Index of the first delimiter at or after `i` (but before `to`), or `to`.
pub open spec fn word_end(s: Seq<u8>, i: int, to: int) -> int
    decreases to - i,
{
    if i >= to || spec_is_delimiter(s[i]) {
        i
    } else {
        word_end(s, i + 1, to)
    }
}

pub proof fn lemma_word_end(s: Seq<u8>, i: int, to: int)
    requires
        0 <= i <= to <= s.len(),
    ensures
        i <= word_end(s, i, to) <= to,
        forall|k: int| i <= k < word_end(s, i, to) ==> !spec_is_delimiter(#[trigger] s[k]),
        word_end(s, i, to) < to ==> spec_is_delimiter(s[word_end(s, i, to)]),
    decreases to - i,
{
    if i < to && !spec_is_delimiter(s[i]) {
        lemma_word_end(s, i + 1, to);
    }
}

/// A token built from integer bounds.
pub open spec fn tok(kind: SyntaxKind, start: int, len: int) -> Token {
    Token { kind, start: start as u32, len: len as u32 }
}

/// The one-byte punctuation token kinds.
pub open spec fn punct_kind(b: u8) -> Option<SyntaxKind> {
    if b == 40u8 {
        Some(SyntaxKind::LParen)
    } else if b == 41u8 {
        Some(SyntaxKind::RParen)
    } else if b == 58u8 {
        Some(SyntaxKind::Colon)
    } else if b == 61u8 {
        Some(SyntaxKind::Eq)
    } else if b == 42u8 {
        Some(SyntaxKind::Star)
    } else if b == 35u8 {
        Some(SyntaxKind::Hash)
    } else {
        None
    }
}

/// End of a line's content: `from` plus the length of `s[from..to]` without
/// its terminator.
pub open spec fn content_end_of(s: Seq<u8>, from: int, to: int) -> int {
    from + spec_strip_len(s.subrange(from, to))
}

/// The tokens of one line `s[from..to]`, from position `i` on.
pub open spec fn lex_line_from(s: Seq<u8>, from: int, to: int, i: int) -> Seq<Token>
    decreases to - i,
{
    if i < from || i >= to || to > s.len() {
        Seq::empty()
    } else {
        let b = s[i];
        if b == 32u8 || b == 9u8 || b == 13u8 || b == 10u8 {
            lex_line_from(s, from, to, i + 1)
        } else if b == 36u8 {
            let e = content_end_of(s, from, to);
            let end = if i < e <= to {
                e
            } else {
                i + 1
            };
            seq![tok(SyntaxKind::Comment, i, end - i)] + lex_line_from(s, from, to, end)
        } else if b == 38u8 {
            seq![tok(SyntaxKind::Ampersand, i, 1)] + lex_line_from(s, from, to, i + 1)
        } else if punct_kind(b) is Some {
            seq![tok(punct_kind(b)->0, i, 1)] + lex_line_from(s, from, to, i + 1)
        } else {
            let e = word_end(s, i, to);
            let end = if i < e <= to {
                e
            } else {
                i + 1
            };
            seq![tok(spec_classify_word(s.subrange(i, end)), i, end - i)] + lex_line_from(
                s,
                from,
                to,
                end,
            )
        }
    }
}

/// Every byte of a line before its content end is not a line terminator byte
/// that was stripped: a `$` inside the line lies before the content end.
proof fn lemma_content_end(s: Seq<u8>, from: int, to: int, i: int)
    requires
        0 <= from <= i < to <= s.len(),
        s[i] != 10u8,
        s[i] != 13u8,
    ensures
        i < content_end_of(s, from, to) <= to,
{
    let l = s.subrange(from, to);
    assert(l[i - from] == s[i]);
}

/// Tokens of `s[from..to]` from `i` on, appended to `tokens`.
fn lex_line(src: &[u8], from: usize, to: usize, tokens: &mut Vec<Token>)
    requires
        from <= to <= src@.len(),
        src@.len() <= u32::MAX,
    ensures
        final(tokens)@ == old(tokens)@ + lex_line_from(src@, from as int, to as int, from as int),
{
    let mut i = from;
    while i < to
        invariant
            from <= i <= to <= src@.len(),
            src@.len() <= u32::MAX,
            tokens@ + lex_line_from(src@, from as int, to as int, i as int) == old(tokens)@
                + lex_line_from(src@, from as int, to as int, from as int),
        decreases to - i,
    {
        let b = src[i];
        let ghost before = tokens@;
        if b == 32u8 || b == 9u8 || b == 13u8 || b == 10u8 {
            i = i + 1;
        } else if b == 36u8 {
            let line = vstd::slice::slice_subrange(src, from, to);
            let body_end = from + strip_eol(line).len();
            proof {
                lemma_content_end(src@, from as int, to as int, i as int);
            }
            tokens.push(Token::new(SyntaxKind::Comment, i, body_end - i));
            proof {
                assert(before + lex_line_from(src@, from as int, to as int, i as int) =~= tokens@
                    + lex_line_from(src@, from as int, to as int, body_end as int));
            }
            i = body_end;
        } else if b == 38u8 {
            tokens.push(Token::new(SyntaxKind::Ampersand, i, 1));
            proof {
                assert(before + lex_line_from(src@, from as int, to as int, i as int) =~= tokens@
                    + lex_line_from(src@, from as int, to as int, i + 1));
            }
            i = i + 1;
        } else if b == 40u8 || b == 41u8 || b == 58u8 || b == 61u8 || b == 42u8 || b == 35u8 {
            let kind = if b == 40u8 {
                SyntaxKind::LParen
            } else if b == 41u8 {
                SyntaxKind::RParen
            } else if b == 58u8 {
                SyntaxKind::Colon
            } else if b == 61u8 {
                SyntaxKind::Eq
            } else if b == 42u8 {
                SyntaxKind::Star
            } else {
                SyntaxKind::Hash
            };
            tokens.push(Token::new(kind, i, 1));
            proof {
                assert(before + lex_line_from(src@, from as int, to as int, i as int) =~= tokens@
                    + lex_line_from(src@, from as int, to as int, i + 1));
            }
            i = i + 1;
        } else {
            let start = i;
            proof {
                lemma_word_end(src@, start as int, to as int);
            }
            while i < to && !is_delimiter(src[i])
                invariant
                    start <= i <= to <= src@.len(),
                    word_end(src@, start as int, to as int) == word_end(src@, i as int, to as int),
                decreases to - i,
            {
                i = i + 1;
            }
            assert(i == word_end(src@, start as int, to as int));
            assert(i > start);
            let kind = classify_word(src, start, i);
            tokens.push(Token::new(kind, start, i - start));
            proof {
                assert(before + lex_line_from(src@, from as int, to as int, start as int) =~= tokens@
                    + lex_line_from(src@, from as int, to as int, i as int));
            }
        }
    }
}

/// `FC`/`SC` (any case) followed by one or more digits: a tally or source
/// comment mnemonic, whose label is free text.
pub open spec fn spec_is_free_text_mnemonic(w: Seq<u8>) -> bool {
    w.len() >= 3 && (((w[0] == 102u8 || w[0] == 70u8) && (w[1] == 99u8 || w[1] == 67u8)) || ((
    w[0] == 115u8 || w[0] == 83u8) && (w[1] == 99u8 || w[1] == 67u8))) && forall|k: int|
        2 <= k < w.len() ==> spec_is_digit(#[trigger] w[k])
}

fn is_free_text_mnemonic(src: &[u8], from: usize, to: usize) -> (r: bool)
    requires
        from <= to <= src@.len(),
    ensures
        r == spec_is_free_text_mnemonic(src@.subrange(from as int, to as int)),
{
    let ghost w = src@.subrange(from as int, to as int);
    if to - from < 3 {
        return false;
    }
    let b0 = src[from];
    let b1 = src[from + 1];
    assert(w[0] == b0 && w[1] == b1);
    let prefix = ((b0 == 102u8 || b0 == 70u8) && (b1 == 99u8 || b1 == 67u8)) || ((b0 == 115u8
        || b0 == 83u8) && (b1 == 99u8 || b1 == 67u8));
    if !prefix {
        return false;
    }
    let mut k = from + 2;
    while k < to
        invariant
            from + 2 <= k <= to <= src@.len(),
            w == src@.subrange(from as int, to as int),
            forall|m: int| 2 <= m < k - from ==> spec_is_digit(#[trigger] w[m]),
        decreases to - k,
    {
        assert(w[k - from] == src@[k as int]);
        if !(48u8 <= src[k] && src[k] <= 57u8) {
            return false;
        }
        k = k + 1;
    }
    true
}

/// Length of a leading `FCn` / `SCn` word at the start of the line `s[from..to]`.
pub open spec fn spec_free_text_mnemonic_len(s: Seq<u8>, from: int, to: int) -> Option<int> {
    let e = word_end(s, from, to);
    if spec_is_free_text_mnemonic(s.subrange(from, e)) {
        Some(e - from)
    } else {
        None
    }
}

fn free_text_mnemonic_len(src: &[u8], from: usize, to: usize) -> (r: Option<usize>)
    requires
        from <= to <= src@.len(),
    ensures
        r == (match spec_free_text_mnemonic_len(src@, from as int, to as int) {
            Some(n) => Some(n as usize),
            None => None::<usize>,
        }),
{
    proof {
        lemma_word_end(src@, from as int, to as int);
    }
    let mut i = from;
    while i < to && !is_delimiter(src[i])
        invariant
            from <= i <= to <= src@.len(),
            word_end(src@, from as int, to as int) == word_end(src@, i as int, to as int),
        decreases to - i,
    {
        i = i + 1;
    }
    if is_free_text_mnemonic(src, from, i) {
        Some(i - from)
    } else {
        None
    }
}

/// Index of the first byte at or after `i` (before `to`) that is not a space or tab.
pub open spec fn skip_blanks(s: Seq<u8>, i: int, to: int) -> int
    decreases to - i,
{
    if i >= to || !spec_is_space(s[i]) {
        i
    } else {
        skip_blanks(s, i + 1, to)
    }
}

/// The tokens of a free-text `FCn`/`SCn` line `s[from..to]` whose mnemonic is
/// `m` bytes long: the mnemonic, then the label as one comment token.
pub open spec fn free_text_tokens(s: Seq<u8>, from: int, to: int, m: int) -> Seq<Token> {
    let i = skip_blanks(s, from + m, to);
    let body_len = spec_strip_len(s.subrange(i, to));
    if body_len > 0 {
        seq![tok(SyntaxKind::Ident, from, m), tok(SyntaxKind::Comment, i, body_len)]
    } else {
        seq![tok(SyntaxKind::Ident, from, m)]
    }
}

/// The tokens of the lines of `s` from `line_start` on; `seen` records whether
/// the card's own first line has been passed.
pub open spec fn lex_lines(s: Seq<u8>, kind: CardKind, line_start: int, seen: bool) -> Seq<Token>
    decreases s.len() - line_start,
{
    if line_start < 0 || line_start >= s.len() {
        Seq::empty()
    } else {
        proof {
            lemma_line_end(s, line_start);
        }
        let end = spec_line_end(s, line_start);
        let line = s.subrange(line_start, end);
        if spec_is_comment_line(line) {
            seq![tok(SyntaxKind::Comment, line_start, spec_strip_len(line))] + lex_lines(
                s,
                kind,
                end,
                seen,
            )
        } else if !seen && kind == CardKind::Data && spec_free_text_mnemonic_len(
            s,
            line_start,
            end,
        ) is Some {
            free_text_tokens(s, line_start, end, spec_free_text_mnemonic_len(s, line_start, end)->0)
                + lex_lines(s, kind, end, true)
        } else {
            lex_line_from(s, line_start, end, line_start) + lex_lines(s, kind, end, true)
        }
    }
}

/// The tokens of a card's text. Title, message and blank cards are opaque and
/// have none.
pub open spec fn spec_lex(s: Seq<u8>, kind: CardKind) -> Seq<Token> {
    if kind == CardKind::Title || kind == CardKind::Message || kind == CardKind::Blank {
        Seq::empty()
    } else {
        lex_lines(s, kind, 0, false)
    }
}

/// The input limits of the lexer: token offsets are `u32`.
pub open spec fn lexable(n: int) -> bool {
    n <= u32::MAX
}

proof fn lemma_tok_within(kind: SyntaxKind, start: int, len: int, lo: int, hi: int)
    requires
        lo <= start,
        0 <= start,
        0 <= len,
        start + len <= hi <= u32::MAX,
    ensures
        tokens_within(seq![tok(kind, start, len)], lo, hi),
{
    let t = tok(kind, start, len);
    assert(t.start == start && t.len == len);
}

proof fn lemma_lex_line_within(s: Seq<u8>, from: int, to: int, i: int)
    requires
        0 <= from <= i <= to <= s.len() <= u32::MAX,
    ensures
        tokens_within(lex_line_from(s, from, to, i), i, to),
    decreases to - i,
{
    if i < to {
        let b = s[i];
        if b == 32u8 || b == 9u8 || b == 13u8 || b == 10u8 {
            lemma_lex_line_within(s, from, to, i + 1);
        } else if b == 36u8 {
            let e = content_end_of(s, from, to);
            let end = if i < e <= to {
                e
            } else {
                i + 1
            };
            lemma_lex_line_within(s, from, to, end);
            lemma_tok_within(SyntaxKind::Comment, i, end - i, i, end);
            lemma_tokens_within_concat(
                seq![tok(SyntaxKind::Comment, i, end - i)],
                lex_line_from(s, from, to, end),
                i,
                end,
                to,
            );
        } else if b == 38u8 {
            lemma_lex_line_within(s, from, to, i + 1);
            lemma_tok_within(SyntaxKind::Ampersand, i, 1, i, i + 1);
            lemma_tokens_within_concat(
                seq![tok(SyntaxKind::Ampersand, i, 1)],
                lex_line_from(s, from, to, i + 1),
                i,
                i + 1,
                to,
            );
        } else if punct_kind(b) is Some {
            lemma_lex_line_within(s, from, to, i + 1);
            lemma_tok_within(punct_kind(b)->0, i, 1, i, i + 1);
            lemma_tokens_within_concat(
                seq![tok(punct_kind(b)->0, i, 1)],
                lex_line_from(s, from, to, i + 1),
                i,
                i + 1,
                to,
            );
        } else {
            let e = word_end(s, i, to);
            let end = if i < e <= to {
                e
            } else {
                i + 1
            };
            let k = spec_classify_word(s.subrange(i, end));
            lemma_lex_line_within(s, from, to, end);
            lemma_tok_within(k, i, end - i, i, end);
            lemma_tokens_within_concat(
                seq![tok(k, i, end - i)],
                lex_line_from(s, from, to, end),
                i,
                end,
                to,
            );
        }
    }
}

proof fn lemma_skip_blanks(s: Seq<u8>, i: int, to: int)
    requires
        0 <= i <= to <= s.len(),
    ensures
        i <= skip_blanks(s, i, to) <= to,
    decreases to - i,
{
    if i < to && spec_is_space(s[i]) {
        lemma_skip_blanks(s, i + 1, to);
    }
}

proof fn lemma_lex_lines_within(s: Seq<u8>, kind: CardKind, ls: int, seen: bool)
    requires
        0 <= ls <= s.len() <= u32::MAX,
    ensures
        tokens_within(lex_lines(s, kind, ls, seen), ls, s.len() as int),
    decreases s.len() - ls,
{
    if ls < s.len() {
        lemma_line_end(s, ls);
        let end = spec_line_end(s, ls);
        let line = s.subrange(ls, end);
        if spec_is_comment_line(line) {
            lemma_lex_lines_within(s, kind, end, seen);
            lemma_tok_within(SyntaxKind::Comment, ls, spec_strip_len(line), ls, end);
            lemma_tokens_within_concat(
                seq![tok(SyntaxKind::Comment, ls, spec_strip_len(line))],
                lex_lines(s, kind, end, seen),
                ls,
                end,
                s.len() as int,
            );
        } else if !seen && kind == CardKind::Data && spec_free_text_mnemonic_len(s, ls, end) is Some {
            let m = spec_free_text_mnemonic_len(s, ls, end)->0;
            lemma_word_end(s, ls, end);
            lemma_skip_blanks(s, ls + m, end);
            let i = skip_blanks(s, ls + m, end);
            let body_len = spec_strip_len(s.subrange(i, end));
            lemma_lex_lines_within(s, kind, end, true);
            lemma_tok_within(SyntaxKind::Ident, ls, m, ls, ls + m);
            if body_len > 0 {
                lemma_tok_within(SyntaxKind::Comment, i, body_len, ls + m, end);
                lemma_tokens_within_concat(
                    seq![tok(SyntaxKind::Ident, ls, m)],
                    seq![tok(SyntaxKind::Comment, i, body_len)],
                    ls,
                    ls + m,
                    end,
                );
                assert(free_text_tokens(s, ls, end, m) =~= seq![tok(SyntaxKind::Ident, ls, m)]
                    + seq![tok(SyntaxKind::Comment, i, body_len)]);
            }
            lemma_tokens_within_concat(
                free_text_tokens(s, ls, end, m),
                lex_lines(s, kind, end, true),
                ls,
                end,
                s.len() as int,
            );
        } else {
            lemma_lex_line_within(s, ls, end, ls);
            lemma_lex_lines_within(s, kind, end, true);
            lemma_tokens_within_concat(
                lex_line_from(s, ls, end, ls),
                lex_lines(s, kind, end, true),
                ls,
                end,
                s.len() as int,
            );
        }
    }
}

/// Every token the lexer produces lies inside the text, in order and without
/// overlap: tokens index the card's bytes.
pub proof fn lemma_lex_tokens_wf(s: Seq<u8>, kind: CardKind)
    requires
        s.len() <= u32::MAX,
    ensures
        tokens_wf(spec_lex(s, kind), s.len() as int),
{
    if !(kind == CardKind::Title || kind == CardKind::Message || kind == CardKind::Blank) {
        lemma_lex_lines_within(s, kind, 0, false);
    }
}

/// Tokenize the bytes of one card's text.
pub fn lex_bytes(src: &[u8], kind: CardKind) -> (r: Vec<Token>)
    requires
        lexable(src@.len() as int),
    ensures
        r@ == spec_lex(src@, kind),
        tokens_wf(r@, src@.len() as int),
{
    proof {
        lemma_lex_tokens_wf(src@, kind);
    }
    let mut tokens: Vec<Token> = Vec::new();
    match kind {
        CardKind::Title | CardKind::Message | CardKind::Blank => {
            return tokens;
        },
        _ => {},
    }
    let mut line_start: usize = 0;
    let mut seen_content_line = false;
    while line_start < src.len()
        invariant
            line_start <= src@.len(),
            lexable(src@.len() as int),
            !(kind == CardKind::Title || kind == CardKind::Message || kind == CardKind::Blank),
            tokens@ + lex_lines(src@, kind, line_start as int, seen_content_line) == spec_lex(
                src@,
                kind,
            ),
        decreases src@.len() - line_start,
    {
        let end = line_end(src, line_start);
        let line = vstd::slice::slice_subrange(src, line_start, end);
        let ghost before = tokens@;
        if is_comment_line(line) {
            let body_len = strip_eol(line).len();
            tokens.push(Token::new(SyntaxKind::Comment, line_start, body_len));
            proof {
                assert(before + lex_lines(src@, kind, line_start as int, seen_content_line)
                    =~= tokens@ + lex_lines(src@, kind, end as int, seen_content_line));
            }
            line_start = end;
            continue;
        }
        if !seen_content_line && kind == CardKind::Data {
            if let Some(mnemonic_len) = free_text_mnemonic_len(src, line_start, end) {
                proof {
                    lemma_word_end(src@, line_start as int, end as int);
                }
                tokens.push(Token::new(SyntaxKind::Ident, line_start, mnemonic_len));
                let mut i = line_start + mnemonic_len;
                while i < end && is_space(src[i])
                    invariant
                        line_start + mnemonic_len <= i <= end <= src@.len(),
                        skip_blanks(src@, line_start + mnemonic_len, end as int) == skip_blanks(
                            src@,
                            i as int,
                            end as int,
                        ),
                    decreases end - i,
                {
                    i = i + 1;
                }
                let rest = vstd::slice::slice_subrange(src, i, end);
                let body_len = strip_eol(rest).len();
                if body_len > 0 {
                    tokens.push(Token::new(SyntaxKind::Comment, i, body_len));
                }
                proof {
                    assert(before + lex_lines(src@, kind, line_start as int, seen_content_line)
                        =~= tokens@ + lex_lines(src@, kind, end as int, true));
                }
                line_start = end;
                seen_content_line = true;
                continue;
            }
        }
        let ghost before2 = tokens@;
        lex_line(src, line_start, end, &mut tokens);
        proof {
            assert(before + lex_lines(src@, kind, line_start as int, seen_content_line) =~= tokens@
                + lex_lines(src@, kind, end as int, true));
        }
        line_start = end;
        seen_content_line = true;
    }
    proof {
        assert(tokens@ + lex_lines(src@, kind, line_start as int, seen_content_line) =~= tokens@);
    }
    tokens
}

/// Tokenize one card's text. Title, message and blank cards get no tokens.
pub fn lex(text: &str, kind: CardKind) -> (r: Vec<Token>)
    requires
        lexable(text.spec_bytes().len() as int),
    ensures
        r@ == spec_lex(text.spec_bytes(), kind),
{
    lex_bytes(text.as_bytes(), kind)
}

} // verus!
