//! The lossless crunchy syntax tree and the parser that builds it.
//!
//! Tokens tile the source with no gaps; token `i` covers
//! `src[tok_start[i] .. tok_start[i + 1]]`, with a trailing sentinel equal to
//! the source length. Cards are the logical lines (a starting line, its
//! continuations and trailing trivia lines); each owns a contiguous token
//! range, and the cards tile the token stream. A token's text can be
//! overridden without touching the source; re-emission prefers the override.

use vstd::prelude::*;
use vstd::string::StringSliceAdditionalSpecFns;
use vstd::utf8::encode_utf8;
use std::collections::HashMap;
use crate::crunchy::diagnostics::{Diagnostic, Span};
use crate::crunchy::lexer::{lex, law_lex_tiles_input, spec_lex, tiles, Lexeme};
use crate::crunchy::syntax_kind::{spec_is_card, spec_is_trivia, SyntaxKind};
use crate::decimal::{fmt_int, int_text};

verus! {

/// Classification of a physical line.
#[derive(Debug, Clone, Copy, PartialEq, Eq, Structural)]
pub enum LineClass {
    /// Only whitespace: a block delimiter.
    Blank,
    /// A `c` comment card or a `$` comment, no meaningful content.
    Comment,
    /// Has at least one meaningful token.
    Content,
}

/// One physical line.
#[derive(Debug, Clone, Copy, PartialEq, Eq, Structural)]
pub struct LineInfo {
    pub first_tok: u32,
    pub tok_end: u32,
    pub class: LineClass,
    /// Leading blank columns (tabs expanded) before the first token.
    pub leading_cols: u32,
    /// The last meaningful token of the line is `&`.
    pub ends_with_amp: bool,
}

/// One past the line's `NEWLINE` token from token `i`, or the token count.
pub open spec fn line_end_tok(ks: Seq<SyntaxKind>, i: int) -> int
    decreases ks.len() - i,
{
    if i < 0 || i >= ks.len() {
        ks.len() as int
    } else if ks[i] == SyntaxKind::NEWLINE {
        i + 1
    } else {
        line_end_tok(ks, i + 1)
    }
}

pub proof fn lemma_line_end_tok(ks: Seq<SyntaxKind>, i: int)
    requires
        0 <= i < ks.len(),
    ensures
        i < line_end_tok(ks, i) <= ks.len(),
    decreases ks.len() - i,
{
    if ks[i] != SyntaxKind::NEWLINE {
        if i + 1 < ks.len() {
            lemma_line_end_tok(ks, i + 1);
        } else {
            assert(line_end_tok(ks, i + 1) == ks.len());
        }
    }
}

/// Some token in `[a, j)` is meaningful.
pub open spec fn any_content(ks: Seq<SyntaxKind>, a: int, j: int) -> bool
    decreases j - a,
{
    if j <= a {
        false
    } else {
        any_content(ks, a, j - 1) || !spec_is_trivia(ks[j - 1])
    }
}

/// Some token in `[a, j)` is a comment.
pub open spec fn any_comment(ks: Seq<SyntaxKind>, a: int, j: int) -> bool
    decreases j - a,
{
    if j <= a {
        false
    } else {
        any_comment(ks, a, j - 1) || ks[j - 1] == SyntaxKind::COMMENT_LINE || ks[j - 1]
            == SyntaxKind::DOLLAR_COMMENT
    }
}

/// The kind of the last meaningful token in `[a, j)`.
pub open spec fn last_meaningful(ks: Seq<SyntaxKind>, a: int, j: int) -> Option<SyntaxKind>
    decreases j - a,
{
    if j <= a {
        None
    } else if !spec_is_trivia(ks[j - 1]) {
        Some(ks[j - 1])
    } else {
        last_meaningful(ks, a, j - 1)
    }
}

/// Blank columns before the first token from byte `i`, tabs to the next
/// multiple of 8 and a byte-order mark taking no column.
pub open spec fn lead_cols(s: Seq<u8>, i: int, col: int) -> int
    decreases s.len() - i,
{
    if i < 0 || i >= s.len() {
        col
    } else if s[i] == 32u8 {
        lead_cols(s, i + 1, col + 1)
    } else if s[i] == 9u8 {
        lead_cols(s, i + 1, (col / 8 + 1) * 8)
    } else if s[i] == 0xEFu8 && i + 2 < s.len() && s[i + 1] == 0xBBu8 && s[i + 2] == 0xBFu8 {
        lead_cols(s, i + 3, col)
    } else {
        col
    }
}

pub open spec fn line_class(ks: Seq<SyntaxKind>, a: int, e: int) -> LineClass {
    if any_content(ks, a, e) {
        LineClass::Content
    } else if any_comment(ks, a, e) {
        LineClass::Comment
    } else {
        LineClass::Blank
    }
}

/// A count held in a `u32`, saturating at its largest value.
pub open spec fn cap_u32(n: int) -> u32 {
    if n <= u32::MAX {
        n as u32
    } else {
        u32::MAX
    }
}

/// The lines of a token stream from token `i` on.
pub open spec fn lines_from(ks: Seq<SyntaxKind>, starts: Seq<u32>, s: Seq<u8>, i: int) -> Seq<
    LineInfo,
>
    decreases ks.len() - i,
{
    if i < 0 || i >= ks.len() {
        Seq::empty()
    } else {
        let e = line_end_tok(ks, i);
        if e <= i || e > ks.len() {
            Seq::empty()
        } else {
            seq![
                LineInfo {
                    first_tok: i as u32,
                    tok_end: e as u32,
                    class: line_class(ks, i, e),
                    leading_cols: cap_u32(lead_cols(s, starts[i] as int, 0)),
                    ends_with_amp: last_meaningful(ks, i, e) == Some(SyntaxKind::AMP),
                },
            ] + lines_from(ks, starts, s, e)
        }
    }
}

proof fn lemma_lead_cols_bound(s: Seq<u8>, i: int, col: int)
    requires
        0 <= i,
        0 <= col,
    ensures
        col <= lead_cols(s, i, col) <= col + 8 * (if i < s.len() {
            s.len() - i
        } else {
            0
        }),
    decreases s.len() - i,
{
    if 0 <= i < s.len() {
        if s[i] == 32u8 {
            lemma_lead_cols_bound(s, i + 1, col + 1);
        } else if s[i] == 9u8 {
            assert((col / 8 + 1) * 8 <= col + 8);
            assert((col / 8 + 1) * 8 >= col);
            lemma_lead_cols_bound(s, i + 1, (col / 8 + 1) * 8);
        } else if s[i] == 0xEFu8 && i + 2 < s.len() && s[i + 1] == 0xBBu8 && s[i + 2] == 0xBFu8 {
            lemma_lead_cols_bound(s, i + 3, col);
        }
    }
}

/// Leading blank columns from byte `start`, tabs expanded to the next
/// multiple of 8, saturating at `u32::MAX` (only whether a line starts
/// past column five is ever asked).
fn leading_columns(src: &[u8], start: usize) -> (r: u32)
    requires
        src@.len() <= u32::MAX,
    ensures
        r == cap_u32(lead_cols(src@, start as int, 0)),
{
    let mut col: u64 = 0;
    let mut i = start;
    let mut stop = false;
    proof {
        lemma_lead_cols_bound(src@, start as int, 0);
    }
    while !stop && i < src.len()
        invariant
            src@.len() <= u32::MAX,
            lead_cols(src@, start as int, 0) == lead_cols(src@, i as int, col as int),
            col <= 8 * (if i <= src@.len() { i } else { src@.len() as usize }),
            stop ==> lead_cols(src@, i as int, col as int) == col,
        decreases src@.len() - i + (if stop { 0int } else { 1int }),
    {
        let b = src[i];
        if b == 32u8 {
            col = col + 1;
            i = i + 1;
        } else if b == 9u8 {
            col = (col / 8 + 1) * 8;
            i = i + 1;
        } else if b == 0xEFu8 && src.len() - i > 2 && src[i + 1] == 0xBBu8 && src[i + 2] == 0xBFu8 {
            i = i + 3;
        } else {
            stop = true;
        }
    }
    if col <= 0xFFFF_FFFFu64 {
        col as u32
    } else {
        0xFFFF_FFFFu32
    }
}

/// Split the token stream into physical lines.
fn split_lines(tok_kind: &[SyntaxKind], tok_start: &[u32], src: &[u8]) -> (r: Vec<LineInfo>)
    requires
        tok_start@.len() == tok_kind@.len() + 1,
        tok_kind@.len() <= u32::MAX,
        src@.len() <= u32::MAX,
    ensures
        r@ == lines_from(tok_kind@, tok_start@, src@, 0),
{
    let n = tok_kind.len();
    let ghost ks = tok_kind@;
    let ghost full = lines_from(ks, tok_start@, src@, 0);
    let mut lines: Vec<LineInfo> = Vec::new();
    let mut i: usize = 0;
    while i < n
        invariant
            ks == tok_kind@,
            n == ks.len(),
            n <= u32::MAX,
            tok_start@.len() == n + 1,
            src@.len() <= u32::MAX,
            full == lines_from(ks, tok_start@, src@, 0),
            i <= n,
            lines@ + lines_from(ks, tok_start@, src@, i as int) == full,
        decreases n - i,
    {
        let first = i;
        let mut has_content = false;
        let mut has_comment = false;
        let mut last: Option<SyntaxKind> = None;
        let mut done = false;
        proof {
            lemma_line_end_tok(ks, first as int);
        }
        while !done && i < n
            invariant
                ks == tok_kind@,
                n == ks.len(),
                first < n,
                first <= i <= n,
                !done ==> line_end_tok(ks, first as int) == line_end_tok(ks, i as int),
                done ==> line_end_tok(ks, first as int) == i,
                has_content == any_content(ks, first as int, i as int),
                has_comment == any_comment(ks, first as int, i as int),
                last == last_meaningful(ks, first as int, i as int),
            decreases n - i + (if done {
                0int
            } else {
                1int
            }),
        {
            let k = tok_kind[i];
            if k == SyntaxKind::NEWLINE {
                done = true;
            } else if k == SyntaxKind::COMMENT_LINE || k == SyntaxKind::DOLLAR_COMMENT {
                has_comment = true;
            } else if !k.is_trivia() {
                has_content = true;
                last = Some(k);
            }
            i = i + 1;
        }
        let class = if has_content {
            LineClass::Content
        } else if has_comment {
            LineClass::Comment
        } else {
            LineClass::Blank
        };
        let leading_cols = leading_columns(src, tok_start[first] as usize);
        let l = LineInfo {
            first_tok: first as u32,
            tok_end: i as u32,
            class,
            leading_cols,
            ends_with_amp: last == Some(SyntaxKind::AMP),
        };
        proof {
            assert(lines@.push(l) + lines_from(ks, tok_start@, src@, i as int) =~= lines@ + lines_from(
                ks,
                tok_start@,
                src@,
                first as int,
            ));
        }
        lines.push(l);
    }
    proof {
        assert(lines@ + Seq::<LineInfo>::empty() =~= lines@);
    }
    lines
}


/// A card node: a kind plus the contiguous token range `[first_tok, tok_end)`.
#[derive(Debug, Clone, Copy, PartialEq, Eq, Structural)]
pub struct Card {
    pub kind: SyntaxKind,
    pub first_tok: u32,
    pub tok_end: u32,
}

/// The block a line belongs to.
#[derive(Debug, Clone, Copy, PartialEq, Eq, Structural)]
pub enum Section {
    Title,
    Cell,
    Surface,
    Data,
}

pub open spec fn spec_section_card_kind(sec: Section) -> SyntaxKind {
    match sec {
        Section::Title => SyntaxKind::TITLE_CARD,
        Section::Cell => SyntaxKind::CELL_CARD,
        Section::Surface => SyntaxKind::SURFACE_CARD,
        Section::Data => SyntaxKind::DATA_CARD,
    }
}

fn section_card_kind(sec: Section) -> (r: SyntaxKind)
    ensures
        r == spec_section_card_kind(sec),
{
    match sec {
        Section::Title => SyntaxKind::TITLE_CARD,
        Section::Cell => SyntaxKind::CELL_CARD,
        Section::Surface => SyntaxKind::SURFACE_CARD,
        Section::Data => SyntaxKind::DATA_CARD,
    }
}

/// The first blank line at or after line `from`.
pub open spec fn first_blank(lines: Seq<LineInfo>, from: int) -> Option<int>
    decreases lines.len() - from,
{
    if from < 0 || from >= lines.len() {
        None
    } else if lines[from].class == LineClass::Blank {
        Some(from)
    } else {
        first_blank(lines, from + 1)
    }
}

/// The two blank lines after the title that end the cell and surface blocks.
pub open spec fn delimiters(lines: Seq<LineInfo>) -> (Option<int>, Option<int>) {
    let b1 = first_blank(lines, 1);
    let b2 = match b1 {
        Some(b) => first_blank(lines, b + 1),
        None => None,
    };
    (b1, b2)
}

/// The block of line `idx`: the first line is the title; the cell block runs
/// to the first delimiter, the surface block to the second.
pub open spec fn section_of(idx: int, d: (Option<int>, Option<int>)) -> Section {
    if idx == 0 {
        Section::Title
    } else if d.0 is None || idx < d.0->0 {
        Section::Cell
    } else if d.1 is None || idx < d.1->0 {
        Section::Surface
    } else {
        Section::Data
    }
}

/// Close the open card, if any, at token `end`.
pub open spec fn close(cards: Seq<Card>, cur: Option<(SyntaxKind, u32)>, end: u32) -> Seq<Card> {
    match cur {
        Some((kind, first)) => cards.push(Card { kind, first_tok: first, tok_end: end }),
        None => cards,
    }
}

/// The last card grown to end at token `end`: where trivia lines that follow
/// a closed card go, so that the cards tile the token stream.
pub open spec fn extend_last(cards: Seq<Card>, end: u32) -> Seq<Card> {
    if cards.len() > 0 {
        cards.update(cards.len() - 1, Card { tok_end: end, ..cards.last() })
    } else {
        cards
    }
}

/// The grouping state after one more line: the cards so far, the open card,
/// and whether the last content line ended with `&`.
#[verifier::opaque]
pub open spec fn card_step(
    st: (Seq<Card>, Option<(SyntaxKind, u32)>, bool),
    idx: int,
    l: LineInfo,
    d: (Option<int>, Option<int>),
) -> (Seq<Card>, Option<(SyntaxKind, u32)>, bool) {
    if idx == 0 {
        (close(st.0, st.1, l.first_tok), Some((SyntaxKind::TITLE_CARD, l.first_tok)), l.ends_with_amp)
    } else {
        match l.class {
            LineClass::Blank => if st.1 is Some {
                (close(st.0, st.1, l.tok_end), None, false)
            } else {
                (extend_last(st.0, l.tok_end), None, false)
            },
            LineClass::Comment => if st.1 is Some {
                st
            } else {
                (extend_last(st.0, l.tok_end), None, st.2)
            },
            LineClass::Content => if st.1 is Some && (l.leading_cols >= 5 || st.2) {
                (st.0, st.1, l.ends_with_amp)
            } else {
                (
                    close(st.0, st.1, l.first_tok),
                    Some((spec_section_card_kind(section_of(idx, d)), l.first_tok)),
                    l.ends_with_amp,
                )
            },
        }
    }
}

/// The grouping state after the first `m` lines.
pub open spec fn card_state(lines: Seq<LineInfo>, m: int, d: (Option<int>, Option<int>)) -> (
    Seq<Card>,
    Option<(SyntaxKind, u32)>,
    bool,
)
    decreases m,
{
    if m <= 0 {
        (Seq::empty(), None, false)
    } else {
        card_step(card_state(lines, m - 1, d), m - 1, lines[m - 1], d)
    }
}

/// The cards of a file: lines grouped into logical lines. A content line
/// continues the open card when it is indented five columns or more or the
/// previous content line ended with `&`; a blank line closes the open card
/// and delimits blocks; comment lines attach to the card around them, and
/// blank or comment lines after a closed card become its trailing trivia.
pub open spec fn spec_build_cards(lines: Seq<LineInfo>, n_tok: u32) -> Seq<Card> {
    if lines.len() == 0 {
        Seq::empty()
    } else {
        let st = card_state(lines, lines.len() as int, delimiters(lines));
        close(st.0, st.1, n_tok)
    }
}

/// Whether both block delimiters were found, and the warning when not.
pub open spec fn delimiter_message(found: int) -> Seq<char> {
    if found == 0 {
        "expected two blank-line delimiters (cell|surface|data); found 0"@
    } else {
        "expected two blank-line delimiters (cell|surface|data); found 1"@
    }
}

/// The delimiters of `lines`, found by a scan.
fn find_delimiters(lines: &[LineInfo]) -> (r: (Option<usize>, Option<usize>))
    ensures
        (match r.0 {
            Some(b) => Some(b as int),
            None => None::<int>,
        }) == delimiters(lines@).0,
        (match r.1 {
            Some(b) => Some(b as int),
            None => None::<int>,
        }) == delimiters(lines@).1,
{
    let mut blank1: Option<usize> = None;
    let mut blank2: Option<usize> = None;
    let mut idx: usize = 1;
    let ghost ls = lines@;
    while idx < lines.len() && blank2.is_none()
        invariant
            ls == lines@,
            1 <= idx,
            idx <= ls.len() || ls.len() == 0,
            blank1 is None ==> first_blank(ls, 1) == first_blank(ls, idx as int),
            blank1 is Some ==> first_blank(ls, 1) == Some(blank1->0 as int) && blank1->0 < idx
                && (blank2 is None ==> first_blank(ls, blank1->0 + 1) == first_blank(
                ls,
                idx as int,
            )) && (blank2 is Some ==> first_blank(ls, blank1->0 + 1) == Some(blank2->0 as int)),
            blank1 is None ==> blank2 is None,
        decreases ls.len() - idx,
    {
        if lines[idx].class == LineClass::Blank {
            if blank1.is_none() {
                blank1 = Some(idx);
            } else {
                blank2 = Some(idx);
            }
        }
        idx = idx + 1;
    }
    proof {
        if blank1 is None && ls.len() > 0 {
            assert(first_blank(ls, idx as int) is None);
        }
        if blank1 is Some && blank2 is None {
            assert(first_blank(ls, idx as int) is None);
        }
    }
    (blank1, blank2)
}

fn close_card(cards: &mut Vec<Card>, cur: Option<(SyntaxKind, u32)>, end: u32)
    ensures
        final(cards)@ == close(old(cards)@, cur, end),
{
    match cur {
        Some((kind, first)) => {
            cards.push(Card { kind, first_tok: first, tok_end: end });
        },
        None => {},
    }
}

fn extend_last_card(cards: &mut Vec<Card>, end: u32)
    ensures
        final(cards)@ == extend_last(old(cards)@, end),
{
    let n = cards.len();
    if n > 0 {
        let c = cards[n - 1];
        cards.set(n - 1, Card { kind: c.kind, first_tok: c.first_tok, tok_end: end });
    }
}

/// Group lines into cards, reporting when the two block delimiters are
/// missing.
fn build_cards(lines: &[LineInfo], n_tok: u32, src_len: u32, diagnostics: &mut Vec<Diagnostic>) -> (r: Vec<Card>)
    ensures
        r@ == spec_build_cards(lines@, n_tok),
        ({
            let d = delimiters(lines@);
            if lines@.len() > 0 && (d.0 is None || d.1 is None) {
                &&& final(diagnostics)@.len() == old(diagnostics)@.len() + 1
                &&& final(diagnostics)@.subrange(0, old(diagnostics)@.len() as int) == old(diagnostics)@
                &&& final(diagnostics)@.last().span == Span {
                    start: 0,
                    end: if src_len < 1 {
                        src_len
                    } else {
                        1
                    },
                }
                &&& final(diagnostics)@.last().severity == crate::crunchy::diagnostics::Severity::Warning
                &&& final(diagnostics)@.last().message@ == delimiter_message(
                    if d.0 is Some {
                        1
                    } else {
                        0
                    },
                )
            } else {
                final(diagnostics)@ == old(diagnostics)@
            }
        }),
{
    proof {
        reveal(card_step);
    }
    let mut cards: Vec<Card> = Vec::new();
    if lines.len() == 0 {
        return cards;
    }
    let (blank1, blank2) = find_delimiters(lines);
    let ghost d = delimiters(lines@);
    if blank1.is_none() || blank2.is_none() {
        let span = Span::new(0, if src_len < 1 {
            src_len
        } else {
            1
        });
        let msg = if blank1.is_some() {
            "expected two blank-line delimiters (cell|surface|data); found 1"
        } else {
            "expected two blank-line delimiters (cell|surface|data); found 0"
        };
        proof {
            reveal_strlit("expected two blank-line delimiters (cell|surface|data); found 1");
            reveal_strlit("expected two blank-line delimiters (cell|surface|data); found 0");
        }
        diagnostics.push(Diagnostic::warning(span, msg));
    }
    let mut cur: Option<(SyntaxKind, u32)> = None;
    let mut prev_amp = false;
    let mut idx: usize = 0;
    while idx < lines.len()
        invariant
            idx <= lines@.len(),
            d == delimiters(lines@),
            (match blank1 {
                Some(b) => Some(b as int),
                None => None::<int>,
            }) == d.0,
            (match blank2 {
                Some(b) => Some(b as int),
                None => None::<int>,
            }) == d.1,
            (cards@, cur, prev_amp) == card_state(lines@, idx as int, d),
        decreases lines@.len() - idx,
    {
        proof {
            reveal(card_step);
        }
        let l = lines[idx];
        if idx == 0 {
            close_card(&mut cards, cur, l.first_tok);
            cur = Some((SyntaxKind::TITLE_CARD, l.first_tok));
            prev_amp = l.ends_with_amp;
        } else {
            match l.class {
                LineClass::Blank => {
                    if cur.is_some() {
                        close_card(&mut cards, cur, l.tok_end);
                    } else {
                        extend_last_card(&mut cards, l.tok_end);
                    }
                    cur = None;
                    prev_amp = false;
                },
                LineClass::Comment => {
                    if cur.is_none() {
                        extend_last_card(&mut cards, l.tok_end);
                    }
                },
                LineClass::Content => {
                    let cont = cur.is_some() && (l.leading_cols >= 5 || prev_amp);
                    if !cont {
                        close_card(&mut cards, cur, l.first_tok);
                        let sec = if blank1.is_none() || idx < blank1.unwrap() {
                            Section::Cell
                        } else if blank2.is_none() || idx < blank2.unwrap() {
                            Section::Surface
                        } else {
                            Section::Data
                        };
                        cur = Some((section_card_kind(sec), l.first_tok));
                    }
                    prev_amp = l.ends_with_amp;
                },
            }
        }
        idx = idx + 1;
    }
    close_card(&mut cards, cur, n_tok);
    cards
}


/// Token `k` of a tiling of `[i, n)` ends where token `k + 1` starts (the
/// last one at `n`).
pub proof fn lemma_tiles_at(ts: Seq<Lexeme>, i: int, n: int, k: int)
    requires
        tiles(ts, i, n),
        0 <= k < ts.len(),
    ensures
        i <= ts[k].start,
        ts[k].start + ts[k].len == (if k + 1 < ts.len() {
            ts[k + 1].start as int
        } else {
            n
        }),
        ts[k].start + ts[k].len <= n,
    decreases k,
{
    let rest = ts.drop_first();
    assert(tiles(rest, i + ts[0].len, n));
    crate::crunchy::flat::lemma_tiles_within(rest, i + ts[0].len, n);
    if rest.len() == 0 {
        assert(i + ts[0].len == n);
    } else {
        assert(rest[0].start == i + ts[0].len);
    }
    if k > 0 {
        lemma_tiles_at(rest, i + ts[0].len, n, k - 1);
        assert(ts[k] == rest[k - 1]);
        if k + 1 < ts.len() {
            assert(ts[k + 1] == rest[k]);
        }
    } else if ts.len() > 1 {
        assert(ts[1] == rest[0]);
    }
}

/// The cards of a token stream: its lines grouped into logical lines.
#[verifier::opaque]
pub open spec fn cards_of(
    cards: Seq<Card>,
    ks: Seq<SyntaxKind>,
    starts: Seq<u32>,
    s: Seq<u8>,
) -> bool {
    cards == spec_build_cards(lines_from(ks, starts, s, 0), ks.len() as u32)
}

/// A lossless syntax tree over an owned source string.
pub struct GreenTree {
    src: String,
    tok_kind: Vec<SyntaxKind>,
    /// Token start offsets, with a trailing sentinel equal to the source
    /// length.
    tok_start: Vec<u32>,
    /// Card nodes in source order; they tile the token stream.
    cards: Vec<Card>,
    /// Per-token text overrides (empty until the first edit).
    overrides: HashMap<u32, Vec<u8>>,
    toks: Ghost<Seq<Lexeme>>,
}

/// The largest source the tree handles: token offsets are 32-bit.
pub open spec fn parsable(n: int) -> bool {
    n <= u32::MAX
}

impl GreenTree {
    /// The source bytes.
    pub closed spec fn spec_src(&self) -> Seq<u8> {
        encode_utf8(self.src@)
    }

    /// The tokens of the source.
    pub closed spec fn spec_tokens(&self) -> Seq<Lexeme> {
        self.toks@
    }

    pub closed spec fn spec_cards(&self) -> Seq<Card> {
        self.cards@
    }

    pub closed spec fn spec_overrides(&self) -> Map<u32, Vec<u8>> {
        self.overrides@
    }

    /// Start offset of token `i` (the source length for `i` = token count).
    pub closed spec fn spec_start(&self, i: int) -> int {
        self.tok_start@[i] as int
    }

    pub closed spec fn wf(&self) -> bool {
        &&& parsable(self.spec_src().len() as int)
        &&& self.toks@ == spec_lex(self.spec_src())
        &&& self.tok_kind@.len() == self.toks@.len()
        &&& self.tok_start@.len() == self.toks@.len() + 1
        &&& forall|i: int|
            0 <= i < self.toks@.len() ==> self.tok_kind@[i] == (#[trigger] self.toks@[i]).kind
                && self.tok_start@[i] == self.toks@[i].start && self.tok_start@[i + 1]
                == self.toks@[i].start + self.toks@[i].len
        &&& self.tok_start@[self.toks@.len() as int] == self.spec_src().len()
        &&& self.tok_start@[0] == 0
        &&& cards_of(self.cards@, self.tok_kind@, self.tok_start@, self.spec_src())
    }

    /// What a well-formed tree guarantees to readers: there are no more
    /// tokens than bytes, and the last token ends at the end of the source.
    pub proof fn lemma_wf(&self)
        requires
            self.wf(),
        ensures
            self.spec_start(self.spec_tokens().len() as int) == self.spec_src().len(),
            self.spec_tokens().len() <= self.spec_src().len(),
            self.spec_src().len() <= u32::MAX,
            self.spec_tokens() == spec_lex(self.spec_src()),
            self.spec_start(0) == 0,
            tiles(self.spec_tokens(), 0, self.spec_src().len() as int),
    {
        law_lex_tiles_input(self.spec_src());
        crate::crunchy::flat::lemma_tiles_count(self.toks@, 0, self.spec_src().len() as int);
    }

    /// Token `i`'s span comes from the token itself.
    pub proof fn lemma_start(&self, i: int)
        requires
            self.wf(),
            0 <= i < self.spec_tokens().len(),
        ensures
            self.spec_start(i) == self.spec_tokens()[i].start,
            self.spec_start(i + 1) == self.spec_tokens()[i].start + self.spec_tokens()[i].len,
    {
    }

    /// Token `i`'s span lies in the source.
    pub proof fn lemma_span(&self, i: int)
        requires
            self.wf(),
            0 <= i < self.spec_tokens().len(),
        ensures
            0 <= self.spec_start(i) <= self.spec_start(i + 1) <= self.spec_src().len(),
    {
        law_lex_tiles_input(self.spec_src());
        lemma_tiles_at(self.toks@, 0, self.spec_src().len() as int, i);
    }

    /// The source text of token `i`, ignoring any override.
    pub open spec fn spec_src_text(&self, i: int) -> Seq<u8> {
        self.spec_src().subrange(self.spec_start(i), self.spec_start(i + 1))
    }

    /// The effective text of token `i`: its override if set, else its source.
    pub open spec fn spec_token_text(&self, i: int) -> Seq<u8> {
        if self.spec_overrides().contains_key(i as u32) {
            self.spec_overrides()[i as u32]@
        } else {
            self.spec_src_text(i)
        }
    }

    /// The effective text of the first `m` tokens.
    pub open spec fn spec_emitted(&self, m: int) -> Seq<u8>
        decreases m,
    {
        if m <= 0 {
            Seq::empty()
        } else {
            self.spec_emitted(m - 1) + self.spec_token_text(m - 1)
        }
    }

    /// Number of tokens.
    pub fn token_count(&self) -> (r: usize)
        requires
            self.wf(),
        ensures
            r == self.spec_tokens().len(),
    {
        self.tok_kind.len()
    }

    /// The card nodes, in source order.
    pub fn cards(&self) -> (r: &[Card])
        ensures
            r@ == self.spec_cards(),
    {
        self.cards.as_slice()
    }

    /// The original source.
    pub fn src(&self) -> (r: &str)
        ensures
            r.spec_bytes() == self.spec_src(),
    {
        self.src.as_str()
    }

    /// Kind of token `i`.
    pub fn token_kind(&self, i: u32) -> (r: SyntaxKind)
        requires
            self.wf(),
            i < self.spec_tokens().len(),
        ensures
            r == self.spec_tokens()[i as int].kind,
    {
        self.tok_kind[i as usize]
    }

    /// The original source text of token `i`, ignoring any override.
    pub fn token_src_text(&self, i: u32) -> (r: &[u8])
        requires
            self.wf(),
            i < self.spec_tokens().len(),
        ensures
            r@ == self.spec_src_text(i as int),
    {
        proof {
            self.lemma_wf();
            self.lemma_span(i as int);
        }
        let s = self.tok_start[i as usize] as usize;
        let e = self.tok_start[i as usize + 1] as usize;
        vstd::slice::slice_subrange(self.src.as_str().as_bytes(), s, e)
    }

    /// The effective text of token `i`: its override if set, else its source.
    pub fn token_text(&self, i: u32) -> (r: &[u8])
        requires
            self.wf(),
            i < self.spec_tokens().len(),
        ensures
            r@ == self.spec_token_text(i as int),
    {
        broadcast use vstd::std_specs::hash::group_hash_axioms;
        match self.overrides.get(&i) {
            Some(o) => o.as_slice(),
            None => self.token_src_text(i),
        }
    }

    /// Byte span of token `i` in the original source.
    pub fn token_span(&self, i: u32) -> (r: Span)
        requires
            self.wf(),
            i < self.spec_tokens().len(),
        ensures
            r.start == self.spec_start(i as int),
            r.end == self.spec_start(i + 1),
    {
        proof {
            self.lemma_wf();
        }
        Span::new(self.tok_start[i as usize], self.tok_start[i as usize + 1])
    }

    /// `u` is `self` after one token edit: some token's override text set.
    pub open spec fn token_edit_step(&self, u: GreenTree) -> bool {
        exists|i: u32, v: Seq<u8>| #[trigger] self.spec_texts().insert(i, v) == u.spec_texts()
    }

    /// Override the text of token `i`; the source itself is untouched.
    pub fn set_token_text(&mut self, i: u32, text: &str)
        requires
            old(self).wf(),
        ensures
            final(self).wf(),
            final(self).spec_src() == old(self).spec_src(),
            final(self).spec_tokens() == old(self).spec_tokens(),
            final(self).spec_cards() == old(self).spec_cards(),
            final(self).spec_overrides() == old(self).spec_overrides().insert(
                i,
                final(self).spec_overrides()[i],
            ),
            final(self).spec_overrides()[i]@ == text.spec_bytes(),
            old(self).token_edit_step(*final(self)),
    {
        broadcast use vstd::std_specs::hash::group_hash_axioms;
        let bytes = vstd::slice::slice_to_vec(text.as_bytes());
        self.overrides.insert(i, bytes);
        proof {
            assert(old(self).spec_texts().insert(i, text.spec_bytes()) =~= self.spec_texts());
        }
    }

    /// The override texts, by token.
    pub open spec fn spec_texts(&self) -> Map<u32, Seq<u8>> {
        self.spec_overrides().map_values(|v: Vec<u8>| v@)
    }

    /// Override the text of token `i` with `text`.
    pub fn set_token_bytes(&mut self, i: u32, text: Vec<u8>)
        requires
            old(self).wf(),
        ensures
            final(self).wf(),
            final(self).spec_src() == old(self).spec_src(),
            final(self).spec_tokens() == old(self).spec_tokens(),
            final(self).spec_cards() == old(self).spec_cards(),
            final(self).spec_texts() == old(self).spec_texts().insert(i, text@),
            old(self).token_edit_step(*final(self)),
    {
        broadcast use vstd::std_specs::hash::group_hash_axioms;
        let ghost t = text@;
        self.overrides.insert(i, text);
        proof {
            assert(self.spec_texts() =~= old(self).spec_texts().insert(i, t));
        }
    }

    /// Override the text of token `i` with `v` in decimal.
    pub fn set_token_int(&mut self, i: u32, v: i64)
        requires
            old(self).wf(),
        ensures
            final(self).wf(),
            final(self).spec_src() == old(self).spec_src(),
            final(self).spec_tokens() == old(self).spec_tokens(),
            final(self).spec_cards() == old(self).spec_cards(),
            final(self).spec_texts() == old(self).spec_texts().insert(i, int_text(v as int)),
            old(self).token_edit_step(*final(self)),
    {
        self.set_token_bytes(i, fmt_int(v));
        proof {
            assert(old(self).spec_texts().insert(i, int_text(v as int)) == self.spec_texts());
        }
    }

    /// A token edit leaves the tree edited, and every token that had an
    /// override before still has one after it.
    pub proof fn law_edit_leaves_edited(t: GreenTree, u: GreenTree)
        requires
            t.token_edit_step(u),
        ensures
            !u.spec_overrides().is_empty(),
            t.spec_overrides().dom().subset_of(u.spec_overrides().dom()),
    {
        let (i, v) = choose|i: u32, v: Seq<u8>| #[trigger] t.spec_texts().insert(i, v) == u.spec_texts();
        assert(u.spec_texts().dom().contains(i));
        assert(u.spec_overrides().dom().contains(i));
        assert forall|j: u32| t.spec_overrides().dom().contains(j) implies u.spec_overrides().dom().contains(j) by {
            assert(t.spec_texts().dom().contains(j));
            assert(u.spec_texts().dom().contains(j));
        }
    }

    /// Once a tree has been edited it stays edited: along any run of token
    /// edits, every tree after the first edit reports an edit.
    pub proof fn law_edits_stay_edited(ts: Seq<GreenTree>)
        requires
            forall|k: int| #![trigger ts[k]] 0 <= k < ts.len() - 1 ==> ts[k].token_edit_step(ts[k + 1]),
        ensures
            forall|k: int| 1 <= k < ts.len() ==> !(#[trigger] ts[k].spec_overrides()).is_empty(),
    {
        assert forall|k: int| 1 <= k < ts.len() implies !(#[trigger] ts[k].spec_overrides()).is_empty() by {
            let j = k - 1;
            assert(ts[j].token_edit_step(ts[j + 1]));
            assert(j + 1 == k);
            GreenTree::law_edit_leaves_edited(ts[j], ts[k]);
        }
    }

    /// Whether any edit has been applied.
    pub fn is_edited(&self) -> (r: bool)
        ensures
            r == !self.spec_overrides().is_empty(),
    {
        !self.overrides.is_empty()
    }

    /// The meaningful (non-trivia) token indices of a card, in order.
    pub fn card_content_tokens(&self, card: &Card) -> (r: Vec<u32>)
        requires
            self.wf(),
            card.tok_end <= self.spec_tokens().len(),
        ensures
            r@ == content_tokens(self.spec_tokens(), card.first_tok as int, card.tok_end as int),
    {
        let mut out: Vec<u32> = Vec::new();
        let mut i = card.first_tok;
        let ghost ts = self.toks@;
        while i < card.tok_end
            invariant
                self.wf(),
                ts == self.toks@,
                card.tok_end <= ts.len(),
                card.first_tok <= i,
                i <= card.tok_end || i == card.first_tok,
                out@ == content_tokens(ts, card.first_tok as int, i as int),
            decreases card.tok_end - i,
        {
            proof {
                assert(self.tok_kind@[i as int] == ts[i as int].kind);
            }
            if !self.tok_kind[i as usize].is_trivia() {
                out.push(i);
            }
            i = i + 1;
        }
        proof {
            if card.first_tok >= card.tok_end {
                assert(content_tokens(ts, card.first_tok as int, card.tok_end as int)
                    == Seq::<u32>::empty());
            }
        }
        out
    }

    /// Re-emit the tree, applying any overrides. Byte-for-byte identical to
    /// the input when unedited.
    pub fn to_source(&self) -> (r: Vec<u8>)
        requires
            self.wf(),
        ensures
            r@ == self.spec_emitted(self.spec_tokens().len() as int),
            !self.spec_overrides().is_empty() || r@ == self.spec_src(),
    {
        broadcast use vstd::std_specs::hash::group_hash_axioms;
        let n = self.tok_kind.len();
        proof {
            self.lemma_wf();
        }
        if self.overrides.is_empty() {
            let out = vstd::slice::slice_to_vec(self.src.as_str().as_bytes());
            proof {
                self.lemma_unedited_emits_source(n as int);
            }
            return out;
        }
        let mut out: Vec<u8> = Vec::new();
        let mut i: usize = 0;
        while i < n
            invariant
                self.wf(),
                n == self.spec_tokens().len(),
                n <= u32::MAX,
                i <= n,
                out@ == self.spec_emitted(i as int),
            decreases n - i,
        {
            let t = self.token_text(i as u32);
            crate::bytes::push_range(&mut out, t, 0, t.len());
            proof {
                assert(t@.subrange(0, t@.len() as int) =~= t@);
            }
            i = i + 1;
        }
        out
    }

    /// Without overrides, the first `m` tokens emit the source up to where
    /// token `m` starts.
    pub proof fn lemma_unedited_emits_source(&self, m: int)
        requires
            self.wf(),
            self.spec_overrides().is_empty(),
            0 <= m <= self.spec_tokens().len(),
        ensures
            self.spec_emitted(m) == self.spec_src().subrange(0, self.spec_start(m)),
        decreases m,
    {
        self.lemma_wf();
        if m > 0 {
            self.lemma_unedited_emits_source(m - 1);
            assert(!self.spec_overrides().contains_key((m - 1) as u32));
            self.lemma_span(m - 1);
            assert(self.spec_src().subrange(0, self.spec_start(m - 1)) + self.spec_src_text(m - 1)
                =~= self.spec_src().subrange(0, self.spec_start(m)));
        } else {
            assert(self.spec_src().subrange(0, 0) =~= Seq::<u8>::empty());
        }
    }
}

/// The non-trivia token indices in `[a, j)`.
pub open spec fn content_tokens(ts: Seq<Lexeme>, a: int, j: int) -> Seq<u32>
    decreases j - a,
{
    if j <= a {
        Seq::empty()
    } else {
        let r = content_tokens(ts, a, j - 1);
        if !spec_is_trivia(ts[j - 1].kind) {
            r.push((j - 1) as u32)
        } else {
            r
        }
    }
}

/// Result of parsing: the tree plus any diagnostics.
pub struct Parsed {
    pub tree: GreenTree,
    pub diagnostics: Vec<Diagnostic>,
}

/// The kinds of a token list.
pub open spec fn kinds_of(ts: Seq<Lexeme>) -> Seq<SyntaxKind> {
    Seq::new(ts.len(), |i: int| ts[i].kind)
}

/// The start offsets of a token list, with `n` as a sentinel after them.
pub open spec fn starts_of(ts: Seq<Lexeme>, n: int) -> Seq<u32> {
    Seq::new(ts.len() + 1, |i: int| if i < ts.len() {
        ts[i].start
    } else {
        n as u32
    })
}

/// The physical lines of a source.
pub open spec fn src_lines(s: Seq<u8>) -> Seq<LineInfo> {
    let ts = spec_lex(s);
    lines_from(kinds_of(ts), starts_of(ts, s.len() as int), s, 0)
}

/// The token kinds and start offsets, with the sentinel.
fn token_arrays(toks: &Vec<Lexeme>, n: usize) -> (r: (Vec<SyntaxKind>, Vec<u32>))
    requires
        toks@.len() <= n <= u32::MAX,
    ensures
        r.0@.len() == toks@.len(),
        r.1@.len() == toks@.len() + 1,
        forall|i: int|
            0 <= i < toks@.len() ==> r.0@[i] == (#[trigger] toks@[i]).kind && r.1@[i]
                == toks@[i].start,
        r.1@[toks@.len() as int] == n,
{
    let ghost ts = toks@;
    let mut tok_kind: Vec<SyntaxKind> = Vec::new();
    let mut tok_start: Vec<u32> = Vec::new();
    let mut k: usize = 0;
    while k < toks.len()
        invariant
            ts == toks@,
            ts.len() <= n <= u32::MAX,
            k <= ts.len(),
            tok_kind@.len() == k,
            tok_start@.len() == k,
            forall|i: int|
                0 <= i < k ==> tok_kind@[i] == (#[trigger] ts[i]).kind && tok_start@[i]
                    == ts[i].start,
        decreases ts.len() - k,
    {
        tok_kind.push(toks[k].kind);
        tok_start.push(toks[k].start);
        k = k + 1;
    }
    tok_start.push(n as u32);
    (tok_kind, tok_start)
}

/// What parsing `src` reports: one warning spanning the first byte when the
/// file has lines but lacks a block delimiter, and nothing otherwise.
pub open spec fn parse_diagnostics(ds: Seq<Diagnostic>, src: Seq<u8>) -> bool {
    let lines = src_lines(src);
    let d = delimiters(lines);
    let n = src.len();
    if lines.len() > 0 && (d.0 is None || d.1 is None) {
        &&& ds.len() == 1
        &&& ds[0].severity == crate::crunchy::diagnostics::Severity::Warning
        &&& ds[0].span == Span {
            start: 0,
            end: if n < 1 {
                n as u32
            } else {
                1
            },
        }
        &&& ds[0].message@ == delimiter_message(
            if d.0 is Some {
                1
            } else {
                0
            },
        )
    } else {
        ds.len() == 0
    }
}

/// Parse a whole file, or `None` when it is longer than the lexer's `u32`
/// offsets reach.
pub fn try_parse(src: &str) -> (r: Option<Parsed>)
    ensures
        (r is Some) == parsable(src.spec_bytes().len() as int),
        match r {
            Some(p) => {
                &&& p.tree.wf()
                &&& p.tree.spec_src() == src.spec_bytes()
                &&& p.tree.spec_overrides().is_empty()
                &&& parse_diagnostics(p.diagnostics@, src.spec_bytes())
            },
            None => true,
        },
{
    if src.as_bytes().len() > 0xFFFF_FFFFusize {
        None
    } else {
        Some(parse(src))
    }
}

/// Parse a whole file into a lossless tree with diagnostics. Never fails on
/// malformed input.
#[verifier::rlimit(40)]
pub fn parse(src: &str) -> (r: Parsed)
    requires
        parsable(src.spec_bytes().len() as int),
    ensures
        r.tree.wf(),
        r.tree.spec_src() == src.spec_bytes(),
        r.tree.spec_overrides().is_empty(),
        parse_diagnostics(r.diagnostics@, src.spec_bytes()),
{
    let owned = src.to_owned();
    let bytes = owned.as_str().as_bytes();
    let toks = lex(bytes);
    let ghost ts = toks@;
    proof {
        law_lex_tiles_input(bytes@);
        crate::crunchy::flat::lemma_tiles_count(ts, 0, bytes@.len() as int);
    }
    let (tok_kind, tok_start) = token_arrays(&toks, bytes.len());
    let lines = split_lines(tok_kind.as_slice(), tok_start.as_slice(), bytes);
    proof {
        assert(tok_kind@ =~= kinds_of(ts));
        assert(tok_start@ =~= starts_of(ts, bytes@.len() as int));
        assert(lines@ == src_lines(bytes@));
    }
    let mut diagnostics: Vec<Diagnostic> = Vec::new();
    let cards = build_cards(
        lines.as_slice(),
        tok_kind.len() as u32,
        bytes.len() as u32,
        &mut diagnostics,
    );
    proof {
        reveal(cards_of);
        if ts.len() > 0 {
            assert(tok_start@[0] == ts[0].start);
        }
        assert forall|i: int| 0 <= i < ts.len() implies tok_start@[i + 1] == ts[i].start
            + ts[i].len by {
            lemma_tiles_at(ts, 0, bytes@.len() as int, i);
            if i + 1 < ts.len() {
                assert(tok_start@[i + 1] == ts[i + 1].start);
            }
        }
    }
    let tree = GreenTree {
        src: owned,
        tok_kind,
        tok_start,
        cards,
        overrides: HashMap::new(),
        toks: Ghost(ts),
    };
    Parsed { tree, diagnostics }
}


/// Every line lies in the token stream.
pub proof fn lemma_lines_in_range(ks: Seq<SyntaxKind>, starts: Seq<u32>, s: Seq<u8>, i: int)
    requires
        0 <= i,
        ks.len() <= u32::MAX,
    ensures
        forall|k: int|
            0 <= k < lines_from(ks, starts, s, i).len() ==> (#[trigger] lines_from(
                ks,
                starts,
                s,
                i,
            )[k]).tok_end <= ks.len() && lines_from(ks, starts, s, i)[k].first_tok
                <= ks.len(),
    decreases ks.len() - i,
{
    if i < ks.len() {
        let e = line_end_tok(ks, i);
        if e > i && e <= ks.len() {
            lemma_lines_in_range(ks, starts, s, e);
            let ls = lines_from(ks, starts, s, i);
            let rest = lines_from(ks, starts, s, e);
            assert forall|k: int| 0 <= k < ls.len() implies (#[trigger] ls[k]).tok_end <= ks.len()
                && ls[k].first_tok <= ks.len() by {
                if k > 0 {
                    assert(ls[k] == rest[k - 1]);
                }
            }
        }
    }
}

/// Cards built from in-range lines end in range.
pub proof fn lemma_card_state_in_range(
    lines: Seq<LineInfo>,
    m: int,
    d: (Option<int>, Option<int>),
    n: int,
)
    requires
        0 <= m <= lines.len(),
        forall|k: int|
            0 <= k < lines.len() ==> (#[trigger] lines[k]).tok_end <= n && lines[k].first_tok <= n,
    ensures
        forall|k: int|
            0 <= k < card_state(lines, m, d).0.len() ==> (#[trigger] card_state(
                lines,
                m,
                d,
            ).0[k]).tok_end <= n,
    decreases m,
{
    reveal(card_step);
    if m > 0 {
        lemma_card_state_in_range(lines, m - 1, d, n);
        let st = card_state(lines, m - 1, d);
        let l = lines[m - 1];
        let st2 = card_state(lines, m, d);
        assert forall|k: int| 0 <= k < st2.0.len() implies (#[trigger] st2.0[k]).tok_end <= n by {
            if k < st.0.len() && st2.0[k] != st.0[k] {
                assert(st2.0[k].tok_end == l.tok_end);
            }
        }
    }
}

impl GreenTree {
    /// Every card's token range ends inside the token stream.
    pub proof fn lemma_cards_in_range(&self)
        requires
            self.wf(),
        ensures
            forall|k: int|
                0 <= k < self.spec_cards().len() ==> (#[trigger] self.spec_cards()[k]).tok_end
                    <= self.spec_tokens().len(),
    {
        reveal(cards_of);
        self.lemma_wf();
        let ks = self.tok_kind@;
        let lines = lines_from(ks, self.tok_start@, self.spec_src(), 0);
        lemma_lines_in_range(ks, self.tok_start@, self.spec_src(), 0);
        if lines.len() > 0 {
            let d = delimiters(lines);
            lemma_card_state_in_range(lines, lines.len() as int, d, ks.len() as int);
            let st = card_state(lines, lines.len() as int, d);
            let cs = self.spec_cards();
            assert forall|k: int| 0 <= k < cs.len() implies (#[trigger] cs[k]).tok_end
                <= self.spec_tokens().len() by {
                if k < st.0.len() {
                    assert(cs[k] == st.0[k]);
                }
            }
        }
    }
}


/// Lines are consecutive: each starts where the previous one ended, and none
/// is empty.
pub proof fn lemma_lines_consecutive(ks: Seq<SyntaxKind>, starts: Seq<u32>, s: Seq<u8>, i: int)
    requires
        0 <= i <= ks.len(),
        ks.len() <= u32::MAX,
    ensures
        ({
            let ls = lines_from(ks, starts, s, i);
            &&& forall|k: int|
                0 <= k < ls.len() ==> (#[trigger] ls[k]).first_tok < ls[k].tok_end <= ks.len()
            &&& ls.len() > 0 ==> ls[0].first_tok == i
            &&& forall|k: int, j: int|
                0 <= k < j < ls.len() ==> (#[trigger] ls[k]).tok_end <= (#[trigger] ls[j]).first_tok
        }),
    decreases ks.len() - i,
{
    if i < ks.len() {
        lemma_line_end_tok(ks, i);
        let e = line_end_tok(ks, i);
        lemma_lines_consecutive(ks, starts, s, e);
        let ls = lines_from(ks, starts, s, i);
        let rest = lines_from(ks, starts, s, e);
        assert forall|k: int| 0 <= k < ls.len() implies (#[trigger] ls[k]).first_tok < ls[k].tok_end
            <= ks.len() by {
            if k > 0 {
                assert(ls[k] == rest[k - 1]);
            }
        }
        assert forall|k: int, j: int| 0 <= k < j < ls.len() implies (#[trigger] ls[k]).tok_end <= (
        #[trigger] ls[j]).first_tok by {
            assert(ls[j] == rest[j - 1]);
            if k > 0 {
                assert(ls[k] == rest[k - 1]);
            } else {
                assert(rest[0].first_tok == e);
                if j - 1 > 0 {
                    assert(rest[0].tok_end <= rest[j - 1].first_tok);
                }
            }
        }
    }
}

/// Cards are in order and do not overlap: each starts no later than it
/// ends, and ends no later than the next one starts.
pub open spec fn ordered_cards(cs: Seq<Card>) -> bool {
    &&& forall|k: int| 0 <= k < cs.len() ==> (#[trigger] cs[k]).first_tok <= cs[k].tok_end
    &&& forall|k: int, l: int| 0 <= k < l < cs.len() ==> (#[trigger] cs[k]).tok_end <= (
    #[trigger] cs[l]).first_tok
}

/// The grouping state after `m` lines keeps the closed cards ordered and
/// ahead of the open one and of line `m`.
proof fn lemma_card_state_ordered(lines: Seq<LineInfo>, m: int, d: (Option<int>, Option<int>))
    requires
        1 <= m <= lines.len(),
        forall|k: int| 0 <= k < lines.len() ==> (#[trigger] lines[k]).first_tok < lines[k].tok_end,
        forall|k: int, j: int|
            0 <= k < j < lines.len() ==> (#[trigger] lines[k]).tok_end <= (#[trigger] lines[j]).first_tok,
    ensures
        ({
            let st = card_state(lines, m, d);
            let b = lines[m - 1].tok_end;
            &&& ordered_cards(st.0)
            &&& match st.1 {
                Some((_, f)) => f <= b && (st.0.len() > 0 ==> st.0.last().tok_end <= f),
                None => st.0.len() > 0 ==> st.0.last().tok_end <= b,
            }
        }),
    decreases m,
{
    reveal(card_step);
    let st = card_state(lines, m, d);
    let l = lines[m - 1];
    if m == 1 {
        assert(card_state(lines, 0, d).0 =~= Seq::<Card>::empty());
    } else {
        lemma_card_state_ordered(lines, m - 1, d);
        let prev = card_state(lines, m - 1, d);
        assert(lines[m - 2].tok_end <= l.first_tok);
        match prev.1 {
            Some((kd, f)) => {
                let c = Card { kind: kd, first_tok: f, tok_end: l.first_tok };
                let c2 = Card { kind: kd, first_tok: f, tok_end: l.tok_end };
                assert(f <= l.first_tok);
                if st.0 == prev.0.push(c) {
                    assert forall|k: int, j: int| 0 <= k < j < st.0.len() implies (
                    #[trigger] st.0[k]).tok_end <= (#[trigger] st.0[j]).first_tok by {
                        if j < prev.0.len() {
                            assert(st.0[k] == prev.0[k] && st.0[j] == prev.0[j]);
                        } else {
                            assert(st.0[k] == prev.0[k]);
                            if k < prev.0.len() - 1 {
                                assert(prev.0[k].tok_end <= prev.0[prev.0.len() - 1].first_tok);
                            }
                        }
                    }
                }
                if st.0 == prev.0.push(c2) {
                    assert forall|k: int, j: int| 0 <= k < j < st.0.len() implies (
                    #[trigger] st.0[k]).tok_end <= (#[trigger] st.0[j]).first_tok by {
                        if j < prev.0.len() {
                            assert(st.0[k] == prev.0[k] && st.0[j] == prev.0[j]);
                        } else {
                            assert(st.0[k] == prev.0[k]);
                            if k < prev.0.len() - 1 {
                                assert(prev.0[k].tok_end <= prev.0[prev.0.len() - 1].first_tok);
                            }
                        }
                    }
                }
            },
            None => {},
        }
    }
}

/// Closing the open card keeps the cards ordered.
proof fn lemma_close_ordered(cs: Seq<Card>, cur: Option<(SyntaxKind, u32)>, end: u32)
    requires
        ordered_cards(cs),
        match cur {
            Some((_, f)) => f <= end && (cs.len() > 0 ==> cs.last().tok_end <= f),
            None => true,
        },
    ensures
        ordered_cards(close(cs, cur, end)),
{
    let r = close(cs, cur, end);
    match cur {
        Some((kd, f)) => {
            assert forall|k: int, j: int| 0 <= k < j < r.len() implies (#[trigger] r[k]).tok_end
                <= (#[trigger] r[j]).first_tok by {
                if j < cs.len() {
                    assert(r[k] == cs[k] && r[j] == cs[j]);
                } else {
                    assert(r[k] == cs[k]);
                    if k < cs.len() - 1 {
                        assert(cs[k].tok_end <= cs[cs.len() - 1].first_tok);
                    }
                }
            }
            assert forall|k: int| 0 <= k < r.len() implies (#[trigger] r[k]).first_tok
                <= r[k].tok_end by {
                if k < cs.len() {
                    assert(r[k] == cs[k]);
                }
            }
        },
        None => {},
    }
}

/// Cards built from consecutive, in-range lines are ordered.
pub proof fn lemma_build_cards_ordered(lines: Seq<LineInfo>, n: u32)
    requires
        forall|k: int|
            0 <= k < lines.len() ==> (#[trigger] lines[k]).first_tok < lines[k].tok_end <= n,
        forall|k: int, j: int|
            0 <= k < j < lines.len() ==> (#[trigger] lines[k]).tok_end <= (#[trigger] lines[j]).first_tok,
    ensures
        ordered_cards(spec_build_cards(lines, n)),
{
    if lines.len() > 0 {
        let d = delimiters(lines);
        let m = lines.len() as int;
        lemma_card_state_ordered(lines, m, d);
        let st = card_state(lines, m, d);
        assert(lines[m - 1].tok_end <= n);
        lemma_close_ordered(st.0, st.1, n);
    }
}

impl GreenTree {
    /// The cards are in order and do not overlap.
    pub proof fn lemma_cards_ordered(&self)
        requires
            self.wf(),
        ensures
            ordered_cards(self.spec_cards()),
    {
        self.lemma_wf();
        let ks = self.tok_kind@;
        lemma_lines_consecutive(ks, self.tok_start@, self.spec_src(), 0);
        let lines = lines_from(ks, self.tok_start@, self.spec_src(), 0);
        lemma_build_cards_ordered(lines, ks.len() as u32);
        assert(self.spec_cards() == spec_build_cards(lines, ks.len() as u32)) by {
            reveal(cards_of);
        }
    }
}


/// Cards tile the token stream `[0, n)`: the first is the title card and
/// starts at token 0, each ends where the next begins, the last ends at `n`,
/// and none is empty.
pub open spec fn tiles_tokens(cs: Seq<Card>, n: int) -> bool {
    &&& cs.len() > 0 ==> cs[0].first_tok == 0 && cs[0].kind == SyntaxKind::TITLE_CARD
        && cs.last().tok_end == n
    &&& forall|k: int|
        0 <= k < cs.len() ==> (#[trigger] cs[k]).first_tok < cs[k].tok_end && spec_is_card(
            cs[k].kind,
        )
    &&& forall|a: int, b: int| 0 <= a && b == a + 1 && b < cs.len() ==> (#[trigger] cs[a]).tok_end == (#[trigger] cs[b]).first_tok
}

/// Lines tile the token stream from `i` on: each starts where the previous
/// one ended, and the last ends at the end of the stream.
pub proof fn lemma_lines_adjacent(ks: Seq<SyntaxKind>, starts: Seq<u32>, s: Seq<u8>, i: int)
    requires
        0 <= i <= ks.len(),
        ks.len() <= u32::MAX,
    ensures
        ({
            let ls = lines_from(ks, starts, s, i);
            &&& (i < ks.len() <==> ls.len() > 0)
            &&& ls.len() > 0 ==> ls[0].first_tok == i && ls.last().tok_end == ks.len()
            &&& forall|k: int| 0 <= k < ls.len() ==> (#[trigger] ls[k]).first_tok < ls[k].tok_end
            &&& forall|a: int, b: int| 0 <= a && b == a + 1 && b < ls.len() ==> (#[trigger] ls[a]).tok_end == (#[trigger] ls[b]).first_tok
        }),
    decreases ks.len() - i,
{
    if i < ks.len() {
        lemma_line_end_tok(ks, i);
        let e = line_end_tok(ks, i);
        lemma_lines_adjacent(ks, starts, s, e);
        let ls = lines_from(ks, starts, s, i);
        let rest = lines_from(ks, starts, s, e);
        assert(ls.len() == rest.len() + 1);
        assert forall|k: int| 0 <= k < ls.len() implies (#[trigger] ls[k]).first_tok < ls[k].tok_end by {
            if k > 0 {
                assert(ls[k] == rest[k - 1]);
            }
        }
        assert forall|a: int, b: int| 0 <= a && b == a + 1 && b < ls.len() implies (
        #[trigger] ls[a]).tok_end == (#[trigger] ls[b]).first_tok by {
            assert(ls[b] == rest[a]);
            if a > 0 {
                assert(ls[a] == rest[a - 1]);
            }
        }
        if rest.len() > 0 {
            assert(ls.last() == rest.last());
        }
    }
}

/// The grouping state after `m` lines tiles the tokens up to the open
/// card, or up to the end of line `m` when no card is open.
proof fn lemma_card_state_tiles(lines: Seq<LineInfo>, m: int, d: (Option<int>, Option<int>))
    requires
        1 <= m <= lines.len(),
        lines[0].first_tok == 0,
        forall|k: int| 0 <= k < lines.len() ==> (#[trigger] lines[k]).first_tok < lines[k].tok_end,
        forall|a: int, b: int| 0 <= a && b == a + 1 && b < lines.len() ==> (#[trigger] lines[a]).tok_end == (#[trigger] lines[b]).first_tok,
    ensures
        ({
            let st = card_state(lines, m, d);
            let cs = st.0;
            let b = lines[m - 1].tok_end;
            &&& cs.len() > 0 ==> cs[0].first_tok == 0 && cs[0].kind == SyntaxKind::TITLE_CARD
            &&& forall|k: int|
                0 <= k < cs.len() ==> (#[trigger] cs[k]).first_tok < cs[k].tok_end && spec_is_card(
                    cs[k].kind,
                )
            &&& forall|a: int, b: int| 0 <= a && b == a + 1 && b < cs.len() ==> (#[trigger] cs[a]).tok_end == (#[trigger] cs[b]).first_tok
            &&& match st.1 {
                Some((kd, f)) => f < b && spec_is_card(kd) && (cs.len() == 0 ==> f == 0 && kd == SyntaxKind::TITLE_CARD)
                    && (cs.len() > 0 ==> cs.last().tok_end == f),
                None => cs.len() > 0 && cs.last().tok_end == b,
            }
        }),
    decreases m,
{
    reveal(card_step);
    let st = card_state(lines, m, d);
    let l = lines[m - 1];
    if m == 1 {
        assert(card_state(lines, 0, d).0 =~= Seq::<Card>::empty());
    } else {
        lemma_card_state_tiles(lines, m - 1, d);
        let prev = card_state(lines, m - 1, d);
        let pc = prev.0;
        assert(lines[m - 2].tok_end == l.first_tok);
        let idx = m - 1;
        match prev.1 {
            Some((kd, f)) => {
                let c = Card { kind: kd, first_tok: f, tok_end: l.first_tok };
                let c2 = Card { kind: kd, first_tok: f, tok_end: l.tok_end };
                let cs = st.0;
                if cs == pc.push(c) || cs == pc.push(c2) {
                    assert forall|k: int| 0 <= k < cs.len() implies (#[trigger] cs[k]).first_tok
                        < cs[k].tok_end && spec_is_card(cs[k].kind) by {
                        if k < pc.len() {
                            assert(cs[k] == pc[k]);
                        }
                    }
                    assert forall|a: int, b: int| 0 <= a && b == a + 1 && b < cs.len() implies (
                    #[trigger] cs[a]).tok_end == (#[trigger] cs[b]).first_tok by {
                        assert(cs[a] == pc[a]);
                        if b < pc.len() {
                            assert(cs[b] == pc[b]);
                        }
                    }
                    if pc.len() > 0 {
                        assert(cs[0] == pc[0]);
                    }
                }
            },
            None => {
                let cs = st.0;
                if l.class != LineClass::Content {
                    let nl = Card { tok_end: l.tok_end, ..pc.last() };
                    assert(cs == pc.update(pc.len() - 1, nl));
                    assert forall|k: int| 0 <= k < cs.len() implies (#[trigger] cs[k]).first_tok
                        < cs[k].tok_end && spec_is_card(cs[k].kind) by {
                        if k < pc.len() - 1 {
                            assert(cs[k] == pc[k]);
                        }
                    }
                    assert forall|a: int, b: int| 0 <= a && b == a + 1 && b < cs.len() implies (
                    #[trigger] cs[a]).tok_end == (#[trigger] cs[b]).first_tok by {
                        assert(cs[a] == pc[a]);
                        if b < pc.len() - 1 {
                            assert(cs[b] == pc[b]);
                        }
                    }
                    if pc.len() > 1 {
                        assert(cs[0] == pc[0]);
                    }
                } else {
                    assert(cs == pc);
                }
            },
        }
    }
}

/// The cards built from lines that tile `[0, n)` tile `[0, n)` too.
pub proof fn lemma_build_cards_tiles(lines: Seq<LineInfo>, n: u32)
    requires
        lines.len() > 0 ==> lines[0].first_tok == 0 && lines.last().tok_end == n,
        forall|k: int| 0 <= k < lines.len() ==> (#[trigger] lines[k]).first_tok < lines[k].tok_end,
        forall|a: int, b: int| 0 <= a && b == a + 1 && b < lines.len() ==> (#[trigger] lines[a]).tok_end == (#[trigger] lines[b]).first_tok,
    ensures
        tiles_tokens(spec_build_cards(lines, n), n as int),
{
    if lines.len() > 0 {
        let d = delimiters(lines);
        let m = lines.len() as int;
        lemma_card_state_tiles(lines, m, d);
        let st = card_state(lines, m, d);
        let cs = close(st.0, st.1, n);
        match st.1 {
            Some((kd, f)) => {
                let pc = st.0;
                assert forall|k: int| 0 <= k < cs.len() implies (#[trigger] cs[k]).first_tok
                    < cs[k].tok_end && spec_is_card(cs[k].kind) by {
                    if k < pc.len() {
                        assert(cs[k] == pc[k]);
                    }
                }
                assert forall|a: int, b: int| 0 <= a && b == a + 1 && b < cs.len() implies (
                #[trigger] cs[a]).tok_end == (#[trigger] cs[b]).first_tok by {
                    assert(cs[a] == pc[a]);
                    if b < pc.len() {
                        assert(cs[b] == pc[b]);
                    }
                }
                if pc.len() > 0 {
                    assert(cs[0] == pc[0]);
                }
            },
            None => {},
        }
    }
}

impl GreenTree {
    /// The cards tile the token stream: the first is the title card at token
    /// 0, each ends where the next begins, and the last ends at the last
    /// token; every card is non-empty and of a card kind; a non-empty source
    /// has at least one card.
    pub proof fn lemma_cards_tile(&self)
        requires
            self.wf(),
        ensures
            tiles_tokens(self.spec_cards(), self.spec_tokens().len() as int),
            self.spec_tokens().len() > 0 ==> self.spec_cards().len() > 0,
    {
        self.lemma_wf();
        let ks = self.tok_kind@;
        lemma_lines_adjacent(ks, self.tok_start@, self.spec_src(), 0);
        let lines = lines_from(ks, self.tok_start@, self.spec_src(), 0);
        lemma_build_cards_tiles(lines, ks.len() as u32);
        assert(self.spec_cards() == spec_build_cards(lines, ks.len() as u32)) by {
            reveal(cards_of);
        }
        if lines.len() > 0 {
            let st = card_state(lines, lines.len() as int, delimiters(lines));
            lemma_card_state_tiles(lines, lines.len() as int, delimiters(lines));
        }
    }
}

} // verus!
