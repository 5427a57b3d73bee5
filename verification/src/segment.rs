//! Source text to an ordered list of self-contained cards.
//!
//! This is where the file's block structure and the two continuation
//! mechanisms are resolved. Every byte of the input ends up inside exactly one
//! card's text, in order, which is what makes emission a plain concatenation.

use vstd::prelude::*;
use crate::bytes::push_range;
use crate::card::Card;
use crate::kind::CardKind;
use crate::lines::{
    blank_lines_from, ends_with_ampersand, find_blank_lines, is_blank, is_blank_col_continuation,
    is_comment_line, lemma_blank_lines_from, lemma_line_end, line_end, spec_is_blank,
    spec_line_end, spec_starts_with_message, starts_with_message, spec_is_comment_line,
    spec_is_blank_col_continuation, spec_ends_with_ampersand,
};

verus! {

/// The cards' texts, concatenated in order.
pub open spec fn concat_texts(cards: Seq<Card>) -> Seq<u8>
    decreases cards.len(),
{
    if cards.len() == 0 {
        Seq::empty()
    } else {
        concat_texts(cards.drop_last()) + cards.last().spec_text()
    }
}

pub proof fn lemma_concat_push(cards: Seq<Card>, c: Card)
    ensures
        concat_texts(cards.push(c)) == concat_texts(cards) + c.spec_text(),
{
    assert(cards.push(c).drop_last() =~= cards);
}

pub proof fn lemma_concat_append(a: Seq<Card>, b: Seq<Card>)
    ensures
        concat_texts(a + b) == concat_texts(a) + concat_texts(b),
    decreases b.len(),
{
    if b.len() == 0 {
        assert(a + b =~= a);
        assert(concat_texts(a) + concat_texts(b) =~= concat_texts(a));
    } else {
        lemma_concat_append(a, b.drop_last());
        assert((a + b).drop_last() =~= a + b.drop_last());
        assert(concat_texts(a) + (concat_texts(b.drop_last()) + b.last().spec_text()) =~= (
        concat_texts(a) + concat_texts(b.drop_last())) + b.last().spec_text());
    }
}

/// The text of a single card is that card's text.
pub proof fn lemma_concat_single(c: Card)
    ensures
        concat_texts(seq![c]) == c.spec_text(),
{
    assert(seq![c].drop_last() =~= Seq::<Card>::empty());
    assert(concat_texts(Seq::<Card>::empty()) == Seq::<u8>::empty());
    assert(Seq::<u8>::empty() + c.spec_text() =~= c.spec_text());
}


/// A card to be made: the byte range of its text and its kind.
pub type Piece = (int, int, CardKind);

/// The cards hold exactly the pieces: the same number, each with the piece's
/// kind and the source bytes of its range.
pub open spec fn matches_pieces(cards: Seq<Card>, src: Seq<u8>, ps: Seq<Piece>) -> bool {
    &&& cards.len() == ps.len()
    &&& forall|k: int|
        0 <= k < cards.len() ==> (#[trigger] cards[k]).spec_kind() == ps[k].2
            && cards[k].spec_text() == src.subrange(ps[k].0, ps[k].1)
}

/// Every piece is short enough for the lexer's `u32` offsets.
pub open spec fn pieces_fit(ps: Seq<Piece>) -> bool {
    forall|k: int| 0 <= k < ps.len() ==> (#[trigger] ps[k]).1 - ps[k].0 <= u32::MAX
}

proof fn lemma_fit_concat(a: Seq<Piece>, b: Seq<Piece>)
    ensures
        pieces_fit(a + b) == (pieces_fit(a) && pieces_fit(b)),
{
    if pieces_fit(a + b) {
        assert forall|k: int| 0 <= k < a.len() implies (#[trigger] a[k]).1 - a[k].0 <= u32::MAX by {
            assert((a + b)[k] == a[k]);
        }
        assert forall|k: int| 0 <= k < b.len() implies (#[trigger] b[k]).1 - b[k].0 <= u32::MAX by {
            assert((a + b)[a.len() + k] == b[k]);
        }
    }
    if pieces_fit(a) && pieces_fit(b) {
        assert forall|k: int| 0 <= k < (a + b).len() implies (#[trigger] (a + b)[k]).1 - (a + b)[k].0
            <= u32::MAX by {
            if k < a.len() {
                assert((a + b)[k] == a[k]);
            } else {
                assert((a + b)[k] == b[k - a.len()]);
            }
        }
    }
}

/// The end of the line starting at `pos`, cut at `to`.
pub open spec fn line_cut(src: Seq<u8>, pos: int, to: int) -> int {
    let e = spec_line_end(src, pos);
    if e < to {
        e
    } else {
        to
    }
}

/// Comment lines `[pos, upto)` as standalone comment cards, one per line.
pub open spec fn comment_pieces(src: Seq<u8>, pos: int, upto: int) -> Seq<Piece>
    decreases upto - pos,
{
    if pos < 0 || pos >= upto || upto > src.len() {
        Seq::empty()
    } else {
        let end = line_cut(src, pos, upto);
        if end <= pos {
            Seq::empty()
        } else {
            seq![(pos, end, CardKind::Comment)] + comment_pieces(src, end, upto)
        }
    }
}

/// The open card, if any, as a piece of `kind`.
pub open spec fn open_piece(open: Option<(int, int)>, kind: CardKind) -> Seq<Piece> {
    match open {
        Some((s, e)) => seq![(s, e, kind)],
        None => Seq::empty(),
    }
}

/// Held-back comment lines from `pending` up to `upto`, flushed as comment
/// cards.
pub open spec fn pending_pieces(src: Seq<u8>, pending: Option<int>, upto: int) -> Seq<Piece> {
    match pending {
        Some(p) => comment_pieces(src, p, upto),
        None => Seq::empty(),
    }
}

/// The cards of a run of lines `[pos, to)` of block kind `kind`, given the
/// held-back comment lines from `pending`, the open card, and whether the
/// last content line ended with `&`. A blank line closes the open card,
/// flushes held-back comments as comment cards and is its own card; a
/// comment line is held back; a content line continues the open card when
/// it starts past column five or the previous content line ended with `&`
/// (absorbing held-back comments), and otherwise closes it and opens a new
/// card that starts with the held-back comments. At the end the open card is
/// closed and held-back comments are flushed.
pub open spec fn run_pieces(
    src: Seq<u8>,
    pos: int,
    to: int,
    kind: CardKind,
    pending: Option<int>,
    open: Option<(int, int)>,
    amp: bool,
) -> Seq<Piece>
    decreases to - pos,
{
    if pos < 0 || pos >= to || to > src.len() {
        open_piece(open, kind) + pending_pieces(src, pending, to)
    } else {
        let end = line_cut(src, pos, to);
        if end <= pos {
            open_piece(open, kind) + pending_pieces(src, pending, to)
        } else {
            let line = src.subrange(pos, end);
            if spec_is_blank(line) {
                open_piece(open, kind) + pending_pieces(src, pending, pos) + seq![
                    (pos, end, CardKind::Blank),
                ] + run_pieces(src, end, to, kind, None, None, false)
            } else if spec_is_comment_line(line) {
                run_pieces(
                    src,
                    end,
                    to,
                    kind,
                    if pending is None {
                        Some(pos)
                    } else {
                        pending
                    },
                    open,
                    amp,
                )
            } else {
                let continues = spec_is_blank_col_continuation(line) || amp;
                let na = spec_ends_with_ampersand(line);
                if open is Some && continues {
                    let first = open->0;
                    run_pieces(src, end, to, kind, None, Some((first.0, end)), na)
                } else {
                    let start = match pending {
                        Some(p) => p,
                        None => pos,
                    };
                    open_piece(open, kind) + run_pieces(src, end, to, kind, None, Some((start, end)), na)
                }
            }
        }
    }
}

/// The pieces of a planned file: one per blank line and the title, and the
/// cards of each block.
pub open spec fn segs_pieces(src: Seq<u8>, segs: Seq<Segment>) -> Seq<Piece>
    decreases segs.len(),
{
    if segs.len() == 0 {
        Seq::empty()
    } else {
        let last = match segs.last() {
            Segment::Blank(a, b) => seq![(a as int, b as int, CardKind::Blank)],
            Segment::Title(a, b) => seq![(a as int, b as int, CardKind::Title)],
            Segment::Block(a, b, k) => run_pieces(src, a as int, b as int, k, None, None, false),
        };
        segs_pieces(src, segs.drop_last()) + last
    }
}

/// The cards a file is split into: [`spec_plan`]'s segments, each block cut
/// into cards by [`run_pieces`].
pub open spec fn spec_pieces(src: Seq<u8>) -> Seq<Piece> {
    segs_pieces(src, spec_plan(src))
}

proof fn lemma_matches_append(a: Seq<Card>, b: Seq<Card>, src: Seq<u8>, pa: Seq<Piece>, pb: Seq<Piece>)
    requires
        matches_pieces(a, src, pa),
        matches_pieces(b, src, pb),
    ensures
        matches_pieces(a + b, src, pa + pb),
{
    assert forall|k: int| 0 <= k < (a + b).len() implies (#[trigger] (a + b)[k]).spec_kind() == (pa
        + pb)[k].2 && (a + b)[k].spec_text() == src.subrange((pa + pb)[k].0, (pa + pb)[k].1) by {
        if k < a.len() {
            assert((a + b)[k] == a[k]);
            assert((pa + pb)[k] == pa[k]);
        } else {
            assert((a + b)[k] == b[k - a.len()]);
            assert((pa + pb)[k] == pb[k - a.len()]);
        }
    }
}

/// Copy `src[from..to]` into a new vector.
fn copy_range(src: &[u8], from: usize, to: usize) -> (r: Vec<u8>)
    requires
        from <= to <= src@.len(),
    ensures
        r@ == src@.subrange(from as int, to as int),
{
    let mut v: Vec<u8> = Vec::new();
    push_range(&mut v, src, from, to);
    assert(Seq::<u8>::empty() + src@.subrange(from as int, to as int) =~= src@.subrange(
        from as int,
        to as int,
    ));
    v
}

/// Fresh, well-formed cards, not yet placed in a tree, each lexed from its own
/// text.
pub open spec fn fresh_cards(cards: Seq<Card>) -> bool {
    forall|i: int|
        0 <= i < cards.len() ==> (#[trigger] cards[i]).wf() && cards[i].spec_slot()
            == crate::card::UNPLACED && cards[i].spec_text().len() > 0 && cards[i].spec_tokens() == crate::lex::spec_lex(
            cards[i].spec_text(),
            cards[i].spec_kind(),
        )
}

proof fn lemma_fresh_push(cards: Seq<Card>, c: Card)
    requires
        fresh_cards(cards),
        fresh_cards(seq![c]),
    ensures
        fresh_cards(cards.push(c)),
{
    assert forall|i: int| 0 <= i < cards.push(c).len() implies (#[trigger] cards.push(c)[i]).wf()
        && cards.push(c)[i].spec_slot() == crate::card::UNPLACED && cards.push(c)[i].spec_text().len() > 0 && cards.push(c)[i].spec_tokens()
        == crate::lex::spec_lex(cards.push(c)[i].spec_text(), cards.push(c)[i].spec_kind()) by {
        if i == cards.len() {
            assert(seq![c][0] == c);
        }
    }
}

/// A card of `kind` holding `src[from..to]`, appended to `out`; `false`,
/// with nothing appended, when the range is too long for the lexer.
fn push_card(src: &[u8], from: usize, to: usize, kind: CardKind, out: &mut Vec<Card>) -> (ok: bool)
    requires
        from < to <= src@.len(),
        fresh_cards(old(out)@),
    ensures
        ok == (to - from <= u32::MAX),
        fresh_cards(final(out)@),
        !ok ==> final(out)@ == old(out)@,
        ok ==> concat_texts(final(out)@) == concat_texts(old(out)@) + src@.subrange(
            from as int,
            to as int,
        ),
        ok ==> final(out)@.len() == old(out)@.len() + 1,
        ok ==> final(out)@.subrange(0, old(out)@.len() as int) == old(out)@,
        ok ==> matches_pieces(
            final(out)@.subrange(old(out)@.len() as int, final(out)@.len() as int),
            src@,
            seq![(from as int, to as int, kind)],
        ),
{
    if to - from > 0xFFFF_FFFFusize {
        return false;
    }
    let text = copy_range(src, from, to);
    let card = Card::new(kind, text);
    let ghost before = out@;
    out.push(card);
    proof {
        lemma_concat_push(before, card);
        assert(fresh_cards(seq![card]));
        lemma_fresh_push(before, card);
        assert(out@.subrange(0, before.len() as int) =~= before);
        assert(out@.subrange(before.len() as int, out@.len() as int) =~= seq![card]);
    }
    true
}

/// Emit undecided comment lines `src[start..upto]` as standalone comment cards,
/// one per line; `false` when a line is too long for the lexer.
fn flush_comments(src: &[u8], start: usize, upto: usize, out: &mut Vec<Card>) -> (ok: bool)
    requires
        start <= upto <= src@.len(),
        fresh_cards(old(out)@),
    ensures
        ok == pieces_fit(comment_pieces(src@, start as int, upto as int)),
        !ok ==> src@.len() > u32::MAX,
        fresh_cards(final(out)@),
        ok ==> concat_texts(final(out)@) == concat_texts(old(out)@) + src@.subrange(
            start as int,
            upto as int,
        ),
        ok ==> old(out)@.len() <= final(out)@.len(),
        ok ==> final(out)@.subrange(0, old(out)@.len() as int) == old(out)@,
        ok ==> matches_pieces(
            final(out)@.subrange(old(out)@.len() as int, final(out)@.len() as int),
            src@,
            comment_pieces(src@, start as int, upto as int),
        ),
{
    let mut pos = start;
    let ghost o = out@;
    let ghost mut done: Seq<Piece> = Seq::empty();
    proof {
        assert(out@.subrange(0, o.len() as int) =~= o);
        assert(out@.subrange(o.len() as int, out@.len() as int) =~= Seq::<Card>::empty());
        assert(done + comment_pieces(src@, pos as int, upto as int) =~= comment_pieces(src@, start as int, upto as int));
    }
    while pos < upto
        invariant
            start <= pos <= upto <= src@.len(),
            fresh_cards(out@),
            concat_texts(out@) == concat_texts(old(out)@) + src@.subrange(start as int, pos as int),
            o == old(out)@,
            o.len() <= out@.len(),
            out@.subrange(0, o.len() as int) == o,
            matches_pieces(out@.subrange(o.len() as int, out@.len() as int), src@, done),
            done + comment_pieces(src@, pos as int, upto as int) == comment_pieces(src@, start as int, upto as int),
            pieces_fit(done),
        decreases upto - pos,
    {
        let ghost before = out@;
        let e = line_end(src, pos);
        let end = if e < upto {
            e
        } else {
            upto
        };
        let ghost piece = seq![(pos as int, end as int, CardKind::Comment)];
        proof {
            assert(comment_pieces(src@, pos as int, upto as int) == piece + comment_pieces(src@, end as int, upto as int));
            assert(done + piece + comment_pieces(src@, end as int, upto as int) =~= done + comment_pieces(src@, pos as int, upto as int));
        }
        if !push_card(src, pos, end, CardKind::Comment, out) {
            proof {
                lemma_fit_concat(done + piece, comment_pieces(src@, end as int, upto as int));
                lemma_fit_concat(done, piece);
                assert(piece[0] == (pos as int, end as int, CardKind::Comment));
            }
            return false;
        }
        assert(src@.subrange(start as int, pos as int) + src@.subrange(pos as int, end as int)
            =~= src@.subrange(start as int, end as int));
        proof {
            lemma_matches_append(
                before.subrange(o.len() as int, before.len() as int),
                out@.subrange(before.len() as int, out@.len() as int),
                src@,
                done,
                piece,
            );
            assert(before.subrange(o.len() as int, before.len() as int) + out@.subrange(
                before.len() as int,
                out@.len() as int,
            ) =~= out@.subrange(o.len() as int, out@.len() as int));
            assert(out@.subrange(0, o.len() as int) =~= before.subrange(0, o.len() as int));
            lemma_fit_concat(done, piece);
            done = done + piece;
        }
        pos = end;
    }
    proof {
        assert(done + Seq::<Piece>::empty() =~= done);
    }
    true
}

/// Emit the open card (if any) and then the held-back comment lines (if
/// any) up to `upto`: the bytes `src[emitted..upto]`. `false` when one of
/// them is too long for the lexer.
fn close_run(
    src: &[u8],
    Ghost(emitted): Ghost<int>,
    open: Option<(usize, usize)>,
    pending: Option<usize>,
    upto: usize,
    kind: CardKind,
    out: &mut Vec<Card>,
) -> (ok: bool)
    requires
        0 <= emitted <= upto <= src@.len(),
        fresh_cards(old(out)@),
        match open {
            Some((s, e)) => s == emitted && s < e <= upto && (match pending {
                Some(p) => p == e,
                None => e == upto,
            }),
            None => match pending {
                Some(p) => p == emitted,
                None => emitted == upto,
            },
        },
    ensures
        ok == pieces_fit(
            open_piece(opt_pair(open), kind) + pending_pieces(src@, opt_int(pending), upto as int),
        ),
        !ok ==> src@.len() > u32::MAX,
        fresh_cards(final(out)@),
        ok ==> concat_texts(final(out)@) == concat_texts(old(out)@) + src@.subrange(emitted, upto as int),
        ok ==> old(out)@.len() <= final(out)@.len(),
        ok ==> final(out)@.subrange(0, old(out)@.len() as int) == old(out)@,
        ok ==> matches_pieces(
            final(out)@.subrange(old(out)@.len() as int, final(out)@.len() as int),
            src@,
            open_piece(opt_pair(open), kind) + pending_pieces(src@, opt_int(pending), upto as int),
        ),
{
    let ghost o = out@;
    let ghost op = open_piece(opt_pair(open), kind);
    let ghost pp = pending_pieces(src@, opt_int(pending), upto as int);
    let ghost mut em: int = emitted;
    proof {
        assert(out@.subrange(0, o.len() as int) =~= o);
        assert(out@.subrange(o.len() as int, out@.len() as int) =~= Seq::<Card>::empty());
        assert(src@.subrange(emitted, emitted) =~= Seq::<u8>::empty());
        assert(concat_texts(out@) =~= concat_texts(o) + src@.subrange(emitted, emitted));
    }
    if let Some((s, e)) = open {
        if !push_card(src, s, e, kind, out) {
            proof {
                lemma_fit_concat(op, pp);
                assert(op[0] == (s as int, e as int, kind));
            }
            return false;
        }
        proof {
            assert(out@.subrange(0, o.len() as int) =~= o);
            em = e as int;
        }
    }
    let ghost mid = out@;
    proof {
        assert(matches_pieces(mid.subrange(o.len() as int, mid.len() as int), src@, op)) by {
            if open is None {
                assert(mid.subrange(o.len() as int, mid.len() as int) =~= Seq::<Card>::empty());
            }
        }
        assert(concat_texts(mid) == concat_texts(o) + src@.subrange(emitted, em));
        assert(mid.subrange(0, o.len() as int) == o);
    }
    if let Some(p) = pending {
        if !flush_comments(src, p, upto, out) {
            proof {
                lemma_fit_concat(op, pp);
            }
            return false;
        }
        proof {
            lemma_extend(o, mid, out@, src@, op, pp);
            assert(src@.subrange(emitted, em) + src@.subrange(p as int, upto as int) =~= src@.subrange(
                emitted,
                upto as int,
            ));
        }
    } else {
        proof {
            assert(op + pp =~= op);
            assert(src@.subrange(emitted, em) =~= src@.subrange(emitted, upto as int));
        }
    }
    proof {
        lemma_fit_concat(op, pp);
        if let Some((s, e)) = open {
            assert forall|x: int| 0 <= x < op.len() implies (#[trigger] op[x]).1 - op[x].0 <= u32::MAX by {
                assert(x == 0);
            }
        }
    }
    true
}

/// The sequential segmenter for one contiguous run of lines `src[from..to]`
/// holding cards of `kind`.
///
/// Comment lines are held back until their fate is known: absorbed into the
/// open card if a continuation follows, taken as the header of the next card
/// if a fresh card line follows, and flushed as standalone comment cards when
/// neither follows (a blank line or the end of the run).
#[verifier::spinoff_prover]
#[verifier::rlimit(100)]
pub fn segment_run(src: &[u8], from: usize, to: usize, kind: CardKind, out: &mut Vec<Card>) -> (ok: bool)
    requires
        from <= to <= src@.len(),
        fresh_cards(old(out)@),
    ensures
        ok == pieces_fit(run_pieces(src@, from as int, to as int, kind, None, None, false)),
        !ok ==> src@.len() > u32::MAX,
        fresh_cards(final(out)@),
        ok ==> concat_texts(final(out)@) == concat_texts(old(out)@) + src@.subrange(from as int, to as int),
        ok ==> old(out)@.len() <= final(out)@.len(),
        ok ==> final(out)@.subrange(0, old(out)@.len() as int) == old(out)@,
        ok ==> matches_pieces(
            final(out)@.subrange(old(out)@.len() as int, final(out)@.len() as int),
            src@,
            run_pieces(src@, from as int, to as int, kind, None, None, false),
        ),
{
    let mut pending: Option<usize> = None;
    let mut open: Option<(usize, usize)> = None;
    let mut prev_ends_amp = false;
    let mut pos = from;
    let ghost mut emitted: int = from as int;
    let ghost o = out@;
    let ghost target = run_pieces(src@, from as int, to as int, kind, None, None, false);
    let ghost mut done: Seq<Piece> = Seq::empty();
    proof {
        assert(out@.subrange(0, o.len() as int) =~= o);
        assert(out@.subrange(o.len() as int, out@.len() as int) =~= Seq::<Card>::empty());
        assert(done + target =~= target);
    }
    while pos < to
        invariant
            from <= emitted <= pos <= to <= src@.len(),
            fresh_cards(out@),
            pieces_fit(done),
            concat_texts(out@) == concat_texts(old(out)@) + src@.subrange(from as int, emitted),
            match open {
                Some((s, e)) => s == emitted && s < e <= pos && (match pending {
                    Some(p) => p == e,
                    None => e == pos,
                }),
                None => match pending {
                    Some(p) => p == emitted,
                    None => emitted == pos,
                },
            },
            match pending {
                Some(p) => p <= pos,
                None => true,
            },
            o == old(out)@,
            o.len() <= out@.len(),
            out@.subrange(0, o.len() as int) == o,
            matches_pieces(out@.subrange(o.len() as int, out@.len() as int), src@, done),
            target == run_pieces(src@, from as int, to as int, kind, None, None, false),
            done + run_pieces(
                src@,
                pos as int,
                to as int,
                kind,
                opt_int(pending),
                opt_pair(open),
                prev_ends_amp,
            ) == target,
        decreases to - pos,
    {
        let e = line_end(src, pos);
        let end = if e < to {
            e
        } else {
            to
        };
        let line = vstd::slice::slice_subrange(src, pos, end);
        let ghost rest = run_pieces(src@, pos as int, to as int, kind, opt_int(pending), opt_pair(open), prev_ends_amp);
        if is_blank(line) {
            let ghost step = open_piece(opt_pair(open), kind) + pending_pieces(src@, opt_int(pending), pos as int) + seq![
                (pos as int, end as int, CardKind::Blank),
            ];
            proof {
                assert(rest == step + run_pieces(src@, end as int, to as int, kind, None, None, false));
            }
            let ghost first = open_piece(opt_pair(open), kind) + pending_pieces(src@, opt_int(pending), pos as int);
            let ghost after_first = seq![(pos as int, end as int, CardKind::Blank)] + run_pieces(
                src@,
                end as int,
                to as int,
                kind,
                None,
                None,
                false,
            );
            proof {
                assert(target =~= done + first + after_first);
            }
            let ghost before = out@;
            if !close_run(src, Ghost(emitted), open, pending, pos, kind, out) {
                proof {
                    lemma_fit_concat(done + first, after_first);
                    lemma_fit_concat(done, first);
                }
                return false;
            }
            proof {
                lemma_fit_concat(done + first, after_first);
                lemma_fit_concat(done, first);
                assert(src@.subrange(from as int, emitted) + src@.subrange(emitted, pos as int)
                    =~= src@.subrange(from as int, pos as int));
                emitted = pos as int;
                lemma_extend(o, before, out@, src@, done, first);
                done = done + first;
            }
            open = None;
            pending = None;
            let ghost before = out@;
            let ghost bp = seq![(pos as int, end as int, CardKind::Blank)];
            let ghost tail = run_pieces(src@, end as int, to as int, kind, None, None, false);
            proof {
                assert(target =~= done + bp + tail);
            }
            if !push_card(src, pos, end, CardKind::Blank, out) {
                proof {
                    lemma_fit_concat(done + bp, tail);
                    lemma_fit_concat(done, bp);
                    assert(bp[0] == (pos as int, end as int, CardKind::Blank));
                }
                return false;
            }
            proof {
                lemma_fit_concat(done + bp, tail);
                assert(src@.subrange(from as int, emitted) + src@.subrange(pos as int, end as int)
                    =~= src@.subrange(from as int, end as int));
                emitted = end as int;
                lemma_extend(o, before, out@, src@, done, seq![(pos as int, end as int, CardKind::Blank)]);
                done = done + seq![(pos as int, end as int, CardKind::Blank)];
                assert(done + run_pieces(src@, end as int, to as int, kind, None, None, false) =~= target);
            }
            prev_ends_amp = false;
            pos = end;
            continue;
        }
        if is_comment_line(line) {
            if pending.is_none() {
                pending = Some(pos);
            }
            pos = end;
            continue;
        }
        let continues = is_blank_col_continuation(line) || prev_ends_amp;
        let na = ends_with_ampersand(line);
        match open {
            Some((s, e2)) if continues => {
                pending = None;
                open = Some((s, end));
            },
            _ => {
                let start = match pending {
                    Some(p) => p,
                    None => pos,
                };
                let ghost tail = run_pieces(src@, end as int, to as int, kind, None, Some((start as int, end as int)), na);
                if let Some((s, e2)) = open {
                    let ghost before = out@;
                    let ghost pc = seq![(s as int, e2 as int, kind)];
                    proof {
                        assert(target =~= done + pc + tail);
                    }
                    if !push_card(src, s, e2, kind, out) {
                        proof {
                            lemma_fit_concat(done + pc, tail);
                            lemma_fit_concat(done, pc);
                            assert(pc[0] == (s as int, e2 as int, kind));
                        }
                        return false;
                    }
                    proof {
                        assert(src@.subrange(from as int, emitted) + src@.subrange(
                            s as int,
                            e2 as int,
                        ) =~= src@.subrange(from as int, e2 as int));
                        emitted = e2 as int;
                        lemma_extend(o, before, out@, src@, done, pc);
                        lemma_fit_concat(done + pc, tail);
                        done = done + pc;
                    }
                }
                pending = None;
                open = Some((start, end));
                proof {
                    assert(done + run_pieces(src@, end as int, to as int, kind, None, opt_pair(open), na) =~= target);
                }
            },
        }
        prev_ends_amp = na;
        pos = end;
    }
    let ghost rest = run_pieces(src@, pos as int, to as int, kind, opt_int(pending), opt_pair(open), prev_ends_amp);
    proof {
        assert(rest == open_piece(opt_pair(open), kind) + pending_pieces(src@, opt_int(pending), to as int));
    }
    let ghost first = open_piece(opt_pair(open), kind) + pending_pieces(src@, opt_int(pending), to as int);
    let ghost before = out@;
    proof {
        assert(target =~= done + first);
    }
    if !close_run(src, Ghost(emitted), open, pending, to, kind, out) {
        proof {
            lemma_fit_concat(done, first);
        }
        return false;
    }
    proof {
        lemma_fit_concat(done, first);
        assert(src@.subrange(from as int, emitted) + src@.subrange(emitted, to as int)
            =~= src@.subrange(from as int, to as int));
        lemma_extend(o, before, out@, src@, done, first);
        done = done + first;
    }
    proof {
        assert(done =~= target);
    }
    true
}

pub open spec fn opt_int(p: Option<usize>) -> Option<int> {
    match p {
        Some(x) => Some(x as int),
        None => None,
    }
}

pub open spec fn opt_pair(p: Option<(usize, usize)>) -> Option<(int, int)> {
    match p {
        Some((a, b)) => Some((a as int, b as int)),
        None => None,
    }
}

/// Appending cards that match `new` to cards that match `done` keeps the
/// prefix and matches `done + new`.
proof fn lemma_extend(o: Seq<Card>, before: Seq<Card>, after: Seq<Card>, src: Seq<u8>, done: Seq<Piece>, new: Seq<Piece>)
    requires
        o.len() <= before.len() <= after.len(),
        before.subrange(0, o.len() as int) == o,
        after.subrange(0, before.len() as int) == before,
        matches_pieces(before.subrange(o.len() as int, before.len() as int), src, done),
        matches_pieces(after.subrange(before.len() as int, after.len() as int), src, new),
    ensures
        after.subrange(0, o.len() as int) == o,
        matches_pieces(after.subrange(o.len() as int, after.len() as int), src, done + new),
{
    let a = before.subrange(o.len() as int, before.len() as int);
    let b = after.subrange(before.len() as int, after.len() as int);
    lemma_matches_append(a, b, src, done, new);
    assert(a + b =~= after.subrange(o.len() as int, after.len() as int));
    assert(after.subrange(0, o.len() as int) =~= before.subrange(0, o.len() as int));
}

/// One piece of the file, in order, as a byte range.
pub enum Segment {
    /// A blank line: its own card, and the delimiter that ends a block.
    Blank(usize, usize),
    /// Exactly one line, taken as the title whatever it looks like.
    Title(usize, usize),
    /// A run of content lines with no blank line inside it.
    Block(usize, usize, CardKind),
}

pub open spec fn seg_start(s: Segment) -> int {
    match s {
        Segment::Blank(a, _) => a as int,
        Segment::Title(a, _) => a as int,
        Segment::Block(a, _, _) => a as int,
    }
}

pub open spec fn seg_end(s: Segment) -> int {
    match s {
        Segment::Blank(_, b) => b as int,
        Segment::Title(_, b) => b as int,
        Segment::Block(_, b, _) => b as int,
    }
}

/// The segments cover `[0, n)` in order, each right after the previous one.
pub open spec fn tiles(segs: Seq<Segment>, n: int) -> bool {
    &&& segs.len() == 0 ==> n == 0
    &&& segs.len() > 0 ==> seg_start(segs[0]) == 0 && seg_end(segs.last()) == n
    &&& forall|k: int| 0 <= k < segs.len() ==> seg_start(#[trigger] segs[k]) <= seg_end(segs[k])
    &&& forall|k: int|
        0 <= k < segs.len() && !((#[trigger] segs[k]) is Block) ==> seg_start(segs[k]) < seg_end(
            segs[k],
        )
    &&& forall|k: int|
        0 <= k < segs.len() - 1 ==> seg_end(#[trigger] segs[k]) == seg_start(segs[k + 1])
}

proof fn lemma_tiles_push(segs: Seq<Segment>, n: int, s: Segment)
    requires
        tiles(segs, n),
        seg_start(s) == n,
        n <= seg_end(s),
        !(s is Block) ==> n < seg_end(s),
    ensures
        tiles(segs.push(s), seg_end(s)),
{
    let t = segs.push(s);
    assert(t.last() == s);
    assert forall|k: int| 0 <= k < t.len() - 1 implies seg_end(#[trigger] t[k]) == seg_start(
        t[k + 1],
    ) by {
        if k == segs.len() - 1 {
            assert(t[k] == segs.last());
        } else {
            assert(t[k] == segs[k] && t[k + 1] == segs[k + 1]);
        }
    }
    assert forall|k: int| 0 <= k < t.len() implies seg_start(#[trigger] t[k]) <= seg_end(t[k]) by {
        if k < segs.len() {
            assert(t[k] == segs[k]);
        }
    }
    assert forall|k: int| 0 <= k < t.len() && !((#[trigger] t[k]) is Block) implies seg_start(t[k]) < seg_end(t[k]) by {
        if k < segs.len() {
            assert(t[k] == segs[k]);
        }
    }
}

/// The blank lines of the file, with their layout facts.
pub open spec fn blanks_ok(src: Seq<u8>, blanks: Seq<(usize, usize)>) -> bool {
    &&& blanks == blank_lines_from(src, 0)
    &&& forall|k: int|
        0 <= k < blanks.len() ==> 0 <= (#[trigger] blanks[k]).0 < blanks[k].1 <= src.len()
    &&& forall|k: int| 0 <= k < blanks.len() - 1 ==> (#[trigger] blanks[k]).1 <= blanks[k + 1].0
}

/// The kind of the `k`-th block after the title: cells, then surfaces, then
/// data cards.
pub open spec fn spec_block_kind(k: int) -> CardKind {
    if k == 0 {
        CardKind::Cell
    } else if k == 1 {
        CardKind::Surface
    } else {
        CardKind::Data
    }
}

/// The block kind of the `k`-th block after the title.
fn block_kind(k: usize) -> (r: CardKind)
    requires
        k < 3,
    ensures
        r == spec_block_kind(k as int),
{
    if k == 0 {
        CardKind::Cell
    } else if k == 1 {
        CardKind::Surface
    } else {
        CardKind::Data
    }
}

/// The first blank line at or after index `i` of `blanks` that starts at or
/// after byte `pos`.
pub open spec fn skip_from(blanks: Seq<(usize, usize)>, i: int, pos: int) -> int
    decreases blanks.len() - i,
{
    if 0 <= i < blanks.len() && blanks[i].0 < pos {
        skip_from(blanks, i + 1, pos)
    } else {
        i
    }
}

/// The kind of the block numbered `k` after the title; past the data block,
/// what follows is kept as trailing text.
pub open spec fn kth_block_kind(k: int) -> CardKind {
    if k < 3 {
        spec_block_kind(k)
    } else {
        CardKind::Trailing
    }
}

/// The segments from byte `pos` on, once the title is placed: block `k`
/// runs to the next blank line, which is its own segment and ends it.
pub open spec fn block_segs(src: Seq<u8>, blanks: Seq<(usize, usize)>, pos: int, bi: int, k: int) -> Seq<
    Segment,
>
    decreases src.len() - pos,
{
    if pos < 0 || pos >= src.len() {
        Seq::empty()
    } else {
        let bj = skip_from(blanks, bi, pos);
        let has_blank = 0 <= bj < blanks.len();
        let end = if has_blank {
            blanks[bj].0 as int
        } else {
            src.len() as int
        };
        let blk = if pos < end {
            seq![Segment::Block(pos as usize, end as usize, kth_block_kind(k))]
        } else {
            Seq::empty()
        };
        if has_blank {
            let b = blanks[bj];
            let head = blk + seq![Segment::Blank(b.0, b.1)];
            if b.1 > pos && b.1 <= src.len() {
                head + block_segs(src, blanks, b.1 as int, bj + 1, k + 1)
            } else {
                head
            }
        } else {
            blk
        }
    }
}

/// The block structure of a file: an optional MESSAGE block ended by the
/// first blank line, then the title line, then the cell, surface and data
/// blocks, each ended by a blank line, and anything after that as trailing
/// text; every blank line is its own segment.
pub open spec fn spec_plan(src: Seq<u8>) -> Seq<Segment> {
    let blanks = blank_lines_from(src, 0);
    let len = src.len() as int;
    let msg = spec_starts_with_message(src);
    let mend = if blanks.len() > 0 {
        blanks[0].0 as int
    } else {
        len
    };
    let pre = if !msg {
        Seq::empty()
    } else {
        let m = if 0 < mend {
            seq![Segment::Block(0, mend as usize, CardKind::Message)]
        } else {
            Seq::empty()
        };
        if blanks.len() > 0 {
            m + seq![Segment::Blank(blanks[0].0, blanks[0].1)]
        } else {
            m
        }
    };
    let pos = if !msg {
        0
    } else if blanks.len() > 0 {
        blanks[0].1 as int
    } else {
        mend
    };
    let bi = if msg && blanks.len() > 0 {
        1int
    } else {
        0
    };
    let te = spec_line_end(src, pos);
    let pre2 = if pos < len {
        pre.push(Segment::Title(pos as usize, te as usize))
    } else {
        pre
    };
    let pos2 = if pos < len {
        te
    } else {
        pos
    };
    pre2 + block_segs(src, blanks, pos2, bi, 0)
}

/// Skip the blank lines that start before `pos` (the title line may itself
/// have been blank, and is already accounted for).
fn skip_blanks_before(blanks: &Vec<(usize, usize)>, idx: usize, pos: usize) -> (r: usize)
    requires
        idx <= blanks@.len(),
    ensures
        idx <= r <= blanks@.len(),
        r < blanks@.len() ==> blanks@[r as int].0 >= pos,
        r == skip_from(blanks@, idx as int, pos as int),
{
    let mut i = idx;
    while i < blanks.len() && blanks[i].0 < pos
        invariant
            idx <= i <= blanks@.len(),
            skip_from(blanks@, i as int, pos as int) == skip_from(blanks@, idx as int, pos as int),
        decreases blanks@.len() - i,
    {
        i = i + 1;
    }
    i
}

/// Work out the block structure. Blank lines fully determine it, because a
/// blank line ends the block it follows.
#[verifier::spinoff_prover]
#[verifier::rlimit(100)]
pub fn plan(src: &[u8]) -> (r: Vec<Segment>)
    ensures
        tiles(r@, src@.len() as int),
        r@ == spec_plan(src@),
{
    let len = src.len();
    let blanks = find_blank_lines(src);
    proof {
        lemma_blank_lines_from(src@, 0);
    }
    let mut segments: Vec<Segment> = Vec::new();
    let mut blank_idx: usize = 0;
    let mut pos: usize = 0;

    // Optional leading MESSAGE block, terminated by the first blank line.
    if starts_with_message(src) {
        let end = if blanks.len() > 0 {
            blanks[0].0
        } else {
            len
        };
        if pos < end {
            proof {
                lemma_tiles_push(segments@, 0, Segment::Block(pos, end, CardKind::Message));
            }
            segments.push(Segment::Block(pos, end, CardKind::Message));
        }
        pos = end;
        if blanks.len() > 0 {
            let (bs, be) = blanks[0];
            proof {
                lemma_tiles_push(segments@, pos as int, Segment::Blank(bs, be));
            }
            segments.push(Segment::Blank(bs, be));
            pos = be;
            blank_idx = 1;
        }
    }
    // The title is positional: whatever single line sits here.
    if pos < len {
        let end = line_end(src, pos);
        proof {
            lemma_tiles_push(segments@, pos as int, Segment::Title(pos, end));
        }
        segments.push(Segment::Title(pos, end));
        pos = end;
    }
    let ghost target = spec_plan(src@);
    proof {
        assert(segments@ + block_segs(src@, blanks@, pos as int, blank_idx as int, 0) =~= target);
    }
    let mut k: usize = 0;
    let mut done = false;
    while k < 3 && !done
        invariant
            blanks_ok(src@, blanks@),
            len == src@.len(),
            pos <= len,
            blank_idx <= blanks@.len(),
            k <= 3,
            tiles(segments@, pos as int),
            done ==> pos == len,
            target == spec_plan(src@),
            segments@ + block_segs(src@, blanks@, pos as int, blank_idx as int, k as int) == target,
        decreases 3 - k,
    {
        let ghost seg0 = segments@;
        let ghost pos0 = pos as int;
        let ghost bi0 = blank_idx as int;
        let kind = block_kind(k);
        blank_idx = skip_blanks_before(&blanks, blank_idx, pos);
        let end = if blank_idx < blanks.len() {
            blanks[blank_idx].0
        } else {
            len
        };
        let ghost blk = if pos < end {
            seq![Segment::Block(pos, end, kind)]
        } else {
            Seq::<Segment>::empty()
        };
        if pos < end {
            proof {
                lemma_tiles_push(segments@, pos as int, Segment::Block(pos, end, kind));
            }
            segments.push(Segment::Block(pos, end, kind));
        }
        assert(segments@ =~= seg0 + blk);
        if blank_idx < blanks.len() {
            let (bs, be) = blanks[blank_idx];
            proof {
                lemma_tiles_push(segments@, bs as int, Segment::Blank(bs, be));
            }
            let ghost s1 = segments@;
            segments.push(Segment::Blank(bs, be));
            assert(segments@ =~= s1 + seq![Segment::Blank(bs, be)]);
            pos = be;
            blank_idx = blank_idx + 1;
        } else {
            pos = len;
            done = true;
        }
        proof {
            lemma_block_step(src@, blanks@, seg0, segments@, pos0, bi0, k as int, pos as int, blank_idx as int);
        }
        k = k + 1;
    }
    let ghost mut gk: int = k as int;
    // Anything after the data block's terminating blank line is kept verbatim.
    while pos < len
        invariant
            blanks_ok(src@, blanks@),
            len == src@.len(),
            pos <= len,
            blank_idx <= blanks@.len(),
            tiles(segments@, pos as int),
            pos < len ==> gk >= 3,
            target == spec_plan(src@),
            segments@ + block_segs(src@, blanks@, pos as int, blank_idx as int, gk) == target,
        decreases len - pos,
    {
        let ghost seg0 = segments@;
        let ghost pos0 = pos as int;
        let ghost bi0 = blank_idx as int;
        blank_idx = skip_blanks_before(&blanks, blank_idx, pos);
        let end = if blank_idx < blanks.len() {
            blanks[blank_idx].0
        } else {
            len
        };
        let ghost blk = if pos < end {
            seq![Segment::Block(pos, end, CardKind::Trailing)]
        } else {
            Seq::<Segment>::empty()
        };
        if pos < end {
            proof {
                lemma_tiles_push(segments@, pos as int, Segment::Block(pos, end, CardKind::Trailing));
            }
            segments.push(Segment::Block(pos, end, CardKind::Trailing));
        }
        assert(segments@ =~= seg0 + blk);
        if blank_idx < blanks.len() {
            let (bs, be) = blanks[blank_idx];
            proof {
                lemma_tiles_push(segments@, bs as int, Segment::Blank(bs, be));
            }
            let ghost s1 = segments@;
            segments.push(Segment::Blank(bs, be));
            assert(segments@ =~= s1 + seq![Segment::Blank(bs, be)]);
            pos = be;
            blank_idx = blank_idx + 1;
        } else {
            pos = len;
        }
        proof {
            lemma_block_step(src@, blanks@, seg0, segments@, pos0, bi0, gk, pos as int, blank_idx as int);
            gk = gk + 1;
        }
    }
    proof {
        assert(block_segs(src@, blanks@, pos as int, blank_idx as int, gk) =~= Seq::<Segment>::empty());
        assert(segments@ + Seq::<Segment>::empty() =~= segments@);
    }
    segments
}

/// One block step of [`plan`], as [`block_segs`] describes it: from `pos0`
/// and blank index `bi0`, the step appends the block (if non-empty) and its
/// ending blank line, and continues from the position and index it leaves.
proof fn lemma_block_step(
    src: Seq<u8>,
    blanks: Seq<(usize, usize)>,
    seg0: Seq<Segment>,
    seg1: Seq<Segment>,
    pos0: int,
    bi0: int,
    k: int,
    pos1: int,
    bi1: int,
)
    requires
        blanks_ok(src, blanks),
        0 <= pos0 <= src.len(),
        0 <= bi0 <= blanks.len(),
        ({
            let bj = skip_from(blanks, bi0, pos0);
            let has_blank = bj < blanks.len();
            let end = if has_blank {
                blanks[bj].0 as int
            } else {
                src.len() as int
            };
            let blk = if pos0 < end {
                seq![Segment::Block(pos0 as usize, end as usize, kth_block_kind(k))]
            } else {
                Seq::<Segment>::empty()
            };
            &&& has_blank ==> seg1 == seg0 + blk + seq![Segment::Blank(blanks[bj].0, blanks[bj].1)]
                && pos1 == blanks[bj].1 && bi1 == bj + 1
            &&& !has_blank ==> seg1 == seg0 + blk && pos1 == src.len()
        }),
    ensures
        seg0 + block_segs(src, blanks, pos0, bi0, k) == seg1 + block_segs(src, blanks, pos1, bi1, k + 1),
{
    lemma_skip_from(blanks, bi0, pos0);
    let bj = skip_from(blanks, bi0, pos0);
    if pos0 >= src.len() {
        if bj < blanks.len() {
            assert(blanks[bj].0 < src.len());
            assert(false);
        }
        assert(block_segs(src, blanks, pos1, bi1, k + 1) =~= Seq::<Segment>::empty());
        assert(seg1 =~= seg0);
    } else if bj < blanks.len() {
        assert(blanks[bj].1 > blanks[bj].0);
        assert(blanks[bj].1 <= src.len());
        assert(seg1 + block_segs(src, blanks, pos1, bi1, k + 1) =~= seg0 + block_segs(src, blanks, pos0, bi0, k));
    } else {
        assert(block_segs(src, blanks, pos1, bi1, k + 1) =~= Seq::<Segment>::empty());
        assert(seg1 + block_segs(src, blanks, pos1, bi1, k + 1) =~= seg0 + block_segs(src, blanks, pos0, bi0, k));
    }
}

proof fn lemma_skip_from(blanks: Seq<(usize, usize)>, i: int, pos: int)
    requires
        0 <= i <= blanks.len(),
    ensures
        i <= skip_from(blanks, i, pos) <= blanks.len(),
        skip_from(blanks, i, pos) < blanks.len() ==> blanks[skip_from(blanks, i, pos)].0 >= pos,
    decreases blanks.len() - i,
{
    if i < blanks.len() && blanks[i].0 < pos {
        lemma_skip_from(blanks, i + 1, pos);
    }
}

/// Split `src` into cards whose texts, concatenated, are exactly `src`;
/// `None` when a card would be too long for the lexer's `u32` offsets.
#[verifier::spinoff_prover]
#[verifier::rlimit(60)]
pub fn segment(src: &[u8]) -> (r: Option<Vec<Card>>)
    ensures
        (r is Some) == pieces_fit(spec_pieces(src@)),
        r is None ==> src@.len() > u32::MAX,
        match r {
            Some(cs) => fresh_cards(cs@) && concat_texts(cs@) == src@ && matches_pieces(
                cs@,
                src@,
                spec_pieces(src@),
            ),
            None => true,
        },
{
    let segments = plan(src);
    let mut out: Vec<Card> = Vec::new();
    let mut k: usize = 0;
    proof {
        assert(concat_texts(out@) =~= src@.subrange(0, 0));
        assert(segments@.subrange(0, 0) =~= Seq::<Segment>::empty());
    }
    while k < segments.len()
        invariant
            matches_pieces(out@, src@, segs_pieces(src@, segments@.subrange(0, k as int))),
            tiles(segments@, src@.len() as int),
            segments@ == spec_plan(src@),
            pieces_fit(segs_pieces(src@, segments@.subrange(0, k as int))),
            k <= segments@.len(),
            fresh_cards(out@),
            concat_texts(out@) == src@.subrange(
                0,
                if k == 0 {
                    0
                } else {
                    seg_end(segments@[k - 1])
                },
            ),
        decreases segments@.len() - k,
    {
        let ghost at: int = if k == 0 {
            0
        } else {
            seg_end(segments@[k - 1])
        };
        proof {
            lemma_tiles_at(segments@, src@.len() as int, k as int);
        }
        let ghost before = out@;
        let ghost sk = segments@[k as int];
        let ghost piece = match sk {
            Segment::Blank(a, b) => seq![(a as int, b as int, CardKind::Blank)],
            Segment::Title(a, b) => seq![(a as int, b as int, CardKind::Title)],
            Segment::Block(a, b, kd) => run_pieces(src@, a as int, b as int, kd, None, None, false),
        };
        let ok = match &segments[k] {
            Segment::Blank(a, b) => push_card(src, *a, *b, CardKind::Blank, &mut out),
            Segment::Title(a, b) => push_card(src, *a, *b, CardKind::Title, &mut out),
            Segment::Block(a, b, kind) => segment_run(src, *a, *b, *kind, &mut out),
        };
        proof {
            let sub = segments@.subrange(0, k + 1);
            assert(sub.drop_last() =~= segments@.subrange(0, k as int));
            assert(sub.last() == sk);
            assert(segs_pieces(src@, sub) == segs_pieces(src@, segments@.subrange(0, k as int)) + piece);
            lemma_fit_concat(segs_pieces(src@, segments@.subrange(0, k as int)), piece);
            if !(sk is Block) {
                assert(piece[0].1 - piece[0].0 == seg_end(sk) - seg_start(sk));
                if ok {
                    assert forall|x: int| 0 <= x < piece.len() implies (#[trigger] piece[x]).1 - piece[x].0
                        <= u32::MAX by {
                        assert(x == 0);
                    }
                }
            }
        }
        if !ok {
            proof {
                if !(sk is Block) {
                    assert(!(piece[0].1 - piece[0].0 <= u32::MAX));
                }
                assert(!pieces_fit(segs_pieces(src@, segments@.subrange(0, k + 1))));
                if pieces_fit(spec_pieces(src@)) {
                    lemma_segs_fit_prefix(src@, segments@, k + 1);
                }
            }
            return None;
        }
        proof {
            assert(before.subrange(0, 0) =~= Seq::<Card>::empty());
            assert(before.subrange(0, before.len() as int) =~= before);
            lemma_extend(Seq::<Card>::empty(), before, out@, src@, segs_pieces(src@, segments@.subrange(0, k as int)), piece);
            assert(out@.subrange(0, out@.len() as int) =~= out@);
            let sub = segments@.subrange(0, k + 1);
            assert(sub.drop_last() =~= segments@.subrange(0, k as int));
            assert(sub.last() == sk);
            assert(segs_pieces(src@, sub) == segs_pieces(src@, segments@.subrange(0, k as int)) + piece);
        }
        proof {
            assert(src@.subrange(0, at) + src@.subrange(at, seg_end(segments@[k as int])) =~= src@.subrange(
                0,
                seg_end(segments@[k as int]),
            ));
        }
        k = k + 1;
    }
    proof {
        if segments@.len() > 0 {
            assert(segments@.last() == segments@[segments@.len() - 1]);
        }
        assert(src@.subrange(0, src@.len() as int) =~= src@);
        assert(segments@.subrange(0, segments@.len() as int) =~= segments@);
    }
    Some(out)
}

/// A prefix of the segments yields pieces that fit when all of them do.
proof fn lemma_segs_fit_prefix(src: Seq<u8>, segs: Seq<Segment>, j: int)
    requires
        0 <= j <= segs.len(),
        pieces_fit(segs_pieces(src, segs)),
    ensures
        pieces_fit(segs_pieces(src, segs.subrange(0, j))),
    decreases segs.len(),
{
    if j == segs.len() {
        assert(segs.subrange(0, j) =~= segs);
    } else {
        let d = segs.drop_last();
        let last = match segs.last() {
            Segment::Blank(a, b) => seq![(a as int, b as int, CardKind::Blank)],
            Segment::Title(a, b) => seq![(a as int, b as int, CardKind::Title)],
            Segment::Block(a, b, k) => run_pieces(src, a as int, b as int, k, None, None, false),
        };
        assert(segs_pieces(src, segs) == segs_pieces(src, d) + last);
        lemma_fit_concat(segs_pieces(src, d), last);
        lemma_segs_fit_prefix(src, d, j);
        assert(d.subrange(0, j) =~= segs.subrange(0, j));
    }
}

/// Segment `k` starts where the previous one ended and ends within the range.
proof fn lemma_tiles_at(segs: Seq<Segment>, n: int, k: int)
    requires
        tiles(segs, n),
        0 <= k < segs.len(),
    ensures
        seg_start(segs[k]) == (if k == 0 {
            0
        } else {
            seg_end(segs[k - 1])
        }),
        seg_start(segs[k]) <= seg_end(segs[k]) <= n,
        !(segs[k] is Block) ==> seg_start(segs[k]) < seg_end(segs[k]),
{
    lemma_tiles_end_bound(segs, n, k);
    if k > 0 {
        assert(seg_end(segs[k - 1]) == seg_start(segs[k]));
    }
}

/// Every segment ends within the tiled range.
proof fn lemma_tiles_end_bound(segs: Seq<Segment>, n: int, k: int)
    requires
        tiles(segs, n),
        0 <= k < segs.len(),
    ensures
        seg_end(segs[k]) <= n,
    decreases segs.len() - k,
{
    if k < segs.len() - 1 {
        lemma_tiles_end_bound(segs, n, k + 1);
    } else {
        assert(segs.last() == segs[k]);
    }
}

} // verus!
