//! The card: the atomic unit of the syntax layer. A card owns its exact bytes
//! and the tokens indexing them, so every edit is local to one card.

use vstd::prelude::*;
use vstd::string::StringSliceAdditionalSpecFns;
use crate::bytes::push_range;
use crate::kind::{CardKind, SyntaxKind, spec_is_trivia};
use crate::lex::{lex_bytes, lexable, spec_lex, lemma_lex_tokens_wf};
use crate::token::{Token, tokens_wf, tokens_within};

verus! {

/// Slot value for a card not yet placed in a syntax tree.
pub const UNPLACED: u32 = 0xFFFF_FFFFu32;

/// Some token is `Unknown`.
pub open spec fn any_unknown(ts: Seq<Token>) -> bool {
    exists|i: int| 0 <= i < ts.len() && (#[trigger] ts[i]).kind == SyntaxKind::Unknown
}

/// `t` with the bytes `from..to` replaced by `new`.
pub open spec fn spliced(t: Seq<u8>, from: int, to: int, new: Seq<u8>) -> Seq<u8> {
    t.subrange(0, from) + new + t.subrange(to, t.len() as int)
}

/// `d` is `c` with the text of token `i` replaced by `new`: every token keeps
/// its kind, the ones before `i` keep their spans, and the ones after it
/// shift by the length difference.
pub open spec fn token_replaced(c: Card, d: Card, i: int, new: Seq<u8>) -> bool {
    let ts = c.spec_tokens();
    let us = d.spec_tokens();
    &&& d.wf()
    &&& d.spec_kind() == c.spec_kind()
    &&& d.spec_slot() == c.spec_slot()
    &&& d.spec_text() == spliced(c.spec_text(), ts[i].start as int, ts[i].spec_end(), new)
    &&& us.len() == ts.len()
    &&& forall|j: int| 0 <= j < us.len() ==> (#[trigger] us[j]).kind == ts[j].kind
    &&& forall|j: int| 0 <= j < i ==> #[trigger] us[j] == ts[j]
    &&& us[i].start == ts[i].start
    &&& us[i].len == new.len()
    &&& forall|j: int|
        i < j < us.len() ==> (#[trigger] us[j]).start == ts[j].start - ts[i].len + new.len()
            && us[j].len == ts[j].len
}

/// `d` is `c` with the sorted batch of token edits `es` applied at once: the
/// text is rewritten, every token keeps its kind, each starts where it did
/// plus what the edits before it added, an edited token takes its new
/// length and the others keep theirs.
pub open spec fn batch_rewritten(c: Card, d: Card, es: Seq<(usize, Seq<u8>)>) -> bool {
    let ts = c.spec_tokens();
    let us = d.spec_tokens();
    &&& d.wf()
    &&& d.spec_kind() == c.spec_kind()
    &&& d.spec_slot() == c.spec_slot()
    &&& d.spec_text() == rewritten_text(c.spec_text(), ts, es, 0, 0)
    &&& us.len() == ts.len()
    &&& forall|j: int| 0 <= j < us.len() ==> (#[trigger] us[j]).kind == ts[j].kind
    &&& forall|j: int, m: int|
        0 <= j < us.len() && edits_before(es, j, m) ==> (#[trigger] us[j]).start == ts[j].start
            + #[trigger] delta_prefix(ts, es, m)
    &&& forall|k: int| 0 <= k < es.len() ==> us[(#[trigger] es[k]).0 as int].len == edit_new(es[k]).len()
    &&& forall|j: int|
        0 <= j < us.len() && (forall|k: int| 0 <= k < es.len() ==> (#[trigger] es[k]).0 != j) ==> (
        #[trigger] us[j]).len == ts[j].len
}

/// One card, owning its exact current bytes and the tokens indexing them.
#[derive(Debug, Clone)]
pub struct Card {
    pub(crate) slot: u32,
    kind: CardKind,
    has_unknown: bool,
    text: Vec<u8>,
    tokens: Vec<Token>,
}

impl Card {
    pub closed spec fn spec_slot(&self) -> u32 {
        self.slot
    }

    pub closed spec fn spec_kind(&self) -> CardKind {
        self.kind
    }

    /// The card's exact current bytes, terminator included.
    pub closed spec fn spec_text(&self) -> Seq<u8> {
        self.text@
    }

    pub closed spec fn spec_tokens(&self) -> Seq<Token> {
        self.tokens@
    }

    /// Tokens index the text, the text fits the lexer's limits, and the
    /// unknown-token flag is accurate.
    pub closed spec fn wf(&self) -> bool {
        &&& lexable(self.text@.len() as int)
        &&& tokens_wf(self.tokens@, self.text@.len() as int)
        &&& self.has_unknown == any_unknown(self.tokens@)
    }

    /// What a well-formed card guarantees to readers: its tokens lie inside
    /// its text, in order, and the text fits the lexer's limits.
    pub proof fn lemma_wf(&self)
        requires
            self.wf(),
        ensures
            lexable(self.spec_text().len() as int),
            tokens_wf(self.spec_tokens(), self.spec_text().len() as int),
    {
    }

    /// A card's tokens are held in memory, so they number at most `usize::MAX`.
    pub proof fn lemma_tokens_fit(&self)
        ensures
            self.spec_tokens().len() <= usize::MAX,
    {
        assert(self.tokens@.len() == self.tokens.len());
    }

    /// A freshly lexed card.
    pub fn new(kind: CardKind, text: Vec<u8>) -> (c: Card)
        requires
            lexable(text@.len() as int),
        ensures
            c.wf(),
            c.spec_kind() == kind,
            c.spec_text() == text@,
            c.spec_tokens() == spec_lex(text@, kind),
            c.spec_slot() == UNPLACED,
    {
        let tokens = lex_bytes(text.as_slice(), kind);
        let has_unknown = scan_unknown(&tokens);
        Card { slot: UNPLACED, kind, has_unknown, text, tokens }
    }

    /// Whether this card contains any byte run the lexer could not classify.
    pub fn has_unknown(&self) -> (r: bool)
        requires
            self.wf(),
        ensures
            r == any_unknown(self.spec_tokens()),
    {
        self.has_unknown
    }

    /// Stable id, unique for the model's lifetime and never reused.
    pub fn slot(&self) -> (r: u32)
        ensures
            r == self.spec_slot(),
    {
        self.slot
    }

    pub fn kind(&self) -> (r: CardKind)
        ensures
            r == self.spec_kind(),
    {
        self.kind
    }

    /// The card's exact current bytes.
    pub fn text(&self) -> (r: &[u8])
        ensures
            r@ == self.spec_text(),
    {
        self.text.as_slice()
    }

    pub fn tokens(&self) -> (r: &[Token])
        ensures
            r@ == self.spec_tokens(),
    {
        self.tokens.as_slice()
    }

    /// Source bytes of token `i`.
    pub fn token_text(&self, i: usize) -> (r: &[u8])
        requires
            self.wf(),
            i < self.spec_tokens().len(),
        ensures
            r@ == self.spec_text().subrange(
                self.spec_tokens()[i as int].start as int,
                self.spec_tokens()[i as int].spec_end(),
            ),
    {
        let t = self.tokens[i];
        assert(self.tokens@[i as int] == t);
        vstd::slice::slice_subrange(
            self.text.as_slice(),
            t.start as usize,
            (t.start + t.len) as usize,
        )
    }

    /// Index of the first non-trivia token at or after `i`.
    pub fn skip_trivia(&self, i: usize) -> (r: usize)
        ensures
            r >= i,
            r <= self.spec_tokens().len() || r == i,
            forall|k: int| i <= k < r ==> spec_is_trivia((#[trigger] self.spec_tokens()[k]).kind),
            r < self.spec_tokens().len() ==> !spec_is_trivia(self.spec_tokens()[r as int].kind),
    {
        let mut k = i;
        while k < self.tokens.len() && self.tokens[k].is_trivia()
            invariant
                i <= k,
                i <= self.tokens@.len() ==> k <= self.tokens@.len(),
                i > self.tokens@.len() ==> k == i,
                forall|m: int| i <= m < k ==> spec_is_trivia((#[trigger] self.tokens@[m]).kind),
            decreases self.tokens@.len() - k,
        {
            k = k + 1;
        }
        k
    }

    /// A copy of this card, its tokens reused as they are.
    pub fn duplicate(&self) -> (r: Card)
        ensures
            r.spec_slot() == self.spec_slot(),
            r.spec_kind() == self.spec_kind(),
            r.spec_text() == self.spec_text(),
            r.spec_tokens() == self.spec_tokens(),
            r.wf() == self.wf(),
    {
        Card {
            slot: self.slot,
            kind: self.kind,
            has_unknown: self.has_unknown,
            text: vstd::slice::slice_to_vec(self.text.as_slice()),
            tokens: vstd::slice::slice_to_vec(self.tokens.as_slice()),
        }
    }

    /// The same card under another slot.
    pub(crate) fn with_slot(self, slot: u32) -> (r: Card)
        ensures
            r.spec_slot() == slot,
            r.spec_kind() == self.spec_kind(),
            r.spec_text() == self.spec_text(),
            r.spec_tokens() == self.spec_tokens(),
            r.wf() == self.wf(),
    {
        Card { slot, ..self }
    }

    /// Total length of the card's text in bytes.
    pub fn len_bytes(&self) -> (r: usize)
        ensures
            r == self.spec_text().len(),
    {
        self.text.len()
    }
}


/// The new bytes of an edit.
pub open spec fn edit_new(e: (usize, Seq<u8>)) -> Seq<u8> {
    e.1
}

/// Owned edits as token indices and new bytes.
pub open spec fn vec_edits(es: Seq<(usize, Vec<u8>)>) -> Seq<(usize, Seq<u8>)> {
    Seq::new(es.len(), |k: int| (es[k].0, es[k].1@))
}

/// The edits of a batch as token indices and new bytes.
pub open spec fn byte_edits(es: Seq<(usize, &[u8])>) -> Seq<(usize, Seq<u8>)> {
    Seq::new(es.len(), |k: int| (es[k].0, es[k].1@))
}

/// Edits address distinct tokens of a card with `n` tokens, in increasing order.
pub open spec fn edits_sorted(edits: Seq<(usize, Seq<u8>)>, n: int) -> bool {
    &&& forall|k: int| 0 <= k < edits.len() ==> (#[trigger] edits[k]).0 < n
    &&& forall|k1: int, k2: int|
        0 <= k1 < k2 < edits.len() ==> (#[trigger] edits[k1]).0 < (#[trigger] edits[k2]).0
}

/// The text with each edited token's bytes replaced by its new text, from edit
/// `k` on, copying the original bytes from `cursor`.
pub open spec fn rewritten_text(
    text: Seq<u8>,
    toks: Seq<Token>,
    edits: Seq<(usize, Seq<u8>)>,
    k: int,
    cursor: int,
) -> Seq<u8>
    decreases edits.len() - k,
{
    if k < 0 || k >= edits.len() {
        text.subrange(cursor, text.len() as int)
    } else {
        let t = toks[edits[k].0 as int];
        text.subrange(cursor, t.start as int) + edit_new(edits[k]) + rewritten_text(
            text,
            toks,
            edits,
            k + 1,
            t.spec_end(),
        )
    }
}

/// Total change in length made by the first `m` edits.
pub open spec fn delta_prefix(toks: Seq<Token>, edits: Seq<(usize, Seq<u8>)>, m: int) -> int
    decreases m,
{
    if m <= 0 {
        0
    } else {
        delta_prefix(toks, edits, m - 1) + edit_new(edits[m - 1]).len() - toks[edits[m
            - 1].0 as int].len
    }
}

/// `m` edits address tokens before token `j`, and the rest address `j` or later.
pub open spec fn edits_before(edits: Seq<(usize, Seq<u8>)>, j: int, m: int) -> bool {
    &&& 0 <= m <= edits.len()
    &&& (m == 0 || edits[m - 1].0 < j)
    &&& (m == edits.len() || edits[m].0 >= j)
}

impl Card {
    /// Replace one token's text, keeping its kind and every other token's
    /// identity. The following tokens' spans shift by the length delta.
    pub fn set_token_text(&mut self, i: usize, new: &str)
        requires
            old(self).wf(),
            i < old(self).spec_tokens().len(),
            lexable(old(self).spec_text().len() - old(self).spec_tokens()[i as int].len
                + new.spec_bytes().len()),
        ensures
            final(self).wf(),
            final(self).spec_kind() == old(self).spec_kind(),
            final(self).spec_slot() == old(self).spec_slot(),
            final(self).spec_text() == old(self).spec_text().subrange(
                0,
                old(self).spec_tokens()[i as int].start as int,
            ) + new.spec_bytes() + old(self).spec_text().subrange(
                old(self).spec_tokens()[i as int].spec_end(),
                old(self).spec_text().len() as int,
            ),
            final(self).spec_tokens().len() == old(self).spec_tokens().len(),
            forall|j: int|
                0 <= j < final(self).spec_tokens().len() ==> (#[trigger] final(self).spec_tokens()[j]).kind == old(self).spec_tokens()[j].kind,
            forall|j: int|
                0 <= j < i ==> #[trigger] final(self).spec_tokens()[j] == old(self).spec_tokens()[j],
            final(self).spec_tokens()[i as int].start == old(self).spec_tokens()[i as int].start,
            final(self).spec_tokens()[i as int].len == new.spec_bytes().len(),
            forall|j: int|
                i < j < final(self).spec_tokens().len() ==> (#[trigger] final(self).spec_tokens()[j]).start == old(self).spec_tokens()[j].start - old(self).spec_tokens()[i as int].len + new.spec_bytes().len() && final(self).spec_tokens()[j].len == old(self).spec_tokens()[j].len,
    {
        self.set_token_bytes(i, new.as_bytes());
    }

    /// [`Card::set_token_text`] for replacement text given as bytes.
    pub fn set_token_bytes(&mut self, i: usize, nb: &[u8])
        requires
            old(self).wf(),
            i < old(self).spec_tokens().len(),
            lexable(old(self).spec_text().len() - old(self).spec_tokens()[i as int].len
                + nb@.len()),
        ensures
            token_replaced(*old(self), *final(self), i as int, nb@),
    {
        let t = self.tokens[i];
        let ghost old_toks = self.tokens@;
        let ghost old_text = self.text@;
        assert(old_toks[i as int] == t);
        let start = t.start as usize;
        let end = (t.start + t.len) as usize;
        let mut text: Vec<u8> = Vec::new();
        push_range(&mut text, self.text.as_slice(), 0, start);
        push_range(&mut text, nb, 0, nb.len());
        push_range(&mut text, self.text.as_slice(), end, self.text.len());
        assert(nb@.subrange(0, nb@.len() as int) =~= nb@);
        let new_len = nb.len() as u32;
        let mut tokens: Vec<Token> = Vec::new();
        let mut j: usize = 0;
        let n = self.tokens.len();
        while j < n
            invariant
                n == old_toks.len(),
                self.tokens@ == old_toks,
                self.text@ == old_text,
                i < n,
                t == old_toks[i as int],
                new_len == nb@.len(),
                tokens_wf(old_toks, old_text.len() as int),
                lexable(text@.len() as int),
                text@.len() == old_text.len() - t.len + nb@.len(),
                j <= n,
                tokens@.len() == j,
                forall|k: int| 0 <= k < j ==> (#[trigger] tokens@[k]).kind == old_toks[k].kind,
                forall|k: int| 0 <= k < j && k < i ==> #[trigger] tokens@[k] == old_toks[k],
                j > i ==> tokens@[i as int].start == t.start && tokens@[i as int].len == new_len,
                forall|k: int|
                    i < k < j ==> (#[trigger] tokens@[k]).start == old_toks[k].start - t.len
                        + new_len && tokens@[k].len == old_toks[k].len,
            decreases n - j,
        {
            let o = self.tokens[j];
            if j < i {
                tokens.push(o);
            } else if j == i {
                tokens.push(Token { kind: o.kind, start: o.start, len: new_len });
            } else {
                assert(old_toks[i as int].spec_end() <= old_toks[j as int].start);
                assert(old_toks[j as int].spec_end() <= old_text.len());
                tokens.push(Token { kind: o.kind, start: o.start - t.len + new_len, len: o.len });
            }
            j = j + 1;
        }
        proof {
            let nt = tokens@;
            let l = text@.len() as int;
            assert forall|a: int| 0 <= a < nt.len() implies 0 <= #[trigger] nt[a].start
                && nt[a].spec_end() <= l by {
                assert(old_toks[a].spec_end() <= old_text.len());
                if a > i {
                    assert(old_toks[i as int].spec_end() <= old_toks[a].start);
                }
            }
            assert forall|a: int, b: int| 0 <= a < b < nt.len() implies (
            #[trigger] nt[a]).spec_end() <= (#[trigger] nt[b]).start by {
                assert(old_toks[a].spec_end() <= old_toks[b].start);
                if a < i && b > i {
                    assert(old_toks[i as int].spec_end() <= old_toks[b].start);
                }
                if a == i {
                    assert(old_toks[i as int].spec_end() <= old_toks[b].start);
                }
            }
            assert(forall|a: int| 0 <= a < nt.len() ==> (#[trigger] nt[a]).kind == old_toks[a].kind);
            if any_unknown(old_toks) {
                let w = choose|a: int| 0 <= a < old_toks.len() && (#[trigger] old_toks[a]).kind
                    == SyntaxKind::Unknown;
                assert(nt[w].kind == SyntaxKind::Unknown);
            }
            if any_unknown(nt) {
                let w = choose|a: int| 0 <= a < nt.len() && (#[trigger] nt[a]).kind
                    == SyntaxKind::Unknown;
                assert(old_toks[w].kind == SyntaxKind::Unknown);
            }
        }
        self.text = text;
        self.tokens = tokens;
    }

    /// Replace many tokens in one pass, rebuilding the card's text once.
    /// `edits` must be sorted by token index and free of duplicates.
    pub fn rewrite_tokens(&mut self, edits: &[(usize, &[u8])])
        requires
            old(self).wf(),
            edits_sorted(byte_edits(edits@), old(self).spec_tokens().len() as int),
            lexable(old(self).spec_text().len() + delta_prefix(
                old(self).spec_tokens(),
                byte_edits(edits@),
                byte_edits(edits@).len() as int,
            )),
        ensures
            final(self).wf(),
            final(self).spec_kind() == old(self).spec_kind(),
            final(self).spec_slot() == old(self).spec_slot(),
            final(self).spec_text() == rewritten_text(
                old(self).spec_text(),
                old(self).spec_tokens(),
                byte_edits(edits@),
                0,
                0,
            ),
            final(self).spec_tokens().len() == old(self).spec_tokens().len(),
            forall|j: int|
                0 <= j < final(self).spec_tokens().len() ==> (#[trigger] final(self).spec_tokens()[j]).kind == old(self).spec_tokens()[j].kind,
            forall|j: int, m: int|
                0 <= j < final(self).spec_tokens().len() && edits_before(byte_edits(edits@), j, m) ==> (
                #[trigger] final(self).spec_tokens()[j]).start == old(self).spec_tokens()[j].start
                    + #[trigger] delta_prefix(old(self).spec_tokens(), byte_edits(edits@), m),
            forall|k: int|
                0 <= k < byte_edits(edits@).len() ==> final(self).spec_tokens()[(#[trigger] byte_edits(edits@)[k]).0 as int].len
                    == edit_new(byte_edits(edits@)[k]).len(),
            forall|j: int|
                0 <= j < final(self).spec_tokens().len() && (forall|k: int|
                    0 <= k < byte_edits(edits@).len() ==> (#[trigger] byte_edits(edits@)[k]).0 != j) ==> (#[trigger] final(self).spec_tokens()[j]).len == old(self).spec_tokens()[j].len,
            batch_rewritten(*old(self), *final(self), byte_edits(edits@)),
    {
        let ghost toks = self.tokens@;
        let ghost text0 = self.text@;
        let ghost full = rewritten_text(text0, toks, byte_edits(edits@), 0, 0);
        let n = self.tokens.len();
        let mut out: Vec<u8> = Vec::new();
        let mut new_toks: Vec<Token> = Vec::new();
        let mut cursor: usize = 0;
        let mut next: usize = 0;
        let mut i: usize = 0;
        proof {
            if byte_edits(edits@).len() > 0 {
                assert(byte_edits(edits@)[0].0 < n);
                assert(toks[byte_edits(edits@)[0].0 as int].spec_end() <= text0.len());
            }
            lemma_rewritten_len(text0, toks, byte_edits(edits@), 0, 0);
            assert(out@ + rewritten_text(text0, toks, byte_edits(edits@), 0, 0) =~= full);
        }
        while i < n
            invariant
                n == toks.len(),
                self.tokens@ == toks,
                self.text@ == text0,
                rw_inv(text0, toks, byte_edits(edits@), full, i as int, next as int, cursor as int, out@, new_toks@),
            decreases n - i,
        {
            rewrite_step(
                self.text.as_slice(),
                self.tokens.as_slice(),
                edits,
                i,
                &mut next,
                &mut cursor,
                &mut out,
                &mut new_toks,
                Ghost(full),
            );
            i = i + 1;
        }
        let ghost before_tail = out@;
        push_range(&mut out, self.text.as_slice(), cursor, self.text.len());
        proof {
            assert(next == byte_edits(edits@).len()) by {
                if next < byte_edits(edits@).len() {
                    assert(byte_edits(edits@)[next as int].0 < n);
                }
            }
            assert(out@ =~= full);
            crate::token::lemma_tokens_within_widen(
                new_toks@,
                0,
                before_tail.len() + (rw_bound(toks, i as int) - cursor),
                0,
                out@.len() as int,
            );
            let nt = new_toks@;
            if any_unknown(toks) {
                let w = choose|a: int| 0 <= a < toks.len() && (#[trigger] toks[a]).kind
                    == SyntaxKind::Unknown;
                assert(nt[w].kind == SyntaxKind::Unknown);
            }
            if any_unknown(nt) {
                let w = choose|a: int| 0 <= a < nt.len() && (#[trigger] nt[a]).kind
                    == SyntaxKind::Unknown;
                assert(toks[w].kind == SyntaxKind::Unknown);
            }
        }
        self.text = out;
        self.tokens = new_toks;
    }

    /// Structural in-card edit: replace a byte range of the card's text and
    /// re-lex just this card.
    pub fn splice(&mut self, range: std::ops::Range<usize>, new: &str)
        requires
            old(self).wf(),
            range.start <= range.end <= old(self).spec_text().len(),
            lexable(old(self).spec_text().len() - (range.end - range.start)
                + new.spec_bytes().len()),
        ensures
            final(self).wf(),
            final(self).spec_kind() == old(self).spec_kind(),
            final(self).spec_slot() == old(self).spec_slot(),
            final(self).spec_text() == old(self).spec_text().subrange(0, range.start as int)
                + new.spec_bytes() + old(self).spec_text().subrange(
                range.end as int,
                old(self).spec_text().len() as int,
            ),
            final(self).spec_tokens() == spec_lex(final(self).spec_text(), old(self).spec_kind()),
    {
        self.splice_bytes(range.start, range.end, new.as_bytes());
    }

    /// [`Card::splice`] of the bytes `from..to`, with the replacement given as
    /// bytes.
    pub fn splice_bytes(&mut self, from: usize, to: usize, nb: &[u8])
        requires
            old(self).wf(),
            from <= to <= old(self).spec_text().len(),
            lexable(old(self).spec_text().len() - (to - from) + nb@.len()),
        ensures
            final(self).wf(),
            final(self).spec_kind() == old(self).spec_kind(),
            final(self).spec_slot() == old(self).spec_slot(),
            final(self).spec_text() == spliced(old(self).spec_text(), from as int, to as int, nb@),
            final(self).spec_tokens() == spec_lex(final(self).spec_text(), old(self).spec_kind()),
    {
        let range = from..to;
        let mut text: Vec<u8> = Vec::new();
        push_range(&mut text, self.text.as_slice(), 0, range.start);
        push_range(&mut text, nb, 0, nb.len());
        push_range(&mut text, self.text.as_slice(), range.end, self.text.len());
        assert(nb@.subrange(0, nb@.len() as int) =~= nb@);
        let tokens = lex_bytes(text.as_slice(), self.kind);
        self.has_unknown = scan_unknown(&tokens);
        self.text = text;
        self.tokens = tokens;
    }
}


/// Old-coordinate end of the tokens already rewritten: the end of token `i - 1`.
pub open spec fn rw_bound(toks: Seq<Token>, i: int) -> int {
    if i <= 0 {
        0
    } else {
        toks[i - 1].spec_end()
    }
}

/// The state of a batch rewrite after the first `i` tokens: `out` holds the
/// rewritten text up to `cursor` (an old offset), `next` edits are applied,
/// and the first `i` new tokens are placed.
pub open spec fn rw_inv(
    text0: Seq<u8>,
    toks: Seq<Token>,
    edits: Seq<(usize, Seq<u8>)>,
    full: Seq<u8>,
    i: int,
    next: int,
    cursor: int,
    out: Seq<u8>,
    nt: Seq<Token>,
) -> bool {
    &&& tokens_wf(toks, text0.len() as int)
    &&& lexable(text0.len() as int)
    &&& lexable(full.len() as int)
    &&& edits_sorted(edits, toks.len() as int)
    &&& full == rewritten_text(text0, toks, edits, 0, 0)
    &&& 0 <= i <= toks.len()
    &&& 0 <= next <= edits.len()
    &&& forall|k: int| 0 <= k < next ==> (#[trigger] edits[k]).0 < i
    &&& next < edits.len() ==> edits[next].0 >= i
    &&& 0 <= cursor <= rw_bound(toks, i) <= text0.len()
    &&& i < toks.len() ==> rw_bound(toks, i) <= toks[i].start
    &&& out.len() == cursor + delta_prefix(toks, edits, next)
    &&& out + rewritten_text(text0, toks, edits, next, cursor) == full
    &&& nt.len() == i
    &&& tokens_within(nt, 0, out.len() + (rw_bound(toks, i) - cursor))
    &&& forall|j: int| 0 <= j < i ==> (#[trigger] nt[j]).kind == toks[j].kind
    &&& forall|j: int, m: int|
        0 <= j < i && edits_before(edits, j, m) ==> (#[trigger] nt[j]).start == toks[j].start
            + #[trigger] delta_prefix(toks, edits, m)
    &&& forall|k: int|
        0 <= k < next ==> nt[(#[trigger] edits[k]).0 as int].len == edit_new(edits[k]).len()
    &&& forall|j: int|
        0 <= j < i && (forall|k: int| 0 <= k < edits.len() ==> (#[trigger] edits[k]).0 != j) ==> (
        #[trigger] nt[j]).len == toks[j].len
}

/// Rewrite token `i`: copy the gap before it and either its new text (when an
/// edit addresses it) or nothing, and place it in the new token list.
#[verifier::spinoff_prover]
#[verifier::rlimit(60)]
fn rewrite_step(
    text: &[u8],
    tokens: &[Token],
    edits: &[(usize, &[u8])],
    i: usize,
    next: &mut usize,
    cursor: &mut usize,
    out: &mut Vec<u8>,
    new_toks: &mut Vec<Token>,
    Ghost(full): Ghost<Seq<u8>>,
)
    requires
        i < tokens@.len(),
        rw_inv(
            text@,
            tokens@,
            byte_edits(edits@),
            full,
            i as int,
            *old(next) as int,
            *old(cursor) as int,
            old(out)@,
            old(new_toks)@,
        ),
    ensures
        rw_inv(
            text@,
            tokens@,
            byte_edits(edits@),
            full,
            i + 1,
            *final(next) as int,
            *final(cursor) as int,
            final(out)@,
            final(new_toks)@,
        ),
{
    let ghost toks = tokens@;
    let ghost text0 = text@;
    let token = tokens[i];
    let start = token.start as usize;
    let tok_end = (token.start + token.len) as usize;
    let ghost bound = rw_bound(toks, i as int);
    proof {
        assert(toks[i as int] == token);
        assert(token.spec_end() <= text0.len());
        assert(full.len() == out@.len() + rewritten_text(text0, toks, byte_edits(edits@), *next as int, *cursor as int).len());
        lemma_rewritten_len_bound(text0, toks, byte_edits(edits@), *next as int, *cursor as int, i as int);
        assert forall|m: int| edits_before(byte_edits(edits@), i as int, m) implies m == *next by {
            if m < *next {
                assert(byte_edits(edits@)[m].0 < i);
            } else if m > *next {
                assert(byte_edits(edits@)[*next as int].0 <= byte_edits(edits@)[m - 1].0);
            }
        }
        assert(edits_before(byte_edits(edits@), i as int, *next as int));
    }
    let ghost old_out_len = out@.len();
    let ghost old_new_toks = new_toks@;
    let ghost old_next = *next;
    let ghost old_cursor = *cursor;
    if *next < edits.len() && edits[*next].0 == i {
        let nb = edits[*next].1;
        let ghost rest_next = rewritten_text(text0, toks, byte_edits(edits@), *next + 1, tok_end as int);
        assert(rewritten_text(text0, toks, byte_edits(edits@), *next as int, *cursor as int)
            == text0.subrange(*cursor as int, start as int) + nb@ + rest_next);
        let new_start = out.len() + (start - *cursor);
        push_range(out, text, *cursor, start);
        push_range(out, nb, 0, nb.len());
        assert(nb@.subrange(0, nb@.len() as int) =~= nb@);
        assert(out@ + rest_next =~= full);
        new_toks.push(Token::new(token.kind, new_start, nb.len()));
        proof {
            assert(new_toks@[i as int].spec_end() == out@.len());
            crate::token::lemma_tokens_within_concat(
                old_new_toks,
                seq![new_toks@[i as int]],
                0,
                old_out_len + (bound - old_cursor),
                out@.len() as int,
            );
            assert(new_toks@ =~= old_new_toks + seq![new_toks@[i as int]]);
            assert forall|j: int|
                0 <= j < i + 1 && (forall|k: int|
                    0 <= k < byte_edits(edits@).len() ==> (#[trigger] byte_edits(edits@)[k]).0 != j) implies (
            #[trigger] new_toks@[j]).len == toks[j].len by {
                if j == i {
                    assert(byte_edits(edits@)[old_next as int].0 == i);
                }
            }
            assert forall|k: int| 0 <= k < old_next + 1 implies new_toks@[(
            #[trigger] byte_edits(edits@)[k]).0 as int].len == edit_new(byte_edits(edits@)[k]).len() by {
                if k < old_next {
                    assert(byte_edits(edits@)[k].0 < i);
                    assert(new_toks@[byte_edits(edits@)[k].0 as int] == old_new_toks[byte_edits(edits@)[k].0 as int]);
                }
            }
            if old_next + 1 < byte_edits(edits@).len() {
                assert(byte_edits(edits@)[old_next as int].0 < byte_edits(edits@)[old_next + 1].0);
            }
            assert(delta_prefix(toks, byte_edits(edits@), old_next + 1) == delta_prefix(toks, byte_edits(edits@), old_next as int)
                + edit_new(byte_edits(edits@)[old_next as int]).len() - toks[i as int].len);
        }
        *cursor = tok_end;
        *next = *next + 1;
    } else {
        let new_start = out.len() + (start - *cursor);
        new_toks.push(Token::new(token.kind, new_start, token.len as usize));
        proof {
            crate::token::lemma_tokens_within_concat(
                old_new_toks,
                seq![new_toks@[i as int]],
                0,
                old_out_len + (bound - old_cursor),
                out@.len() + (tok_end - old_cursor),
            );
            assert(new_toks@ =~= old_new_toks + seq![new_toks@[i as int]]);
            assert forall|k: int| 0 <= k < old_next implies new_toks@[(
            #[trigger] byte_edits(edits@)[k]).0 as int].len == edit_new(byte_edits(edits@)[k]).len() by {
                assert(byte_edits(edits@)[k].0 < i);
                assert(new_toks@[byte_edits(edits@)[k].0 as int] == old_new_toks[byte_edits(edits@)[k].0 as int]);
            }
        }
    }
    proof {
        if i + 1 < toks.len() {
            assert(toks[i as int].spec_end() <= toks[i + 1].start);
        }
        assert(rw_bound(toks, i + 1) == tok_end);
    }
}

/// The length of the rewritten text from edit `k` and `cursor` on.
proof fn lemma_rewritten_len(
    text: Seq<u8>,
    toks: Seq<Token>,
    edits: Seq<(usize, Seq<u8>)>,
    k: int,
    cursor: int,
)
    requires
        tokens_wf(toks, text.len() as int),
        edits_sorted(edits, toks.len() as int),
        0 <= k <= edits.len(),
        0 <= cursor <= text.len(),
        k < edits.len() ==> cursor <= toks[edits[k].0 as int].start,
    ensures
        rewritten_text(text, toks, edits, k, cursor).len() == text.len() - cursor + delta_prefix(
            toks,
            edits,
            edits.len() as int,
        ) - delta_prefix(toks, edits, k),
    decreases edits.len() - k,
{
    if k < edits.len() {
        let e = edits[k].0 as int;
        assert(toks[e].spec_end() <= text.len());
        if k + 1 < edits.len() {
            let e2 = edits[k + 1].0 as int;
            assert(e < e2);
            assert(toks[e].spec_end() <= toks[e2].start);
        }
        lemma_rewritten_len(text, toks, edits, k + 1, toks[e].spec_end());
        lemma_delta_prefix_split(toks, edits, k);
    }
}

proof fn lemma_delta_prefix_split(toks: Seq<Token>, edits: Seq<(usize, Seq<u8>)>, k: int)
    requires
        0 <= k < edits.len(),
    ensures
        delta_prefix(toks, edits, k + 1) == delta_prefix(toks, edits, k) + edit_new(edits[k]).len()
            - toks[edits[k].0 as int].len,
{
}

/// The rewritten text from edit `k` and `cursor` on is at least as long as
/// what the next token `i` needs: its gap and its (possibly new) bytes.
proof fn lemma_rewritten_len_bound(
    text: Seq<u8>,
    toks: Seq<Token>,
    edits: Seq<(usize, Seq<u8>)>,
    k: int,
    cursor: int,
    i: int,
)
    requires
        tokens_wf(toks, text.len() as int),
        edits_sorted(edits, toks.len() as int),
        0 <= k <= edits.len(),
        0 <= i < toks.len(),
        k < edits.len() ==> edits[k].0 >= i,
        0 <= cursor <= toks[i].start,
    ensures
        k < edits.len() && edits[k].0 == i ==> rewritten_text(text, toks, edits, k, cursor).len()
            >= toks[i].start - cursor + edit_new(edits[k]).len(),
        !(k < edits.len() && edits[k].0 == i) ==> rewritten_text(
            text,
            toks,
            edits,
            k,
            cursor,
        ).len() >= toks[i].spec_end() - cursor,
{
    if k < edits.len() {
        let e = edits[k].0 as int;
        if e > i {
            assert(toks[i].spec_end() <= toks[e].start);
        }
        assert(toks[e].spec_end() <= text.len());
    }
    assert(toks[i].spec_end() <= text.len());
}

/// A batch rewrite with no edits leaves the text as it was.
pub proof fn law_empty_rewrite_is_identity(text: Seq<u8>, toks: Seq<Token>)
    ensures
        rewritten_text(text, toks, Seq::<(usize, Seq<u8>)>::empty(), 0, 0) == text,
{
    assert(text.subrange(0, text.len() as int) =~= text);
}

/// Rewriting one token in a batch gives the same text as replacing that token
/// alone with `set_token_text`.
pub proof fn law_single_rewrite_matches_set_token_text(
    text: Seq<u8>,
    toks: Seq<Token>,
    i: usize,
    new: Seq<u8>,
)
    requires
        tokens_wf(toks, text.len() as int),
        i < toks.len(),
    ensures
        rewritten_text(text, toks, seq![(i, new)], 0, 0) == text.subrange(
            0,
            toks[i as int].start as int,
        ) + new + text.subrange(toks[i as int].spec_end(), text.len() as int),
{
    let e = seq![(i, new)];
    assert(e[0] == (i, new));
    assert(rewritten_text(text, toks, e, 1, toks[i as int].spec_end()) == text.subrange(
        toks[i as int].spec_end(),
        text.len() as int,
    ));
}

proof fn lemma_batch_split(
    text: Seq<u8>,
    toks: Seq<Token>,
    edits: Seq<(usize, Seq<u8>)>,
    k: int,
    c: int,
)
    requires
        tokens_wf(toks, text.len() as int),
        edits_sorted(edits, toks.len() as int),
        edits.len() > 0,
        0 <= k < edits.len(),
        0 <= c <= toks[edits[k].0 as int].start,
    ensures
        ({
            let m = edits.len() - 1;
            let pre = edits.drop_last();
            let t = toks[edits[m].0 as int];
            let r = rewritten_text(text, toks, pre, k, c);
            let s = t.start - c + delta_prefix(toks, edits, m) - delta_prefix(toks, edits, k);
            &&& 0 <= s
            &&& s + t.len <= r.len()
            &&& rewritten_text(text, toks, edits, k, c) == r.subrange(0, s) + edits[m].1 + r.subrange(
                s + t.len,
                r.len() as int,
            )
        }),
    decreases edits.len() - k,
{
    let m = edits.len() - 1;
    let pre = edits.drop_last();
    let t = toks[edits[m].0 as int];
    let tk = toks[edits[k].0 as int];
    assert(0 <= tk.start && tk.spec_end() <= text.len());
    if k == m {
        let r = rewritten_text(text, toks, pre, k, c);
        assert(r == text.subrange(c, text.len() as int));
        assert(rewritten_text(text, toks, edits, k + 1, t.spec_end()) == text.subrange(
            t.spec_end(),
            text.len() as int,
        ));
        assert(r.subrange(0, t.start - c) =~= text.subrange(c, t.start as int));
        assert(r.subrange(t.start - c + t.len, r.len() as int) =~= text.subrange(
            t.spec_end(),
            text.len() as int,
        ));
    } else {
        let j = edits[k].0 as int;
        let nxt = edits[k + 1].0 as int;
        assert(edits[k].0 < edits[k + 1].0);
        assert(toks[j].spec_end() <= toks[nxt].start);
        lemma_batch_split(text, toks, edits, k + 1, toks[j].spec_end());
        assert(pre[k] == edits[k]);
        let r1 = rewritten_text(text, toks, pre, k + 1, toks[j].spec_end());
        let p = text.subrange(c, toks[j].start as int) + edit_new(edits[k]);
        let r = rewritten_text(text, toks, pre, k, c);
        assert(r == p + r1);
        let s1 = t.start - toks[j].spec_end() + delta_prefix(toks, edits, m) - delta_prefix(
            toks,
            edits,
            k + 1,
        );
        let s = t.start - c + delta_prefix(toks, edits, m) - delta_prefix(toks, edits, k);
        assert(delta_prefix(toks, edits, k + 1) == delta_prefix(toks, edits, k) + edit_new(
            edits[k],
        ).len() - toks[j].len);
        assert(s == p.len() + s1);
        assert(r.subrange(0, s) =~= p + r1.subrange(0, s1));
        assert(r.subrange(s + t.len, r.len() as int) =~= r1.subrange(s1 + t.len, r1.len() as int));
        assert(rewritten_text(text, toks, edits, k, c) == p + rewritten_text(
            text,
            toks,
            edits,
            k + 1,
            toks[j].spec_end(),
        ));
        assert(rewritten_text(text, toks, edits, k, c) =~= r.subrange(0, s) + edits[m].1
            + r.subrange(s + t.len, r.len() as int));
    }
}

/// A batch of edits gives the same text as the batch without its last edit
/// followed by that last edit alone, at the token's place in the text the
/// shorter batch left (moved by the length the earlier edits added). By
/// induction, a batch is its edits applied one at a time in order.
pub proof fn law_batch_is_its_edits_in_order(
    text: Seq<u8>,
    toks: Seq<Token>,
    edits: Seq<(usize, Seq<u8>)>,
)
    requires
        tokens_wf(toks, text.len() as int),
        edits_sorted(edits, toks.len() as int),
        edits.len() > 0,
    ensures
        ({
            let m = edits.len() - 1;
            let mid = rewritten_text(text, toks, edits.drop_last(), 0, 0);
            let t = toks[edits[m].0 as int];
            let at = t.start + delta_prefix(toks, edits, m);
            &&& 0 <= at
            &&& at + t.len <= mid.len()
            &&& rewritten_text(text, toks, edits, 0, 0) == mid.subrange(0, at) + edits[m].1
                + mid.subrange(at + t.len, mid.len() as int)
        }),
{
    let t0 = toks[edits[0].0 as int];
    assert(0 <= t0.start);
    lemma_batch_split(text, toks, edits, 0, 0);
}

pub proof fn lemma_delta_prefix_drop_last(toks: Seq<Token>, es: Seq<(usize, Seq<u8>)>, m: int)
    requires
        0 <= m < es.len(),
    ensures
        delta_prefix(toks, es.drop_last(), m) == delta_prefix(toks, es, m),
    decreases m,
{
    if m > 0 {
        lemma_delta_prefix_drop_last(toks, es, m - 1);
    }
}

/// The setting the one-by-one law works in: `d` is the whole batch on `c`,
/// `mid` the batch without its last edit, `e` that last edit made on `mid`.
pub open spec fn one_by_one_setting(
    c: Card,
    es: Seq<(usize, Seq<u8>)>,
    mid: Card,
    d: Card,
    e: Card,
) -> bool {
    &&& c.wf()
    &&& edits_sorted(es, c.spec_tokens().len() as int)
    &&& es.len() > 0
    &&& batch_rewritten(c, mid, es.drop_last())
    &&& batch_rewritten(c, d, es)
    &&& token_replaced(mid, e, es.last().0 as int, es.last().1)
}

#[verifier::rlimit(40)]
proof fn lemma_one_by_one_before(
    c: Card,
    es: Seq<(usize, Seq<u8>)>,
    mid: Card,
    d: Card,
    e: Card,
    j: int,
)
    requires
        one_by_one_setting(c, es, mid, d, e),
        0 <= j < es.last().0,
    ensures
        e.spec_tokens()[j] == d.spec_tokens()[j],
{
    let ts = c.spec_tokens();
    let pre = es.drop_last();
    let m = es.len() - 1;
    let ms = mid.spec_tokens();
    let us = d.spec_tokens();
    lemma_edits_before_exists(es, j);
    let mj = choose|q: int| edits_before(es, j, q);
    assert(edits_before(es, j, mj));
    assert(mj <= m);
    lemma_delta_prefix_drop_last(ts, es, mj);
    if mj < m {
        assert(pre[mj] == es[mj]);
    }
    assert(edits_before(pre, j, mj));
    assert(ms[j].start == us[j].start);
    if exists|k: int| 0 <= k < es.len() && (#[trigger] es[k]).0 == j {
        let k = choose|k: int| 0 <= k < es.len() && (#[trigger] es[k]).0 == j;
        assert(k < m);
        assert(pre[k] == es[k]);
        assert(ms[j].len == us[j].len);
    } else {
        assert forall|k: int| 0 <= k < pre.len() implies (#[trigger] pre[k]).0 != j by {
            assert(pre[k] == es[k]);
        }
        assert(ms[j].len == us[j].len);
    }
}

#[verifier::rlimit(40)]
proof fn lemma_one_by_one_after(
    c: Card,
    es: Seq<(usize, Seq<u8>)>,
    mid: Card,
    d: Card,
    e: Card,
    j: int,
)
    requires
        one_by_one_setting(c, es, mid, d, e),
        es.last().0 <= j < c.spec_tokens().len(),
    ensures
        e.spec_tokens()[j] == d.spec_tokens()[j],
{
    let ts = c.spec_tokens();
    let pre = es.drop_last();
    let m = es.len() - 1;
    let i = es[m].0 as int;
    let ms = mid.spec_tokens();
    let us = d.spec_tokens();
    let ws = e.spec_tokens();
    assert(delta_prefix(ts, pre, m) == delta_prefix(ts, es, m)) by {
        if m > 0 {
            lemma_delta_prefix_drop_last(ts, es, m - 1);
            assert(pre[m - 1] == es[m - 1]);
        }
    }
    assert forall|k: int| 0 <= k < pre.len() implies (#[trigger] pre[k]).0 < i by {
        assert(pre[k] == es[k]);
    }
    if m > 0 {
        assert(pre[m - 1] == es[m - 1]);
    }
    assert(edits_before(pre, i, m));
    assert(edits_before(es, i, m));
    assert(ms[i].start == ts[i].start + delta_prefix(ts, pre, m));
    assert(ms[i].len == ts[i].len);
    if j == i {
        assert(ws[j].start == us[j].start);
        assert(ws[j].len == us[j].len);
    } else {
        assert(edits_before(pre, j, m));
        assert(edits_before(es, j, m + 1));
        assert(delta_prefix(ts, es, m + 1) == delta_prefix(ts, es, m) + es[m].1.len() - ts[i].len);
        assert forall|k: int| 0 <= k < es.len() implies (#[trigger] es[k]).0 != j by {
            if k < m {
                assert(es[k].0 < es[m].0);
            }
        }
        assert(ms[j].len == ts[j].len);
        assert(ws[j].start == us[j].start);
        assert(ws[j].len == us[j].len);
    }
}

/// A batch of edits gives the same card as the batch without its last edit
/// followed by that last edit made alone with `set_token_text`: the same
/// text and the same tokens (the step of
/// [`law_batch_is_its_edits_made_one_at_a_time`]).
pub proof fn law_batch_is_its_edits_one_by_one(
    c: Card,
    es: Seq<(usize, Seq<u8>)>,
    mid: Card,
    d: Card,
    e: Card,
)
    requires
        c.wf(),
        edits_sorted(es, c.spec_tokens().len() as int),
        es.len() > 0,
        batch_rewritten(c, mid, es.drop_last()),
        batch_rewritten(c, d, es),
        token_replaced(mid, e, es.last().0 as int, es.last().1),
    ensures
        e.spec_text() == d.spec_text(),
        e.spec_tokens() == d.spec_tokens(),
{
    let ts = c.spec_tokens();
    let pre = es.drop_last();
    let m = es.len() - 1;
    let i = es[m].0 as int;
    assert(one_by_one_setting(c, es, mid, d, e));
    c.lemma_wf();
    assert(delta_prefix(ts, pre, m) == delta_prefix(ts, es, m)) by {
        if m > 0 {
            lemma_delta_prefix_drop_last(ts, es, m - 1);
            assert(pre[m - 1] == es[m - 1]);
        }
    }
    assert forall|k: int| 0 <= k < pre.len() implies (#[trigger] pre[k]).0 < i by {
        assert(pre[k] == es[k]);
    }
    if m > 0 {
        assert(pre[m - 1] == es[m - 1]);
    }
    assert(edits_before(pre, i, m));
    assert(mid.spec_tokens()[i].start == ts[i].start + delta_prefix(ts, pre, m));
    assert(mid.spec_tokens()[i].len == ts[i].len);
    law_batch_is_its_edits_in_order(c.spec_text(), ts, es);
    assert(e.spec_text() =~= d.spec_text());
    assert forall|j: int| 0 <= j < e.spec_tokens().len() implies #[trigger] e.spec_tokens()[j]
        == d.spec_tokens()[j] by {
        if j < i {
            lemma_one_by_one_before(c, es, mid, d, e, j);
        } else {
            lemma_one_by_one_after(c, es, mid, d, e, j);
        }
    }
    assert(e.spec_tokens() =~= d.spec_tokens());
}

/// For a sorted batch, some number of edits address tokens before `j` and
/// the rest address `j` or later.
proof fn lemma_edits_before_exists(es: Seq<(usize, Seq<u8>)>, j: int)
    requires
        forall|k1: int, k2: int| 0 <= k1 < k2 < es.len() ==> (#[trigger] es[k1]).0 < (#[trigger] es[k2]).0,
    ensures
        exists|q: int| edits_before(es, j, q),
    decreases es.len(),
{
    if es.len() == 0 {
        assert(edits_before(es, j, 0));
    } else if es.last().0 < j {
        assert(edits_before(es, j, es.len() as int));
    } else {
        let pre = es.drop_last();
        assert forall|k1: int, k2: int| 0 <= k1 < k2 < pre.len() implies (#[trigger] pre[k1]).0 < (
        #[trigger] pre[k2]).0 by {
            assert(pre[k1] == es[k1] && pre[k2] == es[k2]);
        }
        lemma_edits_before_exists(pre, j);
        let q = choose|q: int| edits_before(pre, j, q);
        if q == pre.len() {
            assert(edits_before(es, j, q));
        } else {
            assert(pre[q] == es[q]);
            assert(edits_before(es, j, q));
        }
    }
}

/// Making the last edit of a sorted batch on the card the rest of the
/// batch gave yields a card the whole batch describes.
#[verifier::rlimit(40)]
proof fn lemma_batch_step(c: Card, es: Seq<(usize, Seq<u8>)>, mid: Card, e: Card)
    requires
        c.wf(),
        edits_sorted(es, c.spec_tokens().len() as int),
        es.len() > 0,
        batch_rewritten(c, mid, es.drop_last()),
        token_replaced(mid, e, es.last().0 as int, es.last().1),
    ensures
        batch_rewritten(c, e, es),
{
    let ts = c.spec_tokens();
    let pre = es.drop_last();
    let m = es.len() - 1;
    let i = es[m].0 as int;
    let ms = mid.spec_tokens();
    let us = e.spec_tokens();
    c.lemma_wf();
    assert(delta_prefix(ts, pre, m) == delta_prefix(ts, es, m)) by {
        if m > 0 {
            lemma_delta_prefix_drop_last(ts, es, m - 1);
            assert(pre[m - 1] == es[m - 1]);
        }
    }
    assert forall|k: int| 0 <= k < pre.len() implies (#[trigger] pre[k]).0 < i by {
        assert(pre[k] == es[k]);
    }
    if m > 0 {
        assert(pre[m - 1] == es[m - 1]);
    }
    assert(edits_before(pre, i, m));
    assert(ms[i].start == ts[i].start + delta_prefix(ts, pre, m));
    assert(ms[i].len == ts[i].len);
    law_batch_is_its_edits_in_order(c.spec_text(), ts, es);
    assert(e.spec_text() =~= rewritten_text(c.spec_text(), ts, es, 0, 0));
    assert forall|j: int, q: int|
        0 <= j < us.len() && edits_before(es, j, q) implies (#[trigger] us[j]).start == ts[j].start
        + #[trigger] delta_prefix(ts, es, q) by {
        if j < i {
            assert(q <= m);
            lemma_delta_prefix_drop_last(ts, es, q);
            if q < m {
                assert(pre[q] == es[q]);
            }
            if q > 0 {
                assert(pre[q - 1] == es[q - 1]);
            }
            assert(edits_before(pre, j, q));
        } else if j == i {
            if q < m {
                assert(es[q].0 < es[m].0);
            }
            assert(q == m);
        } else {
            assert(q == m + 1);
            assert(edits_before(pre, j, m));
            assert(delta_prefix(ts, es, m + 1) == delta_prefix(ts, es, m) + es[m].1.len() - ts[i].len);
        }
    }
    assert forall|k: int| 0 <= k < es.len() implies us[(#[trigger] es[k]).0 as int].len == edit_new(
        es[k],
    ).len() by {
        if k < m {
            assert(pre[k] == es[k]);
            assert(es[k].0 < es[m].0);
        }
    }
    assert forall|j: int|
        0 <= j < us.len() && (forall|k: int| 0 <= k < es.len() ==> (#[trigger] es[k]).0 != j) implies (
        #[trigger] us[j]).len == ts[j].len by {
        assert(es[m].0 != j);
        assert forall|k: int| 0 <= k < pre.len() implies (#[trigger] pre[k]).0 != j by {
            assert(pre[k] == es[k]);
        }
    }
}

/// A sorted batch fixes the card it describes: any two cards the batch
/// describes have the same text and the same tokens.
proof fn lemma_batch_determined(c: Card, es: Seq<(usize, Seq<u8>)>, d1: Card, d2: Card)
    requires
        c.wf(),
        edits_sorted(es, c.spec_tokens().len() as int),
        batch_rewritten(c, d1, es),
        batch_rewritten(c, d2, es),
    ensures
        d1.spec_text() == d2.spec_text(),
        d1.spec_tokens() == d2.spec_tokens(),
{
    let ts = c.spec_tokens();
    let u1 = d1.spec_tokens();
    let u2 = d2.spec_tokens();
    assert forall|j: int| 0 <= j < u1.len() implies #[trigger] u1[j] == u2[j] by {
        lemma_edits_before_exists(es, j);
        let q = choose|q: int| edits_before(es, j, q);
        assert(u1[j].start == ts[j].start + delta_prefix(ts, es, q));
        assert(u2[j].start == ts[j].start + delta_prefix(ts, es, q));
        if exists|k: int| 0 <= k < es.len() && (#[trigger] es[k]).0 == j {
            let k = choose|k: int| 0 <= k < es.len() && (#[trigger] es[k]).0 == j;
            assert(u1[es[k].0 as int].len == edit_new(es[k]).len());
            assert(u2[es[k].0 as int].len == edit_new(es[k]).len());
        }
    }
    assert(u1 =~= u2);
}

/// `cs` is `c` followed by the card after each edit of `es`, made one at a
/// time, in order, as `set_token_text` makes it.
pub open spec fn edited_one_at_a_time(c: Card, es: Seq<(usize, Seq<u8>)>, cs: Seq<Card>) -> bool {
    &&& cs.len() == es.len() + 1
    &&& cs[0] == c
    &&& forall|k: int|
        #![trigger es[k]]
        0 <= k < es.len() ==> token_replaced(cs[k], cs[k + 1], es[k].0 as int, es[k].1)
}

/// After the first `k` edits made one at a time, the card is the one the
/// batch of those `k` edits describes.
proof fn lemma_one_at_a_time_prefix(c: Card, es: Seq<(usize, Seq<u8>)>, cs: Seq<Card>, k: int)
    requires
        c.wf(),
        edits_sorted(es, c.spec_tokens().len() as int),
        edited_one_at_a_time(c, es, cs),
        0 <= k <= es.len(),
    ensures
        batch_rewritten(c, cs[k], es.take(k)),
    decreases k,
{
    let ts = c.spec_tokens();
    let pre = es.take(k);
    if k == 0 {
        c.lemma_wf();
        assert(c.spec_text().subrange(0, c.spec_text().len() as int) =~= c.spec_text());
        assert forall|j: int, q: int|
            0 <= j < ts.len() && edits_before(pre, j, q) implies (#[trigger] ts[j]).start == ts[j].start
            + #[trigger] delta_prefix(ts, pre, q) by {
            assert(q == 0);
        }
    } else {
        lemma_one_at_a_time_prefix(c, es, cs, k - 1);
        assert(pre.drop_last() =~= es.take(k - 1));
        assert(pre.last() == es[k - 1]);
        assert(token_replaced(cs[k - 1], cs[k], es[k - 1].0 as int, es[k - 1].1));
        assert forall|q: int| 0 <= q < pre.len() implies (#[trigger] pre[q]).0 < ts.len() by {
            assert(pre[q] == es[q]);
        }
        assert forall|q1: int, q2: int| 0 <= q1 < q2 < pre.len() implies (#[trigger] pre[q1]).0 < (
        #[trigger] pre[q2]).0 by {
            assert(pre[q1] == es[q1] && pre[q2] == es[q2]);
        }
        lemma_batch_step(c, pre, cs[k - 1], cs[k]);
    }
}

/// A sorted batch of token edits made with `rewrite_tokens` gives the same
/// card as its edits made one at a time, in order, with `set_token_text`:
/// the same text and the same tokens.
pub proof fn law_batch_is_its_edits_made_one_at_a_time(
    c: Card,
    es: Seq<(usize, Seq<u8>)>,
    cs: Seq<Card>,
    d: Card,
)
    requires
        c.wf(),
        edits_sorted(es, c.spec_tokens().len() as int),
        edited_one_at_a_time(c, es, cs),
        batch_rewritten(c, d, es),
    ensures
        cs.last().spec_text() == d.spec_text(),
        cs.last().spec_tokens() == d.spec_tokens(),
{
    lemma_one_at_a_time_prefix(c, es, cs, es.len() as int);
    assert(es.take(es.len() as int) =~= es);
    lemma_batch_determined(c, es, cs.last(), d);
}

/// Whether any token is `Unknown`.
fn scan_unknown(tokens: &Vec<Token>) -> (r: bool)
    ensures
        r == any_unknown(tokens@),
{
    let mut i: usize = 0;
    while i < tokens.len()
        invariant
            i <= tokens@.len(),
            forall|k: int| 0 <= k < i ==> (#[trigger] tokens@[k]).kind != SyntaxKind::Unknown,
        decreases tokens@.len() - i,
    {
        if tokens[i].kind == SyntaxKind::Unknown {
            return true;
        }
        i = i + 1;
    }
    false
}

} // verus!
