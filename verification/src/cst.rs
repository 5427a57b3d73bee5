//! The concrete syntax tree: an ordered list of self-contained cards.
//!
//! Cards live in an append-only arena indexed by slot, with `order` giving
//! file order as a list of slots. A slot resolves in O(1) and is never reused,
//! so a handle to one card survives structural edits to others.

use vstd::prelude::*;
use vstd::string::StringSliceAdditionalSpecFns;
use crate::card::{byte_edits, delta_prefix, edits_sorted, rewritten_text, spliced, token_replaced, vec_edits, Card};
use crate::lex::spec_lex;
use crate::segment::{concat_texts, lemma_concat_append, lemma_concat_push};
use crate::kind::{CardKind, Eol, spec_detect_eol};
use crate::lex::lexable;
use vstd::utf8::encode_utf8;
use vstd::math::min;
use crate::segment::{fresh_cards, matches_pieces, pieces_fit, segment, spec_pieces};

verus! {

/// The whole model's syntax.
pub struct Cst {
    arena: Vec<Option<Card>>,
    order: Vec<u32>,
    kinds: Vec<CardKind>,
    eol: Eol,
}

/// A source the reader can hold: every card it splits into fits the
/// lexer's `u32` offsets, and there are no more cards than `u32` slots.
pub open spec fn parse_fits(src: Seq<u8>) -> bool {
    pieces_fit(spec_pieces(src)) && spec_pieces(src).len() <= u32::MAX
}

/// `after` is `before` with only the card held by `slot` replaced: the
/// order, the line ending and the set of live slots are the same, and every
/// other card is unchanged.
pub open spec fn only_card_changed(before: Cst, after: Cst, slot: int) -> bool {
    &&& after.wf()
    &&& after.spec_eol() == before.spec_eol()
    &&& after.spec_order() == before.spec_order()
    &&& after.live(slot)
    &&& forall|s: int| #[trigger] after.live(s) == before.live(s)
    &&& forall|s: int|
        s != slot && before.live(s) ==> #[trigger] after.spec_card(s) == before.spec_card(s)
    &&& after.spec_card(slot).spec_slot() == before.spec_card(slot).spec_slot()
}

impl Cst {
    pub closed spec fn spec_arena(&self) -> Seq<Option<Card>> {
        self.arena@
    }

    /// Slots in file order.
    pub closed spec fn spec_order(&self) -> Seq<u32> {
        self.order@
    }

    pub closed spec fn spec_eol(&self) -> Eol {
        self.eol
    }

    /// The card held by a slot that is live.
    pub open spec fn spec_card(&self, slot: int) -> Card {
        self.spec_arena()[slot]->0
    }

    /// A slot that resolves to a card.
    pub open spec fn live(&self, slot: int) -> bool {
        0 <= slot < self.spec_arena().len() && self.spec_arena()[slot] is Some
    }

    /// The card at file position `i`.
    pub open spec fn spec_at(&self, i: int) -> Card {
        self.spec_card(self.spec_order()[i] as int)
    }

    /// The cards in file order.
    pub open spec fn spec_cards(&self) -> Seq<Card> {
        Seq::new(self.spec_order().len(), |i: int| self.spec_at(i))
    }

    /// The emitted source: every card's bytes, in file order.
    pub open spec fn spec_source(&self) -> Seq<u8> {
        concat_texts(self.spec_cards())
    }

    /// `order` lists distinct live slots, each holding a well-formed card that
    /// records its own slot, `kinds` mirrors their kinds, and every live slot is
    /// in `order`.
    pub closed spec fn wf(&self) -> bool {
        &&& self.order@.len() == self.kinds@.len()
        &&& self.arena@.len() <= u32::MAX
        &&& forall|i: int|
            0 <= i < self.order@.len() ==> {
                let s = #[trigger] self.order@[i];
                &&& s < self.arena@.len()
                &&& self.arena@[s as int] is Some
                &&& self.arena@[s as int]->0.spec_slot() == s
                &&& self.arena@[s as int]->0.wf()
                &&& self.kinds@[i] == self.arena@[s as int]->0.spec_kind()
            }
        &&& forall|i: int, j: int|
            0 <= i < j < self.order@.len() ==> #[trigger] self.order@[i] != #[trigger] self.order@[j]
        &&& forall|s: int|
            0 <= s < self.arena@.len() && (#[trigger] self.arena@[s]) is Some ==> self.order@.contains(
                s as u32,
            )
    }

    /// What a well-formed tree guarantees to readers.
    pub proof fn lemma_wf(&self)
        requires
            self.wf(),
        ensures
            self.spec_arena().len() <= u32::MAX,
            forall|i: int|
                0 <= i < self.spec_order().len() ==> self.live(#[trigger] self.spec_order()[i] as int)
                    && self.spec_at(i).wf() && self.spec_at(i).spec_slot() == self.spec_order()[i],
            forall|i: int, j: int|
                0 <= i < j < self.spec_order().len() ==> #[trigger] self.spec_order()[i]
                    != #[trigger] self.spec_order()[j],
            forall|s: int| #[trigger] self.live(s) ==> self.spec_order().contains(s as u32),
    {
    }

    /// A live slot holds a well-formed card that records its own slot.
    pub proof fn lemma_live(&self, slot: int)
        requires
            self.wf(),
            self.live(slot),
        ensures
            self.spec_card(slot).wf(),
            self.spec_card(slot).spec_slot() == slot,
            exists|i: int| 0 <= i < self.spec_order().len() && self.spec_order()[i] == slot,
    {
        assert(0 <= slot < u32::MAX);
        assert(self.order@.contains(slot as u32));
        let i = choose|i: int| 0 <= i < self.order@.len() && self.order@[i] == slot as u32;
        assert(self.order@[i] == slot as u32);
        assert(self.spec_order()[i] == slot);
    }

    /// Build a tree directly from already-lexed cards, in the given order.
    pub fn from_cards(cards: Vec<Card>, eol: Eol) -> (r: Cst)
        requires
            cards@.len() <= u32::MAX,
            forall|i: int| 0 <= i < cards@.len() ==> (#[trigger] cards@[i]).wf(),
        ensures
            r.wf(),
            r.spec_eol() == eol,
            r.spec_arena().len() == cards@.len(),
            r.spec_order() == Seq::new(cards@.len(), |i: int| i as u32),
            r.spec_cards().len() == cards@.len(),
            forall|i: int|
                0 <= i < cards@.len() ==> {
                    let c = #[trigger] r.spec_cards()[i];
                    &&& c.spec_slot() == i
                    &&& c.spec_kind() == cards@[i].spec_kind()
                    &&& c.spec_text() == cards@[i].spec_text()
                    &&& c.spec_tokens() == cards@[i].spec_tokens()
                },
    {
        let n = cards.len();
        let mut cards = cards;
        // Reverse once by popping, so a second pass of pops yields file order.
        let mut rev: Vec<Card> = Vec::new();
        let ghost orig = cards@;
        while cards.len() > 0
            invariant
                cards@ == orig.subrange(0, cards@.len() as int),
                rev@.len() + cards@.len() == orig.len(),
                forall|k: int| 0 <= k < rev@.len() ==> #[trigger] rev@[k] == orig[orig.len() - 1 - k],
            decreases cards@.len(),
        {
            let c = cards.pop().unwrap();
            rev.push(c);
        }
        let mut arena: Vec<Option<Card>> = Vec::with_capacity(n);
        let mut order: Vec<u32> = Vec::with_capacity(n);
        let mut kinds: Vec<CardKind> = Vec::with_capacity(n);
        let mut i: usize = 0;
        while i < n
            invariant
                n == orig.len(),
                n <= u32::MAX,
                forall|k: int| 0 <= k < orig.len() ==> (#[trigger] orig[k]).wf(),
                i <= n,
                rev@.len() == n - i,
                forall|k: int| 0 <= k < rev@.len() ==> #[trigger] rev@[k] == orig[orig.len() - 1 - k],
                arena@.len() == i,
                order@.len() == i,
                kinds@.len() == i,
                forall|k: int|
                    0 <= k < i ==> {
                        let c = #[trigger] arena@[k];
                        &&& c is Some
                        &&& c->0.spec_slot() == k
                        &&& c->0.spec_kind() == orig[k].spec_kind()
                        &&& c->0.spec_text() == orig[k].spec_text()
                        &&& c->0.spec_tokens() == orig[k].spec_tokens()
                        &&& c->0.wf()
                    },
                forall|k: int| 0 <= k < i ==> #[trigger] order@[k] == k as u32,
                forall|k: int| 0 <= k < i ==> #[trigger] kinds@[k] == orig[k].spec_kind(),
            decreases n - i,
        {
            let c = rev.pop().unwrap();
            assert(c == orig[i as int]);
            let c = c.with_slot(i as u32);
            kinds.push(c.kind());
            arena.push(Some(c));
            order.push(i as u32);
            i = i + 1;
        }
        let r = Cst { arena, order, kinds, eol };
        proof {
            assert(r.spec_order() =~= Seq::new(n as nat, |i: int| i as u32));
            assert forall|s: int| 0 <= s < r.arena@.len() && (#[trigger] r.arena@[s]) is Some implies r.order@.contains(
                s as u32,
            ) by {
                assert(r.order@[s] == s as u32);
            }
        }
        r
    }

    /// Lex the bytes of `src` into self-contained cards, or `None` when a
    /// card would be too long for the lexer's `u32` offsets or there would
    /// be more cards than `u32` slots.
    pub fn try_parse_bytes(src: &[u8]) -> (r: Option<Cst>)
        ensures
            (r is Some) == parse_fits(src@),
            src@.len() <= u32::MAX ==> r is Some,
            match r {
                Some(c) => {
                    &&& c.wf()
                    &&& c.spec_source() == src@
                    &&& c.spec_eol() == spec_detect_eol(src@)
                    &&& matches_pieces(c.spec_cards(), src@, spec_pieces(src@))
                    &&& forall|i: int|
                        0 <= i < c.spec_cards().len() ==> (#[trigger] c.spec_cards()[i]).spec_tokens()
                            == crate::lex::spec_lex(c.spec_cards()[i].spec_text(), c.spec_cards()[i].spec_kind())
                },
                None => true,
            },
    {
        let cards = match segment(src) {
            Some(cs) => cs,
            None => {
                return None;
            },
        };
        proof {
            lemma_cards_len_bound(cards@);
        }
        if cards.len() > 0xFFFF_FFFFusize {
            return None;
        }
        let ghost cs = cards@;
        let r = Cst::from_cards(cards, Eol::detect(src));
        proof {
            assert(r.spec_cards() =~= Seq::new(cs.len(), |i: int| r.spec_cards()[i]));
            lemma_concat_same_texts(r.spec_cards(), cs);
        }
        Some(r)
    }

    /// Lex the bytes of `src` into self-contained cards.
    pub fn parse_bytes(src: &[u8]) -> (r: Cst)
        requires
            parse_fits(src@),
        ensures
            r.wf(),
            r.spec_source() == src@,
            r.spec_eol() == spec_detect_eol(src@),
            matches_pieces(r.spec_cards(), src@, spec_pieces(src@)),
            forall|i: int|
                0 <= i < r.spec_cards().len() ==> (#[trigger] r.spec_cards()[i]).spec_tokens()
                    == crate::lex::spec_lex(r.spec_cards()[i].spec_text(), r.spec_cards()[i].spec_kind()),
    {
        match Cst::try_parse_bytes(src) {
            Some(c) => c,
            None => {
                proof {
                    assert(false);
                }
                Cst::from_cards(Vec::new(), Eol::Lf)
            },
        }
    }

    /// Lex `src` into self-contained cards; emitting them gives `src` back.
    pub fn parse(src: &str) -> (r: Cst)
        requires
            parse_fits(src.spec_bytes()),
        ensures
            r.wf(),
            r.spec_source() == src.spec_bytes(),
            r.spec_eol() == spec_detect_eol(src.spec_bytes()),
            matches_pieces(r.spec_cards(), src.spec_bytes(), spec_pieces(src.spec_bytes())),
    {
        Cst::parse_bytes(src.as_bytes())
    }

    /// The line terminator this file uses, for cards added later.
    pub fn eol(&self) -> (r: Eol)
        ensures
            r == self.spec_eol(),
    {
        self.eol
    }

    /// Number of live cards.
    pub fn len(&self) -> (r: usize)
        ensures
            r == self.spec_order().len(),
    {
        self.order.len()
    }

    pub fn is_empty(&self) -> (r: bool)
        ensures
            r == (self.spec_order().len() == 0),
    {
        self.order.len() == 0
    }

    /// Slots in file order.
    pub fn order(&self) -> (r: &[u32])
        ensures
            r@ == self.spec_order(),
    {
        self.order.as_slice()
    }

    /// Resolve a stable slot; `None` once that card has been removed.
    pub fn card(&self, slot: u32) -> (r: Option<&Card>)
        ensures
            match r {
                Some(c) => self.live(slot as int) && *c == self.spec_card(slot as int),
                None => !self.live(slot as int),
            },
    {
        if (slot as usize) < self.arena.len() {
            match &self.arena[slot as usize] {
                Some(c) => Some(c),
                None => None,
            }
        } else {
            None
        }
    }

    /// The card at file position `i`.
    pub fn at(&self, i: usize) -> (r: Option<&Card>)
        requires
            self.wf(),
        ensures
            match r {
                Some(c) => i < self.spec_order().len() && *c == self.spec_at(i as int),
                None => i >= self.spec_order().len(),
            },
    {
        if i < self.order.len() {
            self.card(self.order[i])
        } else {
            None
        }
    }

    /// Cards in file order.
    pub fn cards(&self) -> (r: Vec<&Card>)
        requires
            self.wf(),
        ensures
            r@.len() == self.spec_order().len(),
            forall|i: int| 0 <= i < r@.len() ==> *(#[trigger] r@[i]) == self.spec_at(i),
    {
        let mut out: Vec<&Card> = Vec::new();
        let mut i: usize = 0;
        while i < self.order.len()
            invariant
                self.wf(),
                i <= self.order@.len(),
                out@.len() == i,
                forall|k: int| 0 <= k < i ==> *(#[trigger] out@[k]) == self.spec_at(k),
            decreases self.order@.len() - i,
        {
            let c = self.card(self.order[i]).unwrap();
            out.push(c);
            i = i + 1;
        }
        out
    }

    /// Current file position of a slot: a linear scan of `order`.
    pub fn position_of(&self, slot: u32) -> (r: Option<usize>)
        ensures
            match r {
                Some(i) => i < self.spec_order().len() && self.spec_order()[i as int] == slot
                    && forall|k: int| 0 <= k < i ==> self.spec_order()[k] != slot,
                None => !self.spec_order().contains(slot),
            },
    {
        let mut i: usize = 0;
        while i < self.order.len()
            invariant
                i <= self.order@.len(),
                forall|k: int| 0 <= k < i ==> self.order@[k] != slot,
            decreases self.order@.len() - i,
        {
            if self.order[i] == slot {
                return Some(i);
            }
            i = i + 1;
        }
        None
    }

    /// Re-emit the whole model: every card's bytes, in file order.
    pub fn to_source(&self) -> (r: Vec<u8>)
        requires
            self.wf(),
        ensures
            r@ == self.spec_source(),
    {
        let mut out: Vec<u8> = Vec::new();
        let mut i: usize = 0;
        while i < self.order.len()
            invariant
                self.wf(),
                i <= self.order@.len(),
                out@ == concat_texts(self.spec_cards().subrange(0, i as int)),
            decreases self.order@.len() - i,
        {
            let c = self.card(self.order[i]).unwrap();
            let t = c.text();
            let ghost before = out@;
            crate::bytes::push_range(&mut out, t, 0, t.len());
            proof {
                assert(t@.subrange(0, t@.len() as int) =~= t@);
                assert(self.spec_cards().subrange(0, i + 1) =~= self.spec_cards().subrange(
                    0,
                    i as int,
                ).push(self.spec_at(i as int)));
                lemma_concat_push(self.spec_cards().subrange(0, i as int), self.spec_at(i as int));
            }
            i = i + 1;
        }
        proof {
            assert(self.spec_cards().subrange(0, i as int) =~= self.spec_cards());
        }
        out
    }


    /// Insert a card at file position `i` (clamped to the end), returning its
    /// fresh slot. Nothing is re-lexed and no other card is touched.
    pub fn insert_at(&mut self, i: usize, card: Card) -> (r: u32)
        requires
            old(self).wf(),
            card.wf(),
            old(self).spec_arena().len() < u32::MAX,
        ensures
            final(self).wf(),
            final(self).spec_eol() == old(self).spec_eol(),
            r == old(self).spec_arena().len(),
            !old(self).live(r as int),
            final(self).spec_arena().len() == old(self).spec_arena().len() + 1,
            forall|s: int|
                0 <= s < old(self).spec_arena().len() ==> #[trigger] final(self).spec_arena()[s]
                    == old(self).spec_arena()[s],
            final(self).live(r as int),
            final(self).spec_card(r as int).spec_slot() == r,
            final(self).spec_card(r as int).spec_kind() == card.spec_kind(),
            final(self).spec_card(r as int).spec_text() == card.spec_text(),
            final(self).spec_card(r as int).spec_tokens() == card.spec_tokens(),
            final(self).spec_order() == old(self).spec_order().insert(
                min(i as int, old(self).spec_order().len() as int),
                r,
            ),
            final(self).spec_cards() == old(self).spec_cards().insert(
                min(i as int, old(self).spec_order().len() as int),
                final(self).spec_card(r as int),
            ),
    {
        let slot = self.arena.len() as u32;
        let card = card.with_slot(slot);
        let kind = card.kind();
        let at = if i < self.order.len() {
            i
        } else {
            self.order.len()
        };
        let ghost old_self = *self;
        self.arena.push(Some(card));
        self.order.insert(at, slot);
        self.kinds.insert(at, kind);
        proof {
            let o = old_self.order@;
            let no = self.order@;
            assert forall|k: int| 0 <= k < o.len() implies #[trigger] o[k] != slot by {
            }
            assert forall|k: int|
                0 <= k < no.len() implies {
                let s = #[trigger] no[k];
                &&& s < self.arena@.len()
                &&& self.arena@[s as int] is Some
                &&& self.arena@[s as int]->0.spec_slot() == s
                &&& self.arena@[s as int]->0.wf()
                &&& self.kinds@[k] == self.arena@[s as int]->0.spec_kind()
            } by {
                if k < at {
                    assert(no[k] == o[k]);
                } else if k > at {
                    assert(no[k] == o[k - 1]);
                }
            }
            assert forall|a: int, b: int| 0 <= a < b < no.len() implies #[trigger] no[a]
                != #[trigger] no[b] by {
                if a < at && b < at {
                    assert(no[a] == o[a] && no[b] == o[b]);
                } else if a < at && b > at {
                    assert(no[a] == o[a] && no[b] == o[b - 1]);
                } else if a > at && b > at {
                    assert(no[a] == o[a - 1] && no[b] == o[b - 1]);
                } else if a == at {
                    assert(no[b] == o[b - 1]);
                } else {
                    assert(no[a] == o[a]);
                }
            }
            assert forall|s: int|
                0 <= s < self.arena@.len() && (#[trigger] self.arena@[s]) is Some implies no.contains(
                s as u32,
            ) by {
                if s == slot {
                    assert(no[at as int] == slot);
                } else {
                    assert(old_self.arena@[s] is Some);
                    assert(o.contains(s as u32));
                    let k = choose|k: int| 0 <= k < o.len() && o[k] == s as u32;
                    if k < at {
                        assert(no[k] == o[k]);
                    } else {
                        assert(no[k + 1] == o[k]);
                    }
                }
            }
            assert(self.spec_cards() =~= old_self.spec_cards().insert(
                at as int,
                self.spec_card(slot as int),
            ));
        }
        slot
    }

    /// Insert several cards at file position `i` (clamped to the end), in
    /// the order given; each gets a fresh slot, in that order.
    pub fn insert_many_at(&mut self, i: usize, cards: Vec<Card>) -> (r: Vec<u32>)
        requires
            old(self).wf(),
            forall|k: int| 0 <= k < cards@.len() ==> (#[trigger] cards@[k]).wf(),
            old(self).spec_arena().len() + cards@.len() <= u32::MAX,
        ensures
            final(self).wf(),
            final(self).spec_eol() == old(self).spec_eol(),
            r@.len() == cards@.len(),
            forall|k: int|
                0 <= k < r@.len() ==> #[trigger] r@[k] == old(self).spec_arena().len() + k,
            final(self).spec_order() == old(self).spec_order().subrange(
                0,
                min(i as int, old(self).spec_order().len() as int),
            ) + r@ + old(self).spec_order().subrange(
                min(i as int, old(self).spec_order().len() as int),
                old(self).spec_order().len() as int,
            ),
            forall|k: int|
                0 <= k < r@.len() ==> {
                    let c = final(self).spec_card(#[trigger] r@[k] as int);
                    &&& final(self).live(r@[k] as int)
                    &&& c.spec_kind() == cards@[k].spec_kind()
                    &&& c.spec_text() == cards@[k].spec_text()
                    &&& c.spec_tokens() == cards@[k].spec_tokens()
                },
            forall|s: int|
                0 <= s < old(self).spec_arena().len() ==> #[trigger] final(self).spec_arena()[s]
                    == old(self).spec_arena()[s],
    {
        let ghost old_self = *self;
        let ghost cs = cards@;
        let n0 = self.order.len();
        let at = if i < n0 {
            i
        } else {
            n0
        };
        let ghost o = old_self.spec_order();
        let mut rest = cards;
        let mut out: Vec<u32> = Vec::new();
        let mut k: usize = 0;
        let total = rest.len();
        while k < total
            invariant
                self.wf(),
                self.spec_eol() == old_self.spec_eol(),
                total == cs.len(),
                k <= total,
                rest@ == cs.subrange(k as int, cs.len() as int),
                forall|j: int| 0 <= j < cs.len() ==> (#[trigger] cs[j]).wf(),
                old_self.spec_arena().len() + cs.len() <= u32::MAX,
                self.spec_arena().len() == old_self.spec_arena().len() + k,
                out@.len() == k,
                at <= o.len(),
                at == min(i as int, o.len() as int),
                forall|j: int| 0 <= j < k ==> #[trigger] out@[j] == old_self.spec_arena().len() + j,
                self.spec_order() == o.subrange(0, at as int) + out@ + o.subrange(at as int, o.len() as int),
                forall|j: int|
                    0 <= j < k ==> {
                        let c = self.spec_card(#[trigger] out@[j] as int);
                        &&& self.live(out@[j] as int)
                        &&& c.spec_kind() == cs[j].spec_kind()
                        &&& c.spec_text() == cs[j].spec_text()
                        &&& c.spec_tokens() == cs[j].spec_tokens()
                    },
                forall|s: int|
                    0 <= s < old_self.spec_arena().len() ==> #[trigger] self.spec_arena()[s]
                        == old_self.spec_arena()[s],
            decreases total - k,
        {
            let cur = self.order.len();
            assert(self.spec_order().len() == o.len() + k);
            assert(at + k <= cur);
            let card = rest.remove(0);
            assert(card == cs[k as int]);
            let ghost before = *self;
            let slot = self.insert_at(at + k, card);
            let ghost prev = out@;
            out.push(slot);
            proof {
                assert(before.spec_order().len() == at + k + (o.len() - at));
                assert(self.spec_order() =~= o.subrange(0, at as int) + out@ + o.subrange(
                    at as int,
                    o.len() as int,
                ));
                assert(rest@ =~= cs.subrange(k + 1, cs.len() as int));
                assert forall|j: int| 0 <= j < k + 1 implies {
                    let c = self.spec_card(#[trigger] out@[j] as int);
                    &&& self.live(out@[j] as int)
                    &&& c.spec_kind() == cs[j].spec_kind()
                    &&& c.spec_text() == cs[j].spec_text()
                    &&& c.spec_tokens() == cs[j].spec_tokens()
                } by {
                    if j < k {
                        assert(out@[j] == prev[j]);
                        assert(self.spec_arena()[out@[j] as int] == before.spec_arena()[out@[j] as int]);
                    }
                }
            }
            k = k + 1;
        }
        out
    }

    /// Append a card at the end of the model.
    pub fn push(&mut self, card: Card) -> (r: u32)
        requires
            old(self).wf(),
            card.wf(),
            old(self).spec_arena().len() < u32::MAX,
        ensures
            final(self).wf(),
            r == old(self).spec_arena().len(),
            final(self).spec_card(r as int).spec_text() == card.spec_text(),
            final(self).spec_cards() == old(self).spec_cards().push(final(self).spec_card(r as int)),
    {
        let n = self.order.len();
        let r = self.insert_at(n, card);
        proof {
            assert(old(self).spec_cards().insert(n as int, self.spec_card(r as int))
                =~= old(self).spec_cards().push(self.spec_card(r as int)));
        }
        r
    }

    /// Remove the card at file position `i`, returning its slot. The slot is
    /// tombstoned and never reused, so handles to it fail cleanly.
    pub fn remove_at(&mut self, i: usize) -> (r: Option<u32>)
        requires
            old(self).wf(),
        ensures
            final(self).wf(),
            final(self).spec_eol() == old(self).spec_eol(),
            final(self).spec_arena().len() == old(self).spec_arena().len(),
            i >= old(self).spec_order().len() ==> r is None && *final(self) == *old(self),
            i < old(self).spec_order().len() ==> {
                let s = old(self).spec_order()[i as int];
                &&& r == Some(s)
                &&& final(self).spec_arena() == old(self).spec_arena().update(s as int, None)
                &&& final(self).spec_order() == old(self).spec_order().remove(i as int)
                &&& final(self).spec_cards() == old(self).spec_cards().remove(i as int)
            },
    {
        if i >= self.order.len() {
            return None;
        }
        let ghost old_self = *self;
        let slot = self.order.remove(i);
        self.kinds.remove(i);
        self.arena.set(slot as usize, None);
        proof {
            let o = old_self.order@;
            let no = self.order@;
            assert(o[i as int] == slot);
            assert forall|k: int|
                0 <= k < no.len() implies {
                let s = #[trigger] no[k];
                &&& s < self.arena@.len()
                &&& self.arena@[s as int] is Some
                &&& self.arena@[s as int]->0.spec_slot() == s
                &&& self.arena@[s as int]->0.wf()
                &&& self.kinds@[k] == self.arena@[s as int]->0.spec_kind()
            } by {
                if k < i {
                    assert(no[k] == o[k]);
                    assert(o[k] != o[i as int]);
                } else {
                    assert(no[k] == o[k + 1]);
                    assert(o[k + 1] != o[i as int]);
                }
            }
            assert forall|a: int, b: int| 0 <= a < b < no.len() implies #[trigger] no[a]
                != #[trigger] no[b] by {
                let a2 = if a < i { a } else { a + 1 };
                let b2 = if b < i { b } else { b + 1 };
                assert(no[a] == o[a2] && no[b] == o[b2]);
            }
            assert forall|s: int|
                0 <= s < self.arena@.len() && (#[trigger] self.arena@[s]) is Some implies no.contains(
                s as u32,
            ) by {
                assert(s != slot);
                assert(o.contains(s as u32));
                let k = choose|k: int| 0 <= k < o.len() && o[k] == s as u32;
                assert(k != i);
                if k < i {
                    assert(no[k] == o[k]);
                } else {
                    assert(no[k - 1] == o[k]);
                }
            }
            assert forall|k: int| 0 <= k < no.len() implies #[trigger] self.spec_at(k)
                == old_self.spec_cards().remove(i as int)[k] by {
                if k < i {
                    assert(no[k] == o[k]);
                    assert(o[k] != o[i as int]);
                } else {
                    assert(no[k] == o[k + 1]);
                    assert(o[k + 1] != o[i as int]);
                }
            }
            assert(self.spec_cards() =~= old_self.spec_cards().remove(i as int));
        }
        Some(slot)
    }

    /// Rewrite tokens of the card at file position `i` in place (see
    /// [`Card::rewrite_tokens`]); every other card, and the order, stay.
    pub fn rewrite_card_at(&mut self, i: usize, edits: &[(usize, &[u8])])
        requires
            old(self).wf(),
            i < old(self).spec_order().len(),
            edits_sorted(byte_edits(edits@), old(self).spec_at(i as int).spec_tokens().len() as int),
            lexable(old(self).spec_at(i as int).spec_text().len() + delta_prefix(
                old(self).spec_at(i as int).spec_tokens(),
                byte_edits(edits@),
                edits@.len() as int,
            )),
        ensures
            final(self).wf(),
            final(self).spec_eol() == old(self).spec_eol(),
            final(self).spec_order() == old(self).spec_order(),
            final(self).spec_arena().len() == old(self).spec_arena().len(),
            forall|s: int| #[trigger] final(self).live(s) == old(self).live(s),
            forall|j: int|
                0 <= j < old(self).spec_order().len() && j != i ==> #[trigger] final(self).spec_at(j)
                    == old(self).spec_at(j),
            final(self).spec_at(i as int).spec_kind() == old(self).spec_at(i as int).spec_kind(),
            final(self).spec_at(i as int).spec_slot() == old(self).spec_at(i as int).spec_slot(),
            final(self).spec_at(i as int).spec_text() == rewritten_text(
                old(self).spec_at(i as int).spec_text(),
                old(self).spec_at(i as int).spec_tokens(),
                byte_edits(edits@),
                0,
                0,
            ),
    {
        let ghost old_self = *self;
        let slot = self.order[i];
        assert(self.arena@[slot as int] is Some);
        let mut tmp: Option<Card> = None;
        self.arena.set_and_swap(slot as usize, &mut tmp);
        match tmp {
            Some(mut c) => {
                assert(c == old_self.spec_at(i as int));
                c.rewrite_tokens(edits);
                self.arena.set(slot as usize, Some(c));
                proof {
                    let o = self.order@;
                    assert forall|j: int| 0 <= j < o.len() && j != i implies #[trigger] self.spec_at(j)
                        == old_self.spec_at(j) by {
                        assert(o[j] != o[i as int]);
                    }
                    assert forall|k: int|
                        0 <= k < o.len() implies {
                        let s = #[trigger] o[k];
                        &&& s < self.arena@.len()
                        &&& self.arena@[s as int] is Some
                        &&& self.arena@[s as int]->0.spec_slot() == s
                        &&& self.arena@[s as int]->0.wf()
                        &&& self.kinds@[k] == self.arena@[s as int]->0.spec_kind()
                    } by {
                        if k != i {
                            assert(o[k] != o[i as int]);
                        }
                    }
                    assert forall|s: int|
                        0 <= s < self.arena@.len() && (#[trigger] self.arena@[s]) is Some implies o.contains(
                        s as u32,
                    ) by {
                        assert(old_self.arena@[s] is Some);
                    }
                    assert forall|s: int| #[trigger] self.live(s) == old_self.live(s) by {}
                }
            },
            None => {
                proof {
                    assert(false);
                }
            },
        }
    }

    /// Replace the text of token `i` of the card in `slot` (see
    /// [`Card::set_token_bytes`]); every other card, and the order, stay.
    pub fn set_token_in(&mut self, slot: u32, i: usize, new: &[u8])
        requires
            old(self).wf(),
            old(self).live(slot as int),
            i < old(self).spec_card(slot as int).spec_tokens().len(),
            lexable(old(self).spec_card(slot as int).spec_text().len() - old(self).spec_card(
                slot as int,
            ).spec_tokens()[i as int].len + new@.len()),
        ensures
            only_card_changed(*old(self), *final(self), slot as int),
            token_replaced(
                old(self).spec_card(slot as int),
                final(self).spec_card(slot as int),
                i as int,
                new@,
            ),
    {
        let ghost old_self = *self;
        proof {
            old_self.lemma_live(slot as int);
        }
        let mut tmp: Option<Card> = None;
        self.arena.set_and_swap(slot as usize, &mut tmp);
        match tmp {
            Some(mut c) => {
                c.set_token_bytes(i, new);
                self.arena.set(slot as usize, Some(c));
                proof {
                    self.lemma_replaced_slot_keeps_wf(old_self, slot as int);
                }
            },
            None => {
                proof {
                    assert(false);
                }
            },
        }
    }

    /// Replace the bytes `from..to` of the card in `slot` and re-lex that card
    /// (see [`Card::splice_bytes`]); every other card, and the order, stay.
    pub fn splice_in(&mut self, slot: u32, from: usize, to: usize, new: &[u8])
        requires
            old(self).wf(),
            old(self).live(slot as int),
            from <= to <= old(self).spec_card(slot as int).spec_text().len(),
            lexable(old(self).spec_card(slot as int).spec_text().len() - (to - from) + new@.len()),
        ensures
            only_card_changed(*old(self), *final(self), slot as int),
            final(self).spec_card(slot as int).spec_kind() == old(self).spec_card(
                slot as int,
            ).spec_kind(),
            final(self).spec_card(slot as int).spec_text() == spliced(
                old(self).spec_card(slot as int).spec_text(),
                from as int,
                to as int,
                new@,
            ),
            final(self).spec_card(slot as int).spec_tokens() == spec_lex(
                final(self).spec_card(slot as int).spec_text(),
                old(self).spec_card(slot as int).spec_kind(),
            ),
    {
        let ghost old_self = *self;
        proof {
            old_self.lemma_live(slot as int);
        }
        let mut tmp: Option<Card> = None;
        self.arena.set_and_swap(slot as usize, &mut tmp);
        match tmp {
            Some(mut c) => {
                c.splice_bytes(from, to, new);
                self.arena.set(slot as usize, Some(c));
                proof {
                    self.lemma_replaced_slot_keeps_wf(old_self, slot as int);
                }
            },
            None => {
                proof {
                    assert(false);
                }
            },
        }
    }

    /// Rewrite tokens of the card in `slot` in place (see
    /// [`Card::rewrite_tokens`]); every other card, and the order, stay.
    pub fn rewrite_in(&mut self, slot: u32, edits: &[(usize, &[u8])])
        requires
            old(self).wf(),
            old(self).live(slot as int),
            edits_sorted(byte_edits(edits@), old(self).spec_card(slot as int).spec_tokens().len() as int),
            lexable(old(self).spec_card(slot as int).spec_text().len() + delta_prefix(
                old(self).spec_card(slot as int).spec_tokens(),
                byte_edits(edits@),
                edits@.len() as int,
            )),
        ensures
            only_card_changed(*old(self), *final(self), slot as int),
            final(self).spec_card(slot as int).spec_kind() == old(self).spec_card(
                slot as int,
            ).spec_kind(),
            final(self).spec_card(slot as int).spec_text() == rewritten_text(
                old(self).spec_card(slot as int).spec_text(),
                old(self).spec_card(slot as int).spec_tokens(),
                byte_edits(edits@),
                0,
                0,
            ),
    {
        let ghost old_self = *self;
        proof {
            old_self.lemma_live(slot as int);
        }
        let mut tmp: Option<Card> = None;
        self.arena.set_and_swap(slot as usize, &mut tmp);
        match tmp {
            Some(mut c) => {
                c.rewrite_tokens(edits);
                self.arena.set(slot as usize, Some(c));
                proof {
                    self.lemma_replaced_slot_keeps_wf(old_self, slot as int);
                }
            },
            None => {
                proof {
                    assert(false);
                }
            },
        }
    }

    /// A tree that differs from a well-formed one only in the card held by a
    /// live slot, replaced by a well-formed card of the same kind recording
    /// the same slot, is well formed.
    proof fn lemma_replaced_slot_keeps_wf(&self, before: Cst, slot: int)
        requires
            before.wf(),
            before.live(slot),
            self.order == before.order,
            self.kinds == before.kinds,
            self.eol == before.eol,
            self.arena@.len() == before.arena@.len(),
            self.arena@[slot] is Some,
            self.arena@[slot]->0.wf(),
            self.arena@[slot]->0.spec_slot() == before.arena@[slot]->0.spec_slot(),
            self.arena@[slot]->0.spec_kind() == before.arena@[slot]->0.spec_kind(),
            forall|s: int| 0 <= s < self.arena@.len() && s != slot ==> #[trigger] self.arena@[s] == before.arena@[s],
        ensures
            only_card_changed(before, *self, slot),
    {
        let o = self.order@;
        assert forall|k: int|
            0 <= k < o.len() implies {
            let s = #[trigger] o[k];
            &&& s < self.arena@.len()
            &&& self.arena@[s as int] is Some
            &&& self.arena@[s as int]->0.spec_slot() == s
            &&& self.arena@[s as int]->0.wf()
            &&& self.kinds@[k] == self.arena@[s as int]->0.spec_kind()
        } by {
            if o[k] as int != slot {
                assert(self.arena@[o[k] as int] == before.arena@[o[k] as int]);
            }
        }
        assert forall|s: int|
            0 <= s < self.arena@.len() && (#[trigger] self.arena@[s]) is Some implies o.contains(
            s as u32,
        ) by {
            if s != slot {
                assert(before.arena@[s] is Some);
            }
            assert(before.arena@[s] is Some);
        }
        assert forall|s: int| #[trigger] self.live(s) == before.live(s) by {
            if 0 <= s < self.arena@.len() && s != slot {
                assert(self.arena@[s] == before.arena@[s]);
            }
        }
        assert forall|s: int| s != slot && before.live(s) implies #[trigger] self.spec_card(s)
            == before.spec_card(s) by {
            assert(self.arena@[s] == before.arena@[s]);
        }
    }

    /// Apply each card's token edits (`(slot, edits)` with distinct live
    /// slots), in place; cards not named keep their text.
    pub fn rewrite_many(&mut self, edits: Vec<(u32, Vec<(usize, Vec<u8>)>)>)
        requires
            old(self).wf(),
            forall|k: int|
                0 <= k < edits@.len() ==> #[trigger] old(self).live(edits@[k].0 as int),
            forall|a: int, b: int|
                0 <= a < b < edits@.len() ==> #[trigger] edits@[a].0 != #[trigger] edits@[b].0,
            forall|k: int|
                0 <= k < edits@.len() ==> {
                    let c = old(self).spec_card((#[trigger] edits@[k]).0 as int);
                    let es = vec_edits(edits@[k].1@);
                    &&& edits_sorted(es, c.spec_tokens().len() as int)
                    &&& lexable(c.spec_text().len() + delta_prefix(c.spec_tokens(), es, es.len() as int))
                },
        ensures
            final(self).wf(),
            final(self).spec_eol() == old(self).spec_eol(),
            final(self).spec_order() == old(self).spec_order(),
            forall|j: int|
                0 <= j < old(self).spec_order().len() ==> {
                    let c = old(self).spec_at(j);
                    let d = #[trigger] final(self).spec_at(j);
                    &&& d.spec_kind() == c.spec_kind()
                    &&& d.spec_slot() == c.spec_slot()
                    &&& (forall|k: int| 0 <= k < edits@.len() ==> #[trigger] edits@[k].0 != c.spec_slot())
                        ==> d == c
                    &&& forall|k: int|
                        0 <= k < edits@.len() && #[trigger] edits@[k].0 == c.spec_slot() ==> d.spec_text()
                            == rewritten_text(
                            c.spec_text(),
                            c.spec_tokens(),
                            vec_edits(edits@[k].1@),
                            0,
                            0,
                        )
                },
    {
        let ghost old_self = *self;
        proof {
            old_self.lemma_wf();
        }
        let mut k: usize = 0;
        while k < edits.len()
            invariant
                old_self.wf(),
                self.wf(),
                self.spec_eol() == old_self.spec_eol(),
                self.spec_order() == old_self.spec_order(),
                k <= edits@.len(),
                forall|s: int| #[trigger] self.live(s) == old_self.live(s),
                forall|a: int| 0 <= a < edits@.len() ==> #[trigger] old_self.live(edits@[a].0 as int),
                forall|a: int, b: int|
                    0 <= a < b < edits@.len() ==> #[trigger] edits@[a].0 != #[trigger] edits@[b].0,
                forall|a: int|
                    0 <= a < edits@.len() ==> {
                        let c = old_self.spec_card((#[trigger] edits@[a]).0 as int);
                        let es = vec_edits(edits@[a].1@);
                        &&& edits_sorted(es, c.spec_tokens().len() as int)
                        &&& lexable(c.spec_text().len() + delta_prefix(c.spec_tokens(), es, es.len() as int))
                    },
                forall|j: int|
                    0 <= j < old_self.spec_order().len() ==> {
                        let c = old_self.spec_at(j);
                        let d = #[trigger] self.spec_at(j);
                        &&& d.spec_kind() == c.spec_kind()
                        &&& d.spec_slot() == c.spec_slot()
                        &&& (forall|a: int| 0 <= a < k ==> #[trigger] edits@[a].0 != c.spec_slot())
                            ==> d == c
                        &&& forall|a: int|
                            0 <= a < k && #[trigger] edits@[a].0 == c.spec_slot() ==> d.spec_text()
                                == rewritten_text(
                                c.spec_text(),
                                c.spec_tokens(),
                                vec_edits(edits@[a].1@),
                                0,
                                0,
                            )
                    },
            decreases edits@.len() - k,
        {
            let slot = edits[k].0;
            let pos = self.position_of(slot);
            proof {
                old_self.lemma_live(slot as int);
            }
            match pos {
                Some(i) => {
                    let ghost before = *self;
                    let list = &edits[k].1;
                    let mut es: Vec<(usize, &[u8])> = Vec::new();
                    let mut m: usize = 0;
                    while m < list.len()
                        invariant
                            m <= list@.len(),
                            es@.len() == m,
                            forall|x: int| 0 <= x < m ==> (#[trigger] es@[x]).0 == list@[x].0 && es@[x].1@ == list@[x].1@,
                        decreases list@.len() - m,
                    {
                        es.push((list[m].0, list[m].1.as_slice()));
                        m = m + 1;
                    }
                    proof {
                        assert(byte_edits(es@) =~= vec_edits(list@));
                        assert(before.spec_order()[i as int] == slot);
                        assert(before.spec_at(i as int) == old_self.spec_at(i as int)) by {
                            let c = old_self.spec_at(i as int);
                            assert(c.spec_slot() == old_self.spec_order()[i as int]);
                            assert forall|a: int| 0 <= a < k implies #[trigger] edits@[a].0 != c.spec_slot() by {
                                assert(edits@[a].0 != edits@[k as int].0);
                            }
                        }
                    }
                    self.rewrite_card_at(i, es.as_slice());
                    proof {
                        assert forall|j: int|
                            0 <= j < old_self.spec_order().len() implies {
                                let c = old_self.spec_at(j);
                                let d = #[trigger] self.spec_at(j);
                                &&& d.spec_kind() == c.spec_kind()
                                &&& d.spec_slot() == c.spec_slot()
                                &&& (forall|a: int| 0 <= a < k + 1 ==> #[trigger] edits@[a].0 != c.spec_slot())
                                    ==> d == c
                                &&& forall|a: int|
                                    0 <= a < k + 1 && #[trigger] edits@[a].0 == c.spec_slot() ==> d.spec_text()
                                        == rewritten_text(
                                        c.spec_text(),
                                        c.spec_tokens(),
                                        vec_edits(edits@[a].1@),
                                        0,
                                        0,
                                    )
                            } by {
                            let c = old_self.spec_at(j);
                            if j != i {
                                assert(old_self.spec_order()[j] != old_self.spec_order()[i as int]);
                                assert(c.spec_slot() != slot);
                                assert(self.spec_at(j) == before.spec_at(j));
                            } else {
                                assert(c.spec_slot() == slot);
                                assert forall|a: int|
                                    0 <= a < k + 1 && #[trigger] edits@[a].0 == c.spec_slot() implies a == k by {
                                    if a < k {
                                        assert(edits@[a].0 != edits@[k as int].0);
                                    }
                                }
                            }
                        }
                    }
                },
                None => {
                    proof {
                        let w = choose|x: int| 0 <= x < old_self.spec_order().len() && old_self.spec_order()[x] == slot;
                        assert(self.spec_order().contains(slot));
                    }
                },
            }
            k = k + 1;
        }
    }

    /// Remove a card by slot; `false` if the slot is not live.
    pub fn remove_slot(&mut self, slot: u32) -> (r: bool)
        requires
            old(self).wf(),
        ensures
            final(self).wf(),
            final(self).spec_eol() == old(self).spec_eol(),
            r == old(self).spec_order().contains(slot),
            !r ==> *final(self) == *old(self),
            r ==> !final(self).live(slot as int),
            r ==> exists|i: int|
                0 <= i < old(self).spec_order().len() && old(self).spec_order()[i] == slot
                    && final(self).spec_cards() == old(self).spec_cards().remove(i),
    {
        match self.position_of(slot) {
            Some(i) => {
                let r = self.remove_at(i);
                r.is_some()
            },
            None => false,
        }
    }

    /// Position just past the last card of `kind`: where a new card of that
    /// kind belongs.
    pub fn end_of_block(&self, kind: CardKind) -> (r: Option<usize>)
        requires
            self.wf(),
        ensures
            match r {
                Some(p) => 1 <= p <= self.spec_order().len() && self.spec_at(p - 1).spec_kind()
                    == kind && forall|k: int|
                    p <= k < self.spec_order().len() ==> #[trigger] self.spec_at(k).spec_kind()
                        != kind,
                None => forall|k: int|
                    0 <= k < self.spec_order().len() ==> #[trigger] self.spec_at(k).spec_kind()
                        != kind,
            },
    {
        let mut i = self.kinds.len();
        while i > 0
            invariant
                self.wf(),
                i <= self.kinds@.len(),
                forall|k: int|
                    i <= k < self.spec_order().len() ==> #[trigger] self.spec_at(k).spec_kind()
                        != kind,
            decreases i,
        {
            let ghost s = self.order@[i - 1];
            assert(self.order@[i - 1] == s);
            if self.kinds[i - 1] == kind {
                return Some(i);
            }
            i = i - 1;
        }
        None
    }

    /// Consume the tree, yielding its cards in file order by value.
    pub fn into_cards(self) -> (r: Vec<Card>)
        requires
            self.wf(),
        ensures
            r@ == self.spec_cards(),
    {
        let ghost cards = self.spec_cards();
        let ghost o = self.order@;
        let Cst { arena, order, kinds, eol } = self;
        let mut arena = arena;
        let mut out: Vec<Card> = Vec::new();
        let mut i: usize = 0;
        while i < order.len()
            invariant
                order@ == o,
                cards.len() == o.len(),
                i <= o.len(),
                out@ == cards.subrange(0, i as int),
                forall|k: int| 0 <= k < o.len() ==> #[trigger] o[k] < arena@.len(),
                forall|a: int, b: int| 0 <= a < b < o.len() ==> #[trigger] o[a] != #[trigger] o[b],
                forall|k: int|
                    i <= k < o.len() ==> arena@[#[trigger] o[k] as int] == Some(cards[k]),
            decreases o.len() - i,
        {
            let s = order[i] as usize;
            let mut taken: Option<Card> = None;
            proof {
                assert(arena@[o[i as int] as int] == Some(cards[i as int]));
            }
            std::mem::swap(&mut taken, &mut arena[s]);
            let c = taken.unwrap();
            out.push(c);
            proof {
                assert(out@ =~= cards.subrange(0, i + 1));
                assert forall|k: int| i + 1 <= k < o.len() implies arena@[#[trigger] o[k] as int]
                    == Some(cards[k]) by {
                    assert(o[k] != o[i as int]);
                }
            }
            i = i + 1;
        }
        proof {
            assert(out@ =~= cards);
        }
        out
    }

    /// Build a detached card from text.
    pub fn new_card(kind: CardKind, text: String) -> (c: Card)
        requires
            lexable(encode_utf8(text@).len() as int),
        ensures
            c.wf(),
            c.spec_kind() == kind,
            c.spec_text() == encode_utf8(text@),
            c.spec_tokens() == crate::lex::spec_lex(c.spec_text(), kind),
    {
        let bytes = vstd::slice::slice_to_vec(text.as_str().as_bytes());
        Card::new(kind, bytes)
    }
}

/// Inserting a card at a position and removing the card at that same position
/// gives back the same cards in the same order, so the emitted source is
/// unchanged: an insert followed by the removal of its slot is a byte identity.
pub proof fn law_insert_then_remove_is_identity(cards: Seq<Card>, at: int, c: Card)
    requires
        0 <= at <= cards.len(),
    ensures
        cards.insert(at, c).remove(at) == cards,
        concat_texts(cards.insert(at, c).remove(at)) == concat_texts(cards),
{
    assert(cards.insert(at, c).remove(at) =~= cards);
}

/// Inserting a card puts its bytes into the source exactly at its position:
/// everything before and after is emitted unchanged.
pub proof fn law_insert_emits_in_place(cards: Seq<Card>, at: int, c: Card)
    requires
        0 <= at <= cards.len(),
    ensures
        concat_texts(cards.insert(at, c)) == concat_texts(cards.subrange(0, at)) + c.spec_text()
            + concat_texts(cards.subrange(at, cards.len() as int)),
        concat_texts(cards) == concat_texts(cards.subrange(0, at)) + concat_texts(
            cards.subrange(at, cards.len() as int),
        ),
{
    let pre = cards.subrange(0, at);
    let post = cards.subrange(at, cards.len() as int);
    assert(cards.insert(at, c) =~= pre.push(c) + post);
    lemma_concat_append(pre.push(c), post);
    lemma_concat_push(pre, c);
    assert(cards =~= pre + post);
    lemma_concat_append(pre, post);
}

/// Cards with non-empty texts are no more numerous than their bytes.
proof fn lemma_cards_len_bound(cards: Seq<Card>)
    requires
        forall|i: int| 0 <= i < cards.len() ==> (#[trigger] cards[i]).spec_text().len() > 0,
    ensures
        cards.len() <= concat_texts(cards).len(),
    decreases cards.len(),
{
    if cards.len() > 0 {
        let d = cards.drop_last();
        assert forall|i: int| 0 <= i < d.len() implies (#[trigger] d[i]).spec_text().len() > 0 by {
            assert(d[i] == cards[i]);
        }
        lemma_cards_len_bound(d);
    }
}

/// Two card sequences with equal texts position by position emit the same bytes.
pub proof fn lemma_concat_same_texts(a: Seq<Card>, b: Seq<Card>)
    requires
        a.len() == b.len(),
        forall|i: int| 0 <= i < a.len() ==> (#[trigger] a[i]).spec_text() == b[i].spec_text(),
    ensures
        concat_texts(a) == concat_texts(b),
    decreases a.len(),
{
    if a.len() > 0 {
        lemma_concat_same_texts(a.drop_last(), b.drop_last());
    }
}

} // verus!
