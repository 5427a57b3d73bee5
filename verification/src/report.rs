//! A consistency report on a renumbering: what a model looked like before
//! and after, and whether every surface the cells of the result name is
//! defined.

use vstd::prelude::*;
use crate::card::Card;
use crate::kind::CardKind;
use crate::model::{defined_id, first_definition, Family, Model};
use crate::view::{cell_geometry, surface_values, CellView};

verus! {

/// A count as a `u64`, saturated at its largest value.
pub open spec fn saturated(x: int) -> u64 {
    if x > u64::MAX {
        u64::MAX
    } else {
        x as u64
    }
}

/// How many tokens the cards hold.
pub open spec fn token_total(cards: Seq<Card>) -> int
    decreases cards.len(),
{
    if cards.len() == 0 {
        0
    } else {
        token_total(cards.drop_last()) + cards.last().spec_tokens().len()
    }
}

/// How many surface cards define an id.
pub open spec fn surface_total(cards: Seq<Card>) -> int
    decreases cards.len(),
{
    if cards.len() == 0 {
        0
    } else {
        surface_total(cards.drop_last()) + if defined_id(Family::Surface, cards.last()) is Some {
            1int
        } else {
            0int
        }
    }
}

/// The magnitude of a signed surface number.
pub open spec fn magnitude(v: i64) -> int {
    if v < 0 {
        -v
    } else {
        v as int
    }
}

/// The magnitudes of every surface the cells' geometry names, in file order.
pub open spec fn surface_refs(cards: Seq<Card>) -> Seq<int>
    decreases cards.len(),
{
    if cards.len() == 0 {
        Seq::empty()
    } else {
        let c = cards.last();
        surface_refs(cards.drop_last()) + if c.spec_kind() == CardKind::Cell {
            surface_values(cell_geometry(c)).map_values(|v: i64| magnitude(v))
        } else {
            Seq::empty()
        }
    }
}

/// Some surface card of the cards defines the id `x`.
pub open spec fn resolves(cards: Seq<Card>, x: int) -> bool {
    x <= i64::MAX && first_definition(cards, Family::Surface, x as i64) is Some
}

/// How many of the references `xs` no surface card of `cards` defines.
pub open spec fn dangling_total(cards: Seq<Card>, xs: Seq<int>) -> int
    decreases xs.len(),
{
    if xs.len() == 0 {
        0
    } else {
        dangling_total(cards, xs.drop_last()) + if resolves(cards, xs.last()) {
            0int
        } else {
            1int
        }
    }
}

/// The least of `xs`, if any.
pub open spec fn least(xs: Seq<int>) -> Option<int>
    decreases xs.len(),
{
    if xs.len() == 0 {
        None
    } else {
        match least(xs.drop_last()) {
            Some(m) => Some(if xs.last() < m {
                xs.last()
            } else {
                m
            }),
            None => Some(xs.last()),
        }
    }
}

/// What a renumbering changed in the shape of a model, and whether the
/// result still holds together.
pub struct RenumberReport {
    pub tokens_before: u64,
    pub tokens_after: u64,
    pub cards_before: u64,
    pub cards_after: u64,
    pub surfaces_before: u64,
    pub surfaces_after: u64,
    /// Surface references in the cells of the result.
    pub surface_refs: u64,
    /// Those references that no surface of the result defines.
    pub dangling: u64,
    /// The least surface magnitude the cells of the result name.
    pub min_surface: Option<u64>,
}

proof fn lemma_token_total_nonneg(cards: Seq<Card>)
    ensures
        token_total(cards) >= 0,
    decreases cards.len(),
{
    if cards.len() > 0 {
        lemma_token_total_nonneg(cards.drop_last());
    }
}

proof fn lemma_dangling_nonneg(cards: Seq<Card>, xs: Seq<int>)
    ensures
        0 <= dangling_total(cards, xs) <= xs.len(),
    decreases xs.len(),
{
    if xs.len() > 0 {
        lemma_dangling_nonneg(cards, xs.drop_last());
    }
}

proof fn lemma_least_bounds(xs: Seq<int>)
    requires
        forall|j: int| 0 <= j < xs.len() ==> 0 <= #[trigger] xs[j] <= u64::MAX,
    ensures
        least(xs) matches Some(m) ==> 0 <= m <= u64::MAX,
    decreases xs.len(),
{
    if xs.len() > 0 {
        let p = xs.drop_last();
        assert forall|j: int| 0 <= j < p.len() implies 0 <= #[trigger] p[j] <= u64::MAX by {
            assert(p[j] == xs[j]);
        }
        lemma_least_bounds(p);
    }
}

/// The counts of a model: tokens, cards and defined surfaces.
fn shape(m: &Model) -> (r: (u64, u64, u64))
    requires
        m.wf(),
    ensures
        r.0 == saturated(token_total(m.spec_cards())),
        r.1 == saturated(m.spec_cards().len() as int),
        r.2 == saturated(surface_total(m.spec_cards())),
{
    let n = m.cst().len();
    let ghost cards = m.spec_cards();
    let mut toks: u64 = 0;
    let mut surfs: u64 = 0;
    let mut i: usize = 0;
    while i < n
        invariant
            m.wf(),
            cards == m.spec_cards(),
            n == cards.len(),
            i <= n,
            toks == saturated(token_total(cards.subrange(0, i as int))),
            surfs == saturated(surface_total(cards.subrange(0, i as int))),
            0 <= surface_total(cards.subrange(0, i as int)) <= i,
        decreases n - i,
    {
        proof {
            m.spec_cst().lemma_wf();
            assert(cards.subrange(0, i + 1).drop_last() =~= cards.subrange(0, i as int));
        }
        let card = m.cst().at(i).unwrap();
        assert(*card == cards[i as int]);
        assert(cards.subrange(0, i + 1).last() == cards[i as int]);
        assert(token_total(cards.subrange(0, i + 1)) == token_total(cards.subrange(0, i as int))
            + card.spec_tokens().len());
        assert(token_total(cards.subrange(0, i as int)) >= 0) by {
            lemma_token_total_nonneg(cards.subrange(0, i as int));
        }
        let t = card.tokens().len() as u64;
        toks = toks.saturating_add(t);
        if Model::defined_id(card, Family::Surface).is_some() {
            surfs = surfs.saturating_add(1);
        }
        i = i + 1;
    }
    proof {
        assert(cards.subrange(0, n as int) =~= cards);
    }
    (toks, n as u64, surfs)
}

/// Report on a renumbering that turned `before` into `after`: token, card
/// and surface counts of both, and the surface references of `after` with
/// how many of them dangle and the least of them.
pub fn renumber_report(before: &Model, after: &Model) -> (r: RenumberReport)
    requires
        before.wf(),
        after.wf(),
    ensures
        r.tokens_before == saturated(token_total(before.spec_cards())),
        r.tokens_after == saturated(token_total(after.spec_cards())),
        r.cards_before == saturated(before.spec_cards().len() as int),
        r.cards_after == saturated(after.spec_cards().len() as int),
        r.surfaces_before == saturated(surface_total(before.spec_cards())),
        r.surfaces_after == saturated(surface_total(after.spec_cards())),
        r.surface_refs == saturated(surface_refs(after.spec_cards()).len() as int),
        r.dangling == saturated(dangling_total(after.spec_cards(), surface_refs(after.spec_cards()))),
        r.min_surface == match least(surface_refs(after.spec_cards())) {
            Some(x) => Some(x as u64),
            None => None::<u64>,
        },
{
    let (tb, cb, sb) = shape(before);
    let (ta, ca, sa) = shape(after);
    let n = after.cst().len();
    let ghost cards = after.spec_cards();
    let mut refs: u64 = 0;
    let mut dangling: u64 = 0;
    let mut min: Option<u64> = None;
    let mut i: usize = 0;
    while i < n
        invariant
            after.wf(),
            cards == after.spec_cards(),
            n == cards.len(),
            i <= n,
            refs == saturated(surface_refs(cards.subrange(0, i as int)).len() as int),
            dangling == saturated(dangling_total(cards, surface_refs(cards.subrange(0, i as int)))),
            min == match least(surface_refs(cards.subrange(0, i as int))) {
                Some(x) => Some(x as u64),
                None => None::<u64>,
            },
            forall|k: int|
                0 <= k < surface_refs(cards.subrange(0, i as int)).len() ==> 0 <= #[trigger] surface_refs(
                    cards.subrange(0, i as int),
                )[k] <= u64::MAX,
        decreases n - i,
    {
        proof {
            after.spec_cst().lemma_wf();
        }
        let card = after.cst().at(i).unwrap();
        let ghost c = *card;
        assert(c == cards[i as int]);
        let ghost pre = surface_refs(cards.subrange(0, i as int));
        proof {
            assert(cards.subrange(0, i + 1).drop_last() =~= cards.subrange(0, i as int));
        }
        if card.kind() == CardKind::Cell {
            let v = CellView::new(after, card.slot());
            assert(v.spec_card() == c);
            let s = v.signed_surfaces();
            let ghost vals = surface_values(cell_geometry(c));
            let ghost mags = vals.map_values(|x: i64| magnitude(x));
            let mut k: usize = 0;
            while k < s.len()
                invariant
                    after.wf(),
                    cards == after.spec_cards(),
                    s@ == vals,
                    mags == vals.map_values(|x: i64| magnitude(x)),
                    k <= s@.len(),
                    refs == saturated((pre + mags.subrange(0, k as int)).len() as int),
                    dangling == saturated(dangling_total(cards, pre + mags.subrange(0, k as int))),
                    min == match least(pre + mags.subrange(0, k as int)) {
                        Some(x) => Some(x as u64),
                        None => None::<u64>,
                    },
                    forall|j: int|
                        0 <= j < (pre + mags.subrange(0, k as int)).len() ==> 0
                            <= #[trigger] (pre + mags.subrange(0, k as int))[j] <= u64::MAX,
                decreases s@.len() - k,
            {
                let ghost before_k = pre + mags.subrange(0, k as int);
                let x = s[k];
                let mag: u64 = if x < 0 {
                    (0i128 - (x as i128)) as u64
                } else {
                    x as u64
                };
                assert(mag as int == mags[k as int]);
                proof {
                    assert(pre + mags.subrange(0, k + 1) =~= before_k.push(mags[k as int]));
                    assert(before_k.push(mags[k as int]).drop_last() =~= before_k);
                    assert(before_k.push(mags[k as int]).last() == mags[k as int]);
                    lemma_dangling_nonneg(cards, before_k);
                    lemma_least_bounds(before_k);
                }
                refs = refs.saturating_add(1);
                let found = if mag <= 0x7FFF_FFFF_FFFF_FFFFu64 {
                    after.find_definition(Family::Surface, mag as i64).is_some()
                } else {
                    false
                };
                assert(found == resolves(cards, mags[k as int]));
                if !found {
                    dangling = dangling.saturating_add(1);
                }
                min = match min {
                    Some(m0) => Some(if mag < m0 {
                        mag
                    } else {
                        m0
                    }),
                    None => Some(mag),
                };
                k = k + 1;
            }
            proof {
                assert(mags.subrange(0, k as int) =~= mags);
            }
        } else {
            proof {
                assert(pre + Seq::<int>::empty() =~= pre);
            }
        }
        i = i + 1;
    }
    proof {
        assert(cards.subrange(0, n as int) =~= cards);
    }
    RenumberReport {
        tokens_before: tb,
        tokens_after: ta,
        cards_before: cb,
        cards_after: ca,
        surfaces_before: sb,
        surfaces_after: sa,
        surface_refs: refs,
        dangling,
        min_surface: min,
    }
}

} // verus!
