//! Recoverability reporting: the parser never fails; anything it cannot make
//! sense of is reported, and the bytes are kept exactly.

use vstd::prelude::*;
use vstd::string::StringSliceAdditionalSpecFns;
use rustc_hash::FxHashMap;
use crate::fx::fx_insert;
use crate::bytes::push_range;
use crate::card::Card;
use crate::cell::{layout as cell_layout, spec_cell_layout};
use crate::cst::Cst;
use crate::data::{entries_from, head, material_entry_tokens, material_id, spec_head, spec_material_id, transform_id};
use crate::decimal::{fmt_int, int_text};
use crate::kind::{CardKind, SyntaxKind};
use crate::model::{defined_id, Family};
use crate::segment::concat_texts;
use crate::surface::{layout as surface_layout, spec_surface_layout};

verus! {

#[derive(Debug, Clone, Copy, PartialEq, Eq, Structural)]
pub enum Severity {
    Error,
    Warning,
}

/// Number of `\n` bytes in `s`.
pub open spec fn newlines(s: Seq<u8>) -> int
    decreases s.len(),
{
    if s.len() == 0 {
        0
    } else {
        newlines(s.drop_last()) + if s.last() == 10u8 {
            1int
        } else {
            0int
        }
    }
}

pub proof fn lemma_newlines_bound(s: Seq<u8>)
    ensures
        0 <= newlines(s) <= s.len(),
    decreases s.len(),
{
    if s.len() > 0 {
        lemma_newlines_bound(s.drop_last());
    }
}

/// The 1-based line number containing byte `offset` of `source`; an offset
/// past the end counts as the end of `source`.
pub fn line_of(source: &[u8], offset: usize) -> (r: usize)
    requires
        source@.len() < usize::MAX,
    ensures
        r == newlines(
            source@.subrange(
                0,
                if offset < source@.len() {
                    offset as int
                } else {
                    source@.len() as int
                },
            ),
        ) + 1,
{
    let end = if offset < source.len() {
        offset
    } else {
        source.len()
    };
    let mut count: usize = 0;
    let mut i: usize = 0;
    while i < end
        invariant
            end <= source@.len() < usize::MAX,
            i <= end,
            count == newlines(source@.subrange(0, i as int)),
            count <= i,
        decreases end - i,
    {
        proof {
            assert(source@.subrange(0, i + 1).drop_last() =~= source@.subrange(0, i as int));
        }
        if source[i] == 10u8 {
            count = count + 1;
        }
        i = i + 1;
    }
    count + 1
}

/// A problem found while reading a model: what kind, what it says, and the
/// byte range of the source, as parsed, that it is about.
#[derive(Debug)]
pub struct Diagnostic {
    pub severity: Severity,
    pub message: Vec<u8>,
    /// Byte range in the source as parsed. Edits do not move it.
    pub span: std::ops::Range<usize>,
}

impl View for Diagnostic {
    type V = (Severity, Seq<u8>, int, int);

    open spec fn view(&self) -> (Severity, Seq<u8>, int, int) {
        (self.severity, self.message@, self.span.start as int, self.span.end as int)
    }
}

/// The views of a list of diagnostics.
pub open spec fn reports_of(ds: Seq<Diagnostic>) -> Seq<(Severity, Seq<u8>, int, int)> {
    ds.map_values(|d: Diagnostic| d@)
}

/// Reports with their spans moved `b` bytes on.
pub open spec fn shifted(rs: Seq<(Severity, Seq<u8>, int, int)>, b: int) -> Seq<
    (Severity, Seq<u8>, int, int),
> {
    Seq::new(rs.len(), |i: int| (rs[i].0, rs[i].1, rs[i].2 + b, rs[i].3 + b))
}

/// A warning for each `Unknown` token among the first `n` tokens of `c`,
/// spanning the token, in card-local bytes.
pub open spec fn unknown_reports(c: Card, n: int) -> Seq<(Severity, Seq<u8>, int, int)>
    decreases n,
{
    if n <= 0 {
        Seq::empty()
    } else {
        let prev = unknown_reports(c, n - 1);
        let t = c.spec_tokens()[n - 1];
        if t.kind == SyntaxKind::Unknown {
            prev.push(
                (
                    Severity::Warning,
                    "unrecognized token `".spec_bytes() + c.spec_text().subrange(
                        t.start as int,
                        t.spec_end(),
                    ) + "`".spec_bytes(),
                    t.start as int,
                    t.spec_end(),
                ),
            )
        } else {
            prev
        }
    }
}

/// What a cell or surface card's layout reports: a missing id is an error, a
/// card that is not well formed a warning; both span the whole card.
pub open spec fn layout_reports(label: Seq<u8>, id: Option<i64>, well_formed: bool, n: int) -> Seq<
    (Severity, Seq<u8>, int, int),
> {
    (match id {
        Some(_) => Seq::empty(),
        None => seq![(Severity::Error, label + " card has no readable id".spec_bytes(), 0, n)],
    }) + (if well_formed {
        Seq::empty()
    } else {
        seq![
            (
                Severity::Warning,
                match id {
                    Some(i) => label + " ".spec_bytes() + int_text(i as int)
                        + " is not well formed".spec_bytes(),
                    None => label + " is not well formed".spec_bytes(),
                },
                0,
                n,
            ),
        ]
    })
}

/// Everything reading card `c` on its own reports, in card-local bytes:
/// its unknown tokens first, then what its kind has to say.
pub open spec fn card_reports(c: Card) -> Seq<(Severity, Seq<u8>, int, int)> {
    let n = c.spec_text().len() as int;
    unknown_reports(c, c.spec_tokens().len() as int) + match c.spec_kind() {
        CardKind::Cell => layout_reports(
            "cell".spec_bytes(),
            spec_cell_layout(c).id,
            spec_cell_layout(c).well_formed,
            n,
        ),
        CardKind::Surface => layout_reports(
            "surface".spec_bytes(),
            spec_surface_layout(c).id,
            spec_surface_layout(c).well_formed,
            n,
        ),
        CardKind::Data => match spec_head(c) {
            Some(h) => match spec_material_id(h) {
                Some(id) => if entries_from(c, h.values_start as int).1 {
                    Seq::empty()
                } else {
                    seq![
                        (
                            Severity::Warning,
                            "material ".spec_bytes() + int_text(id as int)
                                + " has an unreadable entry".spec_bytes(),
                            0,
                            n,
                        ),
                    ]
                },
                None => Seq::empty(),
            },
            None => Seq::empty(),
        },
        _ => Seq::empty(),
    }
}

/// The cards' own reports, each moved to where its card starts in the source.
pub open spec fn cards_reports(cards: Seq<Card>) -> Seq<(Severity, Seq<u8>, int, int)>
    decreases cards.len(),
{
    if cards.len() == 0 {
        Seq::empty()
    } else {
        let prev = cards.drop_last();
        cards_reports(prev) + shifted(card_reports(cards.last()), concat_texts(prev).len() as int)
    }
}

/// The id a card defines, and in which family: a cell, a surface, or a data
/// card naming a material (tried first) or a transform.
pub open spec fn scan_id(c: Card) -> Option<(Family, i64)> {
    match defined_id(Family::Cell, c) {
        Some(id) => Some((Family::Cell, id)),
        None => match defined_id(Family::Surface, c) {
            Some(id) => Some((Family::Surface, id)),
            None => match defined_id(Family::Material, c) {
                Some(id) => Some((Family::Material, id)),
                None => match defined_id(Family::Transform, c) {
                    Some(id) => Some((Family::Transform, id)),
                    None => None,
                },
            },
        },
    }
}

/// The ids of family `f` that the cards define.
pub open spec fn ids_seen(cards: Seq<Card>, f: Family) -> Set<i64>
    decreases cards.len(),
{
    if cards.len() == 0 {
        Set::empty()
    } else {
        let s = ids_seen(cards.drop_last(), f);
        match scan_id(cards.last()) {
            Some((g, id)) => if g == f {
                s.insert(id)
            } else {
                s
            },
            None => s,
        }
    }
}

/// How a family is named in a message.
pub open spec fn family_label(f: Family) -> Seq<u8> {
    match f {
        Family::Cell => "cell".spec_bytes(),
        Family::Surface => "surface".spec_bytes(),
        Family::Material => "material".spec_bytes(),
        Family::Transform => "transform".spec_bytes(),
        Family::Data => "data".spec_bytes(),
    }
}

/// An error for each card that defines an id an earlier card of its family
/// already defined; the first definition is the one a lookup finds.
pub open spec fn duplicate_reports(cards: Seq<Card>) -> Seq<(Severity, Seq<u8>, int, int)>
    decreases cards.len(),
{
    if cards.len() == 0 {
        Seq::empty()
    } else {
        let prev = cards.drop_last();
        duplicate_reports(prev) + match scan_id(cards.last()) {
            Some((f, id)) => if ids_seen(prev, f).contains(id) {
                seq![
                    (
                        Severity::Error,
                        "duplicate ".spec_bytes() + family_label(f) + " id ".spec_bytes()
                            + int_text(id as int),
                        0,
                        0,
                    ),
                ]
            } else {
                Seq::empty()
            },
            None => Seq::empty(),
        }
    }
}

/// Everything reading a model reports: the duplicate ids first, then each
/// card's own reports in file order.
pub open spec fn model_reports(cards: Seq<Card>) -> Seq<(Severity, Seq<u8>, int, int)> {
    duplicate_reports(cards) + cards_reports(cards)
}

fn push_str(out: &mut Vec<u8>, s: &str)
    ensures
        final(out)@ == old(out)@ + s.spec_bytes(),
{
    let b = s.as_bytes();
    push_range(out, b, 0, b.len());
    proof {
        assert(b@.subrange(0, b@.len() as int) =~= b@);
    }
}

fn push_report(out: &mut Vec<Diagnostic>, d: Diagnostic)
    ensures
        reports_of(final(out)@) == reports_of(old(out)@).push(d@),
{
    out.push(d);
    proof {
        assert(reports_of(out@) =~= reports_of(old(out)@).push(d@));
    }
}

proof fn lemma_shift_push(
    rs: Seq<(Severity, Seq<u8>, int, int)>,
    r: (Severity, Seq<u8>, int, int),
    b: int,
)
    ensures
        shifted(rs.push(r), b) == shifted(rs, b).push((r.0, r.1, r.2 + b, r.3 + b)),
{
    assert(shifted(rs.push(r), b) =~= shifted(rs, b).push((r.0, r.1, r.2 + b, r.3 + b)));
}

proof fn lemma_shift_concat(
    a: Seq<(Severity, Seq<u8>, int, int)>,
    c: Seq<(Severity, Seq<u8>, int, int)>,
    b: int,
)
    ensures
        shifted(a + c, b) == shifted(a, b) + shifted(c, b),
{
    assert(shifted(a + c, b) =~= shifted(a, b) + shifted(c, b));
}

/// Report a cell or surface card's layout problems, spanning the card.
fn layout_diagnostics(
    label: &str,
    id: Option<i64>,
    well_formed: bool,
    n: usize,
    base: usize,
    out: &mut Vec<Diagnostic>,
)
    requires
        base + n <= usize::MAX,
    ensures
        reports_of(final(out)@) == reports_of(old(out)@) + shifted(
            layout_reports(label.spec_bytes(), id, well_formed, n as int),
            base as int,
        ),
{
    let ghost start = reports_of(out@);
    let ghost full = layout_reports(label.spec_bytes(), id, well_formed, n as int);
    let ghost first: Seq<(Severity, Seq<u8>, int, int)> = match id {
        Some(_) => Seq::empty(),
        None => seq![
            (Severity::Error, label.spec_bytes() + " card has no readable id".spec_bytes(), 0, n as int),
        ],
    };
    let ghost second = full.subrange(first.len() as int, full.len() as int);
    assert(full =~= first + second);
    if id.is_none() {
        let mut msg: Vec<u8> = Vec::new();
        push_str(&mut msg, label);
        push_str(&mut msg, " card has no readable id");
        push_report(out, Diagnostic { severity: Severity::Error, message: msg, span: base..base + n });
    }
    assert(reports_of(out@) =~= start + shifted(first, base as int));
    if !well_formed {
        let mut msg: Vec<u8> = Vec::new();
        push_str(&mut msg, label);
        match id {
            Some(i) => {
                push_str(&mut msg, " ");
                let digits = fmt_int(i);
                push_range(&mut msg, digits.as_slice(), 0, digits.len());
                proof {
                    assert(digits@.subrange(0, digits@.len() as int) =~= digits@);
                }
                push_str(&mut msg, " is not well formed");
            },
            None => {
                push_str(&mut msg, " is not well formed");
            },
        }
        push_report(out, Diagnostic { severity: Severity::Warning, message: msg, span: base..base + n });
    }
    proof {
        lemma_shift_concat(first, second, base as int);
        assert(reports_of(out@) =~= start + shifted(full, base as int));
    }
}

/// Report a card's unknown tokens, each spanning the token.
fn unknown_diagnostics(card: &Card, base: usize, out: &mut Vec<Diagnostic>)
    requires
        card.wf(),
        base + card.spec_text().len() <= usize::MAX,
    ensures
        reports_of(final(out)@) == reports_of(old(out)@) + shifted(
            unknown_reports(*card, card.spec_tokens().len() as int),
            base as int,
        ),
{
    let toks = card.tokens();
    let ghost start = reports_of(out@);
    proof {
        card.lemma_wf();
        assert(shifted(unknown_reports(*card, 0), base as int) =~= Seq::empty());
        assert(start + Seq::<(Severity, Seq<u8>, int, int)>::empty() =~= start);
    }
    let mut i: usize = 0;
    while i < toks.len()
        invariant
            card.wf(),
            toks@ == card.spec_tokens(),
            tokens_wf_len(card),
            base + card.spec_text().len() <= usize::MAX,
            i <= toks@.len(),
            reports_of(out@) == start + shifted(unknown_reports(*card, i as int), base as int),
        decreases toks@.len() - i,
    {
        let t = toks[i];
        if t.kind == SyntaxKind::Unknown {
            let mut msg: Vec<u8> = Vec::new();
            push_str(&mut msg, "unrecognized token `");
            let tt = card.token_text(i);
            push_range(&mut msg, tt, 0, tt.len());
            proof {
                assert(tt@.subrange(0, tt@.len() as int) =~= tt@);
            }
            push_str(&mut msg, "`");
            assert(t.spec_end() <= card.spec_text().len());
            let from = base + t.start as usize;
            let to = from + t.len as usize;
            push_report(out, Diagnostic { severity: Severity::Warning, message: msg, span: from..to });
            proof {
                lemma_shift_push(unknown_reports(*card, i as int), unknown_reports(*card, i + 1).last(), base as int);
                assert(unknown_reports(*card, i + 1) =~= unknown_reports(*card, i as int).push(
                    unknown_reports(*card, i + 1).last(),
                ));
                assert(reports_of(out@) =~= start + shifted(unknown_reports(*card, i + 1), base as int));
            }
        }
        i = i + 1;
    }
}

/// Every token of the card lies within its text.
spec fn tokens_wf_len(card: &Card) -> bool {
    forall|i: int|
        0 <= i < card.spec_tokens().len() ==> 0 <= (#[trigger] card.spec_tokens()[i]).start
            && card.spec_tokens()[i].spec_end() <= card.spec_text().len()
}

/// Report everything card `card`, starting at byte `base` of the source, says
/// on its own; the id it defines comes back.
fn card_diagnostics(card: &Card, base: usize, out: &mut Vec<Diagnostic>) -> (r: Option<(Family, i64)>)
    requires
        card.wf(),
        base + card.spec_text().len() <= usize::MAX,
    ensures
        reports_of(final(out)@) == reports_of(old(out)@) + shifted(card_reports(*card), base as int),
        r == scan_id(*card),
{
    let ghost start = reports_of(out@);
    let n = card.len_bytes();
    unknown_diagnostics(card, base, out);
    let ghost mid = reports_of(out@);
    let ghost u = unknown_reports(*card, card.spec_tokens().len() as int);
    let ghost rest = card_reports(*card).subrange(u.len() as int, card_reports(*card).len() as int);
    assert(card_reports(*card) =~= u + rest);
    let r = match card.kind() {
        CardKind::Cell => {
            let l = cell_layout(card);
            layout_diagnostics("cell", l.id, l.well_formed, n, base, out);
            match l.id {
                Some(id) => Some((Family::Cell, id)),
                None => None,
            }
        },
        CardKind::Surface => {
            let l = surface_layout(card);
            layout_diagnostics("surface", l.id, l.well_formed, n, base, out);
            match l.id {
                Some(id) => Some((Family::Surface, id)),
                None => None,
            }
        },
        CardKind::Data => {
            match head(card) {
                Some(h) => {
                    match material_id(&h) {
                        Some(id) => {
                            let (_, ok) = material_entry_tokens(card, &h);
                            if !ok {
                                let mut msg: Vec<u8> = Vec::new();
                                push_str(&mut msg, "material ");
                                let digits = fmt_int(id);
                                push_range(&mut msg, digits.as_slice(), 0, digits.len());
                                proof {
                                    assert(digits@.subrange(0, digits@.len() as int) =~= digits@);
                                }
                                push_str(&mut msg, " has an unreadable entry");
                                push_report(
                                    out,
                                    Diagnostic { severity: Severity::Warning, message: msg, span: base..base + n },
                                );
                            }
                            proof {
                                assert(reports_of(out@) =~= mid + shifted(rest, base as int));
                            }
                            Some((Family::Material, id))
                        },
                        None => {
                            proof {
                                assert(reports_of(out@) =~= mid + shifted(rest, base as int));
                            }
                            match transform_id(&h) {
                                Some(id) => Some((Family::Transform, id)),
                                None => None,
                            }
                        },
                    }
                },
                None => {
                    proof {
                        assert(reports_of(out@) =~= mid + shifted(rest, base as int));
                    }
                    None
                },
            }
        },
        _ => {
            proof {
                assert(reports_of(out@) =~= mid + shifted(rest, base as int));
            }
            None
        },
    };
    proof {
        lemma_shift_concat(u, rest, base as int);
        assert(reports_of(out@) =~= start + shifted(card_reports(*card), base as int));
    }
    r
}

proof fn lemma_ids_seen_step(cards: Seq<Card>, k: int, f: Family)
    requires
        0 <= k < cards.len(),
    ensures
        ids_seen(cards.subrange(0, k + 1), f) == match scan_id(cards[k]) {
            Some((g, id)) => if g == f {
                ids_seen(cards.subrange(0, k), f).insert(id)
            } else {
                ids_seen(cards.subrange(0, k), f)
            },
            None => ids_seen(cards.subrange(0, k), f),
        },
{
    assert(cards.subrange(0, k + 1).drop_last() =~= cards.subrange(0, k));
}

/// Note that a card defines `id` in its family; whether an earlier card
/// already did comes back.
fn note_id(
    maps: &mut (FxHashMap<i64, usize>, FxHashMap<i64, usize>, FxHashMap<i64, usize>, FxHashMap<i64, usize>),
    f: Family,
    id: i64,
    slot: u32,
) -> (seen: bool)
    requires
        f != Family::Data,
    ensures
        seen == map_of(*old(maps), f)@.contains_key(id),
        forall|g: Family|
            #![trigger map_of(*final(maps), g)]
            g != Family::Data ==> map_of(*final(maps), g)@.dom() == if g == f {
                map_of(*old(maps), g)@.dom().insert(id)
            } else {
                map_of(*old(maps), g)@.dom()
            },
{
    let prev = match f {
        Family::Cell => fx_insert(&mut maps.0, id, slot as usize),
        Family::Surface => fx_insert(&mut maps.1, id, slot as usize),
        Family::Material => fx_insert(&mut maps.2, id, slot as usize),
        _ => fx_insert(&mut maps.3, id, slot as usize),
    };
    proof {
        assert forall|g: Family| g != Family::Data implies #[trigger] map_of(*final(maps), g)@.dom()
            == if g == f {
            map_of(*old(maps), g)@.dom().insert(id)
        } else {
            map_of(*old(maps), g)@.dom()
        } by {
            if g == f {
                assert(map_of(*final(maps), g)@.dom() =~= map_of(*old(maps), g)@.dom().insert(id));
            }
        }
    }
    prev.is_some()
}

/// The index map of family `f` among the four.
spec fn map_of(
    maps: (FxHashMap<i64, usize>, FxHashMap<i64, usize>, FxHashMap<i64, usize>, FxHashMap<i64, usize>),
    f: Family,
) -> FxHashMap<i64, usize> {
    match f {
        Family::Cell => maps.0,
        Family::Surface => maps.1,
        Family::Material => maps.2,
        _ => maps.3,
    }
}

/// The message of a duplicate-id report.
fn duplicate_message(f: Family, id: i64) -> (r: Vec<u8>)
    ensures
        r@ == "duplicate ".spec_bytes() + family_label(f) + " id ".spec_bytes() + int_text(id as int),
{
    let mut msg: Vec<u8> = Vec::new();
    push_str(&mut msg, "duplicate ");
    match f {
        Family::Cell => push_str(&mut msg, "cell"),
        Family::Surface => push_str(&mut msg, "surface"),
        Family::Material => push_str(&mut msg, "material"),
        Family::Transform => push_str(&mut msg, "transform"),
        Family::Data => push_str(&mut msg, "data"),
    }
    push_str(&mut msg, " id ");
    let digits = fmt_int(id);
    push_range(&mut msg, digits.as_slice(), 0, digits.len());
    proof {
        assert(digits@.subrange(0, digits@.len() as int) =~= digits@);
    }
    msg
}

/// Everything reading the tree reports: each id defined a second time in its
/// family, then what each card says on its own, spans placed in the source.
#[verifier::rlimit(60)]
#[verifier::spinoff_prover]
pub fn collect_diagnostics(cst: &Cst) -> (r: Vec<Diagnostic>)
    requires
        cst.wf(),
        cst.spec_source().len() <= usize::MAX,
    ensures
        reports_of(r@) == model_reports(cst.spec_cards()),
{
    let n = cst.len();
    let ghost cards = cst.spec_cards();
    let mut maps: (FxHashMap<i64, usize>, FxHashMap<i64, usize>, FxHashMap<i64, usize>, FxHashMap<i64, usize>) = (
        FxHashMap::default(),
        FxHashMap::default(),
        FxHashMap::default(),
        FxHashMap::default(),
    );
    let mut dups: Vec<Diagnostic> = Vec::new();
    let mut own: Vec<Diagnostic> = Vec::new();
    let mut base: usize = 0;
    proof {
        cst.lemma_wf();
        assert(cards.subrange(0, 0) =~= Seq::<Card>::empty());
        assert forall|g: Family| g != Family::Data implies #[trigger] map_of(maps, g)@.dom() == ids_seen(
            cards.subrange(0, 0),
            g,
        ) by {
            assert(map_of(maps, g)@.dom() =~= Set::<i64>::empty());
        }
    }
    let mut k: usize = 0;
    while k < n
        invariant
            cst.wf(),
            cards == cst.spec_cards(),
            n == cards.len(),
            concat_texts(cards).len() <= usize::MAX,
            k <= n,
            base == concat_texts(cards.subrange(0, k as int)).len(),
            forall|g: Family|
                #![trigger map_of(maps, g)]
                g != Family::Data ==> map_of(maps, g)@.dom() == ids_seen(cards.subrange(0, k as int), g),
            reports_of(dups@) == duplicate_reports(cards.subrange(0, k as int)),
            reports_of(own@) == cards_reports(cards.subrange(0, k as int)),
        decreases n - k,
    {
        let card = cst.at(k).unwrap();
        let ghost pre = cards.subrange(0, k as int);
        proof {
            cst.lemma_wf();
            assert(cards[k as int] == *card);
            assert(cards.subrange(0, k + 1).drop_last() =~= pre);
            assert(cards.subrange(0, k + 1).last() == *card);
            lemma_concat_prefix(cards, k as int);
            lemma_concat_prefix_bound(cards, k + 1);
            lemma_reports_step(cards, k as int);
        }
        let found = card_diagnostics(card, base, &mut own);
        match found {
            Some((f, id)) => {
                let seen = note_id(&mut maps, f, id, card.slot());
                if seen {
                    let msg = duplicate_message(f, id);
                    push_report(&mut dups, Diagnostic { severity: Severity::Error, message: msg, span: 0..0 });
                    assert(reports_of(dups@) =~= duplicate_reports(cards.subrange(0, k + 1)));
                } else {
                    assert(reports_of(dups@) =~= duplicate_reports(cards.subrange(0, k + 1)));
                }
            },
            None => {
                assert(reports_of(dups@) =~= duplicate_reports(cards.subrange(0, k + 1)));
            },
        }
        proof {
            assert forall|g: Family| g != Family::Data implies #[trigger] map_of(maps, g)@.dom()
                == ids_seen(cards.subrange(0, k + 1), g) by {
                lemma_ids_seen_step(cards, k as int, g);
            }
            assert(reports_of(own@) =~= cards_reports(cards.subrange(0, k + 1)));
        }
        base = base + card.len_bytes();
        k = k + 1;
    }
    proof {
        assert(cards.subrange(0, n as int) =~= cards);
    }
    dups.append(&mut own);
    proof {
        assert(reports_of(dups@) =~= model_reports(cards));
    }
    dups
}

/// The bytes before card `k + 1` are those before card `k` and card `k`'s.
proof fn lemma_concat_prefix(cards: Seq<Card>, k: int)
    requires
        0 <= k < cards.len(),
    ensures
        concat_texts(cards.subrange(0, k + 1)).len() == concat_texts(cards.subrange(0, k)).len()
            + cards[k].spec_text().len(),
{
    assert(cards.subrange(0, k + 1).drop_last() =~= cards.subrange(0, k));
}

/// A prefix of the cards has no more bytes than all of them.
pub proof fn lemma_concat_prefix_bound(cards: Seq<Card>, k: int)
    requires
        0 <= k <= cards.len(),
    ensures
        concat_texts(cards.subrange(0, k)).len() <= concat_texts(cards).len(),
    decreases cards.len() - k,
{
    if k < cards.len() {
        lemma_concat_prefix_bound(cards, k + 1);
        lemma_concat_prefix(cards, k);
    } else {
        assert(cards.subrange(0, k) =~= cards);
    }
}

proof fn lemma_reports_step(cards: Seq<Card>, k: int)
    requires
        0 <= k < cards.len(),
    ensures
        duplicate_reports(cards.subrange(0, k + 1)) == duplicate_reports(cards.subrange(0, k))
            + match scan_id(cards[k]) {
            Some((f, id)) => if ids_seen(cards.subrange(0, k), f).contains(id) {
                seq![
                    (
                        Severity::Error,
                        "duplicate ".spec_bytes() + family_label(f) + " id ".spec_bytes()
                            + int_text(id as int),
                        0int,
                        0int,
                    ),
                ]
            } else {
                Seq::empty()
            },
            None => Seq::empty(),
        },
        cards_reports(cards.subrange(0, k + 1)) == cards_reports(cards.subrange(0, k)) + shifted(
            card_reports(cards[k]),
            concat_texts(cards.subrange(0, k)).len() as int,
        ),
{
    assert(cards.subrange(0, k + 1).drop_last() =~= cards.subrange(0, k));
    assert(cards.subrange(0, k + 1).last() == cards[k]);
}

} // verus!
