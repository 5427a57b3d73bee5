//! The `Model`: the public facade over the per-card syntax tree.
//!
//! Lookups by id go through a hash index from each id to the slot of the
//! card that defines it first in the file. Reading a model builds the index,
//! and so do the bulk renumberings and merges; a single edit drops it, and
//! lookups then go through the cards in file order until `reindex` builds
//! it again. Either way a lookup reflects the current state of the tree, and
//! when two cards define the same id, the first one in the file wins.

use vstd::prelude::*;
use vstd::string::StringSliceAdditionalSpecFns;
use rustc_hash::FxHashMap;
use crate::card::Card;
use crate::fx::{fx_get, fx_insert};
use crate::cell::spec_cell_layout;
use crate::cst::{parse_fits, Cst};
use crate::diagnostic::{collect_diagnostics, model_reports, reports_of, Diagnostic};
use crate::data::{head, material_id, spec_head, spec_material_id, spec_transform_id, transform_id};
use crate::kind::CardKind;
use crate::segment::{matches_pieces, spec_pieces};
use crate::surface::spec_surface_layout;
use crate::view::{CellView, DataCardView, MaterialView, SurfaceView, TransformView};

verus! {

/// A family of cards a model can list or look up by id.
#[derive(Debug, Clone, Copy, PartialEq, Eq, Structural)]
pub enum Family {
    Cell,
    Surface,
    Material,
    Transform,
    Data,
}

/// Whether card `c` belongs to family `f`. Materials and transforms are the
/// data cards whose head names an `Mn` / `TRn`.
pub open spec fn in_family(f: Family, c: Card) -> bool {
    match f {
        Family::Cell => c.spec_kind() == CardKind::Cell,
        Family::Surface => c.spec_kind() == CardKind::Surface,
        Family::Data => c.spec_kind() == CardKind::Data,
        Family::Material => c.spec_kind() == CardKind::Data && match spec_head(c) {
            Some(h) => spec_material_id(h) is Some,
            None => false,
        },
        Family::Transform => c.spec_kind() == CardKind::Data && match spec_head(c) {
            Some(h) => spec_transform_id(h) is Some,
            None => false,
        },
    }
}

/// The id card `c` defines in family `f`, if any.
pub open spec fn defined_id(f: Family, c: Card) -> Option<i64> {
    if !in_family(f, c) {
        None
    } else {
        match f {
            Family::Cell => spec_cell_layout(c).id,
            Family::Surface => spec_surface_layout(c).id,
            Family::Material => spec_material_id(spec_head(c)->0),
            Family::Transform => spec_transform_id(spec_head(c)->0),
            Family::Data => None,
        }
    }
}

/// Slots of the cards of family `f`, in file order.
pub open spec fn family_slots(cards: Seq<Card>, f: Family) -> Seq<u32>
    decreases cards.len(),
{
    if cards.len() == 0 {
        Seq::empty()
    } else {
        let r = family_slots(cards.drop_last(), f);
        if in_family(f, cards.last()) {
            r.push(cards.last().spec_slot())
        } else {
            r
        }
    }
}

/// File position of the first card of family `f` that defines `id`.
pub open spec fn first_definition(cards: Seq<Card>, f: Family, id: i64) -> Option<int>
    decreases cards.len(),
{
    if cards.len() == 0 {
        None
    } else {
        match first_definition(cards.drop_last(), f, id) {
            Some(i) => Some(i),
            None => if defined_id(f, cards.last()) == Some(id) {
                Some(cards.len() - 1)
            } else {
                None
            },
        }
    }
}

pub proof fn lemma_first_definition(cards: Seq<Card>, f: Family, id: i64)
    ensures
        match first_definition(cards, f, id) {
            Some(i) => 0 <= i < cards.len() && defined_id(f, cards[i]) == Some(id) && forall|k: int|
                0 <= k < i ==> defined_id(f, #[trigger] cards[k]) != Some(id),
            None => forall|k: int|
                0 <= k < cards.len() ==> defined_id(f, #[trigger] cards[k]) != Some(id),
        },
    decreases cards.len(),
{
    if cards.len() > 0 {
        lemma_first_definition(cards.drop_last(), f, id);
        assert forall|k: int| 0 <= k < cards.len() - 1 implies #[trigger] cards[k]
            == cards.drop_last()[k] by {}
    }
}

/// The title card's text with its final `\n` (and a `\r` before it) removed.
pub open spec fn title_text(t: Seq<u8>) -> Seq<u8> {
    if t.len() > 0 && t.last() == 10u8 {
        let u = t.drop_last();
        if u.len() > 0 && u.last() == 13u8 {
            u.drop_last()
        } else {
            u
        }
    } else {
        t
    }
}

/// Each id of family `f` that some card defines, mapped to the slot of the
/// first card in file order that defines it.
pub open spec fn definition_map(cards: Seq<Card>, f: Family) -> Map<i64, usize> {
    Map::new(
        |id: i64| first_definition(cards, f, id) is Some,
        |id: i64| cards[first_definition(cards, f, id)->0].spec_slot() as usize,
    )
}

/// Hash maps from ids to slots, one for each family that defines ids.
pub struct IdIndex {
    cells: FxHashMap<i64, usize>,
    surfaces: FxHashMap<i64, usize>,
    materials: FxHashMap<i64, usize>,
    transforms: FxHashMap<i64, usize>,
}

impl IdIndex {
    /// The map of family `f`; data cards define no ids.
    pub closed spec fn spec_map(&self, f: Family) -> Map<i64, usize> {
        match f {
            Family::Cell => self.cells@,
            Family::Surface => self.surfaces@,
            Family::Material => self.materials@,
            Family::Transform => self.transforms@,
            Family::Data => Map::empty(),
        }
    }

    /// Every map sends each id to the slot of its first definition among `cards`.
    pub open spec fn indexes(&self, cards: Seq<Card>) -> bool {
        forall|f: Family| f != Family::Data ==> #[trigger] self.spec_map(f) == definition_map(cards, f)
    }
}

/// A parsed MCNP model: lossless, typed access, iterative editing.
pub struct Model {
    pub(crate) cst: Cst,
    diagnostics: Vec<Diagnostic>,
    index: IdIndex,
    indexed: bool,
}

/// The map of family `f` over the tree's cards, each id to the slot of its
/// first definition.
fn build_family_map(cst: &Cst, f: Family) -> (r: FxHashMap<i64, usize>)
    requires
        cst.wf(),
    ensures
        r@ == definition_map(cst.spec_cards(), f),
{
    let n = cst.len();
    let ghost cards = cst.spec_cards();
    let mut m: FxHashMap<i64, usize> = FxHashMap::default();
    proof {
        assert(m@ =~= definition_map(cards.subrange(0, 0), f));
    }
    let mut i: usize = 0;
    while i < n
        invariant
            cst.wf(),
            cards == cst.spec_cards(),
            n == cards.len(),
            i <= n,
            m@ == definition_map(cards.subrange(0, i as int), f),
        decreases n - i,
    {
        let c = cst.at(i).unwrap();
        proof {
            cst.lemma_wf();
            assert(cards[i as int] == *c);
        }
        let ghost pre = cards.subrange(0, i as int);
        let ghost p = cards.subrange(0, i + 1);
        proof {
            assert(p.drop_last() =~= pre);
            assert(p.last() == *c);
        }
        match Model::defined_id(c, f) {
            Some(id) => {
                if fx_get(&m, id).is_none() {
                    fx_insert(&mut m, id, c.slot() as usize);
                }
            },
            None => {},
        }
        proof {
            assert forall|x: i64| #![trigger first_definition(p, f, x)]
                first_definition(p, f, x) == match first_definition(pre, f, x) {
                    Some(j) => Some(j),
                    None => if defined_id(f, *c) == Some(x) {
                        Some(i as int)
                    } else {
                        None
                    },
                } by {}
            assert forall|x: i64| first_definition(pre, f, x) is Some implies #[trigger] p[first_definition(
                pre,
                f,
                x,
            )->0] == pre[first_definition(pre, f, x)->0] by {
                lemma_first_definition(pre, f, x);
            }
            assert(m@ =~= definition_map(p, f));
        }
        i = i + 1;
    }
    proof {
        assert(cards.subrange(0, n as int) =~= cards);
    }
    m
}

/// The index of every family over the tree's cards.
fn build_index(cst: &Cst) -> (r: IdIndex)
    requires
        cst.wf(),
    ensures
        r.indexes(cst.spec_cards()),
{
    IdIndex {
        cells: build_family_map(cst, Family::Cell),
        surfaces: build_family_map(cst, Family::Surface),
        materials: build_family_map(cst, Family::Material),
        transforms: build_family_map(cst, Family::Transform),
    }
}

/// Whether the cards' bytes, end to end, fit in memory: their total length,
/// summed until it passes `usize::MAX`.
fn source_fits(cst: &Cst) -> (r: bool)
    requires
        cst.wf(),
    ensures
        r == (cst.spec_source().len() <= usize::MAX),
{
    let n = cst.len();
    let ghost cards = cst.spec_cards();
    let mut total: usize = 0;
    let mut k: usize = 0;
    while k < n
        invariant
            cst.wf(),
            cards == cst.spec_cards(),
            n == cards.len(),
            k <= n,
            total == crate::segment::concat_texts(cards.subrange(0, k as int)).len(),
        decreases n - k,
    {
        let card = cst.at(k).unwrap();
        proof {
            cst.lemma_wf();
            assert(cards[k as int] == *card);
            assert(cards.subrange(0, k + 1).drop_last() =~= cards.subrange(0, k as int));
            crate::diagnostic::lemma_concat_prefix_bound(cards, k + 1);
        }
        match total.checked_add(card.len_bytes()) {
            Some(t) => {
                total = t;
            },
            None => {
                return false;
            },
        }
        k = k + 1;
    }
    proof {
        assert(cards.subrange(0, n as int) =~= cards);
    }
    true
}

impl Model {
    pub closed spec fn spec_cst(&self) -> Cst {
        self.cst
    }

    /// What reading the model reported, as it was when the model was built.
    pub closed spec fn spec_diagnostics(&self) -> Seq<Diagnostic> {
        self.diagnostics@
    }

    /// Build a model around a tree, reading it for problems.
    fn build(cst: Cst) -> (m: Model)
        requires
            cst.wf(),
        ensures
            m.wf(),
            m.spec_indexed(),
            m.spec_cst() == cst,
            cst.spec_source().len() <= usize::MAX ==> reports_of(m.spec_diagnostics())
                == model_reports(cst.spec_cards()),
            cst.spec_source().len() > usize::MAX ==> m.spec_diagnostics().len() == 0,
    {
        let diagnostics = if source_fits(&cst) {
            collect_diagnostics(&cst)
        } else {
            Vec::new()
        };
        let index = build_index(&cst);
        Model { cst, diagnostics, index, indexed: true }
    }

    /// Whether the id index is built (lookups by id are then hash lookups).
    pub closed spec fn spec_indexed(&self) -> bool {
        self.indexed
    }

    /// The index, when built, matches the cards.
    pub closed spec fn index_ok(&self) -> bool {
        self.indexed ==> self.index.indexes(self.cst.spec_cards())
    }

    /// Build the id index again over the current cards, so that lookups by
    /// id are hash lookups.
    pub fn reindex(&mut self)
        requires
            old(self).wf(),
        ensures
            final(self).wf(),
            final(self).spec_indexed(),
            final(self).spec_cst() == old(self).spec_cst(),
            final(self).spec_diagnostics() == old(self).spec_diagnostics(),
    {
        self.index = build_index(&self.cst);
        self.indexed = true;
    }

    /// What reading the model reported: ids defined twice, unknown tokens,
    /// unreadable or malformed cards. Edits do not change it.
    pub fn diagnostics(&self) -> (r: &[Diagnostic])
        ensures
            r@ == self.spec_diagnostics(),
    {
        self.diagnostics.as_slice()
    }

    pub open spec fn wf(&self) -> bool {
        self.spec_cst().wf() && self.index_ok()
    }

    pub open spec fn spec_cards(&self) -> Seq<Card> {
        self.spec_cst().spec_cards()
    }

    /// Parse a whole input file.
    pub fn parse(src: &str) -> (m: Model)
        requires
            parse_fits(src.spec_bytes()),
        ensures
            m.wf(),
            m.spec_cst().spec_source() == src.spec_bytes(),
            matches_pieces(m.spec_cards(), src.spec_bytes(), spec_pieces(src.spec_bytes())),
            reports_of(m.spec_diagnostics()) == model_reports(m.spec_cards()),
    {
        // Reading the length tells the proof that the source fits a `usize`.
        let _len: usize = src.as_bytes().len();
        Model::build(Cst::parse(src))
    }

    /// Parse a whole input file given as bytes.
    pub fn parse_bytes(src: &[u8]) -> (m: Model)
        requires
            parse_fits(src@),
        ensures
            m.wf(),
            m.spec_cst().spec_source() == src@,
            matches_pieces(m.spec_cards(), src@, spec_pieces(src@)),
            reports_of(m.spec_diagnostics()) == model_reports(m.spec_cards()),
    {
        // Reading the length tells the proof that the source fits a `usize`.
        let _len: usize = src.len();
        Model::build(Cst::parse_bytes(src))
    }

    /// Parse a whole input file given as bytes, or `None` when a card would
    /// be too long for the lexer's `u32` offsets or there would be more
    /// cards than `u32` slots (see [`parse_fits`]). Any file of at most
    /// `u32::MAX` bytes parses.
    pub fn try_parse_bytes(src: &[u8]) -> (r: Option<Model>)
        ensures
            (r is Some) == parse_fits(src@),
            src@.len() <= u32::MAX ==> r is Some,
            match r {
                Some(m) => {
                    &&& m.wf()
                    &&& m.spec_cst().spec_source() == src@
                    &&& matches_pieces(m.spec_cards(), src@, spec_pieces(src@))
                    &&& reports_of(m.spec_diagnostics()) == model_reports(m.spec_cards())
                },
                None => true,
            },
    {
        // Reading the length tells the proof that the source fits a `usize`.
        let _len: usize = src.len();
        match Cst::try_parse_bytes(src) {
            Some(c) => Some(Model::build(c)),
            None => None,
        }
    }

    /// Build a model around an already-built tree.
    pub fn from_cst(cst: Cst) -> (m: Model)
        requires
            cst.wf(),
        ensures
            m.wf(),
            m.spec_indexed(),
            m.spec_cst() == cst,
            cst.spec_source().len() <= usize::MAX ==> reports_of(m.spec_diagnostics())
                == model_reports(cst.spec_cards()),
            cst.spec_source().len() > usize::MAX ==> m.spec_diagnostics().len() == 0,
    {
        Model::build(cst)
    }

    /// Re-emit. Byte-identical to the input when unedited.
    pub fn to_source(&self) -> (r: Vec<u8>)
        requires
            self.wf(),
        ensures
            r@ == self.spec_cst().spec_source(),
    {
        self.cst.to_source()
    }

    pub fn cst(&self) -> (r: &Cst)
        ensures
            *r == self.spec_cst(),
    {
        &self.cst
    }

    /// The tree, for an edit made through it.
    pub(crate) fn cst_mut(&mut self) -> (r: &mut Cst)
        ensures
            *r == old(self).spec_cst(),
            final(self).spec_cst() == *final(r),
            final(self).spec_diagnostics() == old(self).spec_diagnostics(),
            !final(self).spec_indexed(),
            final(self).index_ok(),
    {
        self.indexed = false;
        &mut self.cst
    }

    /// Resolve a slot to its card; `None` once the card has been removed.
    pub fn card(&self, slot: u32) -> (r: Option<&Card>)
        ensures
            match r {
                Some(c) => self.spec_cst().live(slot as int) && *c == self.spec_cst().spec_card(
                    slot as int,
                ),
                None => !self.spec_cst().live(slot as int),
            },
    {
        self.cst.card(slot)
    }

    /// The title line, if the model has one: the text of its title card
    /// without the line terminator.
    pub fn title(&self) -> (r: Option<&[u8]>)
        requires
            self.wf(),
        ensures
            match r {
                Some(t) => exists|i: int|
                    0 <= i < self.spec_cards().len() && (#[trigger] self.spec_cards()[i]).spec_kind()
                        == CardKind::Title && (forall|k: int|
                        0 <= k < i ==> (#[trigger] self.spec_cards()[k]).spec_kind()
                            != CardKind::Title) && t@ == title_text(self.spec_cards()[i].spec_text()),
                None => forall|k: int|
                    0 <= k < self.spec_cards().len() ==> (#[trigger] self.spec_cards()[k]).spec_kind()
                        != CardKind::Title,
            },
    {
        let n = self.cst.len();
        let mut i: usize = 0;
        while i < n
            invariant
                self.wf(),
                n == self.spec_cards().len(),
                i <= n,
                forall|k: int|
                    0 <= k < i ==> (#[trigger] self.spec_cards()[k]).spec_kind() != CardKind::Title,
            decreases n - i,
        {
            let c = self.cst.at(i).unwrap();
            if c.kind() == CardKind::Title {
                let t = c.text();
                let mut end = t.len();
                if end > 0 && t[end - 1] == 10u8 {
                    end = end - 1;
                    if end > 0 && t[end - 1] == 13u8 {
                        end = end - 1;
                    }
                }
                let r = vstd::slice::slice_subrange(t, 0, end);
                proof {
                    assert(self.spec_cards()[i as int] == *c);
                    let tt = t@;
                    if tt.len() > 0 && tt.last() == 10u8 {
                        let u = tt.drop_last();
                        if u.len() > 0 && u.last() == 13u8 {
                            assert(r@ =~= u.drop_last());
                        } else {
                            assert(r@ =~= u);
                        }
                    } else {
                        assert(r@ =~= tt);
                    }
                }
                return Some(r);
            }
            proof {
                assert(self.spec_cards()[i as int] == *c);
            }
            i = i + 1;
        }
        None
    }

    /// Whether `card` belongs to family `f`.
    pub(crate) fn card_in_family(card: &Card, f: Family) -> (r: bool)
        requires
            card.wf(),
        ensures
            r == in_family(f, *card),
    {
        match f {
            Family::Cell => card.kind() == CardKind::Cell,
            Family::Surface => card.kind() == CardKind::Surface,
            Family::Data => card.kind() == CardKind::Data,
            Family::Material => card.kind() == CardKind::Data && match head(card) {
                Some(h) => material_id(&h).is_some(),
                None => false,
            },
            Family::Transform => card.kind() == CardKind::Data && match head(card) {
                Some(h) => transform_id(&h).is_some(),
                None => false,
            },
        }
    }

    /// The id `card` defines in family `f`, if any.
    pub(crate) fn defined_id(card: &Card, f: Family) -> (r: Option<i64>)
        requires
            card.wf(),
        ensures
            r == defined_id(f, *card),
    {
        if !Model::card_in_family(card, f) {
            return None;
        }
        match f {
            Family::Cell => crate::cell::layout(card).id,
            Family::Surface => crate::surface::layout(card).id,
            Family::Material => match head(card) {
                Some(h) => material_id(&h),
                None => None,
            },
            Family::Transform => match head(card) {
                Some(h) => transform_id(&h),
                None => None,
            },
            Family::Data => None,
        }
    }

    /// Slots of the cards of family `f`, in file order.
    pub fn slots_of(&self, f: Family) -> (r: Vec<u32>)
        requires
            self.wf(),
        ensures
            r@ == family_slots(self.spec_cards(), f),
    {
        let n = self.cst.len();
        let mut out: Vec<u32> = Vec::new();
        let mut i: usize = 0;
        proof {
            self.cst.lemma_wf();
        }
        while i < n
            invariant
                self.wf(),
                n == self.spec_cards().len(),
                i <= n,
                out@ == family_slots(self.spec_cards().subrange(0, i as int), f),
            decreases n - i,
        {
            let c = self.cst.at(i).unwrap();
            proof {
                self.cst.lemma_wf();
                assert(self.spec_cards()[i as int] == *c);
                assert(self.spec_cards().subrange(0, i + 1).drop_last() =~= self.spec_cards().subrange(
                    0,
                    i as int,
                ));
            }
            if Model::card_in_family(c, f) {
                out.push(c.slot());
            }
            i = i + 1;
        }
        proof {
            assert(self.spec_cards().subrange(0, n as int) =~= self.spec_cards());
        }
        out
    }

    /// Slot of the first card of family `f` that defines `id`.
    pub fn find_definition(&self, f: Family, id: i64) -> (r: Option<u32>)
        requires
            self.wf(),
        ensures
            match first_definition(self.spec_cards(), f, id) {
                Some(i) => r == Some(self.spec_cards()[i].spec_slot()),
                None => r is None,
            },
    {
        if self.indexed {
            let m = match f {
                Family::Cell => Some(&self.index.cells),
                Family::Surface => Some(&self.index.surfaces),
                Family::Material => Some(&self.index.materials),
                Family::Transform => Some(&self.index.transforms),
                Family::Data => None,
            };
            if let Some(m) = m {
                proof {
                    assert(self.index.spec_map(f) == definition_map(self.spec_cards(), f));
                    assert(m@ == self.index.spec_map(f));
                }
                return match fx_get(m, id) {
                    Some(s) => {
                        proof {
                            lemma_first_definition(self.spec_cards(), f, id);
                        }
                        Some(s as u32)
                    },
                    None => None,
                };
            }
        }
        let n = self.cst.len();
        let mut i: usize = 0;
        while i < n
            invariant
                self.wf(),
                n == self.spec_cards().len(),
                i <= n,
                first_definition(self.spec_cards().subrange(0, i as int), f, id) is None,
            decreases n - i,
        {
            let c = self.cst.at(i).unwrap();
            proof {
                self.cst.lemma_wf();
                assert(self.spec_cards()[i as int] == *c);
                assert(self.spec_cards().subrange(0, i + 1).drop_last() =~= self.spec_cards().subrange(
                    0,
                    i as int,
                ));
            }
            if Model::defined_id(c, f) == Some(id) {
                proof {
                    lemma_first_definition(self.spec_cards(), f, id);
                    lemma_first_definition(self.spec_cards().subrange(0, i + 1), f, id);
                    let p = self.spec_cards().subrange(0, i + 1);
                    assert(first_definition(p, f, id) == Some(i as int));
                    assert(first_definition(self.spec_cards(), f, id) == Some(i as int)) by {
                        match first_definition(self.spec_cards(), f, id) {
                            Some(j) => {
                                if j < i {
                                    assert(self.spec_cards()[j] == p[j]);
                                }
                                if j > i {
                                    assert(defined_id(f, self.spec_cards()[i as int]) == Some(id));
                                }
                            },
                            None => {
                                assert(defined_id(f, self.spec_cards()[i as int]) == Some(id));
                            },
                        }
                    }
                }
                return Some(c.slot());
            }
            i = i + 1;
        }
        proof {
            assert(self.spec_cards().subrange(0, n as int) =~= self.spec_cards());
        }
        None
    }
}

} // verus!
