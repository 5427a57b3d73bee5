//! Borrowed, typed views over individual cards.
//!
//! A view is a model and a slot. It reads on demand from the card's own
//! tokens, so a read always reflects the current state. The only way a view
//! goes stale is if its own card is removed, which `card` reports.

use vstd::prelude::*;
use crate::card::Card;
use crate::cell::{
    params, spec_params, param_matches, CellParam, ParamSpec, eq_ignore_case, eq_ignore_case_bytes,
    spec_qualified_key, spec_slice_tokens, fill, spec_fill, Fill, FillView,
    geometry_terms, layout as cell_layout, spec_cell_layout, walk_geometry, GeometryTerm,
    GeometryTermKind,
};
use crate::data::{head, material_entry_tokens, entries_from, spec_head, spec_material_id, spec_transform_id, material_id, transform_id, HeadView};
use crate::model::{Model, Family, family_slots, first_definition, in_family};
use crate::kind::CardKind;
use crate::num::{parse_int_bytes, spec_parse_int};
use crate::scan::{float_at, lemma_sig, sig, spec_float_at, spec_sig, spec_text_at};
use crate::surface::{coeff_run, coeff_tokens};
use crate::edit::{geometry_source, geometry_spans_exec, lemma_geometry_spans};
use crate::text::{spec_trim, trim};
use crate::surface::{layout as surface_layout, spec_surface_layout};

verus! {

/// The number tokens from token `i` on, trivia and other tokens skipped.
pub open spec fn float_tokens(c: Card, i: int) -> Seq<int>
    decreases c.spec_tokens().len() - i,
{
    let ts = c.spec_tokens();
    if i < 0 || i >= ts.len() {
        Seq::empty()
    } else {
        match spec_sig(ts, i) {
            None => Seq::empty(),
            Some(k) => if k < i || k >= ts.len() {
                Seq::empty()
            } else if spec_float_at(c, k) {
                seq![k] + float_tokens(c, k + 1)
            } else {
                float_tokens(c, k + 1)
            },
        }
    }
}

proof fn lemma_coeff_run_bounds(c: Card, i: int)
    ensures
        forall|k: int|
            0 <= k < coeff_run(c, i).len() ==> (#[trigger] coeff_run(c, i)[k]) < c.spec_tokens().len(),
    decreases c.spec_tokens().len() - i,
{
    let ts = c.spec_tokens();
    if 0 <= i < ts.len() {
        match spec_sig(ts, i) {
            Some(k) => if i <= k < ts.len() && spec_float_at(c, k) {
                lemma_coeff_run_bounds(c, k + 1);
                let r = coeff_run(c, k + 1);
                assert forall|j: int| 0 <= j < coeff_run(c, i).len() implies (#[trigger] coeff_run(
                    c,
                    i,
                )[j]) < ts.len() by {
                    if j > 0 {
                        assert(coeff_run(c, i)[j] == r[j - 1]);
                    }
                }
            },
            None => {},
        }
    }
}

proof fn lemma_entries_bounds(c: Card, i: int)
    ensures
        forall|k: int|
            0 <= k < entries_from(c, i).0.len() ==> (#[trigger] entries_from(c, i).0[k]).0
                < c.spec_tokens().len() && entries_from(c, i).0[k].1 < c.spec_tokens().len(),
    decreases c.spec_tokens().len() - i,
{
    let ts = c.spec_tokens();
    if 0 <= i < ts.len() {
        match spec_sig(ts, i) {
            None => {},
            Some(z) => match spec_sig(ts, z + 1) {
                None => {},
                Some(f) => if i <= z < f < ts.len() && spec_float_at(c, f) {
                    lemma_entries_bounds(c, f + 1);
                    let r = entries_from(c, f + 1).0;
                    assert forall|k: int| 0 <= k < entries_from(c, i).0.len() implies (
                    #[trigger] entries_from(c, i).0[k]).0 < ts.len() && entries_from(c, i).0[k].1
                        < ts.len() by {
                        if k > 0 {
                            assert(entries_from(c, i).0[k] == r[k - 1]);
                        }
                    }
                },
            },
        }
    }
}

/// A live handle onto a cell card.
#[derive(Clone, Copy)]
pub struct CellView<'a> {
    model: &'a Model,
    slot: u32,
}

impl<'a> CellView<'a> {
    pub closed spec fn spec_model(&self) -> Model {
        *self.model
    }

    pub closed spec fn spec_slot(&self) -> u32 {
        self.slot
    }

    /// The view's card still exists in a well-formed model.
    pub open spec fn live(&self) -> bool {
        self.spec_model().wf() && self.spec_model().spec_cst().live(self.spec_slot() as int)
    }

    pub open spec fn spec_card(&self) -> Card {
        self.spec_model().spec_cst().spec_card(self.spec_slot() as int)
    }

    pub fn new(model: &'a Model, slot: u32) -> (v: Self)
        ensures
            v.spec_model() == *model,
            v.spec_slot() == slot,
    {
        CellView { model, slot }
    }

    /// The stable slot this view resolves through.
    pub fn slot(&self) -> (r: u32)
        ensures
            r == self.spec_slot(),
    {
        self.slot
    }

    /// `None` once this card has been removed.
    pub fn card(&self) -> (r: Option<&'a Card>)
        ensures
            match r {
                Some(c) => self.spec_model().spec_cst().live(self.spec_slot() as int) && *c
                    == self.spec_card(),
                None => !self.spec_model().spec_cst().live(self.spec_slot() as int),
            },
    {
        self.model.card(self.slot)
    }

    fn require(&self) -> (r: &'a Card)
        requires
            self.live(),
        ensures
            *r == self.spec_card(),
            r.wf(),
    {
        proof {
            self.spec_model().spec_cst().lemma_live(self.spec_slot() as int);
        }
        self.model.card(self.slot).unwrap()
    }

    /// This card's exact current text.
    pub fn text(&self) -> (r: &'a [u8])
        requires
            self.live(),
        ensures
            r@ == self.spec_card().spec_text(),
    {
        self.require().text()
    }
}

/// A live handle onto a surface card.
#[derive(Clone, Copy)]
pub struct SurfaceView<'a> {
    model: &'a Model,
    slot: u32,
}

impl<'a> SurfaceView<'a> {
    pub closed spec fn spec_model(&self) -> Model {
        *self.model
    }

    pub closed spec fn spec_slot(&self) -> u32 {
        self.slot
    }

    /// The view's card still exists in a well-formed model.
    pub open spec fn live(&self) -> bool {
        self.spec_model().wf() && self.spec_model().spec_cst().live(self.spec_slot() as int)
    }

    pub open spec fn spec_card(&self) -> Card {
        self.spec_model().spec_cst().spec_card(self.spec_slot() as int)
    }

    pub fn new(model: &'a Model, slot: u32) -> (v: Self)
        ensures
            v.spec_model() == *model,
            v.spec_slot() == slot,
    {
        SurfaceView { model, slot }
    }

    /// The stable slot this view resolves through.
    pub fn slot(&self) -> (r: u32)
        ensures
            r == self.spec_slot(),
    {
        self.slot
    }

    /// `None` once this card has been removed.
    pub fn card(&self) -> (r: Option<&'a Card>)
        ensures
            match r {
                Some(c) => self.spec_model().spec_cst().live(self.spec_slot() as int) && *c
                    == self.spec_card(),
                None => !self.spec_model().spec_cst().live(self.spec_slot() as int),
            },
    {
        self.model.card(self.slot)
    }

    fn require(&self) -> (r: &'a Card)
        requires
            self.live(),
        ensures
            *r == self.spec_card(),
            r.wf(),
    {
        proof {
            self.spec_model().spec_cst().lemma_live(self.spec_slot() as int);
        }
        self.model.card(self.slot).unwrap()
    }

    /// This card's exact current text.
    pub fn text(&self) -> (r: &'a [u8])
        requires
            self.live(),
        ensures
            r@ == self.spec_card().spec_text(),
    {
        self.require().text()
    }
}

/// A live handle onto an `Mn` material card.
#[derive(Clone, Copy)]
pub struct MaterialView<'a> {
    model: &'a Model,
    slot: u32,
}

impl<'a> MaterialView<'a> {
    pub closed spec fn spec_model(&self) -> Model {
        *self.model
    }

    pub closed spec fn spec_slot(&self) -> u32 {
        self.slot
    }

    /// The view's card still exists in a well-formed model.
    pub open spec fn live(&self) -> bool {
        self.spec_model().wf() && self.spec_model().spec_cst().live(self.spec_slot() as int)
    }

    pub open spec fn spec_card(&self) -> Card {
        self.spec_model().spec_cst().spec_card(self.spec_slot() as int)
    }

    pub fn new(model: &'a Model, slot: u32) -> (v: Self)
        ensures
            v.spec_model() == *model,
            v.spec_slot() == slot,
    {
        MaterialView { model, slot }
    }

    /// The stable slot this view resolves through.
    pub fn slot(&self) -> (r: u32)
        ensures
            r == self.spec_slot(),
    {
        self.slot
    }

    /// `None` once this card has been removed.
    pub fn card(&self) -> (r: Option<&'a Card>)
        ensures
            match r {
                Some(c) => self.spec_model().spec_cst().live(self.spec_slot() as int) && *c
                    == self.spec_card(),
                None => !self.spec_model().spec_cst().live(self.spec_slot() as int),
            },
    {
        self.model.card(self.slot)
    }

    fn require(&self) -> (r: &'a Card)
        requires
            self.live(),
        ensures
            *r == self.spec_card(),
            r.wf(),
    {
        proof {
            self.spec_model().spec_cst().lemma_live(self.spec_slot() as int);
        }
        self.model.card(self.slot).unwrap()
    }

    /// This card's exact current text.
    pub fn text(&self) -> (r: &'a [u8])
        requires
            self.live(),
        ensures
            r@ == self.spec_card().spec_text(),
    {
        self.require().text()
    }
}

/// A live handle onto a `TRn` transform card.
#[derive(Clone, Copy)]
pub struct TransformView<'a> {
    model: &'a Model,
    slot: u32,
}

impl<'a> TransformView<'a> {
    pub closed spec fn spec_model(&self) -> Model {
        *self.model
    }

    pub closed spec fn spec_slot(&self) -> u32 {
        self.slot
    }

    /// The view's card still exists in a well-formed model.
    pub open spec fn live(&self) -> bool {
        self.spec_model().wf() && self.spec_model().spec_cst().live(self.spec_slot() as int)
    }

    pub open spec fn spec_card(&self) -> Card {
        self.spec_model().spec_cst().spec_card(self.spec_slot() as int)
    }

    pub fn new(model: &'a Model, slot: u32) -> (v: Self)
        ensures
            v.spec_model() == *model,
            v.spec_slot() == slot,
    {
        TransformView { model, slot }
    }

    /// The stable slot this view resolves through.
    pub fn slot(&self) -> (r: u32)
        ensures
            r == self.spec_slot(),
    {
        self.slot
    }

    /// `None` once this card has been removed.
    pub fn card(&self) -> (r: Option<&'a Card>)
        ensures
            match r {
                Some(c) => self.spec_model().spec_cst().live(self.spec_slot() as int) && *c
                    == self.spec_card(),
                None => !self.spec_model().spec_cst().live(self.spec_slot() as int),
            },
    {
        self.model.card(self.slot)
    }

    fn require(&self) -> (r: &'a Card)
        requires
            self.live(),
        ensures
            *r == self.spec_card(),
            r.wf(),
    {
        proof {
            self.spec_model().spec_cst().lemma_live(self.spec_slot() as int);
        }
        self.model.card(self.slot).unwrap()
    }

    /// This card's exact current text.
    pub fn text(&self) -> (r: &'a [u8])
        requires
            self.live(),
        ensures
            r@ == self.spec_card().spec_text(),
    {
        self.require().text()
    }
}

/// A live handle onto any data card.
#[derive(Clone, Copy)]
pub struct DataCardView<'a> {
    model: &'a Model,
    slot: u32,
}

impl<'a> DataCardView<'a> {
    pub closed spec fn spec_model(&self) -> Model {
        *self.model
    }

    pub closed spec fn spec_slot(&self) -> u32 {
        self.slot
    }

    /// The view's card still exists in a well-formed model.
    pub open spec fn live(&self) -> bool {
        self.spec_model().wf() && self.spec_model().spec_cst().live(self.spec_slot() as int)
    }

    pub open spec fn spec_card(&self) -> Card {
        self.spec_model().spec_cst().spec_card(self.spec_slot() as int)
    }

    pub fn new(model: &'a Model, slot: u32) -> (v: Self)
        ensures
            v.spec_model() == *model,
            v.spec_slot() == slot,
    {
        DataCardView { model, slot }
    }

    /// The stable slot this view resolves through.
    pub fn slot(&self) -> (r: u32)
        ensures
            r == self.spec_slot(),
    {
        self.slot
    }

    /// `None` once this card has been removed.
    pub fn card(&self) -> (r: Option<&'a Card>)
        ensures
            match r {
                Some(c) => self.spec_model().spec_cst().live(self.spec_slot() as int) && *c
                    == self.spec_card(),
                None => !self.spec_model().spec_cst().live(self.spec_slot() as int),
            },
    {
        self.model.card(self.slot)
    }

    fn require(&self) -> (r: &'a Card)
        requires
            self.live(),
        ensures
            *r == self.spec_card(),
            r.wf(),
    {
        proof {
            self.spec_model().spec_cst().lemma_live(self.spec_slot() as int);
        }
        self.model.card(self.slot).unwrap()
    }

    /// This card's exact current text.
    pub fn text(&self) -> (r: &'a [u8])
        requires
            self.live(),
        ensures
            r@ == self.spec_card().spec_text(),
    {
        self.require().text()
    }
}


/// The geometry terms of a cell card.
pub open spec fn cell_geometry(c: Card) -> Seq<(GeometryTermKind, Seq<u8>, usize)> {
    let l = spec_cell_layout(c);
    geometry_terms(c, l.geometry_start as int, l.geometry_end as int)
}

/// The values of the surface terms that read as integers, in order.
pub open spec fn surface_values(terms: Seq<(GeometryTermKind, Seq<u8>, usize)>) -> Seq<i64>
    decreases terms.len(),
{
    if terms.len() == 0 {
        Seq::empty()
    } else {
        let r = surface_values(terms.drop_last());
        let t = terms.last();
        if t.0 == GeometryTermKind::Surface {
            match spec_parse_int(t.1) {
                Some(v) => r.push(v),
                None => r,
            }
        } else {
            r
        }
    }
}

/// `s` without its leading `#` characters.
pub open spec fn trim_hashes(s: Seq<u8>) -> Seq<u8>
    decreases s.len(),
{
    if s.len() > 0 && s[0] == 35u8 {
        trim_hashes(s.drop_first())
    } else {
        s
    }
}

/// The cells named by `#n` complement terms, in order.
pub open spec fn complement_values(terms: Seq<(GeometryTermKind, Seq<u8>, usize)>) -> Seq<i64>
    decreases terms.len(),
{
    if terms.len() == 0 {
        Seq::empty()
    } else {
        let r = complement_values(terms.drop_last());
        let t = terms.last();
        if t.0 == GeometryTermKind::Complement {
            match spec_parse_int(trim_hashes(t.1)) {
                Some(v) => r.push(v),
                None => r,
            }
        } else {
            r
        }
    }
}

pub open spec fn abs_i64(x: i64) -> i64 {
    if x < 0 {
        (-x) as i64
    } else {
        x
    }
}

fn trim_hash_bytes(s: &[u8]) -> (r: &[u8])
    ensures
        r@ == trim_hashes(s@),
{
    let mut k: usize = 0;
    proof {
        assert(s@.subrange(0, s@.len() as int) =~= s@);
    }
    while k < s.len() && s[k] == 35u8
        invariant
            k <= s@.len(),
            trim_hashes(s@) == trim_hashes(s@.subrange(k as int, s@.len() as int)),
        decreases s@.len() - k,
    {
        assert(s@.subrange(k as int, s@.len() as int).drop_first() =~= s@.subrange(
            k + 1,
            s@.len() as int,
        ));
        k = k + 1;
    }
    proof {
        assert(s@.subrange(0, s@.len() as int) =~= s@);
    }
    vstd::slice::slice_subrange(s, k, s.len())
}

impl<'a> CellView<'a> {
    pub fn id(&self) -> (r: Option<i64>)
        requires
            self.live(),
        ensures
            r == spec_cell_layout(self.spec_card()).id,
    {
        cell_layout(self.require()).id
    }

    /// Material number; `0` means void, and then there is no density field.
    pub fn material(&self) -> (r: Option<i64>)
        requires
            self.live(),
        ensures
            r == spec_cell_layout(self.spec_card()).material,
    {
        cell_layout(self.require()).material
    }

    pub fn is_void(&self) -> (r: bool)
        requires
            self.live(),
        ensures
            r == (spec_cell_layout(self.spec_card()).material == Some(0i64)),
    {
        cell_layout(self.require()).material == Some(0i64)
    }

    /// The density field's text, when the cell has one that reads as a
    /// number (negative: g/cm3, positive: atoms/b-cm).
    pub fn density_text(&self) -> (r: Option<&'a [u8]>)
        requires
            self.live(),
        ensures
            match r {
                Some(t) => spec_cell_layout(self.spec_card()).has_density && t@ == spec_text_at(
                    self.spec_card(),
                    spec_cell_layout(self.spec_card()).density_tok->0 as int,
                ),
                None => !spec_cell_layout(self.spec_card()).has_density,
            },
    {
        let card = self.require();
        let l = cell_layout(card);
        match l.density_tok {
            Some(d) => if l.has_density {
                Some(card.token_text(d))
            } else {
                None
            },
            None => None,
        }
    }

    /// The geometry expression exactly as written, from its first term to
    /// its last; empty when the cell has none.
    pub fn geometry_text(&self) -> (r: &'a [u8])
        requires
            self.live(),
        ensures
            r@ == geometry_source(self.spec_card()),
    {
        let card = self.require();
        let ntoks = card.tokens().len();
        let l = cell_layout(card);
        let spans = geometry_spans_exec(card, l.geometry_start, l.geometry_end);
        proof {
            lemma_geometry_spans(*card, l.geometry_start as int, l.geometry_end as int);
            card.lemma_wf();
        }
        if spans.len() == 0 {
            let e: &[u8] = &[];
            assert(e@ =~= Seq::<u8>::empty());
            return e;
        }
        let toks = card.tokens();
        let from = toks[spans[0].0].start as usize;
        let last = toks[spans[spans.len() - 1].1 - 1];
        let to = (last.start + last.len) as usize;
        proof {
            if spans.len() > 1 {
                assert(spans@[0].1 <= spans@[spans.len() - 1].0);
            }
        }
        vstd::slice::slice_subrange(card.text(), from, to)
    }

    /// Base cell of a `LIKE n BUT` card.
    pub fn like(&self) -> (r: Option<i64>)
        requires
            self.live(),
        ensures
            r == spec_cell_layout(self.spec_card()).like,
    {
        cell_layout(self.require()).like
    }

    pub fn well_formed(&self) -> (r: bool)
        requires
            self.live(),
        ensures
            r == spec_cell_layout(self.spec_card()).well_formed,
    {
        cell_layout(self.require()).well_formed
    }

    /// The geometry expression, term by term in file order.
    pub fn geometry(&self) -> (r: Vec<GeometryTerm>)
        requires
            self.live(),
        ensures
            r@.len() == cell_geometry(self.spec_card()).len(),
            forall|k: int|
                0 <= k < r@.len() ==> (#[trigger] r@[k])@ == cell_geometry(self.spec_card())[k],
    {
        let card = self.require();
        let l = cell_layout(card);
        walk_geometry(card, l.geometry_start, l.geometry_end)
    }

    /// Signed surfaces in file order: `-1` keeps its sense, `+5` its prefix.
    pub fn signed_surfaces(&self) -> (r: Vec<i64>)
        requires
            self.live(),
        ensures
            r@ == surface_values(cell_geometry(self.spec_card())),
    {
        let g = self.geometry();
        let ghost terms = cell_geometry(self.spec_card());
        let mut out: Vec<i64> = Vec::new();
        let mut i: usize = 0;
        while i < g.len()
            invariant
                g@.len() == terms.len(),
                forall|k: int| 0 <= k < g@.len() ==> (#[trigger] g@[k])@ == terms[k],
                i <= g@.len(),
                out@ == surface_values(terms.subrange(0, i as int)),
            decreases g@.len() - i,
        {
            proof {
                assert(terms.subrange(0, i + 1).drop_last() =~= terms.subrange(0, i as int));
                assert(g@[i as int]@ == terms[i as int]);
            }
            if g[i].kind == GeometryTermKind::Surface {
                match parse_int_bytes(g[i].text.as_slice()) {
                    Some(v) => out.push(v),
                    None => {},
                }
            }
            i = i + 1;
        }
        proof {
            assert(terms.subrange(0, i as int) =~= terms);
        }
        out
    }

    /// Magnitudes of every surface the geometry references. Numbers inside
    /// `#( ... )` count here; a bare `#n` names a cell and does not.
    pub fn surface_ids(&self) -> (r: Vec<i64>)
        requires
            self.live(),
            forall|k: int|
                0 <= k < surface_values(cell_geometry(self.spec_card())).len() ==> (
                #[trigger] surface_values(cell_geometry(self.spec_card()))[k]) != i64::MIN,
        ensures
            r@ == surface_values(cell_geometry(self.spec_card())).map_values(|x: i64| abs_i64(x)),
    {
        let s = self.signed_surfaces();
        let mut out: Vec<i64> = Vec::new();
        let mut i: usize = 0;
        while i < s.len()
            invariant
                s@ == surface_values(cell_geometry(self.spec_card())),
                forall|k: int| 0 <= k < s@.len() ==> (#[trigger] s@[k]) != i64::MIN,
                i <= s@.len(),
                out@ == s@.subrange(0, i as int).map_values(|x: i64| abs_i64(x)),
            decreases s@.len() - i,
        {
            let v = s[i];
            let a = if v < 0 {
                -v
            } else {
                v
            };
            out.push(a);
            proof {
                assert(s@.subrange(0, i + 1).map_values(|x: i64| abs_i64(x)) =~= s@.subrange(
                    0,
                    i as int,
                ).map_values(|x: i64| abs_i64(x)).push(abs_i64(v)));
            }
            i = i + 1;
        }
        proof {
            assert(s@.subrange(0, i as int) =~= s@);
        }
        out
    }

    /// Cells referenced by a `#n` complement, plus a `LIKE n` base.
    pub fn cell_refs(&self) -> (r: Vec<i64>)
        requires
            self.live(),
        ensures
            r@ == complement_values(cell_geometry(self.spec_card())) + match spec_cell_layout(
                self.spec_card(),
            ).like {
                Some(b) => seq![b],
                None => Seq::empty(),
            },
    {
        let card = self.require();
        let l = cell_layout(card);
        let g = walk_geometry(card, l.geometry_start, l.geometry_end);
        let ghost terms = cell_geometry(self.spec_card());
        let mut out: Vec<i64> = Vec::new();
        let mut i: usize = 0;
        while i < g.len()
            invariant
                g@.len() == terms.len(),
                forall|k: int| 0 <= k < g@.len() ==> (#[trigger] g@[k])@ == terms[k],
                i <= g@.len(),
                out@ == complement_values(terms.subrange(0, i as int)),
            decreases g@.len() - i,
        {
            proof {
                assert(terms.subrange(0, i + 1).drop_last() =~= terms.subrange(0, i as int));
                assert(g@[i as int]@ == terms[i as int]);
            }
            if g[i].kind == GeometryTermKind::Complement {
                match parse_int_bytes(trim_hash_bytes(g[i].text.as_slice())) {
                    Some(v) => out.push(v),
                    None => {},
                }
            }
            i = i + 1;
        }
        proof {
            assert(terms.subrange(0, i as int) =~= terms);
        }
        let ghost before = out@;
        match l.like {
            Some(b) => {
                out.push(b);
            },
            None => {},
        }
        proof {
            if l.like is Some {
                assert(out@ =~= before + seq![l.like->0]);
            } else {
                assert(out@ =~= before + Seq::<i64>::empty());
            }
        }
        out
    }
}


impl<'a> SurfaceView<'a> {
    pub fn id(&self) -> (r: Option<i64>)
        requires
            self.live(),
        ensures
            r == spec_surface_layout(self.spec_card()).id,
    {
        surface_layout(self.require()).id
    }

    /// The surface mnemonic as written: `SO`, `PX`, `RPP`, ...
    pub fn kind(&self) -> (r: Option<&'a [u8]>)
        requires
            self.live(),
        ensures
            match spec_surface_layout(self.spec_card()).mnemonic_tok {
                Some(i) => r is Some && r->0@ == spec_text_at(self.spec_card(), i as int),
                None => r is None,
            },
    {
        let card = self.require();
        let l = surface_layout(card);
        proof {
            crate::surface::lemma_mnemonic_in_range(*card);
        }
        crate::surface::mnemonic(card, &l)
    }

    /// The coefficients' texts, in order: the run of numbers after the
    /// mnemonic.
    pub fn coeff_texts(&self) -> (r: Vec<&'a [u8]>)
        requires
            self.live(),
        ensures
            r@.len() == coeff_run(
                self.spec_card(),
                spec_surface_layout(self.spec_card()).coeffs_start as int,
            ).len(),
            forall|k: int|
                0 <= k < r@.len() ==> (#[trigger] r@[k])@ == spec_text_at(
                    self.spec_card(),
                    coeff_run(
                        self.spec_card(),
                        spec_surface_layout(self.spec_card()).coeffs_start as int,
                    )[k] as int,
                ),
    {
        let card = self.require();
        let l = surface_layout(card);
        let toks = coeff_tokens(card, &l);
        let ghost run = coeff_run(*card, l.coeffs_start as int);
        proof {
            lemma_coeff_run_bounds(*card, l.coeffs_start as int);
        }
        let mut out: Vec<&'a [u8]> = Vec::new();
        let mut k: usize = 0;
        while k < toks.len()
            invariant
                toks@ == run,
                card.wf(),
                *card == self.spec_card(),
                forall|j: int| 0 <= j < run.len() ==> (#[trigger] run[j]) < card.spec_tokens().len(),
                k <= toks@.len(),
                out@.len() == k,
                forall|j: int| 0 <= j < k ==> (#[trigger] out@[j])@ == spec_text_at(*card, run[j] as int),
            decreases toks@.len() - k,
        {
            out.push(card.token_text(toks[k]));
            k = k + 1;
        }
        out
    }

    /// Transform number; negative means a periodic surface.
    pub fn transform(&self) -> (r: Option<i64>)
        requires
            self.live(),
        ensures
            r == spec_surface_layout(self.spec_card()).transform,
    {
        surface_layout(self.require()).transform
    }

    /// Leading `*`: a reflective boundary.
    pub fn reflective(&self) -> (r: bool)
        requires
            self.live(),
        ensures
            r == spec_surface_layout(self.spec_card()).reflective,
    {
        surface_layout(self.require()).reflective
    }

    /// Leading `+`: a white boundary.
    pub fn white(&self) -> (r: bool)
        requires
            self.live(),
        ensures
            r == spec_surface_layout(self.spec_card()).white,
    {
        surface_layout(self.require()).white
    }

    pub fn well_formed(&self) -> (r: bool)
        requires
            self.live(),
        ensures
            r == spec_surface_layout(self.spec_card()).well_formed,
    {
        surface_layout(self.require()).well_formed
    }
}

impl<'a> MaterialView<'a> {
    /// The card reads as a data card with a head.
    pub open spec fn has_head(&self) -> bool {
        self.live() && spec_head(self.spec_card()) is Some
    }

    pub open spec fn spec_head(&self) -> HeadView {
        spec_head(self.spec_card())->0
    }

    fn head(&self) -> (r: crate::data::DataHead)
        requires
            self.has_head(),
        ensures
            r@ == self.spec_head(),
    {
        head(self.require()).unwrap()
    }

    pub fn id(&self) -> (r: Option<i64>)
        requires
            self.has_head(),
        ensures
            r == spec_material_id(self.spec_head()),
    {
        material_id(&self.head())
    }

    /// The `(zaid, fraction)` entries' texts, in order, up to the first pair
    /// that does not read as one.
    pub fn entry_texts(&self) -> (r: Vec<(&'a [u8], &'a [u8])>)
        requires
            self.has_head(),
        ensures
            r@.len() == entries_from(self.spec_card(), self.spec_head().values_start as int).0.len(),
            forall|k: int|
                0 <= k < r@.len() ==> {
                    let e = entries_from(self.spec_card(), self.spec_head().values_start as int).0[k];
                    &&& (#[trigger] r@[k]).0@ == spec_text_at(self.spec_card(), e.0 as int)
                    &&& r@[k].1@ == spec_text_at(self.spec_card(), e.1 as int)
                },
    {
        let card = self.require();
        let h = self.head();
        let (es, _) = material_entry_tokens(card, &h);
        let ghost run = entries_from(*card, h.values_start as int).0;
        proof {
            lemma_entries_bounds(*card, h.values_start as int);
        }
        let mut out: Vec<(&'a [u8], &'a [u8])> = Vec::new();
        let mut k: usize = 0;
        while k < es.len()
            invariant
                es@ == run,
                card.wf(),
                *card == self.spec_card(),
                forall|j: int|
                    0 <= j < run.len() ==> (#[trigger] run[j]).0 < card.spec_tokens().len()
                        && run[j].1 < card.spec_tokens().len(),
                k <= es@.len(),
                out@.len() == k,
                forall|j: int|
                    0 <= j < k ==> (#[trigger] out@[j]).0@ == spec_text_at(*card, run[j].0 as int)
                        && out@[j].1@ == spec_text_at(*card, run[j].1 as int),
            decreases es@.len() - k,
        {
            let e = es[k];
            out.push((card.token_text(e.0), card.token_text(e.1)));
            k = k + 1;
        }
        out
    }

    /// Every `zaid fraction` entry reads, up to the end of the card.
    pub fn well_formed(&self) -> (r: bool)
        requires
            self.has_head(),
        ensures
            r == entries_from(self.spec_card(), self.spec_head().values_start as int).1,
    {
        let card = self.require();
        let h = self.head();
        material_entry_tokens(card, &h).1
    }
}

impl<'a> TransformView<'a> {
    pub open spec fn has_head(&self) -> bool {
        self.live() && spec_head(self.spec_card()) is Some
    }

    /// The texts of every number after the name, trivia skipped: the
    /// displacement and rotation values.
    pub fn value_texts(&self) -> (r: Vec<&'a [u8]>)
        requires
            self.has_head(),
        ensures
            r@.len() == float_tokens(self.spec_card(), self.spec_head().values_start as int).len(),
            forall|k: int|
                0 <= k < r@.len() ==> (#[trigger] r@[k])@ == spec_text_at(
                    self.spec_card(),
                    float_tokens(self.spec_card(), self.spec_head().values_start as int)[k],
                ),
    {
        let card = self.require();
        let h = self.head();
        let toks = card.tokens();
        let end = toks.len();
        let ghost target = float_tokens(*card, h.values_start as int);
        let mut out: Vec<&'a [u8]> = Vec::new();
        let mut i = h.values_start;
        let ghost mut seen: Seq<int> = Seq::empty();
        let mut stop = false;
        while !stop && i < end
            invariant
                card.wf(),
                *card == self.spec_card(),
                end == card.spec_tokens().len(),
                out@.len() == seen.len(),
                forall|j: int| 0 <= j < seen.len() ==> (#[trigger] out@[j])@ == spec_text_at(*card, seen[j]),
                seen + float_tokens(*card, i as int) == target,
                stop ==> float_tokens(*card, i as int) =~= Seq::<int>::empty(),
            decreases end - i + (if stop {
                0int
            } else {
                1int
            }),
        {
            proof {
                lemma_sig(card.spec_tokens(), i as int);
            }
            match sig(card, i) {
                Some(k) => {
                    if float_at(card, k) {
                        out.push(card.token_text(k));
                        proof {
                            assert(seen.push(k as int) + float_tokens(*card, k + 1) =~= seen
                                + float_tokens(*card, i as int));
                            seen = seen.push(k as int);
                        }
                    } else {
                        proof {
                            assert(seen + float_tokens(*card, k + 1) =~= seen + float_tokens(
                                *card,
                                i as int,
                            ));
                        }
                    }
                    i = k + 1;
                },
                None => {
                    stop = true;
                },
            }
        }
        proof {
            assert(float_tokens(*card, i as int) =~= Seq::<int>::empty());
            assert(seen + Seq::<int>::empty() =~= seen);
        }
        out
    }

    pub open spec fn spec_head(&self) -> HeadView {
        spec_head(self.spec_card())->0
    }

    fn head(&self) -> (r: crate::data::DataHead)
        requires
            self.has_head(),
        ensures
            r@ == self.spec_head(),
    {
        head(self.require()).unwrap()
    }

    pub fn id(&self) -> (r: Option<i64>)
        requires
            self.has_head(),
        ensures
            r == spec_transform_id(self.spec_head()),
    {
        transform_id(&self.head())
    }

    /// `*TRn`: the rotation entries are angles in degrees.
    pub fn degrees(&self) -> (r: bool)
        requires
            self.has_head(),
        ensures
            r == self.spec_head().starred,
    {
        self.head().starred
    }
}

impl<'a> DataCardView<'a> {
    /// The card's name as written, id included: `m1`, `f4`, `sdef`.
    pub fn name(&self) -> (r: Option<&'a [u8]>)
        requires
            self.live(),
        ensures
            match spec_head(self.spec_card()) {
                Some(h) => r is Some && r->0@ == spec_text_at(self.spec_card(), h.name_tok as int),
                None => r is None,
            },
    {
        let card = self.require();
        match head(card) {
            Some(h) => {
                proof {
                    crate::data::lemma_head_in_range(*card);
                }
                Some(card.token_text(h.name_tok))
            },
            None => None,
        }
    }

    pub fn particle(&self) -> (r: Option<Vec<u8>>)
        requires
            self.live(),
        ensures
            match spec_head(self.spec_card()) {
                Some(h) => match h.particle {
                    Some(p) => r is Some && r->0@ == p,
                    None => r is None,
                },
                None => r is None,
            },
    {
        match head(self.require()) {
            Some(h) => h.particle,
            None => None,
        }
    }

    pub fn starred(&self) -> (r: bool)
        requires
            self.live(),
        ensures
            r == match spec_head(self.spec_card()) {
                Some(h) => h.starred,
                None => false,
            },
    {
        match head(self.require()) {
            Some(h) => h.starred,
            None => false,
        }
    }
}

impl Model {
    /// The views of family `f` listed by `slots`, all onto this model.
    pub open spec fn views_match(&self, f: Family, n: int, slot_of: spec_fn(int) -> u32) -> bool {
        n == family_slots(self.spec_cards(), f).len() && forall|k: int|
            0 <= k < n ==> slot_of(k) == family_slots(self.spec_cards(), f)[k]
    }

    pub fn cells(&self) -> (r: Vec<CellView<'_>>)
        requires
            self.wf(),
        ensures
            r@.len() == family_slots(self.spec_cards(), Family::Cell).len(),
            forall|k: int|
                0 <= k < r@.len() ==> (#[trigger] r@[k]).spec_slot() == family_slots(
                    self.spec_cards(),
                    Family::Cell,
                )[k] && r@[k].spec_model() == *self,
    {
        let slots = self.slots_of(Family::Cell);
        let mut out: Vec<CellView<'_>> = Vec::new();
        let mut i: usize = 0;
        while i < slots.len()
            invariant
                i <= slots@.len(),
                out@.len() == i,
                forall|k: int|
                    0 <= k < i ==> (#[trigger] out@[k]).spec_slot() == slots@[k] && out@[k].spec_model()
                        == *self,
            decreases slots@.len() - i,
        {
            out.push(CellView::new(self, slots[i]));
            i = i + 1;
        }
        out
    }

    pub fn surfaces(&self) -> (r: Vec<SurfaceView<'_>>)
        requires
            self.wf(),
        ensures
            r@.len() == family_slots(self.spec_cards(), Family::Surface).len(),
            forall|k: int|
                0 <= k < r@.len() ==> (#[trigger] r@[k]).spec_slot() == family_slots(
                    self.spec_cards(),
                    Family::Surface,
                )[k] && r@[k].spec_model() == *self,
    {
        let slots = self.slots_of(Family::Surface);
        let mut out: Vec<SurfaceView<'_>> = Vec::new();
        let mut i: usize = 0;
        while i < slots.len()
            invariant
                i <= slots@.len(),
                out@.len() == i,
                forall|k: int|
                    0 <= k < i ==> (#[trigger] out@[k]).spec_slot() == slots@[k] && out@[k].spec_model()
                        == *self,
            decreases slots@.len() - i,
        {
            out.push(SurfaceView::new(self, slots[i]));
            i = i + 1;
        }
        out
    }

    pub fn materials(&self) -> (r: Vec<MaterialView<'_>>)
        requires
            self.wf(),
        ensures
            r@.len() == family_slots(self.spec_cards(), Family::Material).len(),
            forall|k: int|
                0 <= k < r@.len() ==> (#[trigger] r@[k]).spec_slot() == family_slots(
                    self.spec_cards(),
                    Family::Material,
                )[k] && r@[k].spec_model() == *self,
    {
        let slots = self.slots_of(Family::Material);
        let mut out: Vec<MaterialView<'_>> = Vec::new();
        let mut i: usize = 0;
        while i < slots.len()
            invariant
                i <= slots@.len(),
                out@.len() == i,
                forall|k: int|
                    0 <= k < i ==> (#[trigger] out@[k]).spec_slot() == slots@[k] && out@[k].spec_model()
                        == *self,
            decreases slots@.len() - i,
        {
            out.push(MaterialView::new(self, slots[i]));
            i = i + 1;
        }
        out
    }

    pub fn transforms(&self) -> (r: Vec<TransformView<'_>>)
        requires
            self.wf(),
        ensures
            r@.len() == family_slots(self.spec_cards(), Family::Transform).len(),
            forall|k: int|
                0 <= k < r@.len() ==> (#[trigger] r@[k]).spec_slot() == family_slots(
                    self.spec_cards(),
                    Family::Transform,
                )[k] && r@[k].spec_model() == *self,
    {
        let slots = self.slots_of(Family::Transform);
        let mut out: Vec<TransformView<'_>> = Vec::new();
        let mut i: usize = 0;
        while i < slots.len()
            invariant
                i <= slots@.len(),
                out@.len() == i,
                forall|k: int|
                    0 <= k < i ==> (#[trigger] out@[k]).spec_slot() == slots@[k] && out@[k].spec_model()
                        == *self,
            decreases slots@.len() - i,
        {
            out.push(TransformView::new(self, slots[i]));
            i = i + 1;
        }
        out
    }

    pub fn data_cards(&self) -> (r: Vec<DataCardView<'_>>)
        requires
            self.wf(),
        ensures
            r@.len() == family_slots(self.spec_cards(), Family::Data).len(),
            forall|k: int|
                0 <= k < r@.len() ==> (#[trigger] r@[k]).spec_slot() == family_slots(
                    self.spec_cards(),
                    Family::Data,
                )[k] && r@[k].spec_model() == *self,
    {
        let slots = self.slots_of(Family::Data);
        let mut out: Vec<DataCardView<'_>> = Vec::new();
        let mut i: usize = 0;
        while i < slots.len()
            invariant
                i <= slots@.len(),
                out@.len() == i,
                forall|k: int|
                    0 <= k < i ==> (#[trigger] out@[k]).spec_slot() == slots@[k] && out@[k].spec_model()
                        == *self,
            decreases slots@.len() - i,
        {
            out.push(DataCardView::new(self, slots[i]));
            i = i + 1;
        }
        out
    }

    pub fn num_cells(&self) -> (r: usize)
        requires
            self.wf(),
        ensures
            r == family_slots(self.spec_cards(), Family::Cell).len(),
    {
        self.slots_of(Family::Cell).len()
    }

    pub fn num_surfaces(&self) -> (r: usize)
        requires
            self.wf(),
        ensures
            r == family_slots(self.spec_cards(), Family::Surface).len(),
    {
        self.slots_of(Family::Surface).len()
    }

    pub fn num_materials(&self) -> (r: usize)
        requires
            self.wf(),
        ensures
            r == family_slots(self.spec_cards(), Family::Material).len(),
    {
        self.slots_of(Family::Material).len()
    }

    pub fn num_transforms(&self) -> (r: usize)
        requires
            self.wf(),
        ensures
            r == family_slots(self.spec_cards(), Family::Transform).len(),
    {
        self.slots_of(Family::Transform).len()
    }

    /// The cell with this id: the first cell card in the file that defines it.
    pub fn cell(&self, id: i64) -> (r: Option<CellView<'_>>)
        requires
            self.wf(),
        ensures
            match first_definition(self.spec_cards(), Family::Cell, id) {
                Some(i) => r is Some && r->0.spec_slot() == self.spec_cards()[i].spec_slot()
                    && r->0.spec_model() == *self,
                None => r is None,
            },
    {
        match self.find_definition(Family::Cell, id) {
            Some(slot) => Some(CellView::new(self, slot)),
            None => None,
        }
    }

    /// The surface with this id: the first surface card that defines it.
    pub fn surface(&self, id: i64) -> (r: Option<SurfaceView<'_>>)
        requires
            self.wf(),
        ensures
            match first_definition(self.spec_cards(), Family::Surface, id) {
                Some(i) => r is Some && r->0.spec_slot() == self.spec_cards()[i].spec_slot()
                    && r->0.spec_model() == *self,
                None => r is None,
            },
    {
        match self.find_definition(Family::Surface, id) {
            Some(slot) => Some(SurfaceView::new(self, slot)),
            None => None,
        }
    }

    /// The material `Mn` with this id: the first one in the file.
    pub fn material(&self, id: i64) -> (r: Option<MaterialView<'_>>)
        requires
            self.wf(),
        ensures
            match first_definition(self.spec_cards(), Family::Material, id) {
                Some(i) => r is Some && r->0.spec_slot() == self.spec_cards()[i].spec_slot()
                    && r->0.spec_model() == *self,
                None => r is None,
            },
    {
        match self.find_definition(Family::Material, id) {
            Some(slot) => Some(MaterialView::new(self, slot)),
            None => None,
        }
    }

    /// The transform `TRn` with this id: the first one in the file.
    pub fn transform(&self, id: i64) -> (r: Option<TransformView<'_>>)
        requires
            self.wf(),
        ensures
            match first_definition(self.spec_cards(), Family::Transform, id) {
                Some(i) => r is Some && r->0.spec_slot() == self.spec_cards()[i].spec_slot()
                    && r->0.spec_model() == *self,
                None => r is None,
            },
    {
        match self.find_definition(Family::Transform, id) {
            Some(slot) => Some(TransformView::new(self, slot)),
            None => None,
        }
    }

    /// Whether `slot` is live and holds a card of family `f`.
    fn slot_in(&self, slot: u32, f: Family) -> (r: bool)
        requires
            self.wf(),
        ensures
            r == (self.spec_cst().live(slot as int) && in_family(f, self.spec_cst().spec_card(
                slot as int,
            ))),
    {
        match self.card(slot) {
            Some(c) => {
                proof {
                    self.spec_cst().lemma_live(slot as int);
                }
                Model::card_in_family(c, f)
            },
            None => false,
        }
    }

    /// A cell view for a stable slot, or `None` if that slot was removed or
    /// is not a cell.
    pub fn cell_at(&self, slot: u32) -> (r: Option<CellView<'_>>)
        requires
            self.wf(),
        ensures
            r is Some == (self.spec_cst().live(slot as int) && self.spec_cst().spec_card(
                slot as int,
            ).spec_kind() == CardKind::Cell),
            r is Some ==> r->0.spec_slot() == slot && r->0.spec_model() == *self,
    {
        if self.slot_in(slot, Family::Cell) {
            Some(CellView::new(self, slot))
        } else {
            None
        }
    }

    pub fn surface_at(&self, slot: u32) -> (r: Option<SurfaceView<'_>>)
        requires
            self.wf(),
        ensures
            r is Some == (self.spec_cst().live(slot as int) && self.spec_cst().spec_card(
                slot as int,
            ).spec_kind() == CardKind::Surface),
            r is Some ==> r->0.spec_slot() == slot && r->0.spec_model() == *self,
    {
        if self.slot_in(slot, Family::Surface) {
            Some(SurfaceView::new(self, slot))
        } else {
            None
        }
    }

    /// A material view for a slot: the slot must be a live `Mn` data card.
    pub fn material_at(&self, slot: u32) -> (r: Option<MaterialView<'_>>)
        requires
            self.wf(),
        ensures
            r is Some == (self.spec_cst().live(slot as int) && in_family(
                Family::Material,
                self.spec_cst().spec_card(slot as int),
            )),
            r is Some ==> r->0.spec_slot() == slot && r->0.spec_model() == *self,
    {
        if self.slot_in(slot, Family::Material) {
            Some(MaterialView::new(self, slot))
        } else {
            None
        }
    }

    /// A transform view for a slot: the slot must be a live `TRn` data card.
    pub fn transform_at(&self, slot: u32) -> (r: Option<TransformView<'_>>)
        requires
            self.wf(),
        ensures
            r is Some == (self.spec_cst().live(slot as int) && in_family(
                Family::Transform,
                self.spec_cst().spec_card(slot as int),
            )),
            r is Some ==> r->0.spec_slot() == slot && r->0.spec_model() == *self,
    {
        if self.slot_in(slot, Family::Transform) {
            Some(TransformView::new(self, slot))
        } else {
            None
        }
    }

    /// A generic data-card view for a slot.
    pub fn data_card_at(&self, slot: u32) -> (r: Option<DataCardView<'_>>)
        requires
            self.wf(),
        ensures
            r is Some == (self.spec_cst().live(slot as int) && self.spec_cst().spec_card(
                slot as int,
            ).spec_kind() == CardKind::Data),
            r is Some ==> r->0.spec_slot() == slot && r->0.spec_model() == *self,
    {
        if self.slot_in(slot, Family::Data) {
            Some(DataCardView::new(self, slot))
        } else {
            None
        }
    }
}


/// The parameters of a cell card.
pub open spec fn cell_params(c: Card) -> Seq<ParamSpec> {
    let l = spec_cell_layout(c);
    spec_params(c, l.params_start as int, l.params_end as int)
}

/// A located parameter's qualified key: `imp:n`, `vol`, `fill`.
pub open spec fn param_key(c: Card, p: ParamSpec) -> Seq<u8> {
    spec_qualified_key(spec_text_at(c, p.key_token), p.particle)
}

/// Position of the first parameter whose qualified key is `key`, ignoring
/// ASCII case.
pub open spec fn first_param(c: Card, ps: Seq<ParamSpec>, key: Seq<u8>) -> Option<int>
    decreases ps.len(),
{
    if ps.len() == 0 {
        None
    } else {
        match first_param(c, ps.drop_last(), key) {
            Some(i) => Some(i),
            None => if eq_ignore_case(param_key(c, ps.last()), key) {
                Some(ps.len() - 1)
            } else {
                None
            },
        }
    }
}

pub proof fn lemma_first_param(c: Card, ps: Seq<ParamSpec>, key: Seq<u8>)
    ensures
        match first_param(c, ps, key) {
            Some(i) => 0 <= i < ps.len() && eq_ignore_case(param_key(c, ps[i]), key),
            None => true,
        },
    decreases ps.len(),
{
    if ps.len() > 0 {
        lemma_first_param(c, ps.drop_last(), key);
    }
}

/// The cell's universe: the value of its `u` parameter read as an integer.
pub open spec fn spec_universe(c: Card) -> Option<i64> {
    let ps = cell_params(c);
    match first_param(c, ps, seq![117u8]) {
        Some(i) => spec_parse_int(
            spec_trim(spec_slice_tokens(c, ps[i].value_start, ps[i].value_end)),
        ),
        None => None,
    }
}

/// Position of the first parameter at or after `i` whose keyword, without
/// its particle, is `key` (ignoring ASCII case).
pub open spec fn first_key_from(c: Card, ps: Seq<ParamSpec>, key: Seq<u8>, i: int) -> Option<int>
    decreases ps.len() - i,
{
    if i < 0 || i >= ps.len() {
        None
    } else if eq_ignore_case(spec_text_at(c, ps[i].key_token), key) {
        Some(i)
    } else {
        first_key_from(c, ps, key, i + 1)
    }
}

pub open spec fn word_fill() -> Seq<u8> {
    seq![102u8, 105u8, 108u8, 108u8]
}

/// The cell's `fill=` entry: its first `fill` parameter read as one
/// universe.
pub open spec fn spec_cell_fill(c: Card) -> Option<FillView> {
    let ps = cell_params(c);
    match first_key_from(c, ps, word_fill(), 0) {
        Some(i) => spec_fill(c, ps[i]),
        None => None,
    }
}

impl<'a> CellView<'a> {
    /// The cell's `fill=` entry; none for the lattice-array form.
    pub fn fill(&self) -> (r: Option<Fill>)
        requires
            self.live(),
        ensures
            match r {
                Some(f) => spec_cell_fill(self.spec_card()) == Some(f@),
                None => spec_cell_fill(self.spec_card()) is None,
            },
    {
        let card = self.require();
        let ps = self.params();
        let ghost c = self.spec_card();
        let ghost sp = cell_params(c);
        let key: [u8; 4] = [102u8, 105u8, 108u8, 108u8];
        assert(key@ == word_fill());
        let mut i: usize = 0;
        while i < ps.len()
            invariant
                c == self.spec_card(),
                *card == c,
                card.wf(),
                sp == cell_params(c),
                key@ == word_fill(),
                ps@.len() == sp.len(),
                forall|k: int| 0 <= k < ps@.len() ==> param_matches(#[trigger] ps@[k], c, sp[k]),
                i <= ps@.len(),
                first_key_from(c, sp, word_fill(), 0) == first_key_from(c, sp, word_fill(), i as int),
            decreases ps@.len() - i,
        {
            assert(param_matches(ps@[i as int], c, sp[i as int]));
            if eq_ignore_case_bytes(ps[i].key.as_slice(), &key) {
                return fill(card, &ps[i]);
            }
            i = i + 1;
        }
        None
    }

    pub fn params(&self) -> (r: Vec<CellParam>)
        requires
            self.live(),
        ensures
            r@.len() == cell_params(self.spec_card()).len(),
            forall|k: int|
                0 <= k < r@.len() ==> param_matches(
                    #[trigger] r@[k],
                    self.spec_card(),
                    cell_params(self.spec_card())[k],
                ),
    {
        let card = self.require();
        let l = cell_layout(card);
        params(card, l.params_start, l.params_end)
    }

    /// Look a parameter up by its qualified key (`imp:n`, `vol`, `fill`),
    /// ignoring ASCII case: the first one that matches.
    pub fn param(&self, key: &[u8]) -> (r: Option<CellParam>)
        requires
            self.live(),
        ensures
            match first_param(self.spec_card(), cell_params(self.spec_card()), key@) {
                Some(i) => r is Some && param_matches(
                    r->0,
                    self.spec_card(),
                    cell_params(self.spec_card())[i],
                ),
                None => r is None,
            },
    {
        let ps = self.params();
        let ghost c = self.spec_card();
        let ghost sp = cell_params(c);
        let mut i: usize = 0;
        while i < ps.len()
            invariant
                c == self.spec_card(),
                sp == cell_params(c),
                ps@.len() == sp.len(),
                forall|k: int| 0 <= k < ps@.len() ==> param_matches(#[trigger] ps@[k], c, sp[k]),
                i <= ps@.len(),
                first_param(c, sp.subrange(0, i as int), key@) is None,
            decreases ps@.len() - i,
        {
            let q = ps[i].qualified_key();
            proof {
                assert(param_matches(ps@[i as int], c, sp[i as int]));
                assert(sp.subrange(0, i + 1).drop_last() =~= sp.subrange(0, i as int));
            }
            if eq_ignore_case_bytes(q.as_slice(), key) {
                proof {
                    assert(first_param(c, sp.subrange(0, i + 1), key@) == Some(i as int));
                    lemma_first_param_prefix(c, sp, key@, i + 1);
                    assert(first_param(c, sp, key@) == Some(i as int));
                }
                let r = ps[i].clone_param();
                proof {
                    assert(param_matches(ps@[i as int], c, sp[i as int]));
                    assert(param_matches(r, c, sp[i as int]));
                }
                return Some(r);
            }
            i = i + 1;
        }
        proof {
            assert(sp.subrange(0, i as int) =~= sp);
        }
        None
    }

    /// The cell's universe: its `u` parameter read as an integer.
    pub fn universe(&self) -> (r: Option<i64>)
        requires
            self.live(),
        ensures
            r == spec_universe(self.spec_card()),
    {
        let key: [u8; 1] = [117u8];
        assert(key@ == seq![117u8]);
        match self.param(&key) {
            Some(p) => parse_int_bytes(trim(p.value.as_slice())),
            None => None,
        }
    }
}

/// The first match in a prefix is the first match in the whole sequence.
pub proof fn lemma_first_param_prefix(c: Card, ps: Seq<ParamSpec>, key: Seq<u8>, m: int)
    requires
        0 <= m <= ps.len(),
        first_param(c, ps.subrange(0, m), key) is Some,
    ensures
        first_param(c, ps, key) == first_param(c, ps.subrange(0, m), key),
    decreases ps.len() - m,
{
    if m < ps.len() {
        assert(ps.subrange(0, m + 1).drop_last() =~= ps.subrange(0, m));
        lemma_first_param_prefix(c, ps, key, m + 1);
    } else {
        assert(ps.subrange(0, m) =~= ps);
    }
}

} // verus!
