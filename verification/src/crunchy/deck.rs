//! The `Deck` facade: a parsed tree with its diagnostics, typed reads, an
//! id-lookup index and renumbering, and lossless re-emission.

use vstd::prelude::*;
use vstd::string::StringSliceAdditionalSpecFns;
use rustc_hash::FxHashMap;
use crate::fx::{fx_get, fx_insert};
use crate::crunchy::cst::{parsable, parse, parse_diagnostics, GreenTree};
use crate::crunchy::cell::{cell_matches, cell_scan_safe, parse_cell, spec_parse_cell, Cell};
use crate::crunchy::data_cards::{
    data_card_matches, material_matches, parse_data_card, parse_material, parse_transform,
    spec_parse_data_card, spec_parse_material, spec_parse_transform, transform_matches, DataCard,
    Material, Transform,
};
use crate::crunchy::diagnostics::Diagnostic;
use crate::crunchy::params::{cell_id, spec_cell_id};
use crate::crunchy::renumber::{
    apply_edits, cell_edits_upto, mapped_by, negates_safely, renumber_cells as tree_renumber_cells,
    renumber_surfaces as tree_renumber_surfaces, renumberable, same_base, spec_surface_id,
    surface_edits_upto, surface_id,
};
use crate::crunchy::surface::{is_surface_of, spec_parse_surface, surfaces as tree_surfaces, Surface};

verus! {

/// Whether `x` is the parsed material of its card.
pub open spec fn is_material_of(t: GreenTree, x: Material) -> bool {
    spec_parse_material(t, x.card_index as int) matches Some(s) && material_matches(t, x, x.card_index as int, s)
}

/// Every material card of the tree, parsed, in source order.
pub fn materials(tree: &GreenTree) -> (r: Vec<Material>)
    requires
        tree.wf(),
    ensures
        forall|k: int| 0 <= k < r@.len() ==> is_material_of(*tree, #[trigger] r@[k]),
        forall|k: int, j: int| 0 <= k < j < r@.len() ==> r@[k].card_index < r@[j].card_index,
        forall|ci: int|
            0 <= ci < tree.spec_cards().len() && (spec_parse_material(*tree, ci) is Some) ==> exists|k: int|
                0 <= k < r@.len() && (#[trigger] r@[k]).card_index == ci,
{
    let n = tree.cards().len();
    let mut out: Vec<Material> = Vec::new();
    let mut i: usize = 0;
    while i < n
        invariant
            tree.wf(),
            n == tree.spec_cards().len(),
            i <= n,
            forall|k: int| 0 <= k < out@.len() ==> is_material_of(*tree, #[trigger] out@[k]),
            forall|k: int| 0 <= k < out@.len() ==> (#[trigger] out@[k]).card_index < i,
            forall|k: int, j: int|
                0 <= k < j < out@.len() ==> out@[k].card_index < out@[j].card_index,
            forall|ci: int|
                0 <= ci < i && (spec_parse_material(*tree, ci) is Some) ==> exists|k: int|
                    0 <= k < out@.len() && (#[trigger] out@[k]).card_index == ci,
        decreases n - i,
    {
        match parse_material(tree, i) {
            Some(x) => {
                let ghost old_out = out@;
                out.push(x);
                proof {
                    let l = out@.len() - 1;
                    assert(out@[l].card_index == i);
                    assert forall|ci: int| 0 <= ci < i + 1 && (spec_parse_material(*tree, ci) is Some) implies exists|
                        k: int,
                    | 0 <= k < out@.len() && (#[trigger] out@[k]).card_index == ci by {
                        if ci < i {
                            let k0 = choose|k: int|
                                0 <= k < old_out.len() && (#[trigger] old_out[k]).card_index == ci;
                            assert(out@[k0] == old_out[k0]);
                        } else {
                            assert(out@[l].card_index == ci);
                        }
                    }
                }
            },
            None => {},
        }
        i = i + 1;
    }
    out
}

/// Whether `x` is the parsed transform of its card.
pub open spec fn is_transform_of(t: GreenTree, x: Transform) -> bool {
    spec_parse_transform(t, x.card_index as int) matches Some(s) && transform_matches(x, x.card_index as int, s)
}

/// Every transform card of the tree, parsed, in source order.
pub fn transforms(tree: &GreenTree) -> (r: Vec<Transform>)
    requires
        tree.wf(),
    ensures
        forall|k: int| 0 <= k < r@.len() ==> is_transform_of(*tree, #[trigger] r@[k]),
        forall|k: int, j: int| 0 <= k < j < r@.len() ==> r@[k].card_index < r@[j].card_index,
        forall|ci: int|
            0 <= ci < tree.spec_cards().len() && (spec_parse_transform(*tree, ci) is Some) ==> exists|k: int|
                0 <= k < r@.len() && (#[trigger] r@[k]).card_index == ci,
{
    let n = tree.cards().len();
    let mut out: Vec<Transform> = Vec::new();
    let mut i: usize = 0;
    while i < n
        invariant
            tree.wf(),
            n == tree.spec_cards().len(),
            i <= n,
            forall|k: int| 0 <= k < out@.len() ==> is_transform_of(*tree, #[trigger] out@[k]),
            forall|k: int| 0 <= k < out@.len() ==> (#[trigger] out@[k]).card_index < i,
            forall|k: int, j: int|
                0 <= k < j < out@.len() ==> out@[k].card_index < out@[j].card_index,
            forall|ci: int|
                0 <= ci < i && (spec_parse_transform(*tree, ci) is Some) ==> exists|k: int|
                    0 <= k < out@.len() && (#[trigger] out@[k]).card_index == ci,
        decreases n - i,
    {
        match parse_transform(tree, i) {
            Some(x) => {
                let ghost old_out = out@;
                out.push(x);
                proof {
                    let l = out@.len() - 1;
                    assert(out@[l].card_index == i);
                    assert forall|ci: int| 0 <= ci < i + 1 && (spec_parse_transform(*tree, ci) is Some) implies exists|
                        k: int,
                    | 0 <= k < out@.len() && (#[trigger] out@[k]).card_index == ci by {
                        if ci < i {
                            let k0 = choose|k: int|
                                0 <= k < old_out.len() && (#[trigger] old_out[k]).card_index == ci;
                            assert(out@[k0] == old_out[k0]);
                        } else {
                            assert(out@[l].card_index == ci);
                        }
                    }
                }
            },
            None => {},
        }
        i = i + 1;
    }
    out
}

/// Whether `x` is the parsed data_card of its card.
pub open spec fn is_data_card_of(t: GreenTree, x: DataCard) -> bool {
    spec_parse_data_card(t, x.card_index as int) matches Some(s) && data_card_matches(t, x, x.card_index as int, s)
}

/// Every data_card card of the tree, parsed, in source order.
pub fn data_cards(tree: &GreenTree) -> (r: Vec<DataCard>)
    requires
        tree.wf(),
    ensures
        forall|k: int| 0 <= k < r@.len() ==> is_data_card_of(*tree, #[trigger] r@[k]),
        forall|k: int, j: int| 0 <= k < j < r@.len() ==> r@[k].card_index < r@[j].card_index,
        forall|ci: int|
            0 <= ci < tree.spec_cards().len() && (spec_parse_data_card(*tree, ci) is Some) ==> exists|k: int|
                0 <= k < r@.len() && (#[trigger] r@[k]).card_index == ci,
{
    let n = tree.cards().len();
    let mut out: Vec<DataCard> = Vec::new();
    let mut i: usize = 0;
    while i < n
        invariant
            tree.wf(),
            n == tree.spec_cards().len(),
            i <= n,
            forall|k: int| 0 <= k < out@.len() ==> is_data_card_of(*tree, #[trigger] out@[k]),
            forall|k: int| 0 <= k < out@.len() ==> (#[trigger] out@[k]).card_index < i,
            forall|k: int, j: int|
                0 <= k < j < out@.len() ==> out@[k].card_index < out@[j].card_index,
            forall|ci: int|
                0 <= ci < i && (spec_parse_data_card(*tree, ci) is Some) ==> exists|k: int|
                    0 <= k < out@.len() && (#[trigger] out@[k]).card_index == ci,
        decreases n - i,
    {
        match parse_data_card(tree, i) {
            Some(x) => {
                let ghost old_out = out@;
                out.push(x);
                proof {
                    let l = out@.len() - 1;
                    assert(out@[l].card_index == i);
                    assert forall|ci: int| 0 <= ci < i + 1 && (spec_parse_data_card(*tree, ci) is Some) implies exists|
                        k: int,
                    | 0 <= k < out@.len() && (#[trigger] out@[k]).card_index == ci by {
                        if ci < i {
                            let k0 = choose|k: int|
                                0 <= k < old_out.len() && (#[trigger] old_out[k]).card_index == ci;
                            assert(out@[k0] == old_out[k0]);
                        } else {
                            assert(out@[l].card_index == ci);
                        }
                    }
                }
            },
            None => {},
        }
        i = i + 1;
    }
    out
}

/// Whether `x` is the parsed cell of its card.
pub open spec fn is_cell_of(t: GreenTree, x: Cell) -> bool {
    spec_parse_cell(t, x.card_index as int) matches Some(s) && cell_matches(x, x.card_index as int, s)
}

/// Every cell card of the tree, parsed, in source order.
pub fn cells(tree: &GreenTree) -> (r: Vec<Cell>)
    requires
        tree.wf(),
        forall|ci: int| 0 <= ci < tree.spec_cards().len() ==> #[trigger] cell_scan_safe(*tree, ci),
    ensures
        forall|k: int| 0 <= k < r@.len() ==> is_cell_of(*tree, #[trigger] r@[k]),
        forall|k: int, j: int| 0 <= k < j < r@.len() ==> r@[k].card_index < r@[j].card_index,
        forall|ci: int|
            0 <= ci < tree.spec_cards().len() && (spec_parse_cell(*tree, ci) is Some) ==> exists|k: int|
                0 <= k < r@.len() && (#[trigger] r@[k]).card_index == ci,
{
    let n = tree.cards().len();
    let mut out: Vec<Cell> = Vec::new();
    let mut i: usize = 0;
    while i < n
        invariant
            tree.wf(),
            forall|ci: int| 0 <= ci < tree.spec_cards().len() ==> #[trigger] cell_scan_safe(*tree, ci),
            n == tree.spec_cards().len(),
            i <= n,
            forall|k: int| 0 <= k < out@.len() ==> is_cell_of(*tree, #[trigger] out@[k]),
            forall|k: int| 0 <= k < out@.len() ==> (#[trigger] out@[k]).card_index < i,
            forall|k: int, j: int|
                0 <= k < j < out@.len() ==> out@[k].card_index < out@[j].card_index,
            forall|ci: int|
                0 <= ci < i && (spec_parse_cell(*tree, ci) is Some) ==> exists|k: int|
                    0 <= k < out@.len() && (#[trigger] out@[k]).card_index == ci,
        decreases n - i,
    {
        match parse_cell(tree, i) {
            Some(x) => {
                let ghost old_out = out@;
                out.push(x);
                proof {
                    let l = out@.len() - 1;
                    assert(out@[l].card_index == i);
                    assert forall|ci: int| 0 <= ci < i + 1 && (spec_parse_cell(*tree, ci) is Some) implies exists|
                        k: int,
                    | 0 <= k < out@.len() && (#[trigger] out@[k]).card_index == ci by {
                        if ci < i {
                            let k0 = choose|k: int|
                                0 <= k < old_out.len() && (#[trigger] old_out[k]).card_index == ci;
                            assert(out@[k0] == old_out[k0]);
                        } else {
                            assert(out@[l].card_index == ci);
                        }
                    }
                }
            },
            None => {},
        }
        i = i + 1;
    }
    out
}

/// The families a deck indexes by id.
#[derive(Debug, Clone, Copy, PartialEq, Eq, Structural)]
pub enum IdFamily {
    Cell,
    Surface,
    Material,
    Transform,
}

/// The id card `ci` defines in family `f`, read by that family's reader.
pub open spec fn card_id(t: GreenTree, f: IdFamily, ci: int) -> Option<i64> {
    match f {
        IdFamily::Cell => match spec_cell_id(t, ci) {
            Some((_, id)) => Some(id),
            None => None,
        },
        IdFamily::Surface => match spec_surface_id(t, ci) {
            Some((_, id, _)) => Some(id),
            None => None,
        },
        IdFamily::Material => match spec_parse_material(t, ci) {
            Some(m) => Some(m.id),
            None => None,
        },
        IdFamily::Transform => match spec_parse_transform(t, ci) {
            Some(tr) => Some(tr.id),
            None => None,
        },
    }
}

/// Id -> card index over the first `n` cards, built in card order: an id
/// defined twice maps to the later card.
pub open spec fn id_index(t: GreenTree, f: IdFamily, n: int) -> Map<i64, usize>
    decreases n,
{
    if n <= 0 {
        Map::empty()
    } else {
        let m = id_index(t, f, n - 1);
        match card_id(t, f, n - 1) {
            Some(id) => m.insert(id, (n - 1) as usize),
            None => m,
        }
    }
}

/// Id -> card-index lookup maps for a deck.
pub struct DeckIndex {
    /// Cell number -> card index.
    pub cells: FxHashMap<i64, usize>,
    /// Surface number -> card index.
    pub surfaces: FxHashMap<i64, usize>,
    /// Material number -> card index.
    pub materials: FxHashMap<i64, usize>,
    /// Transform number -> card index.
    pub transforms: FxHashMap<i64, usize>,
}

/// The id card `card_index` defines in family `f`.
fn card_id_exec(tree: &GreenTree, f: IdFamily, card_index: usize) -> (r: Option<i64>)
    requires
        tree.wf(),
        card_index < tree.spec_cards().len(),
    ensures
        r == card_id(*tree, f, card_index as int),
{
    match f {
        IdFamily::Cell => match cell_id(tree, card_index) {
            Some((_, id)) => Some(id),
            None => None,
        },
        IdFamily::Surface => match surface_id(tree, card_index) {
            Some((_, id, _)) => Some(id),
            None => None,
        },
        IdFamily::Material => match parse_material(tree, card_index) {
            Some(m) => Some(m.id),
            None => None,
        },
        IdFamily::Transform => match parse_transform(tree, card_index) {
            Some(tr) => Some(tr.id),
            None => None,
        },
    }
}

/// The id map of family `f` over the whole tree.
fn build_map(tree: &GreenTree, f: IdFamily) -> (r: FxHashMap<i64, usize>)
    requires
        tree.wf(),
    ensures
        r@ == id_index(*tree, f, tree.spec_cards().len() as int),
{
    let n = tree.cards().len();
    let mut m: FxHashMap<i64, usize> = FxHashMap::default();
    let mut i: usize = 0;
    while i < n
        invariant
            tree.wf(),
            n == tree.spec_cards().len(),
            i <= n,
            m@ == id_index(*tree, f, i as int),
        decreases n - i,
    {
        match card_id_exec(tree, f, i) {
            Some(id) => {
                fx_insert(&mut m, id, i);
            },
            None => {},
        }
        i = i + 1;
    }
    m
}

impl DeckIndex {
    /// Build all four id maps over the tree, each in card order.
    pub fn build(tree: &GreenTree) -> (r: DeckIndex)
        requires
            tree.wf(),
        ensures
            r.cells@ == id_index(*tree, IdFamily::Cell, tree.spec_cards().len() as int),
            r.surfaces@ == id_index(*tree, IdFamily::Surface, tree.spec_cards().len() as int),
            r.materials@ == id_index(*tree, IdFamily::Material, tree.spec_cards().len() as int),
            r.transforms@ == id_index(*tree, IdFamily::Transform, tree.spec_cards().len() as int),
    {
        DeckIndex {
            cells: build_map(tree, IdFamily::Cell),
            surfaces: build_map(tree, IdFamily::Surface),
            materials: build_map(tree, IdFamily::Material),
            transforms: build_map(tree, IdFamily::Transform),
        }
    }

    /// Card index of the cell numbered `id`, if any.
    pub fn cell(&self, id: i64) -> (r: Option<usize>)
        ensures
            r == (if self.cells@.contains_key(id) {
                Some(self.cells@[id])
            } else {
                None::<usize>
            }),
    {
        fx_get(&self.cells, id)
    }

    /// Card index of the surface numbered `id`, if any.
    pub fn surface(&self, id: i64) -> (r: Option<usize>)
        ensures
            r == (if self.surfaces@.contains_key(id) {
                Some(self.surfaces@[id])
            } else {
                None::<usize>
            }),
    {
        fx_get(&self.surfaces, id)
    }

    /// Card index of the material numbered `id`, if any.
    pub fn material(&self, id: i64) -> (r: Option<usize>)
        ensures
            r == (if self.materials@.contains_key(id) {
                Some(self.materials@[id])
            } else {
                None::<usize>
            }),
    {
        fx_get(&self.materials, id)
    }

    /// Card index of the transform numbered `id`, if any.
    pub fn transform(&self, id: i64) -> (r: Option<usize>)
        ensures
            r == (if self.transforms@.contains_key(id) {
                Some(self.transforms@[id])
            } else {
                None::<usize>
            }),
    {
        fx_get(&self.transforms, id)
    }
}

/// A parsed MCNP deck: the lossless tree and its diagnostics.
pub struct Deck {
    tree: GreenTree,
    diagnostics: Vec<Diagnostic>,
}

impl Deck {
    pub closed spec fn spec_tree(&self) -> GreenTree {
        self.tree
    }

    pub closed spec fn spec_diagnostics(&self) -> Seq<Diagnostic> {
        self.diagnostics@
    }

    /// Parse a deck. Never fails: malformed input yields diagnostics and a
    /// best-effort tree.
    pub fn parse(src: &str) -> (d: Deck)
        requires
            parsable(src.spec_bytes().len() as int),
        ensures
            d.spec_tree().wf(),
            d.spec_tree().spec_src() == src.spec_bytes(),
            d.spec_tree().spec_overrides().is_empty(),
            parse_diagnostics(d.spec_diagnostics(), src.spec_bytes()),
    {
        let p = parse(src);
        Deck { tree: p.tree, diagnostics: p.diagnostics }
    }

    /// The underlying lossless tree.
    pub fn tree(&self) -> (r: &GreenTree)
        ensures
            *r == self.spec_tree(),
    {
        &self.tree
    }

    /// The tree, for a low-level edit made through it.
    pub fn tree_mut(&mut self) -> (r: &mut GreenTree)
        ensures
            *r == old(self).spec_tree(),
            final(self).spec_tree() == *final(r),
            final(self).spec_diagnostics() == old(self).spec_diagnostics(),
    {
        &mut self.tree
    }

    /// What parsing reported.
    pub fn diagnostics(&self) -> (r: &[Diagnostic])
        ensures
            r@ == self.spec_diagnostics(),
    {
        self.diagnostics.as_slice()
    }

    /// Re-emit the deck, with its edits. Byte-for-byte the input when
    /// unedited.
    pub fn to_source(&self) -> (r: Vec<u8>)
        requires
            self.spec_tree().wf(),
        ensures
            r@ == self.spec_tree().spec_emitted(self.spec_tree().spec_tokens().len() as int),
            !self.spec_tree().spec_overrides().is_empty() || r@ == self.spec_tree().spec_src(),
    {
        self.tree.to_source()
    }

    /// Every surface card, parsed, in source order.
    pub fn surfaces(&self) -> (r: Vec<Surface>)
        requires
            self.spec_tree().wf(),
        ensures
            forall|k: int| 0 <= k < r@.len() ==> is_surface_of(self.spec_tree(), #[trigger] r@[k]),
            forall|k: int, j: int| 0 <= k < j < r@.len() ==> r@[k].card_index < r@[j].card_index,
            forall|ci: int|
                0 <= ci < self.spec_tree().spec_cards().len() && (spec_parse_surface(
                    self.spec_tree(),
                    ci,
                ) is Some) ==> exists|k: int| 0 <= k < r@.len() && (#[trigger] r@[k]).card_index == ci,
    {
        tree_surfaces(&self.tree)
    }

    /// Every cell card, parsed, in source order.
    pub fn cells(&self) -> (r: Vec<Cell>)
        requires
            self.spec_tree().wf(),
            forall|ci: int|
                0 <= ci < self.spec_tree().spec_cards().len() ==> #[trigger] cell_scan_safe(
                    self.spec_tree(),
                    ci,
                ),
        ensures
            forall|k: int| 0 <= k < r@.len() ==> is_cell_of(self.spec_tree(), #[trigger] r@[k]),
            forall|k: int, j: int| 0 <= k < j < r@.len() ==> r@[k].card_index < r@[j].card_index,
            forall|ci: int|
                0 <= ci < self.spec_tree().spec_cards().len() && (spec_parse_cell(self.spec_tree(), ci) is Some)
                    ==> exists|k: int| 0 <= k < r@.len() && (#[trigger] r@[k]).card_index == ci,
    {
        cells(&self.tree)
    }

    /// Every `Mn` material card, parsed, in source order.
    pub fn materials(&self) -> (r: Vec<Material>)
        requires
            self.spec_tree().wf(),
        ensures
            forall|k: int| 0 <= k < r@.len() ==> is_material_of(self.spec_tree(), #[trigger] r@[k]),
            forall|k: int, j: int| 0 <= k < j < r@.len() ==> r@[k].card_index < r@[j].card_index,
            forall|ci: int|
                0 <= ci < self.spec_tree().spec_cards().len() && (spec_parse_material(self.spec_tree(), ci) is Some)
                    ==> exists|k: int| 0 <= k < r@.len() && (#[trigger] r@[k]).card_index == ci,
    {
        materials(&self.tree)
    }

    /// Every `TRn` transform card, parsed, in source order.
    pub fn transforms(&self) -> (r: Vec<Transform>)
        requires
            self.spec_tree().wf(),
        ensures
            forall|k: int| 0 <= k < r@.len() ==> is_transform_of(self.spec_tree(), #[trigger] r@[k]),
            forall|k: int, j: int| 0 <= k < j < r@.len() ==> r@[k].card_index < r@[j].card_index,
            forall|ci: int|
                0 <= ci < self.spec_tree().spec_cards().len() && (spec_parse_transform(self.spec_tree(), ci) is Some)
                    ==> exists|k: int| 0 <= k < r@.len() && (#[trigger] r@[k]).card_index == ci,
    {
        transforms(&self.tree)
    }

    /// Every data card, read generically, in source order.
    pub fn data_cards(&self) -> (r: Vec<DataCard>)
        requires
            self.spec_tree().wf(),
        ensures
            forall|k: int| 0 <= k < r@.len() ==> is_data_card_of(self.spec_tree(), #[trigger] r@[k]),
            forall|k: int, j: int| 0 <= k < j < r@.len() ==> r@[k].card_index < r@[j].card_index,
            forall|ci: int|
                0 <= ci < self.spec_tree().spec_cards().len() && (spec_parse_data_card(self.spec_tree(), ci) is Some)
                    ==> exists|k: int| 0 <= k < r@.len() && (#[trigger] r@[k]).card_index == ci,
    {
        data_cards(&self.tree)
    }

    /// The id-lookup index over the deck.
    pub fn index(&self) -> (r: DeckIndex)
        requires
            self.spec_tree().wf(),
        ensures
            r.cells@ == id_index(self.spec_tree(), IdFamily::Cell, self.spec_tree().spec_cards().len() as int),
            r.surfaces@ == id_index(
                self.spec_tree(),
                IdFamily::Surface,
                self.spec_tree().spec_cards().len() as int,
            ),
            r.materials@ == id_index(
                self.spec_tree(),
                IdFamily::Material,
                self.spec_tree().spec_cards().len() as int,
            ),
            r.transforms@ == id_index(
                self.spec_tree(),
                IdFamily::Transform,
                self.spec_tree().spec_cards().len() as int,
            ),
    {
        DeckIndex::build(&self.tree)
    }

    /// Renumber every surface, definitions and references (see
    /// [`crate::crunchy::renumber::renumber_surfaces`]).
    pub fn renumber_surfaces<F: Fn(i64) -> i64>(&mut self, map: F)
        requires
            old(self).spec_tree().wf(),
            renumberable(old(self).spec_tree()),
            forall|x: i64| call_requires(map, (x,)),
            negates_safely(map, old(self).spec_tree()),
        ensures
            same_base(old(self).spec_tree(), final(self).spec_tree()),
            final(self).spec_diagnostics() == old(self).spec_diagnostics(),
            exists|ys: Seq<i64>|
                mapped_by(
                    map,
                    surface_edits_upto(old(self).spec_tree(), old(self).spec_tree().spec_cards().len() as int),
                    ys,
                ) && final(self).spec_tree().spec_texts() == apply_edits(
                    old(self).spec_tree().spec_texts(),
                    surface_edits_upto(old(self).spec_tree(), old(self).spec_tree().spec_cards().len() as int),
                    ys,
                ),
    {
        tree_renumber_surfaces(&mut self.tree, map);
    }

    /// Renumber every cell, definitions and references (see
    /// [`crate::crunchy::renumber::renumber_cells`]).
    pub fn renumber_cells<F: Fn(i64) -> i64>(&mut self, map: F)
        requires
            old(self).spec_tree().wf(),
            renumberable(old(self).spec_tree()),
            forall|x: i64| call_requires(map, (x,)),
        ensures
            same_base(old(self).spec_tree(), final(self).spec_tree()),
            final(self).spec_diagnostics() == old(self).spec_diagnostics(),
            exists|ys: Seq<i64>|
                mapped_by(
                    map,
                    cell_edits_upto(old(self).spec_tree(), old(self).spec_tree().spec_cards().len() as int),
                    ys,
                ) && final(self).spec_tree().spec_texts() == apply_edits(
                    old(self).spec_tree().spec_texts(),
                    cell_edits_upto(old(self).spec_tree(), old(self).spec_tree().spec_cards().len() as int),
                    ys,
                ),
    {
        tree_renumber_cells(&mut self.tree, map);
    }
}

} // verus!
