//! Analysis of a whole model: the universes it declares, and the
//! references that do not resolve.

use vstd::prelude::*;
use rustc_hash::FxHashSet;
use crate::card::Card;
use crate::fx::{fx_set_contains, id_set};
use crate::cst::Cst;
use crate::segment::lemma_concat_push;
use crate::cell::{spec_cell_layout, FillView};
use crate::decimal::{fmt_int, int_text};
use crate::kind::CardKind;
use crate::model::{defined_id, first_definition, lemma_first_definition, Family, Model};
use crate::data::{spec_head, spec_material_id, spec_transform_id};
use crate::kind::{eol_bytes, Eol};
use crate::lex::lexable;
use crate::segment::concat_texts;
use crate::surface::spec_surface_layout;
use crate::view::{
    abs_i64, cell_geometry, complement_values, spec_cell_fill, spec_universe, surface_values,
    CellView, SurfaceView,
};

verus! {

/// One dangling reference found by [`Model::validate`]. `cell` / `surface`
/// is `0` when the referencing card itself has no readable id.
#[derive(Debug, Clone, Copy, PartialEq, Eq, PartialOrd, Ord, Structural)]
pub enum Problem {
    UndefinedSurface { cell: i64, surface: i64 },
    UndefinedMaterial { cell: i64, material: i64 },
    UndefinedCell { cell: i64, referenced: i64 },
    UndefinedUniverse { cell: i64, universe: i64 },
    UndefinedTransform { surface: i64, transform: i64 },
}

pub open spec fn phrase_cell() -> Seq<u8> {
    seq![99u8, 101u8, 108u8, 108u8, 32u8]
}

pub open spec fn phrase_surface() -> Seq<u8> {
    seq![115u8, 117u8, 114u8, 102u8, 97u8, 99u8, 101u8, 32u8]
}

pub open spec fn phrase_undef_surface() -> Seq<u8> {
    seq![58u8, 32u8, 114u8, 101u8, 102u8, 101u8, 114u8, 101u8, 110u8, 99u8, 101u8, 115u8, 32u8, 117u8, 110u8, 100u8, 101u8, 102u8, 105u8, 110u8, 101u8, 100u8, 32u8, 115u8, 117u8, 114u8, 102u8, 97u8, 99u8, 101u8, 32u8]
}

pub open spec fn phrase_undef_material() -> Seq<u8> {
    seq![58u8, 32u8, 114u8, 101u8, 102u8, 101u8, 114u8, 101u8, 110u8, 99u8, 101u8, 115u8, 32u8, 117u8, 110u8, 100u8, 101u8, 102u8, 105u8, 110u8, 101u8, 100u8, 32u8, 109u8, 97u8, 116u8, 101u8, 114u8, 105u8, 97u8, 108u8, 32u8]
}

pub open spec fn phrase_undef_cell() -> Seq<u8> {
    seq![58u8, 32u8, 114u8, 101u8, 102u8, 101u8, 114u8, 101u8, 110u8, 99u8, 101u8, 115u8, 32u8, 117u8, 110u8, 100u8, 101u8, 102u8, 105u8, 110u8, 101u8, 100u8, 32u8, 99u8, 101u8, 108u8, 108u8, 32u8]
}

pub open spec fn phrase_undef_universe() -> Seq<u8> {
    seq![58u8, 32u8, 102u8, 105u8, 108u8, 108u8, 32u8, 114u8, 101u8, 102u8, 101u8, 114u8, 101u8, 110u8, 99u8, 101u8, 115u8, 32u8, 117u8, 110u8, 100u8, 101u8, 102u8, 105u8, 110u8, 101u8, 100u8, 32u8, 117u8, 110u8, 105u8, 118u8, 101u8, 114u8, 115u8, 101u8, 32u8]
}

pub open spec fn phrase_undef_transform() -> Seq<u8> {
    seq![58u8, 32u8, 114u8, 101u8, 102u8, 101u8, 114u8, 101u8, 110u8, 99u8, 101u8, 115u8, 32u8, 117u8, 110u8, 100u8, 101u8, 102u8, 105u8, 110u8, 101u8, 100u8, 32u8, 116u8, 114u8, 97u8, 110u8, 115u8, 102u8, 111u8, 114u8, 109u8, 32u8]
}

/// The message for a problem: `cell 1: references undefined surface 9`.
pub open spec fn problem_message(p: Problem) -> Seq<u8> {
    match p {
        Problem::UndefinedSurface { cell, surface } => phrase_cell() + int_text(cell as int)
            + phrase_undef_surface() + int_text(surface as int),
        Problem::UndefinedMaterial { cell, material } => phrase_cell() + int_text(cell as int)
            + phrase_undef_material() + int_text(material as int),
        Problem::UndefinedCell { cell, referenced } => phrase_cell() + int_text(cell as int)
            + phrase_undef_cell() + int_text(referenced as int),
        Problem::UndefinedUniverse { cell, universe } => phrase_cell() + int_text(cell as int)
            + phrase_undef_universe() + int_text(universe as int),
        Problem::UndefinedTransform { surface, transform } => phrase_surface() + int_text(
            surface as int,
        ) + phrase_undef_transform() + int_text(transform as int),
    }
}

/// The sort key of a problem: its kind, then its fields in order.
pub open spec fn problem_key(p: Problem) -> (int, int, int) {
    match p {
        Problem::UndefinedSurface { cell, surface } => (0, cell as int, surface as int),
        Problem::UndefinedMaterial { cell, material } => (1, cell as int, material as int),
        Problem::UndefinedCell { cell, referenced } => (2, cell as int, referenced as int),
        Problem::UndefinedUniverse { cell, universe } => (3, cell as int, universe as int),
        Problem::UndefinedTransform { surface, transform } => (4, surface as int, transform as int),
    }
}

pub open spec fn key_lt(a: (int, int, int), b: (int, int, int)) -> bool {
    a.0 < b.0 || (a.0 == b.0 && (a.1 < b.1 || (a.1 == b.1 && a.2 < b.2)))
}

/// Problems in strictly increasing order: sorted, and no problem twice.
pub open spec fn strictly_sorted(v: Seq<Problem>) -> bool {
    forall|i: int, j: int| 0 <= i < j < v.len() ==> key_lt(problem_key(#[trigger] v[i]), problem_key(#[trigger] v[j]))
}

impl Problem {
    /// The human-readable message for this problem.
    pub fn message(&self) -> (r: Vec<u8>)
        ensures
            r@ == problem_message(*self),
    {
        let phrase_cell_b: [u8; 5] = [99u8, 101u8, 108u8, 108u8, 32u8];
        let phrase_surface_b: [u8; 8] = [115u8, 117u8, 114u8, 102u8, 97u8, 99u8, 101u8, 32u8];
        let phrase_undef_surface_b: [u8; 31] = [58u8, 32u8, 114u8, 101u8, 102u8, 101u8, 114u8, 101u8, 110u8, 99u8, 101u8, 115u8, 32u8, 117u8, 110u8, 100u8, 101u8, 102u8, 105u8, 110u8, 101u8, 100u8, 32u8, 115u8, 117u8, 114u8, 102u8, 97u8, 99u8, 101u8, 32u8];
        let phrase_undef_material_b: [u8; 32] = [58u8, 32u8, 114u8, 101u8, 102u8, 101u8, 114u8, 101u8, 110u8, 99u8, 101u8, 115u8, 32u8, 117u8, 110u8, 100u8, 101u8, 102u8, 105u8, 110u8, 101u8, 100u8, 32u8, 109u8, 97u8, 116u8, 101u8, 114u8, 105u8, 97u8, 108u8, 32u8];
        let phrase_undef_cell_b: [u8; 28] = [58u8, 32u8, 114u8, 101u8, 102u8, 101u8, 114u8, 101u8, 110u8, 99u8, 101u8, 115u8, 32u8, 117u8, 110u8, 100u8, 101u8, 102u8, 105u8, 110u8, 101u8, 100u8, 32u8, 99u8, 101u8, 108u8, 108u8, 32u8];
        let phrase_undef_universe_b: [u8; 37] = [58u8, 32u8, 102u8, 105u8, 108u8, 108u8, 32u8, 114u8, 101u8, 102u8, 101u8, 114u8, 101u8, 110u8, 99u8, 101u8, 115u8, 32u8, 117u8, 110u8, 100u8, 101u8, 102u8, 105u8, 110u8, 101u8, 100u8, 32u8, 117u8, 110u8, 105u8, 118u8, 101u8, 114u8, 115u8, 101u8, 32u8];
        let phrase_undef_transform_b: [u8; 33] = [58u8, 32u8, 114u8, 101u8, 102u8, 101u8, 114u8, 101u8, 110u8, 99u8, 101u8, 115u8, 32u8, 117u8, 110u8, 100u8, 101u8, 102u8, 105u8, 110u8, 101u8, 100u8, 32u8, 116u8, 114u8, 97u8, 110u8, 115u8, 102u8, 111u8, 114u8, 109u8, 32u8];
        assert(phrase_cell_b@ == phrase_cell());
        assert(phrase_surface_b@ == phrase_surface());
        assert(phrase_undef_surface_b@ == phrase_undef_surface());
        assert(phrase_undef_material_b@ == phrase_undef_material());
        assert(phrase_undef_cell_b@ == phrase_undef_cell());
        assert(phrase_undef_universe_b@ == phrase_undef_universe());
        assert(phrase_undef_transform_b@ == phrase_undef_transform());
        let (head, a, mid, b): (&[u8], i64, &[u8], i64) = match *self {
            Problem::UndefinedSurface { cell, surface } => (&phrase_cell_b, cell, &phrase_undef_surface_b, surface),
            Problem::UndefinedMaterial { cell, material } => (&phrase_cell_b, cell, &phrase_undef_material_b, material),
            Problem::UndefinedCell { cell, referenced } => (&phrase_cell_b, cell, &phrase_undef_cell_b, referenced),
            Problem::UndefinedUniverse { cell, universe } => (&phrase_cell_b, cell, &phrase_undef_universe_b, universe),
            Problem::UndefinedTransform { surface, transform } => (&phrase_surface_b, surface, &phrase_undef_transform_b, transform),
        };
        let mut out = vstd::slice::slice_to_vec(head);
        let mut x = fmt_int(a);
        out.append(&mut x);
        let mut m = vstd::slice::slice_to_vec(mid);
        out.append(&mut m);
        let mut y = fmt_int(b);
        out.append(&mut y);
        out
    }

    fn key(&self) -> (r: (u8, i64, i64))
        ensures
            problem_key(*self) == (r.0 as int, r.1 as int, r.2 as int),
    {
        match *self {
            Problem::UndefinedSurface { cell, surface } => (0, cell, surface),
            Problem::UndefinedMaterial { cell, material } => (1, cell, material),
            Problem::UndefinedCell { cell, referenced } => (2, cell, referenced),
            Problem::UndefinedUniverse { cell, universe } => (3, cell, universe),
            Problem::UndefinedTransform { surface, transform } => (4, surface, transform),
        }
    }
}

proof fn lemma_key_injective(a: Problem, b: Problem)
    requires
        problem_key(a) == problem_key(b),
    ensures
        a == b,
{
}

fn key_less(a: (u8, i64, i64), b: (u8, i64, i64)) -> (r: bool)
    ensures
        r == key_lt((a.0 as int, a.1 as int, a.2 as int), (b.0 as int, b.1 as int, b.2 as int)),
{
    a.0 < b.0 || (a.0 == b.0 && (a.1 < b.1 || (a.1 == b.1 && a.2 < b.2)))
}

/// Insert `p` into a strictly sorted list, unless it is there already.
#[verifier::spinoff_prover]
fn insert_problem(out: &mut Vec<Problem>, p: Problem)
    requires
        strictly_sorted(old(out)@),
    ensures
        strictly_sorted(final(out)@),
        forall|q: Problem| final(out)@.contains(q) <==> (old(out)@.contains(q) || q == p),
{
    let kp = p.key();
    let mut i: usize = 0;
    let mut stop = false;
    while !stop && i < out.len()
        invariant
            strictly_sorted(out@),
            i <= out@.len(),
            problem_key(p) == (kp.0 as int, kp.1 as int, kp.2 as int),
            forall|j: int| 0 <= j < i ==> key_lt(problem_key(#[trigger] out@[j]), problem_key(p)),
            stop ==> i < out@.len() && !key_lt(problem_key(out@[i as int]), problem_key(p)),
        decreases out@.len() - i + (if stop {
            0int
        } else {
            1int
        }),
    {
        let ki = out[i].key();
        if key_less(ki, kp) {
            i = i + 1;
        } else {
            stop = true;
        }
    }
    if i < out.len() && !key_less(kp, out[i].key()) {
        proof {
            lemma_key_injective(out@[i as int], p);
            assert(out@.contains(p));
        }
        return;
    }
    let ghost before = out@;
    out.insert(i, p);
    assert(out@ == before.insert(i as int, p));
    proof {
        assert forall|a: int, b: int| 0 <= a < b < out@.len() implies key_lt(
            problem_key(#[trigger] out@[a]),
            problem_key(#[trigger] out@[b]),
        ) by {
            if b < i {
            } else if b == i {
            } else if a < i {
                assert(out@[b] == before[b - 1]);
                if i < before.len() {
                    assert(!key_lt(problem_key(before[i as int]), problem_key(p)));
                    assert(problem_key(before[i as int]) != problem_key(p));
                }
            } else if a == i {
                assert(out@[b] == before[b - 1]);
                assert(!key_lt(problem_key(before[i as int]), problem_key(p)));
                assert(problem_key(before[i as int]) != problem_key(p));
            } else {
                assert(out@[a] == before[a - 1]);
                assert(out@[b] == before[b - 1]);
            }
        }
        assert forall|q: Problem| out@.contains(q) <==> (before.contains(q) || q == p) by {
            if before.contains(q) {
                let k = choose|k: int| 0 <= k < before.len() && before[k] == q;
                if k < i {
                    assert(out@[k] == q);
                } else {
                    assert(out@[k + 1] == q);
                }
            }
            if q == p {
                assert(out@[i as int] == p);
            }
            if out@.contains(q) {
                let k = choose|k: int| 0 <= k < out@.len() && out@[k] == q;
                if k < i {
                    assert(before[k] == q);
                } else if k > i {
                    assert(before[k - 1] == q);
                }
            }
        }
    }
}

/// A cell of `m` declares universe `u` with its `u=` parameter.
pub open spec fn declares_universe(m: Model, u: i64) -> bool {
    exists|i: int|
        0 <= i < m.spec_cards().len() && (#[trigger] m.spec_cards()[i]).spec_kind() == CardKind::Cell
            && spec_universe(m.spec_cards()[i]) == Some(u)
}

/// No card of family `f` defines `id`.
pub open spec fn undefined(m: Model, f: Family, id: i64) -> bool {
    first_definition(m.spec_cards(), f, id) is None
}

pub open spec fn id_or_zero(x: Option<i64>) -> i64 {
    match x {
        Some(v) => v,
        None => 0,
    }
}

/// The surface magnitudes a cell's geometry references.
pub open spec fn cell_surface_ids(c: Card) -> Seq<i64> {
    surface_values(cell_geometry(c)).map_values(|x: i64| abs_i64(x))
}

/// The cells a cell references: `#n` complements and a `LIKE n` base.
pub open spec fn cell_ref_ids(c: Card) -> Seq<i64> {
    complement_values(cell_geometry(c)) + match spec_cell_layout(c).like {
        Some(b) => seq![b],
        None => Seq::empty(),
    }
}

/// `p` is a dangling reference made by card `c` of model `m`.
pub open spec fn card_problem(m: Model, c: Card, p: Problem) -> bool {
    if c.spec_kind() == CardKind::Cell {
        let id = id_or_zero(spec_cell_layout(c).id);
        match p {
            Problem::UndefinedSurface { cell, surface } => cell == id && cell_surface_ids(c).contains(
                surface,
            ) && undefined(m, Family::Surface, surface),
            Problem::UndefinedMaterial { cell, material } => cell == id && spec_cell_layout(c).material
                == Some(material) && material != 0 && undefined(m, Family::Material, material),
            Problem::UndefinedCell { cell, referenced } => cell == id && cell_ref_ids(c).contains(
                referenced,
            ) && undefined(m, Family::Cell, referenced),
            Problem::UndefinedUniverse { cell, universe } => cell == id && (spec_cell_fill(c) matches Some(
                f,
            ) && f.universe == universe) && universe != 0 && !declares_universe(m, universe),
            Problem::UndefinedTransform { .. } => false,
        }
    } else if c.spec_kind() == CardKind::Surface {
        match p {
            Problem::UndefinedTransform { surface, transform } => surface == id_or_zero(
                spec_surface_layout(c).id,
            ) && (spec_surface_layout(c).transform matches Some(t) && abs_i64(t) == transform)
                && undefined(m, Family::Transform, transform),
            _ => false,
        }
    } else {
        false
    }
}

/// Every number `abs` is taken of reads as more than `i64::MIN`: the
/// surface references of every cell and the transform of every surface.
pub open spec fn no_min_refs(m: Model) -> bool {
    forall|i: int|
        0 <= i < m.spec_cards().len() ==> {
            let c = #[trigger] m.spec_cards()[i];
            &&& c.spec_kind() == CardKind::Cell ==> forall|k: int|
                0 <= k < surface_values(cell_geometry(c)).len() ==> (#[trigger] surface_values(
                    cell_geometry(c),
                )[k]) != i64::MIN
            &&& c.spec_kind() == CardKind::Surface ==> spec_surface_layout(c).transform != Some(
                i64::MIN,
            )
        }
}

/// `q` reports an id of `ids`, referenced by cell `cell`, that no surface
/// defines.
pub open spec fn surface_gap(m: Model, cell: i64, ids: Seq<i64>, q: Problem) -> bool {
    match q {
        Problem::UndefinedSurface { cell: c, surface: x } => c == cell && ids.contains(x) && undefined(
            m,
            Family::Surface,
            x,
        ),
        _ => false,
    }
}

/// `q` reports an id of `ids`, referenced by cell `cell`, that no cell
/// defines.
pub open spec fn cell_gap(m: Model, cell: i64, ids: Seq<i64>, q: Problem) -> bool {
    match q {
        Problem::UndefinedCell { cell: c, referenced: x } => c == cell && ids.contains(x) && undefined(
            m,
            Family::Cell,
            x,
        ),
        _ => false,
    }
}

#[verifier::spinoff_prover]
fn insert_id(out: &mut Vec<i64>, x: i64)
    requires
        forall|i: int, j: int| 0 <= i < j < old(out)@.len() ==> old(out)@[i] < old(out)@[j],
    ensures
        forall|i: int, j: int| 0 <= i < j < final(out)@.len() ==> final(out)@[i] < final(out)@[j],
        forall|q: i64| final(out)@.contains(q) <==> (old(out)@.contains(q) || q == x),
{
    let mut i: usize = 0;
    while i < out.len() && out[i] < x
        invariant
            forall|a: int, b: int| 0 <= a < b < out@.len() ==> out@[a] < out@[b],
            i <= out@.len(),
            forall|j: int| 0 <= j < i ==> out@[j] < x,
        decreases out@.len() - i,
    {
        i = i + 1;
    }
    if i < out.len() && out[i] == x {
        assert(out@[i as int] == x);
        assert(out@.contains(x));
        return;
    }
    let ghost before = out@;
    out.insert(i, x);
    assert(out@ == before.insert(i as int, x));
    proof {
        assert forall|q: i64| out@.contains(q) <==> (before.contains(q) || q == x) by {
            if before.contains(q) {
                let k = choose|k: int| 0 <= k < before.len() && before[k] == q;
                if k < i {
                    assert(out@[k] == q);
                } else {
                    assert(out@[k + 1] == q);
                }
            }
            if q == x {
                assert(out@[i as int] == x);
            }
            if out@.contains(q) {
                let k = choose|k: int| 0 <= k < out@.len() && out@[k] == q;
                if k < i {
                    assert(before[k] == q);
                } else if k > i {
                    assert(before[k - 1] == q);
                }
            }
        }
    }
}

impl Model {
    /// Record an undefined-surface problem for each id of `ids` no surface
    /// defines.
    fn add_undefined_surfaces(&self, out: &mut Vec<Problem>, cell: i64, ids: &Vec<i64>)
        requires
            self.wf(),
            strictly_sorted(old(out)@),
        ensures
            strictly_sorted(final(out)@),
            forall|q: Problem|
                final(out)@.contains(q) <==> (old(out)@.contains(q) || surface_gap(*self, cell, ids@, q)),
    {
        let ghost start = out@;
        let mut k: usize = 0;
        while k < ids.len()
            invariant
                self.wf(),
                strictly_sorted(out@),
                k <= ids@.len(),
                forall|q: Problem|
                    #[trigger] out@.contains(q) <==> (start.contains(q) || surface_gap(
                        *self,
                        cell,
                        ids@.subrange(0, k as int),
                        q,
                    )),
            decreases ids@.len() - k,
        {
            let s = ids[k];
            let ghost before = out@;
            let missing = self.surface(s).is_none();
            assert(missing == undefined(*self, Family::Surface, s));
            if missing {
                insert_problem(out, Problem::UndefinedSurface { cell, surface: s });
            }
            proof {
                let pre = ids@.subrange(0, k + 1);
                let prev = ids@.subrange(0, k as int);
                assert forall|x: i64| pre.contains(x) <==> (prev.contains(x) || x == s) by {
                    if pre.contains(x) {
                        let j = choose|j: int| 0 <= j < pre.len() && pre[j] == x;
                        if j < k {
                            assert(prev[j] == x);
                        }
                    }
                    if prev.contains(x) {
                        let j = choose|j: int| 0 <= j < prev.len() && prev[j] == x;
                        assert(pre[j] == x);
                    }
                    if x == s {
                        assert(pre[k as int] == x);
                    }
                }
                assert forall|q: Problem|
                    #[trigger] out@.contains(q) <==> (start.contains(q) || surface_gap(*self, cell, pre, q)) by {
                    assert(before.contains(q) <==> (start.contains(q) || surface_gap(*self, cell, prev, q)));
                    if missing {
                        assert(out@.contains(q) <==> (before.contains(q) || q
                            == Problem::UndefinedSurface { cell, surface: s }));
                    } else {
                        assert(out@ == before);
                    }
                    match q {
                        Problem::UndefinedSurface { cell: c, surface: x } => {
                            assert(pre.contains(x) <==> (prev.contains(x) || x == s));
                        },
                        _ => {},
                    }
                }
            }
            k = k + 1;
        }
        proof {
            assert(ids@.subrange(0, ids@.len() as int) =~= ids@);
        }
    }

    /// Record an undefined-cell problem for each id of `ids` no cell defines.
    fn add_undefined_cells(&self, out: &mut Vec<Problem>, cell: i64, ids: &Vec<i64>)
        requires
            self.wf(),
            strictly_sorted(old(out)@),
        ensures
            strictly_sorted(final(out)@),
            forall|q: Problem|
                final(out)@.contains(q) <==> (old(out)@.contains(q) || cell_gap(*self, cell, ids@, q)),
    {
        let ghost start = out@;
        let mut k: usize = 0;
        while k < ids.len()
            invariant
                self.wf(),
                strictly_sorted(out@),
                k <= ids@.len(),
                forall|q: Problem|
                    #[trigger] out@.contains(q) <==> (start.contains(q) || cell_gap(
                        *self,
                        cell,
                        ids@.subrange(0, k as int),
                        q,
                    )),
            decreases ids@.len() - k,
        {
            let s = ids[k];
            let ghost before = out@;
            let missing = self.cell(s).is_none();
            assert(missing == undefined(*self, Family::Cell, s));
            if missing {
                insert_problem(out, Problem::UndefinedCell { cell, referenced: s });
            }
            proof {
                let pre = ids@.subrange(0, k + 1);
                let prev = ids@.subrange(0, k as int);
                assert forall|x: i64| pre.contains(x) <==> (prev.contains(x) || x == s) by {
                    if pre.contains(x) {
                        let j = choose|j: int| 0 <= j < pre.len() && pre[j] == x;
                        if j < k {
                            assert(prev[j] == x);
                        }
                    }
                    if prev.contains(x) {
                        let j = choose|j: int| 0 <= j < prev.len() && prev[j] == x;
                        assert(pre[j] == x);
                    }
                    if x == s {
                        assert(pre[k as int] == x);
                    }
                }
                assert forall|q: Problem|
                    #[trigger] out@.contains(q) <==> (start.contains(q) || cell_gap(*self, cell, pre, q)) by {
                    assert(before.contains(q) <==> (start.contains(q) || cell_gap(*self, cell, prev, q)));
                    if missing {
                        assert(out@.contains(q) <==> (before.contains(q) || q
                            == Problem::UndefinedCell { cell, referenced: s }));
                    } else {
                        assert(out@ == before);
                    }
                    match q {
                        Problem::UndefinedCell { cell: c, referenced: x } => {
                            assert(pre.contains(x) <==> (prev.contains(x) || x == s));
                        },
                        _ => {},
                    }
                }
            }
            k = k + 1;
        }
        proof {
            assert(ids@.subrange(0, ids@.len() as int) =~= ids@);
        }
    }

    /// Record the dangling references card `i` makes.
    fn card_problems(&self, i: usize, universes: &FxHashSet<i64>, out: &mut Vec<Problem>)
        requires
            self.wf(),
            no_min_refs(*self),
            i < self.spec_cards().len(),
            strictly_sorted(old(out)@),
            forall|u: i64| universes@.contains(u) <==> declares_universe(*self, u),
        ensures
            strictly_sorted(final(out)@),
            forall|q: Problem|
                final(out)@.contains(q) <==> (old(out)@.contains(q) || card_problem(
                    *self,
                    self.spec_cards()[i as int],
                    q,
                )),
    {
        proof {
            self.spec_cst().lemma_wf();
        }
        let card = self.cst().at(i).unwrap();
        let ghost c = *card;
        assert(c == self.spec_cards()[i as int]);
        let ghost start = out@;
        if card.kind() == CardKind::Cell {
            let v = CellView::new(self, card.slot());
            assert(v.spec_card() == c);
            let id = match v.id() {
                Some(x) => x,
                None => 0,
            };
            proof {
                assert(no_min_refs(*self));
                assert(c == self.spec_cards()[i as int]);
            }
            let sids = v.surface_ids();
            self.add_undefined_surfaces(out, id, &sids);
            let ghost after_s = out@;
            match v.material() {
                Some(m) => {
                    if m != 0 && self.material(m).is_none() {
                        insert_problem(out, Problem::UndefinedMaterial { cell: id, material: m });
                    }
                },
                None => {},
            }
            let ghost after_m = out@;
            let refs = v.cell_refs();
            self.add_undefined_cells(out, id, &refs);
            let ghost after_r = out@;
            match v.fill() {
                Some(f) => {
                    if f.universe != 0 && !fx_set_contains(universes, f.universe) {
                        insert_problem(
                            out,
                            Problem::UndefinedUniverse { cell: id, universe: f.universe },
                        );
                    }
                },
                None => {},
            }
            proof {
                assert forall|q: Problem| out@.contains(q) <==> (start.contains(q) || card_problem(
                    *self,
                    c,
                    q,
                )) by {
                    match q {
                        Problem::UndefinedSurface { cell, surface } => {},
                        Problem::UndefinedMaterial { cell, material } => {},
                        Problem::UndefinedCell { cell, referenced } => {},
                        Problem::UndefinedUniverse { cell, universe } => {},
                        Problem::UndefinedTransform { surface, transform } => {},
                    }
                }
            }
        } else if card.kind() == CardKind::Surface {
            let v = SurfaceView::new(self, card.slot());
            assert(v.spec_card() == c);
            match v.transform() {
                Some(t) => {
                    proof {
                        assert(no_min_refs(*self));
                        assert(c == self.spec_cards()[i as int]);
                    }
                    let a = if t < 0 {
                        -t
                    } else {
                        t
                    };
                    if self.transform(a).is_none() {
                        let sid = match v.id() {
                            Some(x) => x,
                            None => 0,
                        };
                        insert_problem(out, Problem::UndefinedTransform { surface: sid, transform: a });
                    }
                },
                None => {},
            }
        }
    }

    /// Cross-reference the model and report dangling references: a cell
    /// naming a surface, material, cell or universe that is not defined, or
    /// a surface naming an undefined transform. Sorted and without repeats;
    /// empty when every reference resolves.
    pub fn validate(&self) -> (r: Vec<Problem>)
        requires
            self.wf(),
            no_min_refs(*self),
        ensures
            strictly_sorted(r@),
            forall|q: Problem|
                r@.contains(q) <==> exists|i: int|
                    0 <= i < self.spec_cards().len() && #[trigger] card_problem(
                        *self,
                        self.spec_cards()[i],
                        q,
                    ),
    {
        let universes = id_set(&self.universe_ids());
        let n = self.cst().len();
        let mut out: Vec<Problem> = Vec::new();
        let mut i: usize = 0;
        while i < n
            invariant
                self.wf(),
                no_min_refs(*self),
                n == self.spec_cards().len(),
                i <= n,
                forall|u: i64| universes@.contains(u) <==> declares_universe(*self, u),
                strictly_sorted(out@),
                forall|q: Problem|
                    out@.contains(q) <==> exists|j: int|
                        0 <= j < i && #[trigger] card_problem(*self, self.spec_cards()[j], q),
            decreases n - i,
        {
            let ghost before = out@;
            self.card_problems(i, &universes, &mut out);
            proof {
                assert forall|q: Problem|
                    out@.contains(q) <==> exists|j: int|
                        0 <= j < i + 1 && #[trigger] card_problem(*self, self.spec_cards()[j], q) by {
                    if out@.contains(q) && !before.contains(q) {
                        assert(card_problem(*self, self.spec_cards()[i as int], q));
                    }
                }
            }
            i = i + 1;
        }
        out
    }

    /// Distinct universe ids declared by cells (`u=`), ascending. Level-0
    /// cells (no `u=`) are not a numbered universe and do not appear.
    pub fn universe_ids(&self) -> (r: Vec<i64>)
        requires
            self.wf(),
        ensures
            forall|i: int, j: int| 0 <= i < j < r@.len() ==> r@[i] < r@[j],
            forall|u: i64| r@.contains(u) <==> declares_universe(*self, u),
    {
        let n = self.cst().len();
        let mut out: Vec<i64> = Vec::new();
        let mut i: usize = 0;
        while i < n
            invariant
                self.wf(),
                n == self.spec_cards().len(),
                i <= n,
                forall|a: int, b: int| 0 <= a < b < out@.len() ==> out@[a] < out@[b],
                forall|u: i64|
                    out@.contains(u) <==> exists|j: int|
                        0 <= j < i && (#[trigger] self.spec_cards()[j]).spec_kind() == CardKind::Cell
                            && spec_universe(self.spec_cards()[j]) == Some(u),
            decreases n - i,
        {
            proof {
                self.spec_cst().lemma_wf();
            }
            let card = self.cst().at(i).unwrap();
            assert(*card == self.spec_cards()[i as int]);
            let ghost before = out@;
            if card.kind() == CardKind::Cell {
                let v = CellView::new(self, card.slot());
                assert(v.spec_card() == *card);
                match v.universe() {
                    Some(u) => {
                        insert_id(&mut out, u);
                    },
                    None => {},
                }
            }
            proof {
                assert forall|u: i64|
                    out@.contains(u) <==> exists|j: int|
                        0 <= j < i + 1 && (#[trigger] self.spec_cards()[j]).spec_kind() == CardKind::Cell
                            && spec_universe(self.spec_cards()[j]) == Some(u) by {
                    if out@.contains(u) && !before.contains(u) {
                        assert(self.spec_cards()[i as int].spec_kind() == CardKind::Cell && spec_universe(
                            self.spec_cards()[i as int],
                        ) == Some(u));
                    }
                }
            }
            i = i + 1;
        }
        out
    }
}

/// Which cards an extraction copies.
#[derive(Debug, Clone, Copy, PartialEq, Eq, Structural)]
pub enum Pick {
    Cells,
    Surfaces,
    Data,
}

/// The ids of `v`, as a predicate.
pub open spec fn member(v: Seq<i64>) -> spec_fn(i64) -> bool {
    |x: i64| v.contains(x)
}

/// A cell card whose id `keep` holds.
pub open spec fn kept_cell(keep: spec_fn(i64) -> bool, c: Card) -> bool {
    c.spec_kind() == CardKind::Cell && (spec_cell_layout(c).id matches Some(id) && keep(id))
}

/// Some kept cell of `m` references surface `s`.
pub open spec fn needed_surface(m: Model, keep: spec_fn(i64) -> bool, s: i64) -> bool {
    exists|j: int|
        0 <= j < m.spec_cards().len() && kept_cell(keep, #[trigger] m.spec_cards()[j])
            && cell_surface_ids(m.spec_cards()[j]).contains(s)
}

/// Some kept cell of `m` is made of material `x` (not void).
pub open spec fn needed_material(m: Model, keep: spec_fn(i64) -> bool, x: i64) -> bool {
    x != 0 && exists|j: int|
        0 <= j < m.spec_cards().len() && kept_cell(keep, #[trigger] m.spec_cards()[j])
            && spec_cell_layout(m.spec_cards()[j]).material == Some(x)
}

/// A surface card some kept cell references.
pub open spec fn kept_surface(m: Model, keep: spec_fn(i64) -> bool, c: Card) -> bool {
    c.spec_kind() == CardKind::Surface && (spec_surface_layout(c).id matches Some(id)
        && needed_surface(m, keep, id))
}

/// Some kept surface of `m` uses transform `t` (its sign dropped).
pub open spec fn needed_transform(m: Model, keep: spec_fn(i64) -> bool, t: i64) -> bool {
    exists|j: int|
        0 <= j < m.spec_cards().len() && kept_surface(m, keep, #[trigger] m.spec_cards()[j]) && (
        spec_surface_layout(m.spec_cards()[j]).transform matches Some(x) && abs_i64(x) == t)
}

/// A material or transform card some kept card needs.
pub open spec fn kept_data(m: Model, keep: spec_fn(i64) -> bool, c: Card) -> bool {
    c.spec_kind() == CardKind::Data && (spec_head(c) matches Some(h) && ((spec_material_id(h) matches Some(
        id,
    ) && needed_material(m, keep, id)) || (spec_transform_id(h) matches Some(t) && needed_transform(
        m,
        keep,
        t,
    ))))
}

pub open spec fn kept(m: Model, keep: spec_fn(i64) -> bool, p: Pick, c: Card) -> bool {
    match p {
        Pick::Cells => kept_cell(keep, c),
        Pick::Surfaces => kept_surface(m, keep, c),
        Pick::Data => kept_data(m, keep, c),
    }
}

/// The texts of the cards of `cards` that `p` keeps, in order.
pub open spec fn picked_text(m: Model, keep: spec_fn(i64) -> bool, p: Pick, cards: Seq<Card>) -> Seq<u8>
    decreases cards.len(),
{
    if cards.len() == 0 {
        Seq::empty()
    } else {
        picked_text(m, keep, p, cards.drop_last()) + if kept(m, keep, p, cards.last()) {
            cards.last().spec_text()
        } else {
            Seq::empty()
        }
    }
}

/// The text of the first title card.
pub open spec fn first_title(cards: Seq<Card>) -> Option<Seq<u8>>
    decreases cards.len(),
{
    if cards.len() == 0 {
        None
    } else {
        match first_title(cards.drop_last()) {
            Some(t) => Some(t),
            None => if cards.last().spec_kind() == CardKind::Title {
                Some(cards.last().spec_text())
            } else {
                None
            },
        }
    }
}

pub open spec fn word_extracted() -> Seq<u8> {
    seq![101u8, 120u8, 116u8, 114u8, 97u8, 99u8, 116u8, 101u8, 100u8]
}

/// The source of the model extracted from `m` for cells `keep`: the title,
/// the kept cells, a blank line, the surfaces they use, a blank line, and
/// the materials and transforms those need, each in file order.
pub open spec fn extract_source(m: Model, keep: spec_fn(i64) -> bool) -> Seq<u8> {
    let eol = eol_bytes(m.spec_cst().spec_eol());
    let cards = m.spec_cards();
    let title = match first_title(cards) {
        Some(t) => t,
        None => word_extracted() + eol,
    };
    title + picked_text(m, keep, Pick::Cells, cards) + eol + picked_text(
        m,
        keep,
        Pick::Surfaces,
        cards,
    ) + eol + picked_text(m, keep, Pick::Data, cards)
}

proof fn lemma_extract_len(m: Model, keep: spec_fn(i64) -> bool, cards: Seq<Card>)
    ensures
        (match first_title(cards) {
            Some(t) => t.len() as int,
            None => 0int,
        }) + picked_text(m, keep, Pick::Cells, cards).len() + picked_text(
            m,
            keep,
            Pick::Surfaces,
            cards,
        ).len() + picked_text(m, keep, Pick::Data, cards).len() <= concat_texts(cards).len(),
    decreases cards.len(),
{
    if cards.len() > 0 {
        lemma_extract_len(m, keep, cards.drop_last());
    }
}

/// A title found in a prefix is the first title of the whole.
proof fn lemma_first_title_prefix(cards: Seq<Card>, m: int)
    requires
        0 <= m <= cards.len(),
        first_title(cards.subrange(0, m)) is Some,
    ensures
        first_title(cards) == first_title(cards.subrange(0, m)),
    decreases cards.len() - m,
{
    if m < cards.len() {
        assert(cards.subrange(0, m + 1).drop_last() =~= cards.subrange(0, m));
        lemma_first_title_prefix(cards, m + 1);
    } else {
        assert(cards.subrange(0, m) =~= cards);
    }
}

/// Position of the first card of kind `k` at or after `from`.
pub open spec fn first_of_kind(cards: Seq<Card>, k: CardKind, from: int) -> Option<int>
    decreases cards.len() - from,
{
    if from < 0 || from >= cards.len() {
        None
    } else if cards[from].spec_kind() == k {
        Some(from)
    } else {
        first_of_kind(cards, k, from + 1)
    }
}

/// The texts of the cards of `cards` whose kind is `a` or `b`, in order.
pub open spec fn kinds_text(cards: Seq<Card>, a: CardKind, b: CardKind) -> Seq<u8>
    decreases cards.len(),
{
    if cards.len() == 0 {
        Seq::empty()
    } else {
        kinds_text(cards.drop_last(), a, b) + if cards.last().spec_kind() == a || cards.last().spec_kind()
            == b {
            cards.last().spec_text()
        } else {
            Seq::empty()
        }
    }
}

pub open spec fn word_cleared() -> Seq<u8> {
    seq![99u8, 108u8, 101u8, 97u8, 114u8, 101u8, 100u8]
}

/// The source of `m` with its data block dropped: the title (or
/// `cleared`), the cells and standalone comments before the first blank
/// line, a blank line, the surfaces and comments between the first and
/// second blank lines, and a blank line.
pub open spec fn cleared_source(m: Model) -> Seq<u8> {
    let cards = m.spec_cards();
    let eol = eol_bytes(m.spec_cst().spec_eol());
    let fb = first_of_kind(cards, CardKind::Blank, 0);
    let cell_end = match fb {
        Some(f) => f,
        None => cards.len() as int,
    };
    let title = match first_title(cards) {
        Some(t) => t,
        None => word_cleared() + eol,
    };
    let surfs = match fb {
        Some(f) => {
            let se = match first_of_kind(cards, CardKind::Blank, f + 1) {
                Some(s) => s,
                None => cards.len() as int,
            };
            kinds_text(cards.subrange(f + 1, se), CardKind::Surface, CardKind::Comment)
        },
        None => Seq::empty(),
    };
    title + kinds_text(cards.subrange(0, cell_end), CardKind::Cell, CardKind::Comment) + eol + surfs
        + eol
}

proof fn lemma_first_of_kind_drop_last(cards: Seq<Card>, k: CardKind, from: int)
    requires
        0 <= from,
        cards.len() > 0,
    ensures
        first_of_kind(cards, k, from) == match first_of_kind(cards.drop_last(), k, from) {
            Some(i) => Some(i),
            None => if from <= cards.len() - 1 && cards.last().spec_kind() == k {
                Some(cards.len() - 1)
            } else {
                None
            },
        },
    decreases cards.len() - from,
{
    if from < cards.len() - 1 {
        assert(cards.drop_last()[from] == cards[from]);
        if cards[from].spec_kind() != k {
            lemma_first_of_kind_drop_last(cards, k, from + 1);
        }
    } else if from == cards.len() - 1 {
        assert(first_of_kind(cards, k, from + 1) is None);
    }
}

proof fn lemma_first_title_is_first_of_kind(cards: Seq<Card>)
    ensures
        match first_of_kind(cards, CardKind::Title, 0) {
            Some(i) => 0 <= i < cards.len() && first_title(cards) == Some(cards[i].spec_text()),
            None => first_title(cards) is None,
        },
    decreases cards.len(),
{
    if cards.len() > 0 {
        lemma_first_title_is_first_of_kind(cards.drop_last());
        lemma_first_of_kind_drop_last(cards, CardKind::Title, 0);
        match first_of_kind(cards.drop_last(), CardKind::Title, 0) {
            Some(i) => {
                assert(cards.drop_last()[i] == cards[i]);
            },
            None => {},
        }
    }
}

/// Model extraction stays within the lexer's limits when the model does,
/// with room for two blank lines and a title.
pub open spec fn extractable(m: Model) -> bool {
    lexable(m.spec_cst().spec_source().len() + 16int)
}

fn append_bytes(out: &mut Vec<u8>, b: &[u8])
    ensures
        final(out)@ == old(out)@ + b@,
{
    let mut v = vstd::slice::slice_to_vec(b);
    out.append(&mut v);
}

fn push_all(out: &mut Vec<i64>, v: &Vec<i64>)
    ensures
        final(out)@ == old(out)@ + v@,
{
    let mut w = vstd::slice::slice_to_vec(v.as_slice());
    out.append(&mut w);
}

/// Cell `x` of `m` declares universe `u` (or, for `None`, no universe).
pub open spec fn cell_of_universe(m: Model, u: Option<i64>, x: i64) -> bool {
    exists|j: int|
        0 <= j < m.spec_cards().len() && (#[trigger] m.spec_cards()[j]).spec_kind() == CardKind::Cell
            && spec_universe(m.spec_cards()[j]) == u && spec_cell_layout(m.spec_cards()[j]).id == Some(
            x,
        )
}

impl Model {
    /// First position at or after `from` holding a card of kind `k`.
    fn find_kind(&self, k: CardKind, from: usize) -> (r: Option<usize>)
        requires
            self.wf(),
        ensures
            match r {
                Some(i) => first_of_kind(self.spec_cards(), k, from as int) == Some(i as int) && from
                    <= i < self.spec_cards().len(),
                None => first_of_kind(self.spec_cards(), k, from as int) is None,
            },
    {
        let n = self.cst().len();
        let mut i = from;
        while i < n
            invariant
                self.wf(),
                n == self.spec_cards().len(),
                from <= i,
                first_of_kind(self.spec_cards(), k, from as int) == first_of_kind(
                    self.spec_cards(),
                    k,
                    i as int,
                ),
            decreases n - i,
        {
            proof {
                self.spec_cst().lemma_wf();
            }
            let card = self.cst().at(i).unwrap();
            assert(*card == self.spec_cards()[i as int]);
            if card.kind() == k {
                return Some(i);
            }
            i = i + 1;
        }
        None
    }

    /// Copy the cards of `[a, b)` whose kind is `k1` or `k2` onto `out`.
    fn copy_kinds(&self, a: usize, b: usize, k1: CardKind, k2: CardKind, out: &mut Vec<Card>)
        requires
            self.wf(),
            a <= b <= self.spec_cards().len(),
            old(out)@.len() + (b - a) <= u32::MAX,
            forall|i: int| 0 <= i < old(out)@.len() ==> (#[trigger] old(out)@[i]).wf(),
        ensures
            concat_texts(final(out)@) == concat_texts(old(out)@) + kinds_text(
                self.spec_cards().subrange(a as int, b as int),
                k1,
                k2,
            ),
            final(out)@.len() <= old(out)@.len() + (b - a),
            forall|i: int| 0 <= i < final(out)@.len() ==> (#[trigger] final(out)@[i]).wf(),
    {
        let ghost start = out@;
        let mut i = a;
        while i < b
            invariant
                self.wf(),
                a <= i <= b <= self.spec_cards().len(),
                out@.len() <= start.len() + (i - a),
                start.len() + (b - a) <= u32::MAX,
                forall|j: int| 0 <= j < out@.len() ==> (#[trigger] out@[j]).wf(),
                concat_texts(out@) == concat_texts(start) + kinds_text(
                    self.spec_cards().subrange(a as int, i as int),
                    k1,
                    k2,
                ),
            decreases b - i,
        {
            proof {
                self.spec_cst().lemma_wf();
                assert(self.spec_cards().subrange(a as int, i + 1).drop_last() =~= self.spec_cards().subrange(
                    a as int,
                    i as int,
                ));
            }
            let card = self.cst().at(i).unwrap();
            assert(*card == self.spec_cards()[i as int]);
            assert(self.spec_cards().subrange(a as int, i + 1).last() == *card);
            let k = card.kind();
            if k == k1 || k == k2 {
                let d = card.duplicate();
                let ghost before = out@;
                out.push(d);
                proof {
                    lemma_concat_push(before, d);
                }
            }
            i = i + 1;
        }
    }

    /// A copy of this model with its title, cells and surfaces kept and its
    /// data block dropped (see [`cleared_source`]); standalone comments in
    /// the cell and surface blocks stay in place. The kept cards are copied,
    /// not re-lexed.
    pub fn clear_data_cards(&self) -> (r: Model)
        requires
            self.wf(),
            self.spec_cards().len() + 3 <= u32::MAX,
        ensures
            r.wf(),
            r.spec_cst().spec_source() == cleared_source(*self),
            r.spec_cst().spec_eol() == self.spec_cst().spec_eol(),
    {
        let eol = self.cst().eol();
        let eb = eol.as_bytes();
        let n = self.cst().len();
        let mut cards: Vec<Card> = Vec::new();
        proof {
            lemma_first_title_is_first_of_kind(self.spec_cards());
        }
        match self.find_kind(CardKind::Title, 0) {
            Some(t) => {
                proof {
                    self.spec_cst().lemma_wf();
                }
                let c = self.cst().at(t).unwrap();
                cards.push(c.duplicate());
            },
            None => {
                let title = self.title_or_word(&eb);
                cards.push(Card::new(CardKind::Title, title));
            },
        }
        assert(concat_texts(cards@) == match first_title(self.spec_cards()) {
            Some(x) => x,
            None => word_cleared() + eb@,
        }) by {
            lemma_concat_push(Seq::<Card>::empty(), cards@[0]);
            assert(cards@ =~= Seq::<Card>::empty().push(cards@[0]));
        }
        let fb = self.find_kind(CardKind::Blank, 0);
        let cell_end = match fb {
            Some(f) => f,
            None => n,
        };
        self.copy_kinds(0, cell_end, CardKind::Cell, CardKind::Comment, &mut cards);
        let blank1 = Card::new(CardKind::Blank, vstd::slice::slice_to_vec(eb.as_slice()));
        let ghost c1 = cards@;
        cards.push(blank1);
        proof {
            lemma_concat_push(c1, blank1);
        }
        match fb {
            Some(f) => {
                let se = match self.find_kind(CardKind::Blank, f + 1) {
                    Some(s2) => s2,
                    None => n,
                };
                self.copy_kinds(f + 1, se, CardKind::Surface, CardKind::Comment, &mut cards);
            },
            None => {},
        }
        let blank2 = Card::new(CardKind::Blank, eb);
        let ghost c2 = cards@;
        cards.push(blank2);
        proof {
            lemma_concat_push(c2, blank2);
        }
        let cst = Cst::from_cards(cards, eol);
        proof {
            crate::cst::lemma_concat_same_texts(cst.spec_cards(), cards@);
        }
        Model::from_cst(cst)
    }

    /// The first title card's text, or `cleared` and a line end.
    fn title_or_word(&self, eol: &Vec<u8>) -> (r: Vec<u8>)
        requires
            self.wf(),
            eol@ == eol_bytes(self.spec_cst().spec_eol()),
        ensures
            r@ == match first_title(self.spec_cards()) {
                Some(t) => t,
                None => word_cleared() + eol@,
            },
            lexable(r@.len() as int),
    {
        let w: [u8; 7] = [99u8, 108u8, 101u8, 97u8, 114u8, 101u8, 100u8];
        assert(w@ == word_cleared());
        match self.find_kind(CardKind::Title, 0) {
            Some(t) => {
                proof {
                    self.spec_cst().lemma_wf();
                    lemma_first_title_is_first_of_kind(self.spec_cards());
                }
                let c = self.cst().at(t).unwrap();
                proof {
                    c.lemma_wf();
                }
                vstd::slice::slice_to_vec(c.text())
            },
            None => {
                proof {
                    lemma_first_title_is_first_of_kind(self.spec_cards());
                }
                let mut out = vstd::slice::slice_to_vec(&w);
                append_bytes(&mut out, eol.as_slice());
                out
            },
        }
    }

    /// The ids of the cells whose universe is `u` (`None`: no `u=`).
    fn universe_cells(&self, u: Option<i64>) -> (r: Vec<i64>)
        requires
            self.wf(),
        ensures
            forall|x: i64| r@.contains(x) <==> cell_of_universe(*self, u, x),
    {
        let n = self.cst().len();
        let mut out: Vec<i64> = Vec::new();
        let mut i: usize = 0;
        while i < n
            invariant
                self.wf(),
                n == self.spec_cards().len(),
                i <= n,
                forall|x: i64|
                    out@.contains(x) <==> exists|j: int|
                        0 <= j < i && (#[trigger] self.spec_cards()[j]).spec_kind() == CardKind::Cell
                            && spec_universe(self.spec_cards()[j]) == u && spec_cell_layout(
                            self.spec_cards()[j],
                        ).id == Some(x),
            decreases n - i,
        {
            proof {
                self.spec_cst().lemma_wf();
            }
            let card = self.cst().at(i).unwrap();
            let ghost c = *card;
            assert(c == self.spec_cards()[i as int]);
            let ghost o0 = out@;
            if card.kind() == CardKind::Cell {
                let v = CellView::new(self, card.slot());
                assert(v.spec_card() == c);
                if v.universe() == u {
                    match v.id() {
                        Some(id) => {
                            out.push(id);
                        },
                        None => {},
                    }
                }
            }
            proof {
                assert forall|x: i64|
                    out@.contains(x) <==> exists|j: int|
                        0 <= j < i + 1 && (#[trigger] self.spec_cards()[j]).spec_kind() == CardKind::Cell
                            && spec_universe(self.spec_cards()[j]) == u && spec_cell_layout(
                            self.spec_cards()[j],
                        ).id == Some(x) by {
                    if out@.len() > o0.len() {
                        if out@.contains(x) {
                            let k = choose|k: int| 0 <= k < out@.len() && out@[k] == x;
                            if k < o0.len() {
                                assert(o0[k] == x);
                            }
                        }
                        if o0.contains(x) {
                            let k = choose|k: int| 0 <= k < o0.len() && o0[k] == x;
                            assert(out@[k] == x);
                        }
                        assert(out@[o0.len() as int] == spec_cell_layout(c).id->0);
                    } else {
                        assert(out@ == o0);
                    }
                }
            }
            i = i + 1;
        }
        out
    }

    /// A standalone model of universe `u`'s cells and the surfaces,
    /// materials and transforms they use. Universes those cells fill are not
    /// pulled in.
    pub fn extract_universe(&self, u: i64) -> (r: Model)
        requires
            self.wf(),
            no_min_refs(*self),
            extractable(*self),
        ensures
            r.wf(),
            r.spec_cst().spec_source() == extract_source(
                *self,
                |x: i64| cell_of_universe(*self, Some(u), x),
            ),
    {
        let keep = self.universe_cells(Some(u));
        proof {
            assert(member(keep@) =~= |x: i64| cell_of_universe(*self, Some(u), x));
        }
        self.extract(&keep)
    }

    /// A standalone model of the level-0 cells (no `u=`) and the surfaces,
    /// materials and transforms they use. Universes they fill are not pulled
    /// in.
    pub fn extract_level0(&self) -> (r: Model)
        requires
            self.wf(),
            no_min_refs(*self),
            extractable(*self),
        ensures
            r.wf(),
            r.spec_cst().spec_source() == extract_source(
                *self,
                |x: i64| cell_of_universe(*self, None, x),
            ),
    {
        let keep = self.universe_cells(None);
        proof {
            assert(member(keep@) =~= |x: i64| cell_of_universe(*self, None, x));
        }
        self.extract(&keep)
    }

    /// The surfaces and materials the kept cells use.
    fn cell_needs(&self, keep: &Vec<i64>, keep_set: &FxHashSet<i64>) -> (r: (Vec<i64>, Vec<i64>))
        requires
            self.wf(),
            no_min_refs(*self),
            forall|x: i64| keep_set@.contains(x) <==> keep@.contains(x),
        ensures
            forall|x: i64| r.0@.contains(x) <==> needed_surface(*self, member(keep@), x),
            forall|x: i64| r.1@.contains(x) <==> needed_material(*self, member(keep@), x),
    {
        let n = self.cst().len();
        let mut surf: Vec<i64> = Vec::new();
        let mut mats: Vec<i64> = Vec::new();
        let mut i: usize = 0;
        while i < n
            invariant
                self.wf(),
                no_min_refs(*self),
                forall|x: i64| keep_set@.contains(x) <==> keep@.contains(x),
                n == self.spec_cards().len(),
                i <= n,
                forall|x: i64|
                    surf@.contains(x) <==> exists|j: int|
                        0 <= j < i && kept_cell(member(keep@), #[trigger] self.spec_cards()[j])
                            && cell_surface_ids(self.spec_cards()[j]).contains(x),
                forall|x: i64|
                    mats@.contains(x) <==> (x != 0 && exists|j: int|
                        0 <= j < i && kept_cell(member(keep@), #[trigger] self.spec_cards()[j])
                            && spec_cell_layout(self.spec_cards()[j]).material == Some(x)),
            decreases n - i,
        {
            proof {
                self.spec_cst().lemma_wf();
            }
            let card = self.cst().at(i).unwrap();
            let ghost c = *card;
            assert(c == self.spec_cards()[i as int]);
            let ghost s0 = surf@;
            let ghost m0 = mats@;
            if card.kind() == CardKind::Cell {
                let v = CellView::new(self, card.slot());
                assert(v.spec_card() == c);
                match v.id() {
                    Some(id) => {
                        if fx_set_contains(keep_set, id) {
                            proof {
                                assert(no_min_refs(*self));
                                assert(c == self.spec_cards()[i as int]);
                            }
                            let ids = v.surface_ids();
                            push_all(&mut surf, &ids);
                            match v.material() {
                                Some(m) => {
                                    if m != 0 {
                                        mats.push(m);
                                    }
                                },
                                None => {},
                            }
                            proof {
                                assert forall|x: i64| surf@.contains(x) <==> (s0.contains(x)
                                    || cell_surface_ids(c).contains(x)) by {
                                    if surf@.contains(x) {
                                        let k = choose|k: int| 0 <= k < surf@.len() && surf@[k] == x;
                                        if k >= s0.len() {
                                            assert(cell_surface_ids(c)[k - s0.len()] == x);
                                        } else {
                                            assert(s0[k] == x);
                                        }
                                    }
                                    if s0.contains(x) {
                                        let k = choose|k: int| 0 <= k < s0.len() && s0[k] == x;
                                        assert(surf@[k] == x);
                                    }
                                    if cell_surface_ids(c).contains(x) {
                                        let k = choose|k: int| 0 <= k < cell_surface_ids(c).len() && cell_surface_ids(c)[k] == x;
                                        assert(surf@[s0.len() + k] == x);
                                    }
                                }
                                assert forall|x: i64| mats@.contains(x) <==> (m0.contains(x) || (x
                                    != 0 && spec_cell_layout(c).material == Some(x))) by {
                                    if mats@.contains(x) {
                                        let k = choose|k: int| 0 <= k < mats@.len() && mats@[k] == x;
                                        if k < m0.len() {
                                            assert(m0[k] == x);
                                        }
                                    }
                                    if m0.contains(x) {
                                        let k = choose|k: int| 0 <= k < m0.len() && m0[k] == x;
                                        assert(mats@[k] == x);
                                    }
                                    if x != 0 && spec_cell_layout(c).material == Some(x) {
                                        assert(mats@[m0.len() as int] == x);
                                    }
                                }
                            }
                        }
                    },
                    None => {},
                }
            }
            proof {
                assert forall|x: i64|
                    surf@.contains(x) <==> exists|j: int|
                        0 <= j < i + 1 && kept_cell(member(keep@), #[trigger] self.spec_cards()[j])
                            && cell_surface_ids(self.spec_cards()[j]).contains(x) by {
                    if kept_cell(member(keep@), c) {
                        assert(surf@.contains(x) <==> (s0.contains(x) || cell_surface_ids(c).contains(
                            x,
                        )));
                    } else {
                        assert(surf@ == s0);
                    }
                }
                assert forall|x: i64|
                    mats@.contains(x) <==> (x != 0 && exists|j: int|
                        0 <= j < i + 1 && kept_cell(member(keep@), #[trigger] self.spec_cards()[j])
                            && spec_cell_layout(self.spec_cards()[j]).material == Some(x)) by {
                    if kept_cell(member(keep@), c) {
                        assert(mats@.contains(x) <==> (m0.contains(x) || (x != 0 && spec_cell_layout(
                            c,
                        ).material == Some(x))));
                    } else {
                        assert(mats@ == m0);
                    }
                }
            }
            i = i + 1;
        }
        (surf, mats)
    }

    /// The transforms the kept surfaces use.
    fn surface_needs(&self, keep: &Vec<i64>, surf_ids: &FxHashSet<i64>) -> (r: Vec<i64>)
        requires
            self.wf(),
            no_min_refs(*self),
            forall|x: i64| surf_ids@.contains(x) <==> needed_surface(*self, member(keep@), x),
        ensures
            forall|x: i64| r@.contains(x) <==> needed_transform(*self, member(keep@), x),
    {
        let n = self.cst().len();
        let mut trs: Vec<i64> = Vec::new();
        let mut i: usize = 0;
        while i < n
            invariant
                self.wf(),
                no_min_refs(*self),
                n == self.spec_cards().len(),
                i <= n,
                forall|x: i64| surf_ids@.contains(x) <==> needed_surface(*self, member(keep@), x),
                forall|x: i64|
                    trs@.contains(x) <==> exists|j: int|
                        0 <= j < i && kept_surface(*self, member(keep@), #[trigger] self.spec_cards()[j]) && (
                        spec_surface_layout(self.spec_cards()[j]).transform matches Some(t) && abs_i64(t)
                            == x),
            decreases n - i,
        {
            proof {
                self.spec_cst().lemma_wf();
            }
            let card = self.cst().at(i).unwrap();
            let ghost c = *card;
            assert(c == self.spec_cards()[i as int]);
            let ghost t0 = trs@;
            if card.kind() == CardKind::Surface {
                let l = crate::surface::layout(card);
                match l.id {
                    Some(id) => {
                        if fx_set_contains(surf_ids, id) {
                            match l.transform {
                                Some(t) => {
                                    proof {
                                        assert(no_min_refs(*self));
                                        assert(c == self.spec_cards()[i as int]);
                                    }
                                    let a = if t < 0 {
                                        -t
                                    } else {
                                        t
                                    };
                                    trs.push(a);
                                },
                                None => {},
                            }
                        }
                    },
                    None => {},
                }
            }
            proof {
                assert forall|x: i64|
                    trs@.contains(x) <==> exists|j: int|
                        0 <= j < i + 1 && kept_surface(*self, member(keep@), #[trigger] self.spec_cards()[j]) && (
                        spec_surface_layout(self.spec_cards()[j]).transform matches Some(t) && abs_i64(t)
                            == x) by {
                    if trs@.len() > t0.len() {
                        if trs@.contains(x) {
                            let k = choose|k: int| 0 <= k < trs@.len() && trs@[k] == x;
                            if k < t0.len() {
                                assert(t0[k] == x);
                            }
                        }
                        if t0.contains(x) {
                            let k = choose|k: int| 0 <= k < t0.len() && t0[k] == x;
                            assert(trs@[k] == x);
                        }
                        assert(trs@[t0.len() as int] == abs_i64(spec_surface_layout(c).transform->0));
                    } else {
                        assert(trs@ == t0);
                    }
                }
            }
            i = i + 1;
        }
        trs
    }

    /// A standalone model of the cells `keep` names and the surfaces,
    /// materials and transforms they use (see [`extract_source`]).
    fn extract(&self, keep: &Vec<i64>) -> (r: Model)
        requires
            self.wf(),
            no_min_refs(*self),
            extractable(*self),
        ensures
            r.wf(),
            r.spec_cst().spec_source() == extract_source(*self, member(keep@)),
    {
        let keep_set = id_set(keep);
        let (surf, mats) = self.cell_needs(keep, &keep_set);
        let surf_set = id_set(&surf);
        let trs = self.surface_needs(keep, &surf_set);
        let mat_set = id_set(&mats);
        let tr_set = id_set(&trs);
        let cells = self.picked(keep, &keep_set, Pick::Cells, &surf_set, &mat_set, &tr_set);
        let surfaces = self.picked(keep, &keep_set, Pick::Surfaces, &surf_set, &mat_set, &tr_set);
        let data = self.picked(keep, &keep_set, Pick::Data, &surf_set, &mat_set, &tr_set);
        let eol = self.cst().eol().as_bytes();
        let title = self.title_or(&eol);
        let mut src: Vec<u8> = Vec::new();
        append_bytes(&mut src, title.as_slice());
        append_bytes(&mut src, cells.as_slice());
        append_bytes(&mut src, eol.as_slice());
        append_bytes(&mut src, surfaces.as_slice());
        append_bytes(&mut src, eol.as_slice());
        append_bytes(&mut src, data.as_slice());
        proof {
            lemma_extract_len(*self, member(keep@), self.spec_cards());
            assert(src@ == extract_source(*self, member(keep@)));
            assert(self.spec_cst().spec_source() == concat_texts(self.spec_cards()));
        }
        match Model::try_parse_bytes(src.as_slice()) {
            Some(m) => m,
            None => {
                proof {
                    assert(false);
                }
                Model::from_cst(Cst::from_cards(Vec::new(), crate::kind::Eol::Lf))
            },
        }
    }

    /// The first title card's text, or `extracted` and a line end.
    fn title_or(&self, eol: &Vec<u8>) -> (r: Vec<u8>)
        requires
            self.wf(),
            eol@ == eol_bytes(self.spec_cst().spec_eol()),
        ensures
            r@ == match first_title(self.spec_cards()) {
                Some(t) => t,
                None => word_extracted() + eol_bytes(self.spec_cst().spec_eol()),
            },
    {
        let n = self.cst().len();
        let mut i: usize = 0;
        while i < n
            invariant
                self.wf(),
                n == self.spec_cards().len(),
                i <= n,
                first_title(self.spec_cards().subrange(0, i as int)) is None,
            decreases n - i,
        {
            proof {
                self.spec_cst().lemma_wf();
            }
            let card = self.cst().at(i).unwrap();
            assert(*card == self.spec_cards()[i as int]);
            proof {
                assert(self.spec_cards().subrange(0, i + 1).drop_last() =~= self.spec_cards().subrange(
                    0,
                    i as int,
                ));
            }
            if card.kind() == CardKind::Title {
                proof {
                    lemma_first_title_prefix(self.spec_cards(), i + 1);
                }
                return vstd::slice::slice_to_vec(card.text());
            }
            i = i + 1;
        }
        proof {
            assert(self.spec_cards().subrange(0, n as int) =~= self.spec_cards());
        }
        let w: [u8; 9] = [101u8, 120u8, 116u8, 114u8, 97u8, 99u8, 116u8, 101u8, 100u8];
        assert(w@ == word_extracted());
        let mut out = vstd::slice::slice_to_vec(&w);
        append_bytes(&mut out, eol.as_slice());
        out
    }

    /// The texts of the cards `p` keeps, in file order.
    fn picked(
        &self,
        keep: &Vec<i64>,
        keep_set: &FxHashSet<i64>,
        p: Pick,
        surf_ids: &FxHashSet<i64>,
        mat_ids: &FxHashSet<i64>,
        tr_ids: &FxHashSet<i64>,
    ) -> (r: Vec<u8>)
        requires
            self.wf(),
            no_min_refs(*self),
            forall|x: i64| keep_set@.contains(x) <==> keep@.contains(x),
            p == Pick::Surfaces ==> forall|x: i64| surf_ids@.contains(x) <==> needed_surface(*self, member(keep@), x),
            p == Pick::Data ==> forall|x: i64| mat_ids@.contains(x) <==> needed_material(*self, member(keep@), x),
            p == Pick::Data ==> forall|x: i64| tr_ids@.contains(x) <==> needed_transform(*self, member(keep@), x),
        ensures
            r@ == picked_text(*self, member(keep@), p, self.spec_cards()),
    {
        let n = self.cst().len();
        let mut out: Vec<u8> = Vec::new();
        let mut i: usize = 0;
        while i < n
            invariant
                self.wf(),
                no_min_refs(*self),
                forall|x: i64| keep_set@.contains(x) <==> keep@.contains(x),
                n == self.spec_cards().len(),
                i <= n,
                p == Pick::Surfaces ==> forall|x: i64| surf_ids@.contains(x) <==> needed_surface(*self, member(keep@), x),
                p == Pick::Data ==> forall|x: i64| mat_ids@.contains(x) <==> needed_material(*self, member(keep@), x),
                p == Pick::Data ==> forall|x: i64| tr_ids@.contains(x) <==> needed_transform(*self, member(keep@), x),
                out@ == picked_text(*self, member(keep@), p, self.spec_cards().subrange(0, i as int)),
            decreases n - i,
        {
            proof {
                self.spec_cst().lemma_wf();
            }
            let card = self.cst().at(i).unwrap();
            let ghost c = *card;
            assert(c == self.spec_cards()[i as int]);
            proof {
                assert(self.spec_cards().subrange(0, i + 1).drop_last() =~= self.spec_cards().subrange(
                    0,
                    i as int,
                ));
                assert(self.spec_cards().subrange(0, i + 1).last() == c);
            }
            let take = match p {
                Pick::Cells => {
                    card.kind() == CardKind::Cell && match crate::cell::layout(card).id {
                        Some(id) => fx_set_contains(keep_set, id),
                        None => false,
                    }
                },
                Pick::Surfaces => {
                    card.kind() == CardKind::Surface && match crate::surface::layout(card).id {
                        Some(id) => fx_set_contains(surf_ids, id),
                        None => false,
                    }
                },
                Pick::Data => {
                    card.kind() == CardKind::Data && match crate::data::head(card) {
                        Some(h) => {
                            (match crate::data::material_id(&h) {
                                Some(id) => fx_set_contains(mat_ids, id),
                                None => false,
                            }) || (match crate::data::transform_id(&h) {
                                Some(t) => fx_set_contains(tr_ids, t),
                                None => false,
                            })
                        },
                        None => false,
                    }
                },
            };
            assert(take == kept(*self, member(keep@), p, c));
            if take {
                append_bytes(&mut out, card.text());
            }
            i = i + 1;
        }
        proof {
            assert(self.spec_cards().subrange(0, n as int) =~= self.spec_cards());
        }
        out
    }
}

/// The kind of id family a [`Collision`] occurred in.
#[derive(Debug, Clone, Copy, PartialEq, Eq, PartialOrd, Ord, Structural)]
pub enum IdKind {
    Cell,
    Surface,
    Material,
    Transform,
}

pub open spec fn family_of(k: IdKind) -> Family {
    match k {
        IdKind::Cell => Family::Cell,
        IdKind::Surface => Family::Surface,
        IdKind::Material => Family::Material,
        IdKind::Transform => Family::Transform,
    }
}

/// A [`Model::merge`] failure: `id` is defined by more than one of the
/// models being combined. `models` are their indices into `[self] ++
/// others`, ascending.
#[derive(Debug, Clone, PartialEq, Eq, PartialOrd, Ord)]
pub struct Collision {
    pub kind: IdKind,
    pub id: i64,
    pub models: Vec<usize>,
}

pub open spec fn word_duplicate() -> Seq<u8> {
    seq![100u8, 117u8, 112u8, 108u8, 105u8, 99u8, 97u8, 116u8, 101u8, 32u8]
}

pub open spec fn word_id() -> Seq<u8> {
    seq![32u8, 105u8, 100u8, 32u8]
}

pub open spec fn word_models() -> Seq<u8> {
    seq![32u8, 40u8, 109u8, 111u8, 100u8, 101u8, 108u8, 115u8, 32u8]
}

pub open spec fn word_sep() -> Seq<u8> {
    seq![44u8, 32u8]
}

pub open spec fn word_close() -> Seq<u8> {
    seq![41u8]
}

pub open spec fn word_kind_cell() -> Seq<u8> {
    seq![99u8, 101u8, 108u8, 108u8]
}

pub open spec fn word_kind_surface() -> Seq<u8> {
    seq![115u8, 117u8, 114u8, 102u8, 97u8, 99u8, 101u8]
}

pub open spec fn word_kind_material() -> Seq<u8> {
    seq![109u8, 97u8, 116u8, 101u8, 114u8, 105u8, 97u8, 108u8]
}

pub open spec fn word_kind_transform() -> Seq<u8> {
    seq![116u8, 114u8, 97u8, 110u8, 115u8, 102u8, 111u8, 114u8, 109u8]
}

pub open spec fn kind_word(k: IdKind) -> Seq<u8> {
    match k {
        IdKind::Cell => word_kind_cell(),
        IdKind::Surface => word_kind_surface(),
        IdKind::Material => word_kind_material(),
        IdKind::Transform => word_kind_transform(),
    }
}

/// The model indices of a collision, separated by `, `.
pub open spec fn join_indices(v: Seq<usize>) -> Seq<u8>
    decreases v.len(),
{
    if v.len() == 0 {
        Seq::empty()
    } else if v.len() == 1 {
        int_text(v[0] as int)
    } else {
        join_indices(v.drop_last()) + word_sep() + int_text(v.last() as int)
    }
}

/// `duplicate cell id 1 (models 0, 1)`.
pub open spec fn collision_message(kind: IdKind, id: i64, models: Seq<usize>) -> Seq<u8> {
    word_duplicate() + kind_word(kind) + word_id() + int_text(id as int) + word_models() + join_indices(
        models,
    ) + word_close()
}

impl Collision {
    /// The human-readable message for this collision.
    pub fn message(&self) -> (r: Vec<u8>)
        ensures
            r@ == collision_message(self.kind, self.id, self.models@),
    {
        let word_duplicate_b: [u8; 10] = [100u8, 117u8, 112u8, 108u8, 105u8, 99u8, 97u8, 116u8, 101u8, 32u8];
        let word_id_b: [u8; 4] = [32u8, 105u8, 100u8, 32u8];
        let word_models_b: [u8; 9] = [32u8, 40u8, 109u8, 111u8, 100u8, 101u8, 108u8, 115u8, 32u8];
        let word_sep_b: [u8; 2] = [44u8, 32u8];
        let word_close_b: [u8; 1] = [41u8];
        let word_kind_cell_b: [u8; 4] = [99u8, 101u8, 108u8, 108u8];
        let word_kind_surface_b: [u8; 7] = [115u8, 117u8, 114u8, 102u8, 97u8, 99u8, 101u8];
        let word_kind_material_b: [u8; 8] = [109u8, 97u8, 116u8, 101u8, 114u8, 105u8, 97u8, 108u8];
        let word_kind_transform_b: [u8; 9] = [116u8, 114u8, 97u8, 110u8, 115u8, 102u8, 111u8, 114u8, 109u8];
        assert(word_duplicate_b@ == word_duplicate());
        assert(word_id_b@ == word_id());
        assert(word_models_b@ == word_models());
        assert(word_sep_b@ == word_sep());
        assert(word_close_b@ == word_close());
        assert(word_kind_cell_b@ == word_kind_cell());
        assert(word_kind_surface_b@ == word_kind_surface());
        assert(word_kind_material_b@ == word_kind_material());
        assert(word_kind_transform_b@ == word_kind_transform());
        let mut out = vstd::slice::slice_to_vec(&word_duplicate_b);
        let kw: &[u8] = match self.kind {
            IdKind::Cell => &word_kind_cell_b,
            IdKind::Surface => &word_kind_surface_b,
            IdKind::Material => &word_kind_material_b,
            IdKind::Transform => &word_kind_transform_b,
        };
        append_bytes(&mut out, kw);
        append_bytes(&mut out, &word_id_b);
        let mut idt = fmt_int(self.id);
        out.append(&mut idt);
        append_bytes(&mut out, &word_models_b);
        let ghost head = out@;
        let mut k: usize = 0;
        while k < self.models.len()
            invariant
                k <= self.models@.len(),
                word_sep_b@ == word_sep(),
                out@ == head + join_indices(self.models@.subrange(0, k as int)),
            decreases self.models@.len() - k,
        {
            proof {
                assert(self.models@.subrange(0, k + 1).drop_last() =~= self.models@.subrange(0, k as int));
            }
            if k > 0 {
                append_bytes(&mut out, &word_sep_b);
            }
            let v = self.models[k];
            let mut t = crate::decimal::fmt_u64(v as u64);
            out.append(&mut t);
            proof {
                if k == 0 {
                    assert(self.models@.subrange(0, 1) =~= seq![v]);
                }
            }
            k = k + 1;
        }
        proof {
            assert(self.models@.subrange(0, self.models@.len() as int) =~= self.models@);
        }
        append_bytes(&mut out, &word_close_b);
        out
    }
}

/// Model `m` has a card of family `f` that defines `id`.
pub open spec fn defines(m: Model, f: Family, id: i64) -> bool {
    first_definition(m.spec_cards(), f, id) is Some
}

/// Indices of the first `n` models that define `id`, ascending.
pub open spec fn definers(ms: Seq<Model>, f: Family, id: i64, n: int) -> Seq<usize>
    decreases n,
{
    if n <= 0 {
        Seq::empty()
    } else {
        definers(ms, f, id, n - 1) + if defines(ms[n - 1], f, id) {
            seq![(n - 1) as usize]
        } else {
            Seq::empty()
        }
    }
}

/// The collisions among `ms` in family `kind`: for every id defined by two
/// or more of them, in increasing id order, the ids of the models that
/// define it.
pub open spec fn collisions_ok(ms: Seq<Model>, kind: IdKind, r: Seq<Collision>) -> bool {
    let f = family_of(kind);
    &&& forall|i: int, j: int| 0 <= i < j < r.len() ==> (#[trigger] r[i]).id < (#[trigger] r[j]).id
    &&& forall|k: int|
        0 <= k < r.len() ==> (#[trigger] r[k]).kind == kind && r[k].models@ == definers(
            ms,
            f,
            r[k].id,
            ms.len() as int,
        ) && r[k].models@.len() >= 2
    &&& forall|id: i64|
        definers(ms, f, id, ms.len() as int).len() >= 2 ==> exists|k: int|
            0 <= k < r.len() && (#[trigger] r[k]).id == id
}

fn family_exec(kind: IdKind) -> (f: Family)
    ensures
        f == family_of(kind),
{
    match kind {
        IdKind::Cell => Family::Cell,
        IdKind::Surface => Family::Surface,
        IdKind::Material => Family::Material,
        IdKind::Transform => Family::Transform,
    }
}

/// One of the first `i` cards of `m` defines `x` in family `f`.
pub open spec fn defined_upto(m: Model, f: Family, x: i64, i: int) -> bool {
    exists|j: int| 0 <= j < i && defined_id(f, #[trigger] m.spec_cards()[j]) == Some(x)
}

proof fn lemma_defined_upto_step(m: Model, f: Family, x: i64, i: int)
    requires
        0 <= i < m.spec_cards().len(),
    ensures
        defined_upto(m, f, x, i + 1) == (defined_upto(m, f, x, i) || defined_id(
            f,
            m.spec_cards()[i],
        ) == Some(x)),
{
    if defined_upto(m, f, x, i + 1) {
        let j = choose|j: int| 0 <= j < i + 1 && defined_id(f, #[trigger] m.spec_cards()[j]) == Some(x);
        if j < i {
            assert(defined_upto(m, f, x, i));
        }
    }
    if defined_id(f, m.spec_cards()[i]) == Some(x) {
        assert(defined_upto(m, f, x, i + 1));
    }
    if defined_upto(m, f, x, i) {
        let j = choose|j: int| 0 <= j < i && defined_id(f, #[trigger] m.spec_cards()[j]) == Some(x);
        assert(defined_upto(m, f, x, i + 1));
    }
}

proof fn lemma_defined_upto_all(m: Model, f: Family, x: i64)
    ensures
        defined_upto(m, f, x, m.spec_cards().len() as int) == defines(m, f, x),
{
    lemma_first_definition(m.spec_cards(), f, x);
    if defines(m, f, x) {
        let j = first_definition(m.spec_cards(), f, x)->0;
        assert(defined_id(f, m.spec_cards()[j]) == Some(x));
    }
}

/// The models a list of references names.
pub open spec fn deref_all(v: Seq<&Model>) -> Seq<Model> {
    Seq::new(v.len(), |i: int| *v[i])
}

/// One of the first `k` models defines `x` in family `f`.
pub open spec fn some_defines(ms: Seq<Model>, f: Family, x: i64, k: int) -> bool {
    exists|q: int| 0 <= q < k && defines(#[trigger] ms[q], f, x)
}

proof fn lemma_some_defines_step(ms: Seq<Model>, f: Family, x: i64, k: int)
    requires
        0 <= k < ms.len(),
    ensures
        some_defines(ms, f, x, k + 1) == (some_defines(ms, f, x, k) || defines(ms[k], f, x)),
{
    if some_defines(ms, f, x, k + 1) {
        let q = choose|q: int| 0 <= q < k + 1 && defines(#[trigger] ms[q], f, x);
        if q < k {
            assert(some_defines(ms, f, x, k));
        }
    }
    if defines(ms[k], f, x) {
        assert(some_defines(ms, f, x, k + 1));
    }
    if some_defines(ms, f, x, k) {
        let q = choose|q: int| 0 <= q < k && defines(#[trigger] ms[q], f, x);
        assert(some_defines(ms, f, x, k + 1));
    }
}

/// Every id some model defines in family `f`, ascending, each once.
fn defined_ids(models: &Vec<&Model>, f: Family) -> (r: Vec<i64>)
    requires
        forall|k: int| 0 <= k < models@.len() ==> (#[trigger] models@[k]).wf(),
    ensures
        forall|i: int, j: int| 0 <= i < j < r@.len() ==> r@[i] < r@[j],
        forall|x: i64| #[trigger] r@.contains(x) <==> some_defines(deref_all(models@), f, x, models@.len() as int),
{
    let mut out: Vec<i64> = Vec::new();
    let mut k: usize = 0;
    while k < models.len()
        invariant
            forall|q: int| 0 <= q < models@.len() ==> (#[trigger] models@[q]).wf(),
            k <= models@.len(),
            forall|i: int, j: int| 0 <= i < j < out@.len() ==> out@[i] < out@[j],
            forall|x: i64| #[trigger] out@.contains(x) <==> some_defines(deref_all(models@), f, x, k as int),
        decreases models@.len() - k,
    {
        let m = models[k];
        let n = m.cst().len();
        let ghost o0 = out@;
        let mut i: usize = 0;
        while i < n
            invariant
                m.wf(),
                n == m.spec_cards().len(),
                i <= n,
                forall|a: int, b: int| 0 <= a < b < out@.len() ==> out@[a] < out@[b],
                forall|x: i64|
                    #[trigger] out@.contains(x) <==> (o0.contains(x) || defined_upto(*m, f, x, i as int)),
            decreases n - i,
        {
            proof {
                m.spec_cst().lemma_wf();
            }
            let card = m.cst().at(i).unwrap();
            assert(*card == m.spec_cards()[i as int]);
            let ghost b = out@;
            let d = Model::defined_id(card, f);
            match d {
                Some(x) => {
                    insert_id(&mut out, x);
                },
                None => {},
            }
            proof {
                assert forall|x: i64|
                    #[trigger] out@.contains(x) <==> (o0.contains(x) || defined_upto(*m, f, x, i + 1)) by {
                    lemma_defined_upto_step(*m, f, x, i as int);
                    assert(b.contains(x) <==> (o0.contains(x) || defined_upto(*m, f, x, i as int)));
                }
            }
            i = i + 1;
        }
        proof {
            assert forall|x: i64| #[trigger] out@.contains(x) <==> some_defines(deref_all(models@), f, x, k + 1) by {
                lemma_some_defines_step(deref_all(models@), f, x, k as int);
                lemma_defined_upto_all(*m, f, x);
                assert(o0.contains(x) <==> some_defines(deref_all(models@), f, x, k as int));
            }
        }
        k = k + 1;
    }
    out
}

/// Ids defined in more than one of `models` for one family.
#[verifier::spinoff_prover]
#[verifier::rlimit(50)]
fn shared_ids(models: &Vec<&Model>, kind: IdKind) -> (r: Vec<Collision>)
    requires
        forall|k: int| 0 <= k < models@.len() ==> (#[trigger] models@[k]).wf(),
    ensures
        collisions_ok(deref_all(models@), kind, r@),
{
    let f = family_exec(kind);
    let ids = defined_ids(models, f);
    let mut out: Vec<Collision> = Vec::new();
    let mut j: usize = 0;
    while j < ids.len()
        invariant
            forall|k: int| 0 <= k < models@.len() ==> (#[trigger] models@[k]).wf(),
            f == family_of(kind),
            j <= ids@.len(),
            forall|a: int, b: int| 0 <= a < b < ids@.len() ==> ids@[a] < ids@[b],
            forall|x: i64| #[trigger] ids@.contains(x) <==> some_defines(deref_all(models@), f, x, models@.len() as int),
            forall|a: int, b: int| 0 <= a < b < out@.len() ==> (#[trigger] out@[a]).id < (#[trigger] out@[b]).id,
            forall|a: int| 0 <= a < out@.len() ==> exists|b: int| 0 <= b < j && ids@[b] == (#[trigger] out@[a]).id,
            forall|k: int|
                0 <= k < out@.len() ==> (#[trigger] out@[k]).kind == kind && out@[k].models@ == definers(
                    deref_all(models@),
                    f,
                    out@[k].id,
                    models@.len() as int,
                ) && out@[k].models@.len() >= 2,
            forall|b: int|
                0 <= b < j && definers(deref_all(models@), f, ids@[b], models@.len() as int).len() >= 2 ==> exists|k: int|
                    0 <= k < out@.len() && (#[trigger] out@[k]).id == ids@[b],
        decreases ids@.len() - j,
    {
        let x = ids[j];
        let mut ks: Vec<usize> = Vec::new();
        let mut k: usize = 0;
        while k < models.len()
            invariant
                forall|q: int| 0 <= q < models@.len() ==> (#[trigger] models@[q]).wf(),
                k <= models@.len(),
                ks@ == definers(deref_all(models@), f, x, k as int),
            decreases models@.len() - k,
        {
            if models[k].find_definition(f, x).is_some() {
                ks.push(k);
            }
            k = k + 1;
        }
        let ghost before = out@;
        if ks.len() >= 2 {
            out.push(Collision { kind, id: x, models: ks });
            proof {
                assert forall|a: int, b: int| 0 <= a < b < out@.len() implies (#[trigger] out@[a]).id < (
                #[trigger] out@[b]).id by {
                    if b == out@.len() - 1 {
                        let c = choose|c: int| 0 <= c < j && ids@[c] == before[a].id;
                        assert(out@[a] == before[a]);
                    } else {
                        assert(out@[a] == before[a] && out@[b] == before[b]);
                    }
                }
            }
        }
        proof {
            assert forall|a: int| 0 <= a < out@.len() implies exists|b: int| 0 <= b < j + 1 && ids@[b] == (
            #[trigger] out@[a]).id by {
                if a < before.len() {
                    assert(out@[a] == before[a]);
                    let c = choose|c: int| 0 <= c < j && ids@[c] == before[a].id;
                } else {
                    assert(ids@[j as int] == out@[a].id);
                }
            }
            assert forall|b: int|
                0 <= b < j + 1 && definers(deref_all(models@), f, ids@[b], models@.len() as int).len() >= 2 implies exists|k: int|
                    0 <= k < out@.len() && (#[trigger] out@[k]).id == ids@[b] by {
                if b < j {
                    let k = choose|k: int| 0 <= k < before.len() && (#[trigger] before[k]).id == ids@[b];
                    assert(out@[k] == before[k]);
                } else {
                    assert(out@[out@.len() - 1].id == ids@[b]);
                }
            }
        }
        j = j + 1;
    }
    proof {
        assert forall|id: i64|
            definers(deref_all(models@), f, id, models@.len() as int).len() >= 2 implies exists|k: int|
                0 <= k < out@.len() && (#[trigger] out@[k]).id == id by {
            lemma_definers_nonempty(deref_all(models@), f, id, models@.len() as int);
            assert(ids@.contains(id));
            let b = choose|b: int| 0 <= b < ids@.len() && ids@[b] == id;
        }
    }
    out
}

proof fn lemma_definers_nonempty(ms: Seq<Model>, f: Family, id: i64, n: int)
    requires
        definers(ms, f, id, n).len() > 0,
        n <= ms.len(),
    ensures
        some_defines(ms, f, id, n),
    decreases n,
{
    if n > 0 {
        if !defines(ms[n - 1], f, id) {
            lemma_definers_nonempty(ms, f, id, n - 1);
            let q = choose|q: int| 0 <= q < n - 1 && defines(#[trigger] ms[q], f, id);
            assert(some_defines(ms, f, id, n));
        } else {
            assert(some_defines(ms, f, id, n));
        }
    }
}

/// The content kind a standalone comment at the end of `cards` would travel
/// with: the kind of the last cell, surface or data card, if any.
pub open spec fn owner(cards: Seq<Card>) -> Option<CardKind>
    decreases cards.len(),
{
    if cards.len() == 0 {
        None
    } else {
        let k = cards.last().spec_kind();
        if k == CardKind::Cell || k == CardKind::Surface || k == CardKind::Data {
            Some(k)
        } else {
            owner(cards.drop_last())
        }
    }
}

/// The cards of `cards` that a merge moves into block `k`: the cards of
/// kind `k`, and each standalone comment that trails a card of kind `k`.
pub open spec fn bucket(cards: Seq<Card>, k: CardKind) -> Seq<Card>
    decreases cards.len(),
{
    if cards.len() == 0 {
        Seq::empty()
    } else {
        let r = bucket(cards.drop_last(), k);
        let c = cards.last();
        let ck = c.spec_kind();
        if ck == CardKind::Cell || ck == CardKind::Surface || ck == CardKind::Data {
            if ck == k {
                r.push(c)
            } else {
                r
            }
        } else if ck == CardKind::Comment && owner(cards.drop_last()) == Some(k) {
            r.push(c)
        } else {
            r
        }
    }
}

/// The block-`k` cards of the first `n` models, model by model.
pub open spec fn buckets(ms: Seq<Model>, k: CardKind, n: int) -> Seq<Card>
    decreases n,
{
    if n <= 0 {
        Seq::empty()
    } else {
        buckets(ms, k, n - 1) + bucket(ms[n - 1].spec_cards(), k)
    }
}

/// Position just past the last card of kind `k`.
pub open spec fn last_end(cards: Seq<Card>, k: CardKind) -> Option<int>
    decreases cards.len(),
{
    if cards.len() == 0 {
        None
    } else if cards.last().spec_kind() == k {
        Some(cards.len() as int)
    } else {
        last_end(cards.drop_last(), k)
    }
}

/// `new` put at the end of block `k` (at the end of the file when there is
/// no such block).
pub open spec fn absorbed(cards: Seq<Card>, k: CardKind, new: Seq<Card>) -> Seq<Card> {
    let at = match last_end(cards, k) {
        Some(p) => p,
        None => cards.len() as int,
    };
    cards.subrange(0, at) + new + cards.subrange(at, cards.len() as int)
}

/// Two card lists with the same kinds and texts, position by position.
pub open spec fn same_cards(a: Seq<Card>, b: Seq<Card>) -> bool {
    &&& a.len() == b.len()
    &&& forall|i: int|
        0 <= i < a.len() ==> (#[trigger] a[i]).spec_kind() == b[i].spec_kind() && a[i].spec_text()
            == b[i].spec_text()
}

proof fn lemma_last_end(cards: Seq<Card>, k: CardKind, p: Option<int>)
    requires
        match p {
            Some(q) => 1 <= q <= cards.len() && cards[q - 1].spec_kind() == k && forall|j: int|
                q <= j < cards.len() ==> (#[trigger] cards[j]).spec_kind() != k,
            None => forall|j: int| 0 <= j < cards.len() ==> (#[trigger] cards[j]).spec_kind() != k,
        },
    ensures
        last_end(cards, k) == p,
    decreases cards.len(),
{
    if cards.len() > 0 {
        match p {
            Some(q) => {
                if q < cards.len() {
                    assert(cards.last().spec_kind() != k);
                    assert forall|j: int| q <= j < cards.len() - 1 implies (#[trigger] cards.drop_last()[j]).spec_kind() != k by {
                        assert(cards.drop_last()[j] == cards[j]);
                    }
                    assert(cards.drop_last()[q - 1] == cards[q - 1]);
                    lemma_last_end(cards.drop_last(), k, p);
                }
            },
            None => {
                assert(cards.last().spec_kind() != k);
                assert forall|j: int| 0 <= j < cards.len() - 1 implies (#[trigger] cards.drop_last()[j]).spec_kind() != k by {
                    assert(cards.drop_last()[j] == cards[j]);
                }
                lemma_last_end(cards.drop_last(), k, p);
            },
        }
    }
}

impl Model {
    /// Append the cards of `m` that go to each block onto `cells`,
    /// `surfaces` and `data`.
    fn collect_buckets(
        m: &Model,
        cells: &mut Vec<Card>,
        surfaces: &mut Vec<Card>,
        data: &mut Vec<Card>,
    )
        requires
            m.wf(),
            forall|i: int| 0 <= i < old(cells)@.len() ==> (#[trigger] old(cells)@[i]).wf(),
            forall|i: int| 0 <= i < old(surfaces)@.len() ==> (#[trigger] old(surfaces)@[i]).wf(),
            forall|i: int| 0 <= i < old(data)@.len() ==> (#[trigger] old(data)@[i]).wf(),
        ensures
            same_cards(final(cells)@, old(cells)@ + bucket(m.spec_cards(), CardKind::Cell)),
            same_cards(final(surfaces)@, old(surfaces)@ + bucket(m.spec_cards(), CardKind::Surface)),
            same_cards(final(data)@, old(data)@ + bucket(m.spec_cards(), CardKind::Data)),
            forall|i: int| 0 <= i < final(cells)@.len() ==> (#[trigger] final(cells)@[i]).wf(),
            forall|i: int| 0 <= i < final(surfaces)@.len() ==> (#[trigger] final(surfaces)@[i]).wf(),
            forall|i: int| 0 <= i < final(data)@.len() ==> (#[trigger] final(data)@[i]).wf(),
    {
        let ghost c0 = cells@;
        let ghost s0 = surfaces@;
        let ghost d0 = data@;
        let n = m.cst().len();
        let mut current: Option<CardKind> = None;
        let mut i: usize = 0;
        while i < n
            invariant
                m.wf(),
                n == m.spec_cards().len(),
                i <= n,
                current == owner(m.spec_cards().subrange(0, i as int)),
                same_cards(cells@, c0 + bucket(m.spec_cards().subrange(0, i as int), CardKind::Cell)),
                same_cards(surfaces@, s0 + bucket(m.spec_cards().subrange(0, i as int), CardKind::Surface)),
                same_cards(data@, d0 + bucket(m.spec_cards().subrange(0, i as int), CardKind::Data)),
                forall|j: int| 0 <= j < cells@.len() ==> (#[trigger] cells@[j]).wf(),
                forall|j: int| 0 <= j < surfaces@.len() ==> (#[trigger] surfaces@[j]).wf(),
                forall|j: int| 0 <= j < data@.len() ==> (#[trigger] data@[j]).wf(),
            decreases n - i,
        {
            proof {
                m.spec_cst().lemma_wf();
            }
            let card = m.cst().at(i).unwrap();
            let ghost pre = m.spec_cards().subrange(0, i + 1);
            proof {
                assert(*card == m.spec_cards()[i as int]);
                assert(pre.drop_last() =~= m.spec_cards().subrange(0, i as int));
                assert(pre.last() == *card);
            }
            let k = card.kind();
            let target: Option<CardKind> = if k == CardKind::Cell || k == CardKind::Surface || k
                == CardKind::Data {
                current = Some(k);
                Some(k)
            } else if k == CardKind::Comment {
                current
            } else {
                None
            };
            let ghost cb = cells@;
            let ghost sb = surfaces@;
            let ghost db = data@;
            match target {
                Some(CardKind::Cell) => {
                    cells.push(card.duplicate());
                    assert(cells@.drop_last() =~= cb);
                },
                Some(CardKind::Surface) => {
                    surfaces.push(card.duplicate());
                    assert(surfaces@.drop_last() =~= sb);
                },
                Some(CardKind::Data) => {
                    data.push(card.duplicate());
                    assert(data@.drop_last() =~= db);
                },
                _ => {},
            }
            proof {
                let prev = m.spec_cards().subrange(0, i as int);
                for_each_bucket(c0, cb, cells@, prev, *card, CardKind::Cell, target);
                for_each_bucket(s0, sb, surfaces@, prev, *card, CardKind::Surface, target);
                for_each_bucket(d0, db, data@, prev, *card, CardKind::Data, target);
            }
            i = i + 1;
        }
        proof {
            assert(m.spec_cards().subrange(0, n as int) =~= m.spec_cards());
        }
    }
}

/// One card's step of collecting the buckets.
proof fn for_each_bucket(
    base: Seq<Card>,
    before: Seq<Card>,
    after: Seq<Card>,
    prev: Seq<Card>,
    c: Card,
    k: CardKind,
    target: Option<CardKind>,
)
    requires
        same_cards(before, base + bucket(prev, k)),
        target == (if c.spec_kind() == CardKind::Cell || c.spec_kind() == CardKind::Surface
            || c.spec_kind() == CardKind::Data {
            Some(c.spec_kind())
        } else if c.spec_kind() == CardKind::Comment {
            owner(prev)
        } else {
            None
        }),
        target == Some(k) ==> after.len() == before.len() + 1 && after.drop_last() == before
            && after.last().spec_kind() == c.spec_kind() && after.last().spec_text() == c.spec_text(),
        target != Some(k) ==> after == before,
    ensures
        same_cards(after, base + bucket(prev.push(c), k)),
{
    assert(prev.push(c).drop_last() =~= prev);
    let b = base + bucket(prev, k);
    if target == Some(k) {
        assert(base + bucket(prev.push(c), k) =~= b.push(c));
        assert forall|i: int| 0 <= i < after.len() implies (#[trigger] after[i]).spec_kind() == b.push(c)[i].spec_kind()
            && after[i].spec_text() == b.push(c)[i].spec_text() by {
            if i < before.len() {
                assert(after[i] == before[i]);
            }
        }
    } else {
        assert(base + bucket(prev.push(c), k) =~= b);
    }
}

proof fn lemma_same_last_end(a: Seq<Card>, b: Seq<Card>, k: CardKind)
    requires
        same_cards(a, b),
    ensures
        last_end(a, k) == last_end(b, k),
    decreases a.len(),
{
    if a.len() > 0 {
        assert(same_cards(a.drop_last(), b.drop_last())) by {
            assert forall|i: int| 0 <= i < a.len() - 1 implies (#[trigger] a.drop_last()[i]).spec_kind()
                == b.drop_last()[i].spec_kind() && a.drop_last()[i].spec_text()
                == b.drop_last()[i].spec_text() by {
                assert(a.drop_last()[i] == a[i] && b.drop_last()[i] == b[i]);
            }
        }
        lemma_same_last_end(a.drop_last(), b.drop_last(), k);
        assert(a.last().spec_kind() == b.last().spec_kind());
    }
}

proof fn lemma_absorbed_same(x: Seq<Card>, y: Seq<Card>, k: CardKind, n: Seq<Card>, m: Seq<Card>)
    requires
        same_cards(x, y),
        same_cards(n, m),
    ensures
        same_cards(absorbed(x, k, n), absorbed(y, k, m)),
{
    lemma_same_last_end(x, y, k);
    let at = match last_end(x, k) {
        Some(p) => p,
        None => x.len() as int,
    };
    if last_end(x, k) is Some {
        lemma_last_end_range(x, k);
    }
    let ax = absorbed(x, k, n);
    let ay = absorbed(y, k, m);
    assert forall|i: int| 0 <= i < ax.len() implies (#[trigger] ax[i]).spec_kind() == ay[i].spec_kind()
        && ax[i].spec_text() == ay[i].spec_text() by {
        if i < at {
            assert(ax[i] == x[i] && ay[i] == y[i]);
        } else if i < at + n.len() {
            assert(ax[i] == n[i - at] && ay[i] == m[i - at]);
        } else {
            assert(ax[i] == x[i - n.len()] && ay[i] == y[i - n.len()]);
        }
    }
}

proof fn lemma_last_end_range(x: Seq<Card>, k: CardKind)
    ensures
        match last_end(x, k) {
            Some(p) => 1 <= p <= x.len(),
            None => true,
        },
    decreases x.len(),
{
    if x.len() > 0 {
        lemma_last_end_range(x.drop_last(), k);
    }
}

proof fn lemma_same_cards_trans(a: Seq<Card>, b: Seq<Card>, c: Seq<Card>)
    requires
        same_cards(a, b),
        same_cards(b, c),
    ensures
        same_cards(a, c),
{
}

/// Cards of the first `n` models, all told.
pub open spec fn total_cards(ms: Seq<Model>, n: int) -> int
    decreases n,
{
    if n <= 0 {
        0
    } else {
        total_cards(ms, n - 1) + ms[n - 1].spec_cards().len()
    }
}

proof fn lemma_bucket_len(cards: Seq<Card>)
    ensures
        bucket(cards, CardKind::Cell).len() + bucket(cards, CardKind::Surface).len() + bucket(
            cards,
            CardKind::Data,
        ).len() <= cards.len(),
    decreases cards.len(),
{
    if cards.len() > 0 {
        lemma_bucket_len(cards.drop_last());
    }
}

proof fn lemma_buckets_len(ms: Seq<Model>, n: int)
    requires
        0 <= n <= ms.len(),
    ensures
        buckets(ms, CardKind::Cell, n).len() + buckets(ms, CardKind::Surface, n).len() + buckets(
            ms,
            CardKind::Data,
            n,
        ).len() <= total_cards(ms, n),
    decreases n,
{
    if n > 0 {
        lemma_buckets_len(ms, n - 1);
        lemma_bucket_len(ms[n - 1].spec_cards());
    }
}

/// The cards of `before` with the incoming cards of `others` put at the ends
/// of their blocks: cells, then surfaces, then data.
pub open spec fn merged_cards(before: Seq<Card>, others: Seq<Model>) -> Seq<Card> {
    let n = others.len() as int;
    absorbed(
        absorbed(
            absorbed(before, CardKind::Cell, buckets(others, CardKind::Cell, n)),
            CardKind::Surface,
            buckets(others, CardKind::Surface, n),
        ),
        CardKind::Data,
        buckets(others, CardKind::Data, n),
    )
}

impl Model {
    /// Put `cards` at the end of block `kind`, in order, in one pass.
    fn absorb_many(&mut self, kind: CardKind, cards: Vec<Card>)
        requires
            old(self).wf(),
            forall|i: int| 0 <= i < cards@.len() ==> (#[trigger] cards@[i]).wf(),
            old(self).spec_cst().spec_arena().len() + cards@.len() < u32::MAX,
        ensures
            final(self).wf(),
            final(self).spec_cst().spec_eol() == old(self).spec_cst().spec_eol(),
            final(self).spec_cst().spec_arena().len() == old(self).spec_cst().spec_arena().len()
                + cards@.len(),
            same_cards(final(self).spec_cards(), absorbed(old(self).spec_cards(), kind, cards@)),
    {
        let ghost c0 = self.spec_cards();
        let ghost all = cards@;
        proof {
            self.spec_cst().lemma_wf();
        }
        let e = self.cst().end_of_block(kind);
        let at = match e {
            Some(p) => p,
            None => self.cst().len(),
        };
        proof {
            match e {
                Some(p) => {
                    assert forall|j: int| p <= j < c0.len() implies (#[trigger] c0[j]).spec_kind() != kind by {
                        assert(c0[j] == self.spec_cst().spec_at(j));
                    }
                    assert(c0[p - 1] == self.spec_cst().spec_at(p - 1));
                    lemma_last_end(c0, kind, Some(p as int));
                },
                None => {
                    assert forall|j: int| 0 <= j < c0.len() implies (#[trigger] c0[j]).spec_kind() != kind by {
                        assert(c0[j] == self.spec_cst().spec_at(j));
                    }
                    lemma_last_end(c0, kind, None);
                },
            }
        }
        let ghost a0 = self.spec_cst().spec_arena().len();
        let mut cards = cards;
        while cards.len() > 0
            invariant
                self.wf(),
                self.spec_cst().spec_eol() == old(self).spec_cst().spec_eol(),
                at <= c0.len(),
                cards@.len() <= all.len(),
                cards@ == all.subrange(0, cards@.len() as int),
                forall|i: int| 0 <= i < all.len() ==> (#[trigger] all[i]).wf(),
                self.spec_cst().spec_arena().len() == a0 + (all.len() - cards@.len()),
                a0 + all.len() < u32::MAX,
                same_cards(
                    self.spec_cards(),
                    c0.subrange(0, at as int) + all.subrange(cards@.len() as int, all.len() as int)
                        + c0.subrange(at as int, c0.len() as int),
                ),
            decreases cards@.len(),
        {
            let ghost before = self.spec_cards();
            let ghost rest = all.subrange(cards@.len() as int, all.len() as int);
            let c = cards.pop().unwrap();
            let ghost cl = cards@.len();
            assert(c == all[cl as int]);
            self.cst_mut().insert_at(at, c);
            proof {
                let target = c0.subrange(0, at as int) + all.subrange(cl as int, all.len() as int)
                    + c0.subrange(at as int, c0.len() as int);
                let prev = c0.subrange(0, at as int) + rest + c0.subrange(at as int, c0.len() as int);
                assert(at <= before.len());
                let now = self.spec_cards();
                assert forall|i: int| 0 <= i < now.len() implies (#[trigger] now[i]).spec_kind()
                    == target[i].spec_kind() && now[i].spec_text() == target[i].spec_text() by {
                    if i < at {
                        assert(now[i] == before[i]);
                        assert(target[i] == prev[i]);
                    } else if i == at {
                        assert(target[i] == all[cl as int]);
                    } else {
                        assert(now[i] == before[i - 1]);
                        assert(target[i] == prev[i - 1]);
                    }
                }
            }
        }
        proof {
            assert(all.subrange(0, all.len() as int) =~= all);
            assert(c0.subrange(0, at as int) + all + c0.subrange(at as int, c0.len() as int)
                =~= absorbed(c0, kind, all));
        }
    }

    /// Fold other models' cells, surfaces and data cards into this one; a
    /// standalone comment trailing one of those blocks travels with it.
    /// Fails, changing nothing, if a cell, surface, material or transform
    /// id is defined by more than one of `[self] ++ others`; on success each
    /// incoming card is put at the end of its block.
    pub fn merge(&mut self, others: Vec<Model>) -> (r: Result<(), Vec<Collision>>)
        requires
            old(self).wf(),
            forall|k: int| 0 <= k < others@.len() ==> (#[trigger] others@[k]).wf(),
            old(self).spec_cst().spec_arena().len() + total_cards(others@, others@.len() as int)
                < u32::MAX,
        ensures
            ({
                let ms = seq![*old(self)] + others@;
                match r {
                    Err(v) => *final(self) == *old(self) && v@.len() > 0 && exists|
                        a: Seq<Collision>,
                        b: Seq<Collision>,
                        c: Seq<Collision>,
                        d: Seq<Collision>,
                    |
                        v@ == a + b + c + d && collisions_ok(ms, IdKind::Cell, a) && collisions_ok(
                            ms,
                            IdKind::Surface,
                            b,
                        ) && collisions_ok(ms, IdKind::Material, c) && collisions_ok(
                            ms,
                            IdKind::Transform,
                            d,
                        ),
                    Ok(()) => final(self).wf() && final(self).spec_cst().spec_eol() == old(
                        self,
                    ).spec_cst().spec_eol() && (forall|kind: IdKind, id: i64|
                        definers(ms, family_of(kind), id, ms.len() as int).len() < 2) && same_cards(
                        final(self).spec_cards(),
                        merged_cards(old(self).spec_cards(), others@),
                    ),
                }
            }),
    {
        let ghost ms = seq![*self] + others@;
        let mut conflicts: Vec<Collision> = Vec::new();
        {
            let mut all: Vec<&Model> = Vec::new();
            all.push(&*self);
            let mut k: usize = 0;
            while k < others.len()
                invariant
                    k <= others@.len(),
                    all@.len() == k + 1,
                    forall|q: int| 0 <= q < others@.len() ==> (#[trigger] others@[q]).wf(),
                    *all@[0] == *self,
                    self.wf(),
                    forall|q: int| 1 <= q <= k ==> *(#[trigger] all@[q]) == others@[q - 1],
                decreases others@.len() - k,
            {
                all.push(&others[k]);
                k = k + 1;
            }
            proof {
                assert(deref_all(all@) =~= ms);
            }
            let mut a = shared_ids(&all, IdKind::Cell);
            let mut b = shared_ids(&all, IdKind::Surface);
            let mut c = shared_ids(&all, IdKind::Material);
            let mut d = shared_ids(&all, IdKind::Transform);
            let ghost (ga, gb, gc, gd) = (a@, b@, c@, d@);
            conflicts.append(&mut a);
            conflicts.append(&mut b);
            conflicts.append(&mut c);
            conflicts.append(&mut d);
            proof {
                assert(conflicts@ =~= ga + gb + gc + gd);
                if conflicts@.len() == 0 {
                    assert forall|kind: IdKind, id: i64| definers(ms, family_of(kind), id, ms.len() as int).len() < 2 by {
                        match kind {
                            IdKind::Cell => { assert(ga.len() == 0); },
                            IdKind::Surface => { assert(gb.len() == 0); },
                            IdKind::Material => { assert(gc.len() == 0); },
                            IdKind::Transform => { assert(gd.len() == 0); },
                        }
                    }
                }
            }
        }
        if conflicts.len() > 0 {
            return Err(conflicts);
        }
        let mut cells: Vec<Card> = Vec::new();
        let mut surfaces: Vec<Card> = Vec::new();
        let mut data: Vec<Card> = Vec::new();
        let mut k: usize = 0;
        while k < others.len()
            invariant
                k <= others@.len(),
                forall|q: int| 0 <= q < others@.len() ==> (#[trigger] others@[q]).wf(),
                same_cards(cells@, buckets(others@, CardKind::Cell, k as int)),
                same_cards(surfaces@, buckets(others@, CardKind::Surface, k as int)),
                same_cards(data@, buckets(others@, CardKind::Data, k as int)),
                forall|i: int| 0 <= i < cells@.len() ==> (#[trigger] cells@[i]).wf(),
                forall|i: int| 0 <= i < surfaces@.len() ==> (#[trigger] surfaces@[i]).wf(),
                forall|i: int| 0 <= i < data@.len() ==> (#[trigger] data@[i]).wf(),
            decreases others@.len() - k,
        {
            let ghost (c1, s1, d1) = (cells@, surfaces@, data@);
            Model::collect_buckets(&others[k], &mut cells, &mut surfaces, &mut data);
            proof {
                let m = others@[k as int];
                lemma_same_append(c1, buckets(others@, CardKind::Cell, k as int), bucket(m.spec_cards(), CardKind::Cell));
                lemma_same_append(s1, buckets(others@, CardKind::Surface, k as int), bucket(m.spec_cards(), CardKind::Surface));
                lemma_same_append(d1, buckets(others@, CardKind::Data, k as int), bucket(m.spec_cards(), CardKind::Data));
            }
            k = k + 1;
        }
        proof {
            lemma_buckets_len(others@, others@.len() as int);
        }
        let ghost b0 = self.spec_cards();
        let ghost (gc, gs, gd) = (cells@, surfaces@, data@);
        self.absorb_many(CardKind::Cell, cells);
        let ghost b1 = self.spec_cards();
        self.absorb_many(CardKind::Surface, surfaces);
        let ghost b2 = self.spec_cards();
        self.absorb_many(CardKind::Data, data);
        proof {
            let n = others@.len() as int;
            let x1 = absorbed(b0, CardKind::Cell, buckets(others@, CardKind::Cell, n));
            lemma_absorbed_same(b0, b0, CardKind::Cell, gc, buckets(others@, CardKind::Cell, n));
            let x2 = absorbed(x1, CardKind::Surface, buckets(others@, CardKind::Surface, n));
            lemma_absorbed_same(b1, x1, CardKind::Surface, gs, buckets(others@, CardKind::Surface, n));
            lemma_same_cards_trans(b2, absorbed(b1, CardKind::Surface, gs), x2);
            lemma_absorbed_same(b2, x2, CardKind::Data, gd, buckets(others@, CardKind::Data, n));
            lemma_same_cards_trans(
                self.spec_cards(),
                absorbed(b2, CardKind::Data, gd),
                merged_cards(b0, others@),
            );
        }
        self.reindex();
        Ok(())
    }
}

proof fn lemma_same_append(a: Seq<Card>, b: Seq<Card>, extra: Seq<Card>)
    requires
        same_cards(a, b),
    ensures
        forall|x: Seq<Card>| same_cards(x, a + extra) ==> same_cards(x, b + extra),
{
    assert forall|x: Seq<Card>| same_cards(x, a + extra) implies same_cards(x, b + extra) by {
        assert forall|i: int| 0 <= i < x.len() implies (#[trigger] x[i]).spec_kind() == (b + extra)[i].spec_kind()
            && x[i].spec_text() == (b + extra)[i].spec_text() by {
            if i < a.len() {
                assert((a + extra)[i] == a[i]);
                assert((b + extra)[i] == b[i]);
            } else {
                assert((a + extra)[i] == extra[i - a.len()]);
                assert((b + extra)[i] == extra[i - b.len()]);
            }
        }
    }
}

} // verus!
