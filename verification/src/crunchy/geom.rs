//! The cell geometry as a boolean expression tree, with MCNP precedence:
//! `#` complement binds tightest, then intersection by juxtaposition, then
//! union `:`. Every leaf keeps the token it came from, so references can be
//! rewritten in place.

use vstd::prelude::*;

verus! {

/// A reference to a surface from within a geometry expression.
#[derive(Debug, Clone, Copy, PartialEq, Eq, Structural)]
pub struct SurfaceRef {
    /// Token index of the (signed) surface number.
    pub token: u32,
    /// Surface number magnitude.
    pub id: i64,
    /// Written with a negative sense (`-id`).
    pub negative: bool,
}

/// A reference to a cell (from a `#n` complement or a `LIKE n BUT` card).
#[derive(Debug, Clone, Copy, PartialEq, Eq, Structural)]
pub struct CellRef {
    /// Token index of the cell number.
    pub token: u32,
    /// Cell number.
    pub id: i64,
}

/// A parsed geometry boolean expression.
#[derive(Debug)]
pub enum GeomExpr {
    /// A signed surface.
    Surface(SurfaceRef),
    /// `#n`: the complement of cell `n`.
    CellComplement(CellRef),
    /// `#(...)`: the complement of a region.
    Complement(Box<GeomExpr>),
    /// Space-separated intersection of two or more regions.
    Intersection(Vec<GeomExpr>),
    /// `:`-separated union of two or more regions.
    Union(Vec<GeomExpr>),
    /// A malformed sub-expression.
    Error,
}

/// What a geometry expression denotes, as a tree of plain values.
pub enum Region {
    Surface(SurfaceRef),
    CellComplement(CellRef),
    Complement(Box<Region>),
    Intersection(Seq<Region>),
    Union(Seq<Region>),
    Error,
}

pub open spec fn region(e: GeomExpr) -> Region
    decreases e,
{
    match e {
        GeomExpr::Surface(s) => Region::Surface(s),
        GeomExpr::CellComplement(c) => Region::CellComplement(c),
        GeomExpr::Complement(b) => Region::Complement(Box::new(region(*b))),
        GeomExpr::Intersection(v) => Region::Intersection(regions(v@)),
        GeomExpr::Union(v) => Region::Union(regions(v@)),
        GeomExpr::Error => Region::Error,
    }
}

pub open spec fn regions(s: Seq<GeomExpr>) -> Seq<Region>
    decreases s,
{
    if s.len() == 0 {
        Seq::empty()
    } else {
        regions(s.drop_last()).push(region(s.last()))
    }
}


/// `regions` maps each part to its region.
pub proof fn lemma_regions(s: Seq<GeomExpr>)
    ensures
        regions(s).len() == s.len(),
        forall|i: int| 0 <= i < s.len() ==> #[trigger] regions(s)[i] == region(s[i]),
    decreases s.len(),
{
    if s.len() > 0 {
        lemma_regions(s.drop_last());
        assert forall|i: int| 0 <= i < s.len() implies #[trigger] regions(s)[i] == region(s[i]) by {
            if i < s.len() - 1 {
                assert(s.drop_last()[i] == s[i]);
            }
        }
    }
}

/// Token index of a reference made by an edit rather than read from source.
pub const NEW_TOKEN: u32 = 0xFFFF_FFFFu32;

/// The surface references of a region, in order.
pub open spec fn region_surface_refs(r: Region) -> Seq<SurfaceRef>
    decreases r,
{
    match r {
        Region::Surface(s) => seq![s],
        Region::CellComplement(_) => Seq::empty(),
        Region::Error => Seq::empty(),
        Region::Complement(b) => region_surface_refs(*b),
        Region::Intersection(v) => regions_surface_refs(v),
        Region::Union(v) => regions_surface_refs(v),
    }
}

pub open spec fn regions_surface_refs(s: Seq<Region>) -> Seq<SurfaceRef>
    decreases s,
{
    if s.len() == 0 {
        Seq::empty()
    } else {
        regions_surface_refs(s.drop_last()) + region_surface_refs(s.last())
    }
}

/// The `#n` cell references of a region, in order.
pub open spec fn region_cell_refs(r: Region) -> Seq<CellRef>
    decreases r,
{
    match r {
        Region::CellComplement(c) => seq![c],
        Region::Surface(_) => Seq::empty(),
        Region::Error => Seq::empty(),
        Region::Complement(b) => region_cell_refs(*b),
        Region::Intersection(v) => regions_cell_refs(v),
        Region::Union(v) => regions_cell_refs(v),
    }
}

pub open spec fn regions_cell_refs(s: Seq<Region>) -> Seq<CellRef>
    decreases s,
{
    if s.len() == 0 {
        Seq::empty()
    } else {
        regions_cell_refs(s.drop_last()) + region_cell_refs(s.last())
    }
}

/// The whole region intersected with `other`: appended to a top-level
/// intersection, or a new two-part intersection.
pub open spec fn intersect_region(r: Region, other: Region) -> Region {
    match r {
        Region::Intersection(parts) => Region::Intersection(parts.push(other)),
        _ => Region::Intersection(seq![r, other]),
    }
}

/// What a removal edit takes out.
#[derive(Debug, Clone, Copy, PartialEq, Eq, Structural)]
pub enum Target {
    /// Every surface leaf of this magnitude, either sense.
    Surface(i64),
    /// Every `#n` complement of this cell.
    CellComplement(i64),
}

pub open spec fn hits(r: Region, t: Target) -> bool {
    match (r, t) {
        (Region::Surface(s), Target::Surface(id)) => s.id == id,
        (Region::CellComplement(c), Target::CellComplement(id)) => c.id == id,
        _ => false,
    }
}

/// Surviving parts: none is empty, one stands alone, more are rebuilt with
/// the same connective.
pub open spec fn collapse_region(parts: Seq<Region>, union: bool) -> Option<Region> {
    if parts.len() == 0 {
        None
    } else if parts.len() == 1 {
        Some(parts[0])
    } else if union {
        Some(Region::Union(parts))
    } else {
        Some(Region::Intersection(parts))
    }
}

/// The region with every part `t` hits removed (`None` when nothing is
/// left), and whether anything was removed.
pub open spec fn prune_region(r: Region, t: Target) -> (Option<Region>, bool)
    decreases r,
{
    if hits(r, t) {
        (None, true)
    } else {
        match r {
            Region::Complement(b) => {
                let p = prune_region(*b, t);
                (
                    match p.0 {
                        Some(i) => Some(Region::Complement(Box::new(i))),
                        None => None,
                    },
                    p.1,
                )
            },
            Region::Intersection(v) => {
                let p = prune_regions(v, t);
                (collapse_region(p.0, false), p.1)
            },
            Region::Union(v) => {
                let p = prune_regions(v, t);
                (collapse_region(p.0, true), p.1)
            },
            _ => (Some(r), false),
        }
    }
}

/// The surviving parts of a list, in order, and whether any was touched.
pub open spec fn prune_regions(s: Seq<Region>, t: Target) -> (Seq<Region>, bool)
    decreases s,
{
    if s.len() == 0 {
        (Seq::empty(), false)
    } else {
        let a = prune_regions(s.drop_last(), t);
        let b = prune_region(s.last(), t);
        (
            match b.0 {
                Some(k) => a.0.push(k),
                None => a.0,
            },
            a.1 || b.1,
        )
    }
}

pub open spec fn opt_region(e: Option<GeomExpr>) -> Option<Region> {
    match e {
        Some(x) => Some(region(x)),
        None => None,
    }
}

/// A copy of every part of a list.
fn copy_parts(parts: &Vec<GeomExpr>) -> (r: Vec<GeomExpr>)
    ensures
        regions(r@) == regions(parts@),
    decreases parts,
{
    let mut out: Vec<GeomExpr> = Vec::new();
    let mut i: usize = 0;
    while i < parts.len()
        invariant
            i <= parts@.len(),
            regions(out@) == regions(parts@.subrange(0, i as int)),
        decreases parts@.len() - i,
    {
        let c = parts[i].copy();
        let ghost before = out@;
        out.push(c);
        proof {
            assert(out@.drop_last() =~= before);
            assert(parts@.subrange(0, i + 1).drop_last() =~= parts@.subrange(0, i as int));
        }
        i = i + 1;
    }
    proof {
        assert(parts@.subrange(0, i as int) =~= parts@);
    }
    out
}

/// Prune every part of a list.
fn prune_parts(parts: &Vec<GeomExpr>, t: Target) -> (r: (Vec<GeomExpr>, bool))
    ensures
        regions(r.0@) == prune_regions(regions(parts@), t).0,
        r.1 == prune_regions(regions(parts@), t).1,
    decreases parts,
{
    let mut out: Vec<GeomExpr> = Vec::new();
    let mut removed = false;
    let mut i: usize = 0;
    while i < parts.len()
        invariant
            i <= parts@.len(),
            regions(out@) == prune_regions(regions(parts@.subrange(0, i as int)), t).0,
            removed == prune_regions(regions(parts@.subrange(0, i as int)), t).1,
        decreases parts@.len() - i,
    {
        let (kept, r) = prune(&parts[i], t);
        proof {
            let sub = parts@.subrange(0, i + 1);
            assert(sub.drop_last() =~= parts@.subrange(0, i as int));
            assert(regions(sub).drop_last() =~= regions(parts@.subrange(0, i as int)));
            assert(regions(sub).last() == region(parts@[i as int]));
        }
        removed = removed || r;
        let ghost before = out@;
        match kept {
            Some(k) => {
                out.push(k);
                proof {
                    assert(out@.drop_last() =~= before);
                }
            },
            None => {},
        }
        i = i + 1;
    }
    proof {
        assert(parts@.subrange(0, i as int) =~= parts@);
    }
    (out, removed)
}

fn collapse(parts: Vec<GeomExpr>, union: bool) -> (r: Option<GeomExpr>)
    ensures
        opt_region(r) == collapse_region(regions(parts@), union),
{
    let ghost rs = regions(parts@);
    proof {
        lemma_regions(parts@);
    }
    if parts.len() == 0 {
        None
    } else if parts.len() == 1 {
        let mut parts = parts;
        proof {
            assert(parts@.drop_last() =~= Seq::<GeomExpr>::empty());
        }
        parts.pop()
    } else if union {
        Some(GeomExpr::Union(parts))
    } else {
        Some(GeomExpr::Intersection(parts))
    }
}

/// Remove every part `t` hits, returning what is left (`None` when nothing
/// is) and whether anything was removed. Empty intersections and unions
/// collapse; a single survivor is unwrapped.
fn prune(e: &GeomExpr, t: Target) -> (r: (Option<GeomExpr>, bool))
    ensures
        opt_region(r.0) == prune_region(region(*e), t).0,
        r.1 == prune_region(region(*e), t).1,
    decreases e,
{
    let hit = match (e, t) {
        (GeomExpr::Surface(s), Target::Surface(id)) => s.id == id,
        (GeomExpr::CellComplement(c), Target::CellComplement(id)) => c.id == id,
        _ => false,
    };
    if hit {
        return (None, true);
    }
    match e {
        GeomExpr::Complement(b) => {
            let (kept, removed) = prune(b, t);
            match kept {
                Some(i) => (Some(GeomExpr::Complement(Box::new(i))), removed),
                None => (None, removed),
            }
        },
        GeomExpr::Intersection(v) => {
            let (survivors, removed) = prune_parts(v, t);
            (collapse(survivors, false), removed)
        },
        GeomExpr::Union(v) => {
            let (survivors, removed) = prune_parts(v, t);
            (collapse(survivors, true), removed)
        },
        _ => (Some(e.copy()), false),
    }
}

impl GeomExpr {
    /// A copy of this expression.
    pub fn copy(&self) -> (r: GeomExpr)
        ensures
            region(r) == region(*self),
        decreases self,
    {
        match self {
            GeomExpr::Surface(s) => GeomExpr::Surface(*s),
            GeomExpr::CellComplement(c) => GeomExpr::CellComplement(*c),
            GeomExpr::Complement(b) => GeomExpr::Complement(Box::new(b.copy())),
            GeomExpr::Intersection(v) => GeomExpr::Intersection(copy_parts(v)),
            GeomExpr::Union(v) => GeomExpr::Union(copy_parts(v)),
            GeomExpr::Error => GeomExpr::Error,
        }
    }

    /// Every surface reference in the expression, in order.
    pub fn for_each_surface_ref(&self) -> (r: Vec<SurfaceRef>)
        ensures
            r@ == region_surface_refs(region(*self)),
        decreases self,
    {
        match self {
            GeomExpr::Surface(s) => {
                let mut out: Vec<SurfaceRef> = Vec::new();
                out.push(*s);
                proof {
                    assert(out@ =~= seq![*s]);
                }
                out
            },
            GeomExpr::CellComplement(_) => Vec::new(),
            GeomExpr::Error => Vec::new(),
            GeomExpr::Complement(b) => b.for_each_surface_ref(),
            GeomExpr::Intersection(v) => surface_refs_of_parts(v),
            GeomExpr::Union(v) => surface_refs_of_parts(v),
        }
    }

    /// Every `#n` cell reference in the expression, in order.
    pub fn for_each_cell_ref(&self) -> (r: Vec<CellRef>)
        ensures
            r@ == region_cell_refs(region(*self)),
        decreases self,
    {
        match self {
            GeomExpr::CellComplement(c) => {
                let mut out: Vec<CellRef> = Vec::new();
                out.push(*c);
                proof {
                    assert(out@ =~= seq![*c]);
                }
                out
            },
            GeomExpr::Surface(_) => Vec::new(),
            GeomExpr::Error => Vec::new(),
            GeomExpr::Complement(b) => b.for_each_cell_ref(),
            GeomExpr::Intersection(v) => cell_refs_of_parts(v),
            GeomExpr::Union(v) => cell_refs_of_parts(v),
        }
    }

    /// The empty-region placeholder, which an edit leaves when it would
    /// remove the whole geometry.
    pub fn is_empty(&self) -> (r: bool)
        ensures
            r == (region(*self) is Error),
    {
        match self {
            GeomExpr::Error => true,
            _ => false,
        }
    }

    fn intersect_with(&mut self, other: GeomExpr)
        ensures
            region(*final(self)) == intersect_region(region(*old(self)), region(other)),
    {
        let mut old_e = GeomExpr::Error;
        std::mem::swap(&mut old_e, self);
        let ghost ro = region(old_e);
        let ghost rother = region(other);
        *self = match old_e {
            GeomExpr::Intersection(parts) => {
                let mut parts = parts;
                let ghost before = parts@;
                parts.push(other);
                proof {
                    assert(parts@.drop_last() =~= before);
                    assert(regions(parts@) == regions(before).push(rother));
                    assert(ro == Region::Intersection(regions(before)));
                }
                GeomExpr::Intersection(parts)
            },
            e => {
                proof {
                    assert(ro == region(e));
                    assert(!(ro is Intersection));
                }
                let mut parts: Vec<GeomExpr> = Vec::new();
                parts.push(e);
                parts.push(other);
                proof {
                    lemma_regions(parts@);
                    assert(regions(parts@) =~= seq![region(parts@[0]), region(parts@[1])]);
                }
                GeomExpr::Intersection(parts)
            },
        };
    }

    /// Intersect the whole region with a signed surface: the usual meaning of
    /// adding a surface to a cell.
    pub fn intersect_surface(&mut self, id: i64, negative: bool)
        ensures
            region(*final(self)) == intersect_region(
                region(*old(self)),
                Region::Surface(SurfaceRef { token: NEW_TOKEN, id, negative }),
            ),
    {
        self.intersect_with(GeomExpr::Surface(SurfaceRef { token: NEW_TOKEN, id, negative }));
    }

    /// Intersect the whole region with a `#n` cell complement.
    pub fn intersect_cell_complement(&mut self, id: i64)
        ensures
            region(*final(self)) == intersect_region(
                region(*old(self)),
                Region::CellComplement(CellRef { token: NEW_TOKEN, id }),
            ),
    {
        self.intersect_with(GeomExpr::CellComplement(CellRef { token: NEW_TOKEN, id }));
    }

    fn remove_matching(&mut self, t: Target) -> (r: bool)
        ensures
            region(*final(self)) == match prune_region(region(*old(self)), t).0 {
                Some(x) => x,
                None => Region::Error,
            },
            r == prune_region(region(*old(self)), t).1,
    {
        let (kept, removed) = prune(self, t);
        *self = match kept {
            Some(k) => k,
            None => GeomExpr::Error,
        };
        removed
    }

    /// Remove every surface leaf of magnitude `id` (either sense). Returns
    /// whether anything was removed; when nothing is left the expression
    /// becomes the empty placeholder.
    pub fn remove_surface(&mut self, id: i64) -> (r: bool)
        ensures
            region(*final(self)) == match prune_region(region(*old(self)), Target::Surface(id)).0 {
                Some(x) => x,
                None => Region::Error,
            },
            r == prune_region(region(*old(self)), Target::Surface(id)).1,
    {
        self.remove_matching(Target::Surface(id))
    }

    /// Remove every `#n` complement of cell `id`.
    pub fn remove_cell_complement(&mut self, id: i64) -> (r: bool)
        ensures
            region(*final(self)) == match prune_region(
                region(*old(self)),
                Target::CellComplement(id),
            ).0 {
                Some(x) => x,
                None => Region::Error,
            },
            r == prune_region(region(*old(self)), Target::CellComplement(id)).1,
    {
        self.remove_matching(Target::CellComplement(id))
    }
}

fn surface_refs_of_parts(v: &Vec<GeomExpr>) -> (r: Vec<SurfaceRef>)
    ensures
        r@ == regions_surface_refs(regions(v@)),
    decreases v,
{
    let mut out: Vec<SurfaceRef> = Vec::new();
    let mut i: usize = 0;
    while i < v.len()
        invariant
            i <= v@.len(),
            out@ == regions_surface_refs(regions(v@.subrange(0, i as int))),
        decreases v@.len() - i,
    {
        let mut part = v[i].for_each_surface_ref();
        proof {
            let sub = v@.subrange(0, i + 1);
            assert(sub.drop_last() =~= v@.subrange(0, i as int));
            assert(regions(sub).drop_last() =~= regions(v@.subrange(0, i as int)));
        }
        out.append(&mut part);
        i = i + 1;
    }
    proof {
        assert(v@.subrange(0, i as int) =~= v@);
    }
    out
}

fn cell_refs_of_parts(v: &Vec<GeomExpr>) -> (r: Vec<CellRef>)
    ensures
        r@ == regions_cell_refs(regions(v@)),
    decreases v,
{
    let mut out: Vec<CellRef> = Vec::new();
    let mut i: usize = 0;
    while i < v.len()
        invariant
            i <= v@.len(),
            out@ == regions_cell_refs(regions(v@.subrange(0, i as int))),
        decreases v@.len() - i,
    {
        let mut part = v[i].for_each_cell_ref();
        proof {
            let sub = v@.subrange(0, i + 1);
            assert(sub.drop_last() =~= v@.subrange(0, i as int));
            assert(regions(sub).drop_last() =~= regions(v@.subrange(0, i as int)));
        }
        out.append(&mut part);
        i = i + 1;
    }
    proof {
        assert(v@.subrange(0, i as int) =~= v@);
    }
    out
}

} // verus!
