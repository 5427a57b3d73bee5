//! Recursive-descent parser for a cell's geometry tokens:
//!
//! ```text
//! union        := intersection (':' intersection)*
//! intersection := factor factor*            (juxtaposition)
//! factor       := '#(' union ')' | '#' NUMBER | '(' union ')' | signed-surface
//! ```
//!
//! A malformed part becomes an `Error` node and marks the parse as not ok;
//! parsing never stops early.

use vstd::prelude::*;
use crate::crunchy::geom::{region, regions, CellRef, GeomExpr, Region, SurfaceRef};
use crate::crunchy::syntax_kind::SyntaxKind;

verus! {

/// One geometry token: its kind, its token index, and its value when it
/// reads as an integer.
pub type Atom = (SyntaxKind, u32, Option<i64>);

pub open spec fn kind_at(a: Seq<Atom>, pos: int) -> Option<SyntaxKind> {
    if 0 <= pos < a.len() {
        Some(a[pos].0)
    } else {
        None
    }
}

/// A `)` is expected at `pos`.
pub open spec fn expect_r(a: Seq<Atom>, pos: int, ok: bool) -> (int, bool) {
    if kind_at(a, pos) == Some(SyntaxKind::R_PAREN) {
        (pos + 1, ok)
    } else {
        (pos, false)
    }
}

/// A list of one part stands alone; more make a union or intersection.
pub open spec fn wrap(parts: Seq<Region>, union: bool) -> Region {
    if parts.len() == 1 {
        parts[0]
    } else if union {
        Region::Union(parts)
    } else {
        Region::Intersection(parts)
    }
}

pub open spec fn p_union(a: Seq<Atom>, pos: int, ok: bool) -> (Region, int, bool)
    decreases a.len() - pos, 4int,
{
    if pos < 0 || pos > a.len() {
        (Region::Error, pos, false)
    } else {
        let (e, p1, ok1) = p_inter(a, pos, ok);
        if p1 < pos || p1 > a.len() {
            (e, p1, ok1)
        } else {
            let (parts, p2, ok2) = union_tail(a, p1, seq![e], ok1);
            (wrap(parts, true), p2, ok2)
        }
    }
}

pub open spec fn union_tail(a: Seq<Atom>, pos: int, acc: Seq<Region>, ok: bool) -> (
    Seq<Region>,
    int,
    bool,
)
    decreases a.len() - pos, 3int,
{
    if pos < 0 || pos >= a.len() || a[pos].0 != SyntaxKind::COLON {
        (acc, pos, ok)
    } else {
        let (e, p1, ok1) = p_inter(a, pos + 1, ok);
        if p1 <= pos || p1 > a.len() {
            (acc.push(e), p1, ok1)
        } else {
            union_tail(a, p1, acc.push(e), ok1)
        }
    }
}

pub open spec fn p_inter(a: Seq<Atom>, pos: int, ok: bool) -> (Region, int, bool)
    decreases a.len() - pos, 2int,
{
    if pos < 0 || pos > a.len() {
        (Region::Error, pos, false)
    } else {
        let (e, p1, ok1) = p_factor(a, pos, ok);
        if p1 < pos || p1 > a.len() {
            (e, p1, ok1)
        } else {
            let (parts, p2, ok2) = inter_tail(a, p1, seq![e], ok1);
            (wrap(parts, false), p2, ok2)
        }
    }
}

pub open spec fn starts_factor(k: SyntaxKind) -> bool {
    k == SyntaxKind::NUMBER || k == SyntaxKind::HASH || k == SyntaxKind::L_PAREN
}

pub open spec fn inter_tail(a: Seq<Atom>, pos: int, acc: Seq<Region>, ok: bool) -> (
    Seq<Region>,
    int,
    bool,
)
    decreases a.len() - pos, 1int,
{
    if pos < 0 || pos >= a.len() || !starts_factor(a[pos].0) {
        (acc, pos, ok)
    } else {
        let (e, p1, ok1) = p_factor(a, pos, ok);
        if p1 <= pos || p1 > a.len() {
            (acc.push(e), p1, ok1)
        } else {
            inter_tail(a, p1, acc.push(e), ok1)
        }
    }
}

pub open spec fn abs_of(v: i64) -> i64 {
    if v < 0 {
        (-v) as i64
    } else {
        v
    }
}

pub open spec fn p_factor(a: Seq<Atom>, pos: int, ok: bool) -> (Region, int, bool)
    decreases a.len() - pos, 0int,
{
    if pos < 0 || pos >= a.len() {
        (Region::Error, pos, false)
    } else {
        let k = a[pos].0;
        if k == SyntaxKind::HASH {
            let q = pos + 1;
            if kind_at(a, q) == Some(SyntaxKind::L_PAREN) {
                let (e, p, ok2) = p_union(a, q + 1, ok);
                let (p3, ok3) = expect_r(a, p, ok2);
                (Region::Complement(Box::new(e)), p3, ok3)
            } else if kind_at(a, q) == Some(SyntaxKind::NUMBER) {
                match a[q].2 {
                    Some(id) => (Region::CellComplement(CellRef { token: a[q].1, id }), q + 1, ok),
                    None => (Region::Error, q + 1, false),
                }
            } else {
                (Region::Error, q, false)
            }
        } else if k == SyntaxKind::L_PAREN {
            let (e, p, ok2) = p_union(a, pos + 1, ok);
            let (p3, ok3) = expect_r(a, p, ok2);
            (e, p3, ok3)
        } else if k == SyntaxKind::NUMBER {
            match a[pos].2 {
                Some(v) => (
                    Region::Surface(SurfaceRef { token: a[pos].1, id: abs_of(v), negative: v < 0 }),
                    pos + 1,
                    ok,
                ),
                None => (Region::Error, pos + 1, false),
            }
        } else {
            (Region::Error, pos, false)
        }
    }
}

/// Atom `i` is a number not right after a `#`: one the parser reads as a
/// surface.
pub open spec fn surface_pos(a: Seq<Atom>, i: int) -> bool {
    0 <= i < a.len() && a[i].0 == SyntaxKind::NUMBER && (i == 0 || a[i - 1].0 != SyntaxKind::HASH)
}

/// Every number the parser reads as a surface has a magnitude that fits an
/// `i64`.
pub open spec fn surface_min_free(a: Seq<Atom>) -> bool {
    forall|i: int| #[trigger] surface_pos(a, i) ==> a[i].2 != Some(i64::MIN)
}

/// The cursor never rests on a number right after a `#` it has passed: a
/// `#` is always read together with the number that follows it.
pub open spec fn hash_guard(a: Seq<Atom>, pos: int) -> bool {
    pos <= 0 || pos >= a.len() || a[pos - 1].0 != SyntaxKind::HASH || a[pos].0 != SyntaxKind::NUMBER
}

/// The parser's state over a slice of atoms.
pub struct GeomParser<'a> {
    pub toks: &'a [Atom],
    pub pos: usize,
    pub ok: bool,
}

impl<'a> GeomParser<'a> {
    /// The kind and token of the atom at the cursor.
    pub fn peek(&self) -> (r: Option<(SyntaxKind, u32)>)
        ensures
            r == (if self.pos < self.toks@.len() {
                Some((self.toks@[self.pos as int].0, self.toks@[self.pos as int].1))
            } else {
                None::<(SyntaxKind, u32)>
            }),
    {
        if self.pos < self.toks.len() {
            Some((self.toks[self.pos].0, self.toks[self.pos].1))
        } else {
            None
        }
    }

    pub fn bump(&mut self)
        requires
            old(self).pos < old(self).toks@.len(),
        ensures
            final(self).pos == old(self).pos + 1,
            final(self).toks == old(self).toks,
            final(self).ok == old(self).ok,
    {
        let n = self.toks.len();
        self.pos = self.pos + 1;
    }

    fn peek_kind_is(&self, k: SyntaxKind) -> (r: bool)
        ensures
            r == (kind_at(self.toks@, self.pos as int) == Some(k)),
    {
        self.pos < self.toks.len() && self.toks[self.pos].0 == k
    }

    pub fn expect_rparen(&mut self)
        requires
            old(self).pos <= old(self).toks@.len(),
        ensures
            (final(self).pos as int, final(self).ok) == expect_r(
                old(self).toks@,
                old(self).pos as int,
                old(self).ok,
            ),
            final(self).toks == old(self).toks,
            hash_guard(old(self).toks@, old(self).pos as int) ==> hash_guard(
                old(self).toks@,
                final(self).pos as int,
            ),
    {
        if self.peek_kind_is(SyntaxKind::R_PAREN) {
            let n = self.toks.len();
            self.pos = self.pos + 1;
        } else {
            self.ok = false;
        }
    }

    /// union := intersection (':' intersection)*
    pub fn parse_union(&mut self) -> (r: GeomExpr)
        requires
            old(self).pos <= old(self).toks@.len(),
            surface_min_free(old(self).toks@),
            hash_guard(old(self).toks@, old(self).pos as int),
        ensures
            (region(r), final(self).pos as int, final(self).ok) == p_union(
                old(self).toks@,
                old(self).pos as int,
                old(self).ok,
            ),
            old(self).pos <= final(self).pos <= old(self).toks@.len(),
            final(self).toks == old(self).toks,
            hash_guard(old(self).toks@, final(self).pos as int),
        decreases old(self).toks@.len() - old(self).pos, 4int,
    {
        let ghost a = self.toks@;
        let ghost start = self.pos as int;
        let first = self.parse_intersection();
        let mut parts: Vec<GeomExpr> = Vec::new();
        parts.push(first);
        proof {
            crate::crunchy::geom::lemma_regions(parts@);
            assert(regions(parts@) =~= seq![region(parts@[0])]);
        }
        while self.peek_kind_is(SyntaxKind::COLON)
            invariant
                self.toks@ == a,
                a == old(self).toks@,
                start == old(self).pos,
                surface_min_free(a),
                hash_guard(a, self.pos as int),
                start <= self.pos <= a.len(),
                parts@.len() >= 1,
                union_tail(a, self.pos as int, regions(parts@), self.ok) == union_tail(
                    a,
                    p_inter(a, start, old(self).ok).1,
                    seq![p_inter(a, start, old(self).ok).0],
                    p_inter(a, start, old(self).ok).2,
                ),
            decreases a.len() - self.pos,
        {
            let ghost before = parts@;
            let ghost p0 = self.pos as int;
            let ghost ok0 = self.ok;
            self.bump();
            let e = self.parse_intersection();
            parts.push(e);
            proof {
                assert(parts@.drop_last() =~= before);
                assert(regions(parts@) == regions(before).push(region(e)));
            }
        }
        proof {
            crate::crunchy::geom::lemma_regions(parts@);
        }
        if parts.len() == 1 {
            let mut parts = parts;
            proof {
                assert(parts@.drop_last() =~= Seq::<GeomExpr>::empty());
            }
            parts.pop().unwrap()
        } else {
            GeomExpr::Union(parts)
        }
    }

    /// intersection := factor (factor)*
    pub fn parse_intersection(&mut self) -> (r: GeomExpr)
        requires
            old(self).pos <= old(self).toks@.len(),
            surface_min_free(old(self).toks@),
            hash_guard(old(self).toks@, old(self).pos as int),
        ensures
            (region(r), final(self).pos as int, final(self).ok) == p_inter(
                old(self).toks@,
                old(self).pos as int,
                old(self).ok,
            ),
            old(self).pos <= final(self).pos <= old(self).toks@.len(),
            final(self).toks == old(self).toks,
            hash_guard(old(self).toks@, final(self).pos as int),
        decreases old(self).toks@.len() - old(self).pos, 2int,
    {
        let ghost a = self.toks@;
        let ghost start = self.pos as int;
        let first = self.parse_factor();
        let mut parts: Vec<GeomExpr> = Vec::new();
        parts.push(first);
        proof {
            crate::crunchy::geom::lemma_regions(parts@);
            assert(regions(parts@) =~= seq![region(parts@[0])]);
        }
        while self.peek_kind_is(SyntaxKind::NUMBER) || self.peek_kind_is(SyntaxKind::HASH)
            || self.peek_kind_is(SyntaxKind::L_PAREN)
            invariant
                self.toks@ == a,
                a == old(self).toks@,
                start == old(self).pos,
                surface_min_free(a),
                hash_guard(a, self.pos as int),
                start <= self.pos <= a.len(),
                parts@.len() >= 1,
                inter_tail(a, self.pos as int, regions(parts@), self.ok) == inter_tail(
                    a,
                    p_factor(a, start, old(self).ok).1,
                    seq![p_factor(a, start, old(self).ok).0],
                    p_factor(a, start, old(self).ok).2,
                ),
            decreases a.len() - self.pos,
        {
            let ghost before = parts@;
            let e = self.parse_factor();
            parts.push(e);
            proof {
                assert(parts@.drop_last() =~= before);
                assert(regions(parts@) == regions(before).push(region(e)));
            }
        }
        proof {
            crate::crunchy::geom::lemma_regions(parts@);
        }
        if parts.len() == 1 {
            let mut parts = parts;
            proof {
                assert(parts@.drop_last() =~= Seq::<GeomExpr>::empty());
            }
            parts.pop().unwrap()
        } else {
            GeomExpr::Intersection(parts)
        }
    }

    /// factor := '#(' union ')' | '#' NUMBER | '(' union ')' | signed-surface
    pub fn parse_factor(&mut self) -> (r: GeomExpr)
        requires
            old(self).pos <= old(self).toks@.len(),
            surface_min_free(old(self).toks@),
            hash_guard(old(self).toks@, old(self).pos as int),
        ensures
            (region(r), final(self).pos as int, final(self).ok) == p_factor(
                old(self).toks@,
                old(self).pos as int,
                old(self).ok,
            ),
            old(self).pos <= final(self).pos <= old(self).toks@.len(),
            final(self).toks == old(self).toks,
            hash_guard(old(self).toks@, final(self).pos as int),
            old(self).pos < old(self).toks@.len() && starts_factor(
                old(self).toks@[old(self).pos as int].0,
            ) ==> final(self).pos > old(self).pos,
        decreases old(self).toks@.len() - old(self).pos, 0int,
    {
        let ghost a = self.toks@;
        if self.pos >= self.toks.len() {
            self.ok = false;
            return GeomExpr::Error;
        }
        let (k, tok) = (self.toks[self.pos].0, self.toks[self.pos].1);
        if k == SyntaxKind::HASH {
            self.bump();
            if self.peek_kind_is(SyntaxKind::L_PAREN) {
                self.bump();
                let e = self.parse_union();
                self.expect_rparen();
                GeomExpr::Complement(Box::new(e))
            } else if self.peek_kind_is(SyntaxKind::NUMBER) {
                let (t2, v2) = (self.toks[self.pos].1, self.toks[self.pos].2);
                self.bump();
                match v2 {
                    Some(id) => GeomExpr::CellComplement(CellRef { token: t2, id }),
                    None => {
                        self.ok = false;
                        GeomExpr::Error
                    },
                }
            } else {
                self.ok = false;
                GeomExpr::Error
            }
        } else if k == SyntaxKind::L_PAREN {
            self.bump();
            let e = self.parse_union();
            self.expect_rparen();
            e
        } else if k == SyntaxKind::NUMBER {
            let v = self.toks[self.pos].2;
            self.bump();
            match v {
                Some(v) => {
                    proof {
                        let q = self.pos - 1;
                        assert(surface_pos(a, q));
                    }
                    GeomExpr::Surface(
                        SurfaceRef {
                            token: tok,
                            id: if v < 0 {
                                -v
                            } else {
                                v
                            },
                            negative: v < 0,
                        },
                    )
                },
                None => {
                    self.ok = false;
                    GeomExpr::Error
                },
            }
        } else {
            self.ok = false;
            GeomExpr::Error
        }
    }
}

} // verus!
