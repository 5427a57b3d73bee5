//! Geometry written back as MCNP text: senses, `#` complements, unions with
//! `:`, intersections by juxtaposition, parenthesised where precedence needs.

use vstd::prelude::*;
use crate::crunchy::geom::{region, regions, GeomExpr, Region};
use crate::decimal::{fmt_int, int_text};

verus! {

/// How tightly a node binds: union loosest, then intersection, then a factor.
pub open spec fn prec(r: Region) -> int {
    match r {
        Region::Union(_) => 1,
        Region::Intersection(_) => 2,
        _ => 3,
    }
}

/// The text of a region.
pub open spec fn emit_region(r: Region) -> Seq<u8>
    decreases r,
{
    match r {
        Region::Surface(s) => if s.negative {
            seq![45u8] + int_text(s.id as int)
        } else {
            int_text(s.id as int)
        },
        Region::CellComplement(c) => seq![35u8] + int_text(c.id as int),
        Region::Complement(b) => seq![35u8, 40u8] + emit_region(*b) + seq![41u8],
        Region::Intersection(v) => emit_parts(v, 2, seq![32u8]),
        Region::Union(v) => emit_parts(v, 1, seq![32u8, 58u8, 32u8]),
        Region::Error => Seq::empty(),
    }
}

/// Parts joined by `sep`, each in parentheses when it binds looser than `min`.
pub open spec fn emit_parts(v: Seq<Region>, min: int, sep: Seq<u8>) -> Seq<u8>
    decreases v,
{
    if v.len() == 0 {
        Seq::empty()
    } else {
        let last = v.last();
        let t = if prec(last) < min {
            seq![40u8] + emit_region(last) + seq![41u8]
        } else {
            emit_region(last)
        };
        if v.len() == 1 {
            t
        } else {
            emit_parts(v.drop_last(), min, sep) + sep + t
        }
    }
}

fn precedence(e: &GeomExpr) -> (r: u8)
    ensures
        r == prec(region(*e)),
{
    match e {
        GeomExpr::Union(_) => 1,
        GeomExpr::Intersection(_) => 2,
        _ => 3,
    }
}

fn emit_child(child: &GeomExpr, min: u8) -> (r: Vec<u8>)
    ensures
        r@ == (if prec(region(*child)) < min {
            seq![40u8] + emit_region(region(*child)) + seq![41u8]
        } else {
            emit_region(region(*child))
        }),
    decreases child, 1nat,
{
    let s = emit_geometry(child);
    if precedence(child) < min {
        let mut out: Vec<u8> = Vec::new();
        out.push(40u8);
        let mut s = s;
        out.append(&mut s);
        out.push(41u8);
        proof {
            assert(out@ =~= seq![40u8] + emit_region(region(*child)) + seq![41u8]);
        }
        out
    } else {
        s
    }
}

fn emit_joined(v: &Vec<GeomExpr>, min: u8, sep: &[u8]) -> (r: Vec<u8>)
    ensures
        r@ == emit_parts(regions(v@), min as int, sep@),
    decreases v, 0nat,
{
    let mut out: Vec<u8> = Vec::new();
    let mut i: usize = 0;
    while i < v.len()
        invariant
            i <= v@.len(),
            out@ == emit_parts(regions(v@.subrange(0, i as int)), min as int, sep@),
        decreases v@.len() - i,
    {
        let mut part = emit_child(&v[i], min);
        proof {
            let sub = v@.subrange(0, i + 1);
            assert(sub.drop_last() =~= v@.subrange(0, i as int));
            assert(regions(sub).drop_last() =~= regions(v@.subrange(0, i as int)));
            assert(regions(sub).last() == region(v@[i as int]));
            crate::crunchy::geom::lemma_regions(sub);
        }
        if i > 0 {
            crate::bytes::push_range(&mut out, sep, 0, sep.len());
            proof {
                assert(sep@.subrange(0, sep@.len() as int) =~= sep@);
            }
        }
        out.append(&mut part);
        i = i + 1;
    }
    proof {
        assert(v@.subrange(0, i as int) =~= v@);
    }
    out
}

/// The MCNP text of a geometry region.
pub fn emit_geometry(e: &GeomExpr) -> (r: Vec<u8>)
    ensures
        r@ == emit_region(region(*e)),
    decreases e, 0nat,
{
    match e {
        GeomExpr::Surface(s) => {
            let mut t = fmt_int(s.id);
            if s.negative {
                let ghost body = t@;
                t.insert(0, 45u8);
                proof {
                    assert(t@ =~= seq![45u8] + body);
                }
            }
            t
        },
        GeomExpr::CellComplement(c) => {
            let mut t = fmt_int(c.id);
            let ghost body = t@;
            t.insert(0, 35u8);
            proof {
                assert(t@ =~= seq![35u8] + body);
            }
            t
        },
        GeomExpr::Complement(inner) => {
            let mut out: Vec<u8> = Vec::new();
            out.push(35u8);
            out.push(40u8);
            let mut s = emit_geometry(inner);
            out.append(&mut s);
            out.push(41u8);
            proof {
                assert(out@ =~= seq![35u8, 40u8] + emit_region(region(**inner)) + seq![41u8]);
            }
            out
        },
        GeomExpr::Intersection(parts) => {
            let sep: [u8; 1] = [32u8];
            proof {
                assert(sep@ =~= seq![32u8]);
            }
            emit_joined(parts, 2, &sep)
        },
        GeomExpr::Union(parts) => {
            let sep: [u8; 3] = [32u8, 58u8, 32u8];
            proof {
                assert(sep@ =~= seq![32u8, 58u8, 32u8]);
            }
            emit_joined(parts, 1, &sep)
        },
        GeomExpr::Error => Vec::new(),
    }
}

} // verus!
