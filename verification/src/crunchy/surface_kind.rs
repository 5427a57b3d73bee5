//! Surface mnemonics.

use vstd::prelude::*;
use vstd::string::StringSliceAdditionalSpecFns;

verus! {

/// A surface mnemonic. `Other` keeps anything not recognised (uppercased) so
/// that parsing never fails on it.
#[derive(Debug, Clone, PartialEq, Eq)]
#[non_exhaustive]
pub enum SurfaceKind {
    // Planes
    P,
    Px,
    Py,
    Pz,
    // Spheres
    So,
    S,
    Sx,
    Sy,
    Sz,
    // Cylinders
    Cx,
    Cy,
    Cz,
    CParX,
    CParY,
    CParZ,
    // Cones
    Kx,
    Ky,
    Kz,
    KParX,
    KParY,
    KParZ,
    // Quadrics / tori
    Sq,
    Gq,
    Tx,
    Ty,
    Tz,
    // Point-defined axisymmetric surfaces
    X,
    Y,
    Z,
    // Macrobodies
    Box,
    Rpp,
    Sph,
    Rcc,
    Rhp,
    Hex,
    Rec,
    Trc,
    Ell,
    Wed,
    Arb,
    /// An unrecognised mnemonic, kept verbatim (uppercased).
    Other(Vec<u8>),
}

/// ASCII uppercase of one byte.
pub open spec fn ascii_upper(b: u8) -> u8 {
    if 97u8 <= b <= 122u8 {
        (b - 32) as u8
    } else {
        b
    }
}

pub open spec fn upper_all(s: Seq<u8>) -> Seq<u8> {
    s.map_values(|b: u8| ascii_upper(b))
}

/// The canonical mnemonic of each named kind; `None` for `Other`.
pub open spec fn named_mnemonic(k: SurfaceKind) -> Option<Seq<u8>> {
    match k {
        SurfaceKind::P => Some(seq![80u8]),
        SurfaceKind::Px => Some(seq![80u8, 88u8]),
        SurfaceKind::Py => Some(seq![80u8, 89u8]),
        SurfaceKind::Pz => Some(seq![80u8, 90u8]),
        SurfaceKind::So => Some(seq![83u8, 79u8]),
        SurfaceKind::S => Some(seq![83u8]),
        SurfaceKind::Sx => Some(seq![83u8, 88u8]),
        SurfaceKind::Sy => Some(seq![83u8, 89u8]),
        SurfaceKind::Sz => Some(seq![83u8, 90u8]),
        SurfaceKind::Cx => Some(seq![67u8, 88u8]),
        SurfaceKind::Cy => Some(seq![67u8, 89u8]),
        SurfaceKind::Cz => Some(seq![67u8, 90u8]),
        SurfaceKind::CParX => Some(seq![67u8, 47u8, 88u8]),
        SurfaceKind::CParY => Some(seq![67u8, 47u8, 89u8]),
        SurfaceKind::CParZ => Some(seq![67u8, 47u8, 90u8]),
        SurfaceKind::Kx => Some(seq![75u8, 88u8]),
        SurfaceKind::Ky => Some(seq![75u8, 89u8]),
        SurfaceKind::Kz => Some(seq![75u8, 90u8]),
        SurfaceKind::KParX => Some(seq![75u8, 47u8, 88u8]),
        SurfaceKind::KParY => Some(seq![75u8, 47u8, 89u8]),
        SurfaceKind::KParZ => Some(seq![75u8, 47u8, 90u8]),
        SurfaceKind::Sq => Some(seq![83u8, 81u8]),
        SurfaceKind::Gq => Some(seq![71u8, 81u8]),
        SurfaceKind::Tx => Some(seq![84u8, 88u8]),
        SurfaceKind::Ty => Some(seq![84u8, 89u8]),
        SurfaceKind::Tz => Some(seq![84u8, 90u8]),
        SurfaceKind::X => Some(seq![88u8]),
        SurfaceKind::Y => Some(seq![89u8]),
        SurfaceKind::Z => Some(seq![90u8]),
        SurfaceKind::Box => Some(seq![66u8, 79u8, 88u8]),
        SurfaceKind::Rpp => Some(seq![82u8, 80u8, 80u8]),
        SurfaceKind::Sph => Some(seq![83u8, 80u8, 72u8]),
        SurfaceKind::Rcc => Some(seq![82u8, 67u8, 67u8]),
        SurfaceKind::Rhp => Some(seq![82u8, 72u8, 80u8]),
        SurfaceKind::Hex => Some(seq![72u8, 69u8, 88u8]),
        SurfaceKind::Rec => Some(seq![82u8, 69u8, 67u8]),
        SurfaceKind::Trc => Some(seq![84u8, 82u8, 67u8]),
        SurfaceKind::Ell => Some(seq![69u8, 76u8, 76u8]),
        SurfaceKind::Wed => Some(seq![87u8, 69u8, 68u8]),
        SurfaceKind::Arb => Some(seq![65u8, 82u8, 66u8]),
        SurfaceKind::Other(_) => None,
    }
}

/// The mnemonic text of a kind: the canonical name, or the kept text.
pub open spec fn spec_mnemonic(k: SurfaceKind) -> Seq<u8> {
    match k {
        SurfaceKind::Other(v) => v@,
        _ => named_mnemonic(k)->0,
    }
}

/// The named kind whose canonical mnemonic is `up`, if any.
pub open spec fn kind_named(up: Seq<u8>) -> Option<SurfaceKind> {
    if up.len() == 1 {
        if up[0] == 80u8 {
            Some(SurfaceKind::P)
        } else if up[0] == 83u8 {
            Some(SurfaceKind::S)
        } else if up[0] == 88u8 {
            Some(SurfaceKind::X)
        } else if up[0] == 89u8 {
            Some(SurfaceKind::Y)
        } else if up[0] == 90u8 {
            Some(SurfaceKind::Z)
        } else {
            None
        }
    } else if up.len() == 2 {
        if up[0] == 80u8 && up[1] == 88u8 {
            Some(SurfaceKind::Px)
        } else if up[0] == 80u8 && up[1] == 89u8 {
            Some(SurfaceKind::Py)
        } else if up[0] == 80u8 && up[1] == 90u8 {
            Some(SurfaceKind::Pz)
        } else if up[0] == 83u8 && up[1] == 79u8 {
            Some(SurfaceKind::So)
        } else if up[0] == 83u8 && up[1] == 88u8 {
            Some(SurfaceKind::Sx)
        } else if up[0] == 83u8 && up[1] == 89u8 {
            Some(SurfaceKind::Sy)
        } else if up[0] == 83u8 && up[1] == 90u8 {
            Some(SurfaceKind::Sz)
        } else if up[0] == 67u8 && up[1] == 88u8 {
            Some(SurfaceKind::Cx)
        } else if up[0] == 67u8 && up[1] == 89u8 {
            Some(SurfaceKind::Cy)
        } else if up[0] == 67u8 && up[1] == 90u8 {
            Some(SurfaceKind::Cz)
        } else if up[0] == 75u8 && up[1] == 88u8 {
            Some(SurfaceKind::Kx)
        } else if up[0] == 75u8 && up[1] == 89u8 {
            Some(SurfaceKind::Ky)
        } else if up[0] == 75u8 && up[1] == 90u8 {
            Some(SurfaceKind::Kz)
        } else if up[0] == 83u8 && up[1] == 81u8 {
            Some(SurfaceKind::Sq)
        } else if up[0] == 71u8 && up[1] == 81u8 {
            Some(SurfaceKind::Gq)
        } else if up[0] == 84u8 && up[1] == 88u8 {
            Some(SurfaceKind::Tx)
        } else if up[0] == 84u8 && up[1] == 89u8 {
            Some(SurfaceKind::Ty)
        } else if up[0] == 84u8 && up[1] == 90u8 {
            Some(SurfaceKind::Tz)
        } else {
            None
        }
    } else if up.len() == 3 {
        if up[0] == 67u8 && up[1] == 47u8 && up[2] == 88u8 {
            Some(SurfaceKind::CParX)
        } else if up[0] == 67u8 && up[1] == 47u8 && up[2] == 89u8 {
            Some(SurfaceKind::CParY)
        } else if up[0] == 67u8 && up[1] == 47u8 && up[2] == 90u8 {
            Some(SurfaceKind::CParZ)
        } else if up[0] == 75u8 && up[1] == 47u8 && up[2] == 88u8 {
            Some(SurfaceKind::KParX)
        } else if up[0] == 75u8 && up[1] == 47u8 && up[2] == 89u8 {
            Some(SurfaceKind::KParY)
        } else if up[0] == 75u8 && up[1] == 47u8 && up[2] == 90u8 {
            Some(SurfaceKind::KParZ)
        } else if up[0] == 66u8 && up[1] == 79u8 && up[2] == 88u8 {
            Some(SurfaceKind::Box)
        } else if up[0] == 82u8 && up[1] == 80u8 && up[2] == 80u8 {
            Some(SurfaceKind::Rpp)
        } else if up[0] == 83u8 && up[1] == 80u8 && up[2] == 72u8 {
            Some(SurfaceKind::Sph)
        } else if up[0] == 82u8 && up[1] == 67u8 && up[2] == 67u8 {
            Some(SurfaceKind::Rcc)
        } else if up[0] == 82u8 && up[1] == 72u8 && up[2] == 80u8 {
            Some(SurfaceKind::Rhp)
        } else if up[0] == 72u8 && up[1] == 69u8 && up[2] == 88u8 {
            Some(SurfaceKind::Hex)
        } else if up[0] == 82u8 && up[1] == 69u8 && up[2] == 67u8 {
            Some(SurfaceKind::Rec)
        } else if up[0] == 84u8 && up[1] == 82u8 && up[2] == 67u8 {
            Some(SurfaceKind::Trc)
        } else if up[0] == 69u8 && up[1] == 76u8 && up[2] == 76u8 {
            Some(SurfaceKind::Ell)
        } else if up[0] == 87u8 && up[1] == 69u8 && up[2] == 68u8 {
            Some(SurfaceKind::Wed)
        } else if up[0] == 65u8 && up[1] == 82u8 && up[2] == 66u8 {
            Some(SurfaceKind::Arb)
        } else {
            None
        }
    } else {
        None
    }
}

pub(crate) fn uppercase(s: &[u8]) -> (r: Vec<u8>)
    ensures
        r@ == upper_all(s@),
{
    let mut out: Vec<u8> = Vec::new();
    let mut k: usize = 0;
    while k < s.len()
        invariant
            k <= s@.len(),
            out@ == upper_all(s@.subrange(0, k as int)),
        decreases s@.len() - k,
    {
        let b = s[k];
        let u = if 97u8 <= b && b <= 122u8 {
            b - 32
        } else {
            b
        };
        out.push(u);
        assert(upper_all(s@.subrange(0, k + 1)) =~= upper_all(s@.subrange(0, k as int)).push(
            ascii_upper(s@[k as int]),
        ));
        k = k + 1;
    }
    assert(s@.subrange(0, s@.len() as int) =~= s@);
    out
}

impl SurfaceKind {
    /// The canonical MCNP mnemonic for this kind.
    pub fn mnemonic(&self) -> (r: Vec<u8>)
        ensures
            r@ == spec_mnemonic(*self),
    {
        let s: &[u8] = match self {
            SurfaceKind::P => &[80u8],
            SurfaceKind::Px => &[80u8, 88u8],
            SurfaceKind::Py => &[80u8, 89u8],
            SurfaceKind::Pz => &[80u8, 90u8],
            SurfaceKind::So => &[83u8, 79u8],
            SurfaceKind::S => &[83u8],
            SurfaceKind::Sx => &[83u8, 88u8],
            SurfaceKind::Sy => &[83u8, 89u8],
            SurfaceKind::Sz => &[83u8, 90u8],
            SurfaceKind::Cx => &[67u8, 88u8],
            SurfaceKind::Cy => &[67u8, 89u8],
            SurfaceKind::Cz => &[67u8, 90u8],
            SurfaceKind::CParX => &[67u8, 47u8, 88u8],
            SurfaceKind::CParY => &[67u8, 47u8, 89u8],
            SurfaceKind::CParZ => &[67u8, 47u8, 90u8],
            SurfaceKind::Kx => &[75u8, 88u8],
            SurfaceKind::Ky => &[75u8, 89u8],
            SurfaceKind::Kz => &[75u8, 90u8],
            SurfaceKind::KParX => &[75u8, 47u8, 88u8],
            SurfaceKind::KParY => &[75u8, 47u8, 89u8],
            SurfaceKind::KParZ => &[75u8, 47u8, 90u8],
            SurfaceKind::Sq => &[83u8, 81u8],
            SurfaceKind::Gq => &[71u8, 81u8],
            SurfaceKind::Tx => &[84u8, 88u8],
            SurfaceKind::Ty => &[84u8, 89u8],
            SurfaceKind::Tz => &[84u8, 90u8],
            SurfaceKind::X => &[88u8],
            SurfaceKind::Y => &[89u8],
            SurfaceKind::Z => &[90u8],
            SurfaceKind::Box => &[66u8, 79u8, 88u8],
            SurfaceKind::Rpp => &[82u8, 80u8, 80u8],
            SurfaceKind::Sph => &[83u8, 80u8, 72u8],
            SurfaceKind::Rcc => &[82u8, 67u8, 67u8],
            SurfaceKind::Rhp => &[82u8, 72u8, 80u8],
            SurfaceKind::Hex => &[72u8, 69u8, 88u8],
            SurfaceKind::Rec => &[82u8, 69u8, 67u8],
            SurfaceKind::Trc => &[84u8, 82u8, 67u8],
            SurfaceKind::Ell => &[69u8, 76u8, 76u8],
            SurfaceKind::Wed => &[87u8, 69u8, 68u8],
            SurfaceKind::Arb => &[65u8, 82u8, 66u8],
            SurfaceKind::Other(v) => {
                return vstd::slice::slice_to_vec(v.as_slice());
            },
        };
        let r = vstd::slice::slice_to_vec(s);
        proof {
            assert(r@ =~= spec_mnemonic(*self));
        }
        r
    }

    /// Parse a mnemonic without regard to ASCII case.
    pub fn from_mnemonic(s: &str) -> (r: SurfaceKind)
        ensures
            match kind_named(upper_all(s.spec_bytes())) {
                Some(k) => r == k,
                None => r matches SurfaceKind::Other(v) && v@ == upper_all(s.spec_bytes()),
            },
    {
        SurfaceKind::from_mnemonic_bytes(s.as_bytes())
    }

    /// [`SurfaceKind::from_mnemonic`] on the bytes of a token.
    pub fn from_mnemonic_bytes(s: &[u8]) -> (r: SurfaceKind)
        ensures
            match kind_named(upper_all(s@)) {
                Some(k) => r == k,
                None => r matches SurfaceKind::Other(v) && v@ == upper_all(s@),
            },
    {
        let up = uppercase(s);
        let u = up.as_slice();
        let n = u.len();
        if n == 1 {
            if u[0] == 80u8 {
                return SurfaceKind::P;
            }
            if u[0] == 83u8 {
                return SurfaceKind::S;
            }
            if u[0] == 88u8 {
                return SurfaceKind::X;
            }
            if u[0] == 89u8 {
                return SurfaceKind::Y;
            }
            if u[0] == 90u8 {
                return SurfaceKind::Z;
            }
        }
        if n == 2 {
            if u[0] == 80u8 && u[1] == 88u8 {
                return SurfaceKind::Px;
            }
            if u[0] == 80u8 && u[1] == 89u8 {
                return SurfaceKind::Py;
            }
            if u[0] == 80u8 && u[1] == 90u8 {
                return SurfaceKind::Pz;
            }
            if u[0] == 83u8 && u[1] == 79u8 {
                return SurfaceKind::So;
            }
            if u[0] == 83u8 && u[1] == 88u8 {
                return SurfaceKind::Sx;
            }
            if u[0] == 83u8 && u[1] == 89u8 {
                return SurfaceKind::Sy;
            }
            if u[0] == 83u8 && u[1] == 90u8 {
                return SurfaceKind::Sz;
            }
            if u[0] == 67u8 && u[1] == 88u8 {
                return SurfaceKind::Cx;
            }
            if u[0] == 67u8 && u[1] == 89u8 {
                return SurfaceKind::Cy;
            }
            if u[0] == 67u8 && u[1] == 90u8 {
                return SurfaceKind::Cz;
            }
            if u[0] == 75u8 && u[1] == 88u8 {
                return SurfaceKind::Kx;
            }
            if u[0] == 75u8 && u[1] == 89u8 {
                return SurfaceKind::Ky;
            }
            if u[0] == 75u8 && u[1] == 90u8 {
                return SurfaceKind::Kz;
            }
            if u[0] == 83u8 && u[1] == 81u8 {
                return SurfaceKind::Sq;
            }
            if u[0] == 71u8 && u[1] == 81u8 {
                return SurfaceKind::Gq;
            }
            if u[0] == 84u8 && u[1] == 88u8 {
                return SurfaceKind::Tx;
            }
            if u[0] == 84u8 && u[1] == 89u8 {
                return SurfaceKind::Ty;
            }
            if u[0] == 84u8 && u[1] == 90u8 {
                return SurfaceKind::Tz;
            }
        }
        if n == 3 {
            if u[0] == 67u8 && u[1] == 47u8 && u[2] == 88u8 {
                return SurfaceKind::CParX;
            }
            if u[0] == 67u8 && u[1] == 47u8 && u[2] == 89u8 {
                return SurfaceKind::CParY;
            }
            if u[0] == 67u8 && u[1] == 47u8 && u[2] == 90u8 {
                return SurfaceKind::CParZ;
            }
            if u[0] == 75u8 && u[1] == 47u8 && u[2] == 88u8 {
                return SurfaceKind::KParX;
            }
            if u[0] == 75u8 && u[1] == 47u8 && u[2] == 89u8 {
                return SurfaceKind::KParY;
            }
            if u[0] == 75u8 && u[1] == 47u8 && u[2] == 90u8 {
                return SurfaceKind::KParZ;
            }
            if u[0] == 66u8 && u[1] == 79u8 && u[2] == 88u8 {
                return SurfaceKind::Box;
            }
            if u[0] == 82u8 && u[1] == 80u8 && u[2] == 80u8 {
                return SurfaceKind::Rpp;
            }
            if u[0] == 83u8 && u[1] == 80u8 && u[2] == 72u8 {
                return SurfaceKind::Sph;
            }
            if u[0] == 82u8 && u[1] == 67u8 && u[2] == 67u8 {
                return SurfaceKind::Rcc;
            }
            if u[0] == 82u8 && u[1] == 72u8 && u[2] == 80u8 {
                return SurfaceKind::Rhp;
            }
            if u[0] == 72u8 && u[1] == 69u8 && u[2] == 88u8 {
                return SurfaceKind::Hex;
            }
            if u[0] == 82u8 && u[1] == 69u8 && u[2] == 67u8 {
                return SurfaceKind::Rec;
            }
            if u[0] == 84u8 && u[1] == 82u8 && u[2] == 67u8 {
                return SurfaceKind::Trc;
            }
            if u[0] == 69u8 && u[1] == 76u8 && u[2] == 76u8 {
                return SurfaceKind::Ell;
            }
            if u[0] == 87u8 && u[1] == 69u8 && u[2] == 68u8 {
                return SurfaceKind::Wed;
            }
            if u[0] == 65u8 && u[1] == 82u8 && u[2] == 66u8 {
                return SurfaceKind::Arb;
            }
        }
        SurfaceKind::Other(up)
    }
}

/// Each named kind's mnemonic is its MCNP name as written in an input file
/// (`CX` is the cylinder on the x axis, `CY` the one on the y axis, ...),
/// and reading that name back gives the kind.
pub proof fn law_mnemonic_names()
    ensures
        spec_mnemonic(SurfaceKind::P) == "P".spec_bytes(),
        kind_named("P".spec_bytes()) == Some(SurfaceKind::P),
        spec_mnemonic(SurfaceKind::Px) == "PX".spec_bytes(),
        kind_named("PX".spec_bytes()) == Some(SurfaceKind::Px),
        spec_mnemonic(SurfaceKind::Py) == "PY".spec_bytes(),
        kind_named("PY".spec_bytes()) == Some(SurfaceKind::Py),
        spec_mnemonic(SurfaceKind::Pz) == "PZ".spec_bytes(),
        kind_named("PZ".spec_bytes()) == Some(SurfaceKind::Pz),
        spec_mnemonic(SurfaceKind::So) == "SO".spec_bytes(),
        kind_named("SO".spec_bytes()) == Some(SurfaceKind::So),
        spec_mnemonic(SurfaceKind::S) == "S".spec_bytes(),
        kind_named("S".spec_bytes()) == Some(SurfaceKind::S),
        spec_mnemonic(SurfaceKind::Sx) == "SX".spec_bytes(),
        kind_named("SX".spec_bytes()) == Some(SurfaceKind::Sx),
        spec_mnemonic(SurfaceKind::Sy) == "SY".spec_bytes(),
        kind_named("SY".spec_bytes()) == Some(SurfaceKind::Sy),
        spec_mnemonic(SurfaceKind::Sz) == "SZ".spec_bytes(),
        kind_named("SZ".spec_bytes()) == Some(SurfaceKind::Sz),
        spec_mnemonic(SurfaceKind::Cx) == "CX".spec_bytes(),
        kind_named("CX".spec_bytes()) == Some(SurfaceKind::Cx),
        spec_mnemonic(SurfaceKind::Cy) == "CY".spec_bytes(),
        kind_named("CY".spec_bytes()) == Some(SurfaceKind::Cy),
        spec_mnemonic(SurfaceKind::Cz) == "CZ".spec_bytes(),
        kind_named("CZ".spec_bytes()) == Some(SurfaceKind::Cz),
        spec_mnemonic(SurfaceKind::CParX) == "C/X".spec_bytes(),
        kind_named("C/X".spec_bytes()) == Some(SurfaceKind::CParX),
        spec_mnemonic(SurfaceKind::CParY) == "C/Y".spec_bytes(),
        kind_named("C/Y".spec_bytes()) == Some(SurfaceKind::CParY),
        spec_mnemonic(SurfaceKind::CParZ) == "C/Z".spec_bytes(),
        kind_named("C/Z".spec_bytes()) == Some(SurfaceKind::CParZ),
        spec_mnemonic(SurfaceKind::Kx) == "KX".spec_bytes(),
        kind_named("KX".spec_bytes()) == Some(SurfaceKind::Kx),
        spec_mnemonic(SurfaceKind::Ky) == "KY".spec_bytes(),
        kind_named("KY".spec_bytes()) == Some(SurfaceKind::Ky),
        spec_mnemonic(SurfaceKind::Kz) == "KZ".spec_bytes(),
        kind_named("KZ".spec_bytes()) == Some(SurfaceKind::Kz),
        spec_mnemonic(SurfaceKind::KParX) == "K/X".spec_bytes(),
        kind_named("K/X".spec_bytes()) == Some(SurfaceKind::KParX),
        spec_mnemonic(SurfaceKind::KParY) == "K/Y".spec_bytes(),
        kind_named("K/Y".spec_bytes()) == Some(SurfaceKind::KParY),
        spec_mnemonic(SurfaceKind::KParZ) == "K/Z".spec_bytes(),
        kind_named("K/Z".spec_bytes()) == Some(SurfaceKind::KParZ),
        spec_mnemonic(SurfaceKind::Sq) == "SQ".spec_bytes(),
        kind_named("SQ".spec_bytes()) == Some(SurfaceKind::Sq),
        spec_mnemonic(SurfaceKind::Gq) == "GQ".spec_bytes(),
        kind_named("GQ".spec_bytes()) == Some(SurfaceKind::Gq),
        spec_mnemonic(SurfaceKind::Tx) == "TX".spec_bytes(),
        kind_named("TX".spec_bytes()) == Some(SurfaceKind::Tx),
        spec_mnemonic(SurfaceKind::Ty) == "TY".spec_bytes(),
        kind_named("TY".spec_bytes()) == Some(SurfaceKind::Ty),
        spec_mnemonic(SurfaceKind::Tz) == "TZ".spec_bytes(),
        kind_named("TZ".spec_bytes()) == Some(SurfaceKind::Tz),
        spec_mnemonic(SurfaceKind::X) == "X".spec_bytes(),
        kind_named("X".spec_bytes()) == Some(SurfaceKind::X),
        spec_mnemonic(SurfaceKind::Y) == "Y".spec_bytes(),
        kind_named("Y".spec_bytes()) == Some(SurfaceKind::Y),
        spec_mnemonic(SurfaceKind::Z) == "Z".spec_bytes(),
        kind_named("Z".spec_bytes()) == Some(SurfaceKind::Z),
        spec_mnemonic(SurfaceKind::Box) == "BOX".spec_bytes(),
        kind_named("BOX".spec_bytes()) == Some(SurfaceKind::Box),
        spec_mnemonic(SurfaceKind::Rpp) == "RPP".spec_bytes(),
        kind_named("RPP".spec_bytes()) == Some(SurfaceKind::Rpp),
        spec_mnemonic(SurfaceKind::Sph) == "SPH".spec_bytes(),
        kind_named("SPH".spec_bytes()) == Some(SurfaceKind::Sph),
        spec_mnemonic(SurfaceKind::Rcc) == "RCC".spec_bytes(),
        kind_named("RCC".spec_bytes()) == Some(SurfaceKind::Rcc),
        spec_mnemonic(SurfaceKind::Rhp) == "RHP".spec_bytes(),
        kind_named("RHP".spec_bytes()) == Some(SurfaceKind::Rhp),
        spec_mnemonic(SurfaceKind::Hex) == "HEX".spec_bytes(),
        kind_named("HEX".spec_bytes()) == Some(SurfaceKind::Hex),
        spec_mnemonic(SurfaceKind::Rec) == "REC".spec_bytes(),
        kind_named("REC".spec_bytes()) == Some(SurfaceKind::Rec),
        spec_mnemonic(SurfaceKind::Trc) == "TRC".spec_bytes(),
        kind_named("TRC".spec_bytes()) == Some(SurfaceKind::Trc),
        spec_mnemonic(SurfaceKind::Ell) == "ELL".spec_bytes(),
        kind_named("ELL".spec_bytes()) == Some(SurfaceKind::Ell),
        spec_mnemonic(SurfaceKind::Wed) == "WED".spec_bytes(),
        kind_named("WED".spec_bytes()) == Some(SurfaceKind::Wed),
        spec_mnemonic(SurfaceKind::Arb) == "ARB".spec_bytes(),
        kind_named("ARB".spec_bytes()) == Some(SurfaceKind::Arb),
{
    broadcast use vstd::string::is_ascii_spec_bytes;

    reveal_strlit("P");
    assert(vstd::string::is_ascii("P"));
    assert("P".spec_bytes() =~= spec_mnemonic(SurfaceKind::P));
    reveal_strlit("PX");
    assert(vstd::string::is_ascii("PX"));
    assert("PX".spec_bytes() =~= spec_mnemonic(SurfaceKind::Px));
    reveal_strlit("PY");
    assert(vstd::string::is_ascii("PY"));
    assert("PY".spec_bytes() =~= spec_mnemonic(SurfaceKind::Py));
    reveal_strlit("PZ");
    assert(vstd::string::is_ascii("PZ"));
    assert("PZ".spec_bytes() =~= spec_mnemonic(SurfaceKind::Pz));
    reveal_strlit("SO");
    assert(vstd::string::is_ascii("SO"));
    assert("SO".spec_bytes() =~= spec_mnemonic(SurfaceKind::So));
    reveal_strlit("S");
    assert(vstd::string::is_ascii("S"));
    assert("S".spec_bytes() =~= spec_mnemonic(SurfaceKind::S));
    reveal_strlit("SX");
    assert(vstd::string::is_ascii("SX"));
    assert("SX".spec_bytes() =~= spec_mnemonic(SurfaceKind::Sx));
    reveal_strlit("SY");
    assert(vstd::string::is_ascii("SY"));
    assert("SY".spec_bytes() =~= spec_mnemonic(SurfaceKind::Sy));
    reveal_strlit("SZ");
    assert(vstd::string::is_ascii("SZ"));
    assert("SZ".spec_bytes() =~= spec_mnemonic(SurfaceKind::Sz));
    reveal_strlit("CX");
    assert(vstd::string::is_ascii("CX"));
    assert("CX".spec_bytes() =~= spec_mnemonic(SurfaceKind::Cx));
    reveal_strlit("CY");
    assert(vstd::string::is_ascii("CY"));
    assert("CY".spec_bytes() =~= spec_mnemonic(SurfaceKind::Cy));
    reveal_strlit("CZ");
    assert(vstd::string::is_ascii("CZ"));
    assert("CZ".spec_bytes() =~= spec_mnemonic(SurfaceKind::Cz));
    reveal_strlit("C/X");
    assert(vstd::string::is_ascii("C/X"));
    assert("C/X".spec_bytes() =~= spec_mnemonic(SurfaceKind::CParX));
    reveal_strlit("C/Y");
    assert(vstd::string::is_ascii("C/Y"));
    assert("C/Y".spec_bytes() =~= spec_mnemonic(SurfaceKind::CParY));
    reveal_strlit("C/Z");
    assert(vstd::string::is_ascii("C/Z"));
    assert("C/Z".spec_bytes() =~= spec_mnemonic(SurfaceKind::CParZ));
    reveal_strlit("KX");
    assert(vstd::string::is_ascii("KX"));
    assert("KX".spec_bytes() =~= spec_mnemonic(SurfaceKind::Kx));
    reveal_strlit("KY");
    assert(vstd::string::is_ascii("KY"));
    assert("KY".spec_bytes() =~= spec_mnemonic(SurfaceKind::Ky));
    reveal_strlit("KZ");
    assert(vstd::string::is_ascii("KZ"));
    assert("KZ".spec_bytes() =~= spec_mnemonic(SurfaceKind::Kz));
    reveal_strlit("K/X");
    assert(vstd::string::is_ascii("K/X"));
    assert("K/X".spec_bytes() =~= spec_mnemonic(SurfaceKind::KParX));
    reveal_strlit("K/Y");
    assert(vstd::string::is_ascii("K/Y"));
    assert("K/Y".spec_bytes() =~= spec_mnemonic(SurfaceKind::KParY));
    reveal_strlit("K/Z");
    assert(vstd::string::is_ascii("K/Z"));
    assert("K/Z".spec_bytes() =~= spec_mnemonic(SurfaceKind::KParZ));
    reveal_strlit("SQ");
    assert(vstd::string::is_ascii("SQ"));
    assert("SQ".spec_bytes() =~= spec_mnemonic(SurfaceKind::Sq));
    reveal_strlit("GQ");
    assert(vstd::string::is_ascii("GQ"));
    assert("GQ".spec_bytes() =~= spec_mnemonic(SurfaceKind::Gq));
    reveal_strlit("TX");
    assert(vstd::string::is_ascii("TX"));
    assert("TX".spec_bytes() =~= spec_mnemonic(SurfaceKind::Tx));
    reveal_strlit("TY");
    assert(vstd::string::is_ascii("TY"));
    assert("TY".spec_bytes() =~= spec_mnemonic(SurfaceKind::Ty));
    reveal_strlit("TZ");
    assert(vstd::string::is_ascii("TZ"));
    assert("TZ".spec_bytes() =~= spec_mnemonic(SurfaceKind::Tz));
    reveal_strlit("X");
    assert(vstd::string::is_ascii("X"));
    assert("X".spec_bytes() =~= spec_mnemonic(SurfaceKind::X));
    reveal_strlit("Y");
    assert(vstd::string::is_ascii("Y"));
    assert("Y".spec_bytes() =~= spec_mnemonic(SurfaceKind::Y));
    reveal_strlit("Z");
    assert(vstd::string::is_ascii("Z"));
    assert("Z".spec_bytes() =~= spec_mnemonic(SurfaceKind::Z));
    reveal_strlit("BOX");
    assert(vstd::string::is_ascii("BOX"));
    assert("BOX".spec_bytes() =~= spec_mnemonic(SurfaceKind::Box));
    reveal_strlit("RPP");
    assert(vstd::string::is_ascii("RPP"));
    assert("RPP".spec_bytes() =~= spec_mnemonic(SurfaceKind::Rpp));
    reveal_strlit("SPH");
    assert(vstd::string::is_ascii("SPH"));
    assert("SPH".spec_bytes() =~= spec_mnemonic(SurfaceKind::Sph));
    reveal_strlit("RCC");
    assert(vstd::string::is_ascii("RCC"));
    assert("RCC".spec_bytes() =~= spec_mnemonic(SurfaceKind::Rcc));
    reveal_strlit("RHP");
    assert(vstd::string::is_ascii("RHP"));
    assert("RHP".spec_bytes() =~= spec_mnemonic(SurfaceKind::Rhp));
    reveal_strlit("HEX");
    assert(vstd::string::is_ascii("HEX"));
    assert("HEX".spec_bytes() =~= spec_mnemonic(SurfaceKind::Hex));
    reveal_strlit("REC");
    assert(vstd::string::is_ascii("REC"));
    assert("REC".spec_bytes() =~= spec_mnemonic(SurfaceKind::Rec));
    reveal_strlit("TRC");
    assert(vstd::string::is_ascii("TRC"));
    assert("TRC".spec_bytes() =~= spec_mnemonic(SurfaceKind::Trc));
    reveal_strlit("ELL");
    assert(vstd::string::is_ascii("ELL"));
    assert("ELL".spec_bytes() =~= spec_mnemonic(SurfaceKind::Ell));
    reveal_strlit("WED");
    assert(vstd::string::is_ascii("WED"));
    assert("WED".spec_bytes() =~= spec_mnemonic(SurfaceKind::Wed));
    reveal_strlit("ARB");
    assert(vstd::string::is_ascii("ARB"));
    assert("ARB".spec_bytes() =~= spec_mnemonic(SurfaceKind::Arb));
    assert(kind_named(spec_mnemonic(SurfaceKind::P)) == Some(SurfaceKind::P));
    assert(kind_named(spec_mnemonic(SurfaceKind::Px)) == Some(SurfaceKind::Px));
    assert(kind_named(spec_mnemonic(SurfaceKind::Py)) == Some(SurfaceKind::Py));
    assert(kind_named(spec_mnemonic(SurfaceKind::Pz)) == Some(SurfaceKind::Pz));
    assert(kind_named(spec_mnemonic(SurfaceKind::So)) == Some(SurfaceKind::So));
    assert(kind_named(spec_mnemonic(SurfaceKind::S)) == Some(SurfaceKind::S));
    assert(kind_named(spec_mnemonic(SurfaceKind::Sx)) == Some(SurfaceKind::Sx));
    assert(kind_named(spec_mnemonic(SurfaceKind::Sy)) == Some(SurfaceKind::Sy));
    assert(kind_named(spec_mnemonic(SurfaceKind::Sz)) == Some(SurfaceKind::Sz));
    assert(kind_named(spec_mnemonic(SurfaceKind::Cx)) == Some(SurfaceKind::Cx));
    assert(kind_named(spec_mnemonic(SurfaceKind::Cy)) == Some(SurfaceKind::Cy));
    assert(kind_named(spec_mnemonic(SurfaceKind::Cz)) == Some(SurfaceKind::Cz));
    assert(kind_named(spec_mnemonic(SurfaceKind::CParX)) == Some(SurfaceKind::CParX));
    assert(kind_named(spec_mnemonic(SurfaceKind::CParY)) == Some(SurfaceKind::CParY));
    assert(kind_named(spec_mnemonic(SurfaceKind::CParZ)) == Some(SurfaceKind::CParZ));
    assert(kind_named(spec_mnemonic(SurfaceKind::Kx)) == Some(SurfaceKind::Kx));
    assert(kind_named(spec_mnemonic(SurfaceKind::Ky)) == Some(SurfaceKind::Ky));
    assert(kind_named(spec_mnemonic(SurfaceKind::Kz)) == Some(SurfaceKind::Kz));
    assert(kind_named(spec_mnemonic(SurfaceKind::KParX)) == Some(SurfaceKind::KParX));
    assert(kind_named(spec_mnemonic(SurfaceKind::KParY)) == Some(SurfaceKind::KParY));
    assert(kind_named(spec_mnemonic(SurfaceKind::KParZ)) == Some(SurfaceKind::KParZ));
    assert(kind_named(spec_mnemonic(SurfaceKind::Sq)) == Some(SurfaceKind::Sq));
    assert(kind_named(spec_mnemonic(SurfaceKind::Gq)) == Some(SurfaceKind::Gq));
    assert(kind_named(spec_mnemonic(SurfaceKind::Tx)) == Some(SurfaceKind::Tx));
    assert(kind_named(spec_mnemonic(SurfaceKind::Ty)) == Some(SurfaceKind::Ty));
    assert(kind_named(spec_mnemonic(SurfaceKind::Tz)) == Some(SurfaceKind::Tz));
    assert(kind_named(spec_mnemonic(SurfaceKind::X)) == Some(SurfaceKind::X));
    assert(kind_named(spec_mnemonic(SurfaceKind::Y)) == Some(SurfaceKind::Y));
    assert(kind_named(spec_mnemonic(SurfaceKind::Z)) == Some(SurfaceKind::Z));
    assert(kind_named(spec_mnemonic(SurfaceKind::Box)) == Some(SurfaceKind::Box));
    assert(kind_named(spec_mnemonic(SurfaceKind::Rpp)) == Some(SurfaceKind::Rpp));
    assert(kind_named(spec_mnemonic(SurfaceKind::Sph)) == Some(SurfaceKind::Sph));
    assert(kind_named(spec_mnemonic(SurfaceKind::Rcc)) == Some(SurfaceKind::Rcc));
    assert(kind_named(spec_mnemonic(SurfaceKind::Rhp)) == Some(SurfaceKind::Rhp));
    assert(kind_named(spec_mnemonic(SurfaceKind::Hex)) == Some(SurfaceKind::Hex));
    assert(kind_named(spec_mnemonic(SurfaceKind::Rec)) == Some(SurfaceKind::Rec));
    assert(kind_named(spec_mnemonic(SurfaceKind::Trc)) == Some(SurfaceKind::Trc));
    assert(kind_named(spec_mnemonic(SurfaceKind::Ell)) == Some(SurfaceKind::Ell));
    assert(kind_named(spec_mnemonic(SurfaceKind::Wed)) == Some(SurfaceKind::Wed));
    assert(kind_named(spec_mnemonic(SurfaceKind::Arb)) == Some(SurfaceKind::Arb));
}

/// Reading back the mnemonic of a named kind, in any case, gives the kind.
pub proof fn law_mnemonic_round_trip(k: SurfaceKind, text: Seq<u8>)
    requires
        !(k is Other),
        upper_all(text) == spec_mnemonic(k),
    ensures
        kind_named(upper_all(text)) == Some(k),
{
    match k {
        SurfaceKind::P => {
            assert(upper_all(text) =~= seq![80u8]);
        },
        SurfaceKind::Px => {
            assert(upper_all(text) =~= seq![80u8, 88u8]);
        },
        SurfaceKind::Py => {
            assert(upper_all(text) =~= seq![80u8, 89u8]);
        },
        SurfaceKind::Pz => {
            assert(upper_all(text) =~= seq![80u8, 90u8]);
        },
        SurfaceKind::So => {
            assert(upper_all(text) =~= seq![83u8, 79u8]);
        },
        SurfaceKind::S => {
            assert(upper_all(text) =~= seq![83u8]);
        },
        SurfaceKind::Sx => {
            assert(upper_all(text) =~= seq![83u8, 88u8]);
        },
        SurfaceKind::Sy => {
            assert(upper_all(text) =~= seq![83u8, 89u8]);
        },
        SurfaceKind::Sz => {
            assert(upper_all(text) =~= seq![83u8, 90u8]);
        },
        SurfaceKind::Cx => {
            assert(upper_all(text) =~= seq![67u8, 88u8]);
        },
        SurfaceKind::Cy => {
            assert(upper_all(text) =~= seq![67u8, 89u8]);
        },
        SurfaceKind::Cz => {
            assert(upper_all(text) =~= seq![67u8, 90u8]);
        },
        SurfaceKind::CParX => {
            assert(upper_all(text) =~= seq![67u8, 47u8, 88u8]);
        },
        SurfaceKind::CParY => {
            assert(upper_all(text) =~= seq![67u8, 47u8, 89u8]);
        },
        SurfaceKind::CParZ => {
            assert(upper_all(text) =~= seq![67u8, 47u8, 90u8]);
        },
        SurfaceKind::Kx => {
            assert(upper_all(text) =~= seq![75u8, 88u8]);
        },
        SurfaceKind::Ky => {
            assert(upper_all(text) =~= seq![75u8, 89u8]);
        },
        SurfaceKind::Kz => {
            assert(upper_all(text) =~= seq![75u8, 90u8]);
        },
        SurfaceKind::KParX => {
            assert(upper_all(text) =~= seq![75u8, 47u8, 88u8]);
        },
        SurfaceKind::KParY => {
            assert(upper_all(text) =~= seq![75u8, 47u8, 89u8]);
        },
        SurfaceKind::KParZ => {
            assert(upper_all(text) =~= seq![75u8, 47u8, 90u8]);
        },
        SurfaceKind::Sq => {
            assert(upper_all(text) =~= seq![83u8, 81u8]);
        },
        SurfaceKind::Gq => {
            assert(upper_all(text) =~= seq![71u8, 81u8]);
        },
        SurfaceKind::Tx => {
            assert(upper_all(text) =~= seq![84u8, 88u8]);
        },
        SurfaceKind::Ty => {
            assert(upper_all(text) =~= seq![84u8, 89u8]);
        },
        SurfaceKind::Tz => {
            assert(upper_all(text) =~= seq![84u8, 90u8]);
        },
        SurfaceKind::X => {
            assert(upper_all(text) =~= seq![88u8]);
        },
        SurfaceKind::Y => {
            assert(upper_all(text) =~= seq![89u8]);
        },
        SurfaceKind::Z => {
            assert(upper_all(text) =~= seq![90u8]);
        },
        SurfaceKind::Box => {
            assert(upper_all(text) =~= seq![66u8, 79u8, 88u8]);
        },
        SurfaceKind::Rpp => {
            assert(upper_all(text) =~= seq![82u8, 80u8, 80u8]);
        },
        SurfaceKind::Sph => {
            assert(upper_all(text) =~= seq![83u8, 80u8, 72u8]);
        },
        SurfaceKind::Rcc => {
            assert(upper_all(text) =~= seq![82u8, 67u8, 67u8]);
        },
        SurfaceKind::Rhp => {
            assert(upper_all(text) =~= seq![82u8, 72u8, 80u8]);
        },
        SurfaceKind::Hex => {
            assert(upper_all(text) =~= seq![72u8, 69u8, 88u8]);
        },
        SurfaceKind::Rec => {
            assert(upper_all(text) =~= seq![82u8, 69u8, 67u8]);
        },
        SurfaceKind::Trc => {
            assert(upper_all(text) =~= seq![84u8, 82u8, 67u8]);
        },
        SurfaceKind::Ell => {
            assert(upper_all(text) =~= seq![69u8, 76u8, 76u8]);
        },
        SurfaceKind::Wed => {
            assert(upper_all(text) =~= seq![87u8, 69u8, 68u8]);
        },
        SurfaceKind::Arb => {
            assert(upper_all(text) =~= seq![65u8, 82u8, 66u8]);
        },
        SurfaceKind::Other(_) => {
            assert(false);
        },
    }
}

} // verus!
