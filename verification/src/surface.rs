//! Typed reading of a surface card: `[*|+]id [transform] mnemonic coeffs...`

use vstd::prelude::*;
use crate::card::Card;
use crate::cell::positive;
use crate::kind::SyntaxKind;
use crate::scan::{
    float_at, int_at, lemma_sig, next, sig, spec_float_at, spec_int_at, spec_sig, spec_text_at,
    text_at,
};
use crate::token::Token;

verus! {

/// Where each field of a surface card sits, as token indices.
#[derive(Debug, Clone, Copy, PartialEq, Eq, Structural)]
pub struct SurfaceLayout {
    pub id: Option<i64>,
    pub id_tok: Option<usize>,
    /// Leading `*`: a reflective boundary.
    pub reflective: bool,
    /// Token index of the leading `*`, when present.
    pub star_tok: Option<usize>,
    /// Leading `+`: a white boundary. The `+` lives inside the id token.
    pub white: bool,
    /// Optional transform number before the mnemonic; negative means periodic.
    pub transform: Option<i64>,
    pub transform_tok: Option<usize>,
    pub mnemonic_tok: Option<usize>,
    /// Token index of the first coefficient.
    pub coeffs_start: usize,
    pub well_formed: bool,
}

pub open spec fn empty_surface(end: int) -> SurfaceLayout {
    SurfaceLayout {
        id: None,
        id_tok: None,
        reflective: false,
        star_tok: None,
        white: false,
        transform: None,
        transform_tok: None,
        mnemonic_tok: None,
        coeffs_start: end as usize,
        well_formed: false,
    }
}

pub open spec fn kind_is(ts: Seq<Token>, k: int, kind: SyntaxKind) -> bool {
    0 <= k < ts.len() && ts[k].kind == kind
}

/// The id token's text starts with `+`.
pub open spec fn starts_plus(c: Card, i: int) -> bool {
    0 <= i < c.spec_tokens().len() && spec_text_at(c, i).len() > 0 && spec_text_at(c, i)[0]
        == 43u8
}

/// The transform token (if any) and the mnemonic token after the id token
/// `j`: a number is a transform only when a mnemonic follows it.
pub open spec fn transform_and_mnemonic(ts: Seq<Token>, j: int) -> (Option<int>, Option<int>) {
    if kind_is(ts, j, SyntaxKind::Number) {
        match spec_sig(ts, j + 1) {
            Some(k) => if kind_is(ts, k, SyntaxKind::Ident) {
                (Some(j), Some(k))
            } else {
                (None, None)
            },
            None => (None, None),
        }
    } else if kind_is(ts, j, SyntaxKind::Ident) {
        (None, Some(j))
    } else {
        (None, None)
    }
}

/// The layout once the id token `i` is known.
pub open spec fn surface_from_id(c: Card, i: int, star_tok: Option<usize>) -> SurfaceLayout {
    let ts = c.spec_tokens();
    let end = ts.len() as int;
    let base = SurfaceLayout {
        id: positive(spec_int_at(c, i)),
        id_tok: Some(i as usize),
        reflective: star_tok is Some,
        star_tok,
        white: starts_plus(c, i),
        ..empty_surface(end)
    };
    match spec_sig(ts, i + 1) {
        None => base,
        Some(j) => {
            let (tr, mn) = transform_and_mnemonic(ts, j);
            let coeffs_start = match mn {
                Some(k) => match spec_sig(ts, k + 1) {
                    Some(x) => x,
                    None => end,
                },
                None => end,
            };
            SurfaceLayout {
                transform: match tr {
                    Some(t) => spec_int_at(c, t),
                    None => None,
                },
                transform_tok: match tr {
                    Some(t) => Some(t as usize),
                    None => None,
                },
                mnemonic_tok: match mn {
                    Some(k) => Some(k as usize),
                    None => None,
                },
                coeffs_start: coeffs_start as usize,
                well_formed: base.id is Some && mn is Some && coeffs_start < end,
                ..base
            }
        },
    }
}

/// The layout of a surface card: an optional `*`, the id (perhaps with a
/// `+`), an optional transform, the mnemonic and its coefficients.
pub open spec fn spec_surface_layout(c: Card) -> SurfaceLayout {
    let ts = c.spec_tokens();
    let end = ts.len() as int;
    match spec_sig(ts, 0) {
        None => empty_surface(end),
        Some(i0) => if ts[i0].kind == SyntaxKind::Star {
            match spec_sig(ts, i0 + 1) {
                None => SurfaceLayout {
                    reflective: true,
                    star_tok: Some(i0 as usize),
                    ..empty_surface(end)
                },
                Some(i) => surface_from_id(c, i, Some(i0 as usize)),
            }
        } else {
            surface_from_id(c, i0, None)
        },
    }
}

fn from_id(card: &Card, i: usize, star_tok: Option<usize>) -> (r: SurfaceLayout)
    requires
        card.wf(),
        i < card.spec_tokens().len(),
    ensures
        r == surface_from_id(*card, i as int, star_tok),
{
    let end = card.tokens().len();
    let ghost ts = card.spec_tokens();
    let white = match text_at(card, i) {
        Some(t) => t.len() > 0 && t[0] == 43u8,
        None => false,
    };
    let id = match int_at(card, i) {
        Some(v) => if v > 0 {
            Some(v)
        } else {
            None
        },
        None => None,
    };
    let base = SurfaceLayout {
        id,
        id_tok: Some(i),
        reflective: star_tok.is_some(),
        star_tok,
        white,
        transform: None,
        transform_tok: None,
        mnemonic_tok: None,
        coeffs_start: end,
        well_formed: false,
    };
    proof {
        lemma_sig(ts, i + 1);
    }
    let j = match next(card, i) {
        Some(j) => j,
        None => {
            return base;
        },
    };
    let kj = card.tokens()[j].kind;
    let mut tr: Option<usize> = None;
    let mut mn: Option<usize> = None;
    if kj == SyntaxKind::Number {
        proof {
            lemma_sig(ts, j + 1);
        }
        match next(card, j) {
            Some(k) => {
                if card.tokens()[k].kind == SyntaxKind::Ident {
                    tr = Some(j);
                    mn = Some(k);
                }
            },
            None => {},
        }
    } else if kj == SyntaxKind::Ident {
        mn = Some(j);
    }
    let mut coeffs_start = end;
    match mn {
        Some(k) => {
            proof {
                lemma_sig(ts, k + 1);
            }
            match next(card, k) {
                Some(x) => {
                    coeffs_start = x;
                },
                None => {},
            }
        },
        None => {},
    }
    let transform = match tr {
        Some(t) => int_at(card, t),
        None => None,
    };
    SurfaceLayout {
        transform,
        transform_tok: tr,
        mnemonic_tok: mn,
        coeffs_start,
        well_formed: id.is_some() && mn.is_some() && coeffs_start < end,
        ..base
    }
}

/// Read a surface card's structure.
pub fn layout(card: &Card) -> (r: SurfaceLayout)
    requires
        card.wf(),
    ensures
        r == spec_surface_layout(*card),
{
    let end = card.tokens().len();
    let ghost ts = card.spec_tokens();
    proof {
        lemma_sig(ts, 0);
    }
    let i0 = match sig(card, 0) {
        Some(i) => i,
        None => {
            return SurfaceLayout {
                id: None,
                id_tok: None,
                reflective: false,
                star_tok: None,
                white: false,
                transform: None,
                transform_tok: None,
                mnemonic_tok: None,
                coeffs_start: end,
                well_formed: false,
            };
        },
    };
    if card.tokens()[i0].kind == SyntaxKind::Star {
        proof {
            lemma_sig(ts, i0 + 1);
        }
        match next(card, i0) {
            Some(i) => from_id(card, i, Some(i0)),
            None => SurfaceLayout {
                id: None,
                id_tok: None,
                reflective: true,
                star_tok: Some(i0),
                white: false,
                transform: None,
                transform_tok: None,
                mnemonic_tok: None,
                coeffs_start: end,
                well_formed: false,
            },
        }
    } else {
        from_id(card, i0, None)
    }
}

/// The surface's mnemonic as written (`SO`, `PX`, `RPP`, ...).
pub fn mnemonic<'a>(card: &'a Card, l: &SurfaceLayout) -> (r: Option<&'a [u8]>)
    requires
        card.wf(),
    ensures
        match l.mnemonic_tok {
            Some(i) => if i < card.spec_tokens().len() {
                r is Some && r->0@ == spec_text_at(*card, i as int)
            } else {
                r is None
            },
            None => r is None,
        },
{
    match l.mnemonic_tok {
        Some(i) => text_at(card, i),
        None => None,
    }
}

/// Token indices of the coefficients from token `i` on: each next significant
/// token while it reads as a number.
pub open spec fn coeff_run(c: Card, i: int) -> Seq<usize>
    decreases c.spec_tokens().len() - i,
{
    let ts = c.spec_tokens();
    if i < 0 || i >= ts.len() {
        Seq::empty()
    } else {
        match spec_sig(ts, i) {
            Some(k) => if i <= k < ts.len() && spec_float_at(c, k) {
                seq![k as usize] + coeff_run(c, k + 1)
            } else {
                Seq::empty()
            },
            None => Seq::empty(),
        }
    }
}

/// Token indices of the surface's coefficients, in file order, stopping at
/// the first one that does not read as a number.
pub fn coeff_tokens(card: &Card, l: &SurfaceLayout) -> (r: Vec<usize>)
    requires
        card.wf(),
    ensures
        r@ == coeff_run(*card, l.coeffs_start as int),
{
    coeff_run_from(card, l.coeffs_start)
}

/// The run of number tokens starting at the first significant token at or
/// after `from`.
pub fn coeff_run_from(card: &Card, from: usize) -> (r: Vec<usize>)
    requires
        card.wf(),
    ensures
        r@ == coeff_run(*card, from as int),
{
    let mut out: Vec<usize> = Vec::new();
    let mut i = from;
    let end = card.tokens().len();
    let ghost ts = card.spec_tokens();
    let mut stop = false;
    while !stop && i < end
        invariant
            card.wf(),
            end == ts.len(),
            ts == card.spec_tokens(),
            out@ + coeff_run(*card, i as int) == coeff_run(*card, from as int),
            stop ==> coeff_run(*card, i as int) == Seq::<usize>::empty(),
        decreases end - i + (if stop { 0int } else { 1int }),
    {
        proof {
            lemma_sig(ts, i as int);
        }
        match sig(card, i) {
            Some(k) => {
                if float_at(card, k) {
                    proof {
                        assert(out@.push(k) + coeff_run(*card, k + 1) =~= out@ + coeff_run(
                            *card,
                            i as int,
                        ));
                    }
                    out.push(k);
                    i = k + 1;
                } else {
                    stop = true;
                }
            },
            None => {
                stop = true;
            },
        }
    }
    proof {
        assert(out@ + Seq::<usize>::empty() =~= out@);
    }
    out
}

/// The tokens a layout names are tokens of the card.
pub proof fn lemma_mnemonic_in_range(c: Card)
    ensures
        match spec_surface_layout(c).mnemonic_tok {
            Some(i) => i < c.spec_tokens().len(),
            None => true,
        },
        match spec_surface_layout(c).id_tok {
            Some(i) => i < c.spec_tokens().len(),
            None => true,
        },
        match spec_surface_layout(c).transform_tok {
            Some(i) => i < c.spec_tokens().len(),
            None => true,
        },
{
    let ts = c.spec_tokens();
    lemma_sig(ts, 0);
    match spec_sig(ts, 0) {
        Some(i0) => {
            lemma_sig(ts, i0 + 1);
            let i = if ts[i0].kind == SyntaxKind::Star {
                spec_sig(ts, i0 + 1)
            } else {
                Some(i0)
            };
            match i {
                Some(i) => {
                    lemma_sig(ts, i + 1);
                    match spec_sig(ts, i + 1) {
                        Some(j) => {
                            lemma_sig(ts, j + 1);
                        },
                        None => {},
                    }
                },
                None => {},
            }
        },
        None => {},
    }
}

} // verus!
