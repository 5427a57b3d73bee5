//! Typed reading of crunchy surface cards: boundary marks, id, transform,
//! mnemonic and the coefficient tokens.

use vstd::prelude::*;
use crate::crunchy::cell::{int_of, kind_of};
use crate::crunchy::cst::{content_tokens, GreenTree};
use crate::crunchy::renumber::lemma_content_tokens;
use crate::crunchy::surface_kind::{kind_named, upper_all, SurfaceKind};
use crate::crunchy::syntax_kind::SyntaxKind;
use crate::float::{is_float_text, spec_is_float_text};
use crate::num::parse_int_bytes;

verus! {

/// `k` is what [`SurfaceKind::from_mnemonic`] makes of `text`.
pub open spec fn reads_as_kind(text: Seq<u8>, k: SurfaceKind) -> bool {
    match kind_named(upper_all(text)) {
        Some(n) => k == n,
        None => k matches SurfaceKind::Other(v) && v@ == upper_all(text),
    }
}

/// Token `x` is a number whose text reads as a float.
pub open spec fn is_float_token(t: GreenTree, x: u32) -> bool {
    kind_of(t, x) == SyntaxKind::NUMBER && spec_is_float_text(t.spec_token_text(x as int))
}

/// The numeric entries among `toks[a..j]` and whether every other entry was
/// a `&` mark: `&` is skipped, a number that reads as a float is kept, and
/// anything else spoils the card.
pub open spec fn floats_upto(t: GreenTree, toks: Seq<u32>, a: int, j: int) -> (Seq<u32>, bool)
    decreases j - a,
{
    if j <= a {
        (Seq::empty(), true)
    } else {
        let r = floats_upto(t, toks, a, j - 1);
        let x = toks[j - 1];
        if kind_of(t, x) == SyntaxKind::AMP {
            r
        } else if is_float_token(t, x) {
            (r.0.push(x), r.1)
        } else {
            (r.0, false)
        }
    }
}

/// What a surface card says.
pub struct SurfaceSpec {
    pub id: i64,
    pub id_token: u32,
    pub transform: Option<i64>,
    pub transform_token: Option<u32>,
    pub reflective: bool,
    pub white: bool,
    pub mnemonic_token: u32,
    pub coeff_tokens: Seq<u32>,
    pub well_formed: bool,
}

/// The surface card at `ci`: an optional `*`, a numeric id (a leading `+`
/// marks a white boundary), an optional transform number, the mnemonic, and
/// the coefficients.
pub open spec fn spec_parse_surface(t: GreenTree, ci: int) -> Option<SurfaceSpec> {
    let c = t.spec_cards()[ci];
    let toks = content_tokens(t.spec_tokens(), c.first_tok as int, c.tok_end as int);
    let reflective = toks.len() > 0 && kind_of(t, toks[0]) == SyntaxKind::STAR;
    let p: int = if reflective {
        1
    } else {
        0
    };
    if c.kind != SyntaxKind::SURFACE_CARD || p >= toks.len() || kind_of(t, toks[p])
        != SyntaxKind::NUMBER || int_of(t, toks[p]) is None {
        None
    } else {
        let id_text = t.spec_token_text(toks[p] as int);
        let has_tr = p + 1 < toks.len() && kind_of(t, toks[p + 1]) == SyntaxKind::NUMBER;
        let q: int = if has_tr {
            p + 2
        } else {
            p + 1
        };
        if q >= toks.len() || kind_of(t, toks[q]) != SyntaxKind::IDENT {
            None
        } else {
            let fl = floats_upto(t, toks, q + 1, toks.len() as int);
            Some(
                SurfaceSpec {
                    id: int_of(t, toks[p])->0,
                    id_token: toks[p],
                    transform: if has_tr {
                        int_of(t, toks[p + 1])
                    } else {
                        None
                    },
                    transform_token: if has_tr {
                        Some(toks[p + 1])
                    } else {
                        None
                    },
                    reflective,
                    white: id_text.len() > 0 && id_text[0] == 43u8,
                    mnemonic_token: toks[q],
                    coeff_tokens: fl.0,
                    well_formed: fl.1,
                },
            )
        }
    }
}

/// A parsed surface card. The coefficient values are floats and are read by
/// the caller from `coeff_tokens`.
#[derive(Debug)]
pub struct Surface {
    /// Index into `tree.cards()`.
    pub card_index: usize,
    pub id: i64,
    /// Token of the surface id (anchor for adding a transform number).
    pub id_token: u32,
    /// Optional transformation number; negative denotes a periodic surface.
    pub transform: Option<i64>,
    pub transform_token: Option<u32>,
    /// Leading `*`: a reflective boundary.
    pub reflective: bool,
    /// Leading `+` on the id: a white boundary.
    pub white: bool,
    pub kind: SurfaceKind,
    /// The coefficient tokens, in order; each reads as a float.
    pub coeff_tokens: Vec<u32>,
    /// False if an entry after the mnemonic is not a readable number (for
    /// example an unexpanded repeat shortcut like `2R`).
    pub well_formed: bool,
}

pub open spec fn surface_matches(t: GreenTree, s: Surface, ci: int, sp: SurfaceSpec) -> bool {
    &&& s.card_index == ci
    &&& s.id == sp.id
    &&& s.id_token == sp.id_token
    &&& s.transform == sp.transform
    &&& s.transform_token == sp.transform_token
    &&& s.reflective == sp.reflective
    &&& s.white == sp.white
    &&& reads_as_kind(t.spec_token_text(sp.mnemonic_token as int), s.kind)
    &&& s.coeff_tokens@ == sp.coeff_tokens
    &&& s.well_formed == sp.well_formed
}

/// `s` is the reading of the surface card it names.
pub open spec fn is_surface_of(t: GreenTree, s: Surface) -> bool {
    spec_parse_surface(t, s.card_index as int) matches Some(sp) && surface_matches(
        t,
        s,
        s.card_index as int,
        sp,
    )
}

/// The numeric entries of `toks[a..]` (see [`floats_upto`]).
pub(crate) fn float_entries(tree: &GreenTree, toks: &Vec<u32>, a: usize) -> (r: (Vec<u32>, bool))
    requires
        tree.wf(),
        forall|k: int| 0 <= k < toks@.len() ==> (#[trigger] toks@[k]) < tree.spec_tokens().len(),
        a <= toks@.len(),
    ensures
        (r.0@, r.1) == floats_upto(*tree, toks@, a as int, toks@.len() as int),
{
    let mut out: Vec<u32> = Vec::new();
    let mut ok = true;
    let mut j = a;
    while j < toks.len()
        invariant
            tree.wf(),
            forall|k: int|
                0 <= k < toks@.len() ==> (#[trigger] toks@[k]) < tree.spec_tokens().len(),
            a <= j <= toks@.len(),
            (out@, ok) == floats_upto(*tree, toks@, a as int, j as int),
        decreases toks@.len() - j,
    {
        let x = toks[j];
        let k = tree.token_kind(x);
        if k == SyntaxKind::AMP {
        } else if k == SyntaxKind::NUMBER && is_float_text(tree.token_text(x)) {
            out.push(x);
        } else {
            ok = false;
        }
        j = j + 1;
    }
    (out, ok)
}

/// Parse the surface card at `card_index`, or `None` if it does not look like
/// a surface (no id and mnemonic).
pub fn parse_surface(tree: &GreenTree, card_index: usize) -> (r: Option<Surface>)
    requires
        tree.wf(),
        card_index < tree.spec_cards().len(),
    ensures
        match r {
            Some(s) => spec_parse_surface(*tree, card_index as int) matches Some(sp)
                && surface_matches(*tree, s, card_index as int, sp),
            None => spec_parse_surface(*tree, card_index as int) is None,
        },
{
    proof {
        tree.lemma_cards_in_range();
        tree.lemma_wf();
    }
    let card = tree.cards()[card_index];
    assert(card == tree.spec_cards()[card_index as int]);
    if card.kind != SyntaxKind::SURFACE_CARD {
        return None;
    }
    let toks = tree.card_content_tokens(&card);
    proof {
        lemma_content_tokens(tree.spec_tokens(), card.first_tok as int, card.tok_end as int);
    }
    let n = toks.len();
    let reflective = n > 0 && tree.token_kind(toks[0]) == SyntaxKind::STAR;
    let p: usize = if reflective {
        1
    } else {
        0
    };
    if p >= n || tree.token_kind(toks[p]) != SyntaxKind::NUMBER {
        return None;
    }
    let id_tok = toks[p];
    let id_text = tree.token_text(id_tok);
    let white = id_text.len() > 0 && id_text[0] == 43u8;
    let id = match parse_int_bytes(id_text) {
        Some(v) => v,
        None => {
            return None;
        },
    };
    let has_tr = p + 1 < n && tree.token_kind(toks[p + 1]) == SyntaxKind::NUMBER;
    let mut transform: Option<i64> = None;
    let mut transform_token: Option<u32> = None;
    if has_tr {
        transform = parse_int_bytes(tree.token_text(toks[p + 1]));
        transform_token = Some(toks[p + 1]);
    }
    let q: usize = if has_tr {
        p + 2
    } else {
        p + 1
    };
    if q >= n || tree.token_kind(toks[q]) != SyntaxKind::IDENT {
        return None;
    }
    let kind = SurfaceKind::from_mnemonic_bytes(tree.token_text(toks[q]));
    let (coeff_tokens, well_formed) = float_entries(tree, &toks, q + 1);
    Some(
        Surface {
            card_index,
            id,
            id_token: id_tok,
            transform,
            transform_token,
            reflective,
            white,
            kind,
            coeff_tokens,
            well_formed,
        },
    )
}

/// Every surface card of the tree, parsed, in source order.
pub fn surfaces(tree: &GreenTree) -> (r: Vec<Surface>)
    requires
        tree.wf(),
    ensures
        forall|k: int| 0 <= k < r@.len() ==> is_surface_of(*tree, #[trigger] r@[k]),
        forall|k: int, j: int| 0 <= k < j < r@.len() ==> r@[k].card_index < r@[j].card_index,
        forall|ci: int|
            0 <= ci < tree.spec_cards().len() && (spec_parse_surface(*tree, ci) is Some) ==> exists|
                k: int,
            |
                0 <= k < r@.len() && (#[trigger] r@[k]).card_index == ci,
{
    let n = tree.cards().len();
    let mut out: Vec<Surface> = Vec::new();
    let mut i: usize = 0;
    while i < n
        invariant
            tree.wf(),
            n == tree.spec_cards().len(),
            i <= n,
            forall|k: int| 0 <= k < out@.len() ==> is_surface_of(*tree, #[trigger] out@[k]),
            forall|k: int| 0 <= k < out@.len() ==> (#[trigger] out@[k]).card_index < i,
            forall|k: int, j: int|
                0 <= k < j < out@.len() ==> out@[k].card_index < out@[j].card_index,
            forall|ci: int|
                0 <= ci < i && (spec_parse_surface(*tree, ci) is Some) ==> exists|k: int|
                    0 <= k < out@.len() && (#[trigger] out@[k]).card_index == ci,
        decreases n - i,
    {
        match parse_surface(tree, i) {
            Some(s) => {
                let ghost old_out = out@;
                out.push(s);
                proof {
                    let l = out@.len() - 1;
                    assert(out@[l].card_index == i);
                    assert forall|ci: int|
                        0 <= ci < i + 1 && (spec_parse_surface(*tree, ci) is Some) implies exists|
                            k: int,
                        |
                            0 <= k < out@.len() && (#[trigger] out@[k]).card_index == ci by {
                        if ci < i {
                            let k0 = choose|k: int|
                                0 <= k < old_out.len() && (#[trigger] old_out[k]).card_index == ci;
                            assert(out@[k0] == old_out[k0]);
                        } else {
                            assert(out@[l].card_index == ci);
                        }
                    }
                }
            },
            None => {},
        }
        i = i + 1;
    }
    out
}

} // verus!
