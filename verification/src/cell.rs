//! Typed reading of a cell card: `id material [density] geometry params`, or
//! `id LIKE n BUT params`. Recomputed on demand from the card's own tokens.

use vstd::prelude::*;
use crate::card::Card;
use crate::float::eq_lower;
use crate::kind::{SyntaxKind, spec_is_trivia};
use crate::scan::{
    float_at, int_at, kind_at, lemma_sig, next, sig, spec_float_at, spec_int_at, spec_sig,
    spec_text_at, text_at,
};
use crate::token::Token;
use crate::bytes::push_range;
use crate::data::particle_and_cursor;
use crate::surface::kind_is;
use crate::text::{spec_trim, trim};
use crate::token::tokens_wf;

verus! {

/// Where each field of a cell card sits, as token indices.
#[derive(Debug, Clone, Copy, PartialEq, Eq, Structural)]
pub struct CellLayout {
    pub id: Option<i64>,
    /// `LIKE n BUT ...` base cell.
    pub like: Option<i64>,
    pub like_tok: Option<usize>,
    pub material: Option<i64>,
    pub material_tok: Option<usize>,
    pub density_tok: Option<usize>,
    /// The density field reads as a number.
    pub has_density: bool,
    /// Token index range of the geometry expression.
    pub geometry_start: usize,
    pub geometry_end: usize,
    /// Token index range of the trailing keyword parameters.
    pub params_start: usize,
    pub params_end: usize,
    pub well_formed: bool,
}

pub open spec fn word_like() -> Seq<u8> {
    seq![108u8, 105u8, 107u8, 101u8]
}

pub open spec fn word_but() -> Seq<u8> {
    seq![98u8, 117u8, 116u8]
}

/// Token `i` is the keyword `w` (compared without regard to ASCII case).
pub open spec fn is_kw(c: Card, i: int, w: Seq<u8>) -> bool {
    0 <= i < c.spec_tokens().len() && eq_lower(spec_text_at(c, i), w)
}

pub open spec fn positive(o: Option<i64>) -> Option<i64> {
    match o {
        Some(v) => if v > 0 {
            Some(v)
        } else {
            None
        },
        None => None,
    }
}

pub open spec fn opt_usize(o: Option<int>) -> Option<usize> {
    match o {
        Some(v) => Some(v as usize),
        None => None,
    }
}

/// Index of the first identifier or `*` at or after `j`, or the token count:
/// where a cell's parameters begin.
pub open spec fn first_keyword(ts: Seq<Token>, j: int) -> int
    decreases ts.len() - j,
{
    if j < 0 || j >= ts.len() {
        ts.len() as int
    } else if ts[j].kind == SyntaxKind::Ident || ts[j].kind == SyntaxKind::Star {
        j
    } else {
        first_keyword(ts, j + 1)
    }
}

/// Some token in `[a, b)` is a number.
pub open spec fn has_number(ts: Seq<Token>, a: int, b: int) -> bool {
    exists|k: int| a <= k < b && k < ts.len() && (#[trigger] ts[k]).kind == SyntaxKind::Number
}

pub open spec fn empty_layout(end: int) -> CellLayout {
    CellLayout {
        id: None,
        like: None,
        like_tok: None,
        material: None,
        material_tok: None,
        density_tok: None,
        has_density: false,
        geometry_start: end as usize,
        geometry_end: end as usize,
        params_start: end as usize,
        params_end: end as usize,
        well_formed: false,
    }
}

/// The layout of a cell card: the first significant token is the id; then
/// either `LIKE n BUT` and parameters, or the material, a density when the
/// material is not void, the geometry up to the first keyword, and the
/// parameters after it.
pub open spec fn spec_cell_layout(c: Card) -> CellLayout {
    let ts = c.spec_tokens();
    let end = ts.len() as int;
    let base = empty_layout(end);
    match spec_sig(ts, 0) {
        None => base,
        Some(id_tok) => {
            let id = positive(spec_int_at(c, id_tok));
            match spec_sig(ts, id_tok + 1) {
                None => CellLayout { id, ..base },
                Some(i) => if is_kw(c, i, word_like()) {
                    match spec_sig(ts, i + 1) {
                        None => CellLayout { id, ..base },
                        Some(b) => {
                            let like = spec_int_at(c, b);
                            let after = spec_sig(ts, b + 1);
                            let but = match after {
                                Some(j) => is_kw(c, j, word_but()),
                                None => false,
                            };
                            let ps = if but {
                                match spec_sig(ts, after->0 + 1) {
                                    Some(p) => p,
                                    None => end,
                                }
                            } else {
                                end
                            };
                            CellLayout {
                                id,
                                like,
                                like_tok: Some(b as usize),
                                params_start: ps as usize,
                                well_formed: id is Some && like is Some && but,
                                ..base
                            }
                        },
                    }
                } else {
                    let material = spec_int_at(c, i);
                    let cur0 = spec_sig(ts, i + 1);
                    let nonvoid = material is Some && material->0 != 0;
                    let density_tok = if nonvoid {
                        cur0
                    } else {
                        None
                    };
                    let has_density = match density_tok {
                        Some(d) => spec_float_at(c, d),
                        None => false,
                    };
                    let cursor = match density_tok {
                        Some(d) => spec_sig(ts, d + 1),
                        None => cur0,
                    };
                    let gs = match cursor {
                        Some(g) => g,
                        None => end,
                    };
                    let ps = first_keyword(ts, gs);
                    CellLayout {
                        id,
                        material,
                        material_tok: Some(i as usize),
                        density_tok: opt_usize(density_tok),
                        has_density,
                        geometry_start: gs as usize,
                        geometry_end: ps as usize,
                        params_start: ps as usize,
                        well_formed: id is Some && material is Some && (material == Some(0i64)
                            || has_density) && has_number(ts, gs, ps),
                        ..base
                    }
                },
            }
        },
    }
}

/// Token `i` is the keyword `w`, compared without regard to ASCII case.
fn is_word(card: &Card, i: usize, w: &[u8]) -> (r: bool)
    requires
        card.wf(),
    ensures
        r == is_kw(*card, i as int, w@),
{
    match text_at(card, i) {
        Some(t) => eq_lower_bytes(t, w),
        None => false,
    }
}

/// Byte-wise equality ignoring ASCII case, against a lowercase word.
pub fn eq_lower_bytes(t: &[u8], w: &[u8]) -> (r: bool)
    ensures
        r == eq_lower(t@, w@),
{
    if t.len() != w.len() {
        return false;
    }
    let mut k: usize = 0;
    while k < t.len()
        invariant
            t@.len() == w@.len(),
            k <= t@.len(),
            forall|m: int| 0 <= m < k ==> crate::lines::ascii_lower(#[trigger] t@[m]) == w@[m],
        decreases t@.len() - k,
    {
        let b = t[k];
        let lb = if 65u8 <= b && b <= 90u8 {
            b + 32
        } else {
            b
        };
        if lb != w[k] {
            return false;
        }
        k = k + 1;
    }
    true
}

fn first_keyword_from(card: &Card, j: usize) -> (r: usize)
    ensures
        r == first_keyword(card.spec_tokens(), j as int),
{
    let n = card.tokens().len();
    if j >= n {
        return n;
    }
    let mut k = j;
    while k < n
        invariant
            n == card.spec_tokens().len(),
            j <= k <= n,
            first_keyword(card.spec_tokens(), j as int) == first_keyword(card.spec_tokens(), k as int),
        decreases n - k,
    {
        let kind = card.tokens()[k].kind;
        if kind == SyntaxKind::Ident || kind == SyntaxKind::Star {
            return k;
        }
        k = k + 1;
    }
    n
}

/// Whether some token in `[a, b)` is a number.
fn has_surface(card: &Card, a: usize, b: usize) -> (r: bool)
    ensures
        r == has_number(card.spec_tokens(), a as int, b as int),
{
    let n = card.tokens().len();
    let end = if b < n {
        b
    } else {
        n
    };
    let mut k = a;
    while k < end
        invariant
            n == card.spec_tokens().len(),
            end <= n,
            end <= b,
            a <= k,
            forall|m: int| a <= m < k && m < end ==> (#[trigger] card.spec_tokens()[m]).kind
                != SyntaxKind::Number,
        decreases end - k,
    {
        if card.tokens()[k].kind == SyntaxKind::Number {
            assert(card.spec_tokens()[k as int].kind == SyntaxKind::Number);
            return true;
        }
        k = k + 1;
    }
    proof {
        assert forall|m: int| a <= m < b && m < card.spec_tokens().len() implies (
        #[trigger] card.spec_tokens()[m]).kind != SyntaxKind::Number by {
            assert(m < end);
        }
    }
    false
}

/// Read a cell card's structure.
pub fn layout(card: &Card) -> (r: CellLayout)
    requires
        card.wf(),
    ensures
        r == spec_cell_layout(*card),
{
    let end = card.tokens().len();
    let ghost ts = card.spec_tokens();
    let like: [u8; 4] = [108u8, 105u8, 107u8, 101u8];
    let but: [u8; 3] = [98u8, 117u8, 116u8];
    assert(like@ == word_like());
    assert(but@ == word_but());
    let base = CellLayout {
        id: None,
        like: None,
        like_tok: None,
        material: None,
        material_tok: None,
        density_tok: None,
        has_density: false,
        geometry_start: end,
        geometry_end: end,
        params_start: end,
        params_end: end,
        well_formed: false,
    };
    let id_tok = match sig(card, 0) {
        Some(t) => t,
        None => {
            return base;
        },
    };
    proof {
        lemma_sig(ts, 0);
    }
    let id = match int_at(card, id_tok) {
        Some(v) => if v > 0 {
            Some(v)
        } else {
            None
        },
        None => None,
    };
    let i = match next(card, id_tok) {
        Some(i) => i,
        None => {
            return CellLayout { id, ..base };
        },
    };
    proof {
        lemma_sig(ts, id_tok + 1);
    }
    if is_word(card, i, &like) {
        let base_tok = match next(card, i) {
            Some(b) => b,
            None => {
                return CellLayout { id, ..base };
            },
        };
        proof {
            lemma_sig(ts, i + 1);
        }
        let like_id = int_at(card, base_tok);
        let after = next(card, base_tok);
        proof {
            lemma_sig(ts, base_tok + 1);
        }
        let mut is_but = false;
        let mut ps = end;
        match after {
            Some(j) => {
                is_but = is_word(card, j, &but);
                if is_but {
                    proof {
                        lemma_sig(ts, j + 1);
                    }
                    match next(card, j) {
                        Some(p) => {
                            ps = p;
                        },
                        None => {},
                    }
                }
            },
            None => {},
        }
        assert(is_but == (match spec_sig(ts, base_tok + 1) {
            Some(j) => is_kw(*card, j, word_but()),
            None => false,
        }));
        return CellLayout {
            id,
            like: like_id,
            like_tok: Some(base_tok),
            params_start: ps,
            well_formed: id.is_some() && like_id.is_some() && is_but,
            ..base
        };
    }
    let material = int_at(card, i);
    let cur0 = next(card, i);
    let nonvoid = match material {
        Some(m) => m != 0,
        None => false,
    };
    let density_tok = if nonvoid {
        cur0
    } else {
        None
    };
    let has_density = match density_tok {
        Some(d) => float_at(card, d),
        None => false,
    };
    proof {
        lemma_sig(ts, i + 1);
    }
    let cursor = match density_tok {
        Some(d) => {
            proof {
                lemma_sig(ts, d + 1);
            }
            next(card, d)
        },
        None => cur0,
    };
    let gs = match cursor {
        Some(g) => g,
        None => end,
    };
    let ps = first_keyword_from(card, gs);
    let wf = id.is_some() && material.is_some() && (material == Some(0i64) || has_density)
        && has_surface(card, gs, ps);
    CellLayout {
        id,
        material,
        material_tok: Some(i),
        density_tok,
        has_density,
        geometry_start: gs,
        geometry_end: ps,
        params_start: ps,
        well_formed: wf,
        ..base
    }
}


/// One element of a cell's geometry expression, in file order.
#[derive(Debug, Clone, Copy, PartialEq, Eq, Structural)]
pub enum GeometryTermKind {
    Surface,
    Complement,
    LParen,
    RParen,
    Union,
}

/// A geometry term plus the token index it came from, so an edit can address it.
#[derive(Debug, Clone)]
pub struct GeometryTerm {
    pub kind: GeometryTermKind,
    pub text: Vec<u8>,
    /// Token index of the term's number (or of the operator itself).
    pub token: usize,
}

impl View for GeometryTerm {
    type V = (GeometryTermKind, Seq<u8>, usize);

    open spec fn view(&self) -> (GeometryTermKind, Seq<u8>, usize) {
        (self.kind, self.text@, self.token)
    }
}

/// The geometry terms of a card from token `i` up to token `end`.
///
/// A number directly after `#` is a cell reference (`#n` complements cell
/// `n`); a `#` followed by anything else complements the region that follows,
/// whose numbers are surfaces.
pub open spec fn geometry_terms(c: Card, i: int, end: int) -> Seq<
    (GeometryTermKind, Seq<u8>, usize),
>
    decreases c.spec_tokens().len() - i,
{
    let ts = c.spec_tokens();
    if i < 0 || i >= end || i >= ts.len() {
        Seq::empty()
    } else {
        let k = ts[i].kind;
        let rest = geometry_terms(c, i + 1, end);
        if k == SyntaxKind::Number {
            seq![(GeometryTermKind::Surface, spec_text_at(c, i), i as usize)] + rest
        } else if k == SyntaxKind::LParen {
            seq![(GeometryTermKind::LParen, seq![40u8], i as usize)] + rest
        } else if k == SyntaxKind::RParen {
            seq![(GeometryTermKind::RParen, seq![41u8], i as usize)] + rest
        } else if k == SyntaxKind::Colon {
            seq![(GeometryTermKind::Union, seq![58u8], i as usize)] + rest
        } else if k == SyntaxKind::Hash {
            match spec_sig(ts, i + 1) {
                Some(j) => if i < j < ts.len() && ts[j].kind == SyntaxKind::Number {
                    seq![
                        (GeometryTermKind::Complement, seq![35u8] + spec_text_at(c, j), j as usize),
                    ] + geometry_terms(c, j + 1, end)
                } else {
                    seq![(GeometryTermKind::Complement, seq![35u8], i as usize)] + rest
                },
                None => seq![(GeometryTermKind::Complement, seq![35u8], i as usize)] + rest,
            }
        } else {
            rest
        }
    }
}

fn term(kind: GeometryTermKind, byte: u8, token: usize) -> (r: GeometryTerm)
    ensures
        r@ == (kind, seq![byte], token),
{
    let text = vec![byte];
    GeometryTerm { kind, text, token }
}

/// Walk the geometry expression in token range `[start, end)`.
pub fn walk_geometry(card: &Card, start: usize, end: usize) -> (r: Vec<GeometryTerm>)
    requires
        card.wf(),
    ensures
        r@.len() == geometry_terms(*card, start as int, end as int).len(),
        forall|k: int|
            0 <= k < r@.len() ==> (#[trigger] r@[k])@ == geometry_terms(
                *card,
                start as int,
                end as int,
            )[k],
{
    let mut out: Vec<GeometryTerm> = Vec::new();
    let n = card.tokens().len();
    let ghost ts = card.spec_tokens();
    let ghost full = geometry_terms(*card, start as int, end as int);
    let ghost mut done: Seq<(GeometryTermKind, Seq<u8>, usize)> = Seq::empty();
    let mut i = start;
    while i < end && i < n
        invariant
            card.wf(),
            n == ts.len(),
            ts == card.spec_tokens(),
            done + geometry_terms(*card, i as int, end as int) == full,
            out@.len() == done.len(),
            forall|k: int| 0 <= k < out@.len() ==> (#[trigger] out@[k])@ == done[k],
        decreases n - i,
    {
        let kind = card.tokens()[i].kind;
        let ghost rest = geometry_terms(*card, i + 1, end as int);
        if kind == SyntaxKind::Number {
            let text = vstd::slice::slice_to_vec(card.token_text(i));
            let t = GeometryTerm { kind: GeometryTermKind::Surface, text, token: i };
            proof {
                done = done.push(t@);
                assert(done + rest == full);
            }
            out.push(t);
            i = i + 1;
        } else if kind == SyntaxKind::LParen || kind == SyntaxKind::RParen || kind
            == SyntaxKind::Colon {
            let t = if kind == SyntaxKind::LParen {
                term(GeometryTermKind::LParen, 40u8, i)
            } else if kind == SyntaxKind::RParen {
                term(GeometryTermKind::RParen, 41u8, i)
            } else {
                term(GeometryTermKind::Union, 58u8, i)
            };
            proof {
                done = done.push(t@);
                assert(done + rest == full);
            }
            out.push(t);
            i = i + 1;
        } else if kind == SyntaxKind::Hash {
            proof {
                lemma_sig(ts, i + 1);
            }
            let nx = next(card, i);
            let mut target: Option<usize> = None;
            match nx {
                Some(j) => {
                    if card.tokens()[j].kind == SyntaxKind::Number {
                        target = Some(j);
                    }
                },
                None => {},
            }
            match target {
                Some(j) => {
                    let mut text = vec![35u8];
                    let tt = card.token_text(j);
                    push_range(&mut text, tt, 0, tt.len());
                    proof {
                        assert(tt@.subrange(0, tt@.len() as int) =~= tt@);
                    }
                    let t = GeometryTerm { kind: GeometryTermKind::Complement, text, token: j };
                    proof {
                        assert(t@.1 == seq![35u8] + spec_text_at(*card, j as int));
                        assert(geometry_terms(*card, i as int, end as int) == seq![t@]
                            + geometry_terms(*card, j + 1, end as int));
                        assert(done + geometry_terms(*card, i as int, end as int) == full);
                        assert((done + seq![t@]) + geometry_terms(*card, j + 1, end as int) =~= done
                            + (seq![t@] + geometry_terms(*card, j + 1, end as int)));
                        assert(done.push(t@) =~= done + seq![t@]);
                        done = done.push(t@);
                    }
                    out.push(t);
                    i = j + 1;
                },
                None => {
                    let t = term(GeometryTermKind::Complement, 35u8, i);
                    proof {
                        done = done.push(t@);
                        assert(done + rest == full);
                    }
                    out.push(t);
                    i = i + 1;
                },
            }
        } else {
            i = i + 1;
        }
    }
    proof {
        assert(done == full);
    }
    out
}


/// One `keyword[:particle][=]value` entry on a cell card.
#[derive(Debug, Clone)]
pub struct CellParam {
    pub key: Vec<u8>,
    pub particle: Option<Vec<u8>>,
    pub starred: bool,
    pub value: Vec<u8>,
    /// Token index of the keyword, so an edit can find it again.
    pub key_token: usize,
    /// Token index range of the value: `[value_start, value_end)`.
    pub value_start: usize,
    pub value_end: usize,
}

/// Where a parameter sits: its keyword token, its particle designator, its
/// `*`, and the token range of its value.
pub struct ParamSpec {
    pub key_token: int,
    pub particle: Option<Seq<u8>>,
    pub starred: bool,
    pub value_start: int,
    pub value_end: int,
}

/// The source text spanning tokens `[a, b)`, trivia included, trimmed.
pub open spec fn spec_slice_tokens(c: Card, a: int, b: int) -> Seq<u8> {
    let ts = c.spec_tokens();
    let e = if b < ts.len() {
        b
    } else {
        ts.len() as int
    };
    if a < 0 || a >= e {
        Seq::empty()
    } else {
        spec_trim(c.spec_text().subrange(ts[a].start as int, ts[e - 1].spec_end()))
    }
}

/// Where a parameter's value ends: it runs over significant tokens from `j`
/// up to the next keyword outside parentheses (`fill=7 (0 0 5)` is one value).
pub open spec fn value_end_from(ts: Seq<Token>, j: int, end: int, depth: int, ve: int) -> int
    decreases ts.len() - j,
{
    if j < 0 || j >= end || j >= ts.len() {
        ve
    } else {
        match spec_sig(ts, j) {
            None => ve,
            Some(k) => if k >= end || k < j || k >= ts.len() {
                ve
            } else {
                let kd = ts[k].kind;
                if kd == SyntaxKind::LParen {
                    value_end_from(ts, k + 1, end, depth + 1, k + 1)
                } else if kd == SyntaxKind::RParen {
                    value_end_from(ts, k + 1, end, depth - 1, k + 1)
                } else if (kd == SyntaxKind::Ident || kd == SyntaxKind::Star) && depth <= 0 {
                    ve
                } else {
                    value_end_from(ts, k + 1, end, depth, k + 1)
                }
            },
        }
    }
}

/// The keyword token a parameter starting its search at `i0` uses: past an
/// optional `*`, which must be followed by something before `end`.
pub open spec fn key_candidate(ts: Seq<Token>, i0: int, end: int) -> Option<int> {
    if ts[i0].kind == SyntaxKind::Star {
        match spec_sig(ts, i0 + 1) {
            Some(j) => if j < end {
                Some(j)
            } else {
                None
            },
            None => None,
        }
    } else {
        Some(i0)
    }
}

/// The parameter whose keyword is token `i`.
pub open spec fn param_at(c: Card, i: int, starred: bool, end: int) -> ParamSpec {
    let ts = c.spec_tokens();
    let pc = particle_and_cursor(c, i);
    let cur = match pc.1 {
        Some(j) => if kind_is(ts, j, SyntaxKind::Eq) {
            spec_sig(ts, j + 1)
        } else {
            Some(j)
        },
        None => None,
    };
    let vs = match cur {
        Some(v) => v,
        None => end,
    };
    ParamSpec {
        key_token: i,
        particle: pc.0,
        starred,
        value_start: vs,
        value_end: value_end_from(ts, vs, end, 0, vs),
    }
}

/// The trailing keyword parameters from token `cursor` on. A token that
/// cannot start a parameter is skipped.
pub open spec fn params_from(c: Card, cursor: int, end: int) -> Seq<ParamSpec>
    decreases c.spec_tokens().len() - cursor,
{
    let ts = c.spec_tokens();
    if cursor < 0 || cursor >= ts.len() {
        Seq::empty()
    } else {
        match spec_sig(ts, cursor) {
            None => Seq::empty(),
            Some(i0) => if i0 >= end || i0 < cursor || i0 >= ts.len() {
                Seq::empty()
            } else {
                match key_candidate(ts, i0, end) {
                    None => Seq::empty(),
                    Some(i) => if i < cursor || i >= ts.len() {
                        Seq::empty()
                    } else if ts[i].kind != SyntaxKind::Ident {
                        params_from(c, i + 1, end)
                    } else {
                        let p = param_at(c, i, ts[i0].kind == SyntaxKind::Star, end);
                        let nxt = if p.value_end > i + 1 {
                            p.value_end
                        } else {
                            i + 1
                        };
                        if nxt <= ts.len() {
                            seq![p] + params_from(c, nxt, end)
                        } else {
                            seq![p]
                        }
                    },
                }
            },
        }
    }
}

/// The parameters of a cell card in token range `[start, end)`.
pub open spec fn spec_params(c: Card, start: int, end: int) -> Seq<ParamSpec> {
    let n = c.spec_tokens().len() as int;
    params_from(
        c,
        start,
        if end < n {
            end
        } else {
            n
        },
    )
}

/// A value's end is where its search started, or past it and within the
/// tokens.
proof fn lemma_value_end(ts: Seq<Token>, j: int, end: int, depth: int, ve: int)
    requires
        0 <= j,
    ensures
        value_end_from(ts, j, end, depth, ve) == ve || (j < value_end_from(ts, j, end, depth, ve)
            <= ts.len()),
    decreases ts.len() - j,
{
    if j < end && j < ts.len() {
        lemma_sig(ts, j);
        match spec_sig(ts, j) {
            None => {},
            Some(k) => if k >= end || k < j || k >= ts.len() {
            } else {
                let kd = ts[k].kind;
                if kd == SyntaxKind::LParen {
                    lemma_value_end(ts, k + 1, end, depth + 1, k + 1);
                } else if kd == SyntaxKind::RParen {
                    lemma_value_end(ts, k + 1, end, depth - 1, k + 1);
                } else if (kd == SyntaxKind::Ident || kd == SyntaxKind::Star) && depth <= 0 {
                } else {
                    lemma_value_end(ts, k + 1, end, depth, k + 1);
                }
            },
        }
    }
}

/// Every parameter's value starts after its keyword, and a non-empty value
/// ends within the tokens.
pub proof fn lemma_params_values(c: Card, cursor: int, end: int)
    requires
        0 <= cursor,
    ensures
        forall|k: int|
            0 <= k < params_from(c, cursor, end).len() ==> {
                let p = #[trigger] params_from(c, cursor, end)[k];
                &&& p.key_token < p.value_start <= p.value_end
                &&& p.value_start < p.value_end ==> p.value_end <= c.spec_tokens().len()
            },
    decreases c.spec_tokens().len() - cursor,
{
    let ts = c.spec_tokens();
    if 0 <= cursor < ts.len() {
        lemma_sig(ts, cursor);
        match spec_sig(ts, cursor) {
            None => {},
            Some(i0) => if i0 >= end || i0 < cursor || i0 >= ts.len() {
            } else {
                lemma_sig(ts, i0 + 1);
                match key_candidate(ts, i0, end) {
                    None => {},
                    Some(i) => if i < cursor || i >= ts.len() {
                    } else if ts[i].kind != SyntaxKind::Ident {
                        lemma_params_values(c, i + 1, end);
                    } else {
                        let p = param_at(c, i, ts[i0].kind == SyntaxKind::Star, end);
                        assert(i < end);
                        lemma_sig(ts, i + 1);
                        let pc = particle_and_cursor(c, i);
                        if let Some(j) = spec_sig(ts, i + 1) {
                            lemma_sig(ts, j + 1);
                            if let Some(a) = spec_sig(ts, j + 1) {
                                lemma_sig(ts, a + 1);
                            }
                        }
                        if let Some(j) = pc.1 {
                            assert(j > i);
                            lemma_sig(ts, j + 1);
                        }
                        assert(p.value_start > i);
                        lemma_value_end(ts, p.value_start, end, 0, p.value_start);
                        let nxt = if p.value_end > i + 1 {
                            p.value_end
                        } else {
                            i + 1
                        };
                        if nxt <= ts.len() {
                            lemma_params_values(c, nxt, end);
                            let r = params_from(c, nxt, end);
                            assert forall|k: int| 0 <= k < params_from(c, cursor, end).len() implies {
                                let q = #[trigger] params_from(c, cursor, end)[k];
                                &&& q.key_token < q.value_start <= q.value_end
                                &&& q.value_start < q.value_end ==> q.value_end <= ts.len()
                            } by {
                                if k > 0 {
                                    assert(params_from(c, cursor, end)[k] == r[k - 1]);
                                }
                            }
                        }
                    },
                }
            },
        }
    }
}

/// The keyword of every parameter read from `cursor` on is a token of the
/// card at or after `cursor`.
pub proof fn lemma_params_in_range(c: Card, cursor: int, end: int)
    requires
        0 <= cursor,
    ensures
        forall|k: int|
            0 <= k < params_from(c, cursor, end).len() ==> cursor <= (#[trigger] params_from(
                c,
                cursor,
                end,
            )[k]).key_token < c.spec_tokens().len(),
    decreases c.spec_tokens().len() - cursor,
{
    let ts = c.spec_tokens();
    if 0 <= cursor < ts.len() {
        match spec_sig(ts, cursor) {
            None => {},
            Some(i0) => if i0 >= end || i0 < cursor || i0 >= ts.len() {
            } else {
                match key_candidate(ts, i0, end) {
                    None => {},
                    Some(i) => if i < cursor || i >= ts.len() {
                    } else if ts[i].kind != SyntaxKind::Ident {
                        lemma_params_in_range(c, i + 1, end);
                    } else {
                        let p = param_at(c, i, ts[i0].kind == SyntaxKind::Star, end);
                        let nxt = if p.value_end > i + 1 {
                            p.value_end
                        } else {
                            i + 1
                        };
                        if nxt <= ts.len() {
                            lemma_params_in_range(c, nxt, end);
                            let r = params_from(c, nxt, end);
                            assert forall|k: int| 0 <= k < params_from(c, cursor, end).len() implies cursor
                                <= (#[trigger] params_from(c, cursor, end)[k]).key_token < ts.len() by {
                                if k > 0 {
                                    assert(params_from(c, cursor, end)[k] == r[k - 1]);
                                }
                            }
                        }
                    },
                }
            },
        }
    }
}

/// The parameters read from `cursor` on come in token order: each keyword
/// lies before its values (or it has none), and each parameter's values end
/// at or before the next keyword.
pub proof fn lemma_params_order(c: Card, cursor: int, end: int)
    requires
        0 <= cursor,
    ensures
        forall|k: int|
            0 <= k < params_from(c, cursor, end).len() ==> cursor <= (#[trigger] params_from(
                c,
                cursor,
                end,
            )[k]).key_token && (params_from(c, cursor, end)[k].key_token < params_from(
                c,
                cursor,
                end,
            )[k].value_start || params_from(c, cursor, end)[k].value_end == params_from(
                c,
                cursor,
                end,
            )[k].value_start),
        forall|a: int, b: int|
            0 <= a < b < params_from(c, cursor, end).len() ==> (#[trigger] params_from(
                c,
                cursor,
                end,
            )[a]).key_token < (#[trigger] params_from(c, cursor, end)[b]).key_token
                && params_from(c, cursor, end)[a].value_end <= params_from(c, cursor, end)[b].key_token,
    decreases c.spec_tokens().len() - cursor,
{
    let ts = c.spec_tokens();
    let ps = params_from(c, cursor, end);
    if 0 <= cursor < ts.len() {
        match spec_sig(ts, cursor) {
            None => {},
            Some(i0) => if i0 >= end || i0 < cursor || i0 >= ts.len() {
            } else {
                match key_candidate(ts, i0, end) {
                    None => {},
                    Some(i) => if i < cursor || i >= ts.len() {
                    } else if ts[i].kind != SyntaxKind::Ident {
                        lemma_params_order(c, i + 1, end);
                    } else {
                        let p = param_at(c, i, ts[i0].kind == SyntaxKind::Star, end);
                        lemma_sig(ts, i + 1);
                        match spec_sig(ts, i + 1) {
                            Some(j) => {
                                lemma_sig(ts, j + 1);
                                match spec_sig(ts, j + 1) {
                                    Some(a) => {
                                        lemma_sig(ts, a + 1);
                                    },
                                    None => {},
                                }
                            },
                            None => {},
                        }
                        let pc = particle_and_cursor(c, i);
                        match pc.1 {
                            Some(j) => {
                                assert(j > i);
                                if kind_is(ts, j, SyntaxKind::Eq) {
                                    lemma_sig(ts, j + 1);
                                }
                            },
                            None => {},
                        }
                        assert(p.key_token < p.value_start || p.value_end == p.value_start);
                        let nxt = if p.value_end > i + 1 {
                            p.value_end
                        } else {
                            i + 1
                        };
                        if nxt <= ts.len() {
                            lemma_params_order(c, nxt, end);
                            let r = params_from(c, nxt, end);
                            assert(ps == seq![p] + r);
                            assert forall|k: int| 0 <= k < ps.len() implies cursor <= (
                            #[trigger] ps[k]).key_token && (ps[k].key_token < ps[k].value_start
                                || ps[k].value_end == ps[k].value_start) by {
                                if k > 0 {
                                    assert(ps[k] == r[k - 1]);
                                }
                            }
                            assert forall|a: int, b: int| 0 <= a < b < ps.len() implies (
                            #[trigger] ps[a]).key_token < (#[trigger] ps[b]).key_token
                                && ps[a].value_end <= ps[b].key_token by {
                                assert(ps[b] == r[b - 1]);
                                if a > 0 {
                                    assert(ps[a] == r[a - 1]);
                                }
                            }
                        }
                    },
                }
            },
        }
    }
}

/// The tokens a cell layout names are tokens of the card.
pub proof fn lemma_layout_in_range(c: Card)
    ensures
        match spec_cell_layout(c).like_tok {
            Some(i) => i < c.spec_tokens().len(),
            None => true,
        },
        match spec_cell_layout(c).material_tok {
            Some(i) => i < c.spec_tokens().len(),
            None => true,
        },
{
    let ts = c.spec_tokens();
    lemma_sig(ts, 0);
    match spec_sig(ts, 0) {
        Some(id_tok) => {
            lemma_sig(ts, id_tok + 1);
            match spec_sig(ts, id_tok + 1) {
                Some(i) => {
                    lemma_sig(ts, i + 1);
                },
                None => {},
            }
        },
        None => {},
    }
}

/// Some token of `[a, b)` is a `:`.
pub open spec fn colon_in(ts: Seq<Token>, a: int, b: int) -> bool {
    exists|k: int| a <= k < b && 0 <= k < ts.len() && (#[trigger] ts[k]).kind == SyntaxKind::Colon
}

/// Whether a `:` stands among tokens `[a, b)`.
pub fn colon_in_exec(card: &Card, a: usize, b: usize) -> (r: bool)
    ensures
        r == colon_in(card.spec_tokens(), a as int, b as int),
{
    let toks = card.tokens();
    let mut k = a;
    while k < b && k < toks.len()
        invariant
            toks@ == card.spec_tokens(),
            a <= k,
            forall|m: int| a <= m < k && 0 <= m < toks@.len() ==> (#[trigger] toks@[m]).kind != SyntaxKind::Colon,
        decreases b - k,
    {
        if toks[k].kind == SyntaxKind::Colon {
            return true;
        }
        k = k + 1;
    }
    false
}

/// What a `fill=` entry says: the universe, the `*` and the parenthesised
/// transform that may follow the universe, verbatim.
pub struct FillView {
    pub universe: i64,
    pub starred: bool,
    pub transform: Option<Seq<u8>>,
}

/// A cell's `fill=` entry.
#[derive(Debug)]
pub struct Fill {
    pub universe: i64,
    pub starred: bool,
    /// The parenthesised transform that may follow the universe, verbatim.
    pub transform: Option<Vec<u8>>,
}

impl View for Fill {
    type V = FillView;

    open spec fn view(&self) -> FillView {
        FillView {
            universe: self.universe,
            starred: self.starred,
            transform: match self.transform {
                Some(t) => Some(t@),
                None => None,
            },
        }
    }
}

/// The `fill` parameter `p` read as one universe: none for the lattice-array
/// form (a `:` in the value), which names many universes.
pub open spec fn spec_fill(c: Card, p: ParamSpec) -> Option<FillView> {
    let ts = c.spec_tokens();
    let end = if p.value_end < ts.len() {
        p.value_end
    } else {
        ts.len() as int
    };
    match spec_sig(ts, p.value_start) {
        None => None,
        Some(i) => if i >= end || colon_in(ts, p.value_start, end) {
            None
        } else {
            match spec_int_at(c, i) {
                None => None,
                Some(u) => match spec_sig(ts, i + 1) {
                    Some(j) => if j < end {
                        Some(
                            FillView {
                                universe: u,
                                starred: p.starred,
                                transform: if ts[j].kind == SyntaxKind::LParen {
                                    Some(spec_slice_tokens(c, j, end))
                                } else {
                                    None
                                },
                            },
                        )
                    } else {
                        Some(FillView { universe: u, starred: p.starred, transform: None })
                    },
                    None => Some(FillView { universe: u, starred: p.starred, transform: None }),
                },
            }
        },
    }
}

/// Read a `fill` / `*fill` parameter (see [`spec_fill`]).
pub fn fill(card: &Card, p: &CellParam) -> (r: Option<Fill>)
    requires
        card.wf(),
    ensures
        forall|s: ParamSpec|
            param_matches(*p, *card, s) ==> match r {
                Some(f) => spec_fill(*card, s) == Some(f@),
                None => spec_fill(*card, s) is None,
            },
{
    let n = card.tokens().len();
    let end = if p.value_end < n {
        p.value_end
    } else {
        n
    };
    let i = match sig(card, p.value_start) {
        Some(i) => i,
        None => {
            return None;
        },
    };
    proof {
        lemma_sig(card.spec_tokens(), p.value_start as int);
    }
    if i >= end || colon_in_exec(card, p.value_start, end) {
        return None;
    }
    let universe = match int_at(card, i) {
        Some(u) => u,
        None => {
            return None;
        },
    };
    proof {
        lemma_sig(card.spec_tokens(), i + 1);
    }
    match next(card, i) {
        Some(j) => {
            if j < end {
                let transform = if card.tokens()[j].kind == SyntaxKind::LParen {
                    Some(slice_tokens(card, j, end))
                } else {
                    None
                };
                Some(Fill { universe, starred: p.starred, transform })
            } else {
                Some(Fill { universe, starred: p.starred, transform: None })
            }
        },
        None => Some(Fill { universe, starred: p.starred, transform: None }),
    }
}

/// The id comes before the geometry, and a `LIKE n BUT` cell has no
/// geometry and names its base after its id.
pub proof fn lemma_layout_order(c: Card)
    requires
        c.spec_tokens().len() <= usize::MAX,
    ensures
        spec_cell_layout(c).geometry_start <= c.spec_tokens().len(),
        match spec_sig(c.spec_tokens(), 0) {
            Some(i0) => i0 < spec_cell_layout(c).geometry_start,
            None => true,
        },
        match spec_cell_layout(c).like_tok {
            Some(b) => spec_cell_layout(c).geometry_start == c.spec_tokens().len() && (spec_sig(
                c.spec_tokens(),
                0,
            ) matches Some(i0) && i0 < b) && b < c.spec_tokens().len(),
            None => true,
        },
{
    let ts = c.spec_tokens();
    lemma_sig(ts, 0);
    match spec_sig(ts, 0) {
        Some(id_tok) => {
            lemma_sig(ts, id_tok + 1);
            match spec_sig(ts, id_tok + 1) {
                Some(i) => {
                    lemma_sig(ts, i + 1);
                    match spec_sig(ts, i + 1) {
                        Some(d) => {
                            lemma_sig(ts, d + 1);
                        },
                        None => {},
                    }
                },
                None => {},
            }
        },
        None => {},
    }
}

/// A parameter read out of card `c` is the one `s` locates.
pub open spec fn param_matches(p: CellParam, c: Card, s: ParamSpec) -> bool {
    &&& p.key_token == s.key_token
    &&& p.key@ == spec_text_at(c, s.key_token)
    &&& p.starred == s.starred
    &&& match p.particle {
        Some(t) => s.particle == Some(t@),
        None => s.particle is None,
    }
    &&& p.value_start == s.value_start
    &&& p.value_end == s.value_end
    &&& p.value@ == spec_slice_tokens(c, s.value_start, s.value_end)
}

/// Exact source text spanning a token range, trivia included, trimmed.
fn slice_tokens(card: &Card, a: usize, b: usize) -> (r: Vec<u8>)
    requires
        card.wf(),
    ensures
        r@ == spec_slice_tokens(*card, a as int, b as int),
{
    let n = card.tokens().len();
    let e = if b < n {
        b
    } else {
        n
    };
    if a >= e {
        return Vec::new();
    }
    proof {
        card.lemma_wf();
    }
    let ta = card.tokens()[a];
    let tb = card.tokens()[e - 1];
    proof {
        assert(ta == card.spec_tokens()[a as int]);
        assert(tb == card.spec_tokens()[e - 1]);
        if a < e - 1 {
            assert(card.spec_tokens()[a as int].spec_end() <= card.spec_tokens()[e - 1].start);
        }
    }
    let from = ta.start as usize;
    let to = (tb.start + tb.len) as usize;
    let t = vstd::slice::slice_subrange(card.text(), from, to);
    vstd::slice::slice_to_vec(trim(t))
}

/// Where the value starting at `vs` ends.
fn value_end(card: &Card, vs: usize, end: usize) -> (r: usize)
    requires
        card.wf(),
        end <= card.spec_tokens().len(),
    ensures
        r == value_end_from(card.spec_tokens(), vs as int, end as int, 0, vs as int),
        vs <= r,
        r <= end || r == vs,
{
    let ghost ts = card.spec_tokens();
    let mut depth: i128 = 0;
    let mut ve = vs;
    let mut j = vs;
    let mut stop = false;
    while !stop && j < end
        invariant
            card.wf(),
            ts == card.spec_tokens(),
            end <= ts.len(),
            vs <= ve <= j,
            ve <= end || ve == vs,
            j <= end || j == vs,
            -(j as int) <= depth <= j,
            stop ==> value_end_from(ts, vs as int, end as int, 0, vs as int) == ve,
            !stop ==> value_end_from(ts, vs as int, end as int, 0, vs as int) == value_end_from(
                ts,
                j as int,
                end as int,
                depth as int,
                ve as int,
            ),
        decreases end - j + (if stop {
            0int
        } else {
            1int
        }),
    {
        proof {
            lemma_sig(ts, j as int);
        }
        match sig(card, j) {
            None => {
                stop = true;
            },
            Some(k) => {
                if k >= end {
                    stop = true;
                } else {
                    let kd = card.tokens()[k].kind;
                    if kd == SyntaxKind::LParen {
                        depth = depth + 1;
                        ve = k + 1;
                        j = k + 1;
                    } else if kd == SyntaxKind::RParen {
                        depth = depth - 1;
                        ve = k + 1;
                        j = k + 1;
                    } else if (kd == SyntaxKind::Ident || kd == SyntaxKind::Star) && depth <= 0 {
                        stop = true;
                    } else {
                        ve = k + 1;
                        j = k + 1;
                    }
                }
            },
        }
    }
    ve
}

/// Read the parameter whose keyword is token `i`.
fn read_param(card: &Card, i: usize, starred: bool, end: usize) -> (p: CellParam)
    requires
        card.wf(),
        i < card.spec_tokens().len(),
        end <= card.spec_tokens().len(),
    ensures
        param_matches(p, *card, param_at(*card, i as int, starred, end as int)),
        p.value_end <= card.spec_tokens().len(),
{
    let ghost ts = card.spec_tokens();
    let n = card.tokens().len();
    let key = vstd::slice::slice_to_vec(card.token_text(i));
    proof {
        lemma_sig(ts, i + 1);
    }
    let mut cur = next(card, i);
    let mut particle: Option<Vec<u8>> = None;
    match cur {
        Some(j) => {
            if card.tokens()[j].kind == SyntaxKind::Colon {
                proof {
                    lemma_sig(ts, j + 1);
                }
                let after = next(card, j);
                match after {
                    Some(a) => {
                        if card.tokens()[a].kind == SyntaxKind::Ident {
                            particle = Some(vstd::slice::slice_to_vec(card.token_text(a)));
                            proof {
                                lemma_sig(ts, a + 1);
                            }
                            cur = next(card, a);
                        } else {
                            cur = after;
                        }
                    },
                    None => {
                        cur = None;
                    },
                }
            }
        },
        None => {},
    }
    match cur {
        Some(j) => {
            if card.tokens()[j].kind == SyntaxKind::Eq {
                proof {
                    lemma_sig(ts, j + 1);
                }
                cur = next(card, j);
            }
        },
        None => {},
    }
    let vs = match cur {
        Some(v) => v,
        None => end,
    };
    let ve = value_end(card, vs, end);
    let value = slice_tokens(card, vs, ve);
    let p = CellParam {
        key,
        particle,
        starred,
        value,
        key_token: i,
        value_start: vs,
        value_end: ve,
    };
    p
}

/// Parse the trailing keyword parameters of a cell card in token range
/// `[start, end)`.
pub fn params(card: &Card, start: usize, end: usize) -> (r: Vec<CellParam>)
    requires
        card.wf(),
    ensures
        r@.len() == spec_params(*card, start as int, end as int).len(),
        forall|k: int|
            0 <= k < r@.len() ==> param_matches(
                #[trigger] r@[k],
                *card,
                spec_params(*card, start as int, end as int)[k],
            ),
{
    let n = card.tokens().len();
    let end = if end < n {
        end
    } else {
        n
    };
    let ghost ts = card.spec_tokens();
    let ghost full = params_from(*card, start as int, end as int);
    let ghost mut done: Seq<ParamSpec> = Seq::empty();
    let mut out: Vec<CellParam> = Vec::new();
    let mut cursor = start;
    let mut stop = false;
    while !stop && cursor < n
        invariant
            card.wf(),
            ts == card.spec_tokens(),
            n == ts.len(),
            end <= n,
            full == params_from(*card, start as int, end as int),
            out@.len() == done.len(),
            forall|k: int| 0 <= k < out@.len() ==> param_matches(#[trigger] out@[k], *card, done[k]),
            !stop ==> done + params_from(*card, cursor as int, end as int) == full,
            stop ==> done == full,
        decreases n - cursor + (if stop {
            0int
        } else {
            1int
        }),
    {
        proof {
            lemma_sig(ts, cursor as int);
        }
        let i0 = match sig(card, cursor) {
            Some(i0) => i0,
            None => {
                proof {
                    assert(done + Seq::<ParamSpec>::empty() =~= done);
                }
                stop = true;
                continue;
            },
        };
        if i0 >= end {
            proof {
                assert(done + Seq::<ParamSpec>::empty() =~= done);
            }
            stop = true;
            continue;
        }
        let starred = card.tokens()[i0].kind == SyntaxKind::Star;
        let mut i = i0;
        if starred {
            proof {
                lemma_sig(ts, i0 + 1);
            }
            match next(card, i0) {
                Some(j) => {
                    if j < end {
                        i = j;
                    } else {
                        proof {
                            assert(done + Seq::<ParamSpec>::empty() =~= done);
                        }
                        stop = true;
                        continue;
                    }
                },
                None => {
                    proof {
                        assert(done + Seq::<ParamSpec>::empty() =~= done);
                    }
                    stop = true;
                    continue;
                },
            }
        }
        if card.tokens()[i].kind != SyntaxKind::Ident {
            cursor = i + 1;
            continue;
        }
        let p = read_param(card, i, starred, end);
        let ghost ps = param_at(*card, i as int, starred, end as int);
        let ve = p.value_end;
        let nxt = if ve > i + 1 {
            ve
        } else {
            i + 1
        };
        let ghost before = out@;
        out.push(p);
        proof {
            assert(out@.last() == p);
            assert forall|k: int| 0 <= k < out@.len() implies param_matches(
                #[trigger] out@[k],
                *card,
                done.push(ps)[k],
            ) by {
                if k < done.len() {
                    assert(out@[k] == before[k]);
                }
            }
            assert(params_from(*card, cursor as int, end as int) == seq![ps] + params_from(
                *card,
                nxt as int,
                end as int,
            ));
            assert(done.push(ps) + params_from(*card, nxt as int, end as int) =~= done + (seq![ps]
                + params_from(*card, nxt as int, end as int)));
            done = done.push(ps);
        }
        cursor = nxt;
    }
    proof {
        if !stop {
            assert(params_from(*card, cursor as int, end as int) == Seq::<ParamSpec>::empty());
            assert(done + Seq::<ParamSpec>::empty() =~= done);
        }
    }
    out
}


/// `a` and `b` are equal when ASCII letters are compared without case.
pub open spec fn eq_ignore_case(a: Seq<u8>, b: Seq<u8>) -> bool {
    a.len() == b.len() && forall|i: int|
        0 <= i < a.len() ==> crate::lines::ascii_lower(#[trigger] a[i]) == crate::lines::ascii_lower(
            b[i],
        )
}

/// The key as written in lookups: `imp:n`, `vol`, `fill`.
pub open spec fn spec_qualified_key(key: Seq<u8>, particle: Option<Seq<u8>>) -> Seq<u8> {
    match particle {
        Some(p) => key + seq![58u8] + p,
        None => key,
    }
}

impl CellParam {
    /// A copy of this parameter.
    pub fn clone_param(&self) -> (r: CellParam)
        ensures
            r.key@ == self.key@,
            r.value@ == self.value@,
            r.starred == self.starred,
            r.key_token == self.key_token,
            r.value_start == self.value_start,
            r.value_end == self.value_end,
            match self.particle {
                Some(p) => r.particle is Some && r.particle->0@ == p@,
                None => r.particle is None,
            },
    {
        CellParam {
            key: vstd::slice::slice_to_vec(self.key.as_slice()),
            particle: match &self.particle {
                Some(p) => Some(vstd::slice::slice_to_vec(p.as_slice())),
                None => None,
            },
            starred: self.starred,
            value: vstd::slice::slice_to_vec(self.value.as_slice()),
            key_token: self.key_token,
            value_start: self.value_start,
            value_end: self.value_end,
        }
    }

    /// The key as written in lookups: `imp:n`, `vol`, `fill`.
    pub fn qualified_key(&self) -> (r: Vec<u8>)
        ensures
            r@ == spec_qualified_key(
                self.key@,
                match self.particle {
                    Some(p) => Some(p@),
                    None => None,
                },
            ),
    {
        let mut out = vstd::slice::slice_to_vec(self.key.as_slice());
        match &self.particle {
            Some(p) => {
                out.push(58u8);
                push_range(&mut out, p.as_slice(), 0, p.len());
                proof {
                    assert(p@.subrange(0, p@.len() as int) =~= p@);
                }
            },
            None => {},
        }
        out
    }
}

/// Byte-wise equality ignoring ASCII case.
pub fn eq_ignore_case_bytes(a: &[u8], b: &[u8]) -> (r: bool)
    ensures
        r == eq_ignore_case(a@, b@),
{
    if a.len() != b.len() {
        return false;
    }
    let mut k: usize = 0;
    while k < a.len()
        invariant
            a@.len() == b@.len(),
            k <= a@.len(),
            forall|m: int|
                0 <= m < k ==> crate::lines::ascii_lower(#[trigger] a@[m]) == crate::lines::ascii_lower(
                    b@[m],
                ),
        decreases a@.len() - k,
    {
        if crate::lines::to_lower(a[k]) != crate::lines::to_lower(b[k]) {
            return false;
        }
        k = k + 1;
    }
    true
}

} // verus!
