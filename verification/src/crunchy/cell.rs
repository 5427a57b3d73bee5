//! Typed reading of crunchy cell cards: id, material, the geometry tree, and
//! the references a renumbering rewrites.

use vstd::prelude::*;
use crate::cell::{eq_ignore_case, eq_ignore_case_bytes};
use crate::crunchy::cst::{Card, GreenTree};
use crate::crunchy::geom::{region, CellRef, GeomExpr, Region};
use crate::crunchy::parser::{p_union, Atom, GeomParser};
use crate::crunchy::syntax_kind::{spec_is_trivia, SyntaxKind};
use crate::crunchy::lexer::Lexeme;
use crate::num::{parse_int_bytes, spec_parse_int};

verus! {

/// The meaningful tokens of `[a, j)` that are not `&` continuation marks.
pub open spec fn card_toks_upto(ts: Seq<Lexeme>, a: int, j: int) -> Seq<u32>
    decreases j - a,
{
    if j <= a {
        Seq::empty()
    } else {
        let r = card_toks_upto(ts, a, j - 1);
        let k = ts[j - 1].kind;
        if !spec_is_trivia(k) && k != SyntaxKind::AMP {
            r.push((j - 1) as u32)
        } else {
            r
        }
    }
}

pub open spec fn card_toks(tree: GreenTree, c: Card) -> Seq<u32> {
    card_toks_upto(tree.spec_tokens(), c.first_tok as int, c.tok_end as int)
}

pub proof fn lemma_card_toks(ts: Seq<Lexeme>, a: int, j: int)
    requires
        0 <= a,
        j <= u32::MAX,
    ensures
        forall|k: int|
            0 <= k < card_toks_upto(ts, a, j).len() ==> a <= #[trigger] card_toks_upto(
                ts,
                a,
                j,
            )[k] < j,
    decreases j - a,
{
    if j > a {
        lemma_card_toks(ts, a, j - 1);
        let r = card_toks_upto(ts, a, j - 1);
        let s = card_toks_upto(ts, a, j);
        assert forall|k: int| 0 <= k < s.len() implies a <= #[trigger] s[k] < j by {
            if k < r.len() {
                assert(s[k] == r[k]);
            }
        }
    }
}

/// Kind of token `t`.
pub open spec fn kind_of(tree: GreenTree, t: u32) -> SyntaxKind {
    tree.spec_tokens()[t as int].kind
}

/// The effective text of token `t` read as an integer.
pub open spec fn int_of(tree: GreenTree, t: u32) -> Option<i64> {
    spec_parse_int(tree.spec_token_text(t as int))
}

/// The meaningful, non-`&` tokens of a card, in order.
pub fn card_tokens(tree: &GreenTree, card: &Card) -> (r: Vec<u32>)
    requires
        tree.wf(),
        card.tok_end <= tree.spec_tokens().len(),
    ensures
        r@ == card_toks(*tree, *card),
{
    let mut out: Vec<u32> = Vec::new();
    let mut i = card.first_tok;
    while i < card.tok_end
        invariant
            tree.wf(),
            card.tok_end <= tree.spec_tokens().len(),
            card.first_tok <= i,
            i <= card.tok_end || i == card.first_tok,
            out@ == card_toks_upto(tree.spec_tokens(), card.first_tok as int, i as int),
        decreases card.tok_end - i,
    {
        let k = tree.token_kind(i);
        if !k.is_trivia() && k != SyntaxKind::AMP {
            out.push(i);
        }
        i = i + 1;
    }
    out
}

/// Every number of card `ci` reads with a magnitude that fits an `i64`.
pub open spec fn no_min_in_card(tree: GreenTree, ci: int) -> bool {
    let c = tree.spec_cards()[ci];
    forall|t: int|
        c.first_tok <= t < c.tok_end && 0 <= t < tree.spec_tokens().len() && (
        #[trigger] tree.spec_tokens()[t]).kind == SyntaxKind::NUMBER ==> spec_parse_int(
            tree.spec_token_text(t),
        ) != Some(i64::MIN)
}


/// The geometry atoms of tokens `g`.
pub open spec fn atoms_of(tree: GreenTree, g: Seq<u32>) -> Seq<Atom> {
    Seq::new(
        g.len(),
        |i: int|
            (
                kind_of(tree, g[i]),
                g[i],
                if kind_of(tree, g[i]) == SyntaxKind::NUMBER {
                    int_of(tree, g[i])
                } else {
                    None
                },
            ),
    )
}

/// Position of the first identifier in `toks` at or after `p`, or the end.
pub open spec fn first_ident(tree: GreenTree, toks: Seq<u32>, p: int) -> int
    decreases toks.len() - p,
{
    if p < 0 || p >= toks.len() {
        toks.len() as int
    } else if kind_of(tree, toks[p]) == SyntaxKind::IDENT {
        p
    } else {
        first_ident(tree, toks, p + 1)
    }
}

/// What a parsed cell card says.
pub struct CellSpec {
    pub id: i64,
    pub material: Option<i64>,
    pub material_token: Option<u32>,
    pub density_token: Option<u32>,
    pub like: Option<CellRef>,
    pub geometry: Option<Region>,
    pub geom_first_token: Option<u32>,
    pub geom_last_token: Option<u32>,
    pub params_start: Option<u32>,
    pub well_formed: bool,
}

pub open spec fn word_like() -> Seq<u8> {
    seq![108u8, 105u8, 107u8, 101u8]
}

pub open spec fn word_but() -> Seq<u8> {
    seq![98u8, 117u8, 116u8]
}

pub open spec fn opt_tok(toks: Seq<u32>, p: int) -> Option<u32> {
    if 0 <= p < toks.len() {
        Some(toks[p])
    } else {
        None
    }
}

/// The cell card at `ci`: an id; then `LIKE n [BUT]` and parameters, or a
/// material, a density token when the material is not void, the geometry up
/// to the first identifier, and the parameters.
pub open spec fn spec_parse_cell(tree: GreenTree, ci: int) -> Option<CellSpec> {
    let c = tree.spec_cards()[ci];
    let toks = card_toks(tree, c);
    if c.kind != SyntaxKind::CELL_CARD || toks.len() < 1 || kind_of(tree, toks[0])
        != SyntaxKind::NUMBER || int_of(tree, toks[0]) is None {
        None
    } else {
        let id = int_of(tree, toks[0])->0;
        if toks.len() > 1 && kind_of(tree, toks[1]) == SyntaxKind::IDENT && eq_ignore_case(
            tree.spec_token_text(toks[1] as int),
            word_like(),
        ) {
            if toks.len() <= 2 || int_of(tree, toks[2]) is None {
                None
            } else {
                let but = toks.len() > 3 && eq_ignore_case(
                    tree.spec_token_text(toks[3] as int),
                    word_but(),
                );
                Some(
                    CellSpec {
                        id,
                        material: None,
                        material_token: None,
                        density_token: None,
                        like: Some(CellRef { token: toks[2], id: int_of(tree, toks[2])->0 }),
                        geometry: None,
                        geom_first_token: None,
                        geom_last_token: None,
                        params_start: opt_tok(toks, if but { 4 } else { 3 }),
                        well_formed: but,
                    },
                )
            }
        } else if toks.len() <= 1 || kind_of(tree, toks[1]) != SyntaxKind::NUMBER || int_of(
            tree,
            toks[1],
        ) is None {
            None
        } else {
            let material = int_of(tree, toks[1])->0;
            if material != 0 && toks.len() <= 2 {
                None
            } else {
                let pos: int = if material != 0 {
                    3
                } else {
                    2
                };
                let ge = first_ident(tree, toks, pos);
                let g = toks.subrange(pos, ge);
                let a = atoms_of(tree, g);
                let parsed = p_union(a, 0, true);
                Some(
                    CellSpec {
                        id,
                        material: Some(material),
                        material_token: Some(toks[1]),
                        density_token: if material != 0 {
                            Some(toks[2])
                        } else {
                            None
                        },
                        like: None,
                        geometry: if g.len() == 0 {
                            None
                        } else {
                            Some(parsed.0)
                        },
                        geom_first_token: opt_tok(g, 0),
                        geom_last_token: opt_tok(g, g.len() - 1),
                        params_start: opt_tok(toks, ge),
                        well_formed: g.len() > 0 && parsed.2 && parsed.1 == a.len(),
                    },
                )
            }
        }
    }
}

/// A parsed cell card. The density value itself is a float and is read by
/// the caller from `density_token`.
#[derive(Debug)]
pub struct Cell {
    /// Index into `tree.cards()`.
    pub card_index: usize,
    pub id: i64,
    /// Material number (0 = void); none for `LIKE n BUT` cells.
    pub material: Option<i64>,
    pub material_token: Option<u32>,
    /// Token of the density value, when the cell has one.
    pub density_token: Option<u32>,
    /// For a `LIKE n BUT` card, the referenced base cell.
    pub like: Option<CellRef>,
    /// The geometry expression (absent for `LIKE n BUT`).
    pub geometry: Option<GeomExpr>,
    pub geom_first_token: Option<u32>,
    pub geom_last_token: Option<u32>,
    /// First token of the parameter section, if any.
    pub params_start: Option<u32>,
    /// False if some part failed to parse.
    pub well_formed: bool,
}

pub open spec fn cell_matches(c: Cell, ci: int, s: CellSpec) -> bool {
    &&& c.card_index == ci
    &&& c.id == s.id
    &&& c.material == s.material
    &&& c.material_token == s.material_token
    &&& c.density_token == s.density_token
    &&& c.like == s.like
    &&& match c.geometry {
        Some(g) => s.geometry == Some(region(g)),
        None => s.geometry is None,
    }
    &&& c.geom_first_token == s.geom_first_token
    &&& c.geom_last_token == s.geom_last_token
    &&& c.params_start == s.params_start
    &&& c.well_formed == s.well_formed
}

fn first_ident_from(tree: &GreenTree, toks: &Vec<u32>, p: usize) -> (r: usize)
    requires
        tree.wf(),
        forall|k: int| 0 <= k < toks@.len() ==> (#[trigger] toks@[k]) < tree.spec_tokens().len(),
        p <= toks@.len(),
    ensures
        r == first_ident(*tree, toks@, p as int),
        p <= r <= toks@.len(),
{
    let mut k = p;
    while k < toks.len()
        invariant
            tree.wf(),
            forall|j: int|
                0 <= j < toks@.len() ==> (#[trigger] toks@[j]) < tree.spec_tokens().len(),
            p <= k <= toks@.len(),
            first_ident(*tree, toks@, p as int) == first_ident(*tree, toks@, k as int),
        decreases toks@.len() - k,
    {
        if tree.token_kind(toks[k]) == SyntaxKind::IDENT {
            return k;
        }
        k = k + 1;
    }
    k
}

fn atoms(tree: &GreenTree, toks: &Vec<u32>, from: usize, to: usize) -> (r: Vec<Atom>)
    requires
        tree.wf(),
        forall|k: int| 0 <= k < toks@.len() ==> (#[trigger] toks@[k]) < tree.spec_tokens().len(),
        from <= to <= toks@.len(),
    ensures
        r@ == atoms_of(*tree, toks@.subrange(from as int, to as int)),
{
    let ghost g = toks@.subrange(from as int, to as int);
    let mut out: Vec<Atom> = Vec::new();
    let mut k = from;
    while k < to
        invariant
            tree.wf(),
            forall|j: int|
                0 <= j < toks@.len() ==> (#[trigger] toks@[j]) < tree.spec_tokens().len(),
            from <= k <= to <= toks@.len(),
            g == toks@.subrange(from as int, to as int),
            out@.len() == k - from,
            forall|j: int| 0 <= j < k - from ==> (#[trigger] out@[j]) == atoms_of(*tree, g)[j],
        decreases to - k,
    {
        let t = toks[k];
        let kind = tree.token_kind(t);
        let v = if kind == SyntaxKind::NUMBER {
            parse_int_bytes(tree.token_text(t))
        } else {
            None
        };
        out.push((kind, t, v));
        k = k + 1;
    }
    assert(out@ =~= atoms_of(*tree, g));
    out
}

/// Parse the cell card at `card_index`, or `None` if it is not a cell card
/// (or has no readable id or material).
pub fn parse_cell(tree: &GreenTree, card_index: usize) -> (r: Option<Cell>)
    requires
        tree.wf(),
        card_index < tree.spec_cards().len(),
        cell_scan_safe(*tree, card_index as int),
    ensures
        match r {
            Some(c) => spec_parse_cell(*tree, card_index as int) matches Some(s) && cell_matches(
                c,
                card_index as int,
                s,
            ),
            None => spec_parse_cell(*tree, card_index as int) is None,
        },
{
    proof {
        tree.lemma_cards_in_range();
    }
    let card = tree.cards()[card_index];
    assert(card == tree.spec_cards()[card_index as int]);
    if card.kind != SyntaxKind::CELL_CARD {
        return None;
    }
    let toks = card_tokens(tree, &card);
    proof {
        tree.lemma_wf();
        lemma_card_toks(tree.spec_tokens(), card.first_tok as int, card.tok_end as int);
    }
    let n = toks.len();
    if n < 1 || tree.token_kind(toks[0]) != SyntaxKind::NUMBER {
        return None;
    }
    let id = match parse_int_bytes(tree.token_text(toks[0])) {
        Some(v) => v,
        None => {
            return None;
        },
    };
    let like: [u8; 4] = [108u8, 105u8, 107u8, 101u8];
    let but: [u8; 3] = [98u8, 117u8, 116u8];
    assert(like@ == word_like());
    assert(but@ == word_but());
    if n > 1 && tree.token_kind(toks[1]) == SyntaxKind::IDENT && eq_ignore_case_bytes(
        tree.token_text(toks[1]),
        &like,
    ) {
        if n <= 2 {
            return None;
        }
        let ref_tok = toks[2];
        let ref_id = match parse_int_bytes(tree.token_text(ref_tok)) {
            Some(v) => v,
            None => {
                return None;
            },
        };
        let is_but = n > 3 && eq_ignore_case_bytes(tree.token_text(toks[3]), &but);
        let pos: usize = if is_but {
            4
        } else {
            3
        };
        return Some(
            Cell {
                card_index,
                id,
                material: None,
                material_token: None,
                density_token: None,
                like: Some(CellRef { token: ref_tok, id: ref_id }),
                geometry: None,
                geom_first_token: None,
                geom_last_token: None,
                params_start: if pos < n {
                    Some(toks[pos])
                } else {
                    None
                },
                well_formed: is_but,
            },
        );
    }
    if n <= 1 || tree.token_kind(toks[1]) != SyntaxKind::NUMBER {
        return None;
    }
    let mat_tok = toks[1];
    let material = match parse_int_bytes(tree.token_text(mat_tok)) {
        Some(v) => v,
        None => {
            return None;
        },
    };
    if material != 0 && n <= 2 {
        return None;
    }
    let pos: usize = if material != 0 {
        3
    } else {
        2
    };
    let density_token = if material != 0 {
        Some(toks[2])
    } else {
        None
    };
    let pos = if pos <= n {
        pos
    } else {
        n
    };
    let ge = first_ident_from(tree, &toks, pos);
    let ghost g = toks@.subrange(pos as int, ge as int);
    let a = atoms(tree, &toks, pos, ge);
    proof {
        assert(geom_min_free(*tree, toks@, pos as int, false));
        lemma_geom_min_free_atoms(*tree, toks@, pos as int, pos as int, false);
        assert forall|i: int| #[trigger] crate::crunchy::parser::surface_pos(a@, i) implies a@[i].2
            != Some(i64::MIN) by {
            assert(toks@[pos + i] == g[i]);
            if i > 0 {
                assert(toks@[pos + i - 1] == g[i - 1]);
            }
            assert(scan_surface_at(*tree, toks@, pos as int, pos + i));
        }
    }
    let (geometry, geom_ok) = if ge == pos {
        (None, false)
    } else {
        let mut p = GeomParser { toks: a.as_slice(), pos: 0, ok: true };
        let e = p.parse_union();
        let ok = p.ok && p.pos == a.len();
        (Some(e), ok)
    };
    Some(
        Cell {
            card_index,
            id,
            material: Some(material),
            material_token: Some(mat_tok),
            density_token,
            like: None,
            geometry,
            geom_first_token: if ge > pos {
                Some(toks[pos])
            } else {
                None
            },
            geom_last_token: if ge > pos {
                Some(toks[ge - 1])
            } else {
                None
            },
            params_start: if ge < n {
                Some(toks[ge])
            } else {
                None
            },
            well_formed: geom_ok,
        },
    )
}


/// What a scanned reference is.
#[derive(Debug, Clone, Copy, PartialEq, Eq, Structural)]
pub enum RefKind {
    /// The cell's own id.
    CellId,
    /// A signed surface reference; the value reported is the magnitude.
    SurfaceRef { negative: bool },
    /// A cell reference: a `#n` complement or a `LIKE n` base.
    CellRef,
}

/// The references in the geometry tokens from position `p` on: a number
/// right after `#` names a cell, any other number a signed surface; the
/// geometry ends at the first identifier.
pub open spec fn geom_refs(tree: GreenTree, toks: Seq<u32>, p: int, prev_hash: bool) -> Seq<
    (RefKind, u32, i64),
>
    decreases toks.len() - p,
{
    if p < 0 || p >= toks.len() {
        Seq::empty()
    } else {
        let t = toks[p];
        let k = kind_of(tree, t);
        if k == SyntaxKind::IDENT {
            Seq::empty()
        } else if k == SyntaxKind::HASH {
            geom_refs(tree, toks, p + 1, true)
        } else if k == SyntaxKind::NUMBER {
            let here = match int_of(tree, t) {
                Some(v) => if prev_hash {
                    seq![(RefKind::CellRef, t, v)]
                } else {
                    seq![(RefKind::SurfaceRef { negative: v < 0 }, t, crate::crunchy::parser::abs_of(v))]
                },
                None => Seq::empty(),
            };
            here + geom_refs(tree, toks, p + 1, false)
        } else {
            geom_refs(tree, toks, p + 1, false)
        }
    }
}

/// No number that the geometry scan from token `p` on reads as a surface
/// (one not right after `#`, before the first keyword) is `i64::MIN`, whose
/// magnitude no `i64` holds.
pub open spec fn geom_min_free(tree: GreenTree, toks: Seq<u32>, p: int, prev_hash: bool) -> bool
    decreases toks.len() - p,
{
    if p < 0 || p >= toks.len() {
        true
    } else {
        let t = toks[p];
        let k = kind_of(tree, t);
        if k == SyntaxKind::IDENT {
            true
        } else if k == SyntaxKind::HASH {
            geom_min_free(tree, toks, p + 1, true)
        } else if k == SyntaxKind::NUMBER {
            (prev_hash || int_of(tree, t) != Some(i64::MIN)) && geom_min_free(tree, toks, p + 1, false)
        } else {
            geom_min_free(tree, toks, p + 1, false)
        }
    }
}

/// Token `j` of `toks` is a number not right after a `#` in a scan that
/// started at `pos`.
pub open spec fn scan_surface_at(tree: GreenTree, toks: Seq<u32>, pos: int, j: int) -> bool {
    kind_of(tree, toks[j]) == SyntaxKind::NUMBER && (j == pos || kind_of(tree, toks[j - 1])
        != SyntaxKind::HASH)
}

/// From `p` on, up to the first keyword, no number the scan reads as a
/// surface is `i64::MIN`; `ph` says whether the token before `p` is a `#`.
proof fn lemma_geom_min_free_atoms(tree: GreenTree, toks: Seq<u32>, pos: int, p: int, ph: bool)
    requires
        0 <= pos <= p,
        geom_min_free(tree, toks, p, ph),
        ph == (p > pos && kind_of(tree, toks[p - 1]) == SyntaxKind::HASH),
    ensures
        forall|j: int|
            p <= j < first_ident(tree, toks, p) && #[trigger] scan_surface_at(tree, toks, pos, j)
                ==> int_of(tree, toks[j]) != Some(i64::MIN),
    decreases toks.len() - p,
{
    if p < toks.len() {
        let k = kind_of(tree, toks[p]);
        if k != SyntaxKind::IDENT {
            lemma_geom_min_free_atoms(tree, toks, pos, p + 1, k == SyntaxKind::HASH);
        }
    }
}

/// The reference scan of card `ci` can take the magnitude of every surface
/// its geometry names.
pub open spec fn cell_scan_safe(tree: GreenTree, ci: int) -> bool {
    let c = tree.spec_cards()[ci];
    let toks = card_toks(tree, c);
    c.kind != SyntaxKind::CELL_CARD || toks.len() < 1 || kind_of(tree, toks[0])
        != SyntaxKind::NUMBER || int_of(tree, toks[0]) is None || is_like(tree, toks) || !(toks.len()
        > 1 && kind_of(tree, toks[1]) == SyntaxKind::NUMBER) || geom_min_free(
        tree,
        toks,
        if int_of(tree, toks[1]) != Some(0i64) {
            3
        } else {
            2
        },
        false,
    )
}

/// Whether the card is a `LIKE n BUT` cell, judged by its second token.
pub open spec fn is_like(tree: GreenTree, toks: Seq<u32>) -> bool {
    toks.len() > 1 && kind_of(tree, toks[1]) == SyntaxKind::IDENT && eq_ignore_case(
        tree.spec_token_text(toks[1] as int),
        word_like(),
    )
}

/// The references of the cell card at `ci`, in order: its id, then the
/// `LIKE` base or the geometry's surfaces and `#n` cells.
pub open spec fn spec_cell_refs(tree: GreenTree, ci: int) -> Seq<(RefKind, u32, i64)> {
    let c = tree.spec_cards()[ci];
    let toks = card_toks(tree, c);
    if c.kind != SyntaxKind::CELL_CARD || toks.len() < 1 || kind_of(tree, toks[0])
        != SyntaxKind::NUMBER || int_of(tree, toks[0]) is None {
        Seq::empty()
    } else {
        let head = seq![(RefKind::CellId, toks[0], int_of(tree, toks[0])->0)];
        if is_like(tree, toks) {
            head + if toks.len() > 2 && int_of(tree, toks[2]) is Some {
                seq![(RefKind::CellRef, toks[2], int_of(tree, toks[2])->0)]
            } else {
                Seq::empty()
            }
        } else if !(toks.len() > 1 && kind_of(tree, toks[1]) == SyntaxKind::NUMBER) {
            head
        } else {
            let pos: int = if int_of(tree, toks[1]) != Some(0i64) {
                3
            } else {
                2
            };
            head + geom_refs(tree, toks, pos, false)
        }
    }
}

/// The scan reads past the material and density fields: a non-void cell
/// card whose tokens stop at its material has no density field to skip.
pub open spec fn scan_fits(tree: GreenTree, ci: int) -> bool {
    let c = tree.spec_cards()[ci];
    let toks = card_toks(tree, c);
    !(c.kind == SyntaxKind::CELL_CARD && toks.len() == 2 && kind_of(tree, toks[0])
        == SyntaxKind::NUMBER && int_of(tree, toks[0]) is Some && !is_like(tree, toks) && kind_of(
        tree,
        toks[1],
    ) == SyntaxKind::NUMBER && int_of(tree, toks[1]) != Some(0i64))
}

fn geom_refs_from(tree: &GreenTree, toks: &Vec<u32>, p: usize) -> (r: Vec<(RefKind, u32, i64)>)
    requires
        tree.wf(),
        forall|k: int| 0 <= k < toks@.len() ==> (#[trigger] toks@[k]) < tree.spec_tokens().len(),
        geom_min_free(*tree, toks@, p as int, false),
        p <= toks@.len(),
    ensures
        r@ == geom_refs(*tree, toks@, p as int, false),
{
    let mut out: Vec<(RefKind, u32, i64)> = Vec::new();
    let mut prev_hash = false;
    let mut k = p;
    let ghost full = geom_refs(*tree, toks@, p as int, false);
    let mut stop = false;
    while !stop && k < toks.len()
        invariant
            tree.wf(),
            forall|j: int|
                0 <= j < toks@.len() ==> (#[trigger] toks@[j]) < tree.spec_tokens().len(),
            !stop ==> geom_min_free(*tree, toks@, k as int, prev_hash),
            p <= k <= toks@.len(),
            full == geom_refs(*tree, toks@, p as int, false),
            !stop ==> out@ + geom_refs(*tree, toks@, k as int, prev_hash) == full,
            stop ==> out@ == full,
        decreases toks@.len() - k + (if stop {
            0int
        } else {
            1int
        }),
    {
        let t = toks[k];
        let kind = tree.token_kind(t);
        if kind == SyntaxKind::IDENT {
            proof {
                assert(out@ + Seq::<(RefKind, u32, i64)>::empty() =~= out@);
            }
            stop = true;
        } else if kind == SyntaxKind::HASH {
            prev_hash = true;
            k = k + 1;
        } else if kind == SyntaxKind::NUMBER {
            let ghost before = out@;
            match parse_int_bytes(tree.token_text(t)) {
                Some(v) => {
                    if prev_hash {
                        out.push((RefKind::CellRef, t, v));
                    } else {
                        proof {
                            assert(kind_of(*tree, toks@[k as int]) == SyntaxKind::NUMBER);
                        }
                        let m = if v < 0 {
                            -v
                        } else {
                            v
                        };
                        out.push((RefKind::SurfaceRef { negative: v < 0 }, t, m));
                    }
                },
                None => {},
            }
            proof {
                let here = geom_refs(*tree, toks@, k as int, prev_hash);
                assert(out@ + geom_refs(*tree, toks@, k + 1, false) =~= before + here);
            }
            prev_hash = false;
            k = k + 1;
        } else {
            prev_hash = false;
            k = k + 1;
        }
    }
    proof {
        if !stop {
            assert(out@ + Seq::<(RefKind, u32, i64)>::empty() =~= out@);
        }
    }
    out
}

/// The surface references of a parsed cell's geometry, in order.
pub open spec fn cell_surface_refs(c: Cell) -> Seq<crate::crunchy::geom::SurfaceRef> {
    match c.geometry {
        Some(g) => crate::crunchy::geom::region_surface_refs(region(g)),
        None => Seq::empty(),
    }
}

/// The cell references of a parsed cell: its `LIKE n` base first, then the
/// `#n` complements of its geometry.
pub open spec fn cell_cell_refs(c: Cell) -> Seq<CellRef> {
    (match c.like {
        Some(l) => seq![l],
        None => Seq::empty(),
    }) + match c.geometry {
        Some(g) => crate::crunchy::geom::region_cell_refs(region(g)),
        None => Seq::empty(),
    }
}

impl Cell {
    /// Every surface reference in the geometry.
    pub fn surface_refs(&self) -> (r: Vec<crate::crunchy::geom::SurfaceRef>)
        ensures
            r@ == cell_surface_refs(*self),
    {
        match &self.geometry {
            Some(g) => g.for_each_surface_ref(),
            None => Vec::new(),
        }
    }

    /// Every cell reference: the `LIKE n` base, then the geometry's `#n`
    /// complements.
    pub fn cell_refs(&self) -> (r: Vec<CellRef>)
        ensures
            r@ == cell_cell_refs(*self),
    {
        let mut out: Vec<CellRef> = Vec::new();
        match self.like {
            Some(l) => out.push(l),
            None => {},
        }
        match &self.geometry {
            Some(g) => {
                let mut more = g.for_each_cell_ref();
                out.append(&mut more);
            },
            None => {},
        }
        proof {
            assert(out@ =~= cell_cell_refs(*self));
        }
        out
    }
}

/// Whether no number from token `p` on, up to the first keyword, that the
/// scan reads as a surface is `i64::MIN` (see [`geom_min_free`]).
fn geom_min_free_from(tree: &GreenTree, toks: &Vec<u32>, p: usize) -> (r: bool)
    requires
        tree.wf(),
        forall|k: int| 0 <= k < toks@.len() ==> (#[trigger] toks@[k]) < tree.spec_tokens().len(),
        p <= toks@.len(),
    ensures
        r == geom_min_free(*tree, toks@, p as int, false),
{
    let mut k = p;
    let mut prev_hash = false;
    while k < toks.len()
        invariant
            tree.wf(),
            forall|j: int| 0 <= j < toks@.len() ==> (#[trigger] toks@[j]) < tree.spec_tokens().len(),
            p <= k <= toks@.len(),
            geom_min_free(*tree, toks@, p as int, false) == geom_min_free(
                *tree,
                toks@,
                k as int,
                prev_hash,
            ),
        decreases toks@.len() - k,
    {
        let t = toks[k];
        let kind = tree.token_kind(t);
        if kind == SyntaxKind::IDENT {
            return true;
        } else if kind == SyntaxKind::HASH {
            prev_hash = true;
        } else if kind == SyntaxKind::NUMBER {
            if !prev_hash && parse_int_bytes(tree.token_text(t)) == Some(i64::MIN) {
                return false;
            }
            prev_hash = false;
        } else {
            prev_hash = false;
        }
        k = k + 1;
    }
    true
}

/// Whether the reference scan of card `card_index` can take the magnitude
/// of every surface its geometry names (see [`cell_scan_safe`]).
pub fn scan_safe(tree: &GreenTree, card_index: usize) -> (r: bool)
    requires
        tree.wf(),
        card_index < tree.spec_cards().len(),
    ensures
        r == cell_scan_safe(*tree, card_index as int),
{
    proof {
        tree.lemma_cards_in_range();
        tree.lemma_wf();
    }
    let card = tree.cards()[card_index];
    assert(card == tree.spec_cards()[card_index as int]);
    if card.kind != SyntaxKind::CELL_CARD {
        return true;
    }
    let toks = card_tokens(tree, &card);
    proof {
        lemma_card_toks(tree.spec_tokens(), card.first_tok as int, card.tok_end as int);
    }
    let n = toks.len();
    if n < 1 || tree.token_kind(toks[0]) != SyntaxKind::NUMBER {
        return true;
    }
    if parse_int_bytes(tree.token_text(toks[0])).is_none() {
        return true;
    }
    let like: [u8; 4] = [108u8, 105u8, 107u8, 101u8];
    assert(like@ == word_like());
    if n > 1 && tree.token_kind(toks[1]) == SyntaxKind::IDENT && eq_ignore_case_bytes(
        tree.token_text(toks[1]),
        &like,
    ) {
        return true;
    }
    if !(n > 1 && tree.token_kind(toks[1]) == SyntaxKind::NUMBER) {
        return true;
    }
    let material = parse_int_bytes(tree.token_text(toks[1]));
    let pos: usize = if material != Some(0i64) {
        3
    } else {
        2
    };
    if pos > n {
        return true;
    }
    geom_min_free_from(tree, &toks, pos)
}

/// Whether the reference scan of card `card_index` finds the density field
/// it skips (see [`scan_fits`]).
pub fn scan_fits_at(tree: &GreenTree, card_index: usize) -> (r: bool)
    requires
        tree.wf(),
        card_index < tree.spec_cards().len(),
    ensures
        r == scan_fits(*tree, card_index as int),
{
    proof {
        tree.lemma_cards_in_range();
        tree.lemma_wf();
    }
    let card = tree.cards()[card_index];
    assert(card == tree.spec_cards()[card_index as int]);
    if card.kind != SyntaxKind::CELL_CARD {
        return true;
    }
    let toks = card_tokens(tree, &card);
    proof {
        lemma_card_toks(tree.spec_tokens(), card.first_tok as int, card.tok_end as int);
    }
    if toks.len() != 2 || tree.token_kind(toks[0]) != SyntaxKind::NUMBER {
        return true;
    }
    if parse_int_bytes(tree.token_text(toks[0])).is_none() {
        return true;
    }
    let like: [u8; 4] = [108u8, 105u8, 107u8, 101u8];
    assert(like@ == word_like());
    if tree.token_kind(toks[1]) == SyntaxKind::IDENT && eq_ignore_case_bytes(
        tree.token_text(toks[1]),
        &like,
    ) {
        return true;
    }
    if tree.token_kind(toks[1]) != SyntaxKind::NUMBER {
        return true;
    }
    parse_int_bytes(tree.token_text(toks[1])) == Some(0i64)
}

/// The references of the cell card at `card_index`, in order: its id, then
/// the `LIKE` base or every surface and `#n` cell of its geometry. Builds no
/// geometry tree.
pub fn scan_cell_refs(tree: &GreenTree, card_index: usize) -> (r: Vec<(RefKind, u32, i64)>)
    requires
        tree.wf(),
        card_index < tree.spec_cards().len(),
        cell_scan_safe(*tree, card_index as int),
        scan_fits(*tree, card_index as int),
    ensures
        r@ == spec_cell_refs(*tree, card_index as int),
{
    proof {
        tree.lemma_cards_in_range();
        tree.lemma_wf();
    }
    let card = tree.cards()[card_index];
    assert(card == tree.spec_cards()[card_index as int]);
    let mut out: Vec<(RefKind, u32, i64)> = Vec::new();
    if card.kind != SyntaxKind::CELL_CARD {
        return out;
    }
    let toks = card_tokens(tree, &card);
    proof {
        lemma_card_toks(tree.spec_tokens(), card.first_tok as int, card.tok_end as int);
    }
    let n = toks.len();
    if n < 1 || tree.token_kind(toks[0]) != SyntaxKind::NUMBER {
        return out;
    }
    let id = match parse_int_bytes(tree.token_text(toks[0])) {
        Some(v) => v,
        None => {
            return out;
        },
    };
    out.push((RefKind::CellId, toks[0], id));
    let like: [u8; 4] = [108u8, 105u8, 107u8, 101u8];
    assert(like@ == word_like());
    if n > 1 && tree.token_kind(toks[1]) == SyntaxKind::IDENT && eq_ignore_case_bytes(
        tree.token_text(toks[1]),
        &like,
    ) {
        if n > 2 {
            match parse_int_bytes(tree.token_text(toks[2])) {
                Some(v) => {
                    out.push((RefKind::CellRef, toks[2], v));
                },
                None => {},
            }
        }
        proof {
            let head = seq![(RefKind::CellId, toks@[0], id)];
            if n > 2 && int_of(*tree, toks@[2]) is Some {
                assert(out@ =~= head + seq![(RefKind::CellRef, toks@[2], int_of(*tree, toks@[2])->0)]);
            } else {
                assert(out@ =~= head + Seq::<(RefKind, u32, i64)>::empty());
            }
        }
        return out;
    }
    if !(n > 1 && tree.token_kind(toks[1]) == SyntaxKind::NUMBER) {
        return out;
    }
    let material = parse_int_bytes(tree.token_text(toks[1]));
    let pos: usize = if material != Some(0i64) {
        3
    } else {
        2
    };
    proof {
        assert(geom_min_free(*tree, toks@, pos as int, false));
    }
    let mut refs = geom_refs_from(tree, &toks, if pos <= n { pos } else { n });
    proof {
        if pos > n {
            assert(geom_refs(*tree, toks@, pos as int, false) =~= Seq::<(RefKind, u32, i64)>::empty());
        }
    }
    let ghost head = out@;
    out.append(&mut refs);
    out
}

} // verus!
