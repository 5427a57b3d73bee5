//! Whole-geometry renumbering: definitions and every reference are rewritten
//! together. Renumbering surfaces rewrites each surface card's id and every
//! signed surface in cell geometry, keeping the sense and a white-boundary
//! `+`; renumbering cells rewrites each cell's id, every `#n` complement and
//! every `LIKE n` base. Edits go through the token-override overlay, so
//! untouched bytes stay exactly as written.

use vstd::prelude::*;
use crate::crunchy::cell::{
    card_toks, cell_scan_safe, geom_min_free, geom_refs, int_of, kind_of, lemma_card_toks, no_min_in_card, scan_cell_refs,
    scan_fits, scan_fits_at, scan_safe, spec_cell_refs, RefKind,
};
use crate::crunchy::cst::{content_tokens, ordered_cards, Card, GreenTree};
use crate::crunchy::lexer::Lexeme;
use crate::crunchy::syntax_kind::SyntaxKind;
use crate::decimal::{fmt_int, int_text, law_int_text_round_trip};
use crate::num::{all_digits, parse_int_bytes, parse_i64_range, spec_parse_i64, spec_parse_int};
use crate::crunchy::cell::{card_tokens, is_like};
use crate::crunchy::surface_kind::ascii_upper;

verus! {

/// How a new id is written into a token.
pub enum Render {
    /// The id in decimal.
    Int,
    /// `+` and the id: a white-boundary surface.
    Plus,
    /// The negated id: a surface used with its negative sense.
    Neg,
    /// The id after a kept prefix: `m1` -> `m124`.
    Prefixed(Seq<u8>),
}

pub open spec fn render(r: Render, y: i64) -> Seq<u8> {
    match r {
        Render::Int => int_text(y as int),
        Render::Plus => seq![43u8] + int_text(y as int),
        Render::Neg => int_text(-(y as int)),
        Render::Prefixed(p) => p + int_text(y as int),
    }
}

/// One rewrite: the token, the id it holds now, and how the new id is written.
pub type Edit = (u32, i64, Render);

/// The override texts after rewriting the tokens of `es` in order, the
/// `k`th with the new id `ys[k]`.
pub open spec fn apply_edits(m: Map<u32, Seq<u8>>, es: Seq<Edit>, ys: Seq<i64>) -> Map<
    u32,
    Seq<u8>,
>
    decreases es.len(),
{
    if es.len() == 0 || ys.len() != es.len() {
        m
    } else {
        apply_edits(m, es.drop_last(), ys.drop_last()).insert(
            es.last().0,
            render(es.last().2, ys.last()),
        )
    }
}

/// `ys` are what `map` returned for the old ids of `es`, one call each.
pub open spec fn mapped_by<F: Fn(i64) -> i64>(map: F, es: Seq<Edit>, ys: Seq<i64>) -> bool {
    ys.len() == es.len() && forall|k: int| 0 <= k < es.len() ==> call_ensures(map, (es[k].1,), ys[k])
}

/// `t2` is `t` with only its override texts changed.
pub open spec fn same_base(t: GreenTree, t2: GreenTree) -> bool {
    &&& t2.wf()
    &&& t2.spec_src() == t.spec_src()
    &&& t2.spec_tokens() == t.spec_tokens()
    &&& t2.spec_cards() == t.spec_cards()
}

/// `t` and `t2` read the same text for every token in `[a, b)`.
pub open spec fn agree_on(t: GreenTree, t2: GreenTree, a: int, b: int) -> bool {
    forall|x: int| a <= x < b ==> #[trigger] t2.spec_token_text(x) == t.spec_token_text(x)
}

/// The surface card at `ci`: its id token (past an optional `*`), its id,
/// and whether the id is written with a white-boundary `+`.
pub open spec fn spec_surface_id(t: GreenTree, ci: int) -> Option<(u32, i64, bool)> {
    let c = t.spec_cards()[ci];
    let cts = content_tokens(t.spec_tokens(), c.first_tok as int, c.tok_end as int);
    if c.kind != SyntaxKind::SURFACE_CARD || cts.len() < 1 {
        None
    } else {
        let tk = if kind_of(t, cts[0]) == SyntaxKind::STAR {
            if cts.len() < 2 {
                None
            } else {
                Some(cts[1])
            }
        } else {
            Some(cts[0])
        };
        match tk {
            None => None,
            Some(x) => if kind_of(t, x) != SyntaxKind::NUMBER {
                None
            } else {
                let text = t.spec_token_text(x as int);
                match spec_parse_int(text) {
                    Some(id) => Some((x, id, text.len() > 0 && text[0] == 43u8)),
                    None => None,
                }
            },
        }
    }
}

pub proof fn lemma_content_tokens(ts: Seq<Lexeme>, a: int, j: int)
    requires
        0 <= a,
        j <= u32::MAX,
    ensures
        forall|k: int|
            0 <= k < content_tokens(ts, a, j).len() ==> a <= #[trigger] content_tokens(
                ts,
                a,
                j,
            )[k] < j,
    decreases j - a,
{
    if j > a {
        lemma_content_tokens(ts, a, j - 1);
        let r = content_tokens(ts, a, j - 1);
        let s = content_tokens(ts, a, j);
        assert forall|k: int| 0 <= k < s.len() implies a <= #[trigger] s[k] < j by {
            if k < r.len() {
                assert(s[k] == r[k]);
            }
        }
    }
}

/// The surface card at `card_index`: `(id_token, id, white)`.
pub fn surface_id(tree: &GreenTree, card_index: usize) -> (r: Option<(u32, i64, bool)>)
    requires
        tree.wf(),
        card_index < tree.spec_cards().len(),
    ensures
        r == spec_surface_id(*tree, card_index as int),
{
    proof {
        tree.lemma_cards_in_range();
        tree.lemma_wf();
    }
    let card = tree.cards()[card_index];
    assert(card == tree.spec_cards()[card_index as int]);
    if card.kind != SyntaxKind::SURFACE_CARD {
        return None;
    }
    let cts = tree.card_content_tokens(&card);
    proof {
        lemma_content_tokens(tree.spec_tokens(), card.first_tok as int, card.tok_end as int);
    }
    if cts.len() < 1 {
        return None;
    }
    let mut tok = cts[0];
    if tree.token_kind(tok) == SyntaxKind::STAR {
        if cts.len() < 2 {
            return None;
        }
        tok = cts[1];
    }
    if tree.token_kind(tok) != SyntaxKind::NUMBER {
        return None;
    }
    let text = tree.token_text(tok);
    let white = text.len() > 0 && text[0] == 43u8;
    match parse_int_bytes(text) {
        Some(id) => Some((tok, id, white)),
        None => None,
    }
}

/// The surface-reference rewrites of a cell's references.
pub open spec fn surface_ref_edits(rs: Seq<(RefKind, u32, i64)>) -> Seq<Edit>
    decreases rs.len(),
{
    if rs.len() == 0 {
        Seq::empty()
    } else {
        let r = surface_ref_edits(rs.drop_last());
        match rs.last().0 {
            RefKind::SurfaceRef { negative } => r.push(
                (
                    rs.last().1,
                    rs.last().2,
                    if negative {
                        Render::Neg
                    } else {
                        Render::Int
                    },
                ),
            ),
            _ => r,
        }
    }
}

/// The cell-reference rewrites of a cell's references: its id, `#n`
/// complements and `LIKE n` base.
pub open spec fn cell_ref_edits(rs: Seq<(RefKind, u32, i64)>) -> Seq<Edit>
    decreases rs.len(),
{
    if rs.len() == 0 {
        Seq::empty()
    } else {
        let r = cell_ref_edits(rs.drop_last());
        match rs.last().0 {
            RefKind::SurfaceRef { .. } => r,
            _ => r.push((rs.last().1, rs.last().2, Render::Int)),
        }
    }
}

/// The rewrites a surface renumbering makes in card `ci`.
pub open spec fn surface_card_edits(t: GreenTree, ci: int) -> Seq<Edit> {
    (match spec_surface_id(t, ci) {
        Some((x, id, white)) => seq![
            (
                x,
                id,
                if white {
                    Render::Plus
                } else {
                    Render::Int
                },
            ),
        ],
        None => Seq::empty(),
    }) + surface_ref_edits(spec_cell_refs(t, ci))
}

/// The rewrites a surface renumbering makes in the first `m` cards.
pub open spec fn surface_edits_upto(t: GreenTree, m: int) -> Seq<Edit>
    decreases m,
{
    if m <= 0 {
        Seq::empty()
    } else {
        surface_edits_upto(t, m - 1) + surface_card_edits(t, m - 1)
    }
}

/// The rewrites a cell renumbering makes in the first `m` cards.
pub open spec fn cell_edits_upto(t: GreenTree, m: int) -> Seq<Edit>
    decreases m,
{
    if m <= 0 {
        Seq::empty()
    } else {
        cell_edits_upto(t, m - 1) + cell_ref_edits(spec_cell_refs(t, m - 1))
    }
}

/// The renumbering can read every card: no surface that cell geometry names
/// reads as `i64::MIN`, and every cell has the fields the scan skips.
pub open spec fn renumberable(t: GreenTree) -> bool {
    forall|i: int| 0 <= i < t.spec_cards().len() ==> #[trigger] cell_scan_safe(t, i) && scan_fits(t, i)
}

/// Whether every card of the tree can be renumbered (see [`renumberable`]).
pub fn can_renumber(tree: &GreenTree) -> (r: bool)
    requires
        tree.wf(),
    ensures
        r == renumberable(*tree),
{
    let n = tree.cards().len();
    let mut i: usize = 0;
    while i < n
        invariant
            tree.wf(),
            n == tree.spec_cards().len(),
            i <= n,
            forall|k: int| 0 <= k < i ==> #[trigger] cell_scan_safe(*tree, k) && scan_fits(*tree, k),
        decreases n - i,
    {
        let safe = scan_safe(tree, i);
        let fits = scan_fits_at(tree, i);
        if !safe || !fits {
            return false;
        }
        assert forall|k: int| 0 <= k < i + 1 implies #[trigger] cell_scan_safe(*tree, k) && scan_fits(
            *tree,
            k,
        ) by {
            if k == i {
                assert(cell_scan_safe(*tree, i as int) && scan_fits(*tree, i as int));
            }
        }
        i = i + 1;
    }
    true
}

/// Every token of `es` lies in `[a, b)`.
pub open spec fn edits_within(es: Seq<Edit>, a: int, b: int) -> bool {
    forall|k: int| 0 <= k < es.len() ==> a <= (#[trigger] es[k]).0 < b
}

proof fn lemma_geom_refs_frame(
    t: GreenTree,
    t2: GreenTree,
    toks: Seq<u32>,
    p: int,
    ph: bool,
    a: int,
    b: int,
)
    requires
        t2.spec_tokens() == t.spec_tokens(),
        agree_on(t, t2, a, b),
        forall|k: int| 0 <= k < toks.len() ==> a <= #[trigger] toks[k] < b,
    ensures
        geom_refs(t2, toks, p, ph) == geom_refs(t, toks, p, ph),
        forall|k: int|
            0 <= k < geom_refs(t, toks, p, ph).len() ==> a <= (#[trigger] geom_refs(
                t,
                toks,
                p,
                ph,
            )[k]).1 < b,
    decreases toks.len() - p,
{
    if 0 <= p < toks.len() {
        assert(a <= toks[p] < b);
        assert(t2.spec_token_text(toks[p] as int) == t.spec_token_text(toks[p] as int));
        lemma_geom_refs_frame(t, t2, toks, p + 1, true, a, b);
        lemma_geom_refs_frame(t, t2, toks, p + 1, false, a, b);
        let g = geom_refs(t, toks, p, ph);
        let k = kind_of(t, toks[p]);
        if k == SyntaxKind::NUMBER {
            let rest = geom_refs(t, toks, p + 1, false);
            let here = g.subrange(0, g.len() - rest.len());
            assert forall|j: int| 0 <= j < g.len() implies a <= (#[trigger] g[j]).1 < b by {
                if j >= g.len() - rest.len() {
                    assert(g[j] == rest[j - (g.len() - rest.len())]);
                }
            }
        }
    }
}

/// What a card reads does not change when only texts outside it change.
pub proof fn lemma_frame_card(t: GreenTree, t2: GreenTree, ci: int)
    requires
        t.wf(),
        same_base(t, t2),
        0 <= ci < t.spec_cards().len(),
        agree_on(
            t,
            t2,
            t.spec_cards()[ci].first_tok as int,
            t.spec_cards()[ci].tok_end as int,
        ),
    ensures
        spec_cell_refs(t2, ci) == spec_cell_refs(t, ci),
        spec_surface_id(t2, ci) == spec_surface_id(t, ci),
        no_min_in_card(t2, ci) == no_min_in_card(t, ci),
        cell_scan_safe(t2, ci) == cell_scan_safe(t, ci),
        scan_fits(t2, ci) == scan_fits(t, ci),
        edits_within(
            surface_card_edits(t, ci),
            t.spec_cards()[ci].first_tok as int,
            t.spec_cards()[ci].tok_end as int,
        ),
        edits_within(
            cell_ref_edits(spec_cell_refs(t, ci)),
            t.spec_cards()[ci].first_tok as int,
            t.spec_cards()[ci].tok_end as int,
        ),
{
    t.lemma_cards_in_range();
    t.lemma_wf();
    let c = t.spec_cards()[ci];
    let a = c.first_tok as int;
    let b = c.tok_end as int;
    let toks = card_toks(t, c);
    lemma_card_toks(t.spec_tokens(), a, b);
    lemma_content_tokens(t.spec_tokens(), a, b);
    assert(card_toks(t2, c) == toks);
    if toks.len() > 0 {
        assert(a <= toks[0] < b);
    }
    if toks.len() > 1 {
        assert(a <= toks[1] < b);
    }
    if toks.len() > 2 {
        assert(a <= toks[2] < b);
    }
    if toks.len() > 3 {
        assert(a <= toks[3] < b);
    }
    lemma_geom_refs_frame(t, t2, toks, 2, false, a, b);
    lemma_geom_refs_frame(t, t2, toks, 3, false, a, b);
    lemma_geom_min_free_frame(t, t2, toks, 2, false, a, b);
    lemma_geom_min_free_frame(t, t2, toks, 3, false, a, b);
    let cts = content_tokens(t.spec_tokens(), a, b);
    if cts.len() > 0 {
        assert(a <= cts[0] < b);
    }
    if cts.len() > 1 {
        assert(a <= cts[1] < b);
    }
    assert(no_min_in_card(t2, ci) == no_min_in_card(t, ci)) by {
        assert forall|x: int| a <= x < b implies #[trigger] t2.spec_token_text(x)
            == t.spec_token_text(x) by {}
    }
    let rs = spec_cell_refs(t, ci);
    lemma_refs_within(t, ci);
    lemma_surface_ref_edits_within(rs, a, b);
    lemma_cell_ref_edits_within(rs, a, b);
    let se = surface_card_edits(t, ci);
    assert forall|k: int| 0 <= k < se.len() implies a <= (#[trigger] se[k]).0 < b by {
        match spec_surface_id(t, ci) {
            Some(_) => {
                if k > 0 {
                    assert(se[k] == surface_ref_edits(rs)[k - 1]);
                }
            },
            None => {
                assert(se[k] == surface_ref_edits(rs)[k]);
            },
        }
    }
}

/// The references of a card lie in its token range.
pub proof fn lemma_refs_within(t: GreenTree, ci: int)
    requires
        t.wf(),
        0 <= ci < t.spec_cards().len(),
    ensures
        forall|k: int|
            0 <= k < spec_cell_refs(t, ci).len() ==> t.spec_cards()[ci].first_tok <= (
            #[trigger] spec_cell_refs(t, ci)[k]).1 < t.spec_cards()[ci].tok_end,
{
    t.lemma_cards_in_range();
    t.lemma_wf();
    let c = t.spec_cards()[ci];
    let a = c.first_tok as int;
    let b = c.tok_end as int;
    let toks = card_toks(t, c);
    lemma_card_toks(t.spec_tokens(), a, b);
    lemma_geom_refs_frame(t, t, toks, 2, false, a, b);
    lemma_geom_refs_frame(t, t, toks, 3, false, a, b);
    let rs = spec_cell_refs(t, ci);
    if toks.len() > 0 {
        assert(a <= toks[0] < b);
    }
    if toks.len() > 2 {
        assert(a <= toks[2] < b);
    }
    assert forall|k: int| 0 <= k < rs.len() implies a <= (#[trigger] rs[k]).1 < b by {
        if k > 0 && !crate::crunchy::cell::is_like(t, toks) && toks.len() > 1 && kind_of(t, toks[1])
            == SyntaxKind::NUMBER {
            let pos: int = if int_of(t, toks[1]) != Some(0i64) {
                3
            } else {
                2
            };
            assert(rs[k] == geom_refs(t, toks, pos, false)[k - 1]);
        }
    }
}

proof fn lemma_surface_ref_edits_within(rs: Seq<(RefKind, u32, i64)>, a: int, b: int)
    requires
        forall|k: int| 0 <= k < rs.len() ==> a <= (#[trigger] rs[k]).1 < b,
    ensures
        edits_within(surface_ref_edits(rs), a, b),
    decreases rs.len(),
{
    if rs.len() > 0 {
        assert forall|k: int| 0 <= k < rs.drop_last().len() implies a <= (
        #[trigger] rs.drop_last()[k]).1 < b by {
            assert(rs.drop_last()[k] == rs[k]);
        }
        lemma_surface_ref_edits_within(rs.drop_last(), a, b);
        assert(a <= rs[rs.len() - 1].1 < b);
    }
}

proof fn lemma_cell_ref_edits_within(rs: Seq<(RefKind, u32, i64)>, a: int, b: int)
    requires
        forall|k: int| 0 <= k < rs.len() ==> a <= (#[trigger] rs[k]).1 < b,
    ensures
        edits_within(cell_ref_edits(rs), a, b),
    decreases rs.len(),
{
    if rs.len() > 0 {
        assert forall|k: int| 0 <= k < rs.drop_last().len() implies a <= (
        #[trigger] rs.drop_last()[k]).1 < b by {
            assert(rs.drop_last()[k] == rs[k]);
        }
        lemma_cell_ref_edits_within(rs.drop_last(), a, b);
        assert(a <= rs[rs.len() - 1].1 < b);
    }
}


/// Rewrites touch only their own tokens.
pub proof fn lemma_apply_outside(m: Map<u32, Seq<u8>>, es: Seq<Edit>, ys: Seq<i64>, x: u32)
    requires
        forall|k: int| 0 <= k < es.len() ==> (#[trigger] es[k]).0 != x,
    ensures
        apply_edits(m, es, ys).contains_key(x) == m.contains_key(x),
        apply_edits(m, es, ys)[x] == m[x],
    decreases es.len(),
{
    if es.len() > 0 && ys.len() == es.len() {
        assert forall|k: int| 0 <= k < es.drop_last().len() implies (
        #[trigger] es.drop_last()[k]).0 != x by {
            assert(es.drop_last()[k] == es[k]);
        }
        lemma_apply_outside(m, es.drop_last(), ys.drop_last(), x);
        assert(es[es.len() - 1].0 != x);
    }
}

/// Appending rewrites extends the applied map.
pub proof fn lemma_apply_push(m: Map<u32, Seq<u8>>, es: Seq<Edit>, ys: Seq<i64>, e: Edit, y: i64)
    requires
        ys.len() == es.len(),
    ensures
        apply_edits(m, es.push(e), ys.push(y)) == apply_edits(m, es, ys).insert(e.0, render(e.2, y)),
{
    assert(es.push(e).drop_last() =~= es);
    assert(ys.push(y).drop_last() =~= ys);
}

/// The text a tree reads for a token, from its override texts.
pub proof fn lemma_token_text(t: GreenTree, x: int)
    ensures
        t.spec_token_text(x) == if t.spec_texts().contains_key(x as u32) {
            t.spec_texts()[x as u32]
        } else {
            t.spec_src_text(x)
        },
{
}

/// Which ids a renumbering rewrites.
#[derive(Debug, Clone, Copy, PartialEq, Eq, Structural)]
pub enum Pass {
    Surfaces,
    Cells,
    Materials,
    Transforms,
}

/// The rewrites a renumbering makes in card `ci`.
pub open spec fn pass_card_edits(t: GreenTree, ci: int, pass: Pass) -> Seq<Edit> {
    match pass {
        Pass::Surfaces => surface_card_edits(t, ci),
        Pass::Cells => cell_ref_edits(spec_cell_refs(t, ci)),
        Pass::Materials => material_card_edits(t, ci),
        Pass::Transforms => transform_card_edits(t, ci),
    }
}

/// The rewrites of the first `m` cards.
pub open spec fn edits_upto(t: GreenTree, m: int, pass: Pass) -> Seq<Edit> {
    match pass {
        Pass::Surfaces => surface_edits_upto(t, m),
        Pass::Cells => cell_edits_upto(t, m),
        Pass::Materials => material_edits_upto(t, m),
        Pass::Transforms => transform_edits_upto(t, m),
    }
}

proof fn lemma_geom_min_free_frame(
    t: GreenTree,
    t2: GreenTree,
    toks: Seq<u32>,
    p: int,
    ph: bool,
    a: int,
    b: int,
)
    requires
        t2.spec_tokens() == t.spec_tokens(),
        agree_on(t, t2, a, b),
        forall|k: int| 0 <= k < toks.len() ==> a <= #[trigger] toks[k] < b,
    ensures
        geom_min_free(t2, toks, p, ph) == geom_min_free(t, toks, p, ph),
    decreases toks.len() - p,
{
    if 0 <= p < toks.len() {
        assert(a <= toks[p] < b);
        lemma_geom_min_free_frame(t, t2, toks, p + 1, true, a, b);
        lemma_geom_min_free_frame(t, t2, toks, p + 1, false, a, b);
    }
}

/// Where card `m` starts (past the end for `m` past the last card).
pub open spec fn card_start(t: GreenTree, m: int) -> int {
    if m < t.spec_cards().len() {
        t.spec_cards()[m].first_tok as int
    } else {
        u32::MAX as int + 1
    }
}

/// Card `m`'s token range starts after every rewrite of the cards before it.
proof fn lemma_prefix_edits_before(t: GreenTree, m: int, pass: Pass)
    requires
        t.wf(),
        0 <= m <= t.spec_cards().len(),
    ensures
        edits_within(edits_upto(t, m, pass), 0, card_start(t, m)),
    decreases m,
{
    if m > 0 {
        t.lemma_cards_ordered();
        t.lemma_cards_in_range();
        lemma_prefix_edits_before(t, m - 1, pass);
        lemma_frame_card(t, t, m - 1);
        lemma_frame_card_names(t, t, m - 1);
        let es = edits_upto(t, m, pass);
        let prev = edits_upto(t, m - 1, pass);
        let here = pass_card_edits(t, m - 1, pass);
        assert(es == prev + here);
        let c = t.spec_cards()[m - 1];
        assert forall|k: int| 0 <= k < es.len() implies 0 <= (#[trigger] es[k]).0 < card_start(t, m) by {
            if k < prev.len() {
                assert(es[k] == prev[k]);
                if m < t.spec_cards().len() {
                    assert(t.spec_cards()[m - 1].first_tok <= t.spec_cards()[m - 1].tok_end);
                    assert(t.spec_cards()[m - 1].tok_end <= t.spec_cards()[m].first_tok);
                }
            } else {
                assert(es[k] == here[k - prev.len()]);
                assert(c.first_tok <= here[k - prev.len()].0 < c.tok_end);
                if m < t.spec_cards().len() {
                    assert(t.spec_cards()[m - 1].tok_end <= t.spec_cards()[m].first_tok);
                }
            }
        }
    }
}

/// `map` gives something other than `i64::MIN` for every surface that cell
/// geometry references with a `-`, so that the sense can be put back.
pub open spec fn negates_safely<F: Fn(i64) -> i64>(map: F, t: GreenTree) -> bool {
    forall|ci: int, j: int|
        0 <= ci < t.spec_cards().len() && 0 <= j < spec_cell_refs(t, ci).len() && (
        #[trigger] spec_cell_refs(t, ci)[j]).0 == (RefKind::SurfaceRef { negative: true })
            ==> forall|y: i64| call_ensures(map, (spec_cell_refs(t, ci)[j].2,), y) ==> y != i64::MIN
}

/// Renumber every surface with `map` (old id -> new id): every surface
/// card's id and every surface reference in cell geometry, keeping the
/// sense and a white-boundary `+`. `map` sees the ids as they were.
pub fn renumber_surfaces<F: Fn(i64) -> i64>(tree: &mut GreenTree, map: F)
    requires
        old(tree).wf(),
        renumberable(*old(tree)),
        forall|x: i64| call_requires(map, (x,)),
        negates_safely(map, *old(tree)),
    ensures
        same_base(*old(tree), *final(tree)),
        exists|ys: Seq<i64>|
            mapped_by(map, surface_edits_upto(*old(tree), old(tree).spec_cards().len() as int), ys)
                && final(tree).spec_texts() == apply_edits(
                old(tree).spec_texts(),
                surface_edits_upto(*old(tree), old(tree).spec_cards().len() as int),
                ys,
            ),
{
    let ghost t0 = *tree;
    let n = tree.cards().len();
    let ghost mut ys: Seq<i64> = Seq::empty();
    let mut i: usize = 0;
    while i < n
        invariant
            t0.wf(),
            renumberable(t0),
            n == t0.spec_cards().len(),
            forall|x: i64| call_requires(map, (x,)),
            negates_safely(map, t0),
            i <= n,
            same_base(t0, *tree),
            mapped_by(map, surface_edits_upto(t0, i as int), ys),
            tree.spec_texts() == apply_edits(t0.spec_texts(), surface_edits_upto(t0, i as int), ys),
        decreases n - i,
    {
        let ghost tc = *tree;
        proof {
            t0.lemma_cards_in_range();
            lemma_prefix_edits_before(t0, i as int, Pass::Surfaces);
            let c = t0.spec_cards()[i as int];
            assert forall|x: int| c.first_tok <= x < c.tok_end implies #[trigger] tc.spec_token_text(
                x,
            ) == t0.spec_token_text(x) by {
                let es = surface_edits_upto(t0, i as int);
                assert forall|k: int| 0 <= k < es.len() implies (#[trigger] es[k]).0 != x as u32 by {
                    assert(es[k].0 < c.first_tok);
                }
                lemma_apply_outside(t0.spec_texts(), es, ys, x as u32);
                lemma_token_text(tc, x);
                lemma_token_text(t0, x);
                t0.lemma_start(x);
                tc.lemma_start(x);
            }
            lemma_frame_card(t0, tc, i as int);
            assert(cell_scan_safe(t0, i as int) && scan_fits(t0, i as int));
        }
        let refs = scan_cell_refs(tree, i);
        let ghost before_def = surface_edits_upto(t0, i as int);
        match surface_id(tree, i) {
            Some((tk, id, white)) => {
                let new = map(id);
                if white {
                    let mut bytes: Vec<u8> = Vec::new();
                    bytes.push(43u8);
                    let mut digits = fmt_int(new);
                    bytes.append(&mut digits);
                    tree.set_token_bytes(tk, bytes);
                } else {
                    tree.set_token_int(tk, new);
                }
                proof {
                    let e: Edit = (tk, id, if white { Render::Plus } else { Render::Int });
                    lemma_apply_push(t0.spec_texts(), before_def, ys, e, new);
                    assert(tree.spec_texts() =~= apply_edits(t0.spec_texts(), before_def.push(e), ys.push(new)));
                    ys = ys.push(new);
                }
            },
            None => {},
        }
        let ghost def_edits: Seq<Edit> = match spec_surface_id(t0, i as int) {
            Some((x, id, white)) => seq![(x, id, if white { Render::Plus } else { Render::Int })],
            None => Seq::empty(),
        };
        proof {
            assert(before_def + def_edits =~= (match spec_surface_id(t0, i as int) {
                Some((x, id, white)) => before_def.push((x, id, if white { Render::Plus } else { Render::Int })),
                None => before_def,
            }));
        }
        let mut r: usize = 0;
        while r < refs.len()
            invariant
                t0.wf(),
                forall|x: i64| call_requires(map, (x,)),
                negates_safely(map, t0),
                i < n,
                n == t0.spec_cards().len(),
                refs@ == spec_cell_refs(t0, i as int),
                same_base(t0, *tree),
                r <= refs@.len(),
                mapped_by(map, before_def + def_edits + surface_ref_edits(refs@.subrange(0, r as int)), ys),
                tree.spec_texts() == apply_edits(
                    t0.spec_texts(),
                    before_def + def_edits + surface_ref_edits(refs@.subrange(0, r as int)),
                    ys,
                ),
            decreases refs@.len() - r,
        {
            let (kind, tok, v) = refs[r];
            let ghost prefix = before_def + def_edits + surface_ref_edits(refs@.subrange(0, r as int));
            proof {
                assert(refs@.subrange(0, r + 1).drop_last() =~= refs@.subrange(0, r as int));
            }
            match kind {
                RefKind::SurfaceRef { negative } => {
                    let new = map(v);
                    proof {
                        if negative {
                            assert(spec_cell_refs(t0, i as int)[r as int].0 == (RefKind::SurfaceRef {
                                negative: true,
                            }));
                        }
                    }
                    let val = if negative {
                        -new
                    } else {
                        new
                    };
                    tree.set_token_int(tok, val);
                    proof {
                        let e: Edit = (tok, v, if negative { Render::Neg } else { Render::Int });
                        lemma_apply_push(t0.spec_texts(), prefix, ys, e, new);
                        assert(prefix.push(e) =~= before_def + def_edits + surface_ref_edits(
                            refs@.subrange(0, r + 1),
                        ));
                        ys = ys.push(new);
                    }
                },
                _ => {
                    proof {
                        assert(prefix =~= before_def + def_edits + surface_ref_edits(
                            refs@.subrange(0, r + 1),
                        ));
                    }
                },
            }
            r = r + 1;
        }
        proof {
            assert(refs@.subrange(0, r as int) =~= refs@);
            assert(surface_edits_upto(t0, i + 1) =~= before_def + def_edits + surface_ref_edits(
                refs@,
            ));
        }
        i = i + 1;
    }
}


/// Renumber every cell with `map` (old id -> new id): every cell card's id,
/// every `#n` complement and every `LIKE n` base. `map` sees the ids as
/// they were.
pub fn renumber_cells<F: Fn(i64) -> i64>(tree: &mut GreenTree, map: F)
    requires
        old(tree).wf(),
        renumberable(*old(tree)),
        forall|x: i64| call_requires(map, (x,)),
    ensures
        same_base(*old(tree), *final(tree)),
        exists|ys: Seq<i64>|
            mapped_by(map, cell_edits_upto(*old(tree), old(tree).spec_cards().len() as int), ys)
                && final(tree).spec_texts() == apply_edits(
                old(tree).spec_texts(),
                cell_edits_upto(*old(tree), old(tree).spec_cards().len() as int),
                ys,
            ),
{
    let ghost t0 = *tree;
    let n = tree.cards().len();
    let ghost mut ys: Seq<i64> = Seq::empty();
    let mut i: usize = 0;
    while i < n
        invariant
            t0.wf(),
            renumberable(t0),
            n == t0.spec_cards().len(),
            forall|x: i64| call_requires(map, (x,)),
            i <= n,
            same_base(t0, *tree),
            mapped_by(map, cell_edits_upto(t0, i as int), ys),
            tree.spec_texts() == apply_edits(t0.spec_texts(), cell_edits_upto(t0, i as int), ys),
        decreases n - i,
    {
        let ghost tc = *tree;
        proof {
            t0.lemma_cards_in_range();
            lemma_prefix_edits_before(t0, i as int, Pass::Cells);
            let c = t0.spec_cards()[i as int];
            assert forall|x: int| c.first_tok <= x < c.tok_end implies #[trigger] tc.spec_token_text(
                x,
            ) == t0.spec_token_text(x) by {
                let es = cell_edits_upto(t0, i as int);
                assert forall|k: int| 0 <= k < es.len() implies (#[trigger] es[k]).0 != x as u32 by {
                    assert(es[k].0 < c.first_tok);
                }
                lemma_apply_outside(t0.spec_texts(), es, ys, x as u32);
                lemma_token_text(tc, x);
                lemma_token_text(t0, x);
                t0.lemma_start(x);
                tc.lemma_start(x);
            }
            lemma_frame_card(t0, tc, i as int);
            assert(cell_scan_safe(t0, i as int) && scan_fits(t0, i as int));
        }
        let refs = scan_cell_refs(tree, i);
        let ghost before = cell_edits_upto(t0, i as int);
        let mut r: usize = 0;
        while r < refs.len()
            invariant
                t0.wf(),
                forall|x: i64| call_requires(map, (x,)),
                same_base(t0, *tree),
                r <= refs@.len(),
                mapped_by(map, before + cell_ref_edits(refs@.subrange(0, r as int)), ys),
                tree.spec_texts() == apply_edits(
                    t0.spec_texts(),
                    before + cell_ref_edits(refs@.subrange(0, r as int)),
                    ys,
                ),
            decreases refs@.len() - r,
        {
            let (kind, tok, v) = refs[r];
            let ghost prefix = before + cell_ref_edits(refs@.subrange(0, r as int));
            proof {
                assert(refs@.subrange(0, r + 1).drop_last() =~= refs@.subrange(0, r as int));
            }
            match kind {
                RefKind::SurfaceRef { .. } => {
                    proof {
                        assert(prefix =~= before + cell_ref_edits(refs@.subrange(0, r + 1)));
                    }
                },
                _ => {
                    let new = map(v);
                    tree.set_token_int(tok, new);
                    proof {
                        let e: Edit = (tok, v, Render::Int);
                        lemma_apply_push(t0.spec_texts(), prefix, ys, e, new);
                        assert(prefix.push(e) =~= before + cell_ref_edits(refs@.subrange(0, r + 1)));
                        ys = ys.push(new);
                    }
                },
            }
            r = r + 1;
        }
        proof {
            assert(refs@.subrange(0, r as int) =~= refs@);
        }
        i = i + 1;
    }
}


/// `s` without its trailing ASCII digits.
pub open spec fn strip_digits(s: Seq<u8>) -> Seq<u8>
    decreases s.len(),
{
    if s.len() > 0 && 48u8 <= s.last() <= 57u8 {
        strip_digits(s.drop_last())
    } else {
        s
    }
}

/// A data-card name `letters` followed by a number: the id when the name,
/// compared without case, is `word` then one or more digits.
pub open spec fn named_id(text: Seq<u8>, word: Seq<u8>) -> Option<i64> {
    let n = word.len();
    if text.len() > n && (forall|k: int| 0 <= k < n ==> ascii_upper(#[trigger] text[k]) == word[k])
        && all_digits(text.subrange(n as int, text.len() as int)) {
        spec_parse_i64(text.subrange(n as int, text.len() as int))
    } else {
        None
    }
}

/// The name token of a data card and the id it carries when the name is
/// `word` then digits; `skip_star` allows a leading `*`; `no_amp` reads the
/// tokens without `&` marks.
pub open spec fn spec_data_name_id(t: GreenTree, ci: int, word: Seq<u8>, skip_star: bool, no_amp: bool) -> Option<(u32, i64)> {
    let c = t.spec_cards()[ci];
    let toks = if no_amp {
        card_toks(t, c)
    } else {
        content_tokens(t.spec_tokens(), c.first_tok as int, c.tok_end as int)
    };
    if c.kind != SyntaxKind::DATA_CARD || toks.len() < 1 {
        None
    } else {
        let p: int = if skip_star && kind_of(t, toks[0]) == SyntaxKind::STAR {
            1
        } else {
            0
        };
        if p >= toks.len() || kind_of(t, toks[p]) != SyntaxKind::IDENT {
            None
        } else {
            match named_id(t.spec_token_text(toks[p] as int), word) {
                Some(id) => Some((toks[p], id)),
                None => None,
            }
        }
    }
}

pub open spec fn word_m() -> Seq<u8> {
    seq![77u8]
}

pub open spec fn word_mt() -> Seq<u8> {
    seq![77u8, 84u8]
}

pub open spec fn word_mx() -> Seq<u8> {
    seq![77u8, 88u8]
}

pub open spec fn word_tr() -> Seq<u8> {
    seq![84u8, 82u8]
}

/// An `Mn` material definition: its name token and id.
pub open spec fn spec_material_def(t: GreenTree, ci: int) -> Option<(u32, i64)> {
    spec_data_name_id(t, ci, word_m(), false, true)
}

/// An `MTn` / `MXn` card, which references material `n`.
pub open spec fn spec_mt_mx_ref(t: GreenTree, ci: int) -> Option<(u32, i64)> {
    match spec_data_name_id(t, ci, word_mt(), false, false) {
        Some(r) => Some(r),
        None => spec_data_name_id(t, ci, word_mx(), false, false),
    }
}

/// A `TRn` / `*TRn` transform definition.
pub open spec fn spec_transform_def(t: GreenTree, ci: int) -> Option<(u32, i64)> {
    spec_data_name_id(t, ci, word_tr(), true, false)
}

/// The material field of a cell card (not of a `LIKE n BUT` cell).
pub open spec fn spec_cell_material(t: GreenTree, ci: int) -> Option<(u32, i64)> {
    let c = t.spec_cards()[ci];
    let toks = card_toks(t, c);
    if c.kind != SyntaxKind::CELL_CARD || toks.len() < 2 || kind_of(t, toks[0])
        != SyntaxKind::NUMBER || kind_of(t, toks[1]) != SyntaxKind::NUMBER {
        None
    } else {
        match int_of(t, toks[1]) {
            Some(m) => Some((toks[1], m)),
            None => None,
        }
    }
}

/// The transform field of a surface card: a number between the id and the
/// mnemonic, with its value when it reads as an integer.
pub open spec fn spec_surface_transform(t: GreenTree, ci: int) -> Option<(u32, i64)> {
    let c = t.spec_cards()[ci];
    let toks = content_tokens(t.spec_tokens(), c.first_tok as int, c.tok_end as int);
    if c.kind != SyntaxKind::SURFACE_CARD || toks.len() < 1 {
        None
    } else {
        let p: int = if kind_of(t, toks[0]) == SyntaxKind::STAR {
            1
        } else {
            0
        };
        if p + 2 >= toks.len() || kind_of(t, toks[p]) != SyntaxKind::NUMBER || int_of(t, toks[p])
            is None || kind_of(t, toks[p + 1]) != SyntaxKind::NUMBER || kind_of(t, toks[p + 2])
            != SyntaxKind::IDENT {
            None
        } else {
            match int_of(t, toks[p + 1]) {
                Some(v) => Some((toks[p + 1], v)),
                None => None,
            }
        }
    }
}

pub open spec fn prefixed_edit(t: GreenTree, tk: u32, id: i64) -> Edit {
    (tk, id, Render::Prefixed(strip_digits(t.spec_token_text(tk as int))))
}

/// The rewrites a material renumbering makes in card `ci`: an `Mn` or
/// `MTn` / `MXn` name, or a cell's non-void material field.
pub open spec fn material_card_edits(t: GreenTree, ci: int) -> Seq<Edit> {
    match spec_material_def(t, ci) {
        Some((tk, id)) => seq![prefixed_edit(t, tk, id)],
        None => match spec_mt_mx_ref(t, ci) {
            Some((tk, id)) => seq![prefixed_edit(t, tk, id)],
            None => match spec_cell_material(t, ci) {
                Some((tk, m)) => if m != 0 {
                    seq![(tk, m, Render::Int)]
                } else {
                    Seq::empty()
                },
                None => Seq::empty(),
            },
        },
    }
}

/// The rewrites a transform renumbering makes in card `ci`: a `TRn` name,
/// or a surface's transform field (its magnitude mapped, its sign kept).
pub open spec fn transform_card_edits(t: GreenTree, ci: int) -> Seq<Edit> {
    match spec_transform_def(t, ci) {
        Some((tk, id)) => seq![prefixed_edit(t, tk, id)],
        None => match spec_surface_transform(t, ci) {
            Some((tk, v)) => seq![
                (
                    tk,
                    crate::crunchy::parser::abs_of(v),
                    if v < 0 {
                        Render::Neg
                    } else {
                        Render::Int
                    },
                ),
            ],
            None => Seq::empty(),
        },
    }
}

pub open spec fn material_edits_upto(t: GreenTree, m: int) -> Seq<Edit>
    decreases m,
{
    if m <= 0 {
        Seq::empty()
    } else {
        material_edits_upto(t, m - 1) + material_card_edits(t, m - 1)
    }
}

pub open spec fn transform_edits_upto(t: GreenTree, m: int) -> Seq<Edit>
    decreases m,
{
    if m <= 0 {
        Seq::empty()
    } else {
        transform_edits_upto(t, m - 1) + transform_card_edits(t, m - 1)
    }
}


pub(crate) fn named_id_exec(text: &[u8], word: &[u8]) -> (r: Option<i64>)
    ensures
        r == named_id(text@, word@),
{
    let n = word.len();
    if text.len() <= n {
        return None;
    }
    let mut k: usize = 0;
    while k < n
        invariant
            n == word@.len() < text@.len(),
            k <= n,
            forall|j: int| 0 <= j < k ==> ascii_upper(#[trigger] text@[j]) == word@[j],
        decreases n - k,
    {
        let b = text[k];
        let u = if 97u8 <= b && b <= 122u8 {
            b - 32
        } else {
            b
        };
        if u != word[k] {
            return None;
        }
        k = k + 1;
    }
    let mut j = n;
    while j < text.len()
        invariant
            n == word@.len() < text@.len(),
            n <= j <= text@.len(),
            all_digits(text@.subrange(n as int, j as int)),
        decreases text@.len() - j,
    {
        if !(48u8 <= text[j] && text[j] <= 57u8) {
            proof {
                assert(text@.subrange(n as int, text@.len() as int)[j - n] == text@[j as int]);
            }
            return None;
        }
        proof {
            assert forall|m: int| 0 <= m < j + 1 - n implies crate::lex::spec_is_digit(
                #[trigger] text@.subrange(n as int, j + 1)[m],
            ) by {
                if m < j - n {
                    assert(text@.subrange(n as int, j + 1)[m] == text@.subrange(n as int, j as int)[m]);
                }
            }
        }
        j = j + 1;
    }
    parse_i64_range(text, n, text.len())
}

/// The name token of a data card and the id it carries, when the name is
/// `word` then digits.
fn data_name_id(tree: &GreenTree, card_index: usize, word: &[u8], skip_star: bool, no_amp: bool) -> (r: Option<(u32, i64)>)
    requires
        tree.wf(),
        card_index < tree.spec_cards().len(),
    ensures
        r == spec_data_name_id(*tree, card_index as int, word@, skip_star, no_amp),
{
    proof {
        tree.lemma_cards_in_range();
        tree.lemma_wf();
    }
    let card = tree.cards()[card_index];
    assert(card == tree.spec_cards()[card_index as int]);
    if card.kind != SyntaxKind::DATA_CARD {
        return None;
    }
    let toks = if no_amp {
        card_tokens(tree, &card)
    } else {
        tree.card_content_tokens(&card)
    };
    proof {
        lemma_card_toks(tree.spec_tokens(), card.first_tok as int, card.tok_end as int);
        lemma_content_tokens(tree.spec_tokens(), card.first_tok as int, card.tok_end as int);
    }
    if toks.len() < 1 {
        return None;
    }
    let p: usize = if skip_star && tree.token_kind(toks[0]) == SyntaxKind::STAR {
        1
    } else {
        0
    };
    if p >= toks.len() || tree.token_kind(toks[p]) != SyntaxKind::IDENT {
        return None;
    }
    match named_id_exec(tree.token_text(toks[p]), word) {
        Some(id) => Some((toks[p], id)),
        None => None,
    }
}

/// The material field of the cell card at `card_index`: `(token, material)`;
/// none for a `LIKE n BUT` cell or any other card.
pub fn cell_material(tree: &GreenTree, card_index: usize) -> (r: Option<(u32, i64)>)
    requires
        tree.wf(),
        card_index < tree.spec_cards().len(),
    ensures
        r == spec_cell_material(*tree, card_index as int),
{
    proof {
        tree.lemma_cards_in_range();
        tree.lemma_wf();
    }
    let card = tree.cards()[card_index];
    assert(card == tree.spec_cards()[card_index as int]);
    if card.kind != SyntaxKind::CELL_CARD {
        return None;
    }
    let toks = card_tokens(tree, &card);
    proof {
        lemma_card_toks(tree.spec_tokens(), card.first_tok as int, card.tok_end as int);
    }
    if toks.len() < 2 || tree.token_kind(toks[0]) != SyntaxKind::NUMBER || tree.token_kind(toks[1])
        != SyntaxKind::NUMBER {
        return None;
    }
    match parse_int_bytes(tree.token_text(toks[1])) {
        Some(m) => Some((toks[1], m)),
        None => None,
    }
}

/// The transform field of the surface card at `card_index`.
fn surface_transform(tree: &GreenTree, card_index: usize) -> (r: Option<(u32, i64)>)
    requires
        tree.wf(),
        card_index < tree.spec_cards().len(),
    ensures
        r == spec_surface_transform(*tree, card_index as int),
{
    proof {
        tree.lemma_cards_in_range();
        tree.lemma_wf();
    }
    let card = tree.cards()[card_index];
    assert(card == tree.spec_cards()[card_index as int]);
    if card.kind != SyntaxKind::SURFACE_CARD {
        return None;
    }
    let toks = tree.card_content_tokens(&card);
    proof {
        lemma_content_tokens(tree.spec_tokens(), card.first_tok as int, card.tok_end as int);
    }
    if toks.len() < 1 {
        return None;
    }
    let p: usize = if tree.token_kind(toks[0]) == SyntaxKind::STAR {
        1
    } else {
        0
    };
    if p + 2 >= toks.len() || tree.token_kind(toks[p]) != SyntaxKind::NUMBER {
        return None;
    }
    if parse_int_bytes(tree.token_text(toks[p])).is_none() {
        return None;
    }
    if tree.token_kind(toks[p + 1]) != SyntaxKind::NUMBER || tree.token_kind(toks[p + 2])
        != SyntaxKind::IDENT {
        return None;
    }
    match parse_int_bytes(tree.token_text(toks[p + 1])) {
        Some(v) => Some((toks[p + 1], v)),
        None => None,
    }
}

/// Rewrite the trailing digits of token `tok` to `new`, keeping the name
/// before them and its case (`m1` -> `m124`, `MT2` -> `MT124`).
fn rewrite_trailing_number(tree: &mut GreenTree, tok: u32, new: i64)
    requires
        old(tree).wf(),
        tok < old(tree).spec_tokens().len(),
    ensures
        same_base(*old(tree), *final(tree)),
        final(tree).spec_texts() == old(tree).spec_texts().insert(
            tok,
            strip_digits(old(tree).spec_token_text(tok as int)) + int_text(new as int),
        ),
{
    let text = tree.token_text(tok);
    let mut end = text.len();
    proof {
        assert(text@.subrange(0, text@.len() as int) =~= text@);
    }
    while end > 0 && 48u8 <= text[end - 1] && text[end - 1] <= 57u8
        invariant
            end <= text@.len(),
            strip_digits(text@) == strip_digits(text@.subrange(0, end as int)),
        decreases end,
    {
        proof {
            assert(text@.subrange(0, end as int).drop_last() =~= text@.subrange(0, end - 1));
        }
        end = end - 1;
    }
    proof {
        assert(text@.subrange(0, text@.len() as int) =~= text@);
    }
    let mut out = vstd::slice::slice_to_vec(vstd::slice::slice_subrange(text, 0, end));
    let mut digits = fmt_int(new);
    out.append(&mut digits);
    tree.set_token_bytes(tok, out);
}


/// The names and fields the material and transform renumberings read do
/// not change when only texts outside the card change.
pub proof fn lemma_frame_card_names(t: GreenTree, t2: GreenTree, ci: int)
    requires
        t.wf(),
        same_base(t, t2),
        0 <= ci < t.spec_cards().len(),
        agree_on(
            t,
            t2,
            t.spec_cards()[ci].first_tok as int,
            t.spec_cards()[ci].tok_end as int,
        ),
    ensures
        material_card_edits(t2, ci) == material_card_edits(t, ci),
        transform_card_edits(t2, ci) == transform_card_edits(t, ci),
        spec_material_def(t2, ci) == spec_material_def(t, ci),
        spec_mt_mx_ref(t2, ci) == spec_mt_mx_ref(t, ci),
        spec_cell_material(t2, ci) == spec_cell_material(t, ci),
        spec_transform_def(t2, ci) == spec_transform_def(t, ci),
        spec_surface_transform(t2, ci) == spec_surface_transform(t, ci),
        edits_within(
            material_card_edits(t, ci),
            t.spec_cards()[ci].first_tok as int,
            t.spec_cards()[ci].tok_end as int,
        ),
        edits_within(
            transform_card_edits(t, ci),
            t.spec_cards()[ci].first_tok as int,
            t.spec_cards()[ci].tok_end as int,
        ),
{
    t.lemma_cards_in_range();
    t.lemma_wf();
    let c = t.spec_cards()[ci];
    let a = c.first_tok as int;
    let b = c.tok_end as int;
    let toks = card_toks(t, c);
    let cts = content_tokens(t.spec_tokens(), a, b);
    lemma_card_toks(t.spec_tokens(), a, b);
    lemma_content_tokens(t.spec_tokens(), a, b);
    assert(card_toks(t2, c) == toks);
    assert(content_tokens(t2.spec_tokens(), a, b) == cts);
    if toks.len() > 0 {
        assert(a <= toks[0] < b);
    }
    if toks.len() > 1 {
        assert(a <= toks[1] < b);
    }
    if cts.len() > 0 {
        assert(a <= cts[0] < b);
    }
    if cts.len() > 1 {
        assert(a <= cts[1] < b);
    }
    if cts.len() > 2 {
        assert(a <= cts[2] < b);
    }
    if cts.len() > 3 {
        assert(a <= cts[3] < b);
    }
}


/// Renumber every material with `map` (old id -> new id): every `Mn` name,
/// every `MTn` / `MXn` name that refers to a material, and every cell's
/// material field; void cells (material 0) are left alone. `map` sees the
/// ids as they were.
pub fn renumber_materials<F: Fn(i64) -> i64>(tree: &mut GreenTree, map: F)
    requires
        old(tree).wf(),
        forall|x: i64| call_requires(map, (x,)),
    ensures
        same_base(*old(tree), *final(tree)),
        exists|ys: Seq<i64>|
            mapped_by(map, material_edits_upto(*old(tree), old(tree).spec_cards().len() as int), ys)
                && final(tree).spec_texts() == apply_edits(
                old(tree).spec_texts(),
                material_edits_upto(*old(tree), old(tree).spec_cards().len() as int),
                ys,
            ),
{
    let ghost t0 = *tree;
    let n = tree.cards().len();
    let ghost mut ys: Seq<i64> = Seq::empty();
    let m: [u8; 1] = [77u8];
    let mt: [u8; 2] = [77u8, 84u8];
    let mx: [u8; 2] = [77u8, 88u8];
    assert(m@ == word_m() && mt@ == word_mt() && mx@ == word_mx());
    let mut i: usize = 0;
    while i < n
        invariant
            t0.wf(),
            n == t0.spec_cards().len(),
            m@ == word_m(),
            mt@ == word_mt(),
            mx@ == word_mx(),
            forall|x: i64| call_requires(map, (x,)),
            i <= n,
            same_base(t0, *tree),
            mapped_by(map, material_edits_upto(t0, i as int), ys),
            tree.spec_texts() == apply_edits(t0.spec_texts(), material_edits_upto(t0, i as int), ys),
        decreases n - i,
    {
        let ghost tc = *tree;
        proof {
            t0.lemma_cards_in_range();
            lemma_prefix_edits_before(t0, i as int, Pass::Materials);
            let c = t0.spec_cards()[i as int];
            assert forall|x: int| c.first_tok <= x < c.tok_end implies #[trigger] tc.spec_token_text(
                x,
            ) == t0.spec_token_text(x) by {
                let es = edits_upto(t0, i as int, Pass::Materials);
                assert forall|k: int| 0 <= k < es.len() implies (#[trigger] es[k]).0 != x as u32 by {
                    assert(es[k].0 < c.first_tok);
                }
                lemma_apply_outside(t0.spec_texts(), es, ys, x as u32);
                lemma_token_text(tc, x);
                lemma_token_text(t0, x);
                t0.lemma_start(x);
                tc.lemma_start(x);
            }
            lemma_frame_card_names(t0, tc, i as int);
        }
        let ghost before = edits_upto(t0, i as int, Pass::Materials);
        let mut edit: Option<(u32, i64, bool)> = None;
        match data_name_id(tree, i, &m, false, true) {
            Some((tk, id)) => {
                edit = Some((tk, id, true));
            },
            None => {
                let r = match data_name_id(tree, i, &mt, false, false) {
                    Some(x) => Some(x),
                    None => data_name_id(tree, i, &mx, false, false),
                };
                match r {
                    Some((tk, id)) => {
                        edit = Some((tk, id, true));
                    },
                    None => {
                        match cell_material(tree, i) {
                            Some((tk, mat)) => {
                                if mat != 0 {
                                    edit = Some((tk, mat, false));
                                }
                            },
                            None => {},
                        }
                    },
                }
            },
        }
        match edit {
            Some((tk, id, named)) => {
                let ghost e: Edit = if named {
                    prefixed_edit(t0, tk, id)
                } else {
                    (tk, id, Render::Int)
                };
                proof {
                    t0.lemma_wf();
                    t0.lemma_cards_in_range();
                    lemma_frame_card_names(t0, t0, i as int);
                    assert(material_card_edits(t0, i as int) == seq![e]);
                    assert(material_card_edits(t0, i as int)[0] == e);
                    let c = t0.spec_cards()[i as int];
                    assert(c.first_tok <= tk < c.tok_end);
                }
                let new = map(id);
                if named {
                    rewrite_trailing_number(tree, tk, new);
                } else {
                    tree.set_token_int(tk, new);
                }
                proof {
                    lemma_apply_push(t0.spec_texts(), before, ys, e, new);
                    assert(material_card_edits(t0, i as int) == seq![e]);
                    assert(material_edits_upto(t0, i + 1) =~= before.push(e));
                    ys = ys.push(new);
                }
            },
            None => {
                proof {
                    assert(material_card_edits(t0, i as int) =~= Seq::<Edit>::empty());
                    assert(material_edits_upto(t0, i + 1) =~= before);
                }
            },
        }
        i = i + 1;
    }
}

/// Every surface's transform field reads with a magnitude that fits an
/// `i64`, and `map` gives something other than `i64::MIN` for the magnitude
/// of each periodic (negative) one, so that the sign can be put back.
pub open spec fn transforms_negate_safely<F: Fn(i64) -> i64>(map: F, t: GreenTree) -> bool {
    forall|ci: int|
        0 <= ci < t.spec_cards().len() && spec_transform_def(t, ci) is None ==> match #[trigger] spec_surface_transform(t, ci) {
            Some((_, v)) => v != i64::MIN && (v < 0 ==> forall|y: i64|
                call_ensures(map, (crate::crunchy::parser::abs_of(v),), y) ==> y != i64::MIN),
            None => true,
        }
}

/// Renumber every transform with `map` (old id -> new id): every `TRn` /
/// `*TRn` name and every surface's transform field, whose magnitude is
/// mapped and whose periodic minus sign is kept. `map` sees the ids as they
/// were.
pub fn renumber_transforms<F: Fn(i64) -> i64>(tree: &mut GreenTree, map: F)
    requires
        old(tree).wf(),
        forall|x: i64| call_requires(map, (x,)),
        transforms_negate_safely(map, *old(tree)),
    ensures
        same_base(*old(tree), *final(tree)),
        exists|ys: Seq<i64>|
            mapped_by(map, transform_edits_upto(*old(tree), old(tree).spec_cards().len() as int), ys)
                && final(tree).spec_texts() == apply_edits(
                old(tree).spec_texts(),
                transform_edits_upto(*old(tree), old(tree).spec_cards().len() as int),
                ys,
            ),
{
    let ghost t0 = *tree;
    let n = tree.cards().len();
    let ghost mut ys: Seq<i64> = Seq::empty();
    let tr: [u8; 2] = [84u8, 82u8];
    assert(tr@ == word_tr());
    let mut i: usize = 0;
    while i < n
        invariant
            t0.wf(),
            n == t0.spec_cards().len(),
            tr@ == word_tr(),
            forall|x: i64| call_requires(map, (x,)),
            transforms_negate_safely(map, t0),
            i <= n,
            same_base(t0, *tree),
            mapped_by(map, transform_edits_upto(t0, i as int), ys),
            tree.spec_texts() == apply_edits(t0.spec_texts(), transform_edits_upto(t0, i as int), ys),
        decreases n - i,
    {
        let ghost tc = *tree;
        proof {
            t0.lemma_cards_in_range();
            lemma_prefix_edits_before(t0, i as int, Pass::Transforms);
            let c = t0.spec_cards()[i as int];
            assert forall|x: int| c.first_tok <= x < c.tok_end implies #[trigger] tc.spec_token_text(
                x,
            ) == t0.spec_token_text(x) by {
                let es = edits_upto(t0, i as int, Pass::Transforms);
                assert forall|k: int| 0 <= k < es.len() implies (#[trigger] es[k]).0 != x as u32 by {
                    assert(es[k].0 < c.first_tok);
                }
                lemma_apply_outside(t0.spec_texts(), es, ys, x as u32);
                lemma_token_text(tc, x);
                lemma_token_text(t0, x);
                t0.lemma_start(x);
                tc.lemma_start(x);
            }
            lemma_frame_card_names(t0, tc, i as int);
        }
        let ghost before = edits_upto(t0, i as int, Pass::Transforms);
        proof {
            t0.lemma_wf();
            lemma_frame_card_names(t0, t0, i as int);
            lemma_content_tokens(t0.spec_tokens(), t0.spec_cards()[i as int].first_tok as int, t0.spec_cards()[i as int].tok_end as int);
        }
        match data_name_id(tree, i, &tr, true, false) {
            Some((tk, id)) => {
                let new = map(id);
                rewrite_trailing_number(tree, tk, new);
                proof {
                    let e = prefixed_edit(t0, tk, id);
                    lemma_apply_push(t0.spec_texts(), before, ys, e, new);
                    assert(transform_edits_upto(t0, i + 1) =~= before.push(e));
                    ys = ys.push(new);
                }
            },
            None => {
                match surface_transform(tree, i) {
                    Some((tk, val)) => {
                        proof {
                            let c = t0.spec_cards()[i as int];
                            assert(c.first_tok <= tk < c.tok_end);
                            assert(spec_transform_def(t0, i as int) is None);
                            assert(spec_surface_transform(t0, i as int) == Some((tk, val)));
                        }
                        let mag = if val < 0 {
                            -val
                        } else {
                            val
                        };
                        let new = map(mag);
                        let out = if val < 0 {
                            -new
                        } else {
                            new
                        };
                        tree.set_token_int(tk, out);
                        proof {
                            let e: Edit = (tk, mag, if val < 0 { Render::Neg } else { Render::Int });
                            lemma_apply_push(t0.spec_texts(), before, ys, e, new);
                            assert(transform_edits_upto(t0, i + 1) =~= before.push(e));
                            ys = ys.push(new);
                        }
                    },
                    None => {
                        proof {
                            assert(transform_edits_upto(t0, i + 1) =~= before);
                        }
                    },
                }
            },
        }
        i = i + 1;
    }
}

} // verus!
