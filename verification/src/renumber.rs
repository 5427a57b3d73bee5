//! Whole-model renumbering.
//!
//! Each renumbering remaps one family of ids through a caller-supplied
//! `Fn(i64) -> i64` and rewrites the definitions and every reference in one
//! pass. Nothing is re-lexed: each touched card is rewritten in place with
//! [`Card::rewrite_tokens`], and only tokens whose text actually changes are
//! edited, so an identity map leaves canonically written ids byte-for-byte
//! as they were.

use vstd::prelude::*;
use crate::card::{delta_prefix, edits_sorted, rewritten_text, byte_edits, spliced, Card};
use vstd::string::StringSliceAdditionalSpecFns;
use crate::cell::{layout as cell_layout, params, spec_cell_layout, spec_params, ParamSpec};
use crate::cst::Cst;
use crate::data::{head, spec_head};
use crate::float::eq_lower;
use crate::cell::{colon_in, colon_in_exec, eq_lower_bytes};
use crate::decimal::{fmt_int, int_text, lemma_int_text_len};
use crate::kind::{CardKind, SyntaxKind};
use crate::lex::lexable;
use crate::model::Model;
use crate::num::{parse_i64_range, spec_parse_i64};
use crate::scan::{lemma_sig, sig, spec_sig, spec_split_name, spec_text_at, split_name_bytes};
use crate::surface::{layout as surface_layout, spec_surface_layout};
use crate::token::Token;

verus! {

/// A rewrite target: the token, the text kept before the number (a sign, or
/// the alphabetic part of a data-card name), and the id it holds now.
pub type Target = (usize, Seq<u8>, i64);

/// A signed integer token split into its sign and id: `-`, `+` or nothing,
/// then an integer.
pub open spec fn token_target(c: Card, tok: int) -> Option<Target> {
    let text = spec_text_at(c, tok);
    let signed = text.len() > 0 && (text[0] == 45u8 || text[0] == 43u8);
    let sign = if signed {
        text.subrange(0, 1)
    } else {
        Seq::empty()
    };
    let rest = if signed {
        text.subrange(1, text.len() as int)
    } else {
        text
    };
    match spec_parse_i64(rest) {
        Some(n) => Some((tok as usize, sign, n)),
        None => None,
    }
}

/// A data-card name split into its alphabetic part, kept as written, and
/// its trailing id (`m1`, `TR3`, `f4`).
pub open spec fn name_target(c: Card, tok: int) -> Option<Target> {
    let s = spec_split_name(spec_text_at(c, tok));
    match s.1 {
        Some(n) => Some((tok as usize, s.0, n)),
        None => None,
    }
}

pub open spec fn opt_seq(t: Option<Target>) -> Seq<Target> {
    match t {
        Some(x) => seq![x],
        None => Seq::empty(),
    }
}

/// A scan of cell geometry tokens `[a, j)`: the surface references (numbers
/// not directly after `#`), the cell complements (numbers directly after
/// `#`), and whether the last significant token was `#`.
pub open spec fn geom_scan(c: Card, a: int, j: int) -> (Seq<Target>, Seq<Target>, bool)
    decreases j - a,
{
    if j <= a {
        (Seq::empty(), Seq::empty(), false)
    } else {
        let r = geom_scan(c, a, j - 1);
        let k = c.spec_tokens()[j - 1].kind;
        if crate::kind::spec_is_trivia(k) {
            r
        } else if k == SyntaxKind::Number {
            if !r.2 {
                (r.0 + opt_seq(token_target(c, j - 1)), r.1, false)
            } else {
                (r.0, r.1 + opt_seq(token_target(c, j - 1)), false)
            }
        } else if k == SyntaxKind::Hash {
            (r.0, r.1, true)
        } else {
            (r.0, r.1, false)
        }
    }
}

/// The end of a cell's geometry scan: the geometry end, within the tokens.
pub open spec fn geom_end(c: Card) -> int {
    let l = spec_cell_layout(c);
    if (l.geometry_end as int) < c.spec_tokens().len() {
        l.geometry_end as int
    } else {
        c.spec_tokens().len() as int
    }
}

pub open spec fn cell_geom(c: Card) -> (Seq<Target>, Seq<Target>, bool) {
    geom_scan(c, spec_cell_layout(c).geometry_start as int, geom_end(c))
}

/// Which family of ids a renumbering remaps.
#[derive(Debug, Clone, Copy, PartialEq, Eq, Structural)]
pub enum Renumbering {
    Surfaces,
    Cells,
    Materials,
    Transforms,
    Universes,
    Tallies,
}

pub open spec fn word_u() -> Seq<u8> {
    seq![117u8]
}

pub open spec fn word_fill() -> Seq<u8> {
    seq![102u8, 105u8, 108u8, 108u8]
}

/// The mnemonics of the tally family: `Fn` and its companion cards.
pub open spec fn tally_words() -> Seq<Seq<u8>> {
    seq![
        seq![102u8],
        seq![102u8, 99u8],
        seq![102u8, 109u8],
        seq![102u8, 115u8],
        seq![102u8, 113u8],
        seq![102u8, 117u8],
        seq![102u8, 116u8],
        seq![102u8, 105u8, 99u8],
        seq![102u8, 105u8, 112u8],
        seq![102u8, 105u8, 114u8],
        seq![101u8],
        seq![116u8],
        seq![99u8],
        seq![115u8, 100u8],
        seq![100u8, 101u8],
        seq![100u8, 102u8],
        seq![101u8, 109u8],
        seq![116u8, 109u8],
        seq![99u8, 109u8],
    ]
}

/// The universe targets of the first `m` parameters: the value of each
/// `u=` and single-universe `fill=` (a `:` in the value marks a lattice
/// array, which is left alone).
pub open spec fn universe_targets(c: Card, ps: Seq<ParamSpec>, m: int) -> Seq<Target>
    decreases m,
{
    if m <= 0 {
        Seq::empty()
    } else {
        let r = universe_targets(c, ps, m - 1);
        let p = ps[m - 1];
        let key = spec_text_at(c, p.key_token);
        if (eq_lower(key, word_u()) || eq_lower(key, word_fill())) && !colon_in(
            c.spec_tokens(),
            p.value_start,
            p.value_end,
        ) {
            match spec_sig(c.spec_tokens(), p.value_start) {
                Some(t) => if t < p.value_end {
                    r + opt_seq(token_target(c, t))
                } else {
                    r
                },
                None => r,
            }
        } else {
            r
        }
    }
}

/// What renumbering `r` rewrites in card `c`, in token order.
pub open spec fn spec_targets(c: Card, r: Renumbering) -> Seq<Target> {
    let ts = c.spec_tokens();
    match r {
        Renumbering::Surfaces => if c.spec_kind() == CardKind::Surface {
            match spec_surface_layout(c).id_tok {
                Some(t) => opt_seq(token_target(c, t as int)),
                None => Seq::empty(),
            }
        } else if c.spec_kind() == CardKind::Cell {
            cell_geom(c).0
        } else {
            Seq::empty()
        },
        Renumbering::Cells => if c.spec_kind() == CardKind::Cell {
            let id = match spec_sig(ts, 0) {
                Some(t) => opt_seq(token_target(c, t)),
                None => Seq::empty(),
            };
            let like = match spec_cell_layout(c).like_tok {
                Some(t) => opt_seq(token_target(c, t as int)),
                None => Seq::empty(),
            };
            id + cell_geom(c).1 + like
        } else {
            Seq::empty()
        },
        Renumbering::Materials => if c.spec_kind() == CardKind::Data {
            match spec_head(c) {
                Some(h) => if h.mnemonic == seq![109u8] || h.mnemonic == seq![109u8, 116u8]
                    || h.mnemonic == seq![109u8, 120u8] {
                    opt_seq(name_target(c, h.name_tok as int))
                } else {
                    Seq::empty()
                },
                None => Seq::empty(),
            }
        } else if c.spec_kind() == CardKind::Cell {
            let l = spec_cell_layout(c);
            match (l.material_tok, l.material) {
                (Some(t), Some(m)) => if m != 0 {
                    opt_seq(token_target(c, t as int))
                } else {
                    Seq::empty()
                },
                _ => Seq::empty(),
            }
        } else {
            Seq::empty()
        },
        Renumbering::Transforms => if c.spec_kind() == CardKind::Data {
            match spec_head(c) {
                Some(h) => if h.mnemonic == seq![116u8, 114u8] {
                    opt_seq(name_target(c, h.name_tok as int))
                } else {
                    Seq::empty()
                },
                None => Seq::empty(),
            }
        } else if c.spec_kind() == CardKind::Surface {
            match spec_surface_layout(c).transform_tok {
                Some(t) => opt_seq(token_target(c, t as int)),
                None => Seq::empty(),
            }
        } else {
            Seq::empty()
        },
        Renumbering::Universes => if c.spec_kind() == CardKind::Cell {
            let l = spec_cell_layout(c);
            let ps = spec_params(c, l.params_start as int, l.params_end as int);
            universe_targets(c, ps, ps.len() as int)
        } else {
            Seq::empty()
        },
        Renumbering::Tallies => if c.spec_kind() == CardKind::Data {
            match spec_head(c) {
                Some(h) => if tally_words().contains(h.mnemonic) {
                    opt_seq(name_target(c, h.name_tok as int))
                } else {
                    Seq::empty()
                },
                None => Seq::empty(),
            }
        } else {
            Seq::empty()
        },
    }
}

/// Targets lie on distinct tokens of a card with `n` tokens, in order.
pub open spec fn targets_increasing(ts: Seq<Target>, n: int) -> bool {
    &&& forall|k: int| 0 <= k < ts.len() ==> (#[trigger] ts[k]).0 < n
    &&& forall|a: int, b: int| 0 <= a < b < ts.len() ==> (#[trigger] ts[a]).0 < (#[trigger] ts[b]).0
}

/// Targets lie on tokens `[a, b)`.
pub open spec fn targets_within(ts: Seq<Target>, a: int, b: int) -> bool {
    forall|k: int| 0 <= k < ts.len() ==> a <= (#[trigger] ts[k]).0 < b
}

/// The view of computed targets.
pub open spec fn target_views(v: Seq<(usize, Vec<u8>, i64)>) -> Seq<Target> {
    Seq::new(v.len(), |k: int| (v[k].0, v[k].1@, v[k].2))
}

proof fn lemma_geom_scan(c: Card, a: int, j: int)
    requires
        0 <= a,
        j <= usize::MAX,
    ensures
        targets_increasing(geom_scan(c, a, j).0, j),
        targets_increasing(geom_scan(c, a, j).1, j),
        targets_within(geom_scan(c, a, j).0, a, j),
        targets_within(geom_scan(c, a, j).1, a, j),
    decreases j - a,
{
    if j > a {
        lemma_geom_scan(c, a, j - 1);
        let r = geom_scan(c, a, j - 1);
        let s = geom_scan(c, a, j);
        assert forall|k: int| 0 <= k < s.0.len() implies a <= (#[trigger] s.0[k]).0 < j by {
            if k < r.0.len() {
                assert(s.0[k] == r.0[k]);
            }
        }
        assert forall|k: int| 0 <= k < s.1.len() implies a <= (#[trigger] s.1[k]).0 < j by {
            if k < r.1.len() {
                assert(s.1[k] == r.1[k]);
            }
        }
        assert forall|x: int, y: int| 0 <= x < y < s.0.len() implies (#[trigger] s.0[x]).0 < (
        #[trigger] s.0[y]).0 by {
            if y < r.0.len() {
                assert(s.0[x] == r.0[x] && s.0[y] == r.0[y]);
            } else {
                assert(s.0[x] == r.0[x]);
            }
        }
        assert forall|x: int, y: int| 0 <= x < y < s.1.len() implies (#[trigger] s.1[x]).0 < (
        #[trigger] s.1[y]).0 by {
            if y < r.1.len() {
                assert(s.1[x] == r.1[x] && s.1[y] == r.1[y]);
            } else {
                assert(s.1[x] == r.1[x]);
            }
        }
    }
}

/// Exec form of a target.
pub type TargetBuf = (usize, Vec<u8>, i64);

pub open spec fn target_view(t: TargetBuf) -> Target {
    (t.0, t.1@, t.2)
}

pub(crate) fn token_target_exec(card: &Card, tok: usize) -> (r: Option<TargetBuf>)
    requires
        card.wf(),
        tok < card.spec_tokens().len(),
    ensures
        match r {
            Some(t) => token_target(*card, tok as int) == Some(target_view(t)),
            None => token_target(*card, tok as int) is None,
        },
{
    let text = card.token_text(tok);
    let signed = text.len() > 0 && (text[0] == 45u8 || text[0] == 43u8);
    let from: usize = if signed {
        1
    } else {
        0
    };
    proof {
        if !signed {
            assert(text@.subrange(0, text@.len() as int) =~= text@);
        }
    }
    match parse_i64_range(text, from, text.len()) {
        Some(n) => {
            let sign = vstd::slice::slice_to_vec(vstd::slice::slice_subrange(text, 0, from));
            proof {
                if !signed {
                    assert(sign@ =~= Seq::<u8>::empty());
                }
            }
            Some((tok, sign, n))
        },
        None => None,
    }
}

pub(crate) fn name_target_exec(card: &Card, tok: usize) -> (r: Option<TargetBuf>)
    requires
        card.wf(),
        tok < card.spec_tokens().len(),
    ensures
        match r {
            Some(t) => name_target(*card, tok as int) == Some(target_view(t)),
            None => name_target(*card, tok as int) is None,
        },
{
    let (alpha, num) = split_name_bytes(card.token_text(tok));
    match num {
        Some(n) => Some((tok, vstd::slice::slice_to_vec(alpha), n)),
        None => None,
    }
}

fn push_opt(v: &mut Vec<TargetBuf>, t: Option<TargetBuf>)
    ensures
        target_views(final(v)@) == target_views(old(v)@) + match t {
            Some(x) => seq![target_view(x)],
            None => Seq::<Target>::empty(),
        },
{
    match t {
        Some(x) => {
            v.push(x);
        },
        None => {},
    }
    proof {
        assert(target_views(v@) =~= target_views(old(v)@) + match t {
            Some(x) => seq![target_view(x)],
            None => Seq::<Target>::empty(),
        });
    }
}

/// The surface references and cell complements of geometry tokens `[a, b)`.
fn geom_scan_exec(card: &Card, a: usize, b: usize) -> (r: (Vec<TargetBuf>, Vec<TargetBuf>))
    requires
        card.wf(),
        a <= b <= card.spec_tokens().len(),
    ensures
        target_views(r.0@) == geom_scan(*card, a as int, b as int).0,
        target_views(r.1@) == geom_scan(*card, a as int, b as int).1,
{
    let toks = card.tokens();
    let mut surf: Vec<TargetBuf> = Vec::new();
    let mut cells: Vec<TargetBuf> = Vec::new();
    let mut after_hash = false;
    let mut j = a;
    while j < b
        invariant
            card.wf(),
            toks@ == card.spec_tokens(),
            a <= j <= b <= toks@.len(),
            target_views(surf@) == geom_scan(*card, a as int, j as int).0,
            target_views(cells@) == geom_scan(*card, a as int, j as int).1,
            after_hash == geom_scan(*card, a as int, j as int).2,
        decreases b - j,
    {
        let k = toks[j].kind;
        if k.is_trivia() {
        } else if k == SyntaxKind::Number {
            let t = token_target_exec(card, j);
            if !after_hash {
                push_opt(&mut surf, t);
            } else {
                push_opt(&mut cells, t);
            }
            after_hash = false;
        } else if k == SyntaxKind::Hash {
            after_hash = true;
        } else {
            after_hash = false;
        }
        j = j + 1;
    }
    (surf, cells)
}

fn cell_geom_exec(card: &Card) -> (r: (Vec<TargetBuf>, Vec<TargetBuf>))
    requires
        card.wf(),
    ensures
        target_views(r.0@) == cell_geom(*card).0,
        target_views(r.1@) == cell_geom(*card).1,
{
    let l = cell_layout(card);
    let n = card.tokens().len();
    let end = if l.geometry_end < n {
        l.geometry_end
    } else {
        n
    };
    if l.geometry_start <= end {
        geom_scan_exec(card, l.geometry_start, end)
    } else {
        proof {
            assert(geom_scan(*card, l.geometry_start as int, end as int).0 =~= Seq::<Target>::empty());
        }
        (Vec::new(), Vec::new())
    }
}

fn universe_targets_exec(card: &Card) -> (r: Vec<TargetBuf>)
    requires
        card.wf(),
        card.spec_kind() == CardKind::Cell,
    ensures
        target_views(r@) == spec_targets(*card, Renumbering::Universes),
{
    let l = cell_layout(card);
    let ps = params(card, l.params_start, l.params_end);
    let ghost sp = spec_params(*card, l.params_start as int, l.params_end as int);
    proof {
        crate::cell::lemma_params_in_range(*card, l.params_start as int, if (l.params_end as int)
            < card.spec_tokens().len() {
            l.params_end as int
        } else {
            card.spec_tokens().len() as int
        });
    }
    let u: [u8; 1] = [117u8];
    let fill: [u8; 4] = [102u8, 105u8, 108u8, 108u8];
    assert(u@ == word_u() && fill@ == word_fill());
    let mut out: Vec<TargetBuf> = Vec::new();
    let ntoks = card.tokens().len();
    let mut m: usize = 0;
    while m < ps.len()
        invariant
            card.wf(),
            ntoks == card.spec_tokens().len(),
            u@ == word_u(),
            fill@ == word_fill(),
            ps@.len() == sp.len(),
            forall|k: int| 0 <= k < ps@.len() ==> crate::cell::param_matches(#[trigger] ps@[k], *card, sp[k]),
            forall|k: int| 0 <= k < sp.len() ==> (#[trigger] sp[k]).key_token < card.spec_tokens().len(),
            m <= ps@.len(),
            target_views(out@) == universe_targets(*card, sp, m as int),
        decreases ps@.len() - m,
    {
        let p = &ps[m];
        assert(crate::cell::param_matches(ps@[m as int], *card, sp[m as int]));
        let ghost before = out@;
        let key = card.token_text(p.key_token);
        assert(key@ == spec_text_at(*card, sp[m as int].key_token));
        let is_u = eq_lower_bytes(key, &u);
        let is_fill = eq_lower_bytes(key, &fill);
        let colon = colon_in_exec(card, p.value_start, p.value_end);
        assert(is_u == eq_lower(spec_text_at(*card, sp[m as int].key_token), word_u()));
        assert(is_fill == eq_lower(spec_text_at(*card, sp[m as int].key_token), word_fill()));
        assert(colon == colon_in(card.spec_tokens(), sp[m as int].value_start, sp[m as int].value_end));
        if (is_u || is_fill) && !colon {
            proof {
                lemma_sig(card.spec_tokens(), p.value_start as int);
            }
            match sig(card, p.value_start) {
                Some(t) => {
                    if t < p.value_end {
                        proof {
                            lemma_sig(card.spec_tokens(), p.value_start as int);
                        }
                        let x = token_target_exec(card, t);
                        push_opt(&mut out, x);
                        assert(target_views(out@) == target_views(before) + opt_seq(token_target(*card, t as int)));
                    }
                },
                None => {},
            }
        }
        proof {
            let q = sp[m as int];
            let keyq = spec_text_at(*card, q.key_token);
            assert(universe_targets(*card, sp, m + 1) == if (eq_lower(keyq, word_u()) || eq_lower(keyq, word_fill())) && !colon_in(
                card.spec_tokens(),
                q.value_start,
                q.value_end,
            ) {
                match spec_sig(card.spec_tokens(), q.value_start) {
                    Some(t) => if t < q.value_end {
                        universe_targets(*card, sp, m as int) + opt_seq(token_target(*card, t))
                    } else {
                        universe_targets(*card, sp, m as int)
                    },
                    None => universe_targets(*card, sp, m as int),
                }
            } else {
                universe_targets(*card, sp, m as int)
            });
            assert(target_views(before) == universe_targets(*card, sp, m as int));
            if (eq_lower(keyq, word_u()) || eq_lower(keyq, word_fill())) && !colon_in(
                card.spec_tokens(),
                q.value_start,
                q.value_end,
            ) {
                match spec_sig(card.spec_tokens(), q.value_start) {
                    Some(t) => {
                        if t < q.value_end {
                            assert(target_views(out@) == universe_targets(*card, sp, m + 1));
                        } else {
                            assert(out@ == before);
                        }
                    },
                    None => {
                        assert(out@ == before);
                    },
                }
            } else {
                assert(out@ == before);
            }
        }
        m = m + 1;
    }
    out
}

/// Targets viewed piecewise.
proof fn lemma_target_views_concat(a: Seq<TargetBuf>, b: Seq<TargetBuf>)
    ensures
        target_views(a + b) == target_views(a) + target_views(b),
{
    assert(target_views(a + b) =~= target_views(a) + target_views(b));
}

fn is_tally_word(w: &[u8]) -> (r: bool)
    ensures
        r == tally_words().contains(w@),
{
    let words: [&[u8]; 19] = [
        &[102u8],
        &[102u8, 99u8],
        &[102u8, 109u8],
        &[102u8, 115u8],
        &[102u8, 113u8],
        &[102u8, 117u8],
        &[102u8, 116u8],
        &[102u8, 105u8, 99u8],
        &[102u8, 105u8, 112u8],
        &[102u8, 105u8, 114u8],
        &[101u8],
        &[116u8],
        &[99u8],
        &[115u8, 100u8],
        &[100u8, 101u8],
        &[100u8, 102u8],
        &[101u8, 109u8],
        &[116u8, 109u8],
        &[99u8, 109u8],
    ];
    assert(words@.len() == 19);
    assert forall|k: int| 0 <= k < 19 implies (#[trigger] words@[k])@ == tally_words()[k] by {
        assert(words@[k]@ =~= tally_words()[k]);
    }
    let mut k: usize = 0;
    while k < 19
        invariant
            words@.len() == 19,
            forall|x: int| 0 <= x < 19 ==> (#[trigger] words@[x])@ == tally_words()[x],
            k <= 19,
            forall|x: int| 0 <= x < k ==> tally_words()[x] != w@,
        decreases 19 - k,
    {
        if crate::bytes::same_bytes(words[k], w) {
            assert(tally_words()[k as int] == w@);
            return true;
        }
        k = k + 1;
    }
    assert forall|x: int| 0 <= x < tally_words().len() implies tally_words()[x] != w@ by {}
    false
}

/// What renumbering `r` rewrites in `card` (see [`spec_targets`]).
pub fn targets(card: &Card, r: Renumbering) -> (v: Vec<TargetBuf>)
    requires
        card.wf(),
    ensures
        target_views(v@) == spec_targets(*card, r),
{
    let mut v: Vec<TargetBuf> = Vec::new();
    let kind = card.kind();
    let ntoks = card.tokens().len();
    proof {
        crate::surface::lemma_mnemonic_in_range(*card);
        crate::cell::lemma_layout_in_range(*card);
        crate::data::lemma_head_in_range(*card);
    }
    match r {
        Renumbering::Surfaces => {
            if kind == CardKind::Surface {
                match surface_layout(card).id_tok {
                    Some(t) => {
                        push_opt(&mut v, token_target_exec(card, t));
                    },
                    None => {},
                }
            } else if kind == CardKind::Cell {
                let (s, _c) = cell_geom_exec(card);
                v = s;
            }
        },
        Renumbering::Cells => {
            if kind == CardKind::Cell {
                match sig(card, 0) {
                    Some(t) => {
                        proof {
                            lemma_sig(card.spec_tokens(), 0);
                        }
                        push_opt(&mut v, token_target_exec(card, t));
                    },
                    None => {},
                }
                let (_s, mut c) = cell_geom_exec(card);
                let ghost v0 = v@;
                let ghost c0 = c@;
                v.append(&mut c);
                proof {
                    lemma_target_views_concat(v0, c0);
                }
                match cell_layout(card).like_tok {
                    Some(t) => {
                        push_opt(&mut v, token_target_exec(card, t));
                    },
                    None => {},
                }
                proof {
                    assert(target_views(v@) =~= spec_targets(*card, r));
                }
            }
        },
        Renumbering::Materials => {
            let m1: [u8; 1] = [109u8];
            let mt: [u8; 2] = [109u8, 116u8];
            let mx: [u8; 2] = [109u8, 120u8];
            assert(m1@ == seq![109u8] && mt@ == seq![109u8, 116u8] && mx@ == seq![109u8, 120u8]);
            if kind == CardKind::Data {
                match head(card) {
                    Some(h) => {
                        let mn = h.mnemonic.as_slice();
                        if crate::bytes::same_bytes(mn, &m1) || crate::bytes::same_bytes(mn, &mt)
                            || crate::bytes::same_bytes(mn, &mx) {
                            push_opt(&mut v, name_target_exec(card, h.name_tok));
                        }
                    },
                    None => {},
                }
            } else if kind == CardKind::Cell {
                let l = cell_layout(card);
                match (l.material_tok, l.material) {
                    (Some(t), Some(m)) => {
                        if m != 0 {
                            push_opt(&mut v, token_target_exec(card, t));
                        }
                    },
                    _ => {},
                }
            }
        },
        Renumbering::Transforms => {
            let tr: [u8; 2] = [116u8, 114u8];
            assert(tr@ == seq![116u8, 114u8]);
            if kind == CardKind::Data {
                match head(card) {
                    Some(h) => {
                        if crate::bytes::same_bytes(h.mnemonic.as_slice(), &tr) {
                            push_opt(&mut v, name_target_exec(card, h.name_tok));
                        }
                    },
                    None => {},
                }
            } else if kind == CardKind::Surface {
                match surface_layout(card).transform_tok {
                    Some(t) => {
                        push_opt(&mut v, token_target_exec(card, t));
                    },
                    None => {},
                }
            }
        },
        Renumbering::Universes => {
            if kind == CardKind::Cell {
                v = universe_targets_exec(card);
            }
        },
        Renumbering::Tallies => {
            if kind == CardKind::Data {
                match head(card) {
                    Some(h) => {
                        if is_tally_word(h.mnemonic.as_slice()) {
                            push_opt(&mut v, name_target_exec(card, h.name_tok));
                        }
                    },
                    None => {},
                }
            }
        },
    }
    v
}

/// The text a target is rewritten to when its id maps to `y`.
pub open spec fn new_text(t: Target, y: i64) -> Seq<u8> {
    t.1 + int_text(y as int)
}

/// The edits for targets `ts` mapped to `ys`: a target whose id maps to
/// itself keeps its text exactly as written.
pub open spec fn changed_edits(c: Card, ts: Seq<Target>, ys: Seq<i64>) -> Seq<(usize, Seq<u8>)>
    decreases ts.len(),
{
    if ts.len() == 0 || ys.len() != ts.len() {
        Seq::empty()
    } else {
        let r = changed_edits(c, ts.drop_last(), ys.drop_last());
        let t = ts.last();
        let nt = new_text(t, ys.last());
        if ys.last() != t.2 {
            r.push((t.0, nt))
        } else {
            r
        }
    }
}

/// `ys` are what `map` gave for the ids of `ts`, in order.
pub open spec fn mapped_by<F: Fn(i64) -> i64>(map: F, ts: Seq<Target>, ys: Seq<i64>) -> bool {
    &&& ys.len() == ts.len()
    &&& forall|k: int| 0 <= k < ts.len() ==> call_ensures(map, (ts[k].2,), #[trigger] ys[k])
}

/// The rewritten card fits the lexer's limits.
pub open spec fn fits(c: Card, es: Seq<(usize, Seq<u8>)>) -> bool {
    &&& forall|k: int| 0 <= k < es.len() ==> (#[trigger] es[k]).1.len() <= u32::MAX
    &&& lexable(c.spec_text().len() + delta_prefix(c.spec_tokens(), es, es.len() as int))
}

/// The text of card `c` after renumbering `r` maps its ids to `ys`.
pub open spec fn renumbered_text(c: Card, r: Renumbering, ys: Seq<i64>) -> Seq<u8> {
    rewritten_text(c.spec_text(), c.spec_tokens(), changed_edits(c, spec_targets(c, r), ys), 0, 0)
}

/// The most the targets `ts` can add to a card: each keeps its prefix and
/// takes at most twenty bytes of digits and sign.
pub open spec fn targets_room(ts: Seq<Target>) -> int
    decreases ts.len(),
{
    if ts.len() == 0 {
        0
    } else {
        targets_room(ts.drop_last()) + ts.last().1.len() + 20
    }
}

/// Every card of `m` still fits the lexer's limits however renumbering `r`
/// rewrites it.
pub open spec fn renumber_room(m: Model, r: Renumbering) -> bool {
    forall|j: int|
        0 <= j < m.spec_cards().len() ==> lexable(
            (#[trigger] m.spec_cards()[j]).spec_text().len() + targets_room(spec_targets(m.spec_cards()[j], r)),
        )
}

proof fn lemma_room_bounds(c: Card, ts: Seq<Target>, ys: Seq<i64>)
    ensures
        ({
            let es = changed_edits(c, ts, ys);
            &&& 0 <= targets_room(ts)
            &&& delta_prefix(c.spec_tokens(), es, es.len() as int) <= targets_room(ts)
            &&& forall|k: int| 0 <= k < es.len() ==> (#[trigger] es[k]).1.len() <= targets_room(ts)
        }),
    decreases ts.len(),
{
    if ts.len() > 0 {
        let pt = ts.drop_last();
        if ys.len() == ts.len() {
            let py = ys.drop_last();
            lemma_room_bounds(c, pt, py);
            let prev = changed_edits(c, pt, py);
            let t = ts.last();
            let y = ys.last();
            lemma_int_text_len(y);
            assert(targets_room(ts) == targets_room(pt) + t.1.len() + 20);
            if y != t.2 {
                let e = (t.0, new_text(t, y));
                let es = prev.push(e);
                assert(changed_edits(c, ts, ys) == es);
                assert(es.drop_last() =~= prev);
                crate::card::lemma_delta_prefix_drop_last(c.spec_tokens(), es, prev.len() as int);
                assert(delta_prefix(c.spec_tokens(), es, es.len() as int) == delta_prefix(
                    c.spec_tokens(),
                    es,
                    prev.len() as int,
                ) + e.1.len() - c.spec_tokens()[e.0 as int].len);
                assert forall|k: int| 0 <= k < es.len() implies (#[trigger] es[k]).1.len()
                    <= targets_room(ts) by {
                    if k < prev.len() {
                        assert(es[k] == prev[k]);
                    }
                }
            }
        } else {
            lemma_room_bounds(c, pt, ys);
        }
    }
}

/// A card with room for renumbering `r` fits once its ids are mapped.
proof fn lemma_room_fits(c: Card, r: Renumbering, ys: Seq<i64>)
    requires
        lexable(c.spec_text().len() + targets_room(spec_targets(c, r))),
    ensures
        fits(c, changed_edits(c, spec_targets(c, r), ys)),
{
    let ts = spec_targets(c, r);
    let es = changed_edits(c, ts, ys);
    lemma_room_bounds(c, ts, ys);
    assert forall|k: int| 0 <= k < es.len() implies (#[trigger] es[k]).1.len() <= u32::MAX by {}
}

proof fn lemma_changed_sorted(c: Card, ts: Seq<Target>, ys: Seq<i64>, n: int)
    requires
        targets_increasing(ts, n),
    ensures
        edits_sorted(changed_edits(c, ts, ys), n),
        forall|k: int|
            0 <= k < changed_edits(c, ts, ys).len() ==> exists|j: int|
                0 <= j < ts.len() && (#[trigger] changed_edits(c, ts, ys)[k]).0 == ts[j].0,
    decreases ts.len(),
{
    if ts.len() > 0 && ys.len() == ts.len() {
        let tp = ts.drop_last();
        lemma_changed_sorted(c, tp, ys.drop_last(), n);
        let r = changed_edits(c, tp, ys.drop_last());
        let e = changed_edits(c, ts, ys);
        assert forall|k: int| 0 <= k < r.len() implies (#[trigger] r[k]).0 < ts.last().0 by {
            let j = choose|j: int| 0 <= j < tp.len() && r[k].0 == tp[j].0;
            assert(tp[j] == ts[j]);
        }
        assert forall|k: int|
            0 <= k < e.len() implies exists|j: int| 0 <= j < ts.len() && (#[trigger] e[k]).0 == ts[j].0 by {
            if k < r.len() {
                let j = choose|j: int| 0 <= j < tp.len() && r[k].0 == tp[j].0;
                assert(e[k] == r[k]);
                assert(tp[j] == ts[j]);
            } else {
                assert(e[k].0 == ts[ts.len() - 1].0);
            }
        }
        assert forall|k: int| 0 <= k < e.len() implies (#[trigger] e[k]).0 < n by {
            if k < r.len() {
                assert(e[k] == r[k]);
            } else {
                assert(e[k].0 == ts[ts.len() - 1].0);
            }
        }
        assert forall|k1: int, k2: int| 0 <= k1 < k2 < e.len() implies (#[trigger] e[k1]).0 < (
        #[trigger] e[k2]).0 by {
            assert(e[k1] == r[k1]);
            if k2 < r.len() {
                assert(e[k2] == r[k2]);
            } else {
                assert(e[k2].0 == ts.last().0);
            }
        }
    }
}

/// Compute one card's edits under `map`, with the values `map` gave.
fn card_edits<F: Fn(i64) -> i64>(card: &Card, ts: &Vec<TargetBuf>, map: &F) -> (r: (
    Vec<(usize, Vec<u8>)>,
    Ghost<Seq<i64>>,
))
    requires
        card.wf(),
        forall|k: int| 0 <= k < ts@.len() ==> call_requires(*map, ((#[trigger] ts@[k]).2,)),
        forall|k: int| 0 <= k < ts@.len() ==> (#[trigger] ts@[k]).0 < card.spec_tokens().len(),
    ensures
        mapped_by(*map, target_views(ts@), r.1@),
        crate::card::vec_edits(r.0@) == changed_edits(*card, target_views(ts@), r.1@),
{
    let ghost tv = target_views(ts@);
    let mut out: Vec<(usize, Vec<u8>)> = Vec::new();
    let ghost mut ys: Seq<i64> = Seq::empty();
    let mut k: usize = 0;
    while k < ts.len()
        invariant
            card.wf(),
            forall|j: int| 0 <= j < ts@.len() ==> call_requires(*map, ((#[trigger] ts@[j]).2,)),
            forall|j: int| 0 <= j < ts@.len() ==> (#[trigger] ts@[j]).0 < card.spec_tokens().len(),
            tv == target_views(ts@),
            k <= ts@.len(),
            mapped_by(*map, tv.subrange(0, k as int), ys),
            crate::card::vec_edits(out@) == changed_edits(*card, tv.subrange(0, k as int), ys),
        decreases ts@.len() - k,
    {
        let t = &ts[k];
        let y = map(t.2);
        let mut nt = vstd::slice::slice_to_vec(t.1.as_slice());
        let mut digits = fmt_int(y);
        nt.append(&mut digits);
        let ghost before = out@;
        let ghost ys2 = ys.push(y);
        proof {
            let pre = tv.subrange(0, k + 1);
            assert(pre.drop_last() =~= tv.subrange(0, k as int));
            assert(ys2.drop_last() =~= ys);
            assert(pre.last() == tv[k as int]);
            assert(nt@ == new_text(tv[k as int], y));
        }
        if y != t.2 {
            out.push((t.0, nt));
            proof {
                assert(crate::card::vec_edits(out@) =~= crate::card::vec_edits(before).push(
                    (tv[k as int].0, new_text(tv[k as int], y)),
                ));
            }
        }
        proof {
            ys = ys2;
            assert forall|j: int| 0 <= j < k + 1 implies call_ensures(
                *map,
                (tv.subrange(0, k + 1)[j].2,),
                #[trigger] ys[j],
            ) by {
                if j < k {
                    assert(tv.subrange(0, k + 1)[j] == tv.subrange(0, k as int)[j]);
                }
            }
        }
        k = k + 1;
    }
    proof {
        assert(tv.subrange(0, ts@.len() as int) =~= tv);
    }
    (out, Ghost(ys))
}

/// Whether card `card` has room for renumbering `r` (see [`renumber_room`]).
fn card_has_room(card: &Card, r: Renumbering) -> (b: bool)
    requires
        card.wf(),
    ensures
        b == lexable(card.spec_text().len() + targets_room(spec_targets(*card, r))),
{
    let ts = targets(card, r);
    let ghost tv = target_views(ts@);
    let mut total: usize = card.text().len();
    if total > 0xFFFF_FFFFusize {
        proof {
            lemma_room_nonneg(tv);
        }
        return false;
    }
    let mut k: usize = 0;
    while k < ts.len()
        invariant
            tv == target_views(ts@),
            tv == spec_targets(*card, r),
            k <= ts@.len(),
            total <= 0xFFFF_FFFFusize,
            total == card.spec_text().len() + targets_room(tv.subrange(0, k as int)),
        decreases ts@.len() - k,
    {
        proof {
            assert(tv.subrange(0, k + 1).drop_last() =~= tv.subrange(0, k as int));
            assert(tv[k as int].1 == ts@[k as int].1@);
        }
        let add = ts[k].1.len();
        if total > 0xFFFF_FFFFusize - 20 || add > 0xFFFF_FFFFusize - 20 - total {
            proof {
                lemma_room_prefix(tv, k + 1);
            }
            return false;
        }
        total = total + add + 20;
        k = k + 1;
    }
    proof {
        assert(tv.subrange(0, k as int) =~= tv);
    }
    true
}

/// The room of a prefix of the targets is no more than the room of all.
proof fn lemma_room_prefix(ts: Seq<Target>, k: int)
    requires
        0 <= k <= ts.len(),
    ensures
        0 <= targets_room(ts.subrange(0, k)) <= targets_room(ts),
    decreases ts.len() - k,
{
    if k < ts.len() {
        lemma_room_prefix(ts, k + 1);
        assert(ts.subrange(0, k + 1).drop_last() =~= ts.subrange(0, k));
    } else {
        assert(ts.subrange(0, k) =~= ts);
    }
    lemma_room_nonneg(ts.subrange(0, k));
}

proof fn lemma_room_nonneg(ts: Seq<Target>)
    ensures
        targets_room(ts) >= 0,
    decreases ts.len(),
{
    if ts.len() > 0 {
        lemma_room_nonneg(ts.drop_last());
    }
}

proof fn lemma_universe_increasing(c: Card, ps: Seq<ParamSpec>, m: int)
    requires
        0 <= m <= ps.len(),
        c.spec_tokens().len() <= usize::MAX,
        forall|k: int|
            0 <= k < ps.len() ==> ((#[trigger] ps[k]).key_token < ps[k].value_start
                || ps[k].value_end == ps[k].value_start),
        forall|a: int, b: int|
            0 <= a < b < ps.len() ==> (#[trigger] ps[a]).key_token < (#[trigger] ps[b]).key_token
                && ps[a].value_end <= ps[b].key_token,
    ensures
        targets_increasing(universe_targets(c, ps, m), c.spec_tokens().len() as int),
        m < ps.len() ==> forall|k: int|
            0 <= k < universe_targets(c, ps, m).len() ==> (#[trigger] universe_targets(
                c,
                ps,
                m,
            )[k]).0 < ps[m].key_token,
    decreases m,
{
    if m > 0 {
        lemma_universe_increasing(c, ps, m - 1);
        let r = universe_targets(c, ps, m - 1);
        let u = universe_targets(c, ps, m);
        let p = ps[m - 1];
        lemma_sig(c.spec_tokens(), if p.value_start >= 0 {
            p.value_start
        } else {
            0
        });
        if u.len() > r.len() {
            let t = u[u.len() - 1];
            assert(p.key_token < t.0 < p.value_end);
            assert forall|k: int| 0 <= k < r.len() implies (#[trigger] r[k]).0 < t.0 by {}
        }
        assert forall|k: int| 0 <= k < u.len() implies (#[trigger] u[k]).0 < c.spec_tokens().len() by {
            if k < r.len() {
                assert(u[k] == r[k]);
            }
        }
        assert forall|a: int, b: int| 0 <= a < b < u.len() implies (#[trigger] u[a]).0 < (
        #[trigger] u[b]).0 by {
            assert(u[a] == r[a]);
            if b < r.len() {
                assert(u[b] == r[b]);
            }
        }
        if m < ps.len() {
            assert(p.value_end <= ps[m].key_token);
            assert forall|k: int| 0 <= k < u.len() implies (#[trigger] u[k]).0 < ps[m].key_token by {
                if k < r.len() {
                    assert(u[k] == r[k]);
                    assert(ps[m - 1].key_token < ps[m].key_token);
                }
            }
        }
    }
}

/// The targets of every renumbering lie on distinct tokens, in order.
pub proof fn lemma_targets_increasing(c: Card, r: Renumbering)
    requires
        c.wf(),
        c.spec_tokens().len() <= usize::MAX,
    ensures
        targets_increasing(spec_targets(c, r), c.spec_tokens().len() as int),
{
    let ts = c.spec_tokens();
    let n = ts.len() as int;
    crate::surface::lemma_mnemonic_in_range(c);
    crate::cell::lemma_layout_in_range(c);
    crate::cell::lemma_layout_order(c);
    crate::data::lemma_head_in_range(c);
    lemma_sig(ts, 0);
    let l = spec_cell_layout(c);
    lemma_geom_scan(c, l.geometry_start as int, geom_end(c));
    match r {
        Renumbering::Cells => {
            if c.spec_kind() == CardKind::Cell {
                let id = match spec_sig(ts, 0) {
                    Some(t) => opt_seq(token_target(c, t)),
                    None => Seq::empty(),
                };
                let g = cell_geom(c).1;
                let like = match l.like_tok {
                    Some(t) => opt_seq(token_target(c, t as int)),
                    None => Seq::empty(),
                };
                let all = id + g + like;
                assert(all == spec_targets(c, r));
                if l.like_tok is Some {
                    assert(g.len() == 0);
                }
                assert forall|k: int| 0 <= k < all.len() implies (#[trigger] all[k]).0 < n by {
                    if k < id.len() {
                    } else if k < id.len() + g.len() {
                        assert(all[k] == g[k - id.len()]);
                    } else {
                        assert(all[k] == like[k - id.len() - g.len()]);
                    }
                }
                assert forall|a: int, b: int| 0 <= a < b < all.len() implies (#[trigger] all[a]).0 < (
                #[trigger] all[b]).0 by {
                    if b < id.len() {
                    } else if b < id.len() + g.len() {
                        assert(all[b] == g[b - id.len()]);
                        if a >= id.len() {
                            assert(all[a] == g[a - id.len()]);
                        }
                    } else {
                        assert(all[b] == like[b - id.len() - g.len()]);
                        if a >= id.len() {
                            assert(all[a] == g[a - id.len()]);
                        }
                    }
                }
            }
        },
        Renumbering::Universes => {
            if c.spec_kind() == CardKind::Cell {
                let end = if (l.params_end as int) < n {
                    l.params_end as int
                } else {
                    n
                };
                let ps = spec_params(c, l.params_start as int, l.params_end as int);
                crate::cell::lemma_params_order(c, l.params_start as int, end);
                lemma_universe_increasing(c, ps, ps.len() as int);
            }
        },
        _ => {},
    }
}

/// Every id renumbering `r` finds in `m` stays an `i64` when shifted.
pub open spec fn shift_fits(m: Model, r: Renumbering, delta: i64) -> bool {
    forall|j: int, k: int|
        0 <= j < m.spec_cards().len() && 0 <= k < spec_targets(m.spec_cards()[j], r).len()
            ==> i64::MIN <= #[trigger] spec_targets(m.spec_cards()[j], r)[k].2 + delta <= i64::MAX
}

/// `after` is `before` with every id of renumbering `r` shifted by `delta`.
pub open spec fn shifted(before: Model, after: Model, r: Renumbering, delta: i64) -> bool {
    &&& after.spec_cst().spec_order() == before.spec_cst().spec_order()
    &&& after.spec_cst().spec_eol() == before.spec_cst().spec_eol()
    &&& after.spec_cards().len() == before.spec_cards().len()
    &&& forall|j: int|
        0 <= j < before.spec_cards().len() ==> {
            let c = before.spec_cards()[j];
            let d = #[trigger] after.spec_cards()[j];
            let ts = spec_targets(c, r);
            &&& d.spec_kind() == c.spec_kind()
            &&& d.spec_slot() == c.spec_slot()
            &&& d.spec_text() == renumbered_text(
                c,
                r,
                Seq::new(ts.len(), |k: int| (ts[k].2 + delta) as i64),
            )
        }
}

proof fn lemma_shifted<F: Fn(i64) -> i64>(before: Model, after: Model, r: Renumbering, delta: i64, f: F)
    requires
        renumbered(before, after, r, f),
        shift_fits(before, r, delta),
        forall|i: i64, o: i64| call_ensures(f, (i,), o) ==> o == i + delta,
    ensures
        shifted(before, after, r, delta),
{
    assert forall|j: int| 0 <= j < before.spec_cards().len() implies {
        let c = before.spec_cards()[j];
        let d = #[trigger] after.spec_cards()[j];
        let ts = spec_targets(c, r);
        &&& d.spec_kind() == c.spec_kind()
        &&& d.spec_slot() == c.spec_slot()
        &&& d.spec_text() == renumbered_text(
            c,
            r,
            Seq::new(ts.len(), |k: int| (ts[k].2 + delta) as i64),
        )
    } by {
        let c = before.spec_cards()[j];
        let d = after.spec_cards()[j];
        let ts = spec_targets(c, r);
        let ys = choose|ys: Seq<i64>| mapped_by(f, ts, ys) && d.spec_text() == renumbered_text(c, r, ys);
        let want = Seq::new(ts.len(), |k: int| (ts[k].2 + delta) as i64);
        assert forall|k: int| 0 <= k < ts.len() implies #[trigger] ys[k] == want[k] by {
            assert(call_ensures(f, (ts[k].2,), ys[k]));
            assert(i64::MIN <= spec_targets(before.spec_cards()[j], r)[k].2 + delta <= i64::MAX);
        }
        assert(ys =~= want);
    }
}

/// `map` accepts every id renumbering `r` would hand it in model `m`.
pub open spec fn map_accepts<F: Fn(i64) -> i64>(m: Model, r: Renumbering, map: F) -> bool {
    forall|j: int, k: int|
        0 <= j < m.spec_cards().len() && 0 <= k < spec_targets(m.spec_cards()[j], r).len()
            ==> call_requires(map, (#[trigger] spec_targets(m.spec_cards()[j], r)[k].2,))
}

/// Model `after` is model `before` renumbered by `r` under `map`: the same
/// cards in the same order, each rewritten with the ids `map` gave.
pub open spec fn renumbered<F: Fn(i64) -> i64>(
    before: Model,
    after: Model,
    r: Renumbering,
    map: F,
) -> bool {
    &&& after.spec_cst().spec_order() == before.spec_cst().spec_order()
    &&& after.spec_cst().spec_eol() == before.spec_cst().spec_eol()
    &&& after.spec_cards().len() == before.spec_cards().len()
    &&& forall|j: int|
        0 <= j < before.spec_cards().len() ==> {
            let c = before.spec_cards()[j];
            let d = #[trigger] after.spec_cards()[j];
            &&& d.spec_kind() == c.spec_kind()
            &&& d.spec_slot() == c.spec_slot()
            &&& exists|ys: Seq<i64>|
                mapped_by(map, spec_targets(c, r), ys) && d.spec_text() == renumbered_text(c, r, ys)
        }
}

impl Model {
    /// Renumber surfaces: every surface definition (keeping a `+` white
    /// prefix) and every surface reference in cell geometry (keeping its
    /// sense, including inside a `#( ... )` region complement).
    pub fn renumber_surfaces<F: Fn(i64) -> i64>(&mut self, map: F)
        requires
            old(self).wf(),
            renumber_room(*old(self), Renumbering::Surfaces),
            map_accepts(*old(self), Renumbering::Surfaces, map),
        ensures
            final(self).wf(),
            renumbered(*old(self), *final(self), Renumbering::Surfaces, map),
    {
        self.renumber_pass(Renumbering::Surfaces, &map);
    }

    /// Shift every surface id by `delta`, definitions and references together.
    pub fn offset_surfaces(&mut self, delta: i64)
        requires
            old(self).wf(),
            renumber_room(*old(self), Renumbering::Surfaces),
            shift_fits(*old(self), Renumbering::Surfaces, delta),
        ensures
            final(self).wf(),
            shifted(*old(self), *final(self), Renumbering::Surfaces, delta),
    {
        let f = |i: i64| -> (o: i64)
            requires
                i64::MIN <= i + delta <= i64::MAX,
            ensures
                o == i + delta,
            { i + delta };
        self.renumber_pass(Renumbering::Surfaces, &f);
        proof {
            lemma_shifted(*old(self), *self, Renumbering::Surfaces, delta, f);
        }
    }

    /// Whether every card has room to be renumbered by `r`: the condition
    /// every renumbering asks for.
    pub fn has_room(&self, r: Renumbering) -> (b: bool)
        requires
            self.wf(),
        ensures
            b == renumber_room(*self, r),
    {
        let n = self.cst().len();
        let mut i: usize = 0;
        while i < n
            invariant
                self.wf(),
                n == self.spec_cards().len(),
                i <= n,
                forall|j: int|
                    0 <= j < i ==> lexable(
                        (#[trigger] self.spec_cards()[j]).spec_text().len() + targets_room(
                            spec_targets(self.spec_cards()[j], r),
                        ),
                    ),
            decreases n - i,
        {
            proof {
                self.spec_cst().lemma_wf();
            }
            let card = self.cst().at(i).unwrap();
            assert(*card == self.spec_cards()[i as int]);
            if !card_has_room(card, r) {
                return false;
            }
            i = i + 1;
        }
        true
    }

    /// Whether every id renumbering `r` would shift by `delta` stays within
    /// `i64`: the condition `offset_surfaces` / `offset_cells` ask for.
    pub fn can_offset(&self, r: Renumbering, delta: i64) -> (b: bool)
        requires
            self.wf(),
        ensures
            b == shift_fits(*self, r, delta),
    {
        let n = self.cst().len();
        let mut i: usize = 0;
        while i < n
            invariant
                self.wf(),
                n == self.spec_cards().len(),
                i <= n,
                forall|j: int, k: int|
                    0 <= j < i && 0 <= k < spec_targets(self.spec_cards()[j], r).len()
                        ==> i64::MIN <= #[trigger] spec_targets(self.spec_cards()[j], r)[k].2 + delta
                        <= i64::MAX,
            decreases n - i,
        {
            proof {
                self.spec_cst().lemma_wf();
            }
            let card = self.cst().at(i).unwrap();
            assert(*card == self.spec_cards()[i as int]);
            let ts = targets(card, r);
            let ghost tv = spec_targets(self.spec_cards()[i as int], r);
            let mut k: usize = 0;
            while k < ts.len()
                invariant
                    tv == target_views(ts@),
                    i < n,
                    n == self.spec_cards().len(),
                    tv == spec_targets(self.spec_cards()[i as int], r),
                    k <= ts@.len(),
                    forall|x: int| 0 <= x < k ==> i64::MIN <= #[trigger] tv[x].2 + delta <= i64::MAX,
                decreases ts@.len() - k,
            {
                assert(tv[k as int].2 == ts@[k as int].2);
                if ts[k].2.checked_add(delta).is_none() {
                    proof {
                        let cj = self.spec_cards()[i as int];
                        assert(!(i64::MIN <= spec_targets(cj, r)[k as int].2 + delta <= i64::MAX));
                    }
                    return false;
                }
                k = k + 1;
            }
            proof {
                assert forall|j: int, x: int|
                    0 <= j < i + 1 && 0 <= x < spec_targets(self.spec_cards()[j], r).len()
                        implies i64::MIN <= #[trigger] spec_targets(self.spec_cards()[j], r)[x].2
                        + delta <= i64::MAX by {
                    if j == i {
                        assert(tv[x] == spec_targets(self.spec_cards()[j], r)[x]);
                    }
                }
            }
            i = i + 1;
        }
        true
    }

    /// Renumber cells: every cell definition, every `#n` cell complement,
    /// and every `LIKE n` base reference.
    pub fn renumber_cells<F: Fn(i64) -> i64>(&mut self, map: F)
        requires
            old(self).wf(),
            renumber_room(*old(self), Renumbering::Cells),
            map_accepts(*old(self), Renumbering::Cells, map),
        ensures
            final(self).wf(),
            renumbered(*old(self), *final(self), Renumbering::Cells, map),
    {
        self.renumber_pass(Renumbering::Cells, &map);
    }

    /// Shift every cell id by `delta`, definitions and references together.
    pub fn offset_cells(&mut self, delta: i64)
        requires
            old(self).wf(),
            renumber_room(*old(self), Renumbering::Cells),
            shift_fits(*old(self), Renumbering::Cells, delta),
        ensures
            final(self).wf(),
            shifted(*old(self), *final(self), Renumbering::Cells, delta),
    {
        let f = |i: i64| -> (o: i64)
            requires
                i64::MIN <= i + delta <= i64::MAX,
            ensures
                o == i + delta,
            { i + delta };
        self.renumber_pass(Renumbering::Cells, &f);
        proof {
            lemma_shifted(*old(self), *self, Renumbering::Cells, delta, f);
        }
    }

    /// Renumber materials: `Mn` definitions, the `MTn` / `MXn` cards that
    /// reference a material, and every cell's material field (void `0` is
    /// left alone).
    pub fn renumber_materials<F: Fn(i64) -> i64>(&mut self, map: F)
        requires
            old(self).wf(),
            renumber_room(*old(self), Renumbering::Materials),
            map_accepts(*old(self), Renumbering::Materials, map),
        ensures
            final(self).wf(),
            renumbered(*old(self), *final(self), Renumbering::Materials, map),
    {
        self.renumber_pass(Renumbering::Materials, &map);
    }

    /// Renumber transforms: `TRn` / `*TRn` definitions and every surface
    /// transform field (keeping a `-` periodic sign).
    pub fn renumber_transforms<F: Fn(i64) -> i64>(&mut self, map: F)
        requires
            old(self).wf(),
            renumber_room(*old(self), Renumbering::Transforms),
            map_accepts(*old(self), Renumbering::Transforms, map),
        ensures
            final(self).wf(),
            renumbered(*old(self), *final(self), Renumbering::Transforms, map),
    {
        self.renumber_pass(Renumbering::Transforms, &map);
    }

    /// Renumber universes: every cell `u=` and every single-universe `fill=`.
    /// Lattice `fill=` arrays (a `:` in the value) are left untouched.
    pub fn renumber_universes<F: Fn(i64) -> i64>(&mut self, map: F)
        requires
            old(self).wf(),
            renumber_room(*old(self), Renumbering::Universes),
            map_accepts(*old(self), Renumbering::Universes, map),
        ensures
            final(self).wf(),
            renumbered(*old(self), *final(self), Renumbering::Universes, map),
    {
        self.renumber_pass(Renumbering::Universes, &map);
    }

    /// Renumber tallies: the trailing id of every tally-family card (`Fn`,
    /// `FCn`, `FMn`, `En`, `Tn`, `Cn`, `SDn`, ...). The cell and surface bins
    /// inside those cards are not touched.
    pub fn renumber_tallies<F: Fn(i64) -> i64>(&mut self, map: F)
        requires
            old(self).wf(),
            renumber_room(*old(self), Renumbering::Tallies),
            map_accepts(*old(self), Renumbering::Tallies, map),
        ensures
            final(self).wf(),
            renumbered(*old(self), *final(self), Renumbering::Tallies, map),
    {
        self.renumber_pass(Renumbering::Tallies, &map);
    }

    fn renumber_pass<F: Fn(i64) -> i64>(&mut self, r: Renumbering, map: &F)
        requires
            old(self).wf(),
            renumber_room(*old(self), r),
            map_accepts(*old(self), r, *map),
        ensures
            final(self).wf(),
            renumbered(*old(self), *final(self), r, *map),
    {
        let ghost m0 = *self;
        let n = self.cst().len();
        assert(n == m0.spec_cards().len());
        let mut i: usize = 0;
        while i < n
            invariant
                m0.wf(),
                self.wf(),
                renumber_room(m0, r),
                map_accepts(m0, r, *map),
                n == m0.spec_cards().len(),
                i <= n,
                self.spec_cst().spec_order() == m0.spec_cst().spec_order(),
                self.spec_cst().spec_eol() == m0.spec_cst().spec_eol(),
                forall|j: int| i <= j < n ==> #[trigger] self.spec_cards()[j] == m0.spec_cards()[j],
                forall|j: int|
                    0 <= j < i ==> {
                        let c = m0.spec_cards()[j];
                        let d = #[trigger] self.spec_cards()[j];
                        &&& d.spec_kind() == c.spec_kind()
                        &&& d.spec_slot() == c.spec_slot()
                        &&& exists|ys: Seq<i64>|
                            mapped_by(*map, spec_targets(c, r), ys) && d.spec_text() == renumbered_text(
                                c,
                                r,
                                ys,
                            )
                    },
            decreases n - i,
        {
            proof {
                self.spec_cst().lemma_wf();
            }
            let card = self.cst().at(i).unwrap();
            assert(*card == self.spec_cards()[i as int]);
            assert(*card == m0.spec_cards()[i as int]);
            let ntoks = card.tokens().len();
            let ts = targets(card, r);
            proof {
                lemma_targets_increasing(*card, r);
                assert forall|k: int| 0 <= k < target_views(ts@).len() implies call_requires(
                    *map,
                    (#[trigger] target_views(ts@)[k].2,),
                ) by {
                    assert(spec_targets(m0.spec_cards()[i as int], r)[k] == target_views(ts@)[k]);
                }
                assert forall|k: int| 0 <= k < ts@.len() implies (#[trigger] ts@[k]).0
                    < card.spec_tokens().len() && call_requires(*map, (ts@[k].2,)) by {
                    assert(target_views(ts@)[k].0 == ts@[k].0);
                    assert(target_views(ts@)[k].2 == ts@[k].2);
                    assert(spec_targets(m0.spec_cards()[i as int], r)[k] == target_views(ts@)[k]);
                }
            }
            let (es, Ghost(ys)) = card_edits(card, &ts, map);
            proof {
                lemma_changed_sorted(*card, target_views(ts@), ys, ntoks as int);
            }
            let ghost c0 = *card;
            let ghost s0 = *self;
            proof {
                assert(lexable(c0.spec_text().len() + targets_room(spec_targets(m0.spec_cards()[i as int], r))));
                lemma_room_fits(c0, r, ys);
                assert(target_views(ts@) == spec_targets(c0, r));
            }
            {
                let mut bs: Vec<(usize, &[u8])> = Vec::new();
                let mut k: usize = 0;
                while k < es.len()
                    invariant
                        k <= es@.len(),
                        bs@.len() == k,
                        forall|x: int| 0 <= x < k ==> (#[trigger] bs@[x]).0 == es@[x].0 && bs@[x].1@ == es@[x].1@,
                    decreases es@.len() - k,
                {
                    bs.push((es[k].0, es[k].1.as_slice()));
                    k = k + 1;
                }
                proof {
                    assert(crate::card::byte_edits(bs@) =~= crate::card::vec_edits(es@));
                }
                self.cst_mut().rewrite_card_at(i, bs.as_slice());
                proof {
                    assert(self.spec_cards()[i as int] == self.spec_cst().spec_at(i as int));
                    assert(s0.spec_cards()[i as int] == s0.spec_cst().spec_at(i as int));
                    assert forall|j: int| 0 <= j < n && j != i implies #[trigger] self.spec_cards()[j]
                        == s0.spec_cards()[j] by {
                        assert(self.spec_cards()[j] == self.spec_cst().spec_at(j));
                        assert(s0.spec_cards()[j] == s0.spec_cst().spec_at(j));
                    }
                }
            }
            proof {
                let c = m0.spec_cards()[i as int];
                assert(c == c0);
                assert(self.spec_cards()[i as int].spec_text() == renumbered_text(c, r, ys));
                assert forall|j: int|
                    0 <= j < i + 1 implies {
                        let c = m0.spec_cards()[j];
                        let d = #[trigger] self.spec_cards()[j];
                        &&& d.spec_kind() == c.spec_kind()
                        &&& d.spec_slot() == c.spec_slot()
                        &&& exists|ys: Seq<i64>|
                            mapped_by(*map, spec_targets(c, r), ys) && d.spec_text() == renumbered_text(
                                c,
                                r,
                                ys,
                            )
                    } by {
                    if j == i {
                        assert(mapped_by(*map, spec_targets(c, r), ys));
                    }
                }
            }
            i = i + 1;
        }
        let ghost done = *self;
        assert(renumbered(m0, done, r, *map));
        self.reindex();
        assert(self.spec_cards() == done.spec_cards());
    }
}

proof fn lemma_no_changes(c: Card, ts: Seq<Target>, ys: Seq<i64>)
    requires
        ys.len() == ts.len(),
        forall|k: int| 0 <= k < ts.len() ==> #[trigger] ys[k] == ts[k].2,
    ensures
        changed_edits(c, ts, ys) == Seq::<(usize, Seq<u8>)>::empty(),
    decreases ts.len(),
{
    if ts.len() > 0 {
        let tp = ts.drop_last();
        let yp = ys.drop_last();
        assert forall|k: int| 0 <= k < tp.len() implies #[trigger] yp[k] == tp[k].2 by {
            assert(yp[k] == ys[k] && tp[k] == ts[k]);
        }
        lemma_no_changes(c, tp, yp);
        assert(ys.last() == ts.last().2);
    }
}

/// Renumbering with the identity map leaves the source byte-for-byte as it
/// was, however its ids are written (`007` and `+5` stay as they are).
pub proof fn law_identity_renumber_is_lossless<F: Fn(i64) -> i64>(
    before: Model,
    after: Model,
    r: Renumbering,
    map: F,
)
    requires
        before.wf(),
        renumbered(before, after, r, map),
        forall|x: i64, y: i64| call_ensures(map, (x,), y) ==> y == x,
    ensures
        after.spec_cst().spec_source() == before.spec_cst().spec_source(),
{
    before.spec_cst().lemma_wf();
    let a = after.spec_cards();
    let b = before.spec_cards();
    assert forall|j: int| 0 <= j < a.len() implies (#[trigger] a[j]).spec_text() == b[j].spec_text() by {
        let c = b[j];
        let d = a[j];
        let ts = spec_targets(c, r);
        let ys = choose|ys: Seq<i64>| mapped_by(map, ts, ys) && d.spec_text() == renumbered_text(c, r, ys);
        assert forall|k: int| 0 <= k < ts.len() implies #[trigger] ys[k] == ts[k].2 by {
            assert(call_ensures(map, (ts[k].2,), ys[k]));
        }
        lemma_no_changes(c, ts, ys);
        assert(c == before.spec_cst().spec_at(j));
        crate::card::law_empty_rewrite_is_identity(c.spec_text(), c.spec_tokens());
    }
    crate::cst::lemma_concat_same_texts(a, b);
}

/// A target whose id the map changes gives an edit of its token to the new
/// text.
proof fn lemma_changed_edits_has(c: Card, ts: Seq<Target>, ys: Seq<i64>, k: int)
    requires
        ys.len() == ts.len(),
        0 <= k < ts.len(),
        ys[k] != ts[k].2,
    ensures
        changed_edits(c, ts, ys).contains((ts[k].0, new_text(ts[k], ys[k]))),
    decreases ts.len(),
{
    let r = changed_edits(c, ts.drop_last(), ys.drop_last());
    if k == ts.len() - 1 {
        assert(changed_edits(c, ts, ys) == r.push((ts[k].0, new_text(ts[k], ys[k]))));
        assert(changed_edits(c, ts, ys)[r.len() as int] == (ts[k].0, new_text(ts[k], ys[k])));
    } else {
        assert(ts.drop_last()[k] == ts[k] && ys.drop_last()[k] == ys[k]);
        lemma_changed_edits_has(c, ts.drop_last(), ys.drop_last(), k);
        let q = choose|q: int| 0 <= q < r.len() && r[q] == (ts[k].0, new_text(ts[k], ys[k]));
        if ys.last() != ts.last().2 {
            assert(changed_edits(c, ts, ys)[q] == r[q]);
        }
    }
}

/// Renumbering materials renames every material-family data card (`Mn`,
/// `MTn` for its S(a,b) tables, `MXn` for its substitutions, in any case):
/// the card's name becomes its letters followed by what the map gives for
/// `n`, and the rest of the card stays as written. A name whose id the map
/// keeps is not touched.
pub proof fn law_renumber_materials_renames_m_mt_mx<F: Fn(i64) -> i64>(
    before: Model,
    after: Model,
    map: F,
    j: int,
)
    requires
        before.wf(),
        renumbered(before, after, Renumbering::Materials, map),
        0 <= j < before.spec_cards().len(),
        before.spec_cards()[j].spec_kind() == CardKind::Data,
        spec_head(before.spec_cards()[j]) is Some,
        ({
            let h = spec_head(before.spec_cards()[j])->0;
            &&& h.number is Some
            &&& (h.mnemonic == "m".spec_bytes() || h.mnemonic == "mt".spec_bytes() || h.mnemonic
                == "mx".spec_bytes())
        }),
    ensures
        ({
            let c = before.spec_cards()[j];
            let h = spec_head(c)->0;
            let t = c.spec_tokens()[h.name_tok as int];
            let letters = spec_split_name(spec_text_at(c, h.name_tok as int)).0;
            exists|y: i64|
                #![trigger call_ensures(map, (h.number->0,), y)]
                call_ensures(map, (h.number->0,), y) && after.spec_cards()[j].spec_text() == if y
                    == h.number->0 {
                    c.spec_text()
                } else {
                    spliced(c.spec_text(), t.start as int, t.spec_end(), letters + int_text(y as int))
                }
        }),
{
    broadcast use vstd::string::is_ascii_spec_bytes;

    before.spec_cst().lemma_wf();
    let c = before.spec_cards()[j];
    assert(c == before.spec_cst().spec_at(j));
    let h = spec_head(c)->0;
    let i = h.name_tok as int;
    let n = h.number->0;
    crate::data::lemma_head_in_range(c);
    reveal_strlit("m");
    reveal_strlit("mt");
    reveal_strlit("mx");
    assert(vstd::string::is_ascii("m"));
    assert(vstd::string::is_ascii("mt"));
    assert(vstd::string::is_ascii("mx"));
    assert("m".spec_bytes() =~= seq![109u8]);
    assert("mt".spec_bytes() =~= seq![109u8, 116u8]);
    assert("mx".spec_bytes() =~= seq![109u8, 120u8]);
    crate::data::lemma_head_fields(c);
    let ts = spec_targets(c, Renumbering::Materials);
    let letters = spec_split_name(spec_text_at(c, i)).0;
    assert(name_target(c, i) == Some((i as usize, letters, n)));
    assert(ts =~= seq![(i as usize, letters, n)]);
    let d = after.spec_cards()[j];
    let ys = choose|ys: Seq<i64>|
        mapped_by(map, ts, ys) && d.spec_text() == renumbered_text(c, Renumbering::Materials, ys);
    let y = ys[0];
    assert(call_ensures(map, (ts[0].2,), ys[0]));
    let e = changed_edits(c, ts, ys);
    assert(ts.drop_last() =~= Seq::<Target>::empty());
    assert(ys.drop_last() =~= Seq::<i64>::empty());
    assert(changed_edits(c, ts.drop_last(), ys.drop_last()) == Seq::<(usize, Seq<u8>)>::empty());
    let text = c.spec_text();
    let toks = c.spec_tokens();
    if y == n {
        assert(e == Seq::<(usize, Seq<u8>)>::empty());
        assert(rewritten_text(text, toks, e, 0, 0) == text.subrange(0, text.len() as int));
        assert(text.subrange(0, text.len() as int) =~= text);
    } else {
        assert(e == seq![(i as usize, letters + int_text(y as int))]);
        assert(rewritten_text(text, toks, e, 1, toks[i].spec_end()) == text.subrange(
            toks[i].spec_end(),
            text.len() as int,
        ));
    }
    assert(call_ensures(map, (n,), y));
}

/// Renumbering cells renames the base of every `LIKE n BUT` cell along with
/// the cells themselves: the base token is among the ids the renumbering
/// rewrites, holding `n`, and whenever the map moves `n` the card is
/// rewritten with that token set to the new id.
pub proof fn law_renumber_cells_renames_like_base<F: Fn(i64) -> i64>(
    before: Model,
    after: Model,
    map: F,
    j: int,
)
    requires
        before.wf(),
        renumbered(before, after, Renumbering::Cells, map),
        0 <= j < before.spec_cards().len(),
        before.spec_cards()[j].spec_kind() == CardKind::Cell,
        spec_cell_layout(before.spec_cards()[j]).like_tok is Some,
        crate::scan::spec_int_at(
            before.spec_cards()[j],
            spec_cell_layout(before.spec_cards()[j]).like_tok->0 as int,
        ) matches Some(b) && b >= 0,
    ensures
        ({
            let c = before.spec_cards()[j];
            let t = spec_cell_layout(c).like_tok->0;
            let b = crate::scan::spec_int_at(c, t as int)->0;
            let ts = spec_targets(c, Renumbering::Cells);
            exists|ys: Seq<i64>, k: int|
                #![trigger mapped_by(map, ts, ys), ts[k]]
                mapped_by(map, ts, ys) && after.spec_cards()[j].spec_text() == renumbered_text(
                    c,
                    Renumbering::Cells,
                    ys,
                ) && 0 <= k < ts.len() && ts[k].0 == t && ts[k].2 == b && call_ensures(map, (b,), ys[k])
                    && (ys[k] != b ==> changed_edits(c, ts, ys).contains((t, new_text(ts[k], ys[k]))))
        }),
{
    before.spec_cst().lemma_wf();
    let c = before.spec_cards()[j];
    assert(c == before.spec_cst().spec_at(j));
    let l = spec_cell_layout(c);
    let t = l.like_tok->0;
    let b = crate::scan::spec_int_at(c, t as int)->0;
    let cts = c.spec_tokens();
    // The base token reads as `b`, with at most a sign in front.
    let text = spec_text_at(c, t as int);
    assert(cts[t as int].kind == SyntaxKind::Number);
    assert(crate::num::spec_parse_int(text) == Some(b));
    assert(token_target(c, t as int) matches Some(x) && x.0 == t && x.2 == b) by {
        assert(text.len() > 0);
        let rest = text.subrange(1, text.len() as int);
        if text[0] == 45u8 {
            assert(crate::num::spec_parse_i64(text) == Some(b));
            assert(rest.len() > 0 && crate::num::all_digits(rest));
            assert(crate::lex::spec_is_digit(rest[0]));
            assert(rest[0] != 45u8 && rest[0] != 43u8);
            assert(crate::num::decimal_value(rest) >= 0) by {
                crate::num::lemma_decimal_value_nonneg(rest);
            }
            assert(b == 0);
            assert(crate::num::spec_parse_i64(rest) == Some(0i64));
        } else if text[0] == 43u8 {
            assert(crate::num::spec_parse_i64(rest) == Some(b));
        } else {
            assert(crate::num::spec_parse_i64(text) == Some(b));
        }
    }
    let ts = spec_targets(c, Renumbering::Cells);
    let like_part = opt_seq(token_target(c, t as int));
    let id_part = match spec_sig(cts, 0) {
        Some(q) => opt_seq(token_target(c, q)),
        None => Seq::empty(),
    };
    let pre = id_part + cell_geom(c).1;
    assert(ts == pre + like_part);
    let k = pre.len() as int;
    assert(ts[k] == token_target(c, t as int)->0);
    let d = after.spec_cards()[j];
    let ys = choose|ys: Seq<i64>|
        mapped_by(map, ts, ys) && d.spec_text() == renumbered_text(c, Renumbering::Cells, ys);
    assert(call_ensures(map, (ts[k].2,), ys[k]));
    if ys[k] != b {
        lemma_changed_edits_has(c, ts, ys, k);
    }
}

} // verus!
