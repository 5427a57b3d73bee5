//! The parameter section of a crunchy cell card (`imp:n=1 u=2 *fill=3 ...`)
//! read into `keyword=value...` entries, and the cell-id header read.

use vstd::prelude::*;
use crate::crunchy::cell::{
    card_toks, card_tokens, cell_scan_safe, int_of, kind_of, lemma_card_toks, parse_cell,
    spec_parse_cell,
};
use crate::crunchy::cst::{content_tokens, GreenTree};
use crate::crunchy::renumber::lemma_content_tokens;
use crate::crunchy::surface_kind::{upper_all, uppercase};
use crate::crunchy::syntax_kind::SyntaxKind;
use crate::num::parse_int_bytes;

verus! {

/// Where the `=` of a keyword starting at `j` would stand: after the name
/// and an optional `:particle`.
pub open spec fn after_key(t: GreenTree, toks: Seq<u32>, j: int) -> int {
    let k = j + 1;
    if k < toks.len() && kind_of(t, toks[k]) == SyntaxKind::COLON {
        if k + 1 < toks.len() && kind_of(t, toks[k + 1]) == SyntaxKind::IDENT {
            k + 2
        } else {
            k + 1
        }
    } else {
        k
    }
}

/// `toks[j]` starts a parameter keyword: an identifier followed by `=`, or
/// by `:particle =`.
pub open spec fn spec_is_keyword_start(t: GreenTree, toks: Seq<u32>, j: int) -> bool {
    0 <= j < toks.len() && kind_of(t, toks[j]) == SyntaxKind::IDENT && after_key(t, toks, j)
        < toks.len() && kind_of(t, toks[after_key(t, toks, j)]) == SyntaxKind::EQ
}

/// `toks[j]` begins the next entry: a keyword, or `*` and a keyword.
pub open spec fn at_next_key(t: GreenTree, toks: Seq<u32>, j: int) -> bool {
    if kind_of(t, toks[j]) == SyntaxKind::STAR {
        spec_is_keyword_start(t, toks, j + 1)
    } else {
        spec_is_keyword_start(t, toks, j)
    }
}

/// The end of the values that start at `j`: the next keyword, or the end.
pub open spec fn values_end(t: GreenTree, toks: Seq<u32>, j: int) -> int
    decreases toks.len() - j,
{
    if j < 0 || j >= toks.len() || at_next_key(t, toks, j) {
        j
    } else {
        values_end(t, toks, j + 1)
    }
}

/// One entry: its first token (the `*` or the keyword), the keyword token,
/// and the positions in `toks` where its values start and end.
pub type ParamSpan = (u32, u32, int, int);

/// Where the values of a keyword at `k` start: past the name, an optional
/// `:particle` and an optional `=`.
pub open spec fn values_start(t: GreenTree, toks: Seq<u32>, k: int) -> int {
    let e = after_key(t, toks, k);
    if e < toks.len() && kind_of(t, toks[e]) == SyntaxKind::EQ {
        e + 1
    } else {
        e
    }
}

/// The entries from position `j` on. Reading stops where no keyword stands.
pub open spec fn params_from(t: GreenTree, toks: Seq<u32>, j: int) -> Seq<ParamSpan>
    decreases toks.len() - j,
{
    if j < 0 || j >= toks.len() {
        Seq::empty()
    } else {
        let k = if kind_of(t, toks[j]) == SyntaxKind::STAR {
            j + 1
        } else {
            j
        };
        if k >= toks.len() || kind_of(t, toks[k]) != SyntaxKind::IDENT {
            Seq::empty()
        } else {
            let vs = values_start(t, toks, k);
            let ve = values_end(t, toks, vs);
            if ve <= j || ve > toks.len() {
                Seq::empty()
            } else {
                seq![(toks[j], toks[k], vs, ve)] + params_from(t, toks, ve)
            }
        }
    }
}

/// The first position at or after `j` that holds `x`, or the length.
pub open spec fn pos_of(toks: Seq<u32>, x: u32, j: int) -> int
    decreases toks.len() - j,
{
    if j < 0 || j >= toks.len() || toks[j] == x {
        j
    } else {
        pos_of(toks, x, j + 1)
    }
}

/// The parameter entries of the cell card at `ci`: none for other cards,
/// for `LIKE n BUT` cells without parameters, or cells without parameters.
pub open spec fn spec_cell_params(t: GreenTree, ci: int) -> Seq<ParamSpan> {
    let toks = card_toks(t, t.spec_cards()[ci]);
    match spec_parse_cell(t, ci) {
        Some(c) => match c.params_start {
            Some(ps) => params_from(t, toks, pos_of(toks, ps, 0)),
            None => Seq::empty(),
        },
        None => Seq::empty(),
    }
}

/// One `keyword=value...` entry of a cell's parameter section.
#[derive(Debug)]
pub struct CellParam {
    /// The keyword, uppercased, without its `:particle` designator.
    pub key: Vec<u8>,
    /// The value tokens (numbers, colons, parentheses, ...) of the entry.
    pub value_tokens: Vec<u32>,
    /// First token of the entry (the `*` prefix or the keyword).
    pub start_token: u32,
    /// Last token of the entry (its last value, or the keyword itself for a
    /// flag without a value).
    pub end_token: u32,
}

pub open spec fn param_matches(t: GreenTree, toks: Seq<u32>, p: CellParam, s: ParamSpan) -> bool {
    &&& p.key@ == upper_all(t.spec_token_text(s.1 as int))
    &&& p.value_tokens@ == toks.subrange(s.2, s.3)
    &&& p.start_token == s.0
    &&& p.end_token == toks[s.3 - 1]
}

fn is_keyword_start(tree: &GreenTree, toks: &Vec<u32>, j: usize) -> (r: bool)
    requires
        tree.wf(),
        forall|k: int| 0 <= k < toks@.len() ==> (#[trigger] toks@[k]) < tree.spec_tokens().len(),
        j < toks@.len(),
    ensures
        r == spec_is_keyword_start(*tree, toks@, j as int),
{
    if tree.token_kind(toks[j]) != SyntaxKind::IDENT {
        return false;
    }
    let n = toks.len();
    let mut k = j + 1;
    if k < n && tree.token_kind(toks[k]) == SyntaxKind::COLON {
        k = k + 1;
        if k < n && tree.token_kind(toks[k]) == SyntaxKind::IDENT {
            k = k + 1;
        }
    }
    k < n && tree.token_kind(toks[k]) == SyntaxKind::EQ
}

fn values_start_exec(tree: &GreenTree, toks: &Vec<u32>, k: usize) -> (r: usize)
    requires
        tree.wf(),
        forall|m: int| 0 <= m < toks@.len() ==> (#[trigger] toks@[m]) < tree.spec_tokens().len(),
        k < toks@.len(),
    ensures
        r == values_start(*tree, toks@, k as int),
        k < r <= toks@.len(),
{
    let n = toks.len();
    let mut j = k + 1;
    if j < n && tree.token_kind(toks[j]) == SyntaxKind::COLON {
        j = j + 1;
        if j < n && tree.token_kind(toks[j]) == SyntaxKind::IDENT {
            j = j + 1;
        }
    }
    if j < n && tree.token_kind(toks[j]) == SyntaxKind::EQ {
        j = j + 1;
    }
    j
}

fn values_end_exec(tree: &GreenTree, toks: &Vec<u32>, vstart: usize) -> (r: usize)
    requires
        tree.wf(),
        forall|m: int| 0 <= m < toks@.len() ==> (#[trigger] toks@[m]) < tree.spec_tokens().len(),
        vstart <= toks@.len(),
    ensures
        r == values_end(*tree, toks@, vstart as int),
        vstart <= r <= toks@.len(),
{
    let n = toks.len();
    let mut j = vstart;
    let mut at_next = false;
    while !at_next && j < n
        invariant
            tree.wf(),
            n == toks@.len(),
            forall|m: int| 0 <= m < n ==> (#[trigger] toks@[m]) < tree.spec_tokens().len(),
            vstart <= j <= n,
            at_next ==> at_next_key(*tree, toks@, j as int) && j < n,
            values_end(*tree, toks@, vstart as int) == values_end(*tree, toks@, j as int),
        decreases n - j + (if at_next {
            0int
        } else {
            1int
        }),
    {
        let here = match tree.token_kind(toks[j]) {
            SyntaxKind::STAR => j + 1 < n && is_keyword_start(tree, toks, j + 1),
            SyntaxKind::IDENT => is_keyword_start(tree, toks, j),
            _ => false,
        };
        proof {
            if kind_of(*tree, toks@[j as int]) == SyntaxKind::STAR {
                assert(here == spec_is_keyword_start(*tree, toks@, j + 1));
            } else if kind_of(*tree, toks@[j as int]) == SyntaxKind::IDENT {
                assert(here == spec_is_keyword_start(*tree, toks@, j as int));
            } else {
                assert(!spec_is_keyword_start(*tree, toks@, j as int));
            }
        }
        if here {
            at_next = true;
        } else {
            j = j + 1;
        }
    }
    j
}

/// The parameter entries of the cell card at `card_index` (see
/// [`spec_cell_params`]). A keyword may carry a `*` prefix (`*fill`) and a
/// `:particle` designator (`imp:n`).
pub fn cell_params(tree: &GreenTree, card_index: usize) -> (r: Vec<CellParam>)
    requires
        tree.wf(),
        card_index < tree.spec_cards().len(),
        cell_scan_safe(*tree, card_index as int),
    ensures
        r@.len() == spec_cell_params(*tree, card_index as int).len(),
        forall|k: int|
            0 <= k < r@.len() ==> param_matches(
                *tree,
                card_toks(*tree, tree.spec_cards()[card_index as int]),
                #[trigger] r@[k],
                spec_cell_params(*tree, card_index as int)[k],
            ),
{
    let cell = match parse_cell(tree, card_index) {
        Some(c) => c,
        None => {
            return Vec::new();
        },
    };
    let ps = match cell.params_start {
        Some(p) => p,
        None => {
            return Vec::new();
        },
    };
    proof {
        tree.lemma_cards_in_range();
        tree.lemma_wf();
    }
    let card = tree.cards()[card_index];
    assert(card == tree.spec_cards()[card_index as int]);
    let toks = card_tokens(tree, &card);
    proof {
        lemma_card_toks(tree.spec_tokens(), card.first_tok as int, card.tok_end as int);
    }
    let n = toks.len();
    let mut j: usize = 0;
    while j < n && toks[j] != ps
        invariant
            j <= n == toks@.len(),
            pos_of(toks@, ps, 0) == pos_of(toks@, ps, j as int),
        decreases n - j,
    {
        j = j + 1;
    }
    let ghost whole = params_from(*tree, toks@, j as int);
    let ghost mut done: Seq<ParamSpan> = Seq::empty();
    let mut out: Vec<CellParam> = Vec::new();
    let mut stop = false;
    while !stop && j < n
        invariant
            tree.wf(),
            n == toks@.len(),
            forall|k: int| 0 <= k < n ==> (#[trigger] toks@[k]) < tree.spec_tokens().len(),
            j <= n,
            stop ==> done == whole,
            !stop ==> done + params_from(*tree, toks@, j as int) == whole,
            out@.len() == done.len(),
            forall|k: int|
                0 <= k < out@.len() ==> param_matches(*tree, toks@, #[trigger] out@[k], done[k]),
        decreases n - j + (if stop {
            0int
        } else {
            1int
        }),
    {
        let start = j;
        let start_token = toks[j];
        if tree.token_kind(toks[j]) == SyntaxKind::STAR {
            j = j + 1;
        }
        if j >= n || tree.token_kind(toks[j]) != SyntaxKind::IDENT {
            stop = true;
            proof {
                assert(params_from(*tree, toks@, start as int) =~= Seq::<ParamSpan>::empty());
                assert(done + Seq::<ParamSpan>::empty() =~= done);
            }
        } else {
            let key_tok = toks[j];
            let key = uppercase(tree.token_text(key_tok));
            let vstart = values_start_exec(tree, &toks, j);
            j = values_end_exec(tree, &toks, vstart);
            let ghost span: ParamSpan = (start_token, key_tok, vstart as int, j as int);
            proof {
                assert(params_from(*tree, toks@, start as int) == seq![span] + params_from(
                    *tree,
                    toks@,
                    j as int,
                ));
                assert(done.push(span) + params_from(*tree, toks@, j as int) =~= done + (seq![span]
                    + params_from(*tree, toks@, j as int)));
            }
            let value_tokens = vstd::slice::slice_to_vec(
                vstd::slice::slice_subrange(toks.as_slice(), vstart, j),
            );
            let end_token = toks[j - 1];
            out.push(CellParam { key, value_tokens, start_token, end_token });
            proof {
                done = done.push(span);
            }
        }
    }
    proof {
        if !stop {
            assert(params_from(*tree, toks@, j as int) =~= Seq::<ParamSpan>::empty());
            assert(done + Seq::<ParamSpan>::empty() =~= done);
        }
    }
    out
}

/// The cell header read for indexing: the id token and the id, for a cell
/// card whose first entry is a readable number.
pub open spec fn spec_cell_id(t: GreenTree, ci: int) -> Option<(u32, i64)> {
    let c = t.spec_cards()[ci];
    let cts = content_tokens(t.spec_tokens(), c.first_tok as int, c.tok_end as int);
    if c.kind != SyntaxKind::CELL_CARD || cts.len() < 1 || kind_of(t, cts[0])
        != SyntaxKind::NUMBER {
        None
    } else {
        match int_of(t, cts[0]) {
            Some(id) => Some((cts[0], id)),
            None => None,
        }
    }
}

/// The id token and id of the cell card at `card_index`.
pub fn cell_id(tree: &GreenTree, card_index: usize) -> (r: Option<(u32, i64)>)
    requires
        tree.wf(),
        card_index < tree.spec_cards().len(),
    ensures
        r == spec_cell_id(*tree, card_index as int),
{
    proof {
        tree.lemma_cards_in_range();
        tree.lemma_wf();
    }
    let card = tree.cards()[card_index];
    assert(card == tree.spec_cards()[card_index as int]);
    if card.kind != SyntaxKind::CELL_CARD {
        return None;
    }
    let cts = tree.card_content_tokens(&card);
    proof {
        lemma_content_tokens(tree.spec_tokens(), card.first_tok as int, card.tok_end as int);
    }
    if cts.len() < 1 || tree.token_kind(cts[0]) != SyntaxKind::NUMBER {
        return None;
    }
    match parse_int_bytes(tree.token_text(cts[0])) {
        Some(id) => Some((cts[0], id)),
        None => None,
    }
}

} // verus!
