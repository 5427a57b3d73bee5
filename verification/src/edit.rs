//! Edits: what they do to a card, and why one can be refused.

use vstd::prelude::*;
use vstd::string::StringSliceAdditionalSpecFns;
use crate::card::{spliced, token_replaced, Card};
use crate::cell::{
    first_keyword, has_number, is_kw, layout as cell_layout, lemma_layout_in_range,
    spec_cell_layout, word_like, CellLayout,
};
use crate::decimal::{digits_of, lemma_digits_of, law_int_text_round_trip};
use crate::kind::SyntaxKind;
use crate::lines::ascii_lower;
use crate::scan::{spec_float_at, spec_int_at, spec_text_at};
use crate::token::Token;
use crate::data::{
    entries_from, head, lemma_head_in_range, material_entry_tokens, material_id, spec_head,
    spec_material_id, spec_transform_id, transform_id, HeadView,
};
use crate::model::{first_definition, lemma_first_definition, Family};
use crate::compose::first_of_kind;
use crate::card::{byte_edits, delta_prefix, rewritten_text};
use crate::data::{spec_values_span, values_span};
use crate::surface::coeff_run_from;
use crate::view::{float_tokens, TransformView};
use crate::renumber::{name_target, name_target_exec};
use crate::scan::first_digit;
use crate::lex::spec_is_digit;
use crate::surface::{
    coeff_run, coeff_tokens, layout as surface_layout, lemma_mnemonic_in_range,
    spec_surface_layout, SurfaceLayout,
};
use crate::cell::{lemma_params_in_range, lemma_params_values, ParamSpec};
use crate::kind::spec_is_trivia;
use crate::text::{spec_trim, trim, lemma_trim_len};
use crate::bytes::push_range;
use crate::view::{cell_params, first_param, lemma_first_param, CellView};
use crate::cst::only_card_changed;
use crate::decimal::{fmt_int, int_text, lemma_int_text_len};
use crate::kind::{eol_bytes, CardKind, Eol};
use crate::lex::{lexable, spec_lex};
use crate::model::Model;
use crate::renumber::{new_text, token_target, token_target_exec, Target};
use crate::scan::{lemma_sig, sig, spec_sig};

verus! {

/// Why an edit could not be applied. Reads never fail; edits do, because the
/// caller asked to change a field that is not there.
#[derive(Debug, Clone, Copy, PartialEq, Eq, Structural)]
pub enum EditError {
    /// The slot resolves to a removed card, or a card of the wrong kind for
    /// this edit.
    WrongKind,
    /// The addressed field or index does not exist on this card.
    NoSuchField,
    /// There is no block of the relevant kind to add the new card into.
    NoBlock,
}

pub open spec fn edit_error_message(e: EditError) -> Seq<char> {
    match e {
        EditError::WrongKind => "card is missing or is not the right kind for this edit"@,
        EditError::NoSuchField => "the addressed field does not exist on this card"@,
        EditError::NoBlock => "the model has no block of this kind to add the card into"@,
    }
}

impl EditError {
    /// The readable message for this error.
    pub fn to_string(&self) -> (r: String)
        ensures
            r@ == edit_error_message(*self),
    {
        match self {
            EditError::WrongKind => String::from_str(
                "card is missing or is not the right kind for this edit",
            ),
            EditError::NoSuchField => String::from_str(
                "the addressed field does not exist on this card",
            ),
            EditError::NoBlock => String::from_str(
                "the model has no block of this kind to add the card into",
            ),
        }
    }
}


/// The card a slot of the model holds.
pub open spec fn card_of(m: Model, slot: u32) -> Card {
    m.spec_cst().spec_card(slot as int)
}

/// The slot holds a live card of this kind.
pub open spec fn is_kind(m: Model, slot: u32, kind: CardKind) -> bool {
    m.spec_cst().live(slot as int) && card_of(m, slot).spec_kind() == kind
}

/// Every card of the model stays within the lexer's limits when it grows by
/// `n` bytes.
pub open spec fn room_for(m: Model, n: int) -> bool {
    forall|s: int|
        #[trigger] m.spec_cst().live(s) ==> lexable(m.spec_cst().spec_card(s).spec_text().len() + n)
}

/// `d` is `c` with its text replaced by `text` and re-lexed.
pub open spec fn relexed(c: Card, d: Card, text: Seq<u8>) -> bool {
    &&& d.spec_kind() == c.spec_kind()
    &&& d.spec_slot() == c.spec_slot()
    &&& d.spec_text() == text
    &&& d.spec_tokens() == spec_lex(text, c.spec_kind())
}

/// The model after an edit of the card in `slot` that left every other card
/// as it was.
pub open spec fn edited(before: Model, after: Model, slot: u32) -> bool {
    only_card_changed(before.spec_cst(), after.spec_cst(), slot as int)
}

/// The token bound [`cell_params`] reads parameters up to.
pub open spec fn spec_params_end(c: Card) -> int {
    let n = c.spec_tokens().len() as int;
    let e = spec_cell_layout(c).params_end as int;
    if e < n {
        e
    } else {
        n
    }
}

/// Where a card's content ends: before its `\r\n` or `\n` terminator.
pub open spec fn spec_content_end(t: Seq<u8>) -> int {
    let e = t.len() as int;
    if e > 0 && t[e - 1] == 10u8 {
        if e > 1 && t[e - 2] == 13u8 {
            e - 2
        } else {
            e - 1
        }
    } else {
        e
    }
}

fn content_end(t: &[u8]) -> (r: usize)
    ensures
        r == spec_content_end(t@),
{
    let e = t.len();
    if e > 0 && t[e - 1] == 10u8 {
        if e > 1 && t[e - 2] == 13u8 {
            e - 2
        } else {
            e - 1
        }
    } else {
        e
    }
}

/// The last significant token before token `k`.
pub open spec fn last_sig_before(ts: Seq<Token>, k: int) -> Option<int>
    decreases k,
{
    if k <= 0 {
        None
    } else if !spec_is_trivia(ts[k - 1].kind) {
        Some(k - 1)
    } else {
        last_sig_before(ts, k - 1)
    }
}

proof fn lemma_last_sig_before(ts: Seq<Token>, k: int)
    ensures
        match last_sig_before(ts, k) {
            Some(i) => 0 <= i < k,
            None => true,
        },
    decreases k,
{
    if k > 0 {
        lemma_last_sig_before(ts, k - 1);
    }
}

/// Where an append lands: just past the last significant token, so before a
/// trailing `$` comment; on a card with none, before its terminator.
pub open spec fn append_pos(c: Card) -> int {
    let ts = c.spec_tokens();
    match last_sig_before(ts, ts.len() as int) {
        Some(i) => ts[i].spec_end(),
        None => spec_content_end(c.spec_text()),
    }
}

fn append_pos_exec(card: &Card) -> (r: usize)
    requires
        card.wf(),
    ensures
        r == append_pos(*card),
        r <= card.spec_text().len(),
{
    let toks = card.tokens();
    let ghost ts = card.spec_tokens();
    proof {
        card.lemma_wf();
    }
    let mut k = toks.len();
    while k > 0
        invariant
            k <= toks@.len(),
            toks@ == ts,
            card.wf(),
            ts == card.spec_tokens(),
            last_sig_before(ts, k as int) == last_sig_before(ts, ts.len() as int),
        decreases k,
    {
        if !toks[k - 1].kind.is_trivia() {
            let t = toks[k - 1];
            proof {
                card.lemma_wf();
                assert(ts[k - 1].spec_end() <= card.spec_text().len());
            }
            return (t.start + t.len) as usize;
        }
        k = k - 1;
    }
    content_end(card.text())
}

/// A removed parameter's first byte: its keyword's, or the space before it.
pub open spec fn param_cut_start(c: Card, p: ParamSpec) -> int {
    let s = c.spec_tokens()[p.key_token].start as int;
    if s > 0 && c.spec_text()[s - 1] == 32u8 {
        s - 1
    } else {
        s
    }
}

/// A parameter's last byte: its value's end, or its keyword's for a bare
/// keyword.
pub open spec fn param_end(c: Card, p: ParamSpec) -> int {
    let ts = c.spec_tokens();
    if p.value_end > p.value_start {
        ts[p.value_end - 1].spec_end()
    } else {
        ts[p.key_token].spec_end()
    }
}

/// The body of an appended comment: the trimmed text, with `$ ` in front
/// unless it starts with `$` already.
pub open spec fn comment_body(text: Seq<u8>) -> Seq<u8> {
    let t = spec_trim(text);
    if t.len() > 0 && t[0] == 36u8 {
        t
    } else {
        seq![36u8, 32u8] + t
    }
}

/// A token's text without a leading `+`.
pub open spec fn strip_plus(t: Seq<u8>) -> Seq<u8> {
    if t.len() > 0 && t[0] == 43u8 {
        t.subrange(1, t.len() as int)
    } else {
        t
    }
}

/// Where a surface's boundary marker begins: at its `*`, or at its id.
pub open spec fn marker_start(c: Card, l: SurfaceLayout) -> int {
    match l.star_tok {
        Some(t) => c.spec_tokens()[t as int].start as int,
        None => c.spec_tokens()[l.id_tok->0 as int].start as int,
    }
}

/// The id token of a surface, split into its sign and id.
pub open spec fn surface_id_target(c: Card) -> Option<Target> {
    match spec_surface_layout(c).id_tok {
        Some(t) => token_target(c, t as int),
        None => None,
    }
}

/// The coefficient tokens of a surface.
pub open spec fn surface_coeffs(c: Card) -> Seq<usize> {
    coeff_run(c, spec_surface_layout(c).coeffs_start as int)
}

proof fn lemma_coeff_run_in_range(c: Card, i: int)
    ensures
        forall|k: int|
            0 <= k < coeff_run(c, i).len() ==> (#[trigger] coeff_run(c, i)[k]) < c.spec_tokens().len(),
    decreases c.spec_tokens().len() - i,
{
    let ts = c.spec_tokens();
    if 0 <= i < ts.len() {
        lemma_sig(ts, i);
        match spec_sig(ts, i) {
            Some(k) => if i <= k < ts.len() && spec_float_at(c, k) {
                lemma_coeff_run_in_range(c, k + 1);
                let r = coeff_run(c, k + 1);
                assert forall|j: int| 0 <= j < coeff_run(c, i).len() implies (#[trigger] coeff_run(
                    c,
                    i,
                )[j]) < ts.len() by {
                    if j > 0 {
                        assert(coeff_run(c, i)[j] == r[j - 1]);
                    }
                }
            },
            None => {},
        }
    }
}

/// A surface's `*` comes before its id token.
proof fn lemma_star_before_id(c: Card)
    requires
        c.wf(),
        c.spec_tokens().len() <= usize::MAX,
    ensures
        match (spec_surface_layout(c).star_tok, spec_surface_layout(c).id_tok) {
            (Some(s), Some(i)) => s < i,
            _ => true,
        },
{
    let ts = c.spec_tokens();
    lemma_sig(ts, 0);
    if let Some(i0) = spec_sig(ts, 0) {
        lemma_sig(ts, i0 + 1);
    }
}

/// A surface's transform token comes before its mnemonic.
proof fn lemma_transform_before_mnemonic(c: Card)
    requires
        c.wf(),
        c.spec_tokens().len() <= usize::MAX,
    ensures
        spec_surface_layout(c).transform_tok is Some ==> spec_surface_layout(c).mnemonic_tok is Some
            && spec_surface_layout(c).transform_tok->0 < spec_surface_layout(c).mnemonic_tok->0,
{
    let ts = c.spec_tokens();
    lemma_sig(ts, 0);
    if let Some(i0) = spec_sig(ts, 0) {
        lemma_sig(ts, i0 + 1);
        if let Some(i1) = spec_sig(ts, i0 + 1) {
            lemma_sig(ts, i1 + 1);
            if let Some(i2) = spec_sig(ts, i1 + 1) {
                lemma_sig(ts, i2 + 1);
                if let Some(i3) = spec_sig(ts, i2 + 1) {
                    lemma_sig(ts, i3 + 1);
                }
            }
        }
    }
}

/// The data-card head of `c` when it names a material (`Family::Material`)
/// or a transform (otherwise).
pub open spec fn head_with(c: Card, f: Family) -> Option<HeadView> {
    match spec_head(c) {
        Some(h) => if (f == Family::Material && spec_material_id(h) is Some) || (f
            != Family::Material && spec_transform_id(h) is Some) {
            Some(h)
        } else {
            None
        },
        None => None,
    }
}

/// The `(zaid, fraction)` token pairs of a material card.
pub open spec fn material_entries(c: Card) -> Seq<(usize, usize)> {
    entries_from(c, spec_head(c)->0.values_start as int).0
}

proof fn lemma_entries_in_range(c: Card, i: int)
    ensures
        forall|k: int|
            0 <= k < entries_from(c, i).0.len() ==> (#[trigger] entries_from(c, i).0[k]).0
                < c.spec_tokens().len() && entries_from(c, i).0[k].1 < c.spec_tokens().len(),
    decreases c.spec_tokens().len() - i,
{
    let ts = c.spec_tokens();
    if 0 <= i < ts.len() {
        match spec_sig(ts, i) {
            None => {},
            Some(z) => match spec_sig(ts, z + 1) {
                None => {},
                Some(f) => if i <= z < f < ts.len() && spec_float_at(c, f) {
                    lemma_entries_in_range(c, f + 1);
                    let r = entries_from(c, f + 1).0;
                    assert forall|k: int| 0 <= k < entries_from(c, i).0.len() implies (
                    #[trigger] entries_from(c, i).0[k]).0 < ts.len() && entries_from(c, i).0[k].1
                        < ts.len() by {
                        if k > 0 {
                            assert(entries_from(c, i).0[k] == r[k - 1]);
                        }
                    }
                },
            },
        }
    }
}

/// The letters kept before a data-card name's id are no longer than the
/// name.
proof fn lemma_name_target_len(c: Card, tok: int)
    requires
        0 <= tok < c.spec_tokens().len(),
    ensures
        match name_target(c, tok) {
            Some(t) => t.1.len() <= spec_text_at(c, tok).len(),
            None => true,
        },
{
    lemma_first_digit(spec_text_at(c, tok), 0);
}

proof fn lemma_first_digit(s: Seq<u8>, i: int)
    requires
        0 <= i <= s.len(),
    ensures
        i <= first_digit(s, i) <= s.len(),
    decreases s.len() - i,
{
    if i < s.len() && !spec_is_digit(s[i]) {
        lemma_first_digit(s, i + 1);
    }
}

/// `t` without one trailing `\n` (and a `\r` before it).
pub open spec fn strip_eol(t: Seq<u8>) -> Seq<u8> {
    if t.len() > 0 && t[t.len() - 1] == 10u8 {
        let u = t.subrange(0, t.len() - 1);
        if u.len() > 0 && u[u.len() - 1] == 13u8 {
            u.subrange(0, u.len() - 1)
        } else {
            u
        }
    } else {
        t
    }
}

/// A snippet made a proper line of the file: whatever terminator it had is
/// replaced by the file's own.
pub open spec fn terminated(text: Seq<u8>, eol: Eol) -> Seq<u8> {
    strip_eol(text) + eol_bytes(eol)
}

/// Position just past the run of `Message` cards starting at `i`.
pub open spec fn leading_messages(cards: Seq<Card>, i: int) -> int
    decreases cards.len() - i,
{
    if 0 <= i < cards.len() && cards[i].spec_kind() == CardKind::Message {
        leading_messages(cards, i + 1)
    } else {
        i
    }
}

/// Where a title card belongs: first, or just after a leading message block
/// (its `Message` cards and the `Blank` that ends it).
pub open spec fn title_pos(cards: Seq<Card>) -> int {
    let i = leading_messages(cards, 0);
    if i > 0 && i < cards.len() && cards[i].spec_kind() == CardKind::Blank {
        i + 1
    } else {
        i
    }
}

/// Where the cell block begins: after the title, if there is one.
pub open spec fn content_start(cards: Seq<Card>) -> int {
    let i = title_pos(cards);
    if 0 <= i < cards.len() && cards[i].spec_kind() == CardKind::Title {
        i + 1
    } else {
        i
    }
}

/// The position just past `need` more `Blank` cards from `pos` on.
pub open spec fn past_blanks(cards: Seq<Card>, pos: int, need: int) -> Option<int>
    decreases cards.len() - pos,
{
    if need <= 0 {
        Some(pos)
    } else if pos < 0 || pos >= cards.len() {
        None
    } else if cards[pos].spec_kind() == CardKind::Blank {
        past_blanks(cards, pos + 1, need - 1)
    } else {
        past_blanks(cards, pos + 1, need)
    }
}

/// How many block delimiters come before a block: none before the cells,
/// one before the surfaces, two before the data cards.
pub open spec fn blanks_before(kind: CardKind) -> Option<int> {
    match kind {
        CardKind::Cell => Some(0),
        CardKind::Surface => Some(1),
        CardKind::Data => Some(2),
        _ => None,
    }
}

/// One past the last card of `kind` among the first `k`.
pub open spec fn last_of_kind(cards: Seq<Card>, kind: CardKind, k: int) -> Option<int>
    decreases k,
{
    if k <= 0 {
        None
    } else if cards[k - 1].spec_kind() == kind {
        Some(k)
    } else {
        last_of_kind(cards, kind, k - 1)
    }
}

proof fn lemma_last_of_kind(cards: Seq<Card>, kind: CardKind, k: int)
    requires
        k <= cards.len(),
    ensures
        match last_of_kind(cards, kind, k) {
            Some(p) => 1 <= p <= k && cards[p - 1].spec_kind() == kind && forall|j: int|
                p <= j < k ==> (#[trigger] cards[j]).spec_kind() != kind,
            None => forall|j: int| 0 <= j < k ==> (#[trigger] cards[j]).spec_kind() != kind,
        },
    decreases k,
{
    if k > 0 && cards[k - 1].spec_kind() != kind {
        lemma_last_of_kind(cards, kind, k - 1);
    }
}

/// Where a new card of `kind` goes: after the last card of its block, or,
/// when the block is empty, in the gap its delimiters leave for it.
pub open spec fn add_pos(cards: Seq<Card>, kind: CardKind) -> Option<int> {
    match last_of_kind(cards, kind, cards.len() as int) {
        Some(p) => Some(p),
        None => match blanks_before(kind) {
            Some(n) => past_blanks(cards, content_start(cards), n),
            None => None,
        },
    }
}

/// `after` is `before` with one new card, held by the fresh `slot`, put at
/// position `at`: of `kind`, with `text` as its bytes, lexed.
pub open spec fn card_added(
    before: Model,
    after: Model,
    slot: u32,
    at: int,
    kind: CardKind,
    text: Seq<u8>,
) -> bool {
    let c = after.spec_cst().spec_card(slot as int);
    &&& after.wf()
    &&& after.spec_cst().spec_eol() == before.spec_cst().spec_eol()
    &&& !before.spec_cst().live(slot as int)
    &&& after.spec_cst().live(slot as int)
    &&& c.spec_kind() == kind
    &&& c.spec_text() == text
    &&& c.spec_tokens() == spec_lex(text, kind)
    &&& after.spec_cards() == before.spec_cards().insert(at, c)
}

proof fn lemma_leading_messages(cards: Seq<Card>, i: int)
    requires
        0 <= i <= cards.len(),
    ensures
        i <= leading_messages(cards, i) <= cards.len(),
    decreases cards.len() - i,
{
    if i < cards.len() && cards[i].spec_kind() == CardKind::Message {
        lemma_leading_messages(cards, i + 1);
    }
}

proof fn lemma_past_blanks(cards: Seq<Card>, pos: int, need: int)
    requires
        0 <= pos <= cards.len(),
    ensures
        match past_blanks(cards, pos, need) {
            Some(p) => pos <= p <= cards.len(),
            None => true,
        },
    decreases cards.len() - pos,
{
    if need > 0 && pos < cards.len() {
        if cards[pos].spec_kind() == CardKind::Blank {
            lemma_past_blanks(cards, pos + 1, need - 1);
        } else {
            lemma_past_blanks(cards, pos + 1, need);
        }
    }
}

/// `after` is `before` without the card at position `i`.
pub open spec fn card_removed(before: Model, after: Model, i: int) -> bool {
    let slot = before.spec_cst().spec_order()[i];
    &&& after.wf()
    &&& after.spec_cst().spec_eol() == before.spec_cst().spec_eol()
    &&& !after.spec_cst().live(slot as int)
    &&& after.spec_cards() == before.spec_cards().remove(i)
}

/// Room in the tree for one more card.
pub open spec fn can_add(m: Model) -> bool {
    m.spec_cst().spec_arena().len() < u32::MAX
}

fn eol_vec(e: Eol) -> (r: Vec<u8>)
    ensures
        r@ == eol_bytes(e),
{
    match e {
        Eol::Lf => {
            let v: Vec<u8> = vec![10u8];
            assert(v@ =~= seq![10u8]);
            v
        },
        Eol::Crlf => {
            let v: Vec<u8> = vec![13u8, 10u8];
            assert(v@ =~= seq![13u8, 10u8]);
            v
        },
    }
}

fn terminate(text: &[u8], e: Eol) -> (r: Vec<u8>)
    ensures
        r@ == terminated(text@, e),
        r@.len() <= text@.len() + 2,
{
    let n = text.len();
    let mut end = n;
    if end > 0 && text[end - 1] == 10u8 {
        end = end - 1;
        if end > 0 && text[end - 1] == 13u8 {
            end = end - 1;
        }
    }
    let mut out: Vec<u8> = Vec::new();
    push_range(&mut out, text, 0, end);
    let mut tail = eol_vec(e);
    out.append(&mut tail);
    proof {
        let t = text@;
        if n > 0 && t[n - 1] == 10u8 {
            let u = t.subrange(0, n - 1);
            if n > 1 && t[n - 2] == 13u8 {
                assert(u[u.len() - 1] == 13u8);
                assert(t.subrange(0, end as int) =~= u.subrange(0, u.len() - 1));
            } else {
                assert(t.subrange(0, end as int) =~= u);
            }
        } else {
            assert(t.subrange(0, end as int) =~= t);
        }
    }
    out
}

/// The token range `[first, last + 1)` of each term of a cell's geometry,
/// term for term with [`geometry_terms`]: a `#n` complement spans its `#`
/// and its number.
pub open spec fn geometry_spans(c: Card, i: int, end: int) -> Seq<(usize, usize)>
    decreases c.spec_tokens().len() - i,
{
    let ts = c.spec_tokens();
    if i < 0 || i >= end || i >= ts.len() {
        Seq::empty()
    } else {
        let k = ts[i].kind;
        if k == SyntaxKind::Number || k == SyntaxKind::LParen || k == SyntaxKind::RParen || k
            == SyntaxKind::Colon {
            seq![(i as usize, (i + 1) as usize)] + geometry_spans(c, i + 1, end)
        } else if k == SyntaxKind::Hash {
            match spec_sig(ts, i + 1) {
                Some(j) => if i < j < ts.len() && ts[j].kind == SyntaxKind::Number {
                    seq![(i as usize, (j + 1) as usize)] + geometry_spans(c, j + 1, end)
                } else {
                    seq![(i as usize, (i + 1) as usize)] + geometry_spans(c, i + 1, end)
                },
                None => seq![(i as usize, (i + 1) as usize)] + geometry_spans(c, i + 1, end),
            }
        } else {
            geometry_spans(c, i + 1, end)
        }
    }
}

/// Spans lie within the tokens from `i` on, each non-empty, in order.
pub(crate) proof fn lemma_geometry_spans(c: Card, i: int, end: int)
    requires
        0 <= i,
        c.spec_tokens().len() <= usize::MAX,
    ensures
        forall|k: int|
            0 <= k < geometry_spans(c, i, end).len() ==> i <= (#[trigger] geometry_spans(
                c,
                i,
                end,
            )[k]).0 < geometry_spans(c, i, end)[k].1 <= c.spec_tokens().len(),
        forall|a: int, b: int|
            0 <= a < b < geometry_spans(c, i, end).len() ==> (#[trigger] geometry_spans(
                c,
                i,
                end,
            )[a]).1 <= (#[trigger] geometry_spans(c, i, end)[b]).0,
    decreases c.spec_tokens().len() - i,
{
    let ts = c.spec_tokens();
    if i < end && i < ts.len() {
        let k = ts[i].kind;
        let sp = geometry_spans(c, i, end);
        if k == SyntaxKind::Number || k == SyntaxKind::LParen || k == SyntaxKind::RParen || k
            == SyntaxKind::Colon {
            lemma_geometry_spans(c, i + 1, end);
            let r = geometry_spans(c, i + 1, end);
            assert(sp == seq![(i as usize, (i + 1) as usize)] + r);
            assert forall|x: int| 0 < x < sp.len() implies sp[x] == r[x - 1] by {}
        } else if k == SyntaxKind::Hash {
            lemma_sig(ts, i + 1);
            let nx = match spec_sig(ts, i + 1) {
                Some(j) => if i < j < ts.len() && ts[j].kind == SyntaxKind::Number {
                    j + 1
                } else {
                    i + 1
                },
                None => i + 1,
            };
            lemma_geometry_spans(c, nx, end);
            let r = geometry_spans(c, nx, end);
            assert(sp == seq![(i as usize, nx as usize)] + r);
            assert forall|x: int| 0 < x < sp.len() implies sp[x] == r[x - 1] by {}
        } else {
            lemma_geometry_spans(c, i + 1, end);
        }
    }
}

pub(crate) fn geometry_spans_exec(card: &Card, start: usize, end: usize) -> (r: Vec<(usize, usize)>)
    requires
        card.wf(),
    ensures
        r@ == geometry_spans(*card, start as int, end as int),
{
    let toks = card.tokens();
    let n = toks.len();
    let ghost target = geometry_spans(*card, start as int, end as int);
    let mut out: Vec<(usize, usize)> = Vec::new();
    let mut i = start;
    while i < end && i < n
        invariant
            toks@ == card.spec_tokens(),
            n == toks@.len(),
            card.wf(),
            out@ + geometry_spans(*card, i as int, end as int) == target,
        decreases n - i,
    {
        let k = toks[i].kind;
        let ghost rest_i = geometry_spans(*card, i + 1, end as int);
        if k == SyntaxKind::Number || k == SyntaxKind::LParen || k == SyntaxKind::RParen || k
            == SyntaxKind::Colon {
            let ghost before = out@;
            out.push((i, i + 1));
            proof {
                assert(before + geometry_spans(*card, i as int, end as int) =~= out@ + rest_i);
            }
            i = i + 1;
        } else if k == SyntaxKind::Hash {
            proof {
                lemma_sig(card.spec_tokens(), i + 1);
            }
            let j = sig(card, i + 1);
            let nx = match j {
                Some(j) => if i < j && j < n && toks[j].kind == SyntaxKind::Number {
                    j + 1
                } else {
                    i + 1
                },
                None => i + 1,
            };
            let ghost before = out@;
            out.push((i, nx));
            proof {
                assert(before + geometry_spans(*card, i as int, end as int) =~= out@
                    + geometry_spans(*card, nx as int, end as int));
            }
            i = nx;
        } else {
            i = i + 1;
        }
    }
    proof {
        assert(geometry_spans(*card, i as int, end as int) =~= Seq::<(usize, usize)>::empty());
        assert(out@ + Seq::<(usize, usize)>::empty() =~= out@);
    }
    out
}

/// A cell's geometry term spans.
pub open spec fn cell_spans(c: Card) -> Seq<(usize, usize)> {
    let l = spec_cell_layout(c);
    geometry_spans(c, l.geometry_start as int, l.geometry_end as int)
}

/// The exact source text of a cell's geometry, from its first term to its
/// last; empty when it has none.
pub open spec fn geometry_source(c: Card) -> Seq<u8> {
    let sp = cell_spans(c);
    let ts = c.spec_tokens();
    if sp.len() > 0 {
        c.spec_text().subrange(ts[sp[0].0 as int].start as int, ts[sp[sp.len() - 1].1 - 1].spec_end())
    } else {
        Seq::empty()
    }
}

/// Where text goes in a cell whose geometry has no term: before the token
/// where the geometry would start, followed by a space; or, when nothing
/// follows, after the card's content, preceded by one.
pub open spec fn empty_geometry_anchor(c: Card, text: Seq<u8>) -> (int, Seq<u8>) {
    let l = spec_cell_layout(c);
    let ts = c.spec_tokens();
    if l.geometry_start < ts.len() {
        (ts[l.geometry_start as int].start as int, text + seq![32u8])
    } else {
        (append_pos(c), seq![32u8] + text)
    }
}

/// Where `insert_geometry_term` puts the trimmed text `t` so that it
/// becomes term `position`: before the term now there, or after the last
/// term, or at the empty-geometry anchor.
pub open spec fn insert_anchor(c: Card, position: int, t: Seq<u8>) -> (int, Seq<u8>) {
    let sp = cell_spans(c);
    let ts = c.spec_tokens();
    if position < sp.len() {
        (ts[sp[position].0 as int].start as int, t + seq![32u8])
    } else if sp.len() > 0 {
        (ts[sp[sp.len() - 1].1 - 1].spec_end(), seq![32u8] + t)
    } else {
        empty_geometry_anchor(c, t)
    }
}

/// The bytes of each text of a list.
pub open spec fn texts_bytes(vs: Seq<&str>) -> Seq<Seq<u8>> {
    Seq::new(vs.len(), |k: int| vs[k].spec_bytes())
}

/// The texts joined by single spaces.
pub open spec fn joined(vs: Seq<Seq<u8>>) -> Seq<u8>
    decreases vs.len(),
{
    if vs.len() == 0 {
        Seq::empty()
    } else if vs.len() == 1 {
        vs[0]
    } else {
        joined(vs.drop_last()) + seq![32u8] + vs.last()
    }
}

/// The total length of the texts.
pub open spec fn total_len(vs: Seq<Seq<u8>>) -> int
    decreases vs.len(),
{
    if vs.len() == 0 {
        0
    } else {
        total_len(vs.drop_last()) + vs.last().len()
    }
}

/// Token `toks[k]` rewritten to `vs[k]`, for the first `n` of each.
pub open spec fn zip_edits(toks: Seq<usize>, vs: Seq<Seq<u8>>, n: int) -> Seq<(usize, Seq<u8>)> {
    Seq::new(n as nat, |k: int| (toks[k], vs[k]))
}

proof fn lemma_joined_len(vs: Seq<Seq<u8>>)
    ensures
        joined(vs).len() <= total_len(vs) + vs.len(),
        total_len(vs) >= 0,
    decreases vs.len(),
{
    if vs.len() > 0 {
        lemma_joined_len(vs.drop_last());
    }
}

proof fn lemma_total_len_prefix(vs: Seq<Seq<u8>>, n: int)
    requires
        0 <= n <= vs.len(),
    ensures
        0 <= total_len(vs.subrange(0, n)) <= total_len(vs),
    decreases vs.len(),
{
    if n < vs.len() {
        assert(vs.drop_last().subrange(0, n) =~= vs.subrange(0, n));
        lemma_total_len_prefix(vs.drop_last(), n);
    } else {
        assert(vs.subrange(0, n) =~= vs);
    }
    lemma_joined_len(vs);
}

/// The length change of rewriting tokens to new texts is at most the new
/// texts' total length.
proof fn lemma_delta_bound(ts: Seq<Token>, toks: Seq<usize>, vs: Seq<Seq<u8>>, n: int, m: int)
    requires
        0 <= m <= n,
        n <= toks.len(),
        n <= vs.len(),
    ensures
        delta_prefix(ts, zip_edits(toks, vs, n), m) <= total_len(vs.subrange(0, m)),
    decreases m,
{
    if m > 0 {
        lemma_delta_bound(ts, toks, vs, n, m - 1);
        assert(vs.subrange(0, m).drop_last() =~= vs.subrange(0, m - 1));
    }
}

proof fn lemma_coeff_run_sorted(c: Card, i: int)
    requires
        c.spec_tokens().len() <= usize::MAX,
    ensures
        forall|a: int, b: int|
            0 <= a < b < coeff_run(c, i).len() ==> (#[trigger] coeff_run(c, i)[a]) < (
            #[trigger] coeff_run(c, i)[b]),
        forall|a: int| 0 <= a < coeff_run(c, i).len() ==> i <= #[trigger] coeff_run(c, i)[a],
    decreases c.spec_tokens().len() - i,
{
    let ts = c.spec_tokens();
    if 0 <= i < ts.len() {
        match spec_sig(ts, i) {
            Some(k) => if i <= k < ts.len() && spec_float_at(c, k) {
                lemma_coeff_run_sorted(c, k + 1);
                let r = coeff_run(c, k + 1);
                let run = coeff_run(c, i);
                assert forall|a: int| 0 < a < run.len() implies run[a] == r[a - 1] by {}
            },
            None => {},
        }
    }
}

/// The tokens a transform's coefficient list rewrites in place: the run of
/// numbers from the first value on, or just the first value's token.
pub open spec fn transform_list(c: Card, first: int) -> Seq<usize> {
    if coeff_run(c, first).len() > 0 {
        coeff_run(c, first)
    } else {
        seq![first as usize]
    }
}

fn join_texts(values: &[&str]) -> (r: Vec<u8>)
    ensures
        r@ == joined(texts_bytes(values@)),
{
    let ghost vs = texts_bytes(values@);
    let mut out: Vec<u8> = Vec::new();
    let mut k: usize = 0;
    while k < values.len()
        invariant
            vs == texts_bytes(values@),
            k <= values@.len(),
            out@ == joined(vs.subrange(0, k as int)),
        decreases values@.len() - k,
    {
        let b = values[k].as_bytes();
        if k > 0 {
            out.push(32u8);
        }
        push_range(&mut out, b, 0, b.len());
        proof {
            assert(b@.subrange(0, b@.len() as int) =~= b@);
            let p = vs.subrange(0, k + 1);
            assert(p.drop_last() =~= vs.subrange(0, k as int));
            assert(p.last() == b@);
            if k == 0 {
                assert(out@ =~= joined(p));
            } else {
                assert(out@ =~= joined(p));
            }
        }
        k = k + 1;
    }
    proof {
        assert(vs.subrange(0, values@.len() as int) =~= vs);
    }
    out
}

fn zip_exec<'b>(toks: &Vec<usize>, values: &[&'b str], n: usize) -> (r: Vec<(usize, &'b [u8])>)
    requires
        n <= toks@.len(),
        n <= values@.len(),
    ensures
        r@.len() == n,
        byte_edits(r@) == zip_edits(toks@, texts_bytes(values@), n as int),
{
    let mut out: Vec<(usize, &'b [u8])> = Vec::new();
    let mut k: usize = 0;
    while k < n
        invariant
            n <= toks@.len(),
            n <= values@.len(),
            k <= n,
            out@.len() == k,
            forall|j: int|
                0 <= j < k ==> (#[trigger] out@[j]).0 == toks@[j] && out@[j].1@ == values@[j].spec_bytes(),
        decreases n - k,
    {
        out.push((toks[k], values[k].as_bytes()));
        k = k + 1;
    }
    assert(byte_edits(out@) =~= zip_edits(toks@, texts_bytes(values@), n as int));
    out
}

/// The id token of a cell, split into its sign and id.
pub open spec fn cell_id_target(c: Card) -> Option<Target> {
    match spec_sig(c.spec_tokens(), 0) {
        Some(t) => token_target(c, t),
        None => None,
    }
}

/// What `set_cell_material` makes of cell `c`: a plain swap of the material
/// token while the cell stays void or stays real; `<material> 0` in place of
/// a void material (a density placeholder appears); `0` in place of the
/// material and density of a real cell becoming void.
pub open spec fn material_set(c: Card, d: Card, material: i64) -> bool {
    let l = spec_cell_layout(c);
    let ts = c.spec_tokens();
    let mt = l.material_tok->0 as int;
    let was_void = l.material == Some(0i64);
    if was_void == (material == 0) {
        token_replaced(c, d, mt, int_text(material as int))
    } else if was_void {
        relexed(
            c,
            d,
            spliced(
                c.spec_text(),
                ts[mt].start as int,
                ts[mt].spec_end(),
                int_text(material as int) + seq![32u8, 48u8],
            ),
        )
    } else {
        relexed(
            c,
            d,
            spliced(
                c.spec_text(),
                ts[mt].start as int,
                ts[l.density_tok->0 as int].spec_end(),
                seq![48u8],
            ),
        )
    }
}

proof fn lemma_density_follows_material(c: Card)
    requires
        c.wf(),
        c.spec_tokens().len() <= usize::MAX,
        spec_cell_layout(c).density_tok is Some,
    ensures
        spec_cell_layout(c).material_tok is Some,
        spec_cell_layout(c).material_tok->0 < spec_cell_layout(c).density_tok->0,
        spec_cell_layout(c).density_tok->0 < c.spec_tokens().len(),
{
    let ts = c.spec_tokens();
    lemma_sig(ts, 0);
    let i0 = spec_sig(ts, 0)->0;
    lemma_sig(ts, i0 + 1);
    let i = spec_sig(ts, i0 + 1)->0;
    lemma_sig(ts, i + 1);
}

/// Two token lists with the same kinds have their significant tokens in the
/// same places.
proof fn lemma_sig_same_kinds(a: Seq<Token>, b: Seq<Token>, k: int)
    requires
        a.len() == b.len(),
        forall|j: int| 0 <= j < a.len() ==> (#[trigger] a[j]).kind == b[j].kind,
    ensures
        spec_sig(a, k) == spec_sig(b, k),
        first_keyword(a, k) == first_keyword(b, k),
    decreases a.len() - k,
{
    if 0 <= k < a.len() {
        lemma_sig_same_kinds(a, b, k + 1);
    }
}

/// Replacing one token's text leaves every other token's text as it was,
/// and the replaced token reads the new text.
proof fn lemma_replaced_texts(c: Card, d: Card, i: int, new: Seq<u8>)
    requires
        c.wf(),
        0 <= i < c.spec_tokens().len(),
        token_replaced(c, d, i, new),
    ensures
        spec_text_at(d, i) == new,
        forall|j: int|
            0 <= j < c.spec_tokens().len() && j != i ==> #[trigger] spec_text_at(d, j)
                == spec_text_at(c, j),
{
    c.lemma_wf();
    let ts = c.spec_tokens();
    let us = d.spec_tokens();
    let t = c.spec_text();
    let u = d.spec_text();
    let a = ts[i].start as int;
    let e = ts[i].spec_end();
    assert(u =~= t.subrange(0, a) + new + t.subrange(e, t.len() as int));
    assert(spec_text_at(d, i) =~= new);
    assert forall|j: int|
        0 <= j < ts.len() && j != i implies #[trigger] spec_text_at(d, j) == spec_text_at(c, j) by {
        if j < i {
            assert(ts[j].spec_end() <= a);
            assert(spec_text_at(d, j) =~= spec_text_at(c, j));
        } else {
            assert(e <= ts[j].start);
            assert(ts[j].spec_end() <= t.len());
            assert(spec_text_at(d, j) =~= spec_text_at(c, j));
        }
    }
}

/// A number written in decimal starts with `-` or a digit.
proof fn lemma_int_text_head(v: i64)
    ensures
        int_text(v as int).len() >= 1,
        int_text(v as int)[0] == 45u8 || (48u8 <= int_text(v as int)[0] <= 57u8),
{
    if v < 0 {
        lemma_digits_of((-(v as int)) as nat);
    } else {
        lemma_digits_of(v as nat);
        assert(crate::lex::spec_is_digit(digits_of(v as nat)[0]));
    }
}

/// Reading a cell back after writing its material: when the material token
/// read as a number and the cell stays void or stays real, the new layout is
/// the old one with the new material in it.
pub proof fn law_set_cell_material_reads_back(c: Card, d: Card, material: i64)
    requires
        c.wf(),
        c.spec_tokens().len() <= usize::MAX,
        spec_cell_layout(c).material is Some,
        (spec_cell_layout(c).material == Some(0i64)) == (material == 0),
        material_set(c, d, material),
    ensures
        spec_cell_layout(d) == (CellLayout { material: Some(material), ..spec_cell_layout(c) }),
{
    let ts = c.spec_tokens();
    let us = d.spec_tokens();
    let l = spec_cell_layout(c);
    let mt = l.material_tok->0 as int;
    lemma_layout_in_range(c);
    lemma_replaced_texts(c, d, mt, int_text(material as int));
    assert forall|k: int| true implies spec_sig(us, k) == spec_sig(ts, k) && first_keyword(us, k)
        == first_keyword(ts, k) by {
        lemma_sig_same_kinds(us, ts, k);
    }
    lemma_sig(ts, 0);
    let i0 = spec_sig(ts, 0)->0;
    lemma_sig(ts, i0 + 1);
    let i = spec_sig(ts, i0 + 1)->0;
    assert(i == mt);
    lemma_sig(ts, i + 1);
    law_int_text_round_trip(material);
    lemma_int_text_head(material);
    assert(!is_kw(d, i, word_like())) by {
        assert(ascii_lower(int_text(material as int)[0]) != word_like()[0]);
    }
    assert(spec_int_at(d, i) == Some(material));
    assert(spec_int_at(d, i0) == spec_int_at(c, i0));
    let cur0 = spec_sig(ts, i + 1);
    if let Some(dt) = cur0 {
        assert(spec_float_at(d, dt) == spec_float_at(c, dt));
    }
    assert forall|a: int, b: int| 0 <= a implies #[trigger] has_number(us, a, b) == has_number(ts, a, b) by {
        if has_number(us, a, b) {
            let k = choose|k: int| a <= k < b && k < us.len() && (#[trigger] us[k]).kind
                == SyntaxKind::Number;
            assert(ts[k].kind == SyntaxKind::Number);
        }
        if has_number(ts, a, b) {
            let k = choose|k: int| a <= k < b && k < ts.len() && (#[trigger] ts[k]).kind
                == SyntaxKind::Number;
            assert(us[k].kind == SyntaxKind::Number);
        }
    }
}

impl Model {
    /// Rewrite this cell's own id token (a sign written before it stays).
    /// Local to this card: references to the old id elsewhere are not moved,
    /// unlike [`Model::renumber_cells`].
    pub fn set_cell_id(&mut self, slot: u32, new_id: i64) -> (r: Result<(), EditError>)
        requires
            old(self).wf(),
            room_for(*old(self), 24),
        ensures
            r == Err::<(), EditError>(EditError::WrongKind) <==> !is_kind(
                *old(self),
                slot,
                CardKind::Cell,
            ),
            r == Err::<(), EditError>(EditError::NoSuchField) <==> is_kind(
                *old(self),
                slot,
                CardKind::Cell,
            ) && cell_id_target(card_of(*old(self), slot)) is None,
            r is Err ==> *final(self) == *old(self),
            r is Ok ==> {
                let t = cell_id_target(card_of(*old(self), slot))->0;
                &&& edited(*old(self), *final(self), slot)
                &&& token_replaced(
                    card_of(*old(self), slot),
                    card_of(*final(self), slot),
                    t.0 as int,
                    new_text(t, new_id),
                )
            },
    {
        let card = match self.cst().card(slot) {
            Some(c) => c,
            None => return Err(EditError::WrongKind),
        };
        if card.kind() != CardKind::Cell {
            return Err(EditError::WrongKind);
        }
        let ntoks = card.tokens().len();
        proof {
            self.spec_cst().lemma_live(slot as int);
            assert(self.spec_cst().live(slot as int));
            lemma_sig(card.spec_tokens(), 0);
        }
        let id_tok = match sig(card, 0) {
            Some(t) => t,
            None => return Err(EditError::NoSuchField),
        };
        let target = match token_target_exec(card, id_tok) {
            Some(t) => t,
            None => return Err(EditError::NoSuchField),
        };
        let mut text = target.1;
        let mut digits = fmt_int(new_id);
        text.append(&mut digits);
        proof {
            lemma_int_text_len(new_id);
            assert(text@ == new_text(crate::renumber::target_view((target.0, target.1, target.2)), new_id));
            assert(self.spec_cst().live(slot as int));
        }
        self.cst_mut().set_token_in(slot, id_tok, text.as_slice());
        Ok(())
    }

    /// Set a cell's material number, crossing the void boundary as needed:
    /// going void to real inserts a `0` density placeholder after the new
    /// material, going real to void drops the density field. Geometry and
    /// parameters are untouched.
    pub fn set_cell_material(&mut self, slot: u32, material: i64) -> (r: Result<(), EditError>)
        requires
            old(self).wf(),
            room_for(*old(self), 24),
        ensures
            r == Err::<(), EditError>(EditError::WrongKind) <==> !is_kind(
                *old(self),
                slot,
                CardKind::Cell,
            ),
            r == Err::<(), EditError>(EditError::NoSuchField) <==> is_kind(
                *old(self),
                slot,
                CardKind::Cell,
            ) && {
                let l = spec_cell_layout(card_of(*old(self), slot));
                l.material_tok is None || (l.material != Some(0i64) && material == 0
                    && l.density_tok is None)
            },
            r is Err ==> *final(self) == *old(self),
            r is Ok ==> edited(*old(self), *final(self), slot) && material_set(
                card_of(*old(self), slot),
                card_of(*final(self), slot),
                material,
            ),
    {
        let card = match self.cst().card(slot) {
            Some(c) => c,
            None => return Err(EditError::WrongKind),
        };
        if card.kind() != CardKind::Cell {
            return Err(EditError::WrongKind);
        }
        let ntoks = card.tokens().len();
        proof {
            self.spec_cst().lemma_live(slot as int);
            assert(self.spec_cst().live(slot as int));
            card.lemma_wf();
            lemma_layout_in_range(*card);
            lemma_int_text_len(material);
        }
        let l = cell_layout(card);
        let mat_tok = match l.material_tok {
            Some(t) => t,
            None => return Err(EditError::NoSuchField),
        };
        let mt = card.tokens()[mat_tok];
        let mat_start = mt.start as usize;
        let mat_end = (mt.start + mt.len) as usize;
        let currently_void = match l.material {
            Some(v) => v == 0,
            None => false,
        };
        let becoming_void = material == 0;
        if currently_void == becoming_void {
            let text = fmt_int(material);
            self.cst_mut().set_token_in(slot, mat_tok, text.as_slice());
        } else if currently_void {
            let mut text = fmt_int(material);
            let ghost digits = text@;
            text.push(32u8);
            text.push(48u8);
            assert(text@ =~= int_text(material as int) + seq![32u8, 48u8]);
            self.cst_mut().splice_in(slot, mat_start, mat_end, text.as_slice());
        } else {
            let d = match l.density_tok {
                Some(d) => d,
                None => return Err(EditError::NoSuchField),
            };
            proof {
                lemma_density_follows_material(*card);
            }
            let dt = card.tokens()[d];
            let dens_end = (dt.start + dt.len) as usize;
            let text: Vec<u8> = vec![48u8];
            assert(text@ =~= seq![48u8]);
            self.cst_mut().splice_in(slot, mat_start, dens_end, text.as_slice());
        }
        Ok(())
    }

    /// Set a cell's density to the given number text. A void cell has no
    /// density field, so that is refused rather than invented.
    pub fn set_cell_density(&mut self, slot: u32, density: &str) -> (r: Result<(), EditError>)
        requires
            old(self).wf(),
            room_for(*old(self), density.spec_bytes().len() as int),
        ensures
            r == Err::<(), EditError>(EditError::WrongKind) <==> !is_kind(
                *old(self),
                slot,
                CardKind::Cell,
            ),
            r == Err::<(), EditError>(EditError::NoSuchField) <==> is_kind(
                *old(self),
                slot,
                CardKind::Cell,
            ) && spec_cell_layout(card_of(*old(self), slot)).density_tok is None,
            r is Err ==> *final(self) == *old(self),
            r is Ok ==> edited(*old(self), *final(self), slot) && token_replaced(
                card_of(*old(self), slot),
                card_of(*final(self), slot),
                spec_cell_layout(card_of(*old(self), slot)).density_tok->0 as int,
                density.spec_bytes(),
            ),
    {
        let card = match self.cst().card(slot) {
            Some(c) => c,
            None => return Err(EditError::WrongKind),
        };
        if card.kind() != CardKind::Cell {
            return Err(EditError::WrongKind);
        }
        let ntoks = card.tokens().len();
        proof {
            self.spec_cst().lemma_live(slot as int);
            assert(self.spec_cst().live(slot as int));
            card.lemma_wf();
        }
        let l = cell_layout(card);
        let d = match l.density_tok {
            Some(d) => d,
            None => return Err(EditError::NoSuchField),
        };
        proof {
            lemma_density_follows_material(*card);
        }
        self.cst_mut().set_token_in(slot, d, density.as_bytes());
        Ok(())
    }

    /// Set the value of an existing keyword parameter (`imp:n`, `vol`,
    /// `fill`), found by its qualified key without regard to ASCII case: the
    /// value's tokens are replaced by `value` and the card re-lexed. `false`
    /// when the cell has no such parameter, or only a bare keyword without a
    /// value; everything else on the card stays byte for byte.
    pub fn set_cell_param(&mut self, slot: u32, key: &str, value: &str) -> (r: Result<
        bool,
        EditError,
    >)
        requires
            old(self).wf(),
            room_for(*old(self), value.spec_bytes().len() as int),
        ensures
            r == Err::<bool, EditError>(EditError::WrongKind) <==> !is_kind(
                *old(self),
                slot,
                CardKind::Cell,
            ),
            r is Err || r == Ok::<bool, EditError>(false) ==> *final(self) == *old(self),
            is_kind(*old(self), slot, CardKind::Cell) ==> {
                let c = card_of(*old(self), slot);
                let ps = cell_params(c);
                let f = first_param(c, ps, key.spec_bytes());
                let ts = c.spec_tokens();
                &&& (r == Ok::<bool, EditError>(false) <==> (f is None || ps[f->0].value_start
                    >= ps[f->0].value_end))
                &&& r == Ok::<bool, EditError>(true) ==> edited(*old(self), *final(self), slot)
                    && relexed(
                    c,
                    card_of(*final(self), slot),
                    spliced(
                        c.spec_text(),
                        ts[ps[f->0].value_start].start as int,
                        ts[ps[f->0].value_end - 1].spec_end(),
                        value.spec_bytes(),
                    ),
                )
            },
    {
        let card = match self.cst().card(slot) {
            Some(c) => c,
            None => return Err(EditError::WrongKind),
        };
        if card.kind() != CardKind::Cell {
            return Err(EditError::WrongKind);
        }
        let ntoks = card.tokens().len();
        proof {
            self.spec_cst().lemma_live(slot as int);
            assert(self.spec_cst().live(slot as int));
            card.lemma_wf();
        }
        let ghost c = *card;
        let view = CellView::new(self, slot);
        let p = match view.param(key.as_bytes()) {
            Some(p) => p,
            None => return Ok(false),
        };
        if p.value_start >= p.value_end {
            return Ok(false);
        }
        proof {
            let l = spec_cell_layout(c);
            lemma_params_values(c, l.params_start as int, spec_params_end(c));
            lemma_first_param(c, cell_params(c), key.spec_bytes());
            c.lemma_wf();
        }
        let toks = card.tokens();
        let from = toks[p.value_start].start as usize;
        let last = toks[p.value_end - 1];
        let to = (last.start + last.len) as usize;
        self.cst_mut().splice_in(slot, from, to, value.as_bytes());
        Ok(true)
    }

    /// Remove a cell's keyword parameter, found by qualified key: its keyword,
    /// its value and one separating space before it. `false` when the cell
    /// has no such parameter.
    pub fn remove_cell_param(&mut self, slot: u32, key: &str) -> (r: Result<bool, EditError>)
        requires
            old(self).wf(),
        ensures
            r == Err::<bool, EditError>(EditError::WrongKind) <==> !is_kind(
                *old(self),
                slot,
                CardKind::Cell,
            ),
            r is Err || r == Ok::<bool, EditError>(false) ==> *final(self) == *old(self),
            is_kind(*old(self), slot, CardKind::Cell) ==> {
                let c = card_of(*old(self), slot);
                let ps = cell_params(c);
                let f = first_param(c, ps, key.spec_bytes());
                &&& (r == Ok::<bool, EditError>(false) <==> f is None)
                &&& r == Ok::<bool, EditError>(true) ==> edited(*old(self), *final(self), slot)
                    && relexed(
                    c,
                    card_of(*final(self), slot),
                    spliced(
                        c.spec_text(),
                        param_cut_start(c, ps[f->0]),
                        param_end(c, ps[f->0]),
                        Seq::empty(),
                    ),
                )
            },
    {
        let card = match self.cst().card(slot) {
            Some(c) => c,
            None => return Err(EditError::WrongKind),
        };
        if card.kind() != CardKind::Cell {
            return Err(EditError::WrongKind);
        }
        let ntoks = card.tokens().len();
        proof {
            self.spec_cst().lemma_live(slot as int);
            assert(self.spec_cst().live(slot as int));
            card.lemma_wf();
        }
        let ghost c = *card;
        let view = CellView::new(self, slot);
        let p = match view.param(key.as_bytes()) {
            Some(p) => p,
            None => return Ok(false),
        };
        proof {
            let l = spec_cell_layout(c);
            lemma_params_values(c, l.params_start as int, spec_params_end(c));
            lemma_params_in_range(c, l.params_start as int, spec_params_end(c));
            lemma_first_param(c, cell_params(c), key.spec_bytes());
            c.lemma_wf();
        }
        let toks = card.tokens();
        let kt = toks[p.key_token];
        let mut start = kt.start as usize;
        let end = if p.value_end > p.value_start {
            let last = toks[p.value_end - 1];
            (last.start + last.len) as usize
        } else {
            (kt.start + kt.len) as usize
        };
        if start > 0 && card.text()[start - 1] == 32u8 {
            start = start - 1;
        }
        let empty: Vec<u8> = Vec::new();
        assert(empty@ =~= Seq::<u8>::empty());
        self.cst_mut().splice_in(slot, start, end, empty.as_slice());
        Ok(true)
    }

    /// Append a keyword parameter (`imp:n=1`, `vol=3`) to a cell, after its
    /// last significant token and so before any trailing `$` comment.
    pub fn add_cell_param(&mut self, slot: u32, text: &str) -> (r: Result<(), EditError>)
        requires
            old(self).wf(),
            room_for(*old(self), text.spec_bytes().len() + 1int),
        ensures
            r == Err::<(), EditError>(EditError::WrongKind) <==> !is_kind(
                *old(self),
                slot,
                CardKind::Cell,
            ),
            r is Err ==> *final(self) == *old(self),
            r is Ok ==> {
                let c = card_of(*old(self), slot);
                let at = append_pos(c);
                &&& edited(*old(self), *final(self), slot)
                &&& relexed(
                    c,
                    card_of(*final(self), slot),
                    spliced(c.spec_text(), at, at, seq![32u8] + spec_trim(text.spec_bytes())),
                )
            },
    {
        let card = match self.cst().card(slot) {
            Some(c) => c,
            None => return Err(EditError::WrongKind),
        };
        if card.kind() != CardKind::Cell {
            return Err(EditError::WrongKind);
        }
        proof {
            self.spec_cst().lemma_live(slot as int);
            assert(self.spec_cst().live(slot as int));
        }
        let at = append_pos_exec(card);
        let mut ins: Vec<u8> = vec![32u8];
        let t = trim(text.as_bytes());
        push_range(&mut ins, t, 0, t.len());
        proof {
            assert(t@.subrange(0, t@.len() as int) =~= t@);
            assert(ins@ =~= seq![32u8] + spec_trim(text.spec_bytes()));
            lemma_trim_len(text.spec_bytes());
        }
        self.cst_mut().splice_in(slot, at, at, ins.as_slice());
        Ok(())
    }

    /// Append an inline `$` comment to any card, before its line terminator;
    /// `$ ` is put in front unless the text already starts with `$`.
    pub fn append_inline_comment(&mut self, slot: u32, text: &str) -> (r: Result<(), EditError>)
        requires
            old(self).wf(),
            room_for(*old(self), text.spec_bytes().len() + 3int),
        ensures
            r == Err::<(), EditError>(EditError::WrongKind) <==> !old(self).spec_cst().live(
                slot as int,
            ),
            r is Err ==> *final(self) == *old(self),
            r is Ok ==> {
                let c = card_of(*old(self), slot);
                let at = spec_content_end(c.spec_text());
                &&& edited(*old(self), *final(self), slot)
                &&& relexed(
                    c,
                    card_of(*final(self), slot),
                    spliced(c.spec_text(), at, at, seq![32u8] + comment_body(text.spec_bytes())),
                )
            },
    {
        let card = match self.cst().card(slot) {
            Some(c) => c,
            None => return Err(EditError::WrongKind),
        };
        proof {
            self.spec_cst().lemma_live(slot as int);
            assert(self.spec_cst().live(slot as int));
            card.lemma_wf();
        }
        let at = content_end(card.text());
        let t = trim(text.as_bytes());
        let mut ins: Vec<u8> = vec![32u8];
        if !(t.len() > 0 && t[0] == 36u8) {
            ins.push(36u8);
            ins.push(32u8);
        }
        push_range(&mut ins, t, 0, t.len());
        proof {
            assert(t@.subrange(0, t@.len() as int) =~= t@);
            assert(ins@ =~= seq![32u8] + comment_body(text.spec_bytes()));
            lemma_trim_len(text.spec_bytes());
        }
        self.cst_mut().splice_in(slot, at, at, ins.as_slice());
        Ok(())
    }

    /// [`Model::append_inline_comment`] on a cell only.
    pub fn append_cell_comment(&mut self, slot: u32, text: &str) -> (r: Result<(), EditError>)
        requires
            old(self).wf(),
            room_for(*old(self), text.spec_bytes().len() + 3int),
        ensures
            r == Err::<(), EditError>(EditError::WrongKind) <==> !is_kind(
                *old(self),
                slot,
                CardKind::Cell,
            ),
            r is Err ==> *final(self) == *old(self),
            r is Ok ==> {
                let c = card_of(*old(self), slot);
                let at = spec_content_end(c.spec_text());
                &&& edited(*old(self), *final(self), slot)
                &&& relexed(
                    c,
                    card_of(*final(self), slot),
                    spliced(c.spec_text(), at, at, seq![32u8] + comment_body(text.spec_bytes())),
                )
            },
    {
        let is_cell = match self.cst().card(slot) {
            Some(c) => c.kind() == CardKind::Cell,
            None => false,
        };
        if !is_cell {
            return Err(EditError::WrongKind);
        }
        self.append_inline_comment(slot, text)
    }

    /// Rewrite this surface's own id (a `+` white-boundary marker inside the
    /// id token stays). Local to this card, unlike
    /// [`Model::renumber_surfaces`].
    pub fn set_surface_id(&mut self, slot: u32, new_id: i64) -> (r: Result<(), EditError>)
        requires
            old(self).wf(),
            room_for(*old(self), 24),
        ensures
            r == Err::<(), EditError>(EditError::WrongKind) <==> !is_kind(
                *old(self),
                slot,
                CardKind::Surface,
            ),
            r == Err::<(), EditError>(EditError::NoSuchField) <==> is_kind(
                *old(self),
                slot,
                CardKind::Surface,
            ) && surface_id_target(card_of(*old(self), slot)) is None,
            r is Err ==> *final(self) == *old(self),
            r is Ok ==> {
                let t = surface_id_target(card_of(*old(self), slot))->0;
                &&& edited(*old(self), *final(self), slot)
                &&& token_replaced(
                    card_of(*old(self), slot),
                    card_of(*final(self), slot),
                    t.0 as int,
                    new_text(t, new_id),
                )
            },
    {
        let card = match self.cst().card(slot) {
            Some(c) => c,
            None => return Err(EditError::WrongKind),
        };
        if card.kind() != CardKind::Surface {
            return Err(EditError::WrongKind);
        }
        let ntoks = card.tokens().len();
        proof {
            self.spec_cst().lemma_live(slot as int);
            assert(self.spec_cst().live(slot as int));
            lemma_mnemonic_in_range(*card);
        }
        let l = surface_layout(card);
        let id_tok = match l.id_tok {
            Some(t) => t,
            None => return Err(EditError::NoSuchField),
        };
        let target = match token_target_exec(card, id_tok) {
            Some(t) => t,
            None => return Err(EditError::NoSuchField),
        };
        let mut text = target.1;
        let mut digits = fmt_int(new_id);
        text.append(&mut digits);
        proof {
            lemma_int_text_len(new_id);
            assert(text@ == new_text(crate::renumber::target_view((target.0, target.1, target.2)), new_id));
        }
        self.cst_mut().set_token_in(slot, id_tok, text.as_slice());
        Ok(())
    }

    /// Set or clear a surface's leading `*` reflective marker. Setting it
    /// also drops a `+` white marker (the two exclude each other); clearing it
    /// leaves the id as written.
    pub fn set_surface_reflective(&mut self, slot: u32, value: bool) -> (r: Result<(), EditError>)
        requires
            old(self).wf(),
            room_for(*old(self), 1),
        ensures
            r == Err::<(), EditError>(EditError::WrongKind) <==> !is_kind(
                *old(self),
                slot,
                CardKind::Surface,
            ),
            r == Err::<(), EditError>(EditError::NoSuchField) <==> is_kind(
                *old(self),
                slot,
                CardKind::Surface,
            ) && spec_surface_layout(card_of(*old(self), slot)).id_tok is None,
            r is Err ==> *final(self) == *old(self),
            r is Ok ==> {
                let c = card_of(*old(self), slot);
                let l = spec_surface_layout(c);
                let id = l.id_tok->0 as int;
                let id_text = spec_text_at(c, id);
                &&& edited(*old(self), *final(self), slot)
                &&& relexed(
                    c,
                    card_of(*final(self), slot),
                    spliced(
                        c.spec_text(),
                        marker_start(c, l),
                        c.spec_tokens()[id].spec_end(),
                        if value {
                            seq![42u8] + strip_plus(id_text)
                        } else {
                            id_text
                        },
                    ),
                )
            },
    {
        let card = match self.cst().card(slot) {
            Some(c) => c,
            None => return Err(EditError::WrongKind),
        };
        if card.kind() != CardKind::Surface {
            return Err(EditError::WrongKind);
        }
        let ntoks = card.tokens().len();
        proof {
            self.spec_cst().lemma_live(slot as int);
            assert(self.spec_cst().live(slot as int));
            lemma_mnemonic_in_range(*card);
            lemma_star_before_id(*card);
            card.lemma_wf();
        }
        let l = surface_layout(card);
        let id_tok = match l.id_tok {
            Some(t) => t,
            None => return Err(EditError::NoSuchField),
        };
        let toks = card.tokens();
        let it = toks[id_tok];
        let id_end = (it.start + it.len) as usize;
        let from = match l.star_tok {
            Some(t) => toks[t].start as usize,
            None => it.start as usize,
        };
        let id_text = card.token_text(id_tok);
        let mut rep: Vec<u8> = Vec::new();
        if value {
            rep.push(42u8);
            let s: usize = if id_text.len() > 0 && id_text[0] == 43u8 {
                1
            } else {
                0
            };
            push_range(&mut rep, id_text, s, id_text.len());
            proof {
                assert(rep@ =~= seq![42u8] + strip_plus(id_text@));
            }
        } else {
            push_range(&mut rep, id_text, 0, id_text.len());
            proof {
                assert(rep@ =~= id_text@);
            }
        }
        self.cst_mut().splice_in(slot, from, id_end, rep.as_slice());
        Ok(())
    }

    /// Set or clear a surface's `+` white-boundary marker, which lives inside
    /// the id token. Setting it also drops a `*` reflective marker; clearing
    /// it leaves a `*` alone.
    pub fn set_surface_white(&mut self, slot: u32, value: bool) -> (r: Result<(), EditError>)
        requires
            old(self).wf(),
            room_for(*old(self), 1),
        ensures
            r == Err::<(), EditError>(EditError::WrongKind) <==> !is_kind(
                *old(self),
                slot,
                CardKind::Surface,
            ),
            r == Err::<(), EditError>(EditError::NoSuchField) <==> is_kind(
                *old(self),
                slot,
                CardKind::Surface,
            ) && spec_surface_layout(card_of(*old(self), slot)).id_tok is None,
            r is Err ==> *final(self) == *old(self),
            r is Ok ==> {
                let c = card_of(*old(self), slot);
                let l = spec_surface_layout(c);
                let id = l.id_tok->0 as int;
                let digits = strip_plus(spec_text_at(c, id));
                &&& edited(*old(self), *final(self), slot)
                &&& relexed(
                    c,
                    card_of(*final(self), slot),
                    if value {
                        spliced(
                            c.spec_text(),
                            marker_start(c, l),
                            c.spec_tokens()[id].spec_end(),
                            seq![43u8] + digits,
                        )
                    } else {
                        spliced(
                            c.spec_text(),
                            c.spec_tokens()[id].start as int,
                            c.spec_tokens()[id].spec_end(),
                            digits,
                        )
                    },
                )
            },
    {
        let card = match self.cst().card(slot) {
            Some(c) => c,
            None => return Err(EditError::WrongKind),
        };
        if card.kind() != CardKind::Surface {
            return Err(EditError::WrongKind);
        }
        let ntoks = card.tokens().len();
        proof {
            self.spec_cst().lemma_live(slot as int);
            assert(self.spec_cst().live(slot as int));
            lemma_mnemonic_in_range(*card);
            lemma_star_before_id(*card);
            card.lemma_wf();
        }
        let l = surface_layout(card);
        let id_tok = match l.id_tok {
            Some(t) => t,
            None => return Err(EditError::NoSuchField),
        };
        let toks = card.tokens();
        let it = toks[id_tok];
        let id_start = it.start as usize;
        let id_end = (it.start + it.len) as usize;
        let id_text = card.token_text(id_tok);
        let s: usize = if id_text.len() > 0 && id_text[0] == 43u8 {
            1
        } else {
            0
        };
        let mut rep: Vec<u8> = Vec::new();
        if value {
            rep.push(43u8);
        }
        push_range(&mut rep, id_text, s, id_text.len());
        let from = if value {
            match l.star_tok {
                Some(t) => toks[t].start as usize,
                None => id_start,
            }
        } else {
            id_start
        };
        proof {
            if value {
                assert(rep@ =~= seq![43u8] + strip_plus(id_text@));
            } else {
                assert(rep@ =~= strip_plus(id_text@));
            }
        }
        self.cst_mut().splice_in(slot, from, id_end, rep.as_slice());
        Ok(())
    }

    /// Replace one coefficient of a surface, by position, with the given
    /// number text.
    pub fn set_surface_coeff(&mut self, slot: u32, index: usize, value: &str) -> (r: Result<
        (),
        EditError,
    >)
        requires
            old(self).wf(),
            room_for(*old(self), value.spec_bytes().len() as int),
        ensures
            r == Err::<(), EditError>(EditError::WrongKind) <==> !is_kind(
                *old(self),
                slot,
                CardKind::Surface,
            ),
            r == Err::<(), EditError>(EditError::NoSuchField) <==> is_kind(
                *old(self),
                slot,
                CardKind::Surface,
            ) && index >= surface_coeffs(card_of(*old(self), slot)).len(),
            r is Err ==> *final(self) == *old(self),
            r is Ok ==> edited(*old(self), *final(self), slot) && token_replaced(
                card_of(*old(self), slot),
                card_of(*final(self), slot),
                surface_coeffs(card_of(*old(self), slot))[index as int] as int,
                value.spec_bytes(),
            ),
    {
        let card = match self.cst().card(slot) {
            Some(c) => c,
            None => return Err(EditError::WrongKind),
        };
        if card.kind() != CardKind::Surface {
            return Err(EditError::WrongKind);
        }
        proof {
            self.spec_cst().lemma_live(slot as int);
            assert(self.spec_cst().live(slot as int));
        }
        let l = surface_layout(card);
        let toks = coeff_tokens(card, &l);
        if index >= toks.len() {
            return Err(EditError::NoSuchField);
        }
        let t = toks[index];
        proof {
            lemma_coeff_run_in_range(*card, l.coeffs_start as int);
        }
        self.cst_mut().set_token_in(slot, t, value.as_bytes());
        Ok(())
    }

    /// Set, replace or drop a surface's transform number. `Some(n)` writes
    /// `n` in place of the current one, or inserts `n ` before the mnemonic
    /// when there is none; `None` drops the transform and the space up to the
    /// mnemonic. A negative `n` (a periodic surface) is written as given.
    pub fn set_surface_transform(&mut self, slot: u32, transform: Option<i64>) -> (r: Result<
        (),
        EditError,
    >)
        requires
            old(self).wf(),
            room_for(*old(self), 24),
        ensures
            r == Err::<(), EditError>(EditError::WrongKind) <==> !is_kind(
                *old(self),
                slot,
                CardKind::Surface,
            ),
            r == Err::<(), EditError>(EditError::NoSuchField) <==> is_kind(
                *old(self),
                slot,
                CardKind::Surface,
            ) && transform is Some && spec_surface_layout(card_of(*old(self), slot)).transform_tok is None
                && spec_surface_layout(card_of(*old(self), slot)).mnemonic_tok is None,
            r is Err ==> *final(self) == *old(self),
            r is Ok ==> {
                let c = card_of(*old(self), slot);
                let d = card_of(*final(self), slot);
                let l = spec_surface_layout(c);
                let ts = c.spec_tokens();
                match (transform, l.transform_tok) {
                    (Some(n), Some(t)) => edited(*old(self), *final(self), slot) && token_replaced(
                        c,
                        d,
                        t as int,
                        int_text(n as int),
                    ),
                    (Some(n), None) => {
                        let at = ts[l.mnemonic_tok->0 as int].start as int;
                        edited(*old(self), *final(self), slot) && relexed(
                            c,
                            d,
                            spliced(c.spec_text(), at, at, int_text(n as int) + seq![32u8]),
                        )
                    },
                    (None, Some(t)) => edited(*old(self), *final(self), slot) && relexed(
                        c,
                        d,
                        spliced(
                            c.spec_text(),
                            ts[t as int].start as int,
                            ts[l.mnemonic_tok->0 as int].start as int,
                            Seq::empty(),
                        ),
                    ),
                    (None, None) => *final(self) == *old(self),
                }
            },
    {
        let card = match self.cst().card(slot) {
            Some(c) => c,
            None => return Err(EditError::WrongKind),
        };
        if card.kind() != CardKind::Surface {
            return Err(EditError::WrongKind);
        }
        let ntoks = card.tokens().len();
        proof {
            self.spec_cst().lemma_live(slot as int);
            assert(self.spec_cst().live(slot as int));
            lemma_mnemonic_in_range(*card);
            lemma_transform_before_mnemonic(*card);
            card.lemma_wf();
        }
        let l = surface_layout(card);
        let toks = card.tokens();
        match (transform, l.transform_tok) {
            (Some(n), Some(t)) => {
                let text = fmt_int(n);
                proof {
                    lemma_int_text_len(n);
                }
                self.cst_mut().set_token_in(slot, t, text.as_slice());
            },
            (Some(n), None) => {
                let m = match l.mnemonic_tok {
                    Some(m) => m,
                    None => return Err(EditError::NoSuchField),
                };
                let at = toks[m].start as usize;
                let mut text = fmt_int(n);
                text.push(32u8);
                proof {
                    lemma_int_text_len(n);
                    assert(text@ =~= int_text(n as int) + seq![32u8]);
                }
                self.cst_mut().splice_in(slot, at, at, text.as_slice());
            },
            (None, Some(t)) => {
                let start = toks[t].start as usize;
                let end = match l.mnemonic_tok {
                    Some(m) => toks[m].start as usize,
                    None => start,
                };
                let empty: Vec<u8> = Vec::new();
                assert(empty@ =~= Seq::<u8>::empty());
                self.cst_mut().splice_in(slot, start, end, empty.as_slice());
            },
            (None, None) => {},
        }
        Ok(())
    }

    /// Rewrite this material's own id (`m1` to `m501`; the name's letters
    /// keep their case). Local to this card, unlike
    /// [`Model::renumber_materials`].
    pub fn set_material_id(&mut self, slot: u32, new_id: i64) -> (r: Result<(), EditError>)
        requires
            old(self).wf(),
            room_for(*old(self), 24),
        ensures
            r == Err::<(), EditError>(EditError::WrongKind) <==> !(old(self).spec_cst().live(
                slot as int,
            ) && head_with(card_of(*old(self), slot), Family::Material) is Some),
            r == Err::<(), EditError>(EditError::NoSuchField) <==> old(self).spec_cst().live(
                slot as int,
            ) && head_with(card_of(*old(self), slot), Family::Material) is Some && name_target(
                card_of(*old(self), slot),
                spec_head(card_of(*old(self), slot))->0.name_tok as int,
            ) is None,
            r is Err ==> *final(self) == *old(self),
            r is Ok ==> {
                let c = card_of(*old(self), slot);
                let t = name_target(c, spec_head(c)->0.name_tok as int)->0;
                &&& edited(*old(self), *final(self), slot)
                &&& token_replaced(c, card_of(*final(self), slot), t.0 as int, new_text(t, new_id))
            },
    {
        let card = match self.cst().card(slot) {
            Some(c) => c,
            None => return Err(EditError::WrongKind),
        };
        let ntoks = card.tokens().len();
        proof {
            self.spec_cst().lemma_live(slot as int);
            assert(self.spec_cst().live(slot as int));
            lemma_head_in_range(*card);
        }
        let h = match head(card) {
            Some(h) => h,
            None => return Err(EditError::WrongKind),
        };
        if material_id(&h).is_none() {
            return Err(EditError::WrongKind);
        }
        let target = match name_target_exec(card, h.name_tok) {
            Some(t) => t,
            None => return Err(EditError::NoSuchField),
        };
        let mut text = target.1;
        let mut digits = fmt_int(new_id);
        text.append(&mut digits);
        proof {
            lemma_int_text_len(new_id);
            lemma_name_target_len(*card, h.name_tok as int);
            card.lemma_wf();
            assert(spec_text_at(*card, h.name_tok as int).len() == card.spec_tokens()[h.name_tok as int].len);
            assert(text@ == new_text(crate::renumber::target_view((target.0, target.1, target.2)), new_id));
        }
        self.cst_mut().set_token_in(slot, h.name_tok, text.as_slice());
        Ok(())
    }

    /// Set the fraction of one material entry, by position, to the given
    /// number text (a negative fraction is by weight).
    pub fn set_material_fraction(&mut self, slot: u32, entry: usize, value: &str) -> (r: Result<(), EditError>)
        requires
            old(self).wf(),
            room_for(*old(self), value.spec_bytes().len() as int),
        ensures
            r == Err::<(), EditError>(EditError::WrongKind) <==> !(old(self).spec_cst().live(
                slot as int,
            ) && head_with(card_of(*old(self), slot), Family::Material) is Some),
            r == Err::<(), EditError>(EditError::NoSuchField) <==> old(self).spec_cst().live(
                slot as int,
            ) && head_with(card_of(*old(self), slot), Family::Material) is Some && entry
                >= material_entries(card_of(*old(self), slot)).len(),
            r is Err ==> *final(self) == *old(self),
            r is Ok ==> edited(*old(self), *final(self), slot) && token_replaced(
                card_of(*old(self), slot),
                card_of(*final(self), slot),
                material_entries(card_of(*old(self), slot))[entry as int].1 as int,
                value.spec_bytes(),
            ),
    {
        let card = match self.cst().card(slot) {
            Some(c) => c,
            None => return Err(EditError::WrongKind),
        };
        proof {
            self.spec_cst().lemma_live(slot as int);
            assert(self.spec_cst().live(slot as int));
        }
        let h = match head(card) {
            Some(h) => h,
            None => return Err(EditError::WrongKind),
        };
        if material_id(&h).is_none() {
            return Err(EditError::WrongKind);
        }
        let (entries, _) = material_entry_tokens(card, &h);
        if entry >= entries.len() {
            return Err(EditError::NoSuchField);
        }
        let t = entries[entry].1;
        proof {
            lemma_entries_in_range(*card, h.values_start as int);
            assert(entries@[entry as int] == entries_from(*card, h.values_start as int).0[entry as int]);
        }
        self.cst_mut().set_token_in(slot, t, value.as_bytes());
        Ok(())
    }

    /// Set the ZAID of one material entry, by position; a library suffix
    /// is part of the text given (`1001.31c`).
    pub fn set_material_zaid(&mut self, slot: u32, entry: usize, zaid: &str) -> (r: Result<(), EditError>)
        requires
            old(self).wf(),
            room_for(*old(self), zaid.spec_bytes().len() as int),
        ensures
            r == Err::<(), EditError>(EditError::WrongKind) <==> !(old(self).spec_cst().live(
                slot as int,
            ) && head_with(card_of(*old(self), slot), Family::Material) is Some),
            r == Err::<(), EditError>(EditError::NoSuchField) <==> old(self).spec_cst().live(
                slot as int,
            ) && head_with(card_of(*old(self), slot), Family::Material) is Some && entry
                >= material_entries(card_of(*old(self), slot)).len(),
            r is Err ==> *final(self) == *old(self),
            r is Ok ==> edited(*old(self), *final(self), slot) && token_replaced(
                card_of(*old(self), slot),
                card_of(*final(self), slot),
                material_entries(card_of(*old(self), slot))[entry as int].0 as int,
                zaid.spec_bytes(),
            ),
    {
        let card = match self.cst().card(slot) {
            Some(c) => c,
            None => return Err(EditError::WrongKind),
        };
        proof {
            self.spec_cst().lemma_live(slot as int);
            assert(self.spec_cst().live(slot as int));
        }
        let h = match head(card) {
            Some(h) => h,
            None => return Err(EditError::WrongKind),
        };
        if material_id(&h).is_none() {
            return Err(EditError::WrongKind);
        }
        let (entries, _) = material_entry_tokens(card, &h);
        if entry >= entries.len() {
            return Err(EditError::NoSuchField);
        }
        let t = entries[entry].0;
        proof {
            lemma_entries_in_range(*card, h.values_start as int);
            assert(entries@[entry as int] == entries_from(*card, h.values_start as int).0[entry as int]);
        }
        self.cst_mut().set_token_in(slot, t, zaid.as_bytes());
        Ok(())
    }

    /// Rewrite this transform's own id (`tr1` to `tr501`; a leading `*` and
    /// the name's letters stay as written). Local to this card, unlike
    /// [`Model::renumber_transforms`].
    pub fn set_transform_id(&mut self, slot: u32, new_id: i64) -> (r: Result<(), EditError>)
        requires
            old(self).wf(),
            room_for(*old(self), 24),
        ensures
            r == Err::<(), EditError>(EditError::WrongKind) <==> !(old(self).spec_cst().live(
                slot as int,
            ) && head_with(card_of(*old(self), slot), Family::Transform) is Some),
            r == Err::<(), EditError>(EditError::NoSuchField) <==> old(self).spec_cst().live(
                slot as int,
            ) && head_with(card_of(*old(self), slot), Family::Transform) is Some && name_target(
                card_of(*old(self), slot),
                spec_head(card_of(*old(self), slot))->0.name_tok as int,
            ) is None,
            r is Err ==> *final(self) == *old(self),
            r is Ok ==> {
                let c = card_of(*old(self), slot);
                let t = name_target(c, spec_head(c)->0.name_tok as int)->0;
                &&& edited(*old(self), *final(self), slot)
                &&& token_replaced(c, card_of(*final(self), slot), t.0 as int, new_text(t, new_id))
            },
    {
        let card = match self.cst().card(slot) {
            Some(c) => c,
            None => return Err(EditError::WrongKind),
        };
        let ntoks = card.tokens().len();
        proof {
            self.spec_cst().lemma_live(slot as int);
            assert(self.spec_cst().live(slot as int));
            lemma_head_in_range(*card);
        }
        let h = match head(card) {
            Some(h) => h,
            None => return Err(EditError::WrongKind),
        };
        if transform_id(&h).is_none() {
            return Err(EditError::WrongKind);
        }
        let target = match name_target_exec(card, h.name_tok) {
            Some(t) => t,
            None => return Err(EditError::NoSuchField),
        };
        let mut text = target.1;
        let mut digits = fmt_int(new_id);
        text.append(&mut digits);
        proof {
            lemma_int_text_len(new_id);
            lemma_name_target_len(*card, h.name_tok as int);
            card.lemma_wf();
            assert(spec_text_at(*card, h.name_tok as int).len() == card.spec_tokens()[h.name_tok as int].len);
            assert(text@ == new_text(crate::renumber::target_view((target.0, target.1, target.2)), new_id));
        }
        self.cst_mut().set_token_in(slot, h.name_tok, text.as_slice());
        Ok(())
    }

    fn title_insert_pos(&self) -> (r: usize)
        requires
            self.wf(),
        ensures
            r == title_pos(self.spec_cards()),
            r <= self.spec_cards().len(),
    {
        let ghost cards = self.spec_cards();
        let n = self.cst().len();
        proof {
            lemma_leading_messages(cards, 0);
        }
        let mut i: usize = 0;
        while i < n && self.cst().at(i).unwrap().kind() == CardKind::Message
            invariant
                self.wf(),
                cards == self.spec_cards(),
                n == cards.len(),
                i <= n,
                leading_messages(cards, i as int) == leading_messages(cards, 0),
            decreases n - i,
        {
            i = i + 1;
        }
        if i > 0 && i < n && self.cst().at(i).unwrap().kind() == CardKind::Blank {
            i + 1
        } else {
            i
        }
    }

    fn content_start_pos(&self) -> (r: usize)
        requires
            self.wf(),
        ensures
            r == content_start(self.spec_cards()),
            r <= self.spec_cards().len(),
    {
        let i = self.title_insert_pos();
        if i < self.cst().len() && self.cst().at(i).unwrap().kind() == CardKind::Title {
            i + 1
        } else {
            i
        }
    }

    /// Where a card of `kind` goes when its block has no card left: past
    /// the delimiters that come before that block.
    fn empty_block_insert_pos(&self, kind: CardKind) -> (r: Option<usize>)
        requires
            self.wf(),
        ensures
            match blanks_before(kind) {
                Some(need) => match past_blanks(self.spec_cards(), content_start(self.spec_cards()), need) {
                    Some(p) => r == Some(p as usize) && 0 <= p <= self.spec_cards().len(),
                    None => r is None,
                },
                None => r is None,
            },
    {
        let need: usize = match kind {
            CardKind::Cell => 0,
            CardKind::Surface => 1,
            CardKind::Data => 2,
            _ => return None,
        };
        let ghost cards = self.spec_cards();
        let n = self.cst().len();
        let mut pos = self.content_start_pos();
        let mut seen: usize = 0;
        proof {
            lemma_past_blanks(cards, pos as int, need as int);
            lemma_leading_messages(cards, 0);
        }
        while seen < need
            invariant
                self.wf(),
                cards == self.spec_cards(),
                n == cards.len(),
                pos <= n,
                seen <= need <= 2,
                blanks_before(kind) == Some(need as int),
                past_blanks(cards, pos as int, need - seen) == past_blanks(
                    cards,
                    content_start(cards),
                    need as int,
                ),
            decreases n - pos, need - seen,
        {
            if pos >= n {
                assert(past_blanks(cards, pos as int, need - seen) is None);
                return None;
            }
            if self.cst().at(pos).unwrap().kind() == CardKind::Blank {
                seen = seen + 1;
            }
            pos = pos + 1;
        }
        proof {
            lemma_past_blanks(cards, content_start(cards), need as int);
        }
        Some(pos)
    }

    /// Lex `text`, made a line of the file, as one card of `kind` and put
    /// it at position `at`.
    fn insert_card(&mut self, kind: CardKind, at: usize, text: &[u8]) -> (r: u32)
        requires
            old(self).wf(),
            can_add(*old(self)),
            at <= old(self).spec_cards().len(),
            lexable(text@.len() + 2int),
        ensures
            card_added(
                *old(self),
                *final(self),
                r,
                at as int,
                kind,
                terminated(text@, old(self).spec_cst().spec_eol()),
            ),
    {
        let t = terminate(text, self.cst().eol());
        let card = Card::new(kind, t);
        self.cst_mut().insert_at(at, card)
    }

    fn add_card(&mut self, kind: CardKind, text: &[u8]) -> (r: Result<u32, EditError>)
        requires
            old(self).wf(),
            can_add(*old(self)),
            lexable(text@.len() + 2int),
        ensures
            r == Err::<u32, EditError>(EditError::NoBlock) <==> add_pos(old(self).spec_cards(), kind)
                is None,
            r is Err ==> r == Err::<u32, EditError>(EditError::NoBlock) && *final(self) == *old(self),
            r is Ok ==> card_added(
                *old(self),
                *final(self),
                r->Ok_0,
                add_pos(old(self).spec_cards(), kind)->0,
                kind,
                terminated(text@, old(self).spec_cst().spec_eol()),
            ),
    {
        let ghost cards = self.spec_cards();
        let n = self.cst().len();
        proof {
            lemma_last_of_kind(cards, kind, cards.len() as int);
            self.spec_cst().lemma_wf();
        }
        let at = match self.cst().end_of_block(kind) {
            Some(p) => {
                proof {
                    let q = last_of_kind(cards, kind, cards.len() as int);
                    assert(cards[p - 1] == self.spec_cst().spec_at(p - 1));
                    assert forall|j: int| p <= j < cards.len() implies (#[trigger] cards[j]).spec_kind()
                        != kind by {
                        assert(cards[j] == self.spec_cst().spec_at(j));
                    }
                    if let Some(qq) = q {
                        if qq < p {
                            assert(cards[p - 1].spec_kind() != kind);
                        }
                        if qq > p {
                            assert(cards[qq - 1].spec_kind() != kind);
                        }
                        assert(qq == p);
                    } else {
                        assert(cards[p - 1].spec_kind() == kind);
                    }
                    assert(add_pos(cards, kind) == Some(p as int));
                }
                p
            },
            None => {
                proof {
                    assert forall|j: int| 0 <= j < cards.len() implies (#[trigger] cards[j]).spec_kind()
                        != kind by {
                        assert(cards[j] == self.spec_cst().spec_at(j));
                    }
                    if let Some(qq) = last_of_kind(cards, kind, cards.len() as int) {
                        assert(cards[qq - 1].spec_kind() == kind);
                    }
                }
                assert(last_of_kind(cards, kind, cards.len() as int) is None);
                match self.empty_block_insert_pos(kind) {
                    Some(p) => {
                        assert(add_pos(cards, kind) == Some(p as int));
                        p
                    },
                    None => return Err(EditError::NoBlock),
                }
            },
        };
        assert(add_pos(cards, kind) == Some(at as int));
        Ok(self.insert_card(kind, at, text))
    }

    /// Add a cell at the end of the cell block (or where the cell block
    /// belongs, if it has no card left). It is found by id at once.
    pub fn add_cell(&mut self, text: &str) -> (r: Result<u32, EditError>)
        requires
            old(self).wf(),
            can_add(*old(self)),
            lexable(text.spec_bytes().len() + 2int),
        ensures
            r == Err::<u32, EditError>(EditError::NoBlock) <==> add_pos(
                old(self).spec_cards(),
                CardKind::Cell,
            ) is None,
            r is Err ==> r == Err::<u32, EditError>(EditError::NoBlock) && *final(self) == *old(self),
            r is Ok ==> card_added(
                *old(self),
                *final(self),
                r->Ok_0,
                add_pos(old(self).spec_cards(), CardKind::Cell)->0,
                CardKind::Cell,
                terminated(text.spec_bytes(), old(self).spec_cst().spec_eol()),
            ),
    {
        self.add_card(CardKind::Cell, text.as_bytes())
    }

    /// Add a surface at the end of the surface block.
    pub fn add_surface(&mut self, text: &str) -> (r: Result<u32, EditError>)
        requires
            old(self).wf(),
            can_add(*old(self)),
            lexable(text.spec_bytes().len() + 2int),
        ensures
            r == Err::<u32, EditError>(EditError::NoBlock) <==> add_pos(
                old(self).spec_cards(),
                CardKind::Surface,
            ) is None,
            r is Err ==> r == Err::<u32, EditError>(EditError::NoBlock) && *final(self) == *old(self),
            r is Ok ==> card_added(
                *old(self),
                *final(self),
                r->Ok_0,
                add_pos(old(self).spec_cards(), CardKind::Surface)->0,
                CardKind::Surface,
                terminated(text.spec_bytes(), old(self).spec_cst().spec_eol()),
            ),
    {
        self.add_card(CardKind::Surface, text.as_bytes())
    }

    /// Add a material (`Mn`) card at the end of the data block.
    pub fn add_material(&mut self, text: &str) -> (r: Result<u32, EditError>)
        requires
            old(self).wf(),
            can_add(*old(self)),
            lexable(text.spec_bytes().len() + 2int),
        ensures
            r == Err::<u32, EditError>(EditError::NoBlock) <==> add_pos(
                old(self).spec_cards(),
                CardKind::Data,
            ) is None,
            r is Err ==> r == Err::<u32, EditError>(EditError::NoBlock) && *final(self) == *old(self),
            r is Ok ==> card_added(
                *old(self),
                *final(self),
                r->Ok_0,
                add_pos(old(self).spec_cards(), CardKind::Data)->0,
                CardKind::Data,
                terminated(text.spec_bytes(), old(self).spec_cst().spec_eol()),
            ),
    {
        self.add_card(CardKind::Data, text.as_bytes())
    }

    /// Add a transform (`TRn`, `*TRn`) card at the end of the data block.
    pub fn add_transform(&mut self, text: &str) -> (r: Result<u32, EditError>)
        requires
            old(self).wf(),
            can_add(*old(self)),
            lexable(text.spec_bytes().len() + 2int),
        ensures
            r == Err::<u32, EditError>(EditError::NoBlock) <==> add_pos(
                old(self).spec_cards(),
                CardKind::Data,
            ) is None,
            r is Err ==> r == Err::<u32, EditError>(EditError::NoBlock) && *final(self) == *old(self),
            r is Ok ==> card_added(
                *old(self),
                *final(self),
                r->Ok_0,
                add_pos(old(self).spec_cards(), CardKind::Data)->0,
                CardKind::Data,
                terminated(text.spec_bytes(), old(self).spec_cst().spec_eol()),
            ),
    {
        self.add_card(CardKind::Data, text.as_bytes())
    }

    /// Add any data card (`sdef`, `mode`, `kcode`, ...) at the end of the
    /// data block.
    pub fn add_data_card(&mut self, text: &str) -> (r: Result<u32, EditError>)
        requires
            old(self).wf(),
            can_add(*old(self)),
            lexable(text.spec_bytes().len() + 2int),
        ensures
            r == Err::<u32, EditError>(EditError::NoBlock) <==> add_pos(
                old(self).spec_cards(),
                CardKind::Data,
            ) is None,
            r is Err ==> r == Err::<u32, EditError>(EditError::NoBlock) && *final(self) == *old(self),
            r is Ok ==> card_added(
                *old(self),
                *final(self),
                r->Ok_0,
                add_pos(old(self).spec_cards(), CardKind::Data)->0,
                CardKind::Data,
                terminated(text.spec_bytes(), old(self).spec_cst().spec_eol()),
            ),
    {
        self.add_card(CardKind::Data, text.as_bytes())
    }

    /// Add a cell right after the cell that defines `after` (the first such
    /// cell), so that a copy can sit next to its source.
    pub fn add_cell_after(&mut self, after: i64, text: &str) -> (r: Result<u32, EditError>)
        requires
            old(self).wf(),
            can_add(*old(self)),
            lexable(text.spec_bytes().len() + 2int),
        ensures
            r == Err::<u32, EditError>(EditError::NoSuchField) <==> first_definition(
                old(self).spec_cards(),
                Family::Cell,
                after,
            ) is None,
            r is Err ==> r == Err::<u32, EditError>(EditError::NoSuchField) && *final(self)
                == *old(self),
            r is Ok ==> card_added(
                *old(self),
                *final(self),
                r->Ok_0,
                first_definition(old(self).spec_cards(), Family::Cell, after)->0 + 1,
                CardKind::Cell,
                terminated(text.spec_bytes(), old(self).spec_cst().spec_eol()),
            ),
    {
        let ghost cards = self.spec_cards();
        proof {
            lemma_first_definition(cards, Family::Cell, after);
            self.spec_cst().lemma_wf();
        }
        let anchor = match self.find_definition(Family::Cell, after) {
            Some(s) => s,
            None => return Err(EditError::NoSuchField),
        };
        let n = self.cst().len();
        let at = match self.cst().position_of(anchor) {
            Some(i) => i,
            None => {
                proof {
                    let i = first_definition(cards, Family::Cell, after)->0;
                    assert(self.spec_cst().spec_order()[i] == anchor);
                }
                return Err(EditError::NoSuchField);
            },
        };
        proof {
            let i = first_definition(cards, Family::Cell, after)->0;
            assert(cards[i].spec_slot() == self.spec_cst().spec_order()[i]);
            if at as int != i {
                assert(self.spec_cst().spec_order()[at as int] != self.spec_cst().spec_order()[i]);
            }
        }
        Ok(self.insert_card(CardKind::Cell, at + 1, text.as_bytes()))
    }

    fn remove_defined(&mut self, f: Family, id: i64) -> (r: bool)
        requires
            old(self).wf(),
        ensures
            r == first_definition(old(self).spec_cards(), f, id) is Some,
            !r ==> *final(self) == *old(self),
            r ==> card_removed(*old(self), *final(self), first_definition(old(self).spec_cards(), f, id)->0),
    {
        let ghost cards = self.spec_cards();
        proof {
            lemma_first_definition(cards, f, id);
            self.spec_cst().lemma_wf();
        }
        match self.find_definition(f, id) {
            Some(slot) => {
                proof {
                    let i = first_definition(cards, f, id)->0;
                    assert(self.spec_cst().spec_order()[i] == slot);
                }
                self.remove_slot_at(slot, Ghost(first_definition(cards, f, id)->0))
            },
            None => false,
        }
    }

    /// Remove the live card in `slot`, which sits at position `i`.
    fn remove_slot_at(&mut self, slot: u32, i: Ghost<int>) -> (r: bool)
        requires
            old(self).wf(),
            0 <= i@ < old(self).spec_cards().len(),
            old(self).spec_cst().spec_order()[i@] == slot,
        ensures
            r,
            card_removed(*old(self), *final(self), i@),
    {
        let ghost before = self.spec_cst();
        proof {
            before.lemma_wf();
            assert(before.spec_order().contains(slot));
        }
        let r = self.cst_mut().remove_slot(slot);
        proof {
            let j = choose|j: int|
                0 <= j < before.spec_order().len() && before.spec_order()[j] == slot
                    && self.spec_cst().spec_cards() == before.spec_cards().remove(j);
            if j != i@ {
                assert(before.spec_order()[j] != before.spec_order()[i@]);
            }
        }
        r
    }

    /// Remove a data card by slot: the handle of a data card that has no id.
    /// `false` when the slot holds no live data card.
    pub fn remove_data_card(&mut self, slot: u32) -> (r: bool)
        requires
            old(self).wf(),
        ensures
            r == is_kind(*old(self), slot, CardKind::Data),
            !r ==> *final(self) == *old(self),
            r ==> exists|i: int|
                0 <= i < old(self).spec_cards().len() && old(self).spec_cst().spec_order()[i]
                    == slot && card_removed(*old(self), *final(self), i),
    {
        let is_data = match self.cst().card(slot) {
            Some(c) => c.kind() == CardKind::Data,
            None => false,
        };
        if !is_data {
            return false;
        }
        let ghost cards = self.spec_cards();
        proof {
            self.spec_cst().lemma_live(slot as int);
        }
        let n = self.cst().len();
        let i = self.cst().position_of(slot).unwrap();
        let r = self.remove_slot_at(slot, Ghost(i as int));
        r
    }

    /// Replace a data card's whole text, made a line of the file, and re-lex
    /// it.
    pub fn set_data_card_text(&mut self, slot: u32, text: &str) -> (r: Result<(), EditError>)
        requires
            old(self).wf(),
            lexable(text.spec_bytes().len() + 2int),
        ensures
            r == Err::<(), EditError>(EditError::WrongKind) <==> !is_kind(
                *old(self),
                slot,
                CardKind::Data,
            ),
            r is Err ==> *final(self) == *old(self),
            r is Ok ==> edited(*old(self), *final(self), slot) && relexed(
                card_of(*old(self), slot),
                card_of(*final(self), slot),
                terminated(text.spec_bytes(), old(self).spec_cst().spec_eol()),
            ),
    {
        let card = match self.cst().card(slot) {
            Some(c) => c,
            None => return Err(EditError::WrongKind),
        };
        if card.kind() != CardKind::Data {
            return Err(EditError::WrongKind);
        }
        let len = card.len_bytes();
        let t = terminate(text.as_bytes(), self.cst().eol());
        proof {
            let old_text = card.spec_text();
            assert(spliced(old_text, 0, old_text.len() as int, t@) =~= t@);
        }
        self.cst_mut().splice_in(slot, 0, len, t.as_slice());
        Ok(())
    }

    /// Replace the title line, or create one where a title belongs when the
    /// model has none: first, or after a leading message block.
    pub fn set_title(&mut self, title: &str)
        requires
            old(self).wf(),
            can_add(*old(self)),
            lexable(title.spec_bytes().len() + 2int),
        ensures
            match first_of_kind(old(self).spec_cards(), CardKind::Title, 0) {
                Some(i) => {
                    let slot = old(self).spec_cst().spec_order()[i];
                    &&& edited(*old(self), *final(self), slot)
                    &&& relexed(
                        card_of(*old(self), slot),
                        card_of(*final(self), slot),
                        terminated(title.spec_bytes(), old(self).spec_cst().spec_eol()),
                    )
                },
                None => exists|slot: u32|
                    card_added(
                        *old(self),
                        *final(self),
                        slot,
                        title_pos(old(self).spec_cards()),
                        CardKind::Title,
                        terminated(title.spec_bytes(), old(self).spec_cst().spec_eol()),
                    ),
            },
    {
        let ghost cards = self.spec_cards();
        let n = self.cst().len();
        let mut i: usize = 0;
        while i < n && self.cst().at(i).unwrap().kind() != CardKind::Title
            invariant
                self.wf(),
                cards == self.spec_cards(),
                n == cards.len(),
                i <= n,
                first_of_kind(cards, CardKind::Title, i as int) == first_of_kind(
                    cards,
                    CardKind::Title,
                    0,
                ),
            decreases n - i,
        {
            i = i + 1;
        }
        if i < n {
            let slot = self.cst().order()[i];
            proof {
                self.spec_cst().lemma_wf();
                assert(first_of_kind(cards, CardKind::Title, 0) == Some(i as int));
            }
            let len = self.cst().card(slot).unwrap().len_bytes();
            let t = terminate(title.as_bytes(), self.cst().eol());
            proof {
                let old_text = card_of(*self, slot).spec_text();
                assert(spliced(old_text, 0, old_text.len() as int, t@) =~= t@);
            }
            self.cst_mut().splice_in(slot, 0, len, t.as_slice());
        } else {
            let at = self.title_insert_pos();
            let s = self.insert_card(CardKind::Title, at, title.as_bytes());
        }
    }

    /// Remove the cell with this id (the first that defines it). `false`
    /// when no cell defines it.
    pub fn remove_cell(&mut self, id: i64) -> (r: bool)
        requires
            old(self).wf(),
        ensures
            r == first_definition(old(self).spec_cards(), Family::Cell, id) is Some,
            !r ==> *final(self) == *old(self),
            r ==> card_removed(
                *old(self),
                *final(self),
                first_definition(old(self).spec_cards(), Family::Cell, id)->0,
            ),
    {
        self.remove_defined(Family::Cell, id)
    }

    /// Remove the surface with this id (the first that defines it).
    pub fn remove_surface(&mut self, id: i64) -> (r: bool)
        requires
            old(self).wf(),
        ensures
            r == first_definition(old(self).spec_cards(), Family::Surface, id) is Some,
            !r ==> *final(self) == *old(self),
            r ==> card_removed(
                *old(self),
                *final(self),
                first_definition(old(self).spec_cards(), Family::Surface, id)->0,
            ),
    {
        self.remove_defined(Family::Surface, id)
    }

    /// Remove the material with this id (the first that defines it).
    pub fn remove_material(&mut self, id: i64) -> (r: bool)
        requires
            old(self).wf(),
        ensures
            r == first_definition(old(self).spec_cards(), Family::Material, id) is Some,
            !r ==> *final(self) == *old(self),
            r ==> card_removed(
                *old(self),
                *final(self),
                first_definition(old(self).spec_cards(), Family::Material, id)->0,
            ),
    {
        self.remove_defined(Family::Material, id)
    }

    /// Remove the transform with this id (the first that defines it).
    pub fn remove_transform(&mut self, id: i64) -> (r: bool)
        requires
            old(self).wf(),
        ensures
            r == first_definition(old(self).spec_cards(), Family::Transform, id) is Some,
            !r ==> *final(self) == *old(self),
            r ==> card_removed(
                *old(self),
                *final(self),
                first_definition(old(self).spec_cards(), Family::Transform, id)->0,
            ),
    {
        self.remove_defined(Family::Transform, id)
    }

    /// Replace term `position` of a cell's geometry (counted as
    /// [`crate::view::CellView::geometry`] counts them) with the trimmed
    /// text; the term count is unchanged.
    pub fn set_geometry_term(&mut self, slot: u32, position: usize, text: &str) -> (r: Result<
        (),
        EditError,
    >)
        requires
            old(self).wf(),
            room_for(*old(self), text.spec_bytes().len() as int),
        ensures
            r == Err::<(), EditError>(EditError::WrongKind) <==> !is_kind(
                *old(self),
                slot,
                CardKind::Cell,
            ),
            r == Err::<(), EditError>(EditError::NoSuchField) <==> is_kind(
                *old(self),
                slot,
                CardKind::Cell,
            ) && position >= cell_spans(card_of(*old(self), slot)).len(),
            r is Err ==> *final(self) == *old(self),
            r is Ok ==> {
                let c = card_of(*old(self), slot);
                let ts = c.spec_tokens();
                let sp = cell_spans(c)[position as int];
                &&& edited(*old(self), *final(self), slot)
                &&& relexed(
                    c,
                    card_of(*final(self), slot),
                    spliced(
                        c.spec_text(),
                        ts[sp.0 as int].start as int,
                        ts[sp.1 - 1].spec_end(),
                        spec_trim(text.spec_bytes()),
                    ),
                )
            },
    {
        let card = match self.cst().card(slot) {
            Some(c) => c,
            None => return Err(EditError::WrongKind),
        };
        if card.kind() != CardKind::Cell {
            return Err(EditError::WrongKind);
        }
        let ntoks = card.tokens().len();
        proof {
            self.spec_cst().lemma_live(slot as int);
            assert(self.spec_cst().live(slot as int));
            card.lemma_wf();
        }
        let l = cell_layout(card);
        let spans = geometry_spans_exec(card, l.geometry_start, l.geometry_end);
        if position >= spans.len() {
            return Err(EditError::NoSuchField);
        }
        proof {
            lemma_geometry_spans(*card, l.geometry_start as int, l.geometry_end as int);
            lemma_trim_len(text.spec_bytes());
        }
        let sp = spans[position];
        let toks = card.tokens();
        let from = toks[sp.0].start as usize;
        let last = toks[sp.1 - 1];
        let to = (last.start + last.len) as usize;
        let t = trim(text.as_bytes());
        self.cst_mut().splice_in(slot, from, to, t);
        Ok(())
    }

    /// Insert a new geometry term so that it becomes term `position`
    /// (`position` equal to the term count appends), the way `Vec::insert`
    /// places an element. Wrapping in parentheses, unions and complements are
    /// all built from repeated inserts.
    pub fn insert_geometry_term(&mut self, slot: u32, position: usize, text: &str) -> (r: Result<
        (),
        EditError,
    >)
        requires
            old(self).wf(),
            room_for(*old(self), text.spec_bytes().len() + 1int),
        ensures
            r == Err::<(), EditError>(EditError::WrongKind) <==> !is_kind(
                *old(self),
                slot,
                CardKind::Cell,
            ),
            r == Err::<(), EditError>(EditError::NoSuchField) <==> is_kind(
                *old(self),
                slot,
                CardKind::Cell,
            ) && position > cell_spans(card_of(*old(self), slot)).len(),
            r is Err ==> *final(self) == *old(self),
            r is Ok ==> {
                let c = card_of(*old(self), slot);
                let a = insert_anchor(c, position as int, spec_trim(text.spec_bytes()));
                &&& edited(*old(self), *final(self), slot)
                &&& relexed(c, card_of(*final(self), slot), spliced(c.spec_text(), a.0, a.0, a.1))
            },
    {
        let card = match self.cst().card(slot) {
            Some(c) => c,
            None => return Err(EditError::WrongKind),
        };
        if card.kind() != CardKind::Cell {
            return Err(EditError::WrongKind);
        }
        let ntoks = card.tokens().len();
        proof {
            self.spec_cst().lemma_live(slot as int);
            assert(self.spec_cst().live(slot as int));
            card.lemma_wf();
        }
        let l = cell_layout(card);
        let spans = geometry_spans_exec(card, l.geometry_start, l.geometry_end);
        if position > spans.len() {
            return Err(EditError::NoSuchField);
        }
        proof {
            lemma_geometry_spans(*card, l.geometry_start as int, l.geometry_end as int);
            lemma_trim_len(text.spec_bytes());
        }
        let toks = card.tokens();
        let t = trim(text.as_bytes());
        let mut ins: Vec<u8> = Vec::new();
        let at: usize;
        if position < spans.len() {
            at = toks[spans[position].0].start as usize;
            push_range(&mut ins, t, 0, t.len());
            ins.push(32u8);
        } else if spans.len() > 0 {
            let last = toks[spans[spans.len() - 1].1 - 1];
            at = (last.start + last.len) as usize;
            ins.push(32u8);
            push_range(&mut ins, t, 0, t.len());
        } else if l.geometry_start < ntoks {
            at = toks[l.geometry_start].start as usize;
            push_range(&mut ins, t, 0, t.len());
            ins.push(32u8);
        } else {
            at = append_pos_exec(card);
            ins.push(32u8);
            push_range(&mut ins, t, 0, t.len());
        }
        proof {
            assert(t@.subrange(0, t@.len() as int) =~= t@);
            let a = insert_anchor(*card, position as int, t@);
            assert(ins@ =~= a.1);
        }
        self.cst_mut().splice_in(slot, at, at, ins.as_slice());
        Ok(())
    }

    /// Replace a cell's whole geometry with the trimmed text; material,
    /// density and parameters stay. A cell with no geometry term gets the
    /// text at the empty-geometry anchor.
    pub fn set_cell_geometry(&mut self, slot: u32, text: &str) -> (r: Result<(), EditError>)
        requires
            old(self).wf(),
            room_for(*old(self), text.spec_bytes().len() + 1int),
        ensures
            r == Err::<(), EditError>(EditError::WrongKind) <==> !is_kind(
                *old(self),
                slot,
                CardKind::Cell,
            ),
            r is Err ==> *final(self) == *old(self),
            r is Ok ==> {
                let c = card_of(*old(self), slot);
                let ts = c.spec_tokens();
                let sp = cell_spans(c);
                let t = spec_trim(text.spec_bytes());
                &&& edited(*old(self), *final(self), slot)
                &&& relexed(
                    c,
                    card_of(*final(self), slot),
                    if sp.len() > 0 {
                        spliced(
                            c.spec_text(),
                            ts[sp[0].0 as int].start as int,
                            ts[sp[sp.len() - 1].1 - 1].spec_end(),
                            t,
                        )
                    } else {
                        let a = empty_geometry_anchor(c, t);
                        spliced(c.spec_text(), a.0, a.0, a.1)
                    },
                )
            },
    {
        let card = match self.cst().card(slot) {
            Some(c) => c,
            None => return Err(EditError::WrongKind),
        };
        if card.kind() != CardKind::Cell {
            return Err(EditError::WrongKind);
        }
        let ntoks = card.tokens().len();
        proof {
            self.spec_cst().lemma_live(slot as int);
            assert(self.spec_cst().live(slot as int));
            card.lemma_wf();
        }
        let l = cell_layout(card);
        let spans = geometry_spans_exec(card, l.geometry_start, l.geometry_end);
        proof {
            lemma_geometry_spans(*card, l.geometry_start as int, l.geometry_end as int);
            lemma_trim_len(text.spec_bytes());
        }
        let toks = card.tokens();
        let t = trim(text.as_bytes());
        if spans.len() > 0 {
            let from = toks[spans[0].0].start as usize;
            let last = toks[spans[spans.len() - 1].1 - 1];
            let to = (last.start + last.len) as usize;
            proof {
                if spans.len() > 1 {
                    assert(spans@[0].1 <= spans@[spans.len() - 1].0);
                }
            }
            self.cst_mut().splice_in(slot, from, to, t);
        } else {
            let mut ins: Vec<u8> = Vec::new();
            let at: usize;
            if l.geometry_start < ntoks {
                at = toks[l.geometry_start].start as usize;
                push_range(&mut ins, t, 0, t.len());
                ins.push(32u8);
            } else {
                at = append_pos_exec(card);
                ins.push(32u8);
                push_range(&mut ins, t, 0, t.len());
            }
            proof {
                assert(t@.subrange(0, t@.len() as int) =~= t@);
                assert(ins@ =~= empty_geometry_anchor(*card, t@).1);
            }
            self.cst_mut().splice_in(slot, at, at, ins.as_slice());
        }
        Ok(())
    }

    /// Replace a surface's whole coefficient list with the given number
    /// texts. With as many values as coefficients each token is rewritten in
    /// place and keeps its spacing; otherwise the span from the first to the
    /// last coefficient is replaced by the values joined with spaces.
    pub fn set_surface_coeffs(&mut self, slot: u32, values: &[&str]) -> (r: Result<(), EditError>)
        requires
            old(self).wf(),
            room_for(*old(self), total_len(texts_bytes(values@)) + values@.len()),
        ensures
            r == Err::<(), EditError>(EditError::WrongKind) <==> !is_kind(
                *old(self),
                slot,
                CardKind::Surface,
            ),
            r == Err::<(), EditError>(EditError::NoSuchField) <==> is_kind(
                *old(self),
                slot,
                CardKind::Surface,
            ) && surface_coeffs(card_of(*old(self), slot)).len() == 0,
            r is Err ==> *final(self) == *old(self),
            r is Ok ==> {
                let c = card_of(*old(self), slot);
                let d = card_of(*final(self), slot);
                let run = surface_coeffs(c);
                let vs = texts_bytes(values@);
                let ts = c.spec_tokens();
                &&& edited(*old(self), *final(self), slot)
                &&& if run.len() == vs.len() {
                    d.spec_text() == rewritten_text(
                        c.spec_text(),
                        ts,
                        zip_edits(run, vs, vs.len() as int),
                        0,
                        0,
                    )
                } else {
                    relexed(
                        c,
                        d,
                        spliced(
                            c.spec_text(),
                            ts[run[0] as int].start as int,
                            ts[run[run.len() - 1] as int].spec_end(),
                            joined(vs),
                        ),
                    )
                }
            },
    {
        let card = match self.cst().card(slot) {
            Some(c) => c,
            None => return Err(EditError::WrongKind),
        };
        if card.kind() != CardKind::Surface {
            return Err(EditError::WrongKind);
        }
        proof {
            self.spec_cst().lemma_live(slot as int);
            assert(self.spec_cst().live(slot as int));
            card.lemma_wf();
        }
        let ntoks = card.tokens().len();
        let l = surface_layout(card);
        let toks = coeff_tokens(card, &l);
        if toks.len() == 0 {
            return Err(EditError::NoSuchField);
        }
        let ghost vs = texts_bytes(values@);
        proof {
            lemma_coeff_run_in_range(*card, l.coeffs_start as int);
            lemma_coeff_run_sorted(*card, l.coeffs_start as int);
            lemma_joined_len(vs);
        }
        if toks.len() == values.len() {
            let edits = zip_exec(&toks, values, values.len());
            proof {
                let n = vs.len() as int;
                lemma_delta_bound(card.spec_tokens(), toks@, vs, n, n);
                lemma_total_len_prefix(vs, n);
                assert(edits@.len() == n);
                let zd = zip_edits(toks@, vs, n);
                assert(byte_edits(edits@) == zd);
                assert(delta_prefix(card.spec_tokens(), zd, n) <= total_len(vs));
                assert(lexable(card.spec_text().len() + total_len(vs) + values@.len()));
            }
            self.cst_mut().rewrite_in(slot, edits.as_slice());
        } else {
            let ts = card.tokens();
            let from = ts[toks[0]].start as usize;
            let last = ts[toks[toks.len() - 1]];
            let to = (last.start + last.len) as usize;
            let text = join_texts(values);
            proof {
                if toks.len() > 1 {
                    assert(toks@[0] < toks@[toks.len() - 1]);
                }
            }
            self.cst_mut().splice_in(slot, from, to, text.as_slice());
        }
        Ok(())
    }

    /// Replace a transform's coefficient list with the given number texts.
    /// When the card holds as many numbers as values are given, the tokens
    /// from the first value on are rewritten in place; otherwise the span of
    /// the numbers from the first value on is replaced by the values joined
    /// with spaces.
    #[verifier::spinoff_prover]
    #[verifier::rlimit(40)]
    pub fn set_transform_coeffs(&mut self, slot: u32, values: &[&str]) -> (r: Result<
        (),
        EditError,
    >)
        requires
            old(self).wf(),
            room_for(*old(self), total_len(texts_bytes(values@)) + values@.len()),
        ensures
            r == Err::<(), EditError>(EditError::WrongKind) <==> !(old(self).spec_cst().live(
                slot as int,
            ) && head_with(card_of(*old(self), slot), Family::Transform) is Some),
            r == Err::<(), EditError>(EditError::NoSuchField) <==> old(self).spec_cst().live(
                slot as int,
            ) && head_with(card_of(*old(self), slot), Family::Transform) is Some && spec_values_span(
                card_of(*old(self), slot),
                spec_head(card_of(*old(self), slot))->0.values_start as int,
            ) is None,
            r is Err ==> *final(self) == *old(self),
            r is Ok ==> {
                let c = card_of(*old(self), slot);
                let d = card_of(*final(self), slot);
                let start = spec_head(c)->0.values_start as int;
                let span = spec_values_span(c, start)->0;
                let list = transform_list(c, span.0 as int);
                let vs = texts_bytes(values@);
                let n = if list.len() < vs.len() {
                    list.len() as int
                } else {
                    vs.len() as int
                };
                let ts = c.spec_tokens();
                &&& edited(*old(self), *final(self), slot)
                &&& if float_tokens(c, start).len() == vs.len() {
                    d.spec_text() == rewritten_text(c.spec_text(), ts, zip_edits(list, vs, n), 0, 0)
                } else {
                    relexed(
                        c,
                        d,
                        spliced(
                            c.spec_text(),
                            ts[span.0 as int].start as int,
                            ts[span.1 as int].spec_end(),
                            joined(vs),
                        ),
                    )
                }
            },
    {
        let card = match self.cst().card(slot) {
            Some(c) => c,
            None => return Err(EditError::WrongKind),
        };
        let ntoks = card.tokens().len();
        proof {
            self.spec_cst().lemma_live(slot as int);
            assert(self.spec_cst().live(slot as int));
            card.lemma_wf();
        }
        let h = match head(card) {
            Some(h) => h,
            None => return Err(EditError::WrongKind),
        };
        if transform_id(&h).is_none() {
            return Err(EditError::WrongKind);
        }
        let (first, last) = match values_span(card, h.values_start) {
            Some(p) => p,
            None => return Err(EditError::NoSuchField),
        };
        let ghost vs = texts_bytes(values@);
        proof {
            lemma_sig(card.spec_tokens(), h.values_start as int);
            lemma_coeff_run_in_range(*card, first as int);
            lemma_coeff_run_sorted(*card, first as int);
            lemma_joined_len(vs);
        }
        let view = TransformView::new(self, slot);
        let existing = view.value_texts().len();
        if existing == values.len() {
            let run = coeff_run_from(card, first);
            let list: Vec<usize> = if run.len() > 0 {
                run
            } else {
                vec![first]
            };
            proof {
                assert(list@ == transform_list(*card, first as int));
            }
            let n = if list.len() < values.len() {
                list.len()
            } else {
                values.len()
            };
            let edits = zip_exec(&list, values, n);
            proof {
                lemma_delta_bound(card.spec_tokens(), list@, vs, n as int, n as int);
                lemma_total_len_prefix(vs, n as int);
                assert(edits@.len() == n);
                let zd = zip_edits(list@, vs, n as int);
                assert(byte_edits(edits@) == zd);
                assert(delta_prefix(card.spec_tokens(), zd, n as int) <= total_len(vs));
                assert(lexable(card.spec_text().len() + total_len(vs) + values@.len()));
            }
            self.cst_mut().rewrite_in(slot, edits.as_slice());
        } else {
            let ts = card.tokens();
            let from = ts[first].start as usize;
            let lt = ts[last];
            let to = (lt.start + lt.len) as usize;
            let text = join_texts(values);
            self.cst_mut().splice_in(slot, from, to, text.as_slice());
        }
        Ok(())
    }
}

} // verus!
