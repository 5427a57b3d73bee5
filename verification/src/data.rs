//! Typed reading of data cards: `Mn`, `TRn` / `*TRn`, and the generic head
//! shared by every data card.

use vstd::prelude::*;
use crate::card::Card;
use crate::kind::{spec_is_trivia, SyntaxKind};
use crate::token::Token;
use crate::lines::{ascii_lower, to_lower};
use crate::scan::{
    float_at, lemma_sig, next, sig, spec_float_at, spec_sig, spec_split_name, spec_text_at,
    split_name_bytes, text_at,
};
use crate::surface::{coeff_run, kind_is};

verus! {

/// The head of a data card: an optional `*`, a mnemonic with an optional
/// trailing id baked into the name token, and an optional `:particle`.
#[derive(Debug, Clone)]
pub struct DataHead {
    pub starred: bool,
    /// Alphabetic part of the name, lowercased (`m`, `mt`, `tr`, `f`, `sdef`).
    pub mnemonic: Vec<u8>,
    /// Trailing digits of the name token (`m1` -> 1, `sdef` -> none).
    pub number: Option<i64>,
    pub particle: Option<Vec<u8>>,
    pub name_tok: usize,
    /// Token index of the first value.
    pub values_start: usize,
}

/// What a [`DataHead`] says, as plain values.
pub struct HeadView {
    pub starred: bool,
    pub mnemonic: Seq<u8>,
    pub number: Option<i64>,
    pub particle: Option<Seq<u8>>,
    pub name_tok: usize,
    pub values_start: usize,
}

impl View for DataHead {
    type V = HeadView;

    open spec fn view(&self) -> HeadView {
        HeadView {
            starred: self.starred,
            mnemonic: self.mnemonic@,
            number: self.number,
            particle: match self.particle {
                Some(p) => Some(p@),
                None => None,
            },
            name_tok: self.name_tok,
            values_start: self.values_start,
        }
    }
}

pub open spec fn lower_all(s: Seq<u8>) -> Seq<u8> {
    s.map_values(|b: u8| ascii_lower(b))
}

/// The `:particle` designator after the name token `i`, and where the values
/// start.
pub open spec fn particle_and_cursor(c: Card, i: int) -> (Option<Seq<u8>>, Option<int>) {
    let ts = c.spec_tokens();
    let cur = spec_sig(ts, i + 1);
    match cur {
        Some(j) => if kind_is(ts, j, SyntaxKind::Colon) {
            match spec_sig(ts, j + 1) {
                Some(a) => if kind_is(ts, a, SyntaxKind::Ident) {
                    (Some(spec_text_at(c, a)), spec_sig(ts, a + 1))
                } else {
                    (None, Some(a))
                },
                None => (None, None),
            }
        } else {
            (None, cur)
        },
        None => (None, None),
    }
}

/// The head of a data card, when its first significant token (after an
/// optional `*`) is a name.
pub open spec fn spec_head(c: Card) -> Option<HeadView> {
    let ts = c.spec_tokens();
    let end = ts.len() as int;
    match spec_sig(ts, 0) {
        None => None,
        Some(i0) => {
            let starred = ts[i0].kind == SyntaxKind::Star;
            let ni = if starred {
                spec_sig(ts, i0 + 1)
            } else {
                Some(i0)
            };
            match ni {
                None => None,
                Some(i) => if !kind_is(ts, i, SyntaxKind::Ident) {
                    None
                } else {
                    let split = spec_split_name(spec_text_at(c, i));
                    let pc = particle_and_cursor(c, i);
                    Some(
                        HeadView {
                            starred,
                            mnemonic: lower_all(split.0),
                            number: split.1,
                            particle: pc.0,
                            name_tok: i as usize,
                            values_start: match pc.1 {
                                Some(v) => v as usize,
                                None => end as usize,
                            },
                        },
                    )
                },
            }
        },
    }
}

fn lowercase(s: &[u8]) -> (r: Vec<u8>)
    ensures
        r@ == lower_all(s@),
{
    let mut out: Vec<u8> = Vec::new();
    let mut k: usize = 0;
    while k < s.len()
        invariant
            k <= s@.len(),
            out@ == lower_all(s@.subrange(0, k as int)),
        decreases s@.len() - k,
    {
        out.push(to_lower(s[k]));
        assert(lower_all(s@.subrange(0, k + 1)) =~= lower_all(s@.subrange(0, k as int)).push(
            ascii_lower(s@[k as int]),
        ));
        k = k + 1;
    }
    assert(s@.subrange(0, s@.len() as int) =~= s@);
    out
}

/// Read the head of a data card.
pub fn head(card: &Card) -> (r: Option<DataHead>)
    requires
        card.wf(),
    ensures
        match r {
            Some(h) => spec_head(*card) == Some(h@),
            None => spec_head(*card) is None,
        },
{
    let end = card.tokens().len();
    let ghost ts = card.spec_tokens();
    proof {
        lemma_sig(ts, 0);
    }
    let i0 = match sig(card, 0) {
        Some(i) => i,
        None => {
            return None;
        },
    };
    let starred = card.tokens()[i0].kind == SyntaxKind::Star;
    let i = if starred {
        proof {
            lemma_sig(ts, i0 + 1);
        }
        match next(card, i0) {
            Some(i) => i,
            None => {
                return None;
            },
        }
    } else {
        i0
    };
    if card.tokens()[i].kind != SyntaxKind::Ident {
        return None;
    }
    let name = card.token_text(i);
    let (alpha, number) = split_name_bytes(name);
    let mnemonic = lowercase(alpha);
    proof {
        lemma_sig(ts, i + 1);
    }
    let mut particle: Option<Vec<u8>> = None;
    let mut cursor = next(card, i);
    match cursor {
        Some(j) => {
            if card.tokens()[j].kind == SyntaxKind::Colon {
                proof {
                    lemma_sig(ts, j + 1);
                }
                let after = next(card, j);
                match after {
                    Some(a) => {
                        if card.tokens()[a].kind == SyntaxKind::Ident {
                            particle = Some(vstd::slice::slice_to_vec(card.token_text(a)));
                            proof {
                                lemma_sig(ts, a + 1);
                            }
                            cursor = next(card, a);
                        } else {
                            cursor = after;
                        }
                    },
                    None => {
                        cursor = None;
                    },
                }
            }
        },
        None => {},
    }
    let values_start = match cursor {
        Some(v) => v,
        None => end,
    };
    let h = DataHead { starred, mnemonic, number, particle, name_tok: i, values_start };
    proof {
        let pc = particle_and_cursor(*card, i as int);
        assert(h@.particle == pc.0);
        assert(h@ == spec_head(*card)->0);
    }
    Some(h)
}

pub open spec fn word_m() -> Seq<u8> {
    seq![109u8]
}

pub open spec fn word_tr() -> Seq<u8> {
    seq![116u8, 114u8]
}

/// The id of an `Mn` material card. `mt1`, `mx1` and `mode` are not material
/// definitions.
pub open spec fn spec_material_id(h: HeadView) -> Option<i64> {
    if h.mnemonic == word_m() {
        h.number
    } else {
        None
    }
}

/// The id of a `TRn` / `*TRn` transform card.
pub open spec fn spec_transform_id(h: HeadView) -> Option<i64> {
    if h.mnemonic == word_tr() {
        h.number
    } else {
        None
    }
}

pub fn material_id(head: &DataHead) -> (r: Option<i64>)
    ensures
        r == spec_material_id(head@),
{
    if head.mnemonic.len() == 1 && head.mnemonic[0] == 109u8 {
        proof {
            assert(head.mnemonic@ =~= word_m());
        }
        head.number
    } else {
        proof {
            if head.mnemonic@ == word_m() {
                assert(head.mnemonic@[0] == 109u8);
            }
        }
        None
    }
}

pub fn transform_id(head: &DataHead) -> (r: Option<i64>)
    ensures
        r == spec_transform_id(head@),
{
    if head.mnemonic.len() == 2 && head.mnemonic[0] == 116u8 && head.mnemonic[1] == 114u8 {
        proof {
            assert(head.mnemonic@ =~= word_tr());
        }
        head.number
    } else {
        proof {
            if head.mnemonic@ == word_tr() {
                assert(head.mnemonic@[0] == 116u8);
            }
        }
        None
    }
}

/// The `(zaid, fraction)` token pairs of a material card from token `i` on,
/// and whether every entry read: an entry stops the list where its fraction
/// is missing or does not read as a number.
pub open spec fn entries_from(c: Card, i: int) -> (Seq<(usize, usize)>, bool)
    decreases c.spec_tokens().len() - i,
{
    let ts = c.spec_tokens();
    if i < 0 || i >= ts.len() {
        (Seq::empty(), true)
    } else {
        match spec_sig(ts, i) {
            None => (Seq::empty(), true),
            Some(z) => match spec_sig(ts, z + 1) {
                None => (Seq::empty(), false),
                Some(f) => if i <= z < f < ts.len() && spec_float_at(c, f) {
                    let rest = entries_from(c, f + 1);
                    (seq![(z as usize, f as usize)] + rest.0, rest.1)
                } else {
                    (Seq::empty(), false)
                },
            },
        }
    }
}

/// Token indices of each material entry as `(zaid_tok, frac_tok)`, in file
/// order, and whether every entry read.
pub fn material_entry_tokens(card: &Card, head: &DataHead) -> (r: (Vec<(usize, usize)>, bool))
    requires
        card.wf(),
    ensures
        r.0@ == entries_from(*card, head.values_start as int).0,
        r.1 == entries_from(*card, head.values_start as int).1,
{
    let mut out: Vec<(usize, usize)> = Vec::new();
    let end = card.tokens().len();
    let ghost ts = card.spec_tokens();
    let ghost full = entries_from(*card, head.values_start as int);
    let mut i = head.values_start;
    let mut ok = true;
    let mut stop = false;
    while !stop && i < end
        invariant
            card.wf(),
            end == ts.len(),
            ts == card.spec_tokens(),
            out@ + entries_from(*card, i as int).0 == full.0,
            !stop ==> entries_from(*card, i as int).1 == full.1,
            stop ==> entries_from(*card, i as int).0 == Seq::<(usize, usize)>::empty() && ok
                == full.1,
            !stop ==> ok,
        decreases end - i + (if stop {
            0int
        } else {
            1int
        }),
    {
        proof {
            lemma_sig(ts, i as int);
        }
        match sig(card, i) {
            None => {
                stop = true;
            },
            Some(z) => {
                proof {
                    lemma_sig(ts, z + 1);
                }
                match next(card, z) {
                    None => {
                        ok = false;
                        stop = true;
                    },
                    Some(f) => {
                        if float_at(card, f) {
                            proof {
                                assert(out@.push((z, f)) + entries_from(*card, f + 1).0
                                    =~= out@ + entries_from(*card, i as int).0);
                            }
                            out.push((z, f));
                            i = f + 1;
                        } else {
                            ok = false;
                            stop = true;
                        }
                    },
                }
            },
        }
    }
    proof {
        assert(out@ + Seq::<(usize, usize)>::empty() =~= out@);
    }
    (out, ok)
}

/// The first value token of a data card at or after `from`, and the last
/// token of the run of numbers that starts there.
pub open spec fn spec_values_span(c: Card, from: int) -> Option<(usize, usize)> {
    match spec_sig(c.spec_tokens(), from) {
        Some(f) => {
            let run = coeff_run(c, f);
            Some(
                (
                    f as usize,
                    if run.len() > 0 {
                        run.last()
                    } else {
                        f as usize
                    },
                ),
            )
        },
        None => None,
    }
}

/// Token index of the first value of a data card (past the name), and of
/// the last value of the run of numbers that follows. Used to replace a
/// whole coefficient list in one splice.
pub fn values_span(card: &Card, from: usize) -> (r: Option<(usize, usize)>)
    requires
        card.wf(),
    ensures
        r == spec_values_span(*card, from as int),
{
    let ghost ts = card.spec_tokens();
    proof {
        lemma_sig(ts, from as int);
    }
    let first = match sig(card, from) {
        Some(k) => k,
        None => {
            return None;
        },
    };
    let end = card.tokens().len();
    let mut last = first;
    let mut i = first;
    let ghost mut done: Seq<usize> = Seq::empty();
    let mut stop = false;
    while !stop && i < end
        invariant
            card.wf(),
            end == ts.len(),
            ts == card.spec_tokens(),
            first < end,
            done + coeff_run(*card, i as int) == coeff_run(*card, first as int),
            done.len() > 0 ==> last == done.last(),
            done.len() == 0 ==> last == first,
            stop ==> coeff_run(*card, i as int) == Seq::<usize>::empty(),
        decreases end - i + (if stop {
            0int
        } else {
            1int
        }),
    {
        proof {
            lemma_sig(ts, i as int);
        }
        match sig(card, i) {
            Some(k) => {
                if float_at(card, k) {
                    proof {
                        assert(done.push(k) + coeff_run(*card, k + 1) =~= done + coeff_run(
                            *card,
                            i as int,
                        ));
                        done = done.push(k);
                    }
                    last = k;
                    i = k + 1;
                } else {
                    stop = true;
                }
            },
            None => {
                stop = true;
            },
        }
    }
    proof {
        assert(done + Seq::<usize>::empty() =~= done);
    }
    Some((first, last))
}

/// The name token a head names is a token of the card.
/// The first significant token at or after `i` is `k` when every token in
/// between is trivia and `k` is not.
proof fn lemma_sig_is(ts: Seq<Token>, i: int, k: int)
    requires
        0 <= i <= k < ts.len(),
        !spec_is_trivia(ts[k].kind),
        forall|m: int| i <= m < k ==> spec_is_trivia(#[trigger] ts[m].kind),
    ensures
        spec_sig(ts, i) == Some(k),
{
    lemma_sig(ts, i);
}

/// What the head holds, read from its name token.
pub proof fn lemma_head_fields(c: Card)
    requires
        spec_head(c) is Some,
    ensures
        ({
            let h = spec_head(c)->0;
            let i = h.name_tok as int;
            &&& 0 <= i < c.spec_tokens().len()
            &&& c.spec_tokens()[i].kind == SyntaxKind::Ident
            &&& h.mnemonic == lower_all(spec_split_name(spec_text_at(c, i)).0)
            &&& h.number == spec_split_name(spec_text_at(c, i)).1
            &&& h.particle == particle_and_cursor(c, i).0
        }),
{
    let ts = c.spec_tokens();
    c.lemma_tokens_fit();
    lemma_sig(ts, 0);
    let i0 = spec_sig(ts, 0)->0;
    if ts[i0].kind == SyntaxKind::Star {
        lemma_sig(ts, i0 + 1);
    }
}

/// A data card starts with `*` exactly when its head says so: when the
/// card's first significant token is `*` the head is starred (a `*TRn`
/// card gives its rotation in degrees), and otherwise it is not.
pub proof fn law_head_starred(c: Card, k: int)
    requires
        0 <= k < c.spec_tokens().len(),
        !spec_is_trivia(c.spec_tokens()[k].kind),
        forall|m: int| 0 <= m < k ==> spec_is_trivia(#[trigger] c.spec_tokens()[m].kind),
        spec_head(c) is Some,
    ensures
        spec_head(c)->0.starred == (c.spec_tokens()[k].kind == SyntaxKind::Star),
{
    lemma_sig_is(c.spec_tokens(), 0, k);
}

/// A `:` and an identifier after a data card's name give its particle: the
/// identifier's text, whatever trivia stands between them.
pub proof fn law_head_particle(c: Card, j: int, a: int)
    requires
        spec_head(c) is Some,
        spec_head(c)->0.name_tok < j < a < c.spec_tokens().len(),
        c.spec_tokens()[j].kind == SyntaxKind::Colon,
        c.spec_tokens()[a].kind == SyntaxKind::Ident,
        forall|m: int|
            spec_head(c)->0.name_tok < m < j ==> spec_is_trivia(#[trigger] c.spec_tokens()[m].kind),
        forall|m: int| j < m < a ==> spec_is_trivia(#[trigger] c.spec_tokens()[m].kind),
    ensures
        spec_head(c)->0.particle == Some(spec_text_at(c, a)),
{
    let ts = c.spec_tokens();
    let i = spec_head(c)->0.name_tok as int;
    assert(!spec_is_trivia(SyntaxKind::Colon));
    assert(!spec_is_trivia(SyntaxKind::Ident));
    lemma_sig_is(ts, i + 1, j);
    lemma_sig_is(ts, j + 1, a);
    assert(particle_and_cursor(c, i).0 == Some(spec_text_at(c, a)));
    lemma_head_fields(c);
}

pub proof fn lemma_head_in_range(c: Card)
    ensures
        match spec_head(c) {
            Some(h) => h.name_tok < c.spec_tokens().len(),
            None => true,
        },
{
}

} // verus!
