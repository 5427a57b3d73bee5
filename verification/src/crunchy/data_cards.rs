//! Typed reading of crunchy data cards: `TRn` transforms, `Mn` materials,
//! and any data card read generically (mnemonic, particle, star).

use vstd::prelude::*;
use crate::crunchy::cell::{card_toks, card_tokens, kind_of, lemma_card_toks};
use crate::crunchy::cst::{content_tokens, GreenTree};
use crate::crunchy::renumber::{lemma_content_tokens, named_id, named_id_exec, word_m, word_tr};
use crate::crunchy::surface::{float_entries, floats_upto, is_float_token};
use crate::crunchy::surface_kind::{upper_all, uppercase};
use crate::crunchy::syntax_kind::SyntaxKind;
use crate::float::{first_dot, is_float_text};
use crate::num::{parse_int_bytes, spec_parse_int};

verus! {

/// What a `TRn` card says.
pub struct TransformSpec {
    pub id: i64,
    pub id_token: u32,
    pub degrees: bool,
    pub value_tokens: Seq<u32>,
    pub well_formed: bool,
}

/// The `TRn` / `*TRn` card at `ci`: the name `TR` and digits, then numeric
/// entries (`&` marks skipped).
pub open spec fn spec_parse_transform(t: GreenTree, ci: int) -> Option<TransformSpec> {
    let c = t.spec_cards()[ci];
    let toks = content_tokens(t.spec_tokens(), c.first_tok as int, c.tok_end as int);
    let degrees = toks.len() > 0 && kind_of(t, toks[0]) == SyntaxKind::STAR;
    let p: int = if degrees {
        1
    } else {
        0
    };
    if c.kind != SyntaxKind::DATA_CARD || p >= toks.len() || kind_of(t, toks[p])
        != SyntaxKind::IDENT || named_id(t.spec_token_text(toks[p] as int), word_tr()) is None {
        None
    } else {
        let fl = floats_upto(t, toks, p + 1, toks.len() as int);
        Some(
            TransformSpec {
                id: named_id(t.spec_token_text(toks[p] as int), word_tr())->0,
                id_token: toks[p],
                degrees,
                value_tokens: fl.0,
                well_formed: fl.1,
            },
        )
    }
}

/// A parsed `TRn` transformation card. The entries are floats and are read
/// by the caller from `value_tokens`: the first three are the displacement
/// (a missing component is 0), the rest the rotation as written.
#[derive(Debug)]
pub struct Transform {
    /// Index into `tree.cards()`.
    pub card_index: usize,
    pub id: i64,
    /// Token of the `TRn` name, which carries the id.
    pub id_token: u32,
    /// Leading `*`: rotation entries are angles in degrees.
    pub degrees: bool,
    /// The numeric entries, in order.
    pub value_tokens: Vec<u32>,
    /// False if an entry is not a readable number.
    pub well_formed: bool,
}

pub open spec fn transform_matches(tr: Transform, ci: int, s: TransformSpec) -> bool {
    &&& tr.card_index == ci
    &&& tr.id == s.id
    &&& tr.id_token == s.id_token
    &&& tr.degrees == s.degrees
    &&& tr.value_tokens@ == s.value_tokens
    &&& tr.well_formed == s.well_formed
}

impl Transform {
    /// The displacement entries: the first three values, fewer when the card
    /// has fewer.
    pub fn displacement_tokens(&self) -> (r: Vec<u32>)
        ensures
            r@ == self.value_tokens@.subrange(
                0,
                if self.value_tokens@.len() < 3 {
                    self.value_tokens@.len() as int
                } else {
                    3
                },
            ),
    {
        let n = if self.value_tokens.len() < 3 {
            self.value_tokens.len()
        } else {
            3
        };
        vstd::slice::slice_to_vec(vstd::slice::slice_subrange(self.value_tokens.as_slice(), 0, n))
    }

    /// The rotation entries as written: the values after the third.
    pub fn rotation_tokens(&self) -> (r: Vec<u32>)
        ensures
            r@ == (if self.value_tokens@.len() > 3 {
                self.value_tokens@.subrange(3, self.value_tokens@.len() as int)
            } else {
                Seq::empty()
            }),
    {
        if self.value_tokens.len() > 3 {
            vstd::slice::slice_to_vec(
                vstd::slice::slice_subrange(
                    self.value_tokens.as_slice(),
                    3,
                    self.value_tokens.len(),
                ),
            )
        } else {
            Vec::new()
        }
    }
}

/// Parse the transform card at `card_index`, or `None` if it is not a `TRn`.
pub fn parse_transform(tree: &GreenTree, card_index: usize) -> (r: Option<Transform>)
    requires
        tree.wf(),
        card_index < tree.spec_cards().len(),
    ensures
        match r {
            Some(tr) => spec_parse_transform(*tree, card_index as int) matches Some(s)
                && transform_matches(tr, card_index as int, s),
            None => spec_parse_transform(*tree, card_index as int) is None,
        },
{
    proof {
        tree.lemma_cards_in_range();
        tree.lemma_wf();
    }
    let card = tree.cards()[card_index];
    assert(card == tree.spec_cards()[card_index as int]);
    if card.kind != SyntaxKind::DATA_CARD {
        return None;
    }
    let toks = tree.card_content_tokens(&card);
    proof {
        lemma_content_tokens(tree.spec_tokens(), card.first_tok as int, card.tok_end as int);
    }
    let n = toks.len();
    let degrees = n > 0 && tree.token_kind(toks[0]) == SyntaxKind::STAR;
    let p: usize = if degrees {
        1
    } else {
        0
    };
    if p >= n || tree.token_kind(toks[p]) != SyntaxKind::IDENT {
        return None;
    }
    let tr: [u8; 2] = [84u8, 82u8];
    assert(tr@ == word_tr());
    let id = match named_id_exec(tree.token_text(toks[p]), &tr) {
        Some(v) => v,
        None => {
            return None;
        },
    };
    let (value_tokens, well_formed) = float_entries(tree, &toks, p + 1);
    Some(Transform { card_index, id, id_token: toks[p], degrees, value_tokens, well_formed })
}

/// The `ZAID fraction` pairs of `toks[p..]`, and whether they were clean:
/// the list ends at the first entry that is not a number; a ZAID without a
/// numeric fraction after it spoils the card, and so does a fraction that
/// does not read as a float (its pair is still listed).
pub open spec fn pairs_from(t: GreenTree, toks: Seq<u32>, p: int) -> (Seq<(u32, u32)>, bool)
    decreases toks.len() - p,
{
    if p < 0 || p >= toks.len() || kind_of(t, toks[p]) != SyntaxKind::NUMBER {
        (Seq::empty(), true)
    } else if p + 1 >= toks.len() || kind_of(t, toks[p + 1]) != SyntaxKind::NUMBER {
        (Seq::empty(), false)
    } else {
        let r = pairs_from(t, toks, p + 2);
        (seq![(toks[p], toks[p + 1])] + r.0, is_float_token(t, toks[p + 1]) && r.1)
    }
}

/// What an `Mn` card says.
pub struct MaterialSpec {
    pub id: i64,
    pub id_token: u32,
    pub pairs: Seq<(u32, u32)>,
    pub well_formed: bool,
}

/// The `Mn` card at `ci` (not `MT`, `MX`, `MODE`, ...): the name `M` and
/// digits, then `ZAID fraction` pairs up to the options.
pub open spec fn spec_parse_material(t: GreenTree, ci: int) -> Option<MaterialSpec> {
    let c = t.spec_cards()[ci];
    let toks = card_toks(t, c);
    if c.kind != SyntaxKind::DATA_CARD || toks.len() < 1 || kind_of(t, toks[0])
        != SyntaxKind::IDENT || named_id(t.spec_token_text(toks[0] as int), word_m()) is None {
        None
    } else {
        let ps = pairs_from(t, toks, 1);
        Some(
            MaterialSpec {
                id: named_id(t.spec_token_text(toks[0] as int), word_m())->0,
                id_token: toks[0],
                pairs: ps.0,
                well_formed: ps.1,
            },
        )
    }
}

/// One `ZAID fraction` entry of a material. The fraction is a float and is
/// read by the caller from `fraction_token`.
#[derive(Debug)]
pub struct MaterialEntry {
    /// The ZAID as written, e.g. `1001.31c`, `92235.80c` or `6000`.
    pub zaid: Vec<u8>,
    pub zaid_token: u32,
    /// Token of the fraction (positive: atom fraction, negative: weight).
    pub fraction_token: u32,
}

impl MaterialEntry {
    /// The ZA number: the ZAID before its `.library` suffix, if numeric.
    pub fn za(&self) -> (r: Option<i64>)
        ensures
            r == spec_parse_int(self.zaid@.subrange(0, first_dot(self.zaid@, 0))),
    {
        let mut k: usize = 0;
        while k < self.zaid.len() && self.zaid[k] != 46u8
            invariant
                k <= self.zaid@.len(),
                first_dot(self.zaid@, 0) == first_dot(self.zaid@, k as int),
            decreases self.zaid@.len() - k,
        {
            k = k + 1;
        }
        parse_int_bytes(vstd::slice::slice_subrange(self.zaid.as_slice(), 0, k))
    }
}

/// A parsed material card.
#[derive(Debug)]
pub struct Material {
    /// Index into `tree.cards()`.
    pub card_index: usize,
    pub id: i64,
    /// Token of the `Mn` name, which carries the id.
    pub id_token: u32,
    pub entries: Vec<MaterialEntry>,
    /// False if the entries were not clean `ZAID fraction` pairs.
    pub well_formed: bool,
}

pub open spec fn material_matches(t: GreenTree, m: Material, ci: int, s: MaterialSpec) -> bool {
    &&& m.card_index == ci
    &&& m.id == s.id
    &&& m.id_token == s.id_token
    &&& m.entries@.len() == s.pairs.len()
    &&& forall|k: int|
        0 <= k < s.pairs.len() ==> {
            let e = #[trigger] m.entries@[k];
            &&& e.zaid_token == s.pairs[k].0
            &&& e.fraction_token == s.pairs[k].1
            &&& e.zaid@ == t.spec_token_text(s.pairs[k].0 as int)
        }
    &&& m.well_formed == s.well_formed
}

/// Parse the material card at `card_index`, or `None` if it is not an `Mn`
/// card.
pub fn parse_material(tree: &GreenTree, card_index: usize) -> (r: Option<Material>)
    requires
        tree.wf(),
        card_index < tree.spec_cards().len(),
    ensures
        match r {
            Some(m) => spec_parse_material(*tree, card_index as int) matches Some(s)
                && material_matches(*tree, m, card_index as int, s),
            None => spec_parse_material(*tree, card_index as int) is None,
        },
{
    proof {
        tree.lemma_cards_in_range();
        tree.lemma_wf();
    }
    let card = tree.cards()[card_index];
    assert(card == tree.spec_cards()[card_index as int]);
    if card.kind != SyntaxKind::DATA_CARD {
        return None;
    }
    let toks = card_tokens(tree, &card);
    proof {
        lemma_card_toks(tree.spec_tokens(), card.first_tok as int, card.tok_end as int);
    }
    let n = toks.len();
    if n < 1 || tree.token_kind(toks[0]) != SyntaxKind::IDENT {
        return None;
    }
    let m: [u8; 1] = [77u8];
    assert(m@ == word_m());
    let id = match named_id_exec(tree.token_text(toks[0]), &m) {
        Some(v) => v,
        None => {
            return None;
        },
    };
    let ghost whole = pairs_from(*tree, toks@, 1);
    let mut entries: Vec<MaterialEntry> = Vec::new();
    let mut ok = true;
    let mut pos: usize = 1;
    let mut stop = false;
    while !stop && pos < n
        invariant
            tree.wf(),
            n == toks@.len(),
            forall|k: int| 0 <= k < n ==> (#[trigger] toks@[k]) < tree.spec_tokens().len(),
            1 <= pos <= n,
            whole == pairs_from(*tree, toks@, 1),
            stop ==> (ok == whole.1 && entries@.len() == whole.0.len()),
            !stop ==> {
                let rest = pairs_from(*tree, toks@, pos as int);
                &&& entries@.len() + rest.0.len() == whole.0.len()
                &&& whole.0.subrange(entries@.len() as int, whole.0.len() as int) == rest.0
                &&& whole.1 == (ok && rest.1)
            },
            forall|k: int|
                0 <= k < entries@.len() ==> {
                    let e = #[trigger] entries@[k];
                    &&& e.zaid_token == whole.0[k].0
                    &&& e.fraction_token == whole.0[k].1
                    &&& e.zaid@ == tree.spec_token_text(whole.0[k].0 as int)
                },
        decreases n - pos + (if stop {
            0int
        } else {
            1int
        }),
    {
        let zt = toks[pos];
        if tree.token_kind(zt) != SyntaxKind::NUMBER {
            stop = true;
        } else if pos + 1 >= n || tree.token_kind(toks[pos + 1]) != SyntaxKind::NUMBER {
            ok = false;
            stop = true;
        } else {
            let ft = toks[pos + 1];
            let ghost rest = pairs_from(*tree, toks@, pos as int);
            let ghost next = pairs_from(*tree, toks@, pos + 2);
            let ghost l: int = entries@.len() as int;
            if !is_float_text(tree.token_text(ft)) {
                ok = false;
            }
            let zaid = vstd::slice::slice_to_vec(tree.token_text(zt));
            entries.push(MaterialEntry { zaid, zaid_token: zt, fraction_token: ft });
            proof {
                assert(rest.0 == seq![(zt, ft)] + next.0);
                assert(whole.0[l] == rest.0[0]);
                assert(whole.0.subrange(l + 1, whole.0.len() as int) =~= rest.0.subrange(
                    1,
                    rest.0.len() as int,
                ));
                assert(rest.0.subrange(1, rest.0.len() as int) =~= next.0);
            }
            pos = pos + 2;
            if pos >= n {
                stop = true;
                proof {
                    assert(next.0.len() == 0);
                }
            }
        }
    }
    Some(Material { card_index, id, id_token: toks[0], entries, well_formed: ok })
}

/// What any data card says, read generically.
pub struct DataCardSpec {
    pub name_token: u32,
    pub starred: bool,
    pub particle_token: Option<u32>,
}

/// A data card at `ci`: an optional `*`, an identifier, and an optional
/// `:particle` designator.
pub open spec fn spec_parse_data_card(t: GreenTree, ci: int) -> Option<DataCardSpec> {
    let c = t.spec_cards()[ci];
    let toks = card_toks(t, c);
    let starred = toks.len() > 0 && kind_of(t, toks[0]) == SyntaxKind::STAR;
    let p: int = if starred {
        1
    } else {
        0
    };
    if c.kind != SyntaxKind::DATA_CARD || p >= toks.len() || kind_of(t, toks[p])
        != SyntaxKind::IDENT {
        None
    } else {
        let has_colon = p + 1 < toks.len() && kind_of(t, toks[p + 1]) == SyntaxKind::COLON;
        Some(
            DataCardSpec {
                name_token: toks[p],
                starred,
                particle_token: if has_colon && p + 2 < toks.len() && kind_of(t, toks[p + 2])
                    == SyntaxKind::IDENT {
                    Some(toks[p + 2])
                } else {
                    None
                },
            },
        )
    }
}

/// A data card read generically.
#[derive(Debug)]
pub struct DataCard {
    /// Index into `tree.cards()`.
    pub card_index: usize,
    /// The mnemonic, uppercased, with any trailing number (`SDEF`, `F4`,
    /// `M1`, `PHYS` for `PHYS:N`).
    pub name: Vec<u8>,
    pub name_token: u32,
    /// The particle designator after a `:`, if present.
    pub particle: Option<Vec<u8>>,
    /// Leading `*` modifier (`*F`, `*TR`).
    pub starred: bool,
}

pub open spec fn data_card_matches(t: GreenTree, d: DataCard, ci: int, s: DataCardSpec) -> bool {
    &&& d.card_index == ci
    &&& d.name@ == upper_all(t.spec_token_text(s.name_token as int))
    &&& d.name_token == s.name_token
    &&& d.starred == s.starred
    &&& match s.particle_token {
        Some(pt) => d.particle matches Some(v) && v@ == t.spec_token_text(pt as int),
        None => d.particle is None,
    }
}

/// Parse the data card at `card_index` generically, or `None` if it is not
/// a data card or has no mnemonic.
pub fn parse_data_card(tree: &GreenTree, card_index: usize) -> (r: Option<DataCard>)
    requires
        tree.wf(),
        card_index < tree.spec_cards().len(),
    ensures
        match r {
            Some(d) => spec_parse_data_card(*tree, card_index as int) matches Some(s)
                && data_card_matches(*tree, d, card_index as int, s),
            None => spec_parse_data_card(*tree, card_index as int) is None,
        },
{
    proof {
        tree.lemma_cards_in_range();
        tree.lemma_wf();
    }
    let card = tree.cards()[card_index];
    assert(card == tree.spec_cards()[card_index as int]);
    if card.kind != SyntaxKind::DATA_CARD {
        return None;
    }
    let toks = card_tokens(tree, &card);
    proof {
        lemma_card_toks(tree.spec_tokens(), card.first_tok as int, card.tok_end as int);
    }
    let n = toks.len();
    let starred = n > 0 && tree.token_kind(toks[0]) == SyntaxKind::STAR;
    let p: usize = if starred {
        1
    } else {
        0
    };
    if p >= n || tree.token_kind(toks[p]) != SyntaxKind::IDENT {
        return None;
    }
    let name = uppercase(tree.token_text(toks[p]));
    let mut particle: Option<Vec<u8>> = None;
    if p + 1 < n && tree.token_kind(toks[p + 1]) == SyntaxKind::COLON && p + 2 < n
        && tree.token_kind(toks[p + 2]) == SyntaxKind::IDENT {
        particle = Some(vstd::slice::slice_to_vec(tree.token_text(toks[p + 2])));
    }
    Some(DataCard { card_index, name, name_token: toks[p], particle, starred })
}

} // verus!
