//! Low-level helpers for reading fields out of a card's tokens. A field that
//! cannot be read comes back as `None`; malformed input still projects
//! something and always round-trips.

use vstd::prelude::*;
use vstd::string::StringSliceAdditionalSpecFns;
use crate::card::Card;
use crate::float::{is_mcnp_float, spec_is_mcnp_float};
use crate::kind::{SyntaxKind, spec_is_trivia};
use crate::lex::spec_is_digit;
use crate::num::{parse_i64_range, parse_int_bytes, spec_parse_i64, spec_parse_int};
use crate::token::Token;

verus! {

/// Index of the first non-trivia token at or after `i`.
pub open spec fn spec_sig(ts: Seq<Token>, i: int) -> Option<int>
    decreases ts.len() - i,
{
    if i < 0 || i >= ts.len() {
        None
    } else if !spec_is_trivia(ts[i].kind) {
        Some(i)
    } else {
        spec_sig(ts, i + 1)
    }
}

pub proof fn lemma_sig(ts: Seq<Token>, i: int)
    requires
        0 <= i,
    ensures
        match spec_sig(ts, i) {
            Some(k) => i <= k < ts.len() && !spec_is_trivia(ts[k].kind) && forall|j: int|
                i <= j < k ==> spec_is_trivia(#[trigger] ts[j].kind),
            None => forall|j: int| i <= j < ts.len() ==> spec_is_trivia(#[trigger] ts[j].kind),
        },
    decreases ts.len() - i,
{
    if i < ts.len() && spec_is_trivia(ts[i].kind) {
        lemma_sig(ts, i + 1);
    }
}

/// The bytes of token `i` of a card.
pub open spec fn spec_text_at(c: Card, i: int) -> Seq<u8> {
    c.spec_text().subrange(c.spec_tokens()[i].start as int, c.spec_tokens()[i].spec_end())
}

/// Token `i` as an integer: a number token that reads as one.
pub open spec fn spec_int_at(c: Card, i: int) -> Option<i64> {
    if 0 <= i < c.spec_tokens().len() && c.spec_tokens()[i].kind == SyntaxKind::Number {
        spec_parse_int(spec_text_at(c, i))
    } else {
        None
    }
}

/// Token `i` is a number token that reads as a float.
pub open spec fn spec_float_at(c: Card, i: int) -> bool {
    0 <= i < c.spec_tokens().len() && c.spec_tokens()[i].kind == SyntaxKind::Number
        && spec_is_mcnp_float(spec_text_at(c, i))
}

/// Index of the first non-trivia token at or after `i`.
pub fn sig(card: &Card, i: usize) -> (r: Option<usize>)
    ensures
        r == (match spec_sig(card.spec_tokens(), i as int) {
            Some(k) => Some(k as usize),
            None => None::<usize>,
        }),
{
    let tokens = card.tokens();
    let mut k = i;
    while k < tokens.len()
        invariant
            tokens@ == card.spec_tokens(),
            i <= k,
            spec_sig(tokens@, i as int) == spec_sig(tokens@, k as int),
        decreases tokens@.len() - k,
    {
        if !tokens[k].is_trivia() {
            assert(spec_sig(tokens@, k as int) == Some(k as int));
            return Some(k);
        }
        k = k + 1;
    }
    None
}

/// Index of the next non-trivia token strictly after `i`.
pub fn next(card: &Card, i: usize) -> (r: Option<usize>)
    requires
        i < usize::MAX,
    ensures
        r == (match spec_sig(card.spec_tokens(), i + 1) {
            Some(k) => Some(k as usize),
            None => None::<usize>,
        }),
{
    sig(card, i + 1)
}

pub fn kind_at(card: &Card, i: usize) -> (r: Option<SyntaxKind>)
    ensures
        r == (if i < card.spec_tokens().len() {
            Some(card.spec_tokens()[i as int].kind)
        } else {
            None
        }),
{
    if i < card.tokens().len() {
        Some(card.tokens()[i].kind)
    } else {
        None
    }
}

pub fn text_at(card: &Card, i: usize) -> (r: Option<&[u8]>)
    requires
        card.wf(),
    ensures
        match r {
            Some(t) => i < card.spec_tokens().len() && t@ == spec_text_at(*card, i as int),
            None => i >= card.spec_tokens().len(),
        },
{
    if i < card.tokens().len() {
        Some(card.token_text(i))
    } else {
        None
    }
}

/// Read a token as an integer, tolerating a leading `+`.
pub fn int_at(card: &Card, i: usize) -> (r: Option<i64>)
    requires
        card.wf(),
    ensures
        r == spec_int_at(*card, i as int),
{
    let text = match text_at(card, i) {
        Some(t) => t,
        None => {
            return None;
        },
    };
    if kind_at(card, i) != Some(SyntaxKind::Number) {
        return None;
    }
    parse_int_bytes(text)
}

/// Whether a token reads as a float.
pub fn float_at(card: &Card, i: usize) -> (r: bool)
    requires
        card.wf(),
    ensures
        r == spec_float_at(*card, i as int),
{
    let text = match text_at(card, i) {
        Some(t) => t,
        None => {
            return false;
        },
    };
    if kind_at(card, i) != Some(SyntaxKind::Number) {
        return false;
    }
    is_mcnp_float(text)
}

/// Index of the first ASCII digit at or after `i`, or the length.
pub open spec fn first_digit(s: Seq<u8>, i: int) -> int
    decreases s.len() - i,
{
    if i < 0 || i >= s.len() || spec_is_digit(s[i]) {
        i
    } else {
        first_digit(s, i + 1)
    }
}

/// A data-card name split into its alphabetic part and its trailing number:
/// the split is at the first digit; the rest must be all digits.
pub open spec fn spec_split_name(name: Seq<u8>) -> (Seq<u8>, Option<i64>) {
    let k = first_digit(name, 0);
    let digits = name.subrange(k, name.len() as int);
    if digits.len() == 0 || !crate::num::all_digits(digits) {
        (name, None)
    } else {
        (name.subrange(0, k), spec_parse_i64(digits))
    }
}

/// Split a data-card name into its alphabetic mnemonic and trailing number,
/// e.g. `m1` -> `("m", Some(1))`, `mode` -> `("mode", None)`.
pub fn split_name_bytes(name: &[u8]) -> (r: (&[u8], Option<i64>))
    ensures
        r.0@ == spec_split_name(name@).0,
        r.1 == spec_split_name(name@).1,
{
    let mut k: usize = 0;
    while k < name.len() && !(48u8 <= name[k] && name[k] <= 57u8)
        invariant
            k <= name@.len(),
            first_digit(name@, 0) == first_digit(name@, k as int),
        decreases name@.len() - k,
    {
        k = k + 1;
    }
    let n = name.len();
    let mut j = k;
    while j < n
        invariant
            k <= j <= n == name@.len(),
            k == first_digit(name@, 0),
            crate::num::all_digits(name@.subrange(k as int, j as int)),
        decreases n - j,
    {
        if !(48u8 <= name[j] && name[j] <= 57u8) {
            assert(name@.subrange(k as int, n as int)[j - k] == name@[j as int]);
            return (name, None);
        }
        assert forall|m: int| 0 <= m < j + 1 - k implies spec_is_digit(
            #[trigger] name@.subrange(k as int, j + 1)[m],
        ) by {
            if m < j - k {
                assert(name@.subrange(k as int, j + 1)[m] == name@.subrange(k as int, j as int)[m]);
            }
        }
        j = j + 1;
    }
    assert(name@.subrange(k as int, j as int) =~= name@.subrange(k as int, n as int));
    if k == n {
        return (name, None);
    }
    (vstd::slice::slice_subrange(name, 0, k), parse_i64_range(name, k, n))
}

/// Split a data-card name into its alphabetic mnemonic and trailing number.
pub fn split_name(name: &str) -> (r: (&[u8], Option<i64>))
    ensures
        r.0@ == spec_split_name(name.spec_bytes()).0,
        r.1 == spec_split_name(name.spec_bytes()).1,
{
    split_name_bytes(name.as_bytes())
}

} // verus!
