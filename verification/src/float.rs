//! Which tokens read as floating-point numbers. The values themselves are not
//! computed here; what the typed readers need is whether a field holds a
//! number that MCNP would accept.

use vstd::prelude::*;
use crate::lex::spec_is_digit;
use crate::lines::ascii_lower;
use crate::num::all_digits;

verus! {

pub open spec fn is_sign(b: u8) -> bool {
    b == 43u8 || b == 45u8
}

pub open spec fn is_exp_marker(b: u8) -> bool {
    b == 101u8 || b == 69u8
}

/// Index of the first byte at or after `i` satisfying `is_exp_marker`, or the length.
pub open spec fn first_exp(b: Seq<u8>, i: int) -> int
    decreases b.len() - i,
{
    if i < 0 || i >= b.len() || is_exp_marker(b[i]) {
        i
    } else {
        first_exp(b, i + 1)
    }
}

/// Index of the first `.` at or after `i`, or the length.
pub open spec fn first_dot(b: Seq<u8>, i: int) -> int
    decreases b.len() - i,
{
    if i < 0 || i >= b.len() || b[i] == 46u8 {
        i
    } else {
        first_dot(b, i + 1)
    }
}

/// `Digit+ | Digit+ '.' Digit* | Digit* '.' Digit+`.
pub open spec fn mantissa_ok(m: Seq<u8>) -> bool {
    let d = first_dot(m, 0);
    if d >= m.len() {
        m.len() > 0 && all_digits(m)
    } else {
        all_digits(m.subrange(0, d)) && all_digits(m.subrange(d + 1, m.len() as int)) && (d > 0
            || m.len() - d - 1 > 0)
    }
}

/// Empty, or `e` (either case), an optional sign, and one or more digits.
pub open spec fn exponent_ok(x: Seq<u8>) -> bool {
    x.len() == 0 || (is_exp_marker(x[0]) && {
        let r = x.subrange(1, x.len() as int);
        let r2 = if r.len() > 0 && is_sign(r[0]) {
            r.subrange(1, r.len() as int)
        } else {
            r
        };
        r2.len() > 0 && all_digits(r2)
    })
}

/// Case-insensitive equality with a lowercase ASCII word.
pub open spec fn eq_lower(b: Seq<u8>, word: Seq<u8>) -> bool {
    b.len() == word.len() && forall|k: int| 0 <= k < b.len() ==> ascii_lower(#[trigger] b[k]) == word[k]
}

pub open spec fn word_inf() -> Seq<u8> {
    seq![105u8, 110u8, 102u8]
}

pub open spec fn word_infinity() -> Seq<u8> {
    seq![105u8, 110u8, 102u8, 105u8, 110u8, 105u8, 116u8, 121u8]
}

pub open spec fn word_nan() -> Seq<u8> {
    seq![110u8, 97u8, 110u8]
}

/// The documented grammar of Rust's float literals (`f64::from_str`):
/// an optional sign, then `inf`, `infinity` or `nan` in any case, or a decimal
/// number with an optional exponent.
pub open spec fn spec_is_float_literal(t: Seq<u8>) -> bool {
    let b = if t.len() > 0 && is_sign(t[0]) {
        t.subrange(1, t.len() as int)
    } else {
        t
    };
    let e = first_exp(b, 0);
    eq_lower(b, word_inf()) || eq_lower(b, word_infinity()) || eq_lower(b, word_nan()) || (
    mantissa_ok(b.subrange(0, e)) && exponent_ok(b.subrange(e, b.len() as int)))
}

/// The text with an `e` inserted before position `i`.
pub open spec fn with_exponent_at(t: Seq<u8>, i: int) -> Seq<u8> {
    t.subrange(0, i) + seq![101u8] + t.subrange(i, t.len() as int)
}

/// The text after one optional leading `+`.
pub open spec fn without_plus(s: Seq<u8>) -> Seq<u8> {
    if s.len() > 0 && s[0] == 43u8 {
        s.subrange(1, s.len() as int)
    } else {
        s
    }
}

/// A float literal once an `e` is put before a sign that follows the mantissa
/// directly (`1.0-5` means `1.0e-5`).
pub open spec fn implicit_exponent_float(t: Seq<u8>) -> bool {
    exists|i: int|
        1 <= i < t.len() && is_sign(t[i]) && !is_exp_marker(t[i - 1]) && #[trigger] spec_is_float_literal(
            with_exponent_at(t, i),
        )
}

/// An MCNP float: after one optional leading `+`, a Rust float literal, or one
/// with an implicit exponent.
pub open spec fn spec_is_mcnp_float(s: Seq<u8>) -> bool {
    spec_is_float_literal(without_plus(s)) || implicit_exponent_float(without_plus(s))
}

fn all_digits_in(s: &[u8], from: usize, to: usize) -> (r: bool)
    requires
        from <= to <= s@.len(),
    ensures
        r == all_digits(s@.subrange(from as int, to as int)),
{
    let mut i = from;
    while i < to
        invariant
            from <= i <= to <= s@.len(),
            all_digits(s@.subrange(from as int, i as int)),
        decreases to - i,
    {
        if !(48u8 <= s[i] && s[i] <= 57u8) {
            assert(s@.subrange(from as int, to as int)[i - from] == s@[i as int]);
            return false;
        }
        assert forall|k: int| 0 <= k < i + 1 - from implies spec_is_digit(
            #[trigger] s@.subrange(from as int, i + 1)[k],
        ) by {
            if k < i - from {
                assert(s@.subrange(from as int, i + 1)[k] == s@.subrange(from as int, i as int)[k]);
            }
        }
        i = i + 1;
    }
    true
}

fn eq_lower_word(s: &[u8], from: usize, to: usize, word: &[u8]) -> (r: bool)
    requires
        from <= to <= s@.len(),
    ensures
        r == eq_lower(s@.subrange(from as int, to as int), word@),
{
    if to - from != word.len() {
        return false;
    }
    let mut k: usize = 0;
    while k < word.len()
        invariant
            from <= to <= s@.len(),
            to - from == word@.len(),
            k <= word@.len(),
            forall|m: int| 0 <= m < k ==> ascii_lower(#[trigger] s@.subrange(from as int, to as int)[m]) == word@[m],
        decreases word@.len() - k,
    {
        let b = s[from + k];
        assert(s@.subrange(from as int, to as int)[k as int] == b);
        let lb = if 65u8 <= b && b <= 90u8 {
            b + 32
        } else {
            b
        };
        if lb != word[k] {
            return false;
        }
        k = k + 1;
    }
    true
}

fn first_exp_in(s: &[u8], from: usize, to: usize) -> (r: usize)
    requires
        from <= to <= s@.len(),
    ensures
        from <= r <= to,
        r - from == first_exp(s@.subrange(from as int, to as int), 0),
        r < to ==> (s@[r as int] == 101u8 || s@[r as int] == 69u8),
{
    let ghost b = s@.subrange(from as int, to as int);
    let mut i = from;
    while i < to && !(s[i] == 101u8 || s[i] == 69u8)
        invariant
            from <= i <= to <= s@.len(),
            b == s@.subrange(from as int, to as int),
            first_exp(b, 0) == first_exp(b, i - from),
        decreases to - i,
    {
        assert(b[i - from] == s@[i as int]);
        i = i + 1;
    }
    proof {
        if i < to {
            assert(b[i - from] == s@[i as int]);
        }
    }
    i
}

fn first_dot_in(s: &[u8], from: usize, to: usize) -> (r: usize)
    requires
        from <= to <= s@.len(),
    ensures
        from <= r <= to,
        r - from == first_dot(s@.subrange(from as int, to as int), 0),
{
    let ghost b = s@.subrange(from as int, to as int);
    let mut i = from;
    while i < to && s[i] != 46u8
        invariant
            from <= i <= to <= s@.len(),
            b == s@.subrange(from as int, to as int),
            first_dot(b, 0) == first_dot(b, i - from),
        decreases to - i,
    {
        assert(b[i - from] == s@[i as int]);
        i = i + 1;
    }
    proof {
        if i < to {
            assert(b[i - from] == s@[i as int]);
        }
    }
    i
}

/// Whether `s[from..to]` is a Rust float literal.
fn is_float_literal(s: &[u8], from: usize, to: usize) -> (r: bool)
    requires
        from <= to <= s@.len(),
    ensures
        r == spec_is_float_literal(s@.subrange(from as int, to as int)),
{
    let ghost t = s@.subrange(from as int, to as int);
    let start = if from < to && (s[from] == 43u8 || s[from] == 45u8) {
        from + 1
    } else {
        from
    };
    let ghost b = s@.subrange(start as int, to as int);
    proof {
        if from < to {
            assert(t[0] == s@[from as int]);
        }
        if from < to && is_sign(t[0]) {
            assert(t.subrange(1, t.len() as int) =~= b);
        } else {
            assert(t =~= b);
        }
    }
    let inf: [u8; 3] = [105u8, 110u8, 102u8];
    let infinity: [u8; 8] = [105u8, 110u8, 102u8, 105u8, 110u8, 105u8, 116u8, 121u8];
    let nan: [u8; 3] = [110u8, 97u8, 110u8];
    assert(inf@ == word_inf());
    assert(infinity@ == word_infinity());
    assert(nan@ == word_nan());
    if eq_lower_word(s, start, to, &inf) || eq_lower_word(s, start, to, &infinity) || eq_lower_word(
        s,
        start,
        to,
        &nan,
    ) {
        return true;
    }
    let e = first_exp_in(s, start, to);
    let ghost m = s@.subrange(start as int, e as int);
    proof {
        assert(b.subrange(0, e - start) =~= m);
    }
    // the mantissa `s[start..e]`
    let d = first_dot_in(s, start, e);
    let mant_ok = if d >= e {
        e > start && all_digits_in(s, start, e)
    } else {
        proof {
            assert(m.subrange(0, d - start) =~= s@.subrange(start as int, d as int));
            assert(m.subrange(d - start + 1, m.len() as int) =~= s@.subrange(d + 1, e as int));
        }
        all_digits_in(s, start, d) && all_digits_in(s, d + 1, e) && (d > start || e - d - 1 > 0)
    };
    if !mant_ok {
        return false;
    }
    // the exponent `s[e..to]`
    let ghost x = s@.subrange(e as int, to as int);
    proof {
        assert(b.subrange(e - start, b.len() as int) =~= x);
    }
    if e == to {
        return true;
    }
    assert(x[0] == s@[e as int]);
    let mut k = e + 1;
    proof {
        assert(x.subrange(1, x.len() as int) =~= s@.subrange(e + 1, to as int));
    }
    if k < to && (s[k] == 43u8 || s[k] == 45u8) {
        proof {
            let r = x.subrange(1, x.len() as int);
            assert(r[0] == s@[k as int]);
            assert(r.subrange(1, r.len() as int) =~= s@.subrange(k + 1, to as int));
        }
        k = k + 1;
    } else {
        proof {
            let r = x.subrange(1, x.len() as int);
            if r.len() > 0 {
                assert(r[0] == s@[k as int]);
            }
        }
    }
    k < to && all_digits_in(s, k, to)
}

/// A float literal as Rust reads one, or one with an implicit exponent.
pub open spec fn spec_is_float_text(t: Seq<u8>) -> bool {
    spec_is_float_literal(t) || implicit_exponent_float(t)
}

/// Whether `s` reads as an MCNP float (see [`spec_is_mcnp_float`]).
pub fn is_mcnp_float(s: &[u8]) -> (r: bool)
    ensures
        r == spec_is_mcnp_float(s@),
{
    let from: usize = if s.len() > 0 && s[0] == 43u8 {
        1
    } else {
        0
    };
    proof {
        if from == 0 {
            assert(s@.subrange(from as int, s@.len() as int) =~= s@);
        }
    }
    float_text_from(s, from)
}

/// Whether `s` reads as a float literal, or as one once an `e` is put before
/// a sign that follows the mantissa directly (`6.02+23`). A leading sign is
/// part of the literal.
pub fn is_float_text(s: &[u8]) -> (r: bool)
    ensures
        r == spec_is_float_text(s@),
{
    proof {
        assert(s@.subrange(0, s@.len() as int) =~= s@);
    }
    float_text_from(s, 0)
}

fn float_text_from(s: &[u8], from: usize) -> (r: bool)
    requires
        from <= 1,
        from <= s@.len(),
    ensures
        r == spec_is_float_text(s@.subrange(from as int, s@.len() as int)),
{
    let ghost t = s@.subrange(from as int, s@.len() as int);
    if is_float_literal(s, from, s.len()) {
        return true;
    }
    let n = s.len();
    let mut i = from + 1;
    while i < n
        invariant
            from + 1 <= i,
            from <= n == s@.len(),
            t == s@.subrange(from as int, n as int),
            forall|j: int|
                1 <= j < i - from && j < t.len() && is_sign(t[j]) && !is_exp_marker(t[j - 1]) ==> !#[trigger] spec_is_float_literal(
                    with_exponent_at(t, j),
                ),
        decreases n - i,
    {
        let b = s[i];
        let p = s[i - 1];
        assert(t[i - from] == b && t[i - from - 1] == p);
        if (b == 43u8 || b == 45u8) && !(p == 101u8 || p == 69u8) {
            let mut fixed: Vec<u8> = Vec::new();
            crate::bytes::push_range(&mut fixed, s, from, i);
            fixed.push(101u8);
            crate::bytes::push_range(&mut fixed, s, i, n);
            proof {
                assert(fixed@ =~= with_exponent_at(t, i - from));
                assert(fixed@.subrange(0, fixed@.len() as int) =~= fixed@);
            }
            if is_float_literal(fixed.as_slice(), 0, fixed.len()) {
                let ghost j = i - from;
                assert(1 <= j < t.len() && is_sign(t[j]) && !is_exp_marker(t[j - 1])
                    && spec_is_float_literal(with_exponent_at(t, j)));
                assert(exists|j: int|
                    1 <= j < t.len() && is_sign(t[j]) && !is_exp_marker(t[j - 1])
                        && #[trigger] spec_is_float_literal(with_exponent_at(t, j)));
                assert(implicit_exponent_float(t));
                return true;
            }
        }
        i = i + 1;
    }
    false
}

} // verus!
