//! Integers written in decimal, the way an edit writes an id back.

use vstd::prelude::*;
use crate::num::{all_digits, decimal_value, spec_parse_i64, spec_parse_int};

verus! {

/// The decimal digits of `n`, most significant first, without leading zeros.
pub open spec fn digits_of(n: nat) -> Seq<u8>
    decreases n,
{
    if n < 10 {
        seq![(48 + n) as u8]
    } else {
        digits_of(n / 10).push((48 + n % 10) as u8)
    }
}

/// `v` in decimal: a `-` for a negative value, then its digits.
pub open spec fn int_text(v: int) -> Seq<u8> {
    if v < 0 {
        seq![45u8] + digits_of((-v) as nat)
    } else {
        digits_of(v as nat)
    }
}

pub proof fn lemma_digits_of(n: nat)
    ensures
        digits_of(n).len() >= 1,
        all_digits(digits_of(n)),
        decimal_value(digits_of(n)) == n,
        n < 10 ==> digits_of(n).len() == 1,
        n >= 10 ==> digits_of(n).len() == digits_of(n / 10).len() + 1,
    decreases n,
{
    if n >= 10 {
        lemma_digits_of(n / 10);
        let d = digits_of(n);
        assert(d.drop_last() =~= digits_of(n / 10));
        assert(d.last() == (48 + n % 10) as u8);
        assert((n / 10) * 10 + n % 10 == n) by (nonlinear_arith);
        assert(decimal_value(d) == decimal_value(digits_of(n / 10)) * 10 + (d.last() - 48));
        assert forall|k: int| 0 <= k < d.len() implies crate::lex::spec_is_digit(#[trigger] d[k]) by {
            if k < d.len() - 1 {
                assert(d[k] == digits_of(n / 10)[k]);
            }
        }
    } else {
        let d = digits_of(n);
        assert(d.drop_last() =~= Seq::<u8>::empty());
        assert(decimal_value(d.drop_last()) == 0);
    }
}

/// Reading back what was written gives the value back: every `i64` written
/// in decimal parses to itself.
pub proof fn law_int_text_round_trip(v: i64)
    ensures
        spec_parse_i64(int_text(v as int)) == Some(v),
        spec_parse_int(int_text(v as int)) == Some(v),
{
    let t = int_text(v as int);
    if v < 0 {
        let m = (-(v as int)) as nat;
        lemma_digits_of(m);
        assert(t.subrange(1, t.len() as int) =~= digits_of(m));
        assert(t[0] == 45u8);
    } else {
        lemma_digits_of(v as nat);
        let d = digits_of(v as nat);
        assert(crate::lex::spec_is_digit(d[0]));
    }
}

/// Ten to the power `k`.
pub open spec fn pow10(k: nat) -> nat
    decreases k,
{
    if k == 0 {
        1
    } else {
        10 * pow10((k - 1) as nat)
    }
}

proof fn lemma_digits_len(n: nat, k: nat)
    requires
        k >= 1,
        n < pow10(k),
    ensures
        digits_of(n).len() <= k,
    decreases k,
{
    lemma_digits_of(n);
    if n >= 10 {
        assert(k >= 2) by {
            if k == 1 {
                assert(pow10(1) == 10) by {
                    reveal_with_fuel(pow10, 2);
                }
            }
        }
        let k1 = (k - 1) as nat;
        assert(pow10(k) == 10 * pow10(k1));
        assert(n / 10 < pow10(k1)) by (nonlinear_arith)
            requires
                n < 10 * pow10(k1),
        ;
        lemma_digits_len(n / 10, k1);
    }
}

/// An `i64` written in decimal takes at most 20 bytes.
pub proof fn lemma_int_text_len(v: i64)
    ensures
        int_text(v as int).len() <= 20,
{
    assert(pow10(19) == 10000000000000000000nat) by {
        reveal_with_fuel(pow10, 20);
    }
    if v < 0 {
        lemma_digits_len((-(v as int)) as nat, 19);
    } else {
        lemma_digits_len(v as nat, 19);
    }
}

/// Write `v` in decimal.
pub fn fmt_int(v: i64) -> (r: Vec<u8>)
    ensures
        r@ == int_text(v as int),
{
    let neg = v < 0;
    let mag: u64 = if neg {
        (0i128 - (v as i128)) as u64
    } else {
        v as u64
    };
    let mut acc = fmt_u64(mag);
    if neg {
        let ghost body = acc@;
        acc.insert(0, 45u8);
        proof {
            assert(acc@ =~= seq![45u8] + body);
        }
    }
    acc
}

/// The decimal digits of an unsigned number.
pub fn fmt_u64(mag: u64) -> (r: Vec<u8>)
    ensures
        r@ == digits_of(mag as nat),
        r@ == int_text(mag as int),
{
    let ghost n = mag as nat;
    let mut m: u64 = mag;
    let mut acc: Vec<u8> = Vec::new();
    while m >= 10
        invariant
            digits_of(n) == digits_of(m as nat) + acc@,
        decreases m,
    {
        let d = (m % 10) as u8 + 48;
        proof {
            assert(digits_of(m as nat) == digits_of((m / 10) as nat).push(d));
        }
        let ghost before = acc@;
        acc.insert(0, d);
        proof {
            assert(acc@ =~= seq![d] + before);
            assert(digits_of((m / 10) as nat).push(d) + before =~= digits_of((m / 10) as nat) + acc@);
        }
        m = m / 10;
    }
    let ghost before = acc@;
    acc.insert(0, (m as u8) + 48);
    proof {
        assert(digits_of(m as nat) == seq![(48 + m) as u8]);
        assert(acc@ =~= digits_of(n));
    }
    acc
}

} // verus!
