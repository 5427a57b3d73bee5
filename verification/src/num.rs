//! Integer literals: an optional sign, then decimal digits, within `i64`.

use vstd::prelude::*;
use vstd::string::StringSliceAdditionalSpecFns;
use crate::lex::spec_is_digit;

verus! {

/// The value of a run of decimal digits.
pub open spec fn decimal_value(d: Seq<u8>) -> int
    decreases d.len(),
{
    if d.len() == 0 {
        0
    } else {
        decimal_value(d.drop_last()) * 10 + (d.last() - 48)
    }
}

pub open spec fn all_digits(d: Seq<u8>) -> bool {
    forall|k: int| 0 <= k < d.len() ==> spec_is_digit(#[trigger] d[k])
}

/// Rust's `i64` literal grammar: an optional `+` or `-`, then one or more
/// ASCII digits, whose value fits an `i64`.
pub open spec fn spec_parse_i64(t: Seq<u8>) -> Option<i64> {
    if t.len() == 0 {
        None
    } else {
        let neg = t[0] == 45u8;
        let digits = if t[0] == 45u8 || t[0] == 43u8 {
            t.subrange(1, t.len() as int)
        } else {
            t
        };
        if digits.len() == 0 || !all_digits(digits) {
            None
        } else {
            let v = if neg {
                -decimal_value(digits)
            } else {
                decimal_value(digits)
            };
            if i64::MIN <= v <= i64::MAX {
                Some(v as i64)
            } else {
                None
            }
        }
    }
}

/// An MCNP integer: one leading `+` is tolerated on top of Rust's grammar.
pub open spec fn spec_parse_int(s: Seq<u8>) -> Option<i64> {
    if s.len() > 0 && s[0] == 43u8 {
        spec_parse_i64(s.subrange(1, s.len() as int))
    } else {
        spec_parse_i64(s)
    }
}

pub proof fn lemma_decimal_value_nonneg(d: Seq<u8>)
    requires
        all_digits(d),
    ensures
        decimal_value(d) >= 0,
    decreases d.len(),
{
    if d.len() > 0 {
        assert(all_digits(d.drop_last())) by {
            assert forall|k: int| 0 <= k < d.drop_last().len() implies spec_is_digit(
                #[trigger] d.drop_last()[k],
            ) by {
                assert(d.drop_last()[k] == d[k]);
            }
        }
        lemma_decimal_value_nonneg(d.drop_last());
        assert(spec_is_digit(d[d.len() - 1]));
    }
}

/// The value of the digits grows as digits are appended.
proof fn lemma_decimal_value_mono(d: Seq<u8>, k: int)
    requires
        all_digits(d),
        0 <= k <= d.len(),
    ensures
        decimal_value(d.subrange(0, k)) <= decimal_value(d),
    decreases d.len() - k,
{
    if k < d.len() {
        let p = d.subrange(0, k + 1);
        assert(p.drop_last() =~= d.subrange(0, k));
        assert(spec_is_digit(d[k]));
        assert(all_digits(d.subrange(0, k))) by {
            assert forall|m: int| 0 <= m < k implies spec_is_digit(#[trigger] d.subrange(0, k)[m]) by {
                assert(d.subrange(0, k)[m] == d[m]);
            }
        }
        lemma_decimal_value_nonneg(d.subrange(0, k));
        lemma_decimal_value_mono(d, k + 1);
    } else {
        assert(d.subrange(0, k) =~= d);
    }
}

/// Parse `s[from..to]` as an `i64` with Rust's grammar.
pub fn parse_i64_range(s: &[u8], from: usize, to: usize) -> (r: Option<i64>)
    requires
        from <= to <= s@.len(),
    ensures
        r == spec_parse_i64(s@.subrange(from as int, to as int)),
{
    let ghost t = s@.subrange(from as int, to as int);
    if from == to {
        return None;
    }
    let neg = s[from] == 45u8;
    let start = if s[from] == 45u8 || s[from] == 43u8 {
        from + 1
    } else {
        from
    };
    let ghost digits = s@.subrange(start as int, to as int);
    proof {
        assert(t[0] == s@[from as int]);
        if s@[from as int] == 45u8 || s@[from as int] == 43u8 {
            assert(t.subrange(1, t.len() as int) =~= digits);
        } else {
            assert(t =~= digits);
        }
    }
    if start == to {
        return None;
    }
    // Accumulate towards the sign, so that `i64::MIN` is reachable.
    let mut acc: i64 = 0;
    let mut i = start;
    while i < to
        invariant
            from <= start <= i <= to <= s@.len(),
            digits == s@.subrange(start as int, to as int),
            t == s@.subrange(from as int, to as int),
            t.len() > 0,
            digits.len() > 0,
            neg == (t[0] == 45u8),
            (t[0] == 45u8 || t[0] == 43u8) ==> t.subrange(1, t.len() as int) == digits,
            !(t[0] == 45u8 || t[0] == 43u8) ==> t == digits,
            neg ==> acc <= 0,
            !neg ==> acc >= 0,
            all_digits(s@.subrange(start as int, i as int)),
            neg ==> acc == -decimal_value(s@.subrange(start as int, i as int)),
            !neg ==> acc == decimal_value(s@.subrange(start as int, i as int)),
        decreases to - i,
    {
        let b = s[i];
        let ghost pre = s@.subrange(start as int, i as int);
        let ghost next = s@.subrange(start as int, i + 1);
        proof {
            assert(next.drop_last() =~= pre);
            assert(next.last() == b);
        }
        if !(48u8 <= b && b <= 57u8) {
            proof {
                assert(digits[i - start] == b);
                assert(!spec_is_digit(digits[i - start]));
            }
            return None;
        }
        let d = (b - 48u8) as i64;
        proof {
            assert(decimal_value(next) == decimal_value(pre) * 10 + d);
            lemma_all_digits_prefix(s@, start as int, i + 1, to as int);
            assert(digits.subrange(0, i + 1 - start) =~= next);
            if all_digits(digits) {
                lemma_decimal_value_mono(digits, i + 1 - start);
            }
        }
        if neg {
            if acc < -922337203685477580i64 || (acc == -922337203685477580i64 && d > 8) {
                proof {
                    assert(decimal_value(next) > -(i64::MIN as int));
                }
                return None;
            }
            acc = acc * 10 - d;
        } else {
            if acc > 922337203685477580i64 || (acc == 922337203685477580i64 && d > 7) {
                proof {
                    assert(decimal_value(next) > i64::MAX);
                }
                return None;
            }
            acc = acc * 10 + d;
        }
        proof {
            assert(all_digits(next)) by {
                assert forall|k: int| 0 <= k < next.len() implies spec_is_digit(#[trigger] next[k]) by {
                    if k < pre.len() {
                        assert(next[k] == pre[k]);
                    }
                }
            }
        }
        i = i + 1;
    }
    proof {
        assert(s@.subrange(start as int, i as int) =~= digits);
    }
    Some(acc)
}

/// If the digits of a longer run all are digits, so are those of its prefix,
/// and the whole run up to `to` must be digits for a value to exist.
proof fn lemma_all_digits_prefix(s: Seq<u8>, start: int, k: int, to: int)
    requires
        0 <= start <= k <= to <= s.len(),
    ensures
        all_digits(s.subrange(start, to)) ==> all_digits(s.subrange(start, k)),
{
    if all_digits(s.subrange(start, to)) {
        assert forall|m: int| 0 <= m < k - start implies spec_is_digit(
            #[trigger] s.subrange(start, k)[m],
        ) by {
            assert(s.subrange(start, k)[m] == s.subrange(start, to)[m]);
        }
    }
}

/// Parse an MCNP integer literal from bytes (a leading `+` is allowed).
pub fn parse_int_bytes(s: &[u8]) -> (r: Option<i64>)
    ensures
        r == spec_parse_int(s@),
{
    if s.len() > 0 && s[0] == 43u8 {
        let r = parse_i64_range(s, 1, s.len());
        r
    } else {
        proof {
            assert(s@.subrange(0, s@.len() as int) =~= s@);
        }
        parse_i64_range(s, 0, s.len())
    }
}

/// Parse an MCNP integer literal (allows a leading `+`).
pub fn parse_int(s: &str) -> (r: Option<i64>)
    ensures
        r == spec_parse_int(s.spec_bytes()),
{
    parse_int_bytes(s.as_bytes())
}

} // verus!
