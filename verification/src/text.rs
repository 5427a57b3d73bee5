//! Whitespace trimming of UTF-8 text, as `str::trim` does it: every leading
//! and trailing character with the Unicode `White_Space` property goes.

use vstd::prelude::*;

verus! {

/// Length in bytes of the UTF-8 encoded whitespace character starting at
/// `i`, or 0 when none starts there. The characters are U+0009..U+000D,
/// U+0020, U+0085, U+00A0, U+1680, U+2000..U+200A, U+2028, U+2029, U+202F,
/// U+205F and U+3000.
pub open spec fn ws_at(s: Seq<u8>, i: int) -> int {
    if 0 <= i < s.len() && ((9u8 <= s[i] <= 13u8) || s[i] == 32u8) {
        1
    } else if 0 <= i && i + 1 < s.len() && s[i] == 0xC2u8 && (s[i + 1] == 0x85u8 || s[i + 1]
        == 0xA0u8) {
        2
    } else if 0 <= i && i + 2 < s.len() && ws3(s[i], s[i + 1], s[i + 2]) {
        3
    } else {
        0
    }
}

/// The three-byte encodings of the whitespace characters above.
pub open spec fn ws3(a: u8, b: u8, c: u8) -> bool {
    (a == 0xE1u8 && b == 0x9Au8 && c == 0x80u8) || (a == 0xE2u8 && b == 0x80u8 && (0x80u8 <= c
        <= 0x8Au8 || c == 0xA8u8 || c == 0xA9u8 || c == 0xAFu8)) || (a == 0xE2u8 && b == 0x81u8
        && c == 0x9Fu8) || (a == 0xE3u8 && b == 0x80u8 && c == 0x80u8)
}

/// Length in bytes of the whitespace character that ends just before `j`, or 0.
pub open spec fn ws_before(s: Seq<u8>, j: int) -> int {
    if 1 <= j <= s.len() && ws_at(s, j - 1) == 1 {
        1
    } else if 2 <= j <= s.len() && ws_at(s, j - 2) == 2 {
        2
    } else if 3 <= j <= s.len() && ws_at(s, j - 3) == 3 {
        3
    } else {
        0
    }
}

/// Where the text starts once leading whitespace from `i` on is skipped.
pub open spec fn trim_start_at(s: Seq<u8>, i: int) -> int
    decreases s.len() - i,
{
    if 0 <= i < s.len() && ws_at(s, i) > 0 {
        trim_start_at(s, i + ws_at(s, i))
    } else {
        i
    }
}

/// Where the text ends once trailing whitespace before `j` (but not before
/// `lo`) is dropped.
pub open spec fn trim_end_at(s: Seq<u8>, lo: int, j: int) -> int
    decreases j,
{
    if lo < j && ws_before(s, j) > 0 && j - ws_before(s, j) >= lo {
        trim_end_at(s, lo, j - ws_before(s, j))
    } else {
        j
    }
}

/// `s` without leading and trailing whitespace.
pub open spec fn spec_trim(s: Seq<u8>) -> Seq<u8> {
    let a = trim_start_at(s, 0);
    s.subrange(a, trim_end_at(s, a, s.len() as int))
}

pub proof fn lemma_trim_bounds(s: Seq<u8>, i: int, lo: int, j: int)
    requires
        0 <= i <= s.len(),
        0 <= lo <= j <= s.len(),
    ensures
        i <= trim_start_at(s, i) <= s.len(),
        lo <= trim_end_at(s, lo, j) <= j,
    decreases s.len() - i + j,
{
    if 0 <= i < s.len() && ws_at(s, i) > 0 {
        lemma_trim_bounds(s, i + ws_at(s, i), lo, j);
    }
    if lo < j && ws_before(s, j) > 0 && j - ws_before(s, j) >= lo {
        lemma_trim_bounds(s, i, lo, j - ws_before(s, j));
    }
}

/// Trimming never lengthens the text.
pub proof fn lemma_trim_len(s: Seq<u8>)
    ensures
        spec_trim(s).len() <= s.len(),
{
    lemma_trim_bounds(s, 0, 0, s.len() as int);
    let a = trim_start_at(s, 0);
    lemma_trim_bounds(s, 0, a, s.len() as int);
}

fn ws_len_at(s: &[u8], i: usize) -> (r: usize)
    requires
        i <= s@.len(),
    ensures
        r == ws_at(s@, i as int),
{
    let n = s.len();
    let rest = n - i;
    if rest >= 1 && ((9u8 <= s[i] && s[i] <= 13u8) || s[i] == 32u8) {
        1
    } else if rest >= 2 && s[i] == 0xC2u8 && (s[i + 1] == 0x85u8 || s[i + 1] == 0xA0u8) {
        2
    } else if rest >= 3 {
        let (a, b, c) = (s[i], s[i + 1], s[i + 2]);
        if (a == 0xE1u8 && b == 0x9Au8 && c == 0x80u8) || (a == 0xE2u8 && b == 0x80u8 && ((
        0x80u8 <= c && c <= 0x8Au8) || c == 0xA8u8 || c == 0xA9u8 || c == 0xAFu8)) || (a
            == 0xE2u8 && b == 0x81u8 && c == 0x9Fu8) || (a == 0xE3u8 && b == 0x80u8 && c
            == 0x80u8) {
            3
        } else {
            0
        }
    } else {
        0
    }
}

fn ws_len_before(s: &[u8], j: usize) -> (r: usize)
    requires
        j <= s@.len(),
    ensures
        r == ws_before(s@, j as int),
{
    if j >= 1 && ws_len_at(s, j - 1) == 1 {
        1
    } else if j >= 2 && ws_len_at(s, j - 2) == 2 {
        2
    } else if j >= 3 && ws_len_at(s, j - 3) == 3 {
        3
    } else {
        0
    }
}

/// `s` without leading and trailing whitespace.
pub fn trim(s: &[u8]) -> (r: &[u8])
    ensures
        r@ == spec_trim(s@),
{
    let n = s.len();
    let mut a: usize = 0;
    while a < n && ws_len_at(s, a) > 0
        invariant
            a <= n == s@.len(),
            trim_start_at(s@, 0) == trim_start_at(s@, a as int),
        decreases n - a,
    {
        a = a + ws_len_at(s, a);
    }
    let mut b: usize = n;
    while a < b && ws_len_before(s, b) > 0 && b - ws_len_before(s, b) >= a
        invariant
            a <= b <= n == s@.len(),
            trim_start_at(s@, 0) == a,
            trim_end_at(s@, a as int, n as int) == trim_end_at(s@, a as int, b as int),
        decreases b,
    {
        b = b - ws_len_before(s, b);
    }
    vstd::slice::slice_subrange(s, a, b)
}

} // verus!
