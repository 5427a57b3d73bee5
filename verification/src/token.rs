//! Tokens: a kind plus a byte range within the owning card's text.

use vstd::prelude::*;
use crate::kind::{SyntaxKind, spec_is_trivia};

verus! {

/// One token of a card. Spans are relative to the card's own text.
#[derive(Debug, Clone, Copy, PartialEq, Eq, Structural)]
pub struct Token {
    pub kind: SyntaxKind,
    pub start: u32,
    pub len: u32,
}

impl Token {
    pub open spec fn spec_end(self) -> int {
        self.start + self.len
    }

    pub fn new(kind: SyntaxKind, start: usize, len: usize) -> (t: Token)
        requires
            start + len <= u32::MAX,
        ensures
            t.kind == kind,
            t.start == start,
            t.len == len,
    {
        Token { kind, start: start as u32, len: len as u32 }
    }

    pub fn end(&self) -> (r: u32)
        requires
            self.start + self.len <= u32::MAX,
        ensures
            r == self.spec_end(),
    {
        self.start + self.len
    }

    /// The token's byte range within the card's text.
    pub fn range(&self) -> (r: std::ops::Range<usize>)
        requires
            self.start + self.len <= u32::MAX,
        ensures
            r.start == self.start,
            r.end == self.spec_end(),
    {
        (self.start as usize)..((self.start + self.len) as usize)
    }

    pub fn is_trivia(&self) -> (r: bool)
        ensures
            r == spec_is_trivia(self.kind),
    {
        self.kind.is_trivia()
    }
}

/// Tokens lie inside `[lo, hi)`, in order and without overlap.
pub open spec fn tokens_within(ts: Seq<Token>, lo: int, hi: int) -> bool {
    &&& forall|i: int| 0 <= i < ts.len() ==> lo <= #[trigger] ts[i].start && ts[i].spec_end() <= hi
    &&& forall|i: int, j: int|
        0 <= i < j < ts.len() ==> (#[trigger] ts[i]).spec_end() <= (#[trigger] ts[j]).start
}

/// Tokens index a text of `n` bytes.
pub open spec fn tokens_wf(ts: Seq<Token>, n: int) -> bool {
    tokens_within(ts, 0, n)
}

pub proof fn lemma_tokens_within_concat(a: Seq<Token>, b: Seq<Token>, lo: int, mid: int, hi: int)
    requires
        tokens_within(a, lo, mid),
        tokens_within(b, mid, hi),
        lo <= mid <= hi,
    ensures
        tokens_within(a + b, lo, hi),
{
    let c = a + b;
    assert forall|i: int| 0 <= i < c.len() implies lo <= #[trigger] c[i].start && c[i].spec_end() <= hi by {
        if i < a.len() {
            assert(c[i] == a[i]);
        } else {
            assert(c[i] == b[i - a.len()]);
        }
    }
    assert forall|i: int, j: int| 0 <= i < j < c.len() implies (#[trigger] c[i]).spec_end() <= (
    #[trigger] c[j]).start by {
        if j < a.len() {
            assert(c[i] == a[i] && c[j] == a[j]);
        } else if i >= a.len() {
            assert(c[i] == b[i - a.len()] && c[j] == b[j - a.len()]);
        } else {
            assert(c[i] == a[i] && c[j] == b[j - a.len()]);
        }
    }
}

pub proof fn lemma_tokens_within_widen(a: Seq<Token>, lo: int, hi: int, lo2: int, hi2: int)
    requires
        tokens_within(a, lo, hi),
        lo2 <= lo,
        hi <= hi2,
    ensures
        tokens_within(a, lo2, hi2),
{
}

} // verus!
