//! A lossless syntax tree stored as flat arrays over the original source.
//!
//! Tokens tile the source with no gaps, so a token is stored as its kind and
//! its length; its text is recovered as a span of the source. Lines are a
//! flat list of boundaries.

use vstd::prelude::*;
use vstd::string::StringSliceAdditionalSpecFns;
use crate::crunchy::lexer::{lex, law_lex_tiles_input, spec_lex, tiles, Lexeme};
use crate::crunchy::syntax_kind::SyntaxKind;

verus! {

/// Token positions at which a line begins: the first token, and every token
/// after a line terminator.
pub open spec fn line_starts_of(ts: Seq<Lexeme>) -> Seq<u32>
    decreases ts.len(),
{
    if ts.len() == 0 {
        Seq::empty()
    } else {
        let r = line_starts_of(ts.drop_last());
        let i = ts.len() - 1;
        if i == 0 || ts[i - 1].kind == SyntaxKind::NEWLINE {
            r.push(i as u32)
        } else {
            r
        }
    }
}

/// A lossless syntax tree as parallel arrays over the source it was built
/// from.
pub struct FlatTree {
    /// Token kinds, in source order.
    kinds: Vec<SyntaxKind>,
    /// Token byte lengths, in source order (start offsets are implicit).
    lens: Vec<u32>,
    /// Token index at which each line begins.
    line_starts: Vec<u32>,
    /// The source the tree was built from, and its tokens.
    src: Ghost<Seq<u8>>,
    toks: Ghost<Seq<Lexeme>>,
}

impl FlatTree {
    pub closed spec fn spec_src(&self) -> Seq<u8> {
        self.src@
    }

    /// The tokens of the source.
    pub closed spec fn spec_tokens(&self) -> Seq<Lexeme> {
        self.toks@
    }

    pub closed spec fn spec_line_starts(&self) -> Seq<u32> {
        self.line_starts@
    }

    /// The arrays hold the tokens of the source, and the line boundaries.
    pub closed spec fn wf(&self) -> bool {
        &&& self.toks@ == spec_lex(self.src@)
        &&& self.src@.len() <= u32::MAX
        &&& self.kinds@.len() == self.toks@.len()
        &&& self.lens@.len() == self.toks@.len()
        &&& forall|i: int|
            0 <= i < self.toks@.len() ==> self.kinds@[i] == (#[trigger] self.toks@[i]).kind
                && self.lens@[i] == self.toks@[i].len
        &&& self.line_starts@ == line_starts_of(self.toks@)
    }

    /// What a well-formed flat tree holds: the tokens of its source, which
    /// tile it from byte 0 to its end, and the line starts of those tokens.
    pub proof fn lemma_wf(&self)
        requires
            self.wf(),
        ensures
            self.spec_tokens() == spec_lex(self.spec_src()),
            tiles(self.spec_tokens(), 0, self.spec_src().len() as int),
            self.spec_src().len() <= u32::MAX,
            self.spec_line_starts() == line_starts_of(self.spec_tokens()),
    {
        law_lex_tiles_input(self.spec_src());
    }

    /// Number of tokens.
    pub fn token_count(&self) -> (r: usize)
        requires
            self.wf(),
        ensures
            r == self.spec_tokens().len(),
    {
        self.kinds.len()
    }

    /// Number of lines.
    pub fn line_count(&self) -> (r: usize)
        requires
            self.wf(),
        ensures
            r == line_starts_of(self.spec_tokens()).len(),
    {
        self.line_starts.len()
    }

    /// Reconstruct the source by walking the tokens' spans (not by returning
    /// a stored copy): the result is the source, byte for byte.
    pub fn to_string(&self, src: &str) -> (r: Vec<u8>)
        requires
            self.wf(),
            src.spec_bytes() == self.spec_src(),
        ensures
            r@ == src.spec_bytes(),
    {
        let s = src.as_bytes();
        let ghost ts = self.toks@;
        proof {
            law_lex_tiles_input(s@);
            assert(ts.skip(0) =~= ts);
        }
        let mut out: Vec<u8> = Vec::new();
        let mut off: usize = 0;
        let mut k: usize = 0;
        while k < self.lens.len()
            invariant
                self.wf(),
                s@ == self.src@,
                ts == self.toks@,
                k <= ts.len(),
                off <= s@.len(),
                tiles(ts.skip(k as int), off as int, s@.len() as int),
                out@ == s@.subrange(0, off as int),
            decreases ts.len() - k,
        {
            let len = self.lens[k] as usize;
            proof {
                let rest = ts.skip(k as int);
                assert(rest[0] == ts[k as int]);
                assert(rest.drop_first() =~= ts.skip(k + 1));
                lemma_tiles_within(ts.skip(k + 1), off + len, s@.len() as int);
            }
            crate::bytes::push_range(&mut out, s, off, off + len);
            proof {
                assert(out@ =~= s@.subrange(0, (off + len) as int));
            }
            off = off + len;
            k = k + 1;
        }
        proof {
            assert(ts.skip(k as int) =~= Seq::<Lexeme>::empty());
            assert(s@.subrange(0, off as int) =~= s@);
        }
        out
    }
}

/// Tiling `[i, n)` keeps inside it.
pub proof fn lemma_tiles_within(ts: Seq<Lexeme>, i: int, n: int)
    requires
        tiles(ts, i, n),
    ensures
        i <= n,
    decreases ts.len(),
{
    if ts.len() > 0 {
        lemma_tiles_within(ts.drop_first(), i + ts[0].len, n);
    }
}

/// Build a lossless flat tree from `src`, with one line per physical line.
pub fn build_flat_tree(src: &str) -> (r: FlatTree)
    requires
        src.spec_bytes().len() <= u32::MAX,
    ensures
        r.wf(),
        r.spec_src() == src.spec_bytes(),
{
    let toks = lex(src.as_bytes());
    let ghost ts = toks@;
    let mut kinds: Vec<SyntaxKind> = Vec::new();
    let mut lens: Vec<u32> = Vec::new();
    let mut line_starts: Vec<u32> = Vec::new();
    let mut at_line_start = true;
    let mut k: usize = 0;
    proof {
        law_lex_tiles_input(src.spec_bytes());
        lemma_tiles_count(ts, 0, src.spec_bytes().len() as int);
    }
    while k < toks.len()
        invariant
            ts == toks@,
            ts.len() <= u32::MAX,
            k <= ts.len(),
            kinds@.len() == k,
            lens@.len() == k,
            forall|i: int|
                0 <= i < k ==> kinds@[i] == (#[trigger] ts[i]).kind && lens@[i] == ts[i].len,
            line_starts@ == line_starts_of(ts.subrange(0, k as int)),
            at_line_start == (k == 0 || ts[k - 1].kind == SyntaxKind::NEWLINE),
        decreases ts.len() - k,
    {
        let t = toks[k];
        proof {
            assert(ts.subrange(0, k + 1).drop_last() =~= ts.subrange(0, k as int));
        }
        if at_line_start {
            line_starts.push(k as u32);
            at_line_start = false;
        }
        kinds.push(t.kind);
        lens.push(t.len);
        if t.kind == SyntaxKind::NEWLINE {
            at_line_start = true;
        }
        k = k + 1;
    }
    proof {
        assert(ts.subrange(0, k as int) =~= ts);
    }
    FlatTree { kinds, lens, line_starts, src: Ghost(src.spec_bytes()), toks: Ghost(ts) }
}

/// A tiling of `[i, n)` by non-empty tokens has at most `n - i` tokens.
pub proof fn lemma_tiles_count(ts: Seq<Lexeme>, i: int, n: int)
    requires
        tiles(ts, i, n),
    ensures
        ts.len() <= n - i,
    decreases ts.len(),
{
    if ts.len() > 0 {
        lemma_tiles_count(ts.drop_first(), i + ts[0].len, n);
    }
}

} // verus!
