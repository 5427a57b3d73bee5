//! Lexical and structural categories.

use vstd::prelude::*;
use crate::bytes::{find_byte, first_index_of};

verus! {

/// Lexical categories.
///
/// Tokens do not tile a card's text: whitespace and line terminators produce no
/// token. Comments and `&` are tokens because readers must skip them.
#[derive(Debug, Clone, Copy, PartialEq, Eq, Hash, Structural)]
pub enum SyntaxKind {
    /// A numeric word: `1`, `-1.0`, `1e-3`, `+558.36`, a ZAID like `1001.31c`,
    /// or a data-array shortcut like `3R` (kept verbatim).
    Number,
    /// A word starting with a letter or `_`.
    Ident,
    Colon,
    Eq,
    Star,
    Hash,
    LParen,
    RParen,
    /// A `$ ...` inline comment, or a whole `c ...` comment line inside a card.
    Comment,
    /// A `&` continuation marker.
    Ampersand,
    /// Any word that cannot be classified; its bytes are kept like any other.
    Unknown,
}

/// Trivia: kept in the text but skipped by every typed reader.
pub open spec fn spec_is_trivia(k: SyntaxKind) -> bool {
    k == SyntaxKind::Comment || k == SyntaxKind::Ampersand
}

impl SyntaxKind {
    /// Trivia is preserved but skipped by every typed projection.
    pub fn is_trivia(self) -> (r: bool)
        ensures
            r == spec_is_trivia(self),
    {
        match self {
            SyntaxKind::Comment | SyntaxKind::Ampersand => true,
            _ => false,
        }
    }
}

/// What kind of card this is, decided from block position and leading bytes.
#[derive(Debug, Clone, Copy, PartialEq, Eq, Hash, Structural)]
pub enum CardKind {
    /// The single free-text line that names the model.
    Title,
    Cell,
    Surface,
    Data,
    /// A standalone full-line comment not attached to any card.
    Comment,
    /// A blank line; blank lines delimit the blocks.
    Blank,
    /// A line of the optional leading `MESSAGE:` block.
    Message,
    /// Anything after the data block's terminating blank line.
    Trailing,
}

/// Cards that carry typed content, as opposed to layout trivia.
pub open spec fn spec_is_content(k: CardKind) -> bool {
    k == CardKind::Cell || k == CardKind::Surface || k == CardKind::Data
}

impl CardKind {
    /// Cards that carry typed content (as opposed to layout trivia).
    pub fn is_content(self) -> (r: bool)
        ensures
            r == spec_is_content(self),
    {
        match self {
            CardKind::Cell | CardKind::Surface | CardKind::Data => true,
            _ => false,
        }
    }
}

/// The line terminator a file uses.
#[derive(Debug, Clone, Copy, PartialEq, Eq, Structural)]
pub enum Eol {
    Lf,
    Crlf,
}

/// The bytes of a line terminator.
pub open spec fn eol_bytes(e: Eol) -> Seq<u8> {
    match e {
        Eol::Lf => seq![10u8],
        Eol::Crlf => seq![13u8, 10u8],
    }
}

/// The terminator of a file: CRLF exactly when its first `\n` follows a `\r`.
pub open spec fn spec_detect_eol(src: Seq<u8>) -> Eol {
    match first_index_of(src, 10u8, 0) {
        Some(i) => if i > 0 && src[i - 1] == 13u8 {
            Eol::Crlf
        } else {
            Eol::Lf
        },
        None => Eol::Lf,
    }
}

impl Eol {
    /// The terminator's text.
    pub fn as_str(self) -> (r: &'static str)
        ensures
            r@ == (match self {
                Eol::Lf => seq!['\n'],
                Eol::Crlf => seq!['\r', '\n'],
            }),
    {
        match self {
            Eol::Lf => {
                let s = "\n";
                proof {
                    reveal_strlit("\n");
                }
                s
            },
            Eol::Crlf => {
                let s = "\r\n";
                proof {
                    reveal_strlit("\r\n");
                }
                s
            },
        }
    }

    /// The terminator's bytes.
    pub fn as_bytes(self) -> (r: Vec<u8>)
        ensures
            r@ == eol_bytes(self),
    {
        match self {
            Eol::Lf => vec![10u8],
            Eol::Crlf => vec![13u8, 10u8],
        }
    }

    /// Detect from the first line terminator in `src`; defaults to `\n`.
    pub fn detect(src: &[u8]) -> (r: Eol)
        ensures
            r == spec_detect_eol(src@),
    {
        proof {
            assert(src@.subrange(0, src@.len() as int) =~= src@);
            crate::bytes::lemma_first_index_of(src@, 10u8, 0);
        }
        match find_byte(src, 10u8, 0, src.len()) {
            Some(i) => if i > 0 && src[i - 1] == 13u8 {
                Eol::Crlf
            } else {
                Eol::Lf
            },
            None => Eol::Lf,
        }
    }
}

} // verus!
