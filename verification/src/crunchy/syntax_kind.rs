//! The flat set of token and node kinds of the crunchy syntax tree.

use vstd::prelude::*;

verus! {

#[allow(non_camel_case_types)]
#[derive(Debug, Clone, Copy, PartialEq, Eq, Hash, Structural)]
pub enum SyntaxKind {
    /// UTF-8 byte-order mark at the very start of the file.
    BOM,
    /// A run of spaces and/or tabs (never contains a newline).
    WHITESPACE,
    /// A line terminator: `\n`, `\r`, or `\r\n`.
    NEWLINE,
    /// A full-line comment (`c`/`C` in the name field through end of line).
    COMMENT_LINE,
    /// An inline comment introduced by `$` through end of line.
    DOLLAR_COMMENT,
    /// A numeric literal.
    NUMBER,
    /// An identifier / mnemonic / keyword.
    IDENT,
    /// `:`
    COLON,
    /// `#`
    HASH,
    /// `(`
    L_PAREN,
    /// `)`
    R_PAREN,
    /// `&`: explicit line continuation.
    AMP,
    /// `=`
    EQ,
    /// `*`
    STAR,
    /// Any byte not otherwise classified.
    UNKNOWN,
    /// A message block card.
    MESSAGE_CARD,
    /// The title card.
    TITLE_CARD,
    /// A cell card.
    CELL_CARD,
    /// A surface card.
    SURFACE_CARD,
    /// A data card.
    DATA_CARD,
    /// One physical source line.
    LINE,
    /// The whole file.
    ROOT,
}

pub open spec fn spec_is_trivia(k: SyntaxKind) -> bool {
    k == SyntaxKind::WHITESPACE || k == SyntaxKind::NEWLINE || k == SyntaxKind::COMMENT_LINE || k
        == SyntaxKind::DOLLAR_COMMENT || k == SyntaxKind::BOM
}

pub open spec fn spec_is_card(k: SyntaxKind) -> bool {
    k == SyntaxKind::MESSAGE_CARD || k == SyntaxKind::TITLE_CARD || k == SyntaxKind::CELL_CARD || k
        == SyntaxKind::SURFACE_CARD || k == SyntaxKind::DATA_CARD
}

impl SyntaxKind {
    /// Tokens that carry no meaning: whitespace, newlines, comments, the BOM.
    pub fn is_trivia(self) -> (r: bool)
        ensures
            r == spec_is_trivia(self),
    {
        match self {
            SyntaxKind::WHITESPACE | SyntaxKind::NEWLINE | SyntaxKind::COMMENT_LINE
            | SyntaxKind::DOLLAR_COMMENT | SyntaxKind::BOM => true,
            _ => false,
        }
    }

    /// The card-level node kinds.
    pub fn is_card(self) -> (r: bool)
        ensures
            r == spec_is_card(self),
    {
        match self {
            SyntaxKind::MESSAGE_CARD | SyntaxKind::TITLE_CARD | SyntaxKind::CELL_CARD
            | SyntaxKind::SURFACE_CARD | SyntaxKind::DATA_CARD => true,
            _ => false,
        }
    }
}

/// The language tag of the crunchy syntax tree.
#[derive(Debug, Clone, Copy, PartialEq, Eq, Hash, Structural)]
pub enum McnpLang {
    Mcnp,
}

} // verus!
