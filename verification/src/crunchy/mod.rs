//! The crunchy layer: a tiling lexer over the whole file, a flat lossless
//! tree of cards over its tokens, and the typed cell geometry, surface kinds
//! and renumbering built on it.

pub mod syntax_kind;
pub mod lexer;
pub mod flat;
pub mod diagnostics;
pub mod cst;
pub mod geom;
pub mod surface_kind;
pub mod emit;
pub mod parser;
pub mod cell;
pub mod renumber;
pub mod surface;
pub mod data_cards;
pub mod params;
pub mod deck;
