//! A lossless, recoverable MCNP input parser.
//!
//! The syntax layer splits a file into self-contained cards whose texts
//! concatenate back to the input byte for byte; typed views read cells,
//! surfaces and data cards out of each card's tokens on demand.

pub mod bytes;
pub mod fx;
pub mod text;
pub mod kind;
pub mod token;
pub mod lines;
pub mod lex;
pub mod card;
pub mod segment;
pub mod cst;
pub mod num;
pub mod decimal;
pub mod float;
pub mod scan;
pub mod cell;
pub mod surface;
pub mod data;
pub mod model;
pub mod view;
pub mod diagnostic;
pub mod edit;
pub mod renumber;
pub mod compose;
pub mod report;
pub mod crunchy;

pub use card::Card;
pub use cell::{CellParam, Fill, GeometryTerm, GeometryTermKind};
pub use cst::Cst;
pub use diagnostic::{Diagnostic, Severity};
pub use edit::EditError;
pub use kind::{CardKind, Eol, SyntaxKind};
pub use model::Model;
pub use token::Token;
pub use view::{CellView, DataCardView, MaterialView, SurfaceView, TransformView};
