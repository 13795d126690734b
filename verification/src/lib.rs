//! NanoTero: a parser for `.tero` configuration files.
//!
//! The document is read by a lexer ([`Lexer`]) that hands out one token at a
//! time, and by pull parsers ([`ScopeTracker`], [`ArrayTracker`]) that read
//! object entries and array elements from it.
use vstd::prelude::*;

pub mod utf8_facts;
pub mod grammar;
pub mod source;
pub mod token;
pub mod lexer;
pub mod parser;
pub mod text;
pub mod report;
pub mod text_format;
pub mod error;
pub mod deserialize;
pub mod value;
pub mod collections;
pub mod document;
pub mod laws;
pub mod loom_lexer;
pub mod loom_parser;

pub use source::{Location, Span, SpanView, Src, ScalarStep, SrcWord};
pub use token::{LexError, Token, FloatLiteral, FloatKind};
pub use lexer::{Lexer, LexerState};
pub use parser::{EvalError, ScopeTracker, ArrayTracker, FieldValue, Field};
pub use text_format::unescape_string;
pub use error::TeroError;
pub use deserialize::Deserialize;
pub use value::{Value, FloatValue, Magnitude};
pub use document::{from_str, read_field, check_field};

verus! {

} // verus!
