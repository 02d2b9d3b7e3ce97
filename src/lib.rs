//! A tokenizer for a small SQL-like query language.
//!
//! Text is read by a [`reader::StringReader`] cursor that tracks byte
//! positions, and [`lexer::Lexer`] turns it into classified, position-tagged
//! tokens, one per call.
use vstd::prelude::*;

pub mod text;
pub mod token;
pub mod reader;
pub mod lexer;
pub mod stream;

verus! {

} // verus!
