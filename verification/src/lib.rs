use vstd::prelude::*;

pub mod c1_parser;
pub mod completeness;
pub mod grammar;
pub mod lexer;
pub mod lexer_laws;
pub mod locality;
pub mod soundness;
pub mod text;

pub use c1_parser::C1Parser;
pub use lexer::C1Lexer;
pub use lexer::C1Token;

verus! {

/// The result of a parse: `Ok` or the message of the first error.
pub type ParseResult = Result<(), String>;

} // verus!
