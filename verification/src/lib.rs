//! A JSON reader: a lexical scanner that turns text into structured tokens,
//! and a recursive-descent parser that builds an ordered, literal-preserving
//! value tree from them.

pub mod number;
pub mod tokenizer;
pub mod value;
pub mod parser;
pub mod laws;
