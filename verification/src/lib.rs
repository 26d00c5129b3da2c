//! A verified lexer and parser for a restricted Markdown dialect.
//!
//! The pipeline turns an in-memory text buffer into a stream of position-tagged
//! tokens (`lexer`), parses those tokens into block-level statements with
//! per-construct error recovery (`parser`), and can serialize statements back
//! to text (`stmt`).  A separate line-oriented tokenizer (`tokenizer`) offers a
//! coarser, whole-line view of the same dialect.

pub mod chars;
pub mod lexer;
pub mod parser;
pub mod roundtrip;
pub mod stmt;
pub mod tokenizer;
pub mod tokens;
