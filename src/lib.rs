//! Front end of a compiler for a small synchronous dataflow language:
//! a lexer, and a combinator engine that builds lossless, error-tolerant
//! syntax trees over a token stream.

pub mod green;
pub mod error;
pub mod rowan_nom;
pub mod lexer;
pub mod lustre;
pub mod source;
