//! Front end of a compiler for a small protocol-definition language:
//! comment-aware preprocessing, lexing and parsing into per-file syntax
//! trees, and whole-program semantic checking.

pub mod ast;
pub mod compiler;
pub mod parser;
pub mod type_check;
pub mod lexer;
pub mod uncommenter;
