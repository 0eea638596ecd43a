//! A small register machine for a four-instruction assembly language
//! (`mov`, `inc`, `dec`, `jnz`): a parser from text lines to instructions and
//! an engine that runs them over a file of named signed registers.
pub mod registers;
pub mod program;
pub mod vm;
pub mod parse;
pub mod laws;
