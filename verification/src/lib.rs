//! A boolean filter expression language over named tags.
//!
//! A source string such as `abc & !(xyz | dwf)` is turned into an immutable
//! abstract syntax tree in two verified stages: the lexer turns the text into
//! a flat token sequence, and the recursive-descent parser turns that
//! sequence into the tree (or a descriptive syntax error).

pub mod ops;
pub mod token;
pub mod lexer;
pub mod parser;
pub mod expr;
pub mod laws;
