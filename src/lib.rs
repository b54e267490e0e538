//! Arithmetic expressions: tokenizing, parsing into a syntax tree, and
//! position-addressed syntax errors.

mod text;
pub mod text_range;
pub mod ast;
pub mod factorial;
pub mod token_types;
pub mod lexer;
pub mod number;
pub mod scan;
pub mod grammar;
pub mod input_error;
pub mod order;
pub mod render;
pub mod round_trip;
