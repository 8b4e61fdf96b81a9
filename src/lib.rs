//! Evaluation of integer arithmetic expressions written as text: a lexer, a
//! recursive-descent parser and a constant-folding simplifier over a small
//! algebra of natural, imaginary and complex integer values.

pub mod values;
pub mod text;
pub mod lexer;
pub mod ast_parser;
