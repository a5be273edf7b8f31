//! SQL text: tokens, syntax trees and the parser.

pub mod ast;
pub mod lexer;
pub mod parser;
