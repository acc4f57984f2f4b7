//! Front end of a small domain-specific language for musical sequences.
//!
//! Source text is tokenized on whitespace, parsed by recursive descent into a
//! [`SyntaxTree`] of statements (variable declarations, function declarations,
//! and expressions over note, number and chord values), and each subtree is
//! stamped with the `Type` of its last expression.

pub mod ast;
pub mod printer;
pub mod parser;
pub mod lexer;
pub mod strutil;

pub use ast::{Expression, Operator, ParseError, SyntaxTree, Transition, Type};
pub use lexer::{is_note_literal, is_numeric_literal, tokenize};
pub use parser::{parse, parse_tokens};
pub use printer::print_tree;
