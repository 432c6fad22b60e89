//! A JSON reader: a lexer that turns characters into tokens, a recursive-descent
//! parser that turns tokens into a tree of values, and the value model itself.
//!
//! Every executable function carries a contract over a mathematical model of the
//! text, a `Seq<char>`: `lexer::lex` says which token stands at an offset, and
//! `parser::parse_value` which value. The module `text` goes the other way, from
//! a value to its texts, and proves that reading a text gives the value back;
//! the module `whitespace` proves that whitespace between the tokens of any text
//! changes nothing of what is read.

pub mod chars;
pub mod error;
pub mod lexer;
pub mod number;
pub mod parser;
pub mod position;
pub mod text;
pub mod token;
pub mod value;
pub mod whitespace;
