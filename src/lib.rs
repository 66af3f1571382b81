pub mod attributes;
pub mod lex;
pub mod nesting;
pub mod node;
pub mod parse;
pub mod tag;
