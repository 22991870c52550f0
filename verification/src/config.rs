//! From configuration text to directives: the token kinds, the tokenizer,
//! the directive tree and the parser.

pub mod laws;
pub mod lexer;
pub mod parser;
pub mod token;
pub mod tree;

pub use lexer::{tokenize, Lexer};
pub use parser::{compile, exec, parse};
pub use token::Token;
pub use tree::{Config, ConfigExecType, ConfigTree};
