pub mod language;
pub mod regex;
pub mod scan;
pub mod surface;
pub mod lexer;
pub mod nfa;
pub mod token;
pub mod turkey_lexer;
pub mod dfa;
pub mod engine;

pub use crate::lexer::engine::Lexeme;
pub use crate::lexer::engine::Rule;
pub use crate::lexer::lexer::Lexer;
pub use crate::lexer::token::Token;
pub use crate::lexer::turkey_lexer::Mode;
