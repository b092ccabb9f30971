pub mod lexer;
pub mod nfa;
pub mod alive;
pub mod paths;
pub mod thompson;
pub mod regex;
