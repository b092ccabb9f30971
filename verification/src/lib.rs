//! A multi-mode, longest-match, streaming lexer built on regular-expression
//! derivatives, together with the automata and containers that surround it.

pub mod lang;
pub mod lex;
pub mod lexer;
pub mod matcher;
pub mod regex;
pub mod sexpr;
pub mod share;
pub mod utils;
