use vstd::prelude::*;

verus! {

/// The kinds of token of an S-expression.
#[derive(Copy, Clone, PartialEq, Eq, Debug)]
pub enum SexprTokenKind {
    LParen,
    RParen,
    LBrace,
    RBrace,
    LBracket,
    RBracket,
    Identifier,
    String,
    Integer,
    Float,
    Comment,
    Whitespace,
    Newline,
}

/// The modes of the lexer of S-expressions.
#[derive(Copy, Clone, PartialEq, Eq, Debug)]
pub enum SexprMode {
    Default,
    Comment,
}

impl Default for SexprMode {
    /// The mode in which a scan starts.
    fn default() -> (m: Self)
        ensures
            m == SexprMode::Default,
    {
        SexprMode::Default
    }
}

} // verus!
