use crate::lexer::language::Re;
use crate::lexer::regex::Regex;
use vstd::prelude::*;

verus! {

/// The kinds of token of the Lisp-like surface.
#[derive(Debug, Clone, Copy, PartialEq, Eq, Hash)]
pub enum Token {
    LParen,
    RParen,
    LBrace,
    RBrace,
    LBracket,
    RBracket,
    Quote,
    BackQuote,
    DoubleQuote,
    Comma,
    Dot,
    Semicolon,
    Comment,
    Whitespace,
    Newline,
    Identifier,
    Integer,
    Float,
    String,
    StringEscape,
}

/// The term of a decimal digit.
pub open spec fn digit() -> Re {
    Re::Range('0', '9')
}

/// The term of a letter of the basic Latin alphabet.
pub open spec fn alpha() -> Re {
    Re::union(Re::Range('a', 'z'), Re::Range('A', 'Z'))
}

/// The term of the code points that start an identifier: the letters, and
/// every code point that is no bracket, no punctuation of the surface, no
/// blank and no digit.
pub open spec fn identifier_start() -> Re {
    Re::union(alpha(), Re::none_of("(){}[];,'\"` \t\n0123456789"@))
}

/// The term of the code points that continue an identifier.
pub open spec fn identifier_continue() -> Re {
    Re::union(identifier_start(), digit())
}

/// The term of an identifier.
pub open spec fn identifier() -> Re {
    Re::concat(identifier_start(), Re::star(identifier_continue()))
}

/// The term of an integer: digits after an optional sign.
pub open spec fn integer() -> Re {
    Re::concat(Re::opt(Re::one_of("-+"@)), Re::plus(digit()))
}

/// The term of an exponent.
pub open spec fn exponent() -> Re {
    Re::concat(Re::one_of("eE"@), integer())
}

/// The term of a float: an integer, a dot, an integer and an optional
/// exponent; or an integer and an exponent.
pub open spec fn float() -> Re {
    Re::union(
        Re::concat(Re::concat(Re::concat(integer(), Re::char('.')), integer()), Re::opt(exponent())),
        Re::concat(integer(), exponent()),
    )
}

impl Token {
    /// The term of the token.
    pub open spec fn term(self) -> Re {
        match self {
            Token::LParen => Re::char('('),
            Token::RParen => Re::char(')'),
            Token::LBrace => Re::char('{'),
            Token::RBrace => Re::char('}'),
            Token::LBracket => Re::char('['),
            Token::RBracket => Re::char(']'),
            Token::Quote => Re::char('\''),
            Token::BackQuote => Re::char('`'),
            Token::DoubleQuote => Re::char('"'),
            Token::Comma => Re::char(','),
            Token::Dot => Re::char('.'),
            Token::Semicolon => Re::char(';'),
            Token::Comment => Re::plus(Re::none_of("\n"@)),
            Token::Whitespace => Re::plus(Re::one_of(" \t"@)),
            Token::Newline => Re::char('\n'),
            Token::Identifier => identifier(),
            Token::Integer => integer(),
            Token::Float => float(),
            Token::String => Re::plus(Re::none_of("\"\\"@)),
            Token::StringEscape => Re::concat(Re::char('\\'), Re::Range('\0', '\u{10FFFF}')),
        }
    }

    /// The expression of the token.
    pub fn regex(&self) -> (r: Regex)
        ensures
            r.wf(),
            r@ == self.term(),
    {
        match self {
            Token::LParen => Self::regex_lparen(),
            Token::RParen => Self::regex_rparen(),
            Token::LBrace => Regex::char('{'),
            Token::RBrace => Regex::char('}'),
            Token::LBracket => Regex::char('['),
            Token::RBracket => Regex::char(']'),
            Token::Quote => Self::regex_quote(),
            Token::BackQuote => Regex::char('`'),
            Token::DoubleQuote => Self::regex_double_quote(),
            Token::Comma => Self::regex_comma(),
            Token::Dot => Self::regex_dot(),
            Token::Semicolon => Self::regex_semicolon(),
            Token::Comment => Self::regex_comment(),
            Token::Whitespace => Self::regex_whitespace(),
            Token::Newline => Self::regex_newline(),
            Token::Identifier => Self::regex_identifier(),
            Token::Integer => Self::regex_integer(),
            Token::Float => Self::regex_float(),
            Token::String => Regex::none_of("\"\\").plus(),
            Token::StringEscape => Regex::char('\\').concat(&Regex::any()),
        }
    }

    fn regex_lparen() -> (r: Regex)
        ensures
            r.wf(),
            r@ == Re::char('('),
    {
        Regex::char('(')
    }

    fn regex_rparen() -> (r: Regex)
        ensures
            r.wf(),
            r@ == Re::char(')'),
    {
        Regex::char(')')
    }

    fn regex_identifier() -> (r: Regex)
        ensures
            r.wf(),
            r@ == identifier(),
    {
        let alpha = Regex::range('a', 'z').union(&Regex::range('A', 'Z'));
        let ident_start = alpha.union(&Regex::none_of("(){}[];,'\"` \t\n0123456789"));
        let ident_continue = ident_start.union(&Regex::range('0', '9'));
        ident_start.concat(&ident_continue.star())
    }

    fn regex_integer() -> (r: Regex)
        ensures
            r.wf(),
            r@ == integer(),
    {
        let digit = Regex::range('0', '9');
        let sign = Regex::one_of("-+");
        sign.opt().concat(&digit.plus())
    }

    fn regex_float() -> (r: Regex)
        ensures
            r.wf(),
            r@ == float(),
    {
        let integer = Self::regex_integer();
        let dot = Regex::char('.');
        let exponent = Regex::one_of("eE").concat(&integer);
        let with_fraction = integer.concat(&dot).concat(&integer).concat(&exponent.opt());
        let with_exponent = integer.concat(&exponent);
        with_fraction.union(&with_exponent)
    }

    fn regex_quote() -> (r: Regex)
        ensures
            r.wf(),
            r@ == Re::char('\''),
    {
        Regex::char('\'')
    }

    fn regex_double_quote() -> (r: Regex)
        ensures
            r.wf(),
            r@ == Re::char('"'),
    {
        Regex::char('"')
    }

    fn regex_comma() -> (r: Regex)
        ensures
            r.wf(),
            r@ == Re::char(','),
    {
        Regex::char(',')
    }

    fn regex_dot() -> (r: Regex)
        ensures
            r.wf(),
            r@ == Re::char('.'),
    {
        Regex::char('.')
    }

    fn regex_semicolon() -> (r: Regex)
        ensures
            r.wf(),
            r@ == Re::char(';'),
    {
        Regex::char(';')
    }

    fn regex_comment() -> (r: Regex)
        ensures
            r.wf(),
            r@ == Re::plus(Re::none_of("\n"@)),
    {
        Regex::none_of("\n").plus()
    }

    fn regex_whitespace() -> (r: Regex)
        ensures
            r.wf(),
            r@ == Re::plus(Re::one_of(" \t"@)),
    {
        Regex::one_of(" \t").plus()
    }

    fn regex_newline() -> (r: Regex)
        ensures
            r.wf(),
            r@ == Re::char('\n'),
    {
        Regex::char('\n')
    }
}

} // verus!
