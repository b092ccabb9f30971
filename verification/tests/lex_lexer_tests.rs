use turkey::lex::lexer::Lexeme;
use turkey::lex::lexer::Lexer;
use turkey::lex::regex::Regex;

#[derive(Debug, Clone, PartialEq, Eq, Hash)]
enum Token {
    LParen,
    RParen,
    Semicolon,
    Whitespace,
    Newline,
    Comment,
}

#[derive(Debug, Clone, Copy, PartialEq, Eq, Hash)]
enum Mode {
    Default,
    Comment,
}

fn small_lexer() -> Lexer<Mode, Token> {
    let lparen = Regex::char('(');
    let rparen = Regex::char(')');
    let semicolon = Regex::char(';');
    let whitespace = Regex::one_of(" \t").star();
    let newline = Regex::char('\n');
    let comment = Regex::none_of("\n").star();

    let mut lexer = Lexer::new();

    lexer.set_start_mode(Mode::Default);
    lexer.add_rule(Token::LParen, &lparen, Mode::Default, Mode::Default, false);
    lexer.add_rule(Token::RParen, &rparen, Mode::Default, Mode::Default, false);
    lexer.add_rule(
        Token::Semicolon,
        &semicolon,
        Mode::Default,
        Mode::Comment,
        false,
    );
    lexer.add_rule(
        Token::Whitespace,
        &whitespace,
        Mode::Default,
        Mode::Default,
        false,
    );
    lexer.add_rule(
        Token::Newline,
        &newline,
        Mode::Default,
        Mode::Default,
        false,
    );

    lexer.add_rule(Token::Comment, &comment, Mode::Comment, Mode::Default, true);

    lexer
}

fn lexemes_of(lexer: &mut Lexer<Mode, Token>, input: &str) -> Vec<Lexeme<Token>> {
    lexer.reset();
    for c in input.chars() {
        lexer.put(c);
    }
    lexer.finish();

    let mut actual = Vec::new();
    while let Some(lexeme) = lexer.get() {
        actual.push(lexeme);
    }
    actual
}

fn test_lexer(lexer: &mut Lexer<Mode, Token>, input: &str, expected: &[Lexeme<Token>]) {
    let actual = lexemes_of(lexer, input);

    for (a, e) in actual.iter().zip(expected.iter()) {
        println!("{:?}\n{:?}\n", a, e);
        assert_eq!(a, e);
    }

    assert!(lexer.get_error().is_none());
    assert!(!lexer.is_error());
}

fn lexeme(token: Token, position: usize, length: usize, span: Option<&str>) -> Lexeme<Token> {
    Lexeme {
        token,
        position,
        length,
        span: span.map(|s| s.to_string()),
    }
}

#[test]
fn test_simple_tokens() {
    let mut lexer = small_lexer();
    test_lexer(
        &mut lexer,
        "()",
        &[
            Lexeme {
                token: Token::LParen,
                position: 0,
                length: 1,
                span: None,
            },
            Lexeme {
                token: Token::RParen,
                position: 1,
                length: 1,
                span: None,
            },
        ],
    );
}

#[test]
fn test_whitespace() {
    let mut lexer = small_lexer();
    test_lexer(
        &mut lexer,
        "  (  )  ",
        &[
            Lexeme {
                token: Token::Whitespace,
                position: 0,
                length: 2,
                span: None,
            },
            Lexeme {
                token: Token::LParen,
                position: 2,
                length: 1,
                span: None,
            },
            Lexeme {
                token: Token::Whitespace,
                position: 3,
                length: 2,
                span: None,
            },
            Lexeme {
                token: Token::RParen,
                position: 5,
                length: 1,
                span: None,
            },
            Lexeme {
                token: Token::Whitespace,
                position: 6,
                length: 2,
                span: None,
            },
        ],
    );
}

#[test]
fn test_comment() {
    let mut lexer = small_lexer();
    test_lexer(
        &mut lexer,
        "(; this is a comment\n)",
        &[
            Lexeme {
                token: Token::LParen,
                position: 0,
                length: 1,
                span: None,
            },
            Lexeme {
                token: Token::Semicolon,
                position: 1,
                length: 1,
                span: None,
            },
            Lexeme {
                token: Token::Comment,
                position: 2,
                length: 18,
                span: Some(" this is a comment".to_string()),
            },
            Lexeme {
                token: Token::Newline,
                position: 20,
                length: 1,
                span: None,
            },
            Lexeme {
                token: Token::RParen,
                position: 21,
                length: 1,
                span: None,
            },
        ],
    );
}

#[test]
fn two_parens_are_two_lexemes() {
    let mut lexer = small_lexer();
    let actual = lexemes_of(&mut lexer, "()");
    assert_eq!(
        actual,
        vec![
            lexeme(Token::LParen, 0, 1, None),
            lexeme(Token::RParen, 1, 1, None)
        ]
    );
    assert!(!lexer.is_error());
}

#[test]
fn blanks_between_parens_are_munched_whole() {
    let mut lexer = small_lexer();
    let actual = lexemes_of(&mut lexer, "  (  )  ");
    assert_eq!(
        actual,
        vec![
            lexeme(Token::Whitespace, 0, 2, None),
            lexeme(Token::LParen, 2, 1, None),
            lexeme(Token::Whitespace, 3, 2, None),
            lexeme(Token::RParen, 5, 1, None),
            lexeme(Token::Whitespace, 6, 2, None),
        ]
    );
    assert!(!lexer.is_error());
}

#[test]
fn comment_runs_to_the_end_of_the_line() {
    let mut lexer = small_lexer();
    let actual = lexemes_of(&mut lexer, "; this is a comment\n");
    assert_eq!(
        actual,
        vec![
            lexeme(Token::Semicolon, 0, 1, None),
            lexeme(Token::Comment, 1, 18, Some(" this is a comment")),
            lexeme(Token::Newline, 19, 1, None),
        ]
    );
    assert!(!lexer.is_error());
    // The mode is back to the default one: a paren lexes again.
    lexer.put('(');
    lexer.finish();
    assert_eq!(lexer.get(), Some(lexeme(Token::LParen, 20, 1, None)));
}

#[test]
fn colon_is_unexpected_input() {
    let mut lexer = small_lexer();
    lexer.reset();
    lexer.put(':');
    let error = lexer.get_error().expect("the first colon fails");
    assert_eq!(error.message, "unexpected input");
    assert_eq!(error.position, 0);
    lexer.put(':');
    lexer.put(':');
    lexer.finish();
    assert!(lexer.is_error());
    assert_eq!(lexer.get_error().unwrap().position, 0);
    assert!(lexer.get().is_none());
}
