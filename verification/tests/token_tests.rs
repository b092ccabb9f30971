use turkey::lexer::regex::Matcher;
use turkey::lexer::token::Token;
use turkey::lexer::turkey_lexer::turkey_lexer;

#[test]
fn test_token_regex_lparen() {
    let regex = Token::LParen.regex();
    let mut matcher = Matcher::new(&regex);

    assert!(matcher.match_string("("));
    assert!(!matcher.match_string(")"));
}

#[test]
fn test_token_regex_rparen() {
    let regex = Token::RParen.regex();
    let mut matcher = Matcher::new(&regex);

    assert!(matcher.match_string(")"));
    assert!(!matcher.match_string("("));
}

#[test]
fn test_token_regex_identifier() {
    let regex = Token::Identifier.regex();
    let mut matcher = Matcher::new(&regex);

    assert!(matcher.match_string("a"));
    assert!(matcher.match_string("abc"));
    assert!(matcher.match_string("a1b2c3"));
    assert!(!matcher.match_string("1abc"));
}

#[test]
fn test_token_regex_integer() {
    let regex = Token::Integer.regex();
    let mut matcher = Matcher::new(&regex);

    assert!(matcher.match_string("123"));
    assert!(matcher.match_string("-123"));
    assert!(matcher.match_string("+123"));
    assert!(!matcher.match_string("123.456"));
}

#[test]
fn test_token_regex_float() {
    let regex = Token::Float.regex();
    let mut matcher = Matcher::new(&regex);

    assert!(matcher.match_string("123.456"));
    assert!(matcher.match_string("-123.456"));
    assert!(matcher.match_string("+123.456"));
    assert!(matcher.match_string("123.456e789"));
    assert!(!matcher.match_string("123"));
}

#[test]
fn test_token_regex_quote() {
    let regex = Token::Quote.regex();
    let mut matcher = Matcher::new(&regex);

    assert!(matcher.match_string("'"));
    assert!(!matcher.match_string("\""));
}

#[test]
fn test_token_regex_double_quote() {
    let regex = Token::DoubleQuote.regex();
    let mut matcher = Matcher::new(&regex);

    assert!(matcher.match_string("\""));
    assert!(!matcher.match_string("'"));
}

#[test]
fn test_token_regex_comma() {
    let regex = Token::Comma.regex();
    let mut matcher = Matcher::new(&regex);

    assert!(matcher.match_string(","));
    assert!(!matcher.match_string("."));
}

#[test]
fn test_token_regex_dot() {
    let regex = Token::Dot.regex();
    let mut matcher = Matcher::new(&regex);

    assert!(matcher.match_string("."));
    assert!(!matcher.match_string(","));
}

#[test]
fn test_token_regex_semicolon() {
    let regex = Token::Semicolon.regex();
    let mut matcher = Matcher::new(&regex);

    assert!(matcher.match_string(";"));
    assert!(!matcher.match_string(":"));
}

#[test]
fn test_token_regex_comment() {
    let regex = Token::Comment.regex();
    let mut matcher = Matcher::new(&regex);

    assert!(matcher.match_string("This is a comment"));
    assert!(!matcher.match_string("\n"));
}

#[test]
fn test_token_regex_whitespace() {
    let regex = Token::Whitespace.regex();
    let mut matcher = Matcher::new(&regex);

    assert!(matcher.match_string(" "));
    assert!(matcher.match_string("\t"));
    assert!(!matcher.match_string("\n"));
}

#[test]
fn test_token_regex_newline() {
    let regex = Token::Newline.regex();
    let mut matcher = Matcher::new(&regex);

    assert!(matcher.match_string("\n"));
    assert!(!matcher.match_string(" "));
}

#[test]
fn test_large_string() {
    let mut lexer = turkey_lexer();

    let large_string = r#"(define (incr x) (+ x 1.1))
(1 11 +11 -11 +11.0 -11.0 11e10)"#;

    lexer.reset();

    for c in large_string.chars() {
        lexer.put(c);
        println!("{}", c);
        println!("{:?}", lexer.error());
    }

    lexer.finish();

    let mut tokens = Vec::new();
    while let Some(lexeme) = lexer.get() {
        tokens.push(lexeme.token);
    }

    assert_eq!(
        tokens,
        vec![
            Token::LParen,
            Token::Identifier,
            Token::Whitespace,
            Token::LParen,
            Token::Identifier,
            Token::Whitespace,
            Token::Identifier,
            Token::RParen,
            Token::Whitespace,
            Token::LParen,
            Token::Identifier,
            Token::Whitespace,
            Token::Identifier,
            Token::Whitespace,
            Token::Float,
            Token::RParen,
            Token::RParen,
            Token::Newline,
            Token::LParen,
            Token::Integer,
            Token::Whitespace,
            Token::Integer,
            Token::Whitespace,
            Token::Integer,
            Token::Whitespace,
            Token::Integer,
            Token::Whitespace,
            Token::Float,
            Token::Whitespace,
            Token::Float,
            Token::Whitespace,
            Token::Float,
            Token::RParen
        ]
    );
}

fn kinds(input: &str) -> Vec<(Token, usize, usize)> {
    let mut lexer = turkey_lexer();
    for c in input.chars() {
        lexer.put(c);
    }
    lexer.finish();
    assert!(lexer.error().is_none(), "{:?}: {:?}", input, lexer.error());
    let mut out = Vec::new();
    while let Some(l) = lexer.get() {
        out.push((l.token, l.position, l.length));
    }
    out
}

#[test]
fn strings_and_comments_have_their_own_modes() {
    assert_eq!(
        kinds("\"hello\""),
        vec![
            (Token::DoubleQuote, 0, 1),
            (Token::String, 1, 5),
            (Token::DoubleQuote, 6, 1)
        ]
    );
    assert_eq!(
        kinds("\"a\\\"b\" x"),
        vec![
            (Token::DoubleQuote, 0, 1),
            (Token::String, 1, 1),
            (Token::StringEscape, 2, 2),
            (Token::String, 4, 1),
            (Token::DoubleQuote, 5, 1),
            (Token::Whitespace, 6, 1),
            (Token::Identifier, 7, 1),
        ]
    );
    assert_eq!(
        kinds("; this is a comment\n("),
        vec![
            (Token::Semicolon, 0, 1),
            (Token::Comment, 1, 18),
            (Token::Newline, 19, 1),
            (Token::LParen, 20, 1),
        ]
    );
    assert_eq!(
        kinds("{[`'a,.]}"),
        vec![
            (Token::LBrace, 0, 1),
            (Token::LBracket, 1, 1),
            (Token::BackQuote, 2, 1),
            (Token::Quote, 3, 1),
            (Token::Identifier, 4, 1),
            (Token::Comma, 5, 1),
            (Token::Identifier, 6, 1),
            (Token::RBracket, 7, 1),
            (Token::RBrace, 8, 1),
        ]
    );
}

// A small generator of pseudo-random numbers, so that the run is the same
// every time.
fn next(state: &mut u64) -> usize {
    *state = state
        .wrapping_mul(6364136223846793005)
        .wrapping_add(1442695040888963407);
    (*state >> 33) as usize
}

#[test]
fn random_sources_lex_to_the_kinds_they_were_made_of() {
    let space: [(&[Token], &str); 29] = [
        (&[Token::LParen], "("),
        (&[Token::RParen], ")"),
        (&[Token::LBracket], "["),
        (&[Token::RBracket], "]"),
        (&[Token::LBrace], "{"),
        (&[Token::RBrace], "}"),
        (&[Token::Quote], "'"),
        (&[Token::BackQuote], "`"),
        (&[Token::Comma], ","),
        (
            &[Token::DoubleQuote, Token::String, Token::DoubleQuote],
            "\"string\"",
        ),
        (&[Token::Identifier], "identifier"),
        (&[Token::Integer], "1234"),
        (&[Token::Integer], "+1234"),
        (&[Token::Integer], "-1234"),
        (&[Token::Float], "1234.1234"),
        (&[Token::Float], "+1234.1234"),
        (&[Token::Float], "-1234.1234"),
        (&[Token::Float], "1e10"),
        (&[Token::Float], "+1e10"),
        (&[Token::Float], "-1e10"),
        (&[Token::Float], "1.0e10"),
        (&[Token::Float], "+1.0e10"),
        (&[Token::Float], "-1.0e10"),
        (&[Token::Float], "1.0e-10"),
        (&[Token::Float], "+1.0e-10"),
        (&[Token::Float], "-1.0e-10"),
        (&[Token::Float], "1.0e+10"),
        (&[Token::Float], "+1.0e+10"),
        (&[Token::Float], "-1.0e+10"),
    ];
    let mut state: u64 = 42;
    for _trial in 0..20 {
        let mut lexer = turkey_lexer();
        let mut expected = Vec::new();
        let mut actual = Vec::new();
        let mut source = String::new();
        for _ in 0..1000 {
            let (tokens, text) = space[next(&mut state) % space.len()];
            source.push_str(text);
            source.push('(');
            for c in text.chars() {
                lexer.put(c);
            }
            lexer.put('(');
            expected.extend_from_slice(tokens);
            expected.push(Token::LParen);
            while let Some(l) = lexer.get() {
                actual.push(l.token);
            }
        }
        lexer.finish();
        assert!(lexer.error().is_none(), "Source: \n{}\n", source);
        while let Some(l) = lexer.get() {
            actual.push(l.token);
        }
        assert_eq!(expected, actual, "Source: \n{}\n", source);
    }
}

fn spans(input: &str) -> Vec<(Token, usize, usize, Option<String>)> {
    let mut lexer = turkey_lexer();
    for c in input.chars() {
        lexer.put(c);
    }
    lexer.finish();
    assert!(lexer.error().is_none(), "{:?}: {:?}", input, lexer.error());
    let mut out = Vec::new();
    while let Some(l) = lexer.get() {
        out.push((l.token, l.position, l.length, l.span));
    }
    out
}

#[test]
fn comments_and_strings_keep_their_text() {
    assert_eq!(
        spans("; this is a comment\n"),
        vec![
            (Token::Semicolon, 0, 1, None),
            (Token::Comment, 1, 18, Some(" this is a comment".to_string())),
            (Token::Newline, 19, 1, None),
        ]
    );
    assert_eq!(
        spans("\"hello\""),
        vec![
            (Token::DoubleQuote, 0, 1, None),
            (Token::String, 1, 5, Some("hello".to_string())),
            (Token::DoubleQuote, 6, 1, None),
        ]
    );
    assert_eq!(
        spans("abc 12"),
        vec![
            (Token::Identifier, 0, 3, None),
            (Token::Whitespace, 3, 1, None),
            (Token::Integer, 4, 2, None),
        ]
    );
}

#[test]
fn a_dot_alone_is_an_identifier() {
    assert_eq!(spans("."), vec![(Token::Identifier, 0, 1, None)]);
    assert_eq!(
        spans("a.b 1.5"),
        vec![
            (Token::Identifier, 0, 3, None),
            (Token::Whitespace, 3, 1, None),
            (Token::Float, 4, 3, None),
        ]
    );
}
