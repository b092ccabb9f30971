use turkey::lang::compiler::Compiler;
use turkey::lang::compiler::Token;

#[test]
fn test_lex_empty_input() {
    let mut compiler = Compiler::new();
    let input = "";
    let mut lexemes = vec![];
    assert!(compiler.lex(input, &mut lexemes).is_ok());
    assert!(lexemes.is_empty());
}

#[test]
fn test_lex_single_token() {
    let mut compiler = Compiler::new();
    let input = "(";
    let mut lexemes = vec![];
    assert!(compiler.lex(input, &mut lexemes).is_ok());
    assert_eq!(lexemes.len(), 1);
    assert_eq!(lexemes[0].token, Token::LParen);
}

#[test]
fn test_lex_multiple_tokens() {
    let mut compiler = Compiler::new();
    let input = "( ) { }";
    let mut lexemes = vec![];
    assert!(compiler.lex(input, &mut lexemes).is_ok());
    assert_eq!(lexemes.len(), 7);
    assert_eq!(lexemes[0].token, Token::LParen);
    assert_eq!(lexemes[1].token, Token::Whitespace);
    assert_eq!(lexemes[2].token, Token::RParen);
    assert_eq!(lexemes[3].token, Token::Whitespace);
    assert_eq!(lexemes[4].token, Token::LBrace);
    assert_eq!(lexemes[5].token, Token::Whitespace);
    assert_eq!(lexemes[6].token, Token::RBrace);
}

#[test]
fn test_lex_identifier() {
    let mut compiler = Compiler::new();
    let input = "hello";
    let mut lexemes = vec![];
    assert!(compiler.lex(input, &mut lexemes).is_ok());
    assert_eq!(lexemes.len(), 1);
    assert_eq!(lexemes[0].token, Token::Identifier);
}

#[test]
fn test_lex_integer() {
    let mut compiler = Compiler::new();
    let input = "123";
    let mut lexemes = vec![];
    assert!(compiler.lex(input, &mut lexemes).is_ok());
    assert_eq!(lexemes.len(), 1);
    assert_eq!(lexemes[0].token, Token::Integer);
}

#[test]
fn test_lex_float() {
    let mut compiler = Compiler::new();
    let input = "123.456";
    let mut lexemes = vec![];

    assert!(compiler.lex(input, &mut lexemes).is_ok());

    assert_eq!(lexemes.len(), 1);
    assert_eq!(lexemes[0].token, Token::Float);
}

#[test]
fn test_lex_string() {
    let mut compiler = Compiler::new();
    let input = "\"hello\"";
    let mut lexemes = vec![];
    assert!(compiler.lex(input, &mut lexemes).is_ok());

    assert_eq!(lexemes.len(), 3);
    assert_eq!(lexemes[0].token, Token::DoubleQuote);
    assert_eq!(lexemes[1].token, Token::String);
    assert_eq!(lexemes[2].token, Token::DoubleQuote);
}

#[test]
fn test_lex_comment() {
    let mut compiler = Compiler::new();
    let input = "; this is a comment\n";
    let mut lexemes = vec![];
    assert!(compiler.lex(input, &mut lexemes).is_ok());
    assert_eq!(lexemes.len(), 3);
    assert_eq!(lexemes[0].token, Token::Semicolon);
    assert_eq!(lexemes[1].token, Token::Comment);
    assert_eq!(lexemes[2].token, Token::Newline);
}

#[test]
fn string_keeps_its_text_between_the_quotes() {
    let mut compiler = Compiler::new();
    let mut lexemes = vec![];
    assert!(compiler.lex("\"hello\"", &mut lexemes).is_ok());
    assert_eq!(lexemes.len(), 3);
    assert_eq!((lexemes[0].position, lexemes[0].length), (0, 1));
    assert_eq!((lexemes[1].position, lexemes[1].length), (1, 5));
    assert_eq!(lexemes[1].span, Some("hello".to_string()));
    assert_eq!((lexemes[2].position, lexemes[2].length), (6, 1));
    assert_eq!(lexemes[2].span, None);
}

#[test]
fn compiler_reports_the_error_of_the_lexer() {
    let mut compiler = Compiler::new();
    let mut lexemes = vec![];
    let result = compiler.lex("(\"abc", &mut lexemes);
    assert!(result.is_ok());
    assert_eq!(lexemes.len(), 3);
    assert_eq!(lexemes[2].token, Token::String);

    let mut compiler = Compiler::new();
    let mut lexemes = vec![];
    let error = compiler.lex("\"\\", &mut lexemes).unwrap_err();
    assert_eq!(error.message, "unexpected end of input");
    assert_eq!(error.position, 1);
    assert_eq!(lexemes.len(), 1);
    assert_eq!(lexemes[0].token, Token::DoubleQuote);
}

#[test]
fn comment_keeps_its_text_up_to_the_end_of_the_line() {
    let mut compiler = Compiler::new();
    let mut lexemes = vec![];
    assert!(compiler.lex("; this is a comment\n", &mut lexemes).is_ok());
    assert_eq!(lexemes.len(), 3);
    assert_eq!(lexemes[0].token, Token::Semicolon);
    assert_eq!((lexemes[0].position, lexemes[0].length), (0, 1));
    assert_eq!(lexemes[0].span, None);
    assert_eq!(lexemes[1].token, Token::Comment);
    assert_eq!((lexemes[1].position, lexemes[1].length), (1, 18));
    assert_eq!(lexemes[1].span, Some(" this is a comment".to_string()));
    assert_eq!(lexemes[2].token, Token::Newline);
    assert_eq!((lexemes[2].position, lexemes[2].length), (19, 1));
    assert_eq!(lexemes[2].span, None);
    // The scan is back in the default mode.
    let mut more = vec![];
    assert!(compiler.lex("(", &mut more).is_ok());
    assert_eq!(more.len(), 1);
    assert_eq!(more[0].token, Token::LParen);
    assert_eq!(more[0].position, 20);
}
