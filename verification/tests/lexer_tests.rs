use turkey::lexer::lexer::Lexer;
use turkey::lexer::regex::Regex;
use turkey::lexer::token::Token as Kind;

#[derive(Clone, Debug, PartialEq, Eq, Hash)]
enum Token {
    A,
    B,
}

#[derive(Clone, Debug, PartialEq, Eq, Hash)]
enum Mode {
    Initial,
    Secondary,
}

#[test]
fn test_lexer_single_token() {
    let mut lexer = Lexer::new();
    lexer.add_rule(
        &Regex::char('a'),
        Token::A,
        false,
        Mode::Initial,
        Mode::Initial,
    );

    lexer.put('a');
    lexer.finish();
    let lexeme = lexer.get().unwrap();

    assert_eq!(lexeme.token, Token::A);
    assert_eq!(lexeme.position, 0);
    assert_eq!(lexeme.length, 1);
    assert!(lexer.get().is_none());
}

#[test]
fn test_lexer_multiple_tokens() {
    let mut lexer = Lexer::new();
    lexer.add_rule(
        &Regex::char('a'),
        Token::A,
        false,
        Mode::Initial,
        Mode::Initial,
    );
    lexer.add_rule(
        &Regex::char('b'),
        Token::B,
        false,
        Mode::Initial,
        Mode::Initial,
    );

    lexer.put('a');
    lexer.put('b');
    lexer.finish();

    let lexeme_a = lexer.get().unwrap();
    assert_eq!(lexeme_a.token, Token::A);
    assert_eq!(lexeme_a.position, 0);
    assert_eq!(lexeme_a.length, 1);
    assert!(lexer.error().is_none());
    let lexeme_b = lexer.get().unwrap();
    assert_eq!(lexeme_b.token, Token::B);
    assert_eq!(lexeme_b.position, 1);
    assert_eq!(lexeme_b.length, 1);

    assert!(lexer.get().is_none());
}

#[test]
fn test_lexer_mode_switching() {
    let mut lexer = Lexer::new();
    lexer.add_rule(
        &Regex::char('a'),
        Token::A,
        true,
        Mode::Initial,
        Mode::Secondary,
    );
    lexer.add_rule(
        &Regex::char('b'),
        Token::B,
        true,
        Mode::Secondary,
        Mode::Initial,
    );
    lexer.set_start_mode(Mode::Initial);

    lexer.put('a');
    lexer.put('b');

    let lexeme_a = lexer.get().unwrap();
    assert_eq!(lexeme_a.token, Token::A);
    assert_eq!(lexeme_a.position, 0);
    assert_eq!(lexeme_a.length, 1);

    lexer.finish();

    let lexeme_b = lexer.get().unwrap();
    assert_eq!(lexeme_b.token, Token::B);
    assert_eq!(lexeme_b.position, 1);
    assert_eq!(lexeme_b.length, 1);

    assert!(lexer.get().is_none());
}

#[test]
fn test_lexer_error_handling() {
    let mut lexer = Lexer::new();
    lexer.add_rule(
        &Regex::char('a'),
        Token::A,
        false,
        Mode::Initial,
        Mode::Initial,
    );

    lexer.put('b');
    lexer.finish();
    assert!(lexer.get().is_none());
    assert_eq!(lexer.error(), Some("unexpected character"));
}

#[test]
fn test_lexer_complex_token() {
    let mut lexer = Lexer::new();
    lexer.add_rule(
        &Kind::Identifier.regex(),
        Kind::Identifier,
        false,
        Mode::Initial,
        Mode::Initial,
    );

    let ident = "abc23245213";
    for c in ident.chars() {
        lexer.put(c);
    }

    lexer.finish();

    let lexeme = lexer.get().unwrap();

    assert_eq!(lexeme.token, Kind::Identifier);
    assert_eq!(lexeme.position, 0);
    assert_eq!(lexeme.length, ident.len());
    assert!(lexer.get().is_none());

    lexer.reset();

    let not_ident = "12345";
    for c in not_ident.chars() {
        lexer.put(c);
    }

    lexer.finish();

    assert!(lexer.error().is_some());
    assert!(lexer.get().is_none());
}

#[test]
fn test_lexer_two_complex_token() {
    let mut lexer = Lexer::new();
    lexer.add_rule(
        &Kind::Identifier.regex(),
        Kind::Identifier,
        false,
        Mode::Initial,
        Mode::Initial,
    );

    lexer.add_rule(
        &Kind::Integer.regex(),
        Kind::Integer,
        false,
        Mode::Initial,
        Mode::Initial,
    );

    lexer.add_rule(
        &Kind::Whitespace.regex(),
        Kind::Whitespace,
        false,
        Mode::Initial,
        Mode::Initial,
    );

    let stream = "abc 123";
    for c in stream.chars() {
        lexer.put(c);
    }

    lexer.finish();

    assert!(lexer.error().is_none());
    assert!(lexer.get().unwrap().token == Kind::Identifier);
    assert!(lexer.get().unwrap().token == Kind::Whitespace);
    assert!(lexer.get().unwrap().token == Kind::Integer);
    assert!(lexer.get().is_none());
}

fn lex_all(lexer: &mut Lexer<Token, Mode>, input: &str) -> Vec<(Token, usize, usize, Option<String>)> {
    lexer.reset();
    for c in input.chars() {
        lexer.put(c);
    }
    lexer.finish();
    let mut out = Vec::new();
    while let Some(l) = lexer.get() {
        out.push((l.token, l.position, l.length, l.span));
    }
    out
}

fn ab_lexer(keep_span: bool) -> Lexer<Token, Mode> {
    let a = Regex::char('a');
    let b = Regex::char('b');
    let mut lexer = Lexer::new();
    // "ab" and "a+" both in the first mode; "ab" comes first.
    lexer.add_rule(&a.concat(&b), Token::B, keep_span, Mode::Initial, Mode::Initial);
    lexer.add_rule(&a.plus(), Token::A, keep_span, Mode::Initial, Mode::Initial);
    lexer
}

#[test]
fn longest_match_wins_over_declaration_order() {
    let mut lexer = ab_lexer(true);
    let out = lex_all(&mut lexer, "aaab");
    // "aaa" is longer than anything the first rule accepts; what is left, "b",
    // is covered by no rule.
    assert_eq!(out, vec![(Token::A, 0, 3, Some("aaa".to_string()))]);
    assert_eq!(lexer.error(), Some("unexpected character"));
    assert_eq!(lexer.error_position(), Some(3));
}

#[test]
fn earliest_rule_wins_a_tie() {
    let a = Regex::char('a');
    let mut lexer = Lexer::new();
    lexer.add_rule(&a.plus(), Token::A, false, Mode::Initial, Mode::Initial);
    lexer.add_rule(&a.plus(), Token::B, false, Mode::Initial, Mode::Initial);
    assert_eq!(lex_all(&mut lexer, "aa"), vec![(Token::A, 0, 2, None)]);
    assert!(lexer.error().is_none());

    let mut lexer = Lexer::new();
    lexer.add_rule(&a.plus(), Token::B, false, Mode::Initial, Mode::Initial);
    lexer.add_rule(&a.plus(), Token::A, false, Mode::Initial, Mode::Initial);
    assert_eq!(lex_all(&mut lexer, "aa"), vec![(Token::B, 0, 2, None)]);
}

fn tiling_lexer() -> Lexer<Token, Mode> {
    let a = Regex::char('a');
    let b = Regex::char('b');
    let mut lexer = Lexer::new();
    lexer.add_rule(&a.concat(&b), Token::B, true, Mode::Initial, Mode::Initial);
    lexer.add_rule(&a, Token::A, true, Mode::Initial, Mode::Initial);
    lexer
}

#[test]
fn spans_of_all_lexemes_give_the_input_back() {
    let mut lexer = tiling_lexer();
    let input = "abaabaab";
    let out = lex_all(&mut lexer, input);
    assert!(lexer.error().is_none());
    let mut text = String::new();
    let mut position = 0;
    for (_, p, l, span) in &out {
        assert_eq!(*p, position);
        assert!(*l >= 1);
        position += l;
        text.push_str(span.as_ref().unwrap());
    }
    assert_eq!(text, input);
    assert_eq!(position, input.chars().count());
    assert_eq!(
        out.iter().map(|l| (l.0.clone(), l.2)).collect::<Vec<_>>(),
        vec![
            (Token::B, 2),
            (Token::A, 1),
            (Token::B, 2),
            (Token::A, 1),
            (Token::B, 2)
        ]
    );
}

#[test]
fn lexemes_do_not_depend_on_when_they_are_taken() {
    let input = "abaabaab";
    let mut whole = tiling_lexer();
    let expected = lex_all(&mut whole, input);
    assert_eq!(expected.len(), 5);

    let mut lexer = tiling_lexer();
    let mut out = Vec::new();
    for c in input.chars() {
        lexer.put(c);
        while let Some(l) = lexer.get() {
            out.push((l.token, l.position, l.length, l.span));
        }
    }
    lexer.finish();
    while let Some(l) = lexer.get() {
        out.push((l.token, l.position, l.length, l.span));
    }
    assert_eq!(out, expected);
}

#[test]
fn next_lexeme_is_matched_in_the_mode_of_the_rule() {
    let a = Regex::char('a');
    let mut lexer = Lexer::new();
    lexer.add_rule(&a, Token::A, false, Mode::Initial, Mode::Secondary);
    lexer.add_rule(&a, Token::B, false, Mode::Secondary, Mode::Initial);
    let out = lex_all(&mut lexer, "aaa");
    assert_eq!(
        out,
        vec![
            (Token::A, 0, 1, None),
            (Token::B, 1, 1, None),
            (Token::A, 2, 1, None)
        ]
    );
}

#[test]
fn input_that_ends_in_the_middle_of_a_lexeme_is_an_error() {
    let a = Regex::char('a');
    let b = Regex::char('b');
    let mut lexer: Lexer<Token, Mode> = Lexer::new();
    lexer.add_rule(&a.concat(&b), Token::A, false, Mode::Initial, Mode::Initial);
    lexer.put('a');
    assert!(lexer.error().is_none());
    lexer.finish();
    assert_eq!(lexer.error(), Some("unexpected end of input"));
    assert_eq!(lexer.error_position(), Some(0));
    assert!(lexer.get().is_none());
    // The error is sticky until a reset.
    lexer.put('b');
    lexer.finish();
    assert_eq!(lexer.error(), Some("unexpected end of input"));
    lexer.reset();
    assert!(lexer.error().is_none());
    lexer.put('a');
    lexer.put('b');
    lexer.finish();
    assert_eq!(lexer.get().map(|l| (l.token, l.position, l.length)), Some((Token::A, 0, 2)));
}

#[test]
fn colons_without_a_rule_fail_at_the_first_one() {
    let mut lexer: Lexer<Token, Mode> = Lexer::new();
    lexer.add_rule(&Regex::char('a'), Token::A, false, Mode::Initial, Mode::Initial);
    lexer.put(':');
    assert_eq!(lexer.error(), Some("unexpected character"));
    assert_eq!(lexer.error_position(), Some(0));
    lexer.put(':');
    lexer.put(':');
    assert_eq!(lexer.error_position(), Some(0));
    assert!(lexer.get().is_none());
}

#[test]
fn lexer_without_rules_fails_on_any_input() {
    let mut lexer: Lexer<Token, Mode> = Lexer::new();
    lexer.finish();
    assert!(lexer.error().is_none());
    lexer.put('a');
    assert_eq!(lexer.error(), Some("unexpected character"));
}
