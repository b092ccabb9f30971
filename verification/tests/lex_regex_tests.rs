use turkey::lex::regex::Regex;

fn test_regex(regex: &Regex, s: &str, expected: bool) {
    let mut nfa = regex.to_nfa();

    for c in s.chars() {
        nfa.put(c);
    }

    assert_eq!(nfa.is_accept(), expected);
}

#[test]
fn test_char() {
    let regex = Regex::char('a');
    test_regex(&regex, "a", true);
    test_regex(&regex, "b", false);
    test_regex(&regex, "", false);
    test_regex(&regex, "aa", false);
}

#[test]
fn regex_test_concat() {
    let regex = Regex::char('a').concat(&Regex::char('b'));
    test_regex(&regex, "ab", true);
    test_regex(&regex, "a", false);
    test_regex(&regex, "b", false);
    test_regex(&regex, "ba", false);
    test_regex(&regex, "", false);

    let re1 = turkey::regex::Regex::symbol('a');
    let re2 = turkey::regex::Regex::symbol('b');
    let re = re1.concat(&re2);
    assert!(!re.is_empty());
    assert!(!re.is_nullable());
}

#[test]
fn regex_test_union() {
    let regex = Regex::char('a').union(&Regex::char('b'));
    test_regex(&regex, "a", true);
    test_regex(&regex, "b", true);
    test_regex(&regex, "ab", false);
    test_regex(&regex, "", false);

    let re1 = turkey::regex::Regex::symbol('a');
    let re2 = turkey::regex::Regex::symbol('b');
    let re = re1.union(&re2);
    assert!(!re.is_empty());
    assert!(!re.is_nullable());
}

#[test]
fn regex_test_star() {
    let regex = Regex::char('a').star();
    test_regex(&regex, "", true);
    test_regex(&regex, "a", true);
    test_regex(&regex, "aa", true);
    test_regex(&regex, "aaa", true);
    test_regex(&regex, "b", false);
    test_regex(&regex, "ab", false);

    let re = turkey::regex::Regex::symbol('a').star();
    assert!(!re.is_empty());
    assert!(re.is_nullable());
}

#[test]
fn test_plus() {
    let regex = Regex::char('a').plus();
    test_regex(&regex, "", false);
    test_regex(&regex, "a", true);
    test_regex(&regex, "aa", true);
    test_regex(&regex, "aaa", true);
    test_regex(&regex, "b", false);
    test_regex(&regex, "ab", false);
}

#[test]
fn test_optional() {
    let regex = Regex::char('a').optional();
    test_regex(&regex, "", true);
    test_regex(&regex, "a", true);
    test_regex(&regex, "aa", false);
    test_regex(&regex, "b", false);
}

#[test]
fn test_complex() {
    let regex = Regex::char('a')
        .concat(&Regex::char('b').star())
        .concat(&Regex::char('c'));
    test_regex(&regex, "ac", true);
    test_regex(&regex, "abc", true);
    test_regex(&regex, "abbc", true);
    test_regex(&regex, "abbbc", true);
    test_regex(&regex, "a", false);
    test_regex(&regex, "ab", false);
    test_regex(&regex, "bc", false);
    test_regex(&regex, "", false);
}

#[test]
fn one_of_and_none_of_compile_to_automata() {
    let vowels = Regex::one_of("aeiou");
    test_regex(&vowels, "a", true);
    test_regex(&vowels, "u", true);
    test_regex(&vowels, "b", false);
    test_regex(&vowels, "ae", false);
    test_regex(&Regex::one_of("aa"), "a", true);
    test_regex(&Regex::one_of(""), "a", false);

    let others = Regex::none_of("cab");
    test_regex(&others, "a", false);
    test_regex(&others, "b", false);
    test_regex(&others, "c", false);
    test_regex(&others, "d", true);
    test_regex(&others, "\0", true);
    test_regex(&others, "\u{10FFFF}", true);
    test_regex(&others, "\u{D7FF}", true);
    test_regex(&others, "\u{E000}", true);
    test_regex(&others, "dd", false);
    test_regex(&others, "", false);
    test_regex(&Regex::none_of(""), "x", true);
    test_regex(&Regex::any(), "x", true);
    test_regex(&Regex::empty(), "", false);
    test_regex(&Regex::epsilon(), "", true);
    test_regex(&Regex::epsilon(), "a", false);
}

#[test]
fn none_of_skips_the_surrogate_block() {
    let regex = Regex::none_of("\u{D7FF}\u{E000}");
    test_regex(&regex, "\u{D7FF}", false);
    test_regex(&regex, "\u{E000}", false);
    test_regex(&regex, "\u{D7FE}", true);
    test_regex(&regex, "\u{E001}", true);
    let edges = Regex::none_of("\0\u{10FFFF}");
    test_regex(&edges, "\0", false);
    test_regex(&edges, "\u{10FFFF}", false);
    test_regex(&edges, "\u{1}", true);
    test_regex(&edges, "\u{10FFFE}", true);
}

#[test]
fn automaton_dies_where_no_continuation_is_left() {
    let regex = Regex::char('a').concat(&Regex::char('b'));
    let mut nfa = regex.to_nfa();
    assert!(!nfa.is_dead());
    nfa.put('a');
    assert!(!nfa.is_dead());
    assert!(!nfa.is_accept());
    nfa.put('b');
    assert!(nfa.is_accept());
    assert!(!nfa.is_dead());
    nfa.put('b');
    assert!(nfa.is_dead());
    assert!(!nfa.is_accept());
    nfa.reset();
    assert!(!nfa.is_dead());
    nfa.put('x');
    assert!(nfa.is_dead());
}

#[test]
fn automaton_and_derivatives_agree_on_every_prefix() {
    let compiled = Regex::char('a')
        .union(&Regex::char('b').concat(&Regex::char('c')))
        .star()
        .concat(&Regex::char('d').plus());
    let term = turkey::lexer::regex::Regex::char('a')
        .union(&turkey::lexer::regex::Regex::char('b').concat(&turkey::lexer::regex::Regex::char('c')))
        .star()
        .concat(&turkey::lexer::regex::Regex::char('d').plus());
    let mut nfa = compiled.to_nfa();
    let mut matcher = turkey::lexer::regex::Matcher::new(&term);
    for s in ["", "d", "ad", "bcd", "abcabcddd", "bd", "abca", "dda", "x", "abcx"] {
        nfa.reset();
        matcher.reset();
        assert_eq!(nfa.is_accept(), matcher.is_accepted());
        assert_eq!(nfa.is_dead(), matcher.is_dead());
        for c in s.chars() {
            nfa.put(c);
            matcher.put(c);
            assert_eq!(nfa.is_accept(), matcher.is_accepted(), "after a prefix of {:?}", s);
            assert_eq!(nfa.is_dead(), matcher.is_dead(), "after a prefix of {:?}", s);
        }
    }
}
