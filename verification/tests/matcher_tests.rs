use turkey::lexer::regex::decr_char;
use turkey::lexer::regex::incr_char;
use turkey::lexer::regex::Matcher;
use turkey::lexer::regex::Regex;

#[test]
fn test_matcher_empty() {
    let regex = Regex::empty();
    let mut matcher = Matcher::new(&regex);

    assert!(!matcher.is_accepted());
    matcher.put('a');
    assert!(!matcher.is_accepted());
    assert!(matcher.is_dead());
}

#[test]
fn test_matcher_epsilon() {
    let regex = Regex::epsilon();
    let mut matcher = Matcher::new(&regex);

    assert!(matcher.is_accepted());
    matcher.put('a');
    assert!(!matcher.is_accepted());
    assert!(matcher.is_dead());
}

#[test]
fn test_matcher_char() {
    let regex = Regex::char('a');
    let mut matcher = Matcher::new(&regex);

    assert!(!matcher.is_accepted());
    matcher.put('a');
    assert!(matcher.is_accepted());
    matcher.put('b');
    assert!(!matcher.is_accepted());
    assert!(matcher.is_dead());
}

#[test]
fn test_matcher_concat() {
    let regex = Regex::char('a').concat(&Regex::char('b'));
    let mut matcher = Matcher::new(&regex);

    assert!(!matcher.is_accepted());
    matcher.put('a');
    assert!(!matcher.is_accepted());
    matcher.put('b');
    assert!(matcher.is_accepted());
    matcher.put('c');
    assert!(!matcher.is_accepted());
    assert!(matcher.is_dead());
}

#[test]
fn test_matcher_union() {
    let regex = Regex::char('a').union(&Regex::char('b'));
    let mut matcher = Matcher::new(&regex);

    assert!(!matcher.is_accepted());
    matcher.put('a');
    assert!(matcher.is_accepted());
    matcher.reset();
    matcher.put('b');
    assert!(matcher.is_accepted());
    matcher.reset();
    matcher.put('c');
    assert!(!matcher.is_accepted());
    assert!(matcher.is_dead());
}

#[test]
fn test_matcher_star() {
    let regex = Regex::char('a').star();
    let mut matcher = Matcher::new(&regex);

    assert!(matcher.is_accepted());
    matcher.put('a');
    assert!(matcher.is_accepted());
    matcher.put('a');
    assert!(matcher.is_accepted());
    matcher.put('b');
    assert!(!matcher.is_accepted());
    assert!(matcher.is_dead());
}

#[test]
fn test_matcher_plus() {
    let regex = Regex::char('a').plus();
    let mut matcher = Matcher::new(&regex);

    assert!(!matcher.is_accepted());
    matcher.put('a');
    assert!(matcher.is_accepted());
    matcher.put('a');
    assert!(matcher.is_accepted());
    matcher.put('b');
    assert!(!matcher.is_accepted());
    assert!(matcher.is_dead());
}

#[test]
fn test_matcher_opt() {
    let regex = Regex::char('a').opt();
    let mut matcher = Matcher::new(&regex);

    assert!(matcher.is_accepted());
    matcher.put('a');
    assert!(matcher.is_accepted());
    matcher.put('b');
    assert!(!matcher.is_accepted());
    assert!(matcher.is_dead());
}

#[test]
fn test_matcher_one_of() {
    let regex = Regex::one_of("abc");
    let mut matcher = Matcher::new(&regex);

    assert!(!matcher.is_accepted());
    matcher.put('a');
    assert!(matcher.is_accepted());
    matcher.reset();
    matcher.put('b');
    assert!(matcher.is_accepted());
    matcher.reset();
    matcher.put('c');
    assert!(matcher.is_accepted());
    matcher.reset();
    matcher.put('d');
    assert!(!matcher.is_accepted());
    assert!(matcher.is_dead());
}

#[test]
fn test_matcher_none_of() {
    let regex = Regex::none_of("abc");
    let mut matcher = Matcher::new(&regex);

    println!("{:?}", regex);

    assert!(!matcher.is_accepted());
    matcher.put('a');
    assert!(!matcher.is_accepted());
    assert!(matcher.is_dead());
    matcher.reset();
    matcher.put('d');
    assert!(matcher.is_accepted());
}

#[test]
fn test_matcher_from_regex() {
    let re = turkey::regex::Regex::symbol('a');
    let matcher = turkey::matcher::Matcher::from_regex(&re);
    assert!(!matcher.is_accepting());
    assert!(!matcher.is_dead());
}

#[test]
fn test_matcher_reset() {
    let re = turkey::regex::Regex::symbol('a');
    let mut matcher = turkey::matcher::Matcher::from_regex(&re);
    matcher.put('a');
    assert!(matcher.is_accepting());
    matcher.reset();
    assert!(!matcher.is_accepting());
}

#[test]
fn test_matcher_put() {
    let re = turkey::regex::Regex::symbol('a');
    let mut matcher = turkey::matcher::Matcher::from_regex(&re);
    matcher.put('a');
    assert!(matcher.is_accepting());
    matcher.put('b');
    assert!(matcher.is_dead());
}

#[test]
fn test_matcher_is_accepting() {
    let re = turkey::regex::Regex::symbol('a');
    let mut matcher = turkey::matcher::Matcher::from_regex(&re);
    assert!(!matcher.is_accepting());
    matcher.put('a');
    assert!(matcher.is_accepting());
}

#[test]
fn test_matcher_is_dead() {
    let re = turkey::regex::Regex::symbol('a');
    let mut matcher = turkey::matcher::Matcher::from_regex(&re);
    assert!(!matcher.is_dead());
    matcher.put('b');
    assert!(matcher.is_dead());
}

#[test]
fn test_matcher_complex_regex() {
    let re1 = turkey::regex::Regex::symbol('a');
    let re2 = turkey::regex::Regex::symbol('b');
    let re3 = turkey::regex::Regex::symbol('c');
    let re4 = turkey::regex::Regex::symbol('d');

    let complex_re = re1.concat(&re2).union(&re3.concat(&re4)).star();
    let mut matcher = turkey::matcher::Matcher::from_regex(&complex_re);

    // Test if the matcher is not accepting initially
    assert!(matcher.is_accepting());

    // Test matcher with a sequence that should be accepted
    matcher.put('a');
    assert!(!matcher.is_dead());
    matcher.put('b');
    assert!(matcher.is_accepting());

    matcher.reset();

    matcher.put('c');
    assert!(!matcher.is_dead());
    matcher.put('d');
    assert!(matcher.is_accepting());

    matcher.reset();

    // Test matcher with a sequence that should not be accepted
    matcher.put('e');
    assert!(matcher.is_dead());
}

#[test]
fn none_of_matches_single_code_points_outside_the_set() {
    let regex = Regex::none_of("ba\u{D7FF}a");
    let mut matcher = Matcher::new(&regex);
    for s in ["c", "\0", "`", "\u{D7FE}", "\u{E000}", "\u{10FFFF}"] {
        assert!(matcher.match_string(s), "{:?}", s);
    }
    for s in ["a", "b", "\u{D7FF}", "", "cc", "ca"] {
        assert!(!matcher.match_string(s), "{:?}", s);
    }
    // Every code point is forbidden only if the set holds all of them; an
    // empty set forbids none.
    let mut any = Matcher::new(&Regex::none_of(""));
    assert!(any.match_string("x"));
    assert!(!any.match_string("xy"));
    assert!(!any.match_string(""));
}

#[test]
fn simplifying_constructors_keep_their_identities() {
    let x = Regex::char('x');
    assert!(Regex::empty().concat(&x).is_empty());
    assert!(x.concat(&Regex::empty()).is_empty());
    assert!(Regex::empty().star().is_epsilon());
    assert!(Regex::epsilon().star().is_epsilon());
    assert_eq!(format!("{:?}", Regex::epsilon().concat(&x)), format!("{:?}", x));
    assert_eq!(format!("{:?}", x.concat(&Regex::epsilon())), format!("{:?}", x));
    assert_eq!(format!("{:?}", x.union(&Regex::empty())), format!("{:?}", x));
    assert_eq!(format!("{:?}", Regex::empty().union(&x)), format!("{:?}", x));
    assert_eq!(format!("{:?}", x.star().star()), format!("{:?}", x.star()));
}

#[test]
fn cached_flag_is_the_nullability_of_the_term() {
    let a = Regex::char('a');
    assert!(!Regex::empty().is_nullable());
    assert!(Regex::epsilon().is_nullable());
    assert!(!a.is_nullable());
    assert!(!Regex::range('a', 'z').is_nullable());
    assert!(!Regex::any().is_nullable());
    assert!(!a.concat(&a.star()).is_nullable());
    assert!(a.star().concat(&a.opt()).is_nullable());
    assert!(a.union(&Regex::epsilon()).is_nullable());
    assert!(!a.union(&a).is_nullable());
    assert!(a.star().is_nullable());
    assert!(!a.plus().is_nullable());
    assert!(a.opt().is_nullable());
}

#[test]
fn matcher_accepts_the_strings_of_the_language() {
    // (ab|c)*d
    let a = Regex::char('a');
    let b = Regex::char('b');
    let c = Regex::char('c');
    let d = Regex::char('d');
    let regex = a.concat(&b).union(&c).star().concat(&d);
    let mut matcher = Matcher::new(&regex);
    for s in ["d", "abd", "cd", "abcabd", "ccabd"] {
        assert!(matcher.match_string(s), "{:?}", s);
    }
    for s in ["", "ab", "ad", "abdd", "dab", "acd"] {
        assert!(!matcher.match_string(s), "{:?}", s);
    }
}

#[test]
fn matcher_is_dead_where_no_continuation_is_in_the_language() {
    let regex = Regex::char('a').concat(&Regex::char('b').star());
    let mut matcher = Matcher::new(&regex);
    assert!(!matcher.is_dead());
    matcher.put('a');
    assert!(matcher.is_accepted() && !matcher.is_dead());
    matcher.put('b');
    assert!(matcher.is_accepted() && !matcher.is_dead());
    matcher.put('a');
    assert!(matcher.is_dead() && !matcher.is_accepted());
    matcher.put('b');
    assert!(matcher.is_dead());
    // A range whose bounds are out of order matches nothing, and its
    // matcher is dead only once it has been fed.
    let mut backwards = Matcher::new(&Regex::range('z', 'a'));
    assert!(!backwards.is_dead());
    backwards.put('m');
    assert!(backwards.is_dead());
}

#[test]
fn reset_forgets_every_feed() {
    let regex = Regex::char('a').plus();
    let mut matcher = Matcher::new(&regex);
    matcher.put('a');
    matcher.put('b');
    matcher.put('c');
    assert!(matcher.is_dead());
    matcher.reset();
    matcher.reset();
    assert!(!matcher.is_dead());
    assert!(!matcher.is_accepted());
    matcher.put('a');
    assert!(matcher.is_accepted());
}

#[test]
fn incr_and_decr_skip_the_surrogate_block() {
    assert_eq!(incr_char('a'), 'b');
    assert_eq!(decr_char('b'), 'a');
    assert_eq!(incr_char('\u{D7FF}'), '\u{E000}');
    assert_eq!(decr_char('\u{E000}'), '\u{D7FF}');
    assert_eq!(incr_char('\0'), '\u{1}');
    assert_eq!(decr_char('\u{10FFFF}'), '\u{10FFFE}');
}
