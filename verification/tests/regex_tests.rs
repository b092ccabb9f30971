use turkey::regex::Regex;

#[test]
fn test_empty() {
    let re = Regex::empty();
    assert!(re.is_empty());
    assert!(!re.is_nullable());
}

#[test]
fn test_epsilon() {
    let re = Regex::epsilon();
    assert!(re.is_epsilon());
    assert!(re.is_nullable());
}

#[test]
fn test_symbol() {
    let re = Regex::symbol('a');
    assert!(!re.is_empty());
    assert!(!re.is_nullable());
}

#[test]
fn test_range() {
    let re = Regex::range('a', 'z');
    assert!(!re.is_empty());
    assert!(!re.is_nullable());
}

#[test]
fn test_derivative() {
    let re = Regex::symbol('a');
    let d = re.derivative('a');
    assert!(d.is_epsilon());

    let re = Regex::symbol('a');
    let d = re.derivative('b');
    assert!(d.is_empty());
}

#[test]
fn test_nullable() {
    let re = Regex::epsilon();
    assert!(re.is_nullable());

    let re = Regex::symbol('a');
    assert!(!re.is_nullable());
}

#[test]
fn test_complex_regex() {
    let re1 = Regex::symbol('a');
    let re2 = Regex::symbol('b');
    let re3 = Regex::symbol('c');
    let re4 = Regex::symbol('d');

    let complex_re = re1.concat(&re2).union(&re3.concat(&re4)).star();

    // Test if the complex regex is nullable
    assert!(complex_re.is_nullable());

    // Test derivatives
    let d1 = complex_re.derivative('a');
    assert!(!d1.is_empty());

    let d2 = d1.derivative('b');
    assert!(d2.is_nullable());

    let d3 = complex_re.derivative('c');
    assert!(!d3.is_empty());

    let d4 = d3.derivative('d');
    assert!(d4.is_nullable());

    let d5 = complex_re.derivative('e');
    assert!(d5.is_empty());
}

#[test]
fn test_compl() {
    let re = Regex::symbol('a').compl();
    assert!(!re.is_empty());
    assert!(re.is_nullable());

    let re = Regex::epsilon().compl();
    assert!(!re.is_empty());
    assert!(!re.is_nullable());

    let re = Regex::empty().compl();
    assert!(!re.is_empty());
    assert!(re.is_nullable());
}

#[test]
fn test_intersect() {
    let re1 = Regex::symbol('a');
    let re2 = Regex::symbol('a');
    let re = re1.intersect(&re2);
    assert!(!re.is_empty());
    assert!(!re.is_nullable());

    let re1 = Regex::symbol('a');
    let re2 = Regex::symbol('b');
    let re = re1.intersect(&re2);
    assert!(re.is_empty());
    assert!(!re.is_nullable());

    let re1 = Regex::range('a', 'z');
    let re2 = Regex::range('m', 'p');
    let re = re1.intersect(&re2);
    assert!(!re.is_empty());
    assert!(!re.is_nullable());
}

fn accepts(re: &Regex, s: &str) -> bool {
    let mut state = re.clone();
    for c in s.chars() {
        state = state.derivative(c);
    }
    state.is_nullable()
}

#[test]
fn intersection_and_complement_match_by_derivatives() {
    let letters = Regex::range('a', 'z').star();
    let no_x = Regex::seq("x").compl();
    let both = letters.intersect(&no_x);
    assert!(accepts(&both, "abc"));
    assert!(accepts(&both, ""));
    assert!(accepts(&both, "xx"));
    assert!(!accepts(&both, "x"));
    assert!(!accepts(&both, "a1"));
    assert!(accepts(&Regex::any_of("abc"), "b"));
    assert!(!accepts(&Regex::any_of("abc"), "d"));
    assert!(!accepts(&Regex::any_of(""), ""));
    assert!(accepts(&Regex::seq("let"), "let"));
    assert!(!accepts(&Regex::seq("let"), "le"));
    assert!(accepts(&Regex::seq(""), ""));
    assert!(accepts(&Regex::symbol('a').plus(), "aaa"));
    assert!(!accepts(&Regex::symbol('a').plus(), ""));
}

#[test]
fn first_collects_the_ranges_that_may_start_a_string() {
    let a = Regex::symbol('a');
    let digits = Regex::range('0', '9');
    // a*[0-9] may start with an `a` or a digit; [0-9]a only with a digit.
    let mut ranges = vec![('x', 'y')];
    a.star().concat(&digits).first(&mut ranges);
    assert_eq!(ranges, vec![('x', 'y'), ('a', 'a'), ('0', '9')]);
    let mut ranges = vec![];
    digits.concat(&a).first(&mut ranges);
    assert_eq!(ranges, vec![('0', '9')]);
    let mut ranges = vec![];
    a.union(&digits).compl().first(&mut ranges);
    assert_eq!(ranges, vec![('a', 'a'), ('0', '9')]);
    let mut ranges = vec![];
    Regex::epsilon().first(&mut ranges);
    Regex::empty().first(&mut ranges);
    assert!(ranges.is_empty());
}
