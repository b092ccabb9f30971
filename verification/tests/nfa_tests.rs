use std::cmp::Ordering;
use turkey::lexer::nfa::NfaBuilder;
use turkey::lexer::nfa::NfaRunner;
use turkey::lexer::regex::Regex;

#[derive(Clone, PartialEq, Eq, Debug)]
struct Output(char);

fn cmp(a: &Output, b: &Output) -> Ordering {
    a.0.cmp(&b.0)
}

#[test]
fn test_nfa_builder() {
    let mut builder = NfaBuilder::new(cmp);
    let start = builder.node();
    let accept = builder.node();
    builder.edge(start, accept, 'a', 'z', Output('a'));
    builder.start(start);
    builder.accept(accept);
    let nfa = builder.build();

    assert_eq!(*nfa.starts(), vec![start]);
    assert_eq!(*nfa.accepts(), vec![accept]);
    assert_eq!(nfa.node_count(), 2);
    let edges = nfa.edges(start);
    assert_eq!(edges.len(), 1);
    assert_eq!((edges[0].0, edges[0].1, edges[0].2), ('a', 'z', accept));
    assert_eq!(*nfa.output(edges[0].3), Output('a'));
}

#[test]
fn test_nfa_runner() {
    let mut builder = NfaBuilder::new(cmp);
    let start = builder.node();
    let accept = builder.node();
    builder.edge(start, accept, 'a', 'z', Output('a'));
    builder.start(start);
    builder.accept(accept);
    let nfa = builder.build();

    let mut runner = NfaRunner::new(&nfa);
    assert!(!runner.is_accept());
    assert_eq!(runner.step('a'), Some(Output('a')));
    assert!(runner.is_accept());
    assert_eq!(runner.step('b'), None);
    assert!(!runner.is_accept());
}

#[test]
fn test_nfa_epsilon() {
    let mut builder = NfaBuilder::new(cmp);
    let start = builder.node();
    let middle = builder.node();
    let accept = builder.node();
    builder.epsilon(start, middle);
    builder.edge(middle, accept, 'a', 'z', Output('a'));
    builder.start(start);
    builder.accept(accept);
    let nfa = builder.build();

    let mut runner = NfaRunner::new(&nfa);
    assert!(!runner.is_accept());
    assert_eq!(runner.step('a'), Some(Output('a')));
    assert!(runner.is_accept());
}

#[test]
fn nfa_test_nfa_multiple_edges() {
    let mut builder = NfaBuilder::new(cmp);
    let start = builder.node();
    let accept1 = builder.node();
    let accept2 = builder.node();
    builder.edge(start, accept1, 'a', 'm', Output('a'));
    builder.edge(start, accept2, 'n', 'z', Output('n'));
    builder.start(start);
    builder.accept(accept1);
    builder.accept(accept2);

    let nfa = builder.build();

    let mut runner = NfaRunner::new(&nfa);
    assert!(!runner.is_accept());
    assert_eq!(runner.step('a'), Some(Output('a')));
    assert!(runner.is_accept());
    runner.reset();
    assert_eq!(runner.step('n'), Some(Output('n')));
    assert!(runner.is_accept());
}

#[test]
fn test_nfa_dead_state() {
    let mut builder = NfaBuilder::new(cmp);
    let start = builder.node();
    let dead = builder.node();
    builder.edge(start, dead, 'a', 'a', Output('a'));
    builder.edge(dead, start, 'z', 'z', Output('z'));
    builder.start(start);

    let nfa = builder.build();

    let mut runner = NfaRunner::new(&nfa);
    assert!(!runner.is_accept());
    assert_eq!(runner.step('a'), None);
    assert!(runner.is_dead());
    assert_eq!(runner.step('b'), None);
    assert!(runner.is_dead());
}

#[test]
fn test_nfa_complex() {
    let mut builder = NfaBuilder::new(cmp);
    let start = builder.node();
    let middle1 = builder.node();
    let middle2 = builder.node();
    let accept1 = builder.node();
    let accept2 = builder.node();
    let accept3 = builder.node();

    builder.edge(start, middle1, 'a', 'c', Output('a'));
    builder.edge(middle1, middle2, 'd', 'f', Output('d'));
    builder.edge(middle2, accept1, 'g', 'i', Output('g'));
    builder.edge(middle2, accept2, 'j', 'l', Output('j'));
    builder.edge(start, accept3, 'm', 'o', Output('m'));

    let dead1 = builder.node();
    let dead2 = builder.node();
    let dead3 = builder.node();

    builder.edge(dead1, dead2, 'a', 'z', Output('z'));
    builder.edge(accept3, dead3, 'p', 'z', Output('z'));

    builder.epsilon(middle1, accept3);
    builder.start(start);
    builder.accept(accept1);
    builder.accept(accept2);
    builder.accept(accept3);

    let nfa = builder.build();

    let mut runner = NfaRunner::new(&nfa);
    assert!(!runner.is_accept());
    assert_eq!(runner.step('a'), Some(Output('a')));
    assert!(runner.is_accept());
    assert_eq!(runner.step('d'), Some(Output('d')));
    assert!(!runner.is_accept());
    assert_eq!(runner.step('g'), Some(Output('g')));
    assert!(runner.is_accept());

    runner.reset();
    assert_eq!(runner.step('a'), Some(Output('a')));
    assert!(runner.is_accept());
    assert_eq!(runner.step('d'), Some(Output('d')));
    assert!(!runner.is_accept());
    assert_eq!(runner.step('j'), Some(Output('j')));
    assert!(runner.is_accept());

    runner.reset();
    assert_eq!(runner.step('m'), Some(Output('m')));
    assert!(runner.is_accept());
}

#[test]
fn test_complex_nfa_optimization() {
    let mut builder = NfaBuilder::new(cmp);

    let start = builder.node();

    let mut fully_connected = vec![];

    for _ in 0..5 {
        fully_connected.push(builder.node());
    }

    let mut iter = ('a'..='z').chain('A'..='Z').chain('0'..='9');

    for &i in &fully_connected {
        for &j in &fully_connected {
            let c = iter.next().unwrap();
            builder.edge(i, j, c, c, Output('a'));
        }
    }

    let middle = builder.node();

    builder.edge(
        start,
        *fully_connected.first().unwrap(),
        'a',
        'z',
        Output('a'),
    );

    builder.edge(
        *fully_connected.last().unwrap(),
        middle,
        'a',
        'z',
        Output('a'),
    );

    fully_connected.clear();

    for _ in 0..5 {
        fully_connected.push(builder.node());
    }

    for &i in &fully_connected {
        for &j in &fully_connected {
            let c = iter.next().unwrap();
            builder.edge(i, j, c, c, Output('a'));
        }
    }

    let last = builder.node();

    builder.edge(
        middle,
        *fully_connected.first().unwrap(),
        'a',
        'z',
        Output('a'),
    );

    builder.edge(
        *fully_connected.last().unwrap(),
        last,
        'a',
        'z',
        Output('a'),
    );

    builder.start(start);
    builder.accept(last);

    let nfa = builder.build();
    assert!(nfa.node_count() > 0);
}

#[test]
fn test_nfa_from_regex() {
    let a = Regex::char('a');
    let b = Regex::char('b');
    let c = Regex::char('c');
    let d = Regex::char('d');

    let r = &[a, b, c, d]
        .iter()
        .fold(Regex::empty(), |acc, r| Regex::union(&acc, r));

    let nfa = NfaBuilder::from_regex(&r, Output('a'), cmp);
    let mut runner = NfaRunner::new(&nfa);
    assert!(!runner.is_accept());
    assert_eq!(runner.step('c'), Some(Output('a')));
    assert!(runner.is_accept());
    assert_eq!(runner.step('c'), None);
    assert!(!runner.is_accept());
}

fn runs(regex: &Regex, input: &str) -> bool {
    let nfa = NfaBuilder::from_regex(regex, Output('x'), cmp);
    let mut runner = NfaRunner::new(&nfa);
    for c in input.chars() {
        runner.step(c);
    }
    runner.is_accept()
}

#[test]
fn automaton_of_a_regex_accepts_its_language() {
    // (ab|c)*d
    let a = Regex::char('a');
    let b = Regex::char('b');
    let c = Regex::char('c');
    let d = Regex::char('d');
    let regex = a.concat(&b).union(&c).star().concat(&d);
    for s in ["d", "abd", "cd", "abcabd", "ccabd"] {
        assert!(runs(&regex, s), "{:?}", s);
    }
    for s in ["", "ab", "ad", "abdd", "dab", "acd"] {
        assert!(!runs(&regex, s), "{:?}", s);
    }
    assert!(runs(&Regex::epsilon(), ""));
    assert!(!runs(&Regex::epsilon(), "a"));
    assert!(!runs(&Regex::empty(), ""));
    assert!(!runs(&Regex::range('z', 'a'), "m"));
    assert!(runs(&a.plus(), "aaa"));
    assert!(!runs(&a.plus(), ""));
    assert!(runs(&a.opt(), ""));
}

#[test]
fn step_gives_the_greatest_output_of_the_arcs_that_fire() {
    let mut builder = NfaBuilder::new(cmp);
    let start = builder.node();
    let one = builder.node();
    let two = builder.node();
    // The second range overlaps the first, so it starts from a node of its
    // own, which the start node reaches without reading.
    builder.edge(start, one, 'a', 'm', Output('k'));
    builder.edge(start, two, 'h', 'z', Output('q'));
    builder.start(start);
    builder.accept(one);
    builder.accept(two);
    let nfa = builder.build();
    assert_eq!(nfa.node_count(), 4);
    let mut runner = NfaRunner::new(&nfa);
    assert_eq!(runner.step('b'), Some(Output('k')));
    runner.reset();
    assert_eq!(runner.step('x'), Some(Output('q')));
    runner.reset();
    assert_eq!(runner.step('i'), Some(Output('q')));
    assert!(runner.is_accept());
    assert!(!runner.is_dead());
    assert_eq!(runner.step('i'), None);
    assert!(runner.is_dead());
}

#[test]
fn merge_copies_an_automaton_between_two_new_nodes() {
    let mut inner = NfaBuilder::new(cmp);
    let s = inner.node();
    let t = inner.node();
    inner.edge(s, t, 'x', 'x', Output('x'));
    inner.start(s);
    inner.accept(t);

    let mut outer = NfaBuilder::new(cmp);
    let start = outer.node();
    let accept = outer.node();
    let (entry, exit) = outer.merge(&inner);
    assert_eq!((entry, exit), (4, 5));
    outer.epsilon(start, entry);
    outer.epsilon(exit, accept);
    outer.start(start);
    outer.accept(accept);
    let nfa = outer.build();
    let mut runner = NfaRunner::new(&nfa);
    assert_eq!(runner.step('x'), Some(Output('x')));
    assert!(runner.is_accept());
}

#[test]
fn runner_is_dead_only_where_no_node_is_active() {
    let nothing = NfaBuilder::from_regex(&Regex::epsilon(), Output('e'), cmp);
    let mut runner = NfaRunner::new(&nothing);
    assert!(runner.is_accept());
    assert!(!runner.is_dead());
    assert_eq!(runner.step('a'), None);
    assert!(!runner.is_accept());
    assert!(runner.is_dead());
    runner.reset();
    assert!(runner.is_accept());
    assert!(!runner.is_dead());

    let never = NfaBuilder::from_regex(&Regex::empty(), Output('n'), cmp);
    let runner = NfaRunner::new(&never);
    assert!(!runner.is_accept());
    assert!(runner.is_dead());
}

#[test]
fn runner_and_derivatives_agree_on_every_prefix() {
    let regex = Regex::char('a')
        .union(&Regex::char('b').concat(&Regex::char('c')))
        .star()
        .concat(&Regex::range('d', 'f').plus());
    let nfa = NfaBuilder::from_regex(&regex, Output('x'), cmp);
    let mut runner = NfaRunner::new(&nfa);
    let mut matcher = turkey::lexer::regex::Matcher::new(&regex);
    for s in ["", "d", "ae", "bcf", "abcabcdef", "bd", "abca", "dda", "x", "abcx"] {
        runner.reset();
        matcher.reset();
        assert_eq!(runner.is_accept(), matcher.is_accepted());
        assert_eq!(runner.is_dead(), matcher.is_dead());
        for c in s.chars() {
            runner.step(c);
            matcher.put(c);
            assert_eq!(runner.is_accept(), matcher.is_accepted(), "after a prefix of {:?}", s);
            assert_eq!(runner.is_dead(), matcher.is_dead(), "after a prefix of {:?}", s);
        }
    }
}
