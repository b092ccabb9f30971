use std::collections::HashMap;
use turkey::lex::nfa::Nfa;

fn build_nfa(
    start: usize,
    accept: usize,
    edges: &[(usize, char, char, usize)],
    epsilons: &[(usize, usize)],
) -> Nfa {
    let mut nfa = Nfa::new();
    let mut map = HashMap::new();

    for (from, lo, hi, to) in edges {
        let from = *map.entry(*from).or_insert_with(|| nfa.create_node());
        let to = *map.entry(*to).or_insert_with(|| nfa.create_node());
        nfa.add_edge(from, *lo, *hi, to);
    }

    for (from, to) in epsilons {
        let from = *map.entry(*from).or_insert_with(|| nfa.create_node());
        let to = *map.entry(*to).or_insert_with(|| nfa.create_node());
        nfa.add_epsilon(from, to);
    }

    let start = *map.entry(start).or_insert_with(|| nfa.create_node());
    let accept = *map.entry(accept).or_insert_with(|| nfa.create_node());

    nfa.add_start(start);
    nfa.add_accept(accept);

    nfa.reset();
    nfa
}

fn test_nfa(nfa: &mut Nfa, input: &str, is_dead: bool, is_accept: bool, _testname: &str) {
    for c in input.chars() {
        nfa.put(c);
    }

    assert_eq!(nfa.is_dead(), is_dead, "is_dead failure. input: {:?}", input);
    assert_eq!(
        nfa.is_accept(),
        is_accept,
        "is_accept failure. input: {:?}",
        input
    );

    nfa.reset();
}

#[test]
fn test_nfa_empty() {
    let mut nfa = build_nfa(0, 1, &[], &[]);

    assert!(nfa.is_dead());
    assert!(!nfa.is_accept());

    nfa.put('a');

    assert!(nfa.is_dead());
    assert!(!nfa.is_accept());
}

#[test]
fn test_nfa_edge() {
    let mut nfa = build_nfa(0, 1, &[(0, 'a', 'a', 1)], &[]);

    assert!(!nfa.is_dead());
    assert!(!nfa.is_accept());

    nfa.put('a');

    assert!(!nfa.is_dead());
    assert!(nfa.is_accept());

    nfa.put('a');

    assert!(nfa.is_dead());
    assert!(!nfa.is_accept());
}

#[test]
fn test_nfa_reset() {
    let mut nfa = build_nfa(0, 1, &[(0, 'a', 'a', 1)], &[]);

    assert!(!nfa.is_dead());
    assert!(!nfa.is_accept());

    nfa.put('a');

    assert!(!nfa.is_dead());
    assert!(nfa.is_accept());

    nfa.put('a');

    assert!(nfa.is_dead());
    assert!(!nfa.is_accept());

    nfa.reset();

    assert!(!nfa.is_dead());
    assert!(!nfa.is_accept());

    nfa.put('a');

    assert!(!nfa.is_dead());
    assert!(nfa.is_accept());

    nfa.put('a');

    assert!(nfa.is_dead());
    assert!(!nfa.is_accept());
}

#[test]
fn test_nfa_epsilon_transition() {
    let mut nfa = build_nfa(0, 2, &[(1, 'a', 'a', 2)], &[(0, 1)]);

    test_nfa(&mut nfa, "", false, false, "test_nfa_epsilon_transition");
    test_nfa(&mut nfa, "a", false, true, "test_nfa_epsilon_transition");
    test_nfa(&mut nfa, "aa", true, false, "test_nfa_epsilon_transition");
}

#[test]
fn test_nfa_two_ranges_in_a_row() {
    let mut nfa = build_nfa(0, 2, &[(0, 'a', 'z', 1), (1, '0', '9', 2)], &[]);

    test_nfa(&mut nfa, "a0", false, true, "test_nfa_multiple_edges");
    test_nfa(&mut nfa, "z9", false, true, "test_nfa_multiple_edges");
    test_nfa(&mut nfa, "m5", false, true, "test_nfa_multiple_edges");
    test_nfa(&mut nfa, "aa", true, false, "test_nfa_multiple_edges");
    test_nfa(&mut nfa, "5a", true, false, "test_nfa_multiple_edges");
}

#[test]
fn test_nfa_range_transition() {
    let mut nfa = build_nfa(0, 1, &[(0, '0', '9', 1)], &[]);

    test_nfa(&mut nfa, "0", false, true, "test_nfa_range_transition");
    test_nfa(&mut nfa, "5", false, true, "test_nfa_range_transition");
    test_nfa(&mut nfa, "9", false, true, "test_nfa_range_transition");
    test_nfa(&mut nfa, "a", true, false, "test_nfa_range_transition");
    test_nfa(&mut nfa, ":", true, false, "test_nfa_range_transition");
}

#[test]
fn test_nfa_multiple_epsilon() {
    let mut nfa = build_nfa(0, 3, &[(1, 'a', 'a', 2)], &[(0, 1), (2, 3)]);

    test_nfa(&mut nfa, "", false, false, "test_nfa_multiple_epsilon");
    test_nfa(&mut nfa, "a", false, true, "test_nfa_multiple_epsilon");
    test_nfa(&mut nfa, "aa", true, false, "test_nfa_multiple_epsilon");
}

#[test]
fn test_nfa_branching_paths() {
    let mut nfa = build_nfa(0, 2, &[(0, 'a', 'a', 1), (0, 'b', 'b', 2)], &[]);

    test_nfa(&mut nfa, "a", true, false, "test_nfa_branching_paths");
    test_nfa(&mut nfa, "b", false, true, "test_nfa_branching_paths");
    test_nfa(&mut nfa, "ab", true, false, "test_nfa_branching_paths");
}

#[test]
fn test_nfa_abstar() {
    let mut nfa = build_nfa(
        0,
        2,
        &[(0, 'a', 'a', 1), (1, 'b', 'b', 2)],
        &[(0, 2), (2, 0)],
    );

    test_nfa(&mut nfa, "", false, true, "test_nfa_abstar");
    test_nfa(&mut nfa, "a", false, false, "test_nfa_abstar");
    test_nfa(&mut nfa, "ab", false, true, "test_nfa_abstar");
    test_nfa(&mut nfa, "aba", false, false, "test_nfa_abstar");
    test_nfa(&mut nfa, "abab", false, true, "test_nfa_abstar");
}

#[test]
fn optimizing_removes_what_is_unreachable_or_dead() {
    // 0 -a-> 1 -b-> 2 (accept); 3 is unreachable; 4 is reachable but dead.
    let mut nfa = Nfa::new();
    for _ in 0..5 {
        nfa.create_node();
    }
    nfa.add_edge(0, 'a', 'a', 1);
    nfa.add_edge(1, 'b', 'b', 2);
    nfa.add_edge(3, 'c', 'c', 2);
    nfa.add_edge(0, 'd', 'd', 4);
    nfa.add_start(0);
    nfa.add_start(0);
    nfa.add_accept(2);
    assert_eq!(nfa.node_count(), 5);
    nfa.reset();
    assert_eq!(nfa.node_count(), 3);
    assert_eq!(*nfa.starts(), vec![0]);
    assert_eq!(*nfa.accepts(), vec![2]);
    nfa.put('d');
    assert!(nfa.is_dead());
    nfa.reset();
    nfa.put('a');
    nfa.put('b');
    assert!(nfa.is_accept());
    // A second reset changes nothing.
    nfa.reset();
    assert_eq!(nfa.node_count(), 3);
    assert_eq!(*nfa.starts(), vec![0]);
}

#[test]
fn removing_a_node_gives_its_index_to_the_last_node() {
    let mut nfa = Nfa::new();
    for _ in 0..4 {
        nfa.create_node();
    }
    nfa.add_edge(0, 'a', 'a', 3);
    nfa.add_edge(0, 'b', 'b', 1);
    nfa.add_epsilon(3, 1);
    nfa.add_epsilon(3, 2);
    nfa.add_start(0);
    nfa.add_accept(3);
    nfa.add_accept(1);
    nfa.remove_node(1);
    assert_eq!(nfa.node_count(), 3);
    assert_eq!(*nfa.edges_of(0), vec![('a', 'a', 1, 0)]);
    assert_eq!(*nfa.epsilons_of(1), vec![2]);
    assert_eq!(*nfa.accepts(), vec![1]);
    nfa.remove_unreachable_nodes();
    assert_eq!(nfa.node_count(), 3);
}

#[test]
fn overlapping_ranges_leave_from_a_node_of_their_own() {
    let mut nfa = Nfa::new();
    let from = nfa.create_node();
    let to = nfa.create_node();
    nfa.add_edge(from, 'a', 'm', to);
    nfa.add_edge(from, 'n', 'z', to);
    assert_eq!(nfa.node_count(), 2);
    nfa.add_edge(from, 'k', 'p', to);
    assert_eq!(nfa.node_count(), 3);
    assert_eq!(*nfa.epsilons_of(from), vec![2]);
    assert_eq!(*nfa.edges_of(2), vec![('k', 'p', to, 0)]);
}

#[test]
fn merge_copies_a_graph_under_new_indices() {
    let mut inner = Nfa::new();
    let a = inner.create_node();
    let b = inner.create_node();
    inner.add_edge(a, 'x', 'y', b);
    inner.add_epsilon(b, a);
    inner.add_start(a);
    inner.add_accept(b);
    inner.add_accept(b);

    let mut outer = Nfa::new();
    outer.create_node();
    let (entry, exit) = outer.merge(&inner);
    assert_eq!((entry, exit), (3, 4));
    assert_eq!(outer.node_count(), 5);
    assert_eq!(*outer.edges_of(1), vec![('x', 'y', 2, 0)]);
    assert_eq!(*outer.epsilons_of(2), vec![1, 4, 4]);
    assert_eq!(*outer.epsilons_of(3), vec![1]);
    assert!(outer.epsilons_of(4).is_empty());
    assert!(outer.starts().is_empty());
}

#[test]
fn optimizing_names_each_start_and_accepting_node_once() {
    let mut nfa = Nfa::new();
    for _ in 0..3 {
        nfa.create_node();
    }
    nfa.add_edge(0, 'a', 'a', 2);
    nfa.add_edge(0, 'b', 'b', 1);
    nfa.add_start(0);
    nfa.add_start(0);
    nfa.add_accept(2);
    nfa.add_accept(1);
    nfa.add_accept(2);
    nfa.reset();
    assert_eq!(nfa.node_count(), 3);
    assert_eq!(*nfa.starts(), vec![0]);
    assert_eq!(*nfa.accepts(), vec![1, 2]);
    nfa.put('a');
    assert!(nfa.is_accept());
    nfa.reset();
    nfa.put('b');
    assert!(nfa.is_accept());
}
