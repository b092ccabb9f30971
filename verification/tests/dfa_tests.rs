use turkey::lexer::dfa::DfaBuilder;
use turkey::lexer::dfa::DfaRunner;

#[test]
fn test_dfa_builder() {
    let mut builder = DfaBuilder::new();
    builder.add_state(1);
    builder.add_state(2);
    builder.add_edge(1, 2, ('a', 'a'), "a to b");
    builder.set_start(1);
    builder.set_accept(2, true);

    let dfa = builder.build();
    let mut runner = DfaRunner::new(&dfa);

    assert_eq!(runner.next('a'), Ok("a to b"));
    assert!(runner.is_accept());
}

#[test]
fn test_complex_dfa() {
    let mut builder = DfaBuilder::new();
    builder.add_state(1);
    builder.add_state(2);
    builder.add_state(3);
    builder.add_state(4);
    builder.add_edge(1, 2, ('a', 'a'), "a to b");
    builder.add_edge(2, 3, ('b', 'b'), "b to c");
    builder.add_edge(3, 4, ('c', 'c'), "c to d");
    builder.add_edge(4, 1, ('d', 'd'), "d to a");
    builder.set_start(1);
    builder.set_accept(4, true);

    let dfa = builder.build();
    let mut runner = DfaRunner::new(&dfa);

    assert_eq!(runner.next('a'), Ok("a to b"));
    assert!(!runner.is_accept());
    assert_eq!(runner.next('b'), Ok("b to c"));
    assert!(!runner.is_accept());
    assert_eq!(runner.next('c'), Ok("c to d"));
    assert!(runner.is_accept());
    assert_eq!(runner.next('d'), Ok("d to a"));
    assert!(!runner.is_accept());
    assert_eq!(runner.next('a'), Ok("a to b"));
    assert!(!runner.is_accept());
}

#[test]
fn test_dfa_reset() {
    let mut builder = DfaBuilder::new();
    builder.add_state(1);
    builder.add_state(2);
    builder.add_edge(1, 2, ('a', 'a'), "a to b");
    builder.set_start(1);
    builder.set_accept(2, true);

    let dfa = builder.build();
    let mut runner = DfaRunner::new(&dfa);

    assert_eq!(runner.next('a'), Ok("a to b"));
    assert!(runner.is_accept());

    runner.reset();
    assert_eq!(runner.next('a'), Ok("a to b"));
    assert!(runner.is_accept());
}

#[test]
fn test_dfa_error_state() {
    let mut builder = DfaBuilder::new();
    builder.add_state(1);
    builder.add_state(2);
    builder.add_edge(1, 2, ('a', 'a'), "a to b");
    builder.set_start(1);
    builder.set_accept(2, true);

    let dfa = builder.build();
    let mut runner = DfaRunner::new(&dfa);

    assert_eq!(runner.next('b'), Err(()));
    assert!(runner.is_error());
}

#[test]
fn dfa_follows_the_edge_whose_guard_holds_the_code_point() {
    let dfa = DfaBuilder::new()
        .with_states(&[10, 20, 30])
        .with_edge(10, 30, ('n', 'z'), 2)
        .with_edge(10, 20, ('a', 'm'), 1)
        .with_start(10)
        .with_accept(30, true)
        .with_state(40)
        .build();
    let mut runner = DfaRunner::new(&dfa);
    assert!(!runner.is_accept());
    assert_eq!(runner.next('c'), Ok(1));
    assert!(!runner.is_accept());
    assert_eq!(runner.next('c'), Err(()));
    assert!(runner.is_error());
    assert_eq!(runner.next('c'), Err(()));
    runner.reset();
    assert!(!runner.is_error());
    assert_eq!(runner.next('z'), Ok(2));
    assert!(runner.is_accept());
}
