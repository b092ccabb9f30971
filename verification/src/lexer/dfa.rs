use std::collections::HashMap;
use vstd::prelude::*;

verus! {

broadcast use vstd::std_specs::hash::group_hash_axioms;

/// An edge of a DFA: the bounds of its guard, both included, its target
/// and its output.
pub type DfaEdge<T> = (char, char, usize, T);

/// Whether the guard of `e` holds the code point `c`.
pub open spec fn guards<T>(e: DfaEdge<T>, c: char) -> bool {
    e.0 as int <= c as int && c as int <= e.1 as int
}

/// The index of the first of the first `n` edges whose guard holds `c`.
pub open spec fn first_edge<T>(edges: Seq<DfaEdge<T>>, c: char, n: nat) -> Option<nat>
    decreases n,
{
    if n == 0 {
        None
    } else {
        match first_edge(edges, c, (n - 1) as nat) {
            Some(i) => Some(i),
            None => if guards(edges[n - 1], c) {
                Some((n - 1) as nat)
            } else {
                None
            },
        }
    }
}

/// The index at which an edge whose guard starts at `lo` is put among the
/// first `n` edges: before the first edge whose guard starts later.
pub open spec fn edge_slot<T>(edges: Seq<DfaEdge<T>>, lo: char, n: nat) -> nat
    decreases n,
{
    if n == 0 {
        0
    } else if edge_slot(edges, lo, (n - 1) as nat) < n - 1 {
        edge_slot(edges, lo, (n - 1) as nat)
    } else if edges[n - 1].0 as int > lo as int {
        (n - 1) as nat
    } else {
        n
    }
}

/// Whether the guard `[lo, hi]` has a bound inside the guard of an edge.
pub open spec fn overlaps<T>(edges: Seq<DfaEdge<T>>, lo: char, hi: char) -> bool {
    exists|i: int| 0 <= i < edges.len() && (guards(#[trigger] edges[i], lo) || guards(edges[i], hi))
}

/// A state of a DFA: whether it accepts, and its edges in the order of
/// the lower bounds of their guards.
struct DfaState<T> {
    accept: bool,
    edges: Vec<DfaEdge<T>>,
}

/// A deterministic finite automaton whose edges carry an output.
pub struct Dfa<T> {
    start: usize,
    states: Vec<DfaState<T>>,
}

impl<T> Dfa<T> {
    /// The number of states.
    pub closed spec fn len(&self) -> nat {
        self.states@.len()
    }

    /// The start state.
    pub closed spec fn start(&self) -> nat {
        self.start as nat
    }

    /// Whether the state `s` accepts.
    pub closed spec fn accepting(&self, s: nat) -> bool {
        self.states@[s as int].accept
    }

    /// The edges of the state `s`.
    pub closed spec fn edges(&self, s: nat) -> Seq<DfaEdge<T>> {
        self.states@[s as int].edges@
    }

    /// Whether every edge leads to a state.
    pub closed spec fn closed_edges(&self) -> bool {
        forall|s: int, i: int|
            0 <= s < self.states@.len() && 0 <= i < self.states@[s].edges@.len() ==> (
            #[trigger] self.states@[s].edges@[i]).2 < self.states@.len()
    }

    /// Well-formedness: there is a state, the start state is one, and every
    /// edge leads to one.
    pub closed spec fn wf(&self) -> bool {
        &&& self.states@.len() > 0
        &&& self.start < self.states@.len()
        &&& self.closed_edges()
    }
}

/// A builder of a DFA, whose caller names the states by numbers.
pub struct DfaBuilder<T> {
    dfa: Dfa<T>,
    state_map: HashMap<u64, usize>,
}

impl<T> DfaBuilder<T> {
    /// The automaton built so far.
    pub closed spec fn dfa(&self) -> Dfa<T> {
        self.dfa
    }

    /// The state of each number.
    pub closed spec fn ids(&self) -> Map<u64, usize> {
        self.state_map@
    }

    /// Well-formedness: every number names a state, every edge leads to
    /// one, and the start state is one as soon as there is one.
    pub closed spec fn wf(&self) -> bool {
        &&& forall|k: u64| #[trigger] self.state_map@.contains_key(k) ==> self.state_map@[k] < self.dfa.states@.len()
        &&& self.dfa.closed_edges()
        &&& self.dfa.start == 0 || self.dfa.start < self.dfa.states@.len()
    }

    /// A builder without states.
    pub fn new() -> (b: Self)
        ensures
            b.wf(),
            b.ids() == Map::<u64, usize>::empty(),
            b.dfa().len() == 0,
            b.dfa().start() == 0,
    {
        DfaBuilder { dfa: Dfa { start: 0, states: Vec::new() }, state_map: HashMap::new() }
    }

    /// Adds a state without edges that does not accept, and names it
    /// `state`.
    pub fn add_state(&mut self, state: u64)
        requires
            old(self).wf(),
        ensures
            final(self).wf(),
            final(self).ids() == old(self).ids().insert(state, old(self).dfa().len() as usize),
            final(self).dfa().len() == old(self).dfa().len() + 1,
            final(self).dfa().start() == old(self).dfa().start(),
            !final(self).dfa().accepting(old(self).dfa().len()),
            final(self).dfa().edges(old(self).dfa().len()) == Seq::<DfaEdge<T>>::empty(),
            forall|s: nat|
                s < old(self).dfa().len() ==> #[trigger] final(self).dfa().edges(s) == old(self).dfa().edges(s) && final(self).dfa().accepting(s) == old(self).dfa().accepting(s),
    {
        let id = self.dfa.states.len();
        let ghost before = *self;
        self.state_map.insert(state, id);
        self.dfa.states.push(DfaState { accept: false, edges: Vec::new() });
        proof {
            assert forall|s: int, i: int|
                0 <= s < self.dfa.states@.len() && 0 <= i < self.dfa.states@[s].edges@.len() implies (
            #[trigger] self.dfa.states@[s].edges@[i]).2 < self.dfa.states@.len() by {
                assert(self.dfa.states@[s] == before.dfa.states@[s]);
            }
        }
    }

    /// The builder with one state more.
    pub fn with_state(self, state: u64) -> (b: Self)
        requires
            self.wf(),
        ensures
            b.wf(),
            b.ids() == self.ids().insert(state, self.dfa().len() as usize),
            b.dfa().len() == self.dfa().len() + 1,
            b.dfa().start() == self.dfa().start(),
    {
        let mut b = self;
        b.add_state(state);
        b
    }

    /// The builder with one state more for each number of `states`.
    pub fn with_states(self, states: &[u64]) -> (b: Self)
        requires
            self.wf(),
        ensures
            b.wf(),
            b.dfa().len() == self.dfa().len() + states@.len(),
            b.dfa().start() == self.dfa().start(),
            forall|k: u64|
                b.ids().contains_key(k) <==> self.ids().contains_key(k) || states@.contains(k),
    {
        let mut b = self;
        let n = states.len();
        let mut i: usize = 0;
        while i < n
            invariant
                i <= n,
                n == states@.len(),
                b.wf(),
                b.dfa().len() == self.dfa().len() + i,
                b.dfa().start() == self.dfa().start(),
                forall|k: u64|
                    b.ids().contains_key(k) <==> self.ids().contains_key(k) || states@.take(
                        i as int,
                    ).contains(k),
            decreases n - i,
        {
            b.add_state(states[i]);
            proof {
                let s0 = states@.take(i as int);
                let s1 = states@.take(i + 1);
                assert forall|k: u64|
                    b.ids().contains_key(k) <==> self.ids().contains_key(k) || s1.contains(
                        k,
                    ) by {
                    if s0.contains(k) {
                        let j = choose|j: int| 0 <= j < s0.len() && s0[j] == k;
                        assert(s1[j] == k);
                    }
                    if k == states@[i as int] {
                        assert(s1[i as int] == k);
                    }
                    if s1.contains(k) {
                        let j = choose|j: int| 0 <= j < s1.len() && s1[j] == k;
                        if j < i {
                            assert(s0[j] == k);
                        }
                    }
                }
            }
            i += 1;
        }
        proof {
            assert(states@.take(n as int) =~= states@);
        }
        b
    }

    /// The state that `state` names.
    fn get_id(&self, state: u64) -> (id: usize)
        requires
            self.wf(),
            self.ids().contains_key(state),
        ensures
            id == self.ids()[state],
            id < self.dfa().len(),
    {
        match self.state_map.get(&state) {
            Some(id) => *id,
            None => 0,
        }
    }

    /// Adds an edge from `from` to `to` with the guard `guard` and the
    /// output `output`, among the edges of `from` before the first whose
    /// guard starts later. The states must be named, and no bound of the
    /// guard may lie in the guard of an edge of `from`.
    pub fn add_edge(&mut self, from: u64, to: u64, guard: (char, char), output: T)
        requires
            old(self).wf(),
            old(self).ids().contains_key(from),
            old(self).ids().contains_key(to),
            !overlaps(old(self).dfa().edges(old(self).ids()[from] as nat), guard.0, guard.1),
        ensures
            final(self).wf(),
            final(self).ids() == old(self).ids(),
            final(self).dfa().len() == old(self).dfa().len(),
            final(self).dfa().start() == old(self).dfa().start(),
            ({
                let s = old(self).ids()[from] as nat;
                let edges = old(self).dfa().edges(s);
                final(self).dfa().edges(s) == edges.insert(
                    edge_slot(edges, guard.0, edges.len()) as int,
                    (guard.0, guard.1, old(self).ids()[to], output),
                )
            }),
            forall|s: nat|
                s < old(self).dfa().len() && s != old(self).ids()[from] ==> #[trigger] final(self).dfa().edges(s) == old(self).dfa().edges(s),
            forall|s: nat|
                s < old(self).dfa().len() ==> #[trigger] final(self).dfa().accepting(s) == old(self).dfa().accepting(s),
    {
        let from = self.get_id(from);
        let to = self.get_id(to);
        let ghost before = *self;
        let ghost edges = self.dfa.states@[from as int].edges@;
        let n = self.dfa.states[from].edges.len();
        let mut i: usize = 0;
        while i < n && self.dfa.states[from].edges[i].0 <= guard.0
            invariant
                i <= n,
                *self == before,
                from < self.dfa.states@.len(),
                n == edges.len(),
                edges == self.dfa.states@[from as int].edges@,
                edge_slot(edges, guard.0, i as nat) == i,
            decreases n - i,
        {
            i += 1;
        }
        proof {
            lemma_edge_slot(edges, guard.0, i as nat, n as nat);
        }
        self.dfa.states[from].edges.insert(i, (guard.0, guard.1, to, output));
        proof {
            assert forall|s: int, j: int|
                0 <= s < self.dfa.states@.len() && 0 <= j < self.dfa.states@[s].edges@.len() implies (
            #[trigger] self.dfa.states@[s].edges@[j]).2 < self.dfa.states@.len() by {
                if s == from {
                    if j < i {
                        assert(self.dfa.states@[s].edges@[j] == edges[j]);
                    } else if j > i {
                        assert(self.dfa.states@[s].edges@[j] == edges[j - 1]);
                    }
                } else {
                    assert(self.dfa.states@[s] == before.dfa.states@[s]);
                }
            }
            assert forall|s: nat| s < before.dfa().len() && s != from implies #[trigger] self.dfa().edges(
                s,
            ) == before.dfa().edges(s) by {
                assert(self.dfa.states@[s as int] == before.dfa.states@[s as int]);
            }
            assert forall|s: nat| s < before.dfa().len() implies #[trigger] self.dfa().accepting(s)
                == before.dfa().accepting(s) by {
                if s != from {
                    assert(self.dfa.states@[s as int] == before.dfa.states@[s as int]);
                }
            }
        }
    }

    /// The builder with one edge more.
    pub fn with_edge(self, from: u64, to: u64, guard: (char, char), output: T) -> (b: Self)
        requires
            self.wf(),
            self.ids().contains_key(from),
            self.ids().contains_key(to),
            !overlaps(self.dfa().edges(self.ids()[from] as nat), guard.0, guard.1),
        ensures
            b.wf(),
            b.ids() == self.ids(),
            b.dfa().len() == self.dfa().len(),
            b.dfa().start() == self.dfa().start(),
            ({
                let s = self.ids()[from] as nat;
                let edges = self.dfa().edges(s);
                b.dfa().edges(s) == edges.insert(
                    edge_slot(edges, guard.0, edges.len()) as int,
                    (guard.0, guard.1, self.ids()[to], output),
                )
            }),
    {
        let mut b = self;
        b.add_edge(from, to, guard, output);
        b
    }

    /// Makes the state named `state` the start state.
    pub fn set_start(&mut self, state: u64)
        requires
            old(self).wf(),
            old(self).ids().contains_key(state),
        ensures
            final(self).wf(),
            final(self).ids() == old(self).ids(),
            final(self).dfa().len() == old(self).dfa().len(),
            final(self).dfa().start() == old(self).ids()[state],
            forall|s: nat|
                s < old(self).dfa().len() ==> #[trigger] final(self).dfa().edges(s) == old(self).dfa().edges(s) && final(self).dfa().accepting(s) == old(self).dfa().accepting(s),
    {
        self.dfa.start = self.get_id(state);
    }

    /// The builder with the state named `state` for its start state.
    pub fn with_start(self, state: u64) -> (b: Self)
        requires
            self.wf(),
            self.ids().contains_key(state),
        ensures
            b.wf(),
            b.ids() == self.ids(),
            b.dfa().len() == self.dfa().len(),
            b.dfa().start() == self.ids()[state],
    {
        let mut b = self;
        b.set_start(state);
        b
    }

    /// Says whether the state named `state` accepts.
    pub fn set_accept(&mut self, state: u64, accept: bool)
        requires
            old(self).wf(),
            old(self).ids().contains_key(state),
        ensures
            final(self).wf(),
            final(self).ids() == old(self).ids(),
            final(self).dfa().len() == old(self).dfa().len(),
            final(self).dfa().start() == old(self).dfa().start(),
            final(self).dfa().accepting(old(self).ids()[state] as nat) == accept,
            forall|s: nat|
                s < old(self).dfa().len() ==> #[trigger] final(self).dfa().edges(s) == old(self).dfa().edges(s),
            forall|s: nat|
                s < old(self).dfa().len() && s != old(self).ids()[state] ==> #[trigger] final(self).dfa().accepting(s) == old(self).dfa().accepting(s),
    {
        let id = self.get_id(state);
        let ghost before = *self;
        self.dfa.states[id].accept = accept;
        proof {
            assert forall|s: int, j: int|
                0 <= s < self.dfa.states@.len() && 0 <= j < self.dfa.states@[s].edges@.len() implies (
            #[trigger] self.dfa.states@[s].edges@[j]).2 < self.dfa.states@.len() by {
                assert(self.dfa.states@[s].edges == before.dfa.states@[s].edges);
            }
            assert forall|s: nat| s < before.dfa().len() implies #[trigger] self.dfa().edges(s)
                == before.dfa().edges(s) by {
                assert(self.dfa.states@[s as int].edges == before.dfa.states@[s as int].edges);
            }
            assert forall|s: nat| s < before.dfa().len() && s != id implies #[trigger] self.dfa().accepting(
                s,
            ) == before.dfa().accepting(s) by {
                assert(self.dfa.states@[s as int] == before.dfa.states@[s as int]);
            }
        }
    }

    /// The builder with the state named `state` accepting or not.
    pub fn with_accept(self, state: u64, accept: bool) -> (b: Self)
        requires
            self.wf(),
            self.ids().contains_key(state),
        ensures
            b.wf(),
            b.ids() == self.ids(),
            b.dfa().len() == self.dfa().len(),
            b.dfa().start() == self.dfa().start(),
            b.dfa().accepting(self.ids()[state] as nat) == accept,
    {
        let mut b = self;
        b.set_accept(state, accept);
        b
    }

    /// The automaton. There must be a state.
    pub fn build(self) -> (dfa: Dfa<T>)
        requires
            self.wf(),
            self.dfa().len() > 0,
        ensures
            dfa == self.dfa(),
            dfa.wf(),
    {
        self.dfa
    }
}

/// Where none of the first `i` edges starts later than `lo`, and the edge
/// of index `i` does or there is none, `i` is the slot.
proof fn lemma_edge_slot<T>(edges: Seq<DfaEdge<T>>, lo: char, i: nat, n: nat)
    requires
        i <= n <= edges.len(),
        edge_slot(edges, lo, i) == i,
        i == edges.len() || edges[i as int].0 as int > lo as int,
    ensures
        edge_slot(edges, lo, n) == i,
    decreases n,
{
    if n > i {
        lemma_edge_slot(edges, lo, i, (n - 1) as nat);
    }
}

/// A run of a DFA: the automaton and the state that the run is in, if it
/// has not failed.
pub struct DfaRunner<'a, T> {
    dfa: &'a Dfa<T>,
    state: Option<usize>,
}

impl<'a, T: Clone> DfaRunner<'a, T> {
    /// The automaton of the run.
    pub closed spec fn dfa(&self) -> Dfa<T> {
        *self.dfa
    }

    /// The state of the run; none after a failure.
    pub closed spec fn state(&self) -> Option<nat> {
        match self.state {
            Some(s) => Some(s as nat),
            None => None,
        }
    }

    /// Well-formedness: the automaton is well-formed and the state is one
    /// of its states.
    pub closed spec fn wf(&self) -> bool {
        &&& self.dfa.wf()
        &&& self.state matches Some(s) ==> s < self.dfa.states@.len()
    }

    /// A run of `dfa` in its start state.
    pub fn new(dfa: &'a Dfa<T>) -> (r: Self)
        requires
            dfa.wf(),
        ensures
            r.wf(),
            r.dfa() == *dfa,
            r.state() == Some(dfa.start()),
    {
        DfaRunner { dfa, state: Some(dfa.start) }
    }

    /// Goes back to the start state.
    pub fn reset(&mut self)
        requires
            old(self).wf(),
        ensures
            final(self).wf(),
            final(self).dfa() == old(self).dfa(),
            final(self).state() == Some(old(self).dfa().start()),
    {
        self.state = Some(self.dfa.start);
    }

    /// Follows the first edge of the state whose guard holds `c`, and
    /// returns its output; fails where there is none, and after a failure.
    pub fn next(&mut self, c: char) -> (r: Result<T, ()>)
        requires
            old(self).wf(),
        ensures
            final(self).wf(),
            final(self).dfa() == old(self).dfa(),
            match old(self).state() {
                None => r is Err && final(self).state() is None,
                Some(s) => {
                    let edges = old(self).dfa().edges(s);
                    match first_edge(edges, c, edges.len()) {
                        Some(i) => {
                            &&& i < edges.len()
                            &&& guards(edges[i as int], c)
                            &&& final(self).state() == Some(edges[i as int].2 as nat)
                            &&& r matches Ok(out) && cloned(edges[i as int].3, out)
                        },
                        None => r is Err && final(self).state() is None,
                    }
                },
            },
    {
        let state = match self.state {
            Some(s) => s,
            None => {
                return Err(());
            },
        };
        let dfa = self.dfa;
        let n = dfa.states[state].edges.len();
        let ghost edges = dfa.states@[state as int].edges@;
        let mut i: usize = 0;
        while i < n
            invariant
                i <= n,
                *self == *old(self),
                self.state == Some(state),
                self.wf(),
                dfa == self.dfa,
                state < dfa.states@.len(),
                edges == dfa.states@[state as int].edges@,
                n == edges.len(),
                first_edge(edges, c, i as nat) is None,
            decreases n - i,
        {
            let lo = dfa.states[state].edges[i].0;
            let hi = dfa.states[state].edges[i].1;
            if lo <= c && c <= hi {
                let to = dfa.states[state].edges[i].2;
                let out = dfa.states[state].edges[i].3.clone();
                proof {
                    lemma_first_edge(edges, c, i as nat, n as nat);
                    assert(dfa.states@[state as int].edges@[i as int].2 < dfa.states@.len());
                }
                self.state = Some(to);
                return Ok(out);
            }
            i += 1;
        }
        self.state = None;
        Err(())
    }

    /// Whether the run is in an accepting state.
    pub fn is_accept(&self) -> (b: bool)
        requires
            self.wf(),
        ensures
            b == (self.state() matches Some(s) && self.dfa().accepting(s)),
    {
        match self.state {
            Some(state) => self.dfa.states[state].accept,
            None => false,
        }
    }

    /// Whether the run has failed.
    pub fn is_error(&self) -> (b: bool)
        ensures
            b == (self.state() is None),
    {
        self.state.is_none()
    }
}

/// An edge whose guard holds `c`, with no such edge before it, is the
/// first such edge.
proof fn lemma_first_edge<T>(edges: Seq<DfaEdge<T>>, c: char, i: nat, n: nat)
    requires
        i < n <= edges.len(),
        first_edge(edges, c, i) is None,
        guards(edges[i as int], c),
    ensures
        first_edge(edges, c, n) == Some(i),
    decreases n,
{
    if n > i + 1 {
        lemma_first_edge(edges, c, i, (n - 1) as nat);
    }
}

} // verus!
