use crate::lex::nfa::collect;
use crate::lex::nfa::lemma_marked;
use crate::lex::nfa::marked;
use crate::lex::nfa::reads;
use crate::lex::nfa::tags;
use crate::lex::nfa::Graph;
use crate::lex::thompson::law_thompson;
use crate::lexer::scan::Automaton;
use crate::lex::nfa::NfaEdge;
use crate::utils::reach::below;
use crate::lexer::language::Re;
use crate::lexer::regex::Regex;
use crate::lexer::regex::RegexNode;
use std::cmp::Ordering;
use vstd::prelude::*;

verus! {

/// An NFA whose arcs carry an output: the graph, whose arcs are tagged with
/// the index of their output, the outputs, and the order of the outputs.
pub struct Nfa<T, F> {
    graph: crate::lex::nfa::Nfa,
    outputs: Vec<T>,
    order: F,
}

/// A builder of an NFA.
pub struct NfaBuilder<T, F> {
    nfa: Nfa<T, F>,
}

/// A run of an NFA: the automaton, and the nodes that are active, in
/// growing order.
pub struct NfaRunner<'a, T, F> {
    nfa: &'a Nfa<T, F>,
    states: Vec<usize>,
    fed: Ghost<Seq<char>>,
}

/// Two nodes, the first a start node and the second an accepting node.
pub open spec fn two_nodes() -> Graph {
    Graph { start: seq![0usize], accept: seq![1usize], ..Graph::empty().add_node().add_node() }
}

/// The graph with nodes without arcs added until `state` is a node.
pub open spec fn ensured(g: Graph, state: usize) -> Graph {
    Graph {
        nodes: Seq::new(
            if state < g.nodes.len() {
                g.nodes.len()
            } else {
                (state + 1) as nat
            },
            |a: int|
                if a < g.nodes.len() {
                    g.nodes[a]
                } else {
                    crate::lex::nfa::NodeSpec::empty()
                },
        ),
        ..g
    }
}

/// The larger of two indices.
pub open spec fn larger(a: usize, b: usize) -> usize {
    if a >= b {
        a
    } else {
        b
    }
}

/// The number of arcs that read a code point in the automaton of a term.
pub open spec fn edge_count(r: Re) -> nat
    decreases r,
{
    match r {
        Re::Range(lo, hi) => if lo as int <= hi as int {
            1
        } else {
            0
        },
        Re::Concat(a, b) => edge_count(*a) + edge_count(*b),
        Re::Union(a, b) => edge_count(*a) + edge_count(*b),
        Re::Star(a) => edge_count(*a),
        _ => 0,
    }
}

/// The number of nodes of the automaton of a term.
pub open spec fn node_count(r: Re) -> nat
    decreases r,
{
    match r {
        Re::Concat(a, b) => node_count(*a) + node_count(*b) + 6,
        Re::Union(a, b) => node_count(*a) + node_count(*b) + 6,
        Re::Star(a) => node_count(*a) + 4,
        _ => 2,
    }
}

/// Two nodes and the automata `ga` and `gb`, joined by arcs that read
/// nothing so that a string of `ga` is followed by a string of `gb`. The
/// tags of `gb` come after the `count` tags of `ga`.
pub open spec fn joined_concat(ga: Graph, gb: Graph, count: nat) -> Graph {
    let sa = (2 + ga.nodes.len()) as usize;
    let aa = (sa + 1) as usize;
    let sb = (aa + 1 + gb.nodes.len()) as usize;
    let ab = (sb + 1) as usize;
    two_nodes().merge_tagged(ga, 0).merge_tagged(gb, count).push_epsilon(0, sa).push_epsilon(
        aa as int,
        sb,
    ).push_epsilon(ab as int, 1)
}

/// Two nodes and the automata `ga` and `gb`, joined by arcs that read
/// nothing so that a string of `ga` or of `gb` is read. The tags of `gb`
/// come after the `count` tags of `ga`.
pub open spec fn joined_union(ga: Graph, gb: Graph, count: nat) -> Graph {
    let sa = (2 + ga.nodes.len()) as usize;
    let aa = (sa + 1) as usize;
    let sb = (aa + 1 + gb.nodes.len()) as usize;
    let ab = (sb + 1) as usize;
    two_nodes().merge_tagged(ga, 0).merge_tagged(gb, count).push_epsilon(0, sa).push_epsilon(
        0,
        sb,
    ).push_epsilon(aa as int, 1).push_epsilon(ab as int, 1)
}

/// Two nodes and the automaton `ga`, joined by arcs that read nothing so
/// that any number of strings of `ga` is read.
pub open spec fn joined_star(ga: Graph) -> Graph {
    let sa = (2 + ga.nodes.len()) as usize;
    let aa = (sa + 1) as usize;
    two_nodes().merge_tagged(ga, 0).push_epsilon(0, sa).push_epsilon(0, 1).push_epsilon(
        aa as int,
        sa,
    ).push_epsilon(aa as int, 1)
}

/// The automaton of a term by the construction of Thompson, before it is
/// made ready for simulation: two nodes for a leaf, joined by an arc for a
/// range and for the empty string; for a composite, two nodes and the
/// automata of the terms inside, joined by arcs that read nothing. The
/// arcs that read a code point are tagged in the order of the term.
pub open spec fn thompson(r: Re) -> Graph
    decreases r,
{
    match r {
        Re::Epsilon => two_nodes().push_epsilon(0, 1),
        Re::Range(lo, hi) => if lo as int <= hi as int {
            two_nodes().add_tagged_edge(0, lo, hi, 1, 0)
        } else {
            two_nodes()
        },
        Re::Concat(a, b) => joined_concat(thompson(*a), thompson(*b), edge_count(*a)),
        Re::Union(a, b) => joined_union(thompson(*a), thompson(*b), edge_count(*a)),
        Re::Star(a) => joined_star(thompson(*a)),
        _ => two_nodes(),
    }
}

impl<T, F> View for Nfa<T, F> {
    type V = Graph;

    /// The graph of the automaton.
    closed spec fn view(&self) -> Graph {
        self.graph@
    }
}

impl<T, F> Nfa<T, F> {
    /// The outputs, each at the index that is its tag.
    pub closed spec fn outputs(&self) -> Seq<T> {
        self.outputs@
    }

    /// The order of the outputs.
    pub closed spec fn order(&self) -> F {
        self.order
    }

    /// Whether the graph has been optimized since it last changed.
    pub closed spec fn is_optimized(&self) -> bool {
        self.graph.is_optimized()
    }

    /// Well-formedness: every arc leads to a node and is tagged with the
    /// index of an output.
    pub closed spec fn wf(&self) -> bool {
        &&& self.graph.wf()
        &&& self.graph@.tags_below(self.outputs@.len())
    }

    /// What `wf` says of the view.
    pub proof fn lemma_wf(&self)
        requires
            self.wf(),
        ensures
            self@.closed(),
            self@.tags_below(self.outputs().len()),
            self@.nodes.len() <= usize::MAX,
            self.outputs().len() <= usize::MAX,
    {
        self.graph.lemma_wf();
        assert(self.outputs.len() == self.outputs@.len());
    }

    /// The start nodes.
    pub fn starts(&self) -> (list: &Vec<usize>)
        ensures
            list@ == self@.start,
    {
        self.graph.starts()
    }

    /// The accepting nodes.
    pub fn accepts(&self) -> (list: &Vec<usize>)
        ensures
            list@ == self@.accept,
    {
        self.graph.accepts()
    }

    /// The number of nodes.
    pub fn node_count(&self) -> (n: usize)
        ensures
            n == self@.nodes.len(),
    {
        self.graph.node_count()
    }

    /// The arcs of the node `a` that read a code point, each with its
    /// bounds, its target and the tag of its output.
    pub fn edges(&self, a: usize) -> (list: &Vec<NfaEdge>)
        requires
            a < self@.nodes.len(),
        ensures
            list@ == self@.nodes[a as int].edges,
    {
        self.graph.edges_of(a)
    }

    /// The output of the tag `tag`.
    pub fn output(&self, tag: usize) -> (out: &T)
        requires
            tag < self.outputs().len(),
        ensures
            *out == self.outputs()[tag as int],
    {
        &self.outputs[tag]
    }
}

/// Tags below a bound are below every larger bound.
proof fn lemma_tags_grow(g: Graph, n: nat, m: nat)
    requires
        g.tags_below(n),
        n <= m,
    ensures
        g.tags_below(m),
{
    assert forall|a: int| 0 <= a < g.nodes.len() implies below(
        tags((#[trigger] g.nodes[a]).edges),
        m,
    ) by {
        assert(below(tags(g.nodes[a].edges), n));
    }
}

/// Adding a node keeps the tags below a bound.
proof fn lemma_tags_add_node(g: Graph, n: nat)
    requires
        g.tags_below(n),
    ensures
        g.add_node().tags_below(n),
{
    assert forall|a: int| 0 <= a < g.add_node().nodes.len() implies below(
        tags((#[trigger] g.add_node().nodes[a]).edges),
        n,
    ) by {
        if a < g.nodes.len() {
            assert(below(tags(g.nodes[a].edges), n));
        }
    }
}

/// What adding an arc that reads nothing or a tagged arc does to the bound
/// of the tags.
proof fn lemma_tags_kept(g: Graph, n: nat, from: int, lo: char, hi: char, to: usize, tag: usize)
    requires
        g.tags_below(n),
        0 <= from < g.nodes.len(),
    ensures
        g.push_epsilon(from, to).tags_below(n),
        tag < n ==> g.add_tagged_edge(from, lo, hi, to, tag).tags_below(n),
{
    lemma_tags_add_node(g, n);
    let e = g.push_epsilon(from, to);
    assert forall|a: int| 0 <= a < e.nodes.len() implies below(tags((#[trigger] e.nodes[a]).edges), n) by {
        assert(below(tags(g.nodes[a].edges), n));
    }
    if tag < n {
        let t = g.add_tagged_edge(from, lo, hi, to, tag);
        assert forall|a: int| 0 <= a < t.nodes.len() implies below(
            tags((#[trigger] t.nodes[a]).edges),
            n,
        ) by {
            if a < g.nodes.len() {
                assert(below(tags(g.nodes[a].edges), n));
                let old_tags = tags(g.nodes[a].edges);
                let new_tags = tags(t.nodes[a].edges);
                assert forall|i: int| 0 <= i < new_tags.len() implies (#[trigger] new_tags[i]) < n by {
                    if i < old_tags.len() {
                        assert(new_tags[i] == old_tags[i]);
                    }
                }
            }
        }
    }
}

impl<T: Clone, F> NfaBuilder<T, F> {
    /// The graph built so far.
    pub closed spec fn graph(&self) -> Graph {
        self.nfa@
    }

    /// The outputs of the arcs added so far.
    pub closed spec fn outputs(&self) -> Seq<T> {
        self.nfa.outputs()
    }

    /// The order of the outputs.
    pub closed spec fn order(&self) -> F {
        self.nfa.order()
    }

    /// Well-formedness: that of the automaton built so far.
    pub closed spec fn wf(&self) -> bool {
        self.nfa.wf()
    }

    /// Whether nothing was added to the builder.
    pub closed spec fn is_optimized(&self) -> bool {
        self.nfa.is_optimized()
    }

    /// A builder without nodes, whose outputs are ordered by `order`.
    pub fn new(order: F) -> (b: Self)
        ensures
            b.wf(),
            b.graph() == Graph::empty(),
            b.outputs() == Seq::<T>::empty(),
            b.order() == order,
    {
        NfaBuilder { nfa: Nfa { graph: crate::lex::nfa::Nfa::new(), outputs: Vec::new(), order } }
    }

    /// Adds a node without arcs, and returns its index.
    pub fn node(&mut self) -> (index: usize)
        requires
            old(self).wf(),
        ensures
            final(self).wf(),
            !final(self).is_optimized(),
            index == old(self).graph().nodes.len(),
            final(self).graph() == old(self).graph().add_node(),
            final(self).outputs() == old(self).outputs(),
            final(self).order() == old(self).order(),
    {
        proof {
            lemma_tags_add_node(self.nfa.graph@, self.nfa.outputs@.len());
        }
        self.nfa.graph.create_node()
    }

    /// Adds nodes without arcs until `state` is a node.
    fn ensure_node(&mut self, state: usize)
        requires
            old(self).wf(),
            state < usize::MAX,
        ensures
            final(self).wf(),
            old(self).graph().nodes.len() <= state || !old(self).is_optimized() ==> !final(self).is_optimized(),
            final(self).is_optimized() ==> final(self).graph() == old(self).graph(),
            final(self).graph() == ensured(old(self).graph(), state),
            final(self).outputs() == old(self).outputs(),
            final(self).order() == old(self).order(),
    {
        let ghost g = self.graph();
        proof {
            self.nfa.graph.lemma_wf();
        }
        while self.nfa.graph.node_count() <= state
            invariant
                self.wf(),
                state < usize::MAX,
                g.nodes.len() <= self.graph().nodes.len() <= larger(g.nodes.len() as usize, (state
                    + 1) as usize),
                g.nodes.len() <= usize::MAX,
                self.graph().start == g.start,
                self.graph().accept == g.accept,
                forall|a: int|
                    0 <= a < self.graph().nodes.len() ==> #[trigger] self.graph().nodes[a] == (if a
                        < g.nodes.len() {
                        g.nodes[a]
                    } else {
                        crate::lex::nfa::NodeSpec::empty()
                    }),
                self.outputs() == old(self).outputs(),
                self.order() == old(self).order(),
                self.graph().nodes.len() > g.nodes.len() || !old(self).is_optimized()
                    ==> !self.is_optimized(),
                self.is_optimized() ==> self.graph() == g,
            decreases state + 1 - self.graph().nodes.len(),
        {
            self.node();
        }
        proof {
            assert(self.graph().nodes =~= ensured(g, state).nodes);
        }
    }

    /// Adds an arc from `from` to `to` that reads a code point of
    /// `[lo, hi]` and gives `output`; nodes are added until both are nodes.
    /// Nothing happens where the bounds are out of order.
    pub fn edge(&mut self, from: usize, to: usize, lo: char, hi: char, output: T)
        requires
            old(self).wf(),
            from < usize::MAX,
            to < usize::MAX,
        ensures
            final(self).wf(),
            lo as int <= hi as int ==> !final(self).is_optimized(),
            lo as int > hi as int ==> final(self).is_optimized() == old(self).is_optimized(),
            final(self).order() == old(self).order(),
            lo as int > hi as int ==> final(self).graph() == old(self).graph() && final(self).outputs() == old(self).outputs(),
            lo as int <= hi as int ==> final(self).graph() == ensured(
                old(self).graph(),
                larger(from, to),
            ).add_tagged_edge(from as int, lo, hi, to, old(self).outputs().len() as usize)
                && final(self).outputs() == old(self).outputs().push(output),
    {
        if lo > hi {
            return ;
        }
        let last = if from >= to {
            from
        } else {
            to
        };
        self.ensure_node(last);
        let tag = self.nfa.outputs.len();
        self.nfa.outputs.push(output);
        proof {
            self.nfa.graph.lemma_wf();
            lemma_tags_grow(self.nfa.graph@, tag as nat, (tag + 1) as nat);
            lemma_tags_kept(self.nfa.graph@, (tag + 1) as nat, from as int, lo, hi, to, tag);
        }
        self.nfa.graph.add_tagged_edge(from, lo, hi, to, tag);
    }

    /// Adds an arc from `from` to `to` that reads nothing; nodes are added
    /// until both are nodes.
    pub fn epsilon(&mut self, from: usize, to: usize)
        requires
            old(self).wf(),
            from < usize::MAX,
            to < usize::MAX,
        ensures
            final(self).wf(),
            !final(self).is_optimized(),
            final(self).order() == old(self).order(),
            final(self).outputs() == old(self).outputs(),
            final(self).graph() == ensured(old(self).graph(), larger(from, to)).push_epsilon(
                from as int,
                to,
            ),
    {
        let last = if from >= to {
            from
        } else {
            to
        };
        self.ensure_node(last);
        proof {
            lemma_tags_kept(self.nfa.graph@, self.nfa.outputs@.len(), from as int, 'a', 'a', to, 0);
        }
        self.nfa.graph.add_epsilon(from, to);
    }

    /// Makes `state` a start node; nodes are added until it is a node.
    pub fn start(&mut self, state: usize)
        requires
            old(self).wf(),
            state < usize::MAX,
        ensures
            final(self).wf(),
            !final(self).is_optimized(),
            final(self).order() == old(self).order(),
            final(self).outputs() == old(self).outputs(),
            final(self).graph() == (Graph {
                start: old(self).graph().start.push(state),
                ..ensured(old(self).graph(), state)
            }),
    {
        self.ensure_node(state);
        self.nfa.graph.add_start(state);
    }

    /// Makes `state` an accepting node; nodes are added until it is a node.
    pub fn accept(&mut self, state: usize)
        requires
            old(self).wf(),
            state < usize::MAX,
        ensures
            final(self).wf(),
            !final(self).is_optimized(),
            final(self).order() == old(self).order(),
            final(self).outputs() == old(self).outputs(),
            final(self).graph() == (Graph {
                accept: old(self).graph().accept.push(state),
                ..ensured(old(self).graph(), state)
            }),
    {
        self.ensure_node(state);
        self.nfa.graph.add_accept(state);
    }

    /// The automaton, made ready for simulation.
    pub fn build(self) -> (nfa: Nfa<T, F>)
        requires
            self.wf(),
        ensures
            nfa.wf(),
            nfa.is_optimized(),
            nfa@ == (if self.is_optimized() {
                self.graph()
            } else {
                self.graph().optimized()
            }),
            nfa.outputs() == self.outputs(),
            nfa.order() == self.order(),
    {
        let mut nfa = self.nfa;
        proof {
            nfa.graph.lemma_wf();
            crate::lex::nfa::lemma_optimized_tags(nfa.graph@, nfa.outputs@.len());
        }
        nfa.graph.reset();
        nfa
    }
}


/// Merging keeps the tags below the sum of the bounds.
proof fn lemma_merge_tags(g: Graph, h: Graph, n: nat, m: nat)
    requires
        g.tags_below(n),
        h.tags_below(m),
        n + m <= usize::MAX,
    ensures
        g.merge_tagged(h, n).tags_below(n + m),
{
    let r = g.merge_tagged(h, n);
    let base = g.nodes.len();
    assert forall|a: int| 0 <= a < r.nodes.len() implies below(
        tags((#[trigger] r.nodes[a]).edges),
        n + m,
    ) by {
        if a < base {
            assert(below(tags(g.nodes[a].edges), n));
        } else if a < base + h.nodes.len() {
            let src = tags(h.nodes[a - base].edges);
            assert(below(src, m));
            let t = tags(r.nodes[a].edges);
            assert forall|i: int| 0 <= i < t.len() implies (#[trigger] t[i]) < n + m by {
                assert(src[i] < m);
            }
        }
    }
}

/// Adding nodes up to a node that is there adds nothing.
proof fn lemma_ensured(g: Graph, state: usize)
    requires
        state < g.nodes.len(),
    ensures
        ensured(g, state) == g,
{
    assert(ensured(g, state).nodes =~= g.nodes);
}

impl<T: Clone, F> NfaBuilder<T, F> {
    /// Copies the nodes and arcs of `other` into the automaton, under new
    /// indices and new tags, and returns two new nodes: one that reaches
    /// the start nodes of the copy, and one that its accepting nodes reach,
    /// by arcs that read nothing.
    pub fn merge(&mut self, other: &Self) -> (ends: (usize, usize))
        requires
            old(self).wf(),
            other.wf(),
            old(self).graph().nodes.len() + other.graph().nodes.len() + 2 <= usize::MAX,
            old(self).outputs().len() + other.outputs().len() <= usize::MAX,
        ensures
            final(self).wf(),
            !final(self).is_optimized(),
            final(self).order() == old(self).order(),
            final(self).graph() == old(self).graph().merge_tagged(
                other.graph(),
                old(self).outputs().len(),
            ),
            ends.0 == old(self).graph().nodes.len() + other.graph().nodes.len(),
            ends.1 == ends.0 + 1,
            final(self).outputs().len() == old(self).outputs().len() + other.outputs().len(),
            forall|i: int|
                0 <= i < old(self).outputs().len() ==> final(self).outputs()[i] == old(self).outputs()[i],
            forall|i: int|
                0 <= i < other.outputs().len() ==> cloned(
                    other.outputs()[i],
                    #[trigger] final(self).outputs()[old(self).outputs().len() + i],
                ),
    {
        let tag_base = self.nfa.outputs.len();
        let ends = self.nfa.graph.merge_tagged(
            &other.nfa.graph,
            tag_base,
            Ghost(other.nfa.outputs@.len()),
        );
        proof {
            lemma_merge_tags(
                old(self).nfa.graph@,
                other.nfa.graph@,
                tag_base as nat,
                other.nfa.outputs@.len(),
            );
        }
        let n = other.nfa.outputs.len();
        let mut i: usize = 0;
        while i < n
            invariant
                i <= n,
                n == other.nfa.outputs@.len(),
                tag_base == old(self).nfa.outputs@.len(),
                tag_base + n <= usize::MAX,
                !self.nfa.graph.is_optimized(),
                self.nfa.graph.wf(),
                self.nfa.graph@ == old(self).nfa.graph@.merge_tagged(
                    other.nfa.graph@,
                    tag_base as nat,
                ),
                self.nfa.graph@.tags_below((tag_base + n) as nat),
                self.nfa.order == old(self).nfa.order,
                self.nfa.outputs@.len() == tag_base + i,
                forall|k: int| 0 <= k < tag_base ==> self.nfa.outputs@[k] == old(self).nfa.outputs@[k],
                forall|k: int|
                    0 <= k < i ==> cloned(
                        other.nfa.outputs@[k],
                        #[trigger] self.nfa.outputs@[tag_base + k],
                    ),
            decreases n - i,
        {
            let ghost before = self.nfa.outputs@;
            let o = other.nfa.outputs[i].clone();
            self.nfa.outputs.push(o);
            proof {
                assert forall|k: int| 0 <= k < i + 1 implies cloned(
                    other.nfa.outputs@[k],
                    #[trigger] self.nfa.outputs@[tag_base + k],
                ) by {
                    if k < i {
                        assert(self.nfa.outputs@[tag_base + k] == before[tag_base + k]);
                    }
                }
            }
            i += 1;
        }
        ends
    }

    /// Moves the nodes, the arcs and the outputs of `other` into the
    /// automaton, as `merge` copies them.
    fn absorb(&mut self, other: Self) -> (ends: (usize, usize))
        requires
            old(self).wf(),
            other.wf(),
            old(self).graph().nodes.len() + other.graph().nodes.len() + 2 <= usize::MAX,
            old(self).outputs().len() + other.outputs().len() <= usize::MAX,
        ensures
            final(self).wf(),
            !final(self).is_optimized(),
            final(self).order() == old(self).order(),
            final(self).graph() == old(self).graph().merge_tagged(
                other.graph(),
                old(self).outputs().len(),
            ),
            ends.0 == old(self).graph().nodes.len() + other.graph().nodes.len(),
            ends.1 == ends.0 + 1,
            final(self).outputs() == old(self).outputs() + other.outputs(),
    {
        let tag_base = self.nfa.outputs.len();
        let ends = self.nfa.graph.merge_tagged(
            &other.nfa.graph,
            tag_base,
            Ghost(other.nfa.outputs@.len()),
        );
        proof {
            lemma_merge_tags(
                old(self).nfa.graph@,
                other.nfa.graph@,
                tag_base as nat,
                other.nfa.outputs@.len(),
            );
        }
        let mut outputs = other.nfa.outputs;
        self.nfa.outputs.append(&mut outputs);
        ends
    }
}

impl<T: Clone, F: Copy> NfaBuilder<T, F> {
    /// The automaton of `regex`, made ready for simulation, whose arcs all
    /// give a copy of `out`. It accepts exactly the strings of `regex`.
    pub fn from_regex(regex: &Regex, out: T, order: F) -> (nfa: Nfa<T, F>)
        requires
            node_count(regex@) <= usize::MAX,
        ensures
            nfa.wf(),
            nfa.is_optimized(),
            nfa@ == thompson(regex@).optimized(),
            nfa.outputs().len() == edge_count(regex@),
            forall|i: int| 0 <= i < nfa.outputs().len() ==> cloned(out, #[trigger] nfa.outputs()[i]),
            nfa.order() == order,
            forall|w: Seq<char>| #[trigger] nfa@.accepts(w) <==> regex@.matches(w),
    {
        let builder = Self::from_regex_inner(regex, &out, order);
        let nfa = builder.build();
        proof {
            regex.lemma_plain();
            assert forall|w: Seq<char>| #[trigger]
                thompson(regex@).optimized().accepts(w) <==> regex@.matches(w) by {
                law_thompson(regex@, w);
            }
        }
        nfa
    }

    /// A builder with two nodes, the first a start node and the second an
    /// accepting node.
    fn leaf(order: F) -> (b: Self)
        ensures
            b.wf(),
            !b.is_optimized(),
            b.graph() == two_nodes(),
            b.outputs() == Seq::<T>::empty(),
            b.order() == order,
    {
        let mut builder = NfaBuilder::new(order);
        let start = builder.node();
        let accept = builder.node();
        proof {
            lemma_ensured(builder.graph(), 0);
        }
        builder.start(start);
        proof {
            lemma_ensured(builder.graph(), 1);
        }
        builder.accept(accept);
        proof {
            assert(builder.graph().start =~= seq![0usize]);
            assert(builder.graph().accept =~= seq![1usize]);
        }
        builder
    }

    /// The automaton of a string of `a` followed by a string of `b`.
    fn concat_of(a: Self, b: Self, order: F) -> (r: Self)
        requires
            a.wf(),
            b.wf(),
            a.graph().nodes.len() + b.graph().nodes.len() + 6 <= usize::MAX,
            a.outputs().len() + b.outputs().len() <= usize::MAX,
        ensures
            r.wf(),
            !r.is_optimized(),
            r.graph() == joined_concat(a.graph(), b.graph(), a.outputs().len()),
            r.graph().nodes.len() == a.graph().nodes.len() + b.graph().nodes.len() + 6,
            r.outputs() == a.outputs() + b.outputs(),
            r.order() == order,
    {
        let mut builder = Self::leaf(order);
        let (start_a, accept_a) = builder.absorb(a);
        let (start_b, accept_b) = builder.absorb(b);
        proof {
            lemma_ensured(builder.graph(), larger(0, start_a));
        }
        builder.epsilon(0, start_a);
        proof {
            lemma_ensured(builder.graph(), larger(accept_a, start_b));
        }
        builder.epsilon(accept_a, start_b);
        proof {
            lemma_ensured(builder.graph(), larger(accept_b, 1));
        }
        builder.epsilon(accept_b, 1);
        proof {
            assert(builder.outputs() =~= a.outputs() + b.outputs());
        }
        builder
    }

    /// The automaton of a string of `a` or of `b`.
    fn union_of(a: Self, b: Self, order: F) -> (r: Self)
        requires
            a.wf(),
            b.wf(),
            a.graph().nodes.len() + b.graph().nodes.len() + 6 <= usize::MAX,
            a.outputs().len() + b.outputs().len() <= usize::MAX,
        ensures
            r.wf(),
            !r.is_optimized(),
            r.graph() == joined_union(a.graph(), b.graph(), a.outputs().len()),
            r.graph().nodes.len() == a.graph().nodes.len() + b.graph().nodes.len() + 6,
            r.outputs() == a.outputs() + b.outputs(),
            r.order() == order,
    {
        let mut builder = Self::leaf(order);
        let (start_a, accept_a) = builder.absorb(a);
        let (start_b, accept_b) = builder.absorb(b);
        proof {
            lemma_ensured(builder.graph(), larger(0, start_a));
        }
        builder.epsilon(0, start_a);
        proof {
            lemma_ensured(builder.graph(), larger(0, start_b));
        }
        builder.epsilon(0, start_b);
        proof {
            lemma_ensured(builder.graph(), larger(accept_a, 1));
        }
        builder.epsilon(accept_a, 1);
        proof {
            lemma_ensured(builder.graph(), larger(accept_b, 1));
        }
        builder.epsilon(accept_b, 1);
        proof {
            assert(builder.outputs() =~= a.outputs() + b.outputs());
        }
        builder
    }

    /// The automaton of any number of strings of `a`.
    fn star_of(a: Self, order: F) -> (r: Self)
        requires
            a.wf(),
            a.graph().nodes.len() + 4 <= usize::MAX,
        ensures
            r.wf(),
            !r.is_optimized(),
            r.graph() == joined_star(a.graph()),
            r.graph().nodes.len() == a.graph().nodes.len() + 4,
            r.outputs() == a.outputs(),
            r.order() == order,
    {
        let mut builder = Self::leaf(order);
        proof {
            a.nfa.lemma_wf();
        }
        let (start_a, accept_a) = builder.absorb(a);
        proof {
            lemma_ensured(builder.graph(), larger(0, start_a));
        }
        builder.epsilon(0, start_a);
        proof {
            lemma_ensured(builder.graph(), larger(0, 1));
        }
        builder.epsilon(0, 1);
        proof {
            lemma_ensured(builder.graph(), larger(accept_a, start_a));
        }
        builder.epsilon(accept_a, start_a);
        proof {
            lemma_ensured(builder.graph(), larger(accept_a, 1));
        }
        builder.epsilon(accept_a, 1);
        proof {
            assert(builder.outputs() =~= a.outputs());
        }
        builder
    }

    /// The automaton of `r` by the construction of Thompson, whose arcs all
    /// give a copy of `out`.
    fn from_regex_inner(r: &Regex, out: &T, order: F) -> (b: Self)
        requires
            node_count(r@) <= usize::MAX,
        ensures
            b.wf(),
            !b.is_optimized(),
            b.graph() == thompson(r@),
            b.graph().nodes.len() == node_count(r@),
            b.outputs().len() == edge_count(r@),
            edge_count(r@) <= node_count(r@),
            forall|i: int| 0 <= i < b.outputs().len() ==> cloned(*out, #[trigger] b.outputs()[i]),
            b.order() == order,
        decreases r,
    {
        proof {
            r.lemma_view();
        }
        match &*r.node {
            RegexNode::Empty => Self::leaf(order),
            RegexNode::Epsilon => {
                let mut builder = Self::leaf(order);
                proof {
                    lemma_ensured(builder.graph(), 1);
                }
                builder.epsilon(0, 1);
                builder
            },
            RegexNode::Range(lo, hi) => {
                let mut builder = Self::leaf(order);
                proof {
                    lemma_ensured(builder.graph(), 1);
                }
                builder.edge(0, 1, *lo, *hi, out.clone());
                builder
            },
            RegexNode::Concat(a, b) => {
                let nfa_a = Self::from_regex_inner(a, out, order);
                let nfa_b = Self::from_regex_inner(b, out, order);
                Self::concat_of(nfa_a, nfa_b, order)
            },
            RegexNode::Union(a, b) => {
                let nfa_a = Self::from_regex_inner(a, out, order);
                let nfa_b = Self::from_regex_inner(b, out, order);
                Self::union_of(nfa_a, nfa_b, order)
            },
            RegexNode::Star(a) => {
                let nfa_a = Self::from_regex_inner(a, out, order);
                Self::star_of(nfa_a, order)
            },
        }
    }
}


/// The arcs of the node `a` that read a code point.
pub open spec fn edges_at(g: Graph, a: usize) -> Seq<NfaEdge> {
    if a < g.nodes.len() {
        g.nodes[a as int].edges
    } else {
        Seq::empty()
    }
}

/// Whether the arc of index `i` of the node `a` reads `c`.
pub open spec fn fires(g: Graph, a: usize, i: int, c: char) -> bool {
    0 <= i < edges_at(g, a).len() && reads(edges_at(g, a)[i], c)
}

/// The output of the arc of index `i` of the node `a`.
pub open spec fn output_at<T>(g: Graph, outputs: Seq<T>, a: usize, i: int) -> T {
    outputs[edges_at(g, a)[i].3 as int]
}

/// Whether the arc of index `i` of the node `a` reads `c`.
pub open spec fn fires_at(g: Graph, a: usize, i: usize, c: char) -> bool {
    fires(g, a, i as int, c)
}

/// The output of the arc of index `i` of the node `a`.
pub open spec fn out_of<T>(g: Graph, outputs: Seq<T>, a: usize, i: usize) -> T {
    output_at(g, outputs, a, i as int)
}

/// The item of index `j` of `states`.
pub open spec fn state_at(states: Seq<usize>, j: usize) -> usize {
    states[j as int]
}

/// Whether no arc reads `c` among the arcs of the first `k` nodes of
/// `states` and the first `m` arcs of the node after them.
pub open spec fn none_before(g: Graph, states: Seq<usize>, k: usize, m: usize, c: char) -> bool {
    forall|j: usize, i: usize|
        j < states.len() && (j < k || (j == k && i < m)) ==> !#[trigger] fires_at(
            g,
            state_at(states, j),
            i,
            c,
        )
}

/// Whether no arc of a node of `states` reads `c`.
pub open spec fn nothing_fires(g: Graph, states: Seq<usize>, c: char) -> bool {
    forall|j: usize, i: usize|
        j < states.len() ==> !#[trigger] fires_at(g, state_at(states, j), i, c)
}

/// Whether `out` is a copy of the output of an arc of a node of `states`
/// that reads `c`.
pub open spec fn chosen<T: Clone>(
    g: Graph,
    outputs: Seq<T>,
    states: Seq<usize>,
    c: char,
    out: T,
) -> bool {
    exists|j: usize, i: usize|
        j < states.len() && #[trigger] fires_at(g, state_at(states, j), i, c) && cloned(
            out_of(g, outputs, state_at(states, j), i),
            out,
        )
}

/// What the arc of index `i` of the node of index `k` of `states` is, for
/// a well-formed automaton: it is tagged with the index of an output.
proof fn lemma_arc<T, F>(nfa: &Nfa<T, F>, states: Seq<usize>, k: usize, i: usize)
    requires
        nfa.wf(),
        k < states.len(),
        below(states, nfa@.nodes.len()),
        i < nfa@.nodes[states[k as int] as int].edges.len(),
    ensures
        state_at(states, k) < nfa@.nodes.len(),
        nfa@.nodes[states[k as int] as int].edges[i as int].3 < nfa.outputs().len(),
        edges_at(nfa@, state_at(states, k)) == nfa@.nodes[states[k as int] as int].edges,
        fires_at(nfa@, state_at(states, k), i, '\0') == reads(
            nfa@.nodes[states[k as int] as int].edges[i as int],
            '\0',
        ),
        forall|c: char|
            fires_at(nfa@, state_at(states, k), i, c) == reads(
                nfa@.nodes[states[k as int] as int].edges[i as int],
                c,
            ),
        forall|outputs: Seq<T>|
            out_of(nfa@, outputs, state_at(states, k), i)
                == outputs[nfa@.nodes[states[k as int] as int].edges[i as int].3 as int],
{
    lemma_tag(nfa, states[k as int], i as int);
}

/// Where no arc fires before the end of the arcs of a node, none fires
/// before the first arc of the next.
proof fn lemma_none_before(g: Graph, states: Seq<usize>, k: usize, m: usize, c: char)
    requires
        k < states.len(),
        m == edges_at(g, state_at(states, k)).len(),
        k + 1 <= usize::MAX,
    ensures
        none_before(g, states, k, m, c) ==> none_before(g, states, (k + 1) as usize, 0, c),
{
    if none_before(g, states, k, m, c) {
        assert forall|j: usize, i: usize|
            j < states.len() && (j < (k + 1) as usize || (j == (k + 1) as usize && i < 0)) implies !#[trigger] fires_at(
            g,
            state_at(states, j),
            i,
            c,
        ) by {
            if j == k && i >= m {
            }
        }
    }
}

/// Where no arc fires before the end of `states`, none fires at all.
proof fn lemma_nothing_fires(g: Graph, states: Seq<usize>, k: usize, c: char)
    requires
        k == states.len(),
        none_before(g, states, k, 0, c),
    ensures
        nothing_fires(g, states, c),
{
}

/// The tag of an arc of a well-formed automaton is the index of an output.
proof fn lemma_tag<T, F>(nfa: &Nfa<T, F>, a: usize, i: int)
    requires
        nfa.wf(),
        a < nfa@.nodes.len(),
        0 <= i < nfa@.nodes[a as int].edges.len(),
    ensures
        nfa@.nodes[a as int].edges[i].3 < nfa.outputs().len(),
        edges_at(nfa@, a) == nfa@.nodes[a as int].edges,
{
    nfa.lemma_wf();
    assert(below(tags(nfa@.nodes[a as int].edges), nfa.outputs().len()));
    assert(tags(nfa@.nodes[a as int].edges)[i] == nfa@.nodes[a as int].edges[i].3);
}

impl<'a, T: Clone, F> NfaRunner<'a, T, F> {
    /// The automaton of the run.
    pub closed spec fn nfa(&self) -> Nfa<T, F> {
        *self.nfa
    }

    /// The nodes that are active, in growing order.
    pub closed spec fn states(&self) -> Seq<usize> {
        self.states@
    }

    /// The code points fed since the run started, or started over.
    pub closed spec fn fed(&self) -> Seq<char> {
        self.fed@
    }

    /// Well-formedness: the automaton is well-formed and ready for
    /// simulation, and the active nodes are nodes.
    pub closed spec fn wf(&self) -> bool {
        &&& self.nfa.wf()
        &&& self.nfa.is_optimized()
        &&& below(self.states@, self.nfa@.nodes.len())
        &&& self.states@.to_set() == self.nfa@.frontier_after(self.fed@)
    }

    /// What `wf` says of the active nodes: they are the nodes that the
    /// code points fed lead to from the start nodes.
    pub proof fn lemma_states(&self)
        requires
            self.wf(),
        ensures
            self.states().to_set() == self.nfa()@.frontier_after(self.fed()),
    {
    }

    /// A run of `nfa` whose start nodes are active.
    pub fn new(nfa: &'a Nfa<T, F>) -> (r: Self)
        requires
            nfa.wf(),
            nfa.is_optimized(),
        ensures
            r.wf(),
            r.nfa() == *nfa,
            r.states() == nfa@.start,
            r.fed() == Seq::<char>::empty(),
    {
        proof {
            nfa.lemma_wf();
        }
        let mut states: Vec<usize> = Vec::new();
        copy_into(&mut states, nfa.starts());
        NfaRunner { nfa, states, fed: Ghost(Seq::empty()) }
    }

    /// Starts over: the start nodes are active.
    pub fn reset(&mut self)
        requires
            old(self).wf(),
        ensures
            final(self).wf(),
            final(self).nfa() == old(self).nfa(),
            final(self).states() == old(self).nfa()@.start,
            final(self).fed() == Seq::<char>::empty(),
    {
        proof {
            self.nfa.lemma_wf();
        }
        let mut states: Vec<usize> = Vec::new();
        copy_into(&mut states, self.nfa.starts());
        self.states = states;
        self.fed = Ghost(Seq::empty());
    }

    /// The nodes that reading `c` leads to from the active nodes, each
    /// once, in growing order.
    fn successors(&self, c: char) -> (next: Vec<usize>)
        requires
            self.wf(),
        ensures
            below(next@, self.nfa()@.nodes.len()),
            next@.to_set() == self.nfa()@.advance(self.states().to_set(), c),
            sorted(next@),
    {
        let ghost g = self.nfa@;
        proof {
            self.nfa.lemma_wf();
        }
        let mut reached: Vec<usize> = Vec::new();
        let n = self.states.len();
        let mut k: usize = 0;
        while k < n
            invariant
                k <= n,
                n == self.states@.len(),
                self.wf(),
                g == self.nfa@,
                below(reached@, g.nodes.len()),
                forall|b: usize|
                    reached@.contains(b) <==> exists|j: int|
                        0 <= j < k && g.via(#[trigger] self.states@[j], c, b),
            decreases n - k,
        {
            let from = self.states[k];
            let ghost before = reached@;
            self.nfa.graph.follow(from, c, &mut reached);
            proof {
                assert forall|b: usize|
                    reached@.contains(b) <==> exists|j: int|
                        0 <= j < k + 1 && g.via(#[trigger] self.states@[j], c, b) by {
                    if before.contains(b) {
                        let j = choose|j: int| 0 <= j < k && g.via(#[trigger] self.states@[j], c, b);
                        assert(0 <= j < k + 1 && g.via(self.states@[j], c, b));
                    }
                    if g.via(from, c, b) {
                        assert(g.via(self.states@[k as int], c, b));
                    }
                    if exists|j: int| 0 <= j < k + 1 && g.via(#[trigger] self.states@[j], c, b) {
                        let j = choose|j: int|
                            0 <= j < k + 1 && g.via(#[trigger] self.states@[j], c, b);
                        if j < k {
                            assert(before.contains(b));
                        }
                    }
                }
            }
            k += 1;
        }
        let count = self.nfa.node_count();
        let mut marks: Vec<bool> = Vec::new();
        let mut m: usize = 0;
        while m < count
            invariant
                m <= count,
                marks@.len() == m,
                forall|b: int| 0 <= b < m ==> !(#[trigger] marks@[b]),
            decreases count - m,
        {
            marks.push(false);
            m += 1;
        }
        let mut r: usize = 0;
        while r < reached.len()
            invariant
                r <= reached@.len(),
                marks@.len() == count,
                count == g.nodes.len(),
                below(reached@, g.nodes.len()),
                forall|b: int|
                    0 <= b < count ==> (#[trigger] marks@[b] <==> reached@.take(r as int).contains(
                        b as usize,
                    )),
            decreases reached@.len() - r,
        {
            let x = reached[r];
            let ghost before = marks@;
            marks.set(x, true);
            proof {
                let s0 = reached@.take(r as int);
                let s1 = reached@.take(r + 1);
                assert forall|b: int| 0 <= b < count implies (#[trigger] marks@[b] <==> s1.contains(
                    b as usize,
                )) by {
                    if s0.contains(b as usize) {
                        let j = choose|j: int| 0 <= j < s0.len() && s0[j] == b as usize;
                        assert(s1[j] == b as usize);
                    }
                    if b == x {
                        assert(s1[r as int] == x);
                    }
                    if s1.contains(b as usize) {
                        let j = choose|j: int| 0 <= j < s1.len() && s1[j] == b as usize;
                        if j < r {
                            assert(s0[j] == b as usize);
                        }
                    }
                }
            }
            r += 1;
        }
        let next = collect(&marks);
        proof {
            assert(reached@.take(reached@.len() as int) =~= reached@);
            lemma_marked(marks@);
            lemma_marked_sorted(marks@);
            assert forall|b: usize|
                next@.to_set().contains(b) <==> g.advance(self.states@.to_set(), c).contains(b) by {
                if next@.contains(b) {
                    assert(b < marks@.len() && marks@[b as int]);
                    assert(reached@.take(reached@.len() as int).contains(b));
                    assert(reached@.contains(b));
                    let j = choose|j: int| 0 <= j < n && g.via(#[trigger] self.states@[j], c, b);
                    assert(self.states@.to_set().contains(self.states@[j]));
                }
                if g.advance(self.states@.to_set(), c).contains(b) {
                    let a = choose|a: usize|
                        self.states@.to_set().contains(a) && #[trigger] g.via(a, c, b);
                    let j = choose|j: int| 0 <= j < self.states@.len() && self.states@[j] == a;
                    assert(g.via(self.states@[j], c, b));
                    assert(reached@.contains(b));
                    assert(b < count);
                    assert(marks@[b as int]);
                }
            }
            assert(next@.to_set() =~= g.advance(self.states@.to_set(), c));
        }
        next
    }

    /// Whether an accepting node is active: whether the automaton accepts
    /// the code points fed.
    pub fn is_accept(&self) -> (b: bool)
        requires
            self.wf(),
        ensures
            b == exists|x: usize| self.states().contains(x) && self.nfa()@.accept.contains(x),
            b == self.nfa()@.accepts(self.fed()),
    {
        let accept = self.nfa.accepts();
        let mut i: usize = 0;
        while i < self.states.len()
            invariant
                i <= self.states@.len(),
                self.wf(),
                accept@ == self.nfa@.accept,
                forall|k: int, j: int|
                    0 <= k < i && 0 <= j < accept@.len() ==> self.states@[k] != accept@[j],
            decreases self.states@.len() - i,
        {
            let x = self.states[i];
            let mut j: usize = 0;
            while j < accept.len()
                invariant
                    j <= accept@.len(),
                    i < self.states@.len(),
                    self.wf(),
                    accept@ == self.nfa@.accept,
                    x == self.states@[i as int],
                    forall|k: int| 0 <= k < j ==> accept@[k] != x,
                decreases accept@.len() - j,
            {
                if accept[j] == x {
                    proof {
                        assert(self.states@[i as int] == x);
                        assert(accept@[j as int] == x);
                        assert(self.states().contains(x) && self.nfa()@.accept.contains(x));
                        assert(self.states@.to_set().contains(x));
                    }
                    return true;
                }
                j += 1;
            }
            i += 1;
        }
        proof {
            assert forall|x: usize| !(self.states@.contains(x) && accept@.contains(x)) by {
                if self.states@.contains(x) && accept@.contains(x) {
                    let k = choose|k: int| 0 <= k < self.states@.len() && self.states@[k] == x;
                    let j = choose|j: int| 0 <= j < accept@.len() && accept@[j] == x;
                    assert(self.states@[k] != accept@[j]);
                }
            }
            assert forall|x: usize|
                self.nfa@.frontier_after(self.fed@).contains(x) implies self.states@.contains(x) by {
                assert(self.states@.to_set().contains(x));
            }
        }
        false
    }

    /// Whether no node is active: whether the automaton is dead after the
    /// code points fed.
    pub fn is_dead(&self) -> (b: bool)
        requires
            self.wf(),
        ensures
            b == (self.states().len() == 0),
            b == self.nfa()@.dead(self.fed()),
    {
        proof {
            if self.states@.len() > 0 {
                assert(self.states@.to_set().contains(self.states@[0]));
            } else {
                assert(self.states@.to_set() =~= Set::<usize>::empty());
            }
        }
        self.states.len() == 0
    }
}

/// Whether the items of `list` grow strictly.
pub open spec fn sorted(list: Seq<usize>) -> bool {
    forall|i: int, j: int| 0 <= i < j < list.len() ==> list[i] < list[j]
}

/// The indices that `marked` gives grow strictly.
proof fn lemma_marked_sorted(marks: Seq<bool>)
    requires
        marks.len() <= usize::MAX,
    ensures
        sorted(marked(marks)),
    decreases marks.len(),
{
    if marks.len() > 0 {
        lemma_marked_sorted(marks.drop_last());
        lemma_marked(marks.drop_last());
        let m = marked(marks);
        let r = marked(marks.drop_last());
        assert forall|i: int, j: int| 0 <= i < j < m.len() implies m[i] < m[j] by {
            if j < r.len() {
                assert(m[i] == r[i] && m[j] == r[j]);
            } else {
                assert(m[i] == r[i]);
                assert(r[i] < marks.drop_last().len());
            }
        }
    }
}

/// Adds the items of `src` at the end of `dst`.
fn copy_into(dst: &mut Vec<usize>, src: &Vec<usize>)
    ensures
        final(dst)@ == old(dst)@ + src@,
{
    let mut i: usize = 0;
    while i < src.len()
        invariant
            i <= src@.len(),
            dst@ == old(dst)@ + src@.take(i as int),
        decreases src@.len() - i,
    {
        dst.push(src[i]);
        proof {
            assert(src@.take(i + 1) =~= src@.take(i as int).push(src@[i as int]));
        }
        i += 1;
    }
    proof {
        assert(src@.take(src@.len() as int) =~= src@);
    }
}


impl<'a, T: Clone, F> NfaRunner<'a, T, F> {
    /// The output of reading `c`: of the outputs of the arcs of the
    /// active nodes that read `c`, taken in the order of the nodes and of
    /// their arcs, the first, or a later one that the order found greater
    /// than the one chosen before it.
    fn pick_output(&self, c: char) -> (out: Option<T>) where F: Fn(&T, &T) -> Ordering
        requires
            self.wf(),
            forall|x: &T, y: &T| self.nfa().order().requires((x, y)),
        ensures
            match out {
                Some(o) => chosen(self.nfa()@, self.nfa().outputs(), self.states(), c, o),
                None => nothing_fires(self.nfa()@, self.states(), c),
            },
    {
        let ghost g = self.nfa@;
        let ghost outputs = self.nfa.outputs();
        let ghost states = self.states@;
        let mut output: Option<T> = None;
        let n = self.states.len();
        let mut k: usize = 0;
        while k < n
            invariant
                k <= n,
                n == self.states@.len(),
                self.wf(),
                g == self.nfa@,
                outputs == self.nfa.outputs(),
                states == self.states@,
                forall|x: &T, y: &T| self.nfa().order().requires((x, y)),
                match output {
                    Some(o) => chosen(g, outputs, states, c, o),
                    None => none_before(g, states, k, 0, c),
                },
            decreases n - k,
        {
            let a = self.states[k];
            proof {
                self.nfa.lemma_wf();
            }
            let edges = self.nfa.edges(a);
            let m = edges.len();
            let mut i: usize = 0;
            while i < m
                invariant
                    i <= m,
                    k < n,
                    n == self.states@.len(),
                    self.wf(),
                    g == self.nfa@,
                    outputs == self.nfa.outputs(),
                    states == self.states@,
                    a == state_at(states, k),
                    a < g.nodes.len(),
                    edges@ == edges_at(g, a),
                    m == edges@.len(),
                    forall|x: &T, y: &T| self.nfa().order().requires((x, y)),
                    match output {
                        Some(o) => chosen(g, outputs, states, c, o),
                        None => none_before(g, states, k, i, c),
                    },
                decreases m - i,
            {
                let e = edges[i];
                proof {
                    lemma_arc(self.nfa, states, k, i);
                }
                if e.0 <= c && c <= e.1 {
                    let out = self.nfa.output(e.3);
                    match output {
                        Some(before) => {
                            assert(self.nfa().order().requires((out, &before)));
                            assert(self.nfa().order() == self.nfa.order);
                            let ord = (self.nfa.order)(out, &before);
                            match ord {
                                Ordering::Greater => {
                                    output = Some(out.clone());
                                },
                                _ => {
                                    output = Some(before);
                                },
                            }
                        },
                        None => {
                            output = Some(out.clone());
                        },
                    }
                    proof {
                        assert(fires_at(g, state_at(states, k), i, c));
                    }
                }
                i += 1;
            }
            proof {
                lemma_none_before(g, states, k, m, c);
            }
            k += 1;
        }
        proof {
            if output is None {
                lemma_nothing_fires(g, states, k, c);
            }
        }
        output
    }

    /// Feeds one code point: the nodes that reading it leads to from the
    /// active nodes become active, and the output of an arc that read it
    /// is returned, if one did.
    pub fn step(&mut self, c: char) -> (out: Option<T>) where F: Fn(&T, &T) -> Ordering
        requires
            old(self).wf(),
            forall|x: &T, y: &T| old(self).nfa().order().requires((x, y)),
        ensures
            final(self).wf(),
            final(self).nfa() == old(self).nfa(),
            final(self).fed() == old(self).fed().push(c),
            final(self).states().to_set() == old(self).nfa()@.advance(old(self).states().to_set(), c),
            sorted(final(self).states()),
            match out {
                Some(o) => chosen(
                    old(self).nfa()@,
                    old(self).nfa().outputs(),
                    old(self).states(),
                    c,
                    o,
                ),
                None => nothing_fires(old(self).nfa()@, old(self).states(), c),
            },
    {
        let out = self.pick_output(c);
        let next = self.successors(c);
        self.states = next;
        proof {
            let w = self.fed@.push(c);
            assert(w.drop_last() =~= self.fed@);
            self.fed@ = w;
        }
        out
    }
}

} // verus!
