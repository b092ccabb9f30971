use crate::utils::reach::below;
use crate::utils::reach::closed_lists;
use crate::utils::reach::lists;
use crate::utils::reach::reachable;
use crate::utils::reach::arc;
use crate::utils::reach::lemma_path_extend;
use crate::utils::reach::path;
use crate::utils::reach::reached_from;
use crate::utils::reach::reaches;
use crate::lexer::scan::Automaton;
use crate::lexer::scan::Machine;
use vstd::prelude::*;

verus! {

/// An arc of an NFA that reads one code point: the bounds of its range,
/// both included, its target, and the tag of its output.
pub type NfaEdge = (char, char, usize, usize);

/// A node of an NFA as a mathematical value.
pub struct NodeSpec {
    /// The arcs that read a code point, in the order in which they came.
    pub edges: Seq<NfaEdge>,
    /// The targets of the arcs that read nothing.
    pub epsilons: Seq<usize>,
}

/// An NFA as a mathematical value.
pub struct Graph {
    /// The nodes, each at its index.
    pub nodes: Seq<NodeSpec>,
    /// The start nodes.
    pub start: Seq<usize>,
    /// The accepting nodes.
    pub accept: Seq<usize>,
}

/// Whether the range `[lo, hi]` meets the range of one of `edges`.
pub open spec fn overlapping(edges: Seq<NfaEdge>, lo: char, hi: char) -> bool {
    exists|i: int|
        0 <= i < edges.len() && (#[trigger] edges[i]).0 as int <= hi as int && lo as int
            <= edges[i].1 as int
}

/// Whether the range of `e` holds the code point `c`.
pub open spec fn reads(e: NfaEdge, c: char) -> bool {
    e.0 as int <= c as int && c as int <= e.1 as int
}

/// The targets of `edges`.
pub open spec fn targets(edges: Seq<NfaEdge>) -> Seq<usize> {
    Seq::new(edges.len(), |i: int| edges[i].2)
}

impl NodeSpec {
    /// A node without arcs.
    pub open spec fn empty() -> NodeSpec {
        NodeSpec { edges: Seq::empty(), epsilons: Seq::empty() }
    }

    /// Whether every arc of the node leads to one of `n` nodes.
    pub open spec fn closed(self, n: nat) -> bool {
        below(targets(self.edges), n) && below(self.epsilons, n)
    }
}

impl Graph {
    /// The graph without nodes.
    pub open spec fn empty() -> Graph {
        Graph { nodes: Seq::empty(), start: Seq::empty(), accept: Seq::empty() }
    }

    /// Whether every arc leads to a node, and every start and accepting
    /// node is a node.
    pub open spec fn closed(self) -> bool {
        &&& forall|a: int| 0 <= a < self.nodes.len() ==> (#[trigger] self.nodes[a]).closed(self.nodes.len())
        &&& below(self.start, self.nodes.len())
        &&& below(self.accept, self.nodes.len())
    }

    /// The graph with one node more, without arcs.
    pub open spec fn add_node(self) -> Graph {
        Graph { nodes: self.nodes.push(NodeSpec::empty()), ..self }
    }

    /// The graph with `e` added to the arcs of `from`.
    pub open spec fn push_edge(self, from: int, e: NfaEdge) -> Graph {
        Graph {
            nodes: self.nodes.update(
                from,
                NodeSpec { edges: self.nodes[from].edges.push(e), ..self.nodes[from] },
            ),
            ..self
        }
    }

    /// The graph with an arc that reads nothing from `from` to `to`.
    pub open spec fn push_epsilon(self, from: int, to: usize) -> Graph {
        Graph {
            nodes: self.nodes.update(
                from,
                NodeSpec { epsilons: self.nodes[from].epsilons.push(to), ..self.nodes[from] },
            ),
            ..self
        }
    }

    /// The graph with an arc from `from` to `to` that reads `[lo, hi]` and
    /// has the tag `tag`: among the arcs of `from` where its range meets
    /// none of theirs, else on a new node that `from` reaches by an arc
    /// that reads nothing.
    pub open spec fn add_tagged_edge(
        self,
        from: int,
        lo: char,
        hi: char,
        to: usize,
        tag: usize,
    ) -> Graph {
        if overlapping(self.nodes[from].edges, lo, hi) {
            let mid = self.nodes.len();
            self.add_node().push_epsilon(from, mid as usize).push_edge(
                mid as int,
                (lo, hi, to, tag),
            )
        } else {
            self.push_edge(from, (lo, hi, to, tag))
        }
    }

    /// The graph with an arc from `from` to `to` that reads `[lo, hi]`,
    /// with the tag 0.
    pub open spec fn add_edge(self, from: int, lo: char, hi: char, to: usize) -> Graph {
        self.add_tagged_edge(from, lo, hi, to, 0)
    }
}

/// A node of an NFA.
#[derive(Debug, Clone)]
pub struct NfaNode {
    edges: Vec<NfaEdge>,
    epsilons: Vec<usize>,
}

impl View for NfaNode {
    type V = NodeSpec;

    closed spec fn view(&self) -> NodeSpec {
        NodeSpec { edges: self.edges@, epsilons: self.epsilons@ }
    }
}

/// A nondeterministic finite automaton with its simulation state: the
/// frontier of nodes that are active.
pub struct Nfa {
    start: Vec<usize>,
    accept: Vec<usize>,
    nodes: Vec<NfaNode>,
    optimized: bool,
    current: Vec<usize>,
    next: Vec<usize>,
    fed: Ghost<Seq<char>>,
}

impl View for Nfa {
    type V = Graph;

    closed spec fn view(&self) -> Graph {
        Graph {
            nodes: Seq::new(self.nodes@.len(), |i: int| self.nodes@[i]@),
            start: self.start@,
            accept: self.accept@,
        }
    }
}

impl Nfa {
    /// Whether the automaton has been optimized since it last changed.
    pub closed spec fn is_optimized(&self) -> bool {
        self.optimized
    }

    /// The frontier: the nodes that are active.
    pub closed spec fn frontier(&self) -> Set<usize> {
        self.current@.to_set()
    }

    /// The code points fed since the last reset.
    pub closed spec fn fed(&self) -> Seq<char> {
        self.fed@
    }

    /// Well-formedness: every arc leads to a node, every start node,
    /// accepting node and active node is a node, and once the automaton is
    /// optimized, the frontier is where what was fed leads from the start
    /// nodes.
    pub closed spec fn wf(&self) -> bool {
        &&& self@.closed()
        &&& below(self.current@, self.nodes@.len())
        &&& self.optimized ==> self.frontier() == self@.frontier_after(self.fed@)
    }

    /// What `wf` says of the view.
    pub proof fn lemma_wf(&self)
        requires
            self.wf(),
        ensures
            self@.closed(),
            self@.nodes.len() <= usize::MAX,
    {
        assert(self.nodes.len() == self.nodes@.len());
    }

    /// The number of nodes.
    pub fn node_count(&self) -> (n: usize)
        ensures
            n == self@.nodes.len(),
    {
        self.nodes.len()
    }

    /// The start nodes.
    pub fn starts(&self) -> (list: &Vec<usize>)
        ensures
            list@ == self@.start,
    {
        &self.start
    }

    /// The accepting nodes.
    pub fn accepts(&self) -> (list: &Vec<usize>)
        ensures
            list@ == self@.accept,
    {
        &self.accept
    }

    /// The arcs of the node `a` that read a code point.
    pub fn edges_of(&self, a: usize) -> (list: &Vec<NfaEdge>)
        requires
            a < self@.nodes.len(),
        ensures
            list@ == self@.nodes[a as int].edges,
    {
        &self.nodes[a].edges
    }

    /// The targets of the arcs of the node `a` that read nothing.
    pub fn epsilons_of(&self, a: usize) -> (list: &Vec<usize>)
        requires
            a < self@.nodes.len(),
        ensures
            list@ == self@.nodes[a as int].epsilons,
    {
        &self.nodes[a].epsilons
    }

    /// An automaton without nodes.
    pub fn new() -> (nfa: Nfa)
        ensures
            nfa.wf(),
            nfa@ == Graph::empty(),
            nfa.is_optimized(),
            nfa.frontier() == Set::<usize>::empty(),
            nfa.fed() == Seq::<char>::empty(),
    {
        let nfa = Nfa {
            start: Vec::new(),
            accept: Vec::new(),
            nodes: Vec::new(),
            optimized: true,
            current: Vec::new(),
            next: Vec::new(),
            fed: Ghost(Seq::empty()),
        };
        proof {
            assert(nfa@.nodes =~= Seq::<NodeSpec>::empty());
            assert(nfa.frontier() =~= Set::<usize>::empty());
            assert(nfa@.frontier_after(Seq::empty()) =~= Set::<usize>::empty());
        }
        nfa
    }

    /// Makes the node `start` a start node.
    pub fn add_start(&mut self, start: usize)
        requires
            old(self).wf(),
            start < old(self)@.nodes.len(),
        ensures
            final(self).wf(),
            final(self)@ == (Graph { start: old(self)@.start.push(start), ..old(self)@ }),
            !final(self).is_optimized(),
            final(self).frontier() == old(self).frontier(),
    {
        self.optimized = false;
        self.start.push(start);
        proof {
            assert(self@.nodes =~= old(self)@.nodes);
        }
    }

    /// Makes the node `accept` an accepting node.
    pub fn add_accept(&mut self, accept: usize)
        requires
            old(self).wf(),
            accept < old(self)@.nodes.len(),
        ensures
            final(self).wf(),
            final(self)@ == (Graph { accept: old(self)@.accept.push(accept), ..old(self)@ }),
            !final(self).is_optimized(),
            final(self).frontier() == old(self).frontier(),
    {
        self.optimized = false;
        self.accept.push(accept);
        proof {
            assert(self@.nodes =~= old(self)@.nodes);
        }
    }

    /// Adds a node without arcs, and returns its index.
    pub fn create_node(&mut self) -> (index: usize)
        requires
            old(self).wf(),
        ensures
            final(self).wf(),
            index == old(self)@.nodes.len(),
            final(self)@ == old(self)@.add_node(),
            !final(self).is_optimized(),
            final(self).frontier() == old(self).frontier(),
    {
        self.optimized = false;
        let index = self.nodes.len();
        self.nodes.push(NfaNode { edges: Vec::new(), epsilons: Vec::new() });
        proof {
            assert(self@.nodes =~= old(self)@.nodes.push(NodeSpec::empty()));
            assert forall|a: int| 0 <= a < self@.nodes.len() implies (#[trigger] self@.nodes[a]).closed(
                self@.nodes.len(),
            ) by {
                if a < index {
                    assert(old(self)@.nodes[a].closed(old(self)@.nodes.len()));
                }
            }
        }
        index
    }

    /// Adds an arc from `from` to `to` that reads a code point of
    /// `[lo, hi]`. Where the range meets that of an arc of `from`, the arc
    /// starts from a new node, which `from` reaches by an arc that reads
    /// nothing.
    pub fn add_edge(&mut self, from: usize, lo: char, hi: char, to: usize)
        requires
            old(self).wf(),
            from < old(self)@.nodes.len(),
            to < old(self)@.nodes.len(),
        ensures
            final(self).wf(),
            final(self)@ == old(self)@.add_edge(from as int, lo, hi, to),
            !final(self).is_optimized(),
            final(self).frontier() == old(self).frontier(),
    {
        self.add_tagged_edge(from, lo, hi, to, 0);
    }

    /// Adds an arc from `from` to `to` that reads a code point of
    /// `[lo, hi]` and has the tag `tag`.
    pub fn add_tagged_edge(&mut self, from: usize, lo: char, hi: char, to: usize, tag: usize)
        requires
            old(self).wf(),
            from < old(self)@.nodes.len(),
            to < old(self)@.nodes.len(),
        ensures
            final(self).wf(),
            final(self)@ == old(self)@.add_tagged_edge(from as int, lo, hi, to, tag),
            !final(self).is_optimized(),
            final(self).frontier() == old(self).frontier(),
    {
        self.optimized = false;
        let n = self.nodes[from].edges.len();
        let mut overlaps = false;
        let mut i: usize = 0;
        while i < n
            invariant
                i <= n,
                from < self.nodes@.len(),
                n == self.nodes@[from as int].edges@.len(),
                overlaps == overlapping(self.nodes@[from as int].edges@.take(i as int), lo, hi),
            decreases n - i,
        {
            let l = self.nodes[from].edges[i].0;
            let h = self.nodes[from].edges[i].1;
            let ghost edges = self.nodes@[from as int].edges@;
            proof {
                let s0 = edges.take(i as int);
                let s1 = edges.take(i + 1);
                assert(s1[i as int] == edges[i as int]);
                if overlapping(s0, lo, hi) {
                    let j = choose|j: int|
                        0 <= j < s0.len() && (#[trigger] s0[j]).0 as int <= hi as int && lo as int
                            <= s0[j].1 as int;
                    assert(s1[j] == s0[j]);
                }
                if overlapping(s1, lo, hi) {
                    let j = choose|j: int|
                        0 <= j < s1.len() && (#[trigger] s1[j]).0 as int <= hi as int && lo as int
                            <= s1[j].1 as int;
                    if j < i {
                        assert(s0[j] == s1[j]);
                    }
                }
            }
            if l <= hi && lo <= h {
                overlaps = true;
            }
            i += 1;
        }
        proof {
            assert(self.nodes@[from as int].edges@.take(n as int) =~= self.nodes@[from as int].edges@);
            assert(self@.nodes[from as int].edges == self.nodes@[from as int].edges@);
        }
        let ghost before = *self;
        if overlaps {
            let mid = self.create_node();
            self.add_epsilon(from, mid);
            let ghost mid_graph = self@;
            self.nodes[mid].edges.push((lo, hi, to, tag));
            proof {
                self.lemma_pushed_edge(&before, mid_graph, mid as int, (lo, hi, to, tag));
            }
        } else {
            self.nodes[from].edges.push((lo, hi, to, tag));
            proof {
                assert(before@ == old(self)@);
                self.lemma_pushed_edge(&before, before@, from as int, (lo, hi, to, tag));
            }
        }
    }

    /// What pushing an arc onto the arcs of a node does to the view.
    proof fn lemma_pushed_edge(&self, before: &Self, graph: Graph, from: int, e: NfaEdge)
        requires
            graph.closed(),
            0 <= from < graph.nodes.len(),
            e.2 < graph.nodes.len(),
            self.nodes@.len() == graph.nodes.len(),
            self.start@ == graph.start,
            self.accept@ == graph.accept,
            forall|a: int|
                0 <= a < graph.nodes.len() && a != from ==> (#[trigger] self.nodes@[a])@
                    == graph.nodes[a],
            self.nodes@[from]@ == (NodeSpec {
                edges: graph.nodes[from].edges.push(e),
                ..graph.nodes[from]
            }),
        ensures
            self@ == graph.push_edge(from, e),
            self@.closed(),
    {
        assert(self@.nodes =~= graph.push_edge(from, e).nodes);
        assert forall|a: int| 0 <= a < self@.nodes.len() implies (#[trigger] self@.nodes[a]).closed(
            self@.nodes.len(),
        ) by {
            assert(graph.nodes[a].closed(graph.nodes.len()));
            if a == from {
                let old_t = targets(graph.nodes[a].edges);
                let new_t = targets(self@.nodes[a].edges);
                assert forall|i: int| 0 <= i < new_t.len() implies (#[trigger] new_t[i])
                    < self@.nodes.len() by {
                    if i < old_t.len() {
                        assert(new_t[i] == old_t[i]);
                    }
                }
            }
        }
    }

    /// Adds an arc from `from` to `to` that reads nothing.
    pub fn add_epsilon(&mut self, from: usize, to: usize)
        requires
            old(self).wf(),
            from < old(self)@.nodes.len(),
            to < old(self)@.nodes.len(),
        ensures
            final(self).wf(),
            final(self)@ == old(self)@.push_epsilon(from as int, to),
            !final(self).is_optimized(),
            final(self).frontier() == old(self).frontier(),
    {
        self.optimized = false;
        let ghost before = *self;
        self.nodes[from].epsilons.push(to);
        proof {
            assert(self@.nodes =~= before@.push_epsilon(from as int, to).nodes);
            assert forall|a: int| 0 <= a < self@.nodes.len() implies (#[trigger] self@.nodes[a]).closed(
                self@.nodes.len(),
            ) by {
                assert(before@.nodes[a].closed(before@.nodes.len()));
                if a == from {
                    let old_e = before@.nodes[a].epsilons;
                    let new_e = self@.nodes[a].epsilons;
                    assert forall|i: int| 0 <= i < new_e.len() implies (#[trigger] new_e[i])
                        < self@.nodes.len() by {
                        if i < old_e.len() {
                            assert(new_e[i] == old_e[i]);
                        }
                    }
                }
            }
        }
    }

    /// Whether no node is active.
    pub fn is_dead(&self) -> (b: bool)
        requires
            self.wf(),
            self.is_optimized(),
        ensures
            b == (self.frontier() == Set::<usize>::empty()),
            b == self@.dead(self.fed()),
    {
        proof {
            if self.current@.len() > 0 {
                assert(self.current@.to_set().contains(self.current@[0]));
            } else {
                assert(self.current@.to_set() =~= Set::<usize>::empty());
            }
        }
        self.current.len() == 0
    }

    /// Whether an accepting node is active.
    pub fn is_accept(&self) -> (b: bool)
        requires
            self.wf(),
            self.is_optimized(),
        ensures
            b == exists|x: usize| self.frontier().contains(x) && self@.accept.contains(x),
            b == self@.accepts(self.fed()),
    {
        let mut i: usize = 0;
        while i < self.current.len()
            invariant
                i <= self.current@.len(),
                self.wf(),
                self.is_optimized(),
                forall|k: int, j: int|
                    0 <= k < i && 0 <= j < self.accept@.len() ==> self.current@[k]
                        != self.accept@[j],
            decreases self.current@.len() - i,
        {
            let x = self.current[i];
            let mut j: usize = 0;
            while j < self.accept.len()
                invariant
                    j <= self.accept@.len(),
                    self.wf(),
                    self.is_optimized(),
                    i < self.current@.len(),
                    x == self.current@[i as int],
                    forall|k: int| 0 <= k < j ==> self.accept@[k] != x,
                decreases self.accept@.len() - j,
            {
                if self.accept[j] == x {
                    proof {
                        assert(self.frontier().contains(x));
                        assert(self@.accept.contains(x));
                    }
                    return true;
                }
                j += 1;
            }
            i += 1;
        }
        proof {
            assert forall|x: usize| !(self.frontier().contains(x) && self@.accept.contains(x)) by {
                if self.frontier().contains(x) && self@.accept.contains(x) {
                    let k = choose|k: int| 0 <= k < self.current@.len() && self.current@[k] == x;
                    let j = choose|j: int| 0 <= j < self.accept@.len() && self.accept@[j] == x;
                    assert(self.current@[k] != self.accept@[j]);
                }
            }
        }
        false
    }
}


/// The indices of the items of `marks` that are `true`, in growing order.
pub open spec fn marked(marks: Seq<bool>) -> Seq<usize>
    decreases marks.len(),
{
    if marks.len() == 0 {
        Seq::empty()
    } else if marks.last() {
        marked(marks.drop_last()).push((marks.len() - 1) as usize)
    } else {
        marked(marks.drop_last())
    }
}

/// `list` without the items equal to `deleted`, and with `deleted` in
/// place of the items equal to `last`: what a list of nodes becomes when
/// the node `deleted` leaves and the node `last` takes its index.
pub open spec fn renamed(list: Seq<usize>, deleted: usize, last: usize) -> Seq<usize>
    decreases list.len(),
{
    if list.len() == 0 {
        Seq::empty()
    } else if list.last() == deleted {
        renamed(list.drop_last(), deleted, last)
    } else if list.last() == last {
        renamed(list.drop_last(), deleted, last).push(deleted)
    } else {
        renamed(list.drop_last(), deleted, last).push(list.last())
    }
}

/// `edges` without the arcs that lead to `deleted`, and with `deleted` in
/// place of the target `last`.
pub open spec fn renamed_edges(edges: Seq<NfaEdge>, deleted: usize, last: usize) -> Seq<NfaEdge>
    decreases edges.len(),
{
    if edges.len() == 0 {
        Seq::empty()
    } else if edges.last().2 == deleted {
        renamed_edges(edges.drop_last(), deleted, last)
    } else if edges.last().2 == last {
        renamed_edges(edges.drop_last(), deleted, last).push(
            (edges.last().0, edges.last().1, deleted, edges.last().3),
        )
    } else {
        renamed_edges(edges.drop_last(), deleted, last).push(edges.last())
    }
}

/// The items of `marked` are the indices of the `true` items.
pub proof fn lemma_marked(marks: Seq<bool>)
    requires
        marks.len() <= usize::MAX,
    ensures
        below(marked(marks), marks.len()),
        forall|b: usize| marked(marks).contains(b) <==> b < marks.len() && marks[b as int],
    decreases marks.len(),
{
    if marks.len() > 0 {
        let rest = marks.drop_last();
        lemma_marked(rest);
        let m = marked(marks);
        let r = marked(rest);
        assert forall|i: int| 0 <= i < m.len() implies (#[trigger] m[i]) < marks.len() by {
            if i < r.len() {
                assert(m[i] == r[i]);
            }
        }
        assert forall|b: usize| m.contains(b) <==> b < marks.len() && marks[b as int] by {
            if m.contains(b) {
                let i = choose|i: int| 0 <= i < m.len() && m[i] == b;
                if i < r.len() {
                    assert(r[i] == b);
                    assert(r.contains(b));
                    assert(rest[b as int] == marks[b as int]);
                } else {
                    assert(marks.last());
                    assert(b == marks.len() - 1);
                }
            }
            if b < marks.len() && marks[b as int] {
                if b < rest.len() {
                    assert(rest[b as int]);
                    assert(r.contains(b));
                    let i = choose|i: int| 0 <= i < r.len() && r[i] == b;
                    assert(m[i] == b);
                } else {
                    assert(m[m.len() - 1] == b);
                }
            }
        }
    }
}

/// Renamed lists hold nodes of the graph without its last index.
pub proof fn lemma_renamed(list: Seq<usize>, deleted: usize, last: usize)
    requires
        below(list, (last + 1) as nat),
        deleted <= last,
    ensures
        below(renamed(list, deleted, last), last as nat),
    decreases list.len(),
{
    if list.len() > 0 {
        lemma_renamed(list.drop_last(), deleted, last);
        let r = renamed(list, deleted, last);
        let rest = renamed(list.drop_last(), deleted, last);
        assert(list.last() == list[list.len() - 1]);
        assert forall|i: int| 0 <= i < r.len() implies (#[trigger] r[i]) < last by {
            if i < rest.len() {
                assert(r[i] == rest[i]);
            }
        }
        assert(below(list.drop_last(), (last + 1) as nat)) by {
            assert forall|i: int| 0 <= i < list.drop_last().len() implies (
            #[trigger] list.drop_last()[i]) < last + 1 by {
                assert(list.drop_last()[i] == list[i]);
            }
        }
    } else {
    }
}

/// Renamed arcs lead to nodes of the graph without its last index.
pub proof fn lemma_renamed_edges(edges: Seq<NfaEdge>, deleted: usize, last: usize)
    requires
        below(targets(edges), (last + 1) as nat),
        deleted <= last,
    ensures
        below(targets(renamed_edges(edges, deleted, last)), last as nat),
    decreases edges.len(),
{
    if edges.len() > 0 {
        let front = edges.drop_last();
        assert(below(targets(front), (last + 1) as nat)) by {
            assert forall|i: int| 0 <= i < targets(front).len() implies (#[trigger] targets(
                front,
            )[i]) < last + 1 by {
                assert(targets(front)[i] == targets(edges)[i]);
            }
        }
        lemma_renamed_edges(front, deleted, last);
        let r = targets(renamed_edges(edges, deleted, last));
        let rest = targets(renamed_edges(front, deleted, last));
        assert(targets(edges)[edges.len() - 1] == edges.last().2);
        assert forall|i: int| 0 <= i < r.len() implies (#[trigger] r[i]) < last by {
            if i < rest.len() {
                assert(r[i] == rest[i]);
            }
        }
    }
}

/// Adds the items of `src` at the end of `dst`.
fn push_all(dst: &mut Vec<usize>, src: &Vec<usize>)
    ensures
        final(dst)@ == old(dst)@ + src@,
{
    let mut i: usize = 0;
    while i < src.len()
        invariant
            i <= src@.len(),
            dst@ == old(dst)@ + src@.take(i as int),
        decreases src@.len() - i,
    {
        dst.push(src[i]);
        proof {
            assert(src@.take(i + 1) =~= src@.take(i as int).push(src@[i as int]));
        }
        i += 1;
    }
    proof {
        assert(src@.take(src@.len() as int) =~= src@);
    }
}

/// For each of `n` nodes, whether `list` holds it.
fn members(list: &Vec<usize>, n: usize) -> (marks: Vec<bool>)
    requires
        below(list@, n as nat),
    ensures
        marks@ == Seq::new(n as nat, |b: int| list@.contains(b as usize)),
{
    let mut marks: Vec<bool> = Vec::new();
    let mut k: usize = 0;
    while k < n
        invariant
            k <= n,
            marks@.len() == k,
            forall|b: int| 0 <= b < k ==> !marks@[b],
        decreases n - k,
    {
        marks.push(false);
        k += 1;
    }
    let mut i: usize = 0;
    while i < list.len()
        invariant
            i <= list@.len(),
            below(list@, n as nat),
            marks@.len() == n,
            forall|b: int| 0 <= b < n ==> marks@[b] == list@.take(i as int).contains(b as usize),
        decreases list@.len() - i,
    {
        let x = list[i];
        let ghost before = marks@;
        marks.set(x, true);
        proof {
            let head = list@.take(i as int);
            let next = list@.take(i + 1);
            assert(next[i as int] == x);
            assert forall|b: int| 0 <= b < n implies marks@[b] == next.contains(b as usize) by {
                if head.contains(b as usize) {
                    let j = choose|j: int| 0 <= j < head.len() && head[j] == b as usize;
                    assert(next[j] == b as usize);
                }
                if next.contains(b as usize) {
                    let j = choose|j: int| 0 <= j < next.len() && next[j] == b as usize;
                    if j < i {
                        assert(head[j] == b as usize);
                    }
                }
            }
        }
        i += 1;
    }
    proof {
        assert(list@.take(list@.len() as int) =~= list@);
        assert(marks@ =~= Seq::new(n as nat, |b: int| list@.contains(b as usize)));
    }
    marks
}

/// The indices of the `true` items of `marks`, in growing order.
pub(crate) fn collect(marks: &Vec<bool>) -> (out: Vec<usize>)
    ensures
        out@ == marked(marks@),
{
    let mut out: Vec<usize> = Vec::new();
    let mut i: usize = 0;
    while i < marks.len()
        invariant
            i <= marks@.len(),
            out@ == marked(marks@.take(i as int)),
        decreases marks@.len() - i,
    {
        proof {
            assert(marks@.take(i + 1).drop_last() =~= marks@.take(i as int));
        }
        if marks[i] {
            out.push(i);
        }
        i += 1;
    }
    proof {
        assert(marks@.take(marks@.len() as int) =~= marks@);
    }
    out
}

/// The list renamed for the removal of the node `deleted`.
fn rename_list(list: &Vec<usize>, deleted: usize, last: usize) -> (out: Vec<usize>)
    ensures
        out@ == renamed(list@, deleted, last),
{
    let mut out: Vec<usize> = Vec::new();
    let mut i: usize = 0;
    while i < list.len()
        invariant
            i <= list@.len(),
            out@ == renamed(list@.take(i as int), deleted, last),
        decreases list@.len() - i,
    {
        proof {
            assert(list@.take(i + 1).drop_last() =~= list@.take(i as int));
        }
        let x = list[i];
        if x == deleted {
        } else if x == last {
            out.push(deleted);
        } else {
            out.push(x);
        }
        i += 1;
    }
    proof {
        assert(list@.take(list@.len() as int) =~= list@);
    }
    out
}

/// The arcs renamed for the removal of the node `deleted`.
fn rename_edges(edges: &Vec<NfaEdge>, deleted: usize, last: usize) -> (out: Vec<NfaEdge>)
    ensures
        out@ == renamed_edges(edges@, deleted, last),
{
    let mut out: Vec<NfaEdge> = Vec::new();
    let mut i: usize = 0;
    while i < edges.len()
        invariant
            i <= edges@.len(),
            out@ == renamed_edges(edges@.take(i as int), deleted, last),
        decreases edges@.len() - i,
    {
        proof {
            assert(edges@.take(i + 1).drop_last() =~= edges@.take(i as int));
        }
        let e = edges[i];
        if e.2 == deleted {
        } else if e.2 == last {
            out.push((e.0, e.1, deleted, e.3));
        } else {
            out.push(e);
        }
        i += 1;
    }
    proof {
        assert(edges@.take(edges@.len() as int) =~= edges@);
    }
    out
}


/// `marks` without the item of index `j`, the last item in its place.
pub open spec fn swap_removed(marks: Seq<bool>, j: int) -> Seq<bool> {
    marks.update(j, marks.last()).drop_last()
}

impl Graph {
    /// For each node, the targets of its arcs: first of those that read a
    /// code point, then of those that read nothing.
    pub open spec fn forward(self) -> Seq<Seq<usize>> {
        Seq::new(self.nodes.len(), |a: int| targets(self.nodes[a].edges) + self.nodes[a].epsilons)
    }

    /// For each node, the targets of its arcs that read nothing.
    pub open spec fn epsilon_lists(self) -> Seq<Seq<usize>> {
        Seq::new(self.nodes.len(), |a: int| self.nodes[a].epsilons)
    }

    /// Whether some path leads from a start node to `b`.
    pub open spec fn reachable(self, b: int) -> bool {
        reached_from(self.forward(), self.start, b)
    }

    /// Whether some path leads from `b` to an accepting node.
    pub open spec fn live(self, b: int) -> bool {
        exists|i: int|
            0 <= i < self.accept.len() && reaches(self.forward(), b, #[trigger] self.accept[i] as int)
    }

    /// The graph without the node `deleted`: its arcs and the arcs that
    /// lead to it are gone, and the last node has its index.
    pub open spec fn remove(self, deleted: usize) -> Graph {
        let last = (self.nodes.len() - 1) as usize;
        Graph {
            nodes: Seq::new(
                (self.nodes.len() - 1) as nat,
                |a: int|
                    {
                        let node = if a == deleted {
                            self.nodes[last as int]
                        } else {
                            self.nodes[a]
                        };
                        NodeSpec {
                            edges: renamed_edges(node.edges, deleted, last),
                            epsilons: renamed(node.epsilons, deleted, last),
                        }
                    },
            ),
            start: renamed(self.start, deleted, last),
            accept: renamed(self.accept, deleted, last),
        }
    }

    /// The graph without the nodes below `i` whose mark is `false`, removed
    /// one after the other from the highest index down.
    pub open spec fn pruned(self, marks: Seq<bool>, i: nat) -> Graph
        decreases i,
    {
        if i == 0 || i > marks.len() {
            self
        } else if marks[i - 1] {
            self.pruned(marks, (i - 1) as nat)
        } else {
            self.remove((i - 1) as usize).pruned(swap_removed(marks, i - 1), (i - 1) as nat)
        }
    }

    /// The graph without the nodes that no start node reaches.
    pub open spec fn without_unreachable(self) -> Graph {
        self.pruned(Seq::new(self.nodes.len(), |b: int| self.reachable(b)), self.nodes.len())
    }

    /// The graph without the nodes that reach no accepting node.
    pub open spec fn without_dead(self) -> Graph {
        self.pruned(Seq::new(self.nodes.len(), |b: int| self.live(b)), self.nodes.len())
    }

    /// The graph with, for each node, an arc that reads nothing to each
    /// node that such arcs lead to from it, in growing order; with each
    /// node for a start node that such arcs lead to from a start node; and
    /// with each accepting node once. The start nodes and the accepting
    /// nodes are in growing order.
    pub open spec fn epsilon_closed(self) -> Graph {
        let eps = self.epsilon_lists();
        Graph {
            nodes: Seq::new(
                self.nodes.len(),
                |a: int|
                    NodeSpec {
                        edges: self.nodes[a].edges,
                        epsilons: marked(
                            Seq::new(
                                self.nodes.len(),
                                |b: int| reached_from(eps, self.nodes[a].epsilons, b),
                            ),
                        ),
                    },
            ),
            start: marked(Seq::new(self.nodes.len(), |b: int| reached_from(eps, self.start, b))),
            accept: marked(Seq::new(self.nodes.len(), |b: int| self.accept.contains(b as usize))),
        }
    }

    /// The graph made ready for simulation: closed under the arcs that
    /// read nothing, then without the nodes that no start node reaches,
    /// then without those that reach no accepting node.
    pub open spec fn optimized(self) -> Graph {
        self.epsilon_closed().without_unreachable().without_dead()
    }

    /// Whether reading `c` leads from the node `a` to the node `b` by the
    /// arc of index `i` of `a`, whose range holds `c`, and then at most one
    /// arc that reads nothing.
    pub open spec fn hit(self, a: usize, i: int, c: char, b: usize) -> bool {
        &&& a < self.nodes.len()
        &&& 0 <= i < self.nodes[a as int].edges.len()
        &&& reads(self.nodes[a as int].edges[i], c)
        &&& (b == self.nodes[a as int].edges[i].2 || (self.nodes[a as int].edges[i].2
            < self.nodes.len()
            && self.nodes[self.nodes[a as int].edges[i].2 as int].epsilons.contains(b)))
    }

    /// Whether reading `c` leads from the node `a` to the node `b`.
    pub open spec fn via(self, a: usize, c: char, b: usize) -> bool {
        exists|i: int| #[trigger] self.hit(a, i, c, b)
    }

    /// The nodes that reading `c` leads to from the nodes of `from`.
    pub open spec fn advance(self, from: Set<usize>, c: char) -> Set<usize> {
        Set::new(|b: usize| exists|a: usize| from.contains(a) && #[trigger] self.via(a, c, b))
    }

    /// The nodes that reading `w` leads to from the start nodes.
    pub open spec fn frontier_after(self, w: Seq<char>) -> Set<usize>
        decreases w.len(),
    {
        if w.len() == 0 {
            self.start.to_set()
        } else {
            self.advance(self.frontier_after(w.drop_last()), w.last())
        }
    }
}

impl Automaton for Graph {
    /// Whether reading `w` leads from a start node to an accepting node.
    open spec fn accepts(self, w: Seq<char>) -> bool {
        exists|x: usize| self.frontier_after(w).contains(x) && self.accept.contains(x)
    }

    /// Whether reading `w` leads from the start nodes to no node.
    open spec fn dead(self, w: Seq<char>) -> bool {
        self.frontier_after(w) == Set::<usize>::empty()
    }

    proof fn dead_is_final(self, w: Seq<char>, u: Seq<char>)
        decreases u.len(),
    {
        if u.len() == 0 {
            assert(w + u =~= w);
        } else {
            self.dead_is_final(w, u.drop_last());
            assert((w + u).drop_last() =~= w + u.drop_last());
            assert(self.frontier_after(w + u) =~= Set::<usize>::empty());
        }
    }
}

/// Removing a node from a closed graph gives a closed graph.
pub proof fn lemma_remove_closed(g: Graph, deleted: usize)
    requires
        g.closed(),
        deleted < g.nodes.len(),
        g.nodes.len() <= usize::MAX,
    ensures
        g.remove(deleted).closed(),
        g.remove(deleted).nodes.len() == g.nodes.len() - 1,
{
    let last = (g.nodes.len() - 1) as usize;
    let r = g.remove(deleted);
    lemma_renamed(g.start, deleted, last);
    lemma_renamed(g.accept, deleted, last);
    assert forall|a: int| 0 <= a < r.nodes.len() implies (#[trigger] r.nodes[a]).closed(
        r.nodes.len(),
    ) by {
        let node = if a == deleted {
            g.nodes[last as int]
        } else {
            g.nodes[a]
        };
        assert(node.closed(g.nodes.len()));
        lemma_renamed(node.epsilons, deleted, last);
        lemma_renamed_edges(node.edges, deleted, last);
    }
}

/// Pruning a closed graph gives a closed graph.
pub proof fn lemma_pruned_closed(g: Graph, marks: Seq<bool>, i: nat)
    requires
        g.closed(),
        marks.len() == g.nodes.len(),
        i <= marks.len(),
        g.nodes.len() <= usize::MAX,
    ensures
        g.pruned(marks, i).closed(),
        g.pruned(marks, i).nodes.len() <= g.nodes.len(),
    decreases i,
{
    if i > 0 {
        if marks[i - 1] {
            lemma_pruned_closed(g, marks, (i - 1) as nat);
        } else {
            lemma_remove_closed(g, (i - 1) as usize);
            lemma_pruned_closed(g.remove((i - 1) as usize), swap_removed(marks, i - 1), (i - 1) as nat);
        }
    }
}

impl Nfa {
    /// Adds to `next` the nodes that reading `c` leads to from `from`.
    pub(crate) fn follow(&self, from: usize, c: char, next: &mut Vec<usize>)
        requires
            self.wf(),
            from < self@.nodes.len(),
            below(old(next)@, self@.nodes.len()),
        ensures
            below(final(next)@, self@.nodes.len()),
            forall|b: usize|
                final(next)@.contains(b) <==> old(next)@.contains(b) || self@.via(from, c, b),
    {
        let ghost g = self@;
        let n = self.nodes[from].edges.len();
        let mut i: usize = 0;
        proof {
            assert(g.nodes[from as int] == self.nodes@[from as int]@);
        }
        while i < n
            invariant
                i <= n,
                self.wf(),
                g == self@,
                from < g.nodes.len(),
                n == g.nodes[from as int].edges.len(),
                g.nodes[from as int] == self.nodes@[from as int]@,
                below(next@, g.nodes.len()),
                forall|b: usize|
                    next@.contains(b) <==> old(next)@.contains(b) || exists|k: int|
                        0 <= k < i && #[trigger] g.hit(from, k, c, b),
            decreases n - i,
        {
            let e = self.nodes[from].edges[i];
            let ghost before = next@;
            proof {
                assert(g.nodes[from as int].closed(g.nodes.len()));
                assert(targets(g.nodes[from as int].edges)[i as int] == e.2);
                assert(e.2 < g.nodes.len());
                assert(g.nodes[e.2 as int] == self.nodes@[e.2 as int]@);
                assert(g.nodes[e.2 as int].closed(g.nodes.len()));
            }
            proof {
                assert(g.nodes[from as int].edges[i as int] == e);
            }
            if e.0 <= c && c <= e.1 {
                next.push(e.2);
                push_all(next, &self.nodes[e.2].epsilons);
                proof {
                    let eps = g.nodes[e.2 as int].epsilons;
                    assert(next@ == before.push(e.2) + eps);
                    assert forall|j: int| 0 <= j < next@.len() implies (#[trigger] next@[j])
                        < g.nodes.len() by {
                        if j < before.len() {
                            assert(next@[j] == before[j]);
                        } else if j > before.len() {
                            assert(next@[j] == eps[j - before.len() - 1]);
                        }
                    }
                    assert forall|b: usize|
                        next@.contains(b) <==> before.contains(b) || b == e.2 || eps.contains(b) by {
                        if next@.contains(b) {
                            let j = choose|j: int| 0 <= j < next@.len() && next@[j] == b;
                            if j < before.len() {
                                assert(before[j] == b);
                            } else if j > before.len() {
                                assert(eps[j - before.len() - 1] == b);
                            }
                        }
                        if before.contains(b) {
                            let j = choose|j: int| 0 <= j < before.len() && before[j] == b;
                            assert(next@[j] == b);
                        }
                        if b == e.2 {
                            assert(next@[before.len() as int] == b);
                        }
                        if eps.contains(b) {
                            let j = choose|j: int| 0 <= j < eps.len() && eps[j] == b;
                            assert(next@[before.len() + 1 + j] == b);
                        }
                    }
                }
            }
            proof {
                assert forall|b: usize|
                    next@.contains(b) <==> old(next)@.contains(b) || exists|k: int|
                        0 <= k < i + 1 && #[trigger] g.hit(from, k, c, b) by {
                    if exists|k: int| 0 <= k < i + 1 && #[trigger] g.hit(from, k, c, b) {
                        let k = choose|k: int| 0 <= k < i + 1 && #[trigger] g.hit(from, k, c, b);
                        if k < i {
                            assert(before.contains(b));
                        }
                    }
                    if before.contains(b) && !old(next)@.contains(b) {
                        let k = choose|k: int| 0 <= k < i && #[trigger] g.hit(from, k, c, b);
                        assert(0 <= k < i + 1 && g.hit(from, k, c, b));
                    }
                    if g.hit(from, i as int, c, b) {
                    }
                }
            }
            i += 1;
        }
        proof {
            assert forall|b: usize|
                next@.contains(b) <==> old(next)@.contains(b) || self@.via(from, c, b) by {
                if self@.via(from, c, b) {
                    let k = choose|k: int| #[trigger] g.hit(from, k, c, b);
                    assert(0 <= k < n && g.hit(from, k, c, b));
                }
            }
        }
    }

    /// Feeds one code point: the frontier becomes the nodes that reading it
    /// leads to from the frontier.
    pub fn put(&mut self, c: char)
        requires
            old(self).wf(),
            old(self).is_optimized(),
        ensures
            final(self).wf(),
            final(self)@ == old(self)@,
            final(self).is_optimized(),
            final(self).fed() == old(self).fed().push(c),
            final(self).frontier() == old(self)@.advance(old(self).frontier(), c),
    {
        let mut next: Vec<usize> = Vec::new();
        let n = self.current.len();
        let mut i: usize = 0;
        while i < n
            invariant
                i <= n,
                *self == *old(self),
                self.wf(),
                n == self.current@.len(),
                below(next@, self@.nodes.len()),
                forall|b: usize|
                    next@.contains(b) <==> exists|k: int|
                        0 <= k < i && self@.via(#[trigger] self.current@[k], c, b),
            decreases n - i,
        {
            let from = self.current[i];
            let ghost before = next@;
            self.follow(from, c, &mut next);
            proof {
                assert forall|b: usize|
                    next@.contains(b) <==> exists|k: int|
                        0 <= k < i + 1 && self@.via(#[trigger] self.current@[k], c, b) by {
                    if before.contains(b) {
                        let k = choose|k: int|
                            0 <= k < i && self@.via(#[trigger] self.current@[k], c, b);
                        assert(0 <= k < i + 1 && self@.via(self.current@[k], c, b));
                    }
                    if self@.via(from, c, b) {
                        assert(self@.via(self.current@[i as int], c, b));
                    }
                    if exists|k: int|
                        0 <= k < i + 1 && self@.via(#[trigger] self.current@[k], c, b) {
                        let k = choose|k: int|
                            0 <= k < i + 1 && self@.via(#[trigger] self.current@[k], c, b);
                        if k < i {
                            assert(before.contains(b));
                        }
                    }
                }
            }
            i += 1;
        }
        let ghost g = self@;
        let ghost cur = self.current@;
        self.next = next;
        std::mem::swap(&mut self.current, &mut self.next);
        self.fed = Ghost(self.fed@.push(c));
        proof {
            assert(self@.nodes =~= g.nodes);
            assert(self.fed@.drop_last() =~= old(self).fed@);
            assert forall|b: usize|
                self.frontier().contains(b) <==> exists|a: usize|
                    old(self).frontier().contains(a) && #[trigger] g.via(a, c, b) by {
                if self.frontier().contains(b) {
                    let k = choose|k: int| 0 <= k < n && g.via(#[trigger] cur[k], c, b);
                    assert(old(self).frontier().contains(cur[k]));
                }
                if exists|a: usize| old(self).frontier().contains(a) && #[trigger] g.via(a, c, b) {
                    let a = choose|a: usize|
                        old(self).frontier().contains(a) && #[trigger] g.via(a, c, b);
                    let k = choose|k: int| 0 <= k < cur.len() && cur[k] == a;
                    assert(g.via(cur[k], c, b));
                }
            }
            assert(self.frontier() =~= g.advance(old(self).frontier(), c));
        }
    }
}


/// Whether `rev` has an arc from `b` to `a` exactly where `fwd` has one
/// from `a` to `b`.
pub open spec fn transposed(fwd: Seq<Seq<usize>>, rev: Seq<Seq<usize>>) -> bool {
    &&& fwd.len() == rev.len()
    &&& forall|a: int, b: int| #[trigger] arc(rev, b, a) <==> arc(fwd, a, b)
}

/// A path of a graph is a path of its transpose, the other way round.
pub proof fn lemma_reverse_path(fwd: Seq<Seq<usize>>, rev: Seq<Seq<usize>>, a: int, b: int, n: nat)
    requires
        transposed(fwd, rev),
        path(rev, a, b, n),
    ensures
        path(fwd, b, a, n),
    decreases n,
{
    if n > 0 {
        let m = choose|m: int| #[trigger] arc(rev, a, m) && path(rev, m, b, (n - 1) as nat);
        lemma_reverse_path(fwd, rev, m, b, (n - 1) as nat);
        assert(arc(fwd, m, a));
        lemma_path_extend(fwd, b, m, a, (n - 1) as nat);
    }
}

impl Nfa {
    /// Removes the node `deleted`: its arcs and the arcs that lead to it
    /// go, and the last node takes its index. The frontier is cleared.
    pub fn remove_node(&mut self, deleted: usize)
        requires
            old(self).wf(),
            deleted < old(self)@.nodes.len(),
        ensures
            final(self).wf(),
            final(self)@ == old(self)@.remove(deleted),
            !final(self).is_optimized(),
            final(self).frontier() == Set::<usize>::empty(),
    {
        let ghost g = self@;
        let last = self.nodes.len() - 1;
        let mut nodes: Vec<NfaNode> = Vec::new();
        let mut a: usize = 0;
        while a < last
            invariant
                a <= last,
                *self == *old(self),
                g == self@,
                last + 1 == self.nodes@.len(),
                deleted <= last,
                nodes@.len() == a,
                forall|k: int| 0 <= k < a ==> (#[trigger] nodes@[k])@ == g.remove(deleted).nodes[k],
            decreases last - a,
        {
            let src = if a == deleted {
                &self.nodes[last]
            } else {
                &self.nodes[a]
            };
            proof {
                assert(g.nodes[last as int] == self.nodes@[last as int]@);
                assert(g.nodes[a as int] == self.nodes@[a as int]@);
            }
            let node = NfaNode {
                edges: rename_edges(&src.edges, deleted, last),
                epsilons: rename_list(&src.epsilons, deleted, last),
            };
            nodes.push(node);
            a += 1;
        }
        self.nodes = nodes;
        self.start = rename_list(&self.start, deleted, last);
        self.accept = rename_list(&self.accept, deleted, last);
        self.current = Vec::new();
        self.optimized = false;
        proof {
            assert(self@.nodes =~= g.remove(deleted).nodes);
            lemma_remove_closed(g, deleted);
            assert(self.frontier() =~= Set::<usize>::empty());
        }
    }

    /// Removes the nodes whose mark is `false`, from the highest index
    /// down. The frontier is cleared.
    fn prune(&mut self, marks: Vec<bool>)
        requires
            old(self).wf(),
            marks@.len() == old(self)@.nodes.len(),
        ensures
            final(self).wf(),
            final(self)@.nodes.len() <= old(self)@.nodes.len(),
            final(self)@ == old(self)@.pruned(marks@, marks@.len()),
            !final(self).is_optimized(),
            final(self).frontier() == Set::<usize>::empty(),
    {
        let mut marks = marks;
        let ghost marks0 = marks@;
        let ghost target = self@.pruned(marks@, marks@.len());
        let mut i: usize = marks.len();
        while i > 0
            invariant
                i <= marks@.len(),
                self.wf(),
                marks@.len() == self@.nodes.len(),
                self@.nodes.len() <= old(self)@.nodes.len(),
                self@.pruned(marks@, i as nat) == target,
            decreases i,
        {
            let j = i - 1;
            if !marks[j] {
                self.remove_node(j);
                marks.swap_remove(j);
            }
            i = j;
        }
        self.current = Vec::new();
        self.optimized = false;
        proof {
            assert(self.frontier() =~= Set::<usize>::empty());
        }
    }

    /// For each node, the targets of its arcs.
    fn forward_lists(&self) -> (adj: Vec<Vec<usize>>)
        requires
            self.wf(),
        ensures
            lists(adj@) == self@.forward(),
            closed_lists(lists(adj@)),
    {
        let ghost g = self@;
        let mut adj: Vec<Vec<usize>> = Vec::new();
        let mut a: usize = 0;
        while a < self.nodes.len()
            invariant
                a <= self.nodes@.len(),
                g == self@,
                adj@.len() == a,
                forall|k: int| 0 <= k < a ==> (#[trigger] adj@[k])@ == g.forward()[k],
            decreases self.nodes@.len() - a,
        {
            let mut list: Vec<usize> = Vec::new();
            let m = self.nodes[a].edges.len();
            let mut i: usize = 0;
            proof {
                assert(g.nodes[a as int] == self.nodes@[a as int]@);
            }
            while i < m
                invariant
                    i <= m,
                    a < self.nodes@.len(),
                    m == self.nodes@[a as int].edges@.len(),
                    list@ == targets(self.nodes@[a as int].edges@.take(i as int)),
                decreases m - i,
            {
                list.push(self.nodes[a].edges[i].2);
                proof {
                    let edges = self.nodes@[a as int].edges@;
                    assert(targets(edges.take(i + 1)) =~= targets(edges.take(i as int)).push(
                        edges[i as int].2,
                    ));
                }
                i += 1;
            }
            proof {
                let edges = self.nodes@[a as int].edges@;
                assert(edges.take(m as int) =~= edges);
            }
            push_all(&mut list, &self.nodes[a].epsilons);
            adj.push(list);
            a += 1;
        }
        proof {
            assert(lists(adj@) =~= g.forward());
            assert forall|x: int, i: int|
                0 <= x < g.forward().len() && 0 <= i < g.forward()[x].len() implies (
            #[trigger] g.forward()[x][i]) < g.forward().len() by {
                assert(g.nodes[x].closed(g.nodes.len()));
                let t = targets(g.nodes[x].edges);
                if i < t.len() {
                    assert(g.forward()[x][i] == t[i]);
                } else {
                    assert(g.forward()[x][i] == g.nodes[x].epsilons[i - t.len()]);
                }
            }
        }
        adj
    }

    /// For each node, the nodes with an arc to it.
    fn backward_lists(&self) -> (rev: Vec<Vec<usize>>)
        requires
            self.wf(),
        ensures
            transposed(self@.forward(), lists(rev@)),
            closed_lists(lists(rev@)),
    {
        let fwd = self.forward_lists();
        let ghost f = lists(fwd@);
        let n = fwd.len();
        let mut rev: Vec<Vec<usize>> = Vec::new();
        let mut k: usize = 0;
        while k < n
            invariant
                k <= n,
                rev@.len() == k,
                forall|b: int| 0 <= b < k ==> (#[trigger] rev@[b])@.len() == 0,
            decreases n - k,
        {
            rev.push(Vec::new());
            k += 1;
        }
        let mut a: usize = 0;
        while a < n
            invariant
                a <= n,
                n == fwd@.len(),
                f == lists(fwd@),
                closed_lists(f),
                rev@.len() == n,
                closed_lists(lists(rev@)),
                forall|x: int, y: int|
                    0 <= x < n && 0 <= y < n ==> (#[trigger] rev@[y]@.contains(x as usize) <==> x < a
                        && f[x].contains(y as usize)),
            decreases n - a,
        {
            let m = fwd[a].len();
            let mut i: usize = 0;
            while i < m
                invariant
                    i <= m,
                    a < n,
                    n == fwd@.len(),
                    f == lists(fwd@),
                    closed_lists(f),
                    m == fwd@[a as int]@.len(),
                    rev@.len() == n,
                    closed_lists(lists(rev@)),
                    forall|x: int, y: int|
                        0 <= x < n && 0 <= y < n ==> (#[trigger] rev@[y]@.contains(x as usize) <==> (
                        x < a && f[x].contains(y as usize)) || (x == a && f[x].take(
                            i as int,
                        ).contains(y as usize))),
                decreases m - i,
            {
                let t = fwd[a][i];
                let ghost before = rev@;
                proof {
                    assert(f[a as int] == fwd@[a as int]@);
                    assert(f[a as int][i as int] == t);
                }
                rev[t].push(a);
                proof {
                    let s0 = f[a as int].take(i as int);
                    let s1 = f[a as int].take(i + 1);
                    assert(s1 =~= s0.push(t));
                    assert forall|x: int, j: int|
                        0 <= x < lists(rev@).len() && 0 <= j < lists(rev@)[x].len() implies (
                    #[trigger] lists(rev@)[x][j]) < lists(rev@).len() by {
                        if x == t {
                            if j < before[x]@.len() {
                                assert(lists(before)[x][j] == rev@[x]@[j]);
                            }
                        } else {
                            assert(rev@[x] == before[x]);
                            assert(lists(before)[x][j] == rev@[x]@[j]);
                        }
                    }
                    assert forall|x: int, y: int| 0 <= x < n && 0 <= y < n implies (
                    #[trigger] rev@[y]@.contains(x as usize) <==> (x < a && f[x].contains(
                        y as usize,
                    )) || (x == a && s1.contains(y as usize))) by {
                        let old_has = before[y]@.contains(x as usize);
                        if y == t {
                            assert(rev@[y]@ == before[y]@.push(a));
                            if old_has {
                                let j = choose|j: int|
                                    0 <= j < before[y]@.len() && before[y]@[j] == x as usize;
                                assert(rev@[y]@[j] == x as usize);
                            }
                            if rev@[y]@.contains(x as usize) {
                                let j = choose|j: int|
                                    0 <= j < rev@[y]@.len() && rev@[y]@[j] == x as usize;
                                if j < before[y]@.len() {
                                    assert(before[y]@[j] == x as usize);
                                }
                            }
                            if x == a {
                                assert(rev@[y]@[before[y]@.len() as int] == a);
                                assert(s1[i as int] == t);
                            }
                        } else {
                            assert(rev@[y] == before[y]);
                        }
                        if s0.contains(y as usize) {
                            let j = choose|j: int| 0 <= j < s0.len() && s0[j] == y as usize;
                            assert(s1[j] == y as usize);
                        }
                        if s1.contains(y as usize) {
                            let j = choose|j: int| 0 <= j < s1.len() && s1[j] == y as usize;
                            if j < i {
                                assert(s0[j] == y as usize);
                            }
                        }
                    }
                }
                i += 1;
            }
            proof {
                assert(f[a as int].take(m as int) =~= f[a as int]);
            }
            a += 1;
        }
        proof {
            let r = lists(rev@);
            assert forall|x: int, y: int| #[trigger] arc(r, y, x) <==> arc(f, x, y) by {
                if 0 <= x < n && 0 <= y < n {
                    assert(r[y] == rev@[y]@);
                }
            }
        }
        rev
    }

    /// Removes the nodes that no start node reaches. The frontier is
    /// cleared.
    pub fn remove_unreachable_nodes(&mut self)
        requires
            old(self).wf(),
        ensures
            final(self).wf(),
            final(self)@.nodes.len() <= old(self)@.nodes.len(),
            final(self)@ == old(self)@.without_unreachable(),
            !final(self).is_optimized(),
            final(self).frontier() == Set::<usize>::empty(),
    {
        let adj = self.forward_lists();
        proof {
            assert(lists(adj@).len() == self@.forward().len());
        }
        let marks = reachable(&adj, &self.start);
        proof {
            assert(marks@ =~= Seq::new(self@.nodes.len(), |b: int| self@.reachable(b)));
        }
        self.prune(marks);
    }

    /// Removes the nodes that reach no accepting node. The frontier is
    /// cleared.
    fn remove_dead_nodes(&mut self)
        requires
            old(self).wf(),
        ensures
            final(self).wf(),
            final(self)@.nodes.len() <= old(self)@.nodes.len(),
            final(self)@ == old(self)@.without_dead(),
            !final(self).is_optimized(),
            final(self).frontier() == Set::<usize>::empty(),
    {
        let rev = self.backward_lists();
        proof {
            assert(lists(rev@).len() == self@.forward().len());
        }
        let marks = reachable(&rev, &self.accept);
        proof {
            let g = self@;
            let f = g.forward();
            let r = lists(rev@);
            assert forall|b: int| 0 <= b < g.nodes.len() implies marks@[b] == g.live(b) by {
                if reached_from(r, g.accept, b) {
                    let i = choose|i: int|
                        0 <= i < g.accept.len() && reaches(r, #[trigger] g.accept[i] as int, b);
                    let n = choose|n: nat| path(r, g.accept[i] as int, b, n);
                    lemma_reverse_path(f, r, g.accept[i] as int, b, n);
                    assert(reaches(f, b, g.accept[i] as int));
                }
                if g.live(b) {
                    let i = choose|i: int|
                        0 <= i < g.accept.len() && reaches(f, b, #[trigger] g.accept[i] as int);
                    let n = choose|n: nat| path(f, b, g.accept[i] as int, n);
                    assert(transposed(r, f)) by {
                        assert forall|x: int, y: int| #[trigger] arc(f, y, x) <==> arc(r, x, y) by {
                            assert(arc(r, x, y) <==> arc(f, y, x));
                        }
                    }
                    lemma_reverse_path(r, f, b, g.accept[i] as int, n);
                    assert(reaches(r, g.accept[i] as int, b));
                }
            }
            assert(marks@ =~= Seq::new(g.nodes.len(), |b: int| g.live(b)));
        }
        self.prune(marks);
    }

    /// For each node, the targets of its arcs that read nothing.
    fn epsilon_lists(&self) -> (adj: Vec<Vec<usize>>)
        requires
            self.wf(),
        ensures
            lists(adj@) == self@.epsilon_lists(),
            closed_lists(lists(adj@)),
    {
        let ghost g = self@;
        let mut adj: Vec<Vec<usize>> = Vec::new();
        let mut a: usize = 0;
        while a < self.nodes.len()
            invariant
                a <= self.nodes@.len(),
                g == self@,
                adj@.len() == a,
                forall|k: int| 0 <= k < a ==> (#[trigger] adj@[k])@ == g.epsilon_lists()[k],
            decreases self.nodes@.len() - a,
        {
            let mut list: Vec<usize> = Vec::new();
            push_all(&mut list, &self.nodes[a].epsilons);
            proof {
                assert(g.nodes[a as int] == self.nodes@[a as int]@);
                assert(list@ =~= self.nodes@[a as int].epsilons@);
            }
            adj.push(list);
            a += 1;
        }
        proof {
            assert(lists(adj@) =~= g.epsilon_lists());
            assert forall|x: int, i: int|
                0 <= x < g.epsilon_lists().len() && 0 <= i < g.epsilon_lists()[x].len() implies (
            #[trigger] g.epsilon_lists()[x][i]) < g.epsilon_lists().len() by {
                assert(g.nodes[x].closed(g.nodes.len()));
            }
        }
        adj
    }

    /// Closes the automaton under the arcs that read nothing: each node
    /// gets such an arc to every node that such arcs lead to from it, and
    /// every node that they lead to from a start node becomes one.
    fn epsilon_closure(&mut self)
        requires
            old(self).wf(),
        ensures
            final(self).wf(),
            final(self)@ == old(self)@.epsilon_closed(),
            !final(self).is_optimized(),
    {
        let ghost g = self@;
        let eps = self.epsilon_lists();
        self.optimized = false;
        let n = self.nodes.len();
        proof {
            assert(lists(eps@).len() == g.epsilon_lists().len());
        }
        let mut a: usize = 0;
        while a < n
            invariant
                a <= n,
                n == self.nodes@.len(),
                n == g.nodes.len(),
                lists(eps@) == g.epsilon_lists(),
                closed_lists(lists(eps@)),
                eps@.len() == n,
                below(self.start@, n as nat),
                g.start == self.start@,
                self.start == old(self).start,
                self.accept == old(self).accept,
                self.current == old(self).current,
                !self.optimized,
                forall|k: int| 0 <= k < a ==> (#[trigger] self.nodes@[k])@ == g.epsilon_closed().nodes[k],
                forall|k: int| a <= k < n ==> (#[trigger] self.nodes@[k])@ == g.nodes[k],
            decreases n - a,
        {
            proof {
                assert(lists(eps@)[a as int] == eps@[a as int]@);
                assert(g.epsilon_lists()[a as int] == g.nodes[a as int].epsilons);
                assert forall|i: int| 0 <= i < eps@[a as int]@.len() implies (
                #[trigger] eps@[a as int]@[i]) < eps@.len() by {
                    assert(lists(eps@)[a as int][i] < lists(eps@).len());
                }
            }
            let marks = reachable(&eps, &eps[a]);
            let list = collect(&marks);
            let ghost before = self.nodes@;
            self.nodes[a].epsilons = list;
            proof {
                assert(marks@ =~= Seq::new(
                    g.nodes.len(),
                    |b: int| reached_from(g.epsilon_lists(), g.nodes[a as int].epsilons, b),
                ));
                assert forall|k: int| 0 <= k < a implies (#[trigger] self.nodes@[k])@
                    == g.epsilon_closed().nodes[k] by {
                    assert(self.nodes@[k] == before[k]);
                }
                assert forall|k: int| a + 1 <= k < n implies (#[trigger] self.nodes@[k])@
                    == g.nodes[k] by {
                    assert(self.nodes@[k] == before[k]);
                }
            }
            a += 1;
        }
        let marks = reachable(&eps, &self.start);
        self.start = collect(&marks);
        let accepting = members(&self.accept, n);
        self.accept = collect(&accepting);
        proof {
            assert(marks@ =~= Seq::new(
                g.nodes.len(),
                |b: int| reached_from(g.epsilon_lists(), g.start, b),
            ));
            assert(self@.nodes =~= g.epsilon_closed().nodes);
            lemma_epsilon_closed(g);
        }
    }

    /// Makes the automaton ready for simulation. The frontier is cleared.
    fn optimize(&mut self)
        requires
            old(self).wf(),
        ensures
            final(self).wf(),
            final(self)@ == (if old(self).is_optimized() {
                old(self)@
            } else {
                old(self)@.optimized()
            }),
            final(self)@.nodes.len() <= old(self)@.nodes.len(),
            final(self).is_optimized(),
            !old(self).is_optimized() ==> final(self).frontier() == final(self)@.start.to_set()
                && final(self).fed() == Seq::<char>::empty(),
            old(self).is_optimized() ==> final(self).frontier() == old(self).frontier()
                && final(self).fed() == old(self).fed(),
    {
        if self.optimized {
            return ;
        }
        self.epsilon_closure();
        self.remove_unreachable_nodes();
        self.remove_dead_nodes();
        let mut current: Vec<usize> = Vec::new();
        push_all(&mut current, &self.start);
        let ghost g = self@;
        self.current = current;
        self.fed = Ghost(Seq::empty());
        self.optimized = true;
        proof {
            assert(self@.nodes =~= g.nodes);
            assert(self.current@ =~= self.start@);
        }
    }

    /// Makes the automaton ready for simulation if it is not, and starts
    /// over: the start nodes are active.
    pub fn reset(&mut self)
        requires
            old(self).wf(),
        ensures
            final(self).wf(),
            final(self)@ == (if old(self).is_optimized() {
                old(self)@
            } else {
                old(self)@.optimized()
            }),
            final(self)@.nodes.len() <= old(self)@.nodes.len(),
            final(self).is_optimized(),
            final(self).frontier() == final(self)@.start.to_set(),
            final(self).fed() == Seq::<char>::empty(),
    {
        if !self.optimized {
            self.optimize();
        }
        let mut current: Vec<usize> = Vec::new();
        push_all(&mut current, &self.start);
        let ghost g = self@;
        self.current = current;
        self.fed = Ghost(Seq::empty());
        proof {
            assert(self@.nodes =~= g.nodes);
            assert(self.current@ =~= self.start@);
            self.lemma_wf();
        }
    }
}

/// Closing a closed graph under the arcs that read nothing gives a closed
/// graph.
pub proof fn lemma_epsilon_closed(g: Graph)
    requires
        g.closed(),
        g.nodes.len() <= usize::MAX,
    ensures
        g.epsilon_closed().closed(),
{
    let h = g.epsilon_closed();
    let eps = g.epsilon_lists();
    lemma_marked(Seq::new(g.nodes.len(), |b: int| reached_from(eps, g.start, b)));
    lemma_marked(Seq::new(g.nodes.len(), |b: int| g.accept.contains(b as usize)));
    assert forall|a: int| 0 <= a < h.nodes.len() implies (#[trigger] h.nodes[a]).closed(
        h.nodes.len(),
    ) by {
        assert(g.nodes[a].closed(g.nodes.len()));
        lemma_marked(
            Seq::new(g.nodes.len(), |b: int| reached_from(eps, g.nodes[a].epsilons, b)),
        );
    }
}


/// `list` with `base` added to every item.
pub open spec fn shifted(list: Seq<usize>, base: nat) -> Seq<usize> {
    Seq::new(list.len(), |i: int| (list[i] + base) as usize)
}

/// `edges` with `base` added to every target, and `tag_base` to every tag.
pub open spec fn shifted_edges(edges: Seq<NfaEdge>, base: nat, tag_base: nat) -> Seq<NfaEdge> {
    Seq::new(
        edges.len(),
        |i: int|
            (
                edges[i].0,
                edges[i].1,
                (edges[i].2 + base) as usize,
                (edges[i].3 + tag_base) as usize,
            ),
    )
}

/// The tags of `edges`.
pub open spec fn tags(edges: Seq<NfaEdge>) -> Seq<usize> {
    Seq::new(edges.len(), |i: int| edges[i].3)
}

/// One arc to `exit` for each time that `accept` names the node `local`.
pub open spec fn exits(accept: Seq<usize>, local: usize, exit: usize) -> Seq<usize>
    decreases accept.len(),
{
    if accept.len() == 0 {
        Seq::empty()
    } else if accept.last() == local {
        exits(accept.drop_last(), local, exit).push(exit)
    } else {
        exits(accept.drop_last(), local, exit)
    }
}

impl Graph {
    /// Whether every tag is below `n`.
    pub open spec fn tags_below(self, n: nat) -> bool {
        forall|a: int| 0 <= a < self.nodes.len() ==> below(tags((#[trigger] self.nodes[a]).edges), n)
    }

    /// The graph merged with `other`, the tags of `other` as they are.
    pub open spec fn merge(self, other: Graph) -> Graph {
        self.merge_tagged(other, 0)
    }

    /// The graph with a copy of `other` after its own nodes, then a node
    /// that reaches the start nodes of the copy by arcs that read nothing,
    /// then a node that the accepting nodes of the copy reach by such arcs.
    /// The tags of the copy are those of `other` plus `tag_base`. The start
    /// and accepting nodes are those of the graph itself.
    pub open spec fn merge_tagged(self, other: Graph, tag_base: nat) -> Graph {
        let base = self.nodes.len();
        let entry = base + other.nodes.len();
        let exit = entry + 1;
        Graph {
            nodes: Seq::new(
                exit + 1,
                |a: int|
                    if a < base {
                        self.nodes[a]
                    } else if a < entry {
                        NodeSpec {
                            edges: shifted_edges(other.nodes[a - base].edges, base, tag_base),
                            epsilons: shifted(other.nodes[a - base].epsilons, base) + exits(
                                other.accept,
                                (a - base) as usize,
                                exit as usize,
                            ),
                        }
                    } else if a == entry {
                        NodeSpec { edges: Seq::empty(), epsilons: shifted(other.start, base) }
                    } else {
                        NodeSpec::empty()
                    },
            ),
            start: self.start,
            accept: self.accept,
        }
    }
}

/// The arcs of `exits` all lead to `exit`.
pub proof fn lemma_exits(accept: Seq<usize>, local: usize, exit: usize)
    ensures
        forall|i: int| 0 <= i < exits(accept, local, exit).len() ==> exits(accept, local, exit)[i] == exit,
    decreases accept.len(),
{
    if accept.len() > 0 {
        lemma_exits(accept.drop_last(), local, exit);
        let all = exits(accept, local, exit);
        let rest = exits(accept.drop_last(), local, exit);
        assert forall|i: int| 0 <= i < all.len() implies all[i] == exit by {
            if i < rest.len() {
                assert(all[i] == rest[i]);
            }
        }
    }
}

/// Merging closed graphs gives a closed graph.
pub proof fn lemma_merge_closed(g: Graph, h: Graph, tag_base: nat)
    requires
        g.closed(),
        h.closed(),
        g.nodes.len() + h.nodes.len() + 2 <= usize::MAX,
    ensures
        g.merge_tagged(h, tag_base).closed(),
{
    let m = g.merge_tagged(h, tag_base);
    let base = g.nodes.len();
    let entry = base + h.nodes.len();
    let exit = entry + 1;
    assert forall|a: int| 0 <= a < m.nodes.len() implies (#[trigger] m.nodes[a]).closed(
        m.nodes.len(),
    ) by {
        if a < base {
            assert(g.nodes[a].closed(g.nodes.len()));
        } else if a < entry {
            let node = h.nodes[a - base];
            assert(node.closed(h.nodes.len()));
            lemma_exits(h.accept, (a - base) as usize, exit as usize);
            let t = targets(m.nodes[a].edges);
            assert forall|i: int| 0 <= i < t.len() implies (#[trigger] t[i]) < m.nodes.len() by {
                assert(targets(node.edges)[i] < h.nodes.len());
            }
            let e = m.nodes[a].epsilons;
            assert forall|i: int| 0 <= i < e.len() implies (#[trigger] e[i]) < m.nodes.len() by {
                if i < node.epsilons.len() {
                    assert(node.epsilons[i] < h.nodes.len());
                } else {
                    assert(e[i] == exits(h.accept, (a - base) as usize, exit as usize)[i
                        - node.epsilons.len()]);
                }
            }
        } else if a == entry {
            let e = m.nodes[a].epsilons;
            assert forall|i: int| 0 <= i < e.len() implies (#[trigger] e[i]) < m.nodes.len() by {
                assert(h.start[i] < h.nodes.len());
            }
        }
    }
}

/// `list` with `base` added to every item.
fn shift_list(list: &Vec<usize>, base: usize, Ghost(bound): Ghost<nat>) -> (out: Vec<usize>)
    requires
        below(list@, bound),
        bound + base <= usize::MAX,
    ensures
        out@ == shifted(list@, base as nat),
{
    let mut out: Vec<usize> = Vec::new();
    let mut i: usize = 0;
    while i < list.len()
        invariant
            i <= list@.len(),
            below(list@, bound),
            bound + base <= usize::MAX,
            out@ == shifted(list@.take(i as int), base as nat),
        decreases list@.len() - i,
    {
        out.push(list[i] + base);
        proof {
            assert(shifted(list@.take(i + 1), base as nat) =~= shifted(
                list@.take(i as int),
                base as nat,
            ).push((list@[i as int] + base) as usize));
        }
        i += 1;
    }
    proof {
        assert(list@.take(list@.len() as int) =~= list@);
    }
    out
}

/// `edges` with `base` added to every target, and `tag_base` to every tag.
fn shift_edges(
    edges: &Vec<NfaEdge>,
    base: usize,
    tag_base: usize,
    Ghost(bound): Ghost<nat>,
    Ghost(tag_bound): Ghost<nat>,
) -> (out: Vec<NfaEdge>)
    requires
        below(targets(edges@), bound),
        bound + base <= usize::MAX,
        tag_base == 0 || (below(tags(edges@), tag_bound) && tag_bound + tag_base <= usize::MAX),
    ensures
        out@ == shifted_edges(edges@, base as nat, tag_base as nat),
{
    let mut out: Vec<NfaEdge> = Vec::new();
    let mut i: usize = 0;
    while i < edges.len()
        invariant
            i <= edges@.len(),
            below(targets(edges@), bound),
            bound + base <= usize::MAX,
            tag_base == 0 || (below(tags(edges@), tag_bound) && tag_bound + tag_base
                <= usize::MAX),
            out@ == shifted_edges(edges@.take(i as int), base as nat, tag_base as nat),
        decreases edges@.len() - i,
    {
        let e = edges[i];
        proof {
            assert(targets(edges@)[i as int] == e.2);
            assert(tags(edges@)[i as int] == e.3);
        }
        out.push((e.0, e.1, e.2 + base, e.3 + tag_base));
        proof {
            assert(shifted_edges(edges@.take(i + 1), base as nat, tag_base as nat)
                =~= shifted_edges(edges@.take(i as int), base as nat, tag_base as nat).push(
                (e.0, e.1, (e.2 + base) as usize, (e.3 + tag_base) as usize),
            ));
        }
        i += 1;
    }
    proof {
        assert(edges@.take(edges@.len() as int) =~= edges@);
    }
    out
}

/// Adds to `list` one arc to `exit` for each time that `accept` names the
/// node `local`.
fn push_exits(list: &mut Vec<usize>, accept: &Vec<usize>, local: usize, exit: usize)
    ensures
        final(list)@ == old(list)@ + exits(accept@, local, exit),
{
    let mut i: usize = 0;
    proof {
        assert(list@ =~= old(list)@ + exits(accept@.take(0), local, exit));
    }
    while i < accept.len()
        invariant
            i <= accept@.len(),
            list@ == old(list)@ + exits(accept@.take(i as int), local, exit),
        decreases accept@.len() - i,
    {
        proof {
            assert(accept@.take(i + 1).drop_last() =~= accept@.take(i as int));
        }
        if accept[i] == local {
            list.push(exit);
            proof {
                assert(list@ =~= old(list)@ + exits(accept@.take(i + 1), local, exit));
            }
        }
        i += 1;
    }
    proof {
        assert(accept@.take(accept@.len() as int) =~= accept@);
    }
}

impl Nfa {
    /// Copies the nodes and arcs of `other` into the automaton, under new
    /// indices, and returns two new nodes: one that reaches the start nodes
    /// of the copy, and one that its accepting nodes reach, by arcs that
    /// read nothing.
    pub fn merge(&mut self, other: &Nfa) -> (ends: (usize, usize))
        requires
            old(self).wf(),
            other.wf(),
            old(self)@.nodes.len() + other@.nodes.len() + 2 <= usize::MAX,
        ensures
            final(self).wf(),
            final(self)@ == old(self)@.merge(other@),
            ends.0 == old(self)@.nodes.len() + other@.nodes.len(),
            ends.1 == ends.0 + 1,
            !final(self).is_optimized(),
            final(self).frontier() == old(self).frontier(),
    {
        self.merge_tagged(other, 0, Ghost(0))
    }

    /// Copies the nodes and arcs of `other` into the automaton as `merge`
    /// does, with `tag_base` added to every tag of the copy.
    pub(crate) fn merge_tagged(&mut self, other: &Nfa, tag_base: usize, Ghost(tag_bound): Ghost<nat>) -> (ends:
        (usize, usize))
        requires
            old(self).wf(),
            other.wf(),
            old(self)@.nodes.len() + other@.nodes.len() + 2 <= usize::MAX,
            tag_base == 0 || (other@.tags_below(tag_bound) && tag_bound + tag_base <= usize::MAX),
        ensures
            final(self).wf(),
            final(self)@ == old(self)@.merge_tagged(other@, tag_base as nat),
            ends.0 == old(self)@.nodes.len() + other@.nodes.len(),
            ends.1 == ends.0 + 1,
            !final(self).is_optimized(),
            final(self).frontier() == old(self).frontier(),
    {
        self.optimized = false;
        let ghost g = self@;
        let ghost h = other@;
        let base = self.nodes.len();
        let count = other.nodes.len();
        let entry = base + count;
        let exit = entry + 1;
        let mut a: usize = 0;
        while a < count
            invariant
                a <= count,
                count == other.nodes@.len(),
                h == other@,
                h.closed(),
                base == g.nodes.len(),
                entry == base + count,
                exit == entry + 1,
                exit < usize::MAX,
                tag_base == 0 || (h.tags_below(tag_bound) && tag_bound + tag_base <= usize::MAX),
                self.start@ == g.start,
                self.accept@ == g.accept,
                self.current == old(self).current,
                !self.optimized,
                self.nodes@.len() == base + a,
                forall|k: int| 0 <= k < base + a ==> (#[trigger] self.nodes@[k])@ == g.merge_tagged(h, tag_base as nat).nodes[k],
            decreases count - a,
        {
            proof {
                assert(h.nodes[a as int] == other.nodes@[a as int]@);
                assert(h.nodes[a as int].closed(h.nodes.len()));
            }
            let edges = shift_edges(
                &other.nodes[a].edges,
                base,
                tag_base,
                Ghost(count as nat),
                Ghost(tag_bound),
            );
            let mut epsilons = shift_list(&other.nodes[a].epsilons, base, Ghost(count as nat));
            push_exits(&mut epsilons, &other.accept, a, exit);
            let ghost before = self.nodes@;
            self.nodes.push(NfaNode { edges, epsilons });
            proof {
                assert forall|k: int| 0 <= k < base + a + 1 implies (#[trigger] self.nodes@[k])@
                    == g.merge_tagged(h, tag_base as nat).nodes[k] by {
                    if k < base + a {
                        assert(self.nodes@[k] == before[k]);
                    }
                }
            }
            a += 1;
        }
        let ghost before = self.nodes@;
        let epsilons = shift_list(&other.start, base, Ghost(count as nat));
        self.nodes.push(NfaNode { edges: Vec::new(), epsilons });
        self.nodes.push(NfaNode { edges: Vec::new(), epsilons: Vec::new() });
        proof {
            assert forall|k: int| 0 <= k < self.nodes@.len() implies (#[trigger] self.nodes@[k])@
                == g.merge_tagged(h, tag_base as nat).nodes[k] by {
                if k < entry {
                    assert(self.nodes@[k] == before[k]);
                }
            }
            assert(self@.nodes =~= g.merge_tagged(h, tag_base as nat).nodes);
            lemma_merge_closed(g, h, tag_base as nat);
            assert forall|i: int| 0 <= i < self.current@.len() implies (#[trigger] self.current@[i])
                < self.nodes@.len() by {
                assert(old(self).current@[i] < g.nodes.len());
            }
        }
        (entry, exit)
    }
}


/// Making the graph without nodes ready for simulation changes nothing.
pub proof fn lemma_empty_optimized()
    ensures
        Graph::empty().optimized() == Graph::empty(),
{
    let g = Graph::empty();
    let c = g.epsilon_closed();
    assert(c.nodes =~= g.nodes);
    assert(c.start =~= g.start);
    assert(c == g);
}


impl Machine for Nfa {
    type Pattern = Graph;

    open spec fn pattern(&self) -> Graph {
        self@
    }

    open spec fn fed(&self) -> Seq<char> {
        Nfa::fed(self)
    }

    open spec fn wf(&self) -> bool {
        Nfa::wf(self) && self.is_optimized()
    }

    fn reset(&mut self) {
        Nfa::reset(self)
    }

    fn put(&mut self, c: char) {
        Nfa::put(self, c)
    }

    fn is_accepted(&self) -> (b: bool) {
        Nfa::is_accept(self)
    }

    fn is_dead(&self) -> (b: bool) {
        Nfa::is_dead(self)
    }
}


/// Renamed arcs keep their tags below a bound.
pub proof fn lemma_renamed_tags(edges: Seq<NfaEdge>, deleted: usize, last: usize, n: nat)
    requires
        below(tags(edges), n),
    ensures
        below(tags(renamed_edges(edges, deleted, last)), n),
    decreases edges.len(),
{
    if edges.len() > 0 {
        let front = edges.drop_last();
        assert(below(tags(front), n)) by {
            assert forall|i: int| 0 <= i < tags(front).len() implies (#[trigger] tags(front)[i]) < n by {
                assert(tags(front)[i] == tags(edges)[i]);
            }
        }
        lemma_renamed_tags(front, deleted, last, n);
        let r = tags(renamed_edges(edges, deleted, last));
        let rest = tags(renamed_edges(front, deleted, last));
        assert(tags(edges)[edges.len() - 1] == edges.last().3);
        assert forall|i: int| 0 <= i < r.len() implies (#[trigger] r[i]) < n by {
            if i < rest.len() {
                assert(r[i] == rest[i]);
            }
        }
    }
}

/// Pruning keeps the tags below a bound.
pub proof fn lemma_pruned_tags(g: Graph, marks: Seq<bool>, i: nat, n: nat)
    requires
        g.tags_below(n),
        marks.len() == g.nodes.len(),
        i <= marks.len(),
    ensures
        g.pruned(marks, i).tags_below(n),
    decreases i,
{
    if i > 0 {
        if marks[i - 1] {
            lemma_pruned_tags(g, marks, (i - 1) as nat, n);
        } else {
            let r = g.remove((i - 1) as usize);
            let last = (g.nodes.len() - 1) as usize;
            assert forall|a: int| 0 <= a < r.nodes.len() implies below(
                tags((#[trigger] r.nodes[a]).edges),
                n,
            ) by {
                let node = if a == (i - 1) as usize {
                    g.nodes[last as int]
                } else {
                    g.nodes[a]
                };
                assert(below(tags(node.edges), n));
                lemma_renamed_tags(node.edges, (i - 1) as usize, last, n);
            }
            lemma_pruned_tags(r, swap_removed(marks, i - 1), (i - 1) as nat, n);
        }
    }
}

/// Making a graph ready for simulation keeps the tags below a bound.
pub proof fn lemma_optimized_tags(g: Graph, n: nat)
    requires
        g.tags_below(n),
    ensures
        g.optimized().tags_below(n),
{
    let c = g.epsilon_closed();
    assert forall|a: int| 0 <= a < c.nodes.len() implies below(tags((#[trigger] c.nodes[a]).edges), n) by {
        assert(below(tags(g.nodes[a].edges), n));
    }
    let u = c.without_unreachable();
    lemma_pruned_tags(c, Seq::new(c.nodes.len(), |b: int| c.reachable(b)), c.nodes.len(), n);
    lemma_pruned_size(c, Seq::new(c.nodes.len(), |b: int| c.reachable(b)), c.nodes.len());
    lemma_pruned_tags(u, Seq::new(u.nodes.len(), |b: int| u.live(b)), u.nodes.len(), n);
}

/// Pruning removes nodes only.
pub proof fn lemma_pruned_size(g: Graph, marks: Seq<bool>, i: nat)
    requires
        marks.len() == g.nodes.len(),
        i <= marks.len(),
    ensures
        g.pruned(marks, i).nodes.len() <= g.nodes.len(),
    decreases i,
{
    if i > 0 {
        if marks[i - 1] {
            lemma_pruned_size(g, marks, (i - 1) as nat);
        } else {
            lemma_pruned_size(g.remove((i - 1) as usize), swap_removed(marks, i - 1), (i - 1) as nat);
        }
    }
}

} // verus!
