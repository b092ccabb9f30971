use crate::lex::nfa::lemma_epsilon_closed;
use crate::lex::nfa::lemma_pruned_closed;
use crate::lex::nfa::renamed_edges;
use crate::lex::nfa::swap_removed;
use crate::lex::nfa::targets;
use crate::lex::nfa::reads;
use crate::lex::nfa::Graph;
use crate::lex::nfa::NfaEdge;
use crate::lex::paths::closed_backward;
use crate::lex::paths::kept;
use crate::lex::paths::law_optimized;
use crate::lex::paths::lemma_closed_facts;
use crate::lex::paths::lemma_forward_arcs;
use crate::lex::paths::lemma_frontier;
use crate::lex::paths::lemma_live_before;
use crate::lex::paths::lemma_pruned_embeds;
use crate::lex::paths::lemma_run_backward;
use crate::lex::paths::lemma_run_ends;
use crate::lex::paths::lemma_slides_self;
use crate::lex::paths::lemma_slides_run;
use crate::lex::paths::lemma_without_dead;
use crate::lex::paths::lemma_without_unreachable;
use crate::lex::paths::origins;
use crate::lex::thompson::lemma_run_join;
use crate::lex::thompson::lemma_run_read;
use crate::lex::thompson::lemma_slip;
use crate::lexer::language::lemma_char;
use crate::lexer::scan::Automaton;
use crate::utils::reach::arc;
use crate::utils::reach::path;
use crate::utils::reach::reaches;
use vstd::prelude::*;

verus! {

/// Whether the range of every arc has its bounds in order, so that the arc
/// reads some code point.
pub open spec fn all_in_order(edges: Seq<NfaEdge>) -> bool {
    forall|i: int| 0 <= i < edges.len() ==> (#[trigger] edges[i]).0 as int <= edges[i].1 as int
}

impl Graph {
    /// Whether every arc that reads a code point reads some code point:
    /// the bounds of its range are in order.
    pub open spec fn ordered(self) -> bool {
        forall|a: int| 0 <= a < self.nodes.len() ==> all_in_order((#[trigger] self.nodes[a]).edges)
    }

    /// Whether some string leads from the node `x` to an accepting node.
    pub open spec fn alive(self, x: int) -> bool {
        exists|u: Seq<char>, f: int|
            self.accept.contains(f as usize) && 0 <= f < self.nodes.len() && #[trigger] self.run(
                x,
                u,
                f,
            )
    }
}

/// Renamed arcs keep their ranges.
pub proof fn lemma_renamed_ordered(edges: Seq<NfaEdge>, deleted: usize, last: usize)
    requires
        all_in_order(edges),
    ensures
        all_in_order(renamed_edges(edges, deleted, last)),
    decreases edges.len(),
{
    if edges.len() > 0 {
        let front = edges.drop_last();
        assert(all_in_order(front)) by {
            assert forall|i: int| 0 <= i < front.len() implies (#[trigger] front[i]).0 as int
                <= front[i].1 as int by {
                assert(front[i] == edges[i]);
            }
        }
        lemma_renamed_ordered(front, deleted, last);
        let r = renamed_edges(edges, deleted, last);
        let rest = renamed_edges(front, deleted, last);
        assert(edges[edges.len() - 1] == edges.last());
        assert forall|i: int| 0 <= i < r.len() implies (#[trigger] r[i]).0 as int <= r[i].1 as int by {
            if i < rest.len() {
                assert(r[i] == rest[i]);
            }
        }
    }
}

/// Pruning keeps the ranges of the arcs in order.
pub proof fn lemma_pruned_ordered(g: Graph, marks: Seq<bool>, i: nat)
    requires
        g.ordered(),
        marks.len() == g.nodes.len(),
        i <= marks.len(),
    ensures
        g.pruned(marks, i).ordered(),
    decreases i,
{
    if i > 0 {
        if marks[i - 1] {
            lemma_pruned_ordered(g, marks, (i - 1) as nat);
        } else {
            let r = g.remove((i - 1) as usize);
            let last = (g.nodes.len() - 1) as usize;
            assert forall|a: int| 0 <= a < r.nodes.len() implies all_in_order(
                (#[trigger] r.nodes[a]).edges,
            ) by {
                let node = if a == (i - 1) as usize {
                    g.nodes[last as int]
                } else {
                    g.nodes[a]
                };
                assert(all_in_order(node.edges));
                lemma_renamed_ordered(node.edges, (i - 1) as usize, last);
            }
            lemma_pruned_ordered(r, swap_removed(marks, i - 1), (i - 1) as nat);
        }
    }
}

/// In a graph whose arcs all read some code point, a node that a path
/// leads from to an accepting node has a string that leads from it to an
/// accepting node.
pub proof fn lemma_path_alive(g: Graph, x: int, f: int, n: nat)
    requires
        g.closed(),
        g.ordered(),
        g.nodes.len() <= usize::MAX,
        path(g.forward(), x, f, n),
        g.accept.contains(f as usize),
    ensures
        g.alive(x),
    decreases n,
{
    let fwd = g.forward();
    if n == 0 {
        lemma_slides_self(g, x);
        assert(g.run(x, Seq::empty(), f));
    } else {
        let m = choose|m: int| #[trigger] arc(fwd, x, m) && path(fwd, m, f, (n - 1) as nat);
        lemma_path_alive(g, m, f, (n - 1) as nat);
        let (u, end) = choose|u: Seq<char>, end: int|
            g.accept.contains(end as usize) && 0 <= end < g.nodes.len() && #[trigger] g.run(m, u, end);
        let t = targets(g.nodes[x].edges);
        let e = g.nodes[x].epsilons;
        assert(fwd[x] == t + e);
        let i = choose|i: int| 0 <= i < (t + e).len() && (t + e)[i] == m as usize;
        if i < t.len() {
            let edge = g.nodes[x].edges[i];
            assert(t[i] == edge.2);
            assert(all_in_order(g.nodes[x].edges));
            let c = edge.0;
            lemma_char(c);
            assert(reads(edge, c));
            assert(g.reads_arc(x, c, m));
            lemma_slides_self(g, x);
            assert(g.run(x, Seq::empty(), x));
            lemma_run_read(g, x, Seq::empty(), x, c, m);
            lemma_run_join(g, x, Seq::<char>::empty().push(c), m, u, end);
        } else {
            assert(e[i - t.len()] == m as usize);
            assert(g.epsilon_lists()[x] == e);
            assert(g.slips(x, m));
            lemma_slip(g, x, m);
            lemma_slides_run(g, x, m, u, end);
        }
    }
}

/// In a graph whose arcs all read some code point, once the nodes that
/// reach no accepting node are gone, a string leads from every node to an
/// accepting node.
pub proof fn lemma_all_alive(g: Graph, k: int)
    requires
        g.closed(),
        g.ordered(),
        g.nodes.len() <= usize::MAX,
        0 <= k < g.without_dead().nodes.len(),
    ensures
        g.without_dead().alive(k),
{
    let n = g.nodes.len();
    let marks = Seq::new(n, |b: int| g.live(b));
    let d = g.without_dead();
    let origin = origins(n, marks, n);
    lemma_pruned_closed(g, marks, n);
    lemma_pruned_embeds(g, marks, n);
    assert forall|y: int| kept(origin, y) <==> 0 <= y < n && g.live(y) by {
        if 0 <= y < n {
            assert(marks[y] == g.live(y));
        }
    }
    assert(closed_backward(g, origin)) by {
        assert forall|a: int, b: int|
            kept(origin, b) && #[trigger] arc(g.epsilon_lists(), a, b) implies kept(origin, a) by {
            lemma_forward_arcs(g, a, b);
            lemma_live_before(g, a, b);
        }
        assert forall|a: int, c: char, b: int|
            kept(origin, b) && #[trigger] g.reads_arc(a, c, b) implies kept(origin, a) by {
            lemma_forward_arcs(g, a, b);
            lemma_live_before(g, a, b);
        }
    }
    let x = origin[k];
    assert(kept(origin, x));
    let i = choose|i: int|
        0 <= i < g.accept.len() && reaches(g.forward(), x, #[trigger] g.accept[i] as int);
    let len = choose|len: nat| path(g.forward(), x, g.accept[i] as int, len);
    assert(g.accept.contains(g.accept[i]));
    lemma_path_alive(g, x, g.accept[i] as int, len);
    let (u, f) = choose|u: Seq<char>, f: int|
        g.accept.contains(f as usize) && 0 <= f < g.nodes.len() && #[trigger] g.run(x, u, f);
    let j = choose|j: int| 0 <= j < g.accept.len() && g.accept[j] == f as usize;
    assert(path(g.forward(), f, f, 0));
    assert(reaches(g.forward(), f, g.accept[j] as int));
    assert(g.live(f));
    assert(kept(origin, f));
    let b = choose|b: int| 0 <= b < origin.len() && #[trigger] origin[b] == f;
    let a = lemma_run_backward(d, g, origin, x, u, b);
    assert(a == k);
    assert(d.accept.contains(b as usize));
    assert(d.run(k, u, b));
}

/// Making a graph ready for simulation keeps the ranges of the arcs in
/// order.
pub proof fn lemma_optimized_ordered(g: Graph)
    requires
        g.closed(),
        g.ordered(),
        g.nodes.len() <= usize::MAX,
    ensures
        g.epsilon_closed().without_unreachable().ordered(),
        g.optimized().ordered(),
{
    let c = g.epsilon_closed();
    lemma_closed_facts(g);
    assert forall|a: int| 0 <= a < c.nodes.len() implies all_in_order((#[trigger] c.nodes[a]).edges) by {
        assert(all_in_order(g.nodes[a].edges));
    }
    let u = c.without_unreachable();
    lemma_pruned_ordered(c, Seq::new(c.nodes.len(), |b: int| c.reachable(b)), c.nodes.len());
    lemma_pruned_ordered(u, Seq::new(u.nodes.len(), |b: int| u.live(b)), u.nodes.len());
}

/// The simulation of an optimized graph whose arcs all read some code
/// point is dead exactly when nothing can follow: after the code points of
/// `w`, no node is active exactly when no string `u` makes `w` followed by
/// `u` a string of the language of the graph.
pub proof fn law_dead_is_exact(g: Graph, w: Seq<char>)
    requires
        g.closed(),
        g.ordered(),
        g.nodes.len() <= usize::MAX,
    ensures
        g.optimized().dead(w) <==> forall|u: Seq<char>| !g.language(#[trigger] (w + u)),
{
    let c = g.epsilon_closed();
    let u = c.without_unreachable();
    let d = g.optimized();
    lemma_epsilon_closed(g);
    lemma_closed_facts(g);
    lemma_without_unreachable(c, w);
    lemma_without_dead(u, w);
    lemma_optimized_ordered(g);
    law_optimized(g, w);
    if d.dead(w) {
        assert forall|v: Seq<char>| !g.language(#[trigger] (w + v)) by {
            d.dead_is_final(w, v);
            law_optimized(g, w + v);
            assert(!d.accepts(w + v));
        }
    } else {
        let active = d.frontier_after(w);
        if forall|x: usize| !active.contains(x) {
            assert(active =~= Set::<usize>::empty());
        }
        let x = choose|x: usize| active.contains(x);
        lemma_frontier(d, w, x);
        let s = choose|s: int|
            d.start.contains(s as usize) && 0 <= s < d.nodes.len() && #[trigger] d.run(s, w, x as int);
        lemma_run_ends(d, s, w, x as int);
        lemma_all_alive(u, x as int);
        let (v, f) = choose|v: Seq<char>, f: int|
            d.accept.contains(f as usize) && 0 <= f < d.nodes.len() && #[trigger] d.run(x as int, v, f);
        lemma_run_join(d, s, w, x as int, v, f);
        assert(d.language(w + v));
        law_optimized(g, w + v);
        assert(g.language(w + v));
    }
}

/// An accepting simulation is not dead.
pub proof fn law_accept_is_alive(g: Graph, w: Seq<char>)
    ensures
        g.accepts(w) ==> !g.dead(w),
{
}

} // verus!
