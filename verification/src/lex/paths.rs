use crate::lex::nfa::lemma_pruned_closed;
use crate::lex::nfa::lemma_epsilon_closed;
use crate::lex::nfa::marked;
use crate::lex::nfa::lemma_marked;
use crate::lex::nfa::reads;
use crate::lex::nfa::renamed;
use crate::lex::nfa::renamed_edges;
use crate::lex::nfa::swap_removed;
use crate::lex::nfa::targets;
use crate::lex::nfa::NfaEdge;
use crate::utils::reach::below;
use crate::lex::nfa::Graph;
use crate::lexer::scan::Automaton;
use crate::utils::reach::arc;
use crate::utils::reach::lemma_path_extend;
use crate::utils::reach::lemma_reached_extend;
use crate::utils::reach::path;
use crate::utils::reach::reached_from;
use crate::utils::reach::reaches;
use vstd::prelude::*;

verus! {

impl Graph {
    /// Whether an arc of the node `a` reads `c` and leads to the node `b`.
    pub open spec fn reads_arc(self, a: int, c: char, b: int) -> bool {
        &&& 0 <= a < self.nodes.len()
        &&& 0 <= b < self.nodes.len()
        &&& exists|i: int|
            0 <= i < self.nodes[a].edges.len() && reads(#[trigger] self.nodes[a].edges[i], c)
                && self.nodes[a].edges[i].2 == b
    }

    /// Whether arcs that read nothing lead from the node `a` to the node
    /// `b`; no arc at all counts.
    pub open spec fn slides(self, a: int, b: int) -> bool {
        reaches(self.epsilon_lists(), a, b)
    }

    /// Whether a path from the node `a` to the node `b` reads `w`: arcs
    /// that read the code points of `w` in turn, with arcs that read
    /// nothing anywhere between them.
    pub open spec fn run(self, a: int, w: Seq<char>, b: int) -> bool
        decreases w.len(),
    {
        if w.len() == 0 {
            self.slides(a, b)
        } else {
            exists|x: int, y: int|
                self.run(a, w.drop_last(), x) && #[trigger] self.reads_arc(x, w.last(), y)
                    && self.slides(y, b)
        }
    }

    /// Whether `w` belongs to the language of the graph: a path from a
    /// start node to an accepting node reads it.
    pub open spec fn language(self, w: Seq<char>) -> bool {
        exists|s: int, f: int|
            self.start.contains(s as usize) && self.accept.contains(f as usize) && 0 <= s
                < self.nodes.len() && 0 <= f < self.nodes.len() && #[trigger] self.run(s, w, f)
    }

    /// Whether the arcs that read nothing are closed: where such arcs lead
    /// from a node to another one, one arc does; and every node that they
    /// lead to from a start node is a start node.
    pub open spec fn saturated(self) -> bool {
        &&& forall|a: int, b: int|
            #[trigger] self.slides(a, b) && a != b ==> self.nodes[a].epsilons.contains(b as usize)
        &&& forall|s: int, b: int|
            self.start.contains(s as usize) && 0 <= s < self.nodes.len() && #[trigger] self.slides(
                s,
                b,
            ) ==> self.start.contains(b as usize)
    }
}

/// A path that reads nothing goes on along an arc that reads nothing, and
/// two such paths join.
pub proof fn lemma_slides_join(g: Graph, a: int, b: int, c: int)
    requires
        g.slides(a, b),
        g.slides(b, c),
    ensures
        g.slides(a, c),
{
    let eps = g.epsilon_lists();
    let n = choose|n: nat| path(eps, a, b, n);
    let m = choose|m: nat| path(eps, b, c, m);
    lemma_path_join(eps, a, b, c, n, m);
}

/// Two paths join.
pub proof fn lemma_path_join(adj: Seq<Seq<usize>>, a: int, b: int, c: int, n: nat, m: nat)
    requires
        path(adj, a, b, n),
        path(adj, b, c, m),
    ensures
        path(adj, a, c, n + m),
        reaches(adj, a, c),
    decreases m,
{
    if m == 0 {
    } else {
        let x = choose|x: int| #[trigger] arc(adj, b, x) && path(adj, x, c, (m - 1) as nat);
        lemma_path_extend(adj, a, b, x, n);
        lemma_path_join(adj, a, x, c, n + 1, (m - 1) as nat);
    }
}

/// The ends of a path are nodes.
pub proof fn lemma_path_ends(adj: Seq<Seq<usize>>, a: int, b: int, n: nat)
    requires
        path(adj, a, b, n),
    ensures
        0 <= a < adj.len(),
        0 <= b < adj.len(),
    decreases n,
{
    if n > 0 {
        let x = choose|x: int| #[trigger] arc(adj, a, x) && path(adj, x, b, (n - 1) as nat);
        lemma_path_ends(adj, x, b, (n - 1) as nat);
    }
}

/// The ends of a run are nodes.
pub proof fn lemma_run_ends(g: Graph, a: int, w: Seq<char>, b: int)
    requires
        g.run(a, w, b),
    ensures
        0 <= a < g.nodes.len(),
        0 <= b < g.nodes.len(),
    decreases w.len(),
{
    let eps = g.epsilon_lists();
    if w.len() == 0 {
        let n = choose|n: nat| path(eps, a, b, n);
        lemma_path_ends(eps, a, b, n);
    } else {
        let (x, y) = choose|x: int, y: int|
            g.run(a, w.drop_last(), x) && #[trigger] g.reads_arc(x, w.last(), y) && g.slides(y, b);
        lemma_run_ends(g, a, w.drop_last(), x);
        let n = choose|n: nat| path(eps, y, b, n);
        lemma_path_ends(eps, y, b, n);
    }
}

/// A run goes on along arcs that read nothing.
pub proof fn lemma_run_slides(g: Graph, a: int, w: Seq<char>, b: int, c: int)
    requires
        g.run(a, w, b),
        g.slides(b, c),
    ensures
        g.run(a, w, c),
{
    if w.len() == 0 {
        lemma_slides_join(g, a, b, c);
    } else {
        let (x, y) = choose|x: int, y: int|
            g.run(a, w.drop_last(), x) && #[trigger] g.reads_arc(x, w.last(), y) && g.slides(y, b);
        lemma_slides_join(g, y, b, c);
        assert(g.run(a, w.drop_last(), x) && g.reads_arc(x, w.last(), y) && g.slides(y, c));
    }
}

/// Every node is where no arc leads from it.
pub proof fn lemma_slides_self(g: Graph, a: int)
    requires
        0 <= a < g.nodes.len(),
    ensures
        g.slides(a, a),
{
    assert(path(g.epsilon_lists(), a, a, 0));
}

/// In a saturated graph, the frontier after `w` holds the nodes that a run
/// from a start node reaches by reading `w`.
pub proof fn lemma_frontier(g: Graph, w: Seq<char>, b: usize)
    requires
        g.closed(),
        g.saturated(),
        g.nodes.len() <= usize::MAX,
    ensures
        g.frontier_after(w).contains(b) <==> exists|s: int|
            g.start.contains(s as usize) && 0 <= s < g.nodes.len() && #[trigger] g.run(
                s,
                w,
                b as int,
            ),
    decreases w.len(),
{
    let eps = g.epsilon_lists();
    if w.len() == 0 {
        if g.start.contains(b) {
            let k = choose|k: int| 0 <= k < g.start.len() && g.start[k] == b;
            assert(b < g.nodes.len());
            lemma_slides_self(g, b as int);
            assert(g.run(b as int, w, b as int));
        }
        if exists|s: int|
            g.start.contains(s as usize) && 0 <= s < g.nodes.len() && #[trigger] g.run(
                s,
                w,
                b as int,
            ) {
            let s = choose|s: int|
                g.start.contains(s as usize) && 0 <= s < g.nodes.len() && #[trigger] g.run(
                    s,
                    w,
                    b as int,
                );
            assert(g.slides(s, b as int));
        }
    } else {
        let v = w.drop_last();
        let c = w.last();
        let front = g.frontier_after(v);
        if g.frontier_after(w).contains(b) {
            let a = choose|a: usize| front.contains(a) && #[trigger] g.via(a, c, b);
            let i = choose|i: int| #[trigger] g.hit(a, i, c, b);
            lemma_frontier(g, v, a);
            let s = choose|s: int|
                g.start.contains(s as usize) && 0 <= s < g.nodes.len() && #[trigger] g.run(
                    s,
                    v,
                    a as int,
                );
            let to = g.nodes[a as int].edges[i].2;
            assert(g.nodes[a as int].closed(g.nodes.len()));
            assert(crate::lex::nfa::targets(g.nodes[a as int].edges)[i] == to);
            assert(g.reads_arc(a as int, c, to as int));
            if b == to {
                lemma_slides_self(g, to as int);
            } else {
                assert(g.nodes[to as int].epsilons.contains(b));
                assert(g.nodes[to as int].closed(g.nodes.len()));
                let k = choose|k: int|
                    0 <= k < g.nodes[to as int].epsilons.len() && g.nodes[to as int].epsilons[k]
                        == b;
                assert(b < g.nodes.len());
                assert(eps[to as int] == g.nodes[to as int].epsilons);
                assert(arc(eps, to as int, b as int));
                assert(path(eps, b as int, b as int, 0));
                assert(path(eps, to as int, b as int, 1));
            }
            assert(g.run(s, v, a as int) && g.reads_arc(a as int, c, to as int) && g.slides(
                to as int,
                b as int,
            ));
            assert(g.run(s, w, b as int));
        }
        if exists|s: int|
            g.start.contains(s as usize) && 0 <= s < g.nodes.len() && #[trigger] g.run(
                s,
                w,
                b as int,
            ) {
            let s = choose|s: int|
                g.start.contains(s as usize) && 0 <= s < g.nodes.len() && #[trigger] g.run(
                    s,
                    w,
                    b as int,
                );
            let (x, y) = choose|x: int, y: int|
                g.run(s, v, x) && #[trigger] g.reads_arc(x, c, y) && g.slides(y, b as int);
            lemma_run_ends(g, s, v, x);
            lemma_frontier(g, v, x as usize);
            assert(g.run(s, v, (x as usize) as int));
            assert(front.contains(x as usize));
            assert(g.slides(y, b as int));
            if y != b {
                lemma_path_ends(eps, y, b as int, choose|n: nat| path(eps, y, b as int, n));
            }
            let i = choose|i: int|
                0 <= i < g.nodes[x].edges.len() && reads(#[trigger] g.nodes[x].edges[i], c)
                    && g.nodes[x].edges[i].2 == y;
            if y != b {
                assert(g.nodes[y].epsilons.contains(b));
            }
            assert(g.hit(x as usize, i, c, b));
            assert(g.via(x as usize, c, b));
        }
    }
}

/// In a saturated graph, the simulation accepts the language: the frontier
/// after `w` holds an accepting node exactly when a path from a start node
/// to an accepting node reads `w`.
pub proof fn law_simulation(g: Graph, w: Seq<char>)
    requires
        g.closed(),
        g.saturated(),
        g.nodes.len() <= usize::MAX,
    ensures
        g.accepts(w) <==> g.language(w),
{
    if g.accepts(w) {
        let x = choose|x: usize| g.frontier_after(w).contains(x) && g.accept.contains(x);
        lemma_frontier(g, w, x);
        let s = choose|s: int|
            g.start.contains(s as usize) && 0 <= s < g.nodes.len() && #[trigger] g.run(
                s,
                w,
                x as int,
            );
        lemma_run_ends(g, s, w, x as int);
        assert(g.run(s, w, x as int));
    }
    if g.language(w) {
        let (s, f) = choose|s: int, f: int|
            g.start.contains(s as usize) && g.accept.contains(f as usize) && 0 <= s
                < g.nodes.len() && 0 <= f < g.nodes.len() && #[trigger] g.run(s, w, f);
        lemma_frontier(g, w, f as usize);
        assert(g.run(s, w, (f as usize) as int));
        assert(g.frontier_after(w).contains(f as usize));
    }
}


/// A run starts later along arcs that read nothing.
pub proof fn lemma_slides_run(g: Graph, a: int, b: int, w: Seq<char>, c: int)
    requires
        g.slides(a, b),
        g.run(b, w, c),
    ensures
        g.run(a, w, c),
    decreases w.len(),
{
    if w.len() == 0 {
        lemma_slides_join(g, a, b, c);
    } else {
        let (x, y) = choose|x: int, y: int|
            g.run(b, w.drop_last(), x) && #[trigger] g.reads_arc(x, w.last(), y) && g.slides(y, c);
        lemma_slides_run(g, a, b, w.drop_last(), x);
        assert(g.run(a, w.drop_last(), x) && g.reads_arc(x, w.last(), y) && g.slides(y, c));
    }
}

/// What closing a graph under the arcs that read nothing leaves as it is,
/// and what arcs and start nodes it adds.
pub proof fn lemma_closed_facts(g: Graph)
    requires
        g.closed(),
        g.nodes.len() <= usize::MAX,
    ensures
        g.epsilon_closed().nodes.len() == g.nodes.len(),
        forall|f: int|
            0 <= f < g.nodes.len() ==> (#[trigger] g.epsilon_closed().accept.contains(f as usize)
                <==> g.accept.contains(f as usize)),
        forall|a: int|
            0 <= a < g.nodes.len() ==> (#[trigger] g.epsilon_closed().nodes[a]).edges
                == g.nodes[a].edges,
        forall|a: int, b: int|
            0 <= a < g.nodes.len() && 0 <= b < g.nodes.len() ==> (#[trigger] arc(
                g.epsilon_closed().epsilon_lists(),
                a,
                b,
            ) <==> reached_from(g.epsilon_lists(), g.nodes[a].epsilons, b)),
        forall|b: int|
            0 <= b < g.nodes.len() ==> (#[trigger] g.epsilon_closed().start.contains(b as usize)
                <==> reached_from(g.epsilon_lists(), g.start, b)),
        crate::utils::reach::below(g.epsilon_closed().start, g.nodes.len()),
{
    let c = g.epsilon_closed();
    let eps = g.epsilon_lists();
    let start_marks = Seq::new(g.nodes.len(), |b: int| reached_from(eps, g.start, b));
    lemma_marked(start_marks);
    let accept_marks = Seq::new(g.nodes.len(), |b: int| g.accept.contains(b as usize));
    lemma_marked(accept_marks);
    assert forall|f: int| 0 <= f < g.nodes.len() implies (#[trigger] c.accept.contains(f as usize)
        <==> g.accept.contains(f as usize)) by {
        assert(accept_marks[f] == g.accept.contains(f as usize));
    }
    assert forall|b: int| 0 <= b < g.nodes.len() implies (#[trigger] c.start.contains(b as usize)
        <==> reached_from(eps, g.start, b)) by {
        assert(start_marks[b] == reached_from(eps, g.start, b));
    }
    assert forall|a: int, b: int| 0 <= a < g.nodes.len() && 0 <= b < g.nodes.len() implies (
    #[trigger] arc(c.epsilon_lists(), a, b) <==> reached_from(eps, g.nodes[a].epsilons, b)) by {
        let marks = Seq::new(g.nodes.len(), |x: int| reached_from(eps, g.nodes[a].epsilons, x));
        lemma_marked(marks);
        assert(c.epsilon_lists()[a] == c.nodes[a].epsilons);
        assert(marks[b] == reached_from(eps, g.nodes[a].epsilons, b));
    }
}

/// Closing a graph under the arcs that read nothing changes nothing to
/// where such arcs lead.
pub proof fn lemma_closed_slides(g: Graph, a: int, b: int, n: nat)
    requires
        g.closed(),
        g.nodes.len() <= usize::MAX,
    ensures
        path(g.epsilon_closed().epsilon_lists(), a, b, n) ==> g.slides(a, b),
        path(g.epsilon_lists(), a, b, n) ==> g.epsilon_closed().slides(a, b),
    decreases n,
{
    let c = g.epsilon_closed();
    let eps = g.epsilon_lists();
    let ceps = c.epsilon_lists();
    lemma_closed_facts(g);
    if n == 0 {
        if path(ceps, a, b, n) {
            assert(path(eps, a, b, 0));
        }
        if path(eps, a, b, n) {
            assert(path(ceps, a, b, 0));
        }
    } else {
        if path(ceps, a, b, n) {
            let m = choose|m: int| #[trigger] arc(ceps, a, m) && path(ceps, m, b, (n - 1) as nat);
            lemma_closed_slides(g, m, b, (n - 1) as nat);
            assert(reached_from(eps, g.nodes[a].epsilons, m));
            let i = choose|i: int|
                0 <= i < g.nodes[a].epsilons.len() && reaches(
                    eps,
                    #[trigger] g.nodes[a].epsilons[i] as int,
                    m,
                );
            let first = g.nodes[a].epsilons[i];
            assert(g.nodes[a].closed(g.nodes.len()));
            assert(eps[a] == g.nodes[a].epsilons);
            assert(eps[a].contains(first));
            assert(arc(eps, a, first as int));
            let k = choose|k: nat| path(eps, first as int, m, k);
            assert(path(eps, a, m, k + 1));
            assert(g.slides(a, m));
            lemma_slides_join(g, a, m, b);
        }
        if path(eps, a, b, n) {
            let m = choose|m: int| #[trigger] arc(eps, a, m) && path(eps, m, b, (n - 1) as nat);
            lemma_closed_slides(g, m, b, (n - 1) as nat);
            assert(eps[a] == g.nodes[a].epsilons);
            let i = choose|i: int| 0 <= i < eps[a].len() && eps[a][i] == m as usize;
            assert(path(eps, m, m, 0));
            assert(reaches(eps, g.nodes[a].epsilons[i] as int, m));
            assert(reached_from(eps, g.nodes[a].epsilons, m));
            assert(arc(ceps, a, m));
            let k = choose|k: nat| path(ceps, m, b, k);
            assert(path(ceps, a, b, k + 1));
        }
    }
}

/// Closing a graph under the arcs that read nothing changes nothing to
/// where such arcs lead.
pub proof fn lemma_closed_same_slides(g: Graph, a: int, b: int)
    requires
        g.closed(),
        g.nodes.len() <= usize::MAX,
    ensures
        g.epsilon_closed().slides(a, b) <==> g.slides(a, b),
{
    let c = g.epsilon_closed();
    if c.slides(a, b) {
        let n = choose|n: nat| path(c.epsilon_lists(), a, b, n);
        lemma_closed_slides(g, a, b, n);
    }
    if g.slides(a, b) {
        let n = choose|n: nat| path(g.epsilon_lists(), a, b, n);
        lemma_closed_slides(g, a, b, n);
    }
}

/// Closing a graph under the arcs that read nothing changes nothing to
/// its runs.
pub proof fn lemma_closed_same_run(g: Graph, a: int, w: Seq<char>, b: int)
    requires
        g.closed(),
        g.nodes.len() <= usize::MAX,
    ensures
        g.epsilon_closed().run(a, w, b) <==> g.run(a, w, b),
    decreases w.len(),
{
    let c = g.epsilon_closed();
    lemma_closed_facts(g);
    if w.len() == 0 {
        lemma_closed_same_slides(g, a, b);
    } else {
        if c.run(a, w, b) {
            let (x, y) = choose|x: int, y: int|
                c.run(a, w.drop_last(), x) && #[trigger] c.reads_arc(x, w.last(), y) && c.slides(
                    y,
                    b,
                );
            lemma_closed_same_run(g, a, w.drop_last(), x);
            lemma_closed_same_slides(g, y, b);
            assert(c.nodes[x].edges == g.nodes[x].edges);
            assert(g.reads_arc(x, w.last(), y));
        }
        if g.run(a, w, b) {
            let (x, y) = choose|x: int, y: int|
                g.run(a, w.drop_last(), x) && #[trigger] g.reads_arc(x, w.last(), y) && g.slides(
                    y,
                    b,
                );
            lemma_closed_same_run(g, a, w.drop_last(), x);
            lemma_closed_same_slides(g, y, b);
            assert(c.nodes[x].edges == g.nodes[x].edges);
            assert(c.reads_arc(x, w.last(), y));
        }
    }
}

/// Closing a graph under the arcs that read nothing keeps its language and
/// makes it saturated.
pub proof fn lemma_closed_language(g: Graph)
    requires
        g.closed(),
        g.nodes.len() <= usize::MAX,
    ensures
        g.epsilon_closed().saturated(),
        forall|w: Seq<char>| #[trigger] g.epsilon_closed().language(w) <==> g.language(w),
{
    let c = g.epsilon_closed();
    let eps = g.epsilon_lists();
    lemma_closed_facts(g);
    assert forall|w: Seq<char>| #[trigger] c.language(w) <==> g.language(w) by {
        if c.language(w) {
            let (s, f) = choose|s: int, f: int|
                c.start.contains(s as usize) && c.accept.contains(f as usize) && 0 <= s
                    < c.nodes.len() && 0 <= f < c.nodes.len() && #[trigger] c.run(s, w, f);
            lemma_closed_same_run(g, s, w, f);
            assert(reached_from(eps, g.start, s));
            let i = choose|i: int| 0 <= i < g.start.len() && reaches(eps, #[trigger] g.start[i] as int, s);
            let s0 = g.start[i];
            assert(g.start.contains(s0));
            lemma_slides_run(g, s0 as int, s, w, f);
            lemma_run_ends(g, s0 as int, w, f);
            assert(g.run(s0 as int, w, f));
        }
        if g.language(w) {
            let (s, f) = choose|s: int, f: int|
                g.start.contains(s as usize) && g.accept.contains(f as usize) && 0 <= s
                    < g.nodes.len() && 0 <= f < g.nodes.len() && #[trigger] g.run(s, w, f);
            lemma_closed_same_run(g, s, w, f);
            let i = choose|i: int| 0 <= i < g.start.len() && g.start[i] == s as usize;
            assert(path(eps, s, s, 0));
            assert(reaches(eps, g.start[i] as int, s));
            assert(reached_from(eps, g.start, s));
            assert(c.run(s, w, f));
        }
    }
    assert forall|a: int, b: int| #[trigger] c.slides(a, b) && a != b implies c.nodes[a].epsilons.contains(
        b as usize,
    ) by {
        lemma_closed_same_slides(g, a, b);
        let n = choose|n: nat| path(eps, a, b, n);
        lemma_path_ends(eps, a, b, n);
        let m = choose|m: int| #[trigger] arc(eps, a, m) && path(eps, m, b, (n - 1) as nat);
        assert(eps[a] == g.nodes[a].epsilons);
        let i = choose|i: int| 0 <= i < eps[a].len() && eps[a][i] == m as usize;
        assert(reaches(eps, g.nodes[a].epsilons[i] as int, b));
        assert(reached_from(eps, g.nodes[a].epsilons, b));
        assert(arc(c.epsilon_lists(), a, b));
        assert(c.epsilon_lists()[a] == c.nodes[a].epsilons);
    }
    assert forall|s: int, b: int|
        c.start.contains(s as usize) && 0 <= s < c.nodes.len() && #[trigger] c.slides(
            s,
            b,
        ) implies c.start.contains(b as usize) by {
        lemma_closed_same_slides(g, s, b);
        assert(reached_from(eps, g.start, s));
        let i = choose|i: int| 0 <= i < g.start.len() && reaches(eps, #[trigger] g.start[i] as int, s);
        let n = choose|n: nat| path(eps, g.start[i] as int, s, n);
        let m = choose|m: nat| path(eps, s, b, m);
        lemma_path_join(eps, g.start[i] as int, s, b, n, m);
        lemma_path_ends(eps, s, b, m);
        assert(reached_from(eps, g.start, b));
    }
}


/// Whether the graph `d` is the part of the graph `g` on the nodes
/// `origin`, each node of `d` standing for the node of `g` at its index in
/// `origin`: the arcs, the start nodes and the accepting nodes of `d` are
/// those of `g` among these nodes.
pub open spec fn embeds(d: Graph, g: Graph, origin: Seq<int>) -> bool {
    &&& origin.len() == d.nodes.len()
    &&& forall|k: int| 0 <= k < origin.len() ==> 0 <= #[trigger] origin[k] < g.nodes.len()
    &&& forall|j: int, k: int|
        0 <= j < origin.len() && 0 <= k < origin.len() && j != k ==> origin[j] != origin[k]
    &&& forall|a: int, b: int|
        0 <= a < origin.len() && 0 <= b < origin.len() ==> (#[trigger] arc(
            d.epsilon_lists(),
            a,
            b,
        ) <==> arc(g.epsilon_lists(), origin[a], origin[b]))
    &&& forall|a: int, c: char, b: int|
        0 <= a < origin.len() && 0 <= b < origin.len() ==> (#[trigger] d.reads_arc(a, c, b)
            <==> g.reads_arc(origin[a], c, origin[b]))
    &&& forall|k: int|
        0 <= k < origin.len() ==> (#[trigger] d.start.contains(k as usize) <==> g.start.contains(
            origin[k] as usize,
        ))
    &&& forall|k: int|
        0 <= k < origin.len() ==> (#[trigger] d.accept.contains(k as usize)
            <==> g.accept.contains(origin[k] as usize))
}

/// Whether `y` is one of `origin`.
pub open spec fn kept(origin: Seq<int>, y: int) -> bool {
    exists|k: int| 0 <= k < origin.len() && #[trigger] origin[k] == y
}

/// Whether every arc of `g` from a node of `origin` leads to a node of
/// `origin`.
pub open spec fn closed_forward(g: Graph, origin: Seq<int>) -> bool {
    &&& forall|a: int, b: int|
        kept(origin, a) && #[trigger] arc(g.epsilon_lists(), a, b) ==> kept(origin, b)
    &&& forall|a: int, c: char, b: int|
        kept(origin, a) && #[trigger] g.reads_arc(a, c, b) ==> kept(origin, b)
}

/// Whether every arc of `g` to a node of `origin` comes from a node of
/// `origin`.
pub open spec fn closed_backward(g: Graph, origin: Seq<int>) -> bool {
    &&& forall|a: int, b: int|
        kept(origin, b) && #[trigger] arc(g.epsilon_lists(), a, b) ==> kept(origin, a)
    &&& forall|a: int, c: char, b: int|
        kept(origin, b) && #[trigger] g.reads_arc(a, c, b) ==> kept(origin, a)
}

/// A path of the part is a path of the whole.
pub proof fn lemma_embeds_path(d: Graph, g: Graph, origin: Seq<int>, a: int, b: int, n: nat)
    requires
        embeds(d, g, origin),
        path(d.epsilon_lists(), a, b, n),
    ensures
        path(g.epsilon_lists(), origin[a], origin[b], n),
        0 <= a < origin.len(),
        0 <= b < origin.len(),
    decreases n,
{
    if n > 0 {
        let m = choose|m: int|
            #[trigger] arc(d.epsilon_lists(), a, m) && path(
                d.epsilon_lists(),
                m,
                b,
                (n - 1) as nat,
            );
        lemma_embeds_path(d, g, origin, m, b, (n - 1) as nat);
        assert(arc(g.epsilon_lists(), origin[a], origin[m]));
    }
}

/// A path of the whole from a node of the part, where the part is closed
/// forward, is a path of the part.
pub proof fn lemma_path_forward(d: Graph, g: Graph, origin: Seq<int>, a: int, y: int, n: nat) -> (b:
    int)
    requires
        embeds(d, g, origin),
        closed_forward(g, origin),
        0 <= a < origin.len(),
        path(g.epsilon_lists(), origin[a], y, n),
    ensures
        0 <= b < origin.len(),
        origin[b] == y,
        path(d.epsilon_lists(), a, b, n),
    decreases n,
{
    if n == 0 {
        a
    } else {
        let m = choose|m: int|
            #[trigger] arc(g.epsilon_lists(), origin[a], m) && path(
                g.epsilon_lists(),
                m,
                y,
                (n - 1) as nat,
            );
        assert(kept(origin, origin[a]));
        assert(kept(origin, m));
        let k = choose|k: int| 0 <= k < origin.len() && #[trigger] origin[k] == m;
        let b = lemma_path_forward(d, g, origin, k, y, (n - 1) as nat);
        assert(arc(d.epsilon_lists(), a, k));
        b
    }
}

/// A path of the whole to a node of the part, where the part is closed
/// backward, is a path of the part.
pub proof fn lemma_path_backward(d: Graph, g: Graph, origin: Seq<int>, x: int, b: int, n: nat) -> (a:
    int)
    requires
        embeds(d, g, origin),
        closed_backward(g, origin),
        0 <= b < origin.len(),
        path(g.epsilon_lists(), x, origin[b], n),
    ensures
        0 <= a < origin.len(),
        origin[a] == x,
        path(d.epsilon_lists(), a, b, n),
    decreases n,
{
    if n == 0 {
        b
    } else {
        let m = choose|m: int|
            #[trigger] arc(g.epsilon_lists(), x, m) && path(
                g.epsilon_lists(),
                m,
                origin[b],
                (n - 1) as nat,
            );
        let k = lemma_path_backward(d, g, origin, m, b, (n - 1) as nat);
        assert(kept(origin, origin[k]));
        assert(kept(origin, x));
        let a = choose|a: int| 0 <= a < origin.len() && #[trigger] origin[a] == x;
        assert(arc(d.epsilon_lists(), a, k));
        a
    }
}

/// A run of the part is a run of the whole.
pub proof fn lemma_embeds_run(d: Graph, g: Graph, origin: Seq<int>, a: int, w: Seq<char>, b: int)
    requires
        embeds(d, g, origin),
        d.run(a, w, b),
    ensures
        g.run(origin[a], w, origin[b]),
        0 <= a < origin.len(),
        0 <= b < origin.len(),
    decreases w.len(),
{
    if w.len() == 0 {
        let n = choose|n: nat| path(d.epsilon_lists(), a, b, n);
        lemma_embeds_path(d, g, origin, a, b, n);
    } else {
        let (x, y) = choose|x: int, y: int|
            d.run(a, w.drop_last(), x) && #[trigger] d.reads_arc(x, w.last(), y) && d.slides(y, b);
        lemma_embeds_run(d, g, origin, a, w.drop_last(), x);
        let n = choose|n: nat| path(d.epsilon_lists(), y, b, n);
        lemma_embeds_path(d, g, origin, y, b, n);
        assert(g.reads_arc(origin[x], w.last(), origin[y]));
        assert(g.slides(origin[y], origin[b]));
    }
}

/// A run of the whole from a node of the part, where the part is closed
/// forward, is a run of the part.
pub proof fn lemma_run_forward(d: Graph, g: Graph, origin: Seq<int>, a: int, w: Seq<char>, y: int) -> (b:
    int)
    requires
        embeds(d, g, origin),
        closed_forward(g, origin),
        0 <= a < origin.len(),
        g.run(origin[a], w, y),
    ensures
        0 <= b < origin.len(),
        origin[b] == y,
        d.run(a, w, b),
    decreases w.len(),
{
    if w.len() == 0 {
        let n = choose|n: nat| path(g.epsilon_lists(), origin[a], y, n);
        lemma_path_forward(d, g, origin, a, y, n)
    } else {
        let (p, q) = choose|p: int, q: int|
            g.run(origin[a], w.drop_last(), p) && #[trigger] g.reads_arc(p, w.last(), q)
                && g.slides(q, y);
        let x = lemma_run_forward(d, g, origin, a, w.drop_last(), p);
        assert(kept(origin, origin[x]));
        assert(kept(origin, q));
        let k = choose|k: int| 0 <= k < origin.len() && #[trigger] origin[k] == q;
        assert(d.reads_arc(x, w.last(), k));
        let n = choose|n: nat| path(g.epsilon_lists(), q, y, n);
        let b = lemma_path_forward(d, g, origin, k, y, n);
        assert(d.slides(k, b));
        assert(d.run(a, w.drop_last(), x) && d.reads_arc(x, w.last(), k) && d.slides(k, b));
        b
    }
}

/// A run of the whole to a node of the part, where the part is closed
/// backward, is a run of the part.
pub proof fn lemma_run_backward(d: Graph, g: Graph, origin: Seq<int>, x: int, w: Seq<char>, b: int) -> (a:
    int)
    requires
        embeds(d, g, origin),
        closed_backward(g, origin),
        0 <= b < origin.len(),
        g.run(x, w, origin[b]),
    ensures
        0 <= a < origin.len(),
        origin[a] == x,
        d.run(a, w, b),
    decreases w.len(),
{
    if w.len() == 0 {
        let n = choose|n: nat| path(g.epsilon_lists(), x, origin[b], n);
        lemma_path_backward(d, g, origin, x, b, n)
    } else {
        let (p, q) = choose|p: int, q: int|
            g.run(x, w.drop_last(), p) && #[trigger] g.reads_arc(p, w.last(), q) && g.slides(
                q,
                origin[b],
            );
        let n = choose|n: nat| path(g.epsilon_lists(), q, origin[b], n);
        let k = lemma_path_backward(d, g, origin, q, b, n);
        assert(d.slides(k, b));
        assert(kept(origin, origin[k]));
        assert(kept(origin, p));
        let j = choose|j: int| 0 <= j < origin.len() && #[trigger] origin[j] == p;
        assert(d.reads_arc(j, w.last(), k));
        let a = lemma_run_backward(d, g, origin, x, w.drop_last(), j);
        assert(d.run(a, w.drop_last(), j) && d.reads_arc(j, w.last(), k) && d.slides(k, b));
        a
    }
}

/// A part that holds the start nodes of the whole and is closed forward,
/// or holds its accepting nodes and is closed backward, has the language
/// of the whole.
pub proof fn lemma_embeds_language(d: Graph, g: Graph, origin: Seq<int>, w: Seq<char>)
    requires
        embeds(d, g, origin),
        g.nodes.len() <= usize::MAX,
        (closed_forward(g, origin) && forall|s: int|
            0 <= s < g.nodes.len() && g.start.contains(s as usize) ==> kept(origin, s)) || (
        closed_backward(g, origin) && forall|f: int|
            0 <= f < g.nodes.len() && g.accept.contains(f as usize) ==> kept(origin, f)),
    ensures
        d.language(w) <==> g.language(w),
{
    if d.language(w) {
        let (s, f) = choose|s: int, f: int|
            d.start.contains(s as usize) && d.accept.contains(f as usize) && 0 <= s
                < d.nodes.len() && 0 <= f < d.nodes.len() && #[trigger] d.run(s, w, f);
        lemma_embeds_run(d, g, origin, s, w, f);
        assert(g.start.contains(origin[s] as usize));
        assert(g.accept.contains(origin[f] as usize));
        assert(g.run(origin[s], w, origin[f]));
    }
    if g.language(w) {
        let (s, f) = choose|s: int, f: int|
            g.start.contains(s as usize) && g.accept.contains(f as usize) && 0 <= s
                < g.nodes.len() && 0 <= f < g.nodes.len() && #[trigger] g.run(s, w, f);
        if closed_forward(g, origin) && forall|s: int|
            0 <= s < g.nodes.len() && g.start.contains(s as usize) ==> kept(origin, s) {
            assert(kept(origin, s));
            let a = choose|a: int| 0 <= a < origin.len() && #[trigger] origin[a] == s;
            let b = lemma_run_forward(d, g, origin, a, w, f);
            assert(d.start.contains(a as usize));
            assert(d.accept.contains(b as usize));
            assert(d.run(a, w, b));
        } else {
            assert(kept(origin, f));
            let b = choose|b: int| 0 <= b < origin.len() && #[trigger] origin[b] == f;
            let a = lemma_run_backward(d, g, origin, s, w, b);
            assert(d.start.contains(a as usize));
            assert(d.accept.contains(b as usize));
            assert(d.run(a, w, b));
        }
    }
}

/// A part of a saturated graph is saturated.
pub proof fn lemma_embeds_saturated(d: Graph, g: Graph, origin: Seq<int>)
    requires
        embeds(d, g, origin),
        g.saturated(),
        g.nodes.len() <= usize::MAX,
    ensures
        d.saturated(),
{
    assert forall|a: int, b: int| #[trigger] d.slides(a, b) && a != b implies d.nodes[a].epsilons.contains(
        b as usize,
    ) by {
        let n = choose|n: nat| path(d.epsilon_lists(), a, b, n);
        lemma_embeds_path(d, g, origin, a, b, n);
        assert(g.slides(origin[a], origin[b]));
        assert(g.nodes[origin[a]].epsilons.contains(origin[b] as usize));
        assert(g.epsilon_lists()[origin[a]] == g.nodes[origin[a]].epsilons);
        assert(arc(g.epsilon_lists(), origin[a], origin[b]));
        assert(arc(d.epsilon_lists(), a, b));
        assert(d.epsilon_lists()[a] == d.nodes[a].epsilons);
    }
    assert forall|s: int, b: int|
        d.start.contains(s as usize) && 0 <= s < d.nodes.len() && #[trigger] d.slides(
            s,
            b,
        ) implies d.start.contains(b as usize) by {
        let n = choose|n: nat| path(d.epsilon_lists(), s, b, n);
        lemma_embeds_path(d, g, origin, s, b, n);
        assert(g.slides(origin[s], origin[b]));
        assert(g.start.contains(origin[s] as usize));
        assert(g.start.contains(origin[b] as usize));
    }
}


/// The index that the node `y` of a graph without the node `x` had before
/// `x` was removed, where `last` was the last index.
pub open spec fn before_removal(x: usize, last: usize, y: int) -> int {
    if y == x {
        last as int
    } else {
        y
    }
}

/// A renamed list holds a node exactly where the list held the node that
/// it was before the removal.
pub proof fn lemma_renamed_contains(list: Seq<usize>, x: usize, last: usize, y: usize)
    requires
        below(list, (last + 1) as nat),
        x <= last,
        y < last,
    ensures
        renamed(list, x, last).contains(y) <==> list.contains(
            before_removal(x, last, y as int) as usize,
        ),
    decreases list.len(),
{
    let z = before_removal(x, last, y as int) as usize;
    let r = renamed(list, x, last);
    if list.len() > 0 {
        let front = list.drop_last();
        let rf = renamed(front, x, last);
        assert(below(front, (last + 1) as nat)) by {
            assert forall|i: int| 0 <= i < front.len() implies (#[trigger] front[i]) < last + 1 by {
                assert(front[i] == list[i]);
            }
        }
        lemma_renamed_contains(front, x, last, y);
        let e = list.last();
        assert(list[list.len() - 1] == e);
        if list.contains(z) {
            let i = choose|i: int| 0 <= i < list.len() && list[i] == z;
            if i < front.len() {
                assert(front[i] == z);
                assert(rf.contains(y));
                let j = choose|j: int| 0 <= j < rf.len() && rf[j] == y;
                if e != x {
                    assert(r[j] == y);
                }
            } else {
                assert(e == z);
                assert(r[r.len() - 1] == y);
            }
        }
        if r.contains(y) {
            let j = choose|j: int| 0 <= j < r.len() && r[j] == y;
            if e == x {
                assert(rf.contains(y));
            } else if j < rf.len() {
                assert(rf[j] == y);
                assert(rf.contains(y));
            } else {
                assert(e == z);
            }
            if rf.contains(y) {
                let i = choose|i: int| 0 <= i < front.len() && front[i] == z;
                assert(list[i] == z);
            }
        }
    }
}

/// Renamed arcs read a code point and lead to a node exactly where the
/// arcs did and led to the node that it was before the removal.
pub proof fn lemma_renamed_edges_read(edges: Seq<NfaEdge>, x: usize, last: usize, c: char, y: usize)
    requires
        below(targets(edges), (last + 1) as nat),
        x <= last,
        y < last,
    ensures
        (exists|i: int|
            0 <= i < renamed_edges(edges, x, last).len() && reads(
                #[trigger] renamed_edges(edges, x, last)[i],
                c,
            ) && renamed_edges(edges, x, last)[i].2 == y) <==> (exists|i: int|
            0 <= i < edges.len() && reads(#[trigger] edges[i], c) && edges[i].2
                == before_removal(x, last, y as int)),
    decreases edges.len(),
{
    let z = before_removal(x, last, y as int);
    let r = renamed_edges(edges, x, last);
    if edges.len() > 0 {
        let front = edges.drop_last();
        let rf = renamed_edges(front, x, last);
        assert(below(targets(front), (last + 1) as nat)) by {
            assert forall|i: int| 0 <= i < targets(front).len() implies (#[trigger] targets(
                front,
            )[i]) < last + 1 by {
                assert(targets(front)[i] == targets(edges)[i]);
            }
        }
        lemma_renamed_edges_read(front, x, last, c, y);
        let e = edges.last();
        assert(edges[edges.len() - 1] == e);
        assert(targets(edges)[edges.len() - 1] == e.2);
        if exists|i: int| 0 <= i < edges.len() && reads(#[trigger] edges[i], c) && edges[i].2 == z {
            let i = choose|i: int|
                0 <= i < edges.len() && reads(#[trigger] edges[i], c) && edges[i].2 == z;
            if i < front.len() {
                assert(front[i] == edges[i]);
                let j = choose|j: int|
                    0 <= j < rf.len() && reads(#[trigger] rf[j], c) && rf[j].2 == y;
                if e.2 != x {
                    assert(r[j] == rf[j]);
                }
                assert(reads(r[j], c) && r[j].2 == y);
            } else {
                assert(reads(r[r.len() - 1], c) && r[r.len() - 1].2 == y);
            }
        }
        if exists|j: int| 0 <= j < r.len() && reads(#[trigger] r[j], c) && r[j].2 == y {
            let j = choose|j: int| 0 <= j < r.len() && reads(#[trigger] r[j], c) && r[j].2 == y;
            if e.2 != x && j == rf.len() {
                assert(reads(edges[edges.len() - 1], c) && edges[edges.len() - 1].2 == z);
            } else {
                assert(rf[j] == r[j]);
                let i = choose|i: int|
                    0 <= i < front.len() && reads(#[trigger] front[i], c) && front[i].2 == z;
                assert(edges[i] == front[i]);
                assert(reads(edges[i], c) && edges[i].2 == z);
            }
        }
    }
}

/// For each node of a graph without the node `x`, the index that it had
/// before `x` was removed.
pub open spec fn removal_origin(n: nat, x: usize) -> Seq<int> {
    Seq::new((n - 1) as nat, |k: int| before_removal(x, (n - 1) as usize, k))
}

/// A graph without a node is the part of the graph on the other nodes.
pub proof fn lemma_remove_embeds(g: Graph, x: usize)
    requires
        g.closed(),
        x < g.nodes.len(),
        g.nodes.len() <= usize::MAX,
    ensures
        embeds(g.remove(x), g, removal_origin(g.nodes.len(), x)),
        forall|y: int|
            kept(removal_origin(g.nodes.len(), x), y) <==> 0 <= y < g.nodes.len() && y != x,
{
    let n = g.nodes.len();
    let last = (n - 1) as usize;
    let d = g.remove(x);
    let origin = removal_origin(n, x);
    assert forall|y: int| kept(origin, y) <==> 0 <= y < n && y != x by {
        if 0 <= y < n && y != x {
            if y == last {
                assert(origin[x as int] == y);
            } else {
                assert(origin[y] == y);
            }
        }
    }
    assert forall|a: int, b: int| 0 <= a < origin.len() && 0 <= b < origin.len() implies (
    #[trigger] arc(d.epsilon_lists(), a, b) <==> arc(g.epsilon_lists(), origin[a], origin[b])) by {
        let node = g.nodes[origin[a]];
        assert(node.closed(n));
        lemma_renamed_contains(node.epsilons, x, last, b as usize);
        assert(d.epsilon_lists()[a] == d.nodes[a].epsilons);
        assert(g.epsilon_lists()[origin[a]] == node.epsilons);
    }
    assert forall|a: int, c: char, b: int| 0 <= a < origin.len() && 0 <= b < origin.len() implies (
    #[trigger] d.reads_arc(a, c, b) <==> g.reads_arc(origin[a], c, origin[b])) by {
        let node = g.nodes[origin[a]];
        assert(node.closed(n));
        lemma_renamed_edges_read(node.edges, x, last, c, b as usize);
        let r = renamed_edges(node.edges, x, last);
        assert(d.nodes[a].edges == r);
        assert(origin[b] == before_removal(x, last, b));
        if d.reads_arc(a, c, b) {
            let i = choose|i: int|
                0 <= i < d.nodes[a].edges.len() && reads(#[trigger] d.nodes[a].edges[i], c)
                    && d.nodes[a].edges[i].2 == b;
            assert(reads(r[i], c) && r[i].2 == b as usize);
            let j = choose|j: int|
                0 <= j < node.edges.len() && reads(#[trigger] node.edges[j], c) && node.edges[j].2
                    == before_removal(x, last, b);
            assert(reads(g.nodes[origin[a]].edges[j], c));
        }
        if g.reads_arc(origin[a], c, origin[b]) {
            let j = choose|j: int|
                0 <= j < node.edges.len() && reads(#[trigger] node.edges[j], c) && node.edges[j].2
                    == origin[b];
            let i = choose|i: int| 0 <= i < r.len() && reads(#[trigger] r[i], c) && r[i].2 == b as usize;
            assert(reads(d.nodes[a].edges[i], c) && d.nodes[a].edges[i].2 == b);
        }
    }
    assert forall|k: int| 0 <= k < origin.len() implies (#[trigger] d.start.contains(k as usize)
        <==> g.start.contains(origin[k] as usize)) by {
        lemma_renamed_contains(g.start, x, last, k as usize);
    }
    assert forall|k: int| 0 <= k < origin.len() implies (#[trigger] d.accept.contains(k as usize)
        <==> g.accept.contains(origin[k] as usize)) by {
        lemma_renamed_contains(g.accept, x, last, k as usize);
    }
}

/// For each index of `inner`, the item of `outer` at the index that
/// `inner` gives.
pub open spec fn composed(inner: Seq<int>, outer: Seq<int>) -> Seq<int> {
    Seq::new(inner.len(), |k: int| outer[inner[k]])
}

/// A part of a part is a part.
pub proof fn lemma_embeds_compose(d: Graph, h: Graph, g: Graph, inner: Seq<int>, outer: Seq<int>)
    requires
        embeds(d, h, inner),
        embeds(h, g, outer),
    ensures
        embeds(d, g, composed(inner, outer)),
        forall|y: int|
            #[trigger] kept(composed(inner, outer), y) <==> exists|m: int|
                0 <= m < outer.len() && #[trigger] outer[m] == y && kept(inner, m),
{
    let origin = composed(inner, outer);
    assert forall|y: int|
        #[trigger] kept(origin, y) <==> exists|m: int|
            0 <= m < outer.len() && #[trigger] outer[m] == y && kept(inner, m) by {
        if kept(origin, y) {
            let k = choose|k: int| 0 <= k < origin.len() && #[trigger] origin[k] == y;
            assert(kept(inner, inner[k]));
            assert(outer[inner[k]] == y);
        }
        if exists|m: int| 0 <= m < outer.len() && #[trigger] outer[m] == y && kept(inner, m) {
            let m = choose|m: int| 0 <= m < outer.len() && #[trigger] outer[m] == y && kept(inner, m);
            let k = choose|k: int| 0 <= k < inner.len() && #[trigger] inner[k] == m;
            assert(origin[k] == y);
        }
    }
    assert forall|a: int, b: int| 0 <= a < origin.len() && 0 <= b < origin.len() implies (
    #[trigger] arc(d.epsilon_lists(), a, b) <==> arc(g.epsilon_lists(), origin[a], origin[b])) by {
        assert(arc(d.epsilon_lists(), a, b) <==> arc(h.epsilon_lists(), inner[a], inner[b]));
        assert(arc(h.epsilon_lists(), inner[a], inner[b]) <==> arc(
            g.epsilon_lists(),
            outer[inner[a]],
            outer[inner[b]],
        ));
    }
    assert forall|a: int, c: char, b: int| 0 <= a < origin.len() && 0 <= b < origin.len() implies (
    #[trigger] d.reads_arc(a, c, b) <==> g.reads_arc(origin[a], c, origin[b])) by {
        assert(d.reads_arc(a, c, b) <==> h.reads_arc(inner[a], c, inner[b]));
        assert(h.reads_arc(inner[a], c, inner[b]) <==> g.reads_arc(
            outer[inner[a]],
            c,
            outer[inner[b]],
        ));
    }
    assert forall|k: int| 0 <= k < origin.len() implies (#[trigger] d.start.contains(k as usize)
        <==> g.start.contains(origin[k] as usize)) by {
        assert(d.start.contains(k as usize) <==> h.start.contains(inner[k] as usize));
        assert(h.start.contains(inner[k] as usize) <==> g.start.contains(
            outer[inner[k]] as usize,
        ));
    }
    assert forall|k: int| 0 <= k < origin.len() implies (#[trigger] d.accept.contains(k as usize)
        <==> g.accept.contains(origin[k] as usize)) by {
        assert(d.accept.contains(k as usize) <==> h.accept.contains(inner[k] as usize));
        assert(h.accept.contains(inner[k] as usize) <==> g.accept.contains(
            outer[inner[k]] as usize,
        ));
    }
    assert forall|j: int, k: int|
        0 <= j < origin.len() && 0 <= k < origin.len() && j != k implies origin[j] != origin[k] by {
        assert(inner[j] != inner[k]);
    }
}

/// For each node of a pruned graph of `n` nodes, the index that it had
/// before the pruning.
pub open spec fn origins(n: nat, marks: Seq<bool>, i: nat) -> Seq<int>
    decreases i,
{
    if i == 0 || i > marks.len() || n == 0 {
        Seq::new(n, |k: int| k)
    } else if marks[i - 1] {
        origins(n, marks, (i - 1) as nat)
    } else {
        let inner = origins((n - 1) as nat, swap_removed(marks, i - 1), (i - 1) as nat);
        let outer = removal_origin(n, (i - 1) as usize);
        composed(inner, outer)
    }
}

/// A pruned graph is the part of the graph on the nodes that are marked,
/// and on those that the pruning has not come to.
pub proof fn lemma_pruned_embeds(g: Graph, marks: Seq<bool>, i: nat)
    requires
        g.closed(),
        marks.len() == g.nodes.len(),
        i <= marks.len(),
        g.nodes.len() <= usize::MAX,
    ensures
        embeds(g.pruned(marks, i), g, origins(g.nodes.len(), marks, i)),
        forall|y: int|
            #[trigger] kept(origins(g.nodes.len(), marks, i), y) <==> 0 <= y < g.nodes.len() && (y
                >= i || marks[y]),
    decreases i,
{
    let n = g.nodes.len();
    let origin = origins(n, marks, i);
    if i == 0 || n == 0 {
        assert forall|y: int| #[trigger] kept(origin, y) <==> 0 <= y < n && (y >= i || marks[y]) by {
            if 0 <= y < n {
                assert(origin[y] == y);
            }
        }
        assert(embeds(g, g, origin));
    } else if marks[i - 1] {
        lemma_pruned_embeds(g, marks, (i - 1) as nat);
    } else {
        let x = (i - 1) as usize;
        let h = g.remove(x);
        let rest = swap_removed(marks, i - 1);
        crate::lex::nfa::lemma_remove_closed(g, x);
        lemma_pruned_embeds(h, rest, (i - 1) as nat);
        lemma_remove_embeds(g, x);
        let inner = origins((n - 1) as nat, rest, (i - 1) as nat);
        let outer = removal_origin(n, x);
        lemma_embeds_compose(h.pruned(rest, (i - 1) as nat), h, g, inner, outer);
        assert(h.nodes.len() == n - 1);
        assert(origin == composed(inner, outer));
        assert(inner == origins(h.nodes.len(), rest, (i - 1) as nat));
        assert forall|y: int| #[trigger] kept(origin, y) <==> 0 <= y < n && (y >= i || marks[y]) by {
            if kept(origin, y) {
                assert(kept(composed(inner, outer), y));
                let m = choose|m: int|
                    0 <= m < outer.len() && #[trigger] outer[m] == y && kept(inner, m);
                assert(kept(outer, y));
                assert(0 <= m < n - 1 && (m >= i - 1 || rest[m]));
                if m < i - 1 {
                    assert(rest[m] == marks[m]);
                    assert(y == m);
                }
            }
            if 0 <= y < n && (y >= i || marks[y]) {
                assert(y != x);
                let m = if y == n - 1 {
                    x as int
                } else {
                    y
                };
                assert(0 <= m < n - 1);
                assert(outer[m] == y);
                if m < i - 1 {
                    assert(rest[m] == marks[m]);
                }
                assert(m >= i - 1 || rest[m]);
                assert(kept(origins(h.nodes.len(), rest, (i - 1) as nat), m) <==> 0 <= m
                    < h.nodes.len() && (m >= (i - 1) as nat || rest[m]));
                assert(kept(inner, m));
                assert(kept(composed(inner, outer), y));
            }
        }
    }
}


/// An arc of either kind is an arc of the graph of all arcs.
pub proof fn lemma_forward_arcs(g: Graph, a: int, b: int)
    requires
        0 <= a < g.nodes.len(),
        0 <= b < g.nodes.len(),
        g.nodes.len() <= usize::MAX,
    ensures
        arc(g.epsilon_lists(), a, b) ==> arc(g.forward(), a, b),
        forall|c: char| #[trigger] g.reads_arc(a, c, b) ==> arc(g.forward(), a, b),
{
    let t = targets(g.nodes[a].edges);
    let e = g.nodes[a].epsilons;
    assert(g.forward()[a] == t + e);
    if arc(g.epsilon_lists(), a, b) {
        assert(g.epsilon_lists()[a] == e);
        let i = choose|i: int| 0 <= i < e.len() && e[i] == b as usize;
        assert((t + e)[t.len() + i] == b as usize);
    }
    assert forall|c: char| #[trigger] g.reads_arc(a, c, b) implies arc(g.forward(), a, b) by {
        let i = choose|i: int|
            0 <= i < g.nodes[a].edges.len() && reads(#[trigger] g.nodes[a].edges[i], c)
                && g.nodes[a].edges[i].2 == b;
        assert(t[i] == b as usize);
        assert((t + e)[i] == b as usize);
    }
}

/// A graph without the nodes that no start node reaches has the language
/// of the graph.
pub proof fn lemma_without_unreachable(g: Graph, w: Seq<char>)
    requires
        g.closed(),
        g.nodes.len() <= usize::MAX,
    ensures
        g.without_unreachable().closed(),
        g.without_unreachable().nodes.len() <= g.nodes.len(),
        g.without_unreachable().language(w) <==> g.language(w),
        g.saturated() ==> g.without_unreachable().saturated(),
{
    let n = g.nodes.len();
    let marks = Seq::new(n, |b: int| g.reachable(b));
    let d = g.without_unreachable();
    let origin = origins(n, marks, n);
    lemma_pruned_closed(g, marks, n);
    lemma_pruned_embeds(g, marks, n);
    assert forall|y: int| kept(origin, y) <==> 0 <= y < n && g.reachable(y) by {
        if 0 <= y < n {
            assert(marks[y] == g.reachable(y));
        }
    }
    assert(closed_forward(g, origin)) by {
        assert forall|a: int, b: int|
            kept(origin, a) && #[trigger] arc(g.epsilon_lists(), a, b) implies kept(origin, b) by {
            lemma_forward_arcs(g, a, b);
            lemma_reached_extend(g.forward(), g.start, a, b);
        }
        assert forall|a: int, c: char, b: int|
            kept(origin, a) && #[trigger] g.reads_arc(a, c, b) implies kept(origin, b) by {
            lemma_forward_arcs(g, a, b);
            lemma_reached_extend(g.forward(), g.start, a, b);
        }
    }
    assert forall|s: int| 0 <= s < n && g.start.contains(s as usize) implies kept(origin, s) by {
        let i = choose|i: int| 0 <= i < g.start.len() && g.start[i] == s as usize;
        assert(path(g.forward(), s, s, 0));
        assert(reaches(g.forward(), g.start[i] as int, s));
        assert(g.reachable(s));
    }
    lemma_embeds_language(d, g, origin, w);
    if g.saturated() {
        lemma_embeds_saturated(d, g, origin);
    }
}

/// A graph without the nodes that reach no accepting node has the language
/// of the graph.
pub proof fn lemma_without_dead(g: Graph, w: Seq<char>)
    requires
        g.closed(),
        g.nodes.len() <= usize::MAX,
    ensures
        g.without_dead().closed(),
        g.without_dead().nodes.len() <= g.nodes.len(),
        g.without_dead().language(w) <==> g.language(w),
        g.saturated() ==> g.without_dead().saturated(),
{
    let n = g.nodes.len();
    let marks = Seq::new(n, |b: int| g.live(b));
    let d = g.without_dead();
    let origin = origins(n, marks, n);
    lemma_pruned_closed(g, marks, n);
    lemma_pruned_embeds(g, marks, n);
    assert forall|y: int| kept(origin, y) <==> 0 <= y < n && g.live(y) by {
        if 0 <= y < n {
            assert(marks[y] == g.live(y));
        }
    }
    assert(closed_backward(g, origin)) by {
        assert forall|a: int, b: int|
            kept(origin, b) && #[trigger] arc(g.epsilon_lists(), a, b) implies kept(origin, a) by {
            lemma_forward_arcs(g, a, b);
            lemma_live_before(g, a, b);
        }
        assert forall|a: int, c: char, b: int|
            kept(origin, b) && #[trigger] g.reads_arc(a, c, b) implies kept(origin, a) by {
            lemma_forward_arcs(g, a, b);
            lemma_live_before(g, a, b);
        }
    }
    assert forall|f: int| 0 <= f < n && g.accept.contains(f as usize) implies kept(origin, f) by {
        let i = choose|i: int| 0 <= i < g.accept.len() && g.accept[i] == f as usize;
        assert(path(g.forward(), f, f, 0));
        assert(reaches(g.forward(), f, g.accept[i] as int));
        assert(g.live(f));
    }
    lemma_embeds_language(d, g, origin, w);
    if g.saturated() {
        lemma_embeds_saturated(d, g, origin);
    }
}

/// A node with an arc to a node that reaches an accepting node reaches
/// one.
pub proof fn lemma_live_before(g: Graph, a: int, b: int)
    requires
        arc(g.forward(), a, b),
        g.live(b),
    ensures
        g.live(a),
{
    let i = choose|i: int|
        0 <= i < g.accept.len() && reaches(g.forward(), b, #[trigger] g.accept[i] as int);
    let n = choose|n: nat| path(g.forward(), b, g.accept[i] as int, n);
    assert(path(g.forward(), a, g.accept[i] as int, n + 1));
    assert(reaches(g.forward(), a, g.accept[i] as int));
}

/// The indices of the `true` items of `marks` are each there once.
pub proof fn lemma_marked_distinct(marks: Seq<bool>)
    requires
        marks.len() <= usize::MAX,
    ensures
        marked(marks).no_duplicates(),
    decreases marks.len(),
{
    if marks.len() > 0 {
        let rest = marks.drop_last();
        lemma_marked_distinct(rest);
        lemma_marked(rest);
        let m = marked(marks);
        let r = marked(rest);
        assert forall|i: int, j: int| 0 <= i < m.len() && 0 <= j < m.len() && i != j implies m[i]
            != m[j] by {
            if i < r.len() {
                assert(m[i] == r[i]);
                assert(r[i] < rest.len());
            }
            if j < r.len() {
                assert(m[j] == r[j]);
                assert(r[j] < rest.len());
            }
        }
    }
}

/// A renamed list names each node once where the list did.
pub proof fn lemma_renamed_distinct(list: Seq<usize>, x: usize, last: usize)
    requires
        below(list, (last + 1) as nat),
        x <= last,
        list.no_duplicates(),
    ensures
        renamed(list, x, last).no_duplicates(),
    decreases list.len(),
{
    if list.len() > 0 {
        let front = list.drop_last();
        let e = list.last();
        assert(below(front, (last + 1) as nat)) by {
            assert forall|i: int| 0 <= i < front.len() implies (#[trigger] front[i]) < last + 1 by {
                assert(front[i] == list[i]);
            }
        }
        assert(front.no_duplicates()) by {
            assert forall|i: int, j: int|
                0 <= i < front.len() && 0 <= j < front.len() && i != j implies front[i] != front[j] by {
                assert(front[i] == list[i] && front[j] == list[j]);
            }
        }
        lemma_renamed_distinct(front, x, last);
        let rf = renamed(front, x, last);
        let r = renamed(list, x, last);
        assert(list[list.len() - 1] == e);
        assert(!front.contains(e)) by {
            if front.contains(e) {
                let i = choose|i: int| 0 <= i < front.len() && front[i] == e;
                assert(list[i] == e);
            }
        }
        if e != x {
            let y = if e == last {
                x
            } else {
                e
            };
            lemma_renamed_contains(front, x, last, y);
            assert(!rf.contains(y));
            assert forall|i: int, j: int| 0 <= i < r.len() && 0 <= j < r.len() && i != j implies r[i]
                != r[j] by {
                if i < rf.len() {
                    assert(r[i] == rf[i]);
                    assert(rf.contains(rf[i]));
                }
                if j < rf.len() {
                    assert(r[j] == rf[j]);
                    assert(rf.contains(rf[j]));
                }
            }
        }
    }
}

/// Pruning a graph whose start nodes and accepting nodes are each named
/// once leaves them each named once.
pub proof fn lemma_pruned_distinct(g: Graph, marks: Seq<bool>, i: nat)
    requires
        g.closed(),
        marks.len() == g.nodes.len(),
        i <= marks.len(),
        g.nodes.len() <= usize::MAX,
        g.start.no_duplicates(),
        g.accept.no_duplicates(),
    ensures
        g.pruned(marks, i).start.no_duplicates(),
        g.pruned(marks, i).accept.no_duplicates(),
    decreases i,
{
    if i > 0 {
        if marks[i - 1] {
            lemma_pruned_distinct(g, marks, (i - 1) as nat);
        } else {
            let last = (g.nodes.len() - 1) as usize;
            crate::lex::nfa::lemma_remove_closed(g, (i - 1) as usize);
            lemma_renamed_distinct(g.start, (i - 1) as usize, last);
            lemma_renamed_distinct(g.accept, (i - 1) as usize, last);
            lemma_pruned_distinct(
                g.remove((i - 1) as usize),
                swap_removed(marks, i - 1),
                (i - 1) as nat,
            );
        }
    }
}

/// Optimization keeps the language, and the simulation of an optimized
/// graph accepts it: after the code points of `w`, an accepting node is
/// active exactly when a path of the graph before optimization, from a
/// start node to an accepting node, reads `w`. An optimized graph names
/// each start node and each accepting node once.
pub proof fn law_optimized(g: Graph, w: Seq<char>)
    requires
        g.closed(),
        g.nodes.len() <= usize::MAX,
    ensures
        g.optimized().closed(),
        g.optimized().saturated(),
        g.optimized().nodes.len() <= g.nodes.len(),
        g.optimized().start.no_duplicates(),
        g.optimized().accept.no_duplicates(),
        g.optimized().language(w) <==> g.language(w),
        g.optimized().accepts(w) <==> g.language(w),
{
    let c = g.epsilon_closed();
    lemma_epsilon_closed(g);
    lemma_closed_language(g);
    lemma_closed_facts(g);
    lemma_without_unreachable(c, w);
    let u = c.without_unreachable();
    lemma_without_dead(u, w);
    law_simulation(g.optimized(), w);
    lemma_marked_distinct(
        Seq::new(g.nodes.len(), |b: int| reached_from(g.epsilon_lists(), g.start, b)),
    );
    lemma_marked_distinct(Seq::new(g.nodes.len(), |b: int| g.accept.contains(b as usize)));
    lemma_pruned_distinct(c, Seq::new(c.nodes.len(), |b: int| c.reachable(b)), c.nodes.len());
    lemma_pruned_distinct(u, Seq::new(u.nodes.len(), |b: int| u.live(b)), u.nodes.len());
}

} // verus!
