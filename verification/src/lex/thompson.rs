use crate::lex::alive::all_in_order;
use crate::lex::alive::law_dead_is_exact;
use crate::lex::alive::lemma_optimized_ordered;
use crate::lex::nfa::exits;
use crate::lex::nfa::lemma_exits;
use crate::lex::nfa::lemma_merge_closed;
use crate::lex::nfa::reads;
use crate::lex::nfa::shifted;
use crate::lex::nfa::shifted_edges;
use crate::lex::nfa::Graph;
use crate::lex::regex::star_graph;
use crate::lex::regex::two_nodes;
use crate::lex::regex::Pattern;
use crate::lex::paths::law_optimized;
use crate::lexer::language::law_accept_is_membership;
use crate::lexer::language::lemma_one_of;
use crate::lexer::regex::lemma_none_of;
use crate::lexer::scan::Automaton;
use crate::lex::regex::all_gaps;
use crate::lex::regex::inner_gaps;
use crate::lex::regex::none_of_graph;
use crate::lex::regex::range_graph;
use crate::lex::regex::ranges_graph;
use crate::lexer::language::next_code;
use crate::lexer::language::prev_code;
use crate::lexer::language::sorted_of;
use crate::lexer::regex::in_gap;
use crate::lexer::regex::lemma_absent_in_sorted;
use crate::lexer::regex::lemma_between;
use crate::lexer::regex::lemma_gap_step;
use crate::lexer::regex::lemma_sorted_of;
use crate::lexer::regex::strictly_increasing;
use crate::lex::regex::one_of_graph;
use crate::lex::nfa::overlapping;
use crate::lexer::language::in_range;
use crate::lexer::language::lemma_char;
use crate::lexer::language::lemma_star_append;
use crate::lexer::language::Re;
use crate::lex::paths::lemma_slides_join;
use crate::lexer::nfa::edge_count;
use crate::lexer::nfa::joined_concat;
use crate::lexer::nfa::node_count;
use crate::lexer::nfa::thompson;
use crate::lexer::nfa::joined_star;
use crate::lexer::nfa::joined_union;
use crate::lex::nfa::NfaEdge;
use crate::lex::paths::lemma_run_ends;
use crate::lex::paths::lemma_run_slides;
use crate::lex::paths::lemma_slides_run;
use crate::lex::paths::lemma_slides_self;
use crate::utils::reach::arc;
use crate::utils::reach::below;
use crate::utils::reach::path;
use vstd::prelude::*;

verus! {

impl Graph {
    /// Whether an arc that reads nothing leads from the node `a` to the
    /// node `b`.
    pub open spec fn slips(self, a: int, b: int) -> bool {
        arc(self.epsilon_lists(), a, b)
    }
}

/// One arc that reads nothing is a path that reads nothing.
pub proof fn lemma_slip(g: Graph, a: int, b: int)
    requires
        g.slips(a, b),
    ensures
        g.slides(a, b),
{
    let eps = g.epsilon_lists();
    assert(arc(eps, a, b) && path(eps, b, b, 0));
    assert(path(eps, a, b, 1));
}

/// A run goes on along an arc that reads a code point.
pub proof fn lemma_run_read(g: Graph, a: int, w: Seq<char>, x: int, c: char, y: int)
    requires
        g.run(a, w, x),
        g.reads_arc(x, c, y),
    ensures
        g.run(a, w.push(c), y),
{
    lemma_slides_self(g, y);
    let v = w.push(c);
    assert(v.drop_last() =~= w);
    assert(g.run(a, v.drop_last(), x) && g.reads_arc(x, v.last(), y) && g.slides(y, y));
}

/// Two runs join, and read the first string followed by the second.
pub proof fn lemma_run_join(g: Graph, a: int, u: Seq<char>, b: int, v: Seq<char>, c: int)
    requires
        g.run(a, u, b),
        g.run(b, v, c),
    ensures
        g.run(a, u + v, c),
    decreases v.len(),
{
    if v.len() == 0 {
        assert(u + v =~= u);
        lemma_run_slides(g, a, u, b, c);
    } else {
        let (x, y) = choose|x: int, y: int|
            g.run(b, v.drop_last(), x) && #[trigger] g.reads_arc(x, v.last(), y) && g.slides(y, c);
        lemma_run_join(g, a, u, b, v.drop_last(), x);
        let w = u + v;
        assert(w.drop_last() =~= u + v.drop_last());
        assert(g.run(a, w.drop_last(), x) && g.reads_arc(x, w.last(), y) && g.slides(y, c));
    }
}

/// What holds at the start of a path that reads nothing, and goes on
/// holding along every such arc, holds at its end.
proof fn lemma_slide_invariant(
    g: Graph,
    inv: spec_fn(Seq<char>, int) -> bool,
    u: Seq<char>,
    a: int,
    b: int,
    n: nat,
)
    requires
        path(g.epsilon_lists(), a, b, n),
        inv(u, a),
        forall|v: Seq<char>, x: int, y: int|
            #![trigger inv(v, x), g.slips(x, y)]
            inv(v, x) && g.slips(x, y) ==> inv(v, y),
    ensures
        inv(u, b),
    decreases n,
{
    if n > 0 {
        let eps = g.epsilon_lists();
        let m = choose|m: int| #[trigger] arc(eps, a, m) && path(eps, m, b, (n - 1) as nat);
        assert(g.slips(a, m));
        lemma_slide_invariant(g, inv, u, m, b, (n - 1) as nat);
    }
}

/// What holds of the empty string at the node `s`, and goes on holding
/// along every arc, of the string read so far, holds of every run from
/// `s`.
pub proof fn lemma_run_invariant(
    g: Graph,
    s: int,
    inv: spec_fn(Seq<char>, int) -> bool,
    w: Seq<char>,
    b: int,
)
    requires
        g.run(s, w, b),
        inv(Seq::empty(), s),
        forall|v: Seq<char>, x: int, y: int|
            #![trigger inv(v, x), g.slips(x, y)]
            inv(v, x) && g.slips(x, y) ==> inv(v, y),
        forall|v: Seq<char>, x: int, c: char, y: int|
            #![trigger inv(v, x), g.reads_arc(x, c, y)]
            inv(v, x) && g.reads_arc(x, c, y) ==> inv(v.push(c), y),
    ensures
        inv(w, b),
    decreases w.len(),
{
    let eps = g.epsilon_lists();
    if w.len() == 0 {
        assert(w =~= Seq::empty());
        let n = choose|n: nat| path(eps, s, b, n);
        lemma_slide_invariant(g, inv, w, s, b, n);
    } else {
        let (x, y) = choose|x: int, y: int|
            g.run(s, w.drop_last(), x) && #[trigger] g.reads_arc(x, w.last(), y) && g.slides(y, b);
        lemma_run_invariant(g, s, inv, w.drop_last(), x);
        assert(w.drop_last().push(w.last()) =~= w);
        assert(inv(w, y));
        let n = choose|n: nat| path(eps, y, b, n);
        lemma_slide_invariant(g, inv, w, y, b, n);
    }
}

/// A run of `h` is a run of a graph that holds the arcs of `h` with `base`
/// added to every node.
pub proof fn lemma_run_copy(h: Graph, m: Graph, base: int, a: int, w: Seq<char>, b: int)
    requires
        h.run(a, w, b),
        0 <= base,
        base + h.nodes.len() <= m.nodes.len(),
        forall|x: int, y: int| #[trigger] h.slips(x, y) ==> m.slips(x + base, y + base),
        forall|x: int, c: char, y: int| #[trigger]
            h.reads_arc(x, c, y) ==> m.reads_arc(x + base, c, y + base),
    ensures
        m.run(a + base, w, b + base),
{
    let inv = |u: Seq<char>, x: int| m.run(a + base, u, x + base);
    lemma_run_ends(h, a, w, b);
    lemma_slides_self(m, a + base);
    assert(inv(Seq::empty(), a));
    assert forall|v: Seq<char>, x: int, y: int|
        #![trigger inv(v, x), h.slips(x, y)]
        inv(v, x) && h.slips(x, y) implies inv(v, y) by {
        lemma_slip(m, x + base, y + base);
        lemma_run_slides(m, a + base, v, x + base, y + base);
    }
    assert forall|v: Seq<char>, x: int, c: char, y: int|
        #![trigger inv(v, x), h.reads_arc(x, c, y)]
        inv(v, x) && h.reads_arc(x, c, y) implies inv(v.push(c), y) by {
        lemma_run_read(m, a + base, v, x + base, c, y + base);
    }
    lemma_run_invariant(h, a, inv, w, b);
}

/// Whether `w` is a string of `first` followed by a string that leads from
/// a start node of `h` to its node `k`.
pub open spec fn after(first: spec_fn(Seq<char>) -> bool, h: Graph, w: Seq<char>, k: int) -> bool {
    exists|i: int, s: int|
        0 <= i <= w.len() && first(w.take(i)) && h.start.contains(s as usize) && 0 <= s
            < h.nodes.len() && #[trigger] h.run(s, w.skip(i), k)
}

/// Whether `w` is a string of `first` followed by a string of the language
/// of `h`.
pub open spec fn through(first: spec_fn(Seq<char>) -> bool, h: Graph, w: Seq<char>) -> bool {
    exists|i: int| 0 <= i <= w.len() && first(w.take(i)) && #[trigger] h.language(w.skip(i))
}

/// A string of `first` is at every start node of `h`.
pub proof fn lemma_after_enter(first: spec_fn(Seq<char>) -> bool, h: Graph, w: Seq<char>, s: int)
    requires
        first(w),
        h.start.contains(s as usize),
        0 <= s < h.nodes.len(),
    ensures
        after(first, h, w, s),
{
    let n = w.len() as int;
    assert(w.take(n) =~= w);
    lemma_slides_self(h, s);
    assert(h.run(s, w.skip(n), s));
}

/// `after` goes on along an arc that reads nothing.
pub proof fn lemma_after_slip(
    first: spec_fn(Seq<char>) -> bool,
    h: Graph,
    w: Seq<char>,
    k: int,
    to: int,
)
    requires
        after(first, h, w, k),
        h.slips(k, to),
    ensures
        after(first, h, w, to),
{
    let (i, s) = choose|i: int, s: int|
        0 <= i <= w.len() && first(w.take(i)) && h.start.contains(s as usize) && 0 <= s
            < h.nodes.len() && #[trigger] h.run(s, w.skip(i), k);
    lemma_slip(h, k, to);
    lemma_run_slides(h, s, w.skip(i), k, to);
}

/// `after` goes on along an arc that reads a code point.
pub proof fn lemma_after_read(
    first: spec_fn(Seq<char>) -> bool,
    h: Graph,
    w: Seq<char>,
    k: int,
    c: char,
    to: int,
)
    requires
        after(first, h, w, k),
        h.reads_arc(k, c, to),
    ensures
        after(first, h, w.push(c), to),
{
    let (i, s) = choose|i: int, s: int|
        0 <= i <= w.len() && first(w.take(i)) && h.start.contains(s as usize) && 0 <= s
            < h.nodes.len() && #[trigger] h.run(s, w.skip(i), k);
    lemma_run_read(h, s, w.skip(i), k, c, to);
    let v = w.push(c);
    assert(v.take(i) =~= w.take(i));
    assert(v.skip(i) =~= w.skip(i).push(c));
    assert(h.run(s, v.skip(i), to));
}

/// At an accepting node, `after` is `through`.
pub proof fn lemma_after_exit(first: spec_fn(Seq<char>) -> bool, h: Graph, w: Seq<char>, k: int)
    requires
        after(first, h, w, k),
        h.accept.contains(k as usize),
        0 <= k < h.nodes.len(),
    ensures
        through(first, h, w),
{
    let (i, s) = choose|i: int, s: int|
        0 <= i <= w.len() && first(w.take(i)) && h.start.contains(s as usize) && 0 <= s
            < h.nodes.len() && #[trigger] h.run(s, w.skip(i), k);
    assert(h.language(w.skip(i)));
}

/// What `shifted` holds.
pub proof fn lemma_shifted_contains(list: Seq<usize>, base: nat, n: nat, y: int)
    requires
        below(list, n),
        n + base <= usize::MAX,
        0 <= y <= usize::MAX,
    ensures
        shifted(list, base).contains(y as usize) <==> y >= base && list.contains((y - base) as usize),
{
    let out = shifted(list, base);
    if out.contains(y as usize) {
        let i = choose|i: int| 0 <= i < out.len() && out[i] == y as usize;
        assert(list[i] < n);
        assert(list[i] == (y - base) as usize);
    }
    if y >= base && list.contains((y - base) as usize) {
        let i = choose|i: int| 0 <= i < list.len() && list[i] == (y - base) as usize;
        assert(list[i] < n);
        assert(out[i] == y as usize);
    }
}

/// What `exits` holds.
pub proof fn lemma_exits_contains(accept: Seq<usize>, local: usize, exit: usize, y: usize)
    ensures
        exits(accept, local, exit).contains(y) <==> y == exit && accept.contains(local),
    decreases accept.len(),
{
    let all = exits(accept, local, exit);
    lemma_exits(accept, local, exit);
    if accept.len() > 0 {
        let rest = accept.drop_last();
        lemma_exits_contains(rest, local, exit, y);
        lemma_exits_contains(rest, local, exit, exit);
        let before = exits(rest, local, exit);
        if accept.last() == local {
            assert(all[all.len() - 1] == exit);
            assert(accept[accept.len() - 1] == local);
        } else {
            if accept.contains(local) {
                let i = choose|i: int| 0 <= i < accept.len() && accept[i] == local;
                assert(rest[i] == local);
            }
        }
        if rest.contains(local) {
            let i = choose|i: int| 0 <= i < rest.len() && rest[i] == local;
            assert(accept[i] == local);
            assert(before.contains(exit));
            let j = choose|j: int| 0 <= j < before.len() && before[j] == exit;
            assert(all[j] == exit);
        }
    }
}

/// Whether an arc that reads nothing from `a` to `b` belongs to a copy of
/// `h` whose nodes begin at `base`, followed by its entry and its exit: an
/// arc of `h`; one from an accepting node of the copy to the exit; or one
/// from the entry to a start node of the copy.
pub open spec fn copy_slips(h: Graph, base: int, a: int, b: int) -> bool {
    ||| h.slips(a - base, b - base)
    ||| (base <= a < base + h.nodes.len() && b == base + h.nodes.len() + 1 && h.accept.contains(
        (a - base) as usize,
    ))
    ||| (a == base + h.nodes.len() && base <= b < base + h.nodes.len() && h.start.contains(
        (b - base) as usize,
    ))
}

/// The arcs of a merged graph: those of the graph, and those of the copy of
/// the other with its entry and its exit.
pub proof fn lemma_merge_arcs(g: Graph, h: Graph, tag_base: nat)
    requires
        g.closed(),
        h.closed(),
        g.nodes.len() + h.nodes.len() + 2 <= usize::MAX,
    ensures
        g.merge_tagged(h, tag_base).closed(),
        g.merge_tagged(h, tag_base).nodes.len() == g.nodes.len() + h.nodes.len() + 2,
        g.merge_tagged(h, tag_base).start == g.start,
        g.merge_tagged(h, tag_base).accept == g.accept,
        g.ordered() && h.ordered() ==> g.merge_tagged(h, tag_base).ordered(),
        forall|a: int, b: int| #[trigger]
            g.merge_tagged(h, tag_base).slips(a, b) <==> g.slips(a, b) || copy_slips(
                h,
                g.nodes.len() as int,
                a,
                b,
            ),
        forall|a: int, c: char, b: int| #[trigger]
            g.merge_tagged(h, tag_base).reads_arc(a, c, b) <==> g.reads_arc(a, c, b) || h.reads_arc(
                a - g.nodes.len(),
                c,
                b - g.nodes.len(),
            ),
{
    let m = g.merge_tagged(h, tag_base);
    let base = g.nodes.len();
    let entry = base + h.nodes.len();
    let exit = entry + 1;
    lemma_merge_closed(g, h, tag_base);
    if g.ordered() && h.ordered() {
        assert forall|a: int| 0 <= a < m.nodes.len() implies all_in_order(
            (#[trigger] m.nodes[a]).edges,
        ) by {
            if a < base {
                assert(all_in_order(g.nodes[a].edges));
            } else if a < entry {
                let node = h.nodes[a - base];
                assert(all_in_order(node.edges));
                let copy = m.nodes[a].edges;
                assert forall|i: int| 0 <= i < copy.len() implies (#[trigger] copy[i]).0 as int
                    <= copy[i].1 as int by {
                    assert(copy[i].0 == node.edges[i].0 && copy[i].1 == node.edges[i].1);
                }
            }
        }
    }
    assert forall|a: int, b: int| #[trigger]
        m.slips(a, b) <==> g.slips(a, b) || h.slips(a - base, b - base) || (base <= a < entry && b
            == exit && h.accept.contains((a - base) as usize)) || (a == entry && base <= b < entry
            && h.start.contains((b - base) as usize)) by {
        if 0 <= a < m.nodes.len() && 0 <= b < m.nodes.len() {
            if a < base {
                assert(g.nodes[a].closed(g.nodes.len()));
                if g.nodes[a].epsilons.contains(b as usize) {
                    let i = choose|i: int|
                        0 <= i < g.nodes[a].epsilons.len() && g.nodes[a].epsilons[i] == b as usize;
                    assert(g.nodes[a].epsilons[i] < base);
                }
            } else if a < entry {
                let node = h.nodes[a - base];
                assert(node.closed(h.nodes.len()));
                let inner = shifted(node.epsilons, base as nat);
                let out = exits(h.accept, (a - base) as usize, exit as usize);
                lemma_shifted_contains(node.epsilons, base as nat, h.nodes.len(), b);
                lemma_exits_contains(h.accept, (a - base) as usize, exit as usize, b as usize);
                let all = inner + out;
                assert(m.nodes[a].epsilons == all);
                if all.contains(b as usize) {
                    let i = choose|i: int| 0 <= i < all.len() && all[i] == b as usize;
                    if i < inner.len() {
                        assert(inner[i] == b as usize);
                    } else {
                        assert(out[i - inner.len()] == b as usize);
                    }
                }
                if inner.contains(b as usize) {
                    let i = choose|i: int| 0 <= i < inner.len() && inner[i] == b as usize;
                    assert(all[i] == b as usize);
                }
                if out.contains(b as usize) {
                    let i = choose|i: int| 0 <= i < out.len() && out[i] == b as usize;
                    assert(all[inner.len() + i] == b as usize);
                }
                if node.epsilons.contains((b - base) as usize) && b >= base {
                    let i = choose|i: int|
                        0 <= i < node.epsilons.len() && node.epsilons[i] == (b - base) as usize;
                    assert(node.epsilons[i] < h.nodes.len());
                }
            } else if a == entry {
                lemma_shifted_contains(h.start, base as nat, h.nodes.len(), b);
                if h.start.contains((b - base) as usize) && b >= base {
                    let i = choose|i: int| 0 <= i < h.start.len() && h.start[i] == (b - base) as usize;
                    assert(h.start[i] < h.nodes.len());
                }
            } else {
                assert(m.nodes[a].epsilons.len() == 0);
            }
        }
    }
    assert forall|a: int, c: char, b: int| #[trigger]
        m.reads_arc(a, c, b) <==> g.reads_arc(a, c, b) || h.reads_arc(a - base, c, b - base) by {
        lemma_merge_reads(g, h, tag_base, a, c, b);
    }
}

/// The arcs of a merged graph that read a code point: those of the graph,
/// and those of the copy of the other.
proof fn lemma_merge_reads(g: Graph, h: Graph, tag_base: nat, a: int, c: char, b: int)
    requires
        g.closed(),
        h.closed(),
        g.nodes.len() + h.nodes.len() + 2 <= usize::MAX,
    ensures
        g.merge_tagged(h, tag_base).reads_arc(a, c, b) <==> g.reads_arc(a, c, b) || h.reads_arc(
            a - g.nodes.len(),
            c,
            b - g.nodes.len(),
        ),
{
    let m = g.merge_tagged(h, tag_base);
    let base = g.nodes.len();
    let entry = base + h.nodes.len();
    if 0 <= a < m.nodes.len() && 0 <= b < m.nodes.len() {
        if a < base {
            assert(g.nodes[a].closed(g.nodes.len()));
            assert(m.nodes[a] == g.nodes[a]);
            if m.reads_arc(a, c, b) {
                let i = choose|i: int|
                    0 <= i < g.nodes[a].edges.len() && reads(#[trigger] g.nodes[a].edges[i], c)
                        && g.nodes[a].edges[i].2 == b;
                assert(crate::lex::nfa::targets(g.nodes[a].edges)[i] < base);
            }
            assert(!h.reads_arc(a - base, c, b - base));
        } else if a < entry {
            let node = h.nodes[a - base];
            assert(node.closed(h.nodes.len()));
            let copy = shifted_edges(node.edges, base as nat, tag_base);
            assert(m.nodes[a].edges == copy);
            assert(!g.reads_arc(a, c, b));
            if m.reads_arc(a, c, b) {
                let i = choose|i: int|
                    0 <= i < copy.len() && reads(#[trigger] copy[i], c) && copy[i].2 == b;
                assert(crate::lex::nfa::targets(node.edges)[i] < h.nodes.len());
                assert(reads(node.edges[i], c) && node.edges[i].2 == b - base);
                assert(h.reads_arc(a - base, c, b - base));
            }
            if h.reads_arc(a - base, c, b - base) {
                let i = choose|i: int|
                    0 <= i < node.edges.len() && reads(#[trigger] node.edges[i], c)
                        && node.edges[i].2 == b - base;
                assert(crate::lex::nfa::targets(node.edges)[i] < h.nodes.len());
                assert(reads(copy[i], c) && copy[i].2 == b);
                assert(m.reads_arc(a, c, b));
            }
        } else {
            assert(m.nodes[a].edges.len() == 0);
            assert(!m.reads_arc(a, c, b));
            assert(!g.reads_arc(a, c, b));
            assert(!h.reads_arc(a - base, c, b - base));
        }
    } else {
        assert(!m.reads_arc(a, c, b));
        assert(!g.reads_arc(a, c, b));
        assert(!h.reads_arc(a - base, c, b - base));
    }
}

/// The arcs of a graph with one more arc that reads nothing.
pub proof fn lemma_push_epsilon_arcs(g: Graph, from: int, to: usize)
    requires
        g.closed(),
        g.nodes.len() <= usize::MAX,
        0 <= from < g.nodes.len(),
        to < g.nodes.len(),
    ensures
        g.push_epsilon(from, to).closed(),
        g.push_epsilon(from, to).nodes.len() == g.nodes.len(),
        g.push_epsilon(from, to).start == g.start,
        g.push_epsilon(from, to).accept == g.accept,
        g.ordered() ==> g.push_epsilon(from, to).ordered(),
        forall|a: int, b: int| #[trigger]
            g.push_epsilon(from, to).slips(a, b) <==> g.slips(a, b) || (a == from && b == to),
        forall|a: int, c: char, b: int| #[trigger]
            g.push_epsilon(from, to).reads_arc(a, c, b) <==> g.reads_arc(a, c, b),
{
    let m = g.push_epsilon(from, to);
    let old_list = g.nodes[from].epsilons;
    let new_list = old_list.push(to);
    assert(m.nodes[from].epsilons == new_list);
    if g.ordered() {
        assert forall|a: int| 0 <= a < m.nodes.len() implies all_in_order(
            (#[trigger] m.nodes[a]).edges,
        ) by {
            assert(all_in_order(g.nodes[a].edges));
        }
    }
    assert forall|a: int| 0 <= a < m.nodes.len() implies (#[trigger] m.nodes[a]).closed(
        m.nodes.len(),
    ) by {
        assert(g.nodes[a].closed(g.nodes.len()));
        if a == from {
            assert forall|i: int| 0 <= i < new_list.len() implies (#[trigger] new_list[i])
                < m.nodes.len() by {
                if i < old_list.len() {
                    assert(old_list[i] < g.nodes.len());
                }
            }
        }
    }
    assert forall|a: int, b: int| #[trigger]
        m.slips(a, b) <==> g.slips(a, b) || (a == from && b == to) by {
        if 0 <= a < m.nodes.len() && 0 <= b < m.nodes.len() {
            if a == from {
                if new_list.contains(b as usize) {
                    let i = choose|i: int| 0 <= i < new_list.len() && new_list[i] == b as usize;
                    if i < old_list.len() {
                        assert(old_list[i] == b as usize);
                    }
                }
                if old_list.contains(b as usize) {
                    let i = choose|i: int| 0 <= i < old_list.len() && old_list[i] == b as usize;
                    assert(new_list[i] == b as usize);
                }
                if b == to {
                    assert(new_list[old_list.len() as int] == to);
                }
            } else {
                assert(m.nodes[a] == g.nodes[a]);
            }
        }
    }
    assert forall|a: int, c: char, b: int| #[trigger]
        m.reads_arc(a, c, b) <==> g.reads_arc(a, c, b) by {
        if 0 <= a < m.nodes.len() {
            assert(m.nodes[a].edges == g.nodes[a].edges);
        }
    }
}

/// The arcs of a graph with one more arc that reads a code point.
pub proof fn lemma_push_edge_arcs(g: Graph, from: int, e: NfaEdge)
    requires
        g.closed(),
        g.nodes.len() <= usize::MAX,
        0 <= from < g.nodes.len(),
        e.2 < g.nodes.len(),
    ensures
        g.push_edge(from, e).closed(),
        g.push_edge(from, e).nodes.len() == g.nodes.len(),
        g.push_edge(from, e).start == g.start,
        g.push_edge(from, e).accept == g.accept,
        g.ordered() && e.0 as int <= e.1 as int ==> g.push_edge(from, e).ordered(),
        forall|a: int, b: int| #[trigger] g.push_edge(from, e).slips(a, b) <==> g.slips(a, b),
        forall|a: int, c: char, b: int| #[trigger]
            g.push_edge(from, e).reads_arc(a, c, b) <==> g.reads_arc(a, c, b) || (a == from && reads(
                e,
                c,
            ) && b == e.2),
{
    let m = g.push_edge(from, e);
    let old_list = g.nodes[from].edges;
    let new_list = old_list.push(e);
    assert(m.nodes[from].edges == new_list);
    if g.ordered() && e.0 as int <= e.1 as int {
        assert forall|a: int| 0 <= a < m.nodes.len() implies all_in_order(
            (#[trigger] m.nodes[a]).edges,
        ) by {
            assert(all_in_order(g.nodes[a].edges));
            if a == from {
                assert forall|i: int| 0 <= i < new_list.len() implies (#[trigger] new_list[i]).0 as int
                    <= new_list[i].1 as int by {
                    if i < old_list.len() {
                        assert(new_list[i] == old_list[i]);
                    }
                }
            }
        }
    }
    assert forall|a: int| 0 <= a < m.nodes.len() implies (#[trigger] m.nodes[a]).closed(
        m.nodes.len(),
    ) by {
        assert(g.nodes[a].closed(g.nodes.len()));
        if a == from {
            let t = crate::lex::nfa::targets(new_list);
            assert forall|i: int| 0 <= i < t.len() implies (#[trigger] t[i]) < m.nodes.len() by {
                if i < old_list.len() {
                    assert(crate::lex::nfa::targets(old_list)[i] < g.nodes.len());
                }
            }
        }
    }
    assert forall|a: int, b: int| #[trigger] m.slips(a, b) <==> g.slips(a, b) by {
        if 0 <= a < m.nodes.len() {
            assert(m.nodes[a].epsilons == g.nodes[a].epsilons);
        }
    }
    assert forall|a: int, c: char, b: int| #[trigger]
        m.reads_arc(a, c, b) <==> g.reads_arc(a, c, b) || (a == from && reads(e, c) && b == e.2) by {
        if 0 <= a < m.nodes.len() && 0 <= b < m.nodes.len() {
            if a == from {
                if m.reads_arc(a, c, b) {
                    let i = choose|i: int|
                        0 <= i < new_list.len() && reads(#[trigger] new_list[i], c) && new_list[i].2
                            == b;
                    if i < old_list.len() {
                        assert(reads(old_list[i], c) && old_list[i].2 == b);
                    }
                }
                if g.reads_arc(a, c, b) {
                    let i = choose|i: int|
                        0 <= i < old_list.len() && reads(#[trigger] old_list[i], c) && old_list[i].2
                            == b;
                    assert(reads(new_list[i], c) && new_list[i].2 == b);
                }
                if reads(e, c) && b == e.2 {
                    assert(reads(new_list[old_list.len() as int], c));
                }
            } else {
                assert(m.nodes[a] == g.nodes[a]);
            }
        }
    }
}

/// The arcs of a graph with one more node: those of the graph.
pub proof fn lemma_add_node_arcs(g: Graph)
    requires
        g.closed(),
        g.nodes.len() < usize::MAX,
    ensures
        g.add_node().closed(),
        g.add_node().nodes.len() == g.nodes.len() + 1,
        g.add_node().start == g.start,
        g.add_node().accept == g.accept,
        g.ordered() ==> g.add_node().ordered(),
        forall|a: int, b: int| #[trigger] g.add_node().slips(a, b) <==> g.slips(a, b),
        forall|a: int, c: char, b: int| #[trigger]
            g.add_node().reads_arc(a, c, b) <==> g.reads_arc(a, c, b),
{
    let m = g.add_node();
    assert forall|a: int| 0 <= a < m.nodes.len() implies (#[trigger] m.nodes[a]).closed(
        m.nodes.len(),
    ) by {
        if a < g.nodes.len() {
            assert(g.nodes[a].closed(g.nodes.len()));
        }
    }
    if g.ordered() {
        assert forall|a: int| 0 <= a < m.nodes.len() implies all_in_order(
            (#[trigger] m.nodes[a]).edges,
        ) by {
            if a < g.nodes.len() {
                assert(all_in_order(g.nodes[a].edges));
            }
        }
    }
    assert forall|a: int, b: int| #[trigger] m.slips(a, b) <==> g.slips(a, b) by {
        if 0 <= a < g.nodes.len() {
            assert(g.nodes[a].closed(g.nodes.len()));
            if m.slips(a, b) {
                let i = choose|i: int|
                    0 <= i < g.nodes[a].epsilons.len() && g.nodes[a].epsilons[i] == b as usize;
                assert(g.nodes[a].epsilons[i] < g.nodes.len());
            }
        }
    }
    assert forall|a: int, c: char, b: int| #[trigger]
        m.reads_arc(a, c, b) <==> g.reads_arc(a, c, b) by {
        if 0 <= a < g.nodes.len() {
            assert(g.nodes[a].closed(g.nodes.len()));
            if m.reads_arc(a, c, b) {
                let i = choose|i: int|
                    0 <= i < g.nodes[a].edges.len() && reads(#[trigger] g.nodes[a].edges[i], c)
                        && g.nodes[a].edges[i].2 == b;
                assert(crate::lex::nfa::targets(g.nodes[a].edges)[i] < g.nodes.len());
            }
            if g.reads_arc(a, c, b) {
                let i = choose|i: int|
                    0 <= i < g.nodes[a].edges.len() && reads(#[trigger] g.nodes[a].edges[i], c)
                        && g.nodes[a].edges[i].2 == b;
                assert(m.nodes[a].edges[i] == g.nodes[a].edges[i]);
            }
        } else if a == g.nodes.len() {
            assert(m.nodes[a].edges.len() == 0);
        }
    }
}

/// Two nodes without arcs, closed.
pub proof fn lemma_two_nodes_arcs()
    ensures
        two_nodes().closed(),
        two_nodes().nodes.len() == 2,
        two_nodes().start == seq![0usize],
        two_nodes().accept == seq![1usize],
        two_nodes().ordered(),
        forall|a: int, b: int| !#[trigger] two_nodes().slips(a, b),
        forall|a: int, c: char, b: int| !#[trigger] two_nodes().reads_arc(a, c, b),
{
    let g = two_nodes();
    assert(g.nodes.len() == 2);
    assert(g.nodes[0].edges.len() == 0 && g.nodes[0].epsilons.len() == 0);
    assert(g.nodes[1].edges.len() == 0 && g.nodes[1].epsilons.len() == 0);
    assert forall|a: int, b: int| !#[trigger] g.slips(a, b) by {
        if 0 <= a < 2 {
            assert(g.nodes[a].epsilons.len() == 0);
        }
    }
}

/// Whether `w` is empty.
pub open spec fn is_empty(w: Seq<char>) -> bool {
    w.len() == 0
}

/// What holds of a string `w` that leads to the node `b`, where `b` is a
/// node of the copy of `h` at `base`, its entry or its exit, and the
/// strings of `first` lead to the entry.
pub open spec fn region(
    first: spec_fn(Seq<char>) -> bool,
    h: Graph,
    base: int,
    w: Seq<char>,
    b: int,
) -> bool {
    &&& b == base + h.nodes.len() ==> first(w)
    &&& base <= b < base + h.nodes.len() ==> after(first, h, w, b - base)
    &&& b == base + h.nodes.len() + 1 ==> through(first, h, w)
}

/// `region` goes on along the arcs of the copy that read nothing.
pub proof fn lemma_region_slip(
    first: spec_fn(Seq<char>) -> bool,
    h: Graph,
    base: int,
    w: Seq<char>,
    a: int,
    b: int,
)
    requires
        region(first, h, base, w, a),
        copy_slips(h, base, a, b),
    ensures
        region(first, h, base, w, b),
        base <= a <= base + h.nodes.len(),
        base <= b < base + h.nodes.len() || b == base + h.nodes.len() + 1,
{
    if h.slips(a - base, b - base) {
        lemma_after_slip(first, h, w, a - base, b - base);
    } else if a == base + h.nodes.len() {
        lemma_after_enter(first, h, w, b - base);
    } else {
        lemma_after_exit(first, h, w, a - base);
    }
}

/// `region` goes on along the arcs of the copy that read a code point.
pub proof fn lemma_region_read(
    first: spec_fn(Seq<char>) -> bool,
    h: Graph,
    base: int,
    w: Seq<char>,
    a: int,
    c: char,
    b: int,
)
    requires
        region(first, h, base, w, a),
        h.reads_arc(a - base, c, b - base),
    ensures
        region(first, h, base, w.push(c), b),
        base <= a < base + h.nodes.len(),
        base <= b < base + h.nodes.len(),
{
    lemma_after_read(first, h, w, a - base, c, b - base);
}

/// After the empty string, `through` is the language.
pub proof fn lemma_through_empty(h: Graph, w: Seq<char>)
    ensures
        through(|u: Seq<char>| is_empty(u), h, w) <==> h.language(w),
{
    let first = |u: Seq<char>| is_empty(u);
    if through(first, h, w) {
        let i = choose|i: int| 0 <= i <= w.len() && first(w.take(i)) && #[trigger] h.language(w.skip(i));
        assert(w.take(i).len() == i);
        assert(w.skip(0) =~= w);
    }
    if h.language(w) {
        assert(w.skip(0) =~= w);
        assert(first(w.take(0)));
        assert(h.language(w.skip(0)));
    }
}

/// In a graph that holds the arcs of a copy of `h` at `base`, a string of
/// the language of `h` leads from the entry of the copy to its exit.
pub proof fn lemma_copy_run(m: Graph, h: Graph, base: int, w: Seq<char>)
    requires
        h.language(w),
        0 <= base,
        base + h.nodes.len() + 2 <= m.nodes.len(),
        forall|a: int, b: int| #[trigger] copy_slips(h, base, a, b) ==> m.slips(a, b),
        forall|x: int, c: char, y: int| #[trigger]
            h.reads_arc(x, c, y) ==> m.reads_arc(x + base, c, y + base),
    ensures
        m.run(base + h.nodes.len(), w, base + h.nodes.len() + 1),
{
    let (s, f) = choose|s: int, f: int|
        h.start.contains(s as usize) && h.accept.contains(f as usize) && 0 <= s < h.nodes.len() && 0
            <= f < h.nodes.len() && #[trigger] h.run(s, w, f);
    let entry = base + h.nodes.len();
    let exit = entry + 1;
    assert forall|x: int, y: int| #[trigger] h.slips(x, y) implies m.slips(x + base, y + base) by {
        assert(copy_slips(h, base, x + base, y + base));
    }
    lemma_run_copy(h, m, base, s, w, f);
    assert(copy_slips(h, base, entry, s + base));
    assert(copy_slips(h, base, f + base, exit));
    lemma_slip(m, entry, s + base);
    lemma_slip(m, f + base, exit);
    lemma_slides_run(m, entry, s + base, w, f + base);
    lemma_run_slides(m, entry, w, f + base, exit);
}

/// Two nodes, then a copy of `l` with its entry and its exit, then a copy
/// of `r` with its entry and its exit. The tags of `r` come after `count`.
pub open spec fn pair(l: Graph, r: Graph, count: nat) -> Graph {
    two_nodes().merge_tagged(l, 0).merge_tagged(r, count)
}

/// The arcs of `pair`.
pub proof fn lemma_pair_arcs(l: Graph, r: Graph, count: nat)
    requires
        l.closed(),
        r.closed(),
        l.nodes.len() + r.nodes.len() + 6 <= usize::MAX,
    ensures
        pair(l, r, count).closed(),
        pair(l, r, count).nodes.len() == l.nodes.len() + r.nodes.len() + 6,
        pair(l, r, count).start == seq![0usize],
        pair(l, r, count).accept == seq![1usize],
        l.ordered() && r.ordered() ==> pair(l, r, count).ordered(),
        forall|a: int, b: int| #[trigger]
            pair(l, r, count).slips(a, b) <==> copy_slips(l, 2, a, b) || copy_slips(
                r,
                (4 + l.nodes.len()) as int,
                a,
                b,
            ),
        forall|a: int, c: char, b: int| #[trigger]
            pair(l, r, count).reads_arc(a, c, b) <==> l.reads_arc(a - 2, c, b - 2) || r.reads_arc(
                a - (4 + l.nodes.len()),
                c,
                b - (4 + l.nodes.len()),
            ),
{
    lemma_two_nodes_arcs();
    lemma_merge_arcs(two_nodes(), l, 0);
    lemma_merge_arcs(two_nodes().merge_tagged(l, 0), r, count);
}

/// The language of a graph with the start node 0 and the accepting node 1
/// holds the strings that lead from the one to the other.
pub proof fn lemma_two_ends(g: Graph, w: Seq<char>)
    requires
        g.start == seq![0usize],
        g.accept == seq![1usize],
        2 <= g.nodes.len() <= usize::MAX,
    ensures
        g.language(w) <==> g.run(0, w, 1),
{
    if g.language(w) {
        let (s, f) = choose|s: int, f: int|
            g.start.contains(s as usize) && g.accept.contains(f as usize) && 0 <= s < g.nodes.len()
                && 0 <= f < g.nodes.len() && #[trigger] g.run(s, w, f);
        let i = choose|i: int| 0 <= i < g.start.len() && g.start[i] == s as usize;
        let j = choose|j: int| 0 <= j < g.accept.len() && g.accept[j] == f as usize;
        lemma_run_ends(g, s, w, f);
    }
    if g.run(0, w, 1) {
        assert(g.start[0] == 0usize);
        assert(g.accept[0] == 1usize);
        assert(g.start.contains(0int as usize));
        assert(g.accept.contains(1int as usize));
    }
}

/// A run between two arcs that read nothing.
pub proof fn lemma_wrap(g: Graph, a: int, e: int, w: Seq<char>, x: int, b: int)
    requires
        g.slips(a, e),
        g.run(e, w, x),
        g.slips(x, b),
    ensures
        g.run(a, w, b),
{
    lemma_slip(g, a, e);
    lemma_slip(g, x, b);
    lemma_slides_run(g, a, e, w, x);
    lemma_run_slides(g, a, w, x, b);
}

/// The arcs of the union of two graphs.
pub proof fn lemma_union_arcs(l: Graph, r: Graph, count: nat)
    requires
        l.closed(),
        r.closed(),
        l.nodes.len() + r.nodes.len() + 6 <= usize::MAX,
    ensures
        joined_union(l, r, count).closed(),
        joined_union(l, r, count).nodes.len() == l.nodes.len() + r.nodes.len() + 6,
        joined_union(l, r, count).start == seq![0usize],
        joined_union(l, r, count).accept == seq![1usize],
        l.ordered() && r.ordered() ==> joined_union(l, r, count).ordered(),
        forall|a: int, b: int| #[trigger]
            joined_union(l, r, count).slips(a, b) <==> copy_slips(l, 2, a, b) || copy_slips(
                r,
                (4 + l.nodes.len()) as int,
                a,
                b,
            ) || (a == 0 && b == 2 + l.nodes.len()) || (a == 0 && b == 4 + l.nodes.len()
                + r.nodes.len()) || (a == 3 + l.nodes.len() && b == 1) || (a == 5 + l.nodes.len()
                + r.nodes.len() && b == 1),
        forall|a: int, c: char, b: int| #[trigger]
            joined_union(l, r, count).reads_arc(a, c, b) <==> l.reads_arc(a - 2, c, b - 2)
                || r.reads_arc(a - (4 + l.nodes.len()), c, b - (4 + l.nodes.len())),
{
    let sa = (2 + l.nodes.len()) as usize;
    let aa = (sa + 1) as usize;
    let sb = (aa + 1 + r.nodes.len()) as usize;
    let ab = (sb + 1) as usize;
    let g0 = pair(l, r, count);
    let g1 = g0.push_epsilon(0, sa);
    let g2 = g1.push_epsilon(0, sb);
    let g3 = g2.push_epsilon(aa as int, 1);
    lemma_pair_arcs(l, r, count);
    lemma_push_epsilon_arcs(g0, 0, sa);
    lemma_push_epsilon_arcs(g1, 0, sb);
    lemma_push_epsilon_arcs(g2, aa as int, 1);
    lemma_push_epsilon_arcs(g3, ab as int, 1);
    assert(joined_union(l, r, count) == g3.push_epsilon(ab as int, 1));
}

/// The union of two graphs has the strings of the one and those of the
/// other.
pub proof fn lemma_union_language(l: Graph, r: Graph, count: nat, w: Seq<char>)
    requires
        l.closed(),
        r.closed(),
        l.nodes.len() + r.nodes.len() + 6 <= usize::MAX,
    ensures
        joined_union(l, r, count).language(w) <==> l.language(w) || r.language(w),
{
    let g = joined_union(l, r, count);
    let el: int = (2 + l.nodes.len()) as int;
    let br: int = el + 2;
    let er: int = br + r.nodes.len();
    lemma_union_arcs(l, r, count);
    lemma_two_ends(g, w);
    if l.language(w) {
        lemma_copy_run(g, l, 2, w);
        lemma_wrap(g, 0, el, w, el + 1, 1);
    }
    if r.language(w) {
        lemma_copy_run(g, r, br, w);
        lemma_wrap(g, 0, er, w, er + 1, 1);
    }
    if g.run(0, w, 1) {
        let eps = |u: Seq<char>| is_empty(u);
        let inv = |u: Seq<char>, b: int|
            {
                &&& region(eps, l, 2, u, b)
                &&& region(eps, r, br, u, b)
                &&& (b == 0 ==> is_empty(u))
                &&& (b == 1 ==> l.language(u) || r.language(u))
            };
        assert(inv(Seq::empty(), 0));
        assert forall|v: Seq<char>, x: int, y: int|
            #![trigger inv(v, x), g.slips(x, y)]
            inv(v, x) && g.slips(x, y) implies inv(v, y) by {
            if copy_slips(l, 2, x, y) {
                lemma_region_slip(eps, l, 2, v, x, y);
            } else if copy_slips(r, br, x, y) {
                lemma_region_slip(eps, r, br, v, x, y);
            } else if y == 1 {
                lemma_through_empty(l, v);
                lemma_through_empty(r, v);
            }
        }
        assert forall|v: Seq<char>, x: int, c: char, y: int|
            #![trigger inv(v, x), g.reads_arc(x, c, y)]
            inv(v, x) && g.reads_arc(x, c, y) implies inv(v.push(c), y) by {
            if l.reads_arc(x - 2, c, y - 2) {
                lemma_region_read(eps, l, 2, v, x, c, y);
            } else {
                lemma_region_read(eps, r, br, v, x, c, y);
            }
        }
        lemma_run_invariant(g, 0, inv, w, 1);
    }
}

/// The arcs of the concatenation of two graphs.
pub proof fn lemma_concat_arcs(l: Graph, r: Graph, count: nat)
    requires
        l.closed(),
        r.closed(),
        l.nodes.len() + r.nodes.len() + 6 <= usize::MAX,
    ensures
        joined_concat(l, r, count).closed(),
        joined_concat(l, r, count).nodes.len() == l.nodes.len() + r.nodes.len() + 6,
        joined_concat(l, r, count).start == seq![0usize],
        joined_concat(l, r, count).accept == seq![1usize],
        l.ordered() && r.ordered() ==> joined_concat(l, r, count).ordered(),
        forall|a: int, b: int| #[trigger]
            joined_concat(l, r, count).slips(a, b) <==> copy_slips(l, 2, a, b) || copy_slips(
                r,
                (4 + l.nodes.len()) as int,
                a,
                b,
            ) || (a == 0 && b == 2 + l.nodes.len()) || (a == 3 + l.nodes.len() && b == 4
                + l.nodes.len() + r.nodes.len()) || (a == 5 + l.nodes.len() + r.nodes.len() && b
                == 1),
        forall|a: int, c: char, b: int| #[trigger]
            joined_concat(l, r, count).reads_arc(a, c, b) <==> l.reads_arc(a - 2, c, b - 2)
                || r.reads_arc(a - (4 + l.nodes.len()), c, b - (4 + l.nodes.len())),
{
    let sa = (2 + l.nodes.len()) as usize;
    let aa = (sa + 1) as usize;
    let sb = (aa + 1 + r.nodes.len()) as usize;
    let ab = (sb + 1) as usize;
    let g0 = pair(l, r, count);
    let g1 = g0.push_epsilon(0, sa);
    let g2 = g1.push_epsilon(aa as int, sb);
    lemma_pair_arcs(l, r, count);
    lemma_push_epsilon_arcs(g0, 0, sa);
    lemma_push_epsilon_arcs(g1, aa as int, sb);
    lemma_push_epsilon_arcs(g2, ab as int, 1);
    assert(joined_concat(l, r, count) == g2.push_epsilon(ab as int, 1));
}

/// The concatenation of two graphs has the strings of the first followed
/// by the strings of the second.
pub proof fn lemma_concat_language(l: Graph, r: Graph, count: nat, w: Seq<char>)
    requires
        l.closed(),
        r.closed(),
        l.nodes.len() + r.nodes.len() + 6 <= usize::MAX,
    ensures
        joined_concat(l, r, count).language(w) <==> exists|i: int|
            0 <= i <= w.len() && l.language(w.take(i)) && #[trigger] r.language(w.skip(i)),
{
    let g = joined_concat(l, r, count);
    let el: int = (2 + l.nodes.len()) as int;
    let br: int = el + 2;
    let er: int = br + r.nodes.len();
    lemma_concat_arcs(l, r, count);
    lemma_two_ends(g, w);
    let eps = |u: Seq<char>| is_empty(u);
    let second = |u: Seq<char>| l.language(u);
    if exists|i: int| 0 <= i <= w.len() && l.language(w.take(i)) && #[trigger] r.language(w.skip(i)) {
        let i = choose|i: int|
            0 <= i <= w.len() && l.language(w.take(i)) && #[trigger] r.language(w.skip(i));
        lemma_copy_run(g, l, 2, w.take(i));
        lemma_copy_run(g, r, br, w.skip(i));
        lemma_wrap(g, 0, el, w.take(i), el + 1, er);
        lemma_run_join(g, 0, w.take(i), er, w.skip(i), er + 1);
        assert(w.take(i) + w.skip(i) =~= w);
        lemma_slip(g, er + 1, 1);
        lemma_run_slides(g, 0, w, er + 1, 1);
    }
    if g.run(0, w, 1) {
        let inv = |u: Seq<char>, b: int|
            {
                &&& region(eps, l, 2, u, b)
                &&& region(second, r, br, u, b)
                &&& (b == 0 ==> is_empty(u))
                &&& (b == 1 ==> through(second, r, u))
            };
        assert(inv(Seq::empty(), 0));
        assert forall|v: Seq<char>, x: int, y: int|
            #![trigger inv(v, x), g.slips(x, y)]
            inv(v, x) && g.slips(x, y) implies inv(v, y) by {
            if copy_slips(l, 2, x, y) {
                lemma_region_slip(eps, l, 2, v, x, y);
            } else if copy_slips(r, br, x, y) {
                lemma_region_slip(second, r, br, v, x, y);
            } else if y == er {
                lemma_through_empty(l, v);
            }
        }
        assert forall|v: Seq<char>, x: int, c: char, y: int|
            #![trigger inv(v, x), g.reads_arc(x, c, y)]
            inv(v, x) && g.reads_arc(x, c, y) implies inv(v.push(c), y) by {
            if l.reads_arc(x - 2, c, y - 2) {
                lemma_region_read(eps, l, 2, v, x, c, y);
            } else {
                lemma_region_read(second, r, br, v, x, c, y);
            }
        }
        lemma_run_invariant(g, 0, inv, w, 1);
        let i = choose|i: int| 0 <= i <= w.len() && second(w.take(i)) && #[trigger] r.language(w.skip(i));
        assert(l.language(w.take(i)) && r.language(w.skip(i)));
    }
}

/// A string of a term is a string of its repetition.
pub proof fn lemma_star_single(a: Re, v: Seq<char>)
    requires
        a.matches(v),
    ensures
        Re::Star(Box::new(a)).matches(v),
{
    let n = v.len() as int;
    if n > 0 {
        assert(v.subrange(0, n) =~= v);
        assert(Re::Star(Box::new(a)).matches(v.subrange(n, n)));
    }
}

/// A string of the repetition of a term followed by a string of a graph
/// with the language of the term is a string of the repetition.
pub proof fn lemma_star_through(a: Re, h: Graph, w: Seq<char>)
    requires
        forall|u: Seq<char>| #[trigger] h.language(u) <==> a.matches(u),
        through(|u: Seq<char>| Re::Star(Box::new(a)).matches(u), h, w),
    ensures
        Re::Star(Box::new(a)).matches(w),
{
    let first = |u: Seq<char>| Re::Star(Box::new(a)).matches(u);
    let i = choose|i: int| 0 <= i <= w.len() && first(w.take(i)) && #[trigger] h.language(w.skip(i));
    lemma_star_single(a, w.skip(i));
    lemma_star_append(a, w.take(i), w.skip(i));
    assert(w.take(i) + w.skip(i) =~= w);
}

/// In a graph that holds the arcs of a copy of `h` after two nodes, and
/// where arcs that read nothing lead from the exit of the copy to its
/// entry and to the node 1, a string of the repetition of the language of
/// `h` leads from the exit to the node 1.
pub proof fn lemma_star_runs(g: Graph, h: Graph, a: Re, w: Seq<char>)
    requires
        forall|u: Seq<char>| #[trigger] h.language(u) <==> a.matches(u),
        h.nodes.len() + 4 <= g.nodes.len(),
        forall|x: int, y: int| #[trigger] copy_slips(h, 2, x, y) ==> g.slips(x, y),
        forall|x: int, c: char, y: int| #[trigger]
            h.reads_arc(x, c, y) ==> g.reads_arc(x + 2, c, y + 2),
        g.slides((3 + h.nodes.len()) as int, (2 + h.nodes.len()) as int),
        g.slides((3 + h.nodes.len()) as int, 1),
        Re::Star(Box::new(a)).matches(w),
    ensures
        g.run((3 + h.nodes.len()) as int, w, 1),
    decreases w.len(),
{
    let entry: int = (2 + h.nodes.len()) as int;
    let exit: int = entry + 1;
    let n = w.len() as int;
    if n > 0 {
        let i = choose|i: int|
            #![trigger w.subrange(0, i)]
            1 <= i <= w.len() && a.matches(w.subrange(0, i)) && Re::Star(Box::new(a)).matches(
                w.subrange(i, n),
            );
        let u = w.subrange(0, i);
        let v = w.subrange(i, n);
        lemma_copy_run(g, h, 2, u);
        lemma_slides_run(g, exit, entry, u, exit);
        lemma_star_runs(g, h, a, v);
        lemma_run_join(g, exit, u, exit, v, 1);
        assert(u + v =~= w);
    }
}

/// A string of the repetition of the language of `h` leads from the node 0
/// to the node 1, where arcs that read nothing lead from 0 to 1 and to the
/// entry of the copy of `h`.
pub proof fn lemma_star_from_start(g: Graph, h: Graph, a: Re, w: Seq<char>)
    requires
        forall|u: Seq<char>| #[trigger] h.language(u) <==> a.matches(u),
        h.nodes.len() + 4 <= g.nodes.len(),
        forall|x: int, y: int| #[trigger] copy_slips(h, 2, x, y) ==> g.slips(x, y),
        forall|x: int, c: char, y: int| #[trigger]
            h.reads_arc(x, c, y) ==> g.reads_arc(x + 2, c, y + 2),
        g.slides((3 + h.nodes.len()) as int, (2 + h.nodes.len()) as int),
        g.slides((3 + h.nodes.len()) as int, 1),
        g.slides(0, (2 + h.nodes.len()) as int),
        g.slides(0, 1),
        Re::Star(Box::new(a)).matches(w),
    ensures
        g.run(0, w, 1),
{
    let entry: int = (2 + h.nodes.len()) as int;
    let exit: int = entry + 1;
    let n = w.len() as int;
    if n > 0 {
        let i = choose|i: int|
            #![trigger w.subrange(0, i)]
            1 <= i <= w.len() && a.matches(w.subrange(0, i)) && Re::Star(Box::new(a)).matches(
                w.subrange(i, n),
            );
        let u = w.subrange(0, i);
        let v = w.subrange(i, n);
        lemma_copy_run(g, h, 2, u);
        lemma_slides_run(g, 0, entry, u, exit);
        lemma_star_runs(g, h, a, v);
        lemma_run_join(g, 0, u, exit, v, 1);
        assert(u + v =~= w);
    }
}

/// The arcs of the repetition of a graph, where the exit of the copy leads
/// back to its entry.
pub proof fn lemma_joined_star_arcs(h: Graph)
    requires
        h.closed(),
        h.nodes.len() + 4 <= usize::MAX,
    ensures
        joined_star(h).closed(),
        joined_star(h).nodes.len() == h.nodes.len() + 4,
        joined_star(h).start == seq![0usize],
        joined_star(h).accept == seq![1usize],
        h.ordered() ==> joined_star(h).ordered(),
        forall|a: int, b: int| #[trigger]
            joined_star(h).slips(a, b) <==> copy_slips(h, 2, a, b) || (a == 0 && b == 2
                + h.nodes.len()) || (a == 0 && b == 1) || (a == 3 + h.nodes.len() && b == 2
                + h.nodes.len()) || (a == 3 + h.nodes.len() && b == 1),
        forall|a: int, c: char, b: int| #[trigger]
            joined_star(h).reads_arc(a, c, b) <==> h.reads_arc(a - 2, c, b - 2),
{
    let sa = (2 + h.nodes.len()) as usize;
    let aa = (sa + 1) as usize;
    let g0 = two_nodes().merge_tagged(h, 0);
    let g1 = g0.push_epsilon(0, sa);
    let g2 = g1.push_epsilon(0, 1);
    let g3 = g2.push_epsilon(aa as int, sa);
    lemma_two_nodes_arcs();
    lemma_merge_arcs(two_nodes(), h, 0);
    lemma_push_epsilon_arcs(g0, 0, sa);
    lemma_push_epsilon_arcs(g1, 0, 1);
    lemma_push_epsilon_arcs(g2, aa as int, sa);
    lemma_push_epsilon_arcs(g3, aa as int, 1);
    assert(joined_star(h) == g3.push_epsilon(aa as int, 1));
}

/// The repetition of a graph with the language of a term has the language
/// of the repetition of the term.
pub proof fn lemma_joined_star_language(h: Graph, a: Re, w: Seq<char>)
    requires
        h.closed(),
        h.nodes.len() + 4 <= usize::MAX,
        forall|u: Seq<char>| #[trigger] h.language(u) <==> a.matches(u),
    ensures
        joined_star(h).language(w) <==> Re::Star(Box::new(a)).matches(w),
{
    let g = joined_star(h);
    let entry: int = (2 + h.nodes.len()) as int;
    let exit: int = entry + 1;
    let star = Re::Star(Box::new(a));
    lemma_joined_star_arcs(h);
    lemma_two_ends(g, w);
    if star.matches(w) {
        lemma_slip(g, 0, entry);
        lemma_slip(g, 0, 1);
        lemma_slip(g, exit, entry);
        lemma_slip(g, exit, 1);
        lemma_star_from_start(g, h, a, w);
    }
    if g.run(0, w, 1) {
        let first = |u: Seq<char>| Re::Star(Box::new(a)).matches(u);
        let inv = |u: Seq<char>, b: int|
            {
                &&& region(first, h, 2, u, b)
                &&& (b == 0 ==> is_empty(u))
                &&& (b == 1 ==> first(u))
            };
        assert(inv(Seq::empty(), 0));
        assert forall|v: Seq<char>, x: int, y: int|
            #![trigger inv(v, x), g.slips(x, y)]
            inv(v, x) && g.slips(x, y) implies inv(v, y) by {
            if copy_slips(h, 2, x, y) {
                lemma_region_slip(first, h, 2, v, x, y);
            } else if x == exit {
                lemma_star_through(a, h, v);
            }
        }
        assert forall|v: Seq<char>, x: int, c: char, y: int|
            #![trigger inv(v, x), g.reads_arc(x, c, y)]
            inv(v, x) && g.reads_arc(x, c, y) implies inv(v.push(c), y) by {
            lemma_region_read(first, h, 2, v, x, c, y);
        }
        lemma_run_invariant(g, 0, inv, w, 1);
    }
}

/// The arcs of the repetition of a graph, where the accepting node leads
/// back to the start node.
pub proof fn lemma_star_arcs(h: Graph)
    requires
        h.closed(),
        h.nodes.len() + 4 <= usize::MAX,
    ensures
        star_graph(h).closed(),
        star_graph(h).nodes.len() == h.nodes.len() + 4,
        star_graph(h).start == seq![0usize],
        star_graph(h).accept == seq![1usize],
        h.ordered() ==> star_graph(h).ordered(),
        forall|a: int, b: int| #[trigger]
            star_graph(h).slips(a, b) <==> copy_slips(h, 2, a, b) || (a == 0 && b == 1) || (a == 0
                && b == 2 + h.nodes.len()) || (a == 3 + h.nodes.len() && b == 1) || (a == 1 && b
                == 0),
        forall|a: int, c: char, b: int| #[trigger]
            star_graph(h).reads_arc(a, c, b) <==> h.reads_arc(a - 2, c, b - 2),
{
    let s = (2 + h.nodes.len()) as usize;
    let a = (s + 1) as usize;
    let g0 = two_nodes().merge_tagged(h, 0);
    let g1 = g0.push_epsilon(0, 1);
    let g2 = g1.push_epsilon(0, s);
    let g3 = g2.push_epsilon(a as int, 1);
    lemma_two_nodes_arcs();
    lemma_merge_arcs(two_nodes(), h, 0);
    lemma_push_epsilon_arcs(g0, 0, 1);
    lemma_push_epsilon_arcs(g1, 0, s);
    lemma_push_epsilon_arcs(g2, a as int, 1);
    lemma_push_epsilon_arcs(g3, 1, 0);
    assert(star_graph(h) == g3.push_epsilon(1, 0));
}

/// The repetition of a graph with the language of a term has the language
/// of the repetition of the term.
pub proof fn lemma_star_language(h: Graph, a: Re, w: Seq<char>)
    requires
        h.closed(),
        h.nodes.len() + 4 <= usize::MAX,
        forall|u: Seq<char>| #[trigger] h.language(u) <==> a.matches(u),
    ensures
        star_graph(h).language(w) <==> Re::Star(Box::new(a)).matches(w),
{
    let g = star_graph(h);
    let entry: int = (2 + h.nodes.len()) as int;
    let exit: int = entry + 1;
    let star = Re::Star(Box::new(a));
    lemma_star_arcs(h);
    lemma_two_ends(g, w);
    if star.matches(w) {
        lemma_slip(g, 0, entry);
        lemma_slip(g, 0, 1);
        lemma_slip(g, exit, 1);
        lemma_slip(g, 1, 0);
        lemma_slides_join(g, exit, 1, 0);
        lemma_slides_join(g, exit, 0, entry);
        lemma_star_from_start(g, h, a, w);
    }
    if g.run(0, w, 1) {
        let first = |u: Seq<char>| Re::Star(Box::new(a)).matches(u);
        let inv = |u: Seq<char>, b: int|
            {
                &&& region(first, h, 2, u, b)
                &&& (b == 0 ==> first(u))
                &&& (b == 1 ==> first(u))
            };
        assert(inv(Seq::empty(), 0));
        assert forall|v: Seq<char>, x: int, y: int|
            #![trigger inv(v, x), g.slips(x, y)]
            inv(v, x) && g.slips(x, y) implies inv(v, y) by {
            if copy_slips(h, 2, x, y) {
                lemma_region_slip(first, h, 2, v, x, y);
            } else if x == exit {
                lemma_star_through(a, h, v);
            }
        }
        assert forall|v: Seq<char>, x: int, c: char, y: int|
            #![trigger inv(v, x), g.reads_arc(x, c, y)]
            inv(v, x) && g.reads_arc(x, c, y) implies inv(v.push(c), y) by {
            lemma_region_read(first, h, 2, v, x, c, y);
        }
        lemma_run_invariant(g, 0, inv, w, 1);
    }
}

/// The arcs of a graph with one more tagged arc that reads a range: it
/// leaves `from` where its range meets that of no arc of `from`, else a
/// new node that an arc that reads nothing leads to from `from`.
pub proof fn lemma_add_edge_arcs(g: Graph, from: int, lo: char, hi: char, to: usize, tag: usize)
    requires
        g.closed(),
        g.nodes.len() < usize::MAX,
        0 <= from < g.nodes.len(),
        to < g.nodes.len(),
    ensures
        g.add_tagged_edge(from, lo, hi, to, tag).closed(),
        g.nodes.len() <= g.add_tagged_edge(from, lo, hi, to, tag).nodes.len() <= g.nodes.len() + 1,
        g.add_tagged_edge(from, lo, hi, to, tag).start == g.start,
        g.add_tagged_edge(from, lo, hi, to, tag).accept == g.accept,
        g.ordered() && lo as int <= hi as int ==> g.add_tagged_edge(from, lo, hi, to, tag).ordered(),
        forall|a: int, b: int| #[trigger]
            g.add_tagged_edge(from, lo, hi, to, tag).slips(a, b) <==> g.slips(a, b) || (
            g.add_tagged_edge(from, lo, hi, to, tag).nodes.len() > g.nodes.len() && a == from && b
                == g.nodes.len()),
        forall|a: int, c: char, b: int| #[trigger]
            g.add_tagged_edge(from, lo, hi, to, tag).reads_arc(a, c, b) <==> g.reads_arc(a, c, b)
                || (reads((lo, hi, to, tag), c) && b == to && a == (if g.add_tagged_edge(
                from,
                lo,
                hi,
                to,
                tag,
            ).nodes.len() > g.nodes.len() {
                g.nodes.len() as int
            } else {
                from
            })),
{
    if overlapping(g.nodes[from].edges, lo, hi) {
        let mid = g.nodes.len();
        let g1 = g.add_node();
        let g2 = g1.push_epsilon(from, mid as usize);
        lemma_add_node_arcs(g);
        lemma_push_epsilon_arcs(g1, from, mid as usize);
        lemma_push_edge_arcs(g2, mid as int, (lo, hi, to, tag));
    } else {
        lemma_push_edge_arcs(g, from, (lo, hi, to, tag));
    }
}

/// A graph without start nodes has no string.
pub proof fn lemma_no_start(g: Graph, w: Seq<char>)
    requires
        g.start.len() == 0,
    ensures
        !g.language(w),
{
}

/// Two nodes without arcs have no string.
pub proof fn lemma_two_nodes_language(w: Seq<char>)
    ensures
        !two_nodes().language(w),
{
    let g = two_nodes();
    lemma_two_nodes_arcs();
    lemma_two_ends(g, w);
    if g.run(0, w, 1) {
        let inv = |u: Seq<char>, b: int| b == 0;
        lemma_run_invariant(g, 0, inv, w, 1);
    }
}

/// The automaton of the empty string has the empty string only.
pub proof fn lemma_epsilon_language(w: Seq<char>)
    ensures
        two_nodes().push_epsilon(0, 1).closed(),
        two_nodes().push_epsilon(0, 1).nodes.len() == 2,
        two_nodes().push_epsilon(0, 1).ordered(),
        two_nodes().push_epsilon(0, 1).language(w) <==> w.len() == 0,
{
    let g = two_nodes().push_epsilon(0, 1);
    lemma_two_nodes_arcs();
    lemma_push_epsilon_arcs(two_nodes(), 0, 1);
    lemma_two_ends(g, w);
    if w.len() == 0 {
        lemma_slip(g, 0, 1);
    }
    if g.run(0, w, 1) {
        let inv = |u: Seq<char>, b: int| is_empty(u);
        lemma_run_invariant(g, 0, inv, w, 1);
    }
}

/// The automaton of a range has the single code points of the range.
pub proof fn lemma_range_language(lo: char, hi: char, tag: usize, w: Seq<char>)
    ensures
        two_nodes().add_tagged_edge(0, lo, hi, 1, tag).closed(),
        two_nodes().add_tagged_edge(0, lo, hi, 1, tag).nodes.len() == 2,
        lo as int <= hi as int ==> two_nodes().add_tagged_edge(0, lo, hi, 1, tag).ordered(),
        two_nodes().add_tagged_edge(0, lo, hi, 1, tag).language(w) <==> w.len() == 1 && in_range(
            lo,
            hi,
            w[0],
        ),
{
    let g = two_nodes().add_tagged_edge(0, lo, hi, 1, tag);
    lemma_two_nodes_arcs();
    assert(!overlapping(two_nodes().nodes[0].edges, lo, hi));
    lemma_add_edge_arcs(two_nodes(), 0, lo, hi, 1, tag);
    lemma_two_ends(g, w);
    if w.len() == 1 && in_range(lo, hi, w[0]) {
        lemma_slides_self(g, 0);
        assert(g.run(0, Seq::empty(), 0));
        assert(g.reads_arc(0, w[0], 1));
        lemma_run_read(g, 0, Seq::empty(), 0, w[0], 1);
        assert(Seq::<char>::empty().push(w[0]) =~= w);
    }
    if g.run(0, w, 1) {
        let inv = |u: Seq<char>, b: int|
            {
                &&& (b == 0 ==> is_empty(u))
                &&& (b == 1 ==> u.len() == 1 && in_range(lo, hi, u[0]))
            };
        lemma_run_invariant(g, 0, inv, w, 1);
    }
}

/// Whether an arc that reads `c` leads to the node 1 from the node 0, or
/// from a node that an arc that reads nothing leads to from the node 0.
pub open spec fn reads_at_once(g: Graph, c: char) -> bool {
    exists|a: int| (a == 0 || g.slips(0, a)) && #[trigger] g.reads_arc(a, c, 1)
}

/// The arcs of the automaton of one of the first `n` code points of `s`.
pub proof fn lemma_one_of_arcs(s: Seq<char>, n: nat)
    requires
        0 < s.len(),
        n <= s.len(),
        n + 2 <= usize::MAX,
    ensures
        one_of_graph(s, n).closed(),
        2 <= one_of_graph(s, n).nodes.len() <= n + 2,
        one_of_graph(s, n).start == seq![0usize],
        one_of_graph(s, n).accept == seq![1usize],
        one_of_graph(s, n).ordered(),
        forall|a: int, b: int| #[trigger] one_of_graph(s, n).slips(a, b) ==> a == 0 && b >= 2,
        forall|a: int, c: char, b: int| #[trigger]
            one_of_graph(s, n).reads_arc(a, c, b) ==> a != 1 && b == 1 && s.take(n as int).contains(c),
        forall|i: int| 0 <= i < n ==> #[trigger] reads_at_once(one_of_graph(s, n), s[i]),
    decreases n,
{
    if n == 0 {
        lemma_two_nodes_arcs();
    } else {
        let g = one_of_graph(s, (n - 1) as nat);
        let c = s[n - 1];
        let m = one_of_graph(s, n);
        lemma_one_of_arcs(s, (n - 1) as nat);
        lemma_add_edge_arcs(g, 0, c, c, 1, 0);
        assert(m == g.add_tagged_edge(0, c, c, 1, 0));
        let from = if m.nodes.len() > g.nodes.len() {
            g.nodes.len() as int
        } else {
            0
        };
        assert(s.take(n as int)[n - 1] == c);
        assert forall|a: int, x: char, b: int| #[trigger] m.reads_arc(a, x, b) implies a != 1 && b
            == 1 && s.take(n as int).contains(x) by {
            if g.reads_arc(a, x, b) {
                let before = s.take(n - 1);
                let i = choose|i: int| 0 <= i < before.len() && before[i] == x;
                assert(s.take(n as int)[i] == x);
            } else {
                lemma_char(x);
                lemma_char(c);
            }
        }
        assert forall|i: int| 0 <= i < n implies #[trigger] reads_at_once(m, s[i]) by {
            if i < n - 1 {
                assert(reads_at_once(g, s[i]));
                let a = choose|a: int| (a == 0 || g.slips(0, a)) && #[trigger] g.reads_arc(a, s[i], 1);
                assert((a == 0 || m.slips(0, a)) && m.reads_arc(a, s[i], 1));
            } else {
                assert(reads((c, c, 1usize, 0usize), c));
                assert((from == 0 || m.slips(0, from)) && m.reads_arc(from, s[i], 1));
            }
        }
    }
}

/// The automaton of one of the code points of `s` has the single code
/// points of `s`.
pub proof fn lemma_one_of_language(s: Seq<char>, w: Seq<char>)
    requires
        s.len() + 2 <= usize::MAX,
    ensures
        one_of_graph(s, s.len()).closed(),
        one_of_graph(s, s.len()).nodes.len() <= s.len() + 2,
        one_of_graph(s, s.len()).ordered(),
        one_of_graph(s, s.len()).language(w) <==> w.len() == 1 && s.contains(w[0]),
{
    let g = one_of_graph(s, s.len());
    if s.len() == 0 {
        lemma_no_start(g, w);
    } else {
        lemma_one_of_arcs(s, s.len());
        lemma_two_ends(g, w);
        assert(s.take(s.len() as int) =~= s);
        if w.len() == 1 && s.contains(w[0]) {
            let i = choose|i: int| 0 <= i < s.len() && s[i] == w[0];
            assert(reads_at_once(g, s[i]));
            let a = choose|a: int| (a == 0 || g.slips(0, a)) && #[trigger] g.reads_arc(a, s[i], 1);
            if a == 0 {
                lemma_slides_self(g, 0);
            } else {
                lemma_slip(g, 0, a);
            }
            assert(g.run(0, Seq::empty(), a));
            lemma_run_read(g, 0, Seq::empty(), a, w[0], 1);
            assert(Seq::<char>::empty().push(w[0]) =~= w);
        }
        if g.run(0, w, 1) {
            let inv = |u: Seq<char>, b: int|
                {
                    &&& (b != 1 ==> is_empty(u))
                    &&& (b == 1 ==> u.len() == 1 && s.contains(u[0]))
                };
            lemma_run_invariant(g, 0, inv, w, 1);
        }
    }
}

/// Whether every range has its bounds in order.
pub open spec fn ranges_in_order(ranges: Seq<(char, char)>) -> bool {
    forall|i: int| 0 <= i < ranges.len() ==> (#[trigger] ranges[i]).0 as int <= ranges[i].1 as int
}

/// Whether one of the first `n` ranges holds the code point `c`.
pub open spec fn in_ranges(ranges: Seq<(char, char)>, n: int, c: char) -> bool {
    exists|i: int| 0 <= i < n && i < ranges.len() && in_range((#[trigger] ranges[i]).0, ranges[i].1, c)
}

/// The ranges between the first `k + 1` items of a strictly growing
/// sequence hold the code points that lie strictly between two neighbours
/// among them.
pub proof fn lemma_inner_gaps(t: Seq<char>, k: nat, c: char)
    requires
        strictly_increasing(t),
        k < t.len(),
    ensures
        inner_gaps(t, k).len() <= k,
        ranges_in_order(inner_gaps(t, k)),
        in_ranges(inner_gaps(t, k), inner_gaps(t, k).len() as int, c) <==> in_gap(t, k as int, c),
    decreases k,
{
    let all = inner_gaps(t, k);
    if k > 0 {
        let a = t[k - 1];
        let b = t[k as int];
        let before = inner_gaps(t, (k - 1) as nat);
        lemma_inner_gaps(t, (k - 1) as nat, c);
        lemma_char(a);
        lemma_char(b);
        lemma_char(c);
        assert((a as int) < (b as int));
        lemma_between(a, b, c);
        lemma_gap_step(t, k - 1, c);
        let lo = next_code(a as int) as char;
        let hi = prev_code(b as int) as char;
        if in_ranges(before, before.len() as int, c) {
            let i = choose|i: int|
                0 <= i < before.len() && in_range((#[trigger] before[i]).0, before[i].1, c);
            assert(all[i] == before[i]);
        }
        if in_ranges(all, all.len() as int, c) {
            let i = choose|i: int| 0 <= i < all.len() && in_range((#[trigger] all[i]).0, all[i].1, c);
            if i < before.len() {
                assert(all[i] == before[i]);
            }
        }
        if next_code(a as int) <= prev_code(b as int) {
            assert(all[before.len() as int] == (lo, hi));
        }
        assert forall|i: int| 0 <= i < all.len() implies (#[trigger] all[i]).0 as int
            <= all[i].1 as int by {
            if i < before.len() {
                assert(all[i] == before[i]);
            }
        }
    }
}

/// The ranges that a strictly growing sequence leaves out hold the code
/// points that it does not hold.
pub proof fn lemma_all_gaps(t: Seq<char>, c: char)
    requires
        strictly_increasing(t),
        t.len() > 0,
    ensures
        all_gaps(t).len() <= t.len() + 1,
        ranges_in_order(all_gaps(t)),
        in_ranges(all_gaps(t), all_gaps(t).len() as int, c) <==> !t.contains(c),
{
    let inner = inner_gaps(t, (t.len() - 1) as nat);
    let first = t[0];
    let last = t.last();
    lemma_inner_gaps(t, (t.len() - 1) as nat, c);
    lemma_absent_in_sorted(t, c);
    lemma_char(first);
    lemma_char(last);
    lemma_char(c);
    let below = ('\0', prev_code(first as int) as char);
    let above = (next_code(last as int) as char, '\u{10FFFF}');
    let low = if first as int != 0 {
        inner.push(below)
    } else {
        inner
    };
    let all = all_gaps(t);
    if in_ranges(inner, inner.len() as int, c) {
        let i = choose|i: int| 0 <= i < inner.len() && in_range((#[trigger] inner[i]).0, inner[i].1, c);
        assert(all[i] == inner[i]);
    }
    if first as int != 0 {
        assert(all[inner.len() as int] == below);
    }
    if last as int != 0x10FFFF {
        assert(all[low.len() as int] == above);
    }
    if in_ranges(all, all.len() as int, c) {
        let i = choose|i: int| 0 <= i < all.len() && in_range((#[trigger] all[i]).0, all[i].1, c);
        if i < inner.len() {
            assert(all[i] == inner[i]);
        } else if i < low.len() {
            assert(all[i] == below);
        } else {
            assert(all[i] == above);
        }
    }
    assert forall|i: int| 0 <= i < all.len() implies (#[trigger] all[i]).0 as int <= all[i].1 as int by {
        if i < inner.len() {
            assert(all[i] == inner[i]);
        } else if i < low.len() {
            assert(all[i] == below);
        } else {
            assert(all[i] == above);
        }
    }
}

/// The union of the automata of the first `n` ranges has the single code
/// points of these ranges.
pub proof fn lemma_ranges_language(ranges: Seq<(char, char)>, n: nat, w: Seq<char>)
    requires
        n <= ranges.len(),
        8 * n + 2 <= usize::MAX,
    ensures
        ranges_graph(ranges, n).closed(),
        ranges_graph(ranges, n).nodes.len() <= 8 * n,
        ranges_in_order(ranges) ==> ranges_graph(ranges, n).ordered(),
        ranges_graph(ranges, n).language(w) <==> w.len() == 1 && in_ranges(ranges, n as int, w[0]),
    decreases n,
{
    let g = ranges_graph(ranges, n);
    if n == 0 {
        lemma_no_start(g, w);
    } else if n == 1 {
        lemma_range_language(ranges[0].0, ranges[0].1, 0, w);
    } else {
        let before = ranges_graph(ranges, (n - 1) as nat);
        let one = range_graph(ranges[n - 1].0, ranges[n - 1].1);
        lemma_ranges_language(ranges, (n - 1) as nat, w);
        lemma_range_language(ranges[n - 1].0, ranges[n - 1].1, 0, w);
        lemma_union_arcs(before, one, 0);
        lemma_union_language(before, one, 0, w);
        assert(g == joined_union(before, one, 0));
        if w.len() == 1 {
            if in_ranges(ranges, n - 1, w[0]) {
                let i = choose|i: int|
                    0 <= i < n - 1 && i < ranges.len() && in_range(
                        (#[trigger] ranges[i]).0,
                        ranges[i].1,
                        w[0],
                    );
                assert(in_ranges(ranges, n as int, w[0]));
            }
            if in_ranges(ranges, n as int, w[0]) {
                let i = choose|i: int|
                    0 <= i < n && i < ranges.len() && in_range(
                        (#[trigger] ranges[i]).0,
                        ranges[i].1,
                        w[0],
                    );
                if i < n - 1 {
                    assert(in_ranges(ranges, n - 1, w[0]));
                }
            }
        }
    }
}

/// The automaton of one code point that is none of `s` has the single code
/// points that `s` does not hold.
pub proof fn lemma_none_of_language(s: Seq<char>, w: Seq<char>)
    requires
        8 * (s.len() + 2) + 2 <= usize::MAX,
    ensures
        none_of_graph(s).closed(),
        none_of_graph(s).nodes.len() <= 2 + 8 * (s.len() + 2),
        none_of_graph(s).ordered(),
        none_of_graph(s).language(w) <==> w.len() == 1 && !s.contains(w[0]),
{
    if s.len() == 0 {
        lemma_range_language('\0', '\u{10FFFF}', 0, w);
        if w.len() == 1 {
            lemma_char(w[0]);
        }
    } else {
        let t = sorted_of(s);
        lemma_sorted_of(s);
        let ranges = all_gaps(t);
        if w.len() == 1 {
            lemma_all_gaps(t, w[0]);
        } else {
            lemma_all_gaps(t, 'a');
        }
        lemma_ranges_language(ranges, ranges.len(), w);
    }
}

/// The automaton that a pattern compiles to, before it is made ready for
/// simulation, is closed, has no more nodes than the weight of the
/// pattern, and has the language of the term of the pattern.
pub proof fn lemma_raw(p: Pattern, w: Seq<char>)
    requires
        p.weight() <= usize::MAX,
    ensures
        p.raw().closed(),
        p.raw().nodes.len() <= p.weight(),
        p.ordered() ==> p.raw().ordered(),
        p.raw().language(w) <==> p.term().matches(w),
    decreases p, 0nat,
{
    match p {
        Pattern::Empty => {
            lemma_no_start(p.raw(), w);
        },
        Pattern::Epsilon => {
            lemma_epsilon_language(w);
        },
        Pattern::Range(lo, hi) => {
            lemma_range_language(lo, hi, 0, w);
        },
        Pattern::OneOf(s) => {
            lemma_one_of_language(s, w);
            lemma_one_of(s);
        },
        Pattern::NoneOf(s) => {
            lemma_none_of_language(s, w);
            lemma_none_of(s, w);
        },
        Pattern::Concat(a, b) => {
            let l = a.raw().optimized();
            let r = b.raw().optimized();
            lemma_compiled(*a, w);
            lemma_compiled(*b, w);
            lemma_concat_arcs(l, r, 0);
            lemma_concat_language(l, r, 0, w);
            assert(p.raw() == joined_concat(l, r, 0));
            let n = w.len() as int;
            if p.raw().language(w) {
                let i = choose|i: int|
                    0 <= i <= w.len() && l.language(w.take(i)) && #[trigger] r.language(w.skip(i));
                lemma_compiled(*a, w.take(i));
                lemma_compiled(*b, w.skip(i));
                assert(w.take(i) == w.subrange(0, i));
                assert(w.skip(i) == w.subrange(i, n));
            }
            if p.term().matches(w) {
                let i = choose|i: int|
                    #![trigger w.subrange(0, i)]
                    0 <= i <= w.len() && a.term().matches(w.subrange(0, i)) && b.term().matches(
                        w.subrange(i, n),
                    );
                assert(w.take(i) == w.subrange(0, i));
                assert(w.skip(i) == w.subrange(i, n));
                lemma_compiled(*a, w.take(i));
                lemma_compiled(*b, w.skip(i));
                assert(l.language(w.take(i)) && r.language(w.skip(i)));
            }
        },
        Pattern::Union(a, b) => {
            let l = a.raw().optimized();
            let r = b.raw().optimized();
            lemma_compiled(*a, w);
            lemma_compiled(*b, w);
            lemma_union_arcs(l, r, 0);
            lemma_union_language(l, r, 0, w);
            assert(p.raw() == joined_union(l, r, 0));
        },
        Pattern::Star(a) => {
            let h = a.raw().optimized();
            lemma_compiled(*a, w);
            assert forall|u: Seq<char>| #[trigger] h.language(u) <==> a.term().matches(u) by {
                lemma_compiled(*a, u);
            }
            lemma_star_arcs(h);
            lemma_star_language(h, a.term(), w);
        },
    }
}

/// The automaton that a pattern compiles to is closed, has no more nodes
/// than the weight of the pattern, and has the language of the term of
/// the pattern.
pub proof fn lemma_compiled(p: Pattern, w: Seq<char>)
    requires
        p.weight() <= usize::MAX,
    ensures
        p.compiled().closed(),
        p.compiled().nodes.len() <= p.weight(),
        p.ordered() ==> p.compiled().ordered(),
        p.compiled().language(w) <==> p.term().matches(w),
    decreases p, 1nat,
{
    lemma_raw(p, w);
    law_optimized(p.raw(), w);
    if p.ordered() {
        lemma_optimized_ordered(p.raw());
    }
}

/// The automaton that a pattern compiles to accepts exactly the strings of
/// the pattern: after the code points of `w`, an accepting node is active
/// exactly when `w` belongs to the language of the term of the pattern.
pub proof fn law_compiled(p: Pattern, w: Seq<char>)
    requires
        p.weight() <= usize::MAX,
    ensures
        p.compiled().accepts(w) <==> p.term().matches(w),
{
    lemma_raw(p, w);
    law_optimized(p.raw(), w);
}

/// The automaton of a term by the construction of Thompson is closed, has
/// the nodes that `node_count` counts, and has the language of the term.
pub proof fn lemma_thompson(r: Re, w: Seq<char>)
    requires
        r.plain(),
        node_count(r) <= usize::MAX,
    ensures
        thompson(r).closed(),
        thompson(r).nodes.len() == node_count(r),
        thompson(r).ordered(),
        thompson(r).language(w) <==> r.matches(w),
    decreases r,
{
    lemma_two_nodes_arcs();
    match r {
        Re::Empty => {
            lemma_two_nodes_language(w);
        },
        Re::Epsilon => {
            lemma_epsilon_language(w);
        },
        Re::Range(lo, hi) => {
            if lo as int <= hi as int {
                lemma_range_language(lo, hi, 0, w);
            } else {
                lemma_two_nodes_language(w);
            }
        },
        Re::Concat(a, b) => {
            let l = thompson(*a);
            let g = thompson(*b);
            let count = edge_count(*a);
            lemma_thompson(*a, w);
            lemma_thompson(*b, w);
            lemma_concat_arcs(l, g, count);
            lemma_concat_language(l, g, count, w);
            let n = w.len() as int;
            if thompson(r).language(w) {
                let i = choose|i: int|
                    0 <= i <= w.len() && l.language(w.take(i)) && #[trigger] g.language(w.skip(i));
                lemma_thompson(*a, w.take(i));
                lemma_thompson(*b, w.skip(i));
                assert(w.take(i) == w.subrange(0, i));
                assert(w.skip(i) == w.subrange(i, n));
            }
            if r.matches(w) {
                let i = choose|i: int|
                    #![trigger w.subrange(0, i)]
                    0 <= i <= w.len() && a.matches(w.subrange(0, i)) && b.matches(w.subrange(i, n));
                assert(w.take(i) == w.subrange(0, i));
                assert(w.skip(i) == w.subrange(i, n));
                lemma_thompson(*a, w.take(i));
                lemma_thompson(*b, w.skip(i));
                assert(l.language(w.take(i)) && g.language(w.skip(i)));
            }
        },
        Re::Union(a, b) => {
            let l = thompson(*a);
            let g = thompson(*b);
            let count = edge_count(*a);
            lemma_thompson(*a, w);
            lemma_thompson(*b, w);
            lemma_union_arcs(l, g, count);
            lemma_union_language(l, g, count, w);
        },
        Re::Star(a) => {
            let h = thompson(*a);
            lemma_thompson(*a, w);
            assert forall|u: Seq<char>| #[trigger] h.language(u) <==> a.matches(u) by {
                lemma_thompson(*a, u);
            }
            lemma_joined_star_arcs(h);
            lemma_joined_star_language(h, *a, w);
        },
        Re::Intersect(_, _) => {},
        Re::Compl(_) => {},
    }
}

/// The automaton of a term by the construction of Thompson, made ready for
/// simulation, accepts exactly the strings of the term: after the code
/// points of `w`, an accepting node is active exactly when `w` belongs to
/// the language of the term. This holds of the terms without intersection
/// and complement, which the construction knows.
pub proof fn law_thompson(r: Re, w: Seq<char>)
    requires
        r.plain(),
        node_count(r) <= usize::MAX,
    ensures
        thompson(r).optimized().accepts(w) <==> r.matches(w),
{
    lemma_thompson(r, w);
    law_optimized(thompson(r), w);
}

/// The automaton that a pattern whose ranges are in order compiles to is
/// dead exactly when nothing can follow: after the code points of `w`, no
/// node is active exactly when no string `u` makes `w` followed by `u` a
/// string of the pattern.
pub proof fn law_compiled_dead(p: Pattern, w: Seq<char>)
    requires
        p.weight() <= usize::MAX,
        p.ordered(),
    ensures
        p.compiled().dead(w) <==> forall|u: Seq<char>| !p.term().matches(#[trigger] (w + u)),
{
    lemma_raw(p, w);
    law_dead_is_exact(p.raw(), w);
    assert forall|u: Seq<char>| p.raw().language(#[trigger] (w + u)) <==> p.term().matches(w + u) by {
        lemma_raw(p, w + u);
    }
}

/// The automaton of a term by the construction of Thompson, made ready for
/// simulation, is dead exactly when nothing can follow: after the code
/// points of `w`, no node is active exactly when no string `u` makes `w`
/// followed by `u` a string of the term.
pub proof fn law_thompson_dead(r: Re, w: Seq<char>)
    requires
        r.plain(),
        node_count(r) <= usize::MAX,
    ensures
        thompson(r).optimized().dead(w) <==> forall|u: Seq<char>| !r.matches(#[trigger] (w + u)),
{
    lemma_thompson(r, w);
    law_dead_is_exact(thompson(r), w);
    assert forall|u: Seq<char>| thompson(r).language(#[trigger] (w + u)) <==> r.matches(w + u) by {
        lemma_thompson(r, w + u);
    }
}

/// The two realisations of the automaton of a term are interchangeable:
/// after the code points of `w`, an accepting node of the automaton by the
/// construction of Thompson is active exactly when the derivative of the
/// term by `w` is nullable; and, for a term in simplified form whose
/// ranges are in order, no node is active exactly when that derivative is
/// `Empty`.
pub proof fn law_realisations_agree(r: Re, w: Seq<char>)
    requires
        r.plain(),
        node_count(r) <= usize::MAX,
    ensures
        thompson(r).optimized().accepts(w) <==> r.deriv_all(w).nullable(),
        r.trimmed() && r.ordered() ==> (thompson(r).optimized().dead(w) <==> r.deriv_all(w) is Empty),
{
    law_thompson(r, w);
    law_accept_is_membership(r, w);
    if r.trimmed() && r.ordered() {
        law_thompson_dead(r, w);
        crate::lexer::language::law_dead_is_exact(r, w);
    }
}

/// The automaton that a pattern compiles to and the derivatives of the
/// term of the pattern are interchangeable: after the code points of `w`,
/// an accepting node is active exactly when the derivative of the term by
/// `w` is nullable; and, for a pattern whose ranges are in order and whose
/// term is in simplified form, no node is active exactly when that
/// derivative is `Empty`.
pub proof fn law_compiled_agrees(p: Pattern, w: Seq<char>)
    requires
        p.weight() <= usize::MAX,
    ensures
        p.compiled().accepts(w) <==> p.term().deriv_all(w).nullable(),
        p.ordered() && p.term().trimmed() && p.term().ordered() ==> (p.compiled().dead(w)
            <==> p.term().deriv_all(w) is Empty),
{
    law_compiled(p, w);
    law_accept_is_membership(p.term(), w);
    if p.ordered() && p.term().trimmed() && p.term().ordered() {
        law_compiled_dead(p, w);
        crate::lexer::language::law_dead_is_exact(p.term(), w);
    }
}

} // verus!
