use vstd::prelude::*;

verus! {

/// Whether the graph of adjacency lists `adj` has an arc from `a` to `b`.
pub open spec fn arc(adj: Seq<Seq<usize>>, a: int, b: int) -> bool {
    0 <= a < adj.len() && 0 <= b < adj.len() && adj[a].contains(b as usize)
}

/// Whether a path of `n` arcs leads from `a` to `b`.
pub open spec fn path(adj: Seq<Seq<usize>>, a: int, b: int, n: nat) -> bool
    decreases n,
{
    if n == 0 {
        a == b && 0 <= a < adj.len()
    } else {
        exists|m: int| #[trigger] arc(adj, a, m) && path(adj, m, b, (n - 1) as nat)
    }
}

/// Whether some path leads from `a` to `b`; the empty path counts.
pub open spec fn reaches(adj: Seq<Seq<usize>>, a: int, b: int) -> bool {
    exists|n: nat| path(adj, a, b, n)
}

/// Whether some path leads from one of `roots` to `b`.
pub open spec fn reached_from(adj: Seq<Seq<usize>>, roots: Seq<usize>, b: int) -> bool {
    exists|i: int| 0 <= i < roots.len() && reaches(adj, #[trigger] roots[i] as int, b)
}

/// The adjacency lists of a vector of vectors.
pub open spec fn lists(adj: Seq<Vec<usize>>) -> Seq<Seq<usize>> {
    Seq::new(adj.len(), |i: int| adj[i]@)
}

/// Whether every item of every list is a node.
pub open spec fn closed_lists(adj: Seq<Seq<usize>>) -> bool {
    forall|a: int, i: int|
        0 <= a < adj.len() && 0 <= i < adj[a].len() ==> (#[trigger] adj[a][i]) < adj.len()
}

/// Whether every item of the list is below `n`.
pub open spec fn below(list: Seq<usize>, n: nat) -> bool {
    forall|i: int| 0 <= i < list.len() ==> (#[trigger] list[i]) < n
}

/// The number of `false` items.
pub open spec fn count_false(marks: Seq<bool>) -> nat
    decreases marks.len(),
{
    if marks.len() == 0 {
        0
    } else {
        count_false(marks.drop_last()) + (if marks.last() {
            0nat
        } else {
            1nat
        })
    }
}

/// Turning a `false` item into `true` leaves one `false` item less.
pub proof fn lemma_count_false_update(marks: Seq<bool>, i: int)
    requires
        0 <= i < marks.len(),
        !marks[i],
    ensures
        count_false(marks.update(i, true)) + 1 == count_false(marks),
    decreases marks.len(),
{
    let after = marks.update(i, true);
    if i == marks.len() - 1 {
        assert(after.drop_last() =~= marks.drop_last());
    } else {
        lemma_count_false_update(marks.drop_last(), i);
        assert(after.drop_last() =~= marks.drop_last().update(i, true));
    }
}

/// A path goes on along an arc.
pub proof fn lemma_path_extend(adj: Seq<Seq<usize>>, a: int, b: int, c: int, n: nat)
    requires
        path(adj, a, b, n),
        arc(adj, b, c),
    ensures
        path(adj, a, c, n + 1),
    decreases n,
{
    if n == 0 {
        assert(arc(adj, a, c) && path(adj, c, c, 0));
    } else {
        let m = choose|m: int| #[trigger] arc(adj, a, m) && path(adj, m, b, (n - 1) as nat);
        lemma_path_extend(adj, m, b, c, (n - 1) as nat);
        assert(arc(adj, a, m) && path(adj, m, c, n));
    }
}

/// What a root reaches is still reached after an arc.
pub proof fn lemma_reached_extend(adj: Seq<Seq<usize>>, roots: Seq<usize>, b: int, c: int)
    requires
        reached_from(adj, roots, b),
        arc(adj, b, c),
    ensures
        reached_from(adj, roots, c),
{
    let i = choose|i: int| 0 <= i < roots.len() && reaches(adj, #[trigger] roots[i] as int, b);
    let n = choose|n: nat| path(adj, roots[i] as int, b, n);
    lemma_path_extend(adj, roots[i] as int, b, c, n);
    assert(reaches(adj, roots[i] as int, c));
}

/// A set of marks that holds `a` and is closed under arcs holds all that
/// `a` reaches.
pub proof fn lemma_closed_marks(adj: Seq<Seq<usize>>, marks: Seq<bool>, a: int, b: int, n: nat)
    requires
        marks.len() == adj.len(),
        forall|x: int, y: int| 0 <= x < adj.len() && marks[x] && #[trigger] arc(adj, x, y) ==> marks[y],
        0 <= a < adj.len(),
        marks[a],
        path(adj, a, b, n),
    ensures
        0 <= b < adj.len(),
        marks[b],
    decreases n,
{
    if n > 0 {
        let m = choose|m: int| #[trigger] arc(adj, a, m) && path(adj, m, b, (n - 1) as nat);
        lemma_closed_marks(adj, marks, m, b, (n - 1) as nat);
    }
}

/// The nodes in the order in which a search in depth visits them first:
/// the last node of `stack` is taken off; if it is visited, the search goes
/// on; if not, it is visited, and the nodes that it has arcs to are put on
/// the stack in their order.
pub open spec fn walk(adj: Seq<Seq<usize>>, stack: Seq<usize>, visited: Seq<bool>) -> Seq<usize>
    decreases count_false(visited), stack.len(),
{
    if stack.len() == 0 {
        Seq::empty()
    } else {
        let node = stack.last();
        let rest = stack.drop_last();
        if node >= visited.len() || node >= adj.len() || visited[node as int] {
            walk(adj, rest, visited)
        } else {
            proof {
                lemma_count_false_update(visited, node as int);
            }
            seq![node] + walk(adj, rest + adj[node as int], visited.update(node as int, true))
        }
    }
}

/// The order in which a search in depth from `roots`, the last first,
/// visits the nodes.
pub open spec fn walk_from(adj: Seq<Seq<usize>>, roots: Seq<usize>) -> Seq<usize> {
    walk(adj, roots, Seq::new(adj.len(), |i: int| false))
}

/// Walks the graph in depth from `roots`, the last first, and returns the
/// nodes in the order in which they are visited, with the marks of the
/// nodes that are.
pub fn walk_order(adj: &Vec<Vec<usize>>, roots: &Vec<usize>) -> (r: (Vec<usize>, Vec<bool>))
    requires
        closed_lists(lists(adj@)),
        below(roots@, adj@.len()),
    ensures
        r.0@ == walk_from(lists(adj@), roots@),
        r.0@.no_duplicates(),
        below(r.0@, adj@.len()),
        r.1@.len() == adj@.len(),
        forall|b: int| 0 <= b < adj@.len() ==> (#[trigger] r.1@[b] <==> r.0@.contains(b as usize)),
        forall|b: int|
            0 <= b < adj@.len() ==> (#[trigger] r.1@[b] <==> reached_from(lists(adj@), roots@, b)),
{
    let n = adj.len();
    let ghost g = lists(adj@);
    let mut visited: Vec<bool> = Vec::new();
    let mut k: usize = 0;
    while k < n
        invariant
            k <= n,
            visited@.len() == k,
            forall|b: int| 0 <= b < k ==> !(#[trigger] visited@[b]),
        decreases n - k,
    {
        visited.push(false);
        k += 1;
    }
    let mut stack: Vec<usize> = Vec::new();
    let mut r: usize = 0;
    while r < roots.len()
        invariant
            r <= roots@.len(),
            below(roots@, adj@.len()),
            stack@ == roots@.take(r as int),
        decreases roots@.len() - r,
    {
        stack.push(roots[r]);
        proof {
            assert(roots@.take(r + 1) =~= roots@.take(r as int).push(roots@[r as int]));
        }
        r += 1;
    }
    let mut order: Vec<usize> = Vec::new();
    let ghost target = walk_from(g, roots@);
    proof {
        assert(roots@.take(roots@.len() as int) =~= roots@);
        assert(visited@ =~= Seq::new(g.len(), |i: int| false));
        assert(order@ + walk(g, stack@, visited@) =~= target);
        assert forall|i: int| 0 <= i < stack@.len() implies (#[trigger] stack@[i]) < n
            && reached_from(g, roots@, stack@[i] as int) by {
            assert(path(g, roots@[i] as int, roots@[i] as int, 0));
            assert(reaches(g, roots@[i] as int, roots@[i] as int));
        }
    }
    while stack.len() > 0
        invariant
            n == adj@.len(),
            g == lists(adj@),
            closed_lists(g),
            visited@.len() == n,
            order@ + walk(g, stack@, visited@) == target,
            order@.no_duplicates(),
            below(order@, n as nat),
            forall|b: int| 0 <= b < n ==> (#[trigger] visited@[b] <==> order@.contains(b as usize)),
            forall|i: int|
                0 <= i < stack@.len() ==> (#[trigger] stack@[i]) < n && reached_from(
                    g,
                    roots@,
                    stack@[i] as int,
                ),
            forall|b: int| 0 <= b < n && #[trigger] visited@[b] ==> reached_from(g, roots@, b),
            forall|x: int, y: int|
                0 <= x < n && visited@[x] && #[trigger] arc(g, x, y) ==> visited@[y]
                    || stack@.contains(y as usize),
            forall|i: int|
                0 <= i < roots@.len() ==> visited@[(#[trigger] roots@[i]) as int]
                    || stack@.contains(roots@[i]),
            below(roots@, n as nat),
        decreases count_false(visited@), stack@.len(),
    {
        let ghost stack0 = stack@;
        let ghost visited0 = visited@;
        let ghost order0 = order@;
        let node = stack.pop().unwrap();
        proof {
            assert(stack0[stack0.len() - 1] == node);
            assert(stack@ =~= stack0.drop_last());
        }
        if visited[node] {
            proof {
                assert forall|y: usize| stack0.contains(y) implies visited@[y as int]
                    || stack@.contains(y) by {
                    let i = choose|i: int| 0 <= i < stack0.len() && stack0[i] == y;
                    if i < stack0.len() - 1 {
                        assert(stack@[i] == y);
                    }
                }
            }
        } else {
            visited.set(node, true);
            order.push(node);
            proof {
                lemma_count_false_update(visited0, node as int);
                assert(g[node as int] == adj@[node as int]@);
                assert(walk(g, stack0, visited0) == seq![node] + walk(
                    g,
                    stack@ + adj@[node as int]@,
                    visited@,
                ));
                assert(order@ + walk(g, stack@ + adj@[node as int]@, visited@) =~= target);
                assert forall|b: int| 0 <= b < n implies (#[trigger] visited@[b] <==> order@.contains(
                    b as usize,
                )) by {
                    if b == node {
                        assert(order@[order0.len() as int] == node);
                    } else {
                        if order0.contains(b as usize) {
                            let i = choose|i: int| 0 <= i < order0.len() && order0[i] == b as usize;
                            assert(order@[i] == b as usize);
                        }
                        if order@.contains(b as usize) {
                            let i = choose|i: int| 0 <= i < order@.len() && order@[i] == b as usize;
                            assert(order0[i] == b as usize);
                        }
                    }
                }
                assert(order@.no_duplicates()) by {
                    assert forall|i: int, j: int|
                        0 <= i < order@.len() && 0 <= j < order@.len() && i != j implies order@[i]
                        != order@[j] by {
                        if i < order0.len() && j < order0.len() {
                            assert(order0[i] != order0[j]);
                        } else if i < order0.len() {
                            assert(order0.contains(order0[i]));
                        } else if j < order0.len() {
                            assert(order0.contains(order0[j]));
                        }
                    }
                }
                assert forall|i: int| 0 <= i < order@.len() implies (#[trigger] order@[i]) < n by {
                    if i < order0.len() {
                        assert(order@[i] == order0[i]);
                    }
                }
            }
            let m = adj[node].len();
            let ghost stack1 = stack@;
            let mut j: usize = 0;
            while j < m
                invariant
                    j <= m,
                    n == adj@.len(),
                    g == lists(adj@),
                    closed_lists(g),
                    node < n,
                    m == adj@[node as int]@.len(),
                    visited@.len() == n,
                    reached_from(g, roots@, node as int),
                    stack@ == stack1 + adj@[node as int]@.take(j as int),
                    forall|i: int|
                        0 <= i < stack@.len() ==> (#[trigger] stack@[i]) < n && reached_from(
                            g,
                            roots@,
                            stack@[i] as int,
                        ),
                decreases m - j,
            {
                let t = adj[node][j];
                let ghost before = stack@;
                stack.push(t);
                proof {
                    assert(g[node as int] == adj@[node as int]@);
                    assert(g[node as int][j as int] == t);
                    assert(t < n);
                    assert(g[node as int].contains(t));
                    assert(arc(g, node as int, t as int));
                    lemma_reached_extend(g, roots@, node as int, t as int);
                    assert(adj@[node as int]@.take(j + 1) =~= adj@[node as int]@.take(
                        j as int,
                    ).push(t));
                    assert forall|i: int| 0 <= i < stack@.len() implies (#[trigger] stack@[i]) < n
                        && reached_from(g, roots@, stack@[i] as int) by {
                        if i < before.len() {
                            assert(stack@[i] == before[i]);
                        }
                    }
                }
                j += 1;
            }
            proof {
                let succ = adj@[node as int]@;
                assert(succ.take(m as int) =~= succ);
                assert(g[node as int] == succ);
                assert forall|y: usize| stack0.contains(y) implies visited@[y as int]
                    || stack@.contains(y) by {
                    let i = choose|i: int| 0 <= i < stack0.len() && stack0[i] == y;
                    if i < stack0.len() - 1 {
                        assert(stack@[i] == y);
                    }
                }
                assert forall|x: int, y: int|
                    0 <= x < n && visited@[x] && #[trigger] arc(g, x, y) implies visited@[y]
                    || stack@.contains(y as usize) by {
                    if x == node {
                        let i = choose|i: int| 0 <= i < succ.len() && succ[i] == y as usize;
                        assert(stack@[stack1.len() + i] == y as usize);
                    } else {
                        assert(visited0[x]);
                        if !visited0[y] {
                            assert(stack0.contains(y as usize));
                        }
                    }
                }
                assert forall|i: int| 0 <= i < roots@.len() implies visited@[(
                #[trigger] roots@[i]) as int] || stack@.contains(roots@[i]) by {
                    if !visited0[roots@[i] as int] {
                        assert(stack0.contains(roots@[i]));
                    }
                }
            }
        }
    }
    proof {
        assert(order@ + walk(g, stack@, visited@) =~= order@);
        assert forall|b: int| 0 <= b < n implies (#[trigger] visited@[b] <==> reached_from(
            g,
            roots@,
            b,
        )) by {
            if reached_from(g, roots@, b) {
                let i = choose|i: int|
                    0 <= i < roots@.len() && reaches(g, #[trigger] roots@[i] as int, b);
                let len = choose|len: nat| path(g, roots@[i] as int, b, len);
                assert(!stack@.contains(roots@[i]));
                assert forall|x: int, y: int|
                    0 <= x < g.len() && visited@[x] && #[trigger] arc(g, x, y) implies visited@[y] by {
                    assert(!stack@.contains(y as usize));
                }
                lemma_closed_marks(g, visited@, roots@[i] as int, b, len);
            }
        }
    }
    (order, visited)
}

/// Marks the nodes that some path from one of `roots` reaches.
pub fn reachable(adj: &Vec<Vec<usize>>, roots: &Vec<usize>) -> (visited: Vec<bool>)
    requires
        closed_lists(lists(adj@)),
        below(roots@, adj@.len()),
    ensures
        visited@.len() == adj@.len(),
        forall|b: int|
            0 <= b < adj@.len() ==> (#[trigger] visited@[b] <==> reached_from(lists(adj@), roots@, b)),
{
    walk_order(adj, roots).1
}

} // verus!
