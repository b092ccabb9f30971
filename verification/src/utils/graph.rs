use crate::utils::reach::below;
use crate::utils::reach::closed_lists;
use crate::utils::reach::lists;
use crate::utils::reach::walk_from;
use crate::utils::reach::walk_order;
use std::collections::HashMap;
use vstd::prelude::*;

verus! {

broadcast use vstd::std_specs::hash::group_hash_axioms;

/// An edge of a graph: its data and the number of its target.
#[derive(Debug, Clone)]
pub struct Edge<E> {
    pub data: E,
    pub target: u64,
}

/// A vertex of a graph: its data and its edges.
#[derive(Debug, Clone)]
pub struct Vertex<V, E> {
    pub data: V,
    pub edges: Vec<Edge<E>>,
}

/// A directed graph whose vertices go by numbers that the graph gives out.
#[derive(Debug, Clone)]
pub struct Graph<V, E> {
    vertices: Vec<Vertex<V, E>>,
    map: HashMap<u64, usize>,
    ids: Vec<u64>,
    next_id: u64,
}

impl<V, E> Vertex<V, E> {
    /// The data of the vertex.
    pub fn data(&self) -> (r: &V)
        ensures
            *r == self.data,
    {
        &self.data
    }

    /// The data of the vertex, to change it.
    pub fn data_mut(&mut self) -> (r: &mut V)
        ensures
            *r == old(self).data,
            *final(self) == (Vertex { data: *final(r), edges: old(self).edges }),
    {
        &mut self.data
    }

    /// The edges of the vertex.
    pub fn edges(&self) -> (r: &[Edge<E>])
        ensures
            r@ == self.edges@,
    {
        self.edges.as_slice()
    }
}

impl<E> Edge<E> {
    /// The data of the edge.
    pub fn data(&self) -> (r: &E)
        ensures
            *r == self.data,
    {
        &self.data
    }

    /// The data of the edge, to change it.
    pub fn data_mut(&mut self) -> (r: &mut E)
        ensures
            *r == old(self).data,
            *final(self) == (Edge { data: *final(r), target: old(self).target }),
    {
        &mut self.data
    }

    /// The number of the target of the edge.
    pub fn target(&self) -> (r: u64)
        ensures
            r == self.target,
    {
        self.target
    }
}

/// The targets of `edges`.
pub open spec fn targets_of<E>(edges: Seq<Edge<E>>) -> Seq<u64> {
    Seq::new(edges.len(), |i: int| edges[i].target)
}

/// `edges` without those that lead to `dst`.
pub open spec fn without<E>(edges: Seq<Edge<E>>, dst: u64) -> Seq<Edge<E>>
    decreases edges.len(),
{
    if edges.len() == 0 {
        Seq::empty()
    } else if edges.last().target == dst {
        without(edges.drop_last(), dst)
    } else {
        without(edges.drop_last(), dst).push(edges.last())
    }
}

/// The index of the first of the first `n` edges that leads to `dst`.
pub open spec fn first_to<E>(edges: Seq<Edge<E>>, dst: u64, n: nat) -> Option<nat>
    decreases n,
{
    if n == 0 {
        None
    } else {
        match first_to(edges, dst, (n - 1) as nat) {
            Some(i) => Some(i),
            None => if edges[n - 1].target == dst {
                Some((n - 1) as nat)
            } else {
                None
            },
        }
    }
}

impl<V, E> Graph<V, E> {
    /// The numbers of the vertices, each at the index of its vertex.
    pub closed spec fn ids(&self) -> Seq<u64> {
        self.ids@
    }

    /// The vertices, each at its index.
    pub closed spec fn vertices(&self) -> Seq<Vertex<V, E>> {
        self.vertices@
    }

    /// The number that the next vertex gets.
    pub closed spec fn next(&self) -> u64 {
        self.next_id
    }

    /// Whether `id` is the number of a vertex.
    pub open spec fn has(&self, id: u64) -> bool {
        self.ids().contains(id)
    }

    /// The index of the vertex of number `id`.
    pub open spec fn index_of(&self, id: u64) -> int {
        choose|i: int| 0 <= i < self.ids().len() && self.ids()[i] == id
    }

    /// Well-formedness: every vertex has a number of its own, below the
    /// number that the next vertex gets.
    pub closed spec fn wf(&self) -> bool {
        &&& self.ids@.len() == self.vertices@.len()
        &&& self.ids@.no_duplicates()
        &&& forall|i: int| 0 <= i < self.ids@.len() ==> (#[trigger] self.ids@[i]) < self.next_id
        &&& forall|i: int|
            0 <= i < self.ids@.len() ==> self.map@.contains_key(#[trigger] self.ids@[i])
                && self.map@[self.ids@[i]] == i
        &&& forall|k: u64| #[trigger] self.map@.contains_key(k) ==> self.ids@.contains(k)
    }

    /// What `wf` says of the numbers of the vertices.
    pub proof fn lemma_wf(&self)
        requires
            self.wf(),
        ensures
            self.ids().len() == self.vertices().len(),
            self.ids().len() <= usize::MAX,
            self.ids().no_duplicates(),
            forall|id: u64|
                self.has(id) ==> 0 <= #[trigger] self.index_of(id) < self.ids().len()
                    && self.ids()[self.index_of(id)] == id,
            forall|i: int| 0 <= i < self.ids().len() ==> self.index_of(#[trigger] self.ids()[i]) == i,
    {
        assert(self.ids.len() == self.ids@.len());
        assert forall|i: int| 0 <= i < self.ids().len() implies self.index_of(
            #[trigger] self.ids()[i],
        ) == i by {
            let j = self.index_of(self.ids()[i]);
            assert(0 <= j < self.ids().len() && self.ids()[j] == self.ids()[i]);
        }
    }

    /// A graph without vertices.
    pub fn new() -> (g: Self)
        ensures
            g.wf(),
            g.ids() == Seq::<u64>::empty(),
            g.vertices() == Seq::<Vertex<V, E>>::empty(),
            g.next() == 1,
    {
        Graph { vertices: Vec::new(), map: HashMap::new(), ids: Vec::new(), next_id: 1 }
    }

    /// Whether the graph has given out every number that it can.
    pub fn is_full(&self) -> (b: bool)
        ensures
            b == (self.next() == u64::MAX),
    {
        self.next_id == u64::MAX
    }

    /// The number of vertices.
    pub fn vertex_count(&self) -> (n: usize)
        ensures
            n == self.vertices().len(),
    {
        self.vertices.len()
    }

    /// The index of the vertex of number `key`.
    fn get_index(&self, key: u64) -> (r: Option<usize>)
        requires
            self.wf(),
        ensures
            match r {
                Some(i) => self.has(key) && i == self.index_of(key) && i < self.ids().len(),
                None => !self.has(key),
            },
    {
        proof {
            self.lemma_wf();
        }
        match self.map.get(&key) {
            Some(i) => {
                proof {
                    assert(self.map@.contains_key(key));
                    let j = self.index_of(key);
                    assert(self.map@[self.ids@[j]] == j);
                }
                Some(*i)
            },
            None => {
                proof {
                    if self.has(key) {
                        let j = self.index_of(key);
                        assert(self.map@.contains_key(self.ids@[j]));
                    }
                }
                None
            },
        }
    }

    /// A number that no vertex has.
    fn genid(&mut self) -> (id: u64)
        requires
            old(self).wf(),
            old(self).next() < u64::MAX,
        ensures
            final(self).wf(),
            id == old(self).next(),
            final(self).next() == id + 1,
            final(self).ids() == old(self).ids(),
            final(self).vertices() == old(self).vertices(),
            !final(self).has(id),
    {
        let id = self.next_id;
        self.next_id += 1;
        proof {
            if self.has(id) {
                let j = self.index_of(id);
                assert(self.ids@[j] < id);
            }
        }
        id
    }

    /// Adds a vertex with `data` and no edges, and returns its number.
    pub fn add_vertex(&mut self, data: V) -> (id: u64)
        requires
            old(self).wf(),
            old(self).next() < u64::MAX,
        ensures
            final(self).wf(),
            id == old(self).next(),
            final(self).next() == id + 1,
            final(self).ids() == old(self).ids().push(id),
            final(self).vertices().len() == old(self).vertices().len() + 1,
            final(self).vertices().last().data == data,
            final(self).vertices().last().edges@ == Seq::<Edge<E>>::empty(),
            forall|i: int|
                0 <= i < old(self).vertices().len() ==> final(self).vertices()[i] == old(self).vertices()[i],
    {
        let id = self.genid();
        let index = self.vertices.len();
        let ghost before = *self;
        self.vertices.push(Vertex { data, edges: Vec::new() });
        self.ids.push(id);
        self.map.insert(id, index);
        proof {
            assert(self.ids@.no_duplicates()) by {
                assert forall|i: int, j: int|
                    0 <= i < self.ids@.len() && 0 <= j < self.ids@.len() && i != j implies self.ids@[i]
                    != self.ids@[j] by {
                    if i < index && j < index {
                        assert(before.ids@[i] != before.ids@[j]);
                    } else if i < index {
                        assert(before.ids@.contains(before.ids@[i]));
                    } else if j < index {
                        assert(before.ids@.contains(before.ids@[j]));
                    }
                }
            }
            assert forall|i: int| 0 <= i < self.ids@.len() implies self.map@.contains_key(
                #[trigger] self.ids@[i],
            ) && self.map@[self.ids@[i]] == i by {
                if i < index {
                    assert(before.ids@[i] == self.ids@[i]);
                    assert(before.ids@.contains(before.ids@[i]));
                }
            }
            assert forall|k: u64| #[trigger] self.map@.contains_key(k) implies self.ids@.contains(
                k,
            ) by {
                if k == id {
                    assert(self.ids@[index as int] == id);
                } else {
                    assert(before.map@.contains_key(k));
                    let j = choose|j: int| 0 <= j < before.ids@.len() && before.ids@[j] == k;
                    assert(self.ids@[j] == k);
                }
            }
        }
        id
    }

    /// Adds an edge from `src` to `dst` with `data`, after the edges of
    /// `src`. `src` must be a vertex.
    pub fn add_edge(&mut self, src: u64, dst: u64, data: E)
        requires
            old(self).wf(),
            old(self).has(src),
        ensures
            final(self).wf(),
            final(self).ids() == old(self).ids(),
            final(self).next() == old(self).next(),
            final(self).vertices().len() == old(self).vertices().len(),
            ({
                let i = old(self).index_of(src);
                &&& final(self).vertices()[i].data == old(self).vertices()[i].data
                &&& final(self).vertices()[i].edges@ == old(self).vertices()[i].edges@.push(
                    Edge { data, target: dst },
                )
            }),
            forall|i: int|
                0 <= i < old(self).vertices().len() && i != old(self).index_of(src) ==> final(self).vertices()[i] == old(self).vertices()[i],
    {
        let src_index = match self.get_index(src) {
            Some(i) => i,
            None => {
                return ;
            },
        };
        self.vertices[src_index].edges.push(Edge { data, target: dst });
    }

    /// Removes the vertex of number `deleted`; the last vertex takes its
    /// index. The edges that lead to it stay. `deleted` must be a vertex.
    pub fn remove_vertex(&mut self, deleted: u64)
        requires
            old(self).wf(),
            old(self).has(deleted),
        ensures
            final(self).wf(),
            final(self).next() == old(self).next(),
            ({
                let i = old(self).index_of(deleted);
                &&& final(self).ids() == old(self).ids().update(i, old(self).ids().last()).drop_last()
                &&& final(self).vertices() == old(self).vertices().update(
                    i,
                    old(self).vertices().last(),
                ).drop_last()
            }),
    {
        let index = match self.get_index(deleted) {
            Some(i) => i,
            None => {
                return ;
            },
        };
        let ghost before = *self;
        let last = self.vertices.len() - 1;
        self.vertices.swap_remove(index);
        let moved = self.ids.swap_remove(index);
        self.map.remove(&deleted);
        if index < last {
            let id = self.ids[index];
            self.map.insert(id, index);
        }
        proof {
            assert(self.ids@.no_duplicates()) by {
                assert forall|i: int, j: int|
                    0 <= i < self.ids@.len() && 0 <= j < self.ids@.len() && i != j implies self.ids@[i]
                    != self.ids@[j] by {
                    let i0 = if i == index {
                        last as int
                    } else {
                        i
                    };
                    let j0 = if j == index {
                        last as int
                    } else {
                        j
                    };
                    assert(before.ids@[i0] != before.ids@[j0]);
                }
            }
            assert forall|i: int| 0 <= i < self.ids@.len() implies (#[trigger] self.ids@[i])
                < self.next_id by {
                let i0 = if i == index {
                    last as int
                } else {
                    i
                };
                assert(self.ids@[i] == before.ids@[i0]);
            }
            assert forall|i: int| 0 <= i < self.ids@.len() implies self.map@.contains_key(
                #[trigger] self.ids@[i],
            ) && self.map@[self.ids@[i]] == i by {
                let i0 = if i == index {
                    last as int
                } else {
                    i
                };
                assert(self.ids@[i] == before.ids@[i0]);
                assert(before.ids@[i0] != before.ids@[index as int]);
                assert(before.map@.contains_key(before.ids@[i0]));
            }
            assert forall|k: u64| #[trigger] self.map@.contains_key(k) implies self.ids@.contains(
                k,
            ) by {
                if index < last && k == self.ids@[index as int] {
                } else {
                    assert(before.map@.contains_key(k));
                    let j = choose|j: int| 0 <= j < before.ids@.len() && before.ids@[j] == k;
                    assert(j != index);
                    if j == last {
                        assert(self.ids@[index as int] == k);
                    } else {
                        assert(self.ids@[j] == k);
                    }
                }
            }
        }
    }

    /// Removes the edges from `src` to `dst`. `src` must be a vertex.
    pub fn remove_edge(&mut self, src: u64, dst: u64)
        requires
            old(self).wf(),
            old(self).has(src),
        ensures
            final(self).wf(),
            final(self).ids() == old(self).ids(),
            final(self).next() == old(self).next(),
            final(self).vertices().len() == old(self).vertices().len(),
            ({
                let i = old(self).index_of(src);
                &&& final(self).vertices()[i].data == old(self).vertices()[i].data
                &&& final(self).vertices()[i].edges@ == without(old(self).vertices()[i].edges@, dst)
            }),
            forall|i: int|
                0 <= i < old(self).vertices().len() && i != old(self).index_of(src) ==> final(self).vertices()[i] == old(self).vertices()[i],
    {
        let src_index = match self.get_index(src) {
            Some(i) => i,
            None => {
                return ;
            },
        };
        let ghost all = self.vertices@[src_index as int].edges@;
        let ghost data = self.vertices@[src_index as int].data;
        let mut k: usize = 0;
        let mut done: Ghost<int> = Ghost(0);
        proof {
            assert(all.take(0) =~= Seq::<Edge<E>>::empty());
            assert(all.skip(0) =~= all);
        }
        while k < self.vertices[src_index].edges.len()
            invariant
                self.wf(),
                self.ids == old(self).ids,
                self.next_id == old(self).next_id,
                src_index == old(self).index_of(src),
                src_index < self.vertices@.len(),
                self.vertices@.len() == old(self).vertices@.len(),
                forall|i: int|
                    0 <= i < self.vertices@.len() && i != src_index ==> self.vertices@[i] == old(self).vertices@[i],
                self.vertices@[src_index as int].data == data,
                0 <= done@ <= all.len(),
                k <= self.vertices@[src_index as int].edges@.len(),
                self.vertices@[src_index as int].edges@.take(k as int) == without(
                    all.take(done@),
                    dst,
                ),
                self.vertices@[src_index as int].edges@.skip(k as int) == all.skip(done@),
            decreases all.len() - done@,
        {
            let ghost edges = self.vertices@[src_index as int].edges@;
            proof {
                assert(edges.skip(k as int).len() == edges.len() - k);
                assert(all.skip(done@).len() == all.len() - done@);
                assert(edges.skip(k as int)[0] == all.skip(done@)[0]);
                assert(all.take(done@ + 1).drop_last() =~= all.take(done@));
            }
            if self.vertices[src_index].edges[k].target == dst {
                self.vertices[src_index].edges.remove(k);
                proof {
                    let after = self.vertices@[src_index as int].edges@;
                    assert(after.take(k as int) =~= edges.take(k as int));
                    assert(after.skip(k as int) =~= edges.skip(k as int).skip(1));
                    assert(all.skip(done@).skip(1) =~= all.skip(done@ + 1));
                    done@ = done@ + 1;
                }
            } else {
                proof {
                    assert(edges.take(k + 1) =~= edges.take(k as int).push(edges[k as int]));
                    assert(edges.skip(k + 1) =~= edges.skip(k as int).skip(1));
                    assert(all.skip(done@).skip(1) =~= all.skip(done@ + 1));
                    done@ = done@ + 1;
                }
                k += 1;
            }
        }
        proof {
            let edges = self.vertices@[src_index as int].edges@;
            assert(edges.skip(k as int).len() == 0);
            assert(all.take(done@) =~= all);
            assert(edges.take(k as int) =~= edges);
        }
    }

    /// The vertex of number `vertex`.
    pub fn get_vertex(&self, vertex: u64) -> (r: Option<&Vertex<V, E>>)
        requires
            self.wf(),
        ensures
            match r {
                Some(v) => self.has(vertex) && *v == self.vertices()[self.index_of(vertex)],
                None => !self.has(vertex),
            },
    {
        match self.get_index(vertex) {
            Some(index) => Some(&self.vertices[index]),
            None => None,
        }
    }

    /// The first edge from `src` to `dst`.
    pub fn get_edge(&self, src: u64, dst: u64) -> (r: Option<&Edge<E>>)
        requires
            self.wf(),
        ensures
            match r {
                Some(e) => {
                    let edges = self.vertices()[self.index_of(src)].edges@;
                    &&& self.has(src)
                    &&& first_to(edges, dst, edges.len()) matches Some(i)
                    &&& i < edges.len()
                    &&& *e == edges[i as int]
                    &&& e.target == dst
                },
                None => !self.has(src) || first_to(
                    self.vertices()[self.index_of(src)].edges@,
                    dst,
                    self.vertices()[self.index_of(src)].edges@.len(),
                ) is None,
            },
    {
        let src_index = match self.get_index(src) {
            Some(i) => i,
            None => {
                return None;
            },
        };
        let ghost edges = self.vertices@[src_index as int].edges@;
        let n = self.vertices[src_index].edges.len();
        let mut i: usize = 0;
        while i < n
            invariant
                i <= n,
                self.wf(),
                self.has(src),
                src_index == self.index_of(src),
                src_index < self.vertices@.len(),
                edges == self.vertices@[src_index as int].edges@,
                n == edges.len(),
                first_to(edges, dst, i as nat) is None,
            decreases n - i,
        {
            if self.vertices[src_index].edges[i].target == dst {
                proof {
                    lemma_first_to(edges, dst, i as nat, n as nat);
                }
                return Some(&self.vertices[src_index].edges[i]);
            }
            i += 1;
        }
        None
    }

    /// The edges of the vertex of number `src`.
    pub fn get_edges(&self, src: u64) -> (r: Option<&[Edge<E>]>)
        requires
            self.wf(),
        ensures
            match r {
                Some(edges) => self.has(src) && edges@ == self.vertices()[self.index_of(
                    src,
                )].edges@,
                None => !self.has(src),
            },
    {
        match self.get_index(src) {
            Some(index) => Some(self.vertices[index].edges.as_slice()),
            None => None,
        }
    }

    /// Whether `vertex` is the number of a vertex.
    pub fn has_vertex(&self, vertex: u64) -> (b: bool)
        requires
            self.wf(),
        ensures
            b == self.has(vertex),
    {
        self.get_index(vertex).is_some()
    }

    /// Whether an edge leads from `src` to `dst`. `src` must be a vertex.
    pub fn has_edge(&self, src: u64, dst: u64) -> (b: bool)
        requires
            self.wf(),
            self.has(src),
        ensures
            b == targets_of(self.vertices()[self.index_of(src)].edges@).contains(dst),
    {
        let found = self.get_edge(src, dst);
        proof {
            let edges = self.vertices()[self.index_of(src)].edges@;
            lemma_first_to_none(edges, dst, edges.len());
            if found is Some {
                let i = first_to(edges, dst, edges.len())->0;
                assert(targets_of(edges)[i as int] == dst);
            }
        }
        found.is_some()
    }
}

/// An edge that leads to `dst`, with no such edge before it, is the first
/// such edge.
proof fn lemma_first_to<E>(edges: Seq<Edge<E>>, dst: u64, i: nat, n: nat)
    requires
        i < n <= edges.len(),
        first_to(edges, dst, i) is None,
        edges[i as int].target == dst,
    ensures
        first_to(edges, dst, n) == Some(i),
    decreases n,
{
    if n > i + 1 {
        lemma_first_to(edges, dst, i, (n - 1) as nat);
    }
}

/// Where no first edge leads to `dst`, none of the edges does.
proof fn lemma_first_to_none<E>(edges: Seq<Edge<E>>, dst: u64, n: nat)
    requires
        n <= edges.len(),
    ensures
        first_to(edges, dst, n) is None ==> forall|i: int|
            0 <= i < n ==> (#[trigger] targets_of(edges)[i]) != dst,
        first_to(edges, dst, n) matches Some(i) ==> i < n && edges[i as int].target == dst,
    decreases n,
{
    if n > 0 {
        lemma_first_to_none(edges, dst, (n - 1) as nat);
    }
}


/// What a visitor is shown: a vertex, by its number, or an edge, by the
/// numbers of its source and of its target.
pub enum Visit {
    Vertex(u64),
    Edge(u64, u64),
}

/// A visitor of the vertices and edges of a graph.
pub trait Visitor<V, E>: Sized {
    /// What the visitor was shown so far, in order.
    open spec fn seen(&self) -> Seq<Visit> {
        Seq::empty()
    }

    /// Shows the vertex of number `vertex` to the visitor.
    fn visit_vertex(&mut self, vertex: u64, data: &V)
        ensures
            final(self).seen() == old(self).seen().push(Visit::Vertex(vertex)),
    ;

    /// Shows an edge from `src` to `dst` to the visitor.
    fn visit_edge(&mut self, src: u64, dst: u64, data: &E)
        ensures
            final(self).seen() == old(self).seen().push(Visit::Edge(src, dst)),
    ;
}

/// A visitor that may change the data of the vertices and edges that it is
/// shown.
pub trait VisitorMut<V, E>: Sized {
    /// What the visitor was shown so far, in order.
    open spec fn seen(&self) -> Seq<Visit> {
        Seq::empty()
    }

    /// Shows the vertex of number `vertex` to the visitor.
    fn visit_mut_vertex(&mut self, vertex: u64, data: &mut V)
        ensures
            final(self).seen() == old(self).seen().push(Visit::Vertex(vertex)),
    ;

    /// Shows an edge from `src` to `dst` to the visitor.
    fn visit_mut_edge(&mut self, src: u64, dst: u64, data: &mut E)
        ensures
            final(self).seen() == old(self).seen().push(Visit::Edge(src, dst)),
    ;
}

/// The shape of a graph: the numbers of its vertices, and for each vertex
/// the targets of its edges.
pub struct Shape {
    pub ids: Seq<u64>,
    pub targets: Seq<Seq<u64>>,
}

impl Shape {
    /// The index of the vertex of number `id`.
    pub open spec fn index_of(self, id: u64) -> int {
        choose|i: int| 0 <= i < self.ids.len() && self.ids[i] == id
    }

    /// Whether every vertex has a number of its own, and every edge leads
    /// to a vertex.
    pub open spec fn closed(self) -> bool {
        &&& self.ids.len() == self.targets.len()
        &&& self.ids.len() <= usize::MAX
        &&& self.ids.no_duplicates()
        &&& forall|i: int, j: int|
            0 <= i < self.targets.len() && 0 <= j < self.targets[i].len() ==> self.ids.contains(
                #[trigger] self.targets[i][j],
            )
    }

    /// For each vertex, the indices of the targets of its edges.
    pub open spec fn forward(self) -> Seq<Seq<usize>> {
        Seq::new(
            self.targets.len(),
            |i: int|
                Seq::new(self.targets[i].len(), |j: int| self.index_of(self.targets[i][j]) as usize),
        )
    }

    /// The index `a`, once for each of the first `j` edges of the vertex
    /// of index `a` that leads to the vertex of index `i`.
    pub open spec fn hits(self, i: int, a: int, j: nat) -> Seq<usize>
        decreases j,
    {
        if j == 0 {
            Seq::empty()
        } else if self.targets[a][j - 1] == self.ids[i] {
            self.hits(i, a, (j - 1) as nat).push(a as usize)
        } else {
            self.hits(i, a, (j - 1) as nat)
        }
    }

    /// The source of each edge of the first `a` vertices that leads to the
    /// vertex of index `i`, in the order of the vertices and of their
    /// edges.
    pub open spec fn sources(self, i: int, a: nat) -> Seq<usize>
        decreases a,
    {
        if a == 0 {
            Seq::empty()
        } else {
            self.sources(i, (a - 1) as nat) + self.hits(i, a - 1, self.targets[a - 1].len())
        }
    }

    /// For each vertex, the sources of the edges that lead to it.
    pub open spec fn backward(self) -> Seq<Seq<usize>> {
        Seq::new(self.targets.len(), |i: int| self.sources(i, self.targets.len()))
    }

    /// What a visitor is shown of the edges that leave the vertex of index
    /// `i`.
    pub open spec fn leaving(self, i: int, n: nat) -> Seq<Visit> {
        Seq::new(n, |j: int| Visit::Edge(self.ids[i], self.targets[i][j]))
    }

    /// What a visitor is shown of the edges that come to the vertex of
    /// index `i` from the sources `from`.
    pub open spec fn coming(self, i: int, from: Seq<usize>) -> Seq<Visit> {
        Seq::new(from.len(), |k: int| Visit::Edge(self.ids[from[k] as int], self.ids[i]))
    }

    /// What a visitor is shown of the vertex of index `i`: the vertex,
    /// then its edges.
    pub open spec fn out_events(self, i: int) -> Seq<Visit> {
        seq![Visit::Vertex(self.ids[i])] + self.leaving(i, self.targets[i].len())
    }

    /// What a visitor is shown of the vertex of index `i` when the edges
    /// are walked against their direction: the vertex, then the edges that
    /// lead to it.
    pub open spec fn in_events(self, i: int) -> Seq<Visit> {
        seq![Visit::Vertex(self.ids[i])] + self.coming(i, self.backward()[i])
    }

    /// What a visitor is shown of the vertices of `order`, one after the
    /// other, with the edges that leave them.
    pub open spec fn tour(self, order: Seq<usize>) -> Seq<Visit>
        decreases order.len(),
    {
        if order.len() == 0 {
            Seq::empty()
        } else {
            self.tour(order.drop_last()) + self.out_events(order.last() as int)
        }
    }

    /// What a visitor is shown of the vertices of `order`, one after the
    /// other, with the edges that lead to them.
    pub open spec fn tour_back(self, order: Seq<usize>) -> Seq<Visit>
        decreases order.len(),
    {
        if order.len() == 0 {
            Seq::empty()
        } else {
            self.tour_back(order.drop_last()) + self.in_events(order.last() as int)
        }
    }

    /// The indices of the vertices of the numbers `ids`.
    pub open spec fn indices(self, ids: Seq<u64>) -> Seq<usize> {
        Seq::new(ids.len(), |k: int| self.index_of(ids[k]) as usize)
    }

    /// The indices of all the vertices, in order.
    pub open spec fn all(self) -> Seq<usize> {
        Seq::new(self.ids.len(), |i: int| i as usize)
    }
}

impl<V, E> Graph<V, E> {
    /// The shape of the graph.
    pub closed spec fn shape(&self) -> Shape {
        Shape {
            ids: self.ids@,
            targets: Seq::new(self.vertices@.len(), |i: int| targets_of(self.vertices@[i].edges@)),
        }
    }

    /// What the shape of a graph is, by its vertices.
    pub proof fn lemma_shape(&self)
        requires
            self.wf(),
        ensures
            self.shape().ids == self.ids(),
            self.shape().targets.len() == self.vertices().len(),
            forall|i: int|
                0 <= i < self.vertices().len() ==> #[trigger] self.shape().targets[i] == targets_of(
                    self.vertices()[i].edges@,
                ),
            forall|id: u64| self.shape().index_of(id) == self.index_of(id),
            self.shape().ids.len() <= usize::MAX,
            self.shape().ids.no_duplicates(),
    {
        self.lemma_wf();
    }

    /// The indices of the vertices of the numbers `ids`, which must all be
    /// vertices.
    fn indices_of(&self, ids: &[u64]) -> (out: Vec<usize>)
        requires
            self.wf(),
            forall|k: int| 0 <= k < ids@.len() ==> self.has(#[trigger] ids@[k]),
        ensures
            out@ == self.shape().indices(ids@),
            below(out@, self.ids().len()),
    {
        proof {
            self.lemma_shape();
            self.lemma_wf();
        }
        let mut out: Vec<usize> = Vec::new();
        let mut k: usize = 0;
        while k < ids.len()
            invariant
                k <= ids@.len(),
                self.wf(),
                forall|j: int| 0 <= j < ids@.len() ==> self.has(#[trigger] ids@[j]),
                forall|id: u64| self.shape().index_of(id) == self.index_of(id),
                out@ == self.shape().indices(ids@.take(k as int)),
                below(out@, self.ids().len()),
            decreases ids@.len() - k,
        {
            let ghost before = out@;
            let index = match self.get_index(ids[k]) {
                Some(i) => i,
                None => 0,
            };
            out.push(index);
            proof {
                assert(out@ =~= self.shape().indices(ids@.take(k + 1)));
                assert forall|j: int| 0 <= j < out@.len() implies (#[trigger] out@[j])
                    < self.ids().len() by {
                    if j < before.len() {
                        assert(out@[j] == before[j]);
                    }
                }
            }
            k += 1;
        }
        proof {
            assert(ids@.take(ids@.len() as int) =~= ids@);
        }
        out
    }

    /// For each vertex, the indices of the targets of its edges.
    fn forward_lists(&self) -> (adj: Vec<Vec<usize>>)
        requires
            self.wf(),
            self.shape().closed(),
        ensures
            lists(adj@) == self.shape().forward(),
            closed_lists(lists(adj@)),
            adj@.len() == self.ids().len(),
    {
        proof {
            self.lemma_shape();
            self.lemma_wf();
        }
        let ghost shape = self.shape();
        let mut adj: Vec<Vec<usize>> = Vec::new();
        let n = self.vertices.len();
        let mut a: usize = 0;
        while a < n
            invariant
                a <= n,
                n == self.vertices@.len(),
                self.wf(),
                shape == self.shape(),
                shape.closed(),
                forall|id: u64| shape.index_of(id) == self.index_of(id),
                adj@.len() == a,
                forall|k: int| 0 <= k < a ==> (#[trigger] adj@[k])@ == shape.forward()[k],
            decreases n - a,
        {
            let mut list: Vec<usize> = Vec::new();
            let m = self.vertices[a].edges.len();
            let mut j: usize = 0;
            proof {
                assert(shape.targets[a as int] == targets_of(self.vertices@[a as int].edges@));
            }
            while j < m
                invariant
                    j <= m,
                    a < n,
                    n == self.vertices@.len(),
                    self.wf(),
                    shape == self.shape(),
                    shape.closed(),
                    forall|id: u64| shape.index_of(id) == self.index_of(id),
                    m == self.vertices@[a as int].edges@.len(),
                    shape.targets[a as int] == targets_of(self.vertices@[a as int].edges@),
                    list@ == shape.forward()[a as int].take(j as int),
                decreases m - j,
            {
                let target = self.vertices[a].edges[j].target;
                proof {
                    assert(shape.targets[a as int][j as int] == target);
                    assert(shape.ids.contains(target));
                }
                let index = match self.get_index(target) {
                    Some(i) => i,
                    None => 0,
                };
                list.push(index);
                proof {
                    assert(list@ =~= shape.forward()[a as int].take(j + 1));
                }
                j += 1;
            }
            proof {
                assert(shape.forward()[a as int].take(m as int) =~= shape.forward()[a as int]);
            }
            adj.push(list);
            a += 1;
        }
        proof {
            assert(lists(adj@) =~= shape.forward());
            assert forall|x: int, i: int|
                0 <= x < shape.forward().len() && 0 <= i < shape.forward()[x].len() implies (
            #[trigger] shape.forward()[x][i]) < shape.forward().len() by {
                let t = shape.targets[x][i];
                assert(shape.ids.contains(t));
                let k = shape.index_of(t);
                assert(0 <= k < shape.ids.len());
            }
        }
        adj
    }

    /// Shows every vertex to `visitor`, each followed by its edges, in the
    /// order of their indices.
    pub fn visit<Vi: Visitor<V, E>>(&self, visitor: &mut Vi)
        requires
            self.wf(),
        ensures
            final(visitor).seen() == old(visitor).seen() + self.shape().tour(self.shape().all()),
    {
        proof {
            self.lemma_shape();
        }
        let ghost shape = self.shape();
        let n = self.vertices.len();
        let mut i: usize = 0;
        proof {
            assert(shape.all().take(0) =~= Seq::<usize>::empty());
            assert(visitor.seen() =~= old(visitor).seen() + shape.tour(shape.all().take(0)));
        }
        while i < n
            invariant
                i <= n,
                n == self.vertices@.len(),
                n == shape.ids.len(),
                self.wf(),
                shape == self.shape(),
                visitor.seen() == old(visitor).seen() + shape.tour(shape.all().take(i as int)),
            decreases n - i,
        {
            let ghost before = visitor.seen();
            self.show(i, visitor);
            proof {
                let order = shape.all().take(i + 1);
                assert(order.drop_last() =~= shape.all().take(i as int));
                assert(order.last() == i);
                assert(visitor.seen() =~= old(visitor).seen() + shape.tour(order));
            }
            i += 1;
        }
        proof {
            assert(shape.all().take(n as int) =~= shape.all());
        }
    }

    /// Shows the vertex of index `i` to `visitor`, then its edges.
    fn show<Vi: Visitor<V, E>>(&self, i: usize, visitor: &mut Vi)
        requires
            self.wf(),
            i < self.ids().len(),
        ensures
            final(visitor).seen() == old(visitor).seen() + self.shape().out_events(i as int),
    {
        proof {
            self.lemma_shape();
        }
        let ghost shape = self.shape();
        let id = self.ids[i];
        visitor.visit_vertex(id, &self.vertices[i].data);
        let ghost head = visitor.seen();
        let m = self.vertices[i].edges.len();
        let mut j: usize = 0;
        proof {
            assert(shape.targets[i as int] == targets_of(self.vertices@[i as int].edges@));
            assert(visitor.seen() =~= head + shape.leaving(i as int, 0));
        }
        while j < m
            invariant
                j <= m,
                i < self.vertices@.len(),
                self.wf(),
                shape == self.shape(),
                id == shape.ids[i as int],
                m == self.vertices@[i as int].edges@.len(),
                shape.targets[i as int] == targets_of(self.vertices@[i as int].edges@),
                visitor.seen() == head + shape.leaving(i as int, j as nat),
            decreases m - j,
        {
            let edge = &self.vertices[i].edges[j];
            visitor.visit_edge(id, edge.target, &edge.data);
            proof {
                assert(visitor.seen() =~= head + shape.leaving(i as int, (j + 1) as nat));
            }
            j += 1;
        }
        proof {
            assert(visitor.seen() =~= old(visitor).seen() + shape.out_events(i as int));
        }
    }

    /// Walks the graph in depth from the vertices `start`, the last first,
    /// and shows each vertex that it reaches to `visitor`, once, followed
    /// by its edges. The vertices of `start` must be vertices, and every
    /// edge must lead to one.
    pub fn visit_from<Vi: Visitor<V, E>>(&self, start: &[u64], visitor: &mut Vi)
        requires
            self.wf(),
            self.shape().closed(),
            forall|k: int| 0 <= k < start@.len() ==> self.has(#[trigger] start@[k]),
        ensures
            final(visitor).seen() == old(visitor).seen() + self.shape().tour(
                walk_from(self.shape().forward(), self.shape().indices(start@)),
            ),
    {
        let adj = self.forward_lists();
        let roots = self.indices_of(start);
        let (order, _) = walk_order(&adj, &roots);
        let ghost shape = self.shape();
        let n = order.len();
        let mut k: usize = 0;
        proof {
            assert(order@.take(0) =~= Seq::<usize>::empty());
            assert(visitor.seen() =~= old(visitor).seen() + shape.tour(order@.take(0)));
        }
        while k < n
            invariant
                k <= n,
                n == order@.len(),
                self.wf(),
                shape == self.shape(),
                below(order@, self.ids().len()),
                visitor.seen() == old(visitor).seen() + shape.tour(order@.take(k as int)),
            decreases n - k,
        {
            self.show(order[k], visitor);
            proof {
                let done = order@.take(k + 1);
                assert(done.drop_last() =~= order@.take(k as int));
                assert(done.last() == order@[k as int]);
                assert(visitor.seen() =~= old(visitor).seen() + shape.tour(done));
            }
            k += 1;
        }
        proof {
            assert(order@.take(n as int) =~= order@);
        }
    }
}


impl<V, E> Graph<V, E> {
    /// For each vertex, the indices of the sources of the edges that lead
    /// to it.
    fn backward_lists(&self) -> (rev: Vec<Vec<usize>>)
        requires
            self.wf(),
            self.shape().closed(),
        ensures
            lists(rev@) == self.shape().backward(),
            closed_lists(lists(rev@)),
            rev@.len() == self.ids().len(),
    {
        proof {
            self.lemma_shape();
            self.lemma_wf();
        }
        let ghost shape = self.shape();
        let n = self.vertices.len();
        let mut rev: Vec<Vec<usize>> = Vec::new();
        let mut k: usize = 0;
        while k < n
            invariant
                k <= n,
                rev@.len() == k,
                forall|i: int| 0 <= i < k ==> (#[trigger] rev@[i])@ == Seq::<usize>::empty(),
            decreases n - k,
        {
            rev.push(Vec::new());
            k += 1;
        }
        let mut a: usize = 0;
        while a < n
            invariant
                a <= n,
                n == self.vertices@.len(),
                self.wf(),
                shape == self.shape(),
                shape.closed(),
                forall|id: u64| shape.index_of(id) == self.index_of(id),
                rev@.len() == n,
                forall|i: int| 0 <= i < n ==> (#[trigger] rev@[i])@ == shape.sources(i, a as nat),
                forall|i: int| 0 <= i < n ==> below((#[trigger] rev@[i])@, n as nat),
            decreases n - a,
        {
            let m = self.vertices[a].edges.len();
            let mut j: usize = 0;
            proof {
                assert(shape.targets[a as int] == targets_of(self.vertices@[a as int].edges@));
                assert forall|i: int| 0 <= i < n implies (#[trigger] rev@[i])@ == shape.sources(
                    i,
                    a as nat,
                ) + shape.hits(i, a as int, 0) by {
                    assert(shape.sources(i, a as nat) + shape.hits(i, a as int, 0)
                        =~= shape.sources(i, a as nat));
                }
            }
            while j < m
                invariant
                    j <= m,
                    a < n,
                    n == self.vertices@.len(),
                    self.wf(),
                    shape == self.shape(),
                    shape.closed(),
                    forall|id: u64| shape.index_of(id) == self.index_of(id),
                    m == self.vertices@[a as int].edges@.len(),
                    shape.targets[a as int] == targets_of(self.vertices@[a as int].edges@),
                    rev@.len() == n,
                    forall|i: int|
                        0 <= i < n ==> (#[trigger] rev@[i])@ == shape.sources(i, a as nat)
                            + shape.hits(i, a as int, j as nat),
                    forall|i: int| 0 <= i < n ==> below((#[trigger] rev@[i])@, n as nat),
                decreases m - j,
            {
                let target = self.vertices[a].edges[j].target;
                proof {
                    assert(shape.targets[a as int][j as int] == target);
                    assert(shape.ids.contains(target));
                }
                let t = match self.get_index(target) {
                    Some(i) => i,
                    None => 0,
                };
                let ghost before = rev@;
                rev[t].push(a);
                proof {
                    assert forall|i: int| 0 <= i < n implies (#[trigger] rev@[i])@
                        == shape.sources(i, a as nat) + shape.hits(i, a as int, (j + 1) as nat)
                        && below(rev@[i]@, n as nat) by {
                        if i == t {
                            assert(rev@[i]@ == before[i]@.push(a));
                            assert(rev@[i]@ =~= shape.sources(i, a as nat) + shape.hits(
                                i,
                                a as int,
                                (j + 1) as nat,
                            ));
                            assert forall|x: int| 0 <= x < rev@[i]@.len() implies (
                            #[trigger] rev@[i]@[x]) < n by {
                                if x < before[i]@.len() {
                                    assert(rev@[i]@[x] == before[i]@[x]);
                                }
                            }
                        } else {
                            assert(rev@[i] == before[i]);
                            assert(shape.ids[i] != shape.ids[t as int]);
                        }
                    }
                }
                j += 1;
            }
            a += 1;
        }
        proof {
            assert(lists(rev@) =~= shape.backward());
            assert forall|x: int, i: int|
                0 <= x < lists(rev@).len() && 0 <= i < lists(rev@)[x].len() implies (
            #[trigger] lists(rev@)[x][i]) < lists(rev@).len() by {
                assert(below(rev@[x]@, n as nat));
            }
        }
        rev
    }

    /// Shows the vertex of index `i` to `visitor`, then the edges that lead
    /// to it, in the order of their sources.
    fn show_back<Vi: Visitor<V, E>>(&self, i: usize, visitor: &mut Vi)
        requires
            self.wf(),
            i < self.ids().len(),
        ensures
            final(visitor).seen() == old(visitor).seen() + self.shape().in_events(i as int),
    {
        proof {
            self.lemma_shape();
        }
        let ghost shape = self.shape();
        let id = self.ids[i];
        visitor.visit_vertex(id, &self.vertices[i].data);
        let ghost head = visitor.seen();
        let n = self.vertices.len();
        let mut a: usize = 0;
        proof {
            assert(visitor.seen() =~= head + shape.coming(i as int, shape.sources(i as int, 0)));
        }
        while a < n
            invariant
                a <= n,
                i < n,
                n == self.vertices@.len(),
                self.wf(),
                shape == self.shape(),
                id == shape.ids[i as int],
                visitor.seen() == head + shape.coming(i as int, shape.sources(i as int, a as nat)),
            decreases n - a,
        {
            let m = self.vertices[a].edges.len();
            let src = self.ids[a];
            let mut j: usize = 0;
            proof {
                assert(shape.targets[a as int] == targets_of(self.vertices@[a as int].edges@));
                assert(shape.sources(i as int, a as nat) + shape.hits(i as int, a as int, 0)
                    =~= shape.sources(i as int, a as nat));
            }
            while j < m
                invariant
                    j <= m,
                    a < n,
                    i < n,
                    n == self.vertices@.len(),
                    self.wf(),
                    shape == self.shape(),
                    id == shape.ids[i as int],
                    src == shape.ids[a as int],
                    m == self.vertices@[a as int].edges@.len(),
                    shape.targets[a as int] == targets_of(self.vertices@[a as int].edges@),
                    visitor.seen() == head + shape.coming(
                        i as int,
                        shape.sources(i as int, a as nat) + shape.hits(i as int, a as int, j as nat),
                    ),
                decreases m - j,
            {
                let edge = &self.vertices[a].edges[j];
                proof {
                    assert(shape.targets[a as int][j as int] == edge.target);
                }
                if edge.target == id {
                    visitor.visit_edge(src, id, &edge.data);
                }
                proof {
                    assert(visitor.seen() =~= head + shape.coming(
                        i as int,
                        shape.sources(i as int, a as nat) + shape.hits(
                            i as int,
                            a as int,
                            (j + 1) as nat,
                        ),
                    ));
                }
                j += 1;
            }
            a += 1;
        }
        proof {
            assert(visitor.seen() =~= old(visitor).seen() + shape.in_events(i as int));
        }
    }

    /// Walks the graph in depth against its edges from the vertices `end`,
    /// the last first, and shows each vertex that it reaches to `visitor`,
    /// once, followed by the edges that lead to it. The vertices of `end`
    /// must be vertices, and every edge must lead to one.
    pub fn visit_to<Vi: Visitor<V, E>>(&self, end: &[u64], visitor: &mut Vi)
        requires
            self.wf(),
            self.shape().closed(),
            forall|k: int| 0 <= k < end@.len() ==> self.has(#[trigger] end@[k]),
        ensures
            final(visitor).seen() == old(visitor).seen() + self.shape().tour_back(
                walk_from(self.shape().backward(), self.shape().indices(end@)),
            ),
    {
        let rev = self.backward_lists();
        let roots = self.indices_of(end);
        let (order, _) = walk_order(&rev, &roots);
        let ghost shape = self.shape();
        let n = order.len();
        let mut k: usize = 0;
        proof {
            assert(order@.take(0) =~= Seq::<usize>::empty());
            assert(visitor.seen() =~= old(visitor).seen() + shape.tour_back(order@.take(0)));
        }
        while k < n
            invariant
                k <= n,
                n == order@.len(),
                self.wf(),
                shape == self.shape(),
                below(order@, self.ids().len()),
                visitor.seen() == old(visitor).seen() + shape.tour_back(order@.take(k as int)),
            decreases n - k,
        {
            self.show_back(order[k], visitor);
            proof {
                let done = order@.take(k + 1);
                assert(done.drop_last() =~= order@.take(k as int));
                assert(done.last() == order@[k as int]);
                assert(visitor.seen() =~= old(visitor).seen() + shape.tour_back(done));
            }
            k += 1;
        }
        proof {
            assert(order@.take(n as int) =~= order@);
        }
    }

    /// Shows the vertex of index `i` to `visitor`, then its edges; the
    /// visitor may change their data.
    fn show_mut<Vi: VisitorMut<V, E>>(&mut self, i: usize, visitor: &mut Vi)
        requires
            old(self).wf(),
            i < old(self).ids().len(),
        ensures
            final(self).wf(),
            final(self).shape() == old(self).shape(),
            final(self).next() == old(self).next(),
            final(visitor).seen() == old(visitor).seen() + old(self).shape().out_events(i as int),
    {
        proof {
            self.lemma_shape();
        }
        let ghost shape = self.shape();
        let id = self.ids[i];
        visitor.visit_mut_vertex(id, &mut self.vertices[i].data);
        let ghost head = visitor.seen();
        let m = self.vertices[i].edges.len();
        let mut j: usize = 0;
        proof {
            assert(self.shape().targets =~= shape.targets);
            assert(shape.targets[i as int] == targets_of(self.vertices@[i as int].edges@));
            assert(visitor.seen() =~= head + shape.leaving(i as int, 0));
        }
        while j < m
            invariant
                j <= m,
                i < self.vertices@.len(),
                self.wf(),
                self.next_id == old(self).next_id,
                shape == self.shape(),
                id == shape.ids[i as int],
                m == self.vertices@[i as int].edges@.len(),
                shape.targets[i as int] == targets_of(self.vertices@[i as int].edges@),
                visitor.seen() == head + shape.leaving(i as int, j as nat),
            decreases m - j,
        {
            let target = self.vertices[i].edges[j].target;
            let ghost before = self.vertices@;
            visitor.visit_mut_edge(id, target, &mut self.vertices[i].edges[j].data);
            proof {
                assert(targets_of(self.vertices@[i as int].edges@) =~= targets_of(
                    before[i as int].edges@,
                ));
                assert(self.shape().targets =~= shape.targets) by {
                    assert forall|k: int| 0 <= k < self.vertices@.len() implies targets_of(
                        self.vertices@[k].edges@,
                    ) == shape.targets[k] by {
                        if k != i {
                            assert(self.vertices@[k] == before[k]);
                        }
                    }
                }
                assert(visitor.seen() =~= head + shape.leaving(i as int, (j + 1) as nat));
            }
            j += 1;
        }
        proof {
            assert(visitor.seen() =~= old(visitor).seen() + shape.out_events(i as int));
        }
    }

    /// Shows the vertex of index `i` to `visitor`, then the edges that lead
    /// to it, in the order of their sources; the visitor may change their
    /// data.
    fn show_back_mut<Vi: VisitorMut<V, E>>(&mut self, i: usize, visitor: &mut Vi)
        requires
            old(self).wf(),
            i < old(self).ids().len(),
        ensures
            final(self).wf(),
            final(self).shape() == old(self).shape(),
            final(self).next() == old(self).next(),
            final(visitor).seen() == old(visitor).seen() + old(self).shape().in_events(i as int),
    {
        proof {
            self.lemma_shape();
        }
        let ghost shape = self.shape();
        let id = self.ids[i];
        visitor.visit_mut_vertex(id, &mut self.vertices[i].data);
        let ghost head = visitor.seen();
        let n = self.vertices.len();
        let mut a: usize = 0;
        proof {
            assert(self.shape().targets =~= shape.targets);
            assert(visitor.seen() =~= head + shape.coming(i as int, shape.sources(i as int, 0)));
        }
        while a < n
            invariant
                a <= n,
                i < n,
                n == self.vertices@.len(),
                self.wf(),
                self.next_id == old(self).next_id,
                shape == self.shape(),
                id == shape.ids[i as int],
                visitor.seen() == head + shape.coming(i as int, shape.sources(i as int, a as nat)),
            decreases n - a,
        {
            let m = self.vertices[a].edges.len();
            let src = self.ids[a];
            let mut j: usize = 0;
            proof {
                assert(shape.targets[a as int] == targets_of(self.vertices@[a as int].edges@));
                assert(shape.sources(i as int, a as nat) + shape.hits(i as int, a as int, 0)
                    =~= shape.sources(i as int, a as nat));
            }
            while j < m
                invariant
                    j <= m,
                    a < n,
                    i < n,
                    n == self.vertices@.len(),
                    self.wf(),
                    self.next_id == old(self).next_id,
                    shape == self.shape(),
                    id == shape.ids[i as int],
                    src == shape.ids[a as int],
                    m == self.vertices@[a as int].edges@.len(),
                    shape.targets[a as int] == targets_of(self.vertices@[a as int].edges@),
                    visitor.seen() == head + shape.coming(
                        i as int,
                        shape.sources(i as int, a as nat) + shape.hits(i as int, a as int, j as nat),
                    ),
                decreases m - j,
            {
                let target = self.vertices[a].edges[j].target;
                let ghost before = self.vertices@;
                proof {
                    assert(shape.targets[a as int][j as int] == target);
                }
                if target == id {
                    visitor.visit_mut_edge(src, id, &mut self.vertices[a].edges[j].data);
                }
                proof {
                    assert(targets_of(self.vertices@[a as int].edges@) =~= targets_of(
                        before[a as int].edges@,
                    ));
                    assert(self.shape().targets =~= shape.targets) by {
                        assert forall|k: int| 0 <= k < self.vertices@.len() implies targets_of(
                            self.vertices@[k].edges@,
                        ) == shape.targets[k] by {
                            if k != a {
                                assert(self.vertices@[k] == before[k]);
                            }
                        }
                    }
                    assert(visitor.seen() =~= head + shape.coming(
                        i as int,
                        shape.sources(i as int, a as nat) + shape.hits(
                            i as int,
                            a as int,
                            (j + 1) as nat,
                        ),
                    ));
                }
                j += 1;
            }
            a += 1;
        }
        proof {
            assert(visitor.seen() =~= old(visitor).seen() + shape.in_events(i as int));
        }
    }

    /// Shows every vertex to `visitor`, each followed by its edges, in the
    /// order of their indices; the visitor may change their data.
    pub fn visit_mut<Vi: VisitorMut<V, E>>(&mut self, visitor: &mut Vi)
        requires
            old(self).wf(),
        ensures
            final(self).wf(),
            final(self).shape() == old(self).shape(),
            final(self).next() == old(self).next(),
            final(visitor).seen() == old(visitor).seen() + old(self).shape().tour(
                old(self).shape().all(),
            ),
    {
        proof {
            self.lemma_shape();
        }
        let ghost shape = self.shape();
        let n = self.vertices.len();
        let mut i: usize = 0;
        proof {
            assert(shape.all().take(0) =~= Seq::<usize>::empty());
            assert(visitor.seen() =~= old(visitor).seen() + shape.tour(shape.all().take(0)));
        }
        while i < n
            invariant
                i <= n,
                n == shape.ids.len(),
                self.wf(),
                self.next() == old(self).next(),
                shape == self.shape(),
                shape.ids == self.ids(),
                visitor.seen() == old(visitor).seen() + shape.tour(shape.all().take(i as int)),
            decreases n - i,
        {
            self.show_mut(i, visitor);
            proof {
                self.lemma_shape();
                let order = shape.all().take(i + 1);
                assert(order.drop_last() =~= shape.all().take(i as int));
                assert(order.last() == i);
                assert(visitor.seen() =~= old(visitor).seen() + shape.tour(order));
            }
            i += 1;
        }
        proof {
            assert(shape.all().take(n as int) =~= shape.all());
        }
    }

    /// Walks the graph as `visit_from` does; the visitor may change the
    /// data of what it is shown.
    pub fn visit_mut_from<Vi: VisitorMut<V, E>>(&mut self, start: &[u64], visitor: &mut Vi)
        requires
            old(self).wf(),
            old(self).shape().closed(),
            forall|k: int| 0 <= k < start@.len() ==> old(self).has(#[trigger] start@[k]),
        ensures
            final(self).wf(),
            final(self).shape() == old(self).shape(),
            final(self).next() == old(self).next(),
            final(visitor).seen() == old(visitor).seen() + old(self).shape().tour(
                walk_from(old(self).shape().forward(), old(self).shape().indices(start@)),
            ),
    {
        let adj = self.forward_lists();
        let roots = self.indices_of(start);
        let (order, _) = walk_order(&adj, &roots);
        let ghost shape = self.shape();
        let n = order.len();
        let mut k: usize = 0;
        proof {
            self.lemma_shape();
            assert(order@.take(0) =~= Seq::<usize>::empty());
            assert(visitor.seen() =~= old(visitor).seen() + shape.tour(order@.take(0)));
        }
        while k < n
            invariant
                k <= n,
                n == order@.len(),
                self.wf(),
                self.next() == old(self).next(),
                shape == self.shape(),
                shape.ids == self.ids(),
                below(order@, shape.ids.len()),
                visitor.seen() == old(visitor).seen() + shape.tour(order@.take(k as int)),
            decreases n - k,
        {
            self.show_mut(order[k], visitor);
            proof {
                self.lemma_shape();
                let done = order@.take(k + 1);
                assert(done.drop_last() =~= order@.take(k as int));
                assert(done.last() == order@[k as int]);
                assert(visitor.seen() =~= old(visitor).seen() + shape.tour(done));
            }
            k += 1;
        }
        proof {
            assert(order@.take(n as int) =~= order@);
        }
    }

    /// Walks the graph as `visit_to` does; the visitor may change the data
    /// of what it is shown.
    pub fn visit_mut_to<Vi: VisitorMut<V, E>>(&mut self, end: &[u64], visitor: &mut Vi)
        requires
            old(self).wf(),
            old(self).shape().closed(),
            forall|k: int| 0 <= k < end@.len() ==> old(self).has(#[trigger] end@[k]),
        ensures
            final(self).wf(),
            final(self).shape() == old(self).shape(),
            final(self).next() == old(self).next(),
            final(visitor).seen() == old(visitor).seen() + old(self).shape().tour_back(
                walk_from(old(self).shape().backward(), old(self).shape().indices(end@)),
            ),
    {
        let rev = self.backward_lists();
        let roots = self.indices_of(end);
        let (order, _) = walk_order(&rev, &roots);
        let ghost shape = self.shape();
        let n = order.len();
        let mut k: usize = 0;
        proof {
            self.lemma_shape();
            assert(order@.take(0) =~= Seq::<usize>::empty());
            assert(visitor.seen() =~= old(visitor).seen() + shape.tour_back(order@.take(0)));
        }
        while k < n
            invariant
                k <= n,
                n == order@.len(),
                self.wf(),
                self.next() == old(self).next(),
                shape == self.shape(),
                shape.ids == self.ids(),
                below(order@, shape.ids.len()),
                visitor.seen() == old(visitor).seen() + shape.tour_back(order@.take(k as int)),
            decreases n - k,
        {
            self.show_back_mut(order[k], visitor);
            proof {
                self.lemma_shape();
                let done = order@.take(k + 1);
                assert(done.drop_last() =~= order@.take(k as int));
                assert(done.last() == order@[k as int]);
                assert(visitor.seen() =~= old(visitor).seen() + shape.tour_back(done));
            }
            k += 1;
        }
        proof {
            assert(order@.take(n as int) =~= order@);
        }
    }
}

} // verus!
