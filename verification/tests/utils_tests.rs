use turkey::utils::graph::Graph;
use turkey::utils::graph::Visitor;
use turkey::utils::graph::VisitorMut;
use turkey::utils::sexpr::SExpr;
use turkey::utils::sexpr::ZipperDirection;
use turkey::utils::tree::Tree;
use turkey::utils::tree::TreeTraversal;
use turkey::utils::tree::TreeVisitor;

fn test_graph_a() -> (Graph<u32, u32>, u64, u64, u64, u64) {
    let mut graph = Graph::new();

    let a = graph.add_vertex(0);
    let b = graph.add_vertex(1);
    let c = graph.add_vertex(2);
    let d = graph.add_vertex(3);

    graph.add_edge(a, b, 0);
    graph.add_edge(b, c, 1);
    graph.add_edge(c, a, 2);
    graph.add_edge(c, c, 3);
    graph.add_edge(d, d, 4);

    (graph, a, b, c, d)
}

struct ReachableVisitor {
    reachable: Vec<u64>,
}

impl Visitor<u32, u32> for ReachableVisitor {
    fn visit_vertex(&mut self, vertex: u64, _: &u32) {
        self.reachable.push(vertex);
    }

    fn visit_edge(&mut self, _: u64, _: u64, _: &u32) {}
}

#[test]
fn test_graph_visit() {
    let (graph, a, b, c, d) = test_graph_a();

    let mut visitor = ReachableVisitor {
        reachable: Vec::new(),
    };

    graph.visit_from(&[a], &mut visitor);

    visitor.reachable.sort_unstable();
    visitor.reachable.dedup();

    assert_eq!(visitor.reachable, vec![a, b, c]);

    visitor.reachable.clear();

    graph.visit_from(&[d], &mut visitor);

    visitor.reachable.sort_unstable();
    visitor.reachable.dedup();

    assert_eq!(visitor.reachable, vec![d]);
}

#[derive(Debug, PartialEq, Clone, Copy)]
enum Seen {
    Vertex(u64, u32),
    Edge(u64, u64, u32),
}

struct Recorder {
    seen: Vec<Seen>,
}

impl Visitor<u32, u32> for Recorder {
    fn visit_vertex(&mut self, vertex: u64, data: &u32) {
        self.seen.push(Seen::Vertex(vertex, *data));
    }

    fn visit_edge(&mut self, src: u64, dst: u64, data: &u32) {
        self.seen.push(Seen::Edge(src, dst, *data));
    }
}

struct Doubler {
    seen: Vec<Seen>,
}

impl VisitorMut<u32, u32> for Doubler {
    fn visit_mut_vertex(&mut self, vertex: u64, data: &mut u32) {
        self.seen.push(Seen::Vertex(vertex, *data));
        *data *= 2;
    }

    fn visit_mut_edge(&mut self, src: u64, dst: u64, data: &mut u32) {
        self.seen.push(Seen::Edge(src, dst, *data));
        *data += 10;
    }
}

#[test]
fn graph_gives_out_numbers_from_one() {
    let (graph, a, b, c, d) = test_graph_a();
    assert_eq!((a, b, c, d), (1, 2, 3, 4));
    assert_eq!(graph.vertex_count(), 4);
    assert!(graph.has_vertex(c));
    assert!(!graph.has_vertex(5));
    assert!(!graph.has_vertex(0));
    assert!(graph.has_edge(c, a));
    assert!(graph.has_edge(c, c));
    assert!(!graph.has_edge(a, c));
    assert_eq!(*graph.get_vertex(b).unwrap().data(), 1);
    assert!(graph.get_vertex(9).is_none());
    assert_eq!(graph.get_edges(c).unwrap().len(), 2);
    assert!(graph.get_edges(9).is_none());
    let edge = graph.get_edge(c, c).unwrap();
    assert_eq!((*edge.data(), edge.target()), (3, c));
    assert!(graph.get_edge(a, d).is_none());
    assert!(graph.get_edge(9, a).is_none());
    assert!(!graph.is_full());
}

#[test]
fn visit_shows_every_vertex_with_its_edges() {
    let (graph, a, b, c, d) = test_graph_a();
    let mut recorder = Recorder { seen: Vec::new() };
    graph.visit(&mut recorder);
    assert_eq!(
        recorder.seen,
        vec![
            Seen::Vertex(a, 0),
            Seen::Edge(a, b, 0),
            Seen::Vertex(b, 1),
            Seen::Edge(b, c, 1),
            Seen::Vertex(c, 2),
            Seen::Edge(c, a, 2),
            Seen::Edge(c, c, 3),
            Seen::Vertex(d, 3),
            Seen::Edge(d, d, 4),
        ]
    );
}

#[test]
fn visit_from_walks_in_depth_and_shows_each_vertex_once() {
    let (mut graph, a, b, c, d) = test_graph_a();
    graph.add_edge(a, d, 5);
    let mut recorder = Recorder { seen: Vec::new() };
    graph.visit_from(&[a], &mut recorder);
    // The edge to `d` was put on the stack last, so `d` comes before `b`.
    assert_eq!(
        recorder.seen,
        vec![
            Seen::Vertex(a, 0),
            Seen::Edge(a, b, 0),
            Seen::Edge(a, d, 5),
            Seen::Vertex(d, 3),
            Seen::Edge(d, d, 4),
            Seen::Vertex(b, 1),
            Seen::Edge(b, c, 1),
            Seen::Vertex(c, 2),
            Seen::Edge(c, a, 2),
            Seen::Edge(c, c, 3),
        ]
    );
}

#[test]
fn visit_to_walks_against_the_edges() {
    let (graph, a, b, c, d) = test_graph_a();
    let mut recorder = Recorder { seen: Vec::new() };
    graph.visit_to(&[b], &mut recorder);
    assert_eq!(
        recorder.seen,
        vec![
            Seen::Vertex(b, 1),
            Seen::Edge(a, b, 0),
            Seen::Vertex(a, 0),
            Seen::Edge(c, a, 2),
            Seen::Vertex(c, 2),
            Seen::Edge(b, c, 1),
            Seen::Edge(c, c, 3),
        ]
    );
    let mut recorder = Recorder { seen: Vec::new() };
    graph.visit_to(&[d], &mut recorder);
    assert_eq!(recorder.seen, vec![Seen::Vertex(d, 3), Seen::Edge(d, d, 4)]);
}

#[test]
fn visitors_may_change_the_data_that_they_are_shown() {
    let (mut graph, a, b, c, d) = test_graph_a();
    let mut doubler = Doubler { seen: Vec::new() };
    graph.visit_mut_from(&[b], &mut doubler);
    assert_eq!(
        doubler.seen,
        vec![
            Seen::Vertex(b, 1),
            Seen::Edge(b, c, 1),
            Seen::Vertex(c, 2),
            Seen::Edge(c, a, 2),
            Seen::Edge(c, c, 3),
            Seen::Vertex(a, 0),
            Seen::Edge(a, b, 0),
        ]
    );
    assert_eq!(*graph.get_vertex(c).unwrap().data(), 4);
    assert_eq!(*graph.get_vertex(d).unwrap().data(), 3);
    assert_eq!(*graph.get_edge(c, c).unwrap().data(), 13);
    assert_eq!(*graph.get_edge(d, d).unwrap().data(), 4);

    let mut doubler = Doubler { seen: Vec::new() };
    graph.visit_mut_to(&[d], &mut doubler);
    assert_eq!(doubler.seen, vec![Seen::Vertex(d, 3), Seen::Edge(d, d, 4)]);
    assert_eq!(*graph.get_vertex(d).unwrap().data(), 6);
    assert_eq!(*graph.get_edge(d, d).unwrap().data(), 14);

    let mut doubler = Doubler { seen: Vec::new() };
    graph.visit_mut(&mut doubler);
    assert_eq!(doubler.seen.len(), 9);
    assert_eq!(*graph.get_vertex(d).unwrap().data(), 12);
}

#[test]
fn removing_takes_vertices_and_edges_out() {
    let (mut graph, a, b, c, d) = test_graph_a();
    graph.add_edge(c, a, 7);
    graph.remove_edge(c, a);
    assert!(!graph.has_edge(c, a));
    assert!(graph.has_edge(c, c));
    assert_eq!(graph.get_edges(c).unwrap().len(), 1);
    graph.remove_vertex(a);
    assert!(!graph.has_vertex(a));
    assert_eq!(graph.vertex_count(), 3);
    assert_eq!(*graph.get_vertex(d).unwrap().data(), 3);
    assert_eq!(*graph.get_vertex(b).unwrap().data(), 1);
    let e = graph.add_vertex(9);
    assert_eq!(e, 5);
    assert_eq!(*graph.get_vertex(e).unwrap().data(), 9);
}

#[test]
fn test_zipper_navigation() {
    // Create a nested structure: (1 (2 3))
    let inner = SExpr::cons(&SExpr::atom(2), &SExpr::atom(3));
    let expr = SExpr::cons(&SExpr::atom(1), &inner);

    let mut z = expr.zipper();
    assert_eq!(z.focus().car().unwrap().get_atom(), Some(&1));

    // Move right to (2 3)
    assert!(z.right());
    assert_eq!(z.focus().car().unwrap().get_atom(), Some(&2));

    // Move back up
    assert!(z.up().is_some());
    assert_eq!(z.focus().car().unwrap().get_atom(), Some(&1));
}

#[test]
fn test_zipper_deep_navigation() {
    // Create (1 (2 (3 4)))
    let leaf = SExpr::cons(&SExpr::atom(3), &SExpr::atom(4));
    let middle = SExpr::cons(&SExpr::atom(2), &leaf);
    let expr = SExpr::cons(&SExpr::atom(1), &middle);

    let mut z = expr.zipper();

    // Navigate to 4
    assert!(z.right()); // Move to (2 (3 4))
    assert!(z.right()); // Move to (3 4)
    assert!(z.right()); // Move to 4
    assert_eq!(z.focus().get_atom(), Some(&4));

    // Navigate back to root
    assert!(z.up().is_some()); // Back to (3 4)
    assert!(z.up().is_some()); // Back to (2 (3 4))
    assert!(z.up().is_some()); // Back to (1 (2 (3 4)))
    assert_eq!(z.focus().car().unwrap().get_atom(), Some(&1));
}

#[test]
fn test_zipper_left_navigation() {
    // Create (1 2)
    let expr = SExpr::cons(&SExpr::atom(1), &SExpr::atom(2));
    let mut z = expr.zipper();

    assert!(z.left()); // Move to 1
    assert_eq!(z.focus().get_atom(), Some(&1));
    assert!(z.up().is_some()); // Back to (1 2)
    assert!(z.right()); // Move to 2
    assert_eq!(z.focus().get_atom(), Some(&2));
}

#[test]
fn test_zipper_boundary_conditions() {
    let atom = SExpr::atom(1);
    let mut z = atom.zipper();

    // Can't navigate on an atom
    assert!(!z.left());
    assert!(!z.right());
    assert!(z.up().is_none());

    // Can't navigate up at root
    let list = SExpr::cons(&SExpr::atom(1), &SExpr::atom(2));
    let mut z = list.zipper();
    assert!(z.up().is_none());
}

#[test]
fn zipper_says_which_side_it_comes_back_from() {
    let expr = SExpr::cons(&SExpr::atom(1), &SExpr::atom(2));
    let mut z = expr.zipper();
    assert!(z.left());
    assert_eq!(z.up(), Some(ZipperDirection::Left));
    assert!(z.right());
    assert_eq!(z.up(), Some(ZipperDirection::Right));
    assert_eq!(z.focus().cdr().unwrap().get_atom(), Some(&2));
}

#[test]
fn expressions_are_what_they_were_made_of() {
    let nil = SExpr::<i32>::nil();
    assert!(nil.is_nil() && !nil.is_cons() && !nil.is_atom() && !nil.is_var());
    let var = SExpr::<i32>::var(7);
    assert!(var.is_var());
    assert_eq!(var.get_var(), Some(7));
    assert_eq!(var.get_atom(), None);
    let atom = SExpr::atom(5);
    assert!(atom.is_atom());
    assert_eq!(atom.get_var(), None);
    assert!(atom.decons().is_none() && atom.car().is_none() && atom.cdr().is_none());

    let list = SExpr::list(&[SExpr::atom(1), SExpr::var(2), SExpr::atom(3)]);
    assert_eq!(list.car().unwrap().get_atom(), Some(&1));
    let rest = list.cdr().unwrap();
    assert_eq!(rest.car().unwrap().get_var(), Some(2));
    let last = rest.cdr().unwrap();
    assert_eq!(last.car().unwrap().get_atom(), Some(&3));
    assert!(last.cdr().unwrap().is_nil());
    assert!(SExpr::<i32>::list(&[]).is_nil());

    assert!(list.occurs(2));
    assert!(!list.occurs(3));
    assert!(!atom.occurs(5));
    assert!(var.occurs(7));
}

#[derive(Debug, PartialEq)]
struct TestVisitor {
    visited: Vec<(i32, TreeTraversal)>,
}

impl TestVisitor {
    fn new() -> Self {
        TestVisitor {
            visited: Vec::new(),
        }
    }
}

impl TreeVisitor<i32> for TestVisitor {
    fn visit(&mut self, node: &Tree<i32>, traversal: TreeTraversal) {
        self.visited.push((*node.data(), traversal));
    }
}

#[test]
fn test_tree_creation() {
    let leaf = Tree::leaf(1);
    assert_eq!(*leaf.data(), 1);
    assert!(leaf.is_leaf());

    let node = Tree::node(2, &[leaf.clone()]);
    assert_eq!(*node.data(), 2);
    assert!(node.has_children());
    assert_eq!(node.children().len(), 1);
    assert_eq!(*node.children()[0].data(), 1);
}

#[test]
fn test_tree_clone() {
    let leaf = Tree::leaf(1);
    let node = Tree::node(2, &[leaf.clone()]);
    let cloned_node = node.clone();

    assert_eq!(*cloned_node.data(), 2);
    assert!(cloned_node.has_children());
    assert_eq!(cloned_node.children().len(), 1);
    assert_eq!(*cloned_node.children()[0].data(), 1);
}

#[test]
fn test_tree_traversal() {
    let leaf1 = Tree::leaf(1);
    let leaf2 = Tree::leaf(2);
    let node = Tree::node(3, &[leaf1.clone(), leaf2.clone()]);

    let mut visitor = TestVisitor::new();
    node.visit(&mut visitor, true, true, true);

    assert_eq!(
        visitor.visited,
        vec![
            (3, TreeTraversal::PreOrder),
            (1, TreeTraversal::PreOrder),
            (1, TreeTraversal::PostOrder),
            (3, TreeTraversal::InOrder),
            (2, TreeTraversal::PreOrder),
            (2, TreeTraversal::PostOrder),
            (3, TreeTraversal::PostOrder),
        ]
    );
}

#[test]
fn traversal_visits_the_root_between_its_children() {
    let tree = Tree::node(
        0,
        &[
            Tree::leaf(1),
            Tree::node(2, &[Tree::leaf(3), Tree::leaf(4)]),
            Tree::leaf(5),
        ],
    );
    let mut visitor = TestVisitor::new();
    tree.visit(&mut visitor, false, true, false);
    assert_eq!(
        visitor.visited,
        vec![
            (0, TreeTraversal::InOrder),
            (2, TreeTraversal::InOrder),
            (0, TreeTraversal::InOrder),
        ]
    );
    let mut visitor = TestVisitor::new();
    tree.visit(&mut visitor, false, false, true);
    assert_eq!(
        visitor.visited.iter().map(|v| v.0).collect::<Vec<_>>(),
        vec![1, 3, 4, 2, 5, 0]
    );
    let mut visitor = TestVisitor::new();
    Tree::leaf(9).visit(&mut visitor, true, true, true);
    assert_eq!(
        visitor.visited,
        vec![(9, TreeTraversal::PreOrder), (9, TreeTraversal::PostOrder)]
    );
}
