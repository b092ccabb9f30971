use crate::share::share;
use std::rc::Rc;
use vstd::prelude::*;

verus! {

/// A tree: a shared, immutable node with its data and its children.
pub struct Tree<T>(Rc<TreeNode<T>>);

struct TreeNode<T> {
    data: T,
    children: Vec<Tree<T>>,
}

impl<T> Clone for Tree<T> {
    /// Another handle on the same tree.
    fn clone(&self) -> (r: Self)
        ensures
            r == *self,
    {
        Tree(share(&self.0))
    }
}

/// When a node is visited: before its children, between two of them, or
/// after them.
#[derive(Debug, PartialEq, Eq, Clone, Copy)]
pub enum TreeTraversal {
    PreOrder,
    InOrder,
    PostOrder,
}

/// A visitor of the nodes of a tree.
pub trait TreeVisitor<T>: Sized {
    /// The visits so far, in their order. A visitor that keeps no record
    /// says what it keeps in its place.
    open spec fn seen(&self) -> Seq<(Tree<T>, TreeTraversal)> {
        Seq::empty()
    }

    /// Visits `node`.
    fn visit(&mut self, node: &Tree<T>, traversal: TreeTraversal)
        ensures
            final(self).seen() == old(self).seen().push((*node, traversal)),
    ;
}

impl<T> Tree<T> {
    /// The data of the root.
    pub closed spec fn value(&self) -> T {
        self.0.data
    }

    /// The children of the root.
    pub closed spec fn kids(&self) -> Seq<Tree<T>> {
        self.0.children@
    }

    /// The visits of a traversal of the tree: the root before its children
    /// if `preorder`, between two of them if `inorder`, after them if
    /// `postorder`, and those of each child in its place.
    pub closed spec fn visits(self, preorder: bool, inorder: bool, postorder: bool) -> Seq<
        (Tree<T>, TreeTraversal),
    >
        decreases self, 1nat, 0nat,
    {
        (if preorder {
            seq![(self, TreeTraversal::PreOrder)]
        } else {
            Seq::empty()
        }) + self.visits_below(self.0.children@.len(), preorder, inorder, postorder) + (
        if postorder {
            seq![(self, TreeTraversal::PostOrder)]
        } else {
            Seq::empty()
        })
    }

    /// The visits of a traversal of the first `k` children of the tree,
    /// with the visits of the root between them.
    pub closed spec fn visits_below(
        self,
        k: nat,
        preorder: bool,
        inorder: bool,
        postorder: bool,
    ) -> Seq<(Tree<T>, TreeTraversal)>
        decreases self, 0nat, k,
    {
        if k == 0 || k > self.0.children@.len() {
            Seq::empty()
        } else {
            self.visits_below((k - 1) as nat, preorder, inorder, postorder) + (if k != 1 && inorder {
                seq![(self, TreeTraversal::InOrder)]
            } else {
                Seq::empty()
            }) + self.0.children@[k - 1].visits(preorder, inorder, postorder)
        }
    }

    /// What the visits of a traversal are, by the root and the visits of
    /// its children.
    pub proof fn lemma_visits(self, preorder: bool, inorder: bool, postorder: bool)
        ensures
            self.visits(preorder, inorder, postorder) == (if preorder {
                seq![(self, TreeTraversal::PreOrder)]
            } else {
                Seq::empty()
            }) + self.visits_below(self.kids().len(), preorder, inorder, postorder) + (
            if postorder {
                seq![(self, TreeTraversal::PostOrder)]
            } else {
                Seq::empty()
            }),
            self.visits_below(0, preorder, inorder, postorder) == Seq::<
                (Tree<T>, TreeTraversal),
            >::empty(),
    {
    }

    /// What the visits of the first `k` children are, by those of the
    /// children before the last of them and those of the last.
    pub proof fn lemma_visits_below(self, k: nat, preorder: bool, inorder: bool, postorder: bool)
        requires
            1 <= k <= self.kids().len(),
        ensures
            self.visits_below(k, preorder, inorder, postorder) == self.visits_below(
                (k - 1) as nat,
                preorder,
                inorder,
                postorder,
            ) + (if k != 1 && inorder {
                seq![(self, TreeTraversal::InOrder)]
            } else {
                Seq::empty()
            }) + self.kids()[k - 1].visits(preorder, inorder, postorder),
    {
    }

    /// A tree of a root with `data` and `children`.
    pub fn node(data: T, children: &[Tree<T>]) -> (r: Self)
        ensures
            r.value() == data,
            r.kids() == children@,
    {
        let mut list: Vec<Tree<T>> = Vec::new();
        let mut i: usize = 0;
        while i < children.len()
            invariant
                i <= children@.len(),
                list@ == children@.take(i as int),
            decreases children@.len() - i,
        {
            list.push(children[i].clone());
            proof {
                assert(children@.take(i + 1) =~= children@.take(i as int).push(children@[i as int]));
            }
            i += 1;
        }
        proof {
            assert(children@.take(children@.len() as int) =~= children@);
        }
        Tree(Rc::new(TreeNode { data, children: list }))
    }

    /// A tree of a root with `data` and no children.
    pub fn leaf(data: T) -> (r: Self)
        ensures
            r.value() == data,
            r.kids() == Seq::<Tree<T>>::empty(),
    {
        let list: Vec<Tree<T>> = Vec::new();
        Tree(Rc::new(TreeNode { data, children: list }))
    }

    /// Whether the root has children.
    pub fn has_children(&self) -> (b: bool)
        ensures
            b == (self.kids().len() > 0),
    {
        self.0.children.len() != 0
    }

    /// Whether the root has no children.
    pub fn is_leaf(&self) -> (b: bool)
        ensures
            b == (self.kids().len() == 0),
    {
        !self.has_children()
    }

    /// The children of the root.
    pub fn children(&self) -> (r: &[Self])
        ensures
            r@ == self.kids(),
    {
        self.0.children.as_slice()
    }

    /// The data of the root.
    pub fn data(&self) -> (r: &T)
        ensures
            *r == self.value(),
    {
        &self.0.data
    }

    /// Traverses the tree, and has `visitor` visit each node before its
    /// children if `preorder`, between two of them if `inorder`, and after
    /// them if `postorder`.
    pub fn visit<V: TreeVisitor<T>>(
        &self,
        visitor: &mut V,
        preorder: bool,
        inorder: bool,
        postorder: bool,
    )
        ensures
            final(visitor).seen() == old(visitor).seen() + self.visits(preorder, inorder, postorder),
        decreases self,
    {
        proof {
            self.lemma_visits(preorder, inorder, postorder);
        }
        let ghost start = visitor.seen();
        if preorder {
            visitor.visit(self, TreeTraversal::PreOrder);
        }
        let ghost head = visitor.seen();
        let n = self.0.children.len();
        let mut i: usize = 0;
        while i < n
            invariant
                i <= n,
                n == self.kids().len(),
                visitor.seen() == head + self.visits_below(i as nat, preorder, inorder, postorder),
            decreases n - i,
        {
            if i != 0 && inorder {
                visitor.visit(self, TreeTraversal::InOrder);
            }
            self.0.children[i].visit(visitor, preorder, inorder, postorder);
            proof {
                let k = (i + 1) as nat;
                self.lemma_visits_below(k, preorder, inorder, postorder);
                let below = self.visits_below(k, preorder, inorder, postorder);
                assert(visitor.seen() =~= head + below);
            }
            i += 1;
        }
        if postorder {
            visitor.visit(self, TreeTraversal::PostOrder);
        }
        proof {
            assert(visitor.seen() =~= start + self.visits(preorder, inorder, postorder));
        }
    }
}

} // verus!
