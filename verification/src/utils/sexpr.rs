use crate::share::share;
use std::rc::Rc;
use vstd::prelude::*;

verus! {

/// An S-expression: a shared, immutable term over atoms of type `T`.
pub struct SExpr<T>(Rc<SExprNode<T>>);

/// The node of an S-expression.
pub enum SExprNode<T> {
    Nil,
    Var(u64),
    Atom(T),
    Cons(SExpr<T>, SExpr<T>),
}

/// An S-expression as a mathematical term.
pub enum Term<T> {
    /// The empty list.
    Nil,
    /// A variable, by its number.
    Var(u64),
    /// An atom.
    Atom(T),
    /// A pair.
    Cons(Box<Term<T>>, Box<Term<T>>),
}

impl<T> Term<T> {
    /// Whether the variable `id` occurs in the term.
    pub open spec fn occurs(self, id: u64) -> bool
        decreases self,
    {
        match self {
            Term::Var(v) => v == id,
            Term::Cons(a, b) => a.occurs(id) || b.occurs(id),
            _ => false,
        }
    }

    /// The list of the items of `xs`: each item paired with the list of
    /// those after it, the last with `Nil`.
    pub open spec fn list(xs: Seq<Term<T>>) -> Term<T>
        decreases xs.len(),
    {
        if xs.len() == 0 {
            Term::Nil
        } else {
            Term::Cons(Box::new(xs[0]), Box::new(Term::list(xs.drop_first())))
        }
    }
}

impl<T> View for SExpr<T> {
    type V = Term<T>;

    /// The term of the expression.
    closed spec fn view(&self) -> Term<T>
        decreases self,
    {
        match *self.0 {
            SExprNode::Nil => Term::Nil,
            SExprNode::Var(id) => Term::Var(id),
            SExprNode::Atom(value) => Term::Atom(value),
            SExprNode::Cons(car, cdr) => Term::Cons(Box::new(car@), Box::new(cdr@)),
        }
    }
}

impl<T> Clone for SExpr<T> {
    /// Another handle on the same term.
    fn clone(&self) -> (r: Self)
        ensures
            r == *self,
    {
        SExpr(share(&self.0))
    }
}

/// The terms of a sequence of expressions.
pub open spec fn terms<T>(xs: Seq<SExpr<T>>) -> Seq<Term<T>> {
    Seq::new(xs.len(), |i: int| xs[i]@)
}

impl<T> SExpr<T> {
    /// The empty list.
    pub fn nil() -> (r: Self)
        ensures
            r@ == Term::<T>::Nil,
    {
        SExpr(Rc::new(SExprNode::Nil))
    }

    /// The variable of number `id`.
    pub fn var(id: u64) -> (r: Self)
        ensures
            r@ == Term::<T>::Var(id),
    {
        SExpr(Rc::new(SExprNode::Var(id)))
    }

    /// The atom `value`.
    pub fn atom(value: T) -> (r: Self)
        ensures
            r@ == Term::Atom(value),
    {
        SExpr(Rc::new(SExprNode::Atom(value)))
    }

    /// The pair of `car` and `cdr`.
    pub fn cons(car: &SExpr<T>, cdr: &SExpr<T>) -> (r: Self)
        ensures
            r@ == Term::Cons(Box::new(car@), Box::new(cdr@)),
    {
        SExpr(Rc::new(SExprNode::Cons(car.clone(), cdr.clone())))
    }

    /// The list of the items of `xs`.
    pub fn list(xs: &[SExpr<T>]) -> (r: Self)
        ensures
            r@ == Term::list(terms(xs@)),
    {
        let mut list = SExpr::nil();
        let n = xs.len();
        let mut i: usize = n;
        proof {
            assert(terms(xs@).skip(n as int) =~= Seq::<Term<T>>::empty());
        }
        while i > 0
            invariant
                i <= n,
                n == xs@.len(),
                list@ == Term::list(terms(xs@).skip(i as int)),
            decreases i,
        {
            i -= 1;
            list = SExpr::cons(&xs[i], &list);
            proof {
                let rest = terms(xs@).skip(i as int);
                assert(rest[0] == xs@[i as int]@);
                assert(rest.drop_first() =~= terms(xs@).skip(i + 1));
            }
        }
        proof {
            assert(terms(xs@).skip(0) =~= terms(xs@));
        }
        list
    }

    /// The two sides of a pair.
    pub fn decons(&self) -> (r: Option<(SExpr<T>, SExpr<T>)>)
        ensures
            match r {
                Some((car, cdr)) => self@ == Term::Cons(Box::new(car@), Box::new(cdr@)),
                None => !(self@ is Cons),
            },
    {
        match &*self.0 {
            SExprNode::Cons(car, cdr) => Some((car.clone(), cdr.clone())),
            _ => None,
        }
    }

    /// Whether the expression is a pair.
    pub fn is_cons(&self) -> (b: bool)
        ensures
            b == (self@ is Cons),
    {
        match &*self.0 {
            SExprNode::Cons(_, _) => true,
            _ => false,
        }
    }

    /// The first side of a pair.
    pub fn car(&self) -> (r: Option<SExpr<T>>)
        ensures
            match r {
                Some(car) => self@ matches Term::Cons(a, _) && car@ == *a,
                None => !(self@ is Cons),
            },
    {
        match self.decons() {
            Some((car, _)) => Some(car),
            None => None,
        }
    }

    /// The second side of a pair.
    pub fn cdr(&self) -> (r: Option<SExpr<T>>)
        ensures
            match r {
                Some(cdr) => self@ matches Term::Cons(_, b) && cdr@ == *b,
                None => !(self@ is Cons),
            },
    {
        match self.decons() {
            Some((_, cdr)) => Some(cdr),
            None => None,
        }
    }

    /// Whether the expression is the empty list.
    pub fn is_nil(&self) -> (b: bool)
        ensures
            b == (self@ is Nil),
    {
        match &*self.0 {
            SExprNode::Nil => true,
            _ => false,
        }
    }

    /// Whether the expression is an atom.
    pub fn is_atom(&self) -> (b: bool)
        ensures
            b == (self@ is Atom),
    {
        match &*self.0 {
            SExprNode::Atom(_) => true,
            _ => false,
        }
    }

    /// The value of an atom.
    pub fn get_atom(&self) -> (r: Option<&T>)
        ensures
            match r {
                Some(value) => self@ == Term::Atom(*value),
                None => !(self@ is Atom),
            },
    {
        match &*self.0 {
            SExprNode::Atom(value) => Some(value),
            _ => None,
        }
    }

    /// The number of a variable.
    pub fn get_var(&self) -> (r: Option<u64>)
        ensures
            match r {
                Some(id) => self@ == Term::<T>::Var(id),
                None => !(self@ is Var),
            },
    {
        match &*self.0 {
            SExprNode::Var(id) => Some(*id),
            _ => None,
        }
    }

    /// Whether the expression is a variable.
    pub fn is_var(&self) -> (b: bool)
        ensures
            b == (self@ is Var),
    {
        match &*self.0 {
            SExprNode::Var(_) => true,
            _ => false,
        }
    }

    /// Whether the variable `id` occurs in the expression.
    pub fn occurs(&self, id: u64) -> (b: bool)
        ensures
            b == self@.occurs(id),
        decreases self,
    {
        match &*self.0 {
            SExprNode::Var(var_id) => *var_id == id,
            SExprNode::Cons(car, cdr) => car.occurs(id) || cdr.occurs(id),
            _ => false,
        }
    }

    /// A zipper on the expression, with the expression in focus.
    pub fn zipper(&self) -> (z: Zipper<T>)
        ensures
            z.focus_term() == self@,
            z.path() == Seq::<(Term<T>, ZipperDirection)>::empty(),
    {
        let z = Zipper { stack: Vec::new(), focus: self.clone() };
        proof {
            assert(z.path() =~= Seq::<(Term<T>, ZipperDirection)>::empty());
        }
        z
    }
}

/// The side of a pair that a zipper went down.
#[derive(Clone, Copy, PartialEq, Eq, Debug)]
pub enum ZipperDirection {
    Left,
    Right,
}

/// A zipper: an expression in focus, and the way back up from it.
pub struct Zipper<T> {
    stack: Vec<(SExpr<T>, ZipperDirection)>,
    focus: SExpr<T>,
}

impl<T> Zipper<T> {
    /// The term in focus.
    pub closed spec fn focus_term(&self) -> Term<T> {
        self.focus@
    }

    /// The way back up: for each pair that the zipper went down, innermost
    /// last, the side that it left behind and the side that it took.
    pub closed spec fn path(&self) -> Seq<(Term<T>, ZipperDirection)> {
        Seq::new(self.stack@.len(), |i: int| (self.stack@[i].0@, self.stack@[i].1))
    }

    /// The expression in focus.
    pub fn focus(&self) -> (r: &SExpr<T>)
        ensures
            r@ == self.focus_term(),
    {
        &self.focus
    }

    /// Goes down the first side of the pair in focus, if it is one.
    pub fn left(&mut self) -> (moved: bool)
        ensures
            moved == (old(self).focus_term() is Cons),
            match old(self).focus_term() {
                Term::Cons(a, b) => final(self).focus_term() == *a && final(self).path() == old(self).path().push((*b, ZipperDirection::Left)),
                _ => final(self).focus_term() == old(self).focus_term() && final(self).path() == old(self).path(),
            },
    {
        match self.focus.decons() {
            Some((l, r)) => {
                self.stack.push((r, ZipperDirection::Left));
                self.focus = l;
                proof {
                    assert(self.path() =~= old(self).path().push((r@, ZipperDirection::Left)));
                }
                true
            },
            None => {
                proof {
                    assert(self.path() =~= old(self).path());
                }
                false
            },
        }
    }

    /// Goes down the second side of the pair in focus, if it is one.
    pub fn right(&mut self) -> (moved: bool)
        ensures
            moved == (old(self).focus_term() is Cons),
            match old(self).focus_term() {
                Term::Cons(a, b) => final(self).focus_term() == *b && final(self).path() == old(self).path().push((*a, ZipperDirection::Right)),
                _ => final(self).focus_term() == old(self).focus_term() && final(self).path() == old(self).path(),
            },
    {
        match self.focus.decons() {
            Some((l, r)) => {
                self.stack.push((l, ZipperDirection::Right));
                self.focus = r;
                proof {
                    assert(self.path() =~= old(self).path().push((l@, ZipperDirection::Right)));
                }
                true
            },
            None => {
                proof {
                    assert(self.path() =~= old(self).path());
                }
                false
            },
        }
    }

    /// Goes back up to the pair that the zipper last went down, and says
    /// which side it had taken; nothing happens at the top.
    pub fn up(&mut self) -> (r: Option<ZipperDirection>)
        ensures
            match r {
                Some(direction) => {
                    let (sibling, side) = old(self).path().last();
                    &&& old(self).path().len() > 0
                    &&& direction == side
                    &&& final(self).path() == old(self).path().drop_last()
                    &&& final(self).focus_term() == (match side {
                        ZipperDirection::Left => Term::Cons(
                            Box::new(old(self).focus_term()),
                            Box::new(sibling),
                        ),
                        ZipperDirection::Right => Term::Cons(
                            Box::new(sibling),
                            Box::new(old(self).focus_term()),
                        ),
                    })
                },
                None => old(self).path().len() == 0 && final(self).path() == old(self).path()
                    && final(self).focus_term() == old(self).focus_term(),
            },
    {
        match self.stack.pop() {
            Some((sibling, direction)) => {
                match direction {
                    ZipperDirection::Left => {
                        let l = self.focus.clone();
                        let r = sibling;
                        self.focus = SExpr::cons(&l, &r);
                    },
                    ZipperDirection::Right => {
                        let l = sibling;
                        let r = self.focus.clone();
                        self.focus = SExpr::cons(&l, &r);
                    },
                }
                proof {
                    assert(self.path() =~= old(self).path().drop_last());
                    assert(old(self).path().last() == (sibling@, direction));
                }
                Some(direction)
            },
            None => {
                proof {
                    assert(self.path() =~= old(self).path());
                }
                None
            },
        }
    }
}

} // verus!
