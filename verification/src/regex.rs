use crate::lexer::language::lemma_char;
use crate::lexer::language::Re;
use crate::share::share;
use std::rc::Rc;
use vstd::prelude::*;

verus! {

/// A regular expression with intersection and complement: a shared,
/// immutable term with its nullability cached at every node.
#[derive(Debug)]
pub struct Regex {
    node: Rc<RegexNode>,
    nullable: bool,
}

#[derive(Debug)]
enum RegexNode {
    Empty,
    Epsilon,
    Symbol(char),
    Range(char, char),
    Concat(Regex, Regex),
    Union(Regex, Regex),
    Intersect(Regex, Regex),
    Star(Regex),
    Compl(Regex),
}

impl View for Regex {
    type V = Re;

    /// The term that the regular expression stands for; a symbol is the
    /// range of one code point.
    closed spec fn view(&self) -> Re
        decreases self,
    {
        match *self.node {
            RegexNode::Empty => Re::Empty,
            RegexNode::Epsilon => Re::Epsilon,
            RegexNode::Symbol(c) => Re::Range(c, c),
            RegexNode::Range(lo, hi) => Re::Range(lo, hi),
            RegexNode::Concat(a, b) => Re::Concat(Box::new(a@), Box::new(b@)),
            RegexNode::Union(a, b) => Re::Union(Box::new(a@), Box::new(b@)),
            RegexNode::Intersect(a, b) => Re::Intersect(Box::new(a@), Box::new(b@)),
            RegexNode::Star(a) => Re::Star(Box::new(a@)),
            RegexNode::Compl(a) => Re::Compl(Box::new(a@)),
        }
    }
}

impl Clone for Regex {
    /// Another handle on the same term.
    fn clone(&self) -> (r: Self)
        ensures
            r == *self,
    {
        Regex { node: share(&self.node), nullable: self.nullable }
    }
}

/// The code-point ranges with which a string of the term may start, in the
/// order of the term; for an intersection and a complement, those of the
/// terms inside.
pub open spec fn first_ranges(r: Re) -> Seq<(char, char)>
    decreases r,
{
    match r {
        Re::Empty => Seq::empty(),
        Re::Epsilon => Seq::empty(),
        Re::Range(lo, hi) => seq![(lo, hi)],
        Re::Concat(a, b) => first_ranges(*a) + (if a.nullable() {
            first_ranges(*b)
        } else {
            Seq::empty()
        }),
        Re::Union(a, b) => first_ranges(*a) + first_ranges(*b),
        Re::Intersect(a, b) => first_ranges(*a) + first_ranges(*b),
        Re::Star(a) => first_ranges(*a),
        Re::Compl(a) => first_ranges(*a),
    }
}

/// The concatenation of the single code points of `s`, in their order.
pub open spec fn seq_of(s: Seq<char>) -> Re
    decreases s.len(),
{
    if s.len() == 0 {
        Re::Epsilon
    } else {
        Re::concat(seq_of(s.drop_last()), Re::char(s.last()))
    }
}

impl Regex {
    /// Well-formedness: every cached flag is the nullability of its term.
    pub closed spec fn wf(&self) -> bool
        decreases self,
    {
        &&& self.nullable == self@.nullable()
        &&& match *self.node {
            RegexNode::Concat(a, b) => a.wf() && b.wf(),
            RegexNode::Union(a, b) => a.wf() && b.wf(),
            RegexNode::Intersect(a, b) => a.wf() && b.wf(),
            RegexNode::Star(a) => a.wf(),
            RegexNode::Compl(a) => a.wf(),
            _ => true,
        }
    }

    /// The expression that matches nothing.
    pub fn empty() -> (r: Self)
        ensures
            r.wf(),
            r@ == Re::Empty,
    {
        Regex { node: Rc::new(RegexNode::Empty), nullable: false }
    }

    /// The expression that matches the empty string only.
    pub fn epsilon() -> (r: Self)
        ensures
            r.wf(),
            r@ == Re::Epsilon,
    {
        Regex { node: Rc::new(RegexNode::Epsilon), nullable: true }
    }

    /// The expression that matches the code point `c`.
    pub fn symbol(c: char) -> (r: Self)
        ensures
            r.wf(),
            r@ == Re::char(c),
    {
        Regex { node: Rc::new(RegexNode::Symbol(c)), nullable: false }
    }

    /// The expression that matches one code point of `[from, to]`.
    pub fn range(from: char, to: char) -> (r: Self)
        ensures
            r.wf(),
            r@ == Re::Range(from, to),
    {
        Regex { node: Rc::new(RegexNode::Range(from, to)), nullable: false }
    }

    /// Concatenation, simplified where one side is `Empty` or `Epsilon`.
    pub fn concat(&self, other: &Self) -> (r: Self)
        requires
            self.wf(),
            other.wf(),
        ensures
            r.wf(),
            r@ == Re::concat(self@, other@),
    {
        if self.is_empty() || other.is_epsilon() {
            return self.clone();
        }
        if other.is_empty() || self.is_epsilon() {
            return other.clone();
        }
        Regex {
            node: Rc::new(RegexNode::Concat(self.clone(), other.clone())),
            nullable: self.nullable && other.nullable,
        }
    }

    /// Union, simplified where one side is `Empty`.
    pub fn union(&self, other: &Self) -> (r: Self)
        requires
            self.wf(),
            other.wf(),
        ensures
            r.wf(),
            r@ == Re::union(self@, other@),
    {
        if self.is_empty() {
            return other.clone();
        }
        if other.is_empty() {
            return self.clone();
        }
        Regex {
            node: Rc::new(RegexNode::Union(self.clone(), other.clone())),
            nullable: self.nullable || other.nullable,
        }
    }

    /// Adds to `ranges` the code-point ranges with which a string of the
    /// expression may start.
    pub fn first(&self, ranges: &mut Vec<(char, char)>)
        requires
            self.wf(),
        ensures
            final(ranges)@ == old(ranges)@ + first_ranges(self@),
        decreases self,
    {
        let ghost before = ranges@;
        match &*self.node {
            RegexNode::Empty => {
                assert(ranges@ =~= before + first_ranges(self@));
            },
            RegexNode::Epsilon => {
                assert(ranges@ =~= before + first_ranges(self@));
            },
            RegexNode::Symbol(c) => {
                ranges.push((*c, *c));
                assert(ranges@ =~= before + first_ranges(self@));
            },
            RegexNode::Range(from, to) => {
                ranges.push((*from, *to));
                assert(ranges@ =~= before + first_ranges(self@));
            },
            RegexNode::Concat(r1, r2) => {
                r1.first(ranges);
                if r1.is_nullable() {
                    r2.first(ranges);
                }
                assert(ranges@ =~= before + first_ranges(self@));
            },
            RegexNode::Union(r1, r2) => {
                r1.first(ranges);
                r2.first(ranges);
                assert(ranges@ =~= before + first_ranges(self@));
            },
            RegexNode::Intersect(r1, r2) => {
                r1.first(ranges);
                r2.first(ranges);
                assert(ranges@ =~= before + first_ranges(self@));
            },
            RegexNode::Star(r) => {
                r.first(ranges);
            },
            RegexNode::Compl(r) => {
                r.first(ranges);
            },
        }
    }

    /// The bounds of the expression where it is a symbol or a range.
    fn bounds(&self) -> (b: Option<(char, char)>)
        ensures
            match b {
                Some((lo, hi)) => self@ == Re::Range(lo, hi),
                None => !(self@ is Range),
            },
    {
        match &*self.node {
            RegexNode::Symbol(c) => Some((*c, *c)),
            RegexNode::Range(lo, hi) => Some((*lo, *hi)),
            _ => None,
        }
    }

    /// Intersection, simplified where one side is `Empty` and where both
    /// sides are symbols or ranges.
    pub fn intersect(&self, other: &Self) -> (r: Self)
        requires
            self.wf(),
            other.wf(),
        ensures
            r.wf(),
            r@ == Re::intersect(self@, other@),
    {
        if self.is_empty() || other.is_empty() {
            return Regex::empty();
        }
        match (self.bounds(), other.bounds()) {
            (Some((l1, h1)), Some((l2, h2))) => {
                let lo = if l1 >= l2 {
                    l1
                } else {
                    l2
                };
                let hi = if h1 <= h2 {
                    h1
                } else {
                    h2
                };
                if lo <= hi {
                    Regex::range(lo, hi)
                } else {
                    Regex::empty()
                }
            },
            _ => Regex {
                node: Rc::new(RegexNode::Intersect(self.clone(), other.clone())),
                nullable: self.nullable && other.nullable,
            },
        }
    }

    /// Repetition, simplified on `Empty`, `Epsilon` and a repetition.
    pub fn star(&self) -> (r: Self)
        requires
            self.wf(),
        ensures
            r.wf(),
            r@ == Re::star(self@),
    {
        match &*self.node {
            RegexNode::Empty => Regex::epsilon(),
            RegexNode::Epsilon => Regex::epsilon(),
            RegexNode::Star(_) => self.clone(),
            _ => Regex { node: Rc::new(RegexNode::Star(self.clone())), nullable: true },
        }
    }

    /// Complement.
    pub fn compl(&self) -> (r: Self)
        requires
            self.wf(),
        ensures
            r.wf(),
            r@ == Re::Compl(Box::new(self@)),
    {
        Regex { node: Rc::new(RegexNode::Compl(self.clone())), nullable: !self.nullable }
    }

    /// One repetition or more.
    pub fn plus(&self) -> (r: Self)
        requires
            self.wf(),
        ensures
            r.wf(),
            r@ == Re::plus(self@),
    {
        self.concat(&self.star())
    }

    /// The expression that matches each single code point of `cs`.
    pub fn any_of(cs: &str) -> (r: Self)
        ensures
            r.wf(),
            r@ == Re::one_of(cs@),
    {
        let mut re = Regex::empty();
        let n = cs.unicode_len();
        let mut i: usize = 0;
        while i < n
            invariant
                i <= n,
                n == cs@.len(),
                re.wf(),
                re@ == Re::one_of(cs@.take(i as int)),
            decreases n - i,
        {
            let c = cs.get_char(i);
            re = re.union(&Regex::symbol(c));
            proof {
                assert(cs@.take(i + 1).drop_last() =~= cs@.take(i as int));
            }
            i += 1;
        }
        proof {
            assert(cs@.take(n as int) =~= cs@);
        }
        re
    }

    /// The expression that matches the string `cs`.
    pub fn seq(cs: &str) -> (r: Self)
        ensures
            r.wf(),
            r@ == seq_of(cs@),
    {
        let mut re = Regex::epsilon();
        let n = cs.unicode_len();
        let mut i: usize = 0;
        while i < n
            invariant
                i <= n,
                n == cs@.len(),
                re.wf(),
                re@ == seq_of(cs@.take(i as int)),
            decreases n - i,
        {
            let c = cs.get_char(i);
            re = re.concat(&Regex::symbol(c));
            proof {
                assert(cs@.take(i + 1).drop_last() =~= cs@.take(i as int));
            }
            i += 1;
        }
        proof {
            assert(cs@.take(n as int) =~= cs@);
        }
        re
    }

    /// `Epsilon` if the expression is nullable, `Empty` otherwise.
    fn v(&self) -> (r: Self)
        requires
            self.wf(),
        ensures
            r.wf(),
            r@ == self@.v(),
    {
        if self.nullable {
            return Regex::epsilon();
        } else {
            return Regex::empty();
        }
    }

    /// The Brzozowski derivative with respect to `c`.
    pub fn derivative(&self, c: char) -> (r: Self)
        requires
            self.wf(),
        ensures
            r.wf(),
            r@ == self@.deriv(c),
        decreases self,
    {
        match &*self.node {
            RegexNode::Empty => Regex::empty(),
            RegexNode::Epsilon => Regex::empty(),
            RegexNode::Symbol(s) => {
                if *s == c {
                    proof {
                        lemma_char(c);
                        lemma_char(*s);
                    }
                    return Regex::epsilon();
                } else {
                    return Regex::empty();
                }
            },
            RegexNode::Range(from, to) => {
                if *from <= c && c <= *to {
                    return Regex::epsilon();
                } else {
                    return Regex::empty();
                }
            },
            RegexNode::Concat(r1, r2) => {
                return r1.derivative(c).concat(r2).union(&r1.v().concat(&r2.derivative(c)));
            },
            RegexNode::Union(r1, r2) => {
                return r1.derivative(c).union(&r2.derivative(c));
            },
            RegexNode::Intersect(r1, r2) => {
                return r1.derivative(c).intersect(&r2.derivative(c));
            },
            RegexNode::Star(r) => {
                return r.derivative(c).concat(self);
            },
            RegexNode::Compl(r) => {
                return r.derivative(c).compl();
            },
        }
    }

    /// Whether the language holds the empty string.
    pub fn is_nullable(&self) -> (b: bool)
        requires
            self.wf(),
        ensures
            b == self@.nullable(),
    {
        self.nullable
    }

    /// Whether the term is `Epsilon`.
    pub fn is_epsilon(&self) -> (b: bool)
        ensures
            b == (self@ is Epsilon),
    {
        matches!(&*self.node, RegexNode::Epsilon)
    }

    /// Whether the term is `Empty`.
    pub fn is_empty(&self) -> (b: bool)
        ensures
            b == (self@ is Empty),
    {
        matches!(&*self.node, RegexNode::Empty)
    }
}

} // verus!
