use vstd::prelude::*;

verus! {

/// A regular expression as a mathematical term: the view of
/// [`Regex`](crate::lexer::regex::Regex), without the cached flags and the
/// sharing of subterms.
pub enum Re {
    /// Matches nothing.
    Empty,
    /// Matches the empty string only.
    Epsilon,
    /// Matches one code point between the two bounds, both included.
    Range(char, char),
    /// Matches a string of the first followed by a string of the second.
    Concat(Box<Re>, Box<Re>),
    /// Matches what either side matches.
    Union(Box<Re>, Box<Re>),
    /// Matches any number of repetitions, none included.
    Star(Box<Re>),
    /// Matches what both sides match.
    Intersect(Box<Re>, Box<Re>),
    /// Matches what the term does not match.
    Compl(Box<Re>),
}

/// Whether `x` is the number of a Unicode scalar value.
pub open spec fn is_scalar(x: int) -> bool {
    0 <= x <= 0xD7FF || 0xE000 <= x <= 0x10FFFF
}

/// The number of the code point after the one numbered `x`, past the
/// surrogate block.
pub open spec fn next_code(x: int) -> int {
    if x == 0xD7FF {
        0xE000
    } else {
        x + 1
    }
}

/// The number of the code point before the one numbered `x`, past the
/// surrogate block.
pub open spec fn prev_code(x: int) -> int {
    if x == 0xE000 {
        0xD7FF
    } else {
        x - 1
    }
}

/// The strictly growing sequence `t` with `c` put in its place, unless it
/// is there.
pub open spec fn place(t: Seq<char>, c: char) -> Seq<char>
    decreases t.len(),
{
    if t.len() == 0 {
        seq![c]
    } else if (c as int) < (t[0] as int) {
        seq![c] + t
    } else if c == t[0] {
        t
    } else {
        seq![t[0]] + place(t.drop_first(), c)
    }
}

/// The code points of `s`, each once, in growing order.
pub open spec fn sorted_of(s: Seq<char>) -> Seq<char>
    decreases s.len(),
{
    if s.len() == 0 {
        Seq::empty()
    } else {
        place(sorted_of(s.drop_last()), s.last())
    }
}

/// The union of the ranges that lie strictly between the neighbours of `t`,
/// for the first `k` pairs of neighbours.
pub open spec fn gaps(t: Seq<char>, k: nat) -> Re
    decreases k,
{
    if k == 0 || k >= t.len() {
        Re::Empty
    } else {
        let r = gaps(t, (k - 1) as nat);
        let a = t[k - 1];
        let b = t[k as int];
        if prev_code(b as int) != a as int {
            Re::union(r, Re::Range(next_code(a as int) as char, prev_code(b as int) as char))
        } else {
            r
        }
    }
}

/// Whether the code point `c` lies in `[lo, hi]`.
pub open spec fn in_range(lo: char, hi: char, c: char) -> bool {
    lo as int <= c as int <= hi as int
}

impl Re {
    /// Whether the language of the term holds the empty string.
    pub open spec fn nullable(self) -> bool
        decreases self,
    {
        match self {
            Re::Empty => false,
            Re::Epsilon => true,
            Re::Range(_, _) => false,
            Re::Concat(a, b) => a.nullable() && b.nullable(),
            Re::Union(a, b) => a.nullable() || b.nullable(),
            Re::Star(_) => true,
            Re::Intersect(a, b) => a.nullable() && b.nullable(),
            Re::Compl(a) => !a.nullable(),
        }
    }

    /// Whether the string `w` belongs to the language of the term.
    pub open spec fn matches(self, w: Seq<char>) -> bool
        decreases self, w.len(),
    {
        match self {
            Re::Empty => false,
            Re::Epsilon => w.len() == 0,
            Re::Range(lo, hi) => w.len() == 1 && in_range(lo, hi, w[0]),
            Re::Concat(a, b) => exists|i: int|
                #![trigger w.subrange(0, i)]
                0 <= i <= w.len() && a.matches(w.subrange(0, i)) && b.matches(
                    w.subrange(i, w.len() as int),
                ),
            Re::Union(a, b) => a.matches(w) || b.matches(w),
            Re::Star(a) => w.len() == 0 || exists|i: int|
                #![trigger w.subrange(0, i)]
                1 <= i <= w.len() && a.matches(w.subrange(0, i)) && self.matches(
                    w.subrange(i, w.len() as int),
                ),
            Re::Intersect(a, b) => a.matches(w) && b.matches(w),
            Re::Compl(a) => !a.matches(w),
        }
    }

    /// Concatenation with the simplifications `∅·x = x·∅ = ∅` and
    /// `ε·x = x·ε = x`.
    pub open spec fn concat(a: Re, b: Re) -> Re {
        if a is Empty || b is Epsilon {
            a
        } else if b is Empty || a is Epsilon {
            b
        } else {
            Re::Concat(Box::new(a), Box::new(b))
        }
    }

    /// Union with the simplifications `∅ ∪ x = x ∪ ∅ = x`.
    pub open spec fn union(a: Re, b: Re) -> Re {
        if a is Empty {
            b
        } else if b is Empty {
            a
        } else {
            Re::Union(Box::new(a), Box::new(b))
        }
    }

    /// Repetition with the simplifications `∅* = ε* = ε` and `(x*)* = x*`.
    pub open spec fn star(a: Re) -> Re {
        match a {
            Re::Empty => Re::Epsilon,
            Re::Epsilon => Re::Epsilon,
            Re::Star(_) => a,
            _ => Re::Star(Box::new(a)),
        }
    }

    /// Intersection, simplified where one side is `Empty` and where both
    /// sides are ranges.
    pub open spec fn intersect(a: Re, b: Re) -> Re {
        if a is Empty || b is Empty {
            Re::Empty
        } else {
            match (a, b) {
                (Re::Range(l1, h1), Re::Range(l2, h2)) => {
                    let lo = if l1 as int >= l2 as int {
                        l1
                    } else {
                        l2
                    };
                    let hi = if h1 as int <= h2 as int {
                        h1
                    } else {
                        h2
                    };
                    if lo as int <= hi as int {
                        Re::Range(lo, hi)
                    } else {
                        Re::Empty
                    }
                },
                _ => Re::Intersect(Box::new(a), Box::new(b)),
            }
        }
    }

    /// One repetition or more.
    pub open spec fn plus(a: Re) -> Re {
        Re::concat(a, Re::star(a))
    }

    /// The term or nothing.
    pub open spec fn opt(a: Re) -> Re {
        Re::union(a, Re::Epsilon)
    }

    /// The term of a single code point.
    pub open spec fn char(c: char) -> Re {
        Re::Range(c, c)
    }

    /// `ε` if the term is nullable, `∅` otherwise.
    pub open spec fn v(self) -> Re {
        if self.nullable() {
            Re::Epsilon
        } else {
            Re::Empty
        }
    }

    /// The Brzozowski derivative of the term with respect to `c`.
    pub open spec fn deriv(self, c: char) -> Re
        decreases self,
    {
        match self {
            Re::Empty => Re::Empty,
            Re::Epsilon => Re::Empty,
            Re::Range(lo, hi) => if in_range(lo, hi, c) {
                Re::Epsilon
            } else {
                Re::Empty
            },
            Re::Concat(a, b) => Re::union(
                Re::concat(a.deriv(c), *b),
                Re::concat(a.v(), b.deriv(c)),
            ),
            Re::Union(a, b) => Re::union(a.deriv(c), b.deriv(c)),
            Re::Star(a) => Re::concat(a.deriv(c), self),
            Re::Intersect(a, b) => Re::intersect(a.deriv(c), b.deriv(c)),
            Re::Compl(a) => Re::Compl(Box::new(a.deriv(c))),
        }
    }

    /// The derivative with respect to every code point of `w` in turn.
    pub open spec fn deriv_all(self, w: Seq<char>) -> Re
        decreases w.len(),
    {
        if w.len() == 0 {
            self
        } else {
            self.deriv_all(w.drop_last()).deriv(w.last())
        }
    }

    /// Whether the term is made of `Epsilon`, ranges, concatenations, unions
    /// and repetitions alone: no `Empty` node occurs in it, no intersection
    /// and no complement.
    pub open spec fn no_empty(self) -> bool
        decreases self,
    {
        match self {
            Re::Empty => false,
            Re::Epsilon => true,
            Re::Range(_, _) => true,
            Re::Concat(a, b) => a.no_empty() && b.no_empty(),
            Re::Union(a, b) => a.no_empty() && b.no_empty(),
            Re::Star(a) => a.no_empty(),
            Re::Intersect(_, _) => false,
            Re::Compl(_) => false,
        }
    }

    /// Whether the term has neither an intersection nor a complement.
    pub open spec fn plain(self) -> bool
        decreases self,
    {
        match self {
            Re::Empty => true,
            Re::Epsilon => true,
            Re::Range(_, _) => true,
            Re::Concat(a, b) => a.plain() && b.plain(),
            Re::Union(a, b) => a.plain() && b.plain(),
            Re::Star(a) => a.plain(),
            Re::Intersect(_, _) => false,
            Re::Compl(_) => false,
        }
    }

    /// Whether `Empty` occurs at the root only: what the simplifying
    /// constructors keep.
    pub open spec fn trimmed(self) -> bool {
        self is Empty || self.no_empty()
    }

    /// Whether every range of the term has its bounds in order.
    pub open spec fn ordered(self) -> bool
        decreases self,
    {
        match self {
            Re::Empty => true,
            Re::Epsilon => true,
            Re::Range(lo, hi) => lo as int <= hi as int,
            Re::Concat(a, b) => a.ordered() && b.ordered(),
            Re::Union(a, b) => a.ordered() && b.ordered(),
            Re::Star(a) => a.ordered(),
            Re::Intersect(a, b) => a.ordered() && b.ordered(),
            Re::Compl(a) => a.ordered(),
        }
    }

    /// Whether a matcher of the term is dead after `w`: its state, the
    /// derivative by `w`, is `Empty`.
    pub open spec fn dead_after(self, w: Seq<char>) -> bool {
        self.deriv_all(w) is Empty
    }

    /// The union of the single code points of `s`, in their order.
    pub open spec fn one_of(s: Seq<char>) -> Re
        decreases s.len(),
    {
        if s.len() == 0 {
            Re::Empty
        } else {
            Re::union(Re::one_of(s.drop_last()), Re::Range(s.last(), s.last()))
        }
    }

    /// The union of the ranges of code points that `s` does not hold: those
    /// between the neighbours of `s` once sorted, those before the first
    /// and those after the last; every code point where `s` is empty.
    pub open spec fn none_of(s: Seq<char>) -> Re {
        let t = sorted_of(s);
        if t.len() == 0 {
            Re::Range('\0', '\u{10FFFF}')
        } else {
            let mid = gaps(t, (t.len() - 1) as nat);
            let low = if t[0] as int != 0 {
                Re::union(mid, Re::Range('\0', prev_code(t[0] as int) as char))
            } else {
                mid
            };
            if t.last() as int != 0x10FFFF {
                Re::union(low, Re::Range(next_code(t.last() as int) as char, '\u{10FFFF}'))
            } else {
                low
            }
        }
    }

    /// A string of the language of a term without `Empty` whose ranges are
    /// in order.
    pub open spec fn witness(self) -> Seq<char>
        decreases self,
    {
        match self {
            Re::Empty => Seq::empty(),
            Re::Epsilon => Seq::empty(),
            Re::Range(lo, _) => seq![lo],
            Re::Concat(a, b) => a.witness() + b.witness(),
            Re::Union(a, _) => a.witness(),
            Re::Star(_) => Seq::empty(),
            Re::Intersect(_, _) => Seq::empty(),
            Re::Compl(_) => Seq::empty(),
        }
    }
}

/// Every code point is a Unicode scalar value. Of an item taken out of a
/// sequence the verifier learns this from a call.
pub proof fn lemma_char(c: char)
    ensures
        0 <= c as int <= 0xD7FF || 0xE000 <= c as int <= 0x10FFFF,
{
}

/// A term is nullable exactly when its language holds the empty string.
pub proof fn lemma_nullable(r: Re)
    ensures
        r.nullable() <==> r.matches(Seq::empty()),
    decreases r,
{
    let e = Seq::<char>::empty();
    match r {
        Re::Concat(a, b) => {
            lemma_nullable(*a);
            lemma_nullable(*b);
            assert(e.subrange(0, 0) =~= e);
            if r.matches(e) {
                let i = choose|i: int|
                    #![trigger e.subrange(0, i)]
                    0 <= i <= e.len() && a.matches(e.subrange(0, i)) && b.matches(
                        e.subrange(i, e.len() as int),
                    );
                assert(i == 0);
            }
        },
        Re::Union(a, b) => {
            lemma_nullable(*a);
            lemma_nullable(*b);
        },
        Re::Intersect(a, b) => {
            lemma_nullable(*a);
            lemma_nullable(*b);
        },
        Re::Compl(a) => {
            lemma_nullable(*a);
        },
        _ => {},
    }
}

/// The simplifying intersection has the language of the plain one.
pub proof fn lemma_intersect(a: Re, b: Re, w: Seq<char>)
    ensures
        Re::intersect(a, b).matches(w) <==> a.matches(w) && b.matches(w),
{
    if w.len() == 1 {
        lemma_char(w[0]);
    }
}

/// The simplifying concatenation has the language of the plain one.
pub proof fn lemma_concat(a: Re, b: Re, w: Seq<char>)
    ensures
        Re::concat(a, b).matches(w) <==> Re::Concat(Box::new(a), Box::new(b)).matches(w),
{
    let plain = Re::Concat(Box::new(a), Box::new(b));
    let n = w.len() as int;
    if a is Empty || b is Empty {
        if plain.matches(w) {
            let i = choose|i: int|
                #![trigger w.subrange(0, i)]
                0 <= i <= w.len() && a.matches(w.subrange(0, i)) && b.matches(w.subrange(i, n));
        }
    } else if b is Epsilon {
        assert(w.subrange(0, n) =~= w);
        if plain.matches(w) {
            let i = choose|i: int|
                #![trigger w.subrange(0, i)]
                0 <= i <= w.len() && a.matches(w.subrange(0, i)) && b.matches(w.subrange(i, n));
            assert(w.subrange(i, n).len() == 0);
            assert(i == n);
        }
        if a.matches(w) {
            assert(b.matches(w.subrange(n, n)));
        }
    } else if a is Epsilon {
        assert(w.subrange(0, n) =~= w);
        if plain.matches(w) {
            let i = choose|i: int|
                #![trigger w.subrange(0, i)]
                0 <= i <= w.len() && a.matches(w.subrange(0, i)) && b.matches(w.subrange(i, n));
            assert(w.subrange(0, i).len() == 0);
            assert(i == 0);
        }
        if b.matches(w) {
            assert(a.matches(w.subrange(0, 0)));
        }
    }
}

/// The simplifying union has the language of the plain one.
pub proof fn lemma_union(a: Re, b: Re, w: Seq<char>)
    ensures
        Re::union(a, b).matches(w) <==> a.matches(w) || b.matches(w),
{
}

/// The simplifying repetition has the language of the plain one.
pub proof fn law_star_language(a: Re, w: Seq<char>)
    ensures
        Re::star(a).matches(w) <==> Re::Star(Box::new(a)).matches(w),
    decreases w.len(),
{
    let plain = Re::Star(Box::new(a));
    let n = w.len() as int;
    match a {
        Re::Empty => {
            if plain.matches(w) && n > 0 {
                let i = choose|i: int|
                    #![trigger w.subrange(0, i)]
                    1 <= i <= w.len() && a.matches(w.subrange(0, i)) && plain.matches(
                        w.subrange(i, n),
                    );
            }
        },
        Re::Epsilon => {
            if plain.matches(w) && n > 0 {
                let i = choose|i: int|
                    #![trigger w.subrange(0, i)]
                    1 <= i <= w.len() && a.matches(w.subrange(0, i)) && plain.matches(
                        w.subrange(i, n),
                    );
                assert(w.subrange(0, i).len() == i);
            }
        },
        Re::Star(x) => {
            // a = x*, and (x*)* has the language of x*.
            lemma_star_star(*x, w);
        },
        _ => {},
    }
}

/// A repetition of a repetition has the language of the repetition.
pub proof fn lemma_star_star(x: Re, w: Seq<char>)
    ensures
        Re::Star(Box::new(Re::Star(Box::new(x)))).matches(w) <==> Re::Star(Box::new(x)).matches(w),
    decreases w.len(),
{
    let inner = Re::Star(Box::new(x));
    let outer = Re::Star(Box::new(inner));
    let n = w.len() as int;
    if n > 0 {
        if outer.matches(w) {
            let i = choose|i: int|
                #![trigger w.subrange(0, i)]
                1 <= i <= w.len() && inner.matches(w.subrange(0, i)) && outer.matches(
                    w.subrange(i, n),
                );
            lemma_star_star(x, w.subrange(i, n));
            lemma_star_append(x, w.subrange(0, i), w.subrange(i, n));
            assert(w.subrange(0, i) + w.subrange(i, n) =~= w);
        }
        if inner.matches(w) {
            assert(w.subrange(0, n) =~= w);
            assert(outer.matches(w.subrange(n, n)));
        }
    }
}

/// Two strings of a repetition, one after the other, are a string of it.
pub proof fn lemma_star_append(x: Re, u: Seq<char>, v: Seq<char>)
    requires
        Re::Star(Box::new(x)).matches(u),
        Re::Star(Box::new(x)).matches(v),
    ensures
        Re::Star(Box::new(x)).matches(u + v),
    decreases u.len(),
{
    let s = Re::Star(Box::new(x));
    let n = u.len() as int;
    if n == 0 {
        assert(u + v =~= v);
    } else {
        let i = choose|i: int|
            #![trigger u.subrange(0, i)]
            1 <= i <= u.len() && x.matches(u.subrange(0, i)) && s.matches(u.subrange(i, n));
        lemma_star_append(x, u.subrange(i, n), v);
        let w = u + v;
        assert(w.subrange(0, i) =~= u.subrange(0, i));
        assert(w.subrange(i, w.len() as int) =~= u.subrange(i, n) + v);
    }
}


/// The derivative with respect to `c` matches `w` exactly when the term
/// matches `c` followed by `w`.
pub proof fn lemma_deriv(r: Re, c: char, w: Seq<char>)
    ensures
        r.deriv(c).matches(w) <==> r.matches(seq![c] + w),
    decreases r,
{
    let cw = seq![c] + w;
    let n = w.len() as int;
    match r {
        Re::Empty => {},
        Re::Epsilon => {},
        Re::Range(lo, hi) => {
            assert(cw[0] == c);
        },
        Re::Union(a, b) => {
            lemma_deriv(*a, c, w);
            lemma_deriv(*b, c, w);
        },
        Re::Concat(a, b) => {
            let da = a.deriv(c);
            let db = b.deriv(c);
            let left = Re::Concat(Box::new(da), b);
            lemma_concat(da, *b, w);
            lemma_concat(a.v(), db, w);
            lemma_deriv(*b, c, w);
            lemma_nullable(*a);
            // Re::concat(a.v(), db) matches w exactly when a is nullable
            // and db matches w.
            assert(Re::concat(a.v(), db).matches(w) <==> a.nullable() && db.matches(w)) by {
                let plain = Re::Concat(Box::new(a.v()), Box::new(db));
                if plain.matches(w) {
                    let i = choose|i: int|
                        #![trigger w.subrange(0, i)]
                        0 <= i <= w.len() && a.v().matches(w.subrange(0, i)) && db.matches(
                            w.subrange(i, n),
                        );
                    assert(w.subrange(0, i).len() == 0);
                    assert(w.subrange(i, n) =~= w);
                }
                if a.nullable() && db.matches(w) {
                    assert(w.subrange(0, 0).len() == 0);
                    assert(w.subrange(0, n) =~= w);
                    assert(a.v().matches(w.subrange(0, 0)));
                }
            }
            if left.matches(w) {
                let j = choose|j: int|
                    #![trigger w.subrange(0, j)]
                    0 <= j <= w.len() && da.matches(w.subrange(0, j)) && b.matches(
                        w.subrange(j, n),
                    );
                lemma_deriv(*a, c, w.subrange(0, j));
                assert(cw.subrange(0, j + 1) =~= seq![c] + w.subrange(0, j));
                assert(cw.subrange(j + 1, cw.len() as int) =~= w.subrange(j, n));
                assert(r.matches(cw));
            }
            if a.nullable() && db.matches(w) {
                assert(cw.subrange(0, 0) =~= Seq::<char>::empty());
                assert(cw.subrange(0, cw.len() as int) =~= cw);
                assert(r.matches(cw));
            }
            if r.matches(cw) {
                let i = choose|i: int|
                    #![trigger cw.subrange(0, i)]
                    0 <= i <= cw.len() && a.matches(cw.subrange(0, i)) && b.matches(
                        cw.subrange(i, cw.len() as int),
                    );
                if i == 0 {
                    assert(cw.subrange(0, 0) =~= Seq::<char>::empty());
                    assert(cw.subrange(0, cw.len() as int) =~= cw);
                } else {
                    lemma_deriv(*a, c, w.subrange(0, i - 1));
                    assert(cw.subrange(0, i) =~= seq![c] + w.subrange(0, i - 1));
                    assert(cw.subrange(i, cw.len() as int) =~= w.subrange(i - 1, n));
                    assert(left.matches(w));
                }
            }
        },
        Re::Star(a) => {
            let da = a.deriv(c);
            let left = Re::Concat(Box::new(da), Box::new(r));
            lemma_concat(da, r, w);
            if left.matches(w) {
                let j = choose|j: int|
                    #![trigger w.subrange(0, j)]
                    0 <= j <= w.len() && da.matches(w.subrange(0, j)) && r.matches(
                        w.subrange(j, n),
                    );
                lemma_deriv(*a, c, w.subrange(0, j));
                assert(cw.subrange(0, j + 1) =~= seq![c] + w.subrange(0, j));
                assert(cw.subrange(j + 1, cw.len() as int) =~= w.subrange(j, n));
                assert(r.matches(cw));
            }
            if r.matches(cw) {
                let i = choose|i: int|
                    #![trigger cw.subrange(0, i)]
                    1 <= i <= cw.len() && a.matches(cw.subrange(0, i)) && r.matches(
                        cw.subrange(i, cw.len() as int),
                    );
                lemma_deriv(*a, c, w.subrange(0, i - 1));
                assert(cw.subrange(0, i) =~= seq![c] + w.subrange(0, i - 1));
                assert(cw.subrange(i, cw.len() as int) =~= w.subrange(i - 1, n));
                assert(left.matches(w));
            }
        },
        Re::Intersect(a, b) => {
            lemma_deriv(*a, c, w);
            lemma_deriv(*b, c, w);
            lemma_intersect(a.deriv(c), b.deriv(c), w);
        },
        Re::Compl(a) => {
            lemma_deriv(*a, c, w);
        },
    }
}

/// The derivative with respect to `w` matches `u` exactly when the term
/// matches `w` followed by `u`.
pub proof fn lemma_deriv_all(r: Re, w: Seq<char>, u: Seq<char>)
    ensures
        r.deriv_all(w).matches(u) <==> r.matches(w + u),
    decreases w.len(),
{
    if w.len() == 0 {
        assert(w + u =~= u);
    } else {
        let c = w.last();
        lemma_deriv(r.deriv_all(w.drop_last()), c, u);
        lemma_deriv_all(r, w.drop_last(), seq![c] + u);
        assert(w.drop_last() + (seq![c] + u) =~= w + u);
    }
}

/// Taking the derivative by `w` and then by `c` is taking it by `w` with
/// `c` appended.
pub proof fn lemma_deriv_all_push(r: Re, w: Seq<char>, c: char)
    ensures
        r.deriv_all(w.push(c)) == r.deriv_all(w).deriv(c),
{
    assert(w.push(c).drop_last() =~= w);
}

/// Taking the derivative by `w` and then by `u` is taking it by `w`
/// followed by `u`.
pub proof fn lemma_deriv_all_append(r: Re, w: Seq<char>, u: Seq<char>)
    ensures
        r.deriv_all(w + u) == r.deriv_all(w).deriv_all(u),
    decreases u.len(),
{
    if u.len() == 0 {
        assert(w + u =~= w);
    } else {
        lemma_deriv_all_append(r, w, u.drop_last());
        assert((w + u).drop_last() =~= w + u.drop_last());
    }
}

/// `Empty` stays `Empty` under every derivative.
pub proof fn lemma_deriv_all_empty(w: Seq<char>)
    ensures
        Re::Empty.deriv_all(w) == Re::Empty,
    decreases w.len(),
{
    if w.len() > 0 {
        lemma_deriv_all_empty(w.drop_last());
    }
}

/// A term without `Empty` whose ranges are in order matches its witness.
pub proof fn lemma_witness(r: Re)
    requires
        r.no_empty(),
        r.ordered(),
    ensures
        r.matches(r.witness()),
    decreases r,
{
    match r {
        Re::Concat(a, b) => {
            lemma_witness(*a);
            lemma_witness(*b);
            let w = r.witness();
            let i = a.witness().len() as int;
            assert(w.subrange(0, i) =~= a.witness());
            assert(w.subrange(i, w.len() as int) =~= b.witness());
        },
        Re::Union(a, _) => {
            lemma_witness(*a);
        },
        _ => {},
    }
}

/// The simplifying constructors keep `Empty` at the root and the ranges in
/// order.
pub proof fn lemma_constructors_keep_form(a: Re, b: Re)
    requires
        a.trimmed(),
        b.trimmed(),
    ensures
        Re::concat(a, b).trimmed(),
        Re::union(a, b).trimmed(),
        Re::star(a).trimmed(),
        a.ordered() && b.ordered() ==> Re::concat(a, b).ordered() && Re::union(a, b).ordered(),
        a.ordered() ==> Re::star(a).ordered(),
{
    let c = Re::Concat(Box::new(a), Box::new(b));
    let u = Re::Union(Box::new(a), Box::new(b));
    let s = Re::Star(Box::new(a));
    assert(c.no_empty() <==> a.no_empty() && b.no_empty());
    assert(u.no_empty() <==> a.no_empty() && b.no_empty());
    assert(s.no_empty() <==> a.no_empty());
    assert(c.ordered() <==> a.ordered() && b.ordered());
    assert(u.ordered() <==> a.ordered() && b.ordered());
    assert(s.ordered() <==> a.ordered());
}

/// The derivative keeps `Empty` at the root and the ranges in order.
pub proof fn lemma_deriv_keeps_form(r: Re, c: char)
    requires
        r.trimmed(),
    ensures
        r.deriv(c).trimmed(),
        r.ordered() ==> r.deriv(c).ordered(),
    decreases r,
{
    match r {
        Re::Concat(a, b) => {
            lemma_deriv_keeps_form(*a, c);
            lemma_deriv_keeps_form(*b, c);
            lemma_constructors_keep_form(a.deriv(c), *b);
            lemma_constructors_keep_form(a.v(), b.deriv(c));
            lemma_constructors_keep_form(
                Re::concat(a.deriv(c), *b),
                Re::concat(a.v(), b.deriv(c)),
            );
        },
        Re::Union(a, b) => {
            lemma_deriv_keeps_form(*a, c);
            lemma_deriv_keeps_form(*b, c);
            lemma_constructors_keep_form(a.deriv(c), b.deriv(c));
        },
        Re::Star(a) => {
            lemma_deriv_keeps_form(*a, c);
            lemma_constructors_keep_form(a.deriv(c), r);
        },
        _ => {},
    }
}

/// The derivative by a string keeps `Empty` at the root and the ranges in
/// order.
pub proof fn lemma_deriv_all_keeps_form(r: Re, w: Seq<char>)
    requires
        r.trimmed(),
    ensures
        r.deriv_all(w).trimmed(),
        r.ordered() ==> r.deriv_all(w).ordered(),
    decreases w.len(),
{
    if w.len() > 0 {
        lemma_deriv_all_keeps_form(r, w.drop_last());
        lemma_deriv_keeps_form(r.deriv_all(w.drop_last()), w.last());
    }
}

/// Acceptance by derivatives is membership in the language: after the
/// code points of `w`, the state is nullable exactly when the term matches
/// `w`.
pub proof fn law_accept_is_membership(r: Re, w: Seq<char>)
    ensures
        r.deriv_all(w).nullable() <==> r.matches(w),
{
    lemma_nullable(r.deriv_all(w));
    lemma_deriv_all(r, w, Seq::empty());
    assert(w + Seq::<char>::empty() =~= w);
}

/// Death is exact: for a term in simplified form whose ranges are in order,
/// the state after `w` is `Empty` exactly when no continuation of `w`
/// belongs to the language.
pub proof fn law_dead_is_exact(r: Re, w: Seq<char>)
    requires
        r.trimmed(),
        r.ordered(),
    ensures
        r.deriv_all(w) is Empty <==> forall|u: Seq<char>| !r.matches(#[trigger] (w + u)),
{
    let d = r.deriv_all(w);
    lemma_deriv_all_keeps_form(r, w);
    if d is Empty {
        assert forall|u: Seq<char>| !r.matches(#[trigger] (w + u)) by {
            lemma_deriv_all(r, w, u);
        }
    } else {
        lemma_witness(d);
        lemma_deriv_all(r, w, d.witness());
        assert(r.matches(w + d.witness()));
    }
}

/// Whatever the term, a state that is `Empty` after `w` has no continuation
/// in the language, and stays `Empty`.
pub proof fn law_dead_is_final(r: Re, w: Seq<char>, u: Seq<char>)
    requires
        r.deriv_all(w) is Empty,
    ensures
        !r.matches(w + u),
        r.deriv_all(w + u) is Empty,
{
    lemma_deriv_all(r, w, u);
    lemma_deriv_all_append(r, w, u);
    lemma_deriv_all_empty(u);
}

/// An accepting state is not dead.
pub proof fn law_accept_is_alive(r: Re, w: Seq<char>)
    requires
        r.deriv_all(w).nullable(),
    ensures
        !(r.deriv_all(w) is Empty),
{
}

/// The identities that the simplifying constructors keep.
pub proof fn law_simplifications(x: Re)
    ensures
        Re::concat(Re::Empty, x) == Re::Empty,
        Re::concat(x, Re::Empty) == Re::Empty,
        Re::concat(Re::Epsilon, x) == x,
        Re::concat(x, Re::Epsilon) == x,
        Re::union(Re::Empty, x) == x,
        Re::union(x, Re::Empty) == x,
        Re::star(Re::Empty) == Re::Epsilon,
        Re::star(Re::Epsilon) == Re::Epsilon,
        Re::star(Re::star(x)) == Re::star(x),
{
}


/// `one_of(s)` is in simplified form with its ranges in order, and matches
/// exactly the single code points of `s`.
pub proof fn lemma_one_of(s: Seq<char>)
    ensures
        Re::one_of(s).trimmed(),
        Re::one_of(s).ordered(),
        forall|w: Seq<char>| #[trigger]
            Re::one_of(s).matches(w) <==> w.len() == 1 && s.contains(w[0]),
    decreases s.len(),
{
    if s.len() > 0 {
        let t = s.drop_last();
        let c = s.last();
        lemma_one_of(t);
        lemma_char(c);
        assert(Re::Range(c, c).no_empty());
        assert(Re::Range(c, c).ordered());
        lemma_constructors_keep_form(Re::one_of(t), Re::Range(c, c));
        assert forall|w: Seq<char>| #[trigger]
            Re::one_of(s).matches(w) <==> w.len() == 1 && s.contains(w[0]) by {
            lemma_union(Re::one_of(t), Re::Range(c, c), w);
            if w.len() == 1 {
                if t.contains(w[0]) {
                    let i = choose|i: int| 0 <= i < t.len() && t[i] == w[0];
                    assert(s[i] == w[0]);
                }
                if w[0] == c {
                    assert(s[s.len() - 1] == c);
                }
                if s.contains(w[0]) {
                    let i = choose|i: int| 0 <= i < s.len() && s[i] == w[0];
                    if i < t.len() {
                        assert(t[i] == w[0]);
                    }
                }
            }
        }
    }
}



/// Where `c` belongs at the index `i` of `t`, `place` puts it there, or
/// leaves `t` as it is if `c` is there.
pub proof fn lemma_place(t: Seq<char>, c: char, i: int)
    requires
        0 <= i <= t.len(),
        forall|k: int| 0 <= k < i ==> (t[k] as int) < (c as int),
        i == t.len() || (t[i] as int) >= (c as int),
    ensures
        place(t, c) == (if i < t.len() && t[i] == c {
            t
        } else {
            t.insert(i, c)
        }),
    decreases i,
{
    if i == 0 {
        if t.len() == 0 {
            assert(seq![c] =~= t.insert(0, c));
        } else if (c as int) < (t[0] as int) {
            assert(seq![c] + t =~= t.insert(0, c));
        } else {
            lemma_char(c);
            lemma_char(t[0]);
            assert(c == t[0]);
        }
    } else {
        let rest = t.drop_first();
        assert forall|k: int| 0 <= k < i - 1 implies (rest[k] as int) < (c as int) by {
            assert(rest[k] == t[k + 1]);
        }
        lemma_place(rest, c, i - 1);
        assert((t[0] as int) < (c as int));
        if i < t.len() && t[i] == c {
            assert(rest[i - 1] == c);
            assert(seq![t[0]] + rest =~= t);
        } else {
            if i < t.len() {
                lemma_char(c);
                lemma_char(t[i]);
                assert(rest[i - 1] == t[i]);
            }
            assert(seq![t[0]] + rest.insert(i - 1, c) =~= t.insert(i, c));
        }
    }
}

} // verus!
