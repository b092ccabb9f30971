use crate::lexer::language::gaps;
use crate::lexer::language::in_range;
use crate::lexer::language::is_scalar;
use crate::lexer::language::lemma_place;
use crate::lexer::language::next_code;
use crate::lexer::language::place;
use crate::lexer::language::prev_code;
use crate::lexer::language::sorted_of;
use crate::lexer::language::law_accept_is_membership;
use crate::lexer::language::law_dead_is_exact;
use crate::lexer::language::lemma_constructors_keep_form;
use crate::lexer::language::lemma_deriv_all_push;
use crate::lexer::language::lemma_char;
use crate::lexer::language::lemma_one_of;
use crate::lexer::language::lemma_union;
use crate::lexer::language::Re;
use crate::lexer::scan::Automaton;
use crate::lexer::scan::Machine;
use crate::share::share;
use std::rc::Rc;
use vstd::prelude::*;

verus! {

/// A regular expression: a shared, immutable term with its nullability
/// cached at every node.
#[derive(Debug)]
pub struct Regex {
    pub(crate) node: Rc<RegexNode>,
    pub(crate) nullable: bool,
}

/// The node of a regular expression.
#[derive(Debug)]
pub enum RegexNode {
    /// Matches nothing.
    Empty,
    /// Matches the empty string only.
    Epsilon,
    /// Matches one code point between the two bounds, both included.
    Range(char, char),
    /// Matches a string of the first followed by a string of the second.
    Concat(Regex, Regex),
    /// Matches what either side matches.
    Union(Regex, Regex),
    /// Matches any number of repetitions, none included.
    Star(Regex),
}

/// The smallest code point.
pub const CHAR_MIN: char = '\0';

/// The largest code point.
pub const CHAR_MAX: char = '\u{10FFFF}';

/// Converts a number to the code point that it denotes, if there is one.
///
/// Trusted: `char::from_u32` of the standard library, which returns `Some`
/// exactly for the Unicode scalar values, and then the code point whose
/// number is the argument.
#[verifier::external_body]
fn char_of(x: u32) -> (r: Option<char>)
    ensures
        r is Some <==> is_scalar(x as int),
        r matches Some(c) ==> c as int == x as int,
{
    char::from_u32(x)
}

/// The code point after `c`, skipping the surrogate block.
pub fn incr_char(c: char) -> (r: char)
    requires
        c != CHAR_MAX,
    ensures
        r as int == next_code(c as int),
{
    let x: u32 = c as u32;
    let y: u32 = if x == 0xD7FF {
        0xE000
    } else {
        x + 1
    };
    match char_of(y) {
        Some(r) => r,
        None => c,
    }
}

/// The code point before `c`, skipping the surrogate block.
pub fn decr_char(c: char) -> (r: char)
    requires
        c != CHAR_MIN,
    ensures
        r as int == prev_code(c as int),
{
    let x: u32 = c as u32;
    let y: u32 = if x == 0xE000 {
        0xD7FF
    } else {
        x - 1
    };
    match char_of(y) {
        Some(r) => r,
        None => c,
    }
}

impl View for Regex {
    type V = Re;

    /// The term that the regular expression stands for.
    closed spec fn view(&self) -> Re
        decreases self,
    {
        match *self.node {
            RegexNode::Empty => Re::Empty,
            RegexNode::Epsilon => Re::Epsilon,
            RegexNode::Range(lo, hi) => Re::Range(lo, hi),
            RegexNode::Concat(a, b) => Re::Concat(Box::new(a@), Box::new(b@)),
            RegexNode::Union(a, b) => Re::Union(Box::new(a@), Box::new(b@)),
            RegexNode::Star(a) => Re::Star(Box::new(a@)),
        }
    }
}

impl Clone for Regex {
    /// Another handle on the same term.
    fn clone(&self) -> (r: Self)
        ensures
            r == *self,
    {
        Regex { node: share(&self.node), nullable: self.nullable }
    }
}

impl Regex {
    /// Well-formedness: every cached flag is the nullability of its term,
    /// and `Empty` occurs at the root only.
    pub closed spec fn wf(&self) -> bool
        decreases self,
    {
        &&& self.nullable == self@.nullable()
        &&& self@.trimmed()
        &&& match *self.node {
            RegexNode::Concat(a, b) => a.wf() && b.wf(),
            RegexNode::Union(a, b) => a.wf() && b.wf(),
            RegexNode::Star(a) => a.wf(),
            _ => true,
        }
    }

    /// Whether the term is `Empty`.
    pub fn is_empty(&self) -> (b: bool)
        ensures
            b == (self@ is Empty),
    {
        matches!(*self.node, RegexNode::Empty)
    }

    /// Whether the term is `Epsilon`.
    pub fn is_epsilon(&self) -> (b: bool)
        ensures
            b == (self@ is Epsilon),
    {
        matches!(*self.node, RegexNode::Epsilon)
    }

    /// The expression that matches nothing.
    pub fn empty() -> (r: Self)
        ensures
            r.wf(),
            r@ == Re::Empty,
    {
        Self { node: Rc::new(RegexNode::Empty), nullable: false }
    }

    /// The expression that matches the empty string only.
    pub fn epsilon() -> (r: Self)
        ensures
            r.wf(),
            r@ == Re::Epsilon,
    {
        Self { node: Rc::new(RegexNode::Epsilon), nullable: true }
    }

    /// The expression that matches any one code point.
    pub fn any() -> (r: Self)
        ensures
            r.wf(),
            r@ == Re::Range(CHAR_MIN, CHAR_MAX),
    {
        Self::range(CHAR_MIN, CHAR_MAX)
    }

    /// The expression that matches the code point `c`.
    pub fn char(c: char) -> (r: Self)
        ensures
            r.wf(),
            r@ == Re::char(c),
    {
        Self::range(c, c)
    }

    /// The expression that matches one code point of `[lo, hi]`.
    pub fn range(lo: char, hi: char) -> (r: Self)
        ensures
            r.wf(),
            r@ == Re::Range(lo, hi),
    {
        Self { node: Rc::new(RegexNode::Range(lo, hi)), nullable: false }
    }

    /// Concatenation, simplified where one side is `Empty` or `Epsilon`.
    pub fn concat(&self, other: &Self) -> (r: Self)
        requires
            self.wf(),
            other.wf(),
        ensures
            r.wf(),
            r@ == Re::concat(self@, other@),
    {
        if self.is_empty() || other.is_epsilon() {
            return self.clone();
        }
        if other.is_empty() || self.is_epsilon() {
            return other.clone();
        }
        Self {
            node: Rc::new(RegexNode::Concat(self.clone(), other.clone())),
            nullable: self.nullable && other.nullable,
        }
    }

    /// Union, simplified where one side is `Empty`.
    pub fn union(&self, other: &Self) -> (r: Self)
        requires
            self.wf(),
            other.wf(),
        ensures
            r.wf(),
            r@ == Re::union(self@, other@),
    {
        if self.is_empty() {
            return other.clone();
        }
        if other.is_empty() {
            return self.clone();
        }
        Self {
            node: Rc::new(RegexNode::Union(self.clone(), other.clone())),
            nullable: self.nullable || other.nullable,
        }
    }

    /// Repetition, simplified on `Empty`, `Epsilon` and a repetition.
    pub fn star(&self) -> (r: Self)
        requires
            self.wf(),
        ensures
            r.wf(),
            r@ == Re::star(self@),
    {
        match &*self.node {
            RegexNode::Empty => Self::epsilon(),
            RegexNode::Epsilon => Self::epsilon(),
            RegexNode::Star(_) => self.clone(),
            _ => Self { node: Rc::new(RegexNode::Star(self.clone())), nullable: true },
        }
    }

    /// One repetition or more.
    pub fn plus(&self) -> (r: Self)
        requires
            self.wf(),
        ensures
            r.wf(),
            r@ == Re::plus(self@),
    {
        self.concat(&self.star())
    }

    /// The expression or nothing.
    pub fn opt(&self) -> (r: Self)
        requires
            self.wf(),
        ensures
            r.wf(),
            r@ == Re::opt(self@),
    {
        self.union(&Self::epsilon())
    }

    /// Whether the language holds the empty string.
    pub fn is_nullable(&self) -> (b: bool)
        requires
            self.wf(),
        ensures
            b == self@.nullable(),
    {
        self.nullable
    }

    /// `Epsilon` if the expression is nullable, `Empty` otherwise.
    pub fn v(&self) -> (r: Self)
        requires
            self.wf(),
        ensures
            r.wf(),
            r@ == self@.v(),
    {
        if self.is_nullable() {
            Self::epsilon()
        } else {
            Self::empty()
        }
    }

    /// The Brzozowski derivative with respect to `c`.
    pub fn derivative(&self, c: char) -> (r: Self)
        requires
            self.wf(),
        ensures
            r.wf(),
            r@ == self@.deriv(c),
        decreases self,
    {
        match &*self.node {
            RegexNode::Empty => Self::empty(),
            RegexNode::Epsilon => Self::empty(),
            RegexNode::Range(lo, hi) => {
                if *lo <= c && c <= *hi {
                    Self::epsilon()
                } else {
                    Self::empty()
                }
            },
            RegexNode::Concat(a, b) => {
                let da = a.derivative(c);
                let db = b.derivative(c);
                let va = a.v();
                da.concat(b).union(&va.concat(&db))
            },
            RegexNode::Union(a, b) => a.derivative(c).union(&b.derivative(c)),
            RegexNode::Star(a) => a.derivative(c).concat(self),
        }
    }
}


/// Whether the code points of `s` grow strictly.
pub open spec fn strictly_increasing(s: Seq<char>) -> bool {
    forall|i: int, j: int| 0 <= i < j < s.len() ==> (s[i] as int) < (s[j] as int)
}

/// Whether `c` lies strictly between two neighbours of `s`, the first of
/// them before the index `k`.
pub open spec fn in_gap(s: Seq<char>, k: int, c: char) -> bool {
    exists|j: int|
        0 <= j < k && j + 1 < s.len() && (#[trigger] s[j] as int) < (c as int) && (c as int) < (s[j
            + 1] as int)
}

/// A code point that a strictly growing sequence does not hold lies before
/// its first item, after its last, or strictly between two neighbours.
pub proof fn lemma_absent_in_sorted(s: Seq<char>, c: char)
    requires
        strictly_increasing(s),
        s.len() > 0,
    ensures
        !s.contains(c) <==> (c as int) < (s[0] as int) || (c as int) > (s.last() as int) || in_gap(
            s,
            s.len() - 1,
            c,
        ),
    decreases s.len(),
{
    if s.contains(c) {
        let i = choose|i: int| 0 <= i < s.len() && s[i] == c;
        if in_gap(s, s.len() - 1, c) {
            let j = choose|j: int|
                0 <= j < s.len() - 1 && j + 1 < s.len() && (#[trigger] s[j] as int) < (c as int)
                    && (c as int) < (s[j + 1] as int);
            if i <= j {
                if i < j {
                    assert((s[i] as int) < (s[j] as int));
                }
            } else {
                if j + 1 < i {
                    assert((s[j + 1] as int) < (s[i] as int));
                }
            }
        }
        if i > 0 {
            assert((s[0] as int) < (s[i] as int));
        }
        if i < s.len() - 1 {
            assert((s[i] as int) < (s[s.len() - 1] as int));
        }
    } else if s.len() > 1 {
        let t = s.drop_last();
        assert(strictly_increasing(t));
        assert(!t.contains(c)) by {
            if t.contains(c) {
                let i = choose|i: int| 0 <= i < t.len() && t[i] == c;
                assert(s[i] == c);
            }
        }
        lemma_absent_in_sorted(t, c);
        assert(s[s.len() - 1] != c);
        assert(s[s.len() - 2] != c);
        if (c as int) >= (s[0] as int) && (c as int) <= (s.last() as int) {
            if (c as int) > (t.last() as int) {
                assert(t.last() == s[s.len() - 2]);
                assert((s[s.len() - 2] as int) < (c as int));
                assert(in_gap(s, s.len() - 1, c));
            } else {
                let j = choose|j: int|
                    0 <= j < t.len() - 1 && j + 1 < t.len() && (#[trigger] t[j] as int) < (c as int)
                        && (c as int) < (t[j + 1] as int);
                assert(s[j] == t[j]);
                assert(s[j + 1] == t[j + 1]);
                assert(in_gap(s, s.len() - 1, c));
            }
        }
    } else {
        assert(s[0] != c);
    }
}

/// Moving the bound of `in_gap` one neighbour on adds the gap between the
/// two neighbours at the old bound.
pub proof fn lemma_gap_step(s: Seq<char>, k: int, c: char)
    requires
        0 <= k,
        k + 1 < s.len(),
    ensures
        in_gap(s, k + 1, c) <==> in_gap(s, k, c) || ((s[k] as int) < (c as int) && (c as int) < (
        s[k + 1] as int)),
{
    if in_gap(s, k + 1, c) {
        let j = choose|j: int|
            0 <= j < k + 1 && j + 1 < s.len() && (#[trigger] s[j] as int) < (c as int) && (
            c as int) < (s[j + 1] as int);
        if j < k {
            assert(in_gap(s, k, c));
        }
    }
    if in_gap(s, k, c) {
        let j = choose|j: int|
            0 <= j < k && j + 1 < s.len() && (#[trigger] s[j] as int) < (c as int) && (c as int)
                < (s[j + 1] as int);
        assert(in_gap(s, k + 1, c));
    }
    if (s[k] as int) < (c as int) && (c as int) < (s[k + 1] as int) {
        assert(in_gap(s, k + 1, c));
    }
}

/// The code points strictly between `a` and `b` are those from the one
/// after `a` to the one before `b`.
pub proof fn lemma_between(a: char, b: char, c: char)
    requires
        (a as int) < (b as int),
    ensures
        prev_code(b as int) != a as int ==> next_code(a as int) <= prev_code(b as int),
        prev_code(b as int) != a as int ==> (next_code(a as int) <= c as int <= prev_code(
            b as int,
        ) <==> (a as int) < (c as int) && (c as int) < (b as int)),
        prev_code(b as int) == a as int ==> !((a as int) < (c as int) && (c as int) < (b as int)),
{
}

/// A range matches the single code points within its bounds.
pub proof fn lemma_range(lo: char, hi: char, w: Seq<char>)
    ensures
        Re::Range(lo, hi).matches(w) <==> w.len() == 1 && in_range(lo, hi, w[0]),
        Re::Range(lo, hi).no_empty(),
        Re::Range(lo, hi).ordered() <==> lo as int <= hi as int,
{
}

/// Putting a code point in its place keeps a sequence strictly growing,
/// and adds the code point to what it holds.
pub proof fn lemma_place_sorted(t: Seq<char>, c: char)
    requires
        strictly_increasing(t),
    ensures
        strictly_increasing(place(t, c)),
        forall|x: char| #[trigger] place(t, c).contains(x) <==> t.contains(x) || x == c,
        0 < place(t, c).len() <= t.len() + 1,
    decreases t.len(),
{
    let p = place(t, c);
    if t.len() == 0 {
        assert(p[0] == c);
    } else if (c as int) < (t[0] as int) {
        assert forall|i: int, j: int| 0 <= i < j < p.len() implies (p[i] as int) < (p[j] as int) by {
            if i > 0 {
                assert((t[i - 1] as int) < (t[j - 1] as int));
            } else if j > 1 {
                assert((t[0] as int) < (t[j - 1] as int));
            }
        }
        assert forall|x: char| p.contains(x) <==> t.contains(x) || x == c by {
            if p.contains(x) {
                let k = choose|k: int| 0 <= k < p.len() && p[k] == x;
                if k > 0 {
                    assert(t[k - 1] == x);
                }
            }
            if t.contains(x) {
                let k = choose|k: int| 0 <= k < t.len() && t[k] == x;
                assert(p[k + 1] == x);
            }
            if x == c {
                assert(p[0] == c);
            }
        }
    } else if c == t[0] {
        assert(t[0] == c);
    } else {
        let rest = t.drop_first();
        let q = place(rest, c);
        assert forall|i: int, j: int| 0 <= i < j < rest.len() implies (rest[i] as int) < (
        rest[j] as int) by {
            assert((t[i + 1] as int) < (t[j + 1] as int));
        }
        lemma_place_sorted(rest, c);
        lemma_char(c);
        lemma_char(t[0]);
        assert forall|k: int| 0 <= k < q.len() implies (t[0] as int) < (#[trigger] q[k] as int) by {
            assert(q.contains(q[k]));
            if rest.contains(q[k]) {
                let m = choose|m: int| 0 <= m < rest.len() && rest[m] == q[k];
                assert((t[0] as int) < (t[m + 1] as int));
            }
        }
        assert forall|i: int, j: int| 0 <= i < j < p.len() implies (p[i] as int) < (p[j] as int) by {
            if i > 0 {
                assert((q[i - 1] as int) < (q[j - 1] as int));
            } else {
                assert(p[j] == q[j - 1]);
            }
        }
        assert forall|x: char| p.contains(x) <==> t.contains(x) || x == c by {
            if p.contains(x) {
                let k = choose|k: int| 0 <= k < p.len() && p[k] == x;
                if k > 0 {
                    assert(q[k - 1] == x);
                    assert(q.contains(x));
                    if rest.contains(x) {
                        let m = choose|m: int| 0 <= m < rest.len() && rest[m] == x;
                        assert(t[m + 1] == x);
                    }
                } else {
                    assert(t[0] == x);
                }
            }
            if t.contains(x) {
                let k = choose|k: int| 0 <= k < t.len() && t[k] == x;
                if k > 0 {
                    assert(rest[k - 1] == x);
                    assert(q.contains(x));
                    let m = choose|m: int| 0 <= m < q.len() && q[m] == x;
                    assert(p[m + 1] == x);
                } else {
                    assert(p[0] == x);
                }
            }
            if x == c {
                assert(q.contains(c));
                let m = choose|m: int| 0 <= m < q.len() && q[m] == c;
                assert(p[m + 1] == c);
            }
        }
    }
}

/// The sorted code points of `s` grow strictly, and are those of `s`.
pub proof fn lemma_sorted_of(s: Seq<char>)
    ensures
        strictly_increasing(sorted_of(s)),
        forall|x: char| #[trigger] sorted_of(s).contains(x) <==> s.contains(x),
        sorted_of(s).len() <= s.len(),
        s.len() > 0 ==> sorted_of(s).len() > 0,
    decreases s.len(),
{
    if s.len() > 0 {
        let rest = s.drop_last();
        lemma_sorted_of(rest);
        lemma_place_sorted(sorted_of(rest), s.last());
        assert forall|x: char| sorted_of(s).contains(x) <==> s.contains(x) by {
            if rest.contains(x) {
                let k = choose|k: int| 0 <= k < rest.len() && rest[k] == x;
                assert(s[k] == x);
            }
            if x == s.last() {
                assert(s[s.len() - 1] == x);
            }
            if s.contains(x) {
                let k = choose|k: int| 0 <= k < s.len() && s[k] == x;
                if k < rest.len() {
                    assert(rest[k] == x);
                }
            }
        }
    }
}

/// The term of the gaps between the first `k + 1` items of a strictly
/// growing sequence matches the single code points that lie in them.
pub proof fn lemma_gaps(t: Seq<char>, k: nat, w: Seq<char>)
    requires
        strictly_increasing(t),
        k < t.len(),
    ensures
        gaps(t, k).matches(w) <==> w.len() == 1 && in_gap(t, k as int, w[0]),
    decreases k,
{
    if k > 0 {
        let a = t[k - 1];
        let b = t[k as int];
        let before = gaps(t, (k - 1) as nat);
        lemma_gaps(t, (k - 1) as nat, w);
        lemma_char(a);
        lemma_char(b);
        assert((a as int) < (b as int));
        let lo = next_code(a as int) as char;
        let hi = prev_code(b as int) as char;
        lemma_union(before, Re::Range(lo, hi), w);
        lemma_range(lo, hi, w);
        if w.len() == 1 {
            lemma_char(w[0]);
            lemma_between(a, b, w[0]);
            lemma_gap_step(t, k - 1, w[0]);
        }
    }
}

/// `none_of(s)` matches exactly the single code points that `s` does not
/// hold.
pub proof fn lemma_none_of(s: Seq<char>, w: Seq<char>)
    ensures
        Re::none_of(s).matches(w) <==> w.len() == 1 && !s.contains(w[0]),
{
    let t = sorted_of(s);
    lemma_sorted_of(s);
    if t.len() == 0 {
        lemma_range(CHAR_MIN, CHAR_MAX, w);
        if w.len() == 1 {
            lemma_char(w[0]);
        }
    } else {
        let mid = gaps(t, (t.len() - 1) as nat);
        let first = t[0];
        let last = t.last();
        lemma_char(first);
        lemma_char(last);
        let fprev = prev_code(first as int) as char;
        let lnext = next_code(last as int) as char;
        let low = if first as int != 0 {
            Re::union(mid, Re::Range(CHAR_MIN, fprev))
        } else {
            mid
        };
        lemma_gaps(t, (t.len() - 1) as nat, w);
        lemma_union(mid, Re::Range(CHAR_MIN, fprev), w);
        lemma_union(low, Re::Range(lnext, CHAR_MAX), w);
        lemma_range(CHAR_MIN, fprev, w);
        lemma_range(lnext, CHAR_MAX, w);
        if w.len() == 1 {
            let c = w[0];
            lemma_char(c);
            lemma_absent_in_sorted(t, c);
        }
    }
}

/// Puts `c` in its place in a strictly growing vector, unless it is there.
pub fn insert_sorted(v: &mut Vec<char>, c: char)
    requires
        strictly_increasing(old(v)@),
    ensures
        final(v)@ == place(old(v)@, c),
        strictly_increasing(final(v)@),
        forall|x: char| final(v)@.contains(x) <==> old(v)@.contains(x) || x == c,
{
    let mut i: usize = 0;
    while i < v.len() && v[i] < c
        invariant
            i <= v.len(),
            *v == *old(v),
            forall|k: int| 0 <= k < i ==> (v@[k] as int) < (c as int),
        decreases v.len() - i,
    {
        i += 1;
    }
    proof {
        if i < v.len() {
            lemma_char(v@[i as int]);
        }
        lemma_place(v@, c, i as int);
    }
    if i < v.len() && v[i] == c {
        assert(v@.contains(c));
        return ;
    }
    let ghost before = v@;
    assert(!before.contains(c)) by {
        if before.contains(c) {
            let k = choose|k: int| 0 <= k < before.len() && before[k] == c;
            if k > i {
                assert((before[i as int] as int) < (before[k] as int));
            }
        }
    }
    v.insert(i, c);
    assert(v@ == before.insert(i as int, c));
    assert(strictly_increasing(v@)) by {
        assert forall|a: int, b: int| 0 <= a < b < v@.len() implies (v@[a] as int) < (
        v@[b] as int) by {
            let a0 = if a < i {
                a
            } else {
                a - 1
            };
            let b0 = if b < i {
                b
            } else {
                b - 1
            };
            if a != i && b != i {
                assert(v@[a] == before[a0]);
                assert(v@[b] == before[b0]);
                assert((before[a0] as int) < (before[b0] as int));
            } else if a == i {
                assert(v@[b] == before[b0]);
                if b0 > i {
                    assert((before[i as int] as int) < (before[b0] as int));
                }
            } else {
                assert(v@[a] == before[a0]);
            }
        }
    }
    assert forall|x: char| v@.contains(x) <==> before.contains(x) || x == c by {
        if v@.contains(x) {
            let k = choose|k: int| 0 <= k < v@.len() && v@[k] == x;
            if k < i {
                assert(before[k] == x);
            } else if k > i {
                assert(before[k - 1] == x);
            }
        }
        if before.contains(x) {
            let k = choose|k: int| 0 <= k < before.len() && before[k] == x;
            if k < i {
                assert(v@[k] == x);
            } else {
                assert(v@[k + 1] == x);
            }
        }
        if x == c {
            assert(v@[i as int] == c);
        }
    }
}

impl Regex {
    /// The term of an expression is the term of its node.
    pub(crate) proof fn lemma_view(&self)
        ensures
            self@ == (match *self.node {
                RegexNode::Empty => Re::Empty,
                RegexNode::Epsilon => Re::Epsilon,
                RegexNode::Range(lo, hi) => Re::Range(lo, hi),
                RegexNode::Concat(a, b) => Re::Concat(Box::new(a@), Box::new(b@)),
                RegexNode::Union(a, b) => Re::Union(Box::new(a@), Box::new(b@)),
                RegexNode::Star(a) => Re::Star(Box::new(a@)),
            }),
    {
    }

    /// The term of an expression has neither an intersection nor a
    /// complement.
    pub proof fn lemma_plain(&self)
        ensures
            self@.plain(),
        decreases self,
    {
        match *self.node {
            RegexNode::Concat(a, b) => {
                a.lemma_plain();
                b.lemma_plain();
            },
            RegexNode::Union(a, b) => {
                a.lemma_plain();
                b.lemma_plain();
            },
            RegexNode::Star(a) => {
                a.lemma_plain();
            },
            _ => {},
        }
    }

    /// What `wf` says of the term.
    pub proof fn lemma_wf(&self)
        requires
            self.wf(),
        ensures
            self@.trimmed(),
    {
    }

    /// The expression that matches each single code point of `chars`.
    pub fn one_of(chars: &str) -> (r: Self)
        ensures
            r.wf(),
            r@ == Re::one_of(chars@),
            r@.ordered(),
            forall|w: Seq<char>| #[trigger] r@.matches(w) <==> w.len() == 1 && chars@.contains(w[0]),
    {
        let mut r = Self::empty();
        let n = chars.unicode_len();
        let mut i: usize = 0;
        while i < n
            invariant
                i <= n,
                n == chars@.len(),
                r.wf(),
                r@ == Re::one_of(chars@.take(i as int)),
            decreases n - i,
        {
            let c = chars.get_char(i);
            r = r.union(&Self::char(c));
            proof {
                assert(chars@.take(i + 1).drop_last() =~= chars@.take(i as int));
            }
            i += 1;
        }
        proof {
            assert(chars@.take(n as int) =~= chars@);
            lemma_one_of(chars@);
        }
        r
    }

    /// The expression that matches each single code point that `chars`
    /// does not hold; any code point where `chars` is empty.
    pub fn none_of(chars: &str) -> (r: Self)
        ensures
            r.wf(),
            r@ == Re::none_of(chars@),
            r@.ordered(),
            forall|w: Seq<char>| #[trigger]
                r@.matches(w) <==> w.len() == 1 && !chars@.contains(w[0]),
    {
        let mut sorted: Vec<char> = Vec::new();
        let n = chars.unicode_len();
        let mut i: usize = 0;
        while i < n
            invariant
                i <= n,
                n == chars@.len(),
                strictly_increasing(sorted@),
                sorted@ == sorted_of(chars@.take(i as int)),
                forall|x: char| sorted@.contains(x) <==> chars@.take(i as int).contains(x),
            decreases n - i,
        {
            let c = chars.get_char(i);
            let ghost before = sorted@;
            insert_sorted(&mut sorted, c);
            proof {
                let s0 = chars@.take(i as int);
                let s1 = chars@.take(i + 1);
                assert(s1.drop_last() =~= s0);
                assert forall|x: char| sorted@.contains(x) <==> s1.contains(x) by {
                    if s0.contains(x) {
                        let k = choose|k: int| 0 <= k < s0.len() && s0[k] == x;
                        assert(s1[k] == x);
                    }
                    if x == c {
                        assert(s1[i as int] == c);
                    }
                    if s1.contains(x) {
                        let k = choose|k: int| 0 <= k < s1.len() && s1[k] == x;
                        if k < i {
                            assert(s0[k] == x);
                        }
                    }
                }
            }
            i += 1;
        }
        proof {
            assert(chars@.take(n as int) =~= chars@);
        }
        if sorted.len() == 0 {
            let r = Self::any();
            proof {
                assert forall|w: Seq<char>| #[trigger]
                    r@.matches(w) <==> w.len() == 1 && !chars@.contains(w[0]) by {
                    lemma_range(CHAR_MIN, CHAR_MAX, w);
                    if w.len() == 1 {
                        lemma_char(w[0]);
                        assert(!sorted@.contains(w[0]));
                    }
                }
                lemma_range(CHAR_MIN, CHAR_MAX, Seq::empty());
            }
            return r;
        }
        let mut r = Self::empty();
        let mut k: usize = 0;
        while k + 1 < sorted.len()
            invariant
                sorted.len() > 0,
                k < sorted.len(),
                strictly_increasing(sorted@),
                r.wf(),
                r@ == gaps(sorted@, k as nat),
                r@.ordered(),
                forall|w: Seq<char>| #[trigger]
                    r@.matches(w) <==> w.len() == 1 && in_gap(sorted@, k as int, w[0]),
            decreases sorted.len() - k,
        {
            let a = sorted[k];
            let b = sorted[k + 1];
            proof {
                lemma_char(a);
                lemma_char(b);
            }
            assert((a as int) < (b as int));
            let anext = incr_char(a);
            let bprev = decr_char(b);
            let ghost old_r = r@;
            if bprev != a {
                let gap = Self::range(anext, bprev);
                proof {
                    lemma_between(a, b, a);
                    lemma_range(anext, bprev, Seq::empty());
                    r.lemma_wf();
                    gap.lemma_wf();
                    lemma_constructors_keep_form(r@, gap@);
                }
                r = r.union(&gap);
            }
            proof {
                assert forall|w: Seq<char>| #[trigger]
                    r@.matches(w) <==> w.len() == 1 && in_gap(sorted@, k + 1, w[0]) by {
                    lemma_union(old_r, Re::Range(anext, bprev), w);
                    lemma_range(anext, bprev, w);
                    assert(old_r.matches(w) <==> w.len() == 1 && in_gap(sorted@, k as int, w[0]));
                    if w.len() == 1 {
                        lemma_char(w[0]);
                        lemma_between(a, b, w[0]);
                        lemma_gap_step(sorted@, k as int, w[0]);
                    }
                }
            }
            k += 1;
        }
        let first = sorted[0];
        let last = sorted[sorted.len() - 1];
        let ghost mid = r@;
        let ghost low_view = Re::Empty;
        let ghost fprev = first;
        let ghost lnext = last;
        if first != CHAR_MIN {
            let p = decr_char(first);
            let low = Self::range(CHAR_MIN, p);
            proof {
                fprev = p;
                low_view = low@;
                lemma_range(CHAR_MIN, p, Seq::empty());
                r.lemma_wf();
                low.lemma_wf();
                lemma_constructors_keep_form(r@, low@);
            }
            r = r.union(&low);
        }
        let ghost mid2 = r@;
        let ghost high_view = Re::Empty;
        if last != CHAR_MAX {
            let q = incr_char(last);
            let high = Self::range(q, CHAR_MAX);
            proof {
                lnext = q;
                high_view = high@;
                lemma_range(q, CHAR_MAX, Seq::empty());
                r.lemma_wf();
                high.lemma_wf();
                lemma_constructors_keep_form(r@, high@);
            }
            r = r.union(&high);
        }
        proof {
            assert forall|w: Seq<char>| #[trigger]
                r@.matches(w) <==> w.len() == 1 && !chars@.contains(w[0]) by {
                lemma_union(mid, low_view, w);
                lemma_union(mid2, high_view, w);
                assert(mid.matches(w) <==> w.len() == 1 && in_gap(
                    sorted@,
                    sorted@.len() - 1,
                    w[0],
                ));
                if w.len() == 1 {
                    let c = w[0];
                    lemma_char(c);
                    lemma_absent_in_sorted(sorted@, c);
                    assert(sorted@.last() == last);
                    assert(sorted@.contains(c) <==> chars@.contains(c));
                    lemma_range(CHAR_MIN, fprev, w);
                    lemma_range(lnext, CHAR_MAX, w);
                    assert(low_view.matches(w) <==> (c as int) < (first as int));
                    assert(high_view.matches(w) <==> (c as int) > (last as int));
                }
            }
        }
        r
    }
}


/// A matcher by derivatives: the expression it was made from, and the
/// derivative of that expression by what it was fed.
pub struct Matcher {
    regex: Regex,
    state: Regex,
    fed: Ghost<Seq<char>>,
}

impl Matcher {
    /// The term that the matcher was made from.
    pub closed spec fn pattern(&self) -> Re {
        self.regex@
    }

    /// The code points fed since the last reset.
    pub closed spec fn fed(&self) -> Seq<char> {
        self.fed@
    }

    /// Well-formedness: the state is the derivative of the pattern by what
    /// was fed.
    pub closed spec fn wf(&self) -> bool {
        &&& self.regex.wf()
        &&& self.state.wf()
        &&& self.state@ == self.regex@.deriv_all(self.fed@)
    }

    /// A matcher of `regex` that was fed nothing.
    pub fn new(regex: &Regex) -> (m: Self)
        requires
            regex.wf(),
        ensures
            m.wf(),
            m.pattern() == regex@,
            m.fed() == Seq::<char>::empty(),
    {
        Self { regex: regex.clone(), state: regex.clone(), fed: Ghost(Seq::empty()) }
    }

    /// Forgets what was fed.
    pub fn reset(&mut self)
        requires
            old(self).wf(),
        ensures
            final(self).wf(),
            final(self).pattern() == old(self).pattern(),
            final(self).fed() == Seq::<char>::empty(),
    {
        self.state = self.regex.clone();
        self.fed = Ghost(Seq::empty());
    }

    /// Feeds one code point.
    pub fn put(&mut self, c: char)
        requires
            old(self).wf(),
        ensures
            final(self).wf(),
            final(self).pattern() == old(self).pattern(),
            final(self).fed() == old(self).fed().push(c),
    {
        proof {
            lemma_deriv_all_push(self.regex@, self.fed@, c);
        }
        self.state = self.state.derivative(c);
        self.fed = Ghost(self.fed@.push(c));
    }

    /// Whether what was fed belongs to the language of the pattern.
    pub fn is_accepted(&self) -> (b: bool)
        requires
            self.wf(),
        ensures
            b == self.pattern().matches(self.fed()),
            b == self.pattern().deriv_all(self.fed()).nullable(),
    {
        proof {
            law_accept_is_membership(self.regex@, self.fed@);
        }
        self.state.is_nullable()
    }

    /// Whether the state is `Empty`. Where the ranges of the pattern are in
    /// order, that is: whether no continuation of what was fed belongs to
    /// the language.
    pub fn is_dead(&self) -> (b: bool)
        requires
            self.wf(),
        ensures
            b == self.pattern().dead_after(self.fed()),
            self.pattern().ordered() ==> (b <==> forall|u: Seq<char>|
                !self.pattern().matches(#[trigger] (self.fed() + u))),
    {
        proof {
            self.regex.lemma_wf();
            if self.regex@.ordered() {
                law_dead_is_exact(self.regex@, self.fed@);
            }
        }
        self.state.is_empty()
    }

    /// Resets, feeds the code points of `s`, and says whether `s` belongs
    /// to the language of the pattern.
    pub fn match_string(&mut self, s: &str) -> (b: bool)
        requires
            old(self).wf(),
        ensures
            final(self).wf(),
            final(self).pattern() == old(self).pattern(),
            final(self).fed() == s@,
            b == old(self).pattern().matches(s@),
    {
        self.reset();
        let n = s.unicode_len();
        let mut i: usize = 0;
        while i < n
            invariant
                i <= n,
                n == s@.len(),
                self.wf(),
                self.pattern() == old(self).pattern(),
                self.fed() == s@.take(i as int),
            decreases n - i,
        {
            let c = s.get_char(i);
            self.put(c);
            proof {
                assert(s@.take(i as int).push(c) =~= s@.take(i + 1));
            }
            i += 1;
        }
        proof {
            assert(s@.take(n as int) =~= s@);
        }
        self.is_accepted()
    }
}


impl Machine for Matcher {
    type Pattern = Re;

    open spec fn pattern(&self) -> Re {
        Matcher::pattern(self)
    }

    open spec fn fed(&self) -> Seq<char> {
        Matcher::fed(self)
    }

    open spec fn wf(&self) -> bool {
        Matcher::wf(self)
    }

    fn reset(&mut self) {
        Matcher::reset(self)
    }

    fn put(&mut self, c: char) {
        Matcher::put(self, c)
    }

    fn is_accepted(&self) -> (b: bool) {
        Matcher::is_accepted(self)
    }

    fn is_dead(&self) -> (b: bool) {
        Matcher::is_dead(self)
    }
}

} // verus!
