use crate::lex::nfa::lemma_empty_optimized;
use crate::lex::nfa::Graph;
use crate::lex::nfa::Nfa;
use crate::lex::thompson::law_compiled;
use crate::lexer::scan::Automaton;
use crate::lexer::language::lemma_char;
use crate::lexer::language::next_code;
use crate::lexer::language::prev_code;
use crate::lexer::language::sorted_of;
use crate::lexer::language::Re;
use crate::lexer::regex::decr_char;
use crate::lexer::regex::incr_char;
use crate::lexer::regex::insert_sorted;
use crate::lexer::regex::strictly_increasing;
use crate::lexer::regex::CHAR_MAX;
use crate::lexer::regex::CHAR_MIN;
use crate::share::share;
use std::rc::Rc;
use vstd::prelude::*;

verus! {

/// A regular expression as it was written: a shared, immutable term, kept
/// without simplification, that compiles to an NFA.
#[derive(Debug)]
pub struct Regex(Rc<RegexInner>);

#[derive(Debug)]
enum RegexInner {
    Empty,
    Epsilon,
    Char(char),
    Range(char, char),
    OneOf(String),
    NoneOf(String),
    Any,
    Concat(Regex, Regex),
    Union(Regex, Regex),
    Star(Regex),
    Plus(Regex),
    Optional(Regex),
}

/// A regular expression of this module as a mathematical term.
pub enum Pattern {
    /// Matches nothing.
    Empty,
    /// Matches the empty string only.
    Epsilon,
    /// Matches one code point between the two bounds, both included.
    Range(char, char),
    /// Matches one of the code points.
    OneOf(Seq<char>),
    /// Matches one code point that is none of these.
    NoneOf(Seq<char>),
    /// Matches a string of the first followed by a string of the second.
    Concat(Box<Pattern>, Box<Pattern>),
    /// Matches what either side matches.
    Union(Box<Pattern>, Box<Pattern>),
    /// Matches any number of repetitions, none included.
    Star(Box<Pattern>),
}

/// Two nodes, the first a start node and the second an accepting node.
pub open spec fn two_nodes() -> Graph {
    Graph { start: seq![0usize], accept: seq![1usize], ..Graph::empty().add_node().add_node() }
}

/// The automaton of the empty string.
pub open spec fn epsilon_graph() -> Graph {
    two_nodes().push_epsilon(0, 1)
}

/// The automaton of one code point of `[lo, hi]`.
pub open spec fn range_graph(lo: char, hi: char) -> Graph {
    two_nodes().add_edge(0, lo, hi, 1)
}

/// The automaton of one of the first `n` code points of `s`; none where
/// `s` is empty.
pub open spec fn one_of_graph(s: Seq<char>, n: nat) -> Graph
    decreases n,
{
    if s.len() == 0 {
        Graph::empty()
    } else if n == 0 {
        two_nodes()
    } else {
        one_of_graph(s, (n - 1) as nat).add_edge(0, s[n - 1], s[n - 1], 1)
    }
}

/// The automaton of a string of `l` followed by a string of `r`.
pub open spec fn concat_graph(l: Graph, r: Graph) -> Graph {
    let ls = (2 + l.nodes.len()) as usize;
    let la = (ls + 1) as usize;
    let rs = (la + 1 + r.nodes.len()) as usize;
    let ra = (rs + 1) as usize;
    two_nodes().merge(l).merge(r).push_epsilon(0, ls).push_epsilon(la as int, rs).push_epsilon(
        ra as int,
        1,
    )
}

/// The automaton of a string of `l` or of `r`.
pub open spec fn union_graph(l: Graph, r: Graph) -> Graph {
    let ls = (2 + l.nodes.len()) as usize;
    let la = (ls + 1) as usize;
    let rs = (la + 1 + r.nodes.len()) as usize;
    let ra = (rs + 1) as usize;
    two_nodes().merge(l).merge(r).push_epsilon(0, ls).push_epsilon(0, rs).push_epsilon(
        la as int,
        1,
    ).push_epsilon(ra as int, 1)
}

/// The automaton of any number of strings of `g`.
pub open spec fn star_graph(g: Graph) -> Graph {
    let s = (2 + g.nodes.len()) as usize;
    let a = (s + 1) as usize;
    two_nodes().merge(g).push_epsilon(0, 1).push_epsilon(0, s).push_epsilon(a as int, 1).push_epsilon(
        1,
        0,
    )
}

/// The ranges of code points that the strictly growing `t` leaves out:
/// between the neighbours among its first `k + 1` items.
pub open spec fn inner_gaps(t: Seq<char>, k: nat) -> Seq<(char, char)>
    decreases k,
{
    if k == 0 || k >= t.len() {
        Seq::empty()
    } else if next_code(t[k - 1] as int) <= prev_code(t[k as int] as int) {
        inner_gaps(t, (k - 1) as nat).push(
            (next_code(t[k - 1] as int) as char, prev_code(t[k as int] as int) as char),
        )
    } else {
        inner_gaps(t, (k - 1) as nat)
    }
}

/// The ranges of code points that the strictly growing, non-empty `t`
/// leaves out: those between its neighbours, then those before its first
/// item, then those after its last.
pub open spec fn all_gaps(t: Seq<char>) -> Seq<(char, char)> {
    let inner = inner_gaps(t, (t.len() - 1) as nat);
    let low = if t[0] as int != 0 {
        inner.push(('\0', prev_code(t[0] as int) as char))
    } else {
        inner
    };
    if t.last() as int != 0x10FFFF {
        low.push((next_code(t.last() as int) as char, '\u{10FFFF}'))
    } else {
        low
    }
}

/// The union of the automata of the first `n` ranges: the first as it is,
/// each other one united with what came before; none where there is no
/// range.
pub open spec fn ranges_graph(ranges: Seq<(char, char)>, n: nat) -> Graph
    decreases n,
{
    if n == 0 || n > ranges.len() {
        Graph::empty()
    } else if n == 1 {
        range_graph(ranges[0].0, ranges[0].1)
    } else {
        union_graph(ranges_graph(ranges, (n - 1) as nat), range_graph(ranges[n - 1].0, ranges[n - 1].1))
    }
}

/// The automaton of one code point that is none of `s`.
pub open spec fn none_of_graph(s: Seq<char>) -> Graph {
    if s.len() == 0 {
        range_graph('\0', '\u{10FFFF}')
    } else {
        ranges_graph(all_gaps(sorted_of(s)), all_gaps(sorted_of(s)).len())
    }
}

impl Pattern {
    /// The term of the language of the pattern.
    pub open spec fn term(self) -> Re
        decreases self,
    {
        match self {
            Pattern::Empty => Re::Empty,
            Pattern::Epsilon => Re::Epsilon,
            Pattern::Range(lo, hi) => Re::Range(lo, hi),
            Pattern::OneOf(s) => Re::one_of(s),
            Pattern::NoneOf(s) => Re::none_of(s),
            Pattern::Concat(a, b) => Re::Concat(Box::new(a.term()), Box::new(b.term())),
            Pattern::Union(a, b) => Re::Union(Box::new(a.term()), Box::new(b.term())),
            Pattern::Star(a) => Re::Star(Box::new(a.term())),
        }
    }

    /// The automaton that the pattern compiles to, before it is made ready
    /// for simulation: that of a leaf, or the composition of the automata
    /// of the patterns inside, each made ready for simulation.
    pub open spec fn raw(self) -> Graph
        decreases self,
    {
        match self {
            Pattern::Empty => Graph::empty(),
            Pattern::Epsilon => epsilon_graph(),
            Pattern::Range(lo, hi) => range_graph(lo, hi),
            Pattern::OneOf(s) => one_of_graph(s, s.len()),
            Pattern::NoneOf(s) => none_of_graph(s),
            Pattern::Concat(a, b) => concat_graph(a.raw().optimized(), b.raw().optimized()),
            Pattern::Union(a, b) => union_graph(a.raw().optimized(), b.raw().optimized()),
            Pattern::Star(a) => star_graph(a.raw().optimized()),
        }
    }

    /// The automaton that the pattern compiles to.
    pub open spec fn compiled(self) -> Graph {
        self.raw().optimized()
    }

    /// Whether every range of the pattern has its bounds in order.
    pub open spec fn ordered(self) -> bool
        decreases self,
    {
        match self {
            Pattern::Range(lo, hi) => lo as int <= hi as int,
            Pattern::Concat(a, b) => a.ordered() && b.ordered(),
            Pattern::Union(a, b) => a.ordered() && b.ordered(),
            Pattern::Star(a) => a.ordered(),
            _ => true,
        }
    }

    /// A bound on the number of nodes of every automaton that compiling
    /// the pattern builds.
    pub open spec fn weight(self) -> nat
        decreases self,
    {
        match self {
            Pattern::Empty => 2,
            Pattern::Epsilon => 2,
            Pattern::Range(_, _) => 2,
            Pattern::OneOf(s) => 2 + s.len(),
            Pattern::NoneOf(s) => 2 + 8 * (s.len() + 2),
            Pattern::Concat(a, b) => a.weight() + b.weight() + 6,
            Pattern::Union(a, b) => a.weight() + b.weight() + 6,
            Pattern::Star(a) => a.weight() + 4,
        }
    }
}

impl View for Regex {
    type V = Pattern;

    /// The pattern of the expression: a single code point is a range, any
    /// code point is the range of all of them, one repetition or more is
    /// the expression followed by its repetitions, and an optional
    /// expression is the union of the empty string and the expression.
    closed spec fn view(&self) -> Pattern
        decreases self,
    {
        match *self.0 {
            RegexInner::Empty => Pattern::Empty,
            RegexInner::Epsilon => Pattern::Epsilon,
            RegexInner::Char(c) => Pattern::Range(c, c),
            RegexInner::Range(lo, hi) => Pattern::Range(lo, hi),
            RegexInner::OneOf(s) => Pattern::OneOf(s@),
            RegexInner::NoneOf(s) => Pattern::NoneOf(s@),
            RegexInner::Any => Pattern::Range('\0', '\u{10FFFF}'),
            RegexInner::Concat(a, b) => Pattern::Concat(Box::new(a@), Box::new(b@)),
            RegexInner::Union(a, b) => Pattern::Union(Box::new(a@), Box::new(b@)),
            RegexInner::Star(a) => Pattern::Star(Box::new(a@)),
            RegexInner::Plus(a) => Pattern::Concat(
                Box::new(a@),
                Box::new(Pattern::Star(Box::new(a@))),
            ),
            RegexInner::Optional(a) => Pattern::Union(Box::new(Pattern::Epsilon), Box::new(a@)),
        }
    }
}

impl Clone for Regex {
    /// Another handle on the same term.
    fn clone(&self) -> (r: Self)
        ensures
            r == *self,
    {
        Regex(share(&self.0))
    }
}

impl Regex {
    /// The expression that matches nothing.
    pub fn empty() -> (r: Self)
        ensures
            r@ == Pattern::Empty,
    {
        Regex(Rc::new(RegexInner::Empty))
    }

    /// The expression that matches the empty string only.
    pub fn epsilon() -> (r: Self)
        ensures
            r@ == Pattern::Epsilon,
    {
        Regex(Rc::new(RegexInner::Epsilon))
    }

    /// The expression that matches the code point `c`.
    pub fn char(c: char) -> (r: Self)
        ensures
            r@ == Pattern::Range(c, c),
    {
        Regex(Rc::new(RegexInner::Char(c)))
    }

    /// The expression that matches one code point of `[start, end]`.
    pub fn range(start: char, end: char) -> (r: Self)
        ensures
            r@ == Pattern::Range(start, end),
    {
        Regex(Rc::new(RegexInner::Range(start, end)))
    }

    /// The expression that matches each single code point of `chars`.
    pub fn one_of(chars: &str) -> (r: Self)
        ensures
            r@ == Pattern::OneOf(chars@),
    {
        Regex(Rc::new(RegexInner::OneOf(chars.to_owned())))
    }

    /// The expression that matches each single code point that `chars`
    /// does not hold.
    pub fn none_of(chars: &str) -> (r: Self)
        ensures
            r@ == Pattern::NoneOf(chars@),
    {
        Regex(Rc::new(RegexInner::NoneOf(chars.to_owned())))
    }

    /// The expression that matches any one code point.
    pub fn any() -> (r: Self)
        ensures
            r@ == Pattern::Range('\0', '\u{10FFFF}'),
    {
        Regex(Rc::new(RegexInner::Any))
    }

    /// Concatenation.
    pub fn concat(&self, other: &Self) -> (r: Self)
        ensures
            r@ == Pattern::Concat(Box::new(self@), Box::new(other@)),
    {
        Regex(Rc::new(RegexInner::Concat(self.clone(), other.clone())))
    }

    /// Union.
    pub fn union(&self, other: &Self) -> (r: Self)
        ensures
            r@ == Pattern::Union(Box::new(self@), Box::new(other@)),
    {
        Regex(Rc::new(RegexInner::Union(self.clone(), other.clone())))
    }

    /// Repetition.
    pub fn star(&self) -> (r: Self)
        ensures
            r@ == Pattern::Star(Box::new(self@)),
    {
        Regex(Rc::new(RegexInner::Star(self.clone())))
    }

    /// One repetition or more.
    pub fn plus(&self) -> (r: Self)
        ensures
            r@ == Pattern::Concat(Box::new(self@), Box::new(Pattern::Star(Box::new(self@)))),
    {
        Regex(Rc::new(RegexInner::Plus(self.clone())))
    }

    /// The expression or nothing.
    pub fn optional(&self) -> (r: Self)
        ensures
            r@ == Pattern::Union(Box::new(Pattern::Epsilon), Box::new(self@)),
    {
        Regex(Rc::new(RegexInner::Optional(self.clone())))
    }
}


/// The automaton that accepts nothing.
fn to_nfa_empty() -> (nfa: Nfa)
    ensures
        nfa.wf(),
        nfa@ == Graph::empty(),
        nfa.is_optimized(),
{
    Nfa::new()
}

/// An automaton of two nodes, the first a start node and the second an
/// accepting node.
fn to_nfa_two_nodes() -> (nfa: Nfa)
    ensures
        nfa.wf(),
        nfa@ == two_nodes(),
        !nfa.is_optimized(),
{
    let mut nfa = Nfa::new();
    let start = nfa.create_node();
    let accept = nfa.create_node();
    nfa.add_start(start);
    nfa.add_accept(accept);
    proof {
        assert(nfa@.start =~= seq![0usize]);
        assert(nfa@.accept =~= seq![1usize]);
    }
    nfa
}

/// The automaton of the empty string.
fn to_nfa_epsilon() -> (nfa: Nfa)
    ensures
        nfa.wf(),
        nfa@ == epsilon_graph(),
        !nfa.is_optimized(),
{
    let mut nfa = to_nfa_two_nodes();
    nfa.add_epsilon(0, 1);
    nfa
}

/// The automaton of the code point `c`.
fn to_nfa_char(c: char) -> (nfa: Nfa)
    ensures
        nfa.wf(),
        nfa@ == range_graph(c, c),
        !nfa.is_optimized(),
{
    to_nfa_range(c, c)
}

/// The automaton of one code point of `[lo, hi]`.
fn to_nfa_range(lo: char, hi: char) -> (nfa: Nfa)
    ensures
        nfa.wf(),
        nfa@ == range_graph(lo, hi),
        !nfa.is_optimized(),
        nfa@.nodes.len() == 2,
{
    let mut nfa = to_nfa_two_nodes();
    nfa.add_edge(0, lo, hi, 1);
    nfa
}

/// The automaton of one of the code points of `chars`.
fn to_nfa_one_of(chars: &str) -> (nfa: Nfa)
    requires
        2 + chars@.len() <= usize::MAX,
    ensures
        nfa.wf(),
        nfa@ == one_of_graph(chars@, chars@.len()),
        nfa.is_optimized() ==> nfa@ == Graph::empty(),
        nfa@.nodes.len() <= 2 + chars@.len(),
{
    let n = chars.unicode_len();
    if n == 0 {
        return to_nfa_empty();
    }
    let mut nfa = to_nfa_two_nodes();
    let mut i: usize = 0;
    while i < n
        invariant
            i <= n,
            n == chars@.len(),
            n > 0,
            nfa.wf(),
            !nfa.is_optimized(),
            nfa@ == one_of_graph(chars@, i as nat),
            2 <= nfa@.nodes.len() <= 2 + i,
        decreases n - i,
    {
        let c = chars.get_char(i);
        nfa.add_edge(0, c, c, 1);
        i += 1;
    }
    nfa
}

/// The code point before `c`, skipping the surrogate block.
fn char_decr(c: char) -> (r: char)
    requires
        c != CHAR_MIN,
    ensures
        r as int == prev_code(c as int),
{
    decr_char(c)
}

/// The code point after `c`, skipping the surrogate block.
fn char_incr(c: char) -> (r: char)
    requires
        c != CHAR_MAX,
    ensures
        r as int == next_code(c as int),
{
    incr_char(c)
}

/// The ranges of code points that the strictly growing, non-empty
/// `sorted` leaves out.
fn gaps_of(sorted: &Vec<char>) -> (ranges: Vec<(char, char)>)
    requires
        strictly_increasing(sorted@),
        sorted@.len() > 0,
    ensures
        ranges@ == all_gaps(sorted@),
        ranges@.len() <= sorted@.len() + 1,
{
    let mut ranges: Vec<(char, char)> = Vec::new();
    let n = sorted.len();
    let mut k: usize = 1;
    while k < n
        invariant
            1 <= k <= n,
            n == sorted@.len(),
            strictly_increasing(sorted@),
            ranges@ == inner_gaps(sorted@, (k - 1) as nat),
            ranges@.len() <= k - 1,
        decreases n - k,
    {
        let a = sorted[k - 1];
        let b = sorted[k];
        proof {
            lemma_char(a);
            lemma_char(b);
            assert((a as int) < (b as int));
        }
        let lo = char_incr(a);
        let hi = char_decr(b);
        if lo <= hi {
            ranges.push((lo, hi));
        }
        k += 1;
    }
    let first = sorted[0];
    let last = sorted[n - 1];
    proof {
        lemma_char(first);
        lemma_char(last);
    }
    if first != CHAR_MIN {
        ranges.push((CHAR_MIN, char_decr(first)));
    }
    if last != CHAR_MAX {
        ranges.push((char_incr(last), CHAR_MAX));
    }
    ranges
}

/// The automaton of one code point that is none of `chars`.
fn to_nfa_none_of(chars: &str) -> (nfa: Nfa)
    requires
        2 + 8 * (chars@.len() + 2) <= usize::MAX,
    ensures
        nfa.wf(),
        nfa@ == none_of_graph(chars@),
        nfa.is_optimized() ==> nfa@ == Graph::empty(),
        nfa@.nodes.len() <= 2 + 8 * (chars@.len() + 2),
{
    let n = chars.unicode_len();
    if n == 0 {
        return to_nfa_any();
    }
    let mut sorted: Vec<char> = Vec::new();
    let mut i: usize = 0;
    while i < n
        invariant
            i <= n,
            n == chars@.len(),
            strictly_increasing(sorted@),
            sorted@ == sorted_of(chars@.take(i as int)),
            sorted@.len() <= i,
            i > 0 ==> sorted@.len() > 0,
        decreases n - i,
    {
        let c = chars.get_char(i);
        let ghost before = sorted@;
        insert_sorted(&mut sorted, c);
        proof {
            assert(chars@.take(i + 1).drop_last() =~= chars@.take(i as int));
            assert(sorted@.contains(c));
            lemma_place_len(before, c);
        }
        i += 1;
    }
    proof {
        assert(chars@.take(n as int) =~= chars@);
    }
    let ranges = gaps_of(&sorted);
    let count = ranges.len();
    if count == 0 {
        return to_nfa_empty();
    }
    let mut nfa = to_nfa_range(ranges[0].0, ranges[0].1);
    let mut k: usize = 1;
    while k < count
        invariant
            1 <= k <= count,
            count == ranges@.len(),
            count <= n + 1,
            2 + 8 * (n + 2) <= usize::MAX,
            nfa.wf(),
            !nfa.is_optimized(),
            nfa@ == ranges_graph(ranges@, k as nat),
            nfa@.nodes.len() <= 2 + 8 * (k - 1),
        decreases count - k,
    {
        let next = to_nfa_range(ranges[k].0, ranges[k].1);
        nfa = to_nfa_union(&nfa, &next);
        k += 1;
    }
    nfa
}

/// The automaton of any one code point.
fn to_nfa_any() -> (nfa: Nfa)
    ensures
        nfa.wf(),
        nfa@ == range_graph('\0', '\u{10FFFF}'),
        !nfa.is_optimized(),
        nfa@.nodes.len() == 2,
{
    to_nfa_range(CHAR_MIN, CHAR_MAX)
}

/// The automaton of a string of `lhs` followed by a string of `rhs`.
fn to_nfa_concat(lhs: &Nfa, rhs: &Nfa) -> (nfa: Nfa)
    requires
        lhs.wf(),
        rhs.wf(),
        lhs@.nodes.len() + rhs@.nodes.len() + 6 <= usize::MAX,
    ensures
        nfa.wf(),
        nfa@ == concat_graph(lhs@, rhs@),
        !nfa.is_optimized(),
        nfa@.nodes.len() == lhs@.nodes.len() + rhs@.nodes.len() + 6,
{
    let mut nfa = to_nfa_two_nodes();
    let (lhs_start, lhs_accept) = nfa.merge(lhs);
    let (rhs_start, rhs_accept) = nfa.merge(rhs);
    nfa.add_epsilon(0, lhs_start);
    nfa.add_epsilon(lhs_accept, rhs_start);
    nfa.add_epsilon(rhs_accept, 1);
    nfa
}

/// The automaton of a string of `lhs` or of `rhs`.
fn to_nfa_union(lhs: &Nfa, rhs: &Nfa) -> (nfa: Nfa)
    requires
        lhs.wf(),
        rhs.wf(),
        lhs@.nodes.len() + rhs@.nodes.len() + 6 <= usize::MAX,
    ensures
        nfa.wf(),
        nfa@ == union_graph(lhs@, rhs@),
        !nfa.is_optimized(),
        nfa@.nodes.len() == lhs@.nodes.len() + rhs@.nodes.len() + 6,
{
    let mut nfa = to_nfa_two_nodes();
    let (lhs_start, lhs_accept) = nfa.merge(lhs);
    let (rhs_start, rhs_accept) = nfa.merge(rhs);
    nfa.add_epsilon(0, lhs_start);
    nfa.add_epsilon(0, rhs_start);
    nfa.add_epsilon(lhs_accept, 1);
    nfa.add_epsilon(rhs_accept, 1);
    nfa
}

/// The automaton of any number of strings of `nfa`.
fn to_nfa_star(nfa: &Nfa) -> (star: Nfa)
    requires
        nfa.wf(),
        nfa@.nodes.len() + 4 <= usize::MAX,
    ensures
        star.wf(),
        star@ == star_graph(nfa@),
        !star.is_optimized(),
        star@.nodes.len() == nfa@.nodes.len() + 4,
{
    let mut nfa_star = to_nfa_two_nodes();
    let (inner_start, inner_accept) = nfa_star.merge(nfa);
    nfa_star.add_epsilon(0, 1);
    nfa_star.add_epsilon(0, inner_start);
    nfa_star.add_epsilon(inner_accept, 1);
    nfa_star.add_epsilon(1, 0);
    nfa_star
}

/// The automaton of one string of `nfa` or more: `nfa` followed by its
/// repetitions, made ready for simulation.
fn to_nfa_plus(nfa: &Nfa) -> (plus: Nfa)
    requires
        nfa.wf(),
        2 * nfa@.nodes.len() + 10 <= usize::MAX,
    ensures
        plus.wf(),
        plus@ == concat_graph(nfa@, star_graph(nfa@).optimized()),
        !plus.is_optimized(),
        plus@.nodes.len() <= 2 * nfa@.nodes.len() + 10,
{
    let mut star = to_nfa_star(nfa);
    star.reset();
    to_nfa_concat(nfa, &star)
}

/// The automaton of a string of `nfa` or the empty string.
fn to_nfa_optional(nfa: &Nfa) -> (optional: Nfa)
    requires
        nfa.wf(),
        nfa@.nodes.len() + 8 <= usize::MAX,
    ensures
        optional.wf(),
        optional@ == union_graph(epsilon_graph().optimized(), nfa@),
        !optional.is_optimized(),
        optional@.nodes.len() <= nfa@.nodes.len() + 8,
{
    let mut epsilon = to_nfa_epsilon();
    epsilon.reset();
    to_nfa_union(&epsilon, nfa)
}

/// Putting a code point in its place makes a sequence one item longer at
/// most, and not empty.
proof fn lemma_place_len(t: Seq<char>, c: char)
    ensures
        1 <= crate::lexer::language::place(t, c).len() <= t.len() + 1,
    decreases t.len(),
{
    if t.len() > 0 && !((c as int) < (t[0] as int)) && c != t[0] {
        lemma_place_len(t.drop_first(), c);
    }
}

/// What one repetition or more compiles to, and how much it weighs.
proof fn lemma_plus(a: Pattern)
    ensures
        Pattern::Concat(Box::new(a), Box::new(Pattern::Star(Box::new(a)))).raw() == concat_graph(
            a.compiled(),
            star_graph(a.compiled()).optimized(),
        ),
        Pattern::Concat(Box::new(a), Box::new(Pattern::Star(Box::new(a)))).weight() == 2
            * a.weight() + 10,
{
    reveal_with_fuel(Pattern::weight, 3);
    reveal_with_fuel(Pattern::raw, 3);
}

/// What an optional pattern compiles to, and how much it weighs.
proof fn lemma_optional(a: Pattern)
    ensures
        Pattern::Union(Box::new(Pattern::Epsilon), Box::new(a)).raw() == union_graph(
            epsilon_graph().optimized(),
            a.compiled(),
        ),
        Pattern::Union(Box::new(Pattern::Epsilon), Box::new(a)).weight() == a.weight() + 8,
{
    reveal_with_fuel(Pattern::weight, 3);
    reveal_with_fuel(Pattern::raw, 3);
}

impl Regex {
    /// The automaton of the expression before it is made ready for
    /// simulation.
    fn to_raw_nfa(&self) -> (nfa: Nfa)
        requires
            self@.weight() <= usize::MAX,
        ensures
            nfa.wf(),
            nfa@ == self@.raw(),
            nfa@.nodes.len() <= self@.weight(),
            nfa.is_optimized() ==> nfa@ == Graph::empty(),
        decreases self, 0nat,
    {
        match &*self.0 {
            RegexInner::Empty => to_nfa_empty(),
            RegexInner::Epsilon => to_nfa_epsilon(),
            RegexInner::Char(c) => to_nfa_char(*c),
            RegexInner::Range(lo, hi) => to_nfa_range(*lo, *hi),
            RegexInner::OneOf(chars) => to_nfa_one_of(chars.as_str()),
            RegexInner::NoneOf(chars) => to_nfa_none_of(chars.as_str()),
            RegexInner::Any => to_nfa_any(),
            RegexInner::Concat(lhs, rhs) => {
                let l = lhs.to_nfa();
                let r = rhs.to_nfa();
                to_nfa_concat(&l, &r)
            },
            RegexInner::Union(lhs, rhs) => {
                let l = lhs.to_nfa();
                let r = rhs.to_nfa();
                to_nfa_union(&l, &r)
            },
            RegexInner::Star(regex) => {
                let inner = regex.to_nfa();
                to_nfa_star(&inner)
            },
            RegexInner::Plus(regex) => {
                proof {
                    lemma_plus(regex@);
                }
                let inner = regex.to_nfa();
                to_nfa_plus(&inner)
            },
            RegexInner::Optional(regex) => {
                proof {
                    lemma_optional(regex@);
                }
                let inner = regex.to_nfa();
                to_nfa_optional(&inner)
            },
        }
    }

    /// The automaton of the expression, ready for simulation, with its
    /// start nodes active. It accepts exactly the strings of the
    /// expression.
    pub fn to_nfa(&self) -> (nfa: Nfa)
        requires
            self@.weight() <= usize::MAX,
        ensures
            nfa.wf(),
            nfa@ == self@.compiled(),
            nfa@.nodes.len() <= self@.weight(),
            nfa.is_optimized(),
            nfa.frontier() == nfa@.start.to_set(),
            nfa.fed() == Seq::<char>::empty(),
            forall|w: Seq<char>| #[trigger] nfa@.accepts(w) <==> self@.term().matches(w),
        decreases self, 1nat,
    {
        let mut nfa = self.to_raw_nfa();
        proof {
            lemma_empty_optimized();
        }
        nfa.reset();
        proof {
            assert forall|w: Seq<char>| #[trigger] nfa@.accepts(w) <==> self@.term().matches(w) by {
                law_compiled(self@, w);
            }
        }
        nfa
    }
}

} // verus!
