use crate::lexer::language::law_accept_is_membership;
use crate::lexer::language::lemma_deriv_all_push;
use crate::lexer::language::Re;
use crate::regex::Regex;
use vstd::prelude::*;

verus! {

/// A matcher by derivatives of an expression with intersection and
/// complement.
pub struct Matcher {
    regex: Regex,
    state: Regex,
    fed: Ghost<Seq<char>>,
}

impl Matcher {
    /// The term that the matcher was made from.
    pub closed spec fn pattern(&self) -> Re {
        self.regex@
    }

    /// The code points fed since the last reset.
    pub closed spec fn fed(&self) -> Seq<char> {
        self.fed@
    }

    /// Well-formedness: the state is the derivative of the pattern by what
    /// was fed.
    pub closed spec fn wf(&self) -> bool {
        &&& self.regex.wf()
        &&& self.state.wf()
        &&& self.state@ == self.regex@.deriv_all(self.fed@)
    }

    /// A matcher of `r` that was fed nothing.
    pub fn from_regex(r: &Regex) -> (m: Self)
        requires
            r.wf(),
        ensures
            m.wf(),
            m.pattern() == r@,
            m.fed() == Seq::<char>::empty(),
    {
        Matcher { regex: r.clone(), state: r.clone(), fed: Ghost(Seq::empty()) }
    }

    /// Forgets what was fed.
    pub fn reset(&mut self)
        requires
            old(self).wf(),
        ensures
            final(self).wf(),
            final(self).pattern() == old(self).pattern(),
            final(self).fed() == Seq::<char>::empty(),
    {
        self.state = self.regex.clone();
        self.fed = Ghost(Seq::empty());
    }

    /// Feeds one code point.
    pub fn put(&mut self, c: char)
        requires
            old(self).wf(),
        ensures
            final(self).wf(),
            final(self).pattern() == old(self).pattern(),
            final(self).fed() == old(self).fed().push(c),
    {
        proof {
            lemma_deriv_all_push(self.regex@, self.fed@, c);
        }
        self.state = self.state.derivative(c);
        self.fed = Ghost(self.fed@.push(c));
    }

    /// Whether what was fed belongs to the language of the pattern.
    pub fn is_accepting(&self) -> (b: bool)
        requires
            self.wf(),
        ensures
            b == self.pattern().matches(self.fed()),
    {
        proof {
            law_accept_is_membership(self.regex@, self.fed@);
        }
        self.state.is_nullable()
    }

    /// Whether the state is `Empty`; no continuation of what was fed
    /// belongs to the language then.
    pub fn is_dead(&self) -> (b: bool)
        requires
            self.wf(),
        ensures
            b == self.pattern().dead_after(self.fed()),
    {
        self.state.is_empty()
    }
}

} // verus!
