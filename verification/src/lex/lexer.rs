use crate::lex::nfa::Graph;
use crate::lex::nfa::Nfa;
use crate::lex::regex::Regex;
use crate::lexer::engine::Engine;
use crate::lexer::engine::Failure;
use crate::lexer::lexer::find_name;
use crate::lexer::lexer::intern;
use crate::lexer::lexer::slot;
use crate::lexer::scan::RuleSpec;
use crate::lexer::scan::ScanError;
use crate::lexer::scan::ScanState;
use vstd::prelude::*;
use vstd::std_specs::cmp::PartialEqSpec;
use vstd::string::StringExecFns;

pub use crate::lexer::engine::grow;
pub use crate::lexer::engine::with_rule;
pub use crate::lexer::engine::Lexeme;

verus! {

/// A rule of the lexer, matched by an NFA.
pub type Rule<T> = crate::lexer::engine::Rule<T, Nfa>;

/// The error that stopped a lexer: what went wrong, in words, and the
/// number of code points that were committed.
#[derive(Debug)]
pub struct LexerError {
    pub message: String,
    pub position: usize,
}

impl Clone for LexerError {
    /// A copy of the error.
    fn clone(&self) -> (r: Self)
        ensures
            r == *self,
    {
        LexerError { message: self.message.clone(), position: self.position }
    }
}

impl LexerError {
    /// Whether the error says in words what `e` says.
    pub open spec fn tells(&self, e: ScanError) -> bool {
        match e {
            ScanError::UnexpectedInput(n) => self.message@ == "unexpected input"@ && self.position
                == n,
            ScanError::UnexpectedEndOfInput(n) => self.message@ == "unexpected end of input"@
                && self.position == n,
        }
    }
}

/// A multi-mode, longest-match, streaming lexer over modes named by `M`
/// and rules of tokens `T`, whose rules are matched by NFAs.
pub struct Lexer<M, T> {
    engine: Engine<T, Nfa>,
    names: Vec<M>,
    error: Option<LexerError>,
}

impl<M, T> View for Lexer<M, T> {
    type V = ScanState;

    /// The state of the scan.
    closed spec fn view(&self) -> ScanState {
        self.engine@
    }
}

impl<M, T> Lexer<M, T> {
    /// The rule table: for each mode, its rules in declaration order.
    pub closed spec fn table(&self) -> Seq<Seq<RuleSpec<Graph>>> {
        self.engine.table()
    }

    /// The token of a rule.
    pub closed spec fn token_of(&self, mode: nat, rule: nat) -> T {
        self.engine.token_of(mode, rule)
    }

    /// The names of the modes, each at the index of its mode.
    pub closed spec fn names(&self) -> Seq<M> {
        self.names@
    }

    /// The index of the mode that is current at the beginning and after a
    /// reset.
    pub closed spec fn start(&self) -> nat {
        self.engine.start()
    }

    /// Well-formedness: every mode has a name, the error in words is the
    /// error of the scan, and unless the scan has failed, everything
    /// pending has been scanned.
    pub closed spec fn wf(&self) -> bool {
        &&& self.engine.wf()
        &&& self.names@.len() == self.engine.table().len()
        &&& match self.error {
            Some(e) => self.engine@.error matches Some(f) && e.tells(f),
            None => self.engine@.error is None,
        }
    }

    /// Whether the lexer has the table, the tokens, the names and the start
    /// mode of `other`.
    pub open spec fn same_table(&self, other: &Self) -> bool {
        &&& self.table() == other.table()
        &&& self.names() == other.names()
        &&& self.start() == other.start()
        &&& forall|m: nat, i: nat|
            m < other.table().len() && i < other.table()[m as int].len() ==> #[trigger] self.token_of(
                m,
                i,
            ) == other.token_of(m, i)
    }

    /// The number of code points that are committed or pending.
    pub fn consumed(&self) -> (n: usize)
        requires
            self.wf(),
        ensures
            n == self@.position + self@.pending.len(),
    {
        self.engine.consumed()
    }

    /// Every lexeme that is out names a rule of the table.
    pub proof fn lemma_output(&self, i: int)
        requires
            self.wf(),
            0 <= i < self@.output.len(),
        ensures
            self@.output[i].mode < self.table().len(),
            self@.output[i].rule < self.table()[self@.output[i].mode as int].len(),
    {
        self.engine.lemma_output(i);
    }

    /// A lexer without rules or modes, at the beginning of a scan.
    pub fn new() -> (l: Self)
        ensures
            l.wf(),
            l@ == ScanState::initial(0),
            l.table() == Seq::<Seq<RuleSpec<Graph>>>::empty(),
            l.names() == Seq::<M>::empty(),
            l.start() == 0,
    {
        Lexer { engine: Engine::new(), names: Vec::new(), error: None }
    }

    /// Starts over: the queues and the error are cleared, every automaton
    /// is reset, and the start mode is current.
    pub fn reset(&mut self)
        requires
            old(self).wf(),
        ensures
            final(self).wf(),
            final(self).same_table(old(self)),
            final(self)@ == ScanState::initial(old(self).start()),
    {
        self.engine.reset();
        self.error = None;
    }

    /// Puts the error of the scan in words.
    fn record(&mut self)
        requires
            old(self).engine.wf(),
            old(self).names@.len() == old(self).engine.table().len(),
        ensures
            final(self).wf(),
            final(self).engine == old(self).engine,
            final(self).names == old(self).names,
    {
        match self.engine.failure() {
            None => {
                self.error = None;
            },
            Some(Failure::UnexpectedInput(position)) => {
                self.error = Some(
                    LexerError { message: String::from_str("unexpected input"), position },
                );
            },
            Some(Failure::UnexpectedEndOfInput(position)) => {
                self.error = Some(
                    LexerError { message: String::from_str("unexpected end of input"), position },
                );
            },
        }
    }

    /// Feeds one code point. Nothing happens after an error.
    pub fn put(&mut self, c: char)
        requires
            old(self).wf(),
            old(self)@.position + old(self)@.pending.len() < usize::MAX,
        ensures
            final(self).wf(),
            final(self).same_table(old(self)),
            final(self)@ == old(self)@.put(old(self).table(), c),
    {
        if self.is_error() {
            return ;
        }
        self.engine.put(c);
        self.record();
    }

    /// Tells the lexer that the input has ended: the recorded match is
    /// committed, and it is an error if code points are left. Nothing
    /// happens after an error.
    pub fn finish(&mut self)
        requires
            old(self).wf(),
        ensures
            final(self).wf(),
            final(self).same_table(old(self)),
            final(self)@ == old(self)@.finish(old(self).table()),
    {
        if self.is_error() {
            return ;
        }
        self.engine.finish();
        self.record();
    }

    /// Whether the lexer has stopped on an error.
    pub fn is_error(&self) -> (b: bool)
        requires
            self.wf(),
        ensures
            b == (self@.error is Some),
    {
        self.get_error().is_some()
    }

    /// The error that stopped the lexer, if one did.
    pub fn get_error(&self) -> (e: Option<&LexerError>)
        requires
            self.wf(),
        ensures
            match e {
                Some(error) => self@.error matches Some(f) && error.tells(f),
                None => self@.error is None,
            },
    {
        self.error.as_ref()
    }
}

impl<M, T: Clone> Lexer<M, T> {
    /// Takes the next lexeme out of the output queue, oldest first.
    pub fn get(&mut self) -> (r: Option<Lexeme<T>>)
        requires
            old(self).wf(),
        ensures
            final(self).wf(),
            final(self).same_table(old(self)),
            match r {
                Some(lexeme) => {
                    let first = old(self)@.output[0];
                    &&& old(self)@.output.len() > 0
                    &&& final(self)@ == old(self)@.take()
                    &&& lexeme.agrees(first)
                    &&& first.mode < old(self).table().len()
                    &&& first.rule < old(self).table()[first.mode as int].len()
                    &&& cloned(old(self).token_of(first.mode, first.rule), lexeme.token)
                },
                None => old(self)@.output.len() == 0 && final(self)@ == old(self)@,
            },
    {
        self.engine.get()
    }
}

impl<M: PartialEq, T> Lexer<M, T> {
    /// The index of the mode named `mode`; a mode that has no index yet
    /// gets the next one, and no rules.
    fn get_mode_index(&mut self, mode: M) -> (idx: usize)
        requires
            old(self).wf(),
        ensures
            final(self).wf(),
            final(self)@ == old(self)@,
            final(self).start() == old(self).start(),
            final(self).table() == grow(old(self).table(), final(self).names().len()),
            final(self).table().len() == final(self).names().len(),
            forall|m: nat, i: nat|
                m < old(self).table().len() && i < old(self).table()[m as int].len()
                    ==> #[trigger] final(self).token_of(m, i) == old(self).token_of(m, i),
            idx < final(self).names().len(),
            final(self).names() == old(self).names() || final(self).names() == old(self).names().push(mode),
            M::obeys_eq_spec() ==> idx == slot(old(self).names(), mode) && final(self).names()
                == intern(old(self).names(), mode),
    {
        match find_name(&self.names, &mode) {
            Some(i) => {
                proof {
                    assert(self.table() =~= grow(self.table(), self.names().len()));
                }
                return i;
            },
            None => {},
        }
        let ghost before = *self;
        self.names.push(mode);
        let idx = self.engine.add_mode();
        proof {
            assert(self.table() =~= grow(before.table(), self.names().len()));
        }
        idx
    }

    /// Records the mode that is current at the beginning and after a reset.
    /// At the beginning of a scan, it becomes the current mode at once.
    pub fn set_start_mode(&mut self, mode: M)
        requires
            old(self).wf(),
        ensures
            final(self).wf(),
            final(self).table() == grow(old(self).table(), final(self).names().len()),
            final(self).start() < final(self).names().len(),
            final(self).names().len() == final(self).table().len(),
            final(self)@ == (if old(self)@.position == 0 && old(self)@.pending.len() == 0 && old(self)@.error is None {
                ScanState { mode: final(self).start(), ..old(self)@ }
            } else {
                old(self)@
            }),
            M::obeys_eq_spec() ==> final(self).start() == slot(old(self).names(), mode)
                && final(self).names() == intern(old(self).names(), mode),
            forall|m: nat, i: nat|
                m < old(self).table().len() && i < old(self).table()[m as int].len()
                    ==> #[trigger] final(self).token_of(m, i) == old(self).token_of(m, i),
    {
        let idx = self.get_mode_index(mode);
        let ghost mid = *self;
        self.engine.set_start_mode(idx);
        proof {
            assert forall|m: nat, i: nat|
                m < old(self).table().len() && i < old(self).table()[m as int].len() implies #[trigger] self.token_of(
                m,
                i,
            ) == old(self).token_of(m, i) by {
                assert(mid.table()[m as int] == old(self).table()[m as int]);
                assert(mid.token_of(m, i) == old(self).token_of(m, i));
            }
        }
    }

    /// Adds a rule at the end of the rules of `mode_from`: `regex` produces
    /// `token`, and `mode_to` becomes current after it. The table is fixed
    /// while code points are pending, and the automaton of `regex` must fit
    /// the machine.
    pub fn add_rule(&mut self, token: T, regex: &Regex, mode_from: M, mode_to: M, keep_span: bool)
        requires
            old(self).wf(),
            regex@.weight() <= usize::MAX,
            old(self)@.pending.len() == 0,
        ensures
            final(self).wf(),
            final(self)@ == old(self)@,
            final(self).start() == old(self).start(),
            final(self).names().len() == final(self).table().len(),
            forall|m: nat, i: nat|
                m < old(self).table().len() && i < old(self).table()[m as int].len()
                    ==> #[trigger] final(self).token_of(m, i) == old(self).token_of(m, i),
            M::obeys_eq_spec() ==> ({
                let from = slot(old(self).names(), mode_from);
                let names = intern(old(self).names(), mode_from);
                let to = slot(names, mode_to);
                let rule = RuleSpec { pattern: regex@.compiled(), to_mode: to, keep_span };
                &&& final(self).names() == intern(names, mode_to)
                &&& final(self).table() == with_rule(
                    grow(old(self).table(), final(self).names().len()),
                    from,
                    rule,
                )
                &&& final(self).token_of(
                    from,
                    (final(self).table()[from as int].len() - 1) as nat,
                ) == token
            }),
    {
        let ghost before = *self;
        let mode_from = self.get_mode_index(mode_from);
        let ghost mid1 = *self;
        let mode_to = self.get_mode_index(mode_to);
        let ghost mid = *self;
        let nfa = regex.to_nfa();
        self.engine.add_rule(mode_from, nfa, token, keep_span, mode_to);
        proof {
            assert(mid.table() =~= grow(before.table(), mid.names().len())) by {
                assert(mid1.table().len() <= mid.table().len());
            }
            assert forall|m: nat, i: nat|
                m < before.table().len() && i < before.table()[m as int].len() implies #[trigger] self.token_of(
                m,
                i,
            ) == before.token_of(m, i) by {
                assert(mid1.token_of(m, i) == before.token_of(m, i));
                assert(mid1.table()[m as int] == before.table()[m as int]);
                assert(mid.token_of(m, i) == mid1.token_of(m, i));
                assert(mid.table()[m as int] == mid1.table()[m as int]);
            }
        }
    }
}

} // verus!
