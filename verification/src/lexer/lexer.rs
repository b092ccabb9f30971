use crate::lexer::engine::Engine;
use crate::lexer::engine::Failure;
use crate::lexer::language::Re;
use crate::lexer::regex::Matcher;
use crate::lexer::regex::Regex;
use crate::lexer::scan::RuleSpec;
use crate::lexer::scan::ScanError;
use crate::lexer::scan::ScanState;
use vstd::prelude::*;
use vstd::std_specs::cmp::PartialEqSpec;

pub use crate::lexer::engine::grow;
pub use crate::lexer::engine::with_rule;
pub use crate::lexer::engine::Lexeme;

verus! {

/// The first of the first `n` names that equals `m`.
pub open spec fn lookup<M: PartialEq>(names: Seq<M>, m: M, n: nat) -> Option<nat>
    decreases n,
{
    if n == 0 {
        None
    } else {
        match lookup(names, m, (n - 1) as nat) {
            Some(i) => Some(i),
            None => if names[n - 1].eq_spec(&m) {
                Some((n - 1) as nat)
            } else {
                None
            },
        }
    }
}

/// The index of the mode named `m`: that of the first name equal to it,
/// or the one after the last where no name is.
pub open spec fn slot<M: PartialEq>(names: Seq<M>, m: M) -> nat {
    match lookup(names, m, names.len()) {
        Some(i) => i,
        None => names.len(),
    }
}

/// The names with `m` among them: added at the end where it was not.
pub open spec fn intern<M: PartialEq>(names: Seq<M>, m: M) -> Seq<M> {
    match lookup(names, m, names.len()) {
        Some(_) => names,
        None => names.push(m),
    }
}

/// The index of the first name equal to `mode`, if there is one.
pub fn find_name<M: PartialEq>(names: &Vec<M>, mode: &M) -> (found: Option<usize>)
    ensures
        found matches Some(i) ==> i < names@.len(),
        M::obeys_eq_spec() ==> (match found {
            Some(i) => lookup(names@, *mode, names@.len()) == Some(i as nat),
            None => lookup(names@, *mode, names@.len()) is None,
        }),
{
    let n = names.len();
    let mut i: usize = 0;
    while i < n
        invariant
            i <= n,
            n == names@.len(),
            M::obeys_eq_spec() ==> lookup(names@, *mode, i as nat) is None,
        decreases n - i,
    {
        if names[i] == *mode {
            proof {
                if M::obeys_eq_spec() {
                    lemma_lookup_found(names@, *mode, i as nat, n as nat);
                }
            }
            return Some(i);
        }
        i += 1;
    }
    None
}

/// A multi-mode, longest-match, streaming lexer over rules of tokens `T`
/// and modes named by `M`, whose rules are matched by derivatives.
pub struct Lexer<T, M> {
    engine: Engine<T, Matcher>,
    names: Vec<M>,
}

impl<T, M> View for Lexer<T, M> {
    type V = ScanState;

    /// The state of the scan.
    closed spec fn view(&self) -> ScanState {
        self.engine@
    }
}

impl<T, M> Lexer<T, M> {
    /// The rule table: for each mode, its rules in declaration order.
    pub closed spec fn table(&self) -> Seq<Seq<RuleSpec<Re>>> {
        self.engine.table()
    }

    /// The token of a rule.
    pub closed spec fn token_of(&self, mode: nat, rule: nat) -> T {
        self.engine.token_of(mode, rule)
    }

    /// The names of the modes, each at the index of its mode.
    pub closed spec fn names(&self) -> Seq<M> {
        self.names@
    }

    /// The index of the mode that is current at the beginning and after a
    /// reset.
    pub closed spec fn start(&self) -> nat {
        self.engine.start()
    }

    /// Well-formedness: every mode has a name, and unless the scan has
    /// failed, everything pending has been scanned.
    pub closed spec fn wf(&self) -> bool {
        &&& self.engine.wf()
        &&& self.names@.len() == self.engine.table().len()
    }

    /// Whether the lexer has the table, the tokens, the names and the start
    /// mode of `other`.
    pub open spec fn same_table(&self, other: &Self) -> bool {
        &&& self.table() == other.table()
        &&& self.names() == other.names()
        &&& self.start() == other.start()
        &&& forall|m: nat, i: nat|
            m < other.table().len() && i < other.table()[m as int].len() ==> #[trigger] self.token_of(
                m,
                i,
            ) == other.token_of(m, i)
    }

    /// The number of code points that are committed or pending.
    pub fn consumed(&self) -> (n: usize)
        requires
            self.wf(),
        ensures
            n == self@.position + self@.pending.len(),
    {
        self.engine.consumed()
    }

    /// Every lexeme that is out names a rule of the table.
    pub proof fn lemma_output(&self, i: int)
        requires
            self.wf(),
            0 <= i < self@.output.len(),
        ensures
            self@.output[i].mode < self.table().len(),
            self@.output[i].rule < self.table()[self@.output[i].mode as int].len(),
    {
        self.engine.lemma_output(i);
    }

    /// A lexer without rules or modes, at the beginning of a scan.
    pub fn new() -> (l: Self)
        ensures
            l.wf(),
            l@ == ScanState::initial(0),
            l.table() == Seq::<Seq<RuleSpec<Re>>>::empty(),
            l.names() == Seq::<M>::empty(),
            l.start() == 0,
    {
        Self { engine: Engine::new(), names: Vec::new() }
    }

    /// Starts over: the queues and the error are cleared, every matcher is
    /// reset, and the start mode is current.
    pub fn reset(&mut self)
        requires
            old(self).wf(),
        ensures
            final(self).wf(),
            final(self).same_table(old(self)),
            final(self)@ == ScanState::initial(old(self).start()),
    {
        self.engine.reset();
    }

    /// Feeds one code point. Nothing happens after an error.
    pub fn put(&mut self, c: char)
        requires
            old(self).wf(),
            old(self)@.position + old(self)@.pending.len() < usize::MAX,
        ensures
            final(self).wf(),
            final(self).same_table(old(self)),
            final(self)@ == old(self)@.put(old(self).table(), c),
    {
        self.engine.put(c);
    }

    /// Tells the lexer that the input has ended: the recorded match is
    /// committed, and it is an error if code points are left. Nothing
    /// happens after an error.
    pub fn finish(&mut self)
        requires
            old(self).wf(),
        ensures
            final(self).wf(),
            final(self).same_table(old(self)),
            final(self)@ == old(self)@.finish(old(self).table()),
    {
        self.engine.finish();
    }

    /// The error that stopped the lexer, in words.
    pub fn error(&self) -> (e: Option<&'static str>)
        ensures
            match self@.error {
                None => e is None,
                Some(ScanError::UnexpectedInput(_)) => e matches Some(s) && s@
                    == "unexpected character"@,
                Some(ScanError::UnexpectedEndOfInput(_)) => e matches Some(s) && s@
                    == "unexpected end of input"@,
            },
    {
        match self.engine.failure() {
            None => None,
            Some(Failure::UnexpectedInput(_)) => Some("unexpected character"),
            Some(Failure::UnexpectedEndOfInput(_)) => Some("unexpected end of input"),
        }
    }

    /// The number of code points that were committed when the lexer
    /// stopped on an error.
    pub fn error_position(&self) -> (p: Option<usize>)
        ensures
            match self@.error {
                None => p is None,
                Some(ScanError::UnexpectedInput(n)) => p == Some(n as usize) && n <= usize::MAX,
                Some(ScanError::UnexpectedEndOfInput(n)) => p == Some(n as usize) && n
                    <= usize::MAX,
            },
    {
        match self.engine.failure() {
            None => None,
            Some(Failure::UnexpectedInput(n)) => Some(n),
            Some(Failure::UnexpectedEndOfInput(n)) => Some(n),
        }
    }
}

impl<T: Clone, M> Lexer<T, M> {
    /// Takes the next lexeme out of the output queue, oldest first.
    pub fn get(&mut self) -> (r: Option<Lexeme<T>>)
        requires
            old(self).wf(),
        ensures
            final(self).wf(),
            final(self).same_table(old(self)),
            match r {
                Some(lexeme) => {
                    let first = old(self)@.output[0];
                    &&& old(self)@.output.len() > 0
                    &&& final(self)@ == old(self)@.take()
                    &&& lexeme.agrees(first)
                    &&& first.mode < old(self).table().len()
                    &&& first.rule < old(self).table()[first.mode as int].len()
                    &&& cloned(old(self).token_of(first.mode, first.rule), lexeme.token)
                },
                None => old(self)@.output.len() == 0 && final(self)@ == old(self)@,
            },
    {
        self.engine.get()
    }
}

impl<T, M: PartialEq> Lexer<T, M> {
    /// The index of the mode named `mode`; a mode that has no index yet
    /// gets the next one, and no rules.
    fn get_mode_index(&mut self, mode: M) -> (idx: usize)
        requires
            old(self).wf(),
        ensures
            final(self).wf(),
            final(self)@ == old(self)@,
            final(self).start() == old(self).start(),
            final(self).table() == grow(old(self).table(), final(self).names().len()),
            final(self).table().len() == final(self).names().len(),
            forall|m: nat, i: nat|
                m < old(self).table().len() && i < old(self).table()[m as int].len()
                    ==> #[trigger] final(self).token_of(m, i) == old(self).token_of(m, i),
            idx < final(self).names().len(),
            final(self).names() == old(self).names() || final(self).names() == old(self).names().push(mode),
            M::obeys_eq_spec() ==> idx == slot(old(self).names(), mode) && final(self).names()
                == intern(old(self).names(), mode),
    {
        match find_name(&self.names, &mode) {
            Some(i) => {
                proof {
                    assert(self.table() =~= grow(self.table(), self.names().len()));
                }
                return i;
            },
            None => {},
        }
        let ghost before = *self;
        self.names.push(mode);
        let idx = self.engine.add_mode();
        proof {
            assert(self.table() =~= grow(before.table(), self.names().len()));
        }
        idx
    }

    /// Records the mode that is current at the beginning and after a reset.
    /// At the beginning of a scan, it becomes the current mode at once.
    pub fn set_start_mode(&mut self, mode: M)
        requires
            old(self).wf(),
        ensures
            final(self).wf(),
            final(self).table() == grow(old(self).table(), final(self).names().len()),
            final(self).start() < final(self).names().len(),
            final(self).names().len() == final(self).table().len(),
            final(self)@ == (if old(self)@.position == 0 && old(self)@.pending.len() == 0 && old(self)@.error is None {
                ScanState { mode: final(self).start(), ..old(self)@ }
            } else {
                old(self)@
            }),
            M::obeys_eq_spec() ==> final(self).start() == slot(old(self).names(), mode)
                && final(self).names() == intern(old(self).names(), mode),
            forall|m: nat, i: nat|
                m < old(self).table().len() && i < old(self).table()[m as int].len()
                    ==> #[trigger] final(self).token_of(m, i) == old(self).token_of(m, i),
    {
        let idx = self.get_mode_index(mode);
        let ghost mid = *self;
        self.engine.set_start_mode(idx);
        proof {
            assert forall|m: nat, i: nat|
                m < old(self).table().len() && i < old(self).table()[m as int].len() implies #[trigger] self.token_of(
                m,
                i,
            ) == old(self).token_of(m, i) by {
                assert(mid.table()[m as int] == old(self).table()[m as int]);
                assert(mid.token_of(m, i) == old(self).token_of(m, i));
            }
        }
    }

    /// Adds a rule at the end of the rules of `from_mode`: `regex` produces
    /// `token`, and `to_mode` becomes current after it. The table is fixed
    /// while code points are pending.
    pub fn add_rule(&mut self, regex: &Regex, token: T, keep_span: bool, from_mode: M, to_mode: M)
        requires
            old(self).wf(),
            regex.wf(),
            old(self)@.pending.len() == 0,
        ensures
            final(self).wf(),
            final(self)@ == old(self)@,
            final(self).start() == old(self).start(),
            final(self).names().len() == final(self).table().len(),
            forall|m: nat, i: nat|
                m < old(self).table().len() && i < old(self).table()[m as int].len()
                    ==> #[trigger] final(self).token_of(m, i) == old(self).token_of(m, i),
            M::obeys_eq_spec() ==> ({
                let from = slot(old(self).names(), from_mode);
                let names = intern(old(self).names(), from_mode);
                let to = slot(names, to_mode);
                let rule = RuleSpec { pattern: regex@, to_mode: to, keep_span };
                &&& final(self).names() == intern(names, to_mode)
                &&& final(self).table() == with_rule(
                    grow(old(self).table(), final(self).names().len()),
                    from,
                    rule,
                )
                &&& final(self).token_of(
                    from,
                    (final(self).table()[from as int].len() - 1) as nat,
                ) == token
            }),
    {
        let ghost before = *self;
        let from = self.get_mode_index(from_mode);
        let ghost mid1 = *self;
        let to = self.get_mode_index(to_mode);
        let ghost mid = *self;
        let matcher = Matcher::new(regex);
        self.engine.add_rule(from, matcher, token, keep_span, to);
        proof {
            assert(mid.table() =~= grow(before.table(), mid.names().len())) by {
                assert(mid1.table().len() <= mid.table().len());
            }
            assert forall|m: nat, i: nat|
                m < before.table().len() && i < before.table()[m as int].len() implies #[trigger] self.token_of(
                m,
                i,
            ) == before.token_of(m, i) by {
                assert(mid1.token_of(m, i) == before.token_of(m, i));
                assert(mid1.table()[m as int] == before.table()[m as int]);
                assert(mid.token_of(m, i) == mid1.token_of(m, i));
                assert(mid.table()[m as int] == mid1.table()[m as int]);
            }
        }
    }
}

/// A name found at `i`, with no equal name before it, is what `lookup`
/// returns.
proof fn lemma_lookup_found<M: PartialEq>(names: Seq<M>, m: M, i: nat, n: nat)
    requires
        i < n <= names.len(),
        lookup(names, m, i) is None,
        names[i as int].eq_spec(&m),
    ensures
        lookup(names, m, n) == Some(i),
    decreases n,
{
    if n > i + 1 {
        lemma_lookup_found(names, m, i, (n - 1) as nat);
    }
}

} // verus!
