use crate::lexer::scan::all_dead;
use crate::lexer::scan::best;
use crate::lexer::scan::first_accepting;
use crate::lexer::scan::lemma_best_bounds;
use crate::lexer::scan::lemma_best_prefix;
use crate::lexer::scan::lemma_dead_point_found;
use crate::lexer::scan::lemma_dead_point_none;
use crate::lexer::scan::lemma_first_accepting;
use crate::lexer::scan::rules_of;
use crate::lexer::scan::winner;
use crate::lexer::scan::Automaton;
use crate::lexer::scan::Machine;
use crate::lexer::scan::LexemeSpec;
use crate::lexer::scan::RuleSpec;
use crate::lexer::scan::ScanError;
use crate::lexer::scan::ScanState;
use std::collections::VecDeque;
use vstd::prelude::*;

verus! {

/// A rule of the lexer: the token it produces, the machine that matches
/// it, whether its lexemes keep their text, and the mode that follows it.
pub struct Rule<T, A> {
    token: T,
    matcher: A,
    keep_span: bool,
    to_mode: usize,
}

impl<T, A: Machine> View for Rule<T, A> {
    type V = RuleSpec<A::Pattern>;

    closed spec fn view(&self) -> RuleSpec<A::Pattern> {
        RuleSpec {
            pattern: self.matcher.pattern(),
            to_mode: self.to_mode as nat,
            keep_span: self.keep_span,
        }
    }
}

/// A lexeme: the token of the rule that won, where the lexeme starts, how
/// many code points it has, and its text where the rule keeps it.
#[derive(Debug, Clone, PartialEq, Eq, Hash)]
pub struct Lexeme<T> {
    pub token: T,
    pub position: usize,
    pub length: usize,
    pub span: Option<String>,
}

impl<T> Lexeme<T> {
    /// Whether the lexeme has the position, the length and the text of `l`.
    pub open spec fn agrees(&self, l: LexemeSpec) -> bool {
        &&& self.position == l.position
        &&& self.length == l.length
        &&& match self.span {
            Some(s) => l.span == Some(s@),
            None => l.span is None,
        }
    }
}

/// A lexeme in the output queue, with the rule in place of its token.
struct Emitted {
    mode: usize,
    rule: usize,
    position: usize,
    length: usize,
    span: Option<String>,
}

impl View for Emitted {
    type V = LexemeSpec;

    closed spec fn view(&self) -> LexemeSpec {
        LexemeSpec {
            mode: self.mode as nat,
            rule: self.rule as nat,
            position: self.position as nat,
            length: self.length as nat,
            span: match self.span {
                Some(s) => Some(s@),
                None => None,
            },
        }
    }
}

/// Why a scan stopped, with the number of code points committed.
#[derive(Clone, Copy, Debug)]
pub enum Failure {
    UnexpectedInput(usize),
    UnexpectedEndOfInput(usize),
}

impl View for Failure {
    type V = ScanError;

    open spec fn view(&self) -> ScanError {
        match *self {
            Failure::UnexpectedInput(p) => ScanError::UnexpectedInput(p as nat),
            Failure::UnexpectedEndOfInput(p) => ScanError::UnexpectedEndOfInput(p as nat),
        }
    }
}

/// The rules of a mode as the scan sees them.
spec fn specs_of<T, A: Machine>(rules: Seq<Rule<T, A>>) -> Seq<RuleSpec<A::Pattern>> {
    Seq::new(rules.len(), |i: int| rules[i]@)
}

/// Whether every matcher of `rules` is well-formed and was fed `fed`.
spec fn fed_with<T, A: Machine>(rules: Seq<Rule<T, A>>, fed: Seq<char>) -> bool {
    forall|i: int|
        0 <= i < rules.len() ==> (#[trigger] rules[i]).matcher.wf() && rules[i].matcher.fed() == fed
}

/// Whether the rules of `after` are those of `before`, whatever their
/// matchers were fed.
spec fn same_rules<T, A: Machine>(before: Seq<Rule<T, A>>, after: Seq<Rule<T, A>>) -> bool {
    &&& after.len() == before.len()
    &&& forall|i: int|
        0 <= i < before.len() ==> (#[trigger] after[i])@ == before[i]@ && after[i].token
            == before[i].token
}

/// The text of a queue of code points.
///
/// Trusted: `Iterator::collect` of the standard library into a `String`,
/// which holds the code points of the iterator in their order.
#[verifier::external_body]
fn string_of(v: &VecDeque<char>) -> (s: String)
    ensures
        s@ == v@,
{
    v.iter().collect()
}

/// Feeds `c` to the matcher of every rule, and says whether all of them
/// are dead after it and which rule is the first to accept.
fn step_rules<T, A: Machine>(rules: &mut Vec<Rule<T, A>>, c: char, Ghost(fed): Ghost<Seq<char>>) -> (res: (
    bool,
    Option<usize>,
))
    requires
        fed_with(old(rules)@, fed),
    ensures
        same_rules(old(rules)@, final(rules)@),
        fed_with(final(rules)@, fed.push(c)),
        res.0 == all_dead(specs_of(old(rules)@), fed.push(c)),
        match res.1 {
            Some(r) => winner(specs_of(old(rules)@), fed.push(c)) == Some(r as nat),
            None => winner(specs_of(old(rules)@), fed.push(c)) is None,
        },
{
    let ghost specs = specs_of(rules@);
    let ghost w = fed.push(c);
    let n = rules.len();
    let mut dead = true;
    let mut first: Option<usize> = None;
    let mut i: usize = 0;
    while i < n
        invariant
            i <= n,
            n == rules.len(),
            same_rules(old(rules)@, rules@),
            specs == specs_of(old(rules)@),
            w == fed.push(c),
            forall|j: int|
                0 <= j < i ==> (#[trigger] rules@[j]).matcher.wf() && rules@[j].matcher.fed() == w,
            forall|j: int|
                i <= j < n ==> (#[trigger] rules@[j]).matcher.wf() && rules@[j].matcher.fed()
                    == fed,
            dead == (forall|j: int| 0 <= j < i ==> (#[trigger] specs[j]).pattern.dead(w)),
            match first {
                Some(r) => first_accepting(specs, w, i as nat) == Some(r as nat),
                None => first_accepting(specs, w, i as nat) is None,
            },
        decreases n - i,
    {
        let ghost before = rules@;
        rules[i].matcher.put(c);
        let d = rules[i].matcher.is_dead();
        let a = rules[i].matcher.is_accepted();
        proof {
            assert(rules@[i as int]@ == before[i as int]@);
            assert(specs[i as int] == rules@[i as int]@);
            assert forall|j: int| 0 <= j < before.len() implies (#[trigger] rules@[j])@
                == before[j]@ && rules@[j].token == before[j].token by {
                if j != i {
                    assert(rules@[j] == before[j]);
                }
            }
            assert forall|j: int| 0 <= j < i implies (#[trigger] rules@[j]).matcher.wf()
                && rules@[j].matcher.fed() == w by {
                assert(rules@[j] == before[j]);
            }
            assert forall|j: int| i + 1 <= j < n implies (#[trigger] rules@[j]).matcher.wf()
                && rules@[j].matcher.fed() == fed by {
                assert(rules@[j] == before[j]);
            }
        }
        if !d {
            dead = false;
        }
        if a && first.is_none() {
            first = Some(i);
        }
        i += 1;
    }
    (dead, first)
}

/// Resets the matcher of every rule.
fn reset_rules<T, A: Machine>(rules: &mut Vec<Rule<T, A>>)
    requires
        forall|i: int| 0 <= i < old(rules).len() ==> (#[trigger] old(rules)@[i]).matcher.wf(),
    ensures
        same_rules(old(rules)@, final(rules)@),
        fed_with(final(rules)@, Seq::empty()),
{
    let n = rules.len();
    let mut i: usize = 0;
    while i < n
        invariant
            i <= n,
            n == rules.len(),
            same_rules(old(rules)@, rules@),
            forall|j: int|
                0 <= j < i ==> (#[trigger] rules@[j]).matcher.wf() && rules@[j].matcher.fed()
                    == Seq::<char>::empty(),
            forall|j: int| i <= j < n ==> (#[trigger] rules@[j]).matcher.wf(),
        decreases n - i,
    {
        let ghost before = rules@;
        rules[i].matcher.reset();
        proof {
            assert forall|j: int| 0 <= j < before.len() implies (#[trigger] rules@[j])@
                == before[j]@ && rules@[j].token == before[j].token by {
                if j != i {
                    assert(rules@[j] == before[j]);
                }
            }
            assert forall|j: int| 0 <= j < i implies (#[trigger] rules@[j]).matcher.wf()
                && rules@[j].matcher.fed() == Seq::<char>::empty() by {
                assert(rules@[j] == before[j]);
            }
            assert forall|j: int| i + 1 <= j < n implies (#[trigger] rules@[j]).matcher.wf() by {
                assert(rules@[j] == before[j]);
            }
        }
        i += 1;
    }
}


/// The table with empty modes added up to `n` modes.
pub open spec fn grow<P>(table: Seq<Seq<RuleSpec<P>>>, n: nat) -> Seq<Seq<RuleSpec<P>>> {
    Seq::new(
        if n > table.len() {
            n
        } else {
            table.len()
        },
        |m: int|
            if m < table.len() {
                table[m]
            } else {
                Seq::empty()
            },
    )
}

/// The table with `rule` added at the end of the mode `from`.
pub open spec fn with_rule<P>(table: Seq<Seq<RuleSpec<P>>>, from: nat, rule: RuleSpec<P>) -> Seq<
    Seq<RuleSpec<P>>,
> {
    table.update(from as int, table[from as int].push(rule))
}

/// The engine of a multi-mode, longest-match, streaming lexer: rules of
/// tokens `T` matched by machines `A`, in modes that go by their index.
pub struct Engine<T, A> {
    modes: Vec<Vec<Rule<T, A>>>,
    current_mode: usize,
    start_mode: usize,
    input: VecDeque<char>,
    position: usize,
    output: VecDeque<Emitted>,
    last_accepted: Option<(usize, usize)>,
    error: Option<Failure>,
}

/// The recorded match as the scan sees it.
spec fn last_of(last: Option<(usize, usize)>) -> Option<(nat, nat)> {
    match last {
        Some((r, l)) => Some((r as nat, l as nat)),
        None => None,
    }
}

impl<T, A: Machine> View for Engine<T, A> {
    type V = ScanState;

    /// The state of the scan.
    closed spec fn view(&self) -> ScanState {
        ScanState {
            mode: self.current_mode as nat,
            position: self.position as nat,
            pending: self.input@,
            output: Seq::new(self.output@.len(), |i: int| self.output@[i]@),
            error: match self.error {
                Some(e) => Some(e@),
                None => None,
            },
        }
    }
}

impl<T, A: Machine> Engine<T, A> {
    /// The rule table: for each mode, its rules in declaration order.
    pub closed spec fn table(&self) -> Seq<Seq<RuleSpec<A::Pattern>>> {
        Seq::new(self.modes@.len(), |m: int| specs_of(self.modes@[m]@))
    }

    /// The token of a rule.
    pub closed spec fn token_of(&self, mode: nat, rule: nat) -> T {
        self.modes@[mode as int]@[rule as int].token
    }

    /// The index of the mode that is current at the beginning and after a
    /// reset.
    pub closed spec fn start(&self) -> nat {
        self.start_mode as nat
    }

    /// The rules of the current mode.
    spec fn rules(&self) -> Seq<Rule<T, A>> {
        if self.current_mode < self.modes@.len() {
            self.modes@[self.current_mode as int]@
        } else {
            Seq::empty()
        }
    }

    /// What holds of the table, the queues and the counters at all times.
    spec fn structure(&self) -> bool {
        &&& self.current_mode == 0 || self.current_mode < self.modes@.len()
        &&& self.start_mode == 0 || self.start_mode < self.modes@.len()
        &&& self.position + self.input@.len() <= usize::MAX
        &&& forall|m: int, i: int|
            0 <= m < self.modes@.len() && 0 <= i < self.modes@[m]@.len() ==> (
            #[trigger] self.modes@[m]@[i]).matcher.wf() && self.modes@[m]@[i].to_mode
                < self.modes@.len()
        &&& forall|i: int|
            0 <= i < self.output@.len() ==> (#[trigger] self.output@[i]).mode < self.modes@.len()
                && self.output@[i].rule < self.modes@[self.output@[i].mode as int]@.len()
    }

    /// What holds while the first `cursor` pending code points have been
    /// scanned: the matchers of the current mode were fed them, the
    /// recorded match is the best among them, and no prefix of them kills
    /// every rule.
    spec fn scanned(&self, cursor: nat) -> bool {
        &&& self.structure()
        &&& self.error is None ==> {
            &&& cursor <= self.input@.len()
            &&& fed_with(self.rules(), self.input@.take(cursor as int))
            &&& last_of(self.last_accepted) == best(specs_of(self.rules()), self.input@, cursor)
            &&& forall|k: nat|
                1 <= k <= cursor ==> !all_dead(
                    specs_of(self.rules()),
                    #[trigger] self.input@.take(k as int),
                )
        }
    }

    /// Well-formedness: unless the scan has failed, everything pending has
    /// been scanned.
    pub closed spec fn wf(&self) -> bool {
        self.scanned(self.input@.len())
    }

    /// The rules of the current mode are those of the table.
    proof fn lemma_rules(&self)
        ensures
            specs_of(self.rules()) == rules_of(self.table(), self@.mode),
    {
        if self.current_mode < self.modes@.len() {
            assert(self.table()[self.current_mode as int] == specs_of(self.rules()));
        } else {
            assert(specs_of(self.rules()) =~= Seq::<RuleSpec<A::Pattern>>::empty());
        }
    }

    /// A well-formed lexer is settled.
    proof fn lemma_settled(&self)
        requires
            self.wf(),
        ensures
            self@.settle(self.table()) == self@,
    {
        self.lemma_rules();
        if self.error is None {
            assert(self.input@.take(self.input@.len() as int) =~= self.input@);
            lemma_dead_point_none(specs_of(self.rules()), self.input@, 1);
        }
    }

    /// Every lexeme that is out names a rule of the table.
    pub proof fn lemma_output(&self, i: int)
        requires
            self.wf(),
            0 <= i < self@.output.len(),
        ensures
            self@.output[i].mode < self.table().len(),
            self@.output[i].rule < self.table()[self@.output[i].mode as int].len(),
    {
        let e = self.output@[i];
        assert(self.table()[e.mode as int] == specs_of(self.modes@[e.mode as int]@));
    }

    /// An engine without rules or modes, at the beginning of a scan.
    pub fn new() -> (l: Self)
        ensures
            l.wf(),
            l@ == ScanState::initial(0),
            l.table() == Seq::<Seq<RuleSpec<A::Pattern>>>::empty(),
            l.start() == 0,
    {
        let l = Self {
            modes: Vec::new(),
            current_mode: 0,
            start_mode: 0,
            input: VecDeque::new(),
            position: 0,
            output: VecDeque::new(),
            last_accepted: None,
            error: None,
        };
        proof {
            assert(l@.output =~= Seq::<LexemeSpec>::empty());
            assert(l.table() =~= Seq::<Seq<RuleSpec<A::Pattern>>>::empty());
        }
        l
    }
}


impl<T, A: Machine> Engine<T, A> {
    /// Whether the engine has the table, the tokens and the start mode of
    /// `other`.
    pub open spec fn same_table(&self, other: &Self) -> bool {
        &&& self.table() == other.table()
        &&& self.start() == other.start()
        &&& forall|m: nat, i: nat|
            m < other.table().len() && i < other.table()[m as int].len() ==> #[trigger] self.token_of(
                m,
                i,
            ) == other.token_of(m, i)
    }

    /// Whether the modes of `self` are those of `before` but for the
    /// matchers of the mode `m`, whose rules are otherwise the same.
    spec fn modes_kept(&self, before: &Self, m: int) -> bool {
        &&& self.modes@.len() == before.modes@.len()
        &&& forall|j: int|
            0 <= j < before.modes@.len() && j != m ==> #[trigger] self.modes@[j] == before.modes@[j]
        &&& 0 <= m < before.modes@.len() ==> same_rules(before.modes@[m]@, self.modes@[m]@)
        &&& self.start_mode == before.start_mode
    }

    /// Changing the matchers of one mode keeps the table and the tokens.
    proof fn lemma_modes_kept(&self, before: &Self, m: int)
        requires
            self.modes_kept(before, m),
        ensures
            self.same_table(before),
    {
        assert forall|j: int| 0 <= j < before.modes@.len() implies specs_of(self.modes@[j]@)
            == specs_of(before.modes@[j]@) by {
            if j == m {
                assert(specs_of(self.modes@[j]@) =~= specs_of(before.modes@[j]@));
            }
        }
        assert(self.table() =~= before.table());
        assert forall|mm: nat, i: nat|
            mm < before.table().len() && i < before.table()[mm as int].len() implies #[trigger] self.token_of(
            mm,
            i,
        ) == before.token_of(mm, i) by {
            assert(before.table()[mm as int] == specs_of(before.modes@[mm as int]@));
        }
    }

    /// Commits the recorded match: its code points leave the queue for a
    /// lexeme, its mode becomes current, and the matchers of that mode are
    /// reset. Without a recorded match, fails with `UnexpectedInput`.
    fn emit(&mut self)
        requires
            old(self).structure(),
            old(self).error is None,
            match old(self).last_accepted {
                Some((r, l)) => 1 <= l <= old(self).input@.len() && r < old(self).rules().len(),
                None => true,
            },
        ensures
            final(self).structure(),
            final(self).same_table(old(self)),
            match old(self).last_accepted {
                Some((r, l)) => {
                    &&& final(self)@ == old(self)@.emit(old(self).table(), r as nat, l as nat)
                    &&& final(self).error is None
                    &&& final(self).last_accepted is None
                    &&& fed_with(final(self).rules(), Seq::empty())
                },
                None => {
                    &&& final(self)@ == old(self)@.fail(
                        ScanError::UnexpectedInput(old(self)@.position),
                        old(self)@.pending.len(),
                    )
                    &&& final(self).error is Some
                },
            },
    {
        let ghost before = *self;
        proof {
            self.lemma_rules();
        }
        match self.last_accepted {
            None => {
                self.error = Some(Failure::UnexpectedInput(self.position));
                proof {
                    assert(self.input@.take(self.input@.len() as int) =~= self.input@);
                    assert(self@.output =~= before@.output);
                    self.lemma_modes_kept(&before, -1);
                }
            },
            Some((r, l)) => {
                let rest = self.input.split_off(l);
                let keep = self.modes[self.current_mode][r].keep_span;
                let to_mode = self.modes[self.current_mode][r].to_mode;
                let span = if keep {
                    Some(string_of(&self.input))
                } else {
                    None
                };
                let lexeme = Emitted {
                    mode: self.current_mode,
                    rule: r,
                    position: self.position,
                    length: l,
                    span,
                };
                self.output.push_back(lexeme);
                self.position = self.position + l;
                self.current_mode = to_mode;
                self.input = rest;
                self.last_accepted = None;
                let ghost mid = *self;
                reset_rules(&mut self.modes[to_mode]);
                proof {
                    assert(self.modes_kept(&mid, to_mode as int));
                    self.lemma_modes_kept(&mid, to_mode as int);
                    mid.lemma_modes_kept(&before, -1);
                    let rule = rules_of(before.table(), before@.mode)[r as int];
                    assert(rule == before.modes@[before.current_mode as int]@[r as int]@);
                    assert(before.input@.skip(l as int) =~= rest@);
                    let expected = before@.emit(before.table(), r as nat, l as nat);
                    assert(self@.output =~= expected.output);
                    assert(self@ == expected);
                    assert forall|m: int, i: int|
                        0 <= m < self.modes@.len() && 0 <= i < self.modes@[m]@.len() implies (
                    #[trigger] self.modes@[m]@[i]).matcher.wf() && self.modes@[m]@[i].to_mode
                        < self.modes@.len() by {
                        if m == to_mode {
                            assert(self.modes@[m]@[i]@ == mid.modes@[m]@[i]@);
                        }
                    }
                    assert forall|i: int| 0 <= i < self.output@.len() implies (
                    #[trigger] self.output@[i]).mode < self.modes@.len() && self.output@[i].rule
                        < self.modes@[self.output@[i].mode as int]@.len() by {
                        if i < before.output@.len() {
                            assert(self.output@[i] == before.output@[i]);
                        }
                    }
                }
            },
        }
    }
}


impl<T, A: Machine> Engine<T, A> {
    /// Scans what is pending from the cursor on: every rule of the current
    /// mode is fed, the longest match is recorded, and where every rule has
    /// died the match is committed and the rest is scanned again.
    fn lex(&mut self, Ghost(target): Ghost<ScanState>)
        requires
            old(self).input@.len() > 0,
            old(self).error is None,
            old(self).scanned((old(self).input@.len() - 1) as nat),
            old(self)@.settle(old(self).table()) == target,
        ensures
            final(self).wf(),
            final(self)@ == target,
            final(self).same_table(old(self)),
    {
        let mut cursor: usize = self.input.len() - 1;
        while self.error.is_none() && cursor < self.input.len()
            invariant
                self.same_table(old(self)),
                self.scanned(cursor as nat),
                self.error is Some ==> self@ == target,
                self.error is None ==> self@.settle(self.table()) == target,
            decreases self.input@.len(), self.input@.len() - cursor,
        {
            let ghost before = *self;
            let ghost fed = self.input@.take(cursor as int);
            let ghost specs = specs_of(self.rules());
            let c = self.input[cursor];
            proof {
                self.lemma_rules();
                assert(self.input@.take(cursor + 1) =~= fed.push(c));
            }
            let (dead, first) = if self.current_mode < self.modes.len() {
                step_rules(&mut self.modes[self.current_mode], c, Ghost(fed))
            } else {
                proof {
                    lemma_first_accepting(specs, fed.push(c), 0);
                }
                (true, None)
            };
            match first {
                Some(r) => {
                    self.last_accepted = Some((r, cursor + 1));
                },
                None => {},
            }
            proof {
                assert(self.modes_kept(&before, before.current_mode as int));
                self.lemma_modes_kept(&before, before.current_mode as int);
                self.lemma_rules();
                assert(specs_of(self.rules()) == specs);
                lemma_first_accepting(specs, fed.push(c), specs.len());
                assert(last_of(self.last_accepted) == best(specs, self.input@, (cursor + 1) as nat));
                lemma_best_bounds(specs, self.input@, (cursor + 1) as nat);
                assert(self.structure()) by {
                    assert forall|m: int, i: int|
                        0 <= m < self.modes@.len() && 0 <= i < self.modes@[m]@.len() implies (
                    #[trigger] self.modes@[m]@[i]).matcher.wf() && self.modes@[m]@[i].to_mode
                        < self.modes@.len() by {
                        if m == before.current_mode {
                            assert(self.modes@[m]@[i]@ == before.modes@[m]@[i]@);
                        }
                    }
                    assert forall|i: int| 0 <= i < self.output@.len() implies (
                    #[trigger] self.output@[i]).mode < self.modes@.len() && self.output@[i].rule
                        < self.modes@[self.output@[i].mode as int]@.len() by {
                        assert(self.output@[i] == before.output@[i]);
                    }
                }
            }
            if dead {
                proof {
                    lemma_dead_point_found(specs, self.input@, 1, (cursor + 1) as nat);
                }
                if self.last_accepted.is_none() {
                    self.input.truncate(cursor + 1);
                }
                let ghost mid = *self;
                proof {
                    assert(mid.modes_kept(&before, before.current_mode as int));
                    mid.lemma_modes_kept(&before, before.current_mode as int);
                }
                self.emit();
                if self.error.is_some() {
                    cursor = self.input.len();
                    proof {
                        let k = mid.input@.len();
                        assert(mid.input@ =~= before.input@.take(k as int));
                        assert(mid.input@.take(k as int) =~= mid.input@);
                        assert(mid@.output =~= before@.output);
                        assert(specs == rules_of(before.table(), before@.mode));
                        assert(before@.settle(before.table()) == before@.fail(
                            ScanError::UnexpectedInput(before@.position),
                            k,
                        ));
                        assert(self@ == target);
                    }
                } else {
                    cursor = 0;
                    proof {
                        assert(self.input@.take(0) =~= Seq::<char>::empty());
                    }
                }
            } else {
                proof {
                    assert forall|k: nat| 1 <= k <= cursor + 1 implies !all_dead(
                        specs_of(self.rules()),
                        #[trigger] self.input@.take(k as int),
                    ) by {
                        if k == cursor + 1 {
                        }
                    }
                    assert(self@ == before@);
                }
                cursor += 1;
            }
        }
        proof {
            if self.error is None {
                self.lemma_settled();
            }
        }
    }

    /// Feeds one code point. Nothing happens after an error.
    pub fn put(&mut self, c: char)
        requires
            old(self).wf(),
            old(self)@.position + old(self)@.pending.len() < usize::MAX,
        ensures
            final(self).wf(),
            final(self).same_table(old(self)),
            final(self)@ == old(self)@.put(old(self).table(), c),
    {
        if self.error.is_some() {
            return ;
        }
        let ghost before = *self;
        self.input.push_back(c);
        proof {
            assert(self.input@ =~= before.input@ + seq![c]);
            assert(self@.output =~= before@.output);
            assert(self@ == before@.append(seq![c]));
            assert(self.modes_kept(&before, -1));
            self.lemma_modes_kept(&before, -1);
            let n = before.input@.len();
            assert(self.input@.take(n as int) =~= before.input@);
            assert(before.input@.take(n as int) =~= before.input@);
            lemma_best_prefix(specs_of(self.rules()), self.input@, n, n);
            assert forall|k: nat| 1 <= k <= n implies !all_dead(
                specs_of(self.rules()),
                #[trigger] self.input@.take(k as int),
            ) by {
                assert(self.input@.take(k as int) =~= before.input@.take(k as int));
            }
        }
        self.lex(Ghost(before@.append(seq![c]).settle(before.table())));
    }

    /// Tells the lexer that the input has ended: the recorded match is
    /// committed, and it is an error if code points are left. Nothing
    /// happens after an error.
    pub fn finish(&mut self)
        requires
            old(self).wf(),
        ensures
            final(self).wf(),
            final(self).same_table(old(self)),
            final(self)@ == old(self)@.finish(old(self).table()),
    {
        if self.error.is_some() {
            return ;
        }
        let ghost before = *self;
        proof {
            self.lemma_rules();
            lemma_best_bounds(specs_of(self.rules()), self.input@, self.input@.len());
        }
        if self.last_accepted.is_some() {
            self.emit();
        }
        if self.input.len() > 0 {
            let ghost mid = *self;
            self.error = Some(Failure::UnexpectedEndOfInput(self.position));
            proof {
                assert(self@.output =~= mid@.output);
                assert(self.modes_kept(&mid, -1));
                self.lemma_modes_kept(&mid, -1);
            }
        } else {
            proof {
                assert(self.input@.take(0) =~= Seq::<char>::empty());
                assert(self.input@ =~= Seq::<char>::empty());
            }
        }
    }

    /// The number of code points that are committed or pending.
    pub fn consumed(&self) -> (n: usize)
        requires
            self.wf(),
        ensures
            n == self@.position + self@.pending.len(),
    {
        self.position + self.input.len()
    }

    /// The error that stopped the scan, if one did.
    pub fn failure(&self) -> (e: Option<Failure>)
        ensures
            match e {
                Some(f) => self@.error == Some(f@),
                None => self@.error is None,
            },
    {
        self.error
    }
}

impl<T: Clone, A: Machine> Engine<T, A> {
    /// Takes the next lexeme out of the output queue, oldest first.
    pub fn get(&mut self) -> (r: Option<Lexeme<T>>)
        requires
            old(self).wf(),
        ensures
            final(self).wf(),
            final(self).same_table(old(self)),
            match r {
                Some(lexeme) => {
                    let first = old(self)@.output[0];
                    &&& old(self)@.output.len() > 0
                    &&& final(self)@ == old(self)@.take()
                    &&& lexeme.agrees(first)
                    &&& first.mode < old(self).table().len()
                    &&& first.rule < old(self).table()[first.mode as int].len()
                    &&& cloned(old(self).token_of(first.mode, first.rule), lexeme.token)
                },
                None => old(self)@.output.len() == 0 && final(self)@ == old(self)@,
            },
    {
        let ghost before = *self;
        match self.output.pop_front() {
            None => {
                proof {
                    assert(self@.output =~= before@.output);
                }
                None
            },
            Some(e) => {
                let token = self.modes[e.mode][e.rule].token.clone();
                proof {
                    assert(e == before.output@[0]);
                    assert(self@.output =~= before@.output.skip(1));
                    assert(self.modes_kept(&before, -1));
                    self.lemma_modes_kept(&before, -1);
                    assert(before.table()[e.mode as int] == specs_of(before.modes@[e.mode as int]@));
                    assert forall|i: int| 0 <= i < self.output@.len() implies (
                    #[trigger] self.output@[i]).mode < self.modes@.len() && self.output@[i].rule
                        < self.modes@[self.output@[i].mode as int]@.len() by {
                        assert(self.output@[i] == before.output@[i + 1]);
                    }
                }
                Some(Lexeme { token, position: e.position, length: e.length, span: e.span })
            },
        }
    }
}


impl<T, A: Machine> Engine<T, A> {
    /// Whether the lexer is `before` but for the matchers of the mode `m`,
    /// the start mode and the current mode.
    spec fn modes_kept_but_start(&self, before: &Self, m: int) -> bool {
        &&& self.modes@.len() == before.modes@.len()
        &&& forall|j: int|
            0 <= j < before.modes@.len() && j != m ==> #[trigger] self.modes@[j] == before.modes@[j]
        &&& 0 <= m < before.modes@.len() ==> same_rules(before.modes@[m]@, self.modes@[m]@)
    }

    /// Changing the matchers of one mode and the start mode keeps the
    /// table and the tokens.
    proof fn lemma_modes_kept_but_start(&self, before: &Self, m: int)
        requires
            self.modes_kept_but_start(before, m),
        ensures
            self.table() == before.table(),
            forall|mm: nat, i: nat|
                mm < before.table().len() && i < before.table()[mm as int].len()
                    ==> #[trigger] self.token_of(mm, i) == before.token_of(mm, i),
            before.structure() && (self.start_mode == 0 || self.start_mode < self.modes@.len())
                && (self.current_mode == 0 || self.current_mode < self.modes@.len())
                && self.position == before.position && self.input == before.input && self.output
                == before.output && (0 <= m < self.modes@.len() ==> fed_with(
                self.modes@[m]@,
                Seq::empty(),
            )) ==> self.structure(),
    {
        assert forall|j: int| 0 <= j < before.modes@.len() implies specs_of(self.modes@[j]@)
            == specs_of(before.modes@[j]@) by {
            if j == m {
                assert(specs_of(self.modes@[j]@) =~= specs_of(before.modes@[j]@));
            }
        }
        assert(self.table() =~= before.table());
        assert forall|mm: nat, i: nat|
            mm < before.table().len() && i < before.table()[mm as int].len() implies #[trigger] self.token_of(
            mm,
            i,
        ) == before.token_of(mm, i) by {
            assert(before.table()[mm as int] == specs_of(before.modes@[mm as int]@));
        }
        if before.structure() && self.output == before.output && (0 <= m < self.modes@.len()
            ==> fed_with(self.modes@[m]@, Seq::empty())) {
            assert forall|mm: int, i: int|
                0 <= mm < self.modes@.len() && 0 <= i < self.modes@[mm]@.len() implies (
            #[trigger] self.modes@[mm]@[i]).matcher.wf() && self.modes@[mm]@[i].to_mode
                < self.modes@.len() by {
                if mm == m {
                    assert(self.modes@[mm]@[i]@ == before.modes@[mm]@[i]@);
                }
            }
        }
    }

    /// Starts over: the queues and the error are cleared, every matcher is
    /// reset, and the start mode is current.
    pub fn reset(&mut self)
        requires
            old(self).wf(),
        ensures
            final(self).wf(),
            final(self).same_table(old(self)),
            final(self)@ == ScanState::initial(old(self).start()),
    {
        let n = self.modes.len();
        let mut m: usize = 0;
        while m < n
            invariant
                m <= n,
                n == self.modes@.len(),
                self.start_mode == old(self).start_mode,
                self.current_mode == old(self).current_mode,
                self.position == old(self).position,
                self.input == old(self).input,
                self.output == old(self).output,
                self.structure(),
                self.same_table(old(self)),
                forall|j: int|
                    0 <= j < m ==> fed_with((#[trigger] self.modes@[j])@, Seq::<char>::empty()),
            decreases n - m,
        {
            let ghost mid = *self;
            reset_rules(&mut self.modes[m]);
            proof {
                assert(self.modes_kept_but_start(&mid, m as int));
                self.lemma_modes_kept_but_start(&mid, m as int);
                assert forall|j: int| 0 <= j < m implies fed_with(
                    (#[trigger] self.modes@[j])@,
                    Seq::<char>::empty(),
                ) by {
                    assert(self.modes@[j] == mid.modes@[j]);
                }
            }
            m += 1;
        }
        let ghost mid = *self;
        self.input.clear();
        self.position = 0;
        self.output.clear();
        self.last_accepted = None;
        self.error = None;
        self.current_mode = self.start_mode;
        proof {
            assert(self.modes_kept(&mid, -1));
            self.lemma_modes_kept(&mid, -1);
            assert(self@.output =~= Seq::<LexemeSpec>::empty());
            assert(self.input@.take(0) =~= Seq::<char>::empty());
            assert(self.input@ =~= Seq::<char>::empty());
        }
    }
}


impl<T, A: Machine> Engine<T, A> {
    /// Adds a mode without rules, and returns its index.
    pub fn add_mode(&mut self) -> (idx: usize)
        requires
            old(self).wf(),
        ensures
            final(self).wf(),
            final(self)@ == old(self)@,
            final(self).start() == old(self).start(),
            idx == old(self).table().len(),
            final(self).table() == old(self).table().push(Seq::empty()),
            forall|m: nat, i: nat|
                m < old(self).table().len() && i < old(self).table()[m as int].len()
                    ==> #[trigger] final(self).token_of(m, i) == old(self).token_of(m, i),
    {
        let ghost before = *self;
        let n = self.modes.len();
        self.modes.push(Vec::new());
        proof {
            assert(specs_of(Seq::<Rule<T, A>>::empty()) =~= Seq::<RuleSpec<A::Pattern>>::empty());
            assert(self.table() =~= before.table().push(Seq::empty())) by {
                assert forall|m: int| 0 <= m < self.table().len() implies self.table()[m]
                    == before.table().push(Seq::empty())[m] by {
                    if m < n {
                        assert(self.modes@[m] == before.modes@[m]);
                    } else {
                        assert(self.modes@[m]@ =~= Seq::<Rule<T, A>>::empty());
                    }
                }
            }
            assert(self@.output =~= before@.output);
            assert(self.rules() =~= before.rules());
            assert forall|m: int, i: int|
                0 <= m < self.modes@.len() && 0 <= i < self.modes@[m]@.len() implies (
            #[trigger] self.modes@[m]@[i]).matcher.wf() && self.modes@[m]@[i].to_mode
                < self.modes@.len() by {
                assert(self.modes@[m] == before.modes@[m]);
            }
            assert forall|i: int| 0 <= i < self.output@.len() implies (
            #[trigger] self.output@[i]).mode < self.modes@.len() && self.output@[i].rule
                < self.modes@[self.output@[i].mode as int]@.len() by {
                assert(self.modes@[self.output@[i].mode as int]
                    == before.modes@[self.output@[i].mode as int]);
            }
            assert forall|m: nat, i: nat|
                m < before.table().len() && i < before.table()[m as int].len() implies #[trigger] self.token_of(
                m,
                i,
            ) == before.token_of(m, i) by {
                assert(self.modes@[m as int] == before.modes@[m as int]);
            }
        }
        n
    }

    /// Records the mode that is current at the beginning and after a reset.
    /// At the beginning of a scan, it becomes the current mode at once.
    pub fn set_start_mode(&mut self, idx: usize)
        requires
            old(self).wf(),
            idx < old(self).table().len(),
        ensures
            final(self).wf(),
            final(self).table() == old(self).table(),
            final(self).start() == idx,
            final(self)@ == (if old(self)@.position == 0 && old(self)@.pending.len() == 0 && old(self)@.error is None {
                ScanState { mode: idx as nat, ..old(self)@ }
            } else {
                old(self)@
            }),
            forall|m: nat, i: nat|
                m < old(self).table().len() && i < old(self).table()[m as int].len()
                    ==> #[trigger] final(self).token_of(m, i) == old(self).token_of(m, i),
    {
        let ghost mid = *self;
        self.start_mode = idx;
        if self.position == 0 && self.input.len() == 0 && self.error.is_none() {
            self.current_mode = idx;
            reset_rules(&mut self.modes[idx]);
            proof {
                assert(self.modes_kept_but_start(&mid, idx as int));
                self.lemma_modes_kept_but_start(&mid, idx as int);
                assert(self@.output =~= mid@.output);
                assert(self.input@.take(0) =~= Seq::<char>::empty());
                assert(self.input@ =~= Seq::<char>::empty());
                assert(mid.input@.take(0) =~= mid.input@);
            }
        } else {
            proof {
                assert(self.modes_kept_but_start(&mid, -1));
                self.lemma_modes_kept_but_start(&mid, -1);
                assert(self@.output =~= mid@.output);
                assert(self.rules() == mid.rules());
            }
        }
    }

    /// Adds a rule at the end of the rules of the mode `from`: `machine`
    /// matches `token`, and the mode `to` becomes current after it. The
    /// table is fixed while code points are pending.
    pub fn add_rule(&mut self, from: usize, machine: A, token: T, keep_span: bool, to: usize)
        requires
            old(self).wf(),
            machine.wf(),
            machine.fed() == Seq::<char>::empty(),
            from < old(self).table().len(),
            to < old(self).table().len(),
            old(self)@.pending.len() == 0,
        ensures
            final(self).wf(),
            final(self)@ == old(self)@,
            final(self).start() == old(self).start(),
            final(self).table() == with_rule(
                old(self).table(),
                from as nat,
                RuleSpec { pattern: machine.pattern(), to_mode: to as nat, keep_span },
            ),
            final(self).token_of(from as nat, old(self).table()[from as int].len()) == token,
            forall|m: nat, i: nat|
                m < old(self).table().len() && i < old(self).table()[m as int].len()
                    ==> #[trigger] final(self).token_of(m, i) == old(self).token_of(m, i),
    {
        let ghost mid = *self;
        let rule = Rule { token, matcher: machine, keep_span, to_mode: to };
        self.modes[from].push(rule);
        proof {
            let spec = RuleSpec { pattern: machine.pattern(), to_mode: to as nat, keep_span };
            assert(rule@ == spec);
            assert(self.modes@[from as int]@ == mid.modes@[from as int]@.push(rule));
            assert(mid.table()[from as int] == specs_of(mid.modes@[from as int]@));
            assert(self.table() =~= with_rule(mid.table(), from as nat, spec)) by {
                assert forall|m: int| 0 <= m < self.table().len() implies self.table()[m]
                    == with_rule(mid.table(), from as nat, spec)[m] by {
                    if m == from {
                        assert(specs_of(self.modes@[m]@) =~= specs_of(mid.modes@[m]@).push(spec));
                    } else {
                        assert(self.modes@[m] == mid.modes@[m]);
                    }
                }
            }
            assert(self@.output =~= mid@.output);
            assert(self.input@.take(0) =~= self.input@);
            assert forall|m: int, i: int|
                0 <= m < self.modes@.len() && 0 <= i < self.modes@[m]@.len() implies (
            #[trigger] self.modes@[m]@[i]).matcher.wf() && self.modes@[m]@[i].to_mode
                < self.modes@.len() by {
                if m == from {
                    if i < mid.modes@[m]@.len() {
                        assert(self.modes@[m]@[i] == mid.modes@[m]@[i]);
                    }
                } else {
                    assert(self.modes@[m] == mid.modes@[m]);
                }
            }
            assert forall|i: int| 0 <= i < self.output@.len() implies (
            #[trigger] self.output@[i]).mode < self.modes@.len() && self.output@[i].rule
                < self.modes@[self.output@[i].mode as int]@.len() by {
                let e = self.output@[i];
                assert(e == mid.output@[i]);
                if e.mode != from {
                    assert(self.modes@[e.mode as int] == mid.modes@[e.mode as int]);
                }
            }
            if self.error is None {
                let rules = self.rules();
                assert(mid.input@.take(0) =~= mid.input@);
                assert forall|i: int| 0 <= i < rules.len() implies (#[trigger] rules[i]).matcher.wf()
                    && rules[i].matcher.fed() == self.input@.take(0) by {
                    if self.current_mode == from {
                        if i < mid.rules().len() {
                            assert(rules[i] == mid.rules()[i]);
                        }
                    } else if self.current_mode < self.modes@.len() {
                        assert(self.modes@[self.current_mode as int]
                            == mid.modes@[self.current_mode as int]);
                    }
                }
            }
            assert forall|m: nat, i: nat|
                m < mid.table().len() && i < mid.table()[m as int].len() implies #[trigger] self.token_of(
                m,
                i,
            ) == mid.token_of(m, i) by {
                assert(mid.table()[m as int] == specs_of(mid.modes@[m as int]@));
                if m == from {
                    assert(self.modes@[m as int]@[i as int] == mid.modes@[m as int]@[i as int]);
                } else {
                    assert(self.modes@[m as int] == mid.modes@[m as int]);
                }
            }
        }
    }
}

} // verus!
