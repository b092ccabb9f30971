use crate::lexer::language::law_dead_is_final;
use crate::lexer::language::Re;
use vstd::prelude::*;

verus! {

/// What the scan asks of the automaton of a rule: whether it accepts what
/// it was fed, whether it is dead after it, and that death is final.
pub trait Automaton: Sized {
    /// Whether the automaton accepts `w`.
    spec fn accepts(self, w: Seq<char>) -> bool;

    /// Whether the automaton is dead after `w`.
    spec fn dead(self, w: Seq<char>) -> bool;

    /// A dead automaton stays dead and accepts nothing more.
    proof fn dead_is_final(self, w: Seq<char>, u: Seq<char>)
        requires
            self.dead(w),
        ensures
            self.dead(w + u),
            !self.accepts(w + u),
    ;
}

impl Automaton for Re {
    open spec fn accepts(self, w: Seq<char>) -> bool {
        self.matches(w)
    }

    open spec fn dead(self, w: Seq<char>) -> bool {
        self.dead_after(w)
    }

    proof fn dead_is_final(self, w: Seq<char>, u: Seq<char>) {
        law_dead_is_final(self, w, u);
    }
}

/// A machine that runs the automaton of a rule: it is fed one code point
/// at a time, says whether it accepts what it was fed and whether it is
/// dead, and starts over on a reset.
pub trait Machine: Sized {
    /// The automaton that the machine runs.
    type Pattern: Automaton;

    /// The automaton that the machine runs.
    spec fn pattern(&self) -> Self::Pattern;

    /// The code points fed since the last reset.
    spec fn fed(&self) -> Seq<char>;

    /// Whether the machine is in a state that its automaton allows.
    spec fn wf(&self) -> bool;

    /// Forgets what was fed.
    fn reset(&mut self)
        requires
            old(self).wf(),
        ensures
            final(self).wf(),
            final(self).pattern() == old(self).pattern(),
            final(self).fed() == Seq::<char>::empty(),
    ;

    /// Feeds one code point.
    fn put(&mut self, c: char)
        requires
            old(self).wf(),
        ensures
            final(self).wf(),
            final(self).pattern() == old(self).pattern(),
            final(self).fed() == old(self).fed().push(c),
    ;

    /// Whether the automaton accepts what was fed.
    fn is_accepted(&self) -> (b: bool)
        requires
            self.wf(),
        ensures
            b == self.pattern().accepts(self.fed()),
    ;

    /// Whether the automaton is dead after what was fed.
    fn is_dead(&self) -> (b: bool)
        requires
            self.wf(),
        ensures
            b == self.pattern().dead(self.fed()),
    ;
}

/// A rule as the scan sees it.
pub struct RuleSpec<P> {
    /// What the rule matches.
    pub pattern: P,
    /// The index of the mode that is current after the rule has won.
    pub to_mode: nat,
    /// Whether the lexeme keeps the text that it matched.
    pub keep_span: bool,
}

/// A lexeme as the scan sees it: the rule that won, by its mode and its
/// index in the mode, in place of the token of that rule.
pub struct LexemeSpec {
    /// The mode in which the lexeme was matched.
    pub mode: nat,
    /// The index of the winning rule in that mode.
    pub rule: nat,
    /// The number of code points committed before the lexeme.
    pub position: nat,
    /// The number of code points of the lexeme.
    pub length: nat,
    /// The text of the lexeme, where its rule keeps it.
    pub span: Option<Seq<char>>,
}

/// Why a scan stopped.
pub enum ScanError {
    /// Every rule of the mode died before any of them accepted; the scan
    /// had committed this many code points.
    UnexpectedInput(nat),
    /// The input ended with code points that no lexeme covers; the scan had
    /// committed this many code points.
    UnexpectedEndOfInput(nat),
}

/// The state of a scan.
pub struct ScanState {
    /// The index of the current mode.
    pub mode: nat,
    /// The number of code points committed to lexemes.
    pub position: nat,
    /// The code points fed and not committed yet.
    pub pending: Seq<char>,
    /// The lexemes emitted and not taken yet.
    pub output: Seq<LexemeSpec>,
    /// The error that stopped the scan, if one did.
    pub error: Option<ScanError>,
}

/// The rules of a mode; none where the table has no such mode.
pub open spec fn rules_of<P>(table: Seq<Seq<RuleSpec<P>>>, mode: nat) -> Seq<RuleSpec<P>> {
    if mode < table.len() {
        table[mode as int]
    } else {
        Seq::empty()
    }
}

/// The first of the first `n` rules that accepts `w`.
pub open spec fn first_accepting<P: Automaton>(
    rules: Seq<RuleSpec<P>>,
    w: Seq<char>,
    n: nat,
) -> Option<nat>
    decreases n,
{
    if n == 0 {
        None
    } else {
        match first_accepting(rules, w, (n - 1) as nat) {
            Some(i) => Some(i),
            None => if rules[n - 1].pattern.accepts(w) {
                Some((n - 1) as nat)
            } else {
                None
            },
        }
    }
}

/// The rule that wins `w`: the first in declaration order that accepts it.
pub open spec fn winner<P: Automaton>(rules: Seq<RuleSpec<P>>, w: Seq<char>) -> Option<nat> {
    first_accepting(rules, w, rules.len())
}

/// Whether every rule is dead after `w`.
pub open spec fn all_dead<P: Automaton>(rules: Seq<RuleSpec<P>>, w: Seq<char>) -> bool {
    forall|i: int| 0 <= i < rules.len() ==> (#[trigger] rules[i]).pattern.dead(w)
}

/// The longest prefix of `w`, of `k` code points at most and one at least,
/// that some rule accepts, with the rule that wins it.
pub open spec fn best<P: Automaton>(rules: Seq<RuleSpec<P>>, w: Seq<char>, k: nat) -> Option<
    (nat, nat),
>
    decreases k,
{
    if k == 0 {
        None
    } else {
        match winner(rules, w.take(k as int)) {
            Some(r) => Some((r, k)),
            None => best(rules, w, (k - 1) as nat),
        }
    }
}

/// The length of the shortest prefix of `w`, of `k` code points at least,
/// after which every rule is dead.
pub open spec fn dead_point<P: Automaton>(rules: Seq<RuleSpec<P>>, w: Seq<char>, k: nat) -> Option<
    nat,
>
    decreases w.len() + 1 - k,
{
    if k > w.len() {
        None
    } else if all_dead(rules, w.take(k as int)) {
        Some(k)
    } else {
        dead_point(rules, w, k + 1)
    }
}

impl ScanState {
    /// The state of a scan that has seen nothing.
    pub open spec fn initial(mode: nat) -> ScanState {
        ScanState {
            mode,
            position: 0,
            pending: Seq::empty(),
            output: Seq::empty(),
            error: None,
        }
    }

    /// The state with `w` added to what is pending.
    pub open spec fn append(self, w: Seq<char>) -> ScanState {
        ScanState { pending: self.pending + w, ..self }
    }

    /// The state with the error `e`, and with `k` code points left pending.
    pub open spec fn fail(self, e: ScanError, k: nat) -> ScanState {
        ScanState { error: Some(e), pending: self.pending.take(k as int), ..self }
    }

    /// The state after the rule `r` of the current mode has won the first
    /// `l` pending code points: they are committed to a lexeme, and the
    /// mode of the rule becomes current.
    pub open spec fn emit<P>(self, table: Seq<Seq<RuleSpec<P>>>, r: nat, l: nat) -> ScanState {
        let rule = rules_of(table, self.mode)[r as int];
        ScanState {
            mode: rule.to_mode,
            position: self.position + l,
            pending: self.pending.skip(l as int),
            output: self.output.push(
                LexemeSpec {
                    mode: self.mode,
                    rule: r,
                    position: self.position,
                    length: l,
                    span: if rule.keep_span {
                        Some(self.pending.take(l as int))
                    } else {
                        None
                    },
                },
            ),
            error: None,
        }
    }

    /// The state after every lexeme that the pending code points decide has
    /// been emitted: as long as every rule of the current mode is dead
    /// after some prefix of what is pending, the longest accepted prefix
    /// before that point is committed; where there is none, the scan fails
    /// with `UnexpectedInput`, and what follows the point is dropped.
    pub open spec fn settle<P: Automaton>(self, table: Seq<Seq<RuleSpec<P>>>) -> ScanState
        decreases self.pending.len(),
    {
        if self.error is Some {
            self
        } else {
            let rules = rules_of(table, self.mode);
            match dead_point(rules, self.pending, 1) {
                None => self,
                Some(k) => match best(rules, self.pending, k) {
                    None => self.fail(ScanError::UnexpectedInput(self.position), k),
                    Some((r, l)) => if 1 <= l <= self.pending.len() {
                        self.emit(table, r, l).settle(table)
                    } else {
                        self
                    },
                },
            }
        }
    }

    /// The state after one more code point: nothing changes after an error;
    /// else the code point is pending, and the scan settles.
    pub open spec fn put<P: Automaton>(self, table: Seq<Seq<RuleSpec<P>>>, c: char) -> ScanState {
        if self.error is Some {
            self
        } else {
            self.append(seq![c]).settle(table)
        }
    }

    /// The state after the code points of `w`, one after the other.
    pub open spec fn feed<P: Automaton>(self, table: Seq<Seq<RuleSpec<P>>>, w: Seq<char>) -> ScanState
        decreases w.len(),
    {
        if w.len() == 0 {
            self
        } else {
            self.feed(table, w.drop_last()).put(table, w.last())
        }
    }

    /// The state after the end of the input: nothing changes after an
    /// error; else the longest accepted prefix of what is pending is
    /// committed, and the scan fails with `UnexpectedEndOfInput` if code
    /// points are left.
    pub open spec fn finish<P: Automaton>(self, table: Seq<Seq<RuleSpec<P>>>) -> ScanState {
        if self.error is Some {
            self
        } else {
            let rules = rules_of(table, self.mode);
            let t = match best(rules, self.pending, self.pending.len()) {
                Some((r, l)) => self.emit(table, r, l),
                None => self,
            };
            if t.pending.len() > 0 {
                ScanState { error: Some(ScanError::UnexpectedEndOfInput(t.position)), ..t }
            } else {
                t
            }
        }
    }

    /// The state without the first lexeme of its output.
    pub open spec fn take(self) -> ScanState {
        ScanState { output: self.output.skip(1), ..self }
    }
}

/// The state after a whole input: the scan starts in the mode `start`, is
/// fed `w`, and is told that the input has ended.
pub open spec fn run<P: Automaton>(table: Seq<Seq<RuleSpec<P>>>, start: nat, w: Seq<char>) -> ScanState {
    ScanState::initial(start).feed(table, w).finish(table)
}


/// The rule that wins `w` is a rule, accepts `w`, and no rule before it
/// does; where no rule wins, none accepts.
pub proof fn lemma_first_accepting<P: Automaton>(rules: Seq<RuleSpec<P>>, w: Seq<char>, n: nat)
    requires
        n <= rules.len(),
    ensures
        match first_accepting(rules, w, n) {
            Some(r) => r < n && rules[r as int].pattern.accepts(w) && forall|i: int|
                0 <= i < r ==> !(#[trigger] rules[i]).pattern.accepts(w),
            None => forall|i: int| 0 <= i < n ==> !(#[trigger] rules[i]).pattern.accepts(w),
        },
    decreases n,
{
    if n > 0 {
        lemma_first_accepting(rules, w, (n - 1) as nat);
    }
}

/// `best` looks at the first `k` code points only.
pub proof fn lemma_best_prefix<P: Automaton>(rules: Seq<RuleSpec<P>>, w: Seq<char>, k: nat, n: nat)
    requires
        k <= n <= w.len(),
    ensures
        best(rules, w.take(n as int), k) == best(rules, w, k),
    decreases k,
{
    if k > 0 {
        assert(w.take(n as int).take(k as int) =~= w.take(k as int));
        lemma_best_prefix(rules, w, (k - 1) as nat, n);
    }
}

/// What `best` returns is a prefix of one code point at least and `k` at
/// most, the longest that some rule accepts, with the rule that wins it.
pub proof fn lemma_best_bounds<P: Automaton>(rules: Seq<RuleSpec<P>>, w: Seq<char>, k: nat)
    ensures
        match best(rules, w, k) {
            Some((r, l)) => {
                &&& 1 <= l <= k
                &&& r < rules.len()
                &&& winner(rules, w.take(l as int)) == Some(r)
                &&& forall|j: nat| l < j <= k ==> winner(rules, #[trigger] w.take(j as int)) is None
            },
            None => forall|j: nat| 1 <= j <= k ==> winner(rules, #[trigger] w.take(j as int)) is None,
        },
    decreases k,
{
    if k > 0 {
        lemma_first_accepting(rules, w.take(k as int), rules.len());
        lemma_best_bounds(rules, w, (k - 1) as nat);
    }
}

/// Where no prefix from `from` to `k` code points kills every rule and the
/// prefix of `k` code points does, `k` is the dead point.
pub proof fn lemma_dead_point_found<P: Automaton>(
    rules: Seq<RuleSpec<P>>,
    w: Seq<char>,
    from: nat,
    k: nat,
)
    requires
        from <= k <= w.len(),
        all_dead(rules, w.take(k as int)),
        forall|j: nat| from <= j < k ==> !all_dead(rules, #[trigger] w.take(j as int)),
    ensures
        dead_point(rules, w, from) == Some(k),
    decreases k - from,
{
    if from < k {
        assert(!all_dead(rules, w.take(from as int)));
        lemma_dead_point_found(rules, w, from + 1, k);
    }
}

/// Where no prefix of `from` code points or more kills every rule, there is
/// no dead point.
pub proof fn lemma_dead_point_none<P: Automaton>(rules: Seq<RuleSpec<P>>, w: Seq<char>, from: nat)
    requires
        forall|j: nat| from <= j <= w.len() ==> !all_dead(rules, #[trigger] w.take(j as int)),
    ensures
        dead_point(rules, w, from) is None,
    decreases w.len() + 1 - from,
{
    if from <= w.len() {
        assert(!all_dead(rules, w.take(from as int)));
        lemma_dead_point_none(rules, w, from + 1);
    }
}

/// What `dead_point` returns is the shortest prefix of `from` code points
/// or more after which every rule is dead.
pub proof fn lemma_dead_point<P: Automaton>(rules: Seq<RuleSpec<P>>, w: Seq<char>, from: nat)
    ensures
        match dead_point(rules, w, from) {
            Some(k) => {
                &&& from <= k <= w.len()
                &&& all_dead(rules, w.take(k as int))
                &&& forall|j: nat| from <= j < k ==> !all_dead(rules, #[trigger] w.take(j as int))
            },
            None => forall|j: nat|
                from <= j <= w.len() ==> !all_dead(rules, #[trigger] w.take(j as int)),
        },
    decreases w.len() + 1 - from,
{
    if from <= w.len() && !all_dead(rules, w.take(from as int)) {
        lemma_dead_point(rules, w, from + 1);
    }
}


/// A dead point of `w` is the dead point of every extension of `w`.
pub proof fn lemma_dead_point_extends<P: Automaton>(
    rules: Seq<RuleSpec<P>>,
    w: Seq<char>,
    u: Seq<char>,
    from: nat,
)
    requires
        dead_point(rules, w, from) is Some,
    ensures
        dead_point(rules, w + u, from) == dead_point(rules, w, from),
    decreases w.len() + 1 - from,
{
    if from <= w.len() {
        assert((w + u).take(from as int) =~= w.take(from as int));
        if !all_dead(rules, w.take(from as int)) {
            lemma_dead_point_extends(rules, w, u, from + 1);
        }
    }
}

/// Settling, then feeding one code point, is feeding it and settling once.
pub proof fn lemma_settle_then_put<P: Automaton>(
    table: Seq<Seq<RuleSpec<P>>>,
    t: ScanState,
    c: char,
)
    requires
        t.error is None,
    ensures
        t.settle(table).put(table, c) == t.append(seq![c]).settle(table),
    decreases t.pending.len(),
{
    let rules = rules_of(table, t.mode);
    let p = t.pending;
    let pc = p + seq![c];
    match dead_point(rules, p, 1) {
        None => {},
        Some(k) => {
            lemma_dead_point(rules, p, 1);
            lemma_dead_point_extends(rules, p, seq![c], 1);
            assert(pc.take(p.len() as int) =~= p);
            lemma_best_prefix(rules, pc, k, p.len());
            lemma_best_bounds(rules, p, k);
            match best(rules, p, k) {
                None => {
                    assert(pc.take(k as int) =~= p.take(k as int));
                },
                Some((r, l)) => {
                    let e = t.emit(table, r, l);
                    assert(pc.skip(l as int) =~= p.skip(l as int) + seq![c]);
                    assert(pc.take(l as int) =~= p.take(l as int));
                    assert(t.append(seq![c]).emit(table, r, l) == e.append(seq![c]));
                    lemma_settle_then_put(table, e, c);
                },
            }
        },
    }
}

/// The output of a state is the beginning of the output of the state once
/// settled, and of the state once finished.
pub proof fn lemma_output_grows<P: Automaton>(table: Seq<Seq<RuleSpec<P>>>, s: ScanState)
    ensures
        s.output.is_prefix_of(s.settle(table).output),
        s.output.is_prefix_of(s.finish(table).output),
    decreases s.pending.len(),
{
    let rules = rules_of(table, s.mode);
    if s.error is None {
        match dead_point(rules, s.pending, 1) {
            None => {},
            Some(k) => {
                match best(rules, s.pending, k) {
                    None => {},
                    Some((r, l)) => {
                        if 1 <= l <= s.pending.len() {
                            lemma_output_grows(table, s.emit(table, r, l));
                        }
                    },
                }
            },
        }
    }
}

/// Whether the lexemes `out` tile the beginning of `input`: each starts
/// where the one before it ends, is matched in the mode that the one
/// before it leads to, is won by the first rule of that mode that accepts
/// its text, has one code point at least, and is the longest prefix of the
/// rest of the input that any rule of its mode accepts.
pub open spec fn tiled<P: Automaton>(
    table: Seq<Seq<RuleSpec<P>>>,
    start: nat,
    input: Seq<char>,
    out: Seq<LexemeSpec>,
) -> bool {
    forall|i: int| 0 <= i < out.len() ==> tile_at(table, start, input, out, i)
}

/// What `tiled` says of the lexeme of index `i`.
pub open spec fn tile_at<P: Automaton>(
    table: Seq<Seq<RuleSpec<P>>>,
    start: nat,
    input: Seq<char>,
    out: Seq<LexemeSpec>,
    i: int,
) -> bool {
    let l = out[i];
    let rules = rules_of(table, l.mode);
    let text = input.subrange(l.position as int, (l.position + l.length) as int);
    &&& l.position == end_of(out, i)
    &&& l.mode == mode_after(table, start, out, i)
    &&& 1 <= l.length
    &&& l.position + l.length <= input.len()
    &&& l.rule < rules.len()
    &&& winner(rules, text) == Some(l.rule)
    &&& l.span == (if rules[l.rule as int].keep_span {
        Some(text)
    } else {
        None
    })
    &&& forall|j: int|
        l.length < j <= input.len() - l.position ==> winner(
            rules,
            #[trigger] input.subrange(l.position as int, l.position + j),
        ) is None
}

/// The number of code points that the first `i` lexemes cover.
pub open spec fn end_of(out: Seq<LexemeSpec>, i: int) -> nat {
    if 0 < i <= out.len() {
        out[i - 1].position + out[i - 1].length
    } else {
        0
    }
}

/// The mode that is current after the first `i` lexemes.
pub open spec fn mode_after<P>(
    table: Seq<Seq<RuleSpec<P>>>,
    start: nat,
    out: Seq<LexemeSpec>,
    i: int,
) -> nat {
    if 0 < i <= out.len() {
        rules_of(table, out[i - 1].mode)[out[i - 1].rule as int].to_mode
    } else {
        start
    }
}

/// Whether the state `s` is a state of a scan of `input` that started in
/// the mode `start` with nothing taken out of its output.
pub open spec fn scanning<P: Automaton>(
    table: Seq<Seq<RuleSpec<P>>>,
    start: nat,
    input: Seq<char>,
    s: ScanState,
) -> bool {
    &&& tiled(table, start, input, s.output)
    &&& s.position == end_of(s.output, s.output.len() as int)
    &&& s.mode == mode_after(table, start, s.output, s.output.len() as int)
    &&& s.position <= input.len()
    &&& s.error is None ==> s.pending == input.skip(s.position as int)
    &&& match s.error {
        Some(ScanError::UnexpectedInput(n)) => n == s.position,
        Some(ScanError::UnexpectedEndOfInput(n)) => n == s.position,
        None => true,
    }
}

/// No rule accepts a string after a prefix of which every rule is dead.
pub proof fn lemma_all_dead_no_winner<P: Automaton>(
    rules: Seq<RuleSpec<P>>,
    w: Seq<char>,
    k: int,
    j: int,
)
    requires
        0 <= k <= j <= w.len(),
        all_dead(rules, w.take(k)),
    ensures
        winner(rules, w.take(j)) is None,
{
    lemma_first_accepting(rules, w.take(j), rules.len());
    assert forall|i: int| 0 <= i < rules.len() implies !(#[trigger] rules[i]).pattern.accepts(
        w.take(j),
    ) by {
        rules[i].pattern.dead_is_final(w.take(k), w.subrange(k, j));
        assert(w.take(k) + w.subrange(k, j) =~= w.take(j));
    }
}

/// Committing the best match of a scanning state gives a scanning state,
/// where the match is the longest of all that is pending.
pub proof fn lemma_emit_scanning<P: Automaton>(
    table: Seq<Seq<RuleSpec<P>>>,
    start: nat,
    input: Seq<char>,
    s: ScanState,
    k: nat,
)
    requires
        scanning(table, start, input, s),
        s.error is None,
        k <= s.pending.len(),
        best(rules_of(table, s.mode), s.pending, k) is Some,
        forall|j: int|
            k < j <= s.pending.len() ==> winner(
                rules_of(table, s.mode),
                #[trigger] s.pending.take(j),
            ) is None,
    ensures
        ({
            let (r, l) = best(rules_of(table, s.mode), s.pending, k)->0;
            scanning(table, start, input, s.emit(table, r, l))
        }),
{
    let rules = rules_of(table, s.mode);
    let (r, l) = best(rules, s.pending, k)->0;
    let t = s.emit(table, r, l);
    let n = s.output.len() as int;
    lemma_best_bounds(rules, s.pending, k);
    assert(s.pending.take(l as int) =~= input.subrange(s.position as int, (s.position + l) as int));
    assert(t.pending =~= input.skip(t.position as int));
    assert forall|i: int| 0 <= i < t.output.len() implies tile_at(table, start, input, t.output, i) by {
        if i < n {
            assert(tile_at(table, start, input, s.output, i));
            assert(t.output[i] == s.output[i]);
            if i > 0 {
                assert(t.output[i - 1] == s.output[i - 1]);
            }
        } else {
            if n > 0 {
                assert(t.output[n - 1] == s.output[n - 1]);
            }
            let lx = t.output[i];
            assert forall|j: int| lx.length < j <= input.len() - lx.position implies winner(
                rules,
                #[trigger] input.subrange(lx.position as int, lx.position + j),
            ) is None by {
                assert(input.subrange(lx.position as int, lx.position + j) =~= s.pending.take(j));
                if j <= k {
                    assert(winner(rules, s.pending.take(j as nat as int)) is None);
                }
            }
        }
    }
}

/// Settling a scanning state gives a scanning state.
pub proof fn lemma_settle_scanning<P: Automaton>(
    table: Seq<Seq<RuleSpec<P>>>,
    start: nat,
    input: Seq<char>,
    s: ScanState,
)
    requires
        scanning(table, start, input, s),
    ensures
        scanning(table, start, input, s.settle(table)),
    decreases s.pending.len(),
{
    let rules = rules_of(table, s.mode);
    if s.error is None {
        match dead_point(rules, s.pending, 1) {
            None => {},
            Some(k) => {
                lemma_dead_point(rules, s.pending, 1);
                lemma_best_bounds(rules, s.pending, k);
                match best(rules, s.pending, k) {
                    None => {},
                    Some((r, l)) => {
                        assert forall|j: int| k < j <= s.pending.len() implies winner(
                            rules,
                            #[trigger] s.pending.take(j),
                        ) is None by {
                            lemma_all_dead_no_winner(rules, s.pending, k as int, j);
                        }
                        lemma_emit_scanning(table, start, input, s, k);
                        lemma_settle_scanning(table, start, input, s.emit(table, r, l));
                    },
                }
            },
        }
    }
}

/// Finishing a scanning state gives a scanning state.
pub proof fn lemma_finish_scanning<P: Automaton>(
    table: Seq<Seq<RuleSpec<P>>>,
    start: nat,
    input: Seq<char>,
    s: ScanState,
)
    requires
        scanning(table, start, input, s),
    ensures
        scanning(table, start, input, s.finish(table)),
{
    let rules = rules_of(table, s.mode);
    if s.error is None {
        if best(rules, s.pending, s.pending.len()) is Some {
            lemma_emit_scanning(table, start, input, s, s.pending.len());
        }
    }
}

/// Streaming equivalence: feeding the code points of `w` one after the
/// other, settling after each, gives the state that settling once on the
/// whole of `w` gives.
pub proof fn law_streaming<P: Automaton>(table: Seq<Seq<RuleSpec<P>>>, start: nat, w: Seq<char>)
    ensures
        ScanState::initial(start).feed(table, w) == ScanState::initial(start).append(w).settle(
            table,
        ),
    decreases w.len(),
{
    let s = ScanState::initial(start);
    if w.len() == 0 {
        assert(s.append(w).pending =~= s.pending);
        assert(s.append(w) == s);
    } else {
        let v = w.drop_last();
        law_streaming(table, start, v);
        lemma_settle_then_put(table, s.append(v), w.last());
        assert(v + seq![w.last()] =~= w);
        assert(s.append(v).append(seq![w.last()]) == s.append(w));
    }
}

/// Feeding in two parts is feeding the whole: however the input is split,
/// the state after it is the same.
pub proof fn law_split<P: Automaton>(
    table: Seq<Seq<RuleSpec<P>>>,
    s: ScanState,
    u: Seq<char>,
    v: Seq<char>,
)
    ensures
        s.feed(table, u).feed(table, v) == s.feed(table, u + v),
    decreases v.len(),
{
    if v.len() == 0 {
        assert(u + v =~= u);
    } else {
        law_split(table, s, u, v.drop_last());
        assert((u + v).drop_last() =~= u + v.drop_last());
    }
}

/// The output of a whole scan tiles the input: see `tiled` for what that
/// says of every lexeme, of its position, its mode, its rule and its
/// length.
pub proof fn law_run_is_tiled<P: Automaton>(table: Seq<Seq<RuleSpec<P>>>, start: nat, w: Seq<char>)
    ensures
        scanning(table, start, w, run(table, start, w)),
{
    let s = ScanState::initial(start);
    law_streaming(table, start, w);
    assert(s.append(w).pending =~= w.skip(0));
    lemma_settle_scanning(table, start, w, s.append(w));
    lemma_finish_scanning(table, start, w, s.append(w).settle(table));
}

/// Maximal munch: where some rule of the start mode accepts some prefix of
/// the input of one code point or more, a first lexeme is emitted; and the
/// first lexeme starts the input and is the longest prefix of it that any
/// rule of the start mode accepts.
pub proof fn law_maximal_munch<P: Automaton>(
    table: Seq<Seq<RuleSpec<P>>>,
    start: nat,
    w: Seq<char>,
)
    ensures
        (exists|l: int| 1 <= l <= w.len() && winner(rules_of(table, start), #[trigger] w.take(l)) is Some)
            <==> run(table, start, w).output.len() > 0,
        run(table, start, w).output.len() > 0 ==> ({
            let first = run(table, start, w).output[0];
            &&& first.position == 0
            &&& first.mode == start
            &&& 1 <= first.length <= w.len()
            &&& winner(rules_of(table, start), w.take(first.length as int)) is Some
            &&& forall|l: int|
                first.length < l <= w.len() ==> winner(rules_of(table, start), #[trigger] w.take(l)) is None
        }),
{
    let rules = rules_of(table, start);
    let out = run(table, start, w).output;
    law_run_is_tiled(table, start, w);
    if out.len() > 0 {
        assert(tile_at(table, start, w, out, 0));
        let first = out[0];
        assert(w.subrange(0, first.length as int) =~= w.take(first.length as int));
        assert forall|l: int| first.length < l <= w.len() implies winner(
            rules,
            #[trigger] w.take(l),
        ) is None by {
            assert(w.subrange(first.position as int, first.position + l) =~= w.take(l));
        }
    }
    if exists|l: int| 1 <= l <= w.len() && winner(rules, #[trigger] w.take(l)) is Some {
        let l = choose|l: int| 1 <= l <= w.len() && winner(rules, #[trigger] w.take(l)) is Some;
        let s = ScanState::initial(start).append(w);
        assert(s.pending =~= w);
        law_streaming(table, start, w);
        let t = s.settle(table);
        match dead_point(rules, w, 1) {
            None => {
                lemma_best_bounds(rules, w, w.len());
                assert(best(rules, w, w.len()) is Some);
            },
            Some(k) => {
                lemma_dead_point(rules, w, 1);
                lemma_best_bounds(rules, w, k);
                if l >= k {
                    lemma_all_dead_no_winner(rules, w, k as int, l);
                }
                assert(best(rules, w, k) is Some);
                let (r, n) = best(rules, w, k)->0;
                lemma_output_grows(table, s.emit(table, r, n));
                assert(t.output.len() > 0);
            },
        }
        lemma_output_grows(table, t);
    }
}

/// Tiebreak: the rule of every lexeme is the first rule of its mode, in
/// declaration order, that accepts the text of the lexeme.
pub proof fn law_tiebreak<P: Automaton>(
    table: Seq<Seq<RuleSpec<P>>>,
    start: nat,
    w: Seq<char>,
    i: int,
)
    requires
        0 <= i < run(table, start, w).output.len(),
    ensures
        ({
            let l = run(table, start, w).output[i];
            let rules = rules_of(table, l.mode);
            let text = w.subrange(l.position as int, (l.position + l.length) as int);
            &&& l.rule < rules.len()
            &&& rules[l.rule as int].pattern.accepts(text)
            &&& forall|r: int| 0 <= r < l.rule ==> !(#[trigger] rules[r]).pattern.accepts(text)
        }),
{
    law_run_is_tiled(table, start, w);
    let out = run(table, start, w).output;
    assert(tile_at(table, start, w, out, i));
    let l = out[i];
    lemma_first_accepting(
        rules_of(table, l.mode),
        w.subrange(l.position as int, (l.position + l.length) as int),
        rules_of(table, l.mode).len(),
    );
}

/// Position monotonicity: the first lexeme starts at 0, every other one
/// where the one before it ends, and every lexeme has one code point at
/// least; so the positions grow strictly.
pub proof fn law_positions<P: Automaton>(
    table: Seq<Seq<RuleSpec<P>>>,
    start: nat,
    w: Seq<char>,
    i: int,
    j: int,
)
    requires
        0 <= i < j < run(table, start, w).output.len(),
    ensures
        run(table, start, w).output[0].position == 0,
        run(table, start, w).output[i + 1].position == run(table, start, w).output[i].position
            + run(table, start, w).output[i].length,
        run(table, start, w).output[i].position < run(table, start, w).output[j].position,
    decreases j - i,
{
    law_run_is_tiled(table, start, w);
    let out = run(table, start, w).output;
    assert(tile_at(table, start, w, out, 0));
    assert(tile_at(table, start, w, out, i));
    assert(tile_at(table, start, w, out, i + 1));
    if i + 1 < j {
        law_positions(table, start, w, i + 1, j);
    }
}

/// Mode fidelity: the first lexeme is matched in the start mode, and every
/// other one in the mode that the rule of the lexeme before it leads to.
pub proof fn law_modes<P: Automaton>(
    table: Seq<Seq<RuleSpec<P>>>,
    start: nat,
    w: Seq<char>,
    i: int,
)
    requires
        0 <= i < run(table, start, w).output.len(),
    ensures
        i == 0 ==> run(table, start, w).output[i].mode == start,
        i > 0 ==> run(table, start, w).output[i].mode == rules_of(
            table,
            run(table, start, w).output[i - 1].mode,
        )[run(table, start, w).output[i - 1].rule as int].to_mode,
        winner(
            rules_of(table, run(table, start, w).output[i].mode),
            w.subrange(
                run(table, start, w).output[i].position as int,
                (run(table, start, w).output[i].position + run(
                    table,
                    start,
                    w,
                ).output[i].length) as int,
            ),
        ) == Some(run(table, start, w).output[i].rule),
{
    law_run_is_tiled(table, start, w);
    assert(tile_at(table, start, w, run(table, start, w).output, i));
}

/// The texts of the first `n` lexemes, one after the other; a lexeme
/// without a text counts as empty.
pub open spec fn spans(out: Seq<LexemeSpec>, n: nat) -> Seq<char>
    decreases n,
{
    if n == 0 || n > out.len() {
        Seq::empty()
    } else {
        spans(out, (n - 1) as nat) + (match out[n - 1].span {
            Some(t) => t,
            None => Seq::empty(),
        })
    }
}

/// Whether every rule of the table keeps the text of its lexemes.
pub open spec fn keeps_all<P>(table: Seq<Seq<RuleSpec<P>>>) -> bool {
    forall|m: int, r: int|
        0 <= m < table.len() && 0 <= r < table[m].len() ==> (#[trigger] table[m][r]).keep_span
}

/// The texts of tiling lexemes whose rules all keep them are the input
/// that the lexemes cover.
pub proof fn lemma_spans<P: Automaton>(
    table: Seq<Seq<RuleSpec<P>>>,
    start: nat,
    w: Seq<char>,
    out: Seq<LexemeSpec>,
    n: nat,
)
    requires
        tiled(table, start, w, out),
        keeps_all(table),
        n <= out.len(),
    ensures
        spans(out, n) == w.take(end_of(out, n as int) as int),
    decreases n,
{
    if n == 0 {
        assert(w.take(0) =~= Seq::<char>::empty());
    } else {
        lemma_spans(table, start, w, out, (n - 1) as nat);
        assert(tile_at(table, start, w, out, n - 1));
        let l = out[n - 1];
        assert(rules_of(table, l.mode) == table[l.mode as int]);
        assert(table[l.mode as int][l.rule as int].keep_span);
        assert(w.take(l.position as int) + w.subrange(l.position as int, (l.position + l.length) as int)
            =~= w.take((l.position + l.length) as int));
    }
}

/// Totality: where the scan ends without an error, the lexemes cover the
/// whole input; and where every rule keeps the text of its lexemes, the
/// texts of the lexemes, one after the other, are the input.
pub proof fn law_totality<P: Automaton>(table: Seq<Seq<RuleSpec<P>>>, start: nat, w: Seq<char>)
    requires
        run(table, start, w).error is None,
    ensures
        run(table, start, w).pending.len() == 0,
        run(table, start, w).position == w.len(),
        keeps_all(table) ==> spans(
            run(table, start, w).output,
            run(table, start, w).output.len(),
        ) == w,
{
    let s = run(table, start, w);
    law_run_is_tiled(table, start, w);
    assert(s.pending.len() == 0) by {
        let t = ScanState::initial(start).feed(table, w);
        if t.error is None {
        }
    }
    if keeps_all(table) {
        lemma_spans(table, start, w, s.output, s.output.len());
        assert(w.take(w.len() as int) =~= w);
    }
}


/// Settling and finishing never add to the number of code points that are
/// committed or pending.
pub proof fn lemma_settle_total<P: Automaton>(table: Seq<Seq<RuleSpec<P>>>, s: ScanState)
    ensures
        s.settle(table).position + s.settle(table).pending.len() <= s.position + s.pending.len(),
        s.finish(table).position + s.finish(table).pending.len() <= s.position + s.pending.len(),
    decreases s.pending.len(),
{
    let rules = rules_of(table, s.mode);
    if s.error is None {
        lemma_best_bounds(rules, s.pending, s.pending.len());
        match dead_point(rules, s.pending, 1) {
            None => {},
            Some(k) => {
                lemma_dead_point(rules, s.pending, 1);
                lemma_best_bounds(rules, s.pending, k);
                match best(rules, s.pending, k) {
                    None => {},
                    Some((r, l)) => {
                        lemma_settle_total(table, s.emit(table, r, l));
                    },
                }
            },
        }
    }
}

/// Feeding one code point adds one at most to the number of code points
/// that are committed or pending.
pub proof fn lemma_put_total<P: Automaton>(table: Seq<Seq<RuleSpec<P>>>, s: ScanState, c: char)
    ensures
        s.put(table, c).position + s.put(table, c).pending.len() <= s.position + s.pending.len()
            + 1,
{
    if s.error is None {
        lemma_settle_total(table, s.append(seq![c]));
    }
}

/// What a caller does to a lexer between the start and the end of the
/// input.
pub enum Step {
    /// Feeds one code point.
    Put(char),
    /// Takes the next lexeme out of the output, if there is one.
    Take,
}

/// The code points that the steps feed, in their order.
pub open spec fn fed_by(steps: Seq<Step>) -> Seq<char>
    decreases steps.len(),
{
    if steps.len() == 0 {
        Seq::empty()
    } else {
        match steps.last() {
            Step::Put(c) => fed_by(steps.drop_last()).push(c),
            Step::Take => fed_by(steps.drop_last()),
        }
    }
}

impl ScanState {
    /// The state with the lexemes `taken` back at the head of its output.
    pub open spec fn with_taken(self, taken: Seq<LexemeSpec>) -> ScanState {
        ScanState { output: taken + self.output, ..self }
    }
}

/// The state after the steps, from the state `s`, and the lexemes that the
/// steps took out, in their order.
pub open spec fn play<P: Automaton>(
    table: Seq<Seq<RuleSpec<P>>>,
    s: ScanState,
    steps: Seq<Step>,
) -> (ScanState, Seq<LexemeSpec>)
    decreases steps.len(),
{
    if steps.len() == 0 {
        (s, Seq::empty())
    } else {
        let before = play(table, s, steps.drop_last());
        match steps.last() {
            Step::Put(c) => (before.0.put(table, c), before.1),
            Step::Take => if before.0.output.len() > 0 {
                (before.0.take(), before.1.push(before.0.output[0]))
            } else {
                before
            },
        }
    }
}

/// Settling does not look at the output: lexemes put back at its head stay
/// there.
pub proof fn lemma_settle_with_taken<P: Automaton>(
    table: Seq<Seq<RuleSpec<P>>>,
    s: ScanState,
    taken: Seq<LexemeSpec>,
)
    ensures
        s.with_taken(taken).settle(table) == s.settle(table).with_taken(taken),
    decreases s.pending.len(),
{
    let rules = rules_of(table, s.mode);
    if s.error is None {
        match dead_point(rules, s.pending, 1) {
            None => {},
            Some(k) => {
                match best(rules, s.pending, k) {
                    None => {},
                    Some((r, l)) => {
                        if 1 <= l <= s.pending.len() {
                            let e = s.emit(table, r, l);
                            assert(s.with_taken(taken).emit(table, r, l).output =~= e.with_taken(
                                taken,
                            ).output);
                            assert(s.with_taken(taken).emit(table, r, l) == e.with_taken(taken));
                            lemma_settle_with_taken(table, e, taken);
                        }
                    },
                }
            },
        }
    }
}

/// Feeding a code point and ending the input do not look at the output:
/// lexemes put back at its head stay there.
pub proof fn lemma_put_with_taken<P: Automaton>(
    table: Seq<Seq<RuleSpec<P>>>,
    s: ScanState,
    taken: Seq<LexemeSpec>,
    c: char,
)
    ensures
        s.with_taken(taken).put(table, c) == s.put(table, c).with_taken(taken),
        s.with_taken(taken).finish(table) == s.finish(table).with_taken(taken),
{
    if s.error is None {
        assert(s.with_taken(taken).append(seq![c]) == s.append(seq![c]).with_taken(taken));
        lemma_settle_with_taken(table, s.append(seq![c]), taken);
        let rules = rules_of(table, s.mode);
        match best(rules, s.pending, s.pending.len()) {
            Some((r, l)) => {
                let e = s.emit(table, r, l);
                assert(s.with_taken(taken).emit(table, r, l).output =~= e.with_taken(taken).output);
                assert(s.with_taken(taken).emit(table, r, l) == e.with_taken(taken));
            },
            None => {},
        }
    }
}

/// Taking lexemes out between the code points changes nothing to the
/// scan: the lexemes taken, put back at the head of the output, give the
/// state that feeding the same code points without taking gives.
pub proof fn lemma_play<P: Automaton>(table: Seq<Seq<RuleSpec<P>>>, s: ScanState, steps: Seq<Step>)
    ensures
        play(table, s, steps).0.with_taken(play(table, s, steps).1) == s.feed(table, fed_by(steps)),
    decreases steps.len(),
{
    let after = play(table, s, steps);
    if steps.len() == 0 {
        assert(after.0.with_taken(after.1).output =~= s.output);
    } else {
        let before = play(table, s, steps.drop_last());
        lemma_play(table, s, steps.drop_last());
        match steps.last() {
            Step::Put(c) => {
                lemma_put_with_taken(table, before.0, before.1, c);
                assert(fed_by(steps).drop_last() =~= fed_by(steps.drop_last()));
            },
            Step::Take => {
                if before.0.output.len() > 0 {
                    assert(after.0.with_taken(after.1).output =~= before.0.with_taken(before.1).output);
                }
            },
        }
    }
}

/// Streaming equivalence, with lexemes taken at any time: however the code
/// points of the input are fed, and whenever lexemes are taken out between
/// them, the lexemes taken followed by those left after the end of the
/// input are the lexemes of a scan of the whole input, and the scan ends
/// in the same mode, at the same position, with the same error.
pub proof fn law_taking<P: Automaton>(table: Seq<Seq<RuleSpec<P>>>, start: nat, steps: Seq<Step>)
    ensures
        play(table, ScanState::initial(start), steps).0.finish(table).with_taken(
            play(table, ScanState::initial(start), steps).1,
        ) == run(table, start, fed_by(steps)),
{
    let after = play(table, ScanState::initial(start), steps);
    lemma_play(table, ScanState::initial(start), steps);
    lemma_put_with_taken(table, after.0, after.1, 'a');
}

/// Position monotonicity, with lexemes taken at any time: of the lexemes
/// taken so far followed by those that are out, the first starts at 0,
/// every other one where the one before it ends, and every lexeme has one
/// code point at least; so the positions grow strictly.
pub proof fn law_positions_taken<P: Automaton>(
    table: Seq<Seq<RuleSpec<P>>>,
    start: nat,
    steps: Seq<Step>,
    i: int,
    j: int,
)
    requires
        0 <= i < j < (play(table, ScanState::initial(start), steps).1 + play(
            table,
            ScanState::initial(start),
            steps,
        ).0.output).len(),
    ensures
        ({
            let after = play(table, ScanState::initial(start), steps);
            let all = after.1 + after.0.output;
            &&& all[0].position == 0
            &&& all[i].length >= 1
            &&& all[i + 1].position == all[i].position + all[i].length
            &&& all[i].position < all[j].position
        }),
    decreases j - i,
{
    let s = ScanState::initial(start);
    let after = play(table, s, steps);
    let all = after.1 + after.0.output;
    let w = fed_by(steps);
    lemma_play(table, s, steps);
    law_streaming(table, start, w);
    assert(s.append(w).pending =~= w.skip(0));
    lemma_settle_scanning(table, start, w, s.append(w));
    assert(all == s.feed(table, w).output);
    assert(tile_at(table, start, w, all, 0));
    assert(tile_at(table, start, w, all, i));
    assert(tile_at(table, start, w, all, i + 1));
    if i + 1 < j {
        law_positions_taken(table, start, steps, i + 1, j);
    }
}

/// A piece of an input: its text, and the rule that is to win it.
pub struct Piece {
    /// The code points of the piece.
    pub text: Seq<char>,
    /// The index of the rule, in the mode in which the piece is scanned.
    pub rule: nat,
}

/// The texts of the pieces, one after the other.
pub open spec fn joined(pieces: Seq<Piece>) -> Seq<char>
    decreases pieces.len(),
{
    if pieces.len() == 0 {
        Seq::empty()
    } else {
        pieces[0].text + joined(pieces.drop_first())
    }
}

/// Whether the pieces are what a scan that starts in the mode `mode` makes
/// of their texts: each piece has one code point at least and is won by
/// its rule in the mode that the rule of the piece before it leads to; and
/// every rule of that mode is dead after the piece and the first code point
/// of the piece that follows.
pub open spec fn separated<P: Automaton>(
    table: Seq<Seq<RuleSpec<P>>>,
    mode: nat,
    pieces: Seq<Piece>,
) -> bool
    decreases pieces.len(),
{
    if pieces.len() == 0 {
        true
    } else {
        let rules = rules_of(table, mode);
        let rest = joined(pieces.drop_first());
        &&& pieces[0].text.len() >= 1
        &&& winner(rules, pieces[0].text) == Some(pieces[0].rule)
        &&& rest.len() > 0 ==> all_dead(rules, pieces[0].text.push(rest[0]))
        &&& separated(table, rules[pieces[0].rule as int].to_mode, pieces.drop_first())
    }
}

/// The lexemes of the pieces, where the first is scanned in the mode
/// `mode` after `position` code points.
pub open spec fn lexemes_of<P>(
    table: Seq<Seq<RuleSpec<P>>>,
    mode: nat,
    position: nat,
    pieces: Seq<Piece>,
) -> Seq<LexemeSpec>
    decreases pieces.len(),
{
    if pieces.len() == 0 {
        Seq::empty()
    } else {
        let rule = rules_of(table, mode)[pieces[0].rule as int];
        seq![
            LexemeSpec {
                mode,
                rule: pieces[0].rule,
                position,
                length: pieces[0].text.len(),
                span: if rule.keep_span {
                    Some(pieces[0].text)
                } else {
                    None
                },
            },
        ] + lexemes_of(table, rule.to_mode, position + pieces[0].text.len(), pieces.drop_first())
    }
}

/// The mode that is current after the pieces.
pub open spec fn mode_at_end<P>(table: Seq<Seq<RuleSpec<P>>>, mode: nat, pieces: Seq<Piece>) -> nat
    decreases pieces.len(),
{
    if pieces.len() == 0 {
        mode
    } else {
        mode_at_end(
            table,
            rules_of(table, mode)[pieces[0].rule as int].to_mode,
            pieces.drop_first(),
        )
    }
}

/// A rule that accepts `y` keeps the rules from being all dead after any
/// prefix of `y`.
pub proof fn lemma_alive_before<P: Automaton>(rules: Seq<RuleSpec<P>>, y: Seq<char>, r: nat, j: int)
    requires
        r < rules.len(),
        rules[r as int].pattern.accepts(y),
        0 <= j <= y.len(),
    ensures
        !all_dead(rules, y.take(j)),
{
    if all_dead(rules, y.take(j)) {
        assert(rules[r as int].pattern.dead(y.take(j)));
        rules[r as int].pattern.dead_is_final(y.take(j), y.skip(j));
        assert(y.take(j) + y.skip(j) =~= y);
    }
}

/// A scan of the texts of separated pieces emits the lexemes of the
/// pieces and nothing else, and ends without an error with nothing
/// pending.
pub proof fn lemma_separated<P: Automaton>(
    table: Seq<Seq<RuleSpec<P>>>,
    s: ScanState,
    pieces: Seq<Piece>,
)
    requires
        s.error is None,
        s.pending == joined(pieces),
        separated(table, s.mode, pieces),
    ensures
        s.settle(table).finish(table) == (ScanState {
            mode: mode_at_end(table, s.mode, pieces),
            position: s.position + joined(pieces).len(),
            pending: Seq::empty(),
            output: s.output + lexemes_of(table, s.mode, s.position, pieces),
            error: None,
        }),
    decreases pieces.len(),
{
    let rules = rules_of(table, s.mode);
    if pieces.len() == 0 {
        assert(s.output + Seq::<LexemeSpec>::empty() =~= s.output);
        assert(s.pending =~= Seq::<char>::empty());
    } else {
        let y = pieces[0].text;
        let r = pieces[0].rule;
        let others = pieces.drop_first();
        let rest = joined(others);
        let w = s.pending;
        let n = y.len();
        lemma_first_accepting(rules, y, rules.len());
        assert(w.take(n as int) =~= y);
        assert(w.skip(n as int) =~= rest);
        assert forall|j: nat| 1 <= j <= n implies !all_dead(rules, #[trigger] w.take(j as int)) by {
            lemma_alive_before(rules, y, r, j as int);
            assert(w.take(j as int) =~= y.take(j as int));
        }
        let e = s.emit(table, r, n);
        let first = LexemeSpec {
            mode: s.mode,
            rule: r,
            position: s.position,
            length: n,
            span: if rules[r as int].keep_span {
                Some(y)
            } else {
                None
            },
        };
        assert(e.output == s.output.push(first));
        assert(s.output.push(first) + lexemes_of(table, e.mode, e.position, others) =~= s.output
            + lexemes_of(table, s.mode, s.position, pieces));
        if rest.len() == 0 {
            assert(w =~= y);
            lemma_dead_point_none(rules, w, 1);
            assert(s.settle(table) == s);
            assert(best(rules, w, n) == Some((r, n)));
            assert(e.pending =~= Seq::<char>::empty());
            assert(s.finish(table) == e);
            lemma_separated(table, e, others);
            assert(dead_point(rules_of(table, e.mode), e.pending, 1) is None);
            assert(e.settle(table) == e);
            assert(best(rules_of(table, e.mode), e.pending, 0) is None);
            assert(e.finish(table) == e);
        } else {
            assert(w.take((n + 1) as int) =~= y.push(rest[0]));
            lemma_dead_point_found(rules, w, 1, n + 1);
            lemma_all_dead_no_winner(rules, w, (n + 1) as int, (n + 1) as int);
            assert(best(rules, w, n + 1) == Some((r, n)));
            assert(s.settle(table) == e.settle(table));
            lemma_separated(table, e, others);
        }
    }
}

/// Round trip: where an input is made of separated pieces, a scan of the
/// whole input emits exactly the lexemes of the pieces, in their order,
/// and ends without an error.
pub proof fn law_round_trip<P: Automaton>(
    table: Seq<Seq<RuleSpec<P>>>,
    start: nat,
    pieces: Seq<Piece>,
)
    requires
        separated(table, start, pieces),
    ensures
        run(table, start, joined(pieces)).output == lexemes_of(table, start, 0, pieces),
        run(table, start, joined(pieces)).error is None,
        run(table, start, joined(pieces)).pending.len() == 0,
        run(table, start, joined(pieces)).mode == mode_at_end(table, start, pieces),
{
    let s = ScanState::initial(start);
    let w = joined(pieces);
    law_streaming(table, start, w);
    assert(s.append(w).pending =~= w);
    lemma_separated(table, s.append(w), pieces);
    assert(s.output + lexemes_of(table, start, 0, pieces) =~= lexemes_of(table, start, 0, pieces));
}

} // verus!
