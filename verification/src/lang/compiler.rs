use crate::lex::lexer::Lexer;
use crate::lex::lexer::LexerError;
use crate::lex::nfa::Graph;
use crate::lex::regex::Pattern;
use crate::lex::regex::Regex;
use crate::lex::thompson::law_compiled;
use crate::lex::thompson::law_compiled_dead;
use crate::lexer::scan::Automaton;
use crate::lexer::engine::Lexeme;
use crate::lexer::lexer::intern;
use crate::lexer::lexer::lookup;
use crate::lexer::lexer::slot;
use crate::lexer::scan::lemma_put_total;
use crate::lexer::scan::RuleSpec;
use crate::lexer::scan::ScanState;
use vstd::prelude::*;
use vstd::std_specs::cmp::PartialEqSpec;

verus! {

/// The modes of the lexer of the compiler.
#[derive(Debug, Clone, Copy, Eq, Hash)]
pub enum Mode {
    Default,
    Comment,
    String,
}

impl PartialEq for Mode {
    fn eq(&self, other: &Self) -> (r: bool) {
        match (*self, *other) {
            (Mode::Default, Mode::Default) => true,
            (Mode::Comment, Mode::Comment) => true,
            (Mode::String, Mode::String) => true,
            _ => false,
        }
    }
}

impl vstd::std_specs::cmp::PartialEqSpecImpl for Mode {
    open spec fn obeys_eq_spec() -> bool {
        true
    }

    open spec fn eq_spec(&self, other: &Self) -> bool {
        *self == *other
    }
}

/// The kinds of token of the surface language.
#[derive(Debug, Clone, Copy, PartialEq, Eq)]
pub enum Token {
    LParen,
    RParen,
    LBrace,
    RBrace,
    LBracket,
    RBracket,
    Semicolon,
    Comma,
    Quote,
    BackQuote,
    DoubleQuote,
    Whitespace,
    Newline,
    Integer,
    Float,
    Identifier,
    String,
    StringEscape,
    Comment,
}

/// The pattern of a single code point.
pub open spec fn one(c: char) -> Pattern {
    Pattern::Range(c, c)
}

/// The pattern of one repetition or more.
pub open spec fn plus(p: Pattern) -> Pattern {
    Pattern::Concat(Box::new(p), Box::new(Pattern::Star(Box::new(p))))
}

/// The pattern of `p` or nothing.
pub open spec fn optional(p: Pattern) -> Pattern {
    Pattern::Union(Box::new(Pattern::Epsilon), Box::new(p))
}

/// The pattern of `a` followed by `b`.
pub open spec fn then(a: Pattern, b: Pattern) -> Pattern {
    Pattern::Concat(Box::new(a), Box::new(b))
}

/// The pattern of `a` or `b`.
pub open spec fn either(a: Pattern, b: Pattern) -> Pattern {
    Pattern::Union(Box::new(a), Box::new(b))
}

/// The pattern of a decimal digit.
pub open spec fn digit() -> Pattern {
    Pattern::Range('0', '9')
}

/// The pattern of a letter of the basic Latin alphabet.
pub open spec fn alpha() -> Pattern {
    either(Pattern::Range('a', 'z'), Pattern::Range('A', 'Z'))
}

/// The pattern of the code points of an identifier that are no letters and
/// no digits.
pub open spec fn identifier_symbols() -> Pattern {
    Pattern::NoneOf("(){}[];,'\" \t\n`0123456789"@)
}

/// The pattern of an identifier.
pub open spec fn identifier() -> Pattern {
    then(
        either(alpha(), identifier_symbols()),
        Pattern::Star(Box::new(either(either(alpha(), digit()), identifier_symbols()))),
    )
}

/// The pattern of an integer: digits after an optional sign.
pub open spec fn integer() -> Pattern {
    then(optional(Pattern::OneOf("+-"@)), plus(digit()))
}

/// The pattern of an exponent.
pub open spec fn exponent() -> Pattern {
    then(Pattern::OneOf("eE"@), integer())
}

/// The pattern of a float: an integer, a dot, an integer and an optional
/// exponent; or an integer and an exponent.
pub open spec fn float() -> Pattern {
    either(
        then(then(then(integer(), one('.')), integer()), optional(exponent())),
        then(integer(), exponent()),
    )
}

impl Token {
    /// The pattern of the token.
    pub open spec fn pattern(self) -> Pattern {
        match self {
            Token::LParen => one('('),
            Token::RParen => one(')'),
            Token::LBrace => one('{'),
            Token::RBrace => one('}'),
            Token::LBracket => one('['),
            Token::RBracket => one(']'),
            Token::Semicolon => one(';'),
            Token::Comma => one(','),
            Token::Quote => one('\''),
            Token::BackQuote => one('`'),
            Token::DoubleQuote => one('"'),
            Token::Whitespace => plus(Pattern::OneOf(" \t"@)),
            Token::Newline => one('\n'),
            Token::Integer => integer(),
            Token::Float => float(),
            Token::Identifier => identifier(),
            Token::String => plus(Pattern::NoneOf("\"\\"@)),
            Token::StringEscape => then(one('\\'), Pattern::Range('\0', '\u{10FFFF}')),
            Token::Comment => plus(Pattern::NoneOf("\n"@)),
        }
    }

    /// Whether the lexemes of the token keep their text.
    pub open spec fn keeps_span(self) -> bool {
        self is Integer || self is Float || self is Identifier || self is String
            || self is StringEscape || self is Comment
    }

    /// The expression of the token.
    fn regex(&self) -> (r: Regex)
        ensures
            r@ == self.pattern(),
    {
        match self {
            Token::LParen => Regex::char('('),
            Token::RParen => Regex::char(')'),
            Token::LBrace => Regex::char('{'),
            Token::RBrace => Regex::char('}'),
            Token::LBracket => Regex::char('['),
            Token::RBracket => Regex::char(']'),
            Token::Semicolon => Regex::char(';'),
            Token::Comma => Regex::char(','),
            Token::Quote => Regex::char('\''),
            Token::BackQuote => Regex::char('`'),
            Token::DoubleQuote => Regex::char('"'),
            Token::Whitespace => Regex::one_of(" \t").plus(),
            Token::Newline => Regex::char('\n'),
            Token::Integer => integer_regex(),
            Token::Float => {
                let integer = integer_regex();
                let exponent = Regex::one_of("eE").concat(&integer);
                let float_exp = integer.concat(&exponent);
                let float_frac = integer.concat(&Regex::char('.')).concat(&integer).concat(
                    &exponent.optional(),
                );
                float_frac.union(&float_exp)
            },
            Token::Identifier => {
                let digit = Regex::range('0', '9');
                let alpha = Regex::range('a', 'z').union(&Regex::range('A', 'Z'));
                let alphanumeric = alpha.union(&digit);
                let ident_symbols = Regex::none_of("(){}[];,'\" \t\n`0123456789");
                let ident_start = alpha.union(&ident_symbols);
                let ident_continue = alphanumeric.union(&ident_symbols);
                ident_start.concat(&ident_continue.star())
            },
            Token::String => Regex::none_of("\"\\").plus(),
            Token::StringEscape => Regex::char('\\').concat(&Regex::any()),
            Token::Comment => Regex::none_of("\n").plus(),
        }
    }
}

/// The expression of an integer.
fn integer_regex() -> (r: Regex)
    ensures
        r@ == integer(),
{
    let digit = Regex::range('0', '9');
    let sign = Regex::one_of("+-");
    sign.optional().concat(&digit.plus())
}

/// No pattern of a token weighs more than the machine can hold, and the
/// ranges of every pattern are in order.
proof fn lemma_weight(token: Token)
    ensures
        token.pattern().weight() <= 2000,
        token.pattern().ordered(),
{
    reveal_with_fuel(Pattern::weight, 12);
    reveal_with_fuel(Pattern::ordered, 12);
    reveal_strlit("(){}[];,'\" \t\n`0123456789");
    reveal_strlit("+-");
    reveal_strlit("eE");
    reveal_strlit(" \t");
    reveal_strlit("\"\\");
    reveal_strlit("\n");
}

/// The names of the modes of the lexer, each at the index of its mode.
pub open spec fn mode_names() -> Seq<Mode> {
    seq![Mode::Comment, Mode::Default, Mode::String]
}

/// The index of a mode in the lexer.
pub open spec fn mode_index(mode: Mode) -> nat {
    match mode {
        Mode::Comment => 0,
        Mode::Default => 1,
        Mode::String => 2,
    }
}

/// The rule of the lexer for `token` that leads to the mode `to`.
pub open spec fn rule_for(token: Token, to: Mode) -> RuleSpec<Graph> {
    RuleSpec {
        pattern: token.pattern().compiled(),
        to_mode: mode_index(to),
        keep_span: token.keeps_span(),
    }
}

/// The tokens of the rules of a mode, in declaration order, each with the
/// mode that it leads to.
pub open spec fn rules_in(mode: Mode) -> Seq<(Token, Mode)> {
    match mode {
        Mode::Comment => seq![(Token::Comment, Mode::Comment), (Token::Newline, Mode::Default)],
        Mode::String => seq![
            (Token::String, Mode::String),
            (Token::StringEscape, Mode::String),
            (Token::DoubleQuote, Mode::Default),
        ],
        Mode::Default => seq![
            (Token::LParen, Mode::Default),
            (Token::RParen, Mode::Default),
            (Token::LBrace, Mode::Default),
            (Token::RBrace, Mode::Default),
            (Token::LBracket, Mode::Default),
            (Token::RBracket, Mode::Default),
            (Token::Semicolon, Mode::Comment),
            (Token::Comma, Mode::Default),
            (Token::Quote, Mode::Default),
            (Token::BackQuote, Mode::Default),
            (Token::DoubleQuote, Mode::String),
            (Token::Whitespace, Mode::Default),
            (Token::Newline, Mode::Default),
            (Token::Integer, Mode::Default),
            (Token::Float, Mode::Default),
            (Token::Identifier, Mode::Default),
        ],
    }
}

/// The automaton of the rule of a token accepts exactly the strings of the
/// pattern of the token, and is dead exactly when nothing can follow:
/// after the code points of `w`, no node is active exactly when no string
/// `u` makes `w` followed by `u` a string of the pattern.
pub proof fn law_rule_language(token: Token, to: Mode, w: Seq<char>)
    ensures
        rule_for(token, to).pattern.accepts(w) <==> token.pattern().term().matches(w),
        rule_for(token, to).pattern.dead(w) <==> forall|u: Seq<char>|
            !token.pattern().term().matches(#[trigger] (w + u)),
{
    lemma_weight(token);
    law_compiled(token.pattern(), w);
    law_compiled_dead(token.pattern(), w);
}

/// The first `n` rules of a mode as the scan sees them.
pub open spec fn specs_in(mode: Mode, n: nat) -> Seq<RuleSpec<Graph>> {
    Seq::new(n, |i: int| rule_for(rules_in(mode)[i].0, rules_in(mode)[i].1))
}

/// The rule table of the lexer of the compiler.
pub open spec fn compiler_table() -> Seq<Seq<RuleSpec<Graph>>> {
    seq![
        specs_in(Mode::Comment, rules_in(Mode::Comment).len()),
        specs_in(Mode::Default, rules_in(Mode::Default).len()),
        specs_in(Mode::String, rules_in(Mode::String).len()),
    ]
}

/// Whether the lexer has the first `c`, `d` and `s` rules of the three
/// modes, with their tokens.
pub open spec fn built(lexer: &Lexer<Mode, Token>, c: nat, d: nat, s: nat) -> bool {
    &&& lexer.wf()
    &&& lexer@ == ScanState::initial(0)
    &&& lexer.start() == 0
    &&& lexer.names() == mode_names()
    &&& lexer.table() == seq![
        specs_in(Mode::Comment, c),
        specs_in(Mode::Default, d),
        specs_in(Mode::String, s),
    ]
    &&& forall|i: nat| i < c ==> #[trigger] lexer.token_of(0, i) == rules_in(Mode::Comment)[i as int].0
    &&& forall|i: nat| i < d ==> #[trigger] lexer.token_of(1, i) == rules_in(Mode::Default)[i as int].0
    &&& forall|i: nat| i < s ==> #[trigger] lexer.token_of(2, i) == rules_in(Mode::String)[i as int].0
}

/// The index of every mode is the slot of its name.
proof fn lemma_slots(mode: Mode)
    ensures
        slot(mode_names(), mode) == mode_index(mode),
        intern(mode_names(), mode) == mode_names(),
{
    reveal_with_fuel(lookup, 4);
}

/// Adds the next rule of the mode `from`.
fn next_rule(
    lexer: &mut Lexer<Mode, Token>,
    token: Token,
    from: Mode,
    to: Mode,
    keep_span: bool,
    Ghost(c): Ghost<nat>,
    Ghost(d): Ghost<nat>,
    Ghost(s): Ghost<nat>,
)
    requires
        built(old(lexer), c, d, s),
        keep_span == token.keeps_span(),
        ({
            let k = match from {
                Mode::Comment => c,
                Mode::Default => d,
                Mode::String => s,
            };
            k < rules_in(from).len() && rules_in(from)[k as int] == (token, to)
        }),
    ensures
        built(
            final(lexer),
            if from == Mode::Comment {
                c + 1
            } else {
                c
            },
            if from == Mode::Default {
                d + 1
            } else {
                d
            },
            if from == Mode::String {
                s + 1
            } else {
                s
            },
        ),
{
    let ghost before = *lexer;
    let regex = token.regex();
    proof {
        lemma_weight(token);
    }
    lexer.add_rule(token, &regex, from, to, keep_span);
    proof {
        lemma_slots(from);
        lemma_slots(to);
        let f = mode_index(from);
        let k = before.table()[f as int].len();
        assert(lexer.table()[f as int] =~= specs_in(from, k + 1));
        assert(lexer.table() =~= seq![
            specs_in(Mode::Comment, if from == Mode::Comment { c + 1 } else { c }),
            specs_in(Mode::Default, if from == Mode::Default { d + 1 } else { d }),
            specs_in(Mode::String, if from == Mode::String { s + 1 } else { s }),
        ]);
    }
}

/// A lexer with the three modes, the rules of the mode `Comment` and the
/// first rule of the mode `String`.
#[verifier::rlimit(60)]
fn first_rules() -> (lexer: Lexer<Mode, Token>)
    ensures
        built(&lexer, 2, 0, 1),
{
    let mut lexer: Lexer<Mode, Token> = Lexer::new();
    proof {
        lemma_weight(Token::Comment);
        lemma_weight(Token::Newline);
        lemma_weight(Token::String);
    }
    let comment = Token::Comment.regex();
    lexer.add_rule(Token::Comment, &comment, Mode::Comment, Mode::Comment, true);
    let newline = Token::Newline.regex();
    lexer.add_rule(Token::Newline, &newline, Mode::Comment, Mode::Default, false);
    let string = Token::String.regex();
    lexer.add_rule(Token::String, &string, Mode::String, Mode::String, true);
    proof {
        reveal_with_fuel(lookup, 4);
        assert(lexer.names() =~= mode_names());
        assert(lexer.table()[0] =~= specs_in(Mode::Comment, 2));
        assert(lexer.table()[1] =~= specs_in(Mode::Default, 0));
        assert(lexer.table()[2] =~= specs_in(Mode::String, 1));
        assert(lexer.table() =~= seq![
            specs_in(Mode::Comment, 2),
            specs_in(Mode::Default, 0),
            specs_in(Mode::String, 1),
        ]);
    }
    lexer
}

/// The front end of the compiler: the lexer of the surface language.
pub struct Compiler {
    lexer: Lexer<Mode, Token>,
}

impl Compiler {
    /// The state of the scan of the lexer.
    pub closed spec fn state(&self) -> ScanState {
        self.lexer@
    }

    /// The rule table of the lexer.
    pub closed spec fn table(&self) -> Seq<Seq<RuleSpec<Graph>>> {
        self.lexer.table()
    }

    /// The token of a rule of the lexer.
    pub closed spec fn token_of(&self, mode: nat, rule: nat) -> Token {
        self.lexer.token_of(mode, rule)
    }

    /// Well-formedness: the lexer is well-formed and has the rules of the
    /// surface language.
    pub closed spec fn wf(&self) -> bool {
        &&& self.lexer.wf()
        &&& self.lexer.table() == compiler_table()
        &&& forall|m: Mode, i: nat|
            i < rules_in(m).len() ==> #[trigger] self.lexer.token_of(mode_index(m), i) == rules_in(
                m,
            )[i as int].0
    }

    /// The number of code points that the lexer has committed or holds
    /// pending.
    pub fn consumed(&self) -> (n: usize)
        requires
            self.wf(),
        ensures
            n == self.state().position + self.state().pending.len(),
    {
        self.lexer.consumed()
    }

    /// A compiler whose lexer is at the beginning of a scan in the mode
    /// `Default`.
    pub fn new() -> (compiler: Self)
        ensures
            compiler.wf(),
            compiler.table() == compiler_table(),
            compiler.state() == ScanState::initial(mode_index(Mode::Default)),
            forall|m: Mode, i: nat|
                i < rules_in(m).len() ==> #[trigger] compiler.token_of(mode_index(m), i)
                    == rules_in(m)[i as int].0,
    {
        let mut compiler = Compiler { lexer: Lexer::new() };
        compiler.lexer_init();
        compiler
    }

    /// Gives the lexer the rules of the surface language.
    fn lexer_init(&mut self)
        ensures
            final(self).wf(),
            final(self).state() == ScanState::initial(mode_index(Mode::Default)),
    {
        let mut lexer = first_rules();
        next_rule(&mut lexer, Token::StringEscape, Mode::String, Mode::String, true, Ghost(2), Ghost(0), Ghost(1));
        next_rule(&mut lexer, Token::DoubleQuote, Mode::String, Mode::Default, false, Ghost(2), Ghost(0), Ghost(2));
        next_rule(&mut lexer, Token::LParen, Mode::Default, Mode::Default, false, Ghost(2), Ghost(0), Ghost(3));
        next_rule(&mut lexer, Token::RParen, Mode::Default, Mode::Default, false, Ghost(2), Ghost(1), Ghost(3));
        next_rule(&mut lexer, Token::LBrace, Mode::Default, Mode::Default, false, Ghost(2), Ghost(2), Ghost(3));
        next_rule(&mut lexer, Token::RBrace, Mode::Default, Mode::Default, false, Ghost(2), Ghost(3), Ghost(3));
        next_rule(&mut lexer, Token::LBracket, Mode::Default, Mode::Default, false, Ghost(2), Ghost(4), Ghost(3));
        next_rule(&mut lexer, Token::RBracket, Mode::Default, Mode::Default, false, Ghost(2), Ghost(5), Ghost(3));
        next_rule(&mut lexer, Token::Semicolon, Mode::Default, Mode::Comment, false, Ghost(2), Ghost(6), Ghost(3));
        next_rule(&mut lexer, Token::Comma, Mode::Default, Mode::Default, false, Ghost(2), Ghost(7), Ghost(3));
        next_rule(&mut lexer, Token::Quote, Mode::Default, Mode::Default, false, Ghost(2), Ghost(8), Ghost(3));
        next_rule(&mut lexer, Token::BackQuote, Mode::Default, Mode::Default, false, Ghost(2), Ghost(9), Ghost(3));
        next_rule(&mut lexer, Token::DoubleQuote, Mode::Default, Mode::String, false, Ghost(2), Ghost(10), Ghost(3));
        next_rule(&mut lexer, Token::Whitespace, Mode::Default, Mode::Default, false, Ghost(2), Ghost(11), Ghost(3));
        next_rule(&mut lexer, Token::Newline, Mode::Default, Mode::Default, false, Ghost(2), Ghost(12), Ghost(3));
        next_rule(&mut lexer, Token::Integer, Mode::Default, Mode::Default, true, Ghost(2), Ghost(13), Ghost(3));
        next_rule(&mut lexer, Token::Float, Mode::Default, Mode::Default, true, Ghost(2), Ghost(14), Ghost(3));
        next_rule(&mut lexer, Token::Identifier, Mode::Default, Mode::Default, true, Ghost(2), Ghost(15), Ghost(3));
        proof {
            lemma_slots(Mode::Default);
        }
        lexer.set_start_mode(Mode::Default);
        proof {
            assert(lexer.table() =~= compiler_table());
        }
        self.lexer = lexer;
    }
}


impl Compiler {
    /// Takes every lexeme that is out, and adds it to `lexemes`.
    fn drain(&mut self, lexemes: &mut Vec<Lexeme<Token>>)
        requires
            old(self).wf(),
        ensures
            final(self).wf(),
            final(self).lexer.same_table(&old(self).lexer),
            ({
                let t = old(self).state();
                &&& final(self).state() == ScanState { output: Seq::empty(), ..t }
                &&& final(lexemes)@.len() == old(lexemes)@.len() + t.output.len()
                &&& forall|i: int|
                    0 <= i < old(lexemes)@.len() ==> final(lexemes)@[i] == old(lexemes)@[i]
                &&& forall|i: int|
                    0 <= i < t.output.len() ==> (#[trigger] final(lexemes)@[old(lexemes)@.len()
                        + i]).agrees(t.output[i]) && final(lexemes)@[old(lexemes)@.len()
                        + i].token == old(self).token_of(t.output[i].mode, t.output[i].rule)
            }),
    {
        let ghost t = self.state();
        let ghost base = lexemes@.len();
        let ghost mut k: int = 0;
        proof {
            assert(t.output.skip(0) =~= t.output);
        }
        loop
            invariant
                self.wf(),
                self.lexer.same_table(&old(self).lexer),
                0 <= k <= t.output.len(),
                t == old(self).state(),
                self.state() == (ScanState { output: t.output.skip(k), ..t }),
                lexemes@.len() == base + k,
                base == old(lexemes)@.len(),
                forall|j: int| 0 <= j < base ==> lexemes@[j] == old(lexemes)@[j],
                forall|j: int|
                    0 <= j < k ==> (#[trigger] lexemes@[base + j]).agrees(t.output[j]) && lexemes@[base
                        + j].token == old(self).token_of(t.output[j].mode, t.output[j].rule),
            ensures
                k == t.output.len(),
                self.wf(),
                self.lexer.same_table(&old(self).lexer),
                self.state() == (ScanState { output: t.output.skip(k), ..t }),
                lexemes@.len() == base + k,
                forall|j: int| 0 <= j < base ==> lexemes@[j] == old(lexemes)@[j],
                forall|j: int|
                    0 <= j < k ==> (#[trigger] lexemes@[base + j]).agrees(t.output[j]) && lexemes@[base
                        + j].token == old(self).token_of(t.output[j].mode, t.output[j].rule),
            decreases t.output.len() - k,
        {
            let ghost before = lexemes@;
            match self.lexer.get() {
                Some(lexeme) => {
                    proof {
                        assert(t.output.skip(k)[0] == t.output[k]);
                        assert(t.output.skip(k).skip(1) =~= t.output.skip(k + 1));
                    }
                    lexemes.push(lexeme);
                    proof {
                        assert forall|j: int| 0 <= j < k + 1 implies (#[trigger] lexemes@[base
                            + j]).agrees(t.output[j]) && lexemes@[base + j].token == old(self).token_of(t.output[j].mode, t.output[j].rule) by {
                            if j < k {
                                assert(lexemes@[base + j] == before[base + j]);
                            }
                        }
                        k = k + 1;
                    }
                },
                None => {
                    break ;
                },
            }
        }
        proof {
            assert(t.output.skip(k) =~= Seq::<crate::lexer::scan::LexemeSpec>::empty());
        }
    }

    /// Feeds the code points of `input` to the lexer.
    fn feed(&mut self, input: &str)
        requires
            old(self).wf(),
            old(self).state().position + old(self).state().pending.len() + input@.len()
                < usize::MAX,
        ensures
            final(self).wf(),
            final(self).lexer.same_table(&old(self).lexer),
            final(self).state() == old(self).state().feed(compiler_table(), input@),
    {
        let ghost table = compiler_table();
        let ghost s0 = self.state();
        let n = input.unicode_len();
        let mut i: usize = 0;
        proof {
            assert(input@.take(0) =~= Seq::<char>::empty());
        }
        while i < n
            invariant
                i <= n,
                n == input@.len(),
                self.wf(),
                table == compiler_table(),
                self.lexer.same_table(&old(self).lexer),
                self.state() == s0.feed(table, input@.take(i as int)),
                self.state().position + self.state().pending.len() <= s0.position
                    + s0.pending.len() + i,
                s0.position + s0.pending.len() + n < usize::MAX,
            decreases n - i,
        {
            let c = input.get_char(i);
            proof {
                lemma_put_total(table, self.state(), c);
                assert(input@.take(i + 1).drop_last() =~= input@.take(i as int));
            }
            self.lexer.put(c);
            i += 1;
        }
        proof {
            assert(input@.take(n as int) =~= input@);
        }
    }

    /// Tells the lexer that the input has ended, and returns its error if
    /// it has one.
    fn finish(&mut self) -> (r: Result<(), LexerError>)
        requires
            old(self).wf(),
        ensures
            final(self).wf(),
            final(self).lexer.same_table(&old(self).lexer),
            final(self).state() == old(self).state().finish(compiler_table()),
            match r {
                Ok(_) => final(self).state().error is None,
                Err(e) => final(self).state().error matches Some(f) && e.tells(f),
            },
    {
        self.lexer.finish();
        match self.lexer.get_error() {
            Some(e) => Err(e.clone()),
            None => Ok(()),
        }
    }

    /// Lexes `input` to its end: feeds its code points to the lexer, tells
    /// it that the input has ended, and adds every lexeme that is out to
    /// `lexemes`. Fails with the error of the lexer where the scan failed;
    /// the lexemes before the failure are in `lexemes` then.
    pub fn lex(&mut self, input: &str, lexemes: &mut Vec<Lexeme<Token>>) -> (r: Result<
        (),
        LexerError,
    >)
        requires
            old(self).wf(),
            old(self).state().position + old(self).state().pending.len() + input@.len()
                < usize::MAX,
        ensures
            final(self).wf(),
            ({
                let t = old(self).state().feed(compiler_table(), input@).finish(compiler_table());
                &&& final(self).state() == ScanState { output: Seq::empty(), ..t }
                &&& final(lexemes)@.len() == old(lexemes)@.len() + t.output.len()
                &&& forall|i: int|
                    0 <= i < old(lexemes)@.len() ==> final(lexemes)@[i] == old(lexemes)@[i]
                &&& forall|i: int|
                    0 <= i < t.output.len() ==> (#[trigger] final(lexemes)@[old(lexemes)@.len()
                        + i]).agrees(t.output[i]) && final(lexemes)@[old(lexemes)@.len()
                        + i].token == old(self).token_of(t.output[i].mode, t.output[i].rule)
                &&& match r {
                    Ok(_) => t.error is None,
                    Err(e) => t.error matches Some(f) && e.tells(f),
                }
            }),
    {
        self.feed(input);
        let r = self.finish();
        let ghost mid = *self;
        self.drain(lexemes);
        proof {
            let t = mid.state();
            assert forall|i: int| 0 <= i < t.output.len() implies (#[trigger] lexemes@[old(lexemes)@.len() + i]).agrees(t.output[i]) && lexemes@[old(lexemes)@.len() + i].token == old(self).token_of(t.output[i].mode, t.output[i].rule) by {
                assert(lexemes@[old(lexemes)@.len() + i].token == mid.token_of(
                    t.output[i].mode,
                    t.output[i].rule,
                ));
                mid.lemma_output(i);
            }
        }
        r
    }

    /// Every lexeme that is out names a rule of the table.
    proof fn lemma_output(&self, i: int)
        requires
            self.wf(),
            0 <= i < self.state().output.len(),
        ensures
            self.state().output[i].mode < self.table().len(),
            self.state().output[i].rule < self.table()[self.state().output[i].mode as int].len(),
    {
        self.lexer.lemma_output(i);
    }
}

} // verus!
