use crate::lexer::language::Re;
use crate::lexer::lexer::intern;
use crate::lexer::lexer::lookup;
use crate::lexer::lexer::slot;
use crate::lexer::lexer::Lexer;
use crate::lexer::scan::RuleSpec;
use crate::lexer::scan::ScanState;
use crate::lexer::token::Token;
use vstd::prelude::*;
use vstd::std_specs::cmp::PartialEqSpec;

verus! {

/// The modes of the lexer of the Lisp-like surface.
#[derive(Debug, Clone, Copy, Eq, Hash)]
pub enum Mode {
    Normal,
    String,
    Comment,
}

impl PartialEq for Mode {
    fn eq(&self, other: &Self) -> (r: bool) {
        match (*self, *other) {
            (Mode::Normal, Mode::Normal) => true,
            (Mode::String, Mode::String) => true,
            (Mode::Comment, Mode::Comment) => true,
            _ => false,
        }
    }
}

impl vstd::std_specs::cmp::PartialEqSpecImpl for Mode {
    open spec fn obeys_eq_spec() -> bool {
        true
    }

    open spec fn eq_spec(&self, other: &Self) -> bool {
        *self == *other
    }
}

/// The names of the modes of the lexer, each at the index of its mode.
pub open spec fn mode_names() -> Seq<Mode> {
    seq![Mode::Comment, Mode::Normal, Mode::String]
}

/// The index of a mode in the lexer.
pub open spec fn mode_index(mode: Mode) -> nat {
    match mode {
        Mode::Comment => 0,
        Mode::Normal => 1,
        Mode::String => 2,
    }
}

/// Whether the lexemes of the token keep their text: those of a comment
/// and of a string do.
pub open spec fn keeps_span(token: Token) -> bool {
    token is Comment || token is String
}

/// The rule of the lexer for `token` that leads to the mode `to`.
pub open spec fn rule_for(token: Token, to: Mode) -> RuleSpec<Re> {
    RuleSpec { pattern: token.term(), to_mode: mode_index(to), keep_span: keeps_span(token) }
}

/// The tokens of the rules of a mode, in declaration order, each with the
/// mode that it leads to.
pub open spec fn rules_in(mode: Mode) -> Seq<(Token, Mode)> {
    match mode {
        Mode::Comment => seq![(Token::Comment, Mode::Comment), (Token::Newline, Mode::Normal)],
        Mode::String => seq![
            (Token::String, Mode::String),
            (Token::StringEscape, Mode::String),
            (Token::DoubleQuote, Mode::Normal),
        ],
        Mode::Normal => seq![
            (Token::LParen, Mode::Normal),
            (Token::RParen, Mode::Normal),
            (Token::LBrace, Mode::Normal),
            (Token::RBrace, Mode::Normal),
            (Token::LBracket, Mode::Normal),
            (Token::RBracket, Mode::Normal),
            (Token::Quote, Mode::Normal),
            (Token::BackQuote, Mode::Normal),
            (Token::Semicolon, Mode::Comment),
            (Token::DoubleQuote, Mode::String),
            (Token::Comma, Mode::Normal),
            (Token::Whitespace, Mode::Normal),
            (Token::Newline, Mode::Normal),
            (Token::Integer, Mode::Normal),
            (Token::Float, Mode::Normal),
            (Token::Identifier, Mode::Normal),
        ],
    }
}

/// The first `n` rules of a mode as the scan sees them.
pub open spec fn specs_in(mode: Mode, n: nat) -> Seq<RuleSpec<Re>> {
    Seq::new(n, |i: int| rule_for(rules_in(mode)[i].0, rules_in(mode)[i].1))
}

/// The rule table of the lexer.
pub open spec fn turkey_table() -> Seq<Seq<RuleSpec<Re>>> {
    seq![
        specs_in(Mode::Comment, rules_in(Mode::Comment).len()),
        specs_in(Mode::Normal, rules_in(Mode::Normal).len()),
        specs_in(Mode::String, rules_in(Mode::String).len()),
    ]
}

/// Whether the lexer has the first `c`, `n` and `s` rules of the three
/// modes, with their tokens.
pub open spec fn built(lexer: &Lexer<Token, Mode>, c: nat, n: nat, s: nat) -> bool {
    &&& lexer.wf()
    &&& lexer@ == ScanState::initial(0)
    &&& lexer.start() == 0
    &&& lexer.names() == mode_names()
    &&& lexer.table() == seq![
        specs_in(Mode::Comment, c),
        specs_in(Mode::Normal, n),
        specs_in(Mode::String, s),
    ]
    &&& forall|i: nat| i < c ==> #[trigger] lexer.token_of(0, i) == rules_in(Mode::Comment)[i as int].0
    &&& forall|i: nat| i < n ==> #[trigger] lexer.token_of(1, i) == rules_in(Mode::Normal)[i as int].0
    &&& forall|i: nat| i < s ==> #[trigger] lexer.token_of(2, i) == rules_in(Mode::String)[i as int].0
}

/// The index of every mode is the slot of its name.
proof fn lemma_slots(mode: Mode)
    ensures
        slot(mode_names(), mode) == mode_index(mode),
        intern(mode_names(), mode) == mode_names(),
{
    reveal_with_fuel(lookup, 4);
}

/// Adds the next rule of the mode `from`.
fn next_rule(lexer: &mut Lexer<Token, Mode>, token: Token, from: Mode, to: Mode, Ghost(c): Ghost<nat>, Ghost(n): Ghost<nat>, Ghost(s): Ghost<nat>)
    requires
        built(old(lexer), c, n, s),
        ({
            let k = match from {
                Mode::Comment => c,
                Mode::Normal => n,
                Mode::String => s,
            };
            k < rules_in(from).len() && rules_in(from)[k as int] == (token, to)
        }),
    ensures
        built(
            final(lexer),
            if from == Mode::Comment {
                c + 1
            } else {
                c
            },
            if from == Mode::Normal {
                n + 1
            } else {
                n
            },
            if from == Mode::String {
                s + 1
            } else {
                s
            },
        ),
{
    let ghost before = *lexer;
    let regex = token.regex();
    let keep_span = matches!(token, Token::Comment | Token::String);
    lexer.add_rule(&regex, token, keep_span, from, to);
    proof {
        lemma_slots(from);
        lemma_slots(to);
        let f = mode_index(from);
        let k = before.table()[f as int].len();
        assert(lexer.table()[f as int] =~= specs_in(from, k + 1));
        assert(lexer.table() =~= seq![
            specs_in(Mode::Comment, if from == Mode::Comment { c + 1 } else { c }),
            specs_in(Mode::Normal, if from == Mode::Normal { n + 1 } else { n }),
            specs_in(Mode::String, if from == Mode::String { s + 1 } else { s }),
        ]);
    }
}

/// The lexer of the Lisp-like surface: three modes, `Normal` for code,
/// `Comment` from a semicolon to the end of the line, `String` between
/// double quotes, each with its rules in the order of `rules_in`.
pub fn turkey_lexer() -> (lexer: Lexer<Token, Mode>)
    ensures
        lexer.wf(),
        lexer.names() == mode_names(),
        lexer.table() == turkey_table(),
        lexer.start() == mode_index(Mode::Normal),
        lexer@ == ScanState::initial(mode_index(Mode::Normal)),
        forall|m: Mode, i: nat|
            i < rules_in(m).len() ==> #[trigger] lexer.token_of(mode_index(m), i) == rules_in(
                m,
            )[i as int].0,
{
    let mut lexer: Lexer<Token, Mode> = Lexer::new();
    let comment = Token::Comment.regex();
    lexer.add_rule(&comment, Token::Comment, true, Mode::Comment, Mode::Comment);
    let newline = Token::Newline.regex();
    lexer.add_rule(&newline, Token::Newline, false, Mode::Comment, Mode::Normal);
    let string = Token::String.regex();
    lexer.add_rule(&string, Token::String, true, Mode::String, Mode::String);
    proof {
        reveal_with_fuel(lookup, 4);
        assert(lexer.names() =~= mode_names());
        assert(lexer.table()[0] =~= specs_in(Mode::Comment, 2));
        assert(lexer.table()[1] =~= specs_in(Mode::Normal, 0));
        assert(lexer.table()[2] =~= specs_in(Mode::String, 1));
        assert(lexer.table() =~= seq![
            specs_in(Mode::Comment, 2),
            specs_in(Mode::Normal, 0),
            specs_in(Mode::String, 1),
        ]);
        assert(built(&lexer, 2, 0, 1));
    }
    next_rule(&mut lexer, Token::StringEscape, Mode::String, Mode::String, Ghost(2), Ghost(0), Ghost(1));
    next_rule(&mut lexer, Token::DoubleQuote, Mode::String, Mode::Normal, Ghost(2), Ghost(0), Ghost(2));
    next_rule(&mut lexer, Token::LParen, Mode::Normal, Mode::Normal, Ghost(2), Ghost(0), Ghost(3));
    next_rule(&mut lexer, Token::RParen, Mode::Normal, Mode::Normal, Ghost(2), Ghost(1), Ghost(3));
    next_rule(&mut lexer, Token::LBrace, Mode::Normal, Mode::Normal, Ghost(2), Ghost(2), Ghost(3));
    next_rule(&mut lexer, Token::RBrace, Mode::Normal, Mode::Normal, Ghost(2), Ghost(3), Ghost(3));
    next_rule(&mut lexer, Token::LBracket, Mode::Normal, Mode::Normal, Ghost(2), Ghost(4), Ghost(3));
    next_rule(&mut lexer, Token::RBracket, Mode::Normal, Mode::Normal, Ghost(2), Ghost(5), Ghost(3));
    next_rule(&mut lexer, Token::Quote, Mode::Normal, Mode::Normal, Ghost(2), Ghost(6), Ghost(3));
    next_rule(&mut lexer, Token::BackQuote, Mode::Normal, Mode::Normal, Ghost(2), Ghost(7), Ghost(3));
    next_rule(&mut lexer, Token::Semicolon, Mode::Normal, Mode::Comment, Ghost(2), Ghost(8), Ghost(3));
    next_rule(&mut lexer, Token::DoubleQuote, Mode::Normal, Mode::String, Ghost(2), Ghost(9), Ghost(3));
    next_rule(&mut lexer, Token::Comma, Mode::Normal, Mode::Normal, Ghost(2), Ghost(10), Ghost(3));
    next_rule(&mut lexer, Token::Whitespace, Mode::Normal, Mode::Normal, Ghost(2), Ghost(11), Ghost(3));
    next_rule(&mut lexer, Token::Newline, Mode::Normal, Mode::Normal, Ghost(2), Ghost(12), Ghost(3));
    next_rule(&mut lexer, Token::Integer, Mode::Normal, Mode::Normal, Ghost(2), Ghost(13), Ghost(3));
    next_rule(&mut lexer, Token::Float, Mode::Normal, Mode::Normal, Ghost(2), Ghost(14), Ghost(3));
    next_rule(&mut lexer, Token::Identifier, Mode::Normal, Mode::Normal, Ghost(2), Ghost(15), Ghost(3));
    proof {
        lemma_slots(Mode::Normal);
    }
    lexer.set_start_mode(Mode::Normal);
    proof {
        assert(lexer.table() =~= turkey_table());
    }
    lexer
}

} // verus!
