use crate::lexer::language::gaps;
use crate::lexer::language::in_range;
use crate::lexer::language::law_dead_is_exact;
use crate::lexer::language::law_star_language;
use crate::lexer::language::lemma_char;
use crate::lexer::language::lemma_concat;
use crate::lexer::language::lemma_constructors_keep_form;
use crate::lexer::language::lemma_one_of;
use crate::lexer::language::lemma_union;
use crate::lexer::language::next_code;
use crate::lexer::language::prev_code;
use crate::lexer::language::sorted_of;
use crate::lexer::language::Re;
use crate::lexer::regex::lemma_between;
use crate::lexer::scan::all_dead;
use crate::lexer::scan::first_accepting;
use crate::lexer::scan::joined;
use crate::lexer::scan::lemma_first_accepting;
use crate::lexer::scan::law_round_trip;
use crate::lexer::scan::lexemes_of;
use crate::lexer::scan::mode_at_end;
use crate::lexer::scan::rules_of;
use crate::lexer::scan::run;
use crate::lexer::scan::separated;
use crate::lexer::scan::winner;
use crate::lexer::scan::Automaton;
use crate::lexer::scan::Piece;
use crate::lexer::scan::RuleSpec;
use crate::lexer::token::alpha;
use crate::lexer::token::digit;
use crate::lexer::token::exponent;
use crate::lexer::token::float;
use crate::lexer::token::identifier;
use crate::lexer::token::identifier_continue;
use crate::lexer::token::identifier_start;
use crate::lexer::token::integer;
use crate::lexer::token::Token;
use crate::lexer::turkey_lexer::mode_index;
use crate::lexer::turkey_lexer::rules_in;
use crate::lexer::turkey_lexer::specs_in;
use crate::lexer::turkey_lexer::turkey_table;
use crate::lexer::turkey_lexer::Mode;
use crate::lexer::regex::lemma_none_of;
use crate::lexer::regex::lemma_range;
use crate::lexer::regex::lemma_sorted_of;
use crate::lexer::regex::strictly_increasing;
use vstd::prelude::*;

verus! {

/// Whether no string of the language of `t` holds the code point `c`.
pub open spec fn free_of(t: Re, c: char) -> bool {
    forall|w: Seq<char>| #[trigger] t.matches(w) ==> !w.contains(c)
}

/// Whether `Empty` occurs in `t` at the root only and the ranges of `t`
/// are in order.
pub open spec fn tidy(t: Re) -> bool {
    t.trimmed() && t.ordered()
}

/// A range that does not hold `c` is free of it, and a range whose bounds
/// are in order is tidy.
pub proof fn lemma_free_range(lo: char, hi: char, c: char)
    ensures
        !in_range(lo, hi, c) ==> free_of(Re::Range(lo, hi), c),
        lo as int <= hi as int ==> tidy(Re::Range(lo, hi)),
        free_of(Re::Epsilon, c),
        tidy(Re::Epsilon),
{
    assert forall|w: Seq<char>| #[trigger] Re::Range(lo, hi).matches(w) && !in_range(lo, hi, c) implies
        !w.contains(c) by {
        lemma_range(lo, hi, w);
        if w.contains(c) {
            let k = choose|k: int| 0 <= k < w.len() && w[k] == c;
            assert(w[0] == c);
        }
    }
    lemma_range(lo, hi, Seq::empty());
    assert forall|w: Seq<char>| #[trigger] Re::Epsilon.matches(w) implies !w.contains(c) by {
        if w.contains(c) {
            let k = choose|k: int| 0 <= k < w.len() && w[k] == c;
        }
    }
}

/// The union and the concatenation of terms that are free of `c` are free
/// of it, and those of tidy terms are tidy.
pub proof fn lemma_free_pair(a: Re, b: Re, c: char)
    ensures
        free_of(a, c) && free_of(b, c) ==> free_of(Re::union(a, b), c) && free_of(
            Re::concat(a, b),
            c,
        ),
        tidy(a) && tidy(b) ==> tidy(Re::union(a, b)) && tidy(Re::concat(a, b)),
{
    if tidy(a) && tidy(b) {
        lemma_constructors_keep_form(a, b);
    }
    if free_of(a, c) && free_of(b, c) {
        assert forall|w: Seq<char>| #[trigger] Re::union(a, b).matches(w) implies !w.contains(c) by {
            lemma_union(a, b, w);
        }
        assert forall|w: Seq<char>| #[trigger] Re::concat(a, b).matches(w) implies !w.contains(c) by {
            lemma_concat(a, b, w);
            let n = w.len() as int;
            let i = choose|i: int|
                #![trigger w.subrange(0, i)]
                0 <= i <= w.len() && a.matches(w.subrange(0, i)) && b.matches(w.subrange(i, n));
            if w.contains(c) {
                let k = choose|k: int| 0 <= k < w.len() && w[k] == c;
                if k < i {
                    assert(w.subrange(0, i)[k] == c);
                    assert(w.subrange(0, i).contains(c));
                } else {
                    assert(w.subrange(i, n)[k - i] == c);
                    assert(w.subrange(i, n).contains(c));
                }
            }
        }
    }
}

/// No string of the repetition of a term that is free of `c` holds `c`.
proof fn lemma_free_repeated(a: Re, c: char, w: Seq<char>)
    requires
        free_of(a, c),
        Re::Star(Box::new(a)).matches(w),
    ensures
        !w.contains(c),
    decreases w.len(),
{
    let n = w.len() as int;
    if n > 0 {
        let i = choose|i: int|
            #![trigger w.subrange(0, i)]
            1 <= i <= w.len() && a.matches(w.subrange(0, i)) && Re::Star(Box::new(a)).matches(
                w.subrange(i, n),
            );
        lemma_free_repeated(a, c, w.subrange(i, n));
        if w.contains(c) {
            let k = choose|k: int| 0 <= k < w.len() && w[k] == c;
            if k < i {
                assert(w.subrange(0, i)[k] == c);
                assert(w.subrange(0, i).contains(c));
            } else {
                assert(w.subrange(i, n)[k - i] == c);
                assert(w.subrange(i, n).contains(c));
            }
        }
    } else {
        if w.contains(c) {
            let k = choose|k: int| 0 <= k < w.len() && w[k] == c;
        }
    }
}

/// The repetitions of a term that is free of `c`, and the term or nothing,
/// are free of it; those of a tidy term are tidy.
pub proof fn lemma_free_repeat(a: Re, c: char)
    ensures
        free_of(a, c) ==> free_of(Re::star(a), c) && free_of(Re::plus(a), c) && free_of(
            Re::opt(a),
            c,
        ),
        tidy(a) ==> tidy(Re::star(a)) && tidy(Re::plus(a)) && tidy(Re::opt(a)),
{
    lemma_free_range('a', 'a', c);
    if tidy(a) {
        lemma_constructors_keep_form(a, a);
    }
    if free_of(a, c) {
        assert forall|w: Seq<char>| #[trigger] Re::star(a).matches(w) implies !w.contains(c) by {
            law_star_language(a, w);
            lemma_free_repeated(a, c, w);
        }
    }
    lemma_free_pair(a, Re::star(a), c);
    lemma_free_pair(a, Re::Epsilon, c);
}

/// The term of one of the code points of `s` is tidy, and free of every
/// code point that `s` does not hold.
pub proof fn lemma_free_one_of(s: Seq<char>, c: char)
    ensures
        tidy(Re::one_of(s)),
        !s.contains(c) ==> free_of(Re::one_of(s), c),
{
    lemma_one_of(s);
    assert forall|w: Seq<char>| #[trigger] Re::one_of(s).matches(w) && !s.contains(c) implies
        !w.contains(c) by {
        if w.contains(c) {
            let k = choose|k: int| 0 <= k < w.len() && w[k] == c;
            assert(w[0] == c);
        }
    }
}

/// The term of the gaps between the first `k + 1` items of a strictly
/// growing sequence is tidy.
proof fn lemma_gaps_tidy(t: Seq<char>, k: nat)
    requires
        strictly_increasing(t),
        k < t.len(),
    ensures
        tidy(gaps(t, k)),
    decreases k,
{
    if k > 0 {
        let a = t[k - 1];
        let b = t[k as int];
        lemma_gaps_tidy(t, (k - 1) as nat);
        lemma_char(a);
        lemma_char(b);
        assert((a as int) < (b as int));
        lemma_between(a, b, a);
        let lo = next_code(a as int) as char;
        let hi = prev_code(b as int) as char;
        if prev_code(b as int) != a as int {
            lemma_free_range(lo, hi, 'a');
            lemma_free_pair(gaps(t, (k - 1) as nat), Re::Range(lo, hi), 'a');
        }
    }
}

/// The term of one code point that is none of `s` is tidy, and free of
/// every code point of `s`.
pub proof fn lemma_free_none_of(s: Seq<char>, c: char)
    ensures
        tidy(Re::none_of(s)),
        s.contains(c) ==> free_of(Re::none_of(s), c),
{
    let t = sorted_of(s);
    lemma_sorted_of(s);
    if t.len() == 0 {
        lemma_free_range('\0', '\u{10FFFF}', c);
    } else {
        let mid = gaps(t, (t.len() - 1) as nat);
        lemma_gaps_tidy(t, (t.len() - 1) as nat);
        let first = t[0];
        let last = t.last();
        lemma_char(first);
        lemma_char(last);
        let below = Re::Range('\0', prev_code(first as int) as char);
        let above = Re::Range(next_code(last as int) as char, '\u{10FFFF}');
        let low = if first as int != 0 {
            Re::union(mid, below)
        } else {
            mid
        };
        if first as int != 0 {
            lemma_free_range('\0', prev_code(first as int) as char, c);
            lemma_free_pair(mid, below, c);
        }
        if last as int != 0x10FFFF {
            lemma_free_range(next_code(last as int) as char, '\u{10FFFF}', c);
            lemma_free_pair(low, above, c);
        }
    }
    assert forall|w: Seq<char>| #[trigger] Re::none_of(s).matches(w) && s.contains(c) implies
        !w.contains(c) by {
        lemma_none_of(s, w);
        if w.contains(c) {
            let k = choose|k: int| 0 <= k < w.len() && w[k] == c;
            assert(w[0] == c);
        }
    }
}

/// Whether a rule of the mode `Normal` is for the token.
pub open spec fn normal_token(token: Token) -> bool {
    token is LParen || token is RParen || token is LBrace || token is RBrace || token is LBracket
        || token is RBracket || token is Quote || token is BackQuote || token is Semicolon
        || token is DoubleQuote || token is Comma || token is Whitespace || token is Newline
        || token is Integer || token is Float || token is Identifier
}

/// Whether `c` is a sign.
pub open spec fn is_sign(c: char) -> bool {
    c == '+' || c == '-'
}

/// Whether `c` is the mark of an exponent.
pub open spec fn is_exponent_mark(c: char) -> bool {
    c == 'e' || c == 'E'
}

/// Whether `c` is a letter of the basic Latin alphabet.
pub open spec fn is_letter(c: char) -> bool {
    in_range('a', 'z', c) || in_range('A', 'Z', c)
}

/// The term of an integer is tidy, and free of every code point that is
/// no digit and no sign.
pub proof fn lemma_integer_term(c: char)
    ensures
        tidy(integer()),
        !in_range('0', '9', c) && !is_sign(c) ==> free_of(integer(), c),
{
    reveal_strlit("-+");
    let sign = Re::one_of("-+"@);
    if !is_sign(c) {
        assert(!"-+"@.contains(c));
    }
    lemma_free_one_of("-+"@, c);
    lemma_free_repeat(sign, c);
    lemma_free_range('0', '9', c);
    lemma_free_repeat(digit(), c);
    lemma_free_pair(Re::opt(sign), Re::plus(digit()), c);
}

/// The term of a float is tidy, and free of every code point that is no
/// digit, no sign, no dot and no mark of an exponent.
pub proof fn lemma_float_term(c: char)
    ensures
        tidy(float()),
        !in_range('0', '9', c) && !is_sign(c) && c != '.' && !is_exponent_mark(c) ==> free_of(
            float(),
            c,
        ),
{
    reveal_strlit("eE");
    lemma_integer_term(c);
    if !is_exponent_mark(c) {
        assert(!"eE"@.contains(c));
    }
    lemma_free_one_of("eE"@, c);
    lemma_free_pair(Re::one_of("eE"@), integer(), c);
    lemma_free_repeat(exponent(), c);
    lemma_free_range('.', '.', c);
    let dot = Re::char('.');
    lemma_free_pair(integer(), dot, c);
    lemma_free_pair(Re::concat(integer(), dot), integer(), c);
    lemma_free_pair(Re::concat(Re::concat(integer(), dot), integer()), Re::opt(exponent()), c);
    lemma_free_pair(integer(), exponent(), c);
    lemma_free_pair(
        Re::concat(Re::concat(Re::concat(integer(), dot), integer()), Re::opt(exponent())),
        Re::concat(integer(), exponent()),
        c,
    );
}

/// The term of blanks is tidy, and free of every code point that is no
/// blank.
pub proof fn lemma_whitespace_term(c: char)
    ensures
        tidy(Token::Whitespace.term()),
        c != ' ' && c != '\t' ==> free_of(Token::Whitespace.term(), c),
{
    reveal_strlit(" \t");
    if c != ' ' && c != '\t' {
        assert(!" \t"@.contains(c));
    }
    lemma_free_one_of(" \t"@, c);
    lemma_free_repeat(Re::one_of(" \t"@), c);
}

/// The term of an identifier is tidy, and free of the opening parenthesis
/// and of the double quote.
proof fn lemma_identifier_term(c: char)
    requires
        c == '(' || c == '"',
    ensures
        tidy(identifier()),
        free_of(identifier(), c),
{
    reveal_strlit("(){}[];,'\"` \t\n0123456789");
    let others = "(){}[];,'\"` \t\n0123456789"@;
    assert(others[0] == '(');
    assert(others[9] == '"');
    assert(others.contains(c));
    lemma_free_none_of(others, c);
    lemma_free_range('a', 'z', c);
    lemma_free_range('A', 'Z', c);
    lemma_free_pair(Re::Range('a', 'z'), Re::Range('A', 'Z'), c);
    lemma_free_pair(alpha(), Re::none_of(others), c);
    lemma_free_range('0', '9', c);
    lemma_free_pair(identifier_start(), digit(), c);
    lemma_free_repeat(identifier_continue(), c);
    lemma_free_pair(identifier_start(), Re::star(identifier_continue()), c);
}

/// The term of every token of the mode `Normal` is tidy; and, for the
/// opening parenthesis and for the double quote, it is free of the code
/// point or the term of that code point alone.
pub proof fn lemma_normal_term(token: Token, c: char)
    requires
        normal_token(token),
        c == '(' || c == '"',
    ensures
        tidy(token.term()),
        free_of(token.term(), c) || token.term() == Re::Range(c, c),
{
    match token {
        Token::LParen => {
            lemma_free_range('(', '(', c);
        },
        Token::RParen => {
            lemma_free_range(')', ')', c);
        },
        Token::LBrace => {
            lemma_free_range('{', '{', c);
        },
        Token::RBrace => {
            lemma_free_range('}', '}', c);
        },
        Token::LBracket => {
            lemma_free_range('[', '[', c);
        },
        Token::RBracket => {
            lemma_free_range(']', ']', c);
        },
        Token::Quote => {
            lemma_free_range('\'', '\'', c);
        },
        Token::BackQuote => {
            lemma_free_range('`', '`', c);
        },
        Token::Semicolon => {
            lemma_free_range(';', ';', c);
        },
        Token::DoubleQuote => {
            lemma_free_range('"', '"', c);
        },
        Token::Comma => {
            lemma_free_range(',', ',', c);
        },
        Token::Newline => {
            lemma_free_range('\n', '\n', c);
        },
        Token::Whitespace => {
            lemma_whitespace_term(c);
        },
        Token::Integer => {
            lemma_integer_term(c);
        },
        Token::Float => {
            lemma_float_term(c);
        },
        Token::Identifier => {
            lemma_identifier_term(c);
        },
        _ => {},
    }
}

/// The rules of the mode `Normal`.
pub open spec fn normal_rules() -> Seq<RuleSpec<Re>> {
    rules_of(turkey_table(), mode_index(Mode::Normal))
}

/// What the rules of the mode `Normal` are: each has the term of a token
/// of that mode, and the first is the rule of the opening parenthesis,
/// which stays in the mode.
pub proof fn lemma_normal_rules(i: int)
    requires
        0 <= i < normal_rules().len(),
    ensures
        normal_rules().len() == 16,
        normal_rules()[i].pattern == rules_in(Mode::Normal)[i].0.term(),
        normal_rules()[i].to_mode == mode_index(rules_in(Mode::Normal)[i].1),
        normal_token(rules_in(Mode::Normal)[i].0),
        rules_in(Mode::Normal)[i].0 is LParen <==> i == 0,
        rules_in(Mode::Normal)[0].1 == Mode::Normal,
{
    let list = rules_in(Mode::Normal);
    assert(list.len() == 16);
    assert(turkey_table()[1] == specs_in(Mode::Normal, 16));
    if i == 0 {
    } else if i == 1 {
    } else if i == 2 {
    } else if i == 3 {
    } else if i == 4 {
    } else if i == 5 {
    } else if i == 6 {
    } else if i == 7 {
    } else if i == 8 {
    } else if i == 9 {
    } else if i == 10 {
    } else if i == 11 {
    } else if i == 12 {
    } else if i == 13 {
    } else if i == 14 {
    } else {
    }
}

/// After two code points or more with an opening parenthesis among them,
/// or with a double quote among them, every rule of the mode `Normal` is
/// dead.
pub proof fn lemma_mark_kills(w: Seq<char>, c: char)
    requires
        c == '(' || c == '"',
        w.len() >= 2,
        w.contains(c),
    ensures
        all_dead(normal_rules(), w),
{
    let rules = normal_rules();
    assert forall|i: int| 0 <= i < rules.len() implies (#[trigger] rules[i]).pattern.dead(w) by {
        let token = rules_in(Mode::Normal)[i].0;
        lemma_normal_rules(i);
        lemma_normal_term(token, c);
        law_dead_is_exact(token.term(), w);
        let k = choose|k: int| 0 <= k < w.len() && w[k] == c;
        assert forall|u: Seq<char>| !token.term().matches(#[trigger] (w + u)) by {
            assert((w + u)[k] == c);
            assert((w + u).contains(c));
            lemma_range(c, c, w + u);
        }
    }
}

/// Where the first rule accepts a string, it wins the string.
pub proof fn lemma_first_wins<P: Automaton>(rules: Seq<RuleSpec<P>>, w: Seq<char>, n: nat)
    requires
        1 <= n <= rules.len(),
        rules[0].pattern.accepts(w),
    ensures
        first_accepting(rules, w, n) == Some(0nat),
    decreases n,
{
    if n > 1 {
        lemma_first_wins(rules, w, (n - 1) as nat);
    } else {
        assert(first_accepting(rules, w, 0) is None);
    }
}

/// Whether the piece has one code point at least and is won, among the
/// rules of the mode `Normal`, by its rule, which stays in the mode.
pub open spec fn wins_in_normal(item: Piece) -> bool {
    &&& item.text.len() >= 1
    &&& winner(normal_rules(), item.text) == Some(item.rule)
    &&& item.rule < normal_rules().len()
    &&& normal_rules()[item.rule as int].to_mode == mode_index(Mode::Normal)
}

/// A string whose code points are each matched by `a` is a string of the
/// repetition of `a`.
pub proof fn lemma_star_each(a: Re, w: Seq<char>)
    requires
        forall|k: int| 0 <= k < w.len() ==> a.matches(seq![#[trigger] w[k]]),
    ensures
        Re::Star(Box::new(a)).matches(w),
        Re::star(a).matches(w),
    decreases w.len(),
{
    let n = w.len() as int;
    law_star_language(a, w);
    if n > 0 {
        let rest = w.subrange(1, n);
        assert forall|k: int| 0 <= k < rest.len() implies a.matches(seq![#[trigger] rest[k]]) by {
            assert(rest[k] == w[k + 1]);
        }
        lemma_star_each(a, rest);
        assert(w.subrange(0, 1) =~= seq![w[0]]);
        assert(a.matches(w.subrange(0, 1)) && Re::Star(Box::new(a)).matches(w.subrange(1, n)));
    }
}

/// A string of `a` followed by a string of `b` is a string of their
/// concatenation.
pub proof fn lemma_concat_matches(a: Re, b: Re, u: Seq<char>, v: Seq<char>)
    requires
        a.matches(u),
        b.matches(v),
    ensures
        Re::concat(a, b).matches(u + v),
{
    let w = u + v;
    let i = u.len() as int;
    lemma_concat(a, b, w);
    assert(w.subrange(0, i) =~= u);
    assert(w.subrange(i, w.len() as int) =~= v);
    assert(a.matches(w.subrange(0, i)) && b.matches(w.subrange(i, w.len() as int)));
}

/// Whether `x` is the text of an integer whose digits start at the index
/// `s`: a sign before them where `s` is 1, and one digit at least.
pub open spec fn integer_text(x: Seq<char>, s: int) -> bool {
    &&& 0 <= s <= 1
    &&& s < x.len()
    &&& s == 1 ==> is_sign(x[0])
    &&& forall|k: int| s <= k < x.len() ==> in_range('0', '9', #[trigger] x[k])
}

/// The text of an integer is a string of the term of an integer.
pub proof fn lemma_integer_matches(x: Seq<char>, s: int)
    requires
        integer_text(x, s),
    ensures
        integer().matches(x),
{
    reveal_strlit("-+");
    let sign = Re::one_of("-+"@);
    let head = x.take(s);
    let digits = x.skip(s);
    lemma_one_of("-+"@);
    lemma_union(sign, Re::Epsilon, head);
    if s == 1 {
        assert(head[0] == x[0]);
        assert("-+"@[0] == '-' && "-+"@[1] == '+');
        assert("-+"@.contains(head[0]));
        assert(sign.matches(head));
    }
    assert(Re::opt(sign).matches(head));
    let first = digits.take(1);
    let rest = digits.skip(1);
    assert(first =~= seq![digits[0]]);
    assert(digits[0] == x[s]);
    lemma_range('0', '9', first);
    assert forall|k: int| 0 <= k < rest.len() implies digit().matches(seq![#[trigger] rest[k]]) by {
        assert(rest[k] == x[s + 1 + k]);
        lemma_range('0', '9', seq![rest[k]]);
    }
    lemma_star_each(digit(), rest);
    lemma_concat_matches(digit(), Re::star(digit()), first, rest);
    assert(first + rest =~= digits);
    lemma_concat_matches(Re::opt(sign), Re::plus(digit()), head, digits);
    assert(head + digits =~= x);
}

/// Whether `e` is the text of an exponent: its mark, then the text of an
/// integer whose digits start at the index `s` after the mark.
pub open spec fn exponent_text(e: Seq<char>, s: int) -> bool {
    &&& e.len() >= 1
    &&& is_exponent_mark(e[0])
    &&& integer_text(e.skip(1), s)
}

/// The text of an exponent is a string of the term of an exponent.
pub proof fn lemma_exponent_matches(e: Seq<char>, s: int)
    requires
        exponent_text(e, s),
    ensures
        exponent().matches(e),
{
    reveal_strlit("eE");
    lemma_one_of("eE"@);
    let mark = e.take(1);
    assert(mark[0] == e[0]);
    assert("eE"@[0] == 'e' && "eE"@[1] == 'E');
    assert("eE"@.contains(mark[0]));
    lemma_integer_matches(e.skip(1), s);
    lemma_concat_matches(Re::one_of("eE"@), integer(), mark, e.skip(1));
    assert(mark + e.skip(1) =~= e);
}

/// Two texts of integers around a dot, and after them nothing or the text
/// of an exponent, are a string of the term of a float.
pub proof fn lemma_dotted_matches(
    whole: Seq<char>,
    s1: int,
    part: Seq<char>,
    s2: int,
    e: Seq<char>,
    s3: int,
)
    requires
        integer_text(whole, s1),
        integer_text(part, s2),
        e.len() == 0 || exponent_text(e, s3),
    ensures
        float().matches(whole + seq!['.'] + part + e),
{
    let dot = Re::char('.');
    lemma_integer_matches(whole, s1);
    lemma_integer_matches(part, s2);
    lemma_range('.', '.', seq!['.']);
    lemma_char('.');
    lemma_concat_matches(integer(), dot, whole, seq!['.']);
    lemma_concat_matches(Re::concat(integer(), dot), integer(), whole + seq!['.'], part);
    lemma_union(exponent(), Re::Epsilon, e);
    if e.len() > 0 {
        lemma_exponent_matches(e, s3);
    }
    lemma_concat_matches(
        Re::concat(Re::concat(integer(), dot), integer()),
        Re::opt(exponent()),
        whole + seq!['.'] + part,
        e,
    );
    lemma_union(
        Re::concat(Re::concat(Re::concat(integer(), dot), integer()), Re::opt(exponent())),
        Re::concat(integer(), exponent()),
        whole + seq!['.'] + part + e,
    );
}

/// The text of an integer followed by the text of an exponent is a string
/// of the term of a float.
pub proof fn lemma_scaled_matches(whole: Seq<char>, s1: int, e: Seq<char>, s3: int)
    requires
        integer_text(whole, s1),
        exponent_text(e, s3),
    ensures
        float().matches(whole + e),
{
    let dot = Re::char('.');
    lemma_integer_matches(whole, s1);
    lemma_exponent_matches(e, s3);
    lemma_concat_matches(integer(), exponent(), whole, e);
    lemma_union(
        Re::concat(Re::concat(Re::concat(integer(), dot), integer()), Re::opt(exponent())),
        Re::concat(integer(), exponent()),
        whole + e,
    );
}

/// A string of letters is a string of the term of an identifier.
pub proof fn lemma_letters_match(x: Seq<char>)
    requires
        x.len() >= 1,
        forall|k: int| 0 <= k < x.len() ==> is_letter(#[trigger] x[k]),
    ensures
        identifier().matches(x),
{
    let others = Re::none_of("(){}[];,'\"` \t\n0123456789"@);
    assert forall|c: char| is_letter(c) implies identifier_start().matches(seq![c])
        && identifier_continue().matches(seq![c]) by {
        lemma_range('a', 'z', seq![c]);
        lemma_range('A', 'Z', seq![c]);
        lemma_union(Re::Range('a', 'z'), Re::Range('A', 'Z'), seq![c]);
        lemma_union(alpha(), others, seq![c]);
        lemma_union(identifier_start(), digit(), seq![c]);
    }
    let first = x.take(1);
    let rest = x.skip(1);
    assert(first =~= seq![x[0]]);
    assert(is_letter(x[0]));
    assert forall|k: int| 0 <= k < rest.len() implies identifier_continue().matches(
        seq![#[trigger] rest[k]],
    ) by {
        assert(rest[k] == x[k + 1]);
        assert(is_letter(x[k + 1]));
    }
    lemma_star_each(identifier_continue(), rest);
    lemma_concat_matches(identifier_start(), Re::star(identifier_continue()), first, rest);
    assert(first + rest =~= x);
}

/// The rule that accepts a string that no rule before it accepts wins the
/// string.
pub proof fn lemma_winner<P: Automaton>(rules: Seq<RuleSpec<P>>, w: Seq<char>, r: nat, n: nat)
    requires
        r < n <= rules.len(),
        rules[r as int].pattern.accepts(w),
        forall|i: int| 0 <= i < r ==> !(#[trigger] rules[i]).pattern.accepts(w),
    ensures
        first_accepting(rules, w, n) == Some(r),
    decreases n,
{
    if n > r + 1 {
        lemma_winner(rules, w, r, (n - 1) as nat);
    } else {
        lemma_first_accepting(rules, w, r);
    }
}

/// Whether the rule of index `i` of the mode `Normal` is one of a single
/// code point.
pub open spec fn single(i: int) -> bool {
    0 <= i <= 10 || i == 12
}

/// The code point of the rule of index `i` of the mode `Normal`, where it
/// is one of a single code point.
pub open spec fn mark_of(i: int) -> char {
    if i == 0 {
        '('
    } else if i == 1 {
        ')'
    } else if i == 2 {
        '{'
    } else if i == 3 {
        '}'
    } else if i == 4 {
        '['
    } else if i == 5 {
        ']'
    } else if i == 6 {
        '\''
    } else if i == 7 {
        '`'
    } else if i == 8 {
        ';'
    } else if i == 9 {
        '"'
    } else if i == 10 {
        ','
    } else {
        '\n'
    }
}

/// No rule of the mode `Normal` before the rule of integers accepts a
/// string that holds a code point that is no mark of the surface and no
/// blank.
pub proof fn lemma_no_mark_accepts(x: Seq<char>, k: int, i: int)
    requires
        0 <= k < x.len(),
        0 <= i <= 12,
        forall|j: int| single(j) ==> x[k] != #[trigger] mark_of(j),
        x[k] != ' ' && x[k] != '\t',
    ensures
        !normal_rules()[i].pattern.accepts(x),
{
    lemma_normal_rules(i);
    if i == 11 {
        lemma_whitespace_term(x[k]);
        assert(x.contains(x[k]));
    } else {
        assert(single(i));
        assert(normal_rules()[i].pattern == Re::Range(mark_of(i), mark_of(i)));
        lemma_range(mark_of(i), mark_of(i), x);
    }
}

/// Whether the code point is none that a rule of a single code point or
/// the rule of blanks reads.
pub open spec fn plain(c: char) -> bool {
    &&& forall|j: int| single(j) ==> c != #[trigger] mark_of(j)
    &&& c != ' '
    &&& c != '\t'
}

/// Digits and letters are plain.
pub proof fn lemma_plain(c: char)
    requires
        in_range('0', '9', c) || is_letter(c),
    ensures
        plain(c),
{
}

/// The text of an integer is won, in the mode `Normal`, by the rule of
/// integers.
pub proof fn lemma_integer_wins(x: Seq<char>, s: int)
    requires
        integer_text(x, s),
    ensures
        wins_in_normal(Piece { text: x, rule: 13 }),
{
    let rules = normal_rules();
    let k = x.len() - 1;
    lemma_normal_rules(13);
    lemma_integer_matches(x, s);
    lemma_plain(x[k]);
    assert forall|i: int| 0 <= i < 13 implies !(#[trigger] rules[i]).pattern.accepts(x) by {
        lemma_no_mark_accepts(x, k, i);
    }
    lemma_winner(rules, x, 13, rules.len());
}

/// A string that holds a code point that no integer holds, ends with a
/// digit and is a string of the term of a float is won, in the mode
/// `Normal`, by the rule of floats.
pub proof fn lemma_float_wins(x: Seq<char>, k: int)
    requires
        float().matches(x),
        x.len() >= 1,
        in_range('0', '9', x.last()),
        0 <= k < x.len(),
        x[k] == '.' || is_exponent_mark(x[k]),
    ensures
        wins_in_normal(Piece { text: x, rule: 14 }),
{
    let rules = normal_rules();
    let last = x.len() - 1;
    lemma_normal_rules(13);
    lemma_normal_rules(14);
    lemma_plain(x[last]);
    assert forall|i: int| 0 <= i < 14 implies !(#[trigger] rules[i]).pattern.accepts(x) by {
        if i < 13 {
            lemma_no_mark_accepts(x, last, i);
        } else {
            lemma_integer_term(x[k]);
            assert(x.contains(x[k]));
        }
    }
    lemma_winner(rules, x, 14, rules.len());
}

/// A string of letters, one of which is no mark of an exponent, is won, in
/// the mode `Normal`, by the rule of identifiers.
pub proof fn lemma_letters_win(x: Seq<char>, k: int)
    requires
        x.len() >= 1,
        forall|j: int| 0 <= j < x.len() ==> is_letter(#[trigger] x[j]),
        0 <= k < x.len(),
        !is_exponent_mark(x[k]),
    ensures
        wins_in_normal(Piece { text: x, rule: 15 }),
{
    let rules = normal_rules();
    lemma_normal_rules(13);
    lemma_normal_rules(14);
    lemma_normal_rules(15);
    lemma_letters_match(x);
    assert(is_letter(x[k]));
    lemma_plain(x[k]);
    assert forall|i: int| 0 <= i < 15 implies !(#[trigger] rules[i]).pattern.accepts(x) by {
        assert(x.contains(x[k]));
        if i < 13 {
            lemma_no_mark_accepts(x, k, i);
        } else if i == 13 {
            lemma_integer_term(x[k]);
        } else {
            lemma_float_term(x[k]);
        }
    }
    lemma_winner(rules, x, 15, rules.len());
}

/// A bracket, a quote or a comma alone is won, in the mode `Normal`, by
/// its own rule.
pub proof fn lemma_mark_wins(i: int)
    requires
        0 <= i <= 7 || i == 10,
    ensures
        wins_in_normal(Piece { text: seq![mark_of(i)], rule: i as nat }),
{
    let rules = normal_rules();
    let x = seq![mark_of(i)];
    lemma_normal_rules(i);
    lemma_char(mark_of(i));
    lemma_range(mark_of(i), mark_of(i), x);
    assert(rules[i].pattern == Re::Range(mark_of(i), mark_of(i)));
    assert forall|j: int| 0 <= j < i implies !(#[trigger] rules[j]).pattern.accepts(x) by {
        lemma_normal_rules(j);
        assert(rules[j].pattern == Re::Range(mark_of(j), mark_of(j)));
        lemma_range(mark_of(j), mark_of(j), x);
    }
    lemma_winner(rules, x, i as nat, rules.len());
}

/// The rules of the mode `String`.
pub open spec fn string_rules() -> Seq<RuleSpec<Re>> {
    rules_of(turkey_table(), mode_index(Mode::String))
}

/// What the rules of the mode `String` are: that of the text of a string
/// and that of an escape, which stay in the mode, and that of the double
/// quote, which leads to the mode `Normal`.
pub proof fn lemma_string_rules()
    ensures
        string_rules().len() == 3,
        string_rules()[0].pattern == Token::String.term(),
        string_rules()[1].pattern == Token::StringEscape.term(),
        string_rules()[2].pattern == Token::DoubleQuote.term(),
        string_rules()[0].to_mode == mode_index(Mode::String),
        string_rules()[2].to_mode == mode_index(Mode::Normal),
{
    let list = rules_in(Mode::String);
    assert(list.len() == 3);
    assert(turkey_table()[2] == specs_in(Mode::String, 3));
}

/// Whether `t` can stand between double quotes as it is: it has one code
/// point at least, and no double quote and no backslash.
pub open spec fn quotable(t: Seq<char>) -> bool {
    &&& t.len() >= 1
    &&& forall|k: int| 0 <= k < t.len() ==> #[trigger] t[k] != '"' && t[k] != '\\'
}

/// The term of the text of a string is tidy, free of the double quote, and
/// has every quotable text.
pub proof fn lemma_string_term(t: Seq<char>)
    ensures
        tidy(Token::String.term()),
        free_of(Token::String.term(), '"'),
        quotable(t) ==> Token::String.term().matches(t),
{
    reveal_strlit("\"\\");
    let ends = "\"\\"@;
    let one = Re::none_of(ends);
    assert(ends[0] == '"' && ends[1] == '\\');
    assert(ends.contains('"'));
    lemma_free_none_of(ends, '"');
    lemma_free_repeat(one, '"');
    if quotable(t) {
        assert forall|k: int| 0 <= k < t.len() implies one.matches(seq![#[trigger] t[k]]) by {
            lemma_none_of(ends, seq![t[k]]);
            if ends.contains(t[k]) {
                let i = choose|i: int| 0 <= i < ends.len() && ends[i] == t[k];
            }
        }
        let first = t.take(1);
        let rest = t.skip(1);
        assert(first =~= seq![t[0]]);
        assert forall|k: int| 0 <= k < rest.len() implies one.matches(seq![#[trigger] rest[k]]) by {
            assert(rest[k] == t[k + 1]);
        }
        lemma_star_each(one, rest);
        lemma_concat_matches(one, Re::star(one), first, rest);
        assert(first + rest =~= t);
    }
}

/// The term of an escape is tidy, and every string of it starts with a
/// backslash.
pub proof fn lemma_escape_term(w: Seq<char>)
    ensures
        tidy(Token::StringEscape.term()),
        Token::StringEscape.term().matches(w) ==> w.len() >= 1 && w[0] == '\\',
{
    let slash = Re::char('\\');
    let any = Re::Range('\0', '\u{10FFFF}');
    lemma_free_range('\\', '\\', 'a');
    lemma_free_range('\0', '\u{10FFFF}', 'a');
    lemma_free_pair(slash, any, 'a');
    lemma_concat(slash, any, w);
    if Token::StringEscape.term().matches(w) {
        let n = w.len() as int;
        let i = choose|i: int|
            #![trigger w.subrange(0, i)]
            0 <= i <= w.len() && slash.matches(w.subrange(0, i)) && any.matches(w.subrange(i, n));
        lemma_range('\\', '\\', w.subrange(0, i));
        assert(w.subrange(0, i)[0] == w[0]);
    }
}

/// After two code points or more that do not start with a backslash and
/// have a double quote among them, every rule of the mode `String` is
/// dead.
pub proof fn lemma_quote_ends(w: Seq<char>)
    requires
        w.len() >= 2,
        w[0] != '\\',
        w.contains('"'),
    ensures
        all_dead(string_rules(), w),
{
    let rules = string_rules();
    lemma_string_rules();
    lemma_string_term(w);
    lemma_escape_term(w);
    lemma_free_range('"', '"', 'a');
    let k = choose|k: int| 0 <= k < w.len() && w[k] == '"';
    assert forall|i: int| 0 <= i < rules.len() implies (#[trigger] rules[i]).pattern.dead(w) by {
        law_dead_is_exact(rules[i].pattern, w);
        assert forall|u: Seq<char>| !rules[i].pattern.matches(#[trigger] (w + u)) by {
            assert((w + u)[k] == '"');
            assert((w + u).contains('"'));
            assert((w + u)[0] == w[0]);
            lemma_escape_term(w + u);
            lemma_range('"', '"', w + u);
        }
    }
}

/// What stands between two opening parentheses: a piece that a rule of the
/// mode `Normal` wins, or a text between double quotes.
pub enum Item {
    /// A piece of the mode `Normal`.
    Plain(Piece),
    /// A text between double quotes.
    Quoted(Seq<char>),
}

/// The opening parenthesis alone.
pub open spec fn paren() -> Piece {
    Piece { text: seq!['('], rule: 0 }
}

/// The pieces of an item: the piece itself; or a double quote, which
/// leads to the mode `String`, the text, and a double quote, which leads
/// back.
pub open spec fn pieces_of(item: Item) -> Seq<Piece> {
    match item {
        Item::Plain(p) => seq![p],
        Item::Quoted(t) => seq![
            Piece { text: seq!['"'], rule: 9 },
            Piece { text: t, rule: 0 },
            Piece { text: seq!['"'], rule: 2 },
        ],
    }
}

/// Whether the item is a piece that a rule of the mode `Normal` wins and
/// that stays in the mode, or a quotable text between double quotes.
pub open spec fn fits(item: Item) -> bool {
    match item {
        Item::Plain(p) => wins_in_normal(p),
        Item::Quoted(t) => quotable(t),
    }
}

/// The pieces of the items, with an opening parenthesis after each item.
pub open spec fn surface(items: Seq<Item>) -> Seq<Piece>
    decreases items.len(),
{
    if items.len() == 0 {
        Seq::empty()
    } else {
        pieces_of(items[0]).push(paren()) + surface(items.drop_first())
    }
}

/// A piece before separated pieces, won by its rule and followed by a code
/// point that kills every rule of its mode, gives separated pieces.
pub proof fn lemma_piece_before<P: Automaton>(
    table: Seq<Seq<RuleSpec<P>>>,
    mode: nat,
    p: Piece,
    rest: Seq<Piece>,
)
    requires
        p.text.len() >= 1,
        winner(rules_of(table, mode), p.text) == Some(p.rule),
        joined(rest).len() > 0 ==> all_dead(rules_of(table, mode), p.text.push(joined(rest)[0])),
        separated(table, rules_of(table, mode)[p.rule as int].to_mode, rest),
    ensures
        separated(table, mode, seq![p] + rest),
        joined(seq![p] + rest) == p.text + joined(rest),
        joined(seq![p] + rest)[0] == p.text[0],
{
    let all = seq![p] + rest;
    assert(all[0] == p);
    assert(all.drop_first() =~= rest);
}

/// Items that fit, each followed by an opening parenthesis, are separated.
pub proof fn lemma_surface(items: Seq<Item>)
    requires
        forall|i: int| 0 <= i < items.len() ==> fits(#[trigger] items[i]),
    ensures
        separated(turkey_table(), mode_index(Mode::Normal), surface(items)),
    decreases items.len(),
{
    let table = turkey_table();
    let rules = normal_rules();
    if items.len() > 0 {
        let others = items.drop_first();
        let tail = surface(others);
        assert(fits(items[0]));
        assert forall|i: int| 0 <= i < others.len() implies fits(#[trigger] others[i]) by {
            assert(others[i] == items[i + 1]);
        }
        lemma_surface(others);
        lemma_normal_rules(0);
        lemma_normal_rules(9);
        lemma_string_rules();
        // The parenthesis after the item.
        let p = paren().text;
        lemma_range('(', '(', p);
        lemma_char('(');
        lemma_first_wins(rules, p, rules.len());
        if joined(tail).len() > 0 {
            let pc = p.push(joined(tail)[0]);
            assert(pc[0] == '(');
            lemma_mark_kills(pc, '(');
        }
        lemma_piece_before(table, 1, paren(), tail);
        let a = seq![paren()] + tail;
        match items[0] {
            Item::Plain(x) => {
                let xc = x.text.push('(');
                assert(xc[x.text.len() as int] == '(');
                lemma_mark_kills(xc, '(');
                lemma_piece_before(table, 1, x, a);
                assert(surface(items) =~= seq![x] + a);
            },
            Item::Quoted(t) => {
                let quote = seq!['"'];
                let closing = Piece { text: quote, rule: 2 };
                let body = Piece { text: t, rule: 0 };
                let opening = Piece { text: quote, rule: 9 };
                let srules = string_rules();
                lemma_char('"');
                lemma_range('"', '"', quote);
                lemma_string_term(quote);
                lemma_string_term(t);
                lemma_escape_term(quote);
                // The closing quote.
                assert(quote.contains('"')) by {
                    assert(quote[0] == '"');
                }
                assert forall|i: int| 0 <= i < 2 implies !(#[trigger] srules[i]).pattern.accepts(
                    quote,
                ) by {}
                lemma_winner(srules, quote, 2, 3);
                let qc = quote.push('(');
                assert(qc[0] == '"');
                lemma_quote_ends(qc);
                lemma_piece_before(table, 2, closing, a);
                let b = seq![closing] + a;
                // The text.
                lemma_first_wins(srules, t, 3);
                let tc = t.push('"');
                assert(tc[t.len() as int] == '"');
                assert(tc[0] == t[0]);
                lemma_quote_ends(tc);
                lemma_piece_before(table, 2, body, b);
                let c = seq![body] + b;
                // The opening quote.
                assert forall|i: int| 0 <= i < 9 implies !(#[trigger] rules[i]).pattern.accepts(
                    quote,
                ) by {
                    lemma_normal_rules(i);
                    assert(rules[i].pattern == Re::Range(mark_of(i), mark_of(i)));
                    lemma_range(mark_of(i), mark_of(i), quote);
                }
                assert(rules[9].pattern == Re::Range('"', '"'));
                lemma_winner(rules, quote, 9, rules.len());
                let oc = quote.push(t[0]);
                assert(oc[0] == '"');
                lemma_mark_kills(oc, '"');
                assert(rules[9].to_mode == 2);
                lemma_piece_before(table, 1, opening, c);
                assert(surface(items) =~= seq![opening] + c);
            },
        }
    }
}

/// Round trip on the surface: items that fit, each followed by an opening
/// parenthesis, lex without an error to exactly the lexemes of their
/// pieces and one for each parenthesis, in their order. An item is a text
/// that a rule of the mode `Normal` wins and that stays in the mode, which
/// gives one lexeme of that rule; or a quotable text between double
/// quotes, which gives a double quote, a string and a double quote.
pub proof fn law_surface_round_trip(items: Seq<Item>)
    requires
        forall|i: int| 0 <= i < items.len() ==> fits(#[trigger] items[i]),
    ensures
        run(turkey_table(), mode_index(Mode::Normal), joined(surface(items))).output
            == lexemes_of(turkey_table(), mode_index(Mode::Normal), 0, surface(items)),
        run(turkey_table(), mode_index(Mode::Normal), joined(surface(items))).error is None,
        run(turkey_table(), mode_index(Mode::Normal), joined(surface(items))).mode
            == mode_index(Mode::Normal),
{
    lemma_surface(items);
    law_round_trip(turkey_table(), mode_index(Mode::Normal), surface(items));
    lemma_ends_in_normal(items);
}

/// The scan of items that fit ends in the mode `Normal`.
proof fn lemma_ends_in_normal(items: Seq<Item>)
    requires
        forall|i: int| 0 <= i < items.len() ==> fits(#[trigger] items[i]),
    ensures
        mode_at_end(turkey_table(), mode_index(Mode::Normal), surface(items)) == mode_index(
            Mode::Normal,
        ),
    decreases items.len(),
{
    let table = turkey_table();
    if items.len() > 0 {
        let others = items.drop_first();
        let tail = surface(others);
        assert(fits(items[0]));
        assert forall|i: int| 0 <= i < others.len() implies fits(#[trigger] others[i]) by {
            assert(others[i] == items[i + 1]);
        }
        lemma_ends_in_normal(others);
        lemma_normal_rules(0);
        lemma_normal_rules(9);
        lemma_string_rules();
        let a = seq![paren()] + tail;
        assert(a[0] == paren());
        assert(a.drop_first() =~= tail);
        assert(mode_at_end(table, 1, a) == 1);
        match items[0] {
            Item::Plain(x) => {
                let all = seq![x] + a;
                assert(surface(items) =~= all);
                assert(all[0] == x);
                assert(all.drop_first() =~= a);
            },
            Item::Quoted(t) => {
                let quote = seq!['"'];
                let closing = Piece { text: quote, rule: 2 };
                let body = Piece { text: t, rule: 0 };
                let opening = Piece { text: quote, rule: 9 };
                let b = seq![closing] + a;
                let c = seq![body] + b;
                let all = seq![opening] + c;
                assert(surface(items) =~= all);
                assert(b[0] == closing);
                assert(b.drop_first() =~= a);
                assert(mode_at_end(table, 2, b) == 1);
                assert(c[0] == body);
                assert(c.drop_first() =~= b);
                assert(mode_at_end(table, 2, c) == 1);
                assert(all[0] == opening);
                assert(all.drop_first() =~= c);
            },
        }
    }
}

/// Two texts of integers around a dot, and after them nothing or the text
/// of an exponent, are won, in the mode `Normal`, by the rule of floats.
pub proof fn lemma_dotted_wins(
    whole: Seq<char>,
    s1: int,
    part: Seq<char>,
    s2: int,
    e: Seq<char>,
    s3: int,
)
    requires
        integer_text(whole, s1),
        integer_text(part, s2),
        e.len() == 0 || exponent_text(e, s3),
    ensures
        wins_in_normal(Piece { text: whole + seq!['.'] + part + e, rule: 14 }),
{
    let x = whole + seq!['.'] + part + e;
    lemma_dotted_matches(whole, s1, part, s2, e, s3);
    assert(x[whole.len() as int] == '.');
    if e.len() == 0 {
        assert(x.last() == part[part.len() - 1]);
    } else {
        let digits = e.skip(1);
        assert(x.last() == e[e.len() - 1]);
        assert(e[e.len() - 1] == digits[digits.len() - 1]);
    }
    lemma_float_wins(x, whole.len() as int);
}

/// The text of an integer followed by the text of an exponent is won, in
/// the mode `Normal`, by the rule of floats.
pub proof fn lemma_scaled_wins(whole: Seq<char>, s1: int, e: Seq<char>, s3: int)
    requires
        integer_text(whole, s1),
        exponent_text(e, s3),
    ensures
        wins_in_normal(Piece { text: whole + e, rule: 14 }),
{
    let x = whole + e;
    let digits = e.skip(1);
    lemma_scaled_matches(whole, s1, e, s3);
    assert(x[whole.len() as int] == e[0]);
    assert(x.last() == e[e.len() - 1]);
    assert(e[e.len() - 1] == digits[digits.len() - 1]);
    lemma_float_wins(x, whole.len() as int);
}

/// The text `1234.1234` is won, in the mode `Normal`, by the rule of floats.
proof fn lemma_float_text_a()
    ensures
        wins_in_normal(Piece { text: "1234.1234"@, rule: 14 }),
{
    reveal_strlit("1234.1234");
    let whole = seq!['1', '2', '3', '4'];
    let part = seq!['1', '2', '3', '4'];
    let e = Seq::<char>::empty();
    assert("1234.1234"@ =~= whole + seq!['.'] + part + e);
    lemma_dotted_wins(whole, 0, part, 0, e, 0);
}

/// The text `+1234.1234` is won, in the mode `Normal`, by the rule of floats.
proof fn lemma_float_text_b()
    ensures
        wins_in_normal(Piece { text: "+1234.1234"@, rule: 14 }),
{
    reveal_strlit("+1234.1234");
    let whole = seq!['+', '1', '2', '3', '4'];
    let part = seq!['1', '2', '3', '4'];
    let e = Seq::<char>::empty();
    assert("+1234.1234"@ =~= whole + seq!['.'] + part + e);
    lemma_dotted_wins(whole, 1, part, 0, e, 0);
}

/// The text `-1234.1234` is won, in the mode `Normal`, by the rule of floats.
proof fn lemma_float_text_c()
    ensures
        wins_in_normal(Piece { text: "-1234.1234"@, rule: 14 }),
{
    reveal_strlit("-1234.1234");
    let whole = seq!['-', '1', '2', '3', '4'];
    let part = seq!['1', '2', '3', '4'];
    let e = Seq::<char>::empty();
    assert("-1234.1234"@ =~= whole + seq!['.'] + part + e);
    lemma_dotted_wins(whole, 1, part, 0, e, 0);
}

/// The text `1e10` is won, in the mode `Normal`, by the rule of floats.
proof fn lemma_float_text_d()
    ensures
        wins_in_normal(Piece { text: "1e10"@, rule: 14 }),
{
    reveal_strlit("1e10");
    let whole = seq!['1'];
    let e = seq!['e', '1', '0'];
    assert(e.skip(1) =~= seq!['1', '0']);
    assert("1e10"@ =~= whole + e);
    lemma_scaled_wins(whole, 0, e, 0);
}

/// The text `+1e10` is won, in the mode `Normal`, by the rule of floats.
proof fn lemma_float_text_e()
    ensures
        wins_in_normal(Piece { text: "+1e10"@, rule: 14 }),
{
    reveal_strlit("+1e10");
    let whole = seq!['+', '1'];
    let e = seq!['e', '1', '0'];
    assert(e.skip(1) =~= seq!['1', '0']);
    assert("+1e10"@ =~= whole + e);
    lemma_scaled_wins(whole, 1, e, 0);
}

/// The text `-1e10` is won, in the mode `Normal`, by the rule of floats.
proof fn lemma_float_text_f()
    ensures
        wins_in_normal(Piece { text: "-1e10"@, rule: 14 }),
{
    reveal_strlit("-1e10");
    let whole = seq!['-', '1'];
    let e = seq!['e', '1', '0'];
    assert(e.skip(1) =~= seq!['1', '0']);
    assert("-1e10"@ =~= whole + e);
    lemma_scaled_wins(whole, 1, e, 0);
}

/// The text `1.0e10` is won, in the mode `Normal`, by the rule of floats.
proof fn lemma_float_text_g()
    ensures
        wins_in_normal(Piece { text: "1.0e10"@, rule: 14 }),
{
    reveal_strlit("1.0e10");
    let whole = seq!['1'];
    let part = seq!['0'];
    let e = seq!['e', '1', '0'];
    assert(e.skip(1) =~= seq!['1', '0']);
    assert("1.0e10"@ =~= whole + seq!['.'] + part + e);
    lemma_dotted_wins(whole, 0, part, 0, e, 0);
}

/// The text `+1.0e10` is won, in the mode `Normal`, by the rule of floats.
proof fn lemma_float_text_h()
    ensures
        wins_in_normal(Piece { text: "+1.0e10"@, rule: 14 }),
{
    reveal_strlit("+1.0e10");
    let whole = seq!['+', '1'];
    let part = seq!['0'];
    let e = seq!['e', '1', '0'];
    assert(e.skip(1) =~= seq!['1', '0']);
    assert("+1.0e10"@ =~= whole + seq!['.'] + part + e);
    lemma_dotted_wins(whole, 1, part, 0, e, 0);
}

/// The text `-1.0e10` is won, in the mode `Normal`, by the rule of floats.
proof fn lemma_float_text_i()
    ensures
        wins_in_normal(Piece { text: "-1.0e10"@, rule: 14 }),
{
    reveal_strlit("-1.0e10");
    let whole = seq!['-', '1'];
    let part = seq!['0'];
    let e = seq!['e', '1', '0'];
    assert(e.skip(1) =~= seq!['1', '0']);
    assert("-1.0e10"@ =~= whole + seq!['.'] + part + e);
    lemma_dotted_wins(whole, 1, part, 0, e, 0);
}

/// The text `1.0e-10` is won, in the mode `Normal`, by the rule of floats.
proof fn lemma_float_text_j()
    ensures
        wins_in_normal(Piece { text: "1.0e-10"@, rule: 14 }),
{
    reveal_strlit("1.0e-10");
    let whole = seq!['1'];
    let part = seq!['0'];
    let e = seq!['e', '-', '1', '0'];
    assert(e.skip(1) =~= seq!['-', '1', '0']);
    assert("1.0e-10"@ =~= whole + seq!['.'] + part + e);
    lemma_dotted_wins(whole, 0, part, 0, e, 1);
}

/// The text `+1.0e-10` is won, in the mode `Normal`, by the rule of floats.
proof fn lemma_float_text_k()
    ensures
        wins_in_normal(Piece { text: "+1.0e-10"@, rule: 14 }),
{
    reveal_strlit("+1.0e-10");
    let whole = seq!['+', '1'];
    let part = seq!['0'];
    let e = seq!['e', '-', '1', '0'];
    assert(e.skip(1) =~= seq!['-', '1', '0']);
    assert("+1.0e-10"@ =~= whole + seq!['.'] + part + e);
    lemma_dotted_wins(whole, 1, part, 0, e, 1);
}

/// The text `-1.0e-10` is won, in the mode `Normal`, by the rule of floats.
proof fn lemma_float_text_l()
    ensures
        wins_in_normal(Piece { text: "-1.0e-10"@, rule: 14 }),
{
    reveal_strlit("-1.0e-10");
    let whole = seq!['-', '1'];
    let part = seq!['0'];
    let e = seq!['e', '-', '1', '0'];
    assert(e.skip(1) =~= seq!['-', '1', '0']);
    assert("-1.0e-10"@ =~= whole + seq!['.'] + part + e);
    lemma_dotted_wins(whole, 1, part, 0, e, 1);
}

/// The text `1.0e+10` is won, in the mode `Normal`, by the rule of floats.
proof fn lemma_float_text_m()
    ensures
        wins_in_normal(Piece { text: "1.0e+10"@, rule: 14 }),
{
    reveal_strlit("1.0e+10");
    let whole = seq!['1'];
    let part = seq!['0'];
    let e = seq!['e', '+', '1', '0'];
    assert(e.skip(1) =~= seq!['+', '1', '0']);
    assert("1.0e+10"@ =~= whole + seq!['.'] + part + e);
    lemma_dotted_wins(whole, 0, part, 0, e, 1);
}

/// The text `+1.0e+10` is won, in the mode `Normal`, by the rule of floats.
proof fn lemma_float_text_n()
    ensures
        wins_in_normal(Piece { text: "+1.0e+10"@, rule: 14 }),
{
    reveal_strlit("+1.0e+10");
    let whole = seq!['+', '1'];
    let part = seq!['0'];
    let e = seq!['e', '+', '1', '0'];
    assert(e.skip(1) =~= seq!['+', '1', '0']);
    assert("+1.0e+10"@ =~= whole + seq!['.'] + part + e);
    lemma_dotted_wins(whole, 1, part, 0, e, 1);
}

/// The text `-1.0e+10` is won, in the mode `Normal`, by the rule of floats.
proof fn lemma_float_text_o()
    ensures
        wins_in_normal(Piece { text: "-1.0e+10"@, rule: 14 }),
{
    reveal_strlit("-1.0e+10");
    let whole = seq!['-', '1'];
    let part = seq!['0'];
    let e = seq!['e', '+', '1', '0'];
    assert(e.skip(1) =~= seq!['+', '1', '0']);
    assert("-1.0e+10"@ =~= whole + seq!['.'] + part + e);
    lemma_dotted_wins(whole, 1, part, 0, e, 1);
}

/// The floats of the alphabet of the surface.
pub open spec fn float_items() -> Seq<Item> {
    seq![
        Item::Plain(Piece { text: "1234.1234"@, rule: 14 }),
        Item::Plain(Piece { text: "+1234.1234"@, rule: 14 }),
        Item::Plain(Piece { text: "-1234.1234"@, rule: 14 }),
        Item::Plain(Piece { text: "1e10"@, rule: 14 }),
        Item::Plain(Piece { text: "+1e10"@, rule: 14 }),
        Item::Plain(Piece { text: "-1e10"@, rule: 14 }),
        Item::Plain(Piece { text: "1.0e10"@, rule: 14 }),
        Item::Plain(Piece { text: "+1.0e10"@, rule: 14 }),
        Item::Plain(Piece { text: "-1.0e10"@, rule: 14 }),
        Item::Plain(Piece { text: "1.0e-10"@, rule: 14 }),
        Item::Plain(Piece { text: "+1.0e-10"@, rule: 14 }),
        Item::Plain(Piece { text: "-1.0e-10"@, rule: 14 }),
        Item::Plain(Piece { text: "1.0e+10"@, rule: 14 }),
        Item::Plain(Piece { text: "+1.0e+10"@, rule: 14 }),
        Item::Plain(Piece { text: "-1.0e+10"@, rule: 14 }),
    ]
}

/// Every float of the alphabet fits.
proof fn lemma_float_items(k: int)
    requires
        0 <= k < float_items().len(),
    ensures
        float_items().len() == 15,
        fits(float_items()[k]),
{
    if k == 0 {
        lemma_float_text_a();
    } else if k == 1 {
        lemma_float_text_b();
    } else if k == 2 {
        lemma_float_text_c();
    } else if k == 3 {
        lemma_float_text_d();
    } else if k == 4 {
        lemma_float_text_e();
    } else if k == 5 {
        lemma_float_text_f();
    } else if k == 6 {
        lemma_float_text_g();
    } else if k == 7 {
        lemma_float_text_h();
    } else if k == 8 {
        lemma_float_text_i();
    } else if k == 9 {
        lemma_float_text_j();
    } else if k == 10 {
        lemma_float_text_k();
    } else if k == 11 {
        lemma_float_text_l();
    } else if k == 12 {
        lemma_float_text_m();
    } else if k == 13 {
        lemma_float_text_n();
    } else {
        lemma_float_text_o();
    }
}

/// The brackets, the quotes and the comma of the alphabet of the surface.
pub open spec fn mark_items() -> Seq<Item> {
    seq![
        Item::Plain(Piece { text: seq!['('], rule: 0 }),
        Item::Plain(Piece { text: seq![')'], rule: 1 }),
        Item::Plain(Piece { text: seq!['['], rule: 4 }),
        Item::Plain(Piece { text: seq![']'], rule: 5 }),
        Item::Plain(Piece { text: seq!['{'], rule: 2 }),
        Item::Plain(Piece { text: seq!['}'], rule: 3 }),
        Item::Plain(Piece { text: seq!['\''], rule: 6 }),
        Item::Plain(Piece { text: seq!['`'], rule: 7 }),
        Item::Plain(Piece { text: seq![','], rule: 10 }),
    ]
}

/// Every bracket, quote and comma of the alphabet fits.
proof fn lemma_mark_items(k: int)
    requires
        0 <= k < mark_items().len(),
    ensures
        mark_items().len() == 9,
        fits(mark_items()[k]),
{
    if k == 0 {
        lemma_mark_wins(0);
    } else if k == 1 {
        lemma_mark_wins(1);
    } else if k == 2 {
        lemma_mark_wins(4);
    } else if k == 3 {
        lemma_mark_wins(5);
    } else if k == 4 {
        lemma_mark_wins(2);
    } else if k == 5 {
        lemma_mark_wins(3);
    } else if k == 6 {
        lemma_mark_wins(6);
    } else if k == 7 {
        lemma_mark_wins(7);
    } else {
        lemma_mark_wins(10);
    }
}

/// The string, the identifier and the integers of the alphabet of the
/// surface.
pub open spec fn word_items() -> Seq<Item> {
    seq![
        Item::Quoted("string"@),
        Item::Plain(Piece { text: "identifier"@, rule: 15 }),
        Item::Plain(Piece { text: "1234"@, rule: 13 }),
        Item::Plain(Piece { text: "+1234"@, rule: 13 }),
        Item::Plain(Piece { text: "-1234"@, rule: 13 }),
    ]
}

/// The string, the identifier and every integer of the alphabet fit.
proof fn lemma_word_items(k: int)
    requires
        0 <= k < word_items().len(),
    ensures
        word_items().len() == 5,
        fits(word_items()[k]),
{
    reveal_strlit("string");
    reveal_strlit("identifier");
    reveal_strlit("1234");
    reveal_strlit("+1234");
    reveal_strlit("-1234");
    if k == 0 {
        assert(quotable("string"@));
    } else if k == 1 {
        lemma_letters_win("identifier"@, 0);
    } else if k == 2 {
        lemma_integer_wins("1234"@, 0);
    } else if k == 3 {
        lemma_integer_wins("+1234"@, 1);
    } else {
        lemma_integer_wins("-1234"@, 1);
    }
}

/// The alphabet of the surface: brackets, quotes and the comma; a string,
/// an identifier and integers; and floats.
pub open spec fn alphabet() -> Seq<Item> {
    mark_items() + word_items() + float_items()
}

/// Round trip on the alphabet of the surface: whatever items of the
/// alphabet are chosen, in whatever number and order, the text of each
/// followed by an opening parenthesis, the scan ends without an error in
/// the mode `Normal`, and emits exactly the lexemes of the items, each
/// followed by that of the parenthesis: one lexeme of its rule for an item
/// that is no string, and a double quote, a string and a double quote for
/// the string.
pub proof fn law_alphabet_round_trip(items: Seq<Item>)
    requires
        forall|i: int| 0 <= i < items.len() ==> alphabet().contains(#[trigger] items[i]),
    ensures
        run(turkey_table(), mode_index(Mode::Normal), joined(surface(items))).output
            == lexemes_of(turkey_table(), mode_index(Mode::Normal), 0, surface(items)),
        run(turkey_table(), mode_index(Mode::Normal), joined(surface(items))).error is None,
        run(turkey_table(), mode_index(Mode::Normal), joined(surface(items))).mode
            == mode_index(Mode::Normal),
{
    assert forall|i: int| 0 <= i < items.len() implies fits(#[trigger] items[i]) by {
        let all = alphabet();
        let k = choose|k: int| 0 <= k < all.len() && all[k] == items[i];
        lemma_mark_items(0);
        lemma_word_items(0);
        lemma_float_items(0);
        if k < 9 {
            lemma_mark_items(k);
        } else if k < 14 {
            lemma_word_items(k - 9);
        } else {
            lemma_float_items(k - 14);
        }
    }
    law_surface_round_trip(items);
}

} // verus!
