use vstd::prelude::*;

use crate::lexer::HtmlNode;
use crate::lexer::LexAction;
use crate::lexer::LexState;
use crate::lexer::LexerContext;
use crate::lexer::NumberPart;
use crate::lexer::all_digits;
use crate::lexer::at;
use crate::lexer::comment_close;
use crate::lexer::comment_open;
use crate::lexer::decimal_value;
use crate::lexer::digit_value;
use crate::lexer::digits_end;
use crate::lexer::has_backslash;
use crate::lexer::ident_end;
use crate::lexer::is_alpha;
use crate::lexer::is_digit;
use crate::lexer::is_ident_char;
use crate::lexer::is_ws;
use crate::lexer::lemma_find_close_bounds;
use crate::lexer::lex_at;
use crate::lexer::lex_node;
use crate::lexer::lex_nodes;
use crate::lexer::lex_number;
use crate::lexer::lex_string;
use crate::lexer::number_next;
use crate::lexer::number_tail;
use crate::lexer::run_node;
use crate::lexer::step;
use crate::lexer::string_close;
use crate::patterns::is_valid_tokens;
use crate::position::Position;
use crate::tokens::TokenView;

verus! {

proof fn lemma_ident_end_bounds(c: Seq<char>, i: int)
    requires
        0 <= i <= c.len(),
    ensures
        i <= ident_end(c, i) <= c.len(),
    decreases c.len() - i,
{
    if 0 <= i < c.len() && is_ident_char(c[i]) {
        lemma_ident_end_bounds(c, i + 1);
    }
}

proof fn lemma_digits_end_bounds(c: Seq<char>, i: int)
    requires
        0 <= i <= c.len(),
    ensures
        i <= digits_end(c, i) <= c.len(),
    decreases c.len() - i,
{
    if 0 <= i < c.len() && is_digit(c[i]) {
        lemma_digits_end_bounds(c, i + 1);
    }
}

proof fn lemma_number_tail_bounds(c: Seq<char>, j: int, part: NumberPart)
    requires
        0 <= j <= c.len(),
    ensures
        j <= number_tail(c, j, part).0 <= c.len(),
    decreases c.len() - j,
{
    if j < c.len() {
        if let Some(next) = number_next(c[j], part) {
            lemma_number_tail_bounds(c, j + 1, next);
        }
    }
}

proof fn lemma_string_close_bounds(c: Seq<char>, i: int, d: char)
    requires
        0 <= i,
    ensures
        string_close(c, i, d) matches Some(e) ==> i <= e < c.len(),
    decreases c.len() - i,
{
    if !(i < 0 || i >= c.len()) {
        if c[i] == '\\' {
            if i + 1 < c.len() {
                lemma_string_close_bounds(c, i + 2, d);
            }
        } else if c[i] != d {
            lemma_string_close_bounds(c, i + 1, d);
        }
    }
}

/// Each step of the lexer moves its cursor forward and stays within the
/// text, whatever the text holds, malformed comments included: lexing a text
/// ends after at most as many steps as it has characters.
pub proof fn lemma_lexing_progresses(s: LexState, c: Seq<char>)
    requires
        0 <= s.cursor < c.len(),
    ensures
        s.cursor < step(s, c).cursor <= c.len(),
{
    let i = s.cursor;
    lemma_find_close_bounds(c, i);
    lemma_ident_end_bounds(c, i + 1);
    lemma_string_close_bounds(c, i + 1, c[i]);
    if is_digit(c[i]) {
        lemma_digits_end_bounds(c, i + 1);
        assert(digits_end(c, i) == digits_end(c, i + 1));
        lemma_number_tail_bounds(c, digits_end(c, i), NumberPart::Integer);
    }
    let a = lex_at(s.context, c, i);
    match a {
        LexAction::Emit(t, n, next) => {
            assert(1 <= n && i + n <= c.len());
        },
        _ => {},
    }
}

proof fn lemma_step_keeps_valid(s: LexState, c: Seq<char>)
    requires
        0 <= s.cursor < c.len(),
        forall|k: int| 0 <= k < s.groups.len() ==> is_valid_tokens(#[trigger] s.groups[k].tokens),
    ensures
        forall|k: int|
            0 <= k < step(s, c).groups.len() ==> is_valid_tokens(#[trigger] step(s, c).groups[k].tokens),
{
}

proof fn lemma_run_node_keeps_valid(s: LexState, c: Seq<char>)
    requires
        forall|k: int| 0 <= k < s.groups.len() ==> is_valid_tokens(#[trigger] s.groups[k].tokens),
    ensures
        forall|k: int|
            0 <= k < run_node(s, c).groups.len() ==> is_valid_tokens(
                #[trigger] run_node(s, c).groups[k].tokens,
            ),
    decreases c.len() - s.cursor,
{
    if !(s.cursor < 0 || s.cursor >= c.len()) {
        let next = step(s, c);
        if !(next.cursor <= s.cursor || next.cursor > c.len()) {
            lemma_step_keeps_valid(s, c);
            lemma_run_node_keeps_valid(next, c);
        }
    }
}

/// Every group that the lexer keeps forms a closing, provider or consumer
/// tag: no partial or malformed group reaches its output.
pub proof fn lemma_kept_groups_are_tags(nodes: Seq<HtmlNode>)
    ensures
        forall|k: int|
            0 <= k < lex_nodes(nodes).len() ==> is_valid_tokens(#[trigger] lex_nodes(nodes)[k].tokens),
    decreases nodes.len(),
{
    if nodes.len() > 0 {
        lemma_kept_groups_are_tags(nodes.drop_last());
        let before = lex_nodes(nodes.drop_last());
        if let Some(p) = nodes.last().position {
            assert(lex_nodes(nodes) == lex_node(before, nodes.last().value@, p.start));
            lemma_run_node_keeps_valid(
                LexState {
                    context: LexerContext::Outside,
                    cursor: 0,
                    point: p.start,
                    tokens: Seq::empty(),
                    group: Position { start: p.start, end: p.start },
                    groups: before,
                },
                nodes.last().value@,
            );
        } else {
            assert(lex_nodes(nodes) == before);
        }
    }
}

/// The token that the lexer reads at index `i` of `c` in context `ctx`, and
/// the number of characters it spans, if it reads one there.
pub open spec fn token_read(ctx: LexerContext, c: Seq<char>, i: int) -> Option<(TokenView, int)> {
    match lex_at(ctx, c, i) {
        LexAction::Open => Some((TokenView::HtmlCommentOpen, 4)),
        LexAction::Close => Some((TokenView::HtmlCommentClose, 3)),
        LexAction::Emit(t, n, _) => Some((t, n)),
        _ => None,
    }
}

/// Whether the lexer reads tokens of the kind of `t` in context `ctx`.
pub open spec fn reads_kind(ctx: LexerContext, t: TokenView) -> bool {
    match t {
        TokenView::HtmlCommentOpen => ctx == LexerContext::Outside,
        TokenView::HtmlCommentClose => ctx == LexerContext::HtmlComment,
        TokenView::ConsumerTag => ctx == LexerContext::HtmlComment,
        TokenView::ProviderTag => ctx == LexerContext::HtmlComment,
        TokenView::CloseTag => ctx == LexerContext::HtmlComment,
        TokenView::Newline => ctx != LexerContext::Outside,
        TokenView::Whitespace(_) => ctx != LexerContext::Outside,
        TokenView::BraceClose => ctx == LexerContext::Tag || ctx == LexerContext::Filter,
        TokenView::Pipe => ctx == LexerContext::Tag || ctx == LexerContext::Filter,
        TokenView::Ident(_) => ctx == LexerContext::Tag || ctx == LexerContext::Filter,
        _ => ctx == LexerContext::Filter,
    }
}

pub open spec fn has_exponent(s: Seq<char>) -> bool {
    exists|k: int| 0 <= k < s.len() && (s[k] == 'e' || s[k] == 'E')
}

/// Whether the text `rest` written right after the text of `t` leaves the
/// token where it is: an identifier is not followed by an identifier
/// character, an integer not by a digit, `.`, `e` or `E`, a float not by a
/// digit, nor by `e` or `E` when it has no exponent yet.
pub open spec fn ends_token(t: TokenView, rest: Seq<char>) -> bool {
    rest.len() == 0 || match t {
        TokenView::Ident(_) => !is_ident_char(rest[0]),
        TokenView::Int(_) => !(is_digit(rest[0]) || rest[0] == '.' || rest[0] == 'e' || rest[0]
            == 'E'),
        TokenView::Float(s) => !is_digit(rest[0]) && (has_exponent(s) || (rest[0] != 'e'
            && rest[0] != 'E')),
        _ => true,
    }
}

pub open spec fn all_ident_chars(s: Seq<char>) -> bool {
    forall|k: int| 0 <= k < s.len() ==> is_ident_char(#[trigger] s[k])
}

/// Whether `s` has neither the quote `d` nor a backslash.
pub open spec fn plain_string(s: Seq<char>, d: char) -> bool {
    forall|k: int| 0 <= k < s.len() ==> #[trigger] s[k] != d && s[k] != '\\'
}

/// Whether `e`, the text after the `e` or `E` of a float, is an optional
/// sign followed by at least one digit.
pub open spec fn exponent_digits(e: Seq<char>) -> bool {
    ||| e.len() >= 1 && all_digits(e)
    ||| e.len() >= 2 && (e[0] == '+' || e[0] == '-') && all_digits(e.skip(1))
}

/// Whether `s` splits at `a` and `b` into digits, a fraction `.digits`
/// (possibly empty) and an exponent (possibly empty), not both empty.
pub open spec fn float_parts(s: Seq<char>, a: int, b: int) -> bool {
    &&& 1 <= a <= b <= s.len()
    &&& all_digits(s.take(a))
    &&& (b == a || (s[a] == '.' && all_digits(s.subrange(a + 1, b))))
    &&& (b == s.len() || ((s[b] == 'e' || s[b] == 'E') && exponent_digits(s.skip(b + 1))))
    &&& (b > a || b < s.len())
}

/// Whether `s` is written as a float: digits, then a fraction, an exponent
/// or both.
pub open spec fn is_float_literal(s: Seq<char>) -> bool {
    exists|a: int, b: int| float_parts(s, a, b)
}

/// Whether the lexer can read `t` back from its canonical text: whitespace
/// other than a newline, a quoted string free of its quote and of
/// backslashes, a well-formed identifier, a non-negative integer, a float
/// literal, or any other token.
pub open spec fn reads_back(t: TokenView) -> bool {
    match t {
        TokenView::Whitespace(b) => b == 32 || b == 9 || b == 12 || b == 13,
        TokenView::String(s, d) => (d == 34 || d == 39) && plain_string(s, d as char),
        TokenView::Ident(s) => s.len() > 0 && is_alpha(s[0]) && all_ident_chars(s),
        TokenView::Int(n) => n >= 0,
        TokenView::Float(s) => is_float_literal(s),
        _ => true,
    }
}

proof fn lemma_digits_read_back(n: nat)
    ensures
        crate::tokens::digits(n).len() >= 1,
        all_digits(crate::tokens::digits(n)),
        decimal_value(crate::tokens::digits(n)) == n,
    decreases n,
{
    let d = crate::tokens::digits(n);
    if n >= 10 {
        lemma_digits_read_back(n / 10);
        let r = (n % 10) as int;
        assert(d.drop_last() =~= crate::tokens::digits(n / 10));
        assert(d.last() == crate::tokens::digit_char(r));
        assert((n / 10) * 10 + r == n);
        assert(digit_value(crate::tokens::digit_char(r)) == r);
        assert(is_digit(crate::tokens::digit_char(r)));
        assert forall|k: int| 0 <= k < d.len() implies is_digit(#[trigger] d[k]) by {
            if k < d.len() - 1 {
                assert(d[k] == crate::tokens::digits(n / 10)[k]);
            }
        }
    } else {
        assert(d.drop_last() =~= Seq::<char>::empty());
        assert(decimal_value(Seq::<char>::empty()) == 0);
        assert(digit_value(crate::tokens::digit_char(n as int)) == n);
    }
}

proof fn lemma_string_close_plain(c: Seq<char>, i: int, e: int, d: char)
    requires
        0 <= i <= e < c.len(),
        c[e] == d,
        d != '\\',
        forall|k: int| i <= k < e ==> #[trigger] c[k] != d && c[k] != '\\',
    ensures
        string_close(c, i, d) == Some(e),
    decreases e - i,
{
    if i < e {
        lemma_string_close_plain(c, i + 1, e, d);
    }
}

proof fn lemma_tail_digits(c: Seq<char>, j: int, e: int, part: NumberPart)
    requires
        0 <= j <= e <= c.len(),
        part != NumberPart::Exponent,
        forall|k: int| j <= k < e ==> is_digit(#[trigger] c[k]),
    ensures
        number_tail(c, j, part) == number_tail(c, e, part),
    decreases e - j,
{
    if j < e {
        lemma_tail_digits(c, j + 1, e, part);
    }
}

proof fn lemma_float_reads_back(s: Seq<char>, a: int, b: int, rest: Seq<char>)
    requires
        float_parts(s, a, b),
        ends_token(TokenView::Float(s), rest),
    ensures
        lex_number(s + rest, 0) == Some((TokenView::Float(s), s.len() as int)),
{
    let c = s + rest;
    let n = s.len() as int;
    assert forall|k: int| 0 <= k < n implies #[trigger] c[k] == s[k] by {}
    assert forall|k: int| 0 <= k < a implies is_digit(#[trigger] c[k]) by {
        assert(s.take(a)[k] == s[k]);
    }
    assert(a < n);
    lemma_digits_end_from(c, 0, a);
    let part_after_fraction = if b > a { NumberPart::Fraction } else { NumberPart::Integer };
    if b > a {
        assert forall|k: int| a + 1 <= k < b implies is_digit(#[trigger] c[k]) by {
            assert(s.subrange(a + 1, b)[k - a - 1] == s[k]);
        }
        lemma_tail_digits(c, a + 1, b, NumberPart::Fraction);
        assert(number_tail(c, a, NumberPart::Integer) == number_tail(c, a + 1, NumberPart::Fraction));
    }
    assert(number_tail(c, a, NumberPart::Integer) == number_tail(c, b, part_after_fraction));
    if b == n {
        assert(!has_exponent(s)) by {
            if has_exponent(s) {
                let k = choose|k: int| 0 <= k < s.len() && (s[k] == 'e' || s[k] == 'E');
                if k < a {
                    assert(s.take(a)[k] == s[k]);
                } else if k > a {
                    assert(s.subrange(a + 1, b)[k - a - 1] == s[k]);
                }
            }
        }
        if rest.len() > 0 {
            assert(c[n] == rest[0]);
        }
        assert(number_tail(c, b, part_after_fraction) == (n, part_after_fraction));
    } else {
        let e = s.skip(b + 1);
        assert(number_tail(c, b, part_after_fraction) == number_tail(c, b + 1, NumberPart::Exponent));
        if e.len() >= 1 && all_digits(e) {
            assert(e[0] == s[b + 1]);
            assert forall|k: int| b + 2 <= k < n implies is_digit(#[trigger] c[k]) by {
                assert(e[k - b - 1] == s[k]);
            }
            lemma_tail_digits(c, b + 2, n, NumberPart::ExponentSign);
        } else {
            assert(e[0] == s[b + 1]);
            assert forall|k: int| b + 2 <= k < n implies is_digit(#[trigger] c[k]) by {
                assert(e.skip(1)[k - b - 2] == s[k]);
            }
            lemma_tail_digits(c, b + 2, n, NumberPart::ExponentSign);
        }
        assert(number_tail(c, b + 1, NumberPart::Exponent) == number_tail(c, b + 2, NumberPart::ExponentSign));
        if rest.len() > 0 {
            assert(c[n] == rest[0]);
        }
        assert(number_tail(c, n, NumberPart::ExponentSign) == (n, NumberPart::ExponentSign));
        assert(is_digit(c[n - 1])) by {
            if e.len() >= 1 && all_digits(e) {
                assert(e[e.len() - 1] == s[n - 1]);
            } else {
                assert(e.skip(1)[e.len() - 2] == s[n - 1]);
            }
        }
    }
    assert(c.subrange(0, n) =~= s);
}

proof fn lemma_digits_end_from(s: Seq<char>, i: int, a: int)
    requires
        0 <= i <= a <= s.len(),
        forall|k: int| i <= k < a ==> is_digit(#[trigger] s[k]),
        a == s.len() || !is_digit(s[a]),
    ensures
        digits_end(s, i) == a,
    decreases a - i,
{
    if i < a {
        lemma_digits_end_from(s, i + 1, a);
    }
}

proof fn lemma_ident_end_from(c: Seq<char>, i: int, e: int)
    requires
        0 <= i <= e <= c.len(),
        forall|k: int| i <= k < e ==> is_ident_char(#[trigger] c[k]),
        e == c.len() || !is_ident_char(c[e]),
    ensures
        ident_end(c, i) == e,
    decreases e - i,
{
    if i < e {
        lemma_ident_end_from(c, i + 1, e);
    }
}

/// Lexing the canonical text of a token, followed by any text that does not
/// continue it, in any context that reads tokens of its kind, gives back a
/// token pattern-equal to it that spans exactly that text: the lexer's cursor
/// moves over the text, as a point advanced by it does.
pub proof fn lemma_rendered_token_reads_back(t: TokenView, ctx: LexerContext, rest: Seq<char>)
    requires
        reads_back(t),
        reads_kind(ctx, t),
        ends_token(t, rest),
    ensures
        token_read(ctx, t.text() + rest, 0) is Some,
        token_read(ctx, t.text() + rest, 0)->Some_0.0.same_type(t),
        token_read(ctx, t.text() + rest, 0)->Some_0.1 == t.text().len(),
{
    let x = t.text();
    let c = x + rest;
    assert forall|k: int| 0 <= k < x.len() implies #[trigger] c[k] == x[k] by {}
    match t {
        TokenView::String(s, d) => {
            let q = d as char;
            assert(x.len() == s.len() + 2);
            assert forall|k: int| 1 <= k < s.len() + 1 implies #[trigger] c[k] != q && c[k] != '\\' by {
                assert(x[k] == s[k - 1]);
            }
            assert(c[0] == q);
            assert(c[s.len() + 1 as int] == q);
            assert(q == '"' || q == '\'');
            assert((d as char) as u8 == d);
            lemma_string_close_plain(c, 1, s.len() + 1 as int, q);
            assert(c.subrange(1, s.len() + 1 as int) =~= s);
            assert(!has_backslash(s)) by {
                if has_backslash(s) {
                    let k = choose|k: int| 0 <= k < s.len() && s[k] == '\\';
                    assert(s[k] != '\\');
                }
            }
            assert(lex_string(c, 0) == Some((TokenView::String(s, d), s.len() + 2 as int)));
            assert(!is_ws(q) && q != '\n' && q != ':' && q != '|' && q != '}');
            assert(lex_at(LexerContext::Filter, c, 0) == LexAction::Emit(
                TokenView::String(s, d),
                s.len() + 2 as int,
                LexerContext::Filter,
            ));
            assert(token_read(LexerContext::Filter, c, 0) == Some((TokenView::String(s, d), s.len() + 2 as int)));
        },
        TokenView::Ident(s) => {
            if rest.len() > 0 {
                assert(c[x.len() as int] == rest[0]);
            }
            lemma_ident_end_from(c, 1, x.len() as int);
            assert(c.subrange(0, x.len() as int) =~= x);
        },
        TokenView::Int(n) => {
            lemma_digits_read_back(n as nat);
            if rest.len() > 0 {
                assert(c[x.len() as int] == rest[0]);
            }
            lemma_digits_end_from(c, 0, x.len() as int);
            assert(c.subrange(0, x.len() as int) =~= x);
            assert(is_digit(c[0]));
            assert(number_tail(c, x.len() as int, NumberPart::Integer) == (x.len() as int, NumberPart::Integer));
        },
        TokenView::Float(s) => {
            let (a, b) = choose|a: int, b: int| float_parts(s, a, b);
            lemma_float_reads_back(s, a, b, rest);
            assert(is_digit(c[0])) by {
                assert(s.take(a)[0] == s[0]);
            }
        },
        TokenView::Whitespace(b) => {
            assert(x == seq![b as char]);
            assert((b as char) as u8 == b);
            assert(is_ws(b as char));
            assert(b as char != '\n');
        },
        TokenView::HtmlCommentOpen => {
            assert(c.subrange(0, 4) =~= comment_open());
        },
        TokenView::HtmlCommentClose => {
            assert(c.subrange(0, 3) =~= comment_close());
        },
        TokenView::ConsumerTag => {
            assert(c.subrange(0, 2) =~= seq!['{', '=']);
        },
        TokenView::ProviderTag => {
            assert(c.subrange(0, 2)[1] != '=');
            assert(c.subrange(0, 2) =~= seq!['{', '@']);
        },
        TokenView::CloseTag => {
            assert(c.subrange(0, 2)[1] != '=');
            assert(c.subrange(0, 2)[1] != '@');
            assert(c.subrange(0, 2) =~= seq!['{', '/']);
        },
        _ => {},
    }
}

} // verus!
