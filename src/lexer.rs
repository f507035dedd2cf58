use vstd::prelude::*;

use crate::error::MdtResult;
use crate::patterns::is_valid_tokens;
use crate::position::Point;
use crate::position::Position;
use crate::tokens::GroupView;
use crate::tokens::Token;
use crate::tokens::TokenGroup;
use crate::tokens::TokenView;

verus! {

/// What `snailquote::unescape` makes of a text: the unescaped text, or
/// `None` where it reports an error.
pub uninterp spec fn unescaped(s: Seq<char>) -> Option<Seq<char>>;

/// Relies on `snailquote::unescape`: its result depends on the text alone,
/// and every character it yields consumes at least one character of the
/// text.
#[verifier::external_body]
fn unescape_text(s: &str) -> (r: Option<String>)
    ensures
        match r {
            Some(v) => unescaped(s@) == Some(v@) && v@.len() <= s@.len(),
            None => unescaped(s@) is None,
        },
{
    snailquote::unescape(s).ok()
}

/// Where the lexer stands in the nesting of the tag language. The contexts
/// nest in this order, so the innermost one determines the whole stack:
/// `Tag` is only ever entered inside `HtmlComment`, and `Filter` inside `Tag`.
#[derive(Clone, Copy, PartialEq, Eq, Structural, Debug)]
pub enum LexerContext {
    /// Outside of any comment.
    Outside,
    /// Inside an html comment.
    HtmlComment,
    /// Inside a consumer, provider or closing tag.
    Tag,
    /// Inside the filters of a tag.
    Filter,
}

/// What the lexer does at one index of the text.
pub enum LexAction {
    /// Steps over one character outside of any comment.
    Skip,
    /// `<!--`: starts a new group here.
    Open,
    /// A token spanning this many characters, and the context after it.
    Emit(TokenView, int, LexerContext),
    /// `-->`: ends the group and keeps it if it forms a tag.
    Close,
    /// Drops the group and resumes after the next `-->`.
    Recover,
}

pub open spec fn is_ws(c: char) -> bool {
    c == ' ' || c == '\t' || c == '\n' || c == '\x0C' || c == '\r'
}

pub open spec fn is_alpha(c: char) -> bool {
    ('a' <= c && c <= 'z') || ('A' <= c && c <= 'Z')
}

pub open spec fn is_digit(c: char) -> bool {
    '0' <= c && c <= '9'
}

pub open spec fn is_ident_char(c: char) -> bool {
    is_alpha(c) || is_digit(c) || c == '_'
}

/// Whether `lit` is written in `c` at index `i`.
pub open spec fn at(c: Seq<char>, i: int, lit: Seq<char>) -> bool {
    0 <= i && i + lit.len() <= c.len() && c.subrange(i, i + lit.len()) == lit
}

pub open spec fn comment_open() -> Seq<char> {
    seq!['<', '!', '-', '-']
}

pub open spec fn comment_close() -> Seq<char> {
    seq!['-', '-', '>']
}

/// The end of the run of identifier characters from `i`.
pub open spec fn ident_end(c: Seq<char>, i: int) -> int
    decreases c.len() - i,
{
    if 0 <= i < c.len() && is_ident_char(c[i]) {
        ident_end(c, i + 1)
    } else {
        i
    }
}

/// The first index at or after `i` where `-->` is written.
pub open spec fn find_close(c: Seq<char>, i: int) -> Option<int>
    decreases c.len() - i,
{
    if i < 0 || i + 3 > c.len() {
        None
    } else if at(c, i, comment_close()) {
        Some(i)
    } else {
        find_close(c, i + 1)
    }
}

/// The index of the delimiter `d` that ends a string whose content starts at
/// `i`, a backslash escaping the character after it.
pub open spec fn string_close(c: Seq<char>, i: int, d: char) -> Option<int>
    decreases c.len() - i,
{
    if i < 0 || i >= c.len() {
        None
    } else if c[i] == '\\' {
        if i + 1 >= c.len() {
            None
        } else {
            string_close(c, i + 2, d)
        }
    } else if c[i] == d {
        Some(i)
    } else {
        string_close(c, i + 1, d)
    }
}

pub open spec fn has_backslash(s: Seq<char>) -> bool {
    exists|k: int| 0 <= k < s.len() && s[k] == '\\'
}

/// The string literal delimited by `c[i]`: its token and its length.
pub open spec fn lex_string(c: Seq<char>, i: int) -> Option<(TokenView, int)> {
    let d = c[i];
    match string_close(c, i + 1, d) {
        None => None,
        Some(e) => {
            let raw = c.subrange(i + 1, e);
            let value = if has_backslash(raw) {
                unescaped(raw)
            } else {
                Some(raw)
            };
            match value {
                Some(v) => Some((TokenView::String(v, d as u8), e + 1 - i)),
                None => None,
            }
        },
    }
}

/// The parts of a number literal read so far.
#[derive(Clone, Copy, PartialEq, Eq, Structural, Debug)]
pub enum NumberPart {
    /// `123`
    Integer,
    /// `.123`
    Fraction,
    /// `E` | `e`
    Exponent,
    /// `+` | `-` or the digits after them
    ExponentSign,
}

/// The end of the run of decimal digits from `i`.
pub open spec fn digits_end(c: Seq<char>, i: int) -> int
    decreases c.len() - i,
{
    if 0 <= i < c.len() && is_digit(c[i]) {
        digits_end(c, i + 1)
    } else {
        i
    }
}

/// The part that `ch` moves a number literal to from `part`, if it belongs
/// to the literal.
pub open spec fn number_next(ch: char, part: NumberPart) -> Option<NumberPart> {
    if ch == '.' && part == NumberPart::Integer {
        Some(NumberPart::Fraction)
    } else if (ch == 'E' || ch == 'e') && (part == NumberPart::Integer || part
        == NumberPart::Fraction) {
        Some(NumberPart::Exponent)
    } else if (ch == '+' || ch == '-') && part == NumberPart::Exponent {
        Some(NumberPart::ExponentSign)
    } else if is_digit(ch) && part == NumberPart::Exponent {
        Some(NumberPart::ExponentSign)
    } else if is_digit(ch) {
        Some(part)
    } else {
        None
    }
}

/// Reads the rest of a number literal from `j` in `part`: where it ends and
/// the part it ends in.
pub open spec fn number_tail(c: Seq<char>, j: int, part: NumberPart) -> (int, NumberPart)
    decreases c.len() - j,
{
    if j < 0 || j >= c.len() {
        (j, part)
    } else {
        match number_next(c[j], part) {
            Some(next) => number_tail(c, j + 1, next),
            None => (j, part),
        }
    }
}

pub open spec fn digit_value(ch: char) -> int {
    (ch as u32) - ('0' as u32)
}

/// The value of a string of decimal digits.
pub open spec fn decimal_value(s: Seq<char>) -> int
    decreases s.len(),
{
    if s.len() == 0 {
        0
    } else {
        decimal_value(s.drop_last()) * 10 + digit_value(s.last())
    }
}

/// The number literal starting at `i`: an integer when it has neither a
/// fraction nor an exponent, which must fit in `i64`; a float otherwise,
/// whose exponent, if any, must have a digit.
pub open spec fn lex_number(c: Seq<char>, i: int) -> Option<(TokenView, int)> {
    let (end, part) = number_tail(c, digits_end(c, i), NumberPart::Integer);
    let literal = c.subrange(i, end);
    if part == NumberPart::Integer {
        if decimal_value(literal) <= i64::MAX {
            Some((TokenView::Int(decimal_value(literal) as i64), end - i))
        } else {
            None
        }
    } else if part == NumberPart::Fraction || (part == NumberPart::ExponentSign && is_digit(
        c[end - 1],
    )) {
        Some((TokenView::Float(literal), end - i))
    } else {
        None
    }
}

/// The identifier starting at `i`.
pub open spec fn lex_ident(c: Seq<char>, i: int) -> (TokenView, int) {
    let e = ident_end(c, i + 1);
    (TokenView::Ident(c.subrange(i, e)), e - i)
}

/// What the lexer does at index `i` of `c` in context `ctx`.
pub open spec fn lex_at(ctx: LexerContext, c: Seq<char>, i: int) -> LexAction {
    let ch = c[i];
    match ctx {
        LexerContext::Outside => if at(c, i, comment_open()) {
            LexAction::Open
        } else {
            LexAction::Skip
        },
        LexerContext::HtmlComment => if at(c, i, comment_close()) {
            LexAction::Close
        } else if at(c, i, seq!['{', '=']) {
            LexAction::Emit(TokenView::ConsumerTag, 2, LexerContext::Tag)
        } else if at(c, i, seq!['{', '@']) {
            LexAction::Emit(TokenView::ProviderTag, 2, LexerContext::Tag)
        } else if at(c, i, seq!['{', '/']) {
            LexAction::Emit(TokenView::CloseTag, 2, LexerContext::Tag)
        } else if ch == '\n' {
            LexAction::Emit(TokenView::Newline, 1, ctx)
        } else if is_ws(ch) {
            LexAction::Emit(TokenView::Whitespace(ch as u8), 1, ctx)
        } else {
            LexAction::Recover
        },
        LexerContext::Tag => if ch == '\n' {
            LexAction::Emit(TokenView::Newline, 1, ctx)
        } else if is_ws(ch) {
            LexAction::Emit(TokenView::Whitespace(ch as u8), 1, ctx)
        } else if ch == '}' {
            LexAction::Emit(TokenView::BraceClose, 1, LexerContext::HtmlComment)
        } else if ch == '|' {
            LexAction::Emit(TokenView::Pipe, 1, LexerContext::Filter)
        } else if is_alpha(ch) {
            LexAction::Emit(lex_ident(c, i).0, lex_ident(c, i).1, ctx)
        } else {
            LexAction::Recover
        },
        LexerContext::Filter => if ch == '\n' {
            LexAction::Emit(TokenView::Newline, 1, ctx)
        } else if is_ws(ch) {
            LexAction::Emit(TokenView::Whitespace(ch as u8), 1, ctx)
        } else if ch == ':' {
            LexAction::Emit(TokenView::ArgumentDelimiter, 1, ctx)
        } else if ch == '|' {
            LexAction::Emit(TokenView::Pipe, 1, ctx)
        } else if ch == '}' {
            LexAction::Emit(TokenView::BraceClose, 1, LexerContext::HtmlComment)
        } else if ch == '\'' || ch == '"' {
            match lex_string(c, i) {
                Some((t, n)) => LexAction::Emit(t, n, ctx),
                None => LexAction::Recover,
            }
        } else if is_digit(ch) {
            match lex_number(c, i) {
                Some((t, n)) => LexAction::Emit(t, n, ctx),
                None => LexAction::Recover,
            }
        } else if is_alpha(ch) {
            LexAction::Emit(lex_ident(c, i).0, lex_ident(c, i).1, ctx)
        } else {
            LexAction::Recover
        },
    }
}

/// The state of the lexer within one text.
pub struct LexState {
    pub context: LexerContext,
    /// The index of the next character to read.
    pub cursor: int,
    /// The source position of that character.
    pub point: Point,
    /// The tokens of the group being built.
    pub tokens: Seq<TokenView>,
    /// The position of the group being built.
    pub group: Position,
    /// The groups kept so far.
    pub groups: Seq<GroupView>,
}

/// Moves the cursor over `n` characters.
pub open spec fn skip_chars(s: LexState, c: Seq<char>, n: int) -> LexState {
    LexState {
        cursor: s.cursor + n,
        point: s.point.advanced(c.subrange(s.cursor, s.cursor + n)),
        ..s
    }
}

/// Adds `t` to the group, moving its end over the text of `t`.
pub open spec fn add_token(s: LexState, t: TokenView) -> LexState {
    LexState {
        tokens: s.tokens.push(t),
        group: Position { start: s.group.start, end: s.group.end.advanced(t.text()) },
        ..s
    }
}

/// Starts an empty group at the cursor, outside of any comment.
pub open spec fn reset_group(s: LexState) -> LexState {
    LexState {
        tokens: Seq::empty(),
        group: Position { start: s.point, end: s.point },
        context: LexerContext::Outside,
        ..s
    }
}

/// Keeps the group if it forms a tag, then starts a new one.
pub open spec fn commit_group(s: LexState) -> LexState {
    let kept = if is_valid_tokens(s.tokens) {
        s.groups.push(GroupView { tokens: s.tokens, position: s.group })
    } else {
        s.groups
    };
    reset_group(LexState { groups: kept, ..s })
}

/// Drops the group and moves past the next `-->`, or to the end of the text.
pub open spec fn recover(s: LexState, c: Seq<char>) -> LexState {
    let r = reset_group(s);
    match find_close(c, s.cursor) {
        Some(f) => skip_chars(r, c, f + 3 - s.cursor),
        None => skip_chars(r, c, c.len() - s.cursor),
    }
}

pub open spec fn apply_action(s: LexState, c: Seq<char>, a: LexAction) -> LexState {
    match a {
        LexAction::Skip => skip_chars(s, c, 1),
        LexAction::Open => {
            let started = LexState {
                group: Position { start: s.point, end: s.point },
                context: LexerContext::HtmlComment,
                ..s
            };
            skip_chars(add_token(started, TokenView::HtmlCommentOpen), c, 4)
        },
        LexAction::Emit(t, n, next) => skip_chars(
            LexState { context: next, ..add_token(s, t) },
            c,
            n,
        ),
        LexAction::Close => commit_group(
            skip_chars(add_token(s, TokenView::HtmlCommentClose), c, 3),
        ),
        LexAction::Recover => recover(s, c),
    }
}

pub open spec fn step(s: LexState, c: Seq<char>) -> LexState {
    apply_action(s, c, lex_at(s.context, c, s.cursor))
}

/// Runs the lexer over the rest of `c`.
pub open spec fn run_node(s: LexState, c: Seq<char>) -> LexState
    decreases c.len() - s.cursor,
{
    if s.cursor < 0 || s.cursor >= c.len() {
        s
    } else {
        let next = step(s, c);
        if next.cursor <= s.cursor || next.cursor > c.len() {
            s
        } else {
            run_node(next, c)
        }
    }
}

/// A text of the document that may hold comments, and where it starts.
pub struct HtmlNode {
    pub value: String,
    pub position: Option<Position>,
}

/// Whether walking the whole text of `node` from its start keeps every
/// coordinate within `usize`.
pub open spec fn node_fits(node: HtmlNode) -> bool {
    match node.position {
        Some(p) => p.start.can_advance(node.value@),
        None => true,
    }
}

impl HtmlNode {
    /// Whether walking the whole text from its start keeps every coordinate
    /// within `usize`, as `tokenize` needs of each node.
    pub fn fits(&self) -> (r: bool)
        ensures
            r == node_fits(*self),
    {
        match self.position {
            Some(p) => {
                let len = self.value.as_str().unicode_len();
                len <= usize::MAX - p.start.line && len <= usize::MAX - p.start.column && len
                    <= usize::MAX - p.start.offset
            },
            None => true,
        }
    }
}

/// The groups kept after lexing the text `c` starting at `p`, given those
/// kept before it.
pub open spec fn lex_node(groups: Seq<GroupView>, c: Seq<char>, p: Point) -> Seq<GroupView> {
    run_node(
        LexState {
            context: LexerContext::Outside,
            cursor: 0,
            point: p,
            tokens: Seq::empty(),
            group: Position { start: p, end: p },
            groups,
        },
        c,
    ).groups
}

/// The groups kept after lexing each node in turn. A node without a position
/// is passed over.
pub open spec fn lex_nodes(nodes: Seq<HtmlNode>) -> Seq<GroupView>
    decreases nodes.len(),
{
    if nodes.len() == 0 {
        Seq::empty()
    } else {
        let before = lex_nodes(nodes.drop_last());
        match nodes.last().position {
            Some(p) => lex_node(before, nodes.last().value@, p.start),
            None => before,
        }
    }
}

/// The views of a sequence of groups.
pub open spec fn group_views(groups: Seq<TokenGroup>) -> Seq<GroupView> {
    groups.map_values(|g: TokenGroup| g@)
}

/// `10` to the power `k`.
pub open spec fn pow10(k: nat) -> int
    decreases k,
{
    if k == 0 {
        1
    } else {
        10 * pow10((k - 1) as nat)
    }
}

pub open spec fn all_digits(s: Seq<char>) -> bool {
    forall|k: int| 0 <= k < s.len() ==> is_digit(#[trigger] s[k])
}

proof fn lemma_decimal_value_bounds(s: Seq<char>)
    requires
        all_digits(s),
    ensures
        0 <= decimal_value(s) < pow10(s.len()),
    decreases s.len(),
{
    if s.len() > 0 {
        let t = s.drop_last();
        assert(all_digits(t)) by {
            assert forall|k: int| 0 <= k < t.len() implies is_digit(#[trigger] t[k]) by {
                assert(t[k] == s[k]);
            }
        }
        lemma_decimal_value_bounds(t);
        assert(is_digit(s[s.len() - 1]));
        let v = decimal_value(t);
        let p = pow10(t.len());
        let d = digit_value(s.last());
        assert(0 <= d <= 9);
        assert(v * 10 + d < 10 * p) by (nonlinear_arith)
            requires
                0 <= v < p,
                0 <= d <= 9,
        ;
    }
}

proof fn lemma_decimal_value_prefix(s: Seq<char>, k: int)
    requires
        all_digits(s),
        0 <= k <= s.len(),
    ensures
        decimal_value(s.take(k)) <= decimal_value(s),
    decreases s.len() - k,
{
    if k < s.len() {
        lemma_decimal_value_prefix(s, k + 1);
        let t = s.take(k + 1);
        assert(t.drop_last() =~= s.take(k));
        assert(all_digits(s.take(k))) by {
            assert forall|j: int| 0 <= j < s.take(k).len() implies is_digit(#[trigger] s.take(k)[j]) by {
                assert(s.take(k)[j] == s[j]);
            }
        }
        lemma_decimal_value_bounds(s.take(k));
        assert(is_digit(s[k]));
        assert(t.last() == s[k]);
        assert(digit_value(s[k]) >= 0);
        assert(decimal_value(t) == decimal_value(s.take(k)) * 10 + digit_value(s[k]));
    } else {
        assert(s.take(k) =~= s);
    }
}

proof fn lemma_digits_len(v: nat, k: nat)
    requires
        v < pow10(k),
        k >= 1,
    ensures
        crate::tokens::digits(v).len() <= k,
    decreases v,
{
    if v >= 10 {
        if k == 1 {
            assert(pow10(1) == 10) by {
                reveal_with_fuel(pow10, 2);
            }
        } else {
            let p = pow10((k - 1) as nat);
            assert(v / 10 < p) by (nonlinear_arith)
                requires
                    v < 10 * p,
                    v >= 10,
            ;
            lemma_digits_len(v / 10, (k - 1) as nat);
        }
    }
}

fn is_ws_char(c: char) -> (r: bool)
    ensures
        r == is_ws(c),
{
    c == ' ' || c == '\t' || c == '\n' || c == '\x0C' || c == '\r'
}

fn is_alpha_char(c: char) -> (r: bool)
    ensures
        r == is_alpha(c),
{
    ('a' <= c && c <= 'z') || ('A' <= c && c <= 'Z')
}

fn is_digit_char(c: char) -> (r: bool)
    ensures
        r == is_digit(c),
{
    '0' <= c && c <= '9'
}

fn is_ident_char_exec(c: char) -> (r: bool)
    ensures
        r == is_ident_char(c),
{
    is_alpha_char(c) || is_digit_char(c) || c == '_'
}

/// Whether `lit` is written in `c` at index `i`.
fn starts_with(c: &Vec<char>, i: usize, lit: &Vec<char>) -> (r: bool)
    ensures
        r == at(c@, i as int, lit@),
{
    if i > c.len() || lit.len() > c.len() - i {
        return false;
    }
    let mut k: usize = 0;
    while k < lit.len()
        invariant
            i + lit@.len() <= c@.len(),
            i + lit@.len() <= c.len(),
            k <= lit@.len(),
            forall|j: int| 0 <= j < k ==> c@[i + j] == lit@[j],
        decreases lit@.len() - k,
    {
        if c[i + k] != lit[k] {
            assert(c@.subrange(i as int, i + lit@.len())[k as int] != lit@[k as int]);
            return false;
        }
        k = k + 1;
    }
    assert(c@.subrange(i as int, i + lit@.len()) =~= lit@);
    true
}

/// The characters `c[from..to]`.
fn sub_chars(c: &Vec<char>, from: usize, to: usize) -> (r: Vec<char>)
    requires
        from <= to <= c@.len(),
    ensures
        r@ == c@.subrange(from as int, to as int),
{
    let mut r: Vec<char> = Vec::new();
    let mut k: usize = from;
    while k < to
        invariant
            from <= k <= to <= c@.len(),
            r@ == c@.subrange(from as int, k as int),
        decreases to - k,
    {
        r.push(c[k]);
        assert(r@ =~= c@.subrange(from as int, k + 1));
        k = k + 1;
    }
    r
}

/// The characters of `s`, in order.
fn chars_of(s: &str) -> (r: Vec<char>)
    ensures
        r@ == s@,
{
    let mut r: Vec<char> = Vec::new();
    for c in it: s.chars()
        invariant
            it.seq() == s@,
            r@ == s@.take(it.index() as int),
    {
        assert(s@.take(it.index() + 1) =~= s@.take(it.index() as int).push(c));
        r.push(c);
    }
    assert(s@.take(s@.len() as int) =~= s@);
    r
}

/// The value of the decimal digits `s`, if it fits in `i64`.
fn parse_decimal(s: &Vec<char>) -> (r: Option<i64>)
    requires
        all_digits(s@),
    ensures
        match r {
            Some(v) => decimal_value(s@) <= i64::MAX && v == decimal_value(s@),
            None => decimal_value(s@) > i64::MAX,
        },
{
    let mut acc: u128 = 0;
    let mut k: usize = 0;
    while k < s.len()
        invariant
            all_digits(s@),
            k <= s@.len(),
            acc == decimal_value(s@.take(k as int)),
            acc <= i64::MAX,
        decreases s@.len() - k,
    {
        assert(is_digit(s@[k as int]));
        let d = (s[k] as u32 - '0' as u32) as u128;
        assert(s@.take(k + 1).drop_last() =~= s@.take(k as int));
        acc = acc * 10 + d;
        if acc > i64::MAX as u128 {
            proof {
                lemma_decimal_value_prefix(s@, k + 1);
            }
            return None;
        }
        k = k + 1;
    }
    assert(s@.take(s@.len() as int) =~= s@);
    Some(acc as i64)
}

/// The length of the identifier at index `i` of `c`: the longest run
/// `[A-Za-z_][A-Za-z0-9_]*` that starts there, or 0 when none does.
pub open spec fn ident_len(c: Seq<char>, i: int) -> int {
    if 0 <= i < c.len() && (is_alpha(c[i]) || c[i] == '_') {
        ident_end(c, i + 1) - i
    } else {
        0
    }
}

/// The length of the identifier at index `from` of `c`.
fn ident_len_at(c: &Vec<char>, from: usize) -> (r: usize)
    ensures
        r == ident_len(c@, from as int),
        from < c@.len() && (is_alpha(c@[from as int]) || c@[from as int] == '_') ==> 1 <= r && from
            + r <= c@.len(),
{
    if from >= c.len() || !(is_alpha_char(c[from]) || c[from] == '_') {
        return 0;
    }
    let mut e: usize = from + 1;
    while e < c.len() && is_ident_char_exec(c[e])
        invariant
            from < e <= c@.len(),
            ident_end(c@, from + 1) == ident_end(c@, e as int),
        decreases c@.len() - e,
    {
        e = e + 1;
    }
    e - from
}

/// The length of the identifier at the start of `content`: the longest
/// prefix matching `[A-Za-z_][A-Za-z0-9_]*`, or 0 when it starts otherwise.
pub fn lex_identifier(content: &str) -> (r: usize)
    ensures
        r == ident_len(content@, 0),
{
    let chars = chars_of(content);
    ident_len_at(&chars, 0)
}

/// The part that `ch` moves a number literal to from `part`.
fn number_next_exec(ch: char, part: NumberPart) -> (r: Option<NumberPart>)
    ensures
        r == number_next(ch, part),
{
    if ch == '.' && part == NumberPart::Integer {
        Some(NumberPart::Fraction)
    } else if (ch == 'E' || ch == 'e') && (part == NumberPart::Integer || part
        == NumberPart::Fraction) {
        Some(NumberPart::Exponent)
    } else if (ch == '+' || ch == '-') && part == NumberPart::Exponent {
        Some(NumberPart::ExponentSign)
    } else if is_digit_char(ch) && part == NumberPart::Exponent {
        Some(NumberPart::ExponentSign)
    } else if is_digit_char(ch) {
        Some(part)
    } else {
        None
    }
}

/// The first index at or after `from` where `-->` is written.
fn find_close_from(c: &Vec<char>, from: usize) -> (r: Option<usize>)
    ensures
        match r {
            Some(f) => find_close(c@, from as int) == Some(f as int),
            None => find_close(c@, from as int) is None,
        },
{
    let close = vec!['-', '-', '>'];
    let mut i: usize = from;
    while i < c.len() && c.len() - i >= 3
        invariant
            from <= i,
            close@ == comment_close(),
            find_close(c@, from as int) == find_close(c@, i as int),
        decreases c@.len() - i,
    {
        if starts_with(c, i, &close) {
            return Some(i);
        }
        i = i + 1;
    }
    None
}

pub proof fn lemma_find_close_bounds(c: Seq<char>, i: int)
    requires
        0 <= i,
    ensures
        find_close(c, i) matches Some(f) ==> i <= f && f + 3 <= c.len(),
    decreases c.len() - i,
{
    if !(i < 0 || i + 3 > c.len()) && !at(c, i, comment_close()) {
        lemma_find_close_bounds(c, i + 1);
    }
}

proof fn lemma_has_backslash_push(s: Seq<char>, x: char)
    ensures
        has_backslash(s.push(x)) == (has_backslash(s) || x == '\\'),
{
    if has_backslash(s) {
        let k = choose|k: int| 0 <= k < s.len() && s[k] == '\\';
        assert(s.push(x)[k] == '\\');
    }
    if x == '\\' {
        assert(s.push(x)[s.len() as int] == '\\');
    }
    if has_backslash(s.push(x)) {
        let k = choose|k: int| 0 <= k < s.push(x).len() && s.push(x)[k] == '\\';
        if k < s.len() {
            assert(s[k] == '\\');
        }
    }
}

/// What one step of the lexer does.
enum Step {
    Skip,
    Open,
    Emit(Token, usize, LexerContext),
    Close,
    Recover,
}

impl Step {
    spec fn action(&self) -> LexAction {
        match self {
            Step::Skip => LexAction::Skip,
            Step::Open => LexAction::Open,
            Step::Emit(t, n, ctx) => LexAction::Emit(t@, *n as int, *ctx),
            Step::Close => LexAction::Close,
            Step::Recover => LexAction::Recover,
        }
    }
}

/// How far the group may reach: the text of its tokens, written from its
/// start, stays within what was read of `c` from `base`.
pub open spec fn group_fits(start: Point, tokens: Seq<TokenView>, base: Point, cursor: int) -> bool {
    let m = crate::tokens::tokens_text(tokens).len();
    &&& start.line + m <= base.line + cursor
    &&& start.column + m <= base.column + cursor
    &&& start.offset + m <= base.offset + cursor
}

/// The lexer over one text.
struct TokenizerState {
    /// The text.
    content: Vec<char>,
    /// The index of the next character to read.
    cursor: usize,
    /// The source position of that character.
    point: Point,
    /// The group being built.
    token_group: TokenGroup,
    /// The groups kept so far.
    groups: Vec<TokenGroup>,
    context: LexerContext,
}

impl TokenizerState {
    spec fn state(&self) -> LexState {
        LexState {
            context: self.context,
            cursor: self.cursor as int,
            point: self.point,
            tokens: self.token_group.token_views(),
            group: self.token_group.position,
            groups: group_views(self.groups@),
        }
    }

    /// The invariant of the lexer over a text that starts at `base`.
    spec fn wf(&self, base: Point) -> bool {
        &&& self.cursor <= self.content@.len()
        &&& base.can_advance(self.content@)
        &&& self.point == base.advanced(self.content@.take(self.cursor as int))
        &&& self.token_group.spans_tokens()
        &&& (self.context == LexerContext::Outside ==> self.token_group.tokens@.len() == 0)
        &&& group_fits(
            self.token_group.position.start,
            self.token_group.token_views(),
            base,
            self.cursor as int,
        )
        &&& forall|k: int|
            0 <= k < self.groups@.len() ==> {
                &&& is_valid_tokens(#[trigger] self.groups@[k].token_views())
                &&& self.groups@[k].spans_tokens()
            }
    }

    proof fn lemma_point_fits(&self, base: Point, n: int)
        requires
            self.wf(base),
            0 <= n,
            self.cursor + n <= self.content@.len(),
        ensures
            self.point.can_advance(
                self.content@.subrange(self.cursor as int, self.cursor + n),
            ),
            self.point.advanced(self.content@.subrange(self.cursor as int, self.cursor + n))
                == base.advanced(self.content@.take(self.cursor + n)),
            self.point.line <= base.line + self.cursor,
            self.point.column <= base.column + self.cursor,
            self.point.offset == base.offset + self.cursor,
    {
        let c = self.content@;
        let a = c.take(self.cursor as int);
        let b = c.subrange(self.cursor as int, self.cursor + n);
        assert(a + b =~= c.take(self.cursor + n));
        assert(c.take(self.cursor + n) + c.skip(self.cursor + n) =~= c);
        base.lemma_advanced_concat(c.take(self.cursor + n), c.skip(self.cursor + n));
        base.lemma_advanced_concat(a, b);
        crate::position::lemma_after_bounds(base.line as int, base.column as int, a);
    }

    /// Moves the cursor over `steps` characters.
    fn advance(&mut self, steps: usize, Ghost(base): Ghost<Point>)
        requires
            old(self).wf(base),
            old(self).cursor + steps <= old(self).content@.len(),
        ensures
            final(self).wf(base),
            final(self).state() == skip_chars(old(self).state(), old(self).content@, steps as int),
            final(self).content == old(self).content,
    {
        proof {
            self.lemma_point_fits(base, steps as int);
        }
        self.point.advance_slice(&self.content, self.cursor, self.cursor + steps);
        self.cursor = self.cursor + steps;
    }

    /// Adds `token`, which was read from the next `steps` characters, to the
    /// group and moves the cursor past them.
    fn update_token_group(&mut self, token: Token, steps: usize, Ghost(base): Ghost<Point>)
        requires
            old(self).wf(base),
            old(self).context != LexerContext::Outside,
            old(self).cursor + steps <= old(self).content@.len(),
            token@.text().len() <= steps,
        ensures
            final(self).wf(base),
            final(self).state() == skip_chars(
                add_token(old(self).state(), token@),
                old(self).content@,
                steps as int,
            ),
            final(self).content == old(self).content,
    {
        self.advance(steps, Ghost(base));
        let ghost vs = self.token_group.token_views();
        let ghost start = self.token_group.position.start;
        proof {
            crate::tokens::lemma_tokens_text_concat(vs, seq![token@]);
            assert(crate::tokens::tokens_text(seq![token@]) =~= token@.text()) by {
                assert(seq![token@].drop_last() =~= Seq::<TokenView>::empty());
                reveal_with_fuel(crate::tokens::tokens_text, 2);
                assert(Seq::<char>::empty() + token@.text() =~= token@.text());
            }
            assert(vs + seq![token@] =~= vs.push(token@));
            start.lemma_advanced_concat(crate::tokens::tokens_text(vs), token@.text());
        }
        let mut text: Vec<char> = Vec::new();
        token.push_text(&mut text);
        proof {
            assert(text@.subrange(0, text@.len() as int) =~= token@.text());
        }
        self.token_group.position.end.advance_slice(&text, 0, text.len());
        self.token_group.tokens.push(token);
        proof {
            assert(self.token_group.token_views() =~= vs.push(token@));
        }
    }

    /// Starts an empty group at the cursor, outside of any comment.
    fn reset_token_group(&mut self, Ghost(base): Ghost<Point>)
        requires
            old(self).wf(base),
        ensures
            final(self).wf(base),
            final(self).state() == reset_group(old(self).state()),
            final(self).content == old(self).content,
    {
        proof {
            self.lemma_point_fits(base, 0);
        }
        self.token_group = TokenGroup { tokens: Vec::new(), position: Position::from_point(self.point) };
        self.context = LexerContext::Outside;
        proof {
            assert(self.token_group.token_views() =~= Seq::<TokenView>::empty());
            assert(crate::tokens::tokens_text(Seq::<TokenView>::empty()) =~= Seq::<char>::empty());
            assert(self.point.advanced(Seq::<char>::empty()) == self.point);
        }
    }

    /// Keeps the group if it forms a tag, then starts a new one.
    fn push_token_group(&mut self, Ghost(base): Ghost<Point>)
        requires
            old(self).wf(base),
        ensures
            final(self).wf(base),
            final(self).state() == commit_group(old(self).state()),
            final(self).content == old(self).content,
    {
        proof {
            self.lemma_point_fits(base, 0);
            assert(self.point.advanced(Seq::<char>::empty()) == self.point);
        }
        let mut group = TokenGroup { tokens: Vec::new(), position: Position::from_point(self.point) };
        core::mem::swap(&mut self.token_group, &mut group);
        let ghost before = self.groups@;
        if group.is_valid() {
            self.groups.push(group);
            proof {
                assert(group_views(self.groups@) =~= group_views(before).push(group@));
            }
        }
        proof {
            assert(self.token_group.token_views() =~= Seq::<TokenView>::empty());
            assert(crate::tokens::tokens_text(Seq::<TokenView>::empty()) =~= Seq::<char>::empty());
        }
        self.reset_token_group(Ghost(base));
    }
}

impl TokenizerState {
    /// Collects the identifier that starts at the cursor.
    fn collect_identifier(&self) -> (r: (Token, usize))
        requires
            self.cursor < self.content@.len(),
            is_alpha(self.content@[self.cursor as int]),
        ensures
            r.0@ == lex_ident(self.content@, self.cursor as int).0,
            r.1 == lex_ident(self.content@, self.cursor as int).1,
            1 <= r.1,
            self.cursor + r.1 <= self.content@.len(),
            r.0@.text().len() <= r.1,
    {
        let c = &self.content;
        let len = c.len();
        let n = ident_len_at(c, self.cursor);
        let e = self.cursor + n;
        let chars = sub_chars(c, self.cursor, e);
        (Token::Ident(crate::tokens::string_from_chars(chars)), e - self.cursor)
    }

    /// Collects the string literal delimited by `delimiter` that starts at
    /// the cursor, unescaping its content when it holds a backslash.
    fn collect_string(&self, delimiter: char) -> (r: Option<(Token, usize)>)
        requires
            self.cursor < self.content@.len(),
            self.content@[self.cursor as int] == delimiter,
            delimiter == '\'' || delimiter == '"',
        ensures
            match r {
                Some((t, n)) => {
                    &&& lex_string(self.content@, self.cursor as int) == Some((t@, n as int))
                    &&& 1 <= n
                    &&& self.cursor + n <= self.content@.len()
                    &&& t@.text().len() <= n
                },
                None => lex_string(self.content@, self.cursor as int) is None,
            },
    {
        let c = &self.content;
        let len = c.len();
        let first = self.cursor + 1;
        let mut i: usize = first;
        let mut has_escapes = false;
        proof {
            assert(c@.subrange(first as int, first as int) =~= Seq::<char>::empty());
        }
        loop
            invariant
                first <= i <= c@.len(),
                first == self.cursor + 1,
                len == c@.len(),
                c@ == self.content@,
                c@[self.cursor as int] == delimiter,
                string_close(c@, first as int, delimiter) == string_close(c@, i as int, delimiter),
                has_escapes == has_backslash(c@.subrange(first as int, i as int)),
            ensures
                first <= i < c@.len(),
                c@[i as int] == delimiter,
                string_close(c@, first as int, delimiter) == Some(i as int),
                has_escapes == has_backslash(c@.subrange(first as int, i as int)),
            decreases c@.len() - i,
        {
            if i >= c.len() {
                return None;
            }
            let ch = c[i];
            if ch == '\\' {
                if i + 1 >= c.len() {
                    return None;
                }
                proof {
                    let before = c@.subrange(first as int, i as int);
                    assert(c@.subrange(first as int, i + 2) =~= before.push('\\').push(c@[i + 1]));
                    lemma_has_backslash_push(before, '\\');
                    lemma_has_backslash_push(before.push('\\'), c@[i + 1]);
                }
                has_escapes = true;
                i = i + 2;
            } else if ch == delimiter {
                break;
            } else {
                proof {
                    let before = c@.subrange(first as int, i as int);
                    assert(c@.subrange(first as int, i + 1) =~= before.push(ch));
                    lemma_has_backslash_push(before, ch);
                }
                i = i + 1;
            }
        }
        let raw = sub_chars(c, first, i);
        let text = crate::tokens::string_from_chars(raw);
        let value = if has_escapes {
            match unescape_text(text.as_str()) {
                Some(v) => v,
                None => {
                    return None;
                },
            }
        } else {
            text
        };
        let token = Token::String(value, delimiter as u8);
        proof {
            assert(token@.text().len() == value@.len() + 2);
        }
        Some((token, i + 1 - self.cursor))
    }

    /// Collects the number literal that starts at the cursor: an integer
    /// when it has neither a fraction nor an exponent, a float otherwise.
    fn collect_number(&self) -> (r: Option<(Token, usize)>)
        requires
            self.cursor < self.content@.len(),
            is_digit(self.content@[self.cursor as int]),
        ensures
            match r {
                Some((t, n)) => {
                    &&& lex_number(self.content@, self.cursor as int) == Some((t@, n as int))
                    &&& 1 <= n
                    &&& self.cursor + n <= self.content@.len()
                    &&& t@.text().len() <= n
                },
                None => lex_number(self.content@, self.cursor as int) is None,
            },
    {
        let c = &self.content;
        let start = self.cursor;
        let mut e: usize = start;
        while e < c.len() && is_digit_char(c[e])
            invariant
                start <= e <= c@.len(),
                start == self.cursor,
                c@ == self.content@,
                digits_end(c@, start as int) == digits_end(c@, e as int),
                all_digits(c@.subrange(start as int, e as int)),
            decreases c@.len() - e,
        {
            proof {
                assert forall|k: int| 0 <= k < e + 1 - start implies is_digit(
                    #[trigger] c@.subrange(start as int, e + 1)[k],
                ) by {
                    if k < e - start {
                        assert(c@.subrange(start as int, e + 1)[k] == c@.subrange(start as int, e as int)[k]);
                    }
                }
            }
            e = e + 1;
        }
        let ghost digits_stop = e;
        let mut part = NumberPart::Integer;
        loop
            invariant
                start < e <= c@.len(),
                start == self.cursor,
                c@ == self.content@,
                number_tail(c@, digits_stop as int, NumberPart::Integer) == number_tail(c@, e as int, part),
                part == NumberPart::Integer ==> all_digits(c@.subrange(start as int, e as int)),
            ensures
                start < e <= c@.len(),
                number_tail(c@, digits_stop as int, NumberPart::Integer) == (e as int, part),
                part == NumberPart::Integer ==> all_digits(c@.subrange(start as int, e as int)),
            decreases c@.len() - e,
        {
            if e >= c.len() {
                break;
            }
            match number_next_exec(c[e], part) {
                Some(next) => {
                    proof {
                        if next == NumberPart::Integer {
                            assert forall|k: int| 0 <= k < e + 1 - start implies is_digit(
                                #[trigger] c@.subrange(start as int, e + 1)[k],
                            ) by {
                                if k < e - start {
                                    assert(c@.subrange(start as int, e + 1)[k] == c@.subrange(start as int, e as int)[k]);
                                }
                            }
                        }
                    }
                    part = next;
                    e = e + 1;
                },
                None => {
                    break;
                },
            }
        }
        let literal = sub_chars(c, start, e);
        if part == NumberPart::Integer {
            match parse_decimal(&literal) {
                Some(v) => {
                    proof {
                        lemma_decimal_value_bounds(literal@);
                        lemma_digits_len(v as nat, literal@.len());
                    }
                    Some((Token::Int(v), e - start))
                },
                None => None,
            }
        } else if part == NumberPart::Fraction || (part == NumberPart::ExponentSign
            && is_digit_char(c[e - 1])) {
            Some((Token::Float(crate::tokens::string_from_chars(literal)), e - start))
        } else {
            None
        }
    }

    /// Drops the group and moves past the next `-->`, or to the end of the
    /// text when there is none.
    fn exit_comment_block(&mut self, Ghost(base): Ghost<Point>)
        requires
            old(self).wf(base),
            old(self).cursor < old(self).content@.len(),
        ensures
            final(self).wf(base),
            final(self).state() == recover(old(self).state(), old(self).content@),
            final(self).content == old(self).content,
            old(self).cursor < final(self).cursor,
    {
        self.reset_token_group(Ghost(base));
        let found = find_close_from(&self.content, self.cursor);
        proof {
            lemma_find_close_bounds(self.content@, self.cursor as int);
        }
        let steps = match found {
            Some(f) => f + 3 - self.cursor,
            None => self.content.len() - self.cursor,
        };
        self.advance(steps, Ghost(base));
    }

    /// What the lexer does at the cursor.
    fn next_step(&self) -> (r: Step)
        requires
            self.cursor < self.content@.len(),
        ensures
            r.action() == lex_at(self.context, self.content@, self.cursor as int),
            r matches Step::Emit(t, n, ctx) ==> {
                &&& 1 <= n
                &&& self.cursor + n <= self.content@.len()
                &&& t@.text().len() <= n
                &&& ctx != LexerContext::Outside
            },
    {
        let c = &self.content;
        let i = self.cursor;
        let ch = c[i];
        let open = vec!['<', '!', '-', '-'];
        let close = vec!['-', '-', '>'];
        let consumer = vec!['{', '='];
        let provider = vec!['{', '@'];
        let closing = vec!['{', '/'];
        proof {
            assert(open@ =~= comment_open());
            assert(close@ =~= comment_close());
            assert(consumer@ =~= seq!['{', '=']);
            assert(provider@ =~= seq!['{', '@']);
            assert(closing@ =~= seq!['{', '/']);
        }
        match self.context {
            LexerContext::Outside => {
                if starts_with(c, i, &open) {
                    Step::Open
                } else {
                    Step::Skip
                }
            },
            LexerContext::HtmlComment => {
                if starts_with(c, i, &close) {
                    Step::Close
                } else if starts_with(c, i, &consumer) {
                    Step::Emit(Token::ConsumerTag, 2, LexerContext::Tag)
                } else if starts_with(c, i, &provider) {
                    Step::Emit(Token::ProviderTag, 2, LexerContext::Tag)
                } else if starts_with(c, i, &closing) {
                    Step::Emit(Token::CloseTag, 2, LexerContext::Tag)
                } else if ch == '\n' {
                    Step::Emit(Token::Newline, 1, LexerContext::HtmlComment)
                } else if is_ws_char(ch) {
                    Step::Emit(Token::Whitespace(ch as u8), 1, LexerContext::HtmlComment)
                } else {
                    Step::Recover
                }
            },
            LexerContext::Tag => {
                if ch == '\n' {
                    Step::Emit(Token::Newline, 1, LexerContext::Tag)
                } else if is_ws_char(ch) {
                    Step::Emit(Token::Whitespace(ch as u8), 1, LexerContext::Tag)
                } else if ch == '}' {
                    Step::Emit(Token::BraceClose, 1, LexerContext::HtmlComment)
                } else if ch == '|' {
                    Step::Emit(Token::Pipe, 1, LexerContext::Filter)
                } else if is_alpha_char(ch) {
                    let (t, n) = self.collect_identifier();
                    Step::Emit(t, n, LexerContext::Tag)
                } else {
                    Step::Recover
                }
            },
            LexerContext::Filter => {
                if ch == '\n' {
                    Step::Emit(Token::Newline, 1, LexerContext::Filter)
                } else if is_ws_char(ch) {
                    Step::Emit(Token::Whitespace(ch as u8), 1, LexerContext::Filter)
                } else if ch == ':' {
                    Step::Emit(Token::ArgumentDelimiter, 1, LexerContext::Filter)
                } else if ch == '|' {
                    Step::Emit(Token::Pipe, 1, LexerContext::Filter)
                } else if ch == '}' {
                    Step::Emit(Token::BraceClose, 1, LexerContext::HtmlComment)
                } else if ch == '\'' || ch == '"' {
                    match self.collect_string(ch) {
                        Some((t, n)) => Step::Emit(t, n, LexerContext::Filter),
                        None => Step::Recover,
                    }
                } else if is_digit_char(ch) {
                    match self.collect_number() {
                        Some((t, n)) => Step::Emit(t, n, LexerContext::Filter),
                        None => Step::Recover,
                    }
                } else if is_alpha_char(ch) {
                    let (t, n) = self.collect_identifier();
                    Step::Emit(t, n, LexerContext::Filter)
                } else {
                    Step::Recover
                }
            },
        }
    }
}

impl TokenizerState {
    /// Does what the lexer does at the cursor.
    fn step(&mut self, Ghost(base): Ghost<Point>)
        requires
            old(self).wf(base),
            old(self).cursor < old(self).content@.len(),
        ensures
            final(self).wf(base),
            final(self).state() == step(old(self).state(), old(self).content@),
            final(self).content == old(self).content,
            old(self).cursor < final(self).cursor <= final(self).content@.len(),
    {
        match self.next_step() {
            Step::Skip => self.advance(1, Ghost(base)),
            Step::Open => {
                proof {
                    self.lemma_point_fits(base, 0);
                    assert(self.token_group.token_views() =~= Seq::<TokenView>::empty());
                    assert(crate::tokens::tokens_text(Seq::<TokenView>::empty()) =~= Seq::<char>::empty());
                    assert(self.point.advanced(Seq::<char>::empty()) == self.point);
                }
                self.token_group.position = Position::from_point(self.point);
                self.context = LexerContext::HtmlComment;
                self.update_token_group(Token::HtmlCommentOpen, 4, Ghost(base));
            },
            Step::Emit(token, steps, next) => {
                self.context = next;
                self.update_token_group(token, steps, Ghost(base));
            },
            Step::Close => {
                self.update_token_group(Token::HtmlCommentClose, 3, Ghost(base));
                self.push_token_group(Ghost(base));
            },
            Step::Recover => self.exit_comment_block(Ghost(base)),
        }
    }

    /// Runs the lexer over the rest of the text.
    fn tokenize_node(&mut self, Ghost(base): Ghost<Point>)
        requires
            old(self).wf(base),
        ensures
            final(self).wf(base),
            final(self).state() == run_node(old(self).state(), old(self).content@),
            final(self).content == old(self).content,
    {
        let ghost s0 = self.state();
        let ghost c = self.content@;
        let ghost text = self.content;
        while self.cursor < self.content.len()
            invariant
                self.wf(base),
                self.content == text,
                self.content@ == c,
                run_node(s0, c) == run_node(self.state(), c),
            decreases c.len() - self.cursor,
        {
            self.step(Ghost(base));
        }
    }
}

/// Lexes each text in turn and returns the groups that form a tag: a
/// closing, provider or consumer tag. Material that cannot form a tag is
/// dropped on the way: a malformed comment is passed over up to its `-->`.
pub fn tokenize(nodes: Vec<HtmlNode>) -> (r: MdtResult<Vec<TokenGroup>>)
    requires
        forall|k: int|
            0 <= k < nodes@.len() ==> node_fits(#[trigger] nodes@[k]),
    ensures
        r is Ok,
        r matches Ok(groups) ==> {
            &&& group_views(groups@) == lex_nodes(nodes@)
            &&& forall|k: int|
                0 <= k < groups@.len() ==> {
                    &&& is_valid_tokens(#[trigger] groups@[k].token_views())
                    &&& groups@[k].spans_tokens()
                }
        },
{
    let mut groups: Vec<TokenGroup> = Vec::new();
    let mut k: usize = 0;
    proof {
        assert(nodes@.take(0) =~= Seq::<HtmlNode>::empty());
        assert(group_views(groups@) =~= Seq::<GroupView>::empty());
    }
    while k < nodes.len()
        invariant
            k <= nodes@.len(),
            forall|j: int|
                0 <= j < nodes@.len() ==> node_fits(#[trigger] nodes@[j]),
            group_views(groups@) == lex_nodes(nodes@.take(k as int)),
            forall|j: int|
                0 <= j < groups@.len() ==> {
                    &&& is_valid_tokens(#[trigger] groups@[j].token_views())
                    &&& groups@[j].spans_tokens()
                },
        decreases nodes@.len() - k,
    {
        let ghost before = group_views(groups@);
        proof {
            assert(nodes@.take(k + 1).drop_last() =~= nodes@.take(k as int));
        }
        if let Some(p) = nodes[k].position {
            let content = chars_of(nodes[k].value.as_str());
            let start = p.start;
            let mut state = TokenizerState {
                content,
                cursor: 0,
                point: start,
                token_group: TokenGroup { tokens: Vec::new(), position: Position::from_point(start) },
                groups,
                context: LexerContext::Outside,
            };
            proof {
                assert(state.content@.take(0) =~= Seq::<char>::empty());
                assert(start.advanced(Seq::<char>::empty()) == start);
                assert(state.token_group.token_views() =~= Seq::<TokenView>::empty());
                assert(crate::tokens::tokens_text(Seq::<TokenView>::empty()) =~= Seq::<char>::empty());
            }
            state.tokenize_node(Ghost(start));
            groups = state.groups;
        }
        k = k + 1;
    }
    proof {
        assert(nodes@.take(nodes@.len() as int) =~= nodes@);
    }
    Ok(groups)
}

/// The index of the first `needle` in `haystack`.
pub fn memchr(haystack: &[u8], needle: u8) -> (r: Option<usize>)
    ensures
        match r {
            Some(i) => i < haystack@.len() && haystack@[i as int] == needle && forall|j: int|
                0 <= j < i ==> haystack@[j] != needle,
            None => forall|j: int| 0 <= j < haystack@.len() ==> haystack@[j] != needle,
        },
{
    let mut i: usize = 0;
    while i < haystack.len()
        invariant
            i <= haystack@.len(),
            forall|j: int| 0 <= j < i ==> haystack@[j] != needle,
        decreases haystack@.len() - i,
    {
        if haystack[i] == needle {
            return Some(i);
        }
        i = i + 1;
    }
    None
}

/// Whether `needle` is written in `haystack` at index `i`.
pub open spec fn window_at(haystack: Seq<u8>, needle: Seq<u8>, i: int) -> bool {
    0 <= i && i + needle.len() <= haystack.len() && haystack.subrange(i, i + needle.len())
        == needle
}

/// The index of the first window of `haystack` that equals `needle`.
pub fn memstr(haystack: &[u8], needle: &[u8]) -> (r: Option<usize>)
    requires
        needle@.len() > 0,
    ensures
        match r {
            Some(i) => window_at(haystack@, needle@, i as int) && forall|j: int|
                0 <= j < i ==> !window_at(haystack@, needle@, j),
            None => forall|j: int| 0 <= j ==> !window_at(haystack@, needle@, j),
        },
{
    if needle.len() > haystack.len() {
        return None;
    }
    let last = haystack.len() - needle.len();
    let mut i: usize = 0;
    while i <= last
        invariant
            last == haystack@.len() - needle@.len(),
            forall|j: int| 0 <= j < i ==> !window_at(haystack@, needle@, j),
        decreases last + 1 - i,
    {
        let mut k: usize = 0;
        let mut same = true;
        while k < needle.len()
            invariant
                i <= last,
                last == haystack@.len() - needle@.len(),
                haystack@.len() == haystack.len(),
                k <= needle@.len(),
                same == forall|x: int| 0 <= x < k ==> haystack@[i + x] == needle@[x],
            decreases needle@.len() - k,
        {
            if haystack[i + k] != needle[k] {
                same = false;
            }
            k = k + 1;
        }
        if same {
            assert(haystack@.subrange(i as int, i + needle@.len()) =~= needle@);
            return Some(i);
        }
        proof {
            let x = choose|x: int| 0 <= x < needle@.len() && haystack@[i + x] != needle@[x];
            assert(haystack@.subrange(i as int, i + needle@.len())[x] != needle@[x]);
        }
        if i == last {
            return None;
        }
        i = i + 1;
    }
    None
}

} // verus!
