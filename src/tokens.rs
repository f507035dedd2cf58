use vstd::prelude::*;

use crate::position::Point;
use crate::position::Position;

verus! {

/// The lexical units of the tag language. Only the tags are tokenised, not
/// the content around them.
#[derive(Debug, Clone)]
pub enum Token {
    /// `\n`
    Newline,
    /// `<!--`
    HtmlCommentOpen,
    /// `-->`
    HtmlCommentClose,
    /// `{=`
    ConsumerTag,
    /// `{@`
    ProviderTag,
    /// `{/`
    CloseTag,
    /// `}`
    BraceClose,
    /// `|`
    Pipe,
    /// `:`
    ArgumentDelimiter,
    /// ` ` | `\t` | `\r` and the other ASCII whitespace bytes.
    Whitespace(u8),
    /// String content passed into a filter, with the quote byte that
    /// delimited it, e.g. `"my content"`.
    String(String, u8),
    /// An identifier, e.g. `exampleName`.
    Ident(String),
    /// An integer number, e.g. `123`.
    Int(i64),
    /// A floating point number, kept as the literal that was written, e.g.
    /// `123.456` or `1e-3`.
    Float(String),
}

/// What a token holds, with its text as character sequences.
pub enum TokenView {
    Newline,
    HtmlCommentOpen,
    HtmlCommentClose,
    ConsumerTag,
    ProviderTag,
    CloseTag,
    BraceClose,
    Pipe,
    ArgumentDelimiter,
    Whitespace(u8),
    String(Seq<char>, u8),
    Ident(Seq<char>),
    Int(i64),
    Float(Seq<char>),
}

impl View for Token {
    type V = TokenView;

    open spec fn view(&self) -> TokenView {
        match self {
            Token::Newline => TokenView::Newline,
            Token::HtmlCommentOpen => TokenView::HtmlCommentOpen,
            Token::HtmlCommentClose => TokenView::HtmlCommentClose,
            Token::ConsumerTag => TokenView::ConsumerTag,
            Token::ProviderTag => TokenView::ProviderTag,
            Token::CloseTag => TokenView::CloseTag,
            Token::BraceClose => TokenView::BraceClose,
            Token::Pipe => TokenView::Pipe,
            Token::ArgumentDelimiter => TokenView::ArgumentDelimiter,
            Token::Whitespace(b) => TokenView::Whitespace(*b),
            Token::String(s, d) => TokenView::String(s@, *d),
            Token::Ident(s) => TokenView::Ident(s@),
            Token::Int(n) => TokenView::Int(*n),
            Token::Float(s) => TokenView::Float(s@),
        }
    }
}

/// The views of a sequence of tokens.
pub open spec fn views(tokens: Seq<Token>) -> Seq<TokenView> {
    tokens.map_values(|t: Token| t@)
}

pub proof fn lemma_views(tokens: Seq<Token>)
    ensures
        views(tokens).len() == tokens.len(),
        forall|k: int| 0 <= k < tokens.len() ==> #[trigger] views(tokens)[k] == tokens[k]@,
{
}

/// The character of a decimal digit.
pub open spec fn digit_char(d: int) -> char {
    if d == 0 {
        '0'
    } else if d == 1 {
        '1'
    } else if d == 2 {
        '2'
    } else if d == 3 {
        '3'
    } else if d == 4 {
        '4'
    } else if d == 5 {
        '5'
    } else if d == 6 {
        '6'
    } else if d == 7 {
        '7'
    } else if d == 8 {
        '8'
    } else {
        '9'
    }
}

/// The decimal digits of `n`, most significant first, without leading zeros.
pub open spec fn digits(n: nat) -> Seq<char>
    decreases n,
{
    if n < 10 {
        seq![digit_char(n as int)]
    } else {
        digits(n / 10).push(digit_char((n % 10) as int))
    }
}

/// The decimal text of an integer, with a leading `-` when it is negative.
pub open spec fn int_text(n: int) -> Seq<char> {
    if n < 0 {
        seq!['-'] + digits((-n) as nat)
    } else {
        digits(n as nat)
    }
}

/// `"*"`, the wildcard name.
pub open spec fn wildcard() -> Seq<char> {
    seq!['*']
}

impl TokenView {
    /// The canonical text of a token.
    pub open spec fn text(self) -> Seq<char> {
        match self {
            TokenView::Newline => seq!['\n'],
            TokenView::HtmlCommentOpen => seq!['<', '!', '-', '-'],
            TokenView::HtmlCommentClose => seq!['-', '-', '>'],
            TokenView::ConsumerTag => seq!['{', '='],
            TokenView::ProviderTag => seq!['{', '@'],
            TokenView::CloseTag => seq!['{', '/'],
            TokenView::BraceClose => seq!['}'],
            TokenView::Pipe => seq!['|'],
            TokenView::ArgumentDelimiter => seq![':'],
            TokenView::Whitespace(b) => seq![b as char],
            TokenView::String(s, d) => seq![d as char] + s + seq![d as char],
            TokenView::Ident(s) => s,
            TokenView::Int(n) => int_text(n as int),
            TokenView::Float(s) => s,
        }
    }

    /// The byte length of a token as it is written.
    pub open spec fn increment(self) -> int {
        match self {
            TokenView::Newline => 1,
            TokenView::HtmlCommentOpen => 4,
            TokenView::HtmlCommentClose => 3,
            TokenView::ConsumerTag => 2,
            TokenView::ProviderTag => 2,
            TokenView::CloseTag => 2,
            TokenView::BraceClose => 1,
            TokenView::Pipe => 1,
            TokenView::ArgumentDelimiter => 1,
            TokenView::Whitespace(_) => 1,
            TokenView::String(s, _) => vstd::utf8::encode_utf8(s).len() + 2 as int,
            TokenView::Ident(s) => vstd::utf8::encode_utf8(s).len() as int,
            TokenView::Int(n) => int_text(n as int).len() as int,
            TokenView::Float(s) => vstd::utf8::encode_utf8(s).len() as int,
        }
    }

    /// Pattern equality: `Ident("*")` matches every identifier and
    /// `Whitespace(b'*')` every whitespace byte; strings, integers and floats
    /// match by kind alone; every other token matches only itself.
    pub open spec fn same_type(self, other: TokenView) -> bool {
        match (self, other) {
            (TokenView::String(..), TokenView::String(..)) => true,
            (TokenView::Int(_), TokenView::Int(_)) => true,
            (TokenView::Float(_), TokenView::Float(_)) => true,
            (TokenView::Ident(a), TokenView::Ident(b)) => a == wildcard() || b == wildcard() || a
                == b,
            (TokenView::Whitespace(a), TokenView::Whitespace(b)) => a == 42 || b == 42 || a == b,
            _ => self == other,
        }
    }
}

/// Pattern equality is symmetric.
pub proof fn lemma_same_type_symmetric(a: TokenView, b: TokenView)
    ensures
        a.same_type(b) == b.same_type(a),
{
}

/// The wildcard identifier matches every identifier, from either side.
pub proof fn lemma_wildcard_matches_every_ident(name: Seq<char>)
    ensures
        TokenView::Ident(wildcard()).same_type(TokenView::Ident(name)),
        TokenView::Ident(name).same_type(TokenView::Ident(wildcard())),
{
}

/// Two distinct names that are not the wildcard do not match.
pub proof fn lemma_distinct_names_differ(a: Seq<char>, b: Seq<char>)
    requires
        a != b,
        a != wildcard(),
        b != wildcard(),
    ensures
        !TokenView::Ident(a).same_type(TokenView::Ident(b)),
{
}

/// The character of the decimal digit `d`.
fn digit(d: u64) -> (c: char)
    requires
        d < 10,
    ensures
        c == digit_char(d as int),
{
    if d == 0 {
        '0'
    } else if d == 1 {
        '1'
    } else if d == 2 {
        '2'
    } else if d == 3 {
        '3'
    } else if d == 4 {
        '4'
    } else if d == 5 {
        '5'
    } else if d == 6 {
        '6'
    } else if d == 7 {
        '7'
    } else if d == 8 {
        '8'
    } else {
        '9'
    }
}

fn push_digits(n: u64, out: &mut Vec<char>)
    ensures
        final(out)@ == old(out)@ + digits(n as nat),
    decreases n,
{
    if n >= 10 {
        push_digits(n / 10, out);
    }
    out.push(digit(n % 10));
    proof {
        if n >= 10 {
            assert(old(out)@ + digits((n / 10) as nat) + seq![digit_char((n % 10) as int)]
                =~= old(out)@ + digits(n as nat));
        } else {
            assert(old(out)@ + seq![digit_char(n as int)] =~= old(out)@ + digits(n as nat));
        }
    }
}

fn push_str(s: &str, out: &mut Vec<char>)
    ensures
        final(out)@ == old(out)@ + s@,
{
    let ghost start = out@;
    for c in it: s.chars()
        invariant
            it.seq() == s@,
            out@ == start + s@.take(it.index() as int),
    {
        proof {
            assert(s@.take(it.index() + 1) =~= s@.take(it.index() as int).push(c));
        }
        out.push(c);
    }
    proof {
        assert(s@.take(s@.len() as int) =~= s@);
    }
}

/// Relies on `String::from_iter` over `char`s: the string holds the
/// characters in order.
#[verifier::external_body]
pub(crate) fn string_from_chars(chars: Vec<char>) -> (r: String)
    ensures
        r@ == chars@,
{
    String::from_iter(chars)
}

impl Token {
    /// The byte length of the token as it is written.
    pub fn increment(&self) -> (r: usize)
        requires
            self@.increment() <= usize::MAX,
        ensures
            r == self@.increment(),
    {
        match self {
            Token::Newline => 1,
            Token::HtmlCommentOpen => 4,
            Token::HtmlCommentClose => 3,
            Token::ProviderTag => 2,
            Token::ConsumerTag => 2,
            Token::CloseTag => 2,
            Token::BraceClose => 1,
            Token::Pipe => 1,
            Token::ArgumentDelimiter => 1,
            Token::Whitespace(_) => 1,
            Token::String(s, _) => s.as_str().len() + 2,
            Token::Ident(s) => s.as_str().len(),
            Token::Int(n) => {
                let mut text: Vec<char> = Vec::new();
                push_int(*n, &mut text);
                proof {
                    assert(text@ =~= int_text(*n as int));
                }
                text.len()
            },
            Token::Float(s) => s.as_str().len(),
        }
    }

    /// Pattern equality, see [`TokenView::same_type`].
    pub fn same_type(&self, other: &Token) -> (r: bool)
        ensures
            r == self@.same_type(other@),
    {
        match (self, other) {
            (Token::String(..), Token::String(..)) => true,
            (Token::Int(_), Token::Int(_)) => true,
            (Token::Float(_), Token::Float(_)) => true,
            (Token::Ident(a), Token::Ident(b)) => {
                is_wildcard(a) || is_wildcard(b) || a.eq(b)
            },
            (Token::Whitespace(a), Token::Whitespace(b)) => *a == 42 || *b == 42 || *a == *b,
            _ => self.eq(other),
        }
    }

    /// Appends the canonical text of the token to `out`.
    pub fn push_text(&self, out: &mut Vec<char>)
        ensures
            final(out)@ == old(out)@ + self@.text(),
    {
        let ghost start = out@;
        match self {
            Token::Newline => out.push('\n'),
            Token::HtmlCommentOpen => {
                out.push('<');
                out.push('!');
                out.push('-');
                out.push('-');
            },
            Token::HtmlCommentClose => {
                out.push('-');
                out.push('-');
                out.push('>');
            },
            Token::ConsumerTag => {
                out.push('{');
                out.push('=');
            },
            Token::ProviderTag => {
                out.push('{');
                out.push('@');
            },
            Token::CloseTag => {
                out.push('{');
                out.push('/');
            },
            Token::BraceClose => out.push('}'),
            Token::Pipe => out.push('|'),
            Token::ArgumentDelimiter => out.push(':'),
            Token::Whitespace(b) => out.push(*b as char),
            Token::String(s, d) => {
                out.push(*d as char);
                push_str(s.as_str(), out);
                out.push(*d as char);
            },
            Token::Ident(s) => push_str(s.as_str(), out),
            Token::Int(n) => push_int(*n, out),
            Token::Float(s) => push_str(s.as_str(), out),
        }
        proof {
            assert(out@ =~= start + self@.text());
        }
    }

    /// The canonical text of the token.
    pub fn to_string(&self) -> (r: String)
        ensures
            r@ == self@.text(),
    {
        let mut text: Vec<char> = Vec::new();
        self.push_text(&mut text);
        proof {
            assert(text@ =~= self@.text());
        }
        string_from_chars(text)
    }
}

fn is_wildcard(s: &String) -> (r: bool)
    ensures
        r == (s@ == wildcard()),
{
    let t = s.as_str();
    if t.unicode_len() != 1 {
        return false;
    }
    let c = t.get_char(0);
    proof {
        if c == '*' {
            assert(s@ =~= wildcard());
        }
    }
    c == '*'
}

fn push_int(n: i64, out: &mut Vec<char>)
    ensures
        final(out)@ == old(out)@ + int_text(n as int),
{
    if n < 0 {
        out.push('-');
        let m: i128 = -(n as i128);
        push_digits(m as u64, out);
        proof {
            assert(old(out)@ + int_text(n as int) =~= old(out)@ + seq!['-'] + digits(
                (-n) as nat,
            ));
        }
    } else {
        push_digits(n as u64, out);
    }
}

/// The text of a sequence of tokens, written one after another.
pub open spec fn tokens_text(tokens: Seq<TokenView>) -> Seq<char>
    decreases tokens.len(),
{
    if tokens.len() == 0 {
        Seq::empty()
    } else {
        tokens_text(tokens.drop_last()) + tokens.last().text()
    }
}

pub proof fn lemma_tokens_text_concat(a: Seq<TokenView>, b: Seq<TokenView>)
    ensures
        tokens_text(a + b) == tokens_text(a) + tokens_text(b),
    decreases b.len(),
{
    if b.len() == 0 {
        assert(a + b =~= a);
        assert(tokens_text(a) + tokens_text(b) =~= tokens_text(a));
    } else {
        assert((a + b).drop_last() =~= a + b.drop_last());
        lemma_tokens_text_concat(a, b.drop_last());
        assert(tokens_text(a) + tokens_text(b.drop_last()) + b.last().text() =~= tokens_text(a)
            + tokens_text(b));
    }
}

/// Appends the text of `tokens[from..to]` to `out`.
pub(crate) fn push_tokens_text(tokens: &Vec<Token>, from: usize, to: usize, out: &mut Vec<char>)
    requires
        from <= to <= tokens@.len(),
    ensures
        final(out)@ == old(out)@ + tokens_text(views(tokens@).subrange(from as int, to as int)),
{
    let ghost start = out@;
    let mut i: usize = from;
    while i < to
        invariant
            from <= i <= to <= tokens@.len(),
            out@ == start + tokens_text(views(tokens@).subrange(from as int, i as int)),
        decreases to - i,
    {
        tokens[i].push_text(out);
        proof {
            let vs = views(tokens@);
            assert(vs.subrange(from as int, i + 1).drop_last() =~= vs.subrange(from as int, i as int));
        }
        i = i + 1;
    }
}

/// Clamps `v` into `[lo, hi]`.
pub open spec fn clamp(v: int, lo: int, hi: int) -> int {
    if v < lo {
        lo
    } else if v > hi {
        hi
    } else {
        v
    }
}

/// An optional index, widened to `int`.
pub open spec fn as_int(o: Option<usize>) -> Option<int> {
    match o {
        Some(v) => Some(v as int),
        None => None,
    }
}

/// One side of an index range.
#[derive(Clone, Copy, PartialEq, Eq, Structural, Debug)]
pub enum RangeBound {
    Included(usize),
    Excluded(usize),
    Unbounded,
}

/// A range of token indices, as given by either of its two bounds.
#[derive(Clone, Copy, PartialEq, Eq, Structural, Debug)]
pub struct DynamicRange {
    pub start_bound: RangeBound,
    pub end_bound: RangeBound,
}

impl DynamicRange {
    /// The first index of the range, if it is bounded below.
    pub open spec fn start_index(self) -> Option<int> {
        match self.start_bound {
            RangeBound::Included(v) => Some(v as int),
            RangeBound::Excluded(v) => Some(v as int),
            RangeBound::Unbounded => None,
        }
    }

    /// The index just past the range, if it is bounded above.
    pub open spec fn end_index(self) -> Option<int> {
        match self.end_bound {
            RangeBound::Included(v) => Some(v + 1),
            RangeBound::Excluded(v) => Some(v as int),
            RangeBound::Unbounded => None,
        }
    }

    pub fn start(&self) -> (r: Option<usize>)
        ensures
            as_int(r) == self.start_index(),
    {
        match self.start_bound {
            RangeBound::Included(v) => Some(v),
            RangeBound::Excluded(v) => Some(v),
            RangeBound::Unbounded => None,
        }
    }

    pub fn end(&self) -> (r: Option<usize>)
        requires
            self.end_bound != RangeBound::Included(usize::MAX),
        ensures
            as_int(r) == self.end_index(),
    {
        match self.end_bound {
            RangeBound::Included(v) => Some(v + 1),
            RangeBound::Excluded(v) => Some(v),
            RangeBound::Unbounded => None,
        }
    }
}

/// The first index and the index just past a range given by its two bounds.
pub fn get_bounds_index(bounds: (RangeBound, RangeBound)) -> (r: (Option<usize>, Option<usize>))
    requires
        bounds.1 != RangeBound::Included(usize::MAX),
    ensures
        as_int(r.0) == (DynamicRange { start_bound: bounds.0, end_bound: bounds.1 }).start_index(),
        as_int(r.1) == (DynamicRange { start_bound: bounds.0, end_bound: bounds.1 }).end_index(),
{
    let range = DynamicRange { start_bound: bounds.0, end_bound: bounds.1 };
    (range.start(), range.end())
}

/// Anything that names a range of token indices: a single index, a range or
/// a pair of bounds.
pub trait GetDynamicRange {
    spec fn dynamic_range(&self) -> DynamicRange;

    fn get_dynamic_range(&self) -> (r: DynamicRange)
        ensures
            r == self.dynamic_range(),
    ;
}

impl GetDynamicRange for usize {
    open spec fn dynamic_range(&self) -> DynamicRange {
        DynamicRange { start_bound: RangeBound::Included(*self), end_bound: RangeBound::Included(*self) }
    }

    fn get_dynamic_range(&self) -> (r: DynamicRange) {
        DynamicRange { start_bound: RangeBound::Included(*self), end_bound: RangeBound::Included(*self) }
    }
}

impl GetDynamicRange for u32 {
    open spec fn dynamic_range(&self) -> DynamicRange {
        DynamicRange { start_bound: RangeBound::Included(*self as usize), end_bound: RangeBound::Included(*self as usize) }
    }

    fn get_dynamic_range(&self) -> (r: DynamicRange) {
        DynamicRange { start_bound: RangeBound::Included(*self as usize), end_bound: RangeBound::Included(*self as usize) }
    }
}

impl GetDynamicRange for u16 {
    open spec fn dynamic_range(&self) -> DynamicRange {
        DynamicRange { start_bound: RangeBound::Included(*self as usize), end_bound: RangeBound::Included(*self as usize) }
    }

    fn get_dynamic_range(&self) -> (r: DynamicRange) {
        DynamicRange { start_bound: RangeBound::Included(*self as usize), end_bound: RangeBound::Included(*self as usize) }
    }
}

impl GetDynamicRange for u8 {
    open spec fn dynamic_range(&self) -> DynamicRange {
        DynamicRange { start_bound: RangeBound::Included(*self as usize), end_bound: RangeBound::Included(*self as usize) }
    }

    fn get_dynamic_range(&self) -> (r: DynamicRange) {
        DynamicRange { start_bound: RangeBound::Included(*self as usize), end_bound: RangeBound::Included(*self as usize) }
    }
}

impl GetDynamicRange for u64 {
    open spec fn dynamic_range(&self) -> DynamicRange {
        DynamicRange { start_bound: RangeBound::Included(*self as usize), end_bound: RangeBound::Included(*self as usize) }
    }

    fn get_dynamic_range(&self) -> (r: DynamicRange) {
        let index = #[verifier::truncate] (*self as usize);
        DynamicRange { start_bound: RangeBound::Included(index), end_bound: RangeBound::Included(index) }
    }
}

impl GetDynamicRange for u128 {
    open spec fn dynamic_range(&self) -> DynamicRange {
        DynamicRange { start_bound: RangeBound::Included(*self as usize), end_bound: RangeBound::Included(*self as usize) }
    }

    fn get_dynamic_range(&self) -> (r: DynamicRange) {
        let index = #[verifier::truncate] (*self as usize);
        DynamicRange { start_bound: RangeBound::Included(index), end_bound: RangeBound::Included(index) }
    }
}

impl GetDynamicRange for isize {
    open spec fn dynamic_range(&self) -> DynamicRange {
        DynamicRange { start_bound: RangeBound::Included(*self as usize), end_bound: RangeBound::Included(*self as usize) }
    }

    fn get_dynamic_range(&self) -> (r: DynamicRange) {
        let index = #[verifier::truncate] (*self as usize);
        DynamicRange { start_bound: RangeBound::Included(index), end_bound: RangeBound::Included(index) }
    }
}

impl GetDynamicRange for i8 {
    open spec fn dynamic_range(&self) -> DynamicRange {
        DynamicRange { start_bound: RangeBound::Included(*self as usize), end_bound: RangeBound::Included(*self as usize) }
    }

    fn get_dynamic_range(&self) -> (r: DynamicRange) {
        let index = #[verifier::truncate] (*self as usize);
        DynamicRange { start_bound: RangeBound::Included(index), end_bound: RangeBound::Included(index) }
    }
}

impl GetDynamicRange for i16 {
    open spec fn dynamic_range(&self) -> DynamicRange {
        DynamicRange { start_bound: RangeBound::Included(*self as usize), end_bound: RangeBound::Included(*self as usize) }
    }

    fn get_dynamic_range(&self) -> (r: DynamicRange) {
        let index = #[verifier::truncate] (*self as usize);
        DynamicRange { start_bound: RangeBound::Included(index), end_bound: RangeBound::Included(index) }
    }
}

impl GetDynamicRange for i32 {
    open spec fn dynamic_range(&self) -> DynamicRange {
        DynamicRange { start_bound: RangeBound::Included(*self as usize), end_bound: RangeBound::Included(*self as usize) }
    }

    fn get_dynamic_range(&self) -> (r: DynamicRange) {
        let index = #[verifier::truncate] (*self as usize);
        DynamicRange { start_bound: RangeBound::Included(index), end_bound: RangeBound::Included(index) }
    }
}

impl GetDynamicRange for i64 {
    open spec fn dynamic_range(&self) -> DynamicRange {
        DynamicRange { start_bound: RangeBound::Included(*self as usize), end_bound: RangeBound::Included(*self as usize) }
    }

    fn get_dynamic_range(&self) -> (r: DynamicRange) {
        let index = #[verifier::truncate] (*self as usize);
        DynamicRange { start_bound: RangeBound::Included(index), end_bound: RangeBound::Included(index) }
    }
}

impl GetDynamicRange for i128 {
    open spec fn dynamic_range(&self) -> DynamicRange {
        DynamicRange { start_bound: RangeBound::Included(*self as usize), end_bound: RangeBound::Included(*self as usize) }
    }

    fn get_dynamic_range(&self) -> (r: DynamicRange) {
        let index = #[verifier::truncate] (*self as usize);
        DynamicRange { start_bound: RangeBound::Included(index), end_bound: RangeBound::Included(index) }
    }
}

impl GetDynamicRange for core::ops::Range<usize> {
    open spec fn dynamic_range(&self) -> DynamicRange {
        DynamicRange { start_bound: RangeBound::Included(self.start), end_bound: RangeBound::Excluded(self.end) }
    }

    fn get_dynamic_range(&self) -> (r: DynamicRange) {
        DynamicRange { start_bound: RangeBound::Included(self.start), end_bound: RangeBound::Excluded(self.end) }
    }
}

impl GetDynamicRange for (RangeBound, RangeBound) {
    open spec fn dynamic_range(&self) -> DynamicRange {
        DynamicRange { start_bound: self.0, end_bound: self.1 }
    }

    fn get_dynamic_range(&self) -> (r: DynamicRange) {
        DynamicRange { start_bound: self.0, end_bound: self.1 }
    }
}

impl GetDynamicRange for DynamicRange {
    open spec fn dynamic_range(&self) -> DynamicRange {
        *self
    }

    fn get_dynamic_range(&self) -> (r: DynamicRange) {
        *self
    }
}

/// What a token group holds, as mathematical values.
pub struct GroupView {
    pub tokens: Seq<TokenView>,
    pub position: Position,
}

/// A sequence of tokens that together make one attempt at a tag, with the
/// region of the source that they span.
#[derive(Debug, Clone)]
pub struct TokenGroup {
    pub tokens: Vec<Token>,
    pub position: Position,
}

impl View for TokenGroup {
    type V = GroupView;

    open spec fn view(&self) -> GroupView {
        GroupView { tokens: views(self.tokens@), position: self.position }
    }
}

impl TokenGroup {
    pub open spec fn token_views(&self) -> Seq<TokenView> {
        views(self.tokens@)
    }

    /// Whether the position spans exactly the text of the tokens.
    pub open spec fn spans_tokens(&self) -> bool {
        &&& self.position.start.can_advance(tokens_text(self.token_views()))
        &&& self.position.end == self.position.start.advanced(tokens_text(self.token_views()))
    }

    /// The first token of `range`, clamped to the tokens that exist.
    pub open spec fn range_first(&self, range: DynamicRange) -> int {
        clamp(range.start_index().unwrap_or(0), 0, self.tokens@.len() - 1)
    }

    /// The index just past `range`, clamped to the tokens that exist.
    pub open spec fn range_last(&self, range: DynamicRange) -> int {
        clamp(range.end_index().unwrap_or(self.tokens@.len() as int), 0, self.tokens@.len() as int)
    }

    /// The region spanned by the tokens of `range`: its start lies after the
    /// text of the tokens before the range, its end after the text of the
    /// tokens in it (or at its start when the range is empty).
    pub open spec fn position_of(&self, range: DynamicRange) -> Position {
        let first = self.range_first(range);
        let last = self.range_last(range);
        let start = self.position.start.advanced(tokens_text(self.token_views().take(first)));
        Position {
            start,
            end: if first <= last {
                start.advanced(tokens_text(self.token_views().subrange(first, last)))
            } else {
                start
            },
        }
    }

    fn range_indices(&self, range: &DynamicRange) -> (r: (usize, usize))
        requires
            self.tokens@.len() > 0,
        ensures
            r.0 == self.range_first(*range),
            r.1 == self.range_last(*range),
    {
        let max = self.tokens.len();
        let first: usize = match range.start_bound {
            RangeBound::Included(v) => if v > max - 1 { max - 1 } else { v },
            RangeBound::Excluded(v) => if v > max - 1 { max - 1 } else { v },
            RangeBound::Unbounded => 0,
        };
        let last: usize = match range.end_bound {
            RangeBound::Included(v) => if v >= max { max } else { v + 1 },
            RangeBound::Excluded(v) => if v > max { max } else { v },
            RangeBound::Unbounded => max,
        };
        (first, last)
    }

    /// The position of a range of the tokens. Indices out of bounds are
    /// limited to the tokens that exist.
    pub fn position_of_range<R: GetDynamicRange>(&self, range: R) -> (r: Position)
        requires
            self.tokens@.len() > 0,
            self.position.start.can_advance(tokens_text(self.token_views())),
        ensures
            r == self.position_of(range.dynamic_range()),
    {
        let range = range.get_dynamic_range();
        let (first, last) = self.range_indices(&range);
        proof {
            lemma_split_advance(self.position.start, self.token_views(), first as int, last as int);
        }
        let mut position = self.position;
        advance_over_tokens(&mut position.start, &self.tokens, 0, first);
        position.end = position.start;
        if first <= last {
            advance_over_tokens(&mut position.end, &self.tokens, first, last);
        }
        position
    }
}

/// Walking the whole text of `vs` from `p` fits, so walking the text before
/// `first`, and then that of `first..last`, fits too.
proof fn lemma_split_advance(p: Point, vs: Seq<TokenView>, first: int, last: int)
    requires
        0 <= first <= vs.len(),
        0 <= last <= vs.len(),
        p.can_advance(tokens_text(vs)),
    ensures
        vs.subrange(0, first) == vs.take(first),
        p.can_advance(tokens_text(vs.take(first))),
        first <= last ==> p.advanced(tokens_text(vs.take(first))).can_advance(
            tokens_text(vs.subrange(first, last)),
        ),
{
    assert(vs.subrange(0, first) =~= vs.take(first));
    let before = tokens_text(vs.take(first));
    assert(vs.take(first) + vs.skip(first) =~= vs);
    lemma_tokens_text_concat(vs.take(first), vs.skip(first));
    p.lemma_advanced_concat(before, tokens_text(vs.skip(first)));
    if first <= last {
        let q = p.advanced(before);
        assert(vs.subrange(first, last) + vs.skip(last) =~= vs.skip(first));
        lemma_tokens_text_concat(vs.subrange(first, last), vs.skip(last));
        q.lemma_advanced_concat(tokens_text(vs.subrange(first, last)), tokens_text(vs.skip(last)));
    }
}

/// Moves `p` over the text of `tokens[from..to]`.
fn advance_over_tokens(p: &mut Point, tokens: &Vec<Token>, from: usize, to: usize)
    requires
        from <= to <= tokens@.len(),
        old(p).can_advance(tokens_text(views(tokens@).subrange(from as int, to as int))),
    ensures
        *final(p) == old(p).advanced(tokens_text(views(tokens@).subrange(from as int, to as int))),
{
    let mut text: Vec<char> = Vec::new();
    push_tokens_text(tokens, from, to, &mut text);
    proof {
        assert(text@.subrange(0, text@.len() as int) =~= text@);
        assert(Seq::<char>::empty() + tokens_text(views(tokens@).subrange(from as int, to as int))
            =~= tokens_text(views(tokens@).subrange(from as int, to as int)));
    }
    p.advance_slice(&text, 0, text.len());
}

/// For a group whose position spans its tokens, the range of all its tokens
/// is the group's own position, and an empty range `i..i` at any token index
/// has zero width.
pub proof fn lemma_range_containment(g: TokenGroup, i: usize)
    requires
        g.spans_tokens(),
        i < g.tokens@.len(),
    ensures
        g.position_of(
            DynamicRange {
                start_bound: RangeBound::Included(0),
                end_bound: RangeBound::Excluded(g.tokens.len()),
            },
        ) == g.position,
        g.position_of(
            DynamicRange { start_bound: RangeBound::Included(i), end_bound: RangeBound::Excluded(i) },
        ).start == g.position_of(
            DynamicRange { start_bound: RangeBound::Included(i), end_bound: RangeBound::Excluded(i) },
        ).end,
{
    let vs = g.token_views();
    assert(vs.take(0) =~= Seq::<TokenView>::empty());
    assert(vs.subrange(0, vs.len() as int) =~= vs);
    assert(tokens_text(vs.take(0)) =~= Seq::<char>::empty());
    assert(vs.subrange(i as int, i as int) =~= Seq::<TokenView>::empty());
    assert(tokens_text(vs.subrange(i as int, i as int)) =~= Seq::<char>::empty());
    let p = g.position.start;
    assert(p.advanced(Seq::<char>::empty()) == p);
    let q = p.advanced(tokens_text(vs.take(i as int)));
    assert(q.advanced(Seq::<char>::empty()) == q);
}

impl PartialEq for TokenGroup {
    fn eq(&self, other: &TokenGroup) -> (r: bool) {
        if self.position != other.position || self.tokens.len() != other.tokens.len() {
            proof {
                if self.tokens.len() != other.tokens.len() {
                    lemma_views(self.tokens@);
                    lemma_views(other.tokens@);
                }
            }
            return false;
        }
        let mut i: usize = 0;
        while i < self.tokens.len()
            invariant
                self.tokens@.len() == other.tokens@.len(),
                i <= self.tokens@.len(),
                forall|k: int| 0 <= k < i ==> self.tokens@[k]@ == other.tokens@[k]@,
            decreases self.tokens@.len() - i,
        {
            if !self.tokens[i].eq(&other.tokens[i]) {
                proof {
                    lemma_views(self.tokens@);
                    lemma_views(other.tokens@);
                    assert(views(self.tokens@)[i as int] != views(other.tokens@)[i as int]);
                }
                return false;
            }
            i = i + 1;
        }
        proof {
            lemma_views(self.tokens@);
            lemma_views(other.tokens@);
            assert(views(self.tokens@) =~= views(other.tokens@));
        }
        true
    }
}

impl vstd::std_specs::cmp::PartialEqSpecImpl for TokenGroup {
    open spec fn obeys_eq_spec() -> bool {
        true
    }

    /// The same tokens, structurally equal, over the same region.
    open spec fn eq_spec(&self, other: &TokenGroup) -> bool {
        self@ == other@
    }
}

impl Eq for TokenGroup {}

impl PartialEq for Token {
    fn eq(&self, other: &Token) -> (r: bool) {
        match (self, other) {
            (Token::Newline, Token::Newline) => true,
            (Token::HtmlCommentOpen, Token::HtmlCommentOpen) => true,
            (Token::HtmlCommentClose, Token::HtmlCommentClose) => true,
            (Token::ConsumerTag, Token::ConsumerTag) => true,
            (Token::ProviderTag, Token::ProviderTag) => true,
            (Token::CloseTag, Token::CloseTag) => true,
            (Token::BraceClose, Token::BraceClose) => true,
            (Token::Pipe, Token::Pipe) => true,
            (Token::ArgumentDelimiter, Token::ArgumentDelimiter) => true,
            (Token::Whitespace(a), Token::Whitespace(b)) => *a == *b,
            (Token::String(a, x), Token::String(b, y)) => {
                let same = a.eq(b);
                same && *x == *y
            },
            (Token::Ident(a), Token::Ident(b)) => a.eq(b),
            (Token::Int(a), Token::Int(b)) => *a == *b,
            (Token::Float(a), Token::Float(b)) => a.eq(b),
            _ => false,
        }
    }
}

impl vstd::std_specs::cmp::PartialEqSpecImpl for Token {
    open spec fn obeys_eq_spec() -> bool {
        true
    }

    /// Structural equality: the same kind holding the same values.
    open spec fn eq_spec(&self, other: &Token) -> bool {
        self@ == other@
    }
}

impl Eq for Token {}

} // verus!
