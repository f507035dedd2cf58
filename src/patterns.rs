use vstd::prelude::*;

use crate::error::MdtError;
use crate::error::MdtResult;
use crate::tokens::Token;
use crate::tokens::TokenGroup;
use crate::tokens::TokenView;
use crate::tokens::lemma_views;
use crate::tokens::wildcard;

verus! {

/// One node of a grammar. A matcher is applied to the tokens of a group at an
/// index and either consumes some tokens, giving the index after them, or
/// fails at an index.
#[derive(Debug)]
pub enum PatternMatcher {
    /// Exactly one token that pattern-equals one of these.
    One(Vec<Token>),
    /// One or more consecutive tokens, each pattern-equal to one of these.
    Many(Vec<Token>),
    /// Like `One`, but never fails: when no token matches, consumes nothing.
    Optional(Vec<Token>),
    /// Like `Many`, but never fails: when no token matches, consumes nothing.
    OptionalMany(Vec<Token>),
    /// The nested matchers, one after another.
    Group(Vec<PatternMatcher>),
    /// The nested group, as many times in a row as it succeeds, at least once.
    ManyGroup(Vec<PatternMatcher>),
    /// The nested group, or nothing when it fails.
    OptionalGroup(Vec<PatternMatcher>),
    /// The nested group as many times as it succeeds, possibly none.
    OptionalManyGroup(Vec<PatternMatcher>),
}

/// A grammar node as a mathematical value.
pub enum Pattern {
    One(Seq<TokenView>),
    Many(Seq<TokenView>),
    Optional(Seq<TokenView>),
    OptionalMany(Seq<TokenView>),
    Group(Seq<Pattern>),
    ManyGroup(Seq<Pattern>),
    OptionalGroup(Seq<Pattern>),
    OptionalManyGroup(Seq<Pattern>),
}

/// The views of the tokens `ts`.
pub open spec fn token_list(ts: Seq<Token>) -> Seq<TokenView> {
    crate::tokens::views(ts)
}

/// The views of the matchers `ms`.
pub open spec fn pattern_list(ms: Seq<PatternMatcher>) -> Seq<Pattern>
    decreases ms,
{
    if ms.len() == 0 {
        Seq::empty()
    } else {
        pattern_list(ms.drop_last()).push(pattern_of(ms.last()))
    }
}

/// The view of the matcher `m`.
pub open spec fn pattern_of(m: PatternMatcher) -> Pattern
    decreases m,
{
    match m {
        PatternMatcher::One(ts) => Pattern::One(token_list(ts@)),
        PatternMatcher::Many(ts) => Pattern::Many(token_list(ts@)),
        PatternMatcher::Optional(ts) => Pattern::Optional(token_list(ts@)),
        PatternMatcher::OptionalMany(ts) => Pattern::OptionalMany(token_list(ts@)),
        PatternMatcher::Group(ms) => Pattern::Group(pattern_list(ms@)),
        PatternMatcher::ManyGroup(ms) => Pattern::ManyGroup(pattern_list(ms@)),
        PatternMatcher::OptionalGroup(ms) => Pattern::OptionalGroup(pattern_list(ms@)),
        PatternMatcher::OptionalManyGroup(ms) => Pattern::OptionalManyGroup(pattern_list(ms@)),
    }
}

pub proof fn lemma_pattern_list_index(ms: Seq<PatternMatcher>)
    ensures
        pattern_list(ms).len() == ms.len(),
        forall|k: int| 0 <= k < ms.len() ==> #[trigger] pattern_list(ms)[k] == pattern_of(ms[k]),
    decreases ms.len(),
{
    if ms.len() > 0 {
        lemma_pattern_list_index(ms.drop_last());
    }
}

impl View for PatternMatcher {
    type V = Pattern;

    open spec fn view(&self) -> Pattern {
        pattern_of(*self)
    }
}

/// Whether `t` pattern-equals one of `ts`.
pub open spec fn matches_any(ts: Seq<TokenView>, t: TokenView) -> bool {
    exists|k: int| 0 <= k < ts.len() && #[trigger] ts[k].same_type(t)
}

/// The end of the longest run of tokens from `i` on that each match one of
/// `ts`.
pub open spec fn run_end(ts: Seq<TokenView>, s: Seq<TokenView>, i: int) -> int
    decreases s.len() - i,
{
    if 0 <= i < s.len() && matches_any(ts, s[i]) {
        run_end(ts, s, i + 1)
    } else {
        i
    }
}

/// Applies `p` to the tokens `s` at index `i`: `Ok` with the index after
/// what it consumed, or `Err` with the index at which it failed.
pub open spec fn apply(p: Pattern, s: Seq<TokenView>, i: int) -> Result<int, int>
    decreases p, 0int,
{
    match p {
        Pattern::One(ts) => if 0 <= i < s.len() && matches_any(ts, s[i]) {
            Ok(i + 1)
        } else {
            Err(i)
        },
        Pattern::Many(ts) => if 0 <= i <= s.len() && run_end(ts, s, i) > i {
            Ok(run_end(ts, s, i))
        } else {
            Err(i)
        },
        Pattern::Optional(ts) => if 0 <= i < s.len() && matches_any(ts, s[i]) {
            Ok(i + 1)
        } else {
            Ok(i)
        },
        Pattern::OptionalMany(ts) => Ok(run_end(ts, s, i)),
        Pattern::Group(ps) => apply_all(ps, s, i),
        Pattern::ManyGroup(ps) => match apply_all(ps, s, i) {
            Ok(j) => Ok(repeat(ps, s, j)),
            Err(k) => Err(k),
        },
        Pattern::OptionalGroup(ps) => match apply_all(ps, s, i) {
            Ok(j) => Ok(j),
            Err(_) => Ok(i),
        },
        Pattern::OptionalManyGroup(ps) => match apply_all(ps, s, i) {
            Ok(j) => Ok(repeat(ps, s, j)),
            Err(_) => Ok(i),
        },
    }
}

/// Applies the patterns `ps` one after another from index `i`, stopping at
/// the first failure.
pub open spec fn apply_all(ps: Seq<Pattern>, s: Seq<TokenView>, i: int) -> Result<int, int>
    decreases ps, 0int,
{
    if ps.len() == 0 {
        Ok(i)
    } else {
        match apply(ps[0], s, i) {
            Ok(j) => apply_all(ps.subrange(1, ps.len() as int), s, j),
            Err(k) => Err(k),
        }
    }
}

/// Applies the group `ps` again from `j` for as long as it succeeds and
/// consumes at least one token.
pub open spec fn repeat(ps: Seq<Pattern>, s: Seq<TokenView>, j: int) -> int
    decreases ps, s.len() - j + 1,
{
    if j < 0 || j > s.len() {
        j
    } else {
        match apply_all(ps, s, j) {
            Ok(k) => if j < k <= s.len() {
                repeat(ps, s, k)
            } else {
                j
            },
            Err(_) => j,
        }
    }
}

/// The outcome of a matcher as the engine reports it.
pub open spec fn reported(r: Result<int, int>) -> MdtResult<usize> {
    match r {
        Ok(j) => Ok(j as usize),
        Err(k) => Err(MdtError::InvalidTokenSequence(k as usize)),
    }
}

/// Whether the grammar `g` consumes the whole of `s`.
pub open spec fn grammar_matches(g: Seq<Pattern>, s: Seq<TokenView>) -> bool {
    apply_all(g, s, 0) == Ok::<int, int>(s.len() as int)
}

pub proof fn lemma_run_end_bounds(ts: Seq<TokenView>, s: Seq<TokenView>, i: int)
    requires
        0 <= i <= s.len(),
    ensures
        i <= run_end(ts, s, i) <= s.len(),
    decreases s.len() - i,
{
    if 0 <= i < s.len() && matches_any(ts, s[i]) {
        lemma_run_end_bounds(ts, s, i + 1);
    }
}

/// A matcher applied within the tokens stays within them: it consumes
/// forwards, and fails at an index at or after where it started.
pub proof fn lemma_apply_bounds(p: Pattern, s: Seq<TokenView>, i: int)
    requires
        0 <= i <= s.len(),
    ensures
        match apply(p, s, i) {
            Ok(j) => i <= j <= s.len(),
            Err(k) => i <= k <= s.len(),
        },
    decreases p, 0int,
{
    match p {
        Pattern::Many(ts) => lemma_run_end_bounds(ts, s, i),
        Pattern::OptionalMany(ts) => lemma_run_end_bounds(ts, s, i),
        Pattern::Group(ps) => lemma_apply_all_bounds(ps, s, i),
        Pattern::ManyGroup(ps) => {
            lemma_apply_all_bounds(ps, s, i);
            if let Ok(j) = apply_all(ps, s, i) {
                lemma_repeat_bounds(ps, s, j);
            }
        },
        Pattern::OptionalGroup(ps) => lemma_apply_all_bounds(ps, s, i),
        Pattern::OptionalManyGroup(ps) => {
            lemma_apply_all_bounds(ps, s, i);
            if let Ok(j) = apply_all(ps, s, i) {
                lemma_repeat_bounds(ps, s, j);
            }
        },
        _ => {},
    }
}

pub proof fn lemma_apply_all_bounds(ps: Seq<Pattern>, s: Seq<TokenView>, i: int)
    requires
        0 <= i <= s.len(),
    ensures
        match apply_all(ps, s, i) {
            Ok(j) => i <= j <= s.len(),
            Err(k) => i <= k <= s.len(),
        },
    decreases ps, 0int,
{
    if ps.len() > 0 {
        lemma_apply_bounds(ps[0], s, i);
        if let Ok(j) = apply(ps[0], s, i) {
            lemma_apply_all_bounds(ps.subrange(1, ps.len() as int), s, j);
        }
    }
}

pub proof fn lemma_repeat_bounds(ps: Seq<Pattern>, s: Seq<TokenView>, j: int)
    requires
        0 <= j <= s.len(),
    ensures
        j <= repeat(ps, s, j) <= s.len(),
    decreases ps, s.len() - j + 1,
{
    lemma_apply_all_bounds(ps, s, j);
    if let Ok(k) = apply_all(ps, s, j) {
        if j < k <= s.len() {
            lemma_repeat_bounds(ps, s, k);
        }
    }
}

/// The furthest index a matcher applied at `i` can reach in `len` tokens.
pub open spec fn reach(i: int, len: int) -> int {
    if i <= len {
        len
    } else {
        i
    }
}

/// Past the last token nothing can be consumed: a matcher applied there
/// fails, or succeeds consuming nothing, at that same index.
pub proof fn lemma_apply_past_end(p: Pattern, s: Seq<TokenView>, i: int)
    requires
        i > s.len(),
    ensures
        apply(p, s, i) == Ok::<int, int>(i) || apply(p, s, i) == Err::<int, int>(i),
    decreases p, 0int,
{
    match p {
        Pattern::Group(ps) => lemma_apply_all_past_end(ps, s, i),
        Pattern::ManyGroup(ps) => lemma_apply_all_past_end(ps, s, i),
        Pattern::OptionalGroup(ps) => lemma_apply_all_past_end(ps, s, i),
        Pattern::OptionalManyGroup(ps) => lemma_apply_all_past_end(ps, s, i),
        _ => {},
    }
}

pub proof fn lemma_apply_all_past_end(ps: Seq<Pattern>, s: Seq<TokenView>, i: int)
    requires
        i > s.len(),
    ensures
        apply_all(ps, s, i) == Ok::<int, int>(i) || apply_all(ps, s, i) == Err::<int, int>(i),
    decreases ps, 0int,
{
    if ps.len() > 0 {
        lemma_apply_past_end(ps[0], s, i);
        lemma_apply_all_past_end(ps.subrange(1, ps.len() as int), s, i);
    }
}

/// Whether `t` pattern-equals one of `ts`.
fn any_same(ts: &Vec<Token>, t: &Token) -> (r: bool)
    ensures
        r == matches_any(token_list(ts@), t@),
{
    let mut i: usize = 0;
    while i < ts.len()
        invariant
            i <= ts@.len(),
            forall|k: int| 0 <= k < i ==> !(#[trigger] token_list(ts@)[k]).same_type(t@),
        decreases ts@.len() - i,
    {
        if ts[i].same_type(t) {
            assert(token_list(ts@)[i as int].same_type(t@));
            return true;
        }
        i = i + 1;
    }
    false
}

/// The end of the longest run from `i` of tokens that each match one of `ts`.
fn run_end_of(ts: &Vec<Token>, tokens: &Vec<Token>, i: usize) -> (r: usize)
    requires
        i <= tokens@.len(),
    ensures
        r == run_end(token_list(ts@), token_list(tokens@), i as int),
        i <= r <= tokens@.len(),
{
    let mut j: usize = i;
    while j < tokens.len() && any_same(ts, &tokens[j])
        invariant
            i <= j <= tokens@.len(),
            run_end(token_list(ts@), token_list(tokens@), i as int) == run_end(
                token_list(ts@),
                token_list(tokens@),
                j as int,
            ),
        decreases tokens@.len() - j,
    {
        j = j + 1;
    }
    j
}

/// Applies the matchers `ms` one after another from `index`.
fn apply_all_of(ms: &Vec<PatternMatcher>, group: &TokenGroup, index: usize) -> (r: MdtResult<usize>)
    ensures
        r == reported(apply_all(pattern_list(ms@), group.token_views(), index as int)),
        r matches Ok(j) ==> index <= j <= reach(index as int, group.tokens@.len() as int),
    decreases ms, 0int,
{
    let ghost ps = pattern_list(ms@);
    let ghost s = group.token_views();
    proof {
        lemma_pattern_list_index(ms@);
        lemma_views(group.tokens@);
        assert(ps.subrange(0, ps.len() as int) =~= ps);
    }
    let mut cur: usize = index;
    let mut k: usize = 0;
    while k < ms.len()
        invariant
            k <= ms@.len(),
            ps.len() == ms@.len(),
            ps == pattern_list(ms@),
            forall|x: int| 0 <= x < ms@.len() ==> #[trigger] ps[x] == pattern_of(ms@[x]),
            index <= cur <= reach(index as int, group.tokens@.len() as int),
            index > group.tokens@.len() ==> cur == index,
            s == group.token_views(),
            s.len() == group.tokens@.len(),
            apply_all(ps, s, index as int) == apply_all(ps.subrange(k as int, ps.len() as int), s, cur as int),
        decreases ms@.len() - k,
    {
        let ghost rest = ps.subrange(k as int, ps.len() as int);
        proof {
            assert(rest[0] == ps[k as int]);
            assert(rest.subrange(1, rest.len() as int) =~= ps.subrange(k + 1, ps.len() as int));
            if cur <= s.len() {
                lemma_apply_bounds(rest[0], s, cur as int);
            } else {
                lemma_apply_past_end(rest[0], s, cur as int);
            }
        }
        let ghost before = cur;
        match ms[k].apply(group, cur) {
            Ok(j) => {
                proof {
                    assert(group.tokens@.len() == group.tokens.len());
                    assert(apply(rest[0], s, before as int) == Ok::<int, int>(j as int));
                }
                cur = j;
            },
            Err(e) => {
                return Err(e);
            },
        }
        k = k + 1;
    }
    proof {
        assert(ps.subrange(ms@.len() as int, ps.len() as int) =~= Seq::<Pattern>::empty());
    }
    Ok(cur)
}

/// Applies the group `ms` again from `j` for as long as it succeeds and
/// consumes at least one token.
fn repeat_of(ms: &Vec<PatternMatcher>, group: &TokenGroup, j: usize) -> (r: usize)
    ensures
        r == repeat(pattern_list(ms@), group.token_views(), j as int),
        j <= r <= reach(j as int, group.tokens@.len() as int),
    decreases ms, 1int,
{
    let ghost ps = pattern_list(ms@);
    let ghost s = group.token_views();
    proof {
        lemma_views(group.tokens@);
    }
    if j > group.tokens.len() {
        return j;
    }
    let mut cur: usize = j;
    proof {
        lemma_repeat_bounds(ps, s, j as int);
    }
    loop
        invariant
            j <= cur <= group.tokens@.len(),
            s == group.token_views(),
            ps == pattern_list(ms@),
            s.len() == group.tokens@.len(),
            repeat(ps, s, j as int) == repeat(ps, s, cur as int),
        decreases group.tokens@.len() - cur,
    {
        proof {
            lemma_apply_all_bounds(ps, s, cur as int);
        }
        match apply_all_of(ms, group, cur) {
            Ok(k) => {
                proof {
                    assert(group.tokens@.len() == group.tokens.len());
                    assert(apply_all(ps, s, cur as int) == Ok::<int, int>(k as int));
                }
                if cur < k {
                    cur = k;
                } else {
                    return cur;
                }
            },
            Err(_) => {
                return cur;
            },
        }
    }
}

impl PatternMatcher {
    /// Applies the matcher to the tokens of `group` at `index`: the index
    /// after what it consumed, or the error `InvalidTokenSequence` with the
    /// index at which it failed.
    pub fn apply(&self, group: &TokenGroup, index: usize) -> (r: MdtResult<usize>)
        ensures
            r == reported(apply(self@, group.token_views(), index as int)),
            r matches Ok(j) ==> index <= j <= reach(index as int, group.tokens@.len() as int),
        decreases self, 0int,
    {
        proof {
            lemma_views(group.tokens@);
            assert(group.tokens@.len() == group.tokens.len());
            if index <= group.tokens.len() {
                lemma_apply_bounds(self@, group.token_views(), index as int);
            } else {
                lemma_apply_past_end(self@, group.token_views(), index as int);
            }
        }
        match self {
            PatternMatcher::One(ts) => {
                if index < group.tokens.len() && any_same(ts, &group.tokens[index]) {
                    Ok(index + 1)
                } else {
                    Err(MdtError::InvalidTokenSequence(index))
                }
            },
            PatternMatcher::Many(ts) => {
                if index > group.tokens.len() {
                    return Err(MdtError::InvalidTokenSequence(index));
                }
                let j = run_end_of(ts, &group.tokens, index);
                if j > index {
                    Ok(j)
                } else {
                    Err(MdtError::InvalidTokenSequence(index))
                }
            },
            PatternMatcher::Optional(ts) => {
                if index < group.tokens.len() && any_same(ts, &group.tokens[index]) {
                    Ok(index + 1)
                } else {
                    Ok(index)
                }
            },
            PatternMatcher::OptionalMany(ts) => {
                if index > group.tokens.len() {
                    return Ok(index);
                }
                Ok(run_end_of(ts, &group.tokens, index))
            },
            PatternMatcher::Group(ms) => apply_all_of(ms, group, index),
            PatternMatcher::ManyGroup(ms) => match apply_all_of(ms, group, index) {
                Ok(j) => Ok(repeat_of(ms, group, j)),
                Err(e) => Err(e),
            },
            PatternMatcher::OptionalGroup(ms) => match apply_all_of(ms, group, index) {
                Ok(j) => Ok(j),
                Err(_) => Ok(index),
            },
            PatternMatcher::OptionalManyGroup(ms) => match apply_all_of(ms, group, index) {
                Ok(j) => Ok(repeat_of(ms, group, j)),
                Err(_) => Ok(index),
            },
        }
    }
}

pub fn one(tokens: Vec<Token>) -> (r: PatternMatcher)
    ensures
        r@ == Pattern::One(token_list(tokens@)),
{
    PatternMatcher::One(tokens)
}

pub fn many(tokens: Vec<Token>) -> (r: PatternMatcher)
    ensures
        r@ == Pattern::Many(token_list(tokens@)),
{
    PatternMatcher::Many(tokens)
}

pub fn optional(tokens: Vec<Token>) -> (r: PatternMatcher)
    ensures
        r@ == Pattern::Optional(token_list(tokens@)),
{
    PatternMatcher::Optional(tokens)
}

pub fn optional_many(tokens: Vec<Token>) -> (r: PatternMatcher)
    ensures
        r@ == Pattern::OptionalMany(token_list(tokens@)),
{
    PatternMatcher::OptionalMany(tokens)
}

pub fn group(matchers: Vec<PatternMatcher>) -> (r: PatternMatcher)
    ensures
        r@ == Pattern::Group(pattern_list(matchers@)),
{
    PatternMatcher::Group(matchers)
}

pub fn many_group(matchers: Vec<PatternMatcher>) -> (r: PatternMatcher)
    ensures
        r@ == Pattern::ManyGroup(pattern_list(matchers@)),
{
    PatternMatcher::ManyGroup(matchers)
}

pub fn optional_group(matchers: Vec<PatternMatcher>) -> (r: PatternMatcher)
    ensures
        r@ == Pattern::OptionalGroup(pattern_list(matchers@)),
{
    PatternMatcher::OptionalGroup(matchers)
}

pub fn optional_many_group(matchers: Vec<PatternMatcher>) -> (r: PatternMatcher)
    ensures
        r@ == Pattern::OptionalManyGroup(pattern_list(matchers@)),
{
    PatternMatcher::OptionalManyGroup(matchers)
}

/// Any whitespace byte.
pub open spec fn ws() -> TokenView {
    TokenView::Whitespace(42)
}

/// Any identifier.
pub open spec fn any_ident() -> TokenView {
    TokenView::Ident(wildcard())
}

/// `: value`, the value being a string, `true`, `false`, an integer or a
/// float.
pub open spec fn argument_segment() -> Seq<Pattern> {
    seq![
        Pattern::One(seq![TokenView::ArgumentDelimiter]),
        Pattern::OptionalMany(seq![ws()]),
        Pattern::One(
            seq![
                TokenView::String(wildcard(), 34),
                TokenView::Ident(seq!['t', 'r', 'u', 'e']),
                TokenView::Ident(seq!['f', 'a', 'l', 's', 'e']),
                TokenView::Int(0),
                TokenView::Float(seq!['0']),
            ],
        ),
        Pattern::OptionalMany(seq![ws()]),
    ]
}

/// `| name` followed by any number of arguments.
pub open spec fn filter_segment() -> Seq<Pattern> {
    seq![
        Pattern::One(seq![TokenView::Pipe]),
        Pattern::OptionalMany(seq![ws()]),
        Pattern::One(seq![any_ident()]),
        Pattern::OptionalMany(seq![ws()]),
        Pattern::OptionalManyGroup(argument_segment()),
    ]
}

/// `<!-- {/name} -->`, with optional whitespace.
pub open spec fn closing_grammar() -> Seq<Pattern> {
    seq![
        Pattern::One(seq![TokenView::HtmlCommentOpen]),
        Pattern::OptionalMany(seq![ws(), TokenView::Newline]),
        Pattern::One(seq![TokenView::CloseTag]),
        Pattern::OptionalMany(seq![ws()]),
        Pattern::One(seq![any_ident()]),
        Pattern::OptionalMany(seq![ws()]),
        Pattern::One(seq![TokenView::BraceClose]),
        Pattern::OptionalMany(seq![ws(), TokenView::Newline]),
        Pattern::One(seq![TokenView::HtmlCommentClose]),
    ]
}

/// `<!-- {Xname|filter:arg} -->` where `tag` is `{X`, with optional whitespace
/// and any number of filters.
pub open spec fn opening_grammar(tag: TokenView) -> Seq<Pattern> {
    seq![
        Pattern::One(seq![TokenView::HtmlCommentOpen]),
        Pattern::OptionalMany(seq![ws(), TokenView::Newline]),
        Pattern::One(seq![tag]),
        Pattern::OptionalMany(seq![ws()]),
        Pattern::One(seq![any_ident()]),
        Pattern::OptionalMany(seq![ws()]),
        Pattern::OptionalManyGroup(filter_segment()),
        Pattern::One(seq![TokenView::BraceClose]),
        Pattern::OptionalMany(seq![ws(), TokenView::Newline]),
        Pattern::One(seq![TokenView::HtmlCommentClose]),
    ]
}

pub open spec fn provider_grammar() -> Seq<Pattern> {
    opening_grammar(TokenView::ProviderTag)
}

pub open spec fn consumer_grammar() -> Seq<Pattern> {
    opening_grammar(TokenView::ConsumerTag)
}

/// Whether the tokens form a closing, provider or consumer tag.
pub open spec fn is_valid_tokens(s: Seq<TokenView>) -> bool {
    grammar_matches(closing_grammar(), s) || grammar_matches(provider_grammar(), s)
        || grammar_matches(consumer_grammar(), s)
}

impl Token {
    fn whitespace() -> (t: Token)
        ensures
            t@ == ws(),
    {
        Token::Whitespace(42)
    }

    fn any() -> (t: Token)
        ensures
            t@ == any_ident(),
    {
        let text = String::from_str("*");
        proof {
            reveal_strlit("*");
            assert(text@ =~= wildcard());
        }
        Token::Ident(text)
    }

    fn true_ident() -> (t: Token)
        ensures
            t@ == TokenView::Ident(seq!['t', 'r', 'u', 'e']),
    {
        let text = String::from_str("true");
        proof {
            reveal_strlit("true");
            assert(text@ =~= seq!['t', 'r', 'u', 'e']);
        }
        Token::Ident(text)
    }

    fn false_ident() -> (t: Token)
        ensures
            t@ == TokenView::Ident(seq!['f', 'a', 'l', 's', 'e']),
    {
        let text = String::from_str("false");
        proof {
            reveal_strlit("false");
            assert(text@ =~= seq!['f', 'a', 'l', 's', 'e']);
        }
        Token::Ident(text)
    }

    fn string() -> (t: Token)
        ensures
            t@ == TokenView::String(wildcard(), 34),
    {
        let text = String::from_str("*");
        proof {
            reveal_strlit("*");
            assert(text@ =~= wildcard());
        }
        Token::String(text, 34)
    }

    fn integer() -> (t: Token)
        ensures
            t@ == TokenView::Int(0),
    {
        Token::Int(0)
    }

    fn float() -> (t: Token)
        ensures
            t@ == TokenView::Float(seq!['0']),
    {
        let text = String::from_str("0");
        proof {
            reveal_strlit("0");
            assert(text@ =~= seq!['0']);
        }
        Token::Float(text)
    }
}

fn one_token(t: Token) -> (r: PatternMatcher)
    ensures
        r@ == Pattern::One(seq![t@]),
{
    let v = vec![t];
    proof {
        assert(token_list(v@) =~= seq![t@]);
    }
    one(v)
}

fn any_whitespace() -> (r: PatternMatcher)
    ensures
        r@ == Pattern::OptionalMany(seq![ws()]),
{
    let v = vec![Token::whitespace()];
    proof {
        assert(token_list(v@) =~= seq![ws()]);
    }
    optional_many(v)
}

fn any_whitespace_or_newline() -> (r: PatternMatcher)
    ensures
        r@ == Pattern::OptionalMany(seq![ws(), TokenView::Newline]),
{
    let v = vec![Token::whitespace(), Token::Newline];
    proof {
        assert(token_list(v@) =~= seq![ws(), TokenView::Newline]);
    }
    optional_many(v)
}

fn argument_value() -> (r: PatternMatcher)
    ensures
        r@ == argument_segment()[2],
{
    let v = vec![Token::string(), Token::true_ident(), Token::false_ident(), Token::integer(), Token::float()];
    proof {
        assert(token_list(v@) =~= seq![
            TokenView::String(wildcard(), 34),
            TokenView::Ident(seq!['t', 'r', 'u', 'e']),
            TokenView::Ident(seq!['f', 'a', 'l', 's', 'e']),
            TokenView::Int(0),
            TokenView::Float(seq!['0']),
        ]);
    }
    one(v)
}

fn filters() -> (r: PatternMatcher)
    ensures
        r@ == Pattern::OptionalManyGroup(filter_segment()),
{
    let arguments = vec![
        one_token(Token::ArgumentDelimiter),
        any_whitespace(),
        argument_value(),
        any_whitespace(),
    ];
    proof {
        lemma_pattern_list_index(arguments@);
        assert(pattern_list(arguments@) =~= argument_segment());
    }
    let segment = vec![
        one_token(Token::Pipe),
        any_whitespace(),
        one_token(Token::any()),
        any_whitespace(),
        optional_many_group(arguments),
    ];
    proof {
        lemma_pattern_list_index(segment@);
        assert(pattern_list(segment@) =~= filter_segment());
    }
    optional_many_group(segment)
}

/// The grammar of a closing tag, `<!-- {/name} -->`.
pub fn closing_pattern() -> (r: Vec<PatternMatcher>)
    ensures
        pattern_list(r@) == closing_grammar(),
{
    let r = vec![
        one_token(Token::HtmlCommentOpen),
        any_whitespace_or_newline(),
        one_token(Token::CloseTag),
        any_whitespace(),
        one_token(Token::any()),
        any_whitespace(),
        one_token(Token::BraceClose),
        any_whitespace_or_newline(),
        one_token(Token::HtmlCommentClose),
    ];
    proof {
        lemma_pattern_list_index(r@);
        assert(pattern_list(r@) =~= closing_grammar());
    }
    r
}

fn opening_pattern(tag: Token) -> (r: Vec<PatternMatcher>)
    ensures
        pattern_list(r@) == opening_grammar(tag@),
{
    let r = vec![
        one_token(Token::HtmlCommentOpen),
        any_whitespace_or_newline(),
        one_token(tag),
        any_whitespace(),
        one_token(Token::any()),
        any_whitespace(),
        filters(),
        one_token(Token::BraceClose),
        any_whitespace_or_newline(),
        one_token(Token::HtmlCommentClose),
    ];
    proof {
        lemma_pattern_list_index(r@);
        assert(pattern_list(r@) =~= opening_grammar(tag@));
    }
    r
}

/// The grammar of a consumer tag, `<!-- {=name|filter:arg} -->`.
pub fn consumer_pattern() -> (r: Vec<PatternMatcher>)
    ensures
        pattern_list(r@) == consumer_grammar(),
{
    opening_pattern(Token::ConsumerTag)
}

/// The grammar of a provider tag, `<!-- {@name|filter:arg} -->`.
pub fn provider_pattern() -> (r: Vec<PatternMatcher>)
    ensures
        pattern_list(r@) == provider_grammar(),
{
    opening_pattern(Token::ProviderTag)
}

impl TokenGroup {
    /// Applies the matchers of `pattern` one after another from the first
    /// token: `Ok(true)` when they consume every token, `Ok(false)` when
    /// tokens remain after them, and the first failure otherwise.
    pub fn matches_pattern(&self, pattern: Vec<PatternMatcher>) -> (r: MdtResult<bool>)
        ensures
            match apply_all(pattern_list(pattern@), self.token_views(), 0) {
                Ok(j) => r == Ok::<bool, MdtError>(j == self.tokens@.len()),
                Err(k) => r == Err::<bool, MdtError>(MdtError::InvalidTokenSequence(k as usize)),
            },
    {
        proof {
            lemma_views(self.tokens@);
            assert(self.tokens@.len() == self.tokens.len());
            lemma_apply_all_bounds(pattern_list(pattern@), self.token_views(), 0);
        }
        match apply_all_of(&pattern, self, 0) {
            Ok(j) => Ok(j == self.tokens.len()),
            Err(e) => Err(e),
        }
    }

    /// Whether the tokens form a closing, provider or consumer tag, tried in
    /// that order.
    pub fn is_valid(&self) -> (r: bool)
        ensures
            r == is_valid_tokens(self.token_views()),
    {
        proof {
            lemma_views(self.tokens@);
        }
        if let Ok(true) = self.matches_pattern(closing_pattern()) {
            return true;
        }
        if let Ok(true) = self.matches_pattern(provider_pattern()) {
            return true;
        }
        if let Ok(true) = self.matches_pattern(consumer_pattern()) {
            return true;
        }
        false
    }
}

/// Whether no token of `ts` is `-->`.
pub open spec fn tokens_exclude_close(ts: Seq<TokenView>) -> bool {
    forall|k: int| 0 <= k < ts.len() ==> ts[k] != TokenView::HtmlCommentClose
}

/// Whether `p` never consumes a `-->`.
pub open spec fn excludes_close(p: Pattern) -> bool
    decreases p, 0int,
{
    match p {
        Pattern::One(ts) => tokens_exclude_close(ts),
        Pattern::Many(ts) => tokens_exclude_close(ts),
        Pattern::Optional(ts) => tokens_exclude_close(ts),
        Pattern::OptionalMany(ts) => tokens_exclude_close(ts),
        Pattern::Group(ps) => all_exclude_close(ps),
        Pattern::ManyGroup(ps) => all_exclude_close(ps),
        Pattern::OptionalGroup(ps) => all_exclude_close(ps),
        Pattern::OptionalManyGroup(ps) => all_exclude_close(ps),
    }
}

pub open spec fn all_exclude_close(ps: Seq<Pattern>) -> bool
    decreases ps, 0int,
{
    if ps.len() == 0 {
        true
    } else {
        excludes_close(ps[0]) && all_exclude_close(ps.subrange(1, ps.len() as int))
    }
}

proof fn lemma_match_not_close(ts: Seq<TokenView>, t: TokenView)
    requires
        tokens_exclude_close(ts),
        matches_any(ts, t),
    ensures
        t != TokenView::HtmlCommentClose,
{
    let k = choose|k: int| 0 <= k < ts.len() && #[trigger] ts[k].same_type(t);
    assert(ts[k] != TokenView::HtmlCommentClose);
}

proof fn lemma_run_end_no_close(ts: Seq<TokenView>, s: Seq<TokenView>, i: int)
    requires
        tokens_exclude_close(ts),
        0 <= i <= s.len(),
    ensures
        forall|x: int| i <= x < run_end(ts, s, i) ==> s[x] != TokenView::HtmlCommentClose,
    decreases s.len() - i,
{
    if 0 <= i < s.len() && matches_any(ts, s[i]) {
        lemma_match_not_close(ts, s[i]);
        lemma_run_end_no_close(ts, s, i + 1);
    }
}

proof fn lemma_apply_no_close(p: Pattern, s: Seq<TokenView>, i: int)
    requires
        excludes_close(p),
        0 <= i <= s.len(),
    ensures
        apply(p, s, i) matches Ok(j) ==> forall|x: int| i <= x < j ==> s[x]
            != TokenView::HtmlCommentClose,
    decreases p, 0int,
{
    match p {
        Pattern::One(ts) => {
            if 0 <= i < s.len() && matches_any(ts, s[i]) {
                lemma_match_not_close(ts, s[i]);
            }
        },
        Pattern::Many(ts) => lemma_run_end_no_close(ts, s, i),
        Pattern::Optional(ts) => {
            if 0 <= i < s.len() && matches_any(ts, s[i]) {
                lemma_match_not_close(ts, s[i]);
            }
        },
        Pattern::OptionalMany(ts) => lemma_run_end_no_close(ts, s, i),
        Pattern::Group(ps) => lemma_apply_all_no_close(ps, s, i),
        Pattern::ManyGroup(ps) => {
            lemma_apply_all_no_close(ps, s, i);
            lemma_apply_all_bounds(ps, s, i);
            if let Ok(j) = apply_all(ps, s, i) {
                lemma_repeat_no_close(ps, s, j);
            }
        },
        Pattern::OptionalGroup(ps) => lemma_apply_all_no_close(ps, s, i),
        Pattern::OptionalManyGroup(ps) => {
            lemma_apply_all_no_close(ps, s, i);
            lemma_apply_all_bounds(ps, s, i);
            if let Ok(j) = apply_all(ps, s, i) {
                lemma_repeat_no_close(ps, s, j);
            }
        },
    }
}

proof fn lemma_apply_all_no_close(ps: Seq<Pattern>, s: Seq<TokenView>, i: int)
    requires
        all_exclude_close(ps),
        0 <= i <= s.len(),
    ensures
        apply_all(ps, s, i) matches Ok(j) ==> forall|x: int| i <= x < j ==> s[x]
            != TokenView::HtmlCommentClose,
    decreases ps, 0int,
{
    if ps.len() > 0 {
        lemma_apply_no_close(ps[0], s, i);
        lemma_apply_bounds(ps[0], s, i);
        if let Ok(j) = apply(ps[0], s, i) {
            lemma_apply_all_no_close(ps.subrange(1, ps.len() as int), s, j);
        }
    }
}

proof fn lemma_repeat_no_close(ps: Seq<Pattern>, s: Seq<TokenView>, j: int)
    requires
        all_exclude_close(ps),
        0 <= j <= s.len(),
    ensures
        forall|x: int| j <= x < repeat(ps, s, j) ==> s[x] != TokenView::HtmlCommentClose,
    decreases ps, s.len() - j + 1,
{
    lemma_apply_all_no_close(ps, s, j);
    if let Ok(k) = apply_all(ps, s, j) {
        if j < k <= s.len() {
            lemma_repeat_no_close(ps, s, k);
        }
    }
}

proof fn lemma_apply_all_concat(a: Seq<Pattern>, b: Seq<Pattern>, s: Seq<TokenView>, i: int)
    ensures
        apply_all(a + b, s, i) == match apply_all(a, s, i) {
            Ok(j) => apply_all(b, s, j),
            Err(k) => Err(k),
        },
    decreases a.len(),
{
    if a.len() == 0 {
        assert(a + b =~= b);
    } else {
        assert((a + b)[0] == a[0]);
        assert((a + b).subrange(1, (a + b).len() as int) =~= a.subrange(1, a.len() as int) + b);
        if let Ok(j) = apply(a[0], s, i) {
            lemma_apply_all_concat(a.subrange(1, a.len() as int), b, s, j);
        }
    }
}

/// A grammar whose patterns before the last never consume `-->` and whose
/// last pattern is exactly one `-->` accepts no strict prefix of what it
/// accepts: the last token it consumes is the only `-->` it consumes.
proof fn lemma_close_ended_prefix(g: Seq<Pattern>, s: Seq<TokenView>, k: int)
    requires
        g.len() > 0,
        all_exclude_close(g.drop_last()),
        g.last() == Pattern::One(seq![TokenView::HtmlCommentClose]),
        grammar_matches(g, s),
        0 <= k < s.len(),
    ensures
        !grammar_matches(g, s.take(k)),
{
    assert(g.drop_last() + seq![g.last()] =~= g);
    let pre = g.drop_last();
    let tail = seq![g.last()];
    assert(tail.subrange(1, 1) =~= Seq::<Pattern>::empty());
    lemma_apply_all_concat(pre, tail, s, 0);
    lemma_apply_all_bounds(pre, s, 0);
    lemma_apply_all_no_close(pre, s, 0);
    assert(apply_all(pre, s, 0) is Ok);
    let m = apply_all(pre, s, 0)->Ok_0;
    lemma_one_close(tail, s, m);
    assert(s[m] == TokenView::HtmlCommentClose);
    assert(m + 1 == s.len());
    let p = s.take(k);
    if grammar_matches(g, p) {
        lemma_apply_all_concat(pre, tail, p, 0);
        lemma_apply_all_bounds(pre, p, 0);
        assert(apply_all(pre, p, 0) is Ok);
        let q = apply_all(pre, p, 0)->Ok_0;
        lemma_one_close(tail, p, q);
        assert(p[q] == TokenView::HtmlCommentClose);
        assert(q < k);
        assert(s[q] == p[q]);
        lemma_apply_all_no_close(pre, s, 0);
    }
}

/// Applying exactly one `-->` succeeds only on a `-->`, consuming it.
proof fn lemma_one_close(tail: Seq<Pattern>, s: Seq<TokenView>, m: int)
    requires
        tail == seq![Pattern::One(seq![TokenView::HtmlCommentClose])],
        apply_all(tail, s, m) is Ok,
    ensures
        0 <= m < s.len(),
        s[m] == TokenView::HtmlCommentClose,
        apply_all(tail, s, m) == Ok::<int, int>(m + 1),
{
    let ts = seq![TokenView::HtmlCommentClose];
    assert(tail.len() == 1);
    assert(tail[0] == Pattern::One(ts));
    assert(tail.subrange(1, 1) =~= Seq::<Pattern>::empty());
    assert(apply_all(Seq::<Pattern>::empty(), s, m + 1) == Ok::<int, int>(m + 1));
    assert(apply_all(tail, s, m) == match apply(Pattern::One(ts), s, m) {
        Ok(j) => apply_all(tail.subrange(1, 1), s, j),
        Err(k) => Err(k),
    });
    assert(0 <= m < s.len() && matches_any(ts, s[m]));
    let x = choose|x: int| 0 <= x < ts.len() && #[trigger] ts[x].same_type(s[m]);
    assert(ts[x] == TokenView::HtmlCommentClose);
}

/// Each of the three tag grammars consumes a whole token sequence or
/// rejects it: when it accepts a sequence, it rejects every strict prefix of
/// that sequence.
pub proof fn lemma_grammars_reject_strict_prefixes(s: Seq<TokenView>, k: int)
    requires
        0 <= k < s.len(),
    ensures
        grammar_matches(closing_grammar(), s) ==> !grammar_matches(closing_grammar(), s.take(k)),
        grammar_matches(provider_grammar(), s) ==> !grammar_matches(provider_grammar(), s.take(k)),
        grammar_matches(consumer_grammar(), s) ==> !grammar_matches(consumer_grammar(), s.take(k)),
{
    reveal_with_fuel(all_exclude_close, 11);
    assert(all_exclude_close(argument_segment()));
    assert(all_exclude_close(filter_segment()));
    assert(all_exclude_close(closing_grammar().drop_last()));
    assert(all_exclude_close(provider_grammar().drop_last()));
    assert(all_exclude_close(consumer_grammar().drop_last()));
    if grammar_matches(closing_grammar(), s) {
        lemma_close_ended_prefix(closing_grammar(), s, k);
    }
    if grammar_matches(provider_grammar(), s) {
        lemma_close_ended_prefix(provider_grammar(), s, k);
    }
    if grammar_matches(consumer_grammar(), s) {
        lemma_close_ended_prefix(consumer_grammar(), s, k);
    }
}

} // verus!
