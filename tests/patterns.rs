use mdt::patterns::closing_pattern;
use mdt::patterns::consumer_pattern;
use mdt::patterns::group;
use mdt::patterns::many;
use mdt::patterns::many_group;
use mdt::patterns::one;
use mdt::patterns::optional;
use mdt::patterns::optional_group;
use mdt::patterns::optional_many;
use mdt::patterns::optional_many_group;
use mdt::patterns::provider_pattern;
use mdt::MdtError;
use mdt::Position;
use mdt::Token;
use mdt::TokenGroup;

fn tokens_group(tokens: Vec<Token>) -> TokenGroup {
    TokenGroup { tokens, position: Position::new(1, 1, 0, 1, 1, 0) }
}

fn ident(name: &str) -> Token {
    Token::Ident(name.to_string())
}

fn consumer_tokens() -> Vec<Token> {
    vec![
        Token::HtmlCommentOpen,
        Token::Whitespace(b' '),
        Token::ConsumerTag,
        ident("exampleName"),
        Token::BraceClose,
        Token::Whitespace(b' '),
        Token::HtmlCommentClose,
    ]
}

fn provider_tokens() -> Vec<Token> {
    vec![
        Token::HtmlCommentOpen,
        Token::Whitespace(b' '),
        Token::ProviderTag,
        ident("exampleProvider"),
        Token::BraceClose,
        Token::Whitespace(b' '),
        Token::HtmlCommentClose,
    ]
}

fn closing_tokens() -> Vec<Token> {
    vec![
        Token::HtmlCommentOpen,
        Token::Whitespace(b' '),
        Token::CloseTag,
        ident("example"),
        Token::BraceClose,
        Token::Whitespace(b' '),
        Token::HtmlCommentClose,
    ]
}

#[test]
fn matches_tokens_consumer() {
    assert!(tokens_group(consumer_tokens()).matches_pattern(consumer_pattern()).unwrap());
}

#[test]
fn matches_tokens_provider() {
    assert!(tokens_group(provider_tokens()).matches_pattern(provider_pattern()).unwrap());
}

#[test]
fn matches_tokens_closing() {
    assert!(tokens_group(closing_tokens()).matches_pattern(closing_pattern()).unwrap());
}

#[test]
fn grammars_discriminate() {
    let g = tokens_group(closing_tokens());
    assert!(g.is_valid());
    assert!(matches!(g.matches_pattern(consumer_pattern()), Err(MdtError::InvalidTokenSequence(2))));
    assert!(matches!(g.matches_pattern(provider_pattern()), Err(MdtError::InvalidTokenSequence(2))));
}

#[test]
fn strict_prefixes_are_rejected() {
    for tokens in [consumer_tokens(), provider_tokens(), closing_tokens()] {
        for len in 0..tokens.len() {
            let prefix = tokens_group(tokens[..len].to_vec());
            assert!(!prefix.is_valid());
            for pattern in [closing_pattern(), provider_pattern(), consumer_pattern()] {
                assert!(!matches!(prefix.matches_pattern(pattern), Ok(true)));
            }
        }
    }
}

#[test]
fn trailing_tokens_give_false() {
    let mut tokens = closing_tokens();
    tokens.push(Token::Whitespace(b' '));
    tokens.push(Token::Pipe);
    let g = tokens_group(tokens);
    assert!(matches!(g.matches_pattern(closing_pattern()), Ok(false)));
    assert!(!g.is_valid());
}

#[test]
fn filters_with_arguments_match() {
    let tokens = vec![
        Token::HtmlCommentOpen,
        Token::Newline,
        Token::ProviderTag,
        ident("name"),
        Token::Pipe,
        Token::Whitespace(b' '),
        ident("replace"),
        Token::ArgumentDelimiter,
        Token::String("a".to_string(), b'\''),
        Token::ArgumentDelimiter,
        Token::Int(3),
        Token::ArgumentDelimiter,
        ident("true"),
        Token::Pipe,
        ident("trim"),
        Token::ArgumentDelimiter,
        Token::Float("0.5".to_string()),
        Token::BraceClose,
        Token::HtmlCommentClose,
    ];
    assert!(tokens_group(tokens).matches_pattern(provider_pattern()).unwrap());
}

#[test]
fn bare_ident_argument_is_rejected() {
    let tokens = vec![
        Token::HtmlCommentOpen,
        Token::ConsumerTag,
        ident("name"),
        Token::Pipe,
        ident("indent"),
        Token::ArgumentDelimiter,
        ident("other"),
        Token::BraceClose,
        Token::HtmlCommentClose,
    ];
    let g = tokens_group(tokens);
    assert!(matches!(g.matches_pattern(consumer_pattern()), Err(MdtError::InvalidTokenSequence(5))));
    assert!(!g.is_valid());
}

#[test]
fn combinators() {
    let g = tokens_group(vec![Token::Pipe, Token::Pipe, ident("a"), Token::Whitespace(b' ')]);
    let pipe = || vec![Token::Pipe];
    assert_eq!(one(pipe()).apply(&g, 0).unwrap(), 1);
    assert!(matches!(one(pipe()).apply(&g, 2), Err(MdtError::InvalidTokenSequence(2))));
    assert_eq!(many(pipe()).apply(&g, 0).unwrap(), 2);
    assert!(matches!(many(pipe()).apply(&g, 2), Err(MdtError::InvalidTokenSequence(2))));
    assert_eq!(optional(pipe()).apply(&g, 2).unwrap(), 2);
    assert_eq!(optional_many(pipe()).apply(&g, 1).unwrap(), 2);
    assert_eq!(optional_many(pipe()).apply(&g, 4).unwrap(), 4);
    let seq = || vec![one(vec![Token::Pipe]), optional(vec![ident("*")])];
    assert_eq!(group(seq()).apply(&g, 1).unwrap(), 3);
    assert_eq!(many_group(seq()).apply(&g, 0).unwrap(), 3);
    assert!(matches!(many_group(seq()).apply(&g, 3), Err(MdtError::InvalidTokenSequence(3))));
    assert_eq!(optional_group(seq()).apply(&g, 3).unwrap(), 3);
    assert_eq!(optional_many_group(seq()).apply(&g, 3).unwrap(), 3);
    assert_eq!(optional_many_group(seq()).apply(&g, 0).unwrap(), 3);
}

#[test]
fn combinators_past_the_end() {
    let g = tokens_group(vec![Token::Pipe]);
    let pipe = || vec![Token::Pipe];
    assert!(matches!(one(pipe()).apply(&g, 5), Err(MdtError::InvalidTokenSequence(5))));
    assert!(matches!(many(pipe()).apply(&g, 5), Err(MdtError::InvalidTokenSequence(5))));
    assert!(matches!(many(pipe()).apply(&g, 1), Err(MdtError::InvalidTokenSequence(1))));
    assert_eq!(optional(pipe()).apply(&g, 5).unwrap(), 5);
    assert_eq!(optional_many(pipe()).apply(&g, 5).unwrap(), 5);
    let seq = || vec![one(vec![Token::Pipe])];
    assert!(matches!(group(seq()).apply(&g, 5), Err(MdtError::InvalidTokenSequence(5))));
    assert_eq!(group(vec![]).apply(&g, 5).unwrap(), 5);
    assert!(matches!(many_group(seq()).apply(&g, 5), Err(MdtError::InvalidTokenSequence(5))));
    assert_eq!(optional_group(seq()).apply(&g, 5).unwrap(), 5);
    assert_eq!(optional_many_group(seq()).apply(&g, 5).unwrap(), 5);
}
