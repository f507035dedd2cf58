use markdown::mdast::Node;
use markdown::to_mdast;
use markdown::ParseOptions;
use mdt::lex_identifier;
use mdt::memchr;
use mdt::memstr;
use mdt::tokenize;
use mdt::HtmlNode;
use mdt::Point;
use mdt::Position;
use mdt::Token;
use mdt::TokenGroup;

fn collect_html(node: &Node, nodes: &mut Vec<HtmlNode>) {
    match node {
        Node::Html(html) => nodes.push(HtmlNode {
            value: html.value.clone(),
            position: html.position.as_ref().map(|p| {
                Position::new(
                    p.start.line,
                    p.start.column,
                    p.start.offset,
                    p.end.line,
                    p.end.column,
                    p.end.offset,
                )
            }),
        }),
        _ => {
            if let Some(children) = node.children() {
                for child in children {
                    collect_html(child, nodes);
                }
            }
        }
    }
}

fn lex(input: &str) -> Vec<TokenGroup> {
    let tree = to_mdast(input, &ParseOptions::gfm()).unwrap();
    let mut nodes = vec![];
    collect_html(&tree, &mut nodes);
    tokenize(nodes).unwrap()
}

fn ident(name: &str) -> Token {
    Token::Ident(name.to_string())
}

fn group(tokens: Vec<Token>, start: (usize, usize, usize), end: (usize, usize, usize)) -> TokenGroup {
    TokenGroup {
        tokens,
        position: Position {
            start: Point { line: start.0, column: start.1, offset: start.2 },
            end: Point { line: end.0, column: end.1, offset: end.2 },
        },
    }
}

fn consumer_token_group() -> TokenGroup {
    group(
        vec![
            Token::HtmlCommentOpen,
            Token::Whitespace(b' '),
            Token::ConsumerTag,
            ident("exampleName"),
            Token::BraceClose,
            Token::Whitespace(b' '),
            Token::HtmlCommentClose,
        ],
        (1, 1, 0),
        (1, 24, 23),
    )
}

fn consumer_token_group_with_arguments() -> TokenGroup {
    group(
        vec![
            Token::HtmlCommentOpen,
            Token::Whitespace(b' '),
            Token::ConsumerTag,
            ident("exampleName"),
            Token::Pipe,
            ident("trim"),
            Token::Pipe,
            ident("indent"),
            Token::ArgumentDelimiter,
            Token::String("/// ".to_string(), b'"'),
            Token::BraceClose,
            Token::Whitespace(b' '),
            Token::HtmlCommentClose,
        ],
        (1, 1, 0),
        (1, 43, 42),
    )
}

fn provider_token_group() -> TokenGroup {
    group(
        vec![
            Token::HtmlCommentOpen,
            Token::Whitespace(b' '),
            Token::ProviderTag,
            ident("exampleProvider"),
            Token::BraceClose,
            Token::Whitespace(b' '),
            Token::HtmlCommentClose,
        ],
        (1, 1, 0),
        (1, 28, 27),
    )
}

fn closing_token_group() -> TokenGroup {
    group(
        vec![
            Token::HtmlCommentOpen,
            Token::Whitespace(b' '),
            Token::CloseTag,
            ident("example"),
            Token::BraceClose,
            Token::Whitespace(b' '),
            Token::HtmlCommentClose,
        ],
        (1, 1, 0),
        (1, 20, 19),
    )
}

fn closing_token_group_no_whitespace() -> TokenGroup {
    group(
        vec![
            Token::HtmlCommentOpen,
            Token::Newline,
            Token::CloseTag,
            ident("example"),
            Token::BraceClose,
            Token::HtmlCommentClose,
        ],
        (1, 2, 1),
        (2, 13, 19),
    )
}

#[test]
fn generate_tokens_without_comment() {
    assert_eq!(lex("<div /><p>awesome</p>"), vec![]);
}

#[test]
fn generate_tokens_empty_html_comment() {
    assert_eq!(lex("<!--\n-->"), vec![]);
}

#[test]
fn generate_tokens_invalid_html_comment() {
    assert_eq!(lex(r#"<!-- abcd -->"#), vec![]);
}

#[test]
fn generate_tokens_multi_invalid_html_comment() {
    assert_eq!(lex(r#"<!-- abcd --> <!-- abcd -->"#), vec![]);
}

#[test]
fn generate_tokens_consumer() {
    let groups = lex(r#"<!-- {=exampleName} -->"#);
    assert_eq!(groups, vec![consumer_token_group()]);
    assert_eq!(groups[0].position.start.offset, 0);
    assert_eq!(groups[0].position.end.offset, 23);
    assert!(groups[0].matches_pattern(mdt::patterns::consumer_pattern()).unwrap());
}

#[test]
fn generate_tokens_provider() {
    let groups = lex(r#"<!-- {@exampleProvider} -->"#);
    assert_eq!(groups, vec![provider_token_group()]);
    assert!(groups[0].matches_pattern(mdt::patterns::provider_pattern()).unwrap());
}

#[test]
fn generate_tokens_closing() {
    let groups = lex(r#"<!-- {/example} -->"#);
    assert_eq!(groups, vec![closing_token_group()]);
    assert!(groups[0].matches_pattern(mdt::patterns::closing_pattern()).unwrap());
}

#[test]
fn generate_tokens_closing_whitespace() {
    assert_eq!(lex(" <!--\n{/example}--> "), vec![closing_token_group_no_whitespace()]);
}

#[test]
fn generate_tokens_consumer_with_arguments() {
    let groups = lex(r#"<!-- {=exampleName|trim|indent:"/// "} -->"#);
    assert_eq!(groups, vec![consumer_token_group_with_arguments()]);
    assert!(groups[0].matches_pattern(mdt::patterns::consumer_pattern()).unwrap());
    match &groups[0].tokens[9] {
        Token::String(value, _) => assert_eq!(value, "/// "),
        other => panic!("expected a string, found {:?}", other),
    }
}

#[test]
fn numbers_become_int_and_float_tokens() {
    let groups = lex(r#"<!-- {=a|pad:12|scale:1.5e3} -->"#);
    assert_eq!(groups.len(), 1);
    assert!(groups[0].tokens.contains(&Token::Int(12)));
    assert!(groups[0].tokens.contains(&Token::Float("1.5e3".to_string())));
}

#[test]
fn integer_overflow_drops_the_group() {
    assert_eq!(lex(r#"<!-- {=a|pad:99999999999999999999} -->"#), vec![]);
}

#[test]
fn float_without_exponent_digits_drops_the_group() {
    assert_eq!(lex(r#"<!-- {=a|scale:1e} -->"#), vec![]);
}

#[test]
fn escaped_string_is_unescaped() {
    let groups = lex("<!-- {=a|wrap:'\"x\\ty\"'} -->");
    assert_eq!(groups.len(), 1);
    assert!(groups[0].tokens.contains(&Token::String("x\ty".to_string(), b'\'')));
}

#[test]
fn invalid_escape_drops_the_group() {
    assert_eq!(lex("<!-- {=a|wrap:'\"\\q\"'} -->"), vec![]);
}

#[test]
fn unterminated_string_drops_the_group() {
    assert_eq!(lex(r#"<!-- {=a|wrap:"abc} -->"#), vec![]);
}

#[test]
fn recovery_in_filter_resumes_after_the_comment() {
    let groups = lex(r#"<!-- {=a|x!} --><!-- {/b} -->"#);
    assert_eq!(groups.len(), 1);
    assert_eq!(groups[0].tokens[3], ident("b"));
    assert_eq!(groups[0].position.start.offset, 16);
    assert_eq!(groups[0].position.end.offset, 29);
}

#[test]
fn recovery_in_tag_resumes_after_the_comment() {
    let groups = lex(r#"<!-- {=a!} --><!-- {/b} -->"#);
    assert_eq!(groups.len(), 1);
    assert_eq!(groups[0].tokens[2], Token::CloseTag);
    assert_eq!(groups[0].tokens[3], ident("b"));
    assert_eq!(groups[0].position.start.offset, 14);
    assert_eq!(groups[0].position.end.offset, 27);
}

#[test]
fn malformed_tag_does_not_hide_a_later_tag_in_the_same_node() {
    let groups = lex(r#"<!-- {=a.b} --> <!-- {=c} -->"#);
    assert_eq!(groups.len(), 1);
    assert_eq!(groups[0].tokens[2], Token::ConsumerTag);
    assert_eq!(groups[0].tokens[3], ident("c"));
    assert_eq!(groups[0].position.start.offset, 16);
    assert!(groups[0].matches_pattern(mdt::patterns::consumer_pattern()).unwrap());
}

#[test]
fn identifier_lengths() {
    assert_eq!(lex_identifier("abc1 x"), 4);
    assert_eq!(lex_identifier("_a"), 2);
    assert_eq!(lex_identifier("1abc"), 0);
    assert_eq!(lex_identifier(""), 0);
    assert_eq!(lex_identifier("a-b"), 1);
    assert_eq!(lex_identifier("é"), 0);
}

#[test]
fn recovery_without_closing_reaches_the_end() {
    assert_eq!(lex(r#"<!-- {=a|x!"#), vec![]);
}

#[test]
fn node_without_position_is_passed_over() {
    let nodes = vec![HtmlNode { value: "<!-- {/a} -->".to_string(), position: None }];
    assert_eq!(tokenize(nodes).unwrap(), vec![]);
}

#[test]
fn groups_span_their_tokens() {
    let groups = lex("<!-- {=a|f:\"q\"} -->\n\n<!-- {/a} -->");
    assert_eq!(groups.len(), 2);
    for g in &groups {
        let last = g.tokens.len();
        assert_eq!(g.position_of_range(0..last), g.position);
    }
    assert_eq!(groups[1].position.start.line, 3);
}

#[test]
fn memchr_finds_first() {
    assert_eq!(memchr(b"abcabc", b'c'), Some(2));
    assert_eq!(memchr(b"abc", b'z'), None);
}

#[test]
fn memstr_finds_first_window() {
    assert_eq!(memstr(b"a --> b -->", b"-->"), Some(2));
    assert_eq!(memstr(b"a -- b", b"-->"), None);
    assert_eq!(memstr(b"-", b"-->"), None);
}

fn lex_filter_argument(token: &Token) -> Token {
    let input = format!("<!-- {{=a|f:{}}} -->", token.to_string());
    let groups = lex(&input);
    assert_eq!(groups.len(), 1, "{:?} in {:?}", token, input);
    groups[0].tokens[7].clone()
}

#[test]
fn rendered_tokens_lex_back() {
    let tokens = vec![
        Token::String("two words".to_string(), b'"'),
        Token::String("it is".to_string(), b'\''),
        Token::Int(0),
        Token::Int(9223372036854775807),
        Token::Float("0.5".to_string()),
        Token::Float("12e-3".to_string()),
        Token::Float("7.E+10".to_string()),
        Token::Ident("true".to_string()),
    ];
    for token in tokens {
        let back = lex_filter_argument(&token);
        assert!(back.same_type(&token));
        assert_eq!(back, token);
    }
}

#[test]
fn rendered_names_lex_back() {
    for name in ["a", "snake_case_9", "CamelCase"] {
        let token = Token::Ident(name.to_string());
        let groups = lex(&format!("<!-- {{/{}}} -->", token.to_string()));
        assert_eq!(groups.len(), 1);
        assert_eq!(groups[0].tokens[3], token);
        assert_eq!(groups[0].position.end.offset, 12 + name.len());
    }
}

#[test]
fn many_malformed_comments_then_a_tag() {
    let input = "<!-- {=a|!} --> <!-- {=b|\"x} --> <!-- {=c|1e+} --> <!-- {@d} -->";
    let groups = lex(input);
    assert_eq!(groups.len(), 1);
    assert_eq!(groups[0].tokens[3], ident("d"));
    assert_eq!(groups[0].position.start.offset, 51);
    assert_eq!(groups[0].position.end.offset, 64);
}

#[test]
fn node_fits_checks_coordinates() {
    let near_end = Position::new(1, 1, usize::MAX - 3, 1, 1, usize::MAX);
    let small = HtmlNode { value: "abc".to_string(), position: Some(near_end) };
    let large = HtmlNode { value: "abcd".to_string(), position: Some(near_end) };
    assert!(small.fits());
    assert!(!large.fits());
    assert!(HtmlNode { value: "abcd".to_string(), position: None }.fits());
}
