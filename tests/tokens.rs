use mdt::get_bounds_index;
use mdt::DynamicRange;
use mdt::Point;
use mdt::Position;
use mdt::RangeBound;
use mdt::Token;
use mdt::TokenGroup;

fn closing_token_group() -> TokenGroup {
    TokenGroup {
        tokens: vec![
            Token::HtmlCommentOpen,
            Token::Whitespace(b' '),
            Token::CloseTag,
            Token::Ident("example".to_string()),
            Token::BraceClose,
            Token::Whitespace(b' '),
            Token::HtmlCommentClose,
        ],
        position: Position::new(1, 1, 0, 1, 20, 19),
    }
}

#[test]
fn get_position_of_tokens_first() {
    assert_eq!(closing_token_group().position_of_range(0..1), Position::new(1, 1, 0, 1, 5, 4));
}

#[test]
fn get_position_of_tokens_from() {
    let range = (RangeBound::Included(1), RangeBound::Unbounded);
    assert_eq!(closing_token_group().position_of_range(range), Position::new(1, 5, 4, 1, 20, 19));
}

#[test]
fn get_position_of_tokens_range() {
    assert_eq!(closing_token_group().position_of_range(2..4), Position::new(1, 6, 5, 1, 15, 14));
}

#[test]
fn get_position_of_tokens_inclusive() {
    let range = (RangeBound::Included(2), RangeBound::Included(4));
    assert_eq!(closing_token_group().position_of_range(range), Position::new(1, 6, 5, 1, 16, 15));
}

#[test]
fn get_position_of_tokens_to() {
    let range = DynamicRange { start_bound: RangeBound::Unbounded, end_bound: RangeBound::Excluded(6) };
    assert_eq!(closing_token_group().position_of_range(range), Position::new(1, 1, 0, 1, 17, 16));
}

#[test]
fn get_position_of_tokens_out_of_bounds() {
    assert_eq!(closing_token_group().position_of_range(1..100), Position::new(1, 5, 4, 1, 20, 19));
}

#[test]
fn get_position_of_tokens_index() {
    assert_eq!(closing_token_group().position_of_range(3usize), Position::new(1, 8, 7, 1, 15, 14));
    assert_eq!(closing_token_group().position_of_range(3u8), Position::new(1, 8, 7, 1, 15, 14));
    assert_eq!(closing_token_group().position_of_range(3), Position::new(1, 8, 7, 1, 15, 14));
    assert_eq!(closing_token_group().position_of_range(3u64), Position::new(1, 8, 7, 1, 15, 14));
    assert_eq!(closing_token_group().position_of_range(3u128), Position::new(1, 8, 7, 1, 15, 14));
    assert_eq!(closing_token_group().position_of_range(-1i64), Position::new(1, 17, 16, 1, 20, 19));
}

#[test]
fn range_of_everything_is_the_group_position() {
    let g = closing_token_group();
    assert_eq!(g.position_of_range(0..7), g.position);
}

#[test]
fn empty_ranges_have_zero_width() {
    let g = closing_token_group();
    for i in 0..7usize {
        let p = g.position_of_range(i..i);
        assert_eq!(p.start, p.end);
    }
    assert_eq!(g.position_of_range(3..3).start, Point::new(1, 8, 7));
}

#[test]
fn start_past_end_gives_empty_range() {
    let g = closing_token_group();
    let p = g.position_of_range(5..2);
    assert_eq!(p.start, p.end);
    assert_eq!(p.start.offset, 15);
}

#[test]
fn wildcard_ident_matches_any_ident() {
    let any = Token::Ident("*".to_string());
    let name = Token::Ident("anything".to_string());
    assert!(any.same_type(&name));
    assert!(name.same_type(&any));
    assert!(!Token::Ident("a".to_string()).same_type(&Token::Ident("b".to_string())));
}

#[test]
fn wildcard_whitespace_matches_any_whitespace() {
    assert!(Token::Whitespace(b'*').same_type(&Token::Whitespace(b'\t')));
    assert!(!Token::Whitespace(b' ').same_type(&Token::Whitespace(b'\t')));
    assert!(!Token::Whitespace(b'*').same_type(&Token::Newline));
}

#[test]
fn literals_match_by_kind() {
    assert!(Token::Int(1).same_type(&Token::Int(2)));
    assert!(Token::String("a".to_string(), b'"').same_type(&Token::String("b".to_string(), b'\'')));
    assert!(Token::Float("1.0".to_string()).same_type(&Token::Float("2e3".to_string())));
    assert!(!Token::Int(1).same_type(&Token::Float("1.0".to_string())));
    assert!(Token::Pipe.same_type(&Token::Pipe));
    assert!(!Token::Pipe.same_type(&Token::BraceClose));
}

#[test]
fn structural_equality_compares_values() {
    assert_eq!(Token::Ident("a".to_string()), Token::Ident("a".to_string()));
    assert_ne!(Token::Ident("a".to_string()), Token::Ident("*".to_string()));
    assert_ne!(Token::String("a".to_string(), b'"'), Token::String("a".to_string(), b'\''));
    assert_ne!(Token::Whitespace(b' '), Token::Whitespace(b'*'));
}

#[test]
fn increments() {
    assert_eq!(Token::HtmlCommentOpen.increment(), 4);
    assert_eq!(Token::HtmlCommentClose.increment(), 3);
    assert_eq!(Token::ConsumerTag.increment(), 2);
    assert_eq!(Token::Whitespace(b' ').increment(), 1);
    assert_eq!(Token::String("abc".to_string(), b'"').increment(), 5);
    assert_eq!(Token::String("é".to_string(), b'"').increment(), 4);
    assert_eq!(Token::Ident("name".to_string()).increment(), 4);
    assert_eq!(Token::Int(-120).increment(), 4);
    assert_eq!(Token::Int(0).increment(), 1);
    assert_eq!(Token::Float("1.25".to_string()).increment(), 4);
}

#[test]
fn rendered_text() {
    assert_eq!(Token::Newline.to_string(), "\n");
    assert_eq!(Token::ProviderTag.to_string(), "{@");
    assert_eq!(Token::String("/// ".to_string(), b'"').to_string(), "\"/// \"");
    assert_eq!(Token::Int(-9223372036854775808).to_string(), "-9223372036854775808");
    assert_eq!(Token::Int(407).to_string(), "407");
    assert_eq!(Token::Whitespace(b'\t').to_string(), "\t");
}

#[test]
fn bounds_index() {
    assert_eq!(get_bounds_index((RangeBound::Included(2), RangeBound::Included(4))), (Some(2), Some(5)));
    assert_eq!(get_bounds_index((RangeBound::Excluded(1), RangeBound::Excluded(3))), (Some(1), Some(3)));
    assert_eq!(get_bounds_index((RangeBound::Unbounded, RangeBound::Unbounded)), (None, None));
    let range = DynamicRange { start_bound: RangeBound::Included(7), end_bound: RangeBound::Included(7) };
    assert_eq!(range.start(), Some(7));
    assert_eq!(range.end(), Some(8));
}
